use trenchcraft::exporter::map_file_text;
use trenchcraft::optimizer::Brush;

fn line(out: &mut String, l: String) {
    out.push_str(&l);
    out.push('\n');
}

/// The expected file text, written out with `format!`: each brush at its own
/// corners.
fn expected(brushes: &[Brush]) -> String {
    let mut out = String::new();
    line(&mut out, format!("// Game: Generic"));
    line(&mut out, format!("// Format: Valve"));
    line(&mut out, format!("// entity 0"));
    line(&mut out, format!("{{"));
    line(&mut out, format!("\"classname\" \"worldspawn\""));
    line(&mut out, format!("\"mapversion\" \"220\""));
    for brush in brushes {
        let tex = &brush.texture;
        let (x1, y1, z1) = brush.min;
        let (x2, y2, z2) = brush.max;
        line(&mut out, format!("// Brush"));
        line(&mut out, format!("{{"));
        line(&mut out, format!("( {} {} {} ) ( {} {} {} ) ( {} {} {} ) {} [ 1 0 0 0 ] [ 0 -1 0 0 ] 0 1 1", x2, y2, z2, x2, y1, z2, x1, y1, z2, tex));
        line(&mut out, format!("( {} {} {} ) ( {} {} {} ) ( {} {} {} ) {} [ 1 0 0 0 ] [ 0 -1 0 0 ] 0 1 1", x2, y1, z1, x2, y2, z1, x1, y2, z1, tex));
        line(&mut out, format!("( {} {} {} ) ( {} {} {} ) ( {} {} {} ) {} [ 0 1 0 0 ] [ 0 0 -1 0 ] 0 1 1", x2, y2, z2, x2, y2, z1, x2, y1, z1, tex));
        line(&mut out, format!("( {} {} {} ) ( {} {} {} ) ( {} {} {} ) {} [ 0 1 0 0 ] [ 0 0 -1 0 ] 0 1 1", x1, y1, z2, x1, y1, z1, x1, y2, z1, tex));
        line(&mut out, format!("( {} {} {} ) ( {} {} {} ) ( {} {} {} ) {} [ 1 0 0 0 ] [ 0 0 -1 0 ] 0 1 1", x2, y2, z2, x1, y2, z2, x1, y2, z1, tex));
        line(&mut out, format!("( {} {} {} ) ( {} {} {} ) ( {} {} {} ) {} [ 1 0 0 0 ] [ 0 0 -1 0 ] 0 1 1", x1, y1, z2, x2, y1, z2, x2, y1, z1, tex));
        line(&mut out, format!("}}"));
    }
    line(&mut out, format!("}}"));
    out
}

fn brush(min: (i32, i32, i32), max: (i32, i32, i32), t: &str) -> Brush {
    Brush { min, max, texture: t.to_string() }
}

#[test]
fn empty_map_text() {
    let bs: Vec<Brush> = vec![];
    let text = map_file_text(&bs);
    assert_eq!(text, "// Game: Generic\n// Format: Valve\n// entity 0\n{\n\"classname\" \"worldspawn\"\n\"mapversion\" \"220\"\n}\n");
    assert_eq!(text, expected(&bs));
}

#[test]
fn one_brush_text() {
    let bs = vec![brush((0, 0, 0), (32, 64, 96), "textures/minecraft/stone")];
    let text = map_file_text(&bs);
    assert_eq!(text, expected(&bs));
    assert!(text.contains("( 32 64 96 ) ( 32 0 96 ) ( 0 0 96 ) textures/minecraft/stone [ 1 0 0 0 ] [ 0 -1 0 0 ] 0 1 1\n"));
    assert_eq!(
        text,
        "// Game: Generic\n// Format: Valve\n// entity 0\n{\n\"classname\" \"worldspawn\"\n\"mapversion\" \"220\"\n\
// Brush\n{\n\
( 32 64 96 ) ( 32 0 96 ) ( 0 0 96 ) textures/minecraft/stone [ 1 0 0 0 ] [ 0 -1 0 0 ] 0 1 1\n\
( 32 0 0 ) ( 32 64 0 ) ( 0 64 0 ) textures/minecraft/stone [ 1 0 0 0 ] [ 0 -1 0 0 ] 0 1 1\n\
( 32 64 96 ) ( 32 64 0 ) ( 32 0 0 ) textures/minecraft/stone [ 0 1 0 0 ] [ 0 0 -1 0 ] 0 1 1\n\
( 0 0 96 ) ( 0 0 0 ) ( 0 64 0 ) textures/minecraft/stone [ 0 1 0 0 ] [ 0 0 -1 0 ] 0 1 1\n\
( 32 64 96 ) ( 0 64 96 ) ( 0 64 0 ) textures/minecraft/stone [ 1 0 0 0 ] [ 0 0 -1 0 ] 0 1 1\n\
( 0 0 96 ) ( 32 0 96 ) ( 32 0 0 ) textures/minecraft/stone [ 1 0 0 0 ] [ 0 0 -1 0 ] 0 1 1\n\
}\n}\n"
    );
}

#[test]
fn negative_and_multi_digit_coordinates() {
    let bs = vec![
        brush((-14, -1, 0), (18, 32, 1000), "a"),
        brush((123456, -98765, 7), (-3, 9, 10), "b c"),
    ];
    assert_eq!(map_file_text(&bs), expected(&bs));
}

#[test]
fn extreme_coordinates_are_written_in_full() {
    let bs = vec![brush((i32::MIN, -2147483647, 0), (i32::MAX, 2147483646, 1), "x")];
    let text = map_file_text(&bs);
    assert_eq!(text, expected(&bs));
    assert!(text.contains("( 2147483647 2147483646 1 ) ( 2147483647 -2147483647 1 ) ( -2147483648 -2147483647 1 ) x"));
}

fn numbers(line: &str) -> Vec<i64> {
    line.split(|c: char| c == '(' || c == ')')
        .enumerate()
        .filter(|(i, _)| i % 2 == 1)
        .flat_map(|(_, p)| p.split_whitespace().map(|n| n.parse::<i64>().unwrap()).collect::<Vec<_>>())
        .collect()
}

#[test]
fn face_normals_point_outward() {
    let bs = vec![brush((-32, 64, 0), (96, 80, 48), "t")];
    let text = map_file_text(&bs);
    let faces: Vec<&str> = text.lines().filter(|l| l.starts_with('(')).collect();
    assert_eq!(faces.len(), 6);
    let outward = [(0, 0, 1), (0, 0, -1), (1, 0, 0), (-1, 0, 0), (0, 1, 0), (0, -1, 0)];
    for (k, line) in faces.iter().enumerate() {
        let n = numbers(line);
        let p = [(n[0], n[1], n[2]), (n[3], n[4], n[5]), (n[6], n[7], n[8])];
        let u = (p[0].0 - p[1].0, p[0].1 - p[1].1, p[0].2 - p[1].2);
        let v = (p[2].0 - p[1].0, p[2].1 - p[1].1, p[2].2 - p[1].2);
        let c = (u.1 * v.2 - u.2 * v.1, u.2 * v.0 - u.0 * v.2, u.0 * v.1 - u.1 * v.0);
        let o = outward[k];
        assert!(c.0 * o.0 + c.1 * o.1 + c.2 * o.2 > 0, "face {}", k);
        assert_eq!(c.0 * (1 - o.0.abs()), 0);
        assert_eq!(c.1 * (1 - o.1.abs()), 0);
        assert_eq!(c.2 * (1 - o.2.abs()), 0);
    }
}

#[test]
fn lines_and_axes_of_the_file() {
    let bs = vec![brush((0, 0, 0), (32, 32, 32), "a"), brush((1, 2, 3), (4, 5, 6), "b")];
    let text = map_file_text(&bs);
    assert!(text.ends_with('\n'));
    assert_eq!(text.matches('\n').count(), 7 + 9 * bs.len());
    let faces: Vec<&str> = text.lines().filter(|l| l.starts_with('(')).collect();
    let axes = [
        "[ 1 0 0 0 ] [ 0 -1 0 0 ] 0 1 1",
        "[ 1 0 0 0 ] [ 0 -1 0 0 ] 0 1 1",
        "[ 0 1 0 0 ] [ 0 0 -1 0 ] 0 1 1",
        "[ 0 1 0 0 ] [ 0 0 -1 0 ] 0 1 1",
        "[ 1 0 0 0 ] [ 0 0 -1 0 ] 0 1 1",
        "[ 1 0 0 0 ] [ 0 0 -1 0 ] 0 1 1",
    ];
    for (i, line) in faces.iter().enumerate() {
        assert!(line.ends_with(&format!(" {}", axes[i % 6])));
    }
}

#[test]
fn one_brush_comment_line_per_brush() {
    let bs = vec![
        brush((0, 0, 0), (32, 32, 32), "a"),
        brush((1, 2, 3), (4, 5, 6), "// Brush"),
        brush((-5, -5, -5), (0, 0, 0), "c"),
    ];
    let text = map_file_text(&bs);
    let lines: Vec<&str> = text.lines().collect();
    assert_eq!(lines.len(), 7 + 9 * bs.len());
    assert_eq!(lines.iter().filter(|l| **l == "// Brush").count(), bs.len());
    for i in 0..bs.len() {
        assert_eq!(lines[6 + 9 * i], "// Brush");
        assert_eq!(lines[6 + 9 * i + 1], "{");
        assert_eq!(lines[6 + 9 * i + 8], "}");
    }
    assert_eq!(lines[lines.len() - 1], "}");
}
