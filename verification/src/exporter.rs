//! The text of a Valve 220 `.map` file holding the brushes of one worldspawn
//! entity.
use vstd::prelude::*;
use vstd::string::*;
use crate::optimizer::{Brush, BrushView, brush_views};

verus! {

/// The decimal digit `d`.
pub open spec fn digit_text(d: int) -> Seq<char> {
    if d == 0 {
        "0"@
    } else if d == 1 {
        "1"@
    } else if d == 2 {
        "2"@
    } else if d == 3 {
        "3"@
    } else if d == 4 {
        "4"@
    } else if d == 5 {
        "5"@
    } else if d == 6 {
        "6"@
    } else if d == 7 {
        "7"@
    } else if d == 8 {
        "8"@
    } else {
        "9"@
    }
}

/// The decimal numeral of `n`, without leading zeros.
pub open spec fn nat_text(n: nat) -> Seq<char>
    decreases n,
{
    if n < 10 {
        digit_text(n as int)
    } else {
        nat_text(n / 10) + digit_text((n % 10) as int)
    }
}

/// The decimal numeral of `i`, with a `-` before a negative number.
pub open spec fn int_text(i: int) -> Seq<char> {
    if i < 0 {
        "-"@ + nat_text((-i) as nat)
    } else {
        nat_text(i as nat)
    }
}

/// A plane point: `( x y z )`.
#[verifier::opaque]
pub open spec fn point_text(p: (int, int, int)) -> Seq<char> {
    "( "@ + int_text(p.0) + " "@ + int_text(p.1) + " "@ + int_text(p.2) + " )"@
}

/// One face line: three points, the texture, and its texture axes.
#[verifier::opaque]
pub open spec fn face_text(
    p1: (int, int, int),
    p2: (int, int, int),
    p3: (int, int, int),
    tex: Seq<char>,
    axes: Seq<char>,
) -> Seq<char> {
    point_text(p1) + " "@ + point_text(p2) + " "@ + point_text(p3) + " "@ + tex + " "@ + axes + "\n"@
}

/// Texture axes of the top and bottom faces.
pub open spec fn axes_xy() -> Seq<char> {
    "[ 1 0 0 0 ] [ 0 -1 0 0 ] 0 1 1"@
}

/// Texture axes of the front and back faces.
pub open spec fn axes_yz() -> Seq<char> {
    "[ 0 1 0 0 ] [ 0 0 -1 0 ] 0 1 1"@
}

/// Texture axes of the right and left faces.
pub open spec fn axes_xz() -> Seq<char> {
    "[ 1 0 0 0 ] [ 0 0 -1 0 ] 0 1 1"@
}

/// The three points of face `k` of a brush, at its corners: top (k = 0),
/// bottom, front, back, right, left (k = 5), i.e. the faces at the maximum
/// third, minimum third, maximum first, minimum first, maximum second and
/// minimum second coordinate.
pub open spec fn face_points(b: BrushView, k: int) -> ((int, int, int), (int, int, int), (int, int, int)) {
    let x1 = b.min.0;
    let y1 = b.min.1;
    let z1 = b.min.2;
    let x2 = b.max.0;
    let y2 = b.max.1;
    let z2 = b.max.2;
    if k == 0 {
        ((x2, y2, z2), (x2, y1, z2), (x1, y1, z2))
    } else if k == 1 {
        ((x2, y1, z1), (x2, y2, z1), (x1, y2, z1))
    } else if k == 2 {
        ((x2, y2, z2), (x2, y2, z1), (x2, y1, z1))
    } else if k == 3 {
        ((x1, y1, z2), (x1, y1, z1), (x1, y2, z1))
    } else if k == 4 {
        ((x2, y2, z2), (x1, y2, z2), (x1, y2, z1))
    } else {
        ((x1, y1, z2), (x2, y1, z2), (x2, y1, z1))
    }
}

/// The Valve 220 texture axes of face `k`: those of the horizontal faces
/// for top and bottom, of the faces across the first axis for front and
/// back, of the faces across the second axis for right and left.
pub open spec fn face_axes(k: int) -> Seq<char> {
    if k <= 1 {
        axes_xy()
    } else if k <= 3 {
        axes_yz()
    } else {
        axes_xz()
    }
}

/// The line of face `k` of a brush.
pub open spec fn face_line(b: BrushView, k: int) -> Seq<char> {
    let p = face_points(b, k);
    face_text(p.0, p.1, p.2, b.texture, face_axes(k))
}

/// A brush block: a `// Brush` line, `{`, the lines of its six faces in
/// order, and `}`. The faces are written at the brush's own corners.
#[verifier::opaque]
pub open spec fn brush_text(b: BrushView) -> Seq<char> {
    "// Brush\n"@ + "{\n"@ + face_line(b, 0) + face_line(b, 1) + face_line(b, 2) + face_line(b, 3)
        + face_line(b, 4) + face_line(b, 5) + "}\n"@
}

/// The difference `p - q` of two points.
pub open spec fn diff(p: (int, int, int), q: (int, int, int)) -> (int, int, int) {
    (p.0 - q.0, p.1 - q.1, p.2 - q.2)
}

/// The cross product `u × v`.
pub open spec fn cross(u: (int, int, int), v: (int, int, int)) -> (int, int, int) {
    (u.1 * v.2 - u.2 * v.1, u.2 * v.0 - u.0 * v.2, u.0 * v.1 - u.1 * v.0)
}

/// The normal a map editor computes for a face from its three points:
/// `(p0 - p1) × (p2 - p1)`.
pub open spec fn face_normal(b: BrushView, k: int) -> (int, int, int) {
    let p = face_points(b, k);
    cross(diff(p.0, p.1), diff(p.2, p.1))
}

/// `n` points out of face `k` of a box: along the face's own axis, away
/// from the box.
pub open spec fn points_outward(n: (int, int, int), k: int) -> bool {
    if k == 0 {
        n.0 == 0 && n.1 == 0 && n.2 > 0
    } else if k == 1 {
        n.0 == 0 && n.1 == 0 && n.2 < 0
    } else if k == 2 {
        n.0 > 0 && n.1 == 0 && n.2 == 0
    } else if k == 3 {
        n.0 < 0 && n.1 == 0 && n.2 == 0
    } else if k == 4 {
        n.0 == 0 && n.1 > 0 && n.2 == 0
    } else {
        n.0 == 0 && n.1 < 0 && n.2 == 0
    }
}

/// The point lies on face `k` of the brush: in the face's plane, at a
/// corner of the brush.
pub open spec fn on_face(b: BrushView, k: int, p: (int, int, int)) -> bool {
    &&& (p.0 == b.min.0 || p.0 == b.max.0)
    &&& (p.1 == b.min.1 || p.1 == b.max.1)
    &&& (p.2 == b.min.2 || p.2 == b.max.2)
    &&& k == 0 ==> p.2 == b.max.2
    &&& k == 1 ==> p.2 == b.min.2
    &&& k == 2 ==> p.0 == b.max.0
    &&& k == 3 ==> p.0 == b.min.0
    &&& k == 4 ==> p.1 == b.max.1
    &&& k == 5 ==> p.1 == b.min.1
}

/// Plane points wind so that every face normal points outward: for a brush
/// of positive size, the three points of each of its six faces lie on that
/// face, and `(p0 - p1) × (p2 - p1)` points out of the brush.
pub proof fn law_faces_wind_outward(b: BrushView)
    requires
        b.min.0 < b.max.0,
        b.min.1 < b.max.1,
        b.min.2 < b.max.2,
    ensures
        forall|k: int|
            0 <= k < 6 ==> {
                &&& on_face(b, k, face_points(b, k).0)
                &&& on_face(b, k, face_points(b, k).1)
                &&& on_face(b, k, face_points(b, k).2)
                &&& points_outward(#[trigger] face_normal(b, k), k)
            },
{
    let dx = b.max.0 - b.min.0;
    let dy = b.max.1 - b.min.1;
    let dz = b.max.2 - b.min.2;
    assert(dy * dx > 0 && dz * dy > 0 && dx * dz > 0) by (nonlinear_arith)
        requires
            dx > 0,
            dy > 0,
            dz > 0,
    ;
    assert forall|k: int| 0 <= k < 6 implies points_outward(#[trigger] face_normal(b, k), k) by {
        let p = face_points(b, k);
        let u = diff(p.0, p.1);
        let v = diff(p.2, p.1);
        assert(face_normal(b, k) == cross(u, v));
        if k == 0 {
            assert(cross(u, v) == (0int, 0int, dy * dx)) by (nonlinear_arith)
                requires
                    u == (0int, dy, 0int),
                    v == (-dx, 0int, 0int),
            ;
        } else if k == 1 {
            assert(cross(u, v) == (0int, 0int, -(dy * dx))) by (nonlinear_arith)
                requires
                    u == (0int, -dy, 0int),
                    v == (-dx, 0int, 0int),
            ;
        } else if k == 2 {
            assert(cross(u, v) == (dz * dy, 0int, 0int)) by (nonlinear_arith)
                requires
                    u == (0int, 0int, dz),
                    v == (0int, -dy, 0int),
            ;
        } else if k == 3 {
            assert(cross(u, v) == (-(dz * dy), 0int, 0int)) by (nonlinear_arith)
                requires
                    u == (0int, 0int, dz),
                    v == (0int, dy, 0int),
            ;
        } else if k == 4 {
            assert(cross(u, v) == (0int, dx * dz, 0int)) by (nonlinear_arith)
                requires
                    u == (dx, 0int, 0int),
                    v == (0int, 0int, -dz),
            ;
        } else {
            assert(cross(u, v) == (0int, -(dx * dz), 0int)) by (nonlinear_arith)
                requires
                    u == (-dx, 0int, 0int),
                    v == (0int, 0int, -dz),
            ;
        }
    }
}

/// The brush blocks of a list of brushes, in order.
pub open spec fn brushes_text(bs: Seq<BrushView>) -> Seq<char>
    decreases bs.len(),
{
    if bs.len() == 0 {
        Seq::empty()
    } else {
        brushes_text(bs.drop_last()) + brush_text(bs.last())
    }
}

/// The file header: game and format comments and the opening of the
/// worldspawn entity with its class name and map version.
pub open spec fn map_header() -> Seq<char> {
    "// Game: Generic\n"@ + "// Format: Valve\n"@ + "// entity 0\n"@ + "{\n"@
        + "\"classname\" \"worldspawn\"\n"@ + "\"mapversion\" \"220\"\n"@
}

/// The whole file: the header, the brushes, and the closing of the entity.
pub open spec fn map_text(bs: Seq<BrushView>) -> Seq<char> {
    map_header() + brushes_text(bs) + "}\n"@
}

/// The number of line ends in `s`.
pub open spec fn newlines(s: Seq<char>) -> int
    decreases s.len(),
{
    if s.len() == 0 {
        0
    } else {
        newlines(s.drop_last()) + if s.last() == '\n' {
            1int
        } else {
            0int
        }
    }
}

/// `s` holds no line end.
pub open spec fn single_line(s: Seq<char>) -> bool {
    forall|i: int| 0 <= i < s.len() ==> s[i] != '\n'
}

proof fn lemma_newlines_concat(a: Seq<char>, b: Seq<char>)
    ensures
        newlines(a + b) == newlines(a) + newlines(b),
    decreases b.len(),
{
    if b.len() > 0 {
        lemma_newlines_concat(a, b.drop_last());
        assert((a + b).drop_last() =~= a + b.drop_last());
    } else {
        assert(a + b =~= a);
    }
}

proof fn lemma_single_line_newlines(s: Seq<char>)
    requires
        single_line(s),
    ensures
        newlines(s) == 0,
    decreases s.len(),
{
    if s.len() > 0 {
        lemma_single_line_newlines(s.drop_last());
    }
}

proof fn lemma_nat_text_single_line(n: nat)
    ensures
        single_line(nat_text(n)),
    decreases n,
{
    reveal_strlit("0");
    reveal_strlit("1");
    reveal_strlit("2");
    reveal_strlit("3");
    reveal_strlit("4");
    reveal_strlit("5");
    reveal_strlit("6");
    reveal_strlit("7");
    reveal_strlit("8");
    reveal_strlit("9");
    if n >= 10 {
        lemma_nat_text_single_line(n / 10);
        let d = digit_text((n % 10) as int);
        assert(single_line(d));
    } else {
        assert(single_line(digit_text(n as int)));
    }
}

#[verifier::rlimit(40)]
proof fn lemma_face_line_shape(b: BrushView, k: int)
    requires
        single_line(b.texture),
    ensures
        newlines(face_line(b, k)) == 1,
        (" "@ + face_axes(k) + "\n"@).is_suffix_of(face_line(b, k)),
        face_line(b, k) == face_line(b, k).drop_last() + "\n"@,
        single_line(face_line(b, k).drop_last()),
        face_line(b, k)[0] == '(',
{
    reveal(face_text);
    reveal(point_text);
    reveal_strlit("( ");
    reveal_strlit(" ");
    reveal_strlit(" )");
    reveal_strlit("-");
    reveal_strlit("\n");
    reveal_strlit("[ 1 0 0 0 ] [ 0 -1 0 0 ] 0 1 1");
    reveal_strlit("[ 0 1 0 0 ] [ 0 0 -1 0 ] 0 1 1");
    reveal_strlit("[ 1 0 0 0 ] [ 0 0 -1 0 ] 0 1 1");
    let p = face_points(b, k);
    let pts = seq![p.0, p.1, p.2];
    assert forall|j: int| 0 <= j < 3 implies single_line(point_text(#[trigger] pts[j])) by {
        let q = pts[j];
        lemma_nat_text_single_line(if q.0 < 0 { (-q.0) as nat } else { q.0 as nat });
        lemma_nat_text_single_line(if q.1 < 0 { (-q.1) as nat } else { q.1 as nat });
        lemma_nat_text_single_line(if q.2 < 0 { (-q.2) as nat } else { q.2 as nat });
        assert(single_line(int_text(q.0)));
        assert(single_line(int_text(q.1)));
        assert(single_line(int_text(q.2)));
    }
    assert(single_line(point_text(pts[0])) && single_line(point_text(pts[1])) && single_line(point_text(pts[2])));
    let body = point_text(p.0) + " "@ + point_text(p.1) + " "@ + point_text(p.2) + " "@ + b.texture;
    assert(single_line(body));
    assert(single_line(face_axes(k)));
    let line = body + " "@ + face_axes(k) + "\n"@;
    assert(face_line(b, k) =~= line);
    assert(single_line(body + " "@ + face_axes(k)));
    lemma_single_line_newlines(body + " "@ + face_axes(k));
    lemma_newlines_concat(body + " "@ + face_axes(k), "\n"@);
    lemma_one_line("\n"@);
    assert(line =~= body + (" "@ + face_axes(k) + "\n"@));
    assert(line.drop_last() =~= body + " "@ + face_axes(k));
    assert(line =~= line.drop_last() + "\n"@);
    assert(point_text(p.0)[0] == '(');
    assert(line[0] == point_text(p.0)[0]);
}

/// Each plane line carries its Valve 220 texture axes: every face line of a
/// brush whose texture is one line is a single line ending in a space, the
/// face's texture axes (`[ 1 0 0 0 ] [ 0 -1 0 0 ] 0 1 1` for top and
/// bottom, `[ 0 1 0 0 ] [ 0 0 -1 0 ] 0 1 1` for front and back,
/// `[ 1 0 0 0 ] [ 0 0 -1 0 ] 0 1 1` for right and left) and a line end.
pub proof fn law_face_lines_carry_their_axes(b: BrushView)
    requires
        single_line(b.texture),
    ensures
        forall|k: int|
            0 <= k < 6 ==> newlines(#[trigger] face_line(b, k)) == 1 && (" "@ + face_axes(k)
                + "\n"@).is_suffix_of(face_line(b, k)),
        face_axes(0) == "[ 1 0 0 0 ] [ 0 -1 0 0 ] 0 1 1"@ && face_axes(1) == face_axes(0),
        face_axes(2) == "[ 0 1 0 0 ] [ 0 0 -1 0 ] 0 1 1"@ && face_axes(3) == face_axes(2),
        face_axes(4) == "[ 1 0 0 0 ] [ 0 0 -1 0 ] 0 1 1"@ && face_axes(5) == face_axes(4),
{
    assert forall|k: int| 0 <= k < 6 implies newlines(#[trigger] face_line(b, k)) == 1 && (" "@
        + face_axes(k) + "\n"@).is_suffix_of(face_line(b, k)) by {
        lemma_face_line_shape(b, k);
    }
}

/// The line ends of a `.map` file: when no texture holds a line end, the
/// file has 7 lines of its own (6 of header, the closing `}`) and 9 per
/// brush (`// Brush`, `{`, six faces, `}`), and it ends with a line end.
pub proof fn law_map_file_lines(bs: Seq<BrushView>)
    requires
        forall|i: int| 0 <= i < bs.len() ==> single_line(#[trigger] bs[i].texture),
    ensures
        newlines(map_text(bs)) == 7 + 9 * bs.len(),
        map_text(bs).last() == '\n',
{
    reveal_strlit("}\n");
    lemma_brushes_text_lines(bs);
    lemma_header_lines();
    lemma_newlines_concat(map_header(), brushes_text(bs));
    lemma_newlines_concat(map_header() + brushes_text(bs), "}\n"@);
    lemma_one_line("}\n"@);
}

proof fn lemma_header_lines()
    ensures
        newlines(map_header()) == 6,
{
    reveal_strlit("// Game: Generic\n");
    reveal_strlit("// Format: Valve\n");
    reveal_strlit("// entity 0\n");
    reveal_strlit("{\n");
    reveal_strlit("\"classname\" \"worldspawn\"\n");
    reveal_strlit("\"mapversion\" \"220\"\n");
    let parts = seq![
        "// Game: Generic\n"@,
        "// Format: Valve\n"@,
        "// entity 0\n"@,
        "{\n"@,
        "\"classname\" \"worldspawn\"\n"@,
        "\"mapversion\" \"220\"\n"@,
    ];
    assert forall|j: int| 0 <= j < 6 implies newlines(#[trigger] parts[j]) == 1 by {
        lemma_one_line(parts[j]);
    }
    lemma_newlines_concat(parts[0], parts[1]);
    lemma_newlines_concat(parts[0] + parts[1], parts[2]);
    lemma_newlines_concat(parts[0] + parts[1] + parts[2], parts[3]);
    lemma_newlines_concat(parts[0] + parts[1] + parts[2] + parts[3], parts[4]);
    lemma_newlines_concat(parts[0] + parts[1] + parts[2] + parts[3] + parts[4], parts[5]);
}

/// A text that is one line followed by a line end has one line end.
proof fn lemma_one_line(s: Seq<char>)
    requires
        s.len() > 0,
        s.last() == '\n',
        single_line(s.drop_last()),
    ensures
        newlines(s) == 1,
{
    lemma_single_line_newlines(s.drop_last());
}

proof fn lemma_brush_lines(b: BrushView)
    requires
        single_line(b.texture),
    ensures
        newlines(brush_text(b)) == 9,
        brush_text(b).last() == '\n',
{
    reveal(brush_text);
    reveal_strlit("// Brush\n");
    reveal_strlit("{\n");
    reveal_strlit("}\n");
    lemma_one_line("// Brush\n"@);
    lemma_one_line("{\n"@);
    lemma_one_line("}\n"@);
    law_face_lines_carry_their_axes(b);
    let l0 = "// Brush\n"@ + "{\n"@;
    lemma_newlines_concat("// Brush\n"@, "{\n"@);
    let l1 = l0 + face_line(b, 0);
    lemma_newlines_concat(l0, face_line(b, 0));
    let l2 = l1 + face_line(b, 1);
    lemma_newlines_concat(l1, face_line(b, 1));
    let l3 = l2 + face_line(b, 2);
    lemma_newlines_concat(l2, face_line(b, 2));
    let l4 = l3 + face_line(b, 3);
    lemma_newlines_concat(l3, face_line(b, 3));
    let l5 = l4 + face_line(b, 4);
    lemma_newlines_concat(l4, face_line(b, 4));
    let l6 = l5 + face_line(b, 5);
    lemma_newlines_concat(l5, face_line(b, 5));
    lemma_newlines_concat(l6, "}\n"@);
    assert(brush_text(b) == l6 + "}\n"@);
}

proof fn lemma_brushes_text_lines(bs: Seq<BrushView>)
    requires
        forall|i: int| 0 <= i < bs.len() ==> single_line(#[trigger] bs[i].texture),
    ensures
        newlines(brushes_text(bs)) == 9 * bs.len(),
    decreases bs.len(),
{
    if bs.len() > 0 {
        assert forall|i: int| 0 <= i < bs.drop_last().len() implies single_line(
            #[trigger] bs.drop_last()[i].texture,
        ) by {
            assert(bs.drop_last()[i] == bs[i]);
        }
        lemma_brushes_text_lines(bs.drop_last());
        assert(single_line(bs[bs.len() - 1].texture));
        lemma_brush_lines(bs.last());
        lemma_newlines_concat(brushes_text(bs.drop_last()), brush_text(bs.last()));
    }
}

/// The lines of a text: the pieces between line ends; a last piece after
/// the last line end counts as a line when it is not empty.
pub open spec fn lines(s: Seq<char>) -> Seq<Seq<char>>
    decreases s.len(),
{
    if s.len() == 0 {
        Seq::empty()
    } else {
        match crate::text::first_index_of(s, '\n') {
            Some(i) => if 0 <= i < s.len() {
                seq![s.take(i)] + lines(s.skip(i + 1))
            } else {
                seq![s]
            },
            None => seq![s],
        }
    }
}

/// The text of the given lines, each followed by a line end.
pub open spec fn joined(ls: Seq<Seq<char>>) -> Seq<char>
    decreases ls.len(),
{
    if ls.len() == 0 {
        Seq::empty()
    } else {
        ls[0] + "\n"@ + joined(ls.drop_first())
    }
}

/// The number of lines of `ls` equal to `l`.
pub open spec fn count_lines(ls: Seq<Seq<char>>, l: Seq<char>) -> int
    decreases ls.len(),
{
    if ls.len() == 0 {
        0
    } else {
        count_lines(ls.drop_last(), l) + if ls.last() == l {
            1int
        } else {
            0int
        }
    }
}

/// The face line of face `k` without its line end.
pub open spec fn face_body(b: BrushView, k: int) -> Seq<char> {
    face_line(b, k).drop_last()
}

/// The lines of a brush block.
pub open spec fn brush_lines(b: BrushView) -> Seq<Seq<char>> {
    seq![
        "// Brush"@,
        "{"@,
        face_body(b, 0),
        face_body(b, 1),
        face_body(b, 2),
        face_body(b, 3),
        face_body(b, 4),
        face_body(b, 5),
        "}"@,
    ]
}

/// The lines of the brush blocks of a list of brushes, in order.
pub open spec fn brushes_lines(bs: Seq<BrushView>) -> Seq<Seq<char>>
    decreases bs.len(),
{
    if bs.len() == 0 {
        Seq::empty()
    } else {
        brushes_lines(bs.drop_last()) + brush_lines(bs.last())
    }
}

/// The lines of the file header.
pub open spec fn header_lines() -> Seq<Seq<char>> {
    seq![
        "// Game: Generic"@,
        "// Format: Valve"@,
        "// entity 0"@,
        "{"@,
        "\"classname\" \"worldspawn\""@,
        "\"mapversion\" \"220\""@,
    ]
}

/// The lines of the whole file: the header, the brush blocks, and `}`.
pub open spec fn map_lines(bs: Seq<BrushView>) -> Seq<Seq<char>> {
    header_lines() + brushes_lines(bs) + seq!["}"@]
}

proof fn lemma_joined_concat(a: Seq<Seq<char>>, b: Seq<Seq<char>>)
    ensures
        joined(a + b) == joined(a) + joined(b),
    decreases a.len(),
{
    if a.len() == 0 {
        assert(a + b =~= b);
        assert(joined(a) + joined(b) =~= joined(b));
    } else {
        assert((a + b).drop_first() =~= a.drop_first() + b);
        lemma_joined_concat(a.drop_first(), b);
        assert(joined(a + b) =~= joined(a) + joined(b));
    }
}

proof fn lemma_lines_of_joined(ls: Seq<Seq<char>>)
    requires
        forall|i: int| 0 <= i < ls.len() ==> single_line(#[trigger] ls[i]),
    ensures
        lines(joined(ls)) == ls,
    decreases ls.len(),
{
    if ls.len() > 0 {
        let rest = ls.drop_first();
        assert forall|i: int| 0 <= i < rest.len() implies single_line(#[trigger] rest[i]) by {
            assert(rest[i] == ls[i + 1]);
        }
        lemma_lines_of_joined(rest);
        let s = joined(ls);
        let a = ls[0];
        assert(single_line(a));
        reveal_strlit("\n");
        assert(crate::parser::lacks(a, '\n'));
        crate::parser::lemma_first_index_after(a, "\n"@ + joined(rest), '\n');
        assert(crate::text::first_index_of("\n"@ + joined(rest), '\n') == Some(0int));
        assert(s =~= a + ("\n"@ + joined(rest)));
        assert(s.take(a.len() as int) =~= a);
        assert(s.skip(a.len() as int + 1) =~= joined(rest));
        assert(lines(s) =~= seq![a] + rest);
        assert(ls =~= seq![a] + rest);
    }
}

proof fn lemma_count_concat(a: Seq<Seq<char>>, b: Seq<Seq<char>>, l: Seq<char>)
    ensures
        count_lines(a + b, l) == count_lines(a, l) + count_lines(b, l),
    decreases b.len(),
{
    if b.len() > 0 {
        lemma_count_concat(a, b.drop_last(), l);
        assert((a + b).drop_last() =~= a + b.drop_last());
    } else {
        assert(a + b =~= a);
    }
}

#[verifier::rlimit(40)]
proof fn lemma_brush_block_lines(b: BrushView)
    requires
        single_line(b.texture),
    ensures
        brush_text(b) == joined(brush_lines(b)),
        forall|i: int| 0 <= i < 9 ==> single_line(#[trigger] brush_lines(b)[i]),
        count_lines(brush_lines(b), "// Brush"@) == 1,
{
    reveal(brush_text);
    reveal_strlit("// Brush");
    reveal_strlit("// Brush\n");
    reveal_strlit("{");
    reveal_strlit("{\n");
    reveal_strlit("}");
    reveal_strlit("}\n");
    reveal_strlit("\n");
    let ls = brush_lines(b);
    assert forall|k: int| 0 <= k < 6 implies #[trigger] face_line(b, k) == face_body(b, k) + "\n"@
        && single_line(face_body(b, k)) && face_body(b, k).len() > 0 && face_body(b, k)[0] == '(' by {
        lemma_face_line_shape(b, k);
        assert(face_line(b, k).len() > 1) by {
            lemma_one_line("\n"@);
            if face_line(b, k).len() <= 1 {
                assert(face_line(b, k) =~= "\n"@);
            }
        }
    }
    assert forall|i: int| 0 <= i < 9 implies single_line(#[trigger] ls[i]) by {
        if 2 <= i < 8 {
            assert(ls[i] == face_body(b, i - 2));
        }
    }
    assert(joined(ls.skip(9)) =~= Seq::<char>::empty()) by {
        assert(ls.skip(9) =~= Seq::<Seq<char>>::empty());
    }
    assert forall|t: int| 0 <= t < 9 implies #[trigger] joined(ls.skip(t)) == ls[t] + "\n"@ + joined(ls.skip(t + 1)) by {
        assert(ls.skip(t).drop_first() =~= ls.skip(t + 1));
        assert(ls.skip(t)[0] == ls[t]);
    }
    assert(ls.skip(0) =~= ls);
    let f0 = face_line(b, 0);
    let f1 = face_line(b, 1);
    let f2 = face_line(b, 2);
    let f3 = face_line(b, 3);
    let f4 = face_line(b, 4);
    let f5 = face_line(b, 5);
    assert(joined(ls.skip(8)) =~= "}\n"@);
    assert(joined(ls.skip(7)) =~= f5 + "}\n"@);
    assert(joined(ls.skip(6)) =~= f4 + f5 + "}\n"@);
    assert(joined(ls.skip(5)) =~= f3 + f4 + f5 + "}\n"@);
    assert(joined(ls.skip(4)) =~= f2 + f3 + f4 + f5 + "}\n"@);
    assert(joined(ls.skip(3)) =~= f1 + f2 + f3 + f4 + f5 + "}\n"@);
    assert(joined(ls.skip(2)) =~= f0 + f1 + f2 + f3 + f4 + f5 + "}\n"@);
    assert(joined(ls.skip(1)) =~= "{\n"@ + f0 + f1 + f2 + f3 + f4 + f5 + "}\n"@);
    assert(joined(ls) =~= brush_text(b));
    assert forall|k: int| 0 <= k < 6 implies face_body(b, k) != "// Brush"@ by {
        assert(face_body(b, k)[0] == '(');
    }
    let c = ls;
    assert(count_lines(c.take(1), "// Brush"@) == 1) by {
        assert(c.take(1).drop_last() =~= Seq::<Seq<char>>::empty());
        assert(count_lines(Seq::<Seq<char>>::empty(), "// Brush"@) == 0);
        assert(c.take(1).last() == c[0]);
        assert(c[0] == "// Brush"@);
    }
    assert forall|t: int| 1 <= t < 9 implies #[trigger] count_lines(c.take(t + 1), "// Brush"@) == count_lines(
        c.take(t),
        "// Brush"@,
    ) by {
        assert(c.take(t + 1).drop_last() =~= c.take(t));
        if 2 <= t < 8 {
            assert(c[t] == face_body(b, t - 2));
        }
        assert(c.take(t + 1).last() == c[t]);
        assert(c[t] != "// Brush"@);
    }
    assert(count_lines(c.take(2), "// Brush"@) == 1);
    assert(count_lines(c.take(3), "// Brush"@) == 1);
    assert(count_lines(c.take(4), "// Brush"@) == 1);
    assert(count_lines(c.take(5), "// Brush"@) == 1);
    assert(count_lines(c.take(6), "// Brush"@) == 1);
    assert(count_lines(c.take(7), "// Brush"@) == 1);
    assert(count_lines(c.take(8), "// Brush"@) == 1);
    assert(count_lines(c.take(9), "// Brush"@) == 1);
    assert(c.take(9) =~= c);
}

proof fn lemma_brushes_block_lines(bs: Seq<BrushView>)
    requires
        forall|i: int| 0 <= i < bs.len() ==> single_line(#[trigger] bs[i].texture),
    ensures
        brushes_text(bs) == joined(brushes_lines(bs)),
        brushes_lines(bs).len() == 9 * bs.len(),
        forall|i: int| 0 <= i < brushes_lines(bs).len() ==> single_line(#[trigger] brushes_lines(bs)[i]),
        count_lines(brushes_lines(bs), "// Brush"@) == bs.len(),
        forall|i: int, t: int|
            0 <= i < bs.len() && 0 <= t < 9 ==> #[trigger] brushes_lines(bs)[9 * i + t] == brush_lines(bs[i])[t],
    decreases bs.len(),
{
    if bs.len() == 0 {
        assert(joined(Seq::<Seq<char>>::empty()) =~= Seq::<char>::empty());
    } else {
        let init = bs.drop_last();
        assert forall|i: int| 0 <= i < init.len() implies single_line(#[trigger] init[i].texture) by {
            assert(init[i] == bs[i]);
        }
        lemma_brushes_block_lines(init);
        let b = bs.last();
        assert(single_line(bs[bs.len() - 1].texture));
        lemma_brush_block_lines(b);
        let a = brushes_lines(init);
        let c = brush_lines(b);
        assert(brushes_lines(bs) == a + c);
        lemma_joined_concat(a, c);
        lemma_count_concat(a, c, "// Brush"@);
        assert forall|i: int| 0 <= i < (a + c).len() implies single_line(#[trigger] (a + c)[i]) by {
            if i >= a.len() {
                assert((a + c)[i] == c[i - a.len()]);
            } else {
                assert((a + c)[i] == a[i]);
            }
        }
        assert forall|i: int, t: int| 0 <= i < bs.len() && 0 <= t < 9 implies #[trigger] (a + c)[9 * i + t]
            == brush_lines(bs[i])[t] by {
            if i < bs.len() - 1 {
                assert(init[i] == bs[i]);
                assert(a[9 * i + t] == brush_lines(init[i])[t]);
            } else {
                assert(9 * i + t - a.len() == t);
            }
        }
    }
}

proof fn lemma_header_block()
    ensures
        map_header() == joined(header_lines()),
        forall|i: int| 0 <= i < 6 ==> single_line(#[trigger] header_lines()[i]),
        count_lines(header_lines(), "// Brush"@) == 0,
{
    reveal_strlit("// Game: Generic");
    reveal_strlit("// Format: Valve");
    reveal_strlit("// entity 0");
    reveal_strlit("{");
    reveal_strlit("\"classname\" \"worldspawn\"");
    reveal_strlit("\"mapversion\" \"220\"");
    reveal_strlit("// Game: Generic\n");
    reveal_strlit("// Format: Valve\n");
    reveal_strlit("// entity 0\n");
    reveal_strlit("{\n");
    reveal_strlit("\"classname\" \"worldspawn\"\n");
    reveal_strlit("\"mapversion\" \"220\"\n");
    reveal_strlit("\n");
    reveal_strlit("// Brush");
    let h = header_lines();
    assert(joined(Seq::<Seq<char>>::empty()) =~= Seq::<char>::empty());
    assert forall|t: int| 0 <= t < 6 implies #[trigger] joined(h.skip(t)) == h[t] + "\n"@ + joined(h.skip(t + 1)) by {
        assert(h.skip(t).drop_first() =~= h.skip(t + 1));
    }
    assert(h.skip(6) =~= Seq::<Seq<char>>::empty());
    assert(h.skip(0) =~= h);
    assert(joined(h.skip(5)) =~= h[5] + "\n"@);
    assert(joined(h.skip(4)) =~= h[4] + "\n"@ + h[5] + "\n"@);
    assert(joined(h) =~= map_header());
    assert forall|t: int| 1 <= t <= 6 implies #[trigger] count_lines(h.take(t), "// Brush"@) == count_lines(
        h.take(t - 1),
        "// Brush"@,
    ) by {
        assert(h.take(t).drop_last() =~= h.take(t - 1));
        assert(h.take(t).last() == h[t - 1]);
        assert(h[t - 1].len() != "// Brush"@.len());
    }
    assert(h.take(0) =~= Seq::<Seq<char>>::empty());
    assert(count_lines(h.take(1), "// Brush"@) == 0);
    assert(count_lines(h.take(2), "// Brush"@) == 0);
    assert(count_lines(h.take(3), "// Brush"@) == 0);
    assert(count_lines(h.take(4), "// Brush"@) == 0);
    assert(count_lines(h.take(5), "// Brush"@) == 0);
    assert(count_lines(h.take(6), "// Brush"@) == 0);
    assert(h.take(6) =~= h);
}

proof fn lemma_closing_block()
    ensures
        "}\n"@ == joined(seq!["}"@]),
        single_line("}"@),
        count_lines(seq!["}"@], "// Brush"@) == 0,
{
    reveal_strlit("}");
    reveal_strlit("}\n");
    reveal_strlit("\n");
    reveal_strlit("// Brush");
    let e = seq!["}"@];
    assert(e.drop_first() =~= Seq::<Seq<char>>::empty());
    assert(joined(Seq::<Seq<char>>::empty()) =~= Seq::<char>::empty());
    assert(joined(e) =~= "}\n"@);
    assert(e.drop_last() =~= Seq::<Seq<char>>::empty());
    assert(count_lines(Seq::<Seq<char>>::empty(), "// Brush"@) == 0);
    assert(e.last() == "}"@);
    assert(e.last().len() != "// Brush"@.len());
    assert(e.last() != "// Brush"@);
}

/// The line structure of a `.map` file: when no texture holds a line end,
/// its lines are the six header lines (`// Game: Generic`,
/// `// Format: Valve`, `// entity 0`, `{`, the class name, the map
/// version), then for each brush, in order, `// Brush`, `{`, its six face
/// lines and `}`, then a last `}`: 7 + 9 lines per brush, of which exactly
/// one per brush is `// Brush`.
pub proof fn law_map_file_line_structure(bs: Seq<BrushView>)
    requires
        forall|i: int| 0 <= i < bs.len() ==> single_line(#[trigger] bs[i].texture),
    ensures
        lines(map_text(bs)) == map_lines(bs),
        map_lines(bs).len() == 7 + 9 * bs.len(),
        map_lines(bs).take(6) == header_lines(),
        forall|i: int, t: int|
            0 <= i < bs.len() && 0 <= t < 9 ==> #[trigger] map_lines(bs)[6 + 9 * i + t] == brush_lines(bs[i])[t],
        map_lines(bs).last() == "}"@,
        count_lines(map_lines(bs), "// Brush"@) == bs.len(),
{
    lemma_brushes_block_lines(bs);
    lemma_header_block();
    lemma_closing_block();
    let h = header_lines();
    let m = brushes_lines(bs);
    let e = seq!["}"@];
    lemma_joined_concat(h, m);
    lemma_joined_concat(h + m, e);
    assert(map_lines(bs) == h + m + e);
    assert(map_text(bs) == joined(map_lines(bs)));
    assert forall|i: int| 0 <= i < map_lines(bs).len() implies single_line(#[trigger] map_lines(bs)[i]) by {
        if i < 6 {
            assert(map_lines(bs)[i] == h[i]);
        } else if i < 6 + m.len() {
            assert(map_lines(bs)[i] == m[i - 6]);
        } else {
            assert(map_lines(bs)[i] == e[0]);
        }
    }
    lemma_lines_of_joined(map_lines(bs));
    assert(map_lines(bs).take(6) =~= h);
    assert forall|i: int, t: int| 0 <= i < bs.len() && 0 <= t < 9 implies #[trigger] map_lines(bs)[6 + 9 * i + t]
        == brush_lines(bs[i])[t] by {
        assert(map_lines(bs)[6 + 9 * i + t] == m[9 * i + t]);
    }
    lemma_count_concat(h, m, "// Brush"@);
    lemma_count_concat(h + m, e, "// Brush"@);
}

fn append_digit(out: &mut String, d: u64)
    requires
        d < 10,
    ensures
        final(out)@ == old(out)@ + digit_text(d as int),
{
    if d == 0 {
        out.append("0");
    } else if d == 1 {
        out.append("1");
    } else if d == 2 {
        out.append("2");
    } else if d == 3 {
        out.append("3");
    } else if d == 4 {
        out.append("4");
    } else if d == 5 {
        out.append("5");
    } else if d == 6 {
        out.append("6");
    } else if d == 7 {
        out.append("7");
    } else if d == 8 {
        out.append("8");
    } else {
        out.append("9");
    }
}

fn append_nat(out: &mut String, n: u64)
    ensures
        final(out)@ == old(out)@ + nat_text(n as nat),
    decreases n,
{
    if n >= 10 {
        append_nat(out, n / 10);
        append_digit(out, n % 10);
        assert(final(out)@ =~= old(out)@ + nat_text(n as nat));
    } else {
        append_digit(out, n);
    }
}

fn append_int(out: &mut String, v: i32)
    ensures
        final(out)@ == old(out)@ + int_text(v as int),
{
    if v < 0 {
        out.append("-");
        let m = (0 - (v as i64)) as u64;
        append_nat(out, m);
        assert(final(out)@ =~= old(out)@ + int_text(v as int));
    } else {
        append_nat(out, v as u64);
    }
}

fn append_point(out: &mut String, a: i32, b: i32, c: i32)
    ensures
        final(out)@ == old(out)@ + point_text((a as int, b as int, c as int)),
{
    reveal(point_text);
    out.append("( ");
    append_int(out, a);
    out.append(" ");
    append_int(out, b);
    out.append(" ");
    append_int(out, c);
    out.append(" )");
    assert(final(out)@ =~= old(out)@ + point_text((a as int, b as int, c as int)));
}

fn append_face(
    out: &mut String,
    p1: (i32, i32, i32),
    p2: (i32, i32, i32),
    p3: (i32, i32, i32),
    tex: &str,
    axes: &str,
)
    ensures
        final(out)@ == old(out)@ + face_text(
            (p1.0 as int, p1.1 as int, p1.2 as int),
            (p2.0 as int, p2.1 as int, p2.2 as int),
            (p3.0 as int, p3.1 as int, p3.2 as int),
            tex@,
            axes@,
        ),
{
    reveal(face_text);
    append_point(out, p1.0, p1.1, p1.2);
    out.append(" ");
    append_point(out, p2.0, p2.1, p2.2);
    out.append(" ");
    append_point(out, p3.0, p3.1, p3.2);
    out.append(" ");
    out.append(tex);
    out.append(" ");
    out.append(axes);
    out.append("\n");
    assert(final(out)@ =~= old(out)@ + face_text(
        (p1.0 as int, p1.1 as int, p1.2 as int),
        (p2.0 as int, p2.1 as int, p2.2 as int),
        (p3.0 as int, p3.1 as int, p3.2 as int),
        tex@,
        axes@,
    ));
}

fn append_brush(out: &mut String, brush: &Brush)
    ensures
        final(out)@ == old(out)@ + brush_text(brush@),
{
    let tex = brush.texture.as_str();
    let x1 = brush.min.0;
    let y1 = brush.min.1;
    let z1 = brush.min.2;
    let x2 = brush.max.0;
    let y2 = brush.max.1;
    let z2 = brush.max.2;
    let ghost before = out@;
    reveal(brush_text);
    out.append("// Brush\n");
    out.append("{\n");
    append_face(out, (x2, y2, z2), (x2, y1, z2), (x1, y1, z2), tex, "[ 1 0 0 0 ] [ 0 -1 0 0 ] 0 1 1");
    append_face(out, (x2, y1, z1), (x2, y2, z1), (x1, y2, z1), tex, "[ 1 0 0 0 ] [ 0 -1 0 0 ] 0 1 1");
    append_face(out, (x2, y2, z2), (x2, y2, z1), (x2, y1, z1), tex, "[ 0 1 0 0 ] [ 0 0 -1 0 ] 0 1 1");
    append_face(out, (x1, y1, z2), (x1, y1, z1), (x1, y2, z1), tex, "[ 0 1 0 0 ] [ 0 0 -1 0 ] 0 1 1");
    append_face(out, (x2, y2, z2), (x1, y2, z2), (x1, y2, z1), tex, "[ 1 0 0 0 ] [ 0 0 -1 0 ] 0 1 1");
    append_face(out, (x1, y1, z2), (x2, y1, z2), (x2, y1, z1), tex, "[ 1 0 0 0 ] [ 0 0 -1 0 ] 0 1 1");
    out.append("}\n");
    assert(out@ =~= before + brush_text(brush@));
}

/// The `.map` file text for `brushes`.
pub fn map_file_text(brushes: &Vec<Brush>) -> (r: String)
    ensures
        r@ == map_text(brush_views(brushes@)),
{
    let mut out = String::new();
    out.append("// Game: Generic\n");
    out.append("// Format: Valve\n");
    out.append("// entity 0\n");
    out.append("{\n");
    out.append("\"classname\" \"worldspawn\"\n");
    out.append("\"mapversion\" \"220\"\n");
    assert(out@ =~= map_header());
    let mut i: usize = 0;
    proof {
        assert(brush_views(brushes@).take(0) =~= Seq::<BrushView>::empty());
        assert(out@ =~= map_header() + brushes_text(Seq::<BrushView>::empty()));
    }
    while i < brushes.len()
        invariant
            i <= brushes@.len(),
            out@ == map_header() + brushes_text(brush_views(brushes@).take(i as int)),
        decreases brushes@.len() - i,
    {
        append_brush(&mut out, &brushes[i]);
        proof {
            let bs = brush_views(brushes@);
            assert(bs.take(i + 1).drop_last() =~= bs.take(i as int));
            assert(out@ =~= map_header() + brushes_text(bs.take(i + 1)));
        }
        i = i + 1;
    }
    out.append("}\n");
    proof {
        assert(brush_views(brushes@).take(brushes@.len() as int) =~= brush_views(brushes@));
    }
    out
}

} // verus!
