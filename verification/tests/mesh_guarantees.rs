use trenchcraft::block_shapes::{get_shape, BlockShape};
use trenchcraft::filter::filter_blocks;
use trenchcraft::optimizer::{optimize_mesh, Brush, GreedyLevel};
use trenchcraft::properties::Properties;
use trenchcraft::voxel::{Block, VoxelMap};

fn block(name: &str, props: &[(&str, &str)]) -> Option<Block> {
    let mut properties = Properties::new();
    for (k, v) in props {
        properties.insert(k.to_string(), v.to_string());
    }
    Some(Block { name: name.to_string(), properties })
}

/// A 3 x 2 x 2 map mixing full blocks, slabs, panels and gaps.
fn mixed_map() -> VoxelMap {
    let cells = vec![
        block("stone", &[]),
        block("stone", &[]),
        block("minecraft:oak_slab", &[]),
        block("minecraft:oak_fence", &[("north", "true")]),
        None,
        block("stone", &[]),
        block("stone", &[]),
        block("minecraft:oak_slab", &[("half", "top")]),
        block("minecraft:iron_bars", &[]),
        block("minecraft:oak_fence", &[("north", "true")]),
        block("glass", &[]),
        None,
    ];
    VoxelMap { width: 3, height: 2, length: 2, blocks: cells }
}

fn overlaps(b: &Brush, x: i32, y: i32, z: i32) -> bool {
    b.min.0 < (x + 1) * 32 && x * 32 < b.max.0
        && b.min.1 < (z + 1) * 32 && z * 32 < b.max.1
        && b.min.2 < (y + 1) * 32 && y * 32 < b.max.2
}

fn cells(m: &VoxelMap) -> Vec<(i32, i32, i32, String)> {
    let mut out = Vec::new();
    for y in 0..m.height {
        for z in 0..m.length {
            for x in 0..m.width {
                let i = (y * m.width * m.length + z * m.width + x) as usize;
                if let Some(b) = &m.blocks[i] {
                    out.push((x, y, z, b.name.clone()));
                }
            }
        }
    }
    out
}

const LEVELS: [GreedyLevel; 3] = [GreedyLevel::Off, GreedyLevel::FullOnly, GreedyLevel::All];

#[test]
fn every_block_is_covered_by_a_brush_of_its_name() {
    let m = mixed_map();
    for level in LEVELS {
        let bs = optimize_mesh(&m, level);
        for (x, y, z, name) in cells(&m) {
            assert!(bs.iter().any(|b| b.texture == name && overlaps(b, x, y, z)), "{:?} {} {} {}", level, x, y, z);
        }
    }
}

#[test]
fn every_brush_has_volume_and_overlaps_a_block_of_its_texture() {
    let m = mixed_map();
    for level in LEVELS {
        for b in optimize_mesh(&m, level) {
            assert!(b.min.0 < b.max.0 && b.min.1 < b.max.1 && b.min.2 < b.max.2);
            assert!(cells(&m).iter().any(|(x, y, z, n)| *n == b.texture && overlaps(&b, *x, *y, *z)));
        }
    }
}

#[test]
fn merging_off_counts_blocks_and_crosses() {
    let m = mixed_map();
    let expected: usize = m
        .blocks
        .iter()
        .map(|c| match c {
            None => 0,
            Some(b) => if get_shape(b) == BlockShape::ThinCross { 2 } else { 1 },
        })
        .sum();
    assert_eq!(expected, 11);
    assert_eq!(optimize_mesh(&m, GreedyLevel::Off).len(), expected);
    assert!(optimize_mesh(&m, GreedyLevel::All).len() < expected);
}

#[test]
fn merging_never_adds_brushes() {
    let m = mixed_map();
    let off = optimize_mesh(&m, GreedyLevel::Off).len();
    for level in LEVELS {
        assert!(optimize_mesh(&m, level).len() <= off);
    }
    assert!(optimize_mesh(&m, GreedyLevel::All).len() <= optimize_mesh(&m, GreedyLevel::FullOnly).len());
}

#[test]
fn filtered_geometry_uses_texture_paths() {
    let mut m = mixed_map();
    m.blocks[10] = block("minecraft:cave_air", &[]);
    let f = filter_blocks(m);
    for b in optimize_mesh(&f, GreedyLevel::All) {
        assert!(b.texture.starts_with("textures/"));
        assert!(!b.texture.contains("air"));
    }
}

fn cube_inside(b: &Brush, x: i32, y: i32, z: i32) -> bool {
    b.min.0 <= x * 32 && (x + 1) * 32 <= b.max.0
        && b.min.1 <= z * 32 && (z + 1) * 32 <= b.max.1
        && b.min.2 <= y * 32 && (y + 1) * 32 <= b.max.2
}

#[test]
fn full_block_brushes_do_not_share_a_cube() {
    let m = mixed_map();
    for level in LEVELS {
        let bs = optimize_mesh(&m, level);
        let full: Vec<&Brush> = bs.iter().filter(|b| b.texture == "stone" || b.texture == "glass").collect();
        for y in 0..m.height {
            for z in 0..m.length {
                for x in 0..m.width {
                    assert!(full.iter().filter(|b| cube_inside(b, x, y, z)).count() <= 1);
                }
            }
        }
    }
}

#[test]
fn every_full_block_lies_in_exactly_one_full_brush() {
    let m = mixed_map();
    for level in LEVELS {
        let bs = optimize_mesh(&m, level);
        for (x, y, z, name) in cells(&m) {
            if name == "stone" || name == "glass" {
                let holding: Vec<&Brush> = bs
                    .iter()
                    .filter(|b| (b.texture == "stone" || b.texture == "glass") && cube_inside(b, x, y, z))
                    .collect();
                assert_eq!(holding.len(), 1);
                assert_eq!(holding[0].texture, name);
            }
        }
    }
}

#[test]
fn points_inside_brushes_lie_in_blocks_of_their_texture() {
    let m = mixed_map();
    let name_at = |x: i32, y: i32, z: i32| -> Option<String> {
        if x < 0 || y < 0 || z < 0 || x >= m.width || y >= m.height || z >= m.length {
            return None;
        }
        let i = (y * m.width * m.length + z * m.width + x) as usize;
        m.blocks[i].as_ref().map(|b| b.name.clone())
    };
    for level in LEVELS {
        for b in optimize_mesh(&m, level) {
            for px in (b.min.0 + 1)..b.max.0 {
                for py in (b.min.1 + 1)..b.max.1 {
                    for pz in (b.min.2 + 1)..b.max.2 {
                        let cell = name_at(px.div_euclid(32), pz.div_euclid(32), py.div_euclid(32));
                        assert_eq!(cell.as_deref(), Some(b.texture.as_str()));
                    }
                }
            }
        }
    }
    let empty = VoxelMap { width: 2, height: 2, length: 2, blocks: (0..8).map(|_| None).collect() };
    for level in LEVELS {
        assert!(optimize_mesh(&empty, level).is_empty());
    }
}

#[test]
fn brushes_come_in_scan_order_of_their_seed_cells() {
    let m = mixed_map();
    let key = |b: &Brush| {
        let (x, z, y) = (b.min.0.div_euclid(32), b.min.1.div_euclid(32), b.min.2.div_euclid(32));
        y * m.width * m.length + z * m.width + x
    };
    for level in LEVELS {
        let bs = optimize_mesh(&m, level);
        for i in 1..bs.len() {
            assert!(key(&bs[i - 1]) <= key(&bs[i]));
            if key(&bs[i - 1]) == key(&bs[i]) {
                assert_eq!(bs[i - 1].min.0 % 32, 14);
                assert_eq!(bs[i].min.1 % 32, 14);
            }
        }
    }
}

#[test]
fn growth_stops_at_a_blocking_cell() {
    // A row of three stones whose middle one is glass: the first box ends at
    // the glass; the last stone gets a box of its own.
    let m = VoxelMap {
        width: 3,
        height: 1,
        length: 1,
        blocks: vec![block("stone", &[]), block("glass", &[]), block("stone", &[])],
    };
    let bs = optimize_mesh(&m, GreedyLevel::All);
    let boxes: Vec<((i32, i32, i32), (i32, i32, i32))> = bs.iter().map(|b| (b.min, b.max)).collect();
    assert_eq!(boxes, vec![((0, 0, 0), (32, 32, 32)), ((32, 0, 0), (64, 32, 32)), ((64, 0, 0), (96, 32, 32))]);
}

#[test]
fn an_isolated_slab_gives_one_brush() {
    // A top slab between two bottom slabs of the same name, with a full block
    // above it.
    let m = VoxelMap {
        width: 3,
        height: 2,
        length: 1,
        blocks: vec![
            block("minecraft:oak_slab", &[]),
            block("minecraft:oak_slab", &[("half", "top")]),
            block("minecraft:oak_slab", &[]),
            None,
            block("stone", &[]),
            None,
        ],
    };
    for level in LEVELS {
        let bs = optimize_mesh(&m, level);
        let here: Vec<&Brush> = bs.iter().filter(|b| overlaps(b, 1, 0, 0)).collect();
        assert_eq!(here.len(), 1);
        assert_eq!((here[0].min, here[0].max), ((32, 0, 16), (64, 32, 32)));
        assert_eq!(here[0].texture, "minecraft:oak_slab");
    }
}

#[test]
fn isolated_panels_and_crosses_give_their_own_brushes() {
    // Row of three panes along x: north-south panels beside each other are
    // not merged along x; the middle one has no north-south neighbour along
    // z or y. Above the middle sits a cross; above the left an east-west
    // panel.
    let ns = || block("minecraft:glass_pane", &[("north", "true"), ("south", "true")]);
    let ew = || block("minecraft:glass_pane", &[("east", "true")]);
    let cross = || block("minecraft:glass_pane", &[]);
    let m = VoxelMap {
        width: 3,
        height: 2,
        length: 1,
        blocks: vec![ns(), ns(), ns(), ew(), cross(), None],
    };
    for level in LEVELS {
        let bs = optimize_mesh(&m, level);
        let at = |x: i32, y: i32, z: i32| -> Vec<(usize, (i32, i32, i32), (i32, i32, i32))> {
            bs.iter().enumerate().filter(|(_, b)| overlaps(b, x, y, z)).map(|(i, b)| (i, b.min, b.max)).collect()
        };
        let mid = at(1, 0, 0);
        assert_eq!(mid.len(), 1);
        assert_eq!((mid[0].1, mid[0].2), ((46, 0, 0), (50, 32, 32)));
        let panel = at(0, 1, 0);
        assert_eq!(panel.len(), 1);
        assert_eq!((panel[0].1, panel[0].2), ((0, 14, 32), (32, 18, 64)));
        let x = at(1, 1, 0);
        assert_eq!(x.len(), 2);
        assert_eq!(x[1].0, x[0].0 + 1);
        assert_eq!((x[0].1, x[0].2), ((46, 0, 32), (50, 32, 64)));
        assert_eq!((x[1].1, x[1].2), ((32, 14, 32), (64, 18, 64)));
    }
}

#[test]
fn whole_cube_brushes_partition_the_full_blocks() {
    let m = mixed_map();
    for level in LEVELS {
        let bs = optimize_mesh(&m, level);
        let on_grid = |b: &Brush| {
            [b.min.0, b.min.1, b.min.2, b.max.0, b.max.1, b.max.2].iter().all(|v| v % 32 == 0)
        };
        let lies_in = |b: &Brush, x: i32, y: i32, z: i32| {
            b.min.0 <= 32 * x && 32 * x < b.max.0 && b.min.1 <= 32 * z && 32 * z < b.max.1 && b.min.2 <= 32 * y
                && 32 * y < b.max.2
        };
        let full: Vec<&Brush> = bs.iter().filter(|b| on_grid(b)).collect();
        for b in &full {
            assert!(b.texture == "stone" || b.texture == "glass");
        }
        for (x, y, z, name) in cells(&m) {
            let holding: Vec<&&Brush> = full.iter().filter(|b| lies_in(b, x, y, z)).collect();
            if name == "stone" || name == "glass" {
                assert_eq!(holding.len(), 1);
                assert_eq!(holding[0].texture, name);
            } else {
                assert!(holding.is_empty());
            }
        }
    }
}

#[test]
fn full_growth_is_blocked_by_earlier_brushes() {
    // Column z = 0 of stones two high; at z = 1 a stone on the floor only.
    // The seed (0, 0, 0) grows along z to the floor stone, then cannot rise
    // because (0, 1, 1) is empty; the stone (0, 1, 0) lies in no earlier
    // brush and becomes its own box.
    let m = VoxelMap {
        width: 1,
        height: 2,
        length: 2,
        blocks: vec![block("stone", &[]), block("stone", &[]), block("stone", &[]), None],
    };
    for level in [GreedyLevel::FullOnly, GreedyLevel::All] {
        let bs = optimize_mesh(&m, level);
        let boxes: Vec<((i32, i32, i32), (i32, i32, i32))> = bs.iter().map(|b| (b.min, b.max)).collect();
        assert_eq!(boxes, vec![((0, 0, 0), (32, 64, 32)), ((0, 0, 32), (32, 32, 64))]);
    }
}
