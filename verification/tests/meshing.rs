use trenchcraft::optimizer::{is_full_match, optimize_mesh, to_quake, Brush, GreedyLevel};
use trenchcraft::properties::Properties;
use trenchcraft::voxel::{Block, VoxelMap};

fn block(name: &str, props: &[(&str, &str)]) -> Option<Block> {
    let mut properties = Properties::new();
    for (k, v) in props {
        properties.insert(k.to_string(), v.to_string());
    }
    Some(Block { name: name.to_string(), properties })
}

fn boxes(bs: &[Brush]) -> Vec<((i32, i32, i32), (i32, i32, i32), String)> {
    bs.iter().map(|b| (b.min, b.max, b.texture.clone())).collect()
}

fn s(t: &str) -> String {
    t.to_string()
}

#[test]
fn to_quake_swaps_and_scales() {
    assert_eq!(to_quake(1, 2, 3), (32, 64, 96));
    assert_eq!(to_quake(-1, 0, 5), (-32, 0, 160));
}

#[test]
fn full_match_checks_visit_name_and_shape() {
    let blocks = vec![block("a", &[]), block("b", &[]), block("a_slab", &[]), None];
    let visited = vec![false, false, false, false];
    let tex = s("a");
    assert!(is_full_match(0, 0, 0, &tex, &visited, &blocks, 2, 2));
    assert!(!is_full_match(1, 0, 0, &tex, &visited, &blocks, 2, 2));
    assert!(!is_full_match(1, 0, 1, &tex, &visited, &blocks, 2, 2));
    let slab = s("a_slab");
    assert!(!is_full_match(0, 0, 1, &slab, &visited, &blocks, 2, 2));
    let visited = vec![true, false, false, false];
    assert!(!is_full_match(0, 0, 0, &tex, &visited, &blocks, 2, 2));
}

#[test]
fn full_blocks_merge_into_one_box() {
    let map = VoxelMap {
        width: 2,
        height: 2,
        length: 2,
        blocks: (0..8).map(|_| block("stone", &[])).collect(),
    };
    let bs = optimize_mesh(&map, GreedyLevel::FullOnly);
    assert_eq!(boxes(&bs), vec![((0, 0, 0), (64, 64, 64), s("stone"))]);
}

#[test]
fn merging_off_gives_one_brush_per_block() {
    let map = VoxelMap { width: 2, height: 1, length: 1, blocks: vec![block("stone", &[]), block("stone", &[])] };
    let bs = optimize_mesh(&map, GreedyLevel::Off);
    assert_eq!(
        boxes(&bs),
        vec![((0, 0, 0), (32, 32, 32), s("stone")), ((32, 0, 0), (64, 32, 32), s("stone"))]
    );
}

#[test]
fn different_names_do_not_merge() {
    let map = VoxelMap { width: 3, height: 1, length: 1, blocks: vec![block("a", &[]), block("b", &[]), block("b", &[])] };
    let bs = optimize_mesh(&map, GreedyLevel::All);
    assert_eq!(
        boxes(&bs),
        vec![((0, 0, 0), (32, 32, 32), s("a")), ((32, 0, 0), (96, 32, 32), s("b"))]
    );
}

#[test]
fn greedy_grows_x_then_z_then_y() {
    // 2 wide, 2 high, 2 long; the top layer lacks its (1, 1, 1) cell.
    let mut blocks: Vec<Option<Block>> = (0..8).map(|_| block("s", &[])).collect();
    blocks[7] = None;
    let map = VoxelMap { width: 2, height: 2, length: 2, blocks };
    let bs = optimize_mesh(&map, GreedyLevel::All);
    assert_eq!(
        boxes(&bs),
        vec![
            ((0, 0, 0), (64, 64, 32), s("s")),
            ((0, 0, 32), (64, 32, 64), s("s")),
            ((0, 32, 32), (32, 64, 64), s("s")),
        ]
    );
}

#[test]
fn slabs_merge_only_with_all() {
    let map = VoxelMap {
        width: 2,
        height: 1,
        length: 1,
        blocks: vec![block("minecraft:oak_slab", &[]), block("minecraft:oak_slab", &[])],
    };
    let full_only = optimize_mesh(&map, GreedyLevel::FullOnly);
    assert_eq!(
        boxes(&full_only),
        vec![
            ((0, 0, 0), (32, 32, 16), s("minecraft:oak_slab")),
            ((32, 0, 0), (64, 32, 16), s("minecraft:oak_slab")),
        ]
    );
    let all = optimize_mesh(&map, GreedyLevel::All);
    assert_eq!(boxes(&all), vec![((0, 0, 0), (64, 32, 16), s("minecraft:oak_slab"))]);
}

#[test]
fn top_slab_fills_upper_half() {
    let map = VoxelMap { width: 1, height: 1, length: 1, blocks: vec![block("minecraft:oak_slab", &[("half", "top")])] };
    let bs = optimize_mesh(&map, GreedyLevel::FullOnly);
    assert_eq!(boxes(&bs), vec![((0, 0, 16), (32, 32, 32), s("minecraft:oak_slab"))]);
}

#[test]
fn panels_and_crosses() {
    let map = VoxelMap {
        width: 3,
        height: 1,
        length: 1,
        blocks: vec![
            block("minecraft:oak_fence", &[("north", "true")]),
            block("minecraft:oak_fence", &[("east", "true")]),
            block("minecraft:iron_bars", &[]),
        ],
    };
    let bs = optimize_mesh(&map, GreedyLevel::FullOnly);
    assert_eq!(
        boxes(&bs),
        vec![
            ((14, 0, 0), (18, 32, 32), s("minecraft:oak_fence")),
            ((32, 14, 0), (64, 18, 32), s("minecraft:oak_fence")),
            ((78, 0, 0), (82, 32, 32), s("minecraft:iron_bars")),
            ((64, 14, 0), (96, 18, 32), s("minecraft:iron_bars")),
        ]
    );
}

#[test]
fn fence_posts_stack_vertically_with_all() {
    let map = VoxelMap {
        width: 1,
        height: 2,
        length: 1,
        blocks: vec![block("minecraft:oak_fence", &[]), block("minecraft:oak_fence", &[])],
    };
    let bs = optimize_mesh(&map, GreedyLevel::All);
    assert_eq!(
        boxes(&bs),
        vec![
            ((14, 0, 0), (18, 32, 64), s("minecraft:oak_fence")),
            ((0, 14, 0), (32, 18, 64), s("minecraft:oak_fence")),
        ]
    );
    assert_eq!(optimize_mesh(&map, GreedyLevel::FullOnly).len(), 4);
}

#[test]
fn empty_dimension_gives_no_brushes() {
    let map = VoxelMap { width: 0, height: 3, length: 3, blocks: vec![] };
    assert!(map.is_meshable());
    assert!(optimize_mesh(&map, GreedyLevel::All).is_empty());
}

#[test]
fn meshable_rejects_short_block_lists_and_huge_sizes() {
    let short = VoxelMap { width: 2, height: 1, length: 1, blocks: vec![None] };
    assert!(!short.is_meshable());
    let huge = VoxelMap { width: 70_000_000, height: 1, length: 1, blocks: vec![] };
    assert!(!huge.is_meshable());
}

#[test]
fn full_match_reads_the_computed_index() {
    let blocks = vec![block("a", &[]), block("b", &[]), block("a", &[]), None];
    let visited = vec![false, false, false, false];
    let tex = s("b");
    // (-1, 1, 0) in a grid 2 wide and 1 long is index 1 * 2 + 0 * 2 - 1 = 1.
    assert!(is_full_match(-1, 1, 0, &tex, &visited, &blocks, 2, 1));
    // (3, 0, 0) is index 3, an empty cell.
    assert!(!is_full_match(3, 0, 0, &tex, &visited, &blocks, 2, 1));
}

#[test]
fn meshable_accepts_sparse_and_exact_block_lists() {
    let mut blocks: Vec<Option<Block>> = (0..1000).map(|_| None).collect();
    blocks[999] = block("stone", &[]);
    let map = VoxelMap { width: 10, height: 10, length: 10, blocks };
    assert!(map.is_meshable());
    let bs = optimize_mesh(&map, GreedyLevel::All);
    assert_eq!(boxes(&bs), vec![((288, 288, 288), (320, 320, 320), s("stone"))]);
    let longer = VoxelMap { width: 1, height: 1, length: 1, blocks: vec![None, block("stone", &[])] };
    assert!(longer.is_meshable());
    assert!(optimize_mesh(&longer, GreedyLevel::All).is_empty());
}
