use trenchcraft::filter::filter_blocks;
use trenchcraft::properties::Properties;
use trenchcraft::voxel::{Block, VoxelMap};

fn named(name: &str) -> Option<Block> {
    Some(Block { name: name.to_string(), properties: Properties::new() })
}

fn names(m: &VoxelMap) -> Vec<Option<String>> {
    m.blocks.iter().map(|c| c.as_ref().map(|b| b.name.clone())).collect()
}

#[test]
fn air_and_structure_void_are_culled() {
    let map = VoxelMap {
        width: 5,
        height: 1,
        length: 1,
        blocks: vec![
            named("minecraft:air"),
            named("minecraft:cave_air"),
            named("minecraft:structure_void"),
            None,
            named("minecraft:stone"),
        ],
    };
    let out = filter_blocks(map);
    assert_eq!(out.width, 5);
    assert_eq!(out.height, 1);
    assert_eq!(out.length, 1);
    assert_eq!(names(&out), vec![None, None, None, None, Some("textures/minecraft/stone".to_string())]);
}

#[test]
fn stairs_are_kept() {
    let mut properties = Properties::new();
    properties.insert("half".to_string(), "bottom".to_string());
    let map = VoxelMap {
        width: 1,
        height: 1,
        length: 1,
        blocks: vec![Some(Block { name: "minecraft:oak_stairs".to_string(), properties })],
    };
    let out = filter_blocks(map);
    let b = out.blocks[0].as_ref().unwrap();
    assert_eq!(b.name, "textures/minecraft/oak_stairs");
    assert_eq!(b.properties.get("half").map(|s| s.as_str()), Some("bottom"));
}

#[test]
fn only_the_air_names_are_culled() {
    let map = VoxelMap {
        width: 4,
        height: 1,
        length: 1,
        blocks: vec![
            named("minecraft:void_air"),
            named("minecraft:air_block"),
            named("air"),
            named("minecraft:red_stained_glass_pane"),
        ],
    };
    assert_eq!(
        names(&filter_blocks(map)),
        vec![
            None,
            Some("textures/minecraft/air_block".to_string()),
            Some("textures/air".to_string()),
            Some("textures/minecraft/red_stained_glass_pane".to_string()),
        ]
    );
}

#[test]
fn texture_paths_replace_every_namespace() {
    let map = VoxelMap {
        width: 2,
        height: 1,
        length: 1,
        blocks: vec![named("minecraft:minecraft:stone"), named("custom:brick")],
    };
    assert_eq!(
        names(&filter_blocks(map)),
        vec![
            Some("textures/minecraft/minecraft/stone".to_string()),
            Some("textures/custom:brick".to_string()),
        ]
    );
}

#[test]
fn properties_survive_filtering() {
    let mut properties = Properties::new();
    properties.insert("half".to_string(), "top".to_string());
    let map = VoxelMap {
        width: 1,
        height: 1,
        length: 1,
        blocks: vec![Some(Block { name: "minecraft:oak_slab".to_string(), properties })],
    };
    let out = filter_blocks(map);
    let b = out.blocks[0].as_ref().unwrap();
    assert_eq!(b.name, "textures/minecraft/oak_slab");
    assert_eq!(b.properties.get("half").map(|s| s.as_str()), Some("top"));
}
