use trenchcraft::block_shapes::{get_shape, BlockShape};
use trenchcraft::properties::Properties;
use trenchcraft::voxel::Block;

fn block(name: &str, props: &[(&str, &str)]) -> Block {
    let mut properties = Properties::new();
    for (k, v) in props {
        properties.insert(k.to_string(), v.to_string());
    }
    Block { name: name.to_string(), properties }
}

#[test]
fn full_block_is_full() {
    assert_eq!(get_shape(&block("minecraft:stone", &[])), BlockShape::Full);
}

#[test]
fn slab_defaults_to_bottom() {
    assert_eq!(get_shape(&block("minecraft:oak_slab", &[])), BlockShape::SlabBottom);
    assert_eq!(get_shape(&block("minecraft:oak_slab", &[("half", "bottom")])), BlockShape::SlabBottom);
    assert_eq!(get_shape(&block("minecraft:oak_slab", &[("half", "double")])), BlockShape::SlabBottom);
}

#[test]
fn top_slab() {
    assert_eq!(get_shape(&block("minecraft:stone_slab", &[("half", "top")])), BlockShape::SlabTop);
}

#[test]
fn fence_panels_follow_connections() {
    assert_eq!(get_shape(&block("minecraft:oak_fence", &[("north", "true")])), BlockShape::ThinPanelNS);
    assert_eq!(get_shape(&block("minecraft:oak_fence", &[("south", "true"), ("east", "false")])), BlockShape::ThinPanelNS);
    assert_eq!(get_shape(&block("minecraft:oak_fence", &[("west", "true")])), BlockShape::ThinPanelEW);
    assert_eq!(get_shape(&block("minecraft:oak_fence", &[("north", "true"), ("east", "true")])), BlockShape::ThinCross);
    assert_eq!(get_shape(&block("minecraft:oak_fence", &[])), BlockShape::ThinCross);
}

#[test]
fn none_and_false_do_not_connect() {
    assert_eq!(get_shape(&block("minecraft:iron_bars", &[("north", "none"), ("east", "low")])), BlockShape::ThinPanelEW);
    assert_eq!(get_shape(&block("minecraft:glass_pane", &[("north", "false"), ("south", "false")])), BlockShape::ThinCross);
}

#[test]
fn panes_and_bars_are_thin() {
    assert_eq!(get_shape(&block("minecraft:red_stained_glass_pane", &[("east", "true")])), BlockShape::ThinPanelEW);
    assert_eq!(get_shape(&block("minecraft:iron_bars", &[("north", "true")])), BlockShape::ThinPanelNS);
}

#[test]
fn fence_gate_is_full() {
    assert_eq!(get_shape(&block("minecraft:oak_fence_gate", &[("north", "true")])), BlockShape::Full);
}

#[test]
fn properties_replace_and_get() {
    let mut p = Properties::new();
    assert_eq!(p.len(), 0);
    p.insert("half".to_string(), "top".to_string());
    p.insert("facing".to_string(), "north".to_string());
    p.insert("half".to_string(), "bottom".to_string());
    assert_eq!(p.len(), 2);
    assert_eq!(p.get("half").map(|s| s.as_str()), Some("bottom"));
    assert_eq!(p.get("facing").map(|s| s.as_str()), Some("north"));
    assert_eq!(p.get("waterlogged"), None);
}
