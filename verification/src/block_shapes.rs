//! The geometric shape a block is meshed as, read from its name and state.
use vstd::prelude::*;
use crate::text::{has_suffix, has_substring, ends_with, contains, text_eq};
use crate::voxel::{Block, BlockView};

verus! {

/// How a block is meshed: a full cube, a half-height slab, or a thin panel
/// (fences, glass panes, iron bars) running north-south, east-west, or both.
#[derive(Clone, Copy, Debug, PartialEq, Eq, Structural)]
pub enum BlockShape {
    Full,
    SlabBottom,
    SlabTop,
    ThinPanelNS,
    ThinPanelEW,
    ThinCross,
}

/// A connection property (`north`, `east`, ...) is set and is neither
/// `false` nor `none`.
pub open spec fn prop_true(props: Map<Seq<char>, Seq<char>>, key: Seq<char>) -> bool {
    props.contains_key(key) && props[key] != "false"@ && props[key] != "none"@
}

/// Blocks meshed as thin panels: fences, glass panes and iron bars.
pub open spec fn is_thin_name(name: Seq<char>) -> bool {
    has_suffix(name, "_fence"@) || has_substring(name, "glass_pane"@) || has_substring(
        name,
        "iron_bars"@,
    )
}

/// The shape of a block: slabs (names ending in `_slab`) are top slabs when
/// their `half` is `top` and bottom slabs otherwise; thin blocks are panels
/// along the axis their connections point to, and a cross when they connect
/// along both axes or along neither; everything else is a full cube.
pub open spec fn shape_of(b: BlockView) -> BlockShape {
    if has_suffix(b.name, "_slab"@) {
        if b.properties.contains_key("half"@) && b.properties["half"@] == "top"@ {
            BlockShape::SlabTop
        } else {
            BlockShape::SlabBottom
        }
    } else if is_thin_name(b.name) {
        let ns = prop_true(b.properties, "north"@) || prop_true(b.properties, "south"@);
        let ew = prop_true(b.properties, "east"@) || prop_true(b.properties, "west"@);
        if ns && !ew {
            BlockShape::ThinPanelNS
        } else if !ns && ew {
            BlockShape::ThinPanelEW
        } else {
            BlockShape::ThinCross
        }
    } else {
        BlockShape::Full
    }
}

fn prop_is_true(block: &Block, key: &str) -> (r: bool)
    ensures
        r == prop_true(block@.properties, key@),
{
    match block.properties.get(key) {
        Some(v) => !text_eq(v.as_str(), "false") && !text_eq(v.as_str(), "none"),
        None => false,
    }
}

/// The shape a block is meshed as.
pub fn get_shape(block: &Block) -> (r: BlockShape)
    ensures
        r == shape_of(block@),
{
    let name = block.name.as_str();
    if ends_with(name, "_slab") {
        let top = match block.properties.get("half") {
            Some(h) => text_eq(h.as_str(), "top"),
            None => false,
        };
        return if top {
            BlockShape::SlabTop
        } else {
            BlockShape::SlabBottom
        };
    }
    let is_thin = ends_with(name, "_fence") || contains(name, "glass_pane") || contains(
        name,
        "iron_bars",
    );
    if is_thin {
        let ns = prop_is_true(block, "north") || prop_is_true(block, "south");
        let ew = prop_is_true(block, "east") || prop_is_true(block, "west");
        return if ns && !ew {
            BlockShape::ThinPanelNS
        } else if !ns && ew {
            BlockShape::ThinPanelEW
        } else {
            BlockShape::ThinCross
        };
    }
    BlockShape::Full
}

/// The block's state connects it towards `side`: the property is present
/// and names neither `false` nor `none`.
pub open spec fn connects_towards(props: Map<Seq<char>, Seq<char>>, side: Seq<char>) -> bool {
    &&& props.contains_key(side)
    &&& props[side] != "false"@
    &&& props[side] != "none"@
}

/// A block's shape follows from its name and connections alone:
/// - a name ending in `_slab` is a slab, the upper half exactly when its
///   `half` is `top`;
/// - any other name ending in `_fence` or holding `glass_pane` or
///   `iron_bars` is a thin block: a north-south panel when it connects north
///   or south but neither east nor west, an east-west panel when it connects
///   east or west (either or both) but neither north nor south, and a cross
///   when it connects along both axes or along neither;
/// - every other block is a full cube.
pub proof fn law_shape_follows_name_and_connections(b: BlockView)
    ensures
        has_suffix(b.name, "_slab"@) ==> (shape_of(b) == BlockShape::SlabTop || shape_of(b)
            == BlockShape::SlabBottom),
        has_suffix(b.name, "_slab"@) ==> (shape_of(b) == BlockShape::SlabTop <==> (b.properties.contains_key(
            "half"@,
        ) && b.properties["half"@] == "top"@)),
        ({
            let thin = has_suffix(b.name, "_fence"@) || has_substring(b.name, "glass_pane"@)
                || has_substring(b.name, "iron_bars"@);
            let ns = connects_towards(b.properties, "north"@) || connects_towards(b.properties, "south"@);
            let ew = connects_towards(b.properties, "east"@) || connects_towards(b.properties, "west"@);
            &&& !has_suffix(b.name, "_slab"@) && thin && ns && !ew ==> shape_of(b) == BlockShape::ThinPanelNS
            &&& !has_suffix(b.name, "_slab"@) && thin && !ns && ew ==> shape_of(b) == BlockShape::ThinPanelEW
            &&& !has_suffix(b.name, "_slab"@) && thin && ns == ew ==> shape_of(b) == BlockShape::ThinCross
            &&& !has_suffix(b.name, "_slab"@) && !thin ==> shape_of(b) == BlockShape::Full
        }),
{
}

} // verus!
