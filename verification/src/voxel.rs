//! Blocks and the voxel grid that a schematic decodes into.
use vstd::prelude::*;
use crate::properties::Properties;

verus! {

/// One block: its resource name (`minecraft:oak_slab`) and state properties.
#[derive(Debug)]
pub struct Block {
    pub name: String,
    pub properties: Properties,
}

/// The value a block stands for: its name and its property map.
pub struct BlockView {
    pub name: Seq<char>,
    pub properties: Map<Seq<char>, Seq<char>>,
}

impl View for Block {
    type V = BlockView;

    open spec fn view(&self) -> BlockView {
        BlockView { name: self.name@, properties: self.properties@ }
    }
}

impl Clone for Block {
    fn clone(&self) -> (r: Self)
        ensures
            r@ == self@,
    {
        Block { name: self.name.clone(), properties: self.properties.clone() }
    }
}

/// A block position's content seen as a value.
pub open spec fn cell_view(c: Option<Block>) -> Option<BlockView> {
    match c {
        Some(b) => Some(b@),
        None => None,
    }
}

/// A box of `width` (x) by `height` (y) by `length` (z) cells; the cell at
/// `(x, y, z)` is `blocks[y * width * length + z * width + x]`, `None` for
/// an empty cell.
pub struct VoxelMap {
    pub width: i32,
    pub height: i32,
    pub length: i32,
    pub blocks: Vec<Option<Block>>,
}

/// The value a voxel map stands for.
pub struct VoxelMapView {
    pub width: int,
    pub height: int,
    pub length: int,
    pub blocks: Seq<Option<BlockView>>,
}

impl View for VoxelMap {
    type V = VoxelMapView;

    open spec fn view(&self) -> VoxelMapView {
        VoxelMapView {
            width: self.width as int,
            height: self.height as int,
            length: self.length as int,
            blocks: self.blocks@.map_values(|c: Option<Block>| cell_view(c)),
        }
    }
}

/// The index of cell `(x, y, z)` in a grid `w` wide and `l` long.
pub open spec fn cell_index(w: int, l: int, x: int, y: int, z: int) -> int {
    y * (w * l) + z * w + x
}

/// `(x, y, z)` lies inside a grid of the given dimensions.
pub open spec fn in_grid(w: int, h: int, l: int, x: int, y: int, z: int) -> bool {
    0 <= x < w && 0 <= y < h && 0 <= z < l
}

/// Cells of the grid have indices below `w * h * l`, and the row and layer
/// products stay below it.
pub proof fn lemma_cell_index_bounds(w: int, h: int, l: int, x: int, y: int, z: int)
    requires
        in_grid(w, h, l, x, y, z),
    ensures
        0 <= z * w + x < w * l,
        0 <= y * (w * l) <= cell_index(w, l, x, y, z),
        0 <= cell_index(w, l, x, y, z) < w * h * l,
        w * l <= w * h * l,
{
    assert(0 <= z * w + x < w * l) by (nonlinear_arith)
        requires
            0 <= x < w,
            0 <= z < l,
    ;
    assert(0 <= y * (w * l)) by (nonlinear_arith)
        requires
            0 <= y,
            0 < w,
            0 < l,
    ;
    assert(y * (w * l) + (w * l) <= w * h * l) by (nonlinear_arith)
        requires
            0 <= y < h,
            0 < w,
            0 < l,
    ;
    assert(w * l <= w * h * l) by (nonlinear_arith)
        requires
            1 <= h,
            0 < w,
            0 < l,
    ;
}

/// Distinct cells of a grid have distinct indices.
pub proof fn lemma_cell_index_injective(
    w: int,
    h: int,
    l: int,
    x1: int,
    y1: int,
    z1: int,
    x2: int,
    y2: int,
    z2: int,
)
    requires
        in_grid(w, h, l, x1, y1, z1),
        in_grid(w, h, l, x2, y2, z2),
        cell_index(w, l, x1, y1, z1) == cell_index(w, l, x2, y2, z2),
    ensures
        x1 == x2 && y1 == y2 && z1 == z2,
{
    lemma_cell_index_bounds(w, h, l, x1, y1, z1);
    lemma_cell_index_bounds(w, h, l, x2, y2, z2);
    let r1 = z1 * w + x1;
    let r2 = z2 * w + x2;
    let wl = w * l;
    assert(y1 == y2) by (nonlinear_arith)
        requires
            y1 * wl + r1 == y2 * wl + r2,
            0 <= r1 < wl,
            0 <= r2 < wl,
            0 <= y1,
            0 <= y2,
    ;
    assert(z1 == z2) by (nonlinear_arith)
        requires
            z1 * w + x1 == z2 * w + x2,
            0 <= x1 < w,
            0 <= x2 < w,
            0 <= z1,
            0 <= z2,
    ;
}

} // verus!
