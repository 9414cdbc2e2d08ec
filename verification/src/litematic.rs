//! Litematica regions read into a voxel grid.
use vstd::prelude::*;
use crate::properties::Properties;
use crate::voxel::{Block, BlockView, VoxelMap};

verus! {

/// A Litematica region as far as meshing reads it: its size along x, y and
/// z, and the name of the block at each position, listed layer by layer
/// (y), row by row (z), from low x to high x.
pub struct LitematicRegion {
    pub width: i32,
    pub height: i32,
    pub length: i32,
    pub block_names: Vec<String>,
}

/// The region has no empty or negative dimension.
pub open spec fn region_solid(r: LitematicRegion) -> bool {
    r.width > 0 && r.height > 0 && r.length > 0
}

/// A region of this size can be read without overflow: `width * height`
/// and `width * height * length` fit in `i32`, and the latter is not
/// negative.
pub open spec fn size_fits(width: int, height: int, length: int) -> bool {
    &&& i32::MIN <= width * height <= i32::MAX
    &&& 0 <= width * height * length <= i32::MAX
}

/// The region can be read: its size fits and, when it is solid, it lists
/// one name per cell.
pub open spec fn region_loadable(r: LitematicRegion) -> bool {
    &&& size_fits(r.width as int, r.height as int, r.length as int)
    &&& region_solid(r) ==> r.block_names@.len() == r.width * r.height * r.length
}

/// Cell `i` of the grid a region gives: a property-less block with the
/// listed name when the region is solid, empty otherwise.
pub open spec fn region_cell(r: LitematicRegion, i: int) -> Option<BlockView> {
    if region_solid(r) {
        Some(BlockView { name: r.block_names@[i]@, properties: Map::empty() })
    } else {
        None
    }
}

impl VoxelMap {
    /// The voxel map of a schematic's first region; `None` when it has no
    /// region.
    pub fn from_litematic(regions: &Vec<LitematicRegion>) -> (r: Option<VoxelMap>)
        requires
            regions@.len() > 0 ==> region_loadable(regions@[0]),
        ensures
            regions@.len() == 0 <==> r is None,
            r matches Some(m) ==> {
                let reg = regions@[0];
                &&& m.width == reg.width
                &&& m.height == reg.height
                &&& m.length == reg.length
                &&& m@.blocks == Seq::new(
                    (reg.width * reg.height * reg.length) as nat,
                    |i: int| region_cell(reg, i),
                )
            },
            r matches Some(m) ==> forall|i: int|
                0 <= i < m@.blocks.len() ==> #[trigger] m@.blocks[i] == if regions@[0].width > 0
                    && regions@[0].height > 0 && regions@[0].length > 0 {
                    Some(BlockView { name: regions@[0].block_names@[i]@, properties: Map::empty() })
                } else {
                    None
                },
    {
        if regions.len() == 0 {
            return None;
        }
        let region = &regions[0];
        let width = region.width;
        let height = region.height;
        let length = region.length;
        let n = (width * height * length) as usize;
        let solid = width > 0 && height > 0 && length > 0;
        let mut blocks: Vec<Option<Block>> = Vec::new();
        let mut i: usize = 0;
        while i < n
            invariant
                i <= n,
                n == region.width * region.height * region.length,
                solid == region_solid(*region),
                region_loadable(*region),
                blocks@.len() == i,
                forall|j: int|
                    0 <= j < i ==> crate::voxel::cell_view(#[trigger] blocks@[j]) == region_cell(
                        *region,
                        j,
                    ),
            decreases n - i,
        {
            if solid {
                let name = region.block_names[i].clone();
                blocks.push(Some(Block { name, properties: Properties::new() }));
            } else {
                blocks.push(None);
            }
            i = i + 1;
        }
        let m = VoxelMap { width, height, length, blocks };
        assert(m@.blocks =~= Seq::new(
            (region.width * region.height * region.length) as nat,
            |i: int| region_cell(*region, i),
        ));
        Some(m)
    }
}

/// Whether a region of this size can be read: see `size_fits`.
pub fn region_size_fits(width: i32, height: i32, length: i32) -> (ok: bool)
    ensures
        ok == size_fits(width as int, height as int, length as int),
{
    let w = width as i64;
    let h = height as i64;
    let l = length as i64;
    assert(-0x8000_0000_0000_0000 < w * h < 0x8000_0000_0000_0000) by (nonlinear_arith)
        requires
            i32::MIN <= w <= i32::MAX,
            i32::MIN <= h <= i32::MAX,
    ;
    let wh = w * h;
    if wh < i32::MIN as i64 || wh > i32::MAX as i64 {
        return false;
    }
    assert(-0x8000_0000_0000_0000 < wh * l < 0x8000_0000_0000_0000) by (nonlinear_arith)
        requires
            i32::MIN <= wh <= i32::MAX,
            i32::MIN <= l <= i32::MAX,
    ;
    let n = wh * l;
    0 <= n && n <= i32::MAX as i64
}

/// Whether a region can be read: see `region_loadable`.
pub fn region_is_loadable(r: &LitematicRegion) -> (ok: bool)
    ensures
        ok == region_loadable(*r),
{
    if !region_size_fits(r.width, r.height, r.length) {
        return false;
    }
    if r.width > 0 && r.height > 0 && r.length > 0 {
        r.block_names.len() == (r.width * r.height * r.length) as usize
    } else {
        true
    }
}

} // verus!
