//! Greedy meshing: the voxel grid becomes a list of axis-aligned brushes in
//! Quake units (32 per block; Minecraft x, z, y become Quake x, y, z).
use vstd::prelude::*;
use crate::block_shapes::{BlockShape, get_shape, shape_of};
use crate::voxel::{
    Block,
    BlockView,
    VoxelMap,
    VoxelMapView,
    cell_index,
    cell_view,
    in_grid,
    lemma_cell_index_bounds,
    lemma_cell_index_injective,
};

verus! {

/// An axis-aligned box in Quake units with the texture it is drawn with.
pub struct Brush {
    pub min: (i32, i32, i32),
    pub max: (i32, i32, i32),
    pub texture: String,
}

/// The value a brush stands for.
pub struct BrushView {
    pub min: (int, int, int),
    pub max: (int, int, int),
    pub texture: Seq<char>,
}

impl View for Brush {
    type V = BrushView;

    open spec fn view(&self) -> BrushView {
        BrushView {
            min: (self.min.0 as int, self.min.1 as int, self.min.2 as int),
            max: (self.max.0 as int, self.max.1 as int, self.max.2 as int),
            texture: self.texture@,
        }
    }
}

/// The values of a list of brushes.
pub open spec fn brush_views(s: Seq<Brush>) -> Seq<BrushView> {
    s.map_values(|b: Brush| b@)
}

/// How far meshing merges neighbouring blocks: not at all, full blocks only,
/// or full blocks and, along the axes their geometry allows, slabs and thin
/// panels.
#[derive(Clone, Copy, Debug, PartialEq, Eq, Structural)]
pub enum GreedyLevel {
    Off,
    FullOnly,
    All,
}

/// The axes along which a block of `shape` is merged, as flags for
/// (x, z, y): full blocks in all three; slabs horizontally; a north-south
/// panel along z and y; an east-west panel along x and y; a cross vertically.
pub open spec fn merge_axes(level: GreedyLevel, shape: BlockShape) -> (bool, bool, bool) {
    match level {
        GreedyLevel::Off => (false, false, false),
        GreedyLevel::FullOnly => {
            if shape == BlockShape::Full {
                (true, true, true)
            } else {
                (false, false, false)
            }
        },
        GreedyLevel::All => match shape {
            BlockShape::Full => (true, true, true),
            BlockShape::SlabBottom => (true, true, false),
            BlockShape::SlabTop => (true, true, false),
            BlockShape::ThinPanelNS => (false, true, true),
            BlockShape::ThinPanelEW => (true, false, true),
            BlockShape::ThinCross => (false, false, true),
        },
    }
}

/// The cell of `m` at `(x, y, z)`.
pub open spec fn cell_at(m: VoxelMapView, x: int, y: int, z: int) -> Option<BlockView> {
    m.blocks[cell_index(m.width, m.length, x, y, z)]
}

/// The cell holds a block named `tex` of the given shape.
pub open spec fn cell_fits(c: Option<BlockView>, tex: Seq<char>, shape: BlockShape) -> bool {
    match c {
        Some(b) => b.name == tex && shape_of(b) == shape,
        None => false,
    }
}

/// The cell is not yet meshed and holds a block named `tex` of `shape`.
pub open spec fn cell_free(
    m: VoxelMapView,
    vis: Set<(int, int, int)>,
    tex: Seq<char>,
    shape: BlockShape,
    x: int,
    y: int,
    z: int,
) -> bool {
    !vis.contains((x, y, z)) && cell_fits(cell_at(m, x, y, z), tex, shape)
}

/// Grows a run along x from `ex` while the cells at `(ex, y, z)` are free.
pub open spec fn extend_x(
    m: VoxelMapView,
    vis: Set<(int, int, int)>,
    tex: Seq<char>,
    shape: BlockShape,
    y: int,
    z: int,
    ex: int,
) -> int
    decreases m.width - ex,
{
    if ex < m.width && cell_free(m, vis, tex, shape, ex, y, z) {
        extend_x(m, vis, tex, shape, y, z, ex + 1)
    } else {
        ex
    }
}

/// Every cell of the row `x0 .. x1` at `(y, z)` is free.
pub open spec fn row_free(
    m: VoxelMapView,
    vis: Set<(int, int, int)>,
    tex: Seq<char>,
    shape: BlockShape,
    x0: int,
    x1: int,
    y: int,
    z: int,
) -> bool {
    forall|tx: int| x0 <= tx < x1 ==> #[trigger] cell_free(m, vis, tex, shape, tx, y, z)
}

/// Grows a run of rows along z from `ez` while the row at `ez` is free.
pub open spec fn extend_z(
    m: VoxelMapView,
    vis: Set<(int, int, int)>,
    tex: Seq<char>,
    shape: BlockShape,
    x0: int,
    x1: int,
    y: int,
    ez: int,
) -> int
    decreases m.length - ez,
{
    if ez < m.length && row_free(m, vis, tex, shape, x0, x1, y, ez) {
        extend_z(m, vis, tex, shape, x0, x1, y, ez + 1)
    } else {
        ez
    }
}

/// Every cell of the rectangle `x0 .. x1` by `z0 .. z1` at height `y` is free.
pub open spec fn layer_free(
    m: VoxelMapView,
    vis: Set<(int, int, int)>,
    tex: Seq<char>,
    shape: BlockShape,
    x0: int,
    x1: int,
    z0: int,
    z1: int,
    y: int,
) -> bool {
    forall|tz: int| z0 <= tz < z1 ==> #[trigger] row_free(m, vis, tex, shape, x0, x1, y, tz)
}

/// Grows a stack of layers along y from `ey` while the layer at `ey` is free.
pub open spec fn extend_y(
    m: VoxelMapView,
    vis: Set<(int, int, int)>,
    tex: Seq<char>,
    shape: BlockShape,
    x0: int,
    x1: int,
    z0: int,
    z1: int,
    ey: int,
) -> int
    decreases m.height - ey,
{
    if ey < m.height && layer_free(m, vis, tex, shape, x0, x1, z0, z1, ey) {
        extend_y(m, vis, tex, shape, x0, x1, z0, z1, ey + 1)
    } else {
        ey
    }
}

/// `c` lies in the box `x0 .. x1` by `y0 .. y1` by `z0 .. z1`.
pub open spec fn in_box(c: (int, int, int), x0: int, x1: int, y0: int, y1: int, z0: int, z1: int) -> bool {
    x0 <= c.0 < x1 && y0 <= c.1 < y1 && z0 <= c.2 < z1
}

/// The set of cells of a box.
pub open spec fn box_cells(x0: int, x1: int, y0: int, y1: int, z0: int, z1: int) -> Set<(int, int, int)> {
    Set::new(|c: (int, int, int)| in_box(c, x0, x1, y0, y1, z0, z1))
}

/// A brush from its corners.
pub open spec fn brush_of(min: (int, int, int), max: (int, int, int), tex: Seq<char>) -> BrushView {
    BrushView { min, max, texture: tex }
}

/// The brushes for the cells `x .. ex` by `y .. ey` by `z .. ez` of a block
/// shape, in Quake units: a full block fills the box; a bottom (top) slab
/// fills its lower (upper) 16 units; a north-south panel is the 4 units
/// `14 .. 18` across x, an east-west panel the same across Quake y; a cross
/// is both panels.
pub open spec fn shape_brushes(
    shape: BlockShape,
    x: int,
    y: int,
    z: int,
    ex: int,
    ey: int,
    ez: int,
    tex: Seq<char>,
) -> Seq<BrushView> {
    let qx1 = x * 32;
    let qy1 = z * 32;
    let qz1 = y * 32;
    let qx2 = ex * 32;
    let qy2 = ez * 32;
    let qz2 = ey * 32;
    match shape {
        BlockShape::Full => seq![brush_of((qx1, qy1, qz1), (qx2, qy2, qz2), tex)],
        BlockShape::SlabBottom => seq![brush_of((qx1, qy1, qz1), (qx2, qy2, qz1 + 16), tex)],
        BlockShape::SlabTop => seq![brush_of((qx1, qy1, qz1 + 16), (qx2, qy2, qz2), tex)],
        BlockShape::ThinPanelNS => seq![brush_of((qx1 + 14, qy1, qz1), (qx1 + 18, qy2, qz2), tex)],
        BlockShape::ThinPanelEW => seq![brush_of((qx1, qy1 + 14, qz1), (qx2, qy1 + 18, qz2), tex)],
        BlockShape::ThinCross => seq![
            brush_of((qx1 + 14, qy1, qz1), (qx1 + 18, qy2, qz2), tex),
            brush_of((qx1, qy1 + 14, qz1), (qx2, qy1 + 18, qz2), tex),
        ],
    }
}

/// The meshing state: the cells already covered and the brushes so far.
pub struct MeshState {
    pub visited: Set<(int, int, int)>,
    pub brushes: Seq<BrushView>,
}

/// The extent `(ex, ey, ez)` of the box grown from the block at `(x, y, z)`:
/// first along x, then whole rows along z, then whole layers along y, each
/// only along the axes that `merge_axes` allows.
pub open spec fn grown_box(
    m: VoxelMapView,
    level: GreedyLevel,
    vis: Set<(int, int, int)>,
    b: BlockView,
    x: int,
    y: int,
    z: int,
) -> (int, int, int) {
    let shape = shape_of(b);
    let axes = merge_axes(level, shape);
    let ex = if axes.0 {
        extend_x(m, vis, b.name, shape, y, z, x + 1)
    } else {
        x + 1
    };
    let ez = if axes.1 {
        extend_z(m, vis, b.name, shape, x, ex, y, z + 1)
    } else {
        z + 1
    };
    let ey = if axes.2 {
        extend_y(m, vis, b.name, shape, x, ex, z, ez, y + 1)
    } else {
        y + 1
    };
    (ex, ey, ez)
}

/// Meshing the cell `(x, y, z)`: nothing when it is covered or empty;
/// otherwise its box is grown, marked covered, and its brushes appended.
pub open spec fn mesh_step(m: VoxelMapView, level: GreedyLevel, st: MeshState, x: int, y: int, z: int) -> MeshState {
    if st.visited.contains((x, y, z)) {
        st
    } else {
        match cell_at(m, x, y, z) {
            None => st,
            Some(b) => {
                let e = grown_box(m, level, st.visited, b, x, y, z);
                MeshState {
                    visited: st.visited.union(box_cells(x, e.0, y, e.1, z, e.2)),
                    brushes: st.brushes + shape_brushes(shape_of(b), x, y, z, e.0, e.1, e.2, b.name),
                }
            },
        }
    }
}

/// The state before cell `(x, y, z)` when cells are met layer by layer
/// (y), row by row (z), from low x to high x.
pub open spec fn mesh_scan(m: VoxelMapView, level: GreedyLevel, y: int, z: int, x: int) -> MeshState
    decreases y, z, x,
{
    if x > 0 {
        mesh_step(m, level, mesh_scan(m, level, y, z, x - 1), x - 1, y, z)
    } else if z > 0 {
        mesh_scan(m, level, y, z - 1, m.width)
    } else if y > 0 {
        mesh_scan(m, level, y - 1, m.length, 0)
    } else {
        MeshState { visited: Set::empty(), brushes: Seq::empty() }
    }
}

/// The brushes that meshing a map gives: none for a map with an empty
/// dimension, else those collected over all cells.
pub open spec fn mesh(m: VoxelMapView, level: GreedyLevel) -> Seq<BrushView> {
    if m.width > 0 && m.height > 0 && m.length > 0 {
        mesh_scan(m, level, m.height, 0, 0).brushes
    } else {
        Seq::empty()
    }
}

/// The cube of cell `(x, y, z)`, when the cell holds a block, ends within
/// `i32` in Quake units: `(x + 1) * 32`, `(y + 1) * 32` and `(z + 1) * 32`
/// fit.
pub open spec fn cube_in_range(m: VoxelMapView, x: int, y: int, z: int) -> bool {
    cell_at(m, x, y, z) is Some ==> {
        &&& (x + 1) * 32 <= i32::MAX
        &&& (y + 1) * 32 <= i32::MAX
        &&& (z + 1) * 32 <= i32::MAX
    }
}

/// A map can be meshed without arithmetic overflow or reading past its
/// blocks: when no dimension is empty, its cells fit in its block list,
/// every cell index and the layer size fit in `i32`, and the cube of every
/// block ends within `i32` in Quake units.
pub open spec fn meshable(m: VoxelMapView) -> bool {
    (m.width > 0 && m.height > 0 && m.length > 0) ==> {
        &&& m.width * m.height * m.length <= m.blocks.len()
        &&& m.width * m.length <= i32::MAX
        &&& m.width * m.height * m.length - 1 <= i32::MAX
        &&& forall|x: int, y: int, z: int|
            in_grid(m.width, m.height, m.length, x, y, z) ==> #[trigger] cube_in_range(m, x, y, z)
    }
}

/// A run grown along x from `s` stays in the grid and holds only free cells.
pub proof fn lemma_extend_x_free(
    m: VoxelMapView,
    vis: Set<(int, int, int)>,
    tex: Seq<char>,
    shape: BlockShape,
    y: int,
    z: int,
    s: int,
)
    ensures
        s <= extend_x(m, vis, tex, shape, y, z, s),
        s <= m.width ==> extend_x(m, vis, tex, shape, y, z, s) <= m.width,
        forall|t: int| s <= t < extend_x(m, vis, tex, shape, y, z, s) ==> cell_free(m, vis, tex, shape, t, y, z),
    decreases m.width - s,
{
    if s < m.width && cell_free(m, vis, tex, shape, s, y, z) {
        lemma_extend_x_free(m, vis, tex, shape, y, z, s + 1);
    }
}

/// A run of rows grown along z from `s` stays in the grid and holds only
/// free rows.
pub proof fn lemma_extend_z_free(
    m: VoxelMapView,
    vis: Set<(int, int, int)>,
    tex: Seq<char>,
    shape: BlockShape,
    x0: int,
    x1: int,
    y: int,
    s: int,
)
    ensures
        s <= extend_z(m, vis, tex, shape, x0, x1, y, s),
        s <= m.length ==> extend_z(m, vis, tex, shape, x0, x1, y, s) <= m.length,
        forall|t: int|
            s <= t < extend_z(m, vis, tex, shape, x0, x1, y, s) ==> row_free(m, vis, tex, shape, x0, x1, y, t),
    decreases m.length - s,
{
    if s < m.length && row_free(m, vis, tex, shape, x0, x1, y, s) {
        lemma_extend_z_free(m, vis, tex, shape, x0, x1, y, s + 1);
    }
}

/// A stack of layers grown along y from `s` stays in the grid and holds
/// only free layers.
pub proof fn lemma_extend_y_free(
    m: VoxelMapView,
    vis: Set<(int, int, int)>,
    tex: Seq<char>,
    shape: BlockShape,
    x0: int,
    x1: int,
    z0: int,
    z1: int,
    s: int,
)
    ensures
        s <= extend_y(m, vis, tex, shape, x0, x1, z0, z1, s),
        s <= m.height ==> extend_y(m, vis, tex, shape, x0, x1, z0, z1, s) <= m.height,
        forall|t: int|
            s <= t < extend_y(m, vis, tex, shape, x0, x1, z0, z1, s) ==> layer_free(
                m,
                vis,
                tex,
                shape,
                x0,
                x1,
                z0,
                z1,
                t,
            ),
    decreases m.height - s,
{
    if s < m.height && layer_free(m, vis, tex, shape, x0, x1, z0, z1, s) {
        lemma_extend_y_free(m, vis, tex, shape, x0, x1, z0, z1, s + 1);
    }
}

/// The box grown from a free block lies in the grid, keeps to the axes its
/// shape allows, and holds only free blocks of that name and shape.
pub proof fn lemma_grown_box(
    m: VoxelMapView,
    level: GreedyLevel,
    vis: Set<(int, int, int)>,
    bl: BlockView,
    x: int,
    y: int,
    z: int,
)
    requires
        in_grid(m.width, m.height, m.length, x, y, z),
        cell_at(m, x, y, z) == Some(bl),
        !vis.contains((x, y, z)),
    ensures
        ({
            let e = grown_box(m, level, vis, bl, x, y, z);
            let axes = merge_axes(level, shape_of(bl));
            &&& x < e.0 <= m.width
            &&& y < e.1 <= m.height
            &&& z < e.2 <= m.length
            &&& !axes.0 ==> e.0 == x + 1
            &&& !axes.1 ==> e.2 == z + 1
            &&& !axes.2 ==> e.1 == y + 1
            &&& forall|a: int, b: int, c: int|
                x <= a < e.0 && y <= b < e.1 && z <= c < e.2 ==> #[trigger] cell_free(
                    m,
                    vis,
                    bl.name,
                    shape_of(bl),
                    a,
                    b,
                    c,
                )
        }),
{
    let shape = shape_of(bl);
    let tex = bl.name;
    let axes = merge_axes(level, shape);
    let e = grown_box(m, level, vis, bl, x, y, z);
    lemma_extend_x_free(m, vis, tex, shape, y, z, x + 1);
    lemma_extend_z_free(m, vis, tex, shape, x, e.0, y, z + 1);
    lemma_extend_y_free(m, vis, tex, shape, x, e.0, z, e.2, y + 1);
    assert forall|a: int, b: int, c: int| x <= a < e.0 && y <= b < e.1 && z <= c < e.2 implies #[trigger] cell_free(
        m,
        vis,
        tex,
        shape,
        a,
        b,
        c,
    ) by {
        if b == y {
            if c == z {
                if a > x {
                    assert(cell_free(m, vis, tex, shape, a, y, z));
                }
            } else {
                assert(row_free(m, vis, tex, shape, x, e.0, y, c));
            }
        } else {
            assert(layer_free(m, vis, tex, shape, x, e.0, z, e.2, b));
            assert(row_free(m, vis, tex, shape, x, e.0, b, c));
        }
    }
}

/// The flags of `visited` agree with the set `vis` on every cell of the grid.
spec fn visited_agrees(m: VoxelMapView, visited: Seq<bool>, vis: Set<(int, int, int)>) -> bool {
    &&& visited.len() == m.blocks.len()
    &&& forall|x: int, y: int, z: int|
        #![trigger vis.contains((x, y, z))]
        #![trigger visited[cell_index(m.width, m.length, x, y, z)]]
        in_grid(m.width, m.height, m.length, x, y, z) ==> visited[cell_index(
            m.width,
            m.length,
            x,
            y,
            z,
        )] == vis.contains((x, y, z))
}

/// The index `y * (w * l) + z * w + x` of a cell can be computed in `i32`:
/// each product and sum on the way fits.
pub open spec fn index_computable(w: int, l: int, x: int, y: int, z: int) -> bool {
    &&& i32::MIN <= w * l <= i32::MAX
    &&& i32::MIN <= y * (w * l) <= i32::MAX
    &&& i32::MIN <= z * w <= i32::MAX
    &&& i32::MIN <= y * (w * l) + z * w <= i32::MAX
    &&& i32::MIN <= cell_index(w, l, x, y, z) <= i32::MAX
}

/// Minecraft block coordinates to Quake units: x, z, y become Quake x, y, z,
/// each times 32.
pub fn to_quake(bx: i32, bz: i32, by: i32) -> (r: (i32, i32, i32))
    requires
        i32::MIN <= bx * 32 <= i32::MAX,
        i32::MIN <= bz * 32 <= i32::MAX,
        i32::MIN <= by * 32 <= i32::MAX,
    ensures
        r.0 == bx * 32 && r.1 == bz * 32 && r.2 == by * 32,
{
    (bx * 32, bz * 32, by * 32)
}

/// Whether the cell `(bx, by, bz)` of a grid `w` wide and `l` long is not
/// yet visited and holds a block named `texture` of the given shape.
pub fn is_shape_match(
    bx: i32,
    by: i32,
    bz: i32,
    texture: &String,
    shape: BlockShape,
    visited: &[bool],
    blocks: &[Option<Block>],
    w: i32,
    l: i32,
) -> (r: bool)
    requires
        index_computable(w as int, l as int, bx as int, by as int, bz as int),
        0 <= cell_index(w as int, l as int, bx as int, by as int, bz as int),
        cell_index(w as int, l as int, bx as int, by as int, bz as int) < visited@.len(),
        cell_index(w as int, l as int, bx as int, by as int, bz as int) < blocks@.len(),
    ensures
        r == (!visited@[cell_index(w as int, l as int, bx as int, by as int, bz as int)]
            && cell_fits(
            cell_view(blocks@[cell_index(w as int, l as int, bx as int, by as int, bz as int)]),
            texture@,
            shape,
        )),
{
    let i = (by * (w * l) + bz * w + bx) as usize;
    if visited[i] {
        return false;
    }
    match &blocks[i] {
        Some(b) => {
            if b.name != *texture {
                return false;
            }
            let s = get_shape(b);
            s == shape
        },
        None => false,
    }
}

/// Whether the cell `(bx, by, bz)` is not yet visited and holds a full block
/// named `texture`.
pub fn is_full_match(
    bx: i32,
    by: i32,
    bz: i32,
    texture: &String,
    visited: &[bool],
    blocks: &[Option<Block>],
    w: i32,
    l: i32,
) -> (r: bool)
    requires
        index_computable(w as int, l as int, bx as int, by as int, bz as int),
        0 <= cell_index(w as int, l as int, bx as int, by as int, bz as int),
        cell_index(w as int, l as int, bx as int, by as int, bz as int) < visited@.len(),
        cell_index(w as int, l as int, bx as int, by as int, bz as int) < blocks@.len(),
    ensures
        r == (!visited@[cell_index(w as int, l as int, bx as int, by as int, bz as int)]
            && cell_fits(
            cell_view(blocks@[cell_index(w as int, l as int, bx as int, by as int, bz as int)]),
            texture@,
            BlockShape::Full,
        )),
{
    is_shape_match(bx, by, bz, texture, BlockShape::Full, visited, blocks, w, l)
}

/// The map has no empty dimension and can be meshed.
spec fn grid_ready(m: VoxelMapView) -> bool {
    m.width > 0 && m.height > 0 && m.length > 0 && meshable(m)
}

proof fn lemma_cell_view(map: &VoxelMap, x: int, y: int, z: int)
    requires
        grid_ready(map@),
        in_grid(map.width as int, map.height as int, map.length as int, x, y, z),
    ensures
        0 <= cell_index(map.width as int, map.length as int, x, y, z) < map.blocks@.len(),
        index_computable(map.width as int, map.length as int, x, y, z),
        cell_view(map.blocks@[cell_index(map.width as int, map.length as int, x, y, z)])
            == cell_at(map@, x, y, z),
{
    lemma_cell_index_bounds(map.width as int, map.height as int, map.length as int, x, y, z);
}

/// Whether the cell `(x, y, z)` is free for a box of `tex` and `shape`.
fn cell_is_free(
    map: &VoxelMap,
    visited: &Vec<bool>,
    Ghost(vis): Ghost<Set<(int, int, int)>>,
    tex: &String,
    shape: BlockShape,
    x: i32,
    y: i32,
    z: i32,
) -> (r: bool)
    requires
        grid_ready(map@),
        visited_agrees(map@, visited@, vis),
        in_grid(map.width as int, map.height as int, map.length as int, x as int, y as int, z as int),
    ensures
        r == cell_free(map@, vis, tex@, shape, x as int, y as int, z as int),
{
    proof {
        lemma_cell_view(map, x as int, y as int, z as int);
    }
    is_shape_match(x, y, z, tex, shape, visited.as_slice(), map.blocks.as_slice(), map.width, map.length)
}

/// The end of the run along x that starts after `x`.
fn grow_x(
    map: &VoxelMap,
    visited: &Vec<bool>,
    Ghost(vis): Ghost<Set<(int, int, int)>>,
    tex: &String,
    shape: BlockShape,
    x: i32,
    y: i32,
    z: i32,
) -> (ex: i32)
    requires
        grid_ready(map@),
        visited_agrees(map@, visited@, vis),
        in_grid(map.width as int, map.height as int, map.length as int, x as int, y as int, z as int),
    ensures
        ex == extend_x(map@, vis, tex@, shape, y as int, z as int, x + 1),
        x < ex <= map.width,
{
    let mut ex = x + 1;
    while ex < map.width
        invariant
            grid_ready(map@),
            visited_agrees(map@, visited@, vis),
            in_grid(map.width as int, map.height as int, map.length as int, x as int, y as int, z as int),
            x < ex <= map.width,
            extend_x(map@, vis, tex@, shape, y as int, z as int, x + 1) == extend_x(
                map@,
                vis,
                tex@,
                shape,
                y as int,
                z as int,
                ex as int,
            ),
        ensures
            x < ex <= map.width,
            ex == extend_x(map@, vis, tex@, shape, y as int, z as int, x + 1),
        decreases map.width - ex,
    {
        if !cell_is_free(map, visited, Ghost(vis), tex, shape, ex, y, z) {
            break;
        }
        ex = ex + 1;
    }
    ex
}

/// Whether the row `x0 .. x1` at `(y, z)` is free.
fn row_is_free(
    map: &VoxelMap,
    visited: &Vec<bool>,
    Ghost(vis): Ghost<Set<(int, int, int)>>,
    tex: &String,
    shape: BlockShape,
    x0: i32,
    x1: i32,
    y: i32,
    z: i32,
) -> (r: bool)
    requires
        grid_ready(map@),
        visited_agrees(map@, visited@, vis),
        0 <= x0 <= x1 <= map.width,
        0 <= y < map.height,
        0 <= z < map.length,
    ensures
        r == row_free(map@, vis, tex@, shape, x0 as int, x1 as int, y as int, z as int),
{
    let mut tx = x0;
    while tx < x1
        invariant
            grid_ready(map@),
            visited_agrees(map@, visited@, vis),
            0 <= x0 <= tx <= x1 <= map.width,
            0 <= y < map.height,
            0 <= z < map.length,
            forall|i: int| x0 <= i < tx ==> #[trigger] cell_free(map@, vis, tex@, shape, i, y as int, z as int),
        decreases x1 - tx,
    {
        if !cell_is_free(map, visited, Ghost(vis), tex, shape, tx, y, z) {
            return false;
        }
        tx = tx + 1;
    }
    true
}

/// The end of the run of free rows along z that starts after `z`.
fn grow_z(
    map: &VoxelMap,
    visited: &Vec<bool>,
    Ghost(vis): Ghost<Set<(int, int, int)>>,
    tex: &String,
    shape: BlockShape,
    x0: i32,
    x1: i32,
    y: i32,
    z: i32,
) -> (ez: i32)
    requires
        grid_ready(map@),
        visited_agrees(map@, visited@, vis),
        0 <= x0 <= x1 <= map.width,
        0 <= y < map.height,
        0 <= z < map.length,
    ensures
        ez == extend_z(map@, vis, tex@, shape, x0 as int, x1 as int, y as int, z + 1),
        z < ez <= map.length,
{
    let mut ez = z + 1;
    while ez < map.length
        invariant
            grid_ready(map@),
            visited_agrees(map@, visited@, vis),
            0 <= x0 <= x1 <= map.width,
            0 <= y < map.height,
            0 <= z < ez <= map.length,
            extend_z(map@, vis, tex@, shape, x0 as int, x1 as int, y as int, z + 1) == extend_z(
                map@,
                vis,
                tex@,
                shape,
                x0 as int,
                x1 as int,
                y as int,
                ez as int,
            ),
        ensures
            z < ez <= map.length,
            ez == extend_z(map@, vis, tex@, shape, x0 as int, x1 as int, y as int, z + 1),
        decreases map.length - ez,
    {
        if !row_is_free(map, visited, Ghost(vis), tex, shape, x0, x1, y, ez) {
            break;
        }
        ez = ez + 1;
    }
    ez
}

/// Whether the rectangle `x0 .. x1` by `z0 .. z1` at height `y` is free.
fn layer_is_free(
    map: &VoxelMap,
    visited: &Vec<bool>,
    Ghost(vis): Ghost<Set<(int, int, int)>>,
    tex: &String,
    shape: BlockShape,
    x0: i32,
    x1: i32,
    z0: i32,
    z1: i32,
    y: i32,
) -> (r: bool)
    requires
        grid_ready(map@),
        visited_agrees(map@, visited@, vis),
        0 <= x0 <= x1 <= map.width,
        0 <= z0 <= z1 <= map.length,
        0 <= y < map.height,
    ensures
        r == layer_free(map@, vis, tex@, shape, x0 as int, x1 as int, z0 as int, z1 as int, y as int),
{
    let mut tz = z0;
    while tz < z1
        invariant
            grid_ready(map@),
            visited_agrees(map@, visited@, vis),
            0 <= x0 <= x1 <= map.width,
            0 <= z0 <= tz <= z1 <= map.length,
            0 <= y < map.height,
            forall|i: int|
                z0 <= i < tz ==> #[trigger] row_free(map@, vis, tex@, shape, x0 as int, x1 as int, y as int, i),
        decreases z1 - tz,
    {
        if !row_is_free(map, visited, Ghost(vis), tex, shape, x0, x1, y, tz) {
            return false;
        }
        tz = tz + 1;
    }
    true
}

/// The end of the stack of free layers along y that starts above `y`.
fn grow_y(
    map: &VoxelMap,
    visited: &Vec<bool>,
    Ghost(vis): Ghost<Set<(int, int, int)>>,
    tex: &String,
    shape: BlockShape,
    x0: i32,
    x1: i32,
    z0: i32,
    z1: i32,
    y: i32,
) -> (ey: i32)
    requires
        grid_ready(map@),
        visited_agrees(map@, visited@, vis),
        0 <= x0 <= x1 <= map.width,
        0 <= z0 <= z1 <= map.length,
        0 <= y < map.height,
    ensures
        ey == extend_y(map@, vis, tex@, shape, x0 as int, x1 as int, z0 as int, z1 as int, y + 1),
        y < ey <= map.height,
{
    let mut ey = y + 1;
    while ey < map.height
        invariant
            grid_ready(map@),
            visited_agrees(map@, visited@, vis),
            0 <= x0 <= x1 <= map.width,
            0 <= z0 <= z1 <= map.length,
            0 <= y < ey <= map.height,
            extend_y(map@, vis, tex@, shape, x0 as int, x1 as int, z0 as int, z1 as int, y + 1)
                == extend_y(
                map@,
                vis,
                tex@,
                shape,
                x0 as int,
                x1 as int,
                z0 as int,
                z1 as int,
                ey as int,
            ),
        ensures
            y < ey <= map.height,
            ey == extend_y(map@, vis, tex@, shape, x0 as int, x1 as int, z0 as int, z1 as int, y + 1),
        decreases map.height - ey,
    {
        if !layer_is_free(map, visited, Ghost(vis), tex, shape, x0, x1, z0, z1, ey) {
            break;
        }
        ey = ey + 1;
    }
    ey
}

/// The index of cell `(x, y, z)` of a ready map.
fn cell_idx(map: &VoxelMap, x: i32, y: i32, z: i32) -> (i: usize)
    requires
        grid_ready(map@),
        in_grid(map.width as int, map.height as int, map.length as int, x as int, y as int, z as int),
    ensures
        i == cell_index(map.width as int, map.length as int, x as int, y as int, z as int),
        i < map.blocks@.len(),
{
    proof {
        lemma_cell_view(map, x as int, y as int, z as int);
        lemma_cell_index_bounds(map.width as int, map.height as int, map.length as int, x as int, y as int, z as int);
    }
    (y * (map.width * map.length) + z * map.width + x) as usize
}

/// Setting the flag of one cell keeps the agreement with the set grown by
/// that cell.
proof fn lemma_mark_one(
    m: VoxelMapView,
    before: Seq<bool>,
    after: Seq<bool>,
    vis: Set<(int, int, int)>,
    x: int,
    y: int,
    z: int,
)
    requires
        visited_agrees(m, before, vis),
        in_grid(m.width, m.height, m.length, x, y, z),
        m.width * m.height * m.length <= m.blocks.len(),
        after == before.update(cell_index(m.width, m.length, x, y, z), true),
    ensures
        visited_agrees(m, after, vis.insert((x, y, z))),
{
    lemma_cell_index_bounds(m.width, m.height, m.length, x, y, z);
    let s = vis.insert((x, y, z));
    assert forall|a: int, b: int, c: int| in_grid(m.width, m.height, m.length, a, b, c) implies after[cell_index(
        m.width,
        m.length,
        a,
        b,
        c,
    )] == s.contains((a, b, c)) by {
        lemma_cell_index_bounds(m.width, m.height, m.length, a, b, c);
        if (a, b, c) != (x, y, z) {
            if cell_index(m.width, m.length, a, b, c) == cell_index(m.width, m.length, x, y, z) {
                lemma_cell_index_injective(m.width, m.height, m.length, a, b, c, x, y, z);
            }
            assert(before[cell_index(m.width, m.length, a, b, c)] == vis.contains((a, b, c)));
        }
    }
}

/// Marks the cells of the box `x0 .. x1` by `y0 .. y1` by `z0 .. z1`.
fn mark_box(
    map: &VoxelMap,
    visited: &mut Vec<bool>,
    Ghost(vis): Ghost<Set<(int, int, int)>>,
    x0: i32,
    x1: i32,
    y0: i32,
    y1: i32,
    z0: i32,
    z1: i32,
)
    requires
        grid_ready(map@),
        visited_agrees(map@, old(visited)@, vis),
        0 <= x0 <= x1 <= map.width,
        0 <= y0 <= y1 <= map.height,
        0 <= z0 <= z1 <= map.length,
    ensures
        visited_agrees(map@, final(visited)@, vis.union(box_cells(x0 as int, x1 as int, y0 as int, y1 as int, z0 as int, z1 as int))),
{
    let ghost m = map@;
    let mut vy = y0;
    proof {
        assert(vis.union(box_cells(x0 as int, x1 as int, y0 as int, y0 as int, z0 as int, z1 as int)) =~= vis);
    }
    while vy < y1
        invariant
            grid_ready(m),
            m == map@,
            0 <= x0 <= x1 <= map.width,
            0 <= y0 <= vy <= y1 <= map.height,
            0 <= z0 <= z1 <= map.length,
            visited_agrees(m, visited@, vis.union(box_cells(x0 as int, x1 as int, y0 as int, vy as int, z0 as int, z1 as int))),
        decreases y1 - vy,
    {
        let ghost lower = vis.union(box_cells(x0 as int, x1 as int, y0 as int, vy as int, z0 as int, z1 as int));
        let mut vz = z0;
        proof {
            assert(lower.union(box_cells(x0 as int, x1 as int, vy as int, vy + 1, z0 as int, z0 as int)) =~= lower);
        }
        while vz < z1
            invariant
                grid_ready(m),
                m == map@,
                0 <= x0 <= x1 <= map.width,
                0 <= y0 <= vy < y1 <= map.height,
                0 <= z0 <= vz <= z1 <= map.length,
                visited_agrees(m, visited@, lower.union(box_cells(x0 as int, x1 as int, vy as int, vy + 1, z0 as int, vz as int))),
            decreases z1 - vz,
        {
            let ghost rows = lower.union(box_cells(x0 as int, x1 as int, vy as int, vy + 1, z0 as int, vz as int));
            let mut vx = x0;
            proof {
                assert(rows.union(box_cells(x0 as int, x0 as int, vy as int, vy + 1, vz as int, vz + 1)) =~= rows);
            }
            while vx < x1
                invariant
                    grid_ready(m),
                    m == map@,
                    0 <= x0 <= vx <= x1 <= map.width,
                    0 <= y0 <= vy < y1 <= map.height,
                    0 <= z0 <= vz < z1 <= map.length,
                    visited_agrees(m, visited@, rows.union(box_cells(x0 as int, vx as int, vy as int, vy + 1, vz as int, vz + 1))),
                decreases x1 - vx,
            {
                let ghost cur = rows.union(box_cells(x0 as int, vx as int, vy as int, vy + 1, vz as int, vz + 1));
                let i = cell_idx(map, vx, vy, vz);
                let ghost before = visited@;
                visited.set(i, true);
                proof {
                    lemma_mark_one(m, before, visited@, cur, vx as int, vy as int, vz as int);
                    assert(cur.insert((vx as int, vy as int, vz as int)) =~= rows.union(
                        box_cells(x0 as int, vx + 1, vy as int, vy + 1, vz as int, vz + 1),
                    ));
                }
                vx = vx + 1;
            }
            proof {
                assert(rows.union(box_cells(x0 as int, x1 as int, vy as int, vy + 1, vz as int, vz + 1)) =~= lower.union(
                    box_cells(x0 as int, x1 as int, vy as int, vy + 1, z0 as int, vz + 1),
                ));
            }
            vz = vz + 1;
        }
        proof {
            assert(lower.union(box_cells(x0 as int, x1 as int, vy as int, vy + 1, z0 as int, z1 as int)) =~= vis.union(
                box_cells(x0 as int, x1 as int, y0 as int, vy + 1, z0 as int, z1 as int),
            ));
        }
        vy = vy + 1;
    }
}

/// Appends the brushes of a block shape filling the cells `x .. ex` by
/// `y .. ey` by `z .. ez`.
fn push_shape_brushes(
    brushes: &mut Vec<Brush>,
    shape: BlockShape,
    x: i32,
    y: i32,
    z: i32,
    ex: i32,
    ey: i32,
    ez: i32,
    texture: String,
)
    requires
        0 <= x < ex,
        0 <= y < ey,
        0 <= z < ez,
        ex * 32 <= i32::MAX,
        ey * 32 <= i32::MAX,
        ez * 32 <= i32::MAX,
    ensures
        brush_views(final(brushes)@) == brush_views(old(brushes)@) + shape_brushes(
            shape,
            x as int,
            y as int,
            z as int,
            ex as int,
            ey as int,
            ez as int,
            texture@,
        ),
{
    let ghost old_views = brush_views(brushes@);
    let (qx1, qy1, qz1) = to_quake(x, z, y);
    let (qx2, qy2, qz2) = to_quake(ex, ez, ey);
    match shape {
        BlockShape::Full => {
            brushes.push(Brush { min: (qx1, qy1, qz1), max: (qx2, qy2, qz2), texture });
        },
        BlockShape::SlabBottom => {
            brushes.push(Brush { min: (qx1, qy1, qz1), max: (qx2, qy2, qz1 + 16), texture });
        },
        BlockShape::SlabTop => {
            brushes.push(Brush { min: (qx1, qy1, qz1 + 16), max: (qx2, qy2, qz2), texture });
        },
        BlockShape::ThinPanelNS => {
            brushes.push(Brush { min: (qx1 + 14, qy1, qz1), max: (qx1 + 18, qy2, qz2), texture });
        },
        BlockShape::ThinPanelEW => {
            brushes.push(Brush { min: (qx1, qy1 + 14, qz1), max: (qx2, qy1 + 18, qz2), texture });
        },
        BlockShape::ThinCross => {
            brushes.push(
                Brush { min: (qx1 + 14, qy1, qz1), max: (qx1 + 18, qy2, qz2), texture: texture.clone() },
            );
            brushes.push(Brush { min: (qx1, qy1 + 14, qz1), max: (qx2, qy1 + 18, qz2), texture });
        },
    }
    assert(brush_views(brushes@) =~= old_views + shape_brushes(
        shape,
        x as int,
        y as int,
        z as int,
        ex as int,
        ey as int,
        ez as int,
        texture@,
    ));
}

/// Meshes the cell `(x, y, z)`, one step of the scan.
fn mesh_cell(
    map: &VoxelMap,
    level: GreedyLevel,
    visited: &mut Vec<bool>,
    brushes: &mut Vec<Brush>,
    Ghost(st): Ghost<MeshState>,
    x: i32,
    y: i32,
    z: i32,
)
    requires
        grid_ready(map@),
        visited_agrees(map@, old(visited)@, st.visited),
        brush_views(old(brushes)@) == st.brushes,
        in_grid(map.width as int, map.height as int, map.length as int, x as int, y as int, z as int),
    ensures
        visited_agrees(map@, final(visited)@, mesh_step(map@, level, st, x as int, y as int, z as int).visited),
        brush_views(final(brushes)@) == mesh_step(map@, level, st, x as int, y as int, z as int).brushes,
{
    let i = cell_idx(map, x, y, z);
    proof {
        lemma_cell_view(map, x as int, y as int, z as int);
    }
    if visited[i] {
        return;
    }
    let block = match &map.blocks[i] {
        Some(b) => b,
        None => {
            return;
        },
    };
    let texture = block.name.clone();
    let shape = get_shape(block);
    let (ax, az, ay) = match level {
        GreedyLevel::Off => (false, false, false),
        GreedyLevel::FullOnly => {
            if shape == BlockShape::Full {
                (true, true, true)
            } else {
                (false, false, false)
            }
        },
        GreedyLevel::All => match shape {
            BlockShape::Full => (true, true, true),
            BlockShape::SlabBottom => (true, true, false),
            BlockShape::SlabTop => (true, true, false),
            BlockShape::ThinPanelNS => (false, true, true),
            BlockShape::ThinPanelEW => (true, false, true),
            BlockShape::ThinCross => (false, false, true),
        },
    };
    let ghost vis = st.visited;
    let ex = if ax {
        grow_x(map, visited, Ghost(vis), &texture, shape, x, y, z)
    } else {
        x + 1
    };
    let ez = if az {
        grow_z(map, visited, Ghost(vis), &texture, shape, x, ex, y, z)
    } else {
        z + 1
    };
    let ey = if ay {
        grow_y(map, visited, Ghost(vis), &texture, shape, x, ex, z, ez, y)
    } else {
        y + 1
    };
    proof {
        let bl = block@;
        lemma_grown_box(map@, level, vis, bl, x as int, y as int, z as int);
        assert(cell_free(map@, vis, bl.name, shape_of(bl), ex - 1, ey - 1, ez - 1));
        assert(cube_in_range(map@, ex - 1, ey - 1, ez - 1));
    }
    mark_box(map, visited, Ghost(vis), x, ex, y, ey, z, ez);
    push_shape_brushes(brushes, shape, x, y, z, ex, ey, ez, texture);
}

/// Meshes a voxel grid into brushes. Cells are met layer by layer from the
/// bottom, row by row, from low x to high x; each cell not yet covered that
/// holds a block grows a box of blocks with the same name and shape along
/// the axes that `level` allows (x first, then whole rows along z, then
/// whole layers along y), covers it, and emits the box's brushes.
pub fn optimize_mesh(map: &VoxelMap, level: GreedyLevel) -> (r: Vec<Brush>)
    requires
        meshable(map@),
    ensures
        brush_views(r@) == mesh(map@, level),
{
    let mut brushes: Vec<Brush> = Vec::new();
    let w = map.width;
    let h = map.height;
    let l = map.length;
    if w <= 0 || h <= 0 || l <= 0 {
        assert(brush_views(brushes@) =~= Seq::<BrushView>::empty());
        return brushes;
    }
    let mut visited: Vec<bool> = Vec::new();
    let n = map.blocks.len();
    while visited.len() < n
        invariant
            visited@.len() <= n,
            n == map.blocks@.len(),
            forall|i: int| 0 <= i < visited@.len() ==> !visited@[i],
        decreases n - visited@.len(),
    {
        visited.push(false);
    }
    let ghost m = map@;
    let ghost mut st = MeshState { visited: Set::empty(), brushes: Seq::empty() };
    proof {
        assert(brush_views(brushes@) =~= Seq::<BrushView>::empty());
        assert forall|a: int, b: int, c: int| in_grid(m.width, m.height, m.length, a, b, c) implies visited@[cell_index(
            m.width,
            m.length,
            a,
            b,
            c,
        )] == st.visited.contains((a, b, c)) by {
            lemma_cell_index_bounds(m.width, m.height, m.length, a, b, c);
        }
    }
    let mut y: i32 = 0;
    while y < h
        invariant
            m == map@,
            grid_ready(m),
            w == map.width,
            h == map.height,
            l == map.length,
            0 <= y <= h,
            st == mesh_scan(m, level, y as int, 0, 0),
            visited_agrees(m, visited@, st.visited),
            brush_views(brushes@) == st.brushes,
        decreases h - y,
    {
        let mut z: i32 = 0;
        while z < l
            invariant
                m == map@,
                grid_ready(m),
                w == map.width,
                h == map.height,
                l == map.length,
                0 <= y < h,
                0 <= z <= l,
                st == mesh_scan(m, level, y as int, z as int, 0),
                visited_agrees(m, visited@, st.visited),
                brush_views(brushes@) == st.brushes,
            decreases l - z,
        {
            let mut x: i32 = 0;
            while x < w
                invariant
                    m == map@,
                    grid_ready(m),
                    w == map.width,
                    h == map.height,
                    l == map.length,
                    0 <= y < h,
                    0 <= z < l,
                    0 <= x <= w,
                    st == mesh_scan(m, level, y as int, z as int, x as int),
                    visited_agrees(m, visited@, st.visited),
                    brush_views(brushes@) == st.brushes,
                decreases w - x,
            {
                mesh_cell(map, level, &mut visited, &mut brushes, Ghost(st), x, y, z);
                proof {
                    st = mesh_step(m, level, st, x as int, y as int, z as int);
                }
                x = x + 1;
            }
            z = z + 1;
        }
        y = y + 1;
    }
    brushes
}

impl VoxelMap {
    /// Whether the map can be meshed: see `meshable`.
    pub fn is_meshable(&self) -> (r: bool)
        ensures
            r == meshable(self@),
    {
        let ghost m = self@;
        let w = self.width as i64;
        let h = self.height as i64;
        let l = self.length as i64;
        if w <= 0 || h <= 0 || l <= 0 {
            return true;
        }
        assert(0 < w * l <= 0x8000_0000 * 0x8000_0000) by (nonlinear_arith)
            requires
                0 < w <= 0x8000_0000,
                0 < l <= 0x8000_0000,
        ;
        let wl = w * l;
        if wl > i32::MAX as i64 {
            return false;
        }
        assert(0 < wl * h <= i32::MAX as i64 * 0x8000_0000) by (nonlinear_arith)
            requires
                0 < wl <= i32::MAX,
                0 < h <= 0x8000_0000,
        ;
        let n = wl * h;
        assert(n == w * h * l) by (nonlinear_arith)
            requires
                n == wl * h,
                wl == w * l,
        ;
        if n - 1 > i32::MAX as i64 || n as usize > self.blocks.len() {
            return false;
        }
        let mut y: i64 = 0;
        while y < h
            invariant
                m == self@,
                0 < w && 0 < h && 0 < l,
                w == m.width && h == m.height && l == m.length,
                wl == w * l,
                n == w * h * l,
                n <= self.blocks@.len(),
                n - 1 <= i32::MAX,
                0 <= y <= h,
                forall|a: int, b: int, c: int|
                    in_grid(m.width, m.height, m.length, a, b, c) && b < y ==> #[trigger] cube_in_range(
                        m,
                        a,
                        b,
                        c,
                    ),
            decreases h - y,
        {
            let mut z: i64 = 0;
            while z < l
                invariant
                    m == self@,
                    0 < w && 0 < h && 0 < l,
                    w == m.width && h == m.height && l == m.length,
                    wl == w * l,
                    n == w * h * l,
                    n <= self.blocks@.len(),
                n - 1 <= i32::MAX,
                    0 <= y < h,
                    0 <= z <= l,
                    forall|a: int, b: int, c: int|
                        in_grid(m.width, m.height, m.length, a, b, c) && (b < y || (b == y && c < z))
                            ==> #[trigger] cube_in_range(m, a, b, c),
                decreases l - z,
            {
                let mut x: i64 = 0;
                while x < w
                    invariant
                        m == self@,
                        0 < w && 0 < h && 0 < l,
                        w == m.width && h == m.height && l == m.length,
                        wl == w * l,
                        n == w * h * l,
                        n <= self.blocks@.len(),
                n - 1 <= i32::MAX,
                        0 <= y < h,
                        0 <= z < l,
                        0 <= x <= w,
                        forall|a: int, b: int, c: int|
                            in_grid(m.width, m.height, m.length, a, b, c) && (b < y || (b == y && (c
                                < z || (c == z && a < x)))) ==> #[trigger] cube_in_range(m, a, b, c),
                    decreases w - x,
                {
                    proof {
                        lemma_cell_index_bounds(w as int, h as int, l as int, x as int, y as int, z as int);
                    }
                    assert(y * wl == y * (w * l));
                    let v: i64 = y * wl + z * w + x;
                    assert(v == cell_index(w as int, l as int, x as int, y as int, z as int));
                    assert(0 <= v < n);
                    assert(v <= usize::MAX);
                    let i = v as usize;
                    assert(i as int == v);
                    assert(m.blocks[i as int] == cell_view(self.blocks@[i as int]));
                    if self.blocks[i].is_some() && (x >= 0x3ff_ffff || y >= 0x3ff_ffff || z
                        >= 0x3ff_ffff) {
                        assert(!cube_in_range(m, x as int, y as int, z as int));
                        return false;
                    }
                    assert(cube_in_range(m, x as int, y as int, z as int));
                    x = x + 1;
                }
                z = z + 1;
            }
            y = y + 1;
        }
        true
    }
}

} // verus!
