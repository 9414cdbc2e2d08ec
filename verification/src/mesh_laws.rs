//! What meshing guarantees of its brushes: every brush is a proper box that
//! lies only in blocks of its texture, every block is overlapped by a brush
//! of its name, full blocks lie in exactly one full brush, brushes come in
//! scan order of the cells they grew from, growth stops only at blocking
//! cells, isolated slabs and panels give their own brushes, and merging
//! never adds brushes.
use vstd::prelude::*;
use crate::block_shapes::{BlockShape, shape_of};
use crate::optimizer::{
    BrushView,
    cell_fits,
    GreedyLevel,
    MeshState,
    box_cells,
    cell_at,
    cell_free,
    extend_x,
    extend_y,
    extend_z,
    grown_box,
    layer_free,
    lemma_grown_box,
    merge_axes,
    mesh,
    mesh_scan,
    mesh_step,
    row_free,
    shape_brushes,
};
use crate::voxel::{BlockView, VoxelMapView, in_grid};

verus! {

/// The brush has positive size along every axis.
pub open spec fn has_volume(b: BrushView) -> bool {
    b.min.0 < b.max.0 && b.min.1 < b.max.1 && b.min.2 < b.max.2
}

/// The brush overlaps the cube of block cell `(x, y, z)` (Quake units; the
/// block's x, z, y are Quake x, y, z).
pub open spec fn overlaps_cell(b: BrushView, x: int, y: int, z: int) -> bool {
    &&& b.min.0 < (x + 1) * 32 && x * 32 < b.max.0
    &&& b.min.1 < (z + 1) * 32 && z * 32 < b.max.1
    &&& b.min.2 < (y + 1) * 32 && y * 32 < b.max.2
}

/// Some brush drawn with `tex` overlaps cell `(x, y, z)`.
pub open spec fn covered_by(bs: Seq<BrushView>, tex: Seq<char>, x: int, y: int, z: int) -> bool {
    exists|i: int| 0 <= i < bs.len() && (#[trigger] bs[i]).texture == tex && overlaps_cell(bs[i], x, y, z)
}

/// The grid cell `(x, y, z)` holds a block named `tex` and `b` overlaps it.
pub open spec fn overlaps_block_named(m: VoxelMapView, b: BrushView, x: int, y: int, z: int) -> bool {
    &&& in_grid(m.width, m.height, m.length, x, y, z)
    &&& cell_at(m, x, y, z) is Some
    &&& cell_at(m, x, y, z).unwrap().name == b.texture
    &&& overlaps_cell(b, x, y, z)
}

/// The cell `(a, b, c)` comes before `(x, y, z)` in scan order.
spec fn scanned_before(a: int, b: int, c: int, x: int, y: int, z: int) -> bool {
    b < y || (b == y && (c < z || (c == z && a < x)))
}

/// The position `(x, y, z)` is one that the scan reaches.
spec fn scan_position(m: VoxelMapView, x: int, y: int, z: int) -> bool {
    &&& 0 <= x <= m.width
    &&& 0 <= z <= m.length
    &&& 0 <= y <= m.height
    &&& x > 0 ==> z < m.length
    &&& (x > 0 || z > 0) ==> y < m.height
}

/// Every covered cell lies in the grid, holds a block, and is overlapped by
/// a brush of that block's name.
spec fn visited_covered(m: VoxelMapView, st: MeshState) -> bool {
    forall|a: int, b: int, c: int|
        #![trigger st.visited.contains((a, b, c))]
        st.visited.contains((a, b, c)) ==> in_grid(m.width, m.height, m.length, a, b, c) && cell_at(
            m,
            a,
            b,
            c,
        ) is Some && covered_by(st.brushes, cell_at(m, a, b, c).unwrap().name, a, b, c)
}

/// Every block met before `(x, y, z)` is covered.
spec fn prefix_visited(m: VoxelMapView, st: MeshState, x: int, y: int, z: int) -> bool {
    forall|a: int, b: int, c: int|
        #![trigger cell_at(m, a, b, c)]
        in_grid(m.width, m.height, m.length, a, b, c) && scanned_before(a, b, c, x, y, z) && cell_at(
            m,
            a,
            b,
            c,
        ) is Some ==> st.visited.contains((a, b, c))
}

/// Every brush so far has volume and overlaps a block of its texture.
pub open spec fn brushes_sound(m: VoxelMapView, bs: Seq<BrushView>) -> bool {
    forall|i: int|
        0 <= i < bs.len() ==> has_volume(#[trigger] bs[i]) && exists|a: int, b: int, c: int|
            overlaps_block_named(m, bs[i], a, b, c)
}

/// Every cell that a brush overlaps is a grid cell holding a block named
/// like the brush's texture.
pub open spec fn brushes_within_blocks(m: VoxelMapView, bs: Seq<BrushView>) -> bool {
    forall|i: int, a: int, b: int, c: int|
        0 <= i < bs.len() && #[trigger] overlaps_cell(bs[i], a, b, c) ==> overlaps_block_named(
            m,
            bs[i],
            a,
            b,
            c,
        )
}

/// What holds of the meshing state before position `(x, y, z)`.
spec fn scan_inv(m: VoxelMapView, st: MeshState, x: int, y: int, z: int) -> bool {
    &&& visited_covered(m, st)
    &&& prefix_visited(m, st, x, y, z)
    &&& brushes_sound(m, st.brushes)
    &&& brushes_within_blocks(m, st.brushes)
}

/// Every brush of a shape's box has volume and overlaps every cell of the
/// box; the first one is such a witness for each cell.
proof fn lemma_shape_brushes_overlap(
    level: GreedyLevel,
    shape: BlockShape,
    x: int,
    y: int,
    z: int,
    ex: int,
    ey: int,
    ez: int,
    tex: Seq<char>,
)
    requires
        x < ex && y < ey && z < ez,
        !merge_axes(level, shape).0 ==> ex == x + 1,
        !merge_axes(level, shape).1 ==> ez == z + 1,
        !merge_axes(level, shape).2 ==> ey == y + 1,
    ensures
        shape_brushes(shape, x, y, z, ex, ey, ez, tex).len() > 0,
        forall|i: int|
            0 <= i < shape_brushes(shape, x, y, z, ex, ey, ez, tex).len() ==> has_volume(
                #[trigger] shape_brushes(shape, x, y, z, ex, ey, ez, tex)[i],
            ) && shape_brushes(shape, x, y, z, ex, ey, ez, tex)[i].texture == tex && overlaps_cell(
                shape_brushes(shape, x, y, z, ex, ey, ez, tex)[i],
                x,
                y,
                z,
            ),
        forall|a: int, b: int, c: int|
            x <= a < ex && y <= b < ey && z <= c < ez ==> #[trigger] overlaps_cell(
                shape_brushes(shape, x, y, z, ex, ey, ez, tex)[0],
                a,
                b,
                c,
            ),
        forall|i: int, a: int, b: int, c: int|
            0 <= i < shape_brushes(shape, x, y, z, ex, ey, ez, tex).len() && #[trigger] overlaps_cell(
                shape_brushes(shape, x, y, z, ex, ey, ez, tex)[i],
                a,
                b,
                c,
            ) ==> x <= a < ex && y <= b < ey && z <= c < ez,
{
}

proof fn lemma_step_inv(m: VoxelMapView, level: GreedyLevel, st: MeshState, x: int, y: int, z: int)
    requires
        scan_inv(m, st, x, y, z),
        in_grid(m.width, m.height, m.length, x, y, z),
    ensures
        scan_inv(m, mesh_step(m, level, st, x, y, z), x + 1, y, z),
{
    let nx = mesh_step(m, level, st, x, y, z);
    if st.visited.contains((x, y, z)) || cell_at(m, x, y, z) is None {
        assert(nx == st);
        assert(visited_covered(m, nx));
        assert(brushes_sound(m, nx.brushes));
        assert(brushes_within_blocks(m, nx.brushes));
        assert forall|a: int, b: int, c: int|
            in_grid(m.width, m.height, m.length, a, b, c) && scanned_before(a, b, c, x + 1, y, z) && (
            #[trigger] cell_at(m, a, b, c)) is Some implies nx.visited.contains((a, b, c)) by {
            if !(a == x && b == y && c == z) {
                assert(scanned_before(a, b, c, x, y, z));
            }
        }
        return;
    }
    match cell_at(m, x, y, z) {
        None => {},
        Some(bl) => {
            let e = grown_box(m, level, st.visited, bl, x, y, z);
            let shape = shape_of(bl);
            let fresh = shape_brushes(shape, x, y, z, e.0, e.1, e.2, bl.name);
            let n = st.brushes.len() as int;
            lemma_grown_box(m, level, st.visited, bl, x, y, z);
            lemma_shape_brushes_overlap(level, shape, x, y, z, e.0, e.1, e.2, bl.name);
            assert(nx.brushes == st.brushes + fresh);
            assert(nx.visited == st.visited.union(box_cells(x, e.0, y, e.1, z, e.2)));
            assert forall|a: int, b: int, c: int| #[trigger] nx.visited.contains((a, b, c)) implies in_grid(
                m.width,
                m.height,
                m.length,
                a,
                b,
                c,
            ) && cell_at(m, a, b, c) is Some && covered_by(nx.brushes, cell_at(m, a, b, c).unwrap().name, a, b, c) by {
                if st.visited.contains((a, b, c)) {
                    let tex = cell_at(m, a, b, c).unwrap().name;
                    let i = choose|i: int|
                        0 <= i < st.brushes.len() && (#[trigger] st.brushes[i]).texture == tex && overlaps_cell(
                            st.brushes[i],
                            a,
                            b,
                            c,
                        );
                    assert(nx.brushes[i] == st.brushes[i]);
                } else {
                    assert(box_cells(x, e.0, y, e.1, z, e.2).contains((a, b, c)));
                    assert(cell_free(m, st.visited, bl.name, shape, a, b, c));
                    assert(nx.brushes[n] == fresh[0]);
                    assert(overlaps_cell(fresh[0], a, b, c));
                }
            }
            assert forall|a: int, b: int, c: int|
                in_grid(m.width, m.height, m.length, a, b, c) && scanned_before(a, b, c, x + 1, y, z) && (
                #[trigger] cell_at(m, a, b, c)) is Some implies nx.visited.contains((a, b, c)) by {
                if a == x && b == y && c == z {
                    assert(box_cells(x, e.0, y, e.1, z, e.2).contains((a, b, c)));
                } else {
                    assert(scanned_before(a, b, c, x, y, z));
                    assert(st.visited.contains((a, b, c)));
                }
            }
            assert forall|i: int| 0 <= i < nx.brushes.len() implies has_volume(#[trigger] nx.brushes[i])
                && exists|a: int, b: int, c: int| overlaps_block_named(m, nx.brushes[i], a, b, c) by {
                if i < n {
                    assert(nx.brushes[i] == st.brushes[i]);
                } else {
                    assert(nx.brushes[i] == fresh[i - n]);
                    assert(overlaps_block_named(m, nx.brushes[i], x, y, z));
                }
            }
            assert forall|i: int, a: int, b: int, c: int|
                0 <= i < nx.brushes.len() && #[trigger] overlaps_cell(nx.brushes[i], a, b, c) implies overlaps_block_named(
                m,
                nx.brushes[i],
                a,
                b,
                c,
            ) by {
                if i < n {
                    assert(nx.brushes[i] == st.brushes[i]);
                } else {
                    assert(nx.brushes[i] == fresh[i - n]);
                    assert(overlaps_cell(fresh[i - n], a, b, c));
                    assert(cell_free(m, st.visited, bl.name, shape, a, b, c));
                }
            }
            assert(visited_covered(m, nx));
            assert(prefix_visited(m, nx, x + 1, y, z));
            assert(brushes_sound(m, nx.brushes));
            assert(brushes_within_blocks(m, nx.brushes));
        },
    }
}

proof fn lemma_scan_inv(m: VoxelMapView, level: GreedyLevel, x: int, y: int, z: int)
    requires
        m.width > 0 && m.height > 0 && m.length > 0,
        scan_position(m, x, y, z),
    ensures
        scan_inv(m, mesh_scan(m, level, y, z, x), x, y, z),
    decreases y, z, x,
{
    if x > 0 {
        lemma_scan_inv(m, level, x - 1, y, z);
        lemma_step_inv(m, level, mesh_scan(m, level, y, z, x - 1), x - 1, y, z);
    } else if z > 0 {
        lemma_scan_inv(m, level, m.width, y, z - 1);
        let st = mesh_scan(m, level, y, z - 1, m.width);
        assert forall|a: int, b: int, c: int|
            in_grid(m.width, m.height, m.length, a, b, c) && scanned_before(a, b, c, x, y, z) && (
            #[trigger] cell_at(m, a, b, c)) is Some implies st.visited.contains((a, b, c)) by {
            assert(scanned_before(a, b, c, m.width, y, z - 1));
        }
    } else if y > 0 {
        lemma_scan_inv(m, level, 0, y - 1, m.length);
        let st = mesh_scan(m, level, y - 1, m.length, 0);
        assert forall|a: int, b: int, c: int|
            in_grid(m.width, m.height, m.length, a, b, c) && scanned_before(a, b, c, x, y, z) && (
            #[trigger] cell_at(m, a, b, c)) is Some implies st.visited.contains((a, b, c)) by {
            assert(scanned_before(a, b, c, 0, y - 1, m.length));
        }
    }
}

/// Every brush of a mesh has positive size along each axis and overlaps a
/// block of the map whose name is the brush's texture.
pub proof fn law_mesh_brushes_are_sound(m: VoxelMapView, level: GreedyLevel)
    ensures
        brushes_sound(m, mesh(m, level)),
{
    if m.width > 0 && m.height > 0 && m.length > 0 {
        lemma_scan_inv(m, level, 0, m.height, 0);
        let st = mesh_scan(m, level, m.height, 0, 0);
        assert(mesh(m, level) == st.brushes);
        assert(brushes_sound(m, st.brushes));
    } else {
        assert(mesh(m, level).len() == 0);
    }
}

/// The point `p` (Quake units) lies strictly inside the brush.
pub open spec fn strictly_inside(b: BrushView, p: (int, int, int)) -> bool {
    b.min.0 < p.0 < b.max.0 && b.min.1 < p.1 < b.max.1 && b.min.2 < p.2 < b.max.2
}

/// The point `p` (Quake units) lies in the cube of a grid cell holding a
/// block named `tex`: the cell `(p.0 / 32, p.2 / 32, p.1 / 32)`, rounding
/// down.
pub open spec fn point_in_block_named(m: VoxelMapView, p: (int, int, int), tex: Seq<char>) -> bool {
    let x = p.0 / 32;
    let y = p.2 / 32;
    let z = p.1 / 32;
    &&& in_grid(m.width, m.height, m.length, x, y, z)
    &&& cell_at(m, x, y, z) is Some
    &&& cell_at(m, x, y, z).unwrap().name == tex
}

/// Brushes only fill blocks of their own texture: every point strictly
/// inside a brush of a mesh lies in the cube of a grid cell holding a block
/// named like the brush's texture. So a map without blocks (whose block
/// list holds all its cells) meshes to no brushes.
pub proof fn law_brushes_lie_in_blocks_of_their_texture(m: VoxelMapView, level: GreedyLevel)
    ensures
        forall|i: int, p: (int, int, int)|
            0 <= i < mesh(m, level).len() && #[trigger] strictly_inside(mesh(m, level)[i], p)
                ==> point_in_block_named(m, p, mesh(m, level)[i].texture),
        m.width * m.height * m.length <= m.blocks.len() && (forall|j: int|
            0 <= j < m.blocks.len() ==> (#[trigger] m.blocks[j]) is None) ==> mesh(m, level).len() == 0,
{
    let bs = mesh(m, level);
    if m.width > 0 && m.height > 0 && m.length > 0 {
        lemma_scan_inv(m, level, 0, m.height, 0);
        assert(brushes_within_blocks(m, bs));
        assert(brushes_sound(m, bs));
    } else {
        assert(bs.len() == 0);
    }
    assert forall|i: int, p: (int, int, int)|
        0 <= i < bs.len() && #[trigger] strictly_inside(bs[i], p) implies point_in_block_named(
        m,
        p,
        bs[i].texture,
    ) by {
        let b = bs[i];
        let x = p.0 / 32;
        let y = p.2 / 32;
        let z = p.1 / 32;
        assert(x * 32 <= p.0 < (x + 1) * 32) by (nonlinear_arith)
            requires
                x == p.0 / 32,
        ;
        assert(y * 32 <= p.2 < (y + 1) * 32) by (nonlinear_arith)
            requires
                y == p.2 / 32,
        ;
        assert(z * 32 <= p.1 < (z + 1) * 32) by (nonlinear_arith)
            requires
                z == p.1 / 32,
        ;
        assert(overlaps_cell(b, x, y, z));
    }
    if m.width * m.height * m.length <= m.blocks.len() && forall|j: int|
        0 <= j < m.blocks.len() ==> (#[trigger] m.blocks[j]) is None {
        if bs.len() > 0 {
            let (a, b, c) = choose|a: int, b: int, c: int| overlaps_block_named(m, bs[0], a, b, c);
            crate::voxel::lemma_cell_index_bounds(m.width, m.height, m.length, a, b, c);
            assert(m.blocks[crate::voxel::cell_index(m.width, m.length, a, b, c)] is None);
        }
    }
}

/// No block is lost: every block of the map is overlapped by a brush whose
/// texture is the block's name.
pub proof fn law_mesh_covers_every_block(m: VoxelMapView, level: GreedyLevel)
    ensures
        forall|x: int, y: int, z: int|
            in_grid(m.width, m.height, m.length, x, y, z) && (#[trigger] cell_at(m, x, y, z)) is Some
                ==> covered_by(mesh(m, level), cell_at(m, x, y, z).unwrap().name, x, y, z),
{
    if m.width > 0 && m.height > 0 && m.length > 0 {
        lemma_scan_inv(m, level, 0, m.height, 0);
        let st = mesh_scan(m, level, m.height, 0, 0);
        assert forall|x: int, y: int, z: int|
            in_grid(m.width, m.height, m.length, x, y, z) && (#[trigger] cell_at(m, x, y, z)) is Some implies covered_by(
            mesh(m, level),
            cell_at(m, x, y, z).unwrap().name,
            x,
            y,
            z,
        ) by {
            assert(scanned_before(x, y, z, 0, m.height, 0));
            assert(st.visited.contains((x, y, z)));
        }
    }
}

proof fn lemma_extend_x_stops(
    m: VoxelMapView,
    vis: Set<(int, int, int)>,
    tex: Seq<char>,
    shape: BlockShape,
    y: int,
    z: int,
    s: int,
)
    ensures
        extend_x(m, vis, tex, shape, y, z, s) < m.width ==> !cell_free(
            m,
            vis,
            tex,
            shape,
            extend_x(m, vis, tex, shape, y, z, s),
            y,
            z,
        ),
    decreases m.width - s,
{
    if s < m.width && cell_free(m, vis, tex, shape, s, y, z) {
        lemma_extend_x_stops(m, vis, tex, shape, y, z, s + 1);
    }
}

proof fn lemma_extend_z_stops(
    m: VoxelMapView,
    vis: Set<(int, int, int)>,
    tex: Seq<char>,
    shape: BlockShape,
    x0: int,
    x1: int,
    y: int,
    s: int,
)
    ensures
        extend_z(m, vis, tex, shape, x0, x1, y, s) < m.length ==> !row_free(
            m,
            vis,
            tex,
            shape,
            x0,
            x1,
            y,
            extend_z(m, vis, tex, shape, x0, x1, y, s),
        ),
    decreases m.length - s,
{
    if s < m.length && row_free(m, vis, tex, shape, x0, x1, y, s) {
        lemma_extend_z_stops(m, vis, tex, shape, x0, x1, y, s + 1);
    }
}

proof fn lemma_extend_y_stops(
    m: VoxelMapView,
    vis: Set<(int, int, int)>,
    tex: Seq<char>,
    shape: BlockShape,
    x0: int,
    x1: int,
    z0: int,
    z1: int,
    s: int,
)
    ensures
        extend_y(m, vis, tex, shape, x0, x1, z0, z1, s) < m.height ==> !layer_free(
            m,
            vis,
            tex,
            shape,
            x0,
            x1,
            z0,
            z1,
            extend_y(m, vis, tex, shape, x0, x1, z0, z1, s),
        ),
    decreases m.height - s,
{
    if s < m.height && layer_free(m, vis, tex, shape, x0, x1, z0, z1, s) {
        lemma_extend_y_stops(m, vis, tex, shape, x0, x1, z0, z1, s + 1);
    }
}

/// Growth stops only at a blocking cell: when the box grown from a block
/// ends before the far side of the grid along an axis it may grow along,
/// the next cell along x, some cell of the next row along z, or some cell
/// of the next layer along y is not free (covered already, empty, or
/// holding a block of another name or shape).
pub proof fn law_growth_stops_only_at_blocking_cells(
    m: VoxelMapView,
    level: GreedyLevel,
    vis: Set<(int, int, int)>,
    bl: BlockView,
    x: int,
    y: int,
    z: int,
)
    requires
        in_grid(m.width, m.height, m.length, x, y, z),
        cell_at(m, x, y, z) == Some(bl),
        !vis.contains((x, y, z)),
    ensures
        ({
            let e = grown_box(m, level, vis, bl, x, y, z);
            let axes = merge_axes(level, shape_of(bl));
            let shape = shape_of(bl);
            &&& axes.0 && e.0 < m.width ==> !cell_free(m, vis, bl.name, shape, e.0, y, z)
            &&& axes.1 && e.2 < m.length ==> exists|a: int|
                x <= a < e.0 && !#[trigger] cell_free(m, vis, bl.name, shape, a, y, e.2)
            &&& axes.2 && e.1 < m.height ==> exists|a: int, c: int|
                x <= a < e.0 && z <= c < e.2 && !#[trigger] cell_free(m, vis, bl.name, shape, a, e.1, c)
        }),
{
    let shape = shape_of(bl);
    let tex = bl.name;
    let e = grown_box(m, level, vis, bl, x, y, z);
    lemma_extend_x_stops(m, vis, tex, shape, y, z, x + 1);
    lemma_extend_z_stops(m, vis, tex, shape, x, e.0, y, z + 1);
    lemma_extend_y_stops(m, vis, tex, shape, x, e.0, z, e.2, y + 1);
    let axes = merge_axes(level, shape);
    if axes.2 && e.1 < m.height {
        assert(!layer_free(m, vis, tex, shape, x, e.0, z, e.2, e.1));
        let c = choose|c: int| z <= c < e.2 && !row_free(m, vis, tex, shape, x, e.0, e.1, c);
        let a = choose|a: int| x <= a < e.0 && !cell_free(m, vis, tex, shape, a, e.1, c);
        assert(x <= a < e.0 && z <= c < e.2 && !cell_free(m, vis, tex, shape, a, e.1, c));
    }
}

/// The number of brushes a cell is drawn with when nothing is merged: none
/// for an empty cell, two for a cross, one otherwise.
pub open spec fn unmerged_brush_count(c: Option<BlockView>) -> int {
    match c {
        None => 0,
        Some(b) => if shape_of(b) == BlockShape::ThinCross {
            2
        } else {
            1
        },
    }
}

/// The total of `unmerged_brush_count` over a list of cells.
pub open spec fn cells_brush_count(cells: Seq<Option<BlockView>>) -> int
    decreases cells.len(),
{
    if cells.len() == 0 {
        0
    } else {
        cells_brush_count(cells.drop_last()) + unmerged_brush_count(cells.last())
    }
}

/// What holds, with merging off, of the state at scan index `k`: covered
/// cells come before `k`, and there is one brush per block before it (two
/// per cross).
spec fn unmerged_inv(m: VoxelMapView, st: MeshState, k: int) -> bool {
    &&& forall|a: int, b: int, c: int|
        #![trigger st.visited.contains((a, b, c))]
        st.visited.contains((a, b, c)) ==> in_grid(m.width, m.height, m.length, a, b, c)
            && crate::voxel::cell_index(m.width, m.length, a, b, c) < k
    &&& st.brushes.len() == cells_brush_count(m.blocks.take(k))
}

proof fn lemma_unmerged_step(m: VoxelMapView, st: MeshState, x: int, y: int, z: int)
    requires
        m.width * m.height * m.length <= m.blocks.len(),
        in_grid(m.width, m.height, m.length, x, y, z),
        unmerged_inv(m, st, crate::voxel::cell_index(m.width, m.length, x, y, z)),
    ensures
        unmerged_inv(
            m,
            mesh_step(m, GreedyLevel::Off, st, x, y, z),
            crate::voxel::cell_index(m.width, m.length, x, y, z) + 1,
        ),
{
    let k = crate::voxel::cell_index(m.width, m.length, x, y, z);
    crate::voxel::lemma_cell_index_bounds(m.width, m.height, m.length, x, y, z);
    let nx = mesh_step(m, GreedyLevel::Off, st, x, y, z);
    assert(!st.visited.contains((x, y, z)));
    assert(m.blocks.take(k + 1).drop_last() =~= m.blocks.take(k));
    assert(m.blocks.take(k + 1).last() == cell_at(m, x, y, z));
    match cell_at(m, x, y, z) {
        None => {},
        Some(bl) => {
            let e = grown_box(m, GreedyLevel::Off, st.visited, bl, x, y, z);
            assert(e == (x + 1, y + 1, z + 1));
            assert forall|a: int, b: int, c: int| #[trigger] nx.visited.contains((a, b, c)) implies in_grid(
                m.width,
                m.height,
                m.length,
                a,
                b,
                c,
            ) && crate::voxel::cell_index(m.width, m.length, a, b, c) < k + 1 by {
                if !st.visited.contains((a, b, c)) {
                    assert(box_cells(x, x + 1, y, y + 1, z, z + 1).contains((a, b, c)));
                }
            }
        },
    }
}

proof fn lemma_unmerged_scan(m: VoxelMapView, x: int, y: int, z: int)
    requires
        m.width > 0 && m.height > 0 && m.length > 0,
        m.width * m.height * m.length <= m.blocks.len(),
        scan_position(m, x, y, z),
    ensures
        unmerged_inv(m, mesh_scan(m, GreedyLevel::Off, y, z, x), crate::voxel::cell_index(m.width, m.length, x, y, z)),
    decreases y, z, x,
{
    let w = m.width;
    let l = m.length;
    if x > 0 {
        lemma_unmerged_scan(m, x - 1, y, z);
        lemma_unmerged_step(m, mesh_scan(m, GreedyLevel::Off, y, z, x - 1), x - 1, y, z);
    } else if z > 0 {
        lemma_unmerged_scan(m, w, y, z - 1);
        assert((z - 1) * w + w == z * w) by (nonlinear_arith);
        assert(crate::voxel::cell_index(w, l, w, y, z - 1) == crate::voxel::cell_index(w, l, x, y, z));
        assert(mesh_scan(m, GreedyLevel::Off, y, z, x) == mesh_scan(m, GreedyLevel::Off, y, z - 1, w));
    } else if y > 0 {
        lemma_unmerged_scan(m, 0, y - 1, l);
        assert((y - 1) * (w * l) + l * w == y * (w * l)) by (nonlinear_arith);
        assert(z * w == 0) by (nonlinear_arith)
            requires
                z == 0,
        ;
        assert(crate::voxel::cell_index(w, l, 0, y - 1, l) == crate::voxel::cell_index(w, l, x, y, z));
        assert(mesh_scan(m, GreedyLevel::Off, y, z, x) == mesh_scan(m, GreedyLevel::Off, y - 1, l, 0));
    } else {
        assert(m.blocks.take(0) =~= Seq::<Option<BlockView>>::empty());
        assert(y * (w * l) == 0 && z * w == 0) by (nonlinear_arith)
            requires
                y == 0,
                z == 0,
        ;
        assert(crate::voxel::cell_index(w, l, x, y, z) == 0);
    }
}

/// With merging off there is one brush per block of the grid (two for a
/// block drawn as a cross): `--greedy none` meshes block by block.
pub proof fn law_unmerged_mesh_has_a_brush_per_block(m: VoxelMapView)
    requires
        m.width > 0 && m.height > 0 && m.length > 0 ==> m.width * m.height * m.length <= m.blocks.len(),
    ensures
        mesh(m, GreedyLevel::Off).len() == if m.width > 0 && m.height > 0 && m.length > 0 {
            cells_brush_count(m.blocks.take(m.width * m.height * m.length))
        } else {
            0
        },
{
    if m.width > 0 && m.height > 0 && m.length > 0 {
        lemma_unmerged_scan(m, 0, m.height, 0);
        assert(m.height * (m.width * m.length) == m.width * m.height * m.length) by (nonlinear_arith);
    }
}

/// The scan index of the cell a brush was grown from: the cell holding the
/// brush's minimum corner, `(min.0 / 32, min.2 / 32, min.1 / 32)`, rounding
/// down.
pub open spec fn seed_key(m: VoxelMapView, b: BrushView) -> int {
    crate::voxel::cell_index(m.width, m.length, b.min.0 / 32, b.min.2 / 32, b.min.1 / 32)
}

/// The cell holding the brush's minimum corner holds a cross.
pub open spec fn seeded_by_cross(m: VoxelMapView, b: BrushView) -> bool {
    let c = cell_at(m, b.min.0 / 32, b.min.2 / 32, b.min.1 / 32);
    c is Some && shape_of(c.unwrap()) == BlockShape::ThinCross
}

/// Brushes come in scan order of their seed cells; two brushes share a seed
/// cell only when they are next to each other and are the north-south and
/// then the east-west panel of a cross.
pub open spec fn in_scan_order(m: VoxelMapView, bs: Seq<BrushView>) -> bool {
    &&& forall|i: int, j: int|
        0 <= i < j < bs.len() ==> seed_key(m, #[trigger] bs[i]) <= seed_key(m, #[trigger] bs[j])
    &&& forall|i: int|
        0 <= i < bs.len() - 1 && seed_key(m, #[trigger] bs[i]) == seed_key(m, bs[i + 1]) ==> {
            &&& bs[i].min.0 % 32 == 14
            &&& bs[i + 1].min.1 % 32 == 14
            &&& bs[i].texture == bs[i + 1].texture
            &&& seeded_by_cross(m, bs[i])
            &&& seeded_by_cross(m, bs[i + 1])
        }
}

/// Brushes that overlap a common cell were grown from the same seed cell.
pub open spec fn overlaps_share_seed(m: VoxelMapView, bs: Seq<BrushView>) -> bool {
    forall|i: int, j: int, a: int, b: int, c: int|
        0 <= i < bs.len() && 0 <= j < bs.len() && #[trigger] overlaps_cell(bs[i], a, b, c)
            && #[trigger] overlaps_cell(bs[j], a, b, c) ==> seed_key(m, bs[i]) == seed_key(m, bs[j])
}

/// What holds of the brushes before scan index `k`: they are in scan order,
/// their seeds come before `k`, the cells they overlap are covered, and
/// brushes overlapping a common cell share their seed.
spec fn order_inv(m: VoxelMapView, st: MeshState, k: int) -> bool {
    &&& in_scan_order(m, st.brushes)
    &&& forall|i: int| 0 <= i < st.brushes.len() ==> seed_key(m, #[trigger] st.brushes[i]) < k
    &&& forall|i: int, a: int, b: int, c: int|
        0 <= i < st.brushes.len() && #[trigger] overlaps_cell(st.brushes[i], a, b, c)
            ==> st.visited.contains((a, b, c))
    &&& overlaps_share_seed(m, st.brushes)
}

proof fn lemma_div_32(a: int, r: int)
    requires
        0 <= r < 32,
    ensures
        (a * 32 + r) / 32 == a,
{
    assert((a * 32 + r) / 32 == a) by (nonlinear_arith)
        requires
            0 <= r < 32,
    ;
}

proof fn lemma_order_step(m: VoxelMapView, level: GreedyLevel, st: MeshState, x: int, y: int, z: int)
    requires
        in_grid(m.width, m.height, m.length, x, y, z),
        order_inv(m, st, crate::voxel::cell_index(m.width, m.length, x, y, z)),
    ensures
        order_inv(
            m,
            mesh_step(m, level, st, x, y, z),
            crate::voxel::cell_index(m.width, m.length, x, y, z) + 1,
        ),
{
    let k = crate::voxel::cell_index(m.width, m.length, x, y, z);
    let nx = mesh_step(m, level, st, x, y, z);
    if st.visited.contains((x, y, z)) || cell_at(m, x, y, z) is None {
        return;
    }
    let bl = cell_at(m, x, y, z).unwrap();
    let e = grown_box(m, level, st.visited, bl, x, y, z);
    let shape = shape_of(bl);
    let fresh = shape_brushes(shape, x, y, z, e.0, e.1, e.2, bl.name);
    let n = st.brushes.len() as int;
    assert(nx.brushes == st.brushes + fresh);
    assert(nx.visited == st.visited.union(box_cells(x, e.0, y, e.1, z, e.2)));
    lemma_grown_box(m, level, st.visited, bl, x, y, z);
    lemma_shape_brushes_overlap(level, shape, x, y, z, e.0, e.1, e.2, bl.name);
    lemma_div_32(x, 0);
    lemma_div_32(y, 0);
    lemma_div_32(z, 0);
    lemma_div_32(x, 14);
    lemma_div_32(y, 16);
    lemma_div_32(z, 14);
    assert forall|j: int| 0 <= j < fresh.len() implies seed_key(m, #[trigger] fresh[j]) == k by {
        assert(fresh[j].min.0 / 32 == x);
        assert(fresh[j].min.1 / 32 == z);
        assert(fresh[j].min.2 / 32 == y);
    }
    assert forall|i: int| 0 <= i < nx.brushes.len() implies seed_key(m, #[trigger] nx.brushes[i]) < k + 1 by {
        if i >= n {
            assert(nx.brushes[i] == fresh[i - n]);
        }
    }
    assert forall|i: int, j: int| 0 <= i < j < nx.brushes.len() implies seed_key(
        m,
        #[trigger] nx.brushes[i],
    ) <= seed_key(m, #[trigger] nx.brushes[j]) by {
        if j < n {
            assert(nx.brushes[i] == st.brushes[i] && nx.brushes[j] == st.brushes[j]);
        } else if i < n {
            assert(nx.brushes[i] == st.brushes[i] && nx.brushes[j] == fresh[j - n]);
        } else {
            assert(nx.brushes[i] == fresh[i - n] && nx.brushes[j] == fresh[j - n]);
        }
    }
    assert forall|i: int|
        0 <= i < nx.brushes.len() - 1 && seed_key(m, #[trigger] nx.brushes[i]) == seed_key(
            m,
            nx.brushes[i + 1],
        ) implies nx.brushes[i].min.0 % 32 == 14 && nx.brushes[i + 1].min.1 % 32 == 14
        && nx.brushes[i].texture == nx.brushes[i + 1].texture && seeded_by_cross(m, nx.brushes[i])
        && seeded_by_cross(m, nx.brushes[i + 1]) by {
        if i + 1 < n {
            assert(nx.brushes[i] == st.brushes[i] && nx.brushes[i + 1] == st.brushes[i + 1]);
        } else if i < n {
            assert(nx.brushes[i] == st.brushes[i] && nx.brushes[i + 1] == fresh[0]);
        } else {
            assert(nx.brushes[i] == fresh[0] && nx.brushes[i + 1] == fresh[1]);
            assert(shape == BlockShape::ThinCross);
            assert((x * 32 + 14) % 32 == 14) by (nonlinear_arith);
            assert((z * 32 + 14) % 32 == 14) by (nonlinear_arith);
            assert(fresh[0].min.0 / 32 == x && fresh[0].min.1 / 32 == z && fresh[0].min.2 / 32 == y);
            assert(fresh[1].min.0 / 32 == x && fresh[1].min.1 / 32 == z && fresh[1].min.2 / 32 == y);
        }
    }
    assert forall|i: int, a: int, b: int, c: int|
        0 <= i < nx.brushes.len() && #[trigger] overlaps_cell(nx.brushes[i], a, b, c) implies nx.visited.contains(
        (a, b, c),
    ) by {
        if i < n {
            assert(nx.brushes[i] == st.brushes[i]);
        } else {
            assert(nx.brushes[i] == fresh[i - n]);
            assert(overlaps_cell(fresh[i - n], a, b, c));
            assert(box_cells(x, e.0, y, e.1, z, e.2).contains((a, b, c)));
        }
    }
    assert forall|i: int, j: int, a: int, b: int, c: int|
        0 <= i < nx.brushes.len() && 0 <= j < nx.brushes.len() && #[trigger] overlaps_cell(
            nx.brushes[i],
            a,
            b,
            c,
        ) && #[trigger] overlaps_cell(nx.brushes[j], a, b, c) implies seed_key(m, nx.brushes[i])
        == seed_key(m, nx.brushes[j]) by {
        if i < n && j < n {
            assert(nx.brushes[i] == st.brushes[i] && nx.brushes[j] == st.brushes[j]);
        } else if i < n {
            assert(nx.brushes[i] == st.brushes[i] && nx.brushes[j] == fresh[j - n]);
            assert(overlaps_cell(fresh[j - n], a, b, c));
            assert(st.visited.contains((a, b, c)));
            assert(cell_free(m, st.visited, bl.name, shape, a, b, c));
        } else if j < n {
            assert(nx.brushes[j] == st.brushes[j] && nx.brushes[i] == fresh[i - n]);
            assert(overlaps_cell(fresh[i - n], a, b, c));
            assert(st.visited.contains((a, b, c)));
            assert(cell_free(m, st.visited, bl.name, shape, a, b, c));
        } else {
            assert(nx.brushes[i] == fresh[i - n] && nx.brushes[j] == fresh[j - n]);
        }
    }
}

proof fn lemma_order_scan(m: VoxelMapView, level: GreedyLevel, x: int, y: int, z: int)
    requires
        m.width > 0 && m.height > 0 && m.length > 0,
        scan_position(m, x, y, z),
    ensures
        order_inv(m, mesh_scan(m, level, y, z, x), crate::voxel::cell_index(m.width, m.length, x, y, z)),
    decreases y, z, x,
{
    let w = m.width;
    let l = m.length;
    if x > 0 {
        lemma_order_scan(m, level, x - 1, y, z);
        lemma_order_step(m, level, mesh_scan(m, level, y, z, x - 1), x - 1, y, z);
    } else if z > 0 {
        lemma_order_scan(m, level, w, y, z - 1);
        assert((z - 1) * w + w == z * w) by (nonlinear_arith);
        assert(crate::voxel::cell_index(w, l, w, y, z - 1) == crate::voxel::cell_index(w, l, x, y, z));
    } else if y > 0 {
        lemma_order_scan(m, level, 0, y - 1, l);
        assert((y - 1) * (w * l) + l * w == y * (w * l)) by (nonlinear_arith);
        assert(z * w == 0) by (nonlinear_arith)
            requires
                z == 0,
        ;
        assert(crate::voxel::cell_index(w, l, 0, y - 1, l) == crate::voxel::cell_index(w, l, x, y, z));
    }
}

/// Brushes come out in scan order of the cells they were grown from: layer
/// by layer (y), row by row (z), from low x to high x. Only the two panels
/// of a cross share a seed cell, the north-south panel first. Brushes that
/// overlap a common cell were grown from the same seed cell.
pub proof fn law_brushes_come_in_scan_order(m: VoxelMapView, level: GreedyLevel)
    ensures
        in_scan_order(m, mesh(m, level)),
        overlaps_share_seed(m, mesh(m, level)),
{
    if m.width > 0 && m.height > 0 && m.length > 0 {
        lemma_order_scan(m, level, 0, m.height, 0);
    }
}

/// A covered cell not yet reached by the scan was covered from an earlier
/// cell of its box: one of its lower neighbours along an axis its shape
/// merges along holds a block of its name and shape.
spec fn ahead_has_predecessor(m: VoxelMapView, level: GreedyLevel, st: MeshState, k: int) -> bool {
    forall|a: int, b: int, c: int|
        #![trigger st.visited.contains((a, b, c))]
        st.visited.contains((a, b, c)) && crate::voxel::cell_index(m.width, m.length, a, b, c) >= k
            ==> in_grid(m.width, m.height, m.length, a, b, c) && cell_at(m, a, b, c) is Some && {
            let bl = cell_at(m, a, b, c).unwrap();
            let sh = shape_of(bl);
            let ax = merge_axes(level, sh);
            ||| ax.0 && a > 0 && cell_fits(cell_at(m, a - 1, b, c), bl.name, sh)
            ||| ax.1 && c > 0 && cell_fits(cell_at(m, a, b, c - 1), bl.name, sh)
            ||| ax.2 && b > 0 && cell_fits(cell_at(m, a, b - 1, c), bl.name, sh)
        }
}

proof fn lemma_ahead_step(m: VoxelMapView, level: GreedyLevel, st: MeshState, x: int, y: int, z: int)
    requires
        in_grid(m.width, m.height, m.length, x, y, z),
        ahead_has_predecessor(m, level, st, crate::voxel::cell_index(m.width, m.length, x, y, z)),
    ensures
        ahead_has_predecessor(
            m,
            level,
            mesh_step(m, level, st, x, y, z),
            crate::voxel::cell_index(m.width, m.length, x, y, z) + 1,
        ),
{
    let w = m.width;
    let l = m.length;
    let k = crate::voxel::cell_index(w, l, x, y, z);
    let nx = mesh_step(m, level, st, x, y, z);
    if st.visited.contains((x, y, z)) || cell_at(m, x, y, z) is None {
        assert forall|a: int, b: int, c: int|
            #[trigger] nx.visited.contains((a, b, c)) && crate::voxel::cell_index(w, l, a, b, c) >= k + 1
                implies in_grid(m.width, m.height, m.length, a, b, c) && cell_at(m, a, b, c) is Some && {
            let bl = cell_at(m, a, b, c).unwrap();
            let sh = shape_of(bl);
            let ax = merge_axes(level, sh);
            ||| ax.0 && a > 0 && cell_fits(cell_at(m, a - 1, b, c), bl.name, sh)
            ||| ax.1 && c > 0 && cell_fits(cell_at(m, a, b, c - 1), bl.name, sh)
            ||| ax.2 && b > 0 && cell_fits(cell_at(m, a, b - 1, c), bl.name, sh)
        } by {
            assert(st.visited.contains((a, b, c)));
        }
        return;
    }
    let bl = cell_at(m, x, y, z).unwrap();
    let e = grown_box(m, level, st.visited, bl, x, y, z);
    let shape = shape_of(bl);
    lemma_grown_box(m, level, st.visited, bl, x, y, z);
    assert(nx.visited == st.visited.union(box_cells(x, e.0, y, e.1, z, e.2)));
    assert forall|a: int, b: int, c: int|
        #[trigger] nx.visited.contains((a, b, c)) && crate::voxel::cell_index(w, l, a, b, c) >= k + 1
            implies in_grid(m.width, m.height, m.length, a, b, c) && cell_at(m, a, b, c) is Some && {
        let cb = cell_at(m, a, b, c).unwrap();
        let sh = shape_of(cb);
        let ax = merge_axes(level, sh);
        ||| ax.0 && a > 0 && cell_fits(cell_at(m, a - 1, b, c), cb.name, sh)
        ||| ax.1 && c > 0 && cell_fits(cell_at(m, a, b, c - 1), cb.name, sh)
        ||| ax.2 && b > 0 && cell_fits(cell_at(m, a, b - 1, c), cb.name, sh)
    } by {
        if st.visited.contains((a, b, c)) {
        } else {
            assert(box_cells(x, e.0, y, e.1, z, e.2).contains((a, b, c)));
            assert(cell_free(m, st.visited, bl.name, shape, a, b, c));
            if a > x {
                assert(cell_free(m, st.visited, bl.name, shape, a - 1, b, c));
            } else if c > z {
                assert(cell_free(m, st.visited, bl.name, shape, a, b, c - 1));
            } else if b > y {
                assert(cell_free(m, st.visited, bl.name, shape, a, b - 1, c));
            } else {
                assert(a == x && b == y && c == z);
            }
        }
    }
}

proof fn lemma_ahead_scan(m: VoxelMapView, level: GreedyLevel, x: int, y: int, z: int)
    requires
        m.width > 0 && m.height > 0 && m.length > 0,
        scan_position(m, x, y, z),
    ensures
        ahead_has_predecessor(m, level, mesh_scan(m, level, y, z, x), crate::voxel::cell_index(m.width, m.length, x, y, z)),
    decreases y, z, x,
{
    let w = m.width;
    let l = m.length;
    if x > 0 {
        lemma_ahead_scan(m, level, x - 1, y, z);
        lemma_ahead_step(m, level, mesh_scan(m, level, y, z, x - 1), x - 1, y, z);
    } else if z > 0 {
        lemma_ahead_scan(m, level, w, y, z - 1);
        assert((z - 1) * w + w == z * w) by (nonlinear_arith);
        assert(crate::voxel::cell_index(w, l, w, y, z - 1) == crate::voxel::cell_index(w, l, x, y, z));
    } else if y > 0 {
        lemma_ahead_scan(m, level, 0, y - 1, l);
        assert((y - 1) * (w * l) + l * w == y * (w * l)) by (nonlinear_arith);
        assert(z * w == 0) by (nonlinear_arith)
            requires
                z == 0,
        ;
        assert(crate::voxel::cell_index(w, l, 0, y - 1, l) == crate::voxel::cell_index(w, l, x, y, z));
    }
}

/// Scan position `(xq, yq, zq)` comes no later than `(x, y, z)`.
spec fn position_le(xq: int, yq: int, zq: int, x: int, y: int, z: int) -> bool {
    yq < y || (yq == y && (zq < z || (zq == z && xq <= x)))
}

/// The brushes of an earlier scan state begin the brushes of a later one.
proof fn lemma_scan_prefix(m: VoxelMapView, level: GreedyLevel, xq: int, yq: int, zq: int, x: int, y: int, z: int)
    requires
        m.width > 0 && m.height > 0 && m.length > 0,
        scan_position(m, xq, yq, zq),
        scan_position(m, x, y, z),
        position_le(xq, yq, zq, x, y, z),
    ensures
        mesh_scan(m, level, yq, zq, xq).brushes.is_prefix_of(mesh_scan(m, level, y, z, x).brushes),
    decreases y, z, x,
{
    let early = mesh_scan(m, level, yq, zq, xq).brushes;
    if xq == x && yq == y && zq == z {
        assert(early.is_prefix_of(early));
    } else if x > 0 {
        lemma_scan_prefix(m, level, xq, yq, zq, x - 1, y, z);
        let st = mesh_scan(m, level, y, z, x - 1);
        let nx = mesh_step(m, level, st, x - 1, y, z);
        assert(st.brushes.is_prefix_of(nx.brushes));
        assert(early.is_prefix_of(nx.brushes)) by {
            assert forall|i: int| 0 <= i < early.len() implies early[i] == nx.brushes[i] by {
                assert(early[i] == st.brushes[i]);
            }
            assert(early =~= nx.brushes.subrange(0, early.len() as int));
        }
    } else if z > 0 {
        lemma_scan_prefix(m, level, xq, yq, zq, m.width, y, z - 1);
    } else if y > 0 {
        lemma_scan_prefix(m, level, xq, yq, zq, 0, y - 1, m.length);
    }
}

/// Along every axis that blocks of its shape are merged along at the
/// fullest level, no neighbour of `(x, y, z)` holds a block of the name and
/// shape of `bl`: x and z for slabs, z and y for north-south panels, x and y
/// for east-west panels, y for crosses.
pub open spec fn isolated_along_merge_axes(m: VoxelMapView, bl: BlockView, x: int, y: int, z: int) -> bool {
    let sh = shape_of(bl);
    let ax = merge_axes(GreedyLevel::All, sh);
    &&& ax.0 ==> !(x > 0 && cell_fits(cell_at(m, x - 1, y, z), bl.name, sh))
    &&& ax.0 ==> !(x + 1 < m.width && cell_fits(cell_at(m, x + 1, y, z), bl.name, sh))
    &&& ax.1 ==> !(z > 0 && cell_fits(cell_at(m, x, y, z - 1), bl.name, sh))
    &&& ax.1 ==> !(z + 1 < m.length && cell_fits(cell_at(m, x, y, z + 1), bl.name, sh))
    &&& ax.2 ==> !(y > 0 && cell_fits(cell_at(m, x, y - 1, z), bl.name, sh))
    &&& ax.2 ==> !(y + 1 < m.height && cell_fits(cell_at(m, x, y + 1, z), bl.name, sh))
}

/// The brushes `f` stand in `bs` one after another from index `i`.
pub open spec fn run_at(bs: Seq<BrushView>, i: int, f: Seq<BrushView>) -> bool {
    0 <= i && i + f.len() <= bs.len() && forall|t: int| 0 <= t < f.len() ==> bs[i + t] == #[trigger] f[t]
}

/// An isolated slab or panel gives its own brushes: a block that is not a
/// full cube, with no neighbour of its name and shape along the axes its
/// shape merges along, is meshed at every merge level as the brushes of its
/// own cell alone (one for a slab or panel: the lower or upper half of the
/// cube, or the 4-unit panel across its middle; the north-south then the
/// east-west panel for a cross), next to each other in the result, and no
/// other brush overlaps that cell.
pub proof fn law_isolated_block_gives_its_own_brushes(m: VoxelMapView, level: GreedyLevel, x: int, y: int, z: int)
    requires
        in_grid(m.width, m.height, m.length, x, y, z),
        cell_at(m, x, y, z) is Some,
        shape_of(cell_at(m, x, y, z).unwrap()) != BlockShape::Full,
        isolated_along_merge_axes(m, cell_at(m, x, y, z).unwrap(), x, y, z),
    ensures
        ({
            let bl = cell_at(m, x, y, z).unwrap();
            let f = shape_brushes(shape_of(bl), x, y, z, x + 1, y + 1, z + 1, bl.name);
            let bs = mesh(m, level);
            exists|i: int|
                #[trigger] run_at(bs, i, f) && (forall|j: int|
                    0 <= j < bs.len() && #[trigger] overlaps_cell(bs[j], x, y, z) ==> i <= j < i + f.len())
        }),
{
    let bl = cell_at(m, x, y, z).unwrap();
    let shape = shape_of(bl);
    let ax = merge_axes(level, shape);
    let all = merge_axes(GreedyLevel::All, shape);
    assert(ax.0 ==> all.0);
    assert(ax.1 ==> all.1);
    assert(ax.2 ==> all.2);
    let st = mesh_scan(m, level, y, z, x);
    lemma_ahead_scan(m, level, x, y, z);
    assert(!st.visited.contains((x, y, z)));
    let e = grown_box(m, level, st.visited, bl, x, y, z);
    lemma_grown_box(m, level, st.visited, bl, x, y, z);
    if ax.0 && x + 1 < m.width {
        assert(!cell_free(m, st.visited, bl.name, shape, x + 1, y, z));
    }
    assert(e.0 == x + 1);
    if ax.1 && z + 1 < m.length {
        assert(!cell_free(m, st.visited, bl.name, shape, x, y, z + 1));
        assert(!row_free(m, st.visited, bl.name, shape, x, x + 1, y, z + 1));
    }
    assert(e.2 == z + 1);
    if ax.2 && y + 1 < m.height {
        assert(!cell_free(m, st.visited, bl.name, shape, x, y + 1, z));
        assert(!row_free(m, st.visited, bl.name, shape, x, x + 1, y + 1, z));
        assert(!layer_free(m, st.visited, bl.name, shape, x, x + 1, z, z + 1, y + 1));
    }
    assert(e.1 == y + 1);
    let f = shape_brushes(shape, x, y, z, x + 1, y + 1, z + 1, bl.name);
    let after = mesh_step(m, level, st, x, y, z);
    let n = st.brushes.len() as int;
    assert(after.brushes == st.brushes + f);
    assert(after == mesh_scan(m, level, y, z, x + 1));
    lemma_scan_prefix(m, level, x + 1, y, z, 0, m.height, 0);
    let bs = mesh(m, level);
    assert(bs == mesh_scan(m, level, m.height, 0, 0).brushes);
    assert forall|t: int| 0 <= t < f.len() implies bs[n + t] == #[trigger] f[t] by {
        assert(bs[n + t] == after.brushes[n + t]);
    }
    assert(run_at(bs, n, f));
    law_brushes_come_in_scan_order(m, level);
    lemma_div_32(x, 0);
    lemma_div_32(y, 0);
    lemma_div_32(z, 0);
    lemma_div_32(x, 14);
    lemma_div_32(y, 16);
    lemma_div_32(z, 14);
    assert((x * 32) % 32 == 0 && (z * 32) % 32 == 0) by (nonlinear_arith);
    let c = f.len() as int;
    assert(bs[n] == f[0]);
    assert(f[0].min.0 / 32 == x && f[0].min.1 / 32 == z && f[0].min.2 / 32 == y);
    assert(overlaps_cell(f[0], x, y, z));
    assert forall|j: int| 0 <= j < bs.len() && #[trigger] overlaps_cell(bs[j], x, y, z) implies n <= j < n + c by {
        assert(seed_key(m, bs[j]) == seed_key(m, bs[n]));
        if j >= n + c {
            if c == 2 {
                assert(bs[n + 1] == f[1]);
                assert(seed_key(m, bs[n]) <= seed_key(m, bs[n + 1]));
            }
            assert(seed_key(m, bs[n]) <= seed_key(m, bs[n + c - 1]));
            assert(seed_key(m, bs[n + c - 1]) <= seed_key(m, bs[n + c]));
            if n + c < j {
                assert(seed_key(m, bs[n + c]) <= seed_key(m, bs[j]));
            }
            assert(seed_key(m, bs[n + c - 1]) == seed_key(m, bs[n + c]));
            if c == 2 {
                assert(f[1].min.0 == x * 32);
            } else {
                assert(seeded_by_cross(m, bs[n]));
            }
        } else if j < n {
            assert(seed_key(m, bs[n - 1]) <= seed_key(m, bs[n]));
            if j < n - 1 {
                assert(seed_key(m, bs[j]) <= seed_key(m, bs[n - 1]));
            }
            assert(seed_key(m, bs[n - 1]) == seed_key(m, bs[n]));
            assert(seeded_by_cross(m, bs[n]));
        }
    }
}

/// The map that filtering gives: the same dimensions, each cell filtered.
pub open spec fn filtered_map(m: VoxelMapView) -> VoxelMapView {
    VoxelMapView {
        width: m.width,
        height: m.height,
        length: m.length,
        blocks: m.blocks.map_values(|c: Option<BlockView>| crate::filter::filtered_cell(c)),
    }
}

/// `t` is the texture path of a block of `m` that is not void.
pub open spec fn texture_path_of_some_block(m: VoxelMapView, t: Seq<char>) -> bool {
    exists|j: int|
        0 <= j < m.blocks.len() && !crate::filter::is_void_cell(m.blocks[j]) && t == crate::filter::texture_path(
            m.blocks[j].unwrap().name,
        )
}

/// All geometry of a filtered map is textured with a texture path
/// (`textures/` and the block name, `minecraft:` turned into `minecraft/`)
/// of a block of the unfiltered map that is not void.
pub proof fn law_filtered_mesh_uses_texture_paths(m: VoxelMapView, level: GreedyLevel)
    requires
        m.width > 0 && m.height > 0 && m.length > 0 ==> m.width * m.height * m.length <= m.blocks.len(),
    ensures
        forall|i: int|
            0 <= i < mesh(filtered_map(m), level).len() ==> texture_path_of_some_block(
                m,
                (#[trigger] mesh(filtered_map(m), level)[i]).texture,
            ),
{
    let f = filtered_map(m);
    law_mesh_brushes_are_sound(f, level);
    assert forall|i: int| 0 <= i < mesh(f, level).len() implies texture_path_of_some_block(
        m,
        (#[trigger] mesh(f, level)[i]).texture,
    ) by {
        let b = mesh(f, level)[i];
        let (x, y, z) = choose|a: int, b2: int, c: int| overlaps_block_named(f, b, a, b2, c);
        let j = crate::voxel::cell_index(f.width, f.length, x, y, z);
        crate::voxel::lemma_cell_index_bounds(f.width, f.height, f.length, x, y, z);
        assert(0 <= j < m.blocks.len());
        assert(f.blocks[j] == crate::filter::filtered_cell(m.blocks[j]));
    }
}

/// The brushes cell `(x, y, z)` would still add without merging: none when
/// it is covered already.
spec fn pending_at(m: VoxelMapView, vis: Set<(int, int, int)>, x: int, y: int, z: int) -> int {
    if vis.contains((x, y, z)) {
        0
    } else {
        unmerged_brush_count(cell_at(m, x, y, z))
    }
}

/// The total of `pending_at` over the cells before `(x, y, z)` in scan order.
spec fn pending(m: VoxelMapView, vis: Set<(int, int, int)>, y: int, z: int, x: int) -> int
    decreases y, z, x,
{
    if x > 0 {
        pending(m, vis, y, z, x - 1) + pending_at(m, vis, x - 1, y, z)
    } else if z > 0 {
        pending(m, vis, y, z - 1, m.width)
    } else if y > 0 {
        pending(m, vis, y - 1, m.length, 0)
    } else {
        0
    }
}

proof fn lemma_pending_nonneg(m: VoxelMapView, vis: Set<(int, int, int)>, y: int, z: int, x: int)
    ensures
        pending(m, vis, y, z, x) >= 0,
    decreases y, z, x,
{
    if x > 0 {
        lemma_pending_nonneg(m, vis, y, z, x - 1);
    } else if z > 0 {
        lemma_pending_nonneg(m, vis, y, z - 1, m.width);
    } else if y > 0 {
        lemma_pending_nonneg(m, vis, y - 1, m.length, 0);
    }
}

/// Covering more cells never adds to what is pending.
proof fn lemma_pending_mono(
    m: VoxelMapView,
    v1: Set<(int, int, int)>,
    v2: Set<(int, int, int)>,
    y: int,
    z: int,
    x: int,
)
    requires
        v1.subset_of(v2),
    ensures
        pending(m, v2, y, z, x) <= pending(m, v1, y, z, x),
    decreases y, z, x,
{
    if x > 0 {
        lemma_pending_mono(m, v1, v2, y, z, x - 1);
        if v1.contains((x - 1, y, z)) {
            assert(v2.contains((x - 1, y, z)));
        }
    } else if z > 0 {
        lemma_pending_mono(m, v1, v2, y, z - 1, m.width);
    } else if y > 0 {
        lemma_pending_mono(m, v1, v2, y - 1, m.length, 0);
    }
}

/// Covering one more cell of the scanned part takes its own brushes off
/// what is pending.
proof fn lemma_pending_insert(
    m: VoxelMapView,
    vis: Set<(int, int, int)>,
    a: int,
    b: int,
    c: int,
    y: int,
    z: int,
    x: int,
)
    requires
        m.width > 0 && m.height > 0 && m.length > 0,
        scan_position(m, x, y, z),
        in_grid(m.width, m.height, m.length, a, b, c),
        scanned_before(a, b, c, x, y, z),
    ensures
        pending(m, vis.insert((a, b, c)), y, z, x) + pending_at(m, vis, a, b, c) == pending(m, vis, y, z, x),
    decreases y, z, x,
{
    let v2 = vis.insert((a, b, c));
    if x > 0 {
        if a == x - 1 && b == y && c == z {
            lemma_pending_same(m, vis, v2, a, b, c, y, z, x - 1);
        } else {
            lemma_pending_insert(m, vis, a, b, c, y, z, x - 1);
            assert(pending_at(m, v2, x - 1, y, z) == pending_at(m, vis, x - 1, y, z));
        }
    } else if z > 0 {
        assert(scanned_before(a, b, c, m.width, y, z - 1));
        lemma_pending_insert(m, vis, a, b, c, y, z - 1, m.width);
    } else if y > 0 {
        assert(scanned_before(a, b, c, 0, y - 1, m.length));
        lemma_pending_insert(m, vis, a, b, c, y - 1, m.length, 0);
    }
}

/// Sets that agree on the cells before `(x, y, z)` leave the same pending.
proof fn lemma_pending_same(
    m: VoxelMapView,
    v1: Set<(int, int, int)>,
    v2: Set<(int, int, int)>,
    a: int,
    b: int,
    c: int,
    y: int,
    z: int,
    x: int,
)
    requires
        m.width > 0 && m.length > 0,
        scan_position(m, x, y, z) || (0 <= x <= m.width && 0 <= z < m.length && 0 <= y < m.height),
        v2 == v1.insert((a, b, c)),
        !scanned_before(a, b, c, x, y, z),
    ensures
        pending(m, v2, y, z, x) == pending(m, v1, y, z, x),
    decreases y, z, x,
{
    if x > 0 {
        lemma_pending_same(m, v1, v2, a, b, c, y, z, x - 1);
        assert(pending_at(m, v2, x - 1, y, z) == pending_at(m, v1, x - 1, y, z));
    } else if z > 0 {
        lemma_pending_same(m, v1, v2, a, b, c, y, z - 1, m.width);
    } else if y > 0 {
        lemma_pending_same(m, v1, v2, a, b, c, y - 1, m.length, 0);
    }
}

/// When every block before `(x, y, z)` is covered, nothing is pending.
proof fn lemma_pending_zero(m: VoxelMapView, vis: Set<(int, int, int)>, y: int, z: int, x: int)
    requires
        m.width > 0 && m.height > 0 && m.length > 0,
        scan_position(m, x, y, z),
        forall|a: int, b: int, c: int|
            #![trigger cell_at(m, a, b, c)]
            in_grid(m.width, m.height, m.length, a, b, c) && scanned_before(a, b, c, x, y, z) && cell_at(
                m,
                a,
                b,
                c,
            ) is Some ==> vis.contains((a, b, c)),
    ensures
        pending(m, vis, y, z, x) == 0,
    decreases y, z, x,
{
    if x > 0 {
        lemma_pending_zero(m, vis, y, z, x - 1);
        if cell_at(m, x - 1, y, z) is Some {
            assert(vis.contains((x - 1, y, z)));
        }
    } else if z > 0 {
        assert forall|a: int, b: int, c: int|
            in_grid(m.width, m.height, m.length, a, b, c) && scanned_before(a, b, c, m.width, y, z - 1) && (
            #[trigger] cell_at(m, a, b, c)) is Some implies vis.contains((a, b, c)) by {
            assert(scanned_before(a, b, c, x, y, z));
        }
        lemma_pending_zero(m, vis, y, z - 1, m.width);
    } else if y > 0 {
        assert forall|a: int, b: int, c: int|
            in_grid(m.width, m.height, m.length, a, b, c) && scanned_before(a, b, c, 0, y - 1, m.length) && (
            #[trigger] cell_at(m, a, b, c)) is Some implies vis.contains((a, b, c)) by {
            assert(scanned_before(a, b, c, x, y, z));
        }
        lemma_pending_zero(m, vis, y - 1, m.length, 0);
    }
}

/// One scan step adds at most the pending brushes it takes off, exactly
/// those with merging off.
proof fn lemma_step_pending(m: VoxelMapView, level: GreedyLevel, st: MeshState, x: int, y: int, z: int)
    requires
        m.width > 0 && m.height > 0 && m.length > 0,
        in_grid(m.width, m.height, m.length, x, y, z),
    ensures
        ({
            let nx = mesh_step(m, level, st, x, y, z);
            let h = m.height;
            &&& st.visited.subset_of(nx.visited)
            &&& nx.brushes.len() - st.brushes.len() + pending(m, nx.visited, h, 0, 0) <= pending(
                m,
                st.visited,
                h,
                0,
                0,
            )
            &&& level == GreedyLevel::Off ==> nx.brushes.len() - st.brushes.len() + pending(
                m,
                nx.visited,
                h,
                0,
                0,
            ) == pending(m, st.visited, h, 0, 0)
        }),
{
    let h = m.height;
    let nx = mesh_step(m, level, st, x, y, z);
    if st.visited.contains((x, y, z)) {
        return;
    }
    match cell_at(m, x, y, z) {
        None => {},
        Some(bl) => {
            let e = grown_box(m, level, st.visited, bl, x, y, z);
            lemma_grown_box(m, level, st.visited, bl, x, y, z);
            let one = st.visited.insert((x, y, z));
            assert(scanned_before(x, y, z, 0, h, 0));
            lemma_pending_insert(m, st.visited, x, y, z, h, 0, 0);
            assert(box_cells(x, e.0, y, e.1, z, e.2).contains((x, y, z)));
            assert(one.subset_of(nx.visited));
            lemma_pending_mono(m, one, nx.visited, h, 0, 0);
            if level == GreedyLevel::Off {
                assert(e == (x + 1, y + 1, z + 1));
                assert(nx.visited =~= one);
            }
        },
    }
}

proof fn lemma_scan_pending(m: VoxelMapView, level: GreedyLevel, x: int, y: int, z: int)
    requires
        m.width > 0 && m.height > 0 && m.length > 0,
        scan_position(m, x, y, z),
    ensures
        ({
            let st = mesh_scan(m, level, y, z, x);
            let none = Set::<(int, int, int)>::empty();
            &&& st.brushes.len() + pending(m, st.visited, m.height, 0, 0) <= pending(m, none, m.height, 0, 0)
            &&& level == GreedyLevel::Off ==> st.brushes.len() + pending(m, st.visited, m.height, 0, 0)
                == pending(m, none, m.height, 0, 0)
        }),
    decreases y, z, x,
{
    if x > 0 {
        lemma_scan_pending(m, level, x - 1, y, z);
        lemma_step_pending(m, level, mesh_scan(m, level, y, z, x - 1), x - 1, y, z);
    } else if z > 0 {
        lemma_scan_pending(m, level, m.width, y, z - 1);
    } else if y > 0 {
        lemma_scan_pending(m, level, 0, y - 1, m.length);
    }
}

/// Merging never adds brushes: a mesh has at most as many brushes as the
/// unmerged mesh of the same map.
pub proof fn law_merging_never_adds_brushes(m: VoxelMapView, level: GreedyLevel)
    ensures
        mesh(m, level).len() <= mesh(m, GreedyLevel::Off).len(),
{
    if m.width > 0 && m.height > 0 && m.length > 0 {
        lemma_scan_pending(m, level, 0, m.height, 0);
        lemma_scan_pending(m, GreedyLevel::Off, 0, m.height, 0);
        lemma_scan_inv(m, GreedyLevel::Off, 0, m.height, 0);
        let st = mesh_scan(m, level, m.height, 0, 0);
        let off = mesh_scan(m, GreedyLevel::Off, m.height, 0, 0);
        lemma_pending_nonneg(m, st.visited, m.height, 0, 0);
        lemma_pending_zero(m, off.visited, m.height, 0, 0);
    }
}

/// Names of blocks meshed as full cubes: neither slabs nor thin blocks.
pub open spec fn full_block_name(t: Seq<char>) -> bool {
    !crate::text::has_suffix(t, "_slab"@) && !crate::block_shapes::is_thin_name(t)
}

/// The cube of block cell `(x, y, z)` lies inside the brush.
pub open spec fn cube_inside(b: BrushView, x: int, y: int, z: int) -> bool {
    &&& b.min.0 <= x * 32 && (x + 1) * 32 <= b.max.0
    &&& b.min.1 <= z * 32 && (z + 1) * 32 <= b.max.1
    &&& b.min.2 <= y * 32 && (y + 1) * 32 <= b.max.2
}

/// No block cube lies inside two brushes of full-block names.
pub open spec fn full_brushes_apart(bs: Seq<BrushView>) -> bool {
    forall|i: int, j: int, x: int, y: int, z: int|
        #![trigger cube_inside(bs[i], x, y, z), cube_inside(bs[j], x, y, z)]
        0 <= i < j < bs.len() && full_block_name(bs[i].texture) && full_block_name(bs[j].texture)
            ==> !(cube_inside(bs[i], x, y, z) && cube_inside(bs[j], x, y, z))
}

/// The cubes inside brushes of full-block names are covered cells.
spec fn full_cubes_visited(st: MeshState) -> bool {
    forall|i: int, x: int, y: int, z: int|
        #![trigger cube_inside(st.brushes[i], x, y, z)]
        0 <= i < st.brushes.len() && full_block_name(st.brushes[i].texture) && cube_inside(
            st.brushes[i],
            x,
            y,
            z,
        ) ==> st.visited.contains((x, y, z))
}

/// Every coordinate of the brush is a multiple of 32: the brush is a box of
/// whole block cubes.
pub open spec fn on_grid(b: BrushView) -> bool {
    &&& b.min.0 % 32 == 0 && b.min.1 % 32 == 0 && b.min.2 % 32 == 0
    &&& b.max.0 % 32 == 0 && b.max.1 % 32 == 0 && b.max.2 % 32 == 0
}

/// Cell `(x, y, z)` lies in the brush's box: its lowest corner, in Quake
/// units, does.
pub open spec fn lies_in(b: BrushView, x: int, y: int, z: int) -> bool {
    &&& b.min.0 <= x * 32 < b.max.0
    &&& b.min.1 <= z * 32 < b.max.1
    &&& b.min.2 <= y * 32 < b.max.2
}

/// Every cell lying in a brush of whole cubes is a grid cell holding a full
/// block named like the brush's texture.
pub open spec fn grid_brushes_hold_full_blocks(m: VoxelMapView, bs: Seq<BrushView>) -> bool {
    forall|i: int, a: int, b: int, c: int|
        0 <= i < bs.len() && on_grid(bs[i]) && #[trigger] lies_in(bs[i], a, b, c) ==> {
            &&& in_grid(m.width, m.height, m.length, a, b, c)
            &&& cell_at(m, a, b, c) is Some
            &&& cell_at(m, a, b, c).unwrap().name == bs[i].texture
            &&& shape_of(cell_at(m, a, b, c).unwrap()) == BlockShape::Full
        }
}

/// Some brush of whole cubes drawn with `tex` holds the whole cube of cell
/// `(x, y, z)`.
pub open spec fn cube_in_brush_named(bs: Seq<BrushView>, tex: Seq<char>, x: int, y: int, z: int) -> bool {
    exists|i: int|
        0 <= i < bs.len() && (#[trigger] bs[i]).texture == tex && on_grid(bs[i]) && cube_inside(bs[i], x, y, z)
}

/// Every covered cell holding a full block lies inside a brush of its name.
spec fn full_cells_inside(m: VoxelMapView, st: MeshState) -> bool {
    forall|a: int, b: int, c: int|
        #![trigger st.visited.contains((a, b, c))]
        st.visited.contains((a, b, c)) && cell_at(m, a, b, c) is Some && full_block_name(
            cell_at(m, a, b, c).unwrap().name,
        ) ==> cube_in_brush_named(st.brushes, cell_at(m, a, b, c).unwrap().name, a, b, c)
}

proof fn lemma_step_apart(m: VoxelMapView, level: GreedyLevel, st: MeshState, x: int, y: int, z: int)
    requires
        in_grid(m.width, m.height, m.length, x, y, z),
        full_cubes_visited(st),
        full_brushes_apart(st.brushes),
        full_cells_inside(m, st),
        grid_brushes_hold_full_blocks(m, st.brushes),
    ensures
        full_cubes_visited(mesh_step(m, level, st, x, y, z)),
        full_brushes_apart(mesh_step(m, level, st, x, y, z).brushes),
        full_cells_inside(m, mesh_step(m, level, st, x, y, z)),
        grid_brushes_hold_full_blocks(m, mesh_step(m, level, st, x, y, z).brushes),
{
    let nx = mesh_step(m, level, st, x, y, z);
    if st.visited.contains((x, y, z)) || cell_at(m, x, y, z) is None {
        return;
    }
    let bl = cell_at(m, x, y, z).unwrap();
    let e = grown_box(m, level, st.visited, bl, x, y, z);
    let shape = shape_of(bl);
    let fresh = shape_brushes(shape, x, y, z, e.0, e.1, e.2, bl.name);
    let n = st.brushes.len() as int;
    lemma_grown_box(m, level, st.visited, bl, x, y, z);
    assert(nx.brushes == st.brushes + fresh);
    assert(nx.visited == st.visited.union(box_cells(x, e.0, y, e.1, z, e.2)));
    if shape != BlockShape::Full {
        assert(!full_block_name(bl.name));
    }
    assert forall|i: int, a: int, b: int, c: int|
        0 <= i < nx.brushes.len() && full_block_name(nx.brushes[i].texture) && #[trigger] cube_inside(
            nx.brushes[i],
            a,
            b,
            c,
        ) implies nx.visited.contains((a, b, c)) by {
        if i < n {
            assert(nx.brushes[i] == st.brushes[i]);
            assert(st.visited.contains((a, b, c)));
        } else {
            assert(nx.brushes[i] == fresh[i - n]);
            assert(box_cells(x, e.0, y, e.1, z, e.2).contains((a, b, c)));
        }
    }
    assert forall|i: int, j: int, a: int, b: int, c: int|
        0 <= i < j < nx.brushes.len() && full_block_name(nx.brushes[i].texture) && full_block_name(
            nx.brushes[j].texture,
        ) implies !(#[trigger] cube_inside(nx.brushes[i], a, b, c) && #[trigger] cube_inside(
        nx.brushes[j],
        a,
        b,
        c,
    )) by {
        if j < n {
            assert(nx.brushes[i] == st.brushes[i]);
            assert(nx.brushes[j] == st.brushes[j]);
        } else if i < n {
            assert(nx.brushes[i] == st.brushes[i]);
            assert(nx.brushes[j] == fresh[j - n]);
            if cube_inside(nx.brushes[i], a, b, c) && cube_inside(nx.brushes[j], a, b, c) {
                assert(st.visited.contains((a, b, c)));
                assert(cell_free(m, st.visited, bl.name, shape, a, b, c));
            }
        } else {
            assert(shape == BlockShape::ThinCross);
        }
    }
    assert forall|a: int, b: int, c: int|
        #[trigger] nx.visited.contains((a, b, c)) && cell_at(m, a, b, c) is Some && full_block_name(
            cell_at(m, a, b, c).unwrap().name,
        ) implies cube_in_brush_named(nx.brushes, cell_at(m, a, b, c).unwrap().name, a, b, c) by {
        let tex = cell_at(m, a, b, c).unwrap().name;
        if st.visited.contains((a, b, c)) {
            let i = choose|i: int|
                0 <= i < st.brushes.len() && (#[trigger] st.brushes[i]).texture == tex && cube_inside(
                    st.brushes[i],
                    a,
                    b,
                    c,
                );
            assert(nx.brushes[i] == st.brushes[i]);
        } else {
            assert(box_cells(x, e.0, y, e.1, z, e.2).contains((a, b, c)));
            assert(cell_free(m, st.visited, bl.name, shape, a, b, c));
            assert(shape == BlockShape::Full);
            assert(nx.brushes[n] == fresh[0]);
            assert(cube_inside(nx.brushes[n], a, b, c));
            assert((x * 32) % 32 == 0 && (y * 32) % 32 == 0 && (z * 32) % 32 == 0) by (nonlinear_arith);
            assert((e.0 * 32) % 32 == 0 && (e.1 * 32) % 32 == 0 && (e.2 * 32) % 32 == 0) by (nonlinear_arith);
            assert(on_grid(nx.brushes[n]));
        }
    }
    assert((x * 32 + 14) % 32 == 14 && (z * 32 + 14) % 32 == 14 && (y * 32 + 16) % 32 == 16) by (nonlinear_arith);
    assert forall|i: int, a: int, b: int, c: int|
        0 <= i < nx.brushes.len() && on_grid(nx.brushes[i]) && #[trigger] lies_in(nx.brushes[i], a, b, c) implies {
        &&& in_grid(m.width, m.height, m.length, a, b, c)
        &&& cell_at(m, a, b, c) is Some
        &&& cell_at(m, a, b, c).unwrap().name == nx.brushes[i].texture
        &&& shape_of(cell_at(m, a, b, c).unwrap()) == BlockShape::Full
    } by {
        if i < n {
            assert(nx.brushes[i] == st.brushes[i]);
        } else {
            assert(nx.brushes[i] == fresh[i - n]);
            assert(shape == BlockShape::Full);
            assert(box_cells(x, e.0, y, e.1, z, e.2).contains((a, b, c)));
            assert(cell_free(m, st.visited, bl.name, shape, a, b, c));
        }
    }
}

proof fn lemma_scan_apart(m: VoxelMapView, level: GreedyLevel, x: int, y: int, z: int)
    requires
        m.width > 0 && m.height > 0 && m.length > 0,
        scan_position(m, x, y, z),
    ensures
        full_cubes_visited(mesh_scan(m, level, y, z, x)),
        full_brushes_apart(mesh_scan(m, level, y, z, x).brushes),
        full_cells_inside(m, mesh_scan(m, level, y, z, x)),
        grid_brushes_hold_full_blocks(m, mesh_scan(m, level, y, z, x).brushes),
    decreases y, z, x,
{
    if x > 0 {
        lemma_scan_apart(m, level, x - 1, y, z);
        lemma_step_apart(m, level, mesh_scan(m, level, y, z, x - 1), x - 1, y, z);
    } else if z > 0 {
        lemma_scan_apart(m, level, m.width, y, z - 1);
    } else if y > 0 {
        lemma_scan_apart(m, level, 0, y - 1, m.length);
    }
}

/// No block is meshed twice as a full block: no block cube lies inside two
/// brushes whose textures name full blocks.
pub proof fn law_full_block_brushes_do_not_overlap(m: VoxelMapView, level: GreedyLevel)
    ensures
        full_brushes_apart(mesh(m, level)),
{
    if m.width > 0 && m.height > 0 && m.length > 0 {
        lemma_scan_apart(m, level, 0, m.height, 0);
    }
}

/// Every full block lies in exactly one full brush: the cube of every grid
/// cell holding a block of a full-block name lies inside a brush of that
/// name, and inside no other brush of a full-block name.
pub proof fn law_every_full_block_lies_in_exactly_one_full_brush(m: VoxelMapView, level: GreedyLevel)
    ensures
        forall|x: int, y: int, z: int|
            in_grid(m.width, m.height, m.length, x, y, z) && (#[trigger] cell_at(m, x, y, z)) is Some
                && full_block_name(cell_at(m, x, y, z).unwrap().name) ==> exists|i: int|
                0 <= i < mesh(m, level).len() && (#[trigger] mesh(m, level)[i]).texture == cell_at(
                    m,
                    x,
                    y,
                    z,
                ).unwrap().name && cube_inside(mesh(m, level)[i], x, y, z) && forall|j: int|
                    0 <= j < mesh(m, level).len() && full_block_name(mesh(m, level)[j].texture)
                        && #[trigger] cube_inside(mesh(m, level)[j], x, y, z) ==> j == i,
{
    let bs = mesh(m, level);
    if m.width > 0 && m.height > 0 && m.length > 0 {
        lemma_scan_apart(m, level, 0, m.height, 0);
        lemma_scan_inv(m, level, 0, m.height, 0);
        let st = mesh_scan(m, level, m.height, 0, 0);
        assert forall|x: int, y: int, z: int|
            in_grid(m.width, m.height, m.length, x, y, z) && (#[trigger] cell_at(m, x, y, z)) is Some
                && full_block_name(cell_at(m, x, y, z).unwrap().name) implies exists|i: int|
            0 <= i < bs.len() && (#[trigger] bs[i]).texture == cell_at(m, x, y, z).unwrap().name
                && cube_inside(bs[i], x, y, z) && forall|j: int|
                0 <= j < bs.len() && full_block_name(bs[j].texture) && #[trigger] cube_inside(
                    bs[j],
                    x,
                    y,
                    z,
                ) ==> j == i by {
            let tex = cell_at(m, x, y, z).unwrap().name;
            assert(scanned_before(x, y, z, 0, m.height, 0));
            assert(st.visited.contains((x, y, z)));
            let i = choose|i: int| 0 <= i < bs.len() && (#[trigger] bs[i]).texture == tex && cube_inside(bs[i], x, y, z);
            assert forall|j: int|
                0 <= j < bs.len() && full_block_name(bs[j].texture) && #[trigger] cube_inside(
                    bs[j],
                    x,
                    y,
                    z,
                ) implies j == i by {
                if j < i {
                    assert(!(cube_inside(bs[j], x, y, z) && cube_inside(bs[i], x, y, z)));
                } else if i < j {
                    assert(!(cube_inside(bs[i], x, y, z) && cube_inside(bs[j], x, y, z)));
                }
            }
        }
    }
}

proof fn lemma_single_grid_brush(m: VoxelMapView, bs: Seq<BrushView>, tex: Seq<char>, x: int, y: int, z: int)
    requires
        in_scan_order(m, bs),
        overlaps_share_seed(m, bs),
        cube_in_brush_named(bs, tex, x, y, z),
    ensures
        exists|i: int|
            0 <= i < bs.len() && on_grid(#[trigger] bs[i]) && bs[i].texture == tex && lies_in(bs[i], x, y, z)
                && forall|j: int| 0 <= j < bs.len() && on_grid(bs[j]) && #[trigger] lies_in(bs[j], x, y, z) ==> j == i,
{
    let i = choose|i: int|
        0 <= i < bs.len() && (#[trigger] bs[i]).texture == tex && on_grid(bs[i]) && cube_inside(bs[i], x, y, z);
    assert(lies_in(bs[i], x, y, z));
    assert forall|j: int| 0 <= j < bs.len() && on_grid(bs[j]) && #[trigger] lies_in(bs[j], x, y, z) implies j == i by {
        assert(overlaps_cell(bs[i], x, y, z));
        assert(overlaps_cell(bs[j], x, y, z));
        assert(seed_key(m, bs[i]) == seed_key(m, bs[j]));
        if i < j {
            lemma_grid_brush_seed_alone(m, bs, i, j);
        } else if j < i {
            lemma_grid_brush_seed_alone(m, bs, j, i);
        }
    }
}

/// A brush of whole cubes shares its seed with no later brush.
proof fn lemma_grid_brush_seed_alone(m: VoxelMapView, bs: Seq<BrushView>, p: int, q: int)
    requires
        in_scan_order(m, bs),
        0 <= p < q < bs.len(),
        seed_key(m, bs[p]) == seed_key(m, bs[q]),
    ensures
        !on_grid(bs[p]),
{
    assert(seed_key(m, bs[p]) <= seed_key(m, bs[p + 1]));
    if p + 1 < q {
        assert(seed_key(m, bs[p + 1]) <= seed_key(m, bs[q]));
    }
    assert(seed_key(m, bs[p]) == seed_key(m, bs[p + 1]));
    assert(bs[p].min.0 % 32 == 14);
}

/// The full brushes, the brushes of whole cubes (every coordinate a
/// multiple of 32), partition the full blocks: each has positive size and
/// every cell lying in it holds a full block named like its texture; every
/// grid cell holding a full block lies in exactly one of them, one of its
/// own name.
pub proof fn law_full_brushes_partition_full_blocks(m: VoxelMapView, level: GreedyLevel)
    ensures
        forall|i: int|
            0 <= i < mesh(m, level).len() && on_grid(#[trigger] mesh(m, level)[i]) ==> has_volume(
                mesh(m, level)[i],
            ),
        grid_brushes_hold_full_blocks(m, mesh(m, level)),
        forall|x: int, y: int, z: int|
            in_grid(m.width, m.height, m.length, x, y, z) && (#[trigger] cell_at(m, x, y, z)) is Some
                && shape_of(cell_at(m, x, y, z).unwrap()) == BlockShape::Full ==> exists|i: int|
                0 <= i < mesh(m, level).len() && on_grid(#[trigger] mesh(m, level)[i]) && mesh(m, level)[i].texture
                    == cell_at(m, x, y, z).unwrap().name && lies_in(mesh(m, level)[i], x, y, z) && forall|j: int|
                    0 <= j < mesh(m, level).len() && on_grid(mesh(m, level)[j]) && #[trigger] lies_in(
                        mesh(m, level)[j],
                        x,
                        y,
                        z,
                    ) ==> j == i,
{
    let bs = mesh(m, level);
    law_mesh_brushes_are_sound(m, level);
    law_brushes_come_in_scan_order(m, level);
    if m.width > 0 && m.height > 0 && m.length > 0 {
        lemma_scan_apart(m, level, 0, m.height, 0);
        lemma_full_cells_reached(m, level);
        assert forall|x: int, y: int, z: int|
            in_grid(m.width, m.height, m.length, x, y, z) && (#[trigger] cell_at(m, x, y, z)) is Some
                && shape_of(cell_at(m, x, y, z).unwrap()) == BlockShape::Full implies exists|i: int|
            0 <= i < bs.len() && on_grid(#[trigger] bs[i]) && bs[i].texture == cell_at(m, x, y, z).unwrap().name
                && lies_in(bs[i], x, y, z) && forall|j: int|
                0 <= j < bs.len() && on_grid(bs[j]) && #[trigger] lies_in(bs[j], x, y, z) ==> j == i by {
            let tex = cell_at(m, x, y, z).unwrap().name;
            assert(full_block_name(tex));
            lemma_single_grid_brush(m, bs, tex, x, y, z);
        }
    }
}

/// At the end of the scan every grid cell holding a full block lies inside
/// a brush of whole cubes of its name.
proof fn lemma_full_cells_reached(m: VoxelMapView, level: GreedyLevel)
    requires
        m.width > 0 && m.height > 0 && m.length > 0,
    ensures
        forall|x: int, y: int, z: int|
            in_grid(m.width, m.height, m.length, x, y, z) && (#[trigger] cell_at(m, x, y, z)) is Some
                && full_block_name(cell_at(m, x, y, z).unwrap().name) ==> cube_in_brush_named(
                mesh(m, level),
                cell_at(m, x, y, z).unwrap().name,
                x,
                y,
                z,
            ),
{
    lemma_scan_apart(m, level, 0, m.height, 0);
    lemma_scan_inv(m, level, 0, m.height, 0);
    let st = mesh_scan(m, level, m.height, 0, 0);
    assert forall|x: int, y: int, z: int|
        in_grid(m.width, m.height, m.length, x, y, z) && (#[trigger] cell_at(m, x, y, z)) is Some
            && full_block_name(cell_at(m, x, y, z).unwrap().name) implies cube_in_brush_named(
        mesh(m, level),
        cell_at(m, x, y, z).unwrap().name,
        x,
        y,
        z,
    ) by {
        assert(scanned_before(x, y, z, 0, m.height, 0));
        assert(st.visited.contains((x, y, z)));
    }
}

/// Cell `(x, y, z)` is free for growing a full brush of `tex` after the
/// brushes `earlier`: a grid cell holding a full block named `tex` that lies
/// in none of them.
pub open spec fn free_after(m: VoxelMapView, earlier: Seq<BrushView>, tex: Seq<char>, x: int, y: int, z: int) -> bool {
    &&& in_grid(m.width, m.height, m.length, x, y, z)
    &&& cell_at(m, x, y, z) is Some
    &&& cell_at(m, x, y, z).unwrap().name == tex
    &&& shape_of(cell_at(m, x, y, z).unwrap()) == BlockShape::Full
    &&& !exists|j: int| 0 <= j < earlier.len() && #[trigger] lies_in(earlier[j], x, y, z)
}

/// The box of the full brush `b`, from cell `(min.0 / 32, min.2 / 32,
/// min.1 / 32)` to `(max.0 / 32, max.2 / 32, max.1 / 32)`, stopped growing
/// only at blocking cells, judged against the brushes before it: along x at
/// the next cell, along z at some cell of the next row, along y at some cell
/// of the next layer, unless the grid ends there.
pub open spec fn full_growth_stops(m: VoxelMapView, earlier: Seq<BrushView>, b: BrushView) -> bool {
    let x0 = b.min.0 / 32;
    let z0 = b.min.1 / 32;
    let y0 = b.min.2 / 32;
    let ex = b.max.0 / 32;
    let ez = b.max.1 / 32;
    let ey = b.max.2 / 32;
    let t = b.texture;
    &&& ex < m.width ==> !free_after(m, earlier, t, ex, y0, z0)
    &&& ez < m.length ==> exists|a: int| x0 <= a < ex && !#[trigger] free_after(m, earlier, t, a, y0, ez)
    &&& ey < m.height ==> exists|a: int, c: int|
        x0 <= a < ex && z0 <= c < ez && !#[trigger] free_after(m, earlier, t, a, ey, c)
}

/// Every full brush so far stopped growing only at blocking cells.
spec fn growth_inv(m: VoxelMapView, bs: Seq<BrushView>) -> bool {
    forall|k: int| 0 <= k < bs.len() && on_grid(#[trigger] bs[k]) ==> full_growth_stops(m, bs.take(k), bs[k])
}

/// A cell free after the brushes so far is free in the scan's sense.
proof fn lemma_free_after_is_free(
    m: VoxelMapView,
    st: MeshState,
    tex: Seq<char>,
    x: int,
    y: int,
    z: int,
)
    requires
        full_cells_inside(m, st),
        free_after(m, st.brushes, tex, x, y, z),
    ensures
        cell_free(m, st.visited, tex, BlockShape::Full, x, y, z),
{
    if st.visited.contains((x, y, z)) {
        assert(full_block_name(tex));
        let j = choose|j: int|
            0 <= j < st.brushes.len() && (#[trigger] st.brushes[j]).texture == tex && on_grid(st.brushes[j])
                && cube_inside(st.brushes[j], x, y, z);
        assert(lies_in(st.brushes[j], x, y, z));
    }
}

proof fn lemma_growth_step(m: VoxelMapView, level: GreedyLevel, st: MeshState, x: int, y: int, z: int)
    requires
        level != GreedyLevel::Off,
        in_grid(m.width, m.height, m.length, x, y, z),
        full_cells_inside(m, st),
        growth_inv(m, st.brushes),
    ensures
        growth_inv(m, mesh_step(m, level, st, x, y, z).brushes),
{
    let nx = mesh_step(m, level, st, x, y, z);
    let n = st.brushes.len() as int;
    assert forall|k: int| 0 <= k < n implies nx.brushes.take(k) == st.brushes.take(k) && nx.brushes[k] == st.brushes[k] by {
        assert(nx.brushes.take(k) =~= st.brushes.take(k));
    }
    if st.visited.contains((x, y, z)) || cell_at(m, x, y, z) is None {
        return;
    }
    let bl = cell_at(m, x, y, z).unwrap();
    let e = grown_box(m, level, st.visited, bl, x, y, z);
    let shape = shape_of(bl);
    let fresh = shape_brushes(shape, x, y, z, e.0, e.1, e.2, bl.name);
    assert(nx.brushes == st.brushes + fresh);
    assert((x * 32 + 14) % 32 == 14 && (z * 32 + 14) % 32 == 14 && (y * 32 + 16) % 32 == 16) by (nonlinear_arith);
    if shape != BlockShape::Full {
        assert forall|k: int| n <= k < nx.brushes.len() implies !on_grid(#[trigger] nx.brushes[k]) by {
            assert(nx.brushes[k] == fresh[k - n]);
        }
        return;
    }
    lemma_grown_box(m, level, st.visited, bl, x, y, z);
    law_growth_stops_only_at_blocking_cells(m, level, st.visited, bl, x, y, z);
    let b = fresh[0];
    assert(nx.brushes[n] == b);
    assert(nx.brushes.take(n) =~= st.brushes);
    lemma_div_32(x, 0);
    lemma_div_32(y, 0);
    lemma_div_32(z, 0);
    lemma_div_32(e.0, 0);
    lemma_div_32(e.1, 0);
    lemma_div_32(e.2, 0);
    let t = bl.name;
    let vis = st.visited;
    assert(merge_axes(level, shape) == (true, true, true));
    assert(b.min == (x * 32, z * 32, y * 32) && b.max == (e.0 * 32, e.2 * 32, e.1 * 32) && b.texture == t);
    assert(b.min.0 / 32 == x && b.min.1 / 32 == z && b.min.2 / 32 == y);
    assert(b.max.0 / 32 == e.0 && b.max.1 / 32 == e.2 && b.max.2 / 32 == e.1);
    if e.0 < m.width {
        if free_after(m, st.brushes, t, e.0, y, z) {
            lemma_free_after_is_free(m, st, t, e.0, y, z);
        }
        assert(!free_after(m, st.brushes, t, e.0, y, z));
    }
    if e.2 < m.length {
        let a = choose|a: int| x <= a < e.0 && !#[trigger] cell_free(m, vis, t, shape, a, y, e.2);
        if free_after(m, st.brushes, t, a, y, e.2) {
            lemma_free_after_is_free(m, st, t, a, y, e.2);
        }
        assert(!free_after(m, st.brushes, t, a, y, e.2));
    }
    if e.1 < m.height {
        let (a, c) = choose|a: int, c: int| x <= a < e.0 && z <= c < e.2 && !#[trigger] cell_free(m, vis, t, shape, a, e.1, c);
        if free_after(m, st.brushes, t, a, e.1, c) {
            lemma_free_after_is_free(m, st, t, a, e.1, c);
        }
        assert(!free_after(m, st.brushes, t, a, e.1, c));
    }
    assert(full_growth_stops(m, st.brushes, b));
}

proof fn lemma_growth_scan(m: VoxelMapView, level: GreedyLevel, x: int, y: int, z: int)
    requires
        level != GreedyLevel::Off,
        m.width > 0 && m.height > 0 && m.length > 0,
        scan_position(m, x, y, z),
    ensures
        growth_inv(m, mesh_scan(m, level, y, z, x).brushes),
    decreases y, z, x,
{
    if x > 0 {
        lemma_growth_scan(m, level, x - 1, y, z);
        lemma_scan_apart(m, level, x - 1, y, z);
        lemma_growth_step(m, level, mesh_scan(m, level, y, z, x - 1), x - 1, y, z);
    } else if z > 0 {
        lemma_growth_scan(m, level, m.width, y, z - 1);
    } else if y > 0 {
        lemma_growth_scan(m, level, 0, y - 1, m.length);
    }
}

/// Growth stops only at a cell blocked by earlier brushes: when full blocks
/// are merged, every full brush (every coordinate a multiple of 32) ends
/// along x, z and y only where the grid ends or where the next cell, some
/// cell of the next row, or some cell of the next layer is not a full block
/// of its name lying outside every brush before it in the result.
pub proof fn law_full_growth_stops_at_earlier_brushes(m: VoxelMapView, level: GreedyLevel)
    requires
        level != GreedyLevel::Off,
    ensures
        forall|k: int|
            0 <= k < mesh(m, level).len() && on_grid(#[trigger] mesh(m, level)[k]) ==> full_growth_stops(
                m,
                mesh(m, level).take(k),
                mesh(m, level)[k],
            ),
{
    if m.width > 0 && m.height > 0 && m.length > 0 {
        lemma_growth_scan(m, level, 0, m.height, 0);
    }
}

/// Some brush drawn with `tex` holds the box from `lo` to `hi` (Quake
/// units).
pub open spec fn drawn(bs: Seq<BrushView>, tex: Seq<char>, lo: (int, int, int), hi: (int, int, int)) -> bool {
    exists|i: int|
        0 <= i < bs.len() && (#[trigger] bs[i]).texture == tex && bs[i].min.0 <= lo.0 && bs[i].min.1 <= lo.1
            && bs[i].min.2 <= lo.2 && hi.0 <= bs[i].max.0 && hi.1 <= bs[i].max.1 && hi.2 <= bs[i].max.2
}

/// The solid part of the block at `(x, y, z)` is drawn by brushes of its
/// name. In Quake units, with the cell's corner at `(32x, 32z, 32y)`: a full
/// block is its whole cube; a bottom (top) slab the lower (upper) 16 units;
/// a north-south panel the 4 units `14 .. 18` across the first axis, the
/// whole cell along the other two; an east-west panel the same across the
/// second axis; a cross both panels.
pub open spec fn block_drawn(bs: Seq<BrushView>, m: VoxelMapView, x: int, y: int, z: int) -> bool {
    let bl = cell_at(m, x, y, z).unwrap();
    let t = bl.name;
    let qx = 32 * x;
    let qy = 32 * z;
    let qz = 32 * y;
    let ns = drawn(bs, t, (qx + 14, qy, qz), (qx + 18, qy + 32, qz + 32));
    let ew = drawn(bs, t, (qx, qy + 14, qz), (qx + 32, qy + 18, qz + 32));
    match shape_of(bl) {
        BlockShape::Full => drawn(bs, t, (qx, qy, qz), (qx + 32, qy + 32, qz + 32)),
        BlockShape::SlabBottom => drawn(bs, t, (qx, qy, qz), (qx + 32, qy + 32, qz + 16)),
        BlockShape::SlabTop => drawn(bs, t, (qx, qy, qz + 16), (qx + 32, qy + 32, qz + 32)),
        BlockShape::ThinPanelNS => ns,
        BlockShape::ThinPanelEW => ew,
        BlockShape::ThinCross => ns && ew,
    }
}

/// Every covered cell's block is drawn whole.
spec fn covered_drawn(m: VoxelMapView, st: MeshState) -> bool {
    forall|a: int, b: int, c: int|
        #![trigger st.visited.contains((a, b, c))]
        st.visited.contains((a, b, c)) && cell_at(m, a, b, c) is Some ==> block_drawn(st.brushes, m, a, b, c)
}

proof fn lemma_drawn_grows(bs: Seq<BrushView>, more: Seq<BrushView>, tex: Seq<char>, lo: (int, int, int), hi: (int, int, int))
    ensures
        drawn(bs, tex, lo, hi) ==> drawn(bs + more, tex, lo, hi),
{
    if !drawn(bs, tex, lo, hi) {
        return;
    }
    let i = choose|i: int|
        0 <= i < bs.len() && (#[trigger] bs[i]).texture == tex && bs[i].min.0 <= lo.0 && bs[i].min.1 <= lo.1
            && bs[i].min.2 <= lo.2 && hi.0 <= bs[i].max.0 && hi.1 <= bs[i].max.1 && hi.2 <= bs[i].max.2;
    assert((bs + more)[i] == bs[i]);
}

proof fn lemma_drawn_step(m: VoxelMapView, level: GreedyLevel, st: MeshState, x: int, y: int, z: int)
    requires
        in_grid(m.width, m.height, m.length, x, y, z),
        covered_drawn(m, st),
    ensures
        covered_drawn(m, mesh_step(m, level, st, x, y, z)),
{
    let nx = mesh_step(m, level, st, x, y, z);
    if st.visited.contains((x, y, z)) || cell_at(m, x, y, z) is None {
        return;
    }
    let bl = cell_at(m, x, y, z).unwrap();
    let e = grown_box(m, level, st.visited, bl, x, y, z);
    let shape = shape_of(bl);
    let fresh = shape_brushes(shape, x, y, z, e.0, e.1, e.2, bl.name);
    let n = st.brushes.len() as int;
    lemma_grown_box(m, level, st.visited, bl, x, y, z);
    assert(nx.brushes == st.brushes + fresh);
    assert(nx.visited == st.visited.union(box_cells(x, e.0, y, e.1, z, e.2)));
    assert forall|a: int, b: int, c: int|
        #[trigger] nx.visited.contains((a, b, c)) && cell_at(m, a, b, c) is Some implies block_drawn(
        nx.brushes,
        m,
        a,
        b,
        c,
    ) by {
        let cb = cell_at(m, a, b, c).unwrap();
        let t = cb.name;
        let qx = 32 * a;
        let qy = 32 * c;
        let qz = 32 * b;
        if st.visited.contains((a, b, c)) {
            lemma_drawn_grows(st.brushes, fresh, t, (qx + 14, qy, qz), (qx + 18, qy + 32, qz + 32));
            lemma_drawn_grows(st.brushes, fresh, t, (qx, qy + 14, qz), (qx + 32, qy + 18, qz + 32));
            lemma_drawn_grows(st.brushes, fresh, t, (qx, qy, qz), (qx + 32, qy + 32, qz + 32));
            lemma_drawn_grows(st.brushes, fresh, t, (qx, qy, qz), (qx + 32, qy + 32, qz + 16));
            lemma_drawn_grows(st.brushes, fresh, t, (qx, qy, qz + 16), (qx + 32, qy + 32, qz + 32));
        } else {
            assert(box_cells(x, e.0, y, e.1, z, e.2).contains((a, b, c)));
            assert(cell_free(m, st.visited, bl.name, shape, a, b, c));
            assert(shape_of(cb) == shape && t == bl.name);
            assert(nx.brushes[n] == fresh[0]);
            if shape == BlockShape::ThinCross {
                assert(nx.brushes[n + 1] == fresh[1]);
            }
        }
    }
}

proof fn lemma_drawn_scan(m: VoxelMapView, level: GreedyLevel, x: int, y: int, z: int)
    requires
        m.width > 0 && m.height > 0 && m.length > 0,
        scan_position(m, x, y, z),
    ensures
        covered_drawn(m, mesh_scan(m, level, y, z, x)),
    decreases y, z, x,
{
    if x > 0 {
        lemma_drawn_scan(m, level, x - 1, y, z);
        lemma_drawn_step(m, level, mesh_scan(m, level, y, z, x - 1), x - 1, y, z);
    } else if z > 0 {
        lemma_drawn_scan(m, level, m.width, y, z - 1);
    } else if y > 0 {
        lemma_drawn_scan(m, level, 0, y - 1, m.length);
    }
}

/// Every block is drawn whole, in its own cell, at every merge level: a full
/// block's cube, a slab's half, a panel's 4-unit middle across its cell, and
/// for a cross both its north-south and its east-west panel, each inside a
/// brush of the block's name. (So brushes grow only along axes along which
/// a block's cross-section is unchanged.)
pub proof fn law_every_block_is_drawn_whole(m: VoxelMapView, level: GreedyLevel)
    ensures
        forall|x: int, y: int, z: int|
            in_grid(m.width, m.height, m.length, x, y, z) && (#[trigger] cell_at(m, x, y, z)) is Some
                ==> block_drawn(mesh(m, level), m, x, y, z),
{
    if m.width > 0 && m.height > 0 && m.length > 0 {
        lemma_drawn_scan(m, level, 0, m.height, 0);
        lemma_scan_inv(m, level, 0, m.height, 0);
        let st = mesh_scan(m, level, m.height, 0, 0);
        assert forall|x: int, y: int, z: int|
            in_grid(m.width, m.height, m.length, x, y, z) && (#[trigger] cell_at(m, x, y, z)) is Some implies block_drawn(
            mesh(m, level),
            m,
            x,
            y,
            z,
        ) by {
            assert(scanned_before(x, y, z, 0, m.height, 0));
            assert(st.visited.contains((x, y, z)));
        }
    }
}

/// Offsets `(ox, oy, oz)` within a cell (Quake units, from the cell's
/// corner) lie in the solid part of a block of `shape`: anywhere for a full
/// block, in the lower or upper half for a slab, within `14 .. 18` across
/// the first axis for a north-south panel, across the second for an
/// east-west panel, either for a cross.
pub open spec fn solid_at(shape: BlockShape, ox: int, oy: int, oz: int) -> bool {
    match shape {
        BlockShape::Full => true,
        BlockShape::SlabBottom => oz <= 16,
        BlockShape::SlabTop => 16 <= oz,
        BlockShape::ThinPanelNS => 14 <= ox <= 18,
        BlockShape::ThinPanelEW => 14 <= oy <= 18,
        BlockShape::ThinCross => 14 <= ox <= 18 || 14 <= oy <= 18,
    }
}

/// The point `p` (Quake units) lies in the solid part of a block named
/// `tex`, in the cell `(p.0 / 32, p.2 / 32, p.1 / 32)` (rounding down).
pub open spec fn point_in_solid(m: VoxelMapView, p: (int, int, int), tex: Seq<char>) -> bool {
    let x = p.0 / 32;
    let y = p.2 / 32;
    let z = p.1 / 32;
    &&& in_grid(m.width, m.height, m.length, x, y, z)
    &&& cell_at(m, x, y, z) is Some
    &&& cell_at(m, x, y, z).unwrap().name == tex
    &&& solid_at(shape_of(cell_at(m, x, y, z).unwrap()), p.0 - 32 * x, p.1 - 32 * z, p.2 - 32 * y)
}

/// Every point strictly inside a brush lies in the solid part of a block of
/// the brush's texture.
pub open spec fn brushes_in_solid(m: VoxelMapView, bs: Seq<BrushView>) -> bool {
    forall|i: int, p: (int, int, int)|
        0 <= i < bs.len() && #[trigger] strictly_inside(bs[i], p) ==> point_in_solid(m, p, bs[i].texture)
}

proof fn lemma_floor_32(v: int)
    ensures
        (v / 32) * 32 <= v < (v / 32) * 32 + 32,
{
    assert((v / 32) * 32 <= v < (v / 32) * 32 + 32) by (nonlinear_arith);
}

proof fn lemma_fresh_in_solid(
    m: VoxelMapView,
    level: GreedyLevel,
    st: MeshState,
    x: int,
    y: int,
    z: int,
    t: int,
    p: (int, int, int),
)
    requires
        in_grid(m.width, m.height, m.length, x, y, z),
        !st.visited.contains((x, y, z)),
        cell_at(m, x, y, z) is Some,
        0 <= t < shape_brushes(
            shape_of(cell_at(m, x, y, z).unwrap()),
            x,
            y,
            z,
            grown_box(m, level, st.visited, cell_at(m, x, y, z).unwrap(), x, y, z).0,
            grown_box(m, level, st.visited, cell_at(m, x, y, z).unwrap(), x, y, z).1,
            grown_box(m, level, st.visited, cell_at(m, x, y, z).unwrap(), x, y, z).2,
            cell_at(m, x, y, z).unwrap().name,
        ).len(),
        strictly_inside(
            shape_brushes(
                shape_of(cell_at(m, x, y, z).unwrap()),
                x,
                y,
                z,
                grown_box(m, level, st.visited, cell_at(m, x, y, z).unwrap(), x, y, z).0,
                grown_box(m, level, st.visited, cell_at(m, x, y, z).unwrap(), x, y, z).1,
                grown_box(m, level, st.visited, cell_at(m, x, y, z).unwrap(), x, y, z).2,
                cell_at(m, x, y, z).unwrap().name,
            )[t],
            p,
        ),
    ensures
        point_in_solid(m, p, cell_at(m, x, y, z).unwrap().name),
{
    let bl = cell_at(m, x, y, z).unwrap();
    let shape = shape_of(bl);
    let e = grown_box(m, level, st.visited, bl, x, y, z);
    let f = shape_brushes(shape, x, y, z, e.0, e.1, e.2, bl.name);
    lemma_grown_box(m, level, st.visited, bl, x, y, z);
    lemma_floor_32(p.0);
    lemma_floor_32(p.1);
    lemma_floor_32(p.2);
    let a = p.0 / 32;
    let b = p.2 / 32;
    let c = p.1 / 32;
    assert(x <= a < e.0 && y <= b < e.1 && z <= c < e.2);
    assert(cell_free(m, st.visited, bl.name, shape, a, b, c));
}

proof fn lemma_solid_step(m: VoxelMapView, level: GreedyLevel, st: MeshState, x: int, y: int, z: int)
    requires
        in_grid(m.width, m.height, m.length, x, y, z),
        brushes_in_solid(m, st.brushes),
    ensures
        brushes_in_solid(m, mesh_step(m, level, st, x, y, z).brushes),
{
    let nx = mesh_step(m, level, st, x, y, z);
    if st.visited.contains((x, y, z)) || cell_at(m, x, y, z) is None {
        return;
    }
    let bl = cell_at(m, x, y, z).unwrap();
    let e = grown_box(m, level, st.visited, bl, x, y, z);
    let fresh = shape_brushes(shape_of(bl), x, y, z, e.0, e.1, e.2, bl.name);
    let n = st.brushes.len() as int;
    assert(nx.brushes == st.brushes + fresh);
    assert forall|i: int, p: (int, int, int)|
        0 <= i < nx.brushes.len() && #[trigger] strictly_inside(nx.brushes[i], p) implies point_in_solid(
        m,
        p,
        nx.brushes[i].texture,
    ) by {
        if i < n {
            assert(nx.brushes[i] == st.brushes[i]);
        } else {
            assert(nx.brushes[i] == fresh[i - n]);
            lemma_fresh_in_solid(m, level, st, x, y, z, i - n, p);
        }
    }
}

proof fn lemma_solid_scan(m: VoxelMapView, level: GreedyLevel, x: int, y: int, z: int)
    requires
        m.width > 0 && m.height > 0 && m.length > 0,
        scan_position(m, x, y, z),
    ensures
        brushes_in_solid(m, mesh_scan(m, level, y, z, x).brushes),
    decreases y, z, x,
{
    if x > 0 {
        lemma_solid_scan(m, level, x - 1, y, z);
        lemma_solid_step(m, level, mesh_scan(m, level, y, z, x - 1), x - 1, y, z);
    } else if z > 0 {
        lemma_solid_scan(m, level, m.width, y, z - 1);
    } else if y > 0 {
        lemma_solid_scan(m, level, 0, y - 1, m.length);
    }
}

/// Brushes fill only the solid parts of blocks of their texture: every
/// point strictly inside a brush lies, in the cell that holds it, in the
/// solid part of a block named like the brush's texture (a whole full
/// block, a slab's half, a panel's 4-unit middle, either panel of a cross).
pub proof fn law_brushes_stay_in_solid_parts(m: VoxelMapView, level: GreedyLevel)
    ensures
        brushes_in_solid(m, mesh(m, level)),
{
    if m.width > 0 && m.height > 0 && m.length > 0 {
        lemma_solid_scan(m, level, 0, m.height, 0);
    }
}

} // verus!
