//! Marching cubes over a chunk's grid.
//!
//! Every cell of the grid that has a neighbour towards greater `x`, `y` and
//! `z` starts a unit cube. Which of the cube's eight corners are empty picks
//! a row of the triangle table; each triangle of the row joins the midpoints
//! of three of the cube's edges.
use vstd::prelude::*;
use crate::chunk::Chunk;
use crate::direction::{Direction, DirectionMapper, Edge};
use crate::grid::{coords, interior, Grid};
use crate::mesher::mc_table::{is_triangle, triangle_edges, TriangleTable, END_OF_ROW};
use crate::mesher::{Mesh, Mesher};
use crate::world::{ChunkCoordinates, World};
use crate::VoxelData;

verus! {

/// The mesher that marches through the cubes of a chunk's grid.
pub struct MarchingCubesMesher<'a, T> {
    world: &'a World<T>,
    table: &'a TriangleTable,
}

/// Twice the midpoint of `edge` in the unit cube: the sum of its two
/// corners, whose coordinates are the bits of their octants' numbers, the
/// most significant as `x`.
pub open spec fn midpoint(edge: Edge) -> (u8, u8, u8) {
    let (a, b) = edge.endpoints();
    ((a.z_bit() + b.z_bit()) as u8, (a.y_bit() + b.y_bit()) as u8, (a.x_bit() + b.x_bit()) as u8)
}

/// The three vertices of the triangle that `entry` packs.
pub open spec fn triangle(entry: u16) -> Seq<(u8, u8, u8)> {
    let (e1, e2, e3) = triangle_edges(entry);
    seq![midpoint(e1), midpoint(e2), midpoint(e3)]
}

/// The vertices of the triangles of `row`, in the row's order.
pub open spec fn row_vertices(row: Seq<u16>) -> Seq<(u8, u8, u8)>
    decreases row.len(),
{
    if row.len() == 0 {
        Seq::empty()
    } else {
        row_vertices(row.drop_last()) + triangle(row.last())
    }
}

/// Whether `is_empty` can say of `v` that it is empty.
pub open spec fn empty<T: VoxelData>(v: T) -> bool {
    call_ensures(T::is_empty, (&v,), true)
}

/// Whether `is_empty` gives one answer for each value: it never says of
/// the same value both that it is empty and that it is not.
pub open spec fn decides_emptiness<T: VoxelData>() -> bool {
    forall|v: T, b: bool| #[trigger] call_ensures(T::is_empty, (&v,), b) ==> b == empty(v)
}

/// The corner for octant `d` of the unit cube that the cell at the place
/// `at` starts.
pub open spec fn corner<T>(grid: Grid<T>, at: nat, d: Direction) -> T {
    let (x, y, z) = coords(grid.lod(), at);
    grid.cell(x + d.z_bit(), y + d.y_bit(), z + d.x_bit())
}

/// The bits `from..8` of a case, as a number: bit `i` of the case is set
/// where the corner for octant `i` is not empty, as `empty_corners` says.
pub open spec fn case_number(empty_corners: Seq<bool>, from: nat) -> nat
    decreases 8 - from,
{
    if from >= 8 {
        0
    } else {
        (if empty_corners[from as int] {
            0nat
        } else {
            1nat
        }) + 2 * case_number(empty_corners, from + 1)
    }
}

/// Which corners of the unit cube that the cell at the place `at` starts
/// are empty, in the order of the octants' numbers.
pub open spec fn empty_corners<T: VoxelData>(grid: Grid<T>, at: nat) -> Seq<bool> {
    Seq::new(8, |i: int| empty(corner(grid, at, Direction::of(i as nat))))
}

/// The vertices that the cell at the place `at` gives: those of its case's
/// row, and none where the cell starts no unit cube.
pub open spec fn cell_vertices<T: VoxelData>(grid: Grid<T>, table: TriangleTable, at: nat) -> Seq<
    (u8, u8, u8),
> {
    if interior(grid.lod(), at) {
        row_vertices(table@[case_number(empty_corners(grid, at), 0) as int])
    } else {
        Seq::empty()
    }
}

/// The vertices that the cells at the places below `upto` give, in the
/// order of the array.
pub open spec fn mesh_vertices<T: VoxelData>(grid: Grid<T>, table: TriangleTable, upto: nat) -> Seq<
    (u8, u8, u8),
>
    decreases upto,
{
    if upto == 0 {
        Seq::empty()
    } else {
        mesh_vertices(grid, table, (upto - 1) as nat) + cell_vertices(
            grid,
            table,
            (upto - 1) as nat,
        )
    }
}

/// The indices of a mesh of `n` vertices: each vertex once, in order.
pub open spec fn counting(n: nat) -> Seq<u32> {
    Seq::new(n, |i: int| i as u32)
}

/// Whether `mesh` is the mesh of `grid`.
pub open spec fn meshes<T: VoxelData>(grid: Grid<T>, table: TriangleTable, mesh: Mesh) -> bool {
    &&& mesh.vertices@ == mesh_vertices(grid, table, grid.cells().len())
    &&& mesh.indices@ == counting(mesh.vertices@.len())
}

/// Whether `grid` lays out `chunk` at the level of detail `lod`.
pub open spec fn lays_out<T: Clone>(chunk: Chunk<T>, lod: u8, grid: Grid<T>) -> bool {
    &&& grid.wf()
    &&& grid.lod() == lod
    &&& forall|x: nat, y: nat, z: nat|
        grid.holds(x, y, z) ==> cloned(
            chunk.root.sample(lod as nat, x, y, z),
            #[trigger] grid.cell(x, y, z),
        )
}

/// A case is a number below 256.
proof fn lemma_case_bound(empty_corners: Seq<bool>, from: nat)
    requires
        from <= 8,
    ensures
        case_number(empty_corners, from) < vstd::arithmetic::power2::pow2((8 - from) as nat),
    decreases 8 - from,
{
    vstd::arithmetic::power2::lemma2_to64();
    if from < 8 {
        lemma_case_bound(empty_corners, from + 1);
        vstd::arithmetic::power2::lemma_pow2_unfold((8 - from) as nat);
    }
}

/// The cells between two places give no vertex where none of them starts a
/// unit cube.
proof fn lemma_skip<T: VoxelData>(grid: Grid<T>, table: TriangleTable, from: nat, to: nat)
    requires
        from <= to,
        forall|at: nat| from <= at < to ==> !#[trigger] interior(grid.lod(), at),
    ensures
        mesh_vertices(grid, table, to) == mesh_vertices(grid, table, from),
    decreases to - from,
{
    if from < to {
        lemma_skip(grid, table, from, (to - 1) as nat);
        assert(!interior(grid.lod(), (to - 1) as nat));
        assert(mesh_vertices(grid, table, (to - 1) as nat) + Seq::<(u8, u8, u8)>::empty()
            =~= mesh_vertices(grid, table, (to - 1) as nat));
    }
}

/// The cells below a place give no more vertices than the cells below a
/// later place.
pub proof fn lemma_mesh_grows<T: VoxelData>(grid: Grid<T>, table: TriangleTable, from: nat, to: nat)
    requires
        from <= to,
    ensures
        mesh_vertices(grid, table, from).len() <= mesh_vertices(grid, table, to).len(),
    decreases to - from,
{
    if from < to {
        lemma_mesh_grows(grid, table, from, (to - 1) as nat);
    }
}

/// A row gives three vertices for each of its triangles, and its first
/// triangles give the first of them.
pub proof fn lemma_row_vertices(row: Seq<u16>, k: int)
    requires
        0 <= k <= row.len(),
    ensures
        row_vertices(row.take(k)).len() == 3 * k,
        row_vertices(row.take(k)).len() <= row_vertices(row).len(),
        row_vertices(row).len() == 3 * row.len(),
        k < row.len() ==> row_vertices(row.take(k + 1)) == row_vertices(row.take(k)) + triangle(
            row[k],
        ),
    decreases row.len() - k,
{
    lemma_row_count(row.take(k));
    lemma_row_count(row);
    if k < row.len() {
        assert(row.take(k + 1).drop_last() =~= row.take(k));
        assert(row.take(k + 1).last() == row[k]);
    }
}

/// A row gives three vertices for each of its triangles.
proof fn lemma_row_count(row: Seq<u16>)
    ensures
        row_vertices(row).len() == 3 * row.len(),
    decreases row.len(),
{
    if row.len() > 0 {
        lemma_row_count(row.drop_last());
    }
}

/// A grid of at most `2^9` cells to the side gives fewer vertices than a
/// `u32` can count.
pub proof fn lemma_mesh_fits<T: VoxelData>(grid: Grid<T>, table: TriangleTable, upto: nat)
    requires
        table@.len() == 256,
        forall|i: int| 0 <= i < 256 ==> (#[trigger] table@[i]).len() <= 5,
    ensures
        mesh_vertices(grid, table, upto).len() <= 15 * upto,
        grid.lod() <= 9 && upto <= vstd::arithmetic::power2::pow2(3 * grid.lod())
            ==> mesh_vertices(grid, table, upto).len() <= u32::MAX,
    decreases upto,
{
    if upto > 0 {
        lemma_mesh_fits(grid, table, (upto - 1) as nat);
        let at = (upto - 1) as nat;
        if interior(grid.lod(), at) {
            lemma_case_bound(empty_corners(grid, at), 0);
            vstd::arithmetic::power2::lemma2_to64();
            let case = case_number(empty_corners(grid, at), 0) as int;
            lemma_row_count(table@[case]);
        }
    }
    if grid.lod() <= 9 {
        vstd::arithmetic::power2::lemma2_to64();
        if 3 * grid.lod() < 27 {
            vstd::arithmetic::power2::lemma_pow2_strictly_increases(3 * grid.lod(), 27);
        }
    }
}

/// Bit operations on a case while it is put together.
proof fn lemma_case_bits(index: u8)
    by (bit_vector)
    requires
        index < 128,
    ensures
        index << 1 == 2 * index,
        (index << 1) | 1 == 2 * index + 1,
{
}

/// Bit operations that take a triangle apart.
proof fn lemma_entry_bits(entry: u16)
    by (bit_vector)
    ensures
        entry >> 12 == entry / 4096,
        entry & 0b1111 == entry % 16,
        (entry >> 4) & 0b1111 == (entry / 16) % 16,
        entry >> 8 == entry / 256,
{
}

/// The case of a cell of whose corners `empty_corners` say whether they
/// are empty, in the order of the octants' numbers: bit `i` of the case is
/// set where the corner for octant `i` is not empty.
pub fn case_index(empty_corners: &[bool; 8]) -> (case: u8)
    ensures
        case == case_number(empty_corners@, 0),
{
    let mut edge_index: u8 = 0;
    let mut i: usize = 8;
    while i > 0
        invariant
            i <= 8,
            edge_index == case_number(empty_corners@, i as nat),
        decreases i,
    {
        i -= 1;
        proof {
            lemma_case_bound(empty_corners@, (i + 1) as nat);
            vstd::arithmetic::power2::lemma2_to64();
            if 0 < i {
                vstd::arithmetic::power2::lemma_pow2_strictly_increases((7 - i) as nat, 7);
            }
            lemma_case_bits(edge_index);
        }
        edge_index <<= 1;
        if !empty_corners[i] {
            edge_index |= 1;
        }
    }
    edge_index
}

impl<'a, T: VoxelData> MarchingCubesMesher<'a, T> {
    /// The world whose chunks the mesher builds.
    pub closed spec fn world(self) -> World<T> {
        *self.world
    }

    /// The table in which the mesher looks its triangles up.
    pub closed spec fn table(self) -> TriangleTable {
        *self.table
    }

    /// The case of the cell whose cube has the corners `cell`.
    fn case_of(cell: &DirectionMapper<&T>, Ghost(grid): Ghost<Grid<T>>, Ghost(at): Ghost<nat>) -> (case:
        u8)
        requires
            decides_emptiness::<T>(),
            forall|d: Direction| *#[trigger] cell[d] == corner(grid, at, d),
        ensures
            case == case_number(empty_corners(grid, at), 0),
    {
        let flags = [
            cell.data[0].is_empty(),
            cell.data[1].is_empty(),
            cell.data[2].is_empty(),
            cell.data[3].is_empty(),
            cell.data[4].is_empty(),
            cell.data[5].is_empty(),
            cell.data[6].is_empty(),
            cell.data[7].is_empty(),
        ];
        proof {
            assert forall|i: int| 0 <= i < 8 implies flags@[i] == #[trigger] empty_corners(
                grid,
                at,
            )[i] by {
                let d = Direction::of(i as nat);
                Direction::lemma_of(i as nat);
                assert(*cell.data[i] == *cell[d]);
            }
            assert(flags@ =~= empty_corners(grid, at));
        }
        case_index(&flags)
    }

    /// Twice the midpoint of `edge` in the unit cube.
    fn midpoint_of(edge: Edge) -> (vertex: (u8, u8, u8))
        ensures
            vertex == midpoint(edge),
    {
        let (v1, v2) = edge.vertices();
        proof {
            v1.lemma_ordinal();
            v2.lemma_ordinal();
        }
        let v1 = v1.breakdown();
        let v2 = v2.breakdown();
        (v1.0 + v2.0, v1.1 + v2.1, v1.2 + v2.2)
    }

    /// Adds the triangle that `entry` packs to `mesh`, whose vertices
    /// `count` counts.
    fn emit_triangle(mesh: &mut Mesh, count: &mut u32, entry: u16)
        requires
            is_triangle(entry),
            old(mesh).indices@ == counting(old(mesh).vertices@.len()),
            *old(count) == old(mesh).vertices@.len(),
            old(mesh).vertices@.len() + 3 <= u32::MAX,
        ensures
            final(mesh).vertices@ == old(mesh).vertices@ + triangle(entry),
            final(mesh).indices@ == counting(final(mesh).vertices@.len()),
            *final(count) == final(mesh).vertices@.len(),
    {
        proof {
            lemma_entry_bits(entry);
        }
        // Each element here represents an edge to connect.
        let edge1: Edge = Edge::from((entry & 0b1111) as u8);
        let edge2: Edge = Edge::from(((entry >> 4) & 0b1111) as u8);
        let edge3: Edge = Edge::from((entry >> 8) as u8);
        // We need to connect the midpoints of these three edges
        mesh.vertices.push(Self::midpoint_of(edge1));
        mesh.vertices.push(Self::midpoint_of(edge2));
        mesh.vertices.push(Self::midpoint_of(edge3));
        mesh.indices.push(*count);
        mesh.indices.push(*count + 1);
        mesh.indices.push(*count + 2);
        *count += 3;
        proof {
            assert(mesh.vertices@ =~= old(mesh).vertices@ + triangle(entry));
            assert(mesh.indices@ =~= counting(mesh.vertices@.len()));
        }
    }

    /// Adds the triangles of `row` to `mesh`, whose vertices `count`
    /// counts.
    fn emit_row(mesh: &mut Mesh, count: &mut u32, row: &[u16])
        requires
            forall|i: int| 0 <= i < row@.len() ==> is_triangle(#[trigger] row@[i]),
            old(mesh).indices@ == counting(old(mesh).vertices@.len()),
            *old(count) == old(mesh).vertices@.len(),
            old(mesh).vertices@.len() + row_vertices(row@).len() <= u32::MAX,
        ensures
            final(mesh).vertices@ == old(mesh).vertices@ + row_vertices(row@),
            final(mesh).indices@ == counting(final(mesh).vertices@.len()),
            *final(count) == final(mesh).vertices@.len(),
    {
        let ghost base = mesh.vertices@;
        proof {
            assert(row@.take(0) =~= Seq::<u16>::empty());
            assert(base + row_vertices(row@.take(0)) =~= base);
        }
        let mut k: usize = 0;
        while k < row.len()
            invariant
                k <= row@.len(),
                forall|i: int| 0 <= i < row@.len() ==> is_triangle(#[trigger] row@[i]),
                mesh.vertices@ == base + row_vertices(row@.take(k as int)),
                base.len() + row_vertices(row@).len() <= u32::MAX,
                mesh.indices@ == counting(mesh.vertices@.len()),
                *count == mesh.vertices@.len(),
            decreases row@.len() - k,
        {
            let edges = row[k];
            proof {
                lemma_row_vertices(row@, k as int);
                lemma_row_vertices(row@, k + 1);
            }
            let ghost before = mesh.vertices@;
            Self::emit_triangle(mesh, count, edges);
            proof {
                assert(before + triangle(edges) =~= base + (row_vertices(row@.take(k as int))
                    + triangle(edges)));
            }
            k += 1;
        }
        proof {
            assert(row@.take(row@.len() as int) =~= row@);
        }
    }

    /// The mesh of `grid`: for each cell that starts a unit cube, in the
    /// order of the array, the triangles of the row of `table` that the
    /// cell's case picks.
    pub fn mesh_grid(grid: &Grid<T>, table: &TriangleTable) -> (mesh: Mesh)
        requires
            grid.wf(),
            decides_emptiness::<T>(),
            mesh_vertices(*grid, *table, grid.cells().len()).len() <= u32::MAX,
        ensures
            meshes(*grid, *table, mesh),
    {
        let mut mesh = Mesh { vertices: Vec::new(), indices: Vec::new() };
        let mut count: u32 = 0;
        let ghost total = grid.cells().len();
        let mut cursor = grid.iter_grouped();
        proof {
            assert(mesh.indices@ =~= counting(0));
        }
        loop
            invariant_except_break
                cursor.position() <= total,
                mesh.vertices@ == mesh_vertices(*grid, *table, cursor.position()),
            invariant
                decides_emptiness::<T>(),
                cursor.grid() == *grid,
                total == grid.cells().len(),
                mesh_vertices(*grid, *table, total).len() <= u32::MAX,
                mesh.indices@ == counting(mesh.vertices@.len()),
                count == mesh.vertices@.len(),
            ensures
                meshes(*grid, *table, mesh),
            decreases total - cursor.position(),
        {
            let ghost start = cursor.position();
            match cursor.next() {
                None => {
                    proof {
                        let end = cursor.position();
                        // every cell from `start` on starts no cube
                        assert forall|at: nat| start <= at < total implies !#[trigger] interior(
                            grid.lod(),
                            at,
                        ) by {
                            if at + 1 < end {
                            } else {
                                assert(at + 1 == end);
                            }
                        }
                        lemma_skip(*grid, *table, start, total);
                    }
                    break ;
                },
                Some((position, cell)) => {
                    let ghost at = (cursor.position() - 1) as nat;
                    proof {
                        assert forall|a: nat| start <= a < at implies !#[trigger] interior(
                            grid.lod(),
                            a,
                        ) by {
                            assert(a + 1 < cursor.position());
                        }
                        lemma_skip(*grid, *table, start, at);
                        lemma_mesh_grows(*grid, *table, at + 1, total);
                        assert forall|d: Direction| *#[trigger] cell[d] == corner(*grid, at, d) by {}
                    }
                    let edge_index = Self::case_of(&cell, Ghost(*grid), Ghost(at));
                    let edge_bin = table.row(edge_index);
                    proof {
                        assert(cell_vertices(*grid, *table, at) == row_vertices(edge_bin@));
                    }
                    Self::emit_row(&mut mesh, &mut count, edge_bin);
                },
            }
        }
        mesh
    }
}

impl<'a, T: VoxelData> Mesher<'a, T> for MarchingCubesMesher<'a, T> {
    /// The mesher can build where `is_empty` gives one answer for each
    /// value, the world has a chunk at the place, the grid's size fits the
    /// machine, and no grid that lays out the chunk gives more vertices
    /// than a `u32` can count.
    open spec fn can_build(&self, chunk_location: ChunkCoordinates, lod: u8) -> bool {
        &&& decides_emptiness::<T>()
        &&& self.world()@.contains_key(chunk_location)
        &&& 1 <= lod
        &&& 3 * lod < usize::BITS
        &&& forall|grid: Grid<T>| #[trigger]
            lays_out(self.world()@[chunk_location], lod, grid) ==> mesh_vertices(
                grid,
                self.table(),
                grid.cells().len(),
            ).len() <= u32::MAX
    }

    fn new(world: &'a World<T>, table: &'a TriangleTable) -> (mesher: Self)
        ensures
            mesher.world() == *world,
            mesher.table() == *table,
    {
        MarchingCubesMesher { world, table }
    }

    /// The mesh of a grid of `2^lod` cells to the side that lays out the
    /// chunk at `chunk_location`.
    fn build(&self, chunk_location: &ChunkCoordinates, lod: u8) -> (mesh: Mesh)
        ensures
            exists|grid: Grid<T>| #[trigger]
                lays_out(self.world()@[*chunk_location], lod, grid) && meshes(
                    grid,
                    self.table(),
                    mesh,
                ),
    {
        let chunk = match self.world.get_chunk_ref(chunk_location) {
            Some(chunk) => chunk,
            None => vstd::pervasive::unreached(),
        };
        let grid = Grid::new(chunk, lod);
        proof {
            assert(lays_out(*chunk, lod, grid));
        }
        Self::mesh_grid(&grid, self.table)
    }
}

} // verus!
