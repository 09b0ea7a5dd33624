use voxel_octree::chunk::Chunk;
use voxel_octree::direction::Direction;
use voxel_octree::grid::Grid;
use voxel_octree::index_path::IndexPath;
use voxel_octree::mesher::marching_cubes::{case_index, MarchingCubesMesher};
use voxel_octree::mesher::mc_table::TriangleTable;
use voxel_octree::mesher::Mesher;
use voxel_octree::world::{ChunkCoordinates, World};
use voxel_octree::VoxelData;

#[derive(Clone, Copy, Default, PartialEq, Debug)]
struct Solid(bool);

impl VoxelData for Solid {
    fn is_empty(&self) -> bool {
        !self.0
    }
}

/// A table with the triangles `rows` for the cases given and none for the
/// others.
fn table_with(rows: &[(usize, Vec<u16>)]) -> TriangleTable {
    let mut all = vec![vec![0xFFFFu16]; 256];
    for (case, row) in rows {
        all[*case] = row.clone();
    }
    TriangleTable::new(all).unwrap()
}

fn pack(e1: u16, e2: u16, e3: u16) -> u16 {
    e1 | (e2 << 4) | (e3 << 8)
}

#[test]
fn a_table_needs_256_valid_rows() {
    assert!(TriangleTable::new(vec![vec![0xFFFF]; 255]).is_none());
    assert!(TriangleTable::new(vec![vec![0xFFFF]; 257]).is_none());
    assert!(TriangleTable::new(vec![vec![]; 256]).is_some());
    // an edge above eleven
    let mut rows = vec![vec![0xFFFFu16]; 256];
    rows[3] = vec![pack(1, 12, 3), 0xFFFF];
    assert!(TriangleTable::new(rows).is_none());
    // the top four bits set
    let mut rows = vec![vec![0xFFFFu16]; 256];
    rows[3] = vec![0x1123];
    assert!(TriangleTable::new(rows).is_none());
    // six triangles
    let mut rows = vec![vec![0xFFFFu16]; 256];
    rows[3] = vec![pack(0, 1, 2); 6];
    assert!(TriangleTable::new(rows).is_none());
    // what follows the end of a row does not count
    let mut rows = vec![vec![0xFFFFu16]; 256];
    rows[3] = vec![pack(0, 1, 2), 0xFFFF, 0x7777];
    let table = TriangleTable::new(rows).unwrap();
    assert_eq!(table.row(3), &[pack(0, 1, 2)]);
    assert_eq!(table.row(4), &[] as &[u16]);
}

#[test]
fn one_corner_gives_one_triangle() {
    // only the corner of octant 0 is solid: case 1
    let table = table_with(&[(1, vec![pack(2, 3, 11), 0xFFFF])]);
    let mut chunk: Chunk<Solid> = Chunk::new();
    chunk.set(IndexPath::new().put(Direction::FrontLeftBottom), Solid(true));
    let mut world = World::new();
    world.insert(ChunkCoordinates::new(), chunk);
    let mesher = MarchingCubesMesher::new(&world, &table);
    let mesh = mesher.build(&ChunkCoordinates::new(), 1);
    // twice the midpoints of the edges LowerNear, LowerLeft and
    // VerticalFrontLeft
    assert_eq!(mesh.vertices, vec![(0, 0, 1), (0, 1, 0), (1, 0, 0)]);
    assert_eq!(mesh.indices, vec![0, 1, 2]);
}

#[test]
fn the_case_has_a_bit_for_each_solid_corner() {
    for solid in 0usize..256 {
        let table = table_with(&[(solid, vec![pack(0, 5, 10)])]);
        let mut chunk: Chunk<Solid> = Chunk::new();
        for d in 0u8..8 {
            chunk.set(IndexPath::new().put(d.into()), Solid(solid & (1 << d) != 0));
        }
        let grid = Grid::new(&chunk, 1);
        let mesh = MarchingCubesMesher::mesh_grid(&grid, &table);
        // twice the midpoints of LowerFar, UpperRight and VerticalFrontRight
        assert_eq!(mesh.vertices, vec![(0, 2, 1), (2, 1, 2), (1, 0, 2)]);
        assert_eq!(mesh.indices, vec![0, 1, 2]);
    }
}

#[test]
fn cells_give_their_triangles_in_the_order_of_the_grid() {
    let table = table_with(&[
        (0, vec![]),
        (255, vec![pack(4, 4, 4)]),
        (0xF0, vec![pack(0, 1, 2), pack(8, 9, 10)]),
    ]);
    // solid above z = 1/2, so that the cells at z = 1 have solid corners
    // on top only, and those at z = 2 have solid corners all around
    let mut chunk: Chunk<Solid> = Chunk::new();
    for d in 4u8..8 {
        chunk.set(IndexPath::new().put(d.into()), Solid(true));
    }
    let grid = Grid::new(&chunk, 2);
    let mesh = MarchingCubesMesher::mesh_grid(&grid, &table);
    let mut expected = Vec::new();
    for _x in 0..3 {
        for _y in 0..3 {
            // z = 0: no corner solid; z = 1: the four upper corners, which
            // are those whose octant has bit 0 set
            // z = 2: all corners
            expected.extend_from_slice(&[]);
            expected.extend_from_slice(&corner_case_vertices(&grid, &table));
            expected.extend_from_slice(&[(2, 2, 1), (2, 2, 1), (2, 2, 1)]);
        }
    }
    assert_eq!(mesh.vertices, expected);
    let indices: Vec<u32> = (0..expected.len() as u32).collect();
    assert_eq!(mesh.indices, indices);
}

/// The vertices that the cell (0, 0, 1) of `grid` gives.
fn corner_case_vertices(grid: &Grid<Solid>, table: &TriangleTable) -> Vec<(u8, u8, u8)> {
    let mut case = 0u8;
    for d in 0u8..8 {
        let (a, b, c) = Direction::from(d).breakdown();
        if grid[(a as usize, b as usize, 1 + c as usize)].0 {
            case |= 1 << d;
        }
    }
    let mut vertices = Vec::new();
    for entry in table.row(case) {
        for edge in [entry & 15, (entry >> 4) & 15, entry >> 8] {
            let (p, q) = voxel_octree::direction::Edge::from(edge as u8).vertices();
            let (p, q) = (p.breakdown(), q.breakdown());
            vertices.push((p.0 + q.0, p.1 + q.1, p.2 + q.2));
        }
    }
    vertices
}

#[test]
fn the_case_counts_the_corners_that_are_not_empty_as_bits() {
    assert_eq!(case_index(&[true; 8]), 0);
    assert_eq!(case_index(&[false; 8]), 255);
    assert_eq!(case_index(&[false, true, true, true, true, true, true, true]), 1);
    assert_eq!(case_index(&[true, true, true, true, true, true, true, false]), 128);
    assert_eq!(case_index(&[true, false, true, true, false, true, true, true]), 0b0001_0010);
}
