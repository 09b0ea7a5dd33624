use voxel_octree::bounds::{Bounds, BoundsSpacialRelationship};
use voxel_octree::direction::Direction;
use voxel_octree::grid::Grid;
use voxel_octree::node::Node;
use voxel_octree::world::ChunkCoordinates;
use voxel_octree::world_builder::{Isosurface, WorldBuilder};

#[test]
fn test_cube() {
    let world_builder: WorldBuilder<u32, _> =
        WorldBuilder::new(|_chunk: &ChunkCoordinates, bounds: &Bounds| {
            let target_bounds = Bounds::from_discrete_grid((32, 32, 32), 32, 128);
            match target_bounds.intersects(bounds) {
                BoundsSpacialRelationship::Disjoint => Isosurface::Uniform(0),
                BoundsSpacialRelationship::Contain => Isosurface::Uniform(1),
                BoundsSpacialRelationship::Intersect => Isosurface::Surface,
            }
        });
    let chunk = world_builder.build(&ChunkCoordinates::new());
    // the cube is one octant of one octant of the root
    let child = chunk.root.children[Direction::FrontLeftBottom].as_ref().unwrap();
    for d in 1u8..8 {
        assert!(chunk.root.children[Direction::from(d)].is_none());
        assert_eq!(chunk.root.data[Direction::from(d)], 0);
    }
    for d in 0u8..8 {
        assert!(child.children[Direction::from(d)].is_none());
        assert_eq!(child.data[Direction::from(d)], if d == 7 { 1 } else { 0 });
    }
}

#[test]
fn world_builder_cube_on_a_grid() {
    let world_builder: WorldBuilder<u32, _> =
        WorldBuilder::new(|_chunk: &ChunkCoordinates, bounds: &Bounds| {
            let target_bounds = Bounds::from_discrete_grid((32, 32, 32), 32, 128);
            match target_bounds.intersects(bounds) {
                BoundsSpacialRelationship::Disjoint => Isosurface::Uniform(0),
                BoundsSpacialRelationship::Contain => Isosurface::Uniform(1),
                BoundsSpacialRelationship::Intersect => Isosurface::Surface,
            }
        });
    let chunk = world_builder.build(&ChunkCoordinates::new());
    let grid = Grid::new(&chunk, 7);
    let mut iter = grid.iter();
    let mut cells = 0;
    while let Some(((x, y, z), value)) = iter.next() {
        let inside = (32..64).contains(&x) && (32..64).contains(&y) && (32..64).contains(&z);
        assert_eq!(*value, if inside { 1 } else { 0 });
        cells += 1;
    }
    assert_eq!(cells, 128 * 128 * 128);
}

#[test]
fn a_uniform_oracle_builds_a_flat_root() {
    let world_builder: WorldBuilder<u16, _> =
        WorldBuilder::new(|_chunk: &ChunkCoordinates, _bounds: &Bounds| Isosurface::Uniform(5));
    let chunk = world_builder.build(&ChunkCoordinates::new());
    for d in 0u8..8 {
        assert!(chunk.root.children[Direction::from(d)].is_none());
        assert_eq!(chunk.root.data[Direction::from(d)], 5);
    }
}

#[test]
fn an_oracle_that_never_settles_stops_at_the_deepest_level() {
    // Surface along the path of first octants, uniform everywhere else.
    let world_builder: WorldBuilder<u16, _> =
        WorldBuilder::new(|_chunk: &ChunkCoordinates, bounds: &Bounds| {
            if bounds.x == 0 && bounds.y == 0 && bounds.z == 0 {
                Isosurface::Surface
            } else {
                Isosurface::Uniform(3)
            }
        });
    let chunk = world_builder.build(&ChunkCoordinates::new());
    let mut node = &chunk.root;
    let mut depth = 0;
    while let Some(child) = node.children[Direction::FrontLeftBottom].as_ref() {
        for d in 1u8..8 {
            assert_eq!(node.data[Direction::from(d)], 3);
        }
        node = child;
        depth += 1;
    }
    assert_eq!(depth, 20);
    assert_eq!(node.data[Direction::FrontLeftBottom], 0);
    assert_eq!(node.data[Direction::RearRightTop], 3);
    // every path into the tree still fits an index path
    let mut iter = chunk.iter_leaf();
    let mut leaves = 0;
    while let Some(voxel) = iter.next() {
        assert!(voxel.get_index_path().len() <= 21);
        leaves += 1;
    }
    assert_eq!(leaves, 20 * 7 + 8);
}

#[test]
fn an_octant_is_settled_as_the_answer_asks() {
    let builder: WorldBuilder<u16, _> =
        WorldBuilder::new(|_chunk: &ChunkCoordinates, _bounds: &Bounds| Isosurface::Uniform(9));
    let here = ChunkCoordinates::new();
    let cube = Bounds::new().half(Direction::RearLeftTop);

    // a uniform answer takes the child away
    let mut node: Node<u16> = Node::new_all(1);
    node.children[Direction::RearLeftTop] = Some(Node::new_all(2));
    builder.settle(&here, &cube, &mut node, Direction::RearLeftTop, Isosurface::Uniform(4), 0, 0);
    assert!(node.children[Direction::RearLeftTop].is_none());
    assert_eq!(node.data.data, [1, 1, 1, 1, 1, 1, 4, 1]);

    // a surface builds a child by asking on
    let mut node: Node<u16> = Node::new_all(1);
    builder.settle(&here, &cube, &mut node, Direction::RearLeftTop, Isosurface::Surface, 0, 0);
    let child = node.children[Direction::RearLeftTop].as_ref().unwrap();
    assert_eq!(child.data.data, [9; 8]);
    assert_eq!(node.data.data, [1; 8]);
    for d in 0u8..8 {
        assert!(child.children[Direction::from(d)].is_none());
        assert_eq!(node.children[Direction::from(d)].is_some(), d == 6);
    }

    // at the deepest level a surface leaves the filling value
    let mut deep = Bounds::new();
    for _ in 0..21 {
        deep = deep.half(Direction::FrontLeftBottom);
    }
    let mut node: Node<u16> = Node::new_all(1);
    builder.settle(&here, &deep, &mut node, Direction::RearLeftTop, Isosurface::Surface, 20, 7);
    assert!(node.children[Direction::RearLeftTop].is_none());
    assert_eq!(node.data.data, [1, 1, 1, 1, 1, 1, 7, 1]);
}
