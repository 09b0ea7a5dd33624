use voxel_octree::bounds::{Bounds, BoundsSpacialRelationship};
use voxel_octree::chunk::Chunk;
use voxel_octree::direction::Direction;
use voxel_octree::index_path::IndexPath;
use voxel_octree::world::ChunkCoordinates;
use voxel_octree::world_builder::{Isosurface, WorldBuilder};

#[test]
fn test_leaf_iterator() {
    let mut chunk: Chunk<u16> = Chunk::new();
    for i in 0..7 {
        chunk.set(IndexPath::new().push(i.into()), i as u16);
    }
    for i in 0..7 {
        chunk.set(IndexPath::new().push(i.into()).push(Direction::RearRightTop), i as u16 + 16);
    }

    for i in 0..8 {
        chunk.set(
            IndexPath::new()
                .push(i.into())
                .push(Direction::RearRightTop)
                .push(Direction::RearRightTop),
            i as u16 + 32,
        );
    }

    let mut iter = chunk.iter_leaf();
    let mut i: usize = 0;
    while let Some(voxel) = iter.next() {
        if i < 7 {
            assert_eq!(*voxel.get_value(), i as u16);
            assert_eq!(voxel.get_index_path(), IndexPath::new().push((i as u8).into()));
        } else if i < 14 {
            assert_eq!(*voxel.get_value(), i as u16 + 9);
            assert_eq!(
                voxel.get_index_path(),
                IndexPath::new().push((i as u8 - 7).into()).push(Direction::RearRightTop)
            );
        } else {
            assert_eq!(*voxel.get_value(), i as u16 + 18);
            assert_eq!(
                voxel.get_index_path(),
                IndexPath::new()
                    .push((i as u8 - 14).into())
                    .push(Direction::RearRightTop)
                    .push(Direction::RearRightTop)
            );
        }
        i += 1;
    }
    assert_eq!(i, 7 + 7 + 8);
    assert!(iter.next().is_none());
}

#[test]
fn test_leaf_iterator_cube_generator() {
    let world_builder: WorldBuilder<u32, _> =
        WorldBuilder::new(|_chunk: &ChunkCoordinates, bounds: &Bounds| {
            let target_bounds = Bounds::from_discrete_grid((32, 32, 32), 32, 128);
            match target_bounds.intersects(bounds) {
                BoundsSpacialRelationship::Disjoint => Isosurface::Uniform(0),
                BoundsSpacialRelationship::Contain => Isosurface::Uniform(1),
                BoundsSpacialRelationship::Intersect => Isosurface::Surface,
            }
        });
    let chunk = world_builder.build(&ChunkCoordinates::new());
    let mut iter = chunk.iter_leaf();
    let mut leaves = 0;
    let mut inside = 0;
    while let Some(voxel) = iter.next() {
        leaves += 1;
        assert!(voxel.is_leaf());
        assert_eq!(*voxel.get_bounds(), Bounds::from(voxel.get_index_path()));
        if *voxel.get_value() == 1 {
            inside += 1;
            assert_eq!(voxel.get_bounds().get_position_with_gridsize(128), (32, 32, 32));
            assert_eq!(voxel.get_bounds().get_width_with_gridsize(128), 32);
        }
    }
    assert_eq!(leaves, 7 + 8);
    assert_eq!(inside, 1);
}

#[test]
fn a_new_chunk_has_eight_leaves() {
    let chunk: Chunk<u16> = Chunk::new();
    let mut iter = chunk.iter_leaf();
    for d in 0u8..8 {
        let voxel = iter.next().unwrap();
        assert_eq!(voxel.get_index_path(), IndexPath::new().put(d.into()));
        assert_eq!(*voxel.get_bounds(), Bounds::new().half(d.into()));
        assert_eq!(*voxel.get_value(), 0);
    }
    assert!(iter.next().is_none());
    assert!(iter.next().is_none());
}

#[test]
fn leaves_come_depth_first_with_paths_and_bounds_in_step() {
    let mut chunk: Chunk<u16> = Chunk::new();
    // a child in the middle, so that the walk comes back up and goes on
    chunk.set(IndexPath::new().put(Direction::RearRightBottom).put(Direction::FrontRightBottom), 7);
    let mut iter = chunk.iter_leaf();
    let mut seen = Vec::new();
    while let Some(voxel) = iter.next() {
        assert_eq!(*voxel.get_bounds(), Bounds::from(voxel.get_index_path()));
        seen.push((voxel.get_index_path().to_string(), *voxel.get_value()));
    }
    let mut expected = Vec::new();
    for d in 0..3 {
        expected.push((format!("(Root)/{}", d), 0));
    }
    for d in 0..8 {
        expected.push((format!("(Root)/3/{}", d), if d == 1 { 7 } else { 0 }));
    }
    for d in 4..8 {
        expected.push((format!("(Root)/{}", d), 0));
    }
    assert_eq!(seen, expected);
}
