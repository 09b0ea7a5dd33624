use voxel_octree::chunk::Chunk;
use voxel_octree::direction::Direction;
use voxel_octree::index_path::IndexPath;
use voxel_octree::world::{ChunkCoordinates, World};
use voxel_octree::VoxelData;

#[derive(Clone, Copy, Default, PartialEq, Debug)]
struct Density(u16);

impl VoxelData for Density {
    fn is_empty(&self) -> bool {
        self.0 == 0
    }
}

#[test]
fn the_origin_chunk() {
    assert_eq!(ChunkCoordinates::new(), ChunkCoordinates(0, 0, 0));
}

#[test]
fn a_world_keeps_chunks_by_their_place() {
    let mut world: World<Density> = World::new();
    let here = ChunkCoordinates::new();
    let there = ChunkCoordinates(1, -2, 3);
    assert!(world.get_chunk_ref(&here).is_none());

    let mut chunk: Chunk<Density> = Chunk::new();
    chunk.set(IndexPath::new().put(Direction::RearLeftTop), Density(4));
    assert!(world.insert(here, chunk).is_none());
    assert!(world.insert(there, Chunk::new()).is_none());

    let found = world.get_chunk_ref(&here).unwrap();
    assert_eq!(*found.get(IndexPath::new().put(Direction::RearLeftTop)), Density(4));
    let other = world.get_chunk_ref(&there).unwrap();
    assert_eq!(*other.get(IndexPath::new().put(Direction::RearLeftTop)), Density(0));
    assert!(world.get_chunk_ref(&ChunkCoordinates(0, 0, 1)).is_none());

    // a second chunk at the same place takes the first one's place
    let old = world.insert(here, Chunk::new()).unwrap();
    assert_eq!(*old.get(IndexPath::new().put(Direction::RearLeftTop)), Density(4));
    let found = world.get_chunk_ref(&here).unwrap();
    assert_eq!(*found.get(IndexPath::new().put(Direction::RearLeftTop)), Density(0));
}
