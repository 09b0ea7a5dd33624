use voxel_octree::bounds::Bounds;
use voxel_octree::chunk::Chunk;
use voxel_octree::direction::Direction;
use voxel_octree::index_path::IndexPath;

#[test]
fn a_new_chunk_holds_the_default_everywhere() {
    let chunk: Chunk<u16> = Chunk::new();
    for d in 0u8..8 {
        assert_eq!(*chunk.get(IndexPath::new().push(d.into())), 0);
        assert!(chunk.root.children[Direction::from(d)].is_none());
    }
}

#[test]
fn node_collapse() {
    let mut chunk: Chunk<u16> = Chunk::new();
    let path = IndexPath::new().put(Direction::FrontLeftBottom).put(Direction::RearRightTop);
    chunk.set(path, 5);
    assert!(chunk.root.children[Direction::FrontLeftBottom].is_some());
    assert_eq!(*chunk.get(path), 5);
    chunk.set(path, 0);
    assert!(chunk.root.children[Direction::FrontLeftBottom].is_none());
    assert_eq!(chunk.root.data[Direction::FrontLeftBottom], 0);
}

#[test]
fn the_root_voxel_covers_the_unit_cube() {
    let mut chunk: Chunk<u16> = Chunk::new();
    let root = chunk.get_root();
    assert!(root.is_root());
    assert!(root.is_leaf());
    assert!(!root.is_subdivided());
    assert_eq!(*root.get_bounds(), Bounds::new());
    assert_eq!(root.get_index_path(), IndexPath::new());

    chunk.set(IndexPath::new().put(Direction::RearLeftTop).put(Direction::FrontRightBottom), 4);
    let root = chunk.get_root();
    assert!(!root.is_leaf());
    assert!(root.is_subdivided());
}

#[test]
fn voxels_descend_into_children() {
    let mut chunk: Chunk<u16> = Chunk::new();
    chunk.set(IndexPath::new().put(Direction::FrontRightTop), 2);
    chunk.set(IndexPath::new().put(Direction::RearLeftTop).put(Direction::FrontRightBottom), 4);
    let root = chunk.get_root();

    let leaf = root.get_child(Direction::FrontRightTop);
    assert!(!leaf.is_root());
    assert!(leaf.is_leaf());
    assert_eq!(*leaf.get_value(), 2);
    assert_eq!(leaf.get_index_path(), IndexPath::new().put(Direction::FrontRightTop));
    assert_eq!(*leaf.get_bounds(), Bounds::new().half(Direction::FrontRightTop));
    // below a leaf, the child is the leaf itself
    let same = leaf.get_child(Direction::RearRightTop);
    assert_eq!(same.get_index_path(), leaf.get_index_path());
    assert_eq!(*same.get_bounds(), *leaf.get_bounds());
    assert_eq!(*same.get_value(), 2);

    let inner = root.get_child(Direction::RearLeftTop);
    assert!(inner.is_subdivided());
    assert_eq!(*inner.get_value(), 0);
    let deep = inner.get_child(Direction::FrontRightBottom);
    assert!(deep.is_leaf());
    assert_eq!(*deep.get_value(), 4);
    assert_eq!(
        deep.get_index_path(),
        IndexPath::new().put(Direction::RearLeftTop).put(Direction::FrontRightBottom)
    );
    assert_eq!(*deep.get_bounds(), Bounds::from(deep.get_index_path()));
    let copy = deep.clone();
    assert_eq!(copy.get_index_path(), deep.get_index_path());
}
