use voxel_octree::direction::Direction;
use voxel_octree::index_path::IndexPath;
use voxel_octree::node::Node;

#[test]
fn test_sizes() {
    assert_eq!(std::mem::size_of::<Node::<u16>>(), 24);
    assert_eq!(std::mem::size_of::<Option<Node::<u16>>>(), 24);
}

#[test]
fn test_get_set() {
    let mut node: Node<u16> = Node::new_all(0);
    for dir in &Direction::map(|d| d).data {
        assert_eq!(*node.get(IndexPath::new().push(*dir)), 0);
    }
    for (index, dir) in Direction::map(|d| d).data.iter().enumerate() {
        let index_path = IndexPath::new().push(*dir).push(Direction::RearLeftTop);
        assert_eq!(*node.get(index_path), 0);
        node.set(index_path, 1);

        if index == 7 {
            assert!(node.children[Direction::RearLeftTop].is_none());
        } else {
            assert!(node.children[Direction::RearLeftTop].is_some());
        }
    }
}

#[test]
fn new_all_fills_every_octant() {
    let node: Node<u16> = Node::new_all(9);
    for d in 0u8..8 {
        assert_eq!(node.data[Direction::from(d)], 9);
        assert!(node.children[Direction::from(d)].is_none());
    }
}

#[test]
fn set_then_get_gives_the_value() {
    let mut node: Node<u16> = Node::new_all(0);
    let shallow = IndexPath::new().put(Direction::FrontRightTop);
    node.set(shallow, 3);
    assert_eq!(*node.get(shallow), 3);
    let deeper = IndexPath::new().put(Direction::RearLeftTop).put(Direction::FrontRightBottom);
    node.set(deeper, 4);
    assert_eq!(*node.get(deeper), 4);
    assert_eq!(*node.get(shallow), 3);
    // one level below an existing node
    let deepest = deeper.del().put(Direction::RearRightTop).put(Direction::FrontLeftBottom);
    node.set(deepest, 5);
    assert_eq!(*node.get(deepest), 5);
    assert_eq!(*node.get(deeper), 4);
}

#[test]
fn get_below_a_leaf_gives_the_leaf_value() {
    let mut node: Node<u16> = Node::new_all(0);
    node.set(IndexPath::new().put(Direction::RearLeftTop), 6);
    let below = IndexPath::new()
        .put(Direction::RearLeftTop)
        .put(Direction::FrontLeftBottom)
        .put(Direction::RearRightTop);
    assert_eq!(*node.get(below), 6);
}

#[test]
fn storing_the_value_that_is_there_creates_no_child() {
    let mut node: Node<u16> = Node::new_all(2);
    node.set(IndexPath::new().put(Direction::RearLeftTop).put(Direction::FrontLeftBottom), 2);
    for d in 0u8..8 {
        assert!(node.children[Direction::from(d)].is_none());
        assert_eq!(node.data[Direction::from(d)], 2);
    }
}

#[test]
fn a_child_left_uniform_is_merged_into_its_octant() {
    let mut node: Node<u16> = Node::new_all(0);
    for d in 0u8..8 {
        node.set(IndexPath::new().put(Direction::FrontLeftTop).put(d.into()), 8);
    }
    assert!(node.children[Direction::FrontLeftTop].is_none());
    assert_eq!(node.data[Direction::FrontLeftTop], 8);
}

#[test]
fn a_new_child_that_only_holds_a_deeper_child_is_merged_away() {
    // Two levels are missing below the root here. The node made for the
    // first of them still holds eight equal values when the value is
    // stored below it, so it is merged into its octant again.
    let mut node: Node<u16> = Node::new_all(0);
    let path = IndexPath::new()
        .put(Direction::FrontLeftTop)
        .put(Direction::RearLeftBottom)
        .put(Direction::FrontRightBottom);
    node.set(path, 1);
    assert!(node.children[Direction::FrontLeftTop].is_none());
    assert_eq!(*node.get(path), 0);
}

/// Panics where a node below `node` holds eight equal values.
fn assert_collapsed(node: &Node<u16>) {
    for d in 0u8..8 {
        if let Some(child) = &node.children[Direction::from(d)] {
            let first = child.data[Direction::FrontLeftBottom];
            assert!((0u8..8).any(|e| child.data[Direction::from(e)] != first));
            assert_collapsed(child);
        }
    }
}

#[test]
fn no_child_holds_eight_equal_values_after_sets() {
    let mut node: Node<u16> = Node::new_all(0);
    let mut seed: u32 = 12345;
    for _ in 0..500 {
        let mut path = IndexPath::new();
        seed = seed.wrapping_mul(1103515245).wrapping_add(12345);
        let depth = 1 + (seed >> 16) % 3;
        for _ in 0..depth {
            seed = seed.wrapping_mul(1103515245).wrapping_add(12345);
            path = path.put((((seed >> 16) % 8) as u8).into());
        }
        seed = seed.wrapping_mul(1103515245).wrapping_add(12345);
        node.set(path, ((seed >> 16) % 2) as u16);
        assert_collapsed(&node);
    }
}
