use std::mem::size_of;
use voxel_octree::direction::Direction;
use voxel_octree::index_path::IndexPath;

#[test]
fn test_index_path() {
    assert_eq!(size_of::<IndexPath>(), size_of::<u64>());
    assert_eq!(size_of::<Option<IndexPath>>(), size_of::<u64>());

    let mut path = IndexPath::new();
    for i in 0..IndexPath::MAX_SIZE {
        assert_eq!(path.len(), i);
        path = path.push(Direction::FrontLeftBottom);
    }
    assert_eq!(path.len(), IndexPath::MAX_SIZE);
}

#[test]
fn test_iterator() {
    let mut index_path = IndexPath::new();
    for i in 0..7 {
        index_path = index_path.push(i.into());
    }
    for i in (0..7).rev() {
        let dir: Direction = i.into();
        assert_eq!(index_path.next(), Some(dir));
    }

    let mut index_path = IndexPath::new();
    for i in 0..7 {
        index_path = index_path.put(i.into());
    }
    for i in 0..7 {
        let dir: Direction = i.into();
        assert_eq!(index_path.next(), Some(dir));
    }

    assert_eq!(index_path.next(), None);
}

#[test]
fn empty_path_is_the_sentinel_alone() {
    let path = IndexPath::new();
    assert!(path.is_empty());
    assert!(!path.is_full());
    assert_eq!(u64::from(path), 1);
    assert_eq!(path.len(), 0);
    assert_eq!(path.count(), 0);
}

#[test]
fn push_shifts_the_word_and_ors_the_octant_in() {
    let path = IndexPath::new().push(Direction::RearRightTop).push(Direction::FrontRightBottom);
    assert_eq!(u64::from(path), 0b1_111_001);
    assert_eq!(path.peek(), Direction::FrontRightBottom);
    assert_eq!(path.get(), Direction::RearRightTop);
    assert_eq!(path.len(), 2);
}

#[test]
fn put_writes_the_octant_over_the_sentinel() {
    let path = IndexPath::new().put(Direction::RearRightTop).put(Direction::FrontRightBottom);
    assert_eq!(u64::from(path), 0b1_001_111);
    assert_eq!(path.peek(), Direction::RearRightTop);
    assert_eq!(path.get(), Direction::FrontRightBottom);
}

#[test]
fn pop_undoes_push() {
    let mut path = IndexPath::new();
    for i in 0u8..20 {
        for d in 0u8..8 {
            let pushed = path.push(d.into());
            assert_eq!(pushed.pop(), path);
            assert_eq!(pushed.peek(), Direction::from(d));
        }
        path = path.push((i % 8).into());
    }
}

#[test]
fn del_undoes_put() {
    let mut path = IndexPath::new();
    for i in 0u8..20 {
        for d in 0u8..8 {
            let longer = path.put(d.into());
            assert_eq!(longer.del(), path);
            assert_eq!(longer.get(), Direction::from(d));
            assert_eq!(longer.len(), i + 1);
        }
        path = path.put(((i * 3) % 8).into());
    }
}

#[test]
fn del_takes_the_deepest_octant_off() {
    let path = IndexPath::new()
        .put(Direction::RearLeftBottom)
        .put(Direction::FrontLeftTop)
        .put(Direction::RearRightTop);
    let shorter = path.del();
    assert_eq!(shorter, IndexPath::new().put(Direction::RearLeftBottom).put(Direction::FrontLeftTop));
    assert_eq!(u64::from(shorter), 0b1_100_010);
    assert_eq!(shorter.del().del(), IndexPath::new());
}

#[test]
fn len_follows_the_leading_zeros() {
    let mut path = IndexPath::new();
    for _ in 0..21 {
        let word = u64::from(path);
        assert_eq!(path.len() as u32, 21 - word.leading_zeros() / 3);
        assert_eq!(path.count(), path.len());
        if !path.is_full() {
            path = path.put(Direction::RearLeftTop);
        }
    }
}

#[test]
fn a_path_of_21_octants_is_full() {
    let mut path = IndexPath::new();
    for _ in 0..21 {
        assert!(!path.is_full());
        path = path.push(Direction::RearRightTop);
    }
    assert!(path.is_full());
    assert_eq!(u64::from(path), u64::MAX);
    assert_eq!(path.len(), 21);
    assert_eq!(path.get(), Direction::RearRightTop);
    assert_eq!(path.del().len(), 20);
}

#[test]
fn replace_swaps_the_octant_at_the_root_end() {
    let path = IndexPath::new().push(Direction::RearRightTop).push(Direction::FrontRightBottom);
    let replaced = path.replace(Direction::FrontLeftTop);
    assert_eq!(replaced, IndexPath::new().push(Direction::RearRightTop).push(Direction::FrontLeftTop));
    assert_eq!(u64::from(replaced), 0b1_111_100);
}

#[test]
fn next_leaves_an_empty_path_alone() {
    let mut path = IndexPath::new();
    assert_eq!(path.next(), None);
    assert_eq!(path, IndexPath::new());
}

#[test]
fn a_path_reads_as_root_and_octants() {
    assert_eq!(IndexPath::new().to_string(), "(Root)");
    let path = IndexPath::new()
        .put(Direction::RearRightTop)
        .put(Direction::FrontLeftBottom)
        .put(Direction::RearRightBottom);
    assert_eq!(path.to_string(), "(Root)/7/0/3");
}
