use voxel_octree::direction::{Direction, DirectionMapper, Edge};

const ALL: [Direction; 8] = [
    Direction::FrontLeftBottom,
    Direction::FrontRightBottom,
    Direction::RearLeftBottom,
    Direction::RearRightBottom,
    Direction::FrontLeftTop,
    Direction::FrontRightTop,
    Direction::RearLeftTop,
    Direction::RearRightTop,
];

const EDGES: [Edge; 12] = [
    Edge::LowerFar,
    Edge::LowerRight,
    Edge::LowerNear,
    Edge::LowerLeft,
    Edge::UpperFar,
    Edge::UpperRight,
    Edge::UpperNear,
    Edge::UpperLeft,
    Edge::VerticalRearLeft,
    Edge::VerticalRearRight,
    Edge::VerticalFrontRight,
    Edge::VerticalFrontLeft,
];

#[test]
fn octants_are_numbered_in_order() {
    for (i, d) in ALL.iter().enumerate() {
        assert_eq!(d.index(), i as u8);
        assert_eq!(Direction::from(i as u8), *d);
    }
}

#[test]
fn from_masks_the_low_three_bits() {
    assert_eq!(Direction::from(9), Direction::FrontRightBottom);
    assert_eq!(Direction::from(0xff), Direction::RearRightTop);
    assert_eq!(Direction::from(8), Direction::FrontLeftBottom);
}

#[test]
fn the_bits_say_which_half() {
    for d in ALL {
        let n = d.index();
        assert_eq!(d.is_max_x(), n & 1 != 0);
        assert_eq!(d.is_min_x(), n & 1 == 0);
        assert_eq!(d.is_max_y(), n & 2 != 0);
        assert_eq!(d.is_min_y(), n & 2 == 0);
        assert_eq!(d.is_max_z(), n & 4 != 0);
        assert_eq!(d.is_min_z(), n & 4 == 0);
    }
    assert!(Direction::FrontRightBottom.is_max_x());
    assert!(Direction::RearLeftBottom.is_max_y());
    assert!(Direction::FrontLeftTop.is_max_z());
}

#[test]
fn opposite_of_opposite() {
    for d in ALL {
        assert_eq!(d.opposite().index(), 7 - d.index());
        assert_eq!(d.opposite().opposite(), d);
    }
    assert_eq!(Direction::FrontLeftBottom.opposite(), Direction::RearRightTop);
}

#[test]
fn breakdown_gives_the_bits_most_significant_first() {
    assert_eq!(Direction::FrontLeftBottom.breakdown(), (0, 0, 0));
    assert_eq!(Direction::FrontRightBottom.breakdown(), (0, 0, 1));
    assert_eq!(Direction::RearLeftBottom.breakdown(), (0, 1, 0));
    assert_eq!(Direction::FrontLeftTop.breakdown(), (1, 0, 0));
    assert_eq!(Direction::RearRightTop.breakdown(), (1, 1, 1));
    for d in ALL {
        let (a, b, c) = d.breakdown();
        assert_eq!(4 * a + 2 * b + c, d.index());
    }
}

#[test]
fn map_calls_once_for_each_octant() {
    let mapper = Direction::map(|d| d.index() as u32 * 10);
    for d in ALL {
        assert_eq!(mapper[d], d.index() as u32 * 10);
    }
    assert_eq!(mapper.data, [0, 10, 20, 30, 40, 50, 60, 70]);
    assert_eq!(mapper.iter().copied().collect::<Vec<u32>>(), vec![0, 10, 20, 30, 40, 50, 60, 70]);
    assert_eq!(mapper.iter().rev().next(), Some(&70));
}

#[test]
fn a_mapper_is_read_and_written_by_octant() {
    let mut mapper = DirectionMapper::new([0u8; 8]);
    mapper[Direction::RearLeftTop] = 5;
    assert_eq!(mapper[Direction::RearLeftTop], 5);
    assert_eq!(mapper.data, [0, 0, 0, 0, 0, 0, 5, 0]);
}

#[test]
fn enumerate_pairs_octants_with_values() {
    let mapper = DirectionMapper::new([10u8, 11, 12, 13, 14, 15, 16, 17]);
    let mut cursor = mapper.enumerate();
    for d in ALL {
        assert_eq!(cursor.next(), Some((d, &(10 + d.index()))));
    }
    assert_eq!(cursor.next(), None);
    assert_eq!(cursor.next(), None);
}

#[test]
fn enumerate_mut_lets_each_slot_be_written() {
    let mut mapper = DirectionMapper::new([0u8; 8]);
    let mut cursor = mapper.enumerate_mut();
    let mut seen = 0;
    while let Some((d, slot)) = cursor.next() {
        assert_eq!(d.index(), seen);
        *slot = d.index() * 2;
        seen += 1;
    }
    assert_eq!(seen, 8);
    assert_eq!(mapper.data, [0, 2, 4, 6, 8, 10, 12, 14]);
}

#[test]
fn edges_are_numbered_in_order() {
    for (i, e) in EDGES.iter().enumerate() {
        assert_eq!(Edge::from(i as u8), *e);
    }
}

#[test]
fn the_corners_of_an_edge_differ_in_one_bit() {
    for e in EDGES {
        let (a, b) = e.vertices();
        assert_eq!((a.index() ^ b.index()).count_ones(), 1);
    }
    assert_eq!(
        Edge::LowerFar.vertices(),
        (Direction::RearLeftBottom, Direction::RearRightBottom)
    );
    assert_eq!(
        Edge::VerticalFrontLeft.vertices(),
        (Direction::FrontLeftBottom, Direction::FrontLeftTop)
    );
}
