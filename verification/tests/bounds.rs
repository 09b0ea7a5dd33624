use voxel_octree::bounds::{Bounds, BoundsSpacialRelationship, MAX_WIDTH};
use voxel_octree::direction::Direction;
use voxel_octree::index_path::IndexPath;

#[test]
fn the_unit_cube() {
    let unit = Bounds::new();
    assert_eq!((unit.x, unit.y, unit.z, unit.width), (0, 0, 0, 1 << 31));
    assert_eq!(MAX_WIDTH, 1 << 31);
}

#[test]
fn bounds_intersection() {
    let target = Bounds::from_discrete_grid((32, 32, 32), 32, 128);
    assert_eq!(target.intersects(&Bounds::new()), BoundsSpacialRelationship::Intersect);
    let inside = Bounds::from_discrete_grid((48, 32, 40), 8, 128);
    assert_eq!(target.intersects(&inside), BoundsSpacialRelationship::Contain);
    assert_eq!(target.intersects(&target), BoundsSpacialRelationship::Contain);
    let outside = Bounds::from_discrete_grid((0, 0, 0), 16, 128);
    assert_eq!(target.intersects(&outside), BoundsSpacialRelationship::Disjoint);
}

#[test]
fn cubes_that_touch_are_disjoint() {
    let a = Bounds::from_discrete_grid((0, 0, 0), 32, 128);
    let b = Bounds::from_discrete_grid((32, 0, 0), 32, 128);
    assert_eq!(a.intersects(&b), BoundsSpacialRelationship::Disjoint);
    assert_eq!(b.intersects(&a), BoundsSpacialRelationship::Disjoint);
}

#[test]
fn contain_is_not_symmetric() {
    let big = Bounds::from_discrete_grid((0, 0, 0), 64, 128);
    let small = Bounds::from_discrete_grid((32, 32, 32), 32, 128);
    assert_eq!(big.intersects(&small), BoundsSpacialRelationship::Contain);
    assert_eq!(small.intersects(&big), BoundsSpacialRelationship::Intersect);
}

#[test]
fn overlap_on_every_axis_without_containment_intersects() {
    let a = Bounds::from_discrete_grid((0, 0, 0), 64, 128);
    let b = Bounds::from_discrete_grid((32, 32, 32), 64, 128);
    assert_eq!(a.intersects(&b), BoundsSpacialRelationship::Intersect);
}

#[test]
fn from_discrete_grid_scales_to_fixed_point() {
    let b = Bounds::from_discrete_grid((32, 64, 96), 32, 128);
    assert_eq!((b.x, b.y, b.z, b.width), (1 << 29, 1 << 30, 3 << 29, 1 << 29));
    assert_eq!(b.get_position_with_gridsize(128), (32, 64, 96));
    assert_eq!(b.get_width_with_gridsize(128), 32);
    assert_eq!(b.get_position_with_gridsize(256), (64, 128, 192));
    assert_eq!(b.get_width_with_gridsize(256), 64);
    // a grid that does not divide the unit cube rounds down
    let odd = Bounds::from_discrete_grid((1, 2, 0), 1, 3);
    assert_eq!((odd.x, odd.y, odd.z, odd.width), (715827882, 1431655765, 0, 715827882));
}

#[test]
fn half_moves_to_the_octant() {
    let unit = Bounds::new();
    let h = unit.half(Direction::FrontRightBottom);
    assert_eq!((h.x, h.y, h.z, h.width), (1 << 30, 0, 0, 1 << 30));
    let h = unit.half(Direction::RearLeftBottom);
    assert_eq!((h.x, h.y, h.z, h.width), (0, 1 << 30, 0, 1 << 30));
    let h = unit.half(Direction::FrontLeftTop);
    assert_eq!((h.x, h.y, h.z, h.width), (0, 0, 1 << 30, 1 << 30));
    let h = unit.half(Direction::RearRightTop).half(Direction::FrontRightBottom);
    assert_eq!((h.x, h.y, h.z, h.width), (3 << 29, 1 << 30, 1 << 30, 1 << 29));
}

#[test]
fn merge_undoes_half() {
    let mut b = Bounds::new();
    for step in 0u8..21 {
        for d in 0u8..8 {
            assert_eq!(b.half(d.into()).merge(d.into()), b);
        }
        b = b.half(((step * 5) % 8).into());
    }
}

#[test]
fn bounds_of_a_path_are_the_halves_along_it() {
    assert_eq!(Bounds::from(IndexPath::new()), Bounds::new());
    let path = IndexPath::new()
        .put(Direction::RearRightTop)
        .put(Direction::FrontLeftBottom)
        .put(Direction::RearLeftTop);
    let expected = Bounds::new()
        .half(Direction::RearRightTop)
        .half(Direction::FrontLeftBottom)
        .half(Direction::RearLeftTop);
    assert_eq!(Bounds::from(path), expected);
    assert_eq!(
        (expected.x, expected.y, expected.z, expected.width),
        (1 << 30, (1 << 30) + (1 << 28), (1 << 30) + (1 << 28), 1 << 28)
    );
}

#[test]
fn bounds_read_as_corner_and_width() {
    assert_eq!(Bounds::new().to_string(), "Bounds(0, 0, 0)[256]");
    let b = Bounds::from_discrete_grid((32, 0, 64), 32, 128);
    assert_eq!(b.to_string(), "Bounds(64, 0, 128)[64]");
}
