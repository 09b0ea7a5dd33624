use voxel_octree::chunk::Chunk;
use voxel_octree::direction::Direction;
use voxel_octree::grid::Grid;
use voxel_octree::index_path::IndexPath;

#[test]
fn test_base_case() {
    let mut chunk: Chunk<u16> = Chunk::new();
    for i in 0..=7 {
        chunk.set(IndexPath::new().push(i.into()), i as u16);
    }
    let grid = Grid::new(&chunk, 1); // lod = 1 for the base case

    let mut iter = grid.iter();

    for (location, expected_value) in &[
        ((0, 0, 0), 0),
        ((0, 0, 1), 1),
        ((0, 1, 0), 2),
        ((0, 1, 1), 3),
        ((1, 0, 0), 4),
        ((1, 0, 1), 5),
        ((1, 1, 0), 6),
        ((1, 1, 1), 7),
    ] {
        let (coords, value) = iter.next().unwrap();
        assert_eq!(coords, *location);
        assert_eq!(*value, *expected_value);
    }
    assert!(iter.next().is_none());
}

#[test]
fn test_inductive_step() {
    let mut chunk: Chunk<u16> = Chunk::new();
    for i in 0..7 {
        chunk.set(IndexPath::new().push(i.into()), i as u16);
    }
    for i in 0..8 {
        chunk.set(IndexPath::new().push(i.into()).push(Direction::RearRightTop), i as u16 + 16);
    }
    let grid = Grid::new(&chunk, 2); // lod = 1 for the base case
    let mut iter = grid.iter();

    for i in &[
        0, 0, 4, 4, 0, 0, 4, 4, 2, 2, 6, 6, 2, 2, 6, 6, 0, 0, 4, 4, 0, 0, 4, 4, 2, 2, 6, 6, 2, 2,
        6, 6, 1, 1, 5, 5, 1, 1, 5, 5, 3, 3, 16, 17, 3, 3, 18, 19, 1, 1, 5, 5, 1, 1, 5, 5, 3, 3,
        20, 21, 3, 3, 22, 23,
    ] {
        assert_eq!(*iter.next().unwrap().1, *i);
    }
    assert!(iter.next().is_none());
}

#[test]
fn test_grouped_iterator() {
    let mut chunk: Chunk<u16> = Chunk::new();
    for i in 0..=7 {
        chunk.set(IndexPath::new().push(i.into()), i as u16);
    }
    let grid = Grid::new(&chunk, 1); // lod = 1 for the base case
    let mut iter = grid.iter_grouped();

    let (_location, mapper) = iter.next().unwrap();
    let mut cursor = mapper.enumerate();
    let mut seen = 0;
    while let Some((i, value)) = cursor.next() {
        assert_eq!(i, (**value as u8).into());
        seen += 1;
    }
    assert_eq!(seen, 8);

    assert!(iter.next().is_none());
}

#[test]
fn the_place_of_a_cell_is_z_or_y_shifted_or_x_shifted() {
    let mut chunk: Chunk<u16> = Chunk::new();
    for i in 0..7 {
        chunk.set(IndexPath::new().push(i.into()), i as u16);
    }
    for i in 0..8 {
        chunk.set(IndexPath::new().push(i.into()).push(Direction::FrontRightTop), i as u16 + 16);
    }
    let lod = 3;
    let grid = Grid::new(&chunk, lod);
    let mut cells = Vec::new();
    let mut iter = grid.iter();
    while let Some((coords, value)) = iter.next() {
        assert_eq!(cells.len(), coords.2 | (coords.1 << lod) | (coords.0 << (2 * lod)));
        cells.push(*value);
    }
    assert_eq!(cells.len(), 1 << (3 * lod));
    for x in 0..8 {
        for y in 0..8 {
            for z in 0..8 {
                assert_eq!(grid[(x, y, z)], cells[z | (y << lod) | (x << (2 * lod))]);
                assert_eq!(*grid.at((x, y, z)), grid[(x, y, z)]);
            }
        }
    }
}

#[test]
fn octants_without_children_fill_their_block() {
    let mut chunk: Chunk<u16> = Chunk::new();
    for i in 0..=7 {
        chunk.set(IndexPath::new().push(i.into()), i as u16 + 1);
    }
    let grid = Grid::new(&chunk, 3);
    for x in 0..8usize {
        for y in 0..8usize {
            for z in 0..8usize {
                let octant = (x / 4) + 2 * (y / 4) + 4 * (z / 4);
                assert_eq!(grid[(x, y, z)], octant as u16 + 1);
            }
        }
    }
}

#[test]
fn the_grouped_cursor_skips_cells_on_the_far_faces() {
    let chunk: Chunk<u16> = Chunk::new();
    let grid = Grid::new(&chunk, 2);
    let mut iter = grid.iter_grouped();
    let mut seen = Vec::new();
    while let Some((location, corners)) = iter.next() {
        for d in 0u8..8 {
            let (a, b, c) = Direction::from(d).breakdown();
            let corner =
                (location.0 + a as usize, location.1 + b as usize, location.2 + c as usize);
            assert!(std::ptr::eq(corners[Direction::from(d)], &grid[corner]));
        }
        seen.push(location);
    }
    let mut expected = Vec::new();
    for x in 0..3 {
        for y in 0..3 {
            for z in 0..3 {
                expected.push((x, y, z));
            }
        }
    }
    assert_eq!(seen, expected);
}
