use tile_render::{GridError, OccupancyGrid};

fn grid_from(width: u64, height: u64, text: &str) -> OccupancyGrid {
    let mut grid = OccupancyGrid::new(width, height).unwrap();
    grid.mark_from_text(text).unwrap();
    grid
}

fn cells(grid: &OccupancyGrid) -> Vec<Vec<bool>> {
    (0..grid.height())
        .map(|row| (0..grid.width()).map(|col| grid.is_occupied(col, row)).collect())
        .collect()
}

#[test]
fn a_new_grid_is_free_everywhere() {
    let grid = OccupancyGrid::new(3, 2).unwrap();
    assert_eq!(grid.width(), 3);
    assert_eq!(grid.height(), 2);
    assert_eq!(cells(&grid), vec![vec![false; 3]; 2]);
}

#[test]
fn a_grid_refuses_a_zero_side_and_a_size_beyond_the_address_range() {
    assert!(matches!(OccupancyGrid::new(0, 2), Err(GridError::ZeroDimension)));
    assert!(matches!(OccupancyGrid::new(2, 0), Err(GridError::ZeroDimension)));
    assert!(matches!(OccupancyGrid::new(u64::MAX, 2), Err(GridError::TooLarge)));
    assert!(matches!(OccupancyGrid::new(u64::MAX, u64::MAX), Err(GridError::TooLarge)));
}

#[test]
fn set_marks_one_tile() {
    let mut grid = OccupancyGrid::new(3, 2).unwrap();
    assert_eq!(grid.set(2, 1, true), Ok(()));
    assert_eq!(cells(&grid), vec![vec![false, false, false], vec![false, false, true]]);
    assert_eq!(grid.set(0, 0, true), Ok(()));
    assert_eq!(grid.set(2, 1, false), Ok(()));
    assert_eq!(cells(&grid), vec![vec![true, false, false], vec![false, false, false]]);
}

#[test]
fn set_outside_the_grid_is_an_error_and_changes_nothing() {
    let mut grid = OccupancyGrid::new(3, 2).unwrap();
    assert_eq!(grid.set(3, 0, true), Err(GridError::OutOfGrid));
    assert_eq!(grid.set(0, 2, true), Err(GridError::OutOfGrid));
    assert_eq!(grid.set(u64::MAX, u64::MAX, true), Err(GridError::OutOfGrid));
    assert_eq!(cells(&grid), vec![vec![false; 3]; 2]);
}

#[test]
fn a_position_outside_the_grid_is_free() {
    let grid = grid_from(2, 2, "##\n##");
    assert!(grid.is_occupied(1, 1));
    assert!(!grid.is_occupied(2, 0));
    assert!(!grid.is_occupied(0, 2));
    assert!(!grid.is_occupied(u64::MAX, 0));
    assert!(!grid.is_occupied(0, u64::MAX));
}

#[test]
fn each_neighbour_has_its_bit() {
    let around = [
        ((0u64, 0u64), 128u8),
        ((1, 0), 64),
        ((2, 0), 32),
        ((0, 1), 16),
        ((2, 1), 8),
        ((0, 2), 4),
        ((1, 2), 2),
        ((2, 2), 1),
    ];
    for ((col, row), bit) in around {
        let mut grid = OccupancyGrid::new(3, 3).unwrap();
        grid.set(col, row, true).unwrap();
        assert_eq!(grid.neighbour_mask(1, 1), bit);
    }
    let mut grid = OccupancyGrid::new(3, 3).unwrap();
    grid.set(1, 1, true).unwrap();
    assert_eq!(grid.neighbour_mask(1, 1), 0);
}

#[test]
fn the_mask_adds_up_the_bits_of_the_occupied_neighbours() {
    let grid = grid_from(3, 3, "###\n###\n###");
    assert_eq!(grid.neighbour_mask(1, 1), 255);
    let grid = grid_from(3, 3, "#.#\n.#.\n#.#");
    assert_eq!(grid.neighbour_mask(1, 1), 128 + 32 + 4 + 1);
    let grid = grid_from(3, 3, ".#.\n#.#\n.#.");
    assert_eq!(grid.neighbour_mask(1, 1), 64 + 16 + 8 + 2);
}

#[test]
fn neighbours_outside_the_grid_count_as_free() {
    let grid = grid_from(2, 2, "##\n##");
    // top-left tile: right, bottom, bottom-right
    assert_eq!(grid.neighbour_mask(0, 0), 8 + 2 + 1);
    // top-right tile: left, bottom-left, bottom
    assert_eq!(grid.neighbour_mask(1, 0), 16 + 4 + 2);
    // bottom-left tile: top, top-right, right
    assert_eq!(grid.neighbour_mask(0, 1), 64 + 32 + 8);
    // bottom-right tile: top-left, top, left
    assert_eq!(grid.neighbour_mask(1, 1), 128 + 64 + 16);
    let single = grid_from(1, 1, "#");
    assert_eq!(single.neighbour_mask(0, 0), 0);
}

#[test]
fn the_mask_of_a_position_beside_the_grid_sees_the_grid() {
    let grid = grid_from(2, 2, "##\n##");
    // right of the top row: left and bottom-left
    assert_eq!(grid.neighbour_mask(2, 0), 16 + 4);
    // below the bottom-right corner: top-left only
    assert_eq!(grid.neighbour_mask(2, 2), 128);
    assert_eq!(grid.neighbour_mask(3, 3), 0);
    assert_eq!(grid.neighbour_mask(u64::MAX, u64::MAX), 0);
    assert_eq!(grid.neighbour_mask(u64::MAX, 0), 0);
}

#[test]
fn text_marks_tiles_line_by_line() {
    let grid = grid_from(4, 3, "#  #\n ## \n#");
    assert_eq!(
        cells(&grid),
        vec![
            vec![true, false, false, true],
            vec![false, true, true, false],
            vec![true, false, false, false],
        ]
    );
}

#[test]
fn any_character_but_the_hash_leaves_a_tile_free() {
    let grid = grid_from(5, 2, ".x#\u{e9}#\n\t #");
    assert_eq!(
        cells(&grid),
        vec![vec![false, false, true, false, true], vec![false, false, true, false, false]]
    );
}

#[test]
fn text_may_end_lines_with_carriage_return_and_line_feed() {
    let grid = grid_from(3, 2, "#.#\r\n.#.\r\n");
    assert_eq!(cells(&grid), vec![vec![true, false, true], vec![false, true, false]]);
}

#[test]
fn text_adds_to_the_tiles_already_marked() {
    let mut grid = grid_from(3, 1, "#..");
    grid.mark_from_text("..#").unwrap();
    assert_eq!(cells(&grid), vec![vec![true, false, true]]);
    grid.mark_from_text("").unwrap();
    assert_eq!(cells(&grid), vec![vec![true, false, true]]);
}

#[test]
fn text_with_a_hash_outside_the_grid_is_refused_and_changes_nothing() {
    let mut grid = OccupancyGrid::new(3, 2).unwrap();
    assert_eq!(grid.mark_from_text("#..#"), Err(GridError::OutOfGrid));
    assert_eq!(cells(&grid), vec![vec![false; 3]; 2]);
    assert_eq!(grid.mark_from_text("#\n#\n#"), Err(GridError::OutOfGrid));
    assert_eq!(cells(&grid), vec![vec![false; 3]; 2]);
    // longer lines and more lines are fine as long as no hash stands outside
    assert_eq!(grid.mark_from_text("#.. ..\n\n\n.."), Ok(()));
    assert_eq!(cells(&grid), vec![vec![true, false, false], vec![false; 3]]);
}

#[test]
fn a_grid_is_well_formed() {
    assert!(OccupancyGrid::new(1, 1).unwrap().is_well_formed());
    assert!(grid_from(4, 3, "#  #\n ## \n#").is_well_formed());
}
