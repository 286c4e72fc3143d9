use tile_render::sight::{is_within_square, point_has_los};
use tile_render::{OccupancyGrid, Point, SAMPLES_PER_TILE};

fn grid_from(width: u64, height: u64, text: &str) -> OccupancyGrid {
    let mut grid = OccupancyGrid::new(width, height).unwrap();
    grid.mark_from_text(text).unwrap();
    grid
}

fn at(x: i32, y: i32) -> Point {
    Point::new(x, y)
}

#[test]
fn the_sampling_density_is_twenty_to_the_tile() {
    assert_eq!(SAMPLES_PER_TILE, 20);
}

#[test]
fn points_have_exact_distances_and_products() {
    let a = at(3, -4);
    let b = at(-1, 8);
    assert_eq!(a.distance_squared(&b), 16 + 144);
    assert_eq!(b.distance_squared(&a), 160);
    assert_eq!(a.distance_squared(&a), 0);
    assert_eq!(a.dot(&b), -3 - 32);
    assert_eq!(at(i32::MIN, i32::MIN).dot(&at(i32::MIN, i32::MIN)), 1i128 << 63);
    assert_eq!(
        at(i32::MIN, i32::MIN).distance_squared(&at(i32::MAX, i32::MAX)),
        2 * (u32::MAX as u128) * (u32::MAX as u128)
    );
}

#[test]
fn is_near_compares_the_distance_with_the_tolerance() {
    let a = at(0, 0);
    assert!(a.is_near(&at(3, 4), 5));
    assert!(!a.is_near(&at(3, 4), 4));
    assert!(a.is_near(&a, 0));
    assert!(!a.is_near(&at(1, 0), 0));
    assert!(at(i32::MIN, 0).is_near(&at(i32::MAX, 0), u32::MAX));
    assert!(!at(i32::MIN, 1).is_near(&at(i32::MAX, 0), u32::MAX));
}

#[test]
fn a_position_lies_in_the_tile_that_contains_it() {
    let grid = grid_from(2, 2, "#.\n.#");
    assert!(is_within_square(&grid, 8, at(0, 0)));
    assert!(is_within_square(&grid, 8, at(7, 7)));
    assert!(!is_within_square(&grid, 8, at(8, 7)));
    assert!(!is_within_square(&grid, 8, at(7, 8)));
    assert!(is_within_square(&grid, 8, at(8, 8)));
    assert!(is_within_square(&grid, 8, at(15, 15)));
    assert!(!is_within_square(&grid, 8, at(16, 15)));
    assert!(!is_within_square(&grid, 8, at(i32::MAX, i32::MAX)));
    // with tiles of 16 pixels
    assert!(is_within_square(&grid, 16, at(15, 15)));
    assert!(!is_within_square(&grid, 16, at(16, 15)));
    assert!(is_within_square(&grid, 16, at(16, 16)));
}

#[test]
fn a_position_left_of_or_above_the_map_counts_for_the_first_column_or_row() {
    let grid = grid_from(2, 2, "#.\n..");
    assert!(is_within_square(&grid, 8, at(-1, 3)));
    assert!(is_within_square(&grid, 8, at(-100, -100)));
    assert!(is_within_square(&grid, 8, at(3, i32::MIN)));
    assert!(!is_within_square(&grid, 8, at(-1, 9)));
    assert!(!is_within_square(&grid, 8, at(9, -1)));
}

#[test]
fn a_position_is_in_sight_of_itself() {
    let grid = grid_from(2, 2, "#.\n..");
    for p in [at(4, 4), at(12, 12), at(0, 0), at(-5, 3), at(1000, 1000), at(i32::MIN, i32::MAX)] {
        assert!(point_has_los(&grid, 8, p, p));
    }
}

#[test]
fn sight_is_clear_where_no_tile_is_occupied() {
    let grid = OccupancyGrid::new(4, 4).unwrap();
    assert!(point_has_los(&grid, 8, at(0, 0), at(31, 31)));
    assert!(point_has_los(&grid, 8, at(31, 0), at(0, 31)));
    assert!(point_has_los(&grid, 8, at(-50, -50), at(500, 500)));
}

#[test]
fn sight_through_the_centre_of_an_occupied_tile_is_blocked() {
    let row = grid_from(3, 1, ".#.");
    assert!(!point_has_los(&row, 8, at(4, 4), at(20, 4)));
    assert!(!point_has_los(&row, 8, at(20, 4), at(4, 4)));
    let square = grid_from(3, 3, "...\n.#.\n...");
    assert!(!point_has_los(&square, 8, at(0, 0), at(24, 24)));
    assert!(!point_has_los(&square, 8, at(12, 0), at(12, 23)));
    assert!(!point_has_los(&square, 8, at(0, 12), at(23, 12)));
    assert!(!point_has_los(&square, 8, at(23, 1), at(1, 23)));
    // the centre at the very end of the sight line
    assert!(!point_has_los(&square, 8, at(0, 0), at(12, 12)));
    // with tiles of 24 pixels
    assert!(!point_has_los(&square, 24, at(0, 0), at(71, 71)));
}

#[test]
fn a_thin_wall_far_away_is_not_skipped() {
    let mut text = vec!['.'; 200];
    text[150] = '#';
    let text: String = text.into_iter().collect();
    let grid = grid_from(200, 1, &text);
    assert!(!point_has_los(&grid, 8, at(4, 4), at(1596, 4)));
    assert!(!point_has_los(&grid, 8, at(0, 0), at(1599, 7)));
    assert!(point_has_los(&grid, 8, at(4, 4), at(1199, 4)));
}

#[test]
fn sight_past_an_occupied_tile_is_clear() {
    let grid = grid_from(3, 2, ".#.\n...");
    assert!(point_has_los(&grid, 8, at(4, 12), at(20, 12)));
    assert!(point_has_los(&grid, 8, at(4, 4), at(4, 12)));
    // crosses the line between the rows at x = 6, left of the wall
    assert!(point_has_los(&grid, 8, at(4, 7), at(20, 15)));
    // enters the wall at its left edge, at y = 6.75
    assert!(!point_has_los(&grid, 8, at(4, 4), at(20, 15)));
}

#[test]
fn the_far_end_of_the_sight_line_is_not_sampled() {
    let grid = grid_from(2, 1, ".#");
    // the last sample lies at 4 + 4 * 19 / 20 = 7.8, left of the wall at 8
    assert!(point_has_los(&grid, 8, at(4, 4), at(8, 4)));
    // the last sample lies at 4 + 5 * 19 / 20 = 8.75, inside the wall
    assert!(!point_has_los(&grid, 8, at(4, 4), at(9, 4)));
}

#[test]
fn the_near_end_of_the_sight_line_is_sampled() {
    let grid = grid_from(2, 1, "#.");
    assert!(!point_has_los(&grid, 8, at(4, 4), at(12, 4)));
    assert!(!point_has_los(&grid, 8, at(7, 7), at(8, 7)));
}

#[test]
fn samples_left_of_the_map_count_for_the_first_column() {
    let wall_first = grid_from(2, 1, "#.");
    assert!(!point_has_los(&wall_first, 8, at(-40, 4), at(-8, 4)));
    let wall_second = grid_from(2, 1, ".#");
    assert!(point_has_los(&wall_second, 8, at(-40, 4), at(-8, 4)));
}

#[test]
fn sight_is_clear_where_the_box_between_the_ends_holds_no_wall() {
    let grid = grid_from(3, 3, "#..\n...\n..#");
    // the boxes between these ends touch the tiles (1, 0), (2, 0), (1, 1), (2, 1) only
    assert!(point_has_los(&grid, 8, at(8, 0), at(23, 15)));
    assert!(point_has_los(&grid, 8, at(23, 0), at(8, 15)));
    assert!(point_has_los(&grid, 8, at(23, 15), at(8, 0)));
    // and these the tiles (0, 1), (1, 1), (0, 2), (1, 2) only
    assert!(point_has_los(&grid, 8, at(0, 8), at(15, 23)));
    assert!(point_has_los(&grid, 8, at(15, 8), at(0, 23)));
}
