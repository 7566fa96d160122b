use heightmap_valley::{
    dist_sq, get_min_sqdist_from, integer_sqrt, max, min, nearest_by_full_scan, nearest_in_disc,
    DistanceField, Point, ValleyError,
};

#[test]
fn dist_sq_between_cells() {
    // width 10: index 23 is (3, 2), index 57 is (7, 5)
    assert_eq!(dist_sq(23, 57, 10), Some(16 + 9));
    assert_eq!(dist_sq(57, 23, 10), Some(25));
    assert_eq!(dist_sq(5, 5, 3), Some(0));
    assert_eq!(dist_sq(0, 4, 1), Some(16));
}

#[test]
fn dist_sq_overflow_is_reported() {
    // width 1: the row offset alone squares past usize::MAX
    assert_eq!(dist_sq(0, 1usize << 32, 1), None);
    assert_eq!(dist_sq(usize::MAX, 0, 1), None);
    let d = (1usize << 32) - 1;
    assert_eq!(dist_sq(0, d, 1), Some(d * d));
    // two offsets whose squares fit alone but not summed
    let w = 1usize << 32;
    let a = (3usize << 62) + (3usize << 30); // column 3 * 2^30, row 3 * 2^30
    assert_eq!(dist_sq(a, 0, w), None);
    assert_eq!(dist_sq(3usize << 30, 0, w), Some(9usize << 60));
}

#[test]
fn full_scan_on_a_column() {
    let grid = vec![true, true, false];
    assert_eq!(nearest_by_full_scan(0, &grid, 1), Ok(Some(4)));
    let grid = vec![true, true, true];
    assert_eq!(nearest_by_full_scan(0, &grid, 1), Ok(None));
}

#[test]
fn integer_sqrt_values() {
    assert_eq!(integer_sqrt(0), 0);
    assert_eq!(integer_sqrt(1), 1);
    assert_eq!(integer_sqrt(3), 1);
    assert_eq!(integer_sqrt(4), 2);
    assert_eq!(integer_sqrt(4899), 69);
    assert_eq!(integer_sqrt(4900), 70);
    assert_eq!(integer_sqrt(1 << 52), 1 << 26);
}

#[test]
fn point_coordinates() {
    let p = Point::new(3, 2, 10, 100);
    assert_eq!(p.index, 23);
    assert_eq!(p.x(), 3);
    assert_eq!(p.y(), 2);
}

#[test]
fn point_displacement() {
    let p = Point { index: 23, width: 10, area: 40 };
    assert_eq!(p.displace(1, 1).map(|q| q.index), Some(34));
    assert_eq!(p.displace(-3, -2).map(|q| q.index), Some(0));
    assert!(p.displace(-4, 0).is_none());
    assert!(p.displace(7, 0).is_none());
    assert!(p.displace(0, -3).is_none());
    assert!(p.displace(0, 2).is_none());
    assert_eq!(p.displace(6, 1).map(|q| q.index), Some(39));
    assert!(p.displace(isize::MAX, isize::MAX).is_none());
    assert!(p.displace(isize::MIN, 0).is_none());
}

#[test]
fn min_and_max_of_optional() {
    assert_eq!(min(None, 5), Some(5));
    assert_eq!(min(Some(3), 5), Some(3));
    assert_eq!(min(Some(7), 5), Some(5));
    assert_eq!(max(None, 5), Some(5));
    assert_eq!(max(Some(3), 5), Some(5));
    assert_eq!(max(Some(7), 5), Some(7));
}

#[test]
fn disc_search_finds_neighbour() {
    let mut grid = vec![true; 25];
    grid[0] = false;
    assert_eq!(nearest_in_disc(12, &grid, 5), Some(8));
    assert_eq!(get_min_sqdist_from(12, &grid, 5), Ok(Some(8)));
}

#[test]
fn disc_search_misses_far_white_pixel() {
    let n: usize = 100;
    let mut grid = vec![true; n];
    grid[n - 1] = false;
    // 99 columns away lies outside the disc of radius 70
    assert_eq!(nearest_in_disc(0, &grid, n), None);
    assert_eq!(nearest_by_full_scan(0, &grid, n), Ok(Some(99 * 99)));
    assert_eq!(get_min_sqdist_from(0, &grid, n), Ok(Some(99 * 99)));
    // exactly on the radius
    assert_eq!(nearest_in_disc(29, &grid, n), Some(70 * 70));
    assert_eq!(get_min_sqdist_from(28, &grid, n), Ok(Some(71 * 71)));
}

#[test]
fn disc_search_agrees_with_full_scan_within_radius() {
    let width: usize = 40;
    let height: usize = 30;
    let mut grid = vec![true; width * height];
    grid[5 * width + 7] = false;
    grid[22 * width + 31] = false;
    grid[13 * width + 2] = false;
    for i in 0..width * height {
        if grid[i] {
            let disc = nearest_in_disc(i, &grid, width);
            let scan = nearest_by_full_scan(i, &grid, width).unwrap();
            assert!(disc.is_some());
            assert_eq!(disc, scan);
            assert_eq!(get_min_sqdist_from(i, &grid, width), Ok(scan));
        }
    }
}

#[test]
fn disc_search_edge_wraparound_is_not_taken() {
    // width 4: the pixel left of column 0 is not the last pixel of the row above
    let grid = vec![true, true, true, false, true, true, true, true];
    assert_eq!(get_min_sqdist_from(4, &grid, 4), Ok(Some(10)));
}

#[test]
fn no_white_pixel_anywhere() {
    let grid = vec![true; 6];
    assert_eq!(get_min_sqdist_from(2, &grid, 3), Ok(None));
}

#[test]
fn distance_field_in_steps() {
    let grid = vec![false, true, true, true, false, true, true];
    let width: usize = 7;
    let mut field = DistanceField::new(grid.len());
    assert!(!field.is_done());
    while !field.is_done() {
        field = field.advance(&grid, width, 2).unwrap();
    }
    assert_eq!(field.next, 7);
    let (maxmin, v) = field.finish().unwrap();
    assert_eq!(maxmin, 4);
    assert_eq!(v, vec![None, Some(1), Some(4), Some(1), None, Some(1), Some(4)]);
}

#[test]
fn distance_field_step_reports_error() {
    let grid = vec![true; 4];
    let field = DistanceField::new(grid.len());
    assert_eq!(field.advance(&grid, 2, 3).err(), Some(ValleyError::NoWhitePixel));
    let grid = vec![false; 4];
    let field = DistanceField::new(grid.len()).advance(&grid, 2, 10).unwrap();
    assert_eq!(field.next, 4);
    assert_eq!(field.finish().err(), Some(ValleyError::NoBlackPixel));
}
