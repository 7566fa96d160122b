use heightmap_valley::{
    colorize, get_color_from_min_sqdist, get_maxmin_sqdist, heightmap_from_grid, Rgba8,
    ValleyError,
};

const WHITE: Rgba8 = Rgba8 { r: 255, g: 255, b: 255, a: 255 };

fn gray(v: u8) -> Rgba8 {
    Rgba8 { r: v, g: v, b: v, a: 255 }
}

#[test]
fn all_white_grid_has_no_black_pixel() {
    let grid = vec![false; 12];
    assert_eq!(heightmap_from_grid(&grid, 4), Err(ValleyError::NoBlackPixel));
    assert_eq!(get_maxmin_sqdist(&grid, 4), Err(ValleyError::NoBlackPixel));
}

#[test]
fn empty_grid_has_no_black_pixel() {
    let grid: Vec<bool> = Vec::new();
    assert_eq!(heightmap_from_grid(&grid, 3), Err(ValleyError::NoBlackPixel));
}

#[test]
fn all_black_grid_has_no_white_pixel() {
    let grid = vec![true; 9];
    assert_eq!(heightmap_from_grid(&grid, 3), Err(ValleyError::NoWhitePixel));
    assert_eq!(get_maxmin_sqdist(&grid, 3), Err(ValleyError::NoWhitePixel));
}

#[test]
fn large_all_black_grid_has_no_white_pixel() {
    let grid = vec![true; 200 * 3];
    assert_eq!(heightmap_from_grid(&grid, 200), Err(ValleyError::NoWhitePixel));
}

#[test]
fn center_black_in_three_by_three() {
    let mut grid = vec![false; 9];
    grid[4] = true;
    let (maxmin, field) = get_maxmin_sqdist(&grid, 3).unwrap();
    assert_eq!(maxmin, 1);
    for k in 0..9 {
        if k == 4 {
            assert_eq!(field[k], Some(1));
        } else {
            assert_eq!(field[k], None);
        }
    }
    let out = heightmap_from_grid(&grid, 3).unwrap();
    assert_eq!(out.len(), 9);
    for k in 0..9 {
        if k == 4 {
            assert_eq!(out[k], Rgba8 { r: 0, g: 0, b: 0, a: 255 });
        } else {
            assert_eq!(out[k], WHITE);
        }
    }
}

#[test]
fn single_row_with_one_white_pixel() {
    // one row of 200 pixels; only pixel 150 is white
    let n: usize = 200;
    let k: usize = 150;
    let mut grid = vec![true; n];
    grid[k] = false;
    let (maxmin, field) = get_maxmin_sqdist(&grid, n).unwrap();
    assert_eq!(field[0], Some(k * k));
    assert_eq!(field[1], Some((k - 1) * (k - 1)));
    assert_eq!(field[k - 1], Some(1));
    assert_eq!(field[k + 1], Some(1));
    assert_eq!(field[k], None);
    assert_eq!(field[n - 1], Some((n - 1 - k) * (n - 1 - k)));
    for i in 0..n {
        if i != k {
            let d = if i < k { k - i } else { i - k };
            assert_eq!(field[i], Some(d * d));
        }
    }
    assert_eq!(maxmin, k * k);
    let out = heightmap_from_grid(&grid, n).unwrap();
    assert_eq!(out[0], gray(0));
    assert_eq!(out[k], WHITE);
}

#[test]
fn single_column_with_one_white_pixel() {
    // width 1, so the pixels form one column
    let n: usize = 120;
    let k: usize = 100;
    let mut grid = vec![true; n];
    grid[k] = false;
    let (maxmin, field) = get_maxmin_sqdist(&grid, 1).unwrap();
    assert_eq!(field[0], Some(k * k));
    assert_eq!(field[1], Some((k - 1) * (k - 1)));
    assert_eq!(field[n - 1], Some(19 * 19));
    assert_eq!(maxmin, k * k);
}

#[test]
fn single_black_pixel_beside_white() {
    let grid = vec![true, false];
    let out = heightmap_from_grid(&grid, 2).unwrap();
    assert_eq!(out, vec![gray(0), WHITE]);
}

#[test]
fn white_pixels_stay_white() {
    // a 5x4 grid with a black rectangle in the middle
    let width: usize = 5;
    let mut grid = vec![false; 20];
    for y in 1..3 {
        for x in 1..4 {
            grid[y * width + x] = true;
        }
    }
    let out = heightmap_from_grid(&grid, width).unwrap();
    for k in 0..20 {
        if !grid[k] {
            assert_eq!(out[k], WHITE);
        } else {
            assert_eq!(out[k], gray(0));
        }
    }
}

#[test]
fn gray_levels_follow_rounded_ratio() {
    // one row: white, then five black pixels
    let grid = vec![false, true, true, true, true, true];
    let (maxmin, field) = get_maxmin_sqdist(&grid, 6).unwrap();
    assert_eq!(maxmin, 25);
    assert_eq!(field[1..].to_vec(), vec![Some(1), Some(4), Some(9), Some(16), Some(25)]);
    let out = heightmap_from_grid(&grid, 6).unwrap();
    // 255 - round(d / 25 * 255): 1 -> 10, 4 -> 41, 9 -> 92, 16 -> 163, 25 -> 255
    assert_eq!(out, vec![WHITE, gray(245), gray(214), gray(163), gray(92), gray(0)]);
}

#[test]
fn conversion_is_deterministic() {
    let width: usize = 7;
    let grid: Vec<bool> = (0..35).map(|k| k % 3 != 0 || k % 7 == 3).collect();
    let first = heightmap_from_grid(&grid, width);
    let second = heightmap_from_grid(&grid, width);
    assert_eq!(first, second);
    assert!(first.is_ok());
}

#[test]
fn color_of_white_entry() {
    assert_eq!(get_color_from_min_sqdist(None, 7), Ok(WHITE));
    assert_eq!(get_color_from_min_sqdist(None, 0), Ok(WHITE));
}

#[test]
fn color_of_black_entries() {
    assert_eq!(get_color_from_min_sqdist(Some(7), 7), Ok(gray(0)));
    assert_eq!(get_color_from_min_sqdist(Some(0), 7), Ok(gray(255)));
    // 1 / 2 * 255 = 127.5 rounds to 128
    assert_eq!(get_color_from_min_sqdist(Some(1), 2), Ok(gray(127)));
    // 1 / 3 * 255 = 85
    assert_eq!(get_color_from_min_sqdist(Some(1), 3), Ok(gray(170)));
    assert_eq!(get_color_from_min_sqdist(Some(usize::MAX), usize::MAX), Ok(gray(0)));
}

#[test]
fn color_out_of_range_is_invalid_height() {
    assert_eq!(get_color_from_min_sqdist(Some(2), 1), Err(ValleyError::InvalidHeight));
    assert_eq!(get_color_from_min_sqdist(Some(0), 0), Err(ValleyError::InvalidHeight));
    // 1001 / 1000 * 255 = 255.255 still rounds to 255
    assert_eq!(get_color_from_min_sqdist(Some(1001), 1000), Ok(gray(0)));
}

#[test]
fn colorize_stops_at_invalid_height() {
    let field = vec![None, Some(1), Some(5)];
    assert_eq!(colorize(&field, 2), Err(ValleyError::InvalidHeight));
    let field = vec![None, Some(1), Some(2)];
    assert_eq!(colorize(&field, 2), Ok(vec![WHITE, gray(127), gray(0)]));
}

#[test]
fn error_descriptions() {
    assert_eq!(ValleyError::NoWhitePixel.description(), "no white pixel");
    assert_eq!(ValleyError::NoBlackPixel.description(), "no black pixel");
    assert_eq!(
        ValleyError::Overflow.description(),
        "image too big; integer overflow occurred while calculating distance."
    );
    assert_eq!(ValleyError::InvalidHeight.description(), "normalized height out of range");
}
