use png_defringe::buffer::PixelGrid;
use png_defringe::pixel::Pixel;

fn px(red: u8, green: u8, blue: u8, alpha: u8) -> Pixel {
    Pixel { red, green, blue, alpha }
}

#[test]
fn from_raw_takes_exactly_enough_samples() {
    let grid = PixelGrid::from_raw(2, 1, vec![1, 2, 3, 4, 5, 6, 7, 8]);
    assert!(grid.is_some());
    assert_eq!(grid.unwrap().dimensions(), (2, 1));
}

#[test]
fn from_raw_refuses_too_few_samples() {
    assert!(PixelGrid::from_raw(2, 1, vec![1, 2, 3, 4, 5, 6, 7]).is_none());
    assert!(PixelGrid::from_raw(1, 1, vec![]).is_none());
}

#[test]
fn from_raw_takes_more_samples_than_needed() {
    let grid = PixelGrid::from_raw(1, 1, vec![1, 2, 3, 4, 5, 6, 7, 8]).unwrap();
    assert_eq!(grid.dimensions(), (1, 1));
    assert_eq!(grid.get_pixel(0, 0), px(1, 2, 3, 4));
}

#[test]
fn from_raw_takes_an_empty_image() {
    let grid = PixelGrid::from_raw(0, 0, vec![]).unwrap();
    assert_eq!(grid.dimensions(), (0, 0));
    let wide = PixelGrid::from_raw(3, 0, vec![]).unwrap();
    assert_eq!(wide.dimensions(), (3, 0));
}

#[test]
fn pixels_lie_row_by_row() {
    let samples: Vec<u8> = (0u8..24).collect();
    let grid = PixelGrid::from_raw(3, 2, samples).unwrap();
    assert_eq!(grid.get_pixel(0, 0), px(0, 1, 2, 3));
    assert_eq!(grid.get_pixel(1, 0), px(4, 5, 6, 7));
    assert_eq!(grid.get_pixel(2, 0), px(8, 9, 10, 11));
    assert_eq!(grid.get_pixel(0, 1), px(12, 13, 14, 15));
    assert_eq!(grid.get_pixel(2, 1), px(20, 21, 22, 23));
}

#[test]
fn dimensions_are_width_then_height() {
    let grid = PixelGrid::from_raw(3, 2, vec![0; 24]).unwrap();
    assert_eq!(grid.dimensions(), (3, 2));
}

#[test]
fn put_pixel_changes_one_pixel_only() {
    let mut grid = PixelGrid::from_raw(2, 2, vec![0; 16]).unwrap();
    grid.put_pixel(1, 0, px(9, 8, 7, 6));
    assert_eq!(grid.dimensions(), (2, 2));
    assert_eq!(grid.get_pixel(1, 0), px(9, 8, 7, 6));
    assert_eq!(grid.get_pixel(0, 0), px(0, 0, 0, 0));
    assert_eq!(grid.get_pixel(0, 1), px(0, 0, 0, 0));
    assert_eq!(grid.get_pixel(1, 1), px(0, 0, 0, 0));
    assert_eq!(grid.into_raw(), vec![0, 0, 0, 0, 9, 8, 7, 6, 0, 0, 0, 0, 0, 0, 0, 0]);
}

#[test]
fn into_raw_gives_the_samples_back() {
    let samples: Vec<u8> = (10u8..26).collect();
    let grid = PixelGrid::from_raw(2, 2, samples.clone()).unwrap();
    assert_eq!(grid.into_raw(), samples);
}

#[test]
fn clone_is_equal_and_independent() {
    let mut grid = PixelGrid::from_raw(2, 1, vec![1, 2, 3, 4, 5, 6, 7, 8]).unwrap();
    let copy = grid.clone();
    assert_eq!(copy, grid);
    assert_eq!(copy.dimensions(), (2, 1));
    grid.put_pixel(0, 0, px(0, 0, 0, 0));
    assert_ne!(copy, grid);
    assert_eq!(copy.get_pixel(0, 0), px(1, 2, 3, 4));
    assert_eq!(copy.into_raw(), vec![1, 2, 3, 4, 5, 6, 7, 8]);
}
