use png_defringe::buffer::PixelGrid;
use png_defringe::interpolate::{
    get_neighbouring_pixels, propagate_pass, recolor_interpolated, restore_alpha,
};
use png_defringe::pixel::Pixel;

fn rgba(red: u8, green: u8, blue: u8, alpha: u8) -> Pixel {
    Pixel { red, green, blue, alpha }
}

fn numbered(width: u32, height: u32) -> PixelGrid {
    let mut samples = Vec::new();
    for i in 0..(width * height) {
        samples.extend_from_slice(&[i as u8, 0, 0, 255]);
    }
    PixelGrid::from_raw(width, height, samples).unwrap()
}

#[test]
fn a_hole_takes_the_colour_around_it() {
    let mut samples = Vec::new();
    for i in 0..9 {
        if i == 4 {
            samples.extend_from_slice(&[0, 0, 0, 0]);
        } else {
            samples.extend_from_slice(&[100, 150, 200, 255]);
        }
    }
    let mut grid = PixelGrid::from_raw(3, 3, samples).unwrap();
    recolor_interpolated(&mut grid);
    assert_eq!(grid.get_pixel(1, 1), rgba(100, 150, 200, 0));
    for y in 0..3 {
        for x in 0..3 {
            if (x, y) != (1, 1) {
                assert_eq!(grid.get_pixel(x, y), rgba(100, 150, 200, 255));
            }
        }
    }
}

#[test]
fn a_single_transparent_pixel_becomes_black_and_keeps_its_alpha() {
    let mut grid = PixelGrid::from_raw(1, 1, vec![0, 0, 0, 0]).unwrap();
    recolor_interpolated(&mut grid);
    assert_eq!(grid.get_pixel(0, 0), rgba(0, 0, 0, 0));
    let mut tinted = PixelGrid::from_raw(1, 1, vec![7, 8, 9, 77]).unwrap();
    recolor_interpolated(&mut tinted);
    assert_eq!(tinted.get_pixel(0, 0), rgba(0, 0, 0, 77));
}

#[test]
fn a_colour_spreads_along_a_row() {
    let samples = vec![10, 20, 30, 255, 1, 1, 1, 0, 2, 2, 2, 100, 3, 3, 3, 254];
    let mut grid = PixelGrid::from_raw(4, 1, samples).unwrap();
    recolor_interpolated(&mut grid);
    assert_eq!(grid.into_raw(), vec![10, 20, 30, 255, 10, 20, 30, 0, 10, 20, 30, 100, 10, 20, 30, 254]);
}

#[test]
fn a_colour_spreads_one_pixel_in_each_pass() {
    let samples = vec![10, 20, 30, 255, 1, 1, 1, 0, 2, 2, 2, 100, 3, 3, 3, 254];
    let start = PixelGrid::from_raw(4, 1, samples).unwrap();
    let mut first = start.clone();
    assert!(propagate_pass(&start, &mut first));
    assert_eq!(first.clone().into_raw(), vec![10, 20, 30, 255, 10, 20, 30, 255, 0, 0, 0, 0, 0, 0, 0, 0]);
    let mut second = first.clone();
    assert!(propagate_pass(&first, &mut second));
    assert_eq!(
        second.clone().into_raw(),
        vec![10, 20, 30, 255, 10, 20, 30, 255, 10, 20, 30, 255, 0, 0, 0, 0]
    );
    let mut third = second.clone();
    assert!(propagate_pass(&second, &mut third));
    assert_eq!(
        third.clone().into_raw(),
        vec![10, 20, 30, 255, 10, 20, 30, 255, 10, 20, 30, 255, 10, 20, 30, 255]
    );
    let mut fourth = third.clone();
    assert!(!propagate_pass(&third, &mut fourth));
    assert_eq!(fourth, third);
}

#[test]
fn a_pass_reads_the_image_as_it_was() {
    // The middle pixel must not see the colour that the pass gives its left
    // neighbour: only the right end is opaque.
    let samples = vec![0, 0, 0, 0, 0, 0, 0, 0, 200, 100, 50, 255];
    let start = PixelGrid::from_raw(3, 1, samples).unwrap();
    let mut next = PixelGrid::from_raw(3, 1, vec![9; 12]).unwrap();
    assert!(propagate_pass(&start, &mut next));
    assert_eq!(next.into_raw(), vec![0, 0, 0, 0, 200, 100, 50, 255, 200, 100, 50, 255]);
}

#[test]
fn a_pass_over_a_transparent_image_makes_it_opaque_black() {
    let start = PixelGrid::from_raw(2, 2, vec![5, 6, 7, 0, 1, 2, 3, 100, 9, 9, 9, 254, 0, 0, 0, 1]).unwrap();
    let mut next = start.clone();
    assert!(propagate_pass(&start, &mut next));
    assert_eq!(next.into_raw(), vec![0, 0, 0, 255, 0, 0, 0, 255, 0, 0, 0, 255, 0, 0, 0, 255]);
}

#[test]
fn a_transparent_image_becomes_black_with_its_alpha() {
    let samples = vec![5, 6, 7, 0, 1, 2, 3, 100, 9, 9, 9, 254, 0, 0, 0, 1];
    let mut grid = PixelGrid::from_raw(2, 2, samples).unwrap();
    recolor_interpolated(&mut grid);
    assert_eq!(grid.into_raw(), vec![0, 0, 0, 0, 0, 0, 0, 100, 0, 0, 0, 254, 0, 0, 0, 1]);
}

#[test]
fn an_opaque_image_stays_as_it_is() {
    let grid = numbered(3, 2);
    let mut result = grid.clone();
    recolor_interpolated(&mut result);
    assert_eq!(result, grid);
}

#[test]
fn an_empty_image_stays_empty() {
    let mut grid = PixelGrid::from_raw(0, 0, vec![]).unwrap();
    recolor_interpolated(&mut grid);
    assert_eq!(grid.dimensions(), (0, 0));
    let mut flat = PixelGrid::from_raw(0, 4, vec![]).unwrap();
    recolor_interpolated(&mut flat);
    assert_eq!(flat.dimensions(), (0, 4));
}

#[test]
fn the_mean_of_the_neighbours_is_rounded_down() {
    // (1, 0) lies between 10 and 21 in red: mean 15 of sum 31.
    let samples = vec![10, 0, 0, 255, 0, 0, 0, 0, 21, 0, 0, 255];
    let mut grid = PixelGrid::from_raw(3, 1, samples).unwrap();
    recolor_interpolated(&mut grid);
    assert_eq!(grid.get_pixel(1, 0), rgba(15, 0, 0, 0));
}

#[test]
fn the_alpha_channel_comes_back() {
    let mut samples = Vec::new();
    for i in 0..25u32 {
        samples.extend_from_slice(&[i as u8, 2 * i as u8, 3, (i * 10) as u8]);
    }
    samples[4 * 12 + 3] = 255;
    let alphas: Vec<u8> = samples.iter().skip(3).step_by(4).copied().collect();
    let mut grid = PixelGrid::from_raw(5, 5, samples).unwrap();
    recolor_interpolated(&mut grid);
    let result = grid.into_raw();
    let after: Vec<u8> = result.iter().skip(3).step_by(4).copied().collect();
    assert_eq!(after, alphas);
    for pixel in result.chunks(4) {
        assert_eq!(&pixel[..3], &[12, 24, 3]);
    }
}

#[test]
fn a_corner_colours_the_whole_image() {
    let mut samples = vec![0u8; 4 * 6 * 4];
    samples[..4].copy_from_slice(&[40, 50, 60, 255]);
    let mut grid = PixelGrid::from_raw(6, 4, samples).unwrap();
    recolor_interpolated(&mut grid);
    for y in 0..4 {
        for x in 0..6 {
            let alpha = if (x, y) == (0, 0) { 255 } else { 0 };
            assert_eq!(grid.get_pixel(x, y), rgba(40, 50, 60, alpha));
        }
    }
}

#[test]
fn two_colours_meet_in_the_middle() {
    let samples = vec![
        100, 0, 0, 255, 0, 0, 0, 0, 0, 0, 0, 0, 0, 0, 0, 0, 0, 200, 0, 255,
    ];
    let mut grid = PixelGrid::from_raw(5, 1, samples).unwrap();
    recolor_interpolated(&mut grid);
    assert_eq!(grid.get_pixel(1, 0), rgba(100, 0, 0, 0));
    assert_eq!(grid.get_pixel(2, 0), rgba(50, 100, 0, 0));
    assert_eq!(grid.get_pixel(3, 0), rgba(0, 200, 0, 0));
}

#[test]
fn neighbours_of_the_centre_are_eight() {
    let grid = numbered(3, 3);
    let reds: Vec<u8> = get_neighbouring_pixels(&grid, 1, 1).iter().map(|p| p.red).collect();
    assert_eq!(reds, vec![3, 0, 6, 5, 2, 8, 1, 7]);
}

#[test]
fn neighbours_of_a_corner_are_three() {
    let grid = numbered(3, 3);
    let reds: Vec<u8> = get_neighbouring_pixels(&grid, 0, 0).iter().map(|p| p.red).collect();
    assert_eq!(reds, vec![1, 4, 3]);
    let reds: Vec<u8> = get_neighbouring_pixels(&grid, 2, 2).iter().map(|p| p.red).collect();
    assert_eq!(reds, vec![7, 4, 5]);
}

#[test]
fn neighbours_of_an_edge_are_five() {
    let grid = numbered(3, 3);
    let reds: Vec<u8> = get_neighbouring_pixels(&grid, 1, 0).iter().map(|p| p.red).collect();
    assert_eq!(reds, vec![0, 3, 2, 5, 4]);
    let reds: Vec<u8> = get_neighbouring_pixels(&grid, 0, 1).iter().map(|p| p.red).collect();
    assert_eq!(reds, vec![4, 1, 7, 0, 6]);
}

#[test]
fn a_single_pixel_has_no_neighbours() {
    let grid = numbered(1, 1);
    assert!(get_neighbouring_pixels(&grid, 0, 0).is_empty());
}

#[test]
fn neighbours_in_a_single_row_are_left_and_right() {
    let grid = numbered(3, 1);
    let reds: Vec<u8> = get_neighbouring_pixels(&grid, 1, 0).iter().map(|p| p.red).collect();
    assert_eq!(reds, vec![0, 2]);
}

#[test]
fn restore_alpha_keeps_the_colours() {
    let mut grid = PixelGrid::from_raw(2, 1, vec![1, 2, 3, 255, 4, 5, 6, 255]).unwrap();
    let original = PixelGrid::from_raw(2, 1, vec![9, 9, 9, 17, 8, 8, 8, 255]).unwrap();
    restore_alpha(&mut grid, &original);
    assert_eq!(grid.into_raw(), vec![1, 2, 3, 17, 4, 5, 6, 255]);
}

#[test]
fn each_pass_reaches_one_ring_further() {
    let mut samples = vec![0u8; 4 * 5 * 5];
    samples[4 * 12..4 * 12 + 4].copy_from_slice(&[9, 8, 7, 255]);
    let start = PixelGrid::from_raw(5, 5, samples).unwrap();
    let mut first = start.clone();
    assert!(propagate_pass(&start, &mut first));
    for y in 0..5u32 {
        for x in 0..5u32 {
            let near = x.abs_diff(2) <= 1 && y.abs_diff(2) <= 1;
            let expected = if near { rgba(9, 8, 7, 255) } else { rgba(0, 0, 0, 0) };
            assert_eq!(first.get_pixel(x, y), expected);
        }
    }
    let mut second = first.clone();
    assert!(propagate_pass(&first, &mut second));
    for y in 0..5u32 {
        for x in 0..5u32 {
            assert_eq!(second.get_pixel(x, y), rgba(9, 8, 7, 255));
        }
    }
    let mut third = second.clone();
    assert!(!propagate_pass(&second, &mut third));
    assert_eq!(third, second);
}
