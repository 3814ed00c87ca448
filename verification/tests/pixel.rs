use png_defringe::pixel::{is_transparent, mean_of_opaque, Pixel};

fn color(red: u8, green: u8, blue: u8, alpha: u8) -> Pixel {
    Pixel { red, green, blue, alpha }
}

#[test]
fn alpha_255_is_opaque() {
    assert!(!is_transparent(&color(1, 2, 3, 255)));
    assert!(!is_transparent(&color(0, 0, 0, 255)));
}

#[test]
fn alpha_below_255_is_transparent() {
    assert!(is_transparent(&color(1, 2, 3, 254)));
    assert!(is_transparent(&color(1, 2, 3, 128)));
    assert!(is_transparent(&color(255, 255, 255, 0)));
}

#[test]
fn mean_of_nothing_is_nothing() {
    assert_eq!(mean_of_opaque(&vec![]), None);
}

#[test]
fn mean_of_transparent_pixels_is_nothing() {
    assert_eq!(mean_of_opaque(&vec![color(9, 9, 9, 0), color(200, 1, 1, 254)]), None);
}

#[test]
fn mean_of_one_opaque_pixel_is_that_pixel() {
    assert_eq!(mean_of_opaque(&vec![color(10, 20, 30, 255)]), Some(color(10, 20, 30, 255)));
}

#[test]
fn mean_skips_transparent_pixels() {
    let pixels = vec![color(10, 20, 30, 255), color(255, 255, 255, 100), color(30, 40, 50, 255)];
    assert_eq!(mean_of_opaque(&pixels), Some(color(20, 30, 40, 255)));
}

#[test]
fn mean_rounds_each_channel_down() {
    let pixels = vec![color(0, 1, 255, 255), color(1, 2, 254, 255), color(1, 2, 255, 255)];
    // sums 2, 5, 764 over 3 pixels
    assert_eq!(mean_of_opaque(&pixels), Some(color(0, 1, 254, 255)));
}

#[test]
fn mean_of_white_pixels_is_white() {
    let pixels = vec![color(255, 255, 255, 255); 8];
    assert_eq!(mean_of_opaque(&pixels), Some(color(255, 255, 255, 255)));
}
