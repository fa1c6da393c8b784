use std::io::Cursor;

use image::{ImageBuffer, ImageFormat, Rgb as ImageRgb};
use iridion::color::Rgb;
use iridion::loader::{load_pixels, LoadError, SAMPLE_SIDE};

fn png_2x2() -> Vec<u8> {
    let colors = [[10u8, 20, 30], [40, 50, 60], [70, 80, 90], [100, 110, 120]];
    let img = ImageBuffer::from_fn(2, 2, |x, y| ImageRgb(colors[(y * 2 + x) as usize]));
    let mut out = Cursor::new(Vec::new());
    img.write_to(&mut out, ImageFormat::Png).unwrap();
    out.into_inner()
}

#[test]
fn load_pixels_resamples_to_256_square() {
    let pixels = load_pixels(&png_2x2(), "png").unwrap();
    let side = SAMPLE_SIDE as usize;
    assert_eq!(pixels.len(), side * side);
    assert_eq!(pixels[0], Rgb::new(10, 20, 30));
    assert_eq!(pixels[side - 1], Rgb::new(40, 50, 60));
    assert_eq!(pixels[side * (side - 1)], Rgb::new(70, 80, 90));
    assert_eq!(pixels[side * side - 1], Rgb::new(100, 110, 120));
}

#[test]
fn load_pixels_refuses_unknown_extension() {
    assert_eq!(load_pixels(&png_2x2(), "xyz"), Err(LoadError::Decode));
    assert_eq!(load_pixels(&png_2x2(), ""), Err(LoadError::Decode));
}

#[test]
fn load_pixels_refuses_bytes_that_do_not_decode() {
    assert_eq!(load_pixels(&[1, 2, 3, 4], "png"), Err(LoadError::Decode));
    assert_eq!(load_pixels(&png_2x2(), "jpg"), Err(LoadError::Decode));
}
