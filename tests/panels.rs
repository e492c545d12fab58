use maditor::color_picker::Color;
use maditor::histogram::Histogram;
use maditor::image_buffer::ImageBuffer;
use maditor::ops::gaussian;

#[test]
fn new_colour_is_black() {
    let c = Color::new();
    assert_eq!((c.r, c.g, c.b), (0, 0, 0));
}

#[test]
fn histogram_bars_scale_to_the_tallest() {
    // red values 0, 0, 1: value 0 is the most frequent, value 1 half as frequent
    let rgba = [0u8, 5, 5, 1, 0, 5, 5, 1, 1, 5, 5, 1];
    let image = ImageBuffer::from_rgba(3, 1, &rgba);
    let pic = Histogram {}.image_data(&image, 2, 128);
    assert_eq!(pic.len(), 2 * 128 * 4);
    let at = |x: usize, y: usize, c: usize| pic[(y * 2 + x) * 4 + c];
    // value 1: level 128, bright from row 63 down
    assert_eq!(at(1, 62, 0), 0);
    assert_eq!(at(1, 63, 0), 255);
    // value 0: 2 * 256 / 2 = 256 wraps to level 0, bright only from row 127
    assert_eq!(at(0, 126, 0), 0);
    assert_eq!(at(0, 127, 0), 255);
    // green holds only value 5, so columns 0 and 1 have level 0
    assert_eq!(at(1, 126, 1), 0);
    assert_eq!(at(1, 127, 1), 255);
    for y in 0..128 {
        for x in 0..2 {
            assert_eq!(at(x, y, 3), 255);
        }
    }
}

#[test]
fn gaussian_blurs_rows_then_columns() {
    let bytes = [4u8, 8, 12, 16, 20, 24, 28, 32, 36];
    let mut out = [7u8; 9];
    gaussian(&bytes, 3, 3, &mut out);
    assert_eq!(out, [7, 6, 7, 12, 15, 18, 7, 24, 7]);
}

#[test]
fn gaussian_on_a_single_row() {
    let bytes = [40u8, 80, 120, 160];
    let mut out = [0u8; 4];
    gaussian(&bytes, 4, 1, &mut out);
    assert_eq!(out, [0, 60, 90, 0]);
}

#[test]
fn gaussian_leaves_bytes_past_the_plane() {
    let bytes = [4u8, 8, 12, 16, 20, 24, 28, 32, 36, 200];
    let mut out = [7u8; 11];
    gaussian(&bytes, 3, 3, &mut out);
    assert_eq!(out, [7, 6, 7, 12, 15, 18, 7, 24, 7, 7, 7]);
}
