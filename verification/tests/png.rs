use offkilter::png::{crc32, crc_table, from_png, to_png};
use offkilter::raster::{Image, Rgb};

fn sample() -> Image {
    let mut img = Image::new(5, 3, Rgb(0xff, 0xff, 0xff));
    img.set(0, 0, Rgb(1, 2, 3));
    img.set(4, 2, Rgb(200, 100, 50));
    img.set(2, 1, Rgb(0, 0, 0));
    img
}

#[test]
fn png_round_trips() {
    let img = sample();
    let bytes = to_png(&img);
    assert!(bytes.starts_with(b"\x89PNG\r\n\x1a\n"));
    let back = from_png(&bytes).unwrap();
    assert_eq!(back, img);
}

#[test]
fn new_image_is_filled_and_set_paints_one_pixel() {
    let img = sample();
    assert_eq!(img.data.len(), 5 * 3 * 3);
    assert_eq!(img.pixel(0, 0), Rgb(1, 2, 3));
    assert_eq!(img.pixel(4, 2), Rgb(200, 100, 50));
    assert_eq!(img.pixel(1, 0), Rgb(0xff, 0xff, 0xff));
}

#[test]
fn crc32_matches_the_standard_check_value() {
    let table = crc_table();
    assert_eq!(crc32(&table, b"123456789"), 0xcbf4_3926);
    assert_eq!(crc32(&table, b""), 0);
    assert_eq!(table[1], 0x7707_3096);
}

#[test]
fn the_header_chunk_is_laid_out_as_png_says() {
    let bytes = to_png(&sample());
    assert_eq!(&bytes[8..12], &[0, 0, 0, 13]);
    assert_eq!(&bytes[12..16], b"IHDR");
    assert_eq!(&bytes[16..20], &[0, 0, 0, 5]);
    assert_eq!(&bytes[20..24], &[0, 0, 0, 3]);
    assert_eq!(&bytes[24..29], &[8, 2, 0, 0, 0]);
    assert_eq!(&bytes[bytes.len() - 12..bytes.len() - 4], b"\0\0\0\0IEND");
}

#[test]
fn decoding_refuses_what_it_cannot_read() {
    assert_eq!(from_png(b"GIF89a").unwrap_err(), "not a PNG");
    let mut bytes = to_png(&sample());
    let n = bytes.len();
    bytes[n - 1] ^= 0xff;
    assert_eq!(from_png(&bytes).unwrap_err(), "bad chunk crc");
    let good = to_png(&sample());
    assert_eq!(from_png(&good[..50]).unwrap_err(), "truncated chunk");
    assert!(from_png(&good[..40]).unwrap_err().starts_with("inflate failed: "));
    assert_eq!(from_png(&good[..8]).unwrap_err(), "no IHDR");
}
