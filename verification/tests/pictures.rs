use std::io::Read;

use twistypuzzle::render::png::{assemble_png, crc32, encode_rgba, filter_rows};

#[test]
fn crc_of_the_check_string() {
    assert_eq!(crc32(b"123456789"), 0xCBF4_3926);
    assert_eq!(crc32(b""), 0);
}

#[test]
fn sub_filter_takes_the_pixel_to_the_left() {
    let data = [10u8, 20, 30, 40, 15, 25, 5, 41];
    let raw = filter_rows(2, 1, &data);
    assert_eq!(raw, vec![1, 10, 20, 30, 40, 5, 5, 231, 1]);
}

#[test]
fn a_png_starts_with_its_signature_and_header() {
    let png = assemble_png(3, 2, &[1, 2, 3]);
    assert_eq!(&png[..8], &[137, 80, 78, 71, 13, 10, 26, 10]);
    assert_eq!(&png[8..16], &[0, 0, 0, 13, b'I', b'H', b'D', b'R']);
    assert_eq!(&png[16..24], &[0, 0, 0, 3, 0, 0, 0, 2]);
    assert_eq!(&png[24..29], &[8, 6, 0, 0, 0]);
    let crc = crc32(&png[12..29]);
    assert_eq!(&png[29..33], &crc.to_be_bytes());
    assert_eq!(&png[33..41], &[0, 0, 0, 3, b'I', b'D', b'A', b'T']);
    assert_eq!(&png[png.len() - 12..png.len() - 4], &[0, 0, 0, 0, b'I', b'E', b'N', b'D']);
}

#[test]
fn an_encoded_image_decompresses_to_its_filtered_rows() {
    let data: Vec<u8> = (0..2 * 2 * 4).map(|i| (i * 7) as u8).collect();
    let png = encode_rgba(2, 2, &data);
    let len = u32::from_be_bytes([png[33], png[34], png[35], png[36]]) as usize;
    let idat = &png[41..41 + len];
    let mut raw = Vec::new();
    flate2::read::ZlibDecoder::new(idat).read_to_end(&mut raw).unwrap();
    assert_eq!(raw, filter_rows(2, 2, &data));
    assert_ne!(idat, &raw[..]);
}
