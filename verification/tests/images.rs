use patent_tagger::ops::error::OpsError;
use patent_tagger::ops::images::{apply_orientation, page_png, tiff_page_to_png, TiffPixels};

fn grey_tiff(width: u32, height: u32, data: &[u8]) -> Vec<u8> {
    let mut out = std::io::Cursor::new(Vec::new());
    {
        let mut enc = tiff::encoder::TiffEncoder::new(&mut out).unwrap();
        enc.write_image::<tiff::encoder::colortype::Gray8>(width, height, data).unwrap();
    }
    out.into_inner()
}

fn png_pixels(bytes: &[u8]) -> (u32, u32, Vec<u8>) {
    let decoder = png::Decoder::new(std::io::Cursor::new(bytes));
    let mut reader = decoder.read_info().unwrap();
    let mut buf = vec![0; reader.output_buffer_size().unwrap()];
    let info = reader.next_frame(&mut buf).unwrap();
    buf.truncate(info.buffer_size());
    (info.width, info.height, buf)
}

#[test]
fn a_greyscale_tiff_page_becomes_a_greyscale_png_with_the_same_pixels() {
    let tiff = grey_tiff(3, 2, &[0, 10, 20, 30, 40, 255]);
    let (w, h, png) = tiff_page_to_png(&tiff).unwrap();
    assert_eq!((w, h), (3, 2));
    assert_eq!(&png[..8], &[0x89, b'P', b'N', b'G', b'\r', b'\n', 0x1a, b'\n']);
    assert_eq!(png_pixels(&png), (3, 2, vec![0, 10, 20, 30, 40, 255]));
}

#[test]
fn bytes_that_are_no_tiff_are_a_parse_error_naming_the_step() {
    match tiff_page_to_png(b"not a tiff at all") {
        Err(OpsError::Parse(m)) => assert!(m.starts_with("invalid TIFF: "), "{m}"),
        other => panic!("expected a parse error, got {other:?}"),
    }
}

#[test]
fn page_png_rotates_before_encoding() {
    // Orientation 6 turns a 2x1 page into a 1x2 one.
    let (w, h, png) = page_png(TiffPixels::U8(vec![1, 2]), 2, 1, 6).unwrap();
    assert_eq!((w, h), (1, 2));
    let (pw, ph, pixels) = png_pixels(&png);
    assert_eq!((pw, ph), (1, 2));
    assert_eq!(pixels.len(), 2);
}

#[test]
fn page_png_refuses_other_sample_formats() {
    match page_png(TiffPixels::Other("U16([1])".to_string()), 1, 1, 1) {
        Err(OpsError::Parse(m)) => assert_eq!(m, "unsupported TIFF pixel format: U16([1])"),
        other => panic!("expected a parse error, got {other:?}"),
    }
}

#[test]
fn the_inverse_orientation_gives_the_image_back() {
    let grey: Vec<u8> = (0..6).collect();
    for o in 1..=8u32 {
        let (w, h, turned) = apply_orientation(3, 2, grey.clone(), o);
        if o >= 5 {
            assert_eq!((w, h), (2, 3));
        } else {
            assert_eq!((w, h), (3, 2));
        }
        let inverse = match o {
            6 => 8,
            8 => 6,
            other => other,
        };
        assert_eq!(apply_orientation(w, h, turned, inverse), (3, 2, grey.clone()));
    }
    // A quarter turn clockwise (orientation 6) of a 3 by 2 image.
    assert_eq!(apply_orientation(3, 2, grey.clone(), 6), (2, 3, vec![3, 0, 4, 1, 5, 2]));
}
