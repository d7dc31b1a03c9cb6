use fepdf_model::error::PdfError;
use fepdf_model::filters::bilevel::Bitmap;
use fepdf_model::filters::jpx::{self, format_of, PixelFormat};
use fepdf_model::filters::lzw::{decode_lzw, Table};
use fepdf_model::filters::{decode_stream, is_decoded, process_filters};
use fepdf_model::object::{Arena, Dict, Object};
use std::io::Write;

fn empty() -> Arena {
    Arena { objects: vec![] }
}

/// A row that is not a multiple of eight columns still starts the next one on a byte
/// boundary — the padding belongs to no pixel (8.9.5.1).
#[test]
fn a_row_is_padded_to_a_byte_boundary() {
    let mut bitmap = Bitmap::new(12, 2);
    for _ in 0..12 {
        bitmap.push(true);
    }
    bitmap.next_line();
    for _ in 0..12 {
        bitmap.push(false);
    }
    let out = bitmap.finish();
    assert_eq!(out.len(), 4, "twelve columns is two bytes a row, two rows");
    assert_eq!(out[0], 0xFF);
    assert_eq!(out[1], 0xF0, "four bits of the second byte are padding");
    assert_eq!(&out[2..], &[0x00, 0x00]);
}

/// A run of whole bytes lands in the same place a pixel at a time would.
#[test]
fn a_run_of_bytes_matches_the_same_pixels_one_at_a_time() {
    let mut by_byte = Bitmap::new(16, 1);
    by_byte.push_bytes(true, 2);

    let mut by_pixel = Bitmap::new(16, 1);
    for _ in 0..16 {
        by_pixel.push(true);
    }
    assert_eq!(by_byte.finish(), by_pixel.finish());
}

/// The size given is a hint and not a limit: a short page is as long as what was
/// written.
#[test]
fn a_short_page_is_as_long_as_what_was_written() {
    let mut bitmap = Bitmap::new(3, 3);
    bitmap.push(true);
    bitmap.push(false);
    bitmap.next_line();
    assert_eq!(bitmap.rows_done(), 1);
    let out = bitmap.finish();
    assert_eq!(out, vec![0x80]);
}

/// `/EarlyChange` moves the code width up one entry sooner, and that is the whole of
/// what it does.
#[test]
fn early_change_moves_the_width_boundary_by_one_entry() {
    let mut table = Table::new();
    while table.len() < 510 {
        table.entries.push(vec![0]);
    }
    assert_eq!(table.next_width(1), 9);
    assert_eq!(table.next_width(0), 9);

    table.entries.push(vec![0]);
    assert_eq!(table.len(), 511);
    assert_eq!(table.next_width(1), 10, "one entry early");
    assert_eq!(table.next_width(0), 9, "still nine without it");

    while table.len() < 1023 {
        table.entries.push(vec![0]);
    }
    assert_eq!(table.next_width(1), 11);
    assert_eq!(table.next_width(0), 10);
    while table.len() < 2047 {
        table.entries.push(vec![0]);
    }
    assert_eq!(table.next_width(1), 12);
    assert_eq!(table.next_width(0), 11);
}

/// The worked example of 7.4.4.2: nine bytes of codes for forty-five, forty-five,
/// forty-five, forty-five, sixty-five, forty-five, forty-five, forty-five, sixty-six.
#[test]
fn the_worked_lzw_example_decodes() {
    let encoded = [0x80, 0x0B, 0x60, 0x50, 0x22, 0x0C, 0x0C, 0x85, 0x01];
    let decoded = decode_lzw(&encoded, 1).expect("decodes");
    assert_eq!(decoded, vec![45, 45, 45, 45, 45, 65, 45, 45, 45, 66]);
}

#[test]
fn test_flate_decode_stream() {
    let raw_data = b"Hello fepdf PDF 2.0 Engine!";
    let mut encoder = flate2::write::ZlibEncoder::new(Vec::new(), flate2::Compression::default());
    encoder.write_all(raw_data).unwrap();
    let compressed = encoder.finish().unwrap();

    let decoded = decode_stream("FlateDecode", &compressed, None, &empty()).unwrap();
    assert_eq!(&decoded[..], raw_data);
}

#[test]
fn test_unknown_filter_error() {
    let result = decode_stream("NonExistentFilter", b"data", None, &empty());
    assert!(result.is_err());
}

/// A grey JPEG decodes to one component, not three.
#[test]
fn a_grey_jpeg_decodes_to_one_component_per_pixel() {
    let (w, h) = (8_u32, 4_u32);
    let samples: Vec<u8> = (0..w * h).map(|i| (i * 8) as u8).collect();
    let mut jpeg = Vec::new();
    image::codecs::jpeg::JpegEncoder::new_with_quality(&mut jpeg, 100)
        .encode(&samples, w, h, image::ExtendedColorType::L8)
        .expect("encodes");

    let decoded = decode_stream("DCTDecode", &jpeg, None, &empty()).expect("decodes");
    assert_eq!(decoded.len(), (w * h) as usize, "one byte per pixel, not three: {} bytes for {w}×{h}", decoded.len());
    assert!(decoded[0] < decoded[decoded.len() - 1], "the gradient is still a gradient");
}

/// A colour JPEG still decodes to three.
#[test]
fn a_colour_jpeg_still_decodes_to_three() {
    let (w, h) = (8_u32, 4_u32);
    let samples: Vec<u8> = (0..w * h * 3).map(|i| (i % 251) as u8).collect();
    let mut jpeg = Vec::new();
    image::codecs::jpeg::JpegEncoder::new_with_quality(&mut jpeg, 100)
        .encode(&samples, w, h, image::ExtendedColorType::Rgb8)
        .expect("encodes");

    let decoded = decode_stream("DCTDecode", &jpeg, None, &empty()).expect("decodes");
    assert_eq!(decoded.len(), (w * h * 3) as usize);
}

/// A name the table does not know is refused by that name.
#[test]
fn a_filter_the_table_does_not_know_is_refused_by_name() {
    let arena = empty();
    for name in ["XXXDecode", "Crypt", "NoSuchDecode"] {
        assert!(!is_decoded(name), "{name} has no unit");
        let Err(PdfError::Filter { message, filter }) = decode_stream(name, b"\x01\x02\x03\x04", None, &arena) else {
            panic!("{name} must be refused");
        };
        assert_eq!(filter, name, "refused by its own name");
        assert!(message.starts_with("Unsupported filter"), "{message}");
    }
    for name in ["FlateDecode", "Fl", "AHx", "A85", "RL", "CCF", "DCT", "JBIG2Decode"] {
        assert!(is_decoded(name), "{name} has a unit");
    }
}

/// Data that is not a codestream is refused by name, not decoded into noise.
#[test]
fn a_stream_that_is_not_jpeg_2000_is_refused() {
    let err = jpx::decode(&[0xDE, 0xAD, 0xBE, 0xEF]).expect_err("not jpx");
    let PdfError::Filter { filter, .. } = err else { panic!("a filter error") };
    assert_eq!(filter, "JPXDecode");
    assert!(jpx::layout(&[0xDE, 0xAD, 0xBE, 0xEF]).is_none());
}

/// The layout is read from the number of channels the codestream declares.
#[test]
fn the_layout_comes_from_the_codestream() {
    assert_eq!(format_of(1), Some(PixelFormat::Gray8));
    assert_eq!(format_of(3), Some(PixelFormat::Rgb8));
    assert_eq!(format_of(4), Some(PixelFormat::Cmyk8));
    assert_eq!(format_of(2), None);
}

#[test]
fn hex_and_run_length_decode_their_examples() {
    assert_eq!(decode_stream("AHx", b"48 65 6C6c6F>", None, &empty()).expect("decodes"), b"Hello".to_vec());
    assert_eq!(decode_stream("ASCIIHexDecode", b"7>", None, &empty()).expect("decodes"), vec![0x70], "an odd digit is followed by 0");
    assert_eq!(decode_stream("RL", &[2, b'a', b'b', b'c', 254, b'x', 128], None, &empty()).expect("decodes"), b"abcxxx".to_vec());
    assert_eq!(decode_stream("A85", b"87cURD]i,\"Ebo80~>", None, &empty()).expect("decodes"), b"Hello World!".to_vec());
    assert!(decode_stream("AHx", b"4G>", None, &empty()).is_err(), "G is not a hex digit");
}

#[test]
fn a_chain_applies_each_filter_in_order() {
    let mut encoder = flate2::write::ZlibEncoder::new(Vec::new(), flate2::Compression::default());
    encoder.write_all(b"chained").unwrap();
    let compressed = encoder.finish().unwrap();
    let hex: String = compressed.iter().map(|b| format!("{b:02x}")).collect::<String>() + ">";
    let dict = Dict {
        entries: vec![(
            "Filter".to_string(),
            Object::Array(vec![Object::Name("ASCIIHexDecode".to_string()), Object::Name("FlateDecode".to_string())]),
        )],
    };
    let out = process_filters(hex.as_bytes(), &dict, &empty(), None).expect("decodes");
    assert_eq!(out, b"chained".to_vec());
    let none = Dict { entries: vec![] };
    assert_eq!(process_filters(b"raw", &none, &empty(), None).expect("no filter"), b"raw".to_vec());
}

fn zlib(data: &[u8]) -> Vec<u8> {
    let mut e = flate2::write::ZlibEncoder::new(Vec::new(), flate2::Compression::default());
    e.write_all(data).unwrap();
    e.finish().unwrap()
}

fn params(entries: Vec<(&str, i64)>) -> Object {
    Object::Dictionary(Dict { entries: entries.into_iter().map(|(k, v)| (k.to_string(), Object::Integer(v))).collect() })
}

#[test]
fn png_predictors_are_undone_row_by_row() {
    // Two rows of three one-byte pixels: the first written with Sub, the second with Up.
    let predicted = [1u8, 10, 5, 5, 2, 1, 1, 1];
    let p = params(vec![("Predictor", 12), ("Columns", 3)]);
    let out = decode_stream("FlateDecode", &zlib(&predicted), Some(&p), &empty()).expect("decodes");
    assert_eq!(out, vec![10, 15, 20, 11, 16, 21]);
}

#[test]
fn the_png_average_and_paeth_types_use_their_neighbours() {
    // First row None, second Average, third Paeth, two bytes each.
    let predicted = [0u8, 100, 200, 3, 50, 30, 4, 0, 0];
    let p = params(vec![("Predictor", 15), ("Columns", 2)]);
    let out = decode_stream("FlateDecode", &zlib(&predicted), Some(&p), &empty()).expect("decodes");
    // Average: 50 + 100/2 = 100; 30 + (100 + 200)/2 = 180.
    // Paeth of the first byte: left 0, up 100, up-left 0 -> up; of the second: left 100, up 180, up-left 100 -> 180.
    assert_eq!(out, vec![100, 200, 100, 180, 100, 180]);
}

#[test]
fn the_tiff_predictor_adds_each_pixel_to_the_one_before() {
    let predicted = [1u8, 2, 1, 1, 5, 5];
    let p = params(vec![("Predictor", 2), ("Colors", 2), ("Columns", 3)]);
    let out = decode_stream("FlateDecode", &zlib(&predicted), Some(&p), &empty()).expect("decodes");
    assert_eq!(out, vec![1, 2, 2, 3, 7, 8]);
}

#[test]
fn an_unknown_png_filter_type_is_refused_by_the_filter() {
    let p = params(vec![("Predictor", 10), ("Columns", 1)]);
    match decode_stream("FlateDecode", &zlib(&[7, 1]), Some(&p), &empty()) {
        Err(PdfError::Filter { filter, message }) => {
            assert_eq!(filter, "FlateDecode");
            assert_eq!(message, "PNG filter type 7 is not defined");
        }
        other => panic!("{other:?}"),
    }
}

#[test]
fn an_undefined_predictor_is_refused() {
    let p = params(vec![("Predictor", 5)]);
    let err = decode_stream("FlateDecode", &zlib(b"ab"), Some(&p), &empty()).expect_err("5 is not in Table 8");
    assert!(matches!(err, PdfError::Filter { ref message, .. } if message == "/Predictor 5 is not defined"), "{err:?}");
}

#[test]
fn predictor_one_leaves_the_data_alone() {
    let p = params(vec![("Predictor", 1)]);
    assert_eq!(decode_stream("FlateDecode", &zlib(b"abc"), Some(&p), &empty()).expect("decodes"), b"abc".to_vec());
}

#[test]
fn colour_samples_keep_the_layouts_channels_of_each_pixel() {
    let rgba = vec![1u8, 2, 3, 255, 4, 5, 6, 128];
    assert_eq!(jpx::colour_samples(rgba.clone(), 4, PixelFormat::Rgb8), vec![1, 2, 3, 4, 5, 6]);
    assert_eq!(jpx::colour_samples(rgba.clone(), 4, PixelFormat::Cmyk8), rgba, "nothing to drop");
}
