use fepdf_model::error::PdfError;
use fepdf_model::filters::bilevel::Bitmap;
use fepdf_model::filters::ccitt::{settings, EncodingMode};
use fepdf_model::filters::jbig2::refuse;
use fepdf_model::object::{Arena, Dict, Object};

/// Hands the codec's rows to the library's packer, as the application does.
struct Rows {
    bitmap: Bitmap,
    columns: u32,
    black_is_one: bool,
}

impl hayro_ccitt::Decoder for Rows {
    fn push_row(&mut self, changes: &[u32]) {
        self.bitmap.push_changes(changes, self.columns, self.black_is_one);
    }
}

/// Decodes a CCITT stream with the settings the library reads.
fn decode_ccitt(coded: &[u8], params: &Object, arena: &Arena, image_rows: Option<u32>) -> Vec<u8> {
    let table = settings(Some(params), arena, image_rows).expect("settings read");
    let encoding = match table.encoding {
        EncodingMode::Group4 => hayro_ccitt::EncodingMode::Group4,
        EncodingMode::Group3OneD => hayro_ccitt::EncodingMode::Group3_1D,
        EncodingMode::Group3TwoD(_) => hayro_ccitt::EncodingMode::Group3_2D,
    };
    let codec = hayro_ccitt::DecodeSettings {
        columns: table.columns,
        rows: table.rows,
        end_of_block: table.end_of_block,
        end_of_line: table.end_of_line,
        rows_are_byte_aligned: table.rows_are_byte_aligned,
        encoding,
        strict: false,
    };
    let mut page = Rows { bitmap: Bitmap::new(table.columns, table.rows), columns: table.columns, black_is_one: table.invert_black };
    hayro_ccitt::decode(coded, &mut page, &mut hayro_ccitt::DecoderContext::new(codec)).expect("decodes");
    page.bitmap.finish()
}

#[test]
fn rows_falls_back_to_the_image_height() {
    let arena = Arena { objects: vec![] };
    let coded = [0b1100_0000_u8, 0x00, 0x10, 0x01];
    let params = Object::Dictionary(Dict {
        entries: vec![("K".to_string(), Object::Integer(-1)), ("Columns".to_string(), Object::Integer(8))],
    });

    let out = decode_ccitt(&coded, &params, &arena, Some(2));
    assert_eq!(out.len(), 2, "two rows, from /Height");
}

/// Opens an embedded JBIG2 page as the application does, refusing through the library.
fn open_jbig2(data: &[u8], globals: Option<&[u8]>) -> Result<(), PdfError> {
    let codec = hayro_jbig2::DecodeSettings::default();
    let globals = match globals {
        Some(g) => Some(hayro_jbig2::Globals::new(g, &codec).map_err(|e| refuse(&format!("{e:?}"), true))?),
        None => None,
    };
    let had = globals.is_some();
    hayro_jbig2::Page::new_embedded(data, globals.as_ref(), &codec).map_err(|e| refuse(&format!("{e:?}"), had))?;
    Ok(())
}

#[test]
fn a_stream_that_is_not_jbig2_says_whether_globals_were_supplied() {
    let err = open_jbig2(&[0xDE, 0xAD, 0xBE, 0xEF], None).expect_err("not jbig2");
    let PdfError::Filter { filter, message } = err else { panic!("a filter error") };
    assert_eq!(filter, "JBIG2Decode");
    assert!(message.contains("no /JBIG2Globals"), "{message}");

    let err = open_jbig2(&[0xDE, 0xAD, 0xBE, 0xEF], Some(&[])).expect_err("not jbig2");
    let PdfError::Filter { message, .. } = err else { panic!("a filter error") };
    assert!(message.contains("with /JBIG2Globals"), "{message}");
}
