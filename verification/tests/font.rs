use fepdf_model::destination::Number;
use fepdf_model::font::metrics::{detect_wmode, parse_cid_widths, FontCategory};
use fepdf_model::font::{heuristic_decode, is_glyph_name, is_withheld, system_fallback_char, system_fallback_gid, TraceContext, UnicodeSource};
use fepdf_model::object::{Arena, Dict, Object};

#[test]
fn test_font_category_classification() {
    assert_eq!(FontCategory::from_name_and_flags("CourierNew", 0, false), FontCategory::Monospace);
    assert_eq!(FontCategory::from_name_and_flags("Times-Roman", 0, false), FontCategory::Serif);
    assert_eq!(FontCategory::from_name_and_flags("Helvetica", 0, false), FontCategory::SansSerif);
    assert_eq!(FontCategory::from_name_and_flags("MS-Gothic", 0, false), FontCategory::Cjk);
    assert_eq!(FontCategory::from_name_and_flags("Symbol", 0, false), FontCategory::Symbol);
    assert_eq!(FontCategory::from_name_and_flags("CustomFont", 1 << 0, false), FontCategory::Monospace);
    assert_eq!(FontCategory::from_name_and_flags("CustomFont", 1 << 1, false), FontCategory::Serif);
}

#[test]
fn a_font_that_says_nothing_is_sans_serif() {
    assert_eq!(FontCategory::default(), FontCategory::SansSerif);
    assert_eq!(FontCategory::from_name_and_flags("CustomFont", 0, false), FontCategory::SansSerif);
}

/// Private use is withheld; circled numbers are characters.
#[test]
fn private_use_is_withheld_and_circled_numbers_are_not() {
    assert!(is_withheld('\u{e000}', false).is_some(), "private use area");
    assert!(is_withheld('\u{f8ff}', false).is_some(), "the end of it");
    assert!(is_withheld('\u{f0000}', false).is_some(), "the supplementary one");

    assert!(is_withheld('\u{2460}', false).is_none(), "① is a character");
    assert!(is_withheld('\u{2477}', false).is_none(), "⑷ is a character");
    assert!(is_withheld('\u{24ff}', false).is_none(), "the end of the block");
}

/// Control characters are refused only where the caller asks.
#[test]
fn control_characters_are_refused_only_when_the_route_asks() {
    assert!(is_withheld('\u{0007}', true).is_some());
    assert!(is_withheld('\u{0007}', false).is_none());
    assert_eq!(is_withheld('\u{009f}', true), Some(UnicodeSource::Withheld));
}

#[test]
fn a_substitute_glyph_marker_gives_back_its_character() {
    let gid = system_fallback_gid('\u{4e00}');
    assert_eq!(gid, 1_000_000 + 0x4e00);
    assert_eq!(system_fallback_char(gid), Some('\u{4e00}'));
    assert_eq!(system_fallback_char(42), None, "an ordinary glyph index");
    assert_eq!(system_fallback_char(1_000_000 + 0xD800), None, "a surrogate is no character");
}

#[test]
fn a_glyph_name_is_a_solidus_and_more() {
    assert!(is_glyph_name("/A"));
    assert!(!is_glyph_name("/"));
    assert!(!is_glyph_name("A"));
}

#[test]
fn vertical_writing_is_read_from_the_encoding() {
    let arena = Arena { objects: vec![] };
    let by_name = |n: &str| Dict { entries: vec![("Encoding".to_string(), Object::Name(n.to_string()))] };
    assert_eq!(detect_wmode(&by_name("Identity-V"), &arena), 1);
    assert_eq!(detect_wmode(&by_name("Identity-H"), &arena), 0);
    assert_eq!(detect_wmode(&Dict { entries: vec![] }, &arena), 0);
    let cmap = Object::Stream(Dict { entries: vec![("CMapName".to_string(), Object::Name("UniJIS-UCS2-V".to_string()))] }, vec![]);
    assert_eq!(detect_wmode(&Dict { entries: vec![("Encoding".to_string(), cmap)] }, &arena), 1);
}

#[test]
fn a_trace_records_its_steps_and_the_glyph_it_ended_on() {
    let mut trace = TraceContext::new();
    trace.push_step("ignored while nothing is open");
    trace.start(7, Some('a'));
    trace.push_step("encoding");
    trace.push_step("cmap");
    trace.finish(Some(3));
    trace.finish(None);
    assert_eq!(trace.traces.len(), 1);
    assert_eq!(trace.traces[0].cid, 7);
    assert_eq!(trace.traces[0].resolved_gid, Some(3));
    assert_eq!(trace.traces[0].steps, vec!["encoding".to_string(), "cmap".to_string()]);
    assert!(trace.current_trace.is_none());
}

fn integer(v: i64) -> Object {
    Object::Integer(v)
}

#[test]
fn cid_widths_read_both_forms_of_w_and_keep_dw() {
    let w = Object::Array(vec![
        integer(1),
        Object::Array(vec![integer(500), Object::Real("600.5".to_string())]),
        integer(10),
        integer(12),
        integer(300),
        integer(5),
        Object::Array(vec![integer(700)]),
    ]);
    let d = Dict { entries: vec![("DW".to_string(), integer(900)), ("W".to_string(), w)] };
    let widths = parse_cid_widths(&d, &Arena { objects: vec![] });
    assert_eq!(widths.default, Some(Number::Integer(900)));
    assert_eq!(widths.runs.len(), 4);
    assert_eq!(widths.width_of(2), Some(&Some(Number::Real("600.5".to_string()))));
    assert_eq!(widths.width_of(11), Some(&Some(Number::Integer(300))));
    assert_eq!(widths.width_of(5), Some(&Some(Number::Integer(700))));
    assert_eq!(widths.width_of(4), None, "no run covers it, so /DW answers");
}

#[test]
fn a_later_run_of_w_overrides_an_earlier_one() {
    let w = Object::Array(vec![integer(1), integer(3), integer(100), integer(2), Object::Array(vec![integer(200)]), integer(9), integer(7), integer(1)]);
    let d = Dict { entries: vec![("W".to_string(), w)] };
    let widths = parse_cid_widths(&d, &Arena { objects: vec![] });
    assert_eq!(widths.default, None);
    assert_eq!(widths.width_of(2), Some(&Some(Number::Integer(200))));
    assert_eq!(widths.width_of(3), Some(&Some(Number::Integer(100))));
    assert_eq!(widths.runs.len(), 2, "a range that runs backwards gives nothing");
}

#[test]
fn a_cid_width_falls_back_to_dw_and_then_to_a_thousand() {
    let w = Object::Array(vec![integer(1), integer(2), name_obj("x"), integer(5), Object::Array(vec![integer(250)])]);
    let with_dw = Dict { entries: vec![("DW".to_string(), integer(900)), ("W".to_string(), w)] };
    let widths = parse_cid_widths(&with_dw, &Arena { objects: vec![] });
    assert_eq!(widths.width_for(5), Number::Integer(250));
    assert_eq!(widths.width_for(1), Number::Integer(1000), "a width that is no number is 1000");
    assert_eq!(widths.width_for(7), Number::Integer(900), "/DW answers for what /W does not cover");

    let without = Dict { entries: vec![("DW".to_string(), name_obj("wide"))] };
    let widths = parse_cid_widths(&without, &Arena { objects: vec![] });
    assert_eq!(widths.default_width(), Number::Integer(1000));
    assert_eq!(widths.width_for(3), Number::Integer(1000));
}

fn name_obj(s: &str) -> Object {
    Object::Name(s.to_string())
}

#[test]
fn the_last_resort_decoding_follows_the_font_kind() {
    let unmapped = || (None, UnicodeSource::Unmapped);
    assert_eq!(heuristic_decode("Type1", None, false, None, unmapped(), b"A"), (1, Some("A".to_string()), UnicodeSource::AsciiGuess));
    assert_eq!(heuristic_decode("Type1", None, true, None, unmapped(), b"A"), (1, None, UnicodeSource::Unmapped), "a legacy font is not guessed");
    let found = Some((2, Some("\u{3042}".to_string()), UnicodeSource::CidCollection));
    assert_eq!(heuristic_decode("Type0", None, false, found.clone(), unmapped(), &[0x04, 0x22]), found.unwrap());
    assert_eq!(heuristic_decode("Type0", None, false, None, unmapped(), &[0x01]), (1, None, UnicodeSource::Unmapped), "one byte is too short");
    assert_eq!(
        heuristic_decode("TrueType", Some("Identity-H"), false, None, (Some("x".to_string()), UnicodeSource::Encoding), b"AB"),
        (2, Some("x".to_string()), UnicodeSource::Encoding),
        "an Identity encoding reads two bytes and is not guessed"
    );
}
