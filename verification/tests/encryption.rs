use fepdf_model::encryption::{
    decode_permissions, judge, permissions_from_keywords, Conformance, EncryptionReport, DENY_ALL, PERMISSION_COUNT,
};
use fepdf_model::error::PdfError;
use fepdf_model::object::{Arena, Dict, Object};

/// `/P` from a file whose producer wrote it in the unsigned form.
const P_UNICODE_16: i32 = -1036;

fn name(s: &str) -> Object {
    Object::Name(s.to_string())
}

fn dict(entries: Vec<(&str, Object)>) -> Dict {
    Dict { entries: entries.into_iter().map(|(k, v)| (k.to_string(), v)).collect() }
}

#[test]
fn table_22_decodes_the_bits_the_file_writes() {
    let p = decode_permissions(Some(P_UNICODE_16));
    let granted = |bit: u8| p.iter().find(|x| x.bit == bit).expect("bit is listed").granted;
    assert!(granted(3), "print");
    assert!(!granted(4), "modify contents: 0xFFFFFBF4 & 8 == 0");
    assert!(granted(5), "copy");
    assert!(granted(6), "annotations");
    assert!(!granted(11), "assemble");
    assert!(granted(12), "print at high resolution");
}

#[test]
fn every_bit_granted_reads_as_such() {
    let p = decode_permissions(Some(-4));
    assert!(p.iter().all(|x| x.granted), "{p:?}");
    assert_eq!(p.len(), 8, "Table 22 defines eight non-reserved bits");
}

#[test]
fn an_absent_permissions_field_yields_no_claims() {
    assert!(decode_permissions(None).is_empty());
}

#[test]
fn conformance_names_the_gaps_rather_than_the_declaration() {
    assert_eq!(judge(Some(1), Some(2)).0, Conformance::Implemented);
    assert_eq!(judge(Some(2), Some(3)).0, Conformance::Implemented);
    assert_eq!(judge(Some(4), Some(4)).0, Conformance::Implemented);
    assert_eq!(judge(Some(5), Some(6)).0, Conformance::Implemented);
    assert_eq!(judge(Some(5), Some(5)).0, Conformance::Implemented);
    assert_eq!(judge(Some(4), Some(9)).0, Conformance::Unsupported);
    assert_eq!(judge(None, None).0, Conformance::Unsupported);
}

/// A wrapper meeting, or missing, the conditions 7.6.7 states, as the document reader
/// assembles it: catalogue 1, a collection in it, the file specification 6, the name
/// dictionary 8 and its embedded-files tree 9.
fn wrapper(view: &str, relationship: &str, entries: usize) -> (Arena, Dict) {
    let mut names = Vec::new();
    for i in 0..entries {
        names.push(Object::String(format!("p{i}").into_bytes()));
        names.push(Object::Reference(6));
    }
    let catalog = dict(vec![
        ("Type", name("Catalog")),
        ("Pages", Object::Reference(2)),
        ("Names", Object::Reference(8)),
        ("AF", Object::Array(vec![Object::Reference(6)])),
        ("Collection", Object::Dictionary(dict(vec![("Type", name("Collection")), ("View", name(view))]))),
    ]);
    let pages = dict(vec![("Type", name("Pages")), ("Kids", Object::Array(vec![Object::Reference(3)])), ("Count", Object::Integer(1))]);
    let page = dict(vec![("Type", name("Page")), ("Parent", Object::Reference(2))]);
    let spec = dict(vec![
        ("Type", name("Filespec")),
        ("F", Object::String(b"payload.pdf".to_vec())),
        ("AFRelationship", name(relationship)),
        (
            "EP",
            Object::Dictionary(dict(vec![
                ("Type", name("EncryptedPayload")),
                ("Subtype", name("AcmeCustomCrypto")),
                ("Version", name("1.0")),
            ])),
        ),
    ]);
    let arena = Arena {
        objects: vec![
            Object::Null,
            Object::Dictionary(catalog),
            Object::Dictionary(pages),
            Object::Dictionary(page),
            Object::Null,
            Object::Null,
            Object::Dictionary(spec),
            Object::Null,
            Object::Dictionary(dict(vec![("EmbeddedFiles", Object::Reference(9))])),
            Object::Dictionary(dict(vec![("Names", Object::Array(names))])),
        ],
    };
    let trailer = dict(vec![("Size", Object::Integer(10)), ("Root", Object::Reference(1))]);
    (arena, trailer)
}

#[test]
fn a_conforming_wrapper_names_its_filter() {
    let (arena, trailer) = wrapper("H", "EncryptedPayload", 1);
    let r = EncryptionReport::survey(&arena, &trailer, false, None, vec![]);
    let p = r.payload.expect("recognised");
    assert_eq!(p.filter, "AcmeCustomCrypto");
    assert_eq!(p.filter_version.as_deref(), Some("1.0"));
    assert_eq!(p.file_name.as_deref(), Some("payload.pdf"));
    assert!(p.conditions_unmet.is_empty(), "{:?}", p.conditions_unmet);
    assert!(!r.encrypted);
}

#[test]
fn each_condition_is_reported_separately() {
    let (arena, trailer) = wrapper("D", "EncryptedPayload", 1);
    let r = EncryptionReport::survey(&arena, &trailer, false, None, vec![]);
    let p = r.payload.expect("still recognised");
    assert_eq!(p.filter, "AcmeCustomCrypto");
    assert!(p.conditions_unmet.iter().any(|c| c.contains("/View /H")), "{:?}", p.conditions_unmet);
    assert!(p.conditions_met.iter().any(|c| c.contains("/AFRelationship")));
}

#[test]
fn more_than_one_embedded_file_is_flagged() {
    let (arena, trailer) = wrapper("H", "EncryptedPayload", 3);
    let r = EncryptionReport::survey(&arena, &trailer, false, None, vec![]);
    let p = r.payload.expect("recognised");
    assert!(p.conditions_unmet.iter().any(|c| c.contains("exactly one entry")), "{:?}", p.conditions_unmet);
}

#[test]
fn an_ordinary_document_is_not_a_wrapper() {
    // The check runs on every file, encrypted or not, so a false positive here would
    // appear everywhere.
    let catalog = dict(vec![("Type", name("Catalog")), ("Pages", Object::Reference(2))]);
    let pages = dict(vec![("Type", name("Pages")), ("Kids", Object::Array(vec![])), ("Count", Object::Integer(0))]);
    let arena = Arena { objects: vec![Object::Null, Object::Dictionary(catalog), Object::Dictionary(pages)] };
    let trailer = dict(vec![("Root", Object::Reference(1))]);
    let r = EncryptionReport::survey(&arena, &trailer, false, None, vec![]);
    assert!(r.payload.is_none());
}

#[test]
fn an_unencrypted_report_claims_nothing() {
    let arena = Arena { objects: vec![Object::Null] };
    let r = EncryptionReport::survey(&arena, &dict(vec![]), false, None, vec![]);
    assert!(!r.encrypted && r.handler.is_none() && r.permissions.is_empty());
}

#[test]
fn an_encryption_dictionary_is_reported_as_declared() {
    let encrypt = dict(vec![
        ("Filter", name("Standard")),
        ("V", Object::Integer(2)),
        ("R", Object::Integer(3)),
        ("Length", Object::Integer(128)),
        ("P", Object::Integer(-4)),
    ]);
    let arena = Arena { objects: vec![Object::Null, Object::Dictionary(encrypt)] };
    let trailer = dict(vec![("Encrypt", Object::Reference(1))]);
    let r = EncryptionReport::survey(&arena, &trailer, true, None, vec![]);
    assert!(r.encrypted);
    assert_eq!(r.handler.as_deref(), Some("Standard"));
    assert_eq!((r.version, r.revision), (Some(2), Some(3)));
    assert_eq!(r.key_bits, Some(128));
    assert_eq!(r.permission_bits, Some(-4));
    assert_eq!(r.permissions.len(), PERMISSION_COUNT);
    assert_eq!(r.conformance, Conformance::Implemented);
    assert!(r.unlocked);
}

#[test]
fn named_permissions_write_the_bits_they_name() {
    let bits = permissions_from_keywords("print, copy").expect("known keywords");
    let read = decode_permissions(Some(bits));
    for p in &read {
        assert_eq!(p.granted, p.bit == 3 || p.bit == 5, "bit {}", p.bit);
    }
    assert_eq!(permissions_from_keywords("").expect("nothing granted") as u32, DENY_ALL);
    match permissions_from_keywords("print, fly") {
        Err(PdfError::Other(m)) => assert!(m.contains("\"fly\""), "{m}"),
        other => panic!("an unknown keyword is refused: {other:?}"),
    }
}

#[test]
fn the_six_conditions_are_each_reported_once() {
    for (view, relationship, files) in [("H", "EncryptedPayload", 1), ("D", "Data", 3)] {
        let (arena, trailer) = wrapper(view, relationship, files);
        let p = EncryptionReport::survey(&arena, &trailer, false, None, vec![]).payload.expect("recognised");
        assert_eq!(p.conditions_met.len() + p.conditions_unmet.len(), 6);
        for c in &p.conditions_met {
            assert!(!p.conditions_unmet.contains(c), "{c} is both met and unmet");
        }
    }
}
