use fepdf_model::catalog::{key_type, models_contents, support_for, table_29, CatalogReport, Support, CATALOG_KEYS};
use fepdf_model::error::PdfError;
use fepdf_model::object::{Arena, Dict, Object};

fn name(s: &str) -> Object {
    Object::Name(s.to_string())
}

fn dict(entries: Vec<(&str, Object)>) -> Dict {
    Dict { entries: entries.into_iter().map(|(k, v)| (k.to_string(), v)).collect() }
}

/// The classifier reads the type as the macro writes it, whitespace already stripped.
#[test]
fn the_arenas_own_types_do_not_count_as_modelling() {
    assert!(!models_contents("Option<Object>"));
    assert!(!models_contents("Object"));
    assert!(!models_contents("Option<Handle<Object>>"));
    assert!(!models_contents("Handle<Object>"));
    assert!(!models_contents("Option<Handle<PdfName>>"));

    assert!(models_contents("Option<ViewerPreferences>"));
    assert!(models_contents("Option<PageMode>"));
    assert!(models_contents("Option<String>"), "a text string is 7.9.2.2, not the arena");
    assert!(models_contents("Option<bool>"));
}

#[test]
fn table_29_has_every_key_once() {
    let mut keys: Vec<&str> = (0..CATALOG_KEYS).map(|i| table_29(i).0).collect();
    let before = keys.len();
    keys.sort_unstable();
    keys.dedup();
    assert_eq!(keys.len(), before, "a key is listed twice");
    assert_eq!(before, 32, "ISO 32000-2 Table 29 defines 32 entries");
}

#[test]
fn every_key_of_the_catalogue_has_a_declared_type() {
    for i in 0..CATALOG_KEYS {
        let (key, _) = table_29(i);
        assert!((0..CATALOG_KEYS).any(|j| key_type(j).0 == key), "/{key} has no field");
    }
}

#[test]
fn support_follows_the_declared_type() {
    assert_eq!(support_for("ViewerPreferences"), Support::Modelled, "a domain type");
    assert_eq!(support_for("PageMode"), Support::Modelled);
    assert_eq!(support_for("Dests"), Support::Modelled);
    assert_eq!(support_for("DSS"), Support::Declared, "Option<Object>");
    assert_eq!(support_for("DPartRoot"), Support::Declared);
    assert_eq!(support_for("Type"), Support::Declared);
    assert_eq!(support_for("PieceInfoX"), Support::Untyped, "not a Table 29 key");
}

#[test]
fn the_survey_reports_each_entry_and_what_is_absent() {
    let catalog = dict(vec![
        ("Type", name("Catalog")),
        ("Pages", Object::Reference(2)),
        ("PageMode", name("UseNone")),
        ("PieceInfoX", Object::Integer(3)),
    ]);
    let pages = dict(vec![("Type", name("Pages")), ("Count", Object::Integer(0))]);
    let arena = Arena { objects: vec![Object::Null, Object::Dictionary(catalog), Object::Dictionary(pages)] };
    let trailer = dict(vec![("Root", Object::Reference(1))]);
    let report = CatalogReport::survey(&arena, &trailer, vec![]).expect("a catalogue");
    let keys: Vec<&str> = report.entries.iter().map(|e| e.key.as_str()).collect();
    assert_eq!(keys, vec!["PageMode", "Pages", "PieceInfoX", "Type"], "in key order");
    assert_eq!(report.absent.len(), 32 - 3, "every Table 29 key it does not carry");
    let extra = report.entries.iter().find(|e| e.key == "PieceInfoX").expect("listed");
    assert!(!extra.standard);
    assert_eq!(extra.value, "3");
    let (modelled, declared, type_only, untyped) = report.support_counts();
    assert_eq!(modelled + declared + type_only + untyped, report.entries.len(), "the counts add up");
    assert_eq!((modelled, declared, type_only, untyped), (2, 1, 0, 1), "/PageMode and /Pages; /Type; the private key");
    assert_eq!(report.unmodelled().len(), 2);
}

#[test]
fn a_file_without_a_root_has_no_catalogue() {
    let arena = Arena { objects: vec![Object::Null] };
    match CatalogReport::survey(&arena, &dict(vec![]), vec![]) {
        Err(PdfError::Arena(m)) => assert_eq!(m, "the file names no /Root"),
        Ok(_) => panic!("no catalogue to report"),
        Err(e) => panic!("wrong error: {e:?}"),
    }
    let trailer = dict(vec![("Root", Object::Reference(7))]);
    match CatalogReport::survey(&arena, &trailer, vec![]) {
        Err(PdfError::Arena(m)) => assert_eq!(m, "/Root does not resolve to a dictionary"),
        Ok(_) => panic!("no catalogue to report"),
        Err(e) => panic!("wrong error: {e:?}"),
    }
}

#[test]
fn coverage_lists_every_key_of_table_29() {
    let coverage = CatalogReport::coverage();
    assert_eq!(coverage.len(), 32);
    let count = |want: Support| coverage.iter().filter(|(_, s)| *s == want).count();
    assert_eq!(count(Support::Modelled) + count(Support::Declared), 32);
    assert!(count(Support::Modelled) > 0 && count(Support::Declared) > 0);
}

#[test]
fn declaring_a_key_is_counted_apart_from_modelling_it() {
    let coverage = CatalogReport::coverage();
    let count = |want: Support| coverage.iter().filter(|(_, s)| *s == want).count();
    let modelled = count(Support::Modelled);
    let declared = count(Support::Declared);

    assert_eq!(modelled + declared, CATALOG_KEYS, "coverage must agree with the schema");
    assert_eq!(modelled + declared, 32, "every Table 29 key has a field");
    assert!(modelled > 0 && declared > 0, "both levels must be reachable to be a signal");

    assert_eq!(support_for("ViewerPreferences"), Support::Modelled, "a domain type");
    assert_eq!(support_for("PageMode"), Support::Modelled);
    assert_eq!(support_for("Dests"), Support::Modelled);
    assert_eq!(support_for("DSS"), Support::Declared, "Option<Object>, zero in the corpus");
    assert_eq!(support_for("DPartRoot"), Support::Declared);
    assert_eq!(support_for("Metadata"), Support::Declared);
}
