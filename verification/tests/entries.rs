use fepdf_model::document::entries::{
    entry, AcroForm, DeclaredVersion, FromPdfObject, Located, MarkInfo, NameDictionary, OutlineRoot, OutputIntent,
    OutputIntents, PageLabels, PageTreeRoot, StructTreeRoot, TriggeredAction, XmpMetadata,
};
use fepdf_model::document::{Direction, Duplex, PageBoundary, PageLayout, PageMode, PdfCatalog, PrintScaling, ViewerPreferences};
use fepdf_model::error::PdfError;
use fepdf_model::object::{Arena, Dict, Object};

fn name(s: &str) -> Object {
    Object::Name(s.to_string())
}

fn string(s: &str) -> Object {
    Object::String(s.as_bytes().to_vec())
}

fn dict(entries: Vec<(&str, Object)>) -> Dict {
    Dict { entries: entries.into_iter().map(|(k, v)| (k.to_string(), v)).collect() }
}

fn empty() -> Arena {
    Arena { objects: vec![Object::Null] }
}

/// `/Version` is two numbers, and comparing it as text gets 1.10 and 1.9 backwards.
#[test]
fn a_declared_version_is_parsed_into_its_numbers() {
    let arena = empty();
    let v = DeclaredVersion::from_pdf_object(&name("2.0"), &arena).expect("reads");
    assert_eq!(v.numbers(), Some((2, 0)));

    let ten = DeclaredVersion::from_pdf_object(&name("1.10"), &arena).expect("reads");
    let nine = DeclaredVersion::from_pdf_object(&name("1.9"), &arena).expect("reads");
    assert!(ten.numbers() > nine.numbers(), "1.10 is later than 1.9");
}

/// A name that is not a version is kept, not refused.
#[test]
fn a_version_that_is_not_a_version_is_kept_verbatim() {
    let v = DeclaredVersion::from_pdf_object(&name("NotAVersion"), &empty()).expect("reads");
    assert_eq!(v, DeclaredVersion::Other("NotAVersion".into()));
    assert_eq!(v.numbers(), None);
}

#[test]
fn a_version_number_reads_as_u8_reads_it() {
    let arena = empty();
    let read = |s: &str| DeclaredVersion::from_pdf_object(&name(s), &arena).expect("a name").numbers();
    assert_eq!(read("+1.7"), Some((1, 7)), "a leading plus is accepted");
    assert_eq!(read("01.007"), Some((1, 7)), "leading zeros are accepted");
    assert_eq!(read("1.256"), None, "beyond a byte");
    assert_eq!(read("1."), None);
    assert_eq!(read(".7"), None);
    assert_eq!(read("1.2.3"), None, "split at the first dot");
    assert_eq!(read("-1.2"), None);
    assert!(DeclaredVersion::from_pdf_object(&Object::Integer(2), &arena).is_err(), "not a name");
}

/// The three booleans of Table 321 stay apart from "not written".
#[test]
fn mark_info_keeps_unstated_apart_from_false() {
    let m = MarkInfo::from_pdf_object(&Object::Dictionary(dict(vec![("Marked", Object::Boolean(true))])), &empty())
        .expect("reads");
    assert_eq!(m.marked, Some(true));
    assert_eq!(m.suspects, None, "unwritten is not `false`");
}

#[test]
fn an_entry_of_the_wrong_kind_fails_its_reader() {
    let bad = Object::Dictionary(dict(vec![("Marked", Object::Integer(1))]));
    match MarkInfo::from_pdf_object(&bad, &empty()) {
        Err(PdfError::Other(m)) => assert_eq!(m, "/Marked is not a boolean"),
        _ => panic!("/Marked 1 is not a boolean"),
    }
    assert!(MarkInfo::from_pdf_object(&Object::Integer(42), &empty()).is_err());
}

/// `/SigFlags` is a bit field: 3 means both flags, not "three signatures".
#[test]
fn signature_flags_are_bits() {
    let form_dict = Object::Dictionary(dict(vec![("SigFlags", Object::Integer(3)), ("NeedAppearances", Object::Boolean(true))]));
    let arena = empty();
    let form = AcroForm::from_pdf_object(&form_dict, &arena).expect("reads");
    let flags = form.signature_flags.expect("present");
    assert!(flags.signatures_exist && flags.append_only);
    assert_eq!(form.need_appearances, Some(true));
    assert!(form.default_appearance.is_none());
}

/// `/OpenAction` is a destination array *or* an action dictionary.
#[test]
fn an_open_action_reads_both_of_its_shapes() {
    let arena = empty();
    let destination = Object::Array(vec![Object::Reference(3), name("Fit")]);
    assert!(matches!(
        TriggeredAction::from_pdf_object(&destination, &arena).expect("reads"),
        TriggeredAction::Destination(_)
    ));

    let action = Object::Dictionary(dict(vec![("S", name("URI")), ("URI", string("https://example.invalid"))]));
    let TriggeredAction::Action(action) = TriggeredAction::from_pdf_object(&action, &arena).expect("reads") else {
        panic!("a dictionary is an action");
    };
    assert_eq!(action.action.as_str(), "URI");
    assert_eq!(action.uri.as_deref(), Some("https://example.invalid"));
}

#[test]
fn an_open_action_that_is_neither_shape_is_refused() {
    match TriggeredAction::from_pdf_object(&Object::Integer(7), &empty()) {
        Err(PdfError::Other(m)) => assert_eq!(m, "/OpenAction is a destination or an action, not an integer"),
        _ => panic!("an integer is neither"),
    }
    let no_s = Object::Dictionary(dict(vec![("URI", string("x"))]));
    assert!(TriggeredAction::from_pdf_object(&no_s, &empty()).is_err(), "/S is required");
}

/// The label tree is read as ranges, in page order, whatever order the tree holds.
#[test]
fn page_labels_are_read_as_ranges_in_page_order() {
    let tree = Object::Dictionary(dict(vec![(
        "Nums",
        Object::Array(vec![
            Object::Integer(4),
            Object::Dictionary(dict(vec![("S", name("D")), ("St", Object::Integer(1))])),
            Object::Integer(0),
            Object::Dictionary(dict(vec![("S", name("r")), ("P", string("front-"))])),
        ]),
    )]));
    let arena = empty();
    let labels = PageLabels::from_pdf_object(&tree, &arena).expect("reads");
    assert_eq!(labels.ranges.len(), 2);
    assert_eq!(labels.ranges[0].from_page, 0);
    assert_eq!(labels.ranges[0].style.as_deref(), Some("r"));
    assert_eq!(labels.ranges[0].prefix.as_deref(), Some("front-"));
    assert_eq!(labels.ranges[0].start_at, None, "unwritten, not defaulted to 1");
    assert_eq!(labels.ranges[1].from_page, 4);
    assert_eq!(labels.ranges[1].start_at, Some(1));
    assert_eq!(labels.unreadable, 0);
}

/// A tree entry that is not a label dictionary is counted, not dropped.
#[test]
fn a_label_that_will_not_read_is_counted() {
    let tree = Object::Dictionary(dict(vec![(
        "Nums",
        Object::Array(vec![
            Object::Integer(0),
            Object::Dictionary(dict(vec![("S", name("D"))])),
            Object::Integer(2),
            Object::Integer(42),
        ]),
    )]));
    let arena = empty();
    let labels = PageLabels::from_pdf_object(&tree, &arena).expect("reads");
    assert_eq!(labels.ranges.len(), 1);
    assert_eq!(labels.unreadable, 1);
}

#[test]
fn labels_in_kids_come_before_the_nodes_own_and_ties_keep_tree_order() {
    let kid = Object::Dictionary(dict(vec![(
        "Nums",
        Object::Array(vec![Object::Integer(3), Object::Dictionary(dict(vec![("P", string("kid"))]))]),
    )]));
    let arena = Arena { objects: vec![Object::Null, kid] };
    let tree = Object::Dictionary(dict(vec![
        ("Kids", Object::Array(vec![Object::Reference(1)])),
        (
            "Nums",
            Object::Array(vec![
                Object::Integer(3),
                Object::Dictionary(dict(vec![("P", string("own"))])),
                Object::Integer(1),
                Object::Dictionary(dict(vec![])),
                name("odd"),
            ]),
        ),
    ]));
    let labels = PageLabels::from_pdf_object(&tree, &arena).expect("reads");
    let order: Vec<(i64, Option<&str>)> = labels.ranges.iter().map(|r| (r.from_page, r.prefix.as_deref())).collect();
    assert_eq!(order, vec![(1, None), (3, Some("kid")), (3, Some("own"))]);
}

#[test]
fn a_label_tree_that_names_itself_stops() {
    let looping = Object::Dictionary(dict(vec![
        ("Kids", Object::Array(vec![Object::Reference(1)])),
        ("Nums", Object::Array(vec![Object::Integer(0), Object::Dictionary(dict(vec![]))])),
    ]));
    let arena = Arena { objects: vec![Object::Null, looping] };
    let labels = PageLabels::from_pdf_object(&Object::Reference(1), &arena).expect("reads");
    assert_eq!(labels.ranges.len(), 64, "one range for each level followed");
}

/// `/Names` reports which trees exist and how big each is.
#[test]
fn the_name_dictionary_reports_a_tree_and_its_size() {
    let names = Object::Dictionary(dict(vec![
        (
            "JavaScript",
            Object::Dictionary(dict(vec![(
                "Names",
                Object::Array(vec![string("a"), Object::Reference(1), string("b"), Object::Reference(2)]),
            )])),
        ),
        ("EmbeddedFiles", Object::Dictionary(dict(vec![("Names", Object::Array(vec![string("f"), Object::Reference(3)]))]))),
    ]));
    let arena = empty();
    let names = NameDictionary::from_pdf_object(&names, &arena).expect("reads");
    let js = names.trees.iter().find(|t| t.key == "JavaScript").expect("declared");
    assert_eq!(js.names, 2);
    assert!(!names.trees.iter().any(|t| t.key == "Dests"), "not declared");
    assert_eq!(names.trees.len(), 2);
    assert_eq!(names.trees[0].key, "JavaScript", "in Table 31's order");
}

/// An array element that will not read is counted, and the others still read.
#[test]
fn one_bad_output_intent_does_not_lose_the_others() {
    let intents = Object::Array(vec![
        Object::Dictionary(dict(vec![("S", name("GTS_PDFA1")), ("OutputConditionIdentifier", string("sRGB"))])),
        Object::Integer(42),
        Object::Dictionary(dict(vec![("S", name("GTS_PDFX"))])),
    ]);
    let arena = empty();
    let intents = OutputIntents::from_pdf_object(&intents, &arena).expect("reads");
    assert_eq!(intents.intents.len(), 2);
    assert_eq!(intents.unreadable, 1);
    assert_eq!(intents.intents[0].subtype.as_deref(), Some("GTS_PDFA1"));
    assert_eq!(intents.intents[0].condition_identifier.as_deref(), Some("sRGB"));
}

/// `Located` keeps the object number *and* the contents.
#[test]
fn a_located_entry_carries_both_where_and_what() {
    let root = || Object::Dictionary(dict(vec![("Count", Object::Integer(7))]));
    let arena = Arena { objects: vec![Object::Null, root()] };
    let located = Located::<PageTreeRoot>::from_pdf_object(&Object::Reference(1), &arena).expect("reads");
    assert_eq!(located.reference, Some(1));
    assert_eq!(located.value.declared_pages, Some(7));

    // Written in place, so there is no reference to keep.
    let in_place = root();
    let direct = Located::<PageTreeRoot>::from_pdf_object(&in_place, &arena).expect("reads");
    assert_eq!(direct.reference, None);
    assert_eq!(direct.value.declared_pages, Some(7));
}

#[test]
fn a_reference_to_nothing_says_so_plainly() {
    let arena = empty();
    match Located::<PageTreeRoot>::from_pdf_object(&Object::Reference(5), &arena) {
        Err(PdfError::Arena(m)) => assert_eq!(m, "object 5 does not resolve"),
        _ => panic!("object 5 is not in the file"),
    }
}

#[test]
fn an_entry_reads_alone_and_absent_is_not_an_error() {
    let catalog = Object::Dictionary(dict(vec![
        ("Pages", Object::Dictionary(dict(vec![("Count", Object::Integer(3))]))),
        ("MarkInfo", Object::Integer(42)),
    ]));
    let arena = empty();
    let pages: Option<Located<PageTreeRoot>> = entry(&arena, &catalog, "Pages").expect("reads");
    assert_eq!(pages.expect("present").value.declared_pages, Some(3));
    assert!(entry::<MarkInfo>(&arena, &catalog, "MarkInfo").is_err(), "still reported");
    assert!(entry::<MarkInfo>(&arena, &catalog, "Outlines").expect("absent").is_none());
    match entry::<MarkInfo>(&arena, &Object::Integer(1), "MarkInfo") {
        Err(PdfError::Other(m)) => assert_eq!(m, "the catalogue is not a dictionary (7.7.2)"),
        _ => panic!("no catalogue"),
    }
}

/// Every reader here declares the clause it reads.
#[test]
fn each_reader_names_its_clause() {
    assert_eq!(MarkInfo::iso_clause(), "14.7.1");
    assert_eq!(AcroForm::iso_clause(), "12.7.2");
    assert_eq!(OutputIntent::iso_clause(), "14.11.5");
    assert_eq!(OutlineRoot::iso_clause(), "12.3.3");
    assert_eq!(StructTreeRoot::iso_clause(), "14.7.4.2");
    assert_eq!(PageTreeRoot::iso_clause(), "7.7.3.2");
}

#[test]
fn outline_ends_are_object_numbers() {
    let root = Object::Dictionary(dict(vec![
        ("First", Object::Reference(4)),
        ("Last", Object::Reference(9)),
        ("Count", Object::Integer(-2)),
    ]));
    let arena = empty();
    let outline = OutlineRoot::from_pdf_object(&root, &arena).expect("reads");
    assert_eq!((outline.first, outline.last, outline.visible_count), (Some(4), Some(9), Some(-2)));
    let direct = Object::Dictionary(dict(vec![("First", Object::Dictionary(dict(vec![])))]));
    assert!(OutlineRoot::from_pdf_object(&direct, &empty()).is_err(), "/First is an indirect reference");
}

#[test]
fn metadata_counts_the_bytes_of_the_decoded_packet() {
    let stream = Object::Stream(
        dict(vec![("Subtype", name("XML")), ("Filter", name("ASCIIHexDecode"))]),
        b"3c783e>".to_vec(),
    );
    let arena = empty();
    let meta = XmpMetadata::from_pdf_object(&stream, &arena).expect("a stream");
    assert_eq!(meta.subtype.as_deref(), Some("XML"));
    assert_eq!(meta.packet_bytes, 3);
    let broken = Object::Stream(dict(vec![("Filter", name("NoSuchDecode"))]), b"x".to_vec());
    assert_eq!(XmpMetadata::from_pdf_object(&broken, &empty()).expect("a stream").packet_bytes, 0);
    assert!(XmpMetadata::from_pdf_object(&Object::Dictionary(dict(vec![])), &empty()).is_err());
}

/// One entry reads even when another will not, which is what keeps a document with one
/// bad key openable.
#[test]
fn one_entry_reads_without_the_rest_of_the_catalogue() {
    let catalog = Object::Dictionary(dict(vec![
        ("Type", name("Catalog")),
        ("Pages", Object::Dictionary(dict(vec![("Count", Object::Integer(3))]))),
        ("MarkInfo", Object::Integer(42)),
    ]));
    let arena = empty();
    let pages: Option<Located<PageTreeRoot>> = entry(&arena, &catalog, "Pages").expect("reads");
    assert_eq!(pages.expect("present").value.declared_pages, Some(3));

    // The whole catalogue does not read, and that is the point of the narrow one.
    assert!(PdfCatalog::from_pdf_object(&catalog, &arena).is_err());
    assert!(entry::<MarkInfo>(&arena, &catalog, "MarkInfo").is_err(), "still reported");
    assert!(entry::<MarkInfo>(&arena, &catalog, "Outlines").expect("absent").is_none(), "an entry the catalogue does not carry is not an error");
}

#[test]
fn a_whole_catalogue_reads_every_entry() {
    let catalog = Object::Dictionary(dict(vec![
        ("Type", name("Catalog")),
        ("Pages", Object::Reference(1)),
        ("PageMode", name("UseOutlines")),
        ("PageLayout", name("SomethingNewer")),
        ("Lang", string("en-GB")),
        ("ViewerPreferences", Object::Dictionary(dict(vec![("DisplayDocTitle", Object::Boolean(true)), ("Direction", name("R2L"))]))),
        ("DSS", Object::Integer(5)),
    ]));
    let arena = Arena { objects: vec![Object::Null, Object::Dictionary(dict(vec![("Count", Object::Integer(2))]))] };
    let c = PdfCatalog::from_pdf_object(&catalog, &arena).expect("reads");
    assert_eq!(c.catalog_type.as_deref(), Some("Catalog"));
    let pages = c.pages.expect("present");
    assert_eq!((pages.reference, pages.value.declared_pages), (Some(1), Some(2)));
    assert!(matches!(c.page_mode, Some(PageMode::UseOutlines)));
    assert!(matches!(c.page_layout, Some(PageLayout::Other(ref n)) if n == "SomethingNewer"));
    assert_eq!(c.lang.as_deref(), Some("en-GB"));
    let prefs = c.viewer_preferences.expect("present");
    assert_eq!(prefs.display_doc_title, Some(true));
    assert_eq!(prefs.hide_toolbar, None, "unwritten, not false");
    assert!(matches!(prefs.direction, Some(Direction::R2L)));
    assert!(matches!(c.dss, Some(Object::Integer(5))), "reachable as written");
    assert!(c.mark_info.is_none() && c.outlines.is_none());
}

#[test]
fn a_viewer_preference_of_the_wrong_kind_fails_the_preferences() {
    let prefs = Object::Dictionary(dict(vec![("Duplex", Object::Integer(2))]));
    assert!(ViewerPreferences::from_pdf_object(&prefs, &empty()).is_err());
    let ok = Object::Dictionary(dict(vec![("Duplex", name("DuplexFlipLongEdge")), ("NumCopies", Object::Integer(2))]));
    let arena = empty();
    let read = ViewerPreferences::from_pdf_object(&ok, &arena).expect("reads");
    assert!(matches!(read.duplex, Some(Duplex::DuplexFlipLongEdge)));
    assert_eq!(read.num_copies, Some(2));
}

#[test]
fn a_print_scaling_of_none_is_no_scaling() {
    let arena = empty();
    assert!(matches!(PrintScaling::from_object(&arena, &name("None")), Ok(PrintScaling::NoScaling)));
    assert!(matches!(PageBoundary::from_object(&arena, &name("CropBox")), Ok(PageBoundary::CropBox)));
    match PageMode::from_object(&arena, &Object::Integer(1)) {
        Err(PdfError::Parse { pos, message }) => assert_eq!((pos, message.as_str()), (0, "expected a name")),
        _ => panic!("an integer is no page mode"),
    }
    assert_eq!(Direction::Other("TTB".to_string()).as_name(), "TTB");
}
