use fepdf_model::decision::Decision;
use fepdf_model::file_structure::{FileStructure, XrefForm, XrefRecord, XrefSection};
use fepdf_model::object::{Arena, Dict, Object};

fn name(s: &str) -> Object {
    Object::Name(s.to_string())
}

fn dict(entries: Vec<(&str, Object)>) -> Dict {
    Dict { entries: entries.into_iter().map(|(k, v)| (k.to_string(), v)).collect() }
}

fn free(next: u32, generation: u16) -> XrefRecord {
    XrefRecord::Free { next, generation }
}

fn at(offset: u64) -> XrefRecord {
    XrefRecord::InFile { offset, generation: 0 }
}

fn inside(container: u32, index: u32) -> XrefRecord {
    XrefRecord::InObjectStream { container, index }
}

/// Two revisions written as tables: object 2 is rewritten directly and object 3 freed,
/// as the cross-reference reader finds them.
fn incrementally_updated() -> Vec<(u64, Option<XrefSection>)> {
    vec![
        (
            120,
            Some(XrefSection {
                entries: vec![(0, free(0, 65535)), (1, free(0, 65535)), (2, at(0)), (3, at(0)), (4, at(9))],
                has_trailer: true,
                form: XrefForm::Table,
            }),
        ),
        (
            262,
            Some(XrefSection {
                entries: vec![(0, free(0, 65535)), (2, at(229)), (3, free(0, 1))],
                has_trailer: true,
                form: XrefForm::Table,
            }),
        ),
    ]
}

/// Two revisions written as cross-reference streams: objects 2 and 3 start inside
/// container 4; revision 2 rewrites 2 as a direct object and frees 3.
fn updated_with_xref_streams() -> Vec<(u64, Option<XrefSection>)> {
    vec![
        (
            112,
            Some(XrefSection {
                entries: vec![
                    (0, free(0, 65535)),
                    (1, free(0, 0)),
                    (2, inside(4, 0)),
                    (3, inside(4, 1)),
                    (4, at(9)),
                    (5, at(112)),
                ],
                has_trailer: true,
                form: XrefForm::Stream,
            }),
        ),
        (
            290,
            Some(XrefSection {
                entries: vec![(2, at(261)), (3, free(0, 1)), (6, at(290))],
                has_trailer: true,
                form: XrefForm::Stream,
            }),
        ),
    ]
}

fn survey(sections: &Vec<(u64, Option<XrefSection>)>, header_offset: usize, decisions: Vec<Decision>) -> FileStructure {
    let arena = Arena { objects: vec![Object::Null] };
    FileStructure::survey("2.0".to_string(), header_offset, 400, sections, &vec![], None, decisions, &arena)
}

#[test]
fn every_revision_is_reported_oldest_first() {
    let s = survey(&incrementally_updated(), 0, vec![]);
    assert_eq!(s.revisions.len(), 2);
    assert_eq!(s.revisions[0].index, 1);
    assert!(s.revisions[0].offset < s.revisions[1].offset);
    assert!(s.revisions.iter().all(|r| r.form == "table"));
}

#[test]
fn the_census_follows_the_newest_revision_not_the_oldest() {
    let s = survey(&updated_with_xref_streams(), 0, vec![]);
    assert_eq!(s.revisions.len(), 2);
    assert!(s.revisions.iter().all(|r| r.form == "stream"));
    assert_eq!(s.superseded, 2, "objects 2 and 3 are defined by both revisions");
    assert_eq!(s.objects.in_object_stream, 0, "both objects moved out of container 4; the newest revision says so");
    assert_eq!(s.objects.free, 3, "objects 0 and 1 were always free; 3 was freed");
    assert_eq!(s.object_streams.len(), 0, "no container still carries anything");
}

#[test]
fn a_clean_file_reports_no_decisions() {
    let s = survey(&incrementally_updated(), 0, vec![]);
    assert!(s.is_conforming(), "unexpected decisions: {:?}", s.decisions);
    assert_eq!(s.decision_counts(), (0, 0, 0));
}

#[test]
fn a_prefixed_file_reports_the_header_offset_and_a_repair() {
    // What the reader records of 300 bytes before `%PDF-`.
    let repair = Decision::repaired("7.5.2", "%PDF- at byte 300".to_string(), "read offsets from the header");
    let s = survey(&incrementally_updated(), 300, vec![repair]);
    assert_eq!(s.header_offset, 300);
    assert!(!s.is_conforming(), "300 bytes before %PDF- is a departure (7.5.2)");
    assert!(s.decisions.iter().any(|d| d.clause == "7.5.2"));
    assert_eq!(s.decision_counts(), (0, 1, 0));
}

#[test]
fn a_census_from_scanning_says_so() {
    // The chain yields nothing, so the census follows the scan (7.5.4).
    let scanned = vec![(4, 9), (2, 120), (2, 229)];
    let arena = Arena { objects: vec![Object::Null] };
    let fallback = Decision::repaired("7.5.4", "startxref names no section".to_string(), "scanned for objects");
    let s = FileStructure::survey("2.0".to_string(), 0, 400, &vec![], &scanned, None, vec![fallback], &arena);
    assert!(s.revisions.is_empty(), "the damaged chain must yield no revision");
    assert!(s.objects.from_scan, "the census came from a scan and must say so");
    assert_eq!(s.objects.in_file, 2, "objects 2 and 4, the later 2 counted once");
    assert_eq!(s.objects.highest_number, 4);
    assert!(s.decisions.iter().any(|d| d.clause == "7.5.4"));
}

#[test]
fn a_section_that_will_not_read_keeps_its_place_in_the_numbering() {
    let mut sections = incrementally_updated();
    sections.insert(1, (200, None));
    let s = survey(&sections, 0, vec![]);
    let indices: Vec<usize> = s.revisions.iter().map(|r| r.index).collect();
    assert_eq!(indices, vec![1, 3]);
    assert_eq!(s.revisions[1].entries, 3);
}

#[test]
fn object_streams_are_listed_largest_first() {
    let sections = vec![(
        10,
        Some(XrefSection {
            entries: vec![(1, inside(7, 0)), (2, inside(9, 0)), (3, inside(9, 1)), (4, inside(5, 0)), (7, at(1)), (9, at(2))],
            has_trailer: true,
            form: XrefForm::Stream,
        }),
    )];
    let s = survey(&sections, 0, vec![]);
    let streams: Vec<(u32, usize)> = s.object_streams.iter().map(|o| (o.container, o.carries)).collect();
    assert_eq!(streams, vec![(9, 2), (5, 1), (7, 1)], "then by number");
    assert_eq!(s.objects.in_object_stream, 4);
    assert_eq!(s.superseded, 0);
}

/// One image XObject, one content stream, and a dictionary that carries `/Filter`
/// without being a stream.
fn file_with_an_undecodable_image() -> (Arena, Dict) {
    let catalog = dict(vec![("Type", name("Catalog")), ("Pages", Object::Reference(2))]);
    let pages = dict(vec![("Type", name("Pages")), ("Kids", Object::Array(vec![Object::Reference(3)])), ("Count", Object::Integer(1))]);
    let page = dict(vec![
        ("Type", name("Page")),
        ("Parent", Object::Reference(2)),
        ("Resources", Object::Dictionary(dict(vec![("XObject", Object::Dictionary(dict(vec![("ImgX", Object::Reference(5))])))]))),
        ("Contents", Object::Reference(4)),
    ]);
    let content = Object::Stream(dict(vec![("Length", Object::Integer(29))]), b"q 10 0 0 10 0 0 cm /ImgX Do Q".to_vec());
    let image = Object::Stream(
        dict(vec![
            ("Type", name("XObject")),
            ("Subtype", name("Image")),
            ("Width", Object::Integer(1)),
            ("Height", Object::Integer(1)),
            ("ColorSpace", name("DeviceGray")),
            ("BitsPerComponent", Object::Integer(8)),
            ("Filter", name("XXXDecode")),
            ("Length", Object::Integer(4)),
        ]),
        vec![1, 2, 3, 4],
    );
    let handler = dict(vec![("Filter", name("Standard")), ("V", Object::Integer(2)), ("R", Object::Integer(3))]);
    let arena = Arena {
        objects: vec![
            Object::Null,
            Object::Dictionary(catalog),
            Object::Dictionary(pages),
            Object::Dictionary(page),
            content,
            image,
            Object::Dictionary(handler),
        ],
    };
    let trailer = dict(vec![("Size", Object::Integer(7)), ("Root", Object::Reference(1))]);
    (arena, trailer)
}

fn survey_image_file() -> FileStructure {
    let (arena, trailer) = file_with_an_undecodable_image();
    let section = XrefSection {
        entries: vec![(0, free(0, 65535)), (1, at(9)), (2, at(60)), (3, at(110)), (4, at(250)), (5, at(320)), (6, at(500))],
        has_trailer: true,
        form: XrefForm::Table,
    };
    FileStructure::survey("2.0".to_string(), 0, 700, &vec![(560, Some(section))], &vec![], Some(&trailer), vec![], &arena)
}

#[test]
fn an_undecodable_image_filter_is_counted_as_one() {
    let s = survey_image_file();
    let unknown = s
        .filters
        .iter()
        .find(|f| f.name == "XXXDecode")
        .unwrap_or_else(|| panic!("the census missed it: {:?}", s.filters));
    assert_eq!(unknown.streams, 1);
    assert_eq!(unknown.on_images, 1, "it is on an /XObject /Subtype /Image");
    assert!(!unknown.decoded, "no engine decodes a filter the standard does not define");
}

#[test]
fn a_security_handler_is_not_counted_as_a_stream_filter() {
    let s = survey_image_file();
    assert!(!s.filters.iter().any(|f| f.name == "Standard"), "the encryption dictionary is not a stream: {:?}", s.filters);
}

#[test]
fn the_trailer_says_whether_the_file_is_encrypted_and_rooted() {
    let s = survey_image_file();
    assert!(s.declares_root && !s.encrypted);
    assert_eq!(s.objects.in_file, 6);
    assert_eq!(s.objects.free, 1);
    assert!(!s.objects.from_scan);
}

#[test]
fn filters_are_counted_per_stream_and_listed_most_used_first() {
    let hex = |n: &str| Object::Stream(dict(vec![("Filter", name(n))]), vec![]);
    let chain = Object::Stream(dict(vec![("Filter", Object::Array(vec![name("ASCIIHexDecode"), name("FlateDecode")]))]), vec![]);
    let arena = Arena { objects: vec![Object::Null, hex("FlateDecode"), hex("ASCIIHexDecode"), chain, hex("FlateDecode")] };
    let s = FileStructure::survey("2.0".to_string(), 0, 0, &vec![], &vec![], None, vec![], &arena);
    let filters: Vec<(&str, usize, bool)> = s.filters.iter().map(|f| (f.name.as_str(), f.streams, f.decoded)).collect();
    assert_eq!(filters, vec![("FlateDecode", 3, true), ("ASCIIHexDecode", 2, true)]);
}
