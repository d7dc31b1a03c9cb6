use fepdf_model::annotation::entries_read_for;
use fepdf_model::catalog::CatalogReport;
use fepdf_model::coverage::Coverage;
use fepdf_model::file_structure::take_filter_census;
use fepdf_model::object::{Arena, Dict, Object};

fn name(s: &str) -> Object {
    Object::Name(s.to_string())
}

fn dict(entries: Vec<(&str, Object)>) -> Dict {
    Dict { entries: entries.into_iter().map(|(k, v)| (k.to_string(), v)).collect() }
}

fn ints(v: &[i64]) -> Object {
    Object::Array(v.iter().map(|&i| Object::Integer(i)).collect())
}

/// A file carrying two catalogue keys, one annotation and one filtered stream, as the
/// document reader assembles it.
fn small_document() -> (Arena, Dict) {
    let catalog = dict(vec![("Type", name("Catalog")), ("Pages", Object::Reference(2)), ("PageMode", name("UseNone"))]);
    let pages = dict(vec![
        ("Type", name("Pages")),
        ("Kids", Object::Array(vec![Object::Reference(3)])),
        ("Count", Object::Integer(1)),
    ]);
    let page = dict(vec![
        ("Type", name("Page")),
        ("Parent", Object::Reference(2)),
        ("MediaBox", ints(&[0, 0, 10, 10])),
        ("Contents", Object::Reference(4)),
        ("Annots", Object::Array(vec![Object::Reference(5)])),
    ]);
    let content = Object::Stream(
        dict(vec![("Length", Object::Integer(5)), ("Filter", name("ASCIIHexDecode"))]),
        b"BT ET".to_vec(),
    );
    let link = dict(vec![
        ("Type", name("Annot")),
        ("Subtype", name("Link")),
        ("Rect", ints(&[0, 0, 1, 1])),
        ("Dest", Object::Array(vec![Object::Reference(3), name("Fit")])),
    ]);
    let arena = Arena {
        objects: vec![
            Object::Null,
            Object::Dictionary(catalog),
            Object::Dictionary(pages),
            Object::Dictionary(page),
            content,
            Object::Dictionary(link),
        ],
    };
    let trailer = dict(vec![("Size", Object::Integer(6)), ("Root", Object::Reference(1))]);
    (arena, trailer)
}

/// Measures the small document: its catalogue, its annotation's entries with whether
/// that subtype's readers read each, and the filters its streams name.
fn measure() -> Coverage {
    let (arena, trailer) = small_document();
    let catalog = CatalogReport::survey(&arena, &trailer, vec![]).expect("a catalogue");
    let mut annotations = Vec::new();
    if let Object::Dictionary(link) = &arena.objects[5] {
        let read = entries_read_for("Link");
        for (key, _) in &link.entries {
            annotations.push(("Link".to_string(), key.clone(), read.contains(&key.as_str())));
        }
    }
    let filters = take_filter_census(&arena);
    Coverage::of(&catalog, &annotations, &filters)
}

/// Reaching an entry is not reading it.
#[test]
fn a_declared_entry_is_presented_and_not_read() {
    let c = measure();
    let unread = c.unread("catalogue entries");
    assert!(unread.contains(&"Type".to_string()), "typed `Handle<PdfName>`: {unread:?}");
    assert!(!unread.contains(&"PageMode".to_string()), "typed `Option<PageMode>`");
    assert!(!unread.contains(&"Pages".to_string()), "`Located<PageTreeRoot>`");
}

/// A filter the engine decodes counts; the axis is per name, not per stream.
#[test]
fn a_decoded_filter_counts_once_however_many_streams_use_it() {
    let c = measure();
    let filters = c.axes().into_iter().find(|a| a.axis == "stream filters").expect("axis");
    assert_eq!(filters.presented, 1);
    assert_eq!(filters.read, 1, "/ASCIIHexDecode decodes");
}

/// Merging two files counts a shared construct once.
#[test]
fn merging_two_files_does_not_count_a_construct_twice() {
    let mut a = measure();
    let b = measure();
    let before = a.total();
    a.merge(&b);
    assert_eq!(a.total(), before, "the same file twice presents the same constructs");
}

#[test]
fn a_construct_no_file_carries_counts_in_neither_direction() {
    let c = measure();
    let axes = c.axes();
    let catalogue = axes.iter().find(|a| a.axis == "catalogue entries").expect("axis");
    assert_eq!(catalogue.presented, 3, "/Type, /Pages and /PageMode, and nothing the file lacks");
    assert_eq!(catalogue.read, 2);
    assert!(!c.unread("catalogue entries").contains(&"DPartRoot".to_string()));
}

#[test]
fn what_is_read_is_always_among_what_is_presented() {
    let c = measure();
    for axis in c.axes() {
        assert!(axis.read <= axis.presented, "{}", axis.axis);
    }
    let (read, presented) = c.total();
    assert!(read <= presented);
}

#[test]
fn merging_adds_what_only_the_other_file_presents() {
    let mut a = Coverage::new();
    let b = measure();
    a.merge(&b);
    assert_eq!(a.total(), b.total());
    assert!(a.unread("no such axis").is_empty());
}
