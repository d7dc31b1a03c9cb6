use fepdf_model::decision::Severity;
use fepdf_model::document::{Access, Document};
use fepdf_model::object::{Arena, Dict, Object};

fn name(s: &str) -> Object {
    Object::Name(s.to_string())
}

fn dict(entries: Vec<(&str, Object)>) -> Dict {
    Dict { entries: entries.into_iter().map(|(k, v)| (k.to_string(), v)).collect() }
}

fn d(entries: Vec<(&str, Object)>) -> Object {
    Object::Dictionary(dict(entries))
}

fn refs(ns: &[u32]) -> Object {
    Object::Array(ns.iter().map(|n| Object::Reference(*n)).collect())
}

fn letter() -> Object {
    Object::Array(vec![Object::Integer(0), Object::Integer(0), Object::Integer(612), Object::Integer(792)])
}

/// A document with the given access level and permission bits, and nothing else.
fn with(access: Option<Access>, permissions: Option<i32>) -> Document {
    let arena = Arena { objects: vec![Object::Null] };
    let mut doc = Document::new(arena, 0, None);
    doc.access = access;
    doc.permissions = permissions;
    doc
}

/// A document of these objects, numbered from one, with the catalogue first: its pages
/// found and its page tree rebuilt over them.
fn open(objects: Vec<Object>) -> Document {
    let mut all = vec![Object::Null];
    all.extend(objects);
    let mut doc = Document::new(Arena { objects: all }, 1, None);
    doc.index_pages();
    doc.rebuild_page_tree_in_arena().expect("the page tree rebuilds");
    doc
}

#[test]
fn a_source_signature_is_reported_as_not_carried() {
    let mut doc = with(None, None);
    doc.provenance.signatures = 2;
    let decision = doc.signatures_lost_on_write().expect("a notice is owed");
    assert!(decision.found.contains('2'), "{:?}", decision);
    assert!(decision.action.contains("new document derived"), "{:?}", decision);
    assert!(!decision.action.contains("refus"), "nothing is refused: {:?}", decision);
}

#[test]
fn an_unsigned_source_says_nothing() {
    assert!(with(None, None).signatures_lost_on_write().is_none());
}

#[test]
fn user_access_against_a_restrictive_p_is_reported() {
    let doc = with(Some(Access::User), Some(-1036));
    let decision = doc.permissions_lost_on_write().expect("a notice is owed");
    assert!(decision.found.contains("modification"), "{:?}", decision);
    assert!(decision.found.contains("assembly"), "{:?}", decision);
    assert!(decision.action.contains("the output is modified"), "{:?}", decision);
    assert!(decision.action.contains("declares no permissions"), "{:?}", decision);
    assert!(
        !decision.action.contains("refus") && !decision.action.contains("declined"),
        "nothing is refused: {:?}",
        decision
    );
}

#[test]
fn owner_access_is_not_nagged() {
    assert!(with(Some(Access::Owner), Some(-1036)).permissions_lost_on_write().is_none());
}

#[test]
fn a_permissive_p_says_nothing() {
    assert!(with(Some(Access::User), Some(-4)).permissions_lost_on_write().is_none());
}

#[test]
fn an_unencrypted_document_says_nothing() {
    assert!(with(None, None).permissions_lost_on_write().is_none());
    assert!(with(None, Some(-1036)).permissions_lost_on_write().is_none());
}

#[test]
fn each_denied_bit_is_named() {
    let doc = with(Some(Access::User), Some(!0b0010_0000));
    let decision = doc.permissions_lost_on_write().expect("bit 6 is clear");
    assert!(decision.found.contains("annotation"), "{:?}", decision);
}

#[test]
fn the_permission_notice_names_p_and_joins_what_it_denies() {
    let doc = with(Some(Access::User), Some(-1036));
    let decision = doc.permissions_lost_on_write().unwrap();
    assert_eq!(decision.severity, Severity::Violation);
    assert_eq!(decision.clause, "7.6.4.2");
    assert_eq!(
        decision.found,
        "the document was opened with user access and its /P (-1036) permits no modification and no assembly"
    );
    let signed = with(None, None);
    let mut signed = signed;
    signed.provenance.signatures = 3;
    assert_eq!(signed.signatures_lost_on_write().unwrap().found, "the source carried 3 digital signature(s)");
}

#[test]
fn a_kids_that_names_an_ancestor_counts_its_page_once() {
    let mut doc = open(vec![
        d(vec![("Type", name("Catalog")), ("Pages", Object::Reference(2))]),
        d(vec![("Type", name("Pages")), ("Kids", refs(&[3, 4])), ("Count", Object::Integer(2))]),
        d(vec![("Type", name("Page")), ("Parent", Object::Reference(2)), ("MediaBox", letter())]),
        d(vec![
            ("Type", name("Pages")),
            ("Parent", Object::Reference(2)),
            ("Kids", refs(&[2])),
            ("Count", Object::Integer(1)),
        ]),
    ]);

    assert_eq!(doc.find_all_pages().len(), 1, "the file has one page object");

    let found = doc.decisions.iter().find(|d| d.clause == "7.7.3.2").expect(
        "a page tree that is not a tree is a departure from 7.7.3.2 and must be recorded",
    );
    assert_eq!(found.severity, Severity::Violation);
    assert!(found.found.contains("a second time"), "{}", found.found);
}

#[test]
fn a_nested_tree_still_yields_every_page() {
    let mut doc = open(vec![
        d(vec![("Type", name("Catalog")), ("Pages", Object::Reference(2))]),
        d(vec![("Type", name("Pages")), ("Kids", refs(&[3, 4])), ("Count", Object::Integer(3))]),
        d(vec![
            ("Type", name("Pages")),
            ("Parent", Object::Reference(2)),
            ("Kids", refs(&[5, 6])),
            ("Count", Object::Integer(2)),
        ]),
        d(vec![("Type", name("Page")), ("Parent", Object::Reference(2)), ("MediaBox", letter())]),
        d(vec![("Type", name("Page")), ("Parent", Object::Reference(3)), ("MediaBox", letter())]),
        d(vec![("Type", name("Page")), ("Parent", Object::Reference(3)), ("MediaBox", letter())]),
    ]);

    assert_eq!(doc.find_all_pages().len(), 3, "two levels, three leaves");
    assert!(doc.decisions.iter().all(|d| d.clause != "7.7.3.2"), "a conforming tree records nothing");
}

#[test]
fn a_page_named_twice_is_counted_once() {
    let mut doc = open(vec![
        d(vec![("Type", name("Catalog")), ("Pages", Object::Reference(2))]),
        d(vec![("Type", name("Pages")), ("Kids", refs(&[3, 3])), ("Count", Object::Integer(2))]),
        d(vec![("Type", name("Page")), ("Parent", Object::Reference(2)), ("MediaBox", letter())]),
    ]);

    assert_eq!(doc.find_all_pages().len(), 1, "one page object, named twice");
    assert!(
        doc.decisions.iter().any(|d| d.clause == "7.7.3.2"),
        "naming the same page twice is a departure and is recorded"
    );
}

/// Sixty pages under one flat node.
fn sixty_pages() -> Document {
    let mut objects = vec![
        Object::Null,
        d(vec![("Type", name("Catalog")), ("Pages", Object::Reference(2))]),
    ];
    let kids: Vec<u32> = (3..63).collect();
    objects.push(d(vec![("Type", name("Pages")), ("Kids", refs(&kids)), ("Count", Object::Integer(60))]));
    for _ in 0..60 {
        objects.push(d(vec![("Type", name("Page")), ("Parent", Object::Reference(2))]));
    }
    let mut doc = Document::new(Arena { objects }, 1, None);
    doc.index_pages();
    doc
}

#[test]
fn a_rebuilt_tree_is_balanced_and_walks_back_to_the_same_pages() {
    let mut doc = sixty_pages();
    let before: Vec<u32> = doc.pages.clone();
    assert_eq!(before.len(), 60);
    let objects_before = doc.arena().objects.len();
    doc.rebuild_page_tree_in_arena().unwrap();
    // Fifty and ten under two nodes, and a root over those.
    assert_eq!(doc.arena().objects.len(), objects_before + 3);
    let root_node = (objects_before + 2) as u32;
    let catalog = match &doc.arena().objects[1] {
        Object::Dictionary(c) => c,
        _ => panic!("the catalogue stays a dictionary"),
    };
    assert!(matches!(catalog.get("Pages"), Some(Object::Reference(n)) if *n == root_node));
    match &doc.arena().objects[root_node as usize] {
        Object::Dictionary(r) => {
            assert!(matches!(r.get("Count"), Some(Object::Integer(60))));
            assert!(r.get("Parent").is_none(), "the root has no parent");
        },
        _ => panic!("the root is a dictionary"),
    }
    match &doc.arena().objects[objects_before + 1] {
        Object::Dictionary(n) => assert!(matches!(n.get("Count"), Some(Object::Integer(10)))),
        _ => panic!("a node is a dictionary"),
    }
    assert_eq!(doc.find_all_pages(), before);
    assert_eq!(doc.get_parent_chain(before[0]), vec![root_node, objects_before as u32]);
}

#[test]
fn moving_a_batch_keeps_its_order_and_says_where_it_went() {
    let mut doc = sixty_pages();
    let before = doc.pages.clone();
    let range = doc.reorder_pages_batch(&[5, 1, 3], 0).unwrap();
    assert_eq!(range, 0..3);
    assert_eq!(&doc.pages[0..3], &[before[1], before[3], before[5]]);
    assert_eq!(doc.pages.len(), 60);
    assert_eq!(doc.find_all_pages(), doc.pages);

    let range = doc.reorder_pages_batch(&[0], 60).unwrap();
    assert_eq!(range, 59..60);
    assert!(doc.reorder_pages_batch(&[0], 61).is_err());
    assert!(doc.reorder_pages_batch(&[60], 0).is_err());
    assert_eq!(doc.reorder_pages_batch(&[], 7).unwrap(), 0..0);
}

#[test]
fn moving_and_removing_one_page_rebuilds_the_tree() {
    let mut doc = sixty_pages();
    let before = doc.pages.clone();
    doc.reorder_page(0, 59).unwrap();
    assert_eq!(doc.pages[59], before[0]);
    assert_eq!(doc.pages[0], before[1]);
    doc.remove_page(0).unwrap();
    assert_eq!(doc.pages.len(), 59);
    assert_eq!(doc.page_count().unwrap(), 59);
    assert_eq!(doc.find_all_pages(), doc.pages);
    assert!(doc.remove_page(59).is_err());
    assert!(doc.reorder_page(0, 59).is_err());
    assert_eq!(doc.get_page_handle(58), Some(before[0]));
    assert!(doc.get_page(59).is_err());
    assert_eq!(doc.get_page(0).unwrap().obj_handle(), before[2]);
}

#[test]
fn a_missing_page_tree_is_recorded_and_yields_nothing() {
    let mut doc = Document::new(
        Arena { objects: vec![Object::Null, d(vec![("Type", name("Catalog"))])] },
        1,
        None,
    );
    assert!(doc.find_all_pages().is_empty());
    let last = doc.decisions.last().unwrap();
    assert_eq!(
        last.found,
        "the catalogue's page tree could not be reached: The catalogue names no page tree (7.7.2)"
    );
    assert_eq!(last.action, "reported the document as having no pages, because none can be found");
}

#[test]
fn an_empty_document_gets_an_empty_page_tree() {
    let mut doc = Document::new(
        Arena { objects: vec![Object::Null, d(vec![("Type", name("Catalog"))])] },
        1,
        None,
    );
    doc.rebuild_page_tree_in_arena().unwrap();
    assert_eq!(doc.arena().objects.len(), 3);
    match &doc.arena().objects[2] {
        Object::Dictionary(r) => {
            assert!(matches!(r.get("Count"), Some(Object::Integer(0))));
            assert!(matches!(r.get("Kids"), Some(Object::Array(k)) if k.is_empty()));
        },
        _ => panic!("the new root is a dictionary"),
    }
    assert!(doc.find_all_pages().is_empty());
}

#[test]
fn a_page_that_is_not_a_dictionary_stops_the_rebuild_and_changes_nothing() {
    let mut doc = Document::new(
        Arena { objects: vec![Object::Null, d(vec![("Type", name("Catalog"))]), Object::Integer(5)] },
        1,
        None,
    );
    doc.pages = vec![2];
    let err = doc.rebuild_page_tree_in_arena().unwrap_err();
    assert_eq!(err.message(), "Object 2 is not a dictionary");
    assert_eq!(doc.arena().objects.len(), 3);
}

#[test]
fn viewer_overrides_are_kept_in_object_order_and_forgotten_together() {
    let mut doc = with(None, None);
    doc.set_layer_visible(9, false);
    doc.set_layer_visible(4, true);
    doc.set_layer_visible(9, true);
    assert_eq!(doc.layer_overrides(), vec![(4, true), (9, true)]);
    doc.reset_layer_visibility();
    assert!(doc.layer_overrides().is_empty());
    assert!(!doc.runs_scripts());
    doc.declare_script_processor();
    assert!(doc.runs_scripts());
}

/// A catalogue (1) over a `/Pages` node (2) that carries a media box and resources,
/// with two pages under it: one that names its own rotation (3), one that names nothing (4).
fn inheriting() -> Document {
    let objects = vec![
        Object::Null,
        d(vec![("Type", name("Catalog")), ("Pages", Object::Reference(2))]),
        d(vec![
            ("Type", name("Pages")),
            ("Kids", refs(&[3, 4])),
            ("Count", Object::Integer(2)),
            ("MediaBox", letter()),
            ("Resources", d(vec![])),
        ]),
        d(vec![("Type", name("Page")), ("Parent", Object::Reference(2)), ("Rotate", Object::Integer(90))]),
        d(vec![("Type", name("Page")), ("Parent", Object::Reference(2))]),
    ];
    Document::new(Arena { objects }, 1, None)
}

fn entry_of<'a>(doc: &'a Document, n: usize, key: &str) -> Option<&'a Object> {
    match &doc.arena.objects[n] {
        Object::Dictionary(d) => d.entries.iter().find(|(k, _)| k == key).map(|(_, v)| v),
        _ => None,
    }
}

#[test]
fn normalizing_pushes_inherited_attributes_onto_each_page() {
    let mut doc = inheriting();
    doc.normalize_page_tree();
    for page in [3, 4] {
        assert_eq!(entry_of(&doc, page, "MediaBox"), Some(&letter()));
        assert_eq!(entry_of(&doc, page, "CropBox"), Some(&letter()), "the crop box defaults to the media box");
        assert_eq!(entry_of(&doc, page, "Resources"), Some(&d(vec![])));
    }
    assert_eq!(entry_of(&doc, 3, "Rotate"), Some(&Object::Integer(90)), "a page's own value stays");
    assert_eq!(entry_of(&doc, 4, "Rotate"), Some(&Object::Integer(0)), "a missing rotation is written as 0");
}

#[test]
fn normalizing_strips_the_attributes_from_the_pages_node() {
    let mut doc = inheriting();
    doc.normalize_page_tree();
    assert_eq!(entry_of(&doc, 2, "MediaBox"), None);
    assert_eq!(entry_of(&doc, 2, "Resources"), None);
    assert_eq!(entry_of(&doc, 2, "Kids"), Some(&refs(&[3, 4])));
    assert_eq!(entry_of(&doc, 2, "Count"), Some(&Object::Integer(2)));
}

#[test]
fn normalizing_without_a_page_tree_changes_nothing() {
    let catalog = || vec![Object::Null, d(vec![("Type", name("Catalog"))])];
    let mut doc = Document::new(Arena { objects: catalog() }, 1, None);
    doc.normalize_page_tree();
    assert_eq!(doc.arena.objects, catalog());
}

#[test]
fn normalizing_stops_at_a_node_of_no_known_type_and_keeps_what_it_did() {
    let objects = vec![
        Object::Null,
        d(vec![("Type", name("Catalog")), ("Pages", Object::Reference(2))]),
        d(vec![("Type", name("Pages")), ("Kids", refs(&[3, 4])), ("MediaBox", letter())]),
        d(vec![("Type", name("Page"))]),
        d(vec![("Type", name("Template"))]),
    ];
    let mut doc = Document::new(Arena { objects }, 1, None);
    doc.normalize_page_tree();
    assert_eq!(entry_of(&doc, 3, "MediaBox"), Some(&letter()), "the first page was done");
    assert_eq!(entry_of(&doc, 2, "MediaBox"), Some(&letter()), "the node keeps its attributes");
    assert_eq!(entry_of(&doc, 4, "MediaBox"), None);
}
