use fepdf_model::destination::{
    target_of, Destination, DestsDictionary, Lookup, NamedDestinations, Number, Target, View,
};
use fepdf_model::document::entries::FromPdfObject;
use fepdf_model::object::{Arena, Dict, Object};

fn name(s: &str) -> Object {
    Object::Name(s.to_string())
}

fn string(s: &str) -> Object {
    Object::String(s.as_bytes().to_vec())
}

fn dict(entries: Vec<(&str, Object)>) -> Dict {
    Dict { entries: entries.into_iter().map(|(k, v)| (k.to_string(), v)).collect() }
}

fn d(entries: Vec<(&str, Object)>) -> Object {
    Object::Dictionary(dict(entries))
}

fn fit(page: u32) -> Object {
    Object::Array(vec![Object::Reference(page), name("Fit")])
}

fn to_fit(page: u32) -> Destination {
    Destination { target: Target::Page(page), view: View::Fit }
}

#[test]
fn an_xyz_destination_keeps_its_numbers_and_its_nulls() {
    let arena = Arena { objects: vec![Object::Null] };
    let a = Object::Array(vec![
        Object::Reference(7),
        name("XYZ"),
        Object::Integer(72),
        Object::Null,
        Object::Real("1.5".to_string()),
    ]);
    let dest = Destination::read(&a, &arena).unwrap();
    assert_eq!(dest.target, Target::Page(7));
    assert_eq!(
        dest.view,
        View::Xyz {
            left: Some(Number::Integer(72)),
            top: None,
            zoom: Some(Number::Real("1.5".to_string())),
        }
    );
    assert_eq!(dest.view.as_name(), "XYZ");
}

#[test]
fn a_fitr_needs_all_four_sides() {
    let arena = Arena { objects: vec![Object::Null] };
    let short = Object::Array(vec![Object::Reference(1), name("FitR"), Object::Integer(0), Object::Integer(0)]);
    assert!(Destination::read(&short, &arena).is_none());
    let full = Object::Array(vec![
        Object::Reference(1),
        name("FitR"),
        Object::Integer(0),
        Object::Integer(1),
        Object::Integer(2),
        Object::Integer(3),
    ]);
    let dest = Destination::read(&full, &arena).unwrap();
    assert_eq!(dest.view.as_name(), "FitR");
}

#[test]
fn a_page_number_is_a_remote_target_and_a_name_is_none() {
    assert_eq!(target_of(&Object::Integer(4)), Some(Target::RemotePage(4)));
    assert_eq!(target_of(&Object::Reference(4)), Some(Target::Page(4)));
    assert_eq!(target_of(&name("First")), None);
}

#[test]
fn a_destination_may_be_wrapped_in_a_d_dictionary_or_held_by_reference() {
    let arena = Arena { objects: vec![Object::Null, fit(5)] };
    let wrapped = d(vec![("D", fit(5))]);
    assert_eq!(Destination::read(&wrapped, &arena), Some(to_fit(5)));
    assert_eq!(Destination::read(&Object::Reference(1), &arena), Some(to_fit(5)));
    let unknown = Object::Array(vec![Object::Reference(1), name("Zoom")]);
    assert_eq!(Destination::read(&unknown, &arena), None);
}

#[test]
fn the_dests_dictionary_counts_what_does_not_read() {
    let arena = Arena { objects: vec![Object::Null] };
    let dests = d(vec![
        ("Intro", fit(3)),
        ("Broken", Object::Integer(9)),
        ("Appendix", fit(8)),
    ]);
    let read = DestsDictionary::from_pdf_object(&dests, &arena).unwrap();
    assert_eq!(read.unreadable, 1);
    assert_eq!(read.entries.len(), 2);
    assert_eq!(read.entries[0].0, "Appendix");
    assert_eq!(read.entries[0].1, to_fit(8));
    assert_eq!(read.entries[1].0, "Intro");
    assert!(DestsDictionary::from_pdf_object(&Object::Integer(1), &arena).is_err());
    assert_eq!(DestsDictionary::iso_clause(), "12.3.2.3");
}

#[test]
fn names_and_strings_are_looked_up_each_in_their_own_form() {
    let arena = Arena { objects: vec![Object::Null] };
    let tree = d(vec![(
        "Kids",
        Object::Array(vec![
            d(vec![("Names", Object::Array(vec![string("chap1"), fit(10), string("bad"), Object::Null]))]),
            d(vec![("Names", Object::Array(vec![string("chap2"), fit(20), string("chap1"), fit(11)]))]),
        ]),
    )]);
    let catalog = dict(vec![
        ("Dests", d(vec![("Foo", fit(1))])),
        ("Names", d(vec![("Dests", tree)])),
    ]);
    let named = NamedDestinations::collect(&arena, &catalog);
    assert_eq!(named.by_name.len(), 1);
    assert_eq!(named.by_string.len(), 2);
    assert_eq!(named.len(), 3);
    assert!(!named.is_empty());
    assert_eq!(named.unreadable, 1);

    let foo = to_fit(1);
    assert_eq!(named.resolve(&name("Foo"), &arena), Lookup::Named(&foo));
    let later = to_fit(11);
    assert_eq!(named.resolve(&string("chap1"), &arena), Lookup::Named(&later), "the later leaf wins");
    assert_eq!(named.resolve(&string("Foo"), &arena), Lookup::Dangling("Foo".to_string()));
    assert_eq!(named.resolve(&name("chap2"), &arena), Lookup::Dangling("chap2".to_string()));
    assert_eq!(named.resolve(&Object::Text("chap2".to_string()), &arena), Lookup::Named(&to_fit(20)));
    assert_eq!(named.resolve(&fit(4), &arena), Lookup::Inline(to_fit(4)));
    assert_eq!(named.resolve(&Object::Integer(4), &arena), Lookup::Unreadable);
}

#[test]
fn a_dangling_byte_string_is_shown_as_text() {
    let arena = Arena { objects: vec![Object::Null] };
    let named = NamedDestinations::collect(&arena, &dict(vec![]));
    assert!(named.is_empty());
    assert_eq!(
        named.resolve(&Object::Hex(vec![0x41, 0xff]), &arena),
        Lookup::Dangling("A\u{fffd}".to_string())
    );
}

#[test]
fn a_kids_cycle_ends_at_the_depth_bound() {
    let arena = Arena {
        objects: vec![
            Object::Null,
            d(vec![("Kids", Object::Array(vec![Object::Reference(1), Object::Reference(2)]))]),
            d(vec![("Names", Object::Array(vec![string("x"), fit(3)]))]),
        ],
    };
    let catalog = dict(vec![("Names", d(vec![("Dests", Object::Reference(1))]))]);
    let named = NamedDestinations::collect(&arena, &catalog);
    assert_eq!(named.by_string.len(), 1);
    assert_eq!(named.unreadable, 0);
}
