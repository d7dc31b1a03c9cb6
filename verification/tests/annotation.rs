use fepdf_model::annotation::{entries_read_for, field_entries_read, is_markup, AnnotationFlags, Appearance, AppearanceEntry};
use fepdf_model::error::PdfError;
use fepdf_model::object::{Arena, Dict, Object};

/// A markup subtype reads Table 172 as well; a subtype no table defines does not.
#[test]
fn a_markup_subtype_reads_more_than_a_private_one() {
    let circle = entries_read_for("Circle");
    assert!(circle.contains(&"Subj"), "a /Circle is a markup annotation: {circle:?}");
    let private = entries_read_for("SomePrivateCustomAnnotationType");
    assert!(!private.contains(&"Subj"));
    assert!(private.contains(&"AP"), "it is still an annotation: {private:?}");
    assert_eq!(private.len(), 19, "common entries and nothing else");
}

/// A widget merged with its field reads the field's entries too.
#[test]
fn a_widget_reads_what_the_form_walk_reads() {
    let widget = entries_read_for("Widget");
    for key in field_entries_read() {
        assert!(widget.contains(&key), "the form walk reads /{key}: {widget:?}");
    }
    assert!(!widget.contains(&"DR"), "a field's own /DR is not read — only the form's: {widget:?}");
}

/// `/Link` is not a markup annotation.
#[test]
fn a_link_reads_its_own_entries_and_not_the_markup_ones() {
    let link = entries_read_for("Link");
    assert!(link.contains(&"Dest") && link.contains(&"A"));
    assert!(!link.contains(&"Popup"), "12.5.6.2 does not list /Link: {link:?}");
}

/// The flags are bit positions numbered from 1.
#[test]
fn the_flag_bits_are_numbered_from_one() {
    let printed = AnnotationFlags::from_bits(4);
    assert!(printed.print, "bit 3 is /Print");
    assert!(!printed.hidden && !printed.invisible);
    let hidden_and_locked = AnnotationFlags::from_bits(2 | 128);
    assert!(hidden_and_locked.hidden && hidden_and_locked.locked);
}

#[test]
fn the_read_entries_are_sorted_and_hold_no_key_twice() {
    for subtype in ["Circle", "Widget", "Link", "Popup", "Movie", "Stamp", "Text", "Unknown"] {
        let keys = entries_read_for(subtype);
        for pair in keys.windows(2) {
            assert!(pair[0] < pair[1], "{subtype}: {keys:?}");
        }
    }
}

#[test]
fn the_markup_subtypes_are_the_ones_table_172_lists() {
    assert!(is_markup("Text"));
    assert!(is_markup("Circle"));
    assert!(!is_markup("Link"));
    assert!(!is_markup("Popup"));
    assert!(!is_markup("Widget"));
}

#[test]
fn flags_are_read_through_a_reference() {
    let arena = Arena { objects: vec![Object::Null, Object::Integer(6)] };
    let flags = AnnotationFlags::read(&arena, &Object::Reference(1)).expect("an integer");
    assert!(flags.hidden && flags.print && !flags.invisible);
    match AnnotationFlags::read(&arena, &Object::Name("Print".to_string())) {
        Err(PdfError::Other(m)) => assert_eq!(m, "/F is a bit field"),
        other => panic!("a name is not a bit field: {other:?}"),
    }
}

#[test]
fn an_appearance_state_dictionary_lists_its_states() {
    let stream = Object::Stream(Dict { entries: vec![] }, vec![]);
    let arena = Arena { objects: vec![Object::Null, stream] };
    let states = Dict {
        entries: vec![("On".to_string(), Object::Reference(1)), ("Off".to_string(), Object::Reference(1))],
    };
    let ap = Dict {
        entries: vec![("N".to_string(), Object::Dictionary(states)), ("D".to_string(), Object::Reference(1))],
    };
    let read = Appearance::read(&arena, &Object::Dictionary(ap)).expect("reads");
    match read.normal {
        Some(AppearanceEntry::States(names)) => assert_eq!(names, vec!["Off".to_string(), "On".to_string()], "sorted"),
        _ => panic!("/N is a state dictionary"),
    }
    assert!(matches!(read.down, Some(AppearanceEntry::Stream(1))));
    assert!(read.rollover.is_none());
}

#[test]
fn only_the_ten_defined_flag_bits_are_read() {
    assert_eq!(AnnotationFlags::from_bits(0x7FFF), AnnotationFlags::from_bits(0x3FF));
    assert_eq!(AnnotationFlags::from_bits(-1), AnnotationFlags::from_bits(0x3FF));
    let none = AnnotationFlags::from_bits(0);
    assert!(!none.invisible && !none.print && !none.locked_contents);
}
