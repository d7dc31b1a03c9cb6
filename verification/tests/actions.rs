use fepdf_model::actions::{ActionReport, Capability, Says, Trigger};
use fepdf_model::object::{Arena, Dict, Object};

fn name(s: &str) -> Object {
    Object::Name(s.to_string())
}

fn string(s: &str) -> Object {
    Object::String(s.as_bytes().to_vec())
}

fn dict(entries: Vec<(&str, Object)>) -> Dict {
    Dict { entries: entries.into_iter().map(|(k, v)| (k.to_string(), v)).collect() }
}

fn d(entries: Vec<(&str, Object)>) -> Object {
    Object::Dictionary(dict(entries))
}

fn js(script: &str) -> Object {
    d(vec![("S", name("JavaScript")), ("JS", string(script))])
}

#[test]
fn an_open_action_script_runs_without_interaction() {
    let arena = Arena { objects: vec![Object::Null] };
    let catalog = d(vec![("OpenAction", js("app.alert(1)"))]);
    let r = ActionReport::of(&arena, &catalog, &vec![]);
    assert_eq!(r.actions.len(), 1);
    assert!(matches!(r.actions[0].trigger, Trigger::DocumentOpened));
    assert_eq!(r.actions[0].capability, Capability::RunsCode);
    assert!(matches!(&r.actions[0].says, Some(Says::Script(s)) if s == "app.alert(1)"));
    assert_eq!(r.without_interaction().len(), 1);
    assert_eq!(r.unreadable, 0);
}

#[test]
fn a_destination_array_is_not_unreadable_and_a_number_is() {
    let arena = Arena { objects: vec![Object::Null] };
    let to_page = d(vec![("OpenAction", Object::Array(vec![Object::Reference(3), name("Fit")]))]);
    let r = ActionReport::of(&arena, &to_page, &vec![]);
    assert!(r.actions.is_empty());
    assert_eq!(r.unreadable, 0, "a destination moves the view and is no defect");
    let number = d(vec![("OpenAction", Object::Integer(4))]);
    assert_eq!(ActionReport::of(&arena, &number, &vec![]).unreadable, 1);
}

#[test]
fn a_launch_is_read_from_the_platform_dictionary_when_it_has_no_f() {
    let arena = Arena { objects: vec![Object::Null] };
    let launch = d(vec![("S", name("Launch")), ("Win", d(vec![("F", string("TextPad.exe"))]))]);
    let catalog = d(vec![("OpenAction", launch)]);
    let r = ActionReport::of(&arena, &catalog, &vec![]);
    assert_eq!(r.actions[0].capability, Capability::LaunchesAnother);
    assert!(matches!(&r.actions[0].says, Some(Says::File(f)) if f == "TextPad.exe"));
}

#[test]
fn a_next_chain_is_followed_and_each_link_is_chained() {
    let arena = Arena { objects: vec![Object::Null] };
    let last = d(vec![("S", name("Named")), ("N", name("Print"))]);
    let second = d(vec![("S", name("URI")), ("URI", string("https://example.invalid")), ("Next", last)]);
    let first = d(vec![("S", name("GoTo")), ("Next", Object::Array(vec![Object::Integer(1), second]))]);
    let r = ActionReport::of(&arena, &d(vec![("OpenAction", first)]), &vec![]);
    let kinds: Vec<&str> = r.actions.iter().map(|a| a.kind.as_str()).collect();
    assert_eq!(kinds, vec!["GoTo", "URI", "Named"]);
    assert!(matches!(r.actions[1].trigger, Trigger::Chained));
    assert!(matches!(&r.actions[2].says, Some(Says::Name(n)) if n == "Print"));
    assert_eq!(r.without_interaction().len(), 1, "a chained action is fired by the one it hangs off");
}

#[test]
fn a_chain_that_loops_stops() {
    let looping = d(vec![("S", name("GoTo")), ("Next", Object::Reference(1))]);
    let arena = Arena { objects: vec![Object::Null, looping] };
    let r = ActionReport::of(&arena, &d(vec![("OpenAction", Object::Reference(1))]), &vec![]);
    assert_eq!(r.actions.len(), 65, "the action and sixty-four links");
}

#[test]
fn document_events_and_the_script_tree_are_reported() {
    let kid_b = d(vec![("Names", Object::Array(vec![string("b"), js("two()")]))]);
    let kid_c = d(vec![("Names", Object::Array(vec![string("c"), js("three()")]))]);
    let tree = d(vec![
        ("Names", Object::Array(vec![string("a"), js("one()"), string("odd")])),
        ("Kids", Object::Array(vec![kid_b, kid_c])),
    ]);
    let catalog = d(vec![
        ("AA", d(vec![("WC", js("bye()")), ("WP", d(vec![("S", name("SomethingNew"))]))])),
        ("Names", d(vec![("JavaScript", tree)])),
    ]);
    let arena = Arena { objects: vec![Object::Null] };
    let r = ActionReport::of(&arena, &catalog, &vec![]);
    let said: Vec<String> = r
        .actions
        .iter()
        .map(|a| match (&a.trigger, &a.says) {
            (Trigger::DocumentEvent(e), _) => format!("event {e}"),
            (Trigger::DocumentScript(n), Some(Says::Script(s))) => format!("{n}: {s}"),
            _ => "?".to_string(),
        })
        .collect();
    assert_eq!(said, vec!["event WC", "event WP", "a: one()", "c: three()", "b: two()"], "the last kid first");
    assert_eq!(r.actions[1].capability, Capability::Undefined);
    assert_eq!(r.without_interaction().len(), 3);
}

#[test]
fn pages_annotations_and_fields_each_say_when() {
    let link = d(vec![("Subtype", name("Link")), ("A", d(vec![("S", name("URI")), ("URI", string("u"))]))]);
    let widget = d(vec![("Subtype", name("Widget")), ("AA", d(vec![("E", js("enter()"))]))]);
    let page = d(vec![("AA", d(vec![("O", js("open()"))])), ("Annots", Object::Array(vec![link, Object::Integer(9), widget]))]);
    let child = d(vec![("T", string("child")), ("AA", d(vec![("K", js("k()"))]))]);
    let parent = d(vec![("T", string("parent")), ("AA", d(vec![("V", js("v()"))])), ("Kids", Object::Array(vec![child]))]);
    let catalog = d(vec![("AcroForm", d(vec![("Fields", Object::Array(vec![parent]))]))]);
    let arena = Arena { objects: vec![Object::Null, page] };
    let r = ActionReport::of(&arena, &catalog, &vec![1, 7]);
    let triggers: Vec<String> = r
        .actions
        .iter()
        .map(|a| match &a.trigger {
            Trigger::PageEvent { page, event } => format!("page {page} {event}"),
            Trigger::AnnotationActivated { page, subtype } => format!("page {page} {subtype}"),
            Trigger::AnnotationEvent { page, event } => format!("page {page} annotation {event}"),
            Trigger::FieldEvent { field, event } => format!("field {} {event}", field.as_deref().unwrap_or("-")),
            _ => "?".to_string(),
        })
        .collect();
    assert_eq!(
        triggers,
        vec!["page 0 O", "page 0 Link", "page 0 annotation E", "field parent V", "field child K"],
        "object 7 is not in the file and contributes nothing"
    );
    assert_eq!(r.unreadable, 0, "an annotation that is not a dictionary is not an action position");
}

#[test]
fn capabilities_are_tallied_worst_first() {
    let catalog = d(vec![
        ("OpenAction", d(vec![("S", name("GoTo")), ("Next", Object::Array(vec![js("a()"), js("b()")]))])),
        ("AA", d(vec![("WS", d(vec![("S", name("URI"))]))])),
    ]);
    let arena = Arena { objects: vec![Object::Null] };
    let r = ActionReport::of(&arena, &catalog, &vec![]);
    assert_eq!(r.capabilities(), vec![(Capability::RunsCode, 2), (Capability::ReachesOutside, 1), (Capability::StaysInside, 1)]);
}

#[test]
fn a_declared_requirement_this_processor_lacks_is_reported() {
    let catalog = d(vec![(
        "Requirements",
        Object::Array(vec![d(vec![("Type", name("Requirement")), ("S", name("EnableJavaScripts"))]), d(vec![("S", name("OCInteract"))])]),
    )]);
    let arena = Arena { objects: vec![Object::Null] };
    let r = ActionReport::of(&arena, &catalog, &vec![]);
    assert_eq!(r.requirements.len(), 2);
    let unmet: Vec<&str> = r.unmet_requirements().iter().map(|q| q.requirement.as_str()).collect();
    assert_eq!(unmet, vec!["EnableJavaScripts"]);
    let broken = d(vec![("Requirements", Object::Array(vec![Object::Integer(1)]))]);
    assert!(ActionReport::of(&arena, &broken, &vec![]).requirements.is_empty());
}

#[test]
fn a_catalogue_that_is_not_a_dictionary_reports_nothing() {
    let arena = Arena { objects: vec![Object::Null] };
    let r = ActionReport::of(&arena, &Object::Integer(1), &vec![]);
    assert!(r.actions.is_empty() && r.requirements.is_empty() && r.unreadable == 0);
}

#[test]
fn capability_labels_and_kinds() {
    assert_eq!(Capability::of("JavaScript"), Capability::RunsCode);
    assert_eq!(Capability::of("GoToE"), Capability::ReachesOutside);
    assert_eq!(Capability::of("RichMediaExecute"), Capability::PlaysMedia);
    assert_eq!(Capability::of("Trans"), Capability::StaysInside);
    assert_eq!(Capability::of("javascript"), Capability::Undefined, "names are case-sensitive");
    assert_eq!(Capability::RunsCode.label(), "runs code");
}

#[test]
fn a_script_stream_is_decoded_unless_it_names_jpeg_2000() {
    let stream = |filter: &str| {
        Object::Stream(dict(vec![("Filter", name(filter))]), b"48656C6C6F>".to_vec())
    };
    let arena = Arena { objects: vec![Object::Null] };
    let hex = d(vec![("OpenAction", d(vec![("S", name("JavaScript")), ("JS", stream("ASCIIHexDecode"))]))]);
    let r = ActionReport::of(&arena, &hex, &vec![]);
    assert!(matches!(&r.actions[0].says, Some(Says::Script(s)) if s == "Hello"));

    let jpx = d(vec![("OpenAction", d(vec![("S", name("JavaScript")), ("JS", stream("JPXDecode"))]))]);
    let r = ActionReport::of(&arena, &jpx, &vec![]);
    assert_eq!(r.actions[0].capability, Capability::RunsCode);
    assert!(r.actions[0].says.is_none(), "image samples are no script");
}

#[test]
fn the_capability_tally_adds_up_to_the_actions() {
    let catalog = d(vec![
        ("OpenAction", d(vec![("S", name("GoTo")), ("Next", Object::Array(vec![js("a()"), js("b()")]))])),
        ("AA", d(vec![("WS", d(vec![("S", name("URI"))])), ("WP", d(vec![("S", name("Nonsense"))]))])),
    ]);
    let arena = Arena { objects: vec![Object::Null] };
    let r = ActionReport::of(&arena, &catalog, &vec![]);
    let tally = r.capabilities();
    assert_eq!(tally.iter().map(|(_, n)| n).sum::<usize>(), r.actions.len());
    assert!(tally.iter().all(|(_, n)| *n >= 1));
    assert!(r.without_interaction().iter().all(|a| a.trigger.without_interaction()));
}
