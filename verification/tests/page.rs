use fepdf_model::destination::Number;
use fepdf_model::document::entries::FromPdfObject;
use fepdf_model::document::page::{Page, PageBox, PdfPageDict};
use fepdf_model::object::{Arena, Dict, Object};

fn name(s: &str) -> Object {
    Object::Name(s.to_string())
}

fn d(entries: Vec<(&str, Object)>) -> Object {
    Object::Dictionary(Dict { entries: entries.into_iter().map(|(k, v)| (k.to_string(), v)).collect() })
}

fn rect(a: i64, b: i64, c: i64, e: i64) -> Object {
    Object::Array(vec![Object::Integer(a), Object::Integer(b), Object::Integer(c), Object::Integer(e)])
}

#[test]
fn a_page_inherits_its_media_box_from_the_nearest_node() {
    let arena = Arena {
        objects: vec![
            Object::Null,
            d(vec![("Type", name("Pages")), ("MediaBox", rect(0, 0, 595, 842))]),
            d(vec![("Type", name("Pages")), ("Parent", Object::Reference(1))]),
            d(vec![("Type", name("Page")), ("Parent", Object::Reference(2))]),
        ],
    };
    let page = Page::new(&arena, 3, vec![1, 2]);
    assert_eq!(
        page.media_box(),
        PageBox {
            llx: Number::Integer(0),
            lly: Number::Integer(0),
            urx: Number::Integer(595),
            ury: Number::Integer(842),
        }
    );
}

#[test]
fn a_page_without_a_media_box_is_letter() {
    let arena = Arena { objects: vec![Object::Null, d(vec![("Type", name("Page"))])] };
    let page = Page::new(&arena, 1, vec![]);
    assert_eq!(page.media_box(), PageBox::letter());
    assert_eq!(PageBox::letter().urx, Number::Integer(612));
    assert_eq!(PageBox::letter().ury, Number::Integer(792));
}

#[test]
fn a_real_corner_keeps_its_digits() {
    let arena = Arena { objects: vec![Object::Null] };
    let o = Object::Array(vec![
        Object::Integer(0),
        Object::Real("0.5".to_string()),
        Object::Integer(612),
        Object::Integer(792),
    ]);
    let b = PageBox::read(&o, &arena).unwrap();
    assert_eq!(b.lly, Number::Real("0.5".to_string()));
    assert!(PageBox::read(&rect(0, 0, 1, 1), &arena).is_some());
    assert!(PageBox::read(&Object::Array(vec![Object::Integer(0)]), &arena).is_none());
}

#[test]
fn a_page_dictionary_needs_its_type_and_parent() {
    let arena = Arena { objects: vec![Object::Null] };
    let page = d(vec![
        ("Type", name("Page")),
        ("Parent", Object::Reference(4)),
        ("MediaBox", rect(0, 0, 200, 100)),
        ("Annots", Object::Array(vec![Object::Reference(9)])),
        ("Contents", Object::Reference(5)),
    ]);
    let read = PdfPageDict::from_pdf_object(&page, &arena).unwrap();
    assert_eq!(read.kind, "Page");
    assert_eq!(read.parent, 4);
    assert_eq!(read.media_box.unwrap().urx, Number::Integer(200));
    assert_eq!(read.annots.unwrap().len(), 1);
    assert!(read.resources.is_none());
    assert!(matches!(read.contents, Some(Object::Reference(5))));
    assert_eq!(PdfPageDict::iso_clause(), "7.7.3.3");

    let orphan = d(vec![("Type", name("Page"))]);
    assert!(PdfPageDict::from_pdf_object(&orphan, &arena).is_err());
    let bad_box = d(vec![("Type", name("Page")), ("Parent", Object::Reference(4)), ("MediaBox", name("A4"))]);
    assert!(PdfPageDict::from_pdf_object(&bad_box, &arena).is_err());
}
