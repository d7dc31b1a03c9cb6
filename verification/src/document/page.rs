//! A page, and what it inherits from the page tree above it (7.7.3.3, 7.7.3.4).

use crate::destination::{number_view, spec_number, Number, NumberView};
use crate::document::entries::{array_field, name_field, opt_seq, opt_view, read_array, read_name, ref_field, read_ref, FromPdfObject};
use crate::error::{text, PdfError, PdfResult};
use crate::object::{opt_ref, Arena, Dict, Object};
use vstd::prelude::*;

verus! {

/// A page boundary (7.9.5, 14.11.2): the four numbers of a rectangle as the file wrote
/// them, lower-left corner first.
#[derive(Debug, Clone, PartialEq)]
pub struct PageBox {
    /// Lower-left x.
    pub llx: Number,
    /// Lower-left y.
    pub lly: Number,
    /// Upper-right x.
    pub urx: Number,
    /// Upper-right y.
    pub ury: Number,
}

/// A boundary, as values.
pub open spec fn box_view(b: PageBox) -> Seq<NumberView> {
    seq![number_view(b.llx), number_view(b.lly), number_view(b.urx), number_view(b.ury)]
}

/// The rectangle `o` is: an array of exactly four numbers, through references.
pub open spec fn spec_rect(arena: Arena, o: Object) -> Option<Seq<NumberView>> {
    match arena.spec_array_of(o) {
        Some(a) => if a.len() == 4 && spec_number(arena, a[0]) is Some && spec_number(arena, a[1]) is Some
            && spec_number(arena, a[2]) is Some && spec_number(arena, a[3]) is Some {
            Some(
                seq![
                    spec_number(arena, a[0]).unwrap(),
                    spec_number(arena, a[1]).unwrap(),
                    spec_number(arena, a[2]).unwrap(),
                    spec_number(arena, a[3]).unwrap(),
                ],
            )
        } else {
            None
        },
        None => None,
    }
}

/// A number in a rectangle.
fn corner(arena: &Arena, o: &Object) -> (r: Option<Number>)
    ensures
        match r {
            Some(n) => spec_number(*arena, *o) == Some(number_view(n)),
            None => spec_number(*arena, *o) is None,
        },
{
    match arena.resolve(o) {
        Object::Integer(i) => Some(Number::Integer(*i)),
        Object::Real(r) => Some(Number::Real(text(r.as_str()))),
        _ => None,
    }
}

impl PageBox {
    /// Reads a rectangle: four numbers, in an array or through a reference to one.
    pub fn read(o: &Object, arena: &Arena) -> (r: Option<Self>)
        ensures
            match r {
                Some(b) => spec_rect(*arena, *o) == Some(box_view(b)),
                None => spec_rect(*arena, *o) is None,
            },
    {
        let a = match arena.array_of(o) {
            Some(a) => a,
            None => return None,
        };
        if a.len() != 4 {
            return None;
        }
        let llx = match corner(arena, &a[0]) {
            Some(n) => n,
            None => return None,
        };
        let lly = match corner(arena, &a[1]) {
            Some(n) => n,
            None => return None,
        };
        let urx = match corner(arena, &a[2]) {
            Some(n) => n,
            None => return None,
        };
        let ury = match corner(arena, &a[3]) {
            Some(n) => n,
            None => return None,
        };
        Some(PageBox { llx, lly, urx, ury })
    }

    /// US Letter, 612 by 792 points, which a page without a readable `/MediaBox` is
    /// taken to be.
    pub fn letter() -> (r: Self)
        ensures
            box_view(r) == letter_view(),
    {
        PageBox {
            llx: Number::Integer(0),
            lly: Number::Integer(0),
            urx: Number::Integer(612),
            ury: Number::Integer(792),
        }
    }
}

/// US Letter, `[0 0 612 792]`, as values.
pub open spec fn letter_view() -> Seq<NumberView> {
    seq![
        number_view(Number::Integer(0)),
        number_view(Number::Integer(0)),
        number_view(Number::Integer(612)),
        number_view(Number::Integer(792)),
    ]
}

/// An optional boundary, as values.
pub open spec fn opt_box(b: Option<PageBox>) -> Option<Seq<NumberView>> {
    match b {
        Some(x) => Some(box_view(x)),
        None => None,
    }
}

/// `key` of `d` as an optional rectangle.
pub open spec fn rect_field(arena: Arena, d: Dict, key: Seq<char>) -> Option<Option<Seq<NumberView>>> {
    match d.spec_get(key) {
        None => Some(None),
        Some(o) => match spec_rect(arena, o) {
            Some(r) => Some(Some(r)),
            None => None,
        },
    }
}

/// A page dictionary (7.7.3.3, Table 31), as far as a page is read here: its type, its
/// parent, and the entries that name its contents, resources, size and annotations.
pub struct PdfPageDict<'a> {
    /// `/Type`, `Page` when the file is right.
    pub kind: String,
    /// `/Parent`: the enclosing page-tree node, by object number.
    pub parent: u32,
    /// `/Contents`: one content stream, or an array of them.
    pub contents: Option<&'a Object>,
    /// `/Resources`: fonts, images and other resources this page names.
    pub resources: Option<&'a Object>,
    /// `/MediaBox`: the page's physical extent.
    pub media_box: Option<PageBox>,
    /// `/Annots`: the annotations on this page.
    pub annots: Option<&'a Vec<Object>>,
}

impl<'a> PdfPageDict<'a> {
    /// The clause this reader reads.
    pub fn iso_clause() -> (r: &'static str)
        ensures
            r@ == "7.7.3.3"@,
    {
        "7.7.3.3"
    }
}

impl<'a> FromPdfObject<'a> for PdfPageDict<'a> {
    open spec fn readable(arena: Arena, obj: Object) -> bool {
        arena.spec_dict_of(obj) matches Some(d) && name_field(arena, d, "Type"@) matches Some(Some(_))
            && ref_field(d, "Parent"@) matches Some(Some(_)) && rect_field(arena, d, "MediaBox"@) is Some
            && array_field(arena, d, "Annots"@) is Some
    }

    open spec fn read_as(arena: Arena, obj: Object, v: Self) -> bool {
        arena.spec_dict_of(obj) matches Some(d) && name_field(arena, d, "Type"@) == Some(Some(v.kind@))
            && ref_field(d, "Parent"@) == Some(Some(v.parent)) && d.spec_get("Contents"@) == opt_ref(v.contents)
            && d.spec_get("Resources"@) == opt_ref(v.resources)
            && rect_field(arena, d, "MediaBox"@) == Some(opt_box(v.media_box))
            && array_field(arena, d, "Annots"@) == Some(opt_seq(v.annots))
    }

    fn from_pdf_object(obj: &'a Object, arena: &'a Arena) -> (r: PdfResult<Self>) {
        let d = match arena.dict_of(obj) {
            Some(d) => d,
            None => return Err(PdfError::Other(text("a page is not a dictionary"))),
        };
        let kind = match read_name(arena, d, "Type")? {
            Some(k) => k,
            None => return Err(PdfError::Other(text("a page has no /Type"))),
        };
        let parent = match read_ref(d, "Parent")? {
            Some(p) => p,
            None => return Err(PdfError::Other(text("a page has no /Parent"))),
        };
        let contents = d.get("Contents");
        let resources = d.get("Resources");
        let media_box = match d.get("MediaBox") {
            None => None,
            Some(o) => match PageBox::read(o, arena) {
                Some(b) => Some(b),
                None => return Err(PdfError::Other(text("/MediaBox is not a rectangle"))),
            },
        };
        let annots = read_array(arena, d, "Annots")?;
        Ok(PdfPageDict { kind, parent, contents, resources, media_box, annots })
    }
}

/// A page together with the object table and parent chain needed to resolve it.
pub struct Page<'a> {
    arena: &'a Arena,
    obj_handle: u32,
    parent_chain: Vec<u32>,
}

/// The dictionary object `n` is, written as a dictionary.
pub open spec fn node_dict(arena: Arena, n: u32) -> Option<Dict> {
    if (n as int) < arena.objects@.len() {
        match arena.objects@[n as int] {
            Object::Dictionary(d) => Some(d),
            _ => None,
        }
    } else {
        None
    }
}

/// `name` as the nodes of `chain` give it, the last node first.
pub open spec fn inherited(arena: Arena, chain: Seq<u32>, name: Seq<char>) -> Option<Object>
    decreases chain.len(),
{
    if chain.len() == 0 {
        None
    } else {
        match node_dict(arena, chain.last()) {
            Some(d) => match d.spec_get(name) {
                Some(v) => Some(v),
                None => inherited(arena, chain.drop_last(), name),
            },
            None => inherited(arena, chain.drop_last(), name),
        }
    }
}

/// An attribute of page `page`: its own entry, or else the nearest ancestor's along
/// `chain`, which runs from the root down.
pub open spec fn spec_attribute(arena: Arena, page: u32, chain: Seq<u32>, name: Seq<char>) -> Option<Object> {
    match node_dict(arena, page) {
        Some(d) => match d.spec_get(name) {
            Some(v) => Some(v),
            None => inherited(arena, chain, name),
        },
        None => inherited(arena, chain, name),
    }
}

/// The dictionary object `n` is.
pub(crate) fn node<'a>(arena: &'a Arena, n: u32) -> (r: Option<&'a Dict>)
    ensures
        match r {
            Some(d) => node_dict(*arena, n) == Some(*d),
            None => node_dict(*arena, n).is_none(),
        },
{
    if (n as usize) < arena.objects.len() {
        match &arena.objects[n as usize] {
            Object::Dictionary(d) => Some(d),
            _ => None,
        }
    } else {
        None
    }
}

/// The object numbers among `items` written as references, in order.
pub open spec fn references_in(items: Seq<Object>) -> Seq<u32>
    decreases items.len(),
{
    if items.len() == 0 {
        Seq::empty()
    } else {
        match items.last() {
            Object::Reference(n) => references_in(items.drop_last()).push(n),
            _ => references_in(items.drop_last()),
        }
    }
}

/// How many of `items` are written as references.
pub open spec fn refs_count(items: Seq<Object>) -> nat
    decreases items.len(),
{
    if items.len() == 0 {
        0
    } else {
        refs_count(items.drop_last()) + if items.last() is Reference {
            1nat
        } else {
            0nat
        }
    }
}

/// A prefix holds no more references than the whole.
proof fn lemma_refs_count_prefix(items: Seq<Object>, k: int)
    requires
        0 <= k <= items.len(),
    ensures
        refs_count(items.take(k)) <= refs_count(items),
    decreases items.len() - k,
{
    if k < items.len() {
        lemma_refs_count_prefix(items, k + 1);
        assert(items.take(k + 1).drop_last() =~= items.take(k));
    } else {
        assert(items.take(k) =~= items);
    }
}

/// The object numbers an array of content streams names are its references, each
/// once and in the order the array writes them: the reference at index `j` is the one
/// after as many others as the array writes before `j`.
pub proof fn law_contents_in_array_order(items: Seq<Object>)
    ensures
        references_in(items).len() == refs_count(items),
        forall|j: int|
            0 <= j < items.len() ==> (#[trigger] items[j] matches Object::Reference(n) ==> references_in(
                items,
            )[refs_count(items.take(j)) as int] == n),
    decreases items.len(),
{
    if items.len() > 0 {
        let rest = items.drop_last();
        law_contents_in_array_order(rest);
        assert forall|j: int|
            0 <= j < items.len() implies (#[trigger] items[j] matches Object::Reference(n) ==> references_in(
                items,
            )[refs_count(items.take(j)) as int] == n) by {
            if let Object::Reference(n) = items[j] {
                if j == items.len() - 1 {
                    assert(items.take(j) =~= rest);
                } else {
                    assert(items.take(j) =~= rest.take(j));
                    assert(rest[j] == items[j]);
                    assert(rest.take(j + 1).drop_last() =~= rest.take(j));
                    lemma_refs_count_prefix(rest, j + 1);
                }
            }
        }
    }
}

impl<'a> Page<'a> {
    /// The object table.
    pub closed spec fn spec_arena(&self) -> Arena {
        *self.arena
    }

    /// The page's object number.
    pub closed spec fn spec_handle(&self) -> u32 {
        self.obj_handle
    }

    /// The page-tree nodes above the page, from the root down.
    pub closed spec fn spec_chain(&self) -> Seq<u32> {
        self.parent_chain@
    }

    /// Binds a page's object number to its object table and the chain of page-tree
    /// nodes above it, root first.
    pub fn new(arena: &'a Arena, obj_handle: u32, parent_chain: Vec<u32>) -> (p: Self)
        ensures
            p.spec_arena() == *arena,
            p.spec_handle() == obj_handle,
            p.spec_chain() == parent_chain@,
    {
        Page { arena, obj_handle, parent_chain }
    }

    /// Reads an attribute from the page, then up the inheritance chain, nearest node
    /// first (7.7.3.4).
    pub fn get_attribute(&self, name: &str) -> (r: Option<&'a Object>)
        ensures
            opt_ref(r) == spec_attribute(self.spec_arena(), self.spec_handle(), self.spec_chain(), name@),
    {
        if let Some(d) = node(self.arena, self.obj_handle) {
            if let Some(v) = d.get(name) {
                return Some(v);
            }
        }
        let mut i: usize = self.parent_chain.len();
        assert(self.parent_chain@.take(i as int) =~= self.parent_chain@);
        while i > 0
            invariant
                i <= self.parent_chain@.len(),
                spec_attribute(*self.arena, self.obj_handle, self.parent_chain@, name@) == inherited(
                    *self.arena,
                    self.parent_chain@.take(i as int),
                    name@,
                ),
            decreases i,
        {
            assert(self.parent_chain@.take(i as int).drop_last() =~= self.parent_chain@.take(i - 1));
            assert(self.parent_chain@.take(i as int).last() == self.parent_chain@[i - 1]);
            if let Some(d) = node(self.arena, self.parent_chain[i - 1]) {
                if let Some(v) = d.get(name) {
                    return Some(v);
                }
            }
            i = i - 1;
        }
        assert(self.parent_chain@.take(0) =~= Seq::<u32>::empty());
        None
    }

    /// An attribute, inherited as [`Page::get_attribute`] finds it and then resolved.
    pub fn resolve_attribute(&self, name: &str) -> (r: Option<&'a Object>)
        ensures
            opt_ref(r) == match spec_attribute(self.spec_arena(), self.spec_handle(), self.spec_chain(), name@) {
                Some(o) => Some(self.spec_arena().spec_resolve(o)),
                None => None,
            },
    {
        match self.get_attribute(name) {
            Some(o) => Some(self.arena.resolve(o)),
            None => None,
        }
    }

    /// The page's object number.
    pub fn obj_handle(&self) -> (r: u32)
        ensures
            r == self.spec_handle(),
    {
        self.obj_handle
    }

    /// The page's resources: the dictionary `/Resources` resolves to, as inherited, or
    /// none.
    pub fn resources_handle(&self) -> (r: Option<&'a Dict>)
        ensures
            match r {
                Some(d) => match spec_attribute(self.spec_arena(), self.spec_handle(), self.spec_chain(), "Resources"@) {
                    Some(o) => self.spec_arena().spec_dict_of(o) == Some(*d),
                    None => false,
                },
                None => match spec_attribute(self.spec_arena(), self.spec_handle(), self.spec_chain(), "Resources"@) {
                    Some(o) => self.spec_arena().spec_dict_of(o).is_none(),
                    None => true,
                },
            },
    {
        match self.get_attribute("Resources") {
            Some(o) => self.arena.dict_of(o),
            None => None,
        }
    }

    /// The object numbers of the page's content streams: an array's references, or the
    /// one reference. Content streams are indirect objects (7.3.8), so anything else
    /// names none.
    pub fn contents_handles(&self) -> (r: Vec<u32>)
        ensures
            r@ == match spec_attribute(self.spec_arena(), self.spec_handle(), self.spec_chain(), "Contents"@) {
                Some(Object::Array(items)) => references_in(items@),
                Some(Object::Reference(n)) => seq![n],
                _ => Seq::<u32>::empty(),
            },
    {
        let mut out: Vec<u32> = Vec::new();
        match self.get_attribute("Contents") {
            Some(Object::Array(items)) => {
                let mut i: usize = 0;
                while i < items.len()
                    invariant
                        i <= items@.len(),
                        out@ == references_in(items@.take(i as int)),
                    decreases items@.len() - i,
                {
                    assert(items@.take(i + 1).drop_last() =~= items@.take(i as int));
                    if let Object::Reference(n) = &items[i] {
                        out.push(*n);
                    }
                    i = i + 1;
                }
                assert(items@.take(items@.len() as int) =~= items@);
            },
            Some(Object::Reference(n)) => {
                out.push(*n);
                assert(out@ =~= seq![*n]);
            },
            _ => {},
        }
        out
    }

    /// The page's media box, as inherited; US Letter when there is none, or it is not a
    /// rectangle.
    pub fn media_box(&self) -> (r: PageBox)
        ensures
            box_view(r) == match spec_attribute(self.spec_arena(), self.spec_handle(), self.spec_chain(), "MediaBox"@) {
                Some(o) => match spec_rect(self.spec_arena(), self.spec_arena().spec_resolve(o)) {
                    Some(b) => b,
                    None => letter_view(),
                },
                None => letter_view(),
            },
    {
        match self.resolve_attribute("MediaBox") {
            Some(o) => match PageBox::read(o, self.arena) {
                Some(b) => b,
                None => PageBox::letter(),
            },
            None => PageBox::letter(),
        }
    }
}

} // verus!
