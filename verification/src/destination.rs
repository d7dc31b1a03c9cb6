//! Destinations (12.3.2) and the two places a document files them by name: the
//! catalogue's `/Dests` dictionary, keyed by name (PDF 1.1), and the `/Dests` name tree
//! under `/Names`, keyed by byte string (PDF 1.2). An annotation's `/Dest` is looked up in
//! the one that matches its own type — a name in the dictionary, a string in the tree —
//! and nowhere else.
//!
//! A destination's coordinates are kept as the numbers the file wrote — an integer, or a
//! real's digits — so nothing here rounds them.

use crate::document::entries::FromPdfObject;
use crate::error::{text, PdfError, PdfResult};
use crate::object::{Arena, Dict, Object};
use crate::text::{
    find_sorted, insert_sorted, lemma_lex_irreflexive, lemma_lex_total, lemma_lex_transitive, lex_lt, str_lt, str_set,
    strictly_sorted, views,
};
use vstd::prelude::*;
use vstd::view::View as _;

verus! {

/// What page a destination names, and how it names it.
#[derive(Debug, Clone, PartialEq)]
pub enum Target {
    /// A page of this document, by the object number Table 151's first element gives.
    Page(u32),
    /// A zero-based page number, which Table 151 permits only in a destination reached
    /// through a remote go-to (12.6.4.3): the file pointed at is not this one.
    RemotePage(i64),
}

/// A coordinate or zoom, as the file wrote it.
#[derive(Debug, Clone, PartialEq)]
pub enum Number {
    /// An integer.
    Integer(i64),
    /// A real number's digits.
    Real(String),
}

/// How a destination asks the page to be fitted to the window (Table 151). A coordinate
/// is `None` where the table permits `null`, which means "keep what the viewer is
/// using" and is not a default this code may substitute.
#[derive(Debug, Clone, PartialEq)]
pub enum View {
    /// `/XYZ left top zoom`.
    Xyz {
        /// Horizontal coordinate of the upper-left corner.
        left: Option<Number>,
        /// Vertical coordinate of the upper-left corner.
        top: Option<Number>,
        /// Zoom factor; null, and also 0, mean the current one.
        zoom: Option<Number>,
    },
    /// `/Fit`: the whole page in the window.
    Fit,
    /// `/FitH top`: page width, at a vertical position.
    FitH {
        /// Vertical coordinate to place at the top edge.
        top: Option<Number>,
    },
    /// `/FitV left`: page height, at a horizontal position.
    FitV {
        /// Horizontal coordinate to place at the left edge.
        left: Option<Number>,
    },
    /// `/FitR left bottom right top`: a rectangle, entirely in the window. The four
    /// numbers are required: Table 151 permits null in every other form and not here.
    FitR {
        /// Left edge.
        left: Number,
        /// Bottom edge.
        bottom: Number,
        /// Right edge.
        right: Number,
        /// Top edge.
        top: Number,
    },
    /// `/FitB`: the bounding box of the page's contents.
    FitB,
    /// `/FitBH top`: bounding-box width, at a vertical position.
    FitBH {
        /// Vertical coordinate to place at the top edge.
        top: Option<Number>,
    },
    /// `/FitBV left`: bounding-box height, at a horizontal position.
    FitBV {
        /// Horizontal coordinate to place at the left edge.
        left: Option<Number>,
    },
}

/// A destination: a page, and how to fit it (12.3.2.2).
#[derive(Debug, Clone, PartialEq)]
pub struct Destination {
    /// The page.
    pub target: Target,
    /// How to fit it.
    pub view: View,
}

/// A number, as values: whether it is an integer, its value if so, a real's digits if
/// not.
pub type NumberView = (bool, i64, Seq<char>);

/// A view, as values: which form (in the order [`View`] declares them), and its
/// coordinates in the order Table 151 writes them.
pub type ViewView = (int, Seq<Option<NumberView>>);

/// A destination, as values: whether the target is a page of this document, the number
/// it gives, and the view.
pub type DestinationView = ((bool, int), ViewView);

/// A number, as values.
pub open spec fn number_view(n: Number) -> NumberView {
    match n {
        Number::Integer(i) => (true, i, Seq::empty()),
        Number::Real(r) => (false, 0, r@),
    }
}

/// An optional number, as values.
pub open spec fn opt_number(n: Option<Number>) -> Option<NumberView> {
    match n {
        Some(x) => Some(number_view(x)),
        None => None,
    }
}

/// A view, as values.
pub open spec fn view_view(v: View) -> ViewView {
    match v {
        View::Xyz { left, top, zoom } => (0, seq![opt_number(left), opt_number(top), opt_number(zoom)]),
        View::Fit => (1, Seq::empty()),
        View::FitH { top } => (2, seq![opt_number(top)]),
        View::FitV { left } => (3, seq![opt_number(left)]),
        View::FitR { left, bottom, right, top } => (
            4,
            seq![Some(number_view(left)), Some(number_view(bottom)), Some(number_view(right)), Some(number_view(top))],
        ),
        View::FitB => (5, Seq::empty()),
        View::FitBH { top } => (6, seq![opt_number(top)]),
        View::FitBV { left } => (7, seq![opt_number(left)]),
    }
}

/// A target, as values.
pub open spec fn target_view(t: Target) -> (bool, int) {
    match t {
        Target::Page(n) => (true, n as int),
        Target::RemotePage(p) => (false, p as int),
    }
}

/// A destination, as values.
pub open spec fn destination_view(d: Destination) -> DestinationView {
    (target_view(d.target), view_view(d.view))
}

/// The number an object is, through a reference; `None` for anything else, which is
/// where Table 151's `null` lands.
pub open spec fn spec_number(arena: Arena, o: Object) -> Option<NumberView> {
    match arena.spec_resolve(o) {
        Object::Integer(i) => Some((true, i, Seq::empty())),
        Object::Real(r) => Some((false, 0, r@)),
        _ => None,
    }
}

/// The `i`th argument of a view, as a number.
pub open spec fn arg(arena: Arena, args: Seq<Object>, i: int) -> Option<NumberView> {
    if 0 <= i < args.len() {
        spec_number(arena, args[i])
    } else {
        None
    }
}

/// Table 151's elements after the page: the form's name, then its arguments.
pub open spec fn spec_view(arena: Arena, rest: Seq<Object>) -> Option<ViewView> {
    if rest.len() == 0 {
        None
    } else {
        match arena.spec_resolve(rest[0]) {
            Object::Name(n) => {
                let args = rest.skip(1);
                let name = n@;
                if name == "XYZ"@ {
                    Some((0, seq![arg(arena, args, 0), arg(arena, args, 1), arg(arena, args, 2)]))
                } else if name == "Fit"@ {
                    Some((1, Seq::empty()))
                } else if name == "FitH"@ {
                    Some((2, seq![arg(arena, args, 0)]))
                } else if name == "FitV"@ {
                    Some((3, seq![arg(arena, args, 0)]))
                } else if name == "FitR"@ {
                    if arg(arena, args, 0) is Some && arg(arena, args, 1) is Some && arg(arena, args, 2) is Some && arg(
                        arena,
                        args,
                        3,
                    ) is Some {
                        Some((4, seq![arg(arena, args, 0), arg(arena, args, 1), arg(arena, args, 2), arg(arena, args, 3)]))
                    } else {
                        None
                    }
                } else if name == "FitB"@ {
                    Some((5, Seq::empty()))
                } else if name == "FitBH"@ {
                    Some((6, seq![arg(arena, args, 0)]))
                } else if name == "FitBV"@ {
                    Some((7, seq![arg(arena, args, 0)]))
                } else {
                    None
                }
            },
            _ => None,
        }
    }
}

/// Table 151's first element: a page object, checked before resolving because the
/// reference is the page, or a number for a remote destination.
pub open spec fn spec_target(o: Object) -> Option<(bool, int)> {
    match o {
        Object::Reference(n) => Some((true, n as int)),
        Object::Integer(p) => Some((false, p as int)),
        _ => None,
    }
}

/// The array a destination is written as: the array itself, through a reference, or the
/// `<< /D array >>` dictionary 12.3.2.3 also allows.
pub open spec fn destination_array(arena: Arena, o: Object) -> Option<Seq<Object>> {
    match arena.spec_resolve(o) {
        Object::Array(a) => Some(a@),
        Object::Dictionary(d) => match d.spec_get("D"@) {
            Some(inner) => arena.spec_array_of(inner),
            None => None,
        },
        _ => None,
    }
}

/// The destination `o` is, when it is one this code can read.
pub open spec fn spec_destination(arena: Arena, o: Object) -> Option<DestinationView> {
    match destination_array(arena, o) {
        Some(a) => if a.len() == 0 {
            None
        } else {
            match (spec_target(a[0]), spec_view(arena, a.skip(1))) {
                (Some(t), Some(v)) => Some((t, v)),
                _ => None,
            }
        },
        None => None,
    }
}

/// The number an object is.
pub(crate) fn number(arena: &Arena, o: &Object) -> (r: Option<Number>)
    ensures
        opt_number(r) == spec_number(*arena, *o),
{
    match arena.resolve(o) {
        Object::Integer(i) => Some(Number::Integer(*i)),
        Object::Real(r) => Some(Number::Real(text(r.as_str()))),
        _ => None,
    }
}

/// The `i`th argument of a view written in `array`, as a number: the element two past
/// the page and the form's name.
fn number_at(arena: &Arena, array: &[Object], i: usize) -> (r: Option<Number>)
    requires
        array@.len() >= 2,
        i < 4,
    ensures
        opt_number(r) == arg(*arena, array@.skip(1).skip(1), i as int),
{
    if i < array.len() - 2 {
        number(arena, &array[i + 2])
    } else {
        None
    }
}

/// Table 151's first element.
pub fn target_of(o: &Object) -> (r: Option<Target>)
    ensures
        match r {
            Some(t) => spec_target(*o) == Some(target_view(t)),
            None => spec_target(*o) is None,
        },
{
    match o {
        Object::Reference(n) => Some(Target::Page(*n)),
        Object::Integer(p) => Some(Target::RemotePage(*p)),
        _ => None,
    }
}

/// Table 151's elements after the page: the form name, then its arguments.
fn view_of(arena: &Arena, array: &[Object]) -> (r: Option<View>)
    requires
        array@.len() >= 1,
    ensures
        match r {
            Some(v) => spec_view(*arena, array@.skip(1)) == Some(view_view(v)),
            None => spec_view(*arena, array@.skip(1)) is None,
        },
{
    let ghost rest = array@.skip(1);
    if array.len() == 1 {
        return None;
    }
    assert(rest[0] == array@[1]);
    let name = match arena.resolve(&array[1]) {
        Object::Name(n) => n.as_str(),
        _ => return None,
    };
    proof {
        reveal_strlit("XYZ");
        reveal_strlit("Fit");
        reveal_strlit("FitH");
        reveal_strlit("FitV");
        reveal_strlit("FitR");
        reveal_strlit("FitB");
        reveal_strlit("FitBH");
        reveal_strlit("FitBV");
    }
    if crate::object::str_eq(name, "XYZ") {
        Some(View::Xyz { left: number_at(arena, array, 0), top: number_at(arena, array, 1), zoom: number_at(arena, array, 2) })
    } else if crate::object::str_eq(name, "Fit") {
        Some(View::Fit)
    } else if crate::object::str_eq(name, "FitH") {
        Some(View::FitH { top: number_at(arena, array, 0) })
    } else if crate::object::str_eq(name, "FitV") {
        Some(View::FitV { left: number_at(arena, array, 0) })
    } else if crate::object::str_eq(name, "FitR") {
        let left = number_at(arena, array, 0);
        let bottom = number_at(arena, array, 1);
        let right = number_at(arena, array, 2);
        let top = number_at(arena, array, 3);
        match (left, bottom, right, top) {
            (Some(l), Some(b), Some(r), Some(t)) => Some(View::FitR { left: l, bottom: b, right: r, top: t }),
            _ => None,
        }
    } else if crate::object::str_eq(name, "FitB") {
        Some(View::FitB)
    } else if crate::object::str_eq(name, "FitBH") {
        Some(View::FitBH { top: number_at(arena, array, 0) })
    } else if crate::object::str_eq(name, "FitBV") {
        Some(View::FitBV { left: number_at(arena, array, 0) })
    } else {
        None
    }
}

/// The name Table 151 gives the form of a view.
pub open spec fn form_name(form: int) -> Seq<char> {
    if form == 0 {
        "XYZ"@
    } else if form == 1 {
        "Fit"@
    } else if form == 2 {
        "FitH"@
    } else if form == 3 {
        "FitV"@
    } else if form == 4 {
        "FitR"@
    } else if form == 5 {
        "FitB"@
    } else if form == 6 {
        "FitBH"@
    } else {
        "FitBV"@
    }
}

/// The name Table 151 gives a view's form, by the form it is.
pub open spec fn form_of(v: View) -> Seq<char> {
    match v {
        View::Xyz { .. } => "XYZ"@,
        View::Fit => "Fit"@,
        View::FitH { .. } => "FitH"@,
        View::FitV { .. } => "FitV"@,
        View::FitR { .. } => "FitR"@,
        View::FitB => "FitB"@,
        View::FitBH { .. } => "FitBH"@,
        View::FitBV { .. } => "FitBV"@,
    }
}

/// A destination read back names the form its array writes after the page, and takes
/// each coordinate from the argument Table 151 puts it at: `/FitH` and `/FitBH` their
/// top, `/FitV` and `/FitBV` their left, `/XYZ` left, top and zoom in that order.
pub proof fn law_read_view_names_its_form(arena: Arena, object: Object, d: Destination)
    requires
        spec_destination(arena, object) == Some(destination_view(d)),
    ensures
        destination_array(arena, object) is Some,
        ({
            let a = destination_array(arena, object)->Some_0;
            let args = a.skip(2);
            &&& a.len() >= 2
            &&& arena.spec_resolve(a[1]) matches Object::Name(n) && n@ == form_of(d.view)
            &&& (d.view matches View::FitH { top } ==> opt_number(top) == arg(arena, args, 0))
            &&& (d.view matches View::FitBH { top } ==> opt_number(top) == arg(arena, args, 0))
            &&& (d.view matches View::FitV { left } ==> opt_number(left) == arg(arena, args, 0))
            &&& (d.view matches View::FitBV { left } ==> opt_number(left) == arg(arena, args, 0))
            &&& (d.view matches View::Xyz { left, top, zoom } ==> opt_number(left) == arg(arena, args, 0) && opt_number(
                top,
            ) == arg(arena, args, 1) && opt_number(zoom) == arg(arena, args, 2))
        }),
{
    let a = destination_array(arena, object)->Some_0;
    let rest = a.skip(1);
    assert(rest.skip(1) =~= a.skip(2));
    assert(spec_view(arena, rest) == Some(view_view(d.view)));
    assert(rest[0] == a[1]);
    let vv = view_view(d.view);
    match d.view {
        View::Xyz { left, top, zoom } => {
            assert(vv.1[0] == opt_number(left) && vv.1[1] == opt_number(top) && vv.1[2] == opt_number(zoom));
        },
        View::FitH { top } => {
            assert(vv.1[0] == opt_number(top));
        },
        View::FitBH { top } => {
            assert(vv.1[0] == opt_number(top));
        },
        View::FitV { left } => {
            assert(vv.1[0] == opt_number(left));
        },
        View::FitBV { left } => {
            assert(vv.1[0] == opt_number(left));
        },
        _ => {},
    }
}

impl View {
    /// The name Table 151 gives this form.
    pub fn as_name(&self) -> (r: &'static str)
        ensures
            r@ == form_name(view_view(*self).0),
    {
        match self {
            View::Xyz { .. } => "XYZ",
            View::Fit => "Fit",
            View::FitH { .. } => "FitH",
            View::FitV { .. } => "FitV",
            View::FitR { .. } => "FitR",
            View::FitB => "FitB",
            View::FitBH { .. } => "FitBH",
            View::FitBV { .. } => "FitBV",
        }
    }
}

impl Destination {
    /// Reads a destination from `object`: the array itself, a reference to one, or the
    /// `<< /D array >>` dictionary 12.3.2.3 also allows.
    ///
    /// `None` when `object` is not a destination this code can read: a form Table 151
    /// does not define, a first element that is not a page, or too few arguments for
    /// `/FitR`.
    pub fn read(object: &Object, arena: &Arena) -> (r: Option<Self>)
        ensures
            match r {
                Some(d) => spec_destination(*arena, *object) == Some(destination_view(d)),
                None => spec_destination(*arena, *object) is None,
            },
    {
        let array: &Vec<Object> = match arena.resolve(object) {
            Object::Array(a) => a,
            Object::Dictionary(d) => match d.get("D") {
                Some(inner) => match arena.array_of(inner) {
                    Some(a) => a,
                    None => return None,
                },
                None => return None,
            },
            _ => return None,
        };
        if array.len() == 0 {
            return None;
        }
        let target = match target_of(&array[0]) {
            Some(t) => t,
            None => return None,
        };
        match view_of(arena, array.as_slice()) {
            Some(view) => Some(Destination { target, view }),
            None => None,
        }
    }
}


/// The names of a list of named destinations.
pub open spec fn key_views(v: Seq<(String, Destination)>) -> Seq<Seq<char>> {
    v.map_values(|e: (String, Destination)| e.0@)
}

/// A list of named destinations, sorted by name with each name once, as the map it is.
pub open spec fn represents(v: Seq<(String, Destination)>, m: Map<Seq<char>, DestinationView>) -> bool {
    &&& strictly_sorted(key_views(v))
    &&& forall|i: int| 0 <= i < v.len() ==> m.contains_key(#[trigger] v[i].0@) && m[v[i].0@] == destination_view(v[i].1)
    &&& forall|k: Seq<char>| #[trigger] m.contains_key(k) ==> exists|i: int| 0 <= i < v.len() && v[i].0@ == k
}

/// The names among the first `n` entries.
pub open spec fn names_upto(es: Seq<(String, Object)>, n: int) -> Set<Seq<char>> {
    Set::new(|k: Seq<char>| exists|i: int| 0 <= i < n && #[trigger] es[i].0@ == k)
}

/// What the first `n` entries of a `/Dests` dictionary read as: each name's destination,
/// from the first entry of that name, and how many names hold something that is not a
/// destination.
pub open spec fn dests_read(arena: Arena, es: Seq<(String, Object)>, n: int) -> (Map<Seq<char>, DestinationView>, nat)
    decreases n,
{
    if n <= 0 {
        (Map::empty(), 0)
    } else {
        let (m, u) = dests_read(arena, es, n - 1);
        let (k, v) = es[n - 1];
        if names_upto(es, n - 1).contains(k@) {
            (m, u)
        } else {
            match spec_destination(arena, v) {
                Some(d) => (m.insert(k@, d), u),
                None => (m, u + 1),
            }
        }
    }
}

/// Where a name not in a sorted list belongs.
fn key_position(v: &Vec<(String, Destination)>, k: &str) -> (p: usize)
    requires
        strictly_sorted(key_views(v@)),
        forall|i: int| 0 <= i < v@.len() ==> v@[i].0@ != k@,
    ensures
        p <= v@.len(),
        forall|i: int| 0 <= i < p ==> lex_lt(#[trigger] v@[i].0@, k@),
        forall|i: int| p <= i < v@.len() ==> lex_lt(k@, #[trigger] v@[i].0@),
{
    let mut p: usize = 0;
    while p < v.len() && str_lt(v[p].0.as_str(), k)
        invariant
            p <= v@.len(),
            forall|i: int| 0 <= i < p ==> lex_lt(#[trigger] v@[i].0@, k@),
        decreases v@.len() - p,
    {
        p = p + 1;
    }
    if p < v.len() {
        proof {
            lemma_lex_total(k@, v@[p as int].0@);
            assert forall|i: int| p <= i < v@.len() implies lex_lt(k@, #[trigger] v@[i].0@) by {
                if i > p {
                    assert(key_views(v@)[p as int] == v@[p as int].0@ && key_views(v@)[i] == v@[i].0@);
                    lemma_lex_transitive(k@, v@[p as int].0@, v@[i].0@);
                }
            }
        }
    }
    p
}

/// The catalogue's `/Dests` dictionary (12.3.2.3): destinations keyed by name (PDF 1.1),
/// with what would not read counted rather than silently left out.
#[derive(Debug)]
pub struct DestsDictionary {
    /// The destinations, by the name that declares each, in name order.
    pub entries: Vec<(String, Destination)>,
    /// Names present in the dictionary whose value is not a destination.
    pub unreadable: usize,
}

impl DestsDictionary {
    /// The clause this reader reads.
    pub fn iso_clause() -> (r: &'static str)
        ensures
            r@ == "12.3.2.3"@,
    {
        "12.3.2.3"
    }
}

impl<'a> FromPdfObject<'a> for DestsDictionary {
    open spec fn readable(arena: Arena, obj: Object) -> bool {
        arena.spec_dict_of(obj) is Some
    }

    open spec fn read_as(arena: Arena, obj: Object, v: Self) -> bool {
        arena.spec_dict_of(obj) matches Some(d) && {
            let (m, u) = dests_read(arena, d.entries@, d.entries@.len() as int);
            represents(v.entries@, m) && v.unreadable == u
        }
    }

    fn from_pdf_object(obj: &'a Object, arena: &'a Arena) -> (r: PdfResult<Self>) {
        let d = match arena.dict_of(obj) {
            Some(d) => d,
            None => return Err(PdfError::Arena(text("/Dests is not a dictionary (12.3.2.3)"))),
        };
        let mut entries: Vec<(String, Destination)> = Vec::new();
        let mut unreadable: usize = 0;
        let mut seen: Vec<String> = Vec::new();
        let mut j: usize = 0;
        assert(str_set(seen@) =~= names_upto(d.entries@, 0));
        while j < d.entries.len()
            invariant
                j <= d.entries@.len(),
                unreadable <= j,
                strictly_sorted(views(seen@)),
                str_set(seen@) == names_upto(d.entries@, j as int),
                represents(entries@, dests_read(*arena, d.entries@, j as int).0),
                unreadable == dests_read(*arena, d.entries@, j as int).1,
                forall|i: int| 0 <= i < entries@.len() ==> str_set(seen@).contains(#[trigger] entries@[i].0@),
            decreases d.entries@.len() - j,
        {
            let key = d.entries[j].0.as_str();
            let ghost m = dests_read(*arena, d.entries@, j as int).0;
            let (_, found) = find_sorted(&seen, key);
            if !found {
                match Destination::read(&d.entries[j].1, arena) {
                    Some(dest) => {
                        let p = key_position(&entries, key);
                        let ghost before = entries@;
                        entries.insert(p, (text(key), dest));
                        proof {
                            assert forall|a: int, b: int| 0 <= a < b < entries@.len() implies lex_lt(
                                #[trigger] key_views(entries@)[a],
                                #[trigger] key_views(entries@)[b],
                            ) by {
                                if b < p {
                                    assert(entries@[a] == before[a] && entries@[b] == before[b]);
                                    assert(key_views(before)[a] == before[a].0@ && key_views(before)[b] == before[b].0@);
                                } else if b == p {
                                    assert(entries@[a] == before[a]);
                                } else if a < p {
                                    assert(entries@[a] == before[a] && entries@[b] == before[b - 1]);
                                    lemma_lex_transitive(before[a].0@, key@, before[b - 1].0@);
                                } else if a == p {
                                    assert(entries@[b] == before[b - 1]);
                                } else {
                                    assert(entries@[a] == before[a - 1] && entries@[b] == before[b - 1]);
                                    assert(key_views(before)[a - 1] == before[a - 1].0@ && key_views(before)[b - 1] == before[b - 1].0@);
                                }
                            }
                        }
                        proof {
                            let m2 = m.insert(key@, destination_view(dest));
                            assert forall|i: int| 0 <= i < entries@.len() implies m2.contains_key(#[trigger] entries@[i].0@)
                                && m2[entries@[i].0@] == destination_view(entries@[i].1) by {
                                if i < p {
                                    assert(entries@[i] == before[i]);
                                } else if i > p {
                                    assert(entries@[i] == before[i - 1]);
                                }
                            }
                            assert forall|k: Seq<char>| #[trigger] m2.contains_key(k) implies exists|i: int| 0 <= i < entries@.len()
                                && entries@[i].0@ == k by {
                                if k == key@ {
                                    assert(entries@[p as int].0@ == k);
                                } else {
                                    let i = choose|i: int| 0 <= i < before.len() && before[i].0@ == k;
                                    if i < p {
                                        assert(entries@[i] == before[i]);
                                    } else {
                                        assert(entries@[i + 1] == before[i]);
                                    }
                                }
                            }
                        }
                    },
                    None => {
                        unreadable = unreadable + 1;
                    },
                }
            }
            let ghost old_seen = seen@;
            insert_sorted(&mut seen, key);
            proof {
                assert(str_set(seen@) =~= names_upto(d.entries@, j + 1)) by {
                    assert forall|k: Seq<char>| names_upto(d.entries@, j + 1).contains(k) implies str_set(seen@).contains(k) by {
                        let i = choose|i: int| 0 <= i < j + 1 && #[trigger] d.entries@[i].0@ == k;
                        if i < j {
                            assert(names_upto(d.entries@, j as int).contains(k));
                        }
                    }
                    assert forall|k: Seq<char>| str_set(seen@).contains(k) implies names_upto(d.entries@, j + 1).contains(k) by {
                        if k != key@ {
                            assert(names_upto(d.entries@, j as int).contains(k));
                            let i = choose|i: int| 0 <= i < j && #[trigger] d.entries@[i].0@ == k;
                        } else {
                            assert(d.entries@[j as int].0@ == k);
                        }
                    }
                }
                assert forall|i: int| 0 <= i < entries@.len() implies str_set(seen@).contains(#[trigger] entries@[i].0@) by {
                    if entries@[i].0@ != key@ {
                        assert(str_set(old_seen).contains(entries@[i].0@));
                    }
                }
            }
            j = j + 1;
        }
        Ok(DestsDictionary { entries, unreadable })
    }
}

/// How deep a name tree is read. The bound is what stops a `/Kids` cycle, which nothing
/// in the format forbids; a real tree is a few levels for hundreds of thousands of keys.
pub const MAX_TREE_DEPTH: usize = 32;

/// A name tree's key, which 7.9.6 defines as a byte string: a string's bytes, or a text
/// string's UTF-8.
pub open spec fn spec_key_bytes(arena: Arena, o: Object) -> Option<Seq<u8>> {
    match arena.spec_resolve(o) {
        Object::String(b) => Some(b@),
        Object::Hex(b) => Some(b@),
        Object::Text(t) => Some(vstd::utf8::encode_utf8(t@)),
        _ => None,
    }
}

/// The pairs of the first `k` key–value pairs of a `/Names` array whose key is a string,
/// in order.
pub open spec fn leaf_pairs(arena: Arena, names: Seq<Object>, k: int) -> Seq<(Seq<u8>, Object)>
    decreases k,
{
    if k <= 0 {
        Seq::empty()
    } else {
        let rest = leaf_pairs(arena, names, k - 1);
        match spec_key_bytes(arena, names[2 * (k - 1)]) {
            Some(b) => rest.push((b, names[2 * (k - 1) + 1])),
            None => rest,
        }
    }
}

/// The array under `key` in a dictionary, through references.
pub open spec fn array_entry(arena: Arena, d: Dict, key: Seq<char>) -> Option<Seq<Object>> {
    match d.spec_get(key) {
        Some(o) => arena.spec_array_of(o),
        None => None,
    }
}

/// Every key and value below a name tree node at `depth` (7.9.6), in key order as the
/// tree files them: a node's `/Kids` when it has them, else its `/Names`. `/Limits` is
/// not consulted, so wrong limits lose nothing.
pub open spec fn tree_leaves(arena: Arena, node: Object, depth: nat) -> Seq<(Seq<u8>, Object)>
    decreases MAX_TREE_DEPTH - depth, 0int,
{
    if depth >= MAX_TREE_DEPTH {
        Seq::empty()
    } else {
        match arena.spec_dict_of(node) {
            None => Seq::empty(),
            Some(d) => match array_entry(arena, d, "Kids"@) {
                Some(kids) => kids_leaves(arena, kids, kids.len() as int, depth + 1),
                None => match array_entry(arena, d, "Names"@) {
                    Some(names) => leaf_pairs(arena, names, (names.len() / 2) as int),
                    None => Seq::empty(),
                },
            },
        }
    }
}

/// The leaves below the first `n` kids, each read at `depth`.
pub open spec fn kids_leaves(arena: Arena, kids: Seq<Object>, n: int, depth: nat) -> Seq<(Seq<u8>, Object)>
    decreases MAX_TREE_DEPTH - depth, n + 1,
{
    if n <= 0 || n > kids.len() || depth > MAX_TREE_DEPTH {
        Seq::empty()
    } else {
        kids_leaves(arena, kids, n - 1, depth) + tree_leaves(arena, kids[n - 1], depth)
    }
}

/// Collected leaves, as values.
pub open spec fn leaf_views<'a>(v: Seq<(Vec<u8>, &'a Object)>) -> Seq<(Seq<u8>, Object)> {
    v.map_values(|e: (Vec<u8>, &'a Object)| (e.0@, *e.1))
}

/// A name tree key.
fn string_bytes(o: &Object, arena: &Arena) -> (r: Option<Vec<u8>>)
    ensures
        match r {
            Some(b) => spec_key_bytes(*arena, *o) == Some(b@),
            None => spec_key_bytes(*arena, *o) is None,
        },
{
    match arena.resolve(o) {
        Object::String(b) => Some(crate::object::copy_byte_list(b)),
        Object::Hex(b) => Some(crate::object::copy_byte_list(b)),
        Object::Text(t) => Some(t.as_str().as_bytes_vec()),
        _ => None,
    }
}

/// Appends every key and value of a name tree to `out`.
fn walk_name_tree<'a>(arena: &'a Arena, node: &'a Object, out: &mut Vec<(Vec<u8>, &'a Object)>, depth: usize)
    ensures
        leaf_views(final(out)@) == leaf_views(old(out)@) + tree_leaves(*arena, *node, depth as nat),
    decreases MAX_TREE_DEPTH - depth,
{
    let ghost start = leaf_views(out@);
    if depth >= MAX_TREE_DEPTH {
        assert(leaf_views(out@) =~= start + tree_leaves(*arena, *node, depth as nat));
        return;
    }
    let d = match arena.dict_of(node) {
        Some(d) => d,
        None => {
            assert(leaf_views(out@) =~= start + tree_leaves(*arena, *node, depth as nat));
            return;
        },
    };
    let kids_found: Option<&'a Vec<Object>> = match d.get("Kids") {
        Some(k) => arena.array_of(k),
        None => None,
    };
    if let Some(kids) = kids_found {
        let mut i: usize = 0;
        assert(leaf_views(out@) =~= start + kids_leaves(*arena, kids@, 0, (depth + 1) as nat));
        while i < kids.len()
            invariant
                i <= kids@.len(),
                depth < MAX_TREE_DEPTH,
                leaf_views(out@) == start + kids_leaves(*arena, kids@, i as int, (depth + 1) as nat),
            decreases kids@.len() - i,
        {
            let ghost mid = leaf_views(out@);
            walk_name_tree(arena, &kids[i], out, depth + 1);
            assert(leaf_views(out@) =~= start + kids_leaves(*arena, kids@, i + 1, (depth + 1) as nat));
            i = i + 1;
        }
        return;
    }
    let names_found: Option<&'a Vec<Object>> = match d.get("Names") {
        Some(n) => arena.array_of(n),
        None => None,
    };
    let names = match names_found {
        Some(n) => n,
        None => {
            assert(leaf_views(out@) =~= start + tree_leaves(*arena, *node, depth as nat));
            return;
        },
    };
    let len = names.len();
    let count = len / 2;
    let mut k: usize = 0;
    assert(leaf_views(out@) =~= start + leaf_pairs(*arena, names@, 0));
    while k < count
        invariant
            k <= count,
            len == names@.len(),
            count == names@.len() / 2,
            leaf_views(out@) == start + leaf_pairs(*arena, names@, k as int),
        decreases count - k,
    {
        assert(2 * k + 1 < names@.len()) by (nonlinear_arith)
            requires
                k < count,
                count == names@.len() / 2,
        ;
        let at = 2 * k;
        assert(2 * ((k + 1) - 1) == at);
        let ghost before = out@;
        if let Some(key) = string_bytes(&names[at], arena) {
            out.push((key, &names[at + 1]));
            assert(leaf_pairs(*arena, names@, k + 1) == leaf_pairs(*arena, names@, k as int).push(
                (key@, names@[at + 1]),
            ));
            assert(leaf_views(out@) =~= leaf_views(before).push((key@, names@[at + 1])));
        } else {
            assert(leaf_pairs(*arena, names@, k + 1) == leaf_pairs(*arena, names@, k as int));
        }
        assert(leaf_views(out@) =~= start + leaf_pairs(*arena, names@, k + 1));
        k = k + 1;
    }
}

/// Whether two byte strings are the same.
fn bytes_eq(a: &[u8], b: &[u8]) -> (r: bool)
    ensures
        r == (a@ == b@),
{
    if a.len() != b.len() {
        return false;
    }
    let mut i: usize = 0;
    while i < a.len()
        invariant
            i <= a@.len(),
            a@.len() == b@.len(),
            forall|j: int| 0 <= j < i ==> a@[j] == b@[j],
        decreases a@.len() - i,
    {
        if a[i] != b[i] {
            return false;
        }
        i = i + 1;
    }
    assert(a@ =~= b@);
    true
}

/// What a list of name tree leaves reads as: each key's destination, a later leaf of the
/// same key replacing an earlier one, and how many leaves hold something that is not a
/// destination.
pub open spec fn leaves_read(arena: Arena, s: Seq<(Seq<u8>, Object)>) -> (Map<Seq<u8>, DestinationView>, nat)
    decreases s.len(),
{
    if s.len() == 0 {
        (Map::empty(), 0)
    } else {
        let (m, u) = leaves_read(arena, s.drop_last());
        match spec_destination(arena, s.last().1) {
            Some(d) => (m.insert(s.last().0, d), u),
            None => (m, u + 1),
        }
    }
}

/// A list of destinations keyed by byte string, each key once, as the map it is.
pub open spec fn represents_bytes(v: Seq<(Vec<u8>, Destination)>, m: Map<Seq<u8>, DestinationView>) -> bool {
    &&& forall|a: int, b: int| 0 <= a < b < v.len() ==> #[trigger] v[a].0@ != #[trigger] v[b].0@
    &&& forall|i: int| 0 <= i < v.len() ==> m.contains_key(#[trigger] v[i].0@) && m[v[i].0@] == destination_view(v[i].1)
    &&& forall|k: Seq<u8>| #[trigger] m.contains_key(k) ==> exists|i: int| 0 <= i < v.len() && v[i].0@ == k
}

/// What a catalogue's `/Dests` dictionary reads as; nothing when there is none, or it is
/// not a dictionary.
pub open spec fn catalog_dests(arena: Arena, catalog: Dict) -> (Map<Seq<char>, DestinationView>, nat) {
    match catalog.spec_get("Dests"@) {
        Some(e) => match arena.spec_dict_of(e) {
            Some(d) => dests_read(arena, d.entries@, d.entries@.len() as int),
            None => (Map::empty(), 0),
        },
        None => (Map::empty(), 0),
    }
}

/// The leaves of a catalogue's `/Names /Dests` tree.
pub open spec fn catalog_leaves(arena: Arena, catalog: Dict) -> Seq<(Seq<u8>, Object)> {
    match catalog.spec_get("Names"@) {
        Some(n) => match arena.spec_dict_of(n) {
            Some(names) => match names.spec_get("Dests"@) {
                Some(root) => tree_leaves(arena, root, 0),
                None => Seq::empty(),
            },
            None => Seq::empty(),
        },
        None => Seq::empty(),
    }
}

/// Every named destination a document declares, by the form that declared it.
///
/// The two are not merged: a `/Dest` that is a name is answered from `by_name` and one
/// that is a byte string from `by_string`, because 12.3.2.3 files them in different
/// places, and a name declared in one is no promise about the other.
#[derive(Debug)]
pub struct NamedDestinations {
    /// The catalogue's `/Dests` dictionary, keyed by name (PDF 1.1), in name order.
    pub by_name: Vec<(String, Destination)>,
    /// The `/Dests` name tree under `/Names`, keyed by byte string (PDF 1.2), each key
    /// once, in the order its first leaf came.
    pub by_string: Vec<(Vec<u8>, Destination)>,
    /// Entries present in one of the two but not readable as a destination, counted
    /// rather than dropped (held at `usize::MAX`).
    pub unreadable: usize,
}

/// What a `/Dest` turned out to name.
#[derive(Debug, PartialEq)]
pub enum Lookup<'a> {
    /// Written in place, so nothing was looked up.
    Inline(Destination),
    /// A name or string that a declared destination answered.
    Named(&'a Destination),
    /// A name or string that nothing declares: a link that goes nowhere.
    Dangling(String),
    /// Present but not a destination: not an array, name or string, or an array this
    /// code cannot read as one.
    Unreadable,
}

/// What looking `k` up among `v` answers, by name.
pub open spec fn name_lookup<'a>(v: Seq<(String, Destination)>, k: Seq<char>, r: Lookup<'a>) -> bool {
    match r {
        Lookup::Named(d) => exists|i: int| 0 <= i < v.len() && #[trigger] v[i].0@ == k && *d == v[i].1,
        Lookup::Dangling(s) => s@ == k && forall|i: int| 0 <= i < v.len() ==> #[trigger] v[i].0@ != k,
        _ => false,
    }
}

/// What looking `k` up among `v` answers, by byte string; a dangling key is shown as text,
/// through [`crate::text::utf8_lossy`].
pub open spec fn bytes_lookup<'a>(v: Seq<(Vec<u8>, Destination)>, k: Seq<u8>, r: Lookup<'a>) -> bool {
    match r {
        Lookup::Named(d) => exists|i: int| 0 <= i < v.len() && #[trigger] v[i].0@ == k && *d == v[i].1,
        Lookup::Dangling(s) => s@ == crate::text::utf8_lossy(k) && forall|i: int| 0 <= i < v.len() ==> #[trigger] v[i].0@ != k,
        _ => false,
    }
}

impl NamedDestinations {
    /// Collects both forms from a catalogue: the `/Dests` dictionary when it is one, and
    /// every leaf of the `/Names /Dests` tree.
    pub fn collect(arena: &Arena, catalog: &Dict) -> (r: Self)
        ensures
            represents(r.by_name@, catalog_dests(*arena, *catalog).0),
            represents_bytes(r.by_string@, leaves_read(*arena, catalog_leaves(*arena, *catalog)).0),
            r.unreadable == crate::actions::capped(
                (catalog_dests(*arena, *catalog).1 + leaves_read(*arena, catalog_leaves(*arena, *catalog)).1) as int,
            ),
    {
        let mut by_name: Vec<(String, Destination)> = Vec::new();
        let mut unreadable: usize = 0;
        if let Some(entry) = catalog.get("Dests") {
            if let Ok(dests) = DestsDictionary::from_pdf_object(entry, arena) {
                unreadable = dests.unreadable;
                by_name = dests.entries;
            }
        }
        let mut leaves: Vec<(Vec<u8>, &Object)> = Vec::new();
        let names_found: Option<&Dict> = match catalog.get("Names") {
            Some(n) => arena.dict_of(n),
            None => None,
        };
        if let Some(names) = names_found {
            if let Some(root) = names.get("Dests") {
                walk_name_tree(arena, root, &mut leaves, 0);
            }
        }
        assert(leaf_views(leaves@) =~= catalog_leaves(*arena, *catalog));
        let ghost all = leaf_views(leaves@);
        let ghost base = catalog_dests(*arena, *catalog).1;
        assert(unreadable == base);
        let mut by_string: Vec<(Vec<u8>, Destination)> = Vec::new();
        let mut j: usize = 0;
        assert(all.take(0) =~= Seq::<(Seq<u8>, Object)>::empty());
        while j < leaves.len()
            invariant
                j <= leaves@.len(),
                all == leaf_views(leaves@),
                represents_bytes(by_string@, leaves_read(*arena, all.take(j as int)).0),
                unreadable == crate::actions::capped((base + leaves_read(*arena, all.take(j as int)).1) as int),
            decreases leaves@.len() - j,
        {
            assert(all.take(j + 1).drop_last() =~= all.take(j as int));
            let ghost m = leaves_read(*arena, all.take(j as int)).0;
            let key = &leaves[j].0;
            match Destination::read(leaves[j].1, arena) {
                Some(d) => {
                    let mut i: usize = 0;
                    while i < by_string.len() && !bytes_eq(by_string[i].0.as_slice(), key.as_slice())
                        invariant
                            i <= by_string@.len(),
                            forall|x: int| 0 <= x < i ==> #[trigger] by_string@[x].0@ != key@,
                        decreases by_string@.len() - i,
                    {
                        i = i + 1;
                    }
                    let ghost before = by_string@;
                    let ghost m2 = m.insert(key@, destination_view(d));
                    if i < by_string.len() {
                        by_string.set(i, (crate::object::copy_byte_list(key), d));
                        proof {
                            assert forall|i2: int| 0 <= i2 < by_string@.len() implies m2.contains_key(
                                #[trigger] by_string@[i2].0@,
                            ) && m2[by_string@[i2].0@] == destination_view(by_string@[i2].1) by {
                                if i2 != i {
                                    assert(by_string@[i2] == before[i2]);
                                }
                            }
                            assert forall|k: Seq<u8>| #[trigger] m2.contains_key(k) implies exists|x: int|
                                0 <= x < by_string@.len() && by_string@[x].0@ == k by {
                                if k != key@ {
                                    let x = choose|x: int| 0 <= x < before.len() && before[x].0@ == k;
                                    assert(by_string@[x] == before[x]);
                                } else {
                                    assert(by_string@[i as int].0@ == k);
                                }
                            }
                            assert forall|a: int, b: int| 0 <= a < b < by_string@.len() implies #[trigger] by_string@[a].0@
                                != #[trigger] by_string@[b].0@ by {
                                if a != i {
                                    assert(by_string@[a] == before[a]);
                                }
                                if b != i {
                                    assert(by_string@[b] == before[b]);
                                }
                            }
                        }
                    } else {
                        by_string.push((crate::object::copy_byte_list(key), d));
                        proof {
                            assert forall|i2: int| 0 <= i2 < by_string@.len() implies m2.contains_key(
                                #[trigger] by_string@[i2].0@,
                            ) && m2[by_string@[i2].0@] == destination_view(by_string@[i2].1) by {
                                if i2 < before.len() {
                                    assert(by_string@[i2] == before[i2]);
                                }
                            }
                            assert forall|k: Seq<u8>| #[trigger] m2.contains_key(k) implies exists|x: int|
                                0 <= x < by_string@.len() && by_string@[x].0@ == k by {
                                if k != key@ {
                                    let x = choose|x: int| 0 <= x < before.len() && before[x].0@ == k;
                                    assert(by_string@[x] == before[x]);
                                } else {
                                    assert(by_string@[before.len() as int].0@ == k);
                                }
                            }
                            assert forall|a: int, b: int| 0 <= a < b < by_string@.len() implies #[trigger] by_string@[a].0@
                                != #[trigger] by_string@[b].0@ by {
                                assert(by_string@[a] == before[a]);
                                if b < before.len() {
                                    assert(by_string@[b] == before[b]);
                                }
                            }
                        }
                    }
                },
                None => {
                    unreadable = unreadable.saturating_add(1);
                },
            }
            j = j + 1;
        }
        assert(all.take(leaves@.len() as int) =~= all);
        NamedDestinations { by_name, by_string, unreadable }
    }

    /// How many destinations were read, across both forms.
    pub fn len(&self) -> (n: usize)
        requires
            self.by_name@.len() + self.by_string@.len() <= usize::MAX,
        ensures
            n == self.by_name@.len() + self.by_string@.len(),
    {
        self.by_name.len() + self.by_string.len()
    }

    /// Whether the document declares no named destination at all.
    pub fn is_empty(&self) -> (r: bool)
        ensures
            r == (self.by_name@.len() == 0 && self.by_string@.len() == 0),
    {
        self.by_name.len() == 0 && self.by_string.len() == 0
    }

    /// Resolves an annotation's or action's `/Dest`. An array is a destination written
    /// in place and needs no lookup; a name and a byte string are each looked up in their
    /// own form's list.
    pub fn resolve<'a>(&'a self, dest: &Object, arena: &Arena) -> (r: Lookup<'a>)
        ensures
            match arena.spec_resolve(*dest) {
                Object::Array(_) | Object::Dictionary(_) => match spec_destination(*arena, *dest) {
                    Some(d) => r matches Lookup::Inline(x) && destination_view(x) == d,
                    None => r is Unreadable,
                },
                Object::Name(n) => name_lookup(self.by_name@, n@, r),
                Object::String(b) => bytes_lookup(self.by_string@, b@, r),
                Object::Hex(b) => bytes_lookup(self.by_string@, b@, r),
                Object::Text(t) => bytes_lookup(self.by_string@, vstd::utf8::encode_utf8(t@), r),
                _ => r is Unreadable,
            },
    {
        match arena.resolve(dest) {
            Object::Array(_) | Object::Dictionary(_) => match Destination::read(dest, arena) {
                Some(d) => Lookup::Inline(d),
                None => Lookup::Unreadable,
            },
            Object::Name(n) => {
                let mut i: usize = 0;
                while i < self.by_name.len()
                    invariant
                        i <= self.by_name@.len(),
                        arena.spec_resolve(*dest) == Object::Name(*n),
                        forall|x: int| 0 <= x < i ==> #[trigger] self.by_name@[x].0@ != n@,
                    decreases self.by_name@.len() - i,
                {
                    if crate::object::str_eq(self.by_name[i].0.as_str(), n.as_str()) {
                        assert(self.by_name@[i as int].0@ == n@);
                        return Lookup::Named(&self.by_name[i].1);
                    }
                    i = i + 1;
                }
                Lookup::Dangling(text(n.as_str()))
            },
            Object::String(b) => self.by_bytes(b.as_slice()),
            Object::Hex(b) => self.by_bytes(b.as_slice()),
            Object::Text(t) => self.by_bytes(t.as_str().as_bytes()),
            _ => Lookup::Unreadable,
        }
    }

    /// Looks a byte string up among the tree's destinations.
    fn by_bytes<'a>(&'a self, key: &[u8]) -> (r: Lookup<'a>)
        ensures
            bytes_lookup(self.by_string@, key@, r),
    {
        let mut i: usize = 0;
        while i < self.by_string.len()
            invariant
                i <= self.by_string@.len(),
                forall|x: int| 0 <= x < i ==> #[trigger] self.by_string@[x].0@ != key@,
            decreases self.by_string@.len() - i,
        {
            if bytes_eq(self.by_string[i].0.as_slice(), key) {
                assert(self.by_string@[i as int].0@ == key@);
                return Lookup::Named(&self.by_string[i].1);
            }
            i = i + 1;
        }
        Lookup::Dangling(crate::text::lossy_text(key))
    }
}

/// A name resolves to the destination the `/Dests` dictionary declares under it, and
/// dangles exactly when the dictionary declares nothing under it.
pub proof fn law_name_answers_from_dictionary<'a>(
    v: Seq<(String, Destination)>,
    m: Map<Seq<char>, DestinationView>,
    k: Seq<char>,
    r: Lookup<'a>,
)
    requires
        represents(v, m),
        name_lookup(v, k, r),
    ensures
        m.contains_key(k) <==> r is Named,
        r is Dangling <==> !m.contains_key(k),
        r matches Lookup::Named(d) ==> destination_view(*d) == m[k],
{
    if m.contains_key(k) {
        let i = choose|i: int| 0 <= i < v.len() && v[i].0@ == k;
        assert(v[i].0@ == k);
    }
}

/// A byte string resolves to the destination the `/Names /Dests` tree last declares
/// under it, and dangles exactly when the tree declares nothing under it.
pub proof fn law_string_answers_from_tree<'a>(
    v: Seq<(Vec<u8>, Destination)>,
    m: Map<Seq<u8>, DestinationView>,
    k: Seq<u8>,
    r: Lookup<'a>,
)
    requires
        represents_bytes(v, m),
        bytes_lookup(v, k, r),
    ensures
        m.contains_key(k) <==> r is Named,
        r is Dangling <==> !m.contains_key(k),
        r matches Lookup::Named(d) ==> destination_view(*d) == m[k],
{
    if m.contains_key(k) {
        let i = choose|i: int| 0 <= i < v.len() && v[i].0@ == k;
        assert(v[i].0@ == k);
    }
}

} // verus!
