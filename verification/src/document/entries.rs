//! What the catalogue's entries hold (7.7.2, Table 29).
//!
//! A reader for each entry the catalogue commonly carries. Each reads the scalars of its
//! table and names the sub-objects that hang off it: `/AcroForm` reads `/NeedAppearances`,
//! `/SigFlags`, `/DA` and `/Q`, and leaves `/DR` — a resource dictionary, a subsystem —
//! as an object a caller can reach. Saying an entry is read is a statement about that
//! entry, not a claim that everything beneath it is understood.
//!
//! Every reader is strict about the entries it reads: one that is present and not of
//! the kind its table gives fails the reader, which is what lets [`entry`] report a bad
//! entry without refusing the rest of the catalogue.

use crate::error::{concat, decimal, decimal_text, text, PdfError, PdfResult};
use crate::object::{opt_ref, Arena, Dict, Object};
use crate::text::{chars_of, string_of, utf8_lossy};
use vstd::prelude::*;

verus! {

/// The text a string object holds: a text string as it is, a byte string as UTF-8.
pub open spec fn text_of(arena: Arena, o: Object) -> Option<Seq<char>> {
    match arena.spec_resolve(o) {
        Object::String(b) => Some(utf8_lossy(b@)),
        Object::Hex(b) => Some(utf8_lossy(b@)),
        Object::Text(t) => Some(t@),
        _ => None,
    }
}

/// The object number a value names when it is an indirect reference.
pub open spec fn reference_of(o: Object) -> Option<u32> {
    match o {
        Object::Reference(n) => Some(n),
        _ => None,
    }
}

/// How an optional entry reads when it must be of one kind: `Some(None)` when it is
/// absent, `Some(Some(v))` when it is of that kind, and `None` when it is present and is
/// not.
pub open spec fn field<V>(found: Option<Object>, read: spec_fn(Object) -> Option<V>) -> Option<Option<V>> {
    match found {
        None => Some(None),
        Some(o) => match read(o) {
            Some(v) => Some(Some(v)),
            None => None,
        },
    }
}

/// `key` of `d` as an optional boolean.
pub open spec fn bool_field(arena: Arena, d: Dict, key: Seq<char>) -> Option<Option<bool>> {
    field(d.spec_get(key), |o: Object| arena.spec_bool_of(o))
}

/// `key` of `d` as an optional integer.
pub open spec fn int_field(arena: Arena, d: Dict, key: Seq<char>) -> Option<Option<i64>> {
    field(d.spec_get(key), |o: Object| arena.spec_integer_of(o))
}

/// `key` of `d` as an optional name.
pub open spec fn name_field(arena: Arena, d: Dict, key: Seq<char>) -> Option<Option<Seq<char>>> {
    field(d.spec_get(key), |o: Object| arena.spec_name_of(o))
}

/// `key` of `d` as optional text.
pub open spec fn text_field(arena: Arena, d: Dict, key: Seq<char>) -> Option<Option<Seq<char>>> {
    field(d.spec_get(key), |o: Object| text_of(arena, o))
}

/// `key` of `d` as an optional array.
pub open spec fn array_field(arena: Arena, d: Dict, key: Seq<char>) -> Option<Option<Seq<Object>>> {
    field(d.spec_get(key), |o: Object| arena.spec_array_of(o))
}

/// `key` of `d` as an optional indirect reference.
pub open spec fn ref_field(d: Dict, key: Seq<char>) -> Option<Option<u32>> {
    field(d.spec_get(key), |o: Object| reference_of(o))
}

/// An optional string, seen as its characters.
pub open spec fn opt_view(o: Option<String>) -> Option<Seq<char>> {
    match o {
        Some(s) => Some(s@),
        None => None,
    }
}

/// An optional array, seen as its elements.
pub open spec fn opt_seq<'a>(o: Option<&'a Vec<Object>>) -> Option<Seq<Object>> {
    match o {
        Some(v) => Some(v@),
        None => None,
    }
}

/// What a reader says of an entry that is not of the kind its table gives.
fn wrong(key: &str, what: &str) -> (e: PdfError)
    ensures
        e matches PdfError::Other(m) && m@ == seq!['/'] + key@ + " is not "@ + what@,
{
    let m = concat(concat(concat(text("/"), key), " is not "), what);
    proof {
        reveal_strlit("/");
    }
    PdfError::Other(m)
}

/// What a reader says of a value that is not a dictionary.
fn not_a_dictionary(what: &str) -> (e: PdfError)
    ensures
        e matches PdfError::Other(m) && m@ == what@ + " is not a dictionary"@,
{
    PdfError::Other(concat(text(what), " is not a dictionary"))
}

/// `key` of `d` as an optional boolean, or why not.
pub(crate) fn read_bool(arena: &Arena, d: &Dict, key: &str) -> (r: PdfResult<Option<bool>>)
    ensures
        match r {
            Ok(v) => bool_field(*arena, *d, key@) == Some(v),
            Err(_) => bool_field(*arena, *d, key@) is None,
        },
{
    match d.get(key) {
        None => Ok(None),
        Some(o) => match arena.bool_of(o) {
            Some(b) => Ok(Some(b)),
            None => Err(wrong(key, "a boolean")),
        },
    }
}

/// `key` of `d` as an optional integer, or why not.
pub(crate) fn read_int(arena: &Arena, d: &Dict, key: &str) -> (r: PdfResult<Option<i64>>)
    ensures
        match r {
            Ok(v) => int_field(*arena, *d, key@) == Some(v),
            Err(_) => int_field(*arena, *d, key@) is None,
        },
{
    match d.get(key) {
        None => Ok(None),
        Some(o) => match arena.integer_of(o) {
            Some(b) => Ok(Some(b)),
            None => Err(wrong(key, "an integer")),
        },
    }
}

/// `key` of `d` as an optional name, or why not.
pub(crate) fn read_name(arena: &Arena, d: &Dict, key: &str) -> (r: PdfResult<Option<String>>)
    ensures
        match r {
            Ok(v) => name_field(*arena, *d, key@) == Some(opt_view(v)),
            Err(_) => name_field(*arena, *d, key@) is None,
        },
{
    match d.get(key) {
        None => Ok(None),
        Some(o) => match arena.name_of(o) {
            Some(n) => Ok(Some(text(n.as_str()))),
            None => Err(wrong(key, "a name")),
        },
    }
}

/// The text a string object holds.
pub fn text_value(arena: &Arena, o: &Object) -> (r: Option<String>)
    ensures
        opt_view(r) == text_of(*arena, *o),
{
    match arena.resolve(o) {
        Object::String(b) => Some(crate::text::lossy_text(b.as_slice())),
        Object::Hex(b) => Some(crate::text::lossy_text(b.as_slice())),
        Object::Text(t) => Some(text(t.as_str())),
        _ => None,
    }
}

/// `key` of `d` as optional text, or why not.
pub(crate) fn read_text(arena: &Arena, d: &Dict, key: &str) -> (r: PdfResult<Option<String>>)
    ensures
        match r {
            Ok(v) => text_field(*arena, *d, key@) == Some(opt_view(v)),
            Err(_) => text_field(*arena, *d, key@) is None,
        },
{
    match d.get(key) {
        None => Ok(None),
        Some(o) => match text_value(arena, o) {
            Some(t) => Ok(Some(t)),
            None => Err(wrong(key, "a string")),
        },
    }
}

/// `key` of `d` as an optional array, or why not.
pub(crate) fn read_array<'a>(arena: &'a Arena, d: &'a Dict, key: &str) -> (r: PdfResult<Option<&'a Vec<Object>>>)
    ensures
        match r {
            Ok(v) => array_field(*arena, *d, key@) == Some(opt_seq(v)),
            Err(_) => array_field(*arena, *d, key@) is None,
        },
{
    match d.get(key) {
        None => Ok(None),
        Some(o) => match arena.array_of(o) {
            Some(a) => Ok(Some(a)),
            None => Err(wrong(key, "an array")),
        },
    }
}

/// `key` of `d` as an optional indirect reference, or why not.
pub(crate) fn read_ref(d: &Dict, key: &str) -> (r: PdfResult<Option<u32>>)
    ensures
        match r {
            Ok(v) => ref_field(*d, key@) == Some(v),
            Err(_) => ref_field(*d, key@) is None,
        },
{
    match d.get(key) {
        None => Ok(None),
        Some(Object::Reference(n)) => Ok(Some(*n)),
        Some(_) => Err(wrong(key, "an indirect reference")),
    }
}

/// A value that can be read from an object of a document.
pub trait FromPdfObject<'a>: Sized {
    /// Whether `obj` reads as this type.
    spec fn readable(arena: Arena, obj: Object) -> bool;

    /// Whether `v` is what `obj` reads as.
    spec fn read_as(arena: Arena, obj: Object, v: Self) -> bool;

    /// Reads `obj`, whose references resolve in `arena`.
    fn from_pdf_object(obj: &'a Object, arena: &'a Arena) -> (r: PdfResult<Self>)
        ensures
            (r is Ok) == Self::readable(*arena, *obj),
            r matches Ok(v) ==> Self::read_as(*arena, *obj, v),
    ;
}

/// Whether an optional entry reads as `T`: absent, or present and readable.
pub open spec fn entry_readable<'a, T: FromPdfObject<'a>>(arena: Arena, found: Option<Object>) -> bool {
    match found {
        None => true,
        Some(o) => T::readable(arena, o),
    }
}

/// Whether `v` is what an optional entry reads as.
pub open spec fn entry_reads<'a, T: FromPdfObject<'a>>(arena: Arena, found: Option<Object>, v: Option<T>) -> bool {
    match found {
        None => v is None,
        Some(o) => v matches Some(x) && T::read_as(arena, o, x),
    }
}

/// `key` of `d` read as an optional `T`, or why not.
pub(crate) fn read_with<'a, T: FromPdfObject<'a>>(arena: &'a Arena, d: &'a Dict, key: &str) -> (r: PdfResult<Option<T>>)
    ensures
        (r is Ok) == entry_readable::<T>(*arena, d.spec_get(key@)),
        r matches Ok(v) ==> entry_reads::<T>(*arena, d.spec_get(key@), v),
{
    match d.get(key) {
        None => Ok(None),
        Some(o) => match T::from_pdf_object(o, arena) {
            Ok(v) => Ok(Some(v)),
            Err(e) => Err(e),
        },
    }
}

/// One catalogue entry, read without requiring the rest of the catalogue to be legible:
/// `Ok(None)` when the catalogue does not carry it.
///
/// Fails when the catalogue is not a dictionary, or when the entry is present and will
/// not read as `T`.
pub fn entry<'a, T: FromPdfObject<'a>>(arena: &'a Arena, catalog: &'a Object, key: &str) -> (r: PdfResult<Option<T>>)
    ensures
        arena.spec_dict_of(*catalog) is None ==> (r matches Err(PdfError::Other(m)) && m@
            == "the catalogue is not a dictionary (7.7.2)"@),
        (r is Ok) == (arena.spec_dict_of(*catalog) matches Some(d) && entry_readable::<T>(*arena, d.spec_get(key@))),
        r matches Ok(v) ==> entry_reads::<T>(*arena, arena.spec_dict_of(*catalog).unwrap().spec_get(key@), v),
{
    match arena.dict_of(catalog) {
        None => Err(PdfError::Other(text("the catalogue is not a dictionary (7.7.2)"))),
        Some(d) => read_with(arena, d, key),
    }
}

/// `/MarkInfo` (14.7.1, Table 321): whether the document is tagged.
///
/// Three booleans, and every one is optional: a document that does not write
/// `/Suspects` has said nothing about suspect content, which is not the same as writing
/// `false`.
pub struct MarkInfo {
    /// `/Marked`: the document conforms to Tagged PDF.
    pub marked: Option<bool>,
    /// `/UserProperties`: some structure elements carry user properties (14.6.3).
    pub user_properties: Option<bool>,
    /// `/Suspects`: the tag structure may not be reliable.
    pub suspects: Option<bool>,
}

impl MarkInfo {
    /// The clause this reader reads.
    pub fn iso_clause() -> (r: &'static str)
        ensures
            r@ == "14.7.1"@,
    {
        "14.7.1"
    }
}

impl<'a> FromPdfObject<'a> for MarkInfo {
    open spec fn readable(arena: Arena, obj: Object) -> bool {
        arena.spec_dict_of(obj) matches Some(d) && bool_field(arena, d, "Marked"@) is Some
            && bool_field(arena, d, "UserProperties"@) is Some && bool_field(arena, d, "Suspects"@) is Some
    }

    open spec fn read_as(arena: Arena, obj: Object, v: Self) -> bool {
        arena.spec_dict_of(obj) matches Some(d) && bool_field(arena, d, "Marked"@) == Some(v.marked)
            && bool_field(arena, d, "UserProperties"@) == Some(v.user_properties)
            && bool_field(arena, d, "Suspects"@) == Some(v.suspects)
    }

    fn from_pdf_object(obj: &'a Object, arena: &'a Arena) -> (r: PdfResult<Self>) {
        let d = match arena.dict_of(obj) {
            Some(d) => d,
            None => return Err(not_a_dictionary("/MarkInfo")),
        };
        let marked = read_bool(arena, d, "Marked")?;
        let user_properties = read_bool(arena, d, "UserProperties")?;
        let suspects = read_bool(arena, d, "Suspects")?;
        Ok(MarkInfo { marked, user_properties, suspects })
    }
}


/// Whether every character of `t` is a decimal digit.
pub open spec fn all_digits(t: Seq<char>) -> bool {
    forall|i: int| 0 <= i < t.len() ==> '0' <= #[trigger] t[i] <= '9'
}

/// The number the decimal digits `t` write.
pub open spec fn digits_value(t: Seq<char>) -> nat
    decreases t.len(),
{
    if t.len() == 0 {
        0
    } else {
        digits_value(t.drop_last()) * 10 + ((t.last() as int - 48) as nat)
    }
}

/// `t` read as `u8`'s `FromStr` reads it: an optional `+`, then at least one decimal
/// digit, the value at most 255.
pub open spec fn parse_u8(t: Seq<char>) -> Option<u8> {
    let body = if t.len() > 0 && t[0] == '+' { t.drop_first() } else { t };
    if body.len() > 0 && all_digits(body) && digits_value(body) <= 255 {
        Some(digits_value(body) as u8)
    } else {
        None
    }
}

/// Where the first `.` of `t` stands, when it has one.
pub open spec fn first_dot(t: Seq<char>) -> Option<int> {
    if exists|i: int| 0 <= i < t.len() && t[i] == '.' {
        Some(choose|i: int| 0 <= i < t.len() && t[i] == '.' && forall|j: int| 0 <= j < i ==> t[j] != '.')
    } else {
        None
    }
}

/// The two numbers of a version written `M.m`, split at the first `.`.
pub open spec fn spec_version(t: Seq<char>) -> Option<(u8, u8)> {
    match first_dot(t) {
        Some(i) => match (parse_u8(t.take(i)), parse_u8(t.skip(i + 1))) {
            (Some(a), Some(b)) => Some((a, b)),
            _ => None,
        },
        None => None,
    }
}

/// Digits only grow their value as more are written.
proof fn lemma_digits_grow(t: Seq<char>, k: int)
    requires
        0 <= k <= t.len(),
        all_digits(t),
    ensures
        digits_value(t.take(k)) <= digits_value(t),
    decreases t.len() - k,
{
    if k < t.len() {
        lemma_digits_grow(t, k + 1);
        assert(t.take(k + 1).drop_last() =~= t.take(k));
    } else {
        assert(t.take(k) =~= t);
    }
}

/// `cs[from..to]` read as a `u8`.
fn parse_u8_at(cs: &Vec<char>, from: usize, to: usize) -> (r: Option<u8>)
    requires
        from <= to <= cs@.len(),
    ensures
        r == parse_u8(cs@.subrange(from as int, to as int)),
{
    let ghost t = cs@.subrange(from as int, to as int);
    let mut i = from;
    if i < to && cs[i] == '+' {
        i = i + 1;
    }
    let ghost body = if t.len() > 0 && t[0] == '+' { t.drop_first() } else { t };
    assert(body =~= cs@.subrange(i as int, to as int));
    if i == to {
        return None;
    }
    let start = i;
    let mut v: u32 = 0;
    while i < to
        invariant
            from <= start <= i <= to <= cs@.len(),
            body =~= cs@.subrange(start as int, to as int),
            t == cs@.subrange(from as int, to as int),
            body == (if t.len() > 0 && t[0] == '+' { t.drop_first() } else { t }),
            v <= 255,
            all_digits(cs@.subrange(start as int, i as int)),
            v == digits_value(cs@.subrange(start as int, i as int)),
        decreases to - i,
    {
        let c = cs[i];
        if c < '0' || c > '9' {
            assert(body[i - start] == c);
            assert(!('0' <= body[i - start] <= '9'));
            return None;
        }
        let n = c as u32;
        assert(n as int == c as int);
        let ghost pre = cs@.subrange(start as int, i as int);
        let ghost next = cs@.subrange(start as int, i + 1);
        assert(next.drop_last() =~= pre);
        assert(next.last() == c);
        assert forall|k: int| 0 <= k < next.len() implies '0' <= #[trigger] next[k] <= '9' by {
            if k < pre.len() {
                assert(next[k] == pre[k]);
            }
        }
        v = v * 10 + (n - 48);
        assert(v == digits_value(next));
        if v > 255 {
            proof {
                if all_digits(body) {
                    assert(body.take(i + 1 - start) =~= cs@.subrange(start as int, i + 1));
                    lemma_digits_grow(body, i + 1 - start);
                }
            }
            return None;
        }
        i = i + 1;
    }
    Some(v as u8)
}

/// `/Version` (7.7.2): a version that overrides the header's.
///
/// Parsed into its two numbers rather than kept as a name, because comparing `"1.10"`
/// with `"1.9"` as text gets the answer wrong. A name that is not `M.m` is kept
/// verbatim rather than refused: refusing a catalogue entry would refuse the catalogue.
#[derive(Debug, PartialEq, Eq)]
pub enum DeclaredVersion {
    /// A version of the form the clause defines: major and minor.
    Numbered {
        /// The major version.
        major: u8,
        /// The minor version.
        minor: u8,
    },
    /// A name that is not `M.m`, kept verbatim.
    Other(String),
}

impl DeclaredVersion {
    /// The two numbers, when the entry had that form.
    pub fn numbers(&self) -> (r: Option<(u8, u8)>)
        ensures
            r == match self {
                DeclaredVersion::Numbered { major, minor } => Some((*major, *minor)),
                DeclaredVersion::Other(_) => None,
            },
    {
        match self {
            DeclaredVersion::Numbered { major, minor } => Some((*major, *minor)),
            DeclaredVersion::Other(_) => None,
        }
    }
}

impl<'a> FromPdfObject<'a> for DeclaredVersion {
    open spec fn readable(arena: Arena, obj: Object) -> bool {
        arena.spec_name_of(obj) is Some
    }

    open spec fn read_as(arena: Arena, obj: Object, v: Self) -> bool {
        arena.spec_name_of(obj) matches Some(n) && match spec_version(n) {
            Some((a, b)) => v == DeclaredVersion::Numbered { major: a, minor: b },
            None => v matches DeclaredVersion::Other(s) && s@ == n,
        }
    }

    fn from_pdf_object(obj: &'a Object, arena: &'a Arena) -> (r: PdfResult<Self>) {
        let name = match arena.name_of(obj) {
            Some(n) => n,
            None => return Err(PdfError::Other(text("/Version is not a name"))),
        };
        let cs = chars_of(name.as_str());
        let mut i: usize = 0;
        while i < cs.len() && cs[i] != '.'
            invariant
                i <= cs@.len(),
                forall|j: int| 0 <= j < i ==> cs@[j] != '.',
            decreases cs@.len() - i,
        {
            i = i + 1;
        }
        let ghost t = cs@;
        if i == cs.len() {
            assert(first_dot(t) is None);
            return Ok(DeclaredVersion::Other(text(name.as_str())));
        }
        proof {
            let k = choose|k: int| 0 <= k < t.len() && t[k] == '.' && forall|j: int| 0 <= j < k ==> t[j] != '.';
            assert(k == i) by {
                if k < i {
                    assert(t[k] != '.');
                } else if k > i {
                    assert(t[i as int] != '.');
                }
            }
            assert(t.take(i as int) =~= cs@.subrange(0, i as int));
            assert(t.skip(i + 1) =~= cs@.subrange(i + 1, cs@.len() as int));
        }
        let major = parse_u8_at(&cs, 0, i);
        let minor = parse_u8_at(&cs, i + 1, cs.len());
        match (major, minor) {
            (Some(a), Some(b)) => Ok(DeclaredVersion::Numbered { major: a, minor: b }),
            _ => Ok(DeclaredVersion::Other(text(name.as_str()))),
        }
    }
}

/// `/SigFlags` (Table 225), as flags rather than as an integer.
#[derive(Clone, Copy, Debug, PartialEq, Eq, Structural)]
pub struct SignatureFlags {
    /// Bit 1: the document has at least one signature field.
    pub signatures_exist: bool,
    /// Bit 2: the file must be saved as an incremental update, because rewriting it
    /// would invalidate a signature.
    pub append_only: bool,
}

impl<'a> FromPdfObject<'a> for SignatureFlags {
    open spec fn readable(arena: Arena, obj: Object) -> bool {
        arena.spec_integer_of(obj) is Some
    }

    open spec fn read_as(arena: Arena, obj: Object, v: Self) -> bool {
        arena.spec_integer_of(obj) matches Some(bits) && v.signatures_exist == (bits & 1 != 0)
            && v.append_only == (bits & 2 != 0)
    }

    fn from_pdf_object(obj: &'a Object, arena: &'a Arena) -> (r: PdfResult<Self>) {
        match arena.integer_of(obj) {
            Some(bits) => Ok(SignatureFlags { signatures_exist: bits & 1 != 0, append_only: bits & 2 != 0 }),
            None => Err(PdfError::Other(text("/SigFlags is a bit field"))),
        }
    }
}


/// `/AcroForm` (12.7.2, Table 224): the interactive form's own settings, which decide
/// how its fields are drawn and whether the file claims to be signed.
pub struct AcroForm<'a> {
    /// `/Fields`: the root fields. Named, not walked here.
    pub fields: Option<&'a Vec<Object>>,
    /// `/NeedAppearances`: the viewer must build appearance streams from the field
    /// values.
    pub need_appearances: Option<bool>,
    /// `/SigFlags`: whether a signature field exists, and whether appending a change is
    /// the only safe way to save (Table 225).
    pub signature_flags: Option<SignatureFlags>,
    /// `/CO`: the order field calculations run in. Named, not read.
    pub calculation_order: Option<&'a Vec<Object>>,
    /// `/DR`: the resources a field's `/DA` is written against. Reachable, not read.
    pub default_resources: Option<&'a Object>,
    /// `/DA`: the default appearance string.
    pub default_appearance: Option<String>,
    /// `/Q`: the quadding — 0 left, 1 centred, 2 right.
    pub quadding: Option<i64>,
    /// `/XFA`: the XML forms architecture, deprecated in 2.0. Reachable, not read.
    pub xfa: Option<&'a Object>,
}

impl<'a> AcroForm<'a> {
    /// The clause this reader reads.
    pub fn iso_clause() -> (r: &'static str)
        ensures
            r@ == "12.7.2"@,
    {
        "12.7.2"
    }
}

impl<'a> FromPdfObject<'a> for AcroForm<'a> {
    open spec fn readable(arena: Arena, obj: Object) -> bool {
        arena.spec_dict_of(obj) matches Some(d) && array_field(arena, d, "Fields"@) is Some
            && bool_field(arena, d, "NeedAppearances"@) is Some
            && entry_readable::<SignatureFlags>(arena, d.spec_get("SigFlags"@))
            && array_field(arena, d, "CO"@) is Some && text_field(arena, d, "DA"@) is Some
            && int_field(arena, d, "Q"@) is Some
    }

    open spec fn read_as(arena: Arena, obj: Object, v: Self) -> bool {
        arena.spec_dict_of(obj) matches Some(d) && array_field(arena, d, "Fields"@) == Some(opt_seq(v.fields))
            && bool_field(arena, d, "NeedAppearances"@) == Some(v.need_appearances)
            && entry_reads::<SignatureFlags>(arena, d.spec_get("SigFlags"@), v.signature_flags)
            && array_field(arena, d, "CO"@) == Some(opt_seq(v.calculation_order))
            && d.spec_get("DR"@) == opt_ref(v.default_resources)
            && text_field(arena, d, "DA"@) == Some(opt_view(v.default_appearance))
            && int_field(arena, d, "Q"@) == Some(v.quadding)
            && d.spec_get("XFA"@) == opt_ref(v.xfa)
    }

    fn from_pdf_object(obj: &'a Object, arena: &'a Arena) -> (r: PdfResult<Self>) {
        let d = match arena.dict_of(obj) {
            Some(d) => d,
            None => return Err(not_a_dictionary("/AcroForm")),
        };
        let fields = read_array(arena, d, "Fields")?;
        let need_appearances = read_bool(arena, d, "NeedAppearances")?;
        let signature_flags = read_with(arena, d, "SigFlags")?;
        let calculation_order = read_array(arena, d, "CO")?;
        let default_resources = d.get("DR");
        let default_appearance = read_text(arena, d, "DA")?;
        let quadding = read_int(arena, d, "Q")?;
        let xfa = d.get("XFA");
        Ok(AcroForm {
            fields,
            need_appearances,
            signature_flags,
            calculation_order,
            default_resources,
            default_appearance,
            quadding,
            xfa,
        })
    }
}

/// `/OutputIntents` (14.11.5, Table 401): what the file was prepared to be printed on.
/// `/S` is how a file claims a standard — `GTS_PDFA1`, `GTS_PDFX`, `ISO_PDFE1`.
pub struct OutputIntent<'a> {
    /// `/Type`, `OutputIntent` when written.
    pub kind: Option<String>,
    /// `/S`: which standard this intent is for.
    pub subtype: Option<String>,
    /// `/OutputConditionIdentifier`: the registered name of the condition, or `Custom`.
    pub condition_identifier: Option<String>,
    /// `/OutputCondition`: the condition in words.
    pub condition: Option<String>,
    /// `/RegistryName`: where the identifier is registered.
    pub registry: Option<String>,
    /// `/Info`: more about the condition.
    pub info: Option<String>,
    /// `/DestOutputProfile`: the ICC profile stream. Named, not decoded.
    pub destination_profile: Option<&'a Object>,
}

impl<'a> OutputIntent<'a> {
    /// The clause this reader reads.
    pub fn iso_clause() -> (r: &'static str)
        ensures
            r@ == "14.11.5"@,
    {
        "14.11.5"
    }
}

impl<'a> FromPdfObject<'a> for OutputIntent<'a> {
    open spec fn readable(arena: Arena, obj: Object) -> bool {
        arena.spec_dict_of(obj) matches Some(d) && name_field(arena, d, "Type"@) is Some
            && name_field(arena, d, "S"@) is Some && text_field(arena, d, "OutputConditionIdentifier"@) is Some
            && text_field(arena, d, "OutputCondition"@) is Some && text_field(arena, d, "RegistryName"@) is Some
            && text_field(arena, d, "Info"@) is Some
    }

    open spec fn read_as(arena: Arena, obj: Object, v: Self) -> bool {
        arena.spec_dict_of(obj) matches Some(d) && name_field(arena, d, "Type"@) == Some(opt_view(v.kind))
            && name_field(arena, d, "S"@) == Some(opt_view(v.subtype))
            && text_field(arena, d, "OutputConditionIdentifier"@) == Some(opt_view(v.condition_identifier))
            && text_field(arena, d, "OutputCondition"@) == Some(opt_view(v.condition))
            && text_field(arena, d, "RegistryName"@) == Some(opt_view(v.registry))
            && text_field(arena, d, "Info"@) == Some(opt_view(v.info))
            && d.spec_get("DestOutputProfile"@) == opt_ref(v.destination_profile)
    }

    fn from_pdf_object(obj: &'a Object, arena: &'a Arena) -> (r: PdfResult<Self>) {
        let d = match arena.dict_of(obj) {
            Some(d) => d,
            None => return Err(not_a_dictionary("an output intent")),
        };
        let kind = read_name(arena, d, "Type")?;
        let subtype = read_name(arena, d, "S")?;
        let condition_identifier = read_text(arena, d, "OutputConditionIdentifier")?;
        let condition = read_text(arena, d, "OutputCondition")?;
        let registry = read_text(arena, d, "RegistryName")?;
        let info = read_text(arena, d, "Info")?;
        let destination_profile = d.get("DestOutputProfile");
        Ok(OutputIntent { kind, subtype, condition_identifier, condition, registry, info, destination_profile })
    }
}

/// Whether `read` holds what the readable elements of `items` read as, in order, and
/// `unreadable` counts the others.
pub open spec fn items_read<'a, T: FromPdfObject<'a>>(arena: Arena, items: Seq<Object>, read: Seq<T>, unreadable: nat) -> bool
    decreases items.len(),
{
    if items.len() == 0 {
        read.len() == 0 && unreadable == 0
    } else if T::readable(arena, items.last()) {
        read.len() > 0 && T::read_as(arena, items.last(), read.last())
            && items_read::<T>(arena, items.drop_last(), read.drop_last(), unreadable)
    } else {
        unreadable > 0 && items_read::<T>(arena, items.drop_last(), read, (unreadable - 1) as nat)
    }
}

/// Reads an array of `T`, counting the elements that will not read rather than failing:
/// one malformed element is a defect in that element, not in the array.
fn read_items<'a, T: FromPdfObject<'a>>(arena: &'a Arena, obj: &'a Object, what: &str) -> (r: PdfResult<(Vec<T>, usize)>)
    ensures
        (r is Ok) == (arena.spec_array_of(*obj) is Some),
        arena.spec_array_of(*obj) is None ==> (r matches Err(PdfError::Other(m)) && m@ == what@ + " is not an array"@),
        r matches Ok((v, n)) ==> items_read::<T>(*arena, arena.spec_array_of(*obj).unwrap(), v@, n as nat),
{
    let items = match arena.array_of(obj) {
        Some(a) => a,
        None => return Err(PdfError::Other(concat(text(what), " is not an array"))),
    };
    let mut read: Vec<T> = Vec::new();
    let mut unreadable: usize = 0;
    let mut i: usize = 0;
    assert(items@.take(0) =~= Seq::<Object>::empty());
    while i < items.len()
        invariant
            i <= items@.len(),
            unreadable <= i,
            items_read::<T>(*arena, items@.take(i as int), read@, unreadable as nat),
        decreases items@.len() - i,
    {
        assert(items@.take(i + 1).drop_last() =~= items@.take(i as int));
        assert(items@.take(i + 1).last() == items@[i as int]);
        match T::from_pdf_object(&items[i], arena) {
            Ok(v) => {
                let ghost before = read@;
                read.push(v);
                assert(read@.drop_last() =~= before);
            },
            Err(_) => {
                unreadable = unreadable + 1;
            },
        }
        i = i + 1;
    }
    assert(items@.take(i as int) =~= items@);
    Ok((read, unreadable))
}

/// `/OutputIntents`: the array of them, with what would not read counted — an array of
/// 64 intents that silently became 63 would be the more convenient number and the less
/// true one.
pub struct OutputIntents<'a> {
    /// Each intent, in the order the array writes them.
    pub intents: Vec<OutputIntent<'a>>,
    /// Elements present in the array but not readable as an intent.
    pub unreadable: usize,
}

impl<'a> FromPdfObject<'a> for OutputIntents<'a> {
    open spec fn readable(arena: Arena, obj: Object) -> bool {
        arena.spec_array_of(obj) is Some
    }

    open spec fn read_as(arena: Arena, obj: Object, v: Self) -> bool {
        arena.spec_array_of(obj) matches Some(items) && items_read::<OutputIntent<'a>>(arena, items, v.intents@, v.unreadable as nat)
    }

    fn from_pdf_object(obj: &'a Object, arena: &'a Arena) -> (r: PdfResult<Self>) {
        let (intents, unreadable) = read_items(arena, obj, "/OutputIntents")?;
        Ok(OutputIntents { intents, unreadable })
    }
}

/// `/Threads` (12.4.3, Table 158): an article, as a sequence of beads across pages.
pub struct ArticleThread<'a> {
    /// `/Type`, `Thread` when written.
    pub kind: Option<String>,
    /// `/F`: the first bead, by object number. The beads form a ring, so this is the
    /// whole thread. Named, not walked.
    pub first_bead: Option<u32>,
    /// `/I`: the thread's own information dictionary.
    pub information: Option<&'a Object>,
}

impl<'a> FromPdfObject<'a> for ArticleThread<'a> {
    open spec fn readable(arena: Arena, obj: Object) -> bool {
        arena.spec_dict_of(obj) matches Some(d) && name_field(arena, d, "Type"@) is Some
            && ref_field(d, "F"@) is Some
    }

    open spec fn read_as(arena: Arena, obj: Object, v: Self) -> bool {
        arena.spec_dict_of(obj) matches Some(d) && name_field(arena, d, "Type"@) == Some(opt_view(v.kind))
            && ref_field(d, "F"@) == Some(v.first_bead) && d.spec_get("I"@) == opt_ref(v.information)
    }

    fn from_pdf_object(obj: &'a Object, arena: &'a Arena) -> (r: PdfResult<Self>) {
        let d = match arena.dict_of(obj) {
            Some(d) => d,
            None => return Err(not_a_dictionary("a thread")),
        };
        let kind = read_name(arena, d, "Type")?;
        let first_bead = read_ref(d, "F")?;
        let information = d.get("I");
        Ok(ArticleThread { kind, first_bead, information })
    }
}

/// `/Threads`: the articles, with what would not read counted.
pub struct ArticleThreads<'a> {
    /// Each thread, in the order the array writes them.
    pub threads: Vec<ArticleThread<'a>>,
    /// Elements present in the array but not readable as a thread.
    pub unreadable: usize,
}

impl<'a> FromPdfObject<'a> for ArticleThreads<'a> {
    open spec fn readable(arena: Arena, obj: Object) -> bool {
        arena.spec_array_of(obj) is Some
    }

    open spec fn read_as(arena: Arena, obj: Object, v: Self) -> bool {
        arena.spec_array_of(obj) matches Some(items) && items_read::<ArticleThread<'a>>(arena, items, v.threads@, v.unreadable as nat)
    }

    fn from_pdf_object(obj: &'a Object, arena: &'a Arena) -> (r: PdfResult<Self>) {
        let (threads, unreadable) = read_items(arena, obj, "/Threads")?;
        Ok(ArticleThreads { threads, unreadable })
    }
}


/// One action dictionary (12.6.3, Table 196).
pub struct Action<'a> {
    /// `/Type`, `Action` when written.
    pub kind: Option<String>,
    /// `/S`: what the action does — `GoTo`, `URI`, `JavaScript`, `Launch`. Required.
    pub action: String,
    /// `/Next`: actions to perform after this one. Named, not followed.
    pub next: Option<&'a Object>,
    /// `/D`: where a `/GoTo` goes.
    pub destination: Option<&'a Object>,
    /// `/URI`: what a `/URI` action opens.
    pub uri: Option<String>,
}

impl<'a> FromPdfObject<'a> for Action<'a> {
    open spec fn readable(arena: Arena, obj: Object) -> bool {
        arena.spec_dict_of(obj) matches Some(d) && name_field(arena, d, "Type"@) is Some
            && (name_field(arena, d, "S"@) matches Some(Some(_))) && text_field(arena, d, "URI"@) is Some
    }

    open spec fn read_as(arena: Arena, obj: Object, v: Self) -> bool {
        arena.spec_dict_of(obj) matches Some(d) && name_field(arena, d, "Type"@) == Some(opt_view(v.kind))
            && name_field(arena, d, "S"@) == Some(Some(v.action@))
            && d.spec_get("Next"@) == opt_ref(v.next) && d.spec_get("D"@) == opt_ref(v.destination)
            && text_field(arena, d, "URI"@) == Some(opt_view(v.uri))
    }

    fn from_pdf_object(obj: &'a Object, arena: &'a Arena) -> (r: PdfResult<Self>) {
        let d = match arena.dict_of(obj) {
            Some(d) => d,
            None => return Err(not_a_dictionary("an action")),
        };
        let kind = read_name(arena, d, "Type")?;
        let action = match read_name(arena, d, "S")? {
            Some(a) => a,
            None => return Err(PdfError::Other(text("an action names no /S"))),
        };
        let next = d.get("Next");
        let destination = d.get("D");
        let uri = read_text(arena, d, "URI")?;
        Ok(Action { kind, action, next, destination, uri })
    }
}

/// `/OpenAction` (12.6, Table 196): a destination array — go here when the file opens —
/// or an action dictionary that does something. Files write both, and a reader that
/// assumed either would report the other as absent.
pub enum TriggeredAction<'a> {
    /// A destination written in place: open at this view of this page.
    Destination(&'a Object),
    /// An action dictionary.
    Action(Action<'a>),
}

/// The word a message uses for what kind of object `o` is.
pub open spec fn spec_kind_word(o: Object) -> Seq<char> {
    match o {
        Object::Null => "null"@,
        Object::Boolean(_) => "a boolean"@,
        Object::Integer(_) => "an integer"@,
        Object::Real(_) => "a real number"@,
        Object::Name(_) => "a name"@,
        Object::String(_) | Object::Hex(_) | Object::Text(_) => "a string"@,
        Object::Array(_) => "an array"@,
        Object::Dictionary(_) => "a dictionary"@,
        Object::Stream(..) => "a stream"@,
        Object::Reference(_) => "a reference"@,
    }
}

/// A word for what kind of object `o` is, for a message.
fn kind_word(o: &Object) -> (r: &'static str)
    ensures
        r@ == spec_kind_word(*o),
{
    match o {
        Object::Null => "null",
        Object::Boolean(_) => "a boolean",
        Object::Integer(_) => "an integer",
        Object::Real(_) => "a real number",
        Object::Name(_) => "a name",
        Object::String(_) | Object::Hex(_) | Object::Text(_) => "a string",
        Object::Array(_) => "an array",
        Object::Dictionary(_) => "a dictionary",
        Object::Stream(..) => "a stream",
        Object::Reference(_) => "a reference",
    }
}

impl<'a> FromPdfObject<'a> for TriggeredAction<'a> {
    open spec fn readable(arena: Arena, obj: Object) -> bool {
        match arena.spec_resolve(obj) {
            Object::Array(_) => true,
            Object::Dictionary(_) | Object::Stream(..) => Action::readable(arena, obj),
            _ => false,
        }
    }

    open spec fn read_as(arena: Arena, obj: Object, v: Self) -> bool {
        match arena.spec_resolve(obj) {
            Object::Array(_) => v matches TriggeredAction::Destination(o) && *o == obj,
            Object::Dictionary(_) | Object::Stream(..) => v matches TriggeredAction::Action(a) && Action::read_as(arena, obj, a),
            _ => false,
        }
    }

    fn from_pdf_object(obj: &'a Object, arena: &'a Arena) -> (r: PdfResult<Self>)
        ensures
            match arena.spec_resolve(*obj) {
                Object::Array(_) | Object::Dictionary(_) | Object::Stream(..) => true,
                other => r matches Err(PdfError::Other(m)) && m@ == "/OpenAction is a destination or an action, not "@
                    + spec_kind_word(other),
            },
    {
        let resolved = arena.resolve(obj);
        match resolved {
            Object::Array(_) => Ok(TriggeredAction::Destination(obj)),
            Object::Dictionary(_) | Object::Stream(..) => match Action::from_pdf_object(obj, arena) {
                Ok(a) => Ok(TriggeredAction::Action(a)),
                Err(e) => Err(e),
            },
            _ => Err(PdfError::Other(concat(text("/OpenAction is a destination or an action, not "), kind_word(resolved)))),
        }
    }
}

/// `/AA` on the catalogue (12.6.3, Table 197): actions triggered by document events.
/// Which event fires is the information — a `/WC` that runs JavaScript before the
/// document closes is a different fact from a `/WP` that runs one before it prints.
pub struct AdditionalActions<'a> {
    /// `/WC`: before the document is closed.
    pub will_close: Option<Action<'a>>,
    /// `/WS`: before the document is saved.
    pub will_save: Option<Action<'a>>,
    /// `/DS`: after the document is saved.
    pub did_save: Option<Action<'a>>,
    /// `/WP`: before the document is printed.
    pub will_print: Option<Action<'a>>,
    /// `/DP`: after the document is printed.
    pub did_print: Option<Action<'a>>,
}

impl<'a> FromPdfObject<'a> for AdditionalActions<'a> {
    open spec fn readable(arena: Arena, obj: Object) -> bool {
        arena.spec_dict_of(obj) matches Some(d) && entry_readable::<Action<'a>>(arena, d.spec_get("WC"@))
            && entry_readable::<Action<'a>>(arena, d.spec_get("WS"@))
            && entry_readable::<Action<'a>>(arena, d.spec_get("DS"@))
            && entry_readable::<Action<'a>>(arena, d.spec_get("WP"@))
            && entry_readable::<Action<'a>>(arena, d.spec_get("DP"@))
    }

    open spec fn read_as(arena: Arena, obj: Object, v: Self) -> bool {
        arena.spec_dict_of(obj) matches Some(d) && entry_reads::<Action<'a>>(arena, d.spec_get("WC"@), v.will_close)
            && entry_reads::<Action<'a>>(arena, d.spec_get("WS"@), v.will_save)
            && entry_reads::<Action<'a>>(arena, d.spec_get("DS"@), v.did_save)
            && entry_reads::<Action<'a>>(arena, d.spec_get("WP"@), v.will_print)
            && entry_reads::<Action<'a>>(arena, d.spec_get("DP"@), v.did_print)
    }

    fn from_pdf_object(obj: &'a Object, arena: &'a Arena) -> (r: PdfResult<Self>) {
        let d = match arena.dict_of(obj) {
            Some(d) => d,
            None => return Err(not_a_dictionary("/AA")),
        };
        let will_close = read_with(arena, d, "WC")?;
        let will_save = read_with(arena, d, "WS")?;
        let did_save = read_with(arena, d, "DS")?;
        let will_print = read_with(arena, d, "WP")?;
        let did_print = read_with(arena, d, "DP")?;
        Ok(AdditionalActions { will_close, will_save, did_save, will_print, did_print })
    }
}

/// `/Outlines` (12.3.3, Table 152): the root of the bookmark tree. `/Count` is the
/// number of items visible when the outline is first shown, not the size of the tree.
pub struct OutlineRoot {
    /// `/Type`, `Outlines` when written.
    pub kind: Option<String>,
    /// `/First`: the first top-level item, by object number.
    pub first: Option<u32>,
    /// `/Last`: the last top-level item, by object number.
    pub last: Option<u32>,
    /// `/Count`: how many items are visible when the outline is first shown.
    pub visible_count: Option<i64>,
}

impl OutlineRoot {
    /// The clause this reader reads.
    pub fn iso_clause() -> (r: &'static str)
        ensures
            r@ == "12.3.3"@,
    {
        "12.3.3"
    }
}

impl<'a> FromPdfObject<'a> for OutlineRoot {
    open spec fn readable(arena: Arena, obj: Object) -> bool {
        arena.spec_dict_of(obj) matches Some(d) && name_field(arena, d, "Type"@) is Some
            && ref_field(d, "First"@) is Some && ref_field(d, "Last"@) is Some && int_field(arena, d, "Count"@) is Some
    }

    open spec fn read_as(arena: Arena, obj: Object, v: Self) -> bool {
        arena.spec_dict_of(obj) matches Some(d) && name_field(arena, d, "Type"@) == Some(opt_view(v.kind))
            && ref_field(d, "First"@) == Some(v.first) && ref_field(d, "Last"@) == Some(v.last)
            && int_field(arena, d, "Count"@) == Some(v.visible_count)
    }

    fn from_pdf_object(obj: &'a Object, arena: &'a Arena) -> (r: PdfResult<Self>) {
        let d = match arena.dict_of(obj) {
            Some(d) => d,
            None => return Err(not_a_dictionary("/Outlines")),
        };
        let kind = read_name(arena, d, "Type")?;
        let first = read_ref(d, "First")?;
        let last = read_ref(d, "Last")?;
        let visible_count = read_int(arena, d, "Count")?;
        Ok(OutlineRoot { kind, first, last, visible_count })
    }
}

/// `/StructTreeRoot` (14.7.4.2, Table 322): the root of the logical structure. The tree
/// beneath is named, not walked.
pub struct StructTreeRoot<'a> {
    /// `/Type`, `StructTreeRoot` when written.
    pub kind: Option<String>,
    /// `/K`: the children — one element, or an array of them.
    pub children: Option<&'a Object>,
    /// `/IDTree`: structure elements by their `/ID`.
    pub id_tree: Option<&'a Object>,
    /// `/ParentTree`: which structure element each marked-content sequence belongs to.
    pub parent_tree: Option<&'a Object>,
    /// `/ParentTreeNextKey`: the next free key.
    pub parent_tree_next_key: Option<i64>,
    /// `/RoleMap`: how this document's element types map onto the standard ones.
    pub role_map: Option<&'a Object>,
    /// `/ClassMap`: named attribute sets elements can refer to.
    pub class_map: Option<&'a Object>,
    /// `/Namespaces`: the namespaces the structure uses (14.7.4.3).
    pub namespaces: Option<&'a Vec<Object>>,
}

impl<'a> StructTreeRoot<'a> {
    /// The clause this reader reads.
    pub fn iso_clause() -> (r: &'static str)
        ensures
            r@ == "14.7.4.2"@,
    {
        "14.7.4.2"
    }
}

impl<'a> FromPdfObject<'a> for StructTreeRoot<'a> {
    open spec fn readable(arena: Arena, obj: Object) -> bool {
        arena.spec_dict_of(obj) matches Some(d) && name_field(arena, d, "Type"@) is Some
            && int_field(arena, d, "ParentTreeNextKey"@) is Some && array_field(arena, d, "Namespaces"@) is Some
    }

    open spec fn read_as(arena: Arena, obj: Object, v: Self) -> bool {
        arena.spec_dict_of(obj) matches Some(d) && name_field(arena, d, "Type"@) == Some(opt_view(v.kind))
            && d.spec_get("K"@) == opt_ref(v.children) && d.spec_get("IDTree"@) == opt_ref(v.id_tree)
            && d.spec_get("ParentTree"@) == opt_ref(v.parent_tree)
            && int_field(arena, d, "ParentTreeNextKey"@) == Some(v.parent_tree_next_key)
            && d.spec_get("RoleMap"@) == opt_ref(v.role_map) && d.spec_get("ClassMap"@) == opt_ref(v.class_map)
            && array_field(arena, d, "Namespaces"@) == Some(opt_seq(v.namespaces))
    }

    fn from_pdf_object(obj: &'a Object, arena: &'a Arena) -> (r: PdfResult<Self>) {
        let d = match arena.dict_of(obj) {
            Some(d) => d,
            None => return Err(not_a_dictionary("/StructTreeRoot")),
        };
        let kind = read_name(arena, d, "Type")?;
        let children = d.get("K");
        let id_tree = d.get("IDTree");
        let parent_tree = d.get("ParentTree");
        let parent_tree_next_key = read_int(arena, d, "ParentTreeNextKey")?;
        let role_map = d.get("RoleMap");
        let class_map = d.get("ClassMap");
        let namespaces = read_array(arena, d, "Namespaces")?;
        Ok(StructTreeRoot { kind, children, id_tree, parent_tree, parent_tree_next_key, role_map, class_map, namespaces })
    }
}

/// `/Pages` (7.7.3.2, Table 30): what the root of the page tree declares — the count it
/// claims and the attributes its pages inherit.
pub struct PageTreeRoot<'a> {
    /// `/Type`, `Pages` when written.
    pub kind: Option<String>,
    /// `/Kids`: the immediate children, which may be pages or further nodes.
    pub kids: Option<&'a Vec<Object>>,
    /// `/Count`: how many leaf pages the file claims are under this node.
    pub declared_pages: Option<i64>,
    /// `/Resources`: inherited by the pages beneath. Reachable, not read.
    pub resources: Option<&'a Object>,
    /// `/Rotate`: the inherited rotation, in degrees clockwise.
    pub rotate: Option<i64>,
}

impl<'a> PageTreeRoot<'a> {
    /// The clause this reader reads.
    pub fn iso_clause() -> (r: &'static str)
        ensures
            r@ == "7.7.3.2"@,
    {
        "7.7.3.2"
    }
}

impl<'a> FromPdfObject<'a> for PageTreeRoot<'a> {
    open spec fn readable(arena: Arena, obj: Object) -> bool {
        arena.spec_dict_of(obj) matches Some(d) && name_field(arena, d, "Type"@) is Some
            && array_field(arena, d, "Kids"@) is Some && int_field(arena, d, "Count"@) is Some
            && int_field(arena, d, "Rotate"@) is Some
    }

    open spec fn read_as(arena: Arena, obj: Object, v: Self) -> bool {
        arena.spec_dict_of(obj) matches Some(d) && name_field(arena, d, "Type"@) == Some(opt_view(v.kind))
            && array_field(arena, d, "Kids"@) == Some(opt_seq(v.kids))
            && int_field(arena, d, "Count"@) == Some(v.declared_pages)
            && d.spec_get("Resources"@) == opt_ref(v.resources) && int_field(arena, d, "Rotate"@) == Some(v.rotate)
    }

    fn from_pdf_object(obj: &'a Object, arena: &'a Arena) -> (r: PdfResult<Self>) {
        let d = match arena.dict_of(obj) {
            Some(d) => d,
            None => return Err(not_a_dictionary("/Pages")),
        };
        let kind = read_name(arena, d, "Type")?;
        let kids = read_array(arena, d, "Kids")?;
        let declared_pages = read_int(arena, d, "Count")?;
        let resources = d.get("Resources");
        let rotate = read_int(arena, d, "Rotate")?;
        Ok(PageTreeRoot { kind, kids, declared_pages, resources, rotate })
    }
}

/// `/OCProperties` (8.11.4.3, Table 98): the optional content the document defines.
pub struct OptionalContent<'a> {
    /// `/OCGs`: every optional content group in the document. Named, not walked.
    pub groups: Option<&'a Vec<Object>>,
    /// `/D`: the default configuration — which groups are on when the file opens
    /// (Table 100).
    pub default_configuration: Option<&'a Object>,
    /// `/Configs`: alternative configurations a viewer may offer. Named, not read.
    pub configurations: Option<&'a Vec<Object>>,
}

impl<'a> FromPdfObject<'a> for OptionalContent<'a> {
    open spec fn readable(arena: Arena, obj: Object) -> bool {
        arena.spec_dict_of(obj) matches Some(d) && array_field(arena, d, "OCGs"@) is Some
            && (d.spec_get("D"@) matches Some(o) ==> arena.spec_dict_of(o) is Some)
            && array_field(arena, d, "Configs"@) is Some
    }

    open spec fn read_as(arena: Arena, obj: Object, v: Self) -> bool {
        arena.spec_dict_of(obj) matches Some(d) && array_field(arena, d, "OCGs"@) == Some(opt_seq(v.groups))
            && d.spec_get("D"@) == opt_ref(v.default_configuration)
            && array_field(arena, d, "Configs"@) == Some(opt_seq(v.configurations))
    }

    fn from_pdf_object(obj: &'a Object, arena: &'a Arena) -> (r: PdfResult<Self>) {
        let d = match arena.dict_of(obj) {
            Some(d) => d,
            None => return Err(not_a_dictionary("/OCProperties")),
        };
        let groups = read_array(arena, d, "OCGs")?;
        let default_configuration = d.get("D");
        if let Some(c) = default_configuration {
            if arena.dict_of(c).is_none() {
                return Err(wrong("D", "a dictionary"));
            }
        }
        let configurations = read_array(arena, d, "Configs")?;
        Ok(OptionalContent { groups, default_configuration, configurations })
    }
}

/// A value read from an object, with the object number it was read from when it was
/// written as a reference: the page walk and the structure-tree visitor need both.
pub struct Located<T> {
    /// Where the value lives, when it was written as a reference.
    pub reference: Option<u32>,
    /// What it says.
    pub value: T,
}

/// Whether `obj` is a reference to an object the arena does not hold.
pub open spec fn dangling(arena: Arena, obj: Object) -> bool {
    obj is Reference && arena.spec_resolve(obj) is Null
}

impl<'a, T: FromPdfObject<'a>> FromPdfObject<'a> for Located<T> {
    open spec fn readable(arena: Arena, obj: Object) -> bool {
        !dangling(arena, obj) && T::readable(arena, obj)
    }

    open spec fn read_as(arena: Arena, obj: Object, v: Self) -> bool {
        v.reference == reference_of(obj) && T::read_as(arena, obj, v.value)
    }

    fn from_pdf_object(obj: &'a Object, arena: &'a Arena) -> (r: PdfResult<Self>)
        ensures
            dangling(*arena, *obj) ==> (r matches Err(PdfError::Arena(m)) && m@ == "object "@
                + decimal(reference_of(*obj).unwrap() as nat) + " does not resolve"@),
    {
        let reference = match obj {
            Object::Reference(n) => Some(*n),
            _ => None,
        };
        if let Some(n) = reference {
            if let Object::Null = arena.resolve(obj) {
                let m = concat(concat(text("object "), decimal_text(n as u64).as_str()), " does not resolve");
                return Err(PdfError::Arena(m));
            }
        }
        match T::from_pdf_object(obj, arena) {
            Ok(value) => Ok(Located { reference, value }),
            Err(e) => Err(e),
        }
    }
}


/// How deep a tree is followed before it is taken to be looping.
pub const MAX_TREE_DEPTH: usize = 64;

/// The array `key` of `d` names, through a reference.
pub open spec fn array_at(arena: Arena, d: Dict, key: Seq<char>) -> Option<Seq<Object>> {
    match d.spec_get(key) {
        Some(o) => arena.spec_array_of(o),
        None => None,
    }
}

/// The `(key, value)` pairs among the first `n` pairs of a `/Nums` array whose key is an
/// integer; a trailing odd element belongs to no pair.
pub open spec fn num_pairs(arena: Arena, nums: Seq<Object>, n: int) -> Seq<(i64, Object)>
    decreases n,
{
    if n <= 0 {
        Seq::empty()
    } else {
        let rest = num_pairs(arena, nums, n - 1);
        match arena.spec_integer_of(nums[2 * (n - 1)]) {
            Some(k) => rest.push((k, nums[2 * (n - 1) + 1])),
            None => rest,
        }
    }
}

/// The pairs of a number tree (7.9.7) below `node`, the kids' before the node's own,
/// followed no deeper than [`MAX_TREE_DEPTH`].
pub open spec fn number_tree(arena: Arena, node: Dict, depth: nat) -> Seq<(i64, Object)>
    decreases 64 - depth, 0int,
{
    if depth >= 64 {
        Seq::empty()
    } else {
        let from_kids = match array_at(arena, node, "Kids"@) {
            Some(kids) => kid_pairs(arena, kids, kids.len() as int, depth + 1),
            None => Seq::empty(),
        };
        let own = match array_at(arena, node, "Nums"@) {
            Some(nums) => num_pairs(arena, nums, (nums.len() / 2) as int),
            None => Seq::empty(),
        };
        from_kids + own
    }
}

/// The pairs below the first `n` kids that are dictionaries.
pub open spec fn kid_pairs(arena: Arena, kids: Seq<Object>, n: int, depth: nat) -> Seq<(i64, Object)>
    decreases 64 - depth, n + 1,
{
    if n <= 0 || n > kids.len() {
        Seq::empty()
    } else {
        let rest = kid_pairs(arena, kids, n - 1, depth);
        match arena.spec_dict_of(kids[n - 1]) {
            Some(d) => rest + number_tree(arena, d, depth),
            None => rest,
        }
    }
}

/// Pairs gathered by reference, seen as values.
pub open spec fn pairs_view<'a>(s: Seq<(i64, &'a Object)>) -> Seq<(i64, Object)> {
    s.map_values(|p: (i64, &'a Object)| (p.0, *p.1))
}

/// Collects the pairs of a number tree below `node`, following `/Kids`.
fn walk_number_tree<'a>(arena: &'a Arena, node: &'a Dict, out: &mut Vec<(i64, &'a Object)>, depth: usize)
    ensures
        pairs_view(final(out)@) == pairs_view(old(out)@) + number_tree(*arena, *node, depth as nat),
    decreases MAX_TREE_DEPTH - depth,
{
    if depth >= MAX_TREE_DEPTH {
        assert(pairs_view(out@) =~= pairs_view(out@) + Seq::<(i64, Object)>::empty());
        return;
    }
    let ghost start = pairs_view(out@);
    let mut from_kids = false;
    if let Some(k) = node.get("Kids") {
        if let Some(kids) = arena.array_of(k) {
            from_kids = true;
            let mut i: usize = 0;
            assert(pairs_view(out@) =~= start + kid_pairs(*arena, kids@, 0, (depth + 1) as nat));
            while i < kids.len()
                invariant
                    i <= kids@.len(),
                    depth < MAX_TREE_DEPTH,
                    pairs_view(out@) == start + kid_pairs(*arena, kids@, i as int, (depth + 1) as nat),
                decreases kids@.len() - i,
            {
                if let Some(d) = arena.dict_of(&kids[i]) {
                    walk_number_tree(arena, d, out, depth + 1);
                    assert(pairs_view(out@) =~= start + kid_pairs(*arena, kids@, i + 1, (depth + 1) as nat));
                } else {
                    assert(kid_pairs(*arena, kids@, i + 1, (depth + 1) as nat) == kid_pairs(*arena, kids@, i as int, (depth + 1) as nat));
                }
                i = i + 1;
            }
        }
    }
    let ghost after_kids = pairs_view(out@);
    assert(after_kids == start + match array_at(*arena, *node, "Kids"@) {
        Some(kids) => kid_pairs(*arena, kids, kids.len() as int, (depth + 1) as nat),
        None => Seq::empty(),
    }) by {
        if !from_kids {
            assert(after_kids =~= start + Seq::<(i64, Object)>::empty());
        }
    }
    if let Some(n) = node.get("Nums") {
        if let Some(nums) = arena.array_of(n) {
            let mut k: usize = 0;
            let len = nums.len();
            let count = len / 2;
            assert(pairs_view(out@) =~= after_kids + num_pairs(*arena, nums@, 0));
            while k < count
                invariant
                    k <= count,
                    len == nums@.len(),
                    count == nums@.len() / 2,
                    pairs_view(out@) == after_kids + num_pairs(*arena, nums@, k as int),
                decreases count - k,
            {
                let ghost before = out@;
                assert(2 * k + 1 < nums@.len()) by (nonlinear_arith)
                    requires
                        k < count,
                        count == nums@.len() / 2,
                ;
                let at = 2 * k;
                if let Some(index) = arena.integer_of(&nums[at]) {
                    out.push((index, &nums[at + 1]));
                    assert(pairs_view(out@) =~= pairs_view(before).push((index, nums@[at + 1])));
                }
                k = k + 1;
            }
            return;
        }
    }
    assert(pairs_view(out@) =~= after_kids + Seq::<(i64, Object)>::empty());
}

/// What a page label range holds, as values: where it starts, its style, its prefix and
/// its first number.
pub type RangeView = (i64, Option<Seq<char>>, Option<Seq<char>>, Option<i64>);

/// The name `key` of `d` holds, if it holds one.
pub open spec fn name_at_key(arena: Arena, d: Dict, key: Seq<char>) -> Option<Seq<char>> {
    match d.spec_get(key) {
        Some(o) => arena.spec_name_of(o),
        None => None,
    }
}

/// The text `key` of `d` holds, if it holds some.
pub open spec fn text_at_key(arena: Arena, d: Dict, key: Seq<char>) -> Option<Seq<char>> {
    match d.spec_get(key) {
        Some(o) => text_of(arena, o),
        None => None,
    }
}

/// The integer `key` of `d` holds, if it holds one.
pub open spec fn int_at_key(arena: Arena, d: Dict, key: Seq<char>) -> Option<i64> {
    match d.spec_get(key) {
        Some(o) => arena.spec_integer_of(o),
        None => None,
    }
}

/// `s` with `x` placed after every range starting at or before it: the insertion of a
/// stable sort by first page.
pub open spec fn insert_stable(s: Seq<RangeView>, x: RangeView) -> Seq<RangeView>
    decreases s.len(),
{
    if s.len() == 0 {
        seq![x]
    } else if s.last().0 <= x.0 {
        s.push(x)
    } else {
        insert_stable(s.drop_last(), x).push(s.last())
    }
}

/// The label ranges of `pairs`, sorted by first page, pairs starting on the same page
/// kept in the tree's order; pairs whose value is not a dictionary are passed over.
pub open spec fn label_ranges(arena: Arena, pairs: Seq<(i64, Object)>) -> Seq<RangeView>
    decreases pairs.len(),
{
    if pairs.len() == 0 {
        Seq::empty()
    } else {
        let rest = label_ranges(arena, pairs.drop_last());
        let (index, value) = pairs.last();
        match arena.spec_dict_of(value) {
            Some(d) => insert_stable(rest, (index, name_at_key(arena, d, "S"@), text_at_key(arena, d, "P"@), int_at_key(arena, d, "St"@))),
            None => rest,
        }
    }
}

/// How many of `pairs` hold something other than a dictionary.
pub open spec fn unreadable_labels(arena: Arena, pairs: Seq<(i64, Object)>) -> nat
    decreases pairs.len(),
{
    if pairs.len() == 0 {
        0
    } else {
        unreadable_labels(arena, pairs.drop_last()) + if arena.spec_dict_of(pairs.last().1) is Some { 0nat } else { 1nat }
    }
}

/// Ranges in page order.
pub open spec fn in_page_order(s: Seq<RangeView>) -> bool {
    forall|a: int, b: int| 0 <= a < b < s.len() ==> (#[trigger] s[a]).0 <= (#[trigger] s[b]).0
}

/// The stable insertion is the list cut where the later ranges begin.
proof fn lemma_insert_stable_at(s: Seq<RangeView>, x: RangeView, p: int)
    requires
        0 <= p <= s.len(),
        forall|j: int| p <= j < s.len() ==> (#[trigger] s[j]).0 > x.0,
        p == 0 || s[p - 1].0 <= x.0,
    ensures
        insert_stable(s, x) == s.take(p).push(x) + s.skip(p),
    decreases s.len(),
{
    if s.len() == 0 {
        assert(s.take(p).push(x) + s.skip(p) =~= seq![x]);
    } else if p == s.len() {
        assert(s.take(p).push(x) + s.skip(p) =~= s.push(x));
    } else {
        lemma_insert_stable_at(s.drop_last(), x, p);
        assert(s.take(p).push(x) + s.skip(p) =~= (s.drop_last().take(p).push(x) + s.drop_last().skip(p)).push(s.last()));
    }
}

/// Inserting keeps ranges in page order.
proof fn lemma_insert_keeps_order(s: Seq<RangeView>, x: RangeView)
    requires
        in_page_order(s),
    ensures
        in_page_order(insert_stable(s, x)),
        insert_stable(s, x).len() == s.len() + 1,
    decreases s.len(),
{
    if s.len() > 0 && s.last().0 > x.0 {
        let t = s.drop_last();
        lemma_insert_keeps_order(t, x);
        let u = insert_stable(t, x);
        assert forall|j: int| 0 <= j < u.len() implies (#[trigger] u[j]).0 <= s.last().0 by {
            lemma_insert_members(t, x, j);
            if u[j] != x {
                let k = choose|k: int| 0 <= k < t.len() && t[k] == u[j];
                assert(s[k] == t[k]);
            }
        }
    }
}

/// Every range of an insertion is the one inserted or one already there.
proof fn lemma_insert_members(s: Seq<RangeView>, x: RangeView, j: int)
    requires
        0 <= j < insert_stable(s, x).len(),
    ensures
        insert_stable(s, x)[j] == x || exists|k: int| 0 <= k < s.len() && s[k] == insert_stable(s, x)[j],
    decreases s.len(),
{
    if s.len() > 0 {
        if s.last().0 <= x.0 {
            if j < s.len() {
                assert(s[j] == insert_stable(s, x)[j]);
            }
        } else {
            let t = s.drop_last();
            if j < insert_stable(t, x).len() {
                lemma_insert_members(t, x, j);
                if insert_stable(s, x)[j] != x {
                    let k = choose|k: int| 0 <= k < t.len() && t[k] == insert_stable(t, x)[j];
                    assert(s[k] == t[k]);
                }
            } else {
                assert(insert_stable(s, x)[j] == s[s.len() - 1]);
            }
        }
    }
}

/// Ranges built from the pairs are in page order.
proof fn lemma_label_ranges_ordered(arena: Arena, pairs: Seq<(i64, Object)>)
    ensures
        in_page_order(label_ranges(arena, pairs)),
    decreases pairs.len(),
{
    if pairs.len() > 0 {
        lemma_label_ranges_ordered(arena, pairs.drop_last());
        let rest = label_ranges(arena, pairs.drop_last());
        let (index, value) = pairs.last();
        if let Some(d) = arena.spec_dict_of(value) {
            lemma_insert_keeps_order(rest, (index, name_at_key(arena, d, "S"@), text_at_key(arena, d, "P"@), int_at_key(arena, d, "St"@)));
        }
    }
}

/// One entry of the `/PageLabels` number tree (Table 161).
pub struct PageLabelRange {
    /// The zero-based index of the first page this range covers.
    pub from_page: i64,
    /// `/S`: the numbering style. Absent means the pages have no number, only `/P`.
    pub style: Option<String>,
    /// `/P`: a prefix before the number.
    pub prefix: Option<String>,
    /// `/St`: the number the range starts at, left `None` when unwritten so that a
    /// caller can tell 12.4.2's default of 1 from a declaration.
    pub start_at: Option<i64>,
}

/// A range, as values.
pub open spec fn range_view(r: PageLabelRange) -> RangeView {
    (r.from_page, opt_view(r.style), opt_view(r.prefix), r.start_at)
}

/// A list of ranges, as values.
pub open spec fn ranges_view(v: Seq<PageLabelRange>) -> Seq<RangeView> {
    v.map_values(|r: PageLabelRange| range_view(r))
}

/// The name `key` of `d` holds, copied.
fn name_at(arena: &Arena, d: &Dict, key: &str) -> (r: Option<String>)
    ensures
        opt_view(r) == name_at_key(*arena, *d, key@),
{
    match d.get(key) {
        Some(o) => match arena.name_of(o) {
            Some(n) => Some(text(n.as_str())),
            None => None,
        },
        None => None,
    }
}

/// Places `x` after every range starting at or before it.
fn insert_range(v: &mut Vec<PageLabelRange>, x: PageLabelRange)
    ensures
        ranges_view(final(v)@) == insert_stable(ranges_view(old(v)@), range_view(x)),
{
    let ghost s = ranges_view(v@);
    let mut p = v.len();
    while p > 0 && v[p - 1].from_page > x.from_page
        invariant
            p <= v@.len(),
            s == ranges_view(v@),
            forall|j: int| p <= j < v@.len() ==> (#[trigger] v@[j]).from_page > x.from_page,
        decreases p,
    {
        p = p - 1;
    }
    proof {
        lemma_insert_stable_at(s, range_view(x), p as int);
    }
    let ghost before = v@;
    v.insert(p, x);
    assert(ranges_view(v@) =~= s.take(p as int).push(range_view(x)) + s.skip(p as int)) by {
        assert forall|j: int| 0 <= j < v@.len() implies ranges_view(v@)[j] == (s.take(p as int).push(range_view(x)) + s.skip(p as int))[j] by {
            if j < p {
                assert(v@[j] == before[j]);
            } else if j > p {
                assert(v@[j] == before[j - 1]);
            }
        }
    }
}

/// `/PageLabels` (12.4.2, Table 161): what a viewer shows instead of a page index, read
/// as the ranges the number tree holds rather than as a label per page.
pub struct PageLabels {
    /// Each range, by the page index it starts at, in page order.
    pub ranges: Vec<PageLabelRange>,
    /// Entries in the tree that would not read as a label range, counted rather than
    /// dropped.
    pub unreadable: usize,
}

impl<'a> FromPdfObject<'a> for PageLabels {
    open spec fn readable(arena: Arena, obj: Object) -> bool {
        arena.spec_dict_of(obj) is Some
    }

    open spec fn read_as(arena: Arena, obj: Object, v: Self) -> bool {
        arena.spec_dict_of(obj) matches Some(d) && {
            let pairs = number_tree(arena, d, 0);
            &&& ranges_view(v.ranges@) == label_ranges(arena, pairs)
            &&& v.unreadable == unreadable_labels(arena, pairs)
            &&& in_page_order(ranges_view(v.ranges@))
        }
    }

    fn from_pdf_object(obj: &'a Object, arena: &'a Arena) -> (r: PdfResult<Self>) {
        let d = match arena.dict_of(obj) {
            Some(d) => d,
            None => return Err(PdfError::Other(text("/PageLabels is not a number tree"))),
        };
        let mut pairs: Vec<(i64, &Object)> = Vec::new();
        walk_number_tree(arena, d, &mut pairs, 0);
        assert(pairs_view(pairs@) =~= number_tree(*arena, *d, 0));
        let ghost all = pairs_view(pairs@);
        let mut ranges: Vec<PageLabelRange> = Vec::new();
        let mut unreadable: usize = 0;
        let mut i: usize = 0;
        while i < pairs.len()
            invariant
                i <= pairs@.len(),
                all == pairs_view(pairs@),
                unreadable <= i,
                ranges_view(ranges@) == label_ranges(*arena, all.take(i as int)),
                unreadable == unreadable_labels(*arena, all.take(i as int)),
            decreases pairs@.len() - i,
        {
            assert(all.take(i + 1).drop_last() =~= all.take(i as int));
            assert(all.take(i + 1).last() == all[i as int]);
            let (index, value) = pairs[i];
            match arena.dict_of(value) {
                Some(dd) => {
                    let style = name_at(arena, dd, "S");
                    let prefix = match dd.get("P") {
                        Some(p) => text_value(arena, p),
                        None => None,
                    };
                    let start_at = match dd.get("St") {
                        Some(st) => arena.integer_of(st),
                        None => None,
                    };
                    insert_range(&mut ranges, PageLabelRange { from_page: index, style, prefix, start_at });
                },
                None => {
                    unreadable = unreadable + 1;
                },
            }
            i = i + 1;
        }
        assert(all.take(i as int) =~= all);
        proof {
            lemma_label_ranges_ordered(*arena, all);
        }
        Ok(PageLabels { ranges, unreadable })
    }
}


/// Whether `o` is a string object, through a reference.
pub open spec fn is_string_object(arena: Arena, o: Object) -> bool {
    match arena.spec_resolve(o) {
        Object::String(_) | Object::Hex(_) | Object::Text(_) => true,
        _ => false,
    }
}

/// `n` held to what a `usize` can count.
pub open spec fn capped(n: nat) -> nat {
    if n > usize::MAX {
        usize::MAX as nat
    } else {
        n
    }
}

/// How many of the first `n` pairs of a `/Names` array have a string for a key.
pub open spec fn name_pairs(arena: Arena, names: Seq<Object>, n: int) -> nat
    decreases n,
{
    if n <= 0 {
        0
    } else {
        name_pairs(arena, names, n - 1) + if is_string_object(arena, names[2 * (n - 1)]) { 1nat } else { 0nat }
    }
}

/// How many names a name tree (7.9.6) holds below `node`, followed no deeper than
/// [`MAX_TREE_DEPTH`].
pub open spec fn name_tree(arena: Arena, node: Dict, depth: nat) -> nat
    decreases 64 - depth, 0int,
{
    if depth >= 64 {
        0
    } else {
        let from_kids = match array_at(arena, node, "Kids"@) {
            Some(kids) => kid_names(arena, kids, kids.len() as int, depth + 1),
            None => 0,
        };
        let own = match array_at(arena, node, "Names"@) {
            Some(names) => name_pairs(arena, names, (names.len() / 2) as int),
            None => 0,
        };
        from_kids + own
    }
}

/// How many names lie below the first `n` kids that are dictionaries.
pub open spec fn kid_names(arena: Arena, kids: Seq<Object>, n: int, depth: nat) -> nat
    decreases 64 - depth, n + 1,
{
    if n <= 0 || n > kids.len() {
        0
    } else {
        kid_names(arena, kids, n - 1, depth) + match arena.spec_dict_of(kids[n - 1]) {
            Some(d) => name_tree(arena, d, depth),
            None => 0,
        }
    }
}

/// Counts the names of a name tree below `node`, following `/Kids`.
fn walk_names(arena: &Arena, node: &Dict, depth: usize) -> (r: usize)
    ensures
        r == capped(name_tree(*arena, *node, depth as nat)),
    decreases MAX_TREE_DEPTH - depth,
{
    if depth >= MAX_TREE_DEPTH {
        return 0;
    }
    let mut total: usize = 0;
    if let Some(k) = node.get("Kids") {
        if let Some(kids) = arena.array_of(k) {
            let mut i: usize = 0;
            while i < kids.len()
                invariant
                    i <= kids@.len(),
                    depth < MAX_TREE_DEPTH,
                    total == capped(kid_names(*arena, kids@, i as int, (depth + 1) as nat)),
                decreases kids@.len() - i,
            {
                if let Some(d) = arena.dict_of(&kids[i]) {
                    let below = walk_names(arena, d, depth + 1);
                    total = total.saturating_add(below);
                }
                i = i + 1;
            }
        }
    }
    let ghost from_kids = match array_at(*arena, *node, "Kids"@) {
        Some(kids) => kid_names(*arena, kids, kids.len() as int, (depth + 1) as nat),
        None => 0,
    };
    assert(total == capped(from_kids));
    if let Some(n) = node.get("Names") {
        if let Some(names) = arena.array_of(n) {
            let mut k: usize = 0;
            let len = names.len();
            let count = len / 2;
            while k < count
                invariant
                    k <= count,
                    len == names@.len(),
                    count == names@.len() / 2,
                    total == capped(from_kids + name_pairs(*arena, names@, k as int)),
                decreases count - k,
            {
                assert(2 * k + 1 < names@.len()) by (nonlinear_arith)
                    requires
                        k < count,
                        count == names@.len() / 2,
                ;
                let at = 2 * k;
                match arena.resolve(&names[at]) {
                    Object::String(_) | Object::Hex(_) | Object::Text(_) => {
                        total = total.saturating_add(1);
                    },
                    _ => {},
                }
                k = k + 1;
            }
            return total;
        }
    }
    total
}

/// The keys of Table 31, in the order it defines them.
pub open spec fn name_tree_keys() -> Seq<Seq<char>> {
    seq![
        "Dests"@,
        "AP"@,
        "JavaScript"@,
        "Pages"@,
        "Templates"@,
        "IDS"@,
        "URLS"@,
        "EmbeddedFiles"@,
        "AlternatePresentations"@,
        "Renditions"@,
    ]
}

/// The key of Table 31 at position `i`.
fn name_tree_key(i: usize) -> (r: &'static str)
    requires
        i < 10,
    ensures
        r@ == name_tree_keys()[i as int],
{
    match i {
        0 => "Dests",
        1 => "AP",
        2 => "JavaScript",
        3 => "Pages",
        4 => "Templates",
        5 => "IDS",
        6 => "URLS",
        7 => "EmbeddedFiles",
        8 => "AlternatePresentations",
        _ => "Renditions",
    }
}

/// One of Table 31's name trees.
pub struct NameTree {
    /// The key — `Dests`, `JavaScript`, `EmbeddedFiles`, and so on.
    pub key: String,
    /// How many names the tree holds, counted by walking it.
    pub names: usize,
}

/// The trees among the first `n` keys of Table 31 that `d` declares as dictionaries,
/// each with how many names it holds.
pub open spec fn declared_trees(arena: Arena, d: Dict, n: int) -> Seq<(Seq<char>, nat)>
    decreases n,
{
    if n <= 0 {
        Seq::empty()
    } else {
        let rest = declared_trees(arena, d, n - 1);
        let key = name_tree_keys()[n - 1];
        match d.spec_get(key) {
            Some(o) => match arena.spec_dict_of(o) {
                Some(root) => rest.push((key, capped(name_tree(arena, root, 0)))),
                None => rest,
            },
            None => rest,
        }
    }
}

/// A list of trees, as values.
pub open spec fn trees_view(v: Seq<NameTree>) -> Seq<(Seq<char>, nat)> {
    v.map_values(|t: NameTree| (t.key@, t.names as nat))
}

/// `/Names` (7.7.4, Table 31): which name trees a document declares, and how many names
/// each holds. The shape is the information: a `/JavaScript` tree is a document that
/// runs code when it opens.
pub struct NameDictionary {
    /// Each tree the dictionary declares, in Table 31's order.
    pub trees: Vec<NameTree>,
}

impl<'a> FromPdfObject<'a> for NameDictionary {
    open spec fn readable(arena: Arena, obj: Object) -> bool {
        arena.spec_dict_of(obj) is Some
    }

    open spec fn read_as(arena: Arena, obj: Object, v: Self) -> bool {
        arena.spec_dict_of(obj) matches Some(d) && trees_view(v.trees@) == declared_trees(arena, d, 10)
    }

    fn from_pdf_object(obj: &'a Object, arena: &'a Arena) -> (r: PdfResult<Self>) {
        let d = match arena.dict_of(obj) {
            Some(d) => d,
            None => return Err(PdfError::Other(text("/Names is not a dictionary"))),
        };
        let mut trees: Vec<NameTree> = Vec::new();
        let mut i: usize = 0;
        while i < 10
            invariant
                i <= 10,
                trees_view(trees@) == declared_trees(*arena, *d, i as int),
            decreases 10 - i,
        {
            let key = name_tree_key(i);
            let ghost before = trees@;
            if let Some(o) = d.get(key) {
                if let Some(root) = arena.dict_of(o) {
                    let names = walk_names(arena, root, 0);
                    trees.push(NameTree { key: text(key), names });
                    assert(trees_view(trees@) =~= trees_view(before).push((key@, names as nat)));
                }
            }
            i = i + 1;
        }
        Ok(NameDictionary { trees })
    }
}

/// `/Metadata` (14.3.2): the XMP packet. Its subtype, and how many bytes the decoded
/// packet holds — zero when the stream would not decode, which is a fact about the file
/// rather than a reason to report no metadata.
pub struct XmpMetadata {
    /// `/Subtype`, which 14.3.2 requires to be `XML`.
    pub subtype: Option<String>,
    /// How many bytes the decoded packet holds.
    pub packet_bytes: usize,
}

impl<'a> FromPdfObject<'a> for XmpMetadata {
    open spec fn readable(arena: Arena, obj: Object) -> bool {
        arena.spec_resolve(obj) is Stream
    }

    open spec fn read_as(arena: Arena, obj: Object, v: Self) -> bool {
        arena.spec_resolve(obj) matches Object::Stream(d, data) && opt_view(v.subtype) == name_at_key(arena, d, "Subtype"@)
            && match crate::filters::spec_process(data@, d, arena, None) {
                Some(Ok(bytes)) => v.packet_bytes == bytes.len(),
                Some(Err(_)) => v.packet_bytes == 0,
                None => true,
            }
    }

    fn from_pdf_object(obj: &'a Object, arena: &'a Arena) -> (r: PdfResult<Self>) {
        match arena.resolve(obj) {
            Object::Stream(d, data) => {
                let subtype = name_at(arena, d, "Subtype");
                let packet_bytes = match crate::filters::process_filters(data.as_slice(), d, arena, None) {
                    Ok(bytes) => bytes.len(),
                    Err(_) => 0,
                };
                Ok(XmpMetadata { subtype, packet_bytes })
            },
            _ => Err(PdfError::Other(text("/Metadata is not a stream (14.3.2)"))),
        }
    }
}

} // verus!
