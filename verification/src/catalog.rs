//! Every entry of the document catalogue (7.7.2), typed or not.
//!
//! The point is the gaps: which entries a file's catalogue carries, and for each how far
//! this engine can go with what it holds. The catalogue stays a dictionary of the
//! object table, reached through `/Root`, so an entry with no typed view still
//! round-trips.

use crate::decision::Decision;
use crate::error::{char_text, concat, decimal, decimal_text, text, PdfError, PdfResult};
use crate::object::{first_match, lemma_first_match_at, lemma_first_match_some, str_eq, Arena, Dict, Object};
use crate::text::{
    chars_of, lemma_lex_asymmetric, lemma_lex_irreflexive, lemma_lex_total, lemma_lex_transitive,
    lex_lt, str_lt,
};
use vstd::prelude::*;

verus! {

/// How far the engine can go with a catalogue entry.
#[derive(Clone, Copy, Debug, PartialEq, Eq, Structural)]
pub enum Support {
    /// A field of the catalogue's schema whose type says what the entry *holds*: the
    /// engine can reason about the value, not merely reach it.
    Modelled,
    /// A field typed as the object table's own object or a bare handle into it: the
    /// entry is reachable by name and round-trips, and its contents are as opaque as
    /// they were before the field existed.
    Declared,
    /// Not a field, but a type for the entry's contents exists. Nothing names the key,
    /// so it is neither read nor written whatever the type suggests.
    TypeOnly,
    /// Not a field at all. The entry round-trips; anything done with it is ad hoc.
    Untyped,
}

impl Support {
    /// Whether the engine can say anything about the entry's *contents*.
    pub fn models_contents(self) -> (r: bool)
        ensures
            r == (self == Support::Modelled),
    {
        match self {
            Support::Modelled => true,
            _ => false,
        }
    }
}

/// The type inside `Option<…>`, or the type itself when it is not an option.
pub open spec fn inner_type(t: Seq<char>) -> Seq<char> {
    if t.len() >= 8 && t.take(7) == "Option<"@ && t.last() == '>' {
        t.subrange(7, t.len() - 1)
    } else {
        t
    }
}

/// The object table's own types: a field of one of these names the entry and hands back
/// what was already there.
pub open spec fn is_passthrough(t: Seq<char>) -> bool {
    t == "Object"@ || t == "Handle<Object>"@ || t == "Handle<PdfName>"@ || t
        == "Handle<Vec<Object>>"@ || t == "Vec<Object>"@
}

/// Types that name an entry and read no more of it than its outside: the XMP packet's
/// subtype and decoded size are read, what the packet says is not, so `/Metadata` is
/// declared rather than modelled.
pub open spec fn is_shallow(t: Seq<char>) -> bool {
    t == "entries::XmpMetadata"@
}

/// Whether a field of this declared type describes the entry's contents.
pub open spec fn spec_models_contents(t: Seq<char>) -> bool {
    !is_passthrough(inner_type(t)) && !is_shallow(inner_type(t))
}

/// Whether `cs` begins with the characters of `prefix`.
fn starts_with(cs: &Vec<char>, prefix: &str) -> (r: bool)
    ensures
        r == (prefix@.len() <= cs@.len() && cs@.take(prefix@.len() as int) == prefix@),
{
    let p = chars_of(prefix);
    if p.len() > cs.len() {
        return false;
    }
    let mut i: usize = 0;
    while i < p.len()
        invariant
            p@ == prefix@,
            p@.len() <= cs@.len(),
            i <= p@.len(),
            cs@.take(i as int) == p@.take(i as int),
        decreases p@.len() - i,
    {
        if cs[i] != p[i] {
            assert(cs@.take(p@.len() as int)[i as int] != p@[i as int]);
            return false;
        }
        assert(cs@.take(i + 1) =~= cs@.take(i as int).push(cs@[i as int]));
        assert(p@.take(i + 1) =~= p@.take(i as int).push(p@[i as int]));
        i = i + 1;
    }
    assert(p@.take(p@.len() as int) =~= p@);
    true
}

/// Whether a field's declared type describes the entry's contents, the type written as
/// the schema writes it, white space already stripped.
pub fn models_contents(rust_type: &str) -> (r: bool)
    ensures
        r == spec_models_contents(rust_type@),
{
    let cs = chars_of(rust_type);
    let n = cs.len();
    let inner = if n >= 8 && starts_with(&cs, "Option<") && cs[n - 1] == '>' {
        proof {
            reveal_strlit("Option<");
        }
        crate::text::string_of(cs.as_slice(), 7, n - 1)
    } else {
        proof {
            reveal_strlit("Option<");
        }
        text(rust_type)
    };
    proof {
        reveal_strlit("Option<");
    }
    assert(inner@ == inner_type(rust_type@));
    let s = inner.as_str();
    !(str_eq(s, "Object") || str_eq(s, "Handle<Object>") || str_eq(s, "Handle<PdfName>")
        || str_eq(s, "Handle<Vec<Object>>") || str_eq(s, "Vec<Object>") || str_eq(s, "entries::XmpMetadata"))
}

/// How many keys Table 29 defines, and how many fields the catalogue's schema declares.
pub const CATALOG_KEYS: usize = 32;

/// The `i`th field of the catalogue's schema: the key it reads and its declared type, as
/// the schema writes it with the white space stripped.
#[verifier::opaque]
pub open spec fn catalog_schema() -> Seq<(Seq<char>, Seq<char>)> {
    seq![
        ("Pages"@, "Option<entries::Located<entries::PageTreeRoot>>"@),
        ("StructTreeRoot"@, "Option<entries::Located<entries::StructTreeRoot>>"@),
        ("MarkInfo"@, "Option<entries::MarkInfo>"@),
        ("Metadata"@, "Option<entries::XmpMetadata>"@),
        ("Version"@, "Option<entries::DeclaredVersion>"@),
        ("AcroForm"@, "Option<entries::AcroForm>"@),
        ("Names"@, "Option<entries::NameDictionary>"@),
        ("Outlines"@, "Option<entries::OutlineRoot>"@),
        ("OpenAction"@, "Option<entries::TriggeredAction>"@),
        ("AA"@, "Option<entries::AdditionalActions>"@),
        ("PageMode"@, "Option<PageMode>"@),
        ("PageLayout"@, "Option<PageLayout>"@),
        ("Dests"@, "Option<crate::destination::DestsDictionary>"@),
        ("ViewerPreferences"@, "Option<ViewerPreferences>"@),
        ("Lang"@, "Option<String>"@),
        ("Type"@, "Option<Handle<PdfName>>"@),
        ("PageLabels"@, "Option<entries::PageLabels>"@),
        ("Threads"@, "Option<entries::ArticleThreads>"@),
        ("OutputIntents"@, "Option<entries::OutputIntents>"@),
        ("OCProperties"@, "Option<entries::OptionalContent>"@),
        ("Collection"@, "Option<Object>"@),
        ("AF"@, "Option<entries::AssociatedFiles>"@),
        ("Extensions"@, "Option<Object>"@),
        ("URI"@, "Option<Object>"@),
        ("SpiderInfo"@, "Option<Object>"@),
        ("PieceInfo"@, "Option<entries::PieceInfo>"@),
        ("Perms"@, "Option<Object>"@),
        ("Legal"@, "Option<Object>"@),
        ("Requirements"@, "Option<entries::DocumentRequirements>"@),
        ("NeedsRendering"@, "Option<bool>"@),
        ("DSS"@, "Option<Object>"@),
        ("DPartRoot"@, "Option<Object>"@),
    ]
}

pub open spec fn spec_key_type(i: int) -> (Seq<char>, Seq<char>) {
    catalog_schema()[i]
}

/// The `i`th field of the catalogue's schema.
pub fn key_type(i: usize) -> (r: (&'static str, &'static str))
    requires
        i < CATALOG_KEYS,
    ensures
        r.0@ == spec_key_type(i as int).0,
        r.1@ == spec_key_type(i as int).1,
{
    proof {
        reveal(catalog_schema);
    }
    match i {
        0 => ("Pages", "Option<entries::Located<entries::PageTreeRoot>>"),
        1 => ("StructTreeRoot", "Option<entries::Located<entries::StructTreeRoot>>"),
        2 => ("MarkInfo", "Option<entries::MarkInfo>"),
        3 => ("Metadata", "Option<entries::XmpMetadata>"),
        4 => ("Version", "Option<entries::DeclaredVersion>"),
        5 => ("AcroForm", "Option<entries::AcroForm>"),
        6 => ("Names", "Option<entries::NameDictionary>"),
        7 => ("Outlines", "Option<entries::OutlineRoot>"),
        8 => ("OpenAction", "Option<entries::TriggeredAction>"),
        9 => ("AA", "Option<entries::AdditionalActions>"),
        10 => ("PageMode", "Option<PageMode>"),
        11 => ("PageLayout", "Option<PageLayout>"),
        12 => ("Dests", "Option<crate::destination::DestsDictionary>"),
        13 => ("ViewerPreferences", "Option<ViewerPreferences>"),
        14 => ("Lang", "Option<String>"),
        15 => ("Type", "Option<Handle<PdfName>>"),
        16 => ("PageLabels", "Option<entries::PageLabels>"),
        17 => ("Threads", "Option<entries::ArticleThreads>"),
        18 => ("OutputIntents", "Option<entries::OutputIntents>"),
        19 => ("OCProperties", "Option<entries::OptionalContent>"),
        20 => ("Collection", "Option<Object>"),
        21 => ("AF", "Option<entries::AssociatedFiles>"),
        22 => ("Extensions", "Option<Object>"),
        23 => ("URI", "Option<Object>"),
        24 => ("SpiderInfo", "Option<Object>"),
        25 => ("PieceInfo", "Option<entries::PieceInfo>"),
        26 => ("Perms", "Option<Object>"),
        27 => ("Legal", "Option<Object>"),
        28 => ("Requirements", "Option<entries::DocumentRequirements>"),
        29 => ("NeedsRendering", "Option<bool>"),
        30 => ("DSS", "Option<Object>"),
        31 => ("DPartRoot", "Option<Object>"),
        _ => ("", ""),
    }
}

/// The `i`th key of Table 29, and whether a type for its contents exists anywhere in the
/// engine whether or not the schema names the key.
#[verifier::opaque]
pub open spec fn table_29_rows() -> Seq<(Seq<char>, bool)> {
    seq![
        ("Type"@, false),
        ("Version"@, false),
        ("Extensions"@, false),
        ("Pages"@, false),
        ("PageLabels"@, true),
        ("Names"@, false),
        ("Dests"@, false),
        ("ViewerPreferences"@, false),
        ("PageLayout"@, false),
        ("PageMode"@, false),
        ("Outlines"@, false),
        ("Threads"@, true),
        ("OpenAction"@, false),
        ("AA"@, false),
        ("URI"@, false),
        ("AcroForm"@, true),
        ("Metadata"@, false),
        ("StructTreeRoot"@, false),
        ("MarkInfo"@, false),
        ("Lang"@, false),
        ("SpiderInfo"@, false),
        ("OutputIntents"@, true),
        ("PieceInfo"@, false),
        ("OCProperties"@, true),
        ("Perms"@, false),
        ("Legal"@, false),
        ("Requirements"@, false),
        ("Collection"@, true),
        ("NeedsRendering"@, false),
        ("DSS"@, false),
        ("AF"@, true),
        ("DPartRoot"@, false),
    ]
}

pub open spec fn spec_table_29(i: int) -> (Seq<char>, bool) {
    table_29_rows()[i]
}

/// The `i`th key of Table 29.
pub fn table_29(i: usize) -> (r: (&'static str, bool))
    requires
        i < CATALOG_KEYS,
    ensures
        r.0@ == spec_table_29(i as int).0,
        r.1 == spec_table_29(i as int).1,
{
    proof {
        reveal(table_29_rows);
    }
    match i {
        0 => ("Type", false),
        1 => ("Version", false),
        2 => ("Extensions", false),
        3 => ("Pages", false),
        4 => ("PageLabels", true),
        5 => ("Names", false),
        6 => ("Dests", false),
        7 => ("ViewerPreferences", false),
        8 => ("PageLayout", false),
        9 => ("PageMode", false),
        10 => ("Outlines", false),
        11 => ("Threads", true),
        12 => ("OpenAction", false),
        13 => ("AA", false),
        14 => ("URI", false),
        15 => ("AcroForm", true),
        16 => ("Metadata", false),
        17 => ("StructTreeRoot", false),
        18 => ("MarkInfo", false),
        19 => ("Lang", false),
        20 => ("SpiderInfo", false),
        21 => ("OutputIntents", true),
        22 => ("PieceInfo", false),
        23 => ("OCProperties", true),
        24 => ("Perms", false),
        25 => ("Legal", false),
        26 => ("Requirements", false),
        27 => ("Collection", true),
        28 => ("NeedsRendering", false),
        29 => ("DSS", false),
        30 => ("AF", true),
        31 => ("DPartRoot", false),
        _ => ("", false),
    }
}

/// The declared type of the schema's field for `key`, searching from the `i`th field.
pub open spec fn find_schema(key: Seq<char>, i: int) -> Option<Seq<char>>
    decreases CATALOG_KEYS - i,
{
    if i < 0 || i >= CATALOG_KEYS {
        None
    } else if spec_key_type(i).0 == key {
        Some(spec_key_type(i).1)
    } else {
        find_schema(key, i + 1)
    }
}

/// Table 29's flag for `key`, searching from the `i`th row.
pub open spec fn find_table(key: Seq<char>, i: int) -> Option<bool>
    decreases CATALOG_KEYS - i,
{
    if i < 0 || i >= CATALOG_KEYS {
        None
    } else if spec_table_29(i).0 == key {
        Some(spec_table_29(i).1)
    } else {
        find_table(key, i + 1)
    }
}

/// The support level for one key: the schema's field when there is one, and otherwise
/// what Table 29 says about a type existing for its contents.
pub open spec fn spec_support_for(key: Seq<char>) -> Support {
    match find_schema(key, 0) {
        Some(t) => if spec_models_contents(t) {
            Support::Modelled
        } else {
            Support::Declared
        },
        None => match find_table(key, 0) {
            Some(true) => Support::TypeOnly,
            _ => Support::Untyped,
        },
    }
}

/// The support level for one key.
pub fn support_for(key: &str) -> (r: Support)
    ensures
        r == spec_support_for(key@),
{
    let mut i: usize = 0;
    while i < CATALOG_KEYS
        invariant
            i <= CATALOG_KEYS,
            find_schema(key@, 0) == find_schema(key@, i as int),
        decreases CATALOG_KEYS - i,
    {
        let (k, t) = key_type(i);
        if str_eq(k, key) {
            return if models_contents(t) {
                Support::Modelled
            } else {
                Support::Declared
            };
        }
        i = i + 1;
    }
    let mut j: usize = 0;
    while j < CATALOG_KEYS
        invariant
            j <= CATALOG_KEYS,
            find_schema(key@, 0) == None::<Seq<char>>,
            find_table(key@, 0) == find_table(key@, j as int),
        decreases CATALOG_KEYS - j,
    {
        let (k, flag) = table_29(j);
        if str_eq(k, key) {
            return if flag {
                Support::TypeOnly
            } else {
                Support::Untyped
            };
        }
        j = j + 1;
    }
    Support::Untyped
}

/// Whether Table 29 defines `key`.
pub fn is_standard(key: &str) -> (r: bool)
    ensures
        r == find_table(key@, 0).is_some(),
{
    let mut j: usize = 0;
    while j < CATALOG_KEYS
        invariant
            j <= CATALOG_KEYS,
            find_table(key@, 0) == find_table(key@, j as int),
        decreases CATALOG_KEYS - j,
    {
        let (k, _) = table_29(j);
        if str_eq(k, key) {
            return true;
        }
        j = j + 1;
    }
    false
}

/// An integer written in decimal, with a minus sign when it is negative.
pub open spec fn int_text(n: int) -> Seq<char> {
    if n < 0 {
        "-"@ + decimal((-n) as nat)
    } else {
        decimal(n as nat)
    }
}

/// An integer written in decimal.
pub fn integer_text(n: i64) -> (r: String)
    ensures
        r@ == int_text(n as int),
{
    if n < 0 {
        let m: u64 = (0i128 - (n as i128)) as u64;
        concat(text("-"), decimal_text(m).as_str())
    } else {
        decimal_text(n as u64)
    }
}

/// One phrase for a value: enough to tell a dictionary from a name from an array. A
/// reference is followed to what it names, `depth` references deep at most: a chain
/// longer than the table holds objects has come back to one already described.
pub open spec fn spec_describe(arena: Arena, o: Object, depth: nat) -> Seq<char>
    decreases depth,
{
    match o {
        Object::Reference(n) => if (n as int) < arena.objects@.len() {
            if depth == 0 {
                decimal(n as nat) + " 0 R"@
            } else {
                decimal(n as nat) + " 0 R -> "@ + spec_describe(
                    arena,
                    arena.objects@[n as int],
                    (depth - 1) as nat,
                )
            }
        } else {
            decimal(n as nat) + " 0 R -> missing"@
        },
        Object::Dictionary(d) => "dictionary["@ + decimal(d.entries@.len()) + "]"@,
        Object::Array(a) => "array["@ + decimal(a@.len()) + "]"@,
        Object::Name(n) => "/"@ + n@,
        Object::String(b) => "string["@ + decimal(b@.len()) + "]"@,
        Object::Hex(b) => "hex string["@ + decimal(b@.len()) + "]"@,
        Object::Text(t) => "text["@ + decimal(t@.len()) + "]"@,
        Object::Integer(v) => int_text(v as int),
        Object::Real(r) => r@,
        Object::Boolean(b) => if b {
            "true"@
        } else {
            "false"@
        },
        Object::Stream(_, _) => "stream"@,
        Object::Null => "null"@,
    }
}

/// A count written after a word and an opening bracket, and closed.
fn counted(word: &str, n: usize) -> (r: String)
    ensures
        r@ == word@ + decimal(n as nat) + "]"@,
{
    concat(concat(text(word), decimal_text(n as u64).as_str()), "]")
}

/// One phrase for a value, references followed `depth` deep at most.
pub fn describe(arena: &Arena, o: &Object, depth: usize) -> (r: String)
    ensures
        r@ == spec_describe(*arena, *o, depth as nat),
    decreases depth,
{
    match o {
        Object::Reference(n) => {
            let head = decimal_text(*n as u64);
            if (*n as usize) < arena.objects.len() {
                if depth == 0 {
                    concat(head, " 0 R")
                } else {
                    let inner = describe(arena, &arena.objects[*n as usize], depth - 1);
                    concat(concat(head, " 0 R -> "), inner.as_str())
                }
            } else {
                concat(head, " 0 R -> missing")
            }
        },
        Object::Dictionary(d) => counted("dictionary[", d.entries.len()),
        Object::Array(a) => counted("array[", a.len()),
        Object::Name(n) => concat(text("/"), n.as_str()),
        Object::String(b) => counted("string[", b.len()),
        Object::Hex(b) => counted("hex string[", b.len()),
        Object::Text(t) => {
            let cs = chars_of(t.as_str());
            assert(cs@.len() == t@.len());
            counted("text[", cs.len())
        },
        Object::Integer(v) => integer_text(*v),
        Object::Real(r) => text(r.as_str()),
        Object::Boolean(b) => if *b {
            text("true")
        } else {
            text("false")
        },
        Object::Stream(_, _) => text("stream"),
        Object::Null => text("null"),
    }
}

/// One catalogue entry as a file writes it.
pub struct CatalogEntry {
    /// The key, without its leading solidus.
    pub key: String,
    /// What the value is, in one phrase.
    pub value: String,
    /// Whether Table 29 defines this key.
    pub standard: bool,
    /// How far the engine can go with it.
    pub support: Support,
}

/// The catalogue of one document, and what the engine can make of it.
pub struct CatalogReport {
    /// Entries this file's catalogue carries, in key order.
    pub entries: Vec<CatalogEntry>,
    /// Table 29 keys the file does not carry, in the table's order.
    pub absent: Vec<String>,
    /// What was decided reading this file.
    pub decisions: Vec<Decision>,
}

/// What the report says of the entry for `e.key` in the catalogue `d`.
pub open spec fn entry_reads(arena: Arena, d: Dict, e: CatalogEntry) -> bool {
    match d.spec_get(e.key@) {
        Some(v) => {
            &&& e.value@ == spec_describe(arena, v, arena.objects@.len() as nat)
            &&& e.standard == find_table(e.key@, 0).is_some()
            &&& e.support == spec_support_for(e.key@)
        },
        None => false,
    }
}

/// Keys strictly increasing: sorted, and none twice.
pub open spec fn keys_sorted(s: Seq<CatalogEntry>) -> bool {
    forall|i: int, j: int| 0 <= i < j < s.len() ==> lex_lt(#[trigger] s[i].key@, #[trigger] s[j].key@)
}

/// The Table 29 keys from the `i`th row on that the catalogue `d` does not carry.
pub open spec fn absent_from(d: Dict, i: int) -> Seq<Seq<char>>
    decreases CATALOG_KEYS - i,
{
    if i < 0 || i >= CATALOG_KEYS {
        Seq::empty()
    } else if d.spec_get(spec_table_29(i).0).is_some() {
        absent_from(d, i + 1)
    } else {
        seq![spec_table_29(i).0] + absent_from(d, i + 1)
    }
}

/// The catalogue a trailer names, as values.
pub open spec fn spec_catalog(arena: Arena, trailer: Dict) -> Option<Dict> {
    match trailer.spec_get("Root"@) {
        Some(root) => arena.spec_as_dict(root),
        None => None,
    }
}

/// Where the key `k` sits among sorted entries: the first entry not before it.
fn position_of(out: &Vec<CatalogEntry>, key: &str) -> (r: (usize, bool))
    requires
        keys_sorted(out@),
    ensures
        r.0 <= out@.len(),
        r.1 ==> r.0 < out@.len() && out@[r.0 as int].key@ == key@,
        !r.1 ==> (forall|i: int| 0 <= i < r.0 ==> lex_lt(#[trigger] out@[i].key@, key@)),
        !r.1 ==> (forall|i: int| r.0 <= i < out@.len() ==> lex_lt(key@, #[trigger] out@[i].key@)),
{
    let mut p: usize = 0;
    while p < out.len()
        invariant
            keys_sorted(out@),
            p <= out@.len(),
            forall|i: int| 0 <= i < p ==> lex_lt(#[trigger] out@[i].key@, key@),
        decreases out@.len() - p,
    {
        if str_eq(out[p].key.as_str(), key) {
            return (p, true);
        }
        if str_lt(key, out[p].key.as_str()) {
            assert forall|i: int| p <= i < out@.len() implies lex_lt(key@, #[trigger] out@[i].key@) by {
                if i > p {
                    lemma_lex_transitive(key@, out@[p as int].key@, out@[i].key@);
                }
            }
            return (p, false);
        }
        proof {
            lemma_lex_total(key@, out@[p as int].key@);
        }
        p = p + 1;
    }
    (p, false)
}

/// Inserting an entry where its key belongs keeps the keys strictly increasing.
pub proof fn lemma_insert_sorted(before: Seq<CatalogEntry>, p: int, e: CatalogEntry)
    requires
        0 <= p <= before.len(),
        keys_sorted(before),
        forall|i: int| 0 <= i < p ==> lex_lt(#[trigger] before[i].key@, e.key@),
        forall|i: int| p <= i < before.len() ==> lex_lt(e.key@, #[trigger] before[i].key@),
    ensures
        keys_sorted(before.insert(p, e)),
{
    let after = before.insert(p, e);
    assert forall|a: int, b: int| 0 <= a < b < after.len() implies lex_lt(
        #[trigger] after[a].key@,
        #[trigger] after[b].key@,
    ) by {
        if b < p {
            assert(after[a] == before[a] && after[b] == before[b]);
        } else if b == p {
            assert(after[a] == before[a]);
        } else if a < p {
            assert(after[a] == before[a] && after[b] == before[b - 1]);
            lemma_lex_transitive(before[a].key@, e.key@, before[b - 1].key@);
        } else if a == p {
            assert(after[b] == before[b - 1]);
        } else {
            assert(after[a] == before[a - 1] && after[b] == before[b - 1]);
        }
    }
}

/// The keys the entries carry.
pub open spec fn key_set(entries: Seq<CatalogEntry>) -> Set<Seq<char>> {
    Set::new(|k: Seq<char>| exists|i: int| 0 <= i < entries.len() && #[trigger] entries[i].key@ == k)
}

/// The keys among the first `j` entries of `d`.
pub open spec fn dict_key_set(d: Dict, j: int) -> Set<Seq<char>> {
    Set::new(|k: Seq<char>| exists|m: int| 0 <= m < j && #[trigger] d.entries@[m].0@ == k)
}

/// The entries hold one entry, sorted, for each distinct key among the first `j`
/// entries of `d`, and each says what the report says of that key.
pub open spec fn covers(arena: Arena, d: Dict, entries: Seq<CatalogEntry>, j: int) -> bool {
    &&& keys_sorted(entries)
    &&& forall|i: int| 0 <= i < entries.len() ==> entry_reads(arena, d, #[trigger] entries[i])
    &&& key_set(entries) == dict_key_set(d, j)
}

/// Adds the `j`th entry of the catalogue, unless an earlier one had its key.
fn add_entry(entries: &mut Vec<CatalogEntry>, arena: &Arena, d: &Dict, j: usize)
    requires
        j < d.entries@.len(),
        covers(*arena, *d, old(entries)@, j as int),
    ensures
        covers(*arena, *d, final(entries)@, j + 1),
{
    let key = d.entries[j].0.as_str();
    let ghost kv = key@;
    assert(dict_key_set(*d, j + 1) =~= dict_key_set(*d, j as int).insert(kv)) by {
        assert(d.entries@[j as int].0@ == kv);
    }
    let (p, found) = position_of(entries, key);
    if !found {
        proof {
            assert forall|k: int| 0 <= k < j implies d.entries@[k].0@ != kv by {
                if d.entries@[k].0@ == kv {
                    assert(dict_key_set(*d, j as int).contains(kv));
                    assert(key_set(entries@).contains(kv));
                    let i = choose|i: int| 0 <= i < entries@.len() && #[trigger] entries@[i].key@ == kv;
                    lemma_lex_irreflexive(kv);
                }
            }
            lemma_first_match_at(d.entries@, kv, j as int);
        }
        let e = CatalogEntry {
            key: text(key),
            value: describe(arena, &d.entries[j].1, arena.objects.len()),
            standard: is_standard(key),
            support: support_for(key),
        };
        assert(entry_reads(*arena, *d, e));
        let ghost before = entries@;
        entries.insert(p, e);
        proof {
            lemma_insert_sorted(before, p as int, e);
            assert forall|i: int| 0 <= i < entries@.len() implies entry_reads(*arena, *d, #[trigger] entries@[i]) by {
                if i < p {
                    assert(entries@[i] == before[i]);
                } else if i > p {
                    assert(entries@[i] == before[i - 1]);
                }
            }
            assert(key_set(entries@) =~= key_set(before).insert(kv)) by {
                assert forall|k: Seq<char>| key_set(entries@).contains(k) implies key_set(before).insert(kv).contains(k) by {
                    let i = choose|i: int| 0 <= i < entries@.len() && #[trigger] entries@[i].key@ == k;
                    if i < p {
                        assert(before[i] == entries@[i]);
                    } else if i > p {
                        assert(before[i - 1] == entries@[i]);
                    }
                }
                assert forall|k: Seq<char>| key_set(before).insert(kv).contains(k) implies key_set(entries@).contains(k) by {
                    if k == kv {
                        assert(entries@[p as int].key@ == k);
                    } else {
                        let i = choose|i: int| 0 <= i < before.len() && #[trigger] before[i].key@ == k;
                        if i < p {
                            assert(entries@[i] == before[i]);
                        } else {
                            assert(entries@[i + 1] == before[i]);
                        }
                    }
                }
            }
        }
    } else {
        assert(key_set(entries@).contains(kv)) by {
            assert(entries@[p as int].key@ == kv);
        }
        assert(key_set(entries@).insert(kv) =~= key_set(entries@));
    }
}

/// How many of the entries are at support level `s`.
pub open spec fn count_support(entries: Seq<CatalogEntry>, s: Support) -> nat
    decreases entries.len(),
{
    if entries.len() == 0 {
        0
    } else {
        count_support(entries.drop_last(), s) + if entries.last().support == s {
            1nat
        } else {
            0nat
        }
    }
}

/// The entries whose contents the engine cannot say anything about, in order.
pub open spec fn unmodelled_of(entries: Seq<CatalogEntry>) -> Seq<CatalogEntry>
    decreases entries.len(),
{
    if entries.len() == 0 {
        Seq::empty()
    } else if entries.last().support == Support::Modelled {
        unmodelled_of(entries.drop_last())
    } else {
        unmodelled_of(entries.drop_last()).push(entries.last())
    }
}

/// Every entry falls at exactly one level of support.
pub proof fn lemma_counts_add_up(entries: Seq<CatalogEntry>)
    ensures
        count_support(entries, Support::Modelled) + count_support(entries, Support::Declared)
            + count_support(entries, Support::TypeOnly) + count_support(entries, Support::Untyped)
            == entries.len(),
    decreases entries.len(),
{
    if entries.len() > 0 {
        lemma_counts_add_up(entries.drop_last());
    }
}

impl CatalogReport {
    /// Reports the catalogue that `trailer` names in `arena`, with the decisions taken
    /// reading the file.
    ///
    /// Fails when the trailer names no `/Root`, or names one that is not a dictionary.
    #[verifier::rlimit(40)]
    pub fn survey(arena: &Arena, trailer: &Dict, decisions: Vec<Decision>) -> (r: PdfResult<Self>)
        ensures
            trailer.spec_get("Root"@).is_none() ==> (r matches Err(PdfError::Arena(m)) && m@
                == "the file names no /Root"@),
            trailer.spec_get("Root"@).is_some() && spec_catalog(*arena, *trailer).is_none()
                ==> (r matches Err(PdfError::Arena(m)) && m@
                == "/Root does not resolve to a dictionary"@),
            spec_catalog(*arena, *trailer).is_some() <==> r is Ok,
            r matches Ok(report) ==> {
                let d = spec_catalog(*arena, *trailer).unwrap();
                &&& keys_sorted(report.entries@)
                &&& forall|i: int| 0 <= i < report.entries@.len() ==> entry_reads(*arena, d, #[trigger] report.entries@[i])
                &&& key_set(report.entries@) == dict_key_set(d, d.entries@.len() as int)
                &&& report.absent@.len() == absent_from(d, 0).len()
                &&& forall|i: int| 0 <= i < report.absent@.len() ==> #[trigger] report.absent@[i]@ == absent_from(d, 0)[i]
                &&& report.decisions == decisions
            },
    {
        let root = match trailer.get("Root") {
            Some(r) => r,
            None => {
                return Err(PdfError::Arena(text("the file names no /Root")));
            },
        };
        let d = match arena.as_dict(root) {
            Some(d) => d,
            None => {
                return Err(PdfError::Arena(text("/Root does not resolve to a dictionary")));
            },
        };
        let mut entries: Vec<CatalogEntry> = Vec::new();
        let mut j: usize = 0;
        assert(key_set(entries@) =~= dict_key_set(*d, 0));
        while j < d.entries.len()
            invariant
                j <= d.entries@.len(),
                covers(*arena, *d, entries@, j as int),
            decreases d.entries@.len() - j,
        {
            add_entry(&mut entries, arena, d, j);
            j = j + 1;
        }
        assert(covers(*arena, *d, entries@, d.entries@.len() as int));
        let mut absent: Vec<String> = Vec::new();
        let mut t: usize = 0;
        while t < CATALOG_KEYS
            invariant
                t <= CATALOG_KEYS,
                covers(*arena, *d, entries@, d.entries@.len() as int),
                absent@.len() + absent_from(*d, t as int).len() == absent_from(*d, 0).len(),
                forall|i: int| 0 <= i < absent@.len() ==> #[trigger] absent@[i]@ == absent_from(*d, 0)[i],
                forall|i: int| 0 <= i < absent_from(*d, t as int).len() ==> absent_from(*d, t as int)[i]
                    == absent_from(*d, 0)[absent@.len() + i],
            decreases CATALOG_KEYS - t,
        {
            let (k, _) = table_29(t);
            let (p, found) = position_of(&entries, k);
            proof {
                lemma_first_match_some(d.entries@, k@);
                if found {
                    assert(key_set(entries@).contains(k@)) by {
                        assert(entries@[p as int].key@ == k@);
                    }
                    let m = choose|m: int| 0 <= m < d.entries@.len() && #[trigger] d.entries@[m].0@ == k@;
                } else {
                    if d.spec_get(k@).is_some() {
                        let m = choose|m: int| 0 <= m < d.entries@.len() && #[trigger] d.entries@[m].0@ == k@;
                        assert(dict_key_set(*d, d.entries@.len() as int).contains(k@));
                        assert(key_set(entries@).contains(k@));
                        let i = choose|i: int| 0 <= i < entries@.len() && #[trigger] entries@[i].key@ == k@;
                        lemma_lex_irreflexive(k@);
                        assert(false);
                    }
                }
            }
            if !found {
                proof {
                    assert(absent_from(*d, t as int) == seq![k@] + absent_from(*d, t + 1));
                    assert(absent_from(*d, t as int)[0] == k@);
                }
                absent.push(text(k));
                proof {
                    let next: int = t + 1;
                    let tail = absent_from(*d, next);
                    assert forall|i: int| 0 <= i < tail.len() implies #[trigger] tail[i]
                        == absent_from(*d, 0)[absent@.len() + i] by {
                        assert(tail[i] == absent_from(*d, t as int)[i + 1]);
                    }
                }
            }
            t = t + 1;
        }
        Ok(CatalogReport { entries, absent, decisions })
    }

    /// How many present entries fall at each level of support: modelled, declared,
    /// type-only, untyped. The four add up to the number of entries.
    pub fn support_counts(&self) -> (r: (usize, usize, usize, usize))
        ensures
            r.0 == count_support(self.entries@, Support::Modelled),
            r.1 == count_support(self.entries@, Support::Declared),
            r.2 == count_support(self.entries@, Support::TypeOnly),
            r.3 == count_support(self.entries@, Support::Untyped),
            r.0 + r.1 + r.2 + r.3 == self.entries@.len(),
    {
        let mut m: usize = 0;
        let mut d: usize = 0;
        let mut t: usize = 0;
        let mut u: usize = 0;
        let mut i: usize = 0;
        while i < self.entries.len()
            invariant
                i <= self.entries@.len(),
                m == count_support(self.entries@.take(i as int), Support::Modelled),
                d == count_support(self.entries@.take(i as int), Support::Declared),
                t == count_support(self.entries@.take(i as int), Support::TypeOnly),
                u == count_support(self.entries@.take(i as int), Support::Untyped),
            decreases self.entries@.len() - i,
        {
            proof {
                lemma_counts_add_up(self.entries@.take(i as int));
                assert(self.entries@.take(i + 1).drop_last() =~= self.entries@.take(i as int));
            }
            match self.entries[i].support {
                Support::Modelled => m = m + 1,
                Support::Declared => d = d + 1,
                Support::TypeOnly => t = t + 1,
                Support::Untyped => u = u + 1,
            }
            i = i + 1;
        }
        proof {
            assert(self.entries@.take(i as int) =~= self.entries@);
            lemma_counts_add_up(self.entries@);
        }
        (m, d, t, u)
    }

    /// Present entries whose contents the engine cannot say anything about, a declared
    /// one among them: its field makes the entry reachable, not legible.
    pub fn unmodelled(&self) -> (r: Vec<&CatalogEntry>)
        ensures
            r@.len() == unmodelled_of(self.entries@).len(),
            forall|i: int| 0 <= i < r@.len() ==> *r@[i] == #[trigger] unmodelled_of(self.entries@)[i],
    {
        let mut out: Vec<&CatalogEntry> = Vec::new();
        let mut i: usize = 0;
        while i < self.entries.len()
            invariant
                i <= self.entries@.len(),
                out@.len() == unmodelled_of(self.entries@.take(i as int)).len(),
                forall|k: int| 0 <= k < out@.len() ==> *out@[k] == #[trigger] unmodelled_of(self.entries@.take(i as int))[k],
            decreases self.entries@.len() - i,
        {
            assert(self.entries@.take(i + 1).drop_last() =~= self.entries@.take(i as int));
            if !self.entries[i].support.models_contents() {
                out.push(&self.entries[i]);
            }
            i = i + 1;
        }
        assert(self.entries@.take(i as int) =~= self.entries@);
        out
    }

    /// Every Table 29 key, in the table's order, with the support the engine claims for
    /// it: the whole gap, independent of any file.
    pub fn coverage() -> (r: Vec<(String, Support)>)
        ensures
            r@.len() == CATALOG_KEYS,
            forall|i: int| 0 <= i < CATALOG_KEYS ==> (#[trigger] r@[i]).0@ == spec_table_29(i).0 && r@[i].1
                == spec_support_for(spec_table_29(i).0),
    {
        let mut out: Vec<(String, Support)> = Vec::new();
        let mut i: usize = 0;
        while i < CATALOG_KEYS
            invariant
                i <= CATALOG_KEYS,
                out@.len() == i,
                forall|k: int| 0 <= k < i ==> (#[trigger] out@[k]).0@ == spec_table_29(k).0 && out@[k].1
                    == spec_support_for(spec_table_29(k).0),
            decreases CATALOG_KEYS - i,
        {
            let (k, _) = table_29(i);
            out.push((text(k), support_for(k)));
            i = i + 1;
        }
        out
    }

}

} // verus!
