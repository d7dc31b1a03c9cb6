//! Annotations (12.5): every entry Table 166 defines for all of them, and the entries
//! the subtypes a corpus carries more than once add on top.
//!
//! Which entries this engine reads for an annotation is derived from one key list per
//! dictionary, so the report and the readers cannot drift apart.

use crate::error::{text, PdfError, PdfResult};
use crate::object::{str_eq, Arena, Dict, Object};
use crate::text::{
    extend_sorted_slices, insert_sorted, slice_views, str_set, strictly_sorted, views,
};
use vstd::prelude::*;

verus! {

/// Whether bit `n` of `bits` is set, bits numbered from 1 as Table 167 numbers them.
pub open spec fn flag_bit(bits: i64, n: i64) -> bool {
    bits & (1i64 << ((n - 1) as u64)) != 0
}

/// Table 167 defines bits 1 to 10 and no others: a flag reads the same from `bits` as
/// from its ten low bits, and none is set in 0.
pub proof fn law_flags_read_only_the_defined_bits(bits: i64)
    ensures
        forall|n: i64| 1 <= n <= 10 ==> #[trigger] flag_bit(bits, n) == flag_bit(bits & 0x3FF, n),
        forall|n: i64| 1 <= n <= 10 ==> !#[trigger] flag_bit(0, n),
{
    assert forall|n: i64| 1 <= n <= 10 implies #[trigger] flag_bit(bits, n) == flag_bit(bits & 0x3FF, n) by {
        let s = (n - 1) as u64;
        assert((bits & (1i64 << s) != 0) == ((bits & 0x3FF) & (1i64 << s) != 0)) by (bit_vector)
            requires
                s < 10,
        ;
    }
    assert forall|n: i64| 1 <= n <= 10 implies !#[trigger] flag_bit(0, n) by {
        let s = (n - 1) as u64;
        assert(0i64 & (1i64 << s) == 0) by (bit_vector);
    }
}

/// The flags of Table 167, as flags rather than as an integer.
#[derive(Clone, Copy, Debug, PartialEq, Eq, Structural)]
pub struct AnnotationFlags {
    /// Bit 1: ignore the annotation if its subtype is unknown.
    pub invisible: bool,
    /// Bit 2: do not display or print it.
    pub hidden: bool,
    /// Bit 3: print it.
    pub print: bool,
    /// Bit 4: do not scale it with the page.
    pub no_zoom: bool,
    /// Bit 5: do not rotate it with the page.
    pub no_rotate: bool,
    /// Bit 6: display but do not view — printed only.
    pub no_view: bool,
    /// Bit 7: do not let the user interact with it.
    pub read_only: bool,
    /// Bit 8: do not let the user delete or move it; its contents stay editable.
    pub locked: bool,
    /// Bit 9: invert `no_view` when the annotation is selected.
    pub toggle_no_view: bool,
    /// Bit 10: do not let the user change its contents.
    pub locked_contents: bool,
}

impl AnnotationFlags {
    /// Reads Table 167's bit positions, which are numbered from 1.
    pub fn from_bits(bits: i64) -> (f: Self)
        ensures
            f.invisible == flag_bit(bits, 1),
            f.hidden == flag_bit(bits, 2),
            f.print == flag_bit(bits, 3),
            f.no_zoom == flag_bit(bits, 4),
            f.no_rotate == flag_bit(bits, 5),
            f.no_view == flag_bit(bits, 6),
            f.read_only == flag_bit(bits, 7),
            f.locked == flag_bit(bits, 8),
            f.toggle_no_view == flag_bit(bits, 9),
            f.locked_contents == flag_bit(bits, 10),
    {
        AnnotationFlags {
            invisible: bits & (1i64 << 0u64) != 0,
            hidden: bits & (1i64 << 1u64) != 0,
            print: bits & (1i64 << 2u64) != 0,
            no_zoom: bits & (1i64 << 3u64) != 0,
            no_rotate: bits & (1i64 << 4u64) != 0,
            no_view: bits & (1i64 << 5u64) != 0,
            read_only: bits & (1i64 << 6u64) != 0,
            locked: bits & (1i64 << 7u64) != 0,
            toggle_no_view: bits & (1i64 << 8u64) != 0,
            locked_contents: bits & (1i64 << 9u64) != 0,
        }
    }

    /// Reads `/F`, which is a bit field: an integer, through a reference.
    pub fn read(arena: &Arena, o: &Object) -> (r: PdfResult<Self>)
        ensures
            arena.spec_integer_of(*o) matches Some(n) ==> r == Ok::<Self, PdfError>(
                AnnotationFlags {
                    invisible: flag_bit(n, 1),
                    hidden: flag_bit(n, 2),
                    print: flag_bit(n, 3),
                    no_zoom: flag_bit(n, 4),
                    no_rotate: flag_bit(n, 5),
                    no_view: flag_bit(n, 6),
                    read_only: flag_bit(n, 7),
                    locked: flag_bit(n, 8),
                    toggle_no_view: flag_bit(n, 9),
                    locked_contents: flag_bit(n, 10),
                },
            ),
            arena.spec_integer_of(*o) is None ==> (r matches Err(PdfError::Other(m)) && m@ == "/F is a bit field"@),
    {
        match arena.integer_of(o) {
            Some(n) => Ok(AnnotationFlags::from_bits(n)),
            None => Err(PdfError::Other(text("/F is a bit field"))),
        }
    }
}

/// One of `/AP`'s three entries: a single stream, or a set of named states.
pub enum AppearanceEntry {
    /// One appearance stream, by object number.
    Stream(u32),
    /// A state name for each appearance the annotation can take, sorted. `/AS` selects
    /// one.
    States(Vec<String>),
}

/// `/AP`, the streams that draw the annotation (12.5.5, Table 170).
pub struct Appearance {
    /// `/N`: the normal appearance, the one that is printed.
    pub normal: Option<AppearanceEntry>,
    /// `/R`: the rollover appearance.
    pub rollover: Option<AppearanceEntry>,
    /// `/D`: the down appearance.
    pub down: Option<AppearanceEntry>,
}

/// The keys of the first `j` entries of `d`.
pub open spec fn keys_upto(d: Dict, j: int) -> Set<Seq<char>> {
    Set::new(|k: Seq<char>| exists|m: int| 0 <= m < j && #[trigger] d.entries@[m].0@ == k)
}

/// What one `/AP` entry holds: a stream by its number — streams are indirect
/// objects (7.3.8) — or the names of a dictionary of states.
pub open spec fn entry_reads(arena: Arena, value: Option<Object>, e: Option<AppearanceEntry>) -> bool {
    match value {
        Some(v) => match arena.spec_resolve(v) {
            Object::Stream(_, _) => match v {
                Object::Reference(n) => e == Some(AppearanceEntry::Stream(n)),
                _ => e is None,
            },
            Object::Dictionary(states) => e matches Some(AppearanceEntry::States(names)) && strictly_sorted(views(names@))
                && str_set(names@) == keys_upto(states, states.entries@.len() as int),
            _ => e is None,
        },
        None => e is None,
    }
}

/// The sorted, distinct keys of a dictionary.
fn sorted_keys(d: &Dict) -> (r: Vec<String>)
    ensures
        strictly_sorted(views(r@)),
        str_set(r@) == keys_upto(*d, d.entries@.len() as int),
{
    let mut out: Vec<String> = Vec::new();
    let mut j: usize = 0;
    assert(str_set(out@) =~= keys_upto(*d, 0));
    while j < d.entries.len()
        invariant
            j <= d.entries@.len(),
            strictly_sorted(views(out@)),
            str_set(out@) == keys_upto(*d, j as int),
        decreases d.entries@.len() - j,
    {
        insert_sorted(&mut out, d.entries[j].0.as_str());
        assert(str_set(out@) =~= keys_upto(*d, j + 1)) by {
            assert(d.entries@[j as int].0@ == d.entries@[j as int].0@);
        }
        j = j + 1;
    }
    out
}

/// Reads one of `/AP`'s entries.
fn appearance_entry(arena: &Arena, d: &Dict, key: &str) -> (r: Option<AppearanceEntry>)
    ensures
        entry_reads(*arena, d.spec_get(key@), r),
{
    let value = match d.get(key) {
        Some(v) => v,
        None => {
            return None;
        },
    };
    match arena.resolve(value) {
        Object::Stream(_, _) => match value {
            Object::Reference(n) => Some(AppearanceEntry::Stream(*n)),
            _ => None,
        },
        Object::Dictionary(states) => Some(AppearanceEntry::States(sorted_keys(states))),
        _ => None,
    }
}

impl Appearance {
    /// Reads `/AP`: each of `/N`, `/R` and `/D` kept as one stream or as a set of
    /// states, because "one appearance" and "a set of them, one selected" are
    /// different facts about the file.
    pub fn read(arena: &Arena, o: &Object) -> (r: PdfResult<Self>)
        ensures
            arena.spec_dict_of(*o) is None ==> (r matches Err(PdfError::Other(m)) && m@
                == "/AP is not a dictionary"@),
            arena.spec_dict_of(*o) matches Some(d) ==> (r matches Ok(a) && entry_reads(
                *arena,
                d.spec_get("N"@),
                a.normal,
            ) && entry_reads(*arena, d.spec_get("R"@), a.rollover) && entry_reads(
                *arena,
                d.spec_get("D"@),
                a.down,
            )),
    {
        let d = match arena.dict_of(o) {
            Some(d) => d,
            None => {
                return Err(PdfError::Other(text("/AP is not a dictionary")));
            },
        };
        Ok(Appearance {
            normal: appearance_entry(arena, d, "N"),
            rollover: appearance_entry(arena, d, "R"),
            down: appearance_entry(arena, d, "D"),
        })
    }
}

/// Entries a *markup* annotation adds (12.5.6.2, Table 172).
pub struct MarkupEntries {
    /// `/T`: the text label, by convention who made the annotation.
    pub title: Option<String>,
    /// `/Popup`: the pop-up annotation that displays this one's text.
    pub popup: Option<u32>,
    /// `/RC`: rich text, as a stream or a string.
    pub rich_contents: Option<Object>,
    /// `/CreationDate`: when the annotation was made, as written.
    pub created: Option<String>,
    /// `/IRT`: the annotation this one replies to.
    pub in_reply_to: Option<u32>,
    /// `/Subj`: what the annotation is about.
    pub subject: Option<String>,
    /// `/RT`: whether `/IRT` means a reply or a group.
    pub reply_type: Option<String>,
    /// `/IT`: the intent, which narrows what the subtype means.
    pub intent: Option<String>,
    /// `/ExData`: external data. Reachable, not modelled.
    pub external_data: Option<Object>,
}

/// Entries a `/Movie` adds (12.5.6.17, Table 187).
pub struct MovieEntries {
    /// `/Movie`: the movie itself. Reachable, not modelled.
    pub movie: Option<Object>,
    /// `/A`: whether and how to play it.
    pub activation: Option<Object>,
}

/// Entries a `/Stamp` adds (12.5.6.12, Table 181).
pub struct StampEntries {
    /// `/Name`: which standard stamp it is.
    pub name: Option<String>,
}

/// Entries a `/Popup` adds (12.5.6.14, Table 184).
pub struct PopupEntries {
    /// `/Parent`: the markup annotation this pops up for.
    pub parent: Option<u32>,
    /// `/Open`: whether it is displayed open.
    pub open: Option<bool>,
}

/// The entries Table 166 defines for every annotation, in the order the annotation's reader declares them.
pub open spec fn spec_annotation_keys() -> Seq<Seq<char>> {
    seq!["Type"@, "Subtype"@, "Rect"@, "Contents"@, "P"@, "NM"@, "M"@, "F"@, "AP"@, "AS"@, "Border"@, "C"@, "StructParent"@, "OC"@, "AF"@, "ca"@, "CA"@, "BM"@, "Lang"@]
}

/// The entries Table 166 defines for every annotation, in the order the annotation's reader declares them.
pub fn annotation_keys() -> (r: Vec<&'static str>)
    ensures
        slice_views(r@) == spec_annotation_keys(),
{
    let r: Vec<&'static str> = vec!["Type", "Subtype", "Rect", "Contents", "P", "NM", "M", "F", "AP", "AS", "Border", "C", "StructParent", "OC", "AF", "ca", "CA", "BM", "Lang"];
    assert(slice_views(r@) =~= spec_annotation_keys());
    r
}

/// The entries a markup annotation adds (Table 172).
pub open spec fn spec_markup_keys() -> Seq<Seq<char>> {
    seq!["T"@, "Popup"@, "RC"@, "CreationDate"@, "IRT"@, "Subj"@, "RT"@, "IT"@, "ExData"@]
}

/// The entries a markup annotation adds (Table 172).
pub fn markup_keys() -> (r: Vec<&'static str>)
    ensures
        slice_views(r@) == spec_markup_keys(),
{
    let r: Vec<&'static str> = vec!["T", "Popup", "RC", "CreationDate", "IRT", "Subj", "RT", "IT", "ExData"];
    assert(slice_views(r@) =~= spec_markup_keys());
    r
}

/// The entries a `/Link` adds (Table 176).
pub open spec fn spec_link_keys() -> Seq<Seq<char>> {
    seq!["A"@, "Dest"@, "H"@, "PA"@, "QuadPoints"@, "BS"@]
}

/// The entries a `/Link` adds (Table 176).
pub fn link_keys() -> (r: Vec<&'static str>)
    ensures
        slice_views(r@) == spec_link_keys(),
{
    let r: Vec<&'static str> = vec!["A", "Dest", "H", "PA", "QuadPoints", "BS"];
    assert(slice_views(r@) =~= spec_link_keys());
    r
}

/// The entries a `/Popup` adds (Table 184).
pub open spec fn spec_popup_keys() -> Seq<Seq<char>> {
    seq!["Parent"@, "Open"@]
}

/// The entries a `/Popup` adds (Table 184).
pub fn popup_keys() -> (r: Vec<&'static str>)
    ensures
        slice_views(r@) == spec_popup_keys(),
{
    let r: Vec<&'static str> = vec!["Parent", "Open"];
    assert(slice_views(r@) =~= spec_popup_keys());
    r
}

/// The entries a `/Square` or a `/Circle` adds (Table 178).
pub open spec fn spec_square_circle_keys() -> Seq<Seq<char>> {
    seq!["BS"@, "IC"@, "BE"@, "RD"@]
}

/// The entries a `/Square` or a `/Circle` adds (Table 178).
pub fn square_circle_keys() -> (r: Vec<&'static str>)
    ensures
        slice_views(r@) == spec_square_circle_keys(),
{
    let r: Vec<&'static str> = vec!["BS", "IC", "BE", "RD"];
    assert(slice_views(r@) =~= spec_square_circle_keys());
    r
}

/// The entries a `/Movie` adds (Table 187).
pub open spec fn spec_movie_keys() -> Seq<Seq<char>> {
    seq!["Movie"@, "A"@]
}

/// The entries a `/Movie` adds (Table 187).
pub fn movie_keys() -> (r: Vec<&'static str>)
    ensures
        slice_views(r@) == spec_movie_keys(),
{
    let r: Vec<&'static str> = vec!["Movie", "A"];
    assert(slice_views(r@) =~= spec_movie_keys());
    r
}

/// The entries a `/Stamp` adds (Table 181).
pub open spec fn spec_stamp_keys() -> Seq<Seq<char>> {
    seq!["Name"@]
}

/// The entries a `/Stamp` adds (Table 181).
pub fn stamp_keys() -> (r: Vec<&'static str>)
    ensures
        slice_views(r@) == spec_stamp_keys(),
{
    let r: Vec<&'static str> = vec!["Name"];
    assert(slice_views(r@) =~= spec_stamp_keys());
    r
}

/// The entries a `/Widget` adds (Table 189).
pub open spec fn spec_widget_keys() -> Seq<Seq<char>> {
    seq!["H"@, "MK"@, "A"@, "AA"@, "BS"@, "Parent"@]
}

/// The entries a `/Widget` adds (Table 189).
pub fn widget_keys() -> (r: Vec<&'static str>)
    ensures
        slice_views(r@) == spec_widget_keys(),
{
    let r: Vec<&'static str> = vec!["H", "MK", "A", "AA", "BS", "Parent"];
    assert(slice_views(r@) =~= spec_widget_keys());
    r
}

/// The field entries a `/Widget` carries when it is its own form field, and which the form walk reads (12.7.4.2); `/DR` is not among them: the form's is read, a field's own is not.
pub open spec fn spec_field_entries_read() -> Seq<Seq<char>> {
    seq!["FT"@, "T"@, "Ff"@, "V"@, "DA"@, "Kids"@]
}

/// The field entries a `/Widget` carries when it is its own form field, and which the form walk reads (12.7.4.2); `/DR` is not among them: the form's is read, a field's own is not.
pub fn field_entries_read() -> (r: Vec<&'static str>)
    ensures
        slice_views(r@) == spec_field_entries_read(),
{
    let r: Vec<&'static str> = vec!["FT", "T", "Ff", "V", "DA", "Kids"];
    assert(slice_views(r@) =~= spec_field_entries_read());
    r
}

/// The subtypes 12.5.6.2 defines as markup annotations.
pub open spec fn spec_markup_subtypes() -> Seq<Seq<char>> {
    seq!["Text"@, "FreeText"@, "Line"@, "Square"@, "Circle"@, "Polygon"@, "PolyLine"@, "Highlight"@, "Underline"@, "Squiggly"@, "StrikeOut"@, "Stamp"@, "Caret"@, "Ink"@, "FileAttachment"@, "Sound"@, "Movie"@, "Redact"@, "Projection"@]
}

/// The subtypes 12.5.6.2 defines as markup annotations.
pub fn markup_subtypes() -> (r: Vec<&'static str>)
    ensures
        slice_views(r@) == spec_markup_subtypes(),
{
    let r: Vec<&'static str> = vec!["Text", "FreeText", "Line", "Square", "Circle", "Polygon", "PolyLine", "Highlight", "Underline", "Squiggly", "StrikeOut", "Stamp", "Caret", "Ink", "FileAttachment", "Sound", "Movie", "Redact", "Projection"];
    assert(slice_views(r@) =~= spec_markup_subtypes());
    r
}


/// Whether `subtype` is a markup annotation.
pub fn is_markup(subtype: &str) -> (r: bool)
    ensures
        r == spec_markup_subtypes().contains(subtype@),
{
    let list = markup_subtypes();
    let mut i: usize = 0;
    while i < list.len()
        invariant
            slice_views(list@) == spec_markup_subtypes(),
            i <= list@.len(),
            forall|k: int| 0 <= k < i ==> spec_markup_subtypes()[k] != subtype@,
        decreases list@.len() - i,
    {
        assert(slice_views(list@)[i as int] == list@[i as int]@);
        if str_eq(list[i], subtype) {
            return true;
        }
        i = i + 1;
    }
    false
}

/// The entries this engine reads for an annotation of `subtype`, beyond Table 166's.
pub open spec fn subtype_keys(subtype: Seq<char>) -> Set<Seq<char>> {
    if subtype == "Link"@ {
        spec_link_keys().to_set()
    } else if subtype == "Popup"@ {
        spec_popup_keys().to_set()
    } else if subtype == "Square"@ || subtype == "Circle"@ {
        spec_square_circle_keys().to_set()
    } else if subtype == "Movie"@ {
        spec_movie_keys().to_set()
    } else if subtype == "Stamp"@ {
        spec_stamp_keys().to_set()
    } else if subtype == "Widget"@ {
        spec_widget_keys().to_set().union(spec_field_entries_read().to_set())
    } else {
        Set::empty()
    }
}

/// Every entry this engine reads for an annotation of `subtype`: Table 166's, Table
/// 172's for a markup subtype, and the subtype's own.
pub open spec fn spec_entries_read_for(subtype: Seq<char>) -> Set<Seq<char>> {
    spec_annotation_keys().to_set().union(
        if spec_markup_subtypes().contains(subtype) {
            spec_markup_keys().to_set()
        } else {
            Set::empty()
        },
    ).union(subtype_keys(subtype))
}

/// Which entries this engine reads for an annotation of `subtype`, sorted and each once.
///
/// Derived from the readers' key lists, so it cannot drift from what the code reads.
pub fn entries_read_for(subtype: &str) -> (r: Vec<&'static str>)
    ensures
        strictly_sorted(slice_views(r@)),
        slice_views(r@).to_set() == spec_entries_read_for(subtype@),
{
    let mut keys: Vec<&'static str> = Vec::new();
    assert(slice_views(keys@).to_set() =~= Set::<Seq<char>>::empty());
    extend_sorted_slices(&mut keys, &annotation_keys());
    let markup = is_markup(subtype);
    if markup {
        extend_sorted_slices(&mut keys, &markup_keys());
    }
    let ghost base = slice_views(keys@).to_set();
    assert(base == spec_annotation_keys().to_set().union(
        if spec_markup_subtypes().contains(subtype@) {
            spec_markup_keys().to_set()
        } else {
            Set::empty()
        },
    )) by {
        assert(Set::<Seq<char>>::empty().union(spec_annotation_keys().to_set()) =~= spec_annotation_keys().to_set());
        assert(spec_annotation_keys().to_set().union(Set::<Seq<char>>::empty()) =~= spec_annotation_keys().to_set());
    }
    if str_eq(subtype, "Link") {
        extend_sorted_slices(&mut keys, &link_keys());
    } else if str_eq(subtype, "Popup") {
        extend_sorted_slices(&mut keys, &popup_keys());
    } else if str_eq(subtype, "Square") || str_eq(subtype, "Circle") {
        extend_sorted_slices(&mut keys, &square_circle_keys());
    } else if str_eq(subtype, "Movie") {
        extend_sorted_slices(&mut keys, &movie_keys());
    } else if str_eq(subtype, "Stamp") {
        extend_sorted_slices(&mut keys, &stamp_keys());
    } else if str_eq(subtype, "Widget") {
        extend_sorted_slices(&mut keys, &widget_keys());
        extend_sorted_slices(&mut keys, &field_entries_read());
        assert(base.union(spec_widget_keys().to_set()).union(spec_field_entries_read().to_set()) =~= base.union(spec_widget_keys().to_set().union(spec_field_entries_read().to_set())));
    } else {
        assert(base.union(Set::<Seq<char>>::empty()) =~= base);
    }
    keys
}

} // verus!
