//! What a file's layout is, as ISO 32000-2 clause 7.5 describes it: revisions,
//! cross-reference form, where objects are stored, which filters its streams name, and
//! every decision the reader took getting there.
//!
//! The census works on what the cross-reference reader found and on the object table
//! the document reader assembled; reading the bytes into those is the readers' work.

use crate::decision::{Decision, Severity};
use crate::filters::{is_decoded, spec_filter_for};
use crate::object::{str_eq, Arena, Dict, Object};
use crate::text::{lemma_lex_irreflexive, lemma_lex_total, lemma_lex_transitive, lex_lt, str_lt};
use vstd::prelude::*;

verus! {

/// One cross-reference section, which is to say one revision of the file (7.5.6).
#[derive(Debug)]
pub struct Revision {
    /// 1 is the original file; higher numbers are incremental updates.
    pub index: usize,
    /// Byte offset of the section, as `startxref` and `/Prev` give it.
    pub offset: u64,
    /// How many objects this section alone defines.
    pub entries: usize,
    /// Whether this section carries a trailer dictionary.
    pub has_trailer: bool,
    /// Which of the two forms it is written in: `table` or `stream`.
    pub form: String,
}

/// Where the objects of the newest revision live.
#[derive(Debug)]
pub struct ObjectCensus {
    /// Highest object number the cross-reference names.
    pub highest_number: u32,
    /// Objects written directly in the file.
    pub in_file: usize,
    /// Slots marked free.
    pub free: usize,
    /// Objects carried inside an object stream (7.5.7).
    pub in_object_stream: usize,
    /// Whether these counts come from scanning the file rather than from its
    /// cross-reference.
    pub from_scan: bool,
}

/// One `/Type /ObjStm` and how much of the file it carries.
#[derive(Debug, Clone, Copy)]
pub struct ObjectStream {
    /// Object number of the container.
    pub container: u32,
    /// How many objects the newest cross-reference still places inside it.
    pub carries: usize,
}

/// One stream filter the file names (7.4), and where it sits.
#[derive(Debug)]
pub struct FilterUse {
    /// The filter's name exactly as the file writes it, abbreviations included.
    pub name: String,
    /// How many streams name it.
    pub streams: usize,
    /// How many of those are image XObjects.
    pub on_images: usize,
    /// Whether this engine decodes it.
    pub decoded: bool,
}

/// A file's layout, and what had to be decided to read it.
pub struct FileStructure {
    /// Version from the `%PDF-` header.
    pub version: String,
    /// Where the header was found. Anything but 0 means bytes precede it (7.5.2).
    pub header_offset: usize,
    /// Total size of the file in bytes.
    pub size: usize,
    /// Cross-reference sections, oldest first.
    pub revisions: Vec<Revision>,
    /// Where the objects of the merged cross-reference live.
    pub objects: ObjectCensus,
    /// Object streams, largest first.
    pub object_streams: Vec<ObjectStream>,
    /// Whether the trailer declares `/Encrypt` (7.6).
    pub encrypted: bool,
    /// Whether the file names a `/Root`.
    pub declares_root: bool,
    /// Object numbers defined by more than one revision.
    pub superseded: usize,
    /// Every decision the reader took, in the order taken.
    pub decisions: Vec<Decision>,
    /// Which filters the file's streams name, most used first.
    pub filters: Vec<FilterUse>,
}

/// How many of the decisions are of severity `s`.
pub open spec fn count_severity(ds: Seq<Decision>, s: Severity) -> nat
    decreases ds.len(),
{
    if ds.len() == 0 {
        0
    } else {
        count_severity(ds.drop_last(), s) + if ds.last().severity == s {
            1nat
        } else {
            0nat
        }
    }
}

/// A count is at most the number of decisions.
pub proof fn lemma_severity_bounded(ds: Seq<Decision>, s: Severity)
    ensures
        count_severity(ds, s) <= ds.len(),
    decreases ds.len(),
{
    if ds.len() > 0 {
        lemma_severity_bounded(ds.drop_last(), s);
    }
}

/// The names an array's elements resolve to, in order; other elements name none.
pub open spec fn names_in(arena: Arena, items: Seq<Object>) -> Seq<Seq<char>>
    decreases items.len(),
{
    if items.len() == 0 {
        Seq::empty()
    } else {
        match arena.spec_name_of(items.last()) {
            Some(n) => names_in(arena, items.drop_last()).push(n),
            None => names_in(arena, items.drop_last()),
        }
    }
}

/// The filters a `/Filter` entry names: one name, or an array of them.
pub open spec fn filter_names_of(arena: Arena, f: Object) -> Seq<Seq<char>> {
    match arena.spec_resolve(f) {
        Object::Name(n) => seq![n@],
        Object::Array(a) => names_in(arena, a@),
        _ => Seq::empty(),
    }
}

/// Whether a stream dictionary is an image's: `/Subtype` names `Image`.
pub open spec fn on_image(arena: Arena, d: Dict) -> bool {
    match d.spec_get("Subtype"@) {
        Some(o) => arena.spec_name_of(o) == Some("Image"@),
        None => false,
    }
}

/// Each filter a stream names, with whether the stream is an image's. Anything that is
/// not a stream names no filter: a `/Filter` in an encryption dictionary is a security
/// handler.
pub open spec fn stream_uses(arena: Arena, o: Object) -> Seq<(Seq<char>, bool)> {
    match o {
        Object::Stream(d, _) => match d.spec_get("Filter"@) {
            Some(f) => {
                let img = on_image(arena, d);
                filter_names_of(arena, f).map_values(|n: Seq<char>| (n, img))
            },
            None => Seq::empty(),
        },
        _ => Seq::empty(),
    }
}

/// The uses of the first `n` objects of the table, in order.
pub open spec fn uses_upto(arena: Arena, n: int) -> Seq<(Seq<char>, bool)>
    decreases n,
{
    if n <= 0 || n > arena.objects@.len() {
        Seq::empty()
    } else {
        uses_upto(arena, n - 1) + stream_uses(arena, arena.objects@[n - 1])
    }
}

/// Every use of a filter in the object table.
pub open spec fn all_uses(arena: Arena) -> Seq<(Seq<char>, bool)> {
    uses_upto(arena, arena.objects@.len() as int)
}

/// How many of the uses name `name`.
pub open spec fn count_of(uses: Seq<(Seq<char>, bool)>, name: Seq<char>) -> nat
    decreases uses.len(),
{
    if uses.len() == 0 {
        0
    } else {
        count_of(uses.drop_last(), name) + if uses.last().0 == name {
            1nat
        } else {
            0nat
        }
    }
}

/// How many of the uses name `name` on an image.
pub open spec fn count_on_images(uses: Seq<(Seq<char>, bool)>, name: Seq<char>) -> nat
    decreases uses.len(),
{
    if uses.len() == 0 {
        0
    } else {
        count_on_images(uses.drop_last(), name) + if uses.last().0 == name && uses.last().1 {
            1nat
        } else {
            0nat
        }
    }
}

/// The names the uses mention.
pub open spec fn names_used(uses: Seq<(Seq<char>, bool)>) -> Set<Seq<char>> {
    Set::new(|n: Seq<char>| exists|i: int| 0 <= i < uses.len() && #[trigger] uses[i].0 == n)
}

/// Neither count exceeds the number of uses.
pub proof fn lemma_counts_bounded(uses: Seq<(Seq<char>, bool)>, name: Seq<char>)
    ensures
        count_on_images(uses, name) <= count_of(uses, name) <= uses.len(),
    decreases uses.len(),
{
    if uses.len() > 0 {
        lemma_counts_bounded(uses.drop_last(), name);
    }
}

/// A name is mentioned exactly when it is counted.
pub proof fn lemma_used_iff_counted(uses: Seq<(Seq<char>, bool)>, name: Seq<char>)
    ensures
        names_used(uses).contains(name) <==> count_of(uses, name) > 0,
    decreases uses.len(),
{
    if uses.len() > 0 {
        lemma_used_iff_counted(uses.drop_last(), name);
        if names_used(uses.drop_last()).contains(name) {
            let i = choose|i: int| 0 <= i < uses.len() - 1 && #[trigger] uses.drop_last()[i].0 == name;
            assert(uses[i].0 == name);
        }
        if names_used(uses).contains(name) {
            let i = choose|i: int| 0 <= i < uses.len() && #[trigger] uses[i].0 == name;
            if i < uses.len() - 1 {
                assert(uses.drop_last()[i].0 == name);
            }
        }
    }
}

/// A running tally: each name once, sorted, with its counts over `uses`.
pub open spec fn tallies(t: Seq<(String, usize, usize)>, uses: Seq<(Seq<char>, bool)>) -> bool {
    &&& forall|a: int, b: int| 0 <= a < b < t.len() ==> lex_lt(#[trigger] t[a].0@, #[trigger] t[b].0@)
    &&& forall|i: int| 0 <= i < t.len() ==> (#[trigger] t[i]).1 == count_of(uses, t[i].0@)
        && t[i].2 == count_on_images(uses, t[i].0@)
    &&& forall|n: Seq<char>| #[trigger] names_used(uses).contains(n) ==> exists|i: int| 0 <= i < t.len() && t[i].0@ == n
    &&& forall|i: int| 0 <= i < t.len() ==> names_used(uses).contains(#[trigger] t[i].0@)
}

/// Where a name sits in a sorted tally.
fn tally_position(t: &Vec<(String, usize, usize)>, k: &str) -> (r: (usize, bool))
    requires
        forall|a: int, b: int| 0 <= a < b < t@.len() ==> lex_lt(#[trigger] t@[a].0@, #[trigger] t@[b].0@),
    ensures
        r.0 <= t@.len(),
        r.1 ==> r.0 < t@.len() && t@[r.0 as int].0@ == k@,
        !r.1 ==> (forall|i: int| 0 <= i < r.0 ==> lex_lt(#[trigger] t@[i].0@, k@)),
        !r.1 ==> (forall|i: int| r.0 <= i < t@.len() ==> lex_lt(k@, #[trigger] t@[i].0@)),
{
    let mut p: usize = 0;
    while p < t.len()
        invariant
            forall|a: int, b: int| 0 <= a < b < t@.len() ==> lex_lt(#[trigger] t@[a].0@, #[trigger] t@[b].0@),
            p <= t@.len(),
            forall|i: int| 0 <= i < p ==> lex_lt(#[trigger] t@[i].0@, k@),
        decreases t@.len() - p,
    {
        if str_eq(t[p].0.as_str(), k) {
            return (p, true);
        }
        if str_lt(k, t[p].0.as_str()) {
            assert forall|i: int| p <= i < t@.len() implies lex_lt(k@, #[trigger] t@[i].0@) by {
                if i > p {
                    lemma_lex_transitive(k@, t@[p as int].0@, t@[i].0@);
                }
            }
            return (p, false);
        }
        proof {
            lemma_lex_total(k@, t@[p as int].0@);
        }
        p = p + 1;
    }
    (p, false)
}

/// Counts one more use of `name`, on an image or not.
fn tally_one(t: &mut Vec<(String, usize, usize)>, name: &str, img: bool, Ghost(uses): Ghost<Seq<(Seq<char>, bool)>>)
    requires
        tallies(old(t)@, uses),
        uses.len() < usize::MAX,
    ensures
        tallies(final(t)@, uses.push((name@, img))),
{
    let ghost after = uses.push((name@, img));
    assert(after.drop_last() =~= uses);
    proof {
        lemma_counts_bounded(uses, name@);
    }
    let (p, found) = tally_position(t, name);
    let ghost before = t@;
    if found {
        let (s, i) = (t[p].1, t[p].2);
        let n = t.remove(p);
        let entry = (n.0, s + 1, if img { i + 1 } else { i });
        t.insert(p, entry);
        assert(t@ =~= before.update(p as int, entry));
        proof {
            assert forall|k: int| 0 <= k < t@.len() implies (#[trigger] t@[k]).1 == count_of(after, t@[k].0@)
                && t@[k].2 == count_on_images(after, t@[k].0@) by {
                if k != p {
                    assert(t@[k] == before[k]);
                    if before[k].0@ == name@ {
                        if k < p {
                            lemma_lex_irreflexive(name@);
                            assert(lex_lt(before[k].0@, before[p as int].0@));
                        } else {
                            lemma_lex_irreflexive(name@);
                            assert(lex_lt(before[p as int].0@, before[k].0@));
                        }
                    }
                }
            }
            assert forall|x: Seq<char>| #[trigger] names_used(after).contains(x) implies exists|k: int| 0 <= k < t@.len() && t@[k].0@ == x by {
                let j = choose|j: int| 0 <= j < after.len() && #[trigger] after[j].0 == x;
                if j < uses.len() {
                    assert(uses[j].0 == x);
                    assert(names_used(uses).contains(x));
                    let k = choose|k: int| 0 <= k < before.len() && before[k].0@ == x;
                    assert(t@[k].0@ == x);
                } else {
                    assert(t@[p as int].0@ == x);
                }
            }
            assert forall|k: int| 0 <= k < t@.len() implies names_used(after).contains(#[trigger] t@[k].0@) by {
                if k == p {
                    assert(after[uses.len() as int].0 == name@);
                } else {
                    assert(t@[k] == before[k]);
                    assert(names_used(uses).contains(before[k].0@));
                    let j = choose|j: int| 0 <= j < uses.len() && #[trigger] uses[j].0 == before[k].0@;
                    assert(after[j].0 == before[k].0@);
                }
            }
        }
    } else {
        proof {
            assert(!names_used(uses).contains(name@)) by {
                if names_used(uses).contains(name@) {
                    let k = choose|k: int| 0 <= k < before.len() && before[k].0@ == name@;
                    lemma_lex_irreflexive(name@);
                    if k < p {
                        assert(lex_lt(before[k].0@, name@));
                    } else {
                        assert(lex_lt(name@, before[k].0@));
                    }
                }
            }
            lemma_used_iff_counted(uses, name@);
        }
        let entry = (crate::error::text(name), 1usize, if img { 1usize } else { 0usize });
        t.insert(p, entry);
        proof {
            assert forall|a: int, b: int| 0 <= a < b < t@.len() implies lex_lt(#[trigger] t@[a].0@, #[trigger] t@[b].0@) by {
                if b < p {
                    assert(t@[a] == before[a] && t@[b] == before[b]);
                } else if b == p {
                    assert(t@[a] == before[a]);
                } else if a < p {
                    assert(t@[a] == before[a] && t@[b] == before[b - 1]);
                    lemma_lex_transitive(before[a].0@, name@, before[b - 1].0@);
                } else if a == p {
                    assert(t@[b] == before[b - 1]);
                } else {
                    assert(t@[a] == before[a - 1] && t@[b] == before[b - 1]);
                }
            }
            assert forall|k: int| 0 <= k < t@.len() implies (#[trigger] t@[k]).1 == count_of(after, t@[k].0@)
                && t@[k].2 == count_on_images(after, t@[k].0@) by {
                if k < p {
                    assert(t@[k] == before[k]);
                    lemma_lex_irreflexive(name@);
                } else if k > p {
                    assert(t@[k] == before[k - 1]);
                    lemma_lex_irreflexive(name@);
                }
            }
            assert forall|x: Seq<char>| #[trigger] names_used(after).contains(x) implies exists|k: int| 0 <= k < t@.len() && t@[k].0@ == x by {
                let j = choose|j: int| 0 <= j < after.len() && #[trigger] after[j].0 == x;
                if j < uses.len() {
                    assert(uses[j].0 == x);
                    assert(names_used(uses).contains(x));
                    let k = choose|k: int| 0 <= k < before.len() && before[k].0@ == x;
                    if k < p {
                        assert(t@[k].0@ == x);
                    } else {
                        assert(t@[k + 1].0@ == x);
                    }
                } else {
                    assert(t@[p as int].0@ == x);
                }
            }
            assert forall|k: int| 0 <= k < t@.len() implies names_used(after).contains(#[trigger] t@[k].0@) by {
                if k == p {
                    assert(after[uses.len() as int].0 == name@);
                } else {
                    let b = if k < p { before[k] } else { before[k - 1] };
                    assert(t@[k] == b);
                    assert(names_used(uses).contains(b.0@));
                    let j = choose|j: int| 0 <= j < uses.len() && #[trigger] uses[j].0 == b.0@;
                    assert(after[j].0 == b.0@);
                }
            }
        }
    }
}

/// The names a `/Filter` value names, resolved.
fn names_of<'a>(arena: &'a Arena, f: &'a Object) -> (r: Vec<&'a String>)
    ensures
        r@.map_values(|s: &String| s@) == filter_names_of(*arena, *f),
{
    let mut out: Vec<&'a String> = Vec::new();
    match arena.resolve(f) {
        Object::Name(n) => {
            out.push(n);
            assert(out@.map_values(|s: &String| s@) =~= seq![n@]);
        },
        Object::Array(a) => {
            let mut i: usize = 0;
            while i < a.len()
                invariant
                    i <= a@.len(),
                    out@.map_values(|s: &String| s@) == names_in(*arena, a@.take(i as int)),
                decreases a@.len() - i,
            {
                assert(a@.take(i + 1).drop_last() =~= a@.take(i as int));
                match arena.name_of(&a[i]) {
                    Some(n) => {
                        let ghost before = out@;
                        out.push(n);
                        assert(out@.map_values(|s: &String| s@) =~= before.map_values(|s: &String| s@).push(n@));
                    },
                    None => {},
                }
                i = i + 1;
            }
            assert(a@.take(a@.len() as int) =~= a@);
        },
        _ => {
            assert(out@.map_values(|s: &String| s@) =~= Seq::<Seq<char>>::empty());
        },
    }
    out
}

/// Whether a stream dictionary is an image's.
fn is_image(arena: &Arena, d: &Dict) -> (r: bool)
    ensures
        r == on_image(*arena, *d),
{
    match d.get("Subtype") {
        Some(o) => match arena.name_of(o) {
            Some(n) => str_eq(n.as_str(), "Image"),
            None => false,
        },
        None => false,
    }
}

/// Whether use `a` comes before use `b` in the census: more streams first, then by name.
pub open spec fn before(a: FilterUse, b: FilterUse) -> bool {
    a.streams > b.streams || (a.streams == b.streams && lex_lt(a.name@, b.name@))
}

/// What the census says of one filter name.
pub open spec fn use_reads(arena: Arena, u: FilterUse) -> bool {
    &&& u.streams == count_of(all_uses(arena), u.name@)
    &&& u.on_images == count_on_images(all_uses(arena), u.name@)
    &&& u.decoded == spec_filter_for(u.name@).is_some()
}

/// The census in order: each name once, most used first.
pub open spec fn census_sorted(r: Seq<FilterUse>) -> bool {
    forall|a: int, b: int| 0 <= a < b < r.len() ==> before(#[trigger] r[a], #[trigger] r[b])
}

/// Every filter the file's streams name, how many streams name it, how many of those
/// are images, and whether this engine decodes it: most used first, then by name.
///
/// Walks streams, not dictionaries: a `/Filter` in an encryption dictionary names a
/// security handler (Table 20), and asking the object table for its streams cannot
/// mistake one for a filter. Inline images are not counted; their filters are written
/// inside a content stream.
pub fn take_filter_census(arena: &Arena) -> (r: Vec<FilterUse>)
    requires
        all_uses(*arena).len() < usize::MAX,
    ensures
        census_sorted(r@),
        forall|i: int| 0 <= i < r@.len() ==> use_reads(*arena, #[trigger] r@[i]),
        forall|n: Seq<char>| #[trigger] names_used(all_uses(*arena)).contains(n) <==> exists|i: int| 0 <= i < r@.len() && r@[i].name@ == n,
{
    let mut tally: Vec<(String, usize, usize)> = Vec::new();
    let mut i: usize = 0;
    proof {
        assert forall|n: Seq<char>| #[trigger] names_used(uses_upto(*arena, 0)).contains(n) implies exists|k: int| 0 <= k < tally@.len() && tally@[k].0@ == n by {
            assert(uses_upto(*arena, 0).len() == 0);
        }
    }
    while i < arena.objects.len()
        invariant
            i <= arena.objects@.len(),
            all_uses(*arena).len() < usize::MAX,
            tallies(tally@, uses_upto(*arena, i as int)),
        decreases arena.objects@.len() - i,
    {
        proof {
            lemma_uses_prefix(*arena, i + 1, arena.objects@.len() as int);
        }
        if let Object::Stream(d, _) = &arena.objects[i] {
            if let Some(f) = d.get("Filter") {
                let img = is_image(arena, d);
                let names = names_of(arena, f);
                let ghost su = stream_uses(*arena, arena.objects@[i as int]);
                let mut j: usize = 0;
                while j < names.len()
                    invariant
                        j <= names@.len(),
                        names@.map_values(|s: &String| s@) == filter_names_of(*arena, *f),
                        su == filter_names_of(*arena, *f).map_values(|n: Seq<char>| (n, img)),
                        uses_upto(*arena, i + 1) == uses_upto(*arena, i as int) + su,
                        uses_upto(*arena, i + 1).len() <= all_uses(*arena).len(),
                        all_uses(*arena).len() < usize::MAX,
                        tallies(tally@, uses_upto(*arena, i as int) + su.take(j as int)),
                    decreases names@.len() - j,
                {
                    let ghost done = uses_upto(*arena, i as int) + su.take(j as int);
                    assert(done.len() < usize::MAX) by {
                        assert(done.len() <= uses_upto(*arena, i + 1).len());
                    }
                    assert(names@.map_values(|s: &String| s@)[j as int] == names@[j as int]@);
                    tally_one(&mut tally, names[j].as_str(), img, Ghost(done));
                    assert(done.push((names@[j as int]@, img)) =~= uses_upto(*arena, i as int) + su.take(j + 1));
                    j = j + 1;
                }
                assert(su.take(names@.len() as int) =~= su);
            } else {
                assert(uses_upto(*arena, i + 1) =~= uses_upto(*arena, i as int));
            }
        } else {
            assert(uses_upto(*arena, i + 1) =~= uses_upto(*arena, i as int));
        }
        i = i + 1;
    }
    let mut out: Vec<FilterUse> = Vec::new();
    let mut k: usize = 0;
    assert(use_names(out@) =~= tally_names(tally@, 0));
    while k < tally.len()
        invariant
            k <= tally@.len(),
            tallies(tally@, all_uses(*arena)),
            census_sorted(out@),
            forall|m: int| 0 <= m < out@.len() ==> use_reads(*arena, #[trigger] out@[m]),
            use_names(out@) == tally_names(tally@, k as int),
        decreases tally@.len() - k,
    {
        let u = FilterUse {
            name: crate::error::text(tally[k].0.as_str()),
            streams: tally[k].1,
            on_images: tally[k].2,
            decoded: is_decoded(tally[k].0.as_str()),
        };
        proof {
            assert(!use_names(out@).contains(u.name@)) by {
                if tally_names(tally@, k as int).contains(u.name@) {
                    let x = choose|x: int| 0 <= x < k && #[trigger] tally@[x].0@ == u.name@;
                    lemma_lex_irreflexive(u.name@);
                    assert(lex_lt(tally@[x].0@, tally@[k as int].0@));
                }
            }
        }
        let ghost prev = out@;
        insert_use(&mut out, u);
        proof {
            assert forall|m: int| 0 <= m < out@.len() implies use_reads(*arena, #[trigger] out@[m]) by {
                if out@[m] != u {
                    let j = choose|j: int| 0 <= j < prev.len() && out@[m] == prev[j];
                    assert(use_reads(*arena, prev[j]));
                }
            }
            assert(tally_names(tally@, k + 1) =~= tally_names(tally@, k as int).insert(u.name@)) by {
                assert(tally@[k as int].0@ == u.name@);
            }
        }
        k = k + 1;
    }
    proof {
        assert forall|n: Seq<char>| #[trigger] names_used(all_uses(*arena)).contains(n) <==> exists|i: int| 0 <= i < out@.len() && out@[i].name@ == n by {
            if names_used(all_uses(*arena)).contains(n) {
                let x = choose|x: int| 0 <= x < tally@.len() && tally@[x].0@ == n;
                assert(tally_names(tally@, k as int).contains(n));
                assert(use_names(out@).contains(n));
            }
            if exists|i: int| 0 <= i < out@.len() && out@[i].name@ == n {
                let m = choose|m: int| 0 <= m < out@.len() && out@[m].name@ == n;
                assert(use_names(out@).contains(n));
                assert(tally_names(tally@, k as int).contains(n));
                let x = choose|x: int| 0 <= x < k && #[trigger] tally@[x].0@ == n;
                assert(names_used(all_uses(*arena)).contains(tally@[x].0@));
            }
        }
    }
    out
}

/// The names a census holds.
pub open spec fn use_names(r: Seq<FilterUse>) -> Set<Seq<char>> {
    Set::new(|n: Seq<char>| exists|m: int| 0 <= m < r.len() && #[trigger] r[m].name@ == n)
}

/// The names of the first `k` entries of a tally.
pub open spec fn tally_names(t: Seq<(String, usize, usize)>, k: int) -> Set<Seq<char>> {
    Set::new(|n: Seq<char>| exists|x: int| 0 <= x < k && #[trigger] t[x].0@ == n)
}

/// Places a use where the census order puts it.
fn insert_use(out: &mut Vec<FilterUse>, u: FilterUse)
    requires
        census_sorted(old(out)@),
        !use_names(old(out)@).contains(u.name@),
    ensures
        census_sorted(final(out)@),
        use_names(final(out)@) == use_names(old(out)@).insert(u.name@),
        forall|m: int| 0 <= m < final(out)@.len() ==> final(out)@[m] == u || exists|j: int|
            0 <= j < old(out)@.len() && #[trigger] final(out)@[m] == old(out)@[j],
{
    let mut p: usize = 0;
    while p < out.len() && !(u.streams > out[p].streams || (u.streams == out[p].streams && str_lt(u.name.as_str(), out[p].name.as_str())))
        invariant
            p <= out@.len(),
            forall|m: int| 0 <= m < p ==> before(#[trigger] out@[m], u),
            census_sorted(out@),
            !use_names(out@).contains(u.name@),
        decreases out@.len() - p,
    {
        proof {
            lemma_lex_total(u.name@, out@[p as int].name@);
            if u.name@ == out@[p as int].name@ {
                assert(use_names(out@).contains(u.name@));
            }
        }
        p = p + 1;
    }
    proof {
        assert forall|m: int| p <= m < out@.len() implies before(u, #[trigger] out@[m]) by {
            if m > p {
                assert(before(out@[p as int], out@[m]));
                if u.streams == out@[p as int].streams && out@[p as int].streams == out@[m].streams {
                    lemma_lex_transitive(u.name@, out@[p as int].name@, out@[m].name@);
                }
            }
        }
    }
    let ghost prev = out@;
    out.insert(p, u);
    proof {
        assert forall|a: int, b: int| 0 <= a < b < out@.len() implies before(#[trigger] out@[a], #[trigger] out@[b]) by {
            if b < p {
                assert(out@[a] == prev[a] && out@[b] == prev[b]);
            } else if b == p {
                assert(out@[a] == prev[a]);
            } else if a < p {
                assert(out@[a] == prev[a] && out@[b] == prev[b - 1]);
                if prev[a].streams == u.streams && u.streams == prev[b - 1].streams {
                    lemma_lex_transitive(prev[a].name@, u.name@, prev[b - 1].name@);
                }
            } else if a == p {
                assert(out@[b] == prev[b - 1]);
            } else {
                assert(out@[a] == prev[a - 1] && out@[b] == prev[b - 1]);
            }
        }
        assert forall|m: int| 0 <= m < out@.len() implies out@[m] == u || exists|j: int|
            0 <= j < prev.len() && #[trigger] out@[m] == prev[j] by {
            if m < p {
                assert(out@[m] == prev[m]);
            } else if m > p {
                assert(out@[m] == prev[m - 1]);
            }
        }
        assert(use_names(out@) =~= use_names(prev).insert(u.name@)) by {
            assert forall|n: Seq<char>| use_names(out@).contains(n) implies use_names(prev).insert(u.name@).contains(n) by {
                let m = choose|m: int| 0 <= m < out@.len() && #[trigger] out@[m].name@ == n;
                if m < p {
                    assert(out@[m] == prev[m]);
                } else if m > p {
                    assert(out@[m] == prev[m - 1]);
                }
            }
            assert forall|n: Seq<char>| use_names(prev).insert(u.name@).contains(n) implies use_names(out@).contains(n) by {
                if n == u.name@ {
                    assert(out@[p as int].name@ == n);
                } else {
                    let j = choose|j: int| 0 <= j < prev.len() && #[trigger] prev[j].name@ == n;
                    if j < p {
                        assert(out@[j] == prev[j]);
                    } else {
                        assert(out@[j + 1] == prev[j]);
                    }
                }
            }
        }
    }
}

/// A prefix's uses are no more than all of them.
pub proof fn lemma_uses_prefix(arena: Arena, n: int, m: int)
    requires
        0 <= n <= m <= arena.objects@.len(),
    ensures
        uses_upto(arena, n).len() <= uses_upto(arena, m).len(),
    decreases m - n,
{
    if n < m {
        lemma_uses_prefix(arena, n, m - 1);
    }
}

/// Where one object of the cross-reference lives (7.5.4, 7.5.8).
#[derive(Clone, Copy, Debug, PartialEq, Eq, Structural)]
pub enum XrefRecord {
    /// Written directly in the file, at this byte offset.
    InFile {
        /// Byte offset of the object.
        offset: u64,
        /// Generation number.
        generation: u16,
    },
    /// A free slot, linking to the next free object.
    Free {
        /// The next free object's number.
        next: u32,
        /// The generation number to use if the slot is reused.
        generation: u16,
    },
    /// Inside an object stream.
    InObjectStream {
        /// Object number of the containing stream.
        container: u32,
        /// Index of the object within it.
        index: u32,
    },
}

/// Which of the two forms a cross-reference section is written in.
#[derive(Clone, Copy, Debug, PartialEq, Eq, Structural)]
pub enum XrefForm {
    /// A classic `xref` table.
    Table,
    /// A cross-reference stream (7.5.8).
    Stream,
}

/// One cross-reference section as the reader found it.
pub struct XrefSection {
    /// Each object number this section defines, and where it says the object lives, in
    /// the order the section writes them.
    pub entries: Vec<(u32, XrefRecord)>,
    /// Whether the section carries a trailer dictionary.
    pub has_trailer: bool,
    /// Which form it is written in.
    pub form: XrefForm,
}

/// Object numbers strictly increasing: a cross-reference with each number once.
pub open spec fn numbers_sorted(v: Seq<(u32, XrefRecord)>) -> bool {
    forall|a: int, b: int| 0 <= a < b < v.len() ==> (#[trigger] v[a]).0 < (#[trigger] v[b]).0
}

/// How many objects of the cross-reference live in the file, are free, or sit in an
/// object stream.
pub open spec fn count_kind(v: Seq<(u32, XrefRecord)>, kind: int) -> nat
    decreases v.len(),
{
    if v.len() == 0 {
        0
    } else {
        count_kind(v.drop_last(), kind) + if (kind == 0 && v.last().1 is InFile) || (kind == 1
            && v.last().1 is Free) || (kind == 2 && v.last().1 is InObjectStream) {
            1nat
        } else {
            0nat
        }
    }
}

/// How many objects of the cross-reference sit in the object stream `c`.
pub open spec fn count_in(v: Seq<(u32, XrefRecord)>, c: u32) -> nat
    decreases v.len(),
{
    if v.len() == 0 {
        0
    } else {
        count_in(v.drop_last(), c) + if v.last().1 matches XrefRecord::InObjectStream { container, .. } && container == c {
            1nat
        } else {
            0nat
        }
    }
}

/// The counts are no more than the entries.
pub proof fn lemma_kind_bounded(v: Seq<(u32, XrefRecord)>, kind: int, c: u32)
    ensures
        count_kind(v, kind) <= v.len(),
        count_in(v, c) <= v.len(),
    decreases v.len(),
{
    if v.len() > 0 {
        lemma_kind_bounded(v.drop_last(), kind, c);
    }
}

/// Every object of a cross-reference lives in exactly one place: in the file, free, or
/// in an object stream — so a census's three counts add up to the objects it names.
pub proof fn law_census_counts_add_up(v: Seq<(u32, XrefRecord)>)
    ensures
        count_kind(v, 0) + count_kind(v, 1) + count_kind(v, 2) == v.len(),
    decreases v.len(),
{
    if v.len() > 0 {
        law_census_counts_add_up(v.drop_last());
    }
}

/// The containers a census names.
pub open spec fn containers_of(v: Seq<ObjectStream>) -> Set<u32> {
    Set::new(|c: u32| exists|i: int| 0 <= i < v.len() && #[trigger] v[i].container == c)
}

/// Whether object stream `a` comes before `b` in the census: more objects first, then
/// the lower number.
pub open spec fn stream_before(a: ObjectStream, b: ObjectStream) -> bool {
    a.carries > b.carries || (a.carries == b.carries && a.container < b.container)
}

/// Counts where the merged cross-reference places each object, and how much each object
/// stream still carries, largest first.
pub fn take_census(merged: &Vec<(u32, XrefRecord)>, from_scan: bool) -> (r: (ObjectCensus, Vec<ObjectStream>))
    requires
        numbers_sorted(merged@),
    ensures
        merged@.len() == 0 ==> r.0.highest_number == 0,
        merged@.len() > 0 ==> r.0.highest_number == merged@.last().0,
        r.0.in_file == count_kind(merged@, 0),
        r.0.free == count_kind(merged@, 1),
        r.0.in_object_stream == count_kind(merged@, 2),
        r.0.from_scan == from_scan,
        forall|a: int, b: int| 0 <= a < b < r.1@.len() ==> stream_before(#[trigger] r.1@[a], #[trigger] r.1@[b]),
        forall|i: int| 0 <= i < r.1@.len() ==> (#[trigger] r.1@[i]).carries == count_in(merged@, r.1@[i].container),
        forall|c: u32| count_in(merged@, c) > 0 <==> #[trigger] containers_of(r.1@).contains(c),
{
    let mut census = ObjectCensus { highest_number: 0, in_file: 0, free: 0, in_object_stream: 0, from_scan };
    let mut streams: Vec<ObjectStream> = Vec::new();
    let mut i: usize = 0;
    while i < merged.len()
        invariant
            i <= merged@.len(),
            numbers_sorted(merged@),
            i == 0 ==> census.highest_number == 0,
            i > 0 ==> census.highest_number == merged@[i - 1].0,
            census.in_file == count_kind(merged@.take(i as int), 0),
            census.free == count_kind(merged@.take(i as int), 1),
            census.in_object_stream == count_kind(merged@.take(i as int), 2),
            census.from_scan == from_scan,
            forall|a: int, b: int| 0 <= a < b < streams@.len() ==> (#[trigger] streams@[a]).container < (#[trigger] streams@[b]).container,
            forall|k: int| 0 <= k < streams@.len() ==> (#[trigger] streams@[k]).carries == count_in(merged@.take(i as int), streams@[k].container),
            forall|c: u32| count_in(merged@.take(i as int), c) > 0 <==> exists|k: int| 0 <= k < streams@.len() && #[trigger] streams@[k].container == c,
        decreases merged@.len() - i,
    {
        let ghost pre = merged@.take(i as int);
        assert(merged@.take(i + 1).drop_last() =~= pre);
        assert(merged@.take(i + 1) =~= pre.push(merged@[i as int]));
        proof {
            lemma_kind_bounded(pre, 0, 0);
            lemma_kind_bounded(pre, 1, 0);
            lemma_kind_bounded(pre, 2, 0);
        }
        let (num, rec) = merged[i];
        census.highest_number = num;
        match rec {
            XrefRecord::InFile { .. } => census.in_file = census.in_file + 1,
            XrefRecord::Free { .. } => census.free = census.free + 1,
            XrefRecord::InObjectStream { container, .. } => {
                census.in_object_stream = census.in_object_stream + 1;
                proof {
                    lemma_kind_bounded(pre, 2, container);
                }
                count_container(&mut streams, container, Ghost(pre), Ghost(merged@[i as int]));
            },
        }
        proof {
            if !(rec is InObjectStream) {
                assert forall|c: u32| count_in(merged@.take(i + 1), c) == count_in(pre, c) by {}
            }
        }
        i = i + 1;
    }
    assert(merged@.take(i as int) =~= merged@);
    let sorted = sort_streams(&streams);
    proof {
        assert forall|m: int| 0 <= m < sorted@.len() implies (#[trigger] sorted@[m]).carries == count_in(merged@, sorted@[m].container) by {
            assert(sorted@.to_set().contains(sorted@[m]));
            assert(streams@.contains(sorted@[m]));
            let j = choose|j: int| 0 <= j < streams@.len() && streams@[j] == sorted@[m];
        }
        assert forall|x: u32| count_in(merged@, x) > 0 <==> #[trigger] containers_of(sorted@).contains(x) by {
            if count_in(merged@, x) > 0 {
                let k = choose|k: int| 0 <= k < streams@.len() && #[trigger] streams@[k].container == x;
                assert(streams@.to_set().contains(streams@[k]));
                assert(sorted@.contains(streams@[k]));
                let m = choose|m: int| 0 <= m < sorted@.len() && sorted@[m] == streams@[k];
                assert(sorted@[m].container == x);
            }
            if containers_of(sorted@).contains(x) {
                let m = choose|m: int| 0 <= m < sorted@.len() && #[trigger] sorted@[m].container == x;
                assert(sorted@.to_set().contains(sorted@[m]));
                assert(streams@.contains(sorted@[m]));
                let j = choose|j: int| 0 <= j < streams@.len() && streams@[j] == sorted@[m];
                assert(streams@[j].container == x);
            }
        }
    }
    (census, sorted)
}

/// Counts one more object in the object stream `c`.
fn count_container(streams: &mut Vec<ObjectStream>, c: u32, Ghost(pre): Ghost<Seq<(u32, XrefRecord)>>, Ghost(e): Ghost<(u32, XrefRecord)>)
    requires
        e.1 matches XrefRecord::InObjectStream { container, .. } && container == c,
        count_in(pre, c) < usize::MAX,
        forall|a: int, b: int| 0 <= a < b < old(streams)@.len() ==> (#[trigger] old(streams)@[a]).container < (#[trigger] old(streams)@[b]).container,
        forall|k: int| 0 <= k < old(streams)@.len() ==> (#[trigger] old(streams)@[k]).carries == count_in(pre, old(streams)@[k].container),
        forall|x: u32| count_in(pre, x) > 0 <==> exists|k: int| 0 <= k < old(streams)@.len() && #[trigger] old(streams)@[k].container == x,
    ensures
        forall|a: int, b: int| 0 <= a < b < final(streams)@.len() ==> (#[trigger] final(streams)@[a]).container < (#[trigger] final(streams)@[b]).container,
        forall|k: int| 0 <= k < final(streams)@.len() ==> (#[trigger] final(streams)@[k]).carries == count_in(pre.push(e), final(streams)@[k].container),
        forall|x: u32| count_in(pre.push(e), x) > 0 <==> exists|k: int| 0 <= k < final(streams)@.len() && #[trigger] final(streams)@[k].container == x,
{
    let ghost after = pre.push(e);
    assert(after.drop_last() =~= pre);
    let mut p: usize = 0;
    while p < streams.len() && streams[p].container < c
        invariant
            p <= streams@.len(),
            forall|k: int| 0 <= k < p ==> (#[trigger] streams@[k]).container < c,
        decreases streams@.len() - p,
    {
        p = p + 1;
    }
    let ghost prev = streams@;
    if p < streams.len() && streams[p].container == c {
        let old_entry = streams.remove(p);
        streams.insert(p, ObjectStream { container: c, carries: old_entry.carries + 1 });
        assert(streams@ =~= prev.update(p as int, ObjectStream { container: c, carries: (old_entry.carries + 1) as usize }));
        proof {
            assert forall|x: u32| count_in(after, x) > 0 <==> exists|k: int| 0 <= k < streams@.len() && #[trigger] streams@[k].container == x by {
                if count_in(pre, x) > 0 {
                    let k = choose|k: int| 0 <= k < prev.len() && #[trigger] prev[k].container == x;
                    assert(streams@[k].container == x);
                }
                if exists|k: int| 0 <= k < streams@.len() && #[trigger] streams@[k].container == x {
                    let k = choose|k: int| 0 <= k < streams@.len() && #[trigger] streams@[k].container == x;
                    assert(prev[k].container == x);
                }
            }
        }
    } else {
        proof {
            assert forall|k: int| p <= k < prev.len() implies c < (#[trigger] prev[k]).container by {
                if k > p {
                    assert(prev[p as int].container < prev[k].container);
                }
            }
            assert(count_in(pre, c) == 0) by {
                if count_in(pre, c) > 0 {
                    let k = choose|k: int| 0 <= k < prev.len() && #[trigger] prev[k].container == c;
                }
            }
        }
        streams.insert(p, ObjectStream { container: c, carries: 1 });
        proof {
            assert forall|a: int, b: int| 0 <= a < b < streams@.len() implies (#[trigger] streams@[a]).container < (#[trigger] streams@[b]).container by {
                if b < p {
                    assert(streams@[a] == prev[a] && streams@[b] == prev[b]);
                } else if b == p {
                    assert(streams@[a] == prev[a]);
                } else if a < p {
                    assert(streams@[a] == prev[a] && streams@[b] == prev[b - 1]);
                } else if a == p {
                    assert(streams@[b] == prev[b - 1]);
                } else {
                    assert(streams@[a] == prev[a - 1] && streams@[b] == prev[b - 1]);
                }
            }
            assert forall|k: int| 0 <= k < streams@.len() implies (#[trigger] streams@[k]).carries == count_in(after, streams@[k].container) by {
                if k < p {
                    assert(streams@[k] == prev[k]);
                } else if k > p {
                    assert(streams@[k] == prev[k - 1]);
                }
            }
            assert forall|x: u32| count_in(after, x) > 0 <==> exists|k: int| 0 <= k < streams@.len() && #[trigger] streams@[k].container == x by {
                if count_in(pre, x) > 0 {
                    let k = choose|k: int| 0 <= k < prev.len() && #[trigger] prev[k].container == x;
                    if k < p {
                        assert(streams@[k].container == x);
                    } else {
                        assert(streams@[k + 1].container == x);
                    }
                }
                if x == c {
                    assert(streams@[p as int].container == x);
                }
                if exists|k: int| 0 <= k < streams@.len() && #[trigger] streams@[k].container == x {
                    let k = choose|k: int| 0 <= k < streams@.len() && #[trigger] streams@[k].container == x;
                    if k < p {
                        assert(prev[k].container == x);
                    } else if k > p {
                        assert(prev[k - 1].container == x);
                    }
                }
            }
        }
    }
}

/// The object streams ordered for the census: most objects first, then the lower number.
fn sort_streams(streams: &Vec<ObjectStream>) -> (r: Vec<ObjectStream>)
    requires
        forall|a: int, b: int| 0 <= a < b < streams@.len() ==> (#[trigger] streams@[a]).container < (#[trigger] streams@[b]).container,
    ensures
        forall|a: int, b: int| 0 <= a < b < r@.len() ==> stream_before(#[trigger] r@[a], #[trigger] r@[b]),
        r@.to_set() == streams@.to_set(),
{
    let mut out: Vec<ObjectStream> = Vec::new();
    let mut k: usize = 0;
    while k < streams.len()
        invariant
            k <= streams@.len(),
            forall|a: int, b: int| 0 <= a < b < streams@.len() ==> (#[trigger] streams@[a]).container < (#[trigger] streams@[b]).container,
            forall|a: int, b: int| 0 <= a < b < out@.len() ==> stream_before(#[trigger] out@[a], #[trigger] out@[b]),
            out@.to_set() == streams@.take(k as int).to_set(),
        decreases streams@.len() - k,
    {
        let s = streams[k];
        let mut p: usize = 0;
        while p < out.len() && !(s.carries > out[p].carries || (s.carries == out[p].carries && s.container < out[p].container))
            invariant
                p <= out@.len(),
                forall|m: int| 0 <= m < p ==> stream_before(#[trigger] out@[m], s),
                forall|a: int, b: int| 0 <= a < b < out@.len() ==> stream_before(#[trigger] out@[a], #[trigger] out@[b]),
                out@.to_set() == streams@.take(k as int).to_set(),
                s == streams@[k as int],
                forall|a: int, b: int| 0 <= a < b < streams@.len() ==> (#[trigger] streams@[a]).container < (#[trigger] streams@[b]).container,
                k < streams@.len(),
            decreases out@.len() - p,
        {
            proof {
                assert(out@.to_set().contains(out@[p as int]));
                let j = choose|j: int| 0 <= j < streams@.take(k as int).len() && streams@.take(k as int)[j] == out@[p as int];
                assert(streams@[j].container < streams@[k as int].container);
            }
            p = p + 1;
        }
        let ghost prev = out@;
        proof {
            assert forall|m: int| p <= m < prev.len() implies stream_before(s, #[trigger] prev[m]) by {
                if m > p {
                    assert(stream_before(prev[p as int], prev[m]));
                }
            }
        }
        out.insert(p, s);
        proof {
            assert forall|a: int, b: int| 0 <= a < b < out@.len() implies stream_before(#[trigger] out@[a], #[trigger] out@[b]) by {
                if b < p {
                    assert(out@[a] == prev[a] && out@[b] == prev[b]);
                } else if b == p {
                    assert(out@[a] == prev[a]);
                } else if a < p {
                    assert(out@[a] == prev[a] && out@[b] == prev[b - 1]);
                } else if a == p {
                    assert(out@[b] == prev[b - 1]);
                } else {
                    assert(out@[a] == prev[a - 1] && out@[b] == prev[b - 1]);
                }
            }
            assert(streams@.take(k + 1) =~= streams@.take(k as int).push(s));
            assert(out@.to_set() =~= prev.to_set().insert(s)) by {
                assert forall|x: ObjectStream| out@.to_set().contains(x) implies prev.to_set().insert(s).contains(x) by {
                    let i = choose|i: int| 0 <= i < out@.len() && out@[i] == x;
                    if i < p {
                        assert(prev[i] == x);
                    } else if i > p {
                        assert(prev[i - 1] == x);
                    }
                }
                assert forall|x: ObjectStream| prev.to_set().insert(s).contains(x) implies out@.to_set().contains(x) by {
                    if x == s {
                        assert(out@[p as int] == x);
                    } else {
                        let i = choose|i: int| 0 <= i < prev.len() && prev[i] == x;
                        if i < p {
                            assert(out@[i] == x);
                        } else {
                            assert(out@[i + 1] == x);
                        }
                    }
                }
            }
            let t1 = streams@.take(k + 1);
            let t0 = streams@.take(k as int);
            assert(t1 =~= t0.push(s));
            assert(t1.to_set() =~= t0.to_set().insert(s)) by {
                assert forall|x: ObjectStream| t1.to_set().contains(x) implies t0.to_set().insert(s).contains(x) by {
                    let i = choose|i: int| 0 <= i < t1.len() && #[trigger] t1[i] == x;
                    if i < k {
                        assert(t0[i] == x);
                    }
                }
                assert forall|x: ObjectStream| t0.to_set().insert(s).contains(x) implies t1.to_set().contains(x) by {
                    if x == s {
                        assert(t1[k as int] == x);
                    } else {
                        let i = choose|i: int| 0 <= i < t0.len() && #[trigger] t0[i] == x;
                        assert(t1[i] == x);
                    }
                }
            }
        }
        k = k + 1;
    }
    assert(streams@.take(k as int) =~= streams@);
    out
}

/// The cross-reference `es` makes of `m`, each entry overwriting what it defines: the
/// newest definition of a number wins.
pub open spec fn merge_entries(m: Map<u32, XrefRecord>, es: Seq<(u32, XrefRecord)>) -> Map<u32, XrefRecord>
    decreases es.len(),
{
    if es.len() == 0 {
        m
    } else {
        merge_entries(m, es.drop_last()).insert(es.last().0, es.last().1)
    }
}

/// The numbers `es` defines again over `m` — object 0 excepted, which heads the free
/// list in every table section and names nothing an update rewrote.
pub open spec fn redefined(m: Map<u32, XrefRecord>, es: Seq<(u32, XrefRecord)>) -> Set<u32>
    decreases es.len(),
{
    if es.len() == 0 {
        Set::empty()
    } else {
        let before = merge_entries(m, es.drop_last());
        let rest = redefined(m, es.drop_last());
        if before.dom().contains(es.last().0) && es.last().0 != 0 {
            rest.insert(es.last().0)
        } else {
            rest
        }
    }
}

/// The merged cross-reference of the first `n` sections, oldest first, the unreadable
/// ones passed over.
pub open spec fn merged_upto(sections: Seq<(u64, Option<XrefSection>)>, n: int) -> Map<u32, XrefRecord>
    decreases n,
{
    if n <= 0 || n > sections.len() {
        Map::empty()
    } else {
        match sections[n - 1].1 {
            Some(s) => merge_entries(merged_upto(sections, n - 1), s.entries@),
            None => merged_upto(sections, n - 1),
        }
    }
}

/// The numbers the first `n` sections define more than once.
pub open spec fn superseded_upto(sections: Seq<(u64, Option<XrefSection>)>, n: int) -> Set<u32>
    decreases n,
{
    if n <= 0 || n > sections.len() {
        Set::empty()
    } else {
        match sections[n - 1].1 {
            Some(s) => superseded_upto(sections, n - 1).union(redefined(merged_upto(sections, n - 1), s.entries@)),
            None => superseded_upto(sections, n - 1),
        }
    }
}

/// A sorted cross-reference, as the map it is.
pub open spec fn represents(v: Seq<(u32, XrefRecord)>, m: Map<u32, XrefRecord>) -> bool {
    &&& numbers_sorted(v)
    &&& forall|i: int| 0 <= i < v.len() ==> m.dom().contains(#[trigger] v[i].0) && m[v[i].0] == v[i].1
    &&& forall|k: u32| #[trigger] m.dom().contains(k) ==> exists|i: int| 0 <= i < v.len() && v[i].0 == k
}

/// The word a report uses for a form.
pub open spec fn form_word(f: XrefForm) -> Seq<char> {
    match f {
        XrefForm::Table => "table"@,
        XrefForm::Stream => "stream"@,
    }
}

/// What the report says of the section at position `i` of the chain.
pub open spec fn revision_reads(r: Revision, i: int, at: u64, s: XrefSection) -> bool {
    &&& r.index == i + 1
    &&& r.offset == at
    &&& r.entries == s.entries@.len()
    &&& r.has_trailer == s.has_trailer
    &&& r.form@ == form_word(s.form)
}

/// The revisions of the first `n` sections: one per readable section, oldest first.
pub open spec fn revisions_upto(sections: Seq<(u64, Option<XrefSection>)>, n: int) -> Seq<(int, u64, XrefSection)>
    decreases n,
{
    if n <= 0 || n > sections.len() {
        Seq::empty()
    } else {
        match sections[n - 1].1 {
            Some(s) => revisions_upto(sections, n - 1).push((n - 1, sections[n - 1].0, s)),
            None => revisions_upto(sections, n - 1),
        }
    }
}

/// Defines `num` as `rec` in a sorted cross-reference, and says whether it was defined.
fn define(v: &mut Vec<(u32, XrefRecord)>, num: u32, rec: XrefRecord, Ghost(m): Ghost<Map<u32, XrefRecord>>) -> (was: bool)
    requires
        represents(old(v)@, m),
    ensures
        represents(final(v)@, m.insert(num, rec)),
        was == m.dom().contains(num),
{
    let mut p: usize = 0;
    while p < v.len() && v[p].0 < num
        invariant
            p <= v@.len(),
            forall|k: int| 0 <= k < p ==> (#[trigger] v@[k]).0 < num,
        decreases v@.len() - p,
    {
        p = p + 1;
    }
    let ghost prev = v@;
    let ghost m2 = m.insert(num, rec);
    if p < v.len() && v[p].0 == num {
        v.set(p, (num, rec));
        proof {
            assert forall|k: u32| #[trigger] m2.dom().contains(k) implies exists|i: int| 0 <= i < v@.len() && v@[i].0 == k by {
                if k != num {
                    let i = choose|i: int| 0 <= i < prev.len() && prev[i].0 == k;
                    assert(v@[i].0 == k);
                } else {
                    assert(v@[p as int].0 == k);
                }
            }
            assert forall|i: int| 0 <= i < v@.len() implies m2.dom().contains(#[trigger] v@[i].0) && m2[v@[i].0] == v@[i].1 by {
                if i != p {
                    assert(v@[i] == prev[i]);
                    if prev[i].0 == num {
                        if i < p {
                            assert(prev[i].0 < prev[p as int].0);
                        } else {
                            assert(prev[p as int].0 < prev[i].0);
                        }
                    }
                }
            }
        }
        true
    } else {
        proof {
            assert forall|k: int| p <= k < prev.len() implies num < (#[trigger] prev[k]).0 by {
                if k > p {
                    assert(prev[p as int].0 < prev[k].0);
                }
            }
            assert(!m.dom().contains(num)) by {
                if m.dom().contains(num) {
                    let i = choose|i: int| 0 <= i < prev.len() && prev[i].0 == num;
                }
            }
        }
        v.insert(p, (num, rec));
        proof {
            assert forall|a: int, b: int| 0 <= a < b < v@.len() implies (#[trigger] v@[a]).0 < (#[trigger] v@[b]).0 by {
                if b < p {
                    assert(v@[a] == prev[a] && v@[b] == prev[b]);
                } else if b == p {
                    assert(v@[a] == prev[a]);
                } else if a < p {
                    assert(v@[a] == prev[a] && v@[b] == prev[b - 1]);
                } else if a == p {
                    assert(v@[b] == prev[b - 1]);
                } else {
                    assert(v@[a] == prev[a - 1] && v@[b] == prev[b - 1]);
                }
            }
            assert forall|i: int| 0 <= i < v@.len() implies m2.dom().contains(#[trigger] v@[i].0) && m2[v@[i].0] == v@[i].1 by {
                if i < p {
                    assert(v@[i] == prev[i]);
                } else if i > p {
                    assert(v@[i] == prev[i - 1]);
                }
            }
            assert forall|k: u32| #[trigger] m2.dom().contains(k) implies exists|i: int| 0 <= i < v@.len() && v@[i].0 == k by {
                if k != num {
                    let i = choose|i: int| 0 <= i < prev.len() && prev[i].0 == k;
                    if i < p {
                        assert(v@[i].0 == k);
                    } else {
                        assert(v@[i + 1].0 == k);
                    }
                } else {
                    assert(v@[p as int].0 == k);
                }
            }
        }
        false
    }
}

/// Walks the cross-reference chain once, oldest section first: the revisions, the
/// merged cross-reference in which the newest definition of each number wins, and the
/// numbers more than one revision defines. A section that would not read is passed
/// over, though it keeps its place in the numbering.
pub fn walk_sections(sections: &Vec<(u64, Option<XrefSection>)>) -> (r: (Vec<Revision>, Vec<(u32, XrefRecord)>, Vec<u32>))
    requires
        sections@.len() < usize::MAX,
    ensures
        r.0@.len() == revisions_upto(sections@, sections@.len() as int).len(),
        forall|i: int| 0 <= i < r.0@.len() ==> {
            let (k, at, s) = revisions_upto(sections@, sections@.len() as int)[i];
            revision_reads(#[trigger] r.0@[i], k, at, s)
        },
        represents(r.1@, merged_upto(sections@, sections@.len() as int)),
        r.2@.to_set() == superseded_upto(sections@, sections@.len() as int),
        r.2@.no_duplicates(),
{
    let mut revisions: Vec<Revision> = Vec::new();
    let mut merged: Vec<(u32, XrefRecord)> = Vec::new();
    let mut superseded: Vec<u32> = Vec::new();
    let mut i: usize = 0;
    assert(superseded@.to_set() =~= Set::<u32>::empty());
    while i < sections.len()
        invariant
            i <= sections@.len(),
            sections@.len() < usize::MAX,
            revisions@.len() == revisions_upto(sections@, i as int).len(),
            forall|j: int| 0 <= j < revisions@.len() ==> {
                let (k, at, s) = revisions_upto(sections@, i as int)[j];
                revision_reads(#[trigger] revisions@[j], k, at, s)
            },
            represents(merged@, merged_upto(sections@, i as int)),
            superseded@.to_set() == superseded_upto(sections@, i as int),
            superseded@.no_duplicates(),
        decreases sections@.len() - i,
    {
        let (at, section) = &sections[i];
        match section {
            Some(s) => {
                let form = match s.form {
                    XrefForm::Table => crate::error::text("table"),
                    XrefForm::Stream => crate::error::text("stream"),
                };
                revisions.push(Revision { index: i + 1, offset: *at, entries: s.entries.len(), has_trailer: s.has_trailer, form });
                let ghost base = merged_upto(sections@, i as int);
                let ghost sup0 = superseded_upto(sections@, i as int);
                let mut j: usize = 0;
                while j < s.entries.len()
                    invariant
                        j <= s.entries@.len(),
                        represents(merged@, merge_entries(base, s.entries@.take(j as int))),
                        superseded@.to_set() == sup0.union(redefined(base, s.entries@.take(j as int))),
                        superseded@.no_duplicates(),
                    decreases s.entries@.len() - j,
                {
                    let ghost pre = s.entries@.take(j as int);
                    assert(s.entries@.take(j + 1).drop_last() =~= pre);
                    let (num, rec) = s.entries[j];
                    let was = define(&mut merged, num, rec, Ghost(merge_entries(base, pre)));
                    if was && num != 0 {
                        let mut found = false;
                        let mut q: usize = 0;
                        while q < superseded.len()
                            invariant
                                q <= superseded@.len(),
                                found <==> exists|x: int| 0 <= x < q && superseded@[x] == num,
                            decreases superseded@.len() - q,
                        {
                            if superseded[q] == num {
                                found = true;
                            }
                            q = q + 1;
                        }
                        if !found {
                            let ghost sp = superseded@;
                            superseded.push(num);
                            proof {
                                sp.lemma_push_to_set_commute(num);
                                assert(superseded@ == sp.push(num));
                                assert forall|a: int, b: int| 0 <= a < superseded@.len() && 0 <= b < superseded@.len() && a != b implies superseded@[a] != superseded@[b] by {
                                    if a < sp.len() && b < sp.len() {
                                        assert(superseded@[a] == sp[a] && superseded@[b] == sp[b]);
                                    }
                                }
                            }
                        } else {
                            proof {
                                let x = choose|x: int| 0 <= x < q && superseded@[x] == num;
                                assert(superseded@.to_set().insert(num) =~= superseded@.to_set());
                            }
                        }
                        assert(superseded@.to_set() =~= sup0.union(redefined(base, s.entries@.take(j + 1))));
                    } else {
                        assert(superseded@.to_set() =~= sup0.union(redefined(base, s.entries@.take(j + 1))));
                    }
                    j = j + 1;
                }
                assert(s.entries@.take(j as int) =~= s.entries@);
                proof {
                    assert(revisions_upto(sections@, i + 1) == revisions_upto(sections@, i as int).push((i as int, *at, *s)));
                    assert forall|x: int| 0 <= x < revisions@.len() implies {
                        let (k, a2, s2) = revisions_upto(sections@, i + 1)[x];
                        revision_reads(#[trigger] revisions@[x], k, a2, s2)
                    } by {
                        if x < revisions@.len() - 1 {
                            assert(revisions_upto(sections@, i + 1)[x] == revisions_upto(sections@, i as int)[x]);
                        }
                    }
                }
            },
            None => {
                proof {
                    assert(revisions_upto(sections@, i + 1) == revisions_upto(sections@, i as int));
                }
            },
        }
        i = i + 1;
    }
    (revisions, merged, superseded)
}

/// What a scan of the file found, as a cross-reference: each object written in the file
/// at the offset the scan found it, generation 0.
pub open spec fn scanned_records(scanned: Seq<(u32, u64)>) -> Seq<(u32, XrefRecord)> {
    scanned.map_values(|e: (u32, u64)| (e.0, XrefRecord::InFile { offset: e.1, generation: 0 }))
}

/// The cross-reference the census counts: the merged chain, or what the scan found
/// when the chain yields nothing (7.5.4).
pub open spec fn census_source(sections: Seq<(u64, Option<XrefSection>)>, scanned: Seq<(u32, u64)>) -> Map<u32, XrefRecord> {
    let m = merged_upto(sections, sections.len() as int);
    if m.dom() =~= Set::empty() {
        merge_entries(Map::empty(), scanned_records(scanned))
    } else {
        m
    }
}

/// What a census says of the sorted cross-reference `v`.
pub open spec fn census_reads(v: Seq<(u32, XrefRecord)>, c: ObjectCensus, streams: Seq<ObjectStream>) -> bool {
    &&& v.len() == 0 ==> c.highest_number == 0
    &&& v.len() > 0 ==> c.highest_number == v.last().0
    &&& c.in_file == count_kind(v, 0)
    &&& c.free == count_kind(v, 1)
    &&& c.in_object_stream == count_kind(v, 2)
    &&& forall|a: int, b: int| 0 <= a < b < streams.len() ==> stream_before(#[trigger] streams[a], #[trigger] streams[b])
    &&& forall|i: int| 0 <= i < streams.len() ==> (#[trigger] streams[i]).carries == count_in(v, streams[i].container)
    &&& forall|k: u32| count_in(v, k) > 0 <==> #[trigger] containers_of(streams).contains(k)
}

/// The scan's findings as a sorted cross-reference, a number found twice taking the
/// later offset.
fn scanned_xref(scanned: &Vec<(u32, u64)>) -> (r: Vec<(u32, XrefRecord)>)
    ensures
        represents(r@, merge_entries(Map::empty(), scanned_records(scanned@))),
{
    let mut merged: Vec<(u32, XrefRecord)> = Vec::new();
    let ghost recs = scanned_records(scanned@);
    let mut j: usize = 0;
    assert(recs.take(0) =~= Seq::<(u32, XrefRecord)>::empty());
    while j < scanned.len()
        invariant
            j <= scanned@.len(),
            recs == scanned_records(scanned@),
            represents(merged@, merge_entries(Map::empty(), recs.take(j as int))),
        decreases scanned@.len() - j,
    {
        let ghost pre = recs.take(j as int);
        assert(recs.take(j + 1).drop_last() =~= pre);
        let (num, at) = scanned[j];
        define(&mut merged, num, XrefRecord::InFile { offset: at, generation: 0 }, Ghost(merge_entries(Map::empty(), pre)));
        j = j + 1;
    }
    assert(recs.take(j as int) =~= recs);
    merged
}

impl FileStructure {
    /// Reports a file's layout from what the readers found in it: its `%PDF-` version,
    /// where the header stood, its size, the cross-reference chain oldest first (a
    /// section that would not read as `None`), what scanning the file for `obj`
    /// headers found, the trailer, the decisions the document reader took, and the
    /// object table it assembled.
    pub fn survey(
        version: String,
        header_offset: usize,
        size: usize,
        sections: &Vec<(u64, Option<XrefSection>)>,
        scanned: &Vec<(u32, u64)>,
        trailer: Option<&Dict>,
        decisions: Vec<Decision>,
        arena: &Arena,
    ) -> (r: Self)
        requires
            sections@.len() < usize::MAX,
            all_uses(*arena).len() < usize::MAX,
        ensures
            r.version == version,
            r.header_offset == header_offset,
            r.size == size,
            r.revisions@.len() == revisions_upto(sections@, sections@.len() as int).len(),
            forall|i: int| 0 <= i < r.revisions@.len() ==> {
                let (k, at, s) = revisions_upto(sections@, sections@.len() as int)[i];
                revision_reads(#[trigger] r.revisions@[i], k, at, s)
            },
            r.objects.from_scan == (merged_upto(sections@, sections@.len() as int).dom() =~= Set::empty()),
            exists|v: Seq<(u32, XrefRecord)>| represents(v, census_source(sections@, scanned@))
                && census_reads(v, r.objects, r.object_streams@),
            r.superseded == superseded_upto(sections@, sections@.len() as int).len(),
            r.encrypted == (trailer matches Some(t) && t.spec_get("Encrypt"@).is_some()),
            r.declares_root == (trailer matches Some(t) && t.spec_get("Root"@).is_some()),
            r.decisions == decisions,
            census_sorted(r.filters@),
            forall|i: int| 0 <= i < r.filters@.len() ==> use_reads(*arena, #[trigger] r.filters@[i]),
            forall|n: Seq<char>| #[trigger] names_used(all_uses(*arena)).contains(n) <==> exists|i: int|
                0 <= i < r.filters@.len() && r.filters@[i].name@ == n,
    {
        let (revisions, merged, superseded) = walk_sections(sections);
        let ghost m = merged_upto(sections@, sections@.len() as int);
        let from_scan = merged.len() == 0;
        proof {
            if from_scan {
                assert(m.dom() =~= Set::empty()) by {
                    if exists|k: u32| m.dom().contains(k) {
                        let k = choose|k: u32| m.dom().contains(k);
                        let i = choose|i: int| 0 <= i < merged@.len() && merged@[i].0 == k;
                    }
                }
            } else {
                assert(m.dom().contains(merged@[0].0));
            }
            superseded@.unique_seq_to_set();
        }
        let source = if from_scan { scanned_xref(scanned) } else { merged };
        let (objects, object_streams) = take_census(&source, from_scan);
        assert(represents(source@, census_source(sections@, scanned@)));
        assert(census_reads(source@, objects, object_streams@));
        let (encrypted, declares_root) = match trailer {
            Some(t) => (t.contains_key("Encrypt"), t.contains_key("Root")),
            None => (false, false),
        };
        let filters = take_filter_census(arena);
        FileStructure {
            version,
            header_offset,
            size,
            revisions,
            objects,
            object_streams,
            encrypted,
            declares_root,
            superseded: superseded.len(),
            decisions,
            filters,
        }
    }

    /// Whether the file was read without departing from the standard.
    pub fn is_conforming(&self) -> (r: bool)
        ensures
            r == (self.decisions@.len() == 0),
    {
        self.decisions.len() == 0
    }

    /// How many decisions fall at each severity: ambiguities, repairs, violations.
    pub fn decision_counts(&self) -> (r: (usize, usize, usize))
        ensures
            r.0 == count_severity(self.decisions@, Severity::Ambiguity),
            r.1 == count_severity(self.decisions@, Severity::Repaired),
            r.2 == count_severity(self.decisions@, Severity::Violation),
    {
        let mut a: usize = 0;
        let mut r: usize = 0;
        let mut v: usize = 0;
        let mut i: usize = 0;
        while i < self.decisions.len()
            invariant
                i <= self.decisions@.len(),
                a == count_severity(self.decisions@.take(i as int), Severity::Ambiguity),
                r == count_severity(self.decisions@.take(i as int), Severity::Repaired),
                v == count_severity(self.decisions@.take(i as int), Severity::Violation),
            decreases self.decisions@.len() - i,
        {
            proof {
                assert(self.decisions@.take(i + 1).drop_last() =~= self.decisions@.take(i as int));
                lemma_severity_bounded(self.decisions@.take(i as int), Severity::Ambiguity);
                lemma_severity_bounded(self.decisions@.take(i as int), Severity::Repaired);
                lemma_severity_bounded(self.decisions@.take(i as int), Severity::Violation);
            }
            match self.decisions[i].severity {
                Severity::Ambiguity => a = a + 1,
                Severity::Repaired => r = r + 1,
                Severity::Violation => v = v + 1,
            }
            i = i + 1;
        }
        assert(self.decisions@.take(i as int) =~= self.decisions@);
        (a, r, v)
    }
}

/// A name the uses mention is counted at least once.
proof fn lemma_named_is_counted(uses: Seq<(Seq<char>, bool)>, n: Seq<char>)
    requires
        names_used(uses).contains(n),
    ensures
        count_of(uses, n) >= 1,
    decreases uses.len(),
{
    let i = choose|i: int| 0 <= i < uses.len() && #[trigger] uses[i].0 == n;
    if uses.last().0 != n {
        let rest = uses.drop_last();
        assert(rest[i] == uses[i]);
        assert(names_used(rest).contains(n));
        lemma_named_is_counted(rest, n);
    }
}

/// A census as [`take_filter_census`] gives it names each filter once, counts each at
/// least one stream, and counts no more of its streams as images than it counts
/// streams.
pub proof fn law_census_names_each_filter_once(arena: Arena, r: Seq<FilterUse>)
    requires
        census_sorted(r),
        forall|i: int| 0 <= i < r.len() ==> use_reads(arena, #[trigger] r[i]),
        forall|n: Seq<char>| #[trigger] names_used(all_uses(arena)).contains(n) <==> exists|i: int|
            0 <= i < r.len() && r[i].name@ == n,
    ensures
        forall|a: int, b: int| 0 <= a < b < r.len() ==> (#[trigger] r[a]).name@ != (#[trigger] r[b]).name@,
        forall|i: int| 0 <= i < r.len() ==> 1 <= (#[trigger] r[i]).streams && r[i].on_images <= r[i].streams,
{
    assert forall|a: int, b: int| 0 <= a < b < r.len() implies (#[trigger] r[a]).name@ != (#[trigger] r[b]).name@ by {
        assert(before(r[a], r[b]));
        assert(use_reads(arena, r[a]) && use_reads(arena, r[b]));
        lemma_lex_irreflexive(r[a].name@);
    }
    assert forall|i: int| 0 <= i < r.len() implies 1 <= (#[trigger] r[i]).streams && r[i].on_images <= r[i].streams by {
        assert(use_reads(arena, r[i]));
        assert(names_used(all_uses(arena)).contains(r[i].name@));
        lemma_named_is_counted(all_uses(arena), r[i].name@);
        lemma_counts_bounded(all_uses(arena), r[i].name@);
    }
}

} // verus!
