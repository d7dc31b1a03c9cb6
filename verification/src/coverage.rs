//! How much of what a corpus presents this engine reads the *contents* of.
//!
//! The denominator is what the files contain, not what the standard defines: a construct
//! no file writes can neither raise the figure nor lower it. The numerator is reading
//! contents, not reaching them. Three axes are measured — catalogue entries (7.7.2),
//! annotation entries (12.5) and stream filters (7.4) — each as a set, so that merging
//! two files does not count the same construct twice.

use crate::catalog::{CatalogEntry, CatalogReport, Support};
use crate::error::{concat, text};
use crate::file_structure::FilterUse;
use crate::object::str_eq;
use crate::text::{
    find_sorted, insert_sorted, lemma_sorted_len, minus_sorted, str_set, strictly_sorted, union_into,
    views,
};
use vstd::prelude::*;

verus! {

/// How many axes are measured.
pub const AXIS_COUNT: usize = 3;

/// The `i`th axis and the clause it is drawn from.
pub open spec fn spec_axis(i: int) -> (Seq<char>, Seq<char>) {
    if i == 0 {
        ("catalogue entries"@, "7.7.2"@)
    } else if i == 1 {
        ("annotation entries"@, "12.5"@)
    } else {
        ("stream filters"@, "7.4"@)
    }
}

/// The `i`th axis and the clause it is drawn from.
pub fn axis(i: usize) -> (r: (&'static str, &'static str))
    requires
        i < AXIS_COUNT,
    ensures
        r.0@ == spec_axis(i as int).0,
        r.1@ == spec_axis(i as int).1,
{
    if i == 0 {
        ("catalogue entries", "7.7.2")
    } else if i == 1 {
        ("annotation entries", "12.5")
    } else {
        ("stream filters", "7.4")
    }
}

/// The index of the axis named `name`, searching from the `i`th.
pub open spec fn find_axis(name: Seq<char>, i: int) -> Option<int>
    decreases AXIS_COUNT - i,
{
    if i < 0 || i >= AXIS_COUNT {
        None
    } else if spec_axis(i).0 == name {
        Some(i)
    } else {
        find_axis(name, i + 1)
    }
}

/// The index of the axis named `name`.
pub fn axis_index(name: &str) -> (r: Option<usize>)
    ensures
        r matches Some(i) ==> i < AXIS_COUNT && find_axis(name@, 0) == Some(i as int),
        r is None ==> find_axis(name@, 0) is None,
{
    let mut i: usize = 0;
    while i < AXIS_COUNT
        invariant
            i <= AXIS_COUNT,
            find_axis(name@, 0) == find_axis(name@, i as int),
        decreases AXIS_COUNT - i,
    {
        if str_eq(axis(i).0, name) {
            return Some(i);
        }
        i = i + 1;
    }
    None
}

/// One axis's figure.
#[derive(Clone, Copy)]
pub struct AxisCoverage {
    /// The axis.
    pub axis: &'static str,
    /// The clause it is drawn from.
    pub clause: &'static str,
    /// Distinct constructs the files present.
    pub presented: usize,
    /// How many of those the engine reads the contents of.
    pub read: usize,
}

/// What one or more files present, and how much of it is read: per axis, a sorted list
/// of distinct constructs.
pub struct Coverage {
    presented: Vec<Vec<String>>,
    read: Vec<Vec<String>>,
}

/// Each axis is found by its own name.
pub proof fn lemma_axis_names()
    ensures
        find_axis("catalogue entries"@, 0) == Some(0int),
        find_axis("annotation entries"@, 0) == Some(1int),
        find_axis("stream filters"@, 0) == Some(2int),
{
    reveal_strlit("catalogue entries");
    reveal_strlit("annotation entries");
    reveal_strlit("stream filters");
    assert("catalogue entries"@[0] == 'c');
    assert("annotation entries"@[0] == 'a');
    assert("stream filters"@[0] == 's');
    assert(find_axis("annotation entries"@, 1) == Some(1int));
    assert(find_axis("stream filters"@, 2) == Some(2int));
    assert(find_axis("stream filters"@, 1) == Some(2int));
}

/// The keys of the first `n` catalogue entries.
pub open spec fn catalogue_keys(e: Seq<CatalogEntry>, n: int) -> Set<Seq<char>>
    decreases n,
{
    if n <= 0 || n > e.len() {
        Set::empty()
    } else {
        catalogue_keys(e, n - 1).insert(e[n - 1].key@)
    }
}

/// The keys of the first `n` catalogue entries whose contents are modelled.
pub open spec fn catalogue_modelled(e: Seq<CatalogEntry>, n: int) -> Set<Seq<char>>
    decreases n,
{
    if n <= 0 || n > e.len() {
        Set::empty()
    } else if e[n - 1].support == Support::Modelled {
        catalogue_modelled(e, n - 1).insert(e[n - 1].key@)
    } else {
        catalogue_modelled(e, n - 1)
    }
}

/// How an annotation entry is named on its axis: per subtype, because an entry read on
/// one subtype is a different construct from the same key on another.
pub open spec fn annotation_name(subtype: Seq<char>, key: Seq<char>) -> Seq<char> {
    "/"@ + subtype + "  "@ + key
}

/// The names of the first `n` annotation entries, each a subtype, a key and whether
/// the subtype's readers read it.
pub open spec fn annotation_names(a: Seq<(String, String, bool)>, n: int) -> Set<Seq<char>>
    decreases n,
{
    if n <= 0 || n > a.len() {
        Set::empty()
    } else {
        annotation_names(a, n - 1).insert(annotation_name(a[n - 1].0@, a[n - 1].1@))
    }
}

/// The names of the first `n` annotation entries that are read.
pub open spec fn annotation_read(a: Seq<(String, String, bool)>, n: int) -> Set<Seq<char>>
    decreases n,
{
    if n <= 0 || n > a.len() {
        Set::empty()
    } else if a[n - 1].2 {
        annotation_read(a, n - 1).insert(annotation_name(a[n - 1].0@, a[n - 1].1@))
    } else {
        annotation_read(a, n - 1)
    }
}

/// The names of the first `n` filters.
pub open spec fn filter_names(f: Seq<FilterUse>, n: int) -> Set<Seq<char>>
    decreases n,
{
    if n <= 0 || n > f.len() {
        Set::empty()
    } else {
        filter_names(f, n - 1).insert(f[n - 1].name@)
    }
}

/// The names of the first `n` filters that this engine decodes.
pub open spec fn filter_decoded(f: Seq<FilterUse>, n: int) -> Set<Seq<char>>
    decreases n,
{
    if n <= 0 || n > f.len() {
        Set::empty()
    } else if f[n - 1].decoded {
        filter_decoded(f, n - 1).insert(f[n - 1].name@)
    } else {
        filter_decoded(f, n - 1)
    }
}

impl Coverage {
    /// One list per axis, each strictly sorted.
    pub closed spec fn wf(&self) -> bool {
        &&& self.presented@.len() == AXIS_COUNT
        &&& self.read@.len() == AXIS_COUNT
        &&& forall|i: int| 0 <= i < AXIS_COUNT ==> strictly_sorted(views(#[trigger] self.presented@[i]@))
        &&& forall|i: int| 0 <= i < AXIS_COUNT ==> strictly_sorted(views(#[trigger] self.read@[i]@))
    }

    /// The constructs presented on the `i`th axis.
    pub closed spec fn presented_on(&self, i: int) -> Set<Seq<char>> {
        if 0 <= i < self.presented@.len() {
            str_set(self.presented@[i]@)
        } else {
            Set::empty()
        }
    }

    /// The constructs read on the `i`th axis.
    pub closed spec fn read_on(&self, i: int) -> Set<Seq<char>> {
        if 0 <= i < self.read@.len() {
            str_set(self.read@[i]@)
        } else {
            Set::empty()
        }
    }

    /// Each axis's sets are finite.
    pub proof fn lemma_finite(&self, i: int)
        requires
            self.wf(),
            0 <= i < AXIS_COUNT,
        ensures
            self.presented_on(i).finite(),
            self.read_on(i).finite(),
    {
        lemma_sorted_len(self.presented@[i]@);
        lemma_sorted_len(self.read@[i]@);
    }

    /// Nothing presented and nothing read.
    pub fn new() -> (c: Self)
        ensures
            c.wf(),
            forall|i: int| #[trigger] c.presented_on(i) == Set::<Seq<char>>::empty(),
            forall|i: int| #[trigger] c.read_on(i) == Set::<Seq<char>>::empty(),
    {
        let mut presented: Vec<Vec<String>> = Vec::new();
        let mut read: Vec<Vec<String>> = Vec::new();
        let mut i: usize = 0;
        while i < AXIS_COUNT
            invariant
                i <= AXIS_COUNT,
                presented@.len() == i,
                read@.len() == i,
                forall|k: int| 0 <= k < i ==> (#[trigger] presented@[k])@.len() == 0,
                forall|k: int| 0 <= k < i ==> (#[trigger] read@[k])@.len() == 0,
            decreases AXIS_COUNT - i,
        {
            presented.push(Vec::new());
            read.push(Vec::new());
            i = i + 1;
        }
        let c = Coverage { presented, read };
        assert forall|i: int| #[trigger] c.presented_on(i) == Set::<Seq<char>>::empty() by {
            if 0 <= i < AXIS_COUNT {
                assert(str_set(c.presented@[i]@) =~= Set::<Seq<char>>::empty());
            }
        }
        assert forall|i: int| #[trigger] c.read_on(i) == Set::<Seq<char>>::empty() by {
            if 0 <= i < AXIS_COUNT {
                assert(str_set(c.read@[i]@) =~= Set::<Seq<char>>::empty());
            }
        }
        c
    }

    /// Measures one file from what was read of it: its catalogue, the entries of its
    /// annotations (subtype, key, and whether that subtype's readers read it), and the
    /// filters its streams name.
    ///
    /// A catalogue entry counts as read when its contents are modelled; a filter when
    /// this engine decodes it.
    pub fn of(catalog: &CatalogReport, annotations: &Vec<(String, String, bool)>, filters: &Vec<FilterUse>) -> (c: Self)
        ensures
            c.wf(),
            c.honest(),
            c.presented_on(0) == catalogue_keys(catalog.entries@, catalog.entries@.len() as int),
            c.read_on(0) == catalogue_modelled(catalog.entries@, catalog.entries@.len() as int),
            c.presented_on(1) == annotation_names(annotations@, annotations@.len() as int),
            c.read_on(1) == annotation_read(annotations@, annotations@.len() as int),
            c.presented_on(2) == filter_names(filters@, filters@.len() as int),
            c.read_on(2) == filter_decoded(filters@, filters@.len() as int),
    {
        proof {
            lemma_axis_names();
        }
        let mut c = Coverage::new();
        let mut i: usize = 0;
        while i < catalog.entries.len()
            invariant
                i <= catalog.entries@.len(),
                c.wf(),
                c.honest(),
                c.presented_on(0) == catalogue_keys(catalog.entries@, i as int),
                c.read_on(0) == catalogue_modelled(catalog.entries@, i as int),
                c.presented_on(1) == Set::<Seq<char>>::empty(),
                c.read_on(1) == Set::<Seq<char>>::empty(),
                c.presented_on(2) == Set::<Seq<char>>::empty(),
                c.read_on(2) == Set::<Seq<char>>::empty(),
                find_axis("catalogue entries"@, 0) == Some(0int),
            decreases catalog.entries@.len() - i,
        {
            let ghost c0 = c;
            let e = &catalog.entries[i];
            c.present("catalogue entries", e.key.as_str());
            if e.support.models_contents() {
                c.mark_read("catalogue entries", e.key.as_str());
            }
            assert forall|x: int| 0 <= x < AXIS_COUNT implies #[trigger] c.read_on(x).subset_of(c.presented_on(x)) by {
                assert(c0.read_on(x).subset_of(c0.presented_on(x)));
                assert(c0.presented_on(x).subset_of(c.presented_on(x)));
            }
            i = i + 1;
        }
        let mut j: usize = 0;
        while j < annotations.len()
            invariant
                j <= annotations@.len(),
                c.wf(),
                c.honest(),
                c.presented_on(0) == catalogue_keys(catalog.entries@, catalog.entries@.len() as int),
                c.read_on(0) == catalogue_modelled(catalog.entries@, catalog.entries@.len() as int),
                c.presented_on(1) == annotation_names(annotations@, j as int),
                c.read_on(1) == annotation_read(annotations@, j as int),
                c.presented_on(2) == Set::<Seq<char>>::empty(),
                c.read_on(2) == Set::<Seq<char>>::empty(),
                find_axis("annotation entries"@, 0) == Some(1int),
            decreases annotations@.len() - j,
        {
            let ghost c0 = c;
            let (subtype, key, read) = &annotations[j];
            let name = concat(concat(concat(text("/"), subtype.as_str()), "  "), key.as_str());
            c.present("annotation entries", name.as_str());
            if *read {
                c.mark_read("annotation entries", name.as_str());
            }
            assert forall|x: int| 0 <= x < AXIS_COUNT implies #[trigger] c.read_on(x).subset_of(c.presented_on(x)) by {
                assert(c0.read_on(x).subset_of(c0.presented_on(x)));
                assert(c0.presented_on(x).subset_of(c.presented_on(x)));
            }
            j = j + 1;
        }
        let mut k: usize = 0;
        while k < filters.len()
            invariant
                k <= filters@.len(),
                c.wf(),
                c.honest(),
                c.presented_on(0) == catalogue_keys(catalog.entries@, catalog.entries@.len() as int),
                c.read_on(0) == catalogue_modelled(catalog.entries@, catalog.entries@.len() as int),
                c.presented_on(1) == annotation_names(annotations@, annotations@.len() as int),
                c.read_on(1) == annotation_read(annotations@, annotations@.len() as int),
                c.presented_on(2) == filter_names(filters@, k as int),
                c.read_on(2) == filter_decoded(filters@, k as int),
                find_axis("stream filters"@, 0) == Some(2int),
            decreases filters@.len() - k,
        {
            let ghost c0 = c;
            let f = &filters[k];
            c.present("stream filters", f.name.as_str());
            if f.decoded {
                c.mark_read("stream filters", f.name.as_str());
            }
            assert forall|x: int| 0 <= x < AXIS_COUNT implies #[trigger] c.read_on(x).subset_of(c.presented_on(x)) by {
                assert(c0.read_on(x).subset_of(c0.presented_on(x)));
                assert(c0.presented_on(x).subset_of(c.presented_on(x)));
            }
            k = k + 1;
        }
        c
    }

    /// What each file marks read it has also marked presented: the numerator of every
    /// axis is part of its denominator.
    pub closed spec fn honest(&self) -> bool {
        forall|i: int| 0 <= i < AXIS_COUNT ==> #[trigger] self.read_on(i).subset_of(self.presented_on(i))
    }

    /// Constructs read and constructs presented, over every axis.
    pub closed spec fn spec_total(&self) -> (nat, nat) {
        (
            self.read_on(0).len() + self.read_on(1).len() + self.read_on(2).len(),
            self.presented_on(0).len() + self.presented_on(1).len() + self.presented_on(2).len(),
        )
    }

    /// Folds another file's coverage into this one: each axis becomes the union of the
    /// two, so a construct both present counts once.
    pub fn merge(&mut self, other: &Self)
        requires
            old(self).wf(),
            other.wf(),
        ensures
            final(self).wf(),
            forall|i: int| #[trigger] final(self).presented_on(i) == old(self).presented_on(i).union(
                other.presented_on(i),
            ),
            forall|i: int| #[trigger] final(self).read_on(i) == old(self).read_on(i).union(
                other.read_on(i),
            ),
            old(self).honest() && other.honest() ==> final(self).honest(),
    {
        let mut i: usize = 0;
        while i < AXIS_COUNT
            invariant
                i <= AXIS_COUNT,
                self.wf(),
                other.wf(),
                forall|k: int| 0 <= k < i ==> #[trigger] self.presented_on(k) == old(self).presented_on(k).union(other.presented_on(k)),
                forall|k: int| 0 <= k < i ==> #[trigger] self.read_on(k) == old(self).read_on(k).union(other.read_on(k)),
                forall|k: int| !(0 <= k < i) ==> #[trigger] self.presented_on(k) == old(self).presented_on(k),
                forall|k: int| !(0 <= k < i) ==> #[trigger] self.read_on(k) == old(self).read_on(k),
            decreases AXIS_COUNT - i,
        {
            let ghost mid = *self;
            let mut p = self.presented.remove(i);
            union_into(&mut p, &other.presented[i]);
            self.presented.insert(i, p);
            assert(self.presented@ =~= mid.presented@.update(i as int, p));
            let mut r = self.read.remove(i);
            union_into(&mut r, &other.read[i]);
            self.read.insert(i, r);
            assert(self.read@ =~= mid.read@.update(i as int, r));
            assert(mid.presented_on(i as int) == old(self).presented_on(i as int));
            assert(mid.read_on(i as int) == old(self).read_on(i as int));
            assert forall|k: int| 0 <= k < i + 1 implies #[trigger] self.presented_on(k) == old(self).presented_on(k).union(other.presented_on(k)) by {
                if k < i {
                    assert(self.presented@[k] == mid.presented@[k]);
                    assert(mid.presented_on(k) == old(self).presented_on(k).union(other.presented_on(k)));
                }
            }
            assert forall|k: int| 0 <= k < i + 1 implies #[trigger] self.read_on(k) == old(self).read_on(k).union(other.read_on(k)) by {
                if k < i {
                    assert(self.read@[k] == mid.read@[k]);
                    assert(mid.read_on(k) == old(self).read_on(k).union(other.read_on(k)));
                }
            }
            assert forall|k: int| !(0 <= k < i + 1) implies #[trigger] self.presented_on(k) == old(self).presented_on(k) by {
                if 0 <= k < AXIS_COUNT {
                    assert(self.presented@[k] == mid.presented@[k]);
                }
                assert(mid.presented_on(k) == old(self).presented_on(k));
            }
            assert forall|k: int| !(0 <= k < i + 1) implies #[trigger] self.read_on(k) == old(self).read_on(k) by {
                if 0 <= k < AXIS_COUNT {
                    assert(self.read@[k] == mid.read@[k]);
                }
                assert(mid.read_on(k) == old(self).read_on(k));
            }
            i = i + 1;
        }
        proof {
            if old(self).honest() && other.honest() {
                assert forall|k: int| 0 <= k < AXIS_COUNT implies #[trigger] self.read_on(k).subset_of(self.presented_on(k)) by {
                    assert(old(self).read_on(k).subset_of(old(self).presented_on(k)));
                    assert(other.read_on(k).subset_of(other.presented_on(k)));
                }
            }
        }
    }

    /// Each axis, in the order they are declared, with how many distinct constructs it
    /// presents and how many of those are read.
    pub fn axes(&self) -> (r: Vec<AxisCoverage>)
        requires
            self.wf(),
        ensures
            r@.len() == AXIS_COUNT,
            forall|i: int| 0 <= i < AXIS_COUNT ==> {
                &&& (#[trigger] r@[i]).axis@ == spec_axis(i).0
                &&& r@[i].clause@ == spec_axis(i).1
                &&& r@[i].presented == self.presented_on(i).len()
                &&& r@[i].read == self.read_on(i).len()
            },
    {
        let mut out: Vec<AxisCoverage> = Vec::new();
        let mut i: usize = 0;
        while i < AXIS_COUNT
            invariant
                i <= AXIS_COUNT,
                self.wf(),
                out@.len() == i,
                forall|k: int| 0 <= k < i ==> {
                    &&& (#[trigger] out@[k]).axis@ == spec_axis(k).0
                    &&& out@[k].clause@ == spec_axis(k).1
                    &&& out@[k].presented == self.presented_on(k).len()
                    &&& out@[k].read == self.read_on(k).len()
                },
            decreases AXIS_COUNT - i,
        {
            proof {
                lemma_sorted_len(self.presented@[i as int]@);
                lemma_sorted_len(self.read@[i as int]@);
            }
            let (name, clause) = axis(i);
            out.push(AxisCoverage {
                axis: name,
                clause,
                presented: self.presented[i].len(),
                read: self.read[i].len(),
            });
            i = i + 1;
        }
        out
    }

    /// Every axis at once: constructs read, constructs presented. An axis weighs by how
    /// many distinct constructs it presents.
    pub fn total(&self) -> (r: (usize, usize))
        requires
            self.wf(),
            self.spec_total().0 <= usize::MAX,
            self.spec_total().1 <= usize::MAX,
        ensures
            r.0 == self.spec_total().0,
            r.1 == self.spec_total().1,
    {
        proof {
            lemma_sorted_len(self.presented@[0]@);
            lemma_sorted_len(self.presented@[1]@);
            lemma_sorted_len(self.presented@[2]@);
            lemma_sorted_len(self.read@[0]@);
            lemma_sorted_len(self.read@[1]@);
            lemma_sorted_len(self.read@[2]@);
        }
        (
            self.read[0].len() + self.read[1].len() + self.read[2].len(),
            self.presented[0].len() + self.presented[1].len() + self.presented[2].len(),
        )
    }

    /// The constructs an axis presents that are not read, in sorted order: what a caller
    /// acts on. An axis of another name presents nothing.
    pub fn unread(&self, axis: &str) -> (r: Vec<String>)
        requires
            self.wf(),
        ensures
            strictly_sorted(views(r@)),
            str_set(r@) == match find_axis(axis@, 0) {
                Some(i) => self.presented_on(i).difference(self.read_on(i)),
                None => Set::<Seq<char>>::empty(),
            },
    {
        match axis_index(axis) {
            Some(i) => minus_sorted(&self.presented[i], &self.read[i]),
            None => {
                let r: Vec<String> = Vec::new();
                assert(str_set(r@) =~= Set::<Seq<char>>::empty());
                r
            },
        }
    }

    /// Records that the files present `construct` on the axis named `axis`.
    fn present(&mut self, axis: &str, construct: &str)
        requires
            old(self).wf(),
        ensures
            final(self).wf(),
            forall|i: int| #[trigger] final(self).read_on(i) == old(self).read_on(i),
            forall|i: int| #[trigger] final(self).presented_on(i) == if find_axis(axis@, 0) == Some(i) {
                old(self).presented_on(i).insert(construct@)
            } else {
                old(self).presented_on(i)
            },
    {
        if let Some(i) = axis_index(axis) {
            let mut s = self.presented.remove(i);
            insert_sorted(&mut s, construct);
            self.presented.insert(i, s);
            assert(self.presented@ =~= old(self).presented@.update(i as int, s));
        }
    }

    /// Records that the engine reads `construct` on the axis named `axis`.
    fn mark_read(&mut self, axis: &str, construct: &str)
        requires
            old(self).wf(),
        ensures
            final(self).wf(),
            forall|i: int| #[trigger] final(self).presented_on(i) == old(self).presented_on(i),
            forall|i: int| #[trigger] final(self).read_on(i) == if find_axis(axis@, 0) == Some(i) {
                old(self).read_on(i).insert(construct@)
            } else {
                old(self).read_on(i)
            },
    {
        if let Some(i) = axis_index(axis) {
            let mut s = self.read.remove(i);
            insert_sorted(&mut s, construct);
            self.read.insert(i, s);
            assert(self.read@ =~= old(self).read@.update(i as int, s));
        }
    }
}

/// Merging the coverage of a file into that of the same file counts nothing twice: each
/// axis, and so the total, is what it was.
pub proof fn law_merging_a_copy_changes_nothing(a: Coverage, b: Coverage)
    requires
        forall|i: int| #[trigger] a.presented_on(i) == b.presented_on(i),
        forall|i: int| #[trigger] a.read_on(i) == b.read_on(i),
    ensures
        forall|i: int| #[trigger] a.presented_on(i).union(b.presented_on(i)) == a.presented_on(i),
        forall|i: int| #[trigger] a.read_on(i).union(b.read_on(i)) == a.read_on(i),
{
    assert forall|i: int| #[trigger] a.presented_on(i).union(b.presented_on(i)) == a.presented_on(i) by {
        assert(a.presented_on(i).union(b.presented_on(i)) =~= a.presented_on(i));
    }
    assert forall|i: int| #[trigger] a.read_on(i).union(b.read_on(i)) == a.read_on(i) by {
        assert(a.read_on(i).union(b.read_on(i)) =~= a.read_on(i));
    }
}

/// On coverage built from files, what is read is part of what is presented, on each
/// axis; so it is never more, on each axis and in total, and what is left unread on an
/// axis is what is presented less what is read: the figure cannot exceed the whole.
pub proof fn law_read_within_presented(c: Coverage)
    requires
        c.wf(),
        c.honest(),
    ensures
        forall|i: int| 0 <= i < AXIS_COUNT ==> #[trigger] c.read_on(i).subset_of(c.presented_on(i)),
        forall|i: int| 0 <= i < AXIS_COUNT ==> #[trigger] c.read_on(i).len() <= c.presented_on(i).len(),
        forall|i: int|
            0 <= i < AXIS_COUNT ==> #[trigger] c.presented_on(i).difference(c.read_on(i)).len() == c.presented_on(i).len()
                - c.read_on(i).len(),
        c.spec_total().0 <= c.spec_total().1,
{
    assert forall|i: int| 0 <= i < AXIS_COUNT implies #[trigger] c.read_on(i).len() <= c.presented_on(i).len() by {
        c.lemma_finite(i);
        vstd::set_lib::lemma_len_subset(c.read_on(i), c.presented_on(i));
    }
    assert forall|i: int|
        0 <= i < AXIS_COUNT implies #[trigger] c.presented_on(i).difference(c.read_on(i)).len() == c.presented_on(i).len()
            - c.read_on(i).len() by {
        c.lemma_finite(i);
        vstd::set_lib::lemma_len_subset(c.read_on(i), c.presented_on(i));
        vstd::set_lib::lemma_set_difference_len(c.presented_on(i), c.read_on(i));
        assert(c.presented_on(i).intersect(c.read_on(i)) =~= c.read_on(i));
    }
    assert(c.read_on(0).len() <= c.presented_on(0).len());
    assert(c.read_on(1).len() <= c.presented_on(1).len());
    assert(c.read_on(2).len() <= c.presented_on(2).len());
}

} // verus!
