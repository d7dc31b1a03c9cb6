//! The object model this crate reads (7.3): the eight basic types, dictionaries keyed by
//! name, and a table of indirect objects indexed by object number.
//!
//! Every reader in this crate takes its input in this form. A dictionary keeps its
//! entries in the order they were written, and a lookup answers with the first entry of
//! that name, so a dictionary that repeats a key reads the way a forward reader reads it.

use vstd::prelude::*;

verus! {

/// One PDF object (7.3).
#[derive(Debug, PartialEq)]
pub enum Object {
    /// `null`.
    Null,
    /// `true` or `false`.
    Boolean(bool),
    /// An integer.
    Integer(i64),
    /// A real number, kept as the digits the file wrote.
    Real(String),
    /// A name, without its leading solidus.
    Name(String),
    /// A literal string, as bytes.
    String(Vec<u8>),
    /// A hexadecimal string, as the bytes it encodes.
    Hex(Vec<u8>),
    /// A text string already decoded to Unicode (7.9.2.2).
    Text(String),
    /// An array.
    Array(Vec<Object>),
    /// A dictionary.
    Dictionary(Dict),
    /// A stream: its dictionary and its raw bytes.
    Stream(Dict, Vec<u8>),
    /// A reference to the indirect object of this number.
    Reference(u32),
}

/// A dictionary, in the order its entries were written.
#[derive(Debug, PartialEq)]
pub struct Dict {
    /// Each key and its value.
    pub entries: Vec<(String, Object)>,
}

/// The indirect objects of a document, indexed by object number. A number with no
/// object holds `Null`, which is what 7.3.10 says a reference to a missing object is.
#[derive(Debug)]
pub struct Arena {
    /// The object of each number.
    pub objects: Vec<Object>,
}

/// Whether two strings hold the same characters.
pub fn str_eq(a: &str, b: &str) -> (r: bool)
    ensures
        r == (a@ == b@),
{
    let x = a.to_owned();
    let y = b.to_owned();
    x == y
}

/// A copy of a list of bytes.
pub fn copy_byte_list(v: &Vec<u8>) -> (r: Vec<u8>)
    ensures
        r@ == v@,
{
    let mut out: Vec<u8> = Vec::new();
    let mut i: usize = 0;
    while i < v.len()
        invariant
            i <= v@.len(),
            out@ == v@.subrange(0, i as int),
        decreases v@.len() - i,
    {
        out.push(v[i]);
        assert(v@.subrange(0, i + 1) =~= v@.subrange(0, i as int).push(v@[i as int]));
        i = i + 1;
    }
    assert(v@.subrange(0, v@.len() as int) =~= v@);
    out
}


/// An object as values: what it holds, with no regard to where its bytes live.
pub enum ObjView {
    /// `null`.
    Null,
    /// A boolean.
    Boolean(bool),
    /// An integer.
    Integer(i64),
    /// A real's digits.
    Real(Seq<char>),
    /// A name.
    Name(Seq<char>),
    /// A literal string's bytes.
    Str(Seq<u8>),
    /// A hexadecimal string's bytes.
    Hex(Seq<u8>),
    /// A text string.
    Text(Seq<char>),
    /// An array.
    Array(Seq<ObjView>),
    /// A dictionary's entries, in order.
    Dictionary(Seq<(Seq<char>, ObjView)>),
    /// A stream's dictionary entries and bytes.
    Stream(Seq<(Seq<char>, ObjView)>, Seq<u8>),
    /// A reference.
    Reference(u32),
}

/// An object, as values.
pub open spec fn view_of(o: Object) -> ObjView
    decreases o, 0int,
{
    match o {
        Object::Null => ObjView::Null,
        Object::Boolean(b) => ObjView::Boolean(b),
        Object::Integer(i) => ObjView::Integer(i),
        Object::Real(r) => ObjView::Real(r@),
        Object::Name(n) => ObjView::Name(n@),
        Object::String(b) => ObjView::Str(b@),
        Object::Hex(b) => ObjView::Hex(b@),
        Object::Text(t) => ObjView::Text(t@),
        Object::Array(v) => ObjView::Array(views_of(v@, v@.len() as int)),
        Object::Dictionary(d) => ObjView::Dictionary(entry_views(d.entries@, d.entries@.len() as int)),
        Object::Stream(d, b) => ObjView::Stream(entry_views(d.entries@, d.entries@.len() as int), b@),
        Object::Reference(n) => ObjView::Reference(n),
    }
}

/// The first `n` objects, as values.
pub open spec fn views_of(s: Seq<Object>, n: int) -> Seq<ObjView>
    decreases s, n,
{
    if n <= 0 || n > s.len() {
        Seq::empty()
    } else {
        views_of(s, n - 1).push(view_of(s[n - 1]))
    }
}

/// The first `n` entries of a dictionary, as values.
pub open spec fn entry_views(s: Seq<(String, Object)>, n: int) -> Seq<(Seq<char>, ObjView)>
    decreases s, n,
{
    if n <= 0 || n > s.len() {
        Seq::empty()
    } else {
        entry_views(s, n - 1).push((s[n - 1].0@, view_of(s[n - 1].1)))
    }
}

/// A dictionary's entries, as values.
pub open spec fn dict_view(d: Dict) -> Seq<(Seq<char>, ObjView)> {
    entry_views(d.entries@, d.entries@.len() as int)
}

/// The objects of an arena, as values.
pub open spec fn arena_view(a: Arena) -> Seq<ObjView> {
    views_of(a.objects@, a.objects@.len() as int)
}

/// A list's values have its length and its elements' values.
pub proof fn lemma_views_of(s: Seq<Object>, n: int)
    requires
        0 <= n <= s.len(),
    ensures
        views_of(s, n).len() == n,
        forall|i: int| 0 <= i < n ==> #[trigger] views_of(s, n)[i] == view_of(s[i]),
    decreases n,
{
    if n > 0 {
        lemma_views_of(s, n - 1);
    }
}

/// A dictionary's values have its length and its entries' values.
pub proof fn lemma_entry_views(s: Seq<(String, Object)>, n: int)
    requires
        0 <= n <= s.len(),
    ensures
        entry_views(s, n).len() == n,
        forall|i: int| 0 <= i < n ==> #[trigger] entry_views(s, n)[i] == (s[i].0@, view_of(s[i].1)),
    decreases n,
{
    if n > 0 {
        lemma_entry_views(s, n - 1);
    }
}

/// The value of the first entry named `key`, among entry values.
pub open spec fn view_get(e: Seq<(Seq<char>, ObjView)>, key: Seq<char>) -> Option<ObjView>
    decreases e.len(),
{
    if e.len() == 0 {
        None
    } else if e[0].0 == key {
        Some(e[0].1)
    } else {
        view_get(e.drop_first(), key)
    }
}

/// An optional object, as values.
pub open spec fn opt_view_of(o: Option<Object>) -> Option<ObjView> {
    match o {
        Some(x) => Some(view_of(x)),
        None => None,
    }
}

/// Looking a key up in a dictionary's values finds the value of what the dictionary
/// finds.
pub proof fn lemma_view_get(d: Dict, key: Seq<char>)
    ensures
        view_get(dict_view(d), key) == opt_view_of(d.spec_get(key)),
{
    lemma_view_get_entries(d.entries@, key);
}

/// Looking a key up in entries' values finds the value of what the entries find.
proof fn lemma_view_get_entries(s: Seq<(String, Object)>, key: Seq<char>)
    ensures
        view_get(entry_views(s, s.len() as int), key) == opt_view_of(first_match(s, key)),
    decreases s.len(),
{
    lemma_entry_views(s, s.len() as int);
    if s.len() > 0 {
        let rest = s.drop_first();
        lemma_view_get_entries(rest, key);
        lemma_entry_views(rest, rest.len() as int);
        let ev = entry_views(s, s.len() as int);
        assert(ev.drop_first() =~= entry_views(rest, rest.len() as int));
    }
}

/// Entry values with `key` set to `v`: the first entry of that name takes it, or a new
/// last entry holds it.
pub open spec fn view_insert(e: Seq<(Seq<char>, ObjView)>, key: Seq<char>, v: ObjView) -> Seq<(Seq<char>, ObjView)>
    decreases e.len(),
{
    if e.len() == 0 {
        seq![(key, v)]
    } else if e[0].0 == key {
        seq![(key, v)] + e.drop_first()
    } else {
        seq![e[0]] + view_insert(e.drop_first(), key, v)
    }
}

/// Entry values with every entry named `key` left out.
pub open spec fn view_remove(e: Seq<(Seq<char>, ObjView)>, key: Seq<char>) -> Seq<(Seq<char>, ObjView)>
    decreases e.len(),
{
    if e.len() == 0 {
        Seq::empty()
    } else if e[0].0 == key {
        view_remove(e.drop_first(), key)
    } else {
        seq![e[0]] + view_remove(e.drop_first(), key)
    }
}

/// The values of entries, taken from the front.
pub proof fn lemma_entry_views_front(s: Seq<(String, Object)>)
    requires
        s.len() > 0,
    ensures
        entry_views(s, s.len() as int) == seq![(s[0].0@, view_of(s[0].1))] + entry_views(
            s.drop_first(),
            s.drop_first().len() as int,
        ),
{
    lemma_entry_views(s, s.len() as int);
    lemma_entry_views(s.drop_first(), s.drop_first().len() as int);
    assert(entry_views(s, s.len() as int) =~= seq![(s[0].0@, view_of(s[0].1))] + entry_views(
        s.drop_first(),
        s.drop_first().len() as int,
    ));
}

/// Replacing the first entry of a name is setting it, in values.
proof fn lemma_insert_at(s: Seq<(String, Object)>, j: int, x: (String, Object))
    requires
        0 <= j < s.len(),
        s[j].0@ == x.0@,
        forall|k: int| 0 <= k < j ==> s[k].0@ != x.0@,
    ensures
        entry_views(s.update(j, x), s.len() as int) == view_insert(entry_views(s, s.len() as int), x.0@, view_of(x.1)),
    decreases j,
{
    let u = s.update(j, x);
    lemma_entry_views_front(s);
    lemma_entry_views_front(u);
    let es = entry_views(s, s.len() as int);
    let rest = entry_views(s.drop_first(), s.drop_first().len() as int);
    assert(es.drop_first() =~= rest);
    assert(es[0] == (s[0].0@, view_of(s[0].1)));
    if j == 0 {
        assert(u.drop_first() =~= s.drop_first());
        assert(view_insert(es, x.0@, view_of(x.1)) == seq![(x.0@, view_of(x.1))] + rest);
    } else {
        assert(u.drop_first() =~= s.drop_first().update(j - 1, x));
        lemma_insert_at(s.drop_first(), j - 1, x);
        assert(u[0] == s[0]);
        assert(view_insert(es, x.0@, view_of(x.1)) == seq![es[0]] + view_insert(rest, x.0@, view_of(x.1)));
    }
}

/// Appending an entry of a new name is setting it, in values.
proof fn lemma_insert_new(s: Seq<(String, Object)>, x: (String, Object))
    requires
        forall|k: int| 0 <= k < s.len() ==> s[k].0@ != x.0@,
    ensures
        entry_views(s.push(x), s.len() + 1int) == view_insert(entry_views(s, s.len() as int), x.0@, view_of(x.1)),
    decreases s.len(),
{
    let p = s.push(x);
    lemma_entry_views_front(p);
    assert(p.len() == s.len() + 1);
    if s.len() == 0 {
        assert(p.drop_first() =~= Seq::<(String, Object)>::empty());
        assert(entry_views(s, 0) =~= Seq::<(Seq<char>, ObjView)>::empty());
        assert(entry_views(p.drop_first(), 0) =~= Seq::<(Seq<char>, ObjView)>::empty());
        assert(p[0] == x);
    } else {
        lemma_entry_views_front(s);
        let es = entry_views(s, s.len() as int);
        let rest = entry_views(s.drop_first(), s.drop_first().len() as int);
        assert(es.drop_first() =~= rest);
        assert(p.drop_first() =~= s.drop_first().push(x));
        lemma_insert_new(s.drop_first(), x);
        assert(p[0] == s[0]);
        assert(view_insert(es, x.0@, view_of(x.1)) == seq![es[0]] + view_insert(rest, x.0@, view_of(x.1)));
    }
}

/// Leaving entries out is leaving their values out.
proof fn lemma_without_views(s: Seq<(String, Object)>, key: Seq<char>)
    ensures
        entry_views(without(s, key), without(s, key).len() as int) == view_remove(entry_views(s, s.len() as int), key),
    decreases s.len(),
{
    if s.len() == 0 {
        assert(entry_views(s, 0) =~= Seq::<(Seq<char>, ObjView)>::empty());
    } else {
        lemma_entry_views_front(s);
        lemma_without_views(s.drop_first(), key);
        let es = entry_views(s, s.len() as int);
        let rest = entry_views(s.drop_first(), s.drop_first().len() as int);
        assert(es.drop_first() =~= rest);
        if s[0].0@ != key {
            let w = without(s, key);
            assert(w.drop_first() =~= without(s.drop_first(), key));
            assert(w[0] == s[0]);
            lemma_entry_views_front(w);
            assert(view_remove(es, key) == seq![es[0]] + view_remove(rest, key));
        } else {
            assert(view_remove(es, key) == view_remove(rest, key));
        }
    }
}

/// A copy of an object, of the same value.
pub fn copy_object(o: &Object) -> (r: Object)
    ensures
        view_of(r) == view_of(*o),
    decreases o,
{
    match o {
        Object::Null => Object::Null,
        Object::Boolean(b) => Object::Boolean(*b),
        Object::Integer(i) => Object::Integer(*i),
        Object::Real(r) => Object::Real(r.clone()),
        Object::Name(n) => Object::Name(n.clone()),
        Object::String(b) => Object::String(copy_byte_list(b)),
        Object::Hex(b) => Object::Hex(copy_byte_list(b)),
        Object::Text(t) => Object::Text(t.clone()),
        Object::Array(v) => {
            let mut out: Vec<Object> = Vec::new();
            let mut i: usize = 0;
            while i < v.len()
                invariant
                    i <= v@.len(),
                    *o == Object::Array(*v),
                    out@.len() == i,
                    forall|j: int| 0 <= j < i ==> view_of(#[trigger] out@[j]) == view_of(v@[j]),
                decreases v@.len() - i,
            {
                proof {
                    vstd::std_specs::vec::axiom_vec_index_decreases(*v, i as int);
                    assert(decreases_to!(*v => v[i as int]));
                    match o {
                        Object::Array(w) => {
                            assert(decreases_to!(*o => *w));
                        },
                        _ => {},
                    }
                    assert(decreases_to!(*o => v[i as int]));
                }
                let c = copy_object(&v[i]);
                out.push(c);
                i = i + 1;
            }
            proof {
                lemma_views_of(out@, out@.len() as int);
                lemma_views_of(v@, v@.len() as int);
                assert(views_of(out@, out@.len() as int) =~= views_of(v@, v@.len() as int));
            }
            Object::Array(out)
        },
        Object::Dictionary(d) => {
            Object::Dictionary(copy_dict(d))
        },
        Object::Stream(d, b) => {
            Object::Stream(copy_dict(d), copy_byte_list(b))
        },
        Object::Reference(n) => Object::Reference(*n),
    }
}

/// A copy of a dictionary, of the same value.
pub fn copy_dict(d: &Dict) -> (r: Dict)
    ensures
        dict_view(r) == dict_view(*d),
    decreases d,
{
    let mut out: Vec<(String, Object)> = Vec::new();
    let mut i: usize = 0;
    while i < d.entries.len()
        invariant
            i <= d.entries@.len(),
            out@.len() == i,
            forall|j: int| 0 <= j < i ==> (#[trigger] out@[j]).0@ == d.entries@[j].0@ && view_of(out@[j].1) == view_of(d.entries@[j].1),
        decreases d.entries@.len() - i,
    {
        let v = copy_object(&d.entries[i].1);
        let k = d.entries[i].0.clone();
        out.push((k, v));
        i = i + 1;
    }
    let r = Dict { entries: out };
    proof {
        lemma_entry_views(r.entries@, r.entries@.len() as int);
        lemma_entry_views(d.entries@, d.entries@.len() as int);
        assert(dict_view(r) =~= dict_view(*d));
    }
    r
}

/// The value of the first entry named `key`, among `entries`.
pub open spec fn first_match(entries: Seq<(String, Object)>, key: Seq<char>) -> Option<Object>
    decreases entries.len(),
{
    if entries.len() == 0 {
        None
    } else if entries[0].0@ == key {
        Some(entries[0].1)
    } else {
        first_match(entries.drop_first(), key)
    }
}

/// What a lookup that may find a reference answers, seen as a value.
pub open spec fn opt_ref<'a>(r: Option<&'a Object>) -> Option<Object> {
    match r {
        Some(o) => Some(*o),
        None => None,
    }
}

/// The first entry named `key` is the one at `j` when no entry before it has that name.
pub proof fn lemma_first_match_at(entries: Seq<(String, Object)>, key: Seq<char>, j: int)
    requires
        0 <= j < entries.len(),
        entries[j].0@ == key,
        forall|k: int| 0 <= k < j ==> entries[k].0@ != key,
    ensures
        first_match(entries, key) == Some(entries[j].1),
    decreases j,
{
    if j > 0 {
        lemma_first_match_at(entries.drop_first(), key, j - 1);
    }
}

/// A lookup finds something exactly when some entry has that name.
pub proof fn lemma_first_match_some(entries: Seq<(String, Object)>, key: Seq<char>)
    ensures
        first_match(entries, key).is_some() <==> exists|j: int|
            0 <= j < entries.len() && #[trigger] entries[j].0@ == key,
    decreases entries.len(),
{
    if entries.len() > 0 {
        lemma_first_match_some(entries.drop_first(), key);
        if first_match(entries.drop_first(), key).is_some() {
            let j = choose|j: int| 0 <= j < entries.len() - 1 && #[trigger] entries.drop_first()[j].0@ == key;
            assert(entries[j + 1].0@ == key);
        }
        if exists|j: int| 0 <= j < entries.len() && #[trigger] entries[j].0@ == key {
            let j = choose|j: int| 0 <= j < entries.len() && #[trigger] entries[j].0@ == key;
            if j > 0 {
                assert(entries.drop_first()[j - 1].0@ == key);
            }
        }
    }
}

/// A lookup in two lists joined finds the first list's entry when there is one.
pub proof fn lemma_first_match_append(a: Seq<(String, Object)>, b: Seq<(String, Object)>, key: Seq<char>)
    ensures
        first_match(a + b, key) == match first_match(a, key) {
            Some(v) => Some(v),
            None => first_match(b, key),
        },
    decreases a.len(),
{
    if a.len() > 0 {
        assert((a + b).drop_first() =~= a.drop_first() + b);
        lemma_first_match_append(a.drop_first(), b, key);
    } else {
        assert(a + b =~= b);
    }
}

/// A lookup finds nothing where no entry has that name.
pub proof fn lemma_first_match_none(s: Seq<(String, Object)>, key: Seq<char>)
    requires
        forall|j: int| 0 <= j < s.len() ==> (#[trigger] s[j]).0@ != key,
    ensures
        first_match(s, key).is_none(),
    decreases s.len(),
{
    if s.len() > 0 {
        lemma_first_match_none(s.drop_first(), key);
    }
}

/// Replacing an entry by one of the same name changes no lookup of another name.
pub proof fn lemma_first_match_replace(entries: Seq<(String, Object)>, i: int, e: (String, Object), k: Seq<char>)
    requires
        0 <= i < entries.len(),
        entries[i].0@ == e.0@,
        k != e.0@,
    ensures
        first_match(entries.update(i, e), k) == first_match(entries, k),
    decreases i,
{
    let u = entries.update(i, e);
    if i == 0 {
        assert(u.drop_first() =~= entries.drop_first());
    } else {
        assert(u.drop_first() =~= entries.drop_first().update(i - 1, e));
        lemma_first_match_replace(entries.drop_first(), i - 1, e, k);
    }
}

/// `entries` with every entry named `key` left out.
pub open spec fn without(entries: Seq<(String, Object)>, key: Seq<char>) -> Seq<(String, Object)>
    decreases entries.len(),
{
    if entries.len() == 0 {
        Seq::empty()
    } else if entries[0].0@ == key {
        without(entries.drop_first(), key)
    } else {
        seq![entries[0]] + without(entries.drop_first(), key)
    }
}

/// Leaving entries out of two lists joined leaves them out of each.
pub proof fn lemma_without_append(a: Seq<(String, Object)>, b: Seq<(String, Object)>, key: Seq<char>)
    ensures
        without(a + b, key) == without(a, key) + without(b, key),
    decreases a.len(),
{
    if a.len() == 0 {
        assert(a + b =~= b);
        assert(without(a, key) =~= Seq::<(String, Object)>::empty());
        assert(without(a, key) + without(b, key) =~= without(b, key));
    } else {
        assert((a + b).drop_first() =~= a.drop_first() + b);
        lemma_without_append(a.drop_first(), b, key);
        if a[0].0@ == key {
        } else {
            assert(seq![a[0]] + (without(a.drop_first(), key) + without(b, key)) =~= (seq![a[0]] + without(a.drop_first(), key))
                + without(b, key));
        }
    }
}

/// Leaving out the entries named `key` finds nothing under it and changes no other lookup.
pub proof fn lemma_without_lookup(entries: Seq<(String, Object)>, key: Seq<char>, other: Seq<char>)
    ensures
        first_match(without(entries, key), key) is None,
        other != key ==> first_match(without(entries, key), other) == first_match(entries, other),
    decreases entries.len(),
{
    if entries.len() > 0 {
        lemma_without_lookup(entries.drop_first(), key, other);
        if entries[0].0@ != key {
            let w = seq![entries[0]] + without(entries.drop_first(), key);
            assert(w.drop_first() =~= without(entries.drop_first(), key));
        }
    }
}

impl Dict {
    /// The value of `key`, as the first entry of that name gives it.
    pub open spec fn spec_get(self, key: Seq<char>) -> Option<Object> {
        first_match(self.entries@, key)
    }

    /// An empty dictionary.
    pub fn new() -> (d: Self)
        ensures
            d.entries@.len() == 0,
    {
        Dict { entries: Vec::new() }
    }

    /// The value of `key`.
    pub fn get(&self, key: &str) -> (r: Option<&Object>)
        ensures
            opt_ref(r) == self.spec_get(key@),
    {
        let mut i: usize = 0;
        assert(self.entries@.skip(0) =~= self.entries@);
        while i < self.entries.len()
            invariant
                i <= self.entries@.len(),
                first_match(self.entries@, key@) == first_match(self.entries@.skip(i as int), key@),
            decreases self.entries@.len() - i,
        {
            let ghost rest = self.entries@.skip(i as int);
            assert(rest.drop_first() =~= self.entries@.skip(i + 1));
            if str_eq(self.entries[i].0.as_str(), key) {
                return Some(&self.entries[i].1);
            }
            i = i + 1;
        }
        None
    }

    /// Sets `key` to `value`: the first entry of that name takes it, or a new last entry
    /// holds it. No other lookup changes.
    pub fn insert(&mut self, key: &str, value: Object)
        ensures
            dict_view(*final(self)) == view_insert(dict_view(*old(self)), key@, view_of(value)),
            final(self).spec_get(key@) == Some(value),
            forall|k: Seq<char>| k != key@ ==> #[trigger] final(self).spec_get(k) == old(self).spec_get(k),
    {
        let ghost before = self.entries@;
        let mut i: usize = 0;
        while i < self.entries.len() && !str_eq(self.entries[i].0.as_str(), key)
            invariant
                i <= self.entries@.len(),
                self.entries@ == before,
                forall|j: int| 0 <= j < i ==> (#[trigger] before[j]).0@ != key@,
            decreases self.entries@.len() - i,
        {
            i = i + 1;
        }
        if i < self.entries.len() {
            self.entries.set(i, (key.to_owned(), value));
            proof {
                let e = self.entries@;
                lemma_first_match_at(e, key@, i as int);
                assert(before[i as int].0@ == key@);
                assert(e[i as int].0@ == key@);
                assert forall|k: Seq<char>| k != key@ implies #[trigger] first_match(e, k) == first_match(before, k) by {
                    lemma_first_match_replace(before, i as int, e[i as int], k);
                    assert(e =~= before.update(i as int, e[i as int]));
                }
                assert(e =~= before.update(i as int, e[i as int]));
                lemma_insert_at(before, i as int, e[i as int]);
            }
        } else {
            self.entries.push((key.to_owned(), value));
            proof {
                let e = self.entries@;
                lemma_first_match_none(before, key@);
                assert(e[before.len() as int].0@ == key@);
                assert(e =~= before + e.skip(before.len() as int));
                lemma_first_match_append(before, e.skip(before.len() as int), key@);
                assert forall|k: Seq<char>| k != key@ implies #[trigger] first_match(e, k) == first_match(before, k) by {
                    lemma_first_match_append(before, e.skip(before.len() as int), k);
                    let tail = e.skip(before.len() as int);
                    assert(tail[0].0@ == key@);
                    assert(tail.drop_first() =~= Seq::<(String, Object)>::empty());
                    assert(tail.len() == 1);
                    assert(first_match(tail.drop_first(), k) is None);
                    assert(first_match(tail, k) is None);
                }
                assert(e =~= before.push(e[before.len() as int]));
                lemma_insert_new(before, e[before.len() as int]);
            }
        }
    }

    /// Drops every entry named `key`. No other lookup changes.
    pub fn remove(&mut self, key: &str)
        ensures
            dict_view(*final(self)) == view_remove(dict_view(*old(self)), key@),
            final(self).spec_get(key@) is None,
            forall|k: Seq<char>| k != key@ ==> #[trigger] final(self).spec_get(k) == old(self).spec_get(k),
    {
        let ghost before = self.entries@;
        let mut kept: Vec<(String, Object)> = Vec::new();
        let mut old_entries: Vec<(String, Object)> = Vec::new();
        std::mem::swap(&mut old_entries, &mut self.entries);
        let mut i: usize = 0;
        assert(without(before.take(0), key@) =~= Seq::<(String, Object)>::empty());
        assert(before.skip(0) =~= before);
        let total = old_entries.len();
        while old_entries.len() > 0
            invariant
                i <= before.len(),
                before.len() == total,
                old_entries@ == before.skip(i as int),
                kept@ == without(before.take(i as int), key@),
            decreases old_entries@.len(),
        {
            let e = old_entries.remove(0);
            proof {
                assert(e == before[i as int]);
                assert(before.take(i + 1) =~= before.take(i as int) + seq![e]);
                lemma_without_append(before.take(i as int), seq![e], key@);
                assert(seq![e].drop_first() =~= Seq::<(String, Object)>::empty());
                assert(without(seq![e].drop_first(), key@) =~= Seq::<(String, Object)>::empty());
                assert(before.skip(i + 1) =~= before.skip(i as int).drop_first());
            }
            if !str_eq(e.0.as_str(), key) {
                kept.push(e);
                proof {
                    assert(without(seq![e], key@) =~= seq![e]);
                }
            } else {
                proof {
                    assert(without(seq![e], key@) =~= Seq::<(String, Object)>::empty());
                }
            }
            proof {
                assert(kept@ =~= without(before.take(i + 1), key@));
            }
            i = i + 1;
        }
        assert(before.take(i as int) =~= before);
        self.entries = kept;
        proof {
            lemma_without_views(before, key@);
        }
        proof {
            lemma_without_lookup(before, key@, key@);
            assert forall|k: Seq<char>| k != key@ implies #[trigger] first_match(self.entries@, k) == first_match(before, k) by {
                lemma_without_lookup(before, key@, k);
            }
        }
    }

    /// Whether the dictionary carries `key` at all.
    pub fn contains_key(&self, key: &str) -> (r: bool)
        ensures
            r == self.spec_get(key@).is_some(),
    {
        self.get(key).is_some()
    }

    /// The name `key` holds, written in place rather than through a reference.
    pub open spec fn spec_name_entry(self, key: Seq<char>) -> Option<Seq<char>> {
        match self.spec_get(key) {
            Some(Object::Name(n)) => Some(n@),
            _ => None,
        }
    }

    /// The integer `key` holds, written in place.
    pub open spec fn spec_integer_entry(self, key: Seq<char>) -> Option<i64> {
        match self.spec_get(key) {
            Some(Object::Integer(v)) => Some(v),
            _ => None,
        }
    }

    /// The boolean `key` holds, written in place.
    pub open spec fn spec_bool_entry(self, key: Seq<char>) -> Option<bool> {
        match self.spec_get(key) {
            Some(Object::Boolean(v)) => Some(v),
            _ => None,
        }
    }

    /// The bytes of the string `key` holds, in either string syntax, written in place.
    pub open spec fn spec_bytes_entry(self, key: Seq<char>) -> Option<Seq<u8>> {
        match self.spec_get(key) {
            Some(Object::String(b)) => Some(b@),
            Some(Object::Hex(b)) => Some(b@),
            _ => None,
        }
    }

    /// The name `key` holds, written in place.
    pub fn name_entry(&self, key: &str) -> (r: Option<&String>)
        ensures
            match r {
                Some(n) => self.spec_name_entry(key@) == Some(n@),
                None => self.spec_name_entry(key@).is_none(),
            },
    {
        match self.get(key) {
            Some(Object::Name(n)) => Some(n),
            _ => None,
        }
    }

    /// The integer `key` holds, written in place.
    pub fn integer_entry(&self, key: &str) -> (r: Option<i64>)
        ensures
            r == self.spec_integer_entry(key@),
    {
        match self.get(key) {
            Some(Object::Integer(v)) => Some(*v),
            _ => None,
        }
    }

    /// The boolean `key` holds, written in place.
    pub fn bool_entry(&self, key: &str) -> (r: Option<bool>)
        ensures
            r == self.spec_bool_entry(key@),
    {
        match self.get(key) {
            Some(Object::Boolean(v)) => Some(*v),
            _ => None,
        }
    }

    /// The bytes of the string `key` holds, written in place.
    pub fn bytes_entry(&self, key: &str) -> (r: Option<&Vec<u8>>)
        ensures
            match r {
                Some(b) => self.spec_bytes_entry(key@) == Some(b@),
                None => self.spec_bytes_entry(key@).is_none(),
            },
    {
        match self.get(key) {
            Some(Object::String(b)) => Some(b),
            Some(Object::Hex(b)) => Some(b),
            _ => None,
        }
    }

    /// How many entries the dictionary holds.
    pub fn len(&self) -> (n: usize)
        ensures
            n == self.entries@.len(),
    {
        self.entries.len()
    }
}

impl Arena {
    /// The object a value stands for: the object a reference names, or the value itself.
    /// A reference to a number the arena does not hold resolves to `Null` (7.3.10).
    pub open spec fn spec_resolve(self, o: Object) -> Object {
        match o {
            Object::Reference(n) => if (n as int) < self.objects@.len() {
                self.objects@[n as int]
            } else {
                Object::Null
            },
            _ => o,
        }
    }

    /// The dictionary a value is, or names: a dictionary or a stream's dictionary.
    pub open spec fn spec_dict_of(self, o: Object) -> Option<Dict> {
        match self.spec_resolve(o) {
            Object::Dictionary(d) => Some(d),
            Object::Stream(d, _) => Some(d),
            _ => None,
        }
    }

    /// The dictionary a value is or names, streams excluded.
    pub open spec fn spec_as_dict(self, o: Object) -> Option<Dict> {
        match self.spec_resolve(o) {
            Object::Dictionary(d) => Some(d),
            _ => None,
        }
    }

    /// The array a value is, or names.
    pub open spec fn spec_array_of(self, o: Object) -> Option<Seq<Object>> {
        match self.spec_resolve(o) {
            Object::Array(a) => Some(a@),
            _ => None,
        }
    }

    /// The name a value is, or names.
    pub open spec fn spec_name_of(self, o: Object) -> Option<Seq<char>> {
        match self.spec_resolve(o) {
            Object::Name(n) => Some(n@),
            _ => None,
        }
    }

    /// The integer a value is, or names.
    pub open spec fn spec_integer_of(self, o: Object) -> Option<i64> {
        match self.spec_resolve(o) {
            Object::Integer(v) => Some(v),
            _ => None,
        }
    }

    /// The boolean a value is, or names.
    pub open spec fn spec_bool_of(self, o: Object) -> Option<bool> {
        match self.spec_resolve(o) {
            Object::Boolean(v) => Some(v),
            _ => None,
        }
    }

    /// An arena holding nothing.
    pub fn new() -> (a: Self)
        ensures
            a.objects@.len() == 0,
    {
        Arena { objects: Vec::new() }
    }

    /// Stores `o` as the next indirect object and answers its number.
    pub fn add_object(&mut self, o: Object) -> (n: u32)
        requires
            old(self).objects@.len() < u32::MAX,
        ensures
            n == old(self).objects@.len(),
            final(self).objects@ == old(self).objects@.push(o),
    {
        let n = self.objects.len() as u32;
        self.objects.push(o);
        n
    }

    /// Sets `key` of object `n` to `value` when that object is a dictionary written as
    /// one; anything else is left as it is, as is every other object.
    pub fn set_entry(&mut self, n: u32, key: &str, value: Object)
        ensures
            final(self).objects@.len() == old(self).objects@.len(),
            forall|i: int| 0 <= i < old(self).objects@.len() && i != n ==> #[trigger] final(self).objects@[i] == old(self).objects@[i],
            (n as int) < old(self).objects@.len() ==> match old(self).objects@[n as int] {
                Object::Dictionary(d0) => final(self).objects@[n as int] matches Object::Dictionary(d1) && d1.spec_get(key@)
                    == Some(value) && forall|k: Seq<char>| k != key@ ==> #[trigger] d1.spec_get(k) == d0.spec_get(k),
                _ => final(self).objects@[n as int] == old(self).objects@[n as int],
            },
    {
        if (n as usize) < self.objects.len() {
            match &mut self.objects[n as usize] {
                Object::Dictionary(d) => d.insert(key, value),
                _ => {},
            }
        }
    }

    /// Drops `key` from object `n` when that object is a dictionary written as one;
    /// anything else is left as it is, as is every other object.
    pub fn remove_entry(&mut self, n: u32, key: &str)
        ensures
            final(self).objects@.len() == old(self).objects@.len(),
            forall|i: int| 0 <= i < old(self).objects@.len() && i != n ==> #[trigger] final(self).objects@[i] == old(self).objects@[i],
            (n as int) < old(self).objects@.len() ==> match old(self).objects@[n as int] {
                Object::Dictionary(d0) => final(self).objects@[n as int] matches Object::Dictionary(d1) && d1.spec_get(key@)
                    is None && forall|k: Seq<char>| k != key@ ==> #[trigger] d1.spec_get(k) == d0.spec_get(k),
                _ => final(self).objects@[n as int] == old(self).objects@[n as int],
            },
    {
        if (n as usize) < self.objects.len() {
            match &mut self.objects[n as usize] {
                Object::Dictionary(d) => d.remove(key),
                _ => {},
            }
        }
    }

    /// The object a value stands for.
    pub fn resolve<'a>(&'a self, o: &'a Object) -> (r: &'a Object)
        ensures
            *r == self.spec_resolve(*o),
    {
        match o {
            Object::Reference(n) => {
                if (*n as usize) < self.objects.len() {
                    &self.objects[*n as usize]
                } else {
                    &NULL_OBJECT
                }
            },
            _ => o,
        }
    }

    /// The dictionary a value is or names, a stream's included.
    pub fn dict_of<'a>(&'a self, o: &'a Object) -> (r: Option<&'a Dict>)
        ensures
            match r {
                Some(d) => self.spec_dict_of(*o) == Some(*d),
                None => self.spec_dict_of(*o).is_none(),
            },
    {
        match self.resolve(o) {
            Object::Dictionary(d) => Some(d),
            Object::Stream(d, _) => Some(d),
            _ => None,
        }
    }

    /// The dictionary a value is or names, streams excluded.
    pub fn as_dict<'a>(&'a self, o: &'a Object) -> (r: Option<&'a Dict>)
        ensures
            match r {
                Some(d) => self.spec_as_dict(*o) == Some(*d),
                None => self.spec_as_dict(*o).is_none(),
            },
    {
        match self.resolve(o) {
            Object::Dictionary(d) => Some(d),
            _ => None,
        }
    }

    /// The array a value is or names.
    pub fn array_of<'a>(&'a self, o: &'a Object) -> (r: Option<&'a Vec<Object>>)
        ensures
            match r {
                Some(a) => self.spec_array_of(*o) == Some(a@),
                None => self.spec_array_of(*o).is_none(),
            },
    {
        match self.resolve(o) {
            Object::Array(a) => Some(a),
            _ => None,
        }
    }

    /// The name a value is or names.
    pub fn name_of<'a>(&'a self, o: &'a Object) -> (r: Option<&'a String>)
        ensures
            match r {
                Some(n) => self.spec_name_of(*o) == Some(n@),
                None => self.spec_name_of(*o).is_none(),
            },
    {
        match self.resolve(o) {
            Object::Name(n) => Some(n),
            _ => None,
        }
    }

    /// The integer a value is or names.
    pub fn integer_of(&self, o: &Object) -> (r: Option<i64>)
        ensures
            r == self.spec_integer_of(*o),
    {
        match self.resolve(o) {
            Object::Integer(v) => Some(*v),
            _ => None,
        }
    }

    /// The boolean a value is or names.
    pub fn bool_of(&self, o: &Object) -> (r: Option<bool>)
        ensures
            r == self.spec_bool_of(*o),
    {
        match self.resolve(o) {
            Object::Boolean(v) => Some(*v),
            _ => None,
        }
    }
}

/// What a reference to a missing object resolves to.
pub const NULL_OBJECT: Object = Object::Null;

} // verus!
