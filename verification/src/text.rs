//! Characters of a string, one at a time: what the readers need of a string beyond
//! equality — splitting, trimming, ordering and prefixes.

use crate::error::{char_text, concat, text};
use crate::object::str_eq;
use vstd::prelude::*;

verus! {

broadcast use vstd::string::axiom_spec_iter;

/// The characters of `s`, in order.
pub fn chars_of(s: &str) -> (r: Vec<char>)
    ensures
        r@ == s@,
{
    let mut out: Vec<char> = Vec::new();
    for c in it: s.chars()
        invariant
            out@ == it.seq().take(it.index() as int),
    {
        out.push(c);
    }
    out
}

/// A string holding `cs[from..to]`.
pub fn string_of(cs: &[char], from: usize, to: usize) -> (r: String)
    requires
        from <= to <= cs@.len(),
    ensures
        r@ == cs@.subrange(from as int, to as int),
{
    let mut out = String::new();
    let mut i = from;
    while i < to
        invariant
            from <= i <= to <= cs@.len(),
            out@ == cs@.subrange(from as int, i as int),
        decreases to - i,
    {
        out = concat(out, char_text(cs[i]).as_str());
        assert(cs@.subrange(from as int, i + 1) =~= cs@.subrange(from as int, i as int).push(cs@[i as int]));
        i = i + 1;
    }
    out
}

/// Whether `a` sorts before `b`, comparing code points from the left and a prefix first:
/// the order `String`'s `Ord` gives.
pub open spec fn lex_lt(a: Seq<char>, b: Seq<char>) -> bool
    decreases a.len(),
{
    if b.len() == 0 {
        false
    } else if a.len() == 0 {
        true
    } else if a[0] != b[0] {
        (a[0] as int) < (b[0] as int)
    } else {
        lex_lt(a.drop_first(), b.drop_first())
    }
}

/// Whether `a` sorts before `b`.
pub fn str_lt(a: &str, b: &str) -> (r: bool)
    ensures
        r == lex_lt(a@, b@),
{
    let x = chars_of(a);
    let y = chars_of(b);
    let mut i: usize = 0;
    assert(x@.skip(0) =~= x@);
    assert(y@.skip(0) =~= y@);
    while i < x.len() && i < y.len()
        invariant
            x@ == a@,
            y@ == b@,
            i <= x@.len(),
            i <= y@.len(),
            lex_lt(x@, y@) == lex_lt(x@.skip(i as int), y@.skip(i as int)),
        decreases x@.len() - i,
    {
        assert(x@.skip(i as int)[0] == x@[i as int]);
        assert(y@.skip(i as int)[0] == y@[i as int]);
        if x[i] != y[i] {
            return x[i] < y[i];
        }
        assert(x@.skip(i as int).drop_first() =~= x@.skip(i + 1));
        assert(y@.skip(i as int).drop_first() =~= y@.skip(i + 1));
        i = i + 1;
    }
    i < y.len()
}

/// No string sorts before itself.
pub proof fn lemma_lex_irreflexive(a: Seq<char>)
    ensures
        !lex_lt(a, a),
    decreases a.len(),
{
    if a.len() > 0 {
        lemma_lex_irreflexive(a.drop_first());
    }
}

/// The order is transitive.
pub proof fn lemma_lex_transitive(a: Seq<char>, b: Seq<char>, c: Seq<char>)
    requires
        lex_lt(a, b),
        lex_lt(b, c),
    ensures
        lex_lt(a, c),
    decreases a.len(),
{
    if a.len() > 0 && b.len() > 0 && c.len() > 0 && a[0] == b[0] && b[0] == c[0] {
        lemma_lex_transitive(a.drop_first(), b.drop_first(), c.drop_first());
    }
}

/// Of two different strings, one sorts before the other.
pub proof fn lemma_lex_total(a: Seq<char>, b: Seq<char>)
    ensures
        a == b || lex_lt(a, b) || lex_lt(b, a),
    decreases a.len(),
{
    if a.len() > 0 && b.len() > 0 && a[0] == b[0] {
        lemma_lex_total(a.drop_first(), b.drop_first());
        if a.drop_first() == b.drop_first() {
            assert(a =~= seq![a[0]] + a.drop_first());
            assert(b =~= seq![b[0]] + b.drop_first());
        }
    } else if a.len() == 0 && b.len() == 0 {
        assert(a =~= b);
    } else if a.len() > 0 && b.len() > 0 {
        assert((a[0] as int) != (b[0] as int));
    }
}

/// Of two strings, at most one sorts before the other.
pub proof fn lemma_lex_asymmetric(a: Seq<char>, b: Seq<char>)
    requires
        lex_lt(a, b),
    ensures
        !lex_lt(b, a),
    decreases a.len(),
{
    if a.len() > 0 && b.len() > 0 && a[0] == b[0] {
        lemma_lex_asymmetric(a.drop_first(), b.drop_first());
    }
}

/// The characters of each string.
pub open spec fn views(s: Seq<String>) -> Seq<Seq<char>> {
    s.map_values(|x: String| x@)
}

/// Each string sorts before the next: sorted, and none twice.
pub open spec fn strictly_sorted(s: Seq<Seq<char>>) -> bool {
    forall|i: int, j: int| 0 <= i < j < s.len() ==> lex_lt(#[trigger] s[i], #[trigger] s[j])
}

/// The strings held, as a set.
pub open spec fn str_set(s: Seq<String>) -> Set<Seq<char>> {
    views(s).to_set()
}

/// A strictly sorted list holds as many strings as its set.
pub proof fn lemma_sorted_len(s: Seq<String>)
    requires
        strictly_sorted(views(s)),
    ensures
        str_set(s).len() == s.len(),
        str_set(s).finite(),
{
    let v = views(s);
    assert forall|i: int, j: int| 0 <= i < v.len() && 0 <= j < v.len() && i != j implies v[i] != v[j] by {
        if i < j {
            lemma_lex_irreflexive(v[i]);
        } else {
            lemma_lex_irreflexive(v[j]);
        }
    }
    v.unique_seq_to_set();
    assert(v.len() == s.len());
}

/// Where `k` sits in a strictly sorted list: its index when it is there, or the index of
/// the first string after it.
pub fn find_sorted(v: &Vec<String>, k: &str) -> (r: (usize, bool))
    requires
        strictly_sorted(views(v@)),
    ensures
        r.0 <= v@.len(),
        r.1 <==> str_set(v@).contains(k@),
        r.1 ==> r.0 < v@.len() && v@[r.0 as int]@ == k@,
        !r.1 ==> (forall|i: int| 0 <= i < r.0 ==> lex_lt(#[trigger] v@[i]@, k@)),
        !r.1 ==> (forall|i: int| r.0 <= i < v@.len() ==> lex_lt(k@, #[trigger] v@[i]@)),
{
    let mut p: usize = 0;
    while p < v.len()
        invariant
            strictly_sorted(views(v@)),
            p <= v@.len(),
            forall|i: int| 0 <= i < p ==> lex_lt(#[trigger] v@[i]@, k@),
        decreases v@.len() - p,
    {
        assert(views(v@)[p as int] == v@[p as int]@);
        if str_eq(v[p].as_str(), k) {
            assert(views(v@).contains(k@));
            return (p, true);
        }
        if str_lt(k, v[p].as_str()) {
            assert forall|i: int| p <= i < v@.len() implies lex_lt(k@, #[trigger] v@[i]@) by {
                if i > p {
                    assert(views(v@)[i] == v@[i]@);
                    lemma_lex_transitive(k@, v@[p as int]@, v@[i]@);
                }
            }
            assert(!views(v@).contains(k@)) by {
                if views(v@).contains(k@) {
                    let i = choose|i: int| 0 <= i < views(v@).len() && views(v@)[i] == k@;
                    lemma_lex_irreflexive(k@);
                    if i < p {
                        assert(lex_lt(v@[i]@, k@));
                    } else {
                        assert(lex_lt(k@, v@[i]@));
                    }
                }
            }
            return (p, false);
        }
        proof {
            lemma_lex_total(k@, v@[p as int]@);
        }
        p = p + 1;
    }
    assert(!views(v@).contains(k@)) by {
        if views(v@).contains(k@) {
            let i = choose|i: int| 0 <= i < views(v@).len() && views(v@)[i] == k@;
            assert(lex_lt(v@[i]@, k@));
            lemma_lex_irreflexive(k@);
        }
    }
    (p, false)
}

/// Adds `k` to a strictly sorted list, where it belongs, unless it is there already.
pub fn insert_sorted(v: &mut Vec<String>, k: &str)
    requires
        strictly_sorted(views(old(v)@)),
    ensures
        strictly_sorted(views(final(v)@)),
        str_set(final(v)@) == str_set(old(v)@).insert(k@),
{
    let (p, found) = find_sorted(v, k);
    if found {
        assert(str_set(v@).insert(k@) =~= str_set(v@));
        return;
    }
    let ghost before = v@;
    v.insert(p, text(k));
    proof {
        let after = v@;
        assert forall|a: int, b: int| 0 <= a < b < views(after).len() implies lex_lt(
            #[trigger] views(after)[a],
            #[trigger] views(after)[b],
        ) by {
            assert(views(after)[a] == after[a]@ && views(after)[b] == after[b]@);
            assert(views(before)[a] == before[a]@);
            if b < p {
                assert(after[a] == before[a] && after[b] == before[b]);
                assert(views(before)[b] == before[b]@);
            } else if b == p {
                assert(after[a] == before[a]);
            } else if a < p {
                assert(after[a] == before[a] && after[b] == before[b - 1]);
                lemma_lex_transitive(before[a]@, k@, before[b - 1]@);
            } else if a == p {
                assert(after[b] == before[b - 1]);
            } else {
                assert(after[a] == before[a - 1] && after[b] == before[b - 1]);
                assert(views(before)[a - 1] == before[a - 1]@);
                assert(views(before)[b - 1] == before[b - 1]@);
            }
        }
        assert(str_set(after) =~= str_set(before).insert(k@)) by {
            assert forall|x: Seq<char>| str_set(after).contains(x) implies str_set(before).insert(k@).contains(x) by {
                let i = choose|i: int| 0 <= i < views(after).len() && views(after)[i] == x;
                if i < p {
                    assert(views(before)[i] == x);
                } else if i > p {
                    assert(views(before)[i - 1] == x);
                }
            }
            assert forall|x: Seq<char>| str_set(before).insert(k@).contains(x) implies str_set(after).contains(x) by {
                if x == k@ {
                    assert(views(after)[p as int] == x);
                } else {
                    let i = choose|i: int| 0 <= i < views(before).len() && views(before)[i] == x;
                    if i < p {
                        assert(views(after)[i] == x);
                    } else {
                        assert(views(after)[i + 1] == x);
                    }
                }
            }
        }
    }
}

/// The set of a prefix one longer holds one string more.
pub proof fn lemma_str_set_take(s: Seq<String>, k: int)
    requires
        0 <= k < s.len(),
    ensures
        str_set(s.take(k + 1)) == str_set(s.take(k)).insert(s[k]@),
{
    let a = views(s.take(k + 1));
    let b = views(s.take(k));
    assert(a =~= b.push(s[k]@));
    assert(str_set(s.take(k + 1)) =~= str_set(s.take(k)).insert(s[k]@)) by {
        assert forall|x: Seq<char>| a.to_set().contains(x) implies b.to_set().insert(s[k]@).contains(x) by {
            let i = choose|i: int| 0 <= i < a.len() && #[trigger] a[i] == x;
            if i < k {
                assert(b[i] == x);
            }
        }
        assert forall|x: Seq<char>| b.to_set().insert(s[k]@).contains(x) implies a.to_set().contains(x) by {
            if x == s[k]@ {
                assert(a[k] == x);
            } else {
                let i = choose|i: int| 0 <= i < b.len() && #[trigger] b[i] == x;
                assert(a[i] == x);
            }
        }
    }
}

/// Adds every string of `t` to the strictly sorted list `s`.
pub fn union_into(s: &mut Vec<String>, t: &Vec<String>)
    requires
        strictly_sorted(views(old(s)@)),
    ensures
        strictly_sorted(views(final(s)@)),
        str_set(final(s)@) == str_set(old(s)@).union(str_set(t@)),
{
    let mut k: usize = 0;
    while k < t.len()
        invariant
            k <= t@.len(),
            strictly_sorted(views(s@)),
            str_set(s@) == str_set(old(s)@).union(str_set(t@.take(k as int))),
        decreases t@.len() - k,
    {
        insert_sorted(s, t[k].as_str());
        proof {
            lemma_str_set_take(t@, k as int);
            assert(str_set(old(s)@).union(str_set(t@.take(k as int))).insert(t@[k as int]@) =~= str_set(old(s)@).union(str_set(t@.take(k + 1))));
        }
        k = k + 1;
    }
    assert(t@.take(k as int) =~= t@);
}

/// The strings of a strictly sorted list `s` that are not in the strictly sorted list
/// `t`, in order.
pub fn minus_sorted(s: &Vec<String>, t: &Vec<String>) -> (r: Vec<String>)
    requires
        strictly_sorted(views(s@)),
        strictly_sorted(views(t@)),
    ensures
        strictly_sorted(views(r@)),
        str_set(r@) == str_set(s@).difference(str_set(t@)),
{
    let mut out: Vec<String> = Vec::new();
    let mut k: usize = 0;
    while k < s.len()
        invariant
            k <= s@.len(),
            strictly_sorted(views(s@)),
            strictly_sorted(views(t@)),
            strictly_sorted(views(out@)),
            str_set(out@) == str_set(s@.take(k as int)).difference(str_set(t@)),
            forall|i: int| 0 <= i < out@.len() ==> exists|j: int| 0 <= j < k && #[trigger] out@[i]@ == #[trigger] s@[j]@,
        decreases s@.len() - k,
    {
        let (_, found) = find_sorted(t, s[k].as_str());
        let ghost before = out@;
        if !found {
            out.push(s[k].clone());
            proof {
                assert forall|a: int, b: int| 0 <= a < b < views(out@).len() implies lex_lt(#[trigger] views(out@)[a], #[trigger] views(out@)[b]) by {
                    if b == out@.len() - 1 {
                        let j = choose|j: int| 0 <= j < k && #[trigger] before[a]@ == #[trigger] s@[j]@;
                        assert(views(s@)[j] == s@[j]@ && views(s@)[k as int] == s@[k as int]@);
                    } else {
                        assert(views(before)[a] == views(out@)[a] && views(before)[b] == views(out@)[b]);
                    }
                }
                assert forall|i: int| 0 <= i < out@.len() implies exists|j: int| 0 <= j < k + 1 && #[trigger] out@[i]@ == #[trigger] s@[j]@ by {
                    if i == out@.len() - 1 {
                        assert(out@[i]@ == s@[k as int]@);
                    } else {
                        let j = choose|j: int| 0 <= j < k && #[trigger] before[i]@ == #[trigger] s@[j]@;
                        assert(out@[i] == before[i]);
                    }
                }
            }
        } else {
            assert forall|i: int| 0 <= i < out@.len() implies exists|j: int| 0 <= j < k + 1 && #[trigger] out@[i]@ == #[trigger] s@[j]@ by {
                let j = choose|j: int| 0 <= j < k && #[trigger] out@[i]@ == #[trigger] s@[j]@;
            }
        }
        proof {
            lemma_str_set_take(s@, k as int);
            assert(str_set(out@) =~= str_set(s@.take(k + 1)).difference(str_set(t@))) by {
                assert forall|x: Seq<char>| str_set(out@).contains(x) implies str_set(s@.take(k + 1)).difference(str_set(t@)).contains(x) by {
                    let i = choose|i: int| 0 <= i < views(out@).len() && views(out@)[i] == x;
                    if !found && i == out@.len() - 1 {
                        assert(out@[i]@ == s@[k as int]@);
                        assert(x == s@[k as int]@);
                        assert(str_set(s@.take(k as int)).insert(s@[k as int]@).contains(x));
                    } else {
                        assert(views(before)[i] == x);
                        assert(str_set(before).contains(x));
                        assert(str_set(s@.take(k as int)).contains(x));
                        assert(str_set(s@.take(k as int)).insert(s@[k as int]@).contains(x));
                    }
                }
                assert forall|x: Seq<char>| str_set(s@.take(k + 1)).difference(str_set(t@)).contains(x) implies str_set(out@).contains(x) by {
                    if x == s@[k as int]@ {
                        if !found {
                            assert(views(out@)[out@.len() - 1] == x);
                        }
                    } else {
                        assert(str_set(before).contains(x));
                        let i = choose|i: int| 0 <= i < views(before).len() && views(before)[i] == x;
                        assert(views(out@)[i] == x);
                    }
                }
            }
        }
        k = k + 1;
    }
    assert(s@.take(k as int) =~= s@);
    out
}

/// The characters of each string slice.
pub open spec fn slice_views(s: Seq<&'static str>) -> Seq<Seq<char>> {
    s.map_values(|x: &'static str| x@)
}

/// Where `k` sits in a strictly sorted list of slices: its index when it is there, or
/// the index of the first slice after it.
fn find_sorted_slice(v: &Vec<&'static str>, k: &str) -> (r: (usize, bool))
    requires
        strictly_sorted(slice_views(v@)),
    ensures
        r.0 <= v@.len(),
        r.1 ==> r.0 < v@.len() && v@[r.0 as int]@ == k@,
        !r.1 ==> (forall|i: int| 0 <= i < r.0 ==> lex_lt(#[trigger] v@[i]@, k@)),
        !r.1 ==> (forall|i: int| r.0 <= i < v@.len() ==> lex_lt(k@, #[trigger] v@[i]@)),
{
    let mut p: usize = 0;
    while p < v.len()
        invariant
            strictly_sorted(slice_views(v@)),
            p <= v@.len(),
            forall|i: int| 0 <= i < p ==> lex_lt(#[trigger] v@[i]@, k@),
        decreases v@.len() - p,
    {
        if str_eq(v[p], k) {
            return (p, true);
        }
        if str_lt(k, v[p]) {
            assert forall|i: int| p <= i < v@.len() implies lex_lt(k@, #[trigger] v@[i]@) by {
                if i > p {
                    assert(slice_views(v@)[p as int] == v@[p as int]@);
                    assert(slice_views(v@)[i] == v@[i]@);
                    lemma_lex_transitive(k@, v@[p as int]@, v@[i]@);
                }
            }
            return (p, false);
        }
        proof {
            lemma_lex_total(k@, v@[p as int]@);
        }
        p = p + 1;
    }
    (p, false)
}

/// Adds `k` to a strictly sorted list of string slices, where it belongs, unless it is
/// there already.
pub fn insert_sorted_slice(v: &mut Vec<&'static str>, k: &'static str)
    requires
        strictly_sorted(slice_views(old(v)@)),
    ensures
        strictly_sorted(slice_views(final(v)@)),
        slice_views(final(v)@).to_set() == slice_views(old(v)@).to_set().insert(k@),
{
    let ghost before = v@;
    let (p, found) = find_sorted_slice(v, k);
    if found {
        assert(slice_views(v@).to_set().insert(k@) =~= slice_views(v@).to_set()) by {
            assert(slice_views(v@)[p as int] == k@);
        }
        return;
    }
    v.insert(p, k);
    proof {
        let after = v@;
        assert forall|a: int, b: int| 0 <= a < b < slice_views(after).len() implies lex_lt(
            #[trigger] slice_views(after)[a],
            #[trigger] slice_views(after)[b],
        ) by {
            assert(slice_views(after)[a] == after[a]@ && slice_views(after)[b] == after[b]@);
            if b < p {
                assert(slice_views(before)[a] == before[a]@ && slice_views(before)[b] == before[b]@);
            } else if b == p {
            } else if a < p {
                lemma_lex_transitive(before[a]@, k@, before[b - 1]@);
            } else if a == p {
            } else {
                assert(slice_views(before)[a - 1] == before[a - 1]@);
                assert(slice_views(before)[b - 1] == before[b - 1]@);
            }
        }
        assert(slice_views(after).to_set() =~= slice_views(before).to_set().insert(k@)) by {
            assert forall|x: Seq<char>| slice_views(after).to_set().contains(x) implies slice_views(before).to_set().insert(k@).contains(x) by {
                let i = choose|i: int| 0 <= i < slice_views(after).len() && slice_views(after)[i] == x;
                if i < p {
                    assert(slice_views(before)[i] == x);
                } else if i > p {
                    assert(slice_views(before)[i - 1] == x);
                }
            }
            assert forall|x: Seq<char>| slice_views(before).to_set().insert(k@).contains(x) implies slice_views(after).to_set().contains(x) by {
                if x == k@ {
                    assert(slice_views(after)[p as int] == x);
                } else {
                    let i = choose|i: int| 0 <= i < slice_views(before).len() && slice_views(before)[i] == x;
                    if i < p {
                        assert(slice_views(after)[i] == x);
                    } else {
                        assert(slice_views(after)[i + 1] == x);
                    }
                }
            }
        }
    }
}

/// Adds every slice of `t` to the strictly sorted list `v`.
pub fn extend_sorted_slices(v: &mut Vec<&'static str>, t: &Vec<&'static str>)
    requires
        strictly_sorted(slice_views(old(v)@)),
    ensures
        strictly_sorted(slice_views(final(v)@)),
        slice_views(final(v)@).to_set() == slice_views(old(v)@).to_set().union(slice_views(t@).to_set()),
{
    let mut k: usize = 0;
    while k < t.len()
        invariant
            k <= t@.len(),
            strictly_sorted(slice_views(v@)),
            slice_views(v@).to_set() == slice_views(old(v)@).to_set().union(slice_views(t@.take(k as int)).to_set()),
        decreases t@.len() - k,
    {
        insert_sorted_slice(v, t[k]);
        proof {
            assert(slice_views(t@.take(k + 1)) =~= slice_views(t@.take(k as int)).push(t@[k as int]@));
            assert(slice_views(t@.take(k + 1)).to_set() =~= slice_views(t@.take(k as int)).to_set().insert(t@[k as int]@)) by {
                let a = slice_views(t@.take(k + 1));
                let b = slice_views(t@.take(k as int));
                assert forall|x: Seq<char>| a.to_set().contains(x) implies b.to_set().insert(t@[k as int]@).contains(x) by {
                    let i = choose|i: int| 0 <= i < a.len() && a[i] == x;
                    if i < k {
                        assert(b[i] == x);
                    }
                }
                assert forall|x: Seq<char>| b.to_set().insert(t@[k as int]@).contains(x) implies a.to_set().contains(x) by {
                    if x == t@[k as int]@ {
                        assert(a[k as int] == x);
                    } else {
                        let i = choose|i: int| 0 <= i < b.len() && b[i] == x;
                        assert(a[i] == x);
                    }
                }
            }
            assert(slice_views(old(v)@).to_set().union(slice_views(t@.take(k as int)).to_set()).insert(t@[k as int]@) =~= slice_views(old(v)@).to_set().union(slice_views(t@.take(k + 1)).to_set()));
        }
        k = k + 1;
    }
    assert(t@.take(k as int) =~= t@);
}

/// The `White_Space` property of Unicode, which is what `char::is_whitespace` tests.
pub open spec fn is_white(c: char) -> bool {
    let n = c as u32;
    (0x09 <= n <= 0x0D) || n == 0x20 || n == 0x85 || n == 0xA0 || n == 0x1680 || (0x2000 <= n
        <= 0x200A) || n == 0x2028 || n == 0x2029 || n == 0x202F || n == 0x205F || n == 0x3000
}

/// Whether `c` is white space.
pub fn white(c: char) -> (r: bool)
    ensures
        r == is_white(c),
{
    let n = c as u32;
    (0x09 <= n && n <= 0x0D) || n == 0x20 || n == 0x85 || n == 0xA0 || n == 0x1680 || (0x2000
        <= n && n <= 0x200A) || n == 0x2028 || n == 0x2029 || n == 0x202F || n == 0x205F || n
        == 0x3000
}

/// `s` without the white space at either end, as `str::trim` leaves it.
pub open spec fn trimmed(s: Seq<char>) -> Seq<char>
    decreases s.len(),
{
    if s.len() > 0 && is_white(s[0]) {
        trimmed(s.drop_first())
    } else if s.len() > 0 && is_white(s.last()) {
        trimmed(s.drop_last())
    } else {
        s
    }
}

/// Text from bytes, as `String::from_utf8_lossy` makes it.
pub uninterp spec fn utf8_lossy(bytes: Seq<u8>) -> Seq<char>;

/// Decodes `bytes` as UTF-8 with `String::from_utf8_lossy`, each malformed sequence
/// replaced by U+FFFD.
///
/// Trusted: the contract claims only that the result is a function of the bytes, named
/// [`utf8_lossy`].
#[verifier::external_body]
pub(crate) fn lossy_text(bytes: &[u8]) -> (r: String)
    ensures
        r@ == utf8_lossy(bytes@),
{
    String::from_utf8_lossy(bytes).into_owned()
}

} // verus!
