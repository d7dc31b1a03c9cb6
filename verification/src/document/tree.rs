//! Building a page tree over a list of pages (7.7.3.2): a balanced tree of `/Pages` nodes
//! with at most fifty kids each, lowest layer first, whose root the catalogue then names.

use crate::document::page::{node, node_dict};
use crate::document::entries::{entry_readable, Located, PageTreeRoot};
use crate::document::state::{
    disjoint, full_walk, is_page_node, kids_leaves, kids_nodes, kids_shape, lemma_no_dup_append, lemma_walk_tree,
    not_a_node, spec_pages_root, tree_leaves, tree_nodes, tree_shape, walk_record, WalkState, MAX_PAGE_DEPTH,
};
use crate::error::{concat, decimal_text, error_text, text, PdfError, PdfResult};
use crate::object::{str_eq, Arena, Dict, Object};
use vstd::prelude::*;

verus! {

/// The most kids a `/Pages` node is given.
pub const MAX_KIDS: usize = 50;

/// A layer split into the kids of the nodes above it: runs of fifty, the last shorter.
pub open spec fn chunks(layer: Seq<u32>) -> Seq<Seq<u32>>
    decreases layer.len(),
{
    if layer.len() == 0 {
        Seq::empty()
    } else if layer.len() <= MAX_KIDS {
        seq![layer]
    } else {
        seq![layer.take(MAX_KIDS as int)] + chunks(layer.skip(MAX_KIDS as int))
    }
}

/// How many runs a layer of `n` splits into.
pub open spec fn chunk_count(n: nat) -> nat {
    ((n + 49) / 50) as nat
}

/// A layer of `n` splits into `chunk_count(n)` runs, fewer than `n` when `n` is more
/// than one, and their concatenation is the layer.
pub proof fn lemma_chunks(layer: Seq<u32>)
    ensures
        chunks(layer).len() == chunk_count(layer.len()),
        layer.len() > 1 ==> chunks(layer).len() < layer.len(),
        layer.len() > 0 ==> chunks(layer).len() > 0,
        forall|i: int| 0 <= i < chunks(layer).len() ==> 0 < #[trigger] chunks(layer)[i].len() <= MAX_KIDS,
    decreases layer.len(),
{
    if layer.len() > MAX_KIDS {
        lemma_chunks(layer.skip(MAX_KIDS as int));
        let rest = chunks(layer.skip(MAX_KIDS as int));
        assert forall|i: int| 0 <= i < chunks(layer).len() implies 0 < #[trigger] chunks(layer)[i].len() <= MAX_KIDS by {
            if i > 0 {
                assert(chunks(layer)[i] == rest[i - 1]);
            }
        }
    }
}

/// The numbers `base`, `base + 1`, ... of `n` objects.
pub open spec fn numbers(base: int, n: nat) -> Seq<u32> {
    Seq::new(n, |i: int| (base + i) as u32)
}

/// The nodes a page tree over `layer` is built of, as their kids, in the order they are
/// numbered from `base`: a layer of nodes over `layer`, then the layers over those,
/// until one node, the root, is left.
pub open spec fn plan(layer: Seq<u32>, base: int) -> Seq<Seq<u32>>
    decreases layer.len(),
{
    let cs = chunks(layer);
    if cs.len() <= 1 {
        cs
    } else {
        proof {
            lemma_chunks(layer);
        }
        cs + plan(numbers(base, cs.len()), base + cs.len())
    }
}

/// The nodes a page tree over `pages` is built of: one node with no kids when there are
/// no pages.
pub open spec fn tree_plan(pages: Seq<u32>, base: int) -> Seq<Seq<u32>> {
    if pages.len() == 0 {
        seq![Seq::empty()]
    } else {
        plan(pages, base)
    }
}

/// A copy of a list of numbers.
fn copy_numbers(v: &[u32]) -> (r: Vec<u32>)
    ensures
        r@ == v@,
{
    let mut out: Vec<u32> = Vec::new();
    let mut i: usize = 0;
    while i < v.len()
        invariant
            i <= v@.len(),
            out@ == v@.take(i as int),
        decreases v@.len() - i,
    {
        out.push(v[i]);
        assert(v@.take(i + 1) =~= v@.take(i as int).push(v@[i as int]));
        i = i + 1;
    }
    assert(v@.take(i as int) =~= v@);
    out
}

/// The views of a list of lists.
pub open spec fn lists(v: Seq<Vec<u32>>) -> Seq<Seq<u32>> {
    v.map_values(|x: Vec<u32>| x@)
}

/// A layer split into runs of fifty.
fn split_layer(layer: &Vec<u32>) -> (r: Vec<Vec<u32>>)
    ensures
        lists(r@) == chunks(layer@),
{
    let mut out: Vec<Vec<u32>> = Vec::new();
    let mut start: usize = 0;
    assert(layer@.skip(0) =~= layer@);
    while start < layer.len()
        invariant
            start <= layer@.len(),
            lists(out@) + chunks(layer@.skip(start as int)) == chunks(layer@),
        decreases layer@.len() - start,
    {
        let ghost rest = layer@.skip(start as int);
        let end = if layer.len() - start <= MAX_KIDS {
            layer.len()
        } else {
            start + MAX_KIDS
        };
        let piece = copy_numbers(&layer.as_slice()[start..end]);
        let ghost before = out@;
        out.push(piece);
        proof {
            assert(lists(out@) =~= lists(before).push(piece@));
            assert(piece@ =~= layer@.subrange(start as int, end as int));
            if rest.len() <= MAX_KIDS {
                assert(rest =~= piece@);
                assert(layer@.skip(end as int) =~= Seq::<u32>::empty());
                assert(chunks(layer@.skip(end as int)) =~= Seq::<Seq<u32>>::empty());
                assert(lists(out@) + chunks(layer@.skip(end as int)) =~= lists(before) + chunks(rest));
            } else {
                assert(rest.take(MAX_KIDS as int) =~= piece@);
                assert(rest.skip(MAX_KIDS as int) =~= layer@.skip(end as int));
                assert(lists(out@) + chunks(layer@.skip(end as int)) =~= lists(before) + chunks(rest));
            }
        }
        start = end;
    }
    assert(layer@.skip(start as int) =~= Seq::<u32>::empty());
    assert(lists(out@) + chunks(layer@.skip(start as int)) =~= lists(out@));
    out
}

/// The numbers `base .. base + n`.
fn number_run(base: u32, n: usize) -> (r: Vec<u32>)
    requires
        base + n <= u32::MAX + 1,
    ensures
        r@ == numbers(base as int, n as nat),
{
    let mut out: Vec<u32> = Vec::new();
    let mut i: usize = 0;
    while i < n
        invariant
            i <= n,
            base + n <= u32::MAX + 1,
            out@ == numbers(base as int, i as nat),
        decreases n - i,
    {
        out.push((base as usize + i) as u32);
        assert(out@ =~= numbers(base as int, (i + 1) as nat));
        i = i + 1;
    }
    out
}

/// The plan of a page tree over `pages` with its nodes numbered from `base`, or `None`
/// when their numbers would not fit below `u32::MAX`.
pub fn make_plan(pages: &Vec<u32>, base: usize) -> (r: Option<Vec<Vec<u32>>>)
    ensures
        match r {
            Some(p) => lists(p@) == tree_plan(pages@, base as int) && base + p@.len() <= u32::MAX,
            None => base + tree_plan(pages@, base as int).len() > u32::MAX,
        },
{
    if pages.len() == 0 {
        if base < u32::MAX as usize {
            let mut out: Vec<Vec<u32>> = Vec::new();
            out.push(Vec::new());
            assert(lists(out@) =~= seq![Seq::<u32>::empty()]);
            return Some(out);
        } else {
            return None;
        }
    }
    let mut out: Vec<Vec<u32>> = Vec::new();
    let mut layer = copy_numbers(pages.as_slice());
    let mut next: usize = base;
    loop
        invariant
            layer@.len() > 0,
            next >= base,
            lists(out@).len() == next - base,
            lists(out@) + plan(layer@, next as int) == plan(pages@, base as int),
        decreases layer@.len(),
    {
        let cs = split_layer(&layer);
        proof {
            lemma_chunks(layer@);
        }
        let count = cs.len();
        let ghost before = lists(out@);
        let mut k: usize = 0;
        let mut cs = cs;
        let ghost all = lists(cs@);
        while cs.len() > 0
            invariant
                lists(out@) == before + all.take(k as int),
                lists(cs@) == all.skip(k as int),
                k + cs@.len() == count,
                all.len() == count,
            decreases cs@.len(),
        {
            let ghost old_cs = cs@;
            let piece = cs.remove(0);
            let ghost o = lists(out@);
            out.push(piece);
            proof {
                assert(lists(out@) =~= o.push(piece@));
                assert(lists(old_cs)[0] == old_cs[0]@);
                assert(all.skip(k as int)[0] == all[k as int]);
                assert(piece@ == all[k as int]);
                assert(cs@ =~= old_cs.drop_first());
                assert(all.take(k + 1) =~= all.take(k as int).push(all[k as int]));
                assert forall|j: int| 0 <= j < lists(cs@).len() implies #[trigger] lists(cs@)[j] == all.skip(k + 1)[j] by {
                    assert(lists(cs@)[j] == cs@[j]@);
                    assert(cs@[j] == old_cs[j + 1]);
                    assert(lists(old_cs)[j + 1] == old_cs[j + 1]@);
                    assert(all.skip(k as int)[j + 1] == all.skip(k + 1)[j]);
                }
                assert(lists(cs@) =~= all.skip(k + 1));
            }
            k = k + 1;
        }
        assert(all.take(k as int) =~= all);
        if count <= 1 {
            proof {
                assert(plan(layer@, next as int) == all);
            }
            if next > u32::MAX as usize || u32::MAX as usize - next < count {
                return None;
            }
            return Some(out);
        }
        if next > u32::MAX as usize || u32::MAX as usize - next < count {
            return None;
        }
        let run = number_run(next as u32, count);
        proof {
            assert(plan(layer@, next as int) == all + plan(numbers(next as int, count as nat), next + count));
            assert(lists(out@) + plan(run@, (next + count) as int) =~= before + plan(layer@, next as int));
        }
        layer = run;
        next = next + count;
    }
}

/// How many pages a node says it holds: its `/Count` when that is a count, else one for
/// a `/Page` and none for anything else.
pub open spec fn node_count(arena: Arena, d: Dict) -> int {
    match d.spec_get("Count"@) {
        Some(o) => match arena.spec_integer_of(o) {
            Some(c) => if 0 <= c && c <= usize::MAX {
                c as int
            } else {
                0
            },
            None => if is_page_node(arena, d) {
                1
            } else {
                0
            },
        },
        None => if is_page_node(arena, d) {
            1
        } else {
            0
        },
    }
}

/// How many pages a node says it holds.
fn get_node_count(arena: &Arena, d: &Dict) -> (r: i64)
    ensures
        r == node_count(*arena, *d),
        r >= 0,
{
    if let Some(o) = d.get("Count") {
        if let Some(c) = arena.integer_of(o) {
            if c >= 0 && (c as u64) <= (usize::MAX as u64) {
                return c;
            } else {
                return 0;
            }
        }
    }
    let is_page = match d.get("Type") {
        Some(t) => match arena.name_of(t) {
            Some(n) => str_eq(n.as_str(), "Page"),
            None => false,
        },
        None => false,
    };
    if is_page {
        1
    } else {
        0
    }
}

/// How many pages a kid holds: an object of the document by what it says, a node built
/// here by the count it was given.
pub open spec fn kid_count(old: Arena, base: int, counts: Seq<int>, kid: u32) -> int {
    if (kid as int) < base {
        match node_dict(old, kid) {
            Some(d) => node_count(old, d),
            None => 0,
        }
    } else if kid - base < counts.len() {
        let c = counts[kid - base];
        if c <= usize::MAX {
            c
        } else {
            0
        }
    } else {
        0
    }
}

/// The pages under the first `n` kids, added up and held at `i64::MAX`.
pub open spec fn kids_total(old: Arena, base: int, counts: Seq<int>, kids: Seq<u32>, n: int) -> int
    decreases n,
{
    if n <= 0 {
        0
    } else {
        let t = kids_total(old, base, counts, kids, n - 1) + kid_count(old, base, counts, kids[n - 1]);
        if t > i64::MAX {
            i64::MAX as int
        } else {
            t
        }
    }
}

/// The counts of the first `n` nodes of a plan.
pub open spec fn plan_counts(old: Arena, base: int, p: Seq<Seq<u32>>, n: int) -> Seq<int>
    decreases n,
{
    if n <= 0 {
        Seq::empty()
    } else {
        let prev = plan_counts(old, base, p, n - 1);
        prev.push(kids_total(old, base, prev, p[n - 1], p[n - 1].len() as int))
    }
}

/// A plan's counts are one per node.
proof fn lemma_plan_counts_len(old: Arena, base: int, p: Seq<Seq<u32>>, n: int)
    requires
        n >= 0,
    ensures
        plan_counts(old, base, p, n).len() == n,
    decreases n,
{
    if n > 0 {
        lemma_plan_counts_len(old, base, p, n - 1);
    }
}

/// The counts of a plan's nodes, in order.
fn compute_counts(arena: &Arena, base: usize, plan: &Vec<Vec<u32>>) -> (r: Vec<i64>)
    ensures
        r@.len() == plan@.len(),
        forall|j: int| 0 <= j < r@.len() ==> r@[j] >= 0 && #[trigger] r@[j] as int == plan_counts(
            *arena,
            base as int,
            lists(plan@),
            plan@.len() as int,
        )[j],
{
    let mut counts: Vec<i64> = Vec::new();
    let mut i: usize = 0;
    while i < plan.len()
        invariant
            i <= plan@.len(),
            counts@.len() == i,
            forall|j: int| 0 <= j < i ==> counts@[j] >= 0 && #[trigger] counts@[j] as int == plan_counts(
                *arena,
                base as int,
                lists(plan@),
                i as int,
            )[j],
        decreases plan@.len() - i,
    {
        let ghost prev = plan_counts(*arena, base as int, lists(plan@), i as int);
        proof {
            lemma_plan_counts_len(*arena, base as int, lists(plan@), i as int);
        }
        let kids = &plan[i];
        assert(lists(plan@)[i as int] == kids@);
        let mut t: i64 = 0;
        let mut k: usize = 0;
        while k < kids.len()
            invariant
                k <= kids@.len(),
                counts@.len() == i,
                prev.len() == i,
                forall|j: int| 0 <= j < i ==> counts@[j] >= 0 && #[trigger] counts@[j] as int == prev[j],
                t >= 0,
                t as int == kids_total(*arena, base as int, prev, kids@, k as int),
            decreases kids@.len() - k,
        {
            let kid = kids[k];
            let c: i64 = if (kid as usize) < base {
                match node(arena, kid) {
                    Some(d) => get_node_count(arena, d),
                    None => 0,
                }
            } else if (kid as usize) - base < counts.len() {
                let v = counts[(kid as usize) - base];
                if (v as u64) <= (usize::MAX as u64) {
                    v
                } else {
                    0
                }
            } else {
                0
            };
            assert(c as int == kid_count(*arena, base as int, prev, kid));
            if t > i64::MAX - c {
                t = i64::MAX;
            } else {
                t = t + c;
            }
            k = k + 1;
        }
        counts.push(t);
        proof {
            let now = plan_counts(*arena, base as int, lists(plan@), i + 1);
            assert(now == prev.push(kids_total(*arena, base as int, prev, kids@, kids@.len() as int)));
            assert forall|j: int| 0 <= j < i + 1 implies counts@[j] >= 0 && #[trigger] counts@[j] as int == now[j] by {
                if j < i {
                    assert(counts@[j] as int == prev[j]);
                }
            }
        }
        i = i + 1;
    }
    counts
}

/// Kids as the references a `/Kids` array holds.
pub open spec fn refs(kids: Seq<u32>) -> Seq<Object> {
    kids.map_values(|n: u32| Object::Reference(n))
}

/// Whether `d` is a node built here: `/Type /Pages`, this count and these kids, and no
/// other entry but perhaps `/Parent`.
pub open spec fn is_built_node(d: Dict, kids: Seq<u32>, count: int) -> bool {
    &&& d.spec_get("Type"@) matches Some(Object::Name(t)) && t@ == "Pages"@
    &&& d.spec_get("Count"@) == Some(Object::Integer(count as i64))
    &&& d.spec_get("Kids"@) matches Some(Object::Array(a)) && a@ == refs(kids)
    &&& forall|k: Seq<char>| k != "Type"@ && k != "Count"@ && k != "Kids"@ && k != "Parent"@ ==> #[trigger] d.spec_get(k) is None
}

/// Whether `o` is a node just built: no `/Parent` yet.
pub open spec fn fresh_node(o: Object, kids: Seq<u32>, count: int) -> bool {
    o matches Object::Dictionary(d) && is_built_node(d, kids, count) && d.spec_get("Parent"@) is None
}

/// A node over `kids` holding `count` pages.
fn new_node(kids: &Vec<u32>, count: i64) -> (r: Object)
    ensures
        fresh_node(r, kids@, count as int),
{
    let mut items: Vec<Object> = Vec::new();
    let mut k: usize = 0;
    while k < kids.len()
        invariant
            k <= kids@.len(),
            items@ == refs(kids@.take(k as int)),
        decreases kids@.len() - k,
    {
        items.push(Object::Reference(kids[k]));
        assert(refs(kids@.take(k + 1)) =~= refs(kids@.take(k as int)).push(Object::Reference(kids@[k as int])));
        k = k + 1;
    }
    assert(kids@.take(k as int) =~= kids@);
    proof {
        reveal_strlit("Type");
        reveal_strlit("Count");
        reveal_strlit("Kids");
        reveal_strlit("Parent");
    }
    assert("Type"@.len() == 4 && "Count"@.len() == 5 && "Kids"@.len() == 4 && "Parent"@.len() == 6);
    assert("Type"@[0] == 'T' && "Kids"@[0] == 'K');
    assert("Type"@ != "Count"@ && "Type"@ != "Kids"@ && "Count"@ != "Kids"@);
    assert("Parent"@ != "Count"@ && "Parent"@ != "Kids"@ && "Parent"@ != "Type"@);
    let mut d = Dict::new();
    let ghost d0 = d;
    assert forall|k: Seq<char>| #[trigger] d0.spec_get(k) is None by {
        assert(d0.entries@.len() == 0);
    }
    d.insert("Type", Object::Name(text("Pages")));
    let ghost d1 = d;
    d.insert("Count", Object::Integer(count));
    let ghost d2 = d;
    d.insert("Kids", Object::Array(items));
    assert(d.spec_get("Type"@) == d2.spec_get("Type"@));
    assert(d2.spec_get("Type"@) == d1.spec_get("Type"@));
    assert(d.spec_get("Count"@) == d2.spec_get("Count"@));
    assert(d.spec_get("Parent"@) == d2.spec_get("Parent"@));
    assert(d2.spec_get("Parent"@) == d1.spec_get("Parent"@));
    assert(d1.spec_get("Parent"@) == d0.spec_get("Parent"@));
    assert forall|k: Seq<char>| k != "Type"@ && k != "Count"@ && k != "Kids"@ && k != "Parent"@ implies #[trigger] d.spec_get(k) is None by {
        assert(d.spec_get(k) == d2.spec_get(k));
        assert(d2.spec_get(k) == d1.spec_get(k));
        assert(d1.spec_get(k) == d0.spec_get(k));
    }
    Object::Dictionary(d)
}

/// Appends the nodes of a plan, with their counts, after the objects already there.
fn alloc_nodes(arena: &mut Arena, plan: &Vec<Vec<u32>>, counts: &Vec<i64>)
    requires
        old(arena).objects@.len() + plan@.len() <= u32::MAX,
        counts@.len() == plan@.len(),
    ensures
        final(arena).objects@.len() == old(arena).objects@.len() + plan@.len(),
        forall|i: int| 0 <= i < old(arena).objects@.len() ==> #[trigger] final(arena).objects@[i] == old(arena).objects@[i],
        forall|j: int| 0 <= j < plan@.len() ==> fresh_node(
            #[trigger] final(arena).objects@[old(arena).objects@.len() + j],
            plan@[j]@,
            counts@[j] as int,
        ),
{
    let ghost base = arena.objects@.len();
    let ghost start = arena.objects@;
    let mut j: usize = 0;
    while j < plan.len()
        invariant
            j <= plan@.len(),
            counts@.len() == plan@.len(),
            base + plan@.len() <= u32::MAX,
            arena.objects@.len() == base + j,
            forall|i: int| 0 <= i < base ==> #[trigger] arena.objects@[i] == start[i],
            forall|m: int| 0 <= m < j ==> fresh_node(#[trigger] arena.objects@[base + m], plan@[m]@, counts@[m] as int),
        decreases plan@.len() - j,
    {
        let o = new_node(&plan[j], counts[j]);
        let ghost before = arena.objects@;
        arena.add_object(o);
        proof {
            assert forall|m: int| 0 <= m < j + 1 implies fresh_node(#[trigger] arena.objects@[base + m], plan@[m]@, counts@[m] as int) by {
                if m < j {
                    assert(arena.objects@[base + m] == before[base + m]);
                }
            }
        }
        j = j + 1;
    }
}

/// Every kid of every run of a layer is an element of the layer.
proof fn lemma_chunk_elems(layer: Seq<u32>)
    ensures
        forall|i: int, k: int| 0 <= i < chunks(layer).len() && 0 <= k < chunks(layer)[i].len() ==> layer.contains(
            #[trigger] chunks(layer)[i][k],
        ),
    decreases layer.len(),
{
    if layer.len() > MAX_KIDS {
        lemma_chunk_elems(layer.skip(MAX_KIDS as int));
        assert forall|i: int, k: int| 0 <= i < chunks(layer).len() && 0 <= k < chunks(layer)[i].len() implies layer.contains(
            #[trigger] chunks(layer)[i][k],
        ) by {
            if i == 0 {
                assert(layer[k] == chunks(layer)[i][k]);
            } else {
                let rest = layer.skip(MAX_KIDS as int);
                assert(chunks(layer)[i] == chunks(rest)[i - 1]);
                let j = choose|j: int| 0 <= j < rest.len() && rest[j] == chunks(rest)[i - 1][k];
                assert(layer[j + MAX_KIDS] == rest[j]);
            }
        }
    } else if layer.len() > 0 {
        assert forall|i: int, k: int| 0 <= i < chunks(layer).len() && 0 <= k < chunks(layer)[i].len() implies layer.contains(
            #[trigger] chunks(layer)[i][k],
        ) by {
            assert(layer[k] == chunks(layer)[i][k]);
        }
    }
}

/// Every kid of a plan is an element of the layer it is built over, or a node of the
/// plan itself.
proof fn lemma_plan_kids(layer: Seq<u32>, base: int)
    requires
        base >= 0,
        base + plan(layer, base).len() <= u32::MAX,
    ensures
        forall|i: int, k: int| 0 <= i < plan(layer, base).len() && 0 <= k < plan(layer, base)[i].len() ==> ({
            let kid = #[trigger] plan(layer, base)[i][k];
            layer.contains(kid) || (base <= kid < base + plan(layer, base).len())
        }),
    decreases layer.len(),
{
    let cs = chunks(layer);
    lemma_chunk_elems(layer);
    lemma_chunks(layer);
    if cs.len() > 1 {
        let next = numbers(base, cs.len());
        let p = plan(layer, base);
        lemma_plan_kids(next, base + cs.len());
        assert forall|i: int, k: int| 0 <= i < p.len() && 0 <= k < p[i].len() implies ({
            let kid = #[trigger] p[i][k];
            layer.contains(kid) || (base <= kid < base + p.len())
        }) by {
            if i < cs.len() {
                assert(p[i] == cs[i]);
            } else {
                let q = plan(next, base + cs.len());
                assert(p[i] == q[i - cs.len()]);
                let kid = q[i - cs.len()][k];
                if next.contains(kid) {
                    let j = choose|j: int| 0 <= j < next.len() && next[j] == kid;
                    assert(next[j] == (base + j) as u32);
                }
            }
        }
    }
}

/// The parents a plan gives, in the order it gives them: the kids of its first `n` nodes,
/// node by node, each with the number of its node.
pub open spec fn assigns(p: Seq<Seq<u32>>, base: int, n: int) -> Seq<(u32, u32)>
    decreases n,
{
    if n <= 0 {
        Seq::empty()
    } else {
        assigns(p, base, n - 1) + p[n - 1].map_values(|kid: u32| (kid, (base + n - 1) as u32))
    }
}

/// The last parent given to `x`.
pub open spec fn last_parent(a: Seq<(u32, u32)>, x: u32) -> Option<u32>
    decreases a.len(),
{
    if a.len() == 0 {
        None
    } else if a.last().0 == x {
        Some(a.last().1)
    } else {
        last_parent(a.drop_last(), x)
    }
}

/// An optional reference.
pub open spec fn opt_reference(q: Option<u32>) -> Option<Object> {
    match q {
        Some(n) => Some(Object::Reference(n)),
        None => None,
    }
}

/// What being given parent `q`, if any, does to an object: a dictionary gains `/Parent`
/// and nothing else changes.
pub open spec fn parented(before: Object, after: Object, q: Option<u32>) -> bool {
    match q {
        None => after == before,
        Some(n) => (before matches Object::Dictionary(d0) && (after matches Object::Dictionary(d1) && d1.spec_get("Parent"@)
            == Some(Object::Reference(n)) && forall|k: Seq<char>| k != "Parent"@ ==> #[trigger] d1.spec_get(k) == d0.spec_get(k))),
    }
}

/// Gives each kid of a plan its node as `/Parent`, node by node.
fn assign_parents(arena: &mut Arena, plan: &Vec<Vec<u32>>, base: u32)
    requires
        old(arena).objects@.len() <= u32::MAX,
        base + plan@.len() <= u32::MAX,
        forall|i: int, k: int| 0 <= i < plan@.len() && 0 <= k < plan@[i]@.len() ==> ({
            let kid = #[trigger] plan@[i]@[k];
            (kid as int) < old(arena).objects@.len() && old(arena).objects@[kid as int] is Dictionary
        }),
    ensures
        final(arena).objects@.len() == old(arena).objects@.len(),
        forall|x: int| 0 <= x < old(arena).objects@.len() ==> parented(
            #[trigger] old(arena).objects@[x],
            final(arena).objects@[x],
            last_parent(assigns(lists(plan@), base as int, plan@.len() as int), x as u32),
        ),
{
    let ghost start = arena.objects@;
    let ghost p = lists(plan@);
    let mut i: usize = 0;
    assert forall|x: int| 0 <= x < start.len() implies parented(#[trigger] start[x], arena.objects@[x], last_parent(assigns(p, base as int, 0), x as u32)) by {}
    while i < plan.len()
        invariant
            i <= plan@.len(),
            p == lists(plan@),
            start.len() <= u32::MAX,
            base + plan@.len() <= u32::MAX,
            arena.objects@.len() == start.len(),
            forall|i2: int, k: int| 0 <= i2 < plan@.len() && 0 <= k < plan@[i2]@.len() ==> ({
                let kid = #[trigger] plan@[i2]@[k];
                (kid as int) < start.len() && start[kid as int] is Dictionary
            }),
            forall|x: int| 0 <= x < start.len() ==> parented(#[trigger] start[x], arena.objects@[x], last_parent(assigns(p, base as int, i as int), x as u32)),
        decreases plan@.len() - i,
    {
        let kids = &plan[i];
        let q = base + i as u32;
        let ghost before_node = assigns(p, base as int, i as int);
        let mut k: usize = 0;
        assert(p[i as int] == kids@);
        while k < kids.len()
            invariant
                k <= kids@.len(),
                kids@ == p[i as int],
                i < plan@.len(),
                p == lists(plan@),
                q == base + i,
                start.len() <= u32::MAX,
                arena.objects@.len() == start.len(),
                forall|i2: int, k2: int| 0 <= i2 < plan@.len() && 0 <= k2 < plan@[i2]@.len() ==> ({
                    let kid = #[trigger] plan@[i2]@[k2];
                    (kid as int) < start.len() && start[kid as int] is Dictionary
                }),
                forall|x: int| 0 <= x < start.len() ==> parented(
                    #[trigger] start[x],
                    arena.objects@[x],
                    last_parent(before_node + kids@.take(k as int).map_values(|kid: u32| (kid, q)), x as u32),
                ),
            decreases kids@.len() - k,
        {
            let kid = kids[k];
            assert(plan@[i as int]@[k as int] == kid);
            let ghost done = before_node + kids@.take(k as int).map_values(|kid: u32| (kid, q));
            let ghost cur = arena.objects@;
            arena.set_entry(kid, "Parent", Object::Reference(q));
            proof {
                let done2 = before_node + kids@.take(k + 1).map_values(|kid: u32| (kid, q));
                assert(done2 =~= done.push((kid, q)));
                assert forall|x: int| 0 <= x < start.len() implies parented(#[trigger] start[x], arena.objects@[x], last_parent(done2, x as u32)) by {
                    assert(done2.drop_last() =~= done);
                    if x == kid as int {
                        assert(parented(start[x], cur[x], last_parent(done, x as u32)));
                        assert(last_parent(done2, x as u32) == Some(q));
                    } else {
                        assert(arena.objects@[x] == cur[x]);
                        assert(x as u32 != kid);
                        assert(last_parent(done2, x as u32) == last_parent(done, x as u32));
                    }
                }
            }
            k = k + 1;
        }
        proof {
            assert(kids@.take(k as int) =~= kids@);
            assert(assigns(p, base as int, i + 1) =~= before_node + kids@.map_values(|kid: u32| (kid, q)));
        }
        i = i + 1;
    }
}

/// What the catalogue becomes: it names the new root as `/Pages`, takes a parent if it was
/// a page of the tree, and keeps everything else.
pub open spec fn catalog_after(before: Object, after: Object, q: Option<u32>, top: u32) -> bool {
    before matches Object::Dictionary(d0) && (after matches Object::Dictionary(d1) && d1.spec_get("Pages"@) == Some(
        Object::Reference(top),
    ) && d1.spec_get("Parent"@) == match q {
        Some(n) => Some(Object::Reference(n)),
        None => d0.spec_get("Parent"@),
    } && forall|k: Seq<char>| k != "Pages"@ && k != "Parent"@ ==> #[trigger] d1.spec_get(k) == d0.spec_get(k))
}

/// What a node built here ends as: its kids and count, and its parent, the root having
/// none.
pub open spec fn built_after(o: Object, kids: Seq<u32>, count: int, parent: Option<u32>) -> bool {
    o matches Object::Dictionary(d) && is_built_node(d, kids, count) && d.spec_get("Parent"@) == opt_reference(parent)
}

/// Whether `new` is `old` with a page tree over `pages` built into it (7.7.3.2): the nodes
/// of [`tree_plan`] appended, each with `/Type /Pages`, its `/Kids`, the `/Count` of the
/// pages beneath it and its `/Parent`; each kid given its node as `/Parent`; and the
/// catalogue `root` naming the top node as `/Pages`. Nothing else changes.
pub open spec fn rebuilt(old: Arena, root: u32, pages: Seq<u32>, new: Arena) -> bool {
    let base = old.objects@.len() as int;
    let p = tree_plan(pages, base);
    let counts = plan_counts(old, base, p, p.len() as int);
    let a = assigns(p, base, p.len() as int);
    let top = (base + p.len() - 1) as u32;
    &&& new.objects@.len() == base + p.len()
    &&& forall|x: int| 0 <= x < base && x != root ==> parented(#[trigger] old.objects@[x], new.objects@[x], last_parent(a, x as u32))
    &&& catalog_after(old.objects@[root as int], new.objects@[root as int], last_parent(a, root), top)
    &&& forall|j: int| 0 <= j < p.len() ==> built_after(
        #[trigger] new.objects@[base + j],
        p[j],
        counts[j],
        if j == p.len() - 1 {
            None
        } else {
            last_parent(a, (base + j) as u32)
        },
    )
}

/// The first of `pages` that is not a dictionary object.
pub open spec fn first_non_node(arena: Arena, pages: Seq<u32>) -> Option<u32>
    decreases pages.len(),
{
    if pages.len() == 0 {
        None
    } else if node_dict(arena, pages[0]) is None {
        Some(pages[0])
    } else {
        first_non_node(arena, pages.drop_first())
    }
}

/// Whether a page tree over `pages` can be built into `old`: every page and the catalogue
/// are dictionaries, and the new nodes' numbers fit.
pub open spec fn buildable(old: Arena, root: u32, pages: Seq<u32>) -> bool {
    &&& first_non_node(old, pages) is None
    &&& node_dict(old, root) is Some
    &&& old.objects@.len() + tree_plan(pages, old.objects@.len() as int).len() <= u32::MAX
}

/// Why a page tree cannot be built: the first page that is no dictionary, else the
/// catalogue, else the object numbers.
pub open spec fn build_error(old: Arena, root: u32, pages: Seq<u32>) -> Seq<char> {
    match first_non_node(old, pages) {
        Some(h) => not_a_node(h),
        None => if node_dict(old, root) is None {
            not_a_node(root)
        } else {
            "no object numbers are left for a page tree"@
        },
    }
}

/// The first of `pages` that is not a dictionary object.
fn find_non_node(arena: &Arena, pages: &Vec<u32>) -> (r: Option<u32>)
    ensures
        r == first_non_node(*arena, pages@),
        r is None ==> forall|i: int| 0 <= i < pages@.len() ==> #[trigger] node_dict(*arena, pages@[i]) is Some,
{
    let mut i: usize = 0;
    assert(pages@.skip(0) =~= pages@);
    while i < pages.len()
        invariant
            i <= pages@.len(),
            first_non_node(*arena, pages@) == first_non_node(*arena, pages@.skip(i as int)),
            forall|j: int| 0 <= j < i ==> #[trigger] node_dict(*arena, pages@[j]) is Some,
        decreases pages@.len() - i,
    {
        assert(pages@.skip(i as int)[0] == pages@[i as int]);
        assert(pages@.skip(i as int).drop_first() =~= pages@.skip(i + 1));
        if node(arena, pages[i]).is_none() {
            return Some(pages[i]);
        }
        i = i + 1;
    }
    None
}

/// Builds a page tree over `pages` into `arena` and makes the catalogue `root` name it.
/// When it cannot be built, nothing is changed.
pub fn build_page_tree(arena: &mut Arena, root: u32, pages: &Vec<u32>) -> (r: PdfResult<()>)
    ensures
        (r is Ok) == buildable(*old(arena), root, pages@),
        r is Ok ==> rebuilt(*old(arena), root, pages@, *final(arena)),
        r matches Err(e) ==> *final(arena) == *old(arena) && error_text(e) == build_error(*old(arena), root, pages@),
{
    if let Some(h) = find_non_node(arena, pages) {
        let m = concat(concat(text("Object "), decimal_text(h as u64).as_str()), " is not a dictionary");
        return Err(PdfError::Other(m));
    }
    if node(arena, root).is_none() {
        let m = concat(concat(text("Object "), decimal_text(root as u64).as_str()), " is not a dictionary");
        return Err(PdfError::Other(m));
    }
    let base = arena.objects.len();
    let plan = match make_plan(pages, base) {
        Some(p) => p,
        None => return Err(PdfError::Arena(text("no object numbers are left for a page tree"))),
    };
    let ghost old_arena = *arena;
    let ghost p = lists(plan@);
    assert(p == tree_plan(pages@, base as int));
    let counts = compute_counts(arena, base, &plan);
    alloc_nodes(arena, &plan, &counts);
    let ghost after_alloc = arena.objects@;
    proof {
        if pages@.len() > 0 {
            lemma_plan_kids(pages@, base as int);
        } else {
            assert(p =~= seq![Seq::<u32>::empty()]);
        }
        assert forall|i: int, k: int| 0 <= i < plan@.len() && 0 <= k < plan@[i]@.len() implies ({
            let kid = #[trigger] plan@[i]@[k];
            (kid as int) < after_alloc.len() && after_alloc[kid as int] is Dictionary
        }) by {
            let kid = plan@[i]@[k];
            assert(p[i][k] == kid);
            if pages@.contains(kid) {
                let j = choose|j: int| 0 <= j < pages@.len() && pages@[j] == kid;
                assert(node_dict(old_arena, pages@[j]) is Some);
                assert(after_alloc[kid as int] == old_arena.objects@[kid as int]);
            } else {
                let m = kid - base;
                assert(fresh_node(after_alloc[base + m], plan@[m]@, counts@[m] as int));
            }
        }
    }
    assign_parents(arena, &plan, base as u32);
    let ghost after_parents = arena.objects@;
    let top = (base + plan.len() - 1) as u32;
    arena.set_entry(root, "Pages", Object::Reference(top));
    let ghost after_catalog = arena.objects@;
    arena.remove_entry(top, "Parent");
    proof {
        let a = assigns(p, base as int, p.len() as int);
        let cs = plan_counts(old_arena, base as int, p, p.len() as int);
        assert(cs.len() == p.len()) by {
            lemma_plan_counts_len(old_arena, base as int, p, p.len() as int);
        }
        reveal_strlit("Pages");
        reveal_strlit("Parent");
        assert("Pages"@.len() == 5 && "Parent"@.len() == 6);
        assert("Pages"@ != "Parent"@);
        assert forall|x: int| 0 <= x < base && x != root implies parented(
            #[trigger] old_arena.objects@[x],
            arena.objects@[x],
            last_parent(a, x as u32),
        ) by {
            assert(parented(after_alloc[x], after_parents[x], last_parent(a, x as u32)));
            assert(after_alloc[x] == old_arena.objects@[x]);
        }
        assert(catalog_after(old_arena.objects@[root as int], arena.objects@[root as int], last_parent(a, root), top)) by {
            assert(parented(after_alloc[root as int], after_parents[root as int], last_parent(a, root)));
            assert(after_alloc[root as int] == old_arena.objects@[root as int]);
        }
        assert forall|j: int| 0 <= j < p.len() implies built_after(
            #[trigger] arena.objects@[base + j],
            p[j],
            cs[j],
            if j == p.len() - 1 {
                None
            } else {
                last_parent(a, (base + j) as u32)
            },
        ) by {
            assert(fresh_node(after_alloc[base + j], plan@[j]@, counts@[j] as int));
            assert(counts@[j] as int == cs[j]);
            assert(plan@[j]@ == p[j]);
            assert(parented(after_alloc[base + j], after_parents[base + j], last_parent(a, (base + j) as u32)));
            assert(after_catalog[base + j] == after_parents[base + j]);
        }
    }
    Ok(())
}

/// The pages under each of a layer's trees of height `h`, in order.
pub open spec fn layer_leaves(arena: Arena, layer: Seq<u32>, h: nat) -> Seq<u32>
    decreases layer.len(),
{
    if layer.len() == 0 {
        Seq::empty()
    } else {
        layer_leaves(arena, layer.drop_last(), h) + tree_leaves(arena, layer.last(), h)
    }
}

/// The nodes of each of a layer's trees of height `h`, in order.
pub open spec fn layer_nodes(arena: Arena, layer: Seq<u32>, h: nat) -> Seq<u32>
    decreases layer.len(),
{
    if layer.len() == 0 {
        Seq::empty()
    } else {
        layer_nodes(arena, layer.drop_last(), h) + tree_nodes(arena, layer.last(), h)
    }
}

/// A layer's pages and nodes, split where the layer is.
proof fn lemma_layer_append(arena: Arena, a: Seq<u32>, b: Seq<u32>, h: nat)
    ensures
        layer_leaves(arena, a + b, h) == layer_leaves(arena, a, h) + layer_leaves(arena, b, h),
        layer_nodes(arena, a + b, h) == layer_nodes(arena, a, h) + layer_nodes(arena, b, h),
    decreases b.len(),
{
    if b.len() == 0 {
        assert(a + b =~= a);
        assert(layer_leaves(arena, a, h) + layer_leaves(arena, b, h) =~= layer_leaves(arena, a, h));
        assert(layer_nodes(arena, a, h) + layer_nodes(arena, b, h) =~= layer_nodes(arena, a, h));
    } else {
        lemma_layer_append(arena, a, b.drop_last(), h);
        assert((a + b).drop_last() =~= a + b.drop_last());
        assert((a + b).last() == b.last());
        assert(layer_leaves(arena, a + b, h) =~= layer_leaves(arena, a, h) + layer_leaves(arena, b, h));
        assert(layer_nodes(arena, a + b, h) =~= layer_nodes(arena, a, h) + layer_nodes(arena, b, h));
    }
}

/// Kids written as references to a layer's elements are that layer.
proof fn lemma_kids_of_refs(arena: Arena, c: Seq<u32>, n: int, h: nat)
    requires
        0 <= n <= c.len(),
    ensures
        kids_leaves(arena, refs(c), n, h) == layer_leaves(arena, c.take(n), h),
        kids_nodes(arena, refs(c), n, h) == layer_nodes(arena, c.take(n), h),
        kids_shape(arena, refs(c), n, h) <==> forall|i: int| 0 <= i < n ==> tree_shape(arena, #[trigger] c[i], h),
    decreases n,
{
    if n > 0 {
        lemma_kids_of_refs(arena, c, n - 1, h);
        assert(c.take(n).drop_last() =~= c.take(n - 1));
        assert(refs(c)[n - 1] == Object::Reference(c[n - 1]));
    } else {
        assert(c.take(0) =~= Seq::<u32>::empty());
    }
}

/// A layer's runs, joined, are the layer.
proof fn lemma_chunks_flatten(layer: Seq<u32>)
    ensures
        chunks(layer).flatten() == layer,
    decreases layer.len(),
{
    if layer.len() == 0 {
    } else if layer.len() <= MAX_KIDS {
        seq![layer].lemma_flatten_one_element();
    } else {
        lemma_chunks_flatten(layer.skip(MAX_KIDS as int));
        let rest = chunks(layer.skip(MAX_KIDS as int));
        vstd::seq_lib::lemma_flatten_concat(seq![layer.take(MAX_KIDS as int)], rest);
        seq![layer.take(MAX_KIDS as int)].lemma_flatten_one_element();
        assert(layer.take(MAX_KIDS as int) + layer.skip(MAX_KIDS as int) =~= layer);
    }
}

/// How many layers a tree over `n` pages has.
pub open spec fn levels(n: nat) -> nat
    decreases n,
{
    if n <= MAX_KIDS {
        1
    } else {
        1 + levels(chunk_count(n))
    }
}

/// Fifty to the power `k`.
pub open spec fn pow50(k: nat) -> nat
    decreases k,
{
    if k == 0 {
        1
    } else {
        50 * pow50((k - 1) as nat)
    }
}

/// A tree over at most fifty to the `k` pages has at most `k` layers.
proof fn lemma_levels_bound(n: nat, k: nat)
    requires
        k >= 1,
        n <= pow50(k),
    ensures
        levels(n) <= k,
    decreases k,
{
    if n > MAX_KIDS {
        assert(k >= 2) by {
            if k == 1 {
                assert(pow50(0) == 1);
                assert(pow50(1) == 50);
            }
        }
        assert(pow50(k) == 50 * pow50((k - 1) as nat));
        assert(chunk_count(n) <= pow50((k - 1) as nat));
        lemma_levels_bound(chunk_count(n), (k - 1) as nat);
    }
}

/// Whether a dictionary's `/Kids` are references to `kids`, written in place.
pub open spec fn kids_are(d: Dict, kids: Seq<u32>) -> bool {
    d.spec_get("Kids"@) matches Some(Object::Array(a)) && a@ == refs(kids)
}

/// A node built here is a dictionary that is no page, whose `/Kids` are references to its
/// kids in the plan.
proof fn lemma_built_node(old: Arena, root: u32, pages: Seq<u32>, new: Arena, j: int)
    requires
        rebuilt(old, root, pages, new),
        0 <= j < tree_plan(pages, old.objects@.len() as int).len(),
        old.objects@.len() + tree_plan(pages, old.objects@.len() as int).len() <= u32::MAX,
    ensures
        node_dict(new, (old.objects@.len() + j) as u32) matches Some(d) && !is_page_node(new, d) && kids_are(
            d,
            tree_plan(pages, old.objects@.len() as int)[j],
        ),
{
    let base = old.objects@.len() as int;
    let p = tree_plan(pages, base);
    let counts = plan_counts(old, base, p, p.len() as int);
    let a = assigns(p, base, p.len() as int);
    let par = if j == p.len() - 1 {
        None
    } else {
        last_parent(a, (base + j) as u32)
    };
    assert(built_after(new.objects@[base + j], p[j], counts[j], par));
    let x = (base + j) as u32;
    assert(x as int == base + j);
    reveal_strlit("Page");
    reveal_strlit("Pages");
    assert("Page"@.len() == 4 && "Pages"@.len() == 5);
}

/// Whether node `x` heads a tree one taller than the layer `c` beneath it, made of
/// those trees.
pub open spec fn node_over(arena: Arena, x: u32, c: Seq<u32>, h: nat) -> bool {
    &&& tree_shape(arena, x, h + 1)
    &&& tree_leaves(arena, x, h + 1) == layer_leaves(arena, c, h)
    &&& tree_nodes(arena, x, h + 1) == seq![x] + layer_nodes(arena, c, h)
}

/// A node built over a run of a layer of trees heads one tree made of them.
proof fn lemma_node_over(arena: Arena, x: u32, d: Dict, c: Seq<u32>, h: nat)
    requires
        node_dict(arena, x) == Some(d),
        !is_page_node(arena, d),
        kids_are(d, c),
        forall|k: int| 0 <= k < c.len() ==> tree_shape(arena, #[trigger] c[k], h),
    ensures
        node_over(arena, x, c, h),
{
    lemma_kids_of_refs(arena, c, c.len() as int, h);
    assert(c.take(c.len() as int) =~= c);
    assert(refs(c).len() == c.len());
}

/// The layer of nodes built over a layer's runs: its pages are the layer's, and its
/// nodes are without repeats, each one of the new nodes or a node of the layer.
proof fn lemma_next_layer(arena: Arena, cs: Seq<Seq<u32>>, next: Seq<u32>, base: int, h: nat, m: int)
    requires
        0 <= m <= cs.len(),
        next.len() == cs.len(),
        forall|i: int| 0 <= i < cs.len() ==> #[trigger] next[i] == base + i,
        forall|i: int| 0 <= i < cs.len() ==> node_over(arena, #[trigger] next[i], cs[i], h),
        layer_nodes(arena, cs.flatten(), h).no_duplicates(),
        forall|i: int| 0 <= i < layer_nodes(arena, cs.flatten(), h).len() ==> (#[trigger] layer_nodes(arena, cs.flatten(), h)[i]) < base,
    ensures
        layer_leaves(arena, next.take(m), h + 1) == layer_leaves(arena, cs.take(m).flatten(), h),
        layer_nodes(arena, next.take(m), h + 1).no_duplicates(),
        forall|i: int| 0 <= i < layer_nodes(arena, next.take(m), h + 1).len() ==> ({
            let e = #[trigger] layer_nodes(arena, next.take(m), h + 1)[i];
            (base <= e < base + m) || layer_nodes(arena, cs.take(m).flatten(), h).contains(e)
        }),
    decreases m,
{
    if m == 0 {
        assert(next.take(0) =~= Seq::<u32>::empty());
        assert(cs.take(0) =~= Seq::<Seq<u32>>::empty());
    } else {
        lemma_next_layer(arena, cs, next, base, h, m - 1);
        let prev_next = next.take(m - 1);
        let prev_cs = cs.take(m - 1);
        assert(next.take(m).drop_last() =~= prev_next);
        assert(next.take(m).last() == next[m - 1]);
        assert(cs.take(m) =~= prev_cs.push(cs[m - 1]));
        prev_cs.lemma_flatten_push(cs[m - 1]);
        lemma_layer_append(arena, prev_cs.flatten(), cs[m - 1], h);
        let x = next[m - 1];
        assert(node_over(arena, x, cs[m - 1], h));
        // The layer's nodes split at this run.
        let lm = layer_nodes(arena, prev_cs.flatten(), h);
        let nm = layer_nodes(arena, cs[m - 1], h);
        let rest = layer_nodes(arena, cs.skip(m).flatten(), h);
        assert(cs =~= cs.take(m) + cs.skip(m));
        vstd::seq_lib::lemma_flatten_concat(cs.take(m), cs.skip(m));
        lemma_layer_append(arena, cs.take(m).flatten(), cs.skip(m).flatten(), h);
        let all = layer_nodes(arena, cs.flatten(), h);
        assert(all == lm + nm + rest);
        lemma_no_dup_append(lm + nm, rest);
        lemma_no_dup_append(lm, nm);
        let nn = layer_nodes(arena, prev_next, h + 1);
        let t = seq![x] + nm;
        assert(forall|i: int| 0 <= i < nm.len() ==> nm[i] == all[lm.len() + i]);
        assert(forall|i: int| 0 <= i < lm.len() ==> lm[i] == all[i]);
        lemma_no_dup_append(seq![x], nm);
        assert(disjoint(seq![x], nm)) by {
            assert forall|i: int, j: int| 0 <= i < 1 && 0 <= j < nm.len() implies seq![x][i] != nm[j] by {
                assert(all[lm.len() + j] < base);
            }
        }
        assert(disjoint(nn, t)) by {
            assert forall|i: int, j: int| 0 <= i < nn.len() && 0 <= j < t.len() implies nn[i] != t[j] by {
                let e = nn[i];
                if j == 0 {
                    assert(t[0] == x);
                    if lm.contains(e) {
                        let k = choose|k: int| 0 <= k < lm.len() && lm[k] == e;
                        assert(all[k] < base);
                    }
                } else {
                    assert(t[j] == nm[j - 1]);
                    assert(all[lm.len() + j - 1] < base);
                    if lm.contains(e) {
                        let k = choose|k: int| 0 <= k < lm.len() && lm[k] == e;
                        assert(all[k] != all[lm.len() + j - 1]);
                    }
                }
            }
        }
        lemma_no_dup_append(nn, t);
        let now = layer_nodes(arena, next.take(m), h + 1);
        assert(now == nn + t);
        assert forall|i: int| 0 <= i < now.len() implies ({
            let e = #[trigger] now[i];
            (base <= e < base + m) || layer_nodes(arena, cs.take(m).flatten(), h).contains(e)
        }) by {
            let e = now[i];
            let lm2 = layer_nodes(arena, cs.take(m).flatten(), h);
            assert(lm2 == lm + nm);
            if i < nn.len() {
                assert(nn[i] == e);
                if lm.contains(e) {
                    let k = choose|k: int| 0 <= k < lm.len() && lm[k] == e;
                    assert(lm2[k] == e);
                }
            } else if i == nn.len() {
                assert(e == x);
            } else {
                assert(e == nm[i - nn.len() - 1]);
                assert(lm2[lm.len() + i - nn.len() - 1] == e);
            }
        }
    }
}

/// The top node of a rebuilt tree.
pub open spec fn top_node(old: Arena, pages: Seq<u32>) -> u32 {
    (old.objects@.len() + tree_plan(pages, old.objects@.len() as int).len() - 1) as u32
}

/// Building the rest of a plan over a layer of trees makes one tree, headed by the top
/// node, whose pages are the layer's and whose nodes are without repeats.
proof fn lemma_plan_tree(old: Arena, root: u32, pages: Seq<u32>, new: Arena, layer: Seq<u32>, base: int, h: nat)
    requires
        rebuilt(old, root, pages, new),
        pages.len() > 0,
        old.objects@.len() <= base,
        old.objects@.len() + tree_plan(pages, old.objects@.len() as int).len() <= u32::MAX,
        base - old.objects@.len() <= tree_plan(pages, old.objects@.len() as int).len(),
        tree_plan(pages, old.objects@.len() as int).skip(base - old.objects@.len()) == plan(layer, base),
        layer.len() > 0,
        forall|i: int| 0 <= i < layer.len() ==> tree_shape(new, #[trigger] layer[i], h),
        layer_leaves(new, layer, h) == pages,
        layer_nodes(new, layer, h).no_duplicates(),
        forall|i: int| 0 <= i < layer_nodes(new, layer, h).len() ==> (#[trigger] layer_nodes(new, layer, h)[i]) < base,
    ensures
        tree_shape(new, top_node(old, pages), h + levels(layer.len())),
        tree_leaves(new, top_node(old, pages), h + levels(layer.len())) == pages,
        tree_nodes(new, top_node(old, pages), h + levels(layer.len())).no_duplicates(),
    decreases layer.len(),
{
    let b0 = old.objects@.len() as int;
    let g = tree_plan(pages, b0);
    let cs = chunks(layer);
    lemma_chunks(layer);
    lemma_chunk_elems(layer);
    lemma_chunks_flatten(layer);
    let pl = plan(layer, base);
    assert(forall|i: int| 0 <= i < cs.len() ==> #[trigger] pl[i] == cs[i]);
    assert(pl.len() >= cs.len());
    assert forall|i: int| 0 <= i < cs.len() implies node_over(new, (base + i) as u32, #[trigger] cs[i], h) by {
        let j = base - b0 + i;
        assert(g[j] == g.skip(base - b0)[i]);
        assert(g[j] == cs[i]);
        lemma_built_node(old, root, pages, new, j);
        assert((b0 + j) as u32 == (base + i) as u32);
        let d = node_dict(new, (base + i) as u32).unwrap();
        assert forall|k: int| 0 <= k < cs[i].len() implies tree_shape(new, #[trigger] cs[i][k], h) by {
            let y = cs[i][k];
            let w = choose|w: int| 0 <= w < layer.len() && layer[w] == y;
            assert(tree_shape(new, layer[w], h));
        }
        lemma_node_over(new, (base + i) as u32, d, cs[i], h);
    }
    if cs.len() <= 1 {
        assert(cs.len() == 1);
        assert(cs[0] == layer);
        assert(pl == cs);
        assert(g.len() == base - b0 + 1);
        assert(top_node(old, pages) == (base + 0) as u32);
        assert(node_over(new, (base + 0) as u32, cs[0], h));
        assert(layer.len() <= MAX_KIDS);
        let ln = layer_nodes(new, layer, h);
        let single = seq![base as u32];
        lemma_no_dup_append(single, ln);
        assert(disjoint(single, ln)) by {
            assert forall|i: int, j: int| 0 <= i < 1 && 0 <= j < ln.len() implies #[trigger] single[i] != #[trigger] ln[j] by {
                assert(ln[j] < base);
            }
        }
    } else {
        let n = cs.len();
        let next = numbers(base, n);
        let base2 = base + n;
        assert(pl == cs + plan(next, base2));
        assert(g.skip(base2 - b0) =~= pl.skip(n as int));
        assert(pl.skip(n as int) =~= plan(next, base2));
        assert forall|i: int| 0 <= i < n implies #[trigger] next[i] == base + i by {
            assert(base + i <= u32::MAX);
        }
        assert forall|i: int| 0 <= i < n implies node_over(new, #[trigger] next[i], cs[i], h) by {
            assert(next[i] == (base + i) as u32);
        }
        lemma_next_layer(new, cs, next, base, h, n as int);
        assert(next.take(n as int) =~= next);
        assert(cs.take(n as int) =~= cs);
        assert forall|i: int| 0 <= i < next.len() implies tree_shape(new, #[trigger] next[i], h + 1) by {
            assert(node_over(new, next[i], cs[i], h));
        }
        let nn = layer_nodes(new, next, h + 1);
        assert forall|i: int| 0 <= i < nn.len() implies (#[trigger] nn[i]) < base2 by {
            let e = nn[i];
            let ln = layer_nodes(new, cs.flatten(), h);
            if ln.contains(e) {
                let k = choose|k: int| 0 <= k < ln.len() && ln[k] == e;
                assert(ln[k] < base);
            }
        }
        assert(layer.len() > MAX_KIDS);
        lemma_plan_tree(old, root, pages, new, next, base2, h + 1);
        assert(levels(layer.len()) == 1 + levels(n));
    }
}

/// An object's name through the rebuild: a name that read before reads the same after.
proof fn lemma_name_stable(old: Arena, root: u32, pages: Seq<u32>, new: Arena, o: Object)
    requires
        rebuilt(old, root, pages, new),
        old.spec_name_of(o) is Some,
    ensures
        new.spec_name_of(o) == old.spec_name_of(o),
{
    if let Object::Reference(k) = o {
        let b0 = old.objects@.len() as int;
        let a = assigns(tree_plan(pages, b0), b0, tree_plan(pages, b0).len() as int);
        assert((k as int) < b0);
        if k != root {
            assert(parented(old.objects@[k as int], new.objects@[k as int], last_parent(a, k)));
        }
    }
}

/// A page of the tree stays a page through the rebuild.
proof fn lemma_page_stays(old: Arena, root: u32, pages: Seq<u32>, new: Arena, x: u32)
    requires
        rebuilt(old, root, pages, new),
        node_dict(old, x) matches Some(d) && is_page_node(old, d),
    ensures
        tree_shape(new, x, 0),
{
    let b0 = old.objects@.len() as int;
    let a = assigns(tree_plan(pages, b0), b0, tree_plan(pages, b0).len() as int);
    let d0 = node_dict(old, x).unwrap();
    let t = d0.spec_get("Type"@).unwrap();
    reveal_strlit("Type");
    reveal_strlit("Parent");
    reveal_strlit("Pages");
    assert("Type"@.len() == 4 && "Parent"@.len() == 6 && "Pages"@.len() == 5);
    lemma_name_stable(old, root, pages, new, t);
    if x == root {
        assert(catalog_after(old.objects@[x as int], new.objects@[x as int], last_parent(a, x), top_node(old, pages)));
    } else {
        assert(parented(old.objects@[x as int], new.objects@[x as int], last_parent(a, x)));
    }
}

/// Rebuilding the page tree over a list of distinct pages and then walking it gives the
/// pages back, in order, and records nothing: the catalogue names the new root, and the
/// tree under it holds exactly those pages.
pub proof fn law_rebuilt_tree_walks_back(old: Arena, root: u32, pages: Seq<u32>, new: Arena)
    requires
        rebuilt(old, root, pages, new),
        buildable(old, root, pages),
        pages.no_duplicates(),
        pages.len() <= usize::MAX,
        forall|i: int| 0 <= i < pages.len() ==> (node_dict(old, #[trigger] pages[i]) matches Some(d) && is_page_node(old, d)),
    ensures
        spec_pages_root(new, root) == Some(top_node(old, pages)),
        full_walk(new, top_node(old, pages)).0.pages == pages,
        full_walk(new, top_node(old, pages)).1 is None,
        walk_record(new, top_node(old, pages)).len() == 0,
{
    let b0 = old.objects@.len() as int;
    let g = tree_plan(pages, b0);
    let top = top_node(old, pages);
    let empty = WalkState { pages: Seq::empty(), seen: Seq::empty(), notes: Seq::empty() };
    // The catalogue names the top node, which reads as a page-tree root.
    reveal_strlit("Type");
    reveal_strlit("Count");
    reveal_strlit("Kids");
    reveal_strlit("Parent");
    reveal_strlit("Rotate");
    reveal_strlit("Pages");
    assert("Type"@.len() == 4 && "Count"@.len() == 5 && "Kids"@.len() == 4 && "Parent"@.len() == 6 && "Rotate"@.len() == 6);
    assert("Rotate"@[0] == 'R' && "Parent"@[0] == 'P');
    let a = assigns(g, b0, g.len() as int);
    let counts = plan_counts(old, b0, g, g.len() as int);
    assert(built_after(new.objects@[b0 + (g.len() - 1)], g[g.len() - 1], counts[g.len() - 1], None));
    assert(catalog_after(old.objects@[root as int], new.objects@[root as int], last_parent(a, root), top));
    assert(entry_readable::<Located<PageTreeRoot<'static>>>(new, Some(Object::Reference(top))));
    let h: nat;
    if pages.len() == 0 {
        assert(g =~= seq![Seq::<u32>::empty()]);
        lemma_built_node(old, root, pages, new, 0);
        let d = node_dict(new, top).unwrap();
        lemma_node_over(new, top, d, Seq::empty(), 0);
        h = 1;
        assert(layer_leaves(new, Seq::<u32>::empty(), 0) =~= pages);
        assert(tree_nodes(new, top, 1) =~= seq![top]);
    } else {
        assert forall|i: int| 0 <= i < pages.len() implies tree_shape(new, #[trigger] pages[i], 0) by {
            lemma_page_stays(old, root, pages, new, pages[i]);
        }
        assert forall|m: int| 0 <= m <= pages.len() implies layer_leaves(new, #[trigger] pages.take(m), 0) == pages.take(m)
            && layer_nodes(new, pages.take(m), 0) == pages.take(m) by {
            lemma_layer_identity(new, pages, m);
        }
        assert(pages.take(pages.len() as int) =~= pages);
        assert(g.skip(0) =~= plan(pages, b0));
        assert forall|i: int| 0 <= i < layer_nodes(new, pages, 0).len() implies (#[trigger] layer_nodes(new, pages, 0)[i]) < b0 by {
            assert(node_dict(old, pages[i]) is Some);
        }
        lemma_plan_tree(old, root, pages, new, pages, b0, 0);
        assert(pow50(12) == 244140625000000000000nat) by {
            reveal_with_fuel(pow50, 13);
        }
        lemma_levels_bound(pages.len(), 12);
        h = levels(pages.len());
    }
    lemma_walk_tree(new, top, h, 0, empty);
    assert(empty.pages + tree_leaves(new, top, h) =~= pages);
}

/// A layer of pages is its own pages and its own nodes.
proof fn lemma_layer_identity(arena: Arena, pages: Seq<u32>, m: int)
    requires
        0 <= m <= pages.len(),
    ensures
        layer_leaves(arena, pages.take(m), 0) == pages.take(m),
        layer_nodes(arena, pages.take(m), 0) == pages.take(m),
    decreases m,
{
    if m > 0 {
        lemma_layer_identity(arena, pages, m - 1);
        assert(pages.take(m).drop_last() =~= pages.take(m - 1));
        assert(pages.take(m - 1).push(pages[m - 1]) =~= pages.take(m));
    } else {
        assert(pages.take(0) =~= Seq::<u32>::empty());
    }
}

} // verus!
