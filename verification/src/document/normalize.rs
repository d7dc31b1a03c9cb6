//! Pushing inherited page attributes down the page tree (7.7.3.4): each page is given
//! the `/Resources`, `/MediaBox`, `/CropBox` and `/Rotate` it would inherit, and the
//! nodes above stop carrying them.

use crate::object::{
    arena_view, copy_dict, copy_object, dict_view, lemma_view_get, lemma_views_of, opt_view_of, view_get, view_insert,
    view_of, view_remove, views_of, Arena, Dict, ObjView, Object,
};
use crate::object::str_eq;
use vstd::prelude::*;

verus! {

/// The inheritable attributes of a page (Table 31), in the order they are read.
pub open spec fn attr(i: int) -> Seq<char> {
    if i == 0 {
        "Resources"@
    } else if i == 1 {
        "MediaBox"@
    } else if i == 2 {
        "CropBox"@
    } else {
        "Rotate"@
    }
}

/// The `i`th inheritable attribute.
fn attr_name(i: usize) -> (r: &'static str)
    requires
        i < 4,
    ensures
        r@ == attr(i as int),
{
    if i == 0 {
        "Resources"
    } else if i == 1 {
        "MediaBox"
    } else if i == 2 {
        "CropBox"
    } else {
        "Rotate"
    }
}

/// The object a value stands for, among objects as values.
pub open spec fn resolve_view(av: Seq<ObjView>, v: ObjView) -> ObjView {
    match v {
        ObjView::Reference(n) => if (n as int) < av.len() {
            av[n as int]
        } else {
            ObjView::Null
        },
        _ => v,
    }
}

/// A node's `/Type`, as a name.
pub open spec fn view_type(av: Seq<ObjView>, e: Seq<(Seq<char>, ObjView)>) -> Option<Seq<char>> {
    match view_get(e, "Type"@) {
        Some(t) => match resolve_view(av, t) {
            ObjView::Name(n) => Some(n),
            _ => None,
        },
        None => None,
    }
}

/// What a node passes down: its own value of each attribute, else what it was given.
pub open spec fn take_attrs(e: Seq<(Seq<char>, ObjView)>, inh: Seq<Option<ObjView>>) -> Seq<Option<ObjView>> {
    Seq::new(
        4,
        |i: int|
            match view_get(e, attr(i)) {
                Some(v) => Some(v),
                None => inh[i],
            },
    )
}

/// A page's entries with the first `n` attributes it lacks given from `local`.
pub open spec fn fill_attrs(e: Seq<(Seq<char>, ObjView)>, local: Seq<Option<ObjView>>, n: int) -> Seq<(Seq<char>, ObjView)>
    decreases n,
{
    if n <= 0 {
        e
    } else {
        let e1 = fill_attrs(e, local, n - 1);
        if view_get(e1, attr(n - 1)) is None && local[n - 1] is Some {
            view_insert(e1, attr(n - 1), local[n - 1].unwrap())
        } else {
            e1
        }
    }
}

/// A page's entries once normalised: the attributes it lacks given from `local`, a
/// missing `/CropBox` taken from `/MediaBox`, and a missing `/Rotate` written as 0.
pub open spec fn leaf_entries(e: Seq<(Seq<char>, ObjView)>, local: Seq<Option<ObjView>>) -> Seq<(Seq<char>, ObjView)> {
    let e4 = fill_attrs(e, local, 4);
    let e5 = if view_get(e4, "CropBox"@) is None && view_get(e4, "MediaBox"@) is Some {
        view_insert(e4, "CropBox"@, view_get(e4, "MediaBox"@).unwrap())
    } else {
        e4
    };
    if view_get(e5, "Rotate"@) is None {
        view_insert(e5, "Rotate"@, ObjView::Integer(0))
    } else {
        e5
    }
}

/// A node's entries without the inheritable attributes.
pub open spec fn strip_attrs(e: Seq<(Seq<char>, ObjView)>) -> Seq<(Seq<char>, ObjView)> {
    view_remove(view_remove(view_remove(view_remove(e, "Resources"@), "MediaBox"@), "CropBox"@), "Rotate"@)
}

/// Pushing attributes down from node `node` at `depth`, given `inh`: the objects after,
/// and whether the subtree was walked to the end. A `/Page` is filled in; a `/Pages`
/// node has its kids done in order, stopping at the first that fails, and then loses
/// the attributes, as it read before its kids were done; anything else fails, as does
/// going deeper than the page walk does.
pub open spec fn push_down(av: Seq<ObjView>, node: u32, inh: Seq<Option<ObjView>>, depth: int) -> (Seq<ObjView>, bool)
    decreases 33 - depth, 1int, 0int,
{
    if depth > 32 || (node as int) >= av.len() {
        (av, false)
    } else {
        match av[node as int] {
            ObjView::Dictionary(e) => {
                let local = take_attrs(e, inh);
                let ty = view_type(av, e);
                if ty == Some("Page"@) {
                    (av.update(node as int, ObjView::Dictionary(leaf_entries(e, local))), true)
                } else if ty == Some("Pages"@) {
                    match view_get(e, "Kids"@) {
                        None => (av, false),
                        Some(k) => match resolve_view(av, k) {
                            ObjView::Array(items) => {
                                let (a2, ok) = kids_push_down(av, items, items.len() as int, local, depth);
                                if ok {
                                    (a2.update(node as int, ObjView::Dictionary(strip_attrs(e))), true)
                                } else {
                                    (a2, false)
                                }
                            },
                            _ => (av, false),
                        },
                    }
                } else {
                    (av, false)
                }
            },
            _ => (av, false),
        }
    }
}

/// Pushing attributes down through the first `n` kids of a node at `depth`, in order,
/// stopping at the first that fails.
pub open spec fn kids_push_down(av: Seq<ObjView>, items: Seq<ObjView>, n: int, local: Seq<Option<ObjView>>, depth: int) -> (Seq<ObjView>, bool)
    decreases 33 - depth, 0int, n,
{
    if n <= 0 || n > items.len() || depth > 32 {
        (av, true)
    } else {
        let (a1, ok) = kids_push_down(av, items, n - 1, local, depth);
        if !ok {
            (a1, false)
        } else {
            match items[n - 1] {
                ObjView::Reference(k) => push_down(a1, k, local, depth + 1),
                _ => (a1, true),
            }
        }
    }
}

/// Optional objects, as values.
pub open spec fn opt_views(s: Seq<Option<Object>>) -> Seq<Option<ObjView>> {
    s.map_values(|o: Option<Object>| opt_view_of(o))
}

/// A copy of an optional object, of the same value.
fn copy_opt(o: &Option<Object>) -> (r: Option<Object>)
    ensures
        opt_view_of(r) == opt_view_of(*o),
{
    match o {
        Some(v) => Some(copy_object(v)),
        None => None,
    }
}

/// An object's values after one of them is replaced.
proof fn lemma_views_update(s: Seq<Object>, n: int, o: Object)
    requires
        0 <= n < s.len(),
    ensures
        views_of(s.update(n, o), s.len() as int) == views_of(s, s.len() as int).update(n, view_of(o)),
{
    lemma_views_of(s, s.len() as int);
    lemma_views_of(s.update(n, o), s.len() as int);
    assert(views_of(s.update(n, o), s.len() as int) =~= views_of(s, s.len() as int).update(n, view_of(o)));
}

/// What an object resolves to, as a name, is what its value resolves to.
proof fn lemma_name_view(arena: Arena, t: Object)
    ensures
        arena.spec_name_of(t) == match resolve_view(arena_view(arena), view_of(t)) {
            ObjView::Name(n) => Some(n),
            _ => None::<Seq<char>>,
        },
{
    lemma_views_of(arena.objects@, arena.objects@.len() as int);
}

/// What an object resolves to, as an array, is what its value resolves to.
proof fn lemma_array_view(arena: Arena, k: Object)
    ensures
        match arena.spec_array_of(k) {
            Some(items) => resolve_view(arena_view(arena), view_of(k)) == ObjView::Array(views_of(items, items.len() as int)),
            None => !(resolve_view(arena_view(arena), view_of(k)) is Array),
        },
{
    lemma_views_of(arena.objects@, arena.objects@.len() as int);
}

/// A failure among the first kids stays the outcome however many more there are.
proof fn lemma_kids_fail_stays(av: Seq<ObjView>, items: Seq<ObjView>, m: int, n: int, local: Seq<Option<ObjView>>, depth: int)
    requires
        0 <= m <= n <= items.len(),
        depth <= 32,
        !kids_push_down(av, items, m, local, depth).1,
    ensures
        kids_push_down(av, items, n, local, depth) == kids_push_down(av, items, m, local, depth),
    decreases n - m,
{
    if n > m {
        lemma_kids_fail_stays(av, items, m, n - 1, local, depth);
    }
}

/// Pushes attributes down from `node` at `depth`, given `inh`; whether the subtree was
/// walked to the end.
pub(crate) fn push_down_from(arena: &mut Arena, node: u32, inh: &Vec<Option<Object>>, depth: usize) -> (r: bool)
    requires
        depth <= 33,
        inh@.len() == 4,
    ensures
        (arena_view(*final(arena)), r) == push_down(arena_view(*old(arena)), node, opt_views(inh@), depth as int),
        final(arena).objects@.len() == old(arena).objects@.len(),
    decreases 33 - depth, 1int,
{
    let ghost av = arena_view(*arena);
    let ghost inh_v = opt_views(inh@);
    proof {
        lemma_views_of(arena.objects@, arena.objects@.len() as int);
    }
    if depth > 32 || node as usize >= arena.objects.len() {
        return false;
    }
    let snapshot = match &arena.objects[node as usize] {
        Object::Dictionary(d) => copy_dict(d),
        _ => return false,
    };
    let ghost e = dict_view(snapshot);
    assert(av[node as int] == ObjView::Dictionary(e));
    let mut local: Vec<Option<Object>> = Vec::new();
    let mut i: usize = 0;
    while i < 4
        invariant
            i <= 4,
            inh@.len() == 4,
            inh_v == opt_views(inh@),
            e == dict_view(snapshot),
            local@.len() == i,
            forall|j: int| 0 <= j < i ==> opt_view_of(#[trigger] local@[j]) == take_attrs(e, inh_v)[j],
        decreases 4 - i,
    {
        let name = attr_name(i);
        proof {
            lemma_view_get(snapshot, attr(i as int));
        }
        let v = match snapshot.get(name) {
            Some(v) => Some(copy_object(v)),
            None => copy_opt(&inh[i]),
        };
        local.push(v);
        i = i + 1;
    }
    let ghost local_v = opt_views(local@);
    assert(local_v =~= take_attrs(e, inh_v));
    let (is_page, is_pages) = match snapshot.get("Type") {
        Some(t) => match arena.name_of(t) {
            Some(n) => (str_eq(n.as_str(), "Page"), str_eq(n.as_str(), "Pages")),
            None => (false, false),
        },
        None => (false, false),
    };
    proof {
        lemma_view_get(snapshot, "Type"@);
        if let Some(t) = snapshot.spec_get("Type"@) {
            lemma_name_view(*arena, t);
        }
    }
    assert(is_page == (view_type(av, e) == Some("Page"@)));
    assert(is_pages == (view_type(av, e) == Some("Pages"@)));
    if is_page {
        let mut leaf = snapshot;
        let mut k: usize = 0;
        while k < 4
            invariant
                k <= 4,
                local@.len() == 4,
                local_v == opt_views(local@),
                dict_view(leaf) == fill_attrs(e, local_v, k as int),
            decreases 4 - k,
        {
            let name = attr_name(k);
            proof {
                lemma_view_get(leaf, attr(k as int));
            }
            if !leaf.contains_key(name) {
                if let Some(v) = &local[k] {
                    let c = copy_object(v);
                    leaf.insert(name, c);
                }
            }
            k = k + 1;
        }
        proof {
            lemma_view_get(leaf, "CropBox"@);
            lemma_view_get(leaf, "MediaBox"@);
        }
        if !leaf.contains_key("CropBox") {
            let media = match leaf.get("MediaBox") {
                Some(m) => Some(copy_object(m)),
                None => None,
            };
            if let Some(m) = media {
                leaf.insert("CropBox", m);
            }
        }
        proof {
            lemma_view_get(leaf, "Rotate"@);
        }
        if !leaf.contains_key("Rotate") {
            leaf.insert("Rotate", Object::Integer(0));
        }
        let ghost before = arena.objects@;
        arena.objects.set(node as usize, Object::Dictionary(leaf));
        proof {
            lemma_views_update(before, node as int, Object::Dictionary(leaf));
        }
        return true;
    }
    if !is_pages {
        return false;
    }
    proof {
        lemma_view_get(snapshot, "Kids"@);
    }
    let kids_obj = match snapshot.get("Kids") {
        Some(k) => k,
        None => return false,
    };
    proof {
        lemma_array_view(*arena, *kids_obj);
    }
    let items = match arena.array_of(kids_obj) {
        Some(a) => a,
        None => return false,
    };
    let ghost items_v = views_of(items@, items@.len() as int);
    proof {
        lemma_views_of(items@, items@.len() as int);
    }
    let mut kids: Vec<Option<u32>> = Vec::new();
    let mut m: usize = 0;
    while m < items.len()
        invariant
            m <= items@.len(),
            items_v == views_of(items@, items@.len() as int),
            items_v.len() == items@.len(),
            forall|q: int| 0 <= q < items_v.len() ==> #[trigger] items_v[q] == view_of(items@[q]),
            kids@.len() == m,
            forall|j: int| 0 <= j < m ==> #[trigger] kids@[j] == match items_v[j] {
                ObjView::Reference(n) => Some(n),
                _ => None::<u32>,
            },
        decreases items@.len() - m,
    {
        assert(items_v[m as int] == view_of(items@[m as int]));
        let r = match &items[m] {
            Object::Reference(n) => Some(*n),
            _ => None,
        };
        kids.push(r);
        m = m + 1;
    }
    let ghost whole = kids_push_down(av, items_v, items_v.len() as int, local_v, depth as int);
    assert(view_get(e, "Kids"@) == Some(view_of(*kids_obj)));
    assert(resolve_view(av, view_of(*kids_obj)) == ObjView::Array(items_v));
    assert(take_attrs(e, inh_v) == local_v);
    assert(!whole.1 ==> push_down(av, node, inh_v, depth as int) == whole);
    assert(whole.1 ==> push_down(av, node, inh_v, depth as int) == (whole.0.update(node as int, ObjView::Dictionary(strip_attrs(e))), true));
    let mut j: usize = 0;
    while j < kids.len()
        invariant
            whole == kids_push_down(av, items_v, items_v.len() as int, local_v, depth as int),
            av == arena_view(*old(arena)),
            av.len() == old(arena).objects@.len(),
            inh_v == opt_views(inh@),
            !whole.1 ==> push_down(av, node, inh_v, depth as int) == whole,
            whole.1 ==> push_down(av, node, inh_v, depth as int) == (whole.0.update(node as int, ObjView::Dictionary(strip_attrs(e))), true),
            arena.objects@.len() == av.len(),
            (node as int) < av.len(),
            e == dict_view(snapshot),
            j <= kids@.len(),
            kids@.len() == items_v.len(),
            depth <= 32,
            local@.len() == 4,
            local_v == opt_views(local@),
            forall|q: int| 0 <= q < kids@.len() ==> #[trigger] kids@[q] == match items_v[q] {
                ObjView::Reference(n) => Some(n),
                _ => None::<u32>,
            },
            (arena_view(*arena), true) == kids_push_down(av, items_v, j as int, local_v, depth as int),
        decreases kids@.len() - j,
    {
        if let Some(k) = kids[j] {
            let ok = push_down_from(arena, k, &local, depth + 1);
            if !ok {
                proof {
                    assert(kids_push_down(av, items_v, j + 1, local_v, depth as int) == (arena_view(*arena), false));
                    lemma_kids_fail_stays(av, items_v, j + 1, items_v.len() as int, local_v, depth as int);
                }
                return false;
            }
        }
        j = j + 1;
    }
    assert(arena_view(*arena) == whole.0 && whole.1);
    let mut stripped = snapshot;
    stripped.remove("Resources");
    stripped.remove("MediaBox");
    stripped.remove("CropBox");
    stripped.remove("Rotate");
    let ghost before = arena.objects@;
    proof {
        lemma_views_of(before, before.len() as int);
    }
    assert(node < before.len());
    arena.objects.set(node as usize, Object::Dictionary(stripped));
    proof {
        lemma_views_update(before, node as int, Object::Dictionary(stripped));
    }
    true
}

} // verus!
