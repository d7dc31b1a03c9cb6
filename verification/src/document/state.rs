//! A document as this library holds it: its objects, where its catalogue is, the pages
//! it was found to have, and what was decided while reading it.

use crate::decision::{Decision, Severity};
use crate::document::entries::{entry, entry_readable, FromPdfObject, Located, PageTreeRoot, StructTreeRoot};
use crate::document::page::{node, node_dict, Page};
use crate::document::normalize::{opt_views, push_down, push_down_from};
use crate::document::tree::{build_error, build_page_tree, buildable, rebuilt};
use crate::document::{PdfCatalog, Provenance};
use crate::error::{concat, decimal, decimal_text, error_text, text, PdfError, PdfResult};
use crate::filters::{agrees, process_filters, result_view, spec_process};
use crate::font::{font_dict, font_ids, list_fonts, summarizes, FontSummary};
use crate::object::{arena_view, str_eq, Arena, Dict, Object};
use vstd::prelude::*;

verus! {

/// Which password opened an encrypted document (7.6.4.1).
#[derive(Clone, Copy, Debug, PartialEq, Eq, Structural)]
pub enum Access {
    /// The user password: what `/P` permits, and no more.
    User,
    /// The owner password: full access, including changing the permissions.
    Owner,
}

/// A decision, as values: severity, clause, what was found, what was done.
pub type DecisionView = (Severity, Seq<char>, Seq<char>, Seq<char>);

/// A decision, as values.
pub open spec fn decision_view(d: Decision) -> DecisionView {
    (d.severity, d.clause@, d.found@, d.action@)
}

/// A list of decisions, as values.
pub open spec fn decision_views(ds: Seq<Decision>) -> Seq<DecisionView> {
    ds.map_values(|d: Decision| decision_view(d))
}

/// A violation, as values.
pub open spec fn violation_view(clause: Seq<char>, found: Seq<char>, action: Seq<char>) -> DecisionView {
    (Severity::Violation, clause, found, action)
}

/// `n` written in decimal, with a minus sign when it is negative.
pub open spec fn signed_decimal(n: int) -> Seq<char> {
    if n < 0 {
        seq!['-'] + decimal((-n) as nat)
    } else {
        decimal(n as nat)
    }
}

/// `n` written in decimal, with a minus sign when it is negative.
fn signed_text(n: i32) -> (r: String)
    ensures
        r@ == signed_decimal(n as int),
{
    if n < 0 {
        let m: i64 = 0i64 - (n as i64);
        let digits = decimal_text(m as u64);
        proof {
            reveal_strlit("-");
        }
        concat(text("-"), digits.as_str())
    } else {
        decimal_text(n as u64)
    }
}

/// The optional-content groups a viewer has turned on or off (8.11.4.3), each group once,
/// in object order.
pub struct LayerOverrides {
    entries: Vec<(u32, bool)>,
}

impl LayerOverrides {
    /// Each group once, in object order.
    #[verifier::type_invariant]
    spec fn ordered(self) -> bool {
        forall|a: int, b: int| 0 <= a < b < self.entries@.len() ==> #[trigger] self.entries@[a].0 < #[trigger] self.entries@[b].0
    }

    /// The overrides, as the map they are.
    pub closed spec fn view_map(self) -> Map<u32, bool> {
        Map::new(
            |g: u32| exists|i: int| 0 <= i < self.entries@.len() && self.entries@[i].0 == g,
            |g: u32| self.entries@[choose|i: int| 0 <= i < self.entries@.len() && self.entries@[i].0 == g].1,
        )
    }

    /// None.
    pub fn new() -> (r: Self)
        ensures
            r.view_map() == Map::<u32, bool>::empty(),
    {
        let r = LayerOverrides { entries: Vec::new() };
        assert(r.view_map() =~= Map::<u32, bool>::empty());
        r
    }

    /// Turns `group` on or off, over what was said of it before.
    pub fn set(&mut self, group: u32, on: bool)
        ensures
            final(self).view_map() == old(self).view_map().insert(group, on),
    {
        proof {
            use_type_invariant(&*self);
        }
        let ghost before = self.entries@;
        let ghost m0 = self.view_map();
        let mut i: usize = 0;
        while i < self.entries.len() && self.entries[i].0 < group
            invariant
                i <= self.entries@.len(),
                self.entries@ == before,
                forall|j: int| 0 <= j < i ==> #[trigger] before[j].0 < group,
            decreases self.entries@.len() - i,
        {
            i = i + 1;
        }
        let mut entries = Vec::new();
        std::mem::swap(&mut entries, &mut self.entries);
        if i < entries.len() && entries[i].0 == group {
            entries.set(i, (group, on));
            proof {
                assert forall|a: int, b: int| 0 <= a < b < entries@.len() implies #[trigger] entries@[a].0
                    < #[trigger] entries@[b].0 by {
                    assert(before[a].0 < before[b].0);
                }
            }
        } else {
            entries.insert(i, (group, on));
            proof {
                assert forall|a: int, b: int| 0 <= a < b < entries@.len() implies #[trigger] entries@[a].0
                    < #[trigger] entries@[b].0 by {
                    if b < i {
                        assert(before[a].0 < before[b].0);
                    } else if b == i {
                        assert(entries@[a] == before[a]);
                    } else if a < i {
                        assert(entries@[b] == before[b - 1]);
                        assert(before[i as int].0 > group) by {
                            if b - 1 > i {
                                assert(before[i as int].0 < before[b - 1].0);
                            }
                        }
                        assert(before[a].0 < group);
                    } else if a == i {
                        assert(entries@[b] == before[b - 1]);
                        if b - 1 > i {
                            assert(before[i as int].0 < before[b - 1].0);
                        }
                    } else {
                        assert(before[a - 1].0 < before[b - 1].0);
                    }
                }
            }
        }
        self.entries = entries;
        proof {
            let m1 = self.view_map();
            let want = m0.insert(group, on);
            assert forall|g: u32| #[trigger] m1.contains_key(g) == want.contains_key(g) by {
                if want.contains_key(g) && g != group {
                    let j = choose|j: int| 0 <= j < before.len() && before[j].0 == g;
                    if j < i {
                        assert(self.entries@[j].0 == g);
                    } else if self.entries@.len() == before.len() {
                        assert(self.entries@[j].0 == g);
                    } else {
                        assert(self.entries@[j + 1].0 == g);
                    }
                }
                if m1.contains_key(g) && g != group {
                    let j = choose|j: int| 0 <= j < self.entries@.len() && self.entries@[j].0 == g;
                    if self.entries@.len() == before.len() {
                        assert(before[j].0 == g);
                    } else if j < i {
                        assert(before[j].0 == g);
                    } else if j > i {
                        assert(before[j - 1].0 == g);
                    }
                }
                if g == group {
                    assert(self.entries@[i as int].0 == g);
                }
            }
            assert forall|g: u32| #[trigger] m1.contains_key(g) implies m1[g] == want[g] by {
                let j = choose|j: int| 0 <= j < self.entries@.len() && self.entries@[j].0 == g;
                if g == group {
                    assert(j == i) by {
                        if j < i {
                            assert(self.entries@[j].0 < self.entries@[i as int].0);
                        } else if j > i {
                            assert(self.entries@[i as int].0 < self.entries@[j].0);
                        }
                    }
                } else {
                    let k = if self.entries@.len() == before.len() || j < i {
                        j
                    } else {
                        j - 1
                    };
                    assert(before[k].0 == g);
                    let k0 = choose|k0: int| 0 <= k0 < before.len() && before[k0].0 == g;
                    assert(k0 == k) by {
                        if k0 < k {
                            assert(before[k0].0 < before[k].0);
                        } else if k0 > k {
                            assert(before[k].0 < before[k0].0);
                        }
                    }
                }
            }
            assert(m1 =~= want);
        }
    }

    /// Forgets every override.
    pub fn clear(&mut self)
        ensures
            final(self).view_map() == Map::<u32, bool>::empty(),
    {
        self.entries = Vec::new();
        assert(self.view_map() =~= Map::<u32, bool>::empty());
    }

    /// The overrides, each group once, in object order.
    pub fn to_vec(&self) -> (r: Vec<(u32, bool)>)
        ensures
            forall|a: int, b: int| 0 <= a < b < r@.len() ==> #[trigger] r@[a].0 < #[trigger] r@[b].0,
            forall|i: int| 0 <= i < r@.len() ==> self.view_map().contains_key(#[trigger] r@[i].0) && self.view_map()[r@[i].0]
                == r@[i].1,
            forall|g: u32| #[trigger] self.view_map().contains_key(g) ==> exists|i: int| 0 <= i < r@.len() && r@[i].0 == g,
    {
        proof {
            use_type_invariant(self);
        }
        let mut out: Vec<(u32, bool)> = Vec::new();
        let mut i: usize = 0;
        while i < self.entries.len()
            invariant
                i <= self.entries@.len(),
                out@ == self.entries@.take(i as int),
            decreases self.entries@.len() - i,
        {
            out.push(self.entries[i]);
            assert(self.entries@.take(i + 1) =~= self.entries@.take(i as int).push(self.entries@[i as int]));
            i = i + 1;
        }
        assert(self.entries@.take(i as int) =~= self.entries@);
        proof {
            assert forall|k: int| 0 <= k < out@.len() implies self.view_map().contains_key(#[trigger] out@[k].0)
                && self.view_map()[out@[k].0] == out@[k].1 by {
                let g = out@[k].0;
                assert(self.entries@[k].0 == g);
                let j = choose|j: int| 0 <= j < self.entries@.len() && self.entries@[j].0 == g;
                assert(j == k) by {
                    if j < k {
                        assert(self.entries@[j].0 < self.entries@[k].0);
                    } else if j > k {
                        assert(self.entries@[k].0 < self.entries@[j].0);
                    }
                }
            }
        }
        out
    }
}

/// A document: its objects, the number of its catalogue, the pages found in it, and what
/// was decided reading it.
pub struct Document {
    /// The objects, by number.
    pub arena: Arena,
    /// The catalogue's object number.
    pub root: u32,
    /// The information dictionary's object number, if the trailer names one.
    pub info: Option<u32>,
    /// The object numbers of the pages, in reading order.
    pub pages: Vec<u32>,
    /// What was decided where the input departed from the standard.
    pub decisions: Vec<Decision>,
    /// Whether bundled fonts stand in for unparseable embedded programs.
    pub force_fallback: bool,
    /// The encryption that was in force, in words.
    pub security_method: String,
    /// The permission flags of the encryption dictionary (`/P`).
    pub permissions: Option<i32>,
    /// Which password opened the document, when one did.
    pub access: Option<Access>,
    /// Whether a script processor above this library runs the document's scripts: what
    /// this run does, never written to the output.
    pub runs_scripts: bool,
    /// What the source document was, for the output to record as its origin.
    pub provenance: Provenance,
    /// Optional-content groups a viewer has turned on or off: view state, not part of the
    /// document.
    pub layer_overrides: LayerOverrides,
}

/// What writing loses when user access met a `/P` that denies modification, assembly or
/// annotation: the names of the denied ones, in that order.
pub open spec fn denied_names(bits: i32) -> Seq<Seq<char>> {
    (if bits & 8i32 == 0 {
        seq!["modification"@]
    } else {
        Seq::empty()
    }) + (if bits & 1024i32 == 0 {
        seq!["assembly"@]
    } else {
        Seq::empty()
    }) + (if bits & 32i32 == 0 {
        seq!["annotation"@]
    } else {
        Seq::empty()
    })
}

/// Names joined by ` and no `.
pub open spec fn joined(names: Seq<Seq<char>>) -> Seq<char>
    decreases names.len(),
{
    if names.len() == 0 {
        Seq::empty()
    } else if names.len() == 1 {
        names[0]
    } else {
        joined(names.drop_last()) + " and no "@ + names.last()
    }
}

/// Whether writing owes a permission notice: user access, and a `/P` that denies one of
/// the three.
pub open spec fn notice_owed(access: Option<Access>, permissions: Option<i32>) -> bool {
    access == Some(Access::User) && (permissions matches Some(bits) && denied_names(bits).len() > 0)
}

/// What the permission notice says was found.
pub open spec fn permission_found(bits: i32) -> Seq<char> {
    "the document was opened with user access and its /P ("@ + signed_decimal(bits as int) + ") permits no "@
        + joined(denied_names(bits))
}

/// What the permission notice says was done.
pub open spec fn permission_action() -> Seq<char> {
    "this engine normalises at load and has no path that writes a faithful copy, so the output is modified; /Encrypt cannot survive decryption either, so it declares no permissions at all"@
}

/// What the signature notice says was found.
pub open spec fn signature_found(n: nat) -> Seq<char> {
    "the source carried "@ + decimal(n) + " digital signature(s)"@
}

/// What the signature notice says was done.
pub open spec fn signature_action() -> Seq<char> {
    "the output is a new document derived from it, so they are not carried; a signature covers bytes this output does not reproduce"@
}

/// How deep the page tree is walked: deeper than this, a branch is reported and left.
pub const MAX_PAGE_DEPTH: usize = 32;

/// Where a page-tree walk has got to: the pages found, the nodes entered, and the
/// decisions taken, in order.
pub struct WalkState {
    /// Pages found, in reading order.
    pub pages: Seq<u32>,
    /// Nodes entered, in the order they were entered.
    pub seen: Seq<u32>,
    /// Decisions taken.
    pub notes: Seq<DecisionView>,
}

/// Whether a node's `/Type` is `/Page`.
pub open spec fn is_page_node(arena: Arena, d: Dict) -> bool {
    match d.spec_get("Type"@) {
        Some(t) => arena.spec_name_of(t) == Some("Page"@),
        None => false,
    }
}

/// The decision taken when the walk comes back to a node.
pub open spec fn second_visit(h: u32) -> DecisionView {
    violation_view(
        "7.7.3.2"@,
        "the page tree reaches object "@ + decimal(h as nat) + " a second time, so it is not a tree"@,
        "did not walk it again, so the pages under it are counted once"@,
    )
}

/// The decision taken when a branch will not walk.
pub open spec fn branch_lost(h: u32, why: Seq<char>) -> DecisionView {
    violation_view(
        "7.7.3.2"@,
        "the page tree does not walk below object "@ + decimal(h as nat) + ": "@ + why,
        "stopped there and kept the pages reached by the other branches"@,
    )
}

/// Why a node is not a dictionary.
pub open spec fn not_a_node(h: u32) -> Seq<char> {
    "Object "@ + decimal(h as nat) + " is not a dictionary"@
}

/// Walks node `h` at `depth` from state `s` (7.7.3.2): a node entered before is reported
/// and not entered again; a `/Page` is a page; anything else is a node whose `/Kids` are
/// walked in order. The second part is why the walk stopped, if it did.
pub open spec fn walk_node(arena: Arena, h: u32, depth: int, s: WalkState) -> (WalkState, Option<Seq<char>>)
    decreases 33 - depth, 2int, 0int,
{
    if depth > MAX_PAGE_DEPTH {
        (s, Some("Page tree depth limit exceeded"@))
    } else if s.seen.contains(h) {
        (WalkState { pages: s.pages, seen: s.seen, notes: s.notes.push(second_visit(h)) }, None)
    } else {
        let s1 = WalkState { pages: s.pages, seen: s.seen.push(h), notes: s.notes };
        match node_dict(arena, h) {
            None => (s1, Some(not_a_node(h))),
            Some(d) => if is_page_node(arena, d) {
                (WalkState { pages: s1.pages.push(h), seen: s1.seen, notes: s1.notes }, None)
            } else {
                kids_walk(arena, d, depth, s1)
            },
        }
    }
}

/// Walks the `/Kids` of a node at `depth`.
pub open spec fn kids_walk(arena: Arena, d: Dict, depth: int, s: WalkState) -> (WalkState, Option<Seq<char>>)
    decreases 33 - depth, 1int, 0int,
{
    match d.spec_get("Kids"@) {
        None => (s, None),
        Some(k) => match arena.spec_array_of(k) {
            None => (s, Some("Invalid Kids array"@)),
            Some(kids) => (kids_fold(arena, kids, kids.len() as int, depth, s), None),
        },
    }
}

/// Walks the first `n` kids of a node at `depth`, each reference one level down; a kid
/// that will not walk is reported and the rest are walked.
pub open spec fn kids_fold(arena: Arena, kids: Seq<Object>, n: int, depth: int, s: WalkState) -> WalkState
    decreases 33 - depth, 0int, n,
{
    if n <= 0 || n > kids.len() || depth > MAX_PAGE_DEPTH {
        s
    } else {
        let prev = kids_fold(arena, kids, n - 1, depth, s);
        match kids[n - 1] {
            Object::Reference(h) => {
                let (s2, e) = walk_node(arena, h, depth + 1, prev);
                match e {
                    Some(why) => WalkState { pages: s2.pages, seen: s2.seen, notes: s2.notes.push(branch_lost(h, why)) },
                    None => s2,
                }
            },
            _ => prev,
        }
    }
}

/// The page tree's root: the reference the catalogue's `/Pages` holds, when the
/// catalogue is there and that entry reads.
pub open spec fn spec_pages_root(arena: Arena, root: u32) -> Option<u32> {
    if (root as int) < arena.objects@.len() {
        match arena.spec_dict_of(arena.objects@[root as int]) {
            Some(d) => if entry_readable::<Located<PageTreeRoot<'static>>>(arena, d.spec_get("Pages"@)) {
                match d.spec_get("Pages"@) {
                    Some(Object::Reference(n)) => Some(n),
                    _ => None,
                }
            } else {
                None
            },
            None => None,
        }
    } else {
        None
    }
}

/// Why the page tree cannot be reached, where the reason is one this module gives.
pub open spec fn reach_error(arena: Arena, root: u32) -> Option<Seq<char>> {
    if (root as int) >= arena.objects@.len() {
        Some("Missing document catalog"@)
    } else {
        match arena.spec_dict_of(arena.objects@[root as int]) {
            None => Some("the catalogue is not a dictionary (7.7.2)"@),
            Some(d) => if entry_readable::<Located<PageTreeRoot<'static>>>(arena, d.spec_get("Pages"@)) {
                Some("The catalogue names no page tree (7.7.2)"@)
            } else {
                None
            },
        }
    }
}

/// The decision taken when the page tree cannot be reached.
pub open spec fn unreachable_action() -> Seq<char> {
    "reported the document as having no pages, because none can be found"@
}

/// The decision taken when the walk stopped, keeping `n` pages.
pub open spec fn walk_stopped(why: Seq<char>, n: nat) -> DecisionView {
    violation_view(
        "7.7.3.2"@,
        "the page tree could not be walked: "@ + why,
        "kept the "@ + decimal(n) + " pages reached before it stopped; the rest of the tree is not in this document"@,
    )
}

/// The walk of the whole tree from its root.
pub open spec fn full_walk(arena: Arena, top: u32) -> (WalkState, Option<Seq<char>>) {
    walk_node(arena, top, 0, WalkState { pages: Seq::empty(), seen: Seq::empty(), notes: Seq::empty() })
}

/// What finding the pages records, from the root on.
pub open spec fn walk_record(arena: Arena, top: u32) -> Seq<DecisionView> {
    let (s, e) = full_walk(arena, top);
    match e {
        Some(why) => s.notes.push(walk_stopped(why, s.pages.len())),
        None => s.notes,
    }
}

/// Whether `v` holds `x`.
fn holds(v: &Vec<u32>, x: u32) -> (r: bool)
    ensures
        r == v@.contains(x),
{
    let mut i: usize = 0;
    while i < v.len()
        invariant
            i <= v@.len(),
            forall|j: int| 0 <= j < i ==> v@[j] != x,
        decreases v@.len() - i,
    {
        if v[i] == x {
            assert(v@[i as int] == x);
            return true;
        }
        i = i + 1;
    }
    false
}

/// The state three lists are.
pub open spec fn state_of(pages: Seq<u32>, seen: Seq<u32>, notes: Seq<Decision>) -> WalkState {
    WalkState { pages, seen, notes: decision_views(notes) }
}

/// What a walk's result says of why it stopped.
pub open spec fn stop_of(r: PdfResult<()>) -> Option<Seq<char>> {
    match r {
        Ok(_) => None,
        Err(e) => Some(error_text(e)),
    }
}

/// Walks node `h` at `depth`, adding pages, entered nodes and decisions.
fn walk_pages(
    arena: &Arena,
    h: u32,
    depth: usize,
    pages: &mut Vec<u32>,
    seen: &mut Vec<u32>,
    notes: &mut Vec<Decision>,
) -> (r: PdfResult<()>)
    requires
        depth <= MAX_PAGE_DEPTH + 1,
    ensures
        walk_node(*arena, h, depth as int, state_of(old(pages)@, old(seen)@, old(notes)@)) == (
        state_of(final(pages)@, final(seen)@, final(notes)@),
        stop_of(r),
        ),
    decreases 33 - depth, 1int,
{
    if depth > MAX_PAGE_DEPTH {
        return Err(PdfError::Other(text("Page tree depth limit exceeded")));
    }
    if holds(seen, h) {
        let found = concat(concat(text("the page tree reaches object "), decimal_text(h as u64).as_str()), " a second time, so it is not a tree");
        let ghost before = notes@;
        notes.push(Decision::violation("7.7.3.2", found, "did not walk it again, so the pages under it are counted once"));
        assert(decision_views(notes@) =~= decision_views(before).push(second_visit(h)));
        return Ok(());
    }
    seen.push(h);
    let d = match node(arena, h) {
        Some(d) => d,
        None => {
            let m = concat(concat(text("Object "), decimal_text(h as u64).as_str()), " is not a dictionary");
            return Err(PdfError::Other(m));
        },
    };
    let is_page = match d.get("Type") {
        Some(t) => match arena.name_of(t) {
            Some(n) => str_eq(n.as_str(), "Page"),
            None => false,
        },
        None => false,
    };
    if is_page {
        pages.push(h);
        return Ok(());
    }
    walk_kids(arena, d, depth, pages, seen, notes)
}

/// Walks each `/Kids` entry of a node, reporting the branches that will not walk.
fn walk_kids(
    arena: &Arena,
    d: &Dict,
    depth: usize,
    pages: &mut Vec<u32>,
    seen: &mut Vec<u32>,
    notes: &mut Vec<Decision>,
) -> (r: PdfResult<()>)
    requires
        depth <= MAX_PAGE_DEPTH,
    ensures
        kids_walk(*arena, *d, depth as int, state_of(old(pages)@, old(seen)@, old(notes)@)) == (
        state_of(final(pages)@, final(seen)@, final(notes)@),
        stop_of(r),
        ),
    decreases 33 - depth, 0int,
{
    let kids_obj = match d.get("Kids") {
        Some(k) => k,
        None => return Ok(()),
    };
    let kids = match arena.array_of(kids_obj) {
        Some(a) => a,
        None => return Err(PdfError::Other(text("Invalid Kids array"))),
    };
    let ghost s0 = state_of(pages@, seen@, notes@);
    let mut i: usize = 0;
    while i < kids.len()
        invariant
            i <= kids@.len(),
            depth <= MAX_PAGE_DEPTH,
            state_of(pages@, seen@, notes@) == kids_fold(*arena, kids@, i as int, depth as int, s0),
        decreases kids@.len() - i,
    {
        if let Object::Reference(h) = &kids[i] {
            let h = *h;
            let r = walk_pages(arena, h, depth + 1, pages, seen, notes);
            if let Err(why) = r {
                let ghost before = notes@;
                let why_text = why.message();
                let found = concat(
                    concat(concat(text("the page tree does not walk below object "), decimal_text(h as u64).as_str()), ": "),
                    why_text.as_str(),
                );
                notes.push(Decision::violation("7.7.3.2", found, "stopped there and kept the pages reached by the other branches"));
                assert(decision_views(notes@) =~= decision_views(before).push(branch_lost(h, error_text(why))));
            }
        }
        i = i + 1;
    }
    Ok(())
}

/// What a walk keeps true: no node entered twice, no page found twice, and every page
/// found a `/Page` dictionary that was entered.
pub open spec fn walk_sound(arena: Arena, s: WalkState) -> bool {
    &&& s.seen.no_duplicates()
    &&& s.pages.no_duplicates()
    &&& forall|i: int| 0 <= i < s.pages.len() ==> s.seen.contains(#[trigger] s.pages[i]) && (node_dict(arena, s.pages[i]) matches Some(d)
        && is_page_node(arena, d))
}

proof fn lemma_walk_node_sound(arena: Arena, h: u32, depth: int, s: WalkState)
    requires
        walk_sound(arena, s),
    ensures
        walk_sound(arena, walk_node(arena, h, depth, s).0),
    decreases 33 - depth, 2int, 0int,
{
    if depth > MAX_PAGE_DEPTH {
    } else if s.seen.contains(h) {
    } else {
        let s1 = WalkState { pages: s.pages, seen: s.seen.push(h), notes: s.notes };
        assert forall|i: int| 0 <= i < s1.pages.len() implies s1.seen.contains(#[trigger] s1.pages[i]) by {
            assert(s.seen.contains(s.pages[i]));
            let j = choose|j: int| 0 <= j < s.seen.len() && s.seen[j] == s.pages[i];
            assert(s1.seen[j] == s1.pages[i]);
        }
        assert(s1.seen.no_duplicates()) by {
            assert forall|a: int, b: int| 0 <= a < s1.seen.len() && 0 <= b < s1.seen.len() && a != b implies s1.seen[a]
                != s1.seen[b] by {
                if a < s.seen.len() && b < s.seen.len() {
                } else if a < s.seen.len() {
                    assert(s.seen[a] != h);
                } else {
                    assert(s.seen[b] != h);
                }
            }
        }
        assert(walk_sound(arena, s1));
        match node_dict(arena, h) {
            None => {},
            Some(d) => if is_page_node(arena, d) {
                let s2 = WalkState { pages: s1.pages.push(h), seen: s1.seen, notes: s1.notes };
                assert forall|i: int| 0 <= i < s2.pages.len() implies s2.seen.contains(#[trigger] s2.pages[i]) && (node_dict(
                    arena,
                    s2.pages[i],
                ) matches Some(d) && is_page_node(arena, d)) by {
                    if i == s1.pages.len() {
                        assert(s2.seen[s.seen.len() as int] == h);
                    } else {
                        assert(s2.pages[i] == s1.pages[i]);
                    }
                }
                assert(s2.pages.no_duplicates()) by {
                    assert forall|a: int, b: int| 0 <= a < s2.pages.len() && 0 <= b < s2.pages.len() && a != b implies s2.pages[a]
                        != s2.pages[b] by {
                        if a == s1.pages.len() {
                            assert(s.seen.contains(s.pages[b]));
                        } else if b == s1.pages.len() {
                            assert(s.seen.contains(s.pages[a]));
                        }
                    }
                }
            } else {
                lemma_kids_walk_sound(arena, d, depth, s1);
            },
        }
    }
}

proof fn lemma_kids_walk_sound(arena: Arena, d: Dict, depth: int, s: WalkState)
    requires
        walk_sound(arena, s),
    ensures
        walk_sound(arena, kids_walk(arena, d, depth, s).0),
    decreases 33 - depth, 1int, 0int,
{
    match d.spec_get("Kids"@) {
        None => {},
        Some(k) => match arena.spec_array_of(k) {
            None => {},
            Some(kids) => lemma_kids_fold_sound(arena, kids, kids.len() as int, depth, s),
        },
    }
}

proof fn lemma_kids_fold_sound(arena: Arena, kids: Seq<Object>, n: int, depth: int, s: WalkState)
    requires
        walk_sound(arena, s),
    ensures
        walk_sound(arena, kids_fold(arena, kids, n, depth, s)),
    decreases 33 - depth, 0int, n,
{
    if n <= 0 || n > kids.len() || depth > MAX_PAGE_DEPTH {
    } else {
        lemma_kids_fold_sound(arena, kids, n - 1, depth, s);
        let prev = kids_fold(arena, kids, n - 1, depth, s);
        match kids[n - 1] {
            Object::Reference(h) => {
                lemma_walk_node_sound(arena, h, depth + 1, prev);
            },
            _ => {},
        }
    }
}

/// Walking the page tree finds each page once, however often the tree names it or comes
/// back to it, and finds nothing but `/Page` dictionaries.
pub proof fn law_each_page_found_once(arena: Arena, top: u32)
    ensures
        full_walk(arena, top).0.pages.no_duplicates(),
        forall|i: int| 0 <= i < full_walk(arena, top).0.pages.len() ==> (node_dict(arena, #[trigger] full_walk(arena, top).0.pages[i]) matches Some(d)
            && is_page_node(arena, d)),
{
    let s0 = WalkState { pages: Seq::empty(), seen: Seq::empty(), notes: Seq::empty() };
    lemma_walk_node_sound(arena, top, 0, s0);
}

/// What rebuilding the page tree over `pages` did to `old`, making `new`: built it, or,
/// when it cannot be built, changed nothing and said why.
pub open spec fn rebuild_outcome(old: Arena, root: u32, pages: Seq<u32>, new: Arena, ok: bool, why: Seq<char>) -> bool {
    &&& ok == buildable(old, root, pages)
    &&& ok ==> rebuilt(old, root, pages, new)
    &&& !ok ==> new == old && why == build_error(old, root, pages)
}

/// Whether a result is `Ok`.
pub open spec fn is_ok<T>(r: PdfResult<T>) -> bool {
    r is Ok
}

/// What an error result says; nothing for success.
pub open spec fn err_text<T>(r: PdfResult<T>) -> Seq<char> {
    match r {
        Ok(_) => Seq::empty(),
        Err(e) => error_text(e),
    }
}

/// The pages whose index is not selected, of the first `n`, in order.
pub open spec fn kept(pages: Seq<u32>, src: Seq<usize>, n: int) -> Seq<u32>
    decreases n,
{
    if n <= 0 {
        Seq::empty()
    } else if src.contains((n - 1) as usize) {
        kept(pages, src, n - 1)
    } else {
        kept(pages, src, n - 1).push(pages[n - 1])
    }
}

/// The pages whose index is selected, of the first `n`, in order.
pub open spec fn moved(pages: Seq<u32>, src: Seq<usize>, n: int) -> Seq<u32>
    decreases n,
{
    if n <= 0 {
        Seq::empty()
    } else if src.contains((n - 1) as usize) {
        moved(pages, src, n - 1).push(pages[n - 1])
    } else {
        moved(pages, src, n - 1)
    }
}

/// How many of the first `n` selections lie before `target`, counted as often as they
/// are written.
pub open spec fn before_target(src: Seq<usize>, target: usize, n: int) -> int
    decreases n,
{
    if n <= 0 {
        0
    } else {
        before_target(src, target, n - 1) + if src[n - 1] < target {
            1int
        } else {
            0
        }
    }
}

/// Where the moved pages go among the kept ones: the target less the selections before
/// it, never below the start nor past the end.
pub open spec fn insert_at(pages: Seq<u32>, src: Seq<usize>, target: usize) -> int {
    let i = target - before_target(src, target, src.len() as int);
    let i = if i < 0 {
        0
    } else {
        i
    };
    let rem = kept(pages, src, pages.len() as int).len();
    if i > rem {
        rem as int
    } else {
        i
    }
}

/// The pages after moving the selected ones, in their order, to [`insert_at`].
pub open spec fn batch_moved(pages: Seq<u32>, src: Seq<usize>, target: usize) -> Seq<u32> {
    let rem = kept(pages, src, pages.len() as int);
    let c = insert_at(pages, src, target);
    rem.take(c) + moved(pages, src, pages.len() as int) + rem.skip(c)
}

/// Whether `src` selects index `i`.
fn selects(src: &[usize], i: usize) -> (r: bool)
    ensures
        r == src@.contains(i),
{
    let mut k: usize = 0;
    while k < src.len()
        invariant
            k <= src@.len(),
            forall|j: int| 0 <= j < k ==> src@[j] != i,
        decreases src@.len() - k,
    {
        if src[k] == i {
            assert(src@[k as int] == i);
            return true;
        }
        k = k + 1;
    }
    false
}

/// `n` object numbers copied.
fn copy_pages(v: &[u32], from: usize, to: usize) -> (r: Vec<u32>)
    requires
        from <= to <= v@.len(),
    ensures
        r@ == v@.subrange(from as int, to as int),
{
    let mut out: Vec<u32> = Vec::new();
    let mut i: usize = from;
    while i < to
        invariant
            from <= i <= to,
            to <= v@.len(),
            out@ == v@.subrange(from as int, i as int),
        decreases to - i,
    {
        out.push(v[i]);
        assert(v@.subrange(from as int, i + 1) =~= v@.subrange(from as int, i as int).push(v@[i as int]));
        i = i + 1;
    }
    out
}

/// The numbers of the chain of `/Parent`s above object `h`, nearest first, followed at
/// most `fuel` steps.
pub open spec fn chain_up(arena: Arena, h: u32, fuel: nat) -> Seq<u32>
    decreases fuel,
{
    if fuel == 0 {
        Seq::empty()
    } else {
        match node_dict(arena, h) {
            Some(d) => match d.spec_get("Parent"@) {
                Some(Object::Reference(p)) => seq![p] + chain_up(arena, p, (fuel - 1) as nat),
                _ => Seq::empty(),
            },
            None => Seq::empty(),
        }
    }
}

/// Splitting pages into those kept and those moved loses and adds none.
proof fn lemma_split_keeps_all(pages: Seq<u32>, src: Seq<usize>, n: int)
    requires
        0 <= n <= pages.len(),
    ensures
        kept(pages, src, n).to_multiset().add(moved(pages, src, n).to_multiset()) == pages.take(n).to_multiset(),
    decreases n,
{
    broadcast use vstd::seq_lib::to_multiset_build, vstd::multiset::group_multiset_axioms;

    if n == 0 {
        assert(pages.take(0) =~= Seq::<u32>::empty());
        let e = Seq::<u32>::empty();
        vstd::seq_lib::to_multiset_len(e);
        vstd::multiset::lemma_multiset_empty_len(e.to_multiset());
        assert(kept(pages, src, 0).to_multiset() =~= vstd::multiset::Multiset::empty());
    } else {
        lemma_split_keeps_all(pages, src, n - 1);
        assert(pages.take(n) =~= pages.take(n - 1).push(pages[n - 1]));
        if src.contains((n - 1) as usize) {
            assert(moved(pages, src, n).to_multiset() =~= moved(pages, src, n - 1).to_multiset().insert(pages[n - 1]));
        } else {
            assert(kept(pages, src, n).to_multiset() =~= kept(pages, src, n - 1).to_multiset().insert(pages[n - 1]));
        }
        assert(kept(pages, src, n).to_multiset().add(moved(pages, src, n).to_multiset()) =~= pages.take(n).to_multiset());
    }
}

/// Moving a batch of pages rearranges them: the same pages, each as often as before, with
/// the moved ones together, in their order, where the answer says.
pub proof fn law_batch_move_rearranges(pages: Seq<u32>, src: Seq<usize>, target: usize)
    ensures
        batch_moved(pages, src, target).to_multiset() == pages.to_multiset(),
        batch_moved(pages, src, target).len() == pages.len(),
        batch_moved(pages, src, target).subrange(
            insert_at(pages, src, target),
            insert_at(pages, src, target) + moved(pages, src, pages.len() as int).len(),
        ) == moved(pages, src, pages.len() as int),
{
    broadcast use vstd::seq_lib::lemma_multiset_commutative, vstd::multiset::group_multiset_axioms;

    let rem = kept(pages, src, pages.len() as int);
    let mov = moved(pages, src, pages.len() as int);
    let c = insert_at(pages, src, target);
    lemma_split_keeps_all(pages, src, pages.len() as int);
    assert(pages.take(pages.len() as int) =~= pages);
    assert(rem =~= rem.take(c) + rem.skip(c));
    let out = rem.take(c) + mov + rem.skip(c);
    assert(out.to_multiset() =~= rem.take(c).to_multiset().add(mov.to_multiset()).add(rem.skip(c).to_multiset()));
    assert(rem.to_multiset() =~= rem.take(c).to_multiset().add(rem.skip(c).to_multiset()));
    assert(out.to_multiset() =~= pages.to_multiset());
    assert(out.to_multiset().len() == out.len()) by {
        vstd::seq_lib::to_multiset_len(out);
    }
    assert(pages.to_multiset().len() == pages.len()) by {
        vstd::seq_lib::to_multiset_len(pages);
    }
    assert(out.subrange(c, c + mov.len()) =~= mov);
}

/// Whether `x` heads a page tree of height `h`: a `/Page` dictionary at height zero, and
/// above that a dictionary that is not one, whose `/Kids`, written in place, are
/// references to trees of one less.
pub open spec fn tree_shape(arena: Arena, x: u32, h: nat) -> bool
    decreases h, 1int, 0int,
{
    match node_dict(arena, x) {
        None => false,
        Some(d) => if h == 0 {
            is_page_node(arena, d)
        } else {
            !is_page_node(arena, d) && (d.spec_get("Kids"@) matches Some(Object::Array(a)) && kids_shape(
                arena,
                a@,
                a@.len() as int,
                (h - 1) as nat,
            ))
        },
    }
}

/// Whether the first `n` kids are references to trees of height `h`.
pub open spec fn kids_shape(arena: Arena, kids: Seq<Object>, n: int, h: nat) -> bool
    decreases h, 2int, n,
{
    if n <= 0 {
        true
    } else if n > kids.len() {
        false
    } else {
        kids_shape(arena, kids, n - 1, h) && (kids[n - 1] matches Object::Reference(k) && tree_shape(arena, k, h))
    }
}

/// The pages of a tree of height `h` headed by `x`, in order.
pub open spec fn tree_leaves(arena: Arena, x: u32, h: nat) -> Seq<u32>
    decreases h, 1int, 0int,
{
    if h == 0 {
        seq![x]
    } else {
        match node_dict(arena, x) {
            Some(d) => match d.spec_get("Kids"@) {
                Some(Object::Array(a)) => kids_leaves(arena, a@, a@.len() as int, (h - 1) as nat),
                _ => Seq::empty(),
            },
            None => Seq::empty(),
        }
    }
}

/// The pages under the first `n` kids, each a tree of height `h`.
pub open spec fn kids_leaves(arena: Arena, kids: Seq<Object>, n: int, h: nat) -> Seq<u32>
    decreases h, 2int, n,
{
    if n <= 0 || n > kids.len() {
        Seq::empty()
    } else {
        kids_leaves(arena, kids, n - 1, h) + match kids[n - 1] {
            Object::Reference(k) => tree_leaves(arena, k, h),
            _ => Seq::empty(),
        }
    }
}

/// The nodes of a tree of height `h` headed by `x`, each before those beneath it.
pub open spec fn tree_nodes(arena: Arena, x: u32, h: nat) -> Seq<u32>
    decreases h, 1int, 0int,
{
    if h == 0 {
        seq![x]
    } else {
        seq![x] + match node_dict(arena, x) {
            Some(d) => match d.spec_get("Kids"@) {
                Some(Object::Array(a)) => kids_nodes(arena, a@, a@.len() as int, (h - 1) as nat),
                _ => Seq::empty(),
            },
            None => Seq::empty(),
        }
    }
}

/// The nodes under the first `n` kids, each a tree of height `h`.
pub open spec fn kids_nodes(arena: Arena, kids: Seq<Object>, n: int, h: nat) -> Seq<u32>
    decreases h, 2int, n,
{
    if n <= 0 || n > kids.len() {
        Seq::empty()
    } else {
        kids_nodes(arena, kids, n - 1, h) + match kids[n - 1] {
            Object::Reference(k) => tree_nodes(arena, k, h),
            _ => Seq::empty(),
        }
    }
}

/// Whether two lists share no element.
pub open spec fn disjoint(a: Seq<u32>, b: Seq<u32>) -> bool {
    forall|i: int, j: int| 0 <= i < a.len() && 0 <= j < b.len() ==> a[i] != b[j]
}

/// A list joined to another is without repeats exactly when each is and they share
/// nothing.
pub(crate) proof fn lemma_no_dup_append(a: Seq<u32>, b: Seq<u32>)
    ensures
        (a + b).no_duplicates() <==> a.no_duplicates() && b.no_duplicates() && disjoint(a, b),
{
    let c = a + b;
    if c.no_duplicates() {
        assert forall|i: int, j: int| 0 <= i < a.len() && 0 <= j < b.len() implies a[i] != b[j] by {
            assert(c[i] == a[i] && c[a.len() + j] == b[j]);
        }
        assert forall|i: int, j: int| 0 <= i < b.len() && 0 <= j < b.len() && i != j implies b[i] != b[j] by {
            assert(c[a.len() + i] == b[i] && c[a.len() + j] == b[j]);
        }
        assert forall|i: int, j: int| 0 <= i < a.len() && 0 <= j < a.len() && i != j implies a[i] != a[j] by {
            assert(c[i] == a[i] && c[j] == a[j]);
        }
    }
    if a.no_duplicates() && b.no_duplicates() && disjoint(a, b) {
        assert forall|i: int, j: int| 0 <= i < c.len() && 0 <= j < c.len() && i != j implies c[i] != c[j] by {
            if i < a.len() && j < a.len() {
            } else if i >= a.len() && j >= a.len() {
                assert(c[i] == b[i - a.len()] && c[j] == b[j - a.len()]);
            } else if i < a.len() {
                assert(c[j] == b[j - a.len()]);
            } else {
                assert(c[i] == b[i - a.len()]);
            }
        }
    }
}

/// Walking a tree whose nodes are all new to the walk finds its pages, enters its nodes,
/// and decides nothing.
pub(crate) proof fn lemma_walk_tree(arena: Arena, x: u32, h: nat, depth: int, s: WalkState)
    requires
        tree_shape(arena, x, h),
        0 <= depth,
        depth + h <= MAX_PAGE_DEPTH,
        tree_nodes(arena, x, h).no_duplicates(),
        disjoint(tree_nodes(arena, x, h), s.seen),
    ensures
        walk_node(arena, x, depth, s) == (
        WalkState { pages: s.pages + tree_leaves(arena, x, h), seen: s.seen + tree_nodes(arena, x, h), notes: s.notes },
        None::<Seq<char>>,
        ),
    decreases h, 1int, 0int,
{
    assert(tree_nodes(arena, x, h)[0] == x);
    assert(!s.seen.contains(x)) by {
        if s.seen.contains(x) {
            let j = choose|j: int| 0 <= j < s.seen.len() && s.seen[j] == x;
            assert(tree_nodes(arena, x, h)[0] != s.seen[j]);
        }
    }
    let d = node_dict(arena, x).unwrap();
    let s1 = WalkState { pages: s.pages, seen: s.seen.push(x), notes: s.notes };
    if h == 0 {
        assert(s.seen.push(x) =~= s.seen + tree_nodes(arena, x, h));
        assert(s.pages.push(x) =~= s.pages + tree_leaves(arena, x, h));
    } else {
        let a = match d.spec_get("Kids"@) {
            Some(Object::Array(a)) => a@,
            _ => Seq::empty(),
        };
        let inner = kids_nodes(arena, a, a.len() as int, (h - 1) as nat);
        assert(tree_nodes(arena, x, h) == seq![x] + inner);
        lemma_no_dup_append(seq![x], inner);
        assert(disjoint(inner, s1.seen)) by {
            assert forall|i: int, j: int| 0 <= i < inner.len() && 0 <= j < s1.seen.len() implies inner[i] != s1.seen[j] by {
                assert(tree_nodes(arena, x, h)[i + 1] == inner[i]);
                if j < s.seen.len() {
                } else {
                    assert(s1.seen[j] == x);
                    assert(tree_nodes(arena, x, h)[0] == x);
                }
            }
        }
        lemma_walk_kids(arena, a, a.len() as int, (h - 1) as nat, depth, s1);
        assert(s1.seen + inner =~= s.seen + tree_nodes(arena, x, h));
    }
}

/// Walking the first `n` kids of a node, each a tree new to the walk, finds their pages
/// and enters their nodes, in order.
proof fn lemma_walk_kids(arena: Arena, kids: Seq<Object>, n: int, h: nat, depth: int, s: WalkState)
    requires
        0 <= n <= kids.len(),
        kids_shape(arena, kids, n, h),
        0 <= depth,
        depth + 1 + h <= MAX_PAGE_DEPTH,
        kids_nodes(arena, kids, n, h).no_duplicates(),
        disjoint(kids_nodes(arena, kids, n, h), s.seen),
    ensures
        kids_fold(arena, kids, n, depth, s) == (WalkState {
            pages: s.pages + kids_leaves(arena, kids, n, h),
            seen: s.seen + kids_nodes(arena, kids, n, h),
            notes: s.notes,
        }),
    decreases h, 2int, n,
{
    if n == 0 {
        assert(s.pages + kids_leaves(arena, kids, n, h) =~= s.pages);
        assert(s.seen + kids_nodes(arena, kids, n, h) =~= s.seen);
    } else {
        let before = kids_nodes(arena, kids, n - 1, h);
        let k = match kids[n - 1] {
            Object::Reference(k) => k,
            _ => 0,
        };
        let mine = tree_nodes(arena, k, h);
        assert(kids_nodes(arena, kids, n, h) == before + mine);
        lemma_no_dup_append(before, mine);
        assert(disjoint(before, s.seen)) by {
            assert forall|i: int, j: int| 0 <= i < before.len() && 0 <= j < s.seen.len() implies before[i] != s.seen[j] by {
                assert(kids_nodes(arena, kids, n, h)[i] == before[i]);
            }
        }
        lemma_walk_kids(arena, kids, n - 1, h, depth, s);
        let prev = kids_fold(arena, kids, n - 1, depth, s);
        assert(disjoint(mine, prev.seen)) by {
            assert forall|i: int, j: int| 0 <= i < mine.len() && 0 <= j < prev.seen.len() implies mine[i] != prev.seen[j] by {
                assert(kids_nodes(arena, kids, n, h)[before.len() + i] == mine[i]);
                if j < s.seen.len() {
                    assert(prev.seen[j] == s.seen[j]);
                } else {
                    assert(prev.seen[j] == before[j - s.seen.len()]);
                }
            }
        }
        lemma_walk_tree(arena, k, h, depth + 1, prev);
        assert(prev.pages + tree_leaves(arena, k, h) =~= s.pages + kids_leaves(arena, kids, n, h));
        assert(prev.seen + mine =~= s.seen + kids_nodes(arena, kids, n, h));
    }
}

/// What a value that is not a stream is called when a stream was wanted.
pub open spec fn not_a_stream(o: Object) -> Seq<char> {
    match o {
        Object::Null => "null — the object did not parse; see the decisions"@,
        Object::Dictionary(_) => "a dictionary with no stream data"@,
        Object::Reference(_) => "an unresolved reference"@,
        _ => "another kind of object"@,
    }
}

impl Document {
    /// The objects.
    pub open spec fn spec_arena(&self) -> Arena {
        self.arena
    }

    /// The catalogue's object number.
    pub open spec fn spec_root(&self) -> u32 {
        self.root
    }

    /// The information dictionary's object number.
    pub open spec fn spec_info(&self) -> Option<u32> {
        self.info
    }

    /// Whether a script processor above this library runs the document's scripts.
    pub open spec fn spec_runs_scripts(&self) -> bool {
        self.runs_scripts
    }

    /// The viewer's layer overrides.
    pub open spec fn spec_overrides(&self) -> Map<u32, bool> {
        self.layer_overrides.view_map()
    }

    /// A document of these objects, with decisions already taken reading them; no pages
    /// found yet, nothing encrypted, nothing overridden.
    pub fn with_issues(arena: Arena, root: u32, info: Option<u32>, issues: Vec<Decision>) -> (d: Self)
        ensures
            d.spec_arena() == arena,
            d.spec_root() == root,
            d.spec_info() == info,
            d.pages@.len() == 0,
            d.decisions@ == issues@,
            !d.force_fallback,
            d.security_method@ == "No Security"@,
            d.permissions is None,
            d.access is None,
            !d.spec_runs_scripts(),
            d.provenance.source_id is None,
            d.provenance.original_id is None,
            d.provenance.signatures == 0,
            d.spec_overrides() == Map::<u32, bool>::empty(),
    {
        Document {
            arena,
            root,
            info,
            pages: Vec::new(),
            decisions: issues,
            force_fallback: false,
            security_method: text("No Security"),
            permissions: None,
            access: None,
            runs_scripts: false,
            provenance: Provenance { source_id: None, original_id: None, signatures: 0 },
            layer_overrides: LayerOverrides::new(),
        }
    }

    /// A document of these objects, with nothing decided yet.
    pub fn new(arena: Arena, root: u32, info: Option<u32>) -> (d: Self)
        ensures
            d.spec_arena() == arena,
            d.spec_root() == root,
            d.spec_info() == info,
            d.pages@.len() == 0,
            d.decisions@.len() == 0,
            !d.force_fallback,
            d.security_method@ == "No Security"@,
            d.permissions is None,
            d.access is None,
            !d.spec_runs_scripts(),
            d.provenance.signatures == 0,
            d.spec_overrides() == Map::<u32, bool>::empty(),
    {
        Document::with_issues(arena, root, info, Vec::new())
    }

    /// Says that this run executes the document's scripts, so nothing reports skipping
    /// them.
    pub fn declare_script_processor(&mut self)
        ensures
            final(self).spec_runs_scripts(),
            final(self).spec_arena() == old(self).spec_arena(),
            final(self).pages@ == old(self).pages@,
            final(self).decisions@ == old(self).decisions@,
            final(self).spec_overrides() == old(self).spec_overrides(),
    {
        self.runs_scripts = true;
    }

    /// Whether [`Document::declare_script_processor`] was called.
    pub fn runs_scripts(&self) -> (r: bool)
        ensures
            r == self.spec_runs_scripts(),
    {
        self.runs_scripts
    }

    /// Records a decision taken about this document.
    pub fn record(&mut self, decision: Decision)
        ensures
            final(self).decisions@ == old(self).decisions@.push(decision),
            final(self).spec_arena() == old(self).spec_arena(),
            final(self).pages@ == old(self).pages@,
            final(self).spec_overrides() == old(self).spec_overrides(),
    {
        self.decisions.push(decision);
    }

    /// Turns an optional-content group on or off for viewing. View state, not a change to
    /// the document.
    pub fn set_layer_visible(&mut self, group: u32, on: bool)
        ensures
            final(self).spec_overrides() == old(self).spec_overrides().insert(group, on),
            final(self).spec_arena() == old(self).spec_arena(),
            final(self).pages@ == old(self).pages@,
            final(self).decisions@ == old(self).decisions@,
    {
        self.layer_overrides.set(group, on);
    }

    /// Forgets every viewer override.
    pub fn reset_layer_visibility(&mut self)
        ensures
            final(self).spec_overrides() == Map::<u32, bool>::empty(),
            final(self).spec_arena() == old(self).spec_arena(),
            final(self).pages@ == old(self).pages@,
            final(self).decisions@ == old(self).decisions@,
    {
        self.layer_overrides.clear();
    }

    /// The viewer overrides in force, each group once, in object order.
    pub fn layer_overrides(&self) -> (r: Vec<(u32, bool)>)
        ensures
            forall|a: int, b: int| 0 <= a < b < r@.len() ==> #[trigger] r@[a].0 < #[trigger] r@[b].0,
            forall|i: int| 0 <= i < r@.len() ==> self.spec_overrides().contains_key(#[trigger] r@[i].0)
                && self.spec_overrides()[r@[i].0] == r@[i].1,
            forall|g: u32| #[trigger] self.spec_overrides().contains_key(g) ==> exists|i: int| 0 <= i < r@.len() && r@[i].0 == g,
    {
        self.layer_overrides.to_vec()
    }

    /// What is lost by writing this document out when its `/P` said not to: reported,
    /// never enforced, and only under user access, since the owner may change the
    /// permissions (7.6.4.1).
    pub fn permissions_lost_on_write(&self) -> (r: Option<Decision>)
        ensures
            r is Some == notice_owed(self.access, self.permissions),
            r matches Some(d) ==> decision_view(d) == violation_view(
                "7.6.4.2"@,
                permission_found(self.permissions.unwrap()),
                permission_action(),
            ),
    {
        match self.access {
            Some(Access::User) => {},
            _ => return None,
        }
        let bits = match self.permissions {
            Some(b) => b,
            None => return None,
        };
        let no_modify = bits & 8i32 == 0;
        let no_assemble = bits & 1024i32 == 0;
        let no_annotate = bits & 32i32 == 0;
        if !no_modify && !no_assemble && !no_annotate {
            return None;
        }
        let ghost names = denied_names(bits);
        let mut list = String::new();
        let mut first = true;
        let ghost mut done: Seq<Seq<char>> = Seq::empty();
        assert(joined(done) =~= list@);
        if no_modify {
            list = concat(list, "modification");
            first = false;
            proof {
                done = done.push("modification"@);
                assert(joined(done) =~= list@);
            }
        }
        if no_assemble {
            if !first {
                list = concat(list, " and no ");
            }
            list = concat(list, "assembly");
            proof {
                done = done.push("assembly"@);
                assert(done.drop_last() =~= if no_modify { seq!["modification"@] } else { Seq::<Seq<char>>::empty() });
                assert(joined(done) =~= list@);
            }
            first = false;
        }
        if no_annotate {
            if !first {
                list = concat(list, " and no ");
            }
            list = concat(list, "annotation");
            proof {
                let prior = done;
                done = done.push("annotation"@);
                assert(done.drop_last() =~= prior);
                assert(joined(done) =~= list@);
            }
        }
        assert(done =~= names);
        let found = concat(
            concat(concat(text("the document was opened with user access and its /P ("), signed_text(bits).as_str()), ") permits no "),
            list.as_str(),
        );
        Some(Decision::violation("7.6.4.2", found, "this engine normalises at load and has no path that writes a faithful copy, so the output is modified; /Encrypt cannot survive decryption either, so it declares no permissions at all"))
    }

    /// What the source carried that the output cannot: its signatures, which cover bytes
    /// the output does not reproduce (12.8). Reported, not refused.
    pub fn signatures_lost_on_write(&self) -> (r: Option<Decision>)
        ensures
            match r {
                Some(d) => self.provenance.signatures > 0 && decision_view(d) == violation_view(
                    "12.8"@,
                    signature_found(self.provenance.signatures as nat),
                    signature_action(),
                ),
                None => self.provenance.signatures == 0,
            },
    {
        if self.provenance.signatures == 0 {
            return None;
        }
        let found = concat(
            concat(text("the source carried "), decimal_text(self.provenance.signatures as u64).as_str()),
            " digital signature(s)",
        );
        Some(Decision::violation("12.8", found, "the output is a new document derived from it, so they are not carried; a signature covers bytes this output does not reproduce"))
    }

    /// The objects.
    pub fn arena(&self) -> (r: &Arena)
        ensures
            *r == self.spec_arena(),
    {
        &self.arena
    }

    /// The catalogue's object number.
    pub fn root_handle(&self) -> (r: u32)
        ensures
            r == self.spec_root(),
    {
        self.root
    }

    /// The catalogue's object number, which every document has.
    pub fn catalog_handle(&self) -> (r: Option<u32>)
        ensures
            r == Some(self.spec_root()),
    {
        Some(self.root)
    }

    /// The information dictionary's object number, if the trailer names one.
    pub fn info_handle(&self) -> (r: Option<u32>)
        ensures
            r == self.spec_info(),
    {
        self.info
    }

    /// The object a number names.
    pub fn resolve(&self, handle: u32) -> (r: PdfResult<&Object>)
        ensures
            match r {
                Ok(o) => (handle as int) < self.spec_arena().objects@.len() && *o
                    == self.spec_arena().objects@[handle as int],
                Err(e) => (handle as int) >= self.spec_arena().objects@.len() && (e matches PdfError::Arena(m) && m@
                    == "Failed to resolve handle"@),
            },
    {
        if (handle as usize) < self.arena.objects.len() {
            Ok(&self.arena.objects[handle as usize])
        } else {
            Err(PdfError::Arena(text("Failed to resolve handle")))
        }
    }

    /// The catalogue (7.7.2), read afresh.
    pub fn catalog(&self) -> (r: PdfResult<PdfCatalog<'_>>)
        ensures
            (self.spec_root() as int) >= self.spec_arena().objects@.len() ==> (r matches Err(PdfError::Arena(m)) && m@
                == "/Root does not resolve"@),
            (self.spec_root() as int) < self.spec_arena().objects@.len() ==> {
                &&& (r is Ok) == PdfCatalog::readable(self.spec_arena(), self.spec_arena().objects@[self.spec_root() as int])
                &&& r matches Ok(v) ==> PdfCatalog::read_as(
                    self.spec_arena(),
                    self.spec_arena().objects@[self.spec_root() as int],
                    v,
                )
            },
    {
        if (self.root as usize) < self.arena.objects.len() {
            PdfCatalog::from_pdf_object(&self.arena.objects[self.root as usize], &self.arena)
        } else {
            Err(PdfError::Arena(text("/Root does not resolve")))
        }
    }

    /// The page count: how many pages were found.
    pub fn page_count(&self) -> (r: PdfResult<usize>)
        ensures
            r matches Ok(n) && n == self.pages@.len(),
    {
        Ok(self.pages.len())
    }

    /// The page tree's root: the reference the catalogue's `/Pages` holds. Only that one
    /// entry is read, so a document's pages do not become unreachable because another
    /// entry of the catalogue will not read.
    fn get_pages_root(&self) -> (r: PdfResult<u32>)
        ensures
            match r {
                Ok(n) => spec_pages_root(self.spec_arena(), self.spec_root()) == Some(n),
                Err(e) => spec_pages_root(self.spec_arena(), self.spec_root()) is None && (reach_error(
                    self.spec_arena(),
                    self.spec_root(),
                ) matches Some(m) ==> error_text(e) == m),
            },
    {
        if (self.root as usize) >= self.arena.objects.len() {
            return Err(PdfError::Other(text("Missing document catalog")));
        }
        let catalog_obj = &self.arena.objects[self.root as usize];
        let found: PdfResult<Option<Located<PageTreeRoot>>> = entry(&self.arena, catalog_obj, "Pages");
        match found {
            Err(e) => Err(e),
            Ok(None) => Err(PdfError::Other(text("The catalogue names no page tree (7.7.2)"))),
            Ok(Some(loc)) => match loc.reference {
                Some(n) => Ok(n),
                None => Err(PdfError::Other(text("The catalogue names no page tree (7.7.2)"))),
            },
        }
    }

    /// Every page of the page tree, in reading order, each once (7.7.3.2). A node reached
    /// a second time, a branch that will not walk and a tree that cannot be reached are
    /// each recorded as a decision, not swallowed.
    pub fn find_all_pages(&mut self) -> (r: Vec<u32>)
        ensures
            final(self).spec_arena() == old(self).spec_arena(),
            final(self).spec_root() == old(self).spec_root(),
            final(self).pages@ == old(self).pages@,
            match spec_pages_root(old(self).spec_arena(), old(self).spec_root()) {
                Some(top) => {
                    &&& r@ == full_walk(old(self).spec_arena(), top).0.pages
                    &&& decision_views(final(self).decisions@) == decision_views(old(self).decisions@) + walk_record(
                        old(self).spec_arena(),
                        top,
                    )
                },
                None => {
                    &&& r@.len() == 0
                    &&& final(self).decisions@.len() == old(self).decisions@.len() + 1
                    &&& final(self).decisions@.take(old(self).decisions@.len() as int) == old(self).decisions@
                    &&& {
                        let d = decision_view(final(self).decisions@.last());
                        &&& d.0 == Severity::Violation
                        &&& d.1 == "7.7.3.2"@
                        &&& "the catalogue's page tree could not be reached: "@.is_prefix_of(d.2)
                        &&& reach_error(old(self).spec_arena(), old(self).spec_root()) matches Some(m) ==> d.2
                            == "the catalogue's page tree could not be reached: "@ + m
                        &&& d.3 == unreachable_action()
                    }
                },
            },
    {
        let mut pages: Vec<u32> = Vec::new();
        match self.get_pages_root() {
            Ok(top) => {
                let mut seen: Vec<u32> = Vec::new();
                let mut notes: Vec<Decision> = Vec::new();
                let r = walk_pages(&self.arena, top, 0, &mut pages, &mut seen, &mut notes);
                assert(state_of(Seq::empty(), Seq::empty(), Seq::empty()) == WalkState {
                    pages: Seq::empty(),
                    seen: Seq::empty(),
                    notes: Seq::empty(),
                }) by {
                    assert(decision_views(Seq::<Decision>::empty()) =~= Seq::<DecisionView>::empty());
                }
                let ghost start = self.decisions@;
                let ghost added = notes@;
                self.decisions.append(&mut notes);
                assert(decision_views(self.decisions@) =~= decision_views(start) + decision_views(added));
                if let Err(why) = r {
                    let ghost before = self.decisions@;
                    let why_text = why.message();
                    let found = concat(text("the page tree could not be walked: "), why_text.as_str());
                    let action = concat(
                        concat(text("kept the "), decimal_text(pages.len() as u64).as_str()),
                        " pages reached before it stopped; the rest of the tree is not in this document",
                    );
                    self.decisions.push(Decision::violation("7.7.3.2", found, action.as_str()));
                }
            },
            Err(why) => {
                let why_text = why.message();
                let found = concat(text("the catalogue's page tree could not be reached: "), why_text.as_str());
                self.decisions.push(Decision::violation("7.7.3.2", found, "reported the document as having no pages, because none can be found"));
            },
        }
        pages
    }

    /// The page tree rebuilt over [`Document::pages`]: balanced, fifty kids to a node, and
    /// named by the catalogue.
    pub fn rebuild_page_tree_in_arena(&mut self) -> (r: PdfResult<()>)
        ensures
            rebuild_outcome(old(self).spec_arena(), old(self).spec_root(), old(self).pages@, final(self).spec_arena(), is_ok(r), err_text(r)),
            final(self).pages@ == old(self).pages@,
            final(self).spec_root() == old(self).spec_root(),
            final(self).decisions@ == old(self).decisions@,
    {
        build_page_tree(&mut self.arena, self.root, &self.pages)
    }

    /// Pushes the inheritable attributes down the page tree (7.7.3.4): each page is given
    /// the `/Resources`, `/MediaBox`, `/CropBox` and `/Rotate` it inherits, a missing
    /// `/CropBox` is the `/MediaBox` and a missing `/Rotate` is 0, and the `/Pages` nodes
    /// stop carrying them. The walk stops at the first node that is neither kind; what it
    /// changed before stays changed. Without a page tree nothing changes.
    pub fn normalize_page_tree(&mut self)
        ensures
            match spec_pages_root(old(self).spec_arena(), old(self).spec_root()) {
                Some(top) => arena_view(final(self).spec_arena()) == push_down(
                    arena_view(old(self).spec_arena()),
                    top,
                    seq![None, None, None, None],
                    0,
                ).0,
                None => final(self).spec_arena() == old(self).spec_arena(),
            },
            final(self).spec_arena().objects@.len() == old(self).spec_arena().objects@.len(),
            final(self).pages@ == old(self).pages@,
            final(self).spec_root() == old(self).spec_root(),
            final(self).decisions@ == old(self).decisions@,
    {
        let top = match self.get_pages_root() {
            Ok(n) => n,
            Err(_) => return,
        };
        let mut inherited: Vec<Option<Object>> = Vec::new();
        inherited.push(None);
        inherited.push(None);
        inherited.push(None);
        inherited.push(None);
        assert(opt_views(inherited@) =~= seq![None, None, None, None]);
        let _ = push_down_from(&mut self.arena, top, &inherited, 0);
    }

    /// Moves the page at `from` to `to`, then rebuilds the page tree.
    pub fn reorder_page(&mut self, from: usize, to: usize) -> (r: PdfResult<()>)
        ensures
            final(self).spec_root() == old(self).spec_root(),
            final(self).decisions@ == old(self).decisions@,
            from >= old(self).pages@.len() || to >= old(self).pages@.len() ==> {
                &&& r matches Err(PdfError::Other(m)) && m@ == "Index out of bounds"@
                &&& final(self).pages@ == old(self).pages@
                &&& final(self).spec_arena() == old(self).spec_arena()
            },
            from < old(self).pages@.len() && to < old(self).pages@.len() ==> {
                &&& final(self).pages@ == old(self).pages@.remove(from as int).insert(to as int, old(self).pages@[from as int])
                &&& rebuild_outcome(old(self).spec_arena(), old(self).spec_root(), final(self).pages@, final(self).spec_arena(), is_ok(r), err_text(r))
            },
    {
        if from >= self.pages.len() || to >= self.pages.len() {
            return Err(PdfError::Other(text("Index out of bounds")));
        }
        let page = self.pages.remove(from);
        self.pages.insert(to, page);
        self.rebuild_page_tree_in_arena()
    }

    /// Removes the page at `index`, then rebuilds the page tree.
    pub fn remove_page(&mut self, index: usize) -> (r: PdfResult<()>)
        ensures
            final(self).spec_root() == old(self).spec_root(),
            final(self).decisions@ == old(self).decisions@,
            index >= old(self).pages@.len() ==> {
                &&& r matches Err(PdfError::Other(m)) && m@ == "Index out of bounds"@
                &&& final(self).pages@ == old(self).pages@
                &&& final(self).spec_arena() == old(self).spec_arena()
            },
            index < old(self).pages@.len() ==> {
                &&& final(self).pages@ == old(self).pages@.remove(index as int)
                &&& rebuild_outcome(old(self).spec_arena(), old(self).spec_root(), final(self).pages@, final(self).spec_arena(), is_ok(r), err_text(r))
            },
    {
        if index >= self.pages.len() {
            return Err(PdfError::Other(text("Index out of bounds")));
        }
        self.pages.remove(index);
        self.rebuild_page_tree_in_arena()
    }

    /// Moves the pages at `source_indices`, keeping their order, so that they stand
    /// together where `target_insert_pos` was; then rebuilds the page tree. Answers where
    /// they now stand.
    pub fn reorder_pages_batch(&mut self, source_indices: &[usize], target_insert_pos: usize) -> (r: PdfResult<
        std::ops::Range<usize>,
    >)
        ensures
            final(self).spec_root() == old(self).spec_root(),
            final(self).decisions@ == old(self).decisions@,
            source_indices@.len() == 0 ==> {
                &&& r matches Ok(rg) && rg.start == 0 && rg.end == 0
                &&& final(self).pages@ == old(self).pages@
                &&& final(self).spec_arena() == old(self).spec_arena()
            },
            source_indices@.len() > 0 && target_insert_pos > old(self).pages@.len() ==> {
                &&& r matches Err(PdfError::Other(m)) && m@ == "Target index out of bounds"@
                &&& final(self).pages@ == old(self).pages@
                &&& final(self).spec_arena() == old(self).spec_arena()
            },
            source_indices@.len() > 0 && target_insert_pos <= old(self).pages@.len() && (exists|j: int|
                0 <= j < source_indices@.len() && source_indices@[j] >= old(self).pages@.len()) ==> {
                &&& r matches Err(PdfError::Other(m)) && m@ == "Source index out of bounds"@
                &&& final(self).pages@ == old(self).pages@
                &&& final(self).spec_arena() == old(self).spec_arena()
            },
            source_indices@.len() > 0 && target_insert_pos <= old(self).pages@.len() && (forall|j: int|
                0 <= j < source_indices@.len() ==> source_indices@[j] < old(self).pages@.len()) ==> {
                &&& final(self).pages@ == batch_moved(old(self).pages@, source_indices@, target_insert_pos)
                &&& rebuild_outcome(old(self).spec_arena(), old(self).spec_root(), final(self).pages@, final(self).spec_arena(), is_ok(r), err_text(r))
                &&& r matches Ok(rg) ==> rg.start == insert_at(old(self).pages@, source_indices@, target_insert_pos)
                    && rg.end == rg.start + moved(old(self).pages@, source_indices@, old(self).pages@.len() as int).len()
            },
    {
        if source_indices.len() == 0 {
            return Ok(0..0);
        }
        let total = self.pages.len();
        if target_insert_pos > total {
            return Err(PdfError::Other(text("Target index out of bounds")));
        }
        let mut j: usize = 0;
        while j < source_indices.len()
            invariant
                j <= source_indices@.len(),
                total == self.pages@.len(),
                target_insert_pos <= total,
                forall|m: int| 0 <= m < j ==> source_indices@[m] < total,
            decreases source_indices@.len() - j,
        {
            if source_indices[j] >= total {
                return Err(PdfError::Other(text("Source index out of bounds")));
            }
            j = j + 1;
        }
        let mut before: usize = 0;
        let mut m: usize = 0;
        while m < source_indices.len()
            invariant
                m <= source_indices@.len(),
                before <= m,
                before as int == before_target(source_indices@, target_insert_pos, m as int),
            decreases source_indices@.len() - m,
        {
            if source_indices[m] < target_insert_pos {
                before = before + 1;
            }
            m = m + 1;
        }
        let insert_idx = if target_insert_pos > before {
            target_insert_pos - before
        } else {
            0
        };
        let ghost old_pages = self.pages@;
        let mut remaining: Vec<u32> = Vec::new();
        let mut moving: Vec<u32> = Vec::new();
        let mut i: usize = 0;
        while i < self.pages.len()
            invariant
                i <= self.pages@.len(),
                self.pages@ == old_pages,
                remaining@ == kept(old_pages, source_indices@, i as int),
                moving@ == moved(old_pages, source_indices@, i as int),
                remaining@.len() + moving@.len() == i,
            decreases self.pages@.len() - i,
        {
            if selects(source_indices, i) {
                moving.push(self.pages[i]);
            } else {
                remaining.push(self.pages[i]);
            }
            i = i + 1;
        }
        let count = moving.len();
        let clamped = if insert_idx < remaining.len() {
            insert_idx
        } else {
            remaining.len()
        };
        assert(clamped as int == insert_at(old_pages, source_indices@, target_insert_pos));
        let mut new_pages = copy_pages(remaining.as_slice(), 0, clamped);
        let mut k: usize = 0;
        let ghost head = new_pages@;
        while k < moving.len()
            invariant
                k <= moving@.len(),
                new_pages@ == head + moving@.take(k as int),
            decreases moving@.len() - k,
        {
            new_pages.push(moving[k]);
            assert(moving@.take(k + 1) =~= moving@.take(k as int).push(moving@[k as int]));
            k = k + 1;
        }
        let mut tail = copy_pages(remaining.as_slice(), clamped, remaining.len());
        new_pages.append(&mut tail);
        proof {
            assert(moving@.take(k as int) =~= moving@);
            assert(remaining@.subrange(0, clamped as int) =~= remaining@.take(clamped as int));
            assert(remaining@.subrange(clamped as int, remaining@.len() as int) =~= remaining@.skip(clamped as int));
            assert(new_pages@ =~= batch_moved(old_pages, source_indices@, target_insert_pos));
        }
        self.pages = new_pages;
        let built = self.rebuild_page_tree_in_arena();
        match built {
            Ok(()) => Ok(clamped..(clamped + count)),
            Err(e) => Err(e),
        }
    }

    /// The chain of page-tree nodes above object `page_h`, root first, read from each
    /// node's `/Parent`. A chain longer than the object table, which only a cycle of
    /// `/Parent`s makes, is cut there.
    pub fn get_parent_chain(&self, page_h: u32) -> (r: Vec<u32>)
        ensures
            r@ == chain_up(self.spec_arena(), page_h, self.spec_arena().objects@.len() as nat).reverse(),
    {
        let mut up: Vec<u32> = Vec::new();
        let mut current = page_h;
        let mut fuel: usize = self.arena.objects.len();
        let mut done = false;
        let ghost whole = chain_up(self.arena, page_h, fuel as nat);
        assert(up@ + chain_up(self.arena, current, fuel as nat) =~= whole);
        while fuel > 0 && !done
            invariant
                !done ==> up@ + chain_up(self.arena, current, fuel as nat) == whole,
                done ==> up@ == whole,
            decreases fuel + if done {
                0int
            } else {
                1int
            },
        {
            match node(&self.arena, current) {
                Some(d) => match d.get("Parent") {
                    Some(Object::Reference(p)) => {
                        let ghost rest = chain_up(self.arena, *p, (fuel - 1) as nat);
                        up.push(*p);
                        assert(up@ + rest =~= whole);
                        current = *p;
                        fuel = fuel - 1;
                    },
                    _ => {
                        done = true;
                        assert(up@ =~= whole);
                    },
                },
                None => {
                    done = true;
                    assert(up@ =~= whole);
                },
            }
        }
        if !done {
            assert(up@ =~= whole);
        }
        let mut out: Vec<u32> = Vec::new();
        let mut i: usize = up.len();
        while i > 0
            invariant
                i <= up@.len(),
                out@ == up@.skip(i as int).reverse(),
            decreases i,
        {
            i = i - 1;
            out.push(up[i]);
            assert(up@.skip(i as int).reverse() =~= up@.skip(i + 1).reverse().push(up@[i as int]));
        }
        assert(up@.skip(0) =~= up@);
        out
    }

    /// The page at `index`, counting from zero, bound to the nodes above it.
    pub fn get_page(&self, index: usize) -> (r: PdfResult<Page<'_>>)
        ensures
            index >= self.pages@.len() ==> (r matches Err(PdfError::Other(m)) && m@ == "Page index out of bounds"@),
            index < self.pages@.len() ==> (r matches Ok(p) && p.spec_arena() == self.spec_arena() && p.spec_handle()
                == self.pages@[index as int] && p.spec_chain() == chain_up(
                self.spec_arena(),
                self.pages@[index as int],
                self.spec_arena().objects@.len() as nat,
            ).reverse()),
    {
        if index >= self.pages.len() {
            return Err(PdfError::Other(text("Page index out of bounds")));
        }
        let page_handle = self.pages[index];
        let parent_chain = self.get_parent_chain(page_handle);
        Ok(Page::new(&self.arena, page_handle, parent_chain))
    }

    /// Finds the pages and keeps them as [`Document::pages`], which is what makes the
    /// document answer questions about its pages.
    pub fn index_pages(&mut self)
        ensures
            final(self).spec_arena() == old(self).spec_arena(),
            final(self).spec_root() == old(self).spec_root(),
            match spec_pages_root(old(self).spec_arena(), old(self).spec_root()) {
                Some(top) => {
                    &&& final(self).pages@ == full_walk(old(self).spec_arena(), top).0.pages
                    &&& decision_views(final(self).decisions@) == decision_views(old(self).decisions@) + walk_record(
                        old(self).spec_arena(),
                        top,
                    )
                },
                None => final(self).pages@.len() == 0 && final(self).decisions@.len() == old(self).decisions@.len() + 1,
            },
    {
        let pages = self.find_all_pages();
        self.pages = pages;
    }

    /// The dictionary object `handle` is.
    pub fn resolve_to_dict(&self, handle: u32) -> (r: PdfResult<&Dict>)
        ensures
            match r {
                Ok(d) => node_dict(self.spec_arena(), handle) == Some(*d),
                Err(e) => node_dict(self.spec_arena(), handle) is None && error_text(e) == not_a_node(handle),
            },
    {
        match node(&self.arena, handle) {
            Some(d) => Ok(d),
            None => Err(PdfError::Other(concat(concat(text("Object "), decimal_text(handle as u64).as_str()), " is not a dictionary"))),
        }
    }

    /// A stream's data with its filters undone. Anything else is refused, naming what
    /// came instead, which is what says where it went wrong.
    pub fn decode_stream(&self, obj: &Object) -> (r: PdfResult<Vec<u8>>)
        ensures
            match *obj {
                Object::Stream(d, data) => agrees(result_view(r), spec_process(data@, d, self.spec_arena(), None)),
                _ => r matches Err(PdfError::Filter { filter, message }) && filter@ == "None"@ && message@ == "expected a stream, found "@
                    + not_a_stream(*obj),
            },
    {
        match obj {
            Object::Stream(d, data) => process_filters(data.as_slice(), d, &self.arena, None),
            other => {
                let found = match other {
                    Object::Null => "null — the object did not parse; see the decisions",
                    Object::Dictionary(_) => "a dictionary with no stream data",
                    Object::Reference(_) => "an unresolved reference",
                    _ => "another kind of object",
                };
                Err(PdfError::Filter { filter: text("None"), message: concat(text("expected a stream, found "), found) })
            },
        }
    }

    /// The structure tree's root (14.7.2): the reference the catalogue's
    /// `/StructTreeRoot` holds. Only that entry is read.
    pub fn get_structure_root(&self) -> (r: PdfResult<Option<u32>>)
        ensures
            (self.spec_root() as int) >= self.spec_arena().objects@.len() ==> (r matches Err(PdfError::Other(m)) && m@
                == "Missing document catalog"@),
            (self.spec_root() as int) < self.spec_arena().objects@.len() ==> match self.spec_arena().spec_dict_of(
                self.spec_arena().objects@[self.spec_root() as int],
            ) {
                None => r is Err,
                Some(d) => {
                    &&& (r is Ok) == entry_readable::<Located<StructTreeRoot<'static>>>(self.spec_arena(), d.spec_get("StructTreeRoot"@))
                    &&& r matches Ok(v) ==> v == match d.spec_get("StructTreeRoot"@) {
                        Some(Object::Reference(n)) => Some(n),
                        _ => None::<u32>,
                    }
                },
            },
    {
        if (self.root as usize) >= self.arena.objects.len() {
            return Err(PdfError::Other(text("Missing document catalog")));
        }
        let catalog_obj = &self.arena.objects[self.root as usize];
        let found: PdfResult<Option<Located<StructTreeRoot>>> = entry(&self.arena, catalog_obj, "StructTreeRoot");
        match found {
            Err(e) => Err(e),
            Ok(None) => Ok(None),
            Ok(Some(loc)) => Ok(loc.reference),
        }
    }

    /// The object number of the page at `index`, counting from zero.
    pub fn get_page_handle(&self, index: usize) -> (r: Option<u32>)
        ensures
            r == if index < self.pages@.len() {
                Some(self.pages@[index as int])
            } else {
                None
            },
    {
        if index < self.pages.len() {
            Some(self.pages[index])
        } else {
            None
        }
    }

    /// Every font dictionary the document holds as an object of its own, summarized.
    pub fn fonts(&self) -> (r: Vec<FontSummary>)
        requires
            self.spec_arena().objects@.len() <= u32::MAX,
        ensures
            r@.len() == font_ids(self.spec_arena(), self.spec_arena().objects@.len() as int).len(),
            forall|i: int| 0 <= i < r@.len() ==> {
                let id = #[trigger] font_ids(self.spec_arena(), self.spec_arena().objects@.len() as int)[i];
                summarizes(
                    self.spec_arena(),
                    font_dict(self.spec_arena(), self.spec_arena().objects@[id as int]).unwrap(),
                    id,
                    r@[i],
                )
            },
    {
        list_fonts(&self.arena)
    }
}

} // verus!
