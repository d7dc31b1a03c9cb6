//! What a document *does*: the actions it can run, and what has to happen first (12.6).
//!
//! Two things are reported per action and nothing else: the [`Capability`] it grants,
//! and the [`Trigger`] that fires it. A script behind a link is a different fact from
//! the same script in `/OpenAction`, and both are different from a `/Launch`.

use crate::document::entries::{name_at_key, text_at_key, text_value};
use crate::error::{concat, text};
use crate::filters::{filters_name_jpx, lemma_known_without_jpx, names_jpx, process_filters, spec_process};
use crate::object::{str_eq, Arena, Dict, Object};
use crate::text::{lossy_text, utf8_lossy};
use vstd::prelude::*;

verus! {

/// What an action lets a document do, classified by consequence rather than by name:
/// an `/S` this engine has never seen lands in [`Capability::Undefined`], never in the
/// harmless group. Declared worst first.
#[derive(Clone, Copy, Debug, PartialEq, Eq, Structural)]
pub enum Capability {
    /// Runs a script: `/JavaScript` (12.6.4.17).
    RunsCode,
    /// Starts another program, or opens another file with one: `/Launch` (12.6.4.6).
    LaunchesAnother,
    /// Reaches outside this document: `/URI`, `/SubmitForm`, `/ImportData`, `/GoToR`,
    /// `/GoToE`.
    ReachesOutside,
    /// Plays or renders media: `/Sound`, `/Movie`, `/Rendition`, `/RichMediaExecute`.
    PlaysMedia,
    /// Moves or changes something within this document and nothing else: `/GoTo`,
    /// `/Named`, `/SetOCGState`, `/Hide`, `/ResetForm`, `/Thread`, `/Trans`.
    StaysInside,
    /// An `/S` clause 12.6.4 does not define, or an action carrying none.
    Undefined,
}

/// The consequence of an action type (Table 196's `/S` values).
pub open spec fn spec_capability(kind: Seq<char>) -> Capability {
    if kind == "JavaScript"@ {
        Capability::RunsCode
    } else if kind == "Launch"@ {
        Capability::LaunchesAnother
    } else if kind == "URI"@ || kind == "SubmitForm"@ || kind == "ImportData"@ || kind
        == "GoToR"@ || kind == "GoToE"@ {
        Capability::ReachesOutside
    } else if kind == "Sound"@ || kind == "Movie"@ || kind == "Rendition"@ || kind
        == "RichMediaExecute"@ {
        Capability::PlaysMedia
    } else if kind == "GoTo"@ || kind == "Named"@ || kind == "SetOCGState"@ || kind == "Hide"@
        || kind == "ResetForm"@ || kind == "Thread"@ || kind == "Trans"@ {
        Capability::StaysInside
    } else {
        Capability::Undefined
    }
}

/// Where a capability stands in the order worst first.
pub open spec fn rank(c: Capability) -> nat {
    match c {
        Capability::RunsCode => 0,
        Capability::LaunchesAnother => 1,
        Capability::ReachesOutside => 2,
        Capability::PlaysMedia => 3,
        Capability::StaysInside => 4,
        Capability::Undefined => 5,
    }
}

/// The capability at a rank.
pub open spec fn at_rank(r: nat) -> Capability {
    if r == 0 {
        Capability::RunsCode
    } else if r == 1 {
        Capability::LaunchesAnother
    } else if r == 2 {
        Capability::ReachesOutside
    } else if r == 3 {
        Capability::PlaysMedia
    } else if r == 4 {
        Capability::StaysInside
    } else {
        Capability::Undefined
    }
}

impl Capability {
    /// The consequence of an action type.
    pub fn of(kind: &str) -> (c: Self)
        ensures
            c == spec_capability(kind@),
    {
        if str_eq(kind, "JavaScript") {
            Capability::RunsCode
        } else if str_eq(kind, "Launch") {
            Capability::LaunchesAnother
        } else if str_eq(kind, "URI") || str_eq(kind, "SubmitForm") || str_eq(kind, "ImportData")
            || str_eq(kind, "GoToR") || str_eq(kind, "GoToE") {
            Capability::ReachesOutside
        } else if str_eq(kind, "Sound") || str_eq(kind, "Movie") || str_eq(kind, "Rendition")
            || str_eq(kind, "RichMediaExecute") {
            Capability::PlaysMedia
        } else if str_eq(kind, "GoTo") || str_eq(kind, "Named") || str_eq(kind, "SetOCGState")
            || str_eq(kind, "Hide") || str_eq(kind, "ResetForm") || str_eq(kind, "Thread")
            || str_eq(kind, "Trans") {
            Capability::StaysInside
        } else {
            Capability::Undefined
        }
    }

    /// What to call it in a report.
    pub fn label(self) -> (r: &'static str)
        ensures
            r@ == match self {
                Capability::RunsCode => "runs code"@,
                Capability::LaunchesAnother => "launches another program"@,
                Capability::ReachesOutside => "reaches outside the document"@,
                Capability::PlaysMedia => "plays media"@,
                Capability::StaysInside => "stays inside the document"@,
                Capability::Undefined => "not a defined action type"@,
            },
    {
        match self {
            Capability::RunsCode => "runs code",
            Capability::LaunchesAnother => "launches another program",
            Capability::ReachesOutside => "reaches outside the document",
            Capability::PlaysMedia => "plays media",
            Capability::StaysInside => "stays inside the document",
            Capability::Undefined => "not a defined action type",
        }
    }

    /// Where it stands in the order worst first.
    fn rank(self) -> (r: usize)
        ensures
            r == rank(self),
            at_rank(r as nat) == self,
    {
        match self {
            Capability::RunsCode => 0,
            Capability::LaunchesAnother => 1,
            Capability::ReachesOutside => 2,
            Capability::PlaysMedia => 3,
            Capability::StaysInside => 4,
            Capability::Undefined => 5,
        }
    }

    /// The capability at a rank.
    fn at_rank(r: usize) -> (c: Self)
        requires
            r < 6,
        ensures
            c == at_rank(r as nat),
            rank(c) == r,
    {
        if r == 0 {
            Capability::RunsCode
        } else if r == 1 {
            Capability::LaunchesAnother
        } else if r == 2 {
            Capability::ReachesOutside
        } else if r == 3 {
            Capability::PlaysMedia
        } else if r == 4 {
            Capability::StaysInside
        } else {
            Capability::Undefined
        }
    }
}

/// What has to happen before an action fires.
pub enum Trigger {
    /// `/OpenAction`: the document is opened and this runs (12.3.2).
    DocumentOpened,
    /// A script in the `/Names /JavaScript` tree, which runs when the document opens
    /// (12.6.4.17), with the name it is filed under.
    DocumentScript(String),
    /// The catalogue's `/AA`: before the document is closed, saved or printed.
    DocumentEvent(String),
    /// A page's `/AA`: the page is opened or closed.
    PageEvent {
        /// Zero-based page index.
        page: usize,
        /// The `/AA` key.
        event: String,
    },
    /// An annotation's `/A`: the reader activated it.
    AnnotationActivated {
        /// Zero-based page index.
        page: usize,
        /// The annotation's `/Subtype`.
        subtype: String,
    },
    /// An annotation's `/AA`: a pointer entering it, a field losing focus.
    AnnotationEvent {
        /// Zero-based page index.
        page: usize,
        /// The `/AA` key.
        event: String,
    },
    /// A form field's `/AA`, on a field that is not itself an annotation.
    FieldEvent {
        /// The field's `/T`, when it has one.
        field: Option<String>,
        /// The `/AA` key.
        event: String,
    },
    /// Reached through another action's `/Next` (12.6.1).
    Chained,
}

impl Trigger {
    /// Whether this fires with **no** interaction from the reader: a script in
    /// `/OpenAction` or the name tree runs at the moment the file is opened. `Chained`
    /// is not among them: what fires it is the action it hangs off, reported in its own
    /// right.
    pub fn without_interaction(&self) -> (r: bool)
        ensures
            r == (*self is DocumentOpened || *self is DocumentScript),
    {
        match self {
            Trigger::DocumentOpened => true,
            Trigger::DocumentScript(_) => true,
            _ => false,
        }
    }
}

/// What an action says, for the kinds that say something.
pub enum Says {
    /// `/JS`: the script itself.
    Script(String),
    /// A file or program a `/Launch` names.
    File(String),
    /// `/URI`, or a `/SubmitForm`'s target.
    Url(String),
    /// A `/Named` action's `/N`.
    Name(String),
}

/// One action, and what it takes to fire it.
pub struct ReachableAction {
    /// What has to happen first.
    pub trigger: Trigger,
    /// `/S` verbatim, or `(none)` where the action carries none.
    pub kind: String,
    /// What that lets the document do.
    pub capability: Capability,
    /// What the action says, where the kind is one that says something.
    pub says: Option<Says>,
}

/// One requirement a document declares a processor must support (12.11, Table 275).
pub struct Requirement {
    /// The requirement's name, `/S`.
    pub requirement: String,
}

/// The requirement names this processor is known **not** to satisfy. A short list on
/// purpose: claiming not to satisfy one is a decision taken and written down.
pub open spec fn not_satisfied() -> Seq<Seq<char>> {
    seq!["EnableJavaScripts"@]
}

/// Everything a document can do, and what has to happen first.
pub struct ActionReport {
    /// Every action reachable from anywhere, in the order the walk finds them.
    pub actions: Vec<ReachableAction>,
    /// What the document declares a processor must support to handle it (12.11).
    pub requirements: Vec<Requirement>,
    /// Objects in an action position that would not read as an action dictionary.
    pub unreadable: usize,
}

/// The requirements among `rs` that this processor does not satisfy, in order.
pub open spec fn unmet_of(rs: Seq<Requirement>) -> Seq<Requirement>
    decreases rs.len(),
{
    if rs.len() == 0 {
        Seq::empty()
    } else if not_satisfied().contains(rs.last().requirement@) {
        unmet_of(rs.drop_last()).push(rs.last())
    } else {
        unmet_of(rs.drop_last())
    }
}

/// The actions among `acts` that fire with no interaction, in order.
pub open spec fn unprompted_of(acts: Seq<ReachableAction>) -> Seq<ReachableAction>
    decreases acts.len(),
{
    if acts.len() == 0 {
        Seq::empty()
    } else if acts.last().trigger is DocumentOpened || acts.last().trigger is DocumentScript {
        unprompted_of(acts.drop_last()).push(acts.last())
    } else {
        unprompted_of(acts.drop_last())
    }
}

/// How many of the actions grant `c`.
pub open spec fn count_granting(acts: Seq<ReachableAction>, c: Capability) -> nat
    decreases acts.len(),
{
    if acts.len() == 0 {
        0
    } else {
        count_granting(acts.drop_last(), c) + if acts.last().capability == c {
            1nat
        } else {
            0nat
        }
    }
}

/// The tally from rank `r` on: each capability some action grants, with how many, worst
/// first.
pub open spec fn tally_from(acts: Seq<ReachableAction>, r: nat) -> Seq<(Capability, nat)>
    decreases 6 - r,
{
    if r >= 6 {
        Seq::empty()
    } else if count_granting(acts, at_rank(r)) > 0 {
        seq![(at_rank(r), count_granting(acts, at_rank(r)))] + tally_from(acts, r + 1)
    } else {
        tally_from(acts, r + 1)
    }
}

/// A count is at most how many actions there are.
pub proof fn lemma_count_bounded(acts: Seq<ReachableAction>, c: Capability)
    ensures
        count_granting(acts, c) <= acts.len(),
    decreases acts.len(),
{
    if acts.len() > 0 {
        lemma_count_bounded(acts.drop_last(), c);
    }
}

/// The counts of a tally added up.
pub open spec fn tally_total(t: Seq<(Capability, nat)>) -> nat
    decreases t.len(),
{
    if t.len() == 0 {
        0
    } else {
        t[0].1 + tally_total(t.drop_first())
    }
}

/// How many of the actions grant a capability of rank `r` or worse-ranked after it.
pub open spec fn counted_from(acts: Seq<ReachableAction>, r: nat) -> nat
    decreases 6 - r,
{
    if r >= 6 {
        0
    } else {
        count_granting(acts, at_rank(r)) + counted_from(acts, r + 1)
    }
}

/// Nothing is counted among no actions.
proof fn lemma_counted_from_empty(acts: Seq<ReachableAction>, r: nat)
    requires
        acts.len() == 0,
    ensures
        counted_from(acts, r) == 0,
    decreases 6 - r,
{
    if r < 6 {
        lemma_counted_from_empty(acts, r + 1);
    }
}

/// One more action adds one to what is counted from rank `r` on, where its capability
/// ranks there.
proof fn lemma_counted_from_step(acts: Seq<ReachableAction>, r: nat)
    requires
        acts.len() > 0,
    ensures
        counted_from(acts, r) == counted_from(acts.drop_last(), r) + if r <= rank(acts.last().capability) {
            1nat
        } else {
            0nat
        },
    decreases 6 - r,
{
    if r < 6 {
        lemma_counted_from_step(acts, r + 1);
        let c = acts.last().capability;
        assert(count_granting(acts, at_rank(r)) == count_granting(acts.drop_last(), at_rank(r)) + if c == at_rank(r) {
            1nat
        } else {
            0nat
        });
        assert((c == at_rank(r)) == (rank(c) == r)) by {
            match c {
                Capability::RunsCode => {},
                Capability::LaunchesAnother => {},
                Capability::ReachesOutside => {},
                Capability::PlaysMedia => {},
                Capability::StaysInside => {},
                Capability::Undefined => {},
            }
        }
    } else {
        assert(rank(acts.last().capability) <= 5);
    }
}

/// Every action grants the capability of exactly one rank.
proof fn lemma_counted_from_all(acts: Seq<ReachableAction>)
    ensures
        counted_from(acts, 0) == acts.len(),
    decreases acts.len(),
{
    if acts.len() > 0 {
        lemma_counted_from_all(acts.drop_last());
        lemma_counted_from_step(acts, 0);
    } else {
        lemma_counted_from_empty(acts, 0);
    }
}

/// The tally from rank `r` on adds up to what is counted from there, lists ranks from
/// `r` on in increasing order, and lists no capability that nothing grants.
proof fn lemma_tally_from(acts: Seq<ReachableAction>, r: nat)
    ensures
        tally_total(tally_from(acts, r)) == counted_from(acts, r),
        forall|i: int| 0 <= i < tally_from(acts, r).len() ==> rank(#[trigger] tally_from(acts, r)[i].0) >= r
            && tally_from(acts, r)[i].1 >= 1,
        forall|i: int, j: int| 0 <= i < j < tally_from(acts, r).len() ==> rank(#[trigger] tally_from(acts, r)[i].0)
            < rank(#[trigger] tally_from(acts, r)[j].0),
    decreases 6 - r,
{
    if r < 6 {
        lemma_tally_from(acts, r + 1);
        let rest = tally_from(acts, r + 1);
        assert(rank(at_rank(r)) == r);
        if count_granting(acts, at_rank(r)) > 0 {
            let t = seq![(at_rank(r), count_granting(acts, at_rank(r)))] + rest;
            assert(t.drop_first() =~= rest);
            assert forall|i: int, j: int| 0 <= i < j < t.len() implies rank(#[trigger] t[i].0) < rank(#[trigger] t[j].0) by {
                if i > 0 {
                    assert(t[i] == rest[i - 1] && t[j] == rest[j - 1]);
                } else {
                    assert(t[j] == rest[j - 1]);
                }
            }
            assert forall|i: int| 0 <= i < t.len() implies rank(#[trigger] t[i].0) >= r && t[i].1 >= 1 by {
                if i > 0 {
                    assert(t[i] == rest[i - 1]);
                } else {
                    assert(t[0].0 == at_rank(r));
                }
            }
        }
    }
}

/// The tally of capabilities lists each capability some action grants once, worst
/// first, with how many actions grant it, and its counts add up to the number of
/// actions.
pub proof fn law_tally_adds_up(acts: Seq<ReachableAction>)
    ensures
        tally_total(tally_from(acts, 0)) == acts.len(),
        forall|i: int, j: int| 0 <= i < j < tally_from(acts, 0).len() ==> rank(#[trigger] tally_from(acts, 0)[i].0)
            < rank(#[trigger] tally_from(acts, 0)[j].0),
        forall|i: int| 0 <= i < tally_from(acts, 0).len() ==> (#[trigger] tally_from(acts, 0)[i]).1 == count_granting(
            acts,
            tally_from(acts, 0)[i].0,
        ) && tally_from(acts, 0)[i].1 >= 1,
{
    lemma_counted_from_all(acts);
    lemma_tally_from(acts, 0);
    lemma_tally_counts(acts, 0);
}

/// Each entry of the tally from rank `r` on is the count of its capability.
proof fn lemma_tally_counts(acts: Seq<ReachableAction>, r: nat)
    ensures
        forall|i: int| 0 <= i < tally_from(acts, r).len() ==> (#[trigger] tally_from(acts, r)[i]).1 == count_granting(
            acts,
            tally_from(acts, r)[i].0,
        ),
    decreases 6 - r,
{
    if r < 6 {
        lemma_tally_counts(acts, r + 1);
        let rest = tally_from(acts, r + 1);
        if count_granting(acts, at_rank(r)) > 0 {
            let t = seq![(at_rank(r), count_granting(acts, at_rank(r)))] + rest;
            assert forall|i: int| 0 <= i < t.len() implies (#[trigger] t[i]).1 == count_granting(acts, t[i].0) by {
                if i > 0 {
                    assert(t[i] == rest[i - 1]);
                }
            }
        }
    }
}

/// What fires without interaction is drawn from the actions, in their order, and each
/// of it fires when the document opens or as a document-level script.
pub proof fn law_unprompted_fire_on_their_own(acts: Seq<ReachableAction>)
    ensures
        unprompted_of(acts).len() <= acts.len(),
        forall|i: int| 0 <= i < unprompted_of(acts).len() ==> (#[trigger] unprompted_of(acts)[i]).trigger is DocumentOpened
            || unprompted_of(acts)[i].trigger is DocumentScript,
        forall|i: int| 0 <= i < unprompted_of(acts).len() ==> acts.contains(#[trigger] unprompted_of(acts)[i]),
    decreases acts.len(),
{
    if acts.len() > 0 {
        let rest = acts.drop_last();
        law_unprompted_fire_on_their_own(rest);
        assert forall|i: int| 0 <= i < unprompted_of(acts).len() implies acts.contains(#[trigger] unprompted_of(acts)[i]) by {
            if i < unprompted_of(rest).len() {
                assert(unprompted_of(acts)[i] == unprompted_of(rest)[i]);
                let k = choose|k: int| 0 <= k < rest.len() && rest[k] == unprompted_of(rest)[i];
                assert(acts[k] == rest[k]);
            } else {
                assert(acts[acts.len() - 1] == unprompted_of(acts)[i]);
            }
        }
    }
}

/// The requirements reported unmet are drawn from those declared, in their order, and
/// each is one this processor does not satisfy.
pub proof fn law_unmet_are_not_satisfied(rs: Seq<Requirement>)
    ensures
        unmet_of(rs).len() <= rs.len(),
        forall|i: int| 0 <= i < unmet_of(rs).len() ==> not_satisfied().contains((#[trigger] unmet_of(rs)[i]).requirement@),
        forall|i: int| 0 <= i < unmet_of(rs).len() ==> rs.contains(#[trigger] unmet_of(rs)[i]),
    decreases rs.len(),
{
    if rs.len() > 0 {
        let rest = rs.drop_last();
        law_unmet_are_not_satisfied(rest);
        assert forall|i: int| 0 <= i < unmet_of(rs).len() implies rs.contains(#[trigger] unmet_of(rs)[i]) by {
            if i < unmet_of(rest).len() {
                assert(unmet_of(rs)[i] == unmet_of(rest)[i]);
                let k = choose|k: int| 0 <= k < rest.len() && rest[k] == unmet_of(rest)[i];
                assert(rs[k] == rest[k]);
            } else {
                assert(rs[rs.len() - 1] == unmet_of(rs)[i]);
            }
        }
    }
}

impl ActionReport {
    /// The requirements this document declares that this processor does not satisfy:
    /// where a document asks for a subset that is not delivered, somebody has to be
    /// told.
    pub fn unmet_requirements(&self) -> (r: Vec<&Requirement>)
        ensures
            r@.len() == unmet_of(self.requirements@).len(),
            forall|i: int| 0 <= i < r@.len() ==> *r@[i] == #[trigger] unmet_of(self.requirements@)[i],
    {
        let mut out: Vec<&Requirement> = Vec::new();
        let mut i: usize = 0;
        while i < self.requirements.len()
            invariant
                i <= self.requirements@.len(),
                out@.len() == unmet_of(self.requirements@.take(i as int)).len(),
                forall|k: int| 0 <= k < out@.len() ==> *out@[k] == #[trigger] unmet_of(self.requirements@.take(i as int))[k],
            decreases self.requirements@.len() - i,
        {
            assert(self.requirements@.take(i + 1).drop_last() =~= self.requirements@.take(i as int));
            proof {
                reveal_strlit("EnableJavaScripts");
            }
            let name = self.requirements[i].requirement.as_str();
            if str_eq(name, "EnableJavaScripts") {
                assert(not_satisfied()[0] == name@);
                out.push(&self.requirements[i]);
            } else {
                assert(!not_satisfied().contains(name@)) by {
                    if not_satisfied().contains(name@) {
                        let j = choose|j: int| 0 <= j < not_satisfied().len() && not_satisfied()[j] == name@;
                    }
                }
            }
            i = i + 1;
        }
        assert(self.requirements@.take(i as int) =~= self.requirements@);
        out
    }

    /// The actions that fire with no interaction at all.
    pub fn without_interaction(&self) -> (r: Vec<&ReachableAction>)
        ensures
            r@.len() == unprompted_of(self.actions@).len(),
            forall|i: int| 0 <= i < r@.len() ==> *r@[i] == #[trigger] unprompted_of(self.actions@)[i],
    {
        let mut out: Vec<&ReachableAction> = Vec::new();
        let mut i: usize = 0;
        while i < self.actions.len()
            invariant
                i <= self.actions@.len(),
                out@.len() == unprompted_of(self.actions@.take(i as int)).len(),
                forall|k: int| 0 <= k < out@.len() ==> *out@[k] == #[trigger] unprompted_of(self.actions@.take(i as int))[k],
            decreases self.actions@.len() - i,
        {
            assert(self.actions@.take(i + 1).drop_last() =~= self.actions@.take(i as int));
            if self.actions[i].trigger.without_interaction() {
                out.push(&self.actions[i]);
            }
            i = i + 1;
        }
        assert(self.actions@.take(i as int) =~= self.actions@);
        out
    }

    /// Each capability the document has, with how many actions grant it, worst first.
    pub fn capabilities(&self) -> (r: Vec<(Capability, usize)>)
        ensures
            r@.len() == tally_from(self.actions@, 0).len(),
            forall|i: int| 0 <= i < r@.len() ==> (#[trigger] r@[i]).0 == tally_from(self.actions@, 0)[i].0
                && r@[i].1 == tally_from(self.actions@, 0)[i].1,
    {
        let mut counts: Vec<usize> = vec![0, 0, 0, 0, 0, 0];
        let mut i: usize = 0;
        while i < self.actions.len()
            invariant
                i <= self.actions@.len(),
                counts@.len() == 6,
                forall|k: int| 0 <= k < 6 ==> #[trigger] counts@[k] == count_granting(self.actions@.take(i as int), at_rank(k as nat)),
            decreases self.actions@.len() - i,
        {
            assert(self.actions@.take(i + 1).drop_last() =~= self.actions@.take(i as int));
            let r = self.actions[i].capability.rank();
            proof {
                lemma_count_bounded(self.actions@.take(i as int), self.actions@[i as int].capability);
            }
            let c = counts[r] + 1;
            counts.set(r, c);
            proof {
                assert forall|k: int| 0 <= k < 6 implies #[trigger] counts@[k] == count_granting(self.actions@.take(i + 1), at_rank(k as nat)) by {
                    if k != r {
                        assert(at_rank(k as nat) != self.actions@[i as int].capability);
                    }
                }
            }
            i = i + 1;
        }
        assert(self.actions@.take(i as int) =~= self.actions@);
        let mut out: Vec<(Capability, usize)> = Vec::new();
        let mut k: usize = 6;
        while k > 0
            invariant
                k <= 6,
                counts@.len() == 6,
                forall|m: int| 0 <= m < 6 ==> #[trigger] counts@[m] == count_granting(self.actions@, at_rank(m as nat)),
                out@.len() == tally_from(self.actions@, k as nat).len(),
                forall|m: int| 0 <= m < out@.len() ==> (#[trigger] out@[m]).0 == tally_from(self.actions@, k as nat)[out@.len() - 1 - m].0
                    && out@[m].1 == tally_from(self.actions@, k as nat)[out@.len() - 1 - m].1,
            decreases k,
        {
            k = k - 1;
            if counts[k] > 0 {
                out.push((Capability::at_rank(k), counts[k]));
            }
        }
        let mut rev: Vec<(Capability, usize)> = Vec::new();
        let mut j: usize = out.len();
        while j > 0
            invariant
                j <= out@.len(),
                rev@.len() == out@.len() - j,
                forall|m: int| 0 <= m < rev@.len() ==> #[trigger] rev@[m] == out@[out@.len() - 1 - m],
            decreases j,
        {
            j = j - 1;
            rev.push(out[j]);
        }
        rev
    }
}


/// How far a `/Next` chain, a name tree or a field tree is followed before it is taken to
/// be looping.
pub const MAX_DEPTH: usize = 64;

/// A trigger, as values: which kind (in the order [`Trigger`] declares them), the page,
/// the text it carries — a script's name, an event, a subtype — and a field's name.
pub type TriggerView = (int, int, Seq<char>, Option<Seq<char>>);

/// What an action says, as values: which kind (in the order [`Says`] declares them) and
/// the text.
pub type SaysView = Option<(int, Seq<char>)>;

/// An action, as values: its trigger, its `/S`, and what it says.
pub type ActionView = (TriggerView, Seq<char>, SaysView);

/// An optional string, seen as its characters.
pub open spec fn opt_chars(o: Option<String>) -> Option<Seq<char>> {
    match o {
        Some(s) => Some(s@),
        None => None,
    }
}

/// A trigger, as values.
pub open spec fn trigger_view(t: Trigger) -> TriggerView {
    match t {
        Trigger::DocumentOpened => (0, 0, Seq::empty(), None),
        Trigger::DocumentScript(n) => (1, 0, n@, None),
        Trigger::DocumentEvent(e) => (2, 0, e@, None),
        Trigger::PageEvent { page, event } => (3, page as int, event@, None),
        Trigger::AnnotationActivated { page, subtype } => (4, page as int, subtype@, None),
        Trigger::AnnotationEvent { page, event } => (5, page as int, event@, None),
        Trigger::FieldEvent { field, event } => (6, 0, event@, opt_chars(field)),
        Trigger::Chained => (7, 0, Seq::empty(), None),
    }
}

/// What an action says, as values.
pub open spec fn says_view(s: Option<Says>) -> SaysView {
    match s {
        Some(Says::Script(t)) => Some((0, t@)),
        Some(Says::File(t)) => Some((1, t@)),
        Some(Says::Url(t)) => Some((2, t@)),
        Some(Says::Name(t)) => Some((3, t@)),
        None => None,
    }
}

/// An action, as values.
pub open spec fn action_view(a: ReachableAction) -> ActionView {
    (trigger_view(a.trigger), a.kind@, says_view(a.says))
}

/// A list of actions, as values.
pub open spec fn actions_view(v: Seq<ReachableAction>) -> Seq<ActionView> {
    v.map_values(|a: ReachableAction| action_view(a))
}

/// Every action's capability is the one its `/S` grants.
pub open spec fn capabilities_follow_kinds(v: Seq<ReachableAction>) -> bool {
    forall|i: int| 0 <= i < v.len() ==> (#[trigger] v[i]).capability == spec_capability(v[i].kind@)
}

/// The text a string object holds, as it stands: a text string as it is, a byte string
/// as UTF-8.
pub open spec fn plain_text(o: Object) -> Option<Seq<char>> {
    match o {
        Object::String(b) => Some(utf8_lossy(b@)),
        Object::Hex(b) => Some(utf8_lossy(b@)),
        Object::Text(t) => Some(t@),
        _ => None,
    }
}

/// An action's `/S`, or `(none)` where it carries none.
pub open spec fn kind_of(arena: Arena, a: Dict) -> Seq<char> {
    match name_at_key(arena, a, "S"@) {
        Some(k) => k,
        None => "(none)"@,
    }
}

/// `/JS`, which 12.6.4.17 allows to be a string or a stream; a stream is decoded through
/// its filters and read as text. A stream filtered through `/JPXDecode` is no script:
/// that filter yields image samples, not text.
pub open spec fn script_of(arena: Arena, a: Dict) -> Option<Seq<char>> {
    match a.spec_get("JS"@) {
        None => None,
        Some(e) => match arena.spec_resolve(e) {
            Object::Stream(d, data) => if names_jpx(d, arena) {
                None
            } else {
                match spec_process(data@, d, arena, None) {
                    Some(Ok(bytes)) => Some(utf8_lossy(bytes)),
                    _ => None,
                }
            },
            other => plain_text(other),
        },
    }
}

/// A `/F` that is either a string or a file specification (7.11.3): `/UF`, then `/F`.
pub open spec fn file_of(arena: Arena, d: Dict, key: Seq<char>) -> Option<Seq<char>> {
    match d.spec_get(key) {
        None => None,
        Some(e) => match plain_text(arena.spec_resolve(e)) {
            Some(t) => Some(t),
            None => match arena.spec_dict_of(e) {
                Some(spec) => match text_at_key(arena, spec, "UF"@) {
                    Some(t) => Some(t),
                    None => text_at_key(arena, spec, "F"@),
                },
                None => None,
            },
        },
    }
}

/// The `/F` of the platform dictionary `platform` of a `/Launch`.
pub open spec fn platform_file(arena: Arena, a: Dict, platform: Seq<char>) -> Option<Seq<char>> {
    match a.spec_get(platform) {
        Some(o) => match arena.spec_dict_of(o) {
            Some(d) => text_at_key(arena, d, "F"@),
            None => None,
        },
        None => None,
    }
}

/// What a `/Launch` starts: `/F`, or the deprecated `/Win`, `/Mac` and `/Unix`
/// dictionaries' `/F`, in that order (12.6.4.6).
pub open spec fn launch_target(arena: Arena, a: Dict) -> Option<Seq<char>> {
    match file_of(arena, a, "F"@) {
        Some(t) => Some(t),
        None => match platform_file(arena, a, "Win"@) {
            Some(t) => Some(t),
            None => match platform_file(arena, a, "Mac"@) {
                Some(t) => Some(t),
                None => platform_file(arena, a, "Unix"@),
            },
        },
    }
}

/// Tags what an action says with its kind.
pub open spec fn tagged(tag: int, t: Option<Seq<char>>) -> SaysView {
    match t {
        Some(x) => Some((tag, x)),
        None => None,
    }
}

/// What an action of kind `kind` says.
pub open spec fn says_of(arena: Arena, a: Dict, kind: Seq<char>) -> SaysView {
    if kind == "JavaScript"@ {
        tagged(0, script_of(arena, a))
    } else if kind == "Launch"@ {
        tagged(1, launch_target(arena, a))
    } else if kind == "URI"@ {
        tagged(2, text_at_key(arena, a, "URI"@))
    } else if kind == "SubmitForm"@ || kind == "ImportData"@ || kind == "GoToR"@ || kind == "GoToE"@ {
        tagged(2, file_of(arena, a, "F"@))
    } else if kind == "Named"@ {
        tagged(3, name_at_key(arena, a, "N"@))
    } else {
        None
    }
}

/// The action an action dictionary records under `t`.
pub open spec fn recorded(arena: Arena, a: Dict, t: TriggerView) -> ActionView {
    (t, kind_of(arena, a), says_of(arena, a, kind_of(arena, a)))
}

/// The dictionaries among `items`.
pub open spec fn dicts_in(arena: Arena, items: Seq<Object>) -> Seq<Dict>
    decreases items.len(),
{
    if items.len() == 0 {
        Seq::empty()
    } else {
        match arena.spec_dict_of(items.last()) {
            Some(d) => dicts_in(arena, items.drop_last()).push(d),
            None => dicts_in(arena, items.drop_last()),
        }
    }
}

/// The action dictionaries a `/Next` entry names: one, or an array of them (12.6.1).
pub open spec fn chained(arena: Arena, e: Object) -> Seq<Dict> {
    match arena.spec_resolve(e) {
        Object::Array(items) => dicts_in(arena, items@),
        _ => match arena.spec_dict_of(e) {
            Some(d) => seq![d],
            None => Seq::empty(),
        },
    }
}

/// The chained trigger.
pub open spec fn chained_view() -> TriggerView {
    (7, 0, Seq::empty(), None)
}

/// The actions a `/Next` chain records, followed `steps` links at most: each link's
/// actions, then the chain from the last one's `/Next`.
pub open spec fn chain(arena: Arena, next: Option<Object>, steps: nat) -> Seq<ActionView>
    decreases steps,
{
    if steps == 0 {
        Seq::empty()
    } else {
        match next {
            None => Seq::empty(),
            Some(e) => {
                let ds = chained(arena, e);
                let here = ds.map_values(|d: Dict| recorded(arena, d, chained_view()));
                let further = if ds.len() > 0 { ds.last().spec_get("Next"@) } else { None };
                here + chain(arena, further, (steps - 1) as nat)
            },
        }
    }
}

/// What one object in an action position contributes: its action and its chain, or one
/// unreadable object when it is neither an action nor a destination array.
pub open spec fn take_spec(arena: Arena, entry: Option<Object>, t: TriggerView) -> (Seq<ActionView>, nat) {
    match entry {
        None => (Seq::empty(), 0),
        Some(e) => match arena.spec_dict_of(e) {
            None => (Seq::empty(), if arena.spec_resolve(e) is Array { 0nat } else { 1nat }),
            Some(a) => (seq![recorded(arena, a, t)] + chain(arena, a.spec_get("Next"@), MAX_DEPTH as nat), 0),
        },
    }
}

/// `n` held to what a `usize` can count.
pub open spec fn capped(n: int) -> int {
    if n > usize::MAX {
        usize::MAX as int
    } else {
        n
    }
}

/// The text a string object holds, as it stands.
fn plain_text_of(o: &Object) -> (r: Option<String>)
    ensures
        opt_chars(r) == plain_text(*o),
{
    match o {
        Object::String(b) => Some(lossy_text(b.as_slice())),
        Object::Hex(b) => Some(lossy_text(b.as_slice())),
        Object::Text(t) => Some(text(t.as_str())),
        _ => None,
    }
}

/// The name `key` of `d` holds.
fn name_at(arena: &Arena, d: &Dict, key: &str) -> (r: Option<String>)
    ensures
        opt_chars(r) == name_at_key(*arena, *d, key@),
{
    match d.get(key) {
        Some(o) => match arena.name_of(o) {
            Some(n) => Some(text(n.as_str())),
            None => None,
        },
        None => None,
    }
}

/// The text `key` of `d` holds.
fn text_at(arena: &Arena, d: &Dict, key: &str) -> (r: Option<String>)
    ensures
        opt_chars(r) == text_at_key(*arena, *d, key@),
{
    match d.get(key) {
        Some(o) => text_value(arena, o),
        None => None,
    }
}

/// An action's `/S`, or `(none)`.
fn action_kind(arena: &Arena, a: &Dict) -> (r: String)
    ensures
        r@ == kind_of(*arena, *a),
{
    match name_at(arena, a, "S") {
        Some(k) => k,
        None => text("(none)"),
    }
}

/// `/JS`.
fn script(arena: &Arena, a: &Dict) -> (r: Option<String>)
    ensures
        opt_chars(r) == script_of(*arena, *a),
{
    match a.get("JS") {
        None => None,
        Some(e) => match arena.resolve(e) {
            Object::Stream(d, data) => if filters_name_jpx(d, arena) {
                None
            } else {
                proof {
                    lemma_known_without_jpx(data@, *d, *arena);
                }
                match process_filters(data.as_slice(), d, arena, None) {
                    Ok(bytes) => Some(lossy_text(bytes.as_slice())),
                    Err(_) => None,
                }
            },
            other => plain_text_of(other),
        },
    }
}

/// A `/F` that is a string or a file specification.
fn file_named(arena: &Arena, d: &Dict, key: &str) -> (r: Option<String>)
    ensures
        opt_chars(r) == file_of(*arena, *d, key@),
{
    let e = match d.get(key) {
        Some(e) => e,
        None => return None,
    };
    if let Some(t) = plain_text_of(arena.resolve(e)) {
        return Some(t);
    }
    match arena.dict_of(e) {
        Some(spec) => match text_at(arena, spec, "UF") {
            Some(t) => Some(t),
            None => text_at(arena, spec, "F"),
        },
        None => None,
    }
}

/// The `/F` of a platform dictionary.
fn platform_named(arena: &Arena, a: &Dict, platform: &str) -> (r: Option<String>)
    ensures
        opt_chars(r) == platform_file(*arena, *a, platform@),
{
    match a.get(platform) {
        Some(o) => match arena.dict_of(o) {
            Some(d) => text_at(arena, d, "F"),
            None => None,
        },
        None => None,
    }
}

/// What a `/Launch` starts.
fn launched(arena: &Arena, a: &Dict) -> (r: Option<String>)
    ensures
        opt_chars(r) == launch_target(*arena, *a),
{
    if let Some(t) = file_named(arena, a, "F") {
        return Some(t);
    }
    if let Some(t) = platform_named(arena, a, "Win") {
        return Some(t);
    }
    if let Some(t) = platform_named(arena, a, "Mac") {
        return Some(t);
    }
    platform_named(arena, a, "Unix")
}

/// What an action of kind `kind` says.
fn what_it_says(arena: &Arena, a: &Dict, kind: &str) -> (r: Option<Says>)
    ensures
        says_view(r) == says_of(*arena, *a, kind@),
{
    if str_eq(kind, "JavaScript") {
        match script(arena, a) {
            Some(t) => Some(Says::Script(t)),
            None => None,
        }
    } else if str_eq(kind, "Launch") {
        match launched(arena, a) {
            Some(t) => Some(Says::File(t)),
            None => None,
        }
    } else if str_eq(kind, "URI") {
        match text_at(arena, a, "URI") {
            Some(t) => Some(Says::Url(t)),
            None => None,
        }
    } else if str_eq(kind, "SubmitForm") || str_eq(kind, "ImportData") || str_eq(kind, "GoToR") || str_eq(kind, "GoToE") {
        match file_named(arena, a, "F") {
            Some(t) => Some(Says::Url(t)),
            None => None,
        }
    } else if str_eq(kind, "Named") {
        match name_at(arena, a, "N") {
            Some(t) => Some(Says::Name(t)),
            None => None,
        }
    } else {
        None
    }
}

/// The action dictionaries a `/Next` entry names.
fn chained_actions<'a>(arena: &'a Arena, e: &'a Object) -> (r: Vec<&'a Dict>)
    ensures
        r@.len() == chained(*arena, *e).len(),
        forall|i: int| 0 <= i < r@.len() ==> *r@[i] == #[trigger] chained(*arena, *e)[i],
{
    let mut out: Vec<&'a Dict> = Vec::new();
    match arena.resolve(e) {
        Object::Array(items) => {
            let mut i: usize = 0;
            while i < items.len()
                invariant
                    i <= items@.len(),
                    out@.len() == dicts_in(*arena, items@.take(i as int)).len(),
                    forall|k: int| 0 <= k < out@.len() ==> *out@[k] == #[trigger] dicts_in(*arena, items@.take(i as int))[k],
                decreases items@.len() - i,
            {
                assert(items@.take(i + 1).drop_last() =~= items@.take(i as int));
                if let Some(d) = arena.dict_of(&items[i]) {
                    out.push(d);
                }
                i = i + 1;
            }
            assert(items@.take(i as int) =~= items@);
        },
        _ => {
            if let Some(d) = arena.dict_of(e) {
                out.push(d);
            }
        },
    }
    out
}

impl ActionReport {
    /// An empty report.
    pub fn new() -> (r: Self)
        ensures
            r.actions@.len() == 0,
            r.requirements@.len() == 0,
            r.unreadable == 0,
    {
        ActionReport { actions: Vec::new(), requirements: Vec::new(), unreadable: 0 }
    }

    /// Records one action dictionary.
    fn push(&mut self, arena: &Arena, action: &Dict, trigger: Trigger)
        requires
            capabilities_follow_kinds(old(self).actions@),
        ensures
            actions_view(final(self).actions@) == actions_view(old(self).actions@).push(
                recorded(*arena, *action, trigger_view(trigger)),
            ),
            capabilities_follow_kinds(final(self).actions@),
            final(self).unreadable == old(self).unreadable,
            final(self).requirements == old(self).requirements,
    {
        let kind = action_kind(arena, action);
        let capability = Capability::of(kind.as_str());
        let says = what_it_says(arena, action, kind.as_str());
        let ghost before = self.actions@;
        self.actions.push(ReachableAction { trigger, kind, capability, says });
        assert(actions_view(self.actions@) =~= actions_view(before).push(recorded(*arena, *action, trigger_view(trigger))));
    }

    /// Reads one object in an action position, following its `/Next` chain.
    fn take(&mut self, arena: &Arena, entry: Option<&Object>, trigger: Trigger)
        requires
            capabilities_follow_kinds(old(self).actions@),
        ensures
            actions_view(final(self).actions@) == actions_view(old(self).actions@) + take_spec(
                *arena,
                match entry { Some(e) => Some(*e), None => None },
                trigger_view(trigger),
            ).0,
            final(self).unreadable == capped(old(self).unreadable + take_spec(
                *arena,
                match entry { Some(e) => Some(*e), None => None },
                trigger_view(trigger),
            ).1),
            capabilities_follow_kinds(final(self).actions@),
            final(self).requirements == old(self).requirements,
    {
        let ghost start = actions_view(self.actions@);
        let e = match entry {
            Some(e) => e,
            None => {
                assert(actions_view(self.actions@) =~= start + Seq::<ActionView>::empty());
                return;
            },
        };
        let action = match arena.dict_of(e) {
            Some(a) => a,
            None => {
                if let Object::Array(_) = arena.resolve(e) {
                } else {
                    self.unreadable = self.unreadable.saturating_add(1);
                }
                assert(actions_view(self.actions@) =~= start + Seq::<ActionView>::empty());
                return;
            },
        };
        let ghost t = trigger_view(trigger);
        self.push(arena, action, trigger);
        let mut next: Option<&Object> = action.get("Next");
        let mut steps: usize = 0;
        assert(actions_view(self.actions@) =~= start + seq![recorded(*arena, *action, t)]);
        while steps < MAX_DEPTH
            invariant
                steps <= MAX_DEPTH,
                capabilities_follow_kinds(self.actions@),
                self.unreadable == old(self).unreadable,
                self.requirements == old(self).requirements,
                actions_view(self.actions@) + chain(
                    *arena,
                    match next { Some(x) => Some(*x), None => None },
                    (MAX_DEPTH - steps) as nat,
                ) == start + take_spec(*arena, Some(*e), t).0,
            ensures
                next is None || steps == MAX_DEPTH,
                actions_view(self.actions@) + chain(
                    *arena,
                    match next { Some(x) => Some(*x), None => None },
                    (MAX_DEPTH - steps) as nat,
                ) == start + take_spec(*arena, Some(*e), t).0,
                capabilities_follow_kinds(self.actions@),
                self.unreadable == old(self).unreadable,
                self.requirements == old(self).requirements,
            decreases MAX_DEPTH - steps,
        {
            let link = match next {
                Some(x) => x,
                None => break,
            };
            let ds = chained_actions(arena, link);
            let ghost here = chained(*arena, *link);
            let ghost before = actions_view(self.actions@);
            let mut further: Option<&Object> = None;
            let mut k: usize = 0;
            while k < ds.len()
                invariant
                    k <= ds@.len(),
                    ds@.len() == here.len(),
                    forall|i: int| 0 <= i < ds@.len() ==> *ds@[i] == #[trigger] here[i],
                    capabilities_follow_kinds(self.actions@),
                    self.unreadable == old(self).unreadable,
                    self.requirements == old(self).requirements,
                    actions_view(self.actions@) == before + here.take(k as int).map_values(
                        |d: Dict| recorded(*arena, d, chained_view()),
                    ),
                    k > 0 ==> match further { Some(x) => Some(*x), None => None } == here[k - 1].spec_get("Next"@),
                    k == 0 ==> further is None,
                decreases ds@.len() - k,
            {
                self.push(arena, ds[k], Trigger::Chained);
                further = ds[k].get("Next");
                assert(here.take(k + 1).map_values(|d: Dict| recorded(*arena, d, chained_view())) =~= here.take(
                    k as int,
                ).map_values(|d: Dict| recorded(*arena, d, chained_view())).push(recorded(*arena, here[k as int], chained_view())));
                k = k + 1;
            }
            assert(here.take(k as int) =~= here);
            next = further;
            steps = steps + 1;
        }
        assert(actions_view(self.actions@) =~= start + take_spec(*arena, Some(*e), t).0) by {
            assert(actions_view(self.actions@) + Seq::<ActionView>::empty() =~= actions_view(self.actions@));
        }
    }
}


/// Where a set of `/AA` events hangs, as values: which trigger kind its events make, the
/// page, and the field's name.
pub type EventTemplate = (int, int, Option<Seq<char>>);

/// The trigger an event of `/AA` makes.
pub open spec fn event_trigger(t: EventTemplate, event: Seq<char>) -> TriggerView {
    (t.0, t.1, event, t.2)
}

/// Two contributions, one after the other.
pub open spec fn then(a: (Seq<ActionView>, nat), b: (Seq<ActionView>, nat)) -> (Seq<ActionView>, nat) {
    (a.0 + b.0, a.1 + b.1)
}

/// What the entries `es` of an `/AA` dictionary contribute, in the order written.
pub open spec fn aa_entries(arena: Arena, es: Seq<(String, Object)>, t: EventTemplate) -> (Seq<ActionView>, nat)
    decreases es.len(),
{
    if es.len() == 0 {
        (Seq::empty(), 0)
    } else {
        then(aa_entries(arena, es.drop_last(), t), take_spec(arena, Some(es.last().1), event_trigger(t, es.last().0@)))
    }
}

/// What a dictionary's `/AA` contributes (12.6.3).
pub open spec fn aa_spec(arena: Arena, d: Dict, t: EventTemplate) -> (Seq<ActionView>, nat) {
    match d.spec_get("AA"@) {
        Some(o) => match arena.spec_dict_of(o) {
            Some(aa) => aa_entries(arena, aa.entries@, t),
            None => (Seq::empty(), 0),
        },
        None => (Seq::empty(), 0),
    }
}

/// Where the events of `/AA` hang.
enum EventSource {
    /// The catalogue.
    Document,
    /// A page, by index.
    Page(usize),
    /// An annotation on a page, by the page's index.
    Annotation(usize),
    /// A form field, by its `/T`.
    Field(Option<String>),
}

/// A source's events, as values.
spec fn template(s: EventSource) -> EventTemplate {
    match s {
        EventSource::Document => (2, 0, None),
        EventSource::Page(p) => (3, p as int, None),
        EventSource::Annotation(p) => (5, p as int, None),
        EventSource::Field(f) => (6, 0, opt_chars(f)),
    }
}

/// The trigger an event of `source` makes.
fn event_of(source: &EventSource, event: String) -> (t: Trigger)
    ensures
        trigger_view(t) == event_trigger(template(*source), event@),
{
    match source {
        EventSource::Document => Trigger::DocumentEvent(event),
        EventSource::Page(p) => Trigger::PageEvent { page: *p, event },
        EventSource::Annotation(p) => Trigger::AnnotationEvent { page: *p, event },
        EventSource::Field(f) => Trigger::FieldEvent {
            field: match f {
                Some(n) => Some(text(n.as_str())),
                None => None,
            },
            event,
        },
    }
}

/// The `(name, value)` pairs among the first `n` complete pairs of a `/Names` array: a
/// key that is not text named by the empty string.
pub open spec fn named_values(arena: Arena, names: Seq<Object>, n: int) -> Seq<(Seq<char>, Object)>
    decreases n,
{
    if n <= 0 {
        Seq::empty()
    } else {
        let key = match plain_text(arena.spec_resolve(names[2 * (n - 1)])) {
            Some(t) => t,
            None => Seq::empty(),
        };
        named_values(arena, names, n - 1).push((key, names[2 * (n - 1) + 1]))
    }
}

/// The array `key` of `d` names, or none.
pub open spec fn items_at(arena: Arena, d: Dict, key: Seq<char>) -> Seq<Object> {
    match d.spec_get(key) {
        Some(o) => match arena.spec_array_of(o) {
            Some(items) => items,
            None => Seq::empty(),
        },
        None => Seq::empty(),
    }
}

/// Every `(name, value)` a name tree holds below `node` (7.9.6), in the order a worklist
/// visits it: a node's own names, then each kid's from the last to the first, kids
/// followed no deeper than [`MAX_DEPTH`].
pub open spec fn tree_entries(arena: Arena, node: Dict, depth: nat) -> Seq<(Seq<char>, Object)>
    decreases 64 - depth, 0int,
{
    let names = items_at(arena, node, "Names"@);
    let own = named_values(arena, names, (names.len() / 2) as int);
    if depth >= 64 {
        own
    } else {
        let kids = items_at(arena, node, "Kids"@);
        own + kids_entries(arena, kids, kids.len() as int, depth + 1)
    }
}

/// The entries below the first `n` kids that are dictionaries, the last kid first.
pub open spec fn kids_entries(arena: Arena, kids: Seq<Object>, n: int, depth: nat) -> Seq<(Seq<char>, Object)>
    decreases 64 - depth, n + 1,
{
    if n <= 0 || n > kids.len() {
        Seq::empty()
    } else {
        let here = match arena.spec_dict_of(kids[n - 1]) {
            Some(d) => tree_entries(arena, d, depth),
            None => Seq::empty(),
        };
        here + kids_entries(arena, kids, n - 1, depth)
    }
}

/// What the scripts of a name tree contribute, each under its name.
pub open spec fn scripts_of(arena: Arena, es: Seq<(Seq<char>, Object)>) -> (Seq<ActionView>, nat)
    decreases es.len(),
{
    if es.len() == 0 {
        (Seq::empty(), 0)
    } else {
        then(scripts_of(arena, es.drop_last()), take_spec(arena, Some(es.last().1), (1, 0, es.last().0, None)))
    }
}

/// The `/Names /JavaScript` tree of a catalogue, whose scripts run when the file opens
/// (12.6.4.17).
pub open spec fn document_scripts(arena: Arena, catalog: Dict) -> (Seq<ActionView>, nat) {
    match catalog.spec_get("Names"@) {
        Some(n) => match arena.spec_dict_of(n) {
            Some(names) => match names.spec_get("JavaScript"@) {
                Some(t) => match arena.spec_dict_of(t) {
                    Some(root) => scripts_of(arena, tree_entries(arena, root, 0)),
                    None => (Seq::empty(), 0),
                },
                None => (Seq::empty(), 0),
            },
            None => (Seq::empty(), 0),
        },
        None => (Seq::empty(), 0),
    }
}

/// The dictionary object `h` is.
pub open spec fn page_dict(arena: Arena, h: u32) -> Option<Dict> {
    if (h as int) < arena.objects@.len() {
        arena.spec_dict_of(arena.objects@[h as int])
    } else {
        None
    }
}

/// What one annotation on page `p` contributes: its `/A`, then its `/AA`.
pub open spec fn annotation_spec(arena: Arena, item: Object, p: int) -> (Seq<ActionView>, nat) {
    match arena.spec_dict_of(item) {
        None => (Seq::empty(), 0),
        Some(an) => {
            let subtype = match name_at_key(arena, an, "Subtype"@) {
                Some(s) => s,
                None => "(no /Subtype)"@,
            };
            then(take_spec(arena, an.spec_get("A"@), (4, p, subtype, None)), aa_spec(arena, an, (5, p, None)))
        },
    }
}

/// What the first `n` annotations of page `p` contribute.
pub open spec fn annotations_spec(arena: Arena, items: Seq<Object>, n: int, p: int) -> (Seq<ActionView>, nat)
    decreases n,
{
    if n <= 0 || n > items.len() {
        (Seq::empty(), 0)
    } else {
        then(annotations_spec(arena, items, n - 1, p), annotation_spec(arena, items[n - 1], p))
    }
}

/// What page `p`, object `h`, contributes: its `/AA`, then its annotations'.
pub open spec fn page_spec(arena: Arena, h: u32, p: int) -> (Seq<ActionView>, nat) {
    match page_dict(arena, h) {
        None => (Seq::empty(), 0),
        Some(d) => {
            let annots = items_at(arena, d, "Annots"@);
            then(aa_spec(arena, d, (3, p, None)), annotations_spec(arena, annots, annots.len() as int, p))
        },
    }
}

/// What the first `n` pages contribute.
pub open spec fn pages_spec(arena: Arena, pages: Seq<u32>, n: int) -> (Seq<ActionView>, nat)
    decreases n,
{
    if n <= 0 || n > pages.len() {
        (Seq::empty(), 0)
    } else {
        then(pages_spec(arena, pages, n - 1), page_spec(arena, pages[n - 1], n - 1))
    }
}

/// What a form field contributes, and the fields below it (12.7.5.3): its own `/AA`, then
/// its kids from the last to the first, kids followed no deeper than [`MAX_DEPTH`].
pub open spec fn field_spec(arena: Arena, entry: Object, depth: nat) -> (Seq<ActionView>, nat)
    decreases 64 - depth, 0int,
{
    match arena.spec_dict_of(entry) {
        None => (Seq::empty(), 0),
        Some(f) => {
            let own = aa_spec(arena, f, (6, 0, text_at_key(arena, f, "T"@)));
            if depth < 64 {
                let kids = items_at(arena, f, "Kids"@);
                then(own, fields_spec(arena, kids, kids.len() as int, depth + 1))
            } else {
                own
            }
        },
    }
}

/// What the first `n` fields of a list contribute, the last first.
pub open spec fn fields_spec(arena: Arena, items: Seq<Object>, n: int, depth: nat) -> (Seq<ActionView>, nat)
    decreases 64 - depth, n + 1,
{
    if n <= 0 || n > items.len() {
        (Seq::empty(), 0)
    } else {
        then(field_spec(arena, items[n - 1], depth), fields_spec(arena, items, n - 1, depth))
    }
}

/// What a catalogue's form fields contribute.
pub open spec fn form_spec(arena: Arena, catalog: Dict) -> (Seq<ActionView>, nat) {
    match catalog.spec_get("AcroForm"@) {
        Some(o) => match arena.spec_dict_of(o) {
            Some(form) => {
                let fields = items_at(arena, form, "Fields"@);
                fields_spec(arena, fields, fields.len() as int, 0)
            },
            None => (Seq::empty(), 0),
        },
        None => (Seq::empty(), 0),
    }
}

/// The names of the requirement dictionaries among the first `n` items, or `None` when
/// one is not a dictionary naming its `/S`.
pub open spec fn requirement_names(arena: Arena, items: Seq<Object>, n: int) -> Option<Seq<Seq<char>>>
    decreases n,
{
    if n <= 0 || n > items.len() {
        Some(Seq::empty())
    } else {
        match requirement_names(arena, items, n - 1) {
            None => None,
            Some(rest) => match arena.spec_dict_of(items[n - 1]) {
                Some(d) => match name_at_key(arena, d, "S"@) {
                    Some(s) => Some(rest.push(s)),
                    None => None,
                },
                None => None,
            },
        }
    }
}

/// What a catalogue declares a processor must support (12.11): the `/S` of each
/// requirement dictionary of `/Requirements`, or nothing when the entry will not read.
pub open spec fn declared_requirements(arena: Arena, catalog: Dict) -> Seq<Seq<char>> {
    match catalog.spec_get("Requirements"@) {
        Some(o) => match arena.spec_array_of(o) {
            Some(items) => match requirement_names(arena, items, items.len() as int) {
                Some(ns) => ns,
                None => Seq::empty(),
            },
            None => Seq::empty(),
        },
        None => Seq::empty(),
    }
}

/// Everything a document's actions contribute, walked from its catalogue: `/OpenAction`,
/// the catalogue's `/AA`, the document scripts, each page and its annotations, and the
/// form fields.
pub open spec fn walk(arena: Arena, catalog: Dict, pages: Seq<u32>) -> (Seq<ActionView>, nat) {
    then(
        then(
            then(
                then(take_spec(arena, catalog.spec_get("OpenAction"@), (0, 0, Seq::empty(), None)), aa_spec(arena, catalog, (2, 0, None))),
                document_scripts(arena, catalog),
            ),
            pages_spec(arena, pages, pages.len() as int),
        ),
        form_spec(arena, catalog),
    )
}

/// Requirements, as their names.
pub open spec fn requirements_view(v: Seq<Requirement>) -> Seq<Seq<char>> {
    v.map_values(|r: Requirement| r.requirement@)
}

/// Collects the `(name, value)` pairs of a name tree below `node`.
fn name_tree_entries<'a>(arena: &'a Arena, node: &'a Dict, depth: usize, out: &mut Vec<(String, &'a Object)>)
    ensures
        final(out)@.map_values(|e: (String, &'a Object)| (e.0@, *e.1)) == old(out)@.map_values(
            |e: (String, &'a Object)| (e.0@, *e.1),
        ) + tree_entries(*arena, *node, depth as nat),
    decreases MAX_DEPTH - depth,
{
    let ghost start = out@.map_values(|e: (String, &'a Object)| (e.0@, *e.1));
    let ghost own_names = items_at(*arena, *node, "Names"@);
    let names_found: Option<&'a Vec<Object>> = match node.get("Names") {
        Some(o) => arena.array_of(o),
        None => None,
    };
    if let Some(names) = names_found {
        assert(names@ == own_names);
        let len = names.len();
        let count = len / 2;
        let mut k: usize = 0;
        while k < count
            invariant
                k <= count,
                len == names@.len(),
                count == names@.len() / 2,
                out@.map_values(|e: (String, &'a Object)| (e.0@, *e.1)) == start + named_values(*arena, names@, k as int),
            decreases count - k,
        {
            assert(2 * k + 1 < names@.len()) by (nonlinear_arith)
                requires
                    k < count,
                    count == names@.len() / 2,
            ;
            let at = 2 * k;
            let key = match plain_text_of(arena.resolve(&names[at])) {
                Some(t) => t,
                None => String::new(),
            };
            let ghost before = out@;
            out.push((key, &names[at + 1]));
            assert(out@.map_values(|e: (String, &'a Object)| (e.0@, *e.1)) =~= before.map_values(
                |e: (String, &'a Object)| (e.0@, *e.1),
            ).push((key@, names@[at + 1])));
            k = k + 1;
        }
    } else {
        assert(own_names.len() == 0);
        assert(out@.map_values(|e: (String, &'a Object)| (e.0@, *e.1)) =~= start + named_values(*arena, own_names, (own_names.len() / 2) as int));
    }
    if depth >= MAX_DEPTH {
        return;
    }
    let ghost after_own = out@.map_values(|e: (String, &'a Object)| (e.0@, *e.1));
    let ghost all_kids = items_at(*arena, *node, "Kids"@);
    let kids_found: Option<&'a Vec<Object>> = match node.get("Kids") {
        Some(o) => arena.array_of(o),
        None => None,
    };
    if let Some(kids) = kids_found {
        assert(kids@ == all_kids);
        let mut i: usize = kids.len();
        assert(after_own =~= after_own + Seq::<(Seq<char>, Object)>::empty());
        while i > 0
            invariant
                i <= kids@.len(),
                depth < MAX_DEPTH,
                out@.map_values(|e: (String, &'a Object)| (e.0@, *e.1)) + kids_entries(*arena, kids@, i as int, (depth + 1) as nat)
                    == after_own + kids_entries(*arena, kids@, kids@.len() as int, (depth + 1) as nat),
            decreases i,
        {
            i = i - 1;
            let ghost mid = out@.map_values(|e: (String, &'a Object)| (e.0@, *e.1));
            if let Some(d) = arena.dict_of(&kids[i]) {
                name_tree_entries(arena, d, depth + 1, out);
            }
            assert(mid + kids_entries(*arena, kids@, i + 1, (depth + 1) as nat) =~= out@.map_values(
                |e: (String, &'a Object)| (e.0@, *e.1),
            ) + kids_entries(*arena, kids@, i as int, (depth + 1) as nat));
        }
        assert(out@.map_values(|e: (String, &'a Object)| (e.0@, *e.1)) =~= out@.map_values(|e: (String, &'a Object)| (e.0@, *e.1)) + kids_entries(*arena, kids@, 0, (depth + 1) as nat));
    } else {
        assert(all_kids.len() == 0);
        assert(out@.map_values(|e: (String, &'a Object)| (e.0@, *e.1)) =~= after_own + kids_entries(*arena, all_kids, all_kids.len() as int, (depth + 1) as nat));
    }
}


/// Counting past what a `usize` holds and holding the count there commute.
proof fn lemma_capped_add(a: int, b: int)
    requires
        a >= 0,
        b >= 0,
    ensures
        capped(capped(a) + b) == capped(a + b),
{
}

impl ActionReport {
    /// Every entry of a dictionary's `/AA` (12.6.3), in the order written.
    fn take_additional_actions(&mut self, arena: &Arena, d: &Dict, source: &EventSource)
        requires
            capabilities_follow_kinds(old(self).actions@),
        ensures
            actions_view(final(self).actions@) == actions_view(old(self).actions@) + aa_spec(*arena, *d, template(*source)).0,
            final(self).unreadable == capped(old(self).unreadable + aa_spec(*arena, *d, template(*source)).1),
            capabilities_follow_kinds(final(self).actions@),
            final(self).requirements == old(self).requirements,
    {
        let ghost start = actions_view(self.actions@);
        let ghost u0 = self.unreadable as int;
        let ghost t = template(*source);
        let aa = match d.get("AA") {
            Some(o) => match arena.dict_of(o) {
                Some(aa) => aa,
                None => {
                    assert(actions_view(self.actions@) =~= start + Seq::<ActionView>::empty());
                    return;
                },
            },
            None => {
                assert(actions_view(self.actions@) =~= start + Seq::<ActionView>::empty());
                return;
            },
        };
        let mut j: usize = 0;
        assert(actions_view(self.actions@) =~= start + aa_entries(*arena, aa.entries@.take(0), t).0);
        while j < aa.entries.len()
            invariant
                j <= aa.entries@.len(),
                u0 >= 0,
                t == template(*source),
                capabilities_follow_kinds(self.actions@),
                self.requirements == old(self).requirements,
                actions_view(self.actions@) == start + aa_entries(*arena, aa.entries@.take(j as int), t).0,
                self.unreadable == capped(u0 + aa_entries(*arena, aa.entries@.take(j as int), t).1),
            decreases aa.entries@.len() - j,
        {
            let ghost pre = aa.entries@.take(j as int);
            assert(aa.entries@.take(j + 1).drop_last() =~= pre);
            assert(aa.entries@.take(j + 1).last() == aa.entries@[j as int]);
            let event = text(aa.entries[j].0.as_str());
            let trigger = event_of(source, event);
            let ghost x = take_spec(*arena, Some(aa.entries@[j as int].1), event_trigger(t, aa.entries@[j as int].0@));
            self.take(arena, Some(&aa.entries[j].1), trigger);
            proof {
                lemma_capped_add(u0 + aa_entries(*arena, pre, t).1, x.1 as int);
            }
            assert(actions_view(self.actions@) =~= start + aa_entries(*arena, aa.entries@.take(j + 1), t).0);
            j = j + 1;
        }
        assert(aa.entries@.take(j as int) =~= aa.entries@);
    }

    /// The scripts of the `/Names /JavaScript` tree, which run when the file opens.
    fn take_document_scripts(&mut self, arena: &Arena, catalog: &Dict)
        requires
            capabilities_follow_kinds(old(self).actions@),
        ensures
            actions_view(final(self).actions@) == actions_view(old(self).actions@) + document_scripts(*arena, *catalog).0,
            final(self).unreadable == capped(old(self).unreadable + document_scripts(*arena, *catalog).1),
            capabilities_follow_kinds(final(self).actions@),
            final(self).requirements == old(self).requirements,
    {
        let ghost start = actions_view(self.actions@);
        let ghost u0 = self.unreadable as int;
        let root = match catalog.get("Names") {
            Some(n) => match arena.dict_of(n) {
                Some(names) => match names.get("JavaScript") {
                    Some(t) => arena.dict_of(t),
                    None => None,
                },
                None => None,
            },
            None => None,
        };
        let root = match root {
            Some(r) => r,
            None => {
                assert(actions_view(self.actions@) =~= start + Seq::<ActionView>::empty());
                return;
            },
        };
        let mut entries: Vec<(String, &Object)> = Vec::new();
        name_tree_entries(arena, root, 0, &mut entries);
        let ghost es = entries@.map_values(|e: (String, &Object)| (e.0@, *e.1));
        assert(es =~= tree_entries(*arena, *root, 0));
        let mut i: usize = 0;
        assert(actions_view(self.actions@) =~= start + scripts_of(*arena, es.take(0)).0);
        while i < entries.len()
            invariant
                i <= entries@.len(),
                u0 >= 0,
                es == entries@.map_values(|e: (String, &Object)| (e.0@, *e.1)),
                capabilities_follow_kinds(self.actions@),
                self.requirements == old(self).requirements,
                actions_view(self.actions@) == start + scripts_of(*arena, es.take(i as int)).0,
                self.unreadable == capped(u0 + scripts_of(*arena, es.take(i as int)).1),
            decreases entries@.len() - i,
        {
            let ghost pre = es.take(i as int);
            assert(es.take(i + 1).drop_last() =~= pre);
            assert(es.take(i + 1).last() == es[i as int]);
            let name = text(entries[i].0.as_str());
            let ghost x = take_spec(*arena, Some(*entries@[i as int].1), (1, 0, name@, None));
            self.take(arena, Some(entries[i].1), Trigger::DocumentScript(name));
            proof {
                lemma_capped_add(u0 + scripts_of(*arena, pre).1, x.1 as int);
            }
            assert(actions_view(self.actions@) =~= start + scripts_of(*arena, es.take(i + 1)).0);
            i = i + 1;
        }
        assert(es.take(i as int) =~= es);
    }

    /// One annotation's `/A` and `/AA`.
    fn take_annotation(&mut self, arena: &Arena, item: &Object, page: usize)
        requires
            capabilities_follow_kinds(old(self).actions@),
        ensures
            actions_view(final(self).actions@) == actions_view(old(self).actions@) + annotation_spec(*arena, *item, page as int).0,
            final(self).unreadable == capped(old(self).unreadable + annotation_spec(*arena, *item, page as int).1),
            capabilities_follow_kinds(final(self).actions@),
            final(self).requirements == old(self).requirements,
    {
        let ghost start = actions_view(self.actions@);
        let ghost u0 = self.unreadable as int;
        let an = match arena.dict_of(item) {
            Some(an) => an,
            None => {
                assert(actions_view(self.actions@) =~= start + Seq::<ActionView>::empty());
                return;
            },
        };
        let subtype = match name_at(arena, an, "Subtype") {
            Some(s) => s,
            None => text("(no /Subtype)"),
        };
        let ghost x = take_spec(*arena, an.spec_get("A"@), (4, page as int, subtype@, None));
        self.take(arena, an.get("A"), Trigger::AnnotationActivated { page, subtype });
        let ghost mid = actions_view(self.actions@);
        self.take_additional_actions(arena, an, &EventSource::Annotation(page));
        proof {
            lemma_capped_add(u0 + x.1, aa_spec(*arena, *an, (5, page as int, None)).1 as int);
        }
        assert(actions_view(self.actions@) =~= start + annotation_spec(*arena, *item, page as int).0);
    }

    /// Each page's `/AA`, and each of its annotations' `/A` and `/AA`.
    fn take_pages(&mut self, arena: &Arena, pages: &Vec<u32>)
        requires
            capabilities_follow_kinds(old(self).actions@),
        ensures
            actions_view(final(self).actions@) == actions_view(old(self).actions@) + pages_spec(*arena, pages@, pages@.len() as int).0,
            final(self).unreadable == capped(old(self).unreadable + pages_spec(*arena, pages@, pages@.len() as int).1),
            capabilities_follow_kinds(final(self).actions@),
            final(self).requirements == old(self).requirements,
    {
        let ghost start = actions_view(self.actions@);
        let ghost u0 = self.unreadable as int;
        let mut p: usize = 0;
        assert(actions_view(self.actions@) =~= start + pages_spec(*arena, pages@, 0).0);
        while p < pages.len()
            invariant
                p <= pages@.len(),
                u0 >= 0,
                capabilities_follow_kinds(self.actions@),
                self.requirements == old(self).requirements,
                actions_view(self.actions@) == start + pages_spec(*arena, pages@, p as int).0,
                self.unreadable == capped(u0 + pages_spec(*arena, pages@, p as int).1),
            decreases pages@.len() - p,
        {
            let h = pages[p];
            let ghost before = actions_view(self.actions@);
            let ghost ub = self.unreadable as int;
            let found = if (h as usize) < arena.objects.len() {
                arena.dict_of(&arena.objects[h as usize])
            } else {
                None
            };
            assert(found matches Some(d) ==> page_dict(*arena, h) == Some(*d));
            assert(found is None ==> page_dict(*arena, h) is None);
            if let Some(d) = found {
                self.take_additional_actions(arena, d, &EventSource::Page(p));
                let ghost after_aa = actions_view(self.actions@);
                let ghost u_aa = self.unreadable as int;
                let ghost aa = aa_spec(*arena, *d, (3, p as int, None));
                let annots: Option<&Vec<Object>> = match d.get("Annots") {
                    Some(o) => arena.array_of(o),
                    None => None,
                };
                let ghost items = items_at(*arena, *d, "Annots"@);
                if let Some(items_vec) = annots {
                    assert(items_vec@ == items);
                    let mut k: usize = 0;
                    while k < items_vec.len()
                        invariant
                            k <= items_vec@.len(),
                            items_vec@ == items,
                            ub >= 0,
                            capabilities_follow_kinds(self.actions@),
                            self.requirements == old(self).requirements,
                            actions_view(self.actions@) == after_aa + annotations_spec(*arena, items, k as int, p as int).0,
                            self.unreadable == capped(ub + aa.1 + annotations_spec(*arena, items, k as int, p as int).1),
                            u_aa == capped(ub + aa.1),
                        decreases items_vec@.len() - k,
                    {
                        let ghost a = annotation_spec(*arena, items[k as int], p as int);
                        self.take_annotation(arena, &items_vec[k], p);
                        proof {
                            lemma_capped_add(ub + aa.1 + annotations_spec(*arena, items, k as int, p as int).1, a.1 as int);
                        }
                        assert(actions_view(self.actions@) =~= after_aa + annotations_spec(*arena, items, k + 1, p as int).0);
                        k = k + 1;
                    }
                } else {
                    assert(items.len() == 0);
                    assert(actions_view(self.actions@) =~= after_aa + annotations_spec(*arena, items, items.len() as int, p as int).0);
                }
                assert(actions_view(self.actions@) =~= before + page_spec(*arena, h, p as int).0);
            } else {
                assert(actions_view(self.actions@) =~= before + page_spec(*arena, h, p as int).0);
            }
            proof {
                lemma_capped_add(u0 + pages_spec(*arena, pages@, p as int).1, page_spec(*arena, h, p as int).1 as int);
            }
            assert(actions_view(self.actions@) =~= start + pages_spec(*arena, pages@, p + 1).0);
            p = p + 1;
        }
    }
}


impl ActionReport {
    /// A form field's `/AA`, then the fields below it, the last kid first.
    fn take_field(&mut self, arena: &Arena, entry: &Object, depth: usize)
        requires
            capabilities_follow_kinds(old(self).actions@),
            depth <= MAX_DEPTH,
        ensures
            actions_view(final(self).actions@) == actions_view(old(self).actions@) + field_spec(*arena, *entry, depth as nat).0,
            final(self).unreadable == capped(old(self).unreadable + field_spec(*arena, *entry, depth as nat).1),
            capabilities_follow_kinds(final(self).actions@),
            final(self).requirements == old(self).requirements,
        decreases MAX_DEPTH - depth,
    {
        let ghost start = actions_view(self.actions@);
        let ghost u0 = self.unreadable as int;
        let field = match arena.dict_of(entry) {
            Some(f) => f,
            None => {
                assert(actions_view(self.actions@) =~= start + Seq::<ActionView>::empty());
                return;
            },
        };
        let name = text_at(arena, field, "T");
        let ghost own = aa_spec(*arena, *field, (6, 0, text_at_key(*arena, *field, "T"@)));
        self.take_additional_actions(arena, field, &EventSource::Field(name));
        if depth >= MAX_DEPTH {
            return;
        }
        let ghost after_own = actions_view(self.actions@);
        let ghost u_own = self.unreadable as int;
        let ghost kids = items_at(*arena, *field, "Kids"@);
        let found: Option<&Vec<Object>> = match field.get("Kids") {
            Some(o) => arena.array_of(o),
            None => None,
        };
        if let Some(list) = found {
            assert(list@ == kids);
            let mut i: usize = list.len();
            assert(after_own =~= after_own + Seq::<ActionView>::empty());
            while i > 0
                invariant
                    i <= list@.len(),
                    list@ == kids,
                    depth < MAX_DEPTH,
                    u0 >= 0,
                    capabilities_follow_kinds(self.actions@),
                    self.requirements == old(self).requirements,
                    actions_view(self.actions@) + fields_spec(*arena, kids, i as int, (depth + 1) as nat).0
                        == after_own + fields_spec(*arena, kids, kids.len() as int, (depth + 1) as nat).0,
                    capped(self.unreadable + fields_spec(*arena, kids, i as int, (depth + 1) as nat).1)
                        == capped(u0 + own.1 + fields_spec(*arena, kids, kids.len() as int, (depth + 1) as nat).1),
                decreases i,
            {
                i = i - 1;
                let ghost mid = actions_view(self.actions@);
                let ghost um = self.unreadable as int;
                let ghost f = field_spec(*arena, kids[i as int], (depth + 1) as nat);
                self.take_field(arena, &list[i], depth + 1);
                proof {
                    lemma_capped_add(um, f.1 as int);
                    lemma_capped_add(um + f.1, fields_spec(*arena, kids, i as int, (depth + 1) as nat).1 as int);
                }
                assert(mid + fields_spec(*arena, kids, i + 1, (depth + 1) as nat).0 =~= actions_view(self.actions@)
                    + fields_spec(*arena, kids, i as int, (depth + 1) as nat).0);
            }
            assert(actions_view(self.actions@) =~= actions_view(self.actions@) + fields_spec(*arena, kids, 0, (depth + 1) as nat).0);
        } else {
            assert(kids.len() == 0);
            assert(actions_view(self.actions@) =~= after_own + fields_spec(*arena, kids, kids.len() as int, (depth + 1) as nat).0);
        }
        assert(actions_view(self.actions@) =~= start + field_spec(*arena, *entry, depth as nat).0);
    }

    /// Each form field's `/AA` (12.7.5.3) — where a business form keeps its scripts. A
    /// widget is both a field and an annotation and is reached twice, because the two
    /// triggers are different facts.
    fn take_form_fields(&mut self, arena: &Arena, catalog: &Dict)
        requires
            capabilities_follow_kinds(old(self).actions@),
        ensures
            actions_view(final(self).actions@) == actions_view(old(self).actions@) + form_spec(*arena, *catalog).0,
            final(self).unreadable == capped(old(self).unreadable + form_spec(*arena, *catalog).1),
            capabilities_follow_kinds(final(self).actions@),
            final(self).requirements == old(self).requirements,
    {
        let ghost start = actions_view(self.actions@);
        let ghost u0 = self.unreadable as int;
        let form = match catalog.get("AcroForm") {
            Some(o) => arena.dict_of(o),
            None => None,
        };
        let form = match form {
            Some(f) => f,
            None => {
                assert(actions_view(self.actions@) =~= start + Seq::<ActionView>::empty());
                return;
            },
        };
        let ghost fields = items_at(*arena, *form, "Fields"@);
        let found: Option<&Vec<Object>> = match form.get("Fields") {
            Some(o) => arena.array_of(o),
            None => None,
        };
        if let Some(list) = found {
            assert(list@ == fields);
            let mut i: usize = list.len();
            assert(start =~= start + Seq::<ActionView>::empty());
            while i > 0
                invariant
                    i <= list@.len(),
                    list@ == fields,
                    u0 >= 0,
                    capabilities_follow_kinds(self.actions@),
                    self.requirements == old(self).requirements,
                    actions_view(self.actions@) + fields_spec(*arena, fields, i as int, 0).0
                        == start + fields_spec(*arena, fields, fields.len() as int, 0).0,
                    capped(self.unreadable + fields_spec(*arena, fields, i as int, 0).1)
                        == capped(u0 + fields_spec(*arena, fields, fields.len() as int, 0).1),
                decreases i,
            {
                i = i - 1;
                let ghost mid = actions_view(self.actions@);
                let ghost um = self.unreadable as int;
                let ghost f = field_spec(*arena, fields[i as int], 0);
                self.take_field(arena, &list[i], 0);
                proof {
                    lemma_capped_add(um, f.1 as int);
                    lemma_capped_add(um + f.1, fields_spec(*arena, fields, i as int, 0).1 as int);
                }
                assert(mid + fields_spec(*arena, fields, i + 1, 0).0 =~= actions_view(self.actions@) + fields_spec(
                    *arena,
                    fields,
                    i as int,
                    0,
                ).0);
            }
            assert(actions_view(self.actions@) =~= actions_view(self.actions@) + fields_spec(*arena, fields, 0, 0).0);
        } else {
            assert(fields.len() == 0);
            assert(actions_view(self.actions@) =~= start + fields_spec(*arena, fields, fields.len() as int, 0).0);
        }
    }
}

/// What a catalogue declares a processor must support.
fn read_requirements(arena: &Arena, catalog: &Dict) -> (r: Vec<Requirement>)
    ensures
        requirements_view(r@) == declared_requirements(*arena, *catalog),
{
    let items = match catalog.get("Requirements") {
        Some(o) => match arena.array_of(o) {
            Some(items) => items,
            None => return Vec::new(),
        },
        None => return Vec::new(),
    };
    let mut out: Vec<Requirement> = Vec::new();
    let mut i: usize = 0;
    while i < items.len()
        invariant
            i <= items@.len(),
            requirement_names(*arena, items@, i as int) == Some(requirements_view(out@)),
            declared_requirements(*arena, *catalog) == match requirement_names(*arena, items@, items@.len() as int) {
                Some(ns) => ns,
                None => Seq::empty(),
            },
        decreases items@.len() - i,
    {
        let name = match arena.dict_of(&items[i]) {
            Some(d) => name_at(arena, d, "S"),
            None => None,
        };
        match name {
            Some(n) => {
                let ghost before = out@;
                out.push(Requirement { requirement: n });
                assert(requirements_view(out@) =~= requirements_view(before).push(out@.last().requirement@));
            },
            None => {
                proof {
                    lemma_no_requirements_past(*arena, items@, i as int + 1);
                }
                let none: Vec<Requirement> = Vec::new();
                assert(requirements_view(none@) =~= Seq::<Seq<char>>::empty());
                return none;
            },
        }
        i = i + 1;
    }
    out
}

/// Once a requirement will not read, the list does not.
proof fn lemma_no_requirements_past(arena: Arena, items: Seq<Object>, n: int)
    requires
        1 <= n <= items.len(),
        requirement_names(arena, items, n) is None,
    ensures
        requirement_names(arena, items, items.len() as int) is None,
    decreases items.len() - n,
{
    if n < items.len() {
        lemma_no_requirements_past(arena, items, n + 1);
    }
}

impl ActionReport {
    /// Walks every place clause 12.6 lets an action hang, from the catalogue and the
    /// pages in order — each given by its object number: `/OpenAction`, the catalogue's
    /// `/AA`, the document scripts, each page's `/AA` and its annotations' `/A` and
    /// `/AA`, and the form fields' `/AA`.
    ///
    /// A catalogue that is not a dictionary gives an empty report; a page or annotation
    /// that will not read contributes nothing.
    pub fn of(arena: &Arena, catalog: &Object, pages: &Vec<u32>) -> (r: Self)
        ensures
            capabilities_follow_kinds(r.actions@),
            arena.spec_dict_of(*catalog) is None ==> r.actions@.len() == 0 && r.requirements@.len() == 0
                && r.unreadable == 0,
            arena.spec_dict_of(*catalog) matches Some(c) ==> {
                &&& actions_view(r.actions@) == walk(*arena, c, pages@).0
                &&& r.unreadable == capped(walk(*arena, c, pages@).1 as int)
                &&& requirements_view(r.requirements@) == declared_requirements(*arena, c)
            },
    {
        let mut out = ActionReport::new();
        let c = match arena.dict_of(catalog) {
            Some(c) => c,
            None => return out,
        };
        out.requirements = read_requirements(arena, c);
        let ghost s0 = take_spec(*arena, c.spec_get("OpenAction"@), (0, 0, Seq::empty(), None));
        let ghost s1 = aa_spec(*arena, *c, (2, 0, None));
        let ghost s2 = document_scripts(*arena, *c);
        let ghost s3 = pages_spec(*arena, pages@, pages@.len() as int);
        let ghost s4 = form_spec(*arena, *c);
        assert(actions_view(out.actions@) =~= Seq::<ActionView>::empty());
        out.take(arena, c.get("OpenAction"), Trigger::DocumentOpened);
        out.take_additional_actions(arena, c, &EventSource::Document);
        proof {
            lemma_capped_add(s0.1 as int, s1.1 as int);
        }
        out.take_document_scripts(arena, c);
        proof {
            lemma_capped_add((s0.1 + s1.1) as int, s2.1 as int);
        }
        out.take_pages(arena, pages);
        proof {
            lemma_capped_add((s0.1 + s1.1 + s2.1) as int, s3.1 as int);
        }
        out.take_form_fields(arena, c);
        proof {
            lemma_capped_add((s0.1 + s1.1 + s2.1 + s3.1) as int, s4.1 as int);
        }
        assert(actions_view(out.actions@) =~= walk(*arena, *c, pages@).0);
        out
    }
}

} // verus!
