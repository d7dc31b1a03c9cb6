//! What a compliance pass over a document observed.

use crate::text::{slice_views, strictly_sorted};
use vstd::prelude::*;

verus! {

/// What a compliance pass observed: the clauses the document exercised, each once and in
/// order, and the problems found.
#[derive(Debug)]
pub struct ComplianceReport {
    /// ISO clauses the document exercised.
    pub clauses_encountered: Vec<&'static str>,
    /// Problems found.
    pub issues: Vec<String>,
}

impl ComplianceReport {
    /// Whether the clauses are each listed once, in order.
    pub open spec fn wf(&self) -> bool {
        strictly_sorted(slice_views(self.clauses_encountered@))
    }
}

impl Default for ComplianceReport {
    /// Nothing observed.
    fn default() -> (r: Self)
        ensures
            r.clauses_encountered@.len() == 0,
            r.issues@.len() == 0,
            r.wf(),
    {
        let r = ComplianceReport { clauses_encountered: Vec::new(), issues: Vec::new() };
        assert(slice_views(r.clauses_encountered@) =~= Seq::<Seq<char>>::empty());
        r
    }
}

} // verus!
