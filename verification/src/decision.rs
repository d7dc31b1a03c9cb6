//! What a reader decided where the file left it a choice, and why.

use crate::error::text;
use vstd::prelude::*;

verus! {

/// How far a decision departs from what the standard says.
#[derive(Clone, Copy, Debug, PartialEq, Eq, Structural)]
pub enum Severity {
    /// The standard allows more than one reading and one was taken.
    Ambiguity,
    /// The file broke a rule and was read as if it had kept it.
    Repaired,
    /// The file broke a rule and what it says could not be honoured.
    Violation,
}

/// One decision, with the clause it departs from, what was found and what was done.
#[derive(Debug)]
pub struct Decision {
    /// How far it departs.
    pub severity: Severity,
    /// The clause of the standard it concerns.
    pub clause: String,
    /// What the file held.
    pub found: String,
    /// What the reader did about it.
    pub action: String,
}

impl Decision {
    /// A rule the file broke, with what could not be honoured.
    pub fn violation(clause: &str, found: String, action: &str) -> (d: Self)
        ensures
            d.severity == Severity::Violation,
            d.clause@ == clause@,
            d.found == found,
            d.action@ == action@,
    {
        Decision { severity: Severity::Violation, clause: text(clause), found, action: text(action) }
    }

    /// A rule the file broke, read as if it had kept it.
    pub fn repaired(clause: &str, found: String, action: &str) -> (d: Self)
        ensures
            d.severity == Severity::Repaired,
            d.clause@ == clause@,
            d.found == found,
            d.action@ == action@,
    {
        Decision { severity: Severity::Repaired, clause: text(clause), found, action: text(action) }
    }

    /// A reading the standard left open, and the one taken.
    pub fn ambiguity(clause: &str, found: String, action: &str) -> (d: Self)
        ensures
            d.severity == Severity::Ambiguity,
            d.clause@ == clause@,
            d.found == found,
            d.action@ == action@,
    {
        Decision { severity: Severity::Ambiguity, clause: text(clause), found, action: text(action) }
    }
}

} // verus!
