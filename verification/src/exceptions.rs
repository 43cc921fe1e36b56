//! Entries of the exception registries.

use vstd::prelude::*;

use crate::budget::{Severity, Unit};

verus! {

/// Whether an entry accepts a file for good (a structural entry) or carries debt
/// to be retired.
#[derive(Clone, Copy, Debug, PartialEq, Eq, Structural)]
pub enum Kind {
    Permanent,
    Deferred,
}

/// How an entry's path expression selects files.
#[derive(Clone, Copy, Debug, PartialEq, Eq, Structural)]
pub enum MatchKind {
    Exact,
    Glob,
}

/// One registry entry.
#[derive(Debug)]
pub struct Exception {
    pub severity: Severity,
    pub registry: String,
    pub path: String,
    pub match_kind: MatchKind,
    pub max_unit: Unit,
    pub max_value: u64,
    pub rules: Vec<String>,
    pub kind: Kind,
}

/// The entries of the soft and the hard registry.
#[derive(Debug)]
pub struct Registries {
    pub entries: Vec<Exception>,
}

/// What the registries say of one overflow: whether an entry silences it, and
/// of which kind that entry is.
#[derive(Clone, Copy, Debug, PartialEq, Eq, Structural)]
pub enum Verdict {
    Silenced(Kind),
    Standing,
}

} // verus!
