//! Units, severities, measurements and the rules that limit them.

use vstd::prelude::*;

use crate::text::Text;

verus! {

/// What a budget counts.
#[derive(Clone, Copy, Debug, PartialEq, Eq, Structural)]
pub enum Unit {
    Bytes,
    Lines,
    Tokens,
}

impl Unit {
    pub open spec fn text(self) -> Text {
        match self {
            Unit::Bytes => "bytes"@,
            Unit::Lines => "lines"@,
            Unit::Tokens => "tokens"@,
        }
    }

    /// The unit's name in reports and documents.
    pub fn name(self) -> (r: &'static str)
        ensures
            r@ == self.text(),
    {
        match self {
            Unit::Bytes => "bytes",
            Unit::Lines => "lines",
            Unit::Tokens => "tokens",
        }
    }
}

/// The tier of a limit.
#[derive(Clone, Copy, Debug, PartialEq, Eq, Structural)]
pub enum Severity {
    Soft,
    Hard,
}

impl Severity {
    pub open spec fn text(self) -> Text {
        match self {
            Severity::Soft => "soft"@,
            Severity::Hard => "hard"@,
        }
    }

    /// The severity's name in reports and documents.
    pub fn as_str(self) -> (r: &'static str)
        ensures
            r@ == self.text(),
    {
        match self {
            Severity::Soft => "soft",
            Severity::Hard => "hard",
        }
    }
}

/// The lines of a file under each of the four counting policies.
#[derive(Clone, Copy, Debug, PartialEq, Eq, Structural)]
pub struct LineCounts {
    pub physical: u64,
    pub non_blank: u64,
    pub non_comment: u64,
    pub non_blank_non_comment: u64,
}

impl LineCounts {
    pub open spec fn count(self, blank_lines: bool, comment_lines: bool) -> u64 {
        if blank_lines && comment_lines {
            self.physical
        } else if comment_lines {
            self.non_blank
        } else if blank_lines {
            self.non_comment
        } else {
            self.non_blank_non_comment
        }
    }

    /// The lines that count, given whether blank and comment lines do.
    pub fn counted(self, blank_lines: bool, comment_lines: bool) -> (r: u64)
        ensures
            r == self.count(blank_lines, comment_lines),
    {
        match (blank_lines, comment_lines) {
            (true, true) => self.physical,
            (false, true) => self.non_blank,
            (true, false) => self.non_comment,
            (false, false) => self.non_blank_non_comment,
        }
    }
}

/// What was measured of one version of a file.
#[derive(Clone, Copy, Debug, PartialEq, Eq, Structural)]
pub struct FileMeasurement {
    pub bytes: u64,
    pub lines: Option<LineCounts>,
    pub tokens: Option<u64>,
}

/// The limits of a rule.
#[derive(Clone, Copy, Debug)]
pub struct Budget {
    pub unit: Unit,
    pub soft: Option<u64>,
    pub hard: Option<u64>,
}

/// A named budget.
#[derive(Debug)]
pub struct Rule {
    pub id: String,
    pub budget: Budget,
}

/// The rules in force.
#[derive(Debug)]
pub struct Checker {
    pub rules: Vec<Rule>,
}

/// A rule that applies to a file, and the file's measured value under it.
#[derive(Debug)]
pub struct RuleHit<'a> {
    pub rule: &'a Rule,
    pub actual: u64,
}

impl<'a> RuleHit<'a> {
    /// The soft limit, where the value is strictly above it.
    pub open spec fn soft_overflow(self) -> Option<u64> {
        match self.rule.budget.soft {
            Some(limit) if self.actual > limit => Some(limit),
            _ => None,
        }
    }

    /// The value is strictly above the hard limit.
    pub open spec fn over_hard(self) -> bool {
        match self.rule.budget.hard {
            Some(limit) => self.actual > limit,
            None => false,
        }
    }
}

} // verus!
