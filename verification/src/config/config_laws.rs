//! What a configuration takes over from its document.

use vstd::prelude::*;

use super::config_document::{rule_spec, DocumentRule};

verus! {

/// A rule says what its document says: its name and paths, its unit and limits,
/// its priority and messages, and what it counts.
pub proof fn lemma_rule_is_taken_over(rule: DocumentRule)
    ensures
        rule_spec(rule).id == rule.id,
        rule_spec(rule).include_paths == rule.include_paths,
        rule_spec(rule).exclude == rule.exclude,
        rule_spec(rule).unit == rule.unit,
        rule_spec(rule).soft == rule.soft,
        rule_spec(rule).hard == rule.hard,
        rule_spec(rule).priority == rule.priority,
        rule_spec(rule).message == rule.message,
        rule_spec(rule).soft_message == rule.soft_message,
        rule_spec(rule).hard_message == rule.hard_message,
        rule_spec(rule).count_blank_lines == rule.count_blank_lines,
        rule_spec(rule).count_comment_lines == rule.count_comment_lines,
{
}

} // verus!
