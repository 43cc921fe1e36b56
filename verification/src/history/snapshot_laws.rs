//! What holds of every snapshot: which findings stand in it, which entries it
//! lists and which path expressions.

use vstd::prelude::*;

use super::calendar::utc_text;
use super::data::{
    address_order, EntryState, EntryView, FindingState, FindingView, Snapshot,
};
use super::eval::{
    entries_of, entry_of, file_findings, hit_finding, hits_findings, is_snapshot, rule_paths,
    scan_findings, FileOutcome, Judged, Scanned,
};
use super::git::Revision;
use crate::budget::{Severity, Unit};
use crate::cli::Loaded;
use crate::config::RuleSpec;
use crate::exceptions::{Exception, Kind, MatchKind, Verdict};
use crate::order::{is_stable_sort, Order, Ranked};
use crate::text::Text;

verus! {

// ---------------------------------------------------------------------------
// Findings
// ---------------------------------------------------------------------------

/// The value is strictly over the limit, where there is one.
pub open spec fn is_over(value: u64, limit: Option<u64>) -> bool {
    limit is Some && value > limit.unwrap()
}

/// The file is accepted above its hard limit for good.
pub open spec fn is_accepted(judged: Judged) -> bool {
    is_over(judged.hit.actual, judged.hit.rule.budget.hard) && judged.hard == Ok::<
        Verdict,
        String,
    >(Verdict::Silenced(Kind::Permanent))
}

/// The registries could be asked of the overflow.
pub open spec fn is_answered(judged: Judged) -> bool {
    judged.hard is Ok && judged.soft is Ok
}

pub open spec fn unit_word(unit: Unit) -> Text {
    match unit {
        Unit::Bytes => "bytes"@,
        Unit::Lines => "lines"@,
        Unit::Tokens => "tokens"@,
    }
}

/// A rule gives a finding exactly when the value is over its soft limit, no
/// entry of the soft registry silences it, of whatever kind, and the file is
/// not accepted above its hard limit. The finding names the file, the rule and
/// the unit, and holds the value and the limit.
pub proof fn lemma_finding_stands(path: Text, judged: Judged)
    requires
        is_answered(judged),
    ensures
        hit_finding(path, judged) is Ok,
        hit_finding(path, judged)->Ok_0 is Some <==> is_over(
            judged.hit.actual,
            judged.hit.rule.budget.soft,
        ) && judged.soft == Ok::<Verdict, String>(Verdict::Standing) && !is_accepted(judged),
        hit_finding(path, judged)->Ok_0 matches Some(finding) ==> {
            &&& finding.address.path == path
            &&& finding.address.rule == judged.hit.rule.id@
            &&& finding.address.unit == unit_word(judged.hit.rule.budget.unit)
            &&& finding.actual == judged.hit.actual
            &&& finding.limit == judged.hit.rule.budget.soft.unwrap()
        },
{
}

/// An entry of the soft registry silences the finding, whatever its kind and
/// whatever the hard registry says.
pub proof fn lemma_soft_entry_silences(path: Text, judged: Judged, kind: Kind)
    requires
        judged.soft == Ok::<Verdict, String>(Verdict::Silenced(kind)),
        judged.hard is Ok,
    ensures
        hit_finding(path, judged) == Ok::<Option<FindingView>, Text>(None),
{
}

/// A value at its soft limit gives no finding, and nobody is asked about it.
pub proof fn lemma_nothing_is_asked_below_soft(path: Text, judged: Judged)
    requires
        !is_over(judged.hit.actual, judged.hit.rule.budget.soft),
    ensures
        hit_finding(path, judged) == Ok::<Option<FindingView>, Text>(None),
{
}

/// A registry that cannot be asked about an overflow fails the scan: the hard
/// one where the value is over the hard limit, else the soft one.
pub proof fn lemma_unanswered_fails(path: Text, judged: Judged)
    requires
        is_over(judged.hit.actual, judged.hit.rule.budget.soft),
    ensures
        is_over(judged.hit.actual, judged.hit.rule.budget.hard) ==> (judged.hard matches Err(error)
            ==> hit_finding(path, judged) == Err::<Option<FindingView>, Text>(error@)),
        is_over(judged.hit.actual, judged.hit.rule.budget.hard) ==> judged.hard is Ok
            && !is_accepted(judged) ==> (judged.soft matches Err(error) ==> hit_finding(path, judged)
            == Err::<Option<FindingView>, Text>(error@)),
        !is_over(judged.hit.actual, judged.hit.rule.budget.hard) ==> (judged.soft matches Err(error)
            ==> hit_finding(path, judged) == Err::<Option<FindingView>, Text>(error@)),
{
}

/// A permanent entry of the hard registry silences only what is over the hard
/// limit, and a deferred one nothing.
pub proof fn lemma_hard_entry_silences(path: Text, judged: Judged, kind: Kind)
    requires
        is_over(judged.hit.actual, judged.hit.rule.budget.soft),
        judged.soft == Ok::<Verdict, String>(Verdict::Standing),
        judged.hard == Ok::<Verdict, String>(Verdict::Silenced(kind)),
    ensures
        hit_finding(path, judged)->Ok_0 is None <==> kind == Kind::Permanent && is_over(
            judged.hit.actual,
            judged.hit.rule.budget.hard,
        ),
        hit_finding(path, judged) is Ok,
{
}

/// The findings of more rules are those of the first and then those of the
/// rest.
proof fn lemma_hits_add(path: Text, judged: Seq<Judged>, j: int)
    requires
        hits_findings(path, judged) is Ok,
        0 <= j < judged.len(),
    ensures
        hit_finding(path, judged[j]) is Ok,
        hit_finding(path, judged[j])->Ok_0 matches Some(finding) ==> hits_findings(
            path,
            judged,
        )->Ok_0.contains(finding),
    decreases judged.len(),
{
    let head = judged.drop_last();
    let found = hits_findings(path, judged)->Ok_0;
    if j < head.len() {
        lemma_hits_add(path, head, j);
        assert(head[j] == judged[j]);
        let before = hits_findings(path, head)->Ok_0;
        if let Some(finding) = hit_finding(path, judged[j])->Ok_0 {
            let k = choose|k: int| 0 <= k < before.len() && before[k] == finding;
            assert(found[k] == finding);
        }
    } else if let Some(finding) = hit_finding(path, judged[j])->Ok_0 {
        assert(found.last() == finding);
        assert(found[found.len() - 1] == finding);
    }
}

proof fn lemma_hits_come_from(path: Text, judged: Seq<Judged>, finding: FindingView) -> (j: int)
    requires
        hits_findings(path, judged) matches Ok(found) && found.contains(finding),
    ensures
        0 <= j < judged.len(),
        hit_finding(path, judged[j]) == Ok::<Option<FindingView>, Text>(Some(finding)),
    decreases judged.len(),
{
    let head = judged.drop_last();
    let found = hits_findings(path, judged)->Ok_0;
    let k = choose|k: int| 0 <= k < found.len() && found[k] == finding;
    let before = hits_findings(path, head)->Ok_0;
    if k < before.len() {
        assert(before[k] == finding);
        assert(before.contains(finding));
        let j = lemma_hits_come_from(path, head, finding);
        assert(head[j] == judged[j]);
        j
    } else {
        judged.len() - 1
    }
}

/// Nothing over its soft limit is lost: every finding of every rule of every
/// scanned file is among the findings of the scan.
pub proof fn lemma_scan_finds_all(tokens: bool, files: Seq<Scanned>, i: int, j: int)
    requires
        scan_findings(tokens, files) is Ok,
        0 <= i < files.len(),
    ensures
        files[i].outcome is Judged,
        0 <= j < files[i].outcome->Judged_0@.len() ==> {
            let judged = files[i].outcome->Judged_0@[j];
            &&& hit_finding(files[i].path@, judged) is Ok
            &&& hit_finding(files[i].path@, judged)->Ok_0 matches Some(finding) ==> scan_findings(
                tokens,
                files,
            )->Ok_0.contains(finding)
        },
    decreases files.len(),
{
    let head = files.drop_last();
    let found = scan_findings(tokens, files)->Ok_0;
    let before = scan_findings(tokens, head)->Ok_0;
    if i < head.len() {
        lemma_scan_finds_all(tokens, head, i, j);
        assert(head[i] == files[i]);
        if 0 <= j < files[i].outcome->Judged_0@.len() {
            if let Some(finding) = hit_finding(
                files[i].path@,
                files[i].outcome->Judged_0@[j],
            )->Ok_0 {
                let k = choose|k: int| 0 <= k < before.len() && before[k] == finding;
                assert(found[k] == finding);
            }
        }
    } else {
        let more = file_findings(tokens, files.last())->Ok_0;
        if 0 <= j < files[i].outcome->Judged_0@.len() {
            lemma_hits_add(files[i].path@, files[i].outcome->Judged_0@, j);
            if let Some(finding) = hit_finding(
                files[i].path@,
                files[i].outcome->Judged_0@[j],
            )->Ok_0 {
                let k = choose|k: int| 0 <= k < more.len() && more[k] == finding;
                assert(found[before.len() + k] == finding);
            }
        }
    }
}

/// Nothing is invented: every finding of a scan is that of a rule of a scanned
/// file.
pub proof fn lemma_scan_finds_only(tokens: bool, files: Seq<Scanned>, finding: FindingView) -> (r:
    (int, int))
    requires
        scan_findings(tokens, files) matches Ok(found) && found.contains(finding),
    ensures
        0 <= r.0 < files.len(),
        files[r.0].outcome is Judged,
        0 <= r.1 < files[r.0].outcome->Judged_0@.len(),
        hit_finding(files[r.0].path@, files[r.0].outcome->Judged_0@[r.1]) == Ok::<
            Option<FindingView>,
            Text,
        >(Some(finding)),
    decreases files.len(),
{
    let head = files.drop_last();
    let found = scan_findings(tokens, files)->Ok_0;
    let before = scan_findings(tokens, head)->Ok_0;
    let k = choose|k: int| 0 <= k < found.len() && found[k] == finding;
    if k < before.len() {
        assert(before[k] == finding);
        assert(before.contains(finding));
        let (i, j) = lemma_scan_finds_only(tokens, head, finding);
        assert(head[i] == files[i]);
        (i, j)
    } else {
        let more = file_findings(tokens, files.last())->Ok_0;
        assert(more[k - before.len()] == finding);
        assert(more.contains(finding));
        let j = lemma_hits_come_from(
            files.last().path@,
            files.last().outcome->Judged_0@,
            finding,
        );
        (files.len() - 1, j)
    }
}

/// A scan fails with the first file that fails, whatever follows it.
pub proof fn lemma_scan_fails_first(
    tokens: bool,
    good: Seq<Scanned>,
    bad: Scanned,
    rest: Seq<Scanned>,
)
    requires
        scan_findings(tokens, good) is Ok,
    ensures
        bad.outcome matches FileOutcome::Unruled(error) ==> scan_findings(
            tokens,
            good.push(bad) + rest,
        ) == Err::<Seq<FindingView>, Text>(error@),
        bad.outcome is Unmeasured && tokens ==> scan_findings(tokens, good.push(bad) + rest)
            == Err::<Seq<FindingView>, Text>("token evaluation unavailable"@),
        !tokens ==> (bad.outcome matches FileOutcome::Unmeasured(error) ==> scan_findings(
            tokens,
            good.push(bad) + rest,
        ) == Err::<Seq<FindingView>, Text>(
            "measurement unavailable for "@ + bad.path@ + ": "@ + error@,
        )),
    decreases rest.len(),
{
    let all = good.push(bad) + rest;
    if rest.len() == 0 {
        assert(all =~= good.push(bad));
        assert(all.drop_last() =~= good);
    } else {
        assert(all.drop_last() =~= good.push(bad) + rest.drop_last());
        lemma_scan_fails_first(tokens, good, bad, rest.drop_last());
    }
}

// ---------------------------------------------------------------------------
// Entries
// ---------------------------------------------------------------------------

/// The entry as its registry says it.
pub open spec fn tells(entry: EntryView, of: Exception) -> bool {
    &&& entry.address.severity == (if of.severity == Severity::Soft {
        "soft"@
    } else {
        "hard"@
    })
    &&& entry.address.registry == of.registry@
    &&& entry.address.path == of.path@
    &&& entry.address.match_kind == (if of.match_kind == MatchKind::Glob {
        "glob"@
    } else {
        "exact"@
    })
    &&& entry.address.unit == unit_word(of.max_unit)
    &&& entry.address.rules == of.rules.deep_view()
    &&& entry.value == of.max_value
    &&& entry.kind == of.kind
}

/// A sorted list has the members of the list, no more and no fewer.
pub proof fn lemma_sorting_keeps_members<T: Ranked>(before: Seq<T>, after: Seq<T>, x: T)
    requires
        is_stable_sort(before, after),
    ensures
        before.len() == after.len(),
        before.contains(x) <==> after.contains(x),
{
    before.to_multiset_ensures();
    after.to_multiset_ensures();
    assert(before.to_multiset().count(x) == after.to_multiset().count(x));
}

/// A snapshot lists every registry entry as its registry says it, and no other,
/// in the order of their addresses.
pub proof fn lemma_snapshot_lists_the_entries(
    revision: Revision,
    loaded: Loaded,
    found: Seq<FindingView>,
    blobs: Map<Text, String>,
    s: Snapshot,
    i: int,
)
    requires
        is_snapshot(revision, loaded, found, blobs, s),
    ensures
        s.entries@.len() == loaded.registries.entries@.len(),
        0 <= i < loaded.registries.entries@.len() ==> exists|k: int|
            #![trigger s.entries@[k]]
            0 <= k < s.entries@.len() && tells(s.entries@[k]@, loaded.registries.entries@[i]),
        0 <= i < s.entries@.len() ==> exists|k: int|
            #![trigger loaded.registries.entries@[k]]
            0 <= k < loaded.registries.entries@.len() && tells(
                s.entries@[i]@,
                loaded.registries.entries@[k],
            ),
        0 <= i && i + 1 < s.entries@.len() ==> address_order(
            s.entries@[i]@.address,
            s.entries@[i + 1]@.address,
        ) != Order::After,
{
    let all = loaded.registries.entries@;
    let unsorted = choose|unsorted: Seq<EntryState>| #[trigger]
        is_stable_sort(unsorted, s.entries@) && unsorted.map_values(|e: EntryState| e@)
            == entries_of(all);
    assert(unsorted.map_values(|e: EntryState| e@).len() == entries_of(all).len());
    assert forall|k: int| #![trigger unsorted[k]] 0 <= k < unsorted.len() implies unsorted[k]@
        == entry_of(all[k]) by {
        assert(unsorted.map_values(|e: EntryState| e@)[k] == entries_of(all)[k]);
    }
    if unsorted.len() > 0 {
        lemma_sorting_keeps_members(unsorted, s.entries@, unsorted[0]);
    } else {
        unsorted.to_multiset_ensures();
        s.entries@.to_multiset_ensures();
    }
    if 0 <= i < all.len() {
        lemma_sorting_keeps_members(unsorted, s.entries@, unsorted[i]);
        assert(unsorted.contains(unsorted[i]));
        let k = choose|k: int| 0 <= k < s.entries@.len() && s.entries@[k] == unsorted[i];
        assert(tells(s.entries@[k]@, all[i]));
    }
    if 0 <= i < s.entries@.len() {
        lemma_sorting_keeps_members(unsorted, s.entries@, s.entries@[i]);
        assert(s.entries@.contains(s.entries@[i]));
        let k = choose|k: int| 0 <= k < unsorted.len() && unsorted[k] == s.entries@[i];
        assert(tells(s.entries@[i]@, all[k]));
    }
    if 0 <= i && i + 1 < s.entries@.len() {
        assert(s.entries@[i].rank(&s.entries@[i + 1]) != Order::After);
    }
}

/// A snapshot holds the findings of its scan, and no other, and says of the
/// commit what the walk said.
pub proof fn lemma_snapshot_holds_the_findings(
    revision: Revision,
    loaded: Loaded,
    found: Seq<FindingView>,
    blobs: Map<Text, String>,
    s: Snapshot,
    finding: FindingView,
)
    requires
        is_snapshot(revision, loaded, found, blobs, s),
    ensures
        s@.findings.contains(finding) <==> found.contains(finding),
        s@.findings.len() == found.len(),
        s@.sha == revision.sha@,
        s@.parents == revision.parents.deep_view(),
        s@.timestamp == revision.timestamp,
        s@.date == utc_text(revision.timestamp as int),
        s.blobs@ == blobs,
{
    let unsorted = choose|unsorted: Seq<FindingState>| #[trigger]
        is_stable_sort(unsorted, s.findings@) && unsorted.map_values(|f: FindingState| f@)
            == found;
    assert(unsorted.map_values(|f: FindingState| f@).len() == found.len());
    unsorted.to_multiset_ensures();
    s.findings@.to_multiset_ensures();
    assert forall|k: int| #![trigger unsorted[k]] 0 <= k < unsorted.len() implies unsorted[k]@
        == found[k] by {
        assert(unsorted.map_values(|f: FindingState| f@)[k] == found[k]);
    }
    if found.contains(finding) {
        let k = choose|k: int| 0 <= k < found.len() && found[k] == finding;
        lemma_sorting_keeps_members(unsorted, s.findings@, unsorted[k]);
        assert(unsorted.contains(unsorted[k]));
        let m = choose|m: int| 0 <= m < s.findings@.len() && s.findings@[m] == unsorted[k];
        assert(s@.findings[m] == finding);
    }
    if s@.findings.contains(finding) {
        let m = choose|m: int| 0 <= m < s@.findings.len() && s@.findings[m] == finding;
        lemma_sorting_keeps_members(unsorted, s.findings@, s.findings@[m]);
        assert(s.findings@.contains(s.findings@[m]));
        let k = choose|k: int| 0 <= k < unsorted.len() && unsorted[k] == s.findings@[m];
        assert(found[k] == finding);
    }
}

// ---------------------------------------------------------------------------
// Path expressions
// ---------------------------------------------------------------------------

/// The configuration names the path: for the scan or for one of its rules, to
/// be looked at or to be left out.
pub open spec fn is_configured(loaded: Loaded, path: Text) -> bool {
    ||| loaded.config.scan.include_paths.deep_view().contains(path)
    ||| loaded.config.scan.exclude.deep_view().contains(path)
    ||| exists|r: int|
        #![trigger loaded.config.rules@[r]]
        0 <= r < loaded.config.rules@.len() && (
        loaded.config.rules@[r].include_paths.deep_view().contains(path)
            || loaded.config.rules@[r].exclude.deep_view().contains(path))
}

proof fn lemma_sum_contains(a: Seq<Text>, b: Seq<Text>, x: Text)
    ensures
        (a + b).contains(x) <==> a.contains(x) || b.contains(x),
{
    let s = a + b;
    if a.contains(x) {
        let k = choose|k: int| 0 <= k < a.len() && a[k] == x;
        assert(s[k] == x);
    }
    if b.contains(x) {
        let k = choose|k: int| 0 <= k < b.len() && b[k] == x;
        assert(s[a.len() + k] == x);
    }
    if s.contains(x) {
        let k = choose|k: int| 0 <= k < s.len() && s[k] == x;
        if k < a.len() {
            assert(a[k] == x);
        } else {
            assert(b[k - a.len()] == x);
        }
    }
}

proof fn lemma_rule_paths_hold(rules: Seq<RuleSpec>, path: Text)
    ensures
        rule_paths(rules).contains(path) <==> exists|r: int|
            #![trigger rules[r]]
            0 <= r < rules.len() && (rules[r].include_paths.deep_view().contains(path)
                || rules[r].exclude.deep_view().contains(path)),
    decreases rules.len(),
{
    if rules.len() > 0 {
        let head = rules.drop_last();
        let last = rules.last();
        lemma_rule_paths_hold(head, path);
        lemma_sum_contains(rule_paths(head), last.include_paths.deep_view(), path);
        lemma_sum_contains(
            rule_paths(head) + last.include_paths.deep_view(),
            last.exclude.deep_view(),
            path,
        );
        assert forall|r: int| #![trigger rules[r]] 0 <= r < head.len() implies rules[r]
            == head[r] by {}
        if rule_paths(head).contains(path) {
            let r = choose|r: int|
                #![trigger head[r]]
                0 <= r < head.len() && (head[r].include_paths.deep_view().contains(path)
                    || head[r].exclude.deep_view().contains(path));
            assert(rules[r] == head[r]);
        }
        assert(rules[rules.len() - 1] == last);
        if exists|r: int|
            #![trigger rules[r]]
            0 <= r < rules.len() && (rules[r].include_paths.deep_view().contains(path)
                || rules[r].exclude.deep_view().contains(path)) {
            let r = choose|r: int|
                #![trigger rules[r]]
                0 <= r < rules.len() && (rules[r].include_paths.deep_view().contains(path)
                    || rules[r].exclude.deep_view().contains(path));
            if r < head.len() {
                assert(head[r] == rules[r]);
            }
        }
    }
}

/// A snapshot knows exactly the path expressions of its configuration.
pub proof fn lemma_snapshot_knows_the_paths(
    revision: Revision,
    loaded: Loaded,
    found: Seq<FindingView>,
    blobs: Map<Text, String>,
    s: Snapshot,
    path: Text,
)
    requires
        is_snapshot(revision, loaded, found, blobs, s),
    ensures
        s@.config_paths.contains(path) <==> is_configured(loaded, path),
{
    let scan = loaded.config.scan.include_paths.deep_view();
    let left = loaded.config.scan.exclude.deep_view();
    lemma_rule_paths_hold(loaded.config.rules@, path);
    lemma_sum_contains(scan, left, path);
    lemma_sum_contains(scan + left, rule_paths(loaded.config.rules@), path);
}

} // verus!
