//! The state of one committed revision, from what the ordinary configuration,
//! scan, measurement and exception paths say of its tree.

use vstd::prelude::*;
use vstd::string::*;

use super::calendar::{utc_date, utc_text};
use super::data::{
    address_of, finding_address, Address, EntryState, EntryView, FindingAddressView, FindingState,
    FindingView, Snapshot,
};
use super::error::{failure_at, HistoryError};
use super::git::{Repository, Revision};
use crate::budget::RuleHit;
use crate::cli::Loaded;
use crate::config::RuleSpec;
use crate::exceptions::{Exception, Kind, Verdict};
use crate::order::{is_stable_sort, sort};
use crate::text::{copy_texts, Text};
use crate::text_map::TextMap;

verus! {

/// A rule that applies to a file, with what the registries say of it.
#[derive(Debug)]
pub struct Judged<'a> {
    pub hit: RuleHit<'a>,
    /// Of the overflow of the hard limit.
    pub hard: Result<Verdict, String>,
    /// Of the overflow of the soft limit.
    pub soft: Result<Verdict, String>,
}

/// What came of one scanned file.
#[derive(Debug)]
pub enum FileOutcome<'a> {
    /// It could not be measured.
    Unmeasured(String),
    /// The rules could not be applied to it.
    Unruled(String),
    Judged(Vec<Judged<'a>>),
}

/// One scanned file.
#[derive(Debug)]
pub struct Scanned<'a> {
    pub path: String,
    pub outcome: FileOutcome<'a>,
}

// ---------------------------------------------------------------------------
// Findings
// ---------------------------------------------------------------------------

/// A permanent entry of the hard registry accepts the file above its hard
/// limit: it silences the soft finding too.
pub open spec fn hard_silences(judged: Judged) -> Result<bool, Text> {
    if !judged.hit.over_hard() {
        Ok(false)
    } else {
        match judged.hard {
            Err(error) => Err(error@),
            Ok(verdict) => Ok(verdict == Verdict::Silenced(Kind::Permanent)),
        }
    }
}

/// The finding of a rule, if it is over its soft limit and nothing silences it.
pub open spec fn hit_finding(path: Text, judged: Judged) -> Result<Option<FindingView>, Text> {
    match judged.hit.soft_overflow() {
        None => Ok(None),
        Some(limit) => match hard_silences(judged) {
            Err(error) => Err(error),
            Ok(true) => Ok(None),
            Ok(false) => match judged.soft {
                Err(error) => Err(error@),
                Ok(Verdict::Silenced(_)) => Ok(None),
                Ok(Verdict::Standing) => Ok(
                    Some(
                        FindingView {
                            address: FindingAddressView {
                                path,
                                rule: judged.hit.rule.id@,
                                unit: judged.hit.rule.budget.unit.text(),
                            },
                            actual: judged.hit.actual as int,
                            limit: limit as int,
                        },
                    ),
                ),
            },
        },
    }
}

/// The findings of one file, or the first error.
pub open spec fn hits_findings(path: Text, judged: Seq<Judged>) -> Result<Seq<FindingView>, Text>
    decreases judged.len(),
{
    if judged.len() == 0 {
        Ok(Seq::empty())
    } else {
        match hits_findings(path, judged.drop_last()) {
            Err(error) => Err(error),
            Ok(found) => match hit_finding(path, judged.last()) {
                Err(error) => Err(error),
                Ok(None) => Ok(found),
                Ok(Some(finding)) => Ok(found.push(finding)),
            },
        }
    }
}

/// What is said of a file that could not be measured.
pub open spec fn unmeasured(tokens: bool, path: Text, error: Text) -> Text {
    if tokens {
        "token evaluation unavailable"@
    } else {
        "measurement unavailable for "@ + path + ": "@ + error
    }
}

/// The findings of one scanned file, or its error.
pub open spec fn file_findings(tokens: bool, file: Scanned) -> Result<Seq<FindingView>, Text> {
    match file.outcome {
        FileOutcome::Unmeasured(error) => Err(unmeasured(tokens, file.path@, error@)),
        FileOutcome::Unruled(error) => Err(error@),
        FileOutcome::Judged(judged) => hits_findings(file.path@, judged@),
    }
}

/// The findings of a scan, or the first error.
pub open spec fn scan_findings(tokens: bool, files: Seq<Scanned>) -> Result<Seq<FindingView>, Text>
    decreases files.len(),
{
    if files.len() == 0 {
        Ok(Seq::empty())
    } else {
        match scan_findings(tokens, files.drop_last()) {
            Err(error) => Err(error),
            Ok(found) => match file_findings(tokens, files.last()) {
                Err(error) => Err(error),
                Ok(more) => Ok(found + more),
            },
        }
    }
}

/// Whether a permanent entry of the hard registry silences the soft finding.
pub fn structural_hard_silences(judged: &Judged) -> (r: Result<bool, String>)
    ensures
        match r {
            Ok(silent) => hard_silences(*judged) == Ok::<bool, Text>(silent),
            Err(error) => hard_silences(*judged) == Err::<bool, Text>(error@),
        },
{
    let over: bool = match judged.hit.rule.budget.hard {
        Some(hard) => judged.hit.actual > hard,
        None => false,
    };
    if !over {
        return Ok(false);
    }
    match &judged.hard {
        Err(error) => Err(error.clone()),
        Ok(Verdict::Silenced(kind)) => Ok(*kind == Kind::Permanent),
        Ok(Verdict::Standing) => Ok(false),
    }
}

/// The finding of a rule.
fn rule_finding(path: &str, judged: &Judged) -> (r: Result<Option<FindingState>, String>)
    ensures
        match r {
            Ok(Some(finding)) => hit_finding(path@, *judged) == Ok::<Option<FindingView>, Text>(
                Some(finding@),
            ),
            Ok(None) => hit_finding(path@, *judged) == Ok::<Option<FindingView>, Text>(None),
            Err(error) => hit_finding(path@, *judged) == Err::<Option<FindingView>, Text>(error@),
        },
{
    let limit: u64 = match judged.hit.rule.budget.soft {
        Some(limit) => limit,
        None => {
            return Ok(None);
        },
    };
    if judged.hit.actual <= limit {
        return Ok(None);
    }
    match structural_hard_silences(judged) {
        Err(error) => {
            return Err(error);
        },
        Ok(silent) => {
            if silent {
                return Ok(None);
            }
        },
    }
    match &judged.soft {
        Err(error) => Err(error.clone()),
        Ok(Verdict::Silenced(_)) => Ok(None),
        Ok(Verdict::Standing) => Ok(
            Some(
                FindingState {
                    address: finding_address(
                        path,
                        judged.hit.rule.id.as_str(),
                        judged.hit.rule.budget.unit,
                    ),
                    actual: judged.hit.actual,
                    limit,
                },
            ),
        ),
    }
}

/// The first error stands whatever follows it.
proof fn lemma_hits_stop(path: Text, judged: Seq<Judged>, i: int)
    requires
        0 <= i <= judged.len(),
        hits_findings(path, judged.take(i)) is Err,
    ensures
        hits_findings(path, judged) == hits_findings(path, judged.take(i)),
    decreases judged.len() - i,
{
    if i < judged.len() {
        assert(judged.take(i + 1).drop_last() =~= judged.take(i));
        lemma_hits_stop(path, judged, i + 1);
    } else {
        assert(judged.take(i) =~= judged);
    }
}

proof fn lemma_scan_stops(tokens: bool, files: Seq<Scanned>, i: int)
    requires
        0 <= i <= files.len(),
        scan_findings(tokens, files.take(i)) is Err,
    ensures
        scan_findings(tokens, files) == scan_findings(tokens, files.take(i)),
    decreases files.len() - i,
{
    if i < files.len() {
        assert(files.take(i + 1).drop_last() =~= files.take(i));
        lemma_scan_stops(tokens, files, i + 1);
    } else {
        assert(files.take(i) =~= files);
    }
}

/// Adds the findings of one file.
fn push_findings(path: &str, judged: &Vec<Judged>, findings: &mut Vec<FindingState>) -> (r: Result<
    (),
    String,
>)
    ensures
        match r {
            Ok(_) => hits_findings(path@, judged@) matches Ok(more) && final(findings).deep_view()
                == old(findings).deep_view() + more,
            Err(error) => hits_findings(path@, judged@) == Err::<Seq<FindingView>, Text>(error@),
        },
{
    let ghost before = findings.deep_view();
    let mut i: usize = 0;
    assert(judged@.take(0) =~= Seq::empty());
    assert(findings.deep_view() =~= before + Seq::<FindingView>::empty());
    while i < judged.len()
        invariant
            i <= judged@.len(),
            before == old(findings).deep_view(),
            hits_findings(path@, judged@.take(i as int)) matches Ok(more) && findings.deep_view()
                == before + more,
        decreases judged@.len() - i,
    {
        assert(judged@.take(i + 1).drop_last() =~= judged@.take(i as int));
        assert(judged@.take(i + 1).last() == judged@[i as int]);
        let ghost more = hits_findings(path@, judged@.take(i as int))->Ok_0;
        match rule_finding(path, &judged[i]) {
            Err(error) => {
                proof {
                    lemma_hits_stop(path@, judged@, i + 1);
                }
                return Err(error);
            },
            Ok(None) => {},
            Ok(Some(finding)) => {
                let ghost here = findings.deep_view();
                let ghost shown = finding@;
                findings.push(finding);
                assert(findings.deep_view() =~= here.push(shown));
                assert(here.push(shown) =~= before + more.push(shown));
            },
        }
        i += 1;
    }
    assert(judged@.take(i as int) =~= judged@);
    Ok(())
}

/// The findings of a scan.
fn collect_findings(tokens: bool, files: &Vec<Scanned>) -> (r: Result<Vec<FindingState>, String>)
    ensures
        match r {
            Ok(found) => scan_findings(tokens, files@) == Ok::<Seq<FindingView>, Text>(
                found.deep_view(),
            ),
            Err(error) => scan_findings(tokens, files@) == Err::<Seq<FindingView>, Text>(error@),
        },
{
    let mut found: Vec<FindingState> = Vec::new();
    let mut i: usize = 0;
    assert(files@.take(0) =~= Seq::empty());
    assert(found.deep_view() =~= Seq::<FindingView>::empty());
    while i < files.len()
        invariant
            i <= files@.len(),
            scan_findings(tokens, files@.take(i as int)) == Ok::<Seq<FindingView>, Text>(
                found.deep_view(),
            ),
        decreases files@.len() - i,
    {
        assert(files@.take(i + 1).drop_last() =~= files@.take(i as int));
        assert(files@.take(i + 1).last() == files@[i as int]);
        let file = &files[i];
        let failed: Option<String> = match &file.outcome {
            FileOutcome::Unmeasured(error) => Some(
                if tokens {
                    "token evaluation unavailable".to_owned()
                } else {
                    let mut cause = "measurement unavailable for ".to_owned();
                    cause.append(file.path.as_str());
                    cause.append(": ");
                    cause.append(error.as_str());
                    cause
                },
            ),
            FileOutcome::Unruled(error) => Some(error.clone()),
            FileOutcome::Judged(judged) => match push_findings(
                file.path.as_str(),
                judged,
                &mut found,
            ) {
                Ok(_) => None,
                Err(error) => Some(error),
            },
        };
        match failed {
            Some(error) => {
                proof {
                    assert(file_findings(tokens, files@[i as int]) == Err::<
                        Seq<FindingView>,
                        Text,
                    >(error@));
                    lemma_scan_stops(tokens, files@, i + 1);
                }
                return Err(error);
            },
            None => {},
        }
        i += 1;
    }
    assert(files@.take(i as int) =~= files@);
    Ok(found)
}

// ---------------------------------------------------------------------------
// The snapshot
// ---------------------------------------------------------------------------

/// An exception entry as the commit has it.
pub open spec fn entry_of(entry: Exception) -> EntryView {
    EntryView { address: address_of(entry), value: entry.max_value as int, kind: entry.kind }
}

pub open spec fn entries_of(entries: Seq<Exception>) -> Seq<EntryView> {
    entries.map_values(|entry: Exception| entry_of(entry))
}

/// The path expressions of the rules, in order.
pub open spec fn rule_paths(rules: Seq<RuleSpec>) -> Seq<Text>
    decreases rules.len(),
{
    if rules.len() == 0 {
        Seq::empty()
    } else {
        rule_paths(rules.drop_last()) + rules.last().include_paths.deep_view()
            + rules.last().exclude.deep_view()
    }
}

/// The path expressions of the configuration: those of the scan, then those of
/// the rules.
pub open spec fn paths_of(loaded: Loaded) -> Seq<Text> {
    loaded.config.scan.include_paths.deep_view() + loaded.config.scan.exclude.deep_view()
        + rule_paths(loaded.config.rules@)
}

/// The snapshot of a revision: its entries and findings sorted by address.
pub open spec fn is_snapshot(
    revision: Revision,
    loaded: Loaded,
    found: Seq<FindingView>,
    blobs: Map<Text, String>,
    s: Snapshot,
) -> bool {
    &&& s.sha@ == revision.sha@
    &&& s.parents.deep_view() == revision.parents.deep_view()
    &&& s.timestamp == revision.timestamp
    &&& s.date@ == utc_text(revision.timestamp as int)
    &&& exists|unsorted: Seq<EntryState>| #[trigger]
        is_stable_sort(unsorted, s.entries@) && unsorted.map_values(|e: EntryState| e@)
            == entries_of(loaded.registries.entries@)
    &&& exists|unsorted: Seq<FindingState>| #[trigger]
        is_stable_sort(unsorted, s.findings@) && unsorted.map_values(|f: FindingState| f@) == found
    &&& s.blobs@ == blobs
    &&& s.config_paths.deep_view() == paths_of(loaded)
}

fn collect_entries(entries: &Vec<Exception>) -> (r: Vec<EntryState>)
    ensures
        r@.map_values(|e: EntryState| e@) == entries_of(entries@),
{
    let mut r: Vec<EntryState> = Vec::new();
    let mut i: usize = 0;
    while i < entries.len()
        invariant
            i <= entries@.len(),
            r@.len() == i,
            forall|j: int| #![trigger r@[j]] 0 <= j < i ==> r@[j]@ == entry_of(entries@[j]),
        decreases entries@.len() - i,
    {
        r.push(
            EntryState {
                address: Address::from_exception(&entries[i]),
                value: entries[i].max_value,
                kind: entries[i].kind,
            },
        );
        i += 1;
    }
    assert(r@.map_values(|e: EntryState| e@) =~= entries_of(entries@));
    r
}

fn push_texts(list: &mut Vec<String>, more: &Vec<String>)
    ensures
        final(list).deep_view() == old(list).deep_view() + more.deep_view(),
{
    let ghost before = list.deep_view();
    let ghost added = more.deep_view();
    let mut i: usize = 0;
    assert(list.deep_view() =~= before + added.take(0));
    while i < more.len()
        invariant
            i <= more@.len(),
            added == more.deep_view(),
            list.deep_view() == before + added.take(i as int),
        decreases more@.len() - i,
    {
        let ghost here = list.deep_view();
        list.push(more[i].clone());
        assert(added[i as int] == more@[i as int]@);
        assert(list.deep_view() =~= here.push(added[i as int]));
        assert(list.deep_view() =~= before + added.take(i + 1));
        i += 1;
    }
    assert(added.take(i as int) =~= added);
}

fn collect_paths(loaded: &Loaded) -> (r: Vec<String>)
    ensures
        r.deep_view() == paths_of(*loaded),
{
    let rules = &loaded.config.rules;
    let mut r = copy_texts(&loaded.config.scan.include_paths);
    push_texts(&mut r, &loaded.config.scan.exclude);
    let ghost head = r.deep_view();
    let mut i: usize = 0;
    assert(rules@.take(0) =~= Seq::empty());
    assert(r.deep_view() =~= head + rule_paths(rules@.take(0)));
    while i < rules.len()
        invariant
            i <= rules@.len(),
            r.deep_view() == head + rule_paths(rules@.take(i as int)),
        decreases rules@.len() - i,
    {
        assert(rules@.take(i + 1).drop_last() =~= rules@.take(i as int));
        assert(rules@.take(i + 1).last() == rules@[i as int]);
        push_texts(&mut r, &rules[i].include_paths);
        push_texts(&mut r, &rules[i].exclude);
        assert(r.deep_view() =~= head + rule_paths(rules@.take(i + 1)));
        i += 1;
    }
    assert(rules@.take(i as int) =~= rules@);
    r
}

fn at(repository: &Repository, revision: &Revision, cause: &str) -> (r: HistoryError)
    ensures
        r@ == failure_at(repository.range@, revision.sha@, cause@),
{
    repository.error_at(revision.sha.as_str(), cause)
}

/// The state of a committed revision, from its loaded configuration, the files
/// of its scan and the blobs of its tree. The first error is named with the
/// revision.
pub fn snapshot(
    repository: &Repository,
    revision: &Revision,
    loaded: Result<&Loaded, String>,
    files: Result<Vec<Scanned>, String>,
    blobs: TextMap<String>,
) -> (r: Result<Snapshot, HistoryError>)
    ensures
        match loaded {
            Err(cause) => r matches Err(error) && error@ == failure_at(
                repository.range@,
                revision.sha@,
                cause@,
            ),
            Ok(loaded) => match files {
                Err(cause) => r matches Err(error) && error@ == failure_at(
                    repository.range@,
                    revision.sha@,
                    cause@,
                ),
                Ok(files) => match scan_findings(loaded.config.tokens.enabled, files@) {
                    Err(cause) => r matches Err(error) && error@ == failure_at(
                        repository.range@,
                        revision.sha@,
                        cause,
                    ),
                    Ok(found) => r matches Ok(s) && is_snapshot(
                        *revision,
                        *loaded,
                        found,
                        blobs@,
                        s,
                    ),
                },
            },
        },
{
    let loaded = match loaded {
        Ok(loaded) => loaded,
        Err(cause) => {
            return Err(at(repository, revision, cause.as_str()));
        },
    };
    let files = match files {
        Ok(files) => files,
        Err(cause) => {
            return Err(at(repository, revision, cause.as_str()));
        },
    };
    let mut findings = match collect_findings(loaded.config.tokens.enabled, &files) {
        Ok(findings) => findings,
        Err(cause) => {
            return Err(at(repository, revision, cause.as_str()));
        },
    };
    let ghost unsorted_findings = findings@;
    assert(unsorted_findings.map_values(|f: FindingState| f@) =~= findings.deep_view());
    sort(&mut findings);
    let mut entries = collect_entries(&loaded.registries.entries);
    let ghost unsorted_entries = entries@;
    sort(&mut entries);
    let config_paths = collect_paths(loaded);
    let s = Snapshot {
        sha: revision.sha.clone(),
        parents: copy_texts(&revision.parents),
        timestamp: revision.timestamp,
        date: utc_date(revision.timestamp),
        entries,
        findings,
        blobs,
        config_paths,
    };
    assert(is_stable_sort(unsorted_entries, s.entries@));
    assert(is_stable_sort(unsorted_findings, s.findings@));
    Ok(s)
}

} // verus!
