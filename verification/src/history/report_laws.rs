//! What can be read back from a report: every field of its JSON by its name,
//! and every line of its text.

use vstd::prelude::*;

use super::data::{
    address_fields, address_text, ceiling_json, change_json, deferred_json, finding_json,
    renamed_json, AddressView, CeilingView, ChangeView, DeferredAgeView, FindingAgeView,
    MovementKind, RenamedView,
};
use super::report::{
    added_line, counts_view, deferred_line, finding_line, header_line, history_json,
    history_lines, history_text, lowered_line, raised_line, renamed_line, retired_line,
    summary_line, HistoryView,
};
use crate::json::JsonView;
use crate::text::{decimal, join, pieces, Text};
use crate::text_laws::lemma_joined_texts_split_back;

verus! {

// ---------------------------------------------------------------------------
// JSON
// ---------------------------------------------------------------------------

/// The field is there, and wherever its name stands it has this value.
pub open spec fn says(value: JsonView, name: Text, said: JsonView) -> bool {
    &&& value is Object
    &&& exists|i: int|
        #![trigger value->Object_0[i]]
        0 <= i < value->Object_0.len() && value->Object_0[i] == (name, said)
    &&& forall|i: int|
        #![trigger value->Object_0[i]]
        0 <= i < value->Object_0.len() && value->Object_0[i].0 == name ==> value->Object_0[i].1
            == said
}

/// The field is a list of exactly these texts.
pub open spec fn lists(value: JsonView, name: Text, texts: Seq<Text>) -> bool {
    exists|items: Seq<JsonView>| #[trigger]
        says(value, name, JsonView::Array(items)) && items.len() == texts.len() && forall|i: int|
            #![trigger items[i]]
            0 <= i < items.len() ==> items[i] == JsonView::Str(texts[i])
}

/// The object names every component of the address.
pub open spec fn says_address(value: JsonView, a: AddressView) -> bool {
    &&& says(value, "registry"@, JsonView::Str(a.registry))
    &&& says(value, "severity"@, JsonView::Str(a.severity))
    &&& says(value, "path"@, JsonView::Str(a.path))
    &&& says(value, "match"@, JsonView::Str(a.match_kind))
    &&& says(value, "unit"@, JsonView::Str(a.unit))
    &&& lists(value, "rules"@, a.rules)
}

proof fn lemma_names_differ()
    ensures
        "registry"@ != "severity"@,
        "registry"@ != "path"@,
        "registry"@ != "match"@,
        "registry"@ != "rules"@,
        "registry"@ != "unit"@,
        "severity"@ != "path"@,
        "severity"@ != "match"@,
        "severity"@ != "rules"@,
        "severity"@ != "unit"@,
        "path"@ != "match"@,
        "path"@ != "rules"@,
        "path"@ != "unit"@,
        "match"@ != "rules"@,
        "match"@ != "unit"@,
        "rules"@ != "unit"@,
{
    reveal_strlit("registry");
    reveal_strlit("severity");
    reveal_strlit("path");
    reveal_strlit("match");
    reveal_strlit("rules");
    reveal_strlit("unit");
    assert("registry"@.len() == 8 && "registry"@[0] == 'r');
    assert("severity"@.len() == 8 && "severity"@[0] == 's');
    assert("path"@.len() == 4 && "path"@[0] == 'p');
    assert("match"@.len() == 5 && "match"@[0] == 'm');
    assert("rules"@.len() == 5 && "rules"@[0] == 'r');
    assert("unit"@.len() == 4 && "unit"@[0] == 'u');
}

/// The name is none of an address.
pub open spec fn is_no_component(name: Text) -> bool {
    name != "registry"@ && name != "severity"@ && name != "path"@ && name != "match"@ && name
        != "rules"@ && name != "unit"@
}

proof fn lemma_more_names_differ()
    ensures
        is_no_component("value"@),
        is_no_component("old_value"@),
        is_no_component("new_value"@),
        is_no_component("first_seen_commit"@),
        is_no_component("first_seen_date"@),
        is_no_component("age_days"@),
        is_no_component("rule"@),
        is_no_component("actual"@),
        is_no_component("limit"@),
        "value"@ != "first_seen_commit"@,
        "value"@ != "first_seen_date"@,
        "value"@ != "age_days"@,
        "old_value"@ != "new_value"@,
        "first_seen_commit"@ != "first_seen_date"@,
        "first_seen_commit"@ != "age_days"@,
        "first_seen_date"@ != "age_days"@,
        "rule"@ != "actual"@,
        "rule"@ != "limit"@,
        "rule"@ != "first_seen_commit"@,
        "rule"@ != "first_seen_date"@,
        "rule"@ != "age_days"@,
        "actual"@ != "limit"@,
        "actual"@ != "first_seen_commit"@,
        "actual"@ != "first_seen_date"@,
        "actual"@ != "age_days"@,
        "limit"@ != "first_seen_commit"@,
        "limit"@ != "first_seen_date"@,
        "limit"@ != "age_days"@,
{
    reveal_strlit("registry");
    reveal_strlit("severity");
    reveal_strlit("path");
    reveal_strlit("match");
    reveal_strlit("rules");
    reveal_strlit("unit");
    reveal_strlit("value");
    reveal_strlit("old_value");
    reveal_strlit("new_value");
    reveal_strlit("first_seen_commit");
    reveal_strlit("first_seen_date");
    reveal_strlit("age_days");
    reveal_strlit("rule");
    reveal_strlit("actual");
    reveal_strlit("limit");
    assert("registry"@.len() == 8 && "registry"@[0] == 'r');
    assert("severity"@.len() == 8 && "severity"@[0] == 's');
    assert("path"@.len() == 4 && "path"@[0] == 'p');
    assert("match"@.len() == 5 && "match"@[0] == 'm');
    assert("rules"@.len() == 5 && "rules"@[0] == 'r');
    assert("unit"@.len() == 4 && "unit"@[0] == 'u');
    assert("value"@.len() == 5 && "value"@[0] == 'v');
    assert("old_value"@.len() == 9 && "old_value"@[0] == 'o');
    assert("new_value"@.len() == 9 && "new_value"@[0] == 'n');
    assert("first_seen_commit"@.len() == 17 && "first_seen_commit"@[0] == 'f');
    assert("first_seen_date"@.len() == 15 && "first_seen_date"@[0] == 'f');
    assert("age_days"@.len() == 8 && "age_days"@[0] == 'a');
    assert("rule"@.len() == 4 && "rule"@[0] == 'r');
    assert("actual"@.len() == 6 && "actual"@[0] == 'a');
    assert("limit"@.len() == 5 && "limit"@[0] == 'l');
}

/// From the JSON of an address each of its components can be read back under
/// its own name.
pub proof fn lemma_address_is_read_back(a: AddressView)
    ensures
        says_address(JsonView::Object(address_fields(a)), a),
{
    lemma_names_differ();
    let value = JsonView::Object(address_fields(a));
    let f = value->Object_0;
    assert(f[0] == ("registry"@, JsonView::Str(a.registry)));
    assert(f[1] == ("severity"@, JsonView::Str(a.severity)));
    assert(f[2] == ("path"@, JsonView::Str(a.path)));
    assert(f[3] == ("match"@, JsonView::Str(a.match_kind)));
    assert(f[5] == ("unit"@, JsonView::Str(a.unit)));
    let items = f[4].1->Array_0;
    assert(f[4] == ("rules"@, JsonView::Array(items)));
    assert(says(value, "rules"@, JsonView::Array(items)));
}

/// Fields that are added behind an address leave its components readable.
proof fn lemma_address_stays_readable(a: AddressView, more: Seq<(Text, JsonView)>)
    requires
        forall|i: int|
            #![trigger more[i]]
            0 <= i < more.len() ==> is_no_component(more[i].0),
    ensures
        says_address(JsonView::Object(address_fields(a) + more), a),
{
    lemma_names_differ();
    let value = JsonView::Object(address_fields(a) + more);
    let f = value->Object_0;
    assert(f[0] == ("registry"@, JsonView::Str(a.registry)));
    assert(f[1] == ("severity"@, JsonView::Str(a.severity)));
    assert(f[2] == ("path"@, JsonView::Str(a.path)));
    assert(f[3] == ("match"@, JsonView::Str(a.match_kind)));
    assert(f[5] == ("unit"@, JsonView::Str(a.unit)));
    let items = f[4].1->Array_0;
    assert(f[4] == ("rules"@, JsonView::Array(items)));
    assert forall|i: int| #![trigger f[i]] 6 <= i < f.len() implies f[i] == more[i - 6] by {}
    assert(says(value, "rules"@, JsonView::Array(items)));
}

/// An added or retired record gives back its address and its ceiling.
pub proof fn lemma_ceiling_is_read_back(c: CeilingView)
    ensures
        says_address(ceiling_json(c), c.address),
        says(ceiling_json(c), "value"@, JsonView::UInt(c.value)),
{
    lemma_more_names_differ();
    let f = ceiling_json(c)->Object_0;
    let more = seq![("value"@, JsonView::UInt(c.value))];
    assert(f =~= address_fields(c.address) + more);
    lemma_address_stays_readable(c.address, more);
    assert(f[6] == more[0]);
}

/// A ceiling movement gives back its address, the old value as the old one and
/// the new value as the new one.
pub proof fn lemma_change_is_read_back(c: ChangeView)
    ensures
        says_address(change_json(c), c.address),
        says(change_json(c), "old_value"@, JsonView::UInt(c.old_value)),
        says(change_json(c), "new_value"@, JsonView::UInt(c.new_value)),
{
    lemma_more_names_differ();
    let f = change_json(c)->Object_0;
    let more = seq![
        ("old_value"@, JsonView::UInt(c.old_value)),
        ("new_value"@, JsonView::UInt(c.new_value)),
    ];
    assert(f =~= address_fields(c.address) + more);
    lemma_address_stays_readable(c.address, more);
    assert(f[6] == more[0] && f[7] == more[1]);
}

/// A rename gives back its evidence, its old address and its new one.
pub proof fn lemma_renamed_is_read_back(m: RenamedView)
    ensures
        says(
            renamed_json(m),
            "kind"@,
            JsonView::Str(
                if m.kind == MovementKind::Directory {
                    "directory"@
                } else {
                    "exact-file"@
                },
            ),
        ),
        exists|old: JsonView| #[trigger]
            says(renamed_json(m), "old"@, old) && says_address(old, m.old),
        exists|new: JsonView| #[trigger]
            says(renamed_json(m), "new"@, new) && says_address(new, m.new),
{
    reveal_strlit("kind");
    reveal_strlit("old");
    reveal_strlit("new");
    assert("old"@[0] == 'o' && "new"@[0] == 'n');
    let f = renamed_json(m)->Object_0;
    assert(f.len() == 3);
    assert(f[0].0 == "kind"@);
    assert(f[1].0 == "old"@ && f[2].0 == "new"@);
    lemma_address_is_read_back(m.old);
    lemma_address_is_read_back(m.new);
    let old = JsonView::Object(address_fields(m.old));
    let new = JsonView::Object(address_fields(m.new));
    assert(f[1].1 == old && f[2].1 == new);
    assert(says(renamed_json(m), "old"@, old));
    assert(says(renamed_json(m), "new"@, new));
}

/// The age of a deferred entry gives back the entry, and since when it stands.
pub proof fn lemma_deferred_is_read_back(a: DeferredAgeView)
    ensures
        says_address(deferred_json(a), a.entry.address),
        says(deferred_json(a), "value"@, JsonView::UInt(a.entry.value)),
        says(deferred_json(a), "first_seen_commit"@, JsonView::Str(a.first_seen_commit)),
        says(deferred_json(a), "first_seen_date"@, JsonView::Str(a.first_seen_date)),
        says(deferred_json(a), "age_days"@, JsonView::UInt(a.age_days)),
{
    lemma_more_names_differ();
    let f = deferred_json(a)->Object_0;
    let more = seq![
        ("value"@, JsonView::UInt(a.entry.value)),
        ("first_seen_commit"@, JsonView::Str(a.first_seen_commit)),
        ("first_seen_date"@, JsonView::Str(a.first_seen_date)),
        ("age_days"@, JsonView::UInt(a.age_days)),
    ];
    assert(f =~= address_fields(a.entry.address) + more);
    lemma_address_stays_readable(a.entry.address, more);
    assert(f[6] == more[0] && f[7] == more[1] && f[8] == more[2] && f[9] == more[3]);
}

/// The age of a finding gives back the finding, and since when it stands.
pub proof fn lemma_finding_is_read_back(a: FindingAgeView)
    ensures
        says(finding_json(a), "severity"@, JsonView::Str("soft"@)),
        says(finding_json(a), "path"@, JsonView::Str(a.finding.address.path)),
        says(finding_json(a), "rule"@, JsonView::Str(a.finding.address.rule)),
        says(finding_json(a), "unit"@, JsonView::Str(a.finding.address.unit)),
        says(finding_json(a), "actual"@, JsonView::UInt(a.finding.actual)),
        says(finding_json(a), "limit"@, JsonView::UInt(a.finding.limit)),
        says(finding_json(a), "first_seen_commit"@, JsonView::Str(a.first_seen_commit)),
        says(finding_json(a), "first_seen_date"@, JsonView::Str(a.first_seen_date)),
        says(finding_json(a), "age_days"@, JsonView::UInt(a.age_days)),
{
    lemma_names_differ();
    lemma_more_names_differ();
    let f = finding_json(a)->Object_0;
    assert(f.len() == 9);
    assert(f[0].0 == "severity"@ && f[1].0 == "path"@ && f[2].0 == "rule"@);
    assert(f[3].0 == "unit"@ && f[4].0 == "actual"@ && f[5].0 == "limit"@);
    assert(f[6].0 == "first_seen_commit"@ && f[7].0 == "first_seen_date"@);
    assert(f[8].0 == "age_days"@);
}

/// The field is a list of so many records.
pub open spec fn holds_records(value: JsonView, name: Text, items: Seq<JsonView>) -> bool {
    says(value, name, JsonView::Array(items))
}

proof fn lemma_top_names_differ(i: int, j: int)
    requires
        0 <= i < 10,
        0 <= j < 10,
        i != j,
    ensures
        top_names()[i] != top_names()[j],
{
    reveal_strlit("from");
    reveal_strlit("to");
    reveal_strlit("counts");
    reveal_strlit("added");
    reveal_strlit("retired");
    reveal_strlit("raised");
    reveal_strlit("lowered");
    reveal_strlit("renamed");
    reveal_strlit("deferred_ages");
    reveal_strlit("soft_finding_ages");
    assert("from"@.len() == 4 && "from"@[0] == 'f');
    assert("to"@.len() == 2 && "to"@[0] == 't');
    assert("counts"@.len() == 6 && "counts"@[0] == 'c');
    assert("added"@.len() == 5 && "added"@[0] == 'a');
    assert("retired"@.len() == 7 && "retired"@[0] == 'r');
    assert("raised"@.len() == 6 && "raised"@[0] == 'r');
    assert("lowered"@.len() == 7 && "lowered"@[0] == 'l');
    assert("renamed"@.len() == 7 && "renamed"@[0] == 'r');
    assert("deferred_ages"@.len() == 13 && "deferred_ages"@[0] == 'd');
    assert("soft_finding_ages"@.len() == 17 && "soft_finding_ages"@[0] == 's');
    assert("retired"@[2] == 't' && "lowered"@[2] == 'w' && "renamed"@[2] == 'n');
}

/// The names of a report's fields.
pub open spec fn top_names() -> Seq<Text> {
    seq![
        "from"@,
        "to"@,
        "counts"@,
        "added"@,
        "retired"@,
        "raised"@,
        "lowered"@,
        "renamed"@,
        "deferred_ages"@,
        "soft_finding_ages"@,
    ]
}

/// A report names its endpoints and counts its records under the names of their
/// lists.
pub proof fn lemma_report_is_read_back(h: HistoryView)
    ensures
        says(history_json(h), "from"@, JsonView::Str(h.from)),
        says(history_json(h), "to"@, JsonView::Str(h.to)),
        exists|counts: JsonView|
            {
                &&& #[trigger] says(history_json(h), "counts"@, counts)
                &&& says(counts, "added"@, JsonView::UInt(h.added.len() as int))
                &&& says(counts, "retired"@, JsonView::UInt(h.retired.len() as int))
                &&& says(counts, "raised"@, JsonView::UInt(h.raised.len() as int))
                &&& says(counts, "lowered"@, JsonView::UInt(h.lowered.len() as int))
                &&& says(counts, "renamed"@, JsonView::UInt(h.renamed.len() as int))
                &&& says(counts, "deferred_ages"@, JsonView::UInt(h.deferred_ages.len() as int))
                &&& says(
                    counts,
                    "soft_finding_ages"@,
                    JsonView::UInt(h.soft_finding_ages.len() as int),
                )
            },
{
    let f = history_json(h)->Object_0;
    assert(f.len() == 10);
    assert forall|i: int| #![trigger f[i]] 0 <= i < 10 implies f[i].0 == top_names()[i] by {}
    assert forall|i: int, j: int| 0 <= i < 10 && 0 <= j < 10 && i != j implies (
    #[trigger] top_names()[i]) != (#[trigger] top_names()[j]) by {
        lemma_top_names_differ(i, j);
    }
    let c = counts_view(h)->Object_0;
    assert(c.len() == 7);
    assert forall|i: int| #![trigger c[i]] 0 <= i < 7 implies c[i].0 == top_names()[i + 3] by {}
    assert(f[0].0 == "from"@ && f[1].0 == "to"@ && f[2] == ("counts"@, counts_view(h)));
    assert(top_names()[0] == "from"@ && top_names()[1] == "to"@ && top_names()[2] == "counts"@);
    assert(top_names()[3] == "added"@ && top_names()[4] == "retired"@);
    assert(top_names()[5] == "raised"@ && top_names()[6] == "lowered"@);
    assert(top_names()[7] == "renamed"@ && top_names()[8] == "deferred_ages"@);
    assert(top_names()[9] == "soft_finding_ages"@);
    assert(c[0].0 == "added"@ && c[1].0 == "retired"@ && c[2].0 == "raised"@);
    assert(c[3].0 == "lowered"@ && c[4].0 == "renamed"@ && c[5].0 == "deferred_ages"@);
    assert(c[6].0 == "soft_finding_ages"@);
    assert(says(history_json(h), "counts"@, counts_view(h)));
}

/// Every list of a report holds its records, each in its place and readable.
pub proof fn lemma_report_lists_its_records(h: HistoryView, i: int)
    ensures
        exists|items: Seq<JsonView>|
            {
                &&& #[trigger] holds_records(history_json(h), "added"@, items)
                &&& items.len() == h.added.len()
                &&& 0 <= i < items.len() ==> says_address(items[i], h.added[i].address) && says(
                    items[i],
                    "value"@,
                    JsonView::UInt(h.added[i].value),
                )
            },
        exists|items: Seq<JsonView>|
            {
                &&& #[trigger] holds_records(history_json(h), "retired"@, items)
                &&& items.len() == h.retired.len()
                &&& 0 <= i < items.len() ==> says_address(items[i], h.retired[i].address) && says(
                    items[i],
                    "value"@,
                    JsonView::UInt(h.retired[i].value),
                )
            },
        exists|items: Seq<JsonView>|
            {
                &&& #[trigger] holds_records(history_json(h), "raised"@, items)
                &&& items.len() == h.raised.len()
                &&& 0 <= i < items.len() ==> says_address(items[i], h.raised[i].address) && says(
                    items[i],
                    "old_value"@,
                    JsonView::UInt(h.raised[i].old_value),
                ) && says(items[i], "new_value"@, JsonView::UInt(h.raised[i].new_value))
            },
        exists|items: Seq<JsonView>|
            {
                &&& #[trigger] holds_records(history_json(h), "lowered"@, items)
                &&& items.len() == h.lowered.len()
                &&& 0 <= i < items.len() ==> says_address(items[i], h.lowered[i].address) && says(
                    items[i],
                    "old_value"@,
                    JsonView::UInt(h.lowered[i].old_value),
                ) && says(items[i], "new_value"@, JsonView::UInt(h.lowered[i].new_value))
            },
        exists|items: Seq<JsonView>|
            {
                &&& #[trigger] holds_records(history_json(h), "renamed"@, items)
                &&& items.len() == h.renamed.len()
                &&& 0 <= i < items.len() ==> exists|old: JsonView, new: JsonView| #[trigger]
                    says(items[i], "old"@, old) && #[trigger] says(items[i], "new"@, new)
                        && says_address(old, h.renamed[i].old) && says_address(
                        new,
                        h.renamed[i].new,
                    )
            },
        exists|items: Seq<JsonView>|
            {
                &&& #[trigger] holds_records(history_json(h), "deferred_ages"@, items)
                &&& items.len() == h.deferred_ages.len()
                &&& 0 <= i < items.len() ==> says_address(
                    items[i],
                    h.deferred_ages[i].entry.address,
                ) && says(items[i], "age_days"@, JsonView::UInt(h.deferred_ages[i].age_days))
            },
        exists|items: Seq<JsonView>|
            {
                &&& #[trigger] holds_records(history_json(h), "soft_finding_ages"@, items)
                &&& items.len() == h.soft_finding_ages.len()
                &&& 0 <= i < items.len() ==> says(
                    items[i],
                    "path"@,
                    JsonView::Str(h.soft_finding_ages[i].finding.address.path),
                ) && says(items[i], "age_days"@, JsonView::UInt(h.soft_finding_ages[i].age_days))
            },
{
    let value = history_json(h);
    let f = value->Object_0;
    assert(f.len() == 10);
    assert forall|k: int| #![trigger f[k]] 0 <= k < 10 implies f[k].0 == top_names()[k] by {}
    assert forall|k: int, m: int| 0 <= k < 10 && 0 <= m < 10 && k != m implies (
    #[trigger] top_names()[k]) != (#[trigger] top_names()[m]) by {
        lemma_top_names_differ(k, m);
    }
    assert(top_names()[3] == "added"@ && top_names()[4] == "retired"@);
    assert(top_names()[5] == "raised"@ && top_names()[6] == "lowered"@);
    assert(top_names()[7] == "renamed"@ && top_names()[8] == "deferred_ages"@);
    assert(top_names()[9] == "soft_finding_ages"@);
    assert forall|k: int| 3 <= k < 10 implies #[trigger] holds_records(
        value,
        top_names()[k],
        f[k].1->Array_0,
    ) by {
        assert(f[k].0 == top_names()[k]);
    }
    assert(holds_records(value, top_names()[3], f[3].1->Array_0));
    assert(holds_records(value, top_names()[4], f[4].1->Array_0));
    assert(holds_records(value, top_names()[5], f[5].1->Array_0));
    assert(holds_records(value, top_names()[6], f[6].1->Array_0));
    assert(holds_records(value, top_names()[7], f[7].1->Array_0));
    assert(holds_records(value, top_names()[8], f[8].1->Array_0));
    assert(holds_records(value, top_names()[9], f[9].1->Array_0));
    if 0 <= i < h.added.len() {
        lemma_ceiling_is_read_back(h.added[i]);
    }
    if 0 <= i < h.retired.len() {
        lemma_ceiling_is_read_back(h.retired[i]);
    }
    if 0 <= i < h.raised.len() {
        lemma_change_is_read_back(h.raised[i]);
    }
    if 0 <= i < h.lowered.len() {
        lemma_change_is_read_back(h.lowered[i]);
    }
    if 0 <= i < h.renamed.len() {
        let m = h.renamed[i];
        lemma_renamed_is_read_back(m);
        let old = choose|old: JsonView| #[trigger]
            says(renamed_json(m), "old"@, old) && says_address(old, m.old);
        let new = choose|new: JsonView| #[trigger]
            says(renamed_json(m), "new"@, new) && says_address(new, m.new);
        let item = (f[7].1->Array_0)[i];
        assert(item == renamed_json(m));
        assert(says(item, "old"@, old) && says(item, "new"@, new));
    }
    if 0 <= i < h.deferred_ages.len() {
        lemma_deferred_is_read_back(h.deferred_ages[i]);
    }
    if 0 <= i < h.soft_finding_ages.len() {
        lemma_finding_is_read_back(h.soft_finding_ages[i]);
    }
}

// ---------------------------------------------------------------------------
// Text
// ---------------------------------------------------------------------------

/// The text begins with `part`.
pub open spec fn opens(s: Text, part: Text) -> bool {
    part.len() <= s.len() && forall|i: int|
        #![trigger part[i]]
        0 <= i < part.len() ==> s[i] == part[i]
}

/// The text ends with `part`.
pub open spec fn closes(s: Text, part: Text) -> bool {
    part.len() <= s.len() && forall|i: int|
        #![trigger part[i]]
        0 <= i < part.len() ==> s[s.len() - part.len() + i] == part[i]
}

proof fn lemma_opens(s: Text, part: Text, rest: Text)
    requires
        s == part + rest,
    ensures
        opens(s, part),
{
}

proof fn lemma_closes(s: Text, rest: Text, part: Text)
    requires
        s == rest + part,
    ensures
        closes(s, part),
{
}

/// An address is written from its severity, over its registry, path and match,
/// to its rules, and closes with its unit.
pub proof fn lemma_address_text_is_ordered(a: AddressView)
    ensures
        opens(
            address_text(a),
            a.severity + " "@ + a.registry + ": "@ + a.path + " [match="@ + a.match_kind
                + "; rules="@ + join(a.rules, ","@),
        ),
        closes(address_text(a), "; unit="@ + a.unit + "]"@),
{
    let first = a.severity + " "@ + a.registry + ": "@ + a.path + " [match="@ + a.match_kind
        + "; rules="@ + join(a.rules, ","@);
    let last = "; unit="@ + a.unit + "]"@;
    assert(address_text(a) =~= first + last);
    lemma_opens(address_text(a), first, last);
    lemma_closes(address_text(a), first, last);
}

/// An added entry is announced as added and a retired one as retired; each line
/// goes on with the address and closes with the ceiling.
pub proof fn lemma_ceiling_lines(c: CeilingView)
    ensures
        opens(added_line(c), "  added: "@ + c.address.severity + " "@ + c.address.registry),
        closes(added_line(c), c.address.unit + "] = "@ + decimal(c.value as nat)),
        opens(retired_line(c), "  retired: "@ + c.address.severity + " "@ + c.address.registry),
        closes(retired_line(c), c.address.unit + "] = "@ + decimal(c.value as nat)),
{
    reveal_strlit("]");
    reveal_strlit(" = ");
    reveal_strlit("] = ");
    let a = c.address;
    let inner = ": "@ + a.path + " [match="@ + a.match_kind + "; rules="@ + join(a.rules, ","@)
        + "; unit="@;
    let last = a.unit + "] = "@ + decimal(c.value as nat);
    let end = a.unit + "]"@ + " = "@ + decimal(c.value as nat);
    assert(last =~= end);
    let added = "  added: "@ + a.severity + " "@ + a.registry;
    let retired = "  retired: "@ + a.severity + " "@ + a.registry;
    assert(added_line(c) =~= added + inner + end);
    assert(retired_line(c) =~= retired + inner + end);
    assert(added_line(c) =~= added + (inner + end));
    assert(retired_line(c) =~= retired + (inner + end));
    lemma_opens(added_line(c), added, inner + end);
    lemma_opens(retired_line(c), retired, inner + end);
    lemma_closes(added_line(c), added + inner, last);
    lemma_closes(retired_line(c), retired + inner, last);
}

/// A ceiling movement is announced by its direction and closes with the old
/// value and then the new one.
pub proof fn lemma_change_lines(c: ChangeView)
    ensures
        opens(raised_line(c), "  raised: "@ + c.address.severity + " "@ + c.address.registry),
        closes(
            raised_line(c),
            c.address.unit + "] "@ + decimal(c.old_value as nat) + " -> "@ + decimal(
                c.new_value as nat,
            ),
        ),
        opens(lowered_line(c), "  lowered: "@ + c.address.severity + " "@ + c.address.registry),
        closes(
            lowered_line(c),
            c.address.unit + "] "@ + decimal(c.old_value as nat) + " -> "@ + decimal(
                c.new_value as nat,
            ),
        ),
{
    reveal_strlit("]");
    reveal_strlit(" ");
    reveal_strlit("] ");
    let a = c.address;
    let inner = ": "@ + a.path + " [match="@ + a.match_kind + "; rules="@ + join(a.rules, ","@)
        + "; unit="@;
    let values = decimal(c.old_value as nat) + " -> "@ + decimal(c.new_value as nat);
    let last = a.unit + "] "@ + decimal(c.old_value as nat) + " -> "@ + decimal(
        c.new_value as nat,
    );
    assert(last =~= a.unit + "]"@ + " "@ + values);
    let raised = "  raised: "@ + a.severity + " "@ + a.registry;
    let lowered = "  lowered: "@ + a.severity + " "@ + a.registry;
    assert(raised_line(c) =~= raised + inner + last);
    assert(lowered_line(c) =~= lowered + inner + last);
    assert(raised_line(c) =~= raised + (inner + last));
    assert(lowered_line(c) =~= lowered + (inner + last));
    lemma_opens(raised_line(c), raised, inner + last);
    lemma_opens(lowered_line(c), lowered, inner + last);
    lemma_closes(raised_line(c), raised + inner, last);
    lemma_closes(lowered_line(c), lowered + inner, last);
}

/// A rename names its evidence, and goes from the old path to the new one.
pub proof fn lemma_renamed_line(m: RenamedView)
    ensures
        opens(
            renamed_line(m),
            "  renamed: "@ + (if m.kind == MovementKind::Directory {
                "directory"@
            } else {
                "exact-file"@
            }) + " "@ + m.new.severity + " "@ + m.new.registry + ": "@ + m.old.path + " -> "@
                + m.new.path,
        ),
        closes(renamed_line(m), "; unit="@ + m.new.unit + "]"@),
        closes(
            renamed_line(m),
            " [match="@ + m.new.match_kind + "; rules="@ + join(m.new.rules, ","@) + "; unit="@
                + m.new.unit + "]"@,
        ),
{
    let first = "  renamed: "@ + m.kind.text() + " "@ + m.new.severity + " "@ + m.new.registry
        + ": "@ + m.old.path + " -> "@ + m.new.path;
    let tail = "; unit="@ + m.new.unit + "]"@;
    let inner = " [match="@ + m.new.match_kind + "; rules="@ + join(m.new.rules, ","@);
    let last = " [match="@ + m.new.match_kind + "; rules="@ + join(m.new.rules, ","@) + "; unit="@
        + m.new.unit + "]"@;
    assert(last =~= inner + tail);
    assert(renamed_line(m) =~= first + last);
    assert(renamed_line(m) =~= (first + inner) + tail);
    lemma_opens(renamed_line(m), first, last);
    lemma_closes(renamed_line(m), first, last);
    lemma_closes(renamed_line(m), first + inner, tail);
}

/// The age of a deferred entry opens with the entry and closes with its ceiling,
/// the commit and the date of its first appearance, and its days.
pub proof fn lemma_deferred_line(a: DeferredAgeView)
    ensures
        opens(
            deferred_line(a),
            "  deferred age: "@ + a.entry.address.severity + " "@ + a.entry.address.registry,
        ),
        closes(
            deferred_line(a),
            " = "@ + decimal(a.entry.value as nat) + "; first "@ + a.first_seen_commit + " "@
                + a.first_seen_date + "; "@ + decimal(a.age_days as nat) + " days"@,
        ),
{
    let e = a.entry.address;
    let first = "  deferred age: "@ + e.severity + " "@ + e.registry;
    let inner = ": "@ + e.path + " [match="@ + e.match_kind + "; rules="@ + join(e.rules, ","@)
        + "; unit="@ + e.unit + "]"@;
    let last = " = "@ + decimal(a.entry.value as nat) + "; first "@ + a.first_seen_commit + " "@
        + a.first_seen_date + "; "@ + decimal(a.age_days as nat) + " days"@;
    assert(deferred_line(a) =~= first + inner + last);
    assert(deferred_line(a) =~= first + (inner + last));
    lemma_opens(deferred_line(a), first, inner + last);
    lemma_closes(deferred_line(a), first + inner, last);
}

/// The age of a finding opens with the finding, its value and the limit that it
/// is over, and closes with its first appearance and its days.
pub proof fn lemma_finding_line(a: FindingAgeView)
    ensures
        opens(
            finding_line(a),
            "  soft finding age: "@ + a.finding.address.path + " [rule="@ + a.finding.address.rule
                + "; unit="@ + a.finding.address.unit + "] "@ + decimal(a.finding.actual as nat)
                + " > "@ + decimal(a.finding.limit as nat),
        ),
        closes(
            finding_line(a),
            "; first "@ + a.first_seen_commit + " "@ + a.first_seen_date + "; "@ + decimal(
                a.age_days as nat,
            ) + " days"@,
        ),
{
    let first = "  soft finding age: "@ + a.finding.address.path + " [rule="@
        + a.finding.address.rule + "; unit="@ + a.finding.address.unit + "] "@ + decimal(
        a.finding.actual as nat,
    ) + " > "@ + decimal(a.finding.limit as nat);
    let last = "; first "@ + a.first_seen_commit + " "@ + a.first_seen_date + "; "@ + decimal(
        a.age_days as nat,
    ) + " days"@;
    assert(finding_line(a) =~= first + last);
    lemma_opens(finding_line(a), first, last);
    lemma_closes(finding_line(a), first, last);
}

/// A report is headed by its two endpoints and by how many records of each kind
/// follow.
pub proof fn lemma_report_opens(h: HistoryView)
    ensures
        history_lines(h).len() >= 2,
        opens(history_lines(h)[0], "history "@ + h.from + ".."@ + h.to),
        closes(history_lines(h)[0], ":"@),
        opens(
            history_lines(h)[1],
            "  exceptions: +"@ + decimal(h.added.len()) + " -"@ + decimal(h.retired.len()),
        ),
        closes(
            history_lines(h)[1],
            "; ceilings: "@ + decimal(h.raised.len()) + " raised, "@ + decimal(h.lowered.len())
                + " lowered; renames: "@ + decimal(h.renamed.len()),
        ),
{
    let first = "history "@ + h.from + ".."@ + h.to;
    assert(history_lines(h)[0] == header_line(h));
    assert(history_lines(h)[1] == summary_line(h));
    lemma_opens(header_line(h), first, ":"@);
    lemma_closes(header_line(h), first, ":"@);
    let front = "  exceptions: +"@ + decimal(h.added.len()) + " -"@ + decimal(h.retired.len());
    let last = "; ceilings: "@ + decimal(h.raised.len()) + " raised, "@ + decimal(h.lowered.len())
        + " lowered; renames: "@ + decimal(h.renamed.len());
    assert(summary_line(h) =~= front + last);
    lemma_opens(summary_line(h), front, last);
    lemma_closes(summary_line(h), front, last);
}

/// After its two heading lines a report has one line for each record, kind by
/// kind and in the order of the records.
pub proof fn lemma_report_has_one_line_per_record(h: HistoryView, i: int)
    ensures
        history_lines(h).len() == 2 + h.added.len() + h.retired.len() + h.raised.len()
            + h.lowered.len() + h.renamed.len() + h.deferred_ages.len() + h.soft_finding_ages.len(),
        0 <= i < h.added.len() ==> history_lines(h)[2 + i] == added_line(h.added[i]),
        0 <= i < h.retired.len() ==> history_lines(h)[2 + h.added.len() + i] == retired_line(
            h.retired[i],
        ),
        0 <= i < h.raised.len() ==> history_lines(h)[2 + h.added.len() + h.retired.len() + i]
            == raised_line(h.raised[i]),
        0 <= i < h.lowered.len() ==> history_lines(h)[2 + h.added.len() + h.retired.len()
            + h.raised.len() + i] == lowered_line(h.lowered[i]),
        0 <= i < h.renamed.len() ==> history_lines(h)[2 + h.added.len() + h.retired.len()
            + h.raised.len() + h.lowered.len() + i] == renamed_line(h.renamed[i]),
        0 <= i < h.deferred_ages.len() ==> history_lines(h)[2 + h.added.len() + h.retired.len()
            + h.raised.len() + h.lowered.len() + h.renamed.len() + i] == deferred_line(
            h.deferred_ages[i],
        ),
        0 <= i < h.soft_finding_ages.len() ==> history_lines(h)[2 + h.added.len()
            + h.retired.len() + h.raised.len() + h.lowered.len() + h.renamed.len()
            + h.deferred_ages.len() + i] == finding_line(h.soft_finding_ages[i]),
{
}

/// The text of a report is its lines, one to a line: unless one of them holds a
/// line end, cutting the text there gives them back.
pub proof fn lemma_report_text_is_its_lines(h: HistoryView)
    requires
        forall|i: int|
            #![trigger history_lines(h)[i]]
            0 <= i < history_lines(h).len() ==> !history_lines(h)[i].contains('\n'),
    ensures
        pieces(history_text(h), '\n') == history_lines(h),
{
    reveal_strlit("\n");
    assert("\n"@ =~= seq!['\n']);
    lemma_joined_texts_split_back(history_lines(h), '\n');
}

} // verus!
