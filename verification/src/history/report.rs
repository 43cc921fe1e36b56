//! The report of a comparison, written as text and as JSON.

use vstd::prelude::*;
use vstd::string::*;

use super::data::{
    address_text, ceiling_json, change_json, deferred_json, finding_json, renamed_json, Ceiling,
    CeilingChange, CeilingView, ChangeView, DeferredAge, DeferredAgeView, FindingAge,
    FindingAgeView, Renamed, RenamedView,
};
use crate::json::{push_field, push_item, shown_fields, shown_items, Json, JsonView};
use crate::text::{append_decimal, decimal, join, joined, Text};

verus! {

/// The comparison of two committed states.
#[derive(Debug)]
pub struct History {
    pub from: String,
    pub to: String,
    pub added: Vec<Ceiling>,
    pub retired: Vec<Ceiling>,
    pub raised: Vec<CeilingChange>,
    pub lowered: Vec<CeilingChange>,
    pub renamed: Vec<Renamed>,
    pub deferred_ages: Vec<DeferredAge>,
    pub soft_finding_ages: Vec<FindingAge>,
}

pub struct HistoryView {
    pub from: Text,
    pub to: Text,
    pub added: Seq<CeilingView>,
    pub retired: Seq<CeilingView>,
    pub raised: Seq<ChangeView>,
    pub lowered: Seq<ChangeView>,
    pub renamed: Seq<RenamedView>,
    pub deferred_ages: Seq<DeferredAgeView>,
    pub soft_finding_ages: Seq<FindingAgeView>,
}

impl View for History {
    type V = HistoryView;

    open spec fn view(&self) -> HistoryView {
        HistoryView {
            from: self.from@,
            to: self.to@,
            added: self.added.deep_view(),
            retired: self.retired.deep_view(),
            raised: self.raised.deep_view(),
            lowered: self.lowered.deep_view(),
            renamed: self.renamed.deep_view(),
            deferred_ages: self.deferred_ages.deep_view(),
            soft_finding_ages: self.soft_finding_ages.deep_view(),
        }
    }
}

pub open spec fn header_line(h: HistoryView) -> Text {
    "history "@ + h.from + ".."@ + h.to + ":"@
}

pub open spec fn summary_line(h: HistoryView) -> Text {
    "  exceptions: +"@ + decimal(h.added.len()) + " -"@ + decimal(h.retired.len())
        + "; ceilings: "@ + decimal(h.raised.len()) + " raised, "@ + decimal(h.lowered.len())
        + " lowered; renames: "@ + decimal(h.renamed.len())
}

pub open spec fn added_line(c: CeilingView) -> Text {
    "  added: "@ + address_text(c.address) + " = "@ + decimal(c.value as nat)
}

pub open spec fn retired_line(c: CeilingView) -> Text {
    "  retired: "@ + address_text(c.address) + " = "@ + decimal(c.value as nat)
}

pub open spec fn raised_line(c: ChangeView) -> Text {
    "  raised: "@ + address_text(c.address) + " "@ + decimal(c.old_value as nat) + " -> "@
        + decimal(c.new_value as nat)
}

pub open spec fn lowered_line(c: ChangeView) -> Text {
    "  lowered: "@ + address_text(c.address) + " "@ + decimal(c.old_value as nat) + " -> "@
        + decimal(c.new_value as nat)
}

pub open spec fn renamed_line(m: RenamedView) -> Text {
    "  renamed: "@ + m.kind.text() + " "@ + m.new.severity + " "@ + m.new.registry + ": "@
        + m.old.path + " -> "@ + m.new.path + " [match="@ + m.new.match_kind + "; rules="@
        + join(m.new.rules, ","@) + "; unit="@ + m.new.unit + "]"@
}

pub open spec fn deferred_line(a: DeferredAgeView) -> Text {
    "  deferred age: "@ + address_text(a.entry.address) + " = "@ + decimal(a.entry.value as nat)
        + "; first "@ + a.first_seen_commit + " "@ + a.first_seen_date + "; "@ + decimal(
        a.age_days as nat,
    ) + " days"@
}

pub open spec fn finding_line(a: FindingAgeView) -> Text {
    "  soft finding age: "@ + a.finding.address.path + " [rule="@ + a.finding.address.rule
        + "; unit="@ + a.finding.address.unit + "] "@ + decimal(a.finding.actual as nat) + " > "@
        + decimal(a.finding.limit as nat) + "; first "@ + a.first_seen_commit + " "@
        + a.first_seen_date + "; "@ + decimal(a.age_days as nat) + " days"@
}

/// The lines of the report: the header, the summary, and one line per record.
pub open spec fn history_lines(h: HistoryView) -> Seq<Text> {
    seq![header_line(h), summary_line(h)]
        + h.added.map_values(|c: CeilingView| added_line(c))
        + h.retired.map_values(|c: CeilingView| retired_line(c))
        + h.raised.map_values(|c: ChangeView| raised_line(c))
        + h.lowered.map_values(|c: ChangeView| lowered_line(c))
        + h.renamed.map_values(|m: RenamedView| renamed_line(m))
        + h.deferred_ages.map_values(|a: DeferredAgeView| deferred_line(a))
        + h.soft_finding_ages.map_values(|a: FindingAgeView| finding_line(a))
}

/// The report as text.
pub open spec fn history_text(h: HistoryView) -> Text {
    join(history_lines(h), "\n"@)
}

pub open spec fn counts_view(h: HistoryView) -> JsonView {
    JsonView::Object(
        seq![
            ("added"@, JsonView::UInt(h.added.len() as int)),
            ("retired"@, JsonView::UInt(h.retired.len() as int)),
            ("raised"@, JsonView::UInt(h.raised.len() as int)),
            ("lowered"@, JsonView::UInt(h.lowered.len() as int)),
            ("renamed"@, JsonView::UInt(h.renamed.len() as int)),
            ("deferred_ages"@, JsonView::UInt(h.deferred_ages.len() as int)),
            ("soft_finding_ages"@, JsonView::UInt(h.soft_finding_ages.len() as int)),
        ],
    )
}

/// The report as JSON.
pub open spec fn history_json(h: HistoryView) -> JsonView {
    JsonView::Object(
        seq![
            ("from"@, JsonView::Str(h.from)),
            ("to"@, JsonView::Str(h.to)),
            ("counts"@, counts_view(h)),
            ("added"@, JsonView::Array(h.added.map_values(|c: CeilingView| ceiling_json(c)))),
            ("retired"@, JsonView::Array(h.retired.map_values(|c: CeilingView| ceiling_json(c)))),
            ("raised"@, JsonView::Array(h.raised.map_values(|c: ChangeView| change_json(c)))),
            ("lowered"@, JsonView::Array(h.lowered.map_values(|c: ChangeView| change_json(c)))),
            ("renamed"@, JsonView::Array(h.renamed.map_values(|m: RenamedView| renamed_json(m)))),
            (
                "deferred_ages"@,
                JsonView::Array(
                    h.deferred_ages.map_values(|a: DeferredAgeView| deferred_json(a)),
                ),
            ),
            (
                "soft_finding_ages"@,
                JsonView::Array(
                    h.soft_finding_ages.map_values(|a: FindingAgeView| finding_json(a)),
                ),
            ),
        ],
    )
}

fn write_added(item: &Ceiling) -> (r: String)
    ensures
        r@ == added_line(item@),
{
    let mut r = "  added: ".to_owned();
    r.append(item.address.text().as_str());
    r.append(" = ");
    append_decimal(&mut r, item.value);
    r
}

fn write_retired(item: &Ceiling) -> (r: String)
    ensures
        r@ == retired_line(item@),
{
    let mut r = "  retired: ".to_owned();
    r.append(item.address.text().as_str());
    r.append(" = ");
    append_decimal(&mut r, item.value);
    r
}

fn write_raised(item: &CeilingChange) -> (r: String)
    ensures
        r@ == raised_line(item@),
{
    let mut r = "  raised: ".to_owned();
    r.append(item.address.text().as_str());
    r.append(" ");
    append_decimal(&mut r, item.old_value);
    r.append(" -> ");
    append_decimal(&mut r, item.new_value);
    r
}

fn write_lowered(item: &CeilingChange) -> (r: String)
    ensures
        r@ == lowered_line(item@),
{
    let mut r = "  lowered: ".to_owned();
    r.append(item.address.text().as_str());
    r.append(" ");
    append_decimal(&mut r, item.old_value);
    r.append(" -> ");
    append_decimal(&mut r, item.new_value);
    r
}

fn write_renamed(item: &Renamed) -> (r: String)
    ensures
        r@ == renamed_line(item@),
{
    let mut r = "  renamed: ".to_owned();
    r.append(item.kind.name());
    r.append(" ");
    r.append(item.new.severity.as_str());
    r.append(" ");
    r.append(item.new.registry.as_str());
    r.append(": ");
    r.append(item.old.path.as_str());
    r.append(" -> ");
    r.append(item.new.path.as_str());
    r.append(" [match=");
    r.append(item.new.match_kind.as_str());
    r.append("; rules=");
    r.append(joined(&item.new.rules, ",").as_str());
    r.append("; unit=");
    r.append(item.new.unit.as_str());
    r.append("]");
    r
}

fn write_deferred(item: &DeferredAge) -> (r: String)
    ensures
        r@ == deferred_line(item@),
{
    let mut r = "  deferred age: ".to_owned();
    r.append(item.entry.address.text().as_str());
    r.append(" = ");
    append_decimal(&mut r, item.entry.value);
    r.append("; first ");
    r.append(item.first_seen_commit.as_str());
    r.append(" ");
    r.append(item.first_seen_date.as_str());
    r.append("; ");
    append_decimal(&mut r, item.age_days);
    r.append(" days");
    r
}

fn write_finding(item: &FindingAge) -> (r: String)
    ensures
        r@ == finding_line(item@),
{
    let mut r = "  soft finding age: ".to_owned();
    r.append(item.finding.address.path.as_str());
    r.append(" [rule=");
    r.append(item.finding.address.rule.as_str());
    r.append("; unit=");
    r.append(item.finding.address.unit.as_str());
    r.append("] ");
    append_decimal(&mut r, item.finding.actual);
    r.append(" > ");
    append_decimal(&mut r, item.finding.limit);
    r.append("; first ");
    r.append(item.first_seen_commit.as_str());
    r.append(" ");
    r.append(item.first_seen_date.as_str());
    r.append("; ");
    append_decimal(&mut r, item.age_days);
    r.append(" days");
    r
}

fn list_added(lines: &mut Vec<String>, items: &Vec<Ceiling>)
    ensures
        final(lines).deep_view() == old(lines).deep_view() + items.deep_view().map_values(
            |c: CeilingView| added_line(c),
        ),
{
    let ghost before = lines.deep_view();
    let mut i: usize = 0;
    while i < items.len()
        invariant
            i <= items@.len(),
            lines.deep_view() =~= before + items.deep_view().take(i as int).map_values(
                |c: CeilingView| added_line(c),
            ),
        decreases items@.len() - i,
    {
        let ghost here = lines.deep_view();
        lines.push(write_added(&items[i]));
        assert(lines.deep_view() =~= here.push(added_line(items@[i as int]@)));
        i += 1;
    }
    assert(items.deep_view().take(i as int) =~= items.deep_view());
}

fn list_retired(lines: &mut Vec<String>, items: &Vec<Ceiling>)
    ensures
        final(lines).deep_view() == old(lines).deep_view() + items.deep_view().map_values(
            |c: CeilingView| retired_line(c),
        ),
{
    let ghost before = lines.deep_view();
    let mut i: usize = 0;
    while i < items.len()
        invariant
            i <= items@.len(),
            lines.deep_view() =~= before + items.deep_view().take(i as int).map_values(
                |c: CeilingView| retired_line(c),
            ),
        decreases items@.len() - i,
    {
        let ghost here = lines.deep_view();
        lines.push(write_retired(&items[i]));
        assert(lines.deep_view() =~= here.push(retired_line(items@[i as int]@)));
        i += 1;
    }
    assert(items.deep_view().take(i as int) =~= items.deep_view());
}

fn list_raised(lines: &mut Vec<String>, items: &Vec<CeilingChange>)
    ensures
        final(lines).deep_view() == old(lines).deep_view() + items.deep_view().map_values(
            |c: ChangeView| raised_line(c),
        ),
{
    let ghost before = lines.deep_view();
    let mut i: usize = 0;
    while i < items.len()
        invariant
            i <= items@.len(),
            lines.deep_view() =~= before + items.deep_view().take(i as int).map_values(
                |c: ChangeView| raised_line(c),
            ),
        decreases items@.len() - i,
    {
        let ghost here = lines.deep_view();
        lines.push(write_raised(&items[i]));
        assert(lines.deep_view() =~= here.push(raised_line(items@[i as int]@)));
        i += 1;
    }
    assert(items.deep_view().take(i as int) =~= items.deep_view());
}

fn list_lowered(lines: &mut Vec<String>, items: &Vec<CeilingChange>)
    ensures
        final(lines).deep_view() == old(lines).deep_view() + items.deep_view().map_values(
            |c: ChangeView| lowered_line(c),
        ),
{
    let ghost before = lines.deep_view();
    let mut i: usize = 0;
    while i < items.len()
        invariant
            i <= items@.len(),
            lines.deep_view() =~= before + items.deep_view().take(i as int).map_values(
                |c: ChangeView| lowered_line(c),
            ),
        decreases items@.len() - i,
    {
        let ghost here = lines.deep_view();
        lines.push(write_lowered(&items[i]));
        assert(lines.deep_view() =~= here.push(lowered_line(items@[i as int]@)));
        i += 1;
    }
    assert(items.deep_view().take(i as int) =~= items.deep_view());
}

fn list_renamed(lines: &mut Vec<String>, items: &Vec<Renamed>)
    ensures
        final(lines).deep_view() == old(lines).deep_view() + items.deep_view().map_values(
            |c: RenamedView| renamed_line(c),
        ),
{
    let ghost before = lines.deep_view();
    let mut i: usize = 0;
    while i < items.len()
        invariant
            i <= items@.len(),
            lines.deep_view() =~= before + items.deep_view().take(i as int).map_values(
                |c: RenamedView| renamed_line(c),
            ),
        decreases items@.len() - i,
    {
        let ghost here = lines.deep_view();
        lines.push(write_renamed(&items[i]));
        assert(lines.deep_view() =~= here.push(renamed_line(items@[i as int]@)));
        i += 1;
    }
    assert(items.deep_view().take(i as int) =~= items.deep_view());
}

fn list_deferred(lines: &mut Vec<String>, items: &Vec<DeferredAge>)
    ensures
        final(lines).deep_view() == old(lines).deep_view() + items.deep_view().map_values(
            |c: DeferredAgeView| deferred_line(c),
        ),
{
    let ghost before = lines.deep_view();
    let mut i: usize = 0;
    while i < items.len()
        invariant
            i <= items@.len(),
            lines.deep_view() =~= before + items.deep_view().take(i as int).map_values(
                |c: DeferredAgeView| deferred_line(c),
            ),
        decreases items@.len() - i,
    {
        let ghost here = lines.deep_view();
        lines.push(write_deferred(&items[i]));
        assert(lines.deep_view() =~= here.push(deferred_line(items@[i as int]@)));
        i += 1;
    }
    assert(items.deep_view().take(i as int) =~= items.deep_view());
}

fn list_finding(lines: &mut Vec<String>, items: &Vec<FindingAge>)
    ensures
        final(lines).deep_view() == old(lines).deep_view() + items.deep_view().map_values(
            |c: FindingAgeView| finding_line(c),
        ),
{
    let ghost before = lines.deep_view();
    let mut i: usize = 0;
    while i < items.len()
        invariant
            i <= items@.len(),
            lines.deep_view() =~= before + items.deep_view().take(i as int).map_values(
                |c: FindingAgeView| finding_line(c),
            ),
        decreases items@.len() - i,
    {
        let ghost here = lines.deep_view();
        lines.push(write_finding(&items[i]));
        assert(lines.deep_view() =~= here.push(finding_line(items@[i as int]@)));
        i += 1;
    }
    assert(items.deep_view().take(i as int) =~= items.deep_view());
}

fn ceiling_items(items: &Vec<Ceiling>) -> (r: Vec<Json>)
    ensures
        shown_items(r@) == items.deep_view().map_values(|c: CeilingView| ceiling_json(c)),
{
    let mut r: Vec<Json> = Vec::new();
    let mut i: usize = 0;
    while i < items.len()
        invariant
            i <= items@.len(),
            shown_items(r@) =~= items.deep_view().take(i as int).map_values(
                |c: CeilingView| ceiling_json(c),
            ),
        decreases items@.len() - i,
    {
        push_item(&mut r, items[i].json());
        i += 1;
    }
    assert(items.deep_view().take(i as int) =~= items.deep_view());
    r
}

fn change_items(items: &Vec<CeilingChange>) -> (r: Vec<Json>)
    ensures
        shown_items(r@) == items.deep_view().map_values(|c: ChangeView| change_json(c)),
{
    let mut r: Vec<Json> = Vec::new();
    let mut i: usize = 0;
    while i < items.len()
        invariant
            i <= items@.len(),
            shown_items(r@) =~= items.deep_view().take(i as int).map_values(
                |c: ChangeView| change_json(c),
            ),
        decreases items@.len() - i,
    {
        push_item(&mut r, items[i].json());
        i += 1;
    }
    assert(items.deep_view().take(i as int) =~= items.deep_view());
    r
}

fn renamed_items(items: &Vec<Renamed>) -> (r: Vec<Json>)
    ensures
        shown_items(r@) == items.deep_view().map_values(|c: RenamedView| renamed_json(c)),
{
    let mut r: Vec<Json> = Vec::new();
    let mut i: usize = 0;
    while i < items.len()
        invariant
            i <= items@.len(),
            shown_items(r@) =~= items.deep_view().take(i as int).map_values(
                |c: RenamedView| renamed_json(c),
            ),
        decreases items@.len() - i,
    {
        push_item(&mut r, items[i].json());
        i += 1;
    }
    assert(items.deep_view().take(i as int) =~= items.deep_view());
    r
}

fn deferred_items(items: &Vec<DeferredAge>) -> (r: Vec<Json>)
    ensures
        shown_items(r@) == items.deep_view().map_values(|c: DeferredAgeView| deferred_json(c)),
{
    let mut r: Vec<Json> = Vec::new();
    let mut i: usize = 0;
    while i < items.len()
        invariant
            i <= items@.len(),
            shown_items(r@) =~= items.deep_view().take(i as int).map_values(
                |c: DeferredAgeView| deferred_json(c),
            ),
        decreases items@.len() - i,
    {
        push_item(&mut r, items[i].json());
        i += 1;
    }
    assert(items.deep_view().take(i as int) =~= items.deep_view());
    r
}

fn finding_items(items: &Vec<FindingAge>) -> (r: Vec<Json>)
    ensures
        shown_items(r@) == items.deep_view().map_values(|c: FindingAgeView| finding_json(c)),
{
    let mut r: Vec<Json> = Vec::new();
    let mut i: usize = 0;
    while i < items.len()
        invariant
            i <= items@.len(),
            shown_items(r@) =~= items.deep_view().take(i as int).map_values(
                |c: FindingAgeView| finding_json(c),
            ),
        decreases items@.len() - i,
    {
        push_item(&mut r, items[i].json());
        i += 1;
    }
    assert(items.deep_view().take(i as int) =~= items.deep_view());
    r
}

impl History {
    /// The report as text: one line per record and no narrative.
    pub fn render_text(&self) -> (r: String)
        ensures
            r@ == history_text(self@),
    {
        let mut header = "history ".to_owned();
        header.append(self.from.as_str());
        header.append("..");
        header.append(self.to.as_str());
        header.append(":");
        let mut summary = "  exceptions: +".to_owned();
        append_decimal(&mut summary, self.added.len() as u64);
        summary.append(" -");
        append_decimal(&mut summary, self.retired.len() as u64);
        summary.append("; ceilings: ");
        append_decimal(&mut summary, self.raised.len() as u64);
        summary.append(" raised, ");
        append_decimal(&mut summary, self.lowered.len() as u64);
        summary.append(" lowered; renames: ");
        append_decimal(&mut summary, self.renamed.len() as u64);
        assert(header@ == header_line(self@));
        assert(summary@ == summary_line(self@));
        let mut lines: Vec<String> = Vec::new();
        lines.push(header);
        lines.push(summary);
        assert(lines.deep_view() =~= seq![header_line(self@), summary_line(self@)]);
        list_added(&mut lines, &self.added);
        list_retired(&mut lines, &self.retired);
        list_raised(&mut lines, &self.raised);
        list_lowered(&mut lines, &self.lowered);
        list_renamed(&mut lines, &self.renamed);
        list_deferred(&mut lines, &self.deferred_ages);
        list_finding(&mut lines, &self.soft_finding_ages);
        assert(lines.deep_view() =~= history_lines(self@));
        joined(&lines, "\n")
    }

    /// The report as JSON: every array is present, also when empty.
    pub fn json(&self) -> (r: Json)
        ensures
            r@ == history_json(self@),
    {
        let mut fields: Vec<(&'static str, Json)> = Vec::new();
        push_field(&mut fields, "from", Json::str(self.from.as_str()));
        push_field(&mut fields, "to", Json::str(self.to.as_str()));
        push_field(&mut fields, "counts", self.counts_json());
        push_field(&mut fields, "added", Json::Array(ceiling_items(&self.added)));
        push_field(&mut fields, "retired", Json::Array(ceiling_items(&self.retired)));
        push_field(&mut fields, "raised", Json::Array(change_items(&self.raised)));
        push_field(&mut fields, "lowered", Json::Array(change_items(&self.lowered)));
        push_field(&mut fields, "renamed", Json::Array(renamed_items(&self.renamed)));
        push_field(
            &mut fields,
            "deferred_ages",
            Json::Array(deferred_items(&self.deferred_ages)),
        );
        push_field(
            &mut fields,
            "soft_finding_ages",
            Json::Array(finding_items(&self.soft_finding_ages)),
        );
        assert(shown_fields(fields@) =~= history_json(self@)->Object_0);
        Json::Object(fields)
    }

    /// How many records each array holds, in JSON.
    pub fn counts_json(&self) -> (r: Json)
        ensures
            r@ == counts_view(self@),
    {
        let mut fields: Vec<(&'static str, Json)> = Vec::new();
        push_field(&mut fields, "added", Json::UInt(self.added.len() as u64));
        push_field(&mut fields, "retired", Json::UInt(self.retired.len() as u64));
        push_field(&mut fields, "raised", Json::UInt(self.raised.len() as u64));
        push_field(&mut fields, "lowered", Json::UInt(self.lowered.len() as u64));
        push_field(&mut fields, "renamed", Json::UInt(self.renamed.len() as u64));
        push_field(&mut fields, "deferred_ages", Json::UInt(self.deferred_ages.len() as u64));
        push_field(
            &mut fields,
            "soft_finding_ages",
            Json::UInt(self.soft_finding_ages.len() as u64),
        );
        assert(shown_fields(fields@) =~= counts_view(self@)->Object_0);
        Json::Object(fields)
    }
}

} // verus!
