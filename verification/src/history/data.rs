//! Stable records of the audit history section, their order and their JSON.

use vstd::prelude::*;
use vstd::string::*;

use crate::budget::Unit;
use crate::exceptions::{Exception, Kind, MatchKind};
use crate::json::{push_field, push_item, shown_fields, shown_items, Json, JsonView};
use crate::order::{
    compare_lists, compare_numbers, compare_texts, first_decided, lemma_list_order_chains,
    lemma_list_order_flips, lemma_text_order_chains, lemma_text_order_flips, list_order,
    number_order, text_order, Order, Ranked,
};
use crate::text::{copy_texts, join, joined, same_texts, Text};
use crate::text_map::TextMap;

verus! {

// ---------------------------------------------------------------------------
// Addresses
// ---------------------------------------------------------------------------

/// The identity of an exception entry.
#[derive(Debug)]
pub struct Address {
    pub severity: String,
    pub registry: String,
    pub path: String,
    pub match_kind: String,
    pub unit: String,
    pub rules: Vec<String>,
}

pub struct AddressView {
    pub severity: Text,
    pub registry: Text,
    pub path: Text,
    pub match_kind: Text,
    pub unit: Text,
    pub rules: Seq<Text>,
}

impl View for Address {
    type V = AddressView;

    open spec fn view(&self) -> AddressView {
        AddressView {
            severity: self.severity@,
            registry: self.registry@,
            path: self.path@,
            match_kind: self.match_kind@,
            unit: self.unit@,
            rules: self.rules.deep_view(),
        }
    }
}

impl DeepView for Address {
    type V = AddressView;

    open spec fn deep_view(&self) -> AddressView {
        self@
    }
}

impl Clone for Address {
    fn clone(&self) -> (r: Self)
        ensures
            r@ == self@,
    {
        Address {
            severity: self.severity.clone(),
            registry: self.registry.clone(),
            path: self.path.clone(),
            match_kind: self.match_kind.clone(),
            unit: self.unit.clone(),
            rules: copy_texts(&self.rules),
        }
    }
}

/// Addresses sort by severity, registry, path, match, unit and the rules.
pub open spec fn address_order(a: AddressView, b: AddressView) -> Order {
    text_order(a.severity, b.severity).or_else(
        text_order(a.registry, b.registry).or_else(
            text_order(a.path, b.path).or_else(
                text_order(a.match_kind, b.match_kind).or_else(
                    text_order(a.unit, b.unit).or_else(list_order(a.rules, b.rules)),
                ),
            ),
        ),
    )
}

/// Addresses are in the same place exactly when they are equal, and comparing
/// them the other way round gives the flipped answer.
pub proof fn lemma_address_order_flips(a: AddressView, b: AddressView)
    ensures
        address_order(b, a) == address_order(a, b).flip(),
        address_order(a, b) == Order::Same <==> a == b,
{
    lemma_text_order_flips(a.severity, b.severity);
    lemma_text_order_flips(a.registry, b.registry);
    lemma_text_order_flips(a.path, b.path);
    lemma_text_order_flips(a.match_kind, b.match_kind);
    lemma_text_order_flips(a.unit, b.unit);
    lemma_list_order_flips(a.rules, b.rules);
}

/// Transitivity of the order of texts, without conditions on the arguments.
proof fn lemma_text_chain(a: Text, b: Text, c: Text)
    ensures
        text_order(a, b) != Order::After && text_order(b, c) != Order::After ==> text_order(a, c)
            != Order::After && (text_order(a, c) == Order::Same ==> text_order(a, b)
            == Order::Same && text_order(b, c) == Order::Same),
{
    if text_order(a, b) != Order::After && text_order(b, c) != Order::After {
        lemma_text_order_chains(a, b, c);
    }
}

/// The order of addresses is transitive.
pub proof fn lemma_address_order_chains(a: AddressView, b: AddressView, c: AddressView)
    requires
        address_order(a, b) != Order::After,
        address_order(b, c) != Order::After,
    ensures
        address_order(a, c) != Order::After,
        address_order(a, c) == Order::Same ==> address_order(a, b) == Order::Same
            && address_order(b, c) == Order::Same,
{
    lemma_text_chain(a.severity, b.severity, c.severity);
    lemma_text_chain(a.registry, b.registry, c.registry);
    lemma_text_chain(a.path, b.path, c.path);
    lemma_text_chain(a.match_kind, b.match_kind, c.match_kind);
    lemma_text_chain(a.unit, b.unit, c.unit);
    if list_order(a.rules, b.rules) != Order::After && list_order(b.rules, c.rules)
        != Order::After {
        lemma_list_order_chains(a.rules, b.rules, c.rules);
    }
    lemma_text_order_flips(a.severity, b.severity);
    lemma_text_order_flips(a.registry, b.registry);
    lemma_text_order_flips(a.path, b.path);
    lemma_text_order_flips(a.match_kind, b.match_kind);
    lemma_text_order_flips(a.unit, b.unit);
    lemma_text_order_flips(b.severity, c.severity);
    lemma_text_order_flips(b.registry, c.registry);
    lemma_text_order_flips(b.path, c.path);
    lemma_text_order_flips(b.match_kind, c.match_kind);
    lemma_text_order_flips(b.unit, c.unit);
}

impl Ranked for Address {
    open spec fn rank(&self, other: &Self) -> Order {
        address_order(self@, other@)
    }

    proof fn rank_flips(a: &Self, b: &Self) {
        lemma_address_order_flips(a@, b@);
    }

    proof fn rank_chains(a: &Self, b: &Self, c: &Self) {
        lemma_address_order_chains(a@, b@, c@);
    }

    fn compare(&self, other: &Self) -> (r: Order) {
        let severity = compare_texts(self.severity.as_str(), other.severity.as_str());
        let registry = compare_texts(self.registry.as_str(), other.registry.as_str());
        let path = compare_texts(self.path.as_str(), other.path.as_str());
        let matched = compare_texts(self.match_kind.as_str(), other.match_kind.as_str());
        let unit = compare_texts(self.unit.as_str(), other.unit.as_str());
        let rules = compare_lists(&self.rules, &other.rules);
        assert(self.rank(other) == address_order(self@, other@));
        first_decided(
            severity,
            first_decided(
                registry,
                first_decided(path, first_decided(matched, first_decided(unit, rules))),
            ),
        )
    }
}

impl MatchKind {
    pub open spec fn text(self) -> Text {
        match self {
            MatchKind::Exact => "exact"@,
            MatchKind::Glob => "glob"@,
        }
    }
}

/// The address of a registry entry.
pub open spec fn address_of(entry: Exception) -> AddressView {
    AddressView {
        severity: entry.severity.text(),
        registry: entry.registry@,
        path: entry.path@,
        match_kind: entry.match_kind.text(),
        unit: entry.max_unit.text(),
        rules: entry.rules.deep_view(),
    }
}

/// An address as reports write it.
pub open spec fn address_text(a: AddressView) -> Text {
    a.severity + " "@ + a.registry + ": "@ + a.path + " [match="@ + a.match_kind + "; rules="@
        + join(a.rules, ","@) + "; unit="@ + a.unit + "]"@
}

/// The texts of a list as JSON.
pub open spec fn text_items(list: Seq<Text>) -> Seq<JsonView> {
    list.map_values(|text: Text| JsonView::Str(text))
}

/// The fields of an address in JSON.
pub open spec fn address_fields(a: AddressView) -> Seq<(Text, JsonView)> {
    seq![
        ("registry"@, JsonView::Str(a.registry)),
        ("severity"@, JsonView::Str(a.severity)),
        ("path"@, JsonView::Str(a.path)),
        ("match"@, JsonView::Str(a.match_kind)),
        ("rules"@, JsonView::Array(text_items(a.rules))),
        ("unit"@, JsonView::Str(a.unit)),
    ]
}

/// A list of texts as JSON values.
fn json_texts(list: &Vec<String>) -> (r: Vec<Json>)
    ensures
        shown_items(r@) == text_items(list.deep_view()),
{
    let mut r: Vec<Json> = Vec::new();
    let mut i: usize = 0;
    while i < list.len()
        invariant
            i <= list@.len(),
            shown_items(r@) =~= text_items(list.deep_view().take(i as int)),
        decreases list@.len() - i,
    {
        push_item(&mut r, Json::str(list[i].as_str()));
        i += 1;
    }
    assert(list.deep_view().take(i as int) =~= list.deep_view());
    r
}

impl Address {
    /// The address of a registry entry.
    pub fn from_exception(entry: &Exception) -> (r: Self)
        ensures
            r@ == address_of(*entry),
    {
        let match_kind = match entry.match_kind {
            MatchKind::Exact => "exact",
            MatchKind::Glob => "glob",
        };
        Address {
            severity: entry.severity.as_str().to_owned(),
            registry: entry.registry.clone(),
            path: entry.path.clone(),
            match_kind: match_kind.to_owned(),
            unit: entry.max_unit.name().to_owned(),
            rules: copy_texts(&entry.rules),
        }
    }

    /// The address as reports write it.
    pub fn text(&self) -> (r: String)
        ensures
            r@ == address_text(self@),
    {
        let mut r = self.severity.clone();
        r.append(" ");
        r.append(self.registry.as_str());
        r.append(": ");
        r.append(self.path.as_str());
        r.append(" [match=");
        r.append(self.match_kind.as_str());
        r.append("; rules=");
        r.append(joined(&self.rules, ",").as_str());
        r.append("; unit=");
        r.append(self.unit.as_str());
        r.append("]");
        r
    }

    /// The fields of the address in JSON.
    pub fn json_fields(&self) -> (r: Vec<(&'static str, Json)>)
        ensures
            shown_fields(r@) == address_fields(self@),
    {
        let mut r: Vec<(&'static str, Json)> = Vec::new();
        push_field(&mut r, "registry", Json::str(self.registry.as_str()));
        push_field(&mut r, "severity", Json::str(self.severity.as_str()));
        push_field(&mut r, "path", Json::str(self.path.as_str()));
        push_field(&mut r, "match", Json::str(self.match_kind.as_str()));
        push_field(&mut r, "rules", Json::Array(json_texts(&self.rules)));
        push_field(&mut r, "unit", Json::str(self.unit.as_str()));
        r
    }

    /// Whether two addresses are the same.
    pub fn equals(&self, other: &Address) -> (r: bool)
        ensures
            r == (self@ == other@),
    {
        self.severity == other.severity && self.registry == other.registry && self.path
            == other.path && self.match_kind == other.match_kind && self.unit == other.unit
            && same_texts(&self.rules, &other.rules)
    }
}

/// The identity of an unexceptioned soft finding.
#[derive(Debug)]
pub struct FindingAddress {
    pub path: String,
    pub rule: String,
    pub unit: String,
}

pub struct FindingAddressView {
    pub path: Text,
    pub rule: Text,
    pub unit: Text,
}

impl View for FindingAddress {
    type V = FindingAddressView;

    open spec fn view(&self) -> FindingAddressView {
        FindingAddressView { path: self.path@, rule: self.rule@, unit: self.unit@ }
    }
}

impl DeepView for FindingAddress {
    type V = FindingAddressView;

    open spec fn deep_view(&self) -> FindingAddressView {
        self@
    }
}

impl Clone for FindingAddress {
    fn clone(&self) -> (r: Self)
        ensures
            r@ == self@,
    {
        FindingAddress {
            path: self.path.clone(),
            rule: self.rule.clone(),
            unit: self.unit.clone(),
        }
    }
}

/// Finding addresses sort by path, rule and unit.
pub open spec fn finding_order(a: FindingAddressView, b: FindingAddressView) -> Order {
    text_order(a.path, b.path).or_else(
        text_order(a.rule, b.rule).or_else(text_order(a.unit, b.unit)),
    )
}

/// Finding addresses are in the same place exactly when they are equal, and
/// comparing them the other way round gives the flipped answer.
pub proof fn lemma_finding_order_flips(a: FindingAddressView, b: FindingAddressView)
    ensures
        finding_order(b, a) == finding_order(a, b).flip(),
        finding_order(a, b) == Order::Same <==> a == b,
{
    lemma_text_order_flips(a.path, b.path);
    lemma_text_order_flips(a.rule, b.rule);
    lemma_text_order_flips(a.unit, b.unit);
}

/// The order of finding addresses is transitive.
pub proof fn lemma_finding_order_chains(
    a: FindingAddressView,
    b: FindingAddressView,
    c: FindingAddressView,
)
    requires
        finding_order(a, b) != Order::After,
        finding_order(b, c) != Order::After,
    ensures
        finding_order(a, c) != Order::After,
        finding_order(a, c) == Order::Same ==> finding_order(a, b) == Order::Same
            && finding_order(b, c) == Order::Same,
{
    lemma_text_chain(a.path, b.path, c.path);
    lemma_text_chain(a.rule, b.rule, c.rule);
    lemma_text_chain(a.unit, b.unit, c.unit);
}

impl FindingAddress {
    /// Whether two finding addresses are the same.
    pub fn equals(&self, other: &FindingAddress) -> (r: bool)
        ensures
            r == (self@ == other@),
    {
        self.path == other.path && self.rule == other.rule && self.unit == other.unit
    }

    /// Where this address stands to another.
    pub fn compare(&self, other: &FindingAddress) -> (r: Order)
        ensures
            r == finding_order(self@, other@),
    {
        let path = compare_texts(self.path.as_str(), other.path.as_str());
        let rule = compare_texts(self.rule.as_str(), other.rule.as_str());
        let unit = compare_texts(self.unit.as_str(), other.unit.as_str());
        first_decided(path, first_decided(rule, unit))
    }
}

/// The address of a finding.
pub fn finding_address(path: &str, rule: &str, unit: Unit) -> (r: FindingAddress)
    ensures
        r@ == (FindingAddressView { path: path@, rule: rule@, unit: unit.text() }),
{
    FindingAddress {
        path: path.to_owned(),
        rule: rule.to_owned(),
        unit: unit.name().to_owned(),
    }
}

// ---------------------------------------------------------------------------
// Snapshots
// ---------------------------------------------------------------------------

/// An exception entry as one commit has it.
#[derive(Debug)]
pub struct EntryState {
    pub address: Address,
    pub value: u64,
    pub kind: Kind,
}

pub struct EntryView {
    pub address: AddressView,
    pub value: int,
    pub kind: Kind,
}

impl View for EntryState {
    type V = EntryView;

    open spec fn view(&self) -> EntryView {
        EntryView {
            address: self.address@,
            value: self.value as int,
            kind: self.kind,
        }
    }
}

impl DeepView for EntryState {
    type V = EntryView;

    open spec fn deep_view(&self) -> EntryView {
        self@
    }
}

impl Clone for EntryState {
    fn clone(&self) -> (r: Self)
        ensures
            r@ == self@,
    {
        EntryState {
            address: self.address.clone(),
            value: self.value,
            kind: self.kind,
        }
    }
}

/// An unexceptioned soft finding as one commit has it.
#[derive(Debug)]
pub struct FindingState {
    pub address: FindingAddress,
    pub actual: u64,
    pub limit: u64,
}

pub struct FindingView {
    pub address: FindingAddressView,
    pub actual: int,
    pub limit: int,
}

impl View for FindingState {
    type V = FindingView;

    open spec fn view(&self) -> FindingView {
        FindingView {
            address: self.address@,
            actual: self.actual as int,
            limit: self.limit as int,
        }
    }
}

impl DeepView for FindingState {
    type V = FindingView;

    open spec fn deep_view(&self) -> FindingView {
        self@
    }
}

impl Clone for FindingState {
    fn clone(&self) -> (r: Self)
        ensures
            r@ == self@,
    {
        FindingState {
            address: self.address.clone(),
            actual: self.actual,
            limit: self.limit,
        }
    }
}

/// The committed state at one revision.
#[derive(Debug)]
pub struct Snapshot {
    pub sha: String,
    pub parents: Vec<String>,
    pub timestamp: i64,
    pub date: String,
    pub entries: Vec<EntryState>,
    pub findings: Vec<FindingState>,
    pub blobs: TextMap<String>,
    pub config_paths: Vec<String>,
}

pub struct SnapshotView {
    pub sha: Text,
    pub parents: Seq<Text>,
    pub timestamp: int,
    pub date: Text,
    pub entries: Seq<EntryView>,
    pub findings: Seq<FindingView>,
    pub blobs: Map<Text, Text>,
    pub config_paths: Seq<Text>,
}

impl View for Snapshot {
    type V = SnapshotView;

    open spec fn view(&self) -> SnapshotView {
        SnapshotView {
            sha: self.sha@,
            parents: self.parents.deep_view(),
            timestamp: self.timestamp as int,
            date: self.date@,
            entries: self.entries.deep_view(),
            findings: self.findings.deep_view(),
            blobs: blob_views(self.blobs@),
            config_paths: self.config_paths.deep_view(),
        }
    }
}

impl DeepView for Snapshot {
    type V = SnapshotView;

    open spec fn deep_view(&self) -> SnapshotView {
        self@
    }
}

/// The object at each path of a tree.
pub open spec fn blob_views(blobs: Map<Text, String>) -> Map<Text, Text> {
    blobs.map_values(|blob: String| blob@)
}

impl Ranked for EntryState {
    open spec fn rank(&self, other: &Self) -> Order {
        address_order(self.address@, other.address@)
    }

    proof fn rank_flips(a: &Self, b: &Self) {
        lemma_address_order_flips(a.address@, b.address@);
    }

    proof fn rank_chains(a: &Self, b: &Self, c: &Self) {
        lemma_address_order_chains(a.address@, b.address@, c.address@);
    }

    fn compare(&self, other: &Self) -> (r: Order) {
        self.address.compare(&other.address)
    }
}

impl Ranked for FindingState {
    open spec fn rank(&self, other: &Self) -> Order {
        finding_order(self.address@, other.address@)
    }

    proof fn rank_flips(a: &Self, b: &Self) {
        lemma_finding_order_flips(a.address@, b.address@);
    }

    proof fn rank_chains(a: &Self, b: &Self, c: &Self) {
        lemma_finding_order_chains(a.address@, b.address@, c.address@);
    }

    fn compare(&self, other: &Self) -> (r: Order) {
        self.address.compare(&other.address)
    }
}

// ---------------------------------------------------------------------------
// Records of the report
// ---------------------------------------------------------------------------

/// An exception that appeared or went, with its ceiling.
#[derive(Debug)]
pub struct Ceiling {
    pub address: Address,
    pub value: u64,
}

pub struct CeilingView {
    pub address: AddressView,
    pub value: int,
}

impl View for Ceiling {
    type V = CeilingView;

    open spec fn view(&self) -> CeilingView {
        CeilingView {
            address: self.address@,
            value: self.value as int,
        }
    }
}

impl DeepView for Ceiling {
    type V = CeilingView;

    open spec fn deep_view(&self) -> CeilingView {
        self@
    }
}

impl Clone for Ceiling {
    fn clone(&self) -> (r: Self)
        ensures
            r@ == self@,
    {
        Ceiling {
            address: self.address.clone(),
            value: self.value,
        }
    }
}

impl Ranked for Ceiling {
    open spec fn rank(&self, other: &Self) -> Order {
        address_order(self.address@, other.address@).or_else(
            number_order(self.value as int, other.value as int),
        )
    }

    proof fn rank_flips(a: &Self, b: &Self) {
        lemma_address_order_flips(a.address@, b.address@);
    }

    proof fn rank_chains(a: &Self, b: &Self, c: &Self) {
        lemma_address_order_chains(a.address@, b.address@, c.address@);
    }

    fn compare(&self, other: &Self) -> (r: Order) {
        first_decided(
            self.address.compare(&other.address),
            compare_numbers(self.value, other.value),
        )
    }
}

pub open spec fn ceiling_json(c: CeilingView) -> JsonView {
    JsonView::Object(address_fields(c.address).push(("value"@, JsonView::UInt(c.value))))
}

impl Ceiling {
    /// The record in JSON.
    pub fn json(&self) -> (r: Json)
        ensures
            r@ == ceiling_json(self@),
    {
        let mut fields = self.address.json_fields();
        push_field(&mut fields, "value", Json::UInt(self.value));
        Json::Object(fields)
    }
}

/// A continuing exception whose ceiling moved.
#[derive(Debug)]
pub struct CeilingChange {
    pub address: Address,
    pub old_value: u64,
    pub new_value: u64,
}

pub struct ChangeView {
    pub address: AddressView,
    pub old_value: int,
    pub new_value: int,
}

impl View for CeilingChange {
    type V = ChangeView;

    open spec fn view(&self) -> ChangeView {
        ChangeView {
            address: self.address@,
            old_value: self.old_value as int,
            new_value: self.new_value as int,
        }
    }
}

impl DeepView for CeilingChange {
    type V = ChangeView;

    open spec fn deep_view(&self) -> ChangeView {
        self@
    }
}

impl Clone for CeilingChange {
    fn clone(&self) -> (r: Self)
        ensures
            r@ == self@,
    {
        CeilingChange {
            address: self.address.clone(),
            old_value: self.old_value,
            new_value: self.new_value,
        }
    }
}

impl Ranked for CeilingChange {
    open spec fn rank(&self, other: &Self) -> Order {
        address_order(self.address@, other.address@).or_else(
            number_order(self.old_value as int, other.old_value as int).or_else(
                number_order(self.new_value as int, other.new_value as int),
            ),
        )
    }

    proof fn rank_flips(a: &Self, b: &Self) {
        lemma_address_order_flips(a.address@, b.address@);
    }

    proof fn rank_chains(a: &Self, b: &Self, c: &Self) {
        lemma_address_order_chains(a.address@, b.address@, c.address@);
    }

    fn compare(&self, other: &Self) -> (r: Order) {
        first_decided(
            self.address.compare(&other.address),
            first_decided(
                compare_numbers(self.old_value, other.old_value),
                compare_numbers(self.new_value, other.new_value),
            ),
        )
    }
}

pub open spec fn change_json(c: ChangeView) -> JsonView {
    JsonView::Object(
        address_fields(c.address).push(("old_value"@, JsonView::UInt(c.old_value))).push(
            ("new_value"@, JsonView::UInt(c.new_value)),
        ),
    )
}

impl CeilingChange {
    /// The record in JSON.
    pub fn json(&self) -> (r: Json)
        ensures
            r@ == change_json(self@),
    {
        let mut fields = self.address.json_fields();
        push_field(&mut fields, "old_value", Json::UInt(self.old_value));
        push_field(&mut fields, "new_value", Json::UInt(self.new_value));
        Json::Object(fields)
    }
}

/// The evidence that carried an identity to a new address.
#[derive(Clone, Copy, Debug, PartialEq, Eq, Structural)]
pub enum MovementKind {
    ExactFile,
    Directory,
}

impl MovementKind {
    pub open spec fn text(self) -> Text {
        match self {
            MovementKind::ExactFile => "exact-file"@,
            MovementKind::Directory => "directory"@,
        }
    }

    /// The kind's name in reports.
    pub fn name(self) -> (r: &'static str)
        ensures
            r@ == self.text(),
    {
        match self {
            MovementKind::ExactFile => "exact-file",
            MovementKind::Directory => "directory",
        }
    }
}

/// An exception that continued under a new address.
#[derive(Debug)]
pub struct Renamed {
    pub kind: MovementKind,
    pub old: Address,
    pub new: Address,
}

pub struct RenamedView {
    pub kind: MovementKind,
    pub old: AddressView,
    pub new: AddressView,
}

impl View for Renamed {
    type V = RenamedView;

    open spec fn view(&self) -> RenamedView {
        RenamedView {
            kind: self.kind,
            old: self.old@,
            new: self.new@,
        }
    }
}

impl DeepView for Renamed {
    type V = RenamedView;

    open spec fn deep_view(&self) -> RenamedView {
        self@
    }
}

impl Clone for Renamed {
    fn clone(&self) -> (r: Self)
        ensures
            r@ == self@,
    {
        Renamed {
            kind: self.kind,
            old: self.old.clone(),
            new: self.new.clone(),
        }
    }
}

impl Ranked for Renamed {
    open spec fn rank(&self, other: &Self) -> Order {
        address_order(self.new@, other.new@).or_else(address_order(self.old@, other.old@))
    }

    proof fn rank_flips(a: &Self, b: &Self) {
        lemma_address_order_flips(a.new@, b.new@);
        lemma_address_order_flips(a.old@, b.old@);
    }

    proof fn rank_chains(a: &Self, b: &Self, c: &Self) {
        lemma_address_order_chains(a.new@, b.new@, c.new@);
        if address_order(a.old@, b.old@) != Order::After && address_order(b.old@, c.old@)
            != Order::After {
            lemma_address_order_chains(a.old@, b.old@, c.old@);
        }
    }

    fn compare(&self, other: &Self) -> (r: Order) {
        first_decided(self.new.compare(&other.new), self.old.compare(&other.old))
    }
}

pub open spec fn renamed_json(m: RenamedView) -> JsonView {
    JsonView::Object(
        seq![
            ("kind"@, JsonView::Str(m.kind.text())),
            ("old"@, JsonView::Object(address_fields(m.old))),
            ("new"@, JsonView::Object(address_fields(m.new))),
        ],
    )
}

impl Renamed {
    /// The record in JSON.
    pub fn json(&self) -> (r: Json)
        ensures
            r@ == renamed_json(self@),
    {
        let mut fields: Vec<(&'static str, Json)> = Vec::new();
        push_field(&mut fields, "kind", Json::str(self.kind.name()));
        push_field(&mut fields, "old", Json::Object(self.old.json_fields()));
        push_field(&mut fields, "new", Json::Object(self.new.json_fields()));
        assert(shown_fields(fields@) =~= renamed_json(self@)->Object_0);
        Json::Object(fields)
    }
}

/// A current deferred exception and the age of its continuous state.
#[derive(Debug)]
pub struct DeferredAge {
    pub entry: Ceiling,
    pub first_seen_commit: String,
    pub first_seen_date: String,
    pub age_days: u64,
}

pub struct DeferredAgeView {
    pub entry: CeilingView,
    pub first_seen_commit: Text,
    pub first_seen_date: Text,
    pub age_days: int,
}

impl View for DeferredAge {
    type V = DeferredAgeView;

    open spec fn view(&self) -> DeferredAgeView {
        DeferredAgeView {
            entry: self.entry@,
            first_seen_commit: self.first_seen_commit@,
            first_seen_date: self.first_seen_date@,
            age_days: self.age_days as int,
        }
    }
}

impl DeepView for DeferredAge {
    type V = DeferredAgeView;

    open spec fn deep_view(&self) -> DeferredAgeView {
        self@
    }
}

impl Clone for DeferredAge {
    fn clone(&self) -> (r: Self)
        ensures
            r@ == self@,
    {
        DeferredAge {
            entry: self.entry.clone(),
            first_seen_commit: self.first_seen_commit.clone(),
            first_seen_date: self.first_seen_date.clone(),
            age_days: self.age_days,
        }
    }
}

impl Ranked for DeferredAge {
    open spec fn rank(&self, other: &Self) -> Order {
        number_order(other.age_days as int, self.age_days as int).or_else(
            text_order(self.first_seen_commit@, other.first_seen_commit@).or_else(
                address_order(self.entry.address@, other.entry.address@),
            ),
        )
    }

    proof fn rank_flips(a: &Self, b: &Self) {
        lemma_text_order_flips(a.first_seen_commit@, b.first_seen_commit@);
        lemma_address_order_flips(a.entry.address@, b.entry.address@);
    }

    proof fn rank_chains(a: &Self, b: &Self, c: &Self) {
        lemma_text_chain(a.first_seen_commit@, b.first_seen_commit@, c.first_seen_commit@);
        if address_order(a.entry.address@, b.entry.address@) != Order::After && address_order(
            b.entry.address@,
            c.entry.address@,
        ) != Order::After {
            lemma_address_order_chains(a.entry.address@, b.entry.address@, c.entry.address@);
        }
    }

    fn compare(&self, other: &Self) -> (r: Order) {
        first_decided(
            compare_numbers(other.age_days, self.age_days),
            first_decided(
                compare_texts(self.first_seen_commit.as_str(), other.first_seen_commit.as_str()),
                self.entry.address.compare(&other.entry.address),
            ),
        )
    }
}

/// The fields that say how long a state has stood.
pub open spec fn since_fields(commit: Text, date: Text, days: int) -> Seq<(Text, JsonView)> {
    seq![
        ("first_seen_commit"@, JsonView::Str(commit)),
        ("first_seen_date"@, JsonView::Str(date)),
        ("age_days"@, JsonView::UInt(days)),
    ]
}

pub open spec fn deferred_json(a: DeferredAgeView) -> JsonView {
    JsonView::Object(
        address_fields(a.entry.address).push(("value"@, JsonView::UInt(a.entry.value)))
            + since_fields(a.first_seen_commit, a.first_seen_date, a.age_days),
    )
}

/// Adds the fields that say how long a deferred exception has stood.
fn age_fields(fields: &mut Vec<(&'static str, Json)>, age: &DeferredAge)
    ensures
        shown_fields(final(fields)@) == shown_fields(old(fields)@) + since_fields(
            age.first_seen_commit@,
            age.first_seen_date@,
            age.age_days as int,
        ),
{
    push_field(fields, "first_seen_commit", Json::str(age.first_seen_commit.as_str()));
    push_field(fields, "first_seen_date", Json::str(age.first_seen_date.as_str()));
    push_field(fields, "age_days", Json::UInt(age.age_days));
    assert(shown_fields(fields@) =~= shown_fields(old(fields)@) + since_fields(
        age.first_seen_commit@,
        age.first_seen_date@,
        age.age_days as int,
    ));
}

impl DeferredAge {
    /// The record in JSON.
    pub fn json(&self) -> (r: Json)
        ensures
            r@ == deferred_json(self@),
    {
        let mut fields = self.entry.address.json_fields();
        push_field(&mut fields, "value", Json::UInt(self.entry.value));
        age_fields(&mut fields, self);
        Json::Object(fields)
    }
}

/// A current soft finding and the age of its continuous state.
#[derive(Debug)]
pub struct FindingAge {
    pub finding: FindingState,
    pub first_seen_commit: String,
    pub first_seen_date: String,
    pub age_days: u64,
}

pub struct FindingAgeView {
    pub finding: FindingView,
    pub first_seen_commit: Text,
    pub first_seen_date: Text,
    pub age_days: int,
}

impl View for FindingAge {
    type V = FindingAgeView;

    open spec fn view(&self) -> FindingAgeView {
        FindingAgeView {
            finding: self.finding@,
            first_seen_commit: self.first_seen_commit@,
            first_seen_date: self.first_seen_date@,
            age_days: self.age_days as int,
        }
    }
}

impl DeepView for FindingAge {
    type V = FindingAgeView;

    open spec fn deep_view(&self) -> FindingAgeView {
        self@
    }
}

impl Clone for FindingAge {
    fn clone(&self) -> (r: Self)
        ensures
            r@ == self@,
    {
        FindingAge {
            finding: self.finding.clone(),
            first_seen_commit: self.first_seen_commit.clone(),
            first_seen_date: self.first_seen_date.clone(),
            age_days: self.age_days,
        }
    }
}

impl Ranked for FindingAge {
    open spec fn rank(&self, other: &Self) -> Order {
        number_order(other.age_days as int, self.age_days as int).or_else(
            text_order(self.first_seen_commit@, other.first_seen_commit@).or_else(
                finding_order(self.finding.address@, other.finding.address@),
            ),
        )
    }

    proof fn rank_flips(a: &Self, b: &Self) {
        lemma_text_order_flips(a.first_seen_commit@, b.first_seen_commit@);
        lemma_finding_order_flips(a.finding.address@, b.finding.address@);
    }

    proof fn rank_chains(a: &Self, b: &Self, c: &Self) {
        lemma_text_chain(a.first_seen_commit@, b.first_seen_commit@, c.first_seen_commit@);
        if finding_order(a.finding.address@, b.finding.address@) != Order::After && finding_order(
            b.finding.address@,
            c.finding.address@,
        ) != Order::After {
            lemma_finding_order_chains(a.finding.address@, b.finding.address@, c.finding.address@);
        }
    }

    fn compare(&self, other: &Self) -> (r: Order) {
        first_decided(
            compare_numbers(other.age_days, self.age_days),
            first_decided(
                compare_texts(self.first_seen_commit.as_str(), other.first_seen_commit.as_str()),
                self.finding.address.compare(&other.finding.address),
            ),
        )
    }
}

pub open spec fn finding_json(a: FindingAgeView) -> JsonView {
    JsonView::Object(
        seq![
            ("severity"@, JsonView::Str("soft"@)),
            ("path"@, JsonView::Str(a.finding.address.path)),
            ("rule"@, JsonView::Str(a.finding.address.rule)),
            ("unit"@, JsonView::Str(a.finding.address.unit)),
            ("actual"@, JsonView::UInt(a.finding.actual)),
            ("limit"@, JsonView::UInt(a.finding.limit)),
            ("first_seen_commit"@, JsonView::Str(a.first_seen_commit)),
            ("first_seen_date"@, JsonView::Str(a.first_seen_date)),
            ("age_days"@, JsonView::UInt(a.age_days)),
        ],
    )
}

impl FindingAge {
    /// The record in JSON.
    pub fn json(&self) -> (r: Json)
        ensures
            r@ == finding_json(self@),
    {
        let mut fields: Vec<(&'static str, Json)> = Vec::new();
        push_field(&mut fields, "severity", Json::str("soft"));
        push_field(&mut fields, "path", Json::str(self.finding.address.path.as_str()));
        push_field(&mut fields, "rule", Json::str(self.finding.address.rule.as_str()));
        push_field(&mut fields, "unit", Json::str(self.finding.address.unit.as_str()));
        push_field(&mut fields, "actual", Json::UInt(self.finding.actual));
        push_field(&mut fields, "limit", Json::UInt(self.finding.limit));
        push_field(&mut fields, "first_seen_commit", Json::str(self.first_seen_commit.as_str()));
        push_field(&mut fields, "first_seen_date", Json::str(self.first_seen_date.as_str()));
        push_field(&mut fields, "age_days", Json::UInt(self.age_days));
        assert(shown_fields(fields@) =~= finding_json(self@)->Object_0);
        Json::Object(fields)
    }
}

} // verus!
