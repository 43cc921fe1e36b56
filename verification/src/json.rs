//! JSON values of reports. Objects keep their fields in the order written.

use vstd::prelude::*;

use crate::text::Text;

verus! {

#[derive(Debug)]
pub enum Json {
    Str(String),
    UInt(u64),
    Array(Vec<Json>),
    Object(Vec<(&'static str, Json)>),
}

/// What a JSON value says.
pub enum JsonView {
    Str(Text),
    UInt(int),
    Array(Seq<JsonView>),
    Object(Seq<(Text, JsonView)>),
}

/// What a JSON value says.
pub open spec fn shown(value: Json) -> JsonView
    decreases value,
{
    match value {
        Json::Str(text) => JsonView::Str(text@),
        Json::UInt(n) => JsonView::UInt(n as int),
        Json::Array(items) => JsonView::Array(shown_items(items@)),
        Json::Object(fields) => JsonView::Object(shown_fields(fields@)),
    }
}

/// What the values of a list say.
pub open spec fn shown_items(items: Seq<Json>) -> Seq<JsonView>
    decreases items,
{
    if items.len() == 0 {
        Seq::empty()
    } else {
        shown_items(items.drop_last()).push(shown(items.last()))
    }
}

/// What the fields of an object say.
pub open spec fn shown_fields(fields: Seq<(&'static str, Json)>) -> Seq<(Text, JsonView)>
    decreases fields,
{
    if fields.len() == 0 {
        Seq::empty()
    } else {
        let last = fields.last();
        shown_fields(fields.drop_last()).push((last.0@, shown(last.1)))
    }
}

impl View for Json {
    type V = JsonView;

    open spec fn view(&self) -> JsonView {
        shown(*self)
    }
}

impl Json {
    /// A text value.
    pub fn str(text: &str) -> (r: Json)
        ensures
            r@ == JsonView::Str(text@),
    {
        Json::Str(text.to_owned())
    }
}

/// One more field at the end.
pub fn push_field(fields: &mut Vec<(&'static str, Json)>, name: &'static str, value: Json)
    ensures
        shown_fields(final(fields)@) == shown_fields(old(fields)@).push((name@, value@)),
{
    fields.push((name, value));
    assert(fields@.drop_last() =~= old(fields)@);
}

/// One more value at the end.
pub fn push_item(items: &mut Vec<Json>, value: Json)
    ensures
        shown_items(final(items)@) == shown_items(old(items)@).push(value@),
{
    items.push(value);
    assert(items@.drop_last() =~= old(items)@);
}

} // verus!
