//! Why a comparison cannot be made. History is all or nothing: a refusal
//! carries no partial result.

use vstd::prelude::*;
use vstd::string::*;

use crate::text::Text;

verus! {

#[derive(Debug)]
pub struct HistoryError {
    pub range: Option<String>,
    pub cause: String,
}

pub struct HistoryErrorView {
    pub range: Option<Text>,
    pub cause: Text,
}

impl View for HistoryError {
    type V = HistoryErrorView;

    open spec fn view(&self) -> HistoryErrorView {
        HistoryErrorView { range: self.range.deep_view(), cause: self.cause@ }
    }
}

/// The refusal of a requested range.
pub open spec fn failure(range: Text, cause: Text) -> HistoryErrorView {
    HistoryErrorView { range: Some(range), cause }
}

/// The refusal of a requested range because of one of its revisions.
pub open spec fn failure_at(range: Text, revision: Text, cause: Text) -> HistoryErrorView {
    failure(range, "revision "@ + revision + ": "@ + cause)
}

impl HistoryError {
    pub fn new(range: &str, cause: String) -> (r: Self)
        ensures
            r@ == failure(range@, cause@),
    {
        HistoryError { range: Some(range.to_owned()), cause }
    }

    /// What a diagnostic says of a refusal.
    pub open spec fn words(view: HistoryErrorView) -> Text {
        match view.range {
            Some(range) => "history "@ + range + ": "@ + view.cause,
            None => view.cause,
        }
    }

    /// The diagnostic: it names the requested range and the cause.
    pub fn text(&self) -> (r: String)
        ensures
            r@ == Self::words(self@),
    {
        match &self.range {
            Some(range) => {
                let mut r = "history ".to_owned();
                r.append(range.as_str());
                r.append(": ");
                r.append(self.cause.as_str());
                r
            },
            None => self.cause.clone(),
        }
    }
}

} // verus!
