//! Where a configured file stands in a committed tree.

use vstd::prelude::*;
use vstd::string::*;

use super::error::{failure, HistoryError, HistoryErrorView};
use crate::path_start::{start, PathStyle};
use crate::paths::{
    has_step_up, leads_down, lemma_rest_keeps_steps_up, names, names_of, only_down, path_after,
    rest_after, start_alike, step_up,
};
use crate::text::{same, Text};

verus! {

/// Some name of the path steps up.
pub open spec fn steps_up(style: PathStyle, path: Text) -> bool {
    names(style, path).contains(step_up())
}

/// The path leads below `root`, or to it.
pub open spec fn is_inside(style: PathStyle, path: Text, root: Text) -> bool {
    start(style, path) == start(style, root) && names(style, root).is_prefix_of(names(style, path))
}

/// The path below `root`.
pub open spec fn inner(style: PathStyle, path: Text, root: Text) -> Text {
    rest_after(style, path, names(style, root).len())
}

/// The file is one of the committed tree: below the root, by names alone.
pub open spec fn is_committed(style: PathStyle, path: Text, root: Text) -> bool {
    &&& is_inside(style, path, root)
    &&& inner(style, path, root).len() > 0
    &&& leads_down(style, inner(style, path, root))
}

/// The refusal of a configured file that no committed tree can hold.
pub open spec fn outside(range: Text) -> HistoryErrorView {
    failure(range, "configured file is outside the committed tree"@)
}

fn begins_with(parts: &Vec<String>, head: &Vec<String>) -> (r: bool)
    ensures
        r == head.deep_view().is_prefix_of(parts.deep_view()),
{
    if parts.len() < head.len() {
        return false;
    }
    let ghost all = parts.deep_view();
    let ghost first = head.deep_view();
    let mut i: usize = 0;
    while i < head.len()
        invariant
            i <= head@.len() <= parts@.len(),
            all == parts.deep_view(),
            first == head.deep_view(),
            forall|j: int| #![trigger first[j]] 0 <= j < i ==> first[j] == all[j],
        decreases head@.len() - i,
    {
        assert(all[i as int] == parts@[i as int]@);
        assert(first[i as int] == head@[i as int]@);
        if !same(parts[i].as_str(), head[i].as_str()) {
            assert(all.subrange(0, first.len() as int)[i as int] == all[i as int]);
            return false;
        }
        i += 1;
    }
    assert(all.subrange(0, first.len() as int) =~= first);
    true
}

/// The path, within a committed tree, of the configured file. `root` is the
/// canonical root of the repository or why there is none; `canonical` is the
/// canonical path of the configured file seen from it, where there is one.
pub fn historical_config(
    range: &str,
    style: PathStyle,
    config_path: Option<&str>,
    root: Result<String, String>,
    canonical: Option<String>,
) -> (r: Result<Option<String>, HistoryError>)
    ensures
        match config_path {
            None => r matches Ok(found) && found is None,
            Some(path) => if steps_up(style, path@) {
                r matches Err(error) && error@ == outside(range@)
            } else {
                match (root, canonical) {
                    (Err(reason), _) => r matches Err(error) && error@ == failure(
                        range@,
                        "repository root is unavailable: "@ + reason@,
                    ),
                    (Ok(_), None) => r matches Err(error) && error@ == outside(range@),
                    (Ok(root), Some(file)) => if is_committed(style, file@, root@) {
                        r matches Ok(Some(found)) && found@ == inner(style, file@, root@)
                    } else {
                        r matches Err(error) && error@ == outside(range@)
                    },
                }
            },
        },
{
    let path = match config_path {
        Some(path) => path,
        None => {
            return Ok(None);
        },
    };
    if has_step_up(&names_of(style, path)) {
        return Err(
            HistoryError::new(range, "configured file is outside the committed tree".to_owned()),
        );
    }
    let root = match root {
        Ok(root) => root,
        Err(reason) => {
            let mut cause = "repository root is unavailable: ".to_owned();
            cause.append(reason.as_str());
            return Err(HistoryError::new(range, cause));
        },
    };
    let file = match canonical {
        Some(file) => file,
        None => {
            return Err(
                HistoryError::new(
                    range,
                    "configured file is outside the committed tree".to_owned(),
                ),
            );
        },
    };
    let parts = names_of(style, file.as_str());
    let head = names_of(style, root.as_str());
    if start_alike(style, file.as_str(), root.as_str()) && begins_with(&parts, &head) {
        let rest = path_after(style, file.as_str(), head.len());
        if !rest.as_str().is_empty() && only_down(style, rest.as_str()) {
            return Ok(Some(rest));
        }
    }
    Err(HistoryError::new(range, "configured file is outside the committed tree".to_owned()))
}

/// A configured path that steps up is refused wherever it leads.
pub proof fn lemma_step_up_is_never_committed(style: PathStyle, path: Text, root: Text)
    requires
        is_inside(style, path, root),
        steps_up(style, path),
        !steps_up(style, root),
    ensures
        !is_committed(style, path, root),
{
    let all = names(style, path);
    let k = choose|k: int| 0 <= k < all.len() && all[k] == step_up();
    let head = names(style, root);
    if k < head.len() {
        assert(head[k] == all.subrange(0, head.len() as int)[k]);
        assert(head.contains(head[k]));
    } else {
        assert(all.skip(head.len() as int)[k - head.len()] == step_up());
        lemma_rest_keeps_steps_up(style, path, head.len());
    }
}

} // verus!
