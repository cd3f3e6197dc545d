//! JSON documents as `serde_json` prints them.
use crate::iceberg::json::{printed, rendered, JsonView};
use crate::text::{dec_int, text_lt};
use vstd::prelude::*;

verus! {

/// The compact text of the document a text holds, with the members of objects
/// in the order of their names; nothing for a text that holds none.
pub uninterp spec fn json_compact(text: Seq<char>) -> Option<Seq<char>>;

/// The indented text of the document a text holds.
pub uninterp spec fn json_pretty(text: Seq<char>) -> Option<Seq<char>>;

/// Whether a value is plain and nested at most `depth` deep: its numbers are
/// 64-bit integers, and the members of its objects stand in the order of their
/// names.
pub open spec fn plain(j: JsonView, depth: nat) -> bool
    decreases j,
{
    match j {
        JsonView::Null => true,
        JsonView::Bool(_) => true,
        JsonView::Num(t) => exists|v: i64| t == #[trigger] dec_int(v as int),
        JsonView::Str(_) => true,
        JsonView::Arr(a) => depth > 0 && forall|i: int|
            #![trigger a[i]]
            0 <= i < a.len() ==> plain(a[i], (depth - 1) as nat),
        JsonView::Obj(o) => depth > 0 && (forall|i: int|
            #![trigger o[i]]
            0 <= i < o.len() ==> plain(o[i].1, (depth - 1) as nat)) && forall|
            i: int,
            k: int,
        |
            0 <= i < k < o.len() ==> text_lt((#[trigger] o[i]).0, (#[trigger] o[k]).0),
    }
}

/// How deep a document may be nested for what is said of it here.
pub const MAX_DEPTH: usize = 100;

/// `serde_json::from_str` into a `Value`, and that value's `to_string`. The
/// text of a plain value is printed as it stands, but for backspaces and form
/// feeds, which are printed in their short form; and what was printed so is
/// printed as it stands.
#[verifier::external_body]
pub(crate) fn compact_json(text: &str) -> (r: Option<String>)
    ensures
        match r {
            Some(t) => json_compact(text@) == Some(t@),
            None => json_compact(text@) is None,
        },
        forall|j: JsonView|
            plain(j, MAX_DEPTH as nat) && text@ == #[trigger] rendered(j) ==> r is Some && r->0@
                == printed(j, true) && json_compact(r->0@) == Some(r->0@),
{
    match serde_json::from_str::<serde_json::Value>(text) {
        Ok(v) => Some(v.to_string()),
        Err(_) => None,
    }
}

/// `serde_json::to_string_pretty` of what `serde_json::from_str` reads. The
/// indented text of a plain value holds that value.
#[verifier::external_body]
pub(crate) fn pretty_json(text: &str) -> (r: Option<String>)
    ensures
        match r {
            Some(t) => json_pretty(text@) == Some(t@),
            None => json_pretty(text@) is None,
        },
        forall|j: JsonView|
            plain(j, MAX_DEPTH as nat) && text@ == #[trigger] rendered(j) ==> r is Some
                && json_compact(r->0@) == Some(printed(j, true)),
{
    match serde_json::from_str::<serde_json::Value>(text) {
        Ok(v) => serde_json::to_string_pretty(&v).ok(),
        Err(_) => None,
    }
}

} // verus!
