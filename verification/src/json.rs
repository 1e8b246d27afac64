//! Trusted binding to the JSON decoder.

use vstd::prelude::*;

verus! {

/// The strings a JSON array-of-strings text denotes, or `None` if the
/// text is not exactly that. What `serde_json` accepts and returns is
/// a function of the input text alone.
pub uninterp spec fn json_string_list(s: Seq<char>) -> Option<Seq<Seq<char>>>;

/// Relies on `serde_json::from_str::<Vec<String>>`: deserializes a
/// JSON array of strings; the outcome depends on the input text alone.
#[verifier::external_body]
pub(crate) fn json_to_vec_raw(s: &str) -> (r: Option<Vec<String>>)
    ensures
        match r {
            Some(v) => json_string_list(s@) == Some(v.deep_view()),
            None => json_string_list(s@) is None,
        },
{
    serde_json::from_str(s).ok()
}

} // verus!
