//! Block sizes as they are stored: a JSON array of numbers.

use vstd::prelude::*;

use crate::text;

verus! {

/// A list of sizes in JSON: the numbers in decimal, with commas between them,
/// in square brackets.
pub open spec fn json_of(sizes: Seq<u64>) -> Seq<char> {
    "["@ + text::separated(
        Seq::new(sizes.len(), |i: int| text::decimal(sizes[i] as nat)),
        ","@,
    ) + "]"@
}

/// The sizes that a text holds, where it is a JSON array of them, or else what
/// is said to be wrong with it.
pub uninterp spec fn sizes_in(json: Seq<char>) -> Result<Seq<u64>, Seq<char>>;

/// `serde_json::to_string` on a list of whole numbers: it never fails on one,
/// and writes the numbers in decimal with a comma before every one but the
/// first, in square brackets, with no white space.
#[verifier::external_body]
pub(crate) fn encode_sizes(sizes: &[u64]) -> (r: Result<String, String>)
    ensures
        r is Ok,
        r->Ok_0@ == json_of(sizes@),
{
    match serde_json::to_string(sizes) {
        Ok(json) => Ok(json),
        Err(error) => Err(error.to_string()),
    }
}

/// `serde_json::from_str` for a list of unsigned 64-bit numbers: what it reads
/// depends on the text alone and is named, and so is the message of its error. It
/// reads a list that `serde_json::to_string` wrote as that list.
#[verifier::external_body]
pub(crate) fn decode_sizes(json: &str) -> (r: Result<Vec<u64>, String>)
    ensures
        match r {
            Ok(sizes) => sizes_in(json@) == Ok::<Seq<u64>, Seq<char>>(sizes@),
            Err(why) => sizes_in(json@) == Err::<Seq<u64>, Seq<char>>(why@),
        },
        forall|sizes: Seq<u64>|
            json@ == #[trigger] json_of(sizes) ==> r is Ok && r->Ok_0@ == sizes,
{
    match serde_json::from_str::<Vec<u64>>(json) {
        Ok(sizes) => Ok(sizes),
        Err(error) => Err(error.to_string()),
    }
}

} // verus!
