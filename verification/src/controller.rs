//! The decisions behind the lookup routes: which requests are refused, and
//! what the answers say.
use vstd::prelude::*;

use crate::numbers::{i64_to_string, signed_decimal};
use crate::text::{append_str, chars_of, lowercased, string_of, to_lowercase};

verus! {

/// The refusal of a random search larger than `max_random`.
pub open spec fn random_refusal(max_random: i64) -> Seq<char> {
    "Cannot process the request, max size for random filter is "@ + signed_decimal(max_random as int)
        + " elements."@
}

/// The refusal of a permutation search larger than `max_permute`.
pub open spec fn permute_refusal(max_permute: i64) -> Seq<char> {
    "Cannot process the request, max size for permute filter is "@ + signed_decimal(max_permute as int)
        + " elements."@
}

/// The answer when a lookup finds nothing.
pub const NOT_FOUND: &'static str = "Not element found.";
/// The answer when an accent-free lookup finds nothing.
pub const NONE_FOUND: &'static str = "Not elements found.";

fn refusal(prefix: &str, bound: i64) -> (s: String)
    ensures
        s@ == prefix@ + signed_decimal(bound as int) + " elements."@,
{
    let mut out: Vec<char> = Vec::new();
    append_str(&mut out, prefix);
    let b = i64_to_string(bound);
    append_str(&mut out, b.as_str());
    append_str(&mut out, " elements.");
    string_of(out.as_slice())
}

/// A random search is refused when it asks for more than `max_random` words.
pub fn check_random_size(max_random: i64, size: Option<i64>) -> (r: Result<(), String>)
    ensures
        r is Err <==> (size matches Some(n) && n > max_random),
        r matches Err(m) ==> m@ == random_refusal(max_random),
{
    if size.is_some() && size.unwrap() > max_random {
        Err(refusal("Cannot process the request, max size for random filter is ", max_random))
    } else {
        Ok(())
    }
}

/// A permutation search with an inclusion mode is refused when it sets no
/// size or a size above `max_permute`.
pub fn check_permute_size(max_permute: i64, includes: Option<i8>, size: Option<i64>) -> (r: Result<(), String>)
    ensures
        r is Err <==> (includes is Some && (size is None || (size matches Some(n) && n > max_permute))),
        r matches Err(m) ==> m@ == permute_refusal(max_permute),
{
    if includes.is_some() && (size.is_none() || size.is_some() && size.unwrap() > max_permute) {
        Err(refusal("Cannot process the request, max size for permute filter is ", max_permute))
    } else {
        Ok(())
    }
}

/// The key a route looks up for the code in a request: its lowercase form.
pub fn request_key(code: &str) -> (k: String)
    ensures
        k@ == lowercased(code@),
{
    to_lowercase(code)
}

/// The answer of a lookup of one word: the word, or "not found" when there
/// is none.
pub fn word_answer<T>(word: Option<T>) -> (r: Result<T, String>)
    ensures
        r is Ok <==> word is Some,
        r matches Ok(w) ==> word == Some(w),
        r matches Err(m) ==> m@ == NOT_FOUND@,
{
    match word {
        Some(w) => Ok(w),
        None => Err(string_of(chars_of(NOT_FOUND).as_slice())),
    }
}

/// The answer of a lookup that ignores accents: the words found, or "not
/// found" when there are none.
pub fn lax_answer<T>(words: Vec<T>) -> (r: Result<Vec<T>, String>)
    ensures
        r is Ok <==> words@.len() > 0,
        r matches Ok(v) ==> v@ == words@,
        r matches Err(m) ==> m@ == NONE_FOUND@,
{
    if words.len() == 0 {
        Err(string_of(chars_of(NONE_FOUND).as_slice()))
    } else {
        Ok(words)
    }
}

} // verus!
