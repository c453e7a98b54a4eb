//! The listings answered to lookups.
use vstd::prelude::*;

use crate::collection::word_views;
use crate::word::{lite_record_of_word, DTOWordLite, DTOWordLiteView, Word, WordView};

verus! {

/// A listing of words found for a key, with when it was made and how long
/// the lookup took (in milliseconds).
pub struct DTOCollection<T> {
    pub key: String,
    pub size: usize,
    pub timestamp: u128,
    pub time: u128,
    pub result: Vec<T>,
}

/// A listing of words found without a key, with when it was made and how
/// long the lookup took (in milliseconds).
pub struct DTOAnonymousCollection<T> {
    pub size: usize,
    pub timestamp: u128,
    pub time: u128,
    pub result: Vec<T>,
}

/// The listing records of the words.
pub open spec fn lite_records(ws: Seq<WordView>) -> Seq<DTOWordLiteView> {
    ws.map_values(|w: WordView| lite_record_of_word(w))
}

/// The views of listing records.
pub open spec fn lite_views(v: Seq<DTOWordLite>) -> Seq<DTOWordLiteView> {
    v.map_values(|d: DTOWordLite| d@)
}

fn lite_list(words: &Vec<&Word>) -> (r: Vec<DTOWordLite>)
    ensures
        lite_views(r@) == lite_records(word_views(words@)),
{
    let mut r: Vec<DTOWordLite> = Vec::new();
    for i in 0..words.len()
        invariant
            lite_views(r@) == lite_records(word_views(words@)).take(i as int),
    {
        let d = words[i].as_dto_lite();
        let ghost before = lite_views(r@);
        r.push(d);
        assert(lite_views(r@) =~= before.push(d@));
        assert(lite_records(word_views(words@)).take(i + 1) =~= lite_records(word_views(words@)).take(
            i as int,
        ).push(lite_record_of_word(words@[i as int]@)));
    }
    assert(lite_records(word_views(words@)).take(words@.len() as int) =~= lite_records(word_views(words@)));
    r
}

/// The listing of the words found for `key`.
pub fn keyed_collection(key: String, words: &Vec<&Word>, timestamp: u128, time: u128) -> (c: DTOCollection<
    DTOWordLite,
>)
    ensures
        c.key@ == key@,
        c.size == words@.len(),
        c.timestamp == timestamp,
        c.time == time,
        lite_views(c.result@) == lite_records(word_views(words@)),
{
    DTOCollection { key, size: words.len(), timestamp, time, result: lite_list(words) }
}

/// The listing of words found without a key.
pub fn anonymous_collection(words: &Vec<&Word>, timestamp: u128, time: u128) -> (c: DTOAnonymousCollection<
    DTOWordLite,
>)
    ensures
        c.size == words@.len(),
        c.timestamp == timestamp,
        c.time == time,
        lite_views(c.result@) == lite_records(word_views(words@)),
{
    DTOAnonymousCollection { size: words.len(), timestamp, time, result: lite_list(words) }
}

} // verus!
