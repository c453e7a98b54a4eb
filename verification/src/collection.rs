//! The in-memory dictionary: words under their lowercase keys, each
//! transliteration indexing the words that have it.
use vstd::prelude::*;

use crate::collection_laws::distinct_words;
use crate::env::EnvArgs;
use crate::numbers::{parse_trimmed_bool, parsed_bool, trimmed};
use crate::permute::{arrangements, PermuteCombo};
use crate::text::{
    chars_equal, chars_of, compare_keys, contains, ends_with, is_infix, is_prefix, is_suffix, key_less, lowercased,
    starts_with, string_views, to_lowercase, transliterate, unidecoded, KeyOrder,
};
use crate::word::{clone_strings, empty_word, row_of_word, word_of_record, DTOWord, DTOWordView, Word, WordView};
use crate::word_map::{has_key, keys_sorted, lemma_store, lookup, lower_bound, store, EntryView, WordMap};

verus! {

/// The views of a list of word references.
pub open spec fn word_views(v: Seq<&Word>) -> Seq<WordView> {
    v.map_values(|w: &Word| w@)
}

/// The word under key `k`, if it is shown.
pub open spec fn visible_word(s: Seq<EntryView>, k: Seq<char>) -> Option<WordView> {
    match lookup(s, k) {
        Some(w) => if w.visible { Some(w) } else { None },
        None => None,
    }
}

/// The shown words that the references lead to, each looked up by its
/// lowercase form, in the order of the references.
pub open spec fn referenced(s: Seq<EntryView>, refs: Seq<Seq<char>>) -> Seq<WordView>
    decreases refs.len(),
{
    if refs.len() == 0 {
        Seq::<WordView>::empty()
    } else {
        referenced(s, refs.drop_last()) + match visible_word(s, lowercased(refs.last())) {
            Some(w) => seq![w],
            None => Seq::<WordView>::empty(),
        }
    }
}

/// The words found by a lookup that ignores accents: the entry under the
/// transliteration of `code`, if shown, then the shown words it refers to.
pub open spec fn lax_words(s: Seq<EntryView>, code: Seq<char>) -> Seq<WordView> {
    lax_words_at(s, unidecoded(code))
}

/// The words found through a transliteration: the entry under it, if shown,
/// then the shown words it refers to.
pub open spec fn lax_words_at(s: Seq<EntryView>, transliteration: Seq<char>) -> Seq<WordView> {
    match lookup(s, transliteration) {
        Some(w) => (if w.visible { seq![w] } else { Seq::<WordView>::empty() }) + referenced(s, w.references),
        None => Seq::<WordView>::empty(),
    }
}

/// The hidden entry that indexes a word under its transliteration `u`.
pub open spec fn transliteration_entry(w: WordView, u: Seq<char>) -> WordView {
    WordView { word: u, visible: false, references: seq![w.word], ..w }
}

/// An indexing entry that also refers to `r`.
pub open spec fn with_reference(x: WordView, r: Seq<char>) -> WordView {
    if x.references.contains(r) {
        x
    } else {
        WordView { references: x.references.push(r), ..x }
    }
}

/// The references a word is stored with, given its key (its lowercase
/// spelling) and its lowercase transliteration `u`: those already stored
/// under the key; else, when its spelling is not `u`, `u`; else its own.
pub open spec fn stored_references_keyed(s: Seq<EntryView>, w: WordView, key: Seq<char>, u: Seq<char>) -> Seq<Seq<char>> {
    if has_key(s, key) {
        lookup(s, key).unwrap().references
    } else if w.word != u {
        seq![u]
    } else {
        w.references
    }
}

/// The references a word is stored with (see `stored_references_keyed`).
pub open spec fn stored_references(s: Seq<EntryView>, w: WordView) -> Seq<Seq<char>> {
    stored_references_keyed(s, w, lowercased(w.word), lowercased(unidecoded(w.word)))
}

/// The entries after adding a word, given its key (its lowercase spelling),
/// its transliteration `tr` and the lowercase form `u` of that: it is stored
/// under the key; then, unless its spelling is `u`, the entry under `tr`
/// (looked up as it is, stored under `u`) is created hidden or made to refer
/// to the word.
pub open spec fn inserted_keyed(
    s: Seq<EntryView>,
    w: WordView,
    key: Seq<char>,
    tr: Seq<char>,
    u: Seq<char>,
) -> Seq<EntryView> {
    let w1 = WordView { references: stored_references_keyed(s, w, key, u), ..w };
    let s1 = store(s, key, w1);
    if w.word == u {
        s1
    } else {
        let save = match lookup(s1, tr) {
            None => transliteration_entry(w1, tr),
            Some(x) => with_reference(x, w.word),
        };
        store(s1, u, save)
    }
}

/// The entries after adding a word, keyed by its lowercase spelling and
/// indexed by its transliteration (see `inserted_keyed`).
pub open spec fn inserted(s: Seq<EntryView>, w: WordView) -> Seq<EntryView> {
    inserted_keyed(s, w, lowercased(w.word), unidecoded(w.word), lowercased(unidecoded(w.word)))
}

/// Whether key `k` matches `code` for a search mode: `-1` for keys that
/// start with it, `1` for keys that end with it, any other for keys that
/// contain it.
pub open spec fn matches_mode(k: Seq<char>, code: Seq<char>, action: i8) -> bool {
    if action == -1 {
        is_prefix(code, k)
    } else if action == 1 {
        is_suffix(code, k)
    } else {
        is_infix(code, k)
    }
}

/// The number of consecutive entries from `start` whose keys match `code`
/// and are not among `excluded` (the range of keys from a start, taken while
/// they match).
pub open spec fn run_len(
    s: Seq<EntryView>,
    start: int,
    code: Seq<char>,
    action: i8,
    excluded: Seq<Seq<char>>,
) -> nat
    decreases s.len() - start,
{
    if start < 0 || start >= s.len() || !matches_mode(s[start].0, code, action) || excluded.contains(
        s[start].0,
    ) {
        0
    } else {
        1 + run_len(s, start + 1, code, action, excluded)
    }
}

/// The positions of that run.
pub open spec fn run_positions(
    s: Seq<EntryView>,
    start: int,
    code: Seq<char>,
    action: i8,
    excluded: Seq<Seq<char>>,
) -> Seq<int> {
    Seq::new(run_len(s, start, code, action, excluded), |j: int| start + j)
}

/// The keys at the given positions.
pub open spec fn keys_at(s: Seq<EntryView>, positions: Seq<int>) -> Seq<Seq<char>> {
    positions.map_values(|p: int| s[p].0)
}

/// The search mode of an optional position: none searches inside keys.
pub open spec fn mode_of(position: Option<i8>) -> i8 {
    match position {
        Some(a) => a,
        None => 0,
    }
}

/// The positions an inclusion search visits: the run of matching keys from
/// `code` on; when lax, then the run of keys matching the transliteration of
/// `code` from there on, which ends at the first key already taken.
pub open spec fn includes_positions(s: Seq<EntryView>, code: Seq<char>, lax: Option<bool>, position: Option<i8>) -> Seq<int> {
    let action = mode_of(position);
    let first = run_positions(s, lower_bound(s, code), code, action, Seq::<Seq<char>>::empty());
    if lax == Some(true) {
        let cu = unidecoded(code);
        first + run_positions(s, lower_bound(s, cu), cu, action, keys_at(s, first))
    } else {
        first
    }
}

/// The words a visited key yields: when lax, those found ignoring accents;
/// else the word under it, if shown.
pub open spec fn candidate_words(s: Seq<EntryView>, k: Seq<char>, lax: bool) -> Seq<WordView> {
    if lax {
        lax_words(s, k)
    } else {
        match visible_word(s, k) {
            Some(w) => seq![w],
            None => Seq::<WordView>::empty(),
        }
    }
}

/// The words that the visited positions yield, in order.
pub open spec fn candidates(s: Seq<EntryView>, positions: Seq<int>, lax: bool) -> Seq<WordView>
    decreases positions.len(),
{
    if positions.len() == 0 {
        Seq::<WordView>::empty()
    } else {
        candidates(s, positions.drop_last(), lax) + candidate_words(s, s[positions.last()].0, lax)
    }
}

/// Some word in `acc` is spelled `word`.
pub open spec fn has_word(acc: Seq<WordView>, word: Seq<char>) -> bool {
    exists|i: int| 0 <= i < acc.len() && acc[i].word == word
}

/// Going through the candidates in order, keeps each whose spelling was not
/// kept yet, and stops once `size` words are kept (a candidate is always
/// looked at first, so a size below one stops after the first). The flag
/// tells whether it stopped.
pub open spec fn gather(cands: Seq<WordView>, size: Option<i64>) -> (Seq<WordView>, bool)
    decreases cands.len(),
{
    if cands.len() == 0 {
        (Seq::<WordView>::empty(), false)
    } else {
        let (acc, done) = gather(cands.drop_last(), size);
        if done {
            (acc, true)
        } else {
            let w = cands.last();
            let acc2 = if has_word(acc, w.word) { acc } else { acc.push(w) };
            (acc2, size matches Some(n) && acc2.len() >= n)
        }
    }
}

/// The words an inclusion search returns.
pub open spec fn includes_words(
    s: Seq<EntryView>,
    code: Seq<char>,
    position: Option<i8>,
    lax: Option<bool>,
    size: Option<i64>,
) -> Seq<WordView> {
    gather(candidates(s, includes_positions(s, code, lax, position), lax == Some(true)), size).0
}

/// Once gathering has stopped, later words change nothing.
pub proof fn lemma_gather_stopped(p: Seq<WordView>, q: Seq<WordView>, size: Option<i64>)
    requires
        gather(p, size).1,
    ensures
        gather(p + q, size) == gather(p, size),
    decreases q.len(),
{
    if q.len() > 0 {
        lemma_gather_stopped(p, q.drop_last(), size);
        assert((p + q).drop_last() =~= p + q.drop_last());
    } else {
        assert(p + q =~= p);
    }
}

/// The candidates of consecutive runs of positions are those of each run in
/// turn.
pub proof fn lemma_candidates_append(s: Seq<EntryView>, p: Seq<int>, q: Seq<int>, lax: bool)
    ensures
        candidates(s, p + q, lax) == candidates(s, p, lax) + candidates(s, q, lax),
    decreases q.len(),
{
    if q.len() == 0 {
        assert(p + q =~= p);
        assert(candidates(s, p, lax) + Seq::<WordView>::empty() =~= candidates(s, p, lax));
    } else {
        lemma_candidates_append(s, p, q.drop_last(), lax);
        assert((p + q).drop_last() =~= p + q.drop_last());
        assert((p + q).last() == q.last());
    }
}

/// The arrangements searched for a combination: all of them, or with a
/// minimum, those with at least that many letters.
pub open spec fn codes_at_least(codes: Seq<Seq<char>>, min: Option<i8>) -> Seq<Seq<char>>
    decreases codes.len(),
{
    if codes.len() == 0 {
        Seq::<Seq<char>>::empty()
    } else {
        let rest = codes_at_least(codes.drop_last(), min);
        match min {
            Some(m) => if codes.last().len() >= m {
                rest.push(codes.last())
            } else {
                rest
            },
            None => rest.push(codes.last()),
        }
    }
}

/// The codes a permutation search tries for a combination.
pub open spec fn permutation_codes(combo: Seq<char>, min: Option<i8>) -> Seq<Seq<char>> {
    codes_at_least(arrangements(combo), min)
}

/// The budget of words left: the size, if any.
pub open spec fn budget_of(size: Option<i64>) -> Option<int> {
    match size {
        Some(n) => Some(n as int),
        None => None,
    }
}

/// The budget after `k` more words.
pub open spec fn spend(budget: Option<int>, k: int) -> Option<int> {
    match budget {
        Some(x) => Some(x - k),
        None => None,
    }
}

/// The budget as a size: within range it is the same number.
pub open spec fn size_of(budget: Option<int>) -> Option<i64> {
    match budget {
        Some(x) => Some(if x < i64::MIN { i64::MIN } else { x as i64 }),
        None => None,
    }
}

/// The stand-in returned for a code that is no known word.
pub open spec fn unrecognized_word(code: Seq<char>) -> WordView {
    WordView { word: code, category: PERMUTATION_CATEGORY@, ..empty_word() }
}

/// The words a code finds without an inclusion mode: when a lax flag is
/// given (whatever its value), the words found ignoring accents; else the
/// word under the code, if shown.
pub open spec fn basic_words(s: Seq<EntryView>, code: Seq<char>, lax: Option<bool>) -> Seq<WordView> {
    if lax is Some {
        lax_words(s, code)
    } else {
        match visible_word(s, code) {
            Some(w) => seq![w],
            None => Seq::<WordView>::empty(),
        }
    }
}

/// The words one code finds, given the budget left, and the budget after it:
/// with an inclusion mode, an inclusion search limited by the budget; else
/// the basic lookup. When nothing is found and unknown codes are wanted
/// (`exists` is `Some(false)`), the code itself stands in.
pub open spec fn code_step(
    s: Seq<EntryView>,
    code: Seq<char>,
    lax: Option<bool>,
    includes: Option<i8>,
    exists: Option<bool>,
    budget: Option<int>,
) -> (Seq<WordView>, Option<int>) {
    let found = match includes {
        None => basic_words(s, code, lax),
        Some(p) => includes_words(s, code, Some(p), lax, size_of(budget)),
    };
    let b1 = spend(budget, found.len() as int);
    if exists == Some(false) && found.len() == 0 {
        (seq![unrecognized_word(code)], spend(b1, 1))
    } else {
        (found, b1)
    }
}

/// The words found for the codes in order, the budget left, and whether the
/// search stopped because the budget ran out.
pub open spec fn permute_fold(
    s: Seq<EntryView>,
    codes: Seq<Seq<char>>,
    lax: Option<bool>,
    includes: Option<i8>,
    exists: Option<bool>,
    size: Option<i64>,
) -> (Seq<WordView>, Option<int>, bool)
    decreases codes.len(),
{
    if codes.len() == 0 {
        (Seq::<WordView>::empty(), budget_of(size), false)
    } else {
        let (acc, b, done) = permute_fold(s, codes.drop_last(), lax, includes, exists, size);
        if done {
            (acc, b, true)
        } else {
            let (found, b2) = code_step(s, codes.last(), lax, includes, exists, b);
            (acc + found, b2, b2 matches Some(x) && x <= 0)
        }
    }
}

/// The words a permutation search returns.
pub open spec fn permute_words(
    s: Seq<EntryView>,
    combo: Seq<char>,
    min: Option<i8>,
    exists: Option<bool>,
    lax: Option<bool>,
    includes: Option<i8>,
    size: Option<i64>,
) -> Seq<WordView> {
    permute_fold(s, permutation_codes(combo, min), lax, includes, exists, size).0
}

/// The views of a list of words.
pub open spec fn owned_views(v: Seq<Word>) -> Seq<WordView> {
    v.map_values(|w: Word| w@)
}

/// Once the permutation search has stopped, later arrangements change nothing.
pub proof fn lemma_permute_fold_stopped(
    s: Seq<EntryView>,
    p: Seq<Seq<char>>,
    q: Seq<Seq<char>>,
    lax: Option<bool>,
    includes: Option<i8>,
    exists: Option<bool>,
    size: Option<i64>,
)
    requires
        permute_fold(s, p, lax, includes, exists, size).2,
    ensures
        permute_fold(s, p + q, lax, includes, exists, size) == permute_fold(s, p, lax, includes, exists, size),
    decreases q.len(),
{
    if q.len() > 0 {
        lemma_permute_fold_stopped(s, p, q.drop_last(), lax, includes, exists, size);
        assert((p + q).drop_last() =~= p + q.drop_last());
    } else {
        assert(p + q =~= p);
    }
}

/// The budget after `k` more words, kept within range (a budget this far
/// below zero has run out all the same).
fn spend_size(size: Option<i64>, k: usize) -> (r: Option<i64>)
    ensures
        r == size_of(spend(budget_of(size), k as int)),
{
    match size {
        Some(n) => {
            let v: i128 = n as i128 - k as i128;
            if v < i64::MIN as i128 {
                Some(i64::MIN)
            } else {
                Some(v as i64)
            }
        },
        None => None,
    }
}

/// Copies of the words.
fn clone_words(v: &Vec<&Word>) -> (r: Vec<Word>)
    ensures
        owned_views(r@) == word_views(v@),
{
    let mut r: Vec<Word> = Vec::new();
    for i in 0..v.len()
        invariant
            owned_views(r@) == word_views(v@).take(i as int),
    {
        let w = v[i].clone();
        let ghost before = owned_views(r@);
        r.push(w);
        assert(owned_views(r@) =~= before.push(w@));
        assert(word_views(v@).take(i + 1) =~= word_views(v@).take(i as int).push(v@[i as int]@));
    }
    assert(word_views(v@).take(v@.len() as int) =~= word_views(v@));
    r
}

/// Once the words of a visited key make the search stop, what it returns is
/// what it kept so far.
proof fn lemma_stop_early(
    s: Seq<EntryView>,
    positions: Seq<int>,
    i: int,
    words: Seq<WordView>,
    j: int,
    lax: bool,
    size: Option<i64>,
)
    requires
        0 <= i < positions.len(),
        0 <= j < words.len(),
        words == candidate_words(s, s[positions[i]].0, lax),
        gather(candidates(s, positions.take(i), lax) + words.take(j + 1), size).1,
    ensures
        gather(candidates(s, positions, lax), size) == gather(
            candidates(s, positions.take(i), lax) + words.take(j + 1),
            size,
        ),
{
    let seen0 = candidates(s, positions.take(i), lax);
    let seen = seen0 + words.take(j + 1);
    lemma_gather_stopped(seen, words.skip(j + 1), size);
    assert(seen + words.skip(j + 1) =~= seen0 + words);
    assert(positions.take(i + 1).drop_last() =~= positions.take(i));
    assert(positions.take(i + 1).last() == positions[i]);
    let later = positions.skip(i + 1);
    lemma_candidates_append(s, positions.take(i + 1), later, lax);
    assert(positions.take(i + 1) + later =~= positions);
    lemma_gather_stopped(seen0 + words, candidates(s, later, lax), size);
}

/// Adds `w` unless a word with its spelling is there already.
fn add_distinct<'a>(filter: &mut Vec<&'a Word>, w: &'a Word)
    ensures
        word_views(final(filter)@) == (if has_word(word_views(old(filter)@), w@.word) {
            word_views(old(filter)@)
        } else {
            word_views(old(filter)@).push(w@)
        }),
{
    let mut found = false;
    let mut k: usize = 0;
    while k < filter.len()
        invariant
            k <= filter@.len(),
            found == (exists|m: int| 0 <= m < k && filter@[m]@.word == w@.word),
        decreases filter@.len() - k,
    {
        if filter[k].word == w.word {
            found = true;
        }
        k = k + 1;
    }
    assert(found == has_word(word_views(filter@), w@.word)) by {
        if found {
            let m = choose|m: int| 0 <= m < k && filter@[m]@.word == w@.word;
            assert(word_views(filter@)[m] == filter@[m]@);
        }
        if has_word(word_views(filter@), w@.word) {
            let m = choose|m: int| 0 <= m < word_views(filter@).len() && word_views(filter@)[m].word == w@.word;
            assert(word_views(filter@)[m] == filter@[m]@);
        }
    }
    let ghost acc0 = word_views(filter@);
    if !found {
        filter.push(w);
        assert(word_views(filter@) =~= acc0.push(w@));
    }
}

/// Whether key `k` matches `code` for the search mode `action`.
fn key_matches(k: &[char], code: &[char], action: i8) -> (r: bool)
    ensures
        r == matches_mode(k@, code@, action),
{
    if action == -1 {
        starts_with(k, code)
    } else if action == 1 {
        ends_with(k, code)
    } else {
        contains(k, code)
    }
}

fn key_listed(keys: &Vec<Vec<char>>, k: &[char]) -> (r: bool)
    ensures
        r == keys@.map_values(|v: Vec<char>| v@).contains(k@),
{
    let ghost views = keys@.map_values(|v: Vec<char>| v@);
    for i in 0..keys.len()
        invariant
            views == keys@.map_values(|v: Vec<char>| v@),
            forall|j: int| 0 <= j < i ==> views[j] != k@,
    {
        if chars_equal(keys[i].as_slice(), k) {
            assert(views[i as int] == k@);
            return true;
        }
    }
    false
}

/// The category of the stand-in for a code that is no known word.
pub const PERMUTATION_CATEGORY: &'static str = "rust-dictionary-permutation";

/// The entries after reading records in order: each record that names a
/// word adds the word it describes.
pub open spec fn loaded(s: Seq<EntryView>, records: Seq<DTOWordView>) -> Seq<EntryView>
    decreases records.len(),
{
    if records.len() == 0 {
        s
    } else {
        let s1 = loaded(s, records.drop_last());
        let d = records.last();
        if d.word is Some {
            inserted(s1, word_of_record(d))
        } else {
            s1
        }
    }
}

/// The views of a list of records.
pub open spec fn record_views(v: Seq<DTOWord>) -> Seq<DTOWordView> {
    v.map_values(|d: DTOWord| d@)
}

/// Places `x` after the last of the sorted words `t` whose lowercase
/// spelling is not above its own.
pub open spec fn insert_by_word(t: Seq<WordView>, x: WordView) -> Seq<WordView>
    decreases t.len(),
{
    if t.len() == 0 {
        seq![x]
    } else if key_less(lowercased(x.word), lowercased(t.last().word)) {
        insert_by_word(t.drop_last(), x).push(t.last())
    } else {
        t.push(x)
    }
}

/// The words stably sorted by their lowercase spelling (`slice::sort_by`).
pub open spec fn sorted_by_word(ws: Seq<WordView>) -> Seq<WordView>
    decreases ws.len(),
{
    if ws.len() == 0 {
        Seq::<WordView>::empty()
    } else {
        insert_by_word(sorted_by_word(ws.drop_last()), ws.last())
    }
}

/// The words of the entries, in key order.
pub open spec fn entry_words(s: Seq<EntryView>) -> Seq<WordView> {
    s.map_values(|e: EntryView| e.1)
}

/// The rows of the shown words, in order.
pub open spec fn visible_rows(ws: Seq<WordView>) -> Seq<Seq<Seq<char>>>
    decreases ws.len(),
{
    if ws.len() == 0 {
        Seq::<Seq<Seq<char>>>::empty()
    } else {
        let r = visible_rows(ws.drop_last());
        if ws.last().visible {
            r.push(row_of_word(ws.last()))
        } else {
            r
        }
    }
}

/// The rows written back on exit: the shown words sorted by lowercase
/// spelling.
pub open spec fn rebuild_rows(s: Seq<EntryView>) -> Seq<Seq<Seq<char>>> {
    visible_rows(sorted_by_word(entry_words(s)))
}

/// The views of a table of strings.
pub open spec fn table_views(t: Seq<Vec<String>>) -> Seq<Seq<Seq<char>>> {
    t.map_values(|r: Vec<String>| string_views(r@))
}

/// The setting that turns fetching missing meanings on.
pub const ENABLE_SCRAPER: &'static str = "ENABLE_SCRAPER";
/// The setting that turns writing the dictionary back on exit on.
pub const ENABLE_REBUILD: &'static str = "ENABLE_REBUILD";
/// The setting that names the dictionary file read on start.
pub const SOURCE_FILE: &'static str = "SOURCE_FILE";
/// The setting that names the file the dictionary is written back to.
pub const REBUILD_FILE: &'static str = "REBUILD_FILE";

/// The value of an on/off setting: off when absent, else its trimmed text
/// read as a flag.
pub open spec fn flag_setting(v: Option<Seq<char>>) -> Option<bool> {
    match v {
        Some(s) => parsed_bool(trimmed(s)),
        None => Some(false),
    }
}

/// The settings a dictionary can be made from: both flags, when given, read
/// as flags, and both files are named.
pub open spec fn collection_accepts(args: EnvArgs) -> bool {
    &&& flag_setting(args.var(ENABLE_SCRAPER@)) is Some
    &&& flag_setting(args.var(ENABLE_REBUILD@)) is Some
    &&& args.var(SOURCE_FILE@) is Some
    &&& args.var(REBUILD_FILE@) is Some
}

fn read_flag(args: &EnvArgs, name: &str) -> (r: Option<bool>)
    ensures
        r == flag_setting(args.var(name@)),
{
    match args.get(name) {
        Some(v) => parse_trimmed_bool(v.as_str()),
        None => Some(false),
    }
}

/// The dictionary held in memory.
pub struct WordCollectionMemory {
    headers: Vec<String>,
    map: WordMap,
    enable_scraper: bool,
    enable_rebuild: bool,
    source_file: String,
    rebuild_file: String,
}

impl WordCollectionMemory {
    /// The entries, in key order.
    pub closed spec fn entries(&self) -> Seq<EntryView> {
        self.map@
    }

    /// The entries are in strictly increasing key order.
    pub closed spec fn wf(&self) -> bool {
        self.map.wf()
    }

    /// A well-formed collection keeps its entries in strictly increasing key
    /// order.
    pub proof fn lemma_wf_sorted(&self)
        requires
            self.wf(),
        ensures
            keys_sorted(self.entries()),
    {
    }

    pub closed spec fn scraper_enabled(&self) -> bool {
        self.enable_scraper
    }

    pub closed spec fn rebuild_enabled(&self) -> bool {
        self.enable_rebuild
    }

    pub closed spec fn source(&self) -> Seq<char> {
        self.source_file@
    }

    pub closed spec fn rebuild_target(&self) -> Seq<char> {
        self.rebuild_file@
    }

    /// The column names read with the entries.
    pub closed spec fn header_row(&self) -> Seq<Seq<char>> {
        string_views(self.headers@)
    }

    /// Takes in the rows read from the dictionary file: the column names and
    /// the records, in order (see `loaded`).
    pub fn load_records(&mut self, headers: Vec<String>, records: Vec<DTOWord>)
        requires
            old(self).wf(),
        ensures
            final(self).wf(),
            final(self).entries() == loaded(old(self).entries(), record_views(records@)),
            final(self).header_row() == string_views(headers@),
            final(self).scraper_enabled() == old(self).scraper_enabled(),
            final(self).rebuild_enabled() == old(self).rebuild_enabled(),
            final(self).source() == old(self).source(),
            final(self).rebuild_target() == old(self).rebuild_target(),
    {
        self.headers = headers;
        let ghost rv = record_views(records@);
        let ghost s0 = self.entries();
        let mut records = records;
        let mut reversed: Vec<DTOWord> = Vec::new();
        assert(rv.skip(rv.len() as int).reverse() =~= record_views(reversed@));
        assert(rv.take(rv.len() as int) =~= rv);
        while records.len() > 0
            invariant
                record_views(records@) == rv.take(records@.len() as int),
                record_views(reversed@) == rv.skip(records@.len() as int).reverse(),
                records@.len() <= rv.len(),
            decreases records@.len(),
        {
            let ghost n = records@.len();
            let ghost old_rev = record_views(reversed@);
            let d = records.pop().unwrap();
            let ghost dv = d@;
            reversed.push(d);
            assert(record_views(reversed@) =~= old_rev.push(dv));
            assert(rv[n - 1] == dv) by {
                assert(rv.take(n as int)[n - 1] == dv);
            }
            assert(record_views(records@) =~= rv.take(n - 1));
            assert(record_views(reversed@) =~= rv.skip(n - 1).reverse());
        }
        assert(rv.skip(0) =~= rv);
        let mut k: usize = 0;
        let total = reversed.len();
        assert(rv.take(0) =~= Seq::<DTOWordView>::empty());
        while reversed.len() > 0
            invariant
                self.wf(),
                total == rv.len(),
                k + reversed@.len() == total,
                record_views(reversed@) == rv.skip(k as int).reverse(),
                self.entries() == loaded(s0, rv.take(k as int)),
                self.header_row() == string_views(headers@),
                self.scraper_enabled() == old(self).scraper_enabled(),
                self.rebuild_enabled() == old(self).rebuild_enabled(),
                self.source() == old(self).source(),
                self.rebuild_target() == old(self).rebuild_target(),
            decreases reversed@.len(),
        {
            let ghost m = reversed@.len();
            let ghost old_rev = record_views(reversed@);
            let dto = reversed.pop().unwrap();
            assert(record_views(reversed@) =~= old_rev.drop_last());
            assert(dto@ == rv[k as int]) by {
                assert(rv.skip(k as int).reverse()[m - 1] == rv.skip(k as int)[0]);
            }
            assert(record_views(reversed@) =~= rv.skip(k + 1).reverse());
            assert(rv.take(k + 1).drop_last() =~= rv.take(k as int));
            assert(rv.take(k + 1).last() == rv[k as int]);
            if dto.word.is_some() {
                let word = Word::from_dto(dto);
                self.insert(word);
            }
            k = k + 1;
        }
        assert(rv.take(total as int) =~= rv);
    }

    /// What is written back on exit when rebuilding is on: the column names
    /// and the rows of the shown words sorted by lowercase spelling.
    pub fn rebuild(&self) -> (r: Option<(Vec<String>, Vec<Vec<String>>)>)
        requires
            self.wf(),
        ensures
            r is Some <==> self.rebuild_enabled(),
            r matches Some((h, rows)) ==> string_views(h@) == self.header_row() && table_views(rows@)
                == rebuild_rows(self.entries()),
    {
        if !self.enable_rebuild {
            return None;
        }
        let ghost s = self.entries();
        let ghost words = entry_words(s);
        let n = self.map.len();
        let mut keys: Vec<Vec<char>> = Vec::new();
        for i in 0..n
            invariant
                n == s.len(),
                s == self.entries(),
                words == entry_words(s),
                keys@.len() == i,
                forall|j: int| 0 <= j < i ==> (#[trigger] keys@[j])@ == lowercased(words[j].word),
        {
            let lower = to_lowercase(self.map.word_at(i).word.as_str());
            keys.push(chars_of(lower.as_str()));
        }
        let mut order: Vec<usize> = Vec::new();
        for i in 0..n
            invariant
                n == s.len(),
                s == self.entries(),
                words == entry_words(s),
                keys@.len() == n,
                forall|j: int| 0 <= j < n ==> (#[trigger] keys@[j])@ == lowercased(words[j].word),
                order@.len() == i,
                forall|j: int| 0 <= j < order@.len() ==> order@[j] < n,
                order@.map_values(|p: usize| words[p as int]) == sorted_by_word(words.take(i as int)),
        {
            let ghost sorted = order@.map_values(|p: usize| words[p as int]);
            let ghost x = words[i as int];
            order.push(i);
            let mut j = i;
            assert(sorted.take(j as int) =~= sorted);
            assert(sorted.skip(j as int) =~= Seq::<WordView>::empty());
            assert(order@.map_values(|p: usize| words[p as int]) =~= sorted.take(j as int).push(x) + sorted.skip(j as int));
            while j > 0 && compare_keys(keys[order[j]].as_slice(), keys[order[j - 1]].as_slice()) == KeyOrder::Less
                invariant
                    n == s.len(),
                    words == entry_words(s),
                    keys@.len() == n,
                    forall|m: int| 0 <= m < n ==> (#[trigger] keys@[m])@ == lowercased(words[m].word),
                    order@.len() == i + 1,
                    j <= i,
                    forall|m: int| 0 <= m < order@.len() ==> order@[m] < n,
                    order@[j as int] == i,
                    i < n,
                    x == words[i as int],
                    sorted.len() == i,
                    order@.map_values(|p: usize| words[p as int]) == sorted.take(j as int).push(x) + sorted.skip(j as int),
                    insert_by_word(sorted, x) == insert_by_word(sorted.take(j as int), x) + sorted.skip(j as int),
                decreases j,
            {
                let a = order[j - 1];
                let ghost prev = sorted[j - 1];
                assert(order@.map_values(|p: usize| words[p as int])[j - 1] == prev);
                assert(sorted.take(j as int).drop_last() =~= sorted.take(j - 1));
                assert(sorted.take(j as int).last() == prev);
                let ghost old_view = order@.map_values(|p: usize| words[p as int]);
                assert(words[a as int] == prev);
                order.set(j - 1, i);
                order.set(j, a);
                assert(order@.map_values(|p: usize| words[p as int]) =~= old_view.update(j - 1, x).update(j as int, prev));
                assert(sorted.skip(j - 1) =~= seq![prev] + sorted.skip(j as int));
                assert(order@.map_values(|p: usize| words[p as int]) =~= sorted.take(j - 1).push(x) + sorted.skip(j - 1));
                assert(insert_by_word(sorted.take(j as int), x) + sorted.skip(j as int) =~= insert_by_word(
                    sorted.take(j - 1),
                    x,
                ) + sorted.skip(j - 1));
                j = j - 1;
            }
            proof {
                if j > 0 {
                    assert(order@.map_values(|p: usize| words[p as int])[j - 1] == sorted[j - 1]);
                    assert(sorted.take(j as int).last() == sorted[j - 1]);
                    assert(!key_less(lowercased(x.word), lowercased(sorted.take(j as int).last().word)));
                } else {
                    assert(sorted.take(0) =~= Seq::<WordView>::empty());
                }
                assert(words.take(i + 1).drop_last() =~= words.take(i as int));
                assert(words.take(i + 1).last() == x);
            }
        }
        assert(words.take(n as int) =~= words);
        let ghost sorted_all = order@.map_values(|p: usize| words[p as int]);
        let mut rows: Vec<Vec<String>> = Vec::new();
        for i in 0..n
            invariant
                n == s.len(),
                s == self.entries(),
                words == entry_words(s),
                order@.len() == n,
                forall|j: int| 0 <= j < order@.len() ==> order@[j] < n,
                sorted_all == order@.map_values(|p: usize| words[p as int]),
                table_views(rows@) == visible_rows(sorted_all.take(i as int)),
        {
            let w = self.map.word_at(order[i]);
            assert(w@ == sorted_all[i as int]);
            assert(sorted_all.take(i + 1).drop_last() =~= sorted_all.take(i as int));
            assert(sorted_all.take(i + 1).last() == w@);
            if w.visible {
                let row = w.as_vector();
                let ghost before = table_views(rows@);
                rows.push(row);
                assert(table_views(rows@) =~= before.push(row_of_word(w@)));
            }
        }
        assert(sorted_all.take(n as int) =~= sorted_all);
        Some((clone_strings(&self.headers), rows))
    }

    /// The words picked after looking at the entry at `position` during a
    /// random search: its word joins them if shown and not picked yet.
    pub open spec fn picked_after(&self, picked: Seq<WordView>, position: int) -> Seq<WordView> {
        let w = self.entries()[position].1;
        if w.visible && !has_word(picked, w.word) {
            picked.push(w)
        } else {
            picked
        }
    }

    /// A random search only ever picks shown words, no two with the same
    /// spelling: each draw keeps that so.
    pub proof fn lemma_random_pick_distinct(&self, picked: Seq<WordView>, position: int)
        requires
            0 <= position < self.entries().len(),
            distinct_words(picked),
            forall|i: int| 0 <= i < picked.len() ==> (#[trigger] picked[i]).visible,
        ensures
            distinct_words(self.picked_after(picked, position)),
            forall|i: int| 0 <= i < self.picked_after(picked, position).len()
                ==> (#[trigger] self.picked_after(picked, position)[i]).visible,
    {
        let w = self.entries()[position].1;
        let after = self.picked_after(picked, position);
        if w.visible && !has_word(picked, w.word) {
            assert forall|i: int, j: int| 0 <= i < j < after.len() implies (#[trigger] after[i]).word
                != (#[trigger] after[j]).word by {
                if j == picked.len() {
                    assert(after[i] == picked[i]);
                } else {
                    assert(after[i] == picked[i] && after[j] == picked[j]);
                }
            }
            assert forall|i: int| 0 <= i < after.len() implies (#[trigger] after[i]).visible by {
                if i < picked.len() {
                    assert(after[i] == picked[i]);
                }
            }
        }
    }

    /// Looks at the entry at `position` for a random search of `size` words;
    /// tells whether the search is over: as many words as entries, or as
    /// asked for.
    pub fn find_random_pick<'a>(&'a self, size: i64, picked: &mut Vec<&'a Word>, position: usize) -> (finish: bool)
        requires
            self.wf(),
            position < self.entries().len(),
        ensures
            word_views(final(picked)@) == self.picked_after(word_views(old(picked)@), position as int),
            finish == (final(picked)@.len() == self.entries().len() || final(picked)@.len() == size),
    {
        let word = self.map.word_at(position);
        if word.visible {
            add_distinct(picked, word);
        }
        let n = picked.len();
        n == self.map.len() || (size >= 0 && (n as u64) == (size as u64))
    }

    /// One random draw of a random search of `size` words: the entry looked
    /// at is chosen at random (which one is not stated). The dictionary must
    /// hold an entry to draw.
    pub fn find_random_step<'a>(&'a self, size: i64, picked: &mut Vec<&'a Word>) -> (finish: bool)
        requires
            self.wf(),
            self.entries().len() > 0,
        ensures
            exists|position: int|
                0 <= position < self.entries().len() && word_views(final(picked)@) == self.picked_after(
                    word_views(old(picked)@),
                    position,
                ),
            finish == (final(picked)@.len() == self.entries().len() || final(picked)@.len() == size),
    {
        let position = crate::utils::random_below(self.map.len());
        self.find_random_pick(size, picked, position)
    }

    /// Whether a random search for `size` words goes on: a positive size is
    /// asked for and the search is not over.
    pub fn random_search_continues(size: Option<i64>, finish: bool) -> (r: bool)
        ensures
            r == (size matches Some(n) && n > 0 && !finish),
    {
        size.is_some() && size.unwrap() > 0 && !finish
    }

    /// Whether a dictionary can be made from the settings.
    pub fn accepts(args: &EnvArgs) -> (r: bool)
        ensures
            r == collection_accepts(*args),
    {
        read_flag(args, ENABLE_SCRAPER).is_some() && read_flag(args, ENABLE_REBUILD).is_some() && args.get(
            SOURCE_FILE,
        ).is_some() && args.get(REBUILD_FILE).is_some()
    }

    /// An empty dictionary configured by the settings: the two flags and the
    /// two file names.
    pub fn new(args: EnvArgs) -> (c: WordCollectionMemory)
        requires
            collection_accepts(args),
        ensures
            c.wf(),
            c.entries() == Seq::<EntryView>::empty(),
            c.header_row() == Seq::<Seq<char>>::empty(),
            Some(c.scraper_enabled()) == flag_setting(args.var(ENABLE_SCRAPER@)),
            Some(c.rebuild_enabled()) == flag_setting(args.var(ENABLE_REBUILD@)),
            Some(c.source()) == args.var(SOURCE_FILE@),
            Some(c.rebuild_target()) == args.var(REBUILD_FILE@),
    {
        let enable_scraper = read_flag(&args, ENABLE_SCRAPER).unwrap();
        let enable_rebuild = read_flag(&args, ENABLE_REBUILD).unwrap();
        let source_file = args.get(SOURCE_FILE).unwrap().clone();
        let rebuild_file = args.get(REBUILD_FILE).unwrap().clone();
        let headers: Vec<String> = Vec::new();
        assert(string_views(headers@) =~= Seq::<Seq<char>>::empty());
        WordCollectionMemory {
            headers,
            map: WordMap::new(),
            enable_scraper,
            enable_rebuild,
            source_file,
            rebuild_file,
        }
    }

    /// The name of the dictionary file read on start.
    pub fn source_file(&self) -> (r: &String)
        ensures
            r@ == self.source(),
    {
        &self.source_file
    }

    /// The name of the file the dictionary is written back to.
    pub fn rebuild_file(&self) -> (r: &String)
        ensures
            r@ == self.rebuild_target(),
    {
        &self.rebuild_file
    }

    /// The number of entries, hidden ones included.
    pub fn len(&self) -> (n: usize)
        ensures
            n == self.entries().len(),
    {
        self.map.len()
    }

    /// Adds a word (see `inserted`).
    pub fn insert(&mut self, word: Word)
        requires
            old(self).wf(),
        ensures
            final(self).wf(),
            final(self).entries() == inserted(old(self).entries(), word@),
            final(self).scraper_enabled() == old(self).scraper_enabled(),
            final(self).rebuild_enabled() == old(self).rebuild_enabled(),
            final(self).source() == old(self).source(),
            final(self).rebuild_target() == old(self).rebuild_target(),
            final(self).header_row() == old(self).header_row(),
    {
        let key = to_lowercase(word.word.as_str());
        let transliteration = transliterate(word.word.as_str());
        let unicode = to_lowercase(transliteration.as_str());
        self.insert_keyed(word, &key, &transliteration, &unicode);
    }

    /// Adds a word under `key`, indexed by `transliteration`, whose lowercase
    /// form is `unicode` (see `inserted_keyed`).
    pub fn insert_keyed(&mut self, word: Word, key: &String, transliteration: &String, unicode: &String)
        requires
            old(self).wf(),
        ensures
            final(self).wf(),
            final(self).entries() == inserted_keyed(
                old(self).entries(),
                word@,
                key@,
                transliteration@,
                unicode@,
            ),
            final(self).scraper_enabled() == old(self).scraper_enabled(),
            final(self).rebuild_enabled() == old(self).rebuild_enabled(),
            final(self).source() == old(self).source(),
            final(self).rebuild_target() == old(self).rebuild_target(),
            final(self).header_row() == old(self).header_row(),
    {
        let ghost s = self.map@;
        let ghost w = word@;
        let mut word = word;
        let key_chars = chars_of(key.as_str());
        let is_unicode = word.word == *unicode;
        proof {
            crate::word_map::lemma_lookup_at_lower_bound(s, key@);
        }
        match self.map.get(key_chars.as_slice()) {
            Some(existing) => {
                word.references = clone_strings(&existing.references);
            },
            None => {
                if !is_unicode {
                    let refs = vec![unicode.clone()];
                    assert(string_views(refs@) =~= seq![unicode@]);
                    word.references = refs;
                }
            },
        }
        let ghost w1 = word@;
        assert(w1 == WordView { references: stored_references_keyed(s, w, key@, unicode@), ..w });
        proof {
            lemma_store(s, key@, w1);
        }
        self.map.insert(key_chars, word.clone());
        if !is_unicode {
            self.insert_unicode(word, transliteration, unicode);
        }
    }

    fn insert_unicode(&mut self, word: Word, transliteration: &String, unicode: &String)
        requires
            old(self).wf(),
        ensures
            final(self).wf(),
            final(self).entries() == store(
                old(self).entries(),
                unicode@,
                match lookup(old(self).entries(), transliteration@) {
                    None => transliteration_entry(word@, transliteration@),
                    Some(x) => with_reference(x, word@.word),
                },
            ),
            final(self).scraper_enabled() == old(self).scraper_enabled(),
            final(self).rebuild_enabled() == old(self).rebuild_enabled(),
            final(self).source() == old(self).source(),
            final(self).rebuild_target() == old(self).rebuild_target(),
            final(self).header_row() == old(self).header_row(),
    {
        let unicode_key = chars_of(transliteration.as_str());
        let word_save = match self.map.get(unicode_key.as_slice()) {
            None => Self::create_unicode(&word, transliteration),
            Some(word_unicode) => Self::modify_unicode(&word, word_unicode),
        };
        let ghost s = self.map@;
        proof {
            lemma_store(s, unicode@, word_save@);
        }
        self.map.insert(chars_of(unicode.as_str()), word_save);
    }

    /// The word stored under `code`, if it is shown.
    fn visible_by_key(&self, code: &[char]) -> (r: Option<&Word>)
        requires
            self.wf(),
        ensures
            match r {
                Some(w) => visible_word(self.entries(), code@) == Some(w@),
                None => visible_word(self.entries(), code@) is None,
            },
    {
        match self.map.get(code) {
            Some(w) => if w.visible {
                Some(w)
            } else {
                None
            },
            None => None,
        }
    }

    /// The shown words that the references of `word` lead to.
    pub fn find_references(&self, word: &Word) -> (r: Vec<&Word>)
        requires
            self.wf(),
        ensures
            word_views(r@) == referenced(self.entries(), word@.references),
    {
        let ghost refs = word@.references;
        let mut filter: Vec<&Word> = Vec::new();
        for i in 0..word.references.len()
            invariant
                self.wf(),
                refs == string_views(word.references@),
                word_views(filter@) == referenced(self.entries(), refs.take(i as int)),
        {
            let lower = to_lowercase(word.references[i].as_str());
            let key = chars_of(lower.as_str());
            let ghost before = word_views(filter@);
            assert(refs.take(i + 1).drop_last() =~= refs.take(i as int));
            assert(refs.take(i + 1).last() == word.references@[i as int]@);
            match self.visible_by_key(key.as_slice()) {
                Some(w) => {
                    filter.push(w);
                    assert(word_views(filter@) =~= before + seq![w@]);
                },
                None => {
                    assert(before + Seq::<WordView>::empty() =~= before);
                },
            }
        }
        assert(refs.take(refs.len() as int) =~= refs);
        filter
    }

    /// The words found ignoring accents (see `lax_words`).
    fn lax_by_key(&self, code: &[char]) -> (r: Vec<&Word>)
        requires
            self.wf(),
        ensures
            word_views(r@) == lax_words(self.entries(), code@),
    {
        let text = crate::text::string_of(code);
        let transliteration = transliterate(text.as_str());
        self.find_lax_transliterated(&transliteration)
    }

    /// The words found through a transliteration (see `lax_words_at`).
    pub fn find_lax_transliterated(&self, transliteration: &String) -> (r: Vec<&Word>)
        requires
            self.wf(),
        ensures
            word_views(r@) == lax_words_at(self.entries(), transliteration@),
    {
        let key = chars_of(transliteration.as_str());
        let mut filter: Vec<&Word> = Vec::new();
        match self.map.get(key.as_slice()) {
            Some(word) => {
                if word.visible {
                    filter.push(word);
                }
                let ghost first = word_views(filter@);
                assert(first =~= (if word@.visible { seq![word@] } else { Seq::<WordView>::empty() }));
                let references = self.find_references(word);
                let mut i: usize = 0;
                while i < references.len()
                    invariant
                        i <= references@.len(),
                        word_views(filter@) == first + word_views(references@).take(i as int),
                    decreases references@.len() - i,
                {
                    let ghost before = word_views(filter@);
                    filter.push(references[i]);
                    assert(word_views(filter@) =~= before.push(references@[i as int]@));
                    assert(word_views(references@).take(i + 1) =~= word_views(references@).take(i as int).push(
                        references@[i as int]@,
                    ));
                    i = i + 1;
                }
                assert(word_views(references@).take(references@.len() as int) =~= word_views(references@));
            },
            None => {
                assert(word_views(filter@) =~= Seq::<WordView>::empty());
            },
        }
        filter
    }

    /// Appends the positions of the run of entries from `start` whose keys
    /// match and are not excluded.
    fn push_run(&self, start: usize, code: &[char], action: i8, excluded: &Vec<Vec<char>>, out: &mut Vec<usize>)
        requires
            self.wf(),
            start <= self.entries().len(),
            forall|j: int| 0 <= j < old(out)@.len() ==> old(out)@[j] < self.entries().len(),
        ensures
            final(out)@.map_values(|p: usize| p as int) == old(out)@.map_values(|p: usize| p as int) + run_positions(
                self.entries(),
                start as int,
                code@,
                action,
                excluded@.map_values(|v: Vec<char>| v@),
            ),
            forall|j: int| 0 <= j < final(out)@.len() ==> final(out)@[j] < self.entries().len(),
    {
        let ghost s = self.entries();
        let ghost ex = excluded@.map_values(|v: Vec<char>| v@);
        let ghost before = out@.map_values(|p: usize| p as int);
        let n = self.map.len();
        let mut i = start;
        while i < n && key_matches(self.map.key_at(i).as_slice(), code, action) && !key_listed(
            excluded,
            self.map.key_at(i).as_slice(),
        )
            invariant
                n == s.len(),
                s == self.entries(),
                ex == excluded@.map_values(|v: Vec<char>| v@),
                start <= i <= n,
                run_len(s, start as int, code@, action, ex) == (i - start) + run_len(s, i as int, code@, action, ex),
                out@.map_values(|p: usize| p as int) == before + Seq::new((i - start) as nat, |j: int| start + j),
                forall|j: int| 0 <= j < out@.len() ==> out@[j] < n,
            decreases n - i,
        {
            let ghost prev = out@.map_values(|p: usize| p as int);
            assert(matches_mode(s[i as int].0, code@, action));
            assert(!ex.contains(s[i as int].0));
            assert(run_len(s, i as int, code@, action, ex) == 1 + run_len(s, i + 1, code@, action, ex));
            out.push(i);
            assert(out@.map_values(|p: usize| p as int) =~= prev.push(i as int));
            assert(before + Seq::new((i + 1 - start) as nat, |j: int| start + j) =~= (before + Seq::new(
                (i - start) as nat,
                |j: int| start + j,
            )).push(i as int));
            i = i + 1;
        }
        assert(run_len(s, i as int, code@, action, ex) == 0);
        assert(run_positions(s, start as int, code@, action, ex) =~= Seq::new((i - start) as nat, |j: int| start + j));
    }

    /// The positions an inclusion search visits (see `includes_positions`).
    fn find_includes_condition(&self, code: &[char], lax: Option<bool>, position: Option<i8>) -> (r: Vec<usize>)
        requires
            self.wf(),
        ensures
            r@.map_values(|p: usize| p as int) == includes_positions(self.entries(), code@, lax, position),
            forall|j: int| 0 <= j < r@.len() ==> r@[j] < self.entries().len(),
    {
        let ghost s = self.entries();
        let action: i8 = match position {
            Some(a) => a,
            None => 0,
        };
        let mut word_range: Vec<usize> = Vec::new();
        let no_keys: Vec<Vec<char>> = Vec::new();
        assert(no_keys@.map_values(|v: Vec<char>| v@) =~= Seq::<Seq<char>>::empty());
        let start = self.map.lower_bound(code);
        self.push_run(start, code, action, &no_keys, &mut word_range);
        assert(word_range@.map_values(|p: usize| p as int) =~= Seq::<int>::empty() + run_positions(
            s,
            start as int,
            code@,
            action,
            Seq::<Seq<char>>::empty(),
        ));
        if lax == Some(true) {
            let ghost first = word_range@.map_values(|p: usize| p as int);
            let mut taken: Vec<Vec<char>> = Vec::new();
            for i in 0..word_range.len()
                invariant
                    s == self.entries(),
                    first == word_range@.map_values(|p: usize| p as int),
                    forall|j: int| 0 <= j < word_range@.len() ==> word_range@[j] < s.len(),
                    taken@.map_values(|v: Vec<char>| v@) == keys_at(s, first.take(i as int)),
            {
                let k = self.map.key_at(word_range[i]).clone();
                let ghost prev = taken@.map_values(|v: Vec<char>| v@);
                taken.push(k);
                assert(taken@.map_values(|v: Vec<char>| v@) =~= prev.push(s[first[i as int]].0));
                assert(keys_at(s, first.take(i + 1)) =~= keys_at(s, first.take(i as int)).push(s[first[i as int]].0));
            }
            assert(first.take(first.len() as int) =~= first);
            let text = crate::text::string_of(code);
            let transliteration = transliterate(text.as_str());
            let code_unicode = chars_of(transliteration.as_str());
            let start2 = self.map.lower_bound(code_unicode.as_slice());
            self.push_run(start2, code_unicode.as_slice(), action, &taken, &mut word_range);
        }
        word_range
    }

    /// Inclusion search on a key given by its characters.
    fn includes_by_key(&self, code: &[char], position: Option<i8>, lax: Option<bool>, size: Option<i64>) -> (r: Vec<&Word>)
        requires
            self.wf(),
        ensures
            word_views(r@) == includes_words(self.entries(), code@, position, lax, size),
    {
        let ghost s = self.entries();
        let word_range = self.find_includes_condition(code, lax, position);
        let ghost positions = word_range@.map_values(|p: usize| p as int);
        let ghost is_lax = lax == Some(true);
        let ghost all = candidates(s, positions, is_lax);
        let mut filter: Vec<&Word> = Vec::new();
        let ghost mut seen: Seq<WordView> = Seq::empty();
        for i in 0..word_range.len()
            invariant
                s == self.entries(),
                self.wf(),
                positions == word_range@.map_values(|p: usize| p as int),
                forall|j: int| 0 <= j < word_range@.len() ==> word_range@[j] < s.len(),
                is_lax == (lax == Some(true)),
                all == candidates(s, positions, is_lax),
                positions == includes_positions(s, code@, lax, position),
                seen == candidates(s, positions.take(i as int), is_lax),
                gather(seen, size) == (word_views(filter@), false),
        {
            let key = self.map.key_at(word_range[i]);
            let words: Vec<&Word> = if lax.is_none() || (lax.is_some() && !lax.unwrap()) {
                match self.visible_by_key(key.as_slice()) {
                    Some(w) => vec![w],
                    None => Vec::new(),
                }
            } else {
                self.lax_by_key(key.as_slice())
            };
            assert(word_views(words@) == candidate_words(s, s[positions[i as int]].0, is_lax));
            let ghost seen0 = seen;
            for j in 0..words.len()
                invariant
                    s == self.entries(),
                    seen0 == candidates(s, positions.take(i as int), is_lax),
                    i < word_range@.len(),
                    positions.len() == word_range@.len(),
                    word_views(words@) == candidate_words(s, s[positions[i as int]].0, is_lax),
                    seen == seen0 + word_views(words@).take(j as int),
                    gather(seen, size) == (word_views(filter@), false),
                    all == candidates(s, positions, is_lax),
                    positions == includes_positions(s, code@, lax, position),
                    is_lax == (lax == Some(true)),
            {
                let w = words[j];
                assert(word_views(words@)[j as int] == w@);
                add_distinct(&mut filter, w);
                let stop = match size {
                    Some(n) => n <= 0 || (filter.len() as u64) >= (n as u64),
                    None => false,
                };
                proof {
                    let next = seen.push(w@);
                    assert(next.drop_last() =~= seen);
                    assert(next.last() == w@);
                    assert(word_views(words@).take(j + 1) =~= word_views(words@).take(j as int).push(w@));
                    assert(stop == (size matches Some(n) && word_views(filter@).len() >= n));
                    assert(gather(next, size) == (word_views(filter@), stop));
                    seen = next;
                }
                if stop {
                    proof {
                        lemma_stop_early(s, positions, i as int, word_views(words@), j as int, is_lax, size);
                    }
                    return filter;
                }
            }
            assert(word_views(words@).take(words@.len() as int) =~= word_views(words@));
            assert(positions.take(i + 1).drop_last() =~= positions.take(i as int));
        }
        assert(positions.take(positions.len() as int) =~= positions);
        filter
    }

    /// The words a code finds without an inclusion mode (see `basic_words`).
    fn find_permute_basic(&self, code: &[char], lax: Option<bool>) -> (r: Vec<Word>)
        requires
            self.wf(),
        ensures
            owned_views(r@) == basic_words(self.entries(), code@, lax),
    {
        if lax.is_some() {
            let words = self.lax_by_key(code);
            return clone_words(&words);
        }
        let mut code_vector: Vec<Word> = Vec::new();
        match self.visible_by_key(code) {
            Some(w) => {
                code_vector.push(w.clone());
                assert(owned_views(code_vector@) =~= seq![w@]);
            },
            None => {
                assert(owned_views(code_vector@) =~= Seq::<WordView>::empty());
            },
        }
        code_vector
    }

    /// The words an inclusion search for a code finds, limited by the budget.
    fn find_permute_includes(&self, code: &[char], lax: Option<bool>, size: Option<i64>, includes: Option<i8>) -> (r: Vec<Word>)
        requires
            self.wf(),
        ensures
            owned_views(r@) == includes_words(self.entries(), code@, includes, lax, size),
    {
        let words = self.includes_by_key(code, includes, lax, size);
        clone_words(&words)
    }

    /// The stand-in for a code that is no known word.
    fn find_permute_unrecognized(code: &[char]) -> (w: Word)
        ensures
            w@ == unrecognized_word(code@),
    {
        let mut new_word = Word::empty();
        new_word.word = crate::text::string_of(code);
        new_word.category = String::from_str(PERMUTATION_CATEGORY);
        new_word
    }

    /// Searches the arrangements of the letters of a combination (see
    /// `permute_words`).
    pub fn find_permute(
        &self,
        combo: &String,
        min: Option<i8>,
        exists: Option<bool>,
        lax: Option<bool>,
        includes: Option<i8>,
        size: Option<i64>,
    ) -> (r: Vec<Word>)
        requires
            self.wf(),
        ensures
            owned_views(r@) == permute_words(self.entries(), combo@, min, exists, lax, includes, size),
    {
        let ghost s = self.entries();
        let permute = PermuteCombo::new(combo.clone());
        let all = permute.permute();
        let codes = Self::codes_with_min(&all, min);
        let ghost cs = permutation_codes(combo@, min);
        let mut word_vector: Vec<Word> = Vec::new();
        let mut size_copy = size;
        let ghost mut budget = budget_of(size);
        for i in 0..codes.len()
            invariant
                self.wf(),
                s == self.entries(),
                crate::text::string_views(codes@) == cs,
                cs == permutation_codes(combo@, min),
                permute_fold(s, cs.take(i as int), lax, includes, exists, size) == (owned_views(word_vector@), budget, false),
                budget matches Some(x) ==> i64::MIN <= x <= i64::MAX,
                size_copy == size_of(budget),
        {
            let code = crate::text::chars_of(codes[i].as_str());
            assert(code@ == cs[i as int]);
            let found = if includes.is_none() {
                self.find_permute_basic(code.as_slice(), lax)
            } else {
                self.find_permute_includes(code.as_slice(), lax, size_copy, includes)
            };
            let ghost (step_words, step_budget) = code_step(s, code@, lax, includes, exists, budget);
            size_copy = spend_size(size_copy, found.len());
            let ghost before = owned_views(word_vector@);
            if exists.is_some() && !exists.unwrap() && found.len() == 0 {
                let w = Self::find_permute_unrecognized(code.as_slice());
                word_vector.push(w);
                size_copy = spend_size(size_copy, 1);
                assert(owned_views(word_vector@) =~= before + step_words);
            } else {
                let mut found = found;
                let ghost fv = owned_views(found@);
                word_vector.append(&mut found);
                assert(owned_views(word_vector@) =~= before + fv);
            }
            proof {
                assert(cs.take(i + 1).drop_last() =~= cs.take(i as int));
                assert(cs.take(i + 1).last() == code@);
                budget = step_budget;
            }
            let stop = match size_copy {
                Some(x) => x <= 0,
                None => false,
            };
            assert(stop == (budget matches Some(x) && x <= 0));
            assert(permute_fold(s, cs.take(i + 1), lax, includes, exists, size) == (
                owned_views(word_vector@),
                budget,
                stop,
            ));
            if stop {
                proof {
                    lemma_permute_fold_stopped(s, cs.take(i + 1), cs.skip(i + 1), lax, includes, exists, size);
                    assert(cs.take(i + 1) + cs.skip(i + 1) =~= cs);
                }
                return word_vector;
            }
        }
        assert(cs.take(cs.len() as int) =~= cs);
        word_vector
    }

    /// The arrangements with at least `min` letters, or all without a
    /// minimum.
    fn codes_with_min(all: &Vec<String>, min: Option<i8>) -> (r: Vec<String>)
        ensures
            crate::text::string_views(r@) == codes_at_least(crate::text::string_views(all@), min),
    {
        let ghost views = crate::text::string_views(all@);
        let mut r: Vec<String> = Vec::new();
        for i in 0..all.len()
            invariant
                views == crate::text::string_views(all@),
                crate::text::string_views(r@) == codes_at_least(views.take(i as int), min),
        {
            let ghost before = crate::text::string_views(r@);
            assert(views.take(i + 1).drop_last() =~= views.take(i as int));
            assert(views.take(i + 1).last() == all@[i as int]@);
            let keep = match min {
                Some(m) => {
                    let n = crate::text::chars_of(all[i].as_str()).len();
                    m < 0 || (n as u64) >= (m as u64)
                },
                None => true,
            };
            if keep {
                let c = all[i].clone();
                r.push(c);
                assert(crate::text::string_views(r@) =~= before.push(c@));
            }
        }
        assert(views.take(views.len() as int) =~= views);
        r
    }

    /// The word stored under `code`, if it is shown.
    pub fn find_visible(&self, code: &String) -> (r: Option<&Word>)
        requires
            self.wf(),
        ensures
            match r {
                Some(w) => visible_word(self.entries(), code@) == Some(w@),
                None => visible_word(self.entries(), code@) is None,
            },
    {
        let key = chars_of(code.as_str());
        self.visible_by_key(key.as_slice())
    }

    /// The words found ignoring accents (see `lax_words`).
    pub fn find_lax(&self, code: &String) -> (r: Vec<&Word>)
        requires
            self.wf(),
        ensures
            word_views(r@) == lax_words(self.entries(), code@),
    {
        let key = chars_of(code.as_str());
        self.lax_by_key(key.as_slice())
    }

    /// The words whose keys start with (`position` `-1`), end with (`1`) or
    /// contain (otherwise) `code` (see `includes_words`).
    pub fn find_includes(&self, code: &String, position: Option<i8>, lax: Option<bool>, size: Option<i64>) -> (r: Vec<&Word>)
        requires
            self.wf(),
        ensures
            word_views(r@) == includes_words(self.entries(), code@, position, lax, size),
    {
        let key = chars_of(code.as_str());
        self.includes_by_key(key.as_slice(), position, lax, size)
    }

    /// Whether a lookup of `code` should first fetch its meanings: the
    /// scraper is on and the word under `code` has none.
    pub open spec fn scrape_wanted(&self, code: Seq<char>) -> bool {
        &&& self.scraper_enabled()
        &&& lookup(self.entries(), code) matches Some(w)
        &&& w.meaning.len() == 0
    }

    /// Whether a lookup of `code` should first fetch its meanings.
    pub fn wants_scrape(&self, code: &String) -> (r: bool)
        requires
            self.wf(),
        ensures
            r == self.scrape_wanted(code@),
    {
        let key = chars_of(code.as_str());
        match self.map.get(key.as_slice()) {
            Some(w) => self.enable_scraper && w.meaning.len() == 0,
            None => false,
        }
    }

    /// Gives the word under `code` the meanings fetched for it, when a
    /// lookup wanted them; tells whether it did.
    pub fn scraper(&mut self, code: &String, descriptions: Vec<String>) -> (r: bool)
        requires
            old(self).wf(),
        ensures
            final(self).wf(),
            r == old(self).scrape_wanted(code@),
            r ==> final(self).entries() == inserted(
                old(self).entries(),
                WordView { meaning: string_views(descriptions@), ..lookup(old(self).entries(), code@).unwrap() },
            ),
            !r ==> final(self).entries() == old(self).entries(),
            final(self).scraper_enabled() == old(self).scraper_enabled(),
            final(self).rebuild_enabled() == old(self).rebuild_enabled(),
            final(self).source() == old(self).source(),
            final(self).rebuild_target() == old(self).rebuild_target(),
            final(self).header_row() == old(self).header_row(),
    {
        let key = chars_of(code.as_str());
        let new_word = match self.map.get(key.as_slice()) {
            Some(word) => {
                if self.enable_scraper && word.meaning.len() == 0 {
                    let mut new_word = word.clone();
                    new_word.meaning = descriptions;
                    Some(new_word)
                } else {
                    None
                }
            },
            None => None,
        };
        match new_word {
            Some(w) => {
                self.insert(w);
                true
            },
            None => false,
        }
    }

    fn modify_unicode(word: &Word, word_unicode: &Word) -> (w: Word)
        ensures
            w@ == with_reference(word_unicode@, word@.word),
    {
        let mut word_save = word_unicode.clone();
        let mut unicode_mix = clone_strings(&word_save.references);
        let mut contains_unicode = false;
        let mut i: usize = 0;
        while i < unicode_mix.len()
            invariant
                string_views(unicode_mix@) == word_unicode@.references,
                i <= unicode_mix@.len(),
                contains_unicode == (exists|j: int| 0 <= j < i && unicode_mix@[j]@ == word@.word),
            decreases unicode_mix@.len() - i,
        {
            if unicode_mix[i] == word.word {
                contains_unicode = true;
            }
            assert(string_views(unicode_mix@)[i as int] == unicode_mix@[i as int]@);
            i = i + 1;
        }
        assert(contains_unicode == word_unicode@.references.contains(word@.word)) by {
            if word_unicode@.references.contains(word@.word) {
                let j = choose|j: int| 0 <= j < word_unicode@.references.len() && word_unicode@.references[j] == word@.word;
                assert(string_views(unicode_mix@)[j] == unicode_mix@[j]@);
            }
            if contains_unicode {
                let j = choose|j: int| 0 <= j < i && unicode_mix@[j]@ == word@.word;
                assert(string_views(unicode_mix@)[j] == unicode_mix@[j]@);
            }
        }
        if !contains_unicode {
            let ghost before = string_views(unicode_mix@);
            let added = word.word.clone();
            unicode_mix.push(added);
            assert(string_views(unicode_mix@) =~= before.push(word@.word));
        }
        word_save.references = unicode_mix;
        word_save
    }

    fn create_unicode(word: &Word, unicode: &String) -> (w: Word)
        ensures
            w@ == transliteration_entry(word@, unicode@),
    {
        let mut word_save = word.clone();
        word_save.word = unicode.clone();
        word_save.visible = false;
        let refs = vec![word.word.clone()];
        assert(string_views(refs@) =~= seq![word@.word]);
        word_save.references = refs;
        word_save
    }
}

/// The lookups a dictionary offers.
pub trait WordCollection {
    /// The dictionary is in a usable state.
    spec fn ready(&self) -> bool;

    /// The shown word under a key. (Fetching missing meanings first is a
    /// separate step: `wants_scrape`, then `scraper`.)
    fn find(&mut self, code: &String) -> Option<&Word>
        requires
            old(self).ready(),
    ;

    /// The words found ignoring accents.
    fn find_lax(&self, code: &String) -> Vec<&Word>
        requires
            self.ready(),
    ;

    /// The words whose keys start with, end with or contain a code.
    fn find_includes(&self, code: &String, position: Option<i8>, lax: Option<bool>, size: Option<i64>) -> Vec<&Word>
        requires
            self.ready(),
    ;

    /// The words found for the arrangements of a combination.
    fn find_permute(
        &mut self,
        combo: &String,
        min: Option<i8>,
        exists: Option<bool>,
        lax: Option<bool>,
        includes: Option<i8>,
        size: Option<i64>,
    ) -> Vec<Word>
        requires
            old(self).ready(),
    ;
}

impl WordCollection for WordCollectionMemory {
    open spec fn ready(&self) -> bool {
        self.wf()
    }

    fn find(&mut self, code: &String) -> (r: Option<&Word>)
        ensures
            match r {
                Some(w) => visible_word(old(self).entries(), code@) == Some(w@),
                None => visible_word(old(self).entries(), code@) is None,
            },
    {
        self.find_visible(code)
    }

    fn find_lax(&self, code: &String) -> (r: Vec<&Word>)
        ensures
            word_views(r@) == lax_words(self.entries(), code@),
    {
        WordCollectionMemory::find_lax(self, code)
    }

    fn find_includes(&self, code: &String, position: Option<i8>, lax: Option<bool>, size: Option<i64>) -> (r: Vec<&Word>)
        ensures
            word_views(r@) == includes_words(self.entries(), code@, position, lax, size),
    {
        WordCollectionMemory::find_includes(self, code, position, lax, size)
    }

    fn find_permute(
        &mut self,
        combo: &String,
        min: Option<i8>,
        exists: Option<bool>,
        lax: Option<bool>,
        includes: Option<i8>,
        size: Option<i64>,
    ) -> (r: Vec<Word>)
        ensures
            owned_views(r@) == permute_words(old(self).entries(), combo@, min, exists, lax, includes, size),
    {
        WordCollectionMemory::find_permute(self, combo, min, exists, lax, includes, size)
    }
}

} // verus!
