//! What the searches of the dictionary return, whatever the words: the keys
//! their words come from, and how many words a size lets through.
use vstd::prelude::*;

use crate::collection::{
    has_word, codes_at_least, lax_words, referenced,
    code_step, permute_fold, permute_words, permutation_codes, size_of, basic_words,
    candidate_words, candidates, gather, includes_positions, includes_words, mode_of, run_len, run_positions,
    visible_word,
};
use crate::permute::{arrangements, is_arrangement_of, lemma_permute_arrangements, lemma_permute_complete};
use crate::text::{is_infix, is_prefix, is_suffix, lowercased};
use crate::collection_laws::{lemma_includes_distinct, lemma_prefix_search_complete};
use crate::word::WordView;
use crate::word_map::{keys_sorted, lemma_lookup_at_lower_bound, lookup, lower_bound, EntryView};

verus! {

proof fn lemma_gather_from(cands: Seq<WordView>, size: Option<i64>)
    ensures
        forall|i: int| 0 <= i < gather(cands, size).0.len() ==> cands.contains(#[trigger] gather(cands, size).0[i]),
    decreases cands.len(),
{
    if cands.len() > 0 {
        let init = cands.drop_last();
        lemma_gather_from(init, size);
        let acc = gather(init, size).0;
        let r = gather(cands, size).0;
        assert forall|i: int| 0 <= i < r.len() implies cands.contains(#[trigger] r[i]) by {
            if i < acc.len() {
                assert(r[i] == acc[i]);
                let k = choose|k: int| 0 <= k < init.len() && init[k] == acc[i];
                assert(cands[k] == init[k]);
            } else {
                assert(r[i] == cands.last());
                assert(cands[cands.len() - 1] == cands.last());
            }
        }
    }
}

proof fn lemma_candidates_shown(s: Seq<EntryView>, positions: Seq<int>, w: WordView)
    requires
        candidates(s, positions, false).contains(w),
    ensures
        exists|k: int| 0 <= k < positions.len() && visible_word(s, s[#[trigger] positions[k]].0) == Some(w),
    decreases positions.len(),
{
    let init = positions.drop_last();
    let a = candidates(s, init, false);
    let b = candidate_words(s, s[positions.last()].0, false);
    assert(candidates(s, positions, false) == a + b);
    let i = choose|i: int| 0 <= i < (a + b).len() && (a + b)[i] == w;
    if i < a.len() {
        assert(a[i] == w);
        lemma_candidates_shown(s, init, w);
        let k = choose|k: int| 0 <= k < init.len() && visible_word(s, s[#[trigger] init[k]].0) == Some(w);
        assert(positions[k] == init[k]);
    } else {
        assert(positions[positions.len() - 1] == positions.last());
    }
}

proof fn lemma_run_matches(
    s: Seq<EntryView>,
    start: int,
    code: Seq<char>,
    action: i8,
    excluded: Seq<Seq<char>>,
    j: int,
)
    requires
        0 <= j < run_len(s, start, code, action, excluded),
    ensures
        0 <= start + j < s.len(),
        crate::collection::matches_mode(s[start + j].0, code, action),
    decreases j,
{
    if j > 0 {
        lemma_run_matches(s, start + 1, code, action, excluded, j - 1);
    }
}

/// Every word a search by part of a key returns (without ignoring accents)
/// is a shown word stored under a key that starts with the code, for the
/// position `-1`; that ends with it, for the position `1`; that contains it,
/// for any other position or none.
pub proof fn lemma_includes_keys_match(
    s: Seq<EntryView>,
    code: Seq<char>,
    position: Option<i8>,
    lax: Option<bool>,
    size: Option<i64>,
    i: int,
)
    requires
        lax != Some(true),
        0 <= i < includes_words(s, code, position, lax, size).len(),
    ensures
        exists|j: int|
            0 <= j < s.len() && #[trigger] s[j].1 == includes_words(s, code, position, lax, size)[i]
                && s[j].1.visible && (position == Some(-1i8) ==> is_prefix(code, s[j].0)) && (position
                == Some(1i8) ==> is_suffix(code, s[j].0)) && (position != Some(-1i8) && position != Some(1i8)
                ==> is_infix(code, s[j].0)),
{
    let positions = includes_positions(s, code, lax, position);
    let cands = candidates(s, positions, false);
    let w = includes_words(s, code, position, lax, size)[i];
    lemma_gather_from(cands, size);
    assert(cands.contains(w));
    lemma_candidates_shown(s, positions, w);
    let k = choose|k: int| 0 <= k < positions.len() && visible_word(s, s[#[trigger] positions[k]].0) == Some(w);
    let start = lower_bound(s, code);
    let action = mode_of(position);
    lemma_run_matches(s, start, code, action, Seq::<Seq<char>>::empty(), k);
    assert(positions[k] == start + k);
    let key = s[start + k].0;
    assert(lookup(s, key) == Some(w));
    assert(crate::word_map::has_key(s, key));
    assert(lookup(s, key) == Some(w));
}

proof fn lemma_permute_fold_bounded(
    s: Seq<EntryView>,
    codes: Seq<Seq<char>>,
    exists: Option<bool>,
    lax: Option<bool>,
    includes: Option<i8>,
    n: i64,
)
    requires
        n >= 1,
        includes is Some || lax is None,
    ensures
        permute_fold(s, codes, lax, includes, exists, Some(n)).0.len() <= n,
        permute_fold(s, codes, lax, includes, exists, Some(n)).1 == Some(
            n - permute_fold(s, codes, lax, includes, exists, Some(n)).0.len(),
        ),
        permute_fold(s, codes, lax, includes, exists, Some(n)).2 <==> permute_fold(
            s,
            codes,
            lax,
            includes,
            exists,
            Some(n),
        ).0.len() == n,
    decreases codes.len(),
{
    if codes.len() > 0 {
        let rest = codes.drop_last();
        lemma_permute_fold_bounded(s, rest, exists, lax, includes, n);
        let (acc, b, done) = permute_fold(s, rest, lax, includes, exists, Some(n));
        if !done {
            let x = n - acc.len();
            let code = codes.last();
            let found = match includes {
                None => basic_words(s, code, lax),
                Some(p) => includes_words(s, code, Some(p), lax, size_of(b)),
            };
            match includes {
                None => {},
                Some(p) => {
                    assert(size_of(b) == Some(x as i64));
                    lemma_includes_distinct(s, code, Some(p), lax, Some(x as i64));
                },
            }
            assert(found.len() <= x);
        }
    }
}

/// A permutation search with a size of `n`, at least one, returns at most
/// `n` words, when each code's lookup is limited by what is left of the
/// size: with an inclusion mode, or without ignoring accents.
pub proof fn lemma_permute_size_bound(
    s: Seq<EntryView>,
    combo: Seq<char>,
    min: Option<i8>,
    exists: Option<bool>,
    lax: Option<bool>,
    includes: Option<i8>,
    n: i64,
)
    requires
        n >= 1,
        includes is Some || lax is None,
    ensures
        permute_words(s, combo, min, exists, lax, includes, Some(n)).len() <= n,
{
    lemma_permute_fold_bounded(s, permutation_codes(combo, min), exists, lax, includes, n);
}

/// `w` is a shown word of the entries.
pub open spec fn stored_shown(s: Seq<EntryView>, w: WordView) -> bool {
    w.visible && exists|j: int| 0 <= j < s.len() && #[trigger] s[j].1 == w
}

proof fn lemma_visible_stored(s: Seq<EntryView>, k: Seq<char>, w: WordView)
    requires
        visible_word(s, k) == Some(w),
    ensures
        stored_shown(s, w),
{
    assert(crate::word_map::has_key(s, k));
    assert(lookup(s, k) == Some(w));
}

proof fn lemma_referenced_stored(s: Seq<EntryView>, refs: Seq<Seq<char>>)
    ensures
        forall|i: int| 0 <= i < referenced(s, refs).len() ==> stored_shown(s, #[trigger] referenced(s, refs)[i]),
    decreases refs.len(),
{
    if refs.len() > 0 {
        let init = refs.drop_last();
        lemma_referenced_stored(s, init);
        let a = referenced(s, init);
        let r = referenced(s, refs);
        let k = lowercased(refs.last());
        if let Some(w) = visible_word(s, k) {
            lemma_visible_stored(s, k, w);
        }
        assert forall|i: int| 0 <= i < r.len() implies stored_shown(s, #[trigger] r[i]) by {
            if i < a.len() {
                assert(r[i] == a[i]);
            }
        }
    }
}

/// Every word a lookup that ignores accents finds is a shown word of the
/// dictionary.
pub proof fn lemma_lax_words_shown(s: Seq<EntryView>, code: Seq<char>)
    ensures
        forall|i: int| 0 <= i < lax_words(s, code).len() ==> stored_shown(s, #[trigger] lax_words(s, code)[i]),
{
    let tr = crate::text::unidecoded(code);
    let r = lax_words(s, code);
    if let Some(w) = lookup(s, tr) {
        lemma_referenced_stored(s, w.references);
        let head = if w.visible { seq![w] } else { Seq::<WordView>::empty() };
        let refs = referenced(s, w.references);
        assert(r == head + refs);
        if w.visible {
            assert(visible_word(s, tr) == Some(w));
            lemma_visible_stored(s, tr, w);
        }
        assert forall|i: int| 0 <= i < r.len() implies stored_shown(s, #[trigger] r[i]) by {
            if i < head.len() {
                assert(r[i] == w);
            } else {
                assert(r[i] == refs[i - head.len()]);
            }
        }
    }
}

proof fn lemma_candidates_stored(s: Seq<EntryView>, positions: Seq<int>, lax: bool)
    ensures
        forall|i: int| 0 <= i < candidates(s, positions, lax).len() ==> stored_shown(s, #[trigger] candidates(s, positions, lax)[i]),
    decreases positions.len(),
{
    if positions.len() > 0 {
        let init = positions.drop_last();
        lemma_candidates_stored(s, init, lax);
        let a = candidates(s, init, lax);
        let k = s[positions.last()].0;
        let b = candidate_words(s, k, lax);
        let r = candidates(s, positions, lax);
        assert(r == a + b);
        if lax {
            lemma_lax_words_shown(s, k);
        } else if let Some(w) = visible_word(s, k) {
            lemma_visible_stored(s, k, w);
        }
        assert forall|i: int| 0 <= i < r.len() implies stored_shown(s, #[trigger] r[i]) by {
            if i < a.len() {
                assert(r[i] == a[i]);
            } else {
                assert(r[i] == b[i - a.len()]);
            }
        }
    }
}

/// Every word a search by part of a key returns is a shown word of the
/// dictionary, whether or not it ignores accents.
pub proof fn lemma_includes_words_shown(
    s: Seq<EntryView>,
    code: Seq<char>,
    position: Option<i8>,
    lax: Option<bool>,
    size: Option<i64>,
)
    ensures
        forall|i: int| 0 <= i < includes_words(s, code, position, lax, size).len() ==> stored_shown(
            s,
            #[trigger] includes_words(s, code, position, lax, size)[i],
        ),
{
    let cands = candidates(s, includes_positions(s, code, lax, position), lax == Some(true));
    lemma_candidates_stored(s, includes_positions(s, code, lax, position), lax == Some(true));
    lemma_gather_from(cands, size);
    let r = includes_words(s, code, position, lax, size);
    assert forall|i: int| 0 <= i < r.len() implies stored_shown(s, #[trigger] r[i]) by {
        assert(cands.contains(r[i]));
    }
}

/// `w` is what a permutation search may return for a combination: a shown
/// word of the dictionary or, when unknown codes are wanted, a stand-in for
/// one, spelled with letters of the combination, of the permutation
/// category and without meanings.
pub open spec fn permutation_result(s: Seq<EntryView>, combo: Seq<char>, exists: Option<bool>, w: WordView) -> bool {
    ||| stored_shown(s, w)
    ||| {
        &&& exists == Some(false)
        &&& w.category == "rust-dictionary-permutation"@
        &&& w.meaning.len() == 0
        &&& is_arrangement_of(w.word, combo)
    }
}

proof fn lemma_codes_at_least_from(codes: Seq<Seq<char>>, min: Option<i8>)
    ensures
        forall|i: int| 0 <= i < codes_at_least(codes, min).len() ==> codes.contains(#[trigger] codes_at_least(codes, min)[i]),
    decreases codes.len(),
{
    if codes.len() > 0 {
        let init = codes.drop_last();
        lemma_codes_at_least_from(init, min);
        let a = codes_at_least(init, min);
        let r = codes_at_least(codes, min);
        assert forall|i: int| 0 <= i < r.len() implies codes.contains(#[trigger] r[i]) by {
            if i < a.len() {
                assert(r[i] == a[i]);
                let k = choose|k: int| 0 <= k < init.len() && init[k] == a[i];
                assert(codes[k] == init[k]);
            } else {
                assert(r[i] == codes.last());
                assert(codes[codes.len() - 1] == codes.last());
            }
        }
    }
}

proof fn lemma_permute_fold_words(
    s: Seq<EntryView>,
    combo: Seq<char>,
    codes: Seq<Seq<char>>,
    lax: Option<bool>,
    includes: Option<i8>,
    exists: Option<bool>,
    size: Option<i64>,
)
    requires
        forall|k: int| 0 <= k < codes.len() ==> is_arrangement_of(#[trigger] codes[k], combo),
    ensures
        forall|i: int| 0 <= i < permute_fold(s, codes, lax, includes, exists, size).0.len() ==> permutation_result(
            s,
            combo,
            exists,
            #[trigger] permute_fold(s, codes, lax, includes, exists, size).0[i],
        ),
    decreases codes.len(),
{
    if codes.len() > 0 {
        let init = codes.drop_last();
        assert forall|k: int| 0 <= k < init.len() implies is_arrangement_of(#[trigger] init[k], combo) by {
            assert(init[k] == codes[k]);
        }
        lemma_permute_fold_words(s, combo, init, lax, includes, exists, size);
        let (acc, b, done) = permute_fold(s, init, lax, includes, exists, size);
        let r = permute_fold(s, codes, lax, includes, exists, size).0;
        if !done {
            let code = codes.last();
            assert(is_arrangement_of(codes[codes.len() - 1], combo));
            let found = match includes {
                None => basic_words(s, code, lax),
                Some(p) => includes_words(s, code, Some(p), lax, size_of(b)),
            };
            let (words, b2) = code_step(s, code, lax, includes, exists, b);
            assert(r == acc + words);
            match includes {
                None => {
                    if lax is Some {
                        lemma_lax_words_shown(s, code);
                    } else if let Some(w) = visible_word(s, code) {
                        lemma_visible_stored(s, code, w);
                    }
                },
                Some(p) => {
                    lemma_includes_words_shown(s, code, Some(p), lax, size_of(b));
                },
            }
            assert forall|i: int| 0 <= i < r.len() implies permutation_result(s, combo, exists, #[trigger] r[i]) by {
                if i < acc.len() {
                    assert(r[i] == acc[i]);
                } else {
                    assert(r[i] == words[i - acc.len()]);
                    if !(exists == Some(false) && found.len() == 0) {
                        assert(words == found);
                        assert(stored_shown(s, found[i - acc.len()]));
                    }
                }
            }
        }
    }
}

/// Every word a permutation search returns is a shown word of the
/// dictionary or, when unknown codes are wanted, a stand-in spelled with
/// letters of the combination, of the permutation category, without
/// meanings.
pub proof fn lemma_permute_words_found(
    s: Seq<EntryView>,
    combo: Seq<char>,
    min: Option<i8>,
    exists: Option<bool>,
    lax: Option<bool>,
    includes: Option<i8>,
    size: Option<i64>,
)
    ensures
        forall|i: int| 0 <= i < permute_words(s, combo, min, exists, lax, includes, size).len() ==> permutation_result(
            s,
            combo,
            exists,
            #[trigger] permute_words(s, combo, min, exists, lax, includes, size)[i],
        ),
{
    let all = arrangements(combo);
    let codes = permutation_codes(combo, min);
    lemma_permute_arrangements(combo);
    lemma_codes_at_least_from(all, min);
    assert forall|k: int| 0 <= k < codes.len() implies is_arrangement_of(#[trigger] codes[k], combo) by {
        assert(all.contains(codes[k]));
        let j = choose|j: int| 0 <= j < all.len() && all[j] == codes[k];
        assert(is_arrangement_of(all[j], combo));
    }
    lemma_permute_fold_words(s, combo, codes, lax, includes, exists, size);
}

proof fn lemma_lookup_entry(s: Seq<EntryView>, j: int)
    requires
        keys_sorted(s),
        0 <= j < s.len(),
    ensures
        lookup(s, s[j].0) == Some(s[j].1),
{
    let k = s[j].0;
    assert(crate::word_map::has_key(s, k));
    lemma_lookup_at_lower_bound(s, k);
    let lb = lower_bound(s, k);
    if lb < j {
        assert(crate::text::key_less(s[lb].0, s[j].0));
        crate::text::lemma_key_less_irreflexive(k);
    } else if lb > j {
        assert(crate::text::key_less(s[j].0, s[lb].0));
        crate::text::lemma_key_less_irreflexive(k);
    }
}

proof fn lemma_candidates_hold(s: Seq<EntryView>, positions: Seq<int>, m: int, w: WordView)
    requires
        0 <= m < positions.len(),
        visible_word(s, s[positions[m]].0) == Some(w),
    ensures
        candidates(s, positions, false).contains(w),
    decreases positions.len(),
{
    let init = positions.drop_last();
    let a = candidates(s, init, false);
    let b = candidate_words(s, s[positions.last()].0, false);
    let r = candidates(s, positions, false);
    assert(r == a + b);
    if m == positions.len() - 1 {
        assert(b == seq![w]);
        assert(r[a.len() as int] == w);
    } else {
        assert(init[m] == positions[m]);
        lemma_candidates_hold(s, init, m, w);
        let i = choose|i: int| 0 <= i < a.len() && a[i] == w;
        assert(r[i] == w);
    }
}

proof fn lemma_gather_unlimited_keeps(cands: Seq<WordView>)
    ensures
        forall|i: int| 0 <= i < cands.len() ==> has_word(gather(cands, None).0, (#[trigger] cands[i]).word),
    decreases cands.len(),
{
    if cands.len() > 0 {
        let init = cands.drop_last();
        lemma_gather_unlimited_keeps(init);
        lemma_gather_never_stops(init);
        let acc = gather(init, None).0;
        let r = gather(cands, None).0;
        let w = cands.last();
        assert(has_word(r, w.word)) by {
            if !has_word(acc, w.word) {
                assert(r[acc.len() as int] == w);
            }
        }
        assert forall|i: int| 0 <= i < cands.len() implies has_word(r, (#[trigger] cands[i]).word) by {
            if i < init.len() {
                assert(init[i] == cands[i]);
                assert(has_word(acc, init[i].word));
                let k = choose|k: int| 0 <= k < acc.len() && acc[k].word == init[i].word;
                assert(r[k] == acc[k]);
            } else {
                assert(cands[i] == w);
            }
        }
    }
}

proof fn lemma_gather_never_stops(cands: Seq<WordView>)
    ensures
        !gather(cands, None).1,
    decreases cands.len(),
{
    if cands.len() > 0 {
        lemma_gather_never_stops(cands.drop_last());
    }
}

/// A search without a size for keys that start with the code (without
/// ignoring accents) misses no shown word: every shown word stored under a
/// key that starts with the code has its spelling among the results.
pub proof fn lemma_prefix_search_finds_all(s: Seq<EntryView>, code: Seq<char>, lax: Option<bool>, j: int)
    requires
        keys_sorted(s),
        lax != Some(true),
        0 <= j < s.len(),
        s[j].1.visible,
        is_prefix(code, s[j].0),
    ensures
        has_word(includes_words(s, code, Some(-1i8), lax, None), s[j].1.word),
{
    let positions = includes_positions(s, code, lax, Some(-1i8));
    lemma_prefix_search_complete(s, code);
    assert(positions.contains(j));
    let m = choose|m: int| 0 <= m < positions.len() && positions[m] == j;
    lemma_lookup_entry(s, j);
    assert(visible_word(s, s[positions[m]].0) == Some(s[j].1));
    lemma_candidates_hold(s, positions, m, s[j].1);
    let cands = candidates(s, positions, false);
    lemma_gather_unlimited_keeps(cands);
    let i = choose|i: int| 0 <= i < cands.len() && cands[i] == s[j].1;
    assert(has_word(gather(cands, None).0, cands[i].word));
}

proof fn lemma_codes_at_least_exact(codes: Seq<Seq<char>>, min: Option<i8>)
    ensures
        forall|i: int| 0 <= i < codes_at_least(codes, min).len() ==> (min matches Some(m) ==> (
        #[trigger] codes_at_least(codes, min)[i]).len() >= m),
        forall|i: int|
            0 <= i < codes.len() && (min matches Some(m) ==> (#[trigger] codes[i]).len() >= m) ==> codes_at_least(
                codes,
                min,
            ).contains(codes[i]),
    decreases codes.len(),
{
    if codes.len() > 0 {
        let init = codes.drop_last();
        lemma_codes_at_least_exact(init, min);
        let a = codes_at_least(init, min);
        let r = codes_at_least(codes, min);
        assert forall|i: int| 0 <= i < r.len() implies (min matches Some(m) ==> (#[trigger] r[i]).len() >= m) by {
            if i < a.len() {
                assert(r[i] == a[i]);
            }
        }
        assert forall|i: int|
            0 <= i < codes.len() && (min matches Some(m) ==> (#[trigger] codes[i]).len() >= m) implies r.contains(
                codes[i],
            ) by {
            if i < init.len() {
                assert(init[i] == codes[i]);
                let k = choose|k: int| 0 <= k < a.len() && a[k] == init[i];
                assert(r[k] == a[k]);
            } else {
                assert(codes[i] == codes.last());
                assert(r[r.len() - 1] == codes.last());
            }
        }
    }
}

/// The codes a permutation search tries are the arrangements of letters of
/// the combination (each letter from its own position) with at least the
/// minimum number of letters, when one is given: each code is one, and each
/// one is among the codes.
pub proof fn lemma_permutation_codes(combo: Seq<char>, min: Option<i8>, c: Seq<char>)
    ensures
        permutation_codes(combo, min).contains(c) <==> (is_arrangement_of(c, combo) && (min matches Some(m)
            ==> c.len() >= m)),
{
    let all = arrangements(combo);
    let codes = permutation_codes(combo, min);
    lemma_permute_arrangements(combo);
    lemma_codes_at_least_from(all, min);
    lemma_codes_at_least_exact(all, min);
    if codes.contains(c) {
        let k = choose|k: int| 0 <= k < codes.len() && codes[k] == c;
        assert(all.contains(codes[k]));
        let j = choose|j: int| 0 <= j < all.len() && all[j] == c;
        assert(is_arrangement_of(all[j], combo));
    }
    if is_arrangement_of(c, combo) && (min matches Some(m) ==> c.len() >= m) {
        lemma_permute_complete(combo, c);
        let j = choose|j: int| 0 <= j < all.len() && all[j] == c;
        assert(codes.contains(all[j]));
    }
}

} // verus!
