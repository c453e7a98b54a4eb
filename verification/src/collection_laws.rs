//! What holds of the dictionary's searches whatever the words: the laws
//! proved of the specifications in `collection`.
use vstd::prelude::*;

use crate::collection::{
    loaded,
    code_step, permute_fold, permute_words, permutation_codes, spend,
    candidates, entry_words, gather, has_word, includes_positions, includes_words, insert_by_word, inserted,
    lax_words, matches_mode, rebuild_rows, referenced, run_len, run_positions, sorted_by_word, stored_references,
    transliteration_entry, visible_rows, visible_word, with_reference,
};
use crate::text::{
    is_prefix, key_less, lemma_key_less_asymmetric, lemma_key_less_total, lemma_key_less_transitive, lowercased,
    unidecoded,
};
use crate::word::{row_of_word, word_of_record, DTOWordView, WordView};
use crate::word_map::{has_key, keys_sorted, lemma_store, lookup, lower_bound, store, EntryView};

verus! {

/// No two of the words have the same spelling.
pub open spec fn distinct_words(ws: Seq<WordView>) -> bool {
    forall|i: int, j: int| 0 <= i < j < ws.len() ==> (#[trigger] ws[i]).word != (#[trigger] ws[j]).word
}

proof fn lemma_gather_distinct(cands: Seq<WordView>, size: Option<i64>)
    ensures
        distinct_words(gather(cands, size).0),
        size matches Some(n) ==> (n >= 1 ==> gather(cands, size).0.len() <= n),
        size matches Some(n) ==> (!gather(cands, size).1 && cands.len() > 0 ==> gather(cands, size).0.len() < n),
    decreases cands.len(),
{
    if cands.len() > 0 {
        lemma_gather_distinct(cands.drop_last(), size);
        let (acc, done) = gather(cands.drop_last(), size);
        if !done {
            let w = cands.last();
            if !has_word(acc, w.word) {
                let acc2 = acc.push(w);
                assert forall|i: int, j: int| 0 <= i < j < acc2.len() implies (#[trigger] acc2[i]).word
                    != (#[trigger] acc2[j]).word by {
                    if j == acc.len() {
                        assert(acc2[i] == acc[i]);
                    } else {
                        assert(acc2[i] == acc[i] && acc2[j] == acc[j]);
                    }
                }
            }
        }
    }
}

/// An inclusion search returns no two words with the same spelling, and no
/// more words than a positive size asks for.
pub proof fn lemma_includes_distinct(
    s: Seq<EntryView>,
    code: Seq<char>,
    position: Option<i8>,
    lax: Option<bool>,
    size: Option<i64>,
)
    ensures
        distinct_words(includes_words(s, code, position, lax, size)),
        size matches Some(n) ==> (n >= 1 ==> includes_words(s, code, position, lax, size).len() <= n),
{
    lemma_gather_distinct(candidates(s, includes_positions(s, code, lax, position), lax == Some(true)), size);
}

/// After a word is added, its lowercase spelling finds it, with the
/// references it was stored with (and a lookup of shown words finds it if it
/// is shown); every other key but its lowercase transliteration finds what it
/// found before. This fails only for a word whose lowercase transliteration
/// equals its lowercase spelling without being its spelling (a capitalised
/// word, say): the hidden entry of the transliteration then takes the key.
pub proof fn lemma_insert_then_find(s: Seq<EntryView>, w: WordView)
    requires
        keys_sorted(s),
        w.word == lowercased(unidecoded(w.word)) || lowercased(unidecoded(w.word)) != lowercased(w.word),
    ensures
        lookup(inserted(s, w), lowercased(w.word)) == Some(WordView { references: stored_references(s, w), ..w }),
        visible_word(inserted(s, w), lowercased(w.word)) == (if w.visible {
            Some(WordView { references: stored_references(s, w), ..w })
        } else {
            None
        }),
        forall|k: Seq<char>|
            k != lowercased(w.word) && k != lowercased(unidecoded(w.word)) ==> #[trigger] lookup(inserted(s, w), k)
                == lookup(s, k),
        keys_sorted(inserted(s, w)),
{
    let key = lowercased(w.word);
    let u = lowercased(unidecoded(w.word));
    let w1 = WordView { references: stored_references(s, w), ..w };
    let s1 = store(s, key, w1);
    lemma_store(s, key, w1);
    if w.word != u {
        let save = match lookup(s1, unidecoded(w.word)) {
            None => transliteration_entry(w1, unidecoded(w.word)),
            Some(x) => with_reference(x, w.word),
        };
        lemma_store(s1, u, save);
    }
}

proof fn lemma_referenced_contains(s: Seq<EntryView>, refs: Seq<Seq<char>>, r: Seq<char>, x: WordView)
    requires
        refs.contains(r),
        visible_word(s, lowercased(r)) == Some(x),
    ensures
        referenced(s, refs).contains(x),
    decreases refs.len(),
{
    let rest = referenced(s, refs.drop_last());
    if refs.last() == r {
        assert(referenced(s, refs) == rest + seq![x]);
        assert(referenced(s, refs)[rest.len() as int] == x);
    } else {
        let k = choose|k: int| 0 <= k < refs.len() && refs[k] == r;
        assert(refs.drop_last()[k] == r);
        lemma_referenced_contains(s, refs.drop_last(), r, x);
        let j = choose|j: int| 0 <= j < rest.len() && rest[j] == x;
        let tail = match visible_word(s, lowercased(refs.last())) {
            Some(v) => seq![v],
            None => Seq::<WordView>::empty(),
        };
        assert(referenced(s, refs) == rest + tail);
        assert(referenced(s, refs)[j] == x);
    }
}

/// After a shown lowercase word with accents is added, a lookup that
/// ignores accents finds it through its transliteration (when the
/// transliteration is lowercase and its own transliteration, as ASCII
/// lowercase text is).
pub proof fn lemma_insert_then_find_lax(s: Seq<EntryView>, w: WordView)
    requires
        keys_sorted(s),
        w.visible,
        w.word == lowercased(w.word),
        unidecoded(w.word) != w.word,
        lowercased(unidecoded(w.word)) == unidecoded(w.word),
        unidecoded(unidecoded(w.word)) == unidecoded(w.word),
    ensures
        lax_words(inserted(s, w), unidecoded(w.word)).contains(
            WordView { references: stored_references(s, w), ..w },
        ),
{
    let key = lowercased(w.word);
    let u2 = unidecoded(w.word);
    let w1 = WordView { references: stored_references(s, w), ..w };
    let s1 = store(s, key, w1);
    lemma_store(s, key, w1);
    let save = match lookup(s1, u2) {
        None => transliteration_entry(w1, u2),
        Some(x) => with_reference(x, w.word),
    };
    let s2 = store(s1, u2, save);
    lemma_store(s1, u2, save);
    assert(inserted(s, w) == s2);
    assert(lookup(s2, u2) == Some(save));
    assert(save.references.contains(w.word)) by {
        match lookup(s1, u2) {
            None => {
                assert(save.references == seq![w1.word]);
                assert(save.references[0] == w.word);
            },
            Some(x) => {
                if !x.references.contains(w.word) {
                    assert(save.references == x.references.push(w.word));
                    assert(save.references[x.references.len() as int] == w.word);
                }
            },
        }
    }
    assert(lookup(s2, key) == Some(w1));
    lemma_referenced_contains(s2, save.references, w.word, w1);
    let first = if save.visible { seq![save] } else { Seq::<WordView>::empty() };
    let refd = referenced(s2, save.references);
    assert(lax_words(s2, u2) == first + refd);
    let j = choose|j: int| 0 <= j < refd.len() && refd[j] == w1;
    assert((first + refd)[first.len() + j] == w1);
}

proof fn lemma_prefix_not_below(p: Seq<char>, k: Seq<char>)
    requires
        is_prefix(p, k),
    ensures
        !key_less(k, p),
{
    if key_less(k, p) {
        let i = choose|i: int| crate::text::less_at(k, p, i);
        assert(k.take(p.len() as int)[i] == k[i]);
    }
}

proof fn lemma_prefix_between(p: Seq<char>, k2: Seq<char>, k3: Seq<char>)
    requires
        !key_less(k2, p),
        key_less(k2, k3),
        is_prefix(p, k3),
    ensures
        is_prefix(p, k2),
{
    if !is_prefix(p, k2) {
        let lim = if p.len() < k2.len() { p.len() as int } else { k2.len() as int };
        let d = crate::text::lemma_first_difference_exists(p, k2, 0);
        if d == p.len() {
            assert(k2.take(p.len() as int) =~= p);
        } else {
            if d == k2.len() {
                assert(crate::text::less_at(k2, p, d));
            }
            assert(d < k2.len());
            assert(k2[d] != p[d]);
            if (k2[d] as int) < (p[d] as int) {
                assert(crate::text::less_at(k2, p, d));
            }
            assert(k3.take(p.len() as int)[d] == k3[d]);
            let e = choose|e: int| crate::text::less_at(k2, k3, e);
            if e < d {
                assert(k3.take(p.len() as int)[e] == k3[e]);
                assert(k2[e] == p[e]);
            } else if e > d {
                assert(k2[d] == k3[d]);
            }
        }
    }
}

proof fn lemma_run_matches(s: Seq<EntryView>, start: int, code: Seq<char>, action: i8, excluded: Seq<Seq<char>>, t: int)
    requires
        0 <= t < run_len(s, start, code, action, excluded),
    ensures
        0 <= start + t < s.len(),
        matches_mode(s[start + t].0, code, action),
    decreases t,
{
    if t > 0 {
        lemma_run_matches(s, start + 1, code, action, excluded, t - 1);
    }
}

proof fn lemma_run_end(s: Seq<EntryView>, start: int, code: Seq<char>, action: i8, excluded: Seq<Seq<char>>)
    requires
        0 <= start <= s.len(),
    ensures
        start + run_len(s, start, code, action, excluded) <= s.len(),
        start + run_len(s, start, code, action, excluded) < s.len() ==> !matches_mode(
            s[start + run_len(s, start, code, action, excluded)].0,
            code,
            action,
        ) || excluded.contains(s[start + run_len(s, start, code, action, excluded)].0),
    decreases s.len() - start,
{
    if start < s.len() && matches_mode(s[start].0, code, action) && !excluded.contains(s[start].0) {
        lemma_run_end(s, start + 1, code, action, excluded);
    }
}

/// A search for keys that start with `code` visits exactly the entries
/// whose keys start with it: in key order they follow one another from the
/// first key not below `code`.
pub proof fn lemma_prefix_search_complete(s: Seq<EntryView>, code: Seq<char>)
    requires
        keys_sorted(s),
    ensures
        forall|i: int| 0 <= i < s.len() ==> (is_prefix(code, #[trigger] s[i].0) <==> run_positions(
            s,
            lower_bound(s, code),
            code,
            -1i8,
            Seq::<Seq<char>>::empty(),
        ).contains(i)),
{
    let ex = Seq::<Seq<char>>::empty();
    crate::word_map::lemma_lower_bound_exists(s, code);
    let lb = lower_bound(s, code);
    let len = run_len(s, lb, code, -1i8, ex);
    let run = run_positions(s, lb, code, -1i8, ex);
    lemma_run_end(s, lb, code, -1i8, ex);
    assert forall|i: int| 0 <= i < s.len() implies (is_prefix(code, #[trigger] s[i].0) <==> run.contains(i)) by {
        if lb <= i < lb + len {
            lemma_run_matches(s, lb, code, -1i8, ex, i - lb);
            assert(run[i - lb] == i);
        } else {
            if run.contains(i) {
                let j = choose|j: int| 0 <= j < run.len() && run[j] == i;
            }
            if i < lb {
                assert(key_less(s[i].0, code));
                if is_prefix(code, s[i].0) {
                    lemma_prefix_not_below(code, s[i].0);
                }
            } else {
                let m = lb + len;
                assert(m < s.len());
                assert(!ex.contains(s[m].0));
                assert(!is_prefix(code, s[m].0));
                if i > m && is_prefix(code, s[i].0) {
                    assert(!key_less(s[m].0, code));
                    assert(key_less(s[m].0, s[i].0));
                    lemma_prefix_between(code, s[m].0, s[i].0);
                }
            }
        }
    }
}

/// The words are in order of lowercase spelling: none is below one before it.
pub open spec fn sorted_by_lowercase(ws: Seq<WordView>) -> bool {
    forall|i: int, j: int| 0 <= i < j < ws.len() ==> !key_less(lowercased((#[trigger] ws[j]).word), lowercased((#[trigger] ws[i]).word))
}

proof fn lemma_not_less_transitive(a: Seq<char>, b: Seq<char>, c: Seq<char>)
    requires
        !key_less(b, a),
        !key_less(c, b),
    ensures
        !key_less(c, a),
{
    if key_less(c, a) {
        lemma_key_less_total(a, b);
        if a != b {
            lemma_key_less_transitive(c, a, b);
        }
    }
}

proof fn lemma_insert_by_word(t: Seq<WordView>, x: WordView)
    requires
        sorted_by_lowercase(t),
    ensures
        sorted_by_lowercase(insert_by_word(t, x)),
        insert_by_word(t, x).len() == t.len() + 1,
        forall|k: int| 0 <= k < insert_by_word(t, x).len() ==> t.contains(#[trigger] insert_by_word(t, x)[k]) || insert_by_word(t, x)[k] == x,
    decreases t.len(),
{
    if t.len() > 0 {
        let last = t.last();
        if key_less(lowercased(x.word), lowercased(last.word)) {
            let init = t.drop_last();
            assert(sorted_by_lowercase(init)) by {
                assert forall|i: int, j: int| 0 <= i < j < init.len() implies !key_less(lowercased((#[trigger] init[j]).word), lowercased((#[trigger] init[i]).word)) by {
                    assert(init[i] == t[i] && init[j] == t[j]);
                }
            }
            lemma_insert_by_word(init, x);
            let r0 = insert_by_word(init, x);
            let r = r0.push(last);
            assert forall|i: int, j: int| 0 <= i < j < r.len() implies !key_less(lowercased((#[trigger] r[j]).word), lowercased((#[trigger] r[i]).word)) by {
                if j == r.len() - 1 {
                    assert(r[i] == r0[i]);
                    if r0[i] == x {
                        lemma_key_less_asymmetric(lowercased(x.word), lowercased(last.word));
                    } else {
                        assert(init.contains(r0[i]));
                        let m = choose|m: int| 0 <= m < init.len() && init[m] == r0[i];
                        assert(t[m] == init[m]);
                        assert(t[t.len() - 1] == last);
                    }
                } else {
                    assert(r[i] == r0[i] && r[j] == r0[j]);
                }
            }
            assert forall|k: int| 0 <= k < r.len() implies t.contains(#[trigger] r[k]) || r[k] == x by {
                if k == r.len() - 1 {
                    assert(t[t.len() - 1] == last);
                } else {
                    assert(r[k] == r0[k]);
                    if r0[k] != x {
                        let m = choose|m: int| 0 <= m < init.len() && init[m] == r0[k];
                        assert(t[m] == init[m]);
                    }
                }
            }
        } else {
            let r = t.push(x);
            assert forall|i: int, j: int| 0 <= i < j < r.len() implies !key_less(lowercased((#[trigger] r[j]).word), lowercased((#[trigger] r[i]).word)) by {
                if j == r.len() - 1 {
                    assert(r[i] == t[i]);
                    if i < t.len() - 1 {
                        assert(t[t.len() - 1] == last);
                        lemma_not_less_transitive(lowercased(t[i].word), lowercased(last.word), lowercased(x.word));
                    }
                } else {
                    assert(r[i] == t[i] && r[j] == t[j]);
                }
            }
            assert forall|k: int| 0 <= k < r.len() implies t.contains(#[trigger] r[k]) || r[k] == x by {
                if k < t.len() {
                    assert(r[k] == t[k]);
                }
            }
        }
    }
}

proof fn lemma_sorted_by_word(ws: Seq<WordView>)
    ensures
        sorted_by_lowercase(sorted_by_word(ws)),
        sorted_by_word(ws).len() == ws.len(),
        forall|k: int| 0 <= k < ws.len() ==> ws.contains(#[trigger] sorted_by_word(ws)[k]),
    decreases ws.len(),
{
    if ws.len() > 0 {
        let init = ws.drop_last();
        lemma_sorted_by_word(init);
        let t = sorted_by_word(init);
        lemma_insert_by_word(t, ws.last());
        assert forall|k: int| 0 <= k < ws.len() implies ws.contains(#[trigger] sorted_by_word(ws)[k]) by {
            let e = sorted_by_word(ws)[k];
            if e == ws.last() {
                assert(ws[ws.len() - 1] == e);
            } else {
                assert(t.contains(e));
                let m = choose|m: int| 0 <= m < t.len() && t[m] == e;
                assert(init.contains(t[m]));
                let q = choose|q: int| 0 <= q < init.len() && init[q] == e;
                assert(ws[q] == e);
            }
        }
    }
}

/// `row` is the row of one of the shown words.
pub open spec fn is_row_of_shown(ws: Seq<WordView>, row: Seq<Seq<char>>) -> bool {
    exists|k: int| 0 <= k < ws.len() && ws[k].visible && row == row_of_word(#[trigger] ws[k])
}

proof fn lemma_visible_rows_sorted(ws: Seq<WordView>)
    requires
        sorted_by_lowercase(ws),
    ensures
        forall|i: int, j: int| 0 <= i < j < visible_rows(ws).len() ==> !key_less(
            lowercased((#[trigger] visible_rows(ws)[j])[0]),
            lowercased((#[trigger] visible_rows(ws)[i])[0]),
        ),
        forall|i: int| 0 <= i < visible_rows(ws).len() ==> is_row_of_shown(ws, #[trigger] visible_rows(ws)[i]),
    decreases ws.len(),
{
    if ws.len() > 0 {
        let init = ws.drop_last();
        assert(sorted_by_lowercase(init)) by {
            assert forall|i: int, j: int| 0 <= i < j < init.len() implies !key_less(lowercased((#[trigger] init[j]).word), lowercased((#[trigger] init[i]).word)) by {
                assert(init[i] == ws[i] && init[j] == ws[j]);
            }
        }
        lemma_visible_rows_sorted(init);
        let r0 = visible_rows(init);
        let r = visible_rows(ws);
        assert forall|i: int| 0 <= i < visible_rows(ws).len() implies is_row_of_shown(ws, #[trigger] visible_rows(ws)[i]) by {
            if i < r0.len() {
                assert(r[i] == r0[i]);
                assert(is_row_of_shown(init, r0[i]));
                let k = choose|k: int| 0 <= k < init.len() && init[k].visible && r0[i] == row_of_word(#[trigger] init[k]);
                assert(ws[k] == init[k]);
                assert(0 <= k < ws.len() && ws[k].visible && r[i] == row_of_word(ws[k]));
            } else {
                let k = ws.len() - 1;
                assert(ws[k] == ws.last());
                assert(0 <= k < ws.len() && ws[k].visible && r[i] == row_of_word(ws[k]));
            }
        }
        if ws.last().visible {
            assert forall|i: int, j: int| 0 <= i < j < r.len() implies !key_less(
                lowercased((#[trigger] r[j])[0]),
                lowercased((#[trigger] r[i])[0]),
            ) by {
                assert(r[i] == r0[i]);
                if j == r.len() - 1 {
                    assert(is_row_of_shown(init, r0[i]));
                    let k = choose|k: int| 0 <= k < init.len() && init[k].visible && r0[i] == row_of_word(#[trigger] init[k]);
                    assert(ws[k] == init[k]);
                    assert(ws[ws.len() - 1] == ws.last());
                    assert(row_of_word(ws.last())[0] == ws.last().word);
                    assert(row_of_word(init[k])[0] == init[k].word);
                } else {
                    assert(r[j] == r0[j]);
                }
            }
        }
    }
}

/// The rows written back on exit are in order of lowercase spelling, one
/// for each shown word, and every one is the row of a shown word.
pub proof fn lemma_rebuild_rows_sorted(s: Seq<EntryView>)
    ensures
        forall|i: int, j: int| 0 <= i < j < rebuild_rows(s).len() ==> !key_less(
            lowercased((#[trigger] rebuild_rows(s)[j])[0]),
            lowercased((#[trigger] rebuild_rows(s)[i])[0]),
        ),
        forall|i: int| 0 <= i < rebuild_rows(s).len() ==> is_row_of_shown(entry_words(s), #[trigger] rebuild_rows(s)[i]),
{
    let ws = entry_words(s);
    let sorted = sorted_by_word(ws);
    lemma_sorted_by_word(ws);
    lemma_visible_rows_sorted(sorted);
    assert forall|i: int| 0 <= i < rebuild_rows(s).len() implies is_row_of_shown(ws, #[trigger] rebuild_rows(s)[i]) by {
        let row = rebuild_rows(s)[i];
        assert(is_row_of_shown(sorted, row));
        let k = choose|k: int| 0 <= k < sorted.len() && sorted[k].visible && row == row_of_word(#[trigger] sorted[k]);
        assert(ws.contains(sorted[k]));
        let q = choose|q: int| 0 <= q < ws.len() && ws[q] == sorted[k];
        assert(0 <= q < ws.len() && ws[q].visible && row == row_of_word(ws[q]));
    }
}

/// The smaller of a size and a length.
pub open spec fn capped(n: int, len: int) -> int {
    if n < len { n } else { len }
}

proof fn lemma_gather_truncates(cands: Seq<WordView>, n: i64)
    requires
        n >= 1,
    ensures
        !gather(cands, None).1,
        gather(cands, Some(n)).0 == gather(cands, None).0.take(
            capped(n as int, gather(cands, None).0.len() as int),
        ),
        gather(cands, Some(n)).1 <==> gather(cands, None).0.len() >= n,
    decreases cands.len(),
{
    if cands.len() > 0 {
        let rest = cands.drop_last();
        lemma_gather_truncates(rest, n);
        let all = gather(rest, None).0;
        let (acc, done) = gather(rest, Some(n));
        let w = cands.last();
        let all2 = if has_word(all, w.word) { all } else { all.push(w) };
        assert(gather(cands, None).0 == all2);
        if done {
            assert(all2.take(n as int) =~= all.take(n as int));
        } else {
            assert(acc =~= all);
            assert(all2.take(all2.len() as int) =~= all2);
        }
    }
}

/// A size on an inclusion search only cuts short what the search without a
/// size returns: a size of `n`, at least one, keeps its first `n` words.
pub proof fn lemma_includes_size_truncates(
    s: Seq<EntryView>,
    code: Seq<char>,
    position: Option<i8>,
    lax: Option<bool>,
    n: i64,
)
    requires
        n >= 1,
    ensures
        includes_words(s, code, position, lax, Some(n)) == includes_words(s, code, position, lax, None).take(
            capped(n as int, includes_words(s, code, position, lax, None).len() as int),
        ),
{
    lemma_gather_truncates(candidates(s, includes_positions(s, code, lax, position), lax == Some(true)), n);
}

/// Without a lax flag or an inclusion mode, one code finds at most one word,
/// whatever the budget, and spends one unit of it per word.
proof fn lemma_code_step_plain(s: Seq<EntryView>, code: Seq<char>, exists: Option<bool>, b: Option<int>)
    ensures
        code_step(s, code, None, None, exists, b).0 == code_step(s, code, None, None, exists, None).0,
        code_step(s, code, None, None, exists, b).0.len() <= 1,
        code_step(s, code, None, None, exists, b).1 == spend(b, code_step(s, code, None, None, exists, b).0.len() as int),
{
}

proof fn lemma_permute_fold_truncates(s: Seq<EntryView>, codes: Seq<Seq<char>>, exists: Option<bool>, n: i64)
    requires
        n >= 1,
    ensures
        !permute_fold(s, codes, None, None, exists, None).2,
        permute_fold(s, codes, None, None, exists, None).1 == None::<int>,
        permute_fold(s, codes, None, None, exists, Some(n)).0 == permute_fold(s, codes, None, None, exists, None).0.take(
            capped(n as int, permute_fold(s, codes, None, None, exists, None).0.len() as int),
        ),
        permute_fold(s, codes, None, None, exists, Some(n)).1 == Some(
            n - permute_fold(s, codes, None, None, exists, Some(n)).0.len(),
        ),
        permute_fold(s, codes, None, None, exists, Some(n)).2 <==> permute_fold(s, codes, None, None, exists, Some(n)).0.len() >= n,
    decreases codes.len(),
{
    if codes.len() > 0 {
        let rest = codes.drop_last();
        lemma_permute_fold_truncates(s, rest, exists, n);
        let (all, nb, ndone) = permute_fold(s, rest, None, None, exists, None);
        let (acc, b, done) = permute_fold(s, rest, None, None, exists, Some(n));
        let c = codes.last();
        lemma_code_step_plain(s, c, exists, b);
        lemma_code_step_plain(s, c, exists, None);
        let w = code_step(s, c, None, None, exists, None).0;
        assert(permute_fold(s, codes, None, None, exists, None).0 == all + w);
        if done {
            assert((all + w).take(n as int) =~= all.take(n as int));
        } else {
            assert(acc =~= all);
            assert((all + w).take((all + w).len() as int) =~= all + w);
        }
    }
}

/// A size on a permutation search without a lax flag or an inclusion mode
/// only cuts short what the search without a size returns: a size of `n`,
/// at least one, keeps its first `n` words.
pub proof fn lemma_permute_size_truncates(
    s: Seq<EntryView>,
    combo: Seq<char>,
    min: Option<i8>,
    exists: Option<bool>,
    n: i64,
)
    requires
        n >= 1,
    ensures
        permute_words(s, combo, min, exists, None, None, Some(n)) == permute_words(s, combo, min, exists, None, None, None).take(
            capped(n as int, permute_words(s, combo, min, exists, None, None, None).len() as int),
        ),
{
    lemma_permute_fold_truncates(s, permutation_codes(combo, min), exists, n);
}

/// Adding a word whose spelling is not its lowercase transliteration, when
/// an entry is already found under its transliteration, only adds a
/// reference to that entry: stored under the lowercase transliteration, it
/// keeps every other field (whether it is shown among them), keeps its
/// references in order and refers to the word, with at most that one
/// reference more. So a word shown there before stays shown.
pub proof fn lemma_insert_adds_reference(s: Seq<EntryView>, w: WordView, x: WordView)
    requires
        keys_sorted(s),
        w.word != lowercased(unidecoded(w.word)),
        lowercased(w.word) != unidecoded(w.word),
        lookup(s, unidecoded(w.word)) == Some(x),
    ensures
        lookup(inserted(s, w), lowercased(unidecoded(w.word))) matches Some(y) && {
            &&& y.word == x.word
            &&& y.unicode == x.unicode
            &&& y.category == x.category
            &&& y.genre == x.genre
            &&& y.number == x.number
            &&& y.root == x.root
            &&& y.affix == x.affix
            &&& y.tonic == x.tonic
            &&& y.syllables == x.syllables
            &&& y.locale == x.locale
            &&& y.origin == x.origin
            &&& y.synonyms == x.synonyms
            &&& y.meaning == x.meaning
            &&& y.visible == x.visible
            &&& y.references.contains(w.word)
            &&& x.references.len() <= y.references.len() <= x.references.len() + 1
            &&& y.references.take(x.references.len() as int) == x.references
        },
        x.visible ==> visible_word(inserted(s, w), lowercased(unidecoded(w.word))) is Some,
{
    let key = lowercased(w.word);
    let tr = unidecoded(w.word);
    let u = lowercased(tr);
    let w1 = WordView { references: stored_references(s, w), ..w };
    let s1 = store(s, key, w1);
    lemma_store(s, key, w1);
    assert(lookup(s1, tr) == Some(x));
    let save = with_reference(x, w.word);
    lemma_store(s1, u, save);
    assert(lookup(inserted(s, w), u) == Some(save));
    if x.references.contains(w.word) {
        assert(save.references.take(x.references.len() as int) =~= x.references);
    } else {
        assert(save.references.take(x.references.len() as int) =~= x.references);
        assert(save.references[x.references.len() as int] == w.word);
    }
}

/// The number of shown words.
pub open spec fn shown_count(ws: Seq<WordView>) -> nat
    decreases ws.len(),
{
    if ws.len() == 0 {
        0
    } else {
        shown_count(ws.drop_last()) + if ws.last().visible { 1nat } else { 0nat }
    }
}

proof fn lemma_insert_by_word_keeps(t: Seq<WordView>, x: WordView)
    ensures
        shown_count(insert_by_word(t, x)) == shown_count(t) + if x.visible { 1nat } else { 0nat },
        insert_by_word(t, x).contains(x),
        forall|k: int| 0 <= k < t.len() ==> insert_by_word(t, x).contains(#[trigger] t[k]),
    decreases t.len(),
{
    if t.len() == 0 {
        assert(seq![x].drop_last() =~= Seq::<WordView>::empty());
        assert(seq![x][0] == x);
        assert(shown_count(Seq::<WordView>::empty()) == 0);
        assert(shown_count(seq![x]) == shown_count(seq![x].drop_last()) + if x.visible { 1nat } else { 0nat });
    } else if key_less(lowercased(x.word), lowercased(t.last().word)) {
        let init = t.drop_last();
        lemma_insert_by_word_keeps(init, x);
        let r0 = insert_by_word(init, x);
        let r = r0.push(t.last());
        assert(r.drop_last() =~= r0);
        assert(r.last() == t.last());
        assert(shown_count(r) == shown_count(r0) + if t.last().visible { 1nat } else { 0nat });
        let i = choose|i: int| 0 <= i < r0.len() && r0[i] == x;
        assert(r[i] == x);
        assert forall|k: int| 0 <= k < t.len() implies r.contains(#[trigger] t[k]) by {
            if k == t.len() - 1 {
                assert(r[r.len() - 1] == t[k]);
            } else {
                assert(init[k] == t[k]);
                let j = choose|j: int| 0 <= j < r0.len() && r0[j] == init[k];
                assert(r[j] == t[k]);
            }
        }
    } else {
        let r = t.push(x);
        assert(r.drop_last() =~= t);
        assert(r[t.len() as int] == x);
        assert forall|k: int| 0 <= k < t.len() implies r.contains(#[trigger] t[k]) by {
            assert(r[k] == t[k]);
        }
    }
}

proof fn lemma_sorted_by_word_keeps(ws: Seq<WordView>)
    ensures
        shown_count(sorted_by_word(ws)) == shown_count(ws),
        forall|k: int| 0 <= k < ws.len() ==> sorted_by_word(ws).contains(#[trigger] ws[k]),
    decreases ws.len(),
{
    if ws.len() > 0 {
        let init = ws.drop_last();
        lemma_sorted_by_word_keeps(init);
        let t = sorted_by_word(init);
        lemma_insert_by_word_keeps(t, ws.last());
        let r = sorted_by_word(ws);
        assert forall|k: int| 0 <= k < ws.len() implies r.contains(#[trigger] ws[k]) by {
            if k == ws.len() - 1 {
                assert(ws[k] == ws.last());
            } else {
                assert(init[k] == ws[k]);
                assert(t.contains(init[k]));
                let j = choose|j: int| 0 <= j < t.len() && t[j] == init[k];
                assert(r.contains(t[j]));
            }
        }
    }
}

proof fn lemma_visible_rows_keep(ws: Seq<WordView>)
    ensures
        visible_rows(ws).len() == shown_count(ws),
        forall|k: int| 0 <= k < ws.len() && (#[trigger] ws[k]).visible ==> visible_rows(ws).contains(row_of_word(ws[k])),
    decreases ws.len(),
{
    if ws.len() > 0 {
        let init = ws.drop_last();
        lemma_visible_rows_keep(init);
        let r0 = visible_rows(init);
        let r = visible_rows(ws);
        assert forall|k: int| 0 <= k < ws.len() && (#[trigger] ws[k]).visible implies r.contains(row_of_word(ws[k])) by {
            if k == ws.len() - 1 {
                assert(r[r.len() - 1] == row_of_word(ws[k]));
            } else {
                assert(init[k] == ws[k]);
                let j = choose|j: int| 0 <= j < r0.len() && r0[j] == row_of_word(init[k]);
                assert(r[j] == r0[j]);
            }
        }
    }
}

/// Every shown word is written back on exit, and nothing else: there are as
/// many rows as shown words, and the row of each shown word is among them.
pub proof fn lemma_rebuild_rows_complete(s: Seq<EntryView>)
    ensures
        rebuild_rows(s).len() == shown_count(entry_words(s)),
        forall|k: int| 0 <= k < s.len() && (#[trigger] s[k]).1.visible ==> rebuild_rows(s).contains(row_of_word(s[k].1)),
{
    let ws = entry_words(s);
    let sorted = sorted_by_word(ws);
    lemma_sorted_by_word_keeps(ws);
    lemma_visible_rows_keep(sorted);
    assert forall|k: int| 0 <= k < s.len() && (#[trigger] s[k]).1.visible implies rebuild_rows(s).contains(row_of_word(s[k].1)) by {
        assert(ws[k] == s[k].1);
        assert(sorted.contains(ws[k]));
        let j = choose|j: int| 0 <= j < sorted.len() && sorted[j] == ws[k];
        assert(sorted[j].visible);
    }
}

/// Adding a word keeps the keys sorted, keeps every key, and leaves an entry
/// under the word's lowercase spelling.
pub proof fn lemma_insert_keeps_keys(s: Seq<EntryView>, w: WordView)
    requires
        keys_sorted(s),
    ensures
        keys_sorted(inserted(s, w)),
        has_key(inserted(s, w), lowercased(w.word)),
        forall|k: Seq<char>| has_key(s, k) ==> #[trigger] has_key(inserted(s, w), k),
{
    let key = lowercased(w.word);
    let u = lowercased(unidecoded(w.word));
    let w1 = WordView { references: stored_references(s, w), ..w };
    let s1 = store(s, key, w1);
    lemma_store(s, key, w1);
    assert(lookup(s1, key) is Some);
    assert forall|k: Seq<char>| has_key(s, k) implies #[trigger] has_key(s1, k) by {
        if k != key {
            assert(lookup(s1, k) == lookup(s, k));
        }
    }
    if w.word != u {
        let save = match lookup(s1, unidecoded(w.word)) {
            None => transliteration_entry(w1, unidecoded(w.word)),
            Some(x) => with_reference(x, w.word),
        };
        lemma_store(s1, u, save);
        let s2 = store(s1, u, save);
        assert(s2 == inserted(s, w));
        assert forall|k: Seq<char>| has_key(s1, k) implies #[trigger] has_key(s2, k) by {
            if k != u {
                assert(lookup(s2, k) == lookup(s1, k));
            } else {
                assert(lookup(s2, k) is Some);
            }
        }
        if key != u {
            assert(lookup(s2, key) == lookup(s1, key));
        } else {
            assert(lookup(s2, key) is Some);
        }
    }
}

/// Reading records keeps the keys sorted and every key there was, and each
/// record that names a word leaves an entry under its lowercase spelling.
pub proof fn lemma_loaded_keys(s: Seq<EntryView>, records: Seq<DTOWordView>)
    requires
        keys_sorted(s),
    ensures
        keys_sorted(loaded(s, records)),
        forall|k: Seq<char>| has_key(s, k) ==> #[trigger] has_key(loaded(s, records), k),
        forall|i: int|
            0 <= i < records.len() && (#[trigger] records[i]).word is Some ==> has_key(
                loaded(s, records),
                lowercased(records[i].word.unwrap()),
            ),
    decreases records.len(),
{
    if records.len() > 0 {
        let init = records.drop_last();
        lemma_loaded_keys(s, init);
        let s1 = loaded(s, init);
        let d = records.last();
        let r = loaded(s, records);
        if d.word is Some {
            lemma_insert_keeps_keys(s1, word_of_record(d));
        }
        assert forall|i: int|
            0 <= i < records.len() && (#[trigger] records[i]).word is Some implies has_key(
                r,
                lowercased(records[i].word.unwrap()),
            ) by {
            if i < init.len() {
                assert(init[i] == records[i]);
            } else {
                assert(records[i] == d);
            }
        }
    }
}

} // verus!
