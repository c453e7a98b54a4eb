//! Words kept in the order of their keys, as in an ordered map from strings.
use vstd::prelude::*;

use crate::text::{
    compare_keys, key_less, lemma_key_less_asymmetric, lemma_key_less_irreflexive,
    lemma_key_less_total, lemma_key_less_transitive, KeyOrder,
};
use crate::word::{Word, WordView};

verus! {

/// The value of an entry: its key and its word.
pub type EntryView = (Seq<char>, WordView);

/// The keys strictly increase.
pub open spec fn keys_sorted(s: Seq<EntryView>) -> bool {
    forall|i: int, j: int| 0 <= i < j < s.len() ==> key_less(#[trigger] s[i].0, #[trigger] s[j].0)
}

/// Some entry has key `k`.
pub open spec fn has_key(s: Seq<EntryView>, k: Seq<char>) -> bool {
    exists|i: int| 0 <= i < s.len() && s[i].0 == k
}

/// The word stored under key `k`.
pub open spec fn lookup(s: Seq<EntryView>, k: Seq<char>) -> Option<WordView> {
    if has_key(s, k) {
        Some(s[choose|i: int| 0 <= i < s.len() && s[i].0 == k].1)
    } else {
        None
    }
}

/// `i` splits the entries into those whose key is below `k` and the rest.
pub open spec fn is_lower_bound(s: Seq<EntryView>, k: Seq<char>, i: int) -> bool {
    &&& 0 <= i <= s.len()
    &&& forall|j: int| 0 <= j < i ==> key_less(#[trigger] s[j].0, k)
    &&& forall|j: int| i <= j < s.len() ==> !key_less(#[trigger] s[j].0, k)
}

/// The position of the first entry whose key is not below `k` (where the
/// range of keys from `k` on starts).
pub open spec fn lower_bound(s: Seq<EntryView>, k: Seq<char>) -> int {
    choose|i: int| is_lower_bound(s, k, i)
}

/// The entries after storing `w` under `k`: the entry with that key is
/// replaced, or a new one is placed where the key belongs.
pub open spec fn store(s: Seq<EntryView>, k: Seq<char>, w: WordView) -> Seq<EntryView> {
    let i = lower_bound(s, k);
    if i < s.len() && s[i].0 == k {
        s.update(i, (k, w))
    } else {
        s.insert(i, (k, w))
    }
}

/// A key has at most one lower bound position.
pub proof fn lemma_lower_bound_unique(s: Seq<EntryView>, k: Seq<char>, i: int, j: int)
    requires
        is_lower_bound(s, k, i),
        is_lower_bound(s, k, j),
    ensures
        i == j,
{
    if i < j {
        assert(key_less(s[i].0, k));
    } else if j < i {
        assert(key_less(s[j].0, k));
    }
}

/// In sorted entries `lower_bound` is the lower bound position of the key.
pub proof fn lemma_lower_bound_exists(s: Seq<EntryView>, k: Seq<char>)
    requires
        keys_sorted(s),
    ensures
        is_lower_bound(s, k, lower_bound(s, k)),
    decreases s.len(),
{
    if s.len() == 0 {
        assert(is_lower_bound(s, k, 0));
    } else {
        let t = s.drop_last();
        lemma_lower_bound_exists(t, k);
        let i = lower_bound(t, k);
        if key_less(s.last().0, k) {
            assert forall|j: int| 0 <= j < s.len() implies key_less(#[trigger] s[j].0, k) by {
                if j < s.len() - 1 {
                    lemma_key_less_transitive(s[j].0, s.last().0, k);
                }
            }
            assert(is_lower_bound(s, k, s.len() as int));
        } else {
            assert(is_lower_bound(s, k, i)) by {
                assert forall|j: int| 0 <= j < i implies key_less(#[trigger] s[j].0, k) by {
                    assert(t[j] == s[j]);
                }
                assert forall|j: int| i <= j < s.len() implies !key_less(#[trigger] s[j].0, k) by {
                    if j < s.len() - 1 {
                        assert(t[j] == s[j]);
                    }
                }
            }
        }
    }
}

/// In sorted entries the key `k`, if present, sits at its lower bound.
pub proof fn lemma_lookup_at_lower_bound(s: Seq<EntryView>, k: Seq<char>)
    requires
        keys_sorted(s),
    ensures
        is_lower_bound(s, k, lower_bound(s, k)),
        has_key(s, k) <==> (lower_bound(s, k) < s.len() && s[lower_bound(s, k)].0 == k),
        has_key(s, k) ==> lookup(s, k) == Some(s[lower_bound(s, k)].1),
{
    lemma_lower_bound_exists(s, k);
    let i = lower_bound(s, k);
    if has_key(s, k) {
        let j = choose|j: int| 0 <= j < s.len() && s[j].0 == k;
        lemma_key_less_irreflexive(k);
        if j < i {
            assert(key_less(s[j].0, k));
        } else if j > i {
            assert(key_less(s[i].0, s[j].0));
            assert(!key_less(s[i].0, k));
            lemma_key_less_total(s[i].0, k);
        }
    }
}

/// Storing keeps the keys sorted, and afterwards `k` finds `w` while every
/// other key finds what it found before.
pub proof fn lemma_store(s: Seq<EntryView>, k: Seq<char>, w: WordView)
    requires
        keys_sorted(s),
    ensures
        keys_sorted(store(s, k, w)),
        lookup(store(s, k, w), k) == Some(w),
        forall|k2: Seq<char>| k2 != k ==> #[trigger] lookup(store(s, k, w), k2) == lookup(s, k2),
{
    lemma_lower_bound_exists(s, k);
    let i = lower_bound(s, k);
    let r = store(s, k, w);
    if i < s.len() && s[i].0 == k {
        assert(keys_sorted(r));
    } else {
        assert(keys_sorted(r)) by {
            assert forall|a: int, b: int| 0 <= a < b < r.len() implies key_less(#[trigger] r[a].0, #[trigger] r[b].0) by {
                if b == i {
                    assert(r[a] == s[a]);
                } else if a == i {
                    assert(r[b] == s[b - 1]);
                    lemma_key_less_total(s[b - 1].0, k);
                    if b - 1 > i {
                        assert(!key_less(s[b - 1].0, k));
                    }
                } else if a < i && b > i {
                    assert(r[a] == s[a]);
                    assert(r[b] == s[b - 1]);
                } else if a > i {
                    assert(r[a] == s[a - 1]);
                    assert(r[b] == s[b - 1]);
                } else {
                    assert(r[a] == s[a]);
                    assert(r[b] == s[b]);
                }
            }
        }
    }
    lemma_lookup_at_lower_bound(r, k);
    lemma_lower_bound_exists(r, k);
    let ri = lower_bound(r, k);
    assert(is_lower_bound(r, k, i)) by {
        assert forall|j: int| 0 <= j < i implies key_less(#[trigger] r[j].0, k) by {
            assert(r[j] == s[j]);
        }
        assert forall|j: int| i <= j < r.len() implies !key_less(#[trigger] r[j].0, k) by {
            lemma_key_less_irreflexive(k);
            if j > i {
                if i < s.len() && s[i].0 == k {
                    assert(r[j] == s[j]);
                } else {
                    assert(r[j] == s[j - 1]);
                }
            }
        }
    }
    lemma_lower_bound_unique(r, k, i, ri);
    assert(r[i].0 == k);
    assert forall|k2: Seq<char>| k2 != k implies #[trigger] lookup(r, k2) == lookup(s, k2) by {
        lemma_lookup_at_lower_bound(s, k2);
        lemma_lookup_at_lower_bound(r, k2);
        if has_key(s, k2) {
            let j = choose|j: int| 0 <= j < s.len() && s[j].0 == k2;
            let j2 = if i < s.len() && s[i].0 == k {
                j
            } else if j < i {
                j
            } else {
                j + 1
            };
            assert(r[j2] == s[j]);
            assert(has_key(r, k2));
            let a = lower_bound(s, k2);
            let b = lower_bound(r, k2);
            if b != j2 {
                if b < j2 {
                    assert(key_less(r[b].0, r[j2].0));
                } else {
                    assert(key_less(r[j2].0, r[b].0));
                }
                lemma_key_less_irreflexive(k2);
            }
            if a != j {
                if a < j {
                    assert(key_less(s[a].0, s[j].0));
                } else {
                    assert(key_less(s[j].0, s[a].0));
                }
                lemma_key_less_irreflexive(k2);
            }
        } else {
            if has_key(r, k2) {
                let j = choose|j: int| 0 <= j < r.len() && r[j].0 == k2;
                if j != i {
                    if i < s.len() && s[i].0 == k {
                        assert(s[j].0 == k2);
                    } else if j < i {
                        assert(s[j].0 == k2);
                    } else {
                        assert(s[j - 1].0 == k2);
                    }
                }
            }
        }
    }
}

/// Words in strictly increasing order of their keys.
pub struct WordMap {
    entries: Vec<(Vec<char>, Word)>,
}

impl View for WordMap {
    type V = Seq<EntryView>;

    closed spec fn view(&self) -> Seq<EntryView> {
        self.entries@.map_values(|e: (Vec<char>, Word)| (e.0@, e.1@))
    }
}

impl WordMap {
    /// The entries are sorted by key.
    pub open spec fn wf(&self) -> bool {
        keys_sorted(self@)
    }

    pub fn new() -> (m: WordMap)
        ensures
            m.wf(),
            m@ == Seq::<EntryView>::empty(),
    {
        let m = WordMap { entries: Vec::new() };
        assert(m@ =~= Seq::<EntryView>::empty());
        m
    }

    pub fn len(&self) -> (n: usize)
        ensures
            n == self@.len(),
    {
        self.entries.len()
    }

    pub fn key_at(&self, i: usize) -> (k: &Vec<char>)
        requires
            i < self@.len(),
        ensures
            k@ == self@[i as int].0,
    {
        &self.entries[i].0
    }

    pub fn word_at(&self, i: usize) -> (w: &Word)
        requires
            i < self@.len(),
        ensures
            w@ == self@[i as int].1,
    {
        &self.entries[i].1
    }

    /// The position of the first entry whose key is not below `key`.
    pub fn lower_bound(&self, key: &[char]) -> (i: usize)
        requires
            self.wf(),
        ensures
            i == lower_bound(self@, key@),
            is_lower_bound(self@, key@, i as int),
    {
        let ghost s = self@;
        let mut lo: usize = 0;
        let mut hi: usize = self.entries.len();
        while lo < hi
            invariant
                s == self@,
                keys_sorted(s),
                0 <= lo <= hi <= s.len(),
                forall|j: int| 0 <= j < lo ==> key_less(#[trigger] s[j].0, key@),
                forall|j: int| hi <= j < s.len() ==> !key_less(#[trigger] s[j].0, key@),
            decreases hi - lo,
        {
            let mid = lo + (hi - lo) / 2;
            assert(s[mid as int].0 == self.entries@[mid as int].0@);
            if compare_keys(self.entries[mid].0.as_slice(), key) == KeyOrder::Less {
                assert forall|j: int| 0 <= j < mid + 1 implies key_less(#[trigger] s[j].0, key@) by {
                    if j < mid {
                        lemma_key_less_transitive(s[j].0, s[mid as int].0, key@);
                    }
                }
                lo = mid + 1;
            } else {
                assert forall|j: int| mid <= j < s.len() implies !key_less(#[trigger] s[j].0, key@) by {
                    if j > mid && key_less(s[j].0, key@) {
                        lemma_key_less_transitive(s[mid as int].0, s[j].0, key@);
                    }
                }
                hi = mid;
            }
        }
        proof {
            lemma_lower_bound_exists(s, key@);
            assert(is_lower_bound(s, key@, lo as int));
            lemma_lower_bound_unique(s, key@, lo as int, lower_bound(s, key@));
        }
        lo
    }

    /// The word stored under `key`.
    pub fn get(&self, key: &[char]) -> (r: Option<&Word>)
        requires
            self.wf(),
        ensures
            match r {
                Some(w) => lookup(self@, key@) == Some(w@),
                None => lookup(self@, key@) is None,
            },
    {
        let i = self.lower_bound(key);
        proof {
            lemma_lookup_at_lower_bound(self@, key@);
        }
        if i < self.entries.len() && compare_keys(self.entries[i].0.as_slice(), key) == KeyOrder::Equal {
            Some(&self.entries[i].1)
        } else {
            None
        }
    }

    /// Stores `word` under `key`, replacing what was stored there.
    pub fn insert(&mut self, key: Vec<char>, word: Word)
        requires
            old(self).wf(),
        ensures
            final(self).wf(),
            final(self)@ == store(old(self)@, key@, word@),
    {
        let ghost s = self@;
        let ghost w = word@;
        let i = self.lower_bound(key.as_slice());
        proof {
            lemma_store(s, key@, w);
        }
        if i < self.entries.len() && compare_keys(self.entries[i].0.as_slice(), key.as_slice()) == KeyOrder::Equal {
            self.entries.set(i, (key, word));
            assert(self@ =~= store(s, key@, w));
        } else {
            let ghost k = key@;
            self.entries.insert(i, (key, word));
            assert(self@ =~= store(s, k, w));
        }
    }
}

} // verus!
