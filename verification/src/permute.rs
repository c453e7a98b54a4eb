//! Every arrangement of every subset of the letters of a combination.
use vstd::prelude::*;

use crate::text::{chars_of, key_less, less_at, string_of, string_views};

verus! {

/// The arrangements reached from a partial arrangement `current`, whose
/// letters are the positions of `combo` marked in `used`: `current` itself,
/// then, for each unused position in order, the arrangements that extend
/// `current` with that position's letter.
pub open spec fn arrangement_tree(combo: Seq<char>, used: Seq<bool>, current: Seq<char>) -> Seq<Seq<char>>
    decreases combo.len() - current.len(), combo.len() + 1,
{
    if current.len() >= combo.len() {
        seq![current]
    } else {
        seq![current] + arrangement_branches(combo, used, current, 0)
    }
}

/// The subtrees of `arrangement_tree(combo, used, current)` for the unused
/// positions from `i` on.
pub open spec fn arrangement_branches(combo: Seq<char>, used: Seq<bool>, current: Seq<char>, i: int) -> Seq<Seq<char>>
    decreases combo.len() - current.len(), combo.len() - i,
{
    if i < 0 || i >= combo.len() || i >= used.len() || current.len() >= combo.len() {
        seq![]
    } else if used[i] {
        arrangement_branches(combo, used, current, i + 1)
    } else {
        arrangement_tree(combo, used.update(i, true), current.push(combo[i]))
            + arrangement_branches(combo, used, current, i + 1)
    }
}

/// All arrangements of the letters of `combo`, in the order in which the
/// permutation search yields them, starting with the empty one.
pub open spec fn arrangements(combo: Seq<char>) -> Seq<Seq<char>> {
    arrangement_tree(combo, Seq::new(combo.len(), |i: int| false), seq![])
}

/// The number of arrangements of every subset of `n` distinct positions:
/// the empty one, and for each first position the arrangements of the rest.
pub open spec fn arrangement_count(n: nat) -> nat
    decreases n,
{
    if n == 0 {
        1
    } else {
        1 + n * arrangement_count((n - 1) as nat)
    }
}

/// `positions` picks, for each letter of `s`, a distinct position of `combo`
/// that holds that letter.
pub open spec fn spells(positions: Seq<int>, s: Seq<char>, combo: Seq<char>) -> bool {
    &&& positions.len() == s.len()
    &&& forall|k: int| 0 <= k < positions.len() ==> 0 <= #[trigger] positions[k] < combo.len() && s[k] == combo[positions[k]]
    &&& forall|k1: int, k2: int| 0 <= k1 < k2 < positions.len() ==> #[trigger] positions[k1] != #[trigger] positions[k2]
}

/// `s` is made of letters of `combo`, each taken from its own position.
pub open spec fn is_arrangement_of(s: Seq<char>, combo: Seq<char>) -> bool {
    exists|positions: Seq<int>| spells(positions, s, combo)
}

/// The number of unused positions from `i` on.
pub open spec fn unused_from(used: Seq<bool>, i: int) -> nat
    decreases used.len() - i,
{
    if i < 0 || i >= used.len() {
        0
    } else {
        (if used[i] { 0nat } else { 1nat }) + unused_from(used, i + 1)
    }
}

proof fn lemma_unused_update(used: Seq<bool>, i: int, j: int)
    requires
        0 <= i < used.len(),
        !used[i],
        0 <= j,
    ensures
        j <= i ==> unused_from(used.update(i, true), j) + 1 == unused_from(used, j),
        j > i ==> unused_from(used.update(i, true), j) == unused_from(used, j),
    decreases used.len() - j,
{
    if j < used.len() {
        lemma_unused_update(used, i, j + 1);
    }
}

proof fn lemma_unused_all_false(n: nat, j: int)
    requires
        0 <= j <= n,
    ensures
        unused_from(Seq::new(n, |i: int| false), j) == n - j,
    decreases n - j,
{
    if j < n {
        lemma_unused_all_false(n, j + 1);
    }
}

/// From a partial arrangement that has used all but `m` positions, the
/// search yields `arrangement_count(m)` results.
pub proof fn lemma_tree_len(combo: Seq<char>, used: Seq<bool>, current: Seq<char>)
    requires
        used.len() == combo.len(),
        current.len() + unused_from(used, 0) == combo.len(),
    ensures
        arrangement_tree(combo, used, current).len() == arrangement_count(unused_from(used, 0)),
    decreases combo.len() - current.len(), combo.len() + 1,
{
    if current.len() < combo.len() {
        lemma_branches_len(combo, used, current, 0);
        let m = unused_from(used, 0);
        assert(m >= 1);
    }
}

proof fn lemma_branches_len(combo: Seq<char>, used: Seq<bool>, current: Seq<char>, i: int)
    requires
        used.len() == combo.len(),
        current.len() + unused_from(used, 0) == combo.len(),
        current.len() < combo.len(),
        0 <= i <= combo.len(),
    ensures
        arrangement_branches(combo, used, current, i).len() == unused_from(used, i) * arrangement_count(
            (unused_from(used, 0) - 1) as nat,
        ),
    decreases combo.len() - current.len(), combo.len() - i,
{
    let c = arrangement_count((unused_from(used, 0) - 1) as nat);
    if i < combo.len() {
        lemma_branches_len(combo, used, current, i + 1);
        let a = unused_from(used, i + 1);
        if !used[i] {
            lemma_unused_update(used, i, 0);
            lemma_tree_len(combo, used.update(i, true), current.push(combo[i]));
            assert((1 + a) * c == c + a * c) by (nonlinear_arith);
            assert(unused_from(used, i) == 1 + a);
        } else {
            assert(unused_from(used, i) == a);
        }
    } else {
        assert(unused_from(used, i) == 0);
        assert(0 * c == 0);
    }
}

proof fn lemma_tree_arrangements(combo: Seq<char>, used: Seq<bool>, current: Seq<char>, positions: Seq<int>)
    requires
        used.len() == combo.len(),
        spells(positions, current, combo),
        forall|k: int| 0 <= k < positions.len() ==> used[#[trigger] positions[k]],
    ensures
        forall|j: int| 0 <= j < arrangement_tree(combo, used, current).len()
            ==> is_arrangement_of(#[trigger] arrangement_tree(combo, used, current)[j], combo),
    decreases combo.len() - current.len(), combo.len() + 1,
{
    let t = arrangement_tree(combo, used, current);
    assert(is_arrangement_of(current, combo));
    if current.len() < combo.len() {
        lemma_branches_arrangements(combo, used, current, positions, 0);
        let b = arrangement_branches(combo, used, current, 0);
        assert forall|j: int| 0 <= j < t.len() implies is_arrangement_of(#[trigger] t[j], combo) by {
            if j > 0 {
                assert(t[j] == b[j - 1]);
            }
        }
    }
}

proof fn lemma_branches_arrangements(
    combo: Seq<char>,
    used: Seq<bool>,
    current: Seq<char>,
    positions: Seq<int>,
    i: int,
)
    requires
        used.len() == combo.len(),
        spells(positions, current, combo),
        forall|k: int| 0 <= k < positions.len() ==> used[#[trigger] positions[k]],
        0 <= i,
    ensures
        forall|j: int| 0 <= j < arrangement_branches(combo, used, current, i).len()
            ==> is_arrangement_of(#[trigger] arrangement_branches(combo, used, current, i)[j], combo),
    decreases combo.len() - current.len(), combo.len() - i,
{
    if i < combo.len() && current.len() < combo.len() {
        lemma_branches_arrangements(combo, used, current, positions, i + 1);
        if !used[i] {
            let used2 = used.update(i, true);
            let current2 = current.push(combo[i]);
            let positions2 = positions.push(i);
            assert forall|k: int| 0 <= k < positions2.len() implies used2[#[trigger] positions2[k]] by {
                if k < positions.len() {
                    assert(positions2[k] == positions[k]);
                }
            }
            assert forall|k1: int, k2: int| 0 <= k1 < k2 < positions2.len()
                implies #[trigger] positions2[k1] != #[trigger] positions2[k2] by {
                if k2 == positions.len() {
                    assert(used[positions[k1]]);
                }
            }
            assert(spells(positions2, current2, combo));
            lemma_tree_arrangements(combo, used2, current2, positions2);
            let t = arrangement_tree(combo, used2, current2);
            let rest = arrangement_branches(combo, used, current, i + 1);
            let b = arrangement_branches(combo, used, current, i);
            assert(b == t + rest);
            assert forall|j: int| 0 <= j < b.len() implies is_arrangement_of(#[trigger] b[j], combo) by {
                if j < t.len() {
                    assert(b[j] == t[j]);
                } else {
                    assert(b[j] == rest[j - t.len()]);
                }
            }
        } else {
            assert(arrangement_branches(combo, used, current, i) == arrangement_branches(
                combo,
                used,
                current,
                i + 1,
            ));
        }
    }
}

/// The permutation search yields `arrangement_count(n)` results for a
/// combination of `n` letters: one per arrangement of a subset of positions.
pub proof fn lemma_permute_count(combo: Seq<char>)
    ensures
        arrangements(combo).len() == arrangement_count(combo.len()),
{
    let used = Seq::new(combo.len(), |i: int| false);
    lemma_unused_all_false(combo.len(), 0);
    lemma_tree_len(combo, used, seq![]);
}

/// Every result of the permutation search is an arrangement of letters of the
/// combination, each taken from a distinct position; the first is empty.
pub proof fn lemma_permute_arrangements(combo: Seq<char>)
    ensures
        arrangements(combo).len() >= 1,
        arrangements(combo)[0] == Seq::<char>::empty(),
        forall|j: int| 0 <= j < arrangements(combo).len()
            ==> is_arrangement_of(#[trigger] arrangements(combo)[j], combo),
{
    let used = Seq::new(combo.len(), |i: int| false);
    let positions = Seq::<int>::empty();
    assert(spells(positions, seq![], combo));
    lemma_tree_arrangements(combo, used, seq![], positions);
}

/// The letters at the given positions.
pub open spec fn letters_at(combo: Seq<char>, positions: Seq<int>) -> Seq<char> {
    Seq::new(positions.len(), |k: int| combo[positions[k]])
}

proof fn lemma_branches_hold_subtree(combo: Seq<char>, used: Seq<bool>, current: Seq<char>, i: int, j: int, x: Seq<char>)
    requires
        used.len() == combo.len(),
        current.len() < combo.len(),
        0 <= i <= j < combo.len(),
        !used[j],
        arrangement_tree(combo, used.update(j, true), current.push(combo[j])).contains(x),
    ensures
        arrangement_branches(combo, used, current, i).contains(x),
    decreases j - i,
{
    let b = arrangement_branches(combo, used, current, i);
    if i == j {
        let t = arrangement_tree(combo, used.update(j, true), current.push(combo[j]));
        let rest = arrangement_branches(combo, used, current, i + 1);
        assert(b == t + rest);
        let k = choose|k: int| 0 <= k < t.len() && t[k] == x;
        assert(b[k] == x);
    } else {
        lemma_branches_hold_subtree(combo, used, current, i + 1, j, x);
        let rest = arrangement_branches(combo, used, current, i + 1);
        let k = choose|k: int| 0 <= k < rest.len() && rest[k] == x;
        if used[i] {
            assert(b == rest);
        } else {
            let t = arrangement_tree(combo, used.update(i, true), current.push(combo[i]));
            assert(b == t + rest);
            assert(b[t.len() + k] == x);
        }
    }
}

proof fn lemma_tree_complete(combo: Seq<char>, used: Seq<bool>, current: Seq<char>, positions: Seq<int>)
    requires
        used.len() == combo.len(),
        current.len() + unused_from(used, 0) == combo.len(),
        forall|k: int| 0 <= k < positions.len() ==> 0 <= #[trigger] positions[k] < combo.len() && !used[positions[k]],
        forall|k1: int, k2: int| 0 <= k1 < k2 < positions.len() ==> #[trigger] positions[k1] != #[trigger] positions[k2],
    ensures
        arrangement_tree(combo, used, current).contains(current + letters_at(combo, positions)),
    decreases positions.len(),
{
    let t = arrangement_tree(combo, used, current);
    if positions.len() == 0 {
        assert(current + letters_at(combo, positions) =~= current);
        assert(t[0] == current);
    } else {
        let j = positions[0];
        let used2 = used.update(j, true);
        let current2 = current.push(combo[j]);
        let rest = positions.drop_first();
        lemma_unused_update(used, j, 0);
        assert forall|k: int| 0 <= k < rest.len() implies 0 <= #[trigger] rest[k] < combo.len() && !used2[rest[k]] by {
            assert(rest[k] == positions[k + 1]);
            assert(positions[0] != positions[k + 1]);
        }
        assert forall|k1: int, k2: int| 0 <= k1 < k2 < rest.len() implies #[trigger] rest[k1] != #[trigger] rest[k2] by {
            assert(rest[k1] == positions[k1 + 1] && rest[k2] == positions[k2 + 1]);
        }
        lemma_tree_complete(combo, used2, current2, rest);
        assert(current2 + letters_at(combo, rest) =~= current + letters_at(combo, positions));
        lemma_branches_hold_subtree(combo, used, current, 0, j, current + letters_at(combo, positions));
        let b = arrangement_branches(combo, used, current, 0);
        assert(t == seq![current] + b);
        let k = choose|k: int| 0 <= k < b.len() && b[k] == current + letters_at(combo, positions);
        assert(t[k + 1] == b[k]);
    }
}

/// Every arrangement of letters of the combination, each taken from its
/// own position, is among the results of the permutation search.
pub proof fn lemma_permute_complete(combo: Seq<char>, s: Seq<char>)
    requires
        is_arrangement_of(s, combo),
    ensures
        arrangements(combo).contains(s),
{
    let positions = choose|positions: Seq<int>| spells(positions, s, combo);
    let used = Seq::new(combo.len(), |i: int| false);
    lemma_unused_all_false(combo.len(), 0);
    lemma_tree_complete(combo, used, seq![], positions);
    assert(Seq::<char>::empty() + letters_at(combo, positions) =~= s);
}

/// Each letter of `combo` has a lower code point than the letters after it.
pub open spec fn letters_increasing(combo: Seq<char>) -> bool {
    forall|i: int, j: int| 0 <= i < j < combo.len() ==> (#[trigger] combo[i] as int) < (#[trigger] combo[j] as int)
}

/// Each string comes before the strings after it, in key order.
pub open spec fn strictly_sorted(xs: Seq<Seq<char>>) -> bool {
    forall|i: int, j: int| 0 <= i < j < xs.len() ==> key_less(#[trigger] xs[i], #[trigger] xs[j])
}

proof fn lemma_tree_sorted(combo: Seq<char>, used: Seq<bool>, current: Seq<char>)
    requires
        used.len() == combo.len(),
        letters_increasing(combo),
    ensures
        strictly_sorted(arrangement_tree(combo, used, current)),
        forall|k: int| 0 <= k < arrangement_tree(combo, used, current).len() ==> {
            let x = #[trigger] arrangement_tree(combo, used, current)[k];
            x.len() >= current.len() && x.take(current.len() as int) == current
        },
    decreases combo.len() - current.len(), combo.len() + 1,
{
    let t = arrangement_tree(combo, used, current);
    let n = current.len() as int;
    assert(current.take(n) =~= current);
    if current.len() < combo.len() {
        let b = arrangement_branches(combo, used, current, 0);
        lemma_branches_sorted(combo, used, current, 0);
        assert(t == seq![current] + b);
        assert forall|i: int, j: int| 0 <= i < j < t.len() implies key_less(#[trigger] t[i], #[trigger] t[j]) by {
            if i > 0 {
                assert(t[i] == b[i - 1] && t[j] == b[j - 1]);
            } else {
                let y = b[j - 1];
                assert(t[j] == y);
                assert forall|m: int| 0 <= m < n implies current[m] == y[m] by {
                    assert(y.take(n)[m] == y[m]);
                }
                assert(less_at(current, y, n));
            }
        }
        assert forall|k: int| 0 <= k < t.len() implies {
            let x = #[trigger] t[k];
            x.len() >= n && x.take(n) == current
        } by {
            if k > 0 {
                assert(t[k] == b[k - 1]);
            }
        }
    }
}

proof fn lemma_branches_sorted(combo: Seq<char>, used: Seq<bool>, current: Seq<char>, i: int)
    requires
        used.len() == combo.len(),
        letters_increasing(combo),
        0 <= i,
    ensures
        strictly_sorted(arrangement_branches(combo, used, current, i)),
        forall|k: int| 0 <= k < arrangement_branches(combo, used, current, i).len() ==> {
            let x = #[trigger] arrangement_branches(combo, used, current, i)[k];
            &&& x.len() > current.len()
            &&& x.take(current.len() as int) == current
            &&& exists|j: int| i <= j < combo.len() && x[current.len() as int] == combo[j]
        },
    decreases combo.len() - current.len(), combo.len() - i,
{
    let b = arrangement_branches(combo, used, current, i);
    let n = current.len() as int;
    if i < 0 || i >= combo.len() || i >= used.len() || current.len() >= combo.len() {
    } else if used[i] {
        lemma_branches_sorted(combo, used, current, i + 1);
        let r = arrangement_branches(combo, used, current, i + 1);
        assert forall|k: int| 0 <= k < b.len() implies {
            let x = #[trigger] b[k];
            &&& x.len() > n
            &&& x.take(n) == current
            &&& exists|j: int| i <= j < combo.len() && x[n] == combo[j]
        } by {
            let j = choose|j: int| i + 1 <= j < combo.len() && r[k][n] == combo[j];
        }
    } else {
        let c1 = current.push(combo[i]);
        let t = arrangement_tree(combo, used.update(i, true), c1);
        let r = arrangement_branches(combo, used, current, i + 1);
        lemma_tree_sorted(combo, used.update(i, true), c1);
        lemma_branches_sorted(combo, used, current, i + 1);
        assert(b == t + r);
        assert forall|k: int| 0 <= k < t.len() implies {
            let x = #[trigger] t[k];
            &&& x.len() > n
            &&& x.take(n) == current
            &&& x[n] == combo[i]
        } by {
            let x = t[k];
            assert(x.take(n + 1) == c1);
            assert(x.take(n) =~= x.take(n + 1).take(n));
            assert(c1.take(n) =~= current);
            assert(x[n] == x.take(n + 1)[n]);
        }
        assert forall|k: int| 0 <= k < b.len() implies {
            let x = #[trigger] b[k];
            &&& x.len() > n
            &&& x.take(n) == current
            &&& exists|j: int| i <= j < combo.len() && x[n] == combo[j]
        } by {
            if k < t.len() {
                assert(b[k] == t[k]);
            } else {
                assert(b[k] == r[k - t.len()]);
                let j = choose|j: int| i + 1 <= j < combo.len() && r[k - t.len()][n] == combo[j];
            }
        }
        assert forall|p: int, q: int| 0 <= p < q < b.len() implies key_less(#[trigger] b[p], #[trigger] b[q]) by {
            if q < t.len() {
                assert(b[p] == t[p] && b[q] == t[q]);
            } else if p >= t.len() {
                assert(b[p] == r[p - t.len()] && b[q] == r[q - t.len()]);
            } else {
                let x = t[p];
                let y = r[q - t.len()];
                assert(b[p] == x && b[q] == y);
                let j = choose|j: int| i + 1 <= j < combo.len() && y[n] == combo[j];
                assert forall|m: int| 0 <= m < n implies x[m] == y[m] by {
                    assert(x.take(n)[m] == x[m]);
                    assert(y.take(n)[m] == y[m]);
                }
                assert(less_at(x, y, n));
            }
        }
    }
}

/// When each letter of the combination has a lower code point than the
/// letters after it, the permutation search yields its results in strictly
/// increasing key order.
pub proof fn lemma_permute_sorted(combo: Seq<char>)
    requires
        letters_increasing(combo),
    ensures
        strictly_sorted(arrangements(combo)),
{
    lemma_tree_sorted(combo, Seq::new(combo.len(), |i: int| false), seq![]);
}

/// Generates the arrangements of the letters of a combination.
pub struct PermuteCombo {
    combo: String,
}

impl PermuteCombo {
    /// The combination whose letters are arranged.
    pub closed spec fn combo(&self) -> Seq<char> {
        self.combo@
    }

    pub fn new(combo: String) -> (p: PermuteCombo)
        ensures
            p.combo() == combo@,
    {
        PermuteCombo { combo }
    }

    /// Every arrangement of every subset of the combination's letters (one
    /// per choice of positions, so repeated letters give repeated results),
    /// in depth-first order, starting with the empty string.
    pub fn permute(&self) -> (result: Vec<String>)
        ensures
            string_views(result@) == arrangements(self.combo()),
    {
        let mut result: Vec<String> = Vec::new();
        let mut current: Vec<char> = Vec::new();
        let letters = chars_of(self.combo.as_str());
        let mut used: Vec<bool> = Vec::new();
        for i in 0..letters.len()
            invariant
                used@.len() == i,
                forall|j: int| 0 <= j < i ==> !used@[j],
        {
            used.push(false);
        }
        assert(used@ =~= Seq::new(letters@.len(), |i: int| false));
        self.build_permutations(&letters, &mut result, &mut current, &mut used);
        assert(string_views(result@) =~= Seq::<Seq<char>>::empty() + arrangements(self.combo()));
        result
    }

    fn build_permutations(
        &self,
        letters: &Vec<char>,
        result: &mut Vec<String>,
        current: &mut Vec<char>,
        used: &mut Vec<bool>,
    )
        requires
            old(used)@.len() >= letters@.len(),
            old(current)@.len() <= letters@.len(),
        ensures
            final(used)@ == old(used)@,
            final(current)@ == old(current)@,
            string_views(final(result)@) == string_views(old(result)@) + arrangement_tree(
                letters@,
                old(used)@,
                old(current)@,
            ),
        decreases letters@.len() - old(current)@.len(), letters@.len() + 1,
    {
        let ghost used0 = used@;
        let ghost current0 = current@;
        let ghost result0 = string_views(result@);
        let word = string_of(current.as_slice());
        result.push(word);
        assert(string_views(result@) =~= result0 + seq![current0]);
        if current.len() >= letters.len() {
            return;
        }
        let n = letters.len();
        for i in 0..n
            invariant
                n == letters@.len(),
                used@ == used0,
                current@ == current0,
                used0.len() >= n,
                current0.len() < n,
                current0 == old(current)@,
                string_views(result@) + arrangement_branches(letters@, used0, current0, i as int)
                    == result0 + arrangement_tree(letters@, used0, current0),
        {
            if !used[i] {
                let ghost before = string_views(result@);
                used.set(i, true);
                current.push(letters[i]);
                self.build_permutations(letters, result, current, used);
                used.set(i, false);
                current.pop();
                assert(used@ =~= used0);
                assert(current@ =~= current0);
                assert(string_views(result@) + arrangement_branches(letters@, used0, current0, i + 1)
                    =~= before + arrangement_branches(letters@, used0, current0, i as int));
            }
        }
        assert(string_views(result@) =~= result0 + arrangement_tree(letters@, used0, current0));
    }
}

} // verus!
