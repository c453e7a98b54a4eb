//! Random combinations of distinct letters to play with.
use vstd::prelude::*;
use rand::Rng;

use crate::text::chars_of;

verus! {

/// The consonants a combination is drawn from.
pub const COMBO_CONSONANTS_CHARACTERS: &'static str = "bcdfghjklmnpqrstvwxyz";
/// The vowels a combination is drawn from.
pub const COMBO_VOCALS_CHARACTERS: &'static str = "aeiou";

/// Calls `rand::Rng::gen_range(0..n)` on the thread's generator: a number
/// below `n`, at random (which one is not stated). `gen_range` panics on an
/// empty range, hence `n > 0`.
#[verifier::external_body]
pub(crate) fn random_below(n: usize) -> (r: usize)
    requires
        n > 0,
    ensures
        r < n,
{
    rand::thread_rng().gen_range(0..n)
}

/// A letter a combination may hold.
pub open spec fn combo_letter(c: char) -> bool {
    COMBO_CONSONANTS_CHARACTERS@.contains(c) || COMBO_VOCALS_CHARACTERS@.contains(c)
}

/// The number of letters a combination gets: at most as many as there are
/// letters to draw from.
pub open spec fn combo_target(length: i8) -> i8 {
    let limit = COMBO_CONSONANTS_CHARACTERS@.len() + COMBO_VOCALS_CHARACTERS@.len();
    if length > limit {
        limit as i8
    } else {
        length
    }
}

/// The number of letters a combination of the asked length gets.
pub fn combo_length(length: i8) -> (r: i8)
    ensures
        r == combo_target(length),
        r <= 26,
{
    let consonants = chars_of(COMBO_CONSONANTS_CHARACTERS);
    let vocals = chars_of(COMBO_VOCALS_CHARACTERS);
    proof {
        reveal_strlit("bcdfghjklmnpqrstvwxyz");
        reveal_strlit("aeiou");
    }
    let limit = consonants.len() + vocals.len();
    if length as i64 > limit as i64 {
        limit as i8
    } else {
        length
    }
}

/// The letters a draw of `mode` picks from: the vowels for a mode above one,
/// else the consonants.
pub open spec fn combo_chain(mode: int) -> Seq<char> {
    if mode > 1 {
        COMBO_VOCALS_CHARACTERS@
    } else {
        COMBO_CONSONANTS_CHARACTERS@
    }
}

/// The letter picked by the draws `mode` (one of four) and `index` (a
/// position among the letters that `mode` picks from).
pub fn combo_character(mode: usize, index: usize) -> (c: char)
    requires
        mode < 4,
        index < combo_chain(mode as int).len(),
    ensures
        c == combo_chain(mode as int)[index as int],
{
    let chain = if mode > 1 {
        chars_of(COMBO_VOCALS_CHARACTERS)
    } else {
        chars_of(COMBO_CONSONANTS_CHARACTERS)
    };
    chain[index]
}

/// A random letter: a vowel one time in two, else a consonant, each letter
/// of its kind equally likely (the draws themselves are not stated): the
/// letter `combo_character` picks for a mode below four and an index among
/// that mode's letters.
pub fn get_random_combo_character() -> (c: char)
    ensures
        exists|m: int, i: int| 0 <= m < 4 && 0 <= i < combo_chain(m).len() && c == combo_chain(m)[i],
        combo_letter(c),
{
    let mode = random_below(4);
    proof {
        reveal_strlit("bcdfghjklmnpqrstvwxyz");
        reveal_strlit("aeiou");
    }
    let count = if mode > 1 {
        chars_of(COMBO_VOCALS_CHARACTERS).len()
    } else {
        chars_of(COMBO_CONSONANTS_CHARACTERS).len()
    };
    let index = random_below(count);
    let c = combo_character(mode, index);
    assert(combo_chain(mode as int).contains(c));
    c
}

/// Adds `c` to the combination unless it is there already; tells whether
/// it did.
pub fn add_combo_character(combo: &mut String, c: char) -> (added: bool)
    ensures
        added == !old(combo)@.contains(c),
        final(combo)@ == (if added { old(combo)@.push(c) } else { old(combo)@ }),
{
    let letters = chars_of(combo.as_str());
    let mut i: usize = 0;
    while i < letters.len()
        invariant
            letters@ == combo@,
            i <= letters@.len(),
            forall|j: int| 0 <= j < i ==> letters@[j] != c,
        decreases letters@.len() - i,
    {
        if letters[i] == c {
            assert(combo@.contains(c));
            return false;
        }
        i = i + 1;
    }
    crate::text::push_char(combo, c);
    true
}

/// One draw towards a random combination: a random letter joins it unless
/// it holds it already; tells whether it joined. So a combination that holds
/// no letter yet always grows. A combination of distinct letters stays one.
pub fn get_random_combo_step(combo: &mut String) -> (added: bool)
    ensures
        exists|c: char|
            combo_letter(c) && added == !old(combo)@.contains(c) && final(combo)@ == (if added {
                old(combo)@.push(c)
            } else {
                old(combo)@
            }),
        old(combo)@.no_duplicates() ==> final(combo)@.no_duplicates(),
{
    let c = get_random_combo_character();
    let added = add_combo_character(combo, c);
    proof {
        if added && old(combo)@.no_duplicates() {
            let s = old(combo)@.push(c);
            assert forall|i: int, j: int| 0 <= i < s.len() && 0 <= j < s.len() && i != j implies s[i] != s[j] by {
                if i == s.len() - 1 {
                    assert(old(combo)@[j] == s[j]);
                } else if j == s.len() - 1 {
                    assert(old(combo)@[i] == s[i]);
                }
            }
        }
        assert(combo_letter(c) && added == !old(combo)@.contains(c));
    }
    added
}

} // verus!
