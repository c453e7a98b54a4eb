//! Decimal text of integers and of flags, as `to_string` and `parse` read
//! and write them, and whitespace trimming.
use vstd::prelude::*;

use crate::text::{chars_of, string_of};

verus! {

/// The character of a decimal digit.
pub open spec fn digit_char(d: nat) -> char {
    ((48 + d) as u8) as char
}

/// The decimal digits of `n`, most significant first, without leading zeros.
pub open spec fn decimal(n: nat) -> Seq<char>
    decreases n,
{
    if n < 10 {
        seq![digit_char(n)]
    } else {
        decimal(n / 10).push(digit_char(n % 10))
    }
}

/// The decimal text of `n`, with a leading `-` when negative.
pub open spec fn signed_decimal(n: int) -> Seq<char> {
    if n < 0 {
        seq!['-'] + decimal((-n) as nat)
    } else {
        decimal(n as nat)
    }
}

fn push_decimal(n: u128, out: &mut Vec<char>)
    ensures
        final(out)@ == old(out)@ + decimal(n as nat),
    decreases n,
{
    if n >= 10 {
        push_decimal(n / 10, out);
    }
    let d: u8 = (n % 10) as u8;
    let c = (48u8 + d) as char;
    out.push(c);
    proof {
        if n >= 10 {
            assert(out@ =~= old(out)@ + decimal((n / 10) as nat).push(digit_char((n % 10) as nat)));
        } else {
            assert(out@ =~= old(out)@ + seq![digit_char(n as nat)]);
        }
    }
}

/// The decimal text of an unsigned number (`u128::to_string`).
pub fn u128_to_string(n: u128) -> (s: String)
    ensures
        s@ == decimal(n as nat),
{
    let mut out: Vec<char> = Vec::new();
    push_decimal(n, &mut out);
    assert(out@ =~= decimal(n as nat));
    string_of(out.as_slice())
}

/// The decimal text of a signed number (`i64::to_string`).
pub fn i64_to_string(n: i64) -> (s: String)
    ensures
        s@ == signed_decimal(n as int),
{
    let mut out: Vec<char> = Vec::new();
    if n < 0 {
        out.push('-');
        let m: i128 = -(n as i128);
        push_decimal(m as u128, &mut out);
        assert(out@ =~= seq!['-'] + decimal((-n) as nat));
    } else {
        push_decimal(n as u128, &mut out);
        assert(out@ =~= decimal(n as nat));
    }
    string_of(out.as_slice())
}

/// An ASCII decimal digit.
pub open spec fn is_digit(c: char) -> bool {
    '0' <= c <= '9'
}

/// The value of the digits `s`, most significant first.
pub open spec fn digits_value(s: Seq<char>) -> nat
    decreases s.len(),
{
    if s.len() == 0 {
        0
    } else {
        digits_value(s.drop_last()) * 10 + ((s.last() as int - 48) as nat)
    }
}

/// `s` is one or more ASCII digits.
pub open spec fn all_digits(s: Seq<char>) -> bool {
    s.len() > 0 && forall|i: int| 0 <= i < s.len() ==> is_digit(#[trigger] s[i])
}

proof fn lemma_digit_char(k: nat)
    requires
        k < 10,
    ensures
        digit_char(k) as int == 48 + k,
        is_digit(digit_char(k)),
{
    if k == 0 {
    } else if k == 1 {
    } else if k == 2 {
    } else if k == 3 {
    } else if k == 4 {
    } else if k == 5 {
    } else if k == 6 {
    } else if k == 7 {
    } else if k == 8 {
    } else {
        assert(k == 9);
    }
}

proof fn lemma_decimal_digits(n: nat)
    ensures
        all_digits(decimal(n)),
        digits_value(decimal(n)) == n,
        decimal(n)[0] != '+' && decimal(n)[0] != '-',
    decreases n,
{
    lemma_digit_char(n % 10);
    if n < 10 {
        let d = decimal(n);
        assert(d.drop_last() =~= Seq::<char>::empty());
        assert(digits_value(Seq::<char>::empty()) == 0);
        assert(d.last() == digit_char(n));
    } else {
        lemma_decimal_digits(n / 10);
        let d = decimal(n);
        assert(d.last() == digit_char(n % 10));
        assert((n / 10) * 10 + n % 10 == n);
        assert(d.drop_last() =~= decimal(n / 10));
        assert(d[0] == decimal(n / 10)[0]);
        assert forall|i: int| 0 <= i < d.len() implies is_digit(#[trigger] d[i]) by {
            if i < d.len() - 1 {
                assert(d[i] == decimal(n / 10)[i]);
            }
        }
    }
}

/// Reading back the decimal text of a number gives the number, for every
/// type whose range holds it.
pub proof fn lemma_decimal_round_trip(n: int, min: int, max: int)
    requires
        min <= n <= max,
        min <= 0,
    ensures
        parsed_signed(signed_decimal(n), min, max) == Some(n),
        n >= 0 ==> parsed_unsigned(signed_decimal(n), max) == Some(n),
{
    if n < 0 {
        lemma_decimal_digits((-n) as nat);
        let s = signed_decimal(n);
        assert(s.drop_first() =~= decimal((-n) as nat));
    } else {
        lemma_decimal_digits(n as nat);
    }
}

/// The digits of an unsigned number's text: after an optional `+`.
pub open spec fn unsigned_digits(s: Seq<char>) -> Seq<char> {
    if s.len() > 0 && s[0] == '+' {
        s.drop_first()
    } else {
        s
    }
}

/// The number an unsigned integer type with maximum `max` reads from `s`
/// (`str::parse`): an optional `+`, then decimal digits of a value up to
/// `max`; anything else is refused.
pub open spec fn parsed_unsigned(s: Seq<char>, max: int) -> Option<int> {
    let d = unsigned_digits(s);
    if all_digits(d) && digits_value(d) <= max {
        Some(digits_value(d) as int)
    } else {
        None
    }
}

/// The number a signed integer type with range `min..=max` reads from `s`
/// (`str::parse`): `-` then digits, or what an unsigned type reads.
pub open spec fn parsed_signed(s: Seq<char>, min: int, max: int) -> Option<int> {
    if s.len() > 0 && s[0] == '-' {
        let d = s.drop_first();
        if all_digits(d) && -(digits_value(d) as int) >= min {
            Some(-(digits_value(d) as int))
        } else {
            None
        }
    } else {
        parsed_unsigned(s, max)
    }
}

/// The value of the digits of `s` from `start` on, when they are all digits
/// (at least one) and the value is at most `limit`.
fn digits_upto(s: &[char], start: usize, limit: u64) -> (r: Option<u64>)
    requires
        start <= s@.len(),
    ensures
        match r {
            Some(v) => all_digits(s@.skip(start as int)) && digits_value(s@.skip(start as int)) <= limit
                && v == digits_value(s@.skip(start as int)),
            None => !(all_digits(s@.skip(start as int)) && digits_value(s@.skip(start as int)) <= limit),
        },
{
    let ghost d = s@.skip(start as int);
    let n = s.len();
    if start == n {
        return None;
    }
    let mut value: u64 = 0;
    let mut over = false;
    let mut i = start;
    while i < n
        invariant
            n == s@.len(),
            d == s@.skip(start as int),
            start <= i <= n,
            forall|j: int| 0 <= j < i - start ==> is_digit(#[trigger] d[j]),
            !over ==> value == digits_value(d.take(i - start)) && value <= limit,
            over ==> digits_value(d.take(i - start)) > limit,
        decreases n - i,
    {
        let c = s[i];
        assert(c == d[i - start]);
        if !(c >= '0' && c <= '9') {
            assert(!all_digits(d));
            return None;
        }
        let ghost prev = d.take(i - start);
        assert(d.take(i + 1 - start).drop_last() =~= prev);
        assert(d.take(i + 1 - start).last() == c);
        let dv: u64 = (c as u32 - 48) as u64;
        if !over {
            if dv > limit {
                over = true;
                assert(value * 10 + dv > limit) by (nonlinear_arith)
                    requires
                        dv > limit,
                        value >= 0,
                ;
            } else if value > (limit - dv) / 10 {
                over = true;
                assert(value * 10 + dv > limit) by (nonlinear_arith)
                    requires
                        value > (limit - dv) / 10,
                        dv <= limit,
                ;
            } else {
                assert(value * 10 + dv <= limit) by (nonlinear_arith)
                    requires
                        value <= (limit - dv) / 10,
                        dv <= limit,
                ;
                value = value * 10 + dv;
            }
        } else {
            assert(digits_value(prev) * 10 + dv >= digits_value(prev)) by (nonlinear_arith);
        }
        i = i + 1;
    }
    assert(d.take(n - start) =~= d);
    if over {
        None
    } else {
        Some(value)
    }
}

/// The number a `u16` reads from `s` (`str::parse::<u16>`).
pub fn parse_u16(s: &str) -> (r: Option<u16>)
    ensures
        match r {
            Some(v) => parsed_unsigned(s@, u16::MAX as int) == Some(v as int),
            None => parsed_unsigned(s@, u16::MAX as int) is None,
        },
{
    let c = chars_of(s);
    let start: usize = if c.len() > 0 && c[0] == '+' { 1 } else { 0 };
    assert(c@.skip(start as int) == unsigned_digits(s@));
    match digits_upto(c.as_slice(), start, u16::MAX as u64) {
        Some(v) => Some(v as u16),
        None => None,
    }
}

/// The number an `i64` reads from `s` (`str::parse::<i64>`).
pub fn parse_i64(s: &str) -> (r: Option<i64>)
    ensures
        match r {
            Some(v) => parsed_signed(s@, i64::MIN as int, i64::MAX as int) == Some(v as int),
            None => parsed_signed(s@, i64::MIN as int, i64::MAX as int) is None,
        },
{
    let c = chars_of(s);
    if c.len() > 0 && c[0] == '-' {
        assert(c@.skip(1) == s@.drop_first());
        match digits_upto(c.as_slice(), 1, 9223372036854775808u64) {
            Some(v) => {
                let w: i128 = -(v as i128);
                Some(w as i64)
            },
            None => None,
        }
    } else {
        let start: usize = if c.len() > 0 && c[0] == '+' { 1 } else { 0 };
        assert(c@.skip(start as int) == unsigned_digits(s@));
        match digits_upto(c.as_slice(), start, i64::MAX as u64) {
            Some(v) => Some(v as i64),
            None => None,
        }
    }
}

/// A Unicode `White_Space` character (`char::is_whitespace`).
pub open spec fn is_whitespace(c: char) -> bool {
    ||| ('\t' <= c <= '\r')
    ||| c == ' '
    ||| c == '\u{85}'
    ||| c == '\u{a0}'
    ||| c == '\u{1680}'
    ||| ('\u{2000}' <= c <= '\u{200a}')
    ||| c == '\u{2028}'
    ||| c == '\u{2029}'
    ||| c == '\u{202f}'
    ||| c == '\u{205f}'
    ||| c == '\u{3000}'
}

fn whitespace(c: char) -> (r: bool)
    ensures
        r == is_whitespace(c),
{
    (c >= '\t' && c <= '\r') || c == ' ' || c == '\u{85}' || c == '\u{a0}' || c == '\u{1680}' || (c
        >= '\u{2000}' && c <= '\u{200a}') || c == '\u{2028}' || c == '\u{2029}' || c == '\u{202f}' || c
        == '\u{205f}' || c == '\u{3000}'
}

/// `s` without its leading whitespace.
pub open spec fn trim_start(s: Seq<char>) -> Seq<char>
    decreases s.len(),
{
    if s.len() > 0 && is_whitespace(s[0]) {
        trim_start(s.drop_first())
    } else {
        s
    }
}

/// `s` without its trailing whitespace.
pub open spec fn trim_end(s: Seq<char>) -> Seq<char>
    decreases s.len(),
{
    if s.len() > 0 && is_whitespace(s.last()) {
        trim_end(s.drop_last())
    } else {
        s
    }
}

/// `s` without leading and trailing whitespace (`str::trim`).
pub open spec fn trimmed(s: Seq<char>) -> Seq<char> {
    trim_end(trim_start(s))
}

/// `s` without leading and trailing whitespace (`str::trim`).
pub fn trim(s: &[char]) -> (r: Vec<char>)
    ensures
        r@ == trimmed(s@),
{
    let n = s.len();
    let mut a: usize = 0;
    assert(s@.skip(0) =~= s@);
    while a < n && whitespace(s[a])
        invariant
            n == s@.len(),
            a <= n,
            trim_start(s@) == trim_start(s@.skip(a as int)),
        decreases n - a,
    {
        assert(s@.skip(a as int).drop_first() =~= s@.skip(a + 1));
        a = a + 1;
    }
    let ghost t = s@.skip(a as int);
    assert(trim_start(s@) == t);
    let mut b: usize = n;
    while b > a && whitespace(s[b - 1])
        invariant
            n == s@.len(),
            a <= b <= n,
            t == s@.skip(a as int),
            trim_end(t) == trim_end(s@.subrange(a as int, b as int)),
        decreases b - a,
    {
        assert(s@.subrange(a as int, b as int).drop_last() =~= s@.subrange(a as int, b - 1));
        b = b - 1;
    }
    assert(s@.skip(a as int) =~= s@.subrange(a as int, n as int));
    let mut r: Vec<char> = Vec::new();
    let mut i = a;
    while i < b
        invariant
            a <= i <= b <= n,
            n == s@.len(),
            r@ == s@.subrange(a as int, i as int),
        decreases b - i,
    {
        r.push(s[i]);
        assert(s@.subrange(a as int, i + 1) =~= s@.subrange(a as int, i as int).push(s@[i as int]));
        i = i + 1;
    }
    r
}

/// The flag a `bool` reads from `s` (`str::parse::<bool>`): exactly `true`
/// or `false`.
pub open spec fn parsed_bool(s: Seq<char>) -> Option<bool> {
    if s == seq!['t', 'r', 'u', 'e'] {
        Some(true)
    } else if s == seq!['f', 'a', 'l', 's', 'e'] {
        Some(false)
    } else {
        None
    }
}

/// The flag read from `s` after trimming it.
pub fn parse_trimmed_bool(s: &str) -> (r: Option<bool>)
    ensures
        r == parsed_bool(trimmed(s@)),
{
    let c = chars_of(s);
    let t = trim(c.as_slice());
    let yes = vec!['t', 'r', 'u', 'e'];
    let no = vec!['f', 'a', 'l', 's', 'e'];
    assert(yes@ =~= seq!['t', 'r', 'u', 'e']);
    assert(no@ =~= seq!['f', 'a', 'l', 's', 'e']);
    if crate::text::chars_equal(t.as_slice(), yes.as_slice()) {
        Some(true)
    } else if crate::text::chars_equal(t.as_slice(), no.as_slice()) {
        Some(false)
    } else {
        None
    }
}

} // verus!
