//! Character-level text operations on which the dictionary is built.
//!
//! Strings are modelled by their views, `Seq<char>`.
use vstd::prelude::*;

verus! {

/// The views of a sequence of strings.
pub open spec fn string_views(v: Seq<String>) -> Seq<Seq<char>> {
    v.map_values(|s: String| s@)
}

/// The characters of `s`, in order.
pub fn chars_of(s: &str) -> (v: Vec<char>)
    ensures
        v@ == s@,
{
    let mut v: Vec<char> = Vec::new();
    for c in it: s.chars()
        invariant
            v@ == it.seq().take(it.index() as int),
    {
        v.push(c);
    }
    v
}

/// Calls `String::push`. Claimed, as its documentation says: the string gains
/// `c` at its end.
#[verifier::external_body]
pub(crate) fn push_char(s: &mut String, c: char)
    ensures
        final(s)@ == old(s)@.push(c),
{
    s.push(c);
}

/// The string made of the characters `v`.
pub fn string_of(v: &[char]) -> (s: String)
    ensures
        s@ == v@,
{
    let mut s = String::new();
    for i in 0..v.len()
        invariant
            s@ == v@.take(i as int),
    {
        push_char(&mut s, v[i]);
        assert(v@.take(i + 1) == v@.take(i as int).push(v@[i as int]));
    }
    assert(v@.take(v@.len() as int) == v@);
    s
}

/// Appends the characters of `s`.
pub fn append_str(out: &mut Vec<char>, s: &str)
    ensures
        final(out)@ == old(out)@ + s@,
{
    let c = chars_of(s);
    let ghost start = out@;
    for i in 0..c.len()
        invariant
            c@ == s@,
            out@ == start + c@.take(i as int),
    {
        out.push(c[i]);
        assert(c@.take(i + 1) =~= c@.take(i as int).push(c@[i as int]));
    }
    assert(c@.take(c@.len() as int) =~= c@);
}

/// `a` and `b` hold the same characters.
pub fn chars_equal(a: &[char], b: &[char]) -> (r: bool)
    ensures
        r == (a@ == b@),
{
    if a.len() != b.len() {
        return false;
    }
    for i in 0..a.len()
        invariant
            a@.len() == b@.len(),
            forall|j: int| 0 <= j < i ==> a@[j] == b@[j],
    {
        if a[i] != b[i] {
            return false;
        }
    }
    assert(a@ =~= b@);
    true
}

/// `p` is a prefix of `s`.
pub open spec fn is_prefix(p: Seq<char>, s: Seq<char>) -> bool {
    p.len() <= s.len() && s.take(p.len() as int) == p
}

/// `p` is a suffix of `s`.
pub open spec fn is_suffix(p: Seq<char>, s: Seq<char>) -> bool {
    p.len() <= s.len() && s.skip(s.len() - p.len()) == p
}

/// `p` occurs in `s` starting at position `i`.
pub open spec fn occurs_at(s: Seq<char>, p: Seq<char>, i: int) -> bool {
    0 <= i && i + p.len() <= s.len() && s.subrange(i, i + p.len()) == p
}

/// `p` occurs somewhere in `s`.
pub open spec fn is_infix(p: Seq<char>, s: Seq<char>) -> bool {
    exists|i: int| occurs_at(s, p, i)
}

fn matches_at(s: &[char], p: &[char], start: usize) -> (r: bool)
    requires
        start + p@.len() <= s@.len(),
    ensures
        r == occurs_at(s@, p@, start as int),
{
    let n = s.len();
    for j in 0..p.len()
        invariant
            n == s@.len(),
            start + p@.len() <= s@.len(),
            forall|k: int| 0 <= k < j ==> s@[start + k] == p@[k],
    {
        if s[start + j] != p[j] {
            assert(s@.subrange(start as int, start + p@.len())[j as int] != p@[j as int]);
            return false;
        }
    }
    assert(s@.subrange(start as int, start + p@.len()) =~= p@);
    true
}

/// `s` starts with `p` (`str::starts_with`).
pub fn starts_with(s: &[char], p: &[char]) -> (r: bool)
    ensures
        r == is_prefix(p@, s@),
{
    if p.len() > s.len() {
        return false;
    }
    let r = matches_at(s, p, 0);
    assert(s@.subrange(0, p@.len() as int) == s@.take(p@.len() as int));
    r
}

/// `s` ends with `p` (`str::ends_with`).
pub fn ends_with(s: &[char], p: &[char]) -> (r: bool)
    ensures
        r == is_suffix(p@, s@),
{
    if p.len() > s.len() {
        return false;
    }
    let start = s.len() - p.len();
    let r = matches_at(s, p, start);
    assert(s@.subrange(start as int, s@.len() as int) == s@.skip(start as int));
    r
}

/// `p` occurs in `s` (`str::contains`).
pub fn contains(s: &[char], p: &[char]) -> (r: bool)
    ensures
        r == is_infix(p@, s@),
{
    if p.len() > s.len() {
        return false;
    }
    if p.len() == 0 {
        assert(s@.subrange(0, 0) =~= p@);
        assert(occurs_at(s@, p@, 0));
        return true;
    }
    let n = s.len();
    let last = n - p.len();
    let mut i: usize = 0;
    while i <= last
        invariant
            n == s@.len(),
            last + p@.len() == s@.len(),
            p@.len() > 0,
            i <= last + 1,
            forall|k: int| 0 <= k < i ==> !occurs_at(s@, p@, k),
        decreases last + 1 - i,
    {
        if matches_at(s, p, i) {
            return true;
        }
        i = i + 1;
    }
    assert forall|k: int| !occurs_at(s@, p@, k) by {
        if 0 <= k && k + p@.len() <= s@.len() {
            assert(k < i);
        }
    }
    false
}

/// `a` and `b` agree on their first `i` characters.
pub open spec fn agree_upto(a: Seq<char>, b: Seq<char>, i: int) -> bool {
    forall|j: int| 0 <= j < i ==> a[j] == b[j]
}

/// `a` and `b` first differ at position `i`, where `a` is the smaller: either
/// `a` ends there and `b` goes on, or `a`'s character there has the lower
/// code point.
pub open spec fn less_at(a: Seq<char>, b: Seq<char>, i: int) -> bool {
    &&& 0 <= i <= a.len()
    &&& i < b.len()
    &&& agree_upto(a, b, i)
    &&& (i == a.len() || (a[i] as int) < (b[i] as int))
}

/// Lexicographic order of strings by code point (the order of `String`).
pub open spec fn key_less(a: Seq<char>, b: Seq<char>) -> bool {
    exists|i: int| less_at(a, b, i)
}

/// No key comes before itself.
pub proof fn lemma_key_less_irreflexive(a: Seq<char>)
    ensures
        !key_less(a, a),
{
}

/// Two keys never come each before the other.
pub proof fn lemma_key_less_asymmetric(a: Seq<char>, b: Seq<char>)
    ensures
        !(key_less(a, b) && key_less(b, a)),
{
    if key_less(a, b) && key_less(b, a) {
        let i = choose|i: int| less_at(a, b, i);
        let k = choose|k: int| less_at(b, a, k);
        if i < k {
            assert(a[i] == b[i]);
        } else if k < i {
            assert(a[k] == b[k]);
        }
    }
}

/// Key order is transitive.
pub proof fn lemma_key_less_transitive(a: Seq<char>, b: Seq<char>, c: Seq<char>)
    requires
        key_less(a, b),
        key_less(b, c),
    ensures
        key_less(a, c),
{
    let i = choose|i: int| less_at(a, b, i);
    let k = choose|k: int| less_at(b, c, k);
    if i <= k {
        assert(less_at(a, c, i));
    } else {
        assert(agree_upto(a, c, k));
        assert(a[k] == b[k]);
        assert(less_at(a, c, k));
    }
}

/// The first position where `a` and `b` differ, or the shorter length.
pub open spec fn first_difference(a: Seq<char>, b: Seq<char>, i: int) -> bool {
    &&& 0 <= i <= a.len()
    &&& i <= b.len()
    &&& agree_upto(a, b, i)
    &&& (i == a.len() || i == b.len() || a[i] != b[i])
}

/// Two keys that agree up to `i` have a first position where they differ or one ends.
pub proof fn lemma_first_difference_exists(a: Seq<char>, b: Seq<char>, i: int) -> (k: int)
    requires
        0 <= i <= a.len(),
        i <= b.len(),
        agree_upto(a, b, i),
    ensures
        first_difference(a, b, k),
    decreases a.len() - i,
{
    if i == a.len() || i == b.len() || a[i] != b[i] {
        i
    } else {
        lemma_first_difference_exists(a, b, i + 1)
    }
}

/// Of two different keys, one comes before the other.
pub proof fn lemma_key_less_total(a: Seq<char>, b: Seq<char>)
    ensures
        a == b || key_less(a, b) || key_less(b, a),
{
    let k = lemma_first_difference_exists(a, b, 0);
    if k == a.len() && k == b.len() {
        assert(a =~= b);
    } else if k == a.len() {
        assert(less_at(a, b, k));
    } else if k == b.len() {
        assert(less_at(b, a, k));
    } else if (a[k] as int) < (b[k] as int) {
        assert(less_at(a, b, k));
    } else {
        assert((b[k] as int) < (a[k] as int));
        assert(less_at(b, a, k));
    }
}

/// The outcome of comparing two keys.
#[derive(PartialEq, Eq, Structural, Clone, Copy, Debug)]
pub enum KeyOrder {
    Less,
    Equal,
    Greater,
}

/// Compares two keys by code point, as `String`s compare.
pub fn compare_keys(a: &[char], b: &[char]) -> (o: KeyOrder)
    ensures
        (o == KeyOrder::Less) == key_less(a@, b@),
        (o == KeyOrder::Equal) == (a@ == b@),
        (o == KeyOrder::Greater) == key_less(b@, a@),
{
    let n = if a.len() < b.len() { a.len() } else { b.len() };
    let mut i: usize = 0;
    while i < n
        invariant
            n <= a@.len(),
            n <= b@.len(),
            n == a@.len() || n == b@.len(),
            i <= n,
            agree_upto(a@, b@, i as int),
        decreases n - i,
    {
        if a[i] != b[i] {
            proof {
                lemma_key_less_asymmetric(a@, b@);
            }
            if a[i] < b[i] {
                assert(less_at(a@, b@, i as int));
                return KeyOrder::Less;
            } else {
                assert(less_at(b@, a@, i as int));
                return KeyOrder::Greater;
            }
        }
        i = i + 1;
    }
    proof {
        lemma_key_less_asymmetric(a@, b@);
        lemma_key_less_irreflexive(a@);
    }
    if a.len() < b.len() {
        assert(less_at(a@, b@, i as int));
        KeyOrder::Less
    } else if b.len() < a.len() {
        assert(less_at(b@, a@, i as int));
        KeyOrder::Greater
    } else {
        assert(a@ =~= b@);
        KeyOrder::Equal
    }
}

/// The pieces of `s` between occurrences of `sep` (`str::split` on a
/// character): one more piece than there are separators.
pub open spec fn split_on(s: Seq<char>, sep: char) -> Seq<Seq<char>>
    decreases s.len(),
{
    if s.len() == 0 {
        seq![Seq::<char>::empty()]
    } else {
        let r = split_on(s.drop_last(), sep);
        if s.last() == sep {
            r.push(Seq::<char>::empty())
        } else {
            r.update(r.len() - 1, r.last().push(s.last()))
        }
    }
}

/// The pieces joined with `sep` between them (`[String]::join`).
pub open spec fn join_with(parts: Seq<Seq<char>>, sep: char) -> Seq<char>
    decreases parts.len(),
{
    if parts.len() == 0 {
        Seq::<char>::empty()
    } else if parts.len() == 1 {
        parts[0]
    } else {
        join_with(parts.drop_last(), sep).push(sep) + parts.last()
    }
}

/// A split yields at least one piece.
pub proof fn lemma_split_nonempty(s: Seq<char>, sep: char)
    ensures
        split_on(s, sep).len() >= 1,
    decreases s.len(),
{
    if s.len() > 0 {
        lemma_split_nonempty(s.drop_last(), sep);
    }
}

proof fn lemma_join_extend_last(parts: Seq<Seq<char>>, sep: char, c: char)
    requires
        parts.len() >= 1,
    ensures
        join_with(parts.update(parts.len() - 1, parts.last().push(c)), sep) == join_with(parts, sep).push(c),
{
    let q = parts.update(parts.len() - 1, parts.last().push(c));
    if parts.len() >= 2 {
        assert(q.drop_last() =~= parts.drop_last());
        assert(join_with(q, sep) == join_with(parts.drop_last(), sep).push(sep) + parts.last().push(c));
        assert((join_with(parts.drop_last(), sep).push(sep) + parts.last()).push(c)
            =~= join_with(parts.drop_last(), sep).push(sep) + parts.last().push(c));
    }
}

/// Joining the pieces of a split gives back the string.
pub proof fn lemma_join_split(s: Seq<char>, sep: char)
    ensures
        join_with(split_on(s, sep), sep) == s,
    decreases s.len(),
{
    if s.len() > 0 {
        let init = s.drop_last();
        lemma_join_split(init, sep);
        lemma_split_nonempty(init, sep);
        let r = split_on(init, sep);
        if s.last() == sep {
            let q = r.push(Seq::<char>::empty());
            assert(q.drop_last() =~= r);
            assert(join_with(q, sep) =~= init.push(sep));
        } else {
            lemma_join_extend_last(r, sep, s.last());
        }
        assert(init.push(s.last()) =~= s);
    }
}

proof fn lemma_split_append_plain(x: Seq<char>, l: Seq<char>, sep: char)
    requires
        !l.contains(sep),
    ensures
        split_on(x + l, sep) == {
            let r = split_on(x, sep);
            r.update(r.len() - 1, r.last() + l)
        },
    decreases l.len(),
{
    lemma_split_nonempty(x, sep);
    let r = split_on(x, sep);
    if l.len() == 0 {
        assert(x + l =~= x);
        assert(r.last() + l =~= r.last());
        assert(r.update(r.len() - 1, r.last() + l) =~= r);
    } else {
        let l0 = l.drop_last();
        assert(!l0.contains(sep)) by {
            if l0.contains(sep) {
                let k = choose|k: int| 0 <= k < l0.len() && l0[k] == sep;
                assert(l[k] == sep);
            }
        }
        lemma_split_append_plain(x, l0, sep);
        assert((x + l).drop_last() =~= x + l0);
        assert((x + l).last() == l.last());
        assert(l.last() != sep) by {
            assert(l[l.len() - 1] == l.last());
        }
        let r0 = r.update(r.len() - 1, r.last() + l0);
        assert(r0.update(r0.len() - 1, r0.last().push(l.last())) =~= r.update(
            r.len() - 1,
            r.last() + l,
        )) by {
            assert((r.last() + l0).push(l.last()) =~= r.last() + l);
        }
    }
}

/// Splitting the join of pieces that hold no separator gives back the
/// pieces (there must be at least one: nothing joins to the empty string,
/// which splits into one empty piece).
pub proof fn lemma_split_join(parts: Seq<Seq<char>>, sep: char)
    requires
        parts.len() >= 1,
        forall|i: int| 0 <= i < parts.len() ==> !(#[trigger] parts[i]).contains(sep),
    ensures
        split_on(join_with(parts, sep), sep) == parts,
    decreases parts.len(),
{
    if parts.len() == 1 {
        lemma_split_append_plain(Seq::<char>::empty(), parts[0], sep);
        assert(Seq::<char>::empty() + parts[0] =~= parts[0]);
        assert(Seq::<char>::empty() + parts[0] =~= parts[0]);
        assert(split_on(Seq::<char>::empty(), sep) =~= seq![Seq::<char>::empty()]);
        assert(seq![Seq::<char>::empty()].update(0, Seq::<char>::empty() + parts[0]) =~= parts);
    } else {
        let init = parts.drop_last();
        lemma_split_join(init, sep);
        let a = join_with(init, sep);
        let x = a.push(sep);
        assert(!parts.last().contains(sep)) by {
            assert(parts[parts.len() - 1] == parts.last());
        }
        lemma_split_append_plain(x, parts.last(), sep);
        assert(x.drop_last() =~= a);
        let r = split_on(x, sep);
        assert(r == init.push(Seq::<char>::empty()));
        assert(Seq::<char>::empty() + parts.last() =~= parts.last());
        assert(r.update(r.len() - 1, r.last() + parts.last()) =~= parts);
    }
}

/// The pieces of `s` between occurrences of `sep` (`str::split`).
pub fn split(s: &str, sep: char) -> (parts: Vec<String>)
    ensures
        string_views(parts@) == split_on(s@, sep),
{
    let chars = chars_of(s);
    let mut parts: Vec<String> = Vec::new();
    let mut current: Vec<char> = Vec::new();
    for i in 0..chars.len()
        invariant
            chars@ == s@,
            string_views(parts@).push(current@) == split_on(chars@.take(i as int), sep),
    {
        let ghost before = string_views(parts@);
        proof {
            lemma_split_nonempty(chars@.take(i as int), sep);
            assert(chars@.take(i + 1).drop_last() =~= chars@.take(i as int));
        }
        if chars[i] == sep {
            let piece = string_of(current.as_slice());
            parts.push(piece);
            current = Vec::new();
            assert(string_views(parts@) =~= before.push(piece@));
            assert(string_views(parts@).push(current@) =~= split_on(chars@.take(i + 1), sep));
        } else {
            let ghost old_current = current@;
            current.push(chars[i]);
            assert(string_views(parts@).push(current@) =~= before.push(old_current).update(
                before.len() as int,
                old_current.push(chars@[i as int]),
            ));
        }
    }
    let piece = string_of(current.as_slice());
    let ghost before = string_views(parts@);
    parts.push(piece);
    assert(string_views(parts@) =~= before.push(piece@));
    assert(chars@.take(chars@.len() as int) =~= chars@);
    parts
}

/// The pieces joined with `sep` between them (`[String]::join`).
pub fn join(parts: &Vec<String>, sep: char) -> (s: String)
    ensures
        s@ == join_with(string_views(parts@), sep),
{
    let ghost views = string_views(parts@);
    let mut out: Vec<char> = Vec::new();
    for i in 0..parts.len()
        invariant
            views == string_views(parts@),
            out@ == join_with(views.take(i as int), sep),
    {
        let piece = chars_of(parts[i].as_str());
        let ghost before = out@;
        if i > 0 {
            out.push(sep);
        }
        for j in 0..piece.len()
            invariant
                out@ == (if i > 0 { before.push(sep) } else { before }) + piece@.take(j as int),
        {
            out.push(piece[j]);
            assert(piece@.take(j + 1) =~= piece@.take(j as int).push(piece@[j as int]));
        }
        assert(piece@.take(piece@.len() as int) =~= piece@);
        assert(views.take(i + 1).drop_last() =~= views.take(i as int));
        assert(views.take(i + 1).last() == piece@);
        if i == 0 {
            assert(views.take(1) =~= seq![piece@]);
            assert(Seq::<char>::empty() + piece@ =~= piece@);
        }
    }
    assert(views.take(parts@.len() as int) =~= views);
    string_of(out.as_slice())
}

/// What `unidecode::unidecode` gives for a string: its ASCII transliteration.
pub uninterp spec fn unidecoded(s: Seq<char>) -> Seq<char>;

/// Calls `unidecode::unidecode`, which maps each character of `s` to its ASCII
/// transliteration and concatenates the results. Claimed of it, as the
/// crate's documentation guarantees: the result is named `unidecoded(s@)`, it
/// is ASCII, and every ASCII character is its own transliteration, so an
/// ASCII string comes back unchanged. The transliteration table itself is
/// not stated.
#[verifier::external_body]
pub(crate) fn transliterate(s: &str) -> (r: String)
    ensures
        r@ == unidecoded(s@),
        vstd::utf8::is_ascii_chars(r@),
        vstd::utf8::is_ascii_chars(s@) ==> r@ == s@,
{
    unidecode::unidecode(s)
}

/// What `str::to_lowercase` gives for a string.
pub uninterp spec fn lowercased(s: Seq<char>) -> Seq<char>;

/// Calls `str::to_lowercase`: the string with every character mapped to its
/// Unicode lowercase form (some characters map to several). Only the name of
/// the result, `lowercased(s@)`, is claimed; the case mapping is not stated.
#[verifier::external_body]
pub(crate) fn to_lowercase(s: &str) -> (r: String)
    ensures
        r@ == lowercased(s@),
{
    s.to_lowercase()
}

} // verus!
