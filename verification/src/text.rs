//! Character-level building blocks: classification of characters, conversion
//! between strings and character vectors, splitting and trimming.

use vstd::prelude::*;

verus! {

/// What `char::is_numeric` answers for a character: whether its Unicode
/// general category is one of the number categories (`Nd`, `Nl`, `No`).
pub uninterp spec fn is_unicode_numeric(c: char) -> bool;

/// What `char::is_whitespace` answers for a character: whether it has the
/// Unicode property `White_Space`.
pub uninterp spec fn is_unicode_whitespace(c: char) -> bool;

/// `char::is_numeric` reports membership in the Unicode number categories.
/// The decimal digits `0` to `9` belong to them; nothing else is claimed.
pub assume_specification[ char::is_numeric ](c: char) -> (r: bool)
    ensures
        r == is_unicode_numeric(c),
        '0' <= c <= '9' ==> r,
;

/// `char::is_whitespace` reports whether the character has the Unicode
/// property `White_Space`.
pub assume_specification[ char::is_whitespace ](c: char) -> (r: bool)
    ensures
        r == is_unicode_whitespace(c),
;

/// `String::push` appends one character to the end of the string.
pub assume_specification[ String::push ](s: &mut String, c: char)
    ensures
        final(s)@ == old(s)@.push(c),
;

/// An ASCII decimal digit.
pub open spec fn is_digit(c: char) -> bool {
    '0' <= c <= '9'
}

/// An ASCII letter of either case.
pub open spec fn is_letter(c: char) -> bool {
    ('a' <= c <= 'z') || ('A' <= c <= 'Z')
}

/// A character that may appear in an identifier: an ASCII letter, an ASCII
/// digit or the underscore.
pub open spec fn is_word_char(c: char) -> bool {
    is_letter(c) || is_digit(c) || c == '_'
}

/// The identifier grammar: a letter or an underscore, followed by any number
/// of letters, digits and underscores.
pub open spec fn is_identifier(s: Seq<char>) -> bool {
    &&& s.len() > 0
    &&& (is_letter(s[0]) || s[0] == '_')
    &&& forall|i: int| 0 <= i < s.len() ==> is_word_char(#[trigger] s[i])
}

/// Every character of `s` may appear in an identifier.
pub open spec fn all_word_chars(s: Seq<char>) -> bool {
    forall|i: int| 0 <= i < s.len() ==> is_word_char(#[trigger] s[i])
}

/// Tells whether `c` is an ASCII decimal digit.
pub fn char_is_digit(c: char) -> (r: bool)
    ensures
        r == is_digit(c),
{
    '0' <= c && c <= '9'
}

/// Tells whether `c` may appear in an identifier.
pub fn char_is_word(c: char) -> (r: bool)
    ensures
        r == is_word_char(c),
{
    ('a' <= c && c <= 'z') || ('A' <= c && c <= 'Z') || ('0' <= c && c <= '9') || c == '_'
}

/// Tells whether every character of `s` may appear in an identifier.
pub fn only_word_chars(s: &[char]) -> (r: bool)
    ensures
        r == all_word_chars(s@),
{
    let mut i: usize = 0;
    while i < s.len()
        invariant
            i <= s.len(),
            forall|j: int| 0 <= j < i ==> is_word_char(#[trigger] s@[j]),
        decreases s.len() - i,
    {
        if !char_is_word(s[i]) {
            return false;
        }
        i += 1;
    }
    true
}

/// The characters of `s`, in order.
pub fn chars_of(s: &str) -> (v: Vec<char>)
    ensures
        v@ == s@,
{
    let mut v: Vec<char> = Vec::new();
    for c in it: s.chars()
        invariant
            it.seq() == s@,
            v@ == s@.take(it.index()),
    {
        v.push(c);
    }
    assert(v@ == s@.take(s@.len() as int));
    v
}

/// The string made of the characters of `v`, in order.
pub fn string_of(v: &[char]) -> (s: String)
    ensures
        s@ == v@,
{
    let mut s = String::new();
    let mut i: usize = 0;
    while i < v.len()
        invariant
            i <= v.len(),
            s@ == v@.take(i as int),
        decreases v.len() - i,
    {
        s.push(v[i]);
        i += 1;
    }
    assert(s@ == v@.take(v@.len() as int));
    s
}

/// Appends the characters of `tail` to `out`.
pub fn push_all(out: &mut Vec<char>, tail: &[char])
    ensures
        final(out)@ == old(out)@ + tail@,
{
    let mut i: usize = 0;
    while i < tail.len()
        invariant
            i <= tail.len(),
            out@ == old(out)@ + tail@.take(i as int),
        decreases tail.len() - i,
    {
        out.push(tail[i]);
        i += 1;
    }
    assert(tail@.take(tail@.len() as int) == tail@);
}

/// A copy of the characters of `s` from position `from` up to `to`.
pub fn copy_range(s: &[char], from: usize, to: usize) -> (v: Vec<char>)
    requires
        from <= to <= s.len(),
    ensures
        v@ == s@.subrange(from as int, to as int),
{
    let mut v: Vec<char> = Vec::new();
    let mut i: usize = from;
    while i < to
        invariant
            from <= i <= to <= s.len(),
            v@ == s@.subrange(from as int, i as int),
        decreases to - i,
    {
        v.push(s[i]);
        i += 1;
    }
    v
}

/// Tells whether two character sequences hold the same characters.
pub fn same_chars(a: &[char], b: &[char]) -> (r: bool)
    ensures
        r == (a@ == b@),
{
    if a.len() != b.len() {
        return false;
    }
    let mut i: usize = 0;
    while i < a.len()
        invariant
            i <= a.len(),
            a.len() == b.len(),
            forall|j: int| 0 <= j < i ==> a@[j] == b@[j],
        decreases a.len() - i,
    {
        if a[i] != b[i] {
            return false;
        }
        i += 1;
    }
    assert(a@ =~= b@);
    true
}

/// Tells whether `a` holds exactly the characters of the string `b`.
pub fn chars_are(a: &[char], b: &str) -> (r: bool)
    ensures
        r == (a@ == b@),
{
    let mut i: usize = 0;
    for c in it: b.chars()
        invariant
            it.seq() == b@,
            i == it.index(),
            i <= a.len(),
            forall|j: int| 0 <= j < i ==> a@[j] == b@[j],
    {
        if i >= a.len() || a[i] != c {
            return false;
        }
        i += 1;
    }
    if i != a.len() {
        return false;
    }
    assert(a@ =~= b@);
    true
}

/// The position of the first character of `s` that is `a` or `b`, or the
/// length of `s` where there is none.
pub open spec fn first_of(s: Seq<char>, a: char, b: char) -> int
    decreases s.len(),
{
    if s.len() == 0 || s[0] == a || s[0] == b {
        0
    } else {
        1 + first_of(s.skip(1), a, b)
    }
}

/// Finds the first character at or after `from` that is `a` or `b`.
pub fn find_first(s: &[char], from: usize, a: char, b: char) -> (k: usize)
    requires
        from <= s.len(),
    ensures
        from <= k <= s.len(),
        k == from + first_of(s@.skip(from as int), a, b),
{
    let mut k: usize = from;
    while k < s.len() && s[k] != a && s[k] != b
        invariant
            from <= k <= s.len(),
            from + first_of(s@.skip(from as int), a, b) == k + first_of(s@.skip(k as int), a, b),
        decreases s.len() - k,
    {
        assert(s@.skip(k as int).skip(1) =~= s@.skip(k + 1));
        k += 1;
    }
    k
}

/// The pieces of `s` between occurrences of the delimiter `d`. A sequence
/// with `n` delimiters has `n + 1` pieces, some of which may be empty.
pub open spec fn split_on(s: Seq<char>, d: char) -> Seq<Seq<char>>
    decreases s.len(),
{
    if s.len() == 0 {
        seq![Seq::<char>::empty()]
    } else {
        let before = split_on(s.drop_last(), d);
        if s.last() == d {
            before.push(Seq::<char>::empty())
        } else {
            before.drop_last().push(before.last().push(s.last()))
        }
    }
}

/// There is always at least one piece, and no piece holds the delimiter.
pub proof fn law_split_pieces(s: Seq<char>, d: char)
    ensures
        split_on(s, d).len() >= 1,
        forall|k: int, i: int|
            0 <= k < split_on(s, d).len() && 0 <= i < split_on(s, d)[k].len() ==> (
            #[trigger] split_on(s, d)[k][i]) != d,
    decreases s.len(),
{
    if s.len() > 0 {
        let before = split_on(s.drop_last(), d);
        let pieces = split_on(s, d);
        law_split_pieces(s.drop_last(), d);
        assert forall|k: int, i: int|
            0 <= k < pieces.len() && 0 <= i < pieces[k].len() implies (#[trigger] pieces[k][i])
            != d by {
            if k < before.len() - 1 {
                assert(pieces[k] == before[k]);
            } else if s.last() != d && i < before.last().len() {
                assert(pieces[k][i] == before.last()[i]);
            }
        }
    }
}

/// The views of the vectors of `v`, in order.
pub open spec fn views_of(v: Seq<Vec<char>>) -> Seq<Seq<char>> {
    v.map_values(|p: Vec<char>| p@)
}

/// Splits `s` at every occurrence of `d`.
pub fn split_chars(s: &[char], d: char) -> (pieces: Vec<Vec<char>>)
    ensures
        views_of(pieces@) == split_on(s@, d),
{
    let mut pieces: Vec<Vec<char>> = Vec::new();
    let mut current: Vec<char> = Vec::new();
    let mut i: usize = 0;
    assert(s@.take(0) =~= Seq::<char>::empty());
    assert(views_of(pieces@).push(current@) =~= split_on(s@.take(0), d));
    while i < s.len()
        invariant
            i <= s.len(),
            views_of(pieces@).push(current@) == split_on(s@.take(i as int), d),
        decreases s.len() - i,
    {
        let ghost before = split_on(s@.take(i as int), d);
        proof {
            assert(s@.take(i + 1).drop_last() =~= s@.take(i as int));
            assert(before.last() == current@);
            assert(before.drop_last() =~= views_of(pieces@));
        }
        if s[i] == d {
            pieces.push(current);
            current = Vec::new();
            assert(views_of(pieces@) =~= before);
        } else {
            current.push(s[i]);
        }
        i += 1;
    }
    assert(s@.take(s@.len() as int) =~= s@);
    pieces.push(current);
    assert(views_of(pieces@) =~= split_on(s@, d));
    pieces
}

/// `s` without its leading whitespace.
pub open spec fn trimmed_start(s: Seq<char>) -> Seq<char>
    decreases s.len(),
{
    if s.len() > 0 && is_unicode_whitespace(s[0]) {
        trimmed_start(s.skip(1))
    } else {
        s
    }
}

/// `s` without its trailing whitespace.
pub open spec fn trimmed_end(s: Seq<char>) -> Seq<char>
    decreases s.len(),
{
    if s.len() > 0 && is_unicode_whitespace(s.last()) {
        trimmed_end(s.drop_last())
    } else {
        s
    }
}

/// `s` without its leading and trailing whitespace.
pub open spec fn trimmed(s: Seq<char>) -> Seq<char> {
    trimmed_end(trimmed_start(s))
}

/// Removes leading and trailing whitespace.
pub fn trim_chars(s: &[char]) -> (v: Vec<char>)
    ensures
        v@ == trimmed(s@),
{
    let mut from: usize = 0;
    assert(s@.skip(0) =~= s@);
    while from < s.len() && s[from].is_whitespace()
        invariant
            from <= s.len(),
            trimmed_start(s@) == trimmed_start(s@.skip(from as int)),
        decreases s.len() - from,
    {
        assert(s@.skip(from as int).skip(1) =~= s@.skip(from + 1));
        from += 1;
    }
    let ghost rest = s@.skip(from as int);
    assert(trimmed_start(s@) == rest);
    let mut to: usize = s.len();
    assert(s@.subrange(from as int, to as int) =~= rest);
    while to > from && s[to - 1].is_whitespace()
        invariant
            from <= to <= s.len(),
            trimmed_end(rest) == trimmed_end(s@.subrange(from as int, to as int)),
        decreases to - from,
    {
        assert(s@.subrange(from as int, to as int).drop_last() =~= s@.subrange(
            from as int,
            to - 1,
        ));
        to -= 1;
    }
    copy_range(s, from, to)
}

} // verus!
