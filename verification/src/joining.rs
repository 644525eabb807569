//! Joining pieces of text with a separator.

use itertools::Itertools;
use vstd::prelude::*;

use crate::decimal::{
    all_digits, decimal, decimal_chars, lemma_decimal_digits, lemma_decimal_value,
};
use crate::record::texts_of;
use crate::text::{is_digit, law_split_pieces, split_on, string_of};

verus! {

/// The pieces of `parts` in order, with `sep` between neighbours.
pub open spec fn joined_with(parts: Seq<Seq<char>>, sep: Seq<char>) -> Seq<char>
    decreases parts.len(),
{
    if parts.len() == 0 {
        Seq::empty()
    } else if parts.len() == 1 {
        parts[0]
    } else {
        joined_with(parts.drop_last(), sep) + sep + parts.last()
    }
}

/// The decimal notations of `ids`, in order.
pub open spec fn decimals(ids: Seq<u32>) -> Seq<Seq<char>> {
    ids.map_values(|id: u32| decimal(id as nat))
}

/// `Itertools::join` on an iterator over strings: the strings in order,
/// each as it stands, with `sep` between neighbours, and the empty string
/// where there are none.
#[verifier::external_body]
pub(crate) fn join_texts(parts: &Vec<String>, sep: &str) -> (r: String)
    ensures
        r@ == joined_with(texts_of(parts@), sep@),
{
    parts.iter().join(sep)
}

/// The decimal notations of `ids`, each as a string.
pub fn decimal_texts(ids: &Vec<u32>) -> (r: Vec<String>)
    ensures
        texts_of(r@) == decimals(ids@),
{
    let mut r: Vec<String> = Vec::new();
    let mut i: usize = 0;
    while i < ids.len()
        invariant
            i <= ids.len(),
            r@.len() == i,
            forall|j: int| 0 <= j < i ==> (#[trigger] r@[j])@ == decimal(ids@[j] as nat),
        decreases ids.len() - i,
    {
        let digits = decimal_chars(ids[i]);
        r.push(string_of(digits.as_slice()));
        i += 1;
    }
    assert(texts_of(r@) =~= decimals(ids@));
    r
}

/// The ids in decimal notation, with `sep` between neighbours.
pub fn join_ids(ids: &Vec<u32>, sep: &str) -> (r: String)
    ensures
        r@ == joined_with(decimals(ids@), sep@),
{
    let texts = decimal_texts(ids);
    join_texts(&texts, sep)
}

/// The ids in decimal notation, joined by underscores.
pub open spec fn underscored(ids: Seq<u32>) -> Seq<char> {
    joined_with(decimals(ids), seq!['_'])
}

/// The ids joined by underscores are made of digits and underscores, and
/// where there is an id, the text begins with a digit.
pub proof fn lemma_underscored_shape(ids: Seq<u32>)
    ensures
        forall|i: int|
            0 <= i < underscored(ids).len() ==> is_digit(#[trigger] underscored(ids)[i])
                || underscored(ids)[i] == '_',
        ids.len() > 0 ==> underscored(ids).len() > 0 && is_digit(underscored(ids)[0]),
    decreases ids.len(),
{
    if ids.len() == 1 {
        lemma_decimal_digits(ids[0] as nat);
    } else if ids.len() > 1 {
        let front = ids.drop_last();
        lemma_underscored_shape(front);
        lemma_decimal_digits(ids.last() as nat);
        assert(decimals(ids).drop_last() =~= decimals(front));
        let head = underscored(front);
        let tail = decimal(ids.last() as nat);
        assert(underscored(ids) == head + seq!['_'] + tail);
        assert forall|i: int| 0 <= i < underscored(ids).len() implies is_digit(
            #[trigger] underscored(ids)[i],
        ) || underscored(ids)[i] == '_' by {
            if i < head.len() {
                assert(underscored(ids)[i] == head[i]);
            } else if i > head.len() {
                assert(underscored(ids)[i] == tail[i - head.len() - 1]);
            }
        }
        assert(underscored(ids)[0] == head[0]);
    }
}

/// Two texts that end in an underscore and a run of digits are equal only
/// if the runs are equal and what stands before the underscore is equal.
proof fn lemma_split_at_last_underscore(
    x: Seq<char>,
    d1: Seq<char>,
    y: Seq<char>,
    d2: Seq<char>,
)
    requires
        all_digits(d1),
        all_digits(d2),
        x + seq!['_'] + d1 == y + seq!['_'] + d2,
    ensures
        x == y,
        d1 == d2,
{
    let left = x + seq!['_'] + d1;
    let right = y + seq!['_'] + d2;
    assert(left.len() == right.len());
    if d1.len() < d2.len() {
        let at = x.len() as int;
        assert(left[at] == '_');
        assert(right[at] == d2[at - y.len() - 1]);
        assert(is_digit(d2[at - y.len() - 1]));
    } else if d2.len() < d1.len() {
        let at = y.len() as int;
        assert(right[at] == '_');
        assert(left[at] == d1[at - x.len() - 1]);
        assert(is_digit(d1[at - x.len() - 1]));
    }
    assert(x =~= y) by {
        assert forall|i: int| 0 <= i < x.len() implies x[i] == y[i] by {
            assert(left[i] == x[i]);
            assert(right[i] == y[i]);
        }
    }
    assert(d1 =~= d2) by {
        assert forall|i: int| 0 <= i < d1.len() implies d1[i] == d2[i] by {
            assert(left[x.len() + 1 + i] == d1[i]);
            assert(right[y.len() + 1 + i] == d2[i]);
        }
    }
}

/// The ids can be read back from their text: different ids give different
/// texts.
pub proof fn lemma_underscored_injective(a: Seq<u32>, b: Seq<u32>)
    requires
        underscored(a) == underscored(b),
    ensures
        a == b,
    decreases a.len(),
{
    lemma_underscored_shape(a);
    lemma_underscored_shape(b);
    if a.len() == 0 || b.len() == 0 {
        assert(a =~= b);
    } else {
        lemma_decimal_digits(a.last() as nat);
        lemma_decimal_digits(b.last() as nat);
        lemma_decimal_value(a.last() as nat);
        lemma_decimal_value(b.last() as nat);
        let af = a.drop_last();
        let bf = b.drop_last();
        assert(decimals(a).drop_last() =~= decimals(af));
        assert(decimals(b).drop_last() =~= decimals(bf));
        if a.len() == 1 && b.len() == 1 {
            assert(a =~= b);
        } else if a.len() == 1 {
            let at = underscored(bf).len() as int;
            assert(underscored(b) == underscored(bf) + seq!['_'] + decimal(b.last() as nat));
            assert(underscored(b)[at] == '_');
            assert(is_digit(underscored(a)[at]));
        } else if b.len() == 1 {
            let at = underscored(af).len() as int;
            assert(underscored(a) == underscored(af) + seq!['_'] + decimal(a.last() as nat));
            assert(underscored(a)[at] == '_');
            assert(is_digit(underscored(b)[at]));
        } else {
            lemma_split_at_last_underscore(
                underscored(af),
                decimal(a.last() as nat),
                underscored(bf),
                decimal(b.last() as nat),
            );
            lemma_underscored_injective(af, bf);
            assert(a =~= af.push(a.last()));
            assert(b =~= bf.push(b.last()));
        }
    }
}

/// Splitting loses nothing: the pieces of a text, joined again with the
/// delimiter between them, are the text.
pub proof fn law_split_rejoins(s: Seq<char>, d: char)
    ensures
        joined_with(split_on(s, d), seq![d]) == s,
    decreases s.len(),
{
    if s.len() == 0 {
        assert(joined_with(split_on(s, d), seq![d]) =~= s);
    } else {
        let front = s.drop_last();
        let before = split_on(front, d);
        let pieces = split_on(s, d);
        law_split_rejoins(front, d);
        law_split_pieces(front, d);
        let sep = seq![d];
        assert(joined_with(before, sep) == front);
        assert(front.push(s.last()) =~= s);
        if s.last() == d {
            assert(pieces.drop_last() =~= before);
            assert(pieces.last() =~= Seq::<char>::empty());
            assert(joined_with(pieces, sep) == front + sep + Seq::<char>::empty());
            assert(front + sep + Seq::<char>::empty() =~= s);
        } else if before.len() == 1 {
            assert(pieces.len() == 1);
            assert(before[0] == front);
            assert(pieces[0] == before.last().push(s.last()));
        } else {
            assert(pieces.len() == before.len());
            assert(pieces.drop_last() =~= before.drop_last());
            assert(pieces.last() == before.last().push(s.last()));
            let head = joined_with(before.drop_last(), sep);
            assert(front == head + sep + before.last());
            assert(joined_with(pieces, sep) == head + sep + before.last().push(s.last()));
            assert(head + sep + before.last().push(s.last()) =~= (head + sep + before.last()).push(
                s.last(),
            ));
        }
    }
}

} // verus!
