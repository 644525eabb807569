//! The identity merge: records that stand for the same coin become one
//! record that carries every id of the coin.

use vstd::prelude::*;

use crate::ids::{add_ids, lemma_with_ids, lemma_with_ids_of_distinct, with_ids};
use crate::record::{coins_of, text_of, Coin, CoinRecord};

verus! {

/// Two records stand for the same coin when they agree on symbol,
/// normalized name and display name.
pub open spec fn same_coin(a: Coin, b: Coin) -> bool {
    a.symbol == b.symbol && a.name == b.name && a.original_name == b.original_name
}

/// The record `c` after it has taken in the ids `more`: the ids it had
/// stay in their order, the new ones follow in theirs.
pub open spec fn joined(c: Coin, more: Seq<u32>) -> Coin {
    Coin { ids: with_ids(c.ids, more), ..c }
}

/// The position of the first record of `acc` that stands for the coin of
/// `r`, or the length of `acc` where none does.
pub open spec fn position_of(acc: Seq<Coin>, r: Coin) -> int
    decreases acc.len(),
{
    if acc.len() == 0 || same_coin(acc[0], r) {
        0
    } else {
        1 + position_of(acc.skip(1), r)
    }
}

/// The merged records `acc` after the record `r` has been taken in: the
/// record of its coin takes the ids of `r`, or, where `acc` has none, `r`
/// itself joins at the end.
pub open spec fn absorbed(acc: Seq<Coin>, r: Coin) -> Seq<Coin> {
    let p = position_of(acc, r);
    if p < acc.len() {
        acc.update(p, joined(acc[p], r.ids))
    } else {
        acc.push(joined(Coin { ids: Seq::empty(), ..r }, r.ids))
    }
}

/// The identity merge of `records`: one record per coin, in the order in
/// which the coins first appear, each with the fields of the coin's first
/// record and the ids of all of them, in the order in which they first
/// appear.
pub open spec fn merged(records: Seq<Coin>) -> Seq<Coin>
    decreases records.len(),
{
    if records.len() == 0 {
        Seq::empty()
    } else {
        absorbed(merged(records.drop_last()), records.last())
    }
}

/// Tells whether two optional strings hold the same text, or are both
/// absent.
pub fn same_symbol(a: &Option<String>, b: &Option<String>) -> (r: bool)
    ensures
        r == (text_of(*a) == text_of(*b)),
{
    match a {
        Some(x) => match b {
            Some(y) => {
                let same = *x == *y;
                assert(same == (x@ == y@));
                same
            },
            None => false,
        },
        None => b.is_none(),
    }
}

/// Tells whether two records stand for the same coin.
pub fn is_same_coin(a: &CoinRecord, b: &CoinRecord) -> (r: bool)
    ensures
        r == same_coin(a@, b@),
{
    same_symbol(&a.symbol, &b.symbol) && a.name == b.name && a.original_name == b.original_name
}

/// Finds the record of the coin of `r` among the merged records.
pub fn find_coin(acc: &Vec<CoinRecord>, r: &CoinRecord) -> (p: usize)
    ensures
        p <= acc.len(),
        p == position_of(coins_of(acc@), r@),
{
    let ghost all = coins_of(acc@);
    let mut p: usize = 0;
    assert(all.skip(0) =~= all);
    while p < acc.len()
        invariant
            p <= acc.len(),
            all == coins_of(acc@),
            position_of(all, r@) == p + position_of(all.skip(p as int), r@),
        decreases acc.len() - p,
    {
        assert(all.skip(p as int)[0] == acc@[p as int]@);
        if is_same_coin(&acc[p], r) {
            return p;
        }
        assert(all.skip(p as int).skip(1) =~= all.skip(p + 1));
        p += 1;
    }
    p
}

/// Takes the record `r` into the merged records `acc`.
pub fn absorb(acc: &mut Vec<CoinRecord>, r: &CoinRecord)
    ensures
        coins_of(final(acc)@) == absorbed(coins_of(old(acc)@), r@),
{
    let ghost before = coins_of(acc@);
    let p = find_coin(acc, r);
    let found = p < acc.len();
    let mut c = if found {
        acc[p].duplicate()
    } else {
        let mut fresh = r.duplicate();
        fresh.ids = Vec::new();
        fresh
    };
    let ghost start = c@;
    assert(start == if found {
        before[p as int]
    } else {
        Coin { ids: Seq::empty(), ..r@ }
    }) by {
        if found {
            assert(before[p as int] == acc@[p as int]@);
        } else {
            assert(c@.ids =~= Seq::<u32>::empty());
        }
    }
    add_ids(&mut c.ids, &r.ids);
    assert(c@ == joined(start, r@.ids));
    if found {
        acc.set(p, c);
        assert(coins_of(acc@) =~= before.update(p as int, c@));
    } else {
        acc.push(c);
        assert(coins_of(acc@) =~= before.push(c@));
    }
}

/// The identity merge: groups the records by coin and gives each coin one
/// record, in the order in which the coins first appear.
pub fn merge_records(records: Vec<CoinRecord>) -> (out: Vec<CoinRecord>)
    ensures
        coins_of(out@) == merged(coins_of(records@)),
{
    let mut out: Vec<CoinRecord> = Vec::new();
    let ghost all = coins_of(records@);
    let mut i: usize = 0;
    assert(all.take(0) =~= Seq::<Coin>::empty());
    assert(coins_of(out@) =~= merged(all.take(0)));
    while i < records.len()
        invariant
            i <= records.len(),
            all == coins_of(records@),
            coins_of(out@) == merged(all.take(i as int)),
        decreases records.len() - i,
    {
        proof {
            assert(all.take(i + 1).drop_last() =~= all.take(i as int));
            assert(all.take(i + 1).last() == records@[i as int]@);
        }
        absorb(&mut out, &records[i]);
        i += 1;
    }
    assert(all.take(all.len() as int) =~= all);
    out
}

/// No two records of `s` stand for the same coin.
pub open spec fn distinct_coins(s: Seq<Coin>) -> bool {
    forall|i: int, j: int| 0 <= i < j < s.len() ==> !same_coin(#[trigger] s[i], #[trigger] s[j])
}

/// No record of `s` has an id twice.
pub open spec fn ids_once(s: Seq<Coin>) -> bool {
    forall|i: int| 0 <= i < s.len() ==> (#[trigger] s[i]).ids.no_duplicates()
}

/// Whether a record of `s` stands for the coin of `c`.
pub open spec fn has_coin(s: Seq<Coin>, c: Coin) -> bool {
    exists|k: int| 0 <= k < s.len() && same_coin(#[trigger] s[k], c)
}

/// Whether a record of `s` that stands for the coin of `c` has the id `x`.
pub open spec fn coin_has_id(s: Seq<Coin>, c: Coin, x: u32) -> bool {
    exists|k: int| 0 <= k < s.len() && same_coin(#[trigger] s[k], c) && s[k].ids.contains(x)
}

/// Whether a record of `s` has the id `x`.
pub open spec fn has_id(s: Seq<Coin>, x: u32) -> bool {
    exists|k: int| 0 <= k < s.len() && (#[trigger] s[k]).ids.contains(x)
}

/// The ids of all records of `s`.
pub open spec fn all_ids(s: Seq<Coin>) -> Set<u32> {
    Set::new(|x: u32| has_id(s, x))
}

/// `position_of` lies within the sequence, no earlier record stands for
/// the coin of `r`, and the record at it, if there is one, does.
pub proof fn lemma_position_of(acc: Seq<Coin>, r: Coin)
    ensures
        0 <= position_of(acc, r) <= acc.len(),
        forall|j: int| 0 <= j < position_of(acc, r) ==> !same_coin(#[trigger] acc[j], r),
        position_of(acc, r) < acc.len() ==> same_coin(acc[position_of(acc, r)], r),
    decreases acc.len(),
{
    if !(acc.len() == 0 || same_coin(acc[0], r)) {
        let rest = acc.skip(1);
        lemma_position_of(rest, r);
        assert forall|j: int| 0 <= j < position_of(acc, r) implies !same_coin(
            #[trigger] acc[j],
            r,
        ) by {
            if j > 0 {
                assert(acc[j] == rest[j - 1]);
            }
        }
    }
}

/// What the merge gives: no two of its records stand for the same coin,
/// no record has an id twice, every merged record stands for the coin of
/// some record of the input, and every record of the input has its coin
/// among the merged records.
pub proof fn lemma_merged_coins(records: Seq<Coin>)
    ensures
        distinct_coins(merged(records)),
        ids_once(merged(records)),
        forall|i: int|
            0 <= i < merged(records).len() ==> has_coin(records, #[trigger] merged(records)[i]),
        forall|k: int| 0 <= k < records.len() ==> has_coin(merged(records), #[trigger] records[k]),
    decreases records.len(),
{
    if records.len() > 0 {
        let front = records.drop_last();
        let r = records.last();
        let prev = merged(front);
        let m = merged(records);
        let p = position_of(prev, r);
        lemma_merged_coins(front);
        lemma_position_of(prev, r);
        if p < prev.len() {
            lemma_with_ids(prev[p].ids, r.ids);
            assert forall|i: int| 0 <= i < m.len() implies same_coin(#[trigger] m[i], prev[i]) by {}
            assert(distinct_coins(m)) by {
                assert forall|i: int, j: int| 0 <= i < j < m.len() implies !same_coin(
                    #[trigger] m[i],
                    #[trigger] m[j],
                ) by {
                    assert(same_coin(m[i], prev[i]));
                    assert(same_coin(m[j], prev[j]));
                    assert(!same_coin(prev[i], prev[j]));
                }
            }
            assert forall|i: int| 0 <= i < m.len() implies (#[trigger] m[i]).ids.no_duplicates() by {
                if i != p {
                    assert(m[i] == prev[i]);
                }
            }
            assert forall|i: int| 0 <= i < m.len() implies has_coin(records, #[trigger] m[i]) by {
                assert(has_coin(front, prev[i]));
                let k = choose|k: int| 0 <= k < front.len() && same_coin(#[trigger] front[k], prev[i]);
                assert(records[k] == front[k]);
                assert(same_coin(records[k], m[i]));
            }
            assert forall|k: int| 0 <= k < records.len() implies has_coin(
                m,
                #[trigger] records[k],
            ) by {
                if k < front.len() {
                    assert(records[k] == front[k]);
                    assert(has_coin(prev, front[k]));
                    let i = choose|i: int| 0 <= i < prev.len() && same_coin(#[trigger] prev[i], front[k]);
                    assert(same_coin(m[i], records[k]));
                } else {
                    assert(same_coin(m[p], records[k]));
                }
            }
        } else {
            let fresh = Coin { ids: Seq::empty(), ..r };
            assert(fresh.ids.no_duplicates());
            lemma_with_ids(fresh.ids, r.ids);
            assert forall|i: int| 0 <= i < prev.len() implies m[i] == prev[i] by {}
            assert(same_coin(m[prev.len() as int], r));
            assert(distinct_coins(m)) by {
                assert forall|i: int, j: int| 0 <= i < j < m.len() implies !same_coin(
                    #[trigger] m[i],
                    #[trigger] m[j],
                ) by {
                    if j < prev.len() {
                        assert(!same_coin(prev[i], prev[j]));
                    } else {
                        assert(!same_coin(prev[i], r));
                    }
                }
            }
            assert forall|i: int| 0 <= i < m.len() implies (#[trigger] m[i]).ids.no_duplicates() by {
                if i < prev.len() {
                    assert(m[i] == prev[i]);
                }
            }
            assert forall|i: int| 0 <= i < m.len() implies has_coin(records, #[trigger] m[i]) by {
                if i < prev.len() {
                    assert(has_coin(front, prev[i]));
                    let k = choose|k: int| 0 <= k < front.len() && same_coin(#[trigger] front[k], prev[i]);
                    assert(records[k] == front[k]);
                    assert(same_coin(records[k], m[i]));
                } else {
                    assert(same_coin(records[records.len() - 1], m[i]));
                }
            }
            assert forall|k: int| 0 <= k < records.len() implies has_coin(
                m,
                #[trigger] records[k],
            ) by {
                if k < front.len() {
                    assert(records[k] == front[k]);
                    assert(has_coin(prev, front[k]));
                    let i = choose|i: int| 0 <= i < prev.len() && same_coin(#[trigger] prev[i], front[k]);
                    assert(same_coin(m[i], records[k]));
                } else {
                    assert(same_coin(m[prev.len() as int], records[k]));
                }
            }
        }
    }
}

/// The position at which no earlier record stands for the coin of `r`,
/// and at which a record, if there is one, does, is `position_of`.
pub proof fn lemma_position_is(acc: Seq<Coin>, r: Coin, k: int)
    requires
        0 <= k <= acc.len(),
        forall|j: int| 0 <= j < k ==> !same_coin(#[trigger] acc[j], r),
        k < acc.len() ==> same_coin(acc[k], r),
    ensures
        position_of(acc, r) == k,
{
    lemma_position_of(acc, r);
    let p = position_of(acc, r);
    if p < k {
        assert(!same_coin(acc[p], r));
    }
}

/// Every merged record carries the fields of the first record of its coin,
/// and the merged records stand in the order in which their coins first
/// appear among the records.
pub proof fn law_merged_representatives(records: Seq<Coin>)
    ensures
        forall|i: int|
            0 <= i < merged(records).len() ==> {
                let first = position_of(records, #[trigger] merged(records)[i]);
                &&& 0 <= first < records.len()
                &&& merged(records)[i] == Coin { ids: merged(records)[i].ids, ..records[first] }
            },
        forall|i: int, j: int|
            0 <= i < j < merged(records).len() ==> position_of(
                records,
                #[trigger] merged(records)[i],
            ) < position_of(records, #[trigger] merged(records)[j]),
    decreases records.len(),
{
    if records.len() > 0 {
        let front = records.drop_last();
        let r = records.last();
        let prev = merged(front);
        let m = merged(records);
        let p = position_of(prev, r);
        law_merged_representatives(front);
        lemma_merged_coins(front);
        lemma_position_of(prev, r);
        assert forall|i: int| 0 <= i < prev.len() implies position_of(records, #[trigger] prev[i])
            == position_of(front, prev[i]) by {
            let first = position_of(front, prev[i]);
            lemma_position_of(front, prev[i]);
            assert forall|j: int| 0 <= j < first implies !same_coin(
                #[trigger] records[j],
                prev[i],
            ) by {
                assert(records[j] == front[j]);
            }
            assert(records[first] == front[first]);
            lemma_position_is(records, prev[i], first);
        }
        assert forall|i: int| 0 <= i < prev.len() implies position_of(records, #[trigger] m[i])
            == position_of(records, prev[i]) by {
            assert(same_coin(m[i], prev[i]));
            lemma_position_of(records, prev[i]);
            let first = position_of(records, prev[i]);
            assert forall|j: int| 0 <= j < first implies !same_coin(
                #[trigger] records[j],
                m[i],
            ) by {
                assert(!same_coin(records[j], prev[i]));
            }
            lemma_position_is(records, m[i], first);
        }
        if p == prev.len() {
            let last = records.len() - 1;
            assert(same_coin(m[p], r));
            assert forall|j: int| 0 <= j < last implies !same_coin(#[trigger] records[j], m[p]) by {
                assert(records[j] == front[j]);
                assert(has_coin(prev, front[j]));
                let q = choose|q: int| 0 <= q < prev.len() && same_coin(#[trigger] prev[q], front[j]);
                assert(!same_coin(prev[q], r));
            }
            assert(same_coin(records[last], m[p]));
            lemma_position_is(records, m[p], last);
        }
        assert forall|i: int| 0 <= i < m.len() implies {
            let first = position_of(records, #[trigger] m[i]);
            &&& 0 <= first < records.len()
            &&& m[i] == Coin { ids: m[i].ids, ..records[first] }
        } by {
            if i < prev.len() {
                let first = position_of(front, prev[i]);
                assert(position_of(records, m[i]) == first);
                assert(records[first] == front[first]);
                assert(prev[i] == Coin { ids: prev[i].ids, ..front[first] });
            }
        }
        assert forall|i: int, j: int| 0 <= i < j < m.len() implies position_of(
            records,
            #[trigger] m[i],
        ) < position_of(records, #[trigger] m[j]) by {
            if j < prev.len() {
                assert(position_of(front, prev[i]) < position_of(front, prev[j]));
            } else {
                assert(position_of(records, m[i]) == position_of(front, prev[i]));
                assert(position_of(front, prev[i]) < front.len());
            }
        }
    }
}

/// Records that the merge could have left are left as they are: where no
/// two records stand for the same coin and no record has an id twice, the
/// merge changes nothing.
pub proof fn lemma_merged_fixed(s: Seq<Coin>)
    requires
        distinct_coins(s),
        ids_once(s),
    ensures
        merged(s) == s,
    decreases s.len(),
{
    if s.len() > 0 {
        let front = s.drop_last();
        let r = s.last();
        assert(distinct_coins(front)) by {
            assert forall|i: int, j: int| 0 <= i < j < front.len() implies !same_coin(
                #[trigger] front[i],
                #[trigger] front[j],
            ) by {
                assert(front[i] == s[i] && front[j] == s[j]);
            }
        }
        assert(ids_once(front)) by {
            assert forall|i: int| 0 <= i < front.len() implies (#[trigger] front[i]).ids.no_duplicates() by {
                assert(front[i] == s[i]);
            }
        }
        lemma_merged_fixed(front);
        lemma_position_of(front, r);
        let p = position_of(front, r);
        if p < front.len() {
            assert(front[p] == s[p]);
            assert(same_coin(s[p], s[s.len() - 1]));
            assert(false);
        }
        assert(s[s.len() - 1].ids.no_duplicates());
        lemma_with_ids_of_distinct(r.ids);
        let fresh = Coin { ids: Seq::empty(), ..r };
        assert(joined(fresh, r.ids) == r);
        assert(front.push(r) =~= s);
    } else {
        assert(s =~= Seq::<Coin>::empty());
    }
}

/// Merging is idempotent: the merge of what a merge gave is the same
/// records again.
pub proof fn law_merge_idempotent(records: Seq<Coin>)
    ensures
        merged(merged(records)) == merged(records),
{
    lemma_merged_coins(records);
    lemma_merged_fixed(merged(records));
}

/// The ids of a merged record are the ids of the records of its coin: an
/// id is among them exactly if a record of the input that stands for the
/// same coin has it.
pub proof fn lemma_merged_ids(records: Seq<Coin>, i: int, x: u32)
    requires
        0 <= i < merged(records).len(),
    ensures
        merged(records)[i].ids.contains(x) <==> coin_has_id(records, merged(records)[i], x),
    decreases records.len(),
{
    if records.len() > 0 {
        let front = records.drop_last();
        let r = records.last();
        let prev = merged(front);
        let m = merged(records);
        let p = position_of(prev, r);
        let last = records.len() - 1;
        lemma_merged_coins(front);
        lemma_position_of(prev, r);
        assert(records[last] == r);
        if i < prev.len() {
            lemma_merged_ids(front, i, x);
            assert(same_coin(m[i], prev[i]));
            if coin_has_id(front, prev[i], x) {
                let k = choose|k: int|
                    0 <= k < front.len() && same_coin(#[trigger] front[k], prev[i])
                        && front[k].ids.contains(x);
                assert(records[k] == front[k]);
                assert(same_coin(records[k], m[i]) && records[k].ids.contains(x));
            }
            if i == p {
                lemma_with_ids(prev[p].ids, r.ids);
                assert(m[i].ids.to_set().contains(x) <==> prev[p].ids.to_set().contains(x)
                    || r.ids.to_set().contains(x));
                if r.ids.contains(x) {
                    assert(same_coin(records[last], m[i]) && records[last].ids.contains(x));
                }
                if coin_has_id(records, m[i], x) {
                    let k = choose|k: int|
                        0 <= k < records.len() && same_coin(#[trigger] records[k], m[i])
                            && records[k].ids.contains(x);
                    if k < front.len() {
                        assert(records[k] == front[k]);
                        assert(same_coin(front[k], prev[i]) && front[k].ids.contains(x));
                    }
                }
            } else {
                assert(m[i] == prev[i]);
                if p < prev.len() {
                    if i < p {
                        assert(!same_coin(prev[i], prev[p]));
                    } else {
                        assert(!same_coin(prev[p], prev[i]));
                    }
                }
                assert(!same_coin(r, prev[i]));
                if coin_has_id(records, m[i], x) {
                    let k = choose|k: int|
                        0 <= k < records.len() && same_coin(#[trigger] records[k], m[i])
                            && records[k].ids.contains(x);
                    assert(k < front.len());
                    assert(records[k] == front[k]);
                    assert(same_coin(front[k], prev[i]) && front[k].ids.contains(x));
                }
            }
        } else {
            let fresh = Coin { ids: Seq::empty(), ..r };
            assert(fresh.ids.no_duplicates());
            lemma_with_ids(fresh.ids, r.ids);
            assert(fresh.ids.to_set() =~= Set::<u32>::empty());
            assert(m[i].ids.to_set().contains(x) <==> r.ids.to_set().contains(x));
            assert(same_coin(m[i], r));
            if r.ids.contains(x) {
                assert(same_coin(records[last], m[i]) && records[last].ids.contains(x));
            }
            if coin_has_id(records, m[i], x) {
                let k = choose|k: int|
                    0 <= k < records.len() && same_coin(#[trigger] records[k], m[i])
                        && records[k].ids.contains(x);
                if k < front.len() {
                    assert(records[k] == front[k]);
                    assert(has_coin(prev, front[k]));
                    let q = choose|q: int| 0 <= q < prev.len() && same_coin(#[trigger] prev[q], front[k]);
                    assert(same_coin(prev[q], r));
                    assert(false);
                }
            }
        }
    }
}

/// Round trip on ids: the ids of the merged records are exactly the ids of
/// the records that went in; the merge drops none and invents none.
pub proof fn law_merge_keeps_ids(records: Seq<Coin>)
    ensures
        all_ids(merged(records)) == all_ids(records),
{
    let m = merged(records);
    lemma_merged_coins(records);
    assert forall|x: u32| all_ids(m).contains(x) <==> all_ids(records).contains(x) by {
        if has_id(m, x) {
            let i = choose|i: int| 0 <= i < m.len() && (#[trigger] m[i]).ids.contains(x);
            lemma_merged_ids(records, i, x);
            let k = choose|k: int|
                0 <= k < records.len() && same_coin(#[trigger] records[k], m[i])
                    && records[k].ids.contains(x);
            assert(records[k].ids.contains(x));
        }
        if has_id(records, x) {
            let k = choose|k: int| 0 <= k < records.len() && (#[trigger] records[k]).ids.contains(x);
            assert(has_coin(m, records[k]));
            let i = choose|i: int| 0 <= i < m.len() && same_coin(#[trigger] m[i], records[k]);
            assert(same_coin(records[k], m[i]) && records[k].ids.contains(x));
            lemma_merged_ids(records, i, x);
            assert(m[i].ids.contains(x));
        }
    }
    assert(all_ids(m) =~= all_ids(records));
}

/// No id is shared between merged records: where every record of the
/// input that has the id `x` stands for the same coin, at most one merged
/// record has `x`.
pub proof fn law_id_in_one_record(records: Seq<Coin>, x: u32, i: int, j: int)
    requires
        forall|a: int, b: int|
            0 <= a < records.len() && 0 <= b < records.len() && (#[trigger] records[a]).ids.contains(x)
                && (#[trigger] records[b]).ids.contains(x) ==> same_coin(records[a], records[b]),
        0 <= i < merged(records).len(),
        0 <= j < merged(records).len(),
        merged(records)[i].ids.contains(x),
        merged(records)[j].ids.contains(x),
    ensures
        i == j,
{
    let m = merged(records);
    lemma_merged_coins(records);
    lemma_merged_ids(records, i, x);
    lemma_merged_ids(records, j, x);
    let a = choose|a: int|
        0 <= a < records.len() && same_coin(#[trigger] records[a], m[i]) && records[a].ids.contains(x);
    let b = choose|b: int|
        0 <= b < records.len() && same_coin(#[trigger] records[b], m[j]) && records[b].ids.contains(x);
    assert(same_coin(records[a], records[b]));
    assert(same_coin(m[i], m[j]));
    if i < j {
        assert(!same_coin(m[i], m[j]));
    } else if j < i {
        assert(!same_coin(m[j], m[i]));
    }
}

} // verus!
