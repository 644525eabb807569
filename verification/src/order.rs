//! The order of emission: ascending by primary id, records of one primary
//! id in the order in which they came.

use itertools::Itertools;
use vstd::prelude::*;

use crate::record::{coins_of, Coin, CoinRecord};

verus! {

/// The primary ids never decrease along the sequence.
pub open spec fn ordered_by_id(s: Seq<Coin>) -> bool {
    forall|i: int, j: int| 0 <= i <= j < s.len() ==> s[i].primary_id <= s[j].primary_id
}

/// The records of `s` whose primary id is `id`, in their order.
pub open spec fn with_primary(s: Seq<Coin>, id: u32) -> Seq<Coin> {
    s.filter(|c: Coin| c.primary_id == id)
}

/// `out` holds the records of `inp`, each as often as `inp` does, in
/// ascending order of their primary ids, and records of one primary id
/// stand in `out` in the order in which they stand in `inp`.
pub open spec fn sorted_by_id(out: Seq<Coin>, inp: Seq<Coin>) -> bool {
    &&& out.to_multiset() == inp.to_multiset()
    &&& ordered_by_id(out)
    &&& forall|id: u32| #[trigger] with_primary(out, id) == with_primary(inp, id)
}

/// `Itertools::sorted_by_key` with the primary id as the key: it collects
/// the records, sorts them with the stable `slice::sort_by_key` and hands
/// them back, so the result is a rearrangement of the input in ascending
/// order of the key that leaves records of equal key in their order.
#[verifier::external_body]
pub(crate) fn sort_records(records: Vec<CoinRecord>) -> (out: Vec<CoinRecord>)
    ensures
        sorted_by_id(coins_of(out@), coins_of(records@)),
{
    records.into_iter().sorted_by_key(|record| record.primary_id).collect()
}

/// Sorting keeps the records: what is in the sorted sequence is what was
/// in the input, and there is as much of it.
pub proof fn lemma_sorted_members(out: Seq<Coin>, inp: Seq<Coin>)
    requires
        sorted_by_id(out, inp),
    ensures
        out.len() == inp.len(),
        forall|x: Coin| out.contains(x) <==> inp.contains(x),
{
    out.to_multiset_ensures();
    inp.to_multiset_ensures();
    assert forall|x: Coin| out.contains(x) <==> inp.contains(x) by {
        assert(out.contains(x) <==> out.to_multiset().count(x) > 0);
        assert(inp.contains(x) <==> inp.to_multiset().count(x) > 0);
    }
}

/// Sorting records of which no two are equal gives records of which no
/// two are equal.
pub proof fn lemma_sorted_no_duplicates(out: Seq<Coin>, inp: Seq<Coin>)
    requires
        sorted_by_id(out, inp),
        inp.no_duplicates(),
    ensures
        out.no_duplicates(),
{
    inp.lemma_multiset_has_no_duplicates();
    out.lemma_multiset_has_no_duplicates_conv();
}

} // verus!
