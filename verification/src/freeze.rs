//! The merger's last step: the ids of every record are put in ascending
//! order and the smallest becomes the primary id, by which the table is
//! ordered. After it the ids of a record do not change.

use vstd::prelude::*;

use crate::ids::{ascending, lemma_sorted_ids, sort_ids, sorted_ids};
use crate::record::{coins_of, Coin, CoinRecord};

verus! {

/// The record as it leaves the merger: its ids ascend, and its primary id
/// is the smallest of them.
pub open spec fn frozen(c: Coin) -> Coin {
    let ids = sorted_ids(c.ids);
    Coin {
        primary_id: if ids.len() > 0 {
            ids[0]
        } else {
            c.primary_id
        },
        ids,
        ..c
    }
}

/// Every record as it leaves the merger.
pub open spec fn frozen_all(records: Seq<Coin>) -> Seq<Coin> {
    records.map_values(|c: Coin| frozen(c))
}

/// A record leaves the merger with the ids it had, in ascending order, and
/// with the smallest of them as its primary id.
pub proof fn lemma_frozen(c: Coin)
    ensures
        ascending(frozen(c).ids),
        frozen(c).ids.to_set() == c.ids.to_set(),
        forall|x: u32| c.ids.contains(x) ==> frozen(c).primary_id <= x,
{
    lemma_sorted_ids(c.ids);
    let ids = frozen(c).ids;
    assert forall|x: u32| c.ids.contains(x) implies frozen(c).primary_id <= x by {
        assert(ids.to_set().contains(x));
        let i = choose|i: int| 0 <= i < ids.len() && ids[i] == x;
        if i > 0 {
            assert(ids[0] < ids[i]);
        }
    }
}

/// Puts the ids of every record in ascending order and makes the smallest
/// the primary id.
pub fn freeze(records: Vec<CoinRecord>) -> (out: Vec<CoinRecord>)
    ensures
        coins_of(out@) == frozen_all(coins_of(records@)),
{
    let mut out: Vec<CoinRecord> = Vec::new();
    let ghost all = coins_of(records@);
    let mut i: usize = 0;
    while i < records.len()
        invariant
            i <= records.len(),
            all == coins_of(records@),
            out@.len() == i,
            forall|j: int| 0 <= j < i ==> (#[trigger] out@[j])@ == frozen(all[j]),
        decreases records.len() - i,
    {
        assert(all[i as int] == records@[i as int]@);
        let mut copy = records[i].duplicate();
        copy.ids = sort_ids(&records[i].ids);
        if copy.ids.len() > 0 {
            copy.primary_id = copy.ids[0];
        }
        out.push(copy);
        i += 1;
    }
    assert(coins_of(out@) =~= frozen_all(all));
    out
}

} // verus!
