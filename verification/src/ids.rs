//! Lists of registration ids: taking ids in without repeating any, and
//! putting them in ascending order.

use vstd::prelude::*;

verus! {

/// `ids` with `id` added at the end, unless it is there already.
pub open spec fn with_id(ids: Seq<u32>, id: u32) -> Seq<u32> {
    if ids.contains(id) {
        ids
    } else {
        ids.push(id)
    }
}

/// `ids` with the ids of `more` added in their order, each unless it is
/// there already.
pub open spec fn with_ids(ids: Seq<u32>, more: Seq<u32>) -> Seq<u32>
    decreases more.len(),
{
    if more.len() == 0 {
        ids
    } else {
        with_id(with_ids(ids, more.drop_last()), more.last())
    }
}

/// The ids ascend, so none occurs twice.
pub open spec fn ascending(ids: Seq<u32>) -> bool {
    forall|i: int, j: int| 0 <= i < j < ids.len() ==> ids[i] < ids[j]
}

/// The number of leading ids that are smaller than `id`.
pub open spec fn rank(ids: Seq<u32>, id: u32) -> int
    decreases ids.len(),
{
    if ids.len() == 0 || ids[0] >= id {
        0
    } else {
        1 + rank(ids.skip(1), id)
    }
}

/// Ascending `ids` with `id` put in its place, unless it is there already.
pub open spec fn placed(ids: Seq<u32>, id: u32) -> Seq<u32> {
    let k = rank(ids, id);
    if k < ids.len() && ids[k] == id {
        ids
    } else {
        ids.insert(k, id)
    }
}

/// The ids of `ids` in ascending order, each once.
pub open spec fn sorted_ids(ids: Seq<u32>) -> Seq<u32>
    decreases ids.len(),
{
    if ids.len() == 0 {
        Seq::empty()
    } else {
        placed(sorted_ids(ids.drop_last()), ids.last())
    }
}

/// Adding an id keeps the ids free of repetition, keeps the ids that were
/// there in their places, and adds exactly that id.
pub proof fn lemma_with_id(ids: Seq<u32>, id: u32)
    requires
        ids.no_duplicates(),
    ensures
        with_id(ids, id).no_duplicates(),
        with_id(ids, id).to_set() == ids.to_set().insert(id),
{
    let out = with_id(ids, id);
    if ids.contains(id) {
        assert(ids.to_set().insert(id) =~= ids.to_set());
    } else {
        assert forall|x: u32| out.to_set().contains(x) <==> ids.to_set().insert(id).contains(
            x,
        ) by {
            if out.contains(x) {
                let i = choose|i: int| 0 <= i < out.len() && out[i] == x;
                if i < ids.len() {
                    assert(ids[i] == x);
                }
            }
            if ids.contains(x) {
                let i = choose|i: int| 0 <= i < ids.len() && ids[i] == x;
                assert(out[i] == x);
            }
            if x == id {
                assert(out[ids.len() as int] == x);
            }
        }
        assert(out.to_set() =~= ids.to_set().insert(id));
    }
}

/// The last of a sequence joins the set of those before it.
proof fn lemma_last_joins(s: Seq<u32>)
    requires
        s.len() > 0,
    ensures
        s.to_set() == s.drop_last().to_set().insert(s.last()),
{
    let front = s.drop_last();
    assert forall|x: u32| s.to_set().contains(x) <==> front.to_set().insert(s.last()).contains(
        x,
    ) by {
        if s.contains(x) {
            let i = choose|i: int| 0 <= i < s.len() && s[i] == x;
            if i < s.len() - 1 {
                assert(front[i] == x);
            }
        }
        if front.contains(x) {
            let i = choose|i: int| 0 <= i < front.len() && front[i] == x;
            assert(s[i] == x);
        }
        if x == s.last() {
            assert(s[s.len() - 1] == x);
        }
    }
    assert(s.to_set() =~= front.to_set().insert(s.last()));
}

/// Adding ids keeps the ids free of repetition and adds exactly those ids.
pub proof fn lemma_with_ids(ids: Seq<u32>, more: Seq<u32>)
    requires
        ids.no_duplicates(),
    ensures
        with_ids(ids, more).no_duplicates(),
        with_ids(ids, more).to_set() == ids.to_set().union(more.to_set()),
    decreases more.len(),
{
    if more.len() == 0 {
        assert(ids.to_set().union(more.to_set()) =~= ids.to_set());
    } else {
        let front = more.drop_last();
        lemma_with_ids(ids, front);
        lemma_with_id(with_ids(ids, front), more.last());
        lemma_last_joins(more);
        assert(with_ids(ids, more).to_set() =~= ids.to_set().union(more.to_set()));
    }
}

/// Ids without repetition are what adding them one by one gives.
pub proof fn lemma_with_ids_of_distinct(ids: Seq<u32>)
    requires
        ids.no_duplicates(),
    ensures
        with_ids(Seq::empty(), ids) == ids,
    decreases ids.len(),
{
    if ids.len() > 0 {
        let front = ids.drop_last();
        lemma_with_ids_of_distinct(front);
        if front.contains(ids.last()) {
            let i = choose|i: int| 0 <= i < front.len() && front[i] == ids.last();
            assert(ids[i] == ids[ids.len() - 1]);
        }
        assert(front.push(ids.last()) =~= ids);
    } else {
        assert(ids =~= Seq::<u32>::empty());
    }
}

/// `rank` lies within the sequence, every id before it is smaller than
/// `id`, and the id at it, if there is one, is not.
pub proof fn lemma_rank(ids: Seq<u32>, id: u32)
    ensures
        0 <= rank(ids, id) <= ids.len(),
        forall|j: int| 0 <= j < rank(ids, id) ==> ids[j] < id,
        rank(ids, id) < ids.len() ==> ids[rank(ids, id)] >= id,
    decreases ids.len(),
{
    if !(ids.len() == 0 || ids[0] >= id) {
        let rest = ids.skip(1);
        lemma_rank(rest, id);
        assert forall|j: int| 0 <= j < rank(ids, id) implies ids[j] < id by {
            if j > 0 {
                assert(ids[j] == rest[j - 1]);
            }
        }
    }
}

/// Putting an id in its place keeps the ids ascending and adds exactly
/// that id.
pub proof fn lemma_placed(ids: Seq<u32>, id: u32)
    requires
        ascending(ids),
    ensures
        ascending(placed(ids, id)),
        placed(ids, id).to_set() == ids.to_set().insert(id),
{
    lemma_rank(ids, id);
    let k = rank(ids, id);
    let out = placed(ids, id);
    if k < ids.len() && ids[k] == id {
        assert(ids.to_set().insert(id) =~= ids.to_set()) by {
            assert(ids.contains(id));
        }
    } else {
        assert forall|i: int, j: int| 0 <= i < j < out.len() implies out[i] < out[j] by {
            if j < k {
            } else if j == k {
            } else if i <= k {
                assert(out[j] == ids[j - 1]);
                if j - 1 > k {
                    assert(ids[k] < ids[j - 1]);
                }
            } else {
                assert(out[i] == ids[i - 1]);
                assert(out[j] == ids[j - 1]);
            }
        }
        assert(out.to_set() =~= ids.to_set().insert(id)) by {
            assert forall|x: u32| out.to_set().contains(x) <==> ids.to_set().insert(
                id,
            ).contains(x) by {
                if out.contains(x) {
                    let i = choose|i: int| 0 <= i < out.len() && out[i] == x;
                    if i < k {
                        assert(ids[i] == x);
                    } else if i > k {
                        assert(ids[i - 1] == x);
                    }
                }
                if ids.contains(x) {
                    let i = choose|i: int| 0 <= i < ids.len() && ids[i] == x;
                    if i < k {
                        assert(out[i] == x);
                    } else {
                        assert(out[i + 1] == x);
                    }
                }
                if x == id {
                    assert(out[k] == x);
                }
            }
        }
    }
}

/// The sorted ids ascend and are exactly the ids that were given: what
/// `sorted_ids` gives is the one ascending list of those ids.
pub proof fn lemma_sorted_ids(ids: Seq<u32>)
    ensures
        ascending(sorted_ids(ids)),
        sorted_ids(ids).to_set() == ids.to_set(),
    decreases ids.len(),
{
    if ids.len() == 0 {
        assert(sorted_ids(ids).to_set() =~= ids.to_set());
    } else {
        lemma_sorted_ids(ids.drop_last());
        lemma_placed(sorted_ids(ids.drop_last()), ids.last());
        lemma_last_joins(ids);
    }
}

/// Tells whether `id` is among `ids`.
pub fn holds_id(ids: &Vec<u32>, id: u32) -> (r: bool)
    ensures
        r == ids@.contains(id),
{
    let mut i: usize = 0;
    while i < ids.len()
        invariant
            i <= ids.len(),
            forall|j: int| 0 <= j < i ==> ids@[j] != id,
        decreases ids.len() - i,
    {
        if ids[i] == id {
            return true;
        }
        i += 1;
    }
    false
}

/// Adds every id of `more` that is not there yet, in the order of `more`.
pub fn add_ids(ids: &mut Vec<u32>, more: &Vec<u32>)
    ensures
        final(ids)@ == with_ids(old(ids)@, more@),
{
    let mut i: usize = 0;
    assert(more@.take(0) =~= Seq::<u32>::empty());
    while i < more.len()
        invariant
            i <= more.len(),
            ids@ == with_ids(old(ids)@, more@.take(i as int)),
        decreases more.len() - i,
    {
        assert(more@.take(i + 1).drop_last() =~= more@.take(i as int));
        if !holds_id(ids, more[i]) {
            ids.push(more[i]);
        }
        i += 1;
    }
    assert(more@.take(more@.len() as int) =~= more@);
}

/// Puts `id` in its place among ascending ids.
pub fn place_id(ids: &mut Vec<u32>, id: u32)
    ensures
        final(ids)@ == placed(old(ids)@, id),
{
    let mut k: usize = 0;
    assert(ids@.skip(0) =~= ids@);
    while k < ids.len() && ids[k] < id
        invariant
            k <= ids.len(),
            ids@ == old(ids)@,
            rank(ids@, id) == k + rank(ids@.skip(k as int), id),
        decreases ids.len() - k,
    {
        assert(ids@.skip(k as int).skip(1) =~= ids@.skip(k + 1));
        k += 1;
    }
    if k < ids.len() && ids[k] == id {
        return ;
    }
    ids.insert(k, id);
}

/// The ids in ascending order, each once.
pub fn sort_ids(ids: &Vec<u32>) -> (out: Vec<u32>)
    ensures
        out@ == sorted_ids(ids@),
{
    let mut out: Vec<u32> = Vec::new();
    let mut i: usize = 0;
    assert(ids@.take(0) =~= Seq::<u32>::empty());
    while i < ids.len()
        invariant
            i <= ids.len(),
            out@ == sorted_ids(ids@.take(i as int)),
        decreases ids.len() - i,
    {
        assert(ids@.take(i + 1).drop_last() =~= ids@.take(i as int));
        place_id(&mut out, ids[i]);
        i += 1;
    }
    assert(ids@.take(ids@.len() as int) =~= ids@);
    out
}

} // verus!
