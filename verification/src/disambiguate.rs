//! The collision pass: distinct coins whose names fell together get a
//! suffix that tells them apart.

use vstd::prelude::*;

use crate::joining::{
    join_ids, lemma_underscored_injective, lemma_underscored_shape, underscored,
};
use crate::normalize::well_named;
use crate::record::{coins_of, symbol_is_guarded, Coin, CoinRecord};
use crate::text::{all_word_chars, is_identifier, is_word_char};

verus! {

/// The number of records that carry the name `name`.
pub open spec fn name_count(records: Seq<Coin>, name: Seq<char>) -> nat
    decreases records.len(),
{
    if records.len() == 0 {
        0
    } else {
        name_count(records.drop_last(), name) + if records.last().name == name {
            1nat
        } else {
            0nat
        }
    }
}

/// What tells a record apart from the others of its name: its symbol, or,
/// where it has none, its ids in decimal notation joined by underscores.
pub open spec fn suffix_of(c: Coin) -> Seq<char> {
    match c.symbol {
        Some(symbol) => symbol,
        None => underscored(c.ids),
    }
}

/// The name of a record whose name collides: the name, an underscore and
/// the suffix.
pub open spec fn suffixed_name(c: Coin) -> Seq<char> {
    c.name + seq!['_'] + suffix_of(c)
}

/// Whether the name of `c` is carried by more than one of `records`.
pub open spec fn collides(records: Seq<Coin>, c: Coin) -> bool {
    name_count(records, c.name) > 1
}

/// The record `c` as it leaves the pass: renamed where its name collides
/// among `records`, untouched where it does not.
pub open spec fn settled(records: Seq<Coin>, c: Coin) -> Coin {
    if collides(records, c) {
        Coin { name: suffixed_name(c), ..c }
    } else {
        c
    }
}

/// The records after the collision pass, in their order.
pub open spec fn disambiguated(records: Seq<Coin>) -> Seq<Coin> {
    records.map_values(|c: Coin| settled(records, c))
}

/// Counts the records that carry the name `name`.
pub fn count_name(records: &Vec<CoinRecord>, name: &String) -> (n: usize)
    ensures
        n == name_count(coins_of(records@), name@),
{
    let ghost all = coins_of(records@);
    let mut n: usize = 0;
    let mut i: usize = 0;
    assert(all.take(0) =~= Seq::<Coin>::empty());
    while i < records.len()
        invariant
            i <= records.len(),
            n <= i,
            all == coins_of(records@),
            n == name_count(all.take(i as int), name@),
        decreases records.len() - i,
    {
        proof {
            assert(all.take(i + 1).drop_last() =~= all.take(i as int));
            assert(all.take(i + 1).last() == records@[i as int]@);
        }
        if records[i].name == *name {
            n += 1;
        }
        i += 1;
    }
    assert(all.take(all.len() as int) =~= all);
    n
}

/// The name of a record whose name collides.
pub fn suffixed(record: &CoinRecord) -> (r: String)
    ensures
        r@ == suffixed_name(record@),
{
    proof {
        reveal_strlit("_");
        assert("_"@ =~= seq!['_']);
    }
    let mut name = record.name.clone();
    name.append("_");
    match &record.symbol {
        Some(symbol) => {
            name.append(symbol.as_str());
        },
        None => {
            let ids = join_ids(&record.ids, "_");
            name.append(ids.as_str());
        },
    }
    name
}

/// The collision pass: every record whose name is carried by more than one
/// record is renamed; the others, and the order, stay.
pub fn disambiguate(records: Vec<CoinRecord>) -> (out: Vec<CoinRecord>)
    ensures
        coins_of(out@) == disambiguated(coins_of(records@)),
{
    let mut out: Vec<CoinRecord> = Vec::new();
    let ghost all = coins_of(records@);
    let mut i: usize = 0;
    while i < records.len()
        invariant
            i <= records.len(),
            all == coins_of(records@),
            out@.len() == i,
            forall|j: int| 0 <= j < i ==> (#[trigger] out@[j])@ == settled(all, all[j]),
        decreases records.len() - i,
    {
        assert(all[i as int] == records@[i as int]@);
        let mut copy = records[i].duplicate();
        if count_name(&records, &records[i].name) > 1 {
            copy.name = suffixed(&records[i]);
        }
        out.push(copy);
        i += 1;
    }
    assert(coins_of(out@) =~= disambiguated(all));
    out
}

/// Whether the pass leaves `c` with a name that can be emitted: a record
/// that is renamed needs a symbol made of identifier characters, if it has
/// a symbol; a record that keeps its name needs a name that is not empty.
pub open spec fn emittable(records: Seq<Coin>, c: Coin) -> bool {
    if collides(records, c) {
        match c.symbol {
            Some(symbol) => all_word_chars(symbol),
            None => true,
        }
    } else {
        c.name.len() > 0
    }
}

/// Whether the suffixes of two records of one name differ by what they
/// are made from: two symbols that differ, two lists of ids that differ,
/// or a symbol on one side and ids on the other.
pub open spec fn told_apart(a: Coin, b: Coin) -> bool {
    match (a.symbol, b.symbol) {
        (Some(x), Some(y)) => x != y,
        (None, None) => a.ids != b.ids,
        _ => true,
    }
}

/// Every two records of one name are told apart by their suffixes.
pub open spec fn suffixes_tell_apart(records: Seq<Coin>) -> bool {
    forall|i: int, j: int|
        0 <= i < j < records.len() && (#[trigger] records[i]).name == (#[trigger] records[j]).name
            ==> told_apart(records[i], records[j])
}

/// No suffixed name is the name under which a record of another name
/// leaves the pass.
pub open spec fn names_stay_apart(records: Seq<Coin>) -> bool {
    forall|i: int, j: int|
        0 <= i < records.len() && 0 <= j < records.len() && (#[trigger] records[i]).name != (
        #[trigger] records[j]).name && collides(records, records[i]) ==> suffixed_name(records[i])
            != settled(records, records[j]).name
}

/// A name that a record carries is counted.
proof fn lemma_name_counted(records: Seq<Coin>, i: int)
    requires
        0 <= i < records.len(),
    ensures
        name_count(records, records[i].name) >= 1,
    decreases records.len(),
{
    if i < records.len() - 1 {
        assert(records.drop_last()[i] == records[i]);
        lemma_name_counted(records.drop_last(), i);
    }
}

/// A name that two records carry collides.
pub proof fn lemma_shared_name_collides(records: Seq<Coin>, i: int, j: int)
    requires
        0 <= i < j < records.len(),
        records[i].name == records[j].name,
    ensures
        collides(records, records[i]),
        collides(records, records[j]),
    decreases records.len(),
{
    let front = records.drop_last();
    assert(front[i] == records[i]);
    if j < records.len() - 1 {
        assert(front[j] == records[j]);
        lemma_shared_name_collides(front, i, j);
    } else {
        lemma_name_counted(front, i);
    }
}

/// Names after the pass are identifiers: a record whose name came from the
/// normalizer leaves the pass with an identifier exactly if it is
/// emittable. The renamed record with a symbol that holds anything but
/// identifier characters, and the record that keeps an empty name, are the
/// ones that do not.
pub proof fn law_settled_name_is_identifier(records: Seq<Coin>, c: Coin)
    requires
        well_named(c.name),
    ensures
        is_identifier(settled(records, c).name) <==> emittable(records, c),
{
    if collides(records, c) {
        let suffix = suffix_of(c);
        let name = suffixed_name(c);
        lemma_underscored_shape(c.ids);
        assert(name[0] == if c.name.len() > 0 {
            c.name[0]
        } else {
            '_'
        });
        if emittable(records, c) {
            assert forall|i: int| 0 <= i < name.len() implies is_word_char(#[trigger] name[i]) by {
                if i < c.name.len() {
                    assert(name[i] == c.name[i]);
                } else if i > c.name.len() {
                    assert(name[i] == suffix[i - c.name.len() - 1]);
                }
            }
        } else {
            let symbol = c.symbol->0;
            let k = choose|k: int| 0 <= k < symbol.len() && !is_word_char(#[trigger] symbol[k]);
            assert(name[c.name.len() + 1 + k] == symbol[k]);
        }
    }
}

/// The suffix tells records of one name apart: two records of one name get
/// different names exactly if they are told apart. Two records with the
/// same symbol, and two records without symbol that have the same ids, are
/// the ones that get the same name.
pub proof fn law_suffix_tells_apart(a: Coin, b: Coin)
    requires
        a.name == b.name,
        symbol_is_guarded(a),
        symbol_is_guarded(b),
        a.ids.len() > 0,
        b.ids.len() > 0,
    ensures
        suffixed_name(a) != suffixed_name(b) <==> told_apart(a, b),
{
    let x = suffix_of(a);
    let y = suffix_of(b);
    lemma_underscored_shape(a.ids);
    lemma_underscored_shape(b.ids);
    if suffixed_name(a) == suffixed_name(b) {
        assert(x =~= y) by {
            assert(suffixed_name(a).len() == a.name.len() + 1 + x.len());
            assert(suffixed_name(b).len() == b.name.len() + 1 + y.len());
            assert(x.len() == y.len());
            assert forall|i: int| 0 <= i < x.len() implies x[i] == y[i] by {
                assert(suffixed_name(a)[a.name.len() + 1 + i] == x[i]);
                assert(suffixed_name(b)[b.name.len() + 1 + i] == y[i]);
            }
        }
        if a.symbol is None && b.symbol is None {
            lemma_underscored_injective(a.ids, b.ids);
        }
    }
}

/// Names after the pass are pairwise distinct, where the suffixes tell the
/// records of every name apart and no suffixed name is the name of a
/// record of another name.
pub proof fn law_names_distinct(records: Seq<Coin>, i: int, j: int)
    requires
        0 <= i < j < records.len(),
        forall|k: int|
            0 <= k < records.len() ==> symbol_is_guarded(#[trigger] records[k]) && records[k].ids.len()
                > 0,
        suffixes_tell_apart(records),
        names_stay_apart(records),
    ensures
        disambiguated(records)[i].name != disambiguated(records)[j].name,
{
    let a = records[i];
    let b = records[j];
    if a.name == b.name {
        lemma_shared_name_collides(records, i, j);
        law_suffix_tells_apart(a, b);
    } else if collides(records, a) {
        assert(suffixed_name(a) != settled(records, b).name);
    } else if collides(records, b) {
        assert(suffixed_name(b) != settled(records, a).name);
    }
}

} // verus!
