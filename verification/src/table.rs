//! The pipeline from the markdown document to the text of the table.

use vstd::prelude::*;

use crate::annotate::{annotate, annotated_all};
use crate::disambiguate::{
    disambiguate, disambiguated, emittable, law_names_distinct, law_settled_name_is_identifier,
    names_stay_apart, settled, suffixes_tell_apart,
};
use crate::emit::{emit_table, table_text};
use crate::freeze::{freeze, frozen, frozen_all, lemma_frozen};
use crate::merge::{
    all_ids, has_coin, has_id, law_id_in_one_record, law_merge_keeps_ids, lemma_merged_coins,
    lemma_merged_ids, merge_records, merged, same_coin,
};
use crate::normalize::{law_short_name_shape, well_named};
use crate::order::{
    lemma_sorted_members, lemma_sorted_no_duplicates, sort_records, sorted_by_id,
};
use crate::record::{coins_of, symbol_is_guarded, Coin, CoinRecord};
use crate::rows::{
    accepted_coins, accepted_records, extract_rows, from_row, lemma_accepted_from_rows,
    outcomes_of, row_outcomes, RowOutcome,
};
use crate::text::is_identifier;

verus! {

/// The line of the registry document that heads its table of coin types.
pub const TABLE_HEADER: &'static str =
    "| Coin type  | Path component (`coin_type'`) | Symbol  | Coin                              |";

/// What the pipeline makes of a document.
#[derive(Debug, Clone, PartialEq, Eq)]
pub struct Table {
    /// One outcome per candidate row, in the order of the rows.
    pub outcomes: Vec<RowOutcome>,
    /// The final records, in the order of emission.
    pub records: Vec<CoinRecord>,
    /// The text of the table.
    pub text: String,
}

/// The final records that the accepted records give, before they are put
/// in the order of emission: merged by coin, then told apart where names
/// collide, then given their ids in ascending order, then documented.
pub open spec fn final_coins(accepted: Seq<Coin>) -> Seq<Coin> {
    annotated_all(frozen_all(disambiguated(merged(accepted))))
}

/// Runs the merger and the annotator on the accepted records and puts the
/// final records in the order of emission.
pub fn finish_records(accepted: Vec<CoinRecord>) -> (out: Vec<CoinRecord>)
    ensures
        sorted_by_id(coins_of(out@), final_coins(coins_of(accepted@))),
{
    let merged = merge_records(accepted);
    let settled = disambiguate(merged);
    let frozen = freeze(settled);
    let documented = annotate(frozen);
    sort_records(documented)
}

/// Builds the table of a registry document: reads the rows that follow
/// `header`, builds, merges and documents the records, and writes the table
/// with `generator` named as the program that wrote it.
pub fn build_table(markdown: &str, header: &str, generator: &str) -> (table: Table)
    ensures
        outcomes_of(table.outcomes@) == row_outcomes(markdown@, header@),
        sorted_by_id(
            coins_of(table.records@),
            final_coins(accepted_coins(row_outcomes(markdown@, header@))),
        ),
        table.text@ == table_text(coins_of(table.records@), generator@),
{
    let outcomes = extract_rows(markdown, header);
    let accepted = accepted_records(&outcomes);
    let records = finish_records(accepted);
    let text = emit_table(&records, generator);
    Table { outcomes, records, text }
}

/// The records that the rows of a document give.
pub open spec fn accepted_of(text: Seq<char>, header: Seq<char>) -> Seq<Coin> {
    accepted_coins(row_outcomes(text, header))
}

/// The merge leaves the records of accepted rows with a name from the
/// normalizer, a guarded symbol and at least one id.
pub proof fn lemma_merged_rows(accepted: Seq<Coin>, i: int)
    requires
        forall|k: int| 0 <= k < accepted.len() ==> from_row(#[trigger] accepted[k]),
        0 <= i < merged(accepted).len(),
    ensures
        well_named(merged(accepted)[i].name),
        symbol_is_guarded(merged(accepted)[i]),
        merged(accepted)[i].ids.len() > 0,
{
    let m = merged(accepted);
    lemma_merged_coins(accepted);
    assert(has_coin(accepted, m[i]));
    let k = choose|k: int| 0 <= k < accepted.len() && same_coin(#[trigger] accepted[k], m[i]);
    assert(from_row(accepted[k]));
    law_short_name_shape(accepted[k].original_name);
    let x = accepted[k].ids[0];
    assert(accepted[k].ids.contains(x));
    lemma_merged_ids(accepted, i, x);
    assert(m[i].ids.contains(x));
}

/// Every emitted name is an identifier, where every merged record is
/// emittable: where no record that is renamed has a symbol with anything
/// but identifier characters in it, and no record that keeps its name has
/// an empty name.
pub proof fn law_emitted_names_are_identifiers(
    text: Seq<char>,
    header: Seq<char>,
    emitted: Seq<Coin>,
    j: int,
)
    requires
        sorted_by_id(emitted, final_coins(accepted_of(text, header))),
        forall|i: int|
            0 <= i < merged(accepted_of(text, header)).len() ==> emittable(
                merged(accepted_of(text, header)),
                #[trigger] merged(accepted_of(text, header))[i],
            ),
        0 <= j < emitted.len(),
    ensures
        is_identifier(emitted[j].name),
{
    let accepted = accepted_of(text, header);
    let m = merged(accepted);
    let last = final_coins(accepted);
    lemma_sorted_members(emitted, last);
    assert(emitted.contains(emitted[j]));
    let i = choose|i: int| 0 <= i < last.len() && last[i] == emitted[j];
    assert forall|k: int| 0 <= k < accepted.len() implies from_row(#[trigger] accepted[k]) by {
        lemma_accepted_from_rows(text, header, k);
    }
    lemma_merged_rows(accepted, i);
    assert(emittable(m, m[i]));
    law_settled_name_is_identifier(m, m[i]);
    assert(last[i].name == settled(m, m[i]).name);
}

/// Emitted names are pairwise distinct, where the suffixes tell the merged
/// records of every name apart and no suffixed name is the name of a
/// record of another name.
pub proof fn law_emitted_names_distinct(
    text: Seq<char>,
    header: Seq<char>,
    emitted: Seq<Coin>,
    i: int,
    j: int,
)
    requires
        sorted_by_id(emitted, final_coins(accepted_of(text, header))),
        suffixes_tell_apart(merged(accepted_of(text, header))),
        names_stay_apart(merged(accepted_of(text, header))),
        0 <= i < j < emitted.len(),
    ensures
        emitted[i].name != emitted[j].name,
{
    let accepted = accepted_of(text, header);
    let m = merged(accepted);
    let last = final_coins(accepted);
    assert forall|k: int| 0 <= k < accepted.len() implies from_row(#[trigger] accepted[k]) by {
        lemma_accepted_from_rows(text, header, k);
    }
    assert forall|k: int| 0 <= k < m.len() implies symbol_is_guarded(#[trigger] m[k])
        && m[k].ids.len() > 0 by {
        lemma_merged_rows(accepted, k);
    }
    assert forall|p: int, q: int| 0 <= p < q < last.len() implies last[p].name != last[q].name by {
        law_names_distinct(m, p, q);
        assert(last[p].name == disambiguated(m)[p].name);
        assert(last[q].name == disambiguated(m)[q].name);
    }
    assert(last.no_duplicates());
    lemma_sorted_no_duplicates(emitted, last);
    lemma_sorted_members(emitted, last);
    assert(emitted.contains(emitted[i]));
    assert(emitted.contains(emitted[j]));
    let p = choose|p: int| 0 <= p < last.len() && last[p] == emitted[i];
    let q = choose|q: int| 0 <= q < last.len() && last[q] == emitted[j];
    assert(emitted[i] != emitted[j]);
    if p < q {
        assert(last[p].name != last[q].name);
    } else {
        assert(last[q].name != last[p].name);
    }
}

/// Round trip on ids: the ids of the emitted records are exactly the ids of
/// the accepted records.
pub proof fn law_emitted_ids(accepted: Seq<Coin>, emitted: Seq<Coin>)
    requires
        sorted_by_id(emitted, final_coins(accepted)),
    ensures
        all_ids(emitted) == all_ids(accepted),
{
    let m = merged(accepted);
    let last = final_coins(accepted);
    law_merge_keeps_ids(accepted);
    lemma_sorted_members(emitted, last);
    assert forall|x: u32| all_ids(emitted).contains(x) <==> all_ids(m).contains(x) by {
        if has_id(emitted, x) {
            let j = choose|j: int| 0 <= j < emitted.len() && (#[trigger] emitted[j]).ids.contains(x);
            assert(emitted.contains(emitted[j]));
            let i = choose|i: int| 0 <= i < last.len() && last[i] == emitted[j];
            lemma_frozen(disambiguated(m)[i]);
            assert(last[i].ids == frozen(disambiguated(m)[i]).ids);
            assert(m[i].ids.to_set().contains(x));
            assert(m[i].ids.contains(x));
        }
        if has_id(m, x) {
            let i = choose|i: int| 0 <= i < m.len() && (#[trigger] m[i]).ids.contains(x);
            lemma_frozen(disambiguated(m)[i]);
            assert(last[i].ids == frozen(disambiguated(m)[i]).ids);
            assert(last[i].ids.to_set().contains(x));
            assert(last.contains(last[i]));
            let j = choose|j: int| 0 <= j < emitted.len() && emitted[j] == last[i];
            assert(emitted[j].ids.contains(x));
        }
    }
    assert(all_ids(emitted) =~= all_ids(m));
}

/// No id is emitted twice: where every accepted record that has the id
/// `x` stands for the same coin, at most one emitted record has `x`.
pub proof fn law_emitted_id_in_one_record(
    accepted: Seq<Coin>,
    emitted: Seq<Coin>,
    x: u32,
    i: int,
    j: int,
)
    requires
        sorted_by_id(emitted, final_coins(accepted)),
        forall|a: int, b: int|
            0 <= a < accepted.len() && 0 <= b < accepted.len() && (#[trigger] accepted[a]).ids.contains(x)
                && (#[trigger] accepted[b]).ids.contains(x) ==> same_coin(accepted[a], accepted[b]),
        0 <= i < emitted.len(),
        0 <= j < emitted.len(),
        emitted[i].ids.contains(x),
        emitted[j].ids.contains(x),
    ensures
        emitted[i] == emitted[j],
{
    let m = merged(accepted);
    let last = final_coins(accepted);
    lemma_sorted_members(emitted, last);
    assert(emitted.contains(emitted[i]));
    assert(emitted.contains(emitted[j]));
    let p = choose|p: int| 0 <= p < last.len() && last[p] == emitted[i];
    let q = choose|q: int| 0 <= q < last.len() && last[q] == emitted[j];
    lemma_frozen(disambiguated(m)[p]);
    lemma_frozen(disambiguated(m)[q]);
    assert(last[p].ids == frozen(disambiguated(m)[p]).ids);
    assert(last[q].ids == frozen(disambiguated(m)[q]).ids);
    assert(m[p].ids.to_set().contains(x));
    assert(m[q].ids.to_set().contains(x));
    law_id_in_one_record(accepted, x, p, q);
}

} // verus!
