//! The documentation annotator: the lines that document an emitted entry.

use vstd::prelude::*;

use crate::joining::{decimals, join_ids, joined_with};
use crate::record::{coins_of, texts_of, Coin, CoinRecord};

verus! {

/// The line that lists the ids of a record.
pub open spec fn ids_line(c: Coin) -> Seq<char> {
    "/// Coin type: "@ + joined_with(decimals(c.ids), ", "@)
}

/// The line that names a symbol.
pub open spec fn symbol_line(symbol: Seq<char>) -> Seq<char> {
    "/// Symbol: "@ + symbol
}

/// The line that gives the display name of a record.
pub open spec fn name_line(c: Coin) -> Seq<char> {
    "/// Coin: "@ + c.original_name
}

/// The documentation lines of a record, in their fixed order: the ids, the
/// symbol where there is one, the display name.
pub open spec fn doc_lines_of(c: Coin) -> Seq<Seq<char>> {
    match c.symbol {
        Some(symbol) => seq![ids_line(c), symbol_line(symbol), name_line(c)],
        None => seq![ids_line(c), name_line(c)],
    }
}

/// The record with its documentation lines attached; nothing else changes.
pub open spec fn annotated(c: Coin) -> Coin {
    Coin { doc_lines: doc_lines_of(c), ..c }
}

/// Every record with its documentation lines attached.
pub open spec fn annotated_all(records: Seq<Coin>) -> Seq<Coin> {
    records.map_values(|c: Coin| annotated(c))
}

/// Writes the documentation lines of a record.
pub fn document(record: &CoinRecord) -> (lines: Vec<String>)
    ensures
        texts_of(lines@) == doc_lines_of(record@),
{
    let mut lines: Vec<String> = Vec::new();
    let mut ids = String::from_str("/// Coin type: ");
    ids.append(join_ids(&record.ids, ", ").as_str());
    lines.push(ids);
    match &record.symbol {
        Some(symbol) => {
            let mut line = String::from_str("/// Symbol: ");
            line.append(symbol.as_str());
            lines.push(line);
        },
        None => {},
    }
    let mut name = String::from_str("/// Coin: ");
    name.append(record.original_name.as_str());
    lines.push(name);
    assert(texts_of(lines@) =~= doc_lines_of(record@));
    lines
}

/// Attaches to every record its documentation lines.
pub fn annotate(records: Vec<CoinRecord>) -> (out: Vec<CoinRecord>)
    ensures
        coins_of(out@) == annotated_all(coins_of(records@)),
{
    let mut out: Vec<CoinRecord> = Vec::new();
    let ghost all = coins_of(records@);
    let mut i: usize = 0;
    while i < records.len()
        invariant
            i <= records.len(),
            all == coins_of(records@),
            out@.len() == i,
            forall|j: int| 0 <= j < i ==> (#[trigger] out@[j])@ == annotated(all[j]),
        decreases records.len() - i,
    {
        assert(all[i as int] == records@[i as int]@);
        let mut copy = records[i].duplicate();
        copy.doc_lines = document(&records[i]);
        out.push(copy);
        i += 1;
    }
    assert(coins_of(out@) =~= annotated_all(all));
    out
}

} // verus!
