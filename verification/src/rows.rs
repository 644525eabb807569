//! The row extractor and the record builder: from the markdown document to
//! one outcome per candidate row of the table.

use vstd::prelude::*;

use crate::decimal::{parse_id, parsed_id};
use crate::normalize::{
    clean_symbol, lemma_symbol_shape, original_name_to_short, short_name, symbol_of,
};
use crate::record::{coins_of, symbol_is_guarded, text_of, Coin, CoinRecord};
use crate::text::{
    chars_are, chars_of, same_chars, split_chars, split_on, string_of,
    trim_chars, trimmed, views_of,
};

verus! {

/// What became of one candidate row of the table.
#[derive(Debug, Clone, PartialEq, Eq)]
pub enum RowOutcome {
    /// The row was accepted and gave this record.
    Accepted(CoinRecord),
    /// The row did not have six cells; the line is kept for the warning.
    WrongCellCount(String),
    /// The display name was empty or the reserved marker.
    EmptyOrReservedName(String),
    /// The display name could not be normalized; the message names it.
    NameError(String),
    /// The id cell did not hold an id; the cell is kept for the warning.
    InvalidId(String),
}

/// What a `RowOutcome` holds, as plain mathematical values.
pub ghost enum Outcome {
    Accepted(Coin),
    WrongCellCount(Seq<char>),
    EmptyOrReservedName(Seq<char>),
    NameError(Seq<char>),
    InvalidId(Seq<char>),
}

impl View for RowOutcome {
    type V = Outcome;

    open spec fn view(&self) -> Outcome {
        match self {
            RowOutcome::Accepted(record) => Outcome::Accepted(record@),
            RowOutcome::WrongCellCount(line) => Outcome::WrongCellCount(line@),
            RowOutcome::EmptyOrReservedName(name) => Outcome::EmptyOrReservedName(name@),
            RowOutcome::NameError(message) => Outcome::NameError(message@),
            RowOutcome::InvalidId(cell) => Outcome::InvalidId(cell@),
        }
    }
}

/// The models of a vector of outcomes.
pub open spec fn outcomes_of(v: Seq<RowOutcome>) -> Seq<Outcome> {
    v.map_values(|o: RowOutcome| o@)
}

/// The number of cells of a table row whose outer pipes are present: an
/// empty leading cell, id, path component, symbol, name, an empty trailing
/// cell.
pub open spec fn cells_per_row() -> nat {
    6
}

/// The record of an accepted row: the id is its only id, and it has no
/// documentation lines yet.
pub open spec fn built_coin(
    id: u32,
    path_component: Seq<char>,
    symbol: Option<Seq<char>>,
    name: Seq<char>,
    original_name: Seq<char>,
) -> Coin {
    Coin {
        primary_id: id,
        ids: seq![id],
        path_component,
        symbol,
        name,
        original_name,
        doc_lines: Seq::empty(),
    }
}

/// The outcome of one candidate row. The checks come in this order: the
/// number of cells, the display name, its normalization, the id.
pub open spec fn row_outcome(line: Seq<char>) -> Outcome {
    let cells = split_on(line, '|');
    if cells.len() != cells_per_row() {
        Outcome::WrongCellCount(line)
    } else {
        let display = trimmed(cells[4]);
        if display.len() == 0 || display == "reserved"@ {
            Outcome::EmptyOrReservedName(display)
        } else {
            match short_name(display) {
                Err(message) => Outcome::NameError(message),
                Ok(name) => match parsed_id(trimmed(cells[1])) {
                    None => Outcome::InvalidId(cells[1]),
                    Some(id) => Outcome::Accepted(
                        built_coin(
                            id,
                            trimmed(cells[2]),
                            symbol_of(trimmed(cells[3])),
                            name,
                            display,
                        ),
                    ),
                },
            }
        }
    }
}

/// The position of the first line that is the header, or the number of
/// lines where none is.
pub open spec fn header_position(lines: Seq<Seq<char>>, header: Seq<char>) -> int
    decreases lines.len(),
{
    if lines.len() == 0 || lines[0] == header {
        0
    } else {
        1 + header_position(lines.skip(1), header)
    }
}

/// The candidate rows of a document: every line after the header line and
/// the separator line that follows it. A document without the header has
/// none.
pub open spec fn candidate_rows(text: Seq<char>, header: Seq<char>) -> Seq<Seq<char>> {
    let lines = split_on(text, '\n');
    let first = header_position(lines, header) + 2;
    if first <= lines.len() {
        lines.skip(first)
    } else {
        Seq::empty()
    }
}

/// One outcome per candidate row of the document, in the order of the rows.
pub open spec fn row_outcomes(text: Seq<char>, header: Seq<char>) -> Seq<Outcome> {
    candidate_rows(text, header).map_values(|line: Seq<char>| row_outcome(line))
}

/// The records of the accepted rows, in the order of the rows.
pub open spec fn accepted_coins(outcomes: Seq<Outcome>) -> Seq<Coin>
    decreases outcomes.len(),
{
    if outcomes.len() == 0 {
        Seq::empty()
    } else {
        let before = accepted_coins(outcomes.drop_last());
        match outcomes.last() {
            Outcome::Accepted(coin) => before.push(coin),
            _ => before,
        }
    }
}

/// Builds the record of an accepted row.
pub fn build_record(
    id: u32,
    path_component: String,
    symbol: Option<String>,
    name: String,
    original_name: String,
) -> (r: CoinRecord)
    ensures
        r@ == built_coin(id, path_component@, text_of(symbol), name@, original_name@),
{
    let mut ids: Vec<u32> = Vec::new();
    ids.push(id);
    let r = CoinRecord {
        primary_id: id,
        ids,
        path_component,
        symbol,
        name,
        original_name,
        doc_lines: Vec::new(),
    };
    assert(r@.ids =~= seq![id]);
    assert(r@.doc_lines =~= Seq::<Seq<char>>::empty());
    r
}

/// Reads one candidate row.
pub fn read_row(line: &[char]) -> (r: RowOutcome)
    ensures
        r@ == row_outcome(line@),
{
    let cells = split_chars(line, '|');
    proof {
        assert(views_of(cells@).len() == cells@.len());
    }
    if cells.len() != 6 {
        return RowOutcome::WrongCellCount(string_of(line));
    }
    assert(views_of(cells@)[1] == cells@[1]@);
    assert(views_of(cells@)[2] == cells@[2]@);
    assert(views_of(cells@)[3] == cells@[3]@);
    assert(views_of(cells@)[4] == cells@[4]@);
    let display = trim_chars(cells[4].as_slice());
    if display.len() == 0 || chars_are(display.as_slice(), "reserved") {
        return RowOutcome::EmptyOrReservedName(string_of(display.as_slice()));
    }
    let original_name = string_of(display.as_slice());
    let name = match original_name_to_short(original_name.as_str()) {
        Ok(name) => name,
        Err(message) => {
            return RowOutcome::NameError(message);
        },
    };
    let id_cell = trim_chars(cells[1].as_slice());
    let id = match parse_id(id_cell.as_slice()) {
        Some(id) => id,
        None => {
            return RowOutcome::InvalidId(string_of(cells[1].as_slice()));
        },
    };
    let path_component = string_of(trim_chars(cells[2].as_slice()).as_slice());
    let symbol = clean_symbol(trim_chars(cells[3].as_slice()).as_slice());
    RowOutcome::Accepted(build_record(id, path_component, symbol, name, original_name))
}

/// Finds the header line among the lines of a document.
pub fn find_header(lines: &Vec<Vec<char>>, header: &[char]) -> (k: usize)
    ensures
        k <= lines.len(),
        k == header_position(views_of(lines@), header@),
{
    let ghost all = views_of(lines@);
    let mut k: usize = 0;
    assert(all.skip(0) =~= all);
    while k < lines.len()
        invariant
            k <= lines.len(),
            all == views_of(lines@),
            header_position(all, header@) == k + header_position(all.skip(k as int), header@),
        decreases lines.len() - k,
    {
        assert(all.skip(k as int)[0] == lines@[k as int]@);
        if same_chars(lines[k].as_slice(), header) {
            return k;
        }
        assert(all.skip(k as int).skip(1) =~= all.skip(k + 1));
        k += 1;
    }
    k
}

/// Reads the table of a markdown document: one outcome per line that
/// follows the header line and its separator line. No row stops the run:
/// a row that is not accepted has an outcome that says why.
pub fn extract_rows(markdown: &str, header: &str) -> (outcomes: Vec<RowOutcome>)
    ensures
        outcomes_of(outcomes@) == row_outcomes(markdown@, header@),
{
    let text = chars_of(markdown);
    let wanted = chars_of(header);
    let lines = split_chars(text.as_slice(), '\n');
    let at = find_header(&lines, wanted.as_slice());
    let mut outcomes: Vec<RowOutcome> = Vec::new();
    let ghost rows = candidate_rows(markdown@, header@);
    if lines.len() - at < 2 {
        assert(outcomes_of(outcomes@) =~= row_outcomes(markdown@, header@));
        return outcomes;
    }
    let first: usize = at + 2;
    let mut k: usize = first;
    assert(rows == views_of(lines@).skip(first as int));
    while k < lines.len()
        invariant
            first <= k <= lines.len(),
            rows == views_of(lines@).skip(first as int),
            outcomes@.len() == k - first,
            forall|j: int| 0 <= j < k - first ==> (#[trigger] outcomes@[j])@ == row_outcome(rows[j]),
        decreases lines.len() - k,
    {
        assert(rows[k - first] == lines@[k as int]@);
        let outcome = read_row(lines[k].as_slice());
        outcomes.push(outcome);
        k += 1;
    }
    assert(outcomes_of(outcomes@) =~= row_outcomes(markdown@, header@));
    outcomes
}

/// Copies the records of the accepted rows, in the order of the rows.
pub fn accepted_records(outcomes: &Vec<RowOutcome>) -> (records: Vec<CoinRecord>)
    ensures
        coins_of(records@) == accepted_coins(outcomes_of(outcomes@)),
{
    let mut records: Vec<CoinRecord> = Vec::new();
    let ghost all = outcomes_of(outcomes@);
    let mut k: usize = 0;
    assert(all.take(0) =~= Seq::<Outcome>::empty());
    assert(coins_of(records@) =~= accepted_coins(all.take(0)));
    while k < outcomes.len()
        invariant
            k <= outcomes.len(),
            all == outcomes_of(outcomes@),
            coins_of(records@) == accepted_coins(all.take(k as int)),
        decreases outcomes.len() - k,
    {
        let ghost before = coins_of(records@);
        proof {
            assert(all.take(k + 1).drop_last() =~= all.take(k as int));
            assert(all.take(k + 1).last() == outcomes@[k as int]@);
        }
        match &outcomes[k] {
            RowOutcome::Accepted(record) => {
                let copy = record.duplicate();
                records.push(copy);
                assert(coins_of(records@) =~= before.push(record@));
            },
            _ => {},
        }
        k += 1;
    }
    assert(all.take(all.len() as int) =~= all);
    records
}

/// What holds of the record of an accepted row: its name is the
/// normalized form of its display name, which is neither empty nor the
/// reserved marker; its symbol is guarded; its id is its only id; it has no
/// documentation lines.
pub open spec fn from_row(c: Coin) -> bool {
    &&& c.original_name.len() > 0
    &&& c.original_name != "reserved"@
    &&& short_name(c.original_name) == Ok::<Seq<char>, Seq<char>>(c.name)
    &&& symbol_is_guarded(c)
    &&& c.ids == seq![c.primary_id]
    &&& c.doc_lines.len() == 0
}

/// The record of an accepted row is as `from_row` says.
pub proof fn lemma_accepted_row(line: Seq<char>)
    ensures
        row_outcome(line) matches Outcome::Accepted(c) ==> from_row(c),
{
    let cells = split_on(line, '|');
    if cells.len() == cells_per_row() {
        lemma_symbol_shape(trimmed(cells[3]));
    }
}

/// Every accepted record is the record of one of the outcomes.
pub proof fn lemma_accepted_coins(outcomes: Seq<Outcome>, k: int)
    requires
        0 <= k < accepted_coins(outcomes).len(),
    ensures
        exists|t: int|
            0 <= t < outcomes.len() && #[trigger] outcomes[t] == Outcome::Accepted(
                accepted_coins(outcomes)[k],
            ),
    decreases outcomes.len(),
{
    let front = outcomes.drop_last();
    let before = accepted_coins(front);
    if k < before.len() {
        lemma_accepted_coins(front, k);
        let t = choose|t: int|
            0 <= t < front.len() && #[trigger] front[t] == Outcome::Accepted(before[k]);
        assert(outcomes[t] == front[t]);
    } else {
        assert(outcomes[outcomes.len() - 1] == Outcome::Accepted(accepted_coins(outcomes)[k]));
    }
}

/// Every record that the rows of a document give is as `from_row` says.
pub proof fn lemma_accepted_from_rows(text: Seq<char>, header: Seq<char>, k: int)
    requires
        0 <= k < accepted_coins(row_outcomes(text, header)).len(),
    ensures
        from_row(accepted_coins(row_outcomes(text, header))[k]),
{
    let outcomes = row_outcomes(text, header);
    lemma_accepted_coins(outcomes, k);
    let t = choose|t: int|
        0 <= t < outcomes.len() && #[trigger] outcomes[t] == Outcome::Accepted(
            accepted_coins(outcomes)[k],
        );
    lemma_accepted_row(candidate_rows(text, header)[t]);
}

} // verus!
