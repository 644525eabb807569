//! The coin record and its mathematical model.

use vstd::prelude::*;

use crate::text::is_digit;

verus! {

/// One coin of the table, as the pipeline carries it from a table row to
/// the emitted entry.
#[derive(Debug, Clone, PartialEq, Eq)]
pub struct CoinRecord {
    /// The id by which the emitted table is ordered.
    pub primary_id: u32,
    /// Every registration id that stands for this coin.
    pub ids: Vec<u32>,
    /// The path component of the source row, carried along unread.
    pub path_component: String,
    /// The ticker symbol, absent where the source cell gave none.
    pub symbol: Option<String>,
    /// The identifier under which the coin is emitted.
    pub name: String,
    /// The display name of the source row, untouched.
    pub original_name: String,
    /// The documentation lines of the emitted entry.
    pub doc_lines: Vec<String>,
}

/// What a `CoinRecord` holds, as plain mathematical values.
pub ghost struct Coin {
    pub primary_id: u32,
    pub ids: Seq<u32>,
    pub path_component: Seq<char>,
    pub symbol: Option<Seq<char>>,
    pub name: Seq<char>,
    pub original_name: Seq<char>,
    pub doc_lines: Seq<Seq<char>>,
}

/// The character sequences of a vector of strings.
pub open spec fn texts_of(v: Seq<String>) -> Seq<Seq<char>> {
    v.map_values(|s: String| s@)
}

/// The character sequence of an optional string.
pub open spec fn text_of(s: Option<String>) -> Option<Seq<char>> {
    match s {
        Some(t) => Some(t@),
        None => None,
    }
}

impl View for CoinRecord {
    type V = Coin;

    open spec fn view(&self) -> Coin {
        Coin {
            primary_id: self.primary_id,
            ids: self.ids@,
            path_component: self.path_component@,
            symbol: text_of(self.symbol),
            name: self.name@,
            original_name: self.original_name@,
            doc_lines: texts_of(self.doc_lines@),
        }
    }
}

/// The symbol of `c`, if it has one, is not empty and does not begin with
/// a decimal digit.
pub open spec fn symbol_is_guarded(c: Coin) -> bool {
    c.symbol matches Some(symbol) ==> symbol.len() > 0 && !is_digit(symbol[0])
}

/// The models of a vector of records.
pub open spec fn coins_of(v: Seq<CoinRecord>) -> Seq<Coin> {
    v.map_values(|r: CoinRecord| r@)
}

/// A copy of an optional string.
pub fn copy_symbol(symbol: &Option<String>) -> (r: Option<String>)
    ensures
        text_of(r) == text_of(*symbol),
{
    match symbol {
        Some(s) => Some(s.clone()),
        None => None,
    }
}

/// A copy of a vector of strings.
pub fn copy_lines(lines: &Vec<String>) -> (r: Vec<String>)
    ensures
        texts_of(r@) == texts_of(lines@),
{
    let mut r: Vec<String> = Vec::new();
    let mut i: usize = 0;
    while i < lines.len()
        invariant
            i <= lines.len(),
            r@.len() == i,
            forall|j: int| 0 <= j < i ==> (#[trigger] r@[j])@ == lines@[j]@,
        decreases lines.len() - i,
    {
        let line = lines[i].clone();
        r.push(line);
        i += 1;
    }
    assert(texts_of(r@) =~= texts_of(lines@));
    r
}

impl CoinRecord {
    /// A record that holds the same values.
    pub fn duplicate(&self) -> (r: CoinRecord)
        ensures
            r@ == self@,
    {
        CoinRecord {
            primary_id: self.primary_id,
            ids: self.ids.clone(),
            path_component: self.path_component.clone(),
            symbol: copy_symbol(&self.symbol),
            name: self.name.clone(),
            original_name: self.original_name.clone(),
            doc_lines: copy_lines(&self.doc_lines),
        }
    }
}

} // verus!
