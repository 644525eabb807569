//! The emitter: the text of the table, one entry per record, with every
//! symbol declared as a bare identifier by its first owner only.

use vstd::prelude::*;

use crate::joining::{decimals, join_ids, join_texts, joined_with};
use crate::normalize::{escape_rust_string, escaped};
use crate::record::{coins_of, texts_of, Coin, CoinRecord};

verus! {

/// The symbol of a record as it is written into the table.
pub open spec fn escaped_symbol(c: Coin) -> Option<Seq<char>> {
    match c.symbol {
        Some(symbol) => Some(escaped(symbol)),
        None => None,
    }
}

/// Whether a record before position `i` has the written symbol `e`.
pub open spec fn owned_before(records: Seq<Coin>, i: int, e: Seq<char>) -> bool {
    exists|j: int| 0 <= j < i && #[trigger] escaped_symbol(records[j]) == Some(e)
}

/// What the record at `i` writes into the slot of the bare symbol
/// identifier: its symbol, if no earlier record has it; nothing otherwise.
pub open spec fn symbol_ident(records: Seq<Coin>, i: int) -> Seq<char> {
    match escaped_symbol(records[i]) {
        Some(e) => if owned_before(records, i, e) {
            Seq::empty()
        } else {
            e
        },
        None => Seq::empty(),
    }
}

/// What the record at `i` writes into the slot of the symbol alias: its
/// symbol as a quoted string, if an earlier record has it; nothing
/// otherwise.
pub open spec fn symbol_alias(records: Seq<Coin>, i: int) -> Seq<char> {
    match escaped_symbol(records[i]) {
        Some(e) => if owned_before(records, i, e) {
            "\""@ + e + "\""@
        } else {
            Seq::empty()
        },
        None => Seq::empty(),
    }
}

/// The documentation lines that are written: those that are not empty.
pub open spec fn written_lines(lines: Seq<Seq<char>>) -> Seq<Seq<char>> {
    lines.filter(|line: Seq<char>| line.len() > 0)
}

/// The text of one entry of the table.
pub open spec fn entry_text(c: Coin, ident: Seq<char>, alias: Seq<char>) -> Seq<char> {
    "    (\n        "@ + joined_with(written_lines(c.doc_lines), "\n        "@) + "\n        ["@
        + joined_with(decimals(c.ids), ","@) + "], "@ + c.name + ", \""@ + escaped(
        c.original_name,
    ) + "\", "@ + ident + ", "@ + alias + ",\n    ),\n"@
}

/// The text of the first `n` entries of the table.
pub open spec fn entries_text(records: Seq<Coin>, n: int) -> Seq<char>
    decreases n,
{
    if n <= 0 {
        Seq::empty()
    } else {
        entries_text(records, n - 1) + entry_text(
            records[n - 1],
            symbol_ident(records, n - 1),
            symbol_alias(records, n - 1),
        )
    }
}

/// The text of the table: a comment that names the program that wrote it,
/// the import of the macro, and the macro call with one entry per record,
/// in the order of the records.
pub open spec fn table_text(records: Seq<Coin>, generator: Seq<char>) -> Seq<char> {
    "// Code generated by "@ + generator + "; DO NOT EDIT.\n"@ + "use crate::coins;\n"@
        + "coins!(\n"@ + entries_text(records, records.len() as int) + ");\n"@
}

/// Tells whether one of `texts` holds the text of `wanted`.
pub fn holds_text(texts: &Vec<String>, wanted: &String) -> (r: bool)
    ensures
        r == texts_of(texts@).contains(wanted@),
{
    let mut i: usize = 0;
    while i < texts.len()
        invariant
            i <= texts.len(),
            forall|j: int| 0 <= j < i ==> texts_of(texts@)[j] != wanted@,
        decreases texts.len() - i,
    {
        assert(texts_of(texts@)[i as int] == texts@[i as int]@);
        if texts[i] == *wanted {
            return true;
        }
        i += 1;
    }
    false
}

/// The documentation lines of a record that are written, joined as they
/// stand in the entry.
pub fn written_docs(lines: &Vec<String>) -> (r: String)
    ensures
        r@ == joined_with(written_lines(texts_of(lines@)), "\n        "@),
{
    let mut kept: Vec<String> = Vec::new();
    let ghost all = texts_of(lines@);
    let ghost keep = |line: Seq<char>| line.len() > 0;
    let mut i: usize = 0;
    proof {
        reveal(Seq::filter);
        assert(all.take(0) =~= Seq::<Seq<char>>::empty());
        assert(texts_of(kept@) =~= all.take(0).filter(keep));
    }
    while i < lines.len()
        invariant
            i <= lines.len(),
            all == texts_of(lines@),
            keep == |line: Seq<char>| line.len() > 0,
            texts_of(kept@) == all.take(i as int).filter(keep),
        decreases lines.len() - i,
    {
        let ghost before = texts_of(kept@);
        proof {
            reveal(Seq::filter);
            assert(all.take(i + 1).drop_last() =~= all.take(i as int));
            assert(all.take(i + 1).last() == lines@[i as int]@);
        }
        if !lines[i].as_str().is_empty() {
            kept.push(lines[i].clone());
            assert(texts_of(kept@) =~= before.push(lines@[i as int]@));
        }
        i += 1;
    }
    assert(all.take(all.len() as int) =~= all);
    join_texts(&kept, "\n        ")
}

/// Writes one entry of the table.
pub fn write_entry(record: &CoinRecord, ident: &str, alias: &str) -> (r: String)
    ensures
        r@ == entry_text(record@, ident@, alias@),
{
    let mut r = String::from_str("    (\n        ");
    r.append(written_docs(&record.doc_lines).as_str());
    r.append("\n        [");
    r.append(join_ids(&record.ids, ",").as_str());
    r.append("], ");
    r.append(record.name.as_str());
    r.append(", \"");
    r.append(escape_rust_string(record.original_name.as_str()).as_str());
    r.append("\", ");
    r.append(ident);
    r.append(", ");
    r.append(alias);
    r.append(",\n    ),\n");
    r
}

/// Adding a text to a sequence adds it to what the sequence contains.
proof fn lemma_push_contains(s: Seq<Seq<char>>, x: Seq<char>, y: Seq<char>)
    ensures
        s.push(x).contains(y) <==> s.contains(y) || x == y,
{
    if s.push(x).contains(y) {
        let i = choose|i: int| 0 <= i < s.push(x).len() && s.push(x)[i] == y;
        if i < s.len() {
            assert(s[i] == y);
        }
    }
    if s.contains(y) {
        let i = choose|i: int| 0 <= i < s.len() && s[i] == y;
        assert(s.push(x)[i] == y);
    }
    if x == y {
        assert(s.push(x)[s.len() as int] == y);
    }
}

/// Writes the entries of the table in the order of the records, in one
/// pass that remembers the symbols written so far.
pub fn write_entries(records: &Vec<CoinRecord>) -> (r: String)
    ensures
        r@ == entries_text(coins_of(records@), records@.len() as int),
{
    let mut r = String::new();
    let mut seen: Vec<String> = Vec::new();
    let ghost all = coins_of(records@);
    let mut i: usize = 0;
    while i < records.len()
        invariant
            i <= records.len(),
            all == coins_of(records@),
            r@ == entries_text(all, i as int),
            forall|e: Seq<char>| texts_of(seen@).contains(e) <==> owned_before(all, i as int, e),
        decreases records.len() - i,
    {
        let record = &records[i];
        assert(all[i as int] == record@);
        let ghost seen_before = texts_of(seen@);
        let entry = match &record.symbol {
            Some(symbol) => {
                let written = escape_rust_string(symbol.as_str());
                assert(escaped_symbol(all[i as int]) == Some(written@));
                if holds_text(&seen, &written) {
                    let mut alias = String::from_str("\"");
                    alias.append(written.as_str());
                    alias.append("\"");
                    let entry = write_entry(record, "", alias.as_str());
                    proof {
                        reveal_strlit("");
                        assert(""@ =~= Seq::<char>::empty());
                    }
                    entry
                } else {
                    let entry = write_entry(record, written.as_str(), "");
                    proof {
                        reveal_strlit("");
                        assert(""@ =~= Seq::<char>::empty());
                    }
                    seen.push(written);
                    assert(texts_of(seen@) =~= seen_before.push(written@));
                    entry
                }
            },
            None => {
                proof {
                    reveal_strlit("");
                    assert(""@ =~= Seq::<char>::empty());
                }
                write_entry(record, "", "")
            },
        };
        assert(entry@ == entry_text(
            all[i as int],
            symbol_ident(all, i as int),
            symbol_alias(all, i as int),
        ));
        proof {
            assert forall|e: Seq<char>| texts_of(seen@).contains(e) <==> owned_before(
                all,
                i + 1,
                e,
            ) by {
                let here = escaped_symbol(all[i as int]);
                if here is Some {
                    lemma_push_contains(seen_before, here->0, e);
                }
                if owned_before(all, i + 1, e) {
                    let j = choose|j: int| 0 <= j < i + 1 && #[trigger] escaped_symbol(all[j])
                        == Some(e);
                    if j < i {
                        assert(owned_before(all, i as int, e));
                    }
                }
                if owned_before(all, i as int, e) {
                    let j = choose|j: int| 0 <= j < i && #[trigger] escaped_symbol(all[j])
                        == Some(e);
                    assert(0 <= j < i + 1 && escaped_symbol(all[j]) == Some(e));
                }
                if here == Some(e) {
                    assert(0 <= i < i + 1 && escaped_symbol(all[i as int]) == Some(e));
                }
            }
        }
        r.append(entry.as_str());
        i += 1;
    }
    r
}

/// Writes the table for the records as they stand, in their order.
pub fn emit_table(records: &Vec<CoinRecord>, generator: &str) -> (r: String)
    ensures
        r@ == table_text(coins_of(records@), generator@),
{
    let mut r = String::from_str("// Code generated by ");
    r.append(generator);
    r.append("; DO NOT EDIT.\n");
    r.append("use crate::coins;\n");
    r.append("coins!(\n");
    r.append(write_entries(records).as_str());
    r.append(");\n");
    r
}

/// Symbol uniqueness: no two entries of the table declare the same symbol
/// as a bare identifier. Two entries that write the same text into the
/// slot of the bare identifier write nothing there.
pub proof fn law_symbol_declared_once(records: Seq<Coin>, i: int, j: int)
    requires
        0 <= i < records.len(),
        0 <= j < records.len(),
        i != j,
    ensures
        symbol_ident(records, i) == symbol_ident(records, j) ==> symbol_ident(records, i).len()
            == 0,
{
    let a = symbol_ident(records, i);
    let b = symbol_ident(records, j);
    if a == b && a.len() > 0 {
        assert(escaped_symbol(records[i]) == Some(a));
        assert(escaped_symbol(records[j]) == Some(a));
        if i < j {
            assert(owned_before(records, j, a));
        } else {
            assert(owned_before(records, i, a));
        }
    }
}

/// Later owners of a symbol write it as an alias only: a record whose
/// written symbol is that of an earlier record leaves the slot of the bare
/// identifier empty and writes the symbol, quoted, into the alias slot.
pub proof fn law_later_owner_writes_alias(records: Seq<Coin>, i: int, j: int)
    requires
        0 <= i < j < records.len(),
        escaped_symbol(records[i]) is Some,
        escaped_symbol(records[i]) == escaped_symbol(records[j]),
    ensures
        symbol_ident(records, j) == Seq::<char>::empty(),
        symbol_alias(records, j) == "\""@ + escaped_symbol(records[j])->0 + "\""@,
{
    assert(owned_before(records, j, escaped_symbol(records[j])->0));
}

/// The first owner of a symbol declares it: a record with a symbol that no
/// earlier record writes puts it into the slot of the bare identifier and
/// leaves the alias slot empty.
pub proof fn law_first_owner_declares(records: Seq<Coin>, i: int)
    requires
        0 <= i < records.len(),
        escaped_symbol(records[i]) is Some,
        forall|j: int| 0 <= j < i ==> escaped_symbol(records[j]) != escaped_symbol(records[i]),
    ensures
        symbol_ident(records, i) == escaped_symbol(records[i])->0,
        symbol_alias(records, i) == Seq::<char>::empty(),
{
}

} // verus!
