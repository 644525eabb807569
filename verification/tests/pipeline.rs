use coin_registry::annotate::annotate;
use coin_registry::disambiguate::disambiguate;
use coin_registry::emit::emit_table;
use coin_registry::freeze::freeze;
use coin_registry::ids::{add_ids, place_id, sort_ids};
use coin_registry::merge::merge_records;
use coin_registry::record::CoinRecord;
use coin_registry::rows::{accepted_records, build_record, extract_rows, read_row, RowOutcome};
use coin_registry::table::{build_table, finish_records, TABLE_HEADER};

fn line(s: &str) -> Vec<char> {
    s.chars().collect()
}

fn record(id: u32, symbol: Option<&str>, name: &str, original: &str) -> CoinRecord {
    build_record(
        id,
        format!("0x{:08x}", 0x80000000u32.wrapping_add(id)),
        symbol.map(|s| s.to_string()),
        name.to_string(),
        original.to_string(),
    )
}

fn document(rows: &[&str]) -> String {
    let mut text = String::from("# Registered coin types\n\nSome words.\n\n");
    text.push_str(TABLE_HEADER);
    text.push('\n');
    text.push_str("| ---------- | ----------------------------- | ------- | --------------------------------- |\n");
    for row in rows {
        text.push_str(row);
        text.push('\n');
    }
    text
}

#[test]
fn build_record_has_one_id_and_no_doc_lines() {
    let r = record(60, Some("ETH"), "Ethereum", "Ether");
    assert_eq!(r.primary_id, 60);
    assert_eq!(r.ids, vec![60]);
    assert_eq!(r.path_component, "0x8000003c");
    assert_eq!(r.symbol, Some("ETH".to_string()));
    assert_eq!(r.name, "Ethereum");
    assert_eq!(r.original_name, "Ether");
    assert!(r.doc_lines.is_empty());
}

#[test]
fn accepted_row_gives_a_record() {
    let outcome = read_row(&line("| 60 | 0x8000003c | ETH | Ether |"));
    assert_eq!(outcome, RowOutcome::Accepted(record(60, Some("ETH"), "Ethereum", "Ether")));
}

#[test]
fn row_with_empty_symbol_has_no_symbol() {
    let outcome = read_row(&line("|1|0x80000001|   |Testnet (all coins)|"));
    assert_eq!(
        outcome,
        RowOutcome::Accepted(record(1, None, "Testnet", "Testnet (all coins)"))
    );
}

#[test]
fn every_reason_for_skipping_a_row() {
    assert_eq!(
        read_row(&line("| 1 | 0x80000001 | BTC |")),
        RowOutcome::WrongCellCount("| 1 | 0x80000001 | BTC |".to_string())
    );
    assert_eq!(read_row(&line("")), RowOutcome::WrongCellCount("".to_string()));
    assert_eq!(
        read_row(&line("| 1 | 0x80000001 | BTC | a | b |")),
        RowOutcome::WrongCellCount("| 1 | 0x80000001 | BTC | a | b |".to_string())
    );
    assert_eq!(
        read_row(&line("| 2 | 0x80000002 | X |   |")),
        RowOutcome::EmptyOrReservedName("".to_string())
    );
    assert_eq!(
        read_row(&line("| 2 | 0x80000002 | X | reserved |")),
        RowOutcome::EmptyOrReservedName("reserved".to_string())
    );
    assert_eq!(
        read_row(&line("| 3 | 0x80000003 | X | Totally-Unknown+Name |")),
        RowOutcome::NameError("unknown original coin name `Totally-Unknown+Name`".to_string())
    );
    assert_eq!(
        read_row(&line("| 3x | 0x80000003 | X | Litecoin |")),
        RowOutcome::InvalidId(" 3x ".to_string())
    );
}

#[test]
fn name_is_checked_before_the_id() {
    assert_eq!(
        read_row(&line("| bad | 0x80000003 | X | reserved |")),
        RowOutcome::EmptyOrReservedName("reserved".to_string())
    );
    assert_eq!(
        read_row(&line("| bad | 0x80000003 | X | Un+known |")),
        RowOutcome::NameError("unknown original coin name `Un+known`".to_string())
    );
}

#[test]
fn rows_start_after_header_and_separator() {
    let text = document(&["| 0 | 0x80000000 | BTC | Bitcoin |", "| 2 | 0x80000002 | LTC | Litecoin |"]);
    let outcomes = extract_rows(&text, TABLE_HEADER);
    assert_eq!(
        outcomes,
        vec![
            RowOutcome::Accepted(record(0, Some("BTC"), "Bitcoin", "Bitcoin")),
            RowOutcome::Accepted(record(2, Some("LTC"), "Litecoin", "Litecoin")),
            RowOutcome::WrongCellCount("".to_string()),
        ]
    );
    assert_eq!(accepted_records(&outcomes).len(), 2);
}

#[test]
fn document_without_header_has_no_rows() {
    assert!(extract_rows("| 0 | 0x80000000 | BTC | Bitcoin |\n", TABLE_HEADER).is_empty());
    assert!(extract_rows("", TABLE_HEADER).is_empty());
    assert!(extract_rows(TABLE_HEADER, TABLE_HEADER).is_empty());
    let only_separator = format!("{}\n| - |", TABLE_HEADER);
    assert!(extract_rows(&only_separator, TABLE_HEADER).is_empty());
}

#[test]
fn ids_are_added_once_in_the_order_of_their_first_appearance() {
    let mut ids = vec![61];
    add_ids(&mut ids, &vec![60, 61, 1000, 0, 60]);
    assert_eq!(ids, vec![61, 60, 1000, 0]);
    add_ids(&mut ids, &vec![]);
    assert_eq!(ids, vec![61, 60, 1000, 0]);
}

#[test]
fn ids_are_sorted_ascending_and_single() {
    let mut ids = vec![];
    for id in [61, 60, 61, 1000, 0, 60] {
        place_id(&mut ids, id);
    }
    assert_eq!(ids, vec![0, 60, 61, 1000]);
    assert_eq!(sort_ids(&vec![61, 60, 61, 1000, 0, 60]), vec![0, 60, 61, 1000]);
    assert_eq!(sort_ids(&vec![]), Vec::<u32>::new());
    assert_eq!(sort_ids(&vec![u32::MAX, 0]), vec![0, u32::MAX]);
}

#[test]
fn records_leave_the_merger_with_ascending_ids_and_smallest_id_as_primary() {
    let mut r = record(9, Some("B"), "Bee", "Bee");
    r.ids = vec![9, 3, 12];
    let out = freeze(vec![r, record(7, None, "Ant", "Ant")]);
    assert_eq!(out[0].ids, vec![3, 9, 12]);
    assert_eq!(out[0].primary_id, 3);
    assert_eq!(out[0].path_component, "0x80000009");
    assert_eq!(out[1].ids, vec![7]);
    assert_eq!(out[1].primary_id, 7);
}

#[test]
fn two_ether_rows_merge_into_one_record() {
    let merged = merge_records(vec![
        record(60, Some("ETH"), "Ethereum", "Ether"),
        record(61, Some("ETH"), "Ethereum", "Ether"),
    ]);
    assert_eq!(merged.len(), 1);
    assert_eq!(merged[0].ids, vec![60, 61]);
    assert_eq!(merged[0].primary_id, 60);
    assert_eq!(merged[0].name, "Ethereum");
    assert_eq!(merged[0].path_component, "0x8000003c");
}

#[test]
fn merge_keeps_first_seen_order_of_coins_and_of_ids() {
    let merged = merge_records(vec![
        record(9, Some("B"), "Bee", "Bee"),
        record(7, Some("A"), "Ant", "Ant"),
        record(3, Some("B"), "Bee", "Bee"),
        record(7, Some("A"), "Ant", "Ant"),
    ]);
    assert_eq!(merged.len(), 2);
    assert_eq!(merged[0].name, "Bee");
    assert_eq!(merged[0].ids, vec![9, 3]);
    assert_eq!(merged[0].primary_id, 9);
    assert_eq!(merged[0].path_component, "0x80000009");
    assert_eq!(merged[1].name, "Ant");
    assert_eq!(merged[1].ids, vec![7]);
    assert_eq!(merged[1].primary_id, 7);
}

#[test]
fn records_that_differ_in_one_key_part_stay_apart() {
    let merged = merge_records(vec![
        record(1, Some("F"), "Foo", "Foo"),
        record(2, None, "Foo", "Foo"),
        record(3, Some("F"), "Foo", "Foo (old)"),
        record(4, Some("F"), "Fop", "Foo"),
    ]);
    assert_eq!(merged.len(), 4);
}

#[test]
fn merging_twice_changes_nothing() {
    let once = merge_records(vec![
        record(9, Some("B"), "Bee", "Bee"),
        record(7, None, "Ant", "Ant"),
        record(3, Some("B"), "Bee", "Bee"),
        record(5, None, "Ant", "Ant"),
        record(1, Some("C"), "Cat", "Cat"),
    ]);
    let twice = merge_records(once.clone());
    assert_eq!(once, twice);
}

#[test]
fn every_id_of_the_rows_is_in_exactly_one_record() {
    let rows = vec![
        record(9, Some("B"), "Bee", "Bee"),
        record(7, None, "Ant", "Ant"),
        record(3, Some("B"), "Bee", "Bee"),
        record(5, None, "Ant", "Ant"),
        record(1, Some("C"), "Cat", "Cat"),
    ];
    let merged = merge_records(rows);
    let mut ids: Vec<u32> = merged.iter().flat_map(|r| r.ids.clone()).collect();
    ids.sort();
    assert_eq!(ids, vec![1, 3, 5, 7, 9]);
}

#[test]
fn colliding_names_get_symbol_or_ids_as_suffix() {
    let mut second = record(11, None, "Foo", "Foo (two)");
    second.ids = vec![11, 12];
    let out = disambiguate(vec![
        record(10, Some("F1"), "Foo", "Foo (one)"),
        second,
        record(13, Some("B"), "Bar", "Bar"),
    ]);
    assert_eq!(out[0].name, "Foo_F1");
    assert_eq!(out[1].name, "Foo_11_12");
    assert_eq!(out[2].name, "Bar");
    assert_eq!(out[1].ids, vec![11, 12]);
}

#[test]
fn documentation_lines_in_fixed_order() {
    let mut with_symbol = record(60, Some("ETH"), "Ethereum", "Ether");
    with_symbol.ids = vec![60, 61];
    let out = annotate(vec![with_symbol, record(1, None, "Testnet", "Testnet (all coins)")]);
    assert_eq!(
        out[0].doc_lines,
        vec!["/// Coin type: 60, 61", "/// Symbol: ETH", "/// Coin: Ether"]
    );
    assert_eq!(out[1].doc_lines, vec!["/// Coin type: 1", "/// Coin: Testnet (all coins)"]);
}

#[test]
fn final_records_are_ordered_by_primary_id_and_ties_keep_their_order() {
    let out = finish_records(vec![
        record(9, Some("B"), "Bee", "Bee"),
        record(7, Some("A"), "Ant", "Ant"),
        record(7, Some("D"), "Dog", "Dog"),
        record(3, Some("B"), "Bee", "Bee"),
        record(7, Some("C"), "Cat", "Cat"),
    ]);
    let names: Vec<&str> = out.iter().map(|r| r.name.as_str()).collect();
    assert_eq!(names, vec!["Bee", "Ant", "Dog", "Cat"]);
    let ids: Vec<u32> = out.iter().map(|r| r.primary_id).collect();
    assert_eq!(ids, vec![3, 7, 7, 7]);
}

#[test]
fn bitcoin_with_a_symbol_that_cleans_to_nothing() {
    let table = build_table(&document(&["| 0 | 0x80000000 | ₿ | Bitcoin |"]), TABLE_HEADER, "src/bin/parse_coins.rs");
    assert_eq!(table.records.len(), 1);
    assert_eq!(table.records[0].name, "Bitcoin");
    assert_eq!(table.records[0].ids, vec![0]);
    assert_eq!(
        table.text,
        "// Code generated by src/bin/parse_coins.rs; DO NOT EDIT.\n\
         use crate::coins;\n\
         coins!(\n    (\n        /// Coin type: 0\n        /// Symbol: ₿\n        /// Coin: Bitcoin\n        [0], Bitcoin, \"Bitcoin\", , ,\n    ),\n);\n"
    );
}

#[test]
fn second_owner_of_a_symbol_writes_it_as_alias() {
    let records = annotate(vec![
        record(1, Some("ABC"), "First", "First"),
        record(2, Some("ABC"), "Second", "Second's"),
        record(3, None, "Third", "Third"),
        record(4, Some("A$B^C"), "Fourth", "Fourth"),
    ]);
    let text = emit_table(&records, "gen");
    assert_eq!(
        text,
        "// Code generated by gen; DO NOT EDIT.\nuse crate::coins;\ncoins!(\n\
         \x20   (\n        /// Coin type: 1\n        /// Symbol: ABC\n        /// Coin: First\n        [1], First, \"First\", ABC, ,\n    ),\n\
         \x20   (\n        /// Coin type: 2\n        /// Symbol: ABC\n        /// Coin: Second's\n        [2], Second, \"Seconds\", , \"ABC\",\n    ),\n\
         \x20   (\n        /// Coin type: 3\n        /// Coin: Third\n        [3], Third, \"Third\", , ,\n    ),\n\
         \x20   (\n        /// Coin type: 4\n        /// Symbol: A$B^C\n        /// Coin: Fourth\n        [4], Fourth, \"Fourth\", , \"ABC\",\n    ),\n\
         );\n"
    );
}

#[test]
fn empty_doc_lines_are_not_written() {
    let mut r = record(5, None, "Five", "Five");
    r.doc_lines = vec!["".to_string(), "/// a".to_string(), "".to_string(), "/// b".to_string()];
    assert_eq!(
        emit_table(&vec![r], "g"),
        "// Code generated by g; DO NOT EDIT.\nuse crate::coins;\ncoins!(\n    (\n        /// a\n        /// b\n        [5], Five, \"Five\", , ,\n    ),\n);\n"
    );
}

#[test]
fn table_without_records() {
    assert_eq!(
        emit_table(&vec![], "g"),
        "// Code generated by g; DO NOT EDIT.\nuse crate::coins;\ncoins!(\n);\n"
    );
}

#[test]
fn whole_pipeline_on_a_small_document() {
    let text = document(&[
        "| 0 | 0x80000000 | BTC | Bitcoin |",
        "| 1 | 0x80000001 | | Testnet (all coins) |",
        "| 60 | 0x8000003c | ETH | Ether |",
        "| 61 | 0x8000003d | ETH | Ether |",
        "| 62 | 0x8000003e | | reserved |",
        "| 63 | 0x8000003f | X | Totally-Unknown+Name |",
        "| 10 | 0x8000000a | F1 | Foo (one) |",
        "| 11 | 0x8000000b | | Foo (two) |",
        "| 12 | 0x8000000c | | Foo (two) |",
        "| 500 | 0x800001f4 | $DAG | Unit-e |",
        "not a row",
    ]);
    let table = build_table(&text, TABLE_HEADER, "gen");
    assert_eq!(table.outcomes.len(), 12);
    let names: Vec<&str> = table.records.iter().map(|r| r.name.as_str()).collect();
    assert_eq!(names, vec!["Bitcoin", "Testnet", "Foo_F1", "Foo_11_12", "Ethereum", "UnitE"]);
    let ids: Vec<Vec<u32>> = table.records.iter().map(|r| r.ids.clone()).collect();
    assert_eq!(ids, vec![vec![0], vec![1], vec![10], vec![11, 12], vec![60, 61], vec![500]]);
    assert_eq!(table.records[5].symbol, Some("DAG".to_string()));
    assert!(table.text.contains("        [60,61], Ethereum, \"Ether\", ETH, ,\n"));
    assert!(table.text.contains("        [11,12], Foo_11_12, \"Foo (two)\", , ,\n"));
    assert!(!table.text.contains("Totally"));
    assert!(!table.text.contains("reserved"));
    assert!(table.text.ends_with("    ),\n);\n"));
}

fn is_identifier(name: &str) -> bool {
    let mut chars = name.chars();
    match chars.next() {
        Some(c) if c.is_ascii_alphabetic() || c == '_' => {}
        _ => return false,
    }
    chars.all(|c| c.is_ascii_alphanumeric() || c == '_')
}

fn sample_table() -> coin_registry::table::Table {
    build_table(
        &document(&[
            "| 0 | 0x80000000 | BTC | Bitcoin |",
            "| 1 | 0x80000001 | | Testnet (all coins) |",
            "| 7 | 0x80000007 | 1ST | 1st coin |",
            "| 60 | 0x8000003c | ETH | Ether |",
            "| 61 | 0x8000003d | ETH | Ether |",
            "| 10 | 0x8000000a | F1 | Foo (one) |",
            "| 11 | 0x8000000b | | Foo (two) |",
            "| 12 | 0x8000000c | | Foo (two) |",
            "| 13 | 0x8000000d | | Foo (three) |",
            "| 500 | 0x800001f4 | BTC | θ |",
            "| 501 | 0x800001f5 | | æternity |",
        ]),
        TABLE_HEADER,
        "gen",
    )
}

#[test]
fn emitted_names_are_identifiers() {
    let table = sample_table();
    assert_eq!(table.records.len(), 9);
    for record in &table.records {
        assert!(is_identifier(&record.name), "{}", record.name);
    }
    let names: Vec<&str> = table.records.iter().map(|r| r.name.as_str()).collect();
    assert_eq!(
        names,
        vec![
            "Bitcoin", "Testnet", "_1stcoin", "Foo_F1", "Foo_11_12", "Foo_13", "Ethereum", "Theta",
            "aeternity"
        ]
    );
}

#[test]
fn emitted_names_are_pairwise_distinct() {
    let table = sample_table();
    for (i, a) in table.records.iter().enumerate() {
        for b in &table.records[i + 1..] {
            assert_ne!(a.name, b.name);
        }
    }
}

#[test]
fn emitted_ids_are_the_ids_of_the_accepted_rows() {
    let table = sample_table();
    let mut ids: Vec<u32> = table.records.iter().flat_map(|r| r.ids.clone()).collect();
    ids.sort();
    assert_eq!(ids, vec![0, 1, 7, 10, 11, 12, 13, 60, 61, 500, 501]);
}

#[test]
fn one_symbol_is_declared_by_its_first_owner_only() {
    let table = sample_table();
    assert!(table.text.contains("        [0], Bitcoin, \"Bitcoin\", BTC, ,\n"));
    assert!(table.text.contains("        [500], Theta, \"\", , \"BTC\",\n"));
    assert_eq!(table.text.matches(", BTC, ,").count(), 1);
}

#[test]
fn records_of_one_name_with_one_symbol_get_one_name() {
    let out = disambiguate(vec![
        record(1, Some("F"), "Foo", "Foo"),
        record(2, Some("F"), "Foo", "Foo (old)"),
    ]);
    assert_eq!(out[0].name, "Foo_F");
    assert_eq!(out[1].name, "Foo_F");
}

#[test]
fn display_name_that_is_only_a_qualifier_gives_an_empty_name() {
    let outcome = read_row(&line("| 9 | 0x80000009 | Q | (only a note) |"));
    assert_eq!(
        outcome,
        RowOutcome::Accepted(record(9, Some("Q"), "", "(only a note)"))
    );
}

#[test]
fn header_found_a_second_time_is_a_row_like_any_other() {
    let text = format!("{h}\n|-|\n| 0 | a | BTC | Bitcoin |\n{h}", h = TABLE_HEADER);
    let outcomes = extract_rows(&text, TABLE_HEADER);
    assert_eq!(outcomes.len(), 2);
    assert_eq!(outcomes[0], RowOutcome::Accepted(build_record(0, "a".to_string(), Some("BTC".to_string()), "Bitcoin".to_string(), "Bitcoin".to_string())));
    assert_eq!(outcomes[1], RowOutcome::InvalidId(" Coin type  ".to_string()));
}

#[test]
fn suffix_lists_ids_as_they_came_and_the_record_leaves_with_ascending_ids() {
    let out = finish_records(vec![
        record(12, None, "Foo", "Foo (two)"),
        record(10, Some("F1"), "Foo", "Foo (one)"),
        record(11, None, "Foo", "Foo (two)"),
    ]);
    assert_eq!(out[0].name, "Foo_F1");
    assert_eq!(out[0].ids, vec![10]);
    assert_eq!(out[1].name, "Foo_12_11");
    assert_eq!(out[1].ids, vec![11, 12]);
    assert_eq!(out[1].primary_id, 11);
    assert_eq!(out[1].doc_lines, vec!["/// Coin type: 11, 12", "/// Coin: Foo (two)"]);
}
