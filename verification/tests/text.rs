use coin_registry::decimal::{decimal_chars, parse_id};
use coin_registry::joining::join_ids;
use coin_registry::text::{
    chars_are, chars_of, find_first, only_word_chars, same_chars, split_chars, string_of,
    trim_chars,
};

fn chars(s: &str) -> Vec<char> {
    s.chars().collect()
}

#[test]
fn chars_round_trip() {
    let v = chars_of("θ-1");
    assert_eq!(v, vec!['θ', '-', '1']);
    assert_eq!(string_of(&v), "θ-1");
}

#[test]
fn split_keeps_empty_pieces() {
    let pieces = split_chars(&chars("| 0 | a ||"), '|');
    let texts: Vec<String> = pieces.iter().map(|p| p.iter().collect()).collect();
    assert_eq!(texts, vec!["", " 0 ", " a ", "", ""]);
}

#[test]
fn split_of_empty_text_is_one_empty_piece() {
    let pieces = split_chars(&chars(""), '|');
    assert_eq!(pieces, vec![Vec::<char>::new()]);
}

#[test]
fn trim_removes_unicode_whitespace_at_both_ends() {
    assert_eq!(trim_chars(&chars(" \t\u{a0}Bit coin\u{2003}\n")), chars("Bit coin"));
    assert_eq!(trim_chars(&chars("   ")), chars(""));
    assert_eq!(trim_chars(&chars("x")), chars("x"));
}

#[test]
fn comparison_helpers() {
    assert!(same_chars(&chars("abc"), &chars("abc")));
    assert!(!same_chars(&chars("abc"), &chars("abd")));
    assert!(!same_chars(&chars("abc"), &chars("ab")));
    assert!(chars_are(&chars("reserved"), "reserved"));
    assert!(!chars_are(&chars("reserve"), "reserved"));
    assert!(!chars_are(&chars("reserved!"), "reserved"));
    assert!(only_word_chars(&chars("Abc_09")));
    assert!(!only_word_chars(&chars("Abc-09")));
    assert!(only_word_chars(&chars("")));
}

#[test]
fn find_first_stops_at_either_character() {
    let s = chars("ab(c)d");
    assert_eq!(find_first(&s, 0, '(', ')'), 2);
    assert_eq!(find_first(&s, 3, '(', ')'), 4);
    assert_eq!(find_first(&s, 5, '(', ')'), 6);
}

#[test]
fn decimal_notation_of_ids() {
    assert_eq!(decimal_chars(0), chars("0"));
    assert_eq!(decimal_chars(7), chars("7"));
    assert_eq!(decimal_chars(10), chars("10"));
    assert_eq!(decimal_chars(2147483648), chars("2147483648"));
    assert_eq!(decimal_chars(u32::MAX), chars("4294967295"));
}

#[test]
fn ids_are_read_as_the_standard_parser_reads_them() {
    for text in [
        "0", "7", "007", "+5", "4294967295", "4294967296", "99999999999", "", "+", "-1", "1_000",
        " 1", "1 ", "0x10", "١", "12a", "++1",
    ] {
        assert_eq!(parse_id(&chars(text)), text.parse::<u32>().ok(), "{}", text);
    }
    assert_eq!(parse_id(&chars("60")), Some(60));
    assert_eq!(parse_id(&chars("4294967296")), None);
}

#[test]
fn parsing_undoes_decimal_notation() {
    for id in [0u32, 1, 9, 10, 99, 100, 65535, 4294967295] {
        assert_eq!(parse_id(&decimal_chars(id)), Some(id));
    }
}

#[test]
fn ids_are_joined_in_decimal_notation() {
    assert_eq!(join_ids(&vec![], "_"), "");
    assert_eq!(join_ids(&vec![11], "_"), "11");
    assert_eq!(join_ids(&vec![11, 12], "_"), "11_12");
    assert_eq!(join_ids(&vec![60, 61, 1000], ", "), "60, 61, 1000");
}
