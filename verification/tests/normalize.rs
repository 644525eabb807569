use coin_registry::link::parse_markdown_link;
use coin_registry::normalize::{
    clean_symbol, escape_rust_string, original_name_to_short, prepend_enum,
};

fn chars_n(s: &str) -> Vec<char> {
    s.chars().collect()
}

#[test]
fn plain_names_pass_through() {
    assert_eq!(original_name_to_short("Bitcoin"), Ok("Bitcoin".to_string()));
    assert_eq!(original_name_to_short("Bitcoin Cash"), Ok("BitcoinCash".to_string()));
    assert_eq!(original_name_to_short("Foo_Bar9"), Ok("Foo_Bar9".to_string()));
}

#[test]
fn parenthetical_qualifier_is_dropped() {
    assert_eq!(original_name_to_short("Testnet (all coins)"), Ok("Testnet".to_string()));
    assert_eq!(original_name_to_short("Ether (old)"), Ok("Ethereum".to_string()));
    assert_eq!(original_name_to_short("(only)"), Ok("".to_string()));
}

#[test]
fn leading_digit_gets_an_underscore() {
    assert_eq!(original_name_to_short("42-coin (x)"), Err("unknown original coin name `_42-coin`".to_string()));
    assert_eq!(original_name_to_short("1337"), Ok("_1337".to_string()));
    assert_eq!(original_name_to_short("0 Chain"), Ok("_0Chain".to_string()));
}

#[test]
fn direct_aliases_apply() {
    assert_eq!(original_name_to_short("Ether"), Ok("Ethereum".to_string()));
    assert_eq!(original_name_to_short("Ether Classic"), Ok("EthereumClassic".to_string()));
    assert_eq!(original_name_to_short("Ethers"), Ok("Ethers".to_string()));
}

#[test]
fn every_known_irregular_name_has_its_identifier() {
    let table = [
        ("Pl^g", "Plug"),
        ("Bitcoin Matteo's Vision", "BitcoinMatteosVision"),
        ("Crypto.org Chain", "CryptoOrgChain"),
        ("Cocos-BCX", "CocosBCX"),
        ("Capricoin+", "CapricoinPlus"),
        ("Seele-N", "SeeleN"),
        ("IQ-Cash", "IQCash"),
        ("XinFin.Network", "XinFinNetwork"),
        ("Unit-e", "UnitE"),
        ("HARMONY-ONE", "HarmonyOne"),
        ("ThePower.io", "ThePower"),
        ("evan.network", "EvanNetwork"),
        ("Ether-1", "EtherOne"),
        ("æternity", "aeternity"),
        ("θ", "Theta"),
    ];
    for (display, short) in table {
        assert_eq!(original_name_to_short(display), Ok(short.to_string()), "{}", display);
    }
}

#[test]
fn unit_e_is_overridden_and_unknown_irregular_name_fails() {
    assert_eq!(original_name_to_short("Unit-e"), Ok("UnitE".to_string()));
    assert_eq!(
        original_name_to_short("Totally-Unknown+Name"),
        Err("unknown original coin name `Totally-Unknown+Name`".to_string())
    );
}

#[test]
fn prepend_enum_guards_names_that_begin_with_a_number() {
    assert_eq!(prepend_enum("1inch"), "_1inch");
    assert_eq!(prepend_enum("Bitcoin"), "Bitcoin");
    assert_eq!(prepend_enum(""), "");
    assert_eq!(prepend_enum("_1"), "_1");
    assert_eq!(prepend_enum("٣x"), "_٣x");
    assert_eq!(prepend_enum("½"), "_½");
    assert_eq!(prepend_enum("$DAG"), "$DAG");
}

#[test]
fn symbols_are_cleaned() {
    assert_eq!(clean_symbol(&chars_n("BTC")), Some("BTC".to_string()));
    assert_eq!(clean_symbol(&chars_n("$DAG")), Some("DAG".to_string()));
    assert_eq!(clean_symbol(&chars_n("$DAGX")), Some("$DAGX".to_string()));
    assert_eq!(clean_symbol(&chars_n("1ST")), Some("_1ST".to_string()));
    assert_eq!(clean_symbol(&chars_n("")), None);
    assert_eq!(clean_symbol(&chars_n("₿")), Some("₿".to_string()));
}

#[test]
fn escaping_keeps_only_the_allowed_characters() {
    assert_eq!(escape_rust_string("Bitcoin"), "Bitcoin");
    assert_eq!(escape_rust_string("a@b^c'd\"e\\f$g"), "abcdefg");
    assert_eq!(escape_rust_string("A_b c-d+e.f(g)"), "A_b c-d+e.f(g)");
    assert_eq!(escape_rust_string("æternity θ ₿ x/y:z"), "ternity   xyz");
    assert_eq!(escape_rust_string(""), "");
    assert_eq!(escape_rust_string("₿"), "");
}

#[test]
fn markdown_link_is_split_into_text_and_target() {
    assert_eq!(parse_markdown_link("[Bitcoin](https://bitcoin.org)"), ("Bitcoin", Some("https://bitcoin.org")));
    assert_eq!(parse_markdown_link("Bitcoin"), ("Bitcoin", None));
    assert_eq!(parse_markdown_link("Bit(coin)"), ("Bit(coin)", None));
    assert_eq!(parse_markdown_link("[Bitcoin]"), ("Bitcoin", None));
    assert_eq!(parse_markdown_link("[Bitcoin"), ("Bitcoin", None));
    assert_eq!(parse_markdown_link("[a[b]](c(d))"), ("a", Some("c")));
    assert_eq!(parse_markdown_link("[θ](x"), ("θ", Some("x")));
    assert_eq!(parse_markdown_link("[a])b"), ("a", Some("b")));
    assert_eq!(parse_markdown_link(""), ("", None));
}

#[test]
fn markdown_link_agrees_with_the_splitting_of_the_standard_library() {
    for input in ["[a](b)", "[a]", "[", "[]()", "[x](y)(z)", "[a(b]c)d", "[[", "[a]b(c", "[é](ü)ö"] {
        let text = input.splitn(3, &['[', ']'][..]).nth(1).unwrap_or(input);
        let target = input.trim_start_matches(']').splitn(3, &['(', ')'][..]).nth(1);
        assert_eq!(parse_markdown_link(input), (text, target), "{}", input);
    }
}
