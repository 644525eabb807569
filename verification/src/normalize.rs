//! The name normalizer: from a coin's display name to an identifier, and the
//! cleaning of ticker symbols and of text that goes into string literals.

use vstd::prelude::*;

use crate::text::{
    all_word_chars, chars_are, chars_of, find_first, first_of, is_digit, is_identifier, is_letter,
    is_unicode_numeric, is_word_char, only_word_chars, push_all, string_of,
};

verus! {

/// A table of replacements: each entry pairs a text with the text that
/// stands in for it.
pub type Overrides = Seq<(Seq<char>, Seq<char>)>;

/// Names that are replaced although they are well formed.
pub open spec fn direct_aliases() -> Overrides {
    seq![("Ether"@, "Ethereum"@), ("EtherClassic"@, "EthereumClassic"@)]
}

/// The known names that hold characters no identifier may hold, each with
/// the identifier that stands in for it.
pub open spec fn irregular_names() -> Overrides {
    seq![
        ("Pl^g"@, "Plug"@),
        ("BitcoinMatteo'sVision"@, "BitcoinMatteosVision"@),
        ("Crypto.orgChain"@, "CryptoOrgChain"@),
        ("Cocos-BCX"@, "CocosBCX"@),
        ("Capricoin+"@, "CapricoinPlus"@),
        ("Seele-N"@, "SeeleN"@),
        ("IQ-Cash"@, "IQCash"@),
        ("XinFin.Network"@, "XinFinNetwork"@),
        ("Unit-e"@, "UnitE"@),
        ("HARMONY-ONE"@, "HarmonyOne"@),
        ("ThePower.io"@, "ThePower"@),
        ("evan.network"@, "EvanNetwork"@),
        ("Ether-1"@, "EtherOne"@),
        ("æternity"@, "aeternity"@),
        ("θ"@, "Theta"@),
    ]
}

/// Ticker symbols that are replaced.
pub open spec fn symbol_aliases() -> Overrides {
    seq![("$DAG"@, "DAG"@)]
}

/// The replacement that the first entry for `name` gives, if there is one.
pub open spec fn lookup(table: Overrides, name: Seq<char>) -> Option<Seq<char>>
    decreases table.len(),
{
    if table.len() == 0 {
        None
    } else if table[0].0 == name {
        Some(table[0].1)
    } else {
        lookup(table.skip(1), name)
    }
}

/// `name` after the table's replacement, or unchanged where the table has none.
pub open spec fn replaced(table: Overrides, name: Seq<char>) -> Seq<char> {
    match lookup(table, name) {
        Some(r) => r,
        None => name,
    }
}

/// What a table of string literals says as a table of character sequences.
pub open spec fn overrides_of(table: Seq<(&'static str, &'static str)>) -> Overrides {
    table.map_values(|e: (&'static str, &'static str)| (e.0@, e.1@))
}

/// The table of `direct_aliases`.
pub fn direct_alias_table() -> (t: Vec<(&'static str, &'static str)>)
    ensures
        overrides_of(t@) == direct_aliases(),
{
    let t = vec![("Ether", "Ethereum"), ("EtherClassic", "EthereumClassic")];
    assert(overrides_of(t@) =~= direct_aliases());
    t
}

/// The table of `irregular_names`.
pub fn irregular_name_table() -> (t: Vec<(&'static str, &'static str)>)
    ensures
        overrides_of(t@) == irregular_names(),
{
    let t = vec![
        ("Pl^g", "Plug"),
        ("BitcoinMatteo'sVision", "BitcoinMatteosVision"),
        ("Crypto.orgChain", "CryptoOrgChain"),
        ("Cocos-BCX", "CocosBCX"),
        ("Capricoin+", "CapricoinPlus"),
        ("Seele-N", "SeeleN"),
        ("IQ-Cash", "IQCash"),
        ("XinFin.Network", "XinFinNetwork"),
        ("Unit-e", "UnitE"),
        ("HARMONY-ONE", "HarmonyOne"),
        ("ThePower.io", "ThePower"),
        ("evan.network", "EvanNetwork"),
        ("Ether-1", "EtherOne"),
        ("æternity", "aeternity"),
        ("θ", "Theta"),
    ];
    assert(overrides_of(t@) =~= irregular_names());
    t
}

/// The table of `symbol_aliases`.
pub fn symbol_alias_table() -> (t: Vec<(&'static str, &'static str)>)
    ensures
        overrides_of(t@) == symbol_aliases(),
{
    let t = vec![("$DAG", "DAG")];
    assert(overrides_of(t@) =~= symbol_aliases());
    t
}

/// Looks `name` up in a table of replacements.
pub fn find_override(table: &Vec<(&'static str, &'static str)>, name: &[char]) -> (r: Option<
    &'static str,
>)
    ensures
        match r {
            Some(text) => lookup(overrides_of(table@), name@) == Some(text@),
            None => lookup(overrides_of(table@), name@) is None,
        },
{
    let ghost all = overrides_of(table@);
    let mut i: usize = 0;
    assert(all.skip(0) =~= all);
    while i < table.len()
        invariant
            i <= table.len(),
            all == overrides_of(table@),
            lookup(all, name@) == lookup(all.skip(i as int), name@),
        decreases table.len() - i,
    {
        let entry = table[i];
        assert(all.skip(i as int)[0] == (entry.0@, entry.1@));
        if chars_are(name, entry.0) {
            return Some(entry.1);
        }
        assert(all.skip(i as int).skip(1) =~= all.skip(i + 1));
        i += 1;
    }
    None
}

/// `s` without its space characters.
pub open spec fn without_spaces(s: Seq<char>) -> Seq<char> {
    s.filter(|c: char| c != ' ')
}

/// `s` up to its first opening parenthesis.
pub open spec fn before_paren(s: Seq<char>) -> Seq<char> {
    s.take(first_of(s, '(', '('))
}

/// Whether `s` begins with a digit: with an ASCII decimal digit, or with any
/// other character that Unicode classes as a number.
pub open spec fn starts_with_digit(s: Seq<char>) -> bool {
    s.len() > 0 && (is_digit(s[0]) || is_unicode_numeric(s[0]))
}

/// `s` with an underscore in front of it where it begins with a digit.
pub open spec fn with_digit_guard(s: Seq<char>) -> Seq<char> {
    if starts_with_digit(s) {
        seq!['_'] + s
    } else {
        s
    }
}

/// The display name reduced to the candidate that the override tables are
/// asked about: spaces removed, cut at the first parenthesis, guarded
/// against a leading digit.
pub open spec fn candidate_name(display: Seq<char>) -> Seq<char> {
    with_digit_guard(before_paren(without_spaces(display)))
}

/// The message of the name error for the candidate `name`.
pub open spec fn unknown_name_message(name: Seq<char>) -> Seq<char> {
    "unknown original coin name `"@ + name + "`"@
}

/// The normalized name of a display name, or the name error. A candidate
/// made of identifier characters only passes through the direct aliases; any
/// other candidate must be one of the known irregular names.
pub open spec fn short_name(display: Seq<char>) -> Result<Seq<char>, Seq<char>> {
    let name = candidate_name(display);
    if all_word_chars(name) {
        Ok(replaced(direct_aliases(), name))
    } else {
        match lookup(irregular_names(), name) {
            Some(r) => Ok(r),
            None => Err(unknown_name_message(name)),
        }
    }
}

/// The ticker symbol of a cell that has been trimmed: guarded against a
/// leading digit, passed through the symbol aliases, absent where nothing
/// is left.
pub open spec fn symbol_of(cell: Seq<char>) -> Option<Seq<char>> {
    let symbol = replaced(symbol_aliases(), with_digit_guard(cell));
    if symbol.len() == 0 {
        None
    } else {
        Some(symbol)
    }
}

/// A character that is kept in the text of a string literal.
pub open spec fn is_literal_safe(c: char) -> bool {
    is_letter(c) || is_digit(c) || c == '_' || c == ' ' || c == '-' || c == '+' || c == '.'
        || c == '(' || c == ')'
}

/// `s` reduced to the characters that are kept in a string literal. The
/// characters `@`, `^`, `'`, `"`, `\` and `$` are among those that go.
pub open spec fn escaped(s: Seq<char>) -> Seq<char> {
    s.filter(|c: char| is_literal_safe(c))
}

/// Puts an underscore in front of the characters of a name that begins
/// with a digit.
pub fn guard_digit(name: &[char]) -> (r: Vec<char>)
    ensures
        r@ == with_digit_guard(name@),
{
    let mut r: Vec<char> = Vec::new();
    if name.len() > 0 && name[0].is_numeric() {
        r.push('_');
    }
    push_all(&mut r, name);
    assert(r@ =~= with_digit_guard(name@));
    r
}

/// Puts an underscore in front of a name that begins with a digit.
pub fn prepend_enum(name: &str) -> (r: String)
    ensures
        r@ == with_digit_guard(name@),
{
    let chars = chars_of(name);
    let guarded = guard_digit(chars.as_slice());
    string_of(guarded.as_slice())
}

/// Removes the space characters.
pub fn remove_spaces(s: &[char]) -> (r: Vec<char>)
    ensures
        r@ == without_spaces(s@),
{
    let mut r: Vec<char> = Vec::new();
    let mut i: usize = 0;
    let ghost keep = |c: char| c != ' ';
    proof {
        reveal(Seq::filter);
        assert(s@.take(0) =~= Seq::<char>::empty());
    }
    while i < s.len()
        invariant
            i <= s.len(),
            keep == |c: char| c != ' ',
            r@ == s@.take(i as int).filter(keep),
        decreases s.len() - i,
    {
        proof {
            reveal(Seq::filter);
            assert(s@.take(i + 1).drop_last() =~= s@.take(i as int));
        }
        if s[i] != ' ' {
            r.push(s[i]);
        }
        i += 1;
    }
    assert(s@.take(s@.len() as int) =~= s@);
    r
}

/// The candidate name of a display name.
pub fn candidate_chars(display: &[char]) -> (r: Vec<char>)
    ensures
        r@ == candidate_name(display@),
{
    let compact = remove_spaces(display);
    let end = find_first(compact.as_slice(), 0, '(', '(');
    assert(compact@.skip(0) =~= compact@);
    let mut head = compact;
    head.truncate(end);
    assert(head@ =~= before_paren(without_spaces(display@)));
    guard_digit(head.as_slice())
}

/// Normalizes the display name of a coin into an identifier, or reports the
/// name as unknown.
pub fn original_name_to_short(original_name: &str) -> (r: Result<String, String>)
    ensures
        match r {
            Ok(name) => short_name(original_name@) == Ok::<Seq<char>, Seq<char>>(name@),
            Err(message) => short_name(original_name@) == Err::<Seq<char>, Seq<char>>(message@),
        },
{
    let display = chars_of(original_name);
    let name = candidate_chars(display.as_slice());
    if only_word_chars(name.as_slice()) {
        let aliases = direct_alias_table();
        match find_override(&aliases, name.as_slice()) {
            Some(text) => Ok(String::from_str(text)),
            None => Ok(string_of(name.as_slice())),
        }
    } else {
        let known = irregular_name_table();
        match find_override(&known, name.as_slice()) {
            Some(text) => Ok(String::from_str(text)),
            None => {
                let mut message = String::from_str("unknown original coin name `");
                message.append(string_of(name.as_slice()).as_str());
                message.append("`");
                Err(message)
            },
        }
    }
}

/// The ticker symbol that a trimmed table cell gives, if any.
pub fn clean_symbol(cell: &[char]) -> (r: Option<String>)
    ensures
        match r {
            Some(symbol) => symbol_of(cell@) == Some(symbol@),
            None => symbol_of(cell@) is None,
        },
{
    let guarded = guard_digit(cell);
    let aliases = symbol_alias_table();
    let symbol = match find_override(&aliases, guarded.as_slice()) {
        Some(text) => String::from_str(text),
        None => string_of(guarded.as_slice()),
    };
    if symbol.as_str().is_empty() {
        None
    } else {
        Some(symbol)
    }
}

/// Tells whether `c` is kept in the text of a string literal.
pub fn char_is_literal_safe(c: char) -> (r: bool)
    ensures
        r == is_literal_safe(c),
{
    ('a' <= c && c <= 'z') || ('A' <= c && c <= 'Z') || ('0' <= c && c <= '9') || c == '_' || c
        == ' ' || c == '-' || c == '+' || c == '.' || c == '(' || c == ')'
}

/// Reduces a text to what may stand between the quotes of a string literal:
/// every character outside the allow-list is dropped, none is escaped.
pub fn escape_rust_string(s: &str) -> (r: String)
    ensures
        r@ == escaped(s@),
{
    let mut r = String::new();
    let ghost keep = |c: char| is_literal_safe(c);
    proof {
        reveal(Seq::filter);
        assert(s@.take(0) =~= Seq::<char>::empty());
    }
    for c in it: s.chars()
        invariant
            it.seq() == s@,
            keep == |c: char| is_literal_safe(c),
            r@ == s@.take(it.index()).filter(keep),
    {
        proof {
            reveal(Seq::filter);
            assert(s@.take(it.index() + 1).drop_last() =~= s@.take(it.index()));
        }
        if char_is_literal_safe(c) {
            r.push(c);
        }
    }
    assert(s@.take(s@.len() as int) =~= s@);
    r
}

/// The shape of a normalized name: identifier characters only, and not a
/// digit in front. A name of this shape is an identifier unless it is
/// empty.
pub open spec fn well_named(name: Seq<char>) -> bool {
    all_word_chars(name) && (name.len() > 0 ==> is_identifier(name))
}

/// A replacement that a table gives is the replacement of one of its
/// entries.
pub proof fn lemma_lookup_entry(table: Overrides, name: Seq<char>)
    ensures
        lookup(table, name) matches Some(r) ==> exists|i: int|
            0 <= i < table.len() && (#[trigger] table[i]).1 == r,
    decreases table.len(),
{
    if table.len() > 0 && table[0].0 != name {
        let rest = table.skip(1);
        lemma_lookup_entry(rest, name);
        if lookup(rest, name) is Some {
            let r = lookup(rest, name)->0;
            let i = choose|i: int| 0 <= i < rest.len() && (#[trigger] rest[i]).1 == r;
            assert(table[i + 1] == rest[i]);
        }
    }
}

/// Every replacement of the name tables is an identifier.
pub proof fn lemma_replacements_are_identifiers()
    ensures
        forall|i: int|
            0 <= i < direct_aliases().len() ==> is_identifier((#[trigger] direct_aliases()[i]).1),
        forall|i: int|
            0 <= i < irregular_names().len() ==> is_identifier(
                (#[trigger] irregular_names()[i]).1,
            ),
{
    reveal_strlit("Ethereum");
    reveal_strlit("EthereumClassic");
    reveal_strlit("Plug");
    reveal_strlit("BitcoinMatteosVision");
    reveal_strlit("CryptoOrgChain");
    reveal_strlit("CocosBCX");
    reveal_strlit("CapricoinPlus");
    reveal_strlit("SeeleN");
    reveal_strlit("IQCash");
    reveal_strlit("XinFinNetwork");
    reveal_strlit("UnitE");
    reveal_strlit("HarmonyOne");
    reveal_strlit("ThePower");
    reveal_strlit("EvanNetwork");
    reveal_strlit("EtherOne");
    reveal_strlit("aeternity");
    reveal_strlit("Theta");
    assert(is_identifier("Ethereum"@));
    assert(is_identifier("EthereumClassic"@));
    assert(is_identifier("Plug"@));
    assert(is_identifier("BitcoinMatteosVision"@));
    assert(is_identifier("CryptoOrgChain"@));
    assert(is_identifier("CocosBCX"@));
    assert(is_identifier("CapricoinPlus"@));
    assert(is_identifier("SeeleN"@));
    assert(is_identifier("IQCash"@));
    assert(is_identifier("XinFinNetwork"@));
    assert(is_identifier("UnitE"@));
    assert(is_identifier("HarmonyOne"@));
    assert(is_identifier("ThePower"@));
    assert(is_identifier("EvanNetwork"@));
    assert(is_identifier("EtherOne"@));
    assert(is_identifier("aeternity"@));
    assert(is_identifier("Theta"@));
}

/// Every name that the normalizer accepts is made of identifier characters
/// and does not begin with a digit: it is an identifier, unless nothing is
/// left of the display name.
pub proof fn law_short_name_shape(display: Seq<char>)
    ensures
        short_name(display) matches Ok(name) ==> well_named(name),
{
    let name = candidate_name(display);
    lemma_replacements_are_identifiers();
    if all_word_chars(name) {
        lemma_lookup_entry(direct_aliases(), name);
        if lookup(direct_aliases(), name) is None {
            let head = before_paren(without_spaces(display));
            if name.len() > 0 {
                if starts_with_digit(head) {
                    assert(name[0] == '_');
                } else {
                    assert(name == head);
                    assert(is_word_char(name[0]));
                }
            }
        }
    } else {
        lemma_lookup_entry(irregular_names(), name);
    }
}

/// A symbol that a cell gives is not empty and does not begin with a
/// decimal digit.
pub proof fn lemma_symbol_shape(cell: Seq<char>)
    ensures
        symbol_of(cell) matches Some(symbol) ==> symbol.len() > 0 && !is_digit(symbol[0]),
{
    reveal_strlit("DAG");
    let guarded = with_digit_guard(cell);
    if lookup(symbol_aliases(), guarded) is None {
        if starts_with_digit(cell) {
            assert(guarded[0] == '_');
        }
    } else {
        lemma_lookup_entry(symbol_aliases(), guarded);
    }
}

/// What is left after escaping is safe between the quotes of a string
/// literal: every character is on the allow-list, so none is `@`, `^`,
/// `'`, `"`, `\` or `$`.
pub proof fn law_escaped_is_safe(s: Seq<char>, i: int)
    requires
        0 <= i < escaped(s).len(),
    ensures
        is_literal_safe(escaped(s)[i]),
        escaped(s)[i] != '@',
        escaped(s)[i] != '^',
        escaped(s)[i] != '\'',
        escaped(s)[i] != '"',
        escaped(s)[i] != '\\',
        escaped(s)[i] != '$',
{
    s.lemma_filter_pred(|c: char| is_literal_safe(c), i);
}

} // verus!
