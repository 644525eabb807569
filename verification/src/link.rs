//! Markdown links of the form `[text](target)`.

use vstd::prelude::*;

use crate::text::{chars_of, find_first, first_of};

verus! {

/// The text of a markdown link: what stands between the opening bracket and
/// the next bracket of either kind. An input that does not begin with `[`
/// is its own text.
pub open spec fn link_text(s: Seq<char>) -> Seq<char> {
    if s.len() > 0 && s[0] == '[' {
        let rest = s.skip(1);
        rest.take(first_of(rest, '[', ']'))
    } else {
        s
    }
}

/// The target of a markdown link: what stands between the first parenthesis
/// of either kind and the next one. An input that does not begin with `[`,
/// or holds no parenthesis, has no target.
pub open spec fn link_target(s: Seq<char>) -> Option<Seq<char>> {
    if s.len() > 0 && s[0] == '[' && first_of(s, '(', ')') < s.len() {
        let rest = s.skip(first_of(s, '(', ')') + 1);
        Some(rest.take(first_of(rest, '(', ')')))
    } else {
        None
    }
}

/// Splits a markdown link into its text and its target.
pub fn parse_markdown_link(input: &str) -> (r: (&str, Option<&str>))
    ensures
        r.0@ == link_text(input@),
        match r.1 {
            Some(target) => link_target(input@) == Some(target@),
            None => link_target(input@) is None,
        },
{
    let chars = chars_of(input);
    if chars.len() == 0 || chars[0] != '[' {
        return (input, None);
    }
    let text_end = find_first(chars.as_slice(), 1, '[', ']');
    let text = input.substring_char(1, text_end);
    assert(text@ =~= link_text(input@));
    let open = find_first(chars.as_slice(), 0, '(', ')');
    assert(chars@.skip(0) =~= chars@);
    if open == chars.len() {
        return (text, None);
    }
    let close = find_first(chars.as_slice(), open + 1, '(', ')');
    let target = input.substring_char(open + 1, close);
    assert(target@ =~= chars@.skip(open + 1).take(first_of(chars@.skip(open + 1), '(', ')')));
    (text, Some(target))
}

} // verus!
