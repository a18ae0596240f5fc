//! The `0x` in front of hexadecimal text.

use vstd::prelude::*;

use crate::text::{has_prefix, slice_text, to_chars};

verus! {

/// `text` with `0x` in front.
pub open spec fn with_0x(text: Seq<char>) -> Seq<char> {
    if has_prefix(text, seq!['0', 'x']) {
        text
    } else {
        seq!['0', 'x'] + text
    }
}

/// `text` without `0x` in front.
pub open spec fn without_0x(text: Seq<char>) -> Seq<char> {
    if has_prefix(text, seq!['0', 'x']) {
        text.skip(2)
    } else {
        text
    }
}

/// The characters begin with `0x`.
fn starts_with_0x(chars: &Vec<char>) -> (found: bool)
    ensures
        found == has_prefix(chars@, seq!['0', 'x']),
{
    let found = chars.len() >= 2 && chars[0] == '0' && chars[1] == 'x';
    proof {
        let prefix = seq!['0', 'x'];
        if found {
            assert(chars@.take(2) =~= prefix);
        } else if has_prefix(chars@, prefix) {
            assert(chars@.take(2)[0] == prefix[0]);
            assert(chars@.take(2)[1] == prefix[1]);
        }
    }
    found
}

/// Puts `0x` in front unless it is there.
pub fn prepend_0x(text: &str) -> (prefixed: String)
    ensures
        prefixed@ == with_0x(text@),
{
    let chars = to_chars(text);
    let mut prefixed = String::new();
    if !starts_with_0x(&chars) {
        prefixed.push('0');
        prefixed.push('x');
    }
    prefixed.append(text);
    assert(prefixed@ =~= with_0x(text@));
    prefixed
}

/// Takes `0x` off the front if it is there.
pub fn strip_0x(text: &str) -> (rest: String)
    ensures
        rest@ == without_0x(text@),
{
    let chars = to_chars(text);
    let start: usize = if starts_with_0x(&chars) {
        2
    } else {
        0
    };
    let rest = slice_text(&chars, start, chars.len());
    assert(rest@ =~= without_0x(text@));
    rest
}

/// `0x` is put in front exactly of text that does not begin with it, and taken off exactly where
/// text begins with it, once.
pub proof fn lemma_0x(text: Seq<char>)
    ensures
        with_0x(seq!['0', 'x'] + text) == seq!['0', 'x'] + text,
        without_0x(seq!['0', 'x'] + text) == text,
        text.len() < 2 || text[0] != '0' || text[1] != 'x' ==> {
            &&& with_0x(text) == seq!['0', 'x'] + text
            &&& without_0x(text) == text
        },
{
    let prefix = seq!['0', 'x'];
    assert((prefix + text).take(2) =~= prefix);
    assert((prefix + text).skip(2) =~= text);
    if has_prefix(text, prefix) {
        assert(text.take(2)[0] == prefix[0]);
        assert(text.take(2)[1] == prefix[1]);
    }
}

} // verus!
