//! Base58 text: a number written with 58 digits, where each leading zero byte is one leading `1`.

use vstd::prelude::*;

use crate::numeral::{
    as_digits, convert, convert_digits, digits_below, lemma_convert, lemma_convert_roundtrip, value,
};

verus! {

/// The character of a base58 digit: the digits without `0`, the upper case letters without `I` and
/// `O`, then the lower case letters without `l`.
pub open spec fn digit_char(digit: nat) -> char {
    if digit < 9 {
        ('1' as nat + digit) as char
    } else if digit < 17 {
        ('A' as nat + (digit - 9)) as char
    } else if digit < 22 {
        ('J' as nat + (digit - 17)) as char
    } else if digit < 33 {
        ('P' as nat + (digit - 22)) as char
    } else if digit < 44 {
        ('a' as nat + (digit - 33)) as char
    } else {
        ('m' as nat + (digit - 44)) as char
    }
}

/// The digit that a base58 character stands for.
pub open spec fn char_digit(c: char) -> Option<nat> {
    if '1' <= c <= '9' {
        Some((c as nat - '1' as nat) as nat)
    } else if 'A' <= c <= 'H' {
        Some((c as nat - 'A' as nat + 9) as nat)
    } else if 'J' <= c <= 'N' {
        Some((c as nat - 'J' as nat + 17) as nat)
    } else if 'P' <= c <= 'Z' {
        Some((c as nat - 'P' as nat + 22) as nat)
    } else if 'a' <= c <= 'k' {
        Some((c as nat - 'a' as nat + 33) as nat)
    } else if 'm' <= c <= 'z' {
        Some((c as nat - 'm' as nat + 44) as nat)
    } else {
        None
    }
}

/// Every character of `text` is a base58 digit.
pub open spec fn is_base58(text: Seq<char>) -> bool {
    forall|i: int| 0 <= i < text.len() ==> char_digit(#[trigger] text[i]) is Some
}

/// The digits that base58 text stands for.
pub open spec fn text_digits(text: Seq<char>) -> Seq<nat> {
    text.map_values(|c: char| char_digit(c)->0)
}

/// The base58 text of `data`.
pub open spec fn base58_text(data: Seq<u8>) -> Seq<char> {
    convert(as_digits(data), 256, 58).map_values(|d: nat| digit_char(d))
}

/// The bytes that base58 text stands for, if it is base58 text.
pub open spec fn base58_bytes(text: Seq<char>) -> Option<Seq<u8>> {
    if is_base58(text) {
        Some(convert(text_digits(text), 58, 256).map_values(|d: nat| d as u8))
    } else {
        None
    }
}

proof fn lemma_digit_char(digit: nat)
    requires
        digit < 58,
    ensures
        char_digit(digit_char(digit)) == Some(digit),
{
}

proof fn lemma_char_digit(c: char)
    requires
        char_digit(c) is Some,
    ensures
        char_digit(c)->0 < 58,
        digit_char(char_digit(c)->0) == c,
{
}

proof fn lemma_text_digits_below(text: Seq<char>)
    requires
        is_base58(text),
    ensures
        digits_below(text_digits(text), 58),
{
    let digits = text_digits(text);
    assert forall|i: int| 0 <= i < digits.len() implies #[trigger] digits[i] < 58 by {
        lemma_char_digit(text[i]);
    }
}

/// Bytes come back unchanged from their base58 text.
pub proof fn lemma_bytes_of_text(data: Seq<u8>)
    ensures
        is_base58(base58_text(data)),
        base58_bytes(base58_text(data)) == Some(data),
{
    let text = base58_text(data);
    let digits = convert(as_digits(data), 256, 58);
    lemma_convert_roundtrip(as_digits(data), 256, 58);
    assert forall|i: int| 0 <= i < text.len() implies char_digit(#[trigger] text[i]) == Some(
        digits[i],
    ) by {
        lemma_digit_char(digits[i]);
    }
    assert(text_digits(text) =~= digits);
    assert(as_digits(data).map_values(|d: nat| d as u8) =~= data);
}

/// Base58 text comes back unchanged from the bytes that it stands for.
pub proof fn lemma_text_of_bytes(text: Seq<char>)
    requires
        is_base58(text),
    ensures
        base58_text(base58_bytes(text)->0) == text,
{
    let digits = text_digits(text);
    lemma_text_digits_below(text);
    lemma_convert_roundtrip(digits, 58, 256);
    let wide = convert(digits, 58, 256);
    assert(as_digits(wide.map_values(|d: nat| d as u8)) =~= wide);
    assert forall|i: int| 0 <= i < text.len() implies digit_char(#[trigger] digits[i]) == text[i] by {
        lemma_char_digit(text[i]);
    }
    assert(digits.map_values(|d: nat| digit_char(d)) =~= text);
}

/// The character of a base58 digit.
fn digit_to_char(digit: u8) -> (c: char)
    requires
        digit < 58,
    ensures
        c == digit_char(digit as nat),
{
    if digit < 9 {
        (49u8 + digit) as char
    } else if digit < 17 {
        (65u8 + (digit - 9)) as char
    } else if digit < 22 {
        (74u8 + (digit - 17)) as char
    } else if digit < 33 {
        (80u8 + (digit - 22)) as char
    } else if digit < 44 {
        (97u8 + (digit - 33)) as char
    } else {
        (109u8 + (digit - 44)) as char
    }
}

/// The digit that a base58 character stands for.
fn char_to_digit(c: char) -> (digit: Option<u8>)
    ensures
        match digit {
            Some(d) => char_digit(c) == Some(d as nat) && d < 58,
            None => char_digit(c) is None,
        },
{
    let code: u32 = c as u32;
    if '1' <= c && c <= '9' {
        Some((code - 49) as u8)
    } else if 'A' <= c && c <= 'H' {
        Some((code - 65 + 9) as u8)
    } else if 'J' <= c && c <= 'N' {
        Some((code - 74 + 17) as u8)
    } else if 'P' <= c && c <= 'Z' {
        Some((code - 80 + 22) as u8)
    } else if 'a' <= c && c <= 'k' {
        Some((code - 97 + 33) as u8)
    } else if 'm' <= c && c <= 'z' {
        Some((code - 109 + 44) as u8)
    } else {
        None
    }
}

/// Writes `data` as base58 text.
pub fn encode(data: &[u8]) -> (text: String)
    ensures
        text@ == base58_text(data@),
{
    let digits = convert_digits(data, 256, 58);
    let ghost wide = as_digits(digits@);
    proof {
        lemma_convert_roundtrip(as_digits(data@), 256, 58);
    }
    let mut text = String::new();
    let mut i: usize = 0;
    while i < digits.len()
        invariant
            i <= digits@.len(),
            wide == as_digits(digits@),
            digits_below(wide, 58),
            text@ =~= wide.take(i as int).map_values(|d: nat| digit_char(d)),
        decreases digits@.len() - i,
    {
        assert(wide[i as int] < 58);
        text.push(digit_to_char(digits[i]));
        i += 1;
    }
    assert(wide.take(i as int) =~= wide);
    text
}

/// Reads base58 text; `None` if `text` holds a character that is no base58 digit.
pub fn decode(text: &str) -> (data: Option<Vec<u8>>)
    ensures
        match data {
            Some(d) => base58_bytes(text@) == Some(d@),
            None => base58_bytes(text@) is None,
        },
{
    let mut digits: Vec<u8> = Vec::new();
    for c in it: text.chars()
        invariant
            it.seq() == text@,
            digits@.len() == it.index(),
            forall|i: int|
                0 <= i < digits@.len() ==> char_digit(#[trigger] text@[i]) == Some(
                    digits@[i] as nat,
                ),
    {
        match char_to_digit(c) {
            Some(digit) => {
                digits.push(digit);
            },
            None => {
                assert(char_digit(text@[digits@.len() as int]) is None);
                return None;
            },
        }
    }
    proof {
        lemma_text_digits_below(text@);
        assert(as_digits(digits@) =~= text_digits(text@));
        lemma_convert_roundtrip(text_digits(text@), 58, 256);
    }
    let data = convert_digits(digits.as_slice(), 58, 256);
    assert(as_digits(data@).map_values(|d: nat| d as u8) =~= data@);
    Some(data)
}

/// The base58 digits are the digits and letters of ASCII without `0`, `I`, `O` and `l`. They stand
/// for the numbers below 58 in the order of their codes.
pub proof fn lemma_alphabet(a: char, b: char, digit: nat)
    ensures
        char_digit(a) is Some <==> {
            ||| '1' <= a <= '9'
            ||| 'A' <= a <= 'Z' && a != 'I' && a != 'O'
            ||| 'a' <= a <= 'z' && a != 'l'
        },
        char_digit(a) matches Some(d) ==> d < 58 && digit_char(d) == a,
        char_digit(a) is Some && char_digit(b) is Some ==> (char_digit(a)->0 < char_digit(b)->0
            <==> a < b),
        digit < 58 ==> char_digit(digit_char(digit)) == Some(digit),
{
}

/// Base58 text is the same number as the bytes, the most significant digit first: each zero byte in
/// front of the number is one `1` in front of it, and there is no other `1` in front.
pub proof fn lemma_base58_number(data: Seq<u8>, count: nat)
    requires
        count <= data.len(),
        forall|i: int| 0 <= i < count ==> #[trigger] data[i] == 0,
        count < data.len() ==> data[count as int] != 0,
    ensures
        forall|i: int|
            0 <= i < base58_text(data).len() ==> char_digit(#[trigger] base58_text(data)[i]) is Some,
        value(base58_text(data).map_values(|c: char| char_digit(c)->0), 58) == value(
            data.map_values(|b: u8| b as nat),
            256,
        ),
        count <= base58_text(data).len(),
        forall|i: int| 0 <= i < count ==> #[trigger] base58_text(data)[i] == '1',
        count < base58_text(data).len() ==> base58_text(data)[count as int] != '1',
        count == data.len() <==> count == base58_text(data).len(),
{
    let text = base58_text(data);
    let bytes = as_digits(data);
    let digits = convert(bytes, 256, 58);
    assert forall|i: int| 0 <= i < count implies #[trigger] bytes[i] == 0 by {
        assert(data[i] == 0);
    }
    lemma_convert(bytes, count, 256, 58);
    assert forall|i: int| 0 <= i < text.len() implies char_digit(#[trigger] text[i]) == Some(
        digits[i],
    ) by {
        lemma_digit_char(digits[i]);
    }
    assert(text.map_values(|c: char| char_digit(c)->0) =~= digits);
    assert(data.map_values(|b: u8| b as nat) =~= bytes);
    assert forall|i: int| 0 <= i < count implies #[trigger] text[i] == '1' by {
        assert(digits[i] == 0);
    }
    if count < text.len() {
        lemma_alphabet(text[count as int], '1', 0);
        assert(char_digit(text[count as int]) == Some(digits[count as int]));
    }
}

/// Text stands for bytes exactly if it is their base58 text, and it stands for none exactly if it
/// holds a character that is no base58 digit.
pub proof fn lemma_base58_bytes(text: Seq<char>, data: Seq<u8>)
    ensures
        base58_bytes(text) == Some(data) <==> base58_text(data) == text,
        base58_bytes(text) is Some <==> forall|i: int|
            0 <= i < text.len() ==> char_digit(#[trigger] text[i]) is Some,
{
    lemma_bytes_of_text(data);
    if is_base58(text) {
        lemma_text_of_bytes(text);
    }
}

} // verus!
