//! Hexadecimal text: two digits for each byte.

use vstd::prelude::*;
use vstd::string::StringSliceAdditionalSpecFns;
use vstd::utf8::{encode_utf8, is_ascii_chars, is_ascii_chars_encode_utf8};

use crate::text::{ascii_lowercase, lemma_ascii_text_of_bytes, lowercase};

verus! {

/// The lower case character of a hexadecimal digit.
pub open spec fn hex_char(digit: nat) -> char {
    if digit < 10 {
        ('0' as nat + digit) as char
    } else {
        ('a' as nat + (digit - 10)) as char
    }
}

/// The digit that a hexadecimal character of either case stands for.
pub open spec fn hex_digit(c: char) -> Option<nat> {
    if '0' <= c <= '9' {
        Some((c as nat - '0' as nat) as nat)
    } else if 'a' <= c <= 'f' {
        Some((c as nat - 'a' as nat + 10) as nat)
    } else if 'A' <= c <= 'F' {
        Some((c as nat - 'A' as nat + 10) as nat)
    } else {
        None
    }
}

/// The lower case hexadecimal text of `data`.
pub open spec fn hex_text(data: Seq<u8>) -> Seq<char> {
    Seq::new(
        data.len() * 2,
        |i: int|
            hex_char(
                if i % 2 == 0 {
                    data[i / 2] as nat / 16
                } else {
                    data[i / 2] as nat % 16
                },
            ),
    )
}

/// How many characters of `text`, given as UTF-8, come before the first that is no hexadecimal
/// digit.
pub open spec fn hex_prefix(text: Seq<u8>) -> nat
    decreases text.len(),
{
    if text.len() > 0 && hex_digit(text[0] as char) is Some {
        1 + hex_prefix(text.drop_first())
    } else {
        0
    }
}

/// Why text is not hexadecimal.
#[derive(Debug, Clone, Copy, PartialEq, Eq, Structural)]
pub enum HexError {
    /// The byte at `index` is no hexadecimal digit; `c` is the character with its number.
    InvalidHexCharacter { c: char, index: usize },
    /// The text has an odd number of bytes.
    OddLength,
    /// The text does not fill a container of fixed size.
    InvalidStringLength,
}

/// The bytes that hexadecimal text, given as UTF-8, stands for, or what is wrong with it.
pub open spec fn hex_bytes(text: Seq<u8>) -> Result<Seq<u8>, HexError> {
    let valid = hex_prefix(text);
    if text.len() % 2 != 0 {
        Err(HexError::OddLength)
    } else if valid < text.len() {
        Err(
            HexError::InvalidHexCharacter {
                c: text[valid as int] as char,
                index: valid as usize,
            },
        )
    } else {
        Ok(
            Seq::new(
                text.len() / 2,
                |i: int|
                    (hex_digit(text[2 * i] as char)->0 * 16 + hex_digit(
                        text[2 * i + 1] as char,
                    )->0) as u8,
            ),
        )
    }
}

/// `hex::encode` writes two lower case digits for each byte, the high half first.
#[verifier::external_body]
pub(crate) fn encode(data: &[u8]) -> (text: String)
    ensures
        text@ == hex_text(data@),
{
    hex::encode(data)
}

/// `hex::decode` takes digits of either case. It looks for an odd length first, then reads from
/// left to right and stops at the first byte that is no digit.
#[verifier::external_body]
pub(crate) fn decode(text: &str) -> (data: Result<Vec<u8>, HexError>)
    ensures
        match data {
            Ok(bytes) => hex_bytes(text.spec_bytes()) == Ok::<Seq<u8>, HexError>(bytes@),
            Err(e) => hex_bytes(text.spec_bytes()) == Err::<Seq<u8>, HexError>(e),
        },
{
    match hex::decode(text) {
        Ok(bytes) => Ok(bytes),
        Err(hex::FromHexError::InvalidHexCharacter { c, index }) => Err(
            HexError::InvalidHexCharacter { c, index },
        ),
        Err(hex::FromHexError::OddLength) => Err(HexError::OddLength),
        Err(hex::FromHexError::InvalidStringLength) => Err(HexError::InvalidStringLength),
    }
}

/// The digit that a hexadecimal character of either case stands for.
pub(crate) fn digit_value(c: char) -> (digit: Option<u32>)
    ensures
        match digit {
            Some(d) => hex_digit(c) == Some(d as nat),
            None => hex_digit(c) is None,
        },
{
    let code: u32 = c as u32;
    if '0' <= c && c <= '9' {
        Some(code - 48)
    } else if 'a' <= c && c <= 'f' {
        Some(code - 97 + 10)
    } else if 'A' <= c && c <= 'F' {
        Some(code - 65 + 10)
    } else {
        None
    }
}

proof fn lemma_hex_char(digit: nat)
    requires
        digit < 16,
    ensures
        hex_digit(hex_char(digit)) == Some(digit),
        hex_char(digit) as nat <= 'f' as nat,
        hex_char(digit) as u8 as char == hex_char(digit),
{
}

proof fn lemma_hex_prefix_full(text: Seq<u8>)
    requires
        forall|i: int| 0 <= i < text.len() ==> hex_digit(#[trigger] text[i] as char) is Some,
    ensures
        hex_prefix(text) == text.len(),
    decreases text.len(),
{
    if text.len() > 0 {
        lemma_hex_prefix_full(text.drop_first());
    }
}

/// Each character of hexadecimal text is an ASCII digit.
pub proof fn lemma_hex_text_chars(data: Seq<u8>)
    ensures
        hex_text(data).len() == data.len() * 2,
        forall|i: int|
            0 <= i < hex_text(data).len() ==> hex_digit(#[trigger] hex_text(data)[i]) is Some,
        forall|i: int|
            0 <= i < hex_text(data).len() ==> {
                ||| '0' <= #[trigger] hex_text(data)[i] <= '9'
                ||| 'a' <= hex_text(data)[i] <= 'f'
            },
        is_ascii_chars(hex_text(data)),
{
    let text = hex_text(data);
    assert forall|i: int| 0 <= i < text.len() implies {
        &&& hex_digit(#[trigger] text[i]) is Some
        &&& ('0' <= text[i] <= '9' || 'a' <= text[i] <= 'f')
    } by {
        lemma_hex_char(data[i / 2] as nat / 16);
        lemma_hex_char(data[i / 2] as nat % 16);
    }
}

/// Bytes come back unchanged from their hexadecimal text.
pub proof fn lemma_bytes_of_text(data: Seq<u8>)
    ensures
        hex_bytes(encode_utf8(hex_text(data))) == Ok::<Seq<u8>, HexError>(data),
{
    let text = hex_text(data);
    lemma_hex_text_chars(data);
    is_ascii_chars_encode_utf8(text);
    let bytes = encode_utf8(text);
    assert forall|i: int| 0 <= i < bytes.len() implies hex_digit(#[trigger] bytes[i] as char)
        == hex_digit(text[i]) by {
        lemma_hex_char(data[i / 2] as nat / 16);
        lemma_hex_char(data[i / 2] as nat % 16);
    }
    lemma_hex_prefix_full(bytes);
    let back = hex_bytes(bytes)->Ok_0;
    assert forall|i: int| 0 <= i < data.len() implies #[trigger] back[i] == data[i] by {
        lemma_hex_char(data[i] as nat / 16);
        lemma_hex_char(data[i] as nat % 16);
        assert(bytes[2 * i] as char == text[2 * i]);
        assert(bytes[2 * i + 1] as char == text[2 * i + 1]);
    }
    assert(back =~= data);
}

proof fn lemma_hex_prefix(text: Seq<u8>)
    ensures
        hex_prefix(text) <= text.len(),
        forall|i: int|
            0 <= i < hex_prefix(text) ==> hex_digit(#[trigger] text[i] as char) is Some,
    decreases text.len(),
{
    if text.len() > 0 && hex_digit(text[0] as char) is Some {
        let rest = text.drop_first();
        lemma_hex_prefix(rest);
        assert forall|i: int| 0 <= i < hex_prefix(text) implies hex_digit(
            #[trigger] text[i] as char,
        ) is Some by {
            if i > 0 {
                assert(rest[i - 1] == text[i]);
            }
        }
    }
}

/// Hexadecimal text of either case that stands for bytes is their hexadecimal text, but for its
/// case.
pub proof fn lemma_text_of_bytes(text: Seq<char>, data: Seq<u8>)
    requires
        hex_bytes(encode_utf8(text)) == Ok::<Seq<u8>, HexError>(data),
    ensures
        hex_text(data) == lowercase(text),
{
    let bytes = encode_utf8(text);
    lemma_hex_prefix(bytes);
    assert forall|i: int| 0 <= i < bytes.len() implies #[trigger] bytes[i] < 128 by {
        assert(hex_digit(bytes[i] as char) is Some);
    }
    lemma_ascii_text_of_bytes(text);
    is_ascii_chars_encode_utf8(text);
    assert forall|i: int| 0 <= i < text.len() implies #[trigger] hex_text(data)[i]
        == ascii_lowercase(text[i]) by {
        let k = i / 2;
        assert(bytes[2 * k] as char == text[2 * k]);
        assert(bytes[2 * k + 1] as char == text[2 * k + 1]);
        assert(hex_digit(bytes[2 * k] as char) is Some);
        assert(hex_digit(bytes[2 * k + 1] as char) is Some);
    }
    assert(hex_text(data) =~= lowercase(text));
}

/// The hexadecimal digits are `0` to `9`, `a` to `f` and `A` to `F`. Those that are not in upper
/// case stand for the numbers below 16 in the order of their codes, and one in upper case stands
/// for what it stands for in lower case.
pub proof fn lemma_hex_alphabet(a: char, b: char)
    ensures
        hex_digit(a) is Some <==> {
            ||| '0' <= a <= '9'
            ||| 'a' <= a <= 'f'
            ||| 'A' <= a <= 'F'
        },
        hex_digit(a) matches Some(d) ==> d < 16,
        'A' <= a <= 'F' && 'a' <= b <= 'f' && b as nat == a as nat + 32 ==> hex_digit(a)
            == hex_digit(b),
        hex_digit(a) is Some && hex_digit(b) is Some && !('A' <= a <= 'F') && !('A' <= b <= 'F')
            ==> (hex_digit(a)->0 < hex_digit(b)->0 <==> a < b),
{
}

/// Hexadecimal text has the high half and then the low half of each byte, and no upper case letter.
pub proof fn lemma_hex_text_halves(data: Seq<u8>)
    ensures
        hex_text(data).len() == 2 * data.len(),
        forall|i: int|
            0 <= i < data.len() ==> {
                &&& hex_digit(hex_text(data)[2 * i]) == Some(#[trigger] data[i] as nat / 16)
                &&& hex_digit(hex_text(data)[2 * i + 1]) == Some(data[i] as nat % 16)
            },
        forall|i: int|
            0 <= i < hex_text(data).len() ==> !('A' <= #[trigger] hex_text(data)[i] <= 'Z'),
{
    lemma_hex_text_chars(data);
    assert forall|i: int| 0 <= i < data.len() implies {
        &&& hex_digit(hex_text(data)[2 * i]) == Some(#[trigger] data[i] as nat / 16)
        &&& hex_digit(hex_text(data)[2 * i + 1]) == Some(data[i] as nat % 16)
    } by {
        lemma_hex_char(data[i] as nat / 16);
        lemma_hex_char(data[i] as nat % 16);
    }
}

/// Text stands for bytes exactly if it has two digits for each byte, of either case: its high half
/// and then its low half.
pub proof fn lemma_hex_bytes(text: Seq<u8>, data: Seq<u8>)
    ensures
        hex_bytes(text) == Ok::<Seq<u8>, HexError>(data) <==> {
            &&& text.len() == 2 * data.len()
            &&& forall|i: int|
                0 <= i < data.len() ==> {
                    &&& hex_digit(text[2 * i] as char) == Some(#[trigger] data[i] as nat / 16)
                    &&& hex_digit(text[2 * i + 1] as char) == Some(data[i] as nat % 16)
                }
        },
{
    let halves = text.len() == 2 * data.len() && forall|i: int|
        0 <= i < data.len() ==> {
            &&& hex_digit(text[2 * i] as char) == Some(#[trigger] data[i] as nat / 16)
            &&& hex_digit(text[2 * i + 1] as char) == Some(data[i] as nat % 16)
        };
    lemma_hex_prefix(text);
    if halves {
        assert forall|i: int| 0 <= i < text.len() implies hex_digit(
            #[trigger] text[i] as char,
        ) is Some by {
            let k = i / 2;
            assert(data[k] as nat / 16 < 16);
            assert(i == 2 * k || i == 2 * k + 1);
        }
        lemma_hex_prefix_full(text);
        let back = hex_bytes(text)->Ok_0;
        assert forall|i: int| 0 <= i < data.len() implies #[trigger] back[i] == data[i] by {
            assert(data[i] as nat / 16 < 16);
        }
        assert(back =~= data);
    }
    if hex_bytes(text) == Ok::<Seq<u8>, HexError>(data) {
        assert forall|i: int| 0 <= i < data.len() implies {
            &&& hex_digit(text[2 * i] as char) == Some(#[trigger] data[i] as nat / 16)
            &&& hex_digit(text[2 * i + 1] as char) == Some(data[i] as nat % 16)
        } by {
            assert(hex_digit(text[2 * i] as char) is Some);
            assert(hex_digit(text[2 * i + 1] as char) is Some);
        }
    }
}

/// Text of an odd number of bytes is refused for that. Any other text that is refused is refused
/// for the first byte of it that is no digit.
pub proof fn lemma_hex_refused(text: Seq<u8>, c: char, index: usize)
    requires
        text.len() <= usize::MAX,
    ensures
        hex_bytes(text) == Err::<Seq<u8>, HexError>(HexError::OddLength) <==> text.len() % 2 == 1,
        hex_bytes(text) == Err::<Seq<u8>, HexError>(HexError::InvalidHexCharacter { c, index }) <==> {
            &&& text.len() % 2 == 0
            &&& index < text.len()
            &&& forall|i: int| 0 <= i < index ==> hex_digit(#[trigger] text[i] as char) is Some
            &&& hex_digit(text[index as int] as char) is None
            &&& c == text[index as int] as char
        },
        hex_bytes(text) != Err::<Seq<u8>, HexError>(HexError::InvalidStringLength),
{
    lemma_hex_prefix(text);
    lemma_hex_prefix_ends(text);
    let valid = hex_prefix(text);
    if index < text.len() && hex_digit(text[index as int] as char) is None {
        assert(!(index < valid));
    }
}

proof fn lemma_hex_prefix_ends(text: Seq<u8>)
    ensures
        hex_prefix(text) < text.len() ==> hex_digit(
            text[hex_prefix(text) as int] as char,
        ) is None,
    decreases text.len(),
{
    if text.len() > 0 && hex_digit(text[0] as char) is Some {
        lemma_hex_prefix_ends(text.drop_first());
    }
}

} // verus!
