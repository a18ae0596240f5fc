//! What can go wrong.

use vstd::prelude::*;

use crate::curve::SECRET_KEY_SIZE;
use crate::hexadecimal::HexError;
use crate::text::{decimal, lemma_decimal, push_decimal, quote, quoted};

verus! {

/// Why a key could not be loaded, or an output could not be spent.
#[derive(Debug, Clone, Copy, PartialEq, Eq, Structural)]
pub enum KeyError {
    /// The input is no UTF-8: `valid_up_to` bytes are, and `error_len` bytes after them can never
    /// be, where `None` says that the input ends inside a character.
    InvalidUtf8 { valid_up_to: usize, error_len: Option<usize> },
    /// The key on this line, counted from 1, stands on an earlier line too.
    DuplicateKey { line: usize },
    /// The text holds a character that is no base58 digit.
    InvalidBase58,
    /// The decoded bytes are too few to hold a checksum.
    MissingChecksum { length: usize },
    /// The checksum does not belong to the bytes before it.
    InvalidChecksum,
    /// The text is not hexadecimal.
    InvalidHex { reason: HexError },
    /// The decoded bytes are not as many as a secret key has.
    UnexpectedSecretKeySize { length: usize },
    /// The bytes are out of range for a secret key.
    InvalidSecretKey,
    /// The human-readable part of an address is not allowed.
    InvalidHumanReadablePart,
    /// There is no source of randomness.
    NoRandomness,
    /// The keys do not reach the threshold of an output.
    ThresholdNotMet,
}

/// What is wrong with hexadecimal text, in words.
pub open spec fn hex_error_text(reason: HexError) -> Seq<char> {
    match reason {
        HexError::InvalidHexCharacter { c, index } => "Invalid character "@ + quoted(c)
            + " at position "@ + decimal(index as nat),
        HexError::OddLength => "Odd number of digits"@,
        HexError::InvalidStringLength => "Invalid string length"@,
    }
}

impl KeyError {
    /// What went wrong, in words.
    pub open spec fn text(&self) -> Seq<char> {
        match *self {
            KeyError::InvalidUtf8 { valid_up_to, error_len: Some(len) } =>
                "failed to convert str from_utf8 invalid utf-8 sequence of "@ + decimal(len as nat)
                + " bytes from index "@ + decimal(valid_up_to as nat),
            KeyError::InvalidUtf8 { valid_up_to, error_len: None } =>
                "failed to convert str from_utf8 incomplete utf-8 byte sequence from index "@
                + decimal(valid_up_to as nat),
            KeyError::DuplicateKey { line } => "key at line "@ + decimal(line as nat)
                + " already added before"@,
            KeyError::InvalidBase58 => "failed to decode base58"@,
            KeyError::MissingChecksum { length } => "no checksum in "@ + decimal(length as nat)
                + " decoded bytes"@,
            KeyError::InvalidChecksum => "invalid checksum"@,
            KeyError::InvalidHex { reason } => "failed to decode hex private key ("@
                + hex_error_text(reason) + ")"@,
            KeyError::UnexpectedSecretKeySize { length } => "unexpected secret key size ("@
                + decimal(length as nat) + ", expected "@ + decimal(SECRET_KEY_SIZE as nat) + ")"@,
            KeyError::InvalidSecretKey =>
                "failed to load secret key (secp: malformed or out-of-range secret key)"@,
            KeyError::InvalidHumanReadablePart => "invalid human-readable part"@,
            KeyError::NoRandomness => "no source of randomness"@,
            KeyError::ThresholdNotMet => "unable to spend this UTXO (threshold not met)"@,
        }
    }

    /// What went wrong, in words.
    pub fn message(&self) -> (message: String)
        ensures
            message@ == self.text(),
    {
        let mut message = String::new();
        match *self {
            KeyError::InvalidUtf8 { valid_up_to, error_len: Some(len) } => {
                message.append("failed to convert str from_utf8 invalid utf-8 sequence of ");
                push_decimal(&mut message, len);
                message.append(" bytes from index ");
                push_decimal(&mut message, valid_up_to);
            },
            KeyError::InvalidUtf8 { valid_up_to, error_len: None } => {
                message.append(
                    "failed to convert str from_utf8 incomplete utf-8 byte sequence from index ",
                );
                push_decimal(&mut message, valid_up_to);
            },
            KeyError::DuplicateKey { line } => {
                message.append("key at line ");
                push_decimal(&mut message, line);
                message.append(" already added before");
            },
            KeyError::InvalidBase58 => message.append("failed to decode base58"),
            KeyError::MissingChecksum { length } => {
                message.append("no checksum in ");
                push_decimal(&mut message, length);
                message.append(" decoded bytes");
            },
            KeyError::InvalidChecksum => message.append("invalid checksum"),
            KeyError::InvalidHex { reason } => {
                message.append("failed to decode hex private key (");
                push_hex_error(&mut message, reason);
                message.append(")");
            },
            KeyError::UnexpectedSecretKeySize { length } => {
                message.append("unexpected secret key size (");
                push_decimal(&mut message, length);
                message.append(", expected ");
                push_decimal(&mut message, SECRET_KEY_SIZE);
                message.append(")");
            },
            KeyError::InvalidSecretKey => message.append(
                "failed to load secret key (secp: malformed or out-of-range secret key)",
            ),
            KeyError::InvalidHumanReadablePart => message.append("invalid human-readable part"),
            KeyError::NoRandomness => message.append("no source of randomness"),
            KeyError::ThresholdNotMet => message.append(
                "unable to spend this UTXO (threshold not met)",
            ),
        }
        assert(message@ =~= self.text());
        message
    }
}

/// Appends what is wrong with hexadecimal text, in words.
fn push_hex_error(message: &mut String, reason: HexError)
    ensures
        final(message)@ == old(message)@ + hex_error_text(reason),
{
    match reason {
        HexError::InvalidHexCharacter { c, index } => {
            let shown = quote(c);
            message.append("Invalid character ");
            message.append(shown.as_str());
            message.append(" at position ");
            push_decimal(message, index);
        },
        HexError::OddLength => message.append("Odd number of digits"),
        HexError::InvalidStringLength => message.append("Invalid string length"),
    }
    assert(message@ =~= old(message)@ + hex_error_text(reason));
}

/// The words for a key that is repeated name its line, those for a secret key of another size name
/// both sizes, and those for a refused private key name what is wrong with it.
pub proof fn lemma_words(number: usize, len: usize, reason: HexError, c: char)
    ensures
        (KeyError::DuplicateKey { line: number }).text() == "key at line "@ + decimal(number as nat)
            + " already added before"@,
        (KeyError::UnexpectedSecretKeySize { length: number }).text()
            == "unexpected secret key size ("@ + decimal(number as nat) + ", expected 32)"@,
        (KeyError::InvalidHex { reason }).text() == "failed to decode hex private key ("@
            + hex_error_text(reason) + ")"@,
        hex_error_text(HexError::OddLength) == "Odd number of digits"@,
        hex_error_text((HexError::InvalidHexCharacter { c, index: number })) == "Invalid character "@
            + quoted(c) + " at position "@ + decimal(number as nat),
        KeyError::InvalidSecretKey.text()
            == "failed to load secret key (secp: malformed or out-of-range secret key)"@,
        KeyError::ThresholdNotMet.text() == "unable to spend this UTXO (threshold not met)"@,
        (KeyError::InvalidUtf8 { valid_up_to: number, error_len: None }).text()
            == "failed to convert str from_utf8 incomplete utf-8 byte sequence from index "@
            + decimal(number as nat),
        (KeyError::InvalidUtf8 { valid_up_to: number, error_len: Some(len) }).text()
            == "failed to convert str from_utf8 invalid utf-8 sequence of "@ + decimal(len as nat)
            + " bytes from index "@ + decimal(number as nat),
{
    lemma_decimal(32);
    lemma_decimal(3);
    lemma_decimal(2);
    reveal_strlit(", expected ");
    reveal_strlit(")");
    reveal_strlit(", expected 32)");
    assert(", expected "@ + decimal(32) + ")"@ =~= ", expected 32)"@);
    assert((KeyError::UnexpectedSecretKeySize { length: number }).text()
        =~= "unexpected secret key size ("@ + decimal(number as nat) + (", expected "@ + decimal(32)
        + ")"@));
}

} // verus!
