//! CB58 text, which is base58 text of bytes with a checksum, and addresses.

use vstd::prelude::*;
use vstd::slice::{slice_subrange, slice_to_vec};

use crate::base58;
use crate::base58::{base58_bytes, base58_text};
use crate::error::KeyError;
use crate::hashing::{compute_sha256, sha256_digest};
use crate::text::{ascii_lowercase, ascii_uppercase};

verus! {

/// The length of a checksum in bytes.
pub const CHECKSUM_LENGTH: usize = 4;

/// The checksum of `data`: the last four bytes of its SHA-256 digest.
pub open spec fn checksum(data: Seq<u8>) -> Seq<u8> {
    sha256_digest(data)@.subrange(28, 32)
}

/// The CB58 text of `data`.
pub open spec fn cb58_text(data: Seq<u8>) -> Seq<char> {
    base58_text(data + checksum(data))
}

/// The bytes that CB58 text stands for, or what is wrong with it.
pub open spec fn cb58_bytes(text: Seq<char>) -> Result<Seq<u8>, KeyError> {
    match base58_bytes(text) {
        None => Err(KeyError::InvalidBase58),
        Some(decoded) => if decoded.len() < CHECKSUM_LENGTH {
            Err(KeyError::MissingChecksum { length: decoded.len() as usize })
        } else {
            let data = decoded.take(decoded.len() - CHECKSUM_LENGTH);
            if decoded.skip(decoded.len() - CHECKSUM_LENGTH) == checksum(data) {
                Ok(data)
            } else {
                Err(KeyError::InvalidChecksum)
            }
        },
    }
}

/// A human-readable part has 1 to 83 characters, all of them visible ASCII, and not letters of
/// both cases.
pub open spec fn valid_hrp(hrp: Seq<char>) -> bool {
    &&& 1 <= hrp.len() <= 83
    &&& forall|i: int| 0 <= i < hrp.len() ==> 33 <= (#[trigger] hrp[i] as nat) <= 126
    &&& !((exists|i: int| 0 <= i < hrp.len() && 'a' <= #[trigger] hrp[i] <= 'z') && (exists|i: int|
        0 <= i < hrp.len() && 'A' <= #[trigger] hrp[i] <= 'Z'))
}

/// The part of a Bech32 string after the separator: `data` in groups of five bits, and a checksum
/// over the human-readable part and `data`.
pub uninterp spec fn bech32_payload(hrp: Seq<char>, data: Seq<u8>) -> Seq<char>;

/// The Bech32 text of `data`: the human-readable part in lower case, the separator `1`, the
/// payload.
pub open spec fn bech32_text(hrp: Seq<char>, data: Seq<u8>) -> Seq<char> {
    hrp.map_values(|c: char| ascii_lowercase(c)) + seq!['1'] + bech32_payload(hrp, data)
}

/// An address: the alias of the chain, a dash, and the Bech32 text of `data`.
pub open spec fn address_text(chain_id_alias: Seq<char>, hrp: Seq<char>, data: Seq<u8>) -> Seq<
    char,
> {
    chain_id_alias + seq!['-'] + bech32_text(hrp, data)
}

/// An error of the `bech32` crate.
#[verifier::external_type_specification]
#[verifier::external_body]
pub struct ExBech32Error(bitcoin::bech32::Error);

/// `bitcoin::bech32::encode` of bytes in groups of five bits, in the variant of BIP 173. It fails
/// exactly if the human-readable part is not valid. What stands after the separator is a function
/// of both arguments that is named, not described.
#[verifier::external_body]
fn bech32_encode(hrp: &str, data: &[u8]) -> (text: Result<String, bitcoin::bech32::Error>)
    ensures
        text is Ok <==> valid_hrp(hrp@),
        text matches Ok(t) ==> t@ == hrp@.map_values(|c: char| ascii_lowercase(c)) + seq!['1']
            + bech32_payload(hrp@, data@),
{
    let groups = bitcoin::bech32::ToBase32::to_base32(&data);
    bitcoin::bech32::encode(hrp, groups, bitcoin::bech32::Variant::Bech32)
}

/// Bytes come back unchanged from their CB58 text.
pub proof fn lemma_bytes_of_cb58_text(data: Seq<u8>)
    ensures
        cb58_bytes(cb58_text(data)) == Ok::<Seq<u8>, KeyError>(data),
{
    let checked = data + checksum(data);
    base58::lemma_bytes_of_text(checked);
    assert(checked.take(checked.len() - CHECKSUM_LENGTH) =~= data);
    assert(checked.skip(checked.len() - CHECKSUM_LENGTH) =~= checksum(data));
}

/// Only one CB58 text stands for given bytes.
pub proof fn lemma_cb58_text_of_bytes(text: Seq<char>, data: Seq<u8>)
    requires
        cb58_bytes(text) == Ok::<Seq<u8>, KeyError>(data),
    ensures
        cb58_text(data) == text,
{
    let decoded = base58_bytes(text)->0;
    base58::lemma_text_of_bytes(text);
    assert(data + checksum(data) =~= decoded);
}

/// Different bytes have different CB58 text.
pub proof fn lemma_cb58_text_injective(a: Seq<u8>, b: Seq<u8>)
    ensures
        cb58_text(a) == cb58_text(b) <==> a == b,
{
    lemma_bytes_of_cb58_text(a);
    lemma_bytes_of_cb58_text(b);
}

/// The two slices hold the same bytes.
fn same_bytes(a: &[u8], b: &[u8]) -> (same: bool)
    ensures
        same == (a@ == b@),
{
    if a.len() != b.len() {
        return false;
    }
    let mut i: usize = 0;
    while i < a.len()
        invariant
            i <= a@.len(),
            a@.len() == b@.len(),
            forall|k: int| 0 <= k < i ==> a@[k] == #[trigger] b@[k],
        decreases a@.len() - i,
    {
        if a[i] != b[i] {
            return false;
        }
        i += 1;
    }
    assert(a@ =~= b@);
    true
}

/// The checksum of `data`.
fn compute_checksum(data: &[u8]) -> (sum: Vec<u8>)
    ensures
        sum@ == checksum(data@),
        sum@.len() == CHECKSUM_LENGTH,
{
    let digest = compute_sha256(data);
    slice_to_vec(slice_subrange(digest.as_slice(), 28, 32))
}

/// Writes `data` as CB58 text.
pub fn encode_cb58_with_checksum(data: &[u8]) -> (text: String)
    ensures
        text@ == cb58_text(data@),
{
    let mut checked = slice_to_vec(data);
    let mut sum = compute_checksum(data);
    checked.append(&mut sum);
    base58::encode(checked.as_slice())
}

/// Reads CB58 text and checks its checksum.
pub fn decode_cb58_with_checksum(text: &str) -> (decoded: Result<Vec<u8>, KeyError>)
    ensures
        match decoded {
            Ok(data) => cb58_bytes(text@) == Ok::<Seq<u8>, KeyError>(data@),
            Err(e) => cb58_bytes(text@) == Err::<Seq<u8>, KeyError>(e),
        },
{
    let decoded = match base58::decode(text) {
        Some(decoded) => decoded,
        None => {
            return Err(KeyError::InvalidBase58);
        },
    };
    let length = decoded.len();
    if length < CHECKSUM_LENGTH {
        return Err(KeyError::MissingChecksum { length });
    }
    let data = slice_subrange(decoded.as_slice(), 0, length - CHECKSUM_LENGTH);
    let found = slice_subrange(decoded.as_slice(), length - CHECKSUM_LENGTH, length);
    let expected = compute_checksum(data);
    proof {
        assert(data@ =~= decoded@.take(length - CHECKSUM_LENGTH));
        assert(found@ =~= decoded@.skip(length - CHECKSUM_LENGTH));
    }
    if same_bytes(found, expected.as_slice()) {
        Ok(slice_to_vec(data))
    } else {
        Err(KeyError::InvalidChecksum)
    }
}

/// Writes an address.
pub fn address(chain_id_alias: &str, hrp: &str, data: &[u8]) -> (text: Result<String, KeyError>)
    ensures
        match text {
            Ok(t) => valid_hrp(hrp@) && t@ == address_text(chain_id_alias@, hrp@, data@),
            Err(e) => !valid_hrp(hrp@) && e == KeyError::InvalidHumanReadablePart,
        },
{
    match bech32_encode(hrp, data) {
        Ok(encoded) => {
            let mut text = String::new();
            text.append(chain_id_alias);
            text.push('-');
            text.append(encoded.as_str());
            assert(text@ =~= address_text(chain_id_alias@, hrp@, data@));
            Ok(text)
        },
        Err(_) => Err(KeyError::InvalidHumanReadablePart),
    }
}

/// What CB58 text stands for in base58 is the bytes, then the last four of the 32 bytes of their
/// SHA-256 digest.
pub proof fn lemma_cb58_checksum(data: Seq<u8>)
    ensures
        base58_bytes(cb58_text(data)) == Some(data + sha256_digest(data)@.subrange(28, 32)),
{
    base58::lemma_bytes_of_text(data + checksum(data));
}

/// CB58 text is accepted exactly if it stands in base58 for bytes that end with the last four of
/// the 32 bytes of the SHA-256 digest of those before.
pub proof fn lemma_cb58_accepted(text: Seq<char>, data: Seq<u8>)
    ensures
        cb58_bytes(text) == Ok::<Seq<u8>, KeyError>(data) <==> base58_bytes(text) == Some(
            data + sha256_digest(data)@.subrange(28, 32),
        ),
{
    let checked = data + sha256_digest(data)@.subrange(28, 32);
    assert(checked.take(checked.len() - 4) =~= data);
    assert(checked.skip(checked.len() - 4) =~= sha256_digest(data)@.subrange(28, 32));
    if base58_bytes(text) is Some {
        let decoded = base58_bytes(text)->0;
        if decoded.len() >= 4 {
            assert(decoded.take(decoded.len() - 4) + decoded.skip(decoded.len() - 4) =~= decoded);
        }
    }
}

/// CB58 text is refused as no base58 text, for too few bytes to hold a checksum, or because no bytes
/// have the text with the checksum that it holds.
pub proof fn lemma_cb58_refused(text: Seq<char>, length: usize)
    ensures
        cb58_bytes(text) == Err::<Seq<u8>, KeyError>(KeyError::InvalidBase58) <==> base58_bytes(
            text,
        ) is None,
        cb58_bytes(text) == Err::<Seq<u8>, KeyError>(KeyError::MissingChecksum { length }) <==> {
            &&& base58_bytes(text) matches Some(decoded)
            &&& decoded.len() < 4
            &&& decoded.len() == length
        },
        cb58_bytes(text) == Err::<Seq<u8>, KeyError>(KeyError::InvalidChecksum) <==> {
            &&& base58_bytes(text) matches Some(decoded)
            &&& decoded.len() >= 4
            &&& forall|data: Seq<u8>|
                decoded != #[trigger] (data + sha256_digest(data)@.subrange(28, 32))
        },
{
    if base58_bytes(text) is Some {
        let decoded = base58_bytes(text)->0;
        if decoded.len() >= 4 {
            let front = decoded.take(decoded.len() - 4);
            lemma_cb58_accepted(text, front);
            assert forall|data: Seq<u8>|
                decoded == #[trigger] (data + sha256_digest(data)@.subrange(28, 32)) implies data
                == front by {
                assert(front =~= data);
            }
            assert(decoded =~= front + decoded.skip(decoded.len() - 4));
        }
    }
}

/// A human-readable part is allowed exactly if it has 1 to 83 characters, all of them visible
/// ASCII, and does not change if all of its letters are put in lower case, or if all are put in
/// upper case.
pub proof fn lemma_valid_hrp(hrp: Seq<char>)
    ensures
        valid_hrp(hrp) <==> {
            &&& 1 <= hrp.len() <= 83
            &&& forall|i: int| 0 <= i < hrp.len() ==> '!' <= #[trigger] hrp[i] <= '~'
            &&& ({
                ||| hrp.map_values(|c: char| ascii_lowercase(c)) == hrp
                ||| hrp.map_values(|c: char| ascii_uppercase(c)) == hrp
            })
        },
{
    let lower = hrp.map_values(|c: char| ascii_lowercase(c));
    let upper = hrp.map_values(|c: char| ascii_uppercase(c));
    if !(exists|i: int| 0 <= i < hrp.len() && 'A' <= #[trigger] hrp[i] <= 'Z') {
        assert(lower =~= hrp);
    } else {
        let i = choose|i: int| 0 <= i < hrp.len() && 'A' <= #[trigger] hrp[i] <= 'Z';
        assert(lower[i] != hrp[i]);
    }
    if !(exists|i: int| 0 <= i < hrp.len() && 'a' <= #[trigger] hrp[i] <= 'z') {
        assert(upper =~= hrp);
    } else {
        let i = choose|i: int| 0 <= i < hrp.len() && 'a' <= #[trigger] hrp[i] <= 'z';
        assert(upper[i] != hrp[i]);
    }
}

/// An address is the alias, a dash, the human-readable part in lower case, a `1`, and then the
/// payload of the same part and data, with nothing between them.
pub proof fn lemma_address_parts(
    chain_id_alias: Seq<char>,
    hrp: Seq<char>,
    lower: Seq<char>,
    data: Seq<u8>,
)
    requires
        lower.len() == hrp.len(),
        forall|i: int|
            0 <= i < hrp.len() ==> #[trigger] lower[i] == if 'A' <= hrp[i] <= 'Z' {
                (hrp[i] as nat + 32) as char
            } else {
                hrp[i]
            },
    ensures
        address_text(chain_id_alias, hrp, data) == chain_id_alias + seq!['-'] + lower + seq!['1']
            + bech32_payload(hrp, data),
{
    assert(hrp.map_values(|c: char| ascii_lowercase(c)) =~= lower);
    assert(address_text(chain_id_alias, hrp, data) =~= chain_id_alias + seq!['-'] + lower + seq!['1']
        + bech32_payload(hrp, data));
}

} // verus!
