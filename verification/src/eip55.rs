//! Ethereum addresses, where the case of the letters is a checksum.

use vstd::prelude::*;
use vstd::slice::slice_subrange;
use vstd::utf8::{encode_utf8, is_ascii_chars};

use crate::curve::PublicKey;
use crate::error::KeyError;
use crate::hashing::{keccak256, keccak256_digest};
use crate::hexadecimal::{digit_value, hex_digit, hex_text, lemma_hex_text_chars, lemma_hex_text_halves};
use crate::prefix::{lemma_0x, prepend_0x, strip_0x, with_0x, without_0x};
use crate::text::{
    ascii_lowercase, ascii_uppercase, has_prefix, lowercase, to_chars, to_lowercase, to_uppercase,
    unicode_lowercase, uppercase,
};

verus! {

/// A character of an address in upper case if the character of the hash beside it is a hexadecimal
/// digit from 8 up, else as it is.
pub open spec fn checksum_char(c: char, hash_char: char) -> Seq<char> {
    if hex_digit(hash_char) is Some && hex_digit(hash_char)->0 >= 8 {
        uppercase(c)
    } else {
        seq![c]
    }
}

/// The characters of an address with those of its hash beside them, as far as both go, each in its
/// case.
pub open spec fn checksum_text(addr: Seq<char>, addr_hash: Seq<char>) -> Seq<char>
    decreases addr.len(),
{
    if addr.len() == 0 || addr_hash.len() == 0 {
        Seq::empty()
    } else {
        checksum_char(addr[0], addr_hash[0]) + checksum_text(addr.skip(1), addr_hash.skip(1))
    }
}

/// An address, with or without `0x` in front, with its letters in the case that the Keccak-256
/// digest of its lower case text gives.
pub open spec fn eth_checksum_text(addr: Seq<char>) -> Seq<char> {
    let lower = lowercase(without_0x(addr));
    checksum_text(lower, hex_text(keccak256_digest(encode_utf8(lower))@))
}

/// The 20 bytes of the address of a point: the end of the digest of its coordinates.
pub open spec fn eth_address_bytes(point: Seq<u8>) -> Seq<u8> {
    keccak256_digest(point.skip(1))@.skip(12)
}

/// The address of a point.
pub open spec fn eth_address_text(point: Seq<u8>) -> Seq<char> {
    with_0x(eth_checksum_text(hex_text(eth_address_bytes(point))))
}

/// `bitcoin::hashes::hex::ToHex::to_hex` of an `ethereum_types::Address` writes two lower case
/// digits for each byte.
#[verifier::external_body]
fn address_to_hex(bytes: &[u8]) -> (text: String)
    requires
        bytes@.len() == 20,
    ensures
        text@ == hex_text(bytes@),
{
    bitcoin::hashes::hex::ToHex::to_hex(&ethereum_types::Address::from_slice(bytes))
}

/// `bitcoin::hashes::hex::ToHex::to_hex` of an `ethereum_types::H256` writes two lower case digits
/// for each byte.
#[verifier::external_body]
fn digest_to_hex(digest: &[u8; 32]) -> (text: String)
    ensures
        text@ == hex_text(digest@),
{
    bitcoin::hashes::hex::ToHex::to_hex(&ethereum_types::H256(*digest))
}

/// Puts the letters of `addr` in the case that `addr_hash` gives.
pub fn checksum_eip55(addr: &str, addr_hash: &str) -> (chksum: String)
    ensures
        chksum@ == checksum_text(addr@, addr_hash@),
{
    let addr_chars = to_chars(addr);
    let hash_chars = to_chars(addr_hash);
    let mut chksum = String::new();
    let mut i: usize = 0;
    assert(addr@.skip(0) =~= addr@);
    assert(addr_hash@.skip(0) =~= addr_hash@);
    while i < addr_chars.len() && i < hash_chars.len()
        invariant
            i <= addr_chars@.len(),
            i <= hash_chars@.len(),
            addr_chars@ == addr@,
            hash_chars@ == addr_hash@,
            checksum_text(addr@, addr_hash@) =~= chksum@ + checksum_text(
                addr@.skip(i as int),
                addr_hash@.skip(i as int),
            ),
        decreases addr_chars@.len() - i,
    {
        let c = addr_chars[i];
        let upper = match digit_value(hash_chars[i]) {
            Some(digit) => digit >= 8,
            None => false,
        };
        proof {
            assert(addr@.skip(i as int)[0] == c);
            assert(addr@.skip(i as int).skip(1) =~= addr@.skip(i + 1));
            assert(addr_hash@.skip(i as int).skip(1) =~= addr_hash@.skip(i + 1));
        }
        let ghost before = chksum@;
        if upper {
            let mapped = to_uppercase(c);
            chksum.append(mapped.as_str());
        } else {
            chksum.push(c);
        }
        assert(chksum@ =~= before + checksum_char(c, addr_hash@[i as int]));
        i += 1;
    }
    chksum
}

/// Puts the letters of an address in the case that EIP-55 asks for.
pub fn eth_checksum(addr: &str) -> (chksum: String)
    ensures
        chksum@ == eth_checksum_text(addr@),
{
    let stripped = strip_0x(addr);
    let addr_lower_case = to_lowercase(stripped.as_str());
    let digest = keccak256(addr_lower_case.as_str().as_bytes());
    let digest_hex = digest_to_hex(&digest);
    checksum_eip55(addr_lower_case.as_str(), digest_hex.as_str())
}

/// Writes the Ethereum address of a public key.
pub fn public_key_to_eth_address(public_key: &PublicKey) -> (address: Result<String, KeyError>)
    ensures
        address matches Ok(text) && text@ == eth_address_text(public_key@),
{
    let point = public_key.serialize_uncompressed();
    let coordinates = slice_subrange(point.as_slice(), 1, 65);
    assert(coordinates@ =~= public_key@.skip(1));
    let digest = keccak256(coordinates);
    let bytes = slice_subrange(digest.as_slice(), 12, 32);
    assert(bytes@ =~= eth_address_bytes(public_key@));
    let addr_hex = address_to_hex(bytes);
    let addr_eip55 = eth_checksum(addr_hex.as_str());
    Ok(prepend_0x(addr_eip55.as_str()))
}

/// Lower case hexadecimal digits.
pub open spec fn is_lower_hex(text: Seq<char>) -> bool {
    forall|i: int|
        0 <= i < text.len() ==> {
            ||| '0' <= #[trigger] text[i] <= '9'
            ||| 'a' <= text[i] <= 'f'
        }
}

/// The checksum changes nothing but the case of letters: it keeps the length of a lower case
/// address, and each character is what it was but for its case.
pub proof fn lemma_checksum_changes_case_only(addr: Seq<char>, addr_hash: Seq<char>)
    requires
        is_lower_hex(addr),
        addr.len() <= addr_hash.len(),
    ensures
        checksum_text(addr, addr_hash).len() == addr.len(),
        is_ascii_chars(checksum_text(addr, addr_hash)),
        lowercase(checksum_text(addr, addr_hash)) == addr,
        forall|i: int|
            0 <= i < addr.len() ==> hex_digit(#[trigger] checksum_text(addr, addr_hash)[i])
                == hex_digit(addr[i]),
    decreases addr.len(),
{
    let result = checksum_text(addr, addr_hash);
    if addr.len() > 0 {
        let rest = checksum_text(addr.skip(1), addr_hash.skip(1));
        assert forall|i: int| 0 <= i < addr.skip(1).len() implies {
            ||| '0' <= #[trigger] addr.skip(1)[i] <= '9'
            ||| 'a' <= addr.skip(1)[i] <= 'f'
        } by {
            assert(addr.skip(1)[i] == addr[i + 1]);
        }
        lemma_checksum_changes_case_only(addr.skip(1), addr_hash.skip(1));
        let head = checksum_char(addr[0], addr_hash[0]);
        assert(head.len() == 1);
        assert(result =~= head + rest);
        assert forall|i: int| 0 <= i < result.len() implies {
            &&& (#[trigger] result[i] as nat) < 128
            &&& ascii_lowercase(result[i]) == addr[i]
            &&& hex_digit(result[i]) == hex_digit(addr[i])
        } by {
            if i > 0 {
                assert(result[i] == rest[i - 1]);
                assert(addr[i] == addr.skip(1)[i - 1]);
                assert(lowercase(rest)[i - 1] == ascii_lowercase(rest[i - 1]));
            }
        }
        assert(lowercase(result) =~= addr);
    } else {
        assert(lowercase(result) =~= addr);
    }
}

/// Hexadecimal digits of either case.
pub open spec fn is_hex(text: Seq<char>) -> bool {
    forall|i: int| 0 <= i < text.len() ==> hex_digit(#[trigger] text[i]) is Some
}

proof fn lemma_hex_has_no_0x(text: Seq<char>)
    requires
        is_hex(text),
    ensures
        !has_prefix(text, seq!['0', 'x']),
        is_ascii_chars(text),
        is_lower_hex(lowercase(text)),
        lowercase(text).len() == text.len(),
{
    let prefix = seq!['0', 'x'];
    if has_prefix(text, prefix) {
        assert(text.take(2)[1] == prefix[1]);
        assert(hex_digit(text[1]) is Some);
    }
    assert forall|i: int| 0 <= i < text.len() implies '\0' <= #[trigger] text[i] <= '\u{7f}' by {
        assert(hex_digit(text[i]) is Some);
    }
    let lower = lowercase(text);
    assert forall|i: int| 0 <= i < lower.len() implies {
        ||| '0' <= #[trigger] lower[i] <= '9'
        ||| 'a' <= lower[i] <= 'f'
    } by {
        assert(hex_digit(text[i]) is Some);
    }
}

/// Hexadecimal digits of either case, as many as the digest has or fewer, keep their number under
/// the checksum and change nothing but their case. The checksum is the same whether they come in
/// lower case, in upper case, with `0x` in front, or in the case that the checksum gave them.
pub proof fn lemma_eth_checksum_idempotent(addr: Seq<char>)
    requires
        is_hex(addr),
        addr.len() <= 64,
    ensures
        eth_checksum_text(addr).len() == addr.len(),
        is_hex(eth_checksum_text(addr)),
        lowercase(eth_checksum_text(addr)) == lowercase(addr),
        eth_checksum_text(lowercase(addr)) == eth_checksum_text(addr),
        eth_checksum_text(addr.map_values(|c: char| ascii_uppercase(c))) == eth_checksum_text(addr),
        eth_checksum_text(seq!['0', 'x'] + addr) == eth_checksum_text(addr),
        eth_checksum_text(eth_checksum_text(addr)) == eth_checksum_text(addr),
        eth_checksum_text(with_0x(eth_checksum_text(addr))) == eth_checksum_text(addr),
{
    let prefix = seq!['0', 'x'];
    let lower = lowercase(addr);
    let upper = addr.map_values(|c: char| ascii_uppercase(c));
    let result = eth_checksum_text(addr);
    lemma_hex_has_no_0x(addr);
    let digest = keccak256_digest(encode_utf8(lower))@;
    lemma_hex_text_chars(digest);
    lemma_checksum_changes_case_only(lower, hex_text(digest));
    assert(result == checksum_text(lower, hex_text(digest)));
    assert forall|i: int| 0 <= i < addr.len() implies {
        &&& hex_digit(#[trigger] lower[i]) is Some
        &&& hex_digit(upper[i]) is Some
        &&& ascii_lowercase(lower[i]) == lower[i]
        &&& ascii_lowercase(upper[i]) == lower[i]
    } by {
        assert(hex_digit(addr[i]) is Some);
    }
    assert(is_hex(upper)) by {
        assert forall|i: int| 0 <= i < upper.len() implies hex_digit(
            #[trigger] upper[i],
        ) is Some by {
            assert(hex_digit(lower[i]) is Some);
        }
    }
    assert(is_hex(result)) by {
        assert forall|i: int| 0 <= i < result.len() implies hex_digit(
            #[trigger] result[i],
        ) is Some by {
            assert(hex_digit(lower[i]) is Some);
        }
    }
    lemma_hex_has_no_0x(lower);
    lemma_hex_has_no_0x(upper);
    lemma_hex_has_no_0x(result);
    assert(lowercase(lower) =~= lower);
    assert(lowercase(upper) =~= lower);
    assert((prefix + addr).take(2) =~= prefix);
    assert((prefix + addr).skip(2) =~= addr);
    assert((prefix + result).take(2) =~= prefix);
    assert((prefix + result).skip(2) =~= result);
}

/// The address of a point is `0x` and 40 digits that, but for their case, are the bytes of the
/// address in hexadecimal.
pub proof fn lemma_eth_address(point: Seq<u8>)
    ensures
        eth_address_text(point).len() == 42,
        eth_address_text(point).take(2) == seq!['0', 'x'],
        lowercase(eth_address_text(point).skip(2)) == hex_text(eth_address_bytes(point)),
{
    let bytes = eth_address_bytes(point);
    let addr = hex_text(bytes);
    let digits = eth_checksum_text(addr);
    lemma_hex_text_chars(bytes);
    lemma_eth_checksum_idempotent(addr);
    lemma_hex_has_no_0x(digits);
    assert(lowercase(addr) =~= addr);
    assert(eth_address_text(point).take(2) =~= seq!['0', 'x']);
    assert(eth_address_text(point).skip(2) =~= digits);
}

/// The characters of an address are cased one by one, each by the character of the hash beside it,
/// as far as both go.
pub proof fn lemma_checksum_of_parts(
    front: Seq<char>,
    front_hash: Seq<char>,
    rest: Seq<char>,
    rest_hash: Seq<char>,
)
    requires
        front.len() == front_hash.len(),
    ensures
        checksum_text(front + rest, front_hash + rest_hash) == checksum_text(front, front_hash)
            + checksum_text(rest, rest_hash),
        checksum_text(rest, Seq::empty()).len() == 0,
        checksum_text(Seq::empty(), rest_hash).len() == 0,
    decreases front.len(),
{
    let addr = front + rest;
    let hash = front_hash + rest_hash;
    if front.len() > 0 {
        lemma_checksum_of_parts(front.skip(1), front_hash.skip(1), rest, rest_hash);
        assert(addr.skip(1) =~= front.skip(1) + rest);
        assert(hash.skip(1) =~= front_hash.skip(1) + rest_hash);
        assert(checksum_text(addr, hash) =~= checksum_text(front, front_hash) + checksum_text(
            rest,
            rest_hash,
        ));
    } else {
        assert(addr =~= rest);
        assert(hash =~= rest_hash);
        assert(checksum_text(front, front_hash) + checksum_text(rest, rest_hash) =~= checksum_text(
            rest,
            rest_hash,
        ));
    }
}

/// One character is put in upper case exactly if the character of the hash beside it is a
/// hexadecimal digit of either case that stands for 8 or more.
pub proof fn lemma_checksum_of_one(c: char, hash_char: char)
    ensures
        ({
            ||| '8' <= hash_char <= '9'
            ||| 'a' <= hash_char <= 'f'
            ||| 'A' <= hash_char <= 'F'
        }) ==> checksum_text(seq![c], seq![hash_char]) == uppercase(c),
        !({
            ||| '8' <= hash_char <= '9'
            ||| 'a' <= hash_char <= 'f'
            ||| 'A' <= hash_char <= 'F'
        }) ==> checksum_text(seq![c], seq![hash_char]) == seq![c],
{
    let one = seq![c];
    let hash = seq![hash_char];
    assert(checksum_text(one.skip(1), hash.skip(1)) =~= Seq::<char>::empty());
    assert(checksum_text(one, hash) =~= checksum_char(c, hash_char));
}

/// At every position of an ASCII address that the hash reaches, the character that is written is
/// the upper case of the one in the address if the character of the hash there is a hexadecimal
/// digit that stands for 8 or more, and the one in the address if not. No other is written.
pub proof fn lemma_checksum_by_position(addr: Seq<char>, addr_hash: Seq<char>)
    requires
        is_ascii_chars(addr),
    ensures
        checksum_text(addr, addr_hash).len() == if addr.len() <= addr_hash.len() {
            addr.len()
        } else {
            addr_hash.len()
        },
        forall|i: int|
            0 <= i < checksum_text(addr, addr_hash).len() ==> #[trigger] checksum_text(
                addr,
                addr_hash,
            )[i] == if ('8' <= addr_hash[i] <= '9' || 'a' <= addr_hash[i] <= 'f' || 'A'
                <= addr_hash[i] <= 'F') && 'a' <= addr[i] <= 'z' {
                (addr[i] as nat - 32) as char
            } else {
                addr[i]
            },
    decreases addr.len(),
{
    if addr.len() > 0 && addr_hash.len() > 0 {
        let tail = addr.skip(1);
        let tail_hash = addr_hash.skip(1);
        assert forall|i: int| 0 <= i < tail.len() implies '\0' <= #[trigger] tail[i]
            <= '\u{7f}' by {
            assert(tail[i] == addr[i + 1]);
        }
        lemma_checksum_by_position(tail, tail_hash);
        let rest = checksum_text(tail, tail_hash);
        let result = checksum_text(addr, addr_hash);
        assert('\0' <= addr[0] <= '\u{7f}');
        assert(checksum_char(addr[0], addr_hash[0]).len() == 1);
        assert(result =~= checksum_char(addr[0], addr_hash[0]) + rest);
        assert forall|i: int| 0 <= i < result.len() implies #[trigger] result[i] == if ('8'
            <= addr_hash[i] <= '9' || 'a' <= addr_hash[i] <= 'f' || 'A' <= addr_hash[i] <= 'F')
            && 'a' <= addr[i] <= 'z' {
            (addr[i] as nat - 32) as char
        } else {
            addr[i]
        } by {
            if i > 0 {
                assert(result[i] == rest[i - 1]);
                assert(tail[i - 1] == addr[i]);
                assert(tail_hash[i - 1] == addr_hash[i]);
            }
        }
    }
}

/// EIP-55: the letter at a position of an ASCII text is in upper case exactly if the four bits of
/// the Keccak-256 digest of the lower case text that stand at the same position are 8 or more. The
/// digest has 64 such positions, and text beyond them is left out.
pub proof fn lemma_eth_checksum_by_position(addr: Seq<char>)
    requires
        is_ascii_chars(addr),
        addr.len() < 2 || addr[0] != '0' || addr[1] != 'x',
    ensures
        ({
            let lower = addr.map_values(|c: char| ascii_lowercase(c));
            let digest = keccak256_digest(encode_utf8(lower))@;
            let result = eth_checksum_text(addr);
            &&& eth_checksum_text(seq!['0', 'x'] + addr) == result
            &&& result.len() == if addr.len() <= 64 {
                addr.len()
            } else {
                64
            }
            &&& forall|i: int|
                0 <= i < result.len() ==> #[trigger] result[i] == {
                    let bits = if i % 2 == 0 {
                        digest[i / 2] / 16
                    } else {
                        digest[i / 2] % 16
                    };
                    if bits >= 8 {
                        ascii_uppercase(addr[i])
                    } else {
                        ascii_lowercase(addr[i])
                    }
                }
        }),
{
    let lower = addr.map_values(|c: char| ascii_lowercase(c));
    let digest = keccak256_digest(encode_utf8(lower))@;
    let digest_hex = hex_text(digest);
    let result = eth_checksum_text(addr);
    lemma_0x(addr);
    assert(lowercase(addr) == lower);
    assert forall|i: int| 0 <= i < lower.len() implies '\0' <= #[trigger] lower[i]
        <= '\u{7f}' by {
        assert('\0' <= addr[i] <= '\u{7f}');
    }
    lemma_checksum_by_position(lower, digest_hex);
    lemma_hex_text_halves(digest);
    assert(result == checksum_text(lower, digest_hex));
    assert forall|i: int| 0 <= i < result.len() implies #[trigger] result[i] == {
        let bits = if i % 2 == 0 {
            digest[i / 2] / 16
        } else {
            digest[i / 2] % 16
        };
        if bits >= 8 {
            ascii_uppercase(addr[i])
        } else {
            ascii_lowercase(addr[i])
        }
    } by {
        let k = i / 2;
        assert(hex_digit(digest_hex[2 * k]) == Some(digest[k] as nat / 16));
        assert(hex_digit(digest_hex[2 * k + 1]) == Some(digest[k] as nat % 16));
        assert(i == 2 * k || i == 2 * k + 1);
        assert(!('A' <= digest_hex[i] <= 'Z'));
        assert(lower[i] == ascii_lowercase(addr[i]));
    }
}

/// The address of a point shows the last 20 bytes of the Keccak-256 digest of its two coordinates,
/// four bits with each digit. `lower` is the same digits in lower case: a letter of the address is
/// in upper case exactly if the four bits of the Keccak-256 digest of `lower` that stand at the same
/// position are 8 or more.
pub proof fn lemma_eth_address_by_position(point: Seq<u8>, lower: Seq<char>)
    requires
        lower.len() == 40,
        forall|i: int|
            0 <= i < 20 ==> {
                &&& hex_digit(#[trigger] lower[2 * i]) == Some(
                    keccak256_digest(point.skip(1))@[12 + i] as nat / 16,
                )
                &&& hex_digit(lower[2 * i + 1]) == Some(
                    keccak256_digest(point.skip(1))@[12 + i] as nat % 16,
                )
            },
        forall|i: int| 0 <= i < 40 ==> !('A' <= #[trigger] lower[i] <= 'F'),
    ensures
        eth_address_text(point).len() == 42,
        eth_address_text(point)[0] == '0',
        eth_address_text(point)[1] == 'x',
        forall|i: int|
            0 <= i < 40 ==> #[trigger] eth_address_text(point)[i + 2] == {
                let digest = keccak256_digest(encode_utf8(lower))@;
                let bits = if i % 2 == 0 {
                    digest[i / 2] / 16
                } else {
                    digest[i / 2] % 16
                };
                if bits >= 8 && 'a' <= lower[i] <= 'f' {
                    (lower[i] as nat - 32) as char
                } else {
                    lower[i]
                }
            },
{
    let bytes = eth_address_bytes(point);
    let addr = hex_text(bytes);
    let digits = eth_checksum_text(addr);
    lemma_hex_text_halves(bytes);
    lemma_hex_text_chars(bytes);
    assert forall|i: int| 0 <= i < 40 implies #[trigger] addr[i] == lower[i] by {
        let k = i / 2;
        assert(bytes[k] == keccak256_digest(point.skip(1))@[12 + k]);
        assert(hex_digit(addr[2 * k]) == Some(bytes[k] as nat / 16));
        assert(hex_digit(lower[2 * k]) == Some(bytes[k] as nat / 16));
        assert(i == 2 * k || i == 2 * k + 1);
        assert(!('A' <= addr[i] <= 'Z'));
        assert(!('A' <= lower[i] <= 'F'));
    }
    assert(addr =~= lower);
    assert(hex_digit(addr[1]) is Some);
    lemma_eth_checksum_by_position(addr);
    assert(addr.map_values(|c: char| ascii_lowercase(c)) =~= addr);
    lemma_eth_address(point);
    lemma_eth_checksum_idempotent(addr);
    lemma_hex_has_no_0x(digits);
    assert(eth_address_text(point) =~= seq!['0', 'x'] + digits);
    assert forall|i: int| 0 <= i < 40 implies #[trigger] eth_address_text(point)[i + 2]
        == digits[i] by {}
    assert forall|i: int| 0 <= i < 40 implies hex_digit(#[trigger] addr[i]) is Some by {}
}

/// Text that goes beyond ASCII is put in lower case as a whole, and then its characters are cased by
/// the digits of the Keccak-256 digest of the lower case text, two for each byte.
pub proof fn lemma_eth_checksum_beyond_ascii(addr: Seq<char>, digest_hex: Seq<char>)
    requires
        !is_ascii_chars(addr),
        addr.len() < 2 || addr[0] != '0' || addr[1] != 'x',
        digest_hex.len() == 64,
        forall|i: int|
            0 <= i < 32 ==> {
                let byte = keccak256_digest(encode_utf8(unicode_lowercase(addr)))@[i];
                &&& hex_digit(#[trigger] digest_hex[2 * i]) == Some(byte as nat / 16)
                &&& hex_digit(digest_hex[2 * i + 1]) == Some(byte as nat % 16)
            },
        forall|i: int| 0 <= i < 64 ==> !('A' <= #[trigger] digest_hex[i] <= 'F'),
    ensures
        eth_checksum_text(addr) == checksum_text(unicode_lowercase(addr), digest_hex),
        eth_checksum_text(seq!['0', 'x'] + addr) == eth_checksum_text(addr),
{
    let digest = keccak256_digest(encode_utf8(unicode_lowercase(addr)))@;
    let hex = hex_text(digest);
    lemma_0x(addr);
    lemma_hex_text_halves(digest);
    assert forall|i: int| 0 <= i < 64 implies #[trigger] hex[i] == digest_hex[i] by {
        let k = i / 2;
        assert(hex_digit(hex[2 * k]) == Some(digest[k] as nat / 16));
        assert(hex_digit(digest_hex[2 * k]) == Some(digest[k] as nat / 16));
        assert(i == 2 * k || i == 2 * k + 1);
        assert(!('A' <= hex[i] <= 'Z'));
        assert(!('A' <= digest_hex[i] <= 'F'));
    }
    assert(hex =~= digest_hex);
}

} // verus!
