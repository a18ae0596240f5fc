//! Keys that are held in memory: how they are made, written down and read back, and which outputs
//! they can spend.

use vstd::hash_map::StringHashMap;
use vstd::prelude::*;
use vstd::slice::slice_to_vec;
use vstd::utf8::{
    decode_utf8, encode_utf8, encode_utf8_decode_utf8, encode_utf8_valid_utf8, valid_utf8,
};

use crate::base58::{base58_bytes, char_digit};
use crate::constants::{hrp_of, known_hrp, network_id_to_hrp, FALLBACK_HRP};
use crate::curve::{
    compressed_form, generate_keypair, lemma_forms, public_point, valid_secret, PublicKey, SecretKey,
    SECRET_KEY_SIZE,
};
use crate::eip55::eth_address_text;
use crate::error::KeyError;
use crate::formatting;
use crate::formatting::{
    address_text, bech32_payload, cb58_bytes, cb58_text, checksum, decode_cb58_with_checksum,
    encode_cb58_with_checksum, lemma_address_parts, lemma_bytes_of_cb58_text, lemma_cb58_accepted,
    lemma_cb58_checksum, lemma_cb58_refused, lemma_cb58_text_injective,
    lemma_cb58_text_of_bytes, valid_hrp,
};
use crate::hashing::{compute_ripemd160, compute_sha256, ripemd160_digest, sha256_digest};
use crate::hexadecimal;
use crate::hexadecimal::{hex_bytes, hex_digit, hex_text, HexError};
use crate::ids::ShortId;
use crate::numeral::value;
use crate::secp256k1fx::{
    lemma_matched_positions, lemma_threshold, matched_positions, meets_threshold, owned_positions, signature_indices, OutputOwners,
    TransferInput, TransferOutput,
};
use crate::text::{
    ascii_lowercase, from_utf8, has_prefix, is_line_ending, is_longest_valid_prefix,
    lemma_lines_of_written, lemma_text_of_bytes, lines, lowercase, remove_all, split_lines,
    utf8_error_len, views, without,
};

pub use crate::eip55::public_key_to_eth_address;
pub use crate::keychain::Keychain;

verus! {

/// What stands in front of a private key in CB58.
pub const PRIVATE_KEY_ENCODE_PREFIX: &'static str = "PrivateKey-";

/// The short address of `data`: the RIPEMD-160 digest of its SHA-256 digest.
pub open spec fn short_address_bytes_of(data: Seq<u8>) -> Seq<u8> {
    ripemd160_digest(sha256_digest(data)@)@
}

/// The short address of `data` as text.
pub open spec fn short_address_text(data: Seq<u8>) -> Seq<char> {
    cb58_text(short_address_bytes_of(data))
}

/// What a key holds.
#[verifier::ext_equal]
pub struct KeyView {
    pub secret_key: Option<Seq<u8>>,
    pub public_key: Option<Seq<u8>>,
    pub private_key: Seq<char>,
    pub private_key_hex: Seq<char>,
    pub short_address: Seq<char>,
    pub eth_address: Seq<char>,
}

/// The key that a secret key and a point make.
pub open spec fn key_of_pair(secret: Seq<u8>, point: Seq<u8>) -> KeyView {
    KeyView {
        secret_key: Some(secret),
        public_key: Some(point),
        private_key: PRIVATE_KEY_ENCODE_PREFIX@ + cb58_text(secret),
        private_key_hex: hex_text(secret),
        short_address: short_address_text(compressed_form(point)),
        eth_address: eth_address_text(point),
    }
}

/// The key that a secret key makes together with its own point.
pub open spec fn key_of(secret: Seq<u8>) -> KeyView {
    key_of_pair(secret, public_point(secret)@)
}

/// The secret key in decoded bytes, or why they hold none.
pub open spec fn checked_secret(data: Seq<u8>) -> Result<Seq<u8>, KeyError> {
    if data.len() != SECRET_KEY_SIZE {
        Err(KeyError::UnexpectedSecretKeySize { length: data.len() as usize })
    } else if !valid_secret(data) {
        Err(KeyError::InvalidSecretKey)
    } else {
        Ok(data)
    }
}

/// The secret key that a private key in CB58 stands for, with or without the prefix, or why it
/// stands for none.
pub open spec fn private_key_secret(encoded: Seq<char>) -> Result<Seq<u8>, KeyError> {
    match cb58_bytes(without(encoded, PRIVATE_KEY_ENCODE_PREFIX@)) {
        Ok(data) => checked_secret(data),
        Err(e) => Err(e),
    }
}

/// The secret key that a private key in hexadecimal stands for, or why it stands for none.
pub open spec fn private_key_hex_secret(encoded: Seq<char>) -> Result<Seq<u8>, KeyError> {
    match hex_bytes(encode_utf8(encoded)) {
        Ok(data) => checked_secret(data),
        Err(reason) => Err(KeyError::InvalidHex { reason }),
    }
}

/// The line at `i` stands on an earlier line too.
pub open spec fn is_repeat(lines: Seq<Seq<char>>, i: int) -> bool {
    exists|j: int| 0 <= j < i && #[trigger] lines[j] == lines[i]
}

/// The first line from `i` on that stands on an earlier line too; the number of lines if there is
/// none.
pub open spec fn first_repeat(lines: Seq<Seq<char>>, i: int) -> int
    decreases lines.len() - i,
{
    if i >= lines.len() || is_repeat(lines, i) {
        i
    } else {
        first_repeat(lines, i + 1)
    }
}

/// Every line before the first that repeats another stands for a key.
pub open spec fn lines_hold_keys(lines: Seq<Seq<char>>) -> bool {
    forall|i: int|
        0 <= i < first_repeat(lines, 0) ==> private_key_secret(#[trigger] lines[i]) is Ok
}

/// `data` is no text, or every line of it before the first that repeats another stands for a key.
pub open spec fn is_loadable(data: Seq<u8>) -> bool {
    valid_utf8(data) ==> lines_hold_keys(lines(decode_utf8(data)))
}

/// The views of keys.
pub open spec fn key_views(keys: Seq<Key>) -> Seq<KeyView> {
    keys.map_values(|k: Key| k@)
}

/// What loading the keys in `data`, one on each line, ends with: an error if `data` is no text or a
/// line repeats another, else the keys in the order of their lines.
pub open spec fn is_load_outcome(data: Seq<u8>, outcome: Result<Vec<Key>, KeyError>) -> bool {
    let lines = lines(decode_utf8(data));
    let repeat = first_repeat(lines, 0);
    if !valid_utf8(data) {
        &&& outcome matches Err(KeyError::InvalidUtf8 { valid_up_to, error_len })
        &&& is_longest_valid_prefix(data, valid_up_to as int)
        &&& error_len == utf8_error_len(data)
    } else if repeat < lines.len() {
        outcome matches Err(KeyError::DuplicateKey { line }) && line == repeat + 1
    } else {
        outcome matches Ok(keys) && key_views(keys@) == lines.map_values(
            |line: Seq<char>| key_of(private_key_secret(line)->Ok_0),
        )
    }
}

/// A key with the texts that are derived from it. The secret and the public key are missing where
/// a key was read from a file, which holds the texts alone.
#[derive(Debug, PartialEq, Eq)]
pub struct Key {
    pub secret_key: Option<SecretKey>,
    pub public_key: Option<PublicKey>,
    /// The private key in CB58, with the prefix.
    pub private_key: String,
    /// The private key in hexadecimal.
    pub private_key_hex: String,
    /// The short address in CB58.
    pub short_address: String,
    /// The Ethereum address.
    pub eth_address: String,
}

impl View for Key {
    type V = KeyView;

    open spec fn view(&self) -> KeyView {
        KeyView {
            secret_key: match self.secret_key {
                Some(secret) => Some(secret@),
                None => None,
            },
            public_key: match self.public_key {
                Some(public) => Some(public@),
                None => None,
            },
            private_key: self.private_key@,
            private_key_hex: self.private_key_hex@,
            short_address: self.short_address@,
            eth_address: self.eth_address@,
        }
    }
}

impl Clone for Key {
    fn clone(&self) -> (copy: Key)
        ensures
            copy@ == self@,
    {
        Key {
            secret_key: self.secret_key,
            public_key: self.public_key,
            private_key: self.private_key.clone(),
            private_key_hex: self.private_key_hex.clone(),
            short_address: self.short_address.clone(),
            eth_address: self.eth_address.clone(),
        }
    }
}

/// The texts of a key, with its addresses on three chains of one network.
#[derive(Debug, PartialEq, Eq, Clone)]
pub struct PrivateKeyInfo {
    /// The private key in CB58, with the prefix.
    pub private_key: String,
    pub private_key_hex: String,
    pub x_address: String,
    pub p_address: String,
    pub c_address: String,
    pub short_address: String,
    pub eth_address: String,
}

impl Key {
    /// Puts a key together from a secret key and a public key.
    pub fn from_pair(secret_key: SecretKey, public_key: PublicKey) -> (key: Result<Key, KeyError>)
        ensures
            key matches Ok(k) && k@ == key_of_pair(secret_key@, public_key@),
    {
        let short_address = public_key_to_short_address(&public_key)?;
        let eth_address = public_key_to_eth_address(&public_key)?;
        let priv_bytes = secret_key.secret_bytes();
        let enc = encode_cb58_with_checksum(priv_bytes.as_slice());
        let mut private_key = String::new();
        private_key.append(PRIVATE_KEY_ENCODE_PREFIX);
        private_key.append(enc.as_str());
        let private_key_hex = hexadecimal::encode(priv_bytes.as_slice());
        assert(private_key@ =~= PRIVATE_KEY_ENCODE_PREFIX@ + cb58_text(secret_key@));
        Ok(
            Key {
                secret_key: Some(secret_key),
                public_key: Some(public_key),
                private_key,
                private_key_hex,
                short_address,
                eth_address,
            },
        )
    }

    /// Generates a new key. Which one it is rests on chance.
    pub fn generate() -> (generated: Result<Key, KeyError>)
        ensures
            match generated {
                Ok(key) => {
                    &&& key@.secret_key is Some
                    &&& valid_secret(key@.secret_key->0)
                    &&& key@ == key_of(key@.secret_key->0)
                },
                Err(e) => e == KeyError::NoRandomness,
            },
    {
        match generate_keypair() {
            Some((secret_key, public_key)) => Key::from_pair(secret_key, public_key),
            None => Err(KeyError::NoRandomness),
        }
    }

    /// Loads a private key in CB58, with or without the prefix.
    pub fn from_private_key(encoded_priv_key: &str) -> (loaded: Result<Key, KeyError>)
        ensures
            match loaded {
                Ok(key) => {
                    &&& private_key_secret(encoded_priv_key@) is Ok
                    &&& key@ == key_of(private_key_secret(encoded_priv_key@)->Ok_0)
                },
                Err(e) => private_key_secret(encoded_priv_key@) == Err::<Seq<u8>, KeyError>(e),
            },
    {
        proof {
            lemma_prefix();
        }
        let raw = remove_all(encoded_priv_key, PRIVATE_KEY_ENCODE_PREFIX);
        let priv_bytes = match decode_cb58_with_checksum(raw.as_str()) {
            Ok(priv_bytes) => priv_bytes,
            Err(e) => {
                return Err(e);
            },
        };
        if priv_bytes.len() != SECRET_KEY_SIZE {
            return Err(KeyError::UnexpectedSecretKeySize { length: priv_bytes.len() });
        }
        let secret_key = match SecretKey::from_slice(priv_bytes.as_slice()) {
            Ok(secret_key) => secret_key,
            Err(e) => {
                return Err(e);
            },
        };
        let public_key = PublicKey::from_secret_key(&secret_key);
        Key::from_pair(secret_key, public_key)
    }

    /// Loads a private key in hexadecimal.
    pub fn from_private_key_eth(encoded_priv_key: &str) -> (loaded: Result<Key, KeyError>)
        ensures
            match loaded {
                Ok(key) => {
                    &&& private_key_hex_secret(encoded_priv_key@) is Ok
                    &&& key@ == key_of(private_key_hex_secret(encoded_priv_key@)->Ok_0)
                },
                Err(e) => private_key_hex_secret(encoded_priv_key@) == Err::<Seq<u8>, KeyError>(e),
            },
    {
        let priv_bytes = match hexadecimal::decode(encoded_priv_key) {
            Ok(priv_bytes) => priv_bytes,
            Err(reason) => {
                return Err(KeyError::InvalidHex { reason });
            },
        };
        if priv_bytes.len() != SECRET_KEY_SIZE {
            return Err(KeyError::UnexpectedSecretKeySize { length: priv_bytes.len() });
        }
        let enc = encode_cb58_with_checksum(priv_bytes.as_slice());
        proof {
            lemma_cb58_text_has_no_prefix(priv_bytes@);
            lemma_bytes_of_cb58_text(priv_bytes@);
        }
        Key::from_private_key(enc.as_str())
    }

    /// The address of the key on a chain of a network.
    pub fn address(&self, chain_id_alias: &str, network_id: u32) -> (address: Result<
        String,
        KeyError,
    >)
        requires
            self.public_key is Some,
        ensures
            address matches Ok(text) && text@ == address_text(
                chain_id_alias@,
                hrp_of(network_id),
                short_address_bytes_of(compressed_form(self@.public_key->0)),
            ),
    {
        let hrp = match network_id_to_hrp(network_id) {
            Some(hrp) => hrp,
            None => FALLBACK_HRP,
        };
        proof {
            lemma_hrp_valid(network_id);
        }
        let public_key = self.public_key.expect("unexpected empty public_key");
        let short_address_bytes = public_key_to_short_address_bytes(&public_key)?;
        formatting::address(chain_id_alias, hrp, short_address_bytes.as_slice())
    }

    /// The short address of the key.
    pub fn short_address_bytes(&self) -> (bytes: Result<Vec<u8>, KeyError>)
        requires
            self.public_key is Some,
        ensures
            bytes matches Ok(b) && b@ == short_address_bytes_of(
                compressed_form(self@.public_key->0),
            ),
    {
        let public_key = self.public_key.expect("unexpected empty public_key");
        public_key_to_short_address_bytes(&public_key)
    }

    /// The texts of the key, with its addresses on the X, P and C chain of a network.
    pub fn info(&self, network_id: u32) -> (info: Result<PrivateKeyInfo, KeyError>)
        requires
            self.public_key is Some,
        ensures
            info matches Ok(i) && {
                let hrp = hrp_of(network_id);
                let id = short_address_bytes_of(compressed_form(self@.public_key->0));
                &&& i.private_key@ == self@.private_key
                &&& i.private_key_hex@ == self@.private_key_hex
                &&& i.x_address@ == address_text(seq!['X'], hrp, id)
                &&& i.p_address@ == address_text(seq!['P'], hrp, id)
                &&& i.c_address@ == address_text(seq!['C'], hrp, id)
                &&& i.short_address@ == self@.short_address
                &&& i.eth_address@ == self@.eth_address
            },
    {
        proof {
            reveal_strlit("X");
            reveal_strlit("P");
            reveal_strlit("C");
            assert("X"@ =~= seq!['X']);
            assert("P"@ =~= seq!['P']);
            assert("C"@ =~= seq!['C']);
        }
        let x_address = self.address("X", network_id)?;
        let p_address = self.address("P", network_id)?;
        let c_address = self.address("C", network_id)?;
        Ok(
            PrivateKeyInfo {
                private_key: self.private_key.clone(),
                private_key_hex: self.private_key_hex.clone(),
                x_address,
                p_address,
                c_address,
                short_address: self.short_address.clone(),
                eth_address: self.eth_address.clone(),
            },
        )
    }

    /// The addresses that the key signs for.
    pub open spec fn owned(&self) -> Set<Seq<char>> {
        set![self@.short_address]
    }

    /// Finds the addresses of an output that are the key's own, and whether they are as many as
    /// have to sign.
    pub fn match_threshold(&self, output_owners: &OutputOwners, time: u64) -> (matched: Result<
        (Vec<u32>, bool),
        KeyError,
    >)
        ensures
            matched matches Ok((sigs, met)) && {
                &&& sigs@ == signature_indices(
                    matched_positions(*output_owners, self.owned(), time),
                )
                &&& met == meets_threshold(*output_owners, self.owned(), time)
            },
    {
        let mut sigs: Vec<u32> = Vec::new();
        if output_owners.locktime > time {
            assert(sigs@ =~= signature_indices(Seq::empty()));
            return Ok((sigs, false));
        }
        let addrs = &output_owners.addrs;
        let ghost owned = self.owned();
        let mut pos: usize = 0;
        assert(sigs@ =~= signature_indices(owned_positions(addrs@.take(0), owned)));
        while pos < addrs.len()
            invariant
                pos <= addrs@.len(),
                owned == set![self@.short_address],
                sigs@ == signature_indices(owned_positions(addrs@.take(pos as int), owned)),
            decreases addrs@.len() - pos,
        {
            let ghost before = owned_positions(addrs@.take(pos as int), owned);
            assert(addrs@.take(pos + 1).drop_last() =~= addrs@.take(pos as int));
            let short_addr = addrs[pos].to_string();
            if self.short_address == short_addr {
                sigs.push(pos as u32);
                assert(signature_indices(before.push(pos as int)) =~= signature_indices(
                    before,
                ).push(pos as u32));
            }
            pos += 1;
        }
        assert(addrs@.take(pos as int) =~= addrs@);
        let n = sigs.len();
        Ok((sigs, n as u32 == output_owners.threshold))
    }

    /// Spends an output with the key.
    pub fn spend(&self, output: &TransferOutput, time: u64) -> (spent: Result<
        TransferInput,
        KeyError,
    >)
        ensures
            match spent {
                Ok(input) => {
                    &&& meets_threshold(output.output_owners, self.owned(), time)
                    &&& input.amount == output.amount
                    &&& input.sig_indices@ == signature_indices(
                        owned_positions(output.output_owners.addrs@, self.owned()),
                    )
                },
                Err(e) => {
                    &&& !meets_threshold(output.output_owners, self.owned(), time)
                    &&& e == KeyError::ThresholdNotMet
                },
            },
    {
        let (sigs, threshold_met) = self.match_threshold(&output.output_owners, time)?;
        if !threshold_met {
            return Err(KeyError::ThresholdNotMet);
        }
        Ok(TransferInput { amount: output.amount, sig_indices: sigs })
    }
}

proof fn lemma_first_repeat(lines: Seq<Seq<char>>, from: int, i: int)
    requires
        0 <= from <= i <= lines.len(),
        forall|k: int| from <= k < i ==> !is_repeat(lines, k),
    ensures
        first_repeat(lines, from) == first_repeat(lines, i),
        i <= first_repeat(lines, i) <= lines.len(),
    decreases lines.len() - from,
{
    if from < i {
        assert(!is_repeat(lines, from));
        lemma_first_repeat(lines, from + 1, i);
    } else if i < lines.len() && !is_repeat(lines, i) {
        lemma_first_repeat(lines, i + 1, i + 1);
    }
}

/// Loads keys from text with one key in CB58 on each line.
pub fn load_keys(d: &[u8]) -> (loaded: Result<Vec<Key>, KeyError>)
    requires
        is_loadable(d@),
    ensures
        is_load_outcome(d@, loaded),
{
    try_load_keys(d).unwrap()
}

/// Loads keys as `load_keys` does, from any bytes; `None` if a line that does not repeat an earlier
/// one, and comes before any that does, stands for no key.
pub fn try_load_keys(d: &[u8]) -> (loaded: Option<Result<Vec<Key>, KeyError>>)
    ensures
        match loaded {
            Some(outcome) => is_loadable(d@) && is_load_outcome(d@, outcome),
            None => !is_loadable(d@),
        },
{
    let text = match from_utf8(d) {
        Ok(text) => text,
        Err((valid_up_to, error_len)) => {
            return Some(Err(KeyError::InvalidUtf8 { valid_up_to, error_len }));
        },
    };
    proof {
        lemma_text_of_bytes(text);
    }
    let split = split_lines(text);
    let ghost all = lines(text@);
    let mut keys: Vec<Key> = Vec::new();
    let mut added: StringHashMap<bool> = StringHashMap::new();
    let mut i: usize = 0;
    while i < split.len()
        invariant
            i <= split@.len(),
            all == views(split@),
            valid_utf8(d@),
            all == lines(decode_utf8(d@)),
            forall|line: Seq<char>|
                added@.contains_key(line) <==> exists|j: int| 0 <= j < i && #[trigger] all[j] == line,
            forall|k: int| 0 <= k < i ==> !is_repeat(all, k),
            forall|k: int| 0 <= k < i ==> private_key_secret(#[trigger] all[k]) is Ok,
            keys@.len() == i,
            forall|k: int|
                0 <= k < i ==> #[trigger] keys@[k]@ == key_of(private_key_secret(all[k])->Ok_0),
        decreases split@.len() - i,
    {
        let line = &split[i];
        assert(all[i as int] == line@);
        proof {
            lemma_first_repeat(all, 0, i as int);
        }
        if added.contains_key(line.as_str()) {
            assert(is_repeat(all, i as int));
            return Some(Err(KeyError::DuplicateKey { line: i + 1 }));
        }
        assert(!is_repeat(all, i as int));
        proof {
            lemma_first_repeat(all, 0, i + 1);
        }
        match Key::from_private_key(line.as_str()) {
            Ok(key) => keys.push(key),
            Err(_) => {
                assert(private_key_secret(all[i as int]) is Err);
                return None;
            },
        }
        let ghost before = added@;
        added.insert(line.clone(), true);
        assert forall|l: Seq<char>| #[trigger]
            added@.contains_key(l) <==> exists|j: int| 0 <= j < i + 1 && #[trigger] all[j] == l by {
            if added@.contains_key(l) {
                if before.contains_key(l) {
                    let j = choose|j: int| 0 <= j < i && #[trigger] all[j] == l;
                    assert(all[j] == l);
                } else {
                    assert(all[i as int] == l);
                }
            }
        }
        i += 1;
    }
    proof {
        lemma_first_repeat(all, 0, i as int);
        assert(key_views(keys@) =~= all.map_values(
            |line: Seq<char>| key_of(private_key_secret(line)->Ok_0),
        ));
    }
    Some(Ok(keys))
}

/// The short address of `data` as text.
pub fn bytes_to_short_address(d: &[u8]) -> (text: Result<String, KeyError>)
    ensures
        text matches Ok(t) && t@ == short_address_text(d@),
{
    let short_address_bytes = bytes_to_short_address_bytes(d)?;
    Ok(encode_cb58_with_checksum(short_address_bytes.as_slice()))
}

/// The short address of a public key as text.
fn public_key_to_short_address(public_key: &PublicKey) -> (text: Result<String, KeyError>)
    ensures
        text matches Ok(t) && t@ == short_address_text(compressed_form(public_key@)),
{
    let compressed = public_key.serialize();
    bytes_to_short_address(compressed.as_slice())
}

/// The short address of `data`. A RIPEMD-160 digest always has the 20 bytes of one.
pub fn bytes_to_short_address_bytes(d: &[u8]) -> (bytes: Result<Vec<u8>, KeyError>)
    ensures
        bytes matches Ok(b) && b@ == short_address_bytes_of(d@) && b@.len() == 20,
{
    let digest_sha256 = compute_sha256(d);
    let ripemd160_sha256 = compute_ripemd160(digest_sha256.as_slice());
    Ok(slice_to_vec(ripemd160_sha256.as_slice()))
}

/// The short address of a public key.
pub fn public_key_to_short_address_bytes(public_key: &PublicKey) -> (bytes: Result<
    Vec<u8>,
    KeyError,
>)
    ensures
        bytes matches Ok(b) && b@ == short_address_bytes_of(compressed_form(public_key@)),
{
    let compressed = public_key.serialize();
    bytes_to_short_address_bytes(compressed.as_slice())
}

/// The prefix has eleven characters, and a dash ends it.
proof fn lemma_prefix()
    ensures
        PRIVATE_KEY_ENCODE_PREFIX@.len() == 11,
        PRIVATE_KEY_ENCODE_PREFIX@[10] == '-',
{
    reveal_strlit("PrivateKey-");
}

/// The human-readable part of every network is valid.
proof fn lemma_hrp_valid(network_id: u32)
    ensures
        valid_hrp(hrp_of(network_id)),
{
    reveal_strlit("avax");
    reveal_strlit("cascade");
    reveal_strlit("denali");
    reveal_strlit("everest");
    reveal_strlit("fuji");
    reveal_strlit("local");
    reveal_strlit("custom");
}

/// Text without a dash is not changed where the prefix is taken out.
proof fn lemma_without_prefix(text: Seq<char>)
    requires
        forall|i: int| 0 <= i < text.len() ==> #[trigger] text[i] != '-',
    ensures
        without(text, PRIVATE_KEY_ENCODE_PREFIX@) == text,
    decreases text.len(),
{
    let prefix = PRIVATE_KEY_ENCODE_PREFIX@;
    lemma_prefix();
    if text.len() >= prefix.len() {
        assert(!has_prefix(text, prefix)) by {
            if has_prefix(text, prefix) {
                assert(text.take(prefix.len() as int)[10] == prefix[10]);
                assert(text[10] == '-');
            }
        }
        lemma_without_prefix(text.skip(1));
        assert(seq![text[0]] + text.skip(1) =~= text);
    }
}

/// CB58 text is not changed where the prefix is taken out, and neither is it where it has the
/// prefix in front, but for that prefix.
proof fn lemma_cb58_text_has_no_prefix(data: Seq<u8>)
    ensures
        without(cb58_text(data), PRIVATE_KEY_ENCODE_PREFIX@) == cb58_text(data),
        without(
            PRIVATE_KEY_ENCODE_PREFIX@ + cb58_text(data),
            PRIVATE_KEY_ENCODE_PREFIX@,
        ) == cb58_text(data),
{
    let prefix = PRIVATE_KEY_ENCODE_PREFIX@;
    let text = cb58_text(data);
    crate::base58::lemma_bytes_of_text(data + checksum(data));
    assert forall|i: int| 0 <= i < text.len() implies #[trigger] text[i] != '-' by {
        assert(char_digit(text[i]) is Some);
    }
    lemma_without_prefix(text);
    lemma_prefix();
    assert((prefix + text).take(prefix.len() as int) =~= prefix);
    assert((prefix + text).skip(prefix.len() as int) =~= text);
}

/// A private key is read back as the secret key that it was written from, whether its prefix is
/// kept or left out.
pub proof fn lemma_private_key_roundtrip(secret: Seq<u8>)
    requires
        valid_secret(secret),
    ensures
        private_key_secret(key_of(secret).private_key) == Ok::<Seq<u8>, KeyError>(secret),
        private_key_secret(cb58_text(secret)) == Ok::<Seq<u8>, KeyError>(secret),
{
    lemma_cb58_text_has_no_prefix(secret);
    lemma_bytes_of_cb58_text(secret);
}

/// A private key in hexadecimal is read back as the secret key that it was written from.
pub proof fn lemma_private_key_hex_roundtrip(secret: Seq<u8>)
    requires
        valid_secret(secret),
    ensures
        private_key_hex_secret(key_of(secret).private_key_hex) == Ok::<Seq<u8>, KeyError>(secret),
{
    hexadecimal::lemma_bytes_of_text(secret);
}

/// A private key in CB58 that is read is written back as it came, with the prefix once in front.
pub proof fn lemma_private_key_is_written_back(encoded: Seq<char>)
    requires
        private_key_secret(encoded) is Ok,
    ensures
        key_of(private_key_secret(encoded)->Ok_0).private_key == PRIVATE_KEY_ENCODE_PREFIX@
            + without(encoded, PRIVATE_KEY_ENCODE_PREFIX@),
{
    lemma_cb58_text_of_bytes(
        without(encoded, PRIVATE_KEY_ENCODE_PREFIX@),
        private_key_secret(encoded)->Ok_0,
    );
}

/// A private key in hexadecimal that is read is written back as it came, in lower case.
pub proof fn lemma_private_key_hex_is_written_back(encoded: Seq<char>)
    requires
        private_key_hex_secret(encoded) is Ok,
    ensures
        key_of(private_key_hex_secret(encoded)->Ok_0).private_key_hex == lowercase(encoded),
{
    hexadecimal::lemma_text_of_bytes(encoded, private_key_hex_secret(encoded)->Ok_0);
}

/// A key that was loaded from either text is the key that each of its own two texts loads.
pub proof fn lemma_loaded_key_reloads(encoded: Seq<char>)
    ensures
        private_key_secret(encoded) matches Ok(secret) ==> {
            &&& private_key_secret(key_of(secret).private_key) == private_key_secret(encoded)
            &&& private_key_hex_secret(key_of(secret).private_key_hex) == private_key_secret(encoded)
        },
        private_key_hex_secret(encoded) matches Ok(secret) ==> {
            &&& private_key_secret(key_of(secret).private_key) == private_key_hex_secret(encoded)
            &&& private_key_hex_secret(key_of(secret).private_key_hex) == private_key_hex_secret(
                encoded,
            )
        },
{
    if private_key_secret(encoded) is Ok {
        lemma_private_key_roundtrip(private_key_secret(encoded)->Ok_0);
        lemma_private_key_hex_roundtrip(private_key_secret(encoded)->Ok_0);
    }
    if private_key_hex_secret(encoded) is Ok {
        lemma_private_key_roundtrip(private_key_hex_secret(encoded)->Ok_0);
        lemma_private_key_hex_roundtrip(private_key_hex_secret(encoded)->Ok_0);
    }
}

/// The prefix is optional: any text stands for the same secret key, or is refused for the same
/// reason, with the prefix in front and without it.
pub proof fn lemma_prefix_is_optional(text: Seq<char>)
    ensures
        private_key_secret(PRIVATE_KEY_ENCODE_PREFIX@ + text) == private_key_secret(text),
{
    let prefix = PRIVATE_KEY_ENCODE_PREFIX@;
    lemma_prefix();
    assert((prefix + text).take(prefix.len() as int) =~= prefix);
    assert((prefix + text).skip(prefix.len() as int) =~= text);
}

/// A secret key that is read is in range, whichever text it is read from.
pub proof fn lemma_loaded_secret_is_valid(encoded: Seq<char>)
    ensures
        private_key_secret(encoded) matches Ok(secret) ==> valid_secret(secret),
        private_key_hex_secret(encoded) matches Ok(secret) ==> valid_secret(secret),
{
}

/// Two keys are written as the same private key, in CB58 or in hexadecimal, only if they are the
/// same key.
pub proof fn lemma_private_key_identifies_key(a: Seq<u8>, b: Seq<u8>)
    requires
        valid_secret(a),
        valid_secret(b),
    ensures
        key_of(a).private_key == key_of(b).private_key <==> a == b,
        key_of(a).private_key_hex == key_of(b).private_key_hex <==> a == b,
{
    lemma_private_key_roundtrip(a);
    lemma_private_key_roundtrip(b);
    lemma_private_key_hex_roundtrip(a);
    lemma_private_key_hex_roundtrip(b);
}

/// Private keys, one on each line, with what ends each line.
pub open spec fn key_file(secrets: Seq<Seq<u8>>, endings: Seq<Seq<char>>) -> Seq<char>
    decreases secrets.len(),
{
    if secrets.len() == 0 {
        Seq::empty()
    } else {
        key_of(secrets[0]).private_key + endings[0] + key_file(secrets.skip(1), endings.skip(1))
    }
}

/// Every line has a line ending, but the last line need not have one.
pub open spec fn end_lines(endings: Seq<Seq<char>>) -> bool {
    forall|i: int|
        0 <= i < endings.len() ==> is_line_ending(#[trigger] endings[i]) || (i == endings.len() - 1
            && endings[i].len() == 0)
}

proof fn lemma_private_key_is_line(secret: Seq<u8>)
    ensures
        forall|i: int|
            0 <= i < key_of(secret).private_key.len() ==> {
                &&& #[trigger] key_of(secret).private_key[i] != '\n'
                &&& key_of(secret).private_key[i] != '\r'
            },
{
    let line = key_of(secret).private_key;
    let prefix = PRIVATE_KEY_ENCODE_PREFIX@;
    let text = cb58_text(secret);
    reveal_strlit("PrivateKey-");
    crate::base58::lemma_bytes_of_text(secret + checksum(secret));
    assert forall|i: int| 0 <= i < line.len() implies {
        &&& #[trigger] line[i] != '\n'
        &&& line[i] != '\r'
    } by {
        if i < prefix.len() {
            assert(line[i] == prefix[i]);
        } else {
            assert(line[i] == text[i - prefix.len()]);
            assert(char_digit(text[i - prefix.len()]) is Some);
        }
    }
}

proof fn lemma_key_file_lines(secrets: Seq<Seq<u8>>, endings: Seq<Seq<char>>)
    requires
        endings.len() == secrets.len(),
        end_lines(endings),
    ensures
        lines(key_file(secrets, endings)) == secrets.map_values(
            |s: Seq<u8>| key_of(s).private_key,
        ),
    decreases secrets.len(),
{
    let written = secrets.map_values(|s: Seq<u8>| key_of(s).private_key);
    if secrets.len() > 0 {
        let rest = secrets.skip(1);
        let rest_endings = endings.skip(1);
        let line = key_of(secrets[0]).private_key;
        assert forall|i: int| 0 <= i < rest_endings.len() implies is_line_ending(
            #[trigger] rest_endings[i],
        ) || (i == rest_endings.len() - 1 && rest_endings[i].len() == 0) by {
            assert(rest_endings[i] == endings[i + 1]);
        }
        lemma_key_file_lines(rest, rest_endings);
        lemma_private_key_is_line(secrets[0]);
        lemma_prefix();
        lemma_lines_of_written(line, endings[0], key_file(rest, rest_endings));
        if !is_line_ending(endings[0]) {
            assert(key_file(secrets, endings) =~= line);
        }
        assert(seq![line] + rest.map_values(|s: Seq<u8>| key_of(s).private_key) =~= written);
    } else {
        assert(lines(key_file(secrets, endings)) =~= written);
    }
}

/// Every line of a file of private keys stands for the key that it was written from, and no line
/// repeats another if the keys are different.
proof fn lemma_key_file_outcome(secrets: Seq<Seq<u8>>, endings: Seq<Seq<char>>)
    requires
        forall|i: int| 0 <= i < secrets.len() ==> valid_secret(#[trigger] secrets[i]),
        secrets.no_duplicates(),
        endings.len() == secrets.len(),
        end_lines(endings),
    ensures
        ({
            let all = lines(key_file(secrets, endings));
            &&& first_repeat(all, 0) == all.len()
            &&& lines_hold_keys(all)
            &&& all.map_values(|line: Seq<char>| key_of(private_key_secret(line)->Ok_0))
                == secrets.map_values(|s: Seq<u8>| key_of(s))
        }),
{
    let all = lines(key_file(secrets, endings));
    lemma_key_file_lines(secrets, endings);
    assert forall|i: int| 0 <= i < all.len() implies private_key_secret(#[trigger] all[i]) == Ok::<
        Seq<u8>,
        KeyError,
    >(secrets[i]) by {
        lemma_private_key_roundtrip(secrets[i]);
    }
    assert forall|i: int| 0 <= i < all.len() implies !is_repeat(all, i) by {
        if is_repeat(all, i) {
            let j = choose|j: int| 0 <= j < i && #[trigger] all[j] == all[i];
            lemma_private_key_identifies_key(secrets[j], secrets[i]);
        }
    }
    lemma_first_repeat(all, 0, all.len() as int);
    assert(all.map_values(|line: Seq<char>| key_of(private_key_secret(line)->Ok_0))
        =~= secrets.map_values(|s: Seq<u8>| key_of(s)));
}

/// A file of different private keys, one on each line, can be loaded, whichever line endings it
/// has.
pub proof fn lemma_written_keys_are_loadable(secrets: Seq<Seq<u8>>, endings: Seq<Seq<char>>)
    requires
        forall|i: int| 0 <= i < secrets.len() ==> valid_secret(#[trigger] secrets[i]),
        secrets.no_duplicates(),
        endings.len() == secrets.len(),
        end_lines(endings),
    ensures
        is_loadable(encode_utf8(key_file(secrets, endings))),
{
    encode_utf8_decode_utf8(key_file(secrets, endings));
    lemma_key_file_outcome(secrets, endings);
}

/// Different keys that are written one on each line, whichever line endings there are, are loaded
/// again as the same keys in the same order.
pub proof fn lemma_written_keys_load(
    secrets: Seq<Seq<u8>>,
    endings: Seq<Seq<char>>,
    outcome: Result<Vec<Key>, KeyError>,
)
    requires
        forall|i: int| 0 <= i < secrets.len() ==> valid_secret(#[trigger] secrets[i]),
        secrets.no_duplicates(),
        endings.len() == secrets.len(),
        end_lines(endings),
        is_load_outcome(encode_utf8(key_file(secrets, endings)), outcome),
    ensures
        outcome matches Ok(keys) && key_views(keys@) == secrets.map_values(
            |s: Seq<u8>| key_of(s),
        ),
{
    encode_utf8_decode_utf8(key_file(secrets, endings));
    encode_utf8_valid_utf8(key_file(secrets, endings));
    lemma_key_file_outcome(secrets, endings);
}

/// A key owns an address exactly if the address is the short address of the key.
pub proof fn lemma_key_owns_its_address(key: Key, secret: Seq<u8>, addr: ShortId)
    requires
        key@ == key_of(secret),
    ensures
        key.owned().contains(cb58_text(addr@)) <==> addr@ == short_address_bytes_of(
            compressed_form(public_point(secret)@),
        ),
{
    lemma_cb58_text_injective(
        addr@,
        short_address_bytes_of(compressed_form(public_point(secret)@)),
    );
}

/// A key can spend an output that asks for one signature and names only the short address of the
/// key, from the time on at which it is unlocked and not before.
pub proof fn lemma_key_spends_its_output(
    key: Key,
    secret: Seq<u8>,
    owners: OutputOwners,
    time: u64,
)
    requires
        key@ == key_of(secret),
        owners.threshold == 1,
        owners.addrs@.len() == 1,
        owners.addrs@[0]@ == short_address_bytes_of(compressed_form(public_point(secret)@)),
    ensures
        meets_threshold(owners, key.owned(), time) <==> owners.locktime <= time,
        signature_indices(owned_positions(owners.addrs@, key.owned())) == seq![0u32],
{
    lemma_key_owns_its_address(key, secret, owners.addrs@[0]);
    let positions = owned_positions(owners.addrs@, key.owned());
    assert(owned_positions(owners.addrs@.drop_last(), key.owned()) =~= Seq::<int>::empty());
    assert(positions =~= Seq::<int>::empty().push(0));
    assert(signature_indices(positions) =~= seq![0u32]);
}

/// The addresses of a key on the chains of one network differ in nothing but the alias of the
/// chain, and each names its chain and its network in front.
pub proof fn lemma_addresses_differ_in_alias(a: Seq<char>, b: Seq<char>, network_id: u32, id: Seq<u8>)
    ensures
        address_text(a, hrp_of(network_id), id).skip(a.len() as int) == address_text(
            b,
            hrp_of(network_id),
            id,
        ).skip(b.len() as int),
        has_prefix(
            address_text(a, hrp_of(network_id), id),
            a + seq!['-'] + hrp_of(network_id) + seq!['1'],
        ),
{
    let hrp = hrp_of(network_id);
    let text = address_text(a, hrp, id);
    assert(text.skip(a.len() as int) =~= address_text(b, hrp, id).skip(b.len() as int));
    lemma_hrp_valid(network_id);
    reveal_strlit("avax");
    reveal_strlit("cascade");
    reveal_strlit("denali");
    reveal_strlit("everest");
    reveal_strlit("fuji");
    reveal_strlit("local");
    reveal_strlit("custom");
    assert(hrp.map_values(|c: char| ascii_lowercase(c)) =~= hrp);
    let front = a + seq!['-'] + hrp + seq!['1'];
    assert(text.take(front.len() as int) =~= front);
}

/// A key shows what its fields hold, and keys show it one by one.
pub proof fn lemma_shown(key: Key, keys: Seq<Key>, i: int)
    requires
        0 <= i < keys.len(),
    ensures
        key@.private_key == key.private_key@,
        key@.private_key_hex == key.private_key_hex@,
        key@.short_address == key.short_address@,
        key@.eth_address == key.eth_address@,
        key.secret_key matches Some(secret) ==> key@.secret_key == Some(secret@),
        key.secret_key is None ==> key@.secret_key is None,
        key.public_key matches Some(public) ==> key@.public_key == Some(public@),
        key.public_key is None ==> key@.public_key is None,
        key_views(keys).len() == keys.len(),
        key_views(keys)[i] == keys[i]@,
{
}

/// The short address of data is the RIPEMD-160 digest of its SHA-256 digest, and its text is that
/// with the last four bytes of the SHA-256 digest of itself after it, in base58.
pub proof fn lemma_short_address(data: Seq<u8>)
    ensures
        short_address_bytes_of(data) == ripemd160_digest(sha256_digest(data)@)@,
        ({
            let id = ripemd160_digest(sha256_digest(data)@)@;
            base58_bytes(short_address_text(data)) == Some(
                id + sha256_digest(id)@.subrange(28, 32),
            )
        }),
{
    lemma_cb58_checksum(ripemd160_digest(sha256_digest(data)@)@);
}

/// The texts of a key. The private key is the secret key, with the last four bytes of its SHA-256
/// digest after it, in base58 after the prefix, or the secret key alone with two digits for each
/// byte. The short address is that of the short form of the point: the x coordinate after 2 or 3
/// for an even or odd y coordinate. `private` and `short_form` are what these are made of.
pub proof fn lemma_key_texts(
    secret: Seq<u8>,
    point: Seq<u8>,
    private: Seq<char>,
    short_form: Seq<u8>,
)
    requires
        point.len() == 65,
        base58_bytes(private) == Some(secret + sha256_digest(secret)@.subrange(28, 32)),
        short_form == seq![(2 + point[64] % 2) as u8] + point.subrange(1, 33),
    ensures
        key_of_pair(secret, point).secret_key == Some(secret),
        key_of_pair(secret, point).public_key == Some(point),
        key_of_pair(secret, point).private_key == "PrivateKey-"@ + private,
        key_of_pair(secret, point).private_key_hex.len() == 2 * secret.len(),
        forall|i: int|
            0 <= i < secret.len() ==> {
                let text = key_of_pair(secret, point).private_key_hex;
                &&& hex_digit(text[2 * i]) == Some(#[trigger] secret[i] as nat / 16)
                &&& hex_digit(text[2 * i + 1]) == Some(secret[i] as nat % 16)
            },
        forall|i: int|
            0 <= i < 2 * secret.len() ==> !('A' <= #[trigger] key_of_pair(
                secret,
                point,
            ).private_key_hex[i] <= 'Z'),
        ({
            let id = ripemd160_digest(sha256_digest(short_form)@)@;
            base58_bytes(key_of_pair(secret, point).short_address) == Some(
                id + sha256_digest(id)@.subrange(28, 32),
            )
        }),
        key_of_pair(secret, point).eth_address == eth_address_text(point),
        key_of(secret) == key_of_pair(secret, public_point(secret)@),
{
    lemma_cb58_checksum(secret);
    crate::base58::lemma_base58_bytes(private, secret + checksum(secret));
    hexadecimal::lemma_hex_text_halves(secret);
    assert(point[64] % 2 == 0 || point[64] % 2 == 1);
    assert(short_form =~= compressed_form(point));
    lemma_short_address(short_form);
}

/// A private key is accepted, as the secret key that it stands for, exactly if what is left of it
/// without the prefix stands in base58 for 32 bytes in range and the last four bytes of their
/// SHA-256 digest.
pub proof fn lemma_private_key_accepted(encoded: Seq<char>, secret: Seq<u8>)
    ensures
        private_key_secret(encoded) == Ok::<Seq<u8>, KeyError>(secret) <==> {
            &&& secret.len() == 32
            &&& 0 < value(secret.map_values(|b: u8| b as nat), 256)
            &&& value(secret.map_values(|b: u8| b as nat), 256)
                < 0xfffffffffffffffffffffffffffffffebaaedce6af48a03bbfd25e8cd0364141nat
            &&& base58_bytes(without(encoded, "PrivateKey-"@)) == Some(
                secret + sha256_digest(secret)@.subrange(28, 32),
            )
        },
{
    lemma_cb58_accepted(without(encoded, "PrivateKey-"@), secret);
    lemma_forms(secret, secret);
}

/// Why a private key is refused. `data` is what stands before the checksum, where the checksum is
/// right.
pub proof fn lemma_private_key_refused(encoded: Seq<char>, data: Seq<u8>, length: usize)
    requires
        data.len() <= usize::MAX,
    ensures
        ({
            let decoded = base58_bytes(without(encoded, "PrivateKey-"@));
            let refused = private_key_secret(encoded);
            &&& refused == Err::<Seq<u8>, KeyError>(KeyError::InvalidBase58) <==> decoded is None
            &&& refused == Err::<Seq<u8>, KeyError>(KeyError::MissingChecksum { length })
                <==> decoded is Some && decoded->0.len() < 4 && decoded->0.len() == length
            &&& refused == Err::<Seq<u8>, KeyError>(KeyError::InvalidChecksum) <==> {
                &&& decoded is Some
                &&& decoded->0.len() >= 4
                &&& forall|d: Seq<u8>|
                    decoded->0 != #[trigger] (d + sha256_digest(d)@.subrange(28, 32))
            }
            &&& decoded == Some(data + sha256_digest(data)@.subrange(28, 32)) ==> {
                &&& refused == Err::<Seq<u8>, KeyError>(
                    KeyError::UnexpectedSecretKeySize { length },
                ) <==> data.len() != 32 && data.len() == length
                &&& refused == Err::<Seq<u8>, KeyError>(KeyError::InvalidSecretKey) <==> {
                    &&& data.len() == 32
                    &&& !(0 < value(data.map_values(|b: u8| b as nat), 256)
                        < 0xfffffffffffffffffffffffffffffffebaaedce6af48a03bbfd25e8cd0364141nat)
                }
            }
        }),
{
    let raw = without(encoded, "PrivateKey-"@);
    lemma_cb58_refused(raw, length);
    lemma_cb58_accepted(raw, data);
    lemma_forms(data, data);
}

/// A private key in hexadecimal is accepted, as the secret key that it stands for, exactly if it has
/// two digits of either case for each of 32 bytes in range: the high half and then the low half.
pub proof fn lemma_private_key_hex_accepted(encoded: Seq<char>, secret: Seq<u8>)
    ensures
        private_key_hex_secret(encoded) == Ok::<Seq<u8>, KeyError>(secret) <==> {
            &&& secret.len() == 32
            &&& 0 < value(secret.map_values(|b: u8| b as nat), 256)
            &&& value(secret.map_values(|b: u8| b as nat), 256)
                < 0xfffffffffffffffffffffffffffffffebaaedce6af48a03bbfd25e8cd0364141nat
            &&& encode_utf8(encoded).len() == 64
            &&& forall|i: int|
                0 <= i < 32 ==> {
                    let text = encode_utf8(encoded);
                    &&& hex_digit(text[2 * i] as char) == Some(#[trigger] secret[i] as nat / 16)
                    &&& hex_digit(text[2 * i + 1] as char) == Some(secret[i] as nat % 16)
                }
        },
{
    hexadecimal::lemma_hex_bytes(encode_utf8(encoded), secret);
    lemma_forms(secret, secret);
}

/// Why a private key in hexadecimal is refused. `data` is what it stands for, where it is
/// hexadecimal.
pub proof fn lemma_private_key_hex_refused(
    encoded: Seq<char>,
    data: Seq<u8>,
    length: usize,
    reason: HexError,
)
    requires
        data.len() <= usize::MAX,
    ensures
        private_key_hex_secret(encoded) == Err::<Seq<u8>, KeyError>(KeyError::InvalidHex { reason })
            <==> hex_bytes(encode_utf8(encoded)) == Err::<Seq<u8>, HexError>(reason),
        hex_bytes(encode_utf8(encoded)) == Ok::<Seq<u8>, HexError>(data) ==> {
            &&& private_key_hex_secret(encoded) == Err::<Seq<u8>, KeyError>(
                KeyError::UnexpectedSecretKeySize { length },
            ) <==> data.len() != 32 && data.len() == length
            &&& private_key_hex_secret(encoded) == Err::<Seq<u8>, KeyError>(
                KeyError::InvalidSecretKey,
            ) <==> {
                &&& data.len() == 32
                &&& !(0 < value(data.map_values(|b: u8| b as nat), 256)
                    < 0xfffffffffffffffffffffffffffffffebaaedce6af48a03bbfd25e8cd0364141nat)
            }
        },
{
    lemma_forms(data, data);
}

/// Bytes can be loaded exactly if they are no text, or every line up to which no two lines are equal
/// stands for a key.
pub proof fn lemma_loadable(data: Seq<u8>)
    ensures
        !valid_utf8(data) ==> is_loadable(data),
        valid_utf8(data) ==> (is_loadable(data) <==> forall|i: int|
            0 <= i < lines(decode_utf8(data)).len() && (forall|j: int, k: int|
                0 <= j < k <= i ==> #[trigger] lines(decode_utf8(data))[j]
                    != #[trigger] lines(decode_utf8(data))[k]) ==> private_key_secret(
                #[trigger] lines(decode_utf8(data))[i],
            ) is Ok),
{
    let all = lines(decode_utf8(data));
    let repeat = first_repeat(all, 0);
    lemma_first_repeat_is_first(all, 0);
    if is_loadable(data) && valid_utf8(data) {
        assert forall|i: int|
            0 <= i < all.len() && (forall|j: int, k: int|
                0 <= j < k <= i ==> #[trigger] all[j]
                    != #[trigger] all[k]) implies private_key_secret(#[trigger] all[i]) is Ok by {
            if repeat <= i {
                let j = choose|j: int| 0 <= j < repeat && #[trigger] all[j] == all[repeat];
                assert(all[j] == all[repeat]);
            }
        }
    }
    if valid_utf8(data) && forall|i: int|
        0 <= i < all.len() && (forall|j: int, k: int|
            0 <= j < k <= i ==> #[trigger] all[j] != #[trigger] all[k]) ==> private_key_secret(
            #[trigger] all[i],
        ) is Ok {
        assert forall|i: int| 0 <= i < repeat implies private_key_secret(
            #[trigger] all[i],
        ) is Ok by {
            assert forall|j: int, k: int| 0 <= j < k <= i implies #[trigger] all[j]
                != #[trigger] all[k] by {
                assert(!is_repeat(all, k));
            }
        }
    }
}

proof fn lemma_first_repeat_is_first(lines: Seq<Seq<char>>, from: int)
    requires
        0 <= from <= lines.len(),
    ensures
        from <= first_repeat(lines, from) <= lines.len(),
        first_repeat(lines, from) < lines.len() ==> is_repeat(lines, first_repeat(lines, from)),
        forall|k: int|
            from <= k < first_repeat(lines, from) ==> !#[trigger] is_repeat(lines, k),
    decreases lines.len() - from,
{
    if from < lines.len() && !is_repeat(lines, from) {
        lemma_first_repeat_is_first(lines, from + 1);
    }
}

/// What loading comes to. Bytes that are no text are refused with the length of the longest prefix
/// that is. Text with two equal lines is refused with the number, from 1, of the first line that
/// has an equal line before it. Any other text gives the key of each line, in order.
pub proof fn lemma_loaded(data: Seq<u8>, outcome: Result<Vec<Key>, KeyError>)
    requires
        is_load_outcome(data, outcome),
    ensures
        !valid_utf8(data) ==> {
            &&& outcome matches Err(KeyError::InvalidUtf8 { valid_up_to, error_len })
            &&& valid_up_to <= data.len()
            &&& valid_utf8(data.take(valid_up_to as int))
            &&& forall|end: int|
                valid_up_to < end <= data.len() ==> !valid_utf8(#[trigger] data.take(end))
            &&& error_len == utf8_error_len(data)
        },
        valid_utf8(data) && (exists|j: int, i: int|
            0 <= j < i < lines(decode_utf8(data)).len() && #[trigger] lines(decode_utf8(data))[j]
                == #[trigger] lines(decode_utf8(data))[i]) ==> {
            let all = lines(decode_utf8(data));
            &&& outcome matches Err(KeyError::DuplicateKey { line })
            &&& 1 <= line <= all.len()
            &&& exists|j: int| 0 <= j < line - 1 && #[trigger] all[j] == all[line - 1]
            &&& forall|j: int, i: int|
                0 <= j < i < line - 1 ==> #[trigger] all[j] != #[trigger] all[i]
        },
        valid_utf8(data) && (forall|j: int, i: int|
            0 <= j < i < lines(decode_utf8(data)).len() ==> #[trigger] lines(decode_utf8(data))[j]
                != #[trigger] lines(decode_utf8(data))[i]) ==> {
            let all = lines(decode_utf8(data));
            &&& outcome matches Ok(keys)
            &&& keys@.len() == all.len()
            &&& forall|i: int|
                0 <= i < all.len() ==> (#[trigger] keys@[i])@ == key_of(
                    private_key_secret(all[i])->Ok_0,
                )
        },
{
    let all = lines(decode_utf8(data));
    let repeat = first_repeat(all, 0);
    lemma_first_repeat_is_first(all, 0);
    if valid_utf8(data) {
        if repeat < all.len() {
            let j = choose|j: int| 0 <= j < repeat && #[trigger] all[j] == all[repeat];
            assert(all[j] == all[repeat]);
            assert forall|j: int, i: int| 0 <= j < i < repeat implies #[trigger] all[j]
                != #[trigger] all[i] by {
                assert(!is_repeat(all, i));
            }
        } else {
            assert forall|j: int, i: int| 0 <= j < i < all.len() implies #[trigger] all[j]
                != #[trigger] all[i] by {
                assert(!is_repeat(all, i));
            }
            let keys = outcome->Ok_0@;
            let views = all.map_values(|line: Seq<char>| key_of(private_key_secret(line)->Ok_0));
            assert(key_views(keys).len() == views.len());
            assert forall|i: int| 0 <= i < all.len() implies (#[trigger] keys[i])@ == key_of(
                private_key_secret(all[i])->Ok_0,
            ) by {
                assert(key_views(keys)[i] == views[i]);
            }
        }
    }
}

/// What a key finds in an output: once it is unlocked, exactly the positions whose address has the
/// short address of the key as its text. The threshold is met exactly if these are as many as the
/// threshold says.
pub proof fn lemma_key_matches(key: Key, owners: OutputOwners, time: u64, position: int)
    requires
        owners.addrs@.len() <= u32::MAX,
    ensures
        matched_positions(owners, key.owned(), time).contains(position) <==> {
            &&& owners.locktime <= time
            &&& 0 <= position < owners.addrs@.len()
            &&& cb58_text(owners.addrs@[position].d@) == key.short_address@
        },
        meets_threshold(owners, key.owned(), time) <==> {
            &&& owners.locktime <= time
            &&& Set::new(
                |p: int|
                    0 <= p < owners.addrs@.len() && cb58_text(owners.addrs@[p].d@)
                        == key.short_address@,
            ).len() == owners.threshold
        },
{
    lemma_matched_positions(owners, key.owned(), time, position);
    lemma_threshold(owners, key.owned(), time);
    assert(Set::new(
        |p: int|
            0 <= p < owners.addrs@.len() && key.owned().contains(
                cb58_text(owners.addrs@[p].d@),
            ),
    ) =~= Set::new(
        |p: int|
            0 <= p < owners.addrs@.len() && cb58_text(owners.addrs@[p].d@) == key.short_address@,
    ));
}

/// An address on a network is the alias of the chain, a dash, the human-readable part of the
/// network, a `1`, and the payload that belongs to that part and the short address.
pub proof fn lemma_network_address(chain_id_alias: Seq<char>, network_id: u32, id: Seq<u8>)
    ensures
        address_text(chain_id_alias, hrp_of(network_id), id) == chain_id_alias + seq!['-'] + hrp_of(
            network_id,
        ) + seq!['1'] + bech32_payload(hrp_of(network_id), id),
        known_hrp(network_id) is None ==> address_text(chain_id_alias, hrp_of(network_id), id)
            == chain_id_alias + "-custom1"@ + bech32_payload("custom"@, id),
{
    let hrp = hrp_of(network_id);
    reveal_strlit("avax");
    reveal_strlit("cascade");
    reveal_strlit("denali");
    reveal_strlit("everest");
    reveal_strlit("fuji");
    reveal_strlit("local");
    reveal_strlit("custom");
    reveal_strlit("-custom1");
    lemma_address_parts(chain_id_alias, hrp, hrp, id);
    if known_hrp(network_id) is None {
        assert(seq!['-'] + "custom"@ + seq!['1'] =~= "-custom1"@);
        assert(address_text(chain_id_alias, hrp, id) =~= chain_id_alias + (seq!['-'] + "custom"@
            + seq!['1']) + bech32_payload(hrp, id));
    }
}

} // verus!
