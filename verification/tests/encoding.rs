use avalanche_types::base58;
use avalanche_types::constants::{network_id_to_hrp, FALLBACK_HRP};
use avalanche_types::eip55::{checksum_eip55, eth_checksum};
use avalanche_types::error::KeyError;
use avalanche_types::formatting::{
    address, decode_cb58_with_checksum, encode_cb58_with_checksum,
};
use avalanche_types::hexadecimal::HexError;
use avalanche_types::ids::ShortId;
use avalanche_types::numeral::convert_digits;
use avalanche_types::prefix::{prepend_0x, strip_0x};

#[test]
fn base58_of_known_bytes() {
    assert_eq!(base58::encode(&[]), "");
    assert_eq!(base58::encode(&[0]), "1");
    assert_eq!(base58::encode(&[0, 0, 13, 36]), "11211");
    assert_eq!(base58::encode(b"abc"), "ZiCa");
    assert_eq!(base58::decode("11211"), Some(vec![0, 0, 13, 36]));
    assert_eq!(base58::decode("ZiCa"), Some(b"abc".to_vec()));
    assert_eq!(base58::decode(""), Some(vec![]));
}

#[test]
fn base58_agrees_with_its_alphabet() {
    let alphabet = "123456789ABCDEFGHJKLMNPQRSTUVWXYZabcdefghijkmnopqrstuvwxyz";
    for (i, c) in alphabet.chars().enumerate() {
        assert_eq!(base58::decode(&format!("2{}", c)), Some(vec![58 + i as u8]));
    }
    for c in ['0', 'O', 'I', 'l', '-', ' ', '\u{e9}'] {
        assert_eq!(base58::decode(&format!("1{}", c)), None);
    }
}

#[test]
fn base58_round_trips() {
    for len in 0..40usize {
        for zeros in 0..=len {
            let mut data = vec![0u8; zeros];
            for i in zeros..len {
                data.push((i * 37 + zeros * 101 + 1) as u8);
            }
            let text = base58::encode(&data);
            assert_eq!(text, bitcoin::util::base58::encode_slice(&data));
            assert_eq!(base58::decode(&text), Some(data));
        }
    }
}

#[test]
fn digits_are_converted() {
    assert_eq!(convert_digits(&[1, 0, 0], 10, 2), vec![1, 1, 0, 0, 1, 0, 0]);
    assert_eq!(convert_digits(&[0, 0, 9, 9], 10, 16), vec![0, 0, 6, 3]);
    assert_eq!(convert_digits(&[], 10, 16), Vec::<u8>::new());
}

#[test]
fn cb58_of_known_bytes() {
    assert_eq!(encode_cb58_with_checksum(&[]), "45PJLL");
    assert_eq!(encode_cb58_with_checksum(&[0, 1]), "1A7KRRs");
    assert_eq!(encode_cb58_with_checksum(b"hello"), "2L5B5yqsSEjLP");
    assert_eq!(decode_cb58_with_checksum("45PJLL"), Ok(vec![]));
    assert_eq!(decode_cb58_with_checksum("1A7KRRs"), Ok(vec![0, 1]));
    assert_eq!(decode_cb58_with_checksum("2L5B5yqsSEjLP"), Ok(b"hello".to_vec()));
}

#[test]
fn cb58_refuses_what_it_did_not_write() {
    assert_eq!(decode_cb58_with_checksum("l"), Err(KeyError::InvalidBase58));
    assert_eq!(decode_cb58_with_checksum("ZiCa"), Err(KeyError::MissingChecksum { length: 3 }));
    assert_eq!(decode_cb58_with_checksum("HHkVwE1dVX5"), Err(KeyError::InvalidChecksum));
    assert_eq!(decode_cb58_with_checksum("2L5B5yqsSEjLQ"), Err(KeyError::InvalidChecksum));
}

#[test]
fn short_ids_are_written_in_cb58() {
    let mut d = [0u8; 20];
    d.copy_from_slice(&[
        60, 183, 211, 132, 46, 140, 238, 106, 14, 189, 9, 241, 254, 136, 79, 104, 97, 225, 178, 156,
    ]);
    assert_eq!(ShortId { d }.to_string(), "6Y3kysjF9jnHnYkdS9yGAuoHyae2eNmeV");
}

#[test]
fn addresses_are_written_in_bech32() {
    let d = [
        60, 183, 211, 132, 46, 140, 238, 106, 14, 189, 9, 241, 254, 136, 79, 104, 97, 225, 178, 156,
    ];
    assert_eq!(
        address("X", "local", &d).unwrap(),
        "X-local18jma8ppw3nhx5r4ap8clazz0dps7rv5u00z96u"
    );
    assert_eq!(address("X", "LOCAL", &d), address("X", "local", &d));
    assert_eq!(address("", "bech32", &[0, 1, 2]).unwrap(), "-bech321qqqsyrhqy2a");
}

#[test]
fn human_readable_parts_that_are_not_allowed_are_refused() {
    let long = "a".repeat(84);
    for hrp in ["", "Avax", "a b", "\u{e9}", "a\u{7f}", long.as_str()] {
        assert_eq!(address("X", hrp, &[1; 20]), Err(KeyError::InvalidHumanReadablePart));
    }
    assert!(address("X", &"a".repeat(83), &[1; 20]).is_ok());
}

#[test]
fn networks_have_human_readable_parts() {
    assert_eq!(network_id_to_hrp(1), Some("avax"));
    assert_eq!(network_id_to_hrp(5), Some("fuji"));
    assert_eq!(network_id_to_hrp(12345), Some("local"));
    assert_eq!(network_id_to_hrp(9999), None);
    assert_eq!(FALLBACK_HRP, "custom");
}

#[test]
fn eth_checksum_of_known_addresses() {
    for addr in [
        "5aAeb6053F3E94C9b9A09f33669435E7Ef1BeAed",
        "fB6916095ca1df60bB79Ce92cE3Ea74c37c5d359",
        "dbF03B407c01E7cD3CBea99509d93f8DDDC8C6FB",
        "D1220A0cf47c7B9Be7A2E6BA89F429762e7b9aDb",
        "52908400098527886E0F7030069857D2E4169EE7",
        "de709f2102306220921060314715629080e2fb77",
    ] {
        assert_eq!(eth_checksum(&addr.to_lowercase()), addr);
        assert_eq!(eth_checksum(&addr.to_uppercase()), addr);
        assert_eq!(eth_checksum(addr), addr);
        assert_eq!(eth_checksum(&format!("0x{}", addr)), addr);
    }
}

#[test]
fn eth_checksum_of_other_text() {
    // lower case beyond ASCII, and text longer than a digest
    assert_eq!(eth_checksum("\u{c9}").to_lowercase(), "\u{e9}");
    assert_eq!(eth_checksum(&"1".repeat(70)), "1".repeat(64));
    assert_eq!(eth_checksum(""), "");
}

#[test]
fn checksum_follows_the_hash() {
    assert_eq!(checksum_eip55("abcdef", "789aFg"), "aBCDEf");
    assert_eq!(checksum_eip55("abc", "f"), "A");
    assert_eq!(checksum_eip55("a", "fff"), "A");
    assert_eq!(checksum_eip55("\u{df}1\u{e9}", "888"), "SS1\u{c9}");
    assert_eq!(checksum_eip55("\u{df}1\u{e9}", "777"), "\u{df}1\u{e9}");
}

#[test]
fn prefixes_are_put_on_and_taken_off() {
    assert_eq!(prepend_0x("ab"), "0xab");
    assert_eq!(prepend_0x("0xab"), "0xab");
    assert_eq!(prepend_0x(""), "0x");
    assert_eq!(strip_0x("0xab"), "ab");
    assert_eq!(strip_0x("0Xab"), "0Xab");
    assert_eq!(strip_0x("0x0x"), "0x");
    assert_eq!(strip_0x("0"), "0");
}

#[test]
fn errors_are_told_in_words() {
    let told = [
        (
            KeyError::InvalidUtf8 { valid_up_to: 10, error_len: Some(1) },
            "failed to convert str from_utf8 invalid utf-8 sequence of 1 bytes from index 10",
        ),
        (
            KeyError::InvalidUtf8 { valid_up_to: 0, error_len: None },
            "failed to convert str from_utf8 incomplete utf-8 byte sequence from index 0",
        ),
        (KeyError::DuplicateKey { line: 1205 }, "key at line 1205 already added before"),
        (KeyError::InvalidBase58, "failed to decode base58"),
        (KeyError::MissingChecksum { length: 3 }, "no checksum in 3 decoded bytes"),
        (KeyError::InvalidChecksum, "invalid checksum"),
        (
            KeyError::InvalidHex { reason: HexError::OddLength },
            "failed to decode hex private key (Odd number of digits)",
        ),
        (
            KeyError::InvalidHex {
                reason: HexError::InvalidHexCharacter { c: '\n', index: 5 },
            },
            "failed to decode hex private key (Invalid character '\\n' at position 5)",
        ),
        (
            KeyError::InvalidHex { reason: HexError::InvalidStringLength },
            "failed to decode hex private key (Invalid string length)",
        ),
        (
            KeyError::UnexpectedSecretKeySize { length: 31 },
            "unexpected secret key size (31, expected 32)",
        ),
        (
            KeyError::InvalidSecretKey,
            "failed to load secret key (secp: malformed or out-of-range secret key)",
        ),
        (KeyError::InvalidHumanReadablePart, "invalid human-readable part"),
        (KeyError::NoRandomness, "no source of randomness"),
        (KeyError::ThresholdNotMet, "unable to spend this UTXO (threshold not met)"),
    ];
    for (error, message) in told {
        assert_eq!(error.message(), message);
    }
}
