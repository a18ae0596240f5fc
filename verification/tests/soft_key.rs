use avalanche_types::curve::{generate_keypair, keypair_of, PublicKey, SecretKey};
use avalanche_types::eip55::public_key_to_eth_address;
use avalanche_types::error::KeyError;
use avalanche_types::formatting;
use avalanche_types::hexadecimal::HexError;
use avalanche_types::soft_key::{
    bytes_to_short_address, bytes_to_short_address_bytes, load_keys,
    public_key_to_short_address_bytes, try_load_keys, Key, PRIVATE_KEY_ENCODE_PREFIX,
};

struct KeyInfo {
    private_key: &'static str,
    private_key_hex: &'static str,
    network1: [&'static str; 3],
    network9999: [&'static str; 3],
    short_address: &'static str,
    eth_address: &'static str,
}

fn key_infos() -> Vec<KeyInfo> {
    vec![
        KeyInfo {
            private_key: "PrivateKey-ewoqjP7PxY4yr3iLTpLisriqt94hdyDFNgchSxGGztUrTXtNN",
            private_key_hex: "56289e99c94b6912bfc12adc093c9b51124f0dc54ac7a766b2bc5ccf558d8027",
            network1: ["X-avax18jma8ppw3nhx5r4ap8clazz0dps7rv5ukulre5", "P-avax18jma8ppw3nhx5r4ap8clazz0dps7rv5ukulre5", "C-avax18jma8ppw3nhx5r4ap8clazz0dps7rv5ukulre5"],
            network9999: ["X-custom18jma8ppw3nhx5r4ap8clazz0dps7rv5u9xde7p", "P-custom18jma8ppw3nhx5r4ap8clazz0dps7rv5u9xde7p", "C-custom18jma8ppw3nhx5r4ap8clazz0dps7rv5u9xde7p"],
            short_address: "6Y3kysjF9jnHnYkdS9yGAuoHyae2eNmeV",
            eth_address: "0x8db97C7cEcE249c2b98bDC0226Cc4C2A57BF52FC",
        },
        KeyInfo {
            private_key: "PrivateKey-1111111111111111111111111111111DxAh4Y",
            private_key_hex: "0000000000000000000000000000000000000000000000000000000000000001",
            network1: ["X-avax1w508d6qejxtdg4y5r3zarvary0c5xw7k0l6nk9", "P-avax1w508d6qejxtdg4y5r3zarvary0c5xw7k0l6nk9", "C-avax1w508d6qejxtdg4y5r3zarvary0c5xw7k0l6nk9"],
            network9999: ["X-custom1w508d6qejxtdg4y5r3zarvary0c5xw7ku9gf3s", "P-custom1w508d6qejxtdg4y5r3zarvary0c5xw7ku9gf3s", "C-custom1w508d6qejxtdg4y5r3zarvary0c5xw7ku9gf3s"],
            short_address: "BgGZ9tcN4rm9KBzDn7KprQz87SZ25DaKF",
            eth_address: "0x7E5F4552091A69125d5DfCb7b8C2659029395Bdf",
        },
        KeyInfo {
            private_key: "PrivateKey-2wkBET2rRgE8pahuaczxKbhPFFp7gb6Kvp7zHyaJMz1j9Mg3sk",
            private_key_hex: "fffffffffffffffffffffffffffffffebaaedce6af48a03bbfd25e8cd0364140",
            network1: ["X-avax14h0ycu78h88wzldxc7e79vhw5xsde0n83wxvzy", "P-avax14h0ycu78h88wzldxc7e79vhw5xsde0n83wxvzy", "C-avax14h0ycu78h88wzldxc7e79vhw5xsde0n83wxvzy"],
            network9999: ["X-custom14h0ycu78h88wzldxc7e79vhw5xsde0n8z55k93", "P-custom14h0ycu78h88wzldxc7e79vhw5xsde0n8z55k93", "C-custom14h0ycu78h88wzldxc7e79vhw5xsde0n8z55k93"],
            short_address: "GrLCmVQXoyJXaPJQdqssNqwxvha3Dq3rj",
            eth_address: "0x80C0dbf239224071c59dD8970ab9d542E3414aB2",
        },
        KeyInfo {
            private_key: "PrivateKey-25uMFTFtKWp1nLp66cqov6jCHHhGyN8NDQFtDwX1YYBELSohH6",
            private_key_hex: "8ed3f6ad685b959ead7022518e1af76cd816f8e8ec7ccdda1ed4018e8f2223f8",
            network1: ["X-avax1nuwqnggv2sdecl79gahpt5xsxds9hnxp5ekklg", "P-avax1nuwqnggv2sdecl79gahpt5xsxds9hnxp5ekklg", "C-avax1nuwqnggv2sdecl79gahpt5xsxds9hnxp5ekklg"],
            network9999: ["X-custom1nuwqnggv2sdecl79gahpt5xsxds9hnxp8ryvca", "P-custom1nuwqnggv2sdecl79gahpt5xsxds9hnxp8ryvca", "C-custom1nuwqnggv2sdecl79gahpt5xsxds9hnxp8ryvca"],
            short_address: "FWJ2b9159dTgPxqmiK54MwpR6sJk76Hks",
            eth_address: "0x71Cb07c6f6Bd1011544e029E552E194aa43Ad216",
        },
        KeyInfo {
            private_key: "PrivateKey-1112FaJJUStc1DA2wS8VVESeiuiaxScbp4SKS6NR2RBpY1xt3",
            private_key_hex: "000000f44e64e75f3948e9f73f8dfa94721c4ce8cbb4f265c4790c702b2d41cf",
            network1: ["X-avax12l55ls73e2edw4w367fe7lkjrkffyzq9x0xakm", "P-avax12l55ls73e2edw4w367fe7lkjrkffyzq9x0xakm", "C-avax12l55ls73e2edw4w367fe7lkjrkffyzq9x0xakm"],
            network9999: ["X-custom12l55ls73e2edw4w367fe7lkjrkffyzq944583w", "P-custom12l55ls73e2edw4w367fe7lkjrkffyzq944583w", "C-custom12l55ls73e2edw4w367fe7lkjrkffyzq944583w"],
            short_address: "91qHTodibKbLGx8LTnwui6mWJ4JF7mKe7",
            eth_address: "0x04051092b423e50234bD8c01Dcd1A1E602e5fE9c",
        },
    ]
}

fn key_file(infos: &[KeyInfo]) -> String {
    let mut text = String::new();
    for info in infos {
        text.push_str(info.private_key);
        text.push('\n');
    }
    text
}

#[test]
fn test_load_test_keys() {
    let infos = key_infos();
    let keys = load_keys(key_file(&infos).as_bytes()).unwrap();
    assert_eq!(keys.len(), infos.len());
    for (key, info) in keys.iter().zip(infos.iter()) {
        assert_eq!(key.private_key, info.private_key);
        assert_eq!(key.eth_address, info.eth_address);
    }
}

#[test]
fn test_soft_key() {
    let generated_key = Key::generate().unwrap();
    let parsed_key = Key::from_private_key(&generated_key.private_key).unwrap();

    assert_eq!(generated_key.private_key, parsed_key.private_key);
    assert_eq!(
        generated_key.short_address.clone(),
        parsed_key.short_address.clone()
    );
    assert_eq!(
        generated_key.address("X", 9999).unwrap(),
        parsed_key.address("X", 9999).unwrap()
    );

    for ki in key_infos().iter() {
        let k = Key::from_private_key(ki.private_key).unwrap();
        assert_eq!(
            k,
            Key::from_private_key_eth(&k.private_key_hex.clone()).unwrap(),
        );

        assert_eq!(k.private_key_hex.clone(), ki.private_key_hex);

        assert_eq!(k.address("X", 1).unwrap(), ki.network1[0]);
        assert_eq!(k.address("P", 1).unwrap(), ki.network1[1]);
        assert_eq!(k.address("C", 1).unwrap(), ki.network1[2]);

        assert_eq!(k.address("X", 9999).unwrap(), ki.network9999[0]);
        assert_eq!(k.address("P", 9999).unwrap(), ki.network9999[1]);
        assert_eq!(k.address("C", 9999).unwrap(), ki.network9999[2]);

        assert_eq!(k.short_address, ki.short_address);
        assert_eq!(k.eth_address, ki.eth_address);
    }
}

#[test]
fn generated_keys_round_trip_whole() {
    let a = Key::generate().unwrap();
    let b = Key::generate().unwrap();
    assert_ne!(a.private_key, b.private_key);
    assert_eq!(a, Key::from_private_key(&a.private_key).unwrap());
    assert_eq!(a, Key::from_private_key_eth(&a.private_key_hex).unwrap());
    assert_eq!(a, a.clone());
}

#[test]
fn prefix_is_optional_and_may_be_repeated() {
    let infos = key_infos();
    let bare = &infos[0].private_key[PRIVATE_KEY_ENCODE_PREFIX.len()..];
    let key = Key::from_private_key(infos[0].private_key).unwrap();
    assert_eq!(key, Key::from_private_key(bare).unwrap());
    let (head, tail) = bare.split_at(7);
    let inside = format!("{}PrivateKey-{}PrivateKey-", head, tail);
    assert_eq!(key, Key::from_private_key(&inside).unwrap());
}

#[test]
fn addresses_on_every_network() {
    let k = Key::from_private_key(key_infos()[0].private_key).unwrap();
    let expected = [
        (2, "X-cascade18jma8ppw3nhx5r4ap8clazz0dps7rv5ua4jcft"),
        (3, "X-denali18jma8ppw3nhx5r4ap8clazz0dps7rv5utkgqyt"),
        (4, "X-everest18jma8ppw3nhx5r4ap8clazz0dps7rv5u0mv63c"),
        (5, "X-fuji18jma8ppw3nhx5r4ap8clazz0dps7rv5u6wmu4t"),
        (12345, "X-local18jma8ppw3nhx5r4ap8clazz0dps7rv5u00z96u"),
        (0, "X-custom18jma8ppw3nhx5r4ap8clazz0dps7rv5u9xde7p"),
        (u32::MAX, "X-custom18jma8ppw3nhx5r4ap8clazz0dps7rv5u9xde7p"),
    ];
    for (network_id, address) in expected.iter() {
        assert_eq!(k.address("X", *network_id).unwrap(), *address);
    }
}

#[test]
fn info_has_the_texts_of_the_key() {
    for ki in key_infos().iter() {
        let info = Key::from_private_key(ki.private_key).unwrap().info(1).unwrap();
        assert_eq!(info.private_key, ki.private_key);
        assert_eq!(info.private_key_hex, ki.private_key_hex);
        assert_eq!(info.x_address, ki.network1[0]);
        assert_eq!(info.p_address, ki.network1[1]);
        assert_eq!(info.c_address, ki.network1[2]);
        assert_eq!(info.short_address, ki.short_address);
        assert_eq!(info.eth_address, ki.eth_address);
    }
}

#[test]
fn short_address_of_key() {
    let k = Key::from_private_key(key_infos()[1].private_key).unwrap();
    let expected = vec![
        117, 30, 118, 232, 25, 145, 150, 212, 84, 148, 28, 69, 209, 179, 163, 35, 241, 67, 59, 214,
    ];
    assert_eq!(k.short_address_bytes().unwrap(), expected);
    let public_key = k.public_key.unwrap();
    assert_eq!(public_key_to_short_address_bytes(&public_key).unwrap(), expected);
    assert_eq!(bytes_to_short_address_bytes(&public_key.serialize()).unwrap(), expected);
    assert_eq!(bytes_to_short_address(&public_key.serialize()).unwrap(), k.short_address);
    assert_eq!(public_key_to_eth_address(&public_key).unwrap(), k.eth_address);
}

#[test]
fn short_address_of_bytes() {
    assert_eq!(
        bytes_to_short_address_bytes(b"abc").unwrap(),
        vec![
            0xbb, 0x1b, 0xe9, 0x8c, 0x14, 0x24, 0x44, 0xd7, 0xa5, 0x6a, 0xa3, 0x98, 0x1c, 0x39,
            0x42, 0xa9, 0x78, 0xe4, 0xdc, 0x33
        ]
    );
    assert_eq!(
        bytes_to_short_address_bytes(&[]).unwrap(),
        vec![
            180, 114, 162, 102, 208, 189, 137, 193, 55, 6, 164, 19, 44, 207, 177, 111, 124, 59,
            159, 203
        ]
    );
}

#[test]
fn public_key_of_one_is_the_generator() {
    let mut bytes = [0u8; 32];
    bytes[31] = 1;
    let secret = SecretKey::from_slice(&bytes).unwrap();
    assert_eq!(secret.secret_bytes(), bytes);
    let public = PublicKey::from_secret_key(&secret);
    let compressed = public.serialize();
    let uncompressed = public.serialize_uncompressed();
    assert_eq!(compressed[0], 2);
    assert_eq!(&compressed[1..5], &[0x79, 0xbe, 0x66, 0x7e]);
    assert_eq!(uncompressed[0], 4);
    assert_eq!(&uncompressed[1..33], &compressed[1..33]);
    assert_eq!(&uncompressed[33..37], &[0x48, 0x3a, 0xda, 0x77]);
}

#[test]
fn secret_keys_out_of_range_are_refused() {
    assert_eq!(SecretKey::from_slice(&[0u8; 32]), Err(KeyError::InvalidSecretKey));
    assert_eq!(SecretKey::from_slice(&[1u8; 31]), Err(KeyError::InvalidSecretKey));
    assert_eq!(SecretKey::from_slice(&[0xffu8; 32]), Err(KeyError::InvalidSecretKey));
    assert_eq!(
        Key::from_private_key(&formatting::encode_cb58_with_checksum(&[0u8; 32])),
        Err(KeyError::InvalidSecretKey)
    );
    // the curve order
    assert_eq!(
        Key::from_private_key("PrivateKey-2wkBET2rRgE8pahuaczxKbhPFFp7gb6Kvp7zHyaJMz1jLSmmEN"),
        Err(KeyError::InvalidSecretKey)
    );
    assert_eq!(
        Key::from_private_key_eth(
            "fffffffffffffffffffffffffffffffebaaedce6af48a03bbfd25e8cd0364141"
        ),
        Err(KeyError::InvalidSecretKey)
    );
}

#[test]
fn private_keys_of_another_size_are_refused() {
    assert_eq!(
        Key::from_private_key(&formatting::encode_cb58_with_checksum(&[7u8; 31])),
        Err(KeyError::UnexpectedSecretKeySize { length: 31 })
    );
    assert_eq!(
        Key::from_private_key_eth("00ff"),
        Err(KeyError::UnexpectedSecretKeySize { length: 2 })
    );
    assert_eq!(
        Key::from_private_key_eth(""),
        Err(KeyError::UnexpectedSecretKeySize { length: 0 })
    );
}

#[test]
fn private_keys_that_are_not_cb58_are_refused() {
    assert_eq!(Key::from_private_key("PrivateKey-0"), Err(KeyError::InvalidBase58));
    assert_eq!(Key::from_private_key("é"), Err(KeyError::InvalidBase58));
    assert_eq!(Key::from_private_key(""), Err(KeyError::MissingChecksum { length: 0 }));
    assert_eq!(
        Key::from_private_key("PrivateKey-ewoqjP7PxY4yr3iLTpLisriqt94hdyDFNgchSxGGztUrTXtNM"),
        Err(KeyError::InvalidChecksum)
    );
}

#[test]
fn private_keys_that_are_not_hexadecimal_are_refused() {
    assert_eq!(
        Key::from_private_key_eth("abc"),
        Err(KeyError::InvalidHex { reason: HexError::OddLength })
    );
    assert_eq!(
        Key::from_private_key_eth("abcx12zz"),
        Err(KeyError::InvalidHex {
            reason: HexError::InvalidHexCharacter { c: 'x', index: 3 }
        })
    );
    assert_eq!(
        Key::from_private_key_eth("0é1"),
        Err(KeyError::InvalidHex {
            reason: HexError::InvalidHexCharacter { c: 'Ã', index: 1 }
        })
    );
}

#[test]
fn hexadecimal_of_either_case_is_read() {
    let ki = &key_infos()[0];
    let upper = ki.private_key_hex.to_uppercase();
    assert_eq!(Key::from_private_key_eth(&upper).unwrap().private_key, ki.private_key);
}

#[test]
fn load_keys_takes_both_line_endings() {
    let infos = key_infos();
    let text = format!("{}\r\n{}", infos[0].private_key, infos[1].private_key);
    let keys = load_keys(text.as_bytes()).unwrap();
    assert_eq!(keys.len(), 2);
    assert_eq!(keys[0].short_address, infos[0].short_address);
    assert_eq!(keys[1].short_address, infos[1].short_address);
    assert_eq!(load_keys(b"").unwrap().len(), 0);
}

#[test]
fn load_keys_refuses_a_repeated_line() {
    let infos = key_infos();
    let text = format!("{}{}", key_file(&infos), infos[1].private_key);
    assert_eq!(load_keys(text.as_bytes()), Err(KeyError::DuplicateKey { line: 6 }));
    // what comes after the repeated line is not read
    let text = format!("{}\nnot a key\n", text);
    assert_eq!(load_keys(text.as_bytes()), Err(KeyError::DuplicateKey { line: 6 }));
}

#[test]
fn the_same_key_in_two_spellings_is_no_repeated_line() {
    let infos = key_infos();
    let bare = &infos[0].private_key[PRIVATE_KEY_ENCODE_PREFIX.len()..];
    let text = format!("{}\n{}\n", infos[0].private_key, bare);
    let keys = load_keys(text.as_bytes()).unwrap();
    assert_eq!(keys[0], keys[1]);
}

#[test]
fn load_keys_refuses_what_is_no_text() {
    assert_eq!(
        load_keys(&[b'a', 0xff, b'b']),
        Err(KeyError::InvalidUtf8 { valid_up_to: 1, error_len: Some(1) })
    );
    assert_eq!(
        load_keys(&[b'a', b'b', 0xe2, 0x82]),
        Err(KeyError::InvalidUtf8 { valid_up_to: 2, error_len: None })
    );
}

#[test]
fn try_load_keys_tells_what_load_keys_does_not_take() {
    let infos = key_infos();
    let good = key_file(&infos);
    assert_eq!(try_load_keys(good.as_bytes()), Some(load_keys(good.as_bytes())));
    assert_eq!(try_load_keys(b"\n"), None);
    assert_eq!(try_load_keys(format!("{}oops\n", good).as_bytes()), None);
    let repeated = format!("{}\n{}\noops\n", infos[2].private_key, infos[2].private_key);
    assert_eq!(
        try_load_keys(repeated.as_bytes()),
        Some(Err(KeyError::DuplicateKey { line: 2 }))
    );
    assert_eq!(
        try_load_keys(&[0xff]),
        Some(Err(KeyError::InvalidUtf8 { valid_up_to: 0, error_len: Some(1) }))
    );
    // a carriage return that no line feed follows belongs to the last line
    let ended = format!("{}\r", infos[0].private_key);
    assert_eq!(try_load_keys(ended.as_bytes()), None);
}

#[test]
fn private_keys_are_written_back_as_they_came() {
    for info in key_infos() {
        let raw = info.private_key.replace(PRIVATE_KEY_ENCODE_PREFIX, "");
        for text in [info.private_key.to_string(), raw.clone(), format!("{}{}", info.private_key, PRIVATE_KEY_ENCODE_PREFIX)] {
            let key = Key::from_private_key(&text).unwrap();
            assert_eq!(key.private_key, format!("{}{}", PRIVATE_KEY_ENCODE_PREFIX, raw));
        }
        let upper = info.private_key_hex.to_uppercase();
        let key = Key::from_private_key_eth(&upper).unwrap();
        assert_eq!(key.private_key_hex, upper.to_lowercase());
    }
}

#[test]
fn drawn_keys_are_kept() {
    let mut bytes = [0u8; 32];
    bytes[31] = 1;
    let secret = SecretKey::from_slice(&bytes).unwrap();
    let public = PublicKey::from_secret_key(&secret);
    let forms = (public.serialize(), public.serialize_uncompressed());
    assert_eq!(keypair_of(Some((bytes, forms))), Some((secret, public)));
    assert_eq!(keypair_of(None), None);

    let (secret, public) = generate_keypair().unwrap();
    assert_eq!(public, PublicKey::from_secret_key(&secret));
}

#[test]
fn debug_does_not_show_the_secret() {
    for info in key_infos() {
        let key = Key::from_private_key(info.private_key).unwrap();
        let bytes = key.secret_key.unwrap().secret_bytes();
        let secret = secp256k1::SecretKey::from_slice(&bytes).unwrap();
        let public =
            secp256k1::PublicKey::from_slice(&key.public_key.unwrap().serialize()).unwrap();
        let shown = format!("{:?}", key.secret_key.unwrap());
        assert_eq!(shown, format!("{:?}", secret));
        assert!(shown.starts_with("SecretKey(#"));
        assert!(!shown.contains(info.private_key_hex));
        assert!(!format!("{:?}", key).contains(&format!("{:?}", bytes)));
        assert_eq!(format!("{:?}", key.public_key.unwrap()), format!("{:?}", public));
        assert_eq!(format!("{:#?}", key.public_key), format!("{:#?}", Some(public)));
    }
}

#[test]
fn prefix_is_optional_in_front_of_any_text() {
    for text in ["", "-", "0OIl", "PrivateKey", "ewoqjP7", "Schl\u{fc}ssel"] {
        let prefixed = format!("{}{}", PRIVATE_KEY_ENCODE_PREFIX, text);
        let e = Key::from_private_key(text).unwrap_err();
        assert_eq!(Key::from_private_key(&prefixed), Err(e));
    }
}

#[test]
fn load_keys_takes_any_mix_of_line_endings() {
    let infos = key_infos();
    for last in ["", "\n", "\r\n"] {
        let endings = ["\r\n", "\n", "\r\n", "\n", last];
        let mut text = String::new();
        for (info, ending) in infos.iter().zip(endings.iter()) {
            text.push_str(info.private_key);
            text.push_str(ending);
        }
        let keys = load_keys(text.as_bytes()).unwrap();
        assert_eq!(keys.len(), infos.len());
        for (key, info) in keys.iter().zip(infos.iter()) {
            assert_eq!(*key, Key::from_private_key(info.private_key).unwrap());
        }
    }
}
