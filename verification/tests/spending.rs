use avalanche_types::error::KeyError;
use avalanche_types::ids::ShortId;
use avalanche_types::keychain::Keychain;
use avalanche_types::secp256k1fx::{OutputOwners, TransferInput, TransferOutput};
use avalanche_types::soft_key::Key;

fn key(n: u8) -> Key {
    Key::from_private_key_eth(&format!("{:064x}", n)).unwrap()
}

fn id(key: &Key) -> ShortId {
    let mut d = [0u8; 20];
    d.copy_from_slice(&key.short_address_bytes().unwrap());
    ShortId { d }
}

fn owners(locktime: u64, threshold: u32, keys: &[u8]) -> OutputOwners {
    OutputOwners {
        locktime,
        threshold,
        addrs: keys.iter().map(|n| id(&key(*n))).collect(),
    }
}

#[test]
fn ids_are_written_as_the_short_address() {
    assert_eq!(id(&key(1)).to_string(), key(1).short_address);
}

#[test]
fn a_key_matches_its_own_addresses() {
    let k = key(2);
    assert_eq!(k.match_threshold(&owners(0, 1, &[2]), 0), Ok((vec![0], true)));
    assert_eq!(k.match_threshold(&owners(0, 1, &[1, 2, 3]), 0), Ok((vec![1], true)));
    assert_eq!(k.match_threshold(&owners(0, 2, &[1, 2, 3]), 0), Ok((vec![1], false)));
    assert_eq!(k.match_threshold(&owners(0, 2, &[2, 1, 2]), 0), Ok((vec![0, 2], true)));
    assert_eq!(k.match_threshold(&owners(0, 1, &[2, 1, 2]), 0), Ok((vec![0, 2], false)));
    assert_eq!(k.match_threshold(&owners(0, 0, &[1]), 0), Ok((vec![], true)));
    assert_eq!(k.match_threshold(&owners(0, 1, &[]), 0), Ok((vec![], false)));
}

#[test]
fn a_locked_output_matches_nothing() {
    let k = key(2);
    assert_eq!(k.match_threshold(&owners(11, 1, &[2]), 10), Ok((vec![], false)));
    assert_eq!(k.match_threshold(&owners(11, 0, &[2]), 10), Ok((vec![], false)));
    assert_eq!(k.match_threshold(&owners(11, 1, &[2]), 11), Ok((vec![0], true)));
    let chain = Keychain::new(vec![key(2)]);
    assert_eq!(
        chain.match_threshold(&owners(11, 0, &[2]), 10),
        Ok((vec![], vec![], false))
    );
}

#[test]
fn a_key_spends_an_output() {
    let output = TransferOutput { amount: 77, output_owners: owners(5, 1, &[9, 4]) };
    assert_eq!(
        key(4).spend(&output, 5),
        Ok(TransferInput { amount: 77, sig_indices: vec![1] })
    );
    assert_eq!(key(4).spend(&output, 4), Err(KeyError::ThresholdNotMet));
    assert_eq!(key(5).spend(&output, 5), Err(KeyError::ThresholdNotMet));
}

#[test]
fn a_keychain_finds_its_keys() {
    let chain = Keychain::new(vec![key(1), key(2), key(3)]);
    assert_eq!(chain.get(&id(&key(2))), Some(key(2)));
    assert_eq!(chain.get(&id(&key(3))), Some(key(3)));
    assert_eq!(chain.get(&id(&key(4))), None);
    assert_eq!(Keychain::new(vec![]).get(&id(&key(1))), None);
    assert_eq!(chain.keys.len(), 3);
    assert_eq!(chain.short_addr_to_key_index.get(&key(3).short_address), Some(&2));
}

#[test]
fn the_last_key_of_an_address_counts() {
    let mut renamed = key(1);
    renamed.eth_address = String::from("0x");
    let chain = Keychain::new(vec![key(1), key(2), renamed.clone()]);
    assert_eq!(chain.get(&id(&key(1))), Some(renamed));
    assert_eq!(chain.short_addr_to_key_index.len(), 2);
}

#[test]
fn a_keychain_matches_the_addresses_of_its_keys() {
    let chain = Keychain::new(vec![key(1), key(2), key(3)]);
    assert_eq!(
        chain.match_threshold(&owners(0, 2, &[3, 9, 1]), 0),
        Ok((vec![0, 2], vec![key(3), key(1)], true))
    );
    assert_eq!(
        chain.match_threshold(&owners(0, 1, &[3, 9, 1]), 0),
        Ok((vec![0, 2], vec![key(3), key(1)], false))
    );
    assert_eq!(
        chain.match_threshold(&owners(0, 1, &[8, 9]), 0),
        Ok((vec![], vec![], false))
    );
}

#[test]
fn a_keychain_spends_an_output() {
    let chain = Keychain::new(vec![key(1), key(2)]);
    let output = TransferOutput { amount: u64::MAX, output_owners: owners(5, 2, &[2, 7, 1]) };
    assert_eq!(
        chain.spend(&output, 5),
        Ok((
            TransferInput { amount: u64::MAX, sig_indices: vec![0, 2] },
            vec![key(2), key(1)]
        ))
    );
    assert_eq!(chain.spend(&output, 4), Err(KeyError::ThresholdNotMet));
    let output = TransferOutput { amount: 1, output_owners: owners(0, 2, &[2, 7]) };
    assert_eq!(chain.spend(&output, 0), Err(KeyError::ThresholdNotMet));
}

#[test]
fn a_keychain_of_one_key_matches_as_the_key() {
    let chain = Keychain::new(vec![key(6)]);
    for output_owners in [owners(0, 1, &[6, 2]), owners(3, 2, &[6, 6]), owners(4, 1, &[6])] {
        let (sigs, met) = key(6).match_threshold(&output_owners, 3).unwrap();
        let (chain_sigs, keys, chain_met) = chain.match_threshold(&output_owners, 3).unwrap();
        assert_eq!(sigs, chain_sigs);
        assert_eq!(met, chain_met);
        assert_eq!(keys.len(), sigs.len());
    }
}

#[test]
fn a_keychain_with_an_index_out_of_range_still_serves_the_rest() {
    let mut chain = Keychain::new(vec![key(1), key(2)]);
    chain.short_addr_to_key_index.insert(key(3).short_address, 2);

    assert_eq!(chain.get(&id(&key(1))), Some(key(1)));
    assert_eq!(chain.get(&id(&key(4))), None);
    assert_eq!(chain.try_get(&id(&key(2))), Some(Some(key(2))));
    assert_eq!(chain.try_get(&id(&key(4))), Some(None));
    assert_eq!(chain.try_get(&id(&key(3))), None);

    let sound = owners(0, 1, &[4, 2]);
    assert_eq!(chain.match_threshold(&sound, 0), Ok((vec![1], vec![key(2)], true)));
    assert_eq!(
        chain.try_match_threshold(&sound, 0),
        Some(Ok((vec![1], vec![key(2)], true)))
    );
    let broken = owners(5, 1, &[2, 3]);
    assert_eq!(chain.match_threshold(&broken, 4), Ok((vec![], vec![], false)));
    assert_eq!(
        chain.try_match_threshold(&broken, 4),
        Some(Ok((vec![], vec![], false)))
    );
    assert_eq!(chain.try_match_threshold(&broken, 5), None);

    let output = TransferOutput { amount: 7, output_owners: sound };
    assert_eq!(
        chain.try_spend(&output, 0),
        Some(Ok((TransferInput { amount: 7, sig_indices: vec![1] }, vec![key(2)])))
    );
    let output = TransferOutput { amount: 7, output_owners: broken };
    assert_eq!(chain.spend(&output, 4), Err(KeyError::ThresholdNotMet));
    assert_eq!(chain.try_spend(&output, 4), Some(Err(KeyError::ThresholdNotMet)));
    assert_eq!(chain.try_spend(&output, 5), None);
}
