//! Several keys, found by their short addresses.

use vstd::hash_map::StringHashMap;
use vstd::prelude::*;

use crate::error::KeyError;
use crate::formatting::cb58_text;
use crate::ids::ShortId;
use crate::secp256k1fx::{
    lemma_matched_positions, lemma_owned_positions, lemma_threshold, matched_positions, meets_threshold, owned_positions, signature_indices,
    OutputOwners, TransferInput, TransferOutput,
};
use crate::soft_key::{key_views, Key, KeyView};

verus! {

/// The indices of keys by short address. Where keys share an address, the last one counts.
pub open spec fn index_map(keys: Seq<Key>) -> Map<Seq<char>, u32>
    decreases keys.len(),
{
    if keys.len() == 0 {
        Map::empty()
    } else {
        index_map(keys.drop_last()).insert(keys.last()@.short_address, (keys.len() - 1) as u32)
    }
}

/// Keys and their indices by short address.
pub struct Keychain {
    pub keys: Vec<Key>,
    pub short_addr_to_key_index: StringHashMap<u32>,
}

impl Keychain {
    /// The index of an address, if it has one, is the index of a key.
    pub open spec fn index_in_range(&self, address: Seq<char>) -> bool {
        self.owned().contains(address) ==> self.short_addr_to_key_index@[address]
            < self.keys@.len()
    }

    /// Every index is the index of a key.
    pub open spec fn indices_in_range(&self) -> bool {
        forall|a: Seq<char>| #[trigger] self.index_in_range(a)
    }

    /// While an output is not locked, the indices of its addresses are indices of keys.
    pub open spec fn can_match(&self, owners: OutputOwners, time: u64) -> bool {
        owners.locktime <= time ==> forall|i: int|
            0 <= i < owners.addrs@.len() ==> self.index_in_range(
                cb58_text(#[trigger] owners.addrs@[i]@),
            )
    }

    /// The indices are those of the keys, and there are no more keys than an index can count.
    pub open spec fn is_indexed(&self) -> bool {
        &&& self.short_addr_to_key_index@ == index_map(self.keys@)
        &&& self.keys@.len() <= u32::MAX
    }

    /// The addresses that the keys sign for.
    pub open spec fn owned(&self) -> Set<Seq<char>> {
        self.short_addr_to_key_index@.dom()
    }

    /// The key at the index of an address.
    pub open spec fn key_at(&self, address: Seq<char>) -> KeyView {
        self.keys@[self.short_addr_to_key_index@[address] as int]@
    }

    /// The keys of the addresses at `positions`.
    pub open spec fn keys_at(&self, addrs: Seq<ShortId>, positions: Seq<int>) -> Seq<KeyView> {
        positions.map_values(|p: int| self.key_at(cb58_text(addrs[p]@)))
    }

    /// Puts keys in a keychain.
    pub fn new(keys: Vec<Key>) -> (chain: Keychain)
        ensures
            chain.keys == keys,
            chain.short_addr_to_key_index@ == index_map(keys@),
            chain.indices_in_range(),
    {
        let mut short_addr_to_key_index: StringHashMap<u32> = StringHashMap::new();
        let mut pos: usize = 0;
        assert(keys@.take(0) =~= Seq::<Key>::empty());
        while pos < keys.len()
            invariant
                pos <= keys@.len(),
                short_addr_to_key_index@ == index_map(keys@.take(pos as int)),
            decreases keys@.len() - pos,
        {
            assert(keys@.take(pos + 1).drop_last() =~= keys@.take(pos as int));
            short_addr_to_key_index.insert(keys[pos].short_address.clone(), pos as u32);
            pos += 1;
        }
        assert(keys@.take(pos as int) =~= keys@);
        proof {
            lemma_index_map_in_range(keys@);
        }
        Keychain { keys, short_addr_to_key_index }
    }

    /// The key of an address, if there is one.
    pub fn get(&self, short_addr: &ShortId) -> (found: Option<Key>)
        requires
            self.index_in_range(cb58_text(short_addr@)),
        ensures
            match found {
                Some(key) => {
                    &&& self.owned().contains(cb58_text(short_addr@))
                    &&& key@ == self.key_at(cb58_text(short_addr@))
                },
                None => !self.owned().contains(cb58_text(short_addr@)),
            },
    {
        let short_addr = short_addr.to_string();
        match self.short_addr_to_key_index.get(short_addr.as_str()) {
            Some(index) => Some(self.keys[*index as usize].clone()),
            None => None,
        }
    }

    /// Gives what `get` gives; `None` if the index of the address is not the index of a key.
    pub fn try_get(&self, short_addr: &ShortId) -> (found: Option<Option<Key>>)
        ensures
            match found {
                Some(Some(key)) => {
                    &&& self.index_in_range(cb58_text(short_addr@))
                    &&& self.owned().contains(cb58_text(short_addr@))
                    &&& key@ == self.key_at(cb58_text(short_addr@))
                },
                Some(None) => !self.owned().contains(cb58_text(short_addr@)),
                None => !self.index_in_range(cb58_text(short_addr@)),
            },
    {
        if self.has_index_in_range(short_addr) {
            Some(self.get(short_addr))
        } else {
            None
        }
    }

    /// Tells whether the index of an address, if it has one, is the index of a key.
    fn has_index_in_range(&self, short_addr: &ShortId) -> (in_range: bool)
        ensures
            in_range == self.index_in_range(cb58_text(short_addr@)),
    {
        let short_addr = short_addr.to_string();
        match self.short_addr_to_key_index.get(short_addr.as_str()) {
            Some(index) => (*index as usize) < self.keys.len(),
            None => true,
        }
    }

    /// Finds the addresses of an output that the keys sign for, their keys, and whether they are
    /// as many as have to sign.
    pub fn match_threshold(&self, output_owners: &OutputOwners, time: u64) -> (matched: Result<
        (Vec<u32>, Vec<Key>, bool),
        KeyError,
    >)
        requires
            self.can_match(*output_owners, time),
        ensures
            matched matches Ok((sigs, keys, met)) && {
                let positions = matched_positions(*output_owners, self.owned(), time);
                &&& sigs@ == signature_indices(positions)
                &&& key_views(keys@) == self.keys_at(output_owners.addrs@, positions)
                &&& met == meets_threshold(*output_owners, self.owned(), time)
            },
    {
        let mut sigs: Vec<u32> = Vec::new();
        let mut keys: Vec<Key> = Vec::new();
        let addrs = &output_owners.addrs;
        let ghost owned = self.owned();
        assert(sigs@ =~= signature_indices(Seq::empty()));
        assert(key_views(keys@) =~= self.keys_at(addrs@, Seq::empty()));
        if output_owners.locktime > time {
            return Ok((sigs, keys, false));
        }
        let mut pos: usize = 0;
        assert(owned_positions(addrs@.take(0), owned) =~= Seq::<int>::empty());
        while pos < addrs.len()
            invariant
                pos <= addrs@.len(),
                *addrs == output_owners.addrs,
                output_owners.locktime <= time,
                self.can_match(*output_owners, time),
                owned == self.owned(),
                sigs@ == signature_indices(owned_positions(addrs@.take(pos as int), owned)),
                key_views(keys@) == self.keys_at(
                    addrs@,
                    owned_positions(addrs@.take(pos as int), owned),
                ),
            decreases addrs@.len() - pos,
        {
            let ghost before = owned_positions(addrs@.take(pos as int), owned);
            let ghost views_before = key_views(keys@);
            assert(addrs@.take(pos + 1).drop_last() =~= addrs@.take(pos as int));
            match self.get(&addrs[pos]) {
                Some(key) => {
                    sigs.push(pos as u32);
                    keys.push(key);
                    proof {
                        assert(signature_indices(before.push(pos as int)) =~= signature_indices(
                            before,
                        ).push(pos as u32));
                        assert(key_views(keys@) =~= views_before.push(key@));
                        assert(self.keys_at(addrs@, before.push(pos as int)) =~= self.keys_at(
                            addrs@,
                            before,
                        ).push(key@));
                    }
                },
                None => {},
            }
            pos += 1;
        }
        assert(addrs@.take(pos as int) =~= addrs@);
        let n = keys.len();
        proof {
            assert(key_views(keys@).len() == owned_positions(addrs@, owned).len());
        }
        Ok((sigs, keys, n as u32 == output_owners.threshold))
    }

    /// Gives what `match_threshold` gives; `None` if the index of an address of an output that is
    /// not locked is not the index of a key.
    pub fn try_match_threshold(&self, output_owners: &OutputOwners, time: u64) -> (matched: Option<
        Result<(Vec<u32>, Vec<Key>, bool), KeyError>,
    >)
        ensures
            match matched {
                Some(Ok((sigs, keys, met))) => {
                    let positions = matched_positions(*output_owners, self.owned(), time);
                    &&& self.can_match(*output_owners, time)
                    &&& sigs@ == signature_indices(positions)
                    &&& key_views(keys@) == self.keys_at(output_owners.addrs@, positions)
                    &&& met == meets_threshold(*output_owners, self.owned(), time)
                },
                Some(Err(_)) => false,
                None => !self.can_match(*output_owners, time),
            },
    {
        if self.has_indices_in_range(output_owners, time) {
            Some(self.match_threshold(output_owners, time))
        } else {
            None
        }
    }

    /// Tells whether the indices of the addresses of an output that is not locked are indices of
    /// keys.
    fn has_indices_in_range(&self, output_owners: &OutputOwners, time: u64) -> (in_range: bool)
        ensures
            in_range == self.can_match(*output_owners, time),
    {
        if output_owners.locktime > time {
            return true;
        }
        let addrs = &output_owners.addrs;
        let mut pos: usize = 0;
        while pos < addrs.len()
            invariant
                pos <= addrs@.len(),
                *addrs == output_owners.addrs,
                output_owners.locktime <= time,
                forall|i: int|
                    0 <= i < pos ==> self.index_in_range(cb58_text(#[trigger] addrs@[i]@)),
            decreases addrs@.len() - pos,
        {
            if !self.has_index_in_range(&addrs[pos]) {
                assert(!self.index_in_range(cb58_text(output_owners.addrs@[pos as int]@)));
                return false;
            }
            pos += 1;
        }
        true
    }

    /// Spends an output with the keys; gives the keys that have to sign too.
    pub fn spend(&self, output: &TransferOutput, time: u64) -> (spent: Result<
        (TransferInput, Vec<Key>),
        KeyError,
    >)
        requires
            self.can_match(output.output_owners, time),
        ensures
            match spent {
                Ok((input, keys)) => {
                    let addrs = output.output_owners.addrs@;
                    let positions = owned_positions(addrs, self.owned());
                    &&& meets_threshold(output.output_owners, self.owned(), time)
                    &&& input.amount == output.amount
                    &&& input.sig_indices@ == signature_indices(positions)
                    &&& key_views(keys@) == self.keys_at(addrs, positions)
                },
                Err(e) => {
                    &&& !meets_threshold(output.output_owners, self.owned(), time)
                    &&& e == KeyError::ThresholdNotMet
                },
            },
    {
        let (sigs, keys, threshold_met) = self.match_threshold(&output.output_owners, time)?;
        if !threshold_met {
            return Err(KeyError::ThresholdNotMet);
        }
        Ok((TransferInput { amount: output.amount, sig_indices: sigs }, keys))
    }

    /// Gives what `spend` gives; `None` if the index of an address of an output that is not locked
    /// is not the index of a key.
    pub fn try_spend(&self, output: &TransferOutput, time: u64) -> (spent: Option<
        Result<(TransferInput, Vec<Key>), KeyError>,
    >)
        ensures
            match spent {
                Some(Ok((input, keys))) => {
                    let addrs = output.output_owners.addrs@;
                    let positions = owned_positions(addrs, self.owned());
                    &&& self.can_match(output.output_owners, time)
                    &&& meets_threshold(output.output_owners, self.owned(), time)
                    &&& input.amount == output.amount
                    &&& input.sig_indices@ == signature_indices(positions)
                    &&& key_views(keys@) == self.keys_at(addrs, positions)
                },
                Some(Err(e)) => {
                    &&& self.can_match(output.output_owners, time)
                    &&& !meets_threshold(output.output_owners, self.owned(), time)
                    &&& e == KeyError::ThresholdNotMet
                },
                None => !self.can_match(output.output_owners, time),
            },
    {
        if self.has_indices_in_range(&output.output_owners, time) {
            Some(self.spend(output, time))
        } else {
            None
        }
    }
}

proof fn lemma_index_map_in_range(keys: Seq<Key>)
    ensures
        forall|a: Seq<char>| #[trigger]
            index_map(keys).dom().contains(a) ==> index_map(keys)[a] < keys.len(),
    decreases keys.len(),
{
    if keys.len() > 0 {
        let front = keys.drop_last();
        lemma_index_map_in_range(front);
        assert forall|a: Seq<char>| #[trigger] index_map(keys).dom().contains(a) implies index_map(
            keys,
        )[a] < keys.len() by {
            if a == keys.last()@.short_address {
                let last = keys.len() - 1;
                if last <= u32::MAX {
                    assert(last as u32 == last);
                }
            } else {
                assert(index_map(front).dom().contains(a));
            }
        }
    }
}

/// The keychain finds an address exactly if one of the keys has it, and what it finds is the last
/// key that has it.
pub proof fn lemma_index_map(keys: Seq<Key>, address: Seq<char>)
    requires
        keys.len() <= u32::MAX,
    ensures
        index_map(keys).contains_key(address) <==> exists|i: int|
            0 <= i < keys.len() && (#[trigger] keys[i])@.short_address == address,
        index_map(keys).contains_key(address) ==> {
            let index = index_map(keys)[address] as int;
            &&& 0 <= index < keys.len()
            &&& keys[index]@.short_address == address
            &&& forall|i: int|
                index < i < keys.len() ==> (#[trigger] keys[i])@.short_address != address
        },
    decreases keys.len(),
{
    if keys.len() > 0 {
        let front = keys.drop_last();
        lemma_index_map(front, address);
        if keys.last()@.short_address == address {
            assert(keys[keys.len() - 1]@.short_address == address);
        } else if index_map(front).contains_key(address) {
            let index = index_map(front)[address] as int;
            assert(front[index] == keys[index]);
            assert forall|i: int| index < i < keys.len() implies (
            #[trigger] keys[i])@.short_address != address by {
                if i < front.len() {
                    assert(front[i] == keys[i]);
                }
            }
        } else {
            assert forall|i: int| 0 <= i < keys.len() implies (#[trigger] keys[i])@.short_address
                != address by {
                if i < front.len() {
                    assert(front[i] == keys[i]);
                }
            }
        }
    }
}

/// Every key that a keychain gives for an output has the short address that stands in the output
/// at the position beside it, and there are as many keys as positions.
pub proof fn lemma_matched_keys(chain: Keychain, owners: OutputOwners, time: u64)
    requires
        chain.is_indexed(),
    ensures
        ({
            let positions = matched_positions(owners, chain.owned(), time);
            let keys = chain.keys_at(owners.addrs@, positions);
            &&& keys.len() == positions.len()
            &&& forall|i: int|
                0 <= i < keys.len() ==> (#[trigger] keys[i]).short_address == cb58_text(
                    owners.addrs@[positions[i]]@,
                )
        }),
{
    let positions = matched_positions(owners, chain.owned(), time);
    let keys = chain.keys_at(owners.addrs@, positions);
    lemma_owned_positions(owners.addrs@, chain.owned());
    assert forall|i: int| 0 <= i < keys.len() implies (#[trigger] keys[i]).short_address
        == cb58_text(owners.addrs@[positions[i]]@) by {
        assert(positions[i] == owned_positions(owners.addrs@, chain.owned())[i]);
        lemma_index_map(chain.keys@, cb58_text(owners.addrs@[positions[i]]@));
    }
}

/// A keychain with one key finds the same positions in an output, and meets the threshold of the
/// same outputs, as the key alone.
pub proof fn lemma_single_key_chain(chain: Keychain, owners: OutputOwners, time: u64)
    requires
        chain.is_indexed(),
        chain.keys@.len() == 1,
    ensures
        chain.owned() == chain.keys@[0].owned(),
        matched_positions(owners, chain.owned(), time) == matched_positions(
            owners,
            chain.keys@[0].owned(),
            time,
        ),
        meets_threshold(owners, chain.owned(), time) == meets_threshold(
            owners,
            chain.keys@[0].owned(),
            time,
        ),
{
    let keys = chain.keys@;
    assert(index_map(keys.drop_last()) =~= Map::empty());
    assert(chain.owned() =~= keys[0].owned());
}

/// More keys find more: what a keychain owns, it still owns with a key added.
pub proof fn lemma_added_key_keeps_addresses(keys: Seq<Key>, key: Key)
    ensures
        index_map(keys.push(key)).dom() == index_map(keys).dom().insert(key@.short_address),
{
    assert(keys.push(key).drop_last() =~= keys);
    assert(index_map(keys.push(key)).dom() =~= index_map(keys).dom().insert(key@.short_address));
}

/// A keychain that was made from keys finds an address exactly if it is the short address of one of
/// them, and gives the last such key.
pub proof fn lemma_found_key(chain: Keychain, address: Seq<char>, index: int)
    requires
        chain.short_addr_to_key_index@ == index_map(chain.keys@),
        chain.keys@.len() <= u32::MAX,
    ensures
        chain.owned().contains(address) <==> exists|i: int|
            0 <= i < chain.keys@.len() && (#[trigger] chain.keys@[i]).short_address@ == address,
        0 <= index < chain.keys@.len() && chain.keys@[index].short_address@ == address && (forall|
            i: int,
        |
            index < i < chain.keys@.len() ==> (#[trigger] chain.keys@[i]).short_address@ != address)
            ==> chain.key_at(address) == chain.keys@[index]@,
{
    lemma_index_map(chain.keys@, address);
    if chain.owned().contains(address) {
        let i = choose|i: int|
            0 <= i < chain.keys@.len() && (#[trigger] chain.keys@[i])@.short_address == address;
        assert(chain.keys@[i].short_address@ == address);
    }
    if exists|i: int|
        0 <= i < chain.keys@.len() && (#[trigger] chain.keys@[i]).short_address@ == address {
        let i = choose|i: int|
            0 <= i < chain.keys@.len() && (#[trigger] chain.keys@[i]).short_address@ == address;
        assert(chain.keys@[i]@.short_address == address);
    }
}

/// What can be looked up: whatever the keys, a keychain that was made from them has a key for every
/// address it finds. In any other keychain the indices that are looked up have to be indices of
/// keys, and none is looked up while an output is locked.
pub proof fn lemma_lookups(chain: Keychain, owners: OutputOwners, time: u64)
    ensures
        chain.short_addr_to_key_index@ == index_map(chain.keys@) ==> chain.can_match(owners, time),
        chain.can_match(owners, time) <==> owners.locktime > time || forall|i: int|
            0 <= i < owners.addrs@.len() && chain.short_addr_to_key_index@.contains_key(
                cb58_text(#[trigger] owners.addrs@[i].d@),
            ) ==> chain.short_addr_to_key_index@[cb58_text(owners.addrs@[i].d@)]
                < chain.keys@.len(),
{
    lemma_index_map_in_range(chain.keys@);
    if chain.can_match(owners, time) && owners.locktime <= time {
        assert forall|i: int|
            0 <= i < owners.addrs@.len() && chain.short_addr_to_key_index@.contains_key(
                cb58_text(#[trigger] owners.addrs@[i].d@),
            ) implies chain.short_addr_to_key_index@[cb58_text(owners.addrs@[i].d@)]
            < chain.keys@.len() by {
            assert(chain.index_in_range(cb58_text(owners.addrs@[i]@)));
        }
    }
    if owners.locktime <= time && forall|i: int|
        0 <= i < owners.addrs@.len() && chain.short_addr_to_key_index@.contains_key(
            cb58_text(#[trigger] owners.addrs@[i].d@),
        ) ==> chain.short_addr_to_key_index@[cb58_text(owners.addrs@[i].d@)] < chain.keys@.len() {
        assert forall|i: int| 0 <= i < owners.addrs@.len() implies chain.index_in_range(
            cb58_text(#[trigger] owners.addrs@[i]@),
        ) by {
            assert(owners.addrs@[i]@ == owners.addrs@[i].d@);
        }
    }
}

/// What a keychain that was made from keys finds in an output: once it is unlocked, exactly the
/// positions whose address is the short address of one of the keys. The threshold is met exactly if
/// these are as many as the threshold says, however many keys and addresses there are.
pub proof fn lemma_keychain_matches(
    chain: Keychain,
    owners: OutputOwners,
    time: u64,
    position: int,
)
    requires
        chain.short_addr_to_key_index@ == index_map(chain.keys@),
        chain.keys@.len() <= u32::MAX,
        owners.addrs@.len() <= u32::MAX,
    ensures
        matched_positions(owners, chain.owned(), time).contains(position) <==> {
            &&& owners.locktime <= time
            &&& 0 <= position < owners.addrs@.len()
            &&& exists|k: int|
                0 <= k < chain.keys@.len() && (#[trigger] chain.keys@[k]).short_address@
                    == cb58_text(owners.addrs@[position].d@)
        },
        meets_threshold(owners, chain.owned(), time) <==> {
            &&& owners.locktime <= time
            &&& Set::new(
                |p: int|
                    0 <= p < owners.addrs@.len() && exists|k: int|
                        0 <= k < chain.keys@.len() && (#[trigger] chain.keys@[k]).short_address@
                            == cb58_text(owners.addrs@[p].d@),
            ).len() == owners.threshold
        },
{
    lemma_matched_positions(owners, chain.owned(), time, position);
    lemma_threshold(owners, chain.owned(), time);
    if 0 <= position < owners.addrs@.len() {
        lemma_found_key(chain, cb58_text(owners.addrs@[position].d@), 0);
    }
    let owned = Set::new(
        |p: int|
            0 <= p < owners.addrs@.len() && chain.owned().contains(
                cb58_text(owners.addrs@[p].d@),
            ),
    );
    let held = Set::new(
        |p: int|
            0 <= p < owners.addrs@.len() && exists|k: int|
                0 <= k < chain.keys@.len() && (#[trigger] chain.keys@[k]).short_address@
                    == cb58_text(owners.addrs@[p].d@),
    );
    assert forall|p: int| owned.contains(p) <==> held.contains(p) by {
        if 0 <= p < owners.addrs@.len() {
            lemma_found_key(chain, cb58_text(owners.addrs@[p].d@), 0);
        }
    }
    assert(owned =~= held);
}

/// The keys that a keychain gives for an output stand beside the positions, one for each, and each
/// is the last of the keys that has the address at its position.
pub proof fn lemma_keys_beside_positions(
    chain: Keychain,
    addrs: Seq<ShortId>,
    positions: Seq<int>,
    i: int,
    index: int,
)
    requires
        chain.short_addr_to_key_index@ == index_map(chain.keys@),
        chain.keys@.len() <= u32::MAX,
        0 <= i < positions.len(),
        0 <= index < chain.keys@.len(),
        chain.keys@[index].short_address@ == cb58_text(addrs[positions[i]].d@),
        forall|k: int|
            index < k < chain.keys@.len() ==> (#[trigger] chain.keys@[k]).short_address@
                != cb58_text(addrs[positions[i]].d@),
    ensures
        chain.keys_at(addrs, positions).len() == positions.len(),
        chain.keys_at(addrs, positions)[i] == chain.keys@[index]@,
{
    lemma_found_key(chain, cb58_text(addrs[positions[i]].d@), index);
    assert(addrs[positions[i]]@ == addrs[positions[i]].d@);
}

/// Any keychain, however it was put together, finds the addresses that have an index, and the key
/// for the address at a position is the one at the index of that address.
pub proof fn lemma_indexed_key(
    chain: Keychain,
    addrs: Seq<ShortId>,
    positions: Seq<int>,
    i: int,
    address: Seq<char>,
)
    requires
        0 <= i < positions.len(),
        address == cb58_text(addrs[positions[i]].d@),
    ensures
        chain.owned().contains(address) <==> chain.short_addr_to_key_index@.contains_key(address),
        chain.key_at(address) == chain.keys@[chain.short_addr_to_key_index@[address] as int]@,
        chain.keys_at(addrs, positions).len() == positions.len(),
        chain.keys_at(addrs, positions)[i]
            == chain.keys@[chain.short_addr_to_key_index@[address] as int]@,
{
    assert(addrs[positions[i]]@ == addrs[positions[i]].d@);
}

} // verus!
