//! Outputs that are spent with secp256k1 signatures.

use vstd::prelude::*;

use crate::formatting::cb58_text;
use crate::ids::ShortId;

verus! {

/// Who can spend an output, and from when on.
#[derive(Debug, Clone, PartialEq, Eq)]
pub struct OutputOwners {
    /// The time before which the output cannot be spent.
    pub locktime: u64,
    /// How many of the addresses have to sign.
    pub threshold: u32,
    /// The addresses that can sign.
    pub addrs: Vec<ShortId>,
}

/// An amount and who can spend it.
#[derive(Debug, Clone, PartialEq, Eq)]
pub struct TransferOutput {
    pub amount: u64,
    pub output_owners: OutputOwners,
}

/// What spends an output: its amount, and the indices of the addresses that sign.
#[derive(Debug, Clone, PartialEq, Eq)]
pub struct TransferInput {
    pub amount: u64,
    pub sig_indices: Vec<u32>,
}

/// The positions in `addrs`, in ascending order, of the addresses whose text is in `owned`.
pub open spec fn owned_positions(addrs: Seq<ShortId>, owned: Set<Seq<char>>) -> Seq<int>
    decreases addrs.len(),
{
    if addrs.len() == 0 {
        Seq::empty()
    } else {
        let before = owned_positions(addrs.drop_last(), owned);
        if owned.contains(cb58_text(addrs.last()@)) {
            before.push(addrs.len() - 1)
        } else {
            before
        }
    }
}

/// Positions as they are written into an input.
pub open spec fn signature_indices(positions: Seq<int>) -> Seq<u32> {
    positions.map_values(|p: int| p as u32)
}

/// The positions of the owned addresses of an output at a time; none while it is locked.
pub open spec fn matched_positions(
    owners: OutputOwners,
    owned: Set<Seq<char>>,
    time: u64,
) -> Seq<int> {
    if owners.locktime > time {
        Seq::empty()
    } else {
        owned_positions(owners.addrs@, owned)
    }
}

/// The output is not locked, and exactly as many of its addresses are owned as have to sign.
pub open spec fn meets_threshold(owners: OutputOwners, owned: Set<Seq<char>>, time: u64) -> bool {
    &&& owners.locktime <= time
    &&& owned_positions(owners.addrs@, owned).len() as u32 == owners.threshold
}

/// The positions of the owned addresses are ascending, and they are all positions of addresses
/// that are owned and no others.
pub proof fn lemma_owned_positions(addrs: Seq<ShortId>, owned: Set<Seq<char>>)
    ensures
        owned_positions(addrs, owned).len() <= addrs.len(),
        forall|i: int, j: int|
            0 <= i < j < owned_positions(addrs, owned).len() ==> owned_positions(addrs, owned)[i]
                < owned_positions(addrs, owned)[j],
        forall|i: int|
            0 <= i < owned_positions(addrs, owned).len() ==> {
                &&& 0 <= #[trigger] owned_positions(addrs, owned)[i] < addrs.len()
                &&& owned.contains(cb58_text(addrs[owned_positions(addrs, owned)[i]]@))
            },
        forall|p: int|
            0 <= p < addrs.len() && owned.contains(cb58_text(#[trigger] addrs[p]@))
                ==> owned_positions(addrs, owned).contains(p),
    decreases addrs.len(),
{
    if addrs.len() > 0 {
        let front = addrs.drop_last();
        let before = owned_positions(front, owned);
        let all = owned_positions(addrs, owned);
        lemma_owned_positions(front, owned);
        assert forall|i: int| 0 <= i < all.len() implies {
            &&& 0 <= #[trigger] all[i] < addrs.len()
            &&& owned.contains(cb58_text(addrs[all[i]]@))
        } by {
            if i < before.len() {
                assert(all[i] == before[i]);
                assert(front[before[i]] == addrs[before[i]]);
            }
        }
        assert forall|p: int|
            0 <= p < addrs.len() && owned.contains(
                cb58_text(#[trigger] addrs[p]@),
            ) implies all.contains(p) by {
            if p < front.len() {
                assert(front[p] == addrs[p]);
                let k = choose|k: int| 0 <= k < before.len() && before[k] == p;
                assert(before.contains(p));
                assert(all[k] == p);
            } else {
                assert(all[before.len() as int] == p);
            }
        }
    }
}

/// What is written into an input for an output with as many addresses as a position can count: the
/// indices are the positions themselves, and they are ascending.
pub proof fn lemma_signature_indices(addrs: Seq<ShortId>, owned: Set<Seq<char>>)
    requires
        addrs.len() <= u32::MAX,
    ensures
        signature_indices(owned_positions(addrs, owned)).len() == owned_positions(addrs, owned).len(),
        forall|i: int|
            0 <= i < owned_positions(addrs, owned).len() ==> #[trigger] signature_indices(
                owned_positions(addrs, owned),
            )[i] == owned_positions(addrs, owned)[i],
        forall|i: int, j: int|
            0 <= i < j < owned_positions(addrs, owned).len() ==> signature_indices(
                owned_positions(addrs, owned),
            )[i] < signature_indices(owned_positions(addrs, owned))[j],
{
    lemma_owned_positions(addrs, owned);
}

/// The positions that are found in an output are exactly those of its owned addresses once it is
/// unlocked, in ascending order, and none before.
pub proof fn lemma_matched_positions(
    owners: OutputOwners,
    owned: Set<Seq<char>>,
    time: u64,
    position: int,
)
    ensures
        matched_positions(owners, owned, time).contains(position) <==> {
            &&& owners.locktime <= time
            &&& 0 <= position < owners.addrs@.len()
            &&& owned.contains(cb58_text(owners.addrs@[position].d@))
        },
        forall|i: int, j: int|
            0 <= i < j < matched_positions(owners, owned, time).len() ==> matched_positions(
                owners,
                owned,
                time,
            )[i] < matched_positions(owners, owned, time)[j],
{
    lemma_owned_positions(owners.addrs@, owned);
    let all = owned_positions(owners.addrs@, owned);
    if all.contains(position) {
        let i = choose|i: int| 0 <= i < all.len() && all[i] == position;
        assert(owned.contains(cb58_text(owners.addrs@[all[i]]@)));
    }
    if 0 <= position < owners.addrs@.len() {
        assert(owners.addrs@[position]@ == owners.addrs@[position].d@);
    }
}

/// The threshold of an output is met exactly if it is not locked and the number of its positions
/// with an owned address is the threshold. With fewer than the threshold it is never met, nor with
/// more.
pub proof fn lemma_threshold(owners: OutputOwners, owned: Set<Seq<char>>, time: u64)
    requires
        owners.addrs@.len() <= u32::MAX,
    ensures
        meets_threshold(owners, owned, time) <==> {
            &&& owners.locktime <= time
            &&& Set::new(
                |p: int|
                    0 <= p < owners.addrs@.len() && owned.contains(
                        cb58_text(owners.addrs@[p].d@),
                    ),
            ).len() == owners.threshold
        },
{
    let positions = owned_positions(owners.addrs@, owned);
    let found = Set::new(
        |p: int| 0 <= p < owners.addrs@.len() && owned.contains(cb58_text(owners.addrs@[p].d@)),
    );
    lemma_owned_positions(owners.addrs@, owned);
    positions.unique_seq_to_set();
    assert forall|p: int| found.contains(p) <==> #[trigger] positions.to_set().contains(p) by {
        if found.contains(p) {
            assert(owned.contains(cb58_text(owners.addrs@[p]@)));
        }
    }
    assert(positions.to_set() =~= found);
    assert(positions.len() as u32 == positions.len());
}

} // verus!
