//! Networks and the human-readable parts of their addresses.

use vstd::prelude::*;

verus! {

/// The human-readable part of addresses on a network that has none of its own.
pub const FALLBACK_HRP: &'static str = "custom";

/// The human-readable part of a network that has one of its own.
pub open spec fn known_hrp(network_id: u32) -> Option<Seq<char>> {
    if network_id == 1 {
        Some("avax"@)
    } else if network_id == 2 {
        Some("cascade"@)
    } else if network_id == 3 {
        Some("denali"@)
    } else if network_id == 4 {
        Some("everest"@)
    } else if network_id == 5 {
        Some("fuji"@)
    } else if network_id == 12345 {
        Some("local"@)
    } else {
        None
    }
}

/// The human-readable part of addresses on a network.
pub open spec fn hrp_of(network_id: u32) -> Seq<char> {
    match known_hrp(network_id) {
        Some(hrp) => hrp,
        None => FALLBACK_HRP@,
    }
}

/// The human-readable part of a network that has one of its own.
pub fn network_id_to_hrp(network_id: u32) -> (hrp: Option<&'static str>)
    ensures
        match hrp {
            Some(h) => known_hrp(network_id) == Some(h@),
            None => known_hrp(network_id) is None,
        },
{
    if network_id == 1 {
        Some("avax")
    } else if network_id == 2 {
        Some("cascade")
    } else if network_id == 3 {
        Some("denali")
    } else if network_id == 4 {
        Some("everest")
    } else if network_id == 5 {
        Some("fuji")
    } else if network_id == 12345 {
        Some("local")
    } else {
        None
    }
}

/// Six networks have a human-readable part of their own, each another one; every other network has
/// the same one, which is none of these.
pub proof fn lemma_networks(network_id: u32)
    ensures
        network_id == 1 <==> hrp_of(network_id) == "avax"@,
        network_id == 2 <==> hrp_of(network_id) == "cascade"@,
        network_id == 3 <==> hrp_of(network_id) == "denali"@,
        network_id == 4 <==> hrp_of(network_id) == "everest"@,
        network_id == 5 <==> hrp_of(network_id) == "fuji"@,
        network_id == 12345 <==> hrp_of(network_id) == "local"@,
        hrp_of(network_id) == "custom"@ <==> known_hrp(network_id) is None,
        known_hrp(network_id) is None <==> !set![1u32, 2, 3, 4, 5, 12345].contains(network_id),
        known_hrp(network_id) matches Some(hrp) ==> hrp_of(network_id) == hrp,
{
    reveal_strlit("avax");
    reveal_strlit("cascade");
    reveal_strlit("denali");
    reveal_strlit("everest");
    reveal_strlit("fuji");
    reveal_strlit("local");
    reveal_strlit("custom");
    assert("avax"@[0] != "cascade"@[0]);
    assert("denali"@[0] == 'd');
    assert("everest"@[0] == 'e');
    assert("fuji"@[0] == 'f');
    assert("local"@[0] == 'l');
    assert("custom"@[1] == 'u');
}

} // verus!
