//! Identifiers of addresses.

use vstd::prelude::*;

use crate::formatting::{cb58_text, encode_cb58_with_checksum};

verus! {

/// The 20 bytes that identify an address.
#[derive(Debug, Clone, Copy, PartialEq, Eq, Hash)]
pub struct ShortId {
    pub d: [u8; 20],
}

impl View for ShortId {
    type V = Seq<u8>;

    open spec fn view(&self) -> Seq<u8> {
        self.d@
    }
}

impl ShortId {
    /// The CB58 text of the identifier.
    pub fn to_string(&self) -> (text: String)
        ensures
            text@ == cb58_text(self@),
    {
        encode_cb58_with_checksum(self.d.as_slice())
    }
}

} // verus!
