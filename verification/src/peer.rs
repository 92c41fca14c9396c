//! Identity of a peer: the 32 bytes of its public key.

use crate::text::{ascii_text, push_ascii};
use crate::hex::{hex_bytes, push_hex};
use vstd::prelude::*;
use vstd::std_specs::cmp::PartialEqSpecImpl;

verus! {

/// Stable identifier of one device's network endpoint.
#[derive(Clone, Copy, Debug)]
pub struct PeerId {
    pub bytes: [u8; 32],
}

impl View for PeerId {
    type V = Seq<u8>;

    open spec fn view(&self) -> Seq<u8> {
        self.bytes@
    }
}

impl PeerId {
    /// The identity made of `bytes`.
    pub fn from_bytes(bytes: [u8; 32]) -> (id: PeerId)
        ensures
            id@ == bytes@,
            id.bytes == bytes,
    {
        PeerId { bytes }
    }

    /// The 32 bytes of the identity.
    pub fn as_bytes(&self) -> (bytes: &[u8; 32])
        ensures
            bytes@ == self@,
    {
        &self.bytes
    }

    /// The identity as 64 lower-case hexadecimal digits.
    pub fn to_hex(&self) -> (text: String)
        ensures
            text@ == ascii_text(hex_bytes(self@)),
    {
        let mut digits: Vec<u8> = Vec::new();
        push_hex(&mut digits, self.bytes.as_slice());
        let mut text = String::new();
        push_ascii(&mut text, &digits);
        assert(Seq::<char>::empty() + ascii_text(digits@) =~= ascii_text(digits@));
        text
    }

    /// Two identities with the same bytes are the same identity.
    pub proof fn lemma_view_injective(a: PeerId, b: PeerId)
        requires
            a@ == b@,
        ensures
            a == b,
    {
        assert(a.bytes =~= b.bytes);
    }
}

impl PartialEq for PeerId {
    fn eq(&self, other: &PeerId) -> (same: bool) {
        let mut i: usize = 0;
        while i < 32
            invariant
                i <= 32,
                forall|j: int| 0 <= j < i ==> self.bytes@[j] == other.bytes@[j],
            decreases 32 - i,
        {
            if self.bytes[i] != other.bytes[i] {
                return false;
            }
            i += 1;
        }
        assert(self.bytes@ =~= other.bytes@);
        true
    }
}

impl PartialEqSpecImpl for PeerId {
    open spec fn obeys_eq_spec() -> bool {
        true
    }

    open spec fn eq_spec(&self, other: &PeerId) -> bool {
        self@ == other@
    }
}

impl Eq for PeerId {}

} // verus!
