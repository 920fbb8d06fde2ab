//! The identity of a participant.

use vstd::prelude::*;

verus! {

/// Who holds an account or places a bet: an opaque string of bytes, compared
/// byte by byte.
#[derive(Debug, PartialEq, Eq)]
pub struct ParticipantId {
    bytes: Vec<u8>,
}

impl View for ParticipantId {
    type V = Seq<u8>;

    closed spec fn view(&self) -> Seq<u8> {
        self.bytes@
    }
}

impl ParticipantId {
    /// The identity that `bytes` spell.
    pub fn from_bytes(bytes: Vec<u8>) -> (id: ParticipantId)
        ensures
            id@ == bytes@,
    {
        ParticipantId { bytes }
    }

    /// The bytes of the identity.
    pub fn as_slice(&self) -> (bytes: &[u8])
        ensures
            bytes@ == self@,
    {
        self.bytes.as_slice()
    }

    /// Whether both identities are spelled by the same bytes.
    pub fn same(&self, other: &ParticipantId) -> (equal: bool)
        ensures
            equal == (self@ == other@),
    {
        if self.bytes.len() != other.bytes.len() {
            return false;
        }
        let mut i: usize = 0;
        while i < self.bytes.len()
            invariant
                self.bytes.len() == other.bytes.len(),
                i <= self.bytes.len(),
                forall|j: int| 0 <= j < i ==> self.bytes@[j] == other.bytes@[j],
            decreases self.bytes.len() - i,
        {
            if self.bytes[i] != other.bytes[i] {
                return false;
            }
            i += 1;
        }
        assert(self.bytes@ =~= other.bytes@);
        true
    }
}

impl Clone for ParticipantId {
    fn clone(&self) -> (copy: ParticipantId)
        ensures
            copy@ == self@,
    {
        let mut bytes: Vec<u8> = Vec::with_capacity(self.bytes.len());
        let mut i: usize = 0;
        while i < self.bytes.len()
            invariant
                i <= self.bytes.len(),
                bytes@ == self.bytes@.take(i as int),
            decreases self.bytes.len() - i,
        {
            bytes.push(self.bytes[i]);
            assert(self.bytes@.take(i + 1) =~= self.bytes@.take(i as int).push(self.bytes@[i as int]));
            i += 1;
        }
        assert(self.bytes@.take(i as int) =~= self.bytes@);
        ParticipantId { bytes }
    }
}

} // verus!
