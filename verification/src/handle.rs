//! Stable names for particles.

use vstd::prelude::*;

verus! {

/// The name of a particle: a slot of the registry and the number of times
/// that slot had been given out before. A name stays valid until its particle
/// is removed, and is never valid again after that.
#[derive(Clone, Copy, PartialEq, Eq, Structural, Debug)]
pub struct Handle {
    pub index: u32,
    pub generation: u32,
}

impl Handle {
    /// The handle as one number: the generation above the index. Handles are
    /// ordered by this number.
    pub open spec fn bits(self) -> int {
        self.generation * 0x1_0000_0000 + self.index
    }

    /// The handle as one number.
    pub fn to_bits(self) -> (b: u64)
        ensures
            b == self.bits(),
    {
        let high: u64 = self.generation as u64;
        let low: u64 = self.index as u64;
        high * 0x1_0000_0000 + low
    }

    /// The handle that `to_bits` turns into `b`.
    pub fn from_bits(b: u64) -> (h: Handle)
        ensures
            h.bits() == b,
    {
        let high: u64 = b / 0x1_0000_0000;
        let low: u64 = b % 0x1_0000_0000;
        Handle { index: low as u32, generation: high as u32 }
    }

    /// Two handles with the same number are the same handle.
    pub proof fn lemma_bits_injective(a: Handle, b: Handle)
        requires
            a.bits() == b.bits(),
        ensures
            a == b,
    {
    }
}

} // verus!
