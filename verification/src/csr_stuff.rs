//! Decoding of the machine-status control register.
//!
//! Only the previous-privilege field is of interest to the trap path:
//! the two MPP bits select the privilege level the core ran at before
//! the trap was taken.

use vstd::prelude::*;

verus! {

/// Privilege level encoded in the MPP field of the machine-status register.
#[derive(Debug, PartialEq, Eq, Structural)]
pub enum Privilege {
    Machine,
    Supervisor,
    User,
}

/// Decoded view of the machine-status register.
pub struct Mstatus {
    pub mpp: Privilege,
}

/// The privilege that the MPP bits (bits 11 and 12) of `bits` encode.
/// The pattern with only bit 12 set is reserved by the architecture.
pub open spec fn spec_mpp_of_bits(bits: usize) -> Privilege {
    let bit0 = bits & (1usize << 11) != 0;
    let bit1 = bits & (1usize << 12) != 0;
    if !bit1 && !bit0 {
        Privilege::User
    } else if !bit1 && bit0 {
        Privilege::Supervisor
    } else {
        Privilege::Machine
    }
}

impl Mstatus {
    /// Decodes the MPP field out of a raw machine-status value. The
    /// reserved bit pattern (bit 12 set, bit 11 clear) is excluded by
    /// precondition; on hardware it never occurs.
    pub fn new(bits: usize) -> (r: Self)
        requires
            !(bits & (1usize << 12) != 0 && bits & (1usize << 11) == 0),
        ensures
            r.mpp == spec_mpp_of_bits(bits),
    {
        let mpp_bit0: bool = (bits & (1 << 11)) != 0;
        let mpp_bit1: bool = (bits & (1 << 12)) != 0;

        let mpp: Privilege = match (mpp_bit1, mpp_bit0) {
            (false, false) => Privilege::User,
            (false, true) => Privilege::Supervisor,
            (true, _) => Privilege::Machine,
        };

        Mstatus { mpp }
    }
}

} // verus!
