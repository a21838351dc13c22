//! The scalar field, as seen by this layer: a 256-bit little-endian limb
//! string whose bits drive the scalar-multiplication ladder.  No scalar
//! arithmetic is performed here.

use vstd::prelude::*;
use crate::modp::limbs_val;

verus! {

/// A scalar: four little-endian 64-bit limbs.
#[derive(Clone, Copy)]
pub struct Fr {
    pub l0: u64,
    pub l1: u64,
    pub l2: u64,
    pub l3: u64,
}

/// Bit `i` of the scalar's 256-bit little-endian representation.
pub open spec fn fr_bit(k: Fr, i: int) -> bool {
    if 0 <= i < 64 {
        (k.l0 >> (i as u64)) & 1 == 1
    } else if 64 <= i < 128 {
        (k.l1 >> ((i - 64) as u64)) & 1 == 1
    } else if 128 <= i < 192 {
        (k.l2 >> ((i - 128) as u64)) & 1 == 1
    } else if 192 <= i < 256 {
        (k.l3 >> ((i - 192) as u64)) & 1 == 1
    } else {
        false
    }
}

impl Fr {
    /// The integer value of the limb string.
    pub open spec fn val(&self) -> int {
        limbs_val(self.l0, self.l1, self.l2, self.l3)
    }

    /// A scalar from raw little-endian limbs.
    pub fn from_raw(limbs: [u64; 4]) -> (r: Fr)
        ensures
            r == (Fr { l0: limbs[0], l1: limbs[1], l2: limbs[2], l3: limbs[3] }),
    {
        Fr { l0: limbs[0], l1: limbs[1], l2: limbs[2], l3: limbs[3] }
    }

    /// A small scalar from a machine word.
    pub fn from_u64(v: u64) -> (r: Fr)
        ensures
            r == (Fr { l0: v, l1: 0, l2: 0, l3: 0 }),
            r.val() == v,
    {
        Fr { l0: v, l1: 0, l2: 0, l3: 0 }
    }

    /// Bit `i` of the scalar, little-endian.
    pub fn bit(&self, i: usize) -> (r: bool)
        requires
            i < 256,
        ensures
            r == fr_bit(*self, i as int),
    {
        if i < 64 {
            (self.l0 >> (i as u64)) & 1 == 1
        } else if i < 128 {
            (self.l1 >> ((i - 64) as u64)) & 1 == 1
        } else if i < 192 {
            (self.l2 >> ((i - 128) as u64)) & 1 == 1
        } else {
            (self.l3 >> ((i - 192) as u64)) & 1 == 1
        }
    }
}

} // verus!
