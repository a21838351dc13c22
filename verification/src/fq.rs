//! The base field: elements are canonical integers below the prime, held as
//! four little-endian 64-bit limbs.
//!
//! The modular operations that need real field arithmetic (addition,
//! subtraction, multiplication, inversion, square roots) are delegated to
//! `ark-bn254` behind trusted wrappers; each wrapper converts the canonical
//! limbs in and out of the backend representation and states its result over
//! the integer model of `modp`.

use vstd::prelude::*;
use vstd::arithmetic::div_mod::*;
use ark_ff::Field;
use ark_ff::PrimeField;
use crate::modp::{fq_p, addp, subp, mulp, negp, rootp, limbs_val, le32_val};

verus! {

/// A base-field element: a canonical integer in `[0, p)` as four
/// little-endian 64-bit limbs.
#[derive(Clone, Copy)]
pub struct Fq {
    pub l0: u64,
    pub l1: u64,
    pub l2: u64,
    pub l3: u64,
}

impl Fq {
    /// The integer this element stands for.
    pub open spec fn val(&self) -> int {
        limbs_val(self.l0, self.l1, self.l2, self.l3)
    }

    /// Canonical form: the value is reduced modulo the prime.
    pub open spec fn wf(&self) -> bool {
        self.val() < fq_p()
    }

    /// The additive identity.
    pub fn zero() -> (r: Fq)
        ensures
            r.wf(),
            r.val() == 0,
    {
        Fq { l0: 0, l1: 0, l2: 0, l3: 0 }
    }

    /// The multiplicative identity.
    pub fn one() -> (r: Fq)
        ensures
            r.wf(),
            r.val() == 1,
    {
        Fq { l0: 1, l1: 0, l2: 0, l3: 0 }
    }

    /// A small element from a machine word.
    pub fn from_u64(v: u64) -> (r: Fq)
        ensures
            r.wf(),
            r.val() == v,
    {
        Fq { l0: v, l1: 0, l2: 0, l3: 0 }
    }

    /// Limb-wise equality, which coincides with value equality.
    pub fn equals(&self, other: &Fq) -> (r: bool)
        ensures
            r == (self.val() == other.val()),
    {
        proof {
            if self.val() == other.val() {
                lemma_limbs_unique(
                    self.l0, self.l1, self.l2, self.l3,
                    other.l0, other.l1, other.l2, other.l3,
                );
            }
        }
        self.l0 == other.l0 && self.l1 == other.l1 && self.l2 == other.l2 && self.l3 == other.l3
    }

    /// Whether this element is the additive identity.
    pub fn is_zero(&self) -> (r: bool)
        ensures
            r == (self.val() == 0),
    {
        proof {
            if self.val() == 0 {
                lemma_limbs_unique(self.l0, self.l1, self.l2, self.l3, 0, 0, 0, 0);
            }
        }
        self.l0 == 0 && self.l1 == 0 && self.l2 == 0 && self.l3 == 0
    }

    /// The limbs as an array, for conversion at the trusted boundary.
    pub fn limbs(&self) -> (r: [u64; 4])
        ensures
            r@ == seq![self.l0, self.l1, self.l2, self.l3],
    {
        let r = [self.l0, self.l1, self.l2, self.l3];
        proof {
            assert(r@ =~= seq![self.l0, self.l1, self.l2, self.l3]);
        }
        r
    }

    /// An element from raw limbs, for conversion at the trusted boundary.
    pub fn from_limbs(l: [u64; 4]) -> (r: Fq)
        ensures
            r == (Fq { l0: l[0], l1: l[1], l2: l[2], l3: l[3] }),
    {
        Fq { l0: l[0], l1: l[1], l2: l[2], l3: l[3] }
    }

    /// The parity of the canonical value, read from the lowest limb.
    pub fn is_odd(&self) -> (r: bool)
        ensures
            r == (self.val() % 2 == 1),
    {
        proof {
            let k = self.l1 * 0x8000000000000000int + self.l2 * 0x80000000000000000000000000000000int
                + self.l3 * 0x800000000000000000000000000000000000000000000000int;
            assert(self.val() == 2 * k + self.l0);
            lemma_mod_multiples_vanish(k, self.l0 as int, 2);
            let l0 = self.l0;
            assert((l0 & 1) == l0 % 2) by (bit_vector);
        }
        self.l0 & 1 == 1
    }
}

impl Fq {
    /// The canonical 32-byte little-endian encoding of the value.  Because
    /// the prime fits in 254 bits, the top two bits of the final byte are
    /// always clear.
    pub fn to_le_bytes(&self) -> (r: [u8; 32])
        requires
            self.wf(),
        ensures
            r@.len() == 32,
            le32_val(r@) == self.val(),
            r@[31] < 0x40,
    {
        proof {
            let l0 = self.l0;
            let l1 = self.l1;
            let l2 = self.l2;
            let l3 = self.l3;
            assert(l0 == (l0 & 0xff) + ((l0 >> 8) & 0xff) * 0x100 + ((l0 >> 16) & 0xff) * 0x10000
                + ((l0 >> 24) & 0xff) * 0x1000000 + ((l0 >> 32) & 0xff) * 0x100000000
                + ((l0 >> 40) & 0xff) * 0x10000000000 + ((l0 >> 48) & 0xff) * 0x1000000000000
                + ((l0 >> 56) & 0xff) * 0x100000000000000) by (bit_vector);
            assert(l1 == (l1 & 0xff) + ((l1 >> 8) & 0xff) * 0x100 + ((l1 >> 16) & 0xff) * 0x10000
                + ((l1 >> 24) & 0xff) * 0x1000000 + ((l1 >> 32) & 0xff) * 0x100000000
                + ((l1 >> 40) & 0xff) * 0x10000000000 + ((l1 >> 48) & 0xff) * 0x1000000000000
                + ((l1 >> 56) & 0xff) * 0x100000000000000) by (bit_vector);
            assert(l2 == (l2 & 0xff) + ((l2 >> 8) & 0xff) * 0x100 + ((l2 >> 16) & 0xff) * 0x10000
                + ((l2 >> 24) & 0xff) * 0x1000000 + ((l2 >> 32) & 0xff) * 0x100000000
                + ((l2 >> 40) & 0xff) * 0x10000000000 + ((l2 >> 48) & 0xff) * 0x1000000000000
                + ((l2 >> 56) & 0xff) * 0x100000000000000) by (bit_vector);
            assert(l3 == (l3 & 0xff) + ((l3 >> 8) & 0xff) * 0x100 + ((l3 >> 16) & 0xff) * 0x10000
                + ((l3 >> 24) & 0xff) * 0x1000000 + ((l3 >> 32) & 0xff) * 0x100000000
                + ((l3 >> 40) & 0xff) * 0x10000000000 + ((l3 >> 48) & 0xff) * 0x1000000000000
                + ((l3 >> 56) & 0xff) * 0x100000000000000) by (bit_vector);
            if self.l3 >= 0x30644e72e131a02a {
                assert(self.val() >= 0x30644e72e131a02aint
                    * 0x1000000000000000000000000000000000000000000000000int);
            }
            assert(l3 <= 0x30644e72e131a029 ==> ((l3 >> 56) & 0xff) < 0x40) by (bit_vector);
            lemma_limb_bytes_bounded(l0);
            lemma_limb_bytes_bounded(l1);
            lemma_limb_bytes_bounded(l2);
            lemma_limb_bytes_bounded(l3);
        }
        [
            (self.l0 & 0xff) as u8,
            ((self.l0 >> 8) & 0xff) as u8,
            ((self.l0 >> 16) & 0xff) as u8,
            ((self.l0 >> 24) & 0xff) as u8,
            ((self.l0 >> 32) & 0xff) as u8,
            ((self.l0 >> 40) & 0xff) as u8,
            ((self.l0 >> 48) & 0xff) as u8,
            ((self.l0 >> 56) & 0xff) as u8,
            (self.l1 & 0xff) as u8,
            ((self.l1 >> 8) & 0xff) as u8,
            ((self.l1 >> 16) & 0xff) as u8,
            ((self.l1 >> 24) & 0xff) as u8,
            ((self.l1 >> 32) & 0xff) as u8,
            ((self.l1 >> 40) & 0xff) as u8,
            ((self.l1 >> 48) & 0xff) as u8,
            ((self.l1 >> 56) & 0xff) as u8,
            (self.l2 & 0xff) as u8,
            ((self.l2 >> 8) & 0xff) as u8,
            ((self.l2 >> 16) & 0xff) as u8,
            ((self.l2 >> 24) & 0xff) as u8,
            ((self.l2 >> 32) & 0xff) as u8,
            ((self.l2 >> 40) & 0xff) as u8,
            ((self.l2 >> 48) & 0xff) as u8,
            ((self.l2 >> 56) & 0xff) as u8,
            (self.l3 & 0xff) as u8,
            ((self.l3 >> 8) & 0xff) as u8,
            ((self.l3 >> 16) & 0xff) as u8,
            ((self.l3 >> 24) & 0xff) as u8,
            ((self.l3 >> 32) & 0xff) as u8,
            ((self.l3 >> 40) & 0xff) as u8,
            ((self.l3 >> 48) & 0xff) as u8,
            ((self.l3 >> 56) & 0xff) as u8,
        ]
    }

    /// Parse a 32-byte little-endian encoding, rejecting values at or above
    /// the prime: the canonical decoder of the field.
    pub fn from_le_bytes(bytes: &[u8; 32]) -> (r: Option<Fq>)
        ensures
            r is Some <==> le32_val(bytes@) < fq_p(),
            r matches Some(x) ==> x.wf() && x.val() == le32_val(bytes@),
    {
        let l0 = limb_from_bytes(
            bytes[0], bytes[1], bytes[2], bytes[3], bytes[4], bytes[5], bytes[6], bytes[7],
        );
        let l1 = limb_from_bytes(
            bytes[8], bytes[9], bytes[10], bytes[11], bytes[12], bytes[13], bytes[14], bytes[15],
        );
        let l2 = limb_from_bytes(
            bytes[16], bytes[17], bytes[18], bytes[19], bytes[20], bytes[21], bytes[22], bytes[23],
        );
        let l3 = limb_from_bytes(
            bytes[24], bytes[25], bytes[26], bytes[27], bytes[28], bytes[29], bytes[30], bytes[31],
        );
        let x = Fq { l0, l1, l2, l3 };
        proof {
            assert(x.val() == le32_val(bytes@));
        }
        let in_range = if l3 != 0x30644e72e131a029 {
            l3 < 0x30644e72e131a029
        } else if l2 != 0xb85045b68181585d {
            l2 < 0xb85045b68181585d
        } else if l1 != 0x97816a916871ca8d {
            l1 < 0x97816a916871ca8d
        } else {
            l0 < 0x3c208c16d87cfd47
        };
        proof {
            let d1 = 0x10000000000000000int;
            let d2 = 0x100000000000000000000000000000000int;
            let d3 = 0x1000000000000000000000000000000000000000000000000int;
            assert(l1 * d1 <= 0xffffffffffffffffint * d1);
            assert(l2 * d2 <= 0xffffffffffffffffint * d2);
            assert(l0 + l1 * d1 < d2);
            assert(l0 + l1 * d1 + l2 * d2 < d3);
            if l3 < 0x30644e72e131a029 {
                assert(l3 * d3 <= 0x30644e72e131a028int * d3);
                assert(x.val() < fq_p());
            } else if l3 > 0x30644e72e131a029 {
                assert(l3 * d3 >= 0x30644e72e131a02aint * d3);
                assert(x.val() >= fq_p());
            } else if l2 < 0xb85045b68181585d {
                assert(l2 * d2 <= 0xb85045b68181585cint * d2);
                assert(x.val() < fq_p());
            } else if l2 > 0xb85045b68181585d {
                assert(l2 * d2 >= 0xb85045b68181585eint * d2);
                assert(x.val() >= fq_p());
            } else if l1 < 0x97816a916871ca8d {
                assert(l1 * d1 <= 0x97816a916871ca8cint * d1);
                assert(x.val() < fq_p());
            } else if l1 > 0x97816a916871ca8d {
                assert(l1 * d1 >= 0x97816a916871ca8eint * d1);
                assert(x.val() >= fq_p());
            }
        }
        if in_range {
            Some(x)
        } else {
            None
        }
    }
}

/// Assemble a 64-bit limb from eight little-endian bytes.
fn limb_from_bytes(b0: u8, b1: u8, b2: u8, b3: u8, b4: u8, b5: u8, b6: u8, b7: u8) -> (r: u64)
    ensures
        r == b0 + b1 * 0x100 + b2 * 0x10000 + b3 * 0x1000000 + b4 * 0x100000000
            + b5 * 0x10000000000 + b6 * 0x1000000000000 + b7 * 0x100000000000000,
{
    let r = (b0 as u64) | ((b1 as u64) << 8) | ((b2 as u64) << 16) | ((b3 as u64) << 24)
        | ((b4 as u64) << 32) | ((b5 as u64) << 40) | ((b6 as u64) << 48) | ((b7 as u64) << 56);
    proof {
        let c0 = b0 as u64;
        let c1 = b1 as u64;
        let c2 = b2 as u64;
        let c3 = b3 as u64;
        let c4 = b4 as u64;
        let c5 = b5 as u64;
        let c6 = b6 as u64;
        let c7 = b7 as u64;
        assert(c0 < 0x100 && c1 < 0x100 && c2 < 0x100 && c3 < 0x100 && c4 < 0x100 && c5 < 0x100
            && c6 < 0x100 && c7 < 0x100 ==> (c0 | (c1 << 8) | (c2 << 16) | (c3 << 24) | (c4 << 32)
            | (c5 << 40) | (c6 << 48) | (c7 << 56)) == c0 + c1 * 0x100 + c2 * 0x10000
            + c3 * 0x1000000 + c4 * 0x100000000 + c5 * 0x10000000000 + c6 * 0x1000000000000
            + c7 * 0x100000000000000) by (bit_vector);
    }
    r
}

/// Negate the element exactly when the flag is set, by masked limb selection
/// rather than a branch on the value.
pub fn fq_cond_neg(a: &Fq, flag: bool) -> (r: Fq)
    requires
        a.wf(),
    ensures
        r.wf(),
        r.val() == if flag {
            negp(a.val())
        } else {
            a.val()
        },
{
    let n = fq_sub(&Fq::zero(), a);
    let mask: u64 = if flag {
        0xffffffffffffffff
    } else {
        0
    };
    let r = Fq {
        l0: (a.l0 & !mask) | (n.l0 & mask),
        l1: (a.l1 & !mask) | (n.l1 & mask),
        l2: (a.l2 & !mask) | (n.l2 & mask),
        l3: (a.l3 & !mask) | (n.l3 & mask),
    };
    proof {
        lemma_mask_select(a.l0, n.l0, mask);
        lemma_mask_select(a.l1, n.l1, mask);
        lemma_mask_select(a.l2, n.l2, mask);
        lemma_mask_select(a.l3, n.l3, mask);
        assert(negp(a.val()) == subp(0, a.val()));
    }
    r
}

/// Every byte carved out of a limb fits in eight bits.
proof fn lemma_limb_bytes_bounded(l: u64)
    ensures
        (l & 0xff) < 0x100,
        ((l >> 8) & 0xff) < 0x100,
        ((l >> 16) & 0xff) < 0x100,
        ((l >> 24) & 0xff) < 0x100,
        ((l >> 32) & 0xff) < 0x100,
        ((l >> 40) & 0xff) < 0x100,
        ((l >> 48) & 0xff) < 0x100,
        ((l >> 56) & 0xff) < 0x100,
{
    assert((l & 0xff) < 0x100 && ((l >> 8) & 0xff) < 0x100 && ((l >> 16) & 0xff) < 0x100 && ((l
        >> 24) & 0xff) < 0x100 && ((l >> 32) & 0xff) < 0x100 && ((l >> 40) & 0xff) < 0x100 && ((l
        >> 48) & 0xff) < 0x100 && ((l >> 56) & 0xff) < 0x100) by (bit_vector);
}

/// Masked selection picks one operand or the other.
proof fn lemma_mask_select(x: u64, y: u64, mask: u64)
    requires
        mask == 0 || mask == 0xffffffffffffffff,
    ensures
        mask == 0 ==> ((x & !mask) | (y & mask)) == x,
        mask != 0 ==> ((x & !mask) | (y & mask)) == y,
{
    assert(((x & !0u64) | (y & 0u64)) == x) by (bit_vector);
    assert(((x & !0xffffffffffffffffu64) | (y & 0xffffffffffffffffu64)) == y) by (bit_vector);
}

/// Limb decompositions of one value agree limb by limb.
pub proof fn lemma_limbs_unique(
    a0: u64, a1: u64, a2: u64, a3: u64,
    b0: u64, b1: u64, b2: u64, b3: u64,
)
    requires
        limbs_val(a0, a1, a2, a3) == limbs_val(b0, b1, b2, b3),
    ensures
        a0 == b0 && a1 == b1 && a2 == b2 && a3 == b3,
{
    let d = 0x10000000000000000int;
    let v = limbs_val(a0, a1, a2, a3);
    assert(v == (a1 + a2 * d + a3 * (d * d)) * d + a0);
    assert(v == (b1 + b2 * d + b3 * (d * d)) * d + b0);
    lemma_fundamental_div_mod_converse(v, d, a1 + a2 * d + a3 * (d * d), a0 as int);
    lemma_fundamental_div_mod_converse(v, d, b1 + b2 * d + b3 * (d * d), b0 as int);
    let v1 = a1 + a2 * d + a3 * (d * d);
    assert(v1 == (a2 + a3 * d) * d + a1);
    assert(v1 == (b2 + b3 * d) * d + b1);
    lemma_fundamental_div_mod_converse(v1, d, a2 + a3 * d, a1 as int);
    lemma_fundamental_div_mod_converse(v1, d, b2 + b3 * d, b1 as int);
    let v2 = a2 + a3 * d;
    lemma_fundamental_div_mod_converse(v2, d, a3 as int, a2 as int);
    lemma_fundamental_div_mod_converse(v2, d, b3 as int, b2 as int);
}

/// Relies on `ark_ff` field addition on `ark_bn254::Fq`: the sum of two
/// canonical residues, reduced modulo the prime.
#[verifier::external_body]
pub fn fq_add(a: &Fq, b: &Fq) -> (r: Fq)
    requires
        a.wf(),
        b.wf(),
    ensures
        r.wf(),
        r.val() == addp(a.val(), b.val()),
{
    let av = ark_bn254::Fq::from_bigint(ark_ff::BigInt(a.limbs())).unwrap();
    let bv = ark_bn254::Fq::from_bigint(ark_ff::BigInt(b.limbs())).unwrap();
    Fq::from_limbs((av + bv).into_bigint().0)
}

/// Relies on `ark_ff` field subtraction on `ark_bn254::Fq`: the difference of
/// two canonical residues, reduced modulo the prime.
#[verifier::external_body]
pub fn fq_sub(a: &Fq, b: &Fq) -> (r: Fq)
    requires
        a.wf(),
        b.wf(),
    ensures
        r.wf(),
        r.val() == subp(a.val(), b.val()),
{
    let av = ark_bn254::Fq::from_bigint(ark_ff::BigInt(a.limbs())).unwrap();
    let bv = ark_bn254::Fq::from_bigint(ark_ff::BigInt(b.limbs())).unwrap();
    Fq::from_limbs((av - bv).into_bigint().0)
}

/// Relies on `ark_ff` field multiplication on `ark_bn254::Fq`: the product of
/// two canonical residues, reduced modulo the prime.
#[verifier::external_body]
pub fn fq_mul(a: &Fq, b: &Fq) -> (r: Fq)
    requires
        a.wf(),
        b.wf(),
    ensures
        r.wf(),
        r.val() == mulp(a.val(), b.val()),
{
    let av = ark_bn254::Fq::from_bigint(ark_ff::BigInt(a.limbs())).unwrap();
    let bv = ark_bn254::Fq::from_bigint(ark_ff::BigInt(b.limbs())).unwrap();
    Fq::from_limbs((av * bv).into_bigint().0)
}

/// Relies on `ark_ff::Field::inverse` on `ark_bn254::Fq`: the multiplicative
/// inverse of a nonzero canonical residue, and `None` exactly on zero.
#[verifier::external_body]
pub fn fq_inv(a: &Fq) -> (r: Option<Fq>)
    requires
        a.wf(),
    ensures
        r is Some <==> a.val() != 0,
        r matches Some(y) ==> y.wf() && mulp(a.val(), y.val()) == 1,
{
    let av = ark_bn254::Fq::from_bigint(ark_ff::BigInt(a.limbs())).unwrap();
    Some(Fq::from_limbs(av.inverse()?.into_bigint().0))
}

/// Relies on `ark_ff::Field::sqrt` on `ark_bn254::Fq`: a square root of the
/// input when one exists, `None` when none does.  The two-root bound rests on
/// the modulus of `ark_bn254::Fq` being prime, so that the field has no zero
/// divisors and a square admits exactly the roots `y` and `-y`.
#[verifier::external_body]
pub fn fq_sqrt(a: &Fq) -> (r: Option<Fq>)
    requires
        a.wf(),
    ensures
        r matches Some(y) ==> y.wf() && rootp(y.val(), a.val()) && forall|z: int|
            rootp(z, a.val()) ==> z == y.val() || z == negp(y.val()),
        r is None ==> forall|z: int| !rootp(z, a.val()),
{
    let av = ark_bn254::Fq::from_bigint(ark_ff::BigInt(a.limbs())).unwrap();
    Some(Fq::from_limbs(av.sqrt()?.into_bigint().0))
}

} // verus!
