//! The group `G2`: points of the twisted curve `y^2 = x^3 + b` over the
//! quadratic extension field, in Jacobian and affine form, with the group
//! law and the 64-byte compressed encoding.

use vstd::prelude::*;
use vstd::arithmetic::div_mod::lemma_fundamental_div_mod_converse;
use crate::modp::{
    fq_p, negp, le32_val, lemma_small, lemma_negp_parity, lemma_negp_zero,
};
use crate::fq::Fq;
use crate::fq2::{
    F2V, Fq2, wf2, zero2, one2, add2, sub2, mul2, neg2, root2, unit2, fq2_add, fq2_sub, fq2_mul,
    fq2_cond_neg, fq2_inv, fq2_sqrt, lemma_mul2_wf, lemma_mul2_by_one, lemma_mul2_neg,
    lemma_mul2_assoc, lemma_mul2_comm, lemma_mul2_shuffle4, lemma_mul2_distrib, lemma_unit2_mul,
    lemma_unit2_nonzero, lemma_neg2_self_zero,
};
use crate::fr::{Fr, fr_bit};

verus! {

/// The integer model of a Jacobian point over the extension field.
pub ghost struct Jac2V {
    pub x: F2V,
    pub y: F2V,
    pub z: F2V,
}

/// The integer model of an affine point over the extension field.
pub ghost struct Aff2V {
    pub x: F2V,
    pub y: F2V,
    pub inf: bool,
}

/// All coordinates are reduced residue pairs.
pub open spec fn jac2_wf(p: Jac2V) -> bool {
    wf2(p.x) && wf2(p.y) && wf2(p.z)
}

/// All coordinates are reduced residue pairs.
pub open spec fn aff2_wf(a: Aff2V) -> bool {
    wf2(a.x) && wf2(a.y)
}

/// The Jacobian identity representative.
pub open spec fn jac2_identity() -> Jac2V {
    Jac2V { x: zero2(), y: zero2(), z: zero2() }
}

/// The affine identity.
pub open spec fn aff2_identity() -> Aff2V {
    Aff2V { x: zero2(), y: zero2(), inf: true }
}

/// The twist coefficient `b` of the extension-field curve.
pub open spec fn b2() -> F2V {
    F2V {
        c0: 0x2b149d40ceb8aaae81be18991be06ac3b5b4c5e559dbefa33267e6dc24a138e5int,
        c1: 0x009713b03af0fed4cd2cafadeed8fdf4a74fa084e52d1852e4a2bd0685c315d2int,
    }
}

/// The x-coordinate of the fixed generator.
pub open spec fn g2_gen_x() -> F2V {
    F2V {
        c0: 0x1800deef121f1e76426a00665e5c4479674322d4f75edadd46debd5cd992f6edint,
        c1: 0x198e9393920d483a7260bfb731fb5d25f1aa493335a9e71297e485b7aef312c2int,
    }
}

/// The y-coordinate of the fixed generator.
pub open spec fn g2_gen_y() -> F2V {
    F2V {
        c0: 0x12c85ea5db8c6deb4aab71808dcb408fe3d1e7690c43d37b4ce6cc0166fa7daaint,
        c1: 0x090689d0585ff075ec9e99ad690c3395bc4b313370b38ef355acdadcd122975bint,
    }
}

/// Curve membership in Jacobian form: `z = 0` is the identity and is a
/// member; otherwise `y^2 = x^3 + b z^6`.
pub open spec fn jac2_on_curve(p: Jac2V) -> bool {
    p.z == zero2() || {
        let z2 = mul2(p.z, p.z);
        let z4 = mul2(z2, z2);
        let z6 = mul2(z4, z2);
        mul2(p.y, p.y) == add2(mul2(mul2(p.x, p.x), p.x), mul2(b2(), z6))
    }
}

/// Curve membership in affine form.
pub open spec fn aff2_on_curve(a: Aff2V) -> bool {
    a.inf || mul2(a.y, a.y) == add2(mul2(mul2(a.x, a.x), a.x), b2())
}

/// Negation: the identity stays the identity, a finite point flips `y`.
pub open spec fn jac2_neg(p: Jac2V) -> Jac2V {
    Jac2V { x: p.x, y: neg2(p.y), z: p.z }
}

/// Doubling by the standard Jacobian formulas for `a = 0`; a zero `z`
/// propagates, so the identity stays the identity.
pub open spec fn jac2_double(p: Jac2V) -> Jac2V {
    let a = mul2(p.x, p.x);
    let b = mul2(p.y, p.y);
    let c = mul2(b, b);
    let t = add2(p.x, b);
    let d1 = sub2(sub2(mul2(t, t), a), c);
    let d = add2(d1, d1);
    let e = add2(add2(a, a), a);
    let f = mul2(e, e);
    let x3 = sub2(f, add2(d, d));
    let c8 = add2(add2(add2(c, c), add2(c, c)), add2(add2(c, c), add2(c, c)));
    let y3 = sub2(mul2(e, sub2(d, x3)), c8);
    let z3 = mul2(add2(p.y, p.y), p.z);
    Jac2V { x: x3, y: y3, z: z3 }
}

/// Addition, with the identity, coincidence and inverse cases dispatched as
/// the group law requires.
pub open spec fn jac2_add(p: Jac2V, q: Jac2V) -> Jac2V {
    if p.z == zero2() {
        q
    } else if q.z == zero2() {
        p
    } else {
        let z1z1 = mul2(p.z, p.z);
        let z2z2 = mul2(q.z, q.z);
        let u1 = mul2(p.x, z2z2);
        let u2 = mul2(q.x, z1z1);
        let s1 = mul2(mul2(p.y, q.z), z2z2);
        let s2 = mul2(mul2(q.y, p.z), z1z1);
        if u1 == u2 && s1 == s2 {
            jac2_double(p)
        } else if u1 == u2 {
            jac2_identity()
        } else {
            let h = sub2(u2, u1);
            let hh = add2(h, h);
            let i = mul2(hh, hh);
            let j = mul2(h, i);
            let rr = add2(sub2(s2, s1), sub2(s2, s1));
            let v = mul2(u1, i);
            let x3 = sub2(sub2(mul2(rr, rr), j), add2(v, v));
            let y3 = sub2(mul2(rr, sub2(v, x3)), add2(mul2(s1, j), mul2(s1, j)));
            let zs = add2(p.z, q.z);
            let z3 = mul2(sub2(sub2(mul2(zs, zs), z1z1), z2z2), h);
            Jac2V { x: x3, y: y3, z: z3 }
        }
    }
}

/// Equality of the projective equivalence classes.
pub open spec fn jac2_eq(p: Jac2V, q: Jac2V) -> bool {
    if p.z == zero2() && q.z == zero2() {
        true
    } else if p.z == zero2() || q.z == zero2() {
        false
    } else {
        let z1z1 = mul2(p.z, p.z);
        let z2z2 = mul2(q.z, q.z);
        mul2(p.x, z2z2) == mul2(q.x, z1z1) && mul2(mul2(p.y, q.z), z2z2) == mul2(
            mul2(q.y, p.z),
            z1z1,
        )
    }
}

/// The affine point as a Jacobian representative with `z = 1`.
pub open spec fn aff2_to_jac(a: Aff2V) -> Jac2V {
    if a.inf {
        jac2_identity()
    } else {
        Jac2V { x: a.x, y: a.y, z: one2() }
    }
}

/// The doubled base after `n` rounds of the scalar ladder.
pub open spec fn base2_bits(p: Jac2V, n: int) -> Jac2V
    decreases n,
{
    if n <= 0 {
        p
    } else {
        jac2_double(base2_bits(p, n - 1))
    }
}

/// The accumulator of the scalar ladder after the low `n` bits of `k`.
pub open spec fn mul2_bits(p: Jac2V, k: Fr, n: int) -> Jac2V
    decreases n,
{
    if n <= 0 {
        jac2_identity()
    } else {
        let prev = mul2_bits(p, k, n - 1);
        if fr_bit(k, n - 1) {
            jac2_add(prev, base2_bits(p, n - 1))
        } else {
            prev
        }
    }
}

/// The sign bit of a compressed encoding: the top bit of the final byte.
pub open spec fn encoded2_sign(s: Seq<u8>) -> bool {
    s[63] & 0x80 == 0x80
}

/// The encoding with its sign bit cleared.
pub open spec fn enc2_clear(s: Seq<u8>) -> Seq<u8> {
    s.update(63, (s[63] & 0x7f) as u8)
}

/// The x-coordinate pair carried by a compressed encoding: the two canonical
/// little-endian halves, the second with its top bit cleared.
pub open spec fn encoded2_x(s: Seq<u8>) -> F2V {
    F2V { c0: le32_val(s.subrange(0, 32)), c1: le32_val(enc2_clear(s).subrange(32, 64)) }
}

/// The all-zero encoding.
pub open spec fn zero64() -> Seq<u8> {
    Seq::new(64, |i: int| 0u8)
}

/// Whether a compressed encoding decodes at all.
pub open spec fn decode2_ok(s: Seq<u8>) -> bool {
    let xv = encoded2_x(s);
    let sign = encoded2_sign(s);
    0 <= xv.c0 < fq_p() && 0 <= xv.c1 < fq_p() && ((xv == zero2() && !sign) || exists|z: F2V|
        root2(z, add2(mul2(mul2(xv, xv), xv), b2())))
}

/// What a successful decode returns.
pub open spec fn decoded2_point(s: Seq<u8>, a: Aff2V) -> bool {
    let xv = encoded2_x(s);
    let sign = encoded2_sign(s);
    if xv == zero2() && !sign {
        a == aff2_identity()
    } else {
        !a.inf && a.x == xv && root2(a.y, add2(mul2(mul2(xv, xv), xv), b2())) && ((a.y.c0 % 2 == 1)
            == sign || a.y.c0 == 0)
    }
}

/// An affine point the compressed round trip is promised for: a well-formed
/// curve point, canonical if the identity, and otherwise with a nonzero `x`
/// and a `y` whose sign is visible to the encoding (the constant term of
/// `y` is zero only when all of `y` is).
pub open spec fn aff2_valid(a: Aff2V) -> bool {
    aff2_wf(a) && aff2_on_curve(a) && if a.inf {
        a == aff2_identity()
    } else {
        a.x != zero2() && (a.y.c0 != 0 || a.y.c1 == 0)
    }
}

/// A `G2` point in Jacobian coordinates.
#[derive(Clone, Copy)]
pub struct G2 {
    pub x: Fq2,
    pub y: Fq2,
    pub z: Fq2,
}

/// A `G2` point in affine coordinates.
#[derive(Clone, Copy)]
pub struct G2Affine {
    pub x: Fq2,
    pub y: Fq2,
    pub infinity: bool,
}

/// The 64-byte compressed encoding of a `G2` point.
#[derive(Clone, Copy)]
pub struct G2Compressed(pub [u8; 64]);

impl Default for G2Compressed {
    /// The all-zero encoding, which decodes to the identity.
    fn default() -> (r: Self)
        ensures
            r.0@ == zero64(),
    {
        let r = G2Compressed([0u8; 64]);
        proof {
            assert(r.0@ =~= zero64());
        }
        r
    }
}

impl G2Compressed {
    /// The raw bytes of the encoding.
    pub fn as_bytes(&self) -> (r: &[u8; 64])
        ensures
            r@ == self.0@,
    {
        &self.0
    }
}

/// The twist coefficient as an executable constant.
fn curve_b2() -> (r: Fq2)
    ensures
        r.wf(),
        r.v2() == b2(),
{
    Fq2 {
        c0: Fq {
            l0: 0x3267e6dc24a138e5,
            l1: 0xb5b4c5e559dbefa3,
            l2: 0x81be18991be06ac3,
            l3: 0x2b149d40ceb8aaae,
        },
        c1: Fq {
            l0: 0xe4a2bd0685c315d2,
            l1: 0xa74fa084e52d1852,
            l2: 0xcd2cafadeed8fdf4,
            l3: 0x009713b03af0fed4,
        },
    }
}

impl G2 {
    /// The integer model of this point.
    pub open spec fn jv(&self) -> Jac2V {
        Jac2V { x: self.x.v2(), y: self.y.v2(), z: self.z.v2() }
    }

    /// All coordinates are canonical.
    pub open spec fn wf(&self) -> bool {
        self.x.wf() && self.y.wf() && self.z.wf()
    }

    /// The group identity.
    pub fn identity() -> (r: G2)
        ensures
            r.wf(),
            r.jv() == jac2_identity(),
    {
        G2 { x: Fq2::zero(), y: Fq2::zero(), z: Fq2::zero() }
    }

    /// Whether this point is the group identity.
    pub fn is_identity(&self) -> (r: bool)
        ensures
            r == (self.jv().z == zero2()),
    {
        self.z.is_zero()
    }

    /// The twist coefficient `b` of this curve.
    pub fn curve_constant_b() -> (r: Fq2)
        ensures
            r.wf(),
            r.v2() == b2(),
    {
        curve_b2()
    }

    /// The fixed generator of the prime-order subgroup.
    pub fn generator() -> (r: G2)
        ensures
            r.wf(),
            r.jv() == (Jac2V { x: g2_gen_x(), y: g2_gen_y(), z: one2() }),
            jac2_on_curve(r.jv()),
    {
        let x = Fq2 {
            c0: Fq {
                l0: 0x46debd5cd992f6ed,
                l1: 0x674322d4f75edadd,
                l2: 0x426a00665e5c4479,
                l3: 0x1800deef121f1e76,
            },
            c1: Fq {
                l0: 0x97e485b7aef312c2,
                l1: 0xf1aa493335a9e712,
                l2: 0x7260bfb731fb5d25,
                l3: 0x198e9393920d483a,
            },
        };
        let y = Fq2 {
            c0: Fq {
                l0: 0x4ce6cc0166fa7daa,
                l1: 0xe3d1e7690c43d37b,
                l2: 0x4aab71808dcb408f,
                l3: 0x12c85ea5db8c6deb,
            },
            c1: Fq {
                l0: 0x55acdadcd122975b,
                l1: 0xbc4b313370b38ef3,
                l2: 0xec9e99ad690c3395,
                l3: 0x090689d0585ff075,
            },
        };
        let r = G2 { x, y, z: Fq2::one() };
        proof {
            lemma_gen2_jac_on_curve();
        }
        r
    }

    /// Negation: flip the `y` coordinate; the identity stays the identity.
    pub fn neg(&self) -> (r: G2)
        requires
            self.wf(),
        ensures
            r.wf(),
            r.jv() == jac2_neg(self.jv()),
    {
        G2 { x: self.x, y: fq2_sub(&Fq2::zero(), &self.y), z: self.z }
    }

    /// Point doubling by the standard Jacobian formulas for `a = 0`.
    pub fn double(&self) -> (r: G2)
        requires
            self.wf(),
        ensures
            r.wf(),
            r.jv() == jac2_double(self.jv()),
    {
        let a = fq2_mul(&self.x, &self.x);
        let b = fq2_mul(&self.y, &self.y);
        let c = fq2_mul(&b, &b);
        let t = fq2_add(&self.x, &b);
        let d1 = fq2_sub(&fq2_sub(&fq2_mul(&t, &t), &a), &c);
        let d = fq2_add(&d1, &d1);
        let e = fq2_add(&fq2_add(&a, &a), &a);
        let f = fq2_mul(&e, &e);
        let x3 = fq2_sub(&f, &fq2_add(&d, &d));
        let c2 = fq2_add(&c, &c);
        let c4 = fq2_add(&c2, &c2);
        let c8 = fq2_add(&c4, &c4);
        let y3 = fq2_sub(&fq2_mul(&e, &fq2_sub(&d, &x3)), &c8);
        let z3 = fq2_mul(&fq2_add(&self.y, &self.y), &self.z);
        G2 { x: x3, y: y3, z: z3 }
    }

    /// Point addition, with the identity, coincidence and inverse cases
    /// dispatched as the group law requires.
    pub fn add(&self, other: &G2) -> (r: G2)
        requires
            self.wf(),
            other.wf(),
        ensures
            r.wf(),
            r.jv() == jac2_add(self.jv(), other.jv()),
    {
        if self.is_identity() {
            *other
        } else if other.is_identity() {
            *self
        } else {
            let z1z1 = fq2_mul(&self.z, &self.z);
            let z2z2 = fq2_mul(&other.z, &other.z);
            let u1 = fq2_mul(&self.x, &z2z2);
            let u2 = fq2_mul(&other.x, &z1z1);
            let s1 = fq2_mul(&fq2_mul(&self.y, &other.z), &z2z2);
            let s2 = fq2_mul(&fq2_mul(&other.y, &self.z), &z1z1);
            if u1.equals(&u2) && s1.equals(&s2) {
                self.double()
            } else if u1.equals(&u2) {
                G2::identity()
            } else {
                let h = fq2_sub(&u2, &u1);
                let hh = fq2_add(&h, &h);
                let i = fq2_mul(&hh, &hh);
                let j = fq2_mul(&h, &i);
                let sd = fq2_sub(&s2, &s1);
                let rr = fq2_add(&sd, &sd);
                let v = fq2_mul(&u1, &i);
                let x3 = fq2_sub(&fq2_sub(&fq2_mul(&rr, &rr), &j), &fq2_add(&v, &v));
                let sj = fq2_mul(&s1, &j);
                let y3 = fq2_sub(&fq2_mul(&rr, &fq2_sub(&v, &x3)), &fq2_add(&sj, &sj));
                let zs = fq2_add(&self.z, &other.z);
                let z3 = fq2_mul(&fq2_sub(&fq2_sub(&fq2_mul(&zs, &zs), &z1z1), &z2z2), &h);
                G2 { x: x3, y: y3, z: z3 }
            }
        }
    }

    /// Equality of the represented points (not of the coordinate triples).
    pub fn equals(&self, other: &G2) -> (r: bool)
        requires
            self.wf(),
            other.wf(),
        ensures
            r == jac2_eq(self.jv(), other.jv()),
    {
        let self_id = self.is_identity();
        let other_id = other.is_identity();
        if self_id && other_id {
            true
        } else if self_id || other_id {
            false
        } else {
            let z1z1 = fq2_mul(&self.z, &self.z);
            let z2z2 = fq2_mul(&other.z, &other.z);
            let u1 = fq2_mul(&self.x, &z2z2);
            let u2 = fq2_mul(&other.x, &z1z1);
            let s1 = fq2_mul(&fq2_mul(&self.y, &other.z), &z2z2);
            let s2 = fq2_mul(&fq2_mul(&other.y, &self.z), &z1z1);
            u1.equals(&u2) && s1.equals(&s2)
        }
    }

    /// Curve membership: `y^2 = x^3 + b z^6` in Jacobian form, with the
    /// identity a member by definition.
    pub fn is_on_curve(&self) -> (r: bool)
        requires
            self.wf(),
        ensures
            r == jac2_on_curve(self.jv()),
    {
        if self.is_identity() {
            true
        } else {
            let z2 = fq2_mul(&self.z, &self.z);
            let z4 = fq2_mul(&z2, &z2);
            let z6 = fq2_mul(&z4, &z2);
            let lhs = fq2_mul(&self.y, &self.y);
            let x3 = fq2_mul(&fq2_mul(&self.x, &self.x), &self.x);
            let rhs = fq2_add(&x3, &fq2_mul(&curve_b2(), &z6));
            lhs.equals(&rhs)
        }
    }

    /// Scalar multiplication by a uniform 256-round double-and-add ladder
    /// over the little-endian bits of the scalar.
    pub fn scalar_mul(&self, k: &Fr) -> (r: G2)
        requires
            self.wf(),
        ensures
            r.wf(),
            r.jv() == mul2_bits(self.jv(), *k, 256),
    {
        let mut acc = G2::identity();
        let mut base = *self;
        let mut i: usize = 0;
        while i < 256
            invariant
                i <= 256,
                acc.wf(),
                base.wf(),
                acc.jv() == mul2_bits(self.jv(), *k, i as int),
                base.jv() == base2_bits(self.jv(), i as int),
            decreases 256 - i,
        {
            if k.bit(i) {
                acc = acc.add(&base);
            }
            base = base.double();
            i = i + 1;
        }
        acc
    }

    /// Normalize to affine coordinates: the identity maps to the affine
    /// identity, and a finite point is scaled by the inverse square and cube
    /// of `z`, so that cross-multiplying back recovers the Jacobian
    /// coordinates.
    pub fn to_affine(&self) -> (r: G2Affine)
        requires
            self.wf(),
        ensures
            r.wf(),
            r.av().inf <==> self.jv().z == zero2(),
            self.jv().z != zero2() ==> mul2(r.av().x, mul2(self.jv().z, self.jv().z))
                == self.jv().x,
            self.jv().z != zero2() ==> mul2(
                mul2(r.av().y, self.jv().z),
                mul2(self.jv().z, self.jv().z),
            ) == self.jv().y,
            jac2_eq(aff2_to_jac(r.av()), self.jv()),
            jac2_on_curve(self.jv()) ==> aff2_on_curve(r.av()),
    {
        if self.is_identity() {
            G2Affine::identity()
        } else {
            let zi = match fq2_inv(&self.z) {
                Some(v) => v,
                None => {
                    proof {
                        assert(false);
                    }
                    Fq2::zero()
                },
            };
            let zi2 = fq2_mul(&zi, &zi);
            let zi3 = fq2_mul(&zi2, &zi);
            let xa = fq2_mul(&self.x, &zi2);
            let ya = fq2_mul(&self.y, &zi3);
            let r = G2Affine { x: xa, y: ya, infinity: false };
            proof {
                lemma_normalize2(self.jv().x, self.jv().y, self.jv().z, zi.v2());
                lemma_mul2_one_unit();
                lemma_mul2_comm(self.jv().x, one2());
                lemma_mul2_by_one(self.jv().x);
                lemma_mul2_comm(self.jv().y, one2());
                lemma_mul2_by_one(self.jv().y);
                lemma_mul2_wf(self.jv().y, one2());
                lemma_mul2_by_one(mul2(self.jv().y, one2()));
                if jac2_on_curve(self.jv()) {
                    lemma_normalize2_on_curve(
                        self.jv().x,
                        self.jv().y,
                        self.jv().z,
                        zi.v2(),
                    );
                }
            }
            r
        }
    }

    /// Decode a compressed encoding into a Jacobian point: the point the
    /// bytes encode, never another.
    pub fn from_bytes(bytes: &G2Compressed) -> (r: Option<G2>)
        ensures
            r is Some <==> decode2_ok(bytes.0@),
            r matches Some(p) ==> p.wf() && jac2_on_curve(p.jv()) && exists|a: Aff2V|
                decoded2_point(bytes.0@, a) && p.jv() == aff2_to_jac(a),
            forall|a: Aff2V|
                aff2_valid(a) && !a.inf && encoded2_x(bytes.0@) == a.x && encoded2_sign(bytes.0@)
                    == (a.y.c0 % 2 == 1) ==> (r matches Some(q) && q.jv() == aff2_to_jac(a)),
    {
        match G2Affine::from_bytes(bytes) {
            Some(a) => {
                let p = a.to_curve();
                proof {
                    let w = a.av();
                    assert(decoded2_point(bytes.0@, w) && p.jv() == aff2_to_jac(w));
                }
                Some(p)
            },
            None => None,
        }
    }

    /// Decoding performs the full canonical checks; there is no cheaper
    /// unchecked path.
    pub fn from_bytes_unchecked(bytes: &G2Compressed) -> (r: Option<G2>)
        ensures
            r is Some <==> decode2_ok(bytes.0@),
            r matches Some(p) ==> p.wf() && jac2_on_curve(p.jv()) && exists|a: Aff2V|
                decoded2_point(bytes.0@, a) && p.jv() == aff2_to_jac(a),
            forall|a: Aff2V|
                aff2_valid(a) && !a.inf && encoded2_x(bytes.0@) == a.x && encoded2_sign(bytes.0@)
                    == (a.y.c0 % 2 == 1) ==> (r matches Some(q) && q.jv() == aff2_to_jac(a)),
    {
        G2::from_bytes(bytes)
    }

    /// Encode through the affine normalization.
    #[verifier::spinoff_prover]
    #[verifier::rlimit(100)]
    pub fn to_bytes(&self) -> (r: G2Compressed)
        requires
            self.wf(),
        ensures
            self.jv().z == zero2() ==> r.0@ == zero64(),
            self.jv().z != zero2() ==> exists|a: Aff2V|
                aff2_wf(a) && !a.inf && encoded2_x(r.0@) == a.x && encoded2_sign(r.0@) == (
                a.y.c0 % 2 == 1) && jac2_eq(aff2_to_jac(a), self.jv()) && (jac2_on_curve(
                    self.jv(),
                ) ==> aff2_on_curve(a)),
    {
        let a = self.to_affine();
        let r = a.to_bytes();
        proof {
            if self.jv().z != zero2() {
                let w = a.av();
                assert(aff2_wf(w) && !w.inf && encoded2_x(r.0@) == w.x && encoded2_sign(r.0@) == (
                w.y.c0 % 2 == 1) && jac2_eq(aff2_to_jac(w), self.jv()) && (jac2_on_curve(
                    self.jv(),
                ) ==> aff2_on_curve(w)));
            }
        }
        r
    }
}

impl G2Affine {
    /// The integer model of this point.
    pub open spec fn av(&self) -> Aff2V {
        Aff2V { x: self.x.v2(), y: self.y.v2(), inf: self.infinity }
    }

    /// Both coordinates are canonical.
    pub open spec fn wf(&self) -> bool {
        self.x.wf() && self.y.wf()
    }

    /// The group identity, flagged explicitly.
    pub fn identity() -> (r: G2Affine)
        ensures
            r.wf(),
            r.av() == aff2_identity(),
    {
        G2Affine { x: Fq2::zero(), y: Fq2::zero(), infinity: true }
    }

    /// Whether this point is the group identity.
    pub fn is_identity(&self) -> (r: bool)
        ensures
            r == self.av().inf,
    {
        self.infinity
    }

    /// The twist coefficient `b` of this curve.
    pub fn curve_constant_b() -> (r: Fq2)
        ensures
            r.wf(),
            r.v2() == b2(),
    {
        curve_b2()
    }

    /// The fixed generator of the prime-order subgroup.
    pub fn generator() -> (r: G2Affine)
        ensures
            r.wf(),
            r.av() == (Aff2V { x: g2_gen_x(), y: g2_gen_y(), inf: false }),
            aff2_on_curve(r.av()),
    {
        let g = G2::generator();
        let r = G2Affine { x: g.x, y: g.y, infinity: false };
        proof {
            lemma_gen2_on_curve();
        }
        r
    }

    /// Curve membership in affine form.
    pub fn is_on_curve(&self) -> (r: bool)
        requires
            self.wf(),
        ensures
            r == aff2_on_curve(self.av()),
    {
        if self.infinity {
            true
        } else {
            let lhs = fq2_mul(&self.y, &self.y);
            let x3 = fq2_mul(&fq2_mul(&self.x, &self.x), &self.x);
            let rhs = fq2_add(&x3, &curve_b2());
            lhs.equals(&rhs)
        }
    }

    /// Lift to Jacobian coordinates with `z = 1` (`z = 0` for the identity).
    pub fn to_curve(&self) -> (r: G2)
        requires
            self.wf(),
        ensures
            r.wf(),
            r.jv() == aff2_to_jac(self.av()),
            aff2_on_curve(self.av()) ==> jac2_on_curve(r.jv()),
    {
        if self.infinity {
            G2::identity()
        } else {
            let r = G2 { x: self.x, y: self.y, z: Fq2::one() };
            proof {
                if aff2_on_curve(self.av()) {
                    lemma_mul2_one_unit();
                    assert(mul2(b2(), one2()) == b2()) by {
                        lemma_mul2_by_one(b2());
                    }
                }
            }
            r
        }
    }

    /// Encode: the identity becomes the all-zero block; a finite point is
    /// the canonical little-endian `x` pair with the parity of the constant
    /// term of `y` stored in the top bit of the final byte.  Encoding is
    /// total and need not be constant-time: the encoded point is public.
    pub fn to_bytes(&self) -> (r: G2Compressed)
        requires
            self.wf(),
        ensures
            self.av().inf ==> r.0@ == zero64(),
            !self.av().inf ==> encoded2_x(r.0@) == self.av().x && encoded2_sign(r.0@) == (
            self.av().y.c0 % 2 == 1),
    {
        if self.infinity {
            G2Compressed::default()
        } else {
            let lo = self.x.c0.to_le_bytes();
            let hi = self.x.c1.to_le_bytes();
            let sign_bit: u8 = if self.y.is_odd() {
                0x80
            } else {
                0
            };
            let top = hi[31] | sign_bit;
            let r = G2Compressed(
                [
                    lo[0], lo[1], lo[2], lo[3], lo[4], lo[5], lo[6], lo[7], lo[8], lo[9], lo[10],
                    lo[11], lo[12], lo[13], lo[14], lo[15], lo[16], lo[17], lo[18], lo[19], lo[20],
                    lo[21], lo[22], lo[23], lo[24], lo[25], lo[26], lo[27], lo[28], lo[29], lo[30],
                    lo[31], hi[0], hi[1], hi[2], hi[3], hi[4], hi[5], hi[6], hi[7], hi[8], hi[9],
                    hi[10], hi[11], hi[12], hi[13], hi[14], hi[15], hi[16], hi[17], hi[18], hi[19],
                    hi[20], hi[21], hi[22], hi[23], hi[24], hi[25], hi[26], hi[27], hi[28], hi[29],
                    hi[30], top,
                ],
            );
            proof {
                let t = hi[31];
                let s = sign_bit;
                assert(t < 0x40 && (s == 0 || s == 0x80) ==> ((t | s) & 0x7f) == t && (((t | s)
                    & 0x80) == 0x80) == (s == 0x80)) by (bit_vector);
                assert(r.0@.subrange(0, 32) =~= lo@);
                assert(enc2_clear(r.0@).subrange(32, 64) =~= hi@);
            }
            r
        }
    }

    /// Decode a compressed encoding, with the sign resolved by masked
    /// negation rather than a branch on secret-derived data.  Fails
    /// (`None`) exactly on a non-canonical `x` half, an `x` off the curve,
    /// or a malformed identity encoding; the round-trip clause returns
    /// every encodable point unchanged.
    pub fn from_bytes(bytes: &G2Compressed) -> (r: Option<G2Affine>)
        ensures
            r is Some <==> decode2_ok(bytes.0@),
            r matches Some(a) ==> a.wf() && decoded2_point(bytes.0@, a.av()) && aff2_on_curve(
                a.av(),
            ),
            forall|a: Aff2V|
                aff2_valid(a) && !a.inf && encoded2_x(bytes.0@) == a.x && encoded2_sign(bytes.0@)
                    == (a.y.c0 % 2 == 1) ==> (r matches Some(q) && q.av() == a),
    {
        let ghost s = bytes.0@;
        let b = &bytes.0;
        let ysign = (b[63] >> 7) & 1 == 1;
        proof {
            let t = b[63];
            assert((((t >> 7) & 1) == 1) == ((t & 0x80) == 0x80)) by (bit_vector);
        }
        let lo = [
            b[0], b[1], b[2], b[3], b[4], b[5], b[6], b[7], b[8], b[9], b[10], b[11], b[12], b[13],
            b[14], b[15], b[16], b[17], b[18], b[19], b[20], b[21], b[22], b[23], b[24], b[25],
            b[26], b[27], b[28], b[29], b[30], b[31],
        ];
        let hi = [
            b[32], b[33], b[34], b[35], b[36], b[37], b[38], b[39], b[40], b[41], b[42], b[43],
            b[44], b[45], b[46], b[47], b[48], b[49], b[50], b[51], b[52], b[53], b[54], b[55],
            b[56], b[57], b[58], b[59], b[60], b[61], b[62], b[63] & 0x7f,
        ];
        proof {
            assert(lo@ =~= s.subrange(0, 32));
            assert(hi@ =~= enc2_clear(s).subrange(32, 64));
        }
        let x0 = Fq::from_le_bytes(&lo);
        let x1 = Fq::from_le_bytes(&hi);
        match (x0, x1) {
            (Some(c0), Some(c1)) => {
                let x = Fq2 { c0, c1 };
                if x.is_zero() && !ysign {
                    Some(G2Affine::identity())
                } else {
                    let x2 = fq2_mul(&x, &x);
                    let x3 = fq2_mul(&x2, &x);
                    let c = fq2_add(&x3, &curve_b2());
                    let ghost xv = encoded2_x(s);
                    let ghost cv = add2(mul2(mul2(xv, xv), xv), b2());
                    match fq2_sqrt(&c) {
                        None => {
                            proof {
                                assert forall|a: Aff2V|
                                    aff2_valid(a) && !a.inf && encoded2_x(s) == a.x
                                        && encoded2_sign(s) == (a.y.c0 % 2 == 1) implies false by {
                                    assert(root2(a.y, cv));
                                }
                            }
                            None
                        },
                        Some(y0) => {
                            let flip = y0.is_odd() != ysign;
                            let y = fq2_cond_neg(&y0, flip);
                            let res = G2Affine { x, y, infinity: false };
                            proof {
                                lemma_neg2_root(y0.v2(), cv);
                                if flip && y0.v2().c0 != 0 {
                                    lemma_negp_parity(y0.v2().c0);
                                }
                                if flip && y0.v2().c0 == 0 {
                                    lemma_negp_zero();
                                }
                                assert(root2(y.v2(), cv));
                                assert forall|a: Aff2V|
                                    aff2_valid(a) && !a.inf && encoded2_x(s) == a.x
                                        && encoded2_sign(s) == (a.y.c0 % 2 == 1) implies res.av()
                                    == a by {
                                    assert(root2(a.y, cv));
                                    if a.y == y0.v2() {
                                        assert(y.v2() == a.y);
                                    } else {
                                        assert(a.y == neg2(y0.v2()));
                                        if y0.v2().c0 == 0 {
                                            lemma_negp_zero();
                                            assert(a.y.c0 == 0);
                                            if y0.v2().c1 != 0 {
                                                lemma_negp_parity(y0.v2().c1);
                                                assert(a.y.c1 != 0);
                                            } else {
                                                assert(a.y == y0.v2());
                                            }
                                            assert(false);
                                        } else {
                                            lemma_negp_parity(y0.v2().c0);
                                            assert(y.v2() == a.y);
                                        }
                                    }
                                }
                            }
                            Some(res)
                        },
                    }
                }
            },
            _ => None,
        }
    }

    /// The compressed round trip: encoding any encodable point and decoding
    /// the bytes returns the point unchanged, as the contract states.
    pub fn codec_roundtrip(&self) -> (r: Option<G2Affine>)
        requires
            self.wf(),
            aff2_valid(self.av()),
        ensures
            r matches Some(q) && q.av() == self.av(),
    {
        let bytes = self.to_bytes();
        let r = G2Affine::from_bytes(&bytes);
        proof {
            if self.av().inf {
                assert(0u8 & 0x7f == 0) by (bit_vector);
                assert(0u8 & 0x80 == 0) by (bit_vector);
                assert(enc2_clear(zero64()) =~= zero64());
                assert(zero64().subrange(0, 32) =~= crate::g1::zero32());
                assert(enc2_clear(zero64()).subrange(32, 64) =~= crate::g1::zero32());
                assert(encoded2_x(bytes.0@) == zero2());
                assert(!encoded2_sign(bytes.0@));
            }
        }
        r
    }

    /// Decoding performs the full canonical checks; there is no cheaper
    /// unchecked path.
    pub fn from_bytes_unchecked(bytes: &G2Compressed) -> (r: Option<G2Affine>)
        ensures
            r is Some <==> decode2_ok(bytes.0@),
            r matches Some(a) ==> a.wf() && decoded2_point(bytes.0@, a.av()) && aff2_on_curve(
                a.av(),
            ),
    {
        G2Affine::from_bytes(bytes)
    }
}

/// The negation of a square root is a square root.
proof fn lemma_neg2_root(y: F2V, c: F2V)
    requires
        root2(y, c),
    ensures
        root2(neg2(y), c),
{
    lemma_neg2_sq(y);
    crate::modp::lemma_negp_reduced(y.c0);
    crate::modp::lemma_negp_reduced(y.c1);
}

/// Negation in the extension field preserves the square.
proof fn lemma_neg2_sq(a: F2V)
    requires
        wf2(a),
    ensures
        mul2(neg2(a), neg2(a)) == mul2(a, a),
{
    lemma_mulp_of_negs(a.c0, a.c0);
    lemma_mulp_of_negs(a.c1, a.c1);
    lemma_mulp_of_negs(a.c0, a.c1);
    lemma_mulp_of_negs(a.c1, a.c0);
}

/// The product of two negations is the original product.
proof fn lemma_mulp_of_negs(a: int, b: int)
    requires
        0 <= a < fq_p(),
        0 <= b < fq_p(),
    ensures
        crate::modp::mulp(negp(a), negp(b)) == crate::modp::mulp(a, b),
{
    crate::modp::lemma_mulp_neg(a, negp(b));
    crate::modp::lemma_negp_reduced(b);
    crate::modp::lemma_mulp_neg(b, a);
    assert(negp(b) * a == a * negp(b)) by (nonlinear_arith);
    assert(b * a == a * b) by (nonlinear_arith);
    crate::modp::lemma_negp_negp(crate::modp::mulp(a, b));
    crate::modp::lemma_mulp_reduced(a, b);
}

/// Normalizing a Jacobian curve point of the twist by the square and cube
/// of an inverse of `z` lands on the affine twist curve.
proof fn lemma_normalize2_on_curve(x: F2V, y: F2V, z: F2V, zi: F2V)
    requires
        wf2(x),
        wf2(y),
        wf2(zi),
        mul2(z, zi) == one2(),
        mul2(y, y) == add2(
            mul2(mul2(x, x), x),
            mul2(b2(), mul2(mul2(mul2(z, z), mul2(z, z)), mul2(z, z))),
        ),
    ensures
        mul2(mul2(y, mul2(mul2(zi, zi), zi)), mul2(y, mul2(mul2(zi, zi), zi))) == add2(
            mul2(mul2(mul2(x, mul2(zi, zi)), mul2(x, mul2(zi, zi))), mul2(x, mul2(zi, zi))),
            b2(),
        ),
{
    let z2 = mul2(z, z);
    let z4 = mul2(z2, z2);
    let z6 = mul2(z4, z2);
    let i2 = mul2(zi, zi);
    let i3 = mul2(i2, zi);
    let i4 = mul2(i2, i2);
    let i6 = mul2(i3, i3);
    let xx = mul2(x, x);
    let x3 = mul2(xx, x);
    lemma_mul2_one_unit();
    assert(mul2(z2, i2) == one2()) by {
        lemma_mul2_shuffle4(z, z, zi, zi);
    }
    assert(mul2(z4, i4) == one2()) by {
        lemma_mul2_shuffle4(z2, z2, i2, i2);
    }
    assert(i6 == mul2(i4, i2)) by {
        lemma_mul2_shuffle4(i2, zi, i2, zi);
    }
    assert(mul2(z6, i6) == one2()) by {
        lemma_mul2_shuffle4(z4, z2, i4, i2);
    }
    let yp = mul2(y, i3);
    assert(mul2(yp, yp) == mul2(mul2(y, y), i6)) by {
        lemma_mul2_shuffle4(y, i3, y, i3);
    }
    assert(mul2(mul2(y, y), i6) == add2(mul2(x3, i6), mul2(mul2(b2(), z6), i6))) by {
        lemma_mul2_distrib(x3, mul2(b2(), z6), i6);
    }
    assert(mul2(mul2(b2(), z6), i6) == b2()) by {
        lemma_mul2_assoc(b2(), z6, i6);
        lemma_mul2_by_one(b2());
    }
    let xp = mul2(x, i2);
    assert(mul2(xp, xp) == mul2(xx, i4)) by {
        lemma_mul2_shuffle4(x, i2, x, i2);
    }
    assert(mul2(mul2(xx, i4), xp) == mul2(x3, i6)) by {
        lemma_mul2_shuffle4(xx, i4, x, i2);
    }
}

/// Scaling by the square and cube of an inverse is undone by
/// cross-multiplying with the square and cube of the original.
proof fn lemma_normalize2(x: F2V, y: F2V, z: F2V, zi: F2V)
    requires
        wf2(x),
        wf2(y),
        wf2(z),
        wf2(zi),
        mul2(z, zi) == one2(),
    ensures
        mul2(mul2(x, mul2(zi, zi)), mul2(z, z)) == x,
        mul2(mul2(mul2(y, mul2(mul2(zi, zi), zi)), z), mul2(z, z)) == y,
{
    let i2 = mul2(zi, zi);
    let z2 = mul2(z, z);
    assert(mul2(zi, z) == one2()) by {
        lemma_mul2_comm(z, zi);
    }
    assert(mul2(zi, z2) == z) by {
        lemma_mul2_assoc(zi, z, z);
        lemma_mul2_comm(one2(), z);
        lemma_mul2_by_one(z);
    }
    assert(mul2(i2, z2) == one2()) by {
        lemma_mul2_assoc(zi, zi, z2);
    }
    assert(mul2(mul2(x, i2), z2) == x) by {
        lemma_mul2_assoc(x, i2, z2);
        lemma_mul2_by_one(x);
    }
    let i3 = mul2(i2, zi);
    assert(mul2(i3, z) == i2) by {
        lemma_mul2_assoc(i2, zi, z);
        lemma_mul2_wf(zi, zi);
        lemma_mul2_by_one(i2);
    }
    assert(mul2(mul2(mul2(y, i3), z), z2) == y) by {
        lemma_mul2_assoc(y, i3, z);
        lemma_mul2_assoc(y, mul2(i3, z), z2);
        lemma_mul2_assoc(y, i2, z2);
        lemma_mul2_by_one(y);
    }
}

/// `1 * 1 = 1` in the extension field, as needed to lift affine points.
proof fn lemma_mul2_one_unit()
    ensures
        mul2(one2(), one2()) == one2(),
{
    lemma_mul2_by_one(one2());
}

/// Adding a point to its negation gives the identity.  The hypotheses say
/// the point is a genuine finite point: its `y` and `z` are invertible
/// elements, which holds of every finite point of the prime-order group.
pub proof fn lemma_add2_inverse(p: Jac2V)
    requires
        jac2_wf(p),
        p.z != zero2(),
        unit2(p.y),
        unit2(p.z),
    ensures
        jac2_add(p, jac2_neg(p)) == jac2_identity(),
{
    let q = jac2_neg(p);
    let z1z1 = mul2(p.z, p.z);
    let m = mul2(p.y, p.z);
    let s1 = mul2(m, z1z1);
    let s2 = mul2(mul2(q.y, p.z), z1z1);
    assert(s2 == neg2(s1)) by {
        lemma_mul2_neg(p.y, p.z);
        lemma_mul2_wf(p.y, p.z);
        lemma_mul2_neg(m, z1z1);
    }
    assert(s1 != s2) by {
        lemma_unit2_mul(p.y, p.z);
        lemma_unit2_mul(p.z, p.z);
        lemma_unit2_mul(m, z1z1);
        lemma_unit2_nonzero(s1);
        lemma_mul2_wf(m, z1z1);
        if s1 == s2 {
            lemma_neg2_self_zero(s1);
        }
    }
}

/// The generator of the twisted curve satisfies its equation; a concrete
/// computation on the literal coordinates.
#[verifier::rlimit(100)]
proof fn lemma_gen2_on_curve()
    ensures
        aff2_on_curve(Aff2V { x: g2_gen_x(), y: g2_gen_y(), inf: false }),
{
    let p = fq_p();
    assert(0x12c85ea5db8c6deb4aab71808dcb408fe3d1e7690c43d37b4ce6cc0166fa7daaint * 0x12c85ea5db8c6deb4aab71808dcb408fe3d1e7690c43d37b4ce6cc0166fa7daaint == 0x74a4f57b076f95dc528c9a4080662e670f7bb70f9bc9be6541b21f5db812533int * p + 0x15369f86565e9ff42d5edbf4aa522b12f95b3eda3d15af48ccedb71f966ebcbfint);
    lemma_fundamental_div_mod_converse(0x12c85ea5db8c6deb4aab71808dcb408fe3d1e7690c43d37b4ce6cc0166fa7daaint * 0x12c85ea5db8c6deb4aab71808dcb408fe3d1e7690c43d37b4ce6cc0166fa7daaint, p, 0x74a4f57b076f95dc528c9a4080662e670f7bb70f9bc9be6541b21f5db812533int, 0x15369f86565e9ff42d5edbf4aa522b12f95b3eda3d15af48ccedb71f966ebcbfint);
    assert(0x90689d0585ff075ec9e99ad690c3395bc4b313370b38ef355acdadcd122975bint * 0x90689d0585ff075ec9e99ad690c3395bc4b313370b38ef355acdadcd122975bint == 0x1aef0086c9878d00e29af82405a45aba8196ef3f728596d276cc1b9999a8d3bint * p + 0x249cd4a9a0dc17d9dba68f34f5e19607e4f3fb08dfbfa929ca5943d79ba3fffcint);
    lemma_fundamental_div_mod_converse(0x90689d0585ff075ec9e99ad690c3395bc4b313370b38ef355acdadcd122975bint * 0x90689d0585ff075ec9e99ad690c3395bc4b313370b38ef355acdadcd122975bint, p, 0x1aef0086c9878d00e29af82405a45aba8196ef3f728596d276cc1b9999a8d3bint, 0x249cd4a9a0dc17d9dba68f34f5e19607e4f3fb08dfbfa929ca5943d79ba3fffcint);
    assert(0x12c85ea5db8c6deb4aab71808dcb408fe3d1e7690c43d37b4ce6cc0166fa7daaint * 0x90689d0585ff075ec9e99ad690c3395bc4b313370b38ef355acdadcd122975bint == 0x380cea578026c22de20120d6987e7fc86e431cc0af0fe21b39d3811b9fb79d3int * p + 0x2d329bd5b6d20eba518ba41d495f4ced26dfb0f089ef41ede4fe15beaf65a0e9int);
    lemma_fundamental_div_mod_converse(0x12c85ea5db8c6deb4aab71808dcb408fe3d1e7690c43d37b4ce6cc0166fa7daaint * 0x90689d0585ff075ec9e99ad690c3395bc4b313370b38ef355acdadcd122975bint, p, 0x380cea578026c22de20120d6987e7fc86e431cc0af0fe21b39d3811b9fb79d3int, 0x2d329bd5b6d20eba518ba41d495f4ced26dfb0f089ef41ede4fe15beaf65a0e9int);
    assert(0x90689d0585ff075ec9e99ad690c3395bc4b313370b38ef355acdadcd122975bint * 0x12c85ea5db8c6deb4aab71808dcb408fe3d1e7690c43d37b4ce6cc0166fa7daaint == 0x380cea578026c22de20120d6987e7fc86e431cc0af0fe21b39d3811b9fb79d3int * p + 0x2d329bd5b6d20eba518ba41d495f4ced26dfb0f089ef41ede4fe15beaf65a0e9int);
    lemma_fundamental_div_mod_converse(0x90689d0585ff075ec9e99ad690c3395bc4b313370b38ef355acdadcd122975bint * 0x12c85ea5db8c6deb4aab71808dcb408fe3d1e7690c43d37b4ce6cc0166fa7daaint, p, 0x380cea578026c22de20120d6987e7fc86e431cc0af0fe21b39d3811b9fb79d3int, 0x2d329bd5b6d20eba518ba41d495f4ced26dfb0f089ef41ede4fe15beaf65a0e9int);
    assert((0x15369f86565e9ff42d5edbf4aa522b12f95b3eda3d15af48ccedb71f966ebcbfint + p - 0x249cd4a9a0dc17d9dba68f34f5e19607e4f3fb08dfbfa929ca5943d79ba3fffcint) % p == 0x20fe194f96b428440a08927635f1ed68abe8ae62c5c7d0ac3eb4ff5ed347ba0aint) by {
        lemma_fundamental_div_mod_converse(0x15369f86565e9ff42d5edbf4aa522b12f95b3eda3d15af48ccedb71f966ebcbfint + p - 0x249cd4a9a0dc17d9dba68f34f5e19607e4f3fb08dfbfa929ca5943d79ba3fffcint, p, 0x0int, 0x20fe194f96b428440a08927635f1ed68abe8ae62c5c7d0ac3eb4ff5ed347ba0aint);
    }
    assert((0x2d329bd5b6d20eba518ba41d495f4ced26dfb0f089ef41ede4fe15beaf65a0e9int + 0x2d329bd5b6d20eba518ba41d495f4ced26dfb0f089ef41ede4fe15beaf65a0e9int) % p == 0x2a00e9388c727d4aeac70284113d417cb63df74fab6cb94e8ddb9f66864e448bint) by {
        lemma_fundamental_div_mod_converse(0x2d329bd5b6d20eba518ba41d495f4ced26dfb0f089ef41ede4fe15beaf65a0e9int + 0x2d329bd5b6d20eba518ba41d495f4ced26dfb0f089ef41ede4fe15beaf65a0e9int, p, 0x1int, 0x2a00e9388c727d4aeac70284113d417cb63df74fab6cb94e8ddb9f66864e448bint);
    }
    assert(0x1800deef121f1e76426a00665e5c4479674322d4f75edadd46debd5cd992f6edint * 0x1800deef121f1e76426a00665e5c4479674322d4f75edadd46debd5cd992f6edint == 0xbe7fd82d2318088d5ac20ca4968be690ad8d6e522dd961565b7e5c5671bc805int * p + 0x2a647dc8808914501e20420c0149947d4e8c2775a2d28332f119c80736b2ed06int);
    lemma_fundamental_div_mod_converse(0x1800deef121f1e76426a00665e5c4479674322d4f75edadd46debd5cd992f6edint * 0x1800deef121f1e76426a00665e5c4479674322d4f75edadd46debd5cd992f6edint, p, 0xbe7fd82d2318088d5ac20ca4968be690ad8d6e522dd961565b7e5c5671bc805int, 0x2a647dc8808914501e20420c0149947d4e8c2775a2d28332f119c80736b2ed06int);
    assert(0x198e9393920d483a7260bfb731fb5d25f1aa493335a9e71297e485b7aef312c2int * 0x198e9393920d483a7260bfb731fb5d25f1aa493335a9e71297e485b7aef312c2int == 0xd7f4ca083bd003020f3ee26481dcf0144c61cbd629e8b7c3bf5df604f917d70int * p + 0x2ab7d6c593704c2d116396d3ebc2e7ff96a905d17c7a299e044b4360391a60f4int);
    lemma_fundamental_div_mod_converse(0x198e9393920d483a7260bfb731fb5d25f1aa493335a9e71297e485b7aef312c2int * 0x198e9393920d483a7260bfb731fb5d25f1aa493335a9e71297e485b7aef312c2int, p, 0xd7f4ca083bd003020f3ee26481dcf0144c61cbd629e8b7c3bf5df604f917d70int, 0x2ab7d6c593704c2d116396d3ebc2e7ff96a905d17c7a299e044b4360391a60f4int);
    assert(0x1800deef121f1e76426a00665e5c4479674322d4f75edadd46debd5cd992f6edint * 0x198e9393920d483a7260bfb731fb5d25f1aa493335a9e71297e485b7aef312c2int == 0xcad42cec0dc4ba3be82b93ea8d86c2ea496ceac6eb233e3b52d4b1cfd5ab01dint * p + 0x207f624eca84d716fdc6167feeaa6746a7ddbbdd828d843c9365ff90573488fint);
    lemma_fundamental_div_mod_converse(0x1800deef121f1e76426a00665e5c4479674322d4f75edadd46debd5cd992f6edint * 0x198e9393920d483a7260bfb731fb5d25f1aa493335a9e71297e485b7aef312c2int, p, 0xcad42cec0dc4ba3be82b93ea8d86c2ea496ceac6eb233e3b52d4b1cfd5ab01dint, 0x207f624eca84d716fdc6167feeaa6746a7ddbbdd828d843c9365ff90573488fint);
    assert(0x198e9393920d483a7260bfb731fb5d25f1aa493335a9e71297e485b7aef312c2int * 0x1800deef121f1e76426a00665e5c4479674322d4f75edadd46debd5cd992f6edint == 0xcad42cec0dc4ba3be82b93ea8d86c2ea496ceac6eb233e3b52d4b1cfd5ab01dint * p + 0x207f624eca84d716fdc6167feeaa6746a7ddbbdd828d843c9365ff90573488fint);
    lemma_fundamental_div_mod_converse(0x198e9393920d483a7260bfb731fb5d25f1aa493335a9e71297e485b7aef312c2int * 0x1800deef121f1e76426a00665e5c4479674322d4f75edadd46debd5cd992f6edint, p, 0xcad42cec0dc4ba3be82b93ea8d86c2ea496ceac6eb233e3b52d4b1cfd5ab01dint, 0x207f624eca84d716fdc6167feeaa6746a7ddbbdd828d843c9365ff90573488fint);
    assert((0x2a647dc8808914501e20420c0149947d4e8c2775a2d28332f119c80736b2ed06int + p - 0x2ab7d6c593704c2d116396d3ebc2e7ff96a905d17c7a299e044b4360391a60f4int) % p == 0x3010f575ce4a684cc50cf0ee970804db4f648c358eca242228ef10bdd6158959int) by {
        lemma_fundamental_div_mod_converse(0x2a647dc8808914501e20420c0149947d4e8c2775a2d28332f119c80736b2ed06int + p - 0x2ab7d6c593704c2d116396d3ebc2e7ff96a905d17c7a299e044b4360391a60f4int, p, 0x0int, 0x3010f575ce4a684cc50cf0ee970804db4f648c358eca242228ef10bdd6158959int);
    }
    assert((0x207f624eca84d716fdc6167feeaa6746a7ddbbdd828d843c9365ff90573488fint + 0x207f624eca84d716fdc6167feeaa6746a7ddbbdd828d843c9365ff90573488fint) % p == 0x40fec49d9509ae2dfb8c2cffdd54ce8d4fbb77bb051b087926cbff20ae6911eint) by {
        lemma_fundamental_div_mod_converse(0x207f624eca84d716fdc6167feeaa6746a7ddbbdd828d843c9365ff90573488fint + 0x207f624eca84d716fdc6167feeaa6746a7ddbbdd828d843c9365ff90573488fint, p, 0x0int, 0x40fec49d9509ae2dfb8c2cffdd54ce8d4fbb77bb051b087926cbff20ae6911eint);
    }
    assert(0x3010f575ce4a684cc50cf0ee970804db4f648c358eca242228ef10bdd6158959int * 0x1800deef121f1e76426a00665e5c4479674322d4f75edadd46debd5cd992f6edint == 0x17d7875230ca3b4c22855154f5b46814166217cec67972f90220aa898fd375b4int * p + 0xf2d24b57ce55dcede77e9678f9cf224de98931a79387b51ead773a8e7852479int);
    lemma_fundamental_div_mod_converse(0x3010f575ce4a684cc50cf0ee970804db4f648c358eca242228ef10bdd6158959int * 0x1800deef121f1e76426a00665e5c4479674322d4f75edadd46debd5cd992f6edint, p, 0x17d7875230ca3b4c22855154f5b46814166217cec67972f90220aa898fd375b4int, 0xf2d24b57ce55dcede77e9678f9cf224de98931a79387b51ead773a8e7852479int);
    assert(0x40fec49d9509ae2dfb8c2cffdd54ce8d4fbb77bb051b087926cbff20ae6911eint * 0x198e9393920d483a7260bfb731fb5d25f1aa493335a9e71297e485b7aef312c2int == 0x22535a2ba774c08f8ac48ed62e4d91768ee0a74d4e862dbe75133c098271758int * p + 0x1943a8a6b4e9e039562d6f8a758b6f7fe864aa9d0d4c9a48de8a5b2638dea354int);
    lemma_fundamental_div_mod_converse(0x40fec49d9509ae2dfb8c2cffdd54ce8d4fbb77bb051b087926cbff20ae6911eint * 0x198e9393920d483a7260bfb731fb5d25f1aa493335a9e71297e485b7aef312c2int, p, 0x22535a2ba774c08f8ac48ed62e4d91768ee0a74d4e862dbe75133c098271758int, 0x1943a8a6b4e9e039562d6f8a758b6f7fe864aa9d0d4c9a48de8a5b2638dea354int);
    assert(0x3010f575ce4a684cc50cf0ee970804db4f648c358eca242228ef10bdd6158959int * 0x198e9393920d483a7260bfb731fb5d25f1aa493335a9e71297e485b7aef312c2int == 0x19628ef9c6a8309342052c7518c14a4fdd4e7e0f28297ef8294568315ff3bd46int * p + 0x2a83a098250e4d78c0e000f5d9b2d7076bb5a14b93007b3405c3ef0860e5ab08int);
    lemma_fundamental_div_mod_converse(0x3010f575ce4a684cc50cf0ee970804db4f648c358eca242228ef10bdd6158959int * 0x198e9393920d483a7260bfb731fb5d25f1aa493335a9e71297e485b7aef312c2int, p, 0x19628ef9c6a8309342052c7518c14a4fdd4e7e0f28297ef8294568315ff3bd46int, 0x2a83a098250e4d78c0e000f5d9b2d7076bb5a14b93007b3405c3ef0860e5ab08int);
    assert(0x40fec49d9509ae2dfb8c2cffdd54ce8d4fbb77bb051b087926cbff20ae6911eint * 0x1800deef121f1e76426a00665e5c4479674322d4f75edadd46debd5cd992f6edint == 0x203d31556f872040cad673bfc4330e9e3ac1217d1ff5ccc46cb0ad7687f64c2int * p + 0x2f4a83630da4d127150a9796ca32c4de3aba20109bb0f054df957f6e782280f8int);
    lemma_fundamental_div_mod_converse(0x40fec49d9509ae2dfb8c2cffdd54ce8d4fbb77bb051b087926cbff20ae6911eint * 0x1800deef121f1e76426a00665e5c4479674322d4f75edadd46debd5cd992f6edint, p, 0x203d31556f872040cad673bfc4330e9e3ac1217d1ff5ccc46cb0ad7687f64c2int, 0x2f4a83630da4d127150a9796ca32c4de3aba20109bb0f054df957f6e782280f8int);
    assert((0xf2d24b57ce55dcede77e9678f9cf224de98931a79387b51ead773a8e7852479int + p - 0x1943a8a6b4e9e039562d6f8a758b6f7fe864aa9d0d4c9a48de8a5b2638dea354int) % p == 0x264dca81a92d1dbf409abf939b92db028db5530ed45dab96486da49987237e6cint) by {
        lemma_fundamental_div_mod_converse(0xf2d24b57ce55dcede77e9678f9cf224de98931a79387b51ead773a8e7852479int + p - 0x1943a8a6b4e9e039562d6f8a758b6f7fe864aa9d0d4c9a48de8a5b2638dea354int, p, 0x0int, 0x264dca81a92d1dbf409abf939b92db028db5530ed45dab96486da49987237e6cint);
    }
    assert((0x2a83a098250e4d78c0e000f5d9b2d7076bb5a14b93007b3405c3ef0860e5ab08int + 0x2f4a83630da4d127150a9796ca32c4de3aba20109bb0f054df957f6e782280f8int) % p == 0x2969d58851817e761d9a52d6226443880eee56cac63fa0fba938e260008b2eb9int) by {
        lemma_fundamental_div_mod_converse(0x2a83a098250e4d78c0e000f5d9b2d7076bb5a14b93007b3405c3ef0860e5ab08int + 0x2f4a83630da4d127150a9796ca32c4de3aba20109bb0f054df957f6e782280f8int, p, 0x1int, 0x2969d58851817e761d9a52d6226443880eee56cac63fa0fba938e260008b2eb9int);
    }
    assert((0x264dca81a92d1dbf409abf939b92db028db5530ed45dab96486da49987237e6cint + 0x2b149d40ceb8aaae81be18991be06ac3b5b4c5e559dbefa33267e6dc24a138e5int) % p == 0x20fe194f96b428440a08927635f1ed68abe8ae62c5c7d0ac3eb4ff5ed347ba0aint) by {
        lemma_fundamental_div_mod_converse(0x264dca81a92d1dbf409abf939b92db028db5530ed45dab96486da49987237e6cint + 0x2b149d40ceb8aaae81be18991be06ac3b5b4c5e559dbefa33267e6dc24a138e5int, p, 0x1int, 0x20fe194f96b428440a08927635f1ed68abe8ae62c5c7d0ac3eb4ff5ed347ba0aint);
    }
    assert((0x2969d58851817e761d9a52d6226443880eee56cac63fa0fba938e260008b2eb9int + 0x9713b03af0fed4cd2cafadeed8fdf4a74fa084e52d1852e4a2bd0685c315d2int) % p == 0x2a00e9388c727d4aeac70284113d417cb63df74fab6cb94e8ddb9f66864e448bint) by {
        lemma_fundamental_div_mod_converse(0x2969d58851817e761d9a52d6226443880eee56cac63fa0fba938e260008b2eb9int + 0x9713b03af0fed4cd2cafadeed8fdf4a74fa084e52d1852e4a2bd0685c315d2int, p, 0x0int, 0x2a00e9388c727d4aeac70284113d417cb63df74fab6cb94e8ddb9f66864e448bint);
    }
}

/// The generator, lifted to its Jacobian representative.
proof fn lemma_gen2_jac_on_curve()
    ensures
        jac2_on_curve(Jac2V { x: g2_gen_x(), y: g2_gen_y(), z: one2() }),
{
    lemma_gen2_on_curve();
    lemma_mul2_one_unit();
    lemma_mul2_by_one(b2());
}

/// The identity is neutral on either side of the addition law.
pub proof fn lemma_add2_identity(p: Jac2V)
    ensures
        jac2_add(jac2_identity(), p) == p,
        jac2_eq(jac2_add(p, jac2_identity()), p),
{
}

/// Adding a point to itself dispatches to doubling.
pub proof fn lemma_add2_self_is_double(p: Jac2V)
    requires
        jac2_wf(p),
    ensures
        jac2_eq(jac2_add(p, p), jac2_double(p)),
{
    if p.z == zero2() {
        let t = add2(p.y, p.y);
        assert(jac2_double(p).z == mul2(t, zero2()));
        assert(mul2(t, zero2()) == zero2()) by {
            assert(t.c0 * 0 == 0 && t.c1 * 0 == 0) by (nonlinear_arith);
            lemma_small(0);
            lemma_negp_zero();
        }
    }
}

/// The scalar zero maps every point to the identity.
pub proof fn lemma_scalar2_zero(p: Jac2V)
    ensures
        mul2_bits(p, (Fr { l0: 0, l1: 0, l2: 0, l3: 0 }), 256) == jac2_identity(),
{
    lemma_scalar2_zero_rec(p, 256);
}

proof fn lemma_scalar2_zero_rec(p: Jac2V, n: int)
    requires
        0 <= n <= 256,
    ensures
        mul2_bits(p, (Fr { l0: 0, l1: 0, l2: 0, l3: 0 }), n) == jac2_identity(),
    decreases n,
{
    if n > 0 {
        lemma_scalar2_zero_rec(p, n - 1);
        assert forall|s: u64| s < 64 implies ((0u64 >> s) & 1) == 0 by {
            assert(s < 64 ==> ((0u64 >> s) & 1) == 0) by (bit_vector);
        }
    }
}

/// The scalar one maps every point to itself.
pub proof fn lemma_scalar2_one(p: Jac2V)
    ensures
        mul2_bits(p, (Fr { l0: 1, l1: 0, l2: 0, l3: 0 }), 256) == p,
{
    lemma_scalar2_one_rec(p, 256);
}

proof fn lemma_scalar2_one_rec(p: Jac2V, n: int)
    requires
        1 <= n <= 256,
    ensures
        mul2_bits(p, (Fr { l0: 1, l1: 0, l2: 0, l3: 0 }), n) == p,
    decreases n,
{
    let one = Fr { l0: 1, l1: 0, l2: 0, l3: 0 };
    if n == 1 {
        assert((1u64 >> 0) & 1 == 1) by (bit_vector);
        assert(fr_bit(one, 0));
        assert(mul2_bits(p, one, 0) == jac2_identity());
        assert(mul2_bits(p, one, 1) == jac2_add(jac2_identity(), p));
    } else {
        lemma_scalar2_one_rec(p, n - 1);
        assert forall|s: u64| 1 <= s < 64 implies ((1u64 >> s) & 1) == 0 by {
            assert(1 <= s < 64 ==> ((1u64 >> s) & 1) == 0) by (bit_vector);
        }
        assert forall|s: u64| s < 64 implies ((0u64 >> s) & 1) == 0 by {
            assert(s < 64 ==> ((0u64 >> s) & 1) == 0) by (bit_vector);
        }
        assert(!fr_bit(one, n - 1));
    }
}

/// Negation preserves curve membership.
pub proof fn lemma_neg2_on_curve(p: Jac2V)
    requires
        jac2_wf(p),
        jac2_on_curve(p),
    ensures
        jac2_on_curve(jac2_neg(p)),
{
    lemma_neg2_sq(p.y);
}

} // verus!
