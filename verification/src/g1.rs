//! The group `G1`: points of the curve `y^2 = x^3 + 3` over the base field,
//! in Jacobian and affine form, with the group law and the 32-byte
//! compressed encoding.

use vstd::prelude::*;
use crate::modp::{
    fq_p, addp, subp, mulp, negp, rootp, unitp, le32_val, lemma_mulp_noop, lemma_small,
    lemma_unit_nonzero, lemma_unit_mulp, lemma_mulp_assoc, lemma_mulp_reduced, lemma_mulp_neg,
    lemma_negp_sq, lemma_negp_root, lemma_negp_parity, lemma_negp_zero, lemma_mulp_by_one,
    lemma_mulp_shuffle4, lemma_mulp_distrib,
};
use crate::fq::{Fq, fq_add, fq_sub, fq_mul, fq_inv, fq_sqrt, fq_cond_neg};
use crate::fr::{Fr, fr_bit};

verus! {

/// The integer model of a Jacobian point: `(x / z^2, y / z^3)` when `z` is
/// nonzero, the group identity when `z` is zero.
pub ghost struct JacV {
    pub x: int,
    pub y: int,
    pub z: int,
}

/// The integer model of an affine point, with an explicit identity flag.
pub ghost struct AffV {
    pub x: int,
    pub y: int,
    pub inf: bool,
}

/// All coordinates are reduced residues.
pub open spec fn jac_wf(p: JacV) -> bool {
    0 <= p.x < fq_p() && 0 <= p.y < fq_p() && 0 <= p.z < fq_p()
}

/// All coordinates are reduced residues.
pub open spec fn aff_wf(a: AffV) -> bool {
    0 <= a.x < fq_p() && 0 <= a.y < fq_p()
}

/// The Jacobian identity representative.
pub open spec fn jac_identity() -> JacV {
    JacV { x: 0, y: 0, z: 0 }
}

/// The affine identity.
pub open spec fn aff_identity() -> AffV {
    AffV { x: 0, y: 0, inf: true }
}

/// Curve membership in Jacobian form: `z = 0` is the identity and is a
/// member; otherwise `y^2 = x^3 + 3 z^6`.
pub open spec fn jac_on_curve(p: JacV) -> bool {
    p.z == 0 || {
        let z2 = mulp(p.z, p.z);
        let z4 = mulp(z2, z2);
        let z6 = mulp(z4, z2);
        mulp(p.y, p.y) == addp(mulp(mulp(p.x, p.x), p.x), mulp(3, z6))
    }
}

/// Curve membership in affine form.
pub open spec fn aff_on_curve(a: AffV) -> bool {
    a.inf || mulp(a.y, a.y) == addp(mulp(mulp(a.x, a.x), a.x), 3)
}

/// Negation: the identity stays the identity, a finite point flips `y`.
pub open spec fn jac_neg(p: JacV) -> JacV {
    JacV { x: p.x, y: negp(p.y), z: p.z }
}

/// Doubling by the standard Jacobian formulas for `a = 0`.  A zero `z`
/// propagates to a zero output `z`, so the identity stays the identity
/// without a distinguished branch.
pub open spec fn jac_double(p: JacV) -> JacV {
    let a = mulp(p.x, p.x);
    let b = mulp(p.y, p.y);
    let c = mulp(b, b);
    let t = addp(p.x, b);
    let d1 = subp(subp(mulp(t, t), a), c);
    let d = addp(d1, d1);
    let e = addp(addp(a, a), a);
    let f = mulp(e, e);
    let x3 = subp(f, addp(d, d));
    let c8 = addp(addp(addp(c, c), addp(c, c)), addp(addp(c, c), addp(c, c)));
    let y3 = subp(mulp(e, subp(d, x3)), c8);
    let z3 = mulp(addp(p.y, p.y), p.z);
    JacV { x: x3, y: y3, z: z3 }
}

/// Addition: the identity is neutral on either side; coincident points
/// dispatch to doubling; a point and its negation give the identity;
/// otherwise the standard Jacobian addition formulas apply.
pub open spec fn jac_add(p: JacV, q: JacV) -> JacV {
    if p.z == 0 {
        q
    } else if q.z == 0 {
        p
    } else {
        let z1z1 = mulp(p.z, p.z);
        let z2z2 = mulp(q.z, q.z);
        let u1 = mulp(p.x, z2z2);
        let u2 = mulp(q.x, z1z1);
        let s1 = mulp(mulp(p.y, q.z), z2z2);
        let s2 = mulp(mulp(q.y, p.z), z1z1);
        if u1 == u2 && s1 == s2 {
            jac_double(p)
        } else if u1 == u2 {
            jac_identity()
        } else {
            let h = subp(u2, u1);
            let hh = addp(h, h);
            let i = mulp(hh, hh);
            let j = mulp(h, i);
            let rr = addp(subp(s2, s1), subp(s2, s1));
            let v = mulp(u1, i);
            let x3 = subp(subp(mulp(rr, rr), j), addp(v, v));
            let y3 = subp(mulp(rr, subp(v, x3)), addp(mulp(s1, j), mulp(s1, j)));
            let zs = addp(p.z, q.z);
            let z3 = mulp(subp(subp(mulp(zs, zs), z1z1), z2z2), h);
            JacV { x: x3, y: y3, z: z3 }
        }
    }
}

/// Equality of the projective equivalence classes: two identities are equal,
/// an identity never equals a finite point, and finite points are compared
/// by cross-multiplied coordinates.
pub open spec fn jac_eq(p: JacV, q: JacV) -> bool {
    if p.z == 0 && q.z == 0 {
        true
    } else if p.z == 0 || q.z == 0 {
        false
    } else {
        let z1z1 = mulp(p.z, p.z);
        let z2z2 = mulp(q.z, q.z);
        mulp(p.x, z2z2) == mulp(q.x, z1z1) && mulp(mulp(p.y, q.z), z2z2) == mulp(
            mulp(q.y, p.z),
            z1z1,
        )
    }
}

/// The affine point as a Jacobian representative with `z = 1`.
pub open spec fn aff_to_jac(a: AffV) -> JacV {
    if a.inf {
        jac_identity()
    } else {
        JacV { x: a.x, y: a.y, z: 1 }
    }
}

/// The doubled base after `n` rounds of the scalar ladder.
pub open spec fn base_bits(p: JacV, n: int) -> JacV
    decreases n,
{
    if n <= 0 {
        p
    } else {
        jac_double(base_bits(p, n - 1))
    }
}

/// The accumulator of the scalar ladder after the low `n` bits of `k`.
pub open spec fn mul_bits(p: JacV, k: Fr, n: int) -> JacV
    decreases n,
{
    if n <= 0 {
        jac_identity()
    } else {
        let prev = mul_bits(p, k, n - 1);
        if fr_bit(k, n - 1) {
            jac_add(prev, base_bits(p, n - 1))
        } else {
            prev
        }
    }
}

/// The sign bit of a compressed encoding: the top bit of the final byte.
pub open spec fn encoded_sign(s: Seq<u8>) -> bool {
    s[31] & 0x80 == 0x80
}

/// The encoding with its sign bit cleared.
pub open spec fn enc_clear(s: Seq<u8>) -> Seq<u8> {
    s.update(31, (s[31] & 0x7f) as u8)
}

/// The x-coordinate carried by a compressed encoding.
pub open spec fn encoded_x(s: Seq<u8>) -> int {
    le32_val(enc_clear(s))
}

/// The all-zero encoding.
pub open spec fn zero32() -> Seq<u8> {
    Seq::new(32, |i: int| 0u8)
}

/// Whether a compressed encoding decodes at all: the x-coordinate must be
/// canonical, and the bytes must be either the identity encoding or an `x`
/// for which `x^3 + 3` has a square root.
pub open spec fn decode_ok(s: Seq<u8>) -> bool {
    let xv = encoded_x(s);
    let sign = encoded_sign(s);
    xv < fq_p() && ((xv == 0 && !sign) || exists|z: int|
        rootp(z, addp(mulp(mulp(xv, xv), xv), 3)))
}

/// What a successful decode returns: the identity for the identity encoding,
/// otherwise the root of `x^3 + 3` whose parity matches the sign bit (the
/// zero root has no opposite-parity twin, so it is returned as is).
pub open spec fn decoded_point(s: Seq<u8>, a: AffV) -> bool {
    let xv = encoded_x(s);
    let sign = encoded_sign(s);
    if xv == 0 && !sign {
        a == aff_identity()
    } else {
        !a.inf && a.x == xv && rootp(a.y, addp(mulp(mulp(xv, xv), xv), 3)) && ((a.y % 2 == 1)
            == sign || a.y == 0)
    }
}

/// An affine point the compressed round trip is promised for: a well-formed
/// curve point, in the canonical identity representation if it is the
/// identity, and with a nonzero `x` otherwise.  (A zero `x` on this curve
/// would need `3` to be a square, which it is not; that restriction only
/// trims points that do not exist.)
pub open spec fn aff_valid(a: AffV) -> bool {
    aff_wf(a) && aff_on_curve(a) && if a.inf {
        a == aff_identity()
    } else {
        a.x != 0
    }
}

/// A `G1` point in Jacobian coordinates.
#[derive(Clone, Copy)]
pub struct G1 {
    pub x: Fq,
    pub y: Fq,
    pub z: Fq,
}

/// A `G1` point in affine coordinates.
#[derive(Clone, Copy)]
pub struct G1Affine {
    pub x: Fq,
    pub y: Fq,
    pub infinity: bool,
}

/// The 32-byte compressed encoding of a `G1` point.
#[derive(Clone, Copy)]
pub struct G1Compressed(pub [u8; 32]);

impl Default for G1Compressed {
    /// The all-zero encoding, which decodes to the identity.
    fn default() -> (r: Self)
        ensures
            r.0@ == zero32(),
    {
        let r = G1Compressed([0u8; 32]);
        proof {
            assert(r.0@ =~= zero32());
        }
        r
    }
}

impl G1Compressed {
    /// The raw bytes of the encoding.
    pub fn as_bytes(&self) -> (r: &[u8; 32])
        ensures
            r@ == self.0@,
    {
        &self.0
    }
}

impl G1 {
    /// The integer model of this point.
    pub open spec fn jv(&self) -> JacV {
        JacV { x: self.x.val(), y: self.y.val(), z: self.z.val() }
    }

    /// All coordinates are canonical.
    pub open spec fn wf(&self) -> bool {
        self.x.wf() && self.y.wf() && self.z.wf()
    }

    /// The group identity.
    pub fn identity() -> (r: G1)
        ensures
            r.wf(),
            r.jv() == jac_identity(),
    {
        G1 { x: Fq::zero(), y: Fq::zero(), z: Fq::zero() }
    }

    /// Whether this point is the group identity.
    pub fn is_identity(&self) -> (r: bool)
        ensures
            r == (self.jv().z == 0),
    {
        self.z.is_zero()
    }

    /// The curve coefficient `b = 3`.
    pub fn curve_constant_b() -> (r: Fq)
        ensures
            r.wf(),
            r.val() == 3,
    {
        Fq::from_u64(3)
    }

    /// The fixed generator `(1, 2)` of the prime-order group.
    pub fn generator() -> (r: G1)
        ensures
            r.wf(),
            r.jv() == (JacV { x: 1, y: 2, z: 1 }),
            jac_on_curve(r.jv()),
    {
        G1 { x: Fq::one(), y: Fq::from_u64(2), z: Fq::one() }
    }

    /// Negation: flip the `y` coordinate; the identity stays the identity.
    pub fn neg(&self) -> (r: G1)
        requires
            self.wf(),
        ensures
            r.wf(),
            r.jv() == jac_neg(self.jv()),
    {
        G1 { x: self.x, y: fq_sub(&Fq::zero(), &self.y), z: self.z }
    }

    /// Point doubling by the standard Jacobian formulas for `a = 0`.
    pub fn double(&self) -> (r: G1)
        requires
            self.wf(),
        ensures
            r.wf(),
            r.jv() == jac_double(self.jv()),
    {
        let a = fq_mul(&self.x, &self.x);
        let b = fq_mul(&self.y, &self.y);
        let c = fq_mul(&b, &b);
        let t = fq_add(&self.x, &b);
        let d1 = fq_sub(&fq_sub(&fq_mul(&t, &t), &a), &c);
        let d = fq_add(&d1, &d1);
        let e = fq_add(&fq_add(&a, &a), &a);
        let f = fq_mul(&e, &e);
        let x3 = fq_sub(&f, &fq_add(&d, &d));
        let c2 = fq_add(&c, &c);
        let c4 = fq_add(&c2, &c2);
        let c8 = fq_add(&c4, &c4);
        let y3 = fq_sub(&fq_mul(&e, &fq_sub(&d, &x3)), &c8);
        let z3 = fq_mul(&fq_add(&self.y, &self.y), &self.z);
        G1 { x: x3, y: y3, z: z3 }
    }

    /// Point addition, with the identity, coincidence and inverse cases
    /// dispatched as the group law requires.
    pub fn add(&self, other: &G1) -> (r: G1)
        requires
            self.wf(),
            other.wf(),
        ensures
            r.wf(),
            r.jv() == jac_add(self.jv(), other.jv()),
    {
        if self.is_identity() {
            *other
        } else if other.is_identity() {
            *self
        } else {
            let z1z1 = fq_mul(&self.z, &self.z);
            let z2z2 = fq_mul(&other.z, &other.z);
            let u1 = fq_mul(&self.x, &z2z2);
            let u2 = fq_mul(&other.x, &z1z1);
            let s1 = fq_mul(&fq_mul(&self.y, &other.z), &z2z2);
            let s2 = fq_mul(&fq_mul(&other.y, &self.z), &z1z1);
            if u1.equals(&u2) && s1.equals(&s2) {
                self.double()
            } else if u1.equals(&u2) {
                G1::identity()
            } else {
                let h = fq_sub(&u2, &u1);
                let hh = fq_add(&h, &h);
                let i = fq_mul(&hh, &hh);
                let j = fq_mul(&h, &i);
                let sd = fq_sub(&s2, &s1);
                let rr = fq_add(&sd, &sd);
                let v = fq_mul(&u1, &i);
                let x3 = fq_sub(&fq_sub(&fq_mul(&rr, &rr), &j), &fq_add(&v, &v));
                let sj = fq_mul(&s1, &j);
                let y3 = fq_sub(&fq_mul(&rr, &fq_sub(&v, &x3)), &fq_add(&sj, &sj));
                let zs = fq_add(&self.z, &other.z);
                let z3 = fq_mul(&fq_sub(&fq_sub(&fq_mul(&zs, &zs), &z1z1), &z2z2), &h);
                G1 { x: x3, y: y3, z: z3 }
            }
        }
    }

    /// Equality of the represented points (not of the coordinate triples).
    pub fn equals(&self, other: &G1) -> (r: bool)
        requires
            self.wf(),
            other.wf(),
        ensures
            r == jac_eq(self.jv(), other.jv()),
    {
        let self_id = self.is_identity();
        let other_id = other.is_identity();
        if self_id && other_id {
            true
        } else if self_id || other_id {
            false
        } else {
            let z1z1 = fq_mul(&self.z, &self.z);
            let z2z2 = fq_mul(&other.z, &other.z);
            let u1 = fq_mul(&self.x, &z2z2);
            let u2 = fq_mul(&other.x, &z1z1);
            let s1 = fq_mul(&fq_mul(&self.y, &other.z), &z2z2);
            let s2 = fq_mul(&fq_mul(&other.y, &self.z), &z1z1);
            u1.equals(&u2) && s1.equals(&s2)
        }
    }

    /// Curve membership: `y^2 z^0 = x^3 + 3 z^6` in Jacobian form, with the
    /// identity a member by definition.
    pub fn is_on_curve(&self) -> (r: bool)
        requires
            self.wf(),
        ensures
            r == jac_on_curve(self.jv()),
    {
        if self.is_identity() {
            true
        } else {
            let z2 = fq_mul(&self.z, &self.z);
            let z4 = fq_mul(&z2, &z2);
            let z6 = fq_mul(&z4, &z2);
            let lhs = fq_mul(&self.y, &self.y);
            let x3 = fq_mul(&fq_mul(&self.x, &self.x), &self.x);
            let rhs = fq_add(&x3, &fq_mul(&G1::curve_constant_b(), &z6));
            lhs.equals(&rhs)
        }
    }

    /// Scalar multiplication by a uniform 256-round double-and-add ladder
    /// over the little-endian bits of the scalar.
    pub fn scalar_mul(&self, k: &Fr) -> (r: G1)
        requires
            self.wf(),
        ensures
            r.wf(),
            r.jv() == mul_bits(self.jv(), *k, 256),
    {
        let mut acc = G1::identity();
        let mut base = *self;
        let mut i: usize = 0;
        while i < 256
            invariant
                i <= 256,
                acc.wf(),
                base.wf(),
                acc.jv() == mul_bits(self.jv(), *k, i as int),
                base.jv() == base_bits(self.jv(), i as int),
            decreases 256 - i,
        {
            if k.bit(i) {
                acc = acc.add(&base);
            }
            base = base.double();
            i = i + 1;
        }
        acc
    }

    /// Normalize to affine coordinates: the identity maps to the affine
    /// identity, and a finite point is scaled by the inverse square and cube
    /// of `z`, so that cross-multiplying back recovers the Jacobian
    /// coordinates.
    pub fn to_affine(&self) -> (r: G1Affine)
        requires
            self.wf(),
        ensures
            r.wf(),
            r.av().inf <==> self.jv().z == 0,
            self.jv().z != 0 ==> mulp(r.av().x, mulp(self.jv().z, self.jv().z)) == self.jv().x,
            self.jv().z != 0 ==> mulp(mulp(r.av().y, self.jv().z), mulp(self.jv().z, self.jv().z))
                == self.jv().y,
            jac_eq(aff_to_jac(r.av()), self.jv()),
            jac_on_curve(self.jv()) ==> aff_on_curve(r.av()),
    {
        if self.is_identity() {
            G1Affine::identity()
        } else {
            let zi = match fq_inv(&self.z) {
                Some(v) => v,
                None => {
                    proof {
                        assert(false);
                    }
                    Fq::zero()
                },
            };
            let zi2 = fq_mul(&zi, &zi);
            let zi3 = fq_mul(&zi2, &zi);
            let xa = fq_mul(&self.x, &zi2);
            let ya = fq_mul(&self.y, &zi3);
            let r = G1Affine { x: xa, y: ya, infinity: false };
            proof {
                lemma_normalize(self.jv().x, self.jv().y, self.jv().z, zi.val());
                lemma_small(1);
                assert(mulp(1, 1) == 1);
                lemma_small(self.jv().x);
                assert(mulp(self.jv().x, 1) == self.jv().x);
                lemma_small(self.jv().y);
                assert(mulp(self.jv().y, 1) == self.jv().y);
                if jac_on_curve(self.jv()) {
                    lemma_normalize_on_curve(
                        self.jv().x,
                        self.jv().y,
                        self.jv().z,
                        zi.val(),
                    );
                }
            }
            r
        }
    }

    /// Decode a compressed encoding into a Jacobian point: the point the
    /// bytes encode, never another.
    pub fn from_bytes(bytes: &G1Compressed) -> (r: Option<G1>)
        ensures
            r is Some <==> decode_ok(bytes.0@),
            r matches Some(p) ==> p.wf() && jac_on_curve(p.jv()) && exists|a: AffV|
                decoded_point(bytes.0@, a) && p.jv() == aff_to_jac(a),
            forall|a: AffV|
                aff_valid(a) && !a.inf && encoded_x(bytes.0@) == a.x && encoded_sign(bytes.0@) == (
                a.y % 2 == 1) ==> (r matches Some(q) && q.jv() == aff_to_jac(a)),
    {
        match G1Affine::from_bytes(bytes) {
            Some(a) => {
                let p = a.to_curve();
                proof {
                    let w = a.av();
                    assert(decoded_point(bytes.0@, w) && p.jv() == aff_to_jac(w));
                }
                Some(p)
            },
            None => None,
        }
    }

    /// Decoding performs the full canonical checks; there is no cheaper
    /// unchecked path.
    pub fn from_bytes_unchecked(bytes: &G1Compressed) -> (r: Option<G1>)
        ensures
            r is Some <==> decode_ok(bytes.0@),
            r matches Some(p) ==> p.wf() && jac_on_curve(p.jv()) && exists|a: AffV|
                decoded_point(bytes.0@, a) && p.jv() == aff_to_jac(a),
            forall|a: AffV|
                aff_valid(a) && !a.inf && encoded_x(bytes.0@) == a.x && encoded_sign(bytes.0@) == (
                a.y % 2 == 1) ==> (r matches Some(q) && q.jv() == aff_to_jac(a)),
    {
        G1::from_bytes(bytes)
    }

    /// Encode through the affine normalization.
    pub fn to_bytes(&self) -> (r: G1Compressed)
        requires
            self.wf(),
        ensures
            self.jv().z == 0 ==> r.0@ == zero32(),
            self.jv().z != 0 ==> exists|a: AffV|
                aff_wf(a) && !a.inf && encoded_x(r.0@) == a.x && encoded_sign(r.0@) == (a.y % 2
                    == 1) && jac_eq(aff_to_jac(a), self.jv()) && (jac_on_curve(self.jv())
                    ==> aff_on_curve(a)),
    {
        let a = self.to_affine();
        let r = a.to_bytes();
        proof {
            if self.jv().z != 0 {
                let w = a.av();
                assert(aff_wf(w) && !w.inf && encoded_x(r.0@) == w.x && encoded_sign(r.0@) == (
                w.y % 2 == 1) && jac_eq(aff_to_jac(w), self.jv()) && (jac_on_curve(self.jv())
                    ==> aff_on_curve(w)));
            }
        }
        r
    }
}

impl G1Affine {
    /// The integer model of this point.
    pub open spec fn av(&self) -> AffV {
        AffV { x: self.x.val(), y: self.y.val(), inf: self.infinity }
    }

    /// Both coordinates are canonical.
    pub open spec fn wf(&self) -> bool {
        self.x.wf() && self.y.wf()
    }

    /// The group identity, flagged explicitly.
    pub fn identity() -> (r: G1Affine)
        ensures
            r.wf(),
            r.av() == aff_identity(),
    {
        G1Affine { x: Fq::zero(), y: Fq::zero(), infinity: true }
    }

    /// Whether this point is the group identity.
    pub fn is_identity(&self) -> (r: bool)
        ensures
            r == self.av().inf,
    {
        self.infinity
    }

    /// The curve coefficient `b = 3`.
    pub fn curve_constant_b() -> (r: Fq)
        ensures
            r.wf(),
            r.val() == 3,
    {
        Fq::from_u64(3)
    }

    /// The fixed generator `(1, 2)`.
    pub fn generator() -> (r: G1Affine)
        ensures
            r.wf(),
            r.av() == (AffV { x: 1, y: 2, inf: false }),
            aff_on_curve(r.av()),
    {
        G1Affine { x: Fq::one(), y: Fq::from_u64(2), infinity: false }
    }

    /// Curve membership in affine form.
    pub fn is_on_curve(&self) -> (r: bool)
        requires
            self.wf(),
        ensures
            r == aff_on_curve(self.av()),
    {
        if self.infinity {
            true
        } else {
            let lhs = fq_mul(&self.y, &self.y);
            let x3 = fq_mul(&fq_mul(&self.x, &self.x), &self.x);
            let rhs = fq_add(&x3, &G1Affine::curve_constant_b());
            lhs.equals(&rhs)
        }
    }

    /// Lift to Jacobian coordinates with `z = 1` (`z = 0` for the identity).
    pub fn to_curve(&self) -> (r: G1)
        requires
            self.wf(),
        ensures
            r.wf(),
            r.jv() == aff_to_jac(self.av()),
            aff_on_curve(self.av()) ==> jac_on_curve(r.jv()),
    {
        if self.infinity {
            G1::identity()
        } else {
            let r = G1 { x: self.x, y: self.y, z: Fq::one() };
            proof {
                if aff_on_curve(self.av()) {
                    assert(mulp(1, 1) == 1);
                    assert(mulp(3, 1) == 3);
                }
            }
            r
        }
    }

    /// Encode: the identity becomes the all-zero block; a finite point is
    /// the canonical little-endian `x` with the parity of `y` stored in the
    /// top bit of the final byte.  Encoding is total and need not be
    /// constant-time: the encoded point is public.
    pub fn to_bytes(&self) -> (r: G1Compressed)
        requires
            self.wf(),
        ensures
            self.av().inf ==> r.0@ == zero32(),
            !self.av().inf ==> encoded_x(r.0@) == self.av().x && encoded_sign(r.0@) == (
            self.av().y % 2 == 1),
    {
        if self.infinity {
            G1Compressed::default()
        } else {
            let xb = self.x.to_le_bytes();
            let sign_bit: u8 = if self.y.is_odd() {
                0x80
            } else {
                0
            };
            let top = xb[31] | sign_bit;
            let r = G1Compressed(
                [
                    xb[0], xb[1], xb[2], xb[3], xb[4], xb[5], xb[6], xb[7], xb[8], xb[9], xb[10],
                    xb[11], xb[12], xb[13], xb[14], xb[15], xb[16], xb[17], xb[18], xb[19], xb[20],
                    xb[21], xb[22], xb[23], xb[24], xb[25], xb[26], xb[27], xb[28], xb[29], xb[30],
                    top,
                ],
            );
            proof {
                let t = xb[31];
                let s = sign_bit;
                assert(t < 0x40 && (s == 0 || s == 0x80) ==> ((t | s) & 0x7f) == t && (((t | s)
                    & 0x80) == 0x80) == (s == 0x80)) by (bit_vector);
                assert(enc_clear(r.0@) =~= xb@);
            }
            r
        }
    }

    /// Decode a compressed encoding, in the constant-time style the input
    /// may require: the sign is resolved by masked negation, never by a
    /// branch on secret-derived data.  Fails (`None`) exactly on a
    /// non-canonical `x`, an `x` off the curve, or a malformed identity
    /// encoding; the round-trip clause returns every encodable point
    /// unchanged.
    pub fn from_bytes(bytes: &G1Compressed) -> (r: Option<G1Affine>)
        ensures
            r is Some <==> decode_ok(bytes.0@),
            r matches Some(a) ==> a.wf() && decoded_point(bytes.0@, a.av()) && aff_on_curve(
                a.av(),
            ),
            forall|a: AffV|
                aff_valid(a) && !a.inf && encoded_x(bytes.0@) == a.x && encoded_sign(bytes.0@) == (
                a.y % 2 == 1) ==> (r matches Some(q) && q.av() == a),
    {
        let ghost s = bytes.0@;
        let b = &bytes.0;
        let ysign = (b[31] >> 7) & 1 == 1;
        proof {
            let t = b[31];
            assert((((t >> 7) & 1) == 1) == ((t & 0x80) == 0x80)) by (bit_vector);
        }
        let cleared = [
            b[0], b[1], b[2], b[3], b[4], b[5], b[6], b[7], b[8], b[9], b[10], b[11], b[12], b[13],
            b[14], b[15], b[16], b[17], b[18], b[19], b[20], b[21], b[22], b[23], b[24], b[25],
            b[26], b[27], b[28], b[29], b[30], b[31] & 0x7f,
        ];
        proof {
            assert(cleared@ =~= enc_clear(s));
        }
        match Fq::from_le_bytes(&cleared) {
            None => None,
            Some(x) => {
                if x.is_zero() && !ysign {
                    Some(G1Affine::identity())
                } else {
                    let x2 = fq_mul(&x, &x);
                    let x3 = fq_mul(&x2, &x);
                    let c = fq_add(&x3, &G1Affine::curve_constant_b());
                    let ghost cv = addp(mulp(mulp(encoded_x(s), encoded_x(s)), encoded_x(s)), 3);
                    match fq_sqrt(&c) {
                        None => {
                            proof {
                                assert forall|a: AffV|
                                    aff_valid(a) && !a.inf && encoded_x(s) == a.x && encoded_sign(
                                        s,
                                    ) == (a.y % 2 == 1) implies false by {
                                    assert(rootp(a.y, cv));
                                }
                            }
                            None
                        },
                        Some(y0) => {
                            let flip = y0.is_odd() != ysign;
                            let y = fq_cond_neg(&y0, flip);
                            let res = G1Affine { x, y, infinity: false };
                            proof {
                                lemma_negp_root(y0.val(), cv);
                                if flip && y0.val() != 0 {
                                    lemma_negp_parity(y0.val());
                                }
                                if flip && y0.val() == 0 {
                                    lemma_negp_zero();
                                }
                                assert(rootp(y.val(), cv));
                                assert forall|a: AffV|
                                    aff_valid(a) && !a.inf && encoded_x(s) == a.x && encoded_sign(
                                        s,
                                    ) == (a.y % 2 == 1) implies res.av() == a by {
                                    assert(rootp(a.y, cv));
                                    if a.y == y0.val() {
                                        assert(y.val() == a.y);
                                    } else {
                                        assert(a.y == negp(y0.val()));
                                        if y0.val() == 0 {
                                            lemma_negp_zero();
                                        } else {
                                            lemma_negp_parity(y0.val());
                                        }
                                        assert(y.val() == a.y);
                                    }
                                }
                            }
                            Some(res)
                        },
                    }
                }
            },
        }
    }

    /// The compressed round trip: encoding any encodable point and decoding
    /// the bytes returns the point unchanged, as the contract states.
    pub fn codec_roundtrip(&self) -> (r: Option<G1Affine>)
        requires
            self.wf(),
            aff_valid(self.av()),
        ensures
            r matches Some(q) && q.av() == self.av(),
    {
        let bytes = self.to_bytes();
        let r = G1Affine::from_bytes(&bytes);
        proof {
            if self.av().inf {
                assert(0u8 & 0x7f == 0) by (bit_vector);
                assert(enc_clear(zero32()) =~= zero32());
                assert(encoded_x(bytes.0@) == 0);
                assert(0u8 & 0x80 == 0) by (bit_vector);
                assert(!encoded_sign(bytes.0@));
            }
        }
        r
    }

    /// Decoding performs the full canonical checks; there is no cheaper
    /// unchecked path.
    pub fn from_bytes_unchecked(bytes: &G1Compressed) -> (r: Option<G1Affine>)
        ensures
            r is Some <==> decode_ok(bytes.0@),
            r matches Some(a) ==> a.wf() && decoded_point(bytes.0@, a.av()) && aff_on_curve(
                a.av(),
            ),
    {
        G1Affine::from_bytes(bytes)
    }
}

/// Normalizing a Jacobian curve point by the square and cube of an inverse
/// of `z` lands on the affine curve: `(y z^-3)^2 = (x z^-2)^3 + 3`.
proof fn lemma_normalize_on_curve(x: int, y: int, z: int, zi: int)
    requires
        0 <= x < fq_p(),
        0 <= y < fq_p(),
        0 <= zi < fq_p(),
        mulp(z, zi) == 1,
        mulp(y, y) == addp(
            mulp(mulp(x, x), x),
            mulp(3, mulp(mulp(mulp(z, z), mulp(z, z)), mulp(z, z))),
        ),
    ensures
        mulp(mulp(y, mulp(mulp(zi, zi), zi)), mulp(y, mulp(mulp(zi, zi), zi))) == addp(
            mulp(mulp(mulp(x, mulp(zi, zi)), mulp(x, mulp(zi, zi))), mulp(x, mulp(zi, zi))),
            3,
        ),
{
    let z2 = mulp(z, z);
    let z4 = mulp(z2, z2);
    let z6 = mulp(z4, z2);
    let i2 = mulp(zi, zi);
    let i3 = mulp(i2, zi);
    let i4 = mulp(i2, i2);
    let i6 = mulp(i3, i3);
    let xx = mulp(x, x);
    let x3 = mulp(xx, x);
    lemma_small(1);
    assert(mulp(1, 1) == 1);
    assert(mulp(z2, i2) == 1) by {
        lemma_mulp_shuffle4(z, z, zi, zi);
    }
    assert(mulp(z4, i4) == 1) by {
        lemma_mulp_shuffle4(z2, z2, i2, i2);
    }
    assert(i6 == mulp(i4, i2)) by {
        lemma_mulp_shuffle4(i2, zi, i2, zi);
    }
    assert(mulp(z6, i6) == 1) by {
        lemma_mulp_shuffle4(z4, z2, i4, i2);
    }
    let yp = mulp(y, i3);
    assert(mulp(yp, yp) == mulp(mulp(y, y), i6)) by {
        lemma_mulp_shuffle4(y, i3, y, i3);
    }
    assert(mulp(mulp(y, y), i6) == addp(mulp(x3, i6), mulp(mulp(3, z6), i6))) by {
        lemma_mulp_distrib(x3, mulp(3, z6), i6);
    }
    assert(mulp(mulp(3, z6), i6) == 3) by {
        lemma_mulp_assoc(3, z6, i6);
        lemma_mulp_by_one(3);
    }
    let xp = mulp(x, i2);
    assert(mulp(xp, xp) == mulp(xx, i4)) by {
        lemma_mulp_shuffle4(x, i2, x, i2);
    }
    assert(mulp(mulp(xx, i4), xp) == mulp(x3, i6)) by {
        lemma_mulp_shuffle4(xx, i4, x, i2);
    }
}

/// Scaling by the square and cube of an inverse is undone by
/// cross-multiplying with the square and cube of the original.
proof fn lemma_normalize(x: int, y: int, z: int, zi: int)
    requires
        0 <= x < fq_p(),
        0 <= y < fq_p(),
        mulp(z, zi) == 1,
    ensures
        mulp(mulp(x, mulp(zi, zi)), mulp(z, z)) == x,
        mulp(mulp(mulp(y, mulp(mulp(zi, zi), zi)), z), mulp(z, z)) == y,
{
    let p = fq_p();
    let i2 = mulp(zi, zi);
    let z2 = mulp(z, z);
    assert(mulp(i2, z2) == 1) by {
        lemma_mulp_noop(zi * zi, z * z);
        assert((zi * zi) * (z * z) == (z * zi) * (z * zi)) by (nonlinear_arith);
        lemma_mulp_noop(z * zi, z * zi);
        lemma_small(1);
    }
    assert(mulp(mulp(x, i2), z2) == x) by {
        lemma_mulp_assoc(x, i2, z2);
        lemma_small(x);
    }
    let i3 = mulp(i2, zi);
    assert(mulp(zi, z) == 1) by {
        assert(zi * z == z * zi) by (nonlinear_arith);
    }
    assert(mulp(i3, z) == mulp(i2, mulp(zi, z))) by {
        lemma_mulp_assoc(i2, zi, z);
    }
    assert(mulp(i2, 1) == i2) by {
        lemma_mulp_reduced(zi, zi);
        lemma_small(i2);
    }
    assert(mulp(mulp(mulp(y, i3), z), z2) == y) by {
        lemma_mulp_assoc(y, i3, z);
        lemma_mulp_assoc(y, mulp(i3, z), z2);
        lemma_mulp_assoc(y, i2, z2);
        lemma_small(y);
    }
}

/// The identity is neutral on either side of the addition law.
pub proof fn lemma_add_identity(p: JacV)
    ensures
        jac_add(jac_identity(), p) == p,
        jac_eq(jac_add(p, jac_identity()), p),
{
}

/// Adding a point to its negation gives the identity.  The hypotheses say
/// the point is a genuine finite point: its `y` and `z` are invertible
/// residues, which holds of every finite point of the prime-order group.
pub proof fn lemma_add_inverse(p: JacV)
    requires
        jac_wf(p),
        p.z != 0,
        unitp(p.y),
        unitp(p.z),
    ensures
        jac_add(p, jac_neg(p)) == jac_identity(),
{
    let q = jac_neg(p);
    let z1z1 = mulp(p.z, p.z);
    let s1 = mulp(mulp(p.y, p.z), z1z1);
    let s2 = mulp(mulp(q.y, p.z), z1z1);
    assert(s2 == negp(s1)) by {
        lemma_mulp_neg(p.y, p.z);
        lemma_mulp_reduced(p.y, p.z);
        lemma_mulp_neg(mulp(p.y, p.z), z1z1);
    }
    assert(s1 != s2) by {
        lemma_unit_mulp(p.y, p.z);
        lemma_unit_mulp(p.z, p.z);
        lemma_unit_mulp(mulp(p.y, p.z), z1z1);
        lemma_unit_nonzero(s1);
        lemma_mulp_reduced(mulp(p.y, p.z), z1z1);
        lemma_small(s1);
        if s1 == s2 {
            assert(negp(s1) == fq_p() - s1);
            assert(fq_p() % 2 == 1);
        }
    }
}

/// Adding a point to itself dispatches to doubling.
pub proof fn lemma_add_self_is_double(p: JacV)
    ensures
        jac_eq(jac_add(p, p), jac_double(p)),
{
    if p.z == 0 {
        assert(jac_double(p).z == mulp(addp(p.y, p.y), 0));
        assert(mulp(addp(p.y, p.y), 0) == 0) by {
            assert(addp(p.y, p.y) * 0 == 0) by (nonlinear_arith);
            lemma_small(0);
        }
    }
}

/// The scalar zero maps every point to the identity.
pub proof fn lemma_scalar_zero(p: JacV)
    ensures
        mul_bits(p, (Fr { l0: 0, l1: 0, l2: 0, l3: 0 }), 256) == jac_identity(),
{
    lemma_scalar_zero_rec(p, 256);
}

proof fn lemma_scalar_zero_rec(p: JacV, n: int)
    requires
        0 <= n <= 256,
    ensures
        mul_bits(p, (Fr { l0: 0, l1: 0, l2: 0, l3: 0 }), n) == jac_identity(),
    decreases n,
{
    if n > 0 {
        lemma_scalar_zero_rec(p, n - 1);
        assert forall|s: u64| s < 64 implies ((0u64 >> s) & 1) == 0 by {
            assert(s < 64 ==> ((0u64 >> s) & 1) == 0) by (bit_vector);
        }
    }
}

/// The scalar one maps every point to itself.
pub proof fn lemma_scalar_one(p: JacV)
    ensures
        mul_bits(p, (Fr { l0: 1, l1: 0, l2: 0, l3: 0 }), 256) == p,
{
    lemma_scalar_one_rec(p, 256);
}

proof fn lemma_scalar_one_rec(p: JacV, n: int)
    requires
        1 <= n <= 256,
    ensures
        mul_bits(p, (Fr { l0: 1, l1: 0, l2: 0, l3: 0 }), n) == p,
    decreases n,
{
    let one = Fr { l0: 1, l1: 0, l2: 0, l3: 0 };
    if n == 1 {
        assert((1u64 >> 0) & 1 == 1) by (bit_vector);
        assert(fr_bit(one, 0));
        assert(mul_bits(p, one, 0) == jac_identity());
        assert(mul_bits(p, one, 1) == jac_add(jac_identity(), p));
    } else {
        lemma_scalar_one_rec(p, n - 1);
        assert forall|s: u64| 1 <= s < 64 implies ((1u64 >> s) & 1) == 0 by {
            assert(1 <= s < 64 ==> ((1u64 >> s) & 1) == 0) by (bit_vector);
        }
        assert forall|s: u64| s < 64 implies ((0u64 >> s) & 1) == 0 by {
            assert(s < 64 ==> ((0u64 >> s) & 1) == 0) by (bit_vector);
        }
        assert(!fr_bit(one, n - 1));
    }
}

/// Negation preserves curve membership.
pub proof fn lemma_neg_on_curve(p: JacV)
    requires
        jac_wf(p),
        jac_on_curve(p),
    ensures
        jac_on_curve(jac_neg(p)),
{
    lemma_negp_sq(p.y);
}

} // verus!
