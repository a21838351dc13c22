//! The quadratic extension of the base field, `Fq2 = Fq[u] / (u^2 + 1)`.
//!
//! An element is a pair of canonical base-field elements.  Addition,
//! subtraction, multiplication and negation are computed from the base-field
//! wrappers and verified against the pair model; only the square root and the
//! inverse, which have no short componentwise form, are delegated to
//! `ark-bn254` behind trusted wrappers.

use vstd::prelude::*;
use vstd::arithmetic::div_mod::{lemma_mul_mod_noop_general, lemma_mod_bound};
use vstd::arithmetic::mul::{
    lemma_mul_is_associative, lemma_mul_is_commutative, lemma_mul_is_distributive_add,
    lemma_mul_is_distributive_sub,
};
use ark_ff::Field;
use ark_ff::PrimeField;
use crate::modp::{
    fq_p, addp, subp, mulp, negp, lemma_small, lemma_addp_noop, lemma_subp_noop,
    lemma_addp_of_negs, lemma_subp_of_negs, lemma_mulp_neg, lemma_negp_zero, lemma_mulp_distrib,
    lemma_addp_shuffle4, lemma_addp_subp_mix,
};
use crate::fq::{Fq, fq_add, fq_sub, fq_mul, fq_cond_neg};

verus! {

/// The integer model of an extension-field element: a pair of residues.
pub ghost struct F2V {
    pub c0: int,
    pub c1: int,
}

/// Both components are reduced residues.
pub open spec fn wf2(a: F2V) -> bool {
    0 <= a.c0 < fq_p() && 0 <= a.c1 < fq_p()
}

/// The additive identity of the extension field.
pub open spec fn zero2() -> F2V {
    F2V { c0: 0, c1: 0 }
}

/// The multiplicative identity of the extension field.
pub open spec fn one2() -> F2V {
    F2V { c0: 1, c1: 0 }
}

/// Componentwise addition.
pub open spec fn add2(a: F2V, b: F2V) -> F2V {
    F2V { c0: addp(a.c0, b.c0), c1: addp(a.c1, b.c1) }
}

/// Componentwise subtraction.
pub open spec fn sub2(a: F2V, b: F2V) -> F2V {
    F2V { c0: subp(a.c0, b.c0), c1: subp(a.c1, b.c1) }
}

/// Multiplication in `Fq[u] / (u^2 + 1)`: the schoolbook product with
/// `u^2 = -1` folded into the constant term.
pub open spec fn mul2(a: F2V, b: F2V) -> F2V {
    F2V {
        c0: subp(mulp(a.c0, b.c0), mulp(a.c1, b.c1)),
        c1: addp(mulp(a.c0, b.c1), mulp(a.c1, b.c0)),
    }
}

/// Componentwise negation.
pub open spec fn neg2(a: F2V) -> F2V {
    F2V { c0: negp(a.c0), c1: negp(a.c1) }
}

/// `z` is a square root of `c` in the extension field.
pub open spec fn root2(z: F2V, c: F2V) -> bool {
    wf2(z) && mul2(z, z) == c
}

/// `a` has a multiplicative inverse in the extension field.  This holds of
/// every nonzero element, but that is number theory the contracts here never
/// assume; laws that need invertibility state it explicitly.
pub open spec fn unit2(a: F2V) -> bool {
    exists|b: F2V| wf2(b) && mul2(a, b) == one2()
}

/// A product of pairs is a reduced pair.
pub proof fn lemma_mul2_wf(a: F2V, b: F2V)
    ensures
        wf2(mul2(a, b)),
{
    lemma_mod_bound(a.c0 * b.c0 - a.c1 * b.c1, fq_p());
    lemma_mod_bound(mulp(a.c0, b.c0) + fq_p() - mulp(a.c1, b.c1), fq_p());
    lemma_mod_bound(mulp(a.c0, b.c1) + mulp(a.c1, b.c0), fq_p());
}

/// Extension-field multiplication is commutative.
pub proof fn lemma_mul2_comm(a: F2V, b: F2V)
    ensures
        mul2(a, b) == mul2(b, a),
{
    assert(a.c0 * b.c0 == b.c0 * a.c0 && a.c1 * b.c1 == b.c1 * a.c1 && a.c0 * b.c1 == b.c1 * a.c0
        && a.c1 * b.c0 == b.c0 * a.c1) by (nonlinear_arith);
}

/// Extension-field multiplication is associative.
pub proof fn lemma_mul2_assoc(a: F2V, b: F2V, c: F2V)
    ensures
        mul2(mul2(a, b), c) == mul2(a, mul2(b, c)),
{
    let p = fq_p();
    let (a0, a1, b0, b1, c0, c1) = (a.c0, a.c1, b.c0, b.c1, c.c0, c.c1);
    lemma_subp_noop(a0 * b0, a1 * b1);
    lemma_addp_noop(a0 * b1, a1 * b0);
    lemma_mul_mod_noop_general(a0 * b0 - a1 * b1, c0, p);
    lemma_mul_mod_noop_general(a0 * b0 - a1 * b1, c1, p);
    lemma_mul_mod_noop_general(a0 * b1 + a1 * b0, c0, p);
    lemma_mul_mod_noop_general(a0 * b1 + a1 * b0, c1, p);
    lemma_subp_noop((a0 * b0 - a1 * b1) * c0, (a0 * b1 + a1 * b0) * c1);
    lemma_addp_noop((a0 * b0 - a1 * b1) * c1, (a0 * b1 + a1 * b0) * c0);
    lemma_subp_noop(b0 * c0, b1 * c1);
    lemma_addp_noop(b0 * c1, b1 * c0);
    lemma_mul_mod_noop_general(a0, b0 * c0 - b1 * c1, p);
    lemma_mul_mod_noop_general(a1, b0 * c0 - b1 * c1, p);
    lemma_mul_mod_noop_general(a0, b0 * c1 + b1 * c0, p);
    lemma_mul_mod_noop_general(a1, b0 * c1 + b1 * c0, p);
    lemma_subp_noop(a0 * (b0 * c0 - b1 * c1), a1 * (b0 * c1 + b1 * c0));
    lemma_addp_noop(a0 * (b0 * c1 + b1 * c0), a1 * (b0 * c0 - b1 * c1));
    lemma_mul_is_commutative(a0 * b0 - a1 * b1, c0);
    lemma_mul_is_commutative(a0 * b0 - a1 * b1, c1);
    lemma_mul_is_commutative(a0 * b1 + a1 * b0, c0);
    lemma_mul_is_commutative(a0 * b1 + a1 * b0, c1);
    lemma_mul_is_distributive_sub(c0, a0 * b0, a1 * b1);
    lemma_mul_is_distributive_sub(c1, a0 * b0, a1 * b1);
    lemma_mul_is_distributive_add(c0, a0 * b1, a1 * b0);
    lemma_mul_is_distributive_add(c1, a0 * b1, a1 * b0);
    lemma_mul_is_distributive_sub(a0, b0 * c0, b1 * c1);
    lemma_mul_is_distributive_sub(a1, b0 * c0, b1 * c1);
    lemma_mul_is_distributive_add(a0, b0 * c1, b1 * c0);
    lemma_mul_is_distributive_add(a1, b0 * c1, b1 * c0);
    lemma_mul_rotate(a0, b0, c0);
    lemma_mul_rotate(a1, b1, c0);
    lemma_mul_rotate(a0, b1, c1);
    lemma_mul_rotate(a1, b0, c1);
    lemma_mul_rotate(a0, b0, c1);
    lemma_mul_rotate(a1, b1, c1);
    lemma_mul_rotate(a0, b1, c0);
    lemma_mul_rotate(a1, b0, c0);
}

/// Rotating a triple product: `z (x y) = x (y z)`.
proof fn lemma_mul_rotate(x: int, y: int, z: int)
    ensures
        z * (x * y) == x * (y * z),
{
    lemma_mul_is_commutative(z, x * y);
    lemma_mul_is_associative(x, y, z);
}

/// Factors of a four-way extension-field product can be regrouped.
pub proof fn lemma_mul2_shuffle4(a: F2V, b: F2V, c: F2V, d: F2V)
    ensures
        mul2(mul2(a, b), mul2(c, d)) == mul2(mul2(a, c), mul2(b, d)),
{
    lemma_mul2_assoc(a, b, mul2(c, d));
    lemma_mul2_assoc(b, c, d);
    lemma_mul2_comm(b, c);
    lemma_mul2_assoc(c, b, d);
    lemma_mul2_assoc(a, c, mul2(b, d));
}

/// Extension-field multiplication distributes over addition.
pub proof fn lemma_mul2_distrib(u: F2V, v: F2V, w: F2V)
    ensures
        mul2(add2(u, v), w) == add2(mul2(u, w), mul2(v, w)),
{
    lemma_mulp_distrib(u.c0, v.c0, w.c0);
    lemma_mulp_distrib(u.c1, v.c1, w.c1);
    lemma_mulp_distrib(u.c0, v.c0, w.c1);
    lemma_mulp_distrib(u.c1, v.c1, w.c0);
    lemma_addp_subp_mix(
        mulp(u.c0, w.c0),
        mulp(v.c0, w.c0),
        mulp(u.c1, w.c1),
        mulp(v.c1, w.c1),
    );
    lemma_addp_shuffle4(
        mulp(u.c0, w.c1),
        mulp(v.c0, w.c1),
        mulp(u.c1, w.c0),
        mulp(v.c1, w.c0),
    );
}

/// Multiplying by the extension-field one is the identity on reduced pairs.
pub proof fn lemma_mul2_by_one(a: F2V)
    requires
        wf2(a),
    ensures
        mul2(a, one2()) == a,
{
    lemma_small(a.c0);
    lemma_small(a.c1);
    lemma_small(0);
    assert(a.c0 * 1 == a.c0 && a.c1 * 1 == a.c1 && a.c0 * 0 == 0 && a.c1 * 0 == 0) by (
    nonlinear_arith);
    lemma_negp_zero();
}

/// Multiplying by the extension-field zero gives zero.
pub proof fn lemma_mul2_zero(b: F2V)
    ensures
        mul2(zero2(), b) == zero2(),
{
    lemma_small(0);
    assert(0int * b.c0 == 0 && 0int * b.c1 == 0) by (nonlinear_arith);
    lemma_negp_zero();
}

/// A negated factor negates the extension-field product.
pub proof fn lemma_mul2_neg(a: F2V, b: F2V)
    requires
        wf2(a),
    ensures
        mul2(neg2(a), b) == neg2(mul2(a, b)),
{
    lemma_mulp_neg(a.c0, b.c0);
    lemma_mulp_neg(a.c1, b.c1);
    lemma_mulp_neg(a.c0, b.c1);
    lemma_mulp_neg(a.c1, b.c0);
    lemma_mod_bound(a.c0 * b.c0, fq_p());
    lemma_mod_bound(a.c1 * b.c1, fq_p());
    lemma_mod_bound(a.c0 * b.c1, fq_p());
    lemma_mod_bound(a.c1 * b.c0, fq_p());
    lemma_subp_of_negs(mulp(a.c0, b.c0), mulp(a.c1, b.c1));
    lemma_addp_of_negs(mulp(a.c0, b.c1), mulp(a.c1, b.c0));
}

/// Units of the extension field are closed under multiplication.
pub proof fn lemma_unit2_mul(a: F2V, b: F2V)
    requires
        unit2(a),
        unit2(b),
    ensures
        unit2(mul2(a, b)),
{
    let ai = choose|x: F2V| wf2(x) && mul2(a, x) == one2();
    let bi = choose|x: F2V| wf2(x) && mul2(b, x) == one2();
    let w = mul2(ai, bi);
    lemma_mul2_wf(ai, bi);
    assert(mul2(mul2(a, b), w) == one2()) by {
        lemma_mul2_assoc(a, b, w);
        lemma_mul2_comm(ai, bi);
        lemma_mul2_assoc(b, bi, ai);
        lemma_mul2_comm(mul2(b, bi), ai);
        lemma_mul2_by_one(ai);
        assert(mul2(b, w) == mul2(b, mul2(bi, ai)));
        assert(mul2(mul2(b, bi), ai) == mul2(ai, one2()));
        lemma_mul2_comm(ai, one2());
    }
}

/// A unit of the extension field is nonzero.
pub proof fn lemma_unit2_nonzero(a: F2V)
    requires
        unit2(a),
    ensures
        a != zero2(),
{
    let b = choose|x: F2V| wf2(x) && mul2(a, x) == one2();
    if a == zero2() {
        lemma_mul2_zero(b);
    }
}

/// Only the zero pair is its own negation, because the modulus is odd.
pub proof fn lemma_neg2_self_zero(a: F2V)
    requires
        wf2(a),
        a == neg2(a),
    ensures
        a == zero2(),
{
    let p = fq_p();
    assert(p % 2 == 1);
    if a.c0 != 0 {
        lemma_small(p - a.c0);
        assert(negp(a.c0) == p - a.c0);
    }
    if a.c1 != 0 {
        lemma_small(p - a.c1);
        assert(negp(a.c1) == p - a.c1);
    }
}

/// An extension-field element: a pair `c0 + c1 * u` of canonical base-field
/// elements.
#[derive(Clone, Copy)]
pub struct Fq2 {
    pub c0: Fq,
    pub c1: Fq,
}

impl Fq2 {
    /// The pair of integers this element stands for.
    pub open spec fn v2(&self) -> F2V {
        F2V { c0: self.c0.val(), c1: self.c1.val() }
    }

    /// Canonical form: both components are reduced.
    pub open spec fn wf(&self) -> bool {
        self.c0.wf() && self.c1.wf()
    }

    /// The additive identity.
    pub fn zero() -> (r: Fq2)
        ensures
            r.wf(),
            r.v2() == zero2(),
    {
        Fq2 { c0: Fq::zero(), c1: Fq::zero() }
    }

    /// The multiplicative identity.
    pub fn one() -> (r: Fq2)
        ensures
            r.wf(),
            r.v2() == one2(),
    {
        Fq2 { c0: Fq::one(), c1: Fq::zero() }
    }

    /// Componentwise equality, which coincides with value equality.
    pub fn equals(&self, other: &Fq2) -> (r: bool)
        ensures
            r == (self.v2() == other.v2()),
    {
        self.c0.equals(&other.c0) && self.c1.equals(&other.c1)
    }

    /// Whether this element is the additive identity.
    pub fn is_zero(&self) -> (r: bool)
        ensures
            r == (self.v2() == zero2()),
    {
        self.c0.is_zero() && self.c1.is_zero()
    }

    /// The parity of the constant term, the bit stored by the compressed
    /// encoding.
    pub fn is_odd(&self) -> (r: bool)
        ensures
            r == (self.v2().c0 % 2 == 1),
    {
        self.c0.is_odd()
    }
}

/// Extension-field addition, componentwise over the base field.
pub fn fq2_add(a: &Fq2, b: &Fq2) -> (r: Fq2)
    requires
        a.wf(),
        b.wf(),
    ensures
        r.wf(),
        r.v2() == add2(a.v2(), b.v2()),
{
    Fq2 { c0: fq_add(&a.c0, &b.c0), c1: fq_add(&a.c1, &b.c1) }
}

/// Extension-field subtraction, componentwise over the base field.
pub fn fq2_sub(a: &Fq2, b: &Fq2) -> (r: Fq2)
    requires
        a.wf(),
        b.wf(),
    ensures
        r.wf(),
        r.v2() == sub2(a.v2(), b.v2()),
{
    Fq2 { c0: fq_sub(&a.c0, &b.c0), c1: fq_sub(&a.c1, &b.c1) }
}

/// Extension-field multiplication with `u^2 = -1`.
pub fn fq2_mul(a: &Fq2, b: &Fq2) -> (r: Fq2)
    requires
        a.wf(),
        b.wf(),
    ensures
        r.wf(),
        r.v2() == mul2(a.v2(), b.v2()),
{
    let t0 = fq_mul(&a.c0, &b.c0);
    let t1 = fq_mul(&a.c1, &b.c1);
    let t2 = fq_mul(&a.c0, &b.c1);
    let t3 = fq_mul(&a.c1, &b.c0);
    Fq2 { c0: fq_sub(&t0, &t1), c1: fq_add(&t2, &t3) }
}

/// Negate the element exactly when the flag is set, componentwise and
/// branch-free.
pub fn fq2_cond_neg(a: &Fq2, flag: bool) -> (r: Fq2)
    requires
        a.wf(),
    ensures
        r.wf(),
        r.v2() == if flag {
            neg2(a.v2())
        } else {
            a.v2()
        },
{
    Fq2 { c0: fq_cond_neg(&a.c0, flag), c1: fq_cond_neg(&a.c1, flag) }
}

/// Relies on `ark_ff::Field::inverse` on `ark_bn254::Fq2`: the multiplicative
/// inverse of a nonzero element, and `None` exactly on zero.
#[verifier::external_body]
pub fn fq2_inv(a: &Fq2) -> (r: Option<Fq2>)
    requires
        a.wf(),
    ensures
        r is Some <==> a.v2() != zero2(),
        r matches Some(y) ==> y.wf() && mul2(a.v2(), y.v2()) == one2(),
{
    let a0 = ark_bn254::Fq::from_bigint(ark_ff::BigInt(a.c0.limbs())).unwrap();
    let a1 = ark_bn254::Fq::from_bigint(ark_ff::BigInt(a.c1.limbs())).unwrap();
    let i = ark_bn254::Fq2::new(a0, a1).inverse()?;
    Some(Fq2 { c0: Fq::from_limbs(i.c0.into_bigint().0), c1: Fq::from_limbs(i.c1.into_bigint().0) })
}

/// Relies on `ark_ff::Field::sqrt` on `ark_bn254::Fq2`: a square root of the
/// input when one exists, `None` when none does.  The two-root bound rests on
/// `Fq2` being a field (the modulus is prime and `u^2 + 1` is irreducible
/// over it), so that a square admits exactly the roots `y` and `-y`.
#[verifier::external_body]
pub fn fq2_sqrt(a: &Fq2) -> (r: Option<Fq2>)
    requires
        a.wf(),
    ensures
        r matches Some(y) ==> y.wf() && root2(y.v2(), a.v2()) && forall|z: F2V|
            root2(z, a.v2()) ==> z == y.v2() || z == neg2(y.v2()),
        r is None ==> forall|z: F2V| !root2(z, a.v2()),
{
    let a0 = ark_bn254::Fq::from_bigint(ark_ff::BigInt(a.c0.limbs())).unwrap();
    let a1 = ark_bn254::Fq::from_bigint(ark_ff::BigInt(a.c1.limbs())).unwrap();
    let s = ark_bn254::Fq2::new(a0, a1).sqrt()?;
    Some(Fq2 { c0: Fq::from_limbs(s.c0.into_bigint().0), c1: Fq::from_limbs(s.c1.into_bigint().0) })
}

} // verus!
