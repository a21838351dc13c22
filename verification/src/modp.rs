//! Integer model of arithmetic modulo the base-field prime.
//!
//! Field elements are modelled as mathematical integers in `[0, p)`; every
//! executable field operation carries a contract phrased with the reduced
//! operations below.

use vstd::prelude::*;
use vstd::arithmetic::div_mod::*;

verus! {

/// The prime modulus of the base field.
pub open spec fn fq_p() -> int {
    0x30644e72e131a029b85045b68181585d97816a916871ca8d3c208c16d87cfd47int
}

/// Addition reduced modulo the base-field prime.
pub open spec fn addp(a: int, b: int) -> int {
    (a + b) % fq_p()
}

/// Subtraction reduced modulo the base-field prime (inputs already reduced).
pub open spec fn subp(a: int, b: int) -> int {
    (a + fq_p() - b) % fq_p()
}

/// Multiplication reduced modulo the base-field prime.
pub open spec fn mulp(a: int, b: int) -> int {
    (a * b) % fq_p()
}

/// Additive inverse modulo the base-field prime.
pub open spec fn negp(a: int) -> int {
    (fq_p() - a) % fq_p()
}

/// A reduced residue.
pub open spec fn reduced(a: int) -> bool {
    0 <= a < fq_p()
}

/// `a` has a multiplicative inverse modulo the prime.  For a prime modulus
/// this holds of every nonzero residue, but the latter fact is number
/// theory that the contracts here never assume; laws that need invertibility
/// state it explicitly.
pub open spec fn unitp(a: int) -> bool {
    exists|b: int| reduced(b) && mulp(a, b) == 1
}

/// `y` is a square root of `c` modulo the prime.
pub open spec fn rootp(y: int, c: int) -> bool {
    reduced(y) && mulp(y, y) == c
}

/// The value of four little-endian 64-bit limbs.
pub open spec fn limbs_val(l0: u64, l1: u64, l2: u64, l3: u64) -> int {
    l0 + l1 * 0x10000000000000000int + l2 * 0x100000000000000000000000000000000int
        + l3 * 0x1000000000000000000000000000000000000000000000000int
}

/// The value of a 32-byte little-endian sequence.
pub open spec fn le32_val(s: Seq<u8>) -> int {
    s[0] + s[1] * 0x100 + s[2] * 0x10000 + s[3] * 0x1000000 + s[4] * 0x100000000int
        + s[5] * 0x10000000000int + s[6] * 0x1000000000000int + s[7] * 0x100000000000000int
        + s[8] * 0x10000000000000000int + s[9] * 0x1000000000000000000int
        + s[10] * 0x100000000000000000000int + s[11] * 0x10000000000000000000000int
        + s[12] * 0x1000000000000000000000000int + s[13] * 0x100000000000000000000000000int
        + s[14] * 0x10000000000000000000000000000int + s[15] * 0x1000000000000000000000000000000int
        + s[16] * 0x100000000000000000000000000000000int
        + s[17] * 0x10000000000000000000000000000000000int
        + s[18] * 0x1000000000000000000000000000000000000int
        + s[19] * 0x100000000000000000000000000000000000000int
        + s[20] * 0x10000000000000000000000000000000000000000int
        + s[21] * 0x1000000000000000000000000000000000000000000int
        + s[22] * 0x100000000000000000000000000000000000000000000int
        + s[23] * 0x10000000000000000000000000000000000000000000000int
        + s[24] * 0x1000000000000000000000000000000000000000000000000int
        + s[25] * 0x100000000000000000000000000000000000000000000000000int
        + s[26] * 0x10000000000000000000000000000000000000000000000000000int
        + s[27] * 0x1000000000000000000000000000000000000000000000000000000int
        + s[28] * 0x100000000000000000000000000000000000000000000000000000000int
        + s[29] * 0x10000000000000000000000000000000000000000000000000000000000int
        + s[30] * 0x1000000000000000000000000000000000000000000000000000000000000int
        + s[31] * 0x100000000000000000000000000000000000000000000000000000000000000int
}

/// Multiplying reduced residues commutes with first reducing the factors.
pub proof fn lemma_mulp_noop(x: int, y: int)
    ensures
        mulp(x % fq_p(), y % fq_p()) == (x * y) % fq_p(),
{
    lemma_mul_mod_noop_general(x, y, fq_p());
}

/// Reducing a value below the modulus leaves it unchanged.
pub proof fn lemma_small(x: int)
    requires
        0 <= x < fq_p(),
    ensures
        x % fq_p() == x,
{
    lemma_small_mod(x as nat, fq_p() as nat);
}

/// A unit is a nonzero residue.
pub proof fn lemma_unit_nonzero(a: int)
    requires
        unitp(a),
    ensures
        a % fq_p() != 0,
{
    let b = choose|b: int| reduced(b) && mulp(a, b) == 1;
    if a % fq_p() == 0 {
        lemma_mulp_noop(a, b);
        lemma_small(b);
        assert(mulp(a, b) == (0 * b) % fq_p());
        assert((0int * b) == 0) by (nonlinear_arith);
    }
}

/// Units are closed under reduced multiplication.
pub proof fn lemma_unit_mulp(a: int, b: int)
    requires
        unitp(a),
        unitp(b),
    ensures
        unitp(mulp(a, b)),
{
    let ai = choose|x: int| reduced(x) && mulp(a, x) == 1;
    let bi = choose|x: int| reduced(x) && mulp(b, x) == 1;
    let w = mulp(ai, bi);
    assert(reduced(w)) by {
        lemma_mod_bound(ai * bi, fq_p());
    }
    assert(mulp(mulp(a, b), w) == 1) by {
        lemma_mulp_noop(a * b, ai * bi);
        assert((a * b) * (ai * bi) == (a * ai) * (b * bi)) by (nonlinear_arith);
        lemma_mulp_noop(a * ai, b * bi);
        lemma_small(1);
    }
}

/// A reduced product is a reduced residue.
pub proof fn lemma_mulp_reduced(a: int, b: int)
    ensures
        0 <= mulp(a, b) < fq_p(),
{
    lemma_mod_bound(a * b, fq_p());
}

/// Reduced multiplication is associative.
pub proof fn lemma_mulp_assoc(a: int, b: int, c: int)
    ensures
        mulp(mulp(a, b), c) == mulp(a, mulp(b, c)),
{
    lemma_mul_mod_noop_general(a * b, c, fq_p());
    lemma_mul_mod_noop_general(a, b * c, fq_p());
    assert((a * b) * c == a * (b * c)) by (nonlinear_arith);
}

/// A negated factor negates the reduced product.
pub proof fn lemma_mulp_neg(a: int, b: int)
    requires
        0 <= a < fq_p(),
    ensures
        mulp(negp(a), b) == negp(mulp(a, b)),
{
    let p = fq_p();
    if a == 0 {
        lemma_mod_multiples_vanish(1, 0, p);
        assert(negp(0) == p % p);
        assert(0int * b == 0) by (nonlinear_arith);
        lemma_small(0);
        assert(mulp(0, b) == 0);
    } else {
        lemma_small(p - a);
        assert(mulp(negp(a), b) == ((p - a) * b) % p);
        assert((p - a) * b == p * b + (-(a * b))) by (nonlinear_arith);
        lemma_mod_multiples_vanish(b, -(a * b), p);
        lemma_mod_multiples_vanish(1, -((a * b) % p), p);
        lemma_sub_mod_noop_right(0, a * b, p);
        assert((0 - (a * b) % p) % p == (0 - a * b) % p);
        assert(negp(mulp(a, b)) == (p + (-((a * b) % p))) % p);
    }
}

/// Negation preserves the square.
pub proof fn lemma_negp_sq(a: int)
    requires
        0 <= a < fq_p(),
    ensures
        mulp(negp(a), negp(a)) == mulp(a, a),
{
    let p = fq_p();
    if a == 0 {
        lemma_mod_multiples_vanish(1, 0, p);
        assert(negp(0) == p % p);
    } else {
        lemma_small(p - a);
        assert(negp(a) == p - a);
        assert((p - a) * (p - a) == p * (p - 2 * a) + a * a) by (nonlinear_arith);
        lemma_mod_multiples_vanish(p - 2 * a, a * a, p);
    }
}

/// Adding reduced residues commutes with first reducing the addends.
pub proof fn lemma_addp_noop(x: int, y: int)
    ensures
        addp(x % fq_p(), y % fq_p()) == (x + y) % fq_p(),
{
    lemma_add_mod_noop(x, y, fq_p());
}

/// Subtracting reduced residues commutes with first reducing the operands.
pub proof fn lemma_subp_noop(x: int, y: int)
    ensures
        subp(x % fq_p(), y % fq_p()) == (x - y) % fq_p(),
{
    let p = fq_p();
    lemma_sub_mod_noop(x, y, p);
    lemma_mod_multiples_vanish(1, x % p - y % p, p);
}

/// Multiplying a reduced residue by one is the identity.
pub proof fn lemma_mulp_by_one(a: int)
    requires
        0 <= a < fq_p(),
    ensures
        mulp(a, 1) == a,
{
    lemma_small(a);
}

/// Factors of a reduced four-way product can be regrouped.
pub proof fn lemma_mulp_shuffle4(a: int, b: int, c: int, d: int)
    ensures
        mulp(mulp(a, b), mulp(c, d)) == mulp(mulp(a, c), mulp(b, d)),
{
    lemma_mulp_noop(a * b, c * d);
    lemma_mulp_noop(a * c, b * d);
    assert((a * b) * (c * d) == (a * c) * (b * d)) by (nonlinear_arith);
}

/// Reduced multiplication distributes over reduced addition.
pub proof fn lemma_mulp_distrib(u: int, v: int, w: int)
    ensures
        mulp(addp(u, v), w) == addp(mulp(u, w), mulp(v, w)),
{
    lemma_mul_mod_noop_general(u + v, w, fq_p());
    assert((u + v) * w == u * w + v * w) by (nonlinear_arith);
    lemma_addp_noop(u * w, v * w);
}

/// Summands of a reduced four-way sum can be regrouped.
pub proof fn lemma_addp_shuffle4(a: int, b: int, c: int, d: int)
    ensures
        addp(addp(a, b), addp(c, d)) == addp(addp(a, c), addp(b, d)),
{
    lemma_addp_noop(a + b, c + d);
    lemma_addp_noop(a + c, b + d);
}

/// A difference of reduced sums is the sum of the differences.
pub proof fn lemma_addp_subp_mix(a: int, b: int, c: int, d: int)
    ensures
        subp(addp(a, b), addp(c, d)) == addp(subp(a, c), subp(b, d)),
{
    let p = fq_p();
    lemma_subp_noop(a + b, c + d);
    lemma_addp_noop(a + p - c, b + p - d);
    lemma_mod_multiples_vanish(2, a + b - c - d, p);
}

/// Subtraction of negations is the negation of the subtraction.
pub proof fn lemma_subp_of_negs(u: int, v: int)
    requires
        0 <= u < fq_p(),
        0 <= v < fq_p(),
    ensures
        subp(negp(u), negp(v)) == negp(subp(u, v)),
{
    let p = fq_p();
    lemma_sub_mod_noop(p - u, p - v, p);
    lemma_mod_multiples_vanish(1, (p - u) % p - (p - v) % p, p);
    lemma_mod_multiples_vanish(1, v - u, p);
    lemma_mod_multiples_vanish(1, u - v, p);
    let e = (u + p - v) % p;
    assert(e == (u - v) % p);
    lemma_mod_multiples_vanish(1, -e, p);
    lemma_sub_mod_noop_right(0, u - v, p);
    assert((0 - (u - v) % p) % p == (0 - (u - v)) % p);
    assert(subp(negp(u), negp(v)) == (v - u) % p);
    assert(negp(subp(u, v)) == (p - e) % p);
}

/// Addition of negations is the negation of the addition.
pub proof fn lemma_addp_of_negs(u: int, v: int)
    requires
        0 <= u < fq_p(),
        0 <= v < fq_p(),
    ensures
        addp(negp(u), negp(v)) == negp(addp(u, v)),
{
    let p = fq_p();
    lemma_add_mod_noop(p - u, p - v, p);
    lemma_mod_multiples_vanish(2, -u - v, p);
    let e = (u + v) % p;
    lemma_mod_multiples_vanish(1, -e, p);
    lemma_sub_mod_noop_right(0, u + v, p);
    assert((0 - (u + v) % p) % p == (0 - (u + v)) % p);
    assert(addp(negp(u), negp(v)) == (p - u + (p - v)) % p);
    assert(negp(addp(u, v)) == (p - e) % p);
}

/// A negated residue is a reduced residue.
pub proof fn lemma_negp_reduced(a: int)
    ensures
        0 <= negp(a) < fq_p(),
{
    lemma_mod_bound(fq_p() - a, fq_p());
}

/// Negation is an involution on reduced residues.
pub proof fn lemma_negp_negp(a: int)
    requires
        0 <= a < fq_p(),
    ensures
        negp(negp(a)) == a,
{
    let p = fq_p();
    if a == 0 {
        lemma_mod_multiples_vanish(1, 0, p);
        assert(negp(0) == p % p);
    } else {
        lemma_small(p - a);
        assert(negp(a) == p - a);
        lemma_small(a);
    }
}

/// The negation of a square root is a square root.
pub proof fn lemma_negp_root(y: int, c: int)
    requires
        rootp(y, c),
    ensures
        rootp(negp(y), c),
{
    lemma_negp_sq(y);
    lemma_mod_bound(fq_p() - y, fq_p());
}

/// Negating the zero residue gives zero.
pub proof fn lemma_negp_zero()
    ensures
        negp(0) == 0,
{
    lemma_mod_multiples_vanish(1, 0, fq_p());
}

/// Negating a nonzero residue flips its parity, because the modulus is odd.
pub proof fn lemma_negp_parity(a: int)
    requires
        0 < a < fq_p(),
    ensures
        negp(a) == fq_p() - a,
        (negp(a) % 2 == 1) == !(a % 2 == 1),
{
    let p = fq_p();
    lemma_small(p - a);
    lemma_mod_bound(a, 2);
    let par = a % 2;
    lemma_fundamental_div_mod(a, 2);
    lemma_fundamental_div_mod(p, 2);
    assert(p % 2 == 1);
    assert(p - a == 2 * (p / 2 - a / 2) + (1 - par));
    lemma_fundamental_div_mod_converse(p - a, 2, p / 2 - a / 2, 1 - par);
}

} // verus!
