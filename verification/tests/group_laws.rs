use bn256_group::fr::Fr;
use bn256_group::g1::G1;
use bn256_group::g2::G2;

fn g1_multiple(n: u64) -> G1 {
    let g = G1::generator();
    let mut acc = G1::identity();
    let mut i = 0u64;
    while i < n {
        acc = acc.add(&g);
        i += 1;
    }
    acc
}

fn g2_multiple(n: u64) -> G2 {
    let g = G2::generator();
    let mut acc = G2::identity();
    let mut i = 0u64;
    while i < n {
        acc = acc.add(&g);
        i += 1;
    }
    acc
}

#[test]
fn g1_generator_is_on_curve() {
    assert!(G1::generator().is_on_curve());
}

#[test]
fn g2_generator_is_on_curve() {
    assert!(G2::generator().is_on_curve());
}

#[test]
fn g1_identity_is_neutral() {
    let g = G1::generator();
    let id = G1::identity();
    assert!(g.add(&id).equals(&g));
    assert!(id.add(&g).equals(&g));
    assert!(id.add(&id).equals(&id));
}

#[test]
fn g2_identity_is_neutral() {
    let g = G2::generator();
    let id = G2::identity();
    assert!(g.add(&id).equals(&g));
    assert!(id.add(&g).equals(&g));
    assert!(id.add(&id).equals(&id));
}

#[test]
fn g1_add_inverse_gives_identity() {
    for n in 1u64..6 {
        let p = g1_multiple(n);
        assert!(p.add(&p.neg()).equals(&G1::identity()));
    }
}

#[test]
fn g2_add_inverse_gives_identity() {
    for n in 1u64..5 {
        let p = g2_multiple(n);
        assert!(p.add(&p.neg()).equals(&G2::identity()));
    }
}

#[test]
fn g1_addition_commutes() {
    let p = g1_multiple(1);
    let q = g1_multiple(3);
    assert!(p.add(&q).equals(&q.add(&p)));
}

#[test]
fn g2_addition_commutes() {
    let p = g2_multiple(1);
    let q = g2_multiple(3);
    assert!(p.add(&q).equals(&q.add(&p)));
}

#[test]
fn g1_addition_associates() {
    let p = g1_multiple(1);
    let q = g1_multiple(2);
    let r = g1_multiple(5);
    assert!(p.add(&q).add(&r).equals(&p.add(&q.add(&r))));
}

#[test]
fn g2_addition_associates() {
    let p = g2_multiple(1);
    let q = g2_multiple(2);
    let r = g2_multiple(5);
    assert!(p.add(&q).add(&r).equals(&p.add(&q.add(&r))));
}

#[test]
fn g1_double_is_self_addition() {
    for n in 0u64..5 {
        let p = g1_multiple(n);
        assert!(p.double().equals(&p.add(&p)));
    }
}

#[test]
fn g2_double_is_self_addition() {
    for n in 0u64..4 {
        let p = g2_multiple(n);
        assert!(p.double().equals(&p.add(&p)));
    }
}

#[test]
fn g1_scalar_mul_matches_repeated_addition() {
    let g = G1::generator();
    for n in 0u64..11 {
        let by_ladder = g.scalar_mul(&Fr::from_u64(n));
        let by_addition = g1_multiple(n);
        assert!(by_ladder.equals(&by_addition));
    }
}

#[test]
fn g2_scalar_mul_matches_repeated_addition() {
    let g = G2::generator();
    for n in 0u64..7 {
        let by_ladder = g.scalar_mul(&Fr::from_u64(n));
        let by_addition = g2_multiple(n);
        assert!(by_ladder.equals(&by_addition));
    }
}

#[test]
fn g1_scalar_zero_and_one() {
    let g = G1::generator();
    assert!(g.scalar_mul(&Fr::from_u64(0)).equals(&G1::identity()));
    assert!(g.scalar_mul(&Fr::from_u64(1)).equals(&g));
}

#[test]
fn g2_scalar_zero_and_one() {
    let g = G2::generator();
    assert!(g.scalar_mul(&Fr::from_u64(0)).equals(&G2::identity()));
    assert!(g.scalar_mul(&Fr::from_u64(1)).equals(&g));
}

#[test]
fn g1_group_operations_stay_on_curve() {
    let g = G1::generator();
    let mut p = g;
    for n in 2u64..8 {
        p = p.add(&g);
        assert!(p.is_on_curve());
        assert!(p.double().is_on_curve());
        assert!(p.neg().is_on_curve());
        assert!(g.scalar_mul(&Fr::from_u64(n)).is_on_curve());
    }
}

#[test]
fn g2_group_operations_stay_on_curve() {
    let g = G2::generator();
    let mut p = g;
    for n in 2u64..6 {
        p = p.add(&g);
        assert!(p.is_on_curve());
        assert!(p.double().is_on_curve());
        assert!(p.neg().is_on_curve());
        assert!(g.scalar_mul(&Fr::from_u64(n)).is_on_curve());
    }
}

#[test]
fn g1_affine_jacobian_conversions_agree() {
    for n in 0u64..6 {
        let p = g1_multiple(n);
        let back = p.to_affine().to_curve();
        assert!(back.equals(&p));
    }
}

#[test]
fn g2_affine_jacobian_conversions_agree() {
    for n in 0u64..5 {
        let p = g2_multiple(n);
        let back = p.to_affine().to_curve();
        assert!(back.equals(&p));
    }
}
