use std::ops::Add;

use ark_bls12_381::{Fq, G1Affine};
use ark_ec::{AffineCurve, ProjectiveCurve};
use ark_ff::{Field, PrimeField};
use ark_std::{One, UniformRand, Zero};
use batch_msm::batch_adder::BatchAdder;
use batch_msm::field::FieldElement;
use batch_msm::point::AffinePoint;

type G1Projective = <G1Affine as AffineCurve>::Projective;

fn fe(value: Fq) -> FieldElement {
    FieldElement { limbs: value.into_repr().0 }
}

fn pt(point: &G1Affine) -> AffinePoint {
    AffinePoint { x: fe(point.x), y: fe(point.y), infinity: point.infinity }
}

fn pts(points: &[G1Affine]) -> Vec<AffinePoint> {
    points.iter().map(pt).collect()
}

fn small(value: u64) -> FieldElement {
    FieldElement { limbs: [value, 0, 0, 0, 0, 0] }
}

fn random_points(rng: &mut impl ark_std::rand::Rng, count: usize) -> Vec<G1Affine> {
    (0..count).map(|_| G1Affine::from(G1Projective::rand(rng))).collect()
}

#[test]
fn test_phase_one_zero_or_neg() {
    let mut batch_adder = BatchAdder::new(4);
    batch_adder.batch_add_phase_one(&pt(&G1Affine::zero()), &pt(&G1Affine::zero()), 0);

    let mut rng = ark_std::test_rng();
    let p = G1Projective::rand(&mut rng);
    let p_affine = G1Affine::from(p);
    let mut neg_p_affine = p_affine.clone();
    neg_p_affine.y = -neg_p_affine.y;

    batch_adder.batch_add_phase_one(&pt(&p_affine), &pt(&neg_p_affine), 0);
    assert_eq!(batch_adder.inverse_state, fe(Fq::one()));
    assert_eq!(batch_adder.inverses, vec![fe(Fq::one()); 4]);
}

#[test]
fn test_phase_one_p_add_p() {
    let mut batch_adder = BatchAdder::new(4);
    let mut rng = ark_std::test_rng();
    let prj = G1Projective::rand(&mut rng);
    let p = G1Affine::from(prj);
    let acc = p.clone();

    batch_adder.batch_add_phase_one(&pt(&acc), &pt(&p), 0);
    assert_eq!(batch_adder.inverses[0].is_one(), true);
    assert_eq!(batch_adder.inverse_state, fe(p.y + p.y));
}

#[test]
fn test_phase_one_p_add_q() {
    let mut batch_adder = BatchAdder::new(4);
    let mut rng = ark_std::test_rng();
    let p_prj = G1Projective::rand(&mut rng);
    let q_prj = G1Projective::rand(&mut rng);
    let p = G1Affine::from(p_prj);
    let q = G1Affine::from(q_prj);

    batch_adder.batch_add_phase_one(&pt(&p), &pt(&q), 0);
    assert_eq!(batch_adder.inverses[0].is_one(), true);
    assert_eq!(batch_adder.inverse_state, fe(q.x - p.x));
}

#[test]
fn test_phase_one_p_add_q_twice() {
    let mut batch_adder = BatchAdder::new(4);
    let mut rng = ark_std::test_rng();
    let p_prj = G1Projective::rand(&mut rng);
    let q_prj = G1Projective::rand(&mut rng);
    let p = G1Affine::from(p_prj);
    let q = G1Affine::from(q_prj);

    batch_adder.batch_add_phase_one(&pt(&p), &pt(&q), 0);
    batch_adder.batch_add_phase_one(&pt(&p), &pt(&q), 0);
    assert_eq!(batch_adder.inverses[0], fe(q.x - p.x));
    assert_eq!(batch_adder.inverse_state, fe((q.x - p.x) * (q.x - p.x)));
}

#[test]
fn test_phase_two_zero_add_p() {
    let mut batch_adder = BatchAdder::new(4);
    let mut rng = ark_std::test_rng();
    let p_prj = G1Projective::rand(&mut rng);
    let p = G1Affine::from(p_prj);
    let mut acc = pt(&G1Affine::zero());
    batch_adder.batch_add_phase_two(&mut acc, &pt(&p), 0);
    assert_eq!(acc, pt(&p));
}

#[test]
fn test_phase_two_p_add_neg() {
    let mut batch_adder = BatchAdder::new(4);

    let mut rng = ark_std::test_rng();
    let p_prj = G1Projective::rand(&mut rng);
    let acc_affine = G1Affine::from(p_prj);
    let mut acc = pt(&acc_affine);
    let mut p = acc_affine.clone();
    p.y = -p.y;

    batch_adder.batch_add_phase_two(&mut acc, &pt(&p), 0);
    assert_eq!(acc, pt(&G1Affine::zero()));
}

#[test]
fn test_phase_two_p_add_q() {
    let mut batch_adder = BatchAdder::new(4);

    let mut rng = ark_std::test_rng();
    let acc_prj = G1Projective::rand(&mut rng);
    let acc_affine = G1Affine::from(acc_prj);
    let mut acc = pt(&acc_affine);
    let mut p = acc_affine.clone();
    p.x = p.x + p.x;

    batch_adder.inverses[0] = fe((p.x - acc_affine.x).inverse().unwrap());
    batch_adder.batch_add_phase_two(&mut acc, &pt(&p), 0);
    assert_eq!(acc, pt(&G1Affine::from(acc_prj.add_mixed(&p))));
}

#[test]
fn test_phase_two_p_add_p() {
    let mut batch_adder = BatchAdder::new(4);

    let mut rng = ark_std::test_rng();
    let acc_prj = G1Projective::rand(&mut rng);
    let acc_affine = G1Affine::from(acc_prj);
    let mut acc = pt(&acc_affine);
    let p = acc_affine.clone();

    batch_adder.inverses[0] = fe((p.y + p.y).inverse().unwrap());
    batch_adder.batch_add_phase_two(&mut acc, &pt(&p), 0);
    assert_eq!(acc, pt(&G1Affine::from(acc_prj).add(p)));
}

#[test]
fn test_batch_add() {
    let mut batch_adder = BatchAdder::new(10);

    let mut rng = ark_std::test_rng();
    let tmp = random_points(&mut rng, 10);
    let points = random_points(&mut rng, 10);

    let mut buckets = pts(&tmp);
    batch_adder.batch_add(&mut buckets, &pts(&points));

    for i in 0..10 {
        assert_eq!(buckets[i], pt(&tmp[i].add(points[i])));
    }
}

#[test]
fn test_batch_add_step_n() {
    let mut batch_adder = BatchAdder::new(10);

    let mut rng = ark_std::test_rng();
    let tmp = random_points(&mut rng, 10);
    let points = random_points(&mut rng, 10);

    let mut buckets = pts(&tmp);
    batch_adder.batch_add_step_n(&mut buckets, 1, &pts(&points), 2, 3);

    for i in 0..3 {
        assert_eq!(buckets[i], pt(&tmp[i].add(points[i * 2])));
    }
}

#[test]
fn strided_batch_leaves_other_points_alone() {
    let mut batch_adder = BatchAdder::new(10);
    let mut rng = ark_std::test_rng();
    let tmp = random_points(&mut rng, 10);
    let points = random_points(&mut rng, 10);

    let mut buckets = pts(&tmp);
    batch_adder.batch_add_step_n(&mut buckets, 3, &pts(&points), 2, 3);

    for i in 0..10 {
        if i % 3 == 0 && i / 3 < 3 {
            assert_eq!(buckets[i], pt(&tmp[i].add(points[(i / 3) * 2])));
        } else {
            assert_eq!(buckets[i], pt(&tmp[i]));
        }
    }
}

#[test]
fn batch_with_identities_doublings_and_negations() {
    let mut rng = ark_std::test_rng();
    let a = random_points(&mut rng, 6);
    let b = random_points(&mut rng, 6);
    let tmp = vec![a[0], G1Affine::zero(), a[2], a[3], G1Affine::zero(), a[5]];
    let points = vec![b[0], b[1], G1Affine::zero(), a[3], G1Affine::zero(), -a[5]];

    let mut batch_adder = BatchAdder::new(6);
    let mut buckets = pts(&tmp);
    batch_adder.batch_add(&mut buckets, &pts(&points));

    for i in 0..6 {
        assert_eq!(buckets[i], pt(&tmp[i].add(points[i])));
    }
    assert_eq!(buckets[1], pt(&b[1]));
    assert_eq!(buckets[2], pt(&a[2]));
    assert_eq!(buckets[3], pt(&G1Affine::from(a[3].into_projective().double())));
    assert_eq!(buckets[5], pt(&G1Affine::zero()));
}

#[test]
fn batch_of_one_doubling() {
    let mut rng = ark_std::test_rng();
    let p = random_points(&mut rng, 1);
    let mut batch_adder = BatchAdder::new(1);
    let mut buckets = pts(&p);
    batch_adder.batch_add(&mut buckets, &pts(&p));
    assert_eq!(buckets[0], pt(&G1Affine::from(p[0].into_projective().double())));
}

#[test]
fn empty_batch_changes_nothing() {
    let mut batch_adder = BatchAdder::new(3);
    let mut buckets: Vec<AffinePoint> = Vec::new();
    batch_adder.batch_add(&mut buckets, &[]);
    assert!(buckets.is_empty());
    assert_eq!(batch_adder.inverse_state, fe(Fq::one()));
}

#[test]
fn batch_add_reuses_the_adder() {
    let mut rng = ark_std::test_rng();
    let mut batch_adder = BatchAdder::new(4);
    for _ in 0..3 {
        let tmp = random_points(&mut rng, 4);
        let points = random_points(&mut rng, 4);
        let mut buckets = pts(&tmp);
        batch_adder.batch_add(&mut buckets, &pts(&points));
        for i in 0..4 {
            assert_eq!(buckets[i], pt(&tmp[i].add(points[i])));
        }
    }
}

#[test]
fn phases_agree_with_batch_add() {
    let mut rng = ark_std::test_rng();
    let tmp = random_points(&mut rng, 5);
    let mut points = random_points(&mut rng, 5);
    points[1] = tmp[1];
    points[3] = G1Affine::zero();
    let src = pts(&points);

    let mut whole = pts(&tmp);
    BatchAdder::new(5).batch_add(&mut whole, &src);

    let mut stepwise = pts(&tmp);
    let mut batch_adder = BatchAdder::new(5);
    batch_adder.reset();
    for i in 0..5 {
        batch_adder.batch_add_phase_one(&stepwise[i], &src[i], i);
    }
    batch_adder.inverse();
    for i in (0..5).rev() {
        batch_adder.batch_add_phase_two(&mut stepwise[i], &src[i], i);
    }
    assert_eq!(stepwise, whole);
}

#[test]
fn new_adder_holds_ones() {
    let batch_adder = BatchAdder::new(3);
    assert_eq!(batch_adder.inverses.len(), 3);
    assert!(batch_adder.inverses.iter().all(|e| *e == small(1)));
    assert_eq!(batch_adder.inverse_state, small(1));
    assert!(BatchAdder::new(0).inverses.is_empty());
}

#[test]
fn reset_and_inverse() {
    let mut batch_adder = BatchAdder::new(2);
    batch_adder.inverse_state = small(2);
    batch_adder.inverse();
    // 2 * (p + 1) / 2 == 1 (mod p)
    assert_eq!(batch_adder.inverse_state, fe(Fq::from(2u64).inverse().unwrap()));
    assert_eq!(
        batch_adder.inverse_state,
        FieldElement {
            limbs: [
                0xdcff7fffffffd556,
                0x0f55ffff58a9ffff,
                0xb39869507b587b12,
                0xb23ba5c279c2895f,
                0x258dd3db21a5d66b,
                0x0d0088f51cbff34d,
            ],
        }
    );
    batch_adder.reset();
    assert_eq!(batch_adder.inverse_state, small(1));
    assert_eq!(batch_adder.inverses, vec![small(1), small(1)]);
}

#[test]
fn phase_two_chord_on_small_numbers() {
    // slope (5 - 2) / (2 - 1) = 3, x = 9 - 1 - 2 = 6, y = 3 * (1 - 6) - 2 = -17
    let mut batch_adder = BatchAdder::new(1);
    let mut p = AffinePoint { x: small(1), y: small(2), infinity: false };
    let q = AffinePoint { x: small(2), y: small(5), infinity: false };
    batch_adder.batch_add_phase_two(&mut p, &q, 0);
    assert_eq!(p.x, small(6));
    assert_eq!(
        p.y,
        FieldElement {
            limbs: [
                0xb9feffffffffaa9a,
                0x1eabfffeb153ffff,
                0x6730d2a0f6b0f624,
                0x64774b84f38512bf,
                0x4b1ba7b6434bacd7,
                0x1a0111ea397fe69a,
            ],
        }
    );
    assert!(!p.infinity);
    assert_eq!(batch_adder.inverse_state, small(1));
}

#[test]
fn phase_two_tangent_on_small_numbers() {
    // slope 3 * 2^2 / (2 * 3) = 2 with the inverse of 6 stored, x = 4 - 2 - 2 = 0,
    // y = 2 * (2 - 0) - 3 = 1
    let mut batch_adder = BatchAdder::new(1);
    batch_adder.inverses[0] = fe(Fq::from(6u64).inverse().unwrap());
    let mut p = AffinePoint { x: small(2), y: small(3), infinity: false };
    let q = p;
    batch_adder.batch_add_phase_two(&mut p, &q, 0);
    assert_eq!(p, AffinePoint { x: small(0), y: small(1), infinity: false });
    assert_eq!(batch_adder.inverse_state, small(6));
}

#[test]
fn phase_one_multiplies_the_running_product() {
    let mut batch_adder = BatchAdder::new(3);
    let p = AffinePoint { x: small(1), y: small(2), infinity: false };
    let q = AffinePoint { x: small(4), y: small(5), infinity: false };
    let r = AffinePoint { x: small(11), y: small(5), infinity: false };
    batch_adder.batch_add_phase_one(&p, &q, 0);
    batch_adder.batch_add_phase_one(&q, &r, 1);
    batch_adder.batch_add_phase_one(&r, &r, 2);
    assert_eq!(batch_adder.inverses, vec![small(1), small(3), small(21)]);
    assert_eq!(batch_adder.inverse_state, small(210));
}

#[test]
fn phase_one_skips_at_infinity() {
    let mut batch_adder = BatchAdder::new(1);
    batch_adder.inverse_state = small(7);
    batch_adder.inverses[0] = small(9);
    let p = AffinePoint { x: small(1), y: small(2), infinity: false };
    batch_adder.batch_add_phase_one(&AffinePoint::identity(), &p, 0);
    batch_adder.batch_add_phase_one(&p, &AffinePoint::identity(), 0);
    assert_eq!(batch_adder.inverse_state, small(7));
    assert_eq!(batch_adder.inverses[0], small(9));
}

#[test]
fn phase_two_keeps_dest_when_src_is_identity() {
    let mut batch_adder = BatchAdder::new(1);
    let mut p = AffinePoint { x: small(1), y: small(2), infinity: false };
    batch_adder.batch_add_phase_two(&mut p, &AffinePoint::identity(), 0);
    assert_eq!(p, AffinePoint { x: small(1), y: small(2), infinity: false });
    let mut e = AffinePoint { x: small(3), y: small(4), infinity: true };
    batch_adder.batch_add_phase_two(&mut e, &AffinePoint::identity(), 0);
    assert_eq!(e, AffinePoint { x: small(3), y: small(4), infinity: true });
}

#[test]
fn field_element_constants() {
    assert_eq!(FieldElement::zero(), fe(Fq::zero()));
    assert_eq!(FieldElement::one(), fe(Fq::one()));
    assert!(FieldElement::zero().is_zero());
    assert!(!FieldElement::one().is_zero());
    assert!(FieldElement::one().is_one());
    assert!(!FieldElement::zero().is_one());
    assert!(!FieldElement { limbs: [0, 0, 0, 0, 0, 1] }.is_zero());
    assert!(!FieldElement { limbs: [1, 0, 0, 1, 0, 0] }.is_one());
}

#[test]
fn identity_point() {
    let e = AffinePoint::identity();
    assert_eq!(e, pt(&G1Affine::zero()));
    assert!(e.is_identity());
    assert!(!AffinePoint { x: small(1), y: small(2), infinity: false }.is_identity());
}

#[test]
fn strided_batch_with_a_repeated_source() {
    let mut batch_adder = BatchAdder::new(3);
    let mut rng = ark_std::test_rng();
    let tmp = random_points(&mut rng, 3);
    let points = random_points(&mut rng, 1);

    let mut buckets = pts(&tmp);
    batch_adder.batch_add_step_n(&mut buckets, 1, &pts(&points), 0, 3);
    for i in 0..3 {
        assert_eq!(buckets[i], pt(&tmp[i].add(points[0])));
    }
}

#[test]
fn strided_batch_of_one() {
    let mut batch_adder = BatchAdder::new(1);
    let mut rng = ark_std::test_rng();
    let tmp = random_points(&mut rng, 2);
    let points = random_points(&mut rng, 2);

    let mut buckets = pts(&tmp);
    batch_adder.batch_add_step_n(&mut buckets, 0, &pts(&points), 0, 1);
    assert_eq!(buckets[0], pt(&tmp[0].add(points[0])));
    assert_eq!(buckets[1], pt(&tmp[1]));
}

#[test]
fn identity_on_either_side() {
    let mut rng = ark_std::test_rng();
    let p = random_points(&mut rng, 1)[0];
    let mut batch_adder = BatchAdder::new(2);
    let mut buckets = vec![pt(&p), AffinePoint::identity()];
    batch_adder.batch_add(&mut buckets, &[AffinePoint::identity(), pt(&p)]);
    assert_eq!(buckets, vec![pt(&p), pt(&p)]);
}

#[test]
fn negation_gives_the_identity() {
    let mut rng = ark_std::test_rng();
    let p = random_points(&mut rng, 2);
    let mut batch_adder = BatchAdder::new(2);
    let mut buckets = pts(&p);
    batch_adder.batch_add(&mut buckets, &[pt(&-p[0]), pt(&-p[1])]);
    assert_eq!(buckets, vec![AffinePoint::identity(), AffinePoint::identity()]);
}

#[test]
fn empty_strided_batch_changes_nothing() {
    let mut rng = ark_std::test_rng();
    let tmp = random_points(&mut rng, 3);
    let points = random_points(&mut rng, 2);

    let mut batch_adder = BatchAdder::new(2);
    let mut buckets = pts(&tmp);
    batch_adder.batch_add_step_n(&mut buckets, 1, &pts(&points), 1, 0);
    assert_eq!(buckets, pts(&tmp));
    batch_adder.batch_add_step_n(&mut buckets, 7, &pts(&points), 5, 0);
    assert_eq!(buckets, pts(&tmp));

    let mut none: Vec<AffinePoint> = Vec::new();
    batch_adder.batch_add_step_n(&mut none, 1, &[], 1, 0);
    assert!(none.is_empty());
    BatchAdder::new(0).batch_add_step_n(&mut buckets, 0, &[], 0, 0);
    assert_eq!(buckets, pts(&tmp));
}
