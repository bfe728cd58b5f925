use ark_bls12_381::{Fr, G1Affine, G1Projective, G2Affine, G2Projective};
use ark_ec::{CurveGroup, Group, VariableBaseMSM};
use ark_ff::{BigInt, Field, Fp, PrimeField};
use ark_poly::univariate::DensePolynomial;
use ark_poly::{DenseUVPolynomial, Polynomial};
use ark_std::{test_rng, UniformRand};
use core::marker::PhantomData;
use gemini::field::Scalar;
use gemini::group::{G1Point, G2Point};
use gemini::iterable::Reverse;
use gemini::kzg::space::{msm_chunks, msm_chunks_by, CommitterKeyStream};
use gemini::kzg::time::CommitterKey;
use gemini::kzg::{
    vanishing_polynomial, window_items, window_step, Commitment, EvaluationProof, VerifierKey,
};
use std::collections::VecDeque;
use gemini::misc::evaluate_be;
use gemini::sumcheck::streams::FoldedPolynomialStream;
use gemini::sumcheck::time_prover::fold_polynomial;
use gemini::sumcheck::tree::FoldedPolynomialTree;
use gemini::iterable::{Cursor, Iterable};

fn scalar(x: Fr) -> Scalar {
    Scalar::from_limbs(x.into_bigint().0).unwrap()
}

fn fr(s: &Scalar) -> Fr {
    Fr::from_bigint(BigInt(s.to_limbs())).unwrap()
}

fn point(p: G1Affine) -> G1Point {
    G1Point::from_raw(p.x.0 .0, p.y.0 .0, p.infinity).unwrap()
}

fn affine(p: &G1Point) -> G1Affine {
    G1Affine {
        x: Fp(BigInt(p.x()), PhantomData),
        y: Fp(BigInt(p.y()), PhantomData),
        infinity: p.is_infinity(),
    }
}

fn point2(p: G2Affine) -> G2Point {
    G2Point {
        x_c0: p.x.c0.0 .0,
        x_c1: p.x.c1.0 .0,
        y_c0: p.y.c0.0 .0,
        y_c1: p.y.c1.0 .0,
        infinity: p.infinity,
    }
}

fn scalars(values: &[u64]) -> Vec<Scalar> {
    values.iter().map(|v| Scalar::from_u64(*v)).collect()
}

/// A committer key for polynomials of degree up to `max_degree`, with the
/// powers of a random secret.
fn committer_key(max_degree: usize, max_eval_points: usize) -> CommitterKey {
    let rng = &mut test_rng();
    let tau = Fr::rand(rng);
    let g = G1Projective::rand(rng);
    let g2 = G2Projective::rand(rng);
    let mut power = Fr::from(1u64);
    let mut powers_of_g = Vec::new();
    let mut powers_of_g2 = Vec::new();
    for i in 0..=max_degree {
        powers_of_g.push(point((g * power).into_affine()));
        if i <= max_eval_points {
            powers_of_g2.push(point2((g2 * power).into_affine()));
        }
        power *= tau;
    }
    CommitterKey { powers_of_g, powers_of_g2 }
}

/// The multi-scalar multiplication of the coefficients, highest degree first,
/// with the lowest powers of the key.
fn expected_commitment(ck: &CommitterKey, stream_order: &[Scalar]) -> G1Point {
    let n = stream_order.len();
    let bases: Vec<G1Affine> = ck.powers_of_g[..n].iter().map(affine).collect();
    let coefficients: Vec<Fr> = stream_order.iter().rev().map(fr).collect();
    point(G1Projective::msm(&bases, &coefficients).unwrap().into_affine())
}

fn reversed(v: &[Scalar]) -> Vec<Scalar> {
    v.iter().rev().cloned().collect()
}

fn collect<T, C: Cursor<T>>(mut cursor: C) -> Vec<T> {
    let mut items = Vec::new();
    while let Some(x) = cursor.next() {
        items.push(x);
    }
    items
}

/// The levels of the tree of foldings, each in the order of its stream.
fn levels(stream_order: &[Scalar], challenges: &[Scalar]) -> Vec<Vec<Scalar>> {
    let mut by_degree = reversed(stream_order);
    let mut all = Vec::new();
    for c in challenges {
        by_degree = fold_polynomial(&by_degree, c);
        all.push(reversed(&by_degree));
    }
    all
}

#[test]
fn test_open_multi_points() {
    let max_msm_buffer = 1 << 20;
    let rng = &mut test_rng();
    // f = 80*x^6 + 80*x^5 + 88*x^4 + 3*x^3 + 73*x^2 + 7*x + 24
    let polynomial = [
        scalar(Fr::from(80u64)),
        scalar(Fr::from(80u64)),
        scalar(Fr::from(88u64)),
        scalar(Fr::from(3u64)),
        scalar(Fr::from(73u64)),
        scalar(Fr::from(7u64)),
        scalar(Fr::from(24u64)),
    ];
    let polynomial_stream = &polynomial[..];
    let beta = scalar(Fr::from(53u64));

    let time_ck = committer_key(200, 3);
    let space_ck = CommitterKeyStream::from(&time_ck);

    let (remainder, _commitment) = space_ck.open_multi_points(
        &polynomial_stream,
        &[beta.square(), beta, beta.neg()],
        max_msm_buffer,
    );
    let evaluation_remainder = evaluate_be(&remainder, &beta);
    assert_eq!(evaluation_remainder, scalar(Fr::from(1807299544171u64)));

    let (remainder, _commitment) =
        space_ck.open_multi_points(&polynomial_stream, &[beta], max_msm_buffer);
    assert_eq!(remainder.len(), 1);

    // get a random polynomial with random coefficient,
    let polynomial: Vec<Scalar> = DensePolynomial::<Fr>::rand(100, rng)
        .coeffs()
        .iter()
        .map(|c| scalar(*c))
        .collect();
    let polynomial_stream = &polynomial[..];
    let beta = scalar(Fr::rand(rng));
    let (_, evaluation_proof_batch) =
        space_ck.open_multi_points(&polynomial_stream, &[beta], max_msm_buffer);
    let (_, evaluation_proof_single) = space_ck.open(&polynomial_stream, &beta, max_msm_buffer);
    assert_eq!(evaluation_proof_batch, evaluation_proof_single);

    let (remainder, _evaluation_poof) = space_ck.open_multi_points(
        &polynomial_stream,
        &[beta, beta.neg(), beta.square()],
        max_msm_buffer,
    );
    let expected_evaluation = evaluate_be(&remainder, &beta);
    let obtained_evaluation = evaluate_be(&polynomial, &beta);
    assert_eq!(expected_evaluation, obtained_evaluation);
    let expected_evaluation = evaluate_be(&remainder, &beta.square());
    let obtained_evaluation = evaluate_be(&polynomial, &beta.square());
    assert_eq!(expected_evaluation, obtained_evaluation);
}

#[test]
fn the_vanishing_polynomial_of_two_points() {
    // (x - 1)(x - 2) = x^2 - 3x + 2
    let z = vanishing_polynomial(&scalars(&[1, 2]));
    assert_eq!(z, vec![Scalar::from_u64(2), Scalar::from_u64(3).neg(), Scalar::one()]);
    assert_eq!(vanishing_polynomial(&[]), vec![Scalar::one()]);
    let z = vanishing_polynomial(&scalars(&[5, 7, 11]));
    let by_highest: Vec<Scalar> = z.iter().rev().cloned().collect();
    for x in [5u64, 7, 11] {
        assert_eq!(evaluate_be(&by_highest, &Scalar::from_u64(x)), Scalar::zero());
    }
    assert_eq!(evaluate_be(&by_highest, &Scalar::from_u64(12)), Scalar::from_u64(7 * 5 * 1));
}

#[test]
fn one_step_of_a_division() {
    // dividing by x^2 - 3x + 2: the window 4 5 takes 6 and gives up 4
    let zeros = vanishing_polynomial(&scalars(&[1, 2]));
    let mut state: VecDeque<Scalar> = scalars(&[4, 5]).into_iter().collect();
    let head = window_step(&mut state, &zeros, &Scalar::from_u64(6));
    assert_eq!(head, Scalar::from_u64(4));
    // 5 + 3 * 4 and 6 - 2 * 4
    assert_eq!(window_items(&state), vec![Scalar::from_u64(17), Scalar::from_u64(2).neg()]);
    // a window of one item: dividing by x - 1
    let zeros = vanishing_polynomial(&scalars(&[1]));
    let mut state: VecDeque<Scalar> = scalars(&[4]).into_iter().collect();
    assert_eq!(window_step(&mut state, &zeros, &Scalar::from_u64(6)), Scalar::from_u64(4));
    assert_eq!(window_items(&state), scalars(&[10]));
    assert_eq!(window_items(&VecDeque::new()), scalars(&[]));
}

#[test]
fn the_remainder_of_a_division_by_two_points() {
    // x^3 = (x + 3)(x^2 - 3x + 2) + 7x - 6
    let ck = committer_key(8, 1);
    let space_ck = CommitterKeyStream::from(&ck);
    let p = scalars(&[1, 0, 0, 0]);
    let (remainder, proof) = space_ck.open_multi_points(&&p[..], &scalars(&[1, 2]), 3);
    assert_eq!(remainder, vec![Scalar::from_u64(7), Scalar::from_u64(6).neg()]);
    // the quotient x + 3
    assert_eq!(proof.0, expected_commitment(&ck, &scalars(&[1, 3])));
    // as many points as coefficients: the polynomial is its own remainder
    let (remainder, proof) = space_ck.open_multi_points(&&p[..], &scalars(&[1, 2, 3, 4]), 3);
    assert_eq!(remainder, p);
    assert_eq!(proof.0, G1Point::zero());
    // nothing to open
    let empty: Vec<Scalar> = Vec::new();
    let (remainder, proof) = space_ck.open_multi_points(&&empty[..], &[], 3);
    assert_eq!(remainder, empty);
    assert_eq!(proof.0, G1Point::zero());
}

#[test]
fn the_remainder_takes_the_values_of_the_polynomial() {
    let ck = committer_key(40, 1);
    let space_ck = CommitterKeyStream::from(&ck);
    let p: Vec<Scalar> = (0..33u64).map(|i| Scalar::from_u64(i * i * 7 + 1)).collect();
    for m in 1..6usize {
        let points: Vec<Scalar> = (0..m as u64).map(|i| Scalar::from_u64(1000 + 3 * i)).collect();
        let (remainder, _) = space_ck.open_multi_points(&&p[..], &points, 4);
        assert_eq!(remainder.len(), m);
        for x in &points {
            assert_eq!(evaluate_be(&remainder, x), evaluate_be(&p, x));
        }
    }
}

#[test]
fn a_commitment_is_the_multi_scalar_multiplication_with_the_key() {
    let ck = committer_key(20, 1);
    let space_ck = CommitterKeyStream::from(&ck);
    let p: Vec<Scalar> = (0..13u64).map(|i| Scalar::from_u64(i * 5 + 3)).collect();
    assert_eq!(space_ck.commit(&&p[..]), Commitment(expected_commitment(&ck, &p)));
    let empty: Vec<Scalar> = Vec::new();
    assert_eq!(space_ck.commit(&&empty[..]), Commitment(G1Point::zero()));
    let full: Vec<Scalar> = (0..21u64).map(|i| Scalar::from_u64(i + 1)).collect();
    assert_eq!(space_ck.commit(&&full[..]), Commitment(expected_commitment(&ck, &full)));
    // the constant polynomial is committed to with the generator of the key
    assert_eq!(
        space_ck.commit(&&scalars(&[1])[..]),
        Commitment(ck.powers_of_g[0])
    );
    let list = [&p[..], &full[..], &empty[..]];
    assert_eq!(
        space_ck.batch_commit(&list),
        vec![
            Commitment(expected_commitment(&ck, &p)),
            Commitment(expected_commitment(&ck, &full)),
            Commitment(G1Point::zero()),
        ]
    );
}

#[test]
fn the_size_of_the_chunks_does_not_change_the_result() {
    let ck = committer_key(20, 1);
    let bases = Reverse(&ck.powers_of_g[..]);
    let p: Vec<Scalar> = (0..13u64).map(|i| Scalar::from_u64(i * i + 3)).collect();
    let expected = expected_commitment(&ck, &p);
    for step in [1usize, 2, 3, 4, 5, 12, 13, 14, 1 << 20] {
        assert_eq!(msm_chunks_by(&bases, &&p[..], step), expected);
    }
    assert_eq!(msm_chunks(&bases, &&p[..]), expected);
    let empty: Vec<Scalar> = Vec::new();
    for step in [1usize, 7] {
        assert_eq!(msm_chunks_by(&bases, &&empty[..], step), G1Point::zero());
    }
    // the scalars may come as any stream
    let q = reversed(&p);
    assert_eq!(msm_chunks_by(&bases, &Reverse(&q[..]), 4), expected);
}

#[test]
fn opening_gives_the_value_and_the_commitment_to_the_quotient() {
    let ck = committer_key(20, 1);
    let space_ck = CommitterKeyStream::from(&ck);
    // x^2 + 2x + 3 at 10: the value 123 and the quotient x + 12
    let p = scalars(&[1, 2, 3]);
    for buffer in [0usize, 1, 2, 3, 100] {
        let (value, proof) = space_ck.open(&&p[..], &Scalar::from_u64(10), buffer);
        assert_eq!(value, Scalar::from_u64(123));
        assert_eq!(proof, EvaluationProof(expected_commitment(&ck, &scalars(&[1, 12]))));
    }
    let empty: Vec<Scalar> = Vec::new();
    let (value, proof) = space_ck.open(&&empty[..], &Scalar::from_u64(10), 4);
    assert_eq!(value, Scalar::zero());
    assert_eq!(proof.0, G1Point::zero());
    // against the division of ark_poly
    let rng = &mut test_rng();
    let dense = DensePolynomial::<Fr>::rand(17, rng);
    let alpha = Fr::rand(rng);
    let divisor = DensePolynomial::from_coefficients_vec(vec![-alpha, Fr::from(1u64)]);
    let quotient = &dense / &divisor;
    let stream: Vec<Scalar> = dense.coeffs().iter().rev().map(|c| scalar(*c)).collect();
    let quotient_stream: Vec<Scalar> = quotient.coeffs().iter().rev().map(|c| scalar(*c)).collect();
    let (value, proof) = space_ck.open(&&stream[..], &scalar(alpha), 5);
    assert_eq!(fr(&value), dense.evaluate(&alpha));
    assert_eq!(proof.0, expected_commitment(&ck, &quotient_stream));
}

#[test]
fn the_commitments_of_the_tree_are_the_commitments_of_its_levels() {
    let ck = committer_key(40, 1);
    let space_ck = CommitterKeyStream::from(&ck);
    let challenges = scalars(&[10, 200, 3000, 7]);
    for n in [0usize, 1, 2, 3, 5, 8, 13, 16, 31] {
        let p: Vec<Scalar> = (0..n as u64).map(|i| Scalar::from_u64(i * i + 3 * i + 1)).collect();
        let base = &p[..];
        for k in 0..=challenges.len() {
            let tree = FoldedPolynomialTree::new(&base, &challenges[..k]);
            for buffer in [0usize, 3, 1 << 10] {
                let commitments = space_ck.commit_folding(&tree, buffer);
                let expected = levels(&p, &challenges[..k]);
                assert_eq!(commitments.len(), k);
                for level in 0..k {
                    assert_eq!(commitments[level], space_ck.commit(&&expected[level][..]));
                    let stream = FoldedPolynomialStream::new(&base, &challenges[..level + 1]);
                    assert_eq!(commitments[level], space_ck.commit(&stream));
                    assert_eq!(collect(stream.iter()), expected[level]);
                }
            }
        }
    }
}

#[test]
fn the_opening_of_the_tree_is_the_sum_of_the_openings_of_its_levels() {
    let ck = committer_key(40, 1);
    let space_ck = CommitterKeyStream::from(&ck);
    let challenges = scalars(&[10, 200, 3000]);
    let etas = scalars(&[5, 77, 1234, 9]);
    let points = scalars(&[3, 1000]);
    for n in [0usize, 1, 4, 7, 8, 16, 21, 32] {
        let p: Vec<Scalar> = (0..n as u64).map(|i| Scalar::from_u64(i * i + 3 * i + 1)).collect();
        let base = &p[..];
        for k in 0..=challenges.len() {
            let tree = FoldedPolynomialTree::new(&base, &challenges[..k]);
            let (remainders, proof) = space_ck.open_folding(tree, &points, &etas, 5);
            let expected = levels(&p, &challenges[..k]);
            assert_eq!(remainders.len(), k);
            let mut sum = G1Projective::default();
            for level in 0..k {
                // a level shorter than the number of points is its own remainder
                let mut padded = vec![Scalar::zero(); points.len().saturating_sub(expected[level].len())];
                padded.extend(expected[level].iter().cloned());
                let (remainder, level_proof) =
                    space_ck.open_multi_points(&&padded[..], &points, 1 << 10);
                assert_eq!(remainders[level], remainder);
                for x in &points {
                    assert_eq!(evaluate_be(&remainders[level], x), evaluate_be(&expected[level], x));
                }
                sum += affine(&level_proof.0) * fr(&etas[level]);
            }
            assert_eq!(proof, EvaluationProof(point(sum.into_affine())));
        }
    }
}

#[test]
fn the_keys_that_go_with_a_stream_of_powers() {
    let ck = committer_key(10, 2);
    let space_ck = CommitterKeyStream::from(&ck);
    assert_eq!(space_ck.powers_of_g2, ck.powers_of_g2);
    assert_eq!(space_ck.powers_of_g.len(), 11);
    assert_eq!(space_ck.as_committer_key(11), ck);
    let short = space_ck.as_committer_key(4);
    assert_eq!(short.powers_of_g, ck.powers_of_g[..4].to_vec());
    assert_eq!(short.powers_of_g2, ck.powers_of_g2);
    assert_eq!(space_ck.as_committer_key(0).powers_of_g, Vec::new());
    let vk = VerifierKey::from(&space_ck);
    assert_eq!(vk.powers_of_g, vec![ck.powers_of_g[0]]);
    assert_eq!(vk.powers_of_g2, ck.powers_of_g2);
    assert_eq!(vk.powers_of_g2.len(), 3);
}
