use ark_bls12_381::{Fr, G1Affine, G1Projective};
use ark_ec::{AffineRepr, CurveGroup, Group, VariableBaseMSM};
use ark_ff::{BigInt, Fp, PrimeField};
use core::marker::PhantomData;
use gemini::field::Scalar;
use gemini::group::{limbs_canonical, limbs_zero, ChunkedPippenger, G1Point, HashMapPippenger};

fn scalar(x: Fr) -> Scalar {
    Scalar::from_limbs(x.into_bigint().0).unwrap()
}

fn point(p: G1Affine) -> G1Point {
    G1Point::from_raw(p.x.0 .0, p.y.0 .0, p.infinity).unwrap()
}

fn affine(p: &G1Point) -> G1Affine {
    G1Affine {
        x: Fp(BigInt(p.x()), PhantomData),
        y: Fp(BigInt(p.y()), PhantomData),
        infinity: p.is_infinity(),
    }
}

fn multiple(k: u64) -> G1Affine {
    (G1Projective::generator() * Fr::from(k)).into_affine()
}

#[test]
fn points_of_the_group_are_accepted() {
    let g = G1Affine::generator();
    let p = point(g);
    assert_eq!(affine(&p), g);
    assert!(!p.is_infinity());
    assert_eq!(p.x(), g.x.0 .0);
    assert_eq!(p.y(), g.y.0 .0);
    let zero = point(G1Affine::identity());
    assert!(zero.is_infinity());
    assert_eq!(zero, G1Point::zero());
}

#[test]
fn points_off_the_curve_are_refused() {
    let g = G1Affine::generator();
    // swapping the coordinates leaves the curve
    assert!(G1Point::from_raw(g.y.0 .0, g.x.0 .0, false).is_none());
    let mut x = g.x.0 .0;
    x[0] ^= 1;
    assert!(G1Point::from_raw(x, g.y.0 .0, false).is_none());
    // the point at infinity comes with the coordinates zero
    assert!(G1Point::from_raw(g.x.0 .0, g.y.0 .0, true).is_none());
    assert!(G1Point::from_raw([0; 6], [0; 6], true).is_some());
    // coordinates at or above the order of the base field are refused
    assert!(G1Point::from_raw([u64::MAX; 6], g.y.0 .0, false).is_none());
    assert!(G1Point::from_raw(g.x.0 .0, [u64::MAX; 6], false).is_none());
}

#[test]
fn limbs_of_the_base_field() {
    let q = [
        0xb9feffffffffaaab,
        0x1eabfffeb153ffff,
        0x6730d2a0f6b0f624,
        0x64774b84f38512bf,
        0x4b1ba7b6434bacd7,
        0x1a0111ea397fe69a,
    ];
    assert!(!limbs_canonical(&q));
    let mut below = q;
    below[0] -= 1;
    assert!(limbs_canonical(&below));
    let mut above = q;
    above[2] += 1;
    assert!(!limbs_canonical(&above));
    assert!(limbs_canonical(&[0; 6]));
    assert!(limbs_zero(&[0; 6]));
    assert!(!limbs_zero(&[0, 0, 0, 0, 0, 1]));
    assert!(!limbs_zero(&[1, 0, 0, 0, 0, 0]));
    assert!(!limbs_canonical(&[u64::MAX; 6]));
}

#[test]
fn addition_adds_the_multiples() {
    let a = point(multiple(5));
    let b = point(multiple(7));
    assert_eq!(a.add(&b), point(multiple(12)));
    assert_eq!(a.add(&G1Point::zero()), a);
    assert_eq!(G1Point::zero().add(&G1Point::zero()), G1Point::zero());
    let minus_a = point((-G1Projective::generator() * Fr::from(5u64)).into_affine());
    assert_eq!(a.add(&minus_a), G1Point::zero());
}

#[test]
fn multi_scalar_multiplication_is_the_sum_of_the_products() {
    let bases = vec![point(multiple(2)), point(multiple(3)), point(multiple(11))];
    let scalars = vec![Scalar::from_u64(10), Scalar::from_u64(100), Scalar::from_u64(1)];
    // 2 * 10 + 3 * 100 + 11 * 1
    assert_eq!(G1Point::msm(&bases, &scalars), Some(point(multiple(331))));
    assert_eq!(G1Point::msm(&vec![], &vec![]), Some(G1Point::zero()));
    assert_eq!(G1Point::msm(&bases, &scalars[..2].to_vec()), None);
    let expected = G1Projective::msm(
        &[multiple(2), multiple(3), multiple(11)],
        &[Fr::from(10u64), Fr::from(100u64), Fr::from(1u64)],
    )
    .unwrap();
    assert_eq!(G1Point::msm(&bases, &scalars), Some(point(expected.into_affine())));
}

#[test]
fn accumulators_give_the_sum_whatever_their_buffer() {
    let bases: Vec<G1Point> = (1..=9u64).map(|k| point(multiple(k))).collect();
    let scalars: Vec<Scalar> = (1..=9u64).map(|k| scalar(Fr::from(k * k))).collect();
    // the sum of k^3 for k from 1 to 9
    let expected = point(multiple(2025));
    for size in [0usize, 1, 2, 3, 4, 9, 10, 1 << 20] {
        let mut chunked = ChunkedPippenger::new(size);
        let mut sized = ChunkedPippenger::with_size(size);
        let mut hashed = HashMapPippenger::new(size);
        for (b, s) in bases.iter().zip(scalars.iter()) {
            chunked.add(b, s);
            sized.add(b, s);
            hashed.add(b, s);
        }
        assert_eq!(chunked.finalize(), expected);
        assert_eq!(sized.finalize(), expected);
        assert_eq!(hashed.finalize(), expected);
    }
    assert_eq!(ChunkedPippenger::new(4).finalize(), G1Point::zero());
    assert_eq!(HashMapPippenger::new(4).finalize(), G1Point::zero());
    // one base with several scalars
    let mut hashed = HashMapPippenger::new(3);
    hashed.add(&bases[0], &Scalar::from_u64(4));
    hashed.add(&bases[1], &Scalar::from_u64(1));
    hashed.add(&bases[0], &Scalar::from_u64(6));
    assert_eq!(hashed.finalize(), point(multiple(12)));
}
