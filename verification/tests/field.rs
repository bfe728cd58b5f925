use ark_ff::{Field, PrimeField};
use gemini::field::Scalar;

fn fr(s: &Scalar) -> ark_bls12_381::Fr {
    ark_bls12_381::Fr::from_bigint(ark_ff::BigInt(s.to_limbs())).unwrap()
}

fn scalar(x: ark_bls12_381::Fr) -> Scalar {
    Scalar::from_limbs(x.into_bigint().0).unwrap()
}

const MODULUS: [u64; 4] = [
    0xffffffff00000001,
    0x53bda402fffe5bfe,
    0x3339d80809a1d805,
    0x73eda753299d7d48,
];

#[test]
fn field_operations_agree_with_the_field() {
    let a = Scalar::from_u64(53);
    let b = Scalar::from_u64(80);
    assert_eq!(a.add(&b), Scalar::from_u64(133));
    assert_eq!(a.mul(&b), Scalar::from_u64(4240));
    assert_eq!(b.sub(&a), Scalar::from_u64(27));
    assert_eq!(a.square(), Scalar::from_u64(2809));
    assert_eq!(a.pow(3), Scalar::from_u64(148877));
    assert_eq!(a.pow(0), Scalar::one());
    assert_eq!(
        fr(&a.sub(&b)),
        ark_bls12_381::Fr::from(53u64) - ark_bls12_381::Fr::from(80u64)
    );
    assert_eq!(a.neg().add(&a), Scalar::zero());
    assert_eq!(fr(&a.neg()), -ark_bls12_381::Fr::from(53u64));
    let inv = a.inverse().unwrap();
    assert_eq!(inv.mul(&a), Scalar::one());
    assert_eq!(fr(&inv), ark_bls12_381::Fr::from(53u64).inverse().unwrap());
    assert!(Scalar::zero().inverse().is_none());
}

#[test]
fn subtraction_wraps_around_the_modulus() {
    let r = Scalar::zero().sub(&Scalar::one());
    let mut expected = MODULUS;
    expected[0] -= 1;
    assert_eq!(r.to_limbs(), expected);
    assert_eq!(r.add(&Scalar::one()), Scalar::zero());
    assert_eq!(r.mul(&r), Scalar::one());
}

#[test]
fn limbs_below_the_modulus_are_accepted() {
    assert!(Scalar::from_limbs(MODULUS).is_none());
    let mut below = MODULUS;
    below[0] -= 1;
    let s = Scalar::from_limbs(below).unwrap();
    assert_eq!(s.to_limbs(), below);
    let mut above = MODULUS;
    above[3] += 1;
    assert!(Scalar::from_limbs(above).is_none());
    let mut low_limb_large = MODULUS;
    low_limb_large[0] = u64::MAX;
    assert!(Scalar::from_limbs(low_limb_large).is_none());
    let mut high_limb_small = [u64::MAX; 4];
    high_limb_small[3] = MODULUS[3] - 1;
    assert!(Scalar::from_limbs(high_limb_small).is_some());
    assert_eq!(Scalar::from_limbs([7, 0, 0, 0]).unwrap(), Scalar::from_u64(7));
}

#[test]
fn small_constants() {
    assert!(Scalar::zero().is_zero());
    assert!(!Scalar::one().is_zero());
    assert_eq!(Scalar::from_u64(0), Scalar::zero());
    assert_eq!(Scalar::from_u64(1), Scalar::one());
    assert_eq!(Scalar::from_u64(u64::MAX).to_limbs(), [u64::MAX, 0, 0, 0]);
    assert_eq!(Scalar::from_u64(9).normalized(), Scalar::from_u64(9));
    assert_eq!(scalar(ark_bls12_381::Fr::from(1807299544171u64)), Scalar::from_u64(1807299544171));
}

#[test]
fn products_of_large_elements_agree_with_the_field() {
    let x = ark_bls12_381::Fr::from(3u64).pow([200u64]);
    let y = ark_bls12_381::Fr::from(5u64).pow([150u64]);
    assert_eq!(fr(&scalar(x).mul(&scalar(y))), x * y);
    assert_eq!(fr(&scalar(x).add(&scalar(y))), x + y);
    assert_eq!(fr(&scalar(x).sub(&scalar(y))), x - y);
    assert_eq!(fr(&scalar(x).square()), x.square());
    assert_eq!(fr(&scalar(x).pow(77)), x.pow([77u64]));
    assert_eq!(fr(&scalar(x).inverse().unwrap()), x.inverse().unwrap());
}
