//! Elements of the scalar field of BLS12-381, with the field arithmetic of `ark_ff`.
//!
//! A [`Scalar`] holds the canonical representative of a residue modulo the group
//! order as four 64-bit limbs. Its view is that representative as an integer, and
//! every operation is specified as integer arithmetic modulo [`modulus`].
use ark_ff::{Field, PrimeField};
use vstd::prelude::*;

verus! {

/// The order of the scalar field: the prime number of elements of the groups of BLS12-381.
pub open spec fn modulus() -> int {
    0x73eda753299d7d483339d80809a1d80553bda402fffe5bfeffffffff00000001int
}

/// The integer that four limbs spell, least significant limb first.
pub open spec fn limbs_value(limbs: Seq<u64>) -> int
    recommends
        limbs.len() == 4,
{
    limbs[0] as int + limbs[1] as int * 0x1_0000_0000_0000_0000int + limbs[2] as int
        * 0x1_0000_0000_0000_0000_0000_0000_0000_0000int + limbs[3] as int
        * 0x1_0000_0000_0000_0000_0000_0000_0000_0000_0000_0000_0000_0000int
}

/// An element of the scalar field, held as its canonical representative.
#[derive(Clone, Copy, Debug, PartialEq, Eq)]
pub struct Scalar {
    limbs: [u64; 4],
}

/// The views of a sequence of scalars.
pub open spec fn values(s: Seq<Scalar>) -> Seq<int> {
    Seq::new(s.len(), |i: int| s[i]@)
}

/// `Fr + Fr`: the sum of two field elements is the sum of their representatives,
/// reduced modulo the field order.
#[verifier::external_body]
fn fr_add(a: &Scalar, b: &Scalar) -> (r: Scalar)
    ensures
        r@ == (a@ + b@) % modulus(),
{
    let x = ark_bls12_381::Fr::from_bigint(ark_ff::BigInt(a.limbs)).unwrap();
    let y = ark_bls12_381::Fr::from_bigint(ark_ff::BigInt(b.limbs)).unwrap();
    Scalar { limbs: (x + y).into_bigint().0 }
}

/// `Fr - Fr`: the difference of two field elements is the difference of their
/// representatives, reduced modulo the field order into `0..modulus()`.
#[verifier::external_body]
fn fr_sub(a: &Scalar, b: &Scalar) -> (r: Scalar)
    ensures
        r@ == (a@ - b@) % modulus(),
{
    let x = ark_bls12_381::Fr::from_bigint(ark_ff::BigInt(a.limbs)).unwrap();
    let y = ark_bls12_381::Fr::from_bigint(ark_ff::BigInt(b.limbs)).unwrap();
    Scalar { limbs: (x - y).into_bigint().0 }
}

/// `Fr * Fr`: the product of two field elements is the product of their
/// representatives, reduced modulo the field order.
#[verifier::external_body]
fn fr_mul(a: &Scalar, b: &Scalar) -> (r: Scalar)
    ensures
        r@ == (a@ * b@) % modulus(),
{
    let x = ark_bls12_381::Fr::from_bigint(ark_ff::BigInt(a.limbs)).unwrap();
    let y = ark_bls12_381::Fr::from_bigint(ark_ff::BigInt(b.limbs)).unwrap();
    Scalar { limbs: (x * y).into_bigint().0 }
}

/// `-Fr`: the additive inverse of a field element.
#[verifier::external_body]
fn fr_neg(a: &Scalar) -> (r: Scalar)
    ensures
        r@ == (-a@) % modulus(),
{
    let x = ark_bls12_381::Fr::from_bigint(ark_ff::BigInt(a.limbs)).unwrap();
    Scalar { limbs: (-x).into_bigint().0 }
}

/// `Field::square`: documented to return `self * self`.
#[verifier::external_body]
fn fr_square(a: &Scalar) -> (r: Scalar)
    ensures
        r@ == (a@ * a@) % modulus(),
{
    let x = ark_bls12_381::Fr::from_bigint(ark_ff::BigInt(a.limbs)).unwrap();
    Scalar { limbs: x.square().into_bigint().0 }
}

/// `Field::inverse`: documented to compute the multiplicative inverse of a nonzero
/// element, and to return `None` for zero. The inverse is the representative whose
/// product with the argument is one modulo the field order.
#[verifier::external_body]
fn fr_inverse(a: &Scalar) -> (r: Option<Scalar>)
    ensures
        r is None <==> a@ == 0,
        r is Some ==> 0 <= r->0@ < modulus() && (r->0@ * a@) % modulus() == 1,
{
    let x = ark_bls12_381::Fr::from_bigint(ark_ff::BigInt(a.limbs)).unwrap();
    x.inverse().map(|y| Scalar { limbs: y.into_bigint().0 })
}

/// `Field::pow` with a one-limb exponent: documented to return `self^exp`.
#[verifier::external_body]
fn fr_pow(a: &Scalar, exp: u64) -> (r: Scalar)
    ensures
        r@ == vstd::arithmetic::power::pow(a@, exp as nat) % modulus(),
{
    let x = ark_bls12_381::Fr::from_bigint(ark_ff::BigInt(a.limbs)).unwrap();
    Scalar { limbs: x.pow(&[exp]).into_bigint().0 }
}

impl Scalar {
    /// A scalar always holds a representative below the field order.
    #[verifier::type_invariant]
    spec fn canonical(self) -> bool {
        0 <= limbs_value(self.limbs@) < modulus()
    }

    /// The canonical representative, an integer in `0..modulus()`.
    pub closed spec fn view(&self) -> int {
        limbs_value(self.limbs@)
    }

    /// The four limbs of the representative, least significant first.
    pub closed spec fn spec_limbs(&self) -> Seq<u64> {
        self.limbs@
    }

    /// The scalar whose representative is `x`, for `x` in `0..modulus()`.
    pub closed spec fn of_value(x: int) -> Scalar {
        Scalar {
            limbs: [
                (x % 0x1_0000_0000_0000_0000int) as u64,
                ((x / 0x1_0000_0000_0000_0000int) % 0x1_0000_0000_0000_0000int) as u64,
                ((x / 0x1_0000_0000_0000_0000_0000_0000_0000_0000int) % 0x1_0000_0000_0000_0000int) as u64,
                ((x / 0x1_0000_0000_0000_0000_0000_0000_0000_0000_0000_0000_0000_0000int)
                    % 0x1_0000_0000_0000_0000int) as u64,
            ],
        }
    }

    /// `of_value` is the inverse of the view on `0..modulus()`.
    pub proof fn lemma_of_value(x: int)
        requires
            0 <= x < modulus(),
        ensures
            Scalar::of_value(x)@ == x,
    {
        let s = Scalar::of_value(x);
        assert(s.limbs@.len() == 4);
    }

    /// A scalar is the one that `of_value` gives for its view.
    pub proof fn lemma_of_view(self)
        ensures
            Scalar::of_value(self@) == self,
    {
        let s = Scalar::of_value(self@);
        assert(self.limbs@.len() == 4);
        assert(s.limbs@.len() == 4);
        assert(s.limbs@[0] == self.limbs@[0]);
        assert(s.limbs@[1] == self.limbs@[1]);
        assert(s.limbs@[2] == self.limbs@[2]);
        assert(s.limbs@[3] == self.limbs@[3]);
        assert(s.limbs@ =~= self.limbs@);
        assert(s.limbs =~= self.limbs);
    }

    /// The field element represented by a small integer.
    pub fn from_u64(v: u64) -> (r: Scalar)
        ensures
            r@ == v,
    {
        Scalar { limbs: [v, 0, 0, 0] }
    }

    /// The additive identity.
    pub fn zero() -> (r: Scalar)
        ensures
            r@ == 0,
            r == Scalar::of_value(0),
    {
        let r = Scalar { limbs: [0, 0, 0, 0] };
        proof {
            r.lemma_of_view();
        }
        r
    }

    /// The multiplicative identity.
    pub fn one() -> (r: Scalar)
        ensures
            r@ == 1,
    {
        Scalar { limbs: [1, 0, 0, 0] }
    }

    /// The scalar with the given limbs, if they spell a representative below the field order.
    pub fn from_limbs(limbs: [u64; 4]) -> (r: Option<Scalar>)
        ensures
            r is Some <==> limbs_value(limbs@) < modulus(),
            r is Some ==> r->0@ == limbs_value(limbs@) && r->0.spec_limbs() == limbs@,
    {
        let l0: u64 = limbs[0];
        let l1: u64 = limbs[1];
        let l2: u64 = limbs[2];
        let l3: u64 = limbs[3];
        let below = l3 < 0x73eda753299d7d48 || (l3 == 0x73eda753299d7d48 && (l2 < 0x3339d80809a1d805
            || (l2 == 0x3339d80809a1d805 && (l1 < 0x53bda402fffe5bfe || (l1 == 0x53bda402fffe5bfe
            && l0 < 0xffffffff00000001)))));
        if below {
            Some(Scalar { limbs })
        } else {
            None
        }
    }

    /// The scalar itself, known to hold a representative below the field order.
    pub fn normalized(&self) -> (r: Scalar)
        ensures
            r == *self,
            0 <= r@ < modulus(),
    {
        proof {
            use_type_invariant(self);
        }
        *self
    }

    /// The limbs of the representative, least significant first.
    pub fn to_limbs(&self) -> (r: [u64; 4])
        ensures
            r@ == self.spec_limbs(),
            limbs_value(r@) == self@,
    {
        self.limbs
    }

    /// Whether this is the additive identity.
    pub fn is_zero(&self) -> (r: bool)
        ensures
            r == (self@ == 0),
    {
        self.limbs[0] == 0 && self.limbs[1] == 0 && self.limbs[2] == 0 && self.limbs[3] == 0
    }

    /// The sum in the field.
    pub fn add(&self, rhs: &Scalar) -> (r: Scalar)
        ensures
            r@ == (self@ + rhs@) % modulus(),
    {
        fr_add(self, rhs)
    }

    /// The difference in the field.
    pub fn sub(&self, rhs: &Scalar) -> (r: Scalar)
        ensures
            r@ == (self@ - rhs@) % modulus(),
    {
        fr_sub(self, rhs)
    }

    /// The product in the field.
    pub fn mul(&self, rhs: &Scalar) -> (r: Scalar)
        ensures
            r@ == (self@ * rhs@) % modulus(),
    {
        fr_mul(self, rhs)
    }

    /// The additive inverse in the field.
    pub fn neg(&self) -> (r: Scalar)
        ensures
            r@ == (-self@) % modulus(),
    {
        fr_neg(self)
    }

    /// The square in the field.
    pub fn square(&self) -> (r: Scalar)
        ensures
            r@ == (self@ * self@) % modulus(),
    {
        fr_square(self)
    }

    /// The multiplicative inverse, which every element but zero has.
    pub fn inverse(&self) -> (r: Option<Scalar>)
        ensures
            r is None <==> self@ == 0,
            r is Some ==> 0 <= r->0@ < modulus() && (r->0@ * self@) % modulus() == 1,
    {
        fr_inverse(self)
    }

    /// The power with a machine-word exponent.
    pub fn pow(&self, exp: u64) -> (r: Scalar)
        ensures
            r@ == vstd::arithmetic::power::pow(self@, exp as nat) % modulus(),
    {
        fr_pow(self, exp)
    }
}

} // verus!
