//! Points of the groups of BLS12-381, with the group arithmetic of `ark_ec`.
//!
//! The first group of the curve has prime order [`modulus`], and `ark_ec` fixes a
//! generator of it. Every point of the group is therefore a multiple `k` of that
//! generator, for exactly one `k` below the order. That `k` is the point's
//! [`G1Point::index`]. Nothing computes it; it is the coordinate in which the
//! contracts of the group operations are stated: adding points adds indices,
//! and a multi-scalar multiplication is a sum of products of scalars and indices.
use crate::algebra::dot;
use crate::field::{modulus, values, Scalar};
use ark_bls12_381::{Fr, G1Affine, G1Projective};
use ark_ec::scalar_mul::variable_base;
use ark_ec::{CurveGroup, VariableBaseMSM};
use ark_ff::{BigInt, Fp, PrimeField};
use ark_serialize::Valid;
use core::marker::PhantomData;
use vstd::prelude::*;

verus! {

/// Whether the affine point with these coordinates, given as the limbs that
/// `ark_ff` holds for them, lies on the curve and in its subgroup of prime order.
pub uninterp spec fn g1_member(x: Seq<u64>, y: Seq<u64>, infinity: bool) -> bool;

/// The multiple of the group's generator that the point with these coordinates is.
pub uninterp spec fn g1_index(x: Seq<u64>, y: Seq<u64>, infinity: bool) -> int;

/// The order of the base field of the curve.
pub open spec fn base_modulus() -> int {
    0x1a0111ea397fe69a4b1ba7b6434bacd764774b84f38512bf6730d2a0f6b0f6241eabfffeb153ffffb9feffffffffaaabint
}

/// The integer that six limbs spell, least significant limb first.
pub open spec fn base_value(l: Seq<u64>) -> int
    recommends
        l.len() == 6,
{
    l[0] as int + l[1] as int * 0x1_0000_0000_0000_0000int + l[2] as int
        * 0x1_0000_0000_0000_0000_0000_0000_0000_0000int + l[3] as int
        * 0x1_0000_0000_0000_0000_0000_0000_0000_0000_0000_0000_0000_0000int + l[4] as int
        * 0x1_0000_0000_0000_0000_0000_0000_0000_0000_0000_0000_0000_0000_0000_0000_0000_0000int
        + l[5] as int
        * 0x1_0000_0000_0000_0000_0000_0000_0000_0000_0000_0000_0000_0000_0000_0000_0000_0000_0000_0000_0000_0000int
}

/// Whether six limbs, least significant first, spell a number below the order of
/// the base field of the curve.
pub open spec fn base_canonical(l: Seq<u64>) -> bool
    recommends
        l.len() == 6,
{
    base_value(l) < base_modulus()
}

/// Whether six limbs spell zero.
pub open spec fn base_zero(l: Seq<u64>) -> bool
    recommends
        l.len() == 6,
{
    base_value(l) == 0
}

/// A point of the first group, in affine coordinates.
#[derive(Clone, Copy, Debug, PartialEq, Eq)]
pub struct G1Point {
    x: [u64; 6],
    y: [u64; 6],
    infinity: bool,
}

/// A point of the second group, in affine coordinates over the quadratic
/// extension of the base field. The library carries such points and never
/// computes with them.
#[derive(Clone, Copy, Debug, PartialEq, Eq)]
pub struct G2Point {
    /// The first component of the x-coordinate.
    pub x_c0: [u64; 6],
    /// The second component of the x-coordinate.
    pub x_c1: [u64; 6],
    /// The first component of the y-coordinate.
    pub y_c0: [u64; 6],
    /// The second component of the y-coordinate.
    pub y_c1: [u64; 6],
    /// Whether this is the point at infinity.
    pub infinity: bool,
}

/// The indices of a sequence of points.
pub open spec fn indices(s: Seq<G1Point>) -> Seq<int> {
    Seq::new(s.len(), |i: int| s[i].index())
}

/// The index of the multi-scalar multiplication of `bases` by `scalars`: the sum
/// of the products of each scalar and the index of its base.
pub open spec fn msm_index(bases: Seq<G1Point>, scalars: Seq<Scalar>) -> int {
    dot(values(scalars), indices(bases)) % modulus()
}

/// The scalars of a sequence of pairs.
pub open spec fn pair_scalars(pairs: Seq<(G1Point, Scalar)>) -> Seq<int> {
    Seq::new(pairs.len(), |i: int| pairs[i].1@)
}

/// The indices of the bases of a sequence of pairs.
pub open spec fn pair_indices(pairs: Seq<(G1Point, Scalar)>) -> Seq<int> {
    Seq::new(pairs.len(), |i: int| pairs[i].0.index())
}

/// The index of the sum of the products of the pairs.
pub open spec fn pairs_index(pairs: Seq<(G1Point, Scalar)>) -> int {
    dot(pair_scalars(pairs), pair_indices(pairs)) % modulus()
}

/// `Valid::check` of an affine point: it succeeds where the point is on the
/// curve and in the subgroup of prime order.
#[verifier::external_body]
fn g1_check(x: &[u64; 6], y: &[u64; 6], infinity: bool) -> (r: bool)
    ensures
        r == g1_member(x@, y@, infinity),
{
    let p = G1Affine { x: Fp(BigInt(*x), PhantomData), y: Fp(BigInt(*y), PhantomData), infinity };
    p.check().is_ok()
}

/// `Affine::identity`: the neutral element of the group, which is zero times the
/// generator.
#[verifier::external_body]
fn g1_zero() -> (r: G1Point)
    ensures
        g1_index(r.x@, r.y@, r.infinity) == 0,
{
    let s = G1Affine::identity();
    G1Point { x: s.x.0.0, y: s.y.0.0, infinity: s.infinity }
}

/// `Affine + Affine`, brought back to affine coordinates by
/// `CurveGroup::into_affine`: the index of the sum of two points of the group is
/// the sum of their indices modulo the group order.
#[verifier::external_body]
fn g1_add(a: &G1Point, b: &G1Point) -> (r: G1Point)
    ensures
        g1_index(r.x@, r.y@, r.infinity) == (g1_index(a.x@, a.y@, a.infinity) + g1_index(
            b.x@,
            b.y@,
            b.infinity,
        )) % modulus(),
{
    let p = G1Affine { x: Fp(BigInt(a.x), PhantomData), y: Fp(BigInt(a.y), PhantomData), infinity: a.infinity };
    let q = G1Affine { x: Fp(BigInt(b.x), PhantomData), y: Fp(BigInt(b.y), PhantomData), infinity: b.infinity };
    let s = (p + q).into_affine();
    G1Point { x: s.x.0.0, y: s.y.0.0, infinity: s.infinity }
}

/// `VariableBaseMSM::msm`: the inner product of the scalars and the bases where
/// the two slices have one length, and else an error that holds the shorter length.
#[verifier::external_body]
fn g1_msm(bases: &Vec<G1Point>, scalars: &Vec<Scalar>) -> (r: Result<G1Point, usize>)
    ensures
        r is Ok <==> bases@.len() == scalars@.len(),
        r is Ok ==> r->Ok_0.index() == msm_index(bases@, scalars@),
        r is Err ==> r->Err_0 == if bases@.len() <= scalars@.len() {
            bases@.len()
        } else {
            scalars@.len()
        },
{
    let b: Vec<G1Affine> = bases.iter().map(|p| G1Affine { x: Fp(BigInt(p.x), PhantomData), y: Fp(BigInt(p.y), PhantomData), infinity: p.infinity }).collect();
    let s: Vec<Fr> = scalars.iter().map(|s| Fr::from_bigint(BigInt(s.to_limbs())).unwrap()).collect();
    G1Projective::msm(&b, &s).map(|p| p.into_affine()).map(|s| G1Point { x: s.x.0.0, y: s.y.0.0, infinity: s.infinity })
}

impl G1Point {
    /// A point lies on the curve and in the subgroup of prime order, its
    /// coordinates are reduced, and the point at infinity has the coordinates zero.
    #[verifier::type_invariant]
    spec fn valid(self) -> bool {
        &&& g1_member(self.x@, self.y@, self.infinity)
        &&& base_canonical(self.x@)
        &&& base_canonical(self.y@)
        &&& self.infinity ==> base_zero(self.x@) && base_zero(self.y@)
    }

    /// The multiple of the generator that this point is.
    pub closed spec fn index(&self) -> int {
        g1_index(self.x@, self.y@, self.infinity)
    }

    /// The limbs of the x-coordinate.
    pub closed spec fn spec_x(&self) -> Seq<u64> {
        self.x@
    }

    /// The limbs of the y-coordinate.
    pub closed spec fn spec_y(&self) -> Seq<u64> {
        self.y@
    }

    /// Whether this is the point at infinity.
    pub closed spec fn spec_infinity(&self) -> bool {
        self.infinity
    }

    /// The point with the given coordinates, where they are reduced, the point
    /// lies on the curve and in the subgroup of prime order, and the point at
    /// infinity comes with the coordinates zero.
    pub fn from_raw(x: [u64; 6], y: [u64; 6], infinity: bool) -> (r: Option<G1Point>)
        ensures
            r is Some <==> base_canonical(x@) && base_canonical(y@) && g1_member(x@, y@, infinity)
                && (infinity ==> base_zero(x@) && base_zero(y@)),
            r is Some ==> r->0.spec_x() == x@ && r->0.spec_y() == y@ && r->0.spec_infinity()
                == infinity,
    {
        if infinity && !(limbs_zero(&x) && limbs_zero(&y)) {
            None
        } else if limbs_canonical(&x) && limbs_canonical(&y) && g1_check(&x, &y, infinity) {
            Some(G1Point { x, y, infinity })
        } else {
            None
        }
    }

    /// The limbs of the x-coordinate, as `ark_ff` holds them.
    pub fn x(&self) -> (r: [u64; 6])
        ensures
            r@ == self.spec_x(),
    {
        self.x
    }

    /// The limbs of the y-coordinate, as `ark_ff` holds them.
    pub fn y(&self) -> (r: [u64; 6])
        ensures
            r@ == self.spec_y(),
    {
        self.y
    }

    /// Whether this is the point at infinity.
    pub fn is_infinity(&self) -> (r: bool)
        ensures
            r == self.spec_infinity(),
    {
        self.infinity
    }

    /// The neutral element of the group.
    pub fn zero() -> (r: G1Point)
        ensures
            r.index() == 0,
    {
        g1_zero()
    }

    /// The sum of two points.
    pub fn add(&self, rhs: &G1Point) -> (r: G1Point)
        ensures
            r.index() == (self.index() + rhs.index()) % modulus(),
    {
        g1_add(self, rhs)
    }

    /// The multi-scalar multiplication of as many bases as scalars; `None`
    /// where the two differ in number.
    pub fn msm(bases: &Vec<G1Point>, scalars: &Vec<Scalar>) -> (r: Option<G1Point>)
        ensures
            r is Some <==> bases@.len() == scalars@.len(),
            r is Some ==> r->0.index() == msm_index(bases@, scalars@),
    {
        match g1_msm(bases, scalars) {
            Ok(p) => Some(p),
            Err(_) => None,
        }
    }
}

/// Whether six limbs are all zero.
pub fn limbs_zero(l: &[u64; 6]) -> (r: bool)
    ensures
        r == base_zero(l@),
{
    l[0] == 0 && l[1] == 0 && l[2] == 0 && l[3] == 0 && l[4] == 0 && l[5] == 0
}

/// Whether six limbs spell a number below the order of the base field.
pub fn limbs_canonical(l: &[u64; 6]) -> (r: bool)
    ensures
        r == base_canonical(l@),
{
    l[5] < 0x1a0111ea397fe69a || (l[5] == 0x1a0111ea397fe69a && (l[4] < 0x4b1ba7b6434bacd7 || (
    l[4] == 0x4b1ba7b6434bacd7 && (l[3] < 0x64774b84f38512bf || (l[3] == 0x64774b84f38512bf && (
    l[2] < 0x6730d2a0f6b0f624 || (l[2] == 0x6730d2a0f6b0f624 && (l[1] < 0x1eabfffeb153ffff || (
    l[1] == 0x1eabfffeb153ffff && l[0] < 0xb9feffffffffaaab)))))))))
}

/// A multi-scalar multiplication that takes its pairs one by one and keeps at
/// most a fixed number of them at a time: `ark_ec`'s `ChunkedPippenger`.
#[verifier::external_body]
pub struct ChunkedPippenger {
    inner: variable_base::ChunkedPippenger<G1Projective>,
}

/// The pairs that were given to a `ChunkedPippenger`, in the order in which they came.
pub uninterp spec fn chunked_pairs(p: ChunkedPippenger) -> Seq<(G1Point, Scalar)>;

/// `ChunkedPippenger::new`: an instance that holds no pair.
#[verifier::external_body]
fn chunked_new(max_msm_buffer: usize) -> (r: ChunkedPippenger)
    ensures
        chunked_pairs(r) == Seq::<(G1Point, Scalar)>::empty(),
{
    ChunkedPippenger { inner: variable_base::ChunkedPippenger::new(max_msm_buffer) }
}

/// `ChunkedPippenger::with_size`: an instance that holds no pair.
#[verifier::external_body]
fn chunked_with_size(buf_size: usize) -> (r: ChunkedPippenger)
    ensures
        chunked_pairs(r) == Seq::<(G1Point, Scalar)>::empty(),
{
    ChunkedPippenger { inner: variable_base::ChunkedPippenger::with_size(buf_size) }
}

/// `ChunkedPippenger::add`: takes one more pair of a base and a scalar.
#[verifier::external_body]
fn chunked_add(p: &mut ChunkedPippenger, base: &G1Point, scalar: &Scalar)
    ensures
        chunked_pairs(*final(p)) == chunked_pairs(*old(p)).push((*base, *scalar)),
{
    let b = G1Affine { x: Fp(BigInt(base.x), PhantomData), y: Fp(BigInt(base.y), PhantomData), infinity: base.infinity };
    p.inner.add(b, BigInt(scalar.to_limbs()));
}

/// `ChunkedPippenger::finalize`: the sum of the products of all the pairs taken.
/// The instance adds up the multi-scalar multiplications of its full buffers
/// and of what is left in the last one.
#[verifier::external_body]
fn chunked_finalize(p: ChunkedPippenger) -> (r: G1Point)
    ensures
        r.index() == pairs_index(chunked_pairs(p)),
{
    let s = p.inner.finalize().into_affine();
    G1Point { x: s.x.0.0, y: s.y.0.0, infinity: s.infinity }
}

impl ChunkedPippenger {
    /// The pairs taken so far.
    pub open spec fn pairs(&self) -> Seq<(G1Point, Scalar)> {
        chunked_pairs(*self)
    }

    /// An instance that keeps at most `max_msm_buffer` pairs at a time.
    pub fn new(max_msm_buffer: usize) -> (r: Self)
        ensures
            r.pairs() == Seq::<(G1Point, Scalar)>::empty(),
    {
        chunked_new(max_msm_buffer)
    }

    /// An instance that keeps at most `buf_size` pairs at a time.
    pub fn with_size(buf_size: usize) -> (r: Self)
        ensures
            r.pairs() == Seq::<(G1Point, Scalar)>::empty(),
    {
        chunked_with_size(buf_size)
    }

    /// Takes one more pair.
    pub fn add(&mut self, base: &G1Point, scalar: &Scalar)
        ensures
            final(self).pairs() == old(self).pairs().push((*base, *scalar)),
    {
        chunked_add(self, base, scalar)
    }

    /// The sum of the products of all the pairs taken.
    pub fn finalize(self) -> (r: G1Point)
        ensures
            r.index() == pairs_index(self.pairs()),
    {
        chunked_finalize(self)
    }
}

/// A multi-scalar multiplication that takes its pairs one by one and adds up
/// the scalars that come with one base: `ark_ec`'s `HashMapPippenger`.
#[verifier::external_body]
pub struct HashMapPippenger {
    inner: variable_base::HashMapPippenger<G1Projective>,
}

/// The pairs that were given to a `HashMapPippenger`, in the order in which they came.
pub uninterp spec fn hashed_pairs(p: HashMapPippenger) -> Seq<(G1Point, Scalar)>;

/// `HashMapPippenger::new`: an instance that holds no pair.
#[verifier::external_body]
fn hashed_new(max_msm_buffer: usize) -> (r: HashMapPippenger)
    ensures
        hashed_pairs(r) == Seq::<(G1Point, Scalar)>::empty(),
{
    HashMapPippenger { inner: variable_base::HashMapPippenger::new(max_msm_buffer) }
}

/// `HashMapPippenger::add`: takes one more pair of a base and a scalar.
#[verifier::external_body]
fn hashed_add(p: &mut HashMapPippenger, base: &G1Point, scalar: &Scalar)
    ensures
        hashed_pairs(*final(p)) == hashed_pairs(*old(p)).push((*base, *scalar)),
{
    let b = G1Affine { x: Fp(BigInt(base.x), PhantomData), y: Fp(BigInt(base.y), PhantomData), infinity: base.infinity };
    p.inner.add(b, Fr::from_bigint(BigInt(scalar.to_limbs())).unwrap());
}

/// `HashMapPippenger::finalize`: the sum of the products of all the pairs taken.
/// The instance adds the scalars of one base in the field before it multiplies,
/// which gives the same point.
#[verifier::external_body]
fn hashed_finalize(p: HashMapPippenger) -> (r: G1Point)
    ensures
        r.index() == pairs_index(hashed_pairs(p)),
{
    let s = p.inner.finalize().into_affine();
    G1Point { x: s.x.0.0, y: s.y.0.0, infinity: s.infinity }
}

impl HashMapPippenger {
    /// The pairs taken so far.
    pub open spec fn pairs(&self) -> Seq<(G1Point, Scalar)> {
        hashed_pairs(*self)
    }

    /// An instance that keeps at most `max_msm_buffer` bases at a time.
    pub fn new(max_msm_buffer: usize) -> (r: Self)
        ensures
            r.pairs() == Seq::<(G1Point, Scalar)>::empty(),
    {
        hashed_new(max_msm_buffer)
    }

    /// Takes one more pair.
    pub fn add(&mut self, base: &G1Point, scalar: &Scalar)
        ensures
            final(self).pairs() == old(self).pairs().push((*base, *scalar)),
    {
        hashed_add(self, base, scalar)
    }

    /// The sum of the products of all the pairs taken.
    pub fn finalize(self) -> (r: G1Point)
        ensures
            r.index() == pairs_index(self.pairs()),
    {
        hashed_finalize(self)
    }
}

} // verus!
