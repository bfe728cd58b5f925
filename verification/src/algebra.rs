//! Congruences modulo the field order, and sums of products.
//!
//! The models of this crate are written over the integers; an executable result
//! is such an integer reduced modulo [`modulus`]. The lemmas here carry a
//! computation that reduces at every step over to the integer it stands for.
use crate::field::modulus;
use vstd::arithmetic::div_mod::*;
use vstd::arithmetic::mul::*;
use vstd::prelude::*;

verus! {

/// Whether two integers stand for the same field element.
pub open spec fn congruent(a: int, b: int) -> bool {
    a % modulus() == b % modulus()
}

/// An integer and its residue stand for the same field element.
pub proof fn lemma_residue_congruent(a: int)
    ensures
        congruent(a % modulus(), a),
        0 <= a % modulus() < modulus(),
{
    lemma_mod_twice(a, modulus());
}

/// Sums of congruent integers are congruent.
pub proof fn lemma_add_congruent(a: int, a2: int, b: int, b2: int)
    requires
        congruent(a, a2),
        congruent(b, b2),
    ensures
        congruent(a + b, a2 + b2),
{
    lemma_add_mod_noop(a, b, modulus());
    lemma_add_mod_noop(a2, b2, modulus());
}

/// Differences of congruent integers are congruent.
pub proof fn lemma_sub_congruent(a: int, a2: int, b: int, b2: int)
    requires
        congruent(a, a2),
        congruent(b, b2),
    ensures
        congruent(a - b, a2 - b2),
{
    lemma_sub_mod_noop(a, b, modulus());
    lemma_sub_mod_noop(a2, b2, modulus());
}

/// Products of congruent integers are congruent.
pub proof fn lemma_mul_congruent(a: int, a2: int, b: int, b2: int)
    requires
        congruent(a, a2),
        congruent(b, b2),
    ensures
        congruent(a * b, a2 * b2),
{
    lemma_mul_mod_noop_general(a, b, modulus());
    lemma_mul_mod_noop_general(a2, b2, modulus());
}

/// The sum of the products `a[i] * b[i]` over the first `n` indices.
pub open spec fn dot_upto(a: Seq<int>, b: Seq<int>, n: nat) -> int
    decreases n,
{
    if n == 0 {
        0
    } else {
        dot_upto(a, b, (n - 1) as nat) + a[n - 1] * b[n - 1]
    }
}

/// The sum of the products `a[i] * b[i]` over the indices that both sequences have.
pub open spec fn dot(a: Seq<int>, b: Seq<int>) -> int {
    dot_upto(a, b, if a.len() <= b.len() { a.len() } else { b.len() })
}

/// A partial sum depends on the terms that it covers only.
pub proof fn lemma_dot_upto_agree(a: Seq<int>, b: Seq<int>, a2: Seq<int>, b2: Seq<int>, n: nat)
    requires
        forall|i: int| 0 <= i < n ==> a[i] == a2[i] && b[i] == b2[i],
    ensures
        dot_upto(a, b, n) == dot_upto(a2, b2, n),
    decreases n,
{
    if n > 0 {
        lemma_dot_upto_agree(a, b, a2, b2, (n - 1) as nat);
    }
}

/// Appending one term to each sequence adds their product.
pub proof fn lemma_dot_push(a: Seq<int>, b: Seq<int>, x: int, y: int)
    requires
        a.len() == b.len(),
    ensures
        dot(a.push(x), b.push(y)) == dot(a, b) + x * y,
{
    lemma_dot_upto_agree(a.push(x), b.push(y), a, b, a.len());
}

/// Partial sums of products of termwise congruent sequences are congruent.
pub proof fn lemma_dot_upto_congruent(
    a: Seq<int>,
    a2: Seq<int>,
    b: Seq<int>,
    b2: Seq<int>,
    n: nat,
)
    requires
        forall|i: int| 0 <= i < n ==> congruent(#[trigger] a[i], a2[i]),
        forall|i: int| 0 <= i < n ==> congruent(#[trigger] b[i], b2[i]),
    ensures
        congruent(dot_upto(a, b, n), dot_upto(a2, b2, n)),
    decreases n,
{
    if n > 0 {
        lemma_dot_upto_congruent(a, a2, b, b2, (n - 1) as nat);
        lemma_mul_congruent(a[n - 1], a2[n - 1], b[n - 1], b2[n - 1]);
        lemma_add_congruent(
            dot_upto(a, b, (n - 1) as nat),
            dot_upto(a2, b2, (n - 1) as nat),
            a[n - 1] * b[n - 1],
            a2[n - 1] * b2[n - 1],
        );
    }
}

/// A partial sum of products in which every left factor is zero is zero.
pub proof fn lemma_dot_upto_zero(a: Seq<int>, b: Seq<int>, n: nat)
    requires
        forall|i: int| 0 <= i < n ==> #[trigger] a[i] == 0,
    ensures
        dot_upto(a, b, n) == 0,
    decreases n,
{
    if n > 0 {
        lemma_dot_upto_zero(a, b, (n - 1) as nat);
    }
}

/// The next power of two is twice this one, and every power of two is positive.
pub proof fn lemma_pow2_double(l: nat)
    ensures
        vstd::arithmetic::power2::pow2(l + 1) == 2 * vstd::arithmetic::power2::pow2(l),
        vstd::arithmetic::power2::pow2(l) >= 1,
{
    vstd::arithmetic::power2::lemma_pow2_unfold(l + 1);
    vstd::arithmetic::power2::lemma_pow2_pos(l);
}

/// A power of two splits into the product of two smaller ones.
pub proof fn lemma_pow2_split(a: nat, b: nat)
    requires
        a <= b,
    ensures
        vstd::arithmetic::power2::pow2(b) == vstd::arithmetic::power2::pow2(a)
            * vstd::arithmetic::power2::pow2((b - a) as nat),
{
    vstd::arithmetic::power2::lemma_pow2_adds(a, (b - a) as nat);
}

/// Powers of two grow with the exponent.
pub proof fn lemma_pow2_monotone(a: nat, b: nat)
    requires
        a <= b,
    ensures
        vstd::arithmetic::power2::pow2(a) <= vstd::arithmetic::power2::pow2(b),
{
    if a < b {
        vstd::arithmetic::power2::lemma_pow2_strictly_increases(a, b);
    }
}

/// A positive factor cancels from both sides of an equation.
pub proof fn lemma_mul_cancel(a: int, b: int, p: int)
    requires
        p > 0,
        a * p == b * p,
    ensures
        a == b,
{
    lemma_mul_equality_converse(p, a, b);
    assert(p * a == a * p) by (nonlinear_arith);
    assert(p * b == b * p) by (nonlinear_arith);
}

/// An odd multiple of a power of two is no multiple of a larger power of two.
pub proof fn lemma_odd_multiple(o: int, a: nat, x: int, b: nat)
    requires
        o % 2 == 1,
        a < b,
    ensures
        o * vstd::arithmetic::power2::pow2(a) != x * vstd::arithmetic::power2::pow2(b),
{
    let pa = vstd::arithmetic::power2::pow2(a) as int;
    let pb = vstd::arithmetic::power2::pow2(b) as int;
    let pc = vstd::arithmetic::power2::pow2((b - a - 1) as nat) as int;
    lemma_pow2_split(a, b);
    lemma_pow2_double((b - a - 1) as nat);
    lemma_pow2_double(a);
    assert(pb == pa * (2 * pc));
    if o * pa == x * pb {
        assert(x * (pa * (2 * pc)) == (2 * (x * pc)) * pa) by (nonlinear_arith);
        lemma_mul_cancel(o, 2 * (x * pc), pa);
        assert(false);
    }
}

/// A partial sum taken `l` terms further grows by the sum over those `l` terms.
pub proof fn lemma_dot_upto_chunk(a: Seq<int>, b: Seq<int>, c: nat, l: nat)
    requires
        c + l <= a.len(),
        c + l <= b.len(),
    ensures
        dot_upto(a, b, c + l) == dot_upto(a, b, c) + dot(
            a.subrange(c as int, (c + l) as int),
            b.subrange(c as int, (c + l) as int),
        ),
    decreases l,
{
    if l > 0 {
        lemma_dot_upto_chunk(a, b, c, (l - 1) as nat);
        lemma_dot_upto_agree(
            a.subrange(c as int, (c + l) as int),
            b.subrange(c as int, (c + l) as int),
            a.subrange(c as int, c + l - 1),
            b.subrange(c as int, c + l - 1),
            (l - 1) as nat,
        );
    }
}

/// Adding `x` to one term of the right sequence adds `x` times the term of the
/// left sequence that goes with it.
pub proof fn lemma_dot_upto_update(a: Seq<int>, b: Seq<int>, i: int, x: int, n: nat)
    requires
        0 <= i < b.len(),
        n <= b.len(),
    ensures
        dot_upto(a, b.update(i, b[i] + x), n) == dot_upto(a, b, n) + if i < n {
            a[i] * x
        } else {
            0
        },
    decreases n,
{
    if n > 0 {
        lemma_dot_upto_update(a, b, i, x, (n - 1) as nat);
        if i == n - 1 {
            assert(a[i] * (b[i] + x) == a[i] * b[i] + a[i] * x) by (nonlinear_arith);
        }
    }
}

} // verus!
