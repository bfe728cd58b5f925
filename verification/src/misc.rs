//! Small arithmetic helpers on machine words.
use crate::algebra::{
    lemma_add_congruent, lemma_mul_congruent, lemma_pow2_double, lemma_residue_congruent,
};
use crate::field::{modulus, values, Scalar};
use crate::polynomial::{evaluate, horner};
use vstd::arithmetic::power2::pow2;
use vstd::prelude::*;

verus! {

/// The quotient of `n` by `d`, rounded up.
pub open spec fn spec_ceil_div(n: int, d: int) -> int
    recommends
        d > 0,
{
    if n % d == 0 {
        n / d
    } else {
        n / d + 1
    }
}

/// The quotient of `x` by `y`, rounded up.
pub fn ceil_div(x: usize, y: usize) -> (r: usize)
    requires
        y > 0,
    ensures
        r == spec_ceil_div(x as int, y as int),
{
    if x % y == 0 {
        x / y
    } else {
        proof {
            vstd::arithmetic::div_mod::lemma_fundamental_div_mod(x as int, y as int);
            let q = x as int / y as int;
            assert(q < usize::MAX) by (nonlinear_arith)
                requires
                    x == y * q + (x as int % y as int),
                    x as int % y as int > 0,
                    y >= 1,
                    q >= 0,
                    x <= usize::MAX,
            ;
        }
        x / y + 1
    }
}

/// What `ceil_div` computes: the least `q` with `n <= q * d`.
pub proof fn lemma_ceil_div_bounds(n: int, d: int)
    requires
        n >= 0,
        d > 0,
    ensures
        spec_ceil_div(n, d) >= 0,
        n <= spec_ceil_div(n, d) * d,
        spec_ceil_div(n, d) * d < n + d,
        n > 0 ==> spec_ceil_div(n, d) >= 1,
{
    vstd::arithmetic::div_mod::lemma_fundamental_div_mod(n, d);
    vstd::arithmetic::div_mod::lemma_div_pos_is_pos(n, d);
    let q = n / d;
    assert(d * q == q * d) by (nonlinear_arith);
    assert((q + 1) * d == q * d + d) by (nonlinear_arith);
    if n > 0 && q == 0 {
        assert(d * q == 0) by (nonlinear_arith)
            requires
                q == 0,
        ;
    }
}

/// The quotient rounded up is the one `q` with `n <= q * d < n + d`.
pub proof fn lemma_ceil_div_unique(n: int, d: int, q: int)
    requires
        n >= 0,
        d > 0,
        n <= q * d,
        q * d < n + d,
    ensures
        q == spec_ceil_div(n, d),
{
    lemma_ceil_div_bounds(n, d);
    let c = spec_ceil_div(n, d);
    assert(q == c) by (nonlinear_arith)
        requires
            d > 0,
            n <= q * d,
            q * d < n + d,
            n <= c * d,
            c * d < n + d,
    ;
}

/// Two to the power `k`, where that fits a machine word.
pub fn pow2_usize(k: usize) -> (r: usize)
    requires
        pow2(k as nat) <= usize::MAX,
    ensures
        r == pow2(k as nat),
{
    let mut r: usize = 1;
    let mut i: usize = 0;
    proof {
        vstd::arithmetic::power2::lemma2_to64();
    }
    while i < k
        invariant
            i <= k,
            r == pow2(i as nat),
            pow2(k as nat) <= usize::MAX,
        decreases k - i,
    {
        proof {
            lemma_pow2_double(i as nat);
            crate::algebra::lemma_pow2_monotone((i + 1) as nat, k as nat);
        }
        r = r * 2;
        i = i + 1;
    }
    r
}

/// The least `r` with `x <= 2^r`; zero for `x = 0`.
pub open spec fn ceil_log2(x: nat) -> nat
    decreases x,
{
    if x <= 1 {
        0
    } else {
        1 + ceil_log2(((x + 1) / 2) as nat)
    }
}

/// `ark_std::log2`: documented to return the ceiling of the base-2 logarithm of
/// its argument, and zero for zero.
pub assume_specification[ ark_std::log2 ](x: usize) -> (r: u32)
    ensures
        r == ceil_log2(x as nat),
;

/// What `ceil_log2` computes: `2^(r-1) < x <= 2^r` for `x` above one.
pub proof fn lemma_ceil_log2_bounds(x: nat)
    ensures
        x <= pow2(ceil_log2(x)),
        x > 1 ==> pow2((ceil_log2(x) - 1) as nat) < x,
    decreases x,
{
    vstd::arithmetic::power2::lemma2_to64();
    if x > 1 {
        let h = ((x + 1) / 2) as nat;
        lemma_ceil_log2_bounds(h);
        lemma_pow2_double(ceil_log2(h));
        if h > 1 {
            lemma_pow2_double((ceil_log2(h) - 1) as nat);
        }
    }
}

/// Halving the length, rounding up, takes one from the logarithm.
pub proof fn lemma_ceil_log2_halves(x: nat)
    requires
        x > 1,
    ensures
        ceil_log2(x) == 1 + ceil_log2(spec_ceil_div(x as int, 2) as nat),
{
}

/// A vector with the items of a slice.
pub fn copy_of<T: Copy>(s: &[T]) -> (v: Vec<T>)
    ensures
        v@ == s@,
{
    let mut v: Vec<T> = Vec::new();
    let mut i: usize = 0;
    while i < s.len()
        invariant
            i <= s@.len(),
            v@ == s@.take(i as int),
        decreases s@.len() - i,
    {
        v.push(s[i]);
        proof {
            assert(s@.take(i + 1) =~= s@.take(i as int).push(s@[i as int]));
        }
        i = i + 1;
    }
    proof {
        assert(s@.take(s@.len() as int) =~= s@);
    }
    v
}

/// The value at `x` of the polynomial with the given coefficients, highest
/// degree first.
pub fn evaluate_be(polynomial: &[Scalar], x: &Scalar) -> (r: Scalar)
    ensures
        r@ == evaluate(values(polynomial@), x@) % modulus(),
{
    let mut r = Scalar::zero();
    let mut i: usize = 0;
    let ghost p = values(polynomial@);
    while i < polynomial.len()
        invariant
            i <= polynomial@.len(),
            p == values(polynomial@),
            r@ == horner(p, x@, i as nat) % modulus(),
        decreases polynomial@.len() - i,
    {
        proof {
            let h = horner(p, x@, i as nat);
            lemma_residue_congruent(h);
            lemma_mul_congruent(r@, h, x@, x@);
            lemma_residue_congruent(r@ * x@);
            lemma_add_congruent((r@ * x@) % modulus(), h * x@, polynomial@[i as int]@, p[i as int]);
        }
        r = r.mul(x).add(&polynomial[i]);
        i = i + 1;
    }
    r
}

} // verus!
