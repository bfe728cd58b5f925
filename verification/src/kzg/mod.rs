//! The polynomial commitment of Kate, Zaverucha and Goldberg.
//!
//! A commitment to a polynomial is the multi-scalar multiplication of its
//! coefficients with the powers of a secret in the first group; an opening at a
//! point is a commitment to the quotient of the polynomial by the divisor that
//! vanishes at the point.
pub mod space;
pub mod time;

use crate::algebra::{
    congruent, lemma_mul_congruent, lemma_residue_congruent, lemma_sub_congruent,
};
use crate::field::{modulus, values, Scalar};
use crate::group::{G1Point, G2Point};
use crate::polynomial::{coeff, times_linear, vanishing, window};
use std::collections::VecDeque;
use vstd::prelude::*;

verus! {

/// A commitment to a polynomial.
#[derive(Clone, Copy, Debug, PartialEq, Eq)]
pub struct Commitment(pub G1Point);

/// The proof that a polynomial takes given values at given points: a commitment
/// to the quotient.
#[derive(Clone, Copy, Debug, PartialEq, Eq)]
pub struct EvaluationProof(pub G1Point);

/// The key of the verifier.
#[derive(Clone, Debug, PartialEq, Eq)]
pub struct VerifierKey {
    /// The generator of the first group.
    pub powers_of_g: Vec<G1Point>,
    /// The powers of the secret in the second group.
    pub powers_of_g2: Vec<G2Point>,
}

/// The polynomial that vanishes at the given points, by degree: the product of
/// `X - point` over all of them, with leading coefficient one.
pub fn vanishing_polynomial(points: &[Scalar]) -> (z: Vec<Scalar>)
    ensures
        z@.len() == points@.len() + 1,
        forall|j: int|
            0 <= j <= points@.len() ==> (#[trigger] z@[j])@ == vanishing(values(points@))[j]
                % modulus(),
{
    let m = points.len();
    let ghost pts = values(points@);
    let mut z: Vec<Scalar> = Vec::new();
    z.push(Scalar::one());
    let mut i: usize = 0;
    proof {
        assert(pts.take(0) =~= Seq::<int>::empty());
    }
    while i < m
        invariant
            i <= m,
            m == points@.len(),
            pts == values(points@),
            z@.len() == i + 1,
            forall|j: int|
                0 <= j <= i ==> (#[trigger] z@[j])@ == vanishing(pts.take(i as int))[j] % modulus(),
        decreases m - i,
    {
        let a = points[i];
        let ghost old_z = vanishing(pts.take(i as int));
        let ghost new_z = vanishing(pts.take(i + 1));
        proof {
            crate::polynomial::lemma_vanishing_monic(pts.take(i as int));
            assert(pts.take(i + 1).drop_last() =~= pts.take(i as int));
            assert(pts.take(i + 1).last() == a@);
            assert(new_z == times_linear(old_z, a@));
        }
        let len = z.len();
        let mut next: Vec<Scalar> = Vec::new();
        let mut j: usize = 0;
        while j < len
            invariant
                j <= len,
                len == i + 1,
                i < m,
                z@.len() == i + 1,
                old_z.len() == i + 1,
                next@.len() == j,
                new_z == times_linear(old_z, a@),
                forall|x: int| 0 <= x <= i ==> (#[trigger] z@[x])@ == old_z[x] % modulus(),
                forall|x: int| 0 <= x < j ==> (#[trigger] next@[x])@ == new_z[x] % modulus(),
            decreases len - j,
        {
            let lower = if j > 0 {
                z[j - 1]
            } else {
                Scalar::zero()
            };
            let upper = z[j];
            let prod = a.mul(&upper);
            let x = lower.sub(&prod);
            proof {
                let lo = coeff(old_z, j - 1);
                let up = coeff(old_z, j as int);
                lemma_residue_congruent(lo);
                lemma_residue_congruent(up);
                assert(congruent(lower@, lo));
                assert(congruent(upper@, up));
                lemma_mul_congruent(a@, a@, upper@, up);
                lemma_residue_congruent(a@ * upper@);
                lemma_sub_congruent(lower@, lo, prod@, a@ * up);
            }
            next.push(x);
            j = j + 1;
        }
        let lower = z[len - 1];
        let prod = a.mul(&Scalar::zero());
        let x = lower.sub(&prod);
        proof {
            let lo = coeff(old_z, len - 1);
            lemma_residue_congruent(lo);
            assert(a@ * 0 == 0);
            lemma_residue_congruent(a@ * 0);
            lemma_sub_congruent(lower@, lo, prod@, a@ * 0);
        }
        next.push(x);
        z = next;
        i = i + 1;
    }
    proof {
        assert(pts.take(m as int) =~= pts);
    }
    z
}

/// One step of a division: the window gives up its head, the next coefficient of
/// the quotient, and takes the next coefficient `c` of the dividend at its end;
/// then the divisor times the head is taken off every item of the window.
pub fn window_step(state: &mut VecDeque<Scalar>, zeros: &Vec<Scalar>, c: &Scalar) -> (head: Scalar)
    requires
        old(state)@.len() >= 1,
        zeros@.len() == old(state)@.len() + 1,
    ensures
        head == old(state)@[0],
        final(state)@.len() == old(state)@.len(),
        forall|j: int|
            0 <= j < old(state)@.len() ==> (#[trigger] final(state)@[j])@ == ((if j + 1 < old(
                state,
            )@.len() {
                old(state)@[j + 1]@
            } else {
                c@
            }) - zeros@[old(state)@.len() - 1 - j]@ * old(state)@[0]@) % modulus(),
{
    let m = state.len();
    let head = match state.pop_front() {
        Some(x) => x,
        None => vstd::pervasive::unreached(),
    };
    state.push_back(*c);
    let ghost shifted = state@;
    // every item goes once from the front of the queue to its end
    let mut j: usize = 0;
    while j < m
        invariant
            j <= m,
            m == state@.len(),
            m == old(state)@.len(),
            m == shifted.len(),
            zeros@.len() == m + 1,
            head == old(state)@[0],
            forall|x: int|
                0 <= x < m ==> shifted[x] == if x + 1 < m {
                    old(state)@[x + 1]
                } else {
                    *c
                },
            forall|x: int| 0 <= x < m - j ==> state@[x] == shifted[j + x],
            forall|x: int|
                0 <= x < j ==> (#[trigger] state@[m - j + x])@ == (shifted[x]@ - zeros@[m - 1 - x]@
                    * head@) % modulus(),
        decreases m - j,
    {
        let ghost before = state@;
        let next = match state.pop_front() {
            Some(x) => x,
            None => vstd::pervasive::unreached(),
        };
        let prod = zeros[m - 1 - j].mul(&head);
        let x = next.sub(&prod);
        proof {
            lemma_residue_congruent(zeros@[m - 1 - j]@ * head@);
            lemma_sub_congruent(next@, next@, prod@, zeros@[m - 1 - j]@ * head@);
        }
        state.push_back(x);
        proof {
            assert forall|y: int| 0 <= y < j + 1 implies (#[trigger] state@[m - (j + 1) + y])@ == (
            shifted[y]@ - zeros@[m - 1 - y]@ * head@) % modulus() by {
                if y < j {
                    assert(state@[m - (j + 1) + y] == before[m - j + y]);
                }
            }
        }
        j = j + 1;
    }
    proof {
        assert forall|x: int| 0 <= x < m implies (#[trigger] state@[x])@ == ((if x + 1 < m {
            old(state)@[x + 1]@
        } else {
            c@
        }) - zeros@[m - 1 - x]@ * head@) % modulus() by {
            assert(state@[m - j + x]@ == (shifted[x]@ - zeros@[m - 1 - x]@ * head@) % modulus());
        }
    }
    head
}

/// The items of a window in a vector, in their order.
pub fn window_items(state: &VecDeque<Scalar>) -> (v: Vec<Scalar>)
    ensures
        v@ == state@,
{
    let n = state.len();
    let mut v: Vec<Scalar> = Vec::with_capacity(n);
    let mut i: usize = 0;
    while i < n
        invariant
            i <= n,
            n == state@.len(),
            v@ == state@.take(i as int),
        decreases n - i,
    {
        v.push(state[i]);
        proof {
            assert(state@.take(i + 1) =~= state@.take(i as int).push(state@[i as int]));
        }
        i = i + 1;
    }
    proof {
        assert(state@.take(n as int) =~= state@);
    }
    v
}

/// A step of the division in the field stands for the step over the integers.
pub proof fn lemma_window_step(
    p: Seq<int>,
    z: Seq<int>,
    m: nat,
    t: nat,
    before: Seq<Scalar>,
    after: Seq<Scalar>,
    zeros: Seq<Scalar>,
    c: int,
)
    requires
        m >= 1,
        before.len() == m,
        after.len() == m,
        zeros.len() == m + 1,
        t < p.len(),
        congruent(c, p[t as int]),
        forall|j: int| 0 <= j < m ==> congruent((#[trigger] before[j])@, window(p, z, m, t)[j]),
        forall|j: int| 0 <= j <= m ==> congruent((#[trigger] zeros[j])@, z[j]),
        forall|j: int|
            0 <= j < m ==> (#[trigger] after[j])@ == ((if j + 1 < m {
                before[j + 1]@
            } else {
                c
            }) - zeros[m - 1 - j]@ * before[0]@) % modulus(),
    ensures
        forall|j: int|
            0 <= j < m ==> congruent((#[trigger] after[j])@, window(p, z, m, t + 1)[j])
                && 0 <= after[j]@ < modulus(),
{
    let w = window(p, z, m, t);
    let w2 = window(p, z, m, t + 1);
    assert forall|j: int| 0 <= j < m implies congruent((#[trigger] after[j])@, w2[j]) && 0
        <= after[j]@ < modulus() by {
        let cand = if j + 1 < m {
            before[j + 1]@
        } else {
            c
        };
        let cand2 = if j + 1 < m {
            w[j + 1]
        } else {
            p[t as int]
        };
        assert(congruent(cand, cand2));
        lemma_mul_congruent(zeros[m - 1 - j]@, z[m - 1 - j], before[0]@, w[0]);
        lemma_sub_congruent(cand, cand2, zeros[m - 1 - j]@ * before[0]@, z[m - 1 - j] * w[0]);
        lemma_residue_congruent(cand - zeros[m - 1 - j]@ * before[0]@);
        assert(w2[j] == cand2 - z[m - 1 - j] * w[0]);
    }
}

} // verus!
