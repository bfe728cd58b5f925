//! The commitment scheme on streams: the committer reads the key and the
//! polynomial once, in chunks, whatever the degree.
use crate::algebra::{
    congruent, dot, dot_upto, lemma_add_congruent, lemma_dot_push, lemma_dot_upto_chunk,
    lemma_dot_upto_congruent, lemma_dot_upto_update, lemma_dot_upto_zero, lemma_mul_congruent,
    lemma_residue_congruent,
};
use crate::field::{modulus, values, Scalar};
use crate::group::{
    indices, msm_index, pair_indices, pair_scalars, pairs_index, ChunkedPippenger, G1Point,
    G2Point, HashMapPippenger,
};
use crate::iterable::{read, skip, take_chunk, Cursor, Iterable, Reverse};
use crate::kzg::time::CommitterKey;
use crate::kzg::{
    lemma_window_step, vanishing_polynomial, window_items, window_step, Commitment,
    EvaluationProof, VerifierKey,
};
use crate::misc::{ceil_div, copy_of, pow2_usize};
use crate::polynomial::{
    horner, lemma_single_point, lemma_window_seed, multi_quotient, quotient, remainder, vanishing,
    window,
};
use crate::sumcheck::streams::{folded_items, folded_len, lemma_folded_len_step};
use crate::sumcheck::tree::{
    lemma_level_items_concat, lemma_level_items_push, level_items, FoldedPolynomialTree,
};
use std::collections::VecDeque;
use vstd::arithmetic::power2::pow2;
use vstd::prelude::*;

verus! {

/// The last `n` items of the key: the bases that go with a polynomial of `n`
/// coefficients.
pub open spec fn aligned_bases(bases: Seq<G1Point>, n: nat) -> Seq<G1Point> {
    bases.skip(bases.len() - n)
}

/// The index of the commitment to the polynomial `p` under the key `bases`.
pub open spec fn commit_index(bases: Seq<G1Point>, p: Seq<Scalar>) -> int {
    msm_index(aligned_bases(bases, p.len()), p)
}

/// The index of the proof that opens the polynomial `p` at `alpha` under the key
/// `bases`: the commitment to the quotient of `p` by `X - alpha`.
pub open spec fn open_index(bases: Seq<G1Point>, p: Seq<Scalar>, alpha: int) -> int {
    dot(quotient(values(p), alpha), indices(aligned_bases(bases, p.len()))) % modulus()
}

/// The index of the proof that opens the polynomial `p` at all of `points` under
/// the key `bases`: the commitment to the quotient of `p` by the polynomial that
/// vanishes at the points.
pub open spec fn multi_open_index(bases: Seq<G1Point>, p: Seq<Scalar>, points: Seq<int>) -> int {
    level_open_dot(bases, p, points) % modulus()
}

/// The sum of the products of the coefficients of the quotient of `level` by the
/// polynomial that vanishes at `points`, and the indices of their bases.
pub open spec fn level_open_dot(bases: Seq<G1Point>, level: Seq<Scalar>, points: Seq<int>) -> int {
    dot(multi_quotient(values(level), points), indices(aligned_bases(bases, level.len())))
}

/// The index of the proof that opens all the levels of the tree of the foldings
/// of `base` at all of `points` at once: the sum over the levels of the opening
/// of the level, as `open_multi_points` gives it, times the `eta` of the level.
pub open spec fn folding_open_index(
    bases: Seq<G1Point>,
    base: Seq<Scalar>,
    challenges: Seq<Scalar>,
    points: Seq<int>,
    etas: Seq<int>,
) -> int {
    dot_upto(
        etas,
        Seq::new(
            challenges.len(),
            |i: int|
                level_open_dot(
                    bases,
                    folded_items(base, challenges.take(i + 1)),
                    points,
                ),
        ),
        challenges.len(),
    ) % modulus()
}

/// The proofs of the levels, as `open_multi_points` gives them for each level
/// alone, by level.
pub open spec fn level_proofs(
    bases: Seq<G1Point>,
    base: Seq<Scalar>,
    challenges: Seq<Scalar>,
    points: Seq<int>,
) -> Seq<int> {
    Seq::new(
        challenges.len(),
        |i: int|
            multi_open_index(
                bases,
                folded_items(base, challenges.take(i + 1)),
                points,
            ),
    )
}

/// The one proof of `open_folding` is the sum of the proofs that
/// `open_multi_points` gives for the levels, each times the `eta` of its level.
pub proof fn lemma_open_folding_levels(
    bases: Seq<G1Point>,
    base: Seq<Scalar>,
    challenges: Seq<Scalar>,
    points: Seq<int>,
    etas: Seq<int>,
)
    ensures
        folding_open_index(bases, base, challenges, points, etas) == dot_upto(
            etas,
            level_proofs(bases, base, challenges, points),
            challenges.len(),
        ) % modulus(),
{
    let k = challenges.len();
    let exact = Seq::new(
        k,
        |i: int|
            level_open_dot(
                bases,
                folded_items(base, challenges.take(i + 1)),
                points,
            ),
    );
    let reduced = level_proofs(bases, base, challenges, points);
    assert forall|i: int| 0 <= i < k implies congruent(#[trigger] exact[i], reduced[i]) by {
        lemma_residue_congruent(exact[i]);
    }
    lemma_dot_upto_congruent(etas, etas, exact, reduced, k);
}

/// Opening at the one point `alpha` as a set of points gives the proof of
/// opening at `alpha`.
pub proof fn lemma_open_single_point(bases: Seq<G1Point>, p: Seq<Scalar>, alpha: int)
    ensures
        multi_open_index(bases, p, seq![alpha]) == open_index(bases, p, alpha),
{
    lemma_single_point(values(p), alpha);
}

/// Whether a window of scalars stands for the window of the division of `p` by
/// `z` after `t` coefficients.
pub open spec fn window_holds(state: Seq<Scalar>, p: Seq<int>, z: Seq<int>, m: nat, t: nat) -> bool {
    &&& state.len() == m
    &&& forall|j: int|
        0 <= j < m ==> congruent((#[trigger] state[j])@, window(p, z, m, t)[j]) && 0 <= state[j]@
            < modulus()
}

/// A sum of products does not depend on the order of the two sequences.
pub proof fn lemma_dot_upto_commutes(a: Seq<int>, b: Seq<int>, n: nat)
    ensures
        dot_upto(a, b, n) == dot_upto(b, a, n),
    decreases n,
{
    if n > 0 {
        lemma_dot_upto_commutes(a, b, (n - 1) as nat);
        assert(a[n - 1] * b[n - 1] == b[n - 1] * a[n - 1]) by (nonlinear_arith);
    }
}

/// Whether an accumulator holds the first scalars of a level, each with its base.
pub open spec fn paired(
    pairs: Seq<(G1Point, Scalar)>,
    bases: Seq<G1Point>,
    scalars: Seq<Scalar>,
) -> bool {
    &&& pairs.len() == scalars.len()
    &&& scalars.len() <= bases.len()
    &&& forall|j: int| 0 <= j < pairs.len() ==> #[trigger] pairs[j] == (bases[j], scalars[j])
}

/// An accumulator that holds all the scalars of a polynomial, each with its
/// base, gives the commitment to the polynomial.
pub proof fn lemma_paired_index(
    pairs: Seq<(G1Point, Scalar)>,
    bases: Seq<G1Point>,
    scalars: Seq<Scalar>,
)
    requires
        paired(pairs, bases, scalars),
        bases.len() == scalars.len(),
    ensures
        pairs_index(pairs) == msm_index(bases, scalars),
{
    assert(pair_scalars(pairs) =~= values(scalars));
    assert(pair_indices(pairs) =~= indices(bases));
}

/// A polynomial folded at least once is no longer than the polynomial folded once.
pub proof fn lemma_folded_len_falls(n: nat, l: nat)
    requires
        l >= 1,
    ensures
        folded_len(n, l) <= folded_len(n, 1),
    decreases l,
{
    if l > 1 {
        lemma_folded_len_falls(n, (l - 1) as nat);
        lemma_folded_len_step(n, (l - 1) as nat);
    }
}

/// The items of a level among the first `t` items of a tree are the first items
/// of that level among all the items.
pub proof fn lemma_level_prefix(all: Seq<(usize, Scalar)>, t: int, l: usize)
    requires
        0 <= t <= all.len(),
    ensures
        level_items(all.take(t), l).len() <= level_items(all, l).len(),
        level_items(all.take(t), l) == level_items(all, l).take(
            level_items(all.take(t), l).len() as int,
        ),
        t < all.len() ==> level_items(all.take(t + 1), l) == if all[t].0 == l {
            level_items(all.take(t), l).push(all[t].1)
        } else {
            level_items(all.take(t), l)
        },
{
    lemma_level_items_concat(all.take(t), all.skip(t), l);
    assert(all.take(t) + all.skip(t) =~= all);
    let a = level_items(all.take(t), l);
    let b = level_items(all.skip(t), l);
    assert((a + b).take(a.len() as int) =~= a);
    if t < all.len() {
        assert(all.take(t + 1) =~= all.take(t).push(all[t]));
        lemma_level_items_push(all.take(t), all[t], l);
    }
}

/// The multi-scalar multiplication of two streams, read in chunks of `step`
/// pairs. The scalars go with the last bases of the stream of bases.
pub fn msm_chunks_by<I: Iterable<Scalar>, J: Iterable<G1Point>>(
    bases_stream: &J,
    scalars_stream: &I,
    step: usize,
) -> (r: G1Point)
    requires
        bases_stream.wf(),
        scalars_stream.wf(),
        scalars_stream.items().len() <= bases_stream.items().len(),
        step > 0,
    ensures
        r.index() == commit_index(bases_stream.items(), scalars_stream.items()),
{
    let n = scalars_stream.len();
    let total = bases_stream.len();
    let mut bases = bases_stream.iter();
    let mut scalars = scalars_stream.iter();
    skip(&mut bases, total - n);
    let ghost b = aligned_bases(bases_stream.items(), n as nat);
    let ghost s = scalars_stream.items();
    let mut result = G1Point::zero();
    let mut done: usize = 0;
    proof {
        assert(s.skip(0) =~= s);
        assert(b.skip(0) =~= b);
    }
    while done < n
        invariant
            bases.wf(),
            scalars.wf(),
            step > 0,
            done <= n,
            n == s.len(),
            b.len() == n,
            bases.remaining() == b.skip(done as int),
            scalars.remaining() == s.skip(done as int),
            result.index() == dot_upto(values(s), indices(b), done as nat) % modulus(),
        decreases n - done,
    {
        let bases_step = take_chunk(&mut bases, step);
        let scalars_step = take_chunk(&mut scalars, step);
        let len = scalars_step.len();
        proof {
            let d = done as int;
            assert(bases_step@ =~= b.subrange(d, d + len));
            assert(scalars_step@ =~= s.subrange(d, d + len));
            assert(indices(bases_step@) =~= indices(b).subrange(d, d + len));
            assert(values(scalars_step@) =~= values(s).subrange(d, d + len));
            assert(b.skip(d).skip(len as int) =~= b.skip(d + len));
            assert(s.skip(d).skip(len as int) =~= s.skip(d + len));
            lemma_dot_upto_chunk(values(s), indices(b), done as nat, len as nat);
            let prev = dot_upto(values(s), indices(b), done as nat);
            let part = dot(values(scalars_step@), indices(bases_step@));
            lemma_residue_congruent(prev);
            lemma_residue_congruent(part);
            lemma_add_congruent(prev % modulus(), prev, part % modulus(), part);
        }
        let part = match G1Point::msm(&bases_step, &scalars_step) {
            Some(part) => part,
            None => vstd::pervasive::unreached(),
        };
        result = result.add(&part);
        done = done + len;
    }
    result
}

/// The multi-scalar multiplication of two streams, read in chunks of `2^20`
/// pairs. The scalars go with the last bases of the stream of bases.
pub fn msm_chunks<I: Iterable<Scalar>, J: Iterable<G1Point>>(
    bases_stream: &J,
    scalars_stream: &I,
) -> (r: G1Point)
    requires
        bases_stream.wf(),
        scalars_stream.wf(),
        scalars_stream.items().len() <= bases_stream.items().len(),
    ensures
        r.index() == commit_index(bases_stream.items(), scalars_stream.items()),
{
    let step: usize = 1048576;
    msm_chunks_by(bases_stream, scalars_stream, step)
}

/// The key of the committer as a stream: the powers of the secret in the first
/// group, from the highest power down.
pub struct CommitterKeyStream<SG> {
    /// The stream of the powers in the first group, highest first.
    pub powers_of_g: SG,
    /// The powers that the verifier needs in the second group.
    pub powers_of_g2: Vec<G2Point>,
}

impl<SG: Iterable<G1Point>> CommitterKeyStream<SG> {
    /// The key in memory for polynomials of up to `max_degree` coefficients: the
    /// last `max_degree` powers of the stream, lowest first.
    pub fn as_committer_key(&self, max_degree: usize) -> (ck: CommitterKey)
        requires
            self.powers_of_g.wf(),
            max_degree <= self.powers_of_g.items().len(),
        ensures
            ck.powers_of_g@ == aligned_bases(self.powers_of_g.items(), max_degree as nat).reverse(),
            ck.powers_of_g2@ == self.powers_of_g2@,
    {
        let offset = self.powers_of_g.len() - max_degree;
        let mut cursor = self.powers_of_g.iter();
        skip(&mut cursor, offset);
        let ghost b = aligned_bases(self.powers_of_g.items(), max_degree as nat);
        let mut forward: Vec<G1Point> = Vec::new();
        proof {
            assert(b.skip(0) =~= b);
        }
        while forward.len() < max_degree
            invariant
                cursor.wf(),
                b.len() == max_degree,
                forward@.len() <= max_degree,
                forward@ == b.take(forward@.len() as int),
                cursor.remaining() == b.skip(forward@.len() as int),
            decreases max_degree - forward@.len(),
        {
            let ghost i = forward@.len() as int;
            let x = read(&mut cursor);
            proof {
                assert(b.take(i + 1) =~= b.take(i).push(b[i]));
                assert(b.skip(i).skip(1) =~= b.skip(i + 1));
            }
            forward.push(x);
        }
        let mut powers_of_g: Vec<G1Point> = Vec::new();
        let mut i: usize = 0;
        while i < max_degree
            invariant
                i <= max_degree,
                forward@.len() == max_degree,
                powers_of_g@.len() == i,
                forall|j: int| 0 <= j < i ==> #[trigger] powers_of_g@[j] == forward@[max_degree - 1 - j],
            decreases max_degree - i,
        {
            powers_of_g.push(forward[max_degree - 1 - i]);
            i = i + 1;
        }
        proof {
            assert(b.take(max_degree as int) =~= b);
            assert(powers_of_g@ =~= b.reverse());
        }
        CommitterKey { powers_of_g, powers_of_g2: copy_of(self.powers_of_g2.as_slice()) }
    }

    /// The value of a polynomial at the point `alpha`, with the proof of it: the
    /// commitment to the quotient by `X - alpha`. Division and commitment go in
    /// one pass, and the quotient is never held.
    pub fn open<SF: Iterable<Scalar>>(
        &self,
        polynomial: &SF,
        alpha: &Scalar,
        max_msm_buffer: usize,
    ) -> (r: (Scalar, EvaluationProof))
        requires
            self.powers_of_g.wf(),
            polynomial.wf(),
            polynomial.items().len() <= self.powers_of_g.items().len(),
        ensures
            r.0@ == crate::polynomial::evaluate(values(polynomial.items()), alpha@) % modulus(),
            r.1.0.index() == open_index(self.powers_of_g.items(), polynomial.items(), alpha@),
    {
        let mut quotient_msm = ChunkedPippenger::new(max_msm_buffer);
        let n = polynomial.len();
        let mut bases = self.powers_of_g.iter();
        let mut scalars = polynomial.iter();
        skip(&mut bases, self.powers_of_g.len() - n);
        let ghost b = aligned_bases(self.powers_of_g.items(), n as nat);
        let ghost s = polynomial.items();
        let ghost p = values(s);
        let mut previous = Scalar::zero();
        let mut i: usize = 0;
        proof {
            assert(s.skip(0) =~= s);
            assert(b.skip(0) =~= b);
        }
        while i < n
            invariant
                bases.wf(),
                scalars.wf(),
                i <= n,
                n == s.len(),
                b.len() == n,
                p == values(s),
                bases.remaining() == b.skip(i as int),
                scalars.remaining() == s.skip(i as int),
                previous@ == horner(p, alpha@, i as nat) % modulus(),
                quotient_msm.pairs().len() == i,
                forall|j: int|
                    0 <= j < i ==> (#[trigger] quotient_msm.pairs()[j]).0 == b[j]
                        && quotient_msm.pairs()[j].1@ == horner(p, alpha@, j as nat) % modulus(),
            decreases n - i,
        {
            let scalar = read(&mut scalars);
            let base = read(&mut bases);
            quotient_msm.add(&base, &previous);
            proof {
                let h = horner(p, alpha@, i as nat);
                lemma_residue_congruent(h);
                lemma_mul_congruent(previous@, h, alpha@, alpha@);
                lemma_residue_congruent(previous@ * alpha@);
                lemma_add_congruent((previous@ * alpha@) % modulus(), h * alpha@, scalar@, scalar@);
                assert(b.skip(i as int).skip(1) =~= b.skip(i + 1));
                assert(s.skip(i as int).skip(1) =~= s.skip(i + 1));
            }
            previous = previous.mul(alpha).add(&scalar);
            i = i + 1;
        }
        let evaluation_proof = quotient_msm.finalize();
        proof {
            let pairs = quotient_msm.pairs();
            assert(pair_indices(pairs) =~= indices(b));
            assert forall|j: int| 0 <= j < n implies congruent(
                #[trigger] pair_scalars(pairs)[j],
                quotient(p, alpha@)[j],
            ) by {
                lemma_residue_congruent(horner(p, alpha@, j as nat));
            }
            lemma_dot_upto_congruent(
                pair_scalars(pairs),
                quotient(p, alpha@),
                indices(b),
                indices(b),
                n as nat,
            );
        }
        (previous, EvaluationProof(evaluation_proof))
    }

    /// The remainder of a polynomial by the polynomial that vanishes at the given
    /// points, highest degree first, with the proof of it: the commitment to the
    /// quotient. The remainder takes the values of the polynomial at the points.
    /// Only a window of as many coefficients as there are points is held.
    pub fn open_multi_points<SF: Iterable<Scalar>>(
        &self,
        polynomial: &SF,
        points: &[Scalar],
        max_msm_buffer: usize,
    ) -> (r: (Vec<Scalar>, EvaluationProof))
        requires
            self.powers_of_g.wf(),
            polynomial.wf(),
            points@.len() <= polynomial.items().len(),
            polynomial.items().len() <= self.powers_of_g.items().len(),
            points@.len() > 0 || polynomial.items().len() == 0,
        ensures
            r.0@.len() == points@.len(),
            forall|j: int|
                0 <= j < points@.len() ==> (#[trigger] r.0@[j])@ == remainder(
                    values(polynomial.items()),
                    values(points@),
                )[j] % modulus(),
            r.1.0.index() == multi_open_index(
                self.powers_of_g.items(),
                polynomial.items(),
                values(points@),
            ),
    {
        let zeros = vanishing_polynomial(points);
        let m = points.len();
        let n = polynomial.len();
        let mut quotient_msm = ChunkedPippenger::new(max_msm_buffer);
        let mut bases = self.powers_of_g.iter();
        skip(&mut bases, self.powers_of_g.len() - n + m);
        let ghost b = aligned_bases(self.powers_of_g.items(), n as nat);
        let ghost s = polynomial.items();
        let ghost p = values(s);
        let ghost pts = values(points@);
        let ghost z = vanishing(pts);
        let mut state: VecDeque<Scalar> = VecDeque::with_capacity(m);
        let mut polynomial_iterator = polynomial.iter();
        proof {
            assert(s.skip(0) =~= s);
            assert(bases.remaining() =~= b.skip(m as int));
        }
        while state.len() < m
            invariant
                polynomial_iterator.wf(),
                m <= n,
                n == s.len(),
                state@.len() <= m,
                polynomial_iterator.remaining() == s.skip(state@.len() as int),
                forall|j: int|
                    0 <= j < state@.len() ==> (#[trigger] state@[j]) == s[j] && 0 <= state@[j]@
                        < modulus(),
            decreases m - state@.len(),
        {
            let ghost i = state@.len() as int;
            let c = read(&mut polynomial_iterator).normalized();
            proof {
                assert(s.skip(i).skip(1) =~= s.skip(i + 1));
            }
            state.push_back(c);
        }
        proof {
            lemma_window_seed(p, z, m as nat, m as nat);
        }
        let mut t: usize = m;
        while t < n
            invariant
                polynomial_iterator.wf(),
                bases.wf(),
                m <= t <= n,
                n == s.len(),
                b.len() == n,
                p == values(s),
                z == vanishing(pts),
                pts.len() == m,
                state@.len() == m,
                zeros@.len() == m + 1,
                t < n ==> m >= 1,
                polynomial_iterator.remaining() == s.skip(t as int),
                bases.remaining() == b.skip(t as int),
                forall|j: int| 0 <= j <= m ==> (#[trigger] zeros@[j])@ == z[j] % modulus(),
                forall|j: int|
                    0 <= j < m ==> congruent((#[trigger] state@[j])@, window(p, z, m as nat, t as nat)[j])
                        && 0 <= state@[j]@ < modulus(),
                quotient_msm.pairs().len() == t - m,
                forall|j: int|
                    0 <= j < t - m ==> (#[trigger] quotient_msm.pairs()[j]).0 == b[m + j]
                        && congruent(
                        quotient_msm.pairs()[j].1@,
                        window(p, z, m as nat, (m + j) as nat)[0],
                    ),
            decreases n - t,
        {
            let ghost before = state@;
            let coefficient = read(&mut polynomial_iterator);
            let quotient_coefficient = window_step(&mut state, &zeros, &coefficient);
            let base = read(&mut bases);
            quotient_msm.add(&base, &quotient_coefficient);
            proof {
                assert forall|j: int| 0 <= j <= m implies congruent((#[trigger] zeros@[j])@, z[j]) by {
                    lemma_residue_congruent(z[j]);
                }
                lemma_window_step(p, z, m as nat, t as nat, before, state@, zeros@, coefficient@);
                assert(s.skip(t as int).skip(1) =~= s.skip(t + 1));
                assert(b.skip(t as int).skip(1) =~= b.skip(t + 1));
            }
            t = t + 1;
        }
        let commitment = EvaluationProof(quotient_msm.finalize());
        proof {
            let pairs = quotient_msm.pairs();
            let q = multi_quotient(p, pts);
            let bi = indices(b);
            let len = (n - m) as nat;
            lemma_dot_upto_chunk(q, bi, m as nat, len);
            assert forall|i: int| 0 <= i < m implies #[trigger] q[i] == 0 by {
                lemma_window_seed(p, z, m as nat, i as nat);
            }
            lemma_dot_upto_zero(q, bi, m as nat);
            assert(pair_indices(pairs) =~= bi.subrange(m as int, n as int));
            lemma_dot_upto_congruent(
                pair_scalars(pairs),
                q.subrange(m as int, n as int),
                pair_indices(pairs),
                bi.subrange(m as int, n as int),
                len,
            );
            assert forall|j: int| 0 <= j < m implies (#[trigger] state@[j])@ == remainder(p, pts)[j]
                % modulus() by {
                lemma_residue_congruent(remainder(p, pts)[j]);
            }
        }
        let remainder = window_items(&state);
        (remainder, commitment)
    }

    /// The commitment to a polynomial: the multi-scalar multiplication of its
    /// coefficients with the last powers of the key.
    pub fn commit<SF: Iterable<Scalar>>(&self, polynomial: &SF) -> (c: Commitment)
        requires
            self.powers_of_g.wf(),
            polynomial.wf(),
            polynomial.items().len() <= self.powers_of_g.items().len(),
        ensures
            c.0.index() == commit_index(self.powers_of_g.items(), polynomial.items()),
    {
        Commitment(msm_chunks(&self.powers_of_g, polynomial))
    }

    /// The commitments to all the levels of a tree of foldings, from the first
    /// level up, in one pass over the polynomial: each is the commitment to the
    /// polynomial of its level.
    pub fn commit_folding<SF: Iterable<Scalar>>(
        &self,
        polynomials: &FoldedPolynomialTree<'_, SF>,
        max_msm_buffer: usize,
    ) -> (r: Vec<Commitment>)
        requires
            self.powers_of_g.wf(),
            polynomials.wf(),
            polynomials.spec_challenges().len() >= 1 ==> folded_len(
                polynomials.spec_coefficients().items().len(),
                1,
            ) <= self.powers_of_g.items().len(),
        ensures
            r@.len() == polynomials.spec_challenges().len(),
            forall|i: int|
                0 <= i < r@.len() ==> (#[trigger] r@[i]).0.index() == commit_index(
                    self.powers_of_g.items(),
                    polynomials.level((i + 1) as nat),
                ),
    {
        let n = polynomials.depth();
        let len = polynomials.len();
        let total = self.powers_of_g.len();
        let ghost srs = self.powers_of_g.items();
        let mut pippengers: Vec<ChunkedPippenger> = Vec::new();
        let mut folded_bases: Vec<SG::Iter> = Vec::new();
        let mut i: usize = 0;
        while i < n
            invariant
                i <= n,
                n == polynomials.spec_challenges().len(),
                len == polynomials.spec_coefficients().items().len(),
                total == srs.len(),
                srs == self.powers_of_g.items(),
                self.powers_of_g.wf(),
                pow2(n as nat) <= usize::MAX,
                n >= 1 ==> folded_len(len as nat, 1) <= total,
                pippengers@.len() == i,
                folded_bases@.len() == i,
                forall|x: int|
                    0 <= x < i ==> (#[trigger] pippengers@[x]).pairs() == Seq::<
                        (G1Point, Scalar),
                    >::empty(),
                forall|x: int|
                    0 <= x < i ==> (#[trigger] folded_bases@[x]).wf() && folded_bases@[x].remaining()
                        == aligned_bases(srs, folded_len(len as nat, (x + 1) as nat)),
            decreases n - i,
        {
            let pippenger = ChunkedPippenger::with_size(max_msm_buffer / n);
            let mut bases = self.powers_of_g.iter();
            proof {
                crate::algebra::lemma_pow2_monotone((i + 1) as nat, n as nat);
                crate::algebra::lemma_pow2_double((i + 1) as nat);
                lemma_folded_len_falls(len as nat, (i + 1) as nat);
            }
            let delta = total - ceil_div(len, pow2_usize(i + 1));
            skip(&mut bases, delta);
            folded_bases.push(bases);
            pippengers.push(pippenger);
            i = i + 1;
        }
        let mut tree = polynomials.iter();
        let ghost all = tree.remaining();
        let ghost mut t: int = 0;
        proof {
            assert(all.skip(0) =~= all);
            assert(all.take(0) =~= Seq::<(usize, Scalar)>::empty());
            assert forall|x: int| 0 <= x < n implies (#[trigger] folded_bases@[x]).remaining()
                == aligned_bases(srs, folded_len(len as nat, (x + 1) as nat)).skip(0) by {
                let b = aligned_bases(srs, folded_len(len as nat, (x + 1) as nat));
                assert(b.skip(0) =~= b);
            }
            assert forall|l: nat| 1 <= l <= n implies #[trigger] folded_len(len as nat, l)
                <= srs.len() by {
                lemma_folded_len_falls(len as nat, l);
            }
            assert forall|l: nat| 1 <= l <= n implies (#[trigger] polynomials.level(l)).len()
                == folded_len(len as nat, l) by {
                assert(polynomials.spec_challenges().take(l as int).len() == l);
            }
        }
        loop
            invariant
                tree.wf(),
                0 <= t <= all.len(),
                tree.remaining() == all.skip(t),
                n == polynomials.spec_challenges().len(),
                len == polynomials.spec_coefficients().items().len(),
                srs == self.powers_of_g.items(),
                pippengers@.len() == n,
                folded_bases@.len() == n,
                forall|i: int| 0 <= i < all.len() ==> 1 <= (#[trigger] all[i]).0 <= n,
                forall|l: nat|
                    1 <= l <= n ==> level_items(all, l as usize) == #[trigger] polynomials.level(l),
                forall|l: nat| 1 <= l <= n ==> #[trigger] folded_len(len as nat, l) <= srs.len(),
                forall|l: nat|
                    1 <= l <= n ==> (#[trigger] polynomials.level(l)).len() == folded_len(
                        len as nat,
                        l,
                    ),
                forall|x: int|
                    0 <= x < n ==> (#[trigger] folded_bases@[x]).wf() && folded_bases@[x].remaining()
                        == aligned_bases(srs, folded_len(len as nat, (x + 1) as nat)).skip(
                        level_items(all.take(t), (x + 1) as usize).len() as int,
                    ),
                forall|x: int|
                    0 <= x < n ==> paired(
                        (#[trigger] pippengers@[x]).pairs(),
                        aligned_bases(srs, folded_len(len as nat, (x + 1) as nat)),
                        level_items(all.take(t), (x + 1) as usize),
                    ),
            ensures
                t == all.len(),
            decreases all.len() - t,
        {
            match tree.next() {
                Some(item) => {
                    let level = item.0;
                    let coefficient = item.1;
                    proof {
                        assert(item == all[t]);
                        assert(all.skip(t).skip(1) =~= all.skip(t + 1));
                        lemma_level_prefix(all, t, level);
                        lemma_level_prefix(all, t + 1, level);
                        assert(polynomials.level(level as nat).len() == folded_len(
                            len as nat,
                            level as nat,
                        ));
                    }
                    let ghost before_bases = folded_bases@;
                    let ghost before_pairs = pippengers@;
                    let ghost b = aligned_bases(srs, folded_len(len as nat, level as nat));
                    let ghost d = level_items(all.take(t), level).len() as int;
                    let base = read(&mut folded_bases[level - 1]);
                    pippengers[level - 1].add(&base, &coefficient);
                    proof {
                        assert(b.skip(d).skip(1) =~= b.skip(d + 1));
                        assert forall|x: int| 0 <= x < n implies (#[trigger] folded_bases@[x]).wf()
                            && folded_bases@[x].remaining() == aligned_bases(
                            srs,
                            folded_len(len as nat, (x + 1) as nat),
                        ).skip(level_items(all.take(t + 1), (x + 1) as usize).len() as int) by {
                            lemma_level_prefix(all, t, (x + 1) as usize);
                            if x != level - 1 {
                                assert(folded_bases@[x] == before_bases[x]);
                            }
                        }
                        assert forall|x: int| 0 <= x < n implies paired(
                            (#[trigger] pippengers@[x]).pairs(),
                            aligned_bases(srs, folded_len(len as nat, (x + 1) as nat)),
                            level_items(all.take(t + 1), (x + 1) as usize),
                        ) by {
                            lemma_level_prefix(all, t, (x + 1) as usize);
                            lemma_level_prefix(all, t + 1, (x + 1) as usize);
                            if x != level - 1 {
                                assert(pippengers@[x] == before_pairs[x]);
                            } else {
                                assert(paired(
                                    before_pairs[x].pairs(),
                                    b,
                                    level_items(all.take(t), level),
                                ));
                            }
                        }
                        t = t + 1;
                    }
                },
                None => {
                    break ;
                },
            }
        }
        proof {
            assert(all.take(t) =~= all);
        }
        let mut backward: Vec<Commitment> = Vec::new();
        let mut left = n;
        while left > 0
            invariant
                left <= n,
                pippengers@.len() == left,
                backward@.len() == n - left,
                n == polynomials.spec_challenges().len(),
                len == polynomials.spec_coefficients().items().len(),
                srs == self.powers_of_g.items(),
                forall|l: nat| 1 <= l <= n ==> #[trigger] folded_len(len as nat, l) <= srs.len(),
                forall|l: nat|
                    1 <= l <= n ==> (#[trigger] polynomials.level(l)).len() == folded_len(
                        len as nat,
                        l,
                    ),
                forall|x: int|
                    0 <= x < left ==> paired(
                        (#[trigger] pippengers@[x]).pairs(),
                        aligned_bases(srs, folded_len(len as nat, (x + 1) as nat)),
                        polynomials.level((x + 1) as nat),
                    ),
                forall|x: int|
                    0 <= x < n - left ==> (#[trigger] backward@[x]).0.index() == commit_index(
                        srs,
                        polynomials.level((n - x) as nat),
                    ),
            decreases left,
        {
            let ghost lvl = polynomials.level(left as nat);
            proof {
                let x = left - 1;
                assert(paired(
                    pippengers@[x].pairs(),
                    aligned_bases(srs, folded_len(len as nat, (x + 1) as nat)),
                    polynomials.level((x + 1) as nat),
                ));
                assert(polynomials.level((x + 1) as nat).len() == folded_len(len as nat, (x + 1) as nat));
            }
            let p = match pippengers.pop() {
                Some(p) => p,
                None => vstd::pervasive::unreached(),
            };
            proof {
                lemma_paired_index(
                    p.pairs(),
                    aligned_bases(srs, folded_len(len as nat, left as nat)),
                    lvl,
                );
            }
            backward.push(Commitment(p.finalize()));
            left = left - 1;
        }
        let mut r: Vec<Commitment> = Vec::new();
        let mut i: usize = 0;
        while i < n
            invariant
                i <= n,
                backward@.len() == n,
                r@.len() == i,
                forall|x: int| 0 <= x < i ==> #[trigger] r@[x] == backward@[n - 1 - x],
            decreases n - i,
        {
            r.push(backward[n - 1 - i]);
            i = i + 1;
        }
        r
    }

    /// The remainders of all the levels of a tree of foldings by the polynomial
    /// that vanishes at the given points, from the first level up, with one proof
    /// for all of them: the sum of the proofs of the levels, each times the `eta`
    /// of its level. The polynomial itself, below the first level, is not opened.
    pub fn open_folding<SF: Iterable<Scalar>>(
        &self,
        polynomials: FoldedPolynomialTree<'_, SF>,
        points: &[Scalar],
        etas: &[Scalar],
        max_msm_buffer: usize,
    ) -> (r: (Vec<Vec<Scalar>>, EvaluationProof))
        requires
            self.powers_of_g.wf(),
            polynomials.wf(),
            polynomials.spec_challenges().len() <= etas@.len(),
            polynomials.spec_challenges().len() >= 1 ==> folded_len(
                polynomials.spec_coefficients().items().len(),
                1,
            ) <= self.powers_of_g.items().len(),
            points@.len() > 0 || polynomials.spec_challenges().len() == 0
                || polynomials.spec_coefficients().items().len() == 0,
        ensures
            r.0@.len() == polynomials.spec_challenges().len(),
            forall|i: int|
                0 <= i < r.0@.len() ==> (#[trigger] r.0@[i])@.len() == points@.len(),
            forall|i: int, j: int|
                0 <= i < r.0@.len() && 0 <= j < points@.len() ==> (#[trigger] r.0@[i]@[j])@
                    == remainder(values(polynomials.level((i + 1) as nat)), values(points@))[j]
                    % modulus(),
            r.1.0.index() == folding_open_index(
                self.powers_of_g.items(),
                polynomials.spec_coefficients().items(),
                polynomials.spec_challenges(),
                values(points@),
                values(etas@),
            ),
    {
        let n = polynomials.depth();
        let len = polynomials.len();
        let total = self.powers_of_g.len();
        let m = points.len();
        let ghost srs = self.powers_of_g.items();
        let ghost pts = values(points@);
        let ghost z = vanishing(pts);
        let ghost ev = values(etas@);
        let mut pippenger = HashMapPippenger::new(max_msm_buffer);
        let mut folded_bases: Vec<SG::Iter> = Vec::new();
        let zeros = vanishing_polynomial(points);
        let mut remainders: Vec<VecDeque<Scalar>> = Vec::new();
        let mut i: usize = 0;
        while i < n
            invariant
                i <= n,
                n == polynomials.spec_challenges().len(),
                len == polynomials.spec_coefficients().items().len(),
                total == srs.len(),
                srs == self.powers_of_g.items(),
                self.powers_of_g.wf(),
                pow2(n as nat) <= usize::MAX,
                n >= 1 ==> folded_len(len as nat, 1) <= total,
                remainders@.len() == i,
                folded_bases@.len() == i,
                forall|x: int|
                    0 <= x < i ==> (#[trigger] remainders@[x])@.len() == m && forall|j: int|
                        0 <= j < m ==> (#[trigger] remainders@[x]@[j])@ == 0,
                forall|x: int|
                    0 <= x < i ==> (#[trigger] folded_bases@[x]).wf() && folded_bases@[x].remaining()
                        == aligned_bases(srs, folded_len(len as nat, (x + 1) as nat)),
            decreases n - i,
        {
            let mut bases = self.powers_of_g.iter();
            proof {
                crate::algebra::lemma_pow2_monotone((i + 1) as nat, n as nat);
                crate::algebra::lemma_pow2_double((i + 1) as nat);
                lemma_folded_len_falls(len as nat, (i + 1) as nat);
            }
            let delta = total - ceil_div(len, pow2_usize(i + 1));
            skip(&mut bases, delta);
            let mut window_state: VecDeque<Scalar> = VecDeque::new();
            while window_state.len() < m
                invariant
                    window_state@.len() <= m,
                    forall|j: int| 0 <= j < window_state@.len() ==> (#[trigger] window_state@[j])@ == 0,
                decreases m - window_state@.len(),
            {
                window_state.push_back(Scalar::zero());
            }
            remainders.push(window_state);
            folded_bases.push(bases);
            i = i + 1;
        }
        let mut tree = polynomials.iter();
        let ghost all = tree.remaining();
        let ghost mut t: int = 0;
        let ghost mut parts: Seq<int> = Seq::new(n as nat, |x: int| 0int);
        proof {
            assert(all.skip(0) =~= all);
            assert(all.take(0) =~= Seq::<(usize, Scalar)>::empty());
            assert forall|x: int| 0 <= x < n implies (#[trigger] folded_bases@[x]).remaining()
                == aligned_bases(srs, folded_len(len as nat, (x + 1) as nat)).skip(0) by {
                let b = aligned_bases(srs, folded_len(len as nat, (x + 1) as nat));
                assert(b.skip(0) =~= b);
            }
            assert forall|l: nat| 1 <= l <= n implies #[trigger] folded_len(len as nat, l)
                <= srs.len() by {
                lemma_folded_len_falls(len as nat, l);
            }
            assert forall|l: nat| 1 <= l <= n implies (#[trigger] polynomials.level(l)).len()
                == folded_len(len as nat, l) by {
                assert(polynomials.spec_challenges().take(l as int).len() == l);
            }
            crate::algebra::lemma_dot_upto_zero(parts, ev, n as nat);
            lemma_dot_upto_commutes(ev, parts, n as nat);
            assert(pair_scalars(pippenger.pairs()) =~= Seq::<int>::empty());
            if all.len() > 0 && m == 0 {
                let l = all[0].0;
                assert(1 <= l <= n);
                lemma_level_prefix(all, 0, l);
                lemma_level_prefix(all, 1, l);
                assert(polynomials.level(l as nat).len() == folded_len(len as nat, l as nat));
                assert(level_items(all, l) == polynomials.level(l as nat));
                crate::sumcheck::space_prover::lemma_ceil_log2_folded(len as nat, l as nat);
                assert(false);
            }
        }
        loop
            invariant
                tree.wf(),
                0 <= t <= all.len(),
                tree.remaining() == all.skip(t),
                n == polynomials.spec_challenges().len(),
                len == polynomials.spec_coefficients().items().len(),
                srs == self.powers_of_g.items(),
                pts == values(points@),
                z == vanishing(pts),
                ev == values(etas@),
                m == pts.len(),
                n <= etas@.len(),
                zeros@.len() == m + 1,
                all.len() > 0 ==> m >= 1,
                forall|j: int| 0 <= j <= m ==> (#[trigger] zeros@[j])@ == z[j] % modulus(),
                remainders@.len() == n,
                folded_bases@.len() == n,
                parts.len() == n,
                forall|i: int| 0 <= i < all.len() ==> 1 <= (#[trigger] all[i]).0 <= n,
                forall|l: nat|
                    1 <= l <= n ==> level_items(all, l as usize) == #[trigger] polynomials.level(l),
                forall|l: nat| 1 <= l <= n ==> #[trigger] folded_len(len as nat, l) <= srs.len(),
                forall|l: nat|
                    1 <= l <= n ==> (#[trigger] polynomials.level(l)).len() == folded_len(
                        len as nat,
                        l,
                    ),
                forall|x: int|
                    0 <= x < n ==> (#[trigger] folded_bases@[x]).wf() && folded_bases@[x].remaining()
                        == aligned_bases(srs, folded_len(len as nat, (x + 1) as nat)).skip(
                        level_items(all.take(t), (x + 1) as usize).len() as int,
                    ),
                forall|x: int|
                    0 <= x < n ==> window_holds(
                        (#[trigger] remainders@[x])@,
                        values(polynomials.level((x + 1) as nat)),
                        z,
                        m as nat,
                        level_items(all.take(t), (x + 1) as usize).len(),
                    ),
                forall|x: int|
                    0 <= x < n ==> #[trigger] parts[x] == dot_upto(
                        multi_quotient(values(polynomials.level((x + 1) as nat)), pts),
                        indices(aligned_bases(srs, folded_len(len as nat, (x + 1) as nat))),
                        level_items(all.take(t), (x + 1) as usize).len(),
                    ),
                congruent(
                    dot(pair_scalars(pippenger.pairs()), pair_indices(pippenger.pairs())),
                    dot_upto(ev, parts, n as nat),
                ),
            ensures
                t == all.len(),
            decreases all.len() - t,
        {
            match tree.next() {
                Some(item) => {
                    let level = item.0;
                    let coefficient = item.1;
                    if level == 0 {
                        continue ;
                    }
                    let ghost lvl = polynomials.level(level as nat);
                    let ghost p = values(lvl);
                    let ghost b = aligned_bases(srs, folded_len(len as nat, level as nat));
                    let ghost d = level_items(all.take(t), level).len();
                    let ghost q = multi_quotient(p, pts);
                    proof {
                        assert(item == all[t]);
                        assert(all.skip(t).skip(1) =~= all.skip(t + 1));
                        lemma_level_prefix(all, t, level);
                        lemma_level_prefix(all, t + 1, level);
                        assert(lvl.len() == folded_len(len as nat, level as nat));
                        assert(level_items(all.take(t + 1), level) == lvl.take((d + 1) as int));
                        assert(lvl.take((d + 1) as int)[d as int] == lvl[d as int]);
                        assert(coefficient == lvl[d as int]);
                        assert(window_holds(
                            remainders@[level - 1]@,
                            p,
                            z,
                            m as nat,
                            d,
                        ));
                    }
                    let ghost before_bases = folded_bases@;
                    let ghost before_windows = remainders@;
                    let ghost before_pairs = pippenger.pairs();
                    let ghost before_parts = parts;
                    let base = read(&mut folded_bases[level - 1]);
                    let quotient_coefficient = window_step(
                        &mut remainders[level - 1],
                        &zeros,
                        &coefficient,
                    );
                    let scalar = etas[level - 1].mul(&quotient_coefficient);
                    pippenger.add(&base, &scalar);
                    proof {
                        let eta = etas@[level - 1]@;
                        let bi = indices(b);
                        assert(b.skip(d as int).skip(1) =~= b.skip((d + 1) as int));
                        assert forall|j: int| 0 <= j <= m implies congruent(
                            (#[trigger] zeros@[j])@,
                            z[j],
                        ) by {
                            lemma_residue_congruent(z[j]);
                        }
                        lemma_window_step(
                            p,
                            z,
                            m as nat,
                            d,
                            before_windows[level - 1]@,
                            remainders@[level - 1]@,
                            zeros@,
                            coefficient@,
                        );
                        assert(q[d as int] == window(p, z, m as nat, d)[0]);
                        assert(congruent(quotient_coefficient@, q[d as int]));
                        lemma_mul_congruent(eta, eta, quotient_coefficient@, q[d as int]);
                        lemma_residue_congruent(eta * quotient_coefficient@);
                        lemma_mul_congruent(scalar@, eta * q[d as int], base.index(), bi[d as int]);
                        assert(pair_scalars(pippenger.pairs()) =~= pair_scalars(before_pairs).push(
                            scalar@,
                        ));
                        assert(pair_indices(pippenger.pairs()) =~= pair_indices(before_pairs).push(
                            base.index(),
                        ));
                        lemma_dot_push(
                            pair_scalars(before_pairs),
                            pair_indices(before_pairs),
                            scalar@,
                            base.index(),
                        );
                        parts = parts.update(level - 1, parts[level - 1] + q[d as int] * bi[d as int]);
                        lemma_dot_upto_update(
                            ev,
                            before_parts,
                            level - 1,
                            q[d as int] * bi[d as int],
                            n as nat,
                        );
                        assert(ev[level - 1] == eta);
                        assert((eta * q[d as int]) * bi[d as int] == eta * (q[d as int] * bi[d as int]))
                            by (nonlinear_arith);
                        lemma_add_congruent(
                            dot(pair_scalars(before_pairs), pair_indices(before_pairs)),
                            dot_upto(ev, before_parts, n as nat),
                            scalar@ * base.index(),
                            eta * (q[d as int] * bi[d as int]),
                        );
                        assert forall|x: int| 0 <= x < n implies (#[trigger] folded_bases@[x]).wf()
                            && folded_bases@[x].remaining() == aligned_bases(
                            srs,
                            folded_len(len as nat, (x + 1) as nat),
                        ).skip(level_items(all.take(t + 1), (x + 1) as usize).len() as int) by {
                            lemma_level_prefix(all, t, (x + 1) as usize);
                            if x != level - 1 {
                                assert(folded_bases@[x] == before_bases[x]);
                            }
                        }
                        assert forall|x: int| 0 <= x < n implies window_holds(
                            (#[trigger] remainders@[x])@,
                            values(polynomials.level((x + 1) as nat)),
                            z,
                            m as nat,
                            level_items(all.take(t + 1), (x + 1) as usize).len(),
                        ) by {
                            lemma_level_prefix(all, t, (x + 1) as usize);
                            if x != level - 1 {
                                assert(remainders@[x] == before_windows[x]);
                            }
                        }
                        assert forall|x: int| 0 <= x < n implies #[trigger] parts[x] == dot_upto(
                            multi_quotient(values(polynomials.level((x + 1) as nat)), pts),
                            indices(aligned_bases(srs, folded_len(len as nat, (x + 1) as nat))),
                            level_items(all.take(t + 1), (x + 1) as usize).len(),
                        ) by {
                            lemma_level_prefix(all, t, (x + 1) as usize);
                        }
                        t = t + 1;
                    }
                },
                None => {
                    break ;
                },
            }
        }
        let evaluation_proof = pippenger.finalize();
        proof {
            assert(all.take(t) =~= all);
            let target = Seq::new(
                n as nat,
                |i: int|
                    level_open_dot(
                        srs,
                        folded_items(
                            polynomials.spec_coefficients().items(),
                            polynomials.spec_challenges().take(i + 1),
                        ),
                        pts,
                    ),
            );
            assert forall|x: int| 0 <= x < n implies parts[x] == target[x] by {
                let l = (x + 1) as nat;
                assert(polynomials.level(l).len() == folded_len(len as nat, l));
                assert(level_items(all, l as usize) == polynomials.level(l));
            }
            assert(parts =~= target);
            assert forall|i: int, j: int| 0 <= i < n && 0 <= j < m implies (
            #[trigger] remainders@[i]@[j])@ == remainder(
                values(polynomials.level((i + 1) as nat)),
                pts,
            )[j] % modulus() by {
                let l = (i + 1) as nat;
                assert(level_items(all, l as usize) == polynomials.level(l));
                assert(window_holds(
                    remainders@[i]@,
                    values(polynomials.level(l)),
                    z,
                    m as nat,
                    polynomials.level(l).len(),
                ));
                lemma_residue_congruent(remainder(values(polynomials.level(l)), pts)[j]);
            }
            assert forall|i: int| 0 <= i < n implies (#[trigger] remainders@[i])@.len() == m by {
                let l = (i + 1) as nat;
                assert(window_holds(
                    remainders@[i]@,
                    values(polynomials.level(l)),
                    z,
                    m as nat,
                    level_items(all.take(t), l as usize).len(),
                ));
            }
        }
        let mut contiguous: Vec<Vec<Scalar>> = Vec::with_capacity(n);
        let mut i: usize = 0;
        while i < n
            invariant
                i <= n,
                n == remainders@.len(),
                contiguous@.len() == i,
                forall|x: int| 0 <= x < i ==> (#[trigger] contiguous@[x])@ == remainders@[x]@,
            decreases n - i,
        {
            contiguous.push(window_items(&remainders[i]));
            i = i + 1;
        }
        (contiguous, EvaluationProof(evaluation_proof))
    }

    /// The commitments to a list of polynomials, one for each.
    pub fn batch_commit<SF: Iterable<Scalar>>(&self, polynomials: &[SF]) -> (cs: Vec<Commitment>)
        requires
            self.powers_of_g.wf(),
            forall|i: int|
                0 <= i < polynomials@.len() ==> (#[trigger] polynomials@[i]).wf()
                    && polynomials@[i].items().len() <= self.powers_of_g.items().len(),
        ensures
            cs@.len() == polynomials@.len(),
            forall|i: int|
                0 <= i < polynomials@.len() ==> (#[trigger] cs@[i]).0.index() == commit_index(
                    self.powers_of_g.items(),
                    polynomials@[i].items(),
                ),
    {
        let mut cs: Vec<Commitment> = Vec::new();
        let mut i: usize = 0;
        while i < polynomials.len()
            invariant
                i <= polynomials@.len(),
                self.powers_of_g.wf(),
                cs@.len() == i,
                forall|j: int|
                    0 <= j < polynomials@.len() ==> (#[trigger] polynomials@[j]).wf()
                        && polynomials@[j].items().len() <= self.powers_of_g.items().len(),
                forall|j: int|
                    0 <= j < i ==> (#[trigger] cs@[j]).0.index() == commit_index(
                        self.powers_of_g.items(),
                        polynomials@[j].items(),
                    ),
            decreases polynomials@.len() - i,
        {
            let c = self.commit(&polynomials[i]);
            cs.push(c);
            i = i + 1;
        }
        cs
    }
}

impl<'a> CommitterKeyStream<Reverse<'a, G1Point>> {
    /// The key in memory as a stream: its powers read from the highest down.
    pub fn from(ck: &'a CommitterKey) -> (r: Self)
        ensures
            r.powers_of_g.wf(),
            r.powers_of_g.items() == ck.powers_of_g@.reverse(),
            r.powers_of_g2@ == ck.powers_of_g2@,
    {
        CommitterKeyStream {
            powers_of_g: Reverse(ck.powers_of_g.as_slice()),
            powers_of_g2: copy_of(ck.powers_of_g2.as_slice()),
        }
    }
}

impl VerifierKey {
    /// The key of the verifier that goes with a key of the committer: the last
    /// power of the stream, which is the generator, and the powers in the second group.
    pub fn from<SG: Iterable<G1Point>>(ck: &CommitterKeyStream<SG>) -> (vk: VerifierKey)
        requires
            ck.powers_of_g.wf(),
            ck.powers_of_g.items().len() > 0,
        ensures
            vk.powers_of_g@ == seq![ck.powers_of_g.items().last()],
            vk.powers_of_g2@ == ck.powers_of_g2@,
    {
        let n = ck.powers_of_g.len();
        let mut cursor = ck.powers_of_g.iter();
        skip(&mut cursor, n - 1);
        let g = read(&mut cursor);
        let mut powers_of_g: Vec<G1Point> = Vec::new();
        powers_of_g.push(g);
        proof {
            assert(powers_of_g@ =~= seq![ck.powers_of_g.items().last()]);
        }
        VerifierKey { powers_of_g, powers_of_g2: copy_of(ck.powers_of_g2.as_slice()) }
    }
}

} // verus!
