//! The two provers are one prover: what the prover in memory holds after a
//! number of challenges is what the streaming prover reads in that round.
use crate::field::modulus;
use crate::sumcheck::prover::{fold_once, round_message};
use crate::sumcheck::space_prover::{lemma_ceil_log2_folded, rounds_for};
use crate::sumcheck::streams::{folded_coefficients, folded_len, lemma_fold_step, lemma_folded_prefix};
use vstd::prelude::*;

verus! {

/// The twist after `j` challenges: the first twist squared `j` times.
pub open spec fn twist_at(t: int, j: nat) -> int
    decreases j,
{
    if j == 0 {
        t
    } else {
        (twist_at(t, (j - 1) as nat) * twist_at(t, (j - 1) as nat)) % modulus()
    }
}

/// The first `j` challenges, each times the twist of its round: the list that
/// the streaming prover keeps for its left polynomial.
pub open spec fn twisted(t: int, cs: Seq<int>, j: nat) -> Seq<int> {
    Seq::new(j, |i: int| (cs[i] * twist_at(t, i as nat)) % modulus())
}

/// The left polynomial of the prover in memory after `j` challenges.
pub open spec fn time_lhs(f: Seq<int>, t: int, cs: Seq<int>, j: nat) -> Seq<int>
    decreases j,
{
    if j == 0 {
        f
    } else {
        fold_once(
            time_lhs(f, t, cs, (j - 1) as nat),
            (cs[j - 1] * twist_at(t, (j - 1) as nat)) % modulus(),
        )
    }
}

/// The right polynomial of the prover in memory after `j` challenges.
pub open spec fn time_rhs(g: Seq<int>, cs: Seq<int>, j: nat) -> Seq<int>
    decreases j,
{
    if j == 0 {
        g
    } else {
        fold_once(time_rhs(g, cs, (j - 1) as nat), cs[j - 1])
    }
}

/// A polynomial folded with no challenge is the polynomial.
pub proof fn lemma_folded_zero(v: Seq<int>, cs: Seq<int>)
    ensures
        folded_coefficients(v, cs, 0) == v,
{
    vstd::arithmetic::power2::lemma2_to64();
    assert(folded_len(v.len(), 0) == v.len());
    assert(folded_coefficients(v, cs, 0) =~= v);
}

/// The polynomial folded with the first `j + 1` challenges is the polynomial
/// folded with the first `j`, folded once more.
pub proof fn lemma_folded_next(v: Seq<int>, cs: Seq<int>, j: nat)
    requires
        j < cs.len(),
    ensures
        folded_coefficients(v, cs, j + 1) == fold_once(folded_coefficients(v, cs, j), cs[j as int]),
{
    let head = cs.take(j as int);
    lemma_fold_step(v, head, cs[j as int]);
    let a = folded_coefficients(v, cs, j + 1);
    let a2 = folded_coefficients(v, head.push(cs[j as int]), j + 1);
    assert forall|i: int| 0 <= i < a.len() implies a[i] == a2[i] by {
        lemma_folded_prefix(v, cs, head.push(cs[j as int]), j + 1, i);
    }
    assert(a =~= a2);
    let b = folded_coefficients(v, cs, j);
    let b2 = folded_coefficients(v, head, j);
    assert forall|i: int| 0 <= i < b.len() implies b[i] == b2[i] by {
        lemma_folded_prefix(v, cs, head, j, i);
    }
    assert(b =~= b2);
}

/// For every witness and every sequence of challenges, the prover in memory and
/// the streaming prover stand for the same two polynomials and the same twist in
/// every round, and so send the same messages. For polynomials of one length,
/// each is down to one coefficient after the last round, which is the final
/// folding of both provers.
pub proof fn lemma_time_space_equivalence(f: Seq<int>, g: Seq<int>, t: int, cs: Seq<int>, j: nat)
    requires
        j <= cs.len(),
    ensures
        time_lhs(f, t, cs, j) == folded_coefficients(f, twisted(t, cs, j), j),
        time_rhs(g, cs, j) == folded_coefficients(g, cs, j),
        round_message(time_lhs(f, t, cs, j), time_rhs(g, cs, j), twist_at(t, j)) == round_message(
            folded_coefficients(f, twisted(t, cs, j), j),
            folded_coefficients(g, cs, j),
            twist_at(t, j),
        ),
        f.len() == g.len() && f.len() >= 1 && j >= rounds_for(f.len(), g.len()) ==> time_lhs(
            f,
            t,
            cs,
            j,
        ).len() == 1 && time_rhs(g, cs, j).len() == 1,
    decreases j,
{
    if j == 0 {
        lemma_folded_zero(f, twisted(t, cs, 0));
        lemma_folded_zero(g, cs);
    } else {
        let i = (j - 1) as nat;
        lemma_time_space_equivalence(f, g, t, cs, i);
        lemma_folded_next(g, cs, i);
        let tw = twisted(t, cs, j);
        lemma_folded_next(f, tw, i);
        let a = folded_coefficients(f, tw, i);
        let a2 = folded_coefficients(f, twisted(t, cs, i), i);
        assert forall|x: int| 0 <= x < a.len() implies a[x] == a2[x] by {
            lemma_folded_prefix(f, tw, twisted(t, cs, i), i, x);
        }
        assert(a =~= a2);
    }
    lemma_ceil_log2_folded(f.len(), j);
    lemma_ceil_log2_folded(g.len(), j);
}

} // verus!
