//! What the two provers share: the messages, the interface, and the mathematics
//! of one round.
//!
//! In a round the prover holds two polynomials `f` and `g`, by degree, and a twist
//! `t`. Its message is the pair `(a, b)` with
//! `a = sum of f[2k] * g[2k] * t^(2k)` and
//! `b = sum of (f[2k] * g[2k+1] + f[2k+1] * g[2k] * t) * t^(2k)`,
//! taken over the pairs `k` that both polynomials have. A challenge `r` then folds
//! `g` with `r` and `f` with `r * t`, and squares the twist.
use crate::algebra::{
    congruent, lemma_add_congruent, lemma_mul_congruent, lemma_residue_congruent,
};
use crate::field::{modulus, Scalar};
use crate::misc::spec_ceil_div;
use crate::polynomial::coeff;
use vstd::arithmetic::power::pow;
use vstd::prelude::*;

verus! {

/// The term of pair `k` in the first coefficient of a round message.
pub open spec fn term_a(f: Seq<int>, g: Seq<int>, t: int, k: int) -> int {
    coeff(f, 2 * k) * coeff(g, 2 * k) * pow(t, (2 * k) as nat)
}

/// The term of pair `k` in the second coefficient of a round message.
pub open spec fn term_b(f: Seq<int>, g: Seq<int>, t: int, k: int) -> int {
    (coeff(f, 2 * k) * coeff(g, 2 * k + 1) + coeff(f, 2 * k + 1) * coeff(g, 2 * k) * t) * pow(
        t,
        (2 * k) as nat,
    )
}

/// The sum of the first `pairs` terms of the first coefficient.
pub open spec fn sum_a(f: Seq<int>, g: Seq<int>, t: int, pairs: nat) -> int
    decreases pairs,
{
    if pairs == 0 {
        0
    } else {
        sum_a(f, g, t, (pairs - 1) as nat) + term_a(f, g, t, pairs - 1)
    }
}

/// The sum of the first `pairs` terms of the second coefficient.
pub open spec fn sum_b(f: Seq<int>, g: Seq<int>, t: int, pairs: nat) -> int
    decreases pairs,
{
    if pairs == 0 {
        0
    } else {
        sum_b(f, g, t, (pairs - 1) as nat) + term_b(f, g, t, pairs - 1)
    }
}

/// The number of pairs of coefficients that two polynomials of these lengths share.
pub open spec fn pair_count(f_len: nat, g_len: nat) -> nat {
    spec_ceil_div(if f_len <= g_len { f_len as int } else { g_len as int }, 2) as nat
}

/// The message of the round in which the prover holds `f`, `g` and the twist `t`.
pub open spec fn round_message(f: Seq<int>, g: Seq<int>, t: int) -> (int, int) {
    let pairs = pair_count(f.len(), g.len());
    (sum_a(f, g, t, pairs) % modulus(), sum_b(f, g, t, pairs) % modulus())
}

/// The polynomial `w` folded once with the challenge `c`.
pub open spec fn fold_once(w: Seq<int>, c: int) -> Seq<int> {
    Seq::new(
        spec_ceil_div(w.len() as int, 2) as nat,
        |j: int| (coeff(w, 2 * j) + c * coeff(w, 2 * j + 1)) % modulus(),
    )
}

/// Whether `t` has a multiplicative inverse modulo the field order, and `inv` is one.
pub open spec fn inverse_of(inv: int, t: int) -> bool {
    (inv * t) % modulus() == 1
}

/// One message of the prover: the two low coefficients of the round polynomial.
#[derive(Clone, Copy, Debug, PartialEq, Eq)]
pub struct SumcheckMsg(pub Scalar, pub Scalar);

/// The messages that a prover sent in the course of the protocol, and its final foldings.
#[derive(Clone, Debug, PartialEq, Eq)]
pub struct ProverMsgs(pub Vec<SumcheckMsg>, pub Vec<(Scalar, Scalar)>);

/// The sum of the first `n` integers of a sequence.
pub open spec fn sum_upto(s: Seq<int>, n: nat) -> int
    decreases n,
{
    if n == 0 {
        0
    } else {
        sum_upto(s, (n - 1) as nat) + s[n - 1]
    }
}

impl SumcheckMsg {
    /// The first coefficients of a sequence of messages.
    pub open spec fn firsts(msgs: Seq<SumcheckMsg>) -> Seq<int> {
        Seq::new(msgs.len(), |i: int| msgs[i].0@)
    }

    /// The second coefficients of a sequence of messages.
    pub open spec fn seconds(msgs: Seq<SumcheckMsg>) -> Seq<int> {
        Seq::new(msgs.len(), |i: int| msgs[i].1@)
    }

    /// The sum of a list of messages, coefficient by coefficient; the zero message
    /// for the empty list.
    pub fn sum(msgs: &[SumcheckMsg]) -> (r: SumcheckMsg)
        ensures
            r.0@ == sum_upto(Self::firsts(msgs@), msgs@.len()) % modulus(),
            r.1@ == sum_upto(Self::seconds(msgs@), msgs@.len()) % modulus(),
    {
        let mut a = Scalar::zero();
        let mut b = Scalar::zero();
        let mut i: usize = 0;
        while i < msgs.len()
            invariant
                i <= msgs@.len(),
                a@ == sum_upto(Self::firsts(msgs@), i as nat) % modulus(),
                b@ == sum_upto(Self::seconds(msgs@), i as nat) % modulus(),
            decreases msgs@.len() - i,
        {
            let m = msgs[i];
            proof {
                let sa = sum_upto(Self::firsts(msgs@), i as nat);
                let sb = sum_upto(Self::seconds(msgs@), i as nat);
                lemma_residue_congruent(sa);
                lemma_residue_congruent(sb);
                lemma_add_congruent(a@, sa, m.0@, m.0@);
                lemma_add_congruent(b@, sb, m.1@, m.1@);
            }
            a = a.add(&m.0);
            b = b.add(&m.1);
            i = i + 1;
        }
        SumcheckMsg(a, b)
    }

    /// The sum of two messages, coefficient by coefficient.
    pub fn add(self, rhs: &SumcheckMsg) -> (r: SumcheckMsg)
        ensures
            r.0@ == (self.0@ + rhs.0@) % modulus(),
            r.1@ == (self.1@ + rhs.1@) % modulus(),
    {
        SumcheckMsg(self.0.add(&rhs.0), self.1.add(&rhs.1))
    }

    /// The message scaled by a field element.
    pub fn mul(self, rhs: &Scalar) -> (r: SumcheckMsg)
        ensures
            r.0@ == (self.0@ * rhs@) % modulus(),
            r.1@ == (self.1@ * rhs@) % modulus(),
    {
        SumcheckMsg(self.0.mul(rhs), self.1.mul(rhs))
    }
}

/// The interface of a sumcheck prover.
///
/// A prover goes through `rounds()` rounds. In each of them it is first asked for
/// its message and then given the verifier's challenge, which takes it to the
/// next round. After the last round it has no message left, and gives its two
/// polynomials folded down to one coefficient each.
pub trait Prover {
    /// Whether the prover is in a valid state.
    spec fn wf(&self) -> bool;

    /// The round that the prover is in: the number of challenges taken so far.
    spec fn spec_round(&self) -> nat;

    /// The number of rounds of the protocol.
    spec fn spec_rounds(&self) -> nat;

    /// Whether the message of the round has been sent and its challenge has not
    /// come yet.
    spec fn awaiting(&self) -> bool;

    /// The left polynomial as it stands, by degree.
    spec fn lhs(&self) -> Seq<int>;

    /// The right polynomial as it stands, by degree.
    spec fn rhs(&self) -> Seq<int>;

    /// The twist as it stands.
    spec fn spec_twist(&self) -> int;

    /// Whether the prover can compute the message of its present state.
    spec fn ready(&self) -> bool;

    /// What `final_foldings` gives once the protocol is over.
    spec fn foldings(&self) -> (int, int);

    /// The message of the next round, or `None` when all rounds are over.
    fn next_message(&mut self) -> (r: Option<SumcheckMsg>)
        requires
            old(self).wf(),
            !old(self).awaiting(),
            old(self).spec_round() < old(self).spec_rounds() ==> old(self).ready(),
        ensures
            final(self).wf(),
            r is Some <==> old(self).spec_round() < old(self).spec_rounds(),
            final(self).awaiting() == (r is Some),
            match r {
                Some(msg) => (msg.0@, msg.1@) == round_message(
                    old(self).lhs(),
                    old(self).rhs(),
                    old(self).spec_twist(),
                ),
                None => true,
            },
            final(self).spec_round() == old(self).spec_round(),
            final(self).spec_rounds() == old(self).spec_rounds(),
            final(self).lhs() == old(self).lhs(),
            final(self).rhs() == old(self).rhs(),
            final(self).spec_twist() == old(self).spec_twist(),
    ;

    /// Takes the challenge of the round whose message was sent last, and goes
    /// on to the next round.
    fn fold(&mut self, challenge: Scalar)
        requires
            old(self).wf(),
            old(self).awaiting(),
        ensures
            final(self).wf(),
            !final(self).awaiting(),
            final(self).spec_round() == old(self).spec_round() + 1,
            final(self).spec_rounds() == old(self).spec_rounds(),
            final(self).lhs() == fold_once(
                old(self).lhs(),
                (challenge@ * old(self).spec_twist()) % modulus(),
            ),
            final(self).rhs() == fold_once(old(self).rhs(), challenge@),
            final(self).spec_twist() == (old(self).spec_twist() * old(self).spec_twist())
                % modulus(),
    ;

    /// The number of rounds of the protocol.
    fn rounds(&self) -> (r: usize)
        requires
            self.wf(),
        ensures
            r == self.spec_rounds(),
    ;

    /// The round that the prover is in.
    fn round(&self) -> (r: usize)
        requires
            self.wf(),
        ensures
            r == self.spec_round(),
    ;

    /// The two polynomials folded down to one coefficient each, once the last
    /// round is over; `None` before.
    fn final_foldings(&self) -> (r: Option<(Scalar, Scalar)>)
        requires
            self.wf(),
        ensures
            r is Some <==> self.spec_round() == self.spec_rounds() && self.lhs().len() > 0
                && self.rhs().len() > 0,
            match r {
                Some(pair) => (pair.0@, pair.1@) == self.foldings(),
                None => true,
            },
    ;
}

/// The term that a round adds to the first coefficient, computed in the field,
/// stands for the term over the integers.
pub proof fn lemma_term_a_congruent(fe: int, ge: int, runner: int, power: int)
    requires
        congruent(runner, power),
    ensures
        congruent((((fe * ge) % modulus()) * runner) % modulus(), fe * ge * power),
{
    lemma_residue_congruent(fe * ge);
    lemma_mul_congruent((fe * ge) % modulus(), fe * ge, runner, power);
    lemma_residue_congruent(((fe * ge) % modulus()) * runner);
}

/// The term that a round adds to the second coefficient, computed in the field,
/// stands for the term over the integers.
pub proof fn lemma_term_b_congruent(
    fe: int,
    fo: int,
    ge: int,
    go: int,
    t: int,
    runner: int,
    power: int,
)
    requires
        congruent(runner, power),
    ensures
        congruent(
            (((((fe * go) % modulus()) + ((((fo * ge) % modulus()) * t) % modulus())) % modulus())
                * runner) % modulus(),
            (fe * go + fo * ge * t) * power,
        ),
{
    let r = modulus();
    lemma_residue_congruent(fe * go);
    lemma_residue_congruent(fo * ge);
    lemma_mul_congruent((fo * ge) % r, fo * ge, t, t);
    lemma_residue_congruent(((fo * ge) % r) * t);
    lemma_add_congruent((fe * go) % r, fe * go, (((fo * ge) % r) * t) % r, fo * ge * t);
    let s = ((fe * go) % r) + ((((fo * ge) % r) * t) % r);
    lemma_residue_congruent(s);
    lemma_mul_congruent(s % r, fe * go + fo * ge * t, runner, power);
    lemma_residue_congruent((s % r) * runner);
}

/// The running power of the twist goes from one pair to the next by the square
/// of the twist.
pub proof fn lemma_runner_step(t: int, runner: int, twist2: int, k: nat)
    requires
        congruent(runner, pow(t, 2 * k)),
        congruent(twist2, t * t),
    ensures
        congruent((runner * twist2) % modulus(), pow(t, 2 * (k + 1))),
{
    lemma_mul_congruent(runner, pow(t, 2 * k), twist2, t * t);
    lemma_residue_congruent(runner * twist2);
    vstd::arithmetic::power::lemma_pow_adds(t, 2 * k, 2);
    vstd::arithmetic::power::lemma_square_is_pow2(t);
    assert(2 * (k + 1) == 2 * k + 2);
}

/// The twisted scalar product of the first `n` coefficients: the sum of
/// `f[i] * g[i] * t^i`.
pub open spec fn twisted_product(f: Seq<int>, g: Seq<int>, t: int, n: nat) -> int
    decreases n,
{
    if n == 0 {
        0
    } else {
        twisted_product(f, g, t, (n - 1) as nat) + coeff(f, n - 1) * coeff(g, n - 1) * pow(
            t,
            (n - 1) as nat,
        )
    }
}

/// The sum of the first `pairs` products of odd coefficients,
/// `f[2k+1] * g[2k+1] * t^(2k+1)`: the third coefficient of the round polynomial.
pub open spec fn sum_c(f: Seq<int>, g: Seq<int>, t: int, pairs: nat) -> int
    decreases pairs,
{
    if pairs == 0 {
        0
    } else {
        sum_c(f, g, t, (pairs - 1) as nat) + coeff(f, 2 * pairs - 1) * coeff(g, 2 * pairs - 1)
            * pow(t, (2 * pairs - 1) as nat)
    }
}

/// The first and the third coefficient of the round polynomial add up to the
/// twisted scalar product of the two polynomials.
pub proof fn lemma_round_sum(f: Seq<int>, g: Seq<int>, t: int, pairs: nat)
    ensures
        sum_a(f, g, t, pairs) + sum_c(f, g, t, pairs) == twisted_product(f, g, t, 2 * pairs),
    decreases pairs,
{
    if pairs > 0 {
        lemma_round_sum(f, g, t, (pairs - 1) as nat);
        assert(twisted_product(f, g, t, 2 * pairs) == twisted_product(
            f,
            g,
            t,
            (2 * pairs - 2) as nat,
        ) + coeff(f, 2 * pairs - 2) * coeff(g, 2 * pairs - 2) * pow(t, (2 * pairs - 2) as nat)
            + coeff(f, 2 * pairs - 1) * coeff(g, 2 * pairs - 1) * pow(t, (2 * pairs - 1) as nat))
            by {
            reveal_with_fuel(twisted_product, 3);
        }
    }
}

/// Where the second coefficient of the message stands for the same field
/// element as the sum of the products of odd coefficients, the two coefficients
/// of the message add up to the twisted scalar product of the two polynomials.
pub proof fn lemma_message_sum(f: Seq<int>, g: Seq<int>, t: int)
    requires
        congruent(
            sum_b(f, g, t, pair_count(f.len(), g.len())),
            sum_c(f, g, t, pair_count(f.len(), g.len())),
        ),
    ensures
        (round_message(f, g, t).0 + round_message(f, g, t).1) % modulus() == twisted_product(
            f,
            g,
            t,
            2 * pair_count(f.len(), g.len()),
        ) % modulus(),
{
    let pairs = pair_count(f.len(), g.len());
    lemma_round_sum(f, g, t, pairs);
    lemma_residue_congruent(sum_a(f, g, t, pairs));
    lemma_residue_congruent(sum_b(f, g, t, pairs));
    lemma_add_congruent(
        sum_a(f, g, t, pairs) % modulus(),
        sum_a(f, g, t, pairs),
        sum_b(f, g, t, pairs) % modulus(),
        sum_c(f, g, t, pairs),
    );
}

} // verus!
