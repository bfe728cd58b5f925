//! The prover that holds its two polynomials in memory and folds them in place.
use crate::algebra::{congruent, lemma_add_congruent, lemma_residue_congruent};
use crate::field::{modulus, values, Scalar};
use crate::misc::{ceil_div, ceil_log2, copy_of, spec_ceil_div};
use crate::polynomial::coeff;
use crate::sumcheck::prover::{
    fold_once, lemma_term_a_congruent, lemma_term_b_congruent, pair_count, sum_a, sum_b, Prover,
    SumcheckMsg,
};
use vstd::arithmetic::power::pow;
use vstd::prelude::*;

verus! {

/// A polynomial folded once with a challenge: coefficient `j` of the result is
/// coefficient `2j` plus the challenge times coefficient `2j + 1`.
pub fn fold_polynomial(f: &[Scalar], r: &Scalar) -> (w: Vec<Scalar>)
    ensures
        values(w@) == fold_once(values(f@), r@),
{
    let n = f.len();
    let half = ceil_div(n, 2);
    let mut w: Vec<Scalar> = Vec::new();
    let mut j: usize = 0;
    while j < half
        invariant
            j <= half,
            n == f@.len(),
            half == spec_ceil_div(n as int, 2),
            w@.len() == j,
            forall|i: int|
                0 <= i < j ==> (#[trigger] w@[i])@ == (coeff(values(f@), 2 * i) + r@ * coeff(
                    values(f@),
                    2 * i + 1,
                )) % modulus(),
        decreases half - j,
    {
        let even = f[2 * j];
        let odd = if 2 * j + 1 < n {
            f[2 * j + 1]
        } else {
            Scalar::zero()
        };
        let prod = r.mul(&odd);
        let x = even.add(&prod);
        proof {
            let e = coeff(values(f@), 2 * j);
            let o = coeff(values(f@), 2 * j + 1);
            assert(even@ == e && odd@ == o);
            lemma_residue_congruent(r@ * o);
            lemma_add_congruent(e, e, (r@ * o) % modulus(), r@ * o);
        }
        w.push(x);
        j = j + 1;
    }
    proof {
        assert(values(w@) =~= fold_once(values(f@), r@));
    }
    w
}

/// The witness of a twisted scalar product: two polynomials by degree, and the twist.
pub struct Witness {
    /// The left polynomial.
    pub f: Vec<Scalar>,
    /// The right polynomial.
    pub g: Vec<Scalar>,
    /// The twist.
    pub twist: Scalar,
}

impl Witness {
    /// A witness that holds copies of the two polynomials.
    pub fn new(f: &[Scalar], g: &[Scalar], twist: &Scalar) -> (w: Witness)
        ensures
            w.f@ == f@,
            w.g@ == g@,
            w.twist == *twist,
    {
        Witness { f: copy_of(f), g: copy_of(g), twist: *twist }
    }

    /// The number of rounds that the scalar product of this witness takes.
    pub fn required_rounds(&self) -> (r: usize)
        ensures
            r == ceil_log2(
                if self.f@.len() <= self.g@.len() {
                    self.f@.len()
                } else {
                    self.g@.len()
                },
            ),
    {
        let min_len = if self.f.len() <= self.g.len() {
            self.f.len()
        } else {
            self.g.len()
        };
        ark_std::log2(min_len) as usize
    }
}

/// The prover that holds its polynomials in memory.
pub struct TimeProver {
    f: Vec<Scalar>,
    g: Vec<Scalar>,
    round: usize,
    twist: Scalar,
    tot_rounds: usize,
    awaiting: Ghost<bool>,
}

impl TimeProver {
    /// The prover at the start of the protocol for the given witness.
    pub fn new(witness: Witness) -> (p: TimeProver)
        ensures
            p.wf(),
            p.lhs() == values(witness.f@),
            p.rhs() == values(witness.g@),
            p.spec_twist() == witness.twist@,
            p.spec_round() == 0,
            !p.awaiting(),
            p.spec_rounds() == ceil_log2(
                if witness.f@.len() <= witness.g@.len() {
                    witness.f@.len()
                } else {
                    witness.g@.len()
                },
            ),
    {
        let tot_rounds = witness.required_rounds();
        TimeProver {
            f: witness.f,
            g: witness.g,
            round: 0,
            twist: witness.twist,
            tot_rounds,
            awaiting: Ghost(false),
        }
    }

    /// A prover in the state that the given polynomials, twist and counters describe.
    pub(crate) fn from_parts(
        f: Vec<Scalar>,
        g: Vec<Scalar>,
        round: usize,
        twist: Scalar,
        tot_rounds: usize,
        Ghost(awaiting): Ghost<bool>,
    ) -> (p: TimeProver)
        requires
            round <= tot_rounds,
            awaiting ==> round < tot_rounds,
        ensures
            p.wf(),
            p.lhs() == values(f@),
            p.rhs() == values(g@),
            p.spec_twist() == twist@,
            p.spec_round() == round,
            p.spec_rounds() == tot_rounds,
            p.awaiting() == awaiting,
    {
        TimeProver { f, g, round, twist, tot_rounds, awaiting: Ghost(awaiting) }
    }

    /// The left polynomial as it stands, by degree.
    pub fn f(&self) -> (r: &Vec<Scalar>)
        ensures
            values(r@) == self.lhs(),
    {
        &self.f
    }

    /// The right polynomial as it stands, by degree.
    pub fn g(&self) -> (r: &Vec<Scalar>)
        ensures
            values(r@) == self.rhs(),
    {
        &self.g
    }

    /// The twist as it stands.
    pub fn twist(&self) -> (r: Scalar)
        ensures
            r@ == self.spec_twist(),
    {
        self.twist
    }
}

impl Prover for TimeProver {
    closed spec fn wf(&self) -> bool {
        &&& self.round <= self.tot_rounds
        &&& self.awaiting@ ==> self.round < self.tot_rounds
    }

    closed spec fn spec_round(&self) -> nat {
        self.round as nat
    }

    closed spec fn spec_rounds(&self) -> nat {
        self.tot_rounds as nat
    }

    closed spec fn awaiting(&self) -> bool {
        self.awaiting@
    }

    closed spec fn lhs(&self) -> Seq<int> {
        values(self.f@)
    }

    closed spec fn rhs(&self) -> Seq<int> {
        values(self.g@)
    }

    closed spec fn spec_twist(&self) -> int {
        self.twist@
    }

    open spec fn ready(&self) -> bool {
        true
    }

    open spec fn foldings(&self) -> (int, int) {
        (self.lhs()[0], self.rhs()[0])
    }

    fn next_message(&mut self) -> (r: Option<SumcheckMsg>) {
        if self.round == self.tot_rounds {
            return None;
        }
        let f_len = self.f.len();
        let g_len = self.g.len();
        let pairs = ceil_div(if f_len <= g_len { f_len } else { g_len }, 2);
        let twist2 = self.twist.square();
        let mut runner = Scalar::one();
        let mut a = Scalar::zero();
        let mut b = Scalar::zero();
        let mut k: usize = 0;
        let ghost f = values(self.f@);
        let ghost g = values(self.g@);
        let ghost t = self.twist@;
        proof {
            vstd::arithmetic::power::lemma_pow0(t);
        }
        while k < pairs
            invariant
                k <= pairs,
                pairs == pair_count(f.len(), g.len()),
                f == values(self.f@),
                g == values(self.g@),
                f_len == f.len(),
                g_len == g.len(),
                t == self.twist@,
                twist2@ == (t * t) % modulus(),
                congruent(runner@, pow(t, (2 * k) as nat)),
                a@ == sum_a(f, g, t, k as nat) % modulus(),
                b@ == sum_b(f, g, t, k as nat) % modulus(),
            decreases pairs - k,
        {
            let f_even = self.f[2 * k];
            let g_even = self.g[2 * k];
            let f_odd = if 2 * k + 1 < f_len {
                self.f[2 * k + 1]
            } else {
                Scalar::zero()
            };
            let g_odd = if 2 * k + 1 < g_len {
                self.g[2 * k + 1]
            } else {
                Scalar::zero()
            };
            let ta = f_even.mul(&g_even).mul(&runner);
            let tb = f_even.mul(&g_odd).add(&f_odd.mul(&g_even).mul(&self.twist)).mul(&runner);
            proof {
                let p = pow(t, (2 * k) as nat);
                let fe = coeff(f, 2 * k);
                let fo = coeff(f, 2 * k + 1);
                let ge = coeff(g, 2 * k);
                let go = coeff(g, 2 * k + 1);
                assert(f_even@ == fe && f_odd@ == fo && g_even@ == ge && g_odd@ == go);
                lemma_term_a_congruent(fe, ge, runner@, p);
                lemma_term_b_congruent(fe, fo, ge, go, t, runner@, p);
                let sa = sum_a(f, g, t, k as nat);
                let sb = sum_b(f, g, t, k as nat);
                lemma_residue_congruent(sa);
                lemma_residue_congruent(sb);
                lemma_add_congruent(a@, sa, ta@, fe * ge * p);
                lemma_add_congruent(b@, sb, tb@, (fe * go + fo * ge * t) * p);
                crate::sumcheck::prover::lemma_runner_step(t, runner@, twist2@, k as nat);
            }
            a = a.add(&ta);
            b = b.add(&tb);
            runner = runner.mul(&twist2);
            k = k + 1;
        }
        self.awaiting = Ghost(true);
        Some(SumcheckMsg(a, b))
    }

    fn fold(&mut self, challenge: Scalar) {
        let twisted = challenge.mul(&self.twist);
        self.f = fold_polynomial(self.f.as_slice(), &twisted);
        self.g = fold_polynomial(self.g.as_slice(), &challenge);
        self.twist = self.twist.square();
        self.round = self.round + 1;
        self.awaiting = Ghost(false);
    }

    fn rounds(&self) -> (r: usize) {
        self.tot_rounds
    }

    fn round(&self) -> (r: usize) {
        self.round
    }

    fn final_foldings(&self) -> (r: Option<(Scalar, Scalar)>) {
        if self.round == self.tot_rounds && self.f.len() > 0 && self.g.len() > 0 {
            Some((self.f[0], self.g[0]))
        } else {
            None
        }
    }
}

} // verus!
