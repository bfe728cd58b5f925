//! The prover that reads its two polynomials as streams.
//!
//! It keeps the challenges, not the folded polynomials: in every round it reads
//! the two streams once, folded on the fly with all the challenges so far.
use crate::algebra::{
    congruent, lemma_add_congruent, lemma_mul_congruent, lemma_pow2_monotone,
    lemma_residue_congruent,
};
use crate::field::{modulus, values, Scalar};
use crate::iterable::{read, skip, Cursor, Iterable};
use crate::misc::{ceil_log2, spec_ceil_div};
use crate::polynomial::coeff;
use crate::sumcheck::prover::{
    inverse_of, lemma_term_a_congruent, lemma_term_b_congruent, pair_count, sum_a, sum_b, term_a,
    term_b, Prover, SumcheckMsg,
};
use crate::sumcheck::streams::{
    coefficients, folded_coefficients, folded_len, lemma_fold_step,
    lemma_folded_items_coefficients, FoldedPolynomialStream,
};
use crate::sumcheck::time_prover::TimeProver;
use vstd::arithmetic::power::pow;
use vstd::arithmetic::power2::pow2;
use vstd::prelude::*;

verus! {

/// The witness of a twisted scalar product whose two polynomials are streams of
/// coefficients, highest degree first.
pub struct WitnessStream<SF, SG> {
    /// The left polynomial.
    pub f: SF,
    /// The right polynomial.
    pub g: SG,
    /// The twist.
    pub twist: Scalar,
}

impl<SF: Iterable<Scalar>, SG: Iterable<Scalar>> WitnessStream<SF, SG> {
    /// The witness of the given streams and twist.
    pub fn new(f: SF, g: SG, twist: Scalar) -> (w: Self)
        ensures
            w.f == f,
            w.g == g,
            w.twist == twist,
    {
        WitnessStream { f, g, twist }
    }

    /// The number of rounds that the scalar product of this witness takes.
    pub fn required_rounds(&self) -> (r: usize)
        requires
            self.f.wf(),
            self.g.wf(),
        ensures
            r == rounds_for(self.f.items().len(), self.g.items().len()),
    {
        let f_len = self.f.len();
        let g_len = self.g.len();
        let min_len = if f_len <= g_len {
            f_len
        } else {
            g_len
        };
        ark_std::log2(min_len) as usize
    }
}

/// The number of rounds for two polynomials of the given lengths.
pub open spec fn rounds_for(f_len: nat, g_len: nat) -> nat {
    ceil_log2(if f_len <= g_len { f_len } else { g_len })
}

/// Whether two folded streams of these lengths can be read side by side: they
/// have the same length, or the shorter one has an even length.
pub open spec fn aligned(f_len: nat, g_len: nat) -> bool {
    f_len == g_len || (f_len < g_len && f_len % 2 == 0) || (g_len < f_len && g_len % 2 == 0)
}

/// The prover that reads its polynomials as streams.
pub struct SpaceProver<SF, SG> {
    challenges: Vec<Scalar>,
    twisted_challenges: Vec<Scalar>,
    witness: WitnessStream<SF, SG>,
    round: usize,
    tot_rounds: usize,
    twist: Scalar,
    twist_inverse: Ghost<int>,
    awaiting: Ghost<bool>,
}

/// A twist with an inverse has a square with an inverse, and that square is not zero.
pub proof fn lemma_square_inverse(inv: int, t: int)
    requires
        inverse_of(inv, t),
    ensures
        inverse_of((inv * inv) % modulus(), (t * t) % modulus()),
        inverse_of(inv * inv, t * t),
        (t * t) % modulus() != 0,
{
    let r = modulus();
    lemma_mul_congruent(inv * t, 1, inv * t, 1);
    assert((inv * t) * (inv * t) == (inv * inv) * (t * t)) by (nonlinear_arith);
    lemma_residue_congruent(inv * inv);
    lemma_residue_congruent(t * t);
    lemma_mul_congruent((inv * inv) % r, inv * inv, (t * t) % r, t * t);
    if (t * t) % r == 0 {
        lemma_mul_congruent(inv * inv, inv * inv, (t * t) % r, t * t);
        assert((inv * inv) * 0 == 0);
    }
}

/// The running power of the twist goes down from one pair to the one below by
/// the inverse of the square of the twist.
pub proof fn lemma_runner_back(t: int, runner: int, inv2: int, k: nat)
    requires
        k >= 1,
        congruent(runner, pow(t, 2 * k)),
        inverse_of(inv2, t * t),
    ensures
        congruent((runner * inv2) % modulus(), pow(t, (2 * (k - 1)) as nat)),
{
    let q = pow(t, (2 * (k - 1)) as nat);
    vstd::arithmetic::power::lemma_pow_adds(t, (2 * (k - 1)) as nat, 2);
    vstd::arithmetic::power::lemma_square_is_pow2(t);
    assert(2 * k == 2 * (k - 1) + 2);
    assert(pow(t, 2 * k) == q * (t * t));
    lemma_mul_congruent(runner, q * (t * t), inv2, inv2);
    assert((q * (t * t)) * inv2 == q * (inv2 * (t * t))) by (nonlinear_arith);
    lemma_mul_congruent(q, q, inv2 * (t * t), 1);
    lemma_residue_congruent(runner * inv2);
}

impl<SF: Iterable<Scalar>, SG: Iterable<Scalar>> SpaceProver<SF, SG> {
    /// The prover at the start of the protocol for the given streams and twist.
    /// Every twist is taken; a message can be computed with a twist that is not
    /// zero only, since every round divides by the square of the twist.
    pub fn new(f: SF, g: SG, twist: Scalar) -> (p: Self)
        requires
            f.wf(),
            g.wf(),
            pow2(rounds_for(f.items().len(), g.items().len())) <= usize::MAX,
        ensures
            p.wf(),
            p.spec_f() == f,
            p.spec_g() == g,
            p.spec_challenges() == Seq::<Scalar>::empty(),
            p.spec_twisted_challenges() == Seq::<Scalar>::empty(),
            p.spec_twist() == twist@,
            p.spec_round() == 0,
            p.spec_rounds() == rounds_for(f.items().len(), g.items().len()),
            !p.awaiting(),
    {
        // a twist with an inverse keeps one through all its squarings
        let inverse = twist.inverse();
        let ghost inv: int = if inverse is Some {
            inverse->0@
        } else {
            0
        };
        let witness = WitnessStream::new(f, g, twist);
        let tot_rounds = witness.required_rounds();
        let challenges = Vec::with_capacity(tot_rounds);
        let twisted_challenges = Vec::with_capacity(tot_rounds);
        let round: usize = 0;
        SpaceProver {
            challenges,
            twisted_challenges,
            witness,
            round,
            tot_rounds,
            twist,
            twist_inverse: Ghost(inv),
            awaiting: Ghost(false),
        }
    }

    /// What holds of every valid prover: its streams are valid, it keeps one
    /// twisted challenge for every challenge, it is in none but the rounds of the
    /// protocol, and a twist that is not zero has a square that is not zero.
    pub proof fn lemma_valid(&self)
        requires
            self.wf(),
        ensures
            self.spec_f().wf(),
            self.spec_g().wf(),
            self.spec_twisted_challenges().len() == self.spec_challenges().len(),
            self.spec_round() <= self.spec_rounds(),
            self.awaiting() ==> self.spec_round() < self.spec_rounds(),
            self.spec_rounds() == rounds_for(
                self.spec_f().items().len(),
                self.spec_g().items().len(),
            ),
            pow2(self.spec_rounds()) <= usize::MAX,
            self.spec_twist() != 0 ==> (self.spec_twist() * self.spec_twist()) % modulus() != 0,
    {
        if self.twist@ != 0 {
            lemma_square_inverse(self.twist_inverse@, self.twist@);
        }
    }

    /// The stream of the left polynomial.
    pub closed spec fn spec_f(&self) -> SF {
        self.witness.f
    }

    /// The stream of the right polynomial.
    pub closed spec fn spec_g(&self) -> SG {
        self.witness.g
    }

    /// The challenges taken so far: they fold the right polynomial.
    pub closed spec fn spec_challenges(&self) -> Seq<Scalar> {
        self.challenges@
    }

    /// The challenges taken so far, each times the twist of its round: they fold
    /// the left polynomial.
    pub closed spec fn spec_twisted_challenges(&self) -> Seq<Scalar> {
        self.twisted_challenges@
    }
}

impl<SF: Iterable<Scalar>, SG: Iterable<Scalar>> Prover for SpaceProver<SF, SG> {
    closed spec fn wf(&self) -> bool {
        &&& self.witness.f.wf()
        &&& self.witness.g.wf()
        &&& self.challenges@.len() == self.twisted_challenges@.len()
        &&& self.challenges@.len() == self.round
        &&& self.round <= self.tot_rounds
        &&& self.awaiting@ ==> self.round < self.tot_rounds
        &&& self.tot_rounds == rounds_for(
            self.witness.f.items().len(),
            self.witness.g.items().len(),
        )
        &&& pow2(self.tot_rounds as nat) <= usize::MAX
        &&& self.twist@ != 0 ==> inverse_of(self.twist_inverse@, self.twist@)
    }

    open spec fn spec_round(&self) -> nat {
        self.spec_challenges().len()
    }

    closed spec fn spec_rounds(&self) -> nat {
        self.tot_rounds as nat
    }

    closed spec fn awaiting(&self) -> bool {
        self.awaiting@
    }

    open spec fn lhs(&self) -> Seq<int> {
        folded_coefficients(
            coefficients(self.spec_f().items()),
            values(self.spec_twisted_challenges()),
            self.spec_twisted_challenges().len(),
        )
    }

    open spec fn rhs(&self) -> Seq<int> {
        folded_coefficients(
            coefficients(self.spec_g().items()),
            values(self.spec_challenges()),
            self.spec_challenges().len(),
        )
    }

    closed spec fn spec_twist(&self) -> int {
        self.twist@
    }

    open spec fn ready(&self) -> bool {
        &&& aligned(self.lhs().len(), self.rhs().len())
        &&& self.spec_twist() != 0
    }

    open spec fn foldings(&self) -> (int, int) {
        (self.lhs().last(), self.rhs().last())
    }

    fn next_message(&mut self) -> (r: Option<SumcheckMsg>)
        ensures
            final(self).spec_f() == old(self).spec_f(),
            final(self).spec_g() == old(self).spec_g(),
            final(self).spec_challenges() == old(self).spec_challenges(),
            final(self).spec_twisted_challenges() == old(self).spec_twisted_challenges(),
    {
        if self.round == self.tot_rounds {
            return None;
        }
        let ghost k = self.challenges@.len();
        proof {
            lemma_pow2_monotone(k, self.tot_rounds as nat);
        }
        let folded_f = FoldedPolynomialStream::new(
            &self.witness.f,
            self.twisted_challenges.as_slice(),
        );
        let folded_g = FoldedPolynomialStream::new(&self.witness.g, self.challenges.as_slice());
        let ghost fi = folded_f.items();
        let ghost gi = folded_g.items();
        let ghost lf = fi.len() as int;
        let ghost lg = gi.len() as int;
        let ghost f = self.lhs();
        let ghost g = self.rhs();
        let ghost t = self.twist@;
        proof {
            lemma_folded_items_coefficients(self.witness.f.items(), self.twisted_challenges@);
            lemma_folded_items_coefficients(self.witness.g.items(), self.challenges@);
            assert(f == coefficients(fi));
            assert(g == coefficients(gi));
            lemma_rounds_left(
                self.witness.f.items().len(),
                self.witness.g.items().len(),
                k,
            );
        }
        let mut f_coefficients = folded_f.len();
        let mut g_coefficients = folded_g.len();
        let mut f_it = folded_f.iter();
        let mut g_it = folded_g.iter();

        // Align the streams: where one is longer than the other, pass over its
        // leading coefficients.
        if f_coefficients > g_coefficients {
            let delta = f_coefficients - g_coefficients + (g_coefficients % 2);
            skip(&mut f_it, delta);
            f_coefficients = f_coefficients - delta;
        } else if f_coefficients < g_coefficients {
            let delta = g_coefficients - f_coefficients + (f_coefficients % 2);
            skip(&mut g_it, delta);
            g_coefficients = g_coefficients - delta;
        }
        let ghost n = f_coefficients as int;
        assert(n == g_coefficients && n >= 2 && n <= lf && n <= lg);
        let ghost pairs = pair_count(lf as nat, lg as nat);
        assert(pairs == spec_ceil_div(n, 2));

        // Where the number of coefficients is odd, the first one has no partner.
        let f_odd = if f_coefficients % 2 != 0 {
            Scalar::zero()
        } else {
            read(&mut f_it)
        };
        let f_even = read(&mut f_it);
        let g_odd = if g_coefficients % 2 != 0 {
            Scalar::zero()
        } else {
            read(&mut g_it)
        };
        let g_even = read(&mut g_it);
        let f_pairs = (f_coefficients - 2 + f_coefficients % 2) / 2;
        assert(f_pairs == pairs - 1);
        proof {
            assert(f_it.remaining() =~= fi.skip(lf - 2 * f_pairs));
            assert(g_it.remaining() =~= gi.skip(lg - 2 * f_pairs));
            assert(f_even@ == coeff(f, 2 * f_pairs) && f_odd@ == coeff(f, 2 * f_pairs + 1));
            assert(g_even@ == coeff(g, 2 * f_pairs) && g_odd@ == coeff(g, 2 * f_pairs + 1));
            lemma_square_inverse(self.twist_inverse@, t);
        }

        // The message is the pair of the two low coefficients of the round polynomial.
        let twist2inv = match self.twist.square().inverse() {
            Some(x) => x,
            None => vstd::pervasive::unreached(),
        };
        let mut twist_runner = self.twist.pow((f_pairs * 2) as u64);
        proof {
            lemma_residue_congruent(t * t);
            lemma_mul_congruent(twist2inv@, twist2inv@, (t * t) % modulus(), t * t);
            assert(inverse_of(twist2inv@, t * t));
            lemma_residue_congruent(pow(t, (2 * f_pairs) as nat));
        }
        let mut a = f_even.mul(&g_even).mul(&twist_runner);
        let mut b = f_even.mul(&g_odd).add(&f_odd.mul(&g_even).mul(&self.twist)).mul(
            &twist_runner,
        );
        proof {
            let p = pow(t, (2 * f_pairs) as nat);
            lemma_term_a_congruent(f_even@, g_even@, twist_runner@, p);
            lemma_term_b_congruent(f_even@, f_odd@, g_even@, g_odd@, t, twist_runner@, p);
            lemma_first_term(
                a@,
                sum_a(f, g, t, pairs),
                sum_a(f, g, t, f_pairs as nat),
                term_a(f, g, t, f_pairs as int),
            );
            lemma_first_term(
                b@,
                sum_b(f, g, t, pairs),
                sum_b(f, g, t, f_pairs as nat),
                term_b(f, g, t, f_pairs as int),
            );
            if f_pairs >= 1 {
                lemma_runner_back(t, twist_runner@, twist2inv@, f_pairs as nat);
            }
        }
        twist_runner = twist_runner.mul(&twist2inv);

        let mut cur = f_pairs;
        while cur > 0
            invariant
                f_it.wf(),
                g_it.wf(),
                f == coefficients(fi),
                g == coefficients(gi),
                lf == fi.len(),
                lg == gi.len(),
                2 * cur <= lf,
                2 * cur <= lg,
                cur <= pairs,
                f_it.remaining() == fi.skip(lf - 2 * cur),
                g_it.remaining() == gi.skip(lg - 2 * cur),
                t == self.twist@,
                inverse_of(twist2inv@, t * t),
                cur >= 1 ==> congruent(twist_runner@, pow(t, (2 * (cur - 1)) as nat)),
                a@ == (sum_a(f, g, t, pairs) - sum_a(f, g, t, cur as nat)) % modulus(),
                b@ == (sum_b(f, g, t, pairs) - sum_b(f, g, t, cur as nat)) % modulus(),
            decreases cur,
        {
            let f_odd = read(&mut f_it);
            let g_odd = read(&mut g_it);
            let f_even = read(&mut f_it);
            let g_even = read(&mut g_it);
            let ta = f_even.mul(&g_even).mul(&twist_runner);
            let tb = f_even.mul(&g_odd).add(&f_odd.mul(&g_even).mul(&self.twist)).mul(
                &twist_runner,
            );
            proof {
                let c = (cur - 1) as nat;
                let ci = c as int;
                let p = pow(t, 2 * c);
                assert(f_it.remaining() =~= fi.skip(lf - 2 * c));
                assert(g_it.remaining() =~= gi.skip(lg - 2 * c));
                assert(f_even@ == coeff(f, 2 * ci) && f_odd@ == coeff(f, 2 * ci + 1));
                assert(g_even@ == coeff(g, 2 * ci) && g_odd@ == coeff(g, 2 * ci + 1));
                lemma_term_a_congruent(f_even@, g_even@, twist_runner@, p);
                lemma_term_b_congruent(f_even@, f_odd@, g_even@, g_odd@, t, twist_runner@, p);
                lemma_next_term(
                    a@,
                    ta@,
                    sum_a(f, g, t, pairs),
                    sum_a(f, g, t, cur as nat),
                    sum_a(f, g, t, c),
                    term_a(f, g, t, ci),
                );
                lemma_next_term(
                    b@,
                    tb@,
                    sum_b(f, g, t, pairs),
                    sum_b(f, g, t, cur as nat),
                    sum_b(f, g, t, c),
                    term_b(f, g, t, ci),
                );
                if c >= 1 {
                    lemma_runner_back(t, twist_runner@, twist2inv@, c);
                }
            }
            a = a.add(&ta);
            b = b.add(&tb);
            twist_runner = twist_runner.mul(&twist2inv);
            cur = cur - 1;
        }
        self.awaiting = Ghost(true);
        Some(SumcheckMsg(a, b))
    }

    fn fold(&mut self, challenge: Scalar)
        ensures
            final(self).spec_f() == old(self).spec_f(),
            final(self).spec_g() == old(self).spec_g(),
            final(self).spec_challenges() == old(self).spec_challenges().push(challenge),
            values(final(self).spec_twisted_challenges()) == values(
                old(self).spec_twisted_challenges(),
            ).push((challenge@ * old(self).spec_twist()) % modulus()),
    {
        let twisted = challenge.mul(&self.twist);
        proof {
            lemma_fold_step(
                coefficients(self.witness.f.items()),
                values(self.twisted_challenges@),
                twisted@,
            );
            lemma_fold_step(coefficients(self.witness.g.items()), values(self.challenges@), challenge@);
            assert(values(self.twisted_challenges@.push(twisted)) =~= values(
                self.twisted_challenges@,
            ).push(twisted@));
            assert(values(self.challenges@.push(challenge)) =~= values(self.challenges@).push(
                challenge@,
            ));
            if self.twist@ != 0 {
                lemma_square_inverse(self.twist_inverse@, self.twist@);
            } else {
                assert(self.twist@ * self.twist@ == 0) by (nonlinear_arith)
                    requires
                        self.twist@ == 0,
                ;
            }
            assert(challenge@ * self.twist@ == self.twist@ * challenge@) by (nonlinear_arith);
        }
        self.challenges.push(challenge);
        self.twisted_challenges.push(twisted);
        self.twist = self.twist.square();
        self.twist_inverse = Ghost((self.twist_inverse@ * self.twist_inverse@) % modulus());
        self.round = self.round + 1;
        self.awaiting = Ghost(false);
    }

    fn rounds(&self) -> (r: usize) {
        self.tot_rounds
    }

    fn round(&self) -> (r: usize) {
        self.round
    }

    fn final_foldings(&self) -> (r: Option<(Scalar, Scalar)>) {
        proof {
            lemma_pow2_monotone(self.challenges@.len(), self.tot_rounds as nat);
        }
        let folded_f = FoldedPolynomialStream::new(
            &self.witness.f,
            self.twisted_challenges.as_slice(),
        );
        let folded_g = FoldedPolynomialStream::new(&self.witness.g, self.challenges.as_slice());
        proof {
            lemma_folded_items_coefficients(self.witness.f.items(), self.twisted_challenges@);
            lemma_folded_items_coefficients(self.witness.g.items(), self.challenges@);
        }
        let mut f_it = folded_f.iter();
        let mut g_it = folded_g.iter();
        let lhs = match f_it.next() {
            Some(x) => x,
            None => {
                return None;
            },
        };
        let rhs = match g_it.next() {
            Some(x) => x,
            None => {
                return None;
            },
        };
        if self.round == self.tot_rounds {
            Some((lhs, rhs))
        } else {
            None
        }
    }
}

/// The first pair read gives the top term of the sum.
pub proof fn lemma_first_term(acc: int, total: int, below: int, term: int)
    requires
        total == below + term,
        congruent(acc, term),
        0 <= acc < modulus(),
    ensures
        acc == (total - below) % modulus(),
{
}

/// Every further pair read gives the next term of the sum, going down.
pub proof fn lemma_next_term(acc: int, step: int, total: int, above: int, below: int, term: int)
    requires
        above == below + term,
        acc == (total - above) % modulus(),
        congruent(step, term),
    ensures
        (acc + step) % modulus() == (total - below) % modulus(),
{
    lemma_residue_congruent(total - above);
    lemma_add_congruent(acc, total - above, step, term);
}

/// As long as rounds are left, the shorter folded polynomial has at least two
/// coefficients.
pub proof fn lemma_rounds_left(f_len: nat, g_len: nat, k: nat)
    requires
        k < rounds_for(f_len, g_len),
    ensures
        folded_len(f_len, k) >= 2,
        folded_len(g_len, k) >= 2,
{
    lemma_ceil_log2_folded(f_len, k);
    lemma_ceil_log2_folded(g_len, k);
    lemma_ceil_log2_monotone(f_len, g_len);
    lemma_ceil_log2_monotone(g_len, f_len);
}

/// A longer polynomial takes at least as many rounds.
pub proof fn lemma_ceil_log2_monotone(a: nat, b: nat)
    ensures
        a <= b ==> ceil_log2(a) <= ceil_log2(b),
    decreases b,
{
    if a <= b && a > 1 {
        lemma_ceil_log2_monotone(((a + 1) / 2) as nat, ((b + 1) / 2) as nat);
    }
}

/// Folding `k` times takes `k` from the number of rounds that are left.
pub proof fn lemma_ceil_log2_folded(n: nat, k: nat)
    ensures
        k <= ceil_log2(n) ==> ceil_log2(folded_len(n, k)) == ceil_log2(n) - k,
        k >= ceil_log2(n) && n >= 1 ==> folded_len(n, k) == 1,
        n == 0 ==> folded_len(n, k) == 0,
    decreases k,
{
    crate::algebra::lemma_pow2_double(k);
    if k == 0 {
        vstd::arithmetic::power2::lemma2_to64();
        assert(pow2(0) == 1);
        assert(folded_len(n, 0) == n);
    } else {
        lemma_ceil_log2_folded(n, (k - 1) as nat);
        crate::sumcheck::streams::lemma_folded_len_step(n, (k - 1) as nat);
        let prev = folded_len(n, (k - 1) as nat);
        let cur = folded_len(n, k);
        assert(cur == spec_ceil_div(prev as int, 2));
        if prev > 1 {
            crate::misc::lemma_ceil_log2_halves(prev);
            assert(cur >= 1);
        }
        assert(ceil_log2(cur) == 0 ==> cur <= 1);
        assert(ceil_log2(prev) == 0 ==> prev <= 1);
    }
}

/// The items of a stream in a vector, last item first.
pub fn collect_reversed<S: Iterable<Scalar>>(stream: &S) -> (v: Vec<Scalar>)
    requires
        stream.wf(),
    ensures
        v@ == stream.items().reverse(),
        values(v@) == coefficients(stream.items()),
{
    let ghost items = stream.items();
    let mut forward: Vec<Scalar> = Vec::new();
    let mut cursor = stream.iter();
    loop
        invariant
            cursor.wf(),
            forward@.len() <= items.len(),
            forward@ == items.take(forward@.len() as int),
            cursor.remaining() == items.skip(forward@.len() as int),
        ensures
            forward@ == items,
        decreases items.len() - forward@.len(),
    {
        match cursor.next() {
            Some(x) => {
                proof {
                    let n = forward@.len() as int;
                    assert(items.take(n + 1) =~= items.take(n).push(items[n]));
                    assert(items.skip(n).skip(1) =~= items.skip(n + 1));
                }
                forward.push(x);
            },
            None => {
                proof {
                    assert(items.take(items.len() as int) =~= items);
                }
                break ;
            },
        }
    }
    let n = forward.len();
    let mut v: Vec<Scalar> = Vec::new();
    let mut i: usize = 0;
    while i < n
        invariant
            i <= n,
            n == forward@.len(),
            v@.len() == i,
            forall|j: int| 0 <= j < i ==> #[trigger] v@[j] == forward@[n - 1 - j],
        decreases n - i,
    {
        v.push(forward[n - 1 - i]);
        i = i + 1;
    }
    proof {
        assert(v@ =~= items.reverse());
        assert(values(v@) =~= coefficients(items));
    }
    v
}

impl TimeProver {
    /// The prover in memory that stands where the given streaming prover stands:
    /// it holds the two streams folded with the challenges so far.
    pub fn from<SF: Iterable<Scalar>, SG: Iterable<Scalar>>(sp: &SpaceProver<SF, SG>) -> (p:
        TimeProver)
        requires
            sp.wf(),
        ensures
            p.wf(),
            p.lhs() == sp.lhs(),
            p.rhs() == sp.rhs(),
            p.spec_twist() == sp.spec_twist(),
            p.spec_round() == sp.spec_round(),
            p.spec_rounds() == sp.spec_rounds(),
            p.awaiting() == sp.awaiting(),
    {
        proof {
            lemma_pow2_monotone(sp.challenges@.len(), sp.tot_rounds as nat);
            lemma_folded_items_coefficients(sp.witness.f.items(), sp.twisted_challenges@);
            lemma_folded_items_coefficients(sp.witness.g.items(), sp.challenges@);
        }
        let folded_f = FoldedPolynomialStream::new(&sp.witness.f, sp.twisted_challenges.as_slice());
        let folded_g = FoldedPolynomialStream::new(&sp.witness.g, sp.challenges.as_slice());
        let f = collect_reversed(&folded_f);
        let g = collect_reversed(&folded_g);
        TimeProver::from_parts(f, g, sp.round, sp.twist, sp.tot_rounds, Ghost(sp.awaiting@))
    }
}

/// A power of two takes as many rounds as its exponent.
pub proof fn lemma_ceil_log2_power(e: nat)
    ensures
        ceil_log2(pow2(e)) == e,
    decreases e,
{
    crate::algebra::lemma_pow2_double(e);
    vstd::arithmetic::power2::lemma2_to64();
    if e > 0 {
        lemma_ceil_log2_power((e - 1) as nat);
        crate::algebra::lemma_pow2_double((e - 1) as nat);
        assert((pow2(e) + 1) / 2 == pow2((e - 1) as nat));
    }
}

/// A polynomial of `2^a` coefficients folded `k` times has `2^(a-k)` coefficients.
pub proof fn lemma_folded_len_power(a: nat, k: nat)
    requires
        k <= a,
    ensures
        folded_len(pow2(a), k) == pow2((a - k) as nat),
{
    crate::algebra::lemma_pow2_split(k, a);
    crate::algebra::lemma_pow2_double(k);
    let q = pow2((a - k) as nat) as int;
    let d = pow2(k) as int;
    assert(q * d == d * q) by (nonlinear_arith);
    crate::misc::lemma_ceil_div_unique(pow2(a) as int, d, q);
}

/// Two streams whose lengths are powers of two have as many rounds as the
/// smaller exponent, and can be read side by side in every one of them.
pub proof fn lemma_aligned_powers(a: nat, b: nat, k: nat)
    requires
        k < rounds_for(pow2(a), pow2(b)),
    ensures
        rounds_for(pow2(a), pow2(b)) == if a <= b {
            a
        } else {
            b
        },
        aligned(folded_len(pow2(a), k), folded_len(pow2(b), k)),
{
    lemma_ceil_log2_power(a);
    lemma_ceil_log2_power(b);
    if a < b {
        vstd::arithmetic::power2::lemma_pow2_strictly_increases(a, b);
        vstd::arithmetic::power2::lemma_pow2_strictly_increases((a - k) as nat, (b - k) as nat);
    }
    if b < a {
        vstd::arithmetic::power2::lemma_pow2_strictly_increases(b, a);
        vstd::arithmetic::power2::lemma_pow2_strictly_increases((b - k) as nat, (a - k) as nat);
    }
    lemma_folded_len_power(a, k);
    lemma_folded_len_power(b, k);
    crate::algebra::lemma_pow2_double((a - k - 1) as nat);
    crate::algebra::lemma_pow2_double((b - k - 1) as nat);
}

/// The rounds of streams of which one has no more than `2^31` coefficients
/// can be counted in a machine word of any width: such streams meet what
/// `SpaceProver::new` asks of the machine.
pub proof fn lemma_rounds_fit(f_len: nat, g_len: nat)
    requires
        f_len <= 0x8000_0000 || g_len <= 0x8000_0000,
    ensures
        pow2(rounds_for(f_len, g_len)) <= usize::MAX,
{
    vstd::arithmetic::power2::lemma2_to64();
    let shorter = if f_len <= g_len {
        f_len
    } else {
        g_len
    };
    lemma_ceil_log2_monotone(shorter, pow2(31));
    lemma_ceil_log2_power(31);
    lemma_pow2_monotone(rounds_for(f_len, g_len), 31);
}

} // verus!
