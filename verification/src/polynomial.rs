//! Polynomials over the integers, as the models of the coefficient streams.
//!
//! A stream gives the coefficients of a polynomial from the highest degree down.
//! Evaluating and dividing it goes by Horner's rule, one coefficient at a time.
use crate::algebra::{
    congruent, lemma_add_congruent, lemma_mul_congruent, lemma_residue_congruent,
};
use crate::field::modulus;
use vstd::arithmetic::power::pow;
use vstd::prelude::*;

verus! {

/// Horner's rule over the first `n` items of `p`: the value at `x` of the
/// polynomial whose coefficients they are, highest degree first.
pub open spec fn horner(p: Seq<int>, x: int, n: nat) -> int
    decreases n,
{
    if n == 0 {
        0
    } else {
        horner(p, x, (n - 1) as nat) * x + p[n - 1]
    }
}

/// The value at `x` of the polynomial with the coefficients `p`, highest degree first.
pub open spec fn evaluate(p: Seq<int>, x: int) -> int {
    horner(p, x, p.len())
}

/// The quotient of the polynomial `p` by `X - x`, highest degree first and with
/// a leading zero: item `i` is Horner's rule over the first `i` items of `p`.
pub open spec fn quotient(p: Seq<int>, x: int) -> Seq<int> {
    Seq::new(p.len(), |i: int| horner(p, x, i as nat))
}

/// Division by `X - x`: at every `y`, the first `n` items of `p` give the first
/// `n` items of the quotient times `y - x`, plus their own value at `x`.
pub proof fn lemma_division_by_point(p: Seq<int>, x: int, y: int, n: nat)
    requires
        n <= p.len(),
    ensures
        horner(p, y, n) == horner(quotient(p, x), y, n) * (y - x) + horner(p, x, n),
    decreases n,
{
    if n > 0 {
        let m = (n - 1) as nat;
        lemma_division_by_point(p, x, y, m);
        let hy = horner(p, y, m);
        let hx = horner(p, x, m);
        let q = horner(quotient(p, x), y, m);
        assert(quotient(p, x)[n - 1] == hx);
        assert((q * (y - x) + hx) * y + p[n - 1] == (q * y + hx) * (y - x) + (hx * x + p[n - 1]))
            by (nonlinear_arith);
    }
}

/// Coefficient `i` of a polynomial given by degree, which is zero beyond its length.
pub open spec fn coeff(z: Seq<int>, i: int) -> int {
    if 0 <= i < z.len() {
        z[i]
    } else {
        0
    }
}

/// The value at `y` of the first `n` terms of the polynomial `z`, given by degree.
pub open spec fn evaluate_by_degree(z: Seq<int>, y: int, n: nat) -> int
    decreases n,
{
    if n == 0 {
        0
    } else {
        evaluate_by_degree(z, y, (n - 1) as nat) + coeff(z, n - 1) * pow(y, (n - 1) as nat)
    }
}

/// The polynomial `z`, given by degree, times `X - a`.
pub open spec fn times_linear(z: Seq<int>, a: int) -> Seq<int> {
    Seq::new(z.len() + 1, |i: int| coeff(z, i - 1) - a * coeff(z, i))
}

/// The polynomial that vanishes at the given points, by degree: the product of
/// `X - point` over all of them.
pub open spec fn vanishing(points: Seq<int>) -> Seq<int>
    decreases points.len(),
{
    if points.len() == 0 {
        seq![1int]
    } else {
        times_linear(vanishing(points.drop_last()), points.last())
    }
}

/// The window of a division after `t` coefficients of the dividend `p`: the `m`
/// coefficients of the running remainder that the divisor `z`, of degree `m` and
/// given by degree, still reaches; highest degree first.
pub open spec fn window(p: Seq<int>, z: Seq<int>, m: nat, t: nat) -> Seq<int>
    decreases t,
{
    if t == 0 {
        Seq::new(m, |j: int| 0int)
    } else {
        let w = window(p, z, m, (t - 1) as nat);
        Seq::new(m, |j: int| (if j + 1 < m { w[j + 1] } else { p[t - 1] }) - z[m - 1 - j] * w[0])
    }
}

/// The quotient of `p` by the divisor `z` of degree `m`, highest degree first and
/// with `m` leading zeros: item `t` is the head of the window after `t` coefficients.
pub open spec fn window_quotient(p: Seq<int>, z: Seq<int>, m: nat) -> Seq<int> {
    Seq::new(p.len(), |t: int| window(p, z, m, t as nat)[0])
}

/// The remainder of the polynomial `p` by the polynomial that vanishes at
/// `points`, highest degree first.
pub open spec fn remainder(p: Seq<int>, points: Seq<int>) -> Seq<int> {
    window(p, vanishing(points), points.len(), p.len())
}

/// The quotient of the polynomial `p` by the polynomial that vanishes at `points`.
pub open spec fn multi_quotient(p: Seq<int>, points: Seq<int>) -> Seq<int> {
    window_quotient(p, vanishing(points), points.len())
}

/// The vanishing polynomial of `m` points has degree `m` and leading coefficient one.
pub proof fn lemma_vanishing_monic(points: Seq<int>)
    ensures
        vanishing(points).len() == points.len() + 1,
        vanishing(points)[points.len() as int] == 1,
    decreases points.len(),
{
    if points.len() > 0 {
        lemma_vanishing_monic(points.drop_last());
    }
}

/// The value of a polynomial times `X - a` is its value times `y - a`.
pub proof fn lemma_times_linear(z: Seq<int>, a: int, y: int, n: nat)
    ensures
        evaluate_by_degree(times_linear(z, a), y, n + 1) == y * evaluate_by_degree(z, y, n) - a
            * evaluate_by_degree(z, y, n + 1),
        n >= z.len() ==> evaluate_by_degree(z, y, n + 1) == evaluate_by_degree(z, y, n),
    decreases n,
{
    let ml = times_linear(z, a);
    reveal_with_fuel(evaluate_by_degree, 2);
    if n == 0 {
        vstd::arithmetic::power::lemma_pow0(y);
        assert(evaluate_by_degree(ml, y, 1) == coeff(ml, 0) * pow(y, 0));
        assert(evaluate_by_degree(z, y, 1) == coeff(z, 0) * pow(y, 0));
        assert(coeff(ml, 0) == 0 - a * coeff(z, 0));
        assert(y * 0 - a * (coeff(z, 0) * 1) == (0 - a * coeff(z, 0)) * 1)
            by (nonlinear_arith);
    } else {
        let k = (n - 1) as nat;
        lemma_times_linear(z, a, y, k);
        let e0 = evaluate_by_degree(z, y, k);
        let e1 = evaluate_by_degree(z, y, n);
        let e2 = evaluate_by_degree(z, y, n + 1);
        let zn = coeff(z, n as int);
        let zk = coeff(z, k as int);
        let yn = pow(y, n);
        let yk = pow(y, k);
        vstd::arithmetic::power::lemma_pow_adds(y, k, 1);
        vstd::arithmetic::power::lemma_pow1(y);
        assert(yn == yk * y);
        assert(e1 == e0 + zk * yk);
        assert(e2 == e1 + zn * yn);
        assert(coeff(ml, n as int) == zk - a * zn);
        assert(evaluate_by_degree(ml, y, n + 1) == evaluate_by_degree(ml, y, n) + (zk - a * zn)
            * yn);
        assert((y * e0 - a * e1) + (zk - a * zn) * yn == y * (e0 + zk * yk) - a * (e1 + zn * yn))
            by (nonlinear_arith)
            requires
                yn == yk * y,
        ;
    }
    if n >= z.len() {
        assert(coeff(z, n as int) * pow(y, n) == 0) by (nonlinear_arith)
            requires
                coeff(z, n as int) == 0,
        ;
    }
}

/// The vanishing polynomial takes the value zero at each of its points.
pub proof fn lemma_vanishing_vanishes(points: Seq<int>, i: int)
    requires
        0 <= i < points.len(),
    ensures
        evaluate_by_degree(vanishing(points), points[i], points.len() + 1) == 0,
    decreases points.len(),
{
    let head = points.drop_last();
    let a = points.last();
    let y = points[i];
    let z = vanishing(head);
    lemma_vanishing_monic(head);
    lemma_times_linear(z, a, y, z.len());
    let e = evaluate_by_degree(z, y, z.len());
    assert(evaluate_by_degree(z, y, z.len() + 1) == e);
    assert(y * e - a * e == (y - a) * e) by (nonlinear_arith);
    if i < points.len() - 1 {
        lemma_vanishing_vanishes(head, i);
        assert(head[i] == y);
        assert((y - a) * 0 == 0);
    } else {
        assert(0 * e == 0);
    }
}

/// The window shifted by one coefficient: its value is the value of the window
/// without its head, times `y`, plus the new coefficient.
pub proof fn lemma_horner_shift(w: Seq<int>, c: int, y: int, m: nat, n: nat)
    requires
        m >= 1,
        w.len() == m,
        n < m,
    ensures
        horner(Seq::new(m, |j: int| if j + 1 < m { w[j + 1] } else { c }), y, n) == horner(
            w,
            y,
            n + 1,
        ) - w[0] * pow(y, n),
    decreases n,
{
    let s = Seq::new(m, |j: int| if j + 1 < m { w[j + 1] } else { c });
    reveal_with_fuel(horner, 2);
    if n == 0 {
        vstd::arithmetic::power::lemma_pow0(y);
        assert(w[0] * 1 == w[0]);
        assert(0 * y == 0);
    } else {
        let k = (n - 1) as nat;
        lemma_horner_shift(w, c, y, m, k);
        vstd::arithmetic::power::lemma_pow_adds(y, k, 1);
        vstd::arithmetic::power::lemma_pow1(y);
        let a = horner(w, y, n);
        let yk = pow(y, k);
        assert(horner(s, y, n) == horner(s, y, k) * y + w[n as int]);
        assert((a - w[0] * yk) * y + w[n as int] == (a * y + w[n as int]) - w[0] * (yk * y))
            by (nonlinear_arith);
    }
}

/// The low coefficients of the divisor, read from the highest down, have the
/// value of the divisor without its leading term.
pub proof fn lemma_horner_reversed(z: Seq<int>, y: int, m: nat, n: nat)
    requires
        n <= m,
        m <= z.len(),
    ensures
        evaluate_by_degree(z, y, m) == evaluate_by_degree(z, y, (m - n) as nat) + pow(
            y,
            (m - n) as nat,
        ) * horner(Seq::new(m, |j: int| z[m - 1 - j]), y, n),
    decreases n,
{
    let r = Seq::new(m, |j: int| z[m - 1 - j]);
    if n == 0 {
        assert(pow(y, m) * 0 == 0);
    } else {
        let k = (n - 1) as nat;
        lemma_horner_reversed(z, y, m, k);
        let lo = (m - n) as nat;
        vstd::arithmetic::power::lemma_pow_adds(y, lo, 1);
        vstd::arithmetic::power::lemma_pow1(y);
        let g = horner(r, y, k);
        let yl = pow(y, lo);
        assert(r[n - 1] == z[lo as int]);
        assert(evaluate_by_degree(z, y, (lo + 1) as nat) == evaluate_by_degree(z, y, lo) + z[lo as int]
            * yl);
        assert(z[lo as int] * yl + (yl * y) * g == yl * (g * y + z[lo as int])) by (nonlinear_arith);
    }
}

/// Horner's rule is linear: it takes a difference of sequences to the
/// difference of the values.
pub proof fn lemma_horner_linear(s: Seq<int>, r: Seq<int>, q: int, y: int, m: nat, n: nat)
    requires
        n <= m,
        s.len() == m,
        r.len() == m,
    ensures
        horner(Seq::new(m, |j: int| s[j] - r[j] * q), y, n) == horner(s, y, n) - q * horner(
            r,
            y,
            n,
        ),
    decreases n,
{
    if n == 0 {
        assert(q * 0 == 0);
    } else {
        let k = (n - 1) as nat;
        lemma_horner_linear(s, r, q, y, m, k);
        let a = horner(s, y, k);
        let b = horner(r, y, k);
        assert((a - q * b) * y + (s[n - 1] - r[n - 1] * q) == (a * y + s[n - 1]) - q * (b * y + r[n
            - 1])) by (nonlinear_arith);
    }
}

/// Division by a monic divisor: at every `y`, the first `t` coefficients of the
/// dividend give the quotient so far times the divisor, plus the window.
pub proof fn lemma_division(p: Seq<int>, z: Seq<int>, m: nat, y: int, t: nat)
    requires
        m >= 1,
        z.len() == m + 1,
        z[m as int] == 1,
        t <= p.len(),
    ensures
        window(p, z, m, t).len() == m,
        horner(p, y, t) == horner(window_quotient(p, z, m), y, t) * evaluate_by_degree(
            z,
            y,
            m + 1,
        ) + horner(window(p, z, m, t), y, m),
    decreases t,
{
    let zy = evaluate_by_degree(z, y, m + 1);
    if t == 0 {
        lemma_horner_zero(m, y, m);
        assert(0 * zy == 0);
    } else {
        let k = (t - 1) as nat;
        lemma_division(p, z, m, y, k);
        let w = window(p, z, m, k);
        let c = p[k as int];
        let s = Seq::new(m, |j: int| if j + 1 < m { w[j + 1] } else { c });
        let r = Seq::new(m, |j: int| z[m - 1 - j]);
        let w2 = window(p, z, m, t);
        let d = Seq::new(m, |j: int| s[j] - r[j] * w[0]);
        assert(w2 =~= d);
        lemma_horner_linear(s, r, w[0], y, m, m);
        lemma_horner_shift(w, c, y, m, (m - 1) as nat);
        lemma_horner_reversed(z, y, m, m);
        vstd::arithmetic::power::lemma_pow0(y);
        vstd::arithmetic::power::lemma_pow_adds(y, (m - 1) as nat, 1);
        vstd::arithmetic::power::lemma_pow1(y);
        let ym1 = pow(y, (m - 1) as nat);
        let ym = pow(y, m);
        let wy = horner(w, y, m);
        let sy = horner(s, y, m);
        let ry = horner(r, y, m);
        let zlow = evaluate_by_degree(z, y, m);
        assert(evaluate_by_degree(z, y, 0) == 0);
        assert(zlow == 1 * ry);
        assert(zy == zlow + 1 * ym);
        assert(sy == horner(s, y, (m - 1) as nat) * y + c);
        assert(sy == (wy - w[0] * ym1) * y + c);
        let qk = horner(window_quotient(p, z, m), y, k);
        assert(window_quotient(p, z, m)[k as int] == w[0]);
        assert(horner(window_quotient(p, z, m), y, t) == qk * y + w[0]);
        assert(horner(p, y, t) == (qk * zy + wy) * y + c);
        assert((qk * zy + wy) * y + c == (qk * y + w[0]) * zy + ((wy - w[0] * ym1) * y + c - w[0]
            * ry)) by (nonlinear_arith)
            requires
                zy == ry + ym,
                ym == ym1 * y,
        ;
    }
}

/// Horner's rule over zeros gives zero.
pub proof fn lemma_horner_zero(m: nat, y: int, n: nat)
    requires
        n <= m,
    ensures
        horner(Seq::new(m, |j: int| 0int), y, n) == 0,
    decreases n,
{
    if n > 0 {
        lemma_horner_zero(m, y, (n - 1) as nat);
        assert(0 * y == 0);
    }
}

/// The remainder takes the value of the polynomial at every point of the
/// division: dividing by the polynomial that vanishes at the points changes no
/// value at any of them.
pub proof fn lemma_remainder_agrees(p: Seq<int>, points: Seq<int>, i: int)
    requires
        0 <= i < points.len(),
    ensures
        remainder(p, points).len() == points.len(),
        evaluate(remainder(p, points), points[i]) == evaluate(p, points[i]),
{
    let z = vanishing(points);
    let m = points.len();
    lemma_vanishing_monic(points);
    lemma_vanishing_vanishes(points, i);
    lemma_division(p, z, m, points[i], p.len());
    let q = horner(window_quotient(p, z, m), points[i], p.len());
    assert(q * 0 == 0);
}

/// Before the window is full it holds the coefficients read so far, behind zeros.
pub proof fn lemma_window_seed(p: Seq<int>, z: Seq<int>, m: nat, t: nat)
    requires
        t <= m,
        t <= p.len(),
    ensures
        window(p, z, m, t) == Seq::new(m, |j: int| if j >= m - t { p[j - (m - t)] } else { 0 }),
    decreases t,
{
    if t > 0 {
        lemma_window_seed(p, z, m, (t - 1) as nat);
        let w = window(p, z, m, (t - 1) as nat);
        assert(w[0] == 0);
        let w2 = window(p, z, m, t);
        let e = Seq::new(m, |j: int| if j >= m - t { p[j - (m - t)] } else { 0 });
        assert forall|j: int| 0 <= j < m implies #[trigger] w2[j] == e[j] by {
            assert(z[m - 1 - j] * 0 == 0);
        }
        assert(w2 =~= e);
    } else {
        assert(window(p, z, m, 0) =~= Seq::new(m, |j: int| if j >= m - 0 { p[j - (m - 0)] } else { 0 }));
    }
}

/// The window of a division by the vanishing polynomial of one point holds
/// Horner's rule at that point.
pub proof fn lemma_single_point_window(p: Seq<int>, x: int, t: nat)
    requires
        t <= p.len(),
    ensures
        window(p, vanishing(seq![x]), 1, t) == seq![horner(p, x, t)],
    decreases t,
{
    let z = vanishing(seq![x]);
    assert(seq![x].drop_last() =~= Seq::<int>::empty());
    assert(vanishing(seq![x].drop_last()) =~= seq![1int]);
    assert(z.len() == 2);
    assert(z[0] == 0 - x * 1);
    if t > 0 {
        lemma_single_point_window(p, x, (t - 1) as nat);
        let w = window(p, z, 1, (t - 1) as nat);
        assert(z[0] * w[0] == -(w[0] * x)) by (nonlinear_arith)
            requires
                z[0] == 0 - x * 1,
        ;
        assert(window(p, z, 1, t) =~= seq![horner(p, x, t)]);
    } else {
        assert(window(p, z, 1, 0) =~= seq![horner(p, x, 0)]);
    }
}

/// Division by the vanishing polynomial of one point is division by that point:
/// the two quotients are one.
pub proof fn lemma_single_point(p: Seq<int>, x: int)
    ensures
        multi_quotient(p, seq![x]) == quotient(p, x),
{
    assert forall|i: int| 0 <= i < p.len() implies multi_quotient(p, seq![x])[i] == quotient(
        p,
        x,
    )[i] by {
        lemma_single_point_window(p, x, i as nat);
    }
    assert(multi_quotient(p, seq![x]) =~= quotient(p, x));
}

/// Polynomials whose coefficients stand for the same field elements take values
/// that stand for the same field element.
pub proof fn lemma_horner_congruent(p: Seq<int>, q: Seq<int>, x: int, n: nat)
    requires
        forall|i: int| 0 <= i < n ==> congruent(#[trigger] p[i], q[i]),
    ensures
        congruent(horner(p, x, n), horner(q, x, n)),
    decreases n,
{
    if n > 0 {
        lemma_horner_congruent(p, q, x, (n - 1) as nat);
        lemma_mul_congruent(horner(p, x, (n - 1) as nat), horner(q, x, (n - 1) as nat), x, x);
        lemma_add_congruent(
            horner(p, x, (n - 1) as nat) * x,
            horner(q, x, (n - 1) as nat) * x,
            p[n - 1],
            q[n - 1],
        );
    }
}

/// The remainder as a list of field elements takes, at every point of the
/// division, the value that the polynomial takes there in the field.
pub proof fn lemma_remainder_values(p: Seq<int>, points: Seq<int>, r: Seq<int>, i: int)
    requires
        0 <= i < points.len(),
        r.len() == points.len(),
        forall|j: int| 0 <= j < r.len() ==> #[trigger] r[j] == remainder(p, points)[j] % modulus(),
    ensures
        congruent(evaluate(r, points[i]), evaluate(p, points[i])),
{
    lemma_remainder_agrees(p, points, i);
    let exact = remainder(p, points);
    assert forall|j: int| 0 <= j < r.len() implies congruent(#[trigger] r[j], exact[j]) by {
        lemma_residue_congruent(exact[j]);
    }
    lemma_horner_congruent(r, exact, points[i], r.len());
}

} // verus!
