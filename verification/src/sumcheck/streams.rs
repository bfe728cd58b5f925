//! Streams of folded polynomials.
//!
//! A polynomial is a stream of coefficients, highest degree first. Folding it with
//! a challenge `r` halves it: coefficient `x` of the result is coefficient `2x`
//! plus `r` times coefficient `2x + 1` of the polynomial. The streams here give the
//! polynomial folded with a list of challenges, one after the other, in a single
//! pass over its stream and without holding any intermediate polynomial.
use crate::algebra::{
    lemma_add_congruent, lemma_mul_cancel, lemma_odd_multiple, lemma_pow2_double,
    lemma_pow2_monotone, lemma_residue_congruent,
};
use crate::field::{modulus, values, Scalar};
use crate::iterable::{Cursor, Iterable};
use crate::misc::{ceil_div, pow2_usize, spec_ceil_div};
use crate::polynomial::coeff;
use vstd::arithmetic::power2::pow2;
use vstd::prelude::*;

verus! {

/// The coefficients of a stream by degree: the last item of the stream is the
/// coefficient of degree zero.
pub open spec fn coefficients(items: Seq<Scalar>) -> Seq<int> {
    Seq::new(items.len(), |i: int| items[items.len() - 1 - i]@)
}

/// Coefficient `j` of the polynomial `v` folded with the first `k` challenges of `cs`.
pub open spec fn folded(v: Seq<int>, cs: Seq<int>, k: nat, j: int) -> int
    decreases k,
{
    if k == 0 {
        coeff(v, j)
    } else {
        (folded(v, cs, (k - 1) as nat, 2 * j) + cs[k - 1] * folded(
            v,
            cs,
            (k - 1) as nat,
            2 * j + 1,
        )) % modulus()
    }
}

/// The number of coefficients of a polynomial of `n` coefficients folded `k` times.
pub open spec fn folded_len(n: nat, k: nat) -> nat {
    spec_ceil_div(n as int, pow2(k) as int) as nat
}

/// The polynomial `v` folded with the first `k` challenges of `cs`, by degree.
pub open spec fn folded_coefficients(v: Seq<int>, cs: Seq<int>, k: nat) -> Seq<int> {
    Seq::new(folded_len(v.len(), k), |j: int| folded(v, cs, k, j))
}

/// The items of the stream `base` folded with all of `cs`, highest degree first.
pub open spec fn folded_items(base: Seq<Scalar>, cs: Seq<Scalar>) -> Seq<Scalar> {
    let len = folded_len(base.len(), cs.len());
    Seq::new(
        len,
        |p: int|
            Scalar::of_value(folded(coefficients(base), values(cs), cs.len(), len - 1 - p)),
    )
}

/// Beyond the end of the polynomial every folded coefficient is zero.
pub proof fn lemma_folded_beyond(v: Seq<int>, cs: Seq<int>, k: nat, j: int)
    requires
        j * pow2(k) >= v.len(),
        j >= 0,
    ensures
        folded(v, cs, k, j) == 0,
    decreases k,
{
    if k > 0 {
        lemma_pow2_double((k - 1) as nat);
        let p = pow2((k - 1) as nat) as int;
        assert((2 * j) * p == j * (2 * p)) by (nonlinear_arith);
        assert((2 * j + 1) * p >= j * (2 * p)) by (nonlinear_arith)
            requires
                p >= 1,
        ;
        lemma_folded_beyond(v, cs, (k - 1) as nat, 2 * j);
        lemma_folded_beyond(v, cs, (k - 1) as nat, 2 * j + 1);
        assert(cs[k - 1] * 0 == 0);
    } else {
        vstd::arithmetic::power2::lemma2_to64();
    }
}

/// Only the first `k` challenges enter a polynomial folded `k` times.
pub proof fn lemma_folded_prefix(v: Seq<int>, cs: Seq<int>, cs2: Seq<int>, k: nat, j: int)
    requires
        k <= cs.len(),
        k <= cs2.len(),
        forall|i: int| 0 <= i < k ==> cs[i] == cs2[i],
    ensures
        folded(v, cs, k, j) == folded(v, cs2, k, j),
    decreases k,
{
    if k > 0 {
        lemma_folded_prefix(v, cs, cs2, (k - 1) as nat, 2 * j);
        lemma_folded_prefix(v, cs, cs2, (k - 1) as nat, 2 * j + 1);
    }
}

/// The view of item `p` of a folded stream is the folded coefficient of degree
/// `len - 1 - p`.
pub proof fn lemma_folded_items_values(base: Seq<Scalar>, cs: Seq<Scalar>, p: int)
    requires
        0 <= p < folded_len(base.len(), cs.len()),
    ensures
        folded_items(base, cs).len() == folded_len(base.len(), cs.len()),
        folded_items(base, cs)[p]@ == folded(
            coefficients(base),
            values(cs),
            cs.len(),
            folded_len(base.len(), cs.len()) - 1 - p,
        ),
{
    let len = folded_len(base.len(), cs.len()) as int;
    let j = len - 1 - p;
    let x = folded(coefficients(base), values(cs), cs.len(), j);
    if cs.len() == 0 {
        vstd::arithmetic::power2::lemma2_to64();
        assert(len == base.len());
        assert(x == base[base.len() - 1 - j]@);
        base[base.len() - 1 - j].lemma_of_view();
    } else {
        Scalar::lemma_of_value(x);
    }
}

/// The coefficients of a folded stream, by degree, are the folded coefficients of
/// the stream that it folds.
pub proof fn lemma_folded_items_coefficients(base: Seq<Scalar>, cs: Seq<Scalar>)
    ensures
        coefficients(folded_items(base, cs)) == folded_coefficients(
            coefficients(base),
            values(cs),
            cs.len(),
        ),
{
    let a = coefficients(folded_items(base, cs));
    let b = folded_coefficients(coefficients(base), values(cs), cs.len());
    let len = folded_len(base.len(), cs.len()) as int;
    assert(a.len() == b.len());
    assert forall|j: int| 0 <= j < len implies a[j] == b[j] by {
        lemma_folded_items_values(base, cs, len - 1 - j);
    }
    assert(a =~= b);
}

/// Rounding up after halving twice is rounding up after quartering, and so on:
/// a polynomial folded `k + 1` times is the polynomial folded `k` times, halved.
pub proof fn lemma_folded_len_step(n: nat, k: nat)
    ensures
        folded_len(n, k + 1) == spec_ceil_div(folded_len(n, k) as int, 2),
{
    let p = pow2(k) as int;
    lemma_pow2_double(k);
    let l = spec_ceil_div(n as int, p);
    let h = spec_ceil_div(l, 2);
    crate::misc::lemma_ceil_div_bounds(n as int, p);
    crate::misc::lemma_ceil_div_bounds(l, 2);
    assert(n <= h * (2 * p) && h * (2 * p) < n + 2 * p) by (nonlinear_arith)
        requires
            n <= l * p,
            l * p < n + p,
            l <= h * 2,
            h * 2 < l + 2,
            p >= 1,
    ;
    crate::misc::lemma_ceil_div_unique(n as int, 2 * p, h);
}

/// Coefficient `i` of a folded polynomial, read with zeros beyond its length, is
/// the folded coefficient `i`.
pub proof fn lemma_folded_coeff(v: Seq<int>, cs: Seq<int>, k: nat, i: int)
    requires
        i >= 0,
    ensures
        coeff(folded_coefficients(v, cs, k), i) == folded(v, cs, k, i),
{
    let len = folded_len(v.len(), k) as int;
    if i >= len {
        lemma_pow2_double(k);
        crate::misc::lemma_ceil_div_bounds(v.len() as int, pow2(k) as int);
        assert(i * pow2(k) >= len * pow2(k)) by (nonlinear_arith)
            requires
                i >= len,
                pow2(k) >= 1,
        ;
        lemma_folded_beyond(v, cs, k, i);
    }
}

/// Folding with one more challenge folds the folded polynomial once.
pub proof fn lemma_fold_step(v: Seq<int>, cs: Seq<int>, c: int)
    ensures
        folded_coefficients(v, cs.push(c), cs.len() + 1) == crate::sumcheck::prover::fold_once(
            folded_coefficients(v, cs, cs.len()),
            c,
        ),
{
    let k = cs.len();
    let w = folded_coefficients(v, cs, k);
    let a = folded_coefficients(v, cs.push(c), k + 1);
    let b = crate::sumcheck::prover::fold_once(w, c);
    lemma_folded_len_step(v.len(), k);
    assert(a.len() == b.len());
    assert forall|j: int| 0 <= j < a.len() implies a[j] == b[j] by {
        lemma_folded_prefix(v, cs.push(c), cs, k, 2 * j);
        lemma_folded_prefix(v, cs.push(c), cs, k, 2 * j + 1);
        lemma_folded_coeff(v, cs, k, 2 * j);
        lemma_folded_coeff(v, cs, k, 2 * j + 1);
    }
    assert(a =~= b);
}

/// The state of a cursor that folds on the fly.
///
/// The cursor has read the coefficients of degree `m` and above. Entry `i` of the
/// stack stands for the block of `2^level` coefficients that starts at degree
/// `index[i] * 2^level`: it holds that block folded `level` times. From the top of
/// the stack down the blocks follow one another without a gap, from degree `m` up
/// to the end of the block of `2^k` coefficients that gives the next item, of
/// which `blocks` are still to come. Every entry but the top one is the upper half
/// of its parent and waits for the lower half.
#[verifier::opaque]
pub open spec fn stack_ok(
    stack: Seq<(usize, Scalar)>,
    index: Seq<int>,
    m: int,
    blocks: int,
    v: Seq<int>,
    cs: Seq<int>,
    k: nat,
) -> bool {
    &&& index.len() == stack.len()
    &&& forall|i: int|
        0 <= i < stack.len() ==> (#[trigger] stack[i]).0 < k && stack[i].1@ == folded(
            v,
            cs,
            stack[i].0 as nat,
            index[i],
        ) && index[i] >= 0
    &&& forall|i: int| 0 <= i < stack.len() - 1 ==> (#[trigger] index[i]) % 2 == 1
    &&& forall|i: int|
        0 < i < stack.len() ==> (#[trigger] index[i] + 1) * pow2(stack[i].0 as nat) == index[i
            - 1] * pow2(stack[i - 1].0 as nat)
    &&& stack.len() > 0 ==> (index[0] + 1) * pow2(stack[0].0 as nat) == blocks * pow2(k)
    &&& stack.len() > 0 ==> index[stack.len() - 1] * pow2(stack[stack.len() - 1].0 as nat) == m
    &&& stack.len() == 0 ==> m == blocks * pow2(k)
}

/// Two top entries of one level are the two halves of one block: they combine
/// into that block, one level up.
pub proof fn lemma_stack_combine(
    stack: Seq<(usize, Scalar)>,
    index: Seq<int>,
    m: int,
    blocks: int,
    v: Seq<int>,
    cs: Seq<int>,
    k: nat,
    value: Scalar,
)
    requires
        stack_ok(stack, index, m, blocks, v, cs, k),
        stack.len() >= 2,
        stack[stack.len() - 1].0 == stack[stack.len() - 2].0,
        k <= cs.len(),
        k <= usize::MAX,
        value@ == (stack[stack.len() - 1].1@ + (stack[stack.len() - 2].1@ * cs[stack[stack.len()
            - 1].0 as int]) % modulus()) % modulus(),
    ensures
        index.len() == stack.len(),
        index[stack.len() - 1] % 2 == 0,
        index[stack.len() - 1] >= 0,
        value@ == folded(
            v,
            cs,
            (stack[stack.len() - 1].0 + 1) as nat,
            index[stack.len() - 1] / 2,
        ),
        stack[stack.len() - 1].0 + 1 < k ==> stack_ok(
            stack.take(stack.len() - 2).push(((stack[stack.len() - 1].0 + 1) as usize, value)),
            index.take(stack.len() - 2).push(index[stack.len() - 1] / 2),
            m,
            blocks,
            v,
            cs,
            k,
        ),
        stack[stack.len() - 1].0 + 1 >= k ==> stack[stack.len() - 1].0 + 1 == k && stack.len()
            == 2 && index[stack.len() - 1] / 2 == blocks - 1 && stack_ok(
            Seq::empty(),
            Seq::empty(),
            m,
            blocks - 1,
            v,
            cs,
            k,
        ),
{
    reveal(stack_ok);
    let len = stack.len() as int;
    let level = stack[len - 1].0;
    let j = index[len - 1];
    let j2 = index[len - 2];
    let p = pow2(level as nat) as int;
    lemma_pow2_double(level as nat);
    assert((j + 1) * p == j2 * p);
    lemma_mul_cancel(j + 1, j2, p);
    assert(j % 2 == 0);
    assert((j / 2) * (2 * p) == j * p) by (nonlinear_arith)
        requires
            j % 2 == 0,
    ;
    assert((j / 2 + 1) * (2 * p) == (j2 + 1) * p) by (nonlinear_arith)
        requires
            j % 2 == 0,
            j + 1 == j2,
    ;
    let a = folded(v, cs, level as nat, j);
    let b = folded(v, cs, level as nat, j + 1);
    let c = cs[level as int];
    assert(2 * (j / 2) == j);
    lemma_residue_congruent(b * c);
    lemma_add_congruent(a, a, (b * c) % modulus(), b * c);
    assert(b * c == c * b) by (nonlinear_arith);
    assert(value@ == folded(v, cs, (level + 1) as nat, j / 2));
    if level + 1 < k {
        let st = stack.take(len - 2).push(((level + 1) as usize, value));
        let ix = index.take(len - 2).push(j / 2);
        assert(forall|i: int| 0 <= i < len - 2 ==> st[i] == stack[i] && ix[i] == index[i]);
        assert(forall|i: int|
            0 < i < st.len() ==> (#[trigger] ix[i] + 1) * pow2(st[i].0 as nat) == ix[i - 1] * pow2(
                st[i - 1].0 as nat,
            )) by {
            assert forall|i: int| 0 < i < st.len() implies (#[trigger] ix[i] + 1) * pow2(
                st[i].0 as nat,
            ) == ix[i - 1] * pow2(st[i - 1].0 as nat) by {
                if i < len - 2 {
                    assert((index[i] + 1) * pow2(stack[i].0 as nat) == index[i - 1] * pow2(
                        stack[i - 1].0 as nat,
                    ));
                } else {
                    assert((index[len - 2] + 1) * pow2(stack[len - 2].0 as nat) == index[len - 3]
                        * pow2(stack[len - 3].0 as nat));
                    assert(ix[i] == j / 2 && st[i].0 == level + 1);
                    assert(pow2(st[i].0 as nat) == 2 * p);
                    assert(st[i - 1] == stack[len - 3] && ix[i - 1] == index[len - 3]);
                }
            }
        }
        assert(pow2(st[len - 2].0 as nat) == 2 * p);
        assert(ix[len - 2] == j / 2);
        if len == 2 {
            assert((index[0] + 1) * pow2(stack[0].0 as nat) == blocks * pow2(k));
        }
        assert(stack_ok(st, ix, m, blocks, v, cs, k));
    } else {
        if len > 2 {
            let l3 = stack[len - 3].0 as nat;
            assert((index[len - 2] + 1) * pow2(stack[len - 2].0 as nat) == index[len - 3] * pow2(
                l3,
            ));
            lemma_odd_multiple(index[len - 3], l3, j / 2 + 1, k);
            assert(false);
        }
        lemma_mul_cancel(j / 2 + 1, blocks, pow2(k) as int);
    }
}

/// What two top entries of one level combine into, in the terms of the field.
pub proof fn lemma_combined_value(
    stack: Seq<(usize, Scalar)>,
    index: Seq<int>,
    m: int,
    blocks: int,
    v: Seq<int>,
    cs: Seq<int>,
    k: nat,
)
    requires
        stack_ok(stack, index, m, blocks, v, cs, k),
        stack.len() >= 2,
        stack[stack.len() - 1].0 == stack[stack.len() - 2].0,
    ensures
        index.len() == stack.len(),
        folded(v, cs, (stack[stack.len() - 1].0 + 1) as nat, index[stack.len() - 1] / 2) == (
        stack[stack.len() - 1].1@ + (stack[stack.len() - 2].1@ * cs[stack[stack.len()
            - 1].0 as int]) % modulus()) % modulus(),
{
    reveal(stack_ok);
    let len = stack.len() as int;
    let level = stack[len - 1].0;
    let j = index[len - 1];
    let j2 = index[len - 2];
    let p = pow2(level as nat) as int;
    lemma_pow2_double(level as nat);
    assert((j + 1) * p == j2 * p);
    lemma_mul_cancel(j + 1, j2, p);
    let a = folded(v, cs, level as nat, j);
    let b = folded(v, cs, level as nat, j + 1);
    let c = cs[level as int];
    assert(2 * (j / 2) == j);
    lemma_residue_congruent(b * c);
    lemma_add_congruent(a, a, (b * c) % modulus(), b * c);
    assert(b * c == c * b) by (nonlinear_arith);
}

/// Whether the levels on a stack fall strictly from the bottom to the top.
pub open spec fn strict(stack: Seq<(usize, Scalar)>) -> bool {
    forall|a: int, b: int| 0 <= a < b < stack.len() ==> (#[trigger] stack[a]).0 > (#[trigger] stack[b]).0
}

/// A stack whose two top entries differ in level waits for the next coefficient
/// as a whole; where none is left, the stack is empty and no item is to come.
pub proof fn lemma_stack_waits(
    stack: Seq<(usize, Scalar)>,
    index: Seq<int>,
    m: int,
    blocks: int,
    v: Seq<int>,
    cs: Seq<int>,
    k: nat,
)
    requires
        stack_ok(stack, index, m, blocks, v, cs, k),
        !(stack.len() >= 2 && stack[stack.len() - 1].0 == stack[stack.len() - 2].0),
        m >= 0,
        blocks >= 0,
    ensures
        index.len() == stack.len(),
        stack.len() > 0 ==> index[stack.len() - 1] % 2 == 1 && m >= 1,
        m == 0 ==> stack.len() == 0 && blocks == 0,
        k == 0 ==> stack.len() == 0 && blocks == m,
{
    reveal(stack_ok);
    let len = stack.len() as int;
    lemma_pow2_double(k);
    vstd::arithmetic::power2::lemma2_to64();
    if len > 0 {
        let jt = index[len - 1];
        let lt = stack[len - 1].0 as nat;
        assert(stack[len - 1].0 < k);
        if jt % 2 == 0 {
            if len > 1 {
                let l2 = stack[len - 2].0 as nat;
                assert((index[len - 1] + 1) * pow2(lt) == index[len - 2] * pow2(l2));
                if lt < l2 {
                    lemma_odd_multiple(jt + 1, lt, index[len - 2], l2);
                } else {
                    lemma_odd_multiple(index[len - 2], l2, jt + 1, lt);
                }
            } else {
                lemma_odd_multiple(jt + 1, lt, blocks, k);
            }
            assert(false);
        }
        lemma_pow2_double(lt);
        assert(jt * pow2(lt) >= 1) by (nonlinear_arith)
            requires
                jt >= 1,
                pow2(lt) >= 1,
        ;
    } else {
        if blocks > 0 {
            assert(blocks * pow2(k) >= 1) by (nonlinear_arith)
                requires
                    blocks >= 1,
                    pow2(k) >= 1,
            ;
        }
        if k == 0 {
            assert(blocks * pow2(0) == blocks) by (nonlinear_arith)
                requires
                    pow2(0) == 1,
            ;
        }
    }
}

/// A waiting stack takes the next coefficient as a block of its own on top.
pub proof fn lemma_stack_read(
    stack: Seq<(usize, Scalar)>,
    index: Seq<int>,
    m: int,
    blocks: int,
    v: Seq<int>,
    cs: Seq<int>,
    k: nat,
    x: Scalar,
)
    requires
        stack_ok(stack, index, m, blocks, v, cs, k),
        !(stack.len() >= 2 && stack[stack.len() - 1].0 == stack[stack.len() - 2].0),
        m >= 1,
        blocks >= 0,
        x@ == coeff(v, m - 1),
    ensures
        k > 0 ==> stack_ok(stack.push((0usize, x)), index.push(m - 1), m - 1, blocks, v, cs, k),
        k == 0 ==> stack.len() == 0 && blocks == m && stack_ok(
            stack,
            index,
            m - 1,
            blocks - 1,
            v,
            cs,
            k,
        ),
{
    lemma_stack_waits(stack, index, m, blocks, v, cs, k);
    reveal(stack_ok);
    vstd::arithmetic::power2::lemma2_to64();
    if k > 0 {
        let st = stack.push((0usize, x));
        let ix = index.push(m - 1);
        let len = stack.len() as int;
        assert((m - 1) * pow2(0) == m - 1 && (m - 1 + 1) * pow2(0) == m) by (nonlinear_arith)
            requires
                pow2(0) == 1,
        ;
        assert(forall|i: int| 0 <= i < len ==> st[i] == stack[i] && ix[i] == index[i]);
        assert forall|i: int| 0 < i < st.len() implies (#[trigger] ix[i] + 1) * pow2(
            st[i].0 as nat,
        ) == ix[i - 1] * pow2(st[i - 1].0 as nat) by {
            if i < len {
                assert((index[i] + 1) * pow2(stack[i].0 as nat) == index[i - 1] * pow2(
                    stack[i - 1].0 as nat,
                ));
            }
        }
        assert(stack_ok(st, ix, m - 1, blocks, v, cs, k));
    } else {
        assert((blocks - 1) * pow2(0) == blocks - 1) by (nonlinear_arith)
            requires
                pow2(0) == 1,
        ;
    }
}

/// Every level on a valid stack is below the number of challenges.
pub proof fn lemma_stack_levels(
    stack: Seq<(usize, Scalar)>,
    index: Seq<int>,
    m: int,
    blocks: int,
    v: Seq<int>,
    cs: Seq<int>,
    k: nat,
)
    requires
        stack_ok(stack, index, m, blocks, v, cs, k),
    ensures
        index.len() == stack.len(),
        forall|i: int| 0 <= i < stack.len() ==> (#[trigger] stack[i]).0 < k,
{
    reveal(stack_ok);
}

/// The entries that stand on the stack for the zeros above the highest
/// coefficient inside block `j` of level `l`, when the `m` coefficients below
/// them are still to be read: one entry for every half of a block that holds
/// zeros only, from the largest down.
pub open spec fn pad_stack(m: int, l: nat, j: int) -> Seq<(usize, Scalar)>
    decreases l,
{
    if l == 0 || m >= (j + 1) * pow2(l) {
        Seq::empty()
    } else if m <= (2 * j + 1) * pow2((l - 1) as nat) {
        seq![((l - 1) as usize, Scalar::of_value(0))] + pad_stack(m, (l - 1) as nat, 2 * j)
    } else {
        pad_stack(m, (l - 1) as nat, 2 * j + 1)
    }
}

/// The indices of the blocks of `pad_stack`.
pub open spec fn pad_index(m: int, l: nat, j: int) -> Seq<int>
    decreases l,
{
    if l == 0 || m >= (j + 1) * pow2(l) {
        Seq::empty()
    } else if m <= (2 * j + 1) * pow2((l - 1) as nat) {
        seq![2 * j + 1] + pad_index(m, (l - 1) as nat, 2 * j)
    } else {
        pad_index(m, (l - 1) as nat, 2 * j + 1)
    }
}

/// The stack of a cursor that has read nothing yet. Where the number of
/// coefficients is no multiple of `2^k`, the polynomial is read as if it had
/// zeros above its highest coefficient up to the next multiple: the stack starts
/// with the blocks of those zeros, folded.
pub(crate) fn init_stack(n: usize, k: usize, Ghost(v): Ghost<Seq<int>>, Ghost(cs): Ghost<Seq<int>>) -> (r: (
    Vec<(usize, Scalar)>,
    Ghost<Seq<int>>,
    Ghost<int>,
))
    requires
        pow2(k as nat) <= usize::MAX,
        n == v.len(),
    ensures
        stack_ok(r.0@, r.1@, n as int, r.2@, v, cs, k as nat),
        r.2@ == folded_len(n as nat, k as nat),
        strict(r.0@),
        r.0@ == pad_stack(n as int, k as nat, r.2@ - 1),
        r.1@ == pad_index(n as int, k as nat, r.2@ - 1),
{
    let chunk = pow2_usize(k);
    let mut stack: Vec<(usize, Scalar)> = Vec::new();
    let ghost mut index: Seq<int> = Seq::empty();
    let ghost mut blocks: int = n as int / chunk as int;
    proof {
        lemma_pow2_double(k as nat);
        vstd::arithmetic::div_mod::lemma_fundamental_div_mod(n as int, chunk as int);
        vstd::arithmetic::div_mod::lemma_div_pos_is_pos(n as int, chunk as int);
        assert(chunk as int * (n as int / chunk as int) == (n as int / chunk as int) * chunk)
            by (nonlinear_arith);
        reveal(stack_ok);
    }
    let rem = n % chunk;
    if rem != 0 {
        let mut delta = chunk - rem;
        let mut i = k;
        let ghost mut hi: int = n as int / chunk as int + 1;
        proof {
            blocks = hi;
            assert(hi * chunk == (n as int / chunk as int) * chunk + chunk) by (nonlinear_arith)
                requires
                    hi == n as int / chunk as int + 1,
            ;
            assert(stack@ + pad_stack(n as int, k as nat, hi - 1) =~= pad_stack(
                n as int,
                k as nat,
                hi - 1,
            ));
            assert(index + pad_index(n as int, k as nat, hi - 1) =~= pad_index(
                n as int,
                k as nat,
                hi - 1,
            ));
        }
        while i > 0
            invariant
                i <= k,
                pow2(k as nat) <= usize::MAX,
                delta < pow2(i as nat),
                n + delta == hi * pow2(i as nat),
                hi >= 0,
                n == v.len(),
                index.len() == stack@.len(),
                stack_ok(stack@, index, n + delta, blocks, v, cs, k as nat),
                strict(stack@),
                stack@ + pad_stack(n as int, i as nat, hi - 1) == pad_stack(
                    n as int,
                    k as nat,
                    blocks - 1,
                ),
                index + pad_index(n as int, i as nat, hi - 1) == pad_index(
                    n as int,
                    k as nat,
                    blocks - 1,
                ),
                forall|t: int| 0 <= t < stack@.len() ==> (#[trigger] index[t]) % 2 == 1,
                forall|t: int| 0 <= t < stack@.len() ==> (#[trigger] stack@[t]).0 >= i,
            decreases i,
        {
            proof {
                reveal(stack_ok);
                lemma_pow2_double((i - 1) as nat);
                lemma_pow2_monotone((i - 1) as nat, k as nat);
            }
            i = i - 1;
            let bit = pow2_usize(i);
            let ghost p = pow2(i as nat) as int;
            let ghost old_stack = stack@;
            let ghost old_index = index;
            let ghost old_hi = hi;
            proof {
                assert((2 * hi) * p == hi * (2 * p)) by (nonlinear_arith);
                assert((2 * hi - 1) * p == hi * (2 * p) - p) by (nonlinear_arith);
                assert((2 * hi - 1 + 1) * p == hi * (2 * p)) by (nonlinear_arith);
                assert((hi - 1 + 1) * (2 * p) == hi * (2 * p));
                assert((2 * (hi - 1) + 1) * p == hi * (2 * p) - p);
                assert((2 * (hi - 1) + 1 + 1) * p == hi * (2 * p));
                assert((2 * (hi - 1) + 1) == 2 * hi - 1);
            }
            if delta >= bit {
                proof {
                    assert(hi >= 1) by (nonlinear_arith)
                        requires
                            hi * (2 * p) >= 1,
                            p >= 1,
                            hi >= 0,
                    ;
                    lemma_folded_beyond(v, cs, i as nat, 2 * hi - 1);
                }
                stack.push((i, Scalar::zero()));
                delta = delta - bit;
                proof {
                    index = index.push(2 * hi - 1);
                    hi = 2 * hi - 1;
                    let rest = pad_stack(n as int, i as nat, 2 * (old_hi - 1));
                    let rest_index = pad_index(n as int, i as nat, 2 * (old_hi - 1));
                    assert(pad_stack(n as int, (i + 1) as nat, old_hi - 1) == seq![
                        (i, Scalar::of_value(0)),
                    ] + rest);
                    assert(pad_index(n as int, (i + 1) as nat, old_hi - 1) == seq![
                        2 * (old_hi - 1) + 1,
                    ] + rest_index);
                    assert(stack@ + rest =~= old_stack + (seq![(i, Scalar::of_value(0))] + rest));
                    assert(index + rest_index =~= old_index + (seq![2 * (old_hi - 1) + 1]
                        + rest_index));
                }
            } else {
                proof {
                    hi = 2 * hi;
                    if delta == 0 {
                        assert(pad_stack(n as int, (i + 1) as nat, old_hi - 1) =~= Seq::empty());
                        assert(pad_stack(n as int, i as nat, hi - 1) =~= Seq::empty());
                        assert(pad_index(n as int, (i + 1) as nat, old_hi - 1) =~= Seq::empty());
                        assert(pad_index(n as int, i as nat, hi - 1) =~= Seq::empty());
                    } else {
                        assert(pad_stack(n as int, (i + 1) as nat, old_hi - 1) == pad_stack(
                            n as int,
                            i as nat,
                            2 * (old_hi - 1) + 1,
                        ));
                        assert(pad_index(n as int, (i + 1) as nat, old_hi - 1) == pad_index(
                            n as int,
                            i as nat,
                            2 * (old_hi - 1) + 1,
                        ));
                    }
                }
            }
        }
        proof {
            vstd::arithmetic::power2::lemma2_to64();
            assert(stack@ + Seq::empty() =~= stack@);
            assert(index + Seq::empty() =~= index);
        }
    } else {
        proof {
            assert((blocks - 1 + 1) * pow2(k as nat) == n);
        }
    }
    proof {
        reveal(stack_ok);
    }
    (stack, Ghost(index), Ghost(blocks))
}

/// The stream of a polynomial folded with a list of challenges.
pub struct FoldedPolynomialStream<'a, S> {
    challenges: &'a [Scalar],
    coefficients: &'a S,
}

/// A cursor of a [`FoldedPolynomialStream`].
pub struct FoldedPolynomialStreamIter<'a, I> {
    challenges: &'a [Scalar],
    iterator: I,
    stack: Vec<(usize, Scalar)>,
    base: Ghost<Seq<Scalar>>,
    index: Ghost<Seq<int>>,
    blocks: Ghost<int>,
}

impl<'a, I: Cursor<Scalar>> Cursor<Scalar> for FoldedPolynomialStreamIter<'a, I> {
    closed spec fn wf(&self) -> bool {
        let m = self.iterator.remaining().len();
        &&& self.iterator.wf()
        &&& m <= self.base@.len()
        &&& self.iterator.remaining() == self.base@.skip(self.base@.len() - m)
        &&& self.blocks@ >= 0
        &&& stack_ok(
            self.stack@,
            self.index@,
            m as int,
            self.blocks@,
            coefficients(self.base@),
            values(self.challenges@),
            self.challenges@.len(),
        )
    }

    closed spec fn remaining(&self) -> Seq<Scalar> {
        Seq::new(
            self.blocks@ as nat,
            |p: int|
                Scalar::of_value(
                    folded(
                        coefficients(self.base@),
                        values(self.challenges@),
                        self.challenges@.len(),
                        self.blocks@ - 1 - p,
                    ),
                ),
        )
    }

    fn next(&mut self) -> (r: Option<Scalar>) {
        let target = self.challenges.len();
        let ghost v = coefficients(self.base@);
        let ghost cs = values(self.challenges@);
        let ghost k = self.challenges@.len();
        loop
            invariant
                self.wf(),
                self.base@ == old(self).base@,
                self.challenges == old(self).challenges,
                self.blocks@ == old(self).blocks@,
                target == self.challenges@.len(),
                v == coefficients(self.base@),
                cs == values(self.challenges@),
                k == self.challenges@.len(),
            decreases 2 * self.iterator.remaining().len() + self.stack@.len(),
        {
            let len = self.stack.len();
            let ghost m = self.iterator.remaining().len() as int;
            let ghost stack0 = self.stack@;
            let ghost index0 = self.index@;
            proof {
                lemma_stack_levels(stack0, index0, m, self.blocks@, v, cs, k);
            }
            if len > 1 && self.stack[len - 1].0 == self.stack[len - 2].0 {
                let low = self.stack[len - 1];
                let high = self.stack[len - 2];
                let level = high.0;
                self.stack.pop();
                self.stack.pop();
                let prod = high.1.mul(&self.challenges[level]);
                let value = low.1.add(&prod);
                proof {
                    lemma_stack_combine(stack0, index0, m, self.blocks@, v, cs, k, value);
                    assert(self.stack@ =~= stack0.take(len - 2));
                }
                if level + 1 == target {
                    self.index = Ghost(Seq::empty());
                    self.blocks = Ghost(self.blocks@ - 1);
                    proof {
                        value.lemma_of_view();
                        assert(self.stack@ =~= Seq::empty());
                        assert(old(self).remaining().skip(1) =~= self.remaining());
                    }
                    return Some(value);
                }
                self.stack.push((level + 1, value));
                self.index = Ghost(index0.take(len - 2).push(index0[len - 1] / 2));
            } else {
                proof {
                    lemma_stack_waits(stack0, index0, m, self.blocks@, v, cs, k);
                }
                match self.iterator.next() {
                    None => {
                        return None;
                    },
                    Some(x) => {
                        proof {
                            let n = self.base@.len() as int;
                            assert(x == self.base@[n - m]);
                            assert(self.iterator.remaining() =~= self.base@.skip(n - (m - 1)));
                            lemma_stack_read(stack0, index0, m, self.blocks@, v, cs, k, x);
                        }
                        if target == 0 {
                            self.blocks = Ghost(self.blocks@ - 1);
                            proof {
                                x.lemma_of_view();
                                assert(old(self).remaining().skip(1) =~= self.remaining());
                            }
                            return Some(x);
                        }
                        self.stack.push((0, x));
                        self.index = Ghost(index0.push(m - 1));
                    },
                }
            }
        }
    }

    fn advance_by(&mut self, n: usize) -> (r: Result<(), usize>) {
        let mut i: usize = 0;
        while i < n
            invariant
                self.wf(),
                i <= n,
                i <= old(self).remaining().len(),
                self.remaining() == old(self).remaining().skip(i as int),
            decreases n - i,
        {
            match self.next() {
                Some(_x) => {
                    proof {
                        assert(old(self).remaining().skip(i as int).skip(1) =~= old(
                            self,
                        ).remaining().skip(i + 1));
                    }
                    i = i + 1;
                },
                None => {
                    return Err(n - i);
                },
            }
        }
        Ok(())
    }
}

impl<'a, S: Iterable<Scalar>> FoldedPolynomialStream<'a, S> {
    /// The stream of `coefficients` folded with `challenges`, the first challenge first.
    pub fn new(coefficients: &'a S, challenges: &'a [Scalar]) -> (r: Self)
        ensures
            r.spec_coefficients() == coefficients,
            r.spec_challenges() == challenges@,
    {
        FoldedPolynomialStream { challenges, coefficients }
    }

    /// The stream that is folded.
    pub closed spec fn spec_coefficients(&self) -> &S {
        self.coefficients
    }

    /// The challenges that it is folded with.
    pub closed spec fn spec_challenges(&self) -> Seq<Scalar> {
        self.challenges@
    }
}

impl<'a, S: Iterable<Scalar>> Iterable<Scalar> for FoldedPolynomialStream<'a, S> {
    type Iter = FoldedPolynomialStreamIter<'a, S::Iter>;

    open spec fn wf(&self) -> bool {
        &&& self.spec_coefficients().wf()
        &&& pow2(self.spec_challenges().len()) <= usize::MAX
    }

    open spec fn items(&self) -> Seq<Scalar> {
        folded_items(self.spec_coefficients().items(), self.spec_challenges())
    }

    fn len(&self) -> (n: usize) {
        proof {
            lemma_pow2_double(self.challenges@.len());
        }
        ceil_div(self.coefficients.len(), pow2_usize(self.challenges.len()))
    }

    fn iter(&self) -> (c: Self::Iter) {
        let n = self.coefficients.len();
        let k = self.challenges.len();
        let ghost items = self.coefficients.items();
        let (stack, Ghost(index), Ghost(blocks)) = init_stack(
            n,
            k,
            Ghost(coefficients(items)),
            Ghost(values(self.challenges@)),
        );
        let iterator = self.coefficients.iter();
        let c = FoldedPolynomialStreamIter {
            challenges: self.challenges,
            iterator,
            stack,
            base: Ghost(items),
            index: Ghost(index),
            blocks: Ghost(blocks),
        };
        proof {
            assert(items.skip(0) =~= items);
            assert(c.remaining() =~= self.items());
        }
        c
    }
}

} // verus!
