//! The tree of the foldings of a polynomial.
//!
//! Level `l` of the tree is the polynomial folded with the first `l` challenges.
//! One pass over the polynomial gives the coefficients of all the levels from
//! the first to the last, each with its level, every level from its highest
//! degree down. The levels come interleaved: a coefficient is given as soon as
//! the two coefficients below it are known.
use crate::algebra::{lemma_mul_cancel, lemma_odd_multiple, lemma_pow2_double, lemma_pow2_split};
use crate::field::{values, Scalar};
use crate::iterable::{Cursor, Iterable};
use crate::misc::{lemma_ceil_div_bounds, lemma_ceil_div_unique};
use crate::polynomial::coeff;
use crate::sumcheck::streams::{
    coefficients, folded, folded_items, folded_len, init_stack, lemma_combined_value,
    lemma_folded_beyond, lemma_folded_prefix, lemma_stack_combine, lemma_stack_levels,
    lemma_stack_read, lemma_stack_waits, pad_index, pad_stack, stack_ok, strict,
};
use vstd::arithmetic::power2::pow2;
use vstd::prelude::*;

verus! {

/// Coefficient `j` of the stream `base` folded with the first `l` challenges of
/// `cs`, as a scalar.
pub open spec fn folded_scalar(base: Seq<Scalar>, cs: Seq<Scalar>, l: nat, j: int) -> Scalar {
    Scalar::of_value(folded(coefficients(base), values(cs), l, j))
}

/// The view of a folded coefficient as a scalar is the folded coefficient.
pub proof fn lemma_folded_scalar(base: Seq<Scalar>, cs: Seq<Scalar>, l: nat, j: int)
    requires
        j >= 0,
    ensures
        folded_scalar(base, cs, l, j)@ == folded(coefficients(base), values(cs), l, j),
{
    let x = folded(coefficients(base), values(cs), l, j);
    if l == 0 {
        if j < base.len() {
            base[base.len() - 1 - j].lemma_of_view();
        } else {
            Scalar::lemma_of_value(0);
        }
    } else {
        Scalar::lemma_of_value(x);
    }
}

/// The items of one level among the items of a tree, in their order.
pub open spec fn level_items(items: Seq<(usize, Scalar)>, l: usize) -> Seq<Scalar>
    decreases items.len(),
{
    if items.len() == 0 {
        Seq::empty()
    } else if items.last().0 == l {
        level_items(items.drop_last(), l).push(items.last().1)
    } else {
        level_items(items.drop_last(), l)
    }
}

/// The items of a level in two sequences of items, one after the other.
pub proof fn lemma_level_items_concat(a: Seq<(usize, Scalar)>, b: Seq<(usize, Scalar)>, l: usize)
    ensures
        level_items(a + b, l) == level_items(a, l) + level_items(b, l),
    decreases b.len(),
{
    if b.len() == 0 {
        assert(a + b =~= a);
        assert(level_items(a, l) + level_items(b, l) =~= level_items(a, l));
    } else {
        lemma_level_items_concat(a, b.drop_last(), l);
        assert((a + b).drop_last() =~= a + b.drop_last());
        assert((a + b).last() == b.last());
        if b.last().0 == l {
            assert((level_items(a, l) + level_items(b.drop_last(), l)).push(b.last().1)
                =~= level_items(a, l) + level_items(b.drop_last(), l).push(b.last().1));
        }
    }
}

/// The items of a level among one item more.
pub proof fn lemma_level_items_push(items: Seq<(usize, Scalar)>, item: (usize, Scalar), l: usize)
    ensures
        level_items(items.push(item), l) == if item.0 == l {
            level_items(items, l).push(item.1)
        } else {
            level_items(items, l)
        },
{
    assert(items.push(item).drop_last() =~= items);
}

/// What a cursor of the tree still gives, from its stack and the `m`
/// coefficients that it has not read: it combines the two top entries of its
/// stack where they have one level, and gives the result; else it reads the next
/// coefficient, which it does not give.
pub open spec fn tree_run(
    stack: Seq<(usize, Scalar)>,
    index: Seq<int>,
    m: nat,
    base: Seq<Scalar>,
    cs: Seq<Scalar>,
) -> Seq<(usize, Scalar)>
    decreases 2 * m + stack.len(),
{
    let len = stack.len() as int;
    if len >= 2 && stack[len - 1].0 == stack[len - 2].0 {
        let level = stack[len - 1].0 + 1;
        let item = (level as usize, folded_scalar(base, cs, level as nat, index[len - 1] / 2));
        if level == cs.len() {
            seq![item] + tree_run(stack.take(len - 2), index.take(len - 2), m, base, cs)
        } else {
            seq![item] + tree_run(
                stack.take(len - 2).push(item),
                index.take(len - 2).push(index[len - 1] / 2),
                m,
                base,
                cs,
            )
        }
    } else if 0 < m <= base.len() {
        if cs.len() == 0 {
            tree_run(stack, index, (m - 1) as nat, base, cs)
        } else {
            tree_run(
                stack.push((0usize, base[base.len() - m])),
                index.push(m - 1),
                (m - 1) as nat,
                base,
                cs,
            )
        }
    } else {
        Seq::empty()
    }
}

/// The number of coefficients of level `l` that a cursor in the given state
/// still gives.
pub open spec fn pending(stack: Seq<(usize, Scalar)>, index: Seq<int>, blocks: int, k: nat, l: nat) -> int
    decreases stack.len(),
{
    if stack.len() == 0 {
        blocks * pow2((k - l) as nat)
    } else if stack.last().0 >= l {
        index.last() * pow2((stack.last().0 - l) as nat)
    } else {
        pending(stack.drop_last(), index.drop_last(), blocks, k, l)
    }
}

/// The `count` lowest coefficients of level `l`, highest degree first.
pub open spec fn level_tail(base: Seq<Scalar>, cs: Seq<Scalar>, l: nat, count: int) -> Seq<Scalar> {
    Seq::new(count as nat, |i: int| folded_scalar(base, cs, l, count - 1 - i))
}

/// A multiple of a power of two is a multiple of every smaller power of two.
pub proof fn lemma_scale(a: int, x: nat, y: nat)
    requires
        x <= y,
    ensures
        a * pow2(y) == (a * pow2((y - x) as nat)) * pow2(x),
{
    lemma_pow2_split(x, y);
    let px = pow2(x) as int;
    let pd = pow2((y - x) as nat) as int;
    assert(a * (px * pd) == (a * pd) * px) by (nonlinear_arith);
}

/// What a cursor still gives of level `l` are the lowest coefficients of that
/// level, highest degree first; and every item that it gives has a level from
/// one to the number of challenges.
pub proof fn lemma_run_levels(
    stack: Seq<(usize, Scalar)>,
    index: Seq<int>,
    m: nat,
    blocks: int,
    base: Seq<Scalar>,
    cs: Seq<Scalar>,
    l: nat,
)
    requires
        stack_ok(stack, index, m as int, blocks, coefficients(base), values(cs), cs.len()),
        m <= base.len(),
        blocks >= 0,
        1 <= l <= cs.len(),
        cs.len() <= usize::MAX,
    ensures
        pending(stack, index, blocks, cs.len(), l) >= 0,
        level_items(tree_run(stack, index, m, base, cs), l as usize) == level_tail(
            base,
            cs,
            l,
            pending(stack, index, blocks, cs.len(), l),
        ),
        forall|i: int|
            0 <= i < tree_run(stack, index, m, base, cs).len() ==> 1 <= (#[trigger] tree_run(
                stack,
                index,
                m,
                base,
                cs,
            )[i]).0 <= cs.len(),
    decreases 2 * m + stack.len(),
{
    let k = cs.len();
    let v = coefficients(base);
    let c = values(cs);
    let len = stack.len() as int;
    let run = tree_run(stack, index, m, base, cs);
    lemma_stack_levels(stack, index, m as int, blocks, v, c, k);
    lemma_pow2_double((k - l) as nat);
    if len >= 2 && stack[len - 1].0 == stack[len - 2].0 {
        let lam = stack[len - 1].0 as nat;
        let level = lam + 1;
        let j = index[len - 1];
        let item = (level as usize, folded_scalar(base, cs, level, j / 2));
        lemma_combined_value(stack, index, m as int, blocks, v, c, k);
        assert(j >= 0 && j % 2 == 0 && index[len - 2] == j + 1 && index[len - 2] >= 0) by {
            reveal(stack_ok);
            lemma_pow2_double(lam);
            lemma_mul_cancel(j + 1, index[len - 2], pow2(lam) as int);
        }
        lemma_folded_scalar(base, cs, level, j / 2);
        lemma_stack_combine(stack, index, m as int, blocks, v, c, k, item.1);
        let stack2 = stack.take(len - 2);
        let index2 = index.take(len - 2);
        assert(stack.drop_last().drop_last() =~= stack2);
        assert(index.drop_last().drop_last() =~= index2);
        assert(stack.drop_last().last() == stack[len - 2]);
        let head = seq![item];
        let p_old = pending(stack, index, blocks, k, l);
        // what is pending below the two entries, where they are below the level
        if lam < l {
            assert(p_old == pending(stack2, index2, blocks, k, l)) by {
                reveal_with_fuel(pending, 3);
            }
        } else {
            assert(p_old == j * pow2((lam - l) as nat));
        }
        if level == k {
            assert(stack2 =~= Seq::<(usize, Scalar)>::empty());
            assert(index2 =~= Seq::<int>::empty());
            let rest = tree_run(stack2, index2, m, base, cs);
            assert(run == head + rest);
            lemma_run_levels(stack2, index2, m, blocks - 1, base, cs, l);
            lemma_level_items_concat(head, rest, l as usize);
            let p_new = pending(stack2, index2, blocks - 1, k, l);
            assert(stack2.len() == 0);
            assert(p_new == (blocks - 1) * pow2((k - l) as nat));
            assert(j / 2 == blocks - 1);
            if level == l {
                vstd::arithmetic::power2::lemma2_to64();
                assert(p_new == j / 2) by (nonlinear_arith)
                    requires
                        p_new == (blocks - 1) * pow2(0),
                        pow2(0) == 1,
                        j / 2 == blocks - 1,
                ;
                assert(p_old == blocks * pow2(0));
                assert(p_old == j / 2 + 1) by (nonlinear_arith)
                    requires
                        p_old == blocks * pow2(0),
                        pow2(0) == 1,
                        j / 2 == blocks - 1,
                ;
            } else {
                // the level of the item is above `l`
                lemma_pow2_double((lam - l) as nat);
                assert((k - l) as nat == (lam - l) as nat + 1);
                assert(p_new == p_old) by (nonlinear_arith)
                    requires
                        p_new == (blocks - 1) * (2 * pow2((lam - l) as nat)),
                        p_old == j * pow2((lam - l) as nat),
                        j / 2 == blocks - 1,
                        j % 2 == 0,
                ;
            }
            lemma_run_head(head, rest, item, base, cs, l, p_old, p_new);
        } else {
            let stack3 = stack2.push(item);
            let index3 = index2.push(j / 2);
            let rest = tree_run(stack3, index3, m, base, cs);
            assert(run == head + rest);
            lemma_run_levels(stack3, index3, m, blocks, base, cs, l);
            lemma_level_items_concat(head, rest, l as usize);
            let p_new = pending(stack3, index3, blocks, k, l);
            assert(stack3.drop_last() =~= stack2);
            assert(index3.drop_last() =~= index2);
            if level < l {
                assert(p_new == p_old);
            } else if level == l {
                vstd::arithmetic::power2::lemma2_to64();
                assert(p_new == (j / 2) * pow2(0));
                assert((j / 2) * pow2(0) == j / 2) by (nonlinear_arith)
                    requires
                        pow2(0) == 1,
                ;
                lemma_pending_below(stack, index, m as int, blocks, v, c, k, l);
            } else {
                lemma_pow2_double((lam - l) as nat);
                assert((level - l) as nat == (lam - l) as nat + 1);
                assert(p_new == (j / 2) * pow2((level - l) as nat));
                assert(p_new == p_old) by (nonlinear_arith)
                    requires
                        p_new == (j / 2) * (2 * pow2((lam - l) as nat)),
                        p_old == j * pow2((lam - l) as nat),
                        j % 2 == 0,
                ;
            }
            lemma_run_head(head, rest, item, base, cs, l, p_old, p_new);
        }
    } else {
        lemma_stack_waits(stack, index, m as int, blocks, v, c, k);
        if m > 0 {
            let x = base[base.len() - m];
            assert(x@ == coeff(v, m - 1));
            lemma_stack_read(stack, index, m as int, blocks, v, c, k, x);
            let stack3 = stack.push((0usize, x));
            let index3 = index.push(m - 1);
            assert(run == tree_run(stack3, index3, (m - 1) as nat, base, cs));
            lemma_run_levels(stack3, index3, (m - 1) as nat, blocks, base, cs, l);
            assert(stack3.drop_last() =~= stack);
            assert(index3.drop_last() =~= index);
        } else {
            assert(run =~= Seq::<(usize, Scalar)>::empty());
            assert(blocks * pow2((k - l) as nat) == 0) by (nonlinear_arith)
                requires
                    blocks == 0,
            ;
            assert(level_tail(base, cs, l, 0) =~= Seq::<Scalar>::empty());
        }
    }
}

/// An item in front of a run: where it is of level `l`, it is the highest of
/// the coefficients of that level that are still to come.
pub proof fn lemma_run_head(
    head: Seq<(usize, Scalar)>,
    rest: Seq<(usize, Scalar)>,
    item: (usize, Scalar),
    base: Seq<Scalar>,
    cs: Seq<Scalar>,
    l: nat,
    p_old: int,
    p_new: int,
)
    requires
        head == seq![item],
        l <= usize::MAX,
        1 <= item.0 <= cs.len(),
        level_items(rest, l as usize) == level_tail(base, cs, l, p_new),
        p_new >= 0,
        item.0 == l ==> p_old == p_new + 1 && item.1 == folded_scalar(base, cs, l, p_new),
        item.0 != l ==> p_old == p_new,
        level_items(head + rest, l as usize) == level_items(head, l as usize) + level_items(
            rest,
            l as usize,
        ),
        forall|i: int| 0 <= i < rest.len() ==> 1 <= (#[trigger] rest[i]).0 <= cs.len(),
    ensures
        level_items(head + rest, l as usize) == level_tail(base, cs, l, p_old),
        forall|i: int| 0 <= i < (head + rest).len() ==> 1 <= (#[trigger] (head + rest)[i]).0 <= cs.len(),
{
    assert(head.drop_last() =~= Seq::<(usize, Scalar)>::empty());
    assert(level_items(head.drop_last(), l as usize) =~= Seq::<Scalar>::empty());
    if item.0 == l {
        assert(level_items(head, l as usize) =~= seq![item.1]);
        assert(seq![item.1] + level_tail(base, cs, l, p_new) =~= level_tail(base, cs, l, p_old));
    } else {
        assert(level_items(head, l as usize) =~= Seq::<Scalar>::empty());
        assert(Seq::<Scalar>::empty() + level_tail(base, cs, l, p_new) =~= level_tail(
            base,
            cs,
            l,
            p_new,
        ));
    }
}

/// Where the two top entries of a stack have the level below `l`, the block of
/// level `l` that they make is the next one of that level: one more is pending
/// than its index says.
pub proof fn lemma_pending_below(
    stack: Seq<(usize, Scalar)>,
    index: Seq<int>,
    m: int,
    blocks: int,
    v: Seq<int>,
    cs: Seq<int>,
    k: nat,
    l: nat,
)
    requires
        stack_ok(stack, index, m, blocks, v, cs, k),
        stack.len() >= 2,
        stack[stack.len() - 1].0 == stack[stack.len() - 2].0,
        stack[stack.len() - 1].0 + 1 == l,
        l <= k,
        index[stack.len() - 1] % 2 == 0,
        index[stack.len() - 2] == index[stack.len() - 1] + 1,
    ensures
        pending(stack, index, blocks, k, l) == index[stack.len() - 1] / 2 + 1,
{
    reveal(stack_ok);
    let len = stack.len() as int;
    let lam = (l - 1) as nat;
    let j = index[len - 1];
    let stack2 = stack.take(len - 2);
    let index2 = index.take(len - 2);
    assert(stack.drop_last().drop_last() =~= stack2);
    assert(index.drop_last().drop_last() =~= index2);
    assert(stack.drop_last().last() == stack[len - 2]);
    assert(pending(stack, index, blocks, k, l) == pending(stack2, index2, blocks, k, l)) by {
        reveal_with_fuel(pending, 3);
    }
    lemma_pow2_double(lam);
    let pl = pow2(l) as int;
    assert((j / 2 + 1) * pl == (index[len - 2] + 1) * pow2(lam)) by (nonlinear_arith)
        requires
            pl == 2 * pow2(lam),
            j % 2 == 0,
            index[len - 2] == j + 1,
    ;
    if len == 2 {
        assert(stack2.len() == 0);
        assert((index[0] + 1) * pow2(stack[0].0 as nat) == blocks * pow2(k));
        lemma_scale(blocks, l, k);
        lemma_mul_cancel(j / 2 + 1, blocks * pow2((k - l) as nat), pl);
    } else {
        let l3 = stack[len - 3].0 as nat;
        let i3 = index[len - 3];
        assert(stack2.last() == stack[len - 3] && index2.last() == i3);
        assert((index[len - 2] + 1) * pow2(stack[len - 2].0 as nat) == i3 * pow2(l3));
        assert(i3 % 2 == 1);
        if l3 < l {
            lemma_odd_multiple(i3, l3, j / 2 + 1, l);
            assert(false);
        }
        lemma_scale(i3, l, l3);
        lemma_mul_cancel(j / 2 + 1, i3 * pow2((l3 - l) as nat), pl);
    }
}

/// On a stack whose levels fall strictly, what is pending of level `l` ends
/// less than one block of that level above the coefficients not yet read.
pub proof fn lemma_pending_strict(
    stack: Seq<(usize, Scalar)>,
    index: Seq<int>,
    m: int,
    blocks: int,
    v: Seq<int>,
    cs: Seq<int>,
    k: nat,
    l: nat,
)
    requires
        stack_ok(stack, index, m, blocks, v, cs, k),
        strict(stack),
        l <= k,
    ensures
        pending(stack, index, blocks, k, l) * pow2(l) >= m,
        stack.len() == 0 || stack.last().0 >= l ==> pending(stack, index, blocks, k, l) * pow2(l)
            == m,
        stack.len() > 0 && stack.last().0 < l ==> pending(stack, index, blocks, k, l) * pow2(l)
            - m <= pow2(l) - pow2(stack.last().0 as nat),
    decreases stack.len(),
{
    reveal(stack_ok);
    let len = stack.len() as int;
    let pl = pow2(l) as int;
    lemma_pow2_double(l);
    if len == 0 {
        lemma_scale(blocks, l, k);
    } else {
        let lt = stack[len - 1].0 as nat;
        let jt = index[len - 1];
        lemma_pow2_double(lt);
        if lt >= l {
            lemma_scale(jt, l, lt);
        } else {
            let stack2 = stack.drop_last();
            let index2 = index.drop_last();
            let m2 = m + pow2(lt);
            assert((jt + 1) * pow2(lt) == m2) by (nonlinear_arith)
                requires
                    jt * pow2(lt) == m,
                    m2 == m + pow2(lt),
            ;
            assert(stack_ok(stack2, index2, m2, blocks, v, cs, k));
            assert(strict(stack2));
            lemma_pending_strict(stack2, index2, m2, blocks, v, cs, k, l);
            if len >= 2 {
                let l2 = stack[len - 2].0 as nat;
                assert(stack[len - 2].0 > stack[len - 1].0);
                crate::algebra::lemma_pow2_monotone(lt + 1, l2);
                crate::algebra::lemma_pow2_monotone(lt + 1, l);
            } else {
                crate::algebra::lemma_pow2_monotone(lt + 1, l);
            }
        }
    }
}

/// The items that the tree gives for block `j` of level `l`: the items of the
/// upper half of the block, then those of the lower half, then the coefficient
/// of the block itself. A block above the highest coefficient gives nothing, and
/// the coefficients of the polynomial itself, at level zero, are not given.
pub open spec fn subtree(base: Seq<Scalar>, cs: Seq<Scalar>, l: nat, j: int) -> Seq<(usize, Scalar)>
    decreases l,
{
    if l == 0 || j * pow2(l) >= base.len() {
        Seq::empty()
    } else {
        subtree(base, cs, (l - 1) as nat, 2 * j + 1) + subtree(base, cs, (l - 1) as nat, 2 * j)
            + seq![(l as usize, folded_scalar(base, cs, l, j))]
    }
}

/// The items that the tree gives for the `blocks` lowest blocks of its last
/// level, the highest block first.
pub open spec fn forest(base: Seq<Scalar>, cs: Seq<Scalar>, blocks: nat) -> Seq<(usize, Scalar)>
    decreases blocks,
{
    if blocks == 0 {
        Seq::empty()
    } else {
        subtree(base, cs, cs.len(), blocks - 1) + forest(base, cs, (blocks - 1) as nat)
    }
}

/// The items of the tree of the foldings of `base` with `cs`, in the order in
/// which a cursor gives them.
pub open spec fn tree_items(base: Seq<Scalar>, cs: Seq<Scalar>) -> Seq<(usize, Scalar)> {
    forest(base, cs, folded_len(base.len(), cs.len()))
}

/// What a cursor gives once it has block `j` of level `l` behind it: at the last
/// level the block is given and gone, below it the block waits on the stack.
pub open spec fn after_block(
    stack: Seq<(usize, Scalar)>,
    index: Seq<int>,
    base: Seq<Scalar>,
    cs: Seq<Scalar>,
    l: nat,
    j: int,
) -> Seq<(usize, Scalar)> {
    if l == cs.len() {
        tree_run(stack, index, (j * pow2(l)) as nat, base, cs)
    } else {
        tree_run(
            stack.push((l as usize, folded_scalar(base, cs, l, j))),
            index.push(j),
            (j * pow2(l)) as nat,
            base,
            cs,
        )
    }
}

/// A cursor that reads one coefficient has the block of that coefficient behind it.
pub proof fn lemma_run_leaf(
    stack: Seq<(usize, Scalar)>,
    index: Seq<int>,
    m: nat,
    base: Seq<Scalar>,
    cs: Seq<Scalar>,
)
    requires
        index.len() == stack.len(),
        !(stack.len() >= 2 && stack[stack.len() - 1].0 == stack[stack.len() - 2].0),
        0 < m <= base.len(),
    ensures
        tree_run(stack, index, m, base, cs) == after_block(stack, index, base, cs, 0, m - 1),
{
    let n = base.len() as int;
    vstd::arithmetic::power2::lemma2_to64();
    assert((m - 1) * pow2(0) == m - 1) by (nonlinear_arith)
        requires
            pow2(0) == 1,
    ;
    if cs.len() > 0 {
        base[n - m].lemma_of_view();
        assert(coeff(coefficients(base), m - 1) == base[n - m]@);
        assert(base[n - m] == folded_scalar(base, cs, 0, m - 1));
    }
}

/// A cursor with the two halves of block `j` of level `l` on top of its stack
/// gives the coefficient of the block and has the block behind it.
pub proof fn lemma_run_halves(
    stack: Seq<(usize, Scalar)>,
    index: Seq<int>,
    base: Seq<Scalar>,
    cs: Seq<Scalar>,
    l: nat,
    j: int,
)
    requires
        index.len() == stack.len(),
        1 <= l <= cs.len(),
        cs.len() <= usize::MAX,
        j >= 0,
    ensures
        tree_run(
            stack.push(((l - 1) as usize, folded_scalar(base, cs, (l - 1) as nat, 2 * j + 1))).push(
                ((l - 1) as usize, folded_scalar(base, cs, (l - 1) as nat, 2 * j)),
            ),
            index.push(2 * j + 1).push(2 * j),
            (j * pow2(l)) as nat,
            base,
            cs,
        ) == seq![(l as usize, folded_scalar(base, cs, l, j))] + after_block(
            stack,
            index,
            base,
            cs,
            l,
            j,
        ),
{
    let high = ((l - 1) as usize, folded_scalar(base, cs, (l - 1) as nat, 2 * j + 1));
    let low = ((l - 1) as usize, folded_scalar(base, cs, (l - 1) as nat, 2 * j));
    let stack2 = stack.push(high).push(low);
    let index2 = index.push(2 * j + 1).push(2 * j);
    assert(stack2.take(stack2.len() - 2) =~= stack);
    assert(index2.take(stack2.len() - 2) =~= index);
    assert(index2[stack2.len() - 1] / 2 == j);
    assert(stack2[stack2.len() - 1].0 + 1 == l);
}

/// A cursor that stands at the top of what is left of block `j` of level `l`,
/// with the zeros above the highest coefficient on its stack, gives the items of
/// that block and then goes on below the block.
pub proof fn lemma_run_block(
    stack: Seq<(usize, Scalar)>,
    index: Seq<int>,
    m: nat,
    base: Seq<Scalar>,
    cs: Seq<Scalar>,
    l: nat,
    j: int,
)
    requires
        index.len() == stack.len(),
        !(stack.len() >= 2 && stack[stack.len() - 1].0 == stack[stack.len() - 2].0),
        stack.len() > 0 ==> stack.last().0 >= l,
        l <= cs.len(),
        cs.len() <= usize::MAX,
        j >= 0,
        j * pow2(l) < m,
        m <= base.len(),
        m == (j + 1) * pow2(l) || (m == base.len() && m < (j + 1) * pow2(l)),
    ensures
        tree_run(
            stack + pad_stack(m as int, l, j),
            index + pad_index(m as int, l, j),
            m,
            base,
            cs,
        ) == subtree(base, cs, l, j) + after_block(stack, index, base, cs, l, j),
    decreases l, 1nat,
{
    let after = after_block(stack, index, base, cs, l, j);
    let p = pow2(l) as int;
    lemma_pow2_double(l);
    if l == 0 {
        vstd::arithmetic::power2::lemma2_to64();
        assert(j * p == j && (j + 1) * p == j + 1) by (nonlinear_arith)
            requires
                p == 1,
        ;
        assert(stack + pad_stack(m as int, 0, j) =~= stack);
        assert(index + pad_index(m as int, 0, j) =~= index);
        assert(subtree(base, cs, 0, j) + after =~= after);
        lemma_run_leaf(stack, index, m, base, cs);
    } else if m > (2 * j + 1) * pow2((l - 1) as nat) {
        lemma_run_block_upper(stack, index, m, base, cs, l, j);
    } else {
        lemma_run_block_padded(stack, index, m, base, cs, l, j);
    }
}

/// The block lemma where coefficients are left in the upper half of the block.
pub proof fn lemma_run_block_upper(
    stack: Seq<(usize, Scalar)>,
    index: Seq<int>,
    m: nat,
    base: Seq<Scalar>,
    cs: Seq<Scalar>,
    l: nat,
    j: int,
)
    requires
        index.len() == stack.len(),
        !(stack.len() >= 2 && stack[stack.len() - 1].0 == stack[stack.len() - 2].0),
        stack.len() > 0 ==> stack.last().0 >= l,
        l <= cs.len(),
        cs.len() <= usize::MAX,
        j >= 0,
        j * pow2(l) < m,
        m <= base.len(),
        m == (j + 1) * pow2(l) || (m == base.len() && m < (j + 1) * pow2(l)),
        l >= 1,
        m > (2 * j + 1) * pow2((l - 1) as nat),
    ensures
        tree_run(
            stack + pad_stack(m as int, l, j),
            index + pad_index(m as int, l, j),
            m,
            base,
            cs,
        ) == subtree(base, cs, l, j) + after_block(stack, index, base, cs, l, j),
    decreases l, 0nat,
{
    let n = base.len() as int;
    let after = after_block(stack, index, base, cs, l, j);
    let p = pow2(l) as int;
    lemma_pow2_double(l);
    let l1 = (l - 1) as nat;
    let p1 = pow2(l1) as int;
    lemma_pow2_double(l1);
    let h = (2 * j + 1) * p1;
    assert((2 * j + 2) * p1 == (j + 1) * p && (2 * j) * p1 == j * p && h == j * p + p1 && j * p
        >= 0 && (j + 1) * p == h + p1) by (nonlinear_arith)
        requires
            p == 2 * p1,
            h == (2 * j + 1) * p1,
            j >= 0,
            p1 >= 1,
    ;
    assert((2 * j + 1 + 1) * p1 == (j + 1) * p);
    let high = ((l - 1) as usize, folded_scalar(base, cs, l1, 2 * j + 1));
    let low = ((l - 1) as usize, folded_scalar(base, cs, l1, 2 * j));
    let stack1 = stack.push(high);
    let index1 = index.push(2 * j + 1);
    let stack2 = stack1.push(low);
    let index2 = index1.push(2 * j);
    let item = (l as usize, folded_scalar(base, cs, l, j));
    let start = (j * p) as nat;
    let upper = subtree(base, cs, l1, 2 * j + 1);
    let lower = subtree(base, cs, l1, 2 * j);
    let whole = subtree(base, cs, l, j);
    let run2 = tree_run(stack2, index2, start, base, cs);
    assert(whole == upper + lower + seq![item]);
    assert(run2 == seq![item] + after) by {
        lemma_run_halves(stack, index, base, cs, l, j);
    }
    assert(after_block(stack1, index1, base, cs, l1, 2 * j) == run2);
    let run1 = tree_run(stack1, index1, h as nat, base, cs);
    assert(tree_run(
        stack + pad_stack(m as int, l, j),
        index + pad_index(m as int, l, j),
        m,
        base,
        cs,
    ) == upper + run1) by {
        lemma_run_block(stack, index, m, base, cs, l1, 2 * j + 1);
        assert(pad_stack(m as int, l, j) == pad_stack(m as int, l1, 2 * j + 1));
        assert(pad_index(m as int, l, j) == pad_index(m as int, l1, 2 * j + 1));
        assert(after_block(stack, index, base, cs, l1, 2 * j + 1) == run1);
    }
    assert(run1 == lower + run2) by {
        lemma_run_block(stack1, index1, h as nat, base, cs, l1, 2 * j);
        assert(stack1 + pad_stack(h, l1, 2 * j) =~= stack1);
        assert(index1 + pad_index(h, l1, 2 * j) =~= index1);
    }
    assert(upper + (lower + (seq![item] + after)) =~= whole + after);
}

/// The block lemma where the upper half of the block holds zeros only: it waits
/// on the stack from the start.
pub proof fn lemma_run_block_padded(
    stack: Seq<(usize, Scalar)>,
    index: Seq<int>,
    m: nat,
    base: Seq<Scalar>,
    cs: Seq<Scalar>,
    l: nat,
    j: int,
)
    requires
        index.len() == stack.len(),
        !(stack.len() >= 2 && stack[stack.len() - 1].0 == stack[stack.len() - 2].0),
        stack.len() > 0 ==> stack.last().0 >= l,
        l <= cs.len(),
        cs.len() <= usize::MAX,
        j >= 0,
        j * pow2(l) < m,
        m <= base.len(),
        m == (j + 1) * pow2(l) || (m == base.len() && m < (j + 1) * pow2(l)),
        l >= 1,
        m <= (2 * j + 1) * pow2((l - 1) as nat),
    ensures
        tree_run(
            stack + pad_stack(m as int, l, j),
            index + pad_index(m as int, l, j),
            m,
            base,
            cs,
        ) == subtree(base, cs, l, j) + after_block(stack, index, base, cs, l, j),
    decreases l, 0nat,
{
    let n = base.len() as int;
    let after = after_block(stack, index, base, cs, l, j);
    let p = pow2(l) as int;
    lemma_pow2_double(l);
    let l1 = (l - 1) as nat;
    let p1 = pow2(l1) as int;
    lemma_pow2_double(l1);
    let h = (2 * j + 1) * p1;
    assert((2 * j + 2) * p1 == (j + 1) * p && (2 * j) * p1 == j * p && h == j * p + p1 && j * p
        >= 0 && (j + 1) * p == h + p1) by (nonlinear_arith)
        requires
            p == 2 * p1,
            h == (2 * j + 1) * p1,
            j >= 0,
            p1 >= 1,
    ;
    assert((2 * j + 1 + 1) * p1 == (j + 1) * p);
    let high = ((l - 1) as usize, folded_scalar(base, cs, l1, 2 * j + 1));
    let low = ((l - 1) as usize, folded_scalar(base, cs, l1, 2 * j));
    let stack1 = stack.push(high);
    let index1 = index.push(2 * j + 1);
    let stack2 = stack1.push(low);
    let index2 = index1.push(2 * j);
    let item = (l as usize, folded_scalar(base, cs, l, j));
    let start = (j * p) as nat;
    let upper = subtree(base, cs, l1, 2 * j + 1);
    let lower = subtree(base, cs, l1, 2 * j);
    let whole = subtree(base, cs, l, j);
    let run2 = tree_run(stack2, index2, start, base, cs);
    assert(whole == upper + lower + seq![item]);
    assert(run2 == seq![item] + after) by {
        lemma_run_halves(stack, index, base, cs, l, j);
    }
    assert(after_block(stack1, index1, base, cs, l1, 2 * j) == run2);
    assert(m == n);
    assert(high.1 == Scalar::of_value(0)) by {
        assert(coefficients(base).len() == n);
        lemma_folded_beyond(coefficients(base), values(cs), l1, 2 * j + 1);
    }
    assert(tree_run(
        stack + pad_stack(m as int, l, j),
        index + pad_index(m as int, l, j),
        m,
        base,
        cs,
    ) == lower + run2) by {
        assert(m < (j + 1) * pow2(l));
        assert(pad_stack(m as int, l, j) == seq![high] + pad_stack(m as int, l1, 2 * j));
        assert(pad_index(m as int, l, j) == seq![2 * j + 1] + pad_index(m as int, l1, 2 * j));
        assert(stack + pad_stack(m as int, l, j) =~= stack1 + pad_stack(m as int, l1, 2 * j));
        assert(index + pad_index(m as int, l, j) =~= index1 + pad_index(m as int, l1, 2 * j));
        lemma_run_block(stack1, index1, m, base, cs, l1, 2 * j);
    }
    assert(upper =~= Seq::<(usize, Scalar)>::empty());
    assert(lower + (seq![item] + after) =~= whole + after);
}

/// A cursor with an empty stack at the top of the `blocks` lowest blocks of the
/// last level gives the items of those blocks.
pub proof fn lemma_run_forest(base: Seq<Scalar>, cs: Seq<Scalar>, blocks: nat)
    requires
        blocks * pow2(cs.len()) <= base.len(),
        cs.len() <= usize::MAX,
    ensures
        tree_run(Seq::empty(), Seq::empty(), (blocks * pow2(cs.len())) as nat, base, cs) == forest(
            base,
            cs,
            blocks,
        ),
    decreases blocks,
{
    let k = cs.len();
    let p = pow2(k) as int;
    lemma_pow2_double(k);
    let nothing = Seq::<(usize, Scalar)>::empty();
    let none = Seq::<int>::empty();
    if blocks == 0 {
        assert(0 * p == 0);
    } else {
        let j = blocks - 1;
        assert(j * p < blocks * p && (j + 1) * p == blocks * p && j * p >= 0) by (nonlinear_arith)
            requires
                j == blocks - 1,
                p >= 1,
                j >= 0,
        ;
        lemma_run_block(nothing, none, (blocks * p) as nat, base, cs, k, j);
        assert(nothing + pad_stack(blocks * p, k, j) =~= nothing);
        assert(none + pad_index(blocks * p, k, j) =~= none);
        lemma_run_forest(base, cs, j as nat);
    }
}

/// A cursor that has read nothing yet gives the items of the tree.
pub proof fn lemma_run_tree(base: Seq<Scalar>, cs: Seq<Scalar>)
    requires
        cs.len() <= usize::MAX,
    ensures
        tree_run(
            pad_stack(base.len() as int, cs.len(), folded_len(base.len(), cs.len()) - 1),
            pad_index(base.len() as int, cs.len(), folded_len(base.len(), cs.len()) - 1),
            base.len(),
            base,
            cs,
        ) == tree_items(base, cs),
{
    let k = cs.len();
    let n = base.len();
    let p = pow2(k) as int;
    let blocks = folded_len(n, k);
    lemma_pow2_double(k);
    lemma_ceil_div_bounds(n as int, p);
    let nothing = Seq::<(usize, Scalar)>::empty();
    let none = Seq::<int>::empty();
    if n == 0 {
        assert(blocks == 0);
        assert((blocks - 1 + 1) * p == 0) by (nonlinear_arith)
            requires
                blocks == 0,
        ;
        assert(pad_stack(0, k, blocks - 1) =~= nothing);
        assert(pad_index(0, k, blocks - 1) =~= none);
    } else {
        let j = blocks - 1;
        assert(j * p < n && (j + 1) * p == blocks * p && j * p >= 0) by (nonlinear_arith)
            requires
                j == blocks - 1,
                blocks * p < n + p,
                p >= 1,
                j >= 0,
        ;
        lemma_run_block(nothing, none, n, base, cs, k, j);
        assert(nothing + pad_stack(n as int, k, j) =~= pad_stack(n as int, k, j));
        assert(none + pad_index(n as int, k, j) =~= pad_index(n as int, k, j));
        lemma_run_forest(base, cs, j as nat);
    }
}

/// The tree of the foldings of a polynomial.
pub struct FoldedPolynomialTree<'a, S> {
    challenges: &'a [Scalar],
    coefficients: &'a S,
}

/// A cursor of a [`FoldedPolynomialTree`].
pub struct FoldedPolynomialTreeIter<'a, I> {
    challenges: &'a [Scalar],
    iterator: I,
    stack: Vec<(usize, Scalar)>,
    base: Ghost<Seq<Scalar>>,
    index: Ghost<Seq<int>>,
    blocks: Ghost<int>,
}

impl<'a, I: Cursor<Scalar>> Cursor<(usize, Scalar)> for FoldedPolynomialTreeIter<'a, I> {
    closed spec fn wf(&self) -> bool {
        let m = self.iterator.remaining().len();
        &&& self.iterator.wf()
        &&& m <= self.base@.len()
        &&& self.iterator.remaining() == self.base@.skip(self.base@.len() - m)
        &&& self.blocks@ >= 0
        &&& stack_ok(
            self.stack@,
            self.index@,
            m as int,
            self.blocks@,
            coefficients(self.base@),
            values(self.challenges@),
            self.challenges@.len(),
        )
    }

    closed spec fn remaining(&self) -> Seq<(usize, Scalar)> {
        tree_run(
            self.stack@,
            self.index@,
            self.iterator.remaining().len(),
            self.base@,
            self.challenges@,
        )
    }

    fn next(&mut self) -> (r: Option<(usize, Scalar)>) {
        let target = self.challenges.len();
        let ghost v = coefficients(self.base@);
        let ghost cs = values(self.challenges@);
        let ghost k = self.challenges@.len();
        loop
            invariant
                self.wf(),
                self.base@ == old(self).base@,
                self.challenges == old(self).challenges,
                target == self.challenges@.len(),
                v == coefficients(self.base@),
                cs == values(self.challenges@),
                k == self.challenges@.len(),
                self.remaining() == old(self).remaining(),
            decreases 2 * self.iterator.remaining().len() + self.stack@.len(),
        {
            let len = self.stack.len();
            let ghost m = self.iterator.remaining().len() as int;
            let ghost stack0 = self.stack@;
            let ghost index0 = self.index@;
            let ghost run0 = self.remaining();
            proof {
                lemma_stack_levels(stack0, index0, m, self.blocks@, v, cs, k);
            }
            if len > 1 && self.stack[len - 1].0 == self.stack[len - 2].0 {
                let low = self.stack[len - 1];
                let high = self.stack[len - 2];
                let level = high.0;
                self.stack.pop();
                self.stack.pop();
                let prod = high.1.mul(&self.challenges[level]);
                let value = low.1.add(&prod);
                proof {
                    lemma_stack_combine(stack0, index0, m, self.blocks@, v, cs, k, value);
                    assert(self.stack@ =~= stack0.take(len - 2));
                    value.lemma_of_view();
                    assert(value == folded_scalar(
                        self.base@,
                        self.challenges@,
                        (level + 1) as nat,
                        index0[len - 1] / 2,
                    ));
                }
                if level + 1 != target {
                    self.stack.push((level + 1, value));
                    self.index = Ghost(index0.take(len - 2).push(index0[len - 1] / 2));
                } else {
                    self.index = Ghost(Seq::empty());
                    self.blocks = Ghost(self.blocks@ - 1);
                    proof {
                        assert(self.stack@ =~= Seq::empty());
                        assert(index0.take(len - 2) =~= Seq::<int>::empty());
                    }
                }
                proof {
                    assert(run0 == seq![((level + 1) as usize, value)] + self.remaining());
                    assert(run0.skip(1) =~= self.remaining());
                }
                return Some((level + 1, value));
            } else {
                proof {
                    lemma_stack_waits(stack0, index0, m, self.blocks@, v, cs, k);
                }
                match self.iterator.next() {
                    None => {
                        proof {
                            assert(run0 =~= Seq::<(usize, Scalar)>::empty());
                        }
                        return None;
                    },
                    Some(x) => {
                        proof {
                            let n = self.base@.len() as int;
                            assert(x == self.base@[n - m]);
                            assert(self.iterator.remaining() =~= self.base@.skip(n - (m - 1)));
                            lemma_stack_read(stack0, index0, m, self.blocks@, v, cs, k, x);
                        }
                        if target != 0 {
                            self.stack.push((0, x));
                            self.index = Ghost(index0.push(m - 1));
                        } else {
                            self.blocks = Ghost(self.blocks@ - 1);
                        }
                    },
                }
            }
        }
    }

    fn advance_by(&mut self, n: usize) -> (r: Result<(), usize>) {
        let mut i: usize = 0;
        while i < n
            invariant
                self.wf(),
                i <= n,
                i <= old(self).remaining().len(),
                self.remaining() == old(self).remaining().skip(i as int),
            decreases n - i,
        {
            match self.next() {
                Some(_x) => {
                    proof {
                        assert(old(self).remaining().skip(i as int).skip(1) =~= old(
                            self,
                        ).remaining().skip(i + 1));
                    }
                    i = i + 1;
                },
                None => {
                    return Err(n - i);
                },
            }
        }
        Ok(())
    }
}

impl<'a, S: Iterable<Scalar>> FoldedPolynomialTree<'a, S> {
    /// The tree of the foldings of `coefficients` with `challenges`, the first
    /// challenge first.
    pub fn new(coefficients: &'a S, challenges: &'a [Scalar]) -> (r: Self)
        ensures
            r.spec_coefficients() == coefficients,
            r.spec_challenges() == challenges@,
    {
        FoldedPolynomialTree { challenges, coefficients }
    }

    /// The stream that is folded.
    pub closed spec fn spec_coefficients(&self) -> &S {
        self.coefficients
    }

    /// The challenges that it is folded with.
    pub closed spec fn spec_challenges(&self) -> Seq<Scalar> {
        self.challenges@
    }

    /// Whether the tree is in a valid state.
    pub open spec fn wf(&self) -> bool {
        &&& self.spec_coefficients().wf()
        &&& pow2(self.spec_challenges().len()) <= usize::MAX
    }

    /// The items of the tree, in the order in which a cursor gives them.
    pub open spec fn items(&self) -> Seq<(usize, Scalar)> {
        tree_items(self.spec_coefficients().items(), self.spec_challenges())
    }

    /// The items of level `l`: the stream folded with the first `l` challenges.
    pub open spec fn level(&self, l: nat) -> Seq<Scalar> {
        folded_items(self.spec_coefficients().items(), self.spec_challenges().take(l as int))
    }

    /// The number of levels above the polynomial itself.
    pub fn depth(&self) -> (d: usize)
        ensures
            d == self.spec_challenges().len(),
    {
        self.challenges.len()
    }

    /// The number of coefficients of the polynomial that is folded.
    pub fn len(&self) -> (n: usize)
        requires
            self.wf(),
        ensures
            n == self.spec_coefficients().items().len(),
    {
        self.coefficients.len()
    }

    /// A fresh cursor. It gives the items of the tree: those of every level from
    /// one to the depth, each with its level, and every level in the order of
    /// its stream.
    pub fn iter(&self) -> (c: FoldedPolynomialTreeIter<'a, S::Iter>)
        requires
            self.wf(),
        ensures
            c.wf(),
            c.remaining() == self.items(),
            forall|l: nat|
                1 <= l <= self.spec_challenges().len() ==> level_items(c.remaining(), l as usize)
                    == #[trigger] self.level(l),
            forall|i: int|
                0 <= i < c.remaining().len() ==> 1 <= (#[trigger] c.remaining()[i]).0
                    <= self.spec_challenges().len(),
    {
        let n = self.coefficients.len();
        let k = self.challenges.len();
        let ghost items = self.coefficients.items();
        let ghost v = coefficients(items);
        let ghost cs = values(self.challenges@);
        let (stack, Ghost(index), Ghost(blocks)) = init_stack(n, k, Ghost(v), Ghost(cs));
        let iterator = self.coefficients.iter();
        let c = FoldedPolynomialTreeIter {
            challenges: self.challenges,
            iterator,
            stack,
            base: Ghost(items),
            index: Ghost(index),
            blocks: Ghost(blocks),
        };
        proof {
            assert(items.skip(0) =~= items);
            lemma_pow2_double(k as nat);
            lemma_run_tree(items, self.challenges@);
            if k >= 1 {
                lemma_run_levels(c.stack@, index, n as nat, blocks, items, self.challenges@, 1);
            } else {
                lemma_no_levels(c.stack@, index, n as nat, blocks, items, self.challenges@);
            }
            assert forall|l: nat| 1 <= l <= k implies level_items(c.remaining(), l as usize)
                == #[trigger] self.level(l) by {
                lemma_run_levels(c.stack@, index, n as nat, blocks, items, self.challenges@, l);
                lemma_pending_strict(c.stack@, index, n as int, blocks, v, cs, k as nat, l);
                lemma_pow2_double(l);
                if c.stack@.len() > 0 {
                    lemma_pow2_double(c.stack@.last().0 as nat);
                }
                let p = pending(c.stack@, index, blocks, k as nat, l);
                lemma_ceil_div_unique(n as int, pow2(l) as int, p);
                let head = self.challenges@.take(l as int);
                let a = level_tail(items, self.challenges@, l, p);
                let b = self.level(l);
                assert(a.len() == b.len());
                assert forall|i: int| 0 <= i < a.len() implies a[i] == b[i] by {
                    lemma_folded_prefix(v, cs, values(head), l, p - 1 - i);
                }
                assert(a =~= b);
            }
        }
        c
    }
}

/// A tree of depth zero gives no item.
pub proof fn lemma_no_levels(
    stack: Seq<(usize, Scalar)>,
    index: Seq<int>,
    m: nat,
    blocks: int,
    base: Seq<Scalar>,
    cs: Seq<Scalar>,
)
    requires
        stack_ok(stack, index, m as int, blocks, coefficients(base), values(cs), cs.len()),
        cs.len() == 0,
        m <= base.len(),
        blocks >= 0,
    ensures
        tree_run(stack, index, m, base, cs).len() == 0,
    decreases m,
{
    lemma_stack_levels(stack, index, m as int, blocks, coefficients(base), values(cs), 0);
    if stack.len() > 0 {
        assert(stack[0].0 < 0);
    }
    if m > 0 {
        let x = base[base.len() - m];
        lemma_stack_read(stack, index, m as int, blocks, coefficients(base), values(cs), 0, x);
        lemma_no_levels(stack, index, (m - 1) as nat, blocks - 1, base, cs);
    }
}

} // verus!
