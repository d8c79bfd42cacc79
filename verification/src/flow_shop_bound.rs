//! What holds of flow-shop schedules, and why Johnson's order is the
//! fastest for two machines.

use vstd::prelude::*;

use crate::flow_shop::{first_group, johnson_order, second_group};
use crate::schedule::{
    flow_run, flow_schedule, flow_state, makespan_of, multi_makespan_of, nonnegative, well_ordered,
};
use crate::selection::{ascending, key_before, lemma_ascending, negated};
use crate::single_machine::schrage_model::{is_permutation, occurs, pending};

verus! {

/// The time at which the second of two machines has finished the jobs of
/// `order`, the first machine being free from `c1` and the second from
/// `c2` on: each job runs on the first machine and then on the second.
pub open spec fn second_end(order: Seq<int>, a: Seq<int>, b: Seq<int>, c1: int, c2: int) -> int
    decreases order.len(),
{
    if order.len() == 0 {
        c2
    } else {
        let j = order[0];
        let left = c1 + a[j];
        second_end(order.drop_first(), a, b, left, (if c2 >= left { c2 } else { left }) + b[j])
    }
}

/// Job `x` may run right before job `y` without loss: the smaller of its
/// time on the first machine and of the other's time on the second is no
/// greater than the other way round.
pub open spec fn safe_before(a: Seq<int>, b: Seq<int>, x: int, y: int) -> bool {
    let this = if a[x] <= b[y] { a[x] } else { b[y] };
    let that = if a[y] <= b[x] { a[y] } else { b[x] };
    this <= that
}

/// Every job of the order may run before every later one without loss.
pub open spec fn safely_ordered(order: Seq<int>, a: Seq<int>, b: Seq<int>) -> bool {
    forall|i: int, l: int| 0 <= i < l < order.len() ==> safe_before(a, b, #[trigger] order[i], #[trigger] order[l])
}

/// No job occurs twice in the order.
pub open spec fn distinct(order: Seq<int>) -> bool {
    forall|i: int, l: int| 0 <= i < l < order.len() ==> #[trigger] order[i] != #[trigger] order[l]
}

/// A second machine that is free later is finished later.
proof fn lemma_second_end_monotone(order: Seq<int>, a: Seq<int>, b: Seq<int>, c1: int, c2: int, later: int)
    requires
        c2 <= later,
    ensures
        second_end(order, a, b, c1, c2) <= second_end(order, a, b, c1, later),
    decreases order.len(),
{
    if order.len() > 0 {
        let j = order[0];
        let left = c1 + a[j];
        lemma_second_end_monotone(
            order.drop_first(),
            a,
            b,
            left,
            (if c2 >= left { c2 } else { left }) + b[j],
            (if later >= left { later } else { left }) + b[j],
        );
    }
}

/// Two jobs at the head of an order may change places without loss where
/// the second may run before the first.
proof fn lemma_swap_head(x: int, y: int, tail: Seq<int>, a: Seq<int>, b: Seq<int>, c1: int, c2: int)
    requires
        safe_before(a, b, y, x),
    ensures
        second_end(seq![y, x] + tail, a, b, c1, c2) <= second_end(seq![x, y] + tail, a, b, c1, c2),
{
    let xy = seq![x, y] + tail;
    let yx = seq![y, x] + tail;
    assert(xy.drop_first() =~= seq![y] + tail);
    assert(xy.drop_first().drop_first() =~= tail);
    assert(yx.drop_first() =~= seq![x] + tail);
    assert(yx.drop_first().drop_first() =~= tail);
    assert(xy[0] == x && xy.drop_first()[0] == y);
    assert(yx[0] == y && yx.drop_first()[0] == x);
    let x1 = c1 + a[x];
    let x2 = (if c2 >= x1 { c2 } else { x1 }) + b[x];
    let xy1 = x1 + a[y];
    let xy2 = (if x2 >= xy1 { x2 } else { xy1 }) + b[y];
    let y1 = c1 + a[y];
    let y2 = (if c2 >= y1 { c2 } else { y1 }) + b[y];
    let yx1 = y1 + a[x];
    let yx2 = (if y2 >= yx1 { y2 } else { yx1 }) + b[x];
    assert(second_end(xy, a, b, c1, c2) == second_end(seq![y] + tail, a, b, x1, x2));
    assert((seq![y] + tail).drop_first() =~= tail);
    assert((seq![y] + tail)[0] == y);
    assert(second_end(seq![y] + tail, a, b, x1, x2) == second_end(tail, a, b, xy1, xy2));
    assert(second_end(yx, a, b, c1, c2) == second_end(seq![x] + tail, a, b, y1, y2));
    assert((seq![x] + tail).drop_first() =~= tail);
    assert((seq![x] + tail)[0] == x);
    assert(second_end(seq![x] + tail, a, b, y1, y2) == second_end(tail, a, b, yx1, yx2));
    assert(yx2 <= xy2);
    lemma_second_end_monotone(tail, a, b, xy1, yx2, xy2);
}

/// A job that may run before each of the jobs in front of it may go to the
/// head of the order without loss.
proof fn lemma_move_front(order: Seq<int>, i: int, a: Seq<int>, b: Seq<int>, c1: int, c2: int)
    requires
        0 <= i < order.len(),
        forall|t: int| 0 <= t < i ==> safe_before(a, b, order[i], #[trigger] order[t]),
    ensures
        second_end(seq![order[i]] + order.remove(i), a, b, c1, c2) <= second_end(order, a, b, c1, c2),
    decreases i,
{
    let m = order[i];
    if i == 0 {
        assert(seq![m] + order.remove(0) =~= order);
    } else {
        let head = order[0];
        let rest = order.drop_first();
        let left = c1 + a[head];
        let right = (if c2 >= left { c2 } else { left }) + b[head];
        assert(rest[i - 1] == m);
        assert forall|t: int| 0 <= t < i - 1 implies safe_before(a, b, rest[i - 1], #[trigger] rest[t]) by {
            assert(rest[t] == order[t + 1]);
        }
        lemma_move_front(rest, i - 1, a, b, left, right);
        let tail = rest.remove(i - 1);
        let moved = seq![head, m] + tail;
        assert(moved.drop_first() =~= seq![m] + tail);
        assert(moved[0] == head);
        assert(second_end(moved, a, b, c1, c2) == second_end(seq![m] + tail, a, b, left, right));
        assert(safe_before(a, b, m, order[0]));
        lemma_swap_head(head, m, tail, a, b, c1, c2);
        assert(seq![m, head] + tail =~= seq![m] + order.remove(i));
    }
}

/// An order in which every job may run before every later one is as fast
/// as any order of the same jobs.
proof fn lemma_safe_order_best(best: Seq<int>, other: Seq<int>, a: Seq<int>, b: Seq<int>, c1: int, c2: int)
    requires
        safely_ordered(best, a, b),
        distinct(best),
        distinct(other),
        best.len() == other.len(),
        forall|i: int| 0 <= i < other.len() ==> best.contains(#[trigger] other[i]),
        forall|i: int| 0 <= i < best.len() ==> other.contains(#[trigger] best[i]),
    ensures
        second_end(best, a, b, c1, c2) <= second_end(other, a, b, c1, c2),
    decreases best.len(),
{
    if best.len() > 0 {
        let m = best[0];
        assert(other.contains(best[0]));
        let i = choose|i: int| 0 <= i < other.len() && other[i] == m;
        let rest = best.drop_first();
        let others = other.remove(i);
        assert forall|t: int| 0 <= t < i implies safe_before(a, b, other[i], #[trigger] other[t]) by {
            assert(best.contains(other[t]));
            let l = choose|l: int| 0 <= l < best.len() && best[l] == other[t];
            assert(other[t] != other[i]);
            assert(safe_before(a, b, best[0], best[l]));
        }
        lemma_move_front(other, i, a, b, c1, c2);
        let left = c1 + a[m];
        let right = (if c2 >= left { c2 } else { left }) + b[m];
        assert forall|x: int, l: int| 0 <= x < l < rest.len() implies safe_before(a, b, #[trigger] rest[x], #[trigger] rest[l])
            && rest[x] != rest[l] by {
            assert(rest[x] == best[x + 1] && rest[l] == best[l + 1]);
            assert(safe_before(a, b, best[x + 1], best[l + 1]));
            assert(best[x + 1] != best[l + 1]);
        }
        assert forall|x: int, l: int| 0 <= x < l < others.len() implies #[trigger] others[x] != #[trigger] others[l] by {
            let px = if x < i { x } else { x + 1 };
            let pl = if l < i { l } else { l + 1 };
            assert(others[x] == other[px] && others[l] == other[pl]);
            assert(other[px] != other[pl]);
        }
        assert forall|x: int| 0 <= x < others.len() implies rest.contains(#[trigger] others[x]) by {
            let px = if x < i { x } else { x + 1 };
            assert(others[x] == other[px]);
            assert(best.contains(other[px]));
            let l = choose|l: int| 0 <= l < best.len() && best[l] == other[px];
            if px < i {
                assert(other[px] != other[i]);
            } else {
                assert(other[i] != other[px]);
            }
            assert(rest[l - 1] == best[l]);
        }
        assert forall|x: int| 0 <= x < rest.len() implies others.contains(#[trigger] rest[x]) by {
            assert(rest[x] == best[x + 1]);
            assert(other.contains(best[x + 1]));
            let l = choose|l: int| 0 <= l < other.len() && other[l] == best[x + 1];
            assert(best[0] != best[x + 1]);
            if l < i {
                assert(others[l] == other[l]);
            } else {
                assert(others[l - 1] == other[l]);
            }
        }
        lemma_safe_order_best(rest, others, a, b, left, right);
        let moved = seq![m] + others;
        assert(moved.drop_first() =~= others);
        assert(moved[0] == m);
    } else {
        assert(other.len() == 0);
    }
}

/// Johnson's order lists every job once, and every job in it may run
/// before every later one without loss.
pub proof fn lemma_johnson_order(a: Seq<int>, b: Seq<int>)
    requires
        a.len() == b.len(),
    ensures
        is_permutation(johnson_order(a, b), a.len() as int),
        safely_ordered(johnson_order(a, b), a, b),
{
    let n = a.len() as int;
    let first = first_group(a, b);
    let second = second_group(a, b);
    let front = ascending(a, second);
    let back = ascending(negated(b), first);
    let all = johnson_order(a, b);
    lemma_ascending(a, second);
    lemma_ascending(negated(b), first);
    assert(all =~= front + back);
    assert(all.len() == n) by {
        crate::single_machine::tardy_bound::lemma_split_count(first, second);
    }
    assert forall|k: int| 0 <= k < all.len() implies 0 <= #[trigger] all[k] < n by {
        if k < front.len() {
            assert(pending(second, front[k]));
        } else {
            assert(all[k] == back[k - front.len()]);
            assert(pending(first, back[k - front.len()]));
        }
    }
    assert forall|k: int, l: int| 0 <= k < l < all.len() implies #[trigger] all[k] != #[trigger] all[l] && safe_before(
        a,
        b,
        all[k],
        all[l],
    ) by {
        if l < front.len() {
            assert(key_before(a, front[k], front[l]));
            assert(pending(second, front[k]) && pending(second, front[l]));
        } else if k < front.len() {
            assert(all[l] == back[l - front.len()]);
            assert(pending(second, front[k]));
            assert(pending(first, back[l - front.len()]));
        } else {
            assert(all[k] == back[k - front.len()]);
            assert(all[l] == back[l - front.len()]);
            assert(key_before(negated(b), back[k - front.len()], back[l - front.len()]));
            assert(pending(first, back[k - front.len()]) && pending(first, back[l - front.len()]));
        }
    }
    assert forall|j: int| 0 <= j < n implies #[trigger] occurs(all, j) by {
        if first[j] {
            assert(pending(second, j));
            let k = choose|k: int| 0 <= k < front.len() && #[trigger] front[k] == j;
            assert(all[k] == j);
        } else {
            assert(pending(first, j));
            let k = choose|k: int| 0 <= k < back.len() && #[trigger] back[k] == j;
            assert(all[front.len() + k] == j);
        }
    }
}

/// The times at which the two machines have finished the first `k` jobs
/// of the order, both being free from time zero on.
pub open spec fn both_ends(order: Seq<int>, a: Seq<int>, b: Seq<int>, k: int) -> (int, int)
    decreases k,
{
    if k <= 0 {
        (0, 0)
    } else {
        let before = both_ends(order, a, b, k - 1);
        let j = order[k - 1];
        let left = before.0 + a[j];
        (left, (if before.1 >= left { before.1 } else { left }) + b[j])
    }
}

proof fn lemma_both_ends(order: Seq<int>, a: Seq<int>, b: Seq<int>, k: int)
    requires
        0 <= k <= order.len(),
        forall|i: int| 0 <= i < order.len() ==> 0 <= #[trigger] order[i] < a.len(),
        a.len() == b.len(),
        nonnegative(a),
        nonnegative(b),
    ensures
        0 <= both_ends(order, a, b, k).0 <= both_ends(order, a, b, k).1,
        second_end(order.subrange(k, order.len() as int), a, b, both_ends(order, a, b, k).0, both_ends(order, a, b, k).1)
            == second_end(order, a, b, 0, 0),
    decreases k,
{
    if k > 0 {
        lemma_both_ends(order, a, b, k - 1);
        let j = order[k - 1];
        assert(0 <= j < a.len());
        assert(a[j] >= 0 && b[j] >= 0);
        let longer = order.subrange(k - 1, order.len() as int);
        assert(longer.drop_first() =~= order.subrange(k, order.len() as int));
        assert(longer[0] == j);
    } else {
        assert(order.subrange(0, order.len() as int) =~= order);
    }
}

/// The table of the times of two machines.
pub open spec fn two_rows(a: Seq<int>, b: Seq<int>) -> Seq<Seq<int>> {
    seq![a, b]
}

proof fn lemma_first_machine(order: Seq<int>, a: Seq<int>, b: Seq<int>, k: int)
    requires
        is_permutation(order, a.len() as int),
        a.len() == b.len(),
        nonnegative(a),
        nonnegative(b),
        0 <= k <= order.len(),
    ensures
        flow_state(order, two_rows(a, b), 0, k).0 == both_ends(order, a, b, k).0,
        flow_state(order, two_rows(a, b), 0, k).1.len() == a.len(),
        forall|t: int|
            0 <= t < k ==> flow_state(order, two_rows(a, b), 0, k).1[#[trigger] order[t]] == both_ends(
                order,
                a,
                b,
                t + 1,
            ).0,
        forall|t: int| k <= t < order.len() ==> flow_state(order, two_rows(a, b), 0, k).1[#[trigger] order[t]] == 0,
    decreases k,
{
    let pt = two_rows(a, b);
    assert(pt[0] == a);
    if k > 0 {
        lemma_first_machine(order, a, b, k - 1);
        lemma_both_ends(order, a, b, k - 1);
        let before = flow_state(order, pt, 0, k - 1);
        let j = order[k - 1];
        assert(0 <= j < a.len());
        assert(before.1[order[k - 1]] == 0);
        let now = flow_state(order, pt, 0, k);
        assert forall|t: int| 0 <= t < k implies now.1[#[trigger] order[t]] == both_ends(order, a, b, t + 1).0 by {
            if t < k - 1 {
                assert(order[t] != order[k - 1]);
                assert(before.1[order[t]] == both_ends(order, a, b, t + 1).0);
            }
        }
        assert forall|t: int| k <= t < order.len() implies now.1[#[trigger] order[t]] == 0 by {
            assert(order[k - 1] != order[t]);
            assert(before.1[order[t]] == 0);
        }
    } else {
        assert forall|t: int| 0 <= t < order.len() implies flow_state(order, pt, 0, 0).1[#[trigger] order[t]] == 0 by {
            assert(0 <= order[t] < a.len());
        }
    }
}

proof fn lemma_second_machine(order: Seq<int>, a: Seq<int>, b: Seq<int>, k: int)
    requires
        is_permutation(order, a.len() as int),
        a.len() == b.len(),
        nonnegative(a),
        nonnegative(b),
        0 <= k <= order.len(),
    ensures
        flow_state(order, two_rows(a, b), 1, k).0 == both_ends(order, a, b, k).1,
        flow_state(order, two_rows(a, b), 1, k).1.len() == a.len(),
        forall|t: int|
            k <= t < order.len() ==> flow_state(order, two_rows(a, b), 1, k).1[#[trigger] order[t]] == both_ends(
                order,
                a,
                b,
                t + 1,
            ).0,
    decreases k,
{
    let pt = two_rows(a, b);
    let n = order.len() as int;
    assert(pt[1] == b);
    if k > 0 {
        lemma_second_machine(order, a, b, k - 1);
        lemma_both_ends(order, a, b, k - 1);
        let before = flow_state(order, pt, 1, k - 1);
        let j = order[k - 1];
        assert(0 <= j < a.len());
        assert(before.1[order[k - 1]] == both_ends(order, a, b, k).0);
        let now = flow_state(order, pt, 1, k);
        assert forall|t: int| k <= t < order.len() implies now.1[#[trigger] order[t]] == both_ends(order, a, b, t + 1).0 by {
            assert(order[k - 1] != order[t]);
            assert(before.1[order[t]] == both_ends(order, a, b, t + 1).0);
        }
    } else {
        lemma_first_machine(order, a, b, n);
    }
}

/// The makespan of the two-machine flow shop is the time at which the
/// second machine has finished.
proof fn lemma_flow_makespan(order: Seq<int>, a: Seq<int>, b: Seq<int>)
    requires
        is_permutation(order, a.len() as int),
        a.len() == b.len(),
        nonnegative(a),
        nonnegative(b),
    ensures
        multi_makespan_of(flow_schedule(order, two_rows(a, b))) == second_end(order, a, b, 0, 0),
{
    let pt = two_rows(a, b);
    let n = order.len() as int;
    let shop = flow_schedule(order, pt);
    assert(shop.len() == 2);
    assert(shop.drop_last().len() == 1);
    assert(shop.drop_last()[0] == shop[0]);
    assert(shop.last() == shop[1]);
    assert(shop.drop_last().drop_last().len() == 0);
    assert(multi_makespan_of(shop.drop_last()) == makespan_of(shop[0]));
    lemma_both_ends(order, a, b, n);
    assert(order.subrange(n, n) =~= Seq::<int>::empty());
    if n > 0 {
        lemma_first_machine(order, a, b, n - 1);
        lemma_first_machine(order, a, b, n);
        lemma_second_machine(order, a, b, n - 1);
        lemma_second_machine(order, a, b, n);
        assert(pt[0] == a && pt[1] == b);
        assert(shop[0].last() == flow_run(order, pt, 0, n - 1));
        assert(shop[1].last() == flow_run(order, pt, 1, n - 1));
        assert(shop[0].last().end() == flow_state(order, pt, 0, n).0);
        assert(shop[1].last().end() == flow_state(order, pt, 1, n).0);
    }
}

/// Johnson's order is optimal for two machines: with no negative time, the
/// flow shop that runs the jobs in Johnson's order on both machines has a
/// makespan no greater than with any other order of the jobs.
pub proof fn lemma_johnson_optimal(a: Seq<int>, b: Seq<int>, other: Seq<int>)
    requires
        a.len() == b.len(),
        nonnegative(a),
        nonnegative(b),
        is_permutation(other, a.len() as int),
    ensures
        multi_makespan_of(flow_schedule(johnson_order(a, b), two_rows(a, b))) <= multi_makespan_of(
            flow_schedule(other, two_rows(a, b)),
        ),
{
    let best = johnson_order(a, b);
    lemma_johnson_order(a, b);
    lemma_flow_makespan(best, a, b);
    lemma_flow_makespan(other, a, b);
    assert forall|i: int| 0 <= i < other.len() implies best.contains(#[trigger] other[i]) by {
        assert(occurs(best, other[i]));
        let k = choose|k: int| 0 <= k < best.len() && #[trigger] best[k] == other[i];
        assert(best[k] == other[i]);
    }
    assert forall|i: int| 0 <= i < best.len() implies other.contains(#[trigger] best[i]) by {
        assert(occurs(other, best[i]));
        let k = choose|k: int| 0 <= k < other.len() && #[trigger] other[k] == best[i];
        assert(other[k] == best[i]);
    }
    lemma_safe_order_best(best, other, a, b, 0, 0);
}

/// The table has a time for each of the `n` jobs on every machine, none
/// negative.
pub open spec fn flow_table(pt: Seq<Seq<int>>, n: int) -> bool {
    forall|i: int, j: int| 0 <= i < pt.len() && 0 <= j < n ==> n <= pt[i].len() && 0 <= #[trigger] pt[i][j]
}

/// When machine `i` has run its first `k` jobs, the jobs it has not run
/// yet were last seen leaving the machine before, or nowhere on the first
/// machine; and the machine is free at the end of its last run.
proof fn lemma_flow_state(order: Seq<int>, pt: Seq<Seq<int>>, i: int, k: int)
    requires
        is_permutation(order, pt[0].len() as int),
        flow_table(pt, pt[0].len() as int),
        0 <= i < pt.len(),
        0 <= k <= order.len(),
    ensures
        flow_state(order, pt, i, k).1.len() == pt[0].len(),
        flow_state(order, pt, i, k).0 >= 0,
        k > 0 ==> flow_state(order, pt, i, k).0 == flow_run(order, pt, i, k - 1).end(),
        forall|t: int|
            0 <= t < k ==> flow_state(order, pt, i, k).1[#[trigger] order[t]] == flow_run(order, pt, i, t).end(),
        forall|t: int|
            k <= t < order.len() ==> flow_state(order, pt, i, k).1[#[trigger] order[t]] == (if i == 0 {
                0
            } else {
                flow_run(order, pt, i - 1, t).end()
            }),
        forall|j: int| 0 <= j < pt[0].len() ==> flow_state(order, pt, i, k).1[j] >= 0,
    decreases i, k,
{
    let n = pt[0].len() as int;
    let now = flow_state(order, pt, i, k);
    if k > 0 {
        lemma_flow_state(order, pt, i, k - 1);
        let before = flow_state(order, pt, i, k - 1);
        let j = order[k - 1];
        assert(0 <= j < n);
        assert(0 <= pt[i][j]);
        assert(before.1[j] >= 0);
        assert forall|t: int| 0 <= t < k implies now.1[#[trigger] order[t]] == flow_run(order, pt, i, t).end() by {
            if t < k - 1 {
                assert(order[t] != order[k - 1]);
                assert(before.1[order[t]] == flow_run(order, pt, i, t).end());
            }
        }
        assert forall|t: int| k <= t < order.len() implies now.1[#[trigger] order[t]] == (if i == 0 {
            0
        } else {
            flow_run(order, pt, i - 1, t).end()
        }) by {
            assert(order[k - 1] != order[t]);
            assert(before.1[order[t]] == (if i == 0 { 0 } else { flow_run(order, pt, i - 1, t).end() }));
        }
        assert forall|x: int| 0 <= x < n implies now.1[x] >= 0 by {
            assert(before.1[x] >= 0);
        }
    } else if i > 0 {
        lemma_flow_state(order, pt, i - 1, order.len() as int);
    } else {
        assert forall|t: int| 0 <= t < order.len() implies now.1[#[trigger] order[t]] == 0 by {
            assert(0 <= order[t] < n);
        }
    }
}

/// The flow-shop schedule of an order that lists every job once is valid:
/// every machine runs one job at a time, each for the time the machine
/// takes for it, and no job starts on a machine before it has left the
/// machine before.
pub proof fn lemma_flow_schedule_valid(order: Seq<int>, pt: Seq<Seq<int>>)
    requires
        pt.len() > 0,
        is_permutation(order, pt[0].len() as int),
        flow_table(pt, pt[0].len() as int),
    ensures
        flow_schedule(order, pt).len() == pt.len(),
        forall|i: int| 0 <= i < pt.len() ==> well_ordered(#[trigger] flow_schedule(order, pt)[i]),
        forall|i: int, k: int|
            0 <= i < pt.len() && 0 <= k < order.len() ==> {
                let r = #[trigger] flow_run(order, pt, i, k);
                &&& flow_schedule(order, pt)[i][k] == r
                &&& r.job == order[k]
                &&& r.duration == pt[i][order[k]]
                &&& r.start >= 0
                &&& i > 0 ==> r.start >= flow_run(order, pt, i - 1, k).end()
            },
{
    let n = pt[0].len() as int;
    let shop = flow_schedule(order, pt);
    assert forall|i: int, k: int| 0 <= i < pt.len() && 0 <= k < order.len() implies {
        let r = #[trigger] flow_run(order, pt, i, k);
        &&& shop[i][k] == r
        &&& r.job == order[k]
        &&& r.duration == pt[i][order[k]]
        &&& r.duration >= 0
        &&& r.start >= 0
        &&& i > 0 ==> r.start >= flow_run(order, pt, i - 1, k).end()
        &&& k > 0 ==> r.start >= flow_run(order, pt, i, k - 1).end()
    } by {
        lemma_flow_state(order, pt, i, k);
        assert(0 <= order[k] < n);
        assert(0 <= pt[i][order[k]]);
        if k > 0 {
            lemma_flow_state(order, pt, i, k - 1);
        }
    }
    assert forall|i: int| 0 <= i < pt.len() implies well_ordered(#[trigger] shop[i]) by {
        let runs = shop[i];
        assert forall|k: int| 0 <= k < runs.len() implies (#[trigger] runs[k]).duration >= 0 by {
            assert(runs[k] == flow_run(order, pt, i, k));
            lemma_flow_state(order, pt, i, k);
            assert(0 <= order[k] < n);
            assert(0 <= pt[i][order[k]]);
        }
        assert forall|k: int| 0 <= k < runs.len() - 1 implies #[trigger] runs[k].end() <= runs[k + 1].start by {
            assert(runs[k] == flow_run(order, pt, i, k));
            assert(runs[k + 1] == flow_run(order, pt, i, k + 1));
            lemma_flow_state(order, pt, i, k + 1);
        }
    }
}

} // verus!
