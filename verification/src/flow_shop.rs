//! Flow shops: every job visits the machines in the same order, and every
//! machine runs the jobs in the same order.

use vstd::prelude::*;

use crate::flow_shop_bound::{lemma_johnson_optimal, lemma_johnson_order, two_rows};
use crate::schedule::{flow_schedule, ids, int_rows, ints, multi_makespan_of, nonnegative};
use crate::single_machine::schrage_model::is_permutation;
use crate::selection::{ascending, negated, sorted_jobs};
use crate::{Job, Time};

verus! {

/// `<[T]>::swap` of the standard library: exchanges the items at the two
/// positions, which must both exist, and leaves the others where they are.
#[verifier::external_body]
fn swap_items<T>(items: &mut Vec<T>, i: usize, j: usize)
    requires
        i < old(items)@.len(),
        j < old(items)@.len(),
    ensures
        final(items)@ == old(items)@.update(i as int, old(items)@[j as int]).update(j as int, old(items)@[i as int]),
{
    items.swap(i, j);
}

/// Exchanging two items of a sequence does not change what it holds.
pub proof fn lemma_swap_multiset<T>(s: Seq<T>, i: int, j: int)
    requires
        0 <= i < s.len(),
        0 <= j < s.len(),
    ensures
        s.update(i, s[j]).update(j, s[i]).to_multiset() == s.to_multiset(),
{
    let mid = s.update(i, s[j]);
    let end = mid.update(j, s[i]);
    assert(mid =~= s.remove(i).insert(i, s[j]));
    assert(end =~= mid.remove(j).insert(j, s[i]));
    vstd::seq_lib::to_multiset_remove(s, i);
    vstd::seq_lib::to_multiset_insert(s.remove(i), i, s[j]);
    vstd::seq_lib::to_multiset_remove(mid, j);
    vstd::seq_lib::to_multiset_insert(mid.remove(j), j, s[i]);
    s.to_multiset_ensures();
    assert(s.contains(s[i]) && s.contains(s[j]));
    assert(end.to_multiset() =~= s.to_multiset());
}

/// Reorders the items so that those for which the predicate holds come
/// before all others, and returns how many there are of them.
pub fn partition_in_place<T, F>(container: &mut Vec<T>, predicate: F) -> (count: usize) where F: Fn(&T) -> bool
    requires
        forall|i: int| 0 <= i < old(container)@.len() ==> call_requires(predicate, (&#[trigger] old(container)@[i],)),
    ensures
        final(container)@.to_multiset() == old(container)@.to_multiset(),
        final(container)@.len() == old(container)@.len(),
        count <= final(container)@.len(),
        forall|i: int| 0 <= i < count ==> call_ensures(predicate, (&#[trigger] final(container)@[i],), true),
        forall|i: int|
            count <= i < final(container)@.len() ==> call_ensures(predicate, (&#[trigger] final(container)@[i],), false),
{
    let ghost start = container@;
    let mut i1: usize = 0;
    let mut i2: usize = container.len();
    loop
        invariant
            container@.len() == start.len(),
            container@.to_multiset() == start.to_multiset(),
            0 <= i1 <= i2 <= container@.len(),
            forall|i: int| 0 <= i < container@.len() ==> call_requires(predicate, (&#[trigger] container@[i],)),
            forall|i: int| 0 <= i < i1 ==> call_ensures(predicate, (&#[trigger] container@[i],), true),
            forall|i: int| i2 <= i < container@.len() ==> call_ensures(predicate, (&#[trigger] container@[i],), false),
        ensures
            container@.len() == start.len(),
            container@.to_multiset() == start.to_multiset(),
            i1 == i2,
            i1 <= container@.len(),
            forall|i: int| 0 <= i < i1 ==> call_ensures(predicate, (&#[trigger] container@[i],), true),
            forall|i: int| i2 <= i < container@.len() ==> call_ensures(predicate, (&#[trigger] container@[i],), false),
        decreases i2 - i1,
    {
        let ghost low = i1;
        while i1 < i2 && predicate(&container[i1])
            invariant
                low <= i1 <= i2 <= container@.len(),
                forall|i: int| 0 <= i < container@.len() ==> call_requires(predicate, (&#[trigger] container@[i],)),
                forall|i: int| 0 <= i < i1 ==> call_ensures(predicate, (&#[trigger] container@[i],), true),
            ensures
                i1 < i2 ==> call_ensures(predicate, (&container@[i1 as int],), false),
            decreases i2 - i1,
        {
            i1 = i1 + 1;
        }
        let ghost stop = i2;
        while i1 < i2 && !predicate(&container[i2 - 1])
            invariant
                0 <= i1 <= i2 <= container@.len(),
                i2 <= stop,
                forall|i: int| 0 <= i < container@.len() ==> call_requires(predicate, (&#[trigger] container@[i],)),
                forall|i: int| i2 <= i < container@.len() ==> call_ensures(predicate, (&#[trigger] container@[i],), false),
            ensures
                i1 < i2 ==> call_ensures(predicate, (&container@[i2 - 1],), true),
            decreases i2 - i1,
        {
            i2 = i2 - 1;
        }
        if i1 >= i2 {
            break;
        }
        if i1 + 1 < i2 {
            let ghost before = container@;
            proof {
                lemma_swap_multiset(before, i1 as int, i2 - 1);
            }
            swap_items(container, i1, i2 - 1);
            i1 = i1 + 1;
            i2 = i2 - 1;
            assert forall|i: int| 0 <= i < container@.len() implies call_requires(
                predicate,
                (&#[trigger] container@[i],),
            ) by {
                if i == i1 - 1 {
                    assert(container@[i] == before[i2 as int]);
                } else if i == i2 {
                    assert(container@[i] == before[i1 - 1]);
                } else {
                    assert(container@[i] == before[i]);
                }
            }
            assert forall|i: int| 0 <= i < i1 implies call_ensures(predicate, (&#[trigger] container@[i],), true) by {
                if i == i1 - 1 {
                    assert(container@[i] == before[i2 as int]);
                } else {
                    assert(container@[i] == before[i]);
                }
            }
            assert forall|i: int| i2 <= i < container@.len() implies call_ensures(
                predicate,
                (&#[trigger] container@[i],),
                false,
            ) by {
                if i == i2 {
                    assert(container@[i] == before[i1 - 1]);
                } else {
                    assert(container@[i] == before[i]);
                }
            }
        } else {
            i2 = i1;
            break;
        }
    }
    i1
}

/// The jobs that Johnson's rule runs first: those that take no longer on
/// the first machine than on the second.
pub open spec fn first_group(on_first: Seq<int>, on_second: Seq<int>) -> Seq<bool> {
    Seq::new(on_first.len(), |j: int| on_first[j] <= on_second[j])
}

/// The other jobs.
pub open spec fn second_group(on_first: Seq<int>, on_second: Seq<int>) -> Seq<bool> {
    Seq::new(on_first.len(), |j: int| on_first[j] > on_second[j])
}

/// The order of Johnson's rule for two machines: first the jobs that take
/// no longer on the first machine than on the second, by ascending time on
/// the first machine; then the others, by descending time on the second
/// machine. Jobs that tie come in the order of their indices.
pub open spec fn johnson_order(on_first: Seq<int>, on_second: Seq<int>) -> Seq<int> {
    ascending(on_first, second_group(on_first, on_second)) + ascending(
        negated(on_second),
        first_group(on_first, on_second),
    )
}

/// Johnson's algorithm for the two-machine flow shop, which minimises the
/// makespan: the order in which both machines should run the jobs.
/// `ptimes[i][j]` is the time that machine `i` takes for job `j`. The
/// result lists every job once; where no time is negative, no order of the
/// jobs gives the flow shop a smaller makespan.
pub fn johnson(ptimes: &[Vec<Time>]) -> (result: Vec<Job>)
    requires
        ptimes@.len() == 2,
        ptimes@[0]@.len() == ptimes@[1]@.len(),
    ensures
        ids(result@) == johnson_order(ints(ptimes@[0]@), ints(ptimes@[1]@)),
        is_permutation(ids(result@), ptimes@[0]@.len() as int),
        forall|other: Seq<int>|
            nonnegative(ints(ptimes@[0]@)) && nonnegative(ints(ptimes@[1]@)) && #[trigger] is_permutation(
                other,
                ptimes@[0]@.len() as int,
            ) ==> multi_makespan_of(flow_schedule(ids(result@), two_rows(ints(ptimes@[0]@), ints(ptimes@[1]@))))
                <= multi_makespan_of(flow_schedule(other, two_rows(ints(ptimes@[0]@), ints(ptimes@[1]@)))),
{
    let ghost on_first = ints(ptimes@[0]@);
    let ghost on_second = ints(ptimes@[1]@);
    proof {
        lemma_johnson_order(on_first, on_second);
        assert forall|other: Seq<int>|
            nonnegative(on_first) && nonnegative(on_second) && #[trigger] is_permutation(
                other,
                on_first.len() as int,
            ) implies multi_makespan_of(
            flow_schedule(johnson_order(on_first, on_second), two_rows(on_first, on_second)),
        ) <= multi_makespan_of(
            flow_schedule(other, two_rows(on_first, on_second)),
        ) by {
            lemma_johnson_optimal(on_first, on_second, other);
        }
    }
    let n = ptimes[0].len();
    let mut jobs: Vec<Job> = Vec::new();
    let mut j: usize = 0;
    while j < n
        invariant
            0 <= j <= n,
            jobs@.len() == j,
            forall|i: int| 0 <= i < j ==> #[trigger] jobs@[i] == i,
        decreases n - j,
    {
        jobs.push(j);
        j = j + 1;
    }
    let ghost all = jobs@;
    let faster_first = |job: &Job| -> (b: bool)
        requires
            *job < ptimes@[0]@.len(),
            ptimes@.len() == 2,
            ptimes@[0]@.len() == ptimes@[1]@.len(),
        ensures
            b == (ptimes@[0]@[*job as int] <= ptimes@[1]@[*job as int]),
        { ptimes[0][*job] <= ptimes[1][*job] };
    let num1 = partition_in_place(&mut jobs, faster_first);
    // the jobs before `num1` are the first group, the others the second
    let mut second: Vec<bool> = Vec::new();
    let mut first: Vec<bool> = Vec::new();
    let mut k: usize = 0;
    while k < n
        invariant
            0 <= k <= n,
            second@.len() == k,
            first@.len() == k,
            forall|i: int| 0 <= i < k ==> #[trigger] second@[i],
            forall|i: int| 0 <= i < k ==> !#[trigger] first@[i],
        decreases n - k,
    {
        second.push(true);
        first.push(false);
        k = k + 1;
    }
    proof {
        all.to_multiset_ensures();
        jobs@.to_multiset_ensures();
        assert forall|i: int| 0 <= i < jobs@.len() implies 0 <= #[trigger] jobs@[i] < n by {
            assert(jobs@.contains(jobs@[i]));
            assert(jobs@.to_multiset().count(jobs@[i]) > 0);
            assert(all.contains(jobs@[i]));
            let w = choose|w: int| 0 <= w < all.len() && all[w] == jobs@[i];
            assert(all[w] == w);
        }
    }
    let mut i: usize = 0;
    while i < num1
        invariant
            0 <= i <= num1 <= jobs@.len(),
            jobs@.len() == n,
            second@.len() == n,
            first@.len() == n,
            forall|a: int| 0 <= a < n ==> 0 <= #[trigger] jobs@[a] < n,
            forall|x: int|
                0 <= x < n ==> (#[trigger] first@[x] <==> exists|a: int| 0 <= a < i && #[trigger] jobs@[a] == x),
            forall|x: int| 0 <= x < n ==> #[trigger] second@[x] == !first@[x],
        decreases num1 - i,
    {
        let job = jobs[i];
        let ghost before = first@;
        first.set(job, true);
        second.set(job, false);
        assert forall|x: int| 0 <= x < n implies (#[trigger] first@[x] <==> exists|a: int|
            0 <= a < i + 1 && #[trigger] jobs@[a] == x) by {
            if x == job {
                assert(jobs@[i as int] == x);
            } else {
                if before[x] {
                    let a = choose|a: int| 0 <= a < i && #[trigger] jobs@[a] == x;
                    assert(0 <= a < i + 1 && jobs@[a] == x);
                }
                if exists|a: int| 0 <= a < i + 1 && #[trigger] jobs@[a] == x {
                    let a = choose|a: int| 0 <= a < i + 1 && #[trigger] jobs@[a] == x;
                    assert(0 <= a < i && jobs@[a] == x);
                }
            }
        }
        i = i + 1;
    }
    proof {
        assert forall|x: int| 0 <= x < n implies first@[x] == (on_first[x] <= on_second[x]) by {
            assert(all[x] == x);
            assert(all.contains(x as usize));
            assert(all.to_multiset().count(x as usize) > 0);
            assert(jobs@.contains(x as usize));
            let a = choose|a: int| 0 <= a < jobs@.len() && jobs@[a] == x as usize;
            if a < num1 {
                assert(call_ensures(faster_first, (&jobs@[a],), true));
            } else {
                assert(call_ensures(faster_first, (&jobs@[a],), false));
                if first@[x] {
                    let b = choose|b: int| 0 <= b < num1 && #[trigger] jobs@[b] == x;
                    assert(call_ensures(faster_first, (&jobs@[b],), true));
                }
            }
        }
        assert(first@ =~= first_group(on_first, on_second));
        assert(second@ =~= second_group(on_first, on_second));
    }
    let mut result = sorted_jobs(ptimes[0].as_slice(), &second, false);
    let mut back = sorted_jobs(ptimes[1].as_slice(), &first, true);
    let ghost front = ids(result@);
    let ghost rest = ids(back@);
    result.append(&mut back);
    assert(ids(result@) =~= front + rest);
    result
}

/// The weight of job `j` over the first `k` machines that favours the
/// early machines: machine `i` of `m` counts `m - i` times.
pub open spec fn weight_front(pt: Seq<Seq<int>>, j: int, k: int) -> int
    decreases k,
{
    if k <= 0 {
        0
    } else {
        weight_front(pt, j, k - 1) + (pt.len() - (k - 1)) * pt[k - 1][j]
    }
}

/// The weight of job `j` over the first `k` machines that favours the late
/// machines: machine `i` counts `i + 1` times.
pub open spec fn weight_back(pt: Seq<Seq<int>>, j: int, k: int) -> int
    decreases k,
{
    if k <= 0 {
        0
    } else {
        weight_back(pt, j, k - 1) + k * pt[k - 1][j]
    }
}

/// The times of the two artificial machines of Dannenbring's heuristic.
pub open spec fn front_weights(pt: Seq<Seq<int>>) -> Seq<int> {
    Seq::new(pt[0].len(), |j: int| weight_front(pt, j, pt.len() as int))
}

pub open spec fn back_weights(pt: Seq<Seq<int>>) -> Seq<int> {
    Seq::new(pt[0].len(), |j: int| weight_back(pt, j, pt.len() as int))
}

/// The value is within the range of the time type.
pub open spec fn fits(x: int) -> bool {
    isize::MIN <= x <= isize::MAX
}

/// Dannenbring's heuristic for the flow shop with any number of machines
/// under the makespan objective: Johnson's rule on two artificial machines,
/// whose times for a job are the job's times weighted towards the early and
/// towards the late machines. Without machines the order is empty.
/// `ptimes[i][j]` is the time that machine `i` takes for job `j`.
pub fn dannenbring(ptimes: &[Vec<Time>]) -> (result: Vec<Job>)
    requires
        ptimes@.len() <= isize::MAX,
        forall|i: int| 0 <= i < ptimes@.len() ==> (#[trigger] int_rows(ptimes@)[i]).len() == int_rows(ptimes@)[0].len(),
        forall|i: int, j: int|
            0 <= i < ptimes@.len() && 0 <= j < int_rows(ptimes@)[0].len() ==> fits(
                (ptimes@.len() - i) * #[trigger] int_rows(ptimes@)[i][j],
            ) && fits((i + 1) * int_rows(ptimes@)[i][j]),
        forall|j: int, k: int|
            0 <= j < int_rows(ptimes@)[0].len() && 0 <= k <= ptimes@.len() ==> fits(
                #[trigger] weight_front(int_rows(ptimes@), j, k),
            ),
        forall|j: int, k: int|
            0 <= j < int_rows(ptimes@)[0].len() && 0 <= k <= ptimes@.len() ==> fits(
                #[trigger] weight_back(int_rows(ptimes@), j, k),
            ),
    ensures
        ptimes@.len() == 0 ==> result@.len() == 0,
        ptimes@.len() > 0 ==> ids(result@) == johnson_order(
            front_weights(int_rows(ptimes@)),
            back_weights(int_rows(ptimes@)),
        ),
{
    let ghost pt = int_rows(ptimes@);
    let m = ptimes.len();
    if m == 0 {
        return Vec::new();
    }
    let n = ptimes[0].len();
    assert(pt[0].len() == n);
    let mut weights1: Vec<Time> = Vec::new();
    let mut weights2: Vec<Time> = Vec::new();
    let mut j: usize = 0;
    while j < n
        invariant
            pt == int_rows(ptimes@),
            m == ptimes@.len(),
            0 < m <= isize::MAX,
            n == pt[0].len(),
            0 <= j <= n,
            forall|i: int| 0 <= i < m ==> (#[trigger] pt[i]).len() == n,
            forall|i: int, a: int|
                0 <= i < m && 0 <= a < n ==> fits((m - i) * #[trigger] pt[i][a]) && fits((i + 1) * pt[i][a]),
            forall|a: int, k: int| 0 <= a < n && 0 <= k <= m ==> fits(#[trigger] weight_front(pt, a, k)),
            forall|a: int, k: int| 0 <= a < n && 0 <= k <= m ==> fits(#[trigger] weight_back(pt, a, k)),
            weights1@.len() == j,
            weights2@.len() == j,
            forall|a: int| 0 <= a < j ==> #[trigger] weights1@[a] == weight_front(pt, a, m as int),
            forall|a: int| 0 <= a < j ==> #[trigger] weights2@[a] == weight_back(pt, a, m as int),
        decreases n - j,
    {
        let mut w1: Time = 0;
        let mut w2: Time = 0;
        let mut down: Time = m as Time;
        let mut up: Time = 1;
        let mut i: usize = 0;
        while i < m
            invariant
                pt == int_rows(ptimes@),
                m == ptimes@.len(),
                0 < m <= isize::MAX,
                n == pt[0].len(),
                0 <= j < n,
                0 <= i <= m,
                forall|b: int| 0 <= b < m ==> (#[trigger] pt[b]).len() == n,
                forall|b: int, a: int|
                    0 <= b < m && 0 <= a < n ==> fits((m - b) * #[trigger] pt[b][a]) && fits((b + 1) * pt[b][a]),
                forall|a: int, k: int| 0 <= a < n && 0 <= k <= m ==> fits(#[trigger] weight_front(pt, a, k)),
                forall|a: int, k: int| 0 <= a < n && 0 <= k <= m ==> fits(#[trigger] weight_back(pt, a, k)),
                down == m - i,
                up == i + 1 || i == m,
                w1 == weight_front(pt, j as int, i as int),
                w2 == weight_back(pt, j as int, i as int),
            decreases m - i,
        {
            proof {
                assert(pt[i as int].len() == n);
                assert(pt[i as int][j as int] == ptimes@[i as int]@[j as int]);
                assert(fits((m - i) * pt[i as int][j as int]) && fits((i + 1) * pt[i as int][j as int]));
                assert(fits(weight_front(pt, j as int, i + 1)));
                assert(fits(weight_back(pt, j as int, i + 1)));
            }
            let time = ptimes[i][j];
            w1 = w1 + down * time;
            w2 = w2 + up * time;
            down = down - 1;
            if i + 1 < m {
                up = up + 1;
            }
            i = i + 1;
        }
        weights1.push(w1);
        weights2.push(w2);
        j = j + 1;
    }
    assert(ints(weights1@) =~= front_weights(pt));
    assert(ints(weights2@) =~= back_weights(pt));
    let mut rows: Vec<Vec<Time>> = Vec::new();
    rows.push(weights1);
    rows.push(weights2);
    johnson(rows.as_slice())
}

} // verus!
