//! Jobs in the order of a key: the building block of the sorting steps of
//! the scheduling rules.

use vstd::prelude::*;

use crate::schedule::{ids, ints};
use crate::single_machine::schrage_model::{lemma_remaining_bounds, lemma_remaining_update, pending, remaining};
use crate::{Job, Time};

verus! {

/// Job `j` comes before job `k` in the order of `key`: it has the smaller
/// key, or the same key and the smaller index.
pub open spec fn key_before(key: Seq<int>, j: int, k: int) -> bool {
    key[j] < key[k] || (key[j] == key[k] && j < k)
}

/// The keys with their signs changed, for the descending order.
pub open spec fn negated(key: Seq<int>) -> Seq<int> {
    Seq::new(key.len(), |j: int| -key[j])
}

/// The keys as they are, or with their signs changed.
pub open spec fn signed(key: Seq<int>, descending: bool) -> Seq<int> {
    if descending { negated(key) } else { key }
}

/// Among the jobs with an index below `k` that are not marked, the first in
/// the order of `key`.
pub open spec fn least(key: Seq<int>, done: Seq<bool>, k: int) -> Option<int>
    decreases k,
{
    if k <= 0 {
        None
    } else {
        let rest = least(key, done, k - 1);
        if pending(done, k - 1) && (rest is None || key[k - 1] < key[rest->0]) {
            Some(k - 1)
        } else {
            rest
        }
    }
}

/// The jobs that are not marked, in the order of `key`.
pub open spec fn ascending(key: Seq<int>, done: Seq<bool>) -> Seq<int>
    decreases remaining(done),
    via ascending_decreases
{
    let first = least(key, done, done.len() as int);
    if first is Some {
        seq![first->0] + ascending(key, done.update(first->0, true))
    } else {
        Seq::empty()
    }
}

#[via_fn]
proof fn ascending_decreases(key: Seq<int>, done: Seq<bool>) {
    let first = least(key, done, done.len() as int);
    if first is Some {
        lemma_least(key, done, done.len() as int);
        lemma_remaining_update(done, first->0);
    }
}

/// What `least` returns: nothing exactly when every job below `k` is
/// marked, else an unmarked job that comes before every other unmarked job
/// below `k`.
pub proof fn lemma_least(key: Seq<int>, done: Seq<bool>, k: int)
    requires
        0 <= k <= done.len(),
    ensures
        least(key, done, k) is None ==> forall|j: int| 0 <= j < k ==> !pending(done, j),
        least(key, done, k) is Some ==> {
            let c = least(key, done, k)->0;
            &&& 0 <= c < k
            &&& pending(done, c)
            &&& forall|j: int| 0 <= j < k && pending(done, j) && j != c ==> key_before(key, c, j)
        },
    decreases k,
{
    if k > 0 {
        lemma_least(key, done, k - 1);
    }
}

/// What `ascending` returns: each unmarked job exactly once, in the strict
/// order of `key`.
pub proof fn lemma_ascending(key: Seq<int>, done: Seq<bool>)
    ensures
        ascending(key, done).len() == remaining(done),
        forall|k: int| 0 <= k < ascending(key, done).len() ==> pending(done, #[trigger] ascending(key, done)[k]),
        forall|j: int|
            pending(done, j) ==> exists|k: int|
                0 <= k < ascending(key, done).len() && #[trigger] ascending(key, done)[k] == j,
        forall|k: int, l: int|
            0 <= k < l < ascending(key, done).len() ==> key_before(
                key,
                #[trigger] ascending(key, done)[k],
                #[trigger] ascending(key, done)[l],
            ),
    decreases remaining(done),
{
    let n = done.len() as int;
    let s = ascending(key, done);
    let first = least(key, done, n);
    lemma_least(key, done, n);
    lemma_remaining_bounds(done);
    if first is Some {
        let j = first->0;
        let after = done.update(j, true);
        let rest = ascending(key, after);
        lemma_remaining_update(done, j);
        lemma_ascending(key, after);
        assert(s =~= seq![j] + rest);
        assert(s[0] == j);
        assert forall|k: int| 0 <= k < s.len() implies pending(done, #[trigger] s[k]) by {
            if k > 0 {
                assert(s[k] == rest[k - 1]);
                assert(pending(after, rest[k - 1]));
            }
        }
        assert forall|i: int| pending(done, i) implies exists|k: int| 0 <= k < s.len() && #[trigger] s[k] == i by {
            if i == j {
                assert(s[0] == i);
            } else {
                assert(pending(after, i));
                let w = choose|k: int| 0 <= k < rest.len() && #[trigger] rest[k] == i;
                assert(s[w + 1] == i);
            }
        }
        assert forall|k: int, l: int| 0 <= k < l < s.len() implies key_before(key, #[trigger] s[k], #[trigger] s[l]) by {
            assert(s[l] == rest[l - 1]);
            assert(pending(after, rest[l - 1]));
            if k > 0 {
                assert(s[k] == rest[k - 1]);
            }
        }
    } else {
        assert(s =~= Seq::<int>::empty());
        if remaining(done) > 0 {
            let u = choose|i: int| 0 <= i < done.len() && !done[i];
            assert(pending(done, u));
        }
        assert forall|i: int| pending(done, i) implies exists|k: int| 0 <= k < s.len() && #[trigger] s[k] == i by {
            assert(!pending(done, i));
        }
    }
}

/// The first unmarked job in the ascending or descending order of the keys.
fn least_pending(keys: &[Time], done: &Vec<bool>, descending: bool) -> (result: Option<Job>)
    requires
        keys@.len() == done@.len(),
    ensures
        result is Some <==> least(signed(ints(keys@), descending), done@, done@.len() as int) is Some,
        result is Some ==> result->0 == least(signed(ints(keys@), descending), done@, done@.len() as int)->0,
{
    let n = done.len();
    let ghost key = signed(ints(keys@), descending);
    let mut choice: Option<Job> = None;
    let mut k: usize = 0;
    while k < n
        invariant
            n == done@.len(),
            keys@.len() == n,
            key == signed(ints(keys@), descending),
            0 <= k <= n,
            choice is Some <==> least(key, done@, k as int) is Some,
            choice is Some ==> choice->0 == least(key, done@, k as int)->0,
            choice is Some ==> choice->0 < k,
        decreases n - k,
    {
        if !done[k] {
            match choice {
                Some(c) => {
                    let better = if descending { keys[k] > keys[c] } else { keys[k] < keys[c] };
                    assert(better == (key[k as int] < key[c as int]));
                    if better {
                        choice = Some(k);
                    }
                },
                None => {
                    choice = Some(k);
                },
            }
        }
        k = k + 1;
    }
    choice
}

/// The unmarked jobs in the ascending order of their keys (or the
/// descending one), those with equal keys in the order of their indices.
pub fn sorted_jobs(keys: &[Time], marked: &Vec<bool>, descending: bool) -> (result: Vec<Job>)
    requires
        keys@.len() == marked@.len(),
    ensures
        ids(result@) == ascending(signed(ints(keys@), descending), marked@),
{
    let ghost key = signed(ints(keys@), descending);
    let n = marked.len();
    let mut done: Vec<bool> = Vec::new();
    let mut i: usize = 0;
    while i < n
        invariant
            n == marked@.len(),
            0 <= i <= n,
            done@ == marked@.take(i as int),
        decreases n - i,
    {
        done.push(marked[i]);
        assert(marked@.take(i as int).push(marked@[i as int]) =~= marked@.take(i + 1));
        i = i + 1;
    }
    assert(marked@.take(n as int) =~= marked@);
    let mut result: Vec<Job> = Vec::new();
    assert(ids(result@) + ascending(key, done@) =~= ascending(key, marked@));
    loop
        invariant
            n == done@.len(),
            keys@.len() == n,
            key == signed(ints(keys@), descending),
            ids(result@) + ascending(key, done@) == ascending(key, marked@),
        ensures
            least(key, done@, n as int) is None,
            ids(result@) + ascending(key, done@) == ascending(key, marked@),
        decreases remaining(done@),
    {
        proof {
            lemma_least(key, done@, n as int);
        }
        match least_pending(keys, &done, descending) {
            Some(job) => {
                proof {
                    lemma_remaining_update(done@, job as int);
                    let before = ids(result@);
                    assert(ids(result@.push(job)) =~= before.push(job as int));
                    assert(before.push(job as int) + ascending(key, done@.update(job as int, true)) =~= before + (
                    seq![job as int] + ascending(key, done@.update(job as int, true))));
                }
                result.push(job);
                done.set(job, true);
            },
            None => {
                break;
            },
        }
    }
    proof {
        assert(ascending(key, done@) =~= Seq::<int>::empty());
        assert(ids(result@) + Seq::<int>::empty() =~= ids(result@));
    }
    result
}

} // verus!
