use crate::batcher::slots_ok;
use crate::comparator::{apply_step, exchange, run, Step};
use vstd::prelude::*;
use vstd::seq_lib::to_multiset_update;

verus! {

/// Number of slots of the list `p` whose item in `s` is at most `x`.
pub open spec fn cnt(s: Seq<u64>, p: Seq<usize>, x: u64) -> nat
    decreases p.len(),
{
    if p.len() == 0 {
        0
    } else {
        cnt(s, p.drop_last(), x) + if s[p.last() as int] <= x {
            1nat
        } else {
            0nat
        }
    }
}

/// Seen through the threshold `x`, the first `m` slots of `p` hold the `m`
/// smallest items of `p` in ascending order: slot `t` holds an item that is
/// at most `x` exactly if fewer than `t + 1` items of `p` are above `x`
/// among the smaller ones, that is, exactly if `t` is below the number of
/// items that are at most `x`.
pub open spec fn ranked(s: Seq<u64>, p: Seq<usize>, m: int, x: u64) -> bool {
    forall|t: int| 0 <= t < m ==> (s[(#[trigger] p[t]) as int] <= x <==> t < cnt(s, p, x))
}

/// Both slots of the step are slots of the list `p`.
pub open spec fn step_within(st: Step, p: Seq<usize>) -> bool {
    match st {
        Step::Compare(i, j) => p.contains(i) && p.contains(j),
        Step::Swap(i, j) => p.contains(i) && p.contains(j),
    }
}

/// Every step of the schedule works on slots of the list `p`.
pub open spec fn within(steps: Seq<Step>, p: Seq<usize>) -> bool {
    forall|t: int| 0 <= t < steps.len() ==> step_within(#[trigger] steps[t], p)
}

pub proof fn lemma_cnt_bound(s: Seq<u64>, p: Seq<usize>, x: u64)
    ensures
        cnt(s, p, x) <= p.len(),
    decreases p.len(),
{
    if p.len() > 0 {
        lemma_cnt_bound(s, p.drop_last(), x);
    }
}

/// A list whose items are at most `x` exactly on its first `c` slots counts `c`.
pub proof fn lemma_cnt_threshold(s: Seq<u64>, p: Seq<usize>, x: u64, c: int)
    requires
        0 <= c <= p.len(),
        forall|t: int| 0 <= t < p.len() ==> (s[(#[trigger] p[t]) as int] <= x <==> t < c),
    ensures
        cnt(s, p, x) == c,
    decreases p.len(),
{
    if p.len() > 0 {
        let q = p.drop_last();
        let c2 = if c < p.len() { c } else { p.len() - 1 };
        assert forall|t: int| 0 <= t < q.len() implies (s[(#[trigger] q[t]) as int] <= x <==> t
            < c2) by {
            assert(q[t] == p[t]);
        }
        lemma_cnt_threshold(s, q, x, c2);
        assert(p.last() == p[p.len() - 1]);
    }
}

pub proof fn lemma_cnt_concat(s: Seq<u64>, a: Seq<usize>, b: Seq<usize>, x: u64)
    ensures
        cnt(s, a + b, x) == cnt(s, a, x) + cnt(s, b, x),
    decreases b.len(),
{
    if b.len() == 0 {
        assert(a + b =~= a);
    } else {
        assert((a + b).drop_last() =~= a + b.drop_last());
        assert((a + b).last() == b.last());
        lemma_cnt_concat(s, a, b.drop_last(), x);
    }
}

/// Two buffers that agree on the slots of a list count the same on it.
pub proof fn lemma_cnt_agree(s: Seq<u64>, s2: Seq<u64>, p: Seq<usize>, x: u64)
    requires
        forall|t: int| 0 <= t < p.len() ==> s2[(#[trigger] p[t]) as int] == s[p[t] as int],
    ensures
        cnt(s2, p, x) == cnt(s, p, x),
    decreases p.len(),
{
    if p.len() > 0 {
        let q = p.drop_last();
        assert forall|t: int| 0 <= t < q.len() implies s2[(#[trigger] q[t]) as int] == s[q[t] as int] by {
            assert(q[t] == p[t]);
        }
        lemma_cnt_agree(s, s2, q, x);
        assert(p.last() == p[p.len() - 1]);
    }
}

/// Changing the item of place `a` of a list without repeated slots changes
/// the count by what the old item and the new item count.
#[verifier::rlimit(60)]
pub proof fn lemma_cnt_update(s: Seq<u64>, p: Seq<usize>, n: nat, a: int, v: u64, x: u64)
    requires
        slots_ok(p, n),
        n == s.len(),
        0 <= a < p.len(),
    ensures
        cnt(s.update(p[a] as int, v), p, x) + (if s[p[a] as int] <= x {
            1nat
        } else {
            0nat
        }) == cnt(s, p, x) + (if v <= x {
            1nat
        } else {
            0nat
        }),
    decreases p.len(),
{
    reveal(slots_ok);
    let q = p.drop_last();
    let s2 = s.update(p[a] as int, v);
    assert(p.last() == p[p.len() - 1]);
    if a == p.len() - 1 {
        assert forall|t: int| 0 <= t < q.len() implies s2[(#[trigger] q[t]) as int] == s[q[t] as int] by {
            assert(q[t] == p[t]);
        }
        lemma_cnt_agree(s, s2, q, x);
    } else {
        assert(slots_ok(q, n)) by {
            assert forall|t: int| 0 <= t < q.len() implies (#[trigger] q[t]) < n by {
                assert(q[t] == p[t]);
            }
            assert forall|t: int, u: int| 0 <= t < u < q.len() implies q[t] != q[u] by {
                assert(q[t] == p[t] && q[u] == p[u]);
            }
        }
        assert(q[a] == p[a]);
        lemma_cnt_update(s, q, n, a, v, x);
    }
}

/// Exchanging the items of two places of a list without repeated slots
/// leaves the count.
pub proof fn lemma_cnt_exchange(s: Seq<u64>, p: Seq<usize>, n: nat, a: int, b: int, x: u64)
    requires
        slots_ok(p, n),
        n == s.len(),
        0 <= a < p.len(),
        0 <= b < p.len(),
    ensures
        cnt(exchange(s, p[a] as int, p[b] as int), p, x) == cnt(s, p, x),
{
    reveal(slots_ok);
    if a == b {
        assert(exchange(s, p[a] as int, p[b] as int) =~= s);
    } else {
        let s1 = s.update(p[a] as int, s[p[b] as int]);
        lemma_cnt_update(s, p, n, a, s[p[b] as int], x);
        assert(p[a] != p[b]) by {
            if a < b {
                assert(p[a] != p[b]);
            } else {
                assert(p[b] != p[a]);
            }
        }
        lemma_cnt_update(s1, p, n, b, s[p[a] as int], x);
    }
}

/// One step on slots of a list without repeated slots leaves the count on
/// that list, and leaves every slot outside the list as it is.
#[verifier::rlimit(60)]
pub proof fn lemma_step_within(s: Seq<u64>, p: Seq<usize>, st: Step, x: u64)
    requires
        slots_ok(p, s.len()),
        step_within(st, p),
    ensures
        apply_step(s, st).len() == s.len(),
        cnt(apply_step(s, st), p, x) == cnt(s, p, x),
        forall|y: usize| y < s.len() && !p.contains(y) ==> apply_step(s, st)[y as int] == s[y as int],
        apply_step(s, st).to_multiset() == s.to_multiset(),
{
    reveal(slots_ok);
    let (i, j) = match st {
        Step::Compare(i, j) => (i, j),
        Step::Swap(i, j) => (i, j),
    };
    let a = choose|a: int| 0 <= a < p.len() && p[a] == i;
    let b = choose|b: int| 0 <= b < p.len() && p[b] == j;
    lemma_cnt_exchange(s, p, s.len(), a, b, x);
    lemma_exchange_multiset(s, i as int, j as int);
}

pub proof fn lemma_exchange_multiset(s: Seq<u64>, i: int, j: int)
    requires
        0 <= i < s.len(),
        0 <= j < s.len(),
    ensures
        exchange(s, i, j).to_multiset() == s.to_multiset(),
{
    let s1 = s.update(i, s[j]);
    to_multiset_update(s, i, s[j]);
    to_multiset_update(s1, j, s[i]);
    if i == j {
        assert(exchange(s, i, j) =~= s);
    } else {
        s.to_multiset_ensures();
        assert(s.to_multiset().count(s[i]) > 0) by {
            assert(s.contains(s[i]));
        }
        assert(s.to_multiset().count(s[j]) > 0) by {
            assert(s.contains(s[j]));
        }
        assert(exchange(s, i, j).to_multiset() =~= s.to_multiset());
    }
}

/// A schedule on slots of a list without repeated slots leaves the length
/// of the buffer, the count on that list and the multiset of all items, and
/// leaves every slot outside the list as it is.
#[verifier::rlimit(60)]
pub proof fn lemma_run_within(s: Seq<u64>, p: Seq<usize>, steps: Seq<Step>, x: u64)
    requires
        slots_ok(p, s.len()),
        within(steps, p),
    ensures
        run(s, steps).len() == s.len(),
        cnt(run(s, steps), p, x) == cnt(s, p, x),
        forall|y: usize| y < s.len() && !p.contains(y) ==> run(s, steps)[y as int] == s[y as int],
        run(s, steps).to_multiset() == s.to_multiset(),
    decreases steps.len(),
{
    if steps.len() > 0 {
        let before = steps.drop_last();
        assert(within(before, p)) by {
            assert forall|t: int| 0 <= t < before.len() implies step_within(
                #[trigger] before[t],
                p,
            ) by {
                assert(before[t] == steps[t]);
            }
        }
        lemma_run_within(s, p, before, x);
        assert(step_within(steps[steps.len() - 1], p));
        lemma_step_within(run(s, before), p, steps.last(), x);
    }
}

pub proof fn lemma_within_concat(a: Seq<Step>, b: Seq<Step>, p: Seq<usize>)
    requires
        within(a, p),
        within(b, p),
    ensures
        within(a + b, p),
{
    assert forall|t: int| 0 <= t < (a + b).len() implies step_within(#[trigger] (a + b)[t], p) by {
        if t < a.len() {
            assert((a + b)[t] == a[t]);
        } else {
            assert((a + b)[t] == b[t - a.len()]);
        }
    }
}

/// A schedule on slots of a list is a schedule on slots of any list that
/// holds all of them.
pub proof fn lemma_within_wider(steps: Seq<Step>, p: Seq<usize>, wider: Seq<usize>)
    requires
        within(steps, p),
        forall|y: usize| p.contains(y) ==> wider.contains(y),
    ensures
        within(steps, wider),
{
    assert forall|t: int| 0 <= t < steps.len() implies step_within(#[trigger] steps[t], wider) by {
        assert(step_within(steps[t], p));
    }
}

} // verus!
