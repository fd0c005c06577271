use vstd::prelude::*;

verus! {

/// How often `v` occurs among the first `upto` labels.
pub open spec fn occurrences(labels: Seq<u64>, v: u64, upto: int) -> nat
    decreases upto,
{
    if upto <= 0 {
        0
    } else {
        occurrences(labels, v, upto - 1) + if labels[upto - 1] == v {
            1nat
        } else {
            0nat
        }
    }
}

/// How often `v` occurs among the labels.
pub open spec fn votes(labels: Seq<u64>, v: u64) -> nat {
    occurrences(labels, v, labels.len() as int)
}

fn count_votes(labels: &Vec<u64>, v: u64) -> (n: usize)
    ensures
        n == votes(labels@, v),
{
    let mut n: usize = 0;
    let mut i: usize = 0;
    while i < labels.len()
        invariant
            i <= labels@.len(),
            n == occurrences(labels@, v, i as int),
            n <= i,
        decreases labels.len() - i,
    {
        if labels[i] == v {
            n += 1;
        }
        i += 1;
    }
    n
}

/// The label that occurs most often; among several such labels, the one
/// that stands first. `None` exactly for no labels.
pub fn majority(labels: &Vec<u64>) -> (winner: Option<u64>)
    ensures
        winner is None <==> labels@.len() == 0,
        winner matches Some(m) ==> exists|b: int|
            {
                &&& 0 <= b < labels@.len()
                &&& #[trigger] labels@[b] == m
                &&& forall|j: int| 0 <= j < labels@.len() ==> votes(labels@, #[trigger] labels@[j]) <= votes(labels@, m)
                &&& forall|j: int| 0 <= j < b ==> votes(labels@, #[trigger] labels@[j]) < votes(labels@, m)
            },
{
    if labels.len() == 0 {
        return None;
    }
    let mut best: usize = 0;
    let mut best_votes: usize = count_votes(labels, labels[0]);
    let mut i: usize = 1;
    while i < labels.len()
        invariant
            1 <= i <= labels@.len(),
            best < i,
            best_votes == votes(labels@, labels@[best as int]),
            forall|j: int| 0 <= j < i ==> votes(labels@, #[trigger] labels@[j]) <= best_votes,
            forall|j: int| 0 <= j < best ==> votes(labels@, #[trigger] labels@[j]) < best_votes,
        decreases labels.len() - i,
    {
        let n = count_votes(labels, labels[i]);
        if n > best_votes {
            best = i;
            best_votes = n;
        }
        i += 1;
    }
    Some(labels[best])
}

} // verus!
