use crate::batcher::{
    chunk_size, chunks_steps, evens, gap, halves_merge_steps, lemma_merge_core_unfold,
    lemma_pow2_from_grows,
    lemma_slots_prefix, lemma_slots_ranges, link_count, link_steps, merge_core, merge_steps,
    min_int, odds, prefix, range, realign_steps, round_steps, slots_ok, sort_rec_steps,
    sort_steps, tournament_steps,
};
use crate::comparator::{compares, lemma_run_concat, lemma_run_push, run, ClearCmp, Cmp, Step};
use crate::ranks::{
    cnt, lemma_cnt_agree, lemma_cnt_bound, lemma_cnt_concat, lemma_cnt_threshold,
    lemma_run_within, lemma_within_concat, lemma_within_wider, ranked, within,
};
use vstd::prelude::*;

verus! {

pub open spec fn min_of(a: u64, b: u64) -> u64 {
    if a <= b {
        a
    } else {
        b
    }
}

pub open spec fn max_of(a: u64, b: u64) -> u64 {
    if a <= b {
        b
    } else {
        a
    }
}

/// The even places and the odd places of two runs are places of the runs,
/// and no slot occurs twice among them.
#[verifier::rlimit(60)]
pub proof fn lemma_parts(ix: Seq<usize>, jx: Seq<usize>, n: nat)
    requires
        slots_ok(ix + jx, n),
    ensures
        slots_ok(evens(ix) + evens(jx), n),
        slots_ok(odds(ix) + odds(jx), n),
        slots_ok((evens(ix) + evens(jx)) + (odds(ix) + odds(jx)), n),
        slots_ok(ix, n),
        slots_ok(jx, n),
        forall|y: usize| (evens(ix) + evens(jx)).contains(y) ==> (ix + jx).contains(y),
        forall|y: usize| (odds(ix) + odds(jx)).contains(y) ==> (ix + jx).contains(y),
        forall|y: usize| jx.contains(y) ==> (ix + jx).contains(y),
        forall|y: usize| ix.contains(y) ==> !jx.contains(y),
        forall|y: usize| (odds(ix) + odds(jx)).contains(y) ==> !(evens(ix) + evens(jx)).contains(y),
{
    reveal(slots_ok);
    let all = ix + jx;
    let ea = evens(ix) + evens(jx);
    let oa = odds(ix) + odds(jx);
    let both = ea + oa;
    let ne = evens(ix).len() as int;
    let no = odds(ix).len() as int;
    let nx = ix.len() as int;
    let pe = |t: int| if t < ne { 2 * t } else { nx + 2 * (t - ne) };
    let po = |t: int| if t < no { 2 * t + 1 } else { nx + 2 * (t - no) + 1 };
    let pb = |t: int| if t < ea.len() { pe(t) } else { po(t - ea.len()) };
    assert forall|t: int| 0 <= t < ea.len() implies 0 <= pe(t) < all.len() && #[trigger] ea[t] == all[pe(t)] by {}
    assert forall|t: int| 0 <= t < oa.len() implies 0 <= po(t) < all.len() && #[trigger] oa[t] == all[po(t)] by {}
    assert forall|t: int| 0 <= t < both.len() implies 0 <= pb(t) < all.len() && #[trigger] both[t]
        == all[pb(t)] by {
        if t < ea.len() {
            assert(both[t] == ea[t]);
        } else {
            assert(both[t] == oa[t - ea.len()]);
        }
    }
    assert forall|t: int, u: int| 0 <= t < u < both.len() implies both[t] != both[u] by {
        assert(both[t] == all[pb(t)] && both[u] == all[pb(u)]);
        assert(pb(t) != pb(u));
        if pb(t) < pb(u) {
            assert(all[pb(t)] != all[pb(u)]);
        } else {
            assert(all[pb(u)] != all[pb(t)]);
        }
    }
    assert forall|t: int| 0 <= t < both.len() implies (#[trigger] both[t]) < n by {
        assert(both[t] == all[pb(t)]);
    }
    assert forall|t: int| 0 <= t < ea.len() implies (#[trigger] ea[t]) < n by {
        assert(ea[t] == both[t]);
    }
    assert forall|t: int, u: int| 0 <= t < u < ea.len() implies ea[t] != ea[u] by {
        assert(ea[t] == both[t] && ea[u] == both[u]);
    }
    assert forall|t: int| 0 <= t < oa.len() implies (#[trigger] oa[t]) < n by {
        assert(oa[t] == both[ea.len() + t]);
    }
    assert forall|t: int, u: int| 0 <= t < u < oa.len() implies oa[t] != oa[u] by {
        assert(oa[t] == both[ea.len() + t] && oa[u] == both[ea.len() + u]);
    }
    assert forall|t: int| 0 <= t < ix.len() implies (#[trigger] ix[t]) < n by {
        assert(ix[t] == all[t]);
    }
    assert forall|t: int, u: int| 0 <= t < u < ix.len() implies ix[t] != ix[u] by {
        assert(ix[t] == all[t] && ix[u] == all[u]);
    }
    assert forall|t: int| 0 <= t < jx.len() implies (#[trigger] jx[t]) < n by {
        assert(jx[t] == all[nx + t]);
    }
    assert forall|t: int, u: int| 0 <= t < u < jx.len() implies jx[t] != jx[u] by {
        assert(jx[t] == all[nx + t] && jx[u] == all[nx + u]);
    }
    assert forall|y: usize| ea.contains(y) implies all.contains(y) by {
        let t = choose|t: int| 0 <= t < ea.len() && ea[t] == y;
        assert(all[pe(t)] == y);
    }
    assert forall|y: usize| oa.contains(y) implies all.contains(y) by {
        let t = choose|t: int| 0 <= t < oa.len() && oa[t] == y;
        assert(all[po(t)] == y);
    }
    assert forall|y: usize| jx.contains(y) implies all.contains(y) by {
        let t = choose|t: int| 0 <= t < jx.len() && jx[t] == y;
        assert(all[nx + t] == y);
    }
    assert forall|y: usize| ix.contains(y) implies !jx.contains(y) by {
        let t = choose|t: int| 0 <= t < ix.len() && ix[t] == y;
        if jx.contains(y) {
            let u = choose|u: int| 0 <= u < jx.len() && jx[u] == y;
            assert(all[t] == y && all[nx + u] == y);
        }
    }
    assert forall|y: usize| oa.contains(y) implies !ea.contains(y) by {
        let t = choose|t: int| 0 <= t < oa.len() && oa[t] == y;
        if ea.contains(y) {
            let u = choose|u: int| 0 <= u < ea.len() && ea[u] == y;
            assert(both[u] == y && both[ea.len() + t] == y);
        }
    }
}

/// The link steps work on slots of the odd and of the even list.
pub proof fn lemma_link_within(od: Seq<usize>, ev: Seq<usize>, len: nat, w: nat)
    requires
        w <= od.len(),
        w < ev.len(),
    ensures
        within(link_steps(od, ev, len, w), ev + od),
    decreases w,
{
    if w > 0 {
        lemma_link_within(od, ev, len, (w - 1) as nat);
        let before = link_steps(od, ev, len, (w - 1) as nat);
        if w <= len / 2 {
            let st = Step::Compare(od[w - 1], ev[w as int]);
            assert((ev + od)[w as int] == ev[w as int]);
            assert((ev + od)[ev.len() + w - 1] == od[w - 1]);
            assert(within(seq![st], ev + od)) by {
                assert(seq![st][0] == st);
            }
            lemma_within_concat(before, seq![st], ev + od);
            assert(before.push(st) =~= before + seq![st]);
        }
    }
}

/// The realigning exchanges work on slots of `jx`.
pub proof fn lemma_realign_within(jx: Seq<usize>, pairs: nat)
    requires
        2 * pairs <= jx.len(),
    ensures
        within(realign_steps(jx, pairs), jx),
    decreases pairs,
{
    if pairs > 0 {
        lemma_realign_within(jx, (pairs - 1) as nat);
        let before = realign_steps(jx, (pairs - 1) as nat);
        let st = Step::Swap(jx[2 * (pairs - 1)], jx[2 * (pairs - 1) + 1]);
        assert(within(seq![st], jx)) by {
            assert(seq![st][0] == st);
        }
        lemma_within_concat(before, seq![st], jx);
        assert(before.push(st) =~= before + seq![st]);
    }
}

/// Every step of a merge works on slots of its two runs.
#[verifier::rlimit(60)]
pub proof fn lemma_merge_core_within(ix: Seq<usize>, jx: Seq<usize>, len: nat, n: nat)
    requires
        slots_ok(ix + jx, n),
    ensures
        within(merge_core(ix, jx, len), ix + jx),
    decreases ix.len() + jx.len(),
{
    lemma_merge_core_unfold(ix, jx, len);
    let all = ix + jx;
    if ix.len() == 0 || jx.len() == 0 {
    } else if ix.len() == 1 && jx.len() == 1 {
        assert(all[0] == ix[0] && all[1] == jx[0]);
        assert(merge_core(ix, jx, len)[0] == Step::Compare(ix[0], jx[0]));
    } else {
        lemma_parts(ix, jx, n);
        let ev = evens(ix) + evens(jx);
        let od = odds(ix) + odds(jx);
        let m1 = merge_core(evens(ix), evens(jx), len / 2 + 1);
        let m2 = merge_core(odds(ix), odds(jx), len / 2);
        let m3 = link_steps(od, ev, len, link_count(ev.len(), od.len()));
        let m4 = if ix.len() % 2 == 1 {
            realign_steps(jx, jx.len() / 2)
        } else {
            Seq::empty()
        };
        lemma_merge_core_within(evens(ix), evens(jx), len / 2 + 1, n);
        lemma_merge_core_within(odds(ix), odds(jx), len / 2, n);
        lemma_within_wider(m1, ev, all);
        lemma_within_wider(m2, od, all);
        lemma_link_within(od, ev, len, link_count(ev.len(), od.len()));
        assert forall|y: usize| (ev + od).contains(y) implies all.contains(y) by {
            let t = choose|t: int| 0 <= t < (ev + od).len() && (ev + od)[t] == y;
            if t < ev.len() {
                assert(ev[t] == y);
                assert(ev.contains(y));
            } else {
                assert(od[t - ev.len()] == y);
                assert(od.contains(y));
            }
        }
        lemma_within_wider(m3, ev + od, all);
        if ix.len() % 2 == 1 {
            lemma_realign_within(jx, jx.len() / 2);
            lemma_within_wider(m4, jx, all);
        }
        lemma_within_concat(m1, m2, all);
        lemma_within_concat(m1 + m2, m3, all);
        lemma_within_concat(m1 + m2 + m3, m4, all);
    }
}

/// What the link steps of places `1..=w` do: at a linked place the odd slot
/// receives the smaller and the even slot the larger of the two items; every
/// other slot of the two lists keeps its item.
#[verifier::rlimit(60)]
pub proof fn lemma_link_effect(s: Seq<u64>, od: Seq<usize>, ev: Seq<usize>, len: nat, w: nat)
    requires
        slots_ok(ev + od, s.len()),
        w <= od.len(),
        w < ev.len(),
    ensures
        run(s, link_steps(od, ev, len, w)).len() == s.len(),
        forall|t: int|
            0 <= t < w && t + 1 <= len / 2 ==> run(s, link_steps(od, ev, len, w))[(
            #[trigger] od[t]) as int] == min_of(s[od[t] as int], s[ev[t + 1] as int]),
        forall|t: int|
            1 <= t <= w && t <= len / 2 ==> run(s, link_steps(od, ev, len, w))[(
            #[trigger] ev[t]) as int] == max_of(s[od[t - 1] as int], s[ev[t] as int]),
        forall|t: int|
            0 <= t < od.len() && !(t < w && t + 1 <= len / 2) ==> run(
                s,
                link_steps(od, ev, len, w),
            )[(#[trigger] od[t]) as int] == s[od[t] as int],
        forall|t: int|
            0 <= t < ev.len() && !(1 <= t <= w && t <= len / 2) ==> run(
                s,
                link_steps(od, ev, len, w),
            )[(#[trigger] ev[t]) as int] == s[ev[t] as int],
    decreases w,
{
    reveal(slots_ok);
    let both = ev + od;
    assert forall|t: int| 0 <= t < ev.len() implies #[trigger] ev[t] == both[t] by {}
    assert forall|t: int| 0 <= t < od.len() implies #[trigger] od[t] == both[ev.len() + t] by {}
    if w > 0 {
        lemma_link_effect(s, od, ev, len, (w - 1) as nat);
        let before = link_steps(od, ev, len, (w - 1) as nat);
        let s1 = run(s, before);
        if w <= len / 2 {
            let i = od[w - 1];
            let j = ev[w as int];
            lemma_run_push(s, before, Step::Compare(i, j));
            let s2 = run(s, link_steps(od, ev, len, w));
            assert(s1[i as int] == s[i as int]);
            assert(s1[j as int] == s[j as int]);
            assert(i == both[ev.len() + w - 1] && j == both[w as int]);
            assert(i != j);
            assert forall|t: int| 0 <= t < od.len() && t != w - 1 implies s2[(#[trigger] od[t]) as int]
                == s1[od[t] as int] by {
                assert(od[t] == both[ev.len() + t]);
            }
            assert forall|t: int| 0 <= t < ev.len() && t != w implies s2[(#[trigger] ev[t]) as int]
                == s1[ev[t] as int] by {
                assert(ev[t] == both[t]);
            }
        }
    }
}

/// What the realigning exchanges of the first `pairs` pairs do: the two
/// slots of a pair trade items; the slots behind the pairs keep theirs.
#[verifier::rlimit(60)]
pub proof fn lemma_realign_effect(s: Seq<u64>, jx: Seq<usize>, pairs: nat)
    requires
        slots_ok(jx, s.len()),
        2 * pairs <= jx.len(),
    ensures
        run(s, realign_steps(jx, pairs)).len() == s.len(),
        forall|t: int|
            0 <= t < 2 * pairs ==> run(s, realign_steps(jx, pairs))[(#[trigger] jx[t]) as int] == s[jx[if t
                % 2 == 0 {
                t + 1
            } else {
                t - 1
            }] as int],
        forall|t: int|
            2 * pairs <= t < jx.len() ==> run(s, realign_steps(jx, pairs))[(#[trigger] jx[t]) as int]
                == s[jx[t] as int],
    decreases pairs,
{
    reveal(slots_ok);
    if pairs > 0 {
        lemma_realign_effect(s, jx, (pairs - 1) as nat);
        let before = realign_steps(jx, (pairs - 1) as nat);
        let i = jx[2 * (pairs - 1)];
        let j = jx[2 * (pairs - 1) + 1];
        lemma_run_push(s, before, Step::Swap(i, j));
        let s1 = run(s, before);
        let s2 = run(s, realign_steps(jx, pairs));
        assert(s1[i as int] == s[i as int]);
        assert(s1[j as int] == s[j as int]);
        assert forall|t: int| 0 <= t < jx.len() && t != 2 * (pairs - 1) && t != 2 * (pairs - 1) + 1 implies s2[(
        #[trigger] jx[t]) as int] == s1[jx[t] as int] by {
            if t < 2 * (pairs - 1) {
                assert(jx[t] != i && jx[t] != j);
            } else {
                assert(i != jx[t] && j != jx[t]);
            }
        }
    }
}


/// The slot that holds output rank `r` of a merge once its two halves are
/// merged and linked, before any realigning: even ranks lie in the even
/// list, odd ranks in the odd list, and behind the last odd slot comes the
/// last even slot.
pub open spec fn rank_slot(od: Seq<usize>, ev: Seq<usize>, r: int) -> usize {
    if r % 2 == 0 {
        ev[r / 2]
    } else if (r - 1) / 2 < od.len() {
        od[(r - 1) / 2]
    } else {
        ev[(r + 1) / 2]
    }
}

/// Where `rank_slot` lies in the two runs.
#[verifier::rlimit(60)]
pub proof fn lemma_rank_position(ix: Seq<usize>, jx: Seq<usize>, r: int)
    requires
        ix.len() >= 1,
        jx.len() >= 1,
        0 <= r < ix.len() + jx.len(),
    ensures
        ix.len() % 2 == 0 ==> rank_slot(odds(ix) + odds(jx), evens(ix) + evens(jx), r) == (ix + jx)[r],
        ix.len() % 2 == 1 && r < ix.len() ==> rank_slot(
            odds(ix) + odds(jx),
            evens(ix) + evens(jx),
            r,
        ) == ix[r],
        ix.len() % 2 == 1 && r >= ix.len() && (r - ix.len()) % 2 == 0 && r - ix.len() + 1 < jx.len()
            ==> rank_slot(odds(ix) + odds(jx), evens(ix) + evens(jx), r) == jx[r - ix.len() + 1],
        ix.len() % 2 == 1 && r >= ix.len() && (r - ix.len()) % 2 == 1 ==> rank_slot(
            odds(ix) + odds(jx),
            evens(ix) + evens(jx),
            r,
        ) == jx[r - ix.len() - 1],
        ix.len() % 2 == 1 && r >= ix.len() && (r - ix.len()) % 2 == 0 && r - ix.len() + 1 == jx.len()
            ==> rank_slot(odds(ix) + odds(jx), evens(ix) + evens(jx), r) == jx[r - ix.len()],
{
    let ev = evens(ix) + evens(jx);
    let od = odds(ix) + odds(jx);
    let p = ix.len() as int;
    let ne = evens(ix).len() as int;
    let no = odds(ix).len() as int;
    assert forall|t: int| 0 <= t < ev.len() implies #[trigger] ev[t] == if t < ne {
        ix[2 * t]
    } else {
        jx[2 * (t - ne)]
    } by {}
    assert forall|t: int| 0 <= t < od.len() implies #[trigger] od[t] == if t < no {
        ix[2 * t + 1]
    } else {
        jx[2 * (t - no) + 1]
    } by {}
    if r % 2 == 0 {
        assert(ev[r / 2] == if r / 2 < ne { ix[2 * (r / 2)] } else { jx[2 * (r / 2 - ne)] });
    } else if (r - 1) / 2 < od.len() {
        assert(od[(r - 1) / 2] == if (r - 1) / 2 < no {
            ix[2 * ((r - 1) / 2) + 1]
        } else {
            jx[2 * ((r - 1) / 2 - no) + 1]
        });
    } else {
        assert(ev[(r + 1) / 2] == if (r + 1) / 2 < ne {
            ix[2 * ((r + 1) / 2)]
        } else {
            jx[2 * ((r + 1) / 2 - ne)]
        });
    }
}

/// The heart of the odd-even merge, seen through one threshold `x`. The
/// even list counts `ce` items that are at most `x` and the odd list `co`,
/// both lists are ranked as far as the output length asks, and `s3` is what
/// the link steps make of `s2`. Then the slot of rank `r` holds an item that
/// is at most `x` exactly if `r` is below the total count.
#[verifier::rlimit(60)]
pub proof fn lemma_rank_threshold(
    s2: Seq<u64>,
    s3: Seq<u64>,
    od: Seq<usize>,
    ev: Seq<usize>,
    len: nat,
    r: int,
    a: int,
    b: int,
    p: int,
    q: int,
    x: u64,
)
    requires
        p >= 1,
        q >= 1,
        p + q >= 3,
        0 <= a <= p,
        0 <= b <= q,
        ev.len() == (p + 1) / 2 + (q + 1) / 2,
        od.len() == p / 2 + q / 2,
        forall|t: int|
            0 <= t < ev.len() && t < len / 2 + 1 ==> (s2[(#[trigger] ev[t]) as int] <= x <==> t < (a
                + 1) / 2 + (b + 1) / 2),
        forall|t: int|
            0 <= t < od.len() && t < len / 2 ==> (s2[(#[trigger] od[t]) as int] <= x <==> t < a / 2 + b
                / 2),
        forall|t: int|
            0 <= t < link_count(ev.len(), od.len()) && t + 1 <= len / 2 ==> s3[(#[trigger] od[t]) as int]
                == min_of(s2[od[t] as int], s2[ev[t + 1] as int]),
        forall|t: int|
            1 <= t <= link_count(ev.len(), od.len()) && t <= len / 2 ==> s3[(#[trigger] ev[t]) as int]
                == max_of(s2[od[t - 1] as int], s2[ev[t] as int]),
        forall|t: int|
            0 <= t < od.len() && !(t < link_count(ev.len(), od.len()) && t + 1 <= len / 2) ==> s3[(
            #[trigger] od[t]) as int] == s2[od[t] as int],
        forall|t: int|
            0 <= t < ev.len() && !(1 <= t <= link_count(ev.len(), od.len()) && t <= len / 2) ==> s3[(
            #[trigger] ev[t]) as int] == s2[ev[t] as int],
        0 <= r < len,
        r < p + q,
    ensures
        s3[rank_slot(od, ev, r) as int] <= x <==> r < a + b,
{
    let ce = (a + 1) / 2 + (b + 1) / 2;
    let co = a / 2 + b / 2;
    let e = ev.len() as int;
    let o = od.len() as int;
    let w = link_count(ev.len(), od.len()) as int;
    assert(o <= e <= o + 2);
    assert(co <= ce <= co + 2);
    assert(ce + co == a + b);
    assert(e + o == p + q);
    assert(w == if e == o { o - 1 } else { o });
    if r % 2 == 0 {
        let v = r / 2;
        assert(v < e);
        assert(v < len / 2 + 1);
        if v == 0 {
            assert(s3[ev[0] as int] == s2[ev[0] as int]);
        } else {
            // an even rank above 0 is always a linked place
            assert(v <= w);
            assert(v <= len / 2);
            assert(s3[ev[v] as int] == max_of(s2[od[v - 1] as int], s2[ev[v] as int]));
            assert(s2[od[v - 1] as int] <= x <==> v - 1 < co);
            assert(s2[ev[v] as int] <= x <==> v < ce);
        }
    } else {
        let t = (r - 1) / 2;
        assert(t + 1 <= len / 2);
        if t < o {
            if t < w {
                assert(s3[od[t] as int] == min_of(s2[od[t] as int], s2[ev[t + 1] as int]));
                assert(s2[od[t] as int] <= x <==> t < co);
                assert(s2[ev[t + 1] as int] <= x <==> t + 1 < ce);
            } else {
                // the last odd slot of two runs of even length
                assert(e == o && t == o - 1);
                assert(p % 2 == 0 && q % 2 == 0);
                assert(s3[od[t] as int] == s2[od[t] as int]);
                assert(s2[od[t] as int] <= x <==> t < co);
            }
        } else {
            // the last even slot of two runs of odd length
            assert(t == o && e == o + 2);
            assert(p % 2 == 1 && q % 2 == 1);
            assert(s3[ev[t + 1] as int] == s2[ev[t + 1] as int]);
            assert(s2[ev[t + 1] as int] <= x <==> t + 1 < ce);
        }
    }
}


/// A ranked list stays ranked in a buffer that agrees with the first on
/// the slots of the list.
pub proof fn lemma_ranked_agree(s: Seq<u64>, s2: Seq<u64>, p: Seq<usize>, m: int, x: u64)
    requires
        forall|t: int| 0 <= t < p.len() ==> s2[(#[trigger] p[t]) as int] == s[p[t] as int],
        ranked(s, p, m, x),
        m <= p.len(),
    ensures
        ranked(s2, p, m, x),
        cnt(s2, p, x) == cnt(s, p, x),
{
    lemma_cnt_agree(s, s2, p, x);
}

/// The even places and the odd places of a fully ranked list are fully
/// ranked, and count the upper and the lower half of what the list counts.
pub proof fn lemma_ranked_parity(s: Seq<u64>, p: Seq<usize>, x: u64)
    requires
        ranked(s, p, p.len() as int, x),
    ensures
        cnt(s, evens(p), x) == (cnt(s, p, x) + 1) / 2,
        cnt(s, odds(p), x) == cnt(s, p, x) / 2,
        ranked(s, evens(p), evens(p).len() as int, x),
        ranked(s, odds(p), odds(p).len() as int, x),
{
    let c = cnt(s, p, x) as int;
    lemma_cnt_bound(s, p, x);
    assert forall|t: int| 0 <= t < evens(p).len() implies (s[(#[trigger] evens(p)[t]) as int] <= x
        <==> t < (c + 1) / 2) by {
        assert(evens(p)[t] == p[2 * t]);
    }
    lemma_cnt_threshold(s, evens(p), x, (c + 1) / 2);
    assert forall|t: int| 0 <= t < odds(p).len() implies (s[(#[trigger] odds(p)[t]) as int] <= x
        <==> t < c / 2) by {
        assert(odds(p)[t] == p[2 * t + 1]);
    }
    lemma_cnt_threshold(s, odds(p), x, c / 2);
}

/// Merging two ranked runs ranks the first `len` slots of the two runs
/// taken together: seen through any threshold, the truncated odd-even merge
/// brings the `len` smallest items of the two runs to the front, in
/// ascending order.
#[verifier::rlimit(60)]
pub proof fn lemma_merge_core_ranked(s: Seq<u64>, ix: Seq<usize>, jx: Seq<usize>, len: nat, x: u64)
    requires
        slots_ok(ix + jx, s.len()),
        ranked(s, ix, ix.len() as int, x),
        ranked(s, jx, jx.len() as int, x),
    ensures
        ranked(
            run(s, merge_core(ix, jx, len)),
            ix + jx,
            min_int(len as int, (ix.len() + jx.len()) as int),
            x,
        ),
    decreases ix.len() + jx.len(), 1nat,
{
    let n = s.len();
    let all = ix + jx;
    let p = ix.len() as int;
    let q = jx.len() as int;
    lemma_merge_core_unfold(ix, jx, len);
    if p == 0 {
        assert(all =~= jx);
    } else if q == 0 {
        assert(all =~= ix);
    } else if p == 1 && q == 1 {
        lemma_merge_pair_ranked(s, ix, jx, len, x);
    } else {
        let ev = evens(ix) + evens(jx);
        let od = odds(ix) + odds(jx);
        let m1 = merge_core(evens(ix), evens(jx), len / 2 + 1);
        let m2 = merge_core(odds(ix), odds(jx), len / 2);
        let m3 = link_steps(od, ev, len, link_count(ev.len(), od.len()));
        let m4 = if ix.len() % 2 == 1 {
            realign_steps(jx, jx.len() / 2)
        } else {
            Seq::empty()
        };
        let s2 = run(run(s, m1), m2);
        let s4 = run(run(s2, m3), m4);
        lemma_merge_halves(s, ix, jx, len, x);
        lemma_cnt_bound(s, ix, x);
        lemma_cnt_bound(s, jx, x);
        lemma_merge_finish(s2, ix, jx, len, cnt(s, ix, x) as int, cnt(s, jx, x) as int, x);
        lemma_run_concat(s, m1, m2);
        lemma_run_concat(s, m1 + m2, m3);
        lemma_run_concat(s, m1 + m2 + m3, m4);
        assert(run(s, merge_core(ix, jx, len)) == s4);
        lemma_merge_core_within(ix, jx, len, n);
        lemma_run_within(s, all, merge_core(ix, jx, len), x);
        lemma_cnt_concat(s, ix, jx, x);
    }
}

/// The first two stages of a merge: both the even slots and the odd slots
/// are merged, each list ranked as far as the output length asks, and each
/// counts its share of what the two runs count.
#[verifier::rlimit(60)]
proof fn lemma_merge_halves(s: Seq<u64>, ix: Seq<usize>, jx: Seq<usize>, len: nat, x: u64)
    requires
        slots_ok(ix + jx, s.len()),
        ranked(s, ix, ix.len() as int, x),
        ranked(s, jx, jx.len() as int, x),
        ix.len() >= 1,
        jx.len() >= 1,
        ix.len() + jx.len() >= 3,
    ensures
        ({
            let ev = evens(ix) + evens(jx);
            let od = odds(ix) + odds(jx);
            let s2 = run(
                run(s, merge_core(evens(ix), evens(jx), len / 2 + 1)),
                merge_core(odds(ix), odds(jx), len / 2),
            );
            &&& s2.len() == s.len()
            &&& ranked(s2, ev, min_int((len / 2 + 1) as int, ev.len() as int), x)
            &&& ranked(s2, od, min_int((len / 2) as int, od.len() as int), x)
            &&& cnt(s2, ev, x) == (cnt(s, ix, x) + 1) / 2 + (cnt(s, jx, x) + 1) / 2
            &&& cnt(s2, od, x) == cnt(s, ix, x) / 2 + cnt(s, jx, x) / 2
        }),
    decreases ix.len() + jx.len(), 0nat,
{
    let n = s.len();
    let ev = evens(ix) + evens(jx);
    let od = odds(ix) + odds(jx);
    let m1 = merge_core(evens(ix), evens(jx), len / 2 + 1);
    let m2 = merge_core(odds(ix), odds(jx), len / 2);
    let s1 = run(s, m1);
    let s2 = run(s1, m2);
    lemma_parts(ix, jx, n);
    lemma_ranked_parity(s, ix, x);
    lemma_ranked_parity(s, jx, x);
    // the even slots are merged first
    lemma_merge_core_ranked(s, evens(ix), evens(jx), len / 2 + 1, x);
    lemma_merge_core_within(evens(ix), evens(jx), len / 2 + 1, n);
    lemma_run_within(s, ev, m1, x);
    lemma_cnt_concat(s, evens(ix), evens(jx), x);
    // which leaves the odd slots as they were
    lemma_halves_kept(s, s1, odds(ix), odds(jx), ev, x);
    // then the odd slots are merged
    lemma_merge_core_ranked(s1, odds(ix), odds(jx), len / 2, x);
    lemma_merge_core_within(odds(ix), odds(jx), len / 2, n);
    lemma_run_within(s1, od, m2, x);
    lemma_cnt_concat(s1, odds(ix), odds(jx), x);
    // which leaves the even slots as they were
    lemma_list_kept(s1, s2, ev, od, min_int((len / 2 + 1) as int, ev.len() as int), x);
}

/// A list keeps its items, its count and its ranking through a schedule
/// that leaves every slot outside another list as it is, where the two
/// lists share no slot.
proof fn lemma_list_kept(s1: Seq<u64>, s2: Seq<u64>, ev: Seq<usize>, od: Seq<usize>, m: int, x: u64)
    requires
        s2.len() == s1.len(),
        slots_ok(ev, s1.len()),
        forall|y: usize| od.contains(y) ==> !ev.contains(y),
        forall|y: usize| y < s1.len() && !od.contains(y) ==> s2[y as int] == s1[y as int],
        ranked(s1, ev, m, x),
        m <= ev.len(),
    ensures
        ranked(s2, ev, m, x),
        cnt(s2, ev, x) == cnt(s1, ev, x),
{
    reveal(slots_ok);
    assert forall|t: int| 0 <= t < ev.len() implies s2[(#[trigger] ev[t]) as int] == s1[ev[t] as int] by {
        assert(ev.contains(ev[t]));
    }
    lemma_ranked_agree(s1, s2, ev, m, x);
}

/// The last two stages of a merge: linking the merged halves and, behind a
/// run of odd length, realigning. `a` and `b` are what the two runs count.
#[verifier::rlimit(60)]
proof fn lemma_merge_finish(
    s2: Seq<u64>,
    ix: Seq<usize>,
    jx: Seq<usize>,
    len: nat,
    a: int,
    b: int,
    x: u64,
)
    requires
        slots_ok(ix + jx, s2.len()),
        ix.len() >= 1,
        jx.len() >= 1,
        ix.len() + jx.len() >= 3,
        0 <= a <= ix.len(),
        0 <= b <= jx.len(),
        ranked(
            s2,
            evens(ix) + evens(jx),
            min_int((len / 2 + 1) as int, (evens(ix) + evens(jx)).len() as int),
            x,
        ),
        ranked(s2, odds(ix) + odds(jx), min_int((len / 2) as int, (odds(ix) + odds(jx)).len() as int), x),
        cnt(s2, evens(ix) + evens(jx), x) == (a + 1) / 2 + (b + 1) / 2,
        cnt(s2, odds(ix) + odds(jx), x) == a / 2 + b / 2,
    ensures
        ({
            let ev = evens(ix) + evens(jx);
            let od = odds(ix) + odds(jx);
            let s3 = run(s2, link_steps(od, ev, len, link_count(ev.len(), od.len())));
            let s4 = run(
                s3,
                if ix.len() % 2 == 1 {
                    realign_steps(jx, jx.len() / 2)
                } else {
                    Seq::empty()
                },
            );
            forall|r: int|
                0 <= r < min_int(len as int, (ix.len() + jx.len()) as int) ==> (s4[(#[trigger] (ix
                    + jx)[r]) as int] <= x <==> r < a + b)
        }),
{
    let n = s2.len();
    let all = ix + jx;
    let p = ix.len() as int;
    let q = jx.len() as int;
    let ev = evens(ix) + evens(jx);
    let od = odds(ix) + odds(jx);
    let w = link_count(ev.len(), od.len());
    let m3 = link_steps(od, ev, len, w);
    let m4 = if ix.len() % 2 == 1 {
        realign_steps(jx, jx.len() / 2)
    } else {
        Seq::empty()
    };
    let s3 = run(s2, m3);
    let s4 = run(s3, m4);
    lemma_parts(ix, jx, n);
    assert(w <= od.len() && w < ev.len());
    lemma_link_effect(s2, od, ev, len, w);
    if p % 2 == 1 {
        lemma_realign_effect(s3, jx, (q / 2) as nat);
        lemma_realign_within(jx, (q / 2) as nat);
        lemma_run_within(s3, jx, m4, x);
    } else {
        assert(s4 == s3);
    }
    assert forall|r: int| 0 <= r < min_int(len as int, p + q) implies (s4[(#[trigger] all[r]) as int]
        <= x <==> r < a + b) by {
        lemma_rank_threshold(s2, s3, od, ev, len, r, a, b, p, q, x);
        lemma_rank_position(ix, jx, r);
        lemma_rank_moved(s3, s4, ix, jx, r, rank_slot(od, ev, r));
    }
}

/// Realigning brings the item of every rank from the slot it was linked
/// into, `slot`, to the slot that the output order gives it.
#[verifier::rlimit(60)]
proof fn lemma_rank_moved(
    s3: Seq<u64>,
    s4: Seq<u64>,
    ix: Seq<usize>,
    jx: Seq<usize>,
    r: int,
    slot: usize,
)
    requires
        ix.len() >= 1,
        jx.len() >= 1,
        0 <= r < ix.len() + jx.len(),
        ix.len() % 2 == 0 ==> s4 == s3,
        ix.len() % 2 == 1 ==> forall|y: usize| y < s3.len() && !jx.contains(y) ==> s4[y as int] == s3[y as int],
        ix.len() % 2 == 1 ==> forall|t: int|
            0 <= t < 2 * (jx.len() / 2) ==> s4[(#[trigger] jx[t]) as int] == s3[jx[if t % 2 == 0 {
                t + 1
            } else {
                t - 1
            }] as int],
        ix.len() % 2 == 1 ==> forall|t: int|
            2 * (jx.len() / 2) <= t < jx.len() ==> s4[(#[trigger] jx[t]) as int] == s3[jx[t] as int],
        forall|y: usize| ix.contains(y) ==> !jx.contains(y),
        slots_ok(ix, s3.len()),
        // where the rank was linked into
        ix.len() % 2 == 0 ==> slot == (ix + jx)[r],
        ix.len() % 2 == 1 && r < ix.len() ==> slot == ix[r],
        ix.len() % 2 == 1 && r >= ix.len() && (r - ix.len()) % 2 == 0 && r - ix.len() + 1 < jx.len()
            ==> slot == jx[r - ix.len() + 1],
        ix.len() % 2 == 1 && r >= ix.len() && (r - ix.len()) % 2 == 1 ==> slot == jx[r - ix.len() - 1],
        ix.len() % 2 == 1 && r >= ix.len() && (r - ix.len()) % 2 == 0 && r - ix.len() + 1 == jx.len()
            ==> slot == jx[r - ix.len()],
    ensures
        s4[(ix + jx)[r] as int] == s3[slot as int],
{
    let p = ix.len() as int;
    let all = ix + jx;
    if p % 2 == 0 {
    } else if r < p {
        assert(all[r] == ix[r]);
        assert(ix.contains(ix[r]));
        assert(ix[r] < s3.len()) by {
            reveal(slots_ok);
        }
    } else {
        let t = r - p;
        assert(all[r] == jx[t]);
        if t < 2 * (jx.len() / 2) {
            assert(s4[jx[t] as int] == s3[jx[if t % 2 == 0 { t + 1 } else { t - 1 }] as int]);
        } else {
            assert(s4[jx[t] as int] == s3[jx[t] as int]);
        }
    }
}

/// The odd runs keep their items, their counts and their ranking through a
/// schedule that leaves every slot outside the even list as it is.
proof fn lemma_halves_kept(
    s: Seq<u64>,
    s1: Seq<u64>,
    oi: Seq<usize>,
    oj: Seq<usize>,
    ev: Seq<usize>,
    x: u64,
)
    requires
        s1.len() == s.len(),
        slots_ok(oi + oj, s.len()),
        forall|y: usize| (oi + oj).contains(y) ==> !ev.contains(y),
        forall|y: usize| y < s.len() && !ev.contains(y) ==> s1[y as int] == s[y as int],
        ranked(s, oi, oi.len() as int, x),
        ranked(s, oj, oj.len() as int, x),
    ensures
        ranked(s1, oi, oi.len() as int, x),
        ranked(s1, oj, oj.len() as int, x),
        cnt(s1, oi, x) == cnt(s, oi, x),
        cnt(s1, oj, x) == cnt(s, oj, x),
{
    reveal(slots_ok);
    let od = oi + oj;
    assert forall|t: int| 0 <= t < oi.len() implies s1[(#[trigger] oi[t]) as int] == s[oi[t] as int] by {
        assert(od[t] == oi[t]);
        assert(od.contains(oi[t]));
    }
    assert forall|t: int| 0 <= t < oj.len() implies s1[(#[trigger] oj[t]) as int] == s[oj[t] as int] by {
        assert(od[oi.len() + t] == oj[t]);
        assert(od.contains(oj[t]));
    }
    lemma_ranked_agree(s, s1, oi, oi.len() as int, x);
    lemma_ranked_agree(s, s1, oj, oj.len() as int, x);
}

/// One compare-exchange ranks two single slots.
proof fn lemma_merge_pair_ranked(s: Seq<u64>, ix: Seq<usize>, jx: Seq<usize>, len: nat, x: u64)
    requires
        slots_ok(ix + jx, s.len()),
        ix.len() == 1,
        jx.len() == 1,
    ensures
        ranked(run(s, merge_core(ix, jx, len)), ix + jx, min_int(len as int, 2), x),
{
    reveal(slots_ok);
    lemma_merge_core_unfold(ix, jx, len);
    let all = ix + jx;
    let i = ix[0];
    let j = jx[0];
    assert(all[0] == i && all[1] == j);
    assert(i != j);
    let st = Step::Compare(i, j);
    lemma_run_push(s, Seq::empty(), st);
    assert(Seq::<Step>::empty().push(st) =~= seq![st]);
    let s1 = run(s, seq![st]);
    lemma_cnt_concat(s1, ix, jx, x);
    assert(ix.drop_last() =~= Seq::<usize>::empty());
    assert(jx.drop_last() =~= Seq::<usize>::empty());
    assert(cnt(s1, ix.drop_last(), x) == 0);
    assert(cnt(s1, jx.drop_last(), x) == 0);
    assert(ix.last() == i && jx.last() == j);
}


/// The slots of a range are the numbers from `lo` up to `hi`.
pub proof fn lemma_range(lo: int, hi: int, n: nat)
    requires
        0 <= lo <= hi <= n,
        n <= usize::MAX,
    ensures
        slots_ok(range(lo, hi), n),
        forall|y: usize| range(lo, hi).contains(y) <==> lo <= y < hi,
{
    reveal(slots_ok);
    assert forall|y: usize| lo <= y < hi implies range(lo, hi).contains(y) by {
        assert(range(lo, hi)[y - lo] == y);
    }
}

/// A list that holds an item that is at most `x` counts at least 1.
pub proof fn lemma_cnt_positive(s: Seq<u64>, p: Seq<usize>, x: u64, t: int)
    requires
        0 <= t < p.len(),
        s[p[t] as int] <= x,
    ensures
        cnt(s, p, x) >= 1,
    decreases p.len(),
{
    if t < p.len() - 1 {
        assert(p.drop_last()[t] == p[t]);
        lemma_cnt_positive(s, p.drop_last(), x, t);
    }
}

/// Merging two neighbouring ranges whose fronts are ranked ranks the front
/// of the joined range.
#[verifier::rlimit(60)]
pub proof fn lemma_merge_ranges(s: Seq<u64>, lo: int, mid: int, hi: int, len: nat, x: u64)
    requires
        0 <= lo <= mid <= hi <= s.len(),
        s.len() <= usize::MAX,
        ranked(s, range(lo, mid), min_int(len as int, mid - lo), x),
        ranked(s, range(mid, hi), min_int(len as int, hi - mid), x),
    ensures
        ranked(
            run(s, merge_steps(range(lo, mid), range(mid, hi), len)),
            range(lo, hi),
            min_int(len as int, hi - lo),
            x,
        ),
        within(merge_steps(range(lo, mid), range(mid, hi), len), range(lo, hi)),
{
    let n = s.len();
    let ix = range(lo, mid);
    let jx = range(mid, hi);
    let na = min_int(len as int, mid - lo);
    let nb = min_int(len as int, hi - mid);
    let a = prefix(ix, len);
    let b = prefix(jx, len);
    let steps = merge_steps(ix, jx, len);
    let s2 = run(s, steps);
    let ca = cnt(s, ix, x) as int;
    let cb = cnt(s, jx, x) as int;
    assert(a =~= range(lo, lo + na));
    assert(b =~= range(mid, mid + nb));
    lemma_cnt_bound(s, ix, x);
    lemma_cnt_bound(s, jx, x);
    // the fronts are fully ranked lists of their own
    assert forall|t: int| 0 <= t < a.len() implies (s[(#[trigger] a[t]) as int] <= x <==> t < min_int(
        ca,
        na,
    )) by {
        assert(a[t] == ix[t]);
    }
    lemma_cnt_threshold(s, a, x, min_int(ca, na));
    assert forall|t: int| 0 <= t < b.len() implies (s[(#[trigger] b[t]) as int] <= x <==> t < min_int(
        cb,
        nb,
    )) by {
        assert(b[t] == jx[t]);
    }
    lemma_cnt_threshold(s, b, x, min_int(cb, nb));
    lemma_slots_ranges(lo, mid, hi, n);
    lemma_slots_prefix(ix, jx, len, n);
    lemma_merge_core_ranked(s, a, b, len, x);
    // counts: on the fronts, and on the whole range
    lemma_merge_core_within(a, b, len, n);
    lemma_run_within(s, a + b, steps, x);
    lemma_cnt_concat(s, a, b, x);
    lemma_range(lo, hi, n);
    lemma_range(lo, lo + na, n);
    lemma_range(mid, mid + nb, n);
    assert forall|y: usize| (a + b).contains(y) implies range(lo, hi).contains(y) by {
        let t = choose|t: int| 0 <= t < (a + b).len() && (a + b)[t] == y;
        if t < a.len() {
            assert(a[t] == y);
        } else {
            assert(b[t - a.len()] == y);
        }
    }
    lemma_within_wider(steps, a + b, range(lo, hi));
    lemma_run_within(s, range(lo, hi), steps, x);
    assert(range(lo, hi) =~= ix + jx);
    lemma_cnt_concat(s, ix, jx, x);
    assert(cnt(s2, range(lo, hi), x) == ca + cb);
    assert(cnt(s2, a + b, x) == min_int(ca, na) + min_int(cb, nb));
    assert forall|r: int| 0 <= r < min_int(len as int, hi - lo) implies (s2[(#[trigger] range(
        lo,
        hi,
    )[r]) as int] <= x <==> r < cnt(s2, range(lo, hi), x)) by {
        assert(r < na + nb);
        assert((a + b)[r] == range(lo, hi)[r]);
        assert(s2[(a + b)[r] as int] <= x <==> r < cnt(s2, a + b, x));
    }
}

/// Sorting a range ranks its front.
#[verifier::rlimit(60)]
pub proof fn lemma_sort_rec(s: Seq<u64>, lo: int, hi: int, k: nat, x: u64)
    requires
        0 <= lo <= hi <= s.len(),
        s.len() <= usize::MAX,
    ensures
        ranked(run(s, sort_rec_steps(lo, hi, k)), range(lo, hi), min_int(k as int, hi - lo), x),
        within(sort_rec_steps(lo, hi, k), range(lo, hi)),
    decreases hi - lo,
{
    let n = s.len();
    if hi - lo <= 1 {
        if hi - lo == 1 {
            let p = range(lo, hi);
            assert(p.drop_last() =~= Seq::<usize>::empty());
            assert(cnt(s, p.drop_last(), x) == 0);
            assert(p.last() == p[0]);
        }
    } else {
        let mid = lo + (hi - lo) / 2;
        let m1 = sort_rec_steps(lo, mid, k);
        let m2 = sort_rec_steps(mid, hi, k);
        let m3 = merge_steps(range(lo, mid), range(mid, hi), k);
        let s1 = run(s, m1);
        let s2 = run(s1, m2);
        lemma_range(lo, mid, n);
        lemma_range(mid, hi, n);
        lemma_range(lo, hi, n);
        lemma_sort_rec(s, lo, mid, k, x);
        lemma_run_within(s, range(lo, mid), m1, x);
        lemma_sort_rec(s1, mid, hi, k, x);
        lemma_run_within(s1, range(mid, hi), m2, x);
        lemma_list_kept(s1, s2, range(lo, mid), range(mid, hi), min_int(k as int, mid - lo), x);
        lemma_merge_ranges(s2, lo, mid, hi, k, x);
        lemma_within_wider(m1, range(lo, mid), range(lo, hi));
        lemma_within_wider(m2, range(mid, hi), range(lo, hi));
        lemma_within_concat(m1, m2, range(lo, hi));
        lemma_within_concat(m1 + m2, m3, range(lo, hi));
        lemma_run_concat(s, m1, m2);
        lemma_run_concat(s, m1 + m2, m3);
    }
}

/// From slot `lo` on, every chunk of `size` slots has a ranked front.
pub open spec fn chunks_ranked(s: Seq<u64>, n: int, k: nat, size: int, lo: int, x: u64) -> bool
    decreases gap(n, lo),
{
    if lo >= n || size <= 0 {
        true
    } else {
        let hi = min_int(lo + size, n);
        ranked(s, range(lo, hi), min_int(k as int, hi - lo), x) && chunks_ranked(
            s,
            n,
            k,
            size,
            lo + size,
            x,
        )
    }
}

/// Ranked chunks stay ranked in a buffer that agrees with the first from
/// slot `lo` on.
pub proof fn lemma_chunks_kept(s: Seq<u64>, s2: Seq<u64>, n: int, k: nat, size: int, lo: int, x: u64)
    requires
        0 <= lo,
        n == s.len(),
        s2.len() == s.len(),
        n <= usize::MAX,
        forall|y: int| lo <= y < n ==> s2[y] == s[y],
        chunks_ranked(s, n, k, size, lo, x),
    ensures
        chunks_ranked(s2, n, k, size, lo, x),
    decreases gap(n, lo),
{
    if lo >= n || size <= 0 {
    } else {
        let hi = min_int(lo + size, n);
        let p = range(lo, hi);
        assert forall|t: int| 0 <= t < p.len() implies s2[(#[trigger] p[t]) as int] == s[p[t] as int] by {}
        lemma_ranked_agree(s, s2, p, min_int(k as int, hi - lo), x);
        lemma_chunks_kept(s, s2, n, k, size, lo + size, x);
    }
}

/// Sorting every chunk ranks the front of every chunk.
#[verifier::rlimit(60)]
pub proof fn lemma_chunks(s: Seq<u64>, k: nat, size: int, lo: int, x: u64)
    requires
        0 <= lo,
        size >= 1,
        s.len() <= usize::MAX,
    ensures
        chunks_ranked(
            run(s, chunks_steps(s.len() as int, k, size, lo)),
            s.len() as int,
            k,
            size,
            lo,
            x,
        ),
        lo <= s.len() ==> within(
            chunks_steps(s.len() as int, k, size, lo),
            range(lo, s.len() as int),
        ),
        run(s, chunks_steps(s.len() as int, k, size, lo)).len() == s.len(),
        forall|y: int| 0 <= y < lo && y < s.len() ==> run(s, chunks_steps(s.len() as int, k, size, lo))[y] == s[y],
    decreases gap(s.len() as int, lo),
{
    let n = s.len() as int;
    if lo >= n {
    } else {
        let hi = min_int(lo + size, n);
        let m1 = sort_rec_steps(lo, hi, k);
        let m2 = chunks_steps(n, k, size, lo + size);
        let s1 = run(s, m1);
        let s2 = run(s1, m2);
        lemma_range(lo, hi, s.len());
        lemma_range(lo, n, s.len());
        lemma_sort_rec(s, lo, hi, k, x);
        lemma_run_within(s, range(lo, hi), m1, x);
        lemma_chunks(s1, k, size, lo + size, x);
        lemma_run_concat(s, m1, m2);
        // the later chunks leave this chunk as it is
        let p = range(lo, hi);
        assert forall|t: int| 0 <= t < p.len() implies s2[(#[trigger] p[t]) as int] == s1[p[t] as int] by {}
        lemma_ranked_agree(s1, s2, p, min_int(k as int, hi - lo), x);
        lemma_within_wider(m1, range(lo, hi), range(lo, n));
        if lo + size <= n {
            lemma_range(lo + size, n, s.len());
            lemma_within_wider(m2, range(lo + size, n), range(lo, n));
        }
        lemma_within_concat(m1, m2, range(lo, n));
    }
}

/// One round of the tournament turns ranked chunks of `size` slots into
/// ranked chunks of twice the size.
#[verifier::rlimit(60)]
pub proof fn lemma_round(s: Seq<u64>, k: nat, size: int, lo: int, x: u64)
    requires
        0 <= lo,
        size >= 1,
        s.len() <= usize::MAX,
        chunks_ranked(s, s.len() as int, k, size, lo, x),
    ensures
        chunks_ranked(
            run(s, round_steps(s.len() as int, k, size, lo)),
            s.len() as int,
            k,
            2 * size,
            lo,
            x,
        ),
        lo <= s.len() ==> within(round_steps(s.len() as int, k, size, lo), range(lo, s.len() as int)),
        run(s, round_steps(s.len() as int, k, size, lo)).len() == s.len(),
        forall|y: int| 0 <= y < lo && y < s.len() ==> run(s, round_steps(s.len() as int, k, size, lo))[y] == s[y],
    decreases gap(s.len() as int, lo),
{
    let n = s.len() as int;
    if lo >= n {
    } else if lo + size >= n {
        // a last chunk without a neighbour
        assert(min_int(lo + size, n) == min_int(lo + 2 * size, n));
        assert(chunks_ranked(s, n, k, 2 * size, lo + 2 * size, x));
        assert(round_steps(n, k, size, lo) =~= Seq::<Step>::empty());
        assert(run(s, round_steps(n, k, size, lo)) == s);
        assert(ranked(s, range(lo, n), min_int(k as int, n - lo), x));
    } else {
        let mid = lo + size;
        let hi = min_int(lo + 2 * size, n);
        let len = min_int(k as int, hi - lo) as nat;
        let m1 = merge_steps(range(lo, mid), range(mid, hi), len);
        let m2 = round_steps(n, k, size, lo + 2 * size);
        let s1 = run(s, m1);
        let s2 = run(s1, m2);
        assert(chunks_ranked(s, n, k, size, mid, x));
        assert(min_int(mid + size, n) == hi);
        assert(chunks_ranked(s, n, k, size, lo + 2 * size, x));
        lemma_range(lo, hi, s.len());
        lemma_range(lo, n, s.len());
        lemma_merge_ranges(s, lo, mid, hi, len, x);
        lemma_run_within(s, range(lo, hi), m1, x);
        lemma_chunks_kept(s, s1, n, k, size, lo + 2 * size, x);
        lemma_round(s1, k, size, lo + 2 * size, x);
        lemma_run_concat(s, m1, m2);
        let p = range(lo, hi);
        assert forall|t: int| 0 <= t < p.len() implies s2[(#[trigger] p[t]) as int] == s1[p[t] as int] by {}
        lemma_ranked_agree(s1, s2, p, min_int(k as int, hi - lo), x);
        lemma_within_wider(m1, range(lo, hi), range(lo, n));
        if lo + 2 * size <= n {
            lemma_range(lo + 2 * size, n, s.len());
            lemma_within_wider(m2, range(lo + 2 * size, n), range(lo, n));
        }
        lemma_within_concat(m1, m2, range(lo, n));
        assert(run(s, round_steps(n, k, size, lo)) == s2);
        assert(ranked(s2, range(lo, hi), min_int(k as int, hi - lo), x));
        assert(chunks_ranked(s2, n, k, 2 * size, lo + 2 * size, x));
    }
}

/// The tournament turns ranked chunks into a buffer with a ranked front.
#[verifier::rlimit(60)]
pub proof fn lemma_tournament(s: Seq<u64>, k: nat, size: int, x: u64)
    requires
        size >= 1,
        s.len() <= usize::MAX,
        chunks_ranked(s, s.len() as int, k, size, 0, x),
    ensures
        ranked(
            run(s, tournament_steps(s.len() as int, k, size)),
            range(0, s.len() as int),
            min_int(k as int, s.len() as int),
            x,
        ),
        within(tournament_steps(s.len() as int, k, size), range(0, s.len() as int)),
    decreases gap(s.len() as int, size),
{
    let n = s.len() as int;
    if size >= n {
        if n > 0 {
            assert(min_int(0 + size, n) == n);
        }
    } else {
        let m1 = round_steps(n, k, size, 0);
        let m2 = tournament_steps(n, k, 2 * size);
        lemma_round(s, k, size, 0, x);
        lemma_tournament(run(s, m1), k, 2 * size, x);
        lemma_run_concat(s, m1, m2);
        lemma_within_concat(m1, m2, range(0, n));
    }
}

/// The whole sort, seen through one threshold: the front of the buffer is ranked.
pub proof fn lemma_sort_ranked(s: Seq<u64>, k: nat, x: u64)
    requires
        s.len() <= usize::MAX,
    ensures
        ranked(
            run(s, sort_steps(s.len(), k)),
            range(0, s.len() as int),
            min_int(k as int, s.len() as int),
            x,
        ),
        within(sort_steps(s.len(), k), range(0, s.len() as int)),
{
    let n = s.len() as int;
    let size = chunk_size(k) as int;
    if k > 1 {
        lemma_pow2_from_grows(2, k);
    }
    let m1 = chunks_steps(n, k, size, 0);
    let m2 = tournament_steps(n, k, size);
    lemma_chunks(s, k, size, 0, x);
    lemma_tournament(run(s, m1), k, size, x);
    lemma_run_concat(s, m1, m2);
    lemma_within_concat(m1, m2, range(0, n));
}

/// A buffer whose first `m` slots are ranked for every threshold holds its
/// `m` smallest items in those slots, in ascending order.
#[verifier::rlimit(60)]
pub proof fn lemma_ranked_front(out: Seq<u64>, m: int)
    requires
        0 <= m <= out.len(),
        out.len() <= usize::MAX,
        forall|x: u64| ranked(out, range(0, out.len() as int), m, x),
    ensures
        forall|i: int, j: int| 0 <= i < j < m ==> out[i] <= out[j],
        forall|i: int, j: int| 0 <= i < m && m <= j < out.len() ==> out[i] <= out[j],
{
    let n = out.len() as int;
    let all = range(0, n);
    assert forall|i: int, j: int| 0 <= i < j < m implies out[i] <= out[j] by {
        let x = out[j];
        assert(ranked(out, all, m, x));
        assert(all[j] == j && all[i] == i);
    }
    assert forall|i: int, j: int| 0 <= i < m && m <= j < n implies out[i] <= out[j] by {
        let x = out[j];
        assert(ranked(out, all, m, x));
        assert(all[i] == i);
        if out[i] > x {
            // then fewer than `m` items are at most `x`, all of them in
            // the front, and yet slot `j` holds one more
            let c = cnt(out, all, x) as int;
            let front = range(0, m);
            let back = range(m, n);
            assert(all =~= front + back);
            lemma_cnt_concat(out, front, back, x);
            assert forall|t: int| 0 <= t < front.len() implies (out[(#[trigger] front[t]) as int]
                <= x <==> t < c) by {
                assert(all[t] == front[t]);
            }
            lemma_cnt_threshold(out, front, x, c);
            assert(back[j - m] == j);
            lemma_cnt_positive(out, back, x, j - m);
        }
    }
}

/// Top-k soundness of the sorter on clear integers: whatever the items and
/// whatever `k`, the schedule `sort_steps(n, k)` leaves a permutation of
/// the items whose first `min(k, n)` slots hold the smallest items in
/// ascending order.
#[verifier::rlimit(60)]
pub proof fn lemma_sort_top_k(xs: Seq<u64>, k: nat)
    requires
        xs.len() <= usize::MAX,
    ensures
        run(xs, sort_steps(xs.len(), k)).len() == xs.len(),
        run(xs, sort_steps(xs.len(), k)).to_multiset() == xs.to_multiset(),
        forall|i: int, j: int|
            0 <= i < j < min_int(k as int, xs.len() as int) ==> run(xs, sort_steps(xs.len(), k))[i]
                <= run(xs, sort_steps(xs.len(), k))[j],
        forall|i: int, j: int|
            0 <= i < min_int(k as int, xs.len() as int) && min_int(k as int, xs.len() as int) <= j
                < xs.len() ==> run(xs, sort_steps(xs.len(), k))[i] <= run(
                xs,
                sort_steps(xs.len(), k),
            )[j],
{
    let n = xs.len() as int;
    let out = run(xs, sort_steps(xs.len(), k));
    lemma_sort_ranked(xs, k, 0);
    lemma_range(0, n, xs.len());
    lemma_run_within(xs, range(0, n), sort_steps(xs.len(), k), 0);
    assert forall|x: u64| ranked(out, range(0, out.len() as int), min_int(k as int, n), x) by {
        lemma_sort_ranked(xs, k, x);
    }
    lemma_ranked_front(out, min_int(k as int, n));
}


/// A range in ascending order is fully ranked for every threshold.
pub proof fn lemma_sorted_ranked(s: Seq<u64>, lo: int, hi: int, x: u64)
    requires
        0 <= lo <= hi <= s.len(),
        s.len() <= usize::MAX,
        forall|i: int, j: int| lo <= i < j < hi ==> s[i] <= s[j],
    ensures
        ranked(s, range(lo, hi), hi - lo, x),
    decreases hi - lo,
{
    if hi > lo {
        let p = range(lo, hi);
        let q = range(lo, hi - 1);
        assert(p.drop_last() =~= q);
        assert(p.last() == hi - 1);
        lemma_sorted_ranked(s, lo, hi - 1, x);
        lemma_cnt_bound(s, q, x);
        assert forall|t: int| 0 <= t < hi - lo implies (s[(#[trigger] p[t]) as int] <= x <==> t < cnt(
            s,
            p,
            x,
        )) by {
            if t < hi - lo - 1 {
                assert(q[t] == p[t]);
                assert(s[q[t] as int] <= x <==> t < cnt(s, q, x));
                assert(s[lo + t] <= s[hi - 1]);
            } else if s[hi - 1] <= x && hi - lo >= 2 {
                assert(s[q[hi - lo - 2] as int] <= x <==> hi - lo - 2 < cnt(s, q, x));
                assert(s[hi - 2] <= s[hi - 1]);
            }
        }
    }
}

/// Soundness of one truncated merge: where both halves of a buffer are in
/// ascending order, the schedule `halves_merge_steps(n, k)` leaves a
/// permutation of the items whose first `min(k, n)` slots hold the smallest
/// items in ascending order.
#[verifier::rlimit(60)]
pub proof fn lemma_merge_top_k(xs: Seq<u64>, k: nat)
    requires
        xs.len() <= usize::MAX,
        forall|i: int, j: int| 0 <= i < j < xs.len() as int / 2 ==> xs[i] <= xs[j],
        forall|i: int, j: int| xs.len() as int / 2 <= i < j < xs.len() ==> xs[i] <= xs[j],
    ensures
        run(xs, halves_merge_steps(xs.len(), k)).len() == xs.len(),
        run(xs, halves_merge_steps(xs.len(), k)).to_multiset() == xs.to_multiset(),
        forall|i: int, j: int|
            0 <= i < j < min_int(k as int, xs.len() as int) ==> run(
                xs,
                halves_merge_steps(xs.len(), k),
            )[i] <= run(xs, halves_merge_steps(xs.len(), k))[j],
        forall|i: int, j: int|
            0 <= i < min_int(k as int, xs.len() as int) && min_int(k as int, xs.len() as int) <= j
                < xs.len() ==> run(xs, halves_merge_steps(xs.len(), k))[i] <= run(
                xs,
                halves_merge_steps(xs.len(), k),
            )[j],
{
    let n = xs.len() as int;
    let mid = n / 2;
    let steps = halves_merge_steps(xs.len(), k);
    let out = run(xs, steps);
    lemma_range(0, n, xs.len());
    assert forall|x: u64| ranked(out, range(0, n), min_int(k as int, n), x) && within(
        steps,
        range(0, n),
    ) by {
        lemma_sorted_ranked(xs, 0, mid, x);
        lemma_sorted_ranked(xs, mid, n, x);
        lemma_merge_ranges(xs, 0, mid, n, k, x);
    }
    assert(within(steps, range(0, n))) by {
        assert(ranked(out, range(0, n), min_int(k as int, n), 0) && within(steps, range(0, n)));
    }
    lemma_run_within(xs, range(0, n), steps, 0);
    lemma_ranked_front(out, min_int(k as int, n));
}

/// The sorter on a buffer of clear integers: once `sort` has added its
/// schedule to the trace of a well-formed buffer, the buffer holds a
/// permutation of what it held before, with the `min(k, n)` smallest items
/// in its first slots, in ascending order.
pub proof fn lemma_clear_sort(before: ClearCmp, after: ClearCmp, k: nat)
    requires
        before.wf(),
        after.wf(),
        before.items().len() <= usize::MAX,
        after.origin() == before.origin(),
        after.trace() == before.trace() + sort_steps(before.items().len(), k),
    ensures
        after.items() == run(before.items(), sort_steps(before.items().len(), k)),
        after.items().len() == before.items().len(),
        after.items().to_multiset() == before.items().to_multiset(),
        forall|i: int, j: int|
            0 <= i < j < min_int(k as int, after.items().len() as int) ==> after.items()[i]
                <= after.items()[j],
        forall|i: int, j: int|
            0 <= i < min_int(k as int, after.items().len() as int) && min_int(
                k as int,
                after.items().len() as int,
            ) <= j < after.items().len() ==> after.items()[i] <= after.items()[j],
{
    before.lemma_items();
    after.lemma_items();
    lemma_run_concat(before.origin(), before.trace(), sort_steps(before.items().len(), k));
    lemma_sort_top_k(before.items(), k);
}

/// Obliviousness of the sorter: two sorts of buffers of one length for one
/// `k` add the same schedule to their traces, and so the same number of
/// compare-exchanges, whatever the buffers hold.
pub proof fn lemma_sort_oblivious(
    before_a: Seq<Step>,
    after_a: Seq<Step>,
    before_b: Seq<Step>,
    after_b: Seq<Step>,
    n: nat,
    k: nat,
)
    requires
        after_a == before_a + sort_steps(n, k),
        after_b == before_b + sort_steps(n, k),
    ensures
        after_a.subrange(before_a.len() as int, after_a.len() as int) == after_b.subrange(
            before_b.len() as int,
            after_b.len() as int,
        ),
        compares(after_a) - compares(before_a) == compares(after_b) - compares(before_b),
        compares(after_a) - compares(before_a) == compares(sort_steps(n, k)),
{
    lemma_run_concat(Seq::empty(), before_a, sort_steps(n, k));
    lemma_run_concat(Seq::empty(), before_b, sort_steps(n, k));
    assert(after_a.subrange(before_a.len() as int, after_a.len() as int) =~= sort_steps(n, k));
    assert(after_b.subrange(before_b.len() as int, after_b.len() as int) =~= sort_steps(n, k));
}

} // verus!
