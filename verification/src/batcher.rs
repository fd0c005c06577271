use crate::comparator::{counted, enc_reach, Cmp, EncCmp, EncItem, Step};
use crate::server::KnnServer;
use vstd::prelude::*;

verus! {

/// The slots at the even places of an index list: places 0, 2, 4, ...
pub open spec fn evens(ix: Seq<usize>) -> Seq<usize> {
    Seq::new(((ix.len() + 1) / 2) as nat, |t: int| ix[2 * t])
}

/// The slots at the odd places of an index list: places 1, 3, 5, ...
pub open spec fn odds(ix: Seq<usize>) -> Seq<usize> {
    Seq::new((ix.len() / 2) as nat, |t: int| ix[2 * t + 1])
}

/// The slots `lo, lo + 1, ..., hi - 1`.
pub open spec fn range(lo: int, hi: int) -> Seq<usize> {
    Seq::new((hi - lo) as nat, |t: int| (lo + t) as usize)
}

/// Every slot of the list lies below `n`, and no slot occurs twice.
#[verifier::opaque]
pub open spec fn slots_ok(ix: Seq<usize>, n: nat) -> bool {
    &&& forall|t: int| 0 <= t < ix.len() ==> (#[trigger] ix[t]) < n
    &&& forall|t: int, u: int| 0 <= t < u < ix.len() ==> ix[t] != ix[u]
}

/// Number of places at which the two interleaved sub-results of a merge meet:
/// half the even slots plus half the odd slots, one less when both counts are even.
pub open spec fn link_count(n_even: nat, n_odd: nat) -> nat {
    if n_even % 2 == 0 && n_odd % 2 == 0 {
        if n_even / 2 + n_odd / 2 >= 1 {
            (n_even / 2 + n_odd / 2 - 1) as nat
        } else {
            0
        }
    } else {
        n_even / 2 + n_odd / 2
    }
}

/// The compare-exchanges that join the merged odd slots to the merged even
/// slots, for the places `1..=w`: place `v` joins `odd_all[v - 1]` (output rank
/// `2v - 1`) with `even_all[v]` (output rank `2v`), and is left out when both
/// ranks lie at or beyond `len`.
pub open spec fn link_steps(odd_all: Seq<usize>, even_all: Seq<usize>, len: nat, w: nat) -> Seq<Step>
    decreases w,
{
    if w == 0 {
        Seq::empty()
    } else {
        let before = link_steps(odd_all, even_all, len, (w - 1) as nat);
        if w <= len / 2 {
            before.push(Step::Compare(odd_all[w - 1], even_all[w as int]))
        } else {
            before
        }
    }
}

/// The exchanges of the first `pairs` neighbouring pairs of `jx`:
/// `(jx[0], jx[1]), (jx[2], jx[3]), ...`
pub open spec fn realign_steps(jx: Seq<usize>, pairs: nat) -> Seq<Step>
    decreases pairs,
{
    if pairs == 0 {
        Seq::empty()
    } else {
        realign_steps(jx, (pairs - 1) as nat).push(
            Step::Swap(jx[2 * (pairs - 1)], jx[2 * (pairs - 1) + 1]),
        )
    }
}

/// Odd-even merge of the sorted runs held in slots `ix` and `jx`, of which
/// only the first `len` output ranks are wanted. The output order of the slots
/// is `ix` followed by `jx`.
///
/// The even places of both runs are merged among themselves, and so are the
/// odd places; then the two results are linked place by place and, behind a
/// first run of odd length, the second run is realigned. The odd places supply
/// the `len / 2` odd ranks below `len`. The even places supply the even ranks
/// below `len` and, for the last link, the one after them: `len / 2 + 1` in all.
#[verifier::opaque]
pub open spec fn merge_core(ix: Seq<usize>, jx: Seq<usize>, len: nat) -> Seq<Step>
    decreases ix.len() + jx.len(),
{
    if ix.len() == 0 || jx.len() == 0 {
        Seq::empty()
    } else if ix.len() == 1 && jx.len() == 1 {
        seq![Step::Compare(ix[0], jx[0])]
    } else {
        let even_all = evens(ix) + evens(jx);
        let odd_all = odds(ix) + odds(jx);
        merge_core(evens(ix), evens(jx), len / 2 + 1) + merge_core(odds(ix), odds(jx), len / 2)
            + link_steps(odd_all, even_all, len, link_count(even_all.len(), odd_all.len()))
            + if ix.len() % 2 == 1 {
            realign_steps(jx, jx.len() / 2)
        } else {
            Seq::empty()
        }
    }
}

/// The schedule of a merge with an empty run, of two single slots, and of
/// longer runs.
pub proof fn lemma_merge_core_unfold(ix: Seq<usize>, jx: Seq<usize>, len: nat)
    ensures
        ix.len() == 0 || jx.len() == 0 ==> merge_core(ix, jx, len) == Seq::<Step>::empty(),
        ix.len() == 1 && jx.len() == 1 ==> merge_core(ix, jx, len) == seq![
            Step::Compare(ix[0], jx[0]),
        ],
        ix.len() >= 1 && jx.len() >= 1 && ix.len() + jx.len() >= 3 ==> merge_core(ix, jx, len)
            == merge_core(evens(ix), evens(jx), len / 2 + 1) + merge_core(
            odds(ix),
            odds(jx),
            len / 2,
        ) + link_steps(
            odds(ix) + odds(jx),
            evens(ix) + evens(jx),
            len,
            link_count((evens(ix) + evens(jx)).len(), (odds(ix) + odds(jx)).len()),
        ) + if ix.len() % 2 == 1 {
            realign_steps(jx, jx.len() / 2)
        } else {
            Seq::empty()
        },
{
    reveal(merge_core);
}

/// The first `len` slots of an index list, or all of it when it is shorter.
pub open spec fn prefix(ix: Seq<usize>, len: nat) -> Seq<usize> {
    if len < ix.len() {
        ix.subrange(0, len as int)
    } else {
        ix
    }
}

/// Merge truncated to `len` outputs: beyond its first `len` slots neither run
/// can contribute, so both are cut there before the odd-even merge.
pub open spec fn merge_steps(ix: Seq<usize>, jx: Seq<usize>, len: nat) -> Seq<Step> {
    merge_core(prefix(ix, len), prefix(jx, len), len)
}

/// Recursive sort of the slots `lo..hi`: split into halves of sizes
/// `floor(n / 2)` and `ceil(n / 2)`, sort each, merge with output length `k`.
pub open spec fn sort_rec_steps(lo: int, hi: int, k: nat) -> Seq<Step>
    decreases hi - lo,
{
    if hi - lo <= 1 {
        Seq::empty()
    } else {
        let mid = lo + (hi - lo) / 2;
        sort_rec_steps(lo, mid, k) + sort_rec_steps(mid, hi, k) + merge_steps(
            range(lo, mid),
            range(mid, hi),
            k,
        )
    }
}

/// How far `b` lies below `a`; 0 when it does not.
pub open spec fn gap(a: int, b: int) -> nat {
    if a > b {
        (a - b) as nat
    } else {
        0
    }
}

/// Smallest power of two that is at least `k`, with `from` a power of two
/// to start the search at.
pub open spec fn pow2_from(from: nat, k: nat) -> nat
    decreases gap(k as int, from as int),
{
    if 0 < from < k {
        pow2_from(2 * from, k)
    } else {
        from
    }
}

/// Size of the chunks that are sorted on their own before the tournament:
/// 2 for `k <= 1`, else the smallest power of two that is at least `k`.
pub open spec fn chunk_size(k: nat) -> nat {
    if k <= 1 {
        2
    } else {
        pow2_from(2, k)
    }
}

/// The smaller of two integers.
pub open spec fn min_int(a: int, b: int) -> int {
    if a <= b {
        a
    } else {
        b
    }
}

/// Sorting of the chunks `lo..lo+size`, `lo+size..lo+2*size`, ... of `0..n`;
/// the last chunk may be shorter.
pub open spec fn chunks_steps(n: int, k: nat, size: int, lo: int) -> Seq<Step>
    decreases gap(n, lo),
{
    if lo >= n || size <= 0 {
        Seq::empty()
    } else {
        sort_rec_steps(lo, min_int(lo + size, n), k) + chunks_steps(n, k, size, lo + size)
    }
}

/// One round of the tournament: each chunk of `size` slots that starts at
/// `lo, lo + 2*size, ...` is merged with its right neighbour, if it has one,
/// with output length `min(k, |A| + |B|)`.
pub open spec fn round_steps(n: int, k: nat, size: int, lo: int) -> Seq<Step>
    decreases gap(n, lo),
{
    if lo + size >= n || size <= 0 {
        Seq::empty()
    } else {
        let hi = min_int(lo + 2 * size, n);
        merge_steps(range(lo, lo + size), range(lo + size, hi), min_int(k as int, hi - lo) as nat)
            + round_steps(n, k, size, lo + 2 * size)
    }
}

/// The rounds of the tournament, with chunks of `size`, `2*size`, ... slots,
/// until one chunk covers `0..n`.
pub open spec fn tournament_steps(n: int, k: nat, size: int) -> Seq<Step>
    decreases gap(n, size),
{
    if size >= n || size <= 0 {
        Seq::empty()
    } else {
        round_steps(n, k, size, 0) + tournament_steps(n, k, 2 * size)
    }
}

/// The whole schedule of a top-`k` sort of `n` slots. It is a function of
/// `n` and `k` alone.
pub open spec fn sort_steps(n: nat, k: nat) -> Seq<Step> {
    chunks_steps(n as int, k, chunk_size(k) as int, 0) + tournament_steps(
        n as int,
        k,
        chunk_size(k) as int,
    )
}

/// The schedule of one merge of the two halves `0..n/2` and `n/2..n`.
pub open spec fn halves_merge_steps(n: nat, k: nat) -> Seq<Step> {
    merge_steps(range(0, n as int / 2), range(n as int / 2, n as int), k)
}

/// The even places and the odd places of two runs without repeated slots
/// have no repeated slots.
#[verifier::rlimit(60)]
pub proof fn lemma_slots_parts(ix: Seq<usize>, jx: Seq<usize>, n: nat)
    requires
        slots_ok(ix + jx, n),
    ensures
        slots_ok(evens(ix) + evens(jx), n),
        slots_ok(odds(ix) + odds(jx), n),
{
    reveal(slots_ok);
    let all = ix + jx;
    let ea = evens(ix) + evens(jx);
    let oa = odds(ix) + odds(jx);
    let ne = evens(ix).len() as int;
    let no = odds(ix).len() as int;
    let nx = ix.len() as int;
    // where each place of the even and of the odd list sits in `ix + jx`
    let pe = |t: int| if t < ne { 2 * t } else { nx + 2 * (t - ne) };
    let po = |t: int| if t < no { 2 * t + 1 } else { nx + 2 * (t - no) + 1 };
    assert forall|t: int| 0 <= t < ea.len() implies 0 <= pe(t) < all.len() && ea[t] == all[pe(t)] by {}
    assert forall|t: int| 0 <= t < oa.len() implies 0 <= po(t) < all.len() && oa[t] == all[po(t)] by {}
    assert forall|t: int| 0 <= t < ea.len() implies (#[trigger] ea[t]) < n by {
        assert(ea[t] == all[pe(t)]);
    }
    assert forall|t: int| 0 <= t < oa.len() implies (#[trigger] oa[t]) < n by {
        assert(oa[t] == all[po(t)]);
    }
    assert forall|t: int, u: int| 0 <= t < u < ea.len() implies ea[t] != ea[u] by {
        assert(ea[t] == all[pe(t)] && ea[u] == all[pe(u)]);
        assert(pe(t) < pe(u));
    }
    assert forall|t: int, u: int| 0 <= t < u < oa.len() implies oa[t] != oa[u] by {
        assert(oa[t] == all[po(t)] && oa[u] == all[po(u)]);
        assert(po(t) < po(u));
    }
}

/// The two slots that the link at place `w` joins are different slots of the buffer.
#[verifier::rlimit(60)]
pub proof fn lemma_slots_link(ix: Seq<usize>, jx: Seq<usize>, n: nat, w: int)
    requires
        slots_ok(ix + jx, n),
        1 <= w <= (odds(ix) + odds(jx)).len(),
        w < (evens(ix) + evens(jx)).len(),
    ensures
        (odds(ix) + odds(jx))[w - 1] < n,
        (evens(ix) + evens(jx))[w] < n,
        (odds(ix) + odds(jx))[w - 1] != (evens(ix) + evens(jx))[w],
{
    reveal(slots_ok);
    let all = ix + jx;
    let ne = evens(ix).len() as int;
    let no = odds(ix).len() as int;
    let nx = ix.len() as int;
    let pe = if w < ne { 2 * w } else { nx + 2 * (w - ne) };
    let po = if w - 1 < no { 2 * (w - 1) + 1 } else { nx + 2 * (w - 1 - no) + 1 };
    assert((evens(ix) + evens(jx))[w] == all[pe]);
    assert((odds(ix) + odds(jx))[w - 1] == all[po]);
    assert(pe != po);
    if pe < po {
        assert(all[pe] != all[po]);
    } else {
        assert(all[po] != all[pe]);
    }
}

/// A slot of the first run and a slot of the second are different slots of
/// the buffer.
pub proof fn lemma_slots_at(ix: Seq<usize>, jx: Seq<usize>, n: nat, t: int, u: int)
    requires
        slots_ok(ix + jx, n),
        0 <= t < ix.len(),
        0 <= u < jx.len(),
    ensures
        ix[t] < n,
        jx[u] < n,
        ix[t] != jx[u],
{
    reveal(slots_ok);
    let all = ix + jx;
    assert(ix[t] == all[t]);
    assert(jx[u] == all[ix.len() + u]);
}

/// Cutting both runs leaves no repeated slots.
#[verifier::rlimit(60)]
pub proof fn lemma_slots_prefix(ix: Seq<usize>, jx: Seq<usize>, len: nat, n: nat)
    requires
        slots_ok(ix + jx, n),
    ensures
        slots_ok(prefix(ix, len) + prefix(jx, len), n),
{
    reveal(slots_ok);
    let all = ix + jx;
    let a = prefix(ix, len);
    let b = prefix(jx, len);
    let c = a + b;
    let nx = ix.len() as int;
    let pos = |t: int| if t < a.len() { t } else { nx + (t - a.len()) };
    assert forall|t: int| 0 <= t < c.len() implies 0 <= pos(t) < all.len() && c[t] == all[pos(t)] by {}
    assert forall|t: int| 0 <= t < c.len() implies (#[trigger] c[t]) < n by {
        assert(c[t] == all[pos(t)]);
    }
    assert forall|t: int, u: int| 0 <= t < u < c.len() implies c[t] != c[u] by {
        assert(c[t] == all[pos(t)] && c[u] == all[pos(u)]);
        assert(pos(t) < pos(u));
    }
}

/// Two neighbouring ranges have no repeated slots.
pub proof fn lemma_slots_ranges(lo: int, mid: int, hi: int, n: nat)
    requires
        0 <= lo <= mid <= hi <= n,
        n <= usize::MAX,
    ensures
        slots_ok(range(lo, mid) + range(mid, hi), n),
{
    reveal(slots_ok);
    let c = range(lo, mid) + range(mid, hi);
    assert forall|t: int| 0 <= t < c.len() implies c[t] == lo + t by {}
}

fn evens_of(ix: &Vec<usize>) -> (out: Vec<usize>)
    ensures
        out@ == evens(ix@),
{
    let n = ix.len();
    let m = n / 2 + n % 2;
    let mut out: Vec<usize> = Vec::new();
    let mut t: usize = 0;
    while t < m
        invariant
            n == ix.len(),
            m == (n + 1) / 2,
            t <= m,
            out@.len() == t,
            forall|u: int| 0 <= u < t ==> out@[u] == ix@[2 * u],
        decreases m - t,
    {
        out.push(ix[2 * t]);
        t += 1;
    }
    assert(out@ =~= evens(ix@));
    out
}

fn odds_of(ix: &Vec<usize>) -> (out: Vec<usize>)
    ensures
        out@ == odds(ix@),
{
    let n = ix.len();
    let m = n / 2;
    let mut out: Vec<usize> = Vec::new();
    let mut t: usize = 0;
    while t < m
        invariant
            n == ix.len(),
            m == n / 2,
            t <= m,
            out@.len() == t,
            forall|u: int| 0 <= u < t ==> out@[u] == ix@[2 * u + 1],
        decreases m - t,
    {
        out.push(ix[2 * t + 1]);
        t += 1;
    }
    assert(out@ =~= odds(ix@));
    out
}

fn joined(a: &Vec<usize>, b: &Vec<usize>) -> (out: Vec<usize>)
    ensures
        out@ == a@ + b@,
{
    let mut out: Vec<usize> = Vec::new();
    let mut t: usize = 0;
    while t < a.len()
        invariant
            t <= a.len(),
            out@ == a@.subrange(0, t as int),
        decreases a.len() - t,
    {
        out.push(a[t]);
        assert(out@ =~= a@.subrange(0, t + 1));
        t += 1;
    }
    assert(a@.subrange(0, a.len() as int) =~= a@);
    let mut u: usize = 0;
    while u < b.len()
        invariant
            u <= b.len(),
            out@ == a@ + b@.subrange(0, u as int),
        decreases b.len() - u,
    {
        out.push(b[u]);
        assert(out@ =~= a@ + b@.subrange(0, u + 1));
        u += 1;
    }
    assert(b@.subrange(0, b.len() as int) =~= b@);
    out
}

fn prefix_of(ix: &Vec<usize>, len: usize) -> (out: Vec<usize>)
    ensures
        out@ == prefix(ix@, len as nat),
{
    let m = if len < ix.len() { len } else { ix.len() };
    let mut out: Vec<usize> = Vec::new();
    let mut t: usize = 0;
    while t < m
        invariant
            t <= m <= ix.len(),
            out@ == ix@.subrange(0, t as int),
        decreases m - t,
    {
        out.push(ix[t]);
        assert(out@ =~= ix@.subrange(0, t + 1));
        t += 1;
    }
    assert(ix@.subrange(0, ix.len() as int) =~= ix@);
    out
}

fn range_of(lo: usize, hi: usize) -> (out: Vec<usize>)
    requires
        lo <= hi,
    ensures
        out@ == range(lo as int, hi as int),
{
    let mut out: Vec<usize> = Vec::new();
    let mut t: usize = lo;
    while t < hi
        invariant
            lo <= t <= hi,
            out@ == range(lo as int, t as int),
        decreases hi - t,
    {
        out.push(t);
        assert(out@ =~= range(lo as int, t + 1));
        t += 1;
    }
    out
}

/// The chunk size for a top-`k` sort, or `None` when it does not fit in a `usize`.
fn chunk_size_of(k: usize) -> (size: Option<usize>)
    ensures
        size matches Some(s) ==> s == chunk_size(k as nat) && s >= 2,
        size is None ==> chunk_size(k as nat) > usize::MAX,
{
    if k <= 1 {
        return Some(2);
    }
    let mut from: usize = 2;
    while from < k
        invariant
            from >= 2,
            pow2_from(from as nat, k as nat) == pow2_from(2, k as nat),
        decreases gap(k as int, from as int),
    {
        if from > usize::MAX / 2 {
            proof {
                lemma_pow2_from_grows((2 * from) as nat, k as nat);
            }
            return None;
        }
        from = 2 * from;
    }
    Some(from)
}

/// The search for a power of two never goes below its start.
pub proof fn lemma_pow2_from_grows(from: nat, k: nat)
    ensures
        pow2_from(from, k) >= from,
    decreases gap(k as int, from as int),
{
    if 0 < from < k {
        lemma_pow2_from_grows(2 * from, k);
    }
}

/// An oblivious top-`k` sorter over a comparator buffer: Batcher's odd-even
/// merge sort, cut down to the compare-exchanges that the first `k` output
/// slots depend on.
pub struct BatcherSort<C: Cmp> {
    vs: C,
    k: usize,
}

impl<C: Cmp> BatcherSort<C> {
    /// The comparator buffer under sort.
    pub closed spec fn buffer(&self) -> C {
        self.vs
    }

    /// How many of the smallest items are wanted.
    pub closed spec fn k(&self) -> nat {
        self.k as nat
    }

    /// A sorter that fully sorts the buffer.
    pub fn new(vs: Box<C>) -> (s: Self)
        ensures
            s.buffer() == *vs,
            s.k() == vs.items().len(),
    {
        let k = vs.len();
        Self { vs: *vs, k }
    }

    /// A sorter that brings the `k` smallest items to the front.
    pub fn new_k(vs: Box<C>, k: usize) -> (s: Self)
        ensures
            s.buffer() == *vs,
            s.k() == k,
    {
        Self { vs: *vs, k }
    }

    pub fn inner(&self) -> (items: &[C::Item])
        ensures
            items@ == self.buffer().items(),
    {
        self.vs.inner()
    }

    /// Gives the buffer back.
    pub fn into_inner(self) -> (vs: C)
        ensures
            vs == self.buffer(),
    {
        self.vs
    }

    /// Number of compare-exchanges performed on the buffer so far.
    pub fn comparisons(&self) -> (n: usize)
        requires
            self.buffer().wf(),
        ensures
            n == crate::comparator::counted(self.buffer().trace()),
    {
        self.vs.cmp_count()
    }

    fn compare_at(&mut self, i: usize, j: usize)
        requires
            old(self).vs.wf(),
            i < old(self).vs.items().len(),
            j < old(self).vs.items().len(),
            i != j,
        ensures
            final(self).vs.wf(),
            final(self).k == old(self).k,
            final(self).vs.origin() == old(self).vs.origin(),
            final(self).vs.items().len() == old(self).vs.items().len(),
            final(self).vs.trace() == old(self).vs.trace().push(Step::Compare(i, j)),
    {
        self.vs.cmp_at(i, j);
    }

    /// Joins the merged odd slots to the merged even slots.
    #[verifier::rlimit(60)]
    fn link(&mut self, ix: &Vec<usize>, jx: &Vec<usize>, len: usize)
        requires
            old(self).vs.wf(),
            slots_ok(ix@ + jx@, old(self).vs.items().len()),
            ix@.len() >= 1,
            jx@.len() >= 1,
        ensures
            final(self).vs.wf(),
            final(self).k == old(self).k,
            final(self).vs.origin() == old(self).vs.origin(),
            final(self).vs.items().len() == old(self).vs.items().len(),
            final(self).vs.trace() == old(self).vs.trace() + link_steps(
                odds(ix@) + odds(jx@),
                evens(ix@) + evens(jx@),
                len as nat,
                link_count((evens(ix@) + evens(jx@)).len(), (odds(ix@) + odds(jx@)).len()),
            ),
    {
        let ghost t2 = self.vs.trace();
        let ghost n = self.vs.items().len();
        let even_all = joined(&evens_of(ix), &evens_of(jx));
        let odd_all = joined(&odds_of(ix), &odds_of(jx));
        let n_even = even_all.len();
        let n_odd = odd_all.len();
        let w_max = if n_even % 2 == 0 && n_odd % 2 == 0 {
            n_even / 2 + n_odd / 2 - 1
        } else {
            n_even / 2 + n_odd / 2
        };
        assert(w_max == link_count(n_even as nat, n_odd as nat));
        assert(w_max <= n_odd && w_max < n_even);
        assert(t2 + Seq::<Step>::empty() =~= t2);
        let mut w: usize = 1;
        while w <= w_max
            invariant
                1 <= w <= w_max + 1,
                w_max <= n_odd,
                w_max < n_even,
                n_even == even_all@.len(),
                n_odd == odd_all@.len(),
                even_all@ == evens(ix@) + evens(jx@),
                odd_all@ == odds(ix@) + odds(jx@),
                slots_ok(ix@ + jx@, n),
                self.vs.wf(),
                self.k == old(self).k,
                self.vs.origin() == old(self).vs.origin(),
                self.vs.items().len() == n,
                self.vs.trace() == t2 + link_steps(
                    odd_all@,
                    even_all@,
                    len as nat,
                    (w - 1) as nat,
                ),
            decreases w_max + 1 - w,
        {
            let ghost before = link_steps(odd_all@, even_all@, len as nat, (w - 1) as nat);
            if w <= len / 2 {
                proof {
                    lemma_slots_link(ix@, jx@, n, w as int);
                }
                self.compare_at(odd_all[w - 1], even_all[w]);
                assert((t2 + before).push(Step::Compare(odd_all@[w - 1], even_all@[w as int])) =~= t2
                    + before.push(Step::Compare(odd_all@[w - 1], even_all@[w as int])));
            }
            w += 1;
        }
    }

    /// Exchanges the neighbouring pairs of `jx`.
    #[verifier::rlimit(60)]
    fn realign(&mut self, ix: &Vec<usize>, jx: &Vec<usize>)
        requires
            old(self).vs.wf(),
            slots_ok(ix@ + jx@, old(self).vs.items().len()),
            ix@.len() >= 1,
        ensures
            final(self).vs.wf(),
            final(self).k == old(self).k,
            final(self).vs.origin() == old(self).vs.origin(),
            final(self).vs.items().len() == old(self).vs.items().len(),
            final(self).vs.trace() == old(self).vs.trace() + realign_steps(jx@, jx@.len() / 2),
    {
        let ghost t3 = self.vs.trace();
        let ghost n = self.vs.items().len();
        let ny = jx.len();
        assert(t3 + Seq::<Step>::empty() =~= t3);
        let mut p: usize = 0;
        while p < ny / 2
            invariant
                p <= ny / 2,
                ny == jx@.len(),
                ix@.len() >= 1,
                slots_ok(ix@ + jx@, n),
                self.vs.wf(),
                self.k == old(self).k,
                self.vs.origin() == old(self).vs.origin(),
                self.vs.items().len() == n,
                self.vs.trace() == t3 + realign_steps(jx@, p as nat),
            decreases ny / 2 - p,
        {
            let ghost before = realign_steps(jx@, p as nat);
            proof {
                lemma_slots_at(ix@, jx@, n, 0, 2 * p);
                lemma_slots_at(ix@, jx@, n, 0, 2 * p + 1);
            }
            self.vs.swap(jx[2 * p], jx[2 * p + 1]);
            assert((t3 + before).push(Step::Swap(jx@[2 * p], jx@[2 * p + 1])) =~= t3 + before.push(
                Step::Swap(jx@[2 * p], jx@[2 * p + 1]),
            ));
            p += 1;
        }
    }

    #[verifier::rlimit(60)]
    fn merge_core(&mut self, ix: &Vec<usize>, jx: &Vec<usize>, len: usize)
        requires
            old(self).vs.wf(),
            slots_ok(ix@ + jx@, old(self).vs.items().len()),
        ensures
            final(self).vs.wf(),
            final(self).k == old(self).k,
            final(self).vs.origin() == old(self).vs.origin(),
            final(self).vs.items().len() == old(self).vs.items().len(),
            final(self).vs.trace() == old(self).vs.trace() + merge_core(ix@, jx@, len as nat),
        decreases ix.len() + jx.len(),
    {
        let ghost t0 = self.vs.trace();
        let ghost n = self.vs.items().len();
        let nx = ix.len();
        let ny = jx.len();
        proof {
            lemma_merge_core_unfold(ix@, jx@, len as nat);
        }
        if nx == 0 || ny == 0 {
            assert(t0 + Seq::<Step>::empty() =~= t0);
            return ;
        }
        proof {
            lemma_slots_parts(ix@, jx@, n);
            lemma_slots_at(ix@, jx@, n, 0, 0);
        }
        if nx == 1 && ny == 1 {
            self.compare_at(ix[0], jx[0]);
            assert(t0.push(Step::Compare(ix@[0], jx@[0])) =~= t0 + seq![Step::Compare(ix@[0], jx@[0])]);
            return ;
        }
        let even_ix = evens_of(ix);
        let even_jx = evens_of(jx);
        let odd_ix = odds_of(ix);
        let odd_jx = odds_of(jx);
        self.merge_core(&even_ix, &even_jx, len / 2 + 1);
        self.merge_core(&odd_ix, &odd_jx, len / 2);
        self.link(ix, jx, len);
        let ghost t3 = self.vs.trace();
        if nx % 2 == 1 {
            self.realign(ix, jx);
        } else {
            assert(t3 + Seq::<Step>::empty() =~= t3);
        }
        proof {
            let m1 = merge_core(evens(ix@), evens(jx@), (len / 2 + 1) as nat);
            let m2 = merge_core(odds(ix@), odds(jx@), (len / 2) as nat);
            let m3 = link_steps(
                odds(ix@) + odds(jx@),
                evens(ix@) + evens(jx@),
                len as nat,
                link_count((evens(ix@) + evens(jx@)).len(), (odds(ix@) + odds(jx@)).len()),
            );
            let m4 = if ix@.len() % 2 == 1 {
                realign_steps(jx@, jx@.len() / 2)
            } else {
                Seq::empty()
            };
            assert(self.vs.trace() == t0 + m1 + m2 + m3 + m4);
            assert(t0 + m1 + m2 + m3 + m4 =~= t0 + (m1 + m2 + m3 + m4));
            assert(merge_core(ix@, jx@, len as nat) == m1 + m2 + m3 + m4);
        }
    }

    fn merge_rec(&mut self, ix: &Vec<usize>, jx: &Vec<usize>, len: usize)
        requires
            old(self).vs.wf(),
            slots_ok(ix@ + jx@, old(self).vs.items().len()),
        ensures
            final(self).vs.wf(),
            final(self).k == old(self).k,
            final(self).vs.origin() == old(self).vs.origin(),
            final(self).vs.items().len() == old(self).vs.items().len(),
            final(self).vs.trace() == old(self).vs.trace() + merge_steps(ix@, jx@, len as nat),
    {
        let a = prefix_of(ix, len);
        let b = prefix_of(jx, len);
        proof {
            lemma_slots_prefix(ix@, jx@, len as nat, self.vs.items().len());
        }
        self.merge_core(&a, &b, len);
    }

    #[verifier::rlimit(60)]
    fn sort_rec(&mut self, lo: usize, hi: usize)
        requires
            old(self).vs.wf(),
            lo <= hi <= old(self).vs.items().len(),
        ensures
            final(self).vs.wf(),
            final(self).k == old(self).k,
            final(self).vs.origin() == old(self).vs.origin(),
            final(self).vs.items().len() == old(self).vs.items().len(),
            final(self).vs.trace() == old(self).vs.trace() + sort_rec_steps(
                lo as int,
                hi as int,
                old(self).k as nat,
            ),
        decreases hi - lo,
    {
        let ghost t0 = self.vs.trace();
        let n = self.vs.len();
        if hi - lo <= 1 {
            assert(t0 + Seq::<Step>::empty() =~= t0);
            return ;
        }
        let mid = lo + (hi - lo) / 2;
        self.sort_rec(lo, mid);
        self.sort_rec(mid, hi);
        let left = range_of(lo, mid);
        let right = range_of(mid, hi);
        proof {
            lemma_slots_ranges(lo as int, mid as int, hi as int, n as nat);
        }
        let k = self.k;
        self.merge_rec(&left, &right, k);
        proof {
            let s1 = sort_rec_steps(lo as int, mid as int, k as nat);
            let s2 = sort_rec_steps(mid as int, hi as int, k as nat);
            let s3 = merge_steps(range(lo as int, mid as int), range(mid as int, hi as int), k as nat);
            assert(t0 + s1 + s2 + s3 =~= t0 + (s1 + s2 + s3));
        }
    }

    #[verifier::rlimit(60)]
    fn sort_chunks(&mut self, size: usize)
        requires
            old(self).vs.wf(),
            size >= 1,
        ensures
            final(self).vs.wf(),
            final(self).k == old(self).k,
            final(self).vs.origin() == old(self).vs.origin(),
            final(self).vs.items().len() == old(self).vs.items().len(),
            final(self).vs.trace() == old(self).vs.trace() + chunks_steps(
                old(self).vs.items().len() as int,
                old(self).k as nat,
                size as int,
                0,
            ),
    {
        let ghost t0 = self.vs.trace();
        let n = self.vs.len();
        let ghost k = self.k as nat;
        let ghost goal = t0 + chunks_steps(n as int, k, size as int, 0);
        let mut lo: usize = 0;
        while lo < n
            invariant
                lo <= n,
                size >= 1,
                self.vs.wf(),
                self.k == k,
                self.vs.origin() == old(self).vs.origin(),
                self.vs.items().len() == n,
                self.vs.trace() + chunks_steps(n as int, k, size as int, lo as int) == goal,
            decreases n - lo,
        {
            let ghost cur = self.vs.trace();
            let hi = if size <= n - lo { lo + size } else { n };
            self.sort_rec(lo, hi);
            proof {
                let s1 = sort_rec_steps(lo as int, hi as int, k);
                let rest = chunks_steps(n as int, k, size as int, lo + size);
                assert(hi == min_int(lo + size, n as int));
                assert(cur + (s1 + rest) =~= cur + s1 + rest);
                if hi == n && lo + size > n {
                    assert(chunks_steps(n as int, k, size as int, n as int) =~= Seq::<Step>::empty());
                    assert(rest =~= Seq::<Step>::empty());
                }
            }
            lo = hi;
        }
        assert(self.vs.trace() + Seq::<Step>::empty() =~= self.vs.trace());
    }

    #[verifier::rlimit(60)]
    fn merge_round(&mut self, size: usize)
        requires
            old(self).vs.wf(),
            size >= 1,
        ensures
            final(self).vs.wf(),
            final(self).k == old(self).k,
            final(self).vs.origin() == old(self).vs.origin(),
            final(self).vs.items().len() == old(self).vs.items().len(),
            final(self).vs.trace() == old(self).vs.trace() + round_steps(
                old(self).vs.items().len() as int,
                old(self).k as nat,
                size as int,
                0,
            ),
    {
        let ghost t0 = self.vs.trace();
        let n = self.vs.len();
        let k = self.k;
        let ghost goal = t0 + round_steps(n as int, k as nat, size as int, 0);
        let mut lo: usize = 0;
        while size < n - lo
            invariant
                lo <= n,
                size >= 1,
                self.vs.wf(),
                self.k == k,
                self.vs.origin() == old(self).vs.origin(),
                self.vs.items().len() == n,
                self.vs.trace() + round_steps(n as int, k as nat, size as int, lo as int) == goal,
            decreases n - lo,
        {
            let ghost cur = self.vs.trace();
            let mid = lo + size;
            let hi = if size <= n - mid { mid + size } else { n };
            let left = range_of(lo, mid);
            let right = range_of(mid, hi);
            proof {
                lemma_slots_ranges(lo as int, mid as int, hi as int, n as nat);
            }
            let len = if k < hi - lo { k } else { hi - lo };
            self.merge_rec(&left, &right, len);
            proof {
                lemma_round_unfold(n as int, k as nat, size as int, lo as int);
                let s1 = merge_steps(left@, right@, len as nat);
                let rest = round_steps(n as int, k as nat, size as int, lo + 2 * size);
                assert(round_steps(n as int, k as nat, size as int, lo as int) == s1 + rest);
                assert(cur + (s1 + rest) =~= cur + s1 + rest);
                if hi != lo + 2 * size {
                    lemma_round_done(n as int, k as nat, size as int, lo + 2 * size);
                    lemma_round_done(n as int, k as nat, size as int, hi as int);
                }
            }
            lo = hi;
        }
        proof {
            lemma_round_done(n as int, k as nat, size as int, lo as int);
            assert(self.vs.trace() + Seq::<Step>::empty() =~= self.vs.trace());
        }
    }

    #[verifier::rlimit(60)]
    fn tournament(&mut self, size: usize)
        requires
            old(self).vs.wf(),
            size >= 1,
        ensures
            final(self).vs.wf(),
            final(self).k == old(self).k,
            final(self).vs.origin() == old(self).vs.origin(),
            final(self).vs.items().len() == old(self).vs.items().len(),
            final(self).vs.trace() == old(self).vs.trace() + tournament_steps(
                old(self).vs.items().len() as int,
                old(self).k as nat,
                size as int,
            ),
        decreases gap(old(self).vs.items().len() as int, size as int),
    {
        let ghost t0 = self.vs.trace();
        let n = self.vs.len();
        let ghost k = self.k as nat;
        if size >= n {
            assert(t0 + Seq::<Step>::empty() =~= t0);
            return ;
        }
        self.merge_round(size);
        let ghost t1 = self.vs.trace();
        if size <= n - size {
            self.tournament(2 * size);
        } else {
            assert(tournament_steps(n as int, k, 2 * size) =~= Seq::<Step>::empty());
            assert(t1 + Seq::<Step>::empty() =~= t1);
        }
        proof {
            let s1 = round_steps(n as int, k, size as int, 0);
            let s2 = tournament_steps(n as int, k, 2 * size);
            assert(t0 + s1 + s2 =~= t0 + (s1 + s2));
        }
    }

    /// Brings the `k` smallest items to the first `k` slots, in ascending
    /// order, by the schedule `sort_steps(n, k)`.
    pub fn sort(&mut self)
        requires
            old(self).buffer().wf(),
        ensures
            final(self).buffer().wf(),
            final(self).k() == old(self).k(),
            final(self).buffer().origin() == old(self).buffer().origin(),
            final(self).buffer().items().len() == old(self).buffer().items().len(),
            final(self).buffer().trace() == old(self).buffer().trace() + sort_steps(
                old(self).buffer().items().len(),
                old(self).k(),
            ),
    {
        let ghost t0 = self.vs.trace();
        let ghost n = self.vs.items().len();
        let ghost k = self.k as nat;
        match chunk_size_of(self.k) {
            Some(size) => {
                self.sort_chunks(size);
                self.tournament(size);
                proof {
                    let s1 = chunks_steps(n as int, k, size as int, 0);
                    let s2 = tournament_steps(n as int, k, size as int);
                    assert(t0 + s1 + s2 =~= t0 + (s1 + s2));
                }
            },
            None => {
                // one chunk holds every slot
                let len = self.vs.len();
                self.sort_rec(0, len);
                proof {
                    lemma_one_chunk(n as int, k, chunk_size(k) as int);
                }
            },
        }
    }

    /// Merges the two halves of the buffer, `0..n/2` and `n/2..n`, each
    /// already in ascending order, keeping the first `k` outputs.
    pub fn merge(&mut self)
        requires
            old(self).buffer().wf(),
        ensures
            final(self).buffer().wf(),
            final(self).k() == old(self).k(),
            final(self).buffer().origin() == old(self).buffer().origin(),
            final(self).buffer().items().len() == old(self).buffer().items().len(),
            final(self).buffer().trace() == old(self).buffer().trace() + halves_merge_steps(
                old(self).buffer().items().len(),
                old(self).k(),
            ),
    {
        let n = self.vs.len();
        let left = range_of(0, n / 2);
        let right = range_of(n / 2, n);
        proof {
            lemma_slots_ranges(0, n as int / 2, n as int, n as nat);
        }
        let k = self.k;
        self.merge_rec(&left, &right, k);
    }
}

/// A round that starts at a chunk without a right neighbour has no steps.
pub proof fn lemma_round_done(n: int, k: nat, size: int, lo: int)
    requires
        lo + size >= n,
    ensures
        round_steps(n, k, size, lo) == Seq::<Step>::empty(),
{
}

/// A round that starts at a chunk with a right neighbour merges the two and
/// goes on behind them.
pub proof fn lemma_round_unfold(n: int, k: nat, size: int, lo: int)
    requires
        lo + size < n,
        size >= 1,
    ensures
        round_steps(n, k, size, lo) == merge_steps(
            range(lo, lo + size),
            range(lo + size, min_int(lo + 2 * size, n)),
            min_int(k as int, min_int(lo + 2 * size, n) - lo) as nat,
        ) + round_steps(n, k, size, lo + 2 * size),
{
}

/// With chunks at least as long as the buffer there is one chunk and no tournament.
pub proof fn lemma_one_chunk(n: int, k: nat, size: int)
    requires
        0 <= n <= size,
        size >= 1,
    ensures
        chunks_steps(n, k, size, 0) + tournament_steps(n, k, size) == sort_rec_steps(0, n, k),
{
    assert(tournament_steps(n, k, size) =~= Seq::<Step>::empty());
    if n == 0 {
        assert(chunks_steps(n, k, size, 0) =~= Seq::<Step>::empty());
        assert(sort_rec_steps(0, n, k) =~= Seq::<Step>::empty());
    } else {
        assert(chunks_steps(n, k, size, size) =~= Seq::<Step>::empty());
        assert(min_int(0 + size, n) == n);
        assert(chunks_steps(n, k, size, 0) =~= sort_rec_steps(0, n, k));
    }
    assert(chunks_steps(n, k, size, 0) + tournament_steps(n, k, size) =~= sort_rec_steps(0, n, k));
}


/// Brings the `k` items with the smallest values to the front of a list of
/// encrypted items, in ascending order of value, by the schedule
/// `sort_steps(n, k)` on the server's comparator. Gives back the items, the
/// server and the number of compare-exchanges made. `None` exactly where an
/// item does not have the size and tags that the server's parameters ask for.
pub fn sort_top_k(server: KnnServer, items: Vec<EncItem>, k: usize) -> (res: Option<
    (Vec<EncItem>, KnnServer, usize),
>)
    requires
        server.wf(),
    ensures
        res is Some <==> forall|t: int| 0 <= t < items@.len() ==> (#[trigger] items@[t]).fits(server.params()),
        res matches Some(out) ==> {
            &&& out.0@.len() == items@.len()
            &&& out.1 == server
            &&& forall|t: int| 0 <= t < out.0@.len() ==> (#[trigger] out.0@[t]).fits(server.params())
            &&& enc_reach(items@, sort_steps(items@.len(), k as nat), out.0@)
            &&& out.2 == counted(sort_steps(items@.len(), k as nat))
        },
{
    let params = server.parameters();
    match EncCmp::boxed(items, params, server) {
        None => None,
        Some(buffer) => {
            let mut sorter = BatcherSort::new_k(buffer, k);
            sorter.sort();
            let count = sorter.comparisons();
            let buffer = sorter.into_inner();
            proof {
                buffer.lemma_wf();
                assert(Seq::<Step>::empty() + sort_steps(items@.len(), k as nat) =~= sort_steps(
                    items@.len(),
                    k as nat,
                ));
            }
            let (items, server) = buffer.into_parts();
            Some((items, server, count))
        },
    }
}

} // verus!
