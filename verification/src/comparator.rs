use crate::ciphertext::{wrap, Ciphertext};
use crate::params::Parameters;
use crate::primitives::{client_secret_keys, lwe_decrypt, lwe_phase, secret_keys};
use crate::server::{words_diff, words_sum, KnnServer};
use tfhe::shortint::ClientKey;
use vstd::prelude::*;

verus! {

/// One operation of a sorting network on the slots of a buffer.
pub enum Step {
    /// Compare-exchange: afterwards the first slot holds the smaller item
    /// and the second slot the larger one.
    Compare(usize, usize),
    /// Unconditional exchange of two slots.
    Swap(usize, usize),
}

/// Both slots of the step lie inside a buffer of `n` items.
pub open spec fn step_ok(st: Step, n: nat) -> bool {
    match st {
        Step::Compare(i, j) => i < n && j < n,
        Step::Swap(i, j) => i < n && j < n,
    }
}

pub open spec fn steps_ok(steps: Seq<Step>, n: nat) -> bool {
    forall|t: int| 0 <= t < steps.len() ==> step_ok(#[trigger] steps[t], n)
}

/// The buffer with slots `i` and `j` exchanged.
pub open spec fn exchange(s: Seq<u64>, i: int, j: int) -> Seq<u64> {
    s.update(i, s[j]).update(j, s[i])
}

/// What one step does to a buffer of clear integers.
pub open spec fn apply_step(s: Seq<u64>, st: Step) -> Seq<u64> {
    match st {
        Step::Compare(i, j) => if s[i as int] > s[j as int] {
            exchange(s, i as int, j as int)
        } else {
            s
        },
        Step::Swap(i, j) => exchange(s, i as int, j as int),
    }
}

/// What a sequence of steps, taken in order, does to a buffer of clear integers.
pub open spec fn run(s: Seq<u64>, steps: Seq<Step>) -> Seq<u64>
    decreases steps.len(),
{
    if steps.len() == 0 {
        s
    } else {
        apply_step(run(s, steps.drop_last()), steps.last())
    }
}

/// Number of compare-exchange steps in a schedule.
pub open spec fn compares(steps: Seq<Step>) -> nat
    decreases steps.len(),
{
    if steps.len() == 0 {
        0
    } else {
        compares(steps.drop_last()) + if steps.last() is Compare {
            1nat
        } else {
            0nat
        }
    }
}

/// The counter value reported for a schedule: the number of its
/// compare-exchange steps, held at the largest `usize` once it is reached.
pub open spec fn counted(steps: Seq<Step>) -> nat {
    if compares(steps) <= usize::MAX {
        compares(steps)
    } else {
        usize::MAX as nat
    }
}

pub proof fn lemma_run_push(s: Seq<u64>, steps: Seq<Step>, st: Step)
    ensures
        run(s, steps.push(st)) == apply_step(run(s, steps), st),
        compares(steps.push(st)) == compares(steps) + if st is Compare { 1nat } else { 0nat },
{
    assert(steps.push(st).drop_last() =~= steps);
}

pub proof fn lemma_run_len(s: Seq<u64>, steps: Seq<Step>)
    requires
        steps_ok(steps, s.len()),
    ensures
        run(s, steps).len() == s.len(),
    decreases steps.len(),
{
    if steps.len() > 0 {
        assert(steps_ok(steps.drop_last(), s.len())) by {
            assert forall|t: int| 0 <= t < steps.drop_last().len() implies step_ok(
                #[trigger] steps.drop_last()[t],
                s.len(),
            ) by {
                assert(steps.drop_last()[t] == steps[t]);
            }
        }
        lemma_run_len(s, steps.drop_last());
        assert(step_ok(steps[steps.len() - 1], s.len()));
    }
}

/// Running two schedules one after the other is running their concatenation.
pub proof fn lemma_run_concat(s: Seq<u64>, a: Seq<Step>, b: Seq<Step>)
    ensures
        run(s, a + b) == run(run(s, a), b),
        compares(a + b) == compares(a) + compares(b),
    decreases b.len(),
{
    if b.len() == 0 {
        assert(a + b =~= a);
    } else {
        assert((a + b).drop_last() =~= a + b.drop_last());
        assert((a + b).last() == b.last());
        lemma_run_concat(s, a, b.drop_last());
    }
}

/// A buffer whose slots can be compare-exchanged and swapped in place.
///
/// An implementation records every operation it performs in `trace`, so that
/// an algorithm written against this trait can state exactly which schedule it
/// has applied, whatever the items are.
pub trait Cmp: Sized {
    type Item;

    /// What a buffer keeps of where it started from.
    type Origin;

    /// The implementation's own invariant.
    spec fn wf(&self) -> bool;

    /// The items, by slot.
    spec fn items(&self) -> Seq<Self::Item>;

    /// Every operation performed so far, oldest first.
    spec fn trace(&self) -> Seq<Step>;

    /// What the buffer started from, before the first operation of its
    /// trace. No operation changes it.
    spec fn origin(&self) -> Self::Origin;

    /// Puts the smaller of slots `i` and `j` into `i` and the larger into `j`.
    fn cmp_at(&mut self, i: usize, j: usize)
        requires
            old(self).wf(),
            i < old(self).items().len(),
            j < old(self).items().len(),
        ensures
            final(self).wf(),
            final(self).items().len() == old(self).items().len(),
            final(self).trace() == old(self).trace().push(Step::Compare(i, j)),
            final(self).origin() == old(self).origin(),
            forall|t: int|
                0 <= t < old(self).items().len() && t != i && t != j ==> final(self).items()[t]
                    == old(self).items()[t],
    ;

    /// Exchanges slots `i` and `j`.
    fn swap(&mut self, i: usize, j: usize)
        requires
            old(self).wf(),
            i < old(self).items().len(),
            j < old(self).items().len(),
        ensures
            final(self).wf(),
            final(self).items() == old(self).items().update(i as int, old(self).items()[j as int]).update(
                j as int,
                old(self).items()[i as int],
            ),
            final(self).trace() == old(self).trace().push(Step::Swap(i, j)),
            final(self).origin() == old(self).origin(),
    ;

    /// The items before slot `mid` and the items from it on.
    fn split_at(&self, mid: usize) -> (parts: (&[Self::Item], &[Self::Item]))
        requires
            mid <= self.items().len(),
        ensures
            parts.0@ == self.items().subrange(0, mid as int),
            parts.1@ == self.items().subrange(mid as int, self.items().len() as int),
    ;

    fn len(&self) -> (n: usize)
        ensures
            n == self.items().len(),
    ;

    /// Number of compare-exchanges performed so far.
    fn cmp_count(&self) -> (n: usize)
        requires
            self.wf(),
        ensures
            n == counted(self.trace()),
    ;

    fn inner(&self) -> (items: &[Self::Item])
        ensures
            items@ == self.items(),
    ;
}

/// A buffer of clear integers, compared directly.
pub struct ClearCmp {
    cmp_count: usize,
    vs: Vec<u64>,
    initial: Ghost<Seq<u64>>,
    trace: Ghost<Seq<Step>>,
}

impl ClearCmp {
    pub fn new(vs: Vec<u64>) -> (c: Self)
        ensures
            c.wf(),
            c.items() == vs@,
            c.origin() == vs@,
            c.trace() == Seq::<Step>::empty(),
    {
        let ghost init = vs@;
        Self { cmp_count: 0, vs, initial: Ghost(init), trace: Ghost(Seq::empty()) }
    }

    pub fn boxed(vs: Vec<u64>) -> (c: Box<Self>)
        ensures
            c.wf(),
            c.items() == vs@,
            c.origin() == vs@,
            c.trace() == Seq::<Step>::empty(),
    {
        Box::new(Self::new(vs))
    }

    /// The items are what the recorded operations make of the initial items.
    pub proof fn lemma_items(&self)
        requires
            self.wf(),
        ensures
            self.items() == run(self.origin(), self.trace()),
            self.items().len() == self.origin().len(),
            steps_ok(self.trace(), self.origin().len()),
    {
        lemma_run_len(self.initial@, self.trace@);
    }
}

impl Cmp for ClearCmp {
    type Item = u64;

    type Origin = Seq<u64>;

    closed spec fn wf(&self) -> bool {
        &&& self.vs@ == run(self.initial@, self.trace@)
        &&& self.vs@.len() == self.initial@.len()
        &&& steps_ok(self.trace@, self.initial@.len())
        &&& self.cmp_count == counted(self.trace@)
    }

    closed spec fn items(&self) -> Seq<u64> {
        self.vs@
    }

    closed spec fn trace(&self) -> Seq<Step> {
        self.trace@
    }

    closed spec fn origin(&self) -> Seq<u64> {
        self.initial@
    }

    /// Exchanges the items of slots `i` and `j` if the first is the larger,
    /// and counts one compare-exchange.
    fn cmp_at(&mut self, i: usize, j: usize)
        ensures
            final(self).items() == apply_step(old(self).items(), Step::Compare(i, j)),
    {
        let ghost before = self.vs@;
        if self.cmp_count < usize::MAX {
            self.cmp_count += 1;
        }
        if self.vs[i] > self.vs[j] {
            let a = self.vs[i];
            let b = self.vs[j];
            self.vs.set(i, b);
            self.vs.set(j, a);
        }
        proof {
            lemma_run_push(self.initial@, self.trace@, Step::Compare(i, j));
            assert(self.vs@ =~= apply_step(before, Step::Compare(i, j)));
            let t2 = self.trace@.push(Step::Compare(i, j));
            assert forall|t: int| 0 <= t < t2.len() implies step_ok(
                #[trigger] t2[t],
                self.initial@.len(),
            ) by {
                if t < self.trace@.len() {
                    assert(t2[t] == self.trace@[t]);
                }
            }
            self.trace@ = t2;
        }
    }

    fn swap(&mut self, i: usize, j: usize) {
        let ghost before = self.vs@;
        let a = self.vs[i];
        let b = self.vs[j];
        self.vs.set(i, b);
        self.vs.set(j, a);
        proof {
            lemma_run_push(self.initial@, self.trace@, Step::Swap(i, j));
            assert(self.vs@ =~= apply_step(before, Step::Swap(i, j)));
            let t2 = self.trace@.push(Step::Swap(i, j));
            assert forall|t: int| 0 <= t < t2.len() implies step_ok(
                #[trigger] t2[t],
                self.initial@.len(),
            ) by {
                if t < self.trace@.len() {
                    assert(t2[t] == self.trace@[t]);
                }
            }
            self.trace@ = t2;
        }
    }

    fn split_at(&self, mid: usize) -> (parts: (&[u64], &[u64])) {
        self.vs.as_slice().split_at(mid)
    }

    fn len(&self) -> (n: usize) {
        self.vs.len()
    }

    fn cmp_count(&self) -> (n: usize) {
        self.cmp_count
    }

    fn inner(&self) -> (items: &[u64]) {
        self.vs.as_slice()
    }
}

/// A distance and the label that travels with it, both encrypted.
pub struct EncItem {
    pub value: Ciphertext,
    pub class: Ciphertext,
}

impl EncItem {
    pub fn new(value: Ciphertext, class: Ciphertext) -> (item: Self)
        ensures
            item.value == value,
            item.class == class,
    {
        Self { value, class }
    }

    /// Both ciphertexts have the size and tags that `params` asks for.
    pub open spec fn fits(&self, params: Parameters) -> bool {
        self.value.fits(params) && self.class.fits(params)
    }

    /// Whether both ciphertexts can be decrypted under a key of `key_len`
    /// words and decoded by their own tags.
    pub open spec fn decryptable(&self, key_len: nat) -> bool {
        &&& key_len >= 1
        &&& self.value@.len() == key_len + 1
        &&& self.class@.len() == key_len + 1
        &&& decodable(self.value.message_modulus, self.value.carry_modulus)
        &&& decodable(self.class.message_modulus, self.class.carry_modulus)
    }

    /// The messages of value and class under the LWE key given: each
    /// ciphertext is decrypted and decoded by its own tags. `None` exactly
    /// where the item is not decryptable under a key of that size.
    pub fn decrypt_with_key(&self, lwe_key: &Vec<u64>) -> (pair: Option<(u64, u64)>)
        ensures
            pair is Some <==> self.decryptable(lwe_key@.len()),
            pair matches Some(p) ==> p.0 == spec_tagged_decode(
                lwe_phase(lwe_key@, self.value@),
                self.value.message_modulus,
                self.value.carry_modulus,
            ) && p.1 == spec_tagged_decode(
                lwe_phase(lwe_key@, self.class@),
                self.class.message_modulus,
                self.class.carry_modulus,
            ) && p.0 < self.value.message_modulus && p.1 < self.class.message_modulus,
    {
        let value_len = self.value.ct.len();
        let class_len = self.class.ct.len();
        if lwe_key.len() < 1 || lwe_key.len() == usize::MAX {
            return None;
        }
        if value_len != lwe_key.len() + 1 || class_len != lwe_key.len() + 1 {
            return None;
        }
        let value_delta = tag_delta(self.value.message_modulus, self.value.carry_modulus);
        let class_delta = tag_delta(self.class.message_modulus, self.class.carry_modulus);
        match (value_delta, class_delta) {
            (Some(vd), Some(cd)) => {
                let v = tagged_decode(lwe_decrypt(lwe_key, &self.value.ct), vd, self.value.message_modulus);
                let c = tagged_decode(lwe_decrypt(lwe_key, &self.class.ct), cd, self.class.message_modulus);
                Some((v, c))
            },
            _ => None,
        }
    }

    /// The messages of value and class under the LWE key that `client_key`
    /// holds, each decoded by the tags of its ciphertext. `None` exactly
    /// where the item is not decryptable under that key.
    pub fn decrypt(&self, client_key: &ClientKey) -> (pair: Option<(u64, u64)>)
        ensures
            pair is Some <==> self.decryptable(client_secret_keys(*client_key).0.len()),
            pair matches Some(p) ==> p.0 == spec_tagged_decode(
                lwe_phase(client_secret_keys(*client_key).0, self.value@),
                self.value.message_modulus,
                self.value.carry_modulus,
            ) && p.1 == spec_tagged_decode(
                lwe_phase(client_secret_keys(*client_key).0, self.class@),
                self.class.message_modulus,
                self.class.carry_modulus,
            ) && p.0 < self.value.message_modulus && p.1 < self.class.message_modulus,
    {
        let (lwe_key, _) = secret_keys(client_key);
        self.decrypt_with_key(&lwe_key)
    }
}

/// The tags of a ciphertext allow decoding: the plaintext space of
/// `message_modulus * carry_modulus` values is not empty and leaves room
/// for the padding bit in a 64-bit word.
pub open spec fn decodable(message_modulus: usize, carry_modulus: usize) -> bool {
    1 <= message_modulus * carry_modulus <= 0x8000_0000_0000_0000
}

/// The scaling factor that the tags of a ciphertext stand for.
pub open spec fn spec_tag_delta(message_modulus: usize, carry_modulus: usize) -> u64 {
    (0x8000_0000_0000_0000int / (message_modulus * carry_modulus)) as u64
}

/// The message that the short-integer layer reads out of a decrypted word:
/// the word is rounded at the bit below the scaling factor, divided by the
/// scaling factor and reduced modulo the message modulus.
pub open spec fn spec_tagged_decode(x: u64, message_modulus: usize, carry_modulus: usize) -> u64 {
    let delta = spec_tag_delta(message_modulus, carry_modulus);
    let rounding = (x & (delta >> 1)) << 1;
    ((wrap(x + rounding) / delta) % (message_modulus as u64)) as u64
}

fn tag_delta(message_modulus: usize, carry_modulus: usize) -> (delta: Option<u64>)
    ensures
        delta is Some <==> decodable(message_modulus, carry_modulus),
        delta matches Some(d) ==> d == spec_tag_delta(message_modulus, carry_modulus) && d >= 1
            && message_modulus >= 1,
{
    if message_modulus == 0 || carry_modulus == 0 {
        assert(message_modulus * carry_modulus == 0) by (nonlinear_arith)
            requires
                message_modulus == 0 || carry_modulus == 0,
        ;
        return None;
    }
    let space = (message_modulus as u64).checked_mul(carry_modulus as u64);
    match space {
        Some(sp) => {
            if sp > 0x8000_0000_0000_0000 {
                None
            } else {
                assert(sp >= 1) by (nonlinear_arith)
                    requires
                        sp == message_modulus * carry_modulus,
                        message_modulus >= 1,
                        carry_modulus >= 1,
                ;
                assert(0x8000_0000_0000_0000int / (sp as int) >= 1) by (nonlinear_arith)
                    requires
                        1 <= sp <= 0x8000_0000_0000_0000,
                ;
                Some(0x8000_0000_0000_0000u64 / sp)
            }
        },
        None => None,
    }
}

fn tagged_decode(x: u64, delta: u64, message_modulus: usize) -> (m: u64)
    requires
        delta >= 1,
        message_modulus >= 1,
    ensures
        m == ((wrap(x + ((x & (delta >> 1)) << 1)) / delta) % (message_modulus as u64)) as u64,
        m < message_modulus,
{
    // the bit before the message
    let rounding_bit = delta >> 1;
    // compute the rounding bit
    let rounding = (x & rounding_bit) << 1;
    (x.wrapping_add(rounding) / delta) % (message_modulus as u64)
}

/// A buffer of encrypted items, compared by the server's comparator.
pub struct EncCmp {
    cmp_count: usize,
    vs: Vec<EncItem>,
    params: Parameters,
    server: KnnServer,
    trace: Ghost<Seq<Step>>,
    origin: Ghost<(Seq<EncItem>, KnnServer, Parameters)>,
    states: Ghost<Seq<Seq<EncItem>>>,
}

/// Slot `j` of `after` holds, in value and in class, the word-wise sum of
/// slots `i` and `j` of `before` less slot `i` of `after`.
pub open spec fn recovered(before: Seq<EncItem>, after: Seq<EncItem>, i: usize, j: usize) -> bool {
    &&& after[j as int].value@ == words_diff(
        words_sum(before[i as int].value@, before[j as int].value@),
        after[i as int].value@,
    )
    &&& after[j as int].class@ == words_diff(
        words_sum(before[i as int].class@, before[j as int].class@),
        after[i as int].class@,
    )
}

/// What a compare-exchange of slots `i` and `j` makes of a buffer, given
/// the smaller value and its class as they came out of the bootstraps:
/// slot `i` receives the two given ciphertexts; slot `j` receives, with the
/// size and tags of `params`, the word-wise sum of the two old items less
/// the given ones; every other slot keeps its item. Where `i` and `j` are
/// one slot, it ends as slot `j` does.
pub open spec fn exchanged(
    before: Seq<EncItem>,
    after: Seq<EncItem>,
    i: usize,
    j: usize,
    min_value: Ciphertext,
    min_class: Ciphertext,
    params: Parameters,
) -> bool {
    &&& after.len() == before.len()
    &&& forall|t: int| 0 <= t < before.len() && t != i && t != j ==> after[t] == before[t]
    &&& i != j ==> after[i as int].value == min_value && after[i as int].class == min_class
    &&& after[j as int].fits(params)
    &&& after[j as int].value@ == words_diff(
        words_sum(before[i as int].value@, before[j as int].value@),
        min_value@,
    )
    &&& after[j as int].class@ == words_diff(
        words_sum(before[i as int].class@, before[j as int].class@),
        min_class@,
    )
}

/// What one step of a schedule can make of a buffer of encrypted items. An
/// exchange swaps two items. A compare-exchange of two different slots
/// leaves every other slot alone and leaves in the second slot the sum of
/// the two old items less the item of the first slot; what the first slot
/// receives comes out of a bootstrap.
pub open spec fn enc_step(before: Seq<EncItem>, st: Step, after: Seq<EncItem>) -> bool {
    match st {
        Step::Swap(i, j) => after == before.update(i as int, before[j as int]).update(
            j as int,
            before[i as int],
        ),
        Step::Compare(i, j) => {
            &&& after.len() == before.len()
            &&& forall|t: int| 0 <= t < before.len() && t != i && t != j ==> after[t] == before[t]
            &&& i != j ==> recovered(before, after, i, j)
        },
    }
}

/// `states` is a run of a schedule on encrypted items: it starts with
/// `start`, ends with `end`, and each step leads from one state to the next
/// as `enc_step` says.
pub open spec fn follows(
    states: Seq<Seq<EncItem>>,
    start: Seq<EncItem>,
    steps: Seq<Step>,
    end: Seq<EncItem>,
) -> bool {
    &&& states.len() == steps.len() + 1
    &&& states[0] == start
    &&& states[steps.len() as int] == end
    &&& forall|t: int| 0 <= t < steps.len() ==> enc_step(states[t], #[trigger] steps[t], states[t + 1])
}

/// The buffer `end` can come of the buffer `start` by the steps of a
/// schedule, each taken as `enc_step` says.
pub open spec fn enc_reach(start: Seq<EncItem>, steps: Seq<Step>, end: Seq<EncItem>) -> bool {
    exists|states: Seq<Seq<EncItem>>| follows(states, start, steps, end)
}

/// One more step after a run.
pub proof fn lemma_follows_push(
    states: Seq<Seq<EncItem>>,
    start: Seq<EncItem>,
    steps: Seq<Step>,
    mid: Seq<EncItem>,
    st: Step,
    end: Seq<EncItem>,
)
    requires
        follows(states, start, steps, mid),
        enc_step(mid, st, end),
    ensures
        follows(states.push(end), start, steps.push(st), end),
{
    let s2 = states.push(end);
    let t2 = steps.push(st);
    assert forall|t: int| 0 <= t < t2.len() implies enc_step(s2[t], #[trigger] t2[t], s2[t + 1]) by {
        if t < steps.len() {
            assert(t2[t] == steps[t]);
            assert(enc_step(states[t], steps[t], states[t + 1]));
        }
    }
}

/// The two parameter sets agree on what decides the shape of a ciphertext.
pub open spec fn same_shape(a: Parameters, b: Parameters) -> bool {
    a.polynomial_size == b.polynomial_size && a.message_modulus == b.message_modulus
        && a.carry_modulus == b.carry_modulus
}

fn item_fits(ct: &Ciphertext, params: &Parameters) -> (b: bool)
    requires
        params.valid(),
    ensures
        b == ct.fits(*params),
{
    ct.ct.len() == params.polynomial_size + 1 && ct.degree == params.message_modulus - 1
        && ct.message_modulus == params.message_modulus && ct.carry_modulus
        == params.carry_modulus
}

impl EncCmp {
    pub closed spec fn server(&self) -> KnnServer {
        self.server
    }

    pub closed spec fn params(&self) -> Parameters {
        self.params
    }

    /// `None` unless the parameters are those of the server and every item
    /// has the size and tags they ask for.
    pub fn boxed(vs: Vec<EncItem>, params: Parameters, server: KnnServer) -> (c: Option<Box<Self>>)
        requires
            server.wf(),
        ensures
            c is Some <==> same_shape(params, server.params()) && forall|t: int|
                0 <= t < vs@.len() ==> (#[trigger] vs@[t]).fits(server.params()),
            c matches Some(b) ==> b.wf() && b.items() == vs@ && b.origin() == (vs@, server, params)
                && b.trace() == Seq::<Step>::empty() && b.server() == server && b.params()
                == params,
    {
        let sp = server.parameters();
        if !(params.polynomial_size == sp.polynomial_size && params.message_modulus
            == sp.message_modulus && params.carry_modulus == sp.carry_modulus) {
            return None;
        }
        let mut t: usize = 0;
        while t < vs.len()
            invariant
                t <= vs@.len(),
                sp == server.params(),
                sp.valid(),
                forall|u: int| 0 <= u < t ==> (#[trigger] vs@[u]).fits(sp),
            decreases vs.len() - t,
        {
            if !(item_fits(&vs[t].value, &sp) && item_fits(&vs[t].class, &sp)) {
                return None;
            }
            t += 1;
        }
        let ghost start = (vs@, server, params);
        let ghost first = Seq::<Seq<EncItem>>::empty().push(vs@);
        Some(
            Box::new(
                Self {
                    cmp_count: 0,
                    vs,
                    params,
                    server,
                    trace: Ghost(Seq::empty()),
                    origin: Ghost(start),
                    states: Ghost(first),
                },
            ),
        )
    }

    /// The parameter set the buffer was made with.
    pub fn parameters(&self) -> (p: Parameters)
        ensures
            p == self.params(),
    {
        self.params
    }

    /// What the invariant of the buffer says of its parts: the server and
    /// the parameters are those it started with, every item has the size
    /// and tags that the server's parameters ask for, and the items are
    /// what the steps of the trace can make of the items it started with.
    pub proof fn lemma_wf(&self)
        requires
            self.wf(),
        ensures
            self.server().wf(),
            self.server() == self.origin().1,
            self.params() == self.origin().2,
            same_shape(self.params(), self.server().params()),
            forall|t: int|
                0 <= t < self.items().len() ==> (#[trigger] self.items()[t]).fits(self.server().params()),
            enc_reach(self.origin().0, self.trace(), self.items()),
            counted(self.trace()) <= usize::MAX,
    {
    }

    /// The compare-exchange of slots `i` and `j`, given the smaller value
    /// and its class as they came out of the bootstraps: the larger value
    /// and its class are recovered by raw arithmetic, and both items are
    /// put in place.
    pub fn exchange(&mut self, i: usize, j: usize, min_value: Ciphertext, min_class: Ciphertext)
        requires
            old(self).wf(),
            i < old(self).items().len(),
            j < old(self).items().len(),
            min_value.fits(old(self).server().params()),
            min_class.fits(old(self).server().params()),
        ensures
            final(self).wf(),
            exchanged(
                old(self).items(),
                final(self).items(),
                i,
                j,
                min_value,
                min_class,
                old(self).server().params(),
            ),
            final(self).trace() == old(self).trace().push(Step::Compare(i, j)),
            final(self).origin() == old(self).origin(),
            final(self).server() == old(self).server(),
            final(self).params() == old(self).params(),
    {
        let ghost before = self.vs@;
        let mut max_value = self.server.raw_add(&self.vs[i].value, &self.vs[j].value);
        self.server.raw_sub_assign(&mut max_value, &min_value);

        let mut max_class = self.server.raw_add(&self.vs[i].class, &self.vs[j].class);
        self.server.raw_sub_assign(&mut max_class, &min_class);

        self.vs.set(i, EncItem::new(min_value, min_class));
        self.vs.set(j, EncItem::new(max_value, max_class));
        if self.cmp_count < usize::MAX {
            self.cmp_count += 1;
        }
        proof {
            assert(exchanged(
                before,
                self.vs@,
                i,
                j,
                min_value,
                min_class,
                self.server.params(),
            ));
            lemma_run_push(Seq::empty(), self.trace@, Step::Compare(i, j));
            lemma_follows_push(
                self.states@,
                self.origin@.0,
                self.trace@,
                before,
                Step::Compare(i, j),
                self.vs@,
            );
            self.states@ = self.states@.push(self.vs@);
            self.trace@ = self.trace@.push(Step::Compare(i, j));
        }
    }

    /// Takes the buffer apart into its items and the server.
    pub fn into_parts(self) -> (parts: (Vec<EncItem>, KnnServer))
        ensures
            parts.0@ == self.items(),
            parts.1 == self.server(),
    {
        (self.vs, self.server)
    }
}

impl Cmp for EncCmp {
    type Item = EncItem;

    type Origin = (Seq<EncItem>, KnnServer, Parameters);

    closed spec fn wf(&self) -> bool {
        &&& self.server.wf()
        &&& self.server == self.origin@.1
        &&& self.params == self.origin@.2
        &&& same_shape(self.params, self.server.params())
        &&& forall|t: int| 0 <= t < self.vs@.len() ==> (#[trigger] self.vs@[t]).fits(self.server.params())
        &&& follows(self.states@, self.origin@.0, self.trace@, self.vs@)
        &&& self.cmp_count == counted(self.trace@)
    }

    closed spec fn items(&self) -> Seq<EncItem> {
        self.vs@
    }

    closed spec fn trace(&self) -> Seq<Step> {
        self.trace@
    }

    closed spec fn origin(&self) -> (Seq<EncItem>, KnnServer, Parameters) {
        self.origin@
    }

    /// Replaces the items of slots `i` and `j` by an encryption of the
    /// smaller value with its class, fresh from two bootstraps, and by the
    /// larger value with its class, recovered without a bootstrap as the
    /// sum of the two old items less the new smaller one. Server and
    /// parameters stay as they are. What the bootstraps return is the
    /// primitive library's; `exchange` says what is made of it.
    fn cmp_at(&mut self, i: usize, j: usize)
        ensures
            final(self).server() == old(self).server(),
            final(self).params() == old(self).params(),
            i != j ==> recovered(old(self).items(), final(self).items(), i, j),
    {
        let min_value = self.server.min(&self.vs[i].value, &self.vs[j].value);
        let min_class = self.server.arg_min(
            &self.vs[i].value,
            &self.vs[j].value,
            &self.vs[i].class,
            &self.vs[j].class,
        );
        self.exchange(i, j, min_value, min_class);
    }

    fn swap(&mut self, i: usize, j: usize)
        ensures
            final(self).server() == old(self).server(),
            final(self).params() == old(self).params(),
    {
        let ghost before = self.vs@;
        if i != j {
            let lo = if i < j { i } else { j };
            let hi = if i < j { j } else { i };
            let hi_item = self.vs.remove(hi);
            let lo_item = self.vs.remove(lo);
            self.vs.insert(lo, hi_item);
            self.vs.insert(hi, lo_item);
        }
        assert(self.vs@ =~= before.update(i as int, before[j as int]).update(j as int, before[i as int]));
        proof {
            lemma_run_push(Seq::empty(), self.trace@, Step::Swap(i, j));
            lemma_follows_push(
                self.states@,
                self.origin@.0,
                self.trace@,
                before,
                Step::Swap(i, j),
                self.vs@,
            );
            self.states@ = self.states@.push(self.vs@);
            self.trace@ = self.trace@.push(Step::Swap(i, j));
        }
    }

    fn split_at(&self, mid: usize) -> (parts: (&[EncItem], &[EncItem])) {
        self.vs.as_slice().split_at(mid)
    }

    fn len(&self) -> (n: usize) {
        self.vs.len()
    }

    fn cmp_count(&self) -> (n: usize) {
        self.cmp_count
    }

    fn inner(&self) -> (items: &[EncItem]) {
        self.vs.as_slice()
    }
}

} // verus!
