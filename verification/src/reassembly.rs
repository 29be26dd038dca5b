//! Reassembly of user messages from DATA chunks.
//!
//! One queue serves one inbound stream. Fragments wait in a pool until the
//! run they belong to is whole: every sequence number from a fragment that
//! begins a message to the fragment that ends it, with no hole. A whole
//! unordered message is handed over at once. A whole ordered message is
//! handed over when its stream sequence number is the next one the stream
//! expects; until then it waits. A message that was handed over has left the
//! pool, so no fragment is ever part of two messages.

use vstd::prelude::*;
use crate::chunk::{data_views, DataChunk, DataView, PayloadProtocolIdentifier};
use crate::serial::{add16, add32, dist32, lt16, lte16, lte32, next16, sna16lt, sna16lte, sna32lte};

verus! {

/// A whole user message as it is handed to the application.
#[derive(Debug)]
pub struct Message {
    /// The stream the message arrived on.
    pub stream_id: u16,
    /// The message's sequence number within its stream.
    pub ssn: u16,
    /// What the message holds.
    pub ppi: PayloadProtocolIdentifier,
    /// Whether the message was sent for delivery out of order.
    pub unordered: bool,
    /// The sequence number of the message's first fragment.
    pub tsn: u32,
    /// The message's bytes.
    pub payload: Vec<u8>,
}

/// A message as a mathematical value.
pub struct MessageView {
    pub stream_id: u16,
    pub ssn: u16,
    pub ppi: PayloadProtocolIdentifier,
    pub unordered: bool,
    pub tsn: u32,
    pub payload: Seq<u8>,
}

impl View for Message {
    type V = MessageView;

    open spec fn view(&self) -> MessageView {
        MessageView {
            stream_id: self.stream_id,
            ssn: self.ssn,
            ppi: self.ppi,
            unordered: self.unordered,
            tsn: self.tsn,
            payload: self.payload@,
        }
    }
}

/// The views of a sequence of messages.
pub open spec fn message_views(s: Seq<Message>) -> Seq<MessageView> {
    s.map_values(|m: Message| m@)
}

/// Whether the pool holds a fragment with the sequence number `t`.
pub open spec fn has_tsn(pool: Seq<DataView>, t: u32) -> bool {
    exists|i: int| 0 <= i < pool.len() && (#[trigger] pool[i]).tsn == t
}

/// The place in the pool of a fragment with the sequence number `t`.
pub open spec fn index_of(pool: Seq<DataView>, t: u32) -> int {
    choose|i: int| 0 <= i < pool.len() && (#[trigger] pool[i]).tsn == t
}

/// The fragment of the pool with the sequence number `t`.
pub open spec fn at(pool: Seq<DataView>, t: u32) -> DataView {
    pool[index_of(pool, t)]
}

/// No two fragments of the pool have the same sequence number.
pub open spec fn distinct(pool: Seq<DataView>) -> bool {
    forall|i: int, j: int|
        0 <= i < pool.len() && 0 <= j < pool.len() && (#[trigger] pool[i]).tsn == (#[trigger] pool[j]).tsn
            ==> i == j
}

/// How many fragments the run has that starts at `t` and goes on, one
/// sequence number after the other, to the first fragment that ends a
/// message; `None` if a fragment is missing on the way. `fuel` bounds the
/// walk and is the size of the pool.
pub open spec fn run_len(pool: Seq<DataView>, t: u32, fuel: nat) -> Option<nat>
    decreases fuel,
{
    if fuel == 0 || !has_tsn(pool, t) {
        None
    } else if at(pool, t).ending_fragment {
        Some(1)
    } else {
        match run_len(pool, add32(t, 1), (fuel - 1) as nat) {
            Some(n) => Some(n + 1),
            None => None,
        }
    }
}

/// The sequence number at which the run begins that `t` belongs to: walking
/// down from `t`, one sequence number after the other, the first fragment
/// that begins a message; `None` if a fragment is missing on the way.
pub open spec fn run_start(pool: Seq<DataView>, t: u32, fuel: nat) -> Option<u32>
    decreases fuel,
{
    if fuel == 0 || !has_tsn(pool, t) {
        None
    } else if at(pool, t).beginning_fragment {
        Some(t)
    } else {
        run_start(pool, add32(t, 0xffff_ffff), (fuel - 1) as nat)
    }
}

/// The payloads of the `n` fragments from `t` on, one after the other.
pub open spec fn gather(pool: Seq<DataView>, t: u32, n: nat) -> Seq<u8>
    decreases n,
{
    if n == 0 {
        Seq::<u8>::empty()
    } else {
        gather(pool, t, (n - 1) as nat) + at(pool, add32(t, n - 1)).payload
    }
}

/// The pool without the fragment that has the sequence number `t`.
pub open spec fn remove_tsn(pool: Seq<DataView>, t: u32) -> Seq<DataView> {
    if has_tsn(pool, t) {
        pool.remove(index_of(pool, t))
    } else {
        pool
    }
}

/// The pool without the fragments that have the `n` sequence numbers from `t` on.
pub open spec fn without_run(pool: Seq<DataView>, t: u32, n: nat) -> Seq<DataView>
    decreases n,
{
    if n == 0 {
        pool
    } else {
        remove_tsn(without_run(pool, t, (n - 1) as nat), add32(t, n - 1))
    }
}

/// The place of the first fragment in the pool that begins the ordered message `ssn`.
pub open spec fn begin_index(pool: Seq<DataView>, ssn: u16) -> Option<int>
    decreases pool.len(),
{
    if pool.len() == 0 {
        None
    } else {
        match begin_index(pool.drop_last(), ssn) {
            Some(i) => Some(i),
            None => if pool.last().beginning_fragment && pool.last().ssn == ssn {
                Some(pool.len() - 1)
            } else {
                None
            },
        }
    }
}

/// The pool without the fragments of ordered messages up to `ssn`.
pub open spec fn without_ssn_upto(pool: Seq<DataView>, ssn: u16) -> Seq<DataView>
    decreases pool.len(),
{
    if pool.len() == 0 {
        pool
    } else {
        let rest = without_ssn_upto(pool.drop_last(), ssn);
        if lte16(pool.last().ssn, ssn) {
            rest
        } else {
            rest.push(pool.last())
        }
    }
}

/// The pool without the fragments whose sequence number is `tsn` or earlier.
pub open spec fn without_tsn_upto(pool: Seq<DataView>, tsn: u32) -> Seq<DataView>
    decreases pool.len(),
{
    if pool.len() == 0 {
        pool
    } else {
        let rest = without_tsn_upto(pool.drop_last(), tsn);
        if lte32(pool.last().tsn, tsn) {
            rest
        } else {
            rest.push(pool.last())
        }
    }
}

/// The number of payload bytes in the pool.
pub open spec fn pool_bytes(pool: Seq<DataView>) -> nat
    decreases pool.len(),
{
    if pool.len() == 0 {
        0
    } else {
        pool_bytes(pool.drop_last()) + pool.last().payload.len()
    }
}

/// The number of payload bytes in a sequence of messages.
pub open spec fn message_bytes(ready: Seq<MessageView>) -> nat
    decreases ready.len(),
{
    if ready.len() == 0 {
        0
    } else {
        message_bytes(ready.drop_last()) + ready.last().payload.len()
    }
}

/// A reassembly queue as a mathematical value.
pub struct ReassemblyView {
    /// The stream that the queue serves.
    pub si: u16,
    /// The stream sequence number of the next ordered message to hand over.
    pub next_ssn: u16,
    /// Fragments of ordered messages, in the order of their arrival.
    pub ordered: Seq<DataView>,
    /// Fragments of unordered messages, in the order of their arrival.
    pub unordered: Seq<DataView>,
    /// Whole messages that wait to be read, first to be read first.
    pub ready: Seq<MessageView>,
}

impl ReassemblyView {
    /// Within each pool no two fragments have the same sequence number.
    pub open spec fn wf(self) -> bool {
        distinct(self.ordered) && distinct(self.unordered)
    }

    /// An empty queue for the stream `si`.
    pub open spec fn empty(si: u16) -> ReassemblyView {
        ReassemblyView {
            si,
            next_ssn: 0,
            ordered: Seq::<DataView>::empty(),
            unordered: Seq::<DataView>::empty(),
            ready: Seq::<MessageView>::empty(),
        }
    }

    /// The queue after the next ordered message has been handed over, if it is whole.
    pub open spec fn delivered_next(self) -> Option<ReassemblyView> {
        match begin_index(self.ordered, self.next_ssn) {
            None => None,
            Some(i) => {
                let t = self.ordered[i].tsn;
                match run_len(self.ordered, t, self.ordered.len()) {
                    None => None,
                    Some(n) => Some(
                        ReassemblyView {
                            next_ssn: add16(self.next_ssn, 1),
                            ordered: without_run(self.ordered, t, n),
                            ready: self.ready.push(
                                MessageView {
                                    stream_id: self.si,
                                    ssn: self.next_ssn,
                                    ppi: self.ordered[i].ppi,
                                    unordered: false,
                                    tsn: t,
                                    payload: gather(self.ordered, t, n),
                                },
                            ),
                            ..self
                        },
                    ),
                }
            },
        }
    }

    /// The queue after every ordered message that is whole and in turn has
    /// been handed over. `fuel` bounds the number of messages and is the size
    /// of the pool.
    pub open spec fn drained(self, fuel: nat) -> ReassemblyView
        decreases fuel,
    {
        if fuel == 0 {
            self
        } else {
            match self.delivered_next() {
                None => self,
                Some(next) => next.drained((fuel - 1) as nat),
            }
        }
    }

    /// The queue after the unordered run that the sequence number `t`
    /// belongs to has been handed over, if it is whole.
    pub open spec fn delivered_unordered(self, t: u32) -> ReassemblyView {
        match run_start(self.unordered, t, self.unordered.len()) {
            None => self,
            Some(t0) => match run_len(self.unordered, t0, self.unordered.len()) {
                None => self,
                Some(n) => ReassemblyView {
                    unordered: without_run(self.unordered, t0, n),
                    ready: self.ready.push(
                        MessageView {
                            stream_id: self.si,
                            ssn: at(self.unordered, t0).ssn,
                            ppi: at(self.unordered, t0).ppi,
                            unordered: true,
                            tsn: t0,
                            payload: gather(self.unordered, t0, n),
                        },
                    ),
                    ..self
                },
            },
        }
    }

    /// Whether the queue takes the fragment `c`: it is for this stream, not
    /// in the pool already, and, if ordered, not part of a message that the
    /// stream has moved past.
    pub open spec fn takes(self, c: DataView) -> bool {
        &&& c.stream_id == self.si
        &&& if c.unordered {
            !has_tsn(self.unordered, c.tsn)
        } else {
            !lt16(c.ssn, self.next_ssn) && !has_tsn(self.ordered, c.tsn)
        }
    }

    /// The queue after the fragment `c` has arrived.
    pub open spec fn pushed(self, c: DataView) -> ReassemblyView {
        if !self.takes(c) {
            self
        } else if c.unordered {
            (ReassemblyView { unordered: self.unordered.push(c), ..self }).delivered_unordered(c.tsn)
        } else {
            (ReassemblyView { ordered: self.ordered.push(c), ..self }).drained(self.ordered.len() + 1)
        }
    }

    /// The queue after a sequence of fragments has arrived, first to last.
    pub open spec fn pushed_all(self, arrivals: Seq<DataView>) -> ReassemblyView
        decreases arrivals.len(),
    {
        if arrivals.len() == 0 {
            self
        } else {
            self.pushed_all(arrivals.drop_last()).pushed(arrivals.last())
        }
    }

    /// The queue after the stream has moved past the ordered messages up to
    /// `last_ssn`. Nothing changes if the stream is past `last_ssn` already.
    pub open spec fn ordered_forwarded(self, last_ssn: u16) -> ReassemblyView {
        if lte16(self.next_ssn, last_ssn) {
            (ReassemblyView {
                next_ssn: add16(last_ssn, 1),
                ordered: without_ssn_upto(self.ordered, last_ssn),
                ..self
            }).drained(without_ssn_upto(self.ordered, last_ssn).len())
        } else {
            self
        }
    }

    /// The queue without the unordered fragments whose sequence number is `new_cumulative_tsn` or earlier.
    pub open spec fn unordered_forwarded(self, new_cumulative_tsn: u32) -> ReassemblyView {
        ReassemblyView { unordered: without_tsn_upto(self.unordered, new_cumulative_tsn), ..self }
    }

    /// The number of payload bytes that the queue holds.
    pub open spec fn bytes(self) -> nat {
        pool_bytes(self.ordered) + pool_bytes(self.unordered) + message_bytes(self.ready)
    }
}

/// Removing a fragment keeps the sequence numbers distinct, takes exactly
/// that sequence number out of the pool, and leaves every other fragment
/// where a search by sequence number finds it.
pub proof fn lemma_remove_tsn(pool: Seq<DataView>, t: u32)
    requires
        distinct(pool),
        has_tsn(pool, t),
    ensures
        distinct(remove_tsn(pool, t)),
        remove_tsn(pool, t).len() == pool.len() - 1,
        !has_tsn(remove_tsn(pool, t), t),
        forall|u: u32| u != t ==> has_tsn(remove_tsn(pool, t), u) == has_tsn(pool, u),
        forall|u: u32| u != t && has_tsn(pool, u) ==> at(remove_tsn(pool, t), u) == at(pool, u),
{
    let k = index_of(pool, t);
    let r = pool.remove(k);
    assert forall|i: int, j: int|
        0 <= i < r.len() && 0 <= j < r.len() && (#[trigger] r[i]).tsn == (#[trigger] r[j]).tsn implies i
        == j by {
        let a = if i < k { i } else { i + 1 };
        let b = if j < k { j } else { j + 1 };
        assert(r[i] == pool[a]);
        assert(r[j] == pool[b]);
    }
    if has_tsn(r, t) {
        let i = choose|i: int| 0 <= i < r.len() && (#[trigger] r[i]).tsn == t;
        let a = if i < k { i } else { i + 1 };
        assert(r[i] == pool[a]);
        assert(false);
    }
    assert forall|u: u32| u != t implies has_tsn(r, u) == has_tsn(pool, u) by {
        if has_tsn(r, u) {
            let i = choose|i: int| 0 <= i < r.len() && (#[trigger] r[i]).tsn == u;
            let a = if i < k { i } else { i + 1 };
            assert(r[i] == pool[a]);
        }
        if has_tsn(pool, u) {
            let a = choose|a: int| 0 <= a < pool.len() && (#[trigger] pool[a]).tsn == u;
            let i = if a < k { a } else { a - 1 };
            assert(r[i] == pool[a]);
        }
    }
    assert forall|u: u32| u != t && has_tsn(pool, u) implies at(r, u) == at(pool, u) by {
        assert(has_tsn(r, u));
        let i = index_of(r, u);
        let a = if i < k { i } else { i + 1 };
        assert(r[i] == pool[a]);
        assert(pool[a].tsn == pool[index_of(pool, u)].tsn);
    }
}

/// Taking a run out of the pool keeps the sequence numbers distinct and never makes the pool larger.
pub proof fn lemma_without_run(pool: Seq<DataView>, t: u32, n: nat)
    requires
        distinct(pool),
    ensures
        distinct(without_run(pool, t, n)),
        without_run(pool, t, n).len() <= pool.len(),
        n >= 1 && has_tsn(pool, t) ==> without_run(pool, t, n).len() < pool.len(),
    decreases n,
{
    if n > 0 {
        lemma_without_run(pool, t, (n - 1) as nat);
        let prev = without_run(pool, t, (n - 1) as nat);
        let u = add32(t, n - 1);
        if has_tsn(prev, u) {
            lemma_remove_tsn(prev, u);
        }
        if n == 1 {
            assert(u == t);
        }
    }
}


/// Removing the fragment at a place keeps the sequence numbers distinct.
pub proof fn lemma_remove_index_distinct(pool: Seq<DataView>, k: int)
    requires
        distinct(pool),
        0 <= k < pool.len(),
    ensures
        distinct(pool.remove(k)),
{
    let r = pool.remove(k);
    assert forall|i: int, j: int|
        0 <= i < r.len() && 0 <= j < r.len() && (#[trigger] r[i]).tsn == (#[trigger] r[j]).tsn implies i
        == j by {
        let a = if i < k { i } else { i + 1 };
        let b = if j < k { j } else { j + 1 };
        assert(r[i] == pool[a]);
        assert(r[j] == pool[b]);
    }
}

/// Adding a fragment whose sequence number is new keeps the sequence numbers distinct.
pub proof fn lemma_push_distinct(pool: Seq<DataView>, c: DataView)
    requires
        distinct(pool),
        !has_tsn(pool, c.tsn),
    ensures
        distinct(pool.push(c)),
{
    let r = pool.push(c);
    assert forall|i: int, j: int|
        0 <= i < r.len() && 0 <= j < r.len() && (#[trigger] r[i]).tsn == (#[trigger] r[j]).tsn implies i
        == j by {
        if i < pool.len() {
            assert(r[i] == pool[i]);
        }
        if j < pool.len() {
            assert(r[j] == pool[j]);
        }
    }
}

/// A run that is whole has at least one fragment and no more than the walk
/// was given fuel for; each of its sequence numbers is in the pool, its last
/// fragment ends a message, and none before does.
pub proof fn lemma_run_present(pool: Seq<DataView>, t: u32, fuel: nat, n: nat)
    requires
        run_len(pool, t, fuel) == Some(n),
    ensures
        1 <= n <= fuel,
        forall|j: int| 0 <= j < n ==> has_tsn(pool, #[trigger] add32(t, j)),
        at(pool, add32(t, n - 1)).ending_fragment,
        forall|j: int| 0 <= j < n - 1 ==> !at(pool, #[trigger] add32(t, j)).ending_fragment,
    decreases fuel,
{
    assert(add32(t, 0) == t);
    if at(pool, t).ending_fragment {
    } else {
        let u = add32(t, 1);
        let m = (n - 1) as nat;
        lemma_run_present(pool, u, (fuel - 1) as nat, m);
        assert forall|j: int| 0 <= j < n implies has_tsn(pool, #[trigger] add32(t, j)) by {
            if j > 0 {
                crate::serial::lemma_add32_add(t, 1, j - 1);
                assert(has_tsn(pool, add32(u, j - 1)));
            }
        }
        crate::serial::lemma_add32_add(t, 1, m - 1);
        assert forall|j: int| 0 <= j < n - 1 implies !at(pool, #[trigger] add32(t, j)).ending_fragment by {
            if j > 0 {
                crate::serial::lemma_add32_add(t, 1, j - 1);
                assert(!at(pool, add32(u, j - 1)).ending_fragment);
            }
        }
    }
}

/// The start of a run that was found is in the pool and begins a message.
pub proof fn lemma_run_start_present(pool: Seq<DataView>, t: u32, fuel: nat, t0: u32)
    requires
        run_start(pool, t, fuel) == Some(t0),
    ensures
        has_tsn(pool, t0),
        at(pool, t0).beginning_fragment,
    decreases fuel,
{
    if at(pool, t).beginning_fragment {
    } else {
        lemma_run_start_present(pool, add32(t, 0xffff_ffff), (fuel - 1) as nat, t0);
    }
}

/// The place that `begin_index` gives is in the pool, and the fragment there begins the message asked for.
pub proof fn lemma_begin_index(pool: Seq<DataView>, ssn: u16)
    ensures
        match begin_index(pool, ssn) {
            Some(i) => 0 <= i < pool.len() && pool[i].beginning_fragment && pool[i].ssn == ssn && forall|
                j: int,
            |
                0 <= j < i ==> !((#[trigger] pool[j]).beginning_fragment && pool[j].ssn == ssn),
            None => forall|j: int|
                0 <= j < pool.len() ==> !((#[trigger] pool[j]).beginning_fragment && pool[j].ssn == ssn),
        },
    decreases pool.len(),
{
    if pool.len() > 0 {
        lemma_begin_index(pool.drop_last(), ssn);
        match begin_index(pool.drop_last(), ssn) {
            Some(i) => {
                assert(pool.drop_last()[i] == pool[i]);
                assert forall|j: int| 0 <= j < i implies !((#[trigger] pool[j]).beginning_fragment
                    && pool[j].ssn == ssn) by {
                    assert(pool.drop_last()[j] == pool[j]);
                }
            },
            None => {
                assert forall|j: int| 0 <= j < pool.len() - 1 implies !((
                #[trigger] pool[j]).beginning_fragment && pool[j].ssn == ssn) by {
                    assert(pool.drop_last()[j] == pool[j]);
                }
            },
        }
    }
}

/// Handing over the next ordered message keeps the queue well formed and makes the pool smaller.
pub proof fn lemma_delivered_next(v: ReassemblyView)
    requires
        v.wf(),
    ensures
        v.delivered_next() matches Some(w) ==> w.wf() && w.ordered.len() < v.ordered.len() && w.ready.len()
            == v.ready.len() + 1,
{
    lemma_begin_index(v.ordered, v.next_ssn);
    match begin_index(v.ordered, v.next_ssn) {
        None => {},
        Some(i) => {
            let t = v.ordered[i].tsn;
            match run_len(v.ordered, t, v.ordered.len()) {
                None => {},
                Some(n) => {
                    lemma_run_present(v.ordered, t, v.ordered.len(), n);
                    lemma_without_run(v.ordered, t, n);
                },
            }
        },
    }
}

/// With any fuel that is at least the size of the pool, draining gives the same queue.
pub proof fn lemma_drained_fuel(v: ReassemblyView, f1: nat, f2: nat)
    requires
        v.wf(),
        f1 >= v.ordered.len(),
        f2 >= v.ordered.len(),
    ensures
        v.drained(f1) == v.drained(f2),
        v.drained(f1).wf(),
        v.drained(f1).ready.len() >= v.ready.len(),
        v.drained(f1).si == v.si,
    decreases v.ordered.len(),
{
    lemma_delivered_next(v);
    lemma_begin_index(v.ordered, v.next_ssn);
    match v.delivered_next() {
        None => {},
        Some(w) => {
            lemma_drained_fuel(w, (f1 - 1) as nat, (f2 - 1) as nat);
        },
    }
}

/// How many of the first `n` messages were sent for delivery in order.
#[verifier::opaque]
pub open spec fn ordered_upto(ready: Seq<MessageView>, n: nat) -> nat
    decreases n,
{
    if n == 0 {
        0
    } else {
        ordered_upto(ready, (n - 1) as nat) + (if ready[n - 1].unordered { 0nat } else { 1nat })
    }
}

/// The count of ordered messages among the first `n` is the same in a
/// sequence of messages and in one that begins with it.
pub proof fn lemma_ordered_upto_prefix(longer: Seq<MessageView>, shorter: Seq<MessageView>, n: nat)
    requires
        n <= shorter.len(),
        shorter.len() <= longer.len(),
        longer.take(shorter.len() as int) == shorter,
    ensures
        ordered_upto(longer, n) == ordered_upto(shorter, n),
    decreases n,
{
    reveal_with_fuel(ordered_upto, 2);
    if n > 0 {
        lemma_ordered_upto_prefix(longer, shorter, (n - 1) as nat);
        assert(longer[n - 1] == longer.take(shorter.len() as int)[n - 1]);
    }
}

/// Where every message from `lo` to `hi` is ordered, the count grows by one for each.
pub proof fn lemma_ordered_upto_run(ready: Seq<MessageView>, lo: nat, hi: nat)
    requires
        lo <= hi <= ready.len(),
        forall|i: int| lo <= i < hi ==> !(#[trigger] ready[i]).unordered,
    ensures
        ordered_upto(ready, hi) == ordered_upto(ready, lo) + hi - lo,
    decreases hi - lo,
{
    reveal_with_fuel(ordered_upto, 2);
    if lo < hi {
        lemma_ordered_upto_run(ready, lo, (hi - 1) as nat);
    }
}

/// Whether the messages `ready` from the place `was` on were made
/// readable in the order of their stream sequence numbers: the ordered
/// ones among them carry the number `first`, the one after it, and so on
/// without a hole, in the order in which they are read, and `next` is the
/// number after the last.
pub open spec fn read_in_sequence(first: u16, was: nat, ready: Seq<MessageView>, next: u16) -> bool {
    &&& ready.len() >= was
    &&& next == add16(first, ordered_upto(ready, ready.len()) - ordered_upto(ready, was))
    &&& forall|i: int|
        was <= i < ready.len() && !(#[trigger] ready[i]).unordered ==> ready[i].ssn == add16(
            first,
            ordered_upto(ready, i as nat) - ordered_upto(ready, was),
        )
}

/// Whether one arrival can have made `after` of the messages `before` that
/// waited to be read. Those that waited stay in front. An unordered
/// fragment adds at most one message, an unordered one, and the stream
/// expects what it expected. An ordered fragment adds ordered messages
/// only, with the stream sequence numbers from the one that the stream
/// expected on, and the stream then expects the one after the last.
pub open spec fn one_arrival(before: Seq<MessageView>, expected: u16, after: Seq<MessageView>, next: u16) -> bool {
    let mid = before.len();
    &&& after.len() >= mid
    &&& after.take(mid as int) == before
    &&& after.len() == mid ==> next == expected
    &&& after.len() > mid && after[mid as int].unordered ==> after.len() == mid + 1 && next == expected
    &&& after.len() > mid && !after[mid as int].unordered ==> next == add16(expected, after.len() - mid)
        && forall|i: int|
        mid <= i < after.len() ==> !(#[trigger] after[i]).unordered && after[i].ssn == add16(expected, i - mid)
}

/// What one arrival does to the messages that wait to be read. See `one_arrival`.
pub proof fn lemma_pushed_keeps_ready(u: ReassemblyView, c: DataView)
    ensures
        one_arrival(u.ready, u.next_ssn, u.pushed(c).ready, u.pushed(c).next_ssn),
{
    let mid = u.ready.len();
    let w = u.pushed(c);
    if !u.takes(c) {
        assert(u.ready.take(mid as int) =~= u.ready);
    } else if c.unordered {
        let x = ReassemblyView { unordered: u.unordered.push(c), ..u };
        assert(w == x.delivered_unordered(c.tsn));
        assert(w.ready.take(mid as int) =~= u.ready);
    } else {
        let x = ReassemblyView { ordered: u.ordered.push(c), ..u };
        lemma_drained_in_sequence(x, u.ordered.len() + 1);
    }
}

/// An unordered message does not count.
pub proof fn lemma_ordered_upto_skips(ready: Seq<MessageView>, n: nat)
    requires
        n < ready.len(),
        ready[n as int].unordered,
    ensures
        ordered_upto(ready, n + 1) == ordered_upto(ready, n),
{
    reveal_with_fuel(ordered_upto, 2);
}

/// The count of ordered messages does not fall as more messages are counted.
pub proof fn lemma_ordered_upto_monotone(ready: Seq<MessageView>, lo: nat, hi: nat)
    requires
        lo <= hi,
    ensures
        ordered_upto(ready, lo) <= ordered_upto(ready, hi),
    decreases hi - lo,
{
    reveal_with_fuel(ordered_upto, 2);
    if lo < hi {
        lemma_ordered_upto_monotone(ready, lo, (hi - 1) as nat);
    }
}

/// One more arrival keeps the messages in the order of their stream sequence numbers.
#[verifier::rlimit(30)]
pub proof fn lemma_one_arrival_in_sequence(
    first: u16,
    was: nat,
    before: Seq<MessageView>,
    expected: u16,
    after: Seq<MessageView>,
    next: u16,
)
    requires
        read_in_sequence(first, was, before, expected),
        one_arrival(before, expected, after, next),
    ensures
        read_in_sequence(first, was, after, next),
{
    let mid = before.len();
    lemma_ordered_upto_prefix(after, before, was);
    lemma_ordered_upto_prefix(after, before, mid);
    lemma_ordered_upto_monotone(after, was, mid);
    let base = ordered_upto(after, mid) - ordered_upto(after, was);
    assert(expected == add16(first, base));
    assert forall|i: int| was <= i < after.len() && !(#[trigger] after[i]).unordered implies after[i].ssn
        == add16(first, ordered_upto(after, i as nat) - ordered_upto(after, was)) by {
        if i < mid {
            lemma_ordered_upto_prefix(after, before, i as nat);
            assert(after[i] == after.take(mid as int)[i]);
            assert(after[i] == before[i]);
        } else {
            assert(!after[mid as int].unordered);
            lemma_ordered_upto_run(after, mid, i as nat);
            crate::serial::lemma_add16_add(first, base, i - mid);
        }
    }
    if after.len() == mid {
    } else if after[mid as int].unordered {
        assert(after.len() == mid + 1);
        lemma_ordered_upto_skips(after, mid);
    } else {
        lemma_ordered_upto_run(after, mid, after.len());
        crate::serial::lemma_add16_add(first, base, after.len() - mid);
    }
}

/// Ordered messages are handed over in the order of their stream sequence
/// numbers, whatever the order in which fragments arrive: of the messages
/// that any sequence of arrivals makes readable, the ordered ones carry the
/// stream sequence number that the stream expected at first, the one after
/// it, and so on without a hole, in the order in which they are read; the
/// messages that were readable before stay in front of them.
pub proof fn lemma_ordered_read_in_sequence(v: ReassemblyView, arrivals: Seq<DataView>)
    ensures
        v.pushed_all(arrivals).ready.take(v.ready.len() as int) == v.ready,
        read_in_sequence(
            v.next_ssn,
            v.ready.len(),
            v.pushed_all(arrivals).ready,
            v.pushed_all(arrivals).next_ssn,
        ),
    decreases arrivals.len(),
{
    let was = v.ready.len();
    if arrivals.len() == 0 {
        assert(v.ready.take(was as int) =~= v.ready);
        assert(v.next_ssn == add16(v.next_ssn, 0));
    } else {
        let u = v.pushed_all(arrivals.drop_last());
        let c = arrivals.last();
        let w = u.pushed(c);
        assert(v.pushed_all(arrivals) == w);
        lemma_ordered_read_in_sequence(v, arrivals.drop_last());
        lemma_pushed_keeps_ready(u, c);
        lemma_one_arrival_in_sequence(v.next_ssn, was, u.ready, u.next_ssn, w.ready, w.next_ssn);
        assert(w.ready.take(was as int) =~= w.ready.take(u.ready.len() as int).take(was as int));
    }
}

/// Dropping the fragments of ordered messages up to `ssn` leaves fragments
/// of the pool, none of them twice.
pub proof fn lemma_without_ssn_upto(pool: Seq<DataView>, ssn: u16)
    requires
        distinct(pool),
    ensures
        distinct(without_ssn_upto(pool, ssn)),
        without_ssn_upto(pool, ssn).len() <= pool.len(),
        forall|t: u32| has_tsn(without_ssn_upto(pool, ssn), t) ==> has_tsn(pool, t),
        forall|i: int|
            0 <= i < without_ssn_upto(pool, ssn).len() ==> !lte16(
                (#[trigger] without_ssn_upto(pool, ssn)[i]).ssn,
                ssn,
            ),
    decreases pool.len(),
{
    if pool.len() > 0 {
        let front = pool.drop_last();
        assert forall|i: int, j: int|
            0 <= i < front.len() && 0 <= j < front.len() && (#[trigger] front[i]).tsn == (
            #[trigger] front[j]).tsn implies i == j by {
            assert(front[i] == pool[i]);
            assert(front[j] == pool[j]);
        }
        lemma_without_ssn_upto(front, ssn);
        let rest = without_ssn_upto(front, ssn);
        let all = without_ssn_upto(pool, ssn);
        assert forall|t: u32| has_tsn(rest, t) implies has_tsn(pool, t) by {
            assert(has_tsn(front, t));
            let k = choose|k: int| 0 <= k < front.len() && (#[trigger] front[k]).tsn == t;
            assert(pool[k].tsn == t);
        }
        if !lte16(pool.last().ssn, ssn) {
            if has_tsn(rest, pool.last().tsn) {
                assert(has_tsn(front, pool.last().tsn));
                let k = choose|k: int| 0 <= k < front.len() && (#[trigger] front[k]).tsn == pool.last().tsn;
                assert(front[k] == pool[k]);
                assert(pool[k].tsn == pool[pool.len() - 1].tsn);
                assert(false);
            }
            lemma_push_distinct(rest, pool.last());
            assert forall|t: u32| has_tsn(all, t) implies has_tsn(pool, t) by {
                let k = choose|k: int| 0 <= k < all.len() && (#[trigger] all[k]).tsn == t;
                if k < rest.len() {
                    assert(rest[k] == all[k]);
                    assert(has_tsn(rest, t));
                } else {
                    assert(pool[pool.len() - 1].tsn == t);
                }
            }
            assert forall|i: int| 0 <= i < all.len() implies !lte16((#[trigger] all[i]).ssn, ssn) by {
                if i < rest.len() {
                    assert(all[i] == rest[i]);
                }
            }
        }
    }
}

/// A message that the sender has given up does not hold back the one
/// behind it. When the stream moves past the ordered messages up to
/// `last_ssn`, nothing that waited to be read is lost; what becomes
/// readable are the messages behind `last_ssn`, one stream sequence number
/// after the other, so none of those given up is among them; and the
/// message that is next in turn is handed over if it is whole.
pub proof fn lemma_forward_releases_next(v: ReassemblyView, last_ssn: u16)
    requires
        v.wf(),
        lte16(v.next_ssn, last_ssn),
    ensures
        ({
            let w = v.ordered_forwarded(last_ssn);
            let moved = ReassemblyView {
                next_ssn: add16(last_ssn, 1),
                ordered: without_ssn_upto(v.ordered, last_ssn),
                ..v
            };
            &&& w.wf()
            &&& w.ready.len() >= v.ready.len()
            &&& w.ready.take(v.ready.len() as int) == v.ready
            &&& w.next_ssn == add16(last_ssn, 1 + w.ready.len() - v.ready.len())
            &&& forall|i: int|
                v.ready.len() <= i < w.ready.len() ==> (#[trigger] w.ready[i]).ssn == add16(
                    last_ssn,
                    1 + i - v.ready.len(),
                )
            &&& moved.delivered_next().is_some() ==> w.ready.len() > v.ready.len()
        }),
{
    let moved = ReassemblyView {
        next_ssn: add16(last_ssn, 1),
        ordered: without_ssn_upto(v.ordered, last_ssn),
        ..v
    };
    let fuel = moved.ordered.len();
    let w = moved.drained(fuel);
    lemma_without_ssn_upto(v.ordered, last_ssn);
    assert(moved.wf());
    lemma_drained_fuel(moved, fuel, fuel);
    lemma_drained_in_sequence(moved, fuel);
    crate::serial::lemma_add16_add(last_ssn, 1, w.ready.len() - v.ready.len());
    assert forall|i: int| v.ready.len() <= i < w.ready.len() implies (#[trigger] w.ready[i]).ssn == add16(
        last_ssn,
        1 + i - v.ready.len(),
    ) by {
        crate::serial::lemma_add16_add(last_ssn, 1, i - v.ready.len());
    }
    lemma_delivered_next(moved);
    match moved.delivered_next() {
        Some(next) => {
            assert(fuel >= 1);
            lemma_drained_in_sequence(next, (fuel - 1) as nat);
        },
        None => {},
    }
}

/// Ordered messages are handed over in the order of their stream sequence
/// numbers: those that draining hands over are the one that the stream
/// expects next, the one after it, and so on without a hole, and the stream
/// then expects the one after the last.
pub proof fn lemma_drained_in_sequence(v: ReassemblyView, fuel: nat)
    ensures
        ({
            let w = v.drained(fuel);
            &&& w.ready.len() >= v.ready.len()
            &&& w.ready.take(v.ready.len() as int) == v.ready
            &&& w.next_ssn == add16(v.next_ssn, w.ready.len() - v.ready.len())
            &&& w.unordered == v.unordered
            &&& forall|i: int|
                v.ready.len() <= i < w.ready.len() ==> {
                    &&& (#[trigger] w.ready[i]).ssn == add16(v.next_ssn, i - v.ready.len())
                    &&& !w.ready[i].unordered
                    &&& w.ready[i].stream_id == v.si
                }
        }),
    decreases fuel,
{
    let w = v.drained(fuel);
    assert(add16(v.next_ssn, 0) == v.next_ssn);
    if fuel == 0 {
        assert(w.ready.take(v.ready.len() as int) =~= v.ready);
    } else {
        match v.delivered_next() {
            None => {
                assert(w.ready.take(v.ready.len() as int) =~= v.ready);
            },
            Some(next) => {
                lemma_drained_in_sequence(next, (fuel - 1) as nat);
                let n = v.ready.len() as int;
                assert(next.ready.len() == n + 1);
                assert(w.ready.take(n + 1) == next.ready);
                assert(w.ready.take(n) =~= v.ready) by {
                    assert forall|i: int| 0 <= i < n implies w.ready.take(n)[i] == v.ready[i] by {
                        assert(w.ready.take(n + 1)[i] == next.ready[i]);
                    }
                }
                crate::serial::lemma_add16_add(v.next_ssn, 1, w.ready.len() - next.ready.len());
                assert forall|i: int| n <= i < w.ready.len() implies {
                    &&& (#[trigger] w.ready[i]).ssn == add16(v.next_ssn, i - n)
                    &&& !w.ready[i].unordered
                    &&& w.ready[i].stream_id == v.si
                } by {
                    if i == n {
                        assert(w.ready.take(n + 1)[n] == next.ready[n]);
                    } else {
                        crate::serial::lemma_add16_add(v.next_ssn, 1, i - n - 1);
                    }
                }
            },
        }
    }
}

/// Handing over an unordered run keeps the queue well formed.
pub proof fn lemma_delivered_unordered(v: ReassemblyView, t: u32)
    requires
        v.wf(),
    ensures
        v.delivered_unordered(t).wf(),
        v.delivered_unordered(t).ready.len() >= v.ready.len(),
        v.delivered_unordered(t).si == v.si,
{
    match run_start(v.unordered, t, v.unordered.len()) {
        None => {},
        Some(t0) => match run_len(v.unordered, t0, v.unordered.len()) {
            None => {},
            Some(n) => {
                lemma_without_run(v.unordered, t0, n);
            },
        },
    }
}

/// The arrival of a fragment keeps the queue well formed and takes no message away.
pub proof fn lemma_pushed_wf(v: ReassemblyView, c: DataView)
    requires
        v.wf(),
    ensures
        v.pushed(c).wf(),
        v.pushed(c).ready.len() >= v.ready.len(),
        v.pushed(c).si == v.si,
{
    if v.takes(c) {
        if c.unordered {
            lemma_push_distinct(v.unordered, c);
            lemma_delivered_unordered(ReassemblyView { unordered: v.unordered.push(c), ..v }, c.tsn);
        } else {
            lemma_push_distinct(v.ordered, c);
            let w = ReassemblyView { ordered: v.ordered.push(c), ..v };
            lemma_drained_fuel(w, w.ordered.len(), w.ordered.len());
        }
    }
}

/// The place in the pool of the fragment with the sequence number `t`, if there is one.
fn position(pool: &Vec<DataChunk>, t: u32) -> (r: Option<usize>)
    ensures
        match r {
            Some(i) => i < pool.len() && pool@[i as int].tsn == t && has_tsn(data_views(pool@), t),
            None => !has_tsn(data_views(pool@), t),
        },
        distinct(data_views(pool@)) ==> (r matches Some(i) ==> i == index_of(data_views(pool@), t)),
{
    let mut i: usize = 0;
    while i < pool.len()
        invariant
            i <= pool.len(),
            forall|j: int| 0 <= j < i ==> (#[trigger] data_views(pool@)[j]).tsn != t,
        decreases pool.len() - i,
    {
        if pool[i].tsn == t {
            assert(data_views(pool@)[i as int].tsn == t);
            return Some(i);
        }
        i = i + 1;
    }
    None
}

/// See `run_len`.
fn measure_run(pool: &Vec<DataChunk>, t: u32) -> (r: Option<usize>)
    requires
        distinct(data_views(pool@)),
    ensures
        match r {
            Some(n) => run_len(data_views(pool@), t, pool.len() as nat) == Some(n as nat),
            None => run_len(data_views(pool@), t, pool.len() as nat).is_none(),
        },
{
    let ghost views = data_views(pool@);
    let mut cur: u32 = t;
    let mut count: usize = 0;
    let mut fuel: usize = pool.len();
    while fuel > 0
        invariant
            views == data_views(pool@),
            distinct(views),
            count + fuel == pool.len(),
            match run_len(views, cur, fuel as nat) {
                Some(m) => run_len(views, t, pool.len() as nat) == Some((m + count) as nat),
                None => run_len(views, t, pool.len() as nat).is_none(),
            },
        decreases fuel,
    {
        match position(pool, cur) {
            None => {
                return None;
            },
            Some(i) => {
                assert(views[i as int] == pool@[i as int]@);
                if pool[i].ending_fragment {
                    return Some(count + 1);
                }
                cur = cur.wrapping_add(1);
                count = count + 1;
                fuel = fuel - 1;
            },
        }
    }
    None
}

/// See `run_start`.
fn find_start(pool: &Vec<DataChunk>, t: u32) -> (r: Option<u32>)
    requires
        distinct(data_views(pool@)),
    ensures
        r == run_start(data_views(pool@), t, pool.len() as nat),
{
    let ghost views = data_views(pool@);
    let mut cur: u32 = t;
    let mut fuel: usize = pool.len();
    while fuel > 0
        invariant
            views == data_views(pool@),
            distinct(views),
            fuel <= pool.len(),
            run_start(views, cur, fuel as nat) == run_start(views, t, pool.len() as nat),
        decreases fuel,
    {
        match position(pool, cur) {
            None => {
                return None;
            },
            Some(i) => {
                assert(views[i as int] == pool@[i as int]@);
                if pool[i].beginning_fragment {
                    return Some(cur);
                }
                cur = cur.wrapping_sub(1);
                fuel = fuel - 1;
            },
        }
    }
    None
}

/// See `begin_index`.
fn find_begin(pool: &Vec<DataChunk>, ssn: u16) -> (r: Option<usize>)
    ensures
        match r {
            Some(i) => begin_index(data_views(pool@), ssn) == Some(i as int) && i < pool.len(),
            None => begin_index(data_views(pool@), ssn).is_none(),
        },
{
    let ghost views = data_views(pool@);
    let mut i: usize = 0;
    proof {
        lemma_begin_index(views, ssn);
    }
    while i < pool.len()
        invariant
            i <= pool.len(),
            views == data_views(pool@),
            forall|j: int| 0 <= j < i ==> !((#[trigger] views[j]).beginning_fragment && views[j].ssn == ssn),
        decreases pool.len() - i,
    {
        if pool[i].beginning_fragment && pool[i].ssn == ssn {
            proof {
                lemma_begin_index(views, ssn);
                assert(views[i as int] == pool@[i as int]@);
            }
            return Some(i);
        }
        assert(views[i as int] == pool@[i as int]@);
        i = i + 1;
    }
    proof {
        lemma_begin_index(views, ssn);
    }
    None
}

/// See `gather`.
fn collect(pool: &Vec<DataChunk>, t: u32, n: usize) -> (r: Vec<u8>)
    requires
        distinct(data_views(pool@)),
        forall|j: int| 0 <= j < n ==> has_tsn(data_views(pool@), #[trigger] add32(t, j)),
    ensures
        r@ == gather(data_views(pool@), t, n as nat),
{
    let ghost views = data_views(pool@);
    let mut out: Vec<u8> = Vec::new();
    let mut j: usize = 0;
    let mut cur: u32 = t;
    assert(add32(t, 0) == t);
    while j < n
        invariant
            j <= n,
            views == data_views(pool@),
            distinct(views),
            cur == add32(t, j as int),
            forall|m: int| 0 <= m < n ==> has_tsn(views, #[trigger] add32(t, m)),
            out@ == gather(views, t, j as nat),
        decreases n - j,
    {
        assert(has_tsn(views, add32(t, j as int)));
        match position(pool, cur) {
            None => {
                assert(false);
            },
            Some(i) => {
                assert(views[i as int] == pool@[i as int]@);
                out.extend_from_slice(pool[i].payload.as_slice());
            },
        }
        proof {
            crate::serial::lemma_add32_add(t, j as int, 1);
        }
        cur = cur.wrapping_add(1);
        j = j + 1;
    }
    out
}

/// See `without_run`.
fn discard(pool: &mut Vec<DataChunk>, t: u32, n: usize)
    requires
        distinct(data_views(old(pool)@)),
    ensures
        data_views(final(pool)@) == without_run(data_views(old(pool)@), t, n as nat),
        distinct(data_views(final(pool)@)),
{
    let ghost start = data_views(pool@);
    let mut j: usize = 0;
    let mut cur: u32 = t;
    assert(add32(t, 0) == t);
    while j < n
        invariant
            j <= n,
            cur == add32(t, j as int),
            distinct(data_views(pool@)),
            data_views(pool@) == without_run(start, t, j as nat),
        decreases n - j,
    {
        let ghost before = data_views(pool@);
        match position(pool, cur) {
            None => {},
            Some(i) => {
                let _ = pool.remove(i);
                proof {
                    assert(data_views(pool@) =~= before.remove(i as int));
                    lemma_remove_index_distinct(before, i as int);
                }
            },
        }
        proof {
            crate::serial::lemma_add32_add(t, j as int, 1);
        }
        cur = cur.wrapping_add(1);
        j = j + 1;
    }
}


/// Why a read gave no message.
#[derive(Clone, Copy, Debug, PartialEq, Eq, Structural)]
pub enum ReadError {
    /// No whole message is waiting.
    NotReadable,
    /// The buffer is smaller than the next message, which stays in the queue.
    ShortBuffer,
}

/// Puts the fragments of one inbound stream together into whole messages.
#[derive(Debug)]
pub struct ReassemblyQueue {
    si: u16,
    next_ssn: u16,
    ordered: Vec<DataChunk>,
    unordered: Vec<DataChunk>,
    ready: Vec<Message>,
}

impl View for ReassemblyQueue {
    type V = ReassemblyView;

    closed spec fn view(&self) -> ReassemblyView {
        ReassemblyView {
            si: self.si,
            next_ssn: self.next_ssn,
            ordered: data_views(self.ordered@),
            unordered: data_views(self.unordered@),
            ready: message_views(self.ready@),
        }
    }
}

impl ReassemblyQueue {
    /// The queue's model is well formed.
    pub open spec fn wf(&self) -> bool {
        self@.wf()
    }

    /// An empty queue for the stream `si`. The first ordered message it
    /// hands over is the one with stream sequence number zero.
    pub fn new(si: u16) -> (q: ReassemblyQueue)
        ensures
            q.wf(),
            q@ == ReassemblyView::empty(si),
    {
        let q = ReassemblyQueue {
            si,
            next_ssn: 0,
            ordered: Vec::new(),
            unordered: Vec::new(),
            ready: Vec::new(),
        };
        assert(q@.ordered =~= Seq::<DataView>::empty());
        assert(q@.unordered =~= Seq::<DataView>::empty());
        assert(q@.ready =~= Seq::<MessageView>::empty());
        q
    }

    /// The stream that the queue serves.
    pub fn stream_identifier(&self) -> (si: u16)
        ensures
            si == self@.si,
    {
        self.si
    }

    /// The stream sequence number of the next ordered message to hand over.
    pub fn next_ssn(&self) -> (ssn: u16)
        ensures
            ssn == self@.next_ssn,
    {
        self.next_ssn
    }

    /// Hands the next ordered message over, if it is whole. Returns whether it did.
    fn deliver_next(&mut self) -> (done: bool)
        requires
            old(self).wf(),
        ensures
            final(self).wf(),
            match old(self)@.delivered_next() {
                Some(w) => done && final(self)@ == w,
                None => !done && final(self)@ == old(self)@,
            },
    {
        proof {
            lemma_delivered_next(self@);
        }
        let i: usize = match find_begin(&self.ordered, self.next_ssn) {
            None => {
                return false;
            },
            Some(i) => i,
        };
        let t: u32 = self.ordered[i].tsn;
        let ppi: PayloadProtocolIdentifier = self.ordered[i].ppi;
        assert(self@.ordered[i as int] == self.ordered@[i as int]@);
        let n: usize = match measure_run(&self.ordered, t) {
            None => {
                return false;
            },
            Some(n) => n,
        };
        proof {
            lemma_run_present(self@.ordered, t, self@.ordered.len(), n as nat);
        }
        let payload: Vec<u8> = collect(&self.ordered, t, n);
        discard(&mut self.ordered, t, n);
        let m = Message { stream_id: self.si, ssn: self.next_ssn, ppi, unordered: false, tsn: t, payload };
        let ghost before = message_views(self.ready@);
        self.ready.push(m);
        assert(message_views(self.ready@) =~= before.push(m@));
        self.next_ssn = next16(self.next_ssn);
        true
    }

    /// Hands over every ordered message that is whole and in turn.
    fn drain(&mut self)
        requires
            old(self).wf(),
        ensures
            final(self).wf(),
            final(self)@ == old(self)@.drained(old(self)@.ordered.len()),
    {
        let ghost target = self@.drained(self@.ordered.len());
        loop
            invariant
                self.wf(),
                self@.drained(self@.ordered.len()) == target,
            ensures
                self.wf(),
                self@ == target,
            decreases self@.ordered.len(),
        {
            let ghost v = self@;
            proof {
                lemma_delivered_next(v);
                lemma_begin_index(v.ordered, v.next_ssn);
            }
            if !self.deliver_next() {
                break;
            }
            proof {
                lemma_drained_fuel(self@, (v.ordered.len() - 1) as nat, self@.ordered.len());
            }
        }
    }

    /// Hands over the unordered run that the sequence number `t` belongs to, if it is whole.
    fn deliver_unordered(&mut self, t: u32)
        requires
            old(self).wf(),
        ensures
            final(self).wf(),
            final(self)@ == old(self)@.delivered_unordered(t),
    {
        proof {
            lemma_delivered_unordered(self@, t);
        }
        let t0: u32 = match find_start(&self.unordered, t) {
            None => {
                return;
            },
            Some(t0) => t0,
        };
        let n: usize = match measure_run(&self.unordered, t0) {
            None => {
                return;
            },
            Some(n) => n,
        };
        proof {
            lemma_run_present(self@.unordered, t0, self@.unordered.len(), n as nat);
            lemma_run_start_present(self@.unordered, t, self@.unordered.len(), t0);
        }
        let i: usize = match position(&self.unordered, t0) {
            None => {
                return;
            },
            Some(i) => i,
        };
        assert(self@.unordered[i as int] == self.unordered@[i as int]@);
        let ssn: u16 = self.unordered[i].ssn;
        let ppi: PayloadProtocolIdentifier = self.unordered[i].ppi;
        let payload: Vec<u8> = collect(&self.unordered, t0, n);
        discard(&mut self.unordered, t0, n);
        let m = Message { stream_id: self.si, ssn, ppi, unordered: true, tsn: t0, payload };
        let ghost before = message_views(self.ready@);
        self.ready.push(m);
        assert(message_views(self.ready@) =~= before.push(m@));
    }

    /// Takes a fragment that has arrived. Returns whether a message became readable with it.
    ///
    /// A fragment for another stream, one that is in the queue already, and
    /// an ordered one of a message that the stream has moved past are
    /// dropped.
    pub fn push(&mut self, chunk: DataChunk) -> (readable: bool)
        requires
            old(self).wf(),
        ensures
            final(self).wf(),
            final(self)@ == old(self)@.pushed(chunk@),
            final(self)@.si == old(self)@.si,
            readable == (final(self)@.ready.len() > old(self)@.ready.len()),
    {
        proof {
            lemma_pushed_wf(self@, chunk@);
        }
        if chunk.stream_id != self.si {
            return false;
        }
        let before: usize = self.ready.len();
        if chunk.unordered {
            if position(&self.unordered, chunk.tsn).is_some() {
                return false;
            }
            let t: u32 = chunk.tsn;
            let ghost pool = data_views(self.unordered@);
            proof {
                lemma_push_distinct(pool, chunk@);
            }
            self.unordered.push(chunk);
            assert(data_views(self.unordered@) =~= pool.push(chunk@));
            self.deliver_unordered(t);
        } else {
            if sna16lt(chunk.ssn, self.next_ssn) {
                return false;
            }
            if position(&self.ordered, chunk.tsn).is_some() {
                return false;
            }
            let ghost pool = data_views(self.ordered@);
            proof {
                lemma_push_distinct(pool, chunk@);
            }
            self.ordered.push(chunk);
            assert(data_views(self.ordered@) =~= pool.push(chunk@));
            self.drain();
        }
        self.ready.len() > before
    }

    /// The number of payload bytes that the queue holds, or the largest
    /// number there is if it holds more.
    pub fn get_num_bytes(&self) -> (n: usize)
        ensures
            n == (if self@.bytes() > usize::MAX { usize::MAX as nat } else { self@.bytes() }),
    {
        let mut total: usize = 0;
        let mut i: usize = 0;
        let ghost ordered = data_views(self.ordered@);
        assert(ordered.take(0) =~= Seq::<DataView>::empty());
        while i < self.ordered.len()
            invariant
                i <= self.ordered.len(),
                ordered == data_views(self.ordered@),
                total == (if pool_bytes(ordered.take(i as int)) > usize::MAX {
                    usize::MAX as nat
                } else {
                    pool_bytes(ordered.take(i as int))
                }),
            decreases self.ordered.len() - i,
        {
            proof {
                assert(ordered.take(i + 1).drop_last() =~= ordered.take(i as int));
                assert(ordered.take(i + 1).last() == self.ordered@[i as int]@);
            }
            let len: usize = self.ordered[i].payload.len();
            total = if total <= usize::MAX - len { total + len } else { usize::MAX };
            i = i + 1;
        }
        assert(ordered.take(self.ordered.len() as int) =~= ordered);
        let ghost first = pool_bytes(ordered);
        let ghost unordered = data_views(self.unordered@);
        let mut i: usize = 0;
        assert(unordered.take(0) =~= Seq::<DataView>::empty());
        while i < self.unordered.len()
            invariant
                i <= self.unordered.len(),
                unordered == data_views(self.unordered@),
                total == (if first + pool_bytes(unordered.take(i as int)) > usize::MAX {
                    usize::MAX as nat
                } else {
                    first + pool_bytes(unordered.take(i as int))
                }),
            decreases self.unordered.len() - i,
        {
            proof {
                assert(unordered.take(i + 1).drop_last() =~= unordered.take(i as int));
                assert(unordered.take(i + 1).last() == self.unordered@[i as int]@);
            }
            let len: usize = self.unordered[i].payload.len();
            total = if total <= usize::MAX - len { total + len } else { usize::MAX };
            i = i + 1;
        }
        assert(unordered.take(self.unordered.len() as int) =~= unordered);
        let ghost second = first + pool_bytes(unordered);
        let ghost ready = message_views(self.ready@);
        let mut i: usize = 0;
        assert(ready.take(0) =~= Seq::<MessageView>::empty());
        while i < self.ready.len()
            invariant
                i <= self.ready.len(),
                ready == message_views(self.ready@),
                total == (if second + message_bytes(ready.take(i as int)) > usize::MAX {
                    usize::MAX as nat
                } else {
                    second + message_bytes(ready.take(i as int))
                }),
            decreases self.ready.len() - i,
        {
            proof {
                assert(ready.take(i + 1).drop_last() =~= ready.take(i as int));
                assert(ready.take(i + 1).last() == self.ready@[i as int]@);
            }
            let len: usize = self.ready[i].payload.len();
            total = if total <= usize::MAX - len { total + len } else { usize::MAX };
            i = i + 1;
        }
        assert(ready.take(self.ready.len() as int) =~= ready);
        total
    }

    /// How many whole messages are waiting to be read.
    pub fn ready_len(&self) -> (n: usize)
        ensures
            n == self@.ready.len(),
    {
        self.ready.len()
    }

    /// Whether a whole message is waiting to be read.
    pub fn is_readable(&self) -> (b: bool)
        ensures
            b == (self@.ready.len() > 0),
    {
        self.ready.len() > 0
    }

    /// The size of the message that the next read gives, if one is waiting.
    pub fn next_len(&self) -> (n: Option<usize>)
        ensures
            n == (if self@.ready.len() > 0 {
                Some(self@.ready[0].payload.len() as usize)
            } else {
                None
            }),
    {
        if self.ready.len() > 0 {
            assert(self@.ready[0] == self.ready@[0]@);
            Some(self.ready[0].payload.len())
        } else {
            None
        }
    }

    /// Takes the next whole message out of the queue, if one is waiting.
    pub fn read(&mut self) -> (r: Option<Message>)
        requires
            old(self).wf(),
        ensures
            final(self).wf(),
            match r {
                Some(m) => {
                    &&& old(self)@.ready.len() > 0
                    &&& m@ == old(self)@.ready[0]
                    &&& final(self)@ == (ReassemblyView { ready: old(self)@.ready.drop_first(), ..old(self)@ })
                },
                None => old(self)@.ready.len() == 0 && final(self)@ == old(self)@,
            },
    {
        if self.ready.len() == 0 {
            return None;
        }
        let ghost before = message_views(self.ready@);
        let m = self.ready.remove(0);
        assert(message_views(self.ready@) =~= before.drop_first());
        assert(m@ == before[0]);
        Some(m)
    }

    /// Takes the next whole message out of the queue if it fits a buffer of
    /// `capacity` bytes.
    ///
    /// A message that does not fit stays in the queue, so that a later read
    /// with a larger buffer gets it: a failed read takes nothing away.
    pub fn read_within(&mut self, capacity: usize) -> (r: Result<Message, ReadError>)
        requires
            old(self).wf(),
        ensures
            final(self).wf(),
            match r {
                Ok(m) => {
                    &&& old(self)@.ready.len() > 0
                    &&& old(self)@.ready[0].payload.len() <= capacity
                    &&& m@ == old(self)@.ready[0]
                    &&& final(self)@ == (ReassemblyView { ready: old(self)@.ready.drop_first(), ..old(self)@ })
                },
                Err(e) => {
                    &&& final(self)@ == old(self)@
                    &&& e == (if old(self)@.ready.len() == 0 {
                        ReadError::NotReadable
                    } else {
                        ReadError::ShortBuffer
                    })
                    &&& old(self)@.ready.len() == 0 || old(self)@.ready[0].payload.len() > capacity
                },
            },
    {
        if self.ready.len() == 0 {
            return Err(ReadError::NotReadable);
        }
        assert(self@.ready[0] == self.ready@[0]@);
        if self.ready[0].payload.len() > capacity {
            return Err(ReadError::ShortBuffer);
        }
        match self.read() {
            Some(m) => Ok(m),
            None => Err(ReadError::NotReadable),
        }
    }

    /// Moves the stream past the ordered messages up to `last_ssn`, which
    /// the sender has given up: their fragments are dropped, and the messages
    /// that waited behind them are handed over as far as they are whole.
    /// Nothing changes if the stream is past `last_ssn` already.
    pub fn forward_tsn_for_ordered(&mut self, last_ssn: u16)
        requires
            old(self).wf(),
        ensures
            final(self).wf(),
            final(self)@ == old(self)@.ordered_forwarded(last_ssn),
            final(self)@.si == old(self)@.si,
            final(self)@.ready.len() >= old(self)@.ready.len(),
    {
        if !sna16lte(self.next_ssn, last_ssn) {
            return;
        }
        let ghost start = data_views(self.ordered@);
        let mut i: usize = 0;
        let ghost mut j: int = 0;
        assert(start.take(0) =~= Seq::<DataView>::empty());
        assert(start.skip(0) =~= start);
        while i < self.ordered.len()
            invariant
                0 <= j <= start.len(),
                i <= self.ordered.len(),
                i == without_ssn_upto(start.take(j), last_ssn).len(),
                data_views(self.ordered@) == without_ssn_upto(start.take(j), last_ssn) + start.skip(j),
                distinct(data_views(self.ordered@)),
                self.unordered == old(self).unordered,
                self.ready == old(self).ready,
                self.si == old(self).si,
                self.next_ssn == old(self).next_ssn,
            decreases self.ordered.len() - i,
        {
            let ghost cur = data_views(self.ordered@);
            proof {
                assert(cur[i as int] == start.skip(j)[0]);
                assert(start.take(j + 1).drop_last() =~= start.take(j));
                assert(start.take(j + 1).last() == start[j]);
                assert(cur[i as int] == self.ordered@[i as int]@);
            }
            if sna16lte(self.ordered[i].ssn, last_ssn) {
                let _ = self.ordered.remove(i);
                proof {
                    lemma_remove_index_distinct(cur, i as int);
                    assert(data_views(self.ordered@) =~= cur.remove(i as int));
                    assert(cur.remove(i as int) =~= without_ssn_upto(start.take(j + 1), last_ssn)
                        + start.skip(j + 1));
                }
            } else {
                proof {
                    assert(cur =~= without_ssn_upto(start.take(j + 1), last_ssn) + start.skip(j + 1));
                }
                i = i + 1;
            }
            proof {
                j = j + 1;
            }
        }
        proof {
            assert(j == start.len()) by {
                if j < start.len() {
                    assert(data_views(self.ordered@).len() == i + (start.len() - j));
                }
            }
            assert(start.take(j) =~= start);
            assert(start.skip(j) =~= Seq::<DataView>::empty());
            assert(data_views(self.ordered@) =~= without_ssn_upto(start, last_ssn));
        }
        self.next_ssn = next16(last_ssn);
        proof {
            lemma_drained_fuel(self@, self@.ordered.len(), self@.ordered.len());
        }
        self.drain();
    }

    /// Drops the unordered fragments whose sequence number is `new_cumulative_tsn`
    /// or earlier: the sender has given them up.
    pub fn forward_tsn_for_unordered(&mut self, new_cumulative_tsn: u32)
        requires
            old(self).wf(),
        ensures
            final(self).wf(),
            final(self)@ == old(self)@.unordered_forwarded(new_cumulative_tsn),
            final(self)@.si == old(self)@.si,
            final(self)@.ready == old(self)@.ready,
    {
        let ghost start = data_views(self.unordered@);
        let mut i: usize = 0;
        let ghost mut j: int = 0;
        assert(start.take(0) =~= Seq::<DataView>::empty());
        assert(start.skip(0) =~= start);
        while i < self.unordered.len()
            invariant
                0 <= j <= start.len(),
                i <= self.unordered.len(),
                i == without_tsn_upto(start.take(j), new_cumulative_tsn).len(),
                data_views(self.unordered@) == without_tsn_upto(start.take(j), new_cumulative_tsn)
                    + start.skip(j),
                distinct(data_views(self.unordered@)),
                distinct(data_views(self.ordered@)),
                self.ordered == old(self).ordered,
                self.ready == old(self).ready,
                self.si == old(self).si,
                self.next_ssn == old(self).next_ssn,
            decreases self.unordered.len() - i,
        {
            let ghost cur = data_views(self.unordered@);
            proof {
                assert(cur[i as int] == start.skip(j)[0]);
                assert(start.take(j + 1).drop_last() =~= start.take(j));
                assert(start.take(j + 1).last() == start[j]);
                assert(cur[i as int] == self.unordered@[i as int]@);
            }
            if sna32lte(self.unordered[i].tsn, new_cumulative_tsn) {
                let _ = self.unordered.remove(i);
                proof {
                    lemma_remove_index_distinct(cur, i as int);
                    assert(data_views(self.unordered@) =~= cur.remove(i as int));
                    assert(cur.remove(i as int) =~= without_tsn_upto(
                        start.take(j + 1),
                        new_cumulative_tsn,
                    ) + start.skip(j + 1));
                }
            } else {
                proof {
                    assert(cur =~= without_tsn_upto(start.take(j + 1), new_cumulative_tsn) + start.skip(
                        j + 1,
                    ));
                }
                i = i + 1;
            }
            proof {
                j = j + 1;
            }
        }
        proof {
            assert(j == start.len()) by {
                if j < start.len() {
                    assert(data_views(self.unordered@).len() == i + (start.len() - j));
                }
            }
            assert(start.take(j) =~= start);
            assert(start.skip(j) =~= Seq::<DataView>::empty());
            assert(data_views(self.unordered@) =~= without_tsn_upto(start, new_cumulative_tsn));
        }
    }
}


/// The parts of a sequence of byte strings, one after the other.
pub open spec fn concat(parts: Seq<Seq<u8>>) -> Seq<u8>
    decreases parts.len(),
{
    if parts.len() == 0 {
        Seq::<u8>::empty()
    } else {
        concat(parts.drop_last()) + parts.last()
    }
}

/// A user message cut into fragments: `parts` are the fragments' payloads in
/// order, and the first fragment has the sequence number `tsn`.
pub struct Split {
    pub stream_id: u16,
    pub ssn: u16,
    pub ppi: PayloadProtocolIdentifier,
    pub unordered: bool,
    pub tsn: u32,
    pub parts: Seq<Seq<u8>>,
}

impl Split {
    /// There is at least one fragment, and fewer than the sequence space has numbers.
    pub open spec fn wf(self) -> bool {
        1 <= self.parts.len() < 0x1_0000_0000
    }

    /// The sequence number of the fragment `i`.
    pub open spec fn tsn_of(self, i: int) -> u32 {
        add32(self.tsn, i)
    }

    /// The fragment `i`: only the first begins the message and only the last ends it.
    pub open spec fn fragment(self, i: int) -> DataView {
        DataView {
            tsn: self.tsn_of(i),
            stream_id: self.stream_id,
            ssn: self.ssn,
            ppi: self.ppi,
            beginning_fragment: i == 0,
            ending_fragment: i == self.parts.len() - 1,
            unordered: self.unordered,
            payload: self.parts[i],
        }
    }

    /// The fragments as they arrive when `order[k]` is the fragment that arrives as number `k`.
    pub open spec fn arrivals(self, order: Seq<int>) -> Seq<DataView> {
        Seq::new(self.parts.len(), |k: int| self.fragment(order[k]))
    }

    /// The message that was cut.
    pub open spec fn message(self) -> MessageView {
        MessageView {
            stream_id: self.stream_id,
            ssn: self.ssn,
            ppi: self.ppi,
            unordered: self.unordered,
            tsn: self.tsn,
            payload: concat(self.parts),
        }
    }
}

/// `order` rearranges the numbers below `n`, and `rank` puts them back:
/// `order[k]` is the number at place `k`, and `rank[i]` is the place of the number `i`.
pub open spec fn rearranges(order: Seq<int>, rank: Seq<int>, n: nat) -> bool {
    &&& order.len() == n
    &&& rank.len() == n
    &&& forall|k: int| 0 <= k < n ==> 0 <= #[trigger] order[k] < n && rank[order[k]] == k
    &&& forall|i: int| 0 <= i < n ==> 0 <= #[trigger] rank[i] < n && order[rank[i]] == i
}

/// What the pool holds after the first `k` fragments of a message have
/// arrived in some order: no sequence number twice, the fragment `i` exactly
/// if its place in the order is below `k`, and under each sequence number the
/// fragment that has it.
proof fn lemma_arrived(m: Split, order: Seq<int>, rank: Seq<int>, k: int)
    requires
        m.wf(),
        rearranges(order, rank, m.parts.len()),
        0 <= k <= m.parts.len(),
    ensures
        distinct(m.arrivals(order).take(k)),
        forall|i: int|
            0 <= i < m.parts.len() ==> (has_tsn(m.arrivals(order).take(k), #[trigger] m.tsn_of(i)) <==> rank[i]
                < k),
        forall|i: int|
            0 <= i < m.parts.len() && rank[i] < k ==> at(m.arrivals(order).take(k), #[trigger] m.tsn_of(i))
                == m.fragment(i),
{
    let pool = m.arrivals(order).take(k);
    assert forall|a: int, b: int|
        0 <= a < pool.len() && 0 <= b < pool.len() && (#[trigger] pool[a]).tsn == (#[trigger] pool[b]).tsn implies a
        == b by {
        crate::serial::lemma_add32_injective(m.tsn, order[a], order[b]);
    }
    assert forall|i: int| 0 <= i < m.parts.len() implies (has_tsn(pool, #[trigger] m.tsn_of(i)) <==> rank[i]
        < k) by {
        if rank[i] < k {
            assert(pool[rank[i]].tsn == m.tsn_of(i));
        }
        if has_tsn(pool, m.tsn_of(i)) {
            let a = choose|a: int| 0 <= a < pool.len() && (#[trigger] pool[a]).tsn == m.tsn_of(i);
            crate::serial::lemma_add32_injective(m.tsn, order[a], i);
        }
    }
    assert forall|i: int| 0 <= i < m.parts.len() && rank[i] < k implies at(pool, #[trigger] m.tsn_of(i))
        == m.fragment(i) by {
        assert(pool[rank[i]].tsn == m.tsn_of(i));
        let a = index_of(pool, m.tsn_of(i));
        crate::serial::lemma_add32_injective(m.tsn, order[a], i);
    }
}

/// While a fragment is missing, no run that starts at or below it is whole.
proof fn lemma_run_broken(m: Split, pool: Seq<DataView>, j: int, missing: int, fuel: nat)
    requires
        m.wf(),
        0 <= j <= missing < m.parts.len(),
        !has_tsn(pool, m.tsn_of(missing)),
        forall|i: int|
            0 <= i < m.parts.len() && has_tsn(pool, #[trigger] m.tsn_of(i)) ==> at(pool, m.tsn_of(i))
                == m.fragment(i),
    ensures
        run_len(pool, m.tsn_of(j), fuel).is_none(),
    decreases missing - j,
{
    if fuel > 0 && has_tsn(pool, m.tsn_of(j)) {
        assert(at(pool, m.tsn_of(j)) == m.fragment(j));
        crate::serial::lemma_add32_add(m.tsn, j, 1);
        lemma_run_broken(m, pool, j + 1, missing, (fuel - 1) as nat);
    }
}

/// While a fragment is missing, walking down from a fragment at or above it finds no start.
proof fn lemma_start_broken(m: Split, pool: Seq<DataView>, j: int, missing: int, fuel: nat)
    requires
        m.wf(),
        0 < missing <= j < m.parts.len(),
        !has_tsn(pool, m.tsn_of(missing)),
        forall|i: int|
            0 <= i < m.parts.len() && has_tsn(pool, #[trigger] m.tsn_of(i)) ==> at(pool, m.tsn_of(i))
                == m.fragment(i),
    ensures
        run_start(pool, m.tsn_of(j), fuel).is_none(),
    decreases j - missing,
{
    if fuel > 0 && has_tsn(pool, m.tsn_of(j)) {
        assert(at(pool, m.tsn_of(j)) == m.fragment(j));
        lemma_step_down(m.tsn, j);
        lemma_start_broken(m, pool, j - 1, missing, (fuel - 1) as nat);
    }
}

/// One step down from the sequence number `n` steps above `base` is the one `n - 1` steps above it.
proof fn lemma_step_down(base: u32, n: int)
    requires
        1 <= n < 0x1_0000_0000,
    ensures
        add32(add32(base, n), 0xffff_ffff) == add32(base, n - 1),
{
}

/// With every fragment in the pool, the run from the fragment `j` on is whole.
proof fn lemma_run_whole(m: Split, pool: Seq<DataView>, j: int, fuel: nat)
    requires
        m.wf(),
        0 <= j < m.parts.len(),
        fuel >= m.parts.len() - j,
        forall|i: int| 0 <= i < m.parts.len() ==> has_tsn(pool, #[trigger] m.tsn_of(i)),
        forall|i: int| 0 <= i < m.parts.len() ==> at(pool, #[trigger] m.tsn_of(i)) == m.fragment(i),
    ensures
        run_len(pool, m.tsn_of(j), fuel) == Some((m.parts.len() - j) as nat),
    decreases m.parts.len() - j,
{
    assert(at(pool, m.tsn_of(j)) == m.fragment(j));
    if j < m.parts.len() - 1 {
        crate::serial::lemma_add32_add(m.tsn, j, 1);
        lemma_run_whole(m, pool, j + 1, (fuel - 1) as nat);
    }
}

/// With every fragment in the pool, walking down from the fragment `j` finds the first fragment.
proof fn lemma_start_found(m: Split, pool: Seq<DataView>, j: int, fuel: nat)
    requires
        m.wf(),
        0 <= j < m.parts.len(),
        fuel >= j + 1,
        forall|i: int| 0 <= i < m.parts.len() ==> has_tsn(pool, #[trigger] m.tsn_of(i)),
        forall|i: int| 0 <= i < m.parts.len() ==> at(pool, #[trigger] m.tsn_of(i)) == m.fragment(i),
    ensures
        run_start(pool, m.tsn_of(j), fuel) == Some(m.tsn),
    decreases j,
{
    assert(at(pool, m.tsn_of(j)) == m.fragment(j));
    assert(m.tsn_of(0) == m.tsn);
    if j > 0 {
        lemma_step_down(m.tsn, j);
        lemma_start_found(m, pool, j - 1, (fuel - 1) as nat);
    }
}

/// With every fragment in the pool, the payloads gathered from the first
/// `n` fragments are the first `n` parts of the message.
proof fn lemma_gather_parts(m: Split, pool: Seq<DataView>, n: nat)
    requires
        m.wf(),
        n <= m.parts.len(),
        forall|i: int| 0 <= i < m.parts.len() ==> at(pool, #[trigger] m.tsn_of(i)) == m.fragment(i),
    ensures
        gather(pool, m.tsn, n) == concat(m.parts.take(n as int)),
    decreases n,
{
    if n > 0 {
        lemma_gather_parts(m, pool, (n - 1) as nat);
        assert(at(pool, m.tsn_of(n - 1)) == m.fragment(n - 1));
        assert(m.parts.take(n as int).drop_last() =~= m.parts.take(n - 1));
        assert(m.parts.take(n as int).last() == m.parts[n - 1]);
    }
}

/// Taking the first `n` fragments out of a pool that holds all of them
/// leaves the others, and that many fewer.
proof fn lemma_without_whole(m: Split, pool: Seq<DataView>, n: nat)
    requires
        m.wf(),
        n <= m.parts.len(),
        distinct(pool),
        forall|i: int| 0 <= i < m.parts.len() ==> has_tsn(pool, #[trigger] m.tsn_of(i)),
    ensures
        distinct(without_run(pool, m.tsn, n)),
        without_run(pool, m.tsn, n).len() == pool.len() - n,
        forall|i: int|
            n <= i < m.parts.len() ==> has_tsn(without_run(pool, m.tsn, n), #[trigger] m.tsn_of(i)),
    decreases n,
{
    if n > 0 {
        lemma_without_whole(m, pool, (n - 1) as nat);
        let prev = without_run(pool, m.tsn, (n - 1) as nat);
        let u = m.tsn_of(n - 1);
        assert(has_tsn(prev, u));
        lemma_remove_tsn(prev, u);
        assert forall|i: int| n <= i < m.parts.len() implies has_tsn(
            without_run(pool, m.tsn, n),
            #[trigger] m.tsn_of(i),
        ) by {
            if m.tsn_of(i) == u {
                crate::serial::lemma_add32_injective(m.tsn, i, n - 1);
            }
            assert(has_tsn(prev, m.tsn_of(i)));
        }
    }
}

/// While a fragment of the message is missing from the pool of unordered
/// fragments, the arrival of another one hands nothing over.
proof fn lemma_unordered_waits(w: ReassemblyView, m: Split, j: int, missing: int)
    requires
        m.wf(),
        0 <= j < m.parts.len(),
        0 <= missing < m.parts.len(),
        !has_tsn(w.unordered, m.tsn_of(missing)),
        forall|i: int|
            0 <= i < m.parts.len() && has_tsn(w.unordered, #[trigger] m.tsn_of(i)) ==> at(
                w.unordered,
                m.tsn_of(i),
            ) == m.fragment(i),
        forall|x: int|
            0 <= x < w.unordered.len() && (#[trigger] w.unordered[x]).beginning_fragment
                ==> w.unordered[x].tsn == m.tsn,
    ensures
        w.delivered_unordered(m.tsn_of(j)) == w,
{
    let pool = w.unordered;
    if 0 < missing <= j {
        lemma_start_broken(m, pool, j, missing, pool.len());
    } else {
        match run_start(pool, m.tsn_of(j), pool.len()) {
            None => {},
            Some(t0) => {
                lemma_run_start_present(pool, m.tsn_of(j), pool.len(), t0);
                let a = index_of(pool, t0);
                assert(pool[a].beginning_fragment);
                assert(t0 == m.tsn);
                assert(m.tsn_of(0) == m.tsn);
                lemma_run_broken(m, pool, 0, missing, pool.len());
            },
        }
    }
}

/// While a fragment of the message is missing from the pool of ordered
/// fragments, the message is not handed over.
proof fn lemma_ordered_waits(w: ReassemblyView, m: Split, missing: int)
    requires
        m.wf(),
        0 <= missing < m.parts.len(),
        !has_tsn(w.ordered, m.tsn_of(missing)),
        forall|i: int|
            0 <= i < m.parts.len() && has_tsn(w.ordered, #[trigger] m.tsn_of(i)) ==> at(
                w.ordered,
                m.tsn_of(i),
            ) == m.fragment(i),
        forall|x: int|
            0 <= x < w.ordered.len() && (#[trigger] w.ordered[x]).beginning_fragment ==> w.ordered[x].tsn
                == m.tsn,
    ensures
        w.drained(w.ordered.len()) == w,
{
    let pool = w.ordered;
    lemma_begin_index(pool, w.next_ssn);
    match begin_index(pool, w.next_ssn) {
        None => {},
        Some(i) => {
            assert(pool[i].beginning_fragment);
            assert(pool[i].tsn == m.tsn);
            assert(m.tsn_of(0) == m.tsn);
            lemma_run_broken(m, pool, 0, missing, pool.len());
        },
    }
    assert(w.delivered_next().is_none());
}

/// Of the fragments that have arrived, only the first fragment of the message begins a message.
proof fn lemma_arrived_begin(m: Split, order: Seq<int>, rank: Seq<int>, k: int)
    requires
        m.wf(),
        rearranges(order, rank, m.parts.len()),
        0 <= k <= m.parts.len(),
    ensures
        forall|x: int|
            0 <= x < k && (#[trigger] m.arrivals(order).take(k)[x]).beginning_fragment ==> m.arrivals(
                order,
            ).take(k)[x].tsn == m.tsn,
{
    assert(m.tsn_of(0) == m.tsn);
}

/// The state of a queue while the fragments of one message arrive in some
/// order: until the last one has arrived, all that arrived wait in the pool
/// and nothing is handed over.
proof fn lemma_waiting(v: ReassemblyView, m: Split, order: Seq<int>, rank: Seq<int>, k: int)
    requires
        v.wf(),
        m.wf(),
        rearranges(order, rank, m.parts.len()),
        m.stream_id == v.si,
        v.ordered.len() == 0,
        v.unordered.len() == 0,
        !m.unordered ==> v.next_ssn == m.ssn,
        0 <= k < m.parts.len(),
    ensures
        v.pushed_all(m.arrivals(order).take(k)) == (if m.unordered {
            ReassemblyView { unordered: m.arrivals(order).take(k), ..v }
        } else {
            ReassemblyView { ordered: m.arrivals(order).take(k), ..v }
        }),
    decreases k,
{
    let arr = m.arrivals(order);
    if k == 0 {
        assert(arr.take(0) =~= Seq::<DataView>::empty());
        assert(v.ordered =~= Seq::<DataView>::empty());
        assert(v.unordered =~= Seq::<DataView>::empty());
    } else {
        lemma_waiting(v, m, order, rank, k - 1);
        assert(arr.take(k).drop_last() =~= arr.take(k - 1));
        let c = m.fragment(order[k - 1]);
        assert(arr.take(k).last() == c);
        let before = v.pushed_all(arr.take(k - 1));
        lemma_arrived(m, order, rank, k - 1);
        lemma_arrived(m, order, rank, k);
        lemma_arrived_begin(m, order, rank, k);
        let pool = arr.take(k);
        assert(arr.take(k - 1).push(c) =~= pool);
        let missing = order[k];
        assert(rank[missing] == k);
        assert(!has_tsn(pool, m.tsn_of(missing)));
        assert(rank[order[k - 1]] == k - 1);
        assert(!has_tsn(arr.take(k - 1), m.tsn_of(order[k - 1])));
        assert(c.tsn == m.tsn_of(order[k - 1]));
        if m.unordered {
            assert(before.takes(c));
            let w = ReassemblyView { unordered: pool, ..v };
            lemma_unordered_waits(w, m, order[k - 1], missing);
        } else {
            assert(!lt16(m.ssn, m.ssn));
            assert(before.takes(c));
            let w = ReassemblyView { ordered: pool, ..v };
            lemma_ordered_waits(w, m, missing);
        }
    }
}

/// Cutting a message into fragments and feeding them to an empty queue in
/// any order yields exactly one message, the one that was cut: once the last
/// fragment has arrived, that message has joined those that wait to be read,
/// and no fragment is left behind. This holds of an ordered message that the
/// stream expects next, and of an unordered message.
pub proof fn lemma_any_order_yields_one_message(
    v: ReassemblyView,
    m: Split,
    order: Seq<int>,
    rank: Seq<int>,
)
    requires
        v.wf(),
        m.wf(),
        rearranges(order, rank, m.parts.len()),
        m.stream_id == v.si,
        v.ordered.len() == 0,
        v.unordered.len() == 0,
        !m.unordered ==> v.next_ssn == m.ssn,
    ensures
        v.pushed_all(m.arrivals(order)) == (ReassemblyView {
            ready: v.ready.push(m.message()),
            next_ssn: if m.unordered { v.next_ssn } else { add16(m.ssn, 1) },
            ordered: Seq::<DataView>::empty(),
            unordered: Seq::<DataView>::empty(),
            ..v
        }),
{
    let arr = m.arrivals(order);
    let n = m.parts.len() as int;
    lemma_waiting(v, m, order, rank, n - 1);
    lemma_arrived(m, order, rank, n - 1);
    lemma_arrived(m, order, rank, n);
    assert(arr.take(n) =~= arr);
    assert(arr.drop_last() =~= arr.take(n - 1));
    let c = m.fragment(order[n - 1]);
    assert(arr.last() == c);
    let before = v.pushed_all(arr.take(n - 1));
    assert(arr.take(n - 1).push(c) =~= arr);
    assert(!has_tsn(arr.take(n - 1), m.tsn_of(order[n - 1])));
    assert(before.takes(c));
    assert(m.tsn_of(0) == m.tsn);
    assert forall|i: int| 0 <= i < n implies has_tsn(arr, #[trigger] m.tsn_of(i)) by {}
    assert forall|i: int| 0 <= i < n implies at(arr, #[trigger] m.tsn_of(i)) == m.fragment(i) by {}
    lemma_run_whole(m, arr, 0, arr.len());
    lemma_gather_parts(m, arr, n as nat);
    assert(m.parts.take(n) =~= m.parts);
    lemma_without_whole(m, arr, n as nat);
    assert(without_run(arr, m.tsn, n as nat) =~= Seq::<DataView>::empty());
    if m.unordered {
        let w = ReassemblyView { unordered: arr, ..v };
        lemma_start_found(m, arr, order[n - 1], arr.len());
        assert(at(arr, m.tsn) == m.fragment(0));
        assert(v.unordered =~= Seq::<DataView>::empty());
        assert(v.ordered =~= Seq::<DataView>::empty());
    } else {
        let w = ReassemblyView { ordered: arr, ..v };
        lemma_begin_index(arr, w.next_ssn);
        assert(arr[rank[0]] == m.fragment(0));
        let i = begin_index(arr, w.next_ssn).unwrap();
        assert(arr[i] == m.fragment(order[i]));
        assert(order[i] == 0);
        let d = w.delivered_next().unwrap();
        assert(d.ordered.len() == 0);
        assert(begin_index(d.ordered, d.next_ssn).is_none());
        assert(d.delivered_next().is_none());
        assert(w.drained(arr.len()) == d.drained((arr.len() - 1) as nat));
        assert(d.drained((arr.len() - 1) as nat) == d);
        assert(v.unordered =~= Seq::<DataView>::empty());
    }
}


/// Whether the sequence number `t` is that of one of the first `n` fragments of the message.
pub open spec fn in_range(m: Split, n: nat, t: u32) -> bool {
    dist32(m.tsn, t) < n
}

/// A pool that holds the first `n` fragments of a message holds at least `n` fragments.
proof fn lemma_pool_has_at_least(pool: Seq<DataView>, m: Split, n: nat)
    requires
        m.wf(),
        distinct(pool),
        n <= m.parts.len(),
        forall|i: int| 0 <= i < n ==> has_tsn(pool, #[trigger] m.tsn_of(i)),
    ensures
        pool.len() >= n,
    decreases n,
{
    if n > 0 {
        let u = m.tsn_of(n - 1);
        assert(has_tsn(pool, u));
        lemma_remove_tsn(pool, u);
        let rest = remove_tsn(pool, u);
        assert forall|i: int| 0 <= i < n - 1 implies has_tsn(rest, #[trigger] m.tsn_of(i)) by {
            if m.tsn_of(i) == u {
                crate::serial::lemma_add32_injective(m.tsn, i, n - 1);
            }
            assert(has_tsn(pool, m.tsn_of(i)));
        }
        lemma_pool_has_at_least(rest, m, (n - 1) as nat);
    }
}

/// Walking down from a fragment of a message through a pool in which the
/// message's sequence numbers hold the message's fragments leads to the
/// first fragment of the message or nowhere.
proof fn lemma_start_within(m: Split, pool: Seq<DataView>, j: int, fuel: nat)
    requires
        m.wf(),
        0 <= j < m.parts.len(),
        forall|i: int|
            0 <= i < m.parts.len() && has_tsn(pool, #[trigger] m.tsn_of(i)) ==> at(pool, m.tsn_of(i))
                == m.fragment(i),
    ensures
        run_start(pool, m.tsn_of(j), fuel).is_none() || run_start(pool, m.tsn_of(j), fuel) == Some(m.tsn),
    decreases j,
{
    assert(m.tsn_of(0) == m.tsn);
    if fuel > 0 && has_tsn(pool, m.tsn_of(j)) {
        assert(at(pool, m.tsn_of(j)) == m.fragment(j));
        if j > 0 {
            lemma_step_down(m.tsn, j);
            lemma_start_within(m, pool, j - 1, (fuel - 1) as nat);
        }
    }
}

/// The sequence numbers of the first `n` fragments of a message are those within `n` steps of its first.
proof fn lemma_in_range(m: Split, n: nat, t: u32)
    requires
        m.wf(),
        n <= m.parts.len(),
    ensures
        in_range(m, n, t) <==> exists|i: int| 0 <= i < n && #[trigger] m.tsn_of(i) == t,
{
    if in_range(m, n, t) {
        assert(m.tsn_of(dist32(m.tsn, t)) == t);
    }
}

/// Taking the first `n` fragments of a message out of a pool that holds
/// them takes exactly these out: what has another sequence number stays and
/// is found as before, and nothing comes in.
proof fn lemma_without_effect(m: Split, pool: Seq<DataView>, n: nat)
    requires
        m.wf(),
        n <= m.parts.len(),
        distinct(pool),
        forall|i: int| 0 <= i < m.parts.len() ==> has_tsn(pool, #[trigger] m.tsn_of(i)),
    ensures
        distinct(without_run(pool, m.tsn, n)),
        forall|t: u32| in_range(m, n, t) ==> !has_tsn(without_run(pool, m.tsn, n), t),
        forall|t: u32|
            !in_range(m, n, t) ==> (#[trigger] has_tsn(without_run(pool, m.tsn, n), t) == has_tsn(pool, t)),
        forall|t: u32|
            !in_range(m, n, t) && has_tsn(pool, t) ==> #[trigger] at(without_run(pool, m.tsn, n), t) == at(
                pool,
                t,
            ),
        forall|x: int|
            0 <= x < without_run(pool, m.tsn, n).len() ==> pool.contains(
                #[trigger] without_run(pool, m.tsn, n)[x],
            ),
    decreases n,
{
    let w = without_run(pool, m.tsn, n);
    if n == 0 {
        assert forall|x: int| 0 <= x < w.len() implies pool.contains(#[trigger] w[x]) by {
            assert(pool[x] == w[x]);
        }
    } else {
        lemma_without_effect(m, pool, (n - 1) as nat);
        let prev = without_run(pool, m.tsn, (n - 1) as nat);
        let u = m.tsn_of(n - 1);
        assert(!in_range(m, (n - 1) as nat, u));
        assert(has_tsn(prev, u) == has_tsn(pool, u));
        lemma_remove_tsn(prev, u);
        assert forall|t: u32| in_range(m, n, t) implies !has_tsn(w, t) by {
            if t != u {
                assert(in_range(m, (n - 1) as nat, t));
            }
        }
        assert forall|t: u32| !in_range(m, n, t) implies (#[trigger] has_tsn(w, t) == has_tsn(pool, t)) by {
            assert(t != u);
            assert(!in_range(m, (n - 1) as nat, t));
            assert(has_tsn(prev, t) == has_tsn(pool, t));
        }
        assert forall|t: u32| !in_range(m, n, t) && has_tsn(pool, t) implies #[trigger] at(w, t) == at(
            pool,
            t,
        ) by {
            assert(t != u);
            assert(!in_range(m, (n - 1) as nat, t));
            assert(has_tsn(prev, t) == has_tsn(pool, t));
            assert(at(prev, t) == at(pool, t));
        }
        assert forall|x: int| 0 <= x < w.len() implies pool.contains(#[trigger] w[x]) by {
            let k = index_of(prev, u);
            let y = if x < k { x } else { x + 1 };
            assert(w[x] == prev[y]);
            assert(pool.contains(prev[y]));
        }
    }
}

/// Whether the message `m` is among those that were handed over, from the place `from` on.
pub open spec fn handed_over(ready: Seq<MessageView>, from: int, m: MessageView) -> bool {
    exists|r: int| from <= r < ready.len() && #[trigger] ready[r] == m
}

/// Several unordered messages whose fragments arrive interleaved.
///
/// `who[k]` and `which[k]` say which fragment of which message arrives as
/// number `k`, and `place[a][i]` says as which number the fragment `i` of
/// the message `a` arrives.
pub struct Interleaving {
    pub msgs: Seq<Split>,
    pub who: Seq<int>,
    pub which: Seq<int>,
    pub place: Seq<Seq<int>>,
}

impl Interleaving {
    /// Whether `i` names a fragment of the message `a`.
    pub open spec fn valid(self, a: int, i: int) -> bool {
        0 <= a < self.msgs.len() && 0 <= i < self.msgs[a].parts.len()
    }

    /// The sequence number of the fragment `i` of the message `a`.
    pub open spec fn tsn(self, a: int, i: int) -> u32 {
        self.msgs[a].tsn_of(i)
    }

    /// The messages are well formed, unordered and on one stream, no two
    /// fragments have the same sequence number, and every fragment arrives
    /// exactly once.
    pub open spec fn wf(self, si: u16) -> bool {
        &&& self.who.len() == self.which.len()
        &&& self.place.len() == self.msgs.len()
        &&& forall|a: int|
            0 <= a < self.msgs.len() ==> {
                &&& (#[trigger] self.msgs[a]).wf()
                &&& self.msgs[a].unordered
                &&& self.msgs[a].stream_id == si
                &&& self.place[a].len() == self.msgs[a].parts.len()
            }
        &&& forall|a: int, i: int, b: int, j: int|
            self.valid(a, i) && self.valid(b, j) && #[trigger] self.tsn(a, i) == #[trigger] self.tsn(b, j)
                ==> a == b && i == j
        &&& forall|k: int|
            0 <= k < self.who.len() ==> {
                &&& self.valid(#[trigger] self.who[k], self.which[k])
                &&& self.place[self.who[k]][self.which[k]] == k
            }
        &&& forall|a: int, i: int|
            self.valid(a, i) ==> {
                &&& 0 <= #[trigger] self.place[a][i] < self.who.len()
                &&& self.who[self.place[a][i]] == a
                &&& self.which[self.place[a][i]] == i
            }
    }

    /// The fragments in the order of their arrival.
    pub open spec fn arrivals(self) -> Seq<DataView> {
        Seq::new(self.who.len(), |k: int| self.msgs[self.who[k]].fragment(self.which[k]))
    }

    /// Whether `d` is a fragment of one of the messages.
    pub open spec fn is_fragment(self, d: DataView) -> bool {
        exists|a: int, i: int| self.valid(a, i) && #[trigger] self.msgs[a].fragment(i) == d
    }

    /// Whether `m` is one of the messages, and all of its fragments are
    /// among the first `k` that arrive.
    pub open spec fn is_done_message(self, k: int, m: MessageView) -> bool {
        exists|a: int| 0 <= a < self.msgs.len() && self.done(a, k) && #[trigger] self.msgs[a].message() == m
    }

    /// Whether every fragment of the message `a` is among the first `k` that arrive.
    pub open spec fn done(self, a: int, k: int) -> bool {
        forall|i: int| 0 <= i < self.msgs[a].parts.len() ==> #[trigger] self.place[a][i] < k
    }

    /// What the pool looks like after the first `k` fragments have
    /// arrived: it holds the fragments that have arrived of the messages
    /// that are not whole yet, each under its sequence number, and nothing else.
    pub open spec fn holds_pool(self, k: int, pool: Seq<DataView>) -> bool {
        &&& distinct(pool)
        &&& forall|a: int, i: int|
            self.valid(a, i) ==> (has_tsn(pool, #[trigger] self.tsn(a, i)) <==> self.place[a][i] < k
                && !self.done(a, k))
        &&& forall|a: int, i: int|
            self.valid(a, i) && has_tsn(pool, #[trigger] self.tsn(a, i)) ==> at(pool, self.tsn(a, i))
                == self.msgs[a].fragment(i)
        &&& forall|y: int| 0 <= y < pool.len() ==> self.is_fragment(#[trigger] pool[y])
    }

    /// What was handed over after the first `k` fragments have arrived,
    /// from the place `from` on: the messages that are whole, each once,
    /// and nothing else.
    pub open spec fn holds_ready(self, k: int, from: int, ready: Seq<MessageView>) -> bool {
        &&& 0 <= from <= ready.len()
        &&& forall|a: int|
            0 <= a < self.msgs.len() && self.done(a, k) ==> handed_over(
                ready,
                from,
                #[trigger] self.msgs[a].message(),
            )
        &&& forall|r: int| from <= r < ready.len() ==> self.is_done_message(k, #[trigger] ready[r])
        &&& forall|r: int, q: int|
            from <= r < ready.len() && from <= q < ready.len() && (#[trigger] ready[r]).tsn == (
            #[trigger] ready[q]).tsn ==> r == q
    }

    /// What the queue looks like after the first `k` fragments have arrived.
    pub open spec fn holds(self, v: ReassemblyView, k: int, w: ReassemblyView) -> bool {
        &&& w.si == v.si
        &&& w.next_ssn == v.next_ssn
        &&& w.ordered == v.ordered
        &&& self.holds_pool(k, w.unordered)
        &&& self.holds_ready(k, v.ready.len() as int, w.ready)
        &&& w.ready.take(v.ready.len() as int) == v.ready
    }

    /// Whether the fragment that arrives as number `k` is the only one that
    /// can make a message whole: the messages other than its own are whole
    /// after it exactly if they were before, and its own was not.
    pub open spec fn only_own(self, k: int) -> bool {
        &&& !self.done(self.who[k], k)
        &&& forall|b: int|
            0 <= b < self.msgs.len() && b != self.who[k] ==> (#[trigger] self.done(b, k + 1) <==> self.done(
                b,
                k,
            ))
    }

    /// What the pool looks like when the fragment that arrives as number
    /// `k` has joined it and nothing was handed over yet.
    pub open spec fn holds_joined(self, k: int, pool: Seq<DataView>) -> bool {
        &&& distinct(pool)
        &&& forall|b: int, j: int|
            self.valid(b, j) ==> (has_tsn(pool, #[trigger] self.tsn(b, j)) <==> self.place[b][j] < k + 1 && (
            b == self.who[k] || !self.done(b, k)))
        &&& forall|b: int, j: int|
            self.valid(b, j) && has_tsn(pool, #[trigger] self.tsn(b, j)) ==> at(pool, self.tsn(b, j))
                == self.msgs[b].fragment(j)
        &&& forall|y: int| 0 <= y < pool.len() ==> self.is_fragment(#[trigger] pool[y])
    }
}

/// Only the message of the fragment that arrives can become whole with it.
proof fn lemma_only_own(x: Interleaving, si: u16, k: int)
    requires
        x.wf(si),
        0 <= k < x.who.len(),
    ensures
        x.only_own(k),
{
    let a = x.who[k];
    let i = x.which[k];
    assert(x.valid(a, i));
    assert(x.place[a][i] == k);
    assert forall|b: int| 0 <= b < x.msgs.len() && b != a implies (#[trigger] x.done(b, k + 1) <==> x.done(
        b,
        k,
    )) by {
        if x.done(b, k + 1) {
            assert forall|j: int| 0 <= j < x.msgs[b].parts.len() implies #[trigger] x.place[b][j] < k by {
                assert(x.valid(b, j));
                if x.place[b][j] == k {
                    assert(x.who[x.place[b][j]] == b);
                }
            }
        }
    }
}

/// The pool after the fragment that arrives as number `k` has joined it.
proof fn lemma_joined(x: Interleaving, si: u16, k: int, pool: Seq<DataView>)
    requires
        x.wf(si),
        0 <= k < x.who.len(),
        x.holds_pool(k, pool),
    ensures
        !has_tsn(pool, x.arrivals()[k].tsn),
        x.holds_joined(k, pool.push(x.arrivals()[k])),
        at(pool.push(x.arrivals()[k]), x.arrivals()[k].tsn) == x.arrivals()[k],
{
    let a = x.who[k];
    let i = x.which[k];
    let m = x.msgs[a];
    let c = m.fragment(i);
    assert(x.arrivals()[k] == c);
    assert(x.valid(a, i));
    assert(c.tsn == x.tsn(a, i));
    assert(x.place[a][i] == k);
    assert(!has_tsn(pool, x.tsn(a, i)));
    lemma_push_distinct(pool, c);
    lemma_only_own(x, si, k);
    let joined = pool.push(c);
    assert forall|t: u32| has_tsn(joined, t) <==> has_tsn(pool, t) || t == c.tsn by {
        if has_tsn(joined, t) {
            let y = choose|y: int| 0 <= y < joined.len() && (#[trigger] joined[y]).tsn == t;
            if y < pool.len() {
                assert(pool[y] == joined[y]);
            }
        }
        if has_tsn(pool, t) {
            let y = choose|y: int| 0 <= y < pool.len() && (#[trigger] pool[y]).tsn == t;
            assert(joined[y] == pool[y]);
        }
        if t == c.tsn {
            assert(joined[joined.len() - 1] == c);
        }
    }
    assert forall|t: u32| has_tsn(pool, t) implies at(joined, t) == at(pool, t) by {
        let y = index_of(pool, t);
        assert(joined[y] == pool[y]);
        let z = index_of(joined, t);
        assert(joined[z].tsn == joined[y].tsn);
    }
    assert(at(joined, c.tsn) == c) by {
        let z = index_of(joined, c.tsn);
        assert(joined[joined.len() - 1] == c);
        assert(joined[z].tsn == joined[joined.len() - 1].tsn);
    }
    assert forall|b: int, j: int| x.valid(b, j) && has_tsn(joined, #[trigger] x.tsn(b, j)) implies at(
        joined,
        x.tsn(b, j),
    ) == x.msgs[b].fragment(j) by {
        if x.tsn(b, j) == c.tsn {
            assert(x.tsn(b, j) == x.tsn(a, i));
        }
    }
    assert forall|b: int, j: int| x.valid(b, j) implies (has_tsn(joined, #[trigger] x.tsn(b, j))
        <==> x.place[b][j] < k + 1 && (b == a || !x.done(b, k))) by {
        if x.tsn(b, j) == c.tsn {
            assert(x.tsn(b, j) == x.tsn(a, i));
        } else {
            if x.place[b][j] == k {
                assert(x.who[x.place[b][j]] == b);
            }
        }
    }
    assert forall|y: int| 0 <= y < joined.len() implies x.is_fragment(#[trigger] joined[y]) by {
        if y < pool.len() {
            assert(joined[y] == pool[y]);
            assert(x.is_fragment(pool[y]));
        } else {
            assert(x.msgs[a].fragment(i) == joined[y]);
        }
    }
}

/// In the joined pool the sequence numbers of a message hold its fragments.
proof fn lemma_joined_own(x: Interleaving, si: u16, k: int, pool: Seq<DataView>)
    requires
        x.wf(si),
        0 <= k < x.who.len(),
        x.holds_joined(k, pool),
    ensures
        forall|j: int|
            0 <= j < x.msgs[x.who[k]].parts.len() && has_tsn(pool, #[trigger] x.msgs[x.who[k]].tsn_of(j))
                ==> at(pool, x.msgs[x.who[k]].tsn_of(j)) == x.msgs[x.who[k]].fragment(j),
        forall|j: int|
            0 <= j < x.msgs[x.who[k]].parts.len() ==> (has_tsn(pool, #[trigger] x.msgs[x.who[k]].tsn_of(j))
                <==> x.place[x.who[k]][j] < k + 1),
{
    let a = x.who[k];
    let m = x.msgs[a];
    assert(x.valid(a, x.which[k]));
    assert forall|j: int| 0 <= j < m.parts.len() && has_tsn(pool, #[trigger] m.tsn_of(j)) implies at(
        pool,
        m.tsn_of(j),
    ) == m.fragment(j) by {
        assert(x.valid(a, j));
        assert(m.tsn_of(j) == x.tsn(a, j));
    }
    assert forall|j: int| 0 <= j < m.parts.len() implies (has_tsn(pool, #[trigger] m.tsn_of(j))
        <==> x.place[a][j] < k + 1) by {
        assert(x.valid(a, j));
        assert(m.tsn_of(j) == x.tsn(a, j));
    }
}

/// While a fragment of its message is missing still, the fragment that
/// arrives hands nothing over.
proof fn lemma_joined_waits(x: Interleaving, si: u16, k: int, mid: ReassemblyView)
    requires
        x.wf(si),
        0 <= k < x.who.len(),
        x.holds_joined(k, mid.unordered),
        x.only_own(k),
        !x.done(x.who[k], k + 1),
    ensures
        mid.delivered_unordered(x.arrivals()[k].tsn) == mid,
        x.holds_pool(k + 1, mid.unordered),
{
    let a = x.who[k];
    let i = x.which[k];
    let m = x.msgs[a];
    let pool = mid.unordered;
    assert(x.valid(a, i));
    assert(x.arrivals()[k].tsn == m.tsn_of(i));
    lemma_joined_own(x, si, k, pool);
    let missing = choose|j: int| 0 <= j < m.parts.len() && !(#[trigger] x.place[a][j] < k + 1);
    assert(!has_tsn(pool, m.tsn_of(missing)));
    lemma_start_within(m, pool, i, pool.len());
    if run_start(pool, m.tsn_of(i), pool.len()) == Some(m.tsn) {
        assert(m.tsn_of(0) == m.tsn);
        lemma_run_broken(m, pool, 0, missing, pool.len());
    }
    assert forall|b: int, j: int| x.valid(b, j) implies (has_tsn(pool, #[trigger] x.tsn(b, j))
        <==> x.place[b][j] < k + 1 && !x.done(b, k + 1)) by {
        if b != a {
            assert(x.done(b, k + 1) <==> x.done(b, k));
        }
    }
}

/// When the fragment that arrives makes its message whole, the message is
/// handed over and its fragments leave the pool.
proof fn lemma_joined_delivers(x: Interleaving, si: u16, k: int, mid: ReassemblyView)
    requires
        x.wf(si),
        0 <= k < x.who.len(),
        mid.si == si,
        x.holds_joined(k, mid.unordered),
        x.only_own(k),
        x.done(x.who[k], k + 1),
    ensures
        mid.delivered_unordered(x.arrivals()[k].tsn) == (ReassemblyView {
            unordered: mid.delivered_unordered(x.arrivals()[k].tsn).unordered,
            ready: mid.ready.push(x.msgs[x.who[k]].message()),
            ..mid
        }),
        x.holds_pool(k + 1, mid.delivered_unordered(x.arrivals()[k].tsn).unordered),
{
    let a = x.who[k];
    let i = x.which[k];
    let m = x.msgs[a];
    let pool = mid.unordered;
    assert(x.valid(a, i));
    assert(x.arrivals()[k].tsn == m.tsn_of(i));
    lemma_joined_own(x, si, k, pool);
    assert forall|j: int| 0 <= j < m.parts.len() implies has_tsn(pool, #[trigger] m.tsn_of(j)) by {
        assert(x.place[a][j] < k + 1);
    }
    assert forall|j: int| 0 <= j < m.parts.len() implies at(pool, #[trigger] m.tsn_of(j)) == m.fragment(
        j,
    ) by {}
    lemma_pool_has_at_least(pool, m, m.parts.len());
    lemma_start_found(m, pool, i, pool.len());
    lemma_run_whole(m, pool, 0, pool.len());
    assert(m.tsn_of(0) == m.tsn);
    lemma_gather_parts(m, pool, m.parts.len());
    assert(m.parts.take(m.parts.len() as int) =~= m.parts);
    lemma_without_effect(m, pool, m.parts.len());
    let rest = without_run(pool, m.tsn, m.parts.len());
    assert(at(pool, m.tsn) == m.fragment(0));
    let next = mid.delivered_unordered(m.tsn_of(i));
    assert(next.unordered == rest);
    assert(next.ready == mid.ready.push(m.message()));
    assert forall|b: int, j: int| x.valid(b, j) implies (has_tsn(rest, #[trigger] x.tsn(b, j))
        <==> x.place[b][j] < k + 1 && !x.done(b, k + 1)) by {
        lemma_in_range(m, m.parts.len(), x.tsn(b, j));
        if in_range(m, m.parts.len(), x.tsn(b, j)) {
            let z = choose|z: int| 0 <= z < m.parts.len() && #[trigger] m.tsn_of(z) == x.tsn(b, j);
            assert(x.valid(a, z));
            assert(x.tsn(a, z) == x.tsn(b, j));
        } else {
            if b == a {
                assert(m.tsn_of(j) == x.tsn(b, j));
            } else {
                assert(x.done(b, k + 1) <==> x.done(b, k));
            }
        }
    }
    assert forall|b: int, j: int| x.valid(b, j) && has_tsn(rest, #[trigger] x.tsn(b, j)) implies at(
        rest,
        x.tsn(b, j),
    ) == x.msgs[b].fragment(j) by {
        lemma_in_range(m, m.parts.len(), x.tsn(b, j));
    }
    assert forall|y: int| 0 <= y < rest.len() implies x.is_fragment(#[trigger] rest[y]) by {
        assert(pool.contains(rest[y]));
        let z = choose|z: int| 0 <= z < pool.len() && pool[z] == rest[y];
        assert(x.is_fragment(pool[z]));
    }
}

/// What was handed over stays as `holds_ready` says when nothing more is handed over.
proof fn lemma_ready_same(x: Interleaving, si: u16, k: int, from: int, ready: Seq<MessageView>)
    requires
        x.wf(si),
        0 <= k < x.who.len(),
        x.holds_ready(k, from, ready),
        x.only_own(k),
        !x.done(x.who[k], k + 1),
    ensures
        x.holds_ready(k + 1, from, ready),
{
    let a = x.who[k];
    assert forall|b: int| 0 <= b < x.msgs.len() && x.done(b, k + 1) implies handed_over(
        ready,
        from,
        #[trigger] x.msgs[b].message(),
    ) by {
        assert(b != a);
        assert(x.done(b, k));
    }
    assert forall|r: int| from <= r < ready.len() implies x.is_done_message(k + 1, #[trigger] ready[r]) by {
        assert(x.is_done_message(k, ready[r]));
        let b = choose|b: int|
            0 <= b < x.msgs.len() && x.done(b, k) && #[trigger] x.msgs[b].message() == ready[r];
        assert(b != a);
        assert(x.done(b, k + 1));
    }
}

/// What was handed over is as `holds_ready` says when the message of the
/// fragment that arrives joins it.
proof fn lemma_ready_more(x: Interleaving, si: u16, k: int, from: int, ready: Seq<MessageView>)
    requires
        x.wf(si),
        0 <= k < x.who.len(),
        x.holds_ready(k, from, ready),
        x.only_own(k),
        x.done(x.who[k], k + 1),
    ensures
        x.holds_ready(k + 1, from, ready.push(x.msgs[x.who[k]].message())),
{
    let a = x.who[k];
    let m = x.msgs[a];
    let more = ready.push(m.message());
    assert(x.valid(a, x.which[k]));
    assert forall|b: int| 0 <= b < x.msgs.len() && x.done(b, k + 1) implies handed_over(
        more,
        from,
        #[trigger] x.msgs[b].message(),
    ) by {
        if b == a {
            assert(more[ready.len() as int] == m.message());
        } else {
            assert(x.done(b, k));
            assert(handed_over(ready, from, x.msgs[b].message()));
            let r = choose|r: int| from <= r < ready.len() && #[trigger] ready[r] == x.msgs[b].message();
            assert(more[r] == ready[r]);
        }
    }
    assert forall|r: int| from <= r < more.len() implies x.is_done_message(k + 1, #[trigger] more[r]) by {
        if r < ready.len() {
            assert(more[r] == ready[r]);
            assert(x.is_done_message(k, ready[r]));
            let b = choose|b: int|
                0 <= b < x.msgs.len() && x.done(b, k) && #[trigger] x.msgs[b].message() == ready[r];
            assert(b != a);
            assert(x.done(b, k + 1));
        } else {
            assert(x.msgs[a].message() == more[r]);
        }
    }
    assert forall|r: int, q: int|
        from <= r < more.len() && from <= q < more.len() && (#[trigger] more[r]).tsn == (
        #[trigger] more[q]).tsn implies r == q by {
        if r < ready.len() && q < ready.len() {
            assert(more[r] == ready[r] && more[q] == ready[q]);
        } else if r < ready.len() || q < ready.len() {
            let old = if r < ready.len() { r } else { q };
            assert(more[old] == ready[old]);
            assert(x.is_done_message(k, ready[old]));
            let b = choose|b: int|
                0 <= b < x.msgs.len() && x.done(b, k) && #[trigger] x.msgs[b].message() == ready[old];
            assert(b != a);
            assert(x.valid(b, 0) && x.valid(a, 0));
            assert(x.tsn(b, 0) == x.msgs[b].tsn);
            assert(x.tsn(a, 0) == m.tsn);
            assert(false);
        }
    }
}

/// The arrival of one more fragment keeps the queue as `holds` says.
proof fn lemma_interleaved_step(x: Interleaving, v: ReassemblyView, k: int, w: ReassemblyView)
    requires
        x.wf(v.si),
        0 <= k < x.who.len(),
        x.holds(v, k, w),
    ensures
        x.holds(v, k + 1, w.pushed(x.arrivals()[k])),
{
    let c = x.arrivals()[k];
    let a = x.who[k];
    assert(x.valid(a, x.which[k]));
    assert(c == x.msgs[a].fragment(x.which[k]));
    lemma_joined(x, v.si, k, w.unordered);
    lemma_only_own(x, v.si, k);
    assert(w.takes(c));
    let mid = ReassemblyView { unordered: w.unordered.push(c), ..w };
    let next = mid.delivered_unordered(c.tsn);
    assert(w.pushed(c) == next);
    let from = v.ready.len() as int;
    if x.done(a, k + 1) {
        lemma_joined_delivers(x, v.si, k, mid);
        lemma_ready_more(x, v.si, k, from, w.ready);
        assert(next.ready.take(from) =~= v.ready) by {
            assert(w.ready.take(from) == v.ready);
        }
    } else {
        lemma_joined_waits(x, v.si, k, mid);
        lemma_ready_same(x, v.si, k, from, w.ready);
    }
}

/// The queue after the first `k` fragments of an interleaving have arrived is as `holds` says.
proof fn lemma_interleaved_prefix(x: Interleaving, v: ReassemblyView, k: int)
    requires
        v.wf(),
        v.unordered.len() == 0,
        x.wf(v.si),
        0 <= k <= x.who.len(),
    ensures
        x.holds(v, k, v.pushed_all(x.arrivals().take(k))),
    decreases k,
{
    let arr = x.arrivals();
    if k == 0 {
        assert(arr.take(0) =~= Seq::<DataView>::empty());
        assert(v.ready.take(v.ready.len() as int) =~= v.ready);
        assert forall|a: int| 0 <= a < x.msgs.len() implies !x.done(a, 0) by {
            assert(x.valid(a, 0));
            assert(0 <= x.place[a][0]);
        }
    } else {
        lemma_interleaved_prefix(x, v, k - 1);
        assert(arr.take(k).drop_last() =~= arr.take(k - 1));
        assert(arr.take(k).last() == arr[k - 1]);
        lemma_interleaved_step(x, v, k - 1, v.pushed_all(arr.take(k - 1)));
    }
}

/// Unordered messages are each delivered exactly once regardless of the
/// order in which their fragments arrive: whatever way the fragments of
/// several unordered messages are interleaved, once all have arrived each
/// message has been handed over, none twice, nothing else has, and no
/// fragment is left behind.
pub proof fn lemma_interleaved_unordered_each_once(x: Interleaving, v: ReassemblyView)
    requires
        v.wf(),
        v.unordered.len() == 0,
        x.wf(v.si),
    ensures
        ({
            let end = v.pushed_all(x.arrivals());
            &&& end.unordered.len() == 0
            &&& end.ordered == v.ordered
            &&& end.next_ssn == v.next_ssn
            &&& end.ready.len() >= v.ready.len()
            &&& end.ready.take(v.ready.len() as int) == v.ready
            &&& forall|a: int|
                0 <= a < x.msgs.len() ==> handed_over(
                    end.ready,
                    v.ready.len() as int,
                    #[trigger] x.msgs[a].message(),
                )
            &&& forall|r: int|
                v.ready.len() <= r < end.ready.len() ==> x.is_done_message(
                    x.who.len() as int,
                    #[trigger] end.ready[r],
                )
            &&& forall|r: int, q: int|
                v.ready.len() <= r < end.ready.len() && v.ready.len() <= q < end.ready.len() && (
                #[trigger] end.ready[r]).tsn == (#[trigger] end.ready[q]).tsn ==> r == q
        }),
{
    let n = x.who.len() as int;
    let arr = x.arrivals();
    lemma_interleaved_prefix(x, v, n);
    assert(arr.take(n) =~= arr);
    let end = v.pushed_all(arr);
    assert forall|a: int| 0 <= a < x.msgs.len() implies x.done(a, n) by {
        assert forall|i: int| 0 <= i < x.msgs[a].parts.len() implies #[trigger] x.place[a][i] < n by {
            assert(x.valid(a, i));
        }
    }
    if end.unordered.len() > 0 {
        assert(x.is_fragment(end.unordered[0]));
        let (a, i) = choose|a: int, i: int|
            x.valid(a, i) && #[trigger] x.msgs[a].fragment(i) == end.unordered[0];
        assert(end.unordered[0].tsn == x.tsn(a, i));
        assert(has_tsn(end.unordered, x.tsn(a, i)));
        assert(x.done(a, n));
        assert(false);
    }
}

} // verus!
