//! The retransmission queue: every DATA chunk that was sent and is not yet
//! covered by the peer's cumulative acknowledgement.
//!
//! Chunks stand in the queue in the order of their sequence numbers, without
//! holes: the first one follows the cumulative acknowledgement point, and each
//! further one follows its neighbour. A selective acknowledgement removes the
//! chunks up to its cumulative acknowledgement, marks those inside its gap
//! blocks, and counts a missing report against the unacknowledged chunks below
//! the highest sequence number it reports.

use vstd::prelude::*;
use crate::chunk::{
    pending_views,
    DataChunk,
    DataView,
    GapAckBlock,
    PendingChunk,
    PendingView,
    ReliabilityType,
    MAX_CHUNK_PAYLOAD,
};
use crate::packet::ForwardTsnStream;
use crate::serial::{add32, advance32, dist32, distance32, lemma_add32_add};
use crate::stream::{gives_up, should_abandon};

verus! {

/// The most chunks that may be in flight at once: fewer than half the sequence space.
pub const MAX_IN_FLIGHT: usize = 0x7fff_ffff;

/// The bytes that a chunk contributes to the in-flight count: its payload
/// until a gap block has reported it received.
pub open spec fn outstanding_bytes(c: PendingView) -> nat {
    if c.acked {
        0
    } else {
        c.data.payload.len()
    }
}

/// The in-flight byte count of a sequence of chunks.
pub open spec fn in_flight(q: Seq<PendingView>) -> nat
    decreases q.len(),
{
    if q.len() == 0 {
        0
    } else {
        in_flight(q.drop_last()) + outstanding_bytes(q.last())
    }
}

/// Whether the gap block `g` covers the offset `off`.
pub open spec fn block_covers(g: GapAckBlock, off: int) -> bool {
    g.start <= off <= g.end
}

/// Whether one of the gap blocks covers the offset `off`.
pub open spec fn covered(gaps: Seq<GapAckBlock>, off: int) -> bool {
    exists|j: int| 0 <= j < gaps.len() && block_covers(#[trigger] gaps[j], off)
}

/// The highest offset that the gap blocks report, zero when there is none.
pub open spec fn highest_offset(gaps: Seq<GapAckBlock>) -> int
    decreases gaps.len(),
{
    if gaps.len() == 0 {
        0
    } else {
        let rest = highest_offset(gaps.drop_last());
        if gaps.last().end > rest { gaps.last().end as int } else { rest }
    }
}

/// Whether every gap block is a range of offsets from 1 to `limit`.
pub open spec fn gaps_within(gaps: Seq<GapAckBlock>, limit: int) -> bool {
    forall|j: int| 0 <= j < gaps.len() ==> 1 <= (#[trigger] gaps[j]).start <= gaps[j].end <= limit
}

/// Whether the chunk `c`, at offset `off` above the cumulative
/// acknowledgement, is counted missing by a selective acknowledgement with
/// these gap blocks: it is neither acknowledged nor given up, a higher offset
/// is reported received, and it has not yet been fast retransmitted.
pub open spec fn counted_missing(c: PendingView, off: int, gaps: Seq<GapAckBlock>, threshold: u8) -> bool {
    &&& !c.acked
    &&& !covered(gaps, off)
    &&& !c.abandoned
    &&& off < highest_offset(gaps)
    &&& c.miss_indicator < threshold
}

/// Whether the selective acknowledgement makes the chunk's missing reports
/// reach the threshold, which triggers its fast retransmit.
pub open spec fn fires(c: PendingView, off: int, gaps: Seq<GapAckBlock>, threshold: u8) -> bool {
    counted_missing(c, off, gaps, threshold) && c.miss_indicator + 1 == threshold
}

/// The chunk `c`, at offset `off`, after a selective acknowledgement with these gap blocks.
pub open spec fn chunk_after(c: PendingView, off: int, gaps: Seq<GapAckBlock>, threshold: u8) -> PendingView {
    PendingView {
        acked: c.acked || covered(gaps, off),
        miss_indicator: if counted_missing(c, off, gaps, threshold) {
            (c.miss_indicator + 1) as u8
        } else {
            c.miss_indicator
        },
        retransmit: c.retransmit || fires(c, off, gaps, threshold),
        ..c
    }
}

/// The sequence numbers of the chunks of `q` whose fast retransmit the
/// selective acknowledgement triggers, lowest first. The chunk at index `i`
/// stands at offset `i + 1`.
pub open spec fn fired_list(q: Seq<PendingView>, gaps: Seq<GapAckBlock>, threshold: u8) -> Seq<u32>
    decreases q.len(),
{
    if q.len() == 0 {
        Seq::<u32>::empty()
    } else {
        let rest = fired_list(q.drop_last(), gaps, threshold);
        if fires(q.last(), q.len() as int, gaps, threshold) {
            rest.push(q.last().data.tsn)
        } else {
            rest
        }
    }
}

/// The time at which the first chunk of `q` that was sent exactly once and
/// not acknowledged before was sent: the one chunk of an acknowledged run
/// that gives an unambiguous round-trip sample.
pub open spec fn first_sample(q: Seq<PendingView>) -> Option<u64>
    decreases q.len(),
{
    if q.len() == 0 {
        None
    } else {
        match first_sample(q.drop_last()) {
            Some(t) => Some(t),
            None => if !q.last().acked && q.last().transmit_count == 1 {
                Some(q.last().send_time)
            } else {
                None
            },
        }
    }
}

/// A selective acknowledgement, as far as the retransmission queue reads it.
pub struct SackView {
    pub cum_ack: u32,
    pub gaps: Seq<GapAckBlock>,
}

/// The retransmission queue as a mathematical value.
pub struct InflightView {
    /// The highest sequence number that the peer has acknowledged cumulatively.
    pub cum_ack: u32,
    /// The chunks above it, lowest sequence number first.
    pub chunks: Seq<PendingView>,
}

impl InflightView {
    /// The chunks follow the cumulative acknowledgement point without a hole,
    /// there are fewer of them than half the sequence space, and none is
    /// larger than a chunk can be.
    pub open spec fn wf(self) -> bool {
        &&& self.chunks.len() <= MAX_IN_FLIGHT
        &&& forall|i: int|
            0 <= i < self.chunks.len() ==> (#[trigger] self.chunks[i]).data.tsn == add32(self.cum_ack, i + 1)
        &&& forall|i: int|
            0 <= i < self.chunks.len() ==> (#[trigger] self.chunks[i]).data.payload.len() <= MAX_CHUNK_PAYLOAD
    }

    /// The number of bytes in flight.
    pub open spec fn bytes(self) -> nat {
        in_flight(self.chunks)
    }

    /// The sequence number that the next chunk sent will get.
    pub open spec fn next_tsn(self) -> u32 {
        add32(self.cum_ack, (self.chunks.len() + 1) as int)
    }

    /// How many chunks the cumulative acknowledgement `cum_ack` newly covers.
    pub open spec fn newly_covered(self, cum_ack: u32) -> int {
        dist32(self.cum_ack, cum_ack)
    }

    /// Whether the queue takes a selective acknowledgement: its cumulative
    /// acknowledgement neither lies behind the queue's nor covers a chunk that
    /// was never sent, and its gap blocks are ranges of chunks in the queue.
    pub open spec fn accepts(self, sack: SackView) -> bool {
        &&& self.newly_covered(sack.cum_ack) <= self.chunks.len()
        &&& gaps_within(sack.gaps, self.chunks.len() - self.newly_covered(sack.cum_ack))
    }

    /// The chunks that remain once the cumulative acknowledgement `cum_ack` has removed those it covers.
    pub open spec fn remaining(self, cum_ack: u32) -> Seq<PendingView> {
        self.chunks.skip(self.newly_covered(cum_ack))
    }

    /// The queue after a selective acknowledgement. One that the queue does not take changes nothing.
    pub open spec fn sacked(self, sack: SackView, threshold: u8) -> InflightView {
        if self.accepts(sack) {
            let rest = self.remaining(sack.cum_ack);
            InflightView {
                cum_ack: sack.cum_ack,
                chunks: Seq::new(rest.len(), |i: int| chunk_after(rest[i], i + 1, sack.gaps, threshold)),
            }
        } else {
            self
        }
    }

    /// The sequence numbers whose fast retransmit a selective acknowledgement triggers.
    pub open spec fn fired_by(self, sack: SackView, threshold: u8) -> Seq<u32> {
        if self.accepts(sack) {
            fired_list(self.remaining(sack.cum_ack), sack.gaps, threshold)
        } else {
            Seq::<u32>::empty()
        }
    }

    /// The queue after a sequence of selective acknowledgements, first to last.
    pub open spec fn sacked_all(self, sacks: Seq<SackView>, threshold: u8) -> InflightView
        decreases sacks.len(),
    {
        if sacks.len() == 0 {
            self
        } else {
            self.sacked_all(sacks.drop_last(), threshold).sacked(sacks.last(), threshold)
        }
    }

    /// Every fast retransmit that a sequence of selective acknowledgements triggers, in order.
    pub open spec fn fired_by_all(self, sacks: Seq<SackView>, threshold: u8) -> Seq<u32>
        decreases sacks.len(),
    {
        if sacks.len() == 0 {
            Seq::<u32>::empty()
        } else {
            self.fired_by_all(sacks.drop_last(), threshold) + self.sacked_all(
                sacks.drop_last(),
                threshold,
            ).fired_by(sacks.last(), threshold)
        }
    }
}

/// The in-flight count of a sequence is that of a front part and that of the rest.
pub proof fn lemma_in_flight_split(q: Seq<PendingView>, k: int)
    requires
        0 <= k <= q.len(),
    ensures
        in_flight(q) == in_flight(q.take(k)) + in_flight(q.skip(k)),
    decreases q.len(),
{
    if k == q.len() {
        assert(q.take(k) =~= q);
        assert(q.skip(k) =~= Seq::<PendingView>::empty());
    } else {
        lemma_in_flight_split(q.drop_last(), k);
        assert(q.drop_last().take(k) =~= q.take(k));
        assert(q.drop_last().skip(k) =~= q.skip(k).drop_last());
        assert(q.skip(k).last() == q.last());
    }
}

/// Changing one chunk changes the in-flight count by the difference of what that chunk contributes.
pub proof fn lemma_in_flight_update(q: Seq<PendingView>, i: int, c: PendingView)
    requires
        0 <= i < q.len(),
    ensures
        in_flight(q.update(i, c)) == in_flight(q) - outstanding_bytes(q[i]) + outstanding_bytes(c),
    decreases q.len(),
{
    if i == q.len() - 1 {
        assert(q.update(i, c).drop_last() =~= q.drop_last());
    } else {
        lemma_in_flight_update(q.drop_last(), i, c);
        assert(q.update(i, c).drop_last() =~= q.drop_last().update(i, c));
    }
}

/// Appending a chunk adds what it contributes.
pub proof fn lemma_in_flight_push(q: Seq<PendingView>, c: PendingView)
    ensures
        in_flight(q.push(c)) == in_flight(q) + outstanding_bytes(c),
{
    assert(q.push(c).drop_last() =~= q);
}

/// Where no chunk contributes more than before, the in-flight count is no larger than before.
pub proof fn lemma_in_flight_pointwise(a: Seq<PendingView>, b: Seq<PendingView>)
    requires
        a.len() == b.len(),
        forall|i: int| 0 <= i < a.len() ==> outstanding_bytes(#[trigger] b[i]) <= outstanding_bytes(a[i]),
    ensures
        in_flight(b) <= in_flight(a),
    decreases a.len(),
{
    if a.len() > 0 {
        lemma_in_flight_pointwise(a.drop_last(), b.drop_last());
    }
}

/// The in-flight count is bounded by the number of chunks times the largest payload.
pub proof fn lemma_in_flight_bound(q: Seq<PendingView>)
    requires
        forall|i: int| 0 <= i < q.len() ==> (#[trigger] q[i]).data.payload.len() <= MAX_CHUNK_PAYLOAD,
    ensures
        in_flight(q) <= q.len() * MAX_CHUNK_PAYLOAD,
    decreases q.len(),
{
    if q.len() > 0 {
        lemma_in_flight_bound(q.drop_last());
        assert(in_flight(q) <= (q.len() - 1) * MAX_CHUNK_PAYLOAD + MAX_CHUNK_PAYLOAD);
        assert((q.len() - 1) * MAX_CHUNK_PAYLOAD + MAX_CHUNK_PAYLOAD == q.len() * MAX_CHUNK_PAYLOAD)
            by (nonlinear_arith);
    }
}

/// Whatever is removed from the front of a well-formed queue leaves a well-formed queue.
pub proof fn lemma_skip_wf(q: InflightView, k: int)
    requires
        q.wf(),
        0 <= k <= q.chunks.len(),
    ensures
        (InflightView { cum_ack: add32(q.cum_ack, k), chunks: q.chunks.skip(k) }).wf(),
{
    let r = InflightView { cum_ack: add32(q.cum_ack, k), chunks: q.chunks.skip(k) };
    assert forall|i: int| 0 <= i < r.chunks.len() implies (#[trigger] r.chunks[i]).data.tsn == add32(
        r.cum_ack,
        i + 1,
    ) by {
        assert(r.chunks[i] == q.chunks[k + i]);
        lemma_add32_add(q.cum_ack, k, i + 1);
    }
    assert forall|i: int| 0 <= i < r.chunks.len() implies (#[trigger] r.chunks[i]).data.payload.len()
        <= MAX_CHUNK_PAYLOAD by {
        assert(r.chunks[i] == q.chunks[k + i]);
    }
}

/// A selective acknowledgement leaves a well-formed queue well formed.
pub proof fn lemma_sacked_wf(q: InflightView, sack: SackView, threshold: u8)
    requires
        q.wf(),
    ensures
        q.sacked(sack, threshold).wf(),
{
    if q.accepts(sack) {
        let k = q.newly_covered(sack.cum_ack);
        lemma_skip_wf(q, k);
        assert(add32(q.cum_ack, k) == sack.cum_ack);
        let rest = q.remaining(sack.cum_ack);
        let r = q.sacked(sack, threshold);
        assert forall|i: int| 0 <= i < r.chunks.len() implies (#[trigger] r.chunks[i]).data.tsn == add32(
            r.cum_ack,
            i + 1,
        ) by {
            assert(r.chunks[i].data == rest[i].data);
        }
        assert forall|i: int| 0 <= i < r.chunks.len() implies (#[trigger] r.chunks[i]).data.payload.len()
            <= MAX_CHUNK_PAYLOAD by {
            assert(r.chunks[i].data == rest[i].data);
        }
    }
}


/// What a selective acknowledgement did to the retransmission queue.
#[derive(Debug)]
pub struct SackOutcome {
    /// By how many bytes the in-flight count fell.
    pub bytes_acked: u64,
    /// How many chunks the cumulative acknowledgement newly covered.
    pub newly_covered: u32,
    /// The sequence numbers whose fast retransmit was triggered, lowest first.
    pub fired: Vec<u32>,
    /// When the chunk was sent that gives this acknowledgement's round-trip
    /// sample, if it has one.
    pub rtt_send_time: Option<u64>,
}

/// Why the retransmission queue did not take a chunk.
#[derive(Clone, Copy, Debug, PartialEq, Eq, Structural)]
pub enum InflightError {
    /// As many chunks are in flight as the sequence space allows.
    Full,
    /// The payload is larger than a chunk can carry.
    TooLarge,
}

/// The chunks that were sent and are not yet acknowledged cumulatively.
#[derive(Debug)]
pub struct InflightQueue {
    cum_ack: u32,
    chunks: Vec<PendingChunk>,
    n_bytes: u64,
}

impl View for InflightQueue {
    type V = InflightView;

    closed spec fn view(&self) -> InflightView {
        InflightView { cum_ack: self.cum_ack, chunks: pending_views(self.chunks@) }
    }
}

/// Whether one of the gap blocks covers the offset `off`.
fn covers(gaps: &Vec<GapAckBlock>, off: usize) -> (r: bool)
    ensures
        r == covered(gaps@, off as int),
{
    let mut j: usize = 0;
    while j < gaps.len()
        invariant
            j <= gaps.len(),
            forall|m: int| 0 <= m < j ==> !block_covers(#[trigger] gaps@[m], off as int),
        decreases gaps.len() - j,
    {
        let g: GapAckBlock = gaps[j];
        if g.start as usize <= off && off <= g.end as usize {
            assert(block_covers(gaps@[j as int], off as int));
            return true;
        }
        j = j + 1;
    }
    false
}

/// The highest offset that the gap blocks report, if each block is a range
/// of offsets from 1 to `limit`.
fn check_gaps(gaps: &Vec<GapAckBlock>, limit: usize) -> (r: Option<u16>)
    ensures
        r.is_some() == gaps_within(gaps@, limit as int),
        r matches Some(h) ==> h == highest_offset(gaps@),
{
    let mut highest: u16 = 0;
    let mut j: usize = 0;
    while j < gaps.len()
        invariant
            j <= gaps.len(),
            gaps_within(gaps@.take(j as int), limit as int),
            highest == highest_offset(gaps@.take(j as int)),
        decreases gaps.len() - j,
    {
        let g: GapAckBlock = gaps[j];
        if g.start < 1 || g.start > g.end || g.end as usize > limit {
            assert(!(1 <= gaps@[j as int].start <= gaps@[j as int].end <= limit));
            return None;
        }
        proof {
            let next = gaps@.take(j + 1);
            assert(next.drop_last() =~= gaps@.take(j as int));
            assert(next.last() == gaps@[j as int]);
            assert forall|m: int| 0 <= m < next.len() implies 1 <= (#[trigger] next[m]).start
                <= next[m].end <= limit by {
                if m < j {
                    assert(next[m] == gaps@.take(j as int)[m]);
                }
            }
        }
        if g.end > highest {
            highest = g.end;
        }
        j = j + 1;
    }
    assert(gaps@.take(gaps.len() as int) =~= gaps@);
    Some(highest)
}

impl InflightQueue {
    /// The byte count that the queue keeps is that of its chunks.
    pub closed spec fn counted(&self) -> bool {
        self.n_bytes == in_flight(self@.chunks)
    }

    /// The queue's model is well formed and the byte count it keeps is that of its chunks.
    pub open spec fn wf(&self) -> bool {
        &&& self@.wf()
        &&& self.counted()
    }

    /// An empty queue whose first chunk will get the sequence number `initial_tsn`.
    pub fn new(initial_tsn: u32) -> (q: InflightQueue)
        ensures
            q.wf(),
            q@.chunks.len() == 0,
            q@.next_tsn() == initial_tsn,
            q@.cum_ack == add32(initial_tsn, 0xffff_ffff),
    {
        let q = InflightQueue { cum_ack: initial_tsn.wrapping_sub(1), chunks: Vec::new(), n_bytes: 0 };
        assert(q@.chunks =~= Seq::<PendingView>::empty());
        q
    }

    /// The number of chunks in the queue.
    pub fn len(&self) -> (n: usize)
        ensures
            n == self@.chunks.len(),
    {
        self.chunks.len()
    }

    /// Whether no chunk is in the queue.
    pub fn is_empty(&self) -> (b: bool)
        ensures
            b == (self@.chunks.len() == 0),
    {
        self.chunks.len() == 0
    }

    /// The number of bytes in flight.
    pub fn get_num_bytes(&self) -> (n: u64)
        requires
            self.wf(),
        ensures
            n == self@.bytes(),
    {
        self.n_bytes
    }

    /// The highest sequence number that the peer has acknowledged cumulatively.
    pub fn cumulative_tsn_ack_point(&self) -> (t: u32)
        ensures
            t == self@.cum_ack,
    {
        self.cum_ack
    }

    /// The sequence number that the next chunk sent will get.
    pub fn next_tsn(&self) -> (t: u32)
        requires
            self.wf(),
        ensures
            t == self@.next_tsn(),
    {
        proof {
            lemma_add32_add(self.cum_ack, self.chunks.len() as int, 1);
        }
        advance32(advance32(self.cum_ack, self.chunks.len() as u32), 1)
    }

    /// The highest sequence number in the queue, or the cumulative
    /// acknowledgement point when the queue is empty.
    pub fn highest_tsn(&self) -> (t: u32)
        requires
            self.wf(),
        ensures
            t == add32(self@.cum_ack, self@.chunks.len() as int),
    {
        advance32(self.cum_ack, self.chunks.len() as u32)
    }

    /// The chunk with the sequence number `tsn`, if it is in the queue.
    pub fn get(&self, tsn: u32) -> (r: Option<&PendingChunk>)
        requires
            self.wf(),
        ensures
            match r {
                Some(c) => {
                    &&& 1 <= dist32(self@.cum_ack, tsn) <= self@.chunks.len()
                    &&& c@ == self@.chunks[dist32(self@.cum_ack, tsn) - 1]
                    &&& c@.data.tsn == tsn
                },
                None => !(1 <= dist32(self@.cum_ack, tsn) <= self@.chunks.len()),
            },
    {
        let d: u32 = distance32(self.cum_ack, tsn);
        if d >= 1 && d as usize <= self.chunks.len() {
            let c = &self.chunks[(d - 1) as usize];
            assert(c@ == self@.chunks[d - 1]);
            Some(c)
        } else {
            None
        }
    }

    /// Appends a chunk that is being sent for the first time at `now` and
    /// gives it the next sequence number, which is returned.
    pub fn push(
        &mut self,
        data: DataChunk,
        now: u64,
        reliability_type: ReliabilityType,
        reliability_value: u32,
    ) -> (r: Result<u32, InflightError>)
        requires
            old(self).wf(),
        ensures
            final(self).wf(),
            match r {
                Ok(tsn) => {
                    &&& old(self)@.chunks.len() < MAX_IN_FLIGHT
                    &&& data@.payload.len() <= MAX_CHUNK_PAYLOAD
                    &&& tsn == old(self)@.next_tsn()
                    &&& final(self)@ == (InflightView {
                        cum_ack: old(self)@.cum_ack,
                        chunks: old(self)@.chunks.push(
                            PendingView {
                                data: DataView { tsn, ..data@ },
                                send_time: now,
                                transmit_count: 1,
                                miss_indicator: 0,
                                acked: false,
                                abandoned: false,
                                retransmit: false,
                                reliability_type,
                                reliability_value,
                            },
                        ),
                    })
                    &&& final(self)@.bytes() == old(self)@.bytes() + data@.payload.len()
                },
                Err(e) => {
                    &&& final(self)@ == old(self)@
                    &&& e == (if data@.payload.len() > MAX_CHUNK_PAYLOAD {
                        InflightError::TooLarge
                    } else {
                        InflightError::Full
                    })
                    &&& data@.payload.len() > MAX_CHUNK_PAYLOAD || old(self)@.chunks.len() >= MAX_IN_FLIGHT
                },
            },
    {
        if data.payload.len() > MAX_CHUNK_PAYLOAD {
            return Err(InflightError::TooLarge);
        }
        if self.chunks.len() >= MAX_IN_FLIGHT {
            return Err(InflightError::Full);
        }
        let tsn: u32 = self.next_tsn();
        let mut data = data;
        data.tsn = tsn;
        let n: u64 = data.payload.len() as u64;
        let c = PendingChunk {
            data,
            send_time: now,
            transmit_count: 1,
            miss_indicator: 0,
            acked: false,
            abandoned: false,
            retransmit: false,
            reliability_type,
            reliability_value,
        };
        proof {
            lemma_in_flight_bound(self@.chunks);
            lemma_in_flight_push(self@.chunks, c@);
            assert(self@.chunks.len() * MAX_CHUNK_PAYLOAD <= MAX_IN_FLIGHT * MAX_CHUNK_PAYLOAD)
                by (nonlinear_arith)
                requires
                    self@.chunks.len() <= MAX_IN_FLIGHT,
            ;
            assert(pending_views(self.chunks@.push(c)) =~= pending_views(self.chunks@).push(c@));
        }
        self.chunks.push(c);
        self.n_bytes = self.n_bytes + n;
        Ok(tsn)
    }

    /// The bytes that the first `k` chunks contribute to the in-flight count,
    /// and the time at which the first of them that gives a round-trip sample was sent.
    fn measure_front(&self, k: usize) -> (r: (u64, Option<u64>))
        requires
            self.wf(),
            k <= self@.chunks.len(),
        ensures
            r.0 == in_flight(self@.chunks.take(k as int)),
            r.0 <= self@.bytes(),
            r.1 == first_sample(self@.chunks.take(k as int)),
    {
        let mut sum: u64 = 0;
        let mut sample: Option<u64> = None;
        let mut j: usize = 0;
        proof {
            lemma_in_flight_split(self@.chunks, 0);
        }
        while j < k
            invariant
                j <= k <= self.chunks.len(),
                self.wf(),
                sum == in_flight(self@.chunks.take(j as int)),
                sum <= self@.bytes(),
                sample == first_sample(self@.chunks.take(j as int)),
            decreases k - j,
        {
            let c = &self.chunks[j];
            proof {
                let next = self@.chunks.take(j + 1);
                assert(next.drop_last() =~= self@.chunks.take(j as int));
                assert(next.last() == c@);
                lemma_in_flight_split(self@.chunks, j + 1);
            }
            if !c.acked {
                sum = sum + c.data.payload.len() as u64;
            }
            if sample.is_none() && !c.acked && c.transmit_count == 1 {
                sample = Some(c.send_time);
            }
            j = j + 1;
        }
        (sum, sample)
    }

    /// Takes a selective acknowledgement with the cumulative acknowledgement
    /// `cum_ack` and the gap blocks `gaps`.
    ///
    /// Chunks up to `cum_ack` leave the queue. Chunks inside a gap block are
    /// marked acknowledged and stay. Each chunk that is still unacknowledged
    /// and lies below the highest offset reported gets one more missing
    /// report; the report that reaches `threshold` marks the chunk for fast
    /// retransmit, and from then on the chunk gets no further reports.
    ///
    /// Returns `None`, and changes nothing, when the acknowledgement is stale,
    /// acknowledges what was never sent, or holds a gap block that is not a
    /// range of chunks in the queue.
    pub fn on_sack(&mut self, cum_ack: u32, gaps: &Vec<GapAckBlock>, threshold: u8) -> (r: Option<SackOutcome>)
        requires
            old(self).wf(),
        ensures
            final(self).wf(),
            final(self)@ == old(self)@.sacked(SackView { cum_ack, gaps: gaps@ }, threshold),
            r.is_some() == old(self)@.accepts(SackView { cum_ack, gaps: gaps@ }),
            final(self)@.bytes() <= old(self)@.bytes(),
            r matches Some(o) ==> {
                &&& o.bytes_acked == old(self)@.bytes() - final(self)@.bytes()
                &&& o.newly_covered == old(self)@.newly_covered(cum_ack)
                &&& o.fired@ == old(self)@.fired_by(SackView { cum_ack, gaps: gaps@ }, threshold)
                &&& o.rtt_send_time == first_sample(
                    old(self)@.chunks.take(old(self)@.newly_covered(cum_ack)),
                )
            },
    {
        let ghost sack = SackView { cum_ack, gaps: gaps@ };
        let ghost before = self@;
        let d: u32 = distance32(self.cum_ack, cum_ack);
        if d as usize > self.chunks.len() {
            return None;
        }
        let k: usize = d as usize;
        let limit: usize = self.chunks.len() - k;
        let highest: u16 = match check_gaps(gaps, limit) {
            Some(h) => h,
            None => {
                return None;
            },
        };
        assert(before.accepts(sack));
        let (front_bytes, sample) = self.measure_front(k);
        let ghost rest = before.remaining(cum_ack);
        proof {
            lemma_in_flight_split(before.chunks, k as int);
            lemma_skip_wf(before, k as int);
            assert(pending_views(self.chunks@.skip(k as int)) =~= rest);
        }
        let tail = self.chunks.split_off(k);
        self.chunks = tail;
        self.cum_ack = cum_ack;
        self.n_bytes = self.n_bytes - front_bytes;
        assert(pending_views(self.chunks@) =~= rest);

        let mut fired: Vec<u32> = Vec::new();
        let mut acked_bytes: u64 = front_bytes;
        let n: usize = self.chunks.len();
        let mut i: usize = 0;
        assert(rest.take(0) =~= Seq::<PendingView>::empty());
        while i < n
            invariant
                i <= n,
                n == self.chunks.len(),
                n == rest.len(),
                n <= MAX_IN_FLIGHT,
                self.cum_ack == cum_ack,
                highest == highest_offset(gaps@),
                forall|j: int| 0 <= j < i ==> (#[trigger] self.chunks@[j])@ == chunk_after(
                    rest[j],
                    j + 1,
                    gaps@,
                    threshold,
                ),
                forall|j: int| i <= j < n ==> (#[trigger] self.chunks@[j])@ == rest[j],
                self.n_bytes == in_flight(pending_views(self.chunks@)),
                acked_bytes + self.n_bytes == before.bytes(),
                before.bytes() <= u64::MAX,
                fired@ == fired_list(rest.take(i as int), gaps@, threshold),
            decreases n - i,
        {
            let off: usize = i + 1;
            let cov: bool = covers(gaps, off);
            let ghost prev = pending_views(self.chunks@);
            let ghost c0 = self.chunks@[i as int]@;
            assert(c0 == rest[i as int]);
            assert(prev[i as int] == c0);
            let was_acked: bool = self.chunks[i].acked;
            let missing: bool = !was_acked && !cov && !self.chunks[i].abandoned && off < highest as usize
                && self.chunks[i].miss_indicator < threshold;
            assert(missing == counted_missing(c0, off as int, gaps@, threshold));
            let size: u64 = self.chunks[i].data.payload.len() as u64;
            let tsn: u32 = self.chunks[i].data.tsn;
            proof {
                let next = rest.take(i + 1);
                assert(next.drop_last() =~= rest.take(i as int));
                assert(next.last() == c0);
                lemma_in_flight_update(prev, i as int, chunk_after(c0, off as int, gaps@, threshold));
            }
            if cov && !was_acked {
                self.chunks[i].acked = true;
                self.n_bytes = self.n_bytes - size;
                acked_bytes = acked_bytes + size;
            }
            if missing {
                let m: u8 = self.chunks[i].miss_indicator + 1;
                self.chunks[i].miss_indicator = m;
                if m == threshold {
                    self.chunks[i].retransmit = true;
                    fired.push(tsn);
                }
            }
            assert(self.chunks@[i as int]@ == chunk_after(c0, off as int, gaps@, threshold));
            assert(pending_views(self.chunks@) =~= prev.update(
                i as int,
                chunk_after(c0, off as int, gaps@, threshold),
            ));
            i = i + 1;
        }
        proof {
            assert(rest.take(n as int) =~= rest);
            assert(self@.chunks =~= before.sacked(sack, threshold).chunks);
            lemma_sacked_wf(before, sack, threshold);
        }
        Some(SackOutcome { bytes_acked: acked_bytes, newly_covered: d, fired, rtt_send_time: sample })
    }
}


/// The sequence numbers of the chunks in the queue that can still be fast
/// retransmitted: those with fewer missing reports than the threshold.
pub open spec fn eligible(q: InflightView, threshold: u8) -> Set<u32> {
    Set::new(
        |t: u32|
            exists|i: int|
                0 <= i < q.chunks.len() && (#[trigger] q.chunks[i]).data.tsn == t
                    && q.chunks[i].miss_indicator < threshold,
    )
}

/// No two chunks of a well-formed queue have the same sequence number.
pub proof fn lemma_tsns_distinct(q: InflightView, i: int, j: int)
    requires
        q.wf(),
        0 <= i < q.chunks.len(),
        0 <= j < q.chunks.len(),
        q.chunks[i].data.tsn == q.chunks[j].data.tsn,
    ensures
        i == j,
{
    crate::serial::lemma_add32_injective(q.cum_ack, i + 1, j + 1);
}

/// The cumulative acknowledgement point moves only forward: a selective
/// acknowledgement leaves it where it is or moves it on by as many chunks
/// as it newly covers, never back.
pub proof fn lemma_cum_ack_moves_forward(q: InflightView, sack: SackView, threshold: u8)
    requires
        q.wf(),
    ensures
        dist32(q.cum_ack, q.sacked(sack, threshold).cum_ack) <= q.chunks.len(),
        crate::serial::lte32(q.cum_ack, q.sacked(sack, threshold).cum_ack),
        q.sacked(sack, threshold).chunks.len() + dist32(q.cum_ack, q.sacked(sack, threshold).cum_ack)
            == q.chunks.len(),
        q.sacked(sack, threshold).next_tsn() == q.next_tsn(),
{
    if q.accepts(sack) {
        let k = q.newly_covered(sack.cum_ack);
        lemma_add32_add(q.cum_ack, k, q.chunks.len() - k + 1);
    }
}

/// A selective acknowledgement never raises the in-flight byte count.
pub proof fn lemma_sack_never_adds_bytes(q: InflightView, sack: SackView, threshold: u8)
    requires
        q.wf(),
    ensures
        q.sacked(sack, threshold).bytes() <= q.bytes(),
        q.sacked(sack, threshold).wf(),
{
    lemma_sacked_wf(q, sack, threshold);
    if q.accepts(sack) {
        let k = q.newly_covered(sack.cum_ack);
        let rest = q.remaining(sack.cum_ack);
        lemma_in_flight_split(q.chunks, k);
        lemma_in_flight_pointwise(rest, q.sacked(sack, threshold).chunks);
    }
}

/// For any sequence of selective acknowledgements, with no chunk sent in
/// between, the in-flight byte count after each is no larger than before it,
/// and never larger than at the start.
pub proof fn lemma_in_flight_never_grows(q: InflightView, sacks: Seq<SackView>, next: SackView, threshold: u8)
    requires
        q.wf(),
    ensures
        q.sacked_all(sacks, threshold).wf(),
        q.sacked_all(sacks, threshold).bytes() <= q.bytes(),
        q.sacked_all(sacks.push(next), threshold).bytes() <= q.sacked_all(sacks, threshold).bytes(),
    decreases sacks.len(),
{
    if sacks.len() > 0 {
        lemma_in_flight_never_grows(q, sacks.drop_last(), sacks.last(), threshold);
        assert(sacks.drop_last().push(sacks.last()) =~= sacks);
    }
    assert(sacks.push(next).drop_last() =~= sacks);
    lemma_sack_never_adds_bytes(q.sacked_all(sacks, threshold), next, threshold);
}

/// A sequence number is in the list of fast retransmits exactly if the chunk
/// that has it reaches the threshold; with distinct sequence numbers the list
/// names none twice.
pub proof fn lemma_fired_list_members(q: Seq<PendingView>, gaps: Seq<GapAckBlock>, threshold: u8)
    requires
        forall|i: int, j: int|
            0 <= i < q.len() && 0 <= j < q.len() && (#[trigger] q[i]).data.tsn == (#[trigger] q[j]).data.tsn
                ==> i == j,
    ensures
        forall|t: u32|
            fired_list(q, gaps, threshold).contains(t) <==> exists|i: int|
                0 <= i < q.len() && (#[trigger] q[i]).data.tsn == t && fires(q[i], i + 1, gaps, threshold),
        fired_list(q, gaps, threshold).no_duplicates(),
    decreases q.len(),
{
    let all = fired_list(q, gaps, threshold);
    if q.len() == 0 {
    } else {
        let front = q.drop_last();
        let rest = fired_list(front, gaps, threshold);
        assert forall|i: int, j: int|
            0 <= i < front.len() && 0 <= j < front.len() && (#[trigger] front[i]).data.tsn == (
            #[trigger] front[j]).data.tsn implies i == j by {
            assert(front[i] == q[i]);
            assert(front[j] == q[j]);
        }
        lemma_fired_list_members(front, gaps, threshold);
        let last = q.last();
        let n = q.len() as int;
        assert forall|t: u32| all.contains(t) <==> exists|i: int|
            0 <= i < q.len() && (#[trigger] q[i]).data.tsn == t && fires(
                q[i],
                i + 1,
                gaps,
                threshold,
            ) by {
            if all.contains(t) {
                let m = choose|m: int| 0 <= m < all.len() && all[m] == t;
                if fires(last, n, gaps, threshold) && m == all.len() - 1 {
                    assert(q[n - 1].data.tsn == t);
                } else {
                    assert(rest[m] == t);
                    assert(rest.contains(t));
                    let i = choose|i: int|
                        0 <= i < front.len() && (#[trigger] front[i]).data.tsn == t && fires(
                            front[i],
                            i + 1,
                            gaps,
                            threshold,
                        );
                    assert(q[i] == front[i]);
                }
            }
            if exists|i: int|
                0 <= i < q.len() && (#[trigger] q[i]).data.tsn == t && fires(q[i], i + 1, gaps, threshold) {
                let i = choose|i: int|
                    0 <= i < q.len() && (#[trigger] q[i]).data.tsn == t && fires(
                        q[i],
                        i + 1,
                        gaps,
                        threshold,
                    );
                if i == n - 1 {
                    assert(all == rest.push(last.data.tsn));
                    assert(all[all.len() - 1] == t);
                } else {
                    assert(front[i] == q[i]);
                    assert(rest.contains(t));
                    let m = choose|m: int| 0 <= m < rest.len() && rest[m] == t;
                    assert(all[m] == t);
                }
            }
        }
        if fires(last, n, gaps, threshold) {
            if rest.contains(last.data.tsn) {
                let i = choose|i: int|
                    0 <= i < front.len() && (#[trigger] front[i]).data.tsn == last.data.tsn && fires(
                        front[i],
                        i + 1,
                        gaps,
                        threshold,
                    );
                assert(front[i] == q[i]);
                assert(q[n - 1].data.tsn == q[i].data.tsn);
                assert(false);
            }
            assert forall|a: int, b: int| 0 <= a < all.len() && 0 <= b < all.len() && a != b implies all[a]
                != all[b] by {
                if a == all.len() - 1 {
                    assert(rest[b] == all[b]);
                    assert(rest.contains(all[b]));
                } else if b == all.len() - 1 {
                    assert(rest[a] == all[a]);
                    assert(rest.contains(all[a]));
                } else {
                    assert(rest[a] == all[a] && rest[b] == all[b]);
                }
            }
        }
    }
}

/// What one selective acknowledgement does to the chunks that can still be
/// fast retransmitted: it fires only for such chunks, for none of them twice,
/// and those it fired for can no longer be fast retransmitted afterwards.
pub proof fn lemma_step_fires_once(q: InflightView, sack: SackView, threshold: u8)
    requires
        q.wf(),
    ensures
        q.sacked(sack, threshold).wf(),
        q.fired_by(sack, threshold).no_duplicates(),
        forall|t: u32| q.fired_by(sack, threshold).contains(t) ==> eligible(q, threshold).contains(t),
        forall|t: u32| #[trigger]
            eligible(q.sacked(sack, threshold), threshold).contains(t) ==> eligible(q, threshold).contains(t)
                && !q.fired_by(sack, threshold).contains(t),
{
    lemma_sacked_wf(q, sack, threshold);
    if q.accepts(sack) {
        let k = q.newly_covered(sack.cum_ack);
        let rest = q.remaining(sack.cum_ack);
        let after = q.sacked(sack, threshold);
        assert forall|i: int, j: int|
            0 <= i < rest.len() && 0 <= j < rest.len() && (#[trigger] rest[i]).data.tsn == (
            #[trigger] rest[j]).data.tsn implies i == j by {
            assert(rest[i] == q.chunks[k + i]);
            assert(rest[j] == q.chunks[k + j]);
            lemma_tsns_distinct(q, k + i, k + j);
        }
        lemma_fired_list_members(rest, sack.gaps, threshold);
        let fired = q.fired_by(sack, threshold);
        assert forall|t: u32| fired.contains(t) implies eligible(q, threshold).contains(t) by {
            let i = choose|i: int|
                0 <= i < rest.len() && (#[trigger] rest[i]).data.tsn == t && fires(
                    rest[i],
                    i + 1,
                    sack.gaps,
                    threshold,
                );
            assert(rest[i] == q.chunks[k + i]);
            assert(q.chunks[k + i].data.tsn == t && q.chunks[k + i].miss_indicator < threshold);
        }
        assert forall|t: u32| #[trigger]
            eligible(after, threshold).contains(t) implies eligible(q, threshold).contains(t)
            && !fired.contains(t) by {
            let i = choose|i: int|
                0 <= i < after.chunks.len() && (#[trigger] after.chunks[i]).data.tsn == t
                    && after.chunks[i].miss_indicator < threshold;
            assert(after.chunks[i] == chunk_after(rest[i], i + 1, sack.gaps, threshold));
            assert(rest[i] == q.chunks[k + i]);
            assert(q.chunks[k + i].data.tsn == t && q.chunks[k + i].miss_indicator < threshold);
            if fired.contains(t) {
                let j = choose|j: int|
                    0 <= j < rest.len() && (#[trigger] rest[j]).data.tsn == t && fires(
                        rest[j],
                        j + 1,
                        sack.gaps,
                        threshold,
                    );
                assert(rest[i].data.tsn == rest[j].data.tsn);
                assert(i == j);
                assert(false);
            }
        }
    }
}

/// Fast retransmit fires at most once for each missing sequence number:
/// whatever selective acknowledgements arrive, with no chunk sent in
/// between, the fast retransmits they trigger name no sequence number twice,
/// and a chunk that was fast retransmitted is never counted missing again.
pub proof fn lemma_fast_retransmit_once(q: InflightView, sacks: Seq<SackView>, threshold: u8)
    requires
        q.wf(),
    ensures
        q.sacked_all(sacks, threshold).wf(),
        q.fired_by_all(sacks, threshold).no_duplicates(),
        forall|t: u32|
            q.fired_by_all(sacks, threshold).contains(t) ==> !(#[trigger] eligible(
                q.sacked_all(sacks, threshold),
                threshold,
            ).contains(t)),
    decreases sacks.len(),
{
    if sacks.len() > 0 {
        let front = sacks.drop_last();
        let mid = q.sacked_all(front, threshold);
        let before = q.fired_by_all(front, threshold);
        let now = mid.fired_by(sacks.last(), threshold);
        let all = q.fired_by_all(sacks, threshold);
        let end = q.sacked_all(sacks, threshold);
        lemma_fast_retransmit_once(q, front, threshold);
        lemma_step_fires_once(mid, sacks.last(), threshold);
        assert forall|i: int, j: int| 0 <= i < before.len() && 0 <= j < now.len() implies before[i]
            != now[j] by {
            assert(before.contains(before[i]));
            assert(now.contains(now[j]));
            assert(!eligible(mid, threshold).contains(before[i]));
        }
        vstd::seq_lib::lemma_no_dup_in_concat(before, now);
        assert forall|t: u32| all.contains(t) implies !(#[trigger] eligible(end, threshold).contains(t)) by {
            let m = choose|m: int| 0 <= m < all.len() && all[m] == t;
            if m < before.len() {
                assert(before[m] == t);
                assert(before.contains(t));
            } else {
                assert(now[m - before.len()] == t);
                assert(now.contains(t));
            }
        }
    }
}


/// A chunk after the retransmission timer has expired: unless it is
/// acknowledged or given up, it waits to be sent again.
pub open spec fn chunk_timed_out(c: PendingView) -> PendingView {
    if c.acked || c.abandoned {
        c
    } else {
        PendingView { retransmit: true, ..c }
    }
}

/// A chunk after its stream's policy has been applied at `now`: one that
/// waits to be sent again and that the stream gives up is marked so.
pub open spec fn chunk_given_up(c: PendingView, now: u64) -> PendingView {
    if c.retransmit && !c.acked && !c.abandoned && gives_up(
        c.reliability_type,
        c.reliability_value,
        c.transmit_count,
        c.send_time,
        now,
    ) {
        PendingView { abandoned: true, retransmit: false, ..c }
    } else {
        c
    }
}

/// How many chunks at the front of the queue are given up.
pub open spec fn abandoned_prefix(q: Seq<PendingView>) -> nat
    decreases q.len(),
{
    if q.len() == 0 || !q[0].abandoned {
        0
    } else {
        1 + abandoned_prefix(q.drop_first())
    }
}

/// The ordered messages among the first `n` chunks of the queue, each named
/// by its stream and stream sequence number, in the order of the queue.
pub open spec fn skipped_streams(q: Seq<PendingView>, n: nat) -> Seq<ForwardTsnStream>
    decreases n,
{
    if n == 0 {
        Seq::<ForwardTsnStream>::empty()
    } else {
        let rest = skipped_streams(q, (n - 1) as nat);
        let c = q[n - 1];
        if !c.data.unordered && c.data.beginning_fragment {
            rest.push(ForwardTsnStream { stream_id: c.data.stream_id, ssn: c.data.ssn })
        } else {
            rest
        }
    }
}

/// No more ordered messages are skipped than chunks are looked at.
pub proof fn lemma_skipped_streams_len(q: Seq<PendingView>, n: nat)
    ensures
        skipped_streams(q, n).len() <= n,
    decreases n,
{
    if n > 0 {
        lemma_skipped_streams_len(q, (n - 1) as nat);
    }
}

/// One more than `n`, but no more than the largest count there is.
pub open spec fn one_more(n: u32) -> u32 {
    if n < u32::MAX {
        (n + 1) as u32
    } else {
        n
    }
}

impl InflightView {
    /// The queue after the retransmission timer has expired.
    pub open spec fn timed_out(self) -> InflightView {
        InflightView { chunks: self.chunks.map_values(|c: PendingView| chunk_timed_out(c)), ..self }
    }

    /// The queue after the policies of the streams have been applied at `now`.
    pub open spec fn given_up(self, now: u64) -> InflightView {
        InflightView { chunks: self.chunks.map_values(|c: PendingView| chunk_given_up(c, now)), ..self }
    }

    /// The queue after the next chunk to send again has been taken from it,
    /// and that chunk, when the search begins at the place `i`.
    ///
    /// Chunks that do not wait to be sent again are passed over. A chunk
    /// that waits and that its stream gives up is marked so and passed over.
    /// The first chunk that waits and is not given up is taken, if its
    /// payload is no larger than `room`; if it is larger, none is taken.
    pub open spec fn retransmit_from(self, i: int, room: int, now: u64) -> (InflightView, Option<DataView>)
        decreases self.chunks.len() - i,
    {
        if i < 0 || i >= self.chunks.len() {
            (self, None)
        } else {
            let c = self.chunks[i];
            if !c.retransmit || c.acked || c.abandoned {
                self.retransmit_from(i + 1, room, now)
            } else if gives_up(c.reliability_type, c.reliability_value, c.transmit_count, c.send_time, now) {
                (InflightView {
                    chunks: self.chunks.update(i, PendingView { abandoned: true, retransmit: false, ..c }),
                    ..self
                }).retransmit_from(i + 1, room, now)
            } else if c.data.payload.len() > room {
                (self, None)
            } else {
                (
                    InflightView {
                        chunks: self.chunks.update(
                            i,
                            PendingView {
                                retransmit: false,
                                transmit_count: one_more(c.transmit_count),
                                ..c
                            },
                        ),
                        ..self
                    },
                    Some(c.data),
                )
            }
        }
    }

    /// The sequence number up to which the sender has given everything up:
    /// the cumulative acknowledgement point moved over the chunks at the
    /// front of the queue that are given up.
    pub open spec fn forward_point(self) -> u32 {
        add32(self.cum_ack, abandoned_prefix(self.chunks) as int)
    }
}

/// Changing a chunk's marks, but neither its payload nor whether it is
/// acknowledged, keeps the queue well formed and its byte count.
pub proof fn lemma_update_marks(q: InflightView, i: int, c: PendingView)
    requires
        q.wf(),
        0 <= i < q.chunks.len(),
        c.data == q.chunks[i].data,
        c.acked == q.chunks[i].acked,
    ensures
        (InflightView { chunks: q.chunks.update(i, c), ..q }).wf(),
        in_flight(q.chunks.update(i, c)) == in_flight(q.chunks),
{
    lemma_in_flight_update(q.chunks, i, c);
}

/// A chunk that is taken to be sent again fits the room that was given.
pub proof fn lemma_retransmit_fits(q: InflightView, i: int, room: int, now: u64)
    ensures
        q.retransmit_from(i, room, now).1 matches Some(d) ==> d.payload.len() <= room,
    decreases q.chunks.len() - i,
{
    if 0 <= i < q.chunks.len() {
        let c = q.chunks[i];
        if !c.retransmit || c.acked || c.abandoned {
            lemma_retransmit_fits(q, i + 1, room, now);
        } else if gives_up(c.reliability_type, c.reliability_value, c.transmit_count, c.send_time, now) {
            lemma_retransmit_fits(
                InflightView {
                    chunks: q.chunks.update(i, PendingView { abandoned: true, retransmit: false, ..c }),
                    ..q
                },
                i + 1,
                room,
                now,
            );
        }
    }
}

/// A chunk of a stream that allows no retransmission is given up when its
/// first transmission is lost: once the retransmission timer has expired
/// and the policies of the streams have been applied, the chunk is marked
/// given up and does not wait to be sent again, whatever the time.
pub proof fn lemma_lost_chunk_is_given_up(q: InflightView, i: int, now: u64)
    requires
        0 <= i < q.chunks.len(),
        q.chunks[i].reliability_type == ReliabilityType::Rexmit,
        q.chunks[i].reliability_value == 0,
        q.chunks[i].transmit_count >= 1,
        !q.chunks[i].acked,
        !q.chunks[i].abandoned,
    ensures
        ({
            let w = q.timed_out().given_up(now);
            &&& w.chunks.len() == q.chunks.len()
            &&& w.cum_ack == q.cum_ack
            &&& w.chunks[i].abandoned
            &&& !w.chunks[i].retransmit
            &&& w.chunks[i].data == q.chunks[i].data
            &&& w.chunks[i].transmit_count == q.chunks[i].transmit_count
        }),
{
    let t = q.timed_out();
    assert(t.chunks[i] == chunk_timed_out(q.chunks[i]));
    assert(t.given_up(now).chunks[i] == chunk_given_up(t.chunks[i], now));
}

/// A chunk that is given up is never sent again: taking the next chunk to
/// send again leaves it as it is, with the count of its transmissions, and
/// the chunk that is taken is another one.
pub proof fn lemma_given_up_is_not_sent_again(q: InflightView, from: int, room: int, now: u64, i: int)
    requires
        0 <= i < q.chunks.len(),
        q.chunks[i].abandoned,
    ensures
        ({
            let (w, taken) = q.retransmit_from(from, room, now);
            &&& w.chunks.len() == q.chunks.len()
            &&& w.cum_ack == q.cum_ack
            &&& w.chunks[i] == q.chunks[i]
            &&& forall|j: int| 0 <= j < q.chunks.len() && q.chunks[j].abandoned ==> (#[trigger] w.chunks[j]).abandoned
            &&& taken matches Some(d) ==> exists|j: int|
                0 <= j < q.chunks.len() && j != i && !(#[trigger] q.chunks[j]).abandoned && q.chunks[j].data == d
        }),
    decreases q.chunks.len() - from,
{
    if 0 <= from < q.chunks.len() {
        let c = q.chunks[from];
        if !c.retransmit || c.acked || c.abandoned {
            lemma_given_up_is_not_sent_again(q, from + 1, room, now, i);
        } else if gives_up(c.reliability_type, c.reliability_value, c.transmit_count, c.send_time, now) {
            let next = InflightView {
                chunks: q.chunks.update(from, PendingView { abandoned: true, retransmit: false, ..c }),
                ..q
            };
            lemma_given_up_is_not_sent_again(next, from + 1, room, now, i);
            let (w, taken) = next.retransmit_from(from + 1, room, now);
            assert forall|j: int| 0 <= j < q.chunks.len() && q.chunks[j].abandoned implies (
            #[trigger] w.chunks[j]).abandoned by {
                assert(next.chunks[j].abandoned);
            }
            match taken {
                Some(d) => {
                    let j = choose|j: int|
                        0 <= j < next.chunks.len() && j != i && !(#[trigger] next.chunks[j]).abandoned
                            && next.chunks[j].data == d;
                    assert(j != from);
                    assert(next.chunks[j] == q.chunks[j]);
                    assert(!q.chunks[j].abandoned && q.chunks[j].data == d);
                },
                None => {},
            }
        } else if c.data.payload.len() > room {
        } else {
            assert(!q.chunks[from].abandoned && q.chunks[from].data == c.data);
        }
    }
}

/// The sender's forward point covers a chunk once the chunk and all chunks
/// before it in the queue are given up.
pub proof fn lemma_forward_point_covers(q: Seq<PendingView>, i: int)
    requires
        0 <= i < q.len(),
        forall|j: int| 0 <= j <= i ==> (#[trigger] q[j]).abandoned,
    ensures
        abandoned_prefix(q) >= i + 1,
    decreases q.len(),
{
    assert(q[0].abandoned);
    if i > 0 {
        let rest = q.drop_first();
        assert forall|j: int| 0 <= j <= i - 1 implies (#[trigger] rest[j]).abandoned by {
            assert(rest[j] == q[j + 1]);
        }
        lemma_forward_point_covers(rest, i - 1);
    }
}

/// The chunks at the front that are given up are no more than there are chunks.
pub proof fn lemma_abandoned_prefix(q: Seq<PendingView>)
    ensures
        abandoned_prefix(q) <= q.len(),
        forall|i: int| 0 <= i < abandoned_prefix(q) ==> (#[trigger] q[i]).abandoned,
        abandoned_prefix(q) < q.len() ==> !q[abandoned_prefix(q) as int].abandoned,
    decreases q.len(),
{
    if q.len() > 0 && q[0].abandoned {
        lemma_abandoned_prefix(q.drop_first());
        let k = abandoned_prefix(q.drop_first());
        assert forall|i: int| 0 <= i < abandoned_prefix(q) implies (#[trigger] q[i]).abandoned by {
            if i > 0 {
                assert(q.drop_first()[i - 1] == q[i]);
            }
        }
        if abandoned_prefix(q) < q.len() {
            assert(q.drop_first()[k as int] == q[(k + 1) as int]);
        }
    }
}

impl InflightQueue {
    /// Marks every chunk that is neither acknowledged nor given up to be sent again.
    pub fn mark_all_to_retransmit(&mut self)
        requires
            old(self).wf(),
        ensures
            final(self).wf(),
            final(self)@ == old(self)@.timed_out(),
            final(self)@.bytes() == old(self)@.bytes(),
    {
        let ghost start = self@;
        let n: usize = self.chunks.len();
        let mut i: usize = 0;
        while i < n
            invariant
                i <= n,
                n == self.chunks.len(),
                n == start.chunks.len(),
                start.wf(),
                self.wf(),
                self.cum_ack == start.cum_ack,
                forall|j: int| 0 <= j < i ==> (#[trigger] self@.chunks[j]) == chunk_timed_out(start.chunks[j]),
                forall|j: int| i <= j < n ==> (#[trigger] self@.chunks[j]) == start.chunks[j],
                self@.bytes() == start.bytes(),
            decreases n - i,
        {
            let ghost before = self@;
            assert(before.chunks[i as int] == self.chunks@[i as int]@);
            if !self.chunks[i].acked && !self.chunks[i].abandoned {
                self.chunks[i].retransmit = true;
            }
            proof {
                let c = chunk_timed_out(before.chunks[i as int]);
                assert(self.chunks@[i as int]@ == c);
                assert(self@.chunks =~= before.chunks.update(i as int, c));
                lemma_update_marks(before, i as int, c);
            }
            i = i + 1;
        }
        assert(self@.chunks =~= start.timed_out().chunks);
    }

    /// Gives up every chunk that waits to be sent again and that its stream gives up at `now`.
    pub fn give_up(&mut self, now: u64)
        requires
            old(self).wf(),
        ensures
            final(self).wf(),
            final(self)@ == old(self)@.given_up(now),
            final(self)@.bytes() == old(self)@.bytes(),
    {
        let ghost start = self@;
        let n: usize = self.chunks.len();
        let mut i: usize = 0;
        while i < n
            invariant
                i <= n,
                n == self.chunks.len(),
                n == start.chunks.len(),
                start.wf(),
                self.wf(),
                self.cum_ack == start.cum_ack,
                forall|j: int| 0 <= j < i ==> (#[trigger] self@.chunks[j]) == chunk_given_up(start.chunks[j], now),
                forall|j: int| i <= j < n ==> (#[trigger] self@.chunks[j]) == start.chunks[j],
                self@.bytes() == start.bytes(),
            decreases n - i,
        {
            let ghost before = self@;
            assert(before.chunks[i as int] == self.chunks@[i as int]@);
            if self.chunks[i].retransmit && !self.chunks[i].acked && !self.chunks[i].abandoned
                && should_abandon(
                self.chunks[i].reliability_type,
                self.chunks[i].reliability_value,
                self.chunks[i].transmit_count,
                self.chunks[i].send_time,
                now,
            ) {
                self.chunks[i].abandoned = true;
                self.chunks[i].retransmit = false;
            }
            proof {
                let c = chunk_given_up(before.chunks[i as int], now);
                assert(self.chunks@[i as int]@ == c);
                assert(self@.chunks =~= before.chunks.update(i as int, c));
                lemma_update_marks(before, i as int, c);
            }
            i = i + 1;
        }
        assert(self@.chunks =~= start.given_up(now).chunks);
    }

    /// Takes the next chunk to send again, if there is one and its payload
    /// is no larger than `room`. See `retransmit_from`.
    pub fn take_retransmit(&mut self, room: usize, now: u64) -> (r: Option<DataChunk>)
        requires
            old(self).wf(),
        ensures
            final(self).wf(),
            final(self)@ == old(self)@.retransmit_from(0, room as int, now).0,
            match r {
                Some(d) => old(self)@.retransmit_from(0, room as int, now).1 == Some(d@),
                None => old(self)@.retransmit_from(0, room as int, now).1.is_none(),
            },
            final(self)@.bytes() == old(self)@.bytes(),
            final(self)@.cum_ack == old(self)@.cum_ack,
            final(self)@.chunks.len() == old(self)@.chunks.len(),
            r matches Some(d) ==> d@.payload.len() <= room && d@.payload.len() <= MAX_CHUNK_PAYLOAD,
    {
        let ghost start = self@;
        let n: usize = self.chunks.len();
        let mut i: usize = 0;
        while i < n
            invariant
                i <= n,
                n == self.chunks.len(),
                n == start.chunks.len(),
                self.wf(),
                start == old(self)@,
                self@.cum_ack == start.cum_ack,
                self@.bytes() == start.bytes(),
                self@.retransmit_from(i as int, room as int, now) == start.retransmit_from(
                    0,
                    room as int,
                    now,
                ),
            decreases n - i,
        {
            let ghost before = self@;
            assert(before.chunks[i as int] == self.chunks@[i as int]@);
            if self.chunks[i].retransmit && !self.chunks[i].acked && !self.chunks[i].abandoned {
                if should_abandon(
                    self.chunks[i].reliability_type,
                    self.chunks[i].reliability_value,
                    self.chunks[i].transmit_count,
                    self.chunks[i].send_time,
                    now,
                ) {
                    self.chunks[i].abandoned = true;
                    self.chunks[i].retransmit = false;
                    proof {
                        let c = PendingView { abandoned: true, retransmit: false, ..before.chunks[i as int] };
                        assert(self.chunks@[i as int]@ == c);
                        assert(self@.chunks =~= before.chunks.update(i as int, c));
                        lemma_update_marks(before, i as int, c);
                    }
                } else if self.chunks[i].data.payload.len() > room {
                    return None;
                } else {
                    let count: u32 = self.chunks[i].transmit_count;
                    self.chunks[i].retransmit = false;
                    self.chunks[i].transmit_count = if count < u32::MAX { count + 1 } else { count };
                    proof {
                        let c = PendingView {
                            retransmit: false,
                            transmit_count: one_more(before.chunks[i as int].transmit_count),
                            ..before.chunks[i as int]
                        };
                        assert(self.chunks@[i as int]@ == c);
                        assert(self@.chunks =~= before.chunks.update(i as int, c));
                        lemma_update_marks(before, i as int, c);
                    }
                    let d: DataChunk = self.chunks[i].data.clone();
                    return Some(d);
                }
            }
            i = i + 1;
        }
        None
    }

    /// The sequence number up to which everything is given up, and the
    /// ordered messages that this skips. See `forward_point`.
    pub fn forward_tsn(&self) -> (r: (u32, Vec<ForwardTsnStream>, usize))
        requires
            self.wf(),
        ensures
            r.0 == self@.forward_point(),
            r.1@ == skipped_streams(self@.chunks, abandoned_prefix(self@.chunks)),
            r.2 == abandoned_prefix(self@.chunks),
    {
        let n: usize = self.chunks.len();
        let mut k: usize = 0;
        let mut streams: Vec<ForwardTsnStream> = Vec::new();
        proof {
            lemma_abandoned_prefix(self@.chunks);
            assert(self@.chunks.skip(0) =~= self@.chunks);
        }
        while k < n && self.chunks[k].abandoned
            invariant
                k <= n,
                n == self.chunks.len(),
                n <= MAX_IN_FLIGHT,
                abandoned_prefix(self@.chunks) == k + abandoned_prefix(self@.chunks.skip(k as int)),
                streams@ == skipped_streams(self@.chunks, k as nat),
            decreases n - k,
        {
            proof {
                assert(self@.chunks.skip(k as int)[0] == self@.chunks[k as int]);
                assert(self@.chunks[k as int] == self.chunks@[k as int]@);
                assert(self@.chunks.skip(k as int).drop_first() =~= self@.chunks.skip(k + 1));
            }
            if !self.chunks[k].data.unordered && self.chunks[k].data.beginning_fragment {
                streams.push(
                    ForwardTsnStream {
                        stream_id: self.chunks[k].data.stream_id,
                        ssn: self.chunks[k].data.ssn,
                    },
                );
            }
            k = k + 1;
        }
        proof {
            if k < n {
                assert(self@.chunks.skip(k as int)[0] == self@.chunks[k as int]);
                assert(self@.chunks[k as int] == self.chunks@[k as int]@);
            }
        }
        (advance32(self.cum_ack, k as u32), streams, k)
    }
}

} // verus!
