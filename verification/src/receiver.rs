//! What a receiver knows of the sequence numbers it has seen, and the
//! selective acknowledgement it makes of that.
//!
//! Everything up to the cumulative point was received. Above it a window of
//! marks says which sequence numbers were received out of order. The window
//! never begins with a received mark, since that would move the cumulative
//! point, and never ends with a missing one.

use vstd::prelude::*;
use crate::chunk::GapAckBlock;
use crate::inflight::{block_covers, covered};
use crate::serial::{add32, advance32, dist32, distance32};

verus! {

/// How far above the cumulative point a sequence number may lie to be taken:
/// a gap block says its ends in 16 bits.
pub const MAX_WINDOW: usize = 65535;

/// How many marks at the front of `bits` say "received".
pub open spec fn leading_trues(bits: Seq<bool>) -> nat
    decreases bits.len(),
{
    if bits.len() == 0 || !bits[0] {
        0
    } else {
        1 + leading_trues(bits.drop_first())
    }
}

/// `n` marks that say "missing".
pub open spec fn falses(n: nat) -> Seq<bool> {
    Seq::new(n, |i: int| false)
}

/// A receiver's record as a mathematical value.
pub struct TrackerView {
    /// The highest sequence number up to which everything was received.
    pub cum: u32,
    /// The marks above it: `bits[i]` says whether the sequence number `i + 1`
    /// steps above the cumulative point was received.
    pub bits: Seq<bool>,
}

impl TrackerView {
    /// The window is no longer than a gap block can say, does not begin with
    /// a received mark and does not end with a missing one.
    pub open spec fn wf(self) -> bool {
        &&& self.bits.len() <= MAX_WINDOW
        &&& self.bits.len() > 0 ==> !self.bits[0] && self.bits.last()
    }

    /// Whether the sequence number `tsn` was received.
    pub open spec fn has(self, tsn: u32) -> bool {
        let d = dist32(self.cum, tsn);
        d == 0 || d >= 0x8000_0000 || (d <= self.bits.len() && self.bits[d - 1])
    }

    /// Whether the record takes `tsn` as new: it lies above the cumulative
    /// point, within the window's reach, and was not received before.
    pub open spec fn takes(self, tsn: u32) -> bool {
        let d = dist32(self.cum, tsn);
        1 <= d <= MAX_WINDOW && !(d <= self.bits.len() && self.bits[d - 1])
    }

    /// The record with the cumulative point moved over the marks at the front that say "received".
    pub open spec fn advanced(self) -> TrackerView {
        let k = leading_trues(self.bits);
        TrackerView { cum: add32(self.cum, k as int), bits: self.bits.skip(k as int) }
    }

    /// The record after `tsn` has arrived.
    pub open spec fn pushed(self, tsn: u32) -> TrackerView {
        if !self.takes(tsn) {
            self
        } else {
            let d = dist32(self.cum, tsn);
            let marked = if d <= self.bits.len() {
                self.bits.update(d - 1, true)
            } else {
                self.bits + falses((d - 1 - self.bits.len()) as nat) + seq![true]
            };
            (TrackerView { cum: self.cum, bits: marked }).advanced()
        }
    }

    /// The record after the sequence numbers `tsns` have arrived, first to last.
    pub open spec fn pushed_all(self, tsns: Seq<u32>) -> TrackerView
        decreases tsns.len(),
    {
        if tsns.len() == 0 {
            self
        } else {
            self.pushed_all(tsns.drop_last()).pushed(tsns.last())
        }
    }

    /// Whether `tsn` was received and the record still knows it: it is
    /// marked in the window, or lies no more than `reach` sequence numbers
    /// behind the cumulative point.
    pub open spec fn received_within(self, tsn: u32, reach: int) -> bool {
        let d = dist32(self.cum, tsn);
        (1 <= d <= self.bits.len() && self.bits[d - 1]) || dist32(tsn, self.cum) <= reach
    }

    /// The record after the sender has given up everything up to `new_cum`.
    pub open spec fn forwarded(self, new_cum: u32) -> TrackerView {
        let d = dist32(self.cum, new_cum);
        if d == 0 || d >= 0x8000_0000 {
            self
        } else {
            let rest = if d <= self.bits.len() {
                self.bits.skip(d)
            } else {
                Seq::<bool>::empty()
            };
            (TrackerView { cum: new_cum, bits: rest }).advanced()
        }
    }
}

/// The marks at the front that say "received" are no more than there are marks,
/// each of them says so, and the one behind them does not.
pub proof fn lemma_leading_trues(bits: Seq<bool>)
    ensures
        leading_trues(bits) <= bits.len(),
        forall|i: int| 0 <= i < leading_trues(bits) ==> bits[i],
        leading_trues(bits) < bits.len() ==> !bits[leading_trues(bits) as int],
    decreases bits.len(),
{
    if bits.len() > 0 && bits[0] {
        lemma_leading_trues(bits.drop_first());
        let k = leading_trues(bits.drop_first());
        assert forall|i: int| 0 <= i < leading_trues(bits) implies bits[i] by {
            if i > 0 {
                assert(bits.drop_first()[i - 1] == bits[i]);
            }
        }
        if leading_trues(bits) < bits.len() {
            assert(bits.drop_first()[k as int] == bits[(k + 1) as int]);
        }
    }
}

/// Moving the cumulative point over the received marks at the front leaves a record that is well formed.
pub proof fn lemma_advanced_wf(v: TrackerView)
    requires
        v.bits.len() <= MAX_WINDOW,
        v.bits.len() > 0 ==> v.bits.last(),
    ensures
        v.advanced().wf(),
{
    lemma_leading_trues(v.bits);
    let k = leading_trues(v.bits);
    if k < v.bits.len() {
        assert(v.advanced().bits[0] == v.bits[k as int]);
        assert(v.advanced().bits.last() == v.bits.last());
    }
}

/// The gap blocks say exactly what the marks say, in ascending order, and
/// no two of them touch.
pub open spec fn describes(blocks: Seq<GapAckBlock>, bits: Seq<bool>) -> bool {
    &&& forall|off: int| covered(blocks, off) <==> 1 <= off <= bits.len() && bits[off - 1]
    &&& forall|j: int| 0 <= j < blocks.len() ==> 1 <= (#[trigger] blocks[j]).start <= blocks[j].end
    &&& forall|j: int, k: int|
        0 <= j < k < blocks.len() ==> (#[trigger] blocks[j]).end + 1 < (#[trigger] blocks[k]).start
}

/// The place where the run of received marks ends that the place `i` is in.
pub open spec fn run_end(bits: Seq<bool>, i: int) -> int
    decreases bits.len() - i,
{
    if 0 <= i && i + 1 < bits.len() && bits[i + 1] {
        run_end(bits, i + 1)
    } else {
        i
    }
}

/// The gap blocks for the marks from the place `i` on: one block for each
/// run of received marks, lowest first.
pub open spec fn gap_blocks_from(bits: Seq<bool>, i: int) -> Seq<GapAckBlock>
    decreases bits.len() - i,
{
    if i < 0 || i >= bits.len() {
        Seq::<GapAckBlock>::empty()
    } else if !bits[i] {
        gap_blocks_from(bits, i + 1)
    } else {
        let end = run_end(bits, i);
        let j = if i <= end < bits.len() { end } else { bits.len() - 1 };
        seq![GapAckBlock { start: (i + 1) as u16, end: (j + 1) as u16 }] + gap_blocks_from(bits, j + 1)
    }
}

/// The gap blocks of a selective acknowledgement for the marks `bits`.
pub open spec fn gap_blocks(bits: Seq<bool>) -> Seq<GapAckBlock> {
    gap_blocks_from(bits, 0)
}

/// There are no more gap blocks than marks.
pub proof fn lemma_gap_blocks_len(bits: Seq<bool>, i: int)
    requires
        0 <= i,
    ensures
        gap_blocks_from(bits, i).len() <= (if i < bits.len() { bits.len() - i } else { 0 }),
    decreases bits.len() - i,
{
    if i < bits.len() {
        if !bits[i] {
            lemma_gap_blocks_len(bits, i + 1);
        } else {
            let end = run_end(bits, i);
            let j = if i <= end < bits.len() { end } else { bits.len() - 1 };
            lemma_gap_blocks_len(bits, j + 1);
        }
    }
}

/// Records which sequence numbers were received.
#[derive(Debug)]
pub struct TsnTracker {
    cum: u32,
    bits: Vec<bool>,
}

impl View for TsnTracker {
    type V = TrackerView;

    closed spec fn view(&self) -> TrackerView {
        TrackerView { cum: self.cum, bits: self.bits@ }
    }
}

impl TsnTracker {
    /// The record is well formed.
    pub open spec fn wf(&self) -> bool {
        self@.wf()
    }

    /// A record in which everything up to `cum` counts as received and nothing above it.
    pub fn new(cum: u32) -> (t: TsnTracker)
        ensures
            t.wf(),
            t@ == (TrackerView { cum, bits: Seq::<bool>::empty() }),
    {
        let t = TsnTracker { cum, bits: Vec::new() };
        assert(t@.bits =~= Seq::<bool>::empty());
        t
    }

    /// The highest sequence number up to which everything was received.
    pub fn cumulative_tsn(&self) -> (t: u32)
        ensures
            t == self@.cum,
    {
        self.cum
    }

    /// How many marks the window holds.
    pub fn window_len(&self) -> (n: usize)
        ensures
            n == self@.bits.len(),
    {
        self.bits.len()
    }

    /// Whether the sequence number `tsn` was received.
    pub fn has(&self, tsn: u32) -> (b: bool)
        ensures
            b == self@.has(tsn),
    {
        let d: u32 = distance32(self.cum, tsn);
        if d == 0 || d >= 0x8000_0000 {
            true
        } else {
            d as usize <= self.bits.len() && self.bits[(d - 1) as usize]
        }
    }

    /// Moves the cumulative point over the marks at the front that say "received".
    fn advance(&mut self)
        requires
            old(self)@.bits.len() <= MAX_WINDOW,
            old(self)@.bits.len() > 0 ==> old(self)@.bits.last(),
        ensures
            final(self)@ == old(self)@.advanced(),
            final(self).wf(),
    {
        proof {
            lemma_advanced_wf(self@);
            lemma_leading_trues(self@.bits);
        }
        let mut k: usize = 0;
        assert(self.bits@.skip(0) =~= self.bits@);
        while k < self.bits.len() && self.bits[k]
            invariant
                k <= self.bits.len(),
                self.bits.len() <= MAX_WINDOW,
                leading_trues(self.bits@) == k + leading_trues(self.bits@.skip(k as int)),
            decreases self.bits.len() - k,
        {
            proof {
                assert(self.bits@.skip(k as int)[0] == self.bits@[k as int]);
                assert(self.bits@.skip(k as int).drop_first() =~= self.bits@.skip(k + 1));
            }
            k = k + 1;
        }
        proof {
            if k < self.bits.len() {
                assert(self.bits@.skip(k as int)[0] == self.bits@[k as int]);
            }
        }
        let rest = self.bits.split_off(k);
        self.bits = rest;
        self.cum = advance32(self.cum, k as u32);
    }

    /// Takes note that `tsn` has arrived. Returns whether it is new; one that
    /// was received before, or lies beyond the window's reach, changes nothing.
    pub fn push(&mut self, tsn: u32) -> (fresh: bool)
        requires
            old(self).wf(),
        ensures
            final(self).wf(),
            final(self)@ == old(self)@.pushed(tsn),
            fresh == old(self)@.takes(tsn),
    {
        let d: u32 = distance32(self.cum, tsn);
        if d == 0 || d as usize > MAX_WINDOW {
            return false;
        }
        let idx: usize = (d - 1) as usize;
        if idx < self.bits.len() {
            if self.bits[idx] {
                return false;
            }
            self.bits.set(idx, true);
            assert(self.bits@ =~= old(self)@.bits.update(d - 1, true));
            assert(self.bits@.last());
        } else {
            let ghost start = self.bits@;
            while self.bits.len() < idx
                invariant
                    self.bits.len() <= idx,
                    self.cum == old(self).cum,
                    start.len() <= self.bits.len(),
                    self.bits@ == start + falses((self.bits.len() - start.len()) as nat),
                decreases idx - self.bits.len(),
            {
                let ghost before = self.bits@;
                self.bits.push(false);
                assert(self.bits@ =~= start + falses((self.bits.len() - start.len()) as nat));
            }
            self.bits.push(true);
            assert(self.bits@ =~= start + falses((d - 1 - start.len()) as nat) + seq![true]);
            assert(self.bits@.last());
        }
        proof {
            let v = old(self)@;
            let marked = if d <= v.bits.len() {
                v.bits.update(d - 1, true)
            } else {
                v.bits + falses((d - 1 - v.bits.len()) as nat) + seq![true]
            };
            assert(self.bits@ =~= marked);
            assert(v.takes(tsn));
        }
        self.advance();
        true
    }

    /// Takes note that the sender has given up everything up to `new_cum`:
    /// the cumulative point moves there, and on over what was received behind it.
    pub fn forward(&mut self, new_cum: u32)
        requires
            old(self).wf(),
        ensures
            final(self).wf(),
            final(self)@ == old(self)@.forwarded(new_cum),
    {
        let d: u32 = distance32(self.cum, new_cum);
        if d == 0 || d >= 0x8000_0000 {
            return;
        }
        if d as usize <= self.bits.len() {
            let rest = self.bits.split_off(d as usize);
            self.bits = rest;
        } else {
            self.bits = Vec::new();
            assert(self.bits@ =~= Seq::<bool>::empty());
        }
        self.cum = new_cum;
        self.advance();
    }

    /// The gap blocks of a selective acknowledgement: the ranges of sequence
    /// numbers above the cumulative point that were received.
    pub fn gap_ack_blocks(&self) -> (blocks: Vec<GapAckBlock>)
        requires
            self.wf(),
        ensures
            blocks@ == gap_blocks(self@.bits),
            describes(blocks@, self@.bits),
    {
        let mut blocks: Vec<GapAckBlock> = Vec::new();
        let n: usize = self.bits.len();
        let mut i: usize = 0;
        let ghost bits = self.bits@;
        assert(blocks@ + gap_blocks_from(bits, 0) =~= gap_blocks(bits));
        while i < n
            invariant
                i <= n,
                n == bits.len(),
                bits == self.bits@,
                n <= MAX_WINDOW,
                blocks@ + gap_blocks_from(bits, i as int) == gap_blocks(bits),
                forall|off: int| covered(blocks@, off) <==> 1 <= off <= i && bits[off - 1],
                forall|j: int| 0 <= j < blocks.len() ==> 1 <= (#[trigger] blocks@[j]).start <= blocks@[j].end,
                forall|j: int| 0 <= j < blocks.len() ==> (#[trigger] blocks@[j]).end <= i,
                i < n && bits[i as int] ==> forall|j: int|
                    0 <= j < blocks.len() ==> (#[trigger] blocks@[j]).end < i,
                forall|j: int, k: int|
                    0 <= j < k < blocks.len() ==> (#[trigger] blocks@[j]).end + 1 < (
                    #[trigger] blocks@[k]).start,
            decreases n - i,
        {
            if !self.bits[i] {
                proof {
                    assert forall|off: int| covered(blocks@, off) <==> 1 <= off <= i + 1 && bits[off
                        - 1] by {}
                }
                i = i + 1;
            } else {
                let mut j: usize = i;
                while j + 1 < n && self.bits[j + 1]
                    invariant
                        i <= j < n,
                        n == bits.len(),
                        bits == self.bits@,
                        forall|m: int| i <= m <= j ==> bits[m],
                        run_end(bits, j as int) == run_end(bits, i as int),
                    decreases n - j,
                {
                    j = j + 1;
                }
                let g = GapAckBlock { start: (i + 1) as u16, end: (j + 1) as u16 };
                let ghost before = blocks@;
                blocks.push(g);
                proof {
                    assert(run_end(bits, i as int) == j);
                    assert(gap_blocks_from(bits, i as int) == seq![g] + gap_blocks_from(bits, j + 1));
                    assert(before.push(g) + gap_blocks_from(bits, j + 1) =~= before + (seq![g]
                        + gap_blocks_from(bits, j + 1)));
                    assert forall|off: int| covered(blocks@, off) <==> 1 <= off <= j + 1 && bits[off
                        - 1] by {
                        if covered(blocks@, off) {
                            let x = choose|x: int|
                                0 <= x < blocks@.len() && block_covers(#[trigger] blocks@[x], off);
                            if x < before.len() {
                                assert(before[x] == blocks@[x]);
                                assert(covered(before, off));
                            }
                        }
                        if 1 <= off <= j + 1 && bits[off - 1] {
                            if off <= i {
                                assert(covered(before, off));
                                let x = choose|x: int|
                                    0 <= x < before.len() && block_covers(#[trigger] before[x], off);
                                assert(blocks@[x] == before[x]);
                                assert(block_covers(blocks@[x], off));
                            } else {
                                assert(block_covers(blocks@[before.len() as int], off));
                            }
                        }
                    }
                    assert forall|x: int, y: int| 0 <= x < y < blocks.len() implies (
                    #[trigger] blocks@[x]).end + 1 < (#[trigger] blocks@[y]).start by {
                        if y < before.len() {
                            assert(before[x] == blocks@[x] && before[y] == blocks@[y]);
                        } else {
                            assert(before[x] == blocks@[x]);
                        }
                    }
                    assert forall|x: int| 0 <= x < blocks.len() implies 1 <= (#[trigger] blocks@[x]).start
                        <= blocks@[x].end by {
                        if x < before.len() {
                            assert(before[x] == blocks@[x]);
                        }
                    }
                    assert forall|x: int| 0 <= x < blocks.len() implies (#[trigger] blocks@[x]).end <= j
                        + 1 by {
                        if x < before.len() {
                            assert(before[x] == blocks@[x]);
                        }
                    }
                }
                i = j + 1;
            }
        }
        assert(blocks@ + Seq::<GapAckBlock>::empty() =~= blocks@);
        blocks
    }
}

/// The cumulative point of a receiver moves only forward: neither the
/// arrival of a sequence number nor a move forward by the sender takes it back.
pub proof fn lemma_cumulative_point_moves_forward(v: TrackerView, tsn: u32)
    requires
        v.wf(),
    ensures
        dist32(v.cum, v.pushed(tsn).cum) <= MAX_WINDOW,
        dist32(v.cum, v.forwarded(tsn).cum) < 0x8000_0000 + MAX_WINDOW,
        v.forwarded(tsn).wf(),
{
    if v.takes(tsn) {
        let d = dist32(v.cum, tsn);
        let marked = if d <= v.bits.len() {
            v.bits.update(d - 1, true)
        } else {
            v.bits + falses((d - 1 - v.bits.len()) as nat) + seq![true]
        };
        lemma_leading_trues(marked);
    }
    let d = dist32(v.cum, tsn);
    if !(d == 0 || d >= 0x8000_0000) {
        let rest = if d <= v.bits.len() { v.bits.skip(d) } else { Seq::<bool>::empty() };
        lemma_leading_trues(rest);
        lemma_advanced_wf(TrackerView { cum: tsn, bits: rest });
        if rest.len() > 0 {
            assert(rest.last() == v.bits.last());
        }
    }
}

/// A sequence number that has arrived counts as received from then on.
pub proof fn lemma_pushed_has(v: TrackerView, tsn: u32)
    requires
        v.wf(),
    ensures
        v.pushed(tsn).wf(),
        v.takes(tsn) ==> v.pushed(tsn).has(tsn) && !v.has(tsn),
        !v.takes(tsn) ==> v.pushed(tsn) == v,
{
    if v.takes(tsn) {
        let d = dist32(v.cum, tsn);
        let marked = if d <= v.bits.len() {
            v.bits.update(d - 1, true)
        } else {
            v.bits + falses((d - 1 - v.bits.len()) as nat) + seq![true]
        };
        let w = TrackerView { cum: v.cum, bits: marked };
        lemma_advanced_wf(w);
        lemma_leading_trues(marked);
        let k = leading_trues(marked) as int;
        let r = w.advanced();
        assert(marked[d - 1]);
        let e = dist32(r.cum, tsn);
        if d > k {
            assert(e == d - k);
            assert(r.bits[e - 1] == marked[d - 1]);
        } else {
            assert(e == 0 || e >= 0x8000_0000);
        }
    }
}

/// A sequence number that has just arrived is marked in the window, or
/// lies behind the cumulative point by less than the window.
pub proof fn lemma_arrived_is_received(v: TrackerView, tsn: u32)
    requires
        v.wf(),
        v.takes(tsn),
    ensures
        v.pushed(tsn).wf(),
        v.pushed(tsn).received_within(tsn, MAX_WINDOW as int),
{
    lemma_pushed_has(v, tsn);
    let d = dist32(v.cum, tsn);
    let marked = if d <= v.bits.len() {
        v.bits.update(d - 1, true)
    } else {
        v.bits + falses((d - 1 - v.bits.len()) as nat) + seq![true]
    };
    let w = TrackerView { cum: v.cum, bits: marked };
    lemma_leading_trues(marked);
    let k = leading_trues(marked) as int;
    let r = w.advanced();
    assert(marked[d - 1]);
    if d > k {
        assert(dist32(r.cum, tsn) == d - k);
        assert(r.bits[d - k - 1] == marked[d - 1]);
    } else {
        assert(dist32(tsn, r.cum) == k - d);
    }
}

/// What was received stays received when another sequence number arrives:
/// it is not taken as new, and after the arrival it is still marked in the
/// window or lies behind the cumulative point, which one arrival moves on
/// by no more than the window.
pub proof fn lemma_received_stays(v: TrackerView, tsn: u32, other: u32, reach: int)
    requires
        v.wf(),
        0 <= reach,
        reach + MAX_WINDOW < 0x8000_0000,
        v.received_within(tsn, reach),
    ensures
        !v.takes(tsn),
        v.pushed(other).wf(),
        v.pushed(other).received_within(tsn, reach + MAX_WINDOW),
{
    lemma_pushed_has(v, other);
    if v.takes(other) {
        let d = dist32(v.cum, other);
        let marked = if d <= v.bits.len() {
            v.bits.update(d - 1, true)
        } else {
            v.bits + falses((d - 1 - v.bits.len()) as nat) + seq![true]
        };
        let w = TrackerView { cum: v.cum, bits: marked };
        lemma_leading_trues(marked);
        let k = leading_trues(marked) as int;
        let r = w.advanced();
        assert(marked.len() <= MAX_WINDOW);
        let e = dist32(v.cum, tsn);
        if 1 <= e <= v.bits.len() && v.bits[e - 1] {
            assert(marked[e - 1]);
            if e > k {
                assert(dist32(r.cum, tsn) == e - k);
                assert(r.bits[e - k - 1] == marked[e - 1]);
            } else {
                assert(dist32(tsn, r.cum) == k - e);
            }
        } else {
            assert(dist32(tsn, r.cum) == dist32(tsn, v.cum) + k);
        }
    }
}

/// A sequence number that has arrived is not taken as new a second time,
/// whatever arrives in between, as long as the arrivals in between cannot
/// have moved the cumulative point half way round the circle of sequence
/// numbers: each moves it by no more than the window.
pub proof fn lemma_received_once(v: TrackerView, tsn: u32, between: Seq<u32>)
    requires
        v.wf(),
        v.takes(tsn),
        (between.len() + 1) * MAX_WINDOW < 0x8000_0000,
    ensures
        v.pushed(tsn).pushed_all(between).wf(),
        v.pushed(tsn).pushed_all(between).received_within(tsn, (between.len() + 1) * MAX_WINDOW),
        !v.pushed(tsn).pushed_all(between).takes(tsn),
        v.pushed(tsn).pushed_all(between).pushed(tsn) == v.pushed(tsn).pushed_all(between),
    decreases between.len(),
{
    let first = v.pushed(tsn);
    if between.len() == 0 {
        lemma_arrived_is_received(v, tsn);
        lemma_pushed_has(first, tsn);
    } else {
        let front = between.drop_last();
        assert((front.len() + 1) * MAX_WINDOW + MAX_WINDOW == (between.len() + 1) * MAX_WINDOW) by (nonlinear_arith)
            requires
                between.len() == front.len() + 1,
        ;
        lemma_received_once(v, tsn, front);
        let before = first.pushed_all(front);
        lemma_received_stays(before, tsn, between.last(), (front.len() + 1) * MAX_WINDOW);
        let after = before.pushed(between.last());
        assert(after == first.pushed_all(between));
        lemma_pushed_has(after, tsn);
    }
}

} // verus!
