//! One stream of an association: how its messages are cut into chunks on
//! the way out, and how hard the association tries to deliver them.

use vstd::prelude::*;
use crate::chunk::{data_views, DataChunk, DataView, PayloadProtocolIdentifier, ReliabilityType};
use crate::reassembly::{concat, ReassemblyQueue, ReassemblyView};
use crate::serial::{add16, next16};
use crate::wire::copy_range;

verus! {

/// The payloads of the fragments that a message of bytes `raw` is cut into
/// when no fragment may hold more than `max` bytes: as many full fragments as
/// there are, and one for what is left. A message without bytes has no fragment.
pub open spec fn parts_of(raw: Seq<u8>, max: nat) -> Seq<Seq<u8>>
    decreases raw.len(),
{
    if raw.len() == 0 || max == 0 {
        Seq::<Seq<u8>>::empty()
    } else if raw.len() <= max {
        seq![raw]
    } else {
        seq![raw.take(max as int)] + parts_of(raw.skip(max as int), max)
    }
}

/// The `i`th of `n` fragments of a message, before it has a sequence number.
pub open spec fn fragment_view(
    stream_id: u16,
    ssn: u16,
    ppi: PayloadProtocolIdentifier,
    unordered: bool,
    parts: Seq<Seq<u8>>,
    i: int,
) -> DataView {
    DataView {
        tsn: 0,
        stream_id,
        ssn,
        ppi,
        beginning_fragment: i == 0,
        ending_fragment: i == parts.len() - 1,
        unordered,
        payload: parts[i],
    }
}

/// The fragments of a message, before they have sequence numbers.
pub open spec fn fragments_of(
    stream_id: u16,
    ssn: u16,
    ppi: PayloadProtocolIdentifier,
    unordered: bool,
    parts: Seq<Seq<u8>>,
) -> Seq<DataView> {
    Seq::new(parts.len(), |i: int| fragment_view(stream_id, ssn, ppi, unordered, parts, i))
}

/// A part put in front of others is put in front of their bytes.
pub proof fn lemma_concat_front(first: Seq<u8>, rest: Seq<Seq<u8>>)
    ensures
        concat(seq![first] + rest) == first + concat(rest),
    decreases rest.len(),
{
    let all = seq![first] + rest;
    if rest.len() == 0 {
        assert(all =~= seq![first]);
        assert(all.drop_last() =~= Seq::<Seq<u8>>::empty());
        assert(all.last() == first);
        assert(rest =~= Seq::<Seq<u8>>::empty());
        assert(concat(Seq::<Seq<u8>>::empty()) =~= Seq::<u8>::empty());
        assert(concat(all) == concat(all.drop_last()) + all.last());
        assert(concat(all) =~= first + concat(rest));
    } else {
        lemma_concat_front(first, rest.drop_last());
        assert(all.drop_last() =~= seq![first] + rest.drop_last());
        assert(all.last() == rest.last());
        assert(concat(all) =~= first + concat(rest));
    }
}

/// The fragments of a message hold the message: put one after the other,
/// their payloads are its bytes. None is empty and none is larger than allowed.
pub proof fn lemma_parts_hold_message(raw: Seq<u8>, max: nat)
    requires
        max > 0,
    ensures
        concat(parts_of(raw, max)) == raw,
        forall|i: int| 0 <= i < parts_of(raw, max).len() ==> 1 <= (#[trigger] parts_of(raw, max)[i]).len() <= max,
        raw.len() > 0 ==> parts_of(raw, max).len() >= 1,
        parts_of(raw, max).len() <= raw.len(),
    decreases raw.len(),
{
    if raw.len() == 0 {
        assert(concat(parts_of(raw, max)) =~= raw);
    } else if raw.len() <= max {
        lemma_concat_front(raw, Seq::<Seq<u8>>::empty());
        assert(seq![raw] + Seq::<Seq<u8>>::empty() =~= seq![raw]);
        assert(concat(Seq::<Seq<u8>>::empty()) =~= Seq::<u8>::empty());
        assert(raw + Seq::<u8>::empty() =~= raw);
    } else {
        let rest = raw.skip(max as int);
        lemma_parts_hold_message(rest, max);
        lemma_concat_front(raw.take(max as int), parts_of(rest, max));
        assert(raw.take(max as int) + rest =~= raw);
        let all = parts_of(raw, max);
        assert forall|i: int| 0 <= i < all.len() implies 1 <= (#[trigger] all[i]).len() <= max by {
            if i > 0 {
                assert(all[i] == parts_of(rest, max)[i - 1]);
            }
        }
    }
}

/// Cuts a message into the payloads of its fragments. See `parts_of`.
pub fn split_message(raw: &Vec<u8>, max: usize) -> (parts: Vec<Vec<u8>>)
    requires
        max > 0,
    ensures
        parts@.map_values(|p: Vec<u8>| p@) == parts_of(raw@, max as nat),
{
    let mut parts: Vec<Vec<u8>> = Vec::new();
    let mut at: usize = 0;
    assert(raw@.skip(0) =~= raw@);
    assert(parts@.map_values(|p: Vec<u8>| p@) + parts_of(raw@.skip(0), max as nat) =~= parts_of(
        raw@,
        max as nat,
    ));
    while at < raw.len()
        invariant
            at <= raw.len(),
            max > 0,
            parts@.map_values(|p: Vec<u8>| p@) + parts_of(raw@.skip(at as int), max as nat) == parts_of(
                raw@,
                max as nat,
            ),
        decreases raw.len() - at,
    {
        let left: usize = raw.len() - at;
        let size: usize = if left <= max { left } else { max };
        let part: Vec<u8> = copy_range(raw, at, at + size);
        proof {
            let rest = raw@.skip(at as int);
            let before = parts@.map_values(|p: Vec<u8>| p@);
            assert(part@ =~= rest.take(size as int));
            assert(raw@.skip(at + size) =~= rest.skip(size as int));
            if left <= max {
                assert(rest.take(size as int) =~= rest);
                assert(rest.skip(size as int).len() == 0);
                assert(parts_of(rest, max as nat) =~= seq![rest] + parts_of(
                    rest.skip(size as int),
                    max as nat,
                ));
            }
            assert(parts@.push(part).map_values(|p: Vec<u8>| p@) =~= before.push(part@));
            assert(before.push(part@) + parts_of(rest.skip(size as int), max as nat) =~= before
                + parts_of(rest, max as nat));
        }
        parts.push(part);
        at = at + size;
    }
    proof {
        assert(raw@.skip(at as int).len() == 0);
        assert(parts@.map_values(|p: Vec<u8>| p@) + Seq::<Seq<u8>>::empty() =~= parts@.map_values(
            |p: Vec<u8>| p@,
        ));
    }
    parts
}

/// Whether a chunk is given up rather than sent again.
///
/// A reliable stream never gives a chunk up. A stream that limits
/// retransmissions gives it up once it has been sent again `value` times. A
/// stream that limits the time gives it up once `value` milliseconds have
/// passed since it was first sent.
pub open spec fn gives_up(
    reliability_type: ReliabilityType,
    value: u32,
    transmit_count: u32,
    send_time: u64,
    now: u64,
) -> bool {
    match reliability_type {
        ReliabilityType::Reliable => false,
        ReliabilityType::Rexmit => transmit_count - 1 >= value,
        ReliabilityType::Timed => now - send_time >= value,
    }
}

/// Decides whether a chunk is given up rather than sent again. See `gives_up`.
pub fn should_abandon(
    reliability_type: ReliabilityType,
    value: u32,
    transmit_count: u32,
    send_time: u64,
    now: u64,
) -> (r: bool)
    ensures
        r == gives_up(reliability_type, value, transmit_count, send_time, now),
{
    match reliability_type {
        ReliabilityType::Reliable => false,
        ReliabilityType::Rexmit => transmit_count as u64 >= value as u64 + 1,
        ReliabilityType::Timed => now >= send_time && now - send_time >= value as u64,
    }
}

/// A reliable stream never gives a chunk up.
pub proof fn lemma_reliable_never_gives_up(value: u32, transmit_count: u32, send_time: u64, now: u64)
    ensures
        !gives_up(ReliabilityType::Reliable, value, transmit_count, send_time, now),
{
}

/// The state of one stream.
#[derive(Debug)]
pub struct StreamState {
    /// The stream's number.
    pub stream_identifier: u16,
    /// What the stream's messages hold unless a write says otherwise.
    pub default_payload_type: PayloadProtocolIdentifier,
    /// The stream sequence number of the next ordered message that is written.
    pub sequence_number: u16,
    /// Whether messages are sent for delivery out of order.
    pub unordered: bool,
    /// How hard the association tries to deliver the stream's messages.
    pub reliability_type: ReliabilityType,
    /// The limit that goes with `reliability_type`.
    pub reliability_value: u32,
    /// Whether the application has been handed the stream.
    pub accepted: bool,
    /// Puts the stream's inbound messages together.
    pub reassembly_queue: ReassemblyQueue,
}

/// The state of one stream as a mathematical value.
pub struct StreamView {
    pub stream_identifier: u16,
    pub default_payload_type: PayloadProtocolIdentifier,
    pub sequence_number: u16,
    pub unordered: bool,
    pub reliability_type: ReliabilityType,
    pub reliability_value: u32,
    pub accepted: bool,
    pub reassembly_queue: ReassemblyView,
}

impl View for StreamState {
    type V = StreamView;

    open spec fn view(&self) -> StreamView {
        StreamView {
            stream_identifier: self.stream_identifier,
            default_payload_type: self.default_payload_type,
            sequence_number: self.sequence_number,
            unordered: self.unordered,
            reliability_type: self.reliability_type,
            reliability_value: self.reliability_value,
            accepted: self.accepted,
            reassembly_queue: self.reassembly_queue@,
        }
    }
}

impl StreamView {
    /// The stream's reassembly queue serves this stream and is well formed.
    pub open spec fn wf(self) -> bool {
        self.reassembly_queue.wf() && self.reassembly_queue.si == self.stream_identifier
    }

    /// A stream that has just been opened.
    pub open spec fn opened(stream_identifier: u16, ppi: PayloadProtocolIdentifier, accepted: bool) -> StreamView {
        StreamView {
            stream_identifier,
            default_payload_type: ppi,
            sequence_number: 0,
            unordered: false,
            reliability_type: ReliabilityType::Reliable,
            reliability_value: 0,
            accepted,
            reassembly_queue: ReassemblyView::empty(stream_identifier),
        }
    }

    /// Whether a message with the identifier `ppi` goes out unordered:
    /// messages that establish a data channel are always ordered.
    pub open spec fn sends_unordered(self, ppi: PayloadProtocolIdentifier) -> bool {
        self.unordered && ppi != PayloadProtocolIdentifier::Dcep
    }

    /// The stream after a message of `len` bytes has been cut into chunks.
    pub open spec fn written(self, ppi: PayloadProtocolIdentifier, len: nat) -> StreamView {
        StreamView {
            sequence_number: if self.sends_unordered(ppi) || len == 0 {
                self.sequence_number
            } else {
                add16(self.sequence_number, 1)
            },
            ..self
        }
    }
}

/// The views of a sequence of streams.
pub open spec fn stream_views(s: Seq<StreamState>) -> Seq<StreamView> {
    s.map_values(|x: StreamState| x@)
}

impl StreamState {
    /// The stream's model is well formed.
    pub open spec fn wf(&self) -> bool {
        self@.wf()
    }

    /// A stream that has just been opened: ordered and reliable.
    pub fn new(stream_identifier: u16, ppi: PayloadProtocolIdentifier, accepted: bool) -> (s: StreamState)
        ensures
            s.wf(),
            s@ == StreamView::opened(stream_identifier, ppi, accepted),
    {
        StreamState {
            stream_identifier,
            default_payload_type: ppi,
            sequence_number: 0,
            unordered: false,
            reliability_type: ReliabilityType::Reliable,
            reliability_value: 0,
            accepted,
            reassembly_queue: ReassemblyQueue::new(stream_identifier),
        }
    }

    /// Sets whether messages are sent unordered and how hard the association
    /// tries to deliver them.
    pub fn set_reliability_params(&mut self, unordered: bool, rel_type: ReliabilityType, rel_val: u32)
        ensures
            final(self)@ == (StreamView {
                unordered,
                reliability_type: rel_type,
                reliability_value: rel_val,
                ..old(self)@
            }),
    {
        self.unordered = unordered;
        self.reliability_type = rel_type;
        self.reliability_value = rel_val;
    }

    /// Cuts a message into DATA chunks of at most `max_payload` bytes each.
    /// The chunks get their sequence numbers when they are sent.
    pub fn packetize(&mut self, raw: &Vec<u8>, ppi: PayloadProtocolIdentifier, max_payload: usize) -> (chunks:
        Vec<DataChunk>)
        requires
            max_payload > 0,
        ensures
            final(self)@ == old(self)@.written(ppi, raw@.len()),
            data_views(chunks@) == fragments_of(
                old(self)@.stream_identifier,
                old(self)@.sequence_number,
                ppi,
                old(self)@.sends_unordered(ppi),
                parts_of(raw@, max_payload as nat),
            ),
    {
        let unordered: bool = self.unordered && !matches!(ppi, PayloadProtocolIdentifier::Dcep);
        let mut parts: Vec<Vec<u8>> = split_message(raw, max_payload);
        let n: usize = parts.len();
        let ghost bytes = parts@.map_values(|p: Vec<u8>| p@);
        let mut chunks: Vec<DataChunk> = Vec::new();
        let ssn: u16 = self.sequence_number;
        let ghost all = fragments_of(self.stream_identifier, ssn, ppi, unordered, bytes);
        // The parts are taken from the back, so the chunks are made last first and turned over.
        let mut i: usize = n;
        let mut rev: Vec<DataChunk> = Vec::new();
        while i > 0
            invariant
                i <= n,
                parts.len() == i,
                parts@.map_values(|p: Vec<u8>| p@) == bytes.take(i as int),
                bytes.len() == n,
                rev.len() == n - i,
                forall|k: int| 0 <= k < rev.len() ==> (#[trigger] rev@[k])@ == all[n - 1 - k],
                all == fragments_of(self.stream_identifier, ssn, ppi, unordered, bytes),
            decreases i,
        {
            let ghost before = parts@.map_values(|p: Vec<u8>| p@);
            let payload: Vec<u8> = match parts.pop() {
                Some(p) => p,
                None => Vec::new(),
            };
            assert(payload@ == before[i - 1]);
            assert(parts@.map_values(|p: Vec<u8>| p@) =~= bytes.take(i - 1));
            i = i - 1;
            rev.push(
                DataChunk {
                    tsn: 0,
                    stream_id: self.stream_identifier,
                    ssn,
                    ppi,
                    beginning_fragment: i == 0,
                    ending_fragment: i == n - 1,
                    unordered,
                    payload,
                },
            );
        }
        while rev.len() > 0
            invariant
                rev.len() + chunks.len() == n,
                all.len() == n,
                forall|k: int| 0 <= k < rev.len() ==> (#[trigger] rev@[k])@ == all[n - 1 - k],
                forall|k: int| 0 <= k < chunks.len() ==> (#[trigger] chunks@[k])@ == all[k],
            decreases rev.len(),
        {
            match rev.pop() {
                Some(c) => {
                    chunks.push(c);
                },
                None => {},
            }
        }
        assert(data_views(chunks@) =~= all);
        if !unordered && raw.len() > 0 {
            self.sequence_number = next16(self.sequence_number);
        }
        chunks
    }
}

} // verus!
