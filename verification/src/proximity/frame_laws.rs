//! What cutting and reassembling messages promise together.

use crate::proximity::frame;
use crate::proximity::frame::{PacketHeader, PendingView, ReassemblerView};
use crate::proximity::{ProximityError, MAX_ENCODED_ENVELOPE_BYTES};
use vstd::prelude::*;

verus! {

/// A packet carries the header and the payload that it was made of.
pub proof fn packet_carries_its_header(frame_id: u32, index: int, total: int, payload: Seq<u8>)
    requires
        0 <= index < total <= 4096,
        0 < payload.len() <= 500,
    ensures
        frame::packet_header(frame::header_bytes(frame_id, index, total) + payload) == Some(
            PacketHeader { frame_id, index: index as usize, total: total as usize },
        ),
        frame::packet_payload(frame::header_bytes(frame_id, index, total) + payload) == payload,
{
    let packet = frame::header_bytes(frame_id, index, total) + payload;
    assert(frame::be16(packet[8], packet[9]) == index);
    assert(frame::be16(packet[10], packet[11]) == total);
    let id = frame_id as int;
    assert(id == id / 0x100_0000 * 0x100_0000 + id / 0x1_0000 % 256 * 0x1_0000 + id / 256 % 256
        * 256 + id % 256);
    assert(frame::be32(packet[4], packet[5], packet[6], packet[7]) == frame_id);
    assert(packet.skip(12) =~= payload);
}

/// The parts of a message, one after the other, are the message.
proof fn lemma_parts_join(message: Seq<u8>, size: int, parts: Map<usize, Seq<u8>>, n: nat)
    requires
        0 < message.len() <= MAX_ENCODED_ENVELOPE_BYTES,
        0 < size,
        n <= frame::part_count(message.len() as int, size) <= 4096,
        forall|k: usize|
            k < n ==> #[trigger] parts[k] == frame::part_payload(message, size, k as int),
    ensures
        frame::joined(parts, n) == message.take(
            if n * size < message.len() {
                n * size
            } else {
                message.len() as int
            },
        ),
    decreases n,
{
    if n > 0 {
        let m = (n - 1) as nat;
        lemma_parts_join(message, size, parts, m);
        frame::lemma_part_start(message.len() as int, size, m as int);
        assert(parts[m as usize] == frame::part_payload(message, size, m as int));
        assert(frame::joined(parts, n) =~= message.take(
            if n * size < message.len() {
                n * size
            } else {
                message.len() as int
            },
        ));
    } else {
        assert(frame::joined(parts, n) =~= message.take(0));
    }
}

/// Each packet of a message fits the packet size and carries one part.
pub proof fn packets_are_bounded(message: Seq<u8>, packet_bytes: int, frame_id: u32, index: int)
    requires
        frame::can_fragment(message, packet_bytes),
        0 <= index < frame::fragments(message, packet_bytes, frame_id).len(),
    ensures
        12 < frame::fragments(message, packet_bytes, frame_id)[index].len() <= packet_bytes,
{
    frame::lemma_part_start(message.len() as int, packet_bytes - 12, index);
}

/// The reassembler after the first `k` packets, where packet `i` arrives at `times[i]`.
pub open spec fn after(
    s: ReassemblerView,
    packets: Seq<Seq<u8>>,
    times: Seq<u64>,
    k: nat,
) -> ReassemblerView
    decreases k,
{
    if k == 0 {
        s
    } else {
        after(s, packets, times, (k - 1) as nat).adding(packets[k - 1], times[k - 1]).0
    }
}

/// The answer to packet `k`.
pub open spec fn answer(
    s: ReassemblerView,
    packets: Seq<Seq<u8>>,
    times: Seq<u64>,
    k: int,
) -> Result<Option<Seq<u8>>, ProximityError> {
    after(s, packets, times, k as nat).adding(packets[k], times[k]).1
}

/// An order in which `n` packets arrive, each once.
pub open spec fn is_arrival_order(arrival: Seq<int>, n: int) -> bool {
    &&& arrival.len() == n
    &&& arrival.no_duplicates()
    &&& forall|i: int| 0 <= i < n ==> 0 <= #[trigger] arrival[i] < n
}

/// Every packet arrives at some time.
proof fn lemma_every_packet_arrives(arrival: Seq<int>, n: int, j: int)
    requires
        is_arrival_order(arrival, n),
        0 <= j < n,
    ensures
        arrival.contains(j),
{
    let all = vstd::set_lib::set_int_range(0, n);
    vstd::set_lib::lemma_int_range(0, n);
    arrival.unique_seq_to_set();
    assert(arrival.to_set().subset_of(all));
    vstd::set_lib::lemma_subset_equality(arrival.to_set(), all);
    assert(all.contains(j));
    assert(arrival.to_set().contains(j));
}

/// Removing expired messages keeps the last message where its time is not up.
proof fn lemma_last_stays(frames: Seq<PendingView>, now_ms: u64)
    requires
        frames.len() > 0,
        frames.last().expires_at_ms > now_ms,
    ensures
        frame::unexpired(frames, now_ms).len() > 0,
        frame::unexpired(frames, now_ms).last() == frames.last(),
{
    reveal_with_fuel(Seq::filter, 2);
    assert(frames.drop_last().push(frames.last()) =~= frames);
}

/// A further part of the message that stands last is put to it.
proof fn lemma_next_part(s: ReassemblerView, header: PacketHeader, payload: Seq<u8>, packet: Seq<u8>, now_ms: u64)
    requires
        s.wf(),
        s.frames.len() > 0,
        s.frames.last().frame_id == header.frame_id,
        s.frames.last().expires_at_ms > now_ms,
        s.frames.last().admits(header, payload),
        frame::packet_header(packet) == Some(header),
        frame::packet_payload(packet) == payload,
    ensures
        ({
            let (t, r) = s.adding(packet, now_ms);
            let f = s.frames.last().with_part(header, payload);
            if f.is_complete() {
                &&& r == Ok::<Option<Seq<u8>>, ProximityError>(Some(f.message()))
                &&& !frame::waits_for(t.frames, header.frame_id)
            } else {
                &&& r == Ok::<Option<Seq<u8>>, ProximityError>(None)
                &&& t.frames.len() > 0
                &&& t.frames.last() == f
            }
        }),
{
    lemma_last_stays(s.frames, now_ms);
    frame::lemma_unexpired(s, now_ms);
    let frames = frame::unexpired(s.frames, now_ms);
    let at = frames.len() - 1;
    frame::lemma_position(frames, at);
    let f = frames[at].with_part(header, payload);
    let stored = frames.update(at, f);
    assert(frame::distinct_ids(stored));
    frame::lemma_position(stored, at);
    if f.is_complete() {
        let rest = stored.remove(at);
        assert forall|i: int| 0 <= i < rest.len() implies (#[trigger] rest[i]).frame_id
            != header.frame_id by {
            assert(rest[i] == stored[i]);
            assert(stored[at] == f);
        }
    }
}

/// The first part of a message opens it.
proof fn lemma_first_part(s: ReassemblerView, header: PacketHeader, payload: Seq<u8>, packet: Seq<u8>, now_ms: u64)
    requires
        s.wf(),
        !frame::waits_for(frame::unexpired(s.frames, now_ms), header.frame_id),
        header.index < header.total <= 4096,
        payload.len() <= MAX_ENCODED_ENVELOPE_BYTES,
        frame::packet_header(packet) == Some(header),
        frame::packet_payload(packet) == payload,
    ensures
        ({
            let (t, r) = s.adding(packet, now_ms);
            let f = PendingView::opened(header.frame_id, header.total, now_ms).with_part(
                header,
                payload,
            );
            if f.is_complete() {
                &&& r == Ok::<Option<Seq<u8>>, ProximityError>(Some(f.message()))
                &&& !frame::waits_for(t.frames, header.frame_id)
            } else {
                &&& r == Ok::<Option<Seq<u8>>, ProximityError>(None)
                &&& t.frames.len() > 0
                &&& t.frames.last() == f
            }
        }),
{
    frame::lemma_unexpired(s, now_ms);
    let frames = frame::unexpired(s.frames, now_ms);
    let new = PendingView::opened(header.frame_id, header.total, now_ms);
    let opened = frames.push(new);
    let at = frames.len() as int;
    assert(frame::distinct_ids(opened));
    frame::lemma_position(opened, at);
    let f = new.with_part(header, payload);
    let stored = opened.update(at, f);
    assert(frame::distinct_ids(stored));
    let kept = if stored.len() > s.capacity {
        stored.skip(stored.len() - s.capacity)
    } else {
        stored
    };
    assert(frame::distinct_ids(kept));
    assert(kept[kept.len() - 1] == f);
    frame::lemma_position(kept, kept.len() - 1);
    if f.is_complete() {
        let rest = kept.remove(kept.len() - 1);
        assert forall|i: int| 0 <= i < rest.len() implies (#[trigger] rest[i]).frame_id
            != header.frame_id by {
            assert(rest[i] == kept[i]);
        }
    }
}

/// The bytes of the first `k` parts to arrive.
spec fn held(message: Seq<u8>, size: int, arrival: Seq<int>, k: nat) -> nat
    decreases k,
{
    if k == 0 {
        0
    } else {
        held(message, size, arrival, (k - 1) as nat) + frame::part_payload(
            message,
            size,
            arrival[k - 1],
        ).len()
    }
}

/// The parts that have arrived never hold more bytes than the message.
proof fn lemma_held(message: Seq<u8>, size: int, arrival: Seq<int>, k: nat)
    requires
        message.len() > 0,
        size > 0,
        is_arrival_order(arrival, frame::part_count(message.len() as int, size)),
        k <= arrival.len(),
    ensures
        held(message, size, arrival, k) <= message.len(),
{
    let total = frame::part_count(message.len() as int, size);
    frame::lemma_part_count(message.len() as int, size);
    lemma_every_packet_arrives(arrival, total, total - 1);
    let p = arrival.index_of(total - 1);
    lemma_held_exact(message, size, arrival, p, k);
    assert((total - 1) * size + size == total * size) by (nonlinear_arith);
    if k <= p {
        assert(k * size <= (total - 1) * size) by (nonlinear_arith)
            requires
                k <= total - 1,
                size > 0,
        ;
    } else {
        assert(k * size <= total * size) by (nonlinear_arith)
            requires
                k <= total,
                size > 0,
        ;
    }
}

proof fn lemma_held_exact(message: Seq<u8>, size: int, arrival: Seq<int>, p: int, k: nat)
    requires
        message.len() > 0,
        size > 0,
        is_arrival_order(arrival, frame::part_count(message.len() as int, size)),
        0 <= p < arrival.len(),
        arrival[p] == frame::part_count(message.len() as int, size) - 1,
        k <= arrival.len(),
    ensures
        held(message, size, arrival, k) == k * size - (if k > p {
            frame::part_count(message.len() as int, size) * size - message.len()
        } else {
            0
        }),
    decreases k,
{
    let total = frame::part_count(message.len() as int, size);
    if k > 0 {
        lemma_held_exact(message, size, arrival, p, (k - 1) as nat);
        let j = arrival[k - 1];
        frame::lemma_part_start(message.len() as int, size, j);
        assert(k * size == (k - 1) * size + size) by (nonlinear_arith);
        if k - 1 != p {
            assert(j != total - 1);
        } else {
            assert((total - 1) * size + size == total * size) by (nonlinear_arith);
        }
    } else {
        assert(k * size == 0) by (nonlinear_arith)
            requires
                k == 0,
        ;
    }
}

/// The message after the first `k` parts have arrived.
spec fn collected(
    message: Seq<u8>,
    size: int,
    frame_id: u32,
    arrival: Seq<int>,
    start_ms: u64,
    k: nat,
) -> PendingView {
    let total = frame::part_count(message.len() as int, size) as usize;
    PendingView {
        byte_count: held(message, size, arrival, k),
        parts: Map::new(
            |j: usize| exists|i: int| 0 <= i < k && #[trigger] arrival[i] == j,
            |j: usize| frame::part_payload(message, size, j as int),
        ),
        ..PendingView::opened(frame_id, total, start_ms)
    }
}

/// One more part brings the message from `k` to `k + 1` parts; it is complete with the last.
proof fn lemma_collect(
    message: Seq<u8>,
    size: int,
    frame_id: u32,
    arrival: Seq<int>,
    start_ms: u64,
    k: nat,
)
    requires
        0 < message.len() <= MAX_ENCODED_ENVELOPE_BYTES,
        8 <= size <= 500,
        frame::part_count(message.len() as int, size) <= 4096,
        is_arrival_order(arrival, frame::part_count(message.len() as int, size)),
        k < arrival.len(),
    ensures
        ({
            let total = frame::part_count(message.len() as int, size);
            let header = PacketHeader {
                frame_id,
                index: arrival[k as int] as usize,
                total: total as usize,
            };
            let payload = frame::part_payload(message, size, arrival[k as int]);
            let f = collected(message, size, frame_id, arrival, start_ms, k);
            let g = collected(message, size, frame_id, arrival, start_ms, k + 1);
            let packet = frame::header_bytes(frame_id, arrival[k as int], total) + payload;
            &&& frame::packet_header(packet) == Some(header)
            &&& frame::packet_payload(packet) == payload
            &&& f.admits(header, payload)
            &&& f.with_part(header, payload) == g
            &&& g.is_complete() <==> k + 1 == total
            &&& k + 1 == total ==> g.message() == message
        }),
{
    let total = frame::part_count(message.len() as int, size);
    let j = arrival[k as int];
    let header = PacketHeader { frame_id, index: j as usize, total: total as usize };
    let payload = frame::part_payload(message, size, j);
    let f = collected(message, size, frame_id, arrival, start_ms, k);
    let g = collected(message, size, frame_id, arrival, start_ms, k + 1);
    frame::lemma_part_start(message.len() as int, size, j);
    packet_carries_its_header(frame_id, j, total, payload);
    lemma_held(message, size, arrival, k + 1);
    if f.parts.contains_key(header.index) {
        let i = choose|i: int| 0 <= i < k && #[trigger] arrival[i] == header.index;
        assert(arrival[i] == arrival[k as int]);
    }
    assert forall|x: usize|
        g.parts.contains_key(x) implies f.parts.insert(header.index, payload).contains_key(x) by {
        let i = choose|i: int| 0 <= i < k + 1 && #[trigger] arrival[i] == x;
        if i < k {
            assert(f.parts.contains_key(x));
        }
    }
    assert forall|x: usize|
        f.parts.insert(header.index, payload).contains_key(x) implies g.parts.contains_key(x) by {
        if x == header.index {
            assert(arrival[k as int] == x);
        } else {
            let i = choose|i: int| 0 <= i < k && #[trigger] arrival[i] == x;
            assert(0 <= i < k + 1 && arrival[i] == x);
        }
    }
    assert(g.parts =~= f.parts.insert(header.index, payload));
    if k + 1 == total {
        assert forall|x: usize| x < g.total implies #[trigger] g.parts.contains_key(x) by {
            lemma_every_packet_arrives(arrival, total, x as int);
            let i = arrival.index_of(x as int);
            assert(0 <= i < k + 1 && arrival[i] == x);
        }
        frame::lemma_part_count(message.len() as int, size);
        assert forall|x: usize|
            x < total implies #[trigger] g.parts[x] == frame::part_payload(
            message,
            size,
            x as int,
        ) by {
            assert(g.parts.contains_key(x));
        }
        lemma_parts_join(message, size, g.parts, total as nat);
        assert(message.take(message.len() as int) =~= message);
    } else {
        let missing = arrival[k as int + 1] as usize;
        if g.parts.contains_key(missing) {
            let i = choose|i: int| 0 <= i < k + 1 && #[trigger] arrival[i] == missing;
            assert(arrival[i] == arrival[k as int + 1]);
        }
        assert(missing < g.total);
    }
}

/// The packets of a message, in the order in which they arrive.
pub open spec fn arriving(
    message: Seq<u8>,
    packet_bytes: int,
    frame_id: u32,
    arrival: Seq<int>,
) -> Seq<Seq<u8>> {
    Seq::new(
        arrival.len(),
        |i: int| frame::fragments(message, packet_bytes, frame_id)[arrival[i]],
    )
}

/// What one message needs to be reassembled: its identifier is not in use when its first packet
/// arrives, each packet arrives once, and all of them within the time that the first one opens.
pub open spec fn arrives_in_time(
    s: ReassemblerView,
    message: Seq<u8>,
    packet_bytes: int,
    frame_id: u32,
    arrival: Seq<int>,
    times: Seq<u64>,
) -> bool {
    &&& frame::can_fragment(message, packet_bytes)
    &&& is_arrival_order(
        arrival,
        frame::part_count(message.len() as int, packet_bytes - 12),
    )
    &&& times.len() == arrival.len()
    &&& !frame::waits_for(frame::unexpired(s.frames, times[0]), frame_id)
    &&& forall|i: int|
        0 < i < times.len() ==> #[trigger] times[i] < times[0] + frame::REASSEMBLY_TIMEOUT_MS
            && times[i] < u64::MAX
}

proof fn lemma_arrivals(
    s: ReassemblerView,
    message: Seq<u8>,
    packet_bytes: int,
    frame_id: u32,
    arrival: Seq<int>,
    times: Seq<u64>,
    k: nat,
)
    requires
        s.wf(),
        arrives_in_time(s, message, packet_bytes, frame_id, arrival, times),
        k < arrival.len(),
    ensures
        ({
            let packets = arriving(message, packet_bytes, frame_id, arrival);
            let t = after(s, packets, times, k);
            let g = collected(message, packet_bytes - 12, frame_id, arrival, times[0], k + 1);
            let (u, r) = t.adding(packets[k as int], times[k as int]);
            &&& t.wf()
            &&& u == after(s, packets, times, k + 1)
            &&& r == answer(s, packets, times, k as int)
            &&& if k + 1 == arrival.len() {
                &&& r == Ok::<Option<Seq<u8>>, ProximityError>(Some(message))
                &&& !frame::waits_for(u.frames, frame_id)
            } else {
                &&& r == Ok::<Option<Seq<u8>>, ProximityError>(None)
                &&& u.wf()
                &&& u.frames.len() > 0
                &&& u.frames.last() == g
            }
        }),
    decreases k,
{
    let size = packet_bytes - 12;
    let total = frame::part_count(message.len() as int, size);
    let packets = arriving(message, packet_bytes, frame_id, arrival);
    let j = arrival[k as int];
    let header = PacketHeader { frame_id, index: j as usize, total: total as usize };
    let payload = frame::part_payload(message, size, j);
    lemma_collect(message, size, frame_id, arrival, times[0], k);
    frame::lemma_part_start(message.len() as int, size, j);
    assert(packets[k as int] == frame::header_bytes(frame_id, j, total) + payload);
    let t = after(s, packets, times, k);
    if k == 0 {
        let new = PendingView::opened(frame_id, total as usize, times[0]);
        let f = collected(message, size, frame_id, arrival, times[0], 0);
        assert(f.parts =~= new.parts);
        lemma_first_part(s, header, payload, packets[0], times[0]);
    } else {
        lemma_arrivals(s, message, packet_bytes, frame_id, arrival, times, (k - 1) as nat);
        assert(times[k as int] < t.frames.last().expires_at_ms);
        lemma_next_part(t, header, payload, packets[k as int], times[k as int]);
    }
    frame::lemma_adding_wf(t, packets[k as int], times[k as int]);
}

/// The packets of a message give the message back, in whatever order they arrive: every packet
/// but the last to arrive is answered with nothing, the last one with the message, and the
/// message is then forgotten.
pub proof fn packets_reassemble_in_any_order(
    s: ReassemblerView,
    message: Seq<u8>,
    packet_bytes: int,
    frame_id: u32,
    arrival: Seq<int>,
    times: Seq<u64>,
)
    requires
        s.wf(),
        arrives_in_time(s, message, packet_bytes, frame_id, arrival, times),
    ensures
        ({
            let packets = arriving(message, packet_bytes, frame_id, arrival);
            let n = arrival.len();
            &&& n > 0
            &&& forall|k: int|
                0 <= k < n - 1 ==> #[trigger] answer(s, packets, times, k) == Ok::<
                    Option<Seq<u8>>,
                    ProximityError,
                >(None)
            &&& answer(s, packets, times, n - 1) == Ok::<Option<Seq<u8>>, ProximityError>(
                Some(message),
            )
            &&& !frame::waits_for(after(s, packets, times, n).frames, frame_id)
        }),
{
    let packets = arriving(message, packet_bytes, frame_id, arrival);
    let n = arrival.len();
    frame::lemma_part_count(message.len() as int, packet_bytes - 12);
    assert forall|k: int| 0 <= k < n - 1 implies #[trigger] answer(s, packets, times, k) == Ok::<
        Option<Seq<u8>>,
        ProximityError,
    >(None) by {
        lemma_arrivals(s, message, packet_bytes, frame_id, arrival, times, k as nat);
    }
    lemma_arrivals(s, message, packet_bytes, frame_id, arrival, times, (n - 1) as nat);
}

/// A packet that arrives a second time while its message is incomplete is refused, and the
/// message is dropped.
pub proof fn repeated_packets_are_refused(s: ReassemblerView, packet: Seq<u8>, then_ms: u64, now_ms: u64)
    requires
        s.wf(),
        s.adding(packet, then_ms).1 == Ok::<Option<Seq<u8>>, ProximityError>(None),
        frame::packet_header(packet) matches Some(header) && frame::waits_for(
            frame::unexpired(s.adding(packet, then_ms).0.frames, now_ms),
            header.frame_id,
        ),
    ensures
        s.adding(packet, then_ms).0.adding(packet, now_ms).1 == Err::<
            Option<Seq<u8>>,
            ProximityError,
        >(ProximityError::InvalidFrame),
        !frame::waits_for(
            s.adding(packet, then_ms).0.adding(packet, now_ms).0.frames,
            frame::packet_header(packet)->0.frame_id,
        ),
{
    let header = frame::packet_header(packet)->0;
    let payload = frame::packet_payload(packet);
    let t = s.adding(packet, then_ms).0;
    frame::lemma_adding_wf(s, packet, then_ms);
    frame::lemma_unexpired(t, now_ms);
    lemma_holds_part(s, header, packet, then_ms);
    let alive = frame::unexpired(t.frames, now_ms);
    let at = frame::position(alive, header.frame_id);
    lemma_filtered_from(t.frames, |f: PendingView| f.expires_at_ms > now_ms, at);
    let i = choose|i: int| 0 <= i < t.frames.len() && #[trigger] t.frames[i] == alive[at];
    frame::lemma_position(t.frames, i);
    assert(alive[at].parts.contains_key(header.index));
    let rest = alive.remove(at);
    assert forall|x: int| 0 <= x < rest.len() implies (#[trigger] rest[x]).frame_id
        != header.frame_id by {
        if x < at {
            assert(alive[x].frame_id != alive[at].frame_id);
        } else {
            assert(alive[at].frame_id != alive[x + 1].frame_id);
        }
    }
}

/// What a filtered sequence holds, the sequence held.
proof fn lemma_filtered_from(frames: Seq<PendingView>, keep: spec_fn(PendingView) -> bool, at: int)
    requires
        0 <= at < frames.filter(keep).len(),
    ensures
        exists|i: int| 0 <= i < frames.len() && #[trigger] frames[i] == frames.filter(keep)[at],
    decreases frames.len(),
{
    reveal_with_fuel(Seq::filter, 2);
    if frames.len() > 0 {
        let rest = frames.drop_last();
        if at < rest.filter(keep).len() {
            lemma_filtered_from(rest, keep, at);
            let i = choose|i: int|
                0 <= i < rest.len() && #[trigger] rest[i] == rest.filter(keep)[at];
            assert(frames[i] == rest[i]);
        } else {
            assert(frames[frames.len() - 1] == frames.filter(keep)[at]);
        }
    }
}

/// A part that was taken in is held.
proof fn lemma_holds_part(s: ReassemblerView, header: PacketHeader, packet: Seq<u8>, now_ms: u64)
    requires
        s.wf(),
        frame::packet_header(packet) == Some(header),
        s.adding(packet, now_ms).1 == Ok::<Option<Seq<u8>>, ProximityError>(None),
    ensures
        ({
            let frames = s.adding(packet, now_ms).0.frames;
            &&& frame::waits_for(frames, header.frame_id)
            &&& frames[frame::position(frames, header.frame_id)].parts.contains_key(header.index)
        }),
{
    frame::lemma_unexpired(s, now_ms);
    let frames = frame::unexpired(s.frames, now_ms);
    let new = PendingView::opened(header.frame_id, header.total, now_ms);
    let opened = if frame::waits_for(frames, header.frame_id) {
        frames
    } else {
        frames.push(new)
    };
    if !frame::waits_for(frames, header.frame_id) {
        assert(opened[frames.len() as int].frame_id == header.frame_id);
    }
    assert(frame::distinct_ids(opened));
    let at = frame::position(opened, header.frame_id);
    let f = opened[at].with_part(header, frame::packet_payload(packet));
    let stored = opened.update(at, f);
    assert(frame::distinct_ids(stored));
    let kept = s.adding(packet, now_ms).0.frames;
    let place = at - (stored.len() - kept.len());
    if stored.len() > s.capacity {
        frame::lemma_position(opened, frames.len() as int);
    }
    assert(kept[place] == f);
    assert(frame::distinct_ids(kept));
    frame::lemma_position(kept, place);
}

/// Packets of other messages leave a message alone, as long as its time is not up and it is not
/// the oldest one when a new message needs its place.
pub proof fn other_packets_leave_a_message_alone(
    s: ReassemblerView,
    frame_id: u32,
    packet: Seq<u8>,
    now_ms: u64,
)
    requires
        s.wf(),
        frame::waits_for(frame::unexpired(s.frames, now_ms), frame_id),
        frame::packet_header(packet) matches Some(header) ==> {
            let alive = frame::unexpired(s.frames, now_ms);
            &&& header.frame_id != frame_id
            &&& alive.len() < s.capacity || frame::waits_for(alive, header.frame_id)
                || frame::position(alive, frame_id) > 0
        },
    ensures
        ({
            let t = s.adding(packet, now_ms).0;
            &&& frame::waits_for(t.frames, frame_id)
            &&& t.frames[frame::position(t.frames, frame_id)]
                == s.frames[frame::position(s.frames, frame_id)]
        }),
{
    let alive = frame::unexpired(s.frames, now_ms);
    let keep = |f: PendingView| f.expires_at_ms > now_ms;
    frame::lemma_unexpired(s, now_ms);
    frame::lemma_adding_wf(s, packet, now_ms);
    let i = frame::position(alive, frame_id);
    let f = alive[i];
    lemma_filtered_from(s.frames, keep, i);
    let i0 = choose|x: int| 0 <= x < s.frames.len() && #[trigger] s.frames[x] == alive[i];
    frame::lemma_position(s.frames, i0);
    let t = s.adding(packet, now_ms).0;
    if let Some(header) = frame::packet_header(packet) {
        let payload = frame::packet_payload(packet);
        let opened = if frame::waits_for(alive, header.frame_id) {
            alive
        } else {
            alive.push(PendingView::opened(header.frame_id, header.total, now_ms))
        };
        if !frame::waits_for(alive, header.frame_id) {
            assert(opened[alive.len() as int].frame_id == header.frame_id);
        }
        assert(frame::distinct_ids(opened));
        let at = frame::position(opened, header.frame_id);
        assert(opened[i] == f && i != at);
        if !opened[at].admits(header, payload) {
            let j = if i < at { i } else { i - 1 };
            assert(t.frames[j] == f);
            frame::lemma_position(t.frames, j);
        } else {
            let frame = opened[at].with_part(header, payload);
            let stored = opened.update(at, frame);
            assert(stored[i] == f);
            assert(frame::distinct_ids(stored));
            let kept = if stored.len() > s.capacity {
                stored.skip(stored.len() - s.capacity)
            } else {
                stored
            };
            let cut = stored.len() - kept.len();
            assert(kept[i - cut] == f);
            assert(frame::distinct_ids(kept));
            if cut > 0 {
                frame::lemma_position(opened, alive.len() as int);
            }
            assert(kept[at - cut] == frame);
            frame::lemma_position(kept, at - cut);
            if frame.is_complete() {
                let j = if i < at { i - cut } else { i - cut - 1 };
                assert(t.frames[j] == f);
                frame::lemma_position(t.frames, j);
            } else {
                frame::lemma_position(t.frames, i - cut);
            }
        }
    } else {
        frame::lemma_position(t.frames, i);
    }
}

// ---------------------------------------------------------------------------
// What a packet says, and how messages are cut
// ---------------------------------------------------------------------------

/// A packet is read exactly where it has between 13 and 512 bytes, begins with `CT` and the version
/// 1, names one of at most 4096 parts, and is marked as the last part exactly where it is. It
/// carries what stands behind the first twelve bytes.
pub proof fn packets_say_what_they_are(packet: Seq<u8>)
    requires
        packet.len() >= 12,
    ensures
        ({
            let index = packet[8] * 256 + packet[9];
            let total = packet[10] * 256 + packet[11];
            frame::packet_header(packet) is Some <==> {
                &&& 13 <= packet.len() <= 512
                &&& packet[0] == 67 && packet[1] == 84 && packet[2] == 1
                &&& index < total <= 4096
                &&& packet[3] == (if index + 1 == total { 1int } else { 0 })
            }
        }),
        frame::packet_header(packet) matches Some(header) ==> {
            &&& header.frame_id == packet[4] * 16_777_216 + packet[5] * 65_536 + packet[6] * 256
                + packet[7]
            &&& header.index == packet[8] * 256 + packet[9]
            &&& header.total == packet[10] * 256 + packet[11]
        },
        frame::packet_payload(packet) == packet.subrange(12, packet.len() as int),
{
}

/// Shorter packets are not read.
pub proof fn short_packets_are_not_read(packet: Seq<u8>)
    requires
        packet.len() <= 12,
    ensures
        frame::packet_header(packet) is None,
{
}

/// A message is cut exactly where it has between 1 and 49152 bytes, packets have between 20 and 512,
/// and 4096 packets hold it. There are as many packets as needed; each but the last is full; and
/// each carries its part of the message behind a header that tells which part it is.
pub proof fn messages_are_cut_into_parts(message: Seq<u8>, packet_bytes: int, frame_id: u32, i: int)
    ensures
        frame::can_fragment(message, packet_bytes) <==> {
            &&& 1 <= message.len() <= 49_152
            &&& 20 <= packet_bytes <= 512
            &&& message.len() <= 4096 * (packet_bytes - 12)
        },
        frame::can_fragment(message, packet_bytes) && 0 <= i < frame::fragments(
            message,
            packet_bytes,
            frame_id,
        ).len() ==> {
            let packets = frame::fragments(message, packet_bytes, frame_id);
            let room = packet_bytes - 12;
            let n = packets.len();
            let packet = packets[i];
            &&& (n - 1) * room < message.len() <= n * room
            &&& packet.len() == 12 + (if i < n - 1 {
                room
            } else {
                message.len() - i * room
            })
            &&& packet.skip(12) == message.subrange(i * room, i * room + packet.len() - 12)
            &&& packet[0] == 67 && packet[1] == 84 && packet[2] == 1
            &&& packet[3] == (if i == n - 1 { 1int } else { 0 })
            &&& packet[4] * 16_777_216 + packet[5] * 65_536 + packet[6] * 256 + packet[7]
                == frame_id
            &&& packet[8] * 256 + packet[9] == i
            &&& packet[10] * 256 + packet[11] == n
        },
{
    let room = packet_bytes - 12;
    let len = message.len() as int;
    if 0 < len && 0 < room {
        frame::lemma_part_count(len, room);
        let total = frame::part_count(len, room);
        if total <= 4096 {
            assert(total * room <= 4096 * room) by (nonlinear_arith)
                requires
                    total <= 4096,
                    room > 0,
            ;
        } else {
            assert((total - 1) * room >= 4096 * room) by (nonlinear_arith)
                requires
                    total - 1 >= 4096,
                    room > 0,
            ;
        }
        let packets = frame::fragments(message, packet_bytes, frame_id);
        if frame::can_fragment(message, packet_bytes) && 0 <= i < packets.len() {
            frame::lemma_part_start(len, room, i);
            let part = frame::part_payload(message, room, i);
            let packet = packets[i];
            assert((total - 1) * room + room == total * room) by (nonlinear_arith);
            packet_carries_its_header(frame_id, i, total, part);
            packets_say_what_they_are(packet);
            assert(packet.skip(12) =~= part);
        }
    }
}

// ---------------------------------------------------------------------------
// What a packet does
// ---------------------------------------------------------------------------

/// Where a message stands among those whose time is not up.
proof fn lemma_alive_at(s: ReassemblerView, i: int, now_ms: u64) -> (p: int)
    requires
        s.wf(),
        0 <= i < s.frames.len(),
        s.frames[i].expires_at_ms > now_ms,
    ensures
        ({
            let alive = s.frames.filter(|f: PendingView| f.expires_at_ms > now_ms);
            &&& frame::unexpired(s.frames, now_ms) == alive
            &&& 0 <= p < alive.len()
            &&& alive[p] == s.frames[i]
            &&& frame::distinct_ids(alive)
            &&& alive.len() <= s.frames.len()
        }),
{
    let keep = |f: PendingView| f.expires_at_ms > now_ms;
    let alive = s.frames.filter(keep);
    assert(frame::unexpired(s.frames, now_ms) == alive);
    frame::lemma_unexpired(s, now_ms);
    s.frames.lemma_filter_len(keep);
    s.frames.lemma_filter_contains(keep, i);
    assert(alive.contains(s.frames[i]));
    let p = choose|p: int| 0 <= p < alive.len() && alive[p] == s.frames[i];
    p
}

/// A part of a waiting message is taken in, wherever the message stands among others, if it agrees
/// on the number of parts, is new, and keeps the message within 49152 bytes: the message is held
/// with that part, or handed out and forgotten where no part is missing. Other messages stay as they
/// are, but for those whose time is up.
pub proof fn parts_of_waiting_messages_are_taken_in(
    s: ReassemblerView,
    i: int,
    packet: Seq<u8>,
    header: PacketHeader,
    now_ms: u64,
) -> (p: int)
    requires
        s.wf(),
        0 <= i < s.frames.len(),
        s.frames[i].expires_at_ms > now_ms,
        frame::packet_header(packet) == Some(header),
        s.frames[i].frame_id == header.frame_id,
        s.frames[i].total == header.total,
        !s.frames[i].parts.contains_key(header.index),
        s.frames[i].byte_count + packet.len() - 12 <= 49_152,
    ensures
        ({
            let (t, r) = s.adding(packet, now_ms);
            let alive = s.frames.filter(|f: PendingView| f.expires_at_ms > now_ms);
            let grown = PendingView {
                frame_id: s.frames[i].frame_id,
                total: s.frames[i].total,
                expires_at_ms: s.frames[i].expires_at_ms,
                byte_count: (s.frames[i].byte_count + packet.len() - 12) as nat,
                parts: s.frames[i].parts.insert(header.index, packet.skip(12)),
            };
            &&& t.capacity == s.capacity
            &&& 0 <= p < alive.len()
            &&& alive[p] == s.frames[i]
            &&& (exists|k: usize| k < grown.total && !#[trigger] grown.parts.contains_key(k)) ==> r
                == Ok::<Option<Seq<u8>>, ProximityError>(None) && t.frames == alive.update(p, grown)
            &&& (forall|k: usize| k < grown.total ==> #[trigger] grown.parts.contains_key(k)) ==> r
                == Ok::<Option<Seq<u8>>, ProximityError>(
                Some(frame::joined(grown.parts, grown.total as nat)),
            ) && t.frames == alive.remove(p)
        }),
{
    let p = lemma_alive_at(s, i, now_ms);
    let alive = frame::unexpired(s.frames, now_ms);
    frame::lemma_position(alive, p);
    let grown = alive[p].with_part(header, frame::packet_payload(packet));
    let stored = alive.update(p, grown);
    assert(frame::distinct_ids(stored));
    frame::lemma_position(stored, p);
    assert(stored.remove(p) =~= alive.remove(p));
    p
}

/// A part that does not fit its waiting message is refused, and the message is dropped: another
/// number of parts, a part that is there already, or too many bytes. Other messages stay as they
/// are, but for those whose time is up.
pub proof fn parts_that_do_not_fit_are_refused(
    s: ReassemblerView,
    i: int,
    packet: Seq<u8>,
    header: PacketHeader,
    now_ms: u64,
) -> (p: int)
    requires
        s.wf(),
        0 <= i < s.frames.len(),
        s.frames[i].expires_at_ms > now_ms,
        frame::packet_header(packet) == Some(header),
        s.frames[i].frame_id == header.frame_id,
        s.frames[i].total != header.total || s.frames[i].parts.contains_key(header.index)
            || s.frames[i].byte_count + packet.len() - 12 > 49_152,
    ensures
        ({
            let (t, r) = s.adding(packet, now_ms);
            let alive = s.frames.filter(|f: PendingView| f.expires_at_ms > now_ms);
            &&& t.capacity == s.capacity
            &&& 0 <= p < alive.len()
            &&& alive[p] == s.frames[i]
            &&& r == Err::<Option<Seq<u8>>, ProximityError>(ProximityError::InvalidFrame)
            &&& t.frames == alive.remove(p)
        }),
{
    let p = lemma_alive_at(s, i, now_ms);
    frame::lemma_position(frame::unexpired(s.frames, now_ms), p);
    p
}

/// A part of a message that is not waited for begins the message, which may stay incomplete for 15
/// seconds. Where the reassembler is full, the message that began first is dropped for it. A message
/// of one part is handed out at once.
pub proof fn parts_of_new_messages_begin_them(
    s: ReassemblerView,
    packet: Seq<u8>,
    header: PacketHeader,
    now_ms: u64,
)
    requires
        s.wf(),
        frame::packet_header(packet) == Some(header),
        forall|i: int|
            0 <= i < s.frames.len() && (#[trigger] s.frames[i]).expires_at_ms > now_ms
                ==> s.frames[i].frame_id != header.frame_id,
    ensures
        ({
            let (t, r) = s.adding(packet, now_ms);
            let alive = s.frames.filter(|f: PendingView| f.expires_at_ms > now_ms);
            let kept = if alive.len() == s.capacity {
                alive.skip(1)
            } else {
                alive
            };
            let begun = PendingView {
                frame_id: header.frame_id,
                total: header.total,
                expires_at_ms: if now_ms + 15_000 <= u64::MAX {
                    (now_ms + 15_000) as u64
                } else {
                    u64::MAX
                },
                byte_count: (packet.len() - 12) as nat,
                parts: Map::empty().insert(header.index, packet.skip(12)),
            };
            &&& t.capacity == s.capacity
            &&& alive.len() <= s.frames.len()
            &&& header.total == 1 ==> r == Ok::<Option<Seq<u8>>, ProximityError>(
                Some(packet.skip(12)),
            ) && t.frames == kept
            &&& header.total > 1 ==> r == Ok::<Option<Seq<u8>>, ProximityError>(None) && t.frames
                == kept.push(begun)
        }),
{
    let keep = |f: PendingView| f.expires_at_ms > now_ms;
    let alive = s.frames.filter(keep);
    assert(frame::unexpired(s.frames, now_ms) == alive);
    frame::lemma_unexpired(s, now_ms);
    s.frames.lemma_filter_len(keep);
    if frame::waits_for(alive, header.frame_id) {
        let p = frame::position(alive, header.frame_id);
        lemma_filtered_from(s.frames, keep, p);
        s.frames.lemma_filter_pred(keep, p);
        assert(false);
    }
    let new = PendingView::opened(header.frame_id, header.total, now_ms);
    let opened = alive.push(new);
    let at = alive.len() as int;
    assert(opened[at].frame_id == header.frame_id);
    assert(frame::distinct_ids(opened));
    frame::lemma_position(opened, at);
    let payload = frame::packet_payload(packet);
    let f = new.with_part(header, payload);
    let stored = opened.update(at, f);
    assert(stored =~= alive.push(f));
    let kept = if stored.len() > s.capacity {
        stored.skip(stored.len() - s.capacity)
    } else {
        stored
    };
    let rest = if alive.len() == s.capacity {
        alive.skip(1)
    } else {
        alive
    };
    assert(kept =~= rest.push(f));
    assert(frame::distinct_ids(kept));
    frame::lemma_position(kept, kept.len() - 1);
    assert(kept.remove(kept.len() - 1) =~= rest);
    if header.total == 1 {
        assert(f.is_complete());
        assert(f.parts[0usize] == payload);
        reveal_with_fuel(frame::joined, 2);
        assert(f.message() =~= payload);
    } else {
        let other: usize = if header.index == 0 {
            1
        } else {
            0
        };
        assert(!f.parts.contains_key(other));
    }
}

/// What is no packet is refused, and does nothing but that time passes.
pub proof fn other_bytes_are_refused(s: ReassemblerView, packet: Seq<u8>, now_ms: u64)
    requires
        frame::packet_header(packet) is None,
    ensures
        s.adding(packet, now_ms).0.capacity == s.capacity,
        s.adding(packet, now_ms).0.frames == s.frames.filter(
            |f: PendingView| f.expires_at_ms > now_ms,
        ),
        s.adding(packet, now_ms).1 == Err::<Option<Seq<u8>>, ProximityError>(
            ProximityError::InvalidFrame,
        ),
{
}

/// What is handed out is the parts one behind the other: each stands behind those before it.
pub proof fn handed_out_messages_are_their_parts(parts: Map<usize, Seq<u8>>, n: nat, k: nat)
    requires
        k < n <= usize::MAX,
    ensures
        ({
            let whole = frame::joined(parts, n);
            let start = frame::joined(parts, k).len() as int;
            &&& frame::joined(parts, 0).len() == 0
            &&& start + parts[k as usize].len() == frame::joined(parts, k + 1).len() <= whole.len()
            &&& whole.subrange(start, start + parts[k as usize].len()) == parts[k as usize]
        }),
    decreases n,
{
    let m = (n - 1) as nat;
    let before = frame::joined(parts, m);
    let whole = frame::joined(parts, n);
    assert(whole == before + parts[m as usize]);
    let start = frame::joined(parts, k).len() as int;
    if k < m {
        handed_out_messages_are_their_parts(parts, m, k);
        assert(whole.subrange(start, start + parts[k as usize].len()) =~= before.subrange(
            start,
            start + parts[k as usize].len(),
        ));
    } else {
        assert(whole.subrange(start, start + parts[k as usize].len())
            =~= parts[k as usize]);
    }
}

// ---------------------------------------------------------------------------
// Messages that arrive side by side
// ---------------------------------------------------------------------------

/// A message that is sent in packets.
pub struct Sent {
    pub message: Seq<u8>,
    pub packet_bytes: int,
    pub frame_id: u32,
}

/// A packet that arrives: of which message, which part, and when.
pub struct Arrival {
    pub of: int,
    pub part: int,
    pub now_ms: u64,
}

/// The packets of a message.
pub open spec fn packets_of(sent: Sent) -> Seq<Seq<u8>> {
    frame::fragments(sent.message, sent.packet_bytes, sent.frame_id)
}

/// The bytes that arrive.
pub open spec fn arriving_packets(sent: Seq<Sent>, arrivals: Seq<Arrival>) -> Seq<Seq<u8>> {
    arrivals.map_values(|a: Arrival| packets_of(sent[a.of])[a.part])
}

/// The times at which packets arrive.
pub open spec fn arrival_times(arrivals: Seq<Arrival>) -> Seq<u64> {
    arrivals.map_values(|a: Arrival| a.now_ms)
}

/// Whether every packet of every message arrives once, in whatever order, and all of them within 15
/// seconds.
pub open spec fn all_arrive(sent: Seq<Sent>, arrivals: Seq<Arrival>) -> bool {
    &&& forall|k: int|
        0 <= k < arrivals.len() ==> 0 <= (#[trigger] arrivals[k]).of < sent.len() && 0
            <= arrivals[k].part < packets_of(sent[arrivals[k].of]).len()
    &&& forall|k: int, l: int|
        0 <= k < l < arrivals.len() ==> (#[trigger] arrivals[k]).of != (#[trigger] arrivals[l]).of
            || arrivals[k].part != arrivals[l].part
    &&& forall|m: int, j: int|
        0 <= m < sent.len() && 0 <= j < packets_of(sent[m]).len() ==> #[trigger] arrives(
            arrivals,
            m,
            j,
        )
    &&& forall|k: int, l: int|
        0 <= k < arrivals.len() && 0 <= l < arrivals.len() ==> (#[trigger] arrivals[k]).now_ms < (
        #[trigger] arrivals[l]).now_ms + 15_000
    &&& forall|k: int| 0 <= k < arrivals.len() ==> (#[trigger] arrivals[k]).now_ms < u64::MAX
}

/// Whether a packet arrives.
pub open spec fn arrives(arrivals: Seq<Arrival>, m: int, j: int) -> bool {
    exists|k: int|
        0 <= k < arrivals.len() && (#[trigger] arrivals[k]).of == m && arrivals[k].part == j
}

/// Whether messages can be sent side by side: each can be cut into packets, and no two share an
/// identifier.
pub open spec fn can_be_sent(sent: Seq<Sent>) -> bool {
    &&& forall|m: int|
        0 <= m < sent.len() ==> frame::can_fragment(
            (#[trigger] sent[m]).message,
            sent[m].packet_bytes,
        )
    &&& forall|m: int, n: int|
        0 <= m < n < sent.len() ==> (#[trigger] sent[m]).frame_id != (#[trigger] sent[n]).frame_id
}

/// The parts of a message among the first `k` packets, in the order in which they arrive.
spec fn mine(arrivals: Seq<Arrival>, m: int, k: nat) -> Seq<int>
    decreases k,
{
    if k == 0 {
        seq![]
    } else {
        let before = mine(arrivals, m, (k - 1) as nat);
        if arrivals[k - 1].of == m {
            before.push(arrivals[k - 1].part)
        } else {
            before
        }
    }
}

/// How many of the first `n` messages have begun with the first `k` packets.
spec fn started(arrivals: Seq<Arrival>, n: nat, k: nat) -> nat
    decreases n,
{
    if n == 0 {
        0
    } else {
        started(arrivals, (n - 1) as nat, k) + (if mine(arrivals, n - 1, k).len() > 0 {
            1nat
        } else {
            0nat
        })
    }
}

proof fn lemma_started(arrivals: Seq<Arrival>, n: nat, k: nat)
    requires
        k < arrivals.len(),
    ensures
        started(arrivals, n, k) <= n,
        started(arrivals, n, k) <= started(arrivals, n, k + 1),
        0 <= arrivals[k as int].of < n && mine(arrivals, arrivals[k as int].of, k).len() == 0
            ==> started(arrivals, n, k + 1) == started(arrivals, n, k) + 1 && started(
            arrivals,
            n,
            k + 1,
        ) <= n,
        !(0 <= arrivals[k as int].of < n && mine(arrivals, arrivals[k as int].of, k).len() == 0)
            ==> started(arrivals, n, k + 1) == started(arrivals, n, k),
    decreases n,
{
    if n > 0 {
        lemma_started(arrivals, (n - 1) as nat, k);
    }
}

/// What arrived of a message is parts of it, each once, and grows from packet to packet.
proof fn lemma_mine(sent: Seq<Sent>, arrivals: Seq<Arrival>, m: int, k: nat)
    requires
        all_arrive(sent, arrivals),
        0 <= m < sent.len(),
        k <= arrivals.len(),
    ensures
        mine(arrivals, m, k).no_duplicates(),
        forall|j: int|
            mine(arrivals, m, k).contains(j) <==> exists|i: int|
                0 <= i < k && (#[trigger] arrivals[i]).of == m && arrivals[i].part == j,
        forall|a: int|
            0 <= a < mine(arrivals, m, k).len() ==> 0 <= #[trigger] mine(arrivals, m, k)[a]
                < packets_of(sent[m]).len(),
    decreases k,
{
    if k > 0 {
        let n = (k - 1) as nat;
        lemma_mine(sent, arrivals, m, n);
        let before = mine(arrivals, m, n);
        let now = mine(arrivals, m, k);
        let last = arrivals[n as int];
        assert forall|j: int|
            now.contains(j) <==> exists|i: int|
                0 <= i < k && (#[trigger] arrivals[i]).of == m && arrivals[i].part == j by {
            if now.contains(j) {
                let a = choose|a: int| 0 <= a < now.len() && now[a] == j;
                if a < before.len() {
                    assert(before[a] == j);
                    assert(before.contains(j));
                } else {
                    assert(arrivals[n as int].of == m && arrivals[n as int].part == j);
                }
            }
            if exists|i: int|
                0 <= i < k && (#[trigger] arrivals[i]).of == m && arrivals[i].part == j {
                let i = choose|i: int|
                    0 <= i < k && (#[trigger] arrivals[i]).of == m && arrivals[i].part == j;
                if i < n {
                    assert(before.contains(j));
                    let a = choose|a: int| 0 <= a < before.len() && before[a] == j;
                    assert(now[a] == j);
                } else {
                    assert(now[before.len() as int] == j);
                }
            }
        }
        if last.of == m {
            assert(!before.contains(last.part)) by {
                if before.contains(last.part) {
                    let i = choose|i: int|
                        0 <= i < n && (#[trigger] arrivals[i]).of == m && arrivals[i].part
                            == last.part;
                    assert(arrivals[i].of != arrivals[n as int].of || arrivals[i].part
                        != arrivals[n as int].part);
                }
            }
        }
    } else {
        assert(mine(arrivals, m, k) =~= Seq::<int>::empty());
    }
}

proof fn lemma_mine_grows(arrivals: Seq<Arrival>, m: int, k: nat, l: nat)
    requires
        k <= l,
    ensures
        mine(arrivals, m, k).len() <= mine(arrivals, m, l).len(),
        mine(arrivals, m, k) == mine(arrivals, m, l).take(mine(arrivals, m, k).len() as int),
    decreases l,
{
    if k < l {
        lemma_mine_grows(arrivals, m, k, (l - 1) as nat);
        assert(mine(arrivals, m, k) =~= mine(arrivals, m, l).take(
            mine(arrivals, m, k).len() as int,
        ));
    } else {
        assert(mine(arrivals, m, k) =~= mine(arrivals, m, l).take(
            mine(arrivals, m, k).len() as int,
        ));
    }
}

/// All that arrives of a message is an order of its packets.
proof fn lemma_mine_complete(sent: Seq<Sent>, arrivals: Seq<Arrival>, m: int)
    requires
        can_be_sent(sent),
        all_arrive(sent, arrivals),
        0 <= m < sent.len(),
    ensures
        is_arrival_order(
            mine(arrivals, m, arrivals.len()),
            packets_of(sent[m]).len() as int,
        ),
{
    let order = mine(arrivals, m, arrivals.len());
    let n = packets_of(sent[m]).len() as int;
    lemma_mine(sent, arrivals, m, arrivals.len());
    let all = vstd::set_lib::set_int_range(0, n);
    vstd::set_lib::lemma_int_range(0, n);
    order.unique_seq_to_set();
    assert forall|j: int| order.to_set().contains(j) <==> all.contains(j) by {
        if all.contains(j) {
            assert(arrives(arrivals, m, j));
            let k = choose|k: int|
                0 <= k < arrivals.len() && (#[trigger] arrivals[k]).of == m && arrivals[k].part
                    == j;
            assert(order.contains(j));
        }
        if order.contains(j) {
            let a = choose|a: int| 0 <= a < order.len() && order[a] == j;
            assert(0 <= order[a] < n);
        }
    }
    assert(order.to_set() =~= all);
}

/// Whether a reassembler holds a message with its first parts, for longer than anything arrives.
spec fn holds(
    frames: Seq<PendingView>,
    sent: Sent,
    order: Seq<int>,
    count: nat,
    arrivals: Seq<Arrival>,
    i: int,
) -> bool {
    &&& 0 <= i < frames.len()
    &&& frames[i] == (PendingView {
        expires_at_ms: frames[i].expires_at_ms,
        ..collected(sent.message, sent.packet_bytes - 12, sent.frame_id, order, 0, count)
    })
    &&& forall|l: int|
        0 <= l < arrivals.len() ==> (#[trigger] arrivals[l]).now_ms < frames[i].expires_at_ms
}

/// Whether a message stands in a reassembler as far as its packets have arrived: not at all before
/// the first and after the last.
spec fn stands(
    frames: Seq<PendingView>,
    sent: Seq<Sent>,
    arrivals: Seq<Arrival>,
    m: int,
    k: nat,
) -> bool {
    let order = mine(arrivals, m, arrivals.len());
    let count = mine(arrivals, m, k).len();
    if 0 < count < packets_of(sent[m]).len() {
        exists|i: int| #[trigger] holds(frames, sent[m], order, count, arrivals, i)
    } else {
        forall|i: int| 0 <= i < frames.len() ==> (#[trigger] frames[i]).frame_id != sent[m].frame_id
    }
}

/// Packets of one message leave where another stands.
proof fn lemma_others_stand(
    before: Seq<PendingView>,
    after: Seq<PendingView>,
    sent: Seq<Sent>,
    arrivals: Seq<Arrival>,
    m: int,
    k: nat,
)
    requires
        k < arrivals.len(),
        arrivals[k as int].of != m,
        stands(before, sent, arrivals, m, k),
        forall|i: int|
            0 <= i < before.len() && (#[trigger] before[i]).frame_id == sent[m].frame_id
                && before[i].expires_at_ms > arrivals[k as int].now_ms ==> after.contains(before[i]),
        forall|i: int|
            0 <= i < after.len() && (#[trigger] after[i]).frame_id == sent[m].frame_id
                ==> before.contains(after[i]),
    ensures
        stands(after, sent, arrivals, m, k + 1),
{
    let order = mine(arrivals, m, arrivals.len());
    let count = mine(arrivals, m, k).len();
    assert(mine(arrivals, m, k + 1) == mine(arrivals, m, k));
    if 0 < count < packets_of(sent[m]).len() {
        let i = choose|i: int| #[trigger] holds(before, sent[m], order, count, arrivals, i);
        assert(before[i].frame_id == sent[m].frame_id);
        assert(arrivals[k as int].now_ms < before[i].expires_at_ms);
        assert(after.contains(before[i]));
        let j = choose|j: int| 0 <= j < after.len() && after[j] == before[i];
        assert(holds(after, sent[m], order, count, arrivals, j));
    } else {
        assert forall|i: int| 0 <= i < after.len() implies (#[trigger] after[i]).frame_id
            != sent[m].frame_id by {
            if after[i].frame_id == sent[m].frame_id {
                let j = choose|j: int| 0 <= j < before.len() && before[j] == after[i];
                assert(before[j].frame_id == sent[m].frame_id);
            }
        }
    }
}

proof fn lemma_side_by_side(
    s: ReassemblerView,
    sent: Seq<Sent>,
    arrivals: Seq<Arrival>,
    k: nat,
)
    requires
        s.wf(),
        can_be_sent(sent),
        all_arrive(sent, arrivals),
        s.frames.len() + sent.len() <= s.capacity,
        forall|i: int, m: int|
            0 <= i < s.frames.len() && 0 <= m < sent.len() ==> (#[trigger] s.frames[i]).frame_id
                != (#[trigger] sent[m]).frame_id,
        k <= arrivals.len(),
    ensures
        ({
            let t = after(s, arriving_packets(sent, arrivals), arrival_times(arrivals), k);
            &&& t.wf()
            &&& t.capacity == s.capacity
            &&& t.frames.len() <= s.frames.len() + started(arrivals, sent.len(), k)
            &&& forall|m: int| 0 <= m < sent.len() ==> #[trigger] stands(t.frames, sent, arrivals, m, k)
        }),
    decreases k,
{
    let packets = arriving_packets(sent, arrivals);
    let times = arrival_times(arrivals);
    if k == 0 {
        assert forall|m: int| 0 <= m < sent.len() implies #[trigger] stands(
            s.frames,
            sent,
            arrivals,
            m,
            0,
        ) by {
            assert(mine(arrivals, m, 0).len() == 0);
        }
    } else {
        let n = (k - 1) as nat;
        lemma_side_by_side(s, sent, arrivals, n);
        lemma_one_more(s, sent, arrivals, n);
    }
}

/// One more packet: its message moves on, and is handed out with its last part.
proof fn lemma_one_more(s: ReassemblerView, sent: Seq<Sent>, arrivals: Seq<Arrival>, k: nat)
    requires
        s.wf(),
        can_be_sent(sent),
        all_arrive(sent, arrivals),
        s.frames.len() + sent.len() <= s.capacity,
        k < arrivals.len(),
        ({
            let t = after(s, arriving_packets(sent, arrivals), arrival_times(arrivals), k);
            &&& t.wf()
            &&& t.capacity == s.capacity
            &&& t.frames.len() <= s.frames.len() + started(arrivals, sent.len(), k)
            &&& forall|m: int| 0 <= m < sent.len() ==> #[trigger] stands(t.frames, sent, arrivals, m, k)
        }),
    ensures
        ({
            let packets = arriving_packets(sent, arrivals);
            let times = arrival_times(arrivals);
            let u = after(s, packets, times, k + 1);
            let m = arrivals[k as int].of;
            &&& u.wf()
            &&& u.capacity == s.capacity
            &&& u.frames.len() <= s.frames.len() + started(arrivals, sent.len(), k + 1)
            &&& forall|x: int|
                0 <= x < sent.len() ==> #[trigger] stands(u.frames, sent, arrivals, x, k + 1)
            &&& mine(arrivals, m, k + 1).len() <= packets_of(sent[m]).len()
            &&& answer(s, packets, times, k as int) == (if mine(arrivals, m, k + 1).len()
                == packets_of(sent[m]).len() {
                Ok::<Option<Seq<u8>>, ProximityError>(Some(sent[m].message))
            } else {
                Ok(None)
            })
        }),
{
    let packets = arriving_packets(sent, arrivals);
    let times = arrival_times(arrivals);
    let t = after(s, packets, times, k);
    let u = after(s, packets, times, k + 1);
    let a = arrivals[k as int];
    let m = a.of;
    let now_ms = a.now_ms;
    let e = sent[m];
    let size = e.packet_bytes - 12;
    let total = packets_of(e).len() as int;
    let order = mine(arrivals, m, arrivals.len());
    let count = mine(arrivals, m, k).len();
    let packet = packets[k as int];
    let payload = frame::part_payload(e.message, size, a.part);
    let header = PacketHeader {
        frame_id: e.frame_id,
        index: a.part as usize,
        total: total as usize,
    };
    assert(packet == packets_of(e)[a.part]);
    assert(times[k as int] == now_ms);
    assert(u == t.adding(packet, now_ms).0);
    assert(answer(s, packets, times, k as int) == t.adding(packet, now_ms).1);
    lemma_mine_complete(sent, arrivals, m);
    lemma_mine_grows(arrivals, m, k, k + 1);
    lemma_mine_grows(arrivals, m, k + 1, arrivals.len());
    assert(mine(arrivals, m, k + 1) == mine(arrivals, m, k).push(a.part));
    assert(order[count as int] == mine(arrivals, m, k + 1)[count as int]);
    assert(order[count as int] == a.part);
    lemma_collect(e.message, size, e.frame_id, order, 0, count);
    frame::lemma_adding_wf(t, packet, now_ms);
    lemma_started(arrivals, sent.len(), k);
    let keep = |f: PendingView| f.expires_at_ms > now_ms;
    let alive = t.frames.filter(keep);
    let f0 = collected(e.message, size, e.frame_id, order, 0, count);
    let g0 = collected(e.message, size, e.frame_id, order, 0, count + 1);
    packets_say_what_they_are(packet);
    assert(packet.skip(12) =~= payload);
    assert(stands(t.frames, sent, arrivals, m, k));
    let p: int;
    if count == 0 {
        parts_of_new_messages_begin_them(t, packet, header, now_ms);
        assert(alive.len() < t.capacity);
        assert(f0.parts =~= Map::empty());
        p = alive.len() as int;
        if total > 1 {
            assert(u.frames[p] == (PendingView { expires_at_ms: u.frames[p].expires_at_ms, ..g0 }));
            assert(holds(u.frames, e, order, 1, arrivals, p));
        } else {
            assert(g0.message() == e.message);
            assert(g0.parts[0usize] == payload);
            reveal_with_fuel(frame::joined, 2);
            assert(g0.message() =~= payload);
        }
    } else {
        let i = choose|i: int| #[trigger] holds(t.frames, e, order, count, arrivals, i);
        assert(arrivals[k as int].now_ms < t.frames[i].expires_at_ms);
        assert(t.frames[i].frame_id == e.frame_id);
        p = parts_of_waiting_messages_are_taken_in(t, i, packet, header, now_ms);
        let grown = PendingView { expires_at_ms: t.frames[i].expires_at_ms, ..g0 };
        t.frames.lemma_filter_len(keep);
        if count + 1 == total {
            assert(g0.is_complete());
        } else {
            assert(!g0.is_complete());
            let missing = choose|x: usize| x < g0.total && !#[trigger] g0.parts.contains_key(x);
            assert(!grown.parts.contains_key(missing));
            assert(u.frames[p] == grown);
            assert(holds(u.frames, e, order, count + 1, arrivals, p));
        }
    }
    // Every message but this one is where it was.
    assert forall|x: int| 0 <= x < sent.len() implies #[trigger] stands(
        u.frames,
        sent,
        arrivals,
        x,
        k + 1,
    ) by {
        if x != m {
            let id = sent[x].frame_id;
            assert(id != e.frame_id) by {
                if x < m {
                    assert(sent[x].frame_id != sent[m].frame_id);
                } else {
                    assert(sent[m].frame_id != sent[x].frame_id);
                }
            }
            assert(stands(t.frames, sent, arrivals, x, k));
            assert forall|i: int|
                0 <= i < t.frames.len() && (#[trigger] t.frames[i]).frame_id == id
                    && t.frames[i].expires_at_ms > now_ms implies u.frames.contains(
                t.frames[i],
            ) by {
                t.frames.lemma_filter_contains(keep, i);
                let q = choose|q: int| 0 <= q < alive.len() && alive[q] == t.frames[i];
                if count == 0 {
                    assert(u.frames[q] == alive[q]);
                } else {
                    assert(q != p);
                    let j = if count + 1 == total && q > p {
                        q - 1
                    } else {
                        q
                    };
                    assert(u.frames[j] == alive[q]);
                }
            }
            assert forall|i: int|
                0 <= i < u.frames.len() && (#[trigger] u.frames[i]).frame_id
                    == id implies t.frames.contains(u.frames[i]) by {
                let q = if count > 0 && count + 1 == total && i >= p {
                    i + 1
                } else {
                    i
                };
                assert(u.frames[i] == alive[q]);
                lemma_filtered_from(t.frames, keep, q);
            }
            lemma_others_stand(t.frames, u.frames, sent, arrivals, x, k);
        } else if count + 1 == total {
            assert forall|i: int| 0 <= i < u.frames.len() implies (#[trigger] u.frames[i]).frame_id
                != e.frame_id by {
                if count == 0 {
                    assert(u.frames[i] == alive[i]);
                    lemma_filtered_from(t.frames, keep, i);
                } else {
                    frame::lemma_unexpired(t, now_ms);
                    assert(frame::unexpired(t.frames, now_ms) == alive);
                    let q = if i >= p {
                        i + 1
                    } else {
                        i
                    };
                    assert(u.frames[i] == alive[q]);
                    if q < p {
                        assert(alive[q].frame_id != alive[p].frame_id);
                    } else {
                        assert(alive[p].frame_id != alive[q].frame_id);
                    }
                }
            }
        }
    }
}

/// Messages that arrive side by side are all given back: where there is room for every one of them
/// and every packet arrives once within the time limit, in whatever order and however the messages
/// mix, each packet is answered with nothing but the last one of each message, which is answered
/// with that message.
pub proof fn messages_that_mix_are_all_given_back(
    s: ReassemblerView,
    sent: Seq<Sent>,
    arrivals: Seq<Arrival>,
    k: int,
)
    requires
        s.wf(),
        can_be_sent(sent),
        all_arrive(sent, arrivals),
        s.frames.len() + sent.len() <= s.capacity,
        forall|i: int, m: int|
            0 <= i < s.frames.len() && 0 <= m < sent.len() ==> (#[trigger] s.frames[i]).frame_id
                != (#[trigger] sent[m]).frame_id,
        0 <= k < arrivals.len(),
    ensures
        (exists|l: int| k < l < arrivals.len() && (#[trigger] arrivals[l]).of == arrivals[k].of)
            ==> answer(s, arriving_packets(sent, arrivals), arrival_times(arrivals), k) == Ok::<
            Option<Seq<u8>>,
            ProximityError,
        >(None),
        (forall|l: int| k < l < arrivals.len() ==> (#[trigger] arrivals[l]).of != arrivals[k].of)
            ==> answer(s, arriving_packets(sent, arrivals), arrival_times(arrivals), k) == Ok::<
            Option<Seq<u8>>,
            ProximityError,
        >(Some(sent[arrivals[k].of].message)),
{
    lemma_side_by_side(s, sent, arrivals, k as nat);
    lemma_one_more(s, sent, arrivals, k as nat);
    let m = arrivals[k].of;
    lemma_mine_complete(sent, arrivals, m);
    let so_far = mine(arrivals, m, (k + 1) as nat).len();
    let n = arrivals.len();
    if exists|l: int| k < l < arrivals.len() && (#[trigger] arrivals[l]).of == m {
        let l = choose|l: int| k < l < arrivals.len() && (#[trigger] arrivals[l]).of == m;
        lemma_mine_grows(arrivals, m, (k + 1) as nat, l as nat);
        lemma_mine_grows(arrivals, m, (l + 1) as nat, n);
        assert(mine(arrivals, m, (l + 1) as nat) == mine(arrivals, m, l as nat).push(
            arrivals[l].part,
        ));
    } else {
        lemma_no_more(arrivals, m, (k + 1) as nat, n);
    }
}

proof fn lemma_no_more(arrivals: Seq<Arrival>, m: int, k: nat, l: nat)
    requires
        k <= l <= arrivals.len(),
        forall|i: int| k <= i < l ==> (#[trigger] arrivals[i]).of != m,
    ensures
        mine(arrivals, m, l) == mine(arrivals, m, k),
    decreases l,
{
    if k < l {
        assert(arrivals[l - 1].of != m);
        lemma_no_more(arrivals, m, k, (l - 1) as nat);
    }
}

/// An answer is seen as it is: a message by its bytes, nothing as nothing, and a refusal as it is.
pub proof fn answers_are_seen_as_they_are(r: Result<Option<Vec<u8>>, ProximityError>)
    ensures
        r matches Ok(Some(message)) ==> frame::answer_view(r) == Ok::<
            Option<Seq<u8>>,
            ProximityError,
        >(Some(message@)),
        r matches Ok(None) ==> frame::answer_view(r) == Ok::<Option<Seq<u8>>, ProximityError>(None),
        r matches Err(e) ==> frame::answer_view(r) == Err::<Option<Seq<u8>>, ProximityError>(e),
{
}

/// A message is cut exactly where random bytes came and it can be cut. Then every packet carries the
/// number that the first four bytes are, the highest first, as its identifier.
pub proof fn messages_are_cut_under_random_identifiers(
    message: Seq<u8>,
    packet_bytes: int,
    drawn: Result<Vec<u8>, getrandom::Error>,
    r: Result<Vec<Vec<u8>>, ProximityError>,
)
    requires
        frame::is_cut_under(message, packet_bytes, drawn, r),
    ensures
        r is Ok <==> drawn is Ok && frame::can_fragment(message, packet_bytes),
        r matches Ok(packets) ==> {
            let id = drawn->Ok_0@;
            let frame_id = (id[0] * 0x100_0000 + id[1] * 0x1_0000 + id[2] * 0x100 + id[3]) as u32;
            let expected = frame::fragments(message, packet_bytes, frame_id);
            &&& packets@.len() == expected.len()
            &&& forall|i: int| 0 <= i < packets@.len() ==> (#[trigger] packets@[i])@ == expected[i]
        },
{
    if let Ok(packets) = r {
        let views = packets@.map_values(|p: Vec<u8>| p@);
        assert forall|i: int| 0 <= i < packets@.len() implies (#[trigger] packets@[i])@
            == views[i] by {}
    }
}

} // verus!
