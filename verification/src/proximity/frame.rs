//! BLE framing: cutting a message into packets and putting packets together again.

use crate::proximity::{ProximityError, MAX_ENCODED_ENVELOPE_BYTES};
use crate::{crypto, text};
use std::collections::BTreeMap;
use vstd::prelude::*;

verus! {

/// The first two bytes of every packet.
const FRAME_MAGIC_HIGH: u8 = 0x43;
const FRAME_MAGIC_LOW: u8 = 0x54;
const FRAME_VERSION: u8 = 1;
const FRAME_HEADER_BYTES: usize = 12;
const MIN_PACKET_BYTES: usize = 20;
const MAX_PACKET_BYTES: usize = 512;
const MAX_FRAME_PARTS: usize = 4096;
/// How long a message may stay incomplete.
pub const REASSEMBLY_TIMEOUT_MS: u64 = 15_000;

/// The position of a packet in its message.
pub struct PacketHeader {
    pub frame_id: u32,
    pub index: usize,
    pub total: usize,
}

/// A big-endian number of two bytes.
pub open spec fn be16(a: u8, b: u8) -> int {
    a * 256 + b
}

/// A big-endian number of four bytes.
pub open spec fn be32(a: u8, b: u8, c: u8, d: u8) -> int {
    a * 0x100_0000 + b * 0x1_0000 + c * 256 + d
}

/// The header bytes of part `index` of `total`: magic, version, last-part flag, frame
/// identifier, index and total.
pub open spec fn header_bytes(frame_id: u32, index: int, total: int) -> Seq<u8> {
    seq![
        0x43u8,
        0x54u8,
        1u8,
        if index == total - 1 { 1u8 } else { 0u8 },
        (frame_id as int / 0x100_0000) as u8,
        (frame_id as int / 0x1_0000 % 256) as u8,
        (frame_id as int / 256 % 256) as u8,
        (frame_id as int % 256) as u8,
        (index / 256) as u8,
        (index % 256) as u8,
        (total / 256) as u8,
        (total % 256) as u8,
    ]
}

/// The header that a packet carries, if it is a well-formed packet.
pub open spec fn packet_header(packet: Seq<u8>) -> Option<PacketHeader> {
    let frame_id = be32(packet[4], packet[5], packet[6], packet[7]);
    let index = be16(packet[8], packet[9]);
    let total = be16(packet[10], packet[11]);
    if 12 < packet.len() <= 512 && packet[0] == 0x43 && packet[1] == 0x54 && packet[2] == 1
        && packet[3] <= 1 && total <= 4096 && index < total && (packet[3] == 1) == (index == total
        - 1) {
        Some(
            PacketHeader {
                frame_id: frame_id as u32,
                index: index as usize,
                total: total as usize,
            },
        )
    } else {
        None
    }
}

/// The bytes of the message that a packet carries.
pub open spec fn packet_payload(packet: Seq<u8>) -> Seq<u8> {
    packet.skip(12)
}

/// Reads the header of a packet.
fn read_header(packet: &[u8]) -> (r: Option<PacketHeader>)
    ensures
        r == packet_header(packet@),
{
    if packet.len() <= FRAME_HEADER_BYTES || packet.len() > MAX_PACKET_BYTES {
        return None;
    }
    let frame_id: u32 = packet[4] as u32 * 0x100_0000 + packet[5] as u32 * 0x1_0000
        + packet[6] as u32 * 256 + packet[7] as u32;
    let index: usize = packet[8] as usize * 256 + packet[9] as usize;
    let total: usize = packet[10] as usize * 256 + packet[11] as usize;
    if packet[0] != FRAME_MAGIC_HIGH || packet[1] != FRAME_MAGIC_LOW || packet[2] != FRAME_VERSION
        || packet[3] > 1 || total > MAX_FRAME_PARTS || index >= total || (packet[3] == 1) != (index
        == total - 1) {
        return None;
    }
    Some(PacketHeader { frame_id, index, total })
}

/// The number of parts of a message of `len` bytes, `size` bytes in each but the last.
pub open spec fn part_count(len: int, size: int) -> int {
    (len + size - 1) / size
}

/// Part `index` of a message that is cut every `size` bytes.
pub open spec fn part_payload(message: Seq<u8>, size: int, index: int) -> Seq<u8> {
    let end = (index + 1) * size;
    message.subrange(index * size, if end < message.len() { end } else { message.len() as int })
}

/// Whether a message can be cut into packets of at most `packet_bytes` bytes.
pub open spec fn can_fragment(message: Seq<u8>, packet_bytes: int) -> bool {
    &&& 0 < message.len() <= MAX_ENCODED_ENVELOPE_BYTES
    &&& 20 <= packet_bytes <= 512
    &&& part_count(message.len() as int, packet_bytes - 12) <= 4096
}

/// The packets of a message under a frame identifier.
pub open spec fn fragments(message: Seq<u8>, packet_bytes: int, frame_id: u32) -> Seq<Seq<u8>> {
    let size = packet_bytes - 12;
    let total = part_count(message.len() as int, size);
    Seq::new(
        total as nat,
        |i: int| header_bytes(frame_id, i, total) + part_payload(message, size, i),
    )
}

/// The last of the parts starts inside the message and ends where the message ends.
pub proof fn lemma_part_count(len: int, size: int)
    requires
        0 < len,
        0 < size,
    ensures
        0 < part_count(len, size),
        (part_count(len, size) - 1) * size < len <= part_count(len, size) * size,
{
    let total = part_count(len, size);
    vstd::arithmetic::div_mod::lemma_fundamental_div_mod(len + size - 1, size);
    vstd::arithmetic::div_mod::lemma_mod_bound(len + size - 1, size);
    assert(size * total == total * size) by (nonlinear_arith);
    assert((total - 1) * size == total * size - size) by (nonlinear_arith);
    assert(0 < total) by (nonlinear_arith)
        requires
            0 < len <= total * size,
            0 < size,
    ;
}

/// Part `index` starts inside the message.
pub proof fn lemma_part_start(len: int, size: int, index: int)
    requires
        0 < len,
        0 < size,
        0 <= index < part_count(len, size),
    ensures
        0 <= index * size < len,
        (index + 1) * size == index * size + size,
        index < part_count(len, size) - 1 ==> (index + 1) * size < len,
        index == part_count(len, size) - 1 ==> (index + 1) * size >= len,
{
    lemma_part_count(len, size);
    let total = part_count(len, size);
    assert(0 <= index * size) by (nonlinear_arith)
        requires
            0 <= index,
            0 < size,
    ;
    assert((index + 1) * size == index * size + size) by (nonlinear_arith);
    assert(index * size <= (total - 1) * size) by (nonlinear_arith)
        requires
            index <= total - 1,
            0 < size,
    ;
    if index < total - 1 {
        assert((index + 1) * size <= (total - 1) * size) by (nonlinear_arith)
            requires
                index + 1 <= total - 1,
                0 < size,
        ;
    }
}

/// Cuts a message into packets of at most `packet_bytes` bytes under a given frame identifier.
pub fn fragment_with_id(message: &[u8], packet_bytes: usize, frame_id: u32) -> (r: Result<
    Vec<Vec<u8>>,
    ProximityError,
>)
    ensures
        r is Ok <==> can_fragment(message@, packet_bytes as int),
        r matches Ok(packets) ==> packets@.map_values(|p: Vec<u8>| p@) == fragments(
            message@,
            packet_bytes as int,
            frame_id,
        ),
        r matches Err(e) ==> e == ProximityError::InvalidFrame,
{
    if message.len() == 0 || message.len() > MAX_ENCODED_ENVELOPE_BYTES || packet_bytes
        < MIN_PACKET_BYTES || packet_bytes > MAX_PACKET_BYTES {
        return Err(ProximityError::InvalidFrame);
    }
    let size: usize = packet_bytes - FRAME_HEADER_BYTES;
    let total: usize = (message.len() + size - 1) / size;
    if total > MAX_FRAME_PARTS {
        return Err(ProximityError::InvalidFrame);
    }
    let mut packets: Vec<Vec<u8>> = Vec::new();
    let mut index: usize = 0;
    let mut start: usize = 0;
    while index < total
        invariant
            can_fragment(message@, packet_bytes as int),
            size == packet_bytes - 12,
            total == part_count(message@.len() as int, size as int),
            index <= total,
            start <= message@.len(),
            index < total ==> start == index * size,
            packets@.len() == index,
            forall|i: int|
                0 <= i < index ==> (#[trigger] packets@[i])@ == fragments(
                    message@,
                    packet_bytes as int,
                    frame_id,
                )[i],
        decreases total - index,
    {
        proof {
            lemma_part_start(message@.len() as int, size as int, index as int);
        }
        let end: usize = if message.len() - start < size {
            message.len()
        } else {
            start + size
        };
        let mut packet: Vec<u8> = Vec::new();
        packet.push(FRAME_MAGIC_HIGH);
        packet.push(FRAME_MAGIC_LOW);
        packet.push(FRAME_VERSION);
        packet.push(if index == total - 1 { 1 } else { 0 });
        packet.push((frame_id / 0x100_0000) as u8);
        packet.push((frame_id / 0x1_0000 % 256) as u8);
        packet.push((frame_id / 256 % 256) as u8);
        packet.push((frame_id % 256) as u8);
        packet.push((index / 256) as u8);
        packet.push((index % 256) as u8);
        packet.push((total / 256) as u8);
        packet.push((total % 256) as u8);
        assert(packet@ == header_bytes(frame_id, index as int, total as int));
        let payload = vstd::slice::slice_subrange(message, start, end);
        text::append_bytes(&mut packet, payload);
        assert(payload@ == part_payload(message@, size as int, index as int));
        packets.push(packet);
        index = index + 1;
        start = end;
    }
    assert(packets@.map_values(|p: Vec<u8>| p@) == fragments(
        message@,
        packet_bytes as int,
        frame_id,
    ));
    Ok(packets)
}

/// Whether a result is the packets of a message under the identifier that random bytes are: all of
/// them, where the bytes came and the message can be cut, and otherwise none.
pub open spec fn is_cut_under(
    message: Seq<u8>,
    packet_bytes: int,
    drawn: Result<Vec<u8>, getrandom::Error>,
    r: Result<Vec<Vec<u8>>, ProximityError>,
) -> bool {
    match drawn {
        Ok(id) => match r {
            Ok(packets) => can_fragment(message, packet_bytes) && packets@.map_values(
                |p: Vec<u8>| p@,
            ) == fragments(message, packet_bytes, be32(id@[0], id@[1], id@[2], id@[3]) as u32),
            Err(_) => !can_fragment(message, packet_bytes),
        },
        Err(_) => r is Err,
    }
}

/// Cuts a message into packets of at most `packet_bytes` bytes under a random frame identifier.
///
/// A message that cannot be cut is refused; so is any message while the operating system gives
/// no random bytes.
pub fn fragment_ble_message(message: &[u8], packet_bytes: usize) -> (r: Result<
    Vec<Vec<u8>>,
    ProximityError,
>)
    ensures
        !can_fragment(message@, packet_bytes as int) ==> r is Err,
        r matches Ok(packets) ==> exists|frame_id: u32|
            packets@.map_values(|p: Vec<u8>| p@) == #[trigger] fragments(
                message@,
                packet_bytes as int,
                frame_id,
            ),
        r matches Err(e) ==> e == ProximityError::InvalidFrame,
        exists|drawn: Result<Vec<u8>, getrandom::Error>| #[trigger]
            crypto::is_random_draw(4, drawn) && is_cut_under(
                message@,
                packet_bytes as int,
                drawn,
                r,
            ),
{
    let drawn = crypto::draw_bytes(4);
    let ghost given = drawn;
    assert(crypto::is_random_draw(4, given));
    let id = match drawn {
        Ok(id) => id,
        Err(_) => {
            return Err(ProximityError::InvalidFrame);
        },
    };
    let frame_id: u32 = id[0] as u32 * 0x100_0000 + id[1] as u32 * 0x1_0000 + id[2] as u32 * 256
        + id[3] as u32;
    fragment_with_id(message, packet_bytes, frame_id)
}

// ---------------------------------------------------------------------------
// Reassembly
// ---------------------------------------------------------------------------

/// What is known of a message of which some parts have arrived.
pub struct PendingView {
    pub frame_id: u32,
    pub total: usize,
    pub expires_at_ms: u64,
    pub byte_count: nat,
    pub parts: Map<usize, Seq<u8>>,
}

/// The messages that a reassembler waits for, the oldest first.
pub struct ReassemblerView {
    pub capacity: nat,
    pub frames: Seq<PendingView>,
}

/// The first `n` parts, one after the other.
pub open spec fn joined(parts: Map<usize, Seq<u8>>, n: nat) -> Seq<u8>
    decreases n,
{
    if n == 0 {
        seq![]
    } else {
        joined(parts, (n - 1) as nat) + parts[(n - 1) as usize]
    }
}

impl PendingView {
    /// A message of which no part has arrived yet.
    pub open spec fn opened(frame_id: u32, total: usize, now_ms: u64) -> PendingView {
        PendingView {
            frame_id,
            total,
            expires_at_ms: if now_ms + REASSEMBLY_TIMEOUT_MS > u64::MAX {
                u64::MAX
            } else {
                (now_ms + REASSEMBLY_TIMEOUT_MS) as u64
            },
            byte_count: 0,
            parts: Map::empty(),
        }
    }

    /// Whether a part fits in: it agrees on the number of parts, has not arrived before, and
    /// keeps the message within the size limit.
    pub open spec fn admits(self, header: PacketHeader, payload: Seq<u8>) -> bool {
        &&& self.total == header.total
        &&& !self.parts.contains_key(header.index)
        &&& self.byte_count + payload.len() <= MAX_ENCODED_ENVELOPE_BYTES
    }

    /// The message with one more part.
    pub open spec fn with_part(self, header: PacketHeader, payload: Seq<u8>) -> PendingView {
        PendingView {
            byte_count: self.byte_count + payload.len(),
            parts: self.parts.insert(header.index, payload),
            ..self
        }
    }

    /// Whether every part has arrived.
    pub open spec fn is_complete(self) -> bool {
        forall|k: usize| k < self.total ==> #[trigger] self.parts.contains_key(k)
    }

    /// The message, once it is complete.
    pub open spec fn message(self) -> Seq<u8> {
        joined(self.parts, self.total as nat)
    }

    /// What holds of every message that a reassembler waits for.
    pub open spec fn wf(self) -> bool {
        &&& 0 < self.total <= 4096
        &&& self.byte_count <= MAX_ENCODED_ENVELOPE_BYTES
        &&& self.parts.dom().finite()
        &&& forall|k: usize| #[trigger] self.parts.contains_key(k) ==> k < self.total
    }
}

/// Whether a message with that identifier is waited for.
pub open spec fn waits_for(frames: Seq<PendingView>, frame_id: u32) -> bool {
    exists|i: int| 0 <= i < frames.len() && (#[trigger] frames[i]).frame_id == frame_id
}

/// Where the message with that identifier stands.
pub open spec fn position(frames: Seq<PendingView>, frame_id: u32) -> int {
    choose|i: int| 0 <= i < frames.len() && (#[trigger] frames[i]).frame_id == frame_id
}

/// The messages whose time is not up.
pub open spec fn unexpired(frames: Seq<PendingView>, now_ms: u64) -> Seq<PendingView> {
    frames.filter(|f: PendingView| f.expires_at_ms > now_ms)
}

impl ReassemblerView {
    /// What a packet with a well-formed header does, once expired messages are gone.
    pub open spec fn taking(self, header: PacketHeader, payload: Seq<u8>, now_ms: u64) -> (
        ReassemblerView,
        Result<Option<Seq<u8>>, ProximityError>,
    ) {
        let opened = if waits_for(self.frames, header.frame_id) {
            self.frames
        } else {
            self.frames.push(PendingView::opened(header.frame_id, header.total, now_ms))
        };
        let at = position(opened, header.frame_id);
        if !opened[at].admits(header, payload) {
            (
                ReassemblerView { frames: opened.remove(at), ..self },
                Err(ProximityError::InvalidFrame),
            )
        } else {
            let frame = opened[at].with_part(header, payload);
            let stored = opened.update(at, frame);
            let kept = if stored.len() > self.capacity {
                stored.skip(stored.len() - self.capacity)
            } else {
                stored
            };
            if frame.is_complete() {
                (
                    ReassemblerView {
                        frames: kept.remove(position(kept, header.frame_id)),
                        ..self
                    },
                    Ok(Some(frame.message())),
                )
            } else {
                (ReassemblerView { frames: kept, ..self }, Ok(None))
            }
        }
    }

    /// What a packet does: the reassembler afterwards, and the answer.
    pub open spec fn adding(self, packet: Seq<u8>, now_ms: u64) -> (
        ReassemblerView,
        Result<Option<Seq<u8>>, ProximityError>,
    ) {
        let fresh = ReassemblerView { frames: unexpired(self.frames, now_ms), ..self };
        match packet_header(packet) {
            None => (fresh, Err(ProximityError::InvalidFrame)),
            Some(header) => fresh.taking(header, packet_payload(packet), now_ms),
        }
    }

    /// What holds of every reassembler: bounded numbers of messages and bytes, and no
    /// identifier twice.
    pub open spec fn wf(self) -> bool {
        &&& 1 <= self.capacity <= 32
        &&& self.frames.len() <= self.capacity
        &&& forall|i: int| 0 <= i < self.frames.len() ==> (#[trigger] self.frames[i]).wf()
        &&& distinct_ids(self.frames)
    }
}

/// No identifier stands twice.
pub open spec fn distinct_ids(frames: Seq<PendingView>) -> bool {
    forall|i: int, j: int|
        0 <= i < j < frames.len() ==> (#[trigger] frames[i]).frame_id != (
        #[trigger] frames[j]).frame_id
}

/// A message of which some parts have arrived.
struct PendingFrame {
    frame_id: u32,
    total: usize,
    expires_at_ms: u64,
    byte_count: usize,
    parts: BTreeMap<usize, Vec<u8>>,
}

impl View for PendingFrame {
    type V = PendingView;

    closed spec fn view(&self) -> PendingView {
        PendingView {
            frame_id: self.frame_id,
            total: self.total,
            expires_at_ms: self.expires_at_ms,
            byte_count: self.byte_count as nat,
            parts: self.parts@.map_values(|part: Vec<u8>| part@),
        }
    }
}

/// Puts the packets of messages together again, in whatever order they arrive.
pub struct BleFrameReassembler {
    capacity: usize,
    frames: Vec<PendingFrame>,
}

impl View for BleFrameReassembler {
    type V = ReassemblerView;

    closed spec fn view(&self) -> ReassemblerView {
        ReassemblerView {
            capacity: self.capacity as nat,
            frames: self.frames@.map_values(|frame: PendingFrame| frame@),
        }
    }
}

/// The indexes below `n`.
spec fn below(n: usize) -> Set<usize> {
    Set::new(|k: usize| k < n)
}

proof fn lemma_below(n: usize)
    ensures
        below(n).finite(),
        below(n).len() == n,
    decreases n,
{
    if n == 0 {
        assert(below(n) =~= Set::empty());
    } else {
        let m = (n - 1) as usize;
        lemma_below(m);
        assert(below(n) =~= below(m).insert(m));
    }
}

/// A message is complete exactly when as many parts have arrived as it has.
proof fn lemma_complete(frame: PendingView)
    requires
        frame.wf(),
    ensures
        frame.is_complete() <==> frame.parts.dom().len() == frame.total,
{
    lemma_below(frame.total);
    let full = below(frame.total);
    let dom = frame.parts.dom();
    assert(dom.subset_of(full)) by {
        assert forall|k: usize| dom.contains(k) implies full.contains(k) by {
            assert(frame.parts.contains_key(k));
        }
    }
    if dom.len() == frame.total {
        vstd::set_lib::lemma_subset_equality(dom, full);
        assert forall|k: usize| k < frame.total implies #[trigger] frame.parts.contains_key(k) by {
            assert(full.contains(k));
        }
    }
    if frame.is_complete() {
        assert forall|k: usize| full.contains(k) implies dom.contains(k) by {
            assert(frame.parts.contains_key(k));
        }
        assert(dom =~= full);
    }
}

/// The position of the only message with an identifier.
pub proof fn lemma_position(frames: Seq<PendingView>, i: int)
    requires
        distinct_ids(frames),
        0 <= i < frames.len(),
    ensures
        waits_for(frames, frames[i].frame_id),
        position(frames, frames[i].frame_id) == i,
{
    let p = position(frames, frames[i].frame_id);
    assert(0 <= p < frames.len() && frames[p].frame_id == frames[i].frame_id);
    if p < i {
        assert(frames[p].frame_id != frames[i].frame_id);
    } else if i < p {
        assert(frames[i].frame_id != frames[p].frame_id);
    }
}

impl BleFrameReassembler {
    /// Whether the invariant of the reassembler holds.
    pub closed spec fn wf(&self) -> bool {
        self@.wf()
    }

    /// The contents of a well-formed reassembler are well-formed.
    pub proof fn wf_gives_view(&self)
        requires
            self.wf(),
        ensures
            self@.wf(),
    {
    }

    /// A reassembler for at most `capacity` messages at a time.
    pub fn new(capacity: usize) -> (r: Result<Self, ProximityError>)
        ensures
            r is Ok <==> 1 <= capacity <= 32,
            r matches Ok(s) ==> s.wf() && s@ == (ReassemblerView {
                capacity: capacity as nat,
                frames: seq![],
            }),
            r matches Err(e) ==> e == ProximityError::InvalidCapacity,
    {
        if capacity < 1 || capacity > 32 {
            return Err(ProximityError::InvalidCapacity);
        }
        let s = BleFrameReassembler { capacity, frames: Vec::new() };
        assert(s@.frames =~= seq![]);
        Ok(s)
    }

    /// Forgets every message.
    pub fn clear(&mut self)
        requires
            old(self).wf(),
        ensures
            final(self).wf(),
            final(self)@ == (ReassemblerView { frames: seq![], ..old(self)@ }),
    {
        self.frames.clear();
        assert(self@.frames =~= seq![]);
    }

    /// Forgets the messages whose time is up.
    fn expire(&mut self, now_ms: u64)
        requires
            old(self).wf(),
        ensures
            final(self).wf(),
            final(self)@ == (ReassemblerView {
                frames: unexpired(old(self)@.frames, now_ms),
                ..old(self)@
            }),
    {
        let ghost before = self@.frames;
        let ghost alive = |f: PendingView| f.expires_at_ms > now_ms;
        let ghost mut seen: int = 0;
        let mut i: usize = 0;
        while i < self.frames.len()
            invariant
                alive == (|f: PendingView| f.expires_at_ms > now_ms),
                self.capacity == old(self).capacity,
                before == old(self)@.frames,
                0 <= seen <= before.len(),
                i <= self.frames@.len(),
                self@.frames.take(i as int) == before.take(seen).filter(alive),
                self@.frames.skip(i as int) == before.skip(seen),
            decreases self.frames@.len() - i,
        {
            let ghost prev = self@.frames;
            assert(prev.skip(i as int).len() == before.skip(seen).len());
            assert(before.take(seen + 1).drop_last() =~= before.take(seen));
            assert(before[seen] == before.skip(seen)[0]);
            assert(prev[i as int] == prev.skip(i as int)[0]);
            reveal_with_fuel(Seq::filter, 2);
            if self.frames[i].expires_at_ms <= now_ms {
                self.frames.remove(i);
                assert(self@.frames =~= prev.remove(i as int));
                assert(self@.frames.take(i as int) =~= prev.take(i as int));
                assert(self@.frames.skip(i as int) =~= prev.skip(i as int).skip(1));
            } else {
                i = i + 1;
                assert(self@.frames.take(i as int) =~= prev.take(i - 1).push(prev[i - 1]));
                assert(self@.frames.skip(i as int) =~= prev.skip(i - 1).skip(1));
            }
            proof {
                assert(before.skip(seen).skip(1) =~= before.skip(seen + 1));
                seen = seen + 1;
            }
        }
        proof {
            assert(self@.frames.skip(i as int).len() == 0);
            assert(seen == before.len());
            assert(before.take(seen) =~= before);
            assert(self@.frames.take(i as int) =~= self@.frames);
            lemma_unexpired(old(self)@, now_ms);
        }
    }
}

/// Dropping expired messages keeps the invariant.
pub proof fn lemma_unexpired(s: ReassemblerView, now_ms: u64)
    requires
        s.wf(),
    ensures
        (ReassemblerView { frames: unexpired(s.frames, now_ms), ..s }).wf(),
{
    let alive = |f: PendingView| f.expires_at_ms > now_ms;
    lemma_filter_distinct(s.frames, alive);
}

proof fn lemma_filter_distinct(frames: Seq<PendingView>, keep: spec_fn(PendingView) -> bool)
    requires
        distinct_ids(frames),
        forall|i: int| 0 <= i < frames.len() ==> (#[trigger] frames[i]).wf(),
    ensures
        distinct_ids(frames.filter(keep)),
        frames.filter(keep).len() <= frames.len(),
        forall|i: int|
            0 <= i < frames.filter(keep).len() ==> (#[trigger] frames.filter(keep)[i]).wf(),
        forall|id: u32| !waits_for(frames, id) ==> !waits_for(frames.filter(keep), id),
    decreases frames.len(),
{
    reveal_with_fuel(Seq::filter, 2);
    if frames.len() > 0 {
        let rest = frames.drop_last();
        let last = frames.last();
        lemma_filter_distinct(rest, keep);
        assert(!waits_for(rest, last.frame_id));
        assert(!waits_for(rest.filter(keep), last.frame_id));
        assert forall|id: u32| !waits_for(frames, id) implies !waits_for(frames.filter(keep), id) by {
            if waits_for(rest, id) {
                let i = position(rest, id);
                assert(frames[i].frame_id == id);
            }
            assert(frames[frames.len() - 1] == last);
        }
    }
}

/// An answer of a reassembler, with the message as a sequence of bytes.
pub open spec fn answer_view(r: Result<Option<Vec<u8>>, ProximityError>) -> Result<
    Option<Seq<u8>>,
    ProximityError,
> {
    match r {
        Ok(Some(message)) => Ok(Some(message@)),
        Ok(None) => Ok(None),
        Err(e) => Err(e),
    }
}

/// Taking a packet keeps the invariant.
proof fn lemma_taking_wf(s: ReassemblerView, header: PacketHeader, payload: Seq<u8>, now_ms: u64)
    requires
        s.wf(),
        header.index < header.total <= 4096,
    ensures
        s.taking(header, payload, now_ms).0.wf(),
{
    let new = PendingView::opened(header.frame_id, header.total, now_ms);
    let opened = if waits_for(s.frames, header.frame_id) {
        s.frames
    } else {
        s.frames.push(new)
    };
    if !waits_for(s.frames, header.frame_id) {
        assert(opened[s.frames.len() as int].frame_id == header.frame_id);
        assert(new.wf());
    }
    assert(distinct_ids(opened));
    assert(forall|i: int| 0 <= i < opened.len() ==> (#[trigger] opened[i]).wf());
    let at = position(opened, header.frame_id);
    assert(0 <= at < opened.len() && opened[at].frame_id == header.frame_id);
    if opened[at].admits(header, payload) {
        let frame = opened[at].with_part(header, payload);
        assert(frame.wf());
        let stored = opened.update(at, frame);
        assert(distinct_ids(stored));
        let kept = if stored.len() > s.capacity {
            stored.skip(stored.len() - s.capacity)
        } else {
            stored
        };
        assert(distinct_ids(kept));
        assert(forall|i: int| 0 <= i < kept.len() ==> (#[trigger] kept[i]).wf());
        let k = at - (stored.len() - kept.len());
        if stored.len() > s.capacity {
            assert(!waits_for(s.frames, header.frame_id));
            lemma_position(opened, s.frames.len() as int);
        }
        assert(kept[k] == frame);
        lemma_position(kept, k);
    }
}

/// Adding a packet keeps the invariant.
pub proof fn lemma_adding_wf(s: ReassemblerView, packet: Seq<u8>, now_ms: u64)
    requires
        s.wf(),
    ensures
        s.adding(packet, now_ms).0.wf(),
{
    lemma_unexpired(s, now_ms);
    let fresh = ReassemblerView { frames: unexpired(s.frames, now_ms), ..s };
    if let Some(header) = packet_header(packet) {
        lemma_taking_wf(fresh, header, packet_payload(packet), now_ms);
    }
}

/// Puts the parts of a complete message together.
fn join(frame: &PendingFrame) -> (message: Vec<u8>)
    requires
        frame@.wf(),
        frame@.is_complete(),
    ensures
        message@ == frame@.message(),
{
    let mut message: Vec<u8> = Vec::new();
    let mut index: usize = 0;
    while index < frame.total
        invariant
            frame@.is_complete(),
            index <= frame.total,
            message@ == joined(frame@.parts, index as nat),
        decreases frame.total - index,
    {
        assert(frame@.parts.contains_key(index));
        if let Some(part) = frame.parts.get(&index) {
            text::append_bytes(&mut message, part);
        } else {
            assert(false);
        }
        index = index + 1;
    }
    message
}

impl BleFrameReassembler {
    /// Where the message with an identifier stands.
    fn find(&self, frame_id: u32) -> (r: Option<usize>)
        ensures
            r matches Some(i) ==> i < self@.frames.len() && self@.frames[i as int].frame_id
                == frame_id,
            r is None ==> !waits_for(self@.frames, frame_id),
    {
        let mut i: usize = 0;
        while i < self.frames.len()
            invariant
                i <= self.frames@.len(),
                forall|j: int| 0 <= j < i ==> (#[trigger] self@.frames[j]).frame_id != frame_id,
            decreases self.frames@.len() - i,
        {
            assert(self@.frames[i as int] == self.frames@[i as int]@);
            if self.frames[i].frame_id == frame_id {
                return Some(i);
            }
            i = i + 1;
        }
        None
    }

    /// Takes one packet. The answer is the message that the packet completes, if it completes
    /// one, or a refusal.
    pub fn add(&mut self, packet: &[u8], now_ms: u64) -> (r: Result<
        Option<Vec<u8>>,
        ProximityError,
    >)
        requires
            old(self).wf(),
        ensures
            final(self).wf(),
            (final(self)@, answer_view(r)) == old(self)@.adding(packet@, now_ms),
    {
        broadcast use vstd::std_specs::btree::group_btree_axioms;

        proof {
            lemma_adding_wf(self@, packet@, now_ms);
        }
        self.expire(now_ms);
        let ghost fresh = self@;
        let header = match read_header(packet) {
            Some(header) => header,
            None => {
                return Err(ProximityError::InvalidFrame);
            },
        };
        let payload = vstd::slice::slice_subrange(packet, FRAME_HEADER_BYTES, packet.len());
        assert(payload@ =~= packet_payload(packet@));
        let ghost opened = if waits_for(fresh.frames, header.frame_id) {
            fresh.frames
        } else {
            fresh.frames.push(PendingView::opened(header.frame_id, header.total, now_ms))
        };
        let at: usize = match self.find(header.frame_id) {
            Some(i) => i,
            None => {
                let frame = PendingFrame {
                    frame_id: header.frame_id,
                    total: header.total,
                    expires_at_ms: now_ms.saturating_add(REASSEMBLY_TIMEOUT_MS),
                    byte_count: 0,
                    parts: BTreeMap::new(),
                };
                assert(frame@.parts =~= Map::empty());
                self.frames.push(frame);
                self.frames.len() - 1
            },
        };
        assert(self@.frames =~= opened);
        proof {
            assert(distinct_ids(opened));
            lemma_position(opened, at as int);
        }
        let mut frame = self.frames.remove(at);
        let ghost before = frame@;
        assert(before == opened[at as int]);
        assert(self@.frames =~= opened.remove(at as int));
        if frame.total != header.total || frame.parts.contains_key(&header.index)
            || payload.len() > MAX_ENCODED_ENVELOPE_BYTES - frame.byte_count {
            return Err(ProximityError::InvalidFrame);
        }
        frame.byte_count = frame.byte_count + payload.len();
        let mut part: Vec<u8> = Vec::new();
        text::append_bytes(&mut part, payload);
        assert(part@ =~= payload@);
        frame.parts.insert(header.index, part);
        assert(frame@.parts =~= before.parts.insert(header.index, payload@));
        assert(frame@ == before.with_part(header, payload@));
        let ghost stored = opened.update(at as int, frame@);
        let ghost kept = if stored.len() > fresh.capacity {
            stored.skip(stored.len() - fresh.capacity)
        } else {
            stored
        };
        proof {
            lemma_complete(frame@);
            assert(frame.parts@.dom() =~= frame@.parts.dom());
        }
        let mut place: usize = at;
        if self.frames.len() >= self.capacity {
            self.frames.remove(0);
            place = place - 1;
        }
        assert(self@.frames =~= kept.remove(place as int));
        proof {
            assert(distinct_ids(kept));
            assert(kept[place as int] == frame@);
            lemma_position(kept, place as int);
        }
        if frame.parts.len() == frame.total {
            return Ok(Some(join(&frame)));
        }
        self.frames.insert(place, frame);
        assert(self@.frames =~= kept);
        Ok(None)
    }
}

} // verus!
