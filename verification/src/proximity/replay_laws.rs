//! What holds of the replay guard over any number of envelopes.

use crate::proximity::envelope::EnvelopeView;
use crate::proximity::replay::{self, GuardView, ReplayDecision, SessionKey, SessionView};
use vstd::prelude::*;

verus! {

/// A verified envelope at the moment in which it is decided on.
pub struct Receipt {
    pub envelope: EnvelopeView,
    pub now_ms: u64,
    pub local_device_id: u128,
    pub expected_sender_device_id: u128,
}

/// What a guard makes of a receipt.
pub open spec fn decision(guard: GuardView, receipt: Receipt) -> ReplayDecision {
    guard.decision(
        receipt.envelope,
        receipt.now_ms,
        receipt.local_device_id,
        receipt.expected_sender_device_id,
    )
}

/// The guard after a receipt.
pub open spec fn step(guard: GuardView, receipt: Receipt) -> GuardView {
    guard.after(receipt.envelope, decision(guard, receipt))
}

/// The guard after receipts, one after the other.
pub open spec fn steps(guard: GuardView, receipts: Seq<Receipt>) -> GuardView
    decreases receipts.len(),
{
    if receipts.len() == 0 {
        guard
    } else {
        steps(step(guard, receipts[0]), receipts.drop_first())
    }
}

/// How many of the receipts are accepted.
pub open spec fn accepted(guard: GuardView, receipts: Seq<Receipt>) -> nat
    decreases receipts.len(),
{
    if receipts.len() == 0 {
        0
    } else {
        accepted(step(guard, receipts[0]), receipts.drop_first()) + (if decision(guard, receipts[0])
            == ReplayDecision::Accepted {
            1nat
        } else {
            0nat
        })
    }
}

/// Receipts keep the guard bounded.
pub proof fn steps_keep_the_guard_bounded(guard: GuardView, receipts: Seq<Receipt>)
    requires
        guard.wf(),
    ensures
        steps(guard, receipts).wf(),
        steps(guard, receipts).capacity == guard.capacity,
    decreases receipts.len(),
{
    if receipts.len() > 0 {
        lemma_step_wf(guard, receipts[0]);
        steps_keep_the_guard_bounded(step(guard, receipts[0]), receipts.drop_first());
    }
}

proof fn lemma_step_wf(guard: GuardView, receipt: Receipt)
    requires
        guard.wf(),
    ensures
        step(guard, receipt).wf(),
        step(guard, receipt).capacity == guard.capacity,
{
    let next = step(guard, receipt);
    if decision(guard, receipt) == ReplayDecision::Accepted {
        let e = receipt.envelope;
        let key = replay::session_of(e);
        replay::lemma_session_position(guard.sessions, key);
        let all = guard.messages.push(e.message_id);
        assert forall|i: int, j: int|
            0 <= i < next.messages.len() && 0 <= j < next.messages.len() && i
                != j implies next.messages[i] != next.messages[j] by {
            let d = all.len() - next.messages.len();
            assert(next.messages[i] == all[i + d]);
            assert(next.messages[j] == all[j + d]);
            if i + d == guard.messages.len() {
                assert(guard.messages[j + d] == next.messages[j]);
            } else if j + d == guard.messages.len() {
                assert(guard.messages[i + d] == next.messages[i]);
            }
        }
        let p = replay::session_position(guard.sessions, key);
        assert forall|i: int, j: int| 0 <= i < j < next.sessions.len() implies #[trigger] next.sessions[i].key
            != #[trigger] next.sessions[j].key by {
            if p < guard.sessions.len() {
                assert(guard.sessions[i].key != guard.sessions[j].key);
            } else {
                let record = SessionView { key, last_sequence: e.sequence };
                let list = guard.sessions.push(record);
                let d = list.len() - next.sessions.len();
                assert(next.sessions[i] == list[i + d]);
                assert(next.sessions[j] == list[j + d]);
                assert(guard.sessions[i + d].key == list[i + d].key);
                if j + d < guard.sessions.len() {
                    assert(guard.sessions[j + d].key == list[j + d].key);
                }
            }
        }
    }
}

/// A remembered message is not accepted again, whatever else the envelope says.
pub proof fn remembered_messages_are_refused(guard: GuardView, receipt: Receipt)
    requires
        guard.messages.contains(receipt.envelope.message_id),
    ensures
        decision(guard, receipt) != ReplayDecision::Accepted,
        step(guard, receipt) == guard,
{
}

/// An accepted message is refused from then on, at least until as many others were accepted as
/// the guard has room for.
pub proof fn accepted_messages_are_not_accepted_twice(
    guard: GuardView,
    first: Receipt,
    between: Seq<Receipt>,
    again: Receipt,
)
    requires
        guard.wf(),
        decision(guard, first) == ReplayDecision::Accepted,
        again.envelope.message_id == first.envelope.message_id,
        accepted(step(guard, first), between) < guard.capacity,
    ensures
        decision(steps(step(guard, first), between), again) != ReplayDecision::Accepted,
{
    let next = step(guard, first);
    lemma_step_wf(guard, first);
    assert(next.messages.last() == first.envelope.message_id);
    lemma_stays(next, between, next.messages.len() - 1);
}

/// A message at some distance from the end stays for that many receipts fewer.
proof fn lemma_stays(guard: GuardView, receipts: Seq<Receipt>, i: int)
    requires
        guard.wf(),
        0 <= i < guard.messages.len(),
        guard.messages.len() - i + accepted(guard, receipts) <= guard.capacity,
    ensures
        steps(guard, receipts).messages.contains(guard.messages[i]),
    decreases receipts.len(),
{
    let id = guard.messages[i];
    if receipts.len() > 0 {
        let receipt = receipts[0];
        let next = step(guard, receipt);
        lemma_step_wf(guard, receipt);
        if decision(guard, receipt) == ReplayDecision::Accepted {
            let all = guard.messages.push(receipt.envelope.message_id);
            assert(all[i] == id);
            let d = all.len() - next.messages.len();
            assert(next.messages[i - d] == id);
            lemma_stays(next, receipts.drop_first(), i - d);
        } else {
            lemma_stays(next, receipts.drop_first(), i);
        }
    }
}

/// Whether a session is remembered.
pub open spec fn remembers(guard: GuardView, key: SessionKey) -> bool {
    replay::session_position(guard.sessions, key) < guard.sessions.len()
}

/// An accepted envelope moves its session on: its sequence number is larger than the last one,
/// and becomes the last one.
pub proof fn accepted_sequences_grow(guard: GuardView, receipt: Receipt)
    requires
        guard.wf(),
        decision(guard, receipt) == ReplayDecision::Accepted,
    ensures
        guard.last_sequence(replay::session_of(receipt.envelope)) < receipt.envelope.sequence,
        remembers(step(guard, receipt), replay::session_of(receipt.envelope)),
        step(guard, receipt).last_sequence(replay::session_of(receipt.envelope))
            == receipt.envelope.sequence,
{
    let key = replay::session_of(receipt.envelope);
    let next = step(guard, receipt);
    let p = replay::session_position(guard.sessions, key);
    replay::lemma_session_position(guard.sessions, key);
    let i = if p < guard.sessions.len() {
        p
    } else {
        next.sessions.len() - 1
    };
    lemma_step_wf(guard, receipt);
    assert(next.sessions[i].key == key);
    lemma_found(next, key, i);
}

proof fn lemma_found(guard: GuardView, key: SessionKey, i: int)
    requires
        guard.wf(),
        0 <= i < guard.sessions.len(),
        guard.sessions[i].key == key,
    ensures
        replay::session_position(guard.sessions, key) == i,
{
    replay::lemma_session_position(guard.sessions, key);
    let p = replay::session_position(guard.sessions, key);
    if p < i {
        assert(guard.sessions[p].key != guard.sessions[i].key);
    }
}

/// No receipt sets a session back: as long as the guard remembers the session, the last sequence
/// number never becomes smaller.
pub proof fn sequences_never_shrink(guard: GuardView, receipt: Receipt, key: SessionKey)
    requires
        guard.wf(),
        remembers(guard, key),
        remembers(step(guard, receipt), key),
    ensures
        guard.last_sequence(key) <= step(guard, receipt).last_sequence(key),
{
    let next = step(guard, receipt);
    if decision(guard, receipt) == ReplayDecision::Accepted {
        let moved = replay::session_of(receipt.envelope);
        if key == moved {
            accepted_sequences_grow(guard, receipt);
        } else {
            lemma_step_wf(guard, receipt);
            let i = replay::session_position(guard.sessions, key);
            let p = replay::session_position(guard.sessions, moved);
            let q = replay::session_position(next.sessions, key);
            replay::lemma_session_position(guard.sessions, key);
            replay::lemma_session_position(guard.sessions, moved);
            replay::lemma_session_position(next.sessions, key);
            if p < guard.sessions.len() {
                assert(next.sessions[i] == guard.sessions[i]);
                lemma_found(next, key, i);
            } else {
                let record = SessionView { key: moved, last_sequence: receipt.envelope.sequence };
                let list = guard.sessions.push(record);
                let d = list.len() - next.sessions.len();
                assert(next.sessions[q] == list[q + d]);
                assert(guard.sessions[q + d].key == key);
                lemma_found(guard, key, q + d);
            }
        }
    }
}

/// How many of the receipts begin a session that the guard does not remember.
pub open spec fn begun(guard: GuardView, receipts: Seq<Receipt>) -> nat
    decreases receipts.len(),
{
    if receipts.len() == 0 {
        0
    } else {
        let begins = decision(guard, receipts[0]) == ReplayDecision::Accepted && !remembers(
            guard,
            replay::session_of(receipts[0].envelope),
        );
        begun(step(guard, receipts[0]), receipts.drop_first()) + (if begins {
            1nat
        } else {
            0nat
        })
    }
}

/// How many sessions may begin before a remembered one is forgotten: the guard forgets the session
/// that began first.
pub open spec fn room_behind(guard: GuardView, key: SessionKey) -> int {
    guard.capacity - (guard.sessions.len() - replay::session_position(guard.sessions, key))
}

/// Within a session sequence numbers only grow: after an envelope was accepted, none of its
/// session with the same or a smaller number is accepted, until so many other sessions have begun
/// that the session is forgotten.
pub proof fn sessions_only_move_on(
    guard: GuardView,
    first: Receipt,
    between: Seq<Receipt>,
    later: Receipt,
)
    requires
        guard.wf(),
        decision(guard, first) == ReplayDecision::Accepted,
        replay::session_of(later.envelope) == replay::session_of(first.envelope),
        later.envelope.sequence <= first.envelope.sequence,
        begun(step(guard, first), between) <= room_behind(
            step(guard, first),
            replay::session_of(first.envelope),
        ),
    ensures
        decision(steps(step(guard, first), between), later) != ReplayDecision::Accepted,
{
    let next = step(guard, first);
    let key = replay::session_of(first.envelope);
    accepted_sequences_grow(guard, first);
    lemma_step_wf(guard, first);
    replay::lemma_session_position(guard.sessions, key);
    replay::lemma_session_position(next.sessions, key);
    lemma_session_stays(next, between, replay::session_position(next.sessions, key));
}

/// A session at some distance from the end stays for that many begun sessions fewer, and does not
/// move back.
proof fn lemma_session_stays(guard: GuardView, receipts: Seq<Receipt>, i: int)
    requires
        guard.wf(),
        0 <= i < guard.sessions.len(),
        guard.sessions.len() - i + begun(guard, receipts) <= guard.capacity,
    ensures
        remembers(steps(guard, receipts), guard.sessions[i].key),
        guard.sessions[i].last_sequence <= steps(guard, receipts).last_sequence(
            guard.sessions[i].key,
        ),
    decreases receipts.len(),
{
    let key = guard.sessions[i].key;
    lemma_found(guard, key, i);
    if receipts.len() > 0 {
        let receipt = receipts[0];
        let next = step(guard, receipt);
        lemma_step_wf(guard, receipt);
        if decision(guard, receipt) == ReplayDecision::Accepted {
            let moved = replay::session_of(receipt.envelope);
            let p = replay::session_position(guard.sessions, moved);
            replay::lemma_session_position(guard.sessions, moved);
            let j = if p < guard.sessions.len() {
                i
            } else {
                let record = SessionView { key: moved, last_sequence: receipt.envelope.sequence };
                let list = guard.sessions.push(record);
                assert(list[i] == guard.sessions[i]);
                i - (list.len() - next.sessions.len())
            };
            assert(next.sessions[j].key == key);
            lemma_found(next, key, j);
            sequences_never_shrink(guard, receipt, key);
            lemma_session_stays(next, receipts.drop_first(), j);
        } else {
            lemma_session_stays(next, receipts.drop_first(), i);
        }
    }
}

} // verus!
