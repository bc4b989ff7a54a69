//! The replay guard: no message twice, no step back within a session.

use crate::proximity::envelope::{self, ProximityEnvelope};
use crate::proximity::ProximityError;
use crate::text;
use std::collections::{HashSet, VecDeque};
use vstd::prelude::*;

verus! {

broadcast use vstd::std_specs::hash::group_hash_axioms;

/// What the guard makes of a verified envelope.
#[derive(Clone, Copy, Debug, PartialEq, Eq, Structural)]
pub enum ReplayDecision {
    Accepted,
    Duplicate,
    OutOfOrder,
    Expired,
    FromFuture,
    WrongRecipient,
    WrongSender,
    Invalid,
}

/// A session and the last sequence number that was accepted in it.
struct SessionRecord {
    sender_device_id: u128,
    recipient_device_id: u128,
    session_id: String,
    last_sequence: u32,
}

/// A session: from whom, to whom, and its name.
#[verifier::ext_equal]
pub struct SessionKey {
    pub sender_device_id: u128,
    pub recipient_device_id: u128,
    pub session_id: Seq<char>,
}

/// What the guard remembers of a session.
#[verifier::ext_equal]
pub struct SessionView {
    pub key: SessionKey,
    pub last_sequence: u32,
}

impl View for SessionRecord {
    type V = SessionView;

    closed spec fn view(&self) -> SessionView {
        SessionView {
            key: SessionKey {
                sender_device_id: self.sender_device_id,
                recipient_device_id: self.recipient_device_id,
                session_id: self.session_id@,
            },
            last_sequence: self.last_sequence,
        }
    }
}

/// Remembers a bounded number of messages and sessions.
pub struct ProximityReplayGuard {
    capacity: usize,
    seen: HashSet<u128>,
    order: VecDeque<u128>,
    sessions: Vec<SessionRecord>,
}

/// What the guard remembers: accepted messages, and sessions in the order in which they began,
/// the oldest first.
#[verifier::ext_equal]
pub struct GuardView {
    pub capacity: nat,
    pub messages: Seq<u128>,
    pub sessions: Seq<SessionView>,
}

/// The session of an envelope.
pub open spec fn session_of(envelope: envelope::EnvelopeView) -> SessionKey {
    SessionKey {
        sender_device_id: envelope.sender_device_id,
        recipient_device_id: envelope.recipient_device_id,
        session_id: envelope.session_id,
    }
}

/// The position of a session in a list, or the length of the list.
pub open spec fn session_position(sessions: Seq<SessionView>, key: SessionKey) -> int
    decreases sessions.len(),
{
    if sessions.len() == 0 {
        0
    } else if sessions[0].key == key {
        0
    } else {
        1 + session_position(sessions.drop_first(), key)
    }
}

/// The last items of a list, as many as the capacity allows.
pub open spec fn newest<T>(list: Seq<T>, capacity: nat) -> Seq<T> {
    if list.len() > capacity {
        list.skip(list.len() - capacity)
    } else {
        list
    }
}

impl GuardView {
    /// The last sequence number accepted in a session, 0 where none is remembered.
    pub open spec fn last_sequence(self, key: SessionKey) -> u32 {
        let i = session_position(self.sessions, key);
        if i < self.sessions.len() {
            self.sessions[i].last_sequence
        } else {
            0
        }
    }

    /// What the guard makes of an envelope.
    pub open spec fn decision(
        self,
        envelope: envelope::EnvelopeView,
        now_ms: u64,
        local_device_id: u128,
        expected_sender_device_id: u128,
    ) -> ReplayDecision {
        if envelope.structure_error() is Some {
            ReplayDecision::Invalid
        } else if envelope.recipient_device_id != local_device_id {
            ReplayDecision::WrongRecipient
        } else if envelope.sender_device_id != expected_sender_device_id {
            ReplayDecision::WrongSender
        } else if envelope.time_error(now_ms) == Some(ProximityError::FromFuture) {
            ReplayDecision::FromFuture
        } else if envelope.time_error(now_ms) == Some(ProximityError::Expired) {
            ReplayDecision::Expired
        } else if self.messages.contains(envelope.message_id) {
            ReplayDecision::Duplicate
        } else if envelope.sequence <= self.last_sequence(session_of(envelope)) {
            ReplayDecision::OutOfOrder
        } else {
            ReplayDecision::Accepted
        }
    }

    /// What the guard remembers after a decision: the envelope, where it was accepted.
    pub open spec fn after(
        self,
        envelope: envelope::EnvelopeView,
        decision: ReplayDecision,
    ) -> GuardView {
        if decision == ReplayDecision::Accepted {
            let key = session_of(envelope);
            let record = SessionView { key, last_sequence: envelope.sequence };
            let i = session_position(self.sessions, key);
            GuardView {
                capacity: self.capacity,
                messages: newest(self.messages.push(envelope.message_id), self.capacity),
                sessions: if i < self.sessions.len() {
                    self.sessions.update(i, record)
                } else {
                    newest(self.sessions.push(record), self.capacity)
                },
            }
        } else {
            self
        }
    }

    /// Bounded, without a message or a session that is there twice.
    pub open spec fn wf(self) -> bool {
        &&& 16 <= self.capacity <= 4096
        &&& self.messages.len() <= self.capacity
        &&& self.messages.no_duplicates()
        &&& self.sessions.len() <= self.capacity
        &&& forall|i: int, j: int|
            0 <= i < j < self.sessions.len() ==> #[trigger] self.sessions[i].key
                != #[trigger] self.sessions[j].key
    }
}

impl View for ProximityReplayGuard {
    type V = GuardView;

    closed spec fn view(&self) -> GuardView {
        GuardView {
            capacity: self.capacity as nat,
            messages: self.order@,
            sessions: self.sessions@.map_values(|s: SessionRecord| s@),
        }
    }
}

/// What `session_position` finds.
pub proof fn lemma_session_position(sessions: Seq<SessionView>, key: SessionKey)
    ensures
        0 <= session_position(sessions, key) <= sessions.len(),
        forall|j: int|
            0 <= j < session_position(sessions, key) ==> #[trigger] sessions[j].key != key,
        session_position(sessions, key) < sessions.len() ==> sessions[session_position(
            sessions,
            key,
        )].key == key,
    decreases sessions.len(),
{
    if sessions.len() > 0 && sessions[0].key != key {
        let rest = sessions.drop_first();
        lemma_session_position(rest, key);
        assert forall|j: int| 0 <= j < session_position(sessions, key) implies #[trigger] sessions[j].key
            != key by {
            if j > 0 {
                assert(rest[j - 1] == sessions[j]);
            }
        }
    }
}

/// A session that stands at an index, and before it nowhere, is found there.
proof fn lemma_session_found(sessions: Seq<SessionView>, key: SessionKey, i: int)
    requires
        0 <= i <= sessions.len(),
        forall|j: int| 0 <= j < i ==> #[trigger] sessions[j].key != key,
        i < sessions.len() ==> sessions[i].key == key,
    ensures
        session_position(sessions, key) == i,
{
    lemma_session_position(sessions, key);
    let p = session_position(sessions, key);
    if p < i {
        assert(sessions[p].key != key);
    } else if i < p {
        assert(sessions[i].key != key);
    }
}

impl ProximityReplayGuard {
    /// Bounded, and what is found quickly is what is remembered.
    pub closed spec fn wf(&self) -> bool {
        &&& self@.wf()
        &&& self.seen@ == self.order@.to_set()
    }

    /// The contents of a well-formed guard are well-formed.
    pub proof fn wf_gives_view(&self)
        requires
            self.wf(),
        ensures
            self@.wf(),
    {
    }

    /// A guard that remembers nothing yet.
    pub fn new(capacity: usize) -> (r: Result<Self, ProximityError>)
        ensures
            r is Ok <==> 16 <= capacity <= 4096,
            r matches Ok(guard) ==> guard.wf() && guard@ == (GuardView {
                capacity: capacity as nat,
                messages: Seq::empty(),
                sessions: Seq::empty(),
            }),
            r matches Err(e) ==> e == ProximityError::InvalidCapacity,
    {
        if capacity < 16 || capacity > 4096 {
            return Err(ProximityError::InvalidCapacity);
        }
        let guard = ProximityReplayGuard {
            capacity,
            seen: HashSet::new(),
            order: VecDeque::new(),
            sessions: Vec::new(),
        };
        proof {
            assert(guard@.sessions =~= Seq::empty());
            assert(guard.seen@ =~= guard.order@.to_set());
        }
        Ok(guard)
    }

    /// The position of a session, or the number of sessions.
    fn find(&self, envelope: &ProximityEnvelope) -> (i: usize)
        ensures
            i == session_position(self@.sessions, session_of(envelope@)),
    {
        let mut i: usize = 0;
        while i < self.sessions.len()
            invariant
                i <= self.sessions@.len(),
                forall|j: int|
                    0 <= j < i ==> #[trigger] self@.sessions[j].key != session_of(envelope@),
            decreases self.sessions@.len() - i,
        {
            let record = &self.sessions[i];
            assert(self@.sessions[i as int] == record@);
            if record.sender_device_id == envelope.sender_device_id && record.recipient_device_id
                == envelope.recipient_device_id && text::same_text(
                record.session_id.as_str(),
                envelope.session_id.as_str(),
            ) {
                assert(self@.sessions[i as int].key =~= session_of(envelope@));
                proof {
                    lemma_session_found(self@.sessions, session_of(envelope@), i as int);
                }
                return i;
            }
            i = i + 1;
        }
        proof {
            lemma_session_found(self@.sessions, session_of(envelope@), i as int);
        }
        i
    }

    /// What the guard would make of an envelope, if its digest and signature were verified.
    /// Nothing is remembered.
    pub fn decide(
        &self,
        envelope: &ProximityEnvelope,
        now_ms: u64,
        local_device_id: u128,
        expected_sender_device_id: u128,
    ) -> (d: ReplayDecision)
        requires
            self.wf(),
        ensures
            d == self@.decision(envelope@, now_ms, local_device_id, expected_sender_device_id),
    {
        if envelope.validate_structure().is_err() {
            return ReplayDecision::Invalid;
        }
        if envelope.recipient_device_id != local_device_id {
            return ReplayDecision::WrongRecipient;
        }
        if envelope.sender_device_id != expected_sender_device_id {
            return ReplayDecision::WrongSender;
        }
        match envelope.validate_time(now_ms) {
            Err(ProximityError::Expired) => {
                return ReplayDecision::Expired;
            },
            Err(ProximityError::FromFuture) => {
                return ReplayDecision::FromFuture;
            },
            Err(_) => {
                return ReplayDecision::Invalid;
            },
            Ok(()) => {},
        }
        if self.seen.contains(&envelope.message_id) {
            return ReplayDecision::Duplicate;
        }
        let position: usize = self.find(envelope);
        let last: u32 = if position < self.sessions.len() {
            self.sessions[position].last_sequence
        } else {
            0
        };
        if envelope.sequence <= last {
            return ReplayDecision::OutOfOrder;
        }
        ReplayDecision::Accepted
    }

    /// Decides on an envelope whose digest and signature were verified, and remembers it where it
    /// is accepted.
    pub(crate) fn accept_verified(
        &mut self,
        envelope: &ProximityEnvelope,
        now_ms: u64,
        local_device_id: u128,
        expected_sender_device_id: u128,
    ) -> (d: ReplayDecision)
        requires
            old(self).wf(),
        ensures
            final(self).wf(),
            d == old(self)@.decision(
                envelope@,
                now_ms,
                local_device_id,
                expected_sender_device_id,
            ),
            final(self)@ == old(self)@.after(envelope@, d),
    {
        let decision = self.decide(envelope, now_ms, local_device_id, expected_sender_device_id);
        if decision == ReplayDecision::Accepted {
            let position: usize = self.find(envelope);
            self.remember_session(envelope, position);
            self.remember_message(envelope.message_id);
        }
        decision
    }

    /// Moves a session on, or begins it and forgets the oldest one.
    fn remember_session(&mut self, envelope: &ProximityEnvelope, position: usize)
        requires
            old(self).wf(),
            position == session_position(old(self)@.sessions, session_of(envelope@)),
        ensures
            final(self).wf(),
            final(self)@.capacity == old(self)@.capacity,
            final(self)@.messages == old(self)@.messages,
            final(self)@.sessions == ({
                let record = SessionView {
                    key: session_of(envelope@),
                    last_sequence: envelope@.sequence,
                };
                if position < old(self)@.sessions.len() {
                    old(self)@.sessions.update(position as int, record)
                } else {
                    newest(old(self)@.sessions.push(record), old(self)@.capacity)
                }
            }),
    {
        let ghost before = self@.sessions;
        let ghost record = SessionView {
            key: session_of(envelope@),
            last_sequence: envelope@.sequence,
        };
        proof {
            lemma_session_position(before, session_of(envelope@));
        }
        if position < self.sessions.len() {
            let session_id = self.sessions[position].session_id.clone();
            self.sessions.set(
                position,
                SessionRecord {
                    sender_device_id: envelope.sender_device_id,
                    recipient_device_id: envelope.recipient_device_id,
                    session_id,
                    last_sequence: envelope.sequence,
                },
            );
            assert(self@.sessions[position as int].key =~= before[position as int].key);
            assert(self@.sessions =~= before.update(position as int, record));
        } else {
            self.sessions.push(
                SessionRecord {
                    sender_device_id: envelope.sender_device_id,
                    recipient_device_id: envelope.recipient_device_id,
                    session_id: envelope.session_id.clone(),
                    last_sequence: envelope.sequence,
                },
            );
            assert(self@.sessions =~= before.push(record));
            if self.sessions.len() > self.capacity {
                self.sessions.remove(0);
                assert(self@.sessions =~= before.push(record).skip(1));
            }
        }
    }

    /// Remembers a message that was not remembered, and forgets the oldest one.
    fn remember_message(&mut self, message_id: u128)
        requires
            old(self).wf(),
            !old(self)@.messages.contains(message_id),
        ensures
            final(self).wf(),
            final(self)@.capacity == old(self)@.capacity,
            final(self)@.sessions == old(self)@.sessions,
            final(self)@.messages == newest(
                old(self)@.messages.push(message_id),
                old(self)@.capacity,
            ),
    {
        let ghost before = self.order@;
        self.seen.insert(message_id);
        self.order.push_back(message_id);
        let ghost all = self.order@;
        proof {
            assert(all.to_set() =~= before.to_set().insert(message_id)) by {
                assert forall|x: u128| all.contains(x) == (before.contains(x) || x == message_id) by {
                    if before.contains(x) {
                        let i = choose|i: int| 0 <= i < before.len() && before[i] == x;
                        assert(all[i] == x);
                    }
                    assert(all[before.len() as int] == message_id);
                    if all.contains(x) {
                        let i = choose|i: int| 0 <= i < all.len() && all[i] == x;
                        if i < before.len() {
                            assert(before[i] == x);
                        }
                    }
                }
            }
        }
        if self.order.len() > self.capacity {
            if let Some(oldest) = self.order.pop_front() {
                self.seen.remove(&oldest);
                proof {
                    let rest = self.order@;
                    assert(rest =~= all.skip(1));
                    assert(rest.to_set() =~= all.to_set().remove(oldest)) by {
                        assert forall|x: u128| rest.contains(x) == (all.contains(x) && x != oldest) by {
                            if rest.contains(x) {
                                let i = choose|i: int| 0 <= i < rest.len() && rest[i] == x;
                                assert(all[i + 1] == x);
                            }
                            if all.contains(x) && x != oldest {
                                let i = choose|i: int| 0 <= i < all.len() && all[i] == x;
                                assert(rest[i - 1] == x);
                            }
                        }
                    }
                }
            }
        }
        assert(self.seen@ =~= self.order@.to_set());
    }
}

} // verus!
