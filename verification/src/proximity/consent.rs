//! Consent: both users confirm the code, then each offer is approved once.

use crate::proximity::{self, ProximityError};
use crate::text;
use vstd::hash_set::StringHashSet;
use vstd::prelude::*;

verus! {

/// Where the consent of the users stands.
#[derive(Clone, Copy, Debug, PartialEq, Eq, Structural)]
pub enum ConsentState {
    Idle,
    ComparingCode,
    Ready,
    AwaitingConsent,
    Closed,
}

/// Admits an offer only after both users confirmed the code and the user approved that offer.
pub struct ProximityConsentGate {
    state: ConsentState,
    local_code_accepted: bool,
    remote_code_accepted: bool,
    pending_offer: Option<String>,
    consumed_offers: StringHashSet,
}

/// The contents of a gate.
#[verifier::ext_equal]
pub struct GateView {
    pub state: ConsentState,
    pub local_code_accepted: bool,
    pub remote_code_accepted: bool,
    pub pending_offer: Option<Seq<char>>,
    pub consumed_offers: Set<Seq<char>>,
}

impl View for ProximityConsentGate {
    type V = GateView;

    closed spec fn view(&self) -> GateView {
        GateView {
            state: self.state,
            local_code_accepted: self.local_code_accepted,
            remote_code_accepted: self.remote_code_accepted,
            pending_offer: match self.pending_offer {
                Some(offer) => Some(offer@),
                None => None,
            },
            consumed_offers: self.consumed_offers@,
        }
    }
}

impl GateView {
    /// The consent before anything happened.
    pub open spec fn initial() -> GateView {
        GateView {
            state: ConsentState::Idle,
            local_code_accepted: false,
            remote_code_accepted: false,
            pending_offer: None,
            consumed_offers: Set::empty(),
        }
    }

    /// The consent after the comparison of the code began, where it can begin.
    pub open spec fn beginning(self) -> Option<GateView> {
        if self.state == ConsentState::Idle {
            Some(GateView { state: ConsentState::ComparingCode, ..self })
        } else {
            None
        }
    }

    /// The consent after one side confirmed the code, where it can.
    pub open spec fn confirming(self, local: bool) -> Option<GateView> {
        if self.state == ConsentState::ComparingCode {
            let local_code_accepted = self.local_code_accepted || local;
            let remote_code_accepted = self.remote_code_accepted || !local;
            Some(
                GateView {
                    state: if local_code_accepted && remote_code_accepted {
                        ConsentState::Ready
                    } else {
                        ConsentState::ComparingCode
                    },
                    local_code_accepted,
                    remote_code_accepted,
                    ..self
                },
            )
        } else {
            None
        }
    }

    /// The consent after an offer was presented, where it can be.
    pub open spec fn presenting(self, offer_id: Seq<char>) -> Option<GateView> {
        if self.state == ConsentState::Ready && proximity::is_bounded_identifier(offer_id, 128)
            && !self.consumed_offers.contains(offer_id) {
            Some(
                GateView {
                    state: ConsentState::AwaitingConsent,
                    pending_offer: Some(offer_id),
                    ..self
                },
            )
        } else {
            None
        }
    }

    /// The consent after an offer was approved, where it can be.
    pub open spec fn approving(self, offer_id: Seq<char>) -> Option<GateView> {
        if self.state == ConsentState::AwaitingConsent && self.pending_offer == Some(offer_id)
            && !self.consumed_offers.contains(offer_id) {
            Some(
                GateView {
                    state: ConsentState::Ready,
                    pending_offer: None,
                    consumed_offers: self.consumed_offers.insert(offer_id),
                    ..self
                },
            )
        } else {
            None
        }
    }

    /// The consent after it was closed.
    pub open spec fn closing(self) -> GateView {
        GateView {
            state: ConsentState::Closed,
            local_code_accepted: false,
            remote_code_accepted: false,
            pending_offer: None,
            ..self
        }
    }
}

/// Whether a transition was made, or refused and nothing changed.
pub open spec fn follows(
    r: Result<(), ProximityError>,
    before: GateView,
    after: GateView,
    next: Option<GateView>,
) -> bool {
    match next {
        Some(gate) => r is Ok && after == gate,
        None => r == Err::<(), ProximityError>(ProximityError::ConsentState) && after == before,
    }
}

impl Default for ProximityConsentGate {
    fn default() -> (gate: Self)
        ensures
            gate@ == GateView::initial(),
    {
        let gate = ProximityConsentGate {
            state: ConsentState::Idle,
            local_code_accepted: false,
            remote_code_accepted: false,
            pending_offer: None,
            consumed_offers: StringHashSet::new(),
        };
        assert(gate@ =~= GateView::initial());
        gate
    }
}

impl ProximityConsentGate {
    /// Where the consent stands.
    pub fn state(&self) -> (s: ConsentState)
        ensures
            s == self@.state,
    {
        self.state
    }

    /// Begins the comparison of the code.
    pub fn begin_code_comparison(&mut self) -> (r: Result<(), ProximityError>)
        ensures
            follows(r, old(self)@, final(self)@, old(self)@.beginning()),
    {
        if self.state != ConsentState::Idle {
            return Err(ProximityError::ConsentState);
        }
        self.state = ConsentState::ComparingCode;
        Ok(())
    }

    /// Notes that one side confirmed the code.
    pub fn confirm_code(&mut self, local: bool) -> (r: Result<(), ProximityError>)
        ensures
            follows(r, old(self)@, final(self)@, old(self)@.confirming(local)),
    {
        if self.state != ConsentState::ComparingCode {
            return Err(ProximityError::ConsentState);
        }
        if local {
            self.local_code_accepted = true;
        } else {
            self.remote_code_accepted = true;
        }
        if self.local_code_accepted && self.remote_code_accepted {
            self.state = ConsentState::Ready;
        }
        Ok(())
    }

    /// Presents an offer to the user.
    pub fn present_offer(&mut self, offer_id: &str) -> (r: Result<(), ProximityError>)
        ensures
            follows(r, old(self)@, final(self)@, old(self)@.presenting(offer_id@)),
    {
        if self.state != ConsentState::Ready || !proximity::bounded_identifier(offer_id, 128)
            || self.consumed_offers.contains(offer_id) {
            return Err(ProximityError::ConsentState);
        }
        self.pending_offer = Some(offer_id.to_owned());
        self.state = ConsentState::AwaitingConsent;
        Ok(())
    }

    /// Approves the presented offer, once.
    pub fn approve_once(&mut self, offer_id: &str) -> (approved: bool)
        ensures
            match old(self)@.approving(offer_id@) {
                Some(gate) => approved && final(self)@ == gate,
                None => !approved && final(self)@ == old(self)@,
            },
    {
        let pending = match &self.pending_offer {
            Some(offer) => text::same_text(offer.as_str(), offer_id),
            None => false,
        };
        if self.state != ConsentState::AwaitingConsent || !pending || self.consumed_offers.contains(
            offer_id,
        ) {
            return false;
        }
        self.consumed_offers.insert(offer_id.to_owned());
        self.pending_offer = None;
        self.state = ConsentState::Ready;
        true
    }

    /// Closes for good.
    pub fn close(&mut self)
        ensures
            final(self)@ == old(self)@.closing(),
    {
        self.pending_offer = None;
        self.local_code_accepted = false;
        self.remote_code_accepted = false;
        self.state = ConsentState::Closed;
    }
}

/// What can happen to the consent.
pub enum GateEvent {
    Begin,
    Confirm { local: bool },
    Present { offer_id: Seq<char> },
    Approve { offer_id: Seq<char> },
    Close,
}

/// The consent after an event: as it was, where the event is refused.
pub open spec fn gate_step(gate: GateView, event: GateEvent) -> GateView {
    let next = match event {
        GateEvent::Begin => gate.beginning(),
        GateEvent::Confirm { local } => gate.confirming(local),
        GateEvent::Present { offer_id } => gate.presenting(offer_id),
        GateEvent::Approve { offer_id } => gate.approving(offer_id),
        GateEvent::Close => Some(gate.closing()),
    };
    match next {
        Some(after) => after,
        None => gate,
    }
}

/// The consent after events, one after the other.
pub open spec fn gate_steps(gate: GateView, events: Seq<GateEvent>) -> GateView
    decreases events.len(),
{
    if events.len() == 0 {
        gate
    } else {
        gate_steps(gate_step(gate, events[0]), events.drop_first())
    }
}

/// Whether the offer is approved in the course of the events, and how often.
pub open spec fn approvals(gate: GateView, events: Seq<GateEvent>, offer_id: Seq<char>) -> nat
    decreases events.len(),
{
    if events.len() == 0 {
        0
    } else {
        approvals(gate_step(gate, events[0]), events.drop_first(), offer_id) + (if events[0] == (
        GateEvent::Approve { offer_id }) && gate.approving(offer_id) is Some {
            1nat
        } else {
            0nat
        })
    }
}

/// What holds of every gate: an offer is only taken where both sides confirmed the code, one
/// offer waits exactly while the user is asked, and it was not approved before.
pub open spec fn gate_invariant(gate: GateView) -> bool {
    &&& gate.state == ConsentState::Ready || gate.state == ConsentState::AwaitingConsent
        ==> gate.local_code_accepted && gate.remote_code_accepted
    &&& gate.state == ConsentState::ComparingCode ==> !(gate.local_code_accepted
        && gate.remote_code_accepted)
    &&& gate.state == ConsentState::Idle || gate.state == ConsentState::Closed
        ==> !gate.local_code_accepted && !gate.remote_code_accepted
    &&& gate.pending_offer is Some <==> gate.state == ConsentState::AwaitingConsent
    &&& gate.pending_offer matches Some(offer_id) ==> proximity::is_bounded_identifier(
        offer_id,
        128,
    ) && !gate.consumed_offers.contains(offer_id)
}

/// The invariant holds at first and after every event.
pub proof fn gates_keep_their_invariant(gate: GateView, event: GateEvent)
    ensures
        gate_invariant(GateView::initial()),
        gate_invariant(gate) ==> gate_invariant(gate_step(gate, event)),
{
}

/// Consent is bilateral: whatever happens, a new gate approves no offer before both sides
/// confirmed the code.
pub proof fn consent_needs_both_sides(events: Seq<GateEvent>, offer_id: Seq<char>)
    ensures
        gate_steps(GateView::initial(), events).approving(offer_id) is Some ==> events.contains(
            GateEvent::Confirm { local: true },
        ) && events.contains(GateEvent::Confirm { local: false }),
{
    lemma_invariant(GateView::initial(), events);
    lemma_confirmed(GateView::initial(), events);
}

proof fn lemma_invariant(gate: GateView, events: Seq<GateEvent>)
    requires
        gate_invariant(gate),
    ensures
        gate_invariant(gate_steps(gate, events)),
    decreases events.len(),
{
    if events.len() > 0 {
        gates_keep_their_invariant(gate, events[0]);
        lemma_invariant(gate_step(gate, events[0]), events.drop_first());
    }
}

/// A side counts as having confirmed only where it did.
proof fn lemma_confirmed(gate: GateView, events: Seq<GateEvent>)
    ensures
        gate_steps(gate, events).local_code_accepted ==> gate.local_code_accepted
            || events.contains(GateEvent::Confirm { local: true }),
        gate_steps(gate, events).remote_code_accepted ==> gate.remote_code_accepted
            || events.contains(GateEvent::Confirm { local: false }),
    decreases events.len(),
{
    if events.len() > 0 {
        let rest = events.drop_first();
        lemma_confirmed(gate_step(gate, events[0]), rest);
        assert forall|e: GateEvent| rest.contains(e) implies events.contains(e) by {
            let i = choose|i: int| 0 <= i < rest.len() && rest[i] == e;
            assert(events[i + 1] == e);
        }
        assert(events.contains(events[0]));
    }
}

/// Consent is for one use: whatever happens, no offer is approved twice.
pub proof fn consent_is_for_one_use(gate: GateView, events: Seq<GateEvent>, offer_id: Seq<char>)
    ensures
        approvals(gate, events, offer_id) <= 1,
        gate.consumed_offers.contains(offer_id) ==> approvals(gate, events, offer_id) == 0,
    decreases events.len(),
{
    if events.len() > 0 {
        consent_is_for_one_use(gate_step(gate, events[0]), events.drop_first(), offer_id);
    }
}

/// Consent is for one offer: only the offer that was presented last can be approved.
pub proof fn consent_is_for_the_presented_offer(
    gate: GateView,
    presented: Seq<char>,
    offer_id: Seq<char>,
)
    requires
        gate.presenting(presented) is Some,
    ensures
        gate.presenting(presented)->Some_0.approving(offer_id) is Some <==> offer_id == presented,
{
}

/// A closed gate stays closed and approves nothing.
pub proof fn closed_gates_stay_closed(gate: GateView, events: Seq<GateEvent>, offer_id: Seq<char>)
    requires
        gate.state == ConsentState::Closed,
    ensures
        gate_steps(gate, events).state == ConsentState::Closed,
        approvals(gate, events, offer_id) == 0,
    decreases events.len(),
{
    if events.len() > 0 {
        closed_gates_stay_closed(gate_step(gate, events[0]), events.drop_first(), offer_id);
    }
}

/// A new gate is idle: nobody confirmed anything, no offer waits, and none was approved.
pub proof fn new_gates_are_idle()
    ensures
        GateView::initial().state == ConsentState::Idle,
        !GateView::initial().local_code_accepted,
        !GateView::initial().remote_code_accepted,
        GateView::initial().pending_offer is None,
        forall|offer_id: Seq<char>| !(#[trigger] GateView::initial().consumed_offers.contains(offer_id)),
{
}

/// The comparison of the code begins exactly where the consent is idle, and changes nothing else.
pub proof fn comparisons_begin_where_the_gate_is_idle(gate: GateView)
    ensures
        gate.beginning() is Some <==> gate.state == ConsentState::Idle,
        gate.beginning() matches Some(next) ==> next == (GateView {
            state: ConsentState::ComparingCode,
            ..gate
        }),
{
}

/// Both sides confirm the code in either order, each exactly while it is compared. The first
/// confirmation is noted, and the second makes the consent ready.
pub proof fn both_sides_confirm_in_either_order(gate: GateView, local: bool)
    ensures
        gate.confirming(local) is Some <==> gate.state == ConsentState::ComparingCode,
        gate.confirming(local) matches Some(next) ==> {
            &&& next.local_code_accepted <==> gate.local_code_accepted || local
            &&& next.remote_code_accepted <==> gate.remote_code_accepted || !local
            &&& next.state == ConsentState::Ready <==> next.local_code_accepted
                && next.remote_code_accepted
            &&& next.state == ConsentState::Ready || next.state == ConsentState::ComparingCode
            &&& next.pending_offer == gate.pending_offer
            &&& next.consumed_offers == gate.consumed_offers
        },
        gate.state == ConsentState::ComparingCode && !gate.local_code_accepted
            && !gate.remote_code_accepted ==> {
            let once = gate_step(gate, GateEvent::Confirm { local });
            let twice = gate_step(once, GateEvent::Confirm { local: !local });
            &&& once.state == ConsentState::ComparingCode
            &&& twice.state == ConsentState::Ready
            &&& gate_step(once, GateEvent::Confirm { local }).state == ConsentState::ComparingCode
        },
{
}

/// An offer is presented exactly where the consent is ready, the offer was not approved before, and its
/// name has between 1 and 128 letters, digits or marks of identifiers.
pub proof fn offers_are_presented_where_the_gate_is_ready(gate: GateView, offer_id: Seq<char>)
    ensures
        gate.presenting(offer_id) is Some <==> gate.state == ConsentState::Ready
            && !gate.consumed_offers.contains(offer_id) && 1 <= offer_id.len() <= 128 && forall|i: int|
            0 <= i < offer_id.len() ==> {
                let c = #[trigger] offer_id[i];
                'a' <= c <= 'z' || 'A' <= c <= 'Z' || '0' <= c <= '9' || c == '.' || c == '_' || c
                    == ':' || c == '@' || c == '/' || c == '-'
            },
        gate.presenting(offer_id) matches Some(next) ==> next == (GateView {
            state: ConsentState::AwaitingConsent,
            pending_offer: Some(offer_id),
            ..gate
        }),
{
    if gate.presenting(offer_id) is Some {
        assert forall|i: int| 0 <= i < offer_id.len() implies {
            let c = #[trigger] offer_id[i];
            'a' <= c <= 'z' || 'A' <= c <= 'Z' || '0' <= c <= '9' || c == '.' || c == '_' || c == ':'
                || c == '@' || c == '/' || c == '-'
        } by {
            assert(proximity::is_identifier_char(offer_id[i]));
        }
    }
}

/// The offer that waits is approved, and then the consent is ready for the next one and remembers it.
/// Nothing else is approved.
pub proof fn waiting_offers_are_approved(gate: GateView, offer_id: Seq<char>)
    ensures
        gate.approving(offer_id) is Some <==> gate.state == ConsentState::AwaitingConsent
            && gate.pending_offer == Some(offer_id) && !gate.consumed_offers.contains(offer_id),
        gate.approving(offer_id) matches Some(next) ==> {
            &&& next.state == ConsentState::Ready
            &&& next.pending_offer is None
            &&& next.local_code_accepted == gate.local_code_accepted
            &&& next.remote_code_accepted == gate.remote_code_accepted
            &&& forall|other: Seq<char>| #[trigger]
                next.consumed_offers.contains(other) <==> gate.consumed_offers.contains(other)
                    || other == offer_id
        },
{
}

/// Offers are approved one after the other: after one was approved, any other that was not approved
/// before can be presented and approved.
pub proof fn offers_follow_one_another(gate: GateView, first: Seq<char>, second: Seq<char>)
    requires
        gate.approving(first) is Some,
        first != second,
        !gate.consumed_offers.contains(second),
        proximity::is_bounded_identifier(second, 128),
    ensures
        ({
            let after = gate.approving(first)->Some_0;
            &&& after.presenting(second) matches Some(asked)
            &&& asked.approving(second) is Some
            &&& after.presenting(first) is None
        }),
{
}

/// A gate can always be closed. Then nothing waits and nobody has confirmed, but what was approved
/// stays known.
pub proof fn gates_can_be_closed(gate: GateView)
    ensures
        gate.closing().state == ConsentState::Closed,
        !gate.closing().local_code_accepted,
        !gate.closing().remote_code_accepted,
        gate.closing().pending_offer is None,
        gate.closing().consumed_offers == gate.consumed_offers,
{
}

/// A transition that is refused changes nothing and reports the state of the consent; one that is
/// made gives the next state.
pub proof fn refused_transitions_change_nothing(
    r: Result<(), ProximityError>,
    before: GateView,
    after: GateView,
    next: Option<GateView>,
)
    requires
        follows(r, before, after, next),
    ensures
        r is Ok <==> next is Some,
        next matches Some(gate) ==> after == gate,
        r matches Err(e) ==> e == ProximityError::ConsentState && after == before,
{
}

} // verus!
