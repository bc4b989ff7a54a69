//! Which envelopes are right, which are accepted, and what is remembered of them.

use crate::proximity::envelope::{
    self, EnvelopeView, ProximityEnvelope, ProximityMessageKind,
};
use crate::proximity::replay::{self, GuardView, ReplayDecision, SessionKey, SessionView};
use crate::proximity::{self, ProximityError};
use crate::{codec, crypto, json};
use vstd::prelude::*;

verus! {

// ---------------------------------------------------------------------------
// Which envelopes are right
// ---------------------------------------------------------------------------

/// Every kind has its name on the wire, and the scope that belongs to it.
pub proof fn kinds_have_their_names_and_scopes(kind: ProximityMessageKind)
    ensures
        (kind.wire_text()@, kind.scope()@) == (match kind {
            ProximityMessageKind::PairingHello => ("pairing_hello"@, "cliptown:device:pair"@),
            ProximityMessageKind::ClipboardOffer => (
                "clipboard_offer"@,
                "cliptown:clipboard:import"@,
            ),
            ProximityMessageKind::ClipboardChunk => (
                "clipboard_chunk"@,
                "cliptown:clipboard:import"@,
            ),
            ProximityMessageKind::SharedAuthStepUp => (
                "shared_auth_step_up"@,
                "shared-auth:step-up:relay"@,
            ),
        }),
{
}

/// Every text of letters, digits, `-` and `_` counts as URL-safe base64, and no other.
pub proof fn url_safe_texts_are_told_by_their_characters(s: Seq<char>)
    ensures
        proximity::is_base64url_text(s) <==> {
            &&& s.len() >= 1
            &&& forall|i: int|
                0 <= i < s.len() ==> 'a' <= (#[trigger] s[i]) <= 'z' || 'A' <= s[i] <= 'Z' || '0'
                    <= s[i] <= '9' || s[i] == '-' || s[i] == '_'
        },
{
    if proximity::is_base64url_text(s) {
        assert forall|i: int| 0 <= i < s.len() implies 'a' <= (#[trigger] s[i]) <= 'z' || 'A'
            <= s[i] <= 'Z' || '0' <= s[i] <= '9' || s[i] == '-' || s[i] == '_' by {
            assert(proximity::is_base64url_char(s[i]));
        }
    } else if s.len() >= 1 {
        let i = choose|i: int|
            0 <= i < s.len() && !proximity::is_base64url_char(#[trigger] s[i]);
        assert(!('a' <= s[i] <= 'z' || 'A' <= s[i] <= 'Z' || '0' <= s[i] <= '9' || s[i] == '-'
            || s[i] == '_'));
    }
}

/// Every text of up to so many letters, digits and characters of `._:@/-` counts as an identifier,
/// and no other.
pub proof fn identifiers_are_told_by_their_characters(s: Seq<char>, maximum: nat)
    ensures
        proximity::is_bounded_identifier(s, maximum) <==> {
            &&& 1 <= s.len() <= maximum
            &&& forall|i: int|
                0 <= i < s.len() ==> 'a' <= (#[trigger] s[i]) <= 'z' || 'A' <= s[i] <= 'Z' || '0'
                    <= s[i] <= '9' || s[i] == '.' || s[i] == '_' || s[i] == ':' || s[i] == '@'
                    || s[i] == '/' || s[i] == '-'
        },
{
    if proximity::is_bounded_identifier(s, maximum) {
        assert forall|i: int| 0 <= i < s.len() implies 'a' <= (#[trigger] s[i]) <= 'z' || 'A'
            <= s[i] <= 'Z' || '0' <= s[i] <= '9' || s[i] == '.' || s[i] == '_' || s[i] == ':'
            || s[i] == '@' || s[i] == '/' || s[i] == '-' by {
            assert(proximity::is_identifier_char(s[i]));
        }
    } else if 1 <= s.len() <= maximum {
        let i = choose|i: int|
            0 <= i < s.len() && !proximity::is_identifier_char(#[trigger] s[i]);
        assert(!('a' <= s[i] <= 'z' || 'A' <= s[i] <= 'Z' || '0' <= s[i] <= '9' || s[i] == '.'
            || s[i] == '_' || s[i] == ':' || s[i] == '@' || s[i] == '/' || s[i] == '-'));
    }
}

proof fn lemma_encoded_text(s: Seq<char>)
    ensures
        codec::base64url_decoded(s) is Some <==> exists|data: Seq<u8>|
            #[trigger] codec::base64url(data) == s,
        codec::base64url_decoded(s) matches Some(data) ==> codec::base64url(data) == s && (data.len()
            > 0 ==> proximity::is_base64url_text(s)),
        forall|data: Seq<u8>| #[trigger]
            codec::base64url(data) == s ==> codec::base64url_decoded(s) == Some(data),
{
    assert forall|data: Seq<u8>| #[trigger] codec::base64url(data) == s implies codec::base64url_decoded(
        s,
    ) == Some(data) by {
        codec::base64url_decodes_what_it_encodes(data);
    }
    if let Some(data) = codec::base64url_decoded(s) {
        if data.len() > 0 {
            assert forall|i: int| 0 <= i < s.len() implies proximity::is_base64url_char(
                #[trigger] s[i],
            ) by {
                codec::lemma_base64url_char(data, i);
            }
        }
    }
}

/// The form of an envelope is right exactly where every field is as the protocol asks, the
/// ciphertext is the encoding of between 1 and 32768 bytes, and the signature that of 64.
pub proof fn envelopes_are_right_where_every_field_is(e: EnvelopeView)
    ensures
        e.structure_error() is None <==> {
            &&& e.protocol == "cliptown.proximity.v1"@
            &&& 22 <= e.session_id.len() <= 86
            &&& forall|i: int|
                0 <= i < e.session_id.len() ==> 'a' <= (#[trigger] e.session_id[i]) <= 'z' || 'A'
                    <= e.session_id[i] <= 'Z' || '0' <= e.session_id[i] <= '9' || e.session_id[i] == '-'
                    || e.session_id[i] == '_'
            &&& 1 <= e.sequence <= 2_147_483_647
            &&& e.issued_at_unix_ms < e.expires_at_unix_ms <= e.issued_at_unix_ms + 120_000
            &&& e.sender_device_id != e.recipient_device_id
            &&& e.scope == e.message_kind.scope()@
            &&& e.ciphertext_sha256.len() == 64
            &&& forall|i: int|
                0 <= i < 64 ==> '0' <= (#[trigger] e.ciphertext_sha256[i]) <= '9' || 'a'
                    <= e.ciphertext_sha256[i] <= 'f'
            &&& 1 <= e.signing_key_id.len() <= 128
            &&& forall|i: int|
                0 <= i < e.signing_key_id.len() ==> 'a' <= (#[trigger] e.signing_key_id[i]) <= 'z' || 'A'
                    <= e.signing_key_id[i] <= 'Z' || '0' <= e.signing_key_id[i] <= '9' || e.signing_key_id[i]
                    == '.' || e.signing_key_id[i] == '_' || e.signing_key_id[i] == ':'
                    || e.signing_key_id[i] == '@' || e.signing_key_id[i] == '/' || e.signing_key_id[i]
                    == '-'
            &&& exists|data: Seq<u8>| #[trigger]
                codec::base64url(data) == e.ciphertext && 1 <= data.len() <= 32_768
            &&& exists|bytes: Seq<u8>| #[trigger]
                codec::base64url(bytes) == e.signature && bytes.len() == 64
        },
{
    url_safe_texts_are_told_by_their_characters(e.session_id);
    identifiers_are_told_by_their_characters(e.signing_key_id, 128);
    lemma_encoded_text(e.ciphertext);
    lemma_encoded_text(e.signature);
    if let Some(data) = codec::base64url_decoded(e.ciphertext) {
        assert(codec::base64url(data) == e.ciphertext);
    }
    if let Some(bytes) = codec::base64url_decoded(e.signature) {
        assert(codec::base64url(bytes) == e.signature);
    }
}

/// An envelope is too large exactly where its ciphertext encodes more than 32768 bytes and it would
/// be right with another ciphertext and signature. Whatever else is wrong makes it invalid.
pub proof fn too_large_envelopes_are_told_apart(e: EnvelopeView)
    ensures
        e.structure_error() == Some(ProximityError::OversizedEnvelope) <==> {
            &&& exists|data: Seq<u8>| #[trigger]
                codec::base64url(data) == e.ciphertext && data.len() > 32_768
            &&& exists|ciphertext: Seq<char>, signature: Seq<char>|
                #[trigger] (EnvelopeView { ciphertext, signature, ..e }).structure_error() is None
        },
        e.structure_error() is None || e.structure_error() == Some(
            ProximityError::OversizedEnvelope,
        ) || e.structure_error() == Some(ProximityError::InvalidEnvelope),
{
    lemma_encoded_text(e.ciphertext);
    if let Some(data) = codec::base64url_decoded(e.ciphertext) {
        assert(codec::base64url(data) == e.ciphertext);
        if data.len() == 0 {
            assert(e.ciphertext.len() == 0);
        }
    }
    if e.header_is_valid() {
        let one = Seq::new(1, |i: int| 0u8);
        let many = Seq::new(64, |i: int| 0u8);
        let ciphertext = codec::base64url(one);
        let signature = codec::base64url(many);
        let other = EnvelopeView { ciphertext, signature, ..e };
        lemma_encoded_text(ciphertext);
        lemma_encoded_text(signature);
        assert(codec::base64url(one) == ciphertext);
        assert(codec::base64url(many) == signature);
        assert(other.header_is_valid());
        assert(other.structure_error() is None);
    } else {
        assert forall|ciphertext: Seq<char>, signature: Seq<char>|
            #[trigger] (EnvelopeView { ciphertext, signature, ..e }).structure_error() is Some by {
            assert(!(EnvelopeView { ciphertext, signature, ..e }).header_is_valid());
        }
    }
}

/// An envelope is in time exactly from half a minute before it was issued until just before it
/// expires.
pub proof fn envelopes_are_in_time_between_issue_and_expiry(e: EnvelopeView, now_ms: u64)
    ensures
        e.time_error(now_ms) is None <==> e.issued_at_unix_ms - 30_000 <= now_ms
            < e.expires_at_unix_ms,
        e.time_error(now_ms) == Some(ProximityError::FromFuture) <==> now_ms
            < e.issued_at_unix_ms - 30_000,
        e.time_error(now_ms) == Some(ProximityError::Expired) <==> now_ms >= e.expires_at_unix_ms
            && now_ms >= e.issued_at_unix_ms - 30_000,
{
}

/// An envelope reaches the replay guard exactly where its form is right, it names the digest of its
/// ciphertext in small hexadecimal digits, and the enrolled key accepts its signature. The first of
/// these that fails is what is reported.
pub proof fn only_verified_envelopes_reach_the_guard(
    e: EnvelopeView,
    digest: Seq<u8>,
    signature_accepted: bool,
)
    ensures
        e.receive_error(digest, signature_accepted) is None <==> {
            &&& e.structure_error() is None
            &&& codec::hex_lower(digest) == e.ciphertext_sha256
            &&& signature_accepted
        },
        e.structure_error() is Some ==> e.receive_error(digest, signature_accepted)
            == e.structure_error(),
        e.structure_error() is None && codec::hex_lower(digest) != e.ciphertext_sha256
            ==> e.receive_error(digest, signature_accepted) == Some(ProximityError::DigestMismatch),
        e.structure_error() is None && codec::hex_lower(digest) == e.ciphertext_sha256
            && !signature_accepted ==> e.receive_error(digest, signature_accepted) == Some(
            ProximityError::SignatureMismatch,
        ),
{
}

/// An envelope counts as signed exactly where a key of 32 bytes accepts the 64 bytes that its
/// signature encodes, on the encoding of all other fields.
pub proof fn signatures_are_checked_on_all_other_fields(e: EnvelopeView, public_key: Seq<u8>)
    ensures
        e.is_signed_by(public_key) <==> public_key.len() == 32 && exists|bytes: Seq<u8>|
            #[trigger] codec::base64url(bytes) == e.signature && bytes.len() == 64
                && crypto::ed25519_accepts(
                public_key,
                vstd::utf8::encode_utf8(json::json_object(e.unsigned_members())),
                bytes,
            ),
        e.unsigned_members().len() == 13,
        forall|other: Seq<char>| #[trigger]
            (EnvelopeView { signature: other, ..e }).unsigned_members() == e.unsigned_members(),
{
    lemma_encoded_text(e.signature);
    if let Some(bytes) = codec::base64url_decoded(e.signature) {
        assert(codec::base64url(bytes) == e.signature);
    }
}

/// The ciphertext of an envelope whose form is right is what its text encodes.
pub proof fn ciphertexts_are_what_they_encode(e: EnvelopeView, data: Seq<u8>)
    requires
        e.ciphertext == codec::base64url(data),
        data.len() > 0,
    ensures
        e.ciphertext_data() == Some(data),
{
    lemma_encoded_text(e.ciphertext);
}

// ---------------------------------------------------------------------------
// Which envelopes are accepted
// ---------------------------------------------------------------------------

/// An envelope of whatever kind is accepted exactly where its form is right, it is for this device
/// and from the expected one, it is in time, its message is not remembered, and its sequence number
/// is larger than every one that is remembered of its session.
pub proof fn envelopes_are_accepted_where_nothing_speaks_against_them(
    guard: GuardView,
    e: EnvelopeView,
    now_ms: u64,
    local_device_id: u128,
    expected_sender_device_id: u128,
)
    requires
        guard.wf(),
    ensures
        guard.decision(e, now_ms, local_device_id, expected_sender_device_id)
            == ReplayDecision::Accepted <==> {
            &&& e.structure_error() is None
            &&& e.recipient_device_id == local_device_id
            &&& e.sender_device_id == expected_sender_device_id
            &&& e.issued_at_unix_ms - 30_000 <= now_ms < e.expires_at_unix_ms
            &&& forall|i: int| 0 <= i < guard.messages.len() ==> #[trigger] guard.messages[i] != e.message_id
            &&& forall|i: int|
                0 <= i < guard.sessions.len() && (#[trigger] guard.sessions[i]).key.sender_device_id
                    == e.sender_device_id && guard.sessions[i].key.recipient_device_id
                    == e.recipient_device_id && guard.sessions[i].key.session_id == e.session_id
                    ==> guard.sessions[i].last_sequence < e.sequence
        },
{
    let key = SessionKey {
        sender_device_id: e.sender_device_id,
        recipient_device_id: e.recipient_device_id,
        session_id: e.session_id,
    };
    assert(replay::session_of(e) == key);
    replay::lemma_session_position(guard.sessions, key);
    let p = replay::session_position(guard.sessions, key);
    assert forall|i: int|
        0 <= i < guard.sessions.len() && (#[trigger] guard.sessions[i]).key.sender_device_id
            == e.sender_device_id && guard.sessions[i].key.recipient_device_id
            == e.recipient_device_id && guard.sessions[i].key.session_id == e.session_id implies i
        == p by {
        assert(guard.sessions[i].key =~= key);
        if i < p {
            assert(guard.sessions[i].key != key);
        } else if p < i {
            assert(guard.sessions[p].key != guard.sessions[i].key);
        }
    }
    if p < guard.sessions.len() {
        assert(guard.sessions[p].key == key);
    }
    envelopes_are_right_where_every_field_is(e);
}

/// An envelope that is not accepted is told why: the first of these reasons that applies.
pub proof fn refused_envelopes_are_told_why(
    guard: GuardView,
    e: EnvelopeView,
    now_ms: u64,
    local_device_id: u128,
    expected_sender_device_id: u128,
)
    ensures
        ({
            let decision = guard.decision(e, now_ms, local_device_id, expected_sender_device_id);
            let right = e.structure_error() is None;
            let mine = right && e.recipient_device_id == local_device_id;
            let meant = mine && e.sender_device_id == expected_sender_device_id;
            let issued = meant && now_ms >= e.issued_at_unix_ms - 30_000;
            let alive = issued && now_ms < e.expires_at_unix_ms;
            let known = exists|i: int|
                0 <= i < guard.messages.len() && #[trigger] guard.messages[i] == e.message_id;
            &&& decision == ReplayDecision::Invalid <==> !right
            &&& decision == ReplayDecision::WrongRecipient <==> right && !mine
            &&& decision == ReplayDecision::WrongSender <==> mine && !meant
            &&& decision == ReplayDecision::FromFuture <==> meant && !issued
            &&& decision == ReplayDecision::Expired <==> issued && !alive
            &&& decision == ReplayDecision::Duplicate <==> alive && known
            &&& decision == ReplayDecision::OutOfOrder || decision == ReplayDecision::Accepted
                <==> alive && !known
        }),
{
    if guard.messages.contains(e.message_id) {
        let i = choose|i: int| 0 <= i < guard.messages.len() && guard.messages[i] == e.message_id;
        assert(guard.messages[i] == e.message_id);
    }
}

/// What the guard remembers of an accepted message: its identifier behind all others, the oldest of
/// which goes where there is no room. Nothing is remembered of others.
pub proof fn accepted_messages_are_remembered(
    guard: GuardView,
    e: EnvelopeView,
    decision: ReplayDecision,
)
    requires
        guard.wf(),
    ensures
        guard.after(e, decision).capacity == guard.capacity,
        decision == ReplayDecision::Accepted ==> guard.after(e, decision).messages == (if guard.messages.len()
            < guard.capacity {
            guard.messages.push(e.message_id)
        } else {
            guard.messages.subrange(1, guard.messages.len() as int).push(e.message_id)
        }),
        decision != ReplayDecision::Accepted ==> guard.after(e, decision) == guard,
{
    if guard.messages.len() > 0 {
        assert(guard.messages.push(e.message_id).skip(1) =~= guard.messages.subrange(
            1,
            guard.messages.len() as int,
        ).push(e.message_id));
    }
}

/// What the guard remembers of the session of an accepted message: its sequence number. A session
/// that is remembered keeps its place; another one stands behind all others, the oldest of which
/// goes where there is no room. Other sessions stay as they are.
pub proof fn accepted_messages_move_their_session(guard: GuardView, e: EnvelopeView, i: int)
    requires
        guard.wf(),
        0 <= i <= guard.sessions.len(),
        forall|j: int|
            0 <= j < guard.sessions.len() && j != i ==> (#[trigger] guard.sessions[j]).key.sender_device_id
                != e.sender_device_id || guard.sessions[j].key.recipient_device_id
                != e.recipient_device_id || guard.sessions[j].key.session_id != e.session_id,
        i < guard.sessions.len() ==> guard.sessions[i].key.sender_device_id == e.sender_device_id
            && guard.sessions[i].key.recipient_device_id == e.recipient_device_id
            && guard.sessions[i].key.session_id == e.session_id,
    ensures
        ({
            let after = guard.after(e, ReplayDecision::Accepted).sessions;
            let record = SessionView {
                key: SessionKey {
                    sender_device_id: e.sender_device_id,
                    recipient_device_id: e.recipient_device_id,
                    session_id: e.session_id,
                },
                last_sequence: e.sequence,
            };
            &&& i < guard.sessions.len() ==> after == guard.sessions.update(i, record)
            &&& i == guard.sessions.len() < guard.capacity ==> after == guard.sessions.push(record)
            &&& i == guard.sessions.len() == guard.capacity ==> after == guard.sessions.subrange(
                1,
                guard.sessions.len() as int,
            ).push(record)
        }),
{
    let key = replay::session_of(e);
    replay::lemma_session_position(guard.sessions, key);
    let p = replay::session_position(guard.sessions, key);
    if p < guard.sessions.len() {
        assert(guard.sessions[p].key == key);
        assert(p == i);
    } else if i < guard.sessions.len() {
        assert(guard.sessions[i].key =~= key);
        assert(guard.sessions[i].key != key);
    }
    let record = SessionView { key, last_sequence: e.sequence };
    if guard.sessions.len() > 0 {
        assert(guard.sessions.push(record).skip(1) =~= guard.sessions.subrange(
            1,
            guard.sessions.len() as int,
        ).push(record));
    }
}

/// Messages of a session are accepted one after the other, of whatever kinds they are: after one was
/// accepted, a later one is, if it is right, in time and for the same devices, has an identifier of
/// its own that is not remembered, and a larger sequence number.
pub proof fn sessions_go_on(
    guard: GuardView,
    first: EnvelopeView,
    then_ms: u64,
    next: EnvelopeView,
    now_ms: u64,
    local_device_id: u128,
    sender_device_id: u128,
)
    requires
        guard.wf(),
        guard.decision(first, then_ms, local_device_id, sender_device_id)
            == ReplayDecision::Accepted,
        next.structure_error() is None,
        next.recipient_device_id == first.recipient_device_id,
        next.sender_device_id == first.sender_device_id,
        next.session_id == first.session_id,
        next.sequence > first.sequence,
        next.message_id != first.message_id,
        forall|i: int| 0 <= i < guard.messages.len() ==> #[trigger] guard.messages[i] != next.message_id,
        next.issued_at_unix_ms - 30_000 <= now_ms < next.expires_at_unix_ms,
    ensures
        guard.after(first, ReplayDecision::Accepted).decision(
            next,
            now_ms,
            local_device_id,
            sender_device_id,
        ) == ReplayDecision::Accepted,
{
    let after = guard.after(first, ReplayDecision::Accepted);
    envelopes_are_accepted_where_nothing_speaks_against_them(
        guard,
        first,
        then_ms,
        local_device_id,
        sender_device_id,
    );
    let key = replay::session_of(first);
    replay::lemma_session_position(guard.sessions, key);
    let p = replay::session_position(guard.sessions, key);
    assert(replay::session_of(next) == key);
    replay::lemma_session_position(after.sessions, key);
    let q = replay::session_position(after.sessions, key);
    if q < after.sessions.len() && after.sessions[q].last_sequence != first.sequence {
        if p < guard.sessions.len() {
            assert(after.sessions[q] == guard.sessions[q]);
            if q < p {
                assert(guard.sessions[q].key != guard.sessions[p].key);
            } else {
                assert(guard.sessions[p].key != guard.sessions[q].key);
            }
        } else {
            let list = guard.sessions.push(
                SessionView { key, last_sequence: first.sequence },
            );
            let d = list.len() - after.sessions.len();
            assert(after.sessions[q] == list[q + d]);
            assert(guard.sessions[q + d].key != key);
        }
    }
    if after.messages.contains(next.message_id) {
        let i = choose|i: int| 0 <= i < after.messages.len() && after.messages[i] == next.message_id;
        let list = guard.messages.push(first.message_id);
        let d = list.len() - after.messages.len();
        assert(after.messages[i] == list[i + d]);
        assert(guard.messages[i + d] == next.message_id);
    }
}

// ---------------------------------------------------------------------------
// What is reported
// ---------------------------------------------------------------------------

/// A check succeeds exactly where nothing is wrong, and otherwise reports what is.
pub proof fn checks_report_what_is_wrong(
    r: Result<(), ProximityError>,
    error: Option<ProximityError>,
)
    requires
        envelope::reports(r, error),
    ensures
        r is Ok <==> error is None,
        r matches Err(e) ==> error == Some(e),
{
}

/// An envelope that was decoded is handed on unchanged exactly where its form is right. What could
/// not be decoded is invalid, and otherwise what is wrong with the form is reported.
pub proof fn decoded_envelopes_are_handed_on(
    decoded: Option<ProximityEnvelope>,
    r: Result<ProximityEnvelope, ProximityError>,
)
    requires
        envelope::is_outcome(decoded, r),
    ensures
        r is Ok <==> decoded is Some && decoded->Some_0@.structure_error() is None,
        r matches Ok(envelope) ==> decoded == Some(envelope),
        r matches Err(e) ==> e == (match decoded {
            None => ProximityError::InvalidEnvelope,
            Some(envelope) => envelope@.structure_error()->Some_0,
        }),
{
}

/// A digest is the right one exactly where its small hexadecimal digits are what the envelope names.
pub proof fn digests_are_told_by_their_digits(e: EnvelopeView, digest: Seq<u8>)
    ensures
        e.digest_error(digest) is None <==> e.ciphertext_sha256 == codec::hex_lower(digest),
        e.digest_error(digest) is Some ==> e.digest_error(digest) == Some(
            ProximityError::DigestMismatch,
        ),
{
}

/// A ciphertext has bytes exactly where it is the encoding of at least one.
pub proof fn only_encodings_have_bytes(e: EnvelopeView)
    ensures
        e.ciphertext_data() is Some <==> exists|data: Seq<u8>| #[trigger]
            codec::base64url(data) == e.ciphertext && data.len() > 0,
        e.ciphertext_data() matches Some(data) ==> codec::base64url(data) == e.ciphertext,
{
    lemma_encoded_text(e.ciphertext);
    if let Some(data) = codec::base64url_decoded(e.ciphertext) {
        assert(codec::base64url(data) == e.ciphertext);
        if data.len() == 0 {
            assert(e.ciphertext.len() == 0);
        }
    }
}

/// An encoded envelope is the object of what is signed and the signature behind it.
pub proof fn encodings_hold_the_signature_last(e: EnvelopeView)
    ensures
        e.encoded() == vstd::utf8::encode_utf8(
            json::json_object(
                e.unsigned_members().push(
                    json::JsonMember {
                        name: "signature"@,
                        value: json::JsonValue::Text(e.signature),
                    },
                ),
            ),
        ),
        e.signed_bytes() == vstd::utf8::encode_utf8(json::json_object(e.unsigned_members())),
{
}

/// Every refusal has its sentence.
pub proof fn proximity_errors_have_their_sentences(error: ProximityError)
    ensures
        error.message_text()@ == (match error {
            ProximityError::InvalidAdvertisement => {
                "invalid or linkable proximity advertisement"@
            },
            ProximityError::IncompleteHandshake => "incomplete proximity handshake transcript"@,
            ProximityError::InvalidEnvelope => "invalid proximity envelope"@,
            ProximityError::OversizedEnvelope => "proximity envelope exceeds reviewed size"@,
            ProximityError::Expired => "proximity envelope expired"@,
            ProximityError::FromFuture => {
                "proximity envelope was issued too far in the future"@
            },
            ProximityError::DigestMismatch => "proximity ciphertext digest mismatch"@,
            ProximityError::SignatureMismatch => "proximity device signature mismatch"@,
            ProximityError::InvalidCapacity => "invalid replay or reassembly capacity"@,
            ProximityError::InvalidFrame => "invalid BLE frame"@,
            ProximityError::ConsentState => "invalid proximity consent transition"@,
        }),
{
}

/// What is signed, by name and in this order: every field but the signature.
pub proof fn signed_fields_have_their_names(e: EnvelopeView)
    ensures
        ({
            let m = e.unsigned_members();
            &&& m.len() == 13
            &&& m[0].name == "protocol"@ && m[0].value == json::JsonValue::Text(e.protocol)
            &&& m[1].name == "message_kind"@ && m[1].value == json::JsonValue::Text(
                e.message_kind.wire_text()@,
            )
            &&& m[2].name == "message_id"@ && m[2].value == json::JsonValue::Text(
                codec::uuid_text(e.message_id),
            )
            &&& m[3].name == "session_id"@ && m[3].value == json::JsonValue::Text(e.session_id)
            &&& m[4].name == "sequence"@ && m[4].value == json::JsonValue::Number(e.sequence as nat)
            &&& m[5].name == "issued_at_unix_ms"@ && m[5].value == json::JsonValue::Number(
                e.issued_at_unix_ms as nat,
            )
            &&& m[6].name == "expires_at_unix_ms"@ && m[6].value == json::JsonValue::Number(
                e.expires_at_unix_ms as nat,
            )
            &&& m[7].name == "sender_device_id"@ && m[7].value == json::JsonValue::Text(
                codec::uuid_text(e.sender_device_id),
            )
            &&& m[8].name == "recipient_device_id"@ && m[8].value == json::JsonValue::Text(
                codec::uuid_text(e.recipient_device_id),
            )
            &&& m[9].name == "scope"@ && m[9].value == json::JsonValue::Text(e.scope)
            &&& m[10].name == "ciphertext"@ && m[10].value == json::JsonValue::Text(e.ciphertext)
            &&& m[11].name == "ciphertext_sha256"@ && m[11].value == json::JsonValue::Text(
                e.ciphertext_sha256,
            )
            &&& m[12].name == "signing_key_id"@ && m[12].value == json::JsonValue::Text(
                e.signing_key_id,
            )
        }),
{
}

} // verus!
