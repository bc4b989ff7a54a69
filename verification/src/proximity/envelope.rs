//! Signed envelopes: their form, their encoding and the checks on receipt.

use crate::json::{self, JsonWriter};
use crate::proximity::replay::{ProximityReplayGuard, ReplayDecision};
use crate::proximity::{
    self, envelope_laws, ProximityError, MAX_CIPHERTEXT_BYTES, MAX_CLOCK_SKEW_MS, MAX_ENCODED_ENVELOPE_BYTES,
    MAX_MESSAGE_LIFETIME_MS, PROTOCOL,
};
use crate::{codec, crypto, text};
use vstd::prelude::*;

verus! {

/// What a message is for.
#[derive(Clone, Copy, Debug, PartialEq, Eq, Structural)]
pub enum ProximityMessageKind {
    PairingHello,
    ClipboardOffer,
    ClipboardChunk,
    SharedAuthStepUp,
}

impl ProximityMessageKind {
    /// The scope that a message of this kind must name.
    pub open spec fn scope(self) -> &'static str {
        match self {
            ProximityMessageKind::PairingHello => "cliptown:device:pair",
            ProximityMessageKind::ClipboardOffer => "cliptown:clipboard:import",
            ProximityMessageKind::ClipboardChunk => "cliptown:clipboard:import",
            ProximityMessageKind::SharedAuthStepUp => "shared-auth:step-up:relay",
        }
    }

    /// The scope that a message of this kind must name.
    pub fn required_scope(self) -> (s: &'static str)
        ensures
            s@ == self.scope()@,
    {
        match self {
            ProximityMessageKind::PairingHello => "cliptown:device:pair",
            ProximityMessageKind::ClipboardOffer => "cliptown:clipboard:import",
            ProximityMessageKind::ClipboardChunk => "cliptown:clipboard:import",
            ProximityMessageKind::SharedAuthStepUp => "shared-auth:step-up:relay",
        }
    }

    /// The name of the kind in an encoded envelope.
    pub open spec fn wire_text(self) -> &'static str {
        match self {
            ProximityMessageKind::PairingHello => "pairing_hello",
            ProximityMessageKind::ClipboardOffer => "clipboard_offer",
            ProximityMessageKind::ClipboardChunk => "clipboard_chunk",
            ProximityMessageKind::SharedAuthStepUp => "shared_auth_step_up",
        }
    }

    /// The name of the kind in an encoded envelope.
    pub fn wire_name(self) -> (s: &'static str)
        ensures
            s@ == self.wire_text()@,
    {
        match self {
            ProximityMessageKind::PairingHello => "pairing_hello",
            ProximityMessageKind::ClipboardOffer => "clipboard_offer",
            ProximityMessageKind::ClipboardChunk => "clipboard_chunk",
            ProximityMessageKind::SharedAuthStepUp => "shared_auth_step_up",
        }
    }
}

/// A message from one enrolled device to another.
#[derive(Clone, Debug, PartialEq, Eq)]
pub struct ProximityEnvelope {
    pub protocol: String,
    pub message_kind: ProximityMessageKind,
    pub message_id: u128,
    pub session_id: String,
    pub sequence: u32,
    pub issued_at_unix_ms: u64,
    pub expires_at_unix_ms: u64,
    pub sender_device_id: u128,
    pub recipient_device_id: u128,
    pub scope: String,
    pub ciphertext: String,
    pub ciphertext_sha256: String,
    pub signing_key_id: String,
    pub signature: String,
}

/// The contents of an envelope.
#[verifier::ext_equal]
pub struct EnvelopeView {
    pub protocol: Seq<char>,
    pub message_kind: ProximityMessageKind,
    pub message_id: u128,
    pub session_id: Seq<char>,
    pub sequence: u32,
    pub issued_at_unix_ms: u64,
    pub expires_at_unix_ms: u64,
    pub sender_device_id: u128,
    pub recipient_device_id: u128,
    pub scope: Seq<char>,
    pub ciphertext: Seq<char>,
    pub ciphertext_sha256: Seq<char>,
    pub signing_key_id: Seq<char>,
    pub signature: Seq<char>,
}

impl View for ProximityEnvelope {
    type V = EnvelopeView;

    open spec fn view(&self) -> EnvelopeView {
        EnvelopeView {
            protocol: self.protocol@,
            message_kind: self.message_kind,
            message_id: self.message_id,
            session_id: self.session_id@,
            sequence: self.sequence,
            issued_at_unix_ms: self.issued_at_unix_ms,
            expires_at_unix_ms: self.expires_at_unix_ms,
            sender_device_id: self.sender_device_id,
            recipient_device_id: self.recipient_device_id,
            scope: self.scope@,
            ciphertext: self.ciphertext@,
            ciphertext_sha256: self.ciphertext_sha256@,
            signing_key_id: self.signing_key_id@,
            signature: self.signature@,
        }
    }
}

/// A member whose value is a string.
pub open spec fn text_member(name: Seq<char>, value: Seq<char>) -> json::JsonMember {
    json::JsonMember { name, value: json::JsonValue::Text(value) }
}

/// A member whose value is a number.
pub open spec fn number_member(name: Seq<char>, value: nat) -> json::JsonMember {
    json::JsonMember { name, value: json::JsonValue::Number(value) }
}

/// Small hexadecimal digits.
pub open spec fn is_lower_hex(s: Seq<char>) -> bool {
    forall|i: int| 0 <= i < s.len() ==> '0' <= #[trigger] s[i] <= '9' || 'a' <= s[i] <= 'f'
}

impl EnvelopeView {
    /// Everything but the ciphertext and the signature is as it has to be.
    pub open spec fn header_is_valid(self) -> bool {
        &&& self.protocol == PROTOCOL@
        &&& 22 <= self.session_id.len() <= 86
        &&& proximity::is_base64url_text(self.session_id)
        &&& 0 < self.sequence <= 0x7fff_ffff
        &&& self.issued_at_unix_ms < self.expires_at_unix_ms
        &&& self.expires_at_unix_ms - self.issued_at_unix_ms <= MAX_MESSAGE_LIFETIME_MS
        &&& self.sender_device_id != self.recipient_device_id
        &&& self.scope == self.message_kind.scope()@
        &&& self.ciphertext_sha256.len() == 64
        &&& is_lower_hex(self.ciphertext_sha256)
        &&& proximity::is_bounded_identifier(self.signing_key_id, 128)
    }

    /// The ciphertext as bytes, where it is encoded as it has to be.
    pub open spec fn ciphertext_data(self) -> Option<Seq<u8>> {
        if proximity::is_base64url_text(self.ciphertext) {
            codec::base64url_decoded(self.ciphertext)
        } else {
            None
        }
    }

    /// The signature as bytes, where it is encoded as it has to be.
    pub open spec fn signature_data(self) -> Option<Seq<u8>> {
        codec::base64url_decoded(self.signature)
    }

    /// What is wrong with the form of the envelope.
    pub open spec fn structure_error(self) -> Option<ProximityError> {
        if !self.header_is_valid() {
            Some(ProximityError::InvalidEnvelope)
        } else {
            match self.ciphertext_data() {
                None => Some(ProximityError::InvalidEnvelope),
                Some(data) => if data.len() == 0 || data.len() > MAX_CIPHERTEXT_BYTES {
                    Some(ProximityError::OversizedEnvelope)
                } else {
                    match self.signature_data() {
                        None => Some(ProximityError::InvalidEnvelope),
                        Some(bytes) => if bytes.len() != 64 || !proximity::is_base64url_text(
                            self.signature,
                        ) {
                            Some(ProximityError::InvalidEnvelope)
                        } else {
                            None
                        },
                    }
                },
            }
        }
    }

    /// What is wrong with the times of the envelope.
    pub open spec fn time_error(self, now_ms: u64) -> Option<ProximityError> {
        if self.issued_at_unix_ms > now_ms + MAX_CLOCK_SKEW_MS {
            Some(ProximityError::FromFuture)
        } else if self.expires_at_unix_ms <= now_ms {
            Some(ProximityError::Expired)
        } else {
            None
        }
    }

    /// The members that are signed.
    pub open spec fn unsigned_members(self) -> Seq<json::JsonMember> {
        seq![
            text_member("protocol"@, self.protocol),
            text_member("message_kind"@, self.message_kind.wire_text()@),
            text_member("message_id"@, codec::uuid_text(self.message_id)),
            text_member("session_id"@, self.session_id),
            number_member("sequence"@, self.sequence as nat),
            number_member("issued_at_unix_ms"@, self.issued_at_unix_ms as nat),
            number_member("expires_at_unix_ms"@, self.expires_at_unix_ms as nat),
            text_member("sender_device_id"@, codec::uuid_text(self.sender_device_id)),
            text_member("recipient_device_id"@, codec::uuid_text(self.recipient_device_id)),
            text_member("scope"@, self.scope),
            text_member("ciphertext"@, self.ciphertext),
            text_member("ciphertext_sha256"@, self.ciphertext_sha256),
            text_member("signing_key_id"@, self.signing_key_id),
        ]
    }

    /// All members, the signature last.
    pub open spec fn members(self) -> Seq<json::JsonMember> {
        self.unsigned_members().push(text_member("signature"@, self.signature))
    }

    /// The bytes that are signed.
    pub open spec fn signed_bytes(self) -> Seq<u8> {
        vstd::utf8::encode_utf8(json::json_object(self.unsigned_members()))
    }

    /// The encoded envelope.
    pub open spec fn encoded(self) -> Seq<u8> {
        vstd::utf8::encode_utf8(json::json_object(self.members()))
    }

    /// What is wrong with a digest of the ciphertext.
    pub open spec fn digest_error(self, digest: Seq<u8>) -> Option<ProximityError> {
        if codec::hex_lower(digest) != self.ciphertext_sha256 {
            Some(ProximityError::DigestMismatch)
        } else {
            None
        }
    }

    /// Whether a public key accepts the signature on everything else.
    pub open spec fn is_signed_by(self, public_key: Seq<u8>) -> bool {
        &&& public_key.len() == 32
        &&& self.signature_data() matches Some(bytes)
        &&& bytes.len() == 64
        &&& crypto::ed25519_accepts(public_key, self.signed_bytes(), bytes)
    }

    /// Why an envelope is refused before it reaches the replay guard, given the digest of its
    /// ciphertext and whether its signature was accepted.
    pub open spec fn receive_error(self, digest: Seq<u8>, signature_accepted: bool) -> Option<
        ProximityError,
    > {
        if self.structure_error() is Some {
            self.structure_error()
        } else if self.digest_error(digest) is Some {
            self.digest_error(digest)
        } else if !signature_accepted {
            Some(ProximityError::SignatureMismatch)
        } else {
            None
        }
    }
}

/// Whether a result is the error, or success where there is none.
pub open spec fn reports(r: Result<(), ProximityError>, error: Option<ProximityError>) -> bool {
    match error {
        Some(e) => r == Err::<(), ProximityError>(e),
        None => r is Ok,
    }
}

impl ProximityEnvelope {
    /// Reads an encoded envelope of bounded size. The decoder is not called on other sizes.
    pub fn from_slice<F: FnOnce(&[u8]) -> Option<ProximityEnvelope>>(bytes: &[u8], decode: F) -> (r:
        Result<Self, ProximityError>)
        requires
            call_requires(decode, (bytes,)),
        ensures
            bytes@.len() == 0 || bytes@.len() > MAX_ENCODED_ENVELOPE_BYTES ==> (r matches Err(e) && e
                == ProximityError::OversizedEnvelope),
            0 < bytes@.len() <= MAX_ENCODED_ENVELOPE_BYTES ==> exists|
                decoded: Option<ProximityEnvelope>,
            | #[trigger]
                call_ensures(decode, (bytes,), decoded) && is_outcome(decoded, r),
    {
        if bytes.len() == 0 || bytes.len() > MAX_ENCODED_ENVELOPE_BYTES {
            return Err(ProximityError::OversizedEnvelope);
        }
        let decoded = decode(bytes);
        ProximityEnvelope::from_decoded(decoded)
    }

    /// Takes a decoded envelope whose form is right.
    pub fn from_decoded(decoded: Option<ProximityEnvelope>) -> (r: Result<Self, ProximityError>)
        ensures
            is_outcome(decoded, r),
    {
        match decoded {
            None => Err(ProximityError::InvalidEnvelope),
            Some(envelope) => match envelope.validate_structure() {
                Ok(()) => Ok(envelope),
                Err(e) => Err(e),
            },
        }
    }

    /// Encodes an envelope whose form is right.
    pub fn to_vec(&self) -> (r: Result<Vec<u8>, ProximityError>)
        ensures
            match self@.structure_error() {
                Some(error) => r matches Err(e) && e == error,
                None => r matches Ok(bytes) && bytes@ == self@.encoded(),
            },
    {
        match self.validate_structure() {
            Ok(()) => {},
            Err(e) => {
                return Err(e);
            },
        }
        let mut writer = self.unsigned();
        writer.put_text("signature", self.signature.as_str());
        assert(writer.members() =~= self@.members());
        let object = writer.finish();
        let mut bytes: Vec<u8> = Vec::new();
        text::append_bytes(&mut bytes, object.as_str().as_bytes());
        assert(bytes@ =~= self@.encoded());
        proof {
            envelope_laws::valid_envelopes_fit(self@);
        }
        if bytes.len() > MAX_ENCODED_ENVELOPE_BYTES {
            return Err(ProximityError::OversizedEnvelope);
        }
        Ok(bytes)
    }

    /// The bytes that the sender signs.
    pub fn signing_bytes(&self) -> (r: Result<Vec<u8>, ProximityError>)
        ensures
            r is Ok,
            r matches Ok(bytes) ==> bytes@ == self@.signed_bytes(),
    {
        let object = self.unsigned().finish();
        let mut bytes: Vec<u8> = Vec::new();
        text::append_bytes(&mut bytes, object.as_str().as_bytes());
        assert(bytes@ =~= self@.signed_bytes());
        Ok(bytes)
    }

    /// Writes the members that are signed.
    fn unsigned(&self) -> (w: JsonWriter)
        ensures
            w.wf(),
            w.members() == self@.unsigned_members(),
    {
        let mut w = JsonWriter::new();
        w.put_text("protocol", self.protocol.as_str());
        w.put_text("message_kind", self.message_kind.wire_name());
        let message_id = codec::format_uuid(self.message_id);
        w.put_text("message_id", message_id.as_str());
        w.put_text("session_id", self.session_id.as_str());
        w.put_number("sequence", self.sequence as u64);
        w.put_number("issued_at_unix_ms", self.issued_at_unix_ms);
        w.put_number("expires_at_unix_ms", self.expires_at_unix_ms);
        let sender = codec::format_uuid(self.sender_device_id);
        w.put_text("sender_device_id", sender.as_str());
        let recipient = codec::format_uuid(self.recipient_device_id);
        w.put_text("recipient_device_id", recipient.as_str());
        w.put_text("scope", self.scope.as_str());
        w.put_text("ciphertext", self.ciphertext.as_str());
        w.put_text("ciphertext_sha256", self.ciphertext_sha256.as_str());
        w.put_text("signing_key_id", self.signing_key_id.as_str());
        assert(w.members() =~= self@.unsigned_members());
        w
    }

    /// Checks the form of the envelope.
    pub fn validate_structure(&self) -> (r: Result<(), ProximityError>)
        ensures
            reports(r, self@.structure_error()),
    {
        let session_chars: usize = text::to_chars(self.session_id.as_str()).len();
        if !text::same_text(self.protocol.as_str(), PROTOCOL) || session_chars < 22 || session_chars
            > 86 || !proximity::base64url_chars(self.session_id.as_str()) || self.sequence == 0
            || self.sequence > 0x7fff_ffff || self.expires_at_unix_ms <= self.issued_at_unix_ms
            || self.expires_at_unix_ms - self.issued_at_unix_ms > MAX_MESSAGE_LIFETIME_MS
            || self.sender_device_id == self.recipient_device_id || !text::same_text(
            self.scope.as_str(),
            self.message_kind.required_scope(),
        ) || !lower_hex_of_length(self.ciphertext_sha256.as_str(), 64)
            || !proximity::bounded_identifier(self.signing_key_id.as_str(), 128) {
            return Err(ProximityError::InvalidEnvelope);
        }
        let ciphertext = match self.ciphertext_bytes() {
            Ok(ciphertext) => ciphertext,
            Err(e) => {
                return Err(e);
            },
        };
        if ciphertext.len() == 0 || ciphertext.len() > MAX_CIPHERTEXT_BYTES {
            return Err(ProximityError::OversizedEnvelope);
        }
        match codec::decode_base64url(self.signature.as_str()) {
            None => Err(ProximityError::InvalidEnvelope),
            Some(signature) => {
                if signature.len() != 64 || !proximity::base64url_chars(self.signature.as_str()) {
                    return Err(ProximityError::InvalidEnvelope);
                }
                Ok(())
            },
        }
    }

    /// Checks that the envelope is neither from the future nor expired.
    pub fn validate_time(&self, now_ms: u64) -> (r: Result<(), ProximityError>)
        ensures
            reports(r, self@.time_error(now_ms)),
    {
        if self.issued_at_unix_ms > now_ms.saturating_add(MAX_CLOCK_SKEW_MS) {
            return Err(ProximityError::FromFuture);
        }
        if self.expires_at_unix_ms <= now_ms {
            return Err(ProximityError::Expired);
        }
        Ok(())
    }

    /// The ciphertext as bytes.
    pub fn ciphertext_bytes(&self) -> (r: Result<Vec<u8>, ProximityError>)
        ensures
            match self@.ciphertext_data() {
                Some(data) => r matches Ok(bytes) && bytes@ == data,
                None => r matches Err(e) && e == ProximityError::InvalidEnvelope,
            },
    {
        if !proximity::base64url_chars(self.ciphertext.as_str()) {
            return Err(ProximityError::InvalidEnvelope);
        }
        match codec::decode_base64url(self.ciphertext.as_str()) {
            Some(bytes) => Ok(bytes),
            None => Err(ProximityError::InvalidEnvelope),
        }
    }

    /// Checks that the envelope names the SHA-256 digest of its ciphertext.
    pub fn verify_digest(&self) -> (r: Result<(), ProximityError>)
        ensures
            match self@.ciphertext_data() {
                Some(data) => reports(r, self@.digest_error(crypto::sha256(data))),
                None => reports(r, Some(ProximityError::InvalidEnvelope)),
            },
    {
        match self.ciphertext_bytes() {
            Ok(bytes) => {
                let digest = crypto::sha256_digest(bytes.as_slice());
                self.check_digest(digest.as_slice())
            },
            Err(e) => Err(e),
        }
    }

    /// Checks that the envelope names this digest.
    pub fn check_digest(&self, digest: &[u8]) -> (r: Result<(), ProximityError>)
        requires
            digest@.len() <= 0x3fff_ffff,
        ensures
            reports(r, self@.digest_error(digest@)),
    {
        let named = codec::hex_encode(digest);
        if !text::same_text(named.as_str(), self.ciphertext_sha256.as_str()) {
            return Err(ProximityError::DigestMismatch);
        }
        Ok(())
    }

    /// Checks the signature against the public key of the enrolled device.
    pub fn verify_signature(&self, enrolled_public_key: &[u8]) -> (r: Result<(), ProximityError>)
        ensures
            r is Ok <==> self@.is_signed_by(enrolled_public_key@),
            r matches Err(e) ==> e == ProximityError::SignatureMismatch,
    {
        if enrolled_public_key.len() != 32 {
            return Err(ProximityError::SignatureMismatch);
        }
        let signature = match codec::decode_base64url(self.signature.as_str()) {
            Some(signature) => signature,
            None => {
                return Err(ProximityError::SignatureMismatch);
            },
        };
        if signature.len() != 64 {
            return Err(ProximityError::SignatureMismatch);
        }
        let message = match self.signing_bytes() {
            Ok(message) => message,
            Err(e) => {
                return Err(e);
            },
        };
        match crypto::ed25519_verify_strict(
            enrolled_public_key,
            message.as_slice(),
            signature.as_slice(),
        ) {
            Ok(()) => Ok(()),
            Err(_) => Err(ProximityError::SignatureMismatch),
        }
    }

    /// Verifies structure, digest and the enrolled device signature before any replay state can
    /// be committed.
    pub fn verify_and_accept(
        &self,
        enrolled_public_key: &[u8],
        replay_guard: &mut ProximityReplayGuard,
        now_ms: u64,
        local_device_id: u128,
        expected_sender_device_id: u128,
    ) -> (r: Result<ReplayDecision, ProximityError>)
        requires
            old(replay_guard).wf(),
        ensures
            final(replay_guard).wf(),
            match self@.receive_error(
                crypto::sha256(self@.ciphertext_data().unwrap_or(Seq::empty())),
                self@.is_signed_by(enrolled_public_key@),
            ) {
                Some(error) => {
                    &&& r matches Err(e) && e == error
                    &&& final(replay_guard)@ == old(replay_guard)@
                },
                None => {
                    let decision = old(replay_guard)@.decision(
                        self@,
                        now_ms,
                        local_device_id,
                        expected_sender_device_id,
                    );
                    &&& r matches Ok(d) && d == decision
                    &&& final(replay_guard)@ == old(replay_guard)@.after(self@, decision)
                },
            },
    {
        match self.validate_structure() {
            Ok(()) => {},
            Err(e) => {
                return Err(e);
            },
        }
        match self.verify_digest() {
            Ok(()) => {},
            Err(e) => {
                return Err(e);
            },
        }
        match self.verify_signature(enrolled_public_key) {
            Ok(()) => {},
            Err(e) => {
                return Err(e);
            },
        }
        Ok(replay_guard.accept_verified(self, now_ms, local_device_id, expected_sender_device_id))
    }
}

/// What becomes of a decoded envelope: it is handed on where its form is right.
pub open spec fn is_outcome(
    decoded: Option<ProximityEnvelope>,
    r: Result<ProximityEnvelope, ProximityError>,
) -> bool {
    match decoded {
        None => r == Err::<ProximityEnvelope, ProximityError>(ProximityError::InvalidEnvelope),
        Some(envelope) => match envelope@.structure_error() {
            Some(e) => r == Err::<ProximityEnvelope, ProximityError>(e),
            None => r == Ok::<ProximityEnvelope, ProximityError>(envelope),
        },
    }
}

/// Whether a text consists of that many small hexadecimal digits.
fn lower_hex_of_length(value: &str, length: usize) -> (r: bool)
    ensures
        r == (value@.len() == length && is_lower_hex(value@)),
{
    let chars = text::to_chars(value);
    if chars.len() != length {
        return false;
    }
    let mut i: usize = 0;
    while i < chars.len()
        invariant
            i <= chars@.len(),
            chars@ == value@,
            forall|j: int| 0 <= j < i ==> '0' <= #[trigger] chars@[j] <= '9' || 'a' <= chars@[j]
                <= 'f',
        decreases chars@.len() - i,
    {
        let c = chars[i];
        if !(('0' <= c && c <= '9') || ('a' <= c && c <= 'f')) {
            assert(!('0' <= value@[i as int] <= '9' || 'a' <= value@[i as int] <= 'f'));
            return false;
        }
        i = i + 1;
    }
    true
}

} // verus!
