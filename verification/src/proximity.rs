//! Fail-closed proximity wire, replay, consent and BLE framing rules.
//!
//! Bluetooth is an untrusted byte transport. It never proves identity or raises
//! Shared Auth assurance; callers must verify enrolled device signatures and
//! obtain separate one-use user consent before decrypting or importing a clip.

use crate::text;
use vstd::prelude::*;

pub mod advertisement;
pub mod consent;
pub mod envelope;
pub mod envelope_laws;
pub mod frame;
pub mod frame_laws;
pub mod receipt_laws;
pub mod replay;
pub mod replay_laws;

pub use advertisement::{derive_safety_code, ProximityAdvertisement};
pub use consent::{ConsentState, ProximityConsentGate};
pub use envelope::{ProximityEnvelope, ProximityMessageKind};
pub use frame::{fragment_ble_message, fragment_with_id, BleFrameReassembler};
pub use replay::{ProximityReplayGuard, ReplayDecision};

verus! {

/// The protocol name that every advertisement and envelope carries.
pub const PROTOCOL: &'static str = "cliptown.proximity.v1";

/// The GATT service that ClipTown devices offer.
pub const SERVICE_UUID: u128 = 0xc11f7a00_7b9e_4d8a_9c3a_4b8a0d86e001;

/// The largest ciphertext an envelope may carry.
pub const MAX_CIPHERTEXT_BYTES: usize = 32_768;

/// The largest encoded envelope.
pub const MAX_ENCODED_ENVELOPE_BYTES: usize = 49_152;

/// The longest time between the issue and the expiry of an envelope.
pub const MAX_MESSAGE_LIFETIME_MS: u64 = 120_000;

/// How far in the future an envelope may have been issued.
pub const MAX_CLOCK_SKEW_MS: u64 = 30_000;

/// How long a rotating identifier lives.
pub const DEFAULT_ADVERTISEMENT_ROTATION_MS: u64 = 120_000;

/// Why a proximity operation was refused.
#[derive(Clone, Copy, Debug, PartialEq, Eq, Structural)]
pub enum ProximityError {
    InvalidAdvertisement,
    IncompleteHandshake,
    InvalidEnvelope,
    OversizedEnvelope,
    Expired,
    FromFuture,
    DigestMismatch,
    SignatureMismatch,
    InvalidCapacity,
    InvalidFrame,
    ConsentState,
}

impl ProximityError {
    /// The sentence that is shown to the user.
    pub open spec fn message_text(self) -> &'static str {
        match self {
            ProximityError::InvalidAdvertisement => "invalid or linkable proximity advertisement",
            ProximityError::IncompleteHandshake => "incomplete proximity handshake transcript",
            ProximityError::InvalidEnvelope => "invalid proximity envelope",
            ProximityError::OversizedEnvelope => "proximity envelope exceeds reviewed size",
            ProximityError::Expired => "proximity envelope expired",
            ProximityError::FromFuture => "proximity envelope was issued too far in the future",
            ProximityError::DigestMismatch => "proximity ciphertext digest mismatch",
            ProximityError::SignatureMismatch => "proximity device signature mismatch",
            ProximityError::InvalidCapacity => "invalid replay or reassembly capacity",
            ProximityError::InvalidFrame => "invalid BLE frame",
            ProximityError::ConsentState => "invalid proximity consent transition",
        }
    }

    /// The sentence that is shown to the user.
    pub fn message(&self) -> (s: &'static str)
        ensures
            s@ == self.message_text()@,
    {
        match self {
            ProximityError::InvalidAdvertisement => "invalid or linkable proximity advertisement",
            ProximityError::IncompleteHandshake => "incomplete proximity handshake transcript",
            ProximityError::InvalidEnvelope => "invalid proximity envelope",
            ProximityError::OversizedEnvelope => "proximity envelope exceeds reviewed size",
            ProximityError::Expired => "proximity envelope expired",
            ProximityError::FromFuture => "proximity envelope was issued too far in the future",
            ProximityError::DigestMismatch => "proximity ciphertext digest mismatch",
            ProximityError::SignatureMismatch => "proximity device signature mismatch",
            ProximityError::InvalidCapacity => "invalid replay or reassembly capacity",
            ProximityError::InvalidFrame => "invalid BLE frame",
            ProximityError::ConsentState => "invalid proximity consent transition",
        }
    }
}

/// ASCII letters and digits.
pub open spec fn is_alphanumeric(c: char) -> bool {
    'a' <= c <= 'z' || 'A' <= c <= 'Z' || '0' <= c <= '9'
}

/// The characters of identifiers.
pub open spec fn is_identifier_char(c: char) -> bool {
    is_alphanumeric(c) || c == '.' || c == '_' || c == ':' || c == '@' || c == '/' || c == '-'
}

/// The characters of URL-safe base64.
pub open spec fn is_base64url_char(c: char) -> bool {
    is_alphanumeric(c) || c == '_' || c == '-'
}

/// A non-empty identifier of at most `maximum` characters.
pub open spec fn is_bounded_identifier(s: Seq<char>, maximum: nat) -> bool {
    0 < s.len() <= maximum && forall|i: int| 0 <= i < s.len() ==> is_identifier_char(#[trigger] s[i])
}

/// A non-empty text of URL-safe base64 characters.
pub open spec fn is_base64url_text(s: Seq<char>) -> bool {
    0 < s.len() && forall|i: int| 0 <= i < s.len() ==> is_base64url_char(#[trigger] s[i])
}

/// Whether a text is an identifier of at most `maximum` bytes.
pub fn bounded_identifier(value: &str, maximum: usize) -> (r: bool)
    ensures
        r == is_bounded_identifier(value@, maximum as nat),
{
    let chars = text::to_chars(value);
    if chars.len() == 0 || chars.len() > maximum {
        return false;
    }
    let mut i: usize = 0;
    while i < chars.len()
        invariant
            i <= chars@.len(),
            chars@ == value@,
            forall|j: int| 0 <= j < i ==> is_identifier_char(#[trigger] chars@[j]),
        decreases chars@.len() - i,
    {
        let c = chars[i];
        if !(('a' <= c && c <= 'z') || ('A' <= c && c <= 'Z') || ('0' <= c && c <= '9') || c == '.'
            || c == '_' || c == ':' || c == '@' || c == '/' || c == '-') {
            assert(!is_identifier_char(chars@[i as int]));
            return false;
        }
        i = i + 1;
    }
    true
}

/// Whether a text is non-empty and made of URL-safe base64 characters.
pub fn base64url_chars(value: &str) -> (r: bool)
    ensures
        r == is_base64url_text(value@),
{
    let chars = text::to_chars(value);
    if chars.len() == 0 {
        return false;
    }
    let mut i: usize = 0;
    while i < chars.len()
        invariant
            i <= chars@.len(),
            chars@ == value@,
            forall|j: int| 0 <= j < i ==> is_base64url_char(#[trigger] chars@[j]),
        decreases chars@.len() - i,
    {
        let c = chars[i];
        if !(('a' <= c && c <= 'z') || ('A' <= c && c <= 'Z') || ('0' <= c && c <= '9') || c == '_'
            || c == '-') {
            assert(!is_base64url_char(chars@[i as int]));
            return false;
        }
        i = i + 1;
    }
    true
}

} // verus!
