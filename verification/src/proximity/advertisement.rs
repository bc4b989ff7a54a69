//! Rotating advertisements and the safety code that two users compare.

use crate::proximity::{
    self, ProximityError, DEFAULT_ADVERTISEMENT_ROTATION_MS, PROTOCOL, SERVICE_UUID,
};
use crate::{codec, crypto, text};
use vstd::prelude::*;

verus! {

/// What a device shows to devices nearby.
#[derive(Clone, Debug, PartialEq, Eq)]
pub struct ProximityAdvertisement {
    pub protocol: String,
    pub service_uuid: u128,
    pub rotation_epoch: u64,
    pub rotating_id: String,
}

/// The contents of an advertisement.
#[verifier::ext_equal]
pub struct AdvertisementView {
    pub protocol: Seq<char>,
    pub service_uuid: u128,
    pub rotation_epoch: u64,
    pub rotating_id: Seq<char>,
}

impl View for ProximityAdvertisement {
    type V = AdvertisementView;

    open spec fn view(&self) -> AdvertisementView {
        AdvertisementView {
            protocol: self.protocol@,
            service_uuid: self.service_uuid,
            rotation_epoch: self.rotation_epoch,
            rotating_id: self.rotating_id@,
        }
    }
}

impl AdvertisementView {
    /// This protocol and service, and an identifier of twelve URL-safe base64 characters.
    pub open spec fn is_valid(self) -> bool {
        &&& self.protocol == PROTOCOL@
        &&& self.service_uuid == SERVICE_UUID
        &&& self.rotating_id.len() == 12
        &&& proximity::is_base64url_text(self.rotating_id)
    }
}

/// What the rotating identifier is derived from: protocol, service, device key and epoch, with
/// zero characters between them.
pub open spec fn rotation_input(device_key_id: Seq<char>, epoch: u64) -> Seq<char> {
    PROTOCOL@ + seq!['\0'] + codec::uuid_text(SERVICE_UUID) + seq!['\0'] + device_key_id + seq!['\0']
        + text::decimal(epoch as nat)
}

/// The identifier of a device in an epoch.
pub open spec fn rotating_id(discovery_secret: Seq<u8>, device_key_id: Seq<char>, epoch: u64) -> Seq<
    char,
> {
    codec::base64url(
        crypto::hmac_sha256(
            discovery_secret,
            vstd::utf8::encode_utf8(rotation_input(device_key_id, epoch)),
        ).take(9),
    )
}

/// The advertisement of a device at a time.
pub open spec fn advertisement_at(
    discovery_secret: Seq<u8>,
    device_key_id: Seq<char>,
    now_ms: u64,
) -> AdvertisementView {
    let epoch = (now_ms / DEFAULT_ADVERTISEMENT_ROTATION_MS) as u64;
    AdvertisementView {
        protocol: PROTOCOL@,
        service_uuid: SERVICE_UUID,
        rotation_epoch: epoch,
        rotating_id: rotating_id(discovery_secret, device_key_id, epoch),
    }
}

impl ProximityAdvertisement {
    /// The advertisement of a device at a time, from a secret of at least 32 bytes.
    pub fn derive(discovery_secret: &[u8], device_key_id: &str, now_ms: u64) -> (r: Result<
        Self,
        ProximityError,
    >)
        ensures
            r is Ok <==> discovery_secret@.len() >= 32 && proximity::is_bounded_identifier(
                device_key_id@,
                128,
            ),
            r matches Ok(a) ==> a@ == advertisement_at(discovery_secret@, device_key_id@, now_ms)
                && a@.is_valid(),
            r matches Err(e) ==> e == ProximityError::InvalidAdvertisement,
    {
        if discovery_secret.len() < 32 || !proximity::bounded_identifier(device_key_id, 128) {
            return Err(ProximityError::InvalidAdvertisement);
        }
        let epoch: u64 = now_ms / DEFAULT_ADVERTISEMENT_ROTATION_MS;
        let mut input = PROTOCOL.to_owned();
        input.push('\0');
        let service = codec::format_uuid(SERVICE_UUID);
        input.append(service.as_str());
        input.push('\0');
        input.append(device_key_id);
        input.push('\0');
        let digits = text::decimal_text(epoch);
        input.append(digits.as_str());
        assert(input@ =~= rotation_input(device_key_id@, epoch));
        let tag = match crypto::hmac_sha256_tag(discovery_secret, input.as_str().as_bytes()) {
            Ok(tag) => tag,
            Err(_) => {
                return Err(ProximityError::InvalidAdvertisement);
            },
        };
        let advertisement = ProximityAdvertisement::from_tag(tag.as_slice(), epoch);
        match advertisement.validate() {
            Ok(()) => Ok(advertisement),
            Err(e) => Err(e),
        }
    }

    /// The advertisement of an epoch whose identifier is the beginning of a tag.
    pub fn from_tag(tag: &[u8], rotation_epoch: u64) -> (a: Self)
        requires
            tag@.len() >= 9,
        ensures
            a@ == (AdvertisementView {
                protocol: PROTOCOL@,
                service_uuid: SERVICE_UUID,
                rotation_epoch,
                rotating_id: codec::base64url(tag@.take(9)),
            }),
            a@.is_valid(),
    {
        let head = vstd::slice::slice_subrange(tag, 0, 9);
        assert(head@ =~= tag@.take(9));
        let a = ProximityAdvertisement {
            protocol: PROTOCOL.to_owned(),
            service_uuid: SERVICE_UUID,
            rotation_epoch,
            rotating_id: codec::base64url_encode(head),
        };
        proof {
            assert forall|i: int| 0 <= i < a.rotating_id@.len() implies proximity::is_base64url_char(
                #[trigger] a.rotating_id@[i],
            ) by {
                codec::lemma_base64url_char(head@, i);
            }
        }
        a
    }

    /// Checks the protocol, the service and the form of the identifier.
    pub fn validate(&self) -> (r: Result<(), ProximityError>)
        ensures
            r is Ok <==> self@.is_valid(),
            r matches Err(e) ==> e == ProximityError::InvalidAdvertisement,
    {
        if !text::same_text(self.protocol.as_str(), PROTOCOL) || self.service_uuid != SERVICE_UUID
            || text::to_chars(self.rotating_id.as_str()).len() != 12
            || !proximity::base64url_chars(self.rotating_id.as_str()) {
            return Err(ProximityError::InvalidAdvertisement);
        }
        Ok(())
    }

    /// The short name under which a valid advertisement is shown.
    pub fn display_name(&self) -> (r: Result<String, ProximityError>)
        ensures
            r is Ok <==> self@.is_valid(),
            r matches Ok(name) ==> name@ == "CT-"@ + self@.rotating_id.take(6),
            r matches Err(e) ==> e == ProximityError::InvalidAdvertisement,
    {
        match self.validate() {
            Ok(()) => {},
            Err(e) => {
                return Err(e);
            },
        }
        let mut name = "CT-".to_owned();
        let chars = text::to_chars(self.rotating_id.as_str());
        let head = text::chars_between(chars.as_slice(), 0, 6);
        name.append(head.as_str());
        assert(name@ =~= "CT-"@ + self@.rotating_id.take(6));
        Ok(name)
    }
}

/// Within an epoch a device shows one and the same advertisement.
pub proof fn advertisements_are_stable_within_an_epoch(
    discovery_secret: Seq<u8>,
    device_key_id: Seq<char>,
    then_ms: u64,
    now_ms: u64,
)
    requires
        then_ms / DEFAULT_ADVERTISEMENT_ROTATION_MS == now_ms / DEFAULT_ADVERTISEMENT_ROTATION_MS,
    ensures
        advertisement_at(discovery_secret, device_key_id, then_ms) == advertisement_at(
            discovery_secret,
            device_key_id,
            now_ms,
        ),
{
}

/// Different devices or epochs never share the input that identifiers are derived from.
pub proof fn rotation_inputs_are_unambiguous(
    device: Seq<char>,
    epoch: u64,
    other_device: Seq<char>,
    other_epoch: u64,
)
    requires
        proximity::is_bounded_identifier(device, 128),
        proximity::is_bounded_identifier(other_device, 128),
        rotation_input(device, epoch) == rotation_input(other_device, other_epoch),
    ensures
        device == other_device,
        epoch == other_epoch,
{
    let head = PROTOCOL@ + seq!['\0'] + codec::uuid_text(SERVICE_UUID) + seq!['\0'];
    let n = head.len() as int;
    let x = rotation_input(device, epoch);
    let y = rotation_input(other_device, other_epoch);
    assert(x =~= head + (device + seq!['\0'] + text::decimal(epoch as nat)));
    assert(y =~= head + (other_device + seq!['\0'] + text::decimal(other_epoch as nat)));
    if device.len() < other_device.len() {
        assert(x[n + device.len()] == '\0');
        assert(y[n + device.len()] == other_device[device.len() as int]);
        assert(proximity::is_identifier_char(other_device[device.len() as int]));
    } else if other_device.len() < device.len() {
        assert(y[n + other_device.len()] == '\0');
        assert(x[n + other_device.len()] == device[other_device.len() as int]);
        assert(proximity::is_identifier_char(device[other_device.len() as int]));
    }
    assert(device =~= x.subrange(n, n + device.len()));
    assert(other_device =~= y.subrange(n, n + device.len()));
    let a = text::decimal(epoch as nat);
    let b = text::decimal(other_epoch as nat);
    assert(a =~= x.skip(n + device.len() + 1));
    assert(b =~= y.skip(n + device.len() + 1));
    assert(a + seq![','] == b + seq![',']);
    crate::json::decimal_is_unambiguous(epoch as nat, other_epoch as nat, seq![','], seq![',']);
}

// ---------------------------------------------------------------------------
// Safety code
// ---------------------------------------------------------------------------

/// A length in four big-endian bytes, then the bytes.
pub open spec fn framed(component: Seq<u8>) -> Seq<u8> {
    let n = component.len() as int;
    seq![
        (n / 0x100_0000) as u8,
        (n / 0x1_0000 % 256) as u8,
        (n / 256 % 256) as u8,
        (n % 256) as u8,
    ] + component
}

/// What both devices hash: the protocol name, a zero byte, and the framed keys and nonce.
pub open spec fn transcript(
    initiator_ephemeral_key: Seq<u8>,
    responder_ephemeral_key: Seq<u8>,
    session_nonce: Seq<u8>,
) -> Seq<u8> {
    vstd::utf8::encode_utf8(PROTOCOL@) + seq![0u8] + framed(initiator_ephemeral_key) + framed(
        responder_ephemeral_key,
    ) + framed(session_nonce)
}

/// A number below a million in six digits.
pub open spec fn six_digits(n: int) -> Seq<char> {
    seq![
        text::digit(n / 100_000 % 10),
        text::digit(n / 10_000 % 10),
        text::digit(n / 1000 % 10),
        text::digit(n / 100 % 10),
        text::digit(n / 10 % 10),
        text::digit(n % 10),
    ]
}

/// The safety code for a digest: its first 31 bits after the top one, modulo a million.
pub open spec fn code_of_digest(digest: Seq<u8>) -> Seq<char> {
    let number = proximity::frame::be32(digest[0], digest[1], digest[2], digest[3]);
    six_digits(number % 0x8000_0000 % 1_000_000)
}

/// Whether a handshake component is long enough, and its length fits in four bytes.
pub open spec fn is_handshake_component(component: Seq<u8>) -> bool {
    16 <= component.len() <= u32::MAX
}

/// Appends a component with its length to a transcript.
fn put_framed(out: &mut Vec<u8>, component: &[u8])
    requires
        component@.len() <= u32::MAX,
    ensures
        final(out)@ == old(out)@ + framed(component@),
{
    let n: usize = component.len();
    out.push((n / 0x100_0000) as u8);
    out.push((n / 0x1_0000 % 256) as u8);
    out.push((n / 256 % 256) as u8);
    out.push((n % 256) as u8);
    text::append_bytes(out, component);
    assert(out@ =~= old(out)@ + framed(component@));
}

/// The safety code for a digest of at least four bytes.
pub fn safety_code_of_digest(digest: &[u8]) -> (s: String)
    requires
        digest@.len() >= 4,
    ensures
        s@ == code_of_digest(digest@),
{
    let word: u64 = digest[0] as u64 * 0x100_0000 + digest[1] as u64 * 0x1_0000 + digest[2] as u64
        * 256 + digest[3] as u64;
    let number: u64 = word % 0x8000_0000 % 1_000_000;
    let mut s = String::new();
    s.push(text::digit_char(number / 100_000 % 10));
    s.push(text::digit_char(number / 10_000 % 10));
    s.push(text::digit_char(number / 1000 % 10));
    s.push(text::digit_char(number / 100 % 10));
    s.push(text::digit_char(number / 10 % 10));
    s.push(text::digit_char(number % 10));
    assert(s@ =~= code_of_digest(digest@));
    s
}

/// The six digits that the users of two devices compare.
pub fn derive_safety_code(
    initiator_ephemeral_key: &[u8],
    responder_ephemeral_key: &[u8],
    session_nonce: &[u8],
) -> (r: Result<String, ProximityError>)
    ensures
        r is Ok <==> is_handshake_component(initiator_ephemeral_key@) && is_handshake_component(
            responder_ephemeral_key@,
        ) && is_handshake_component(session_nonce@),
        r matches Ok(code) ==> code@ == code_of_digest(
            crypto::sha256(
                transcript(initiator_ephemeral_key@, responder_ephemeral_key@, session_nonce@),
            ),
        ),
        r matches Err(e) ==> e == ProximityError::IncompleteHandshake,
{
    if initiator_ephemeral_key.len() < 16 || responder_ephemeral_key.len() < 16
        || session_nonce.len() < 16 {
        return Err(ProximityError::IncompleteHandshake);
    }
    if initiator_ephemeral_key.len() as u64 > 0xffff_ffff || responder_ephemeral_key.len() as u64
        > 0xffff_ffff || session_nonce.len() as u64 > 0xffff_ffff {
        return Err(ProximityError::IncompleteHandshake);
    }
    let mut bytes: Vec<u8> = Vec::new();
    text::append_bytes(&mut bytes, PROTOCOL.as_bytes());
    bytes.push(0);
    put_framed(&mut bytes, initiator_ephemeral_key);
    put_framed(&mut bytes, responder_ephemeral_key);
    put_framed(&mut bytes, session_nonce);
    assert(bytes@ =~= transcript(
        initiator_ephemeral_key@,
        responder_ephemeral_key@,
        session_nonce@,
    ));
    let digest = crypto::sha256_digest(bytes.as_slice());
    Ok(safety_code_of_digest(digest.as_slice()))
}

proof fn lemma_framed_prefix(a: Seq<u8>, b: Seq<u8>, p: Seq<u8>, q: Seq<u8>)
    requires
        a.len() <= u32::MAX,
        b.len() <= u32::MAX,
        framed(a) + p == framed(b) + q,
    ensures
        a == b,
        p == q,
{
    let x = framed(a) + p;
    let y = framed(b) + q;
    assert(x[0] == framed(a)[0] && x[1] == framed(a)[1] && x[2] == framed(a)[2] && x[3] == framed(
        a,
    )[3]);
    assert(y[0] == framed(b)[0] && y[1] == framed(b)[1] && y[2] == framed(b)[2] && y[3] == framed(
        b,
    )[3]);
    assert(a.len() == b.len());
    assert(a =~= x.subrange(4, 4 + a.len() as int));
    assert(b =~= y.subrange(4, 4 + a.len() as int));
    assert(p =~= x.skip(4 + a.len() as int));
    assert(q =~= y.skip(4 + a.len() as int));
}

/// Different handshakes have different transcripts.
pub proof fn transcripts_are_unambiguous(
    i1: Seq<u8>,
    r1: Seq<u8>,
    n1: Seq<u8>,
    i2: Seq<u8>,
    r2: Seq<u8>,
    n2: Seq<u8>,
)
    requires
        is_handshake_component(i1),
        is_handshake_component(r1),
        is_handshake_component(n1),
        is_handshake_component(i2),
        is_handshake_component(r2),
        is_handshake_component(n2),
        transcript(i1, r1, n1) == transcript(i2, r2, n2),
    ensures
        i1 == i2,
        r1 == r2,
        n1 == n2,
{
    let head = vstd::utf8::encode_utf8(PROTOCOL@) + seq![0u8];
    let empty = Seq::<u8>::empty();
    let c1 = framed(n1) + empty;
    let c2 = framed(n2) + empty;
    let b1 = framed(r1) + c1;
    let b2 = framed(r2) + c2;
    let a1 = framed(i1) + b1;
    let a2 = framed(i2) + b2;
    assert(transcript(i1, r1, n1) =~= head + a1);
    assert(transcript(i2, r2, n2) =~= head + a2);
    assert(a1 =~= (head + a1).skip(head.len() as int));
    assert(a2 =~= (head + a2).skip(head.len() as int));
    lemma_framed_prefix(i1, i2, b1, b2);
    lemma_framed_prefix(r1, r2, c1, c2);
    lemma_framed_prefix(n1, n2, empty, empty);
}

// ---------------------------------------------------------------------------
// What is shown and compared
// ---------------------------------------------------------------------------

/// An advertisement is valid exactly where it names the protocol and the service and its identifier
/// has twelve letters, digits, underscores or hyphens.
pub proof fn advertisements_are_valid_by_their_form(a: AdvertisementView)
    ensures
        a.is_valid() <==> a.protocol == "cliptown.proximity.v1"@ && a.service_uuid
            == 0xc11f7a00_7b9e_4d8a_9c3a_4b8a0d86e001 && a.rotating_id.len() == 12 && forall|i: int|
            0 <= i < 12 ==> {
                let c = #[trigger] a.rotating_id[i];
                'a' <= c <= 'z' || 'A' <= c <= 'Z' || '0' <= c <= '9' || c == '_' || c == '-'
            },
{
    if a.is_valid() {
        assert forall|i: int| 0 <= i < 12 implies {
            let c = #[trigger] a.rotating_id[i];
            'a' <= c <= 'z' || 'A' <= c <= 'Z' || '0' <= c <= '9' || c == '_' || c == '-'
        } by {
            assert(proximity::is_base64url_char(a.rotating_id[i]));
        }
    }
}

/// Advertisements change every two minutes. The identifier is the beginning of the tag, under the
/// secret, of the protocol, the service, the device key and the number of the two minutes.
pub proof fn advertisements_rotate_every_two_minutes(
    discovery_secret: Seq<u8>,
    device_key_id: Seq<char>,
    now_ms: u64,
)
    ensures
        ({
            let a = advertisement_at(discovery_secret, device_key_id, now_ms);
            let input = "cliptown.proximity.v1"@ + seq!['\0'] + codec::uuid_text(
                0xc11f7a00_7b9e_4d8a_9c3a_4b8a0d86e001,
            ) + seq!['\0'] + device_key_id + seq!['\0'] + text::decimal(a.rotation_epoch as nat);
            &&& a.protocol == "cliptown.proximity.v1"@
            &&& a.service_uuid == 0xc11f7a00_7b9e_4d8a_9c3a_4b8a0d86e001
            &&& a.rotation_epoch * 120_000 <= now_ms < a.rotation_epoch * 120_000 + 120_000
            &&& a.rotating_id == codec::base64url(
                crypto::hmac_sha256(
                    discovery_secret,
                    vstd::utf8::encode_utf8(input),
                ).subrange(0, 9),
            )
        }),
{
    let a = advertisement_at(discovery_secret, device_key_id, now_ms);
    let tag = crypto::hmac_sha256(
        discovery_secret,
        vstd::utf8::encode_utf8(rotation_input(device_key_id, a.rotation_epoch)),
    );
    assert(tag.take(9) =~= tag.subrange(0, 9));
}

/// A handshake is complete where each of its components has at least 16 bytes, and no more than four
/// bytes can count.
pub proof fn handshake_components_have_sixteen_bytes(component: Seq<u8>)
    ensures
        is_handshake_component(component) <==> 16 <= component.len() < 0x1_0000_0000,
{
}

/// Before a component stand four bytes that say its length, the highest first.
pub proof fn components_stand_behind_their_length(component: Seq<u8>)
    requires
        component.len() < 0x1_0000_0000,
    ensures
        framed(component).len() == component.len() + 4,
        framed(component).subrange(4, framed(component).len() as int) == component,
        component.len() == 0x100_0000 * framed(component)[0] + 0x1_0000 * framed(component)[1] + 0x100
            * framed(component)[2] + framed(component)[3],
{
    let n = component.len() as int;
    assert(framed(component).subrange(4, framed(component).len() as int) =~= component);
    assert(n / 0x100_0000 < 256);
    assert(n / 0x1_0000 == n / 0x100 / 0x100);
    assert(n / 0x100_0000 == n / 0x1_0000 / 0x100);
}

/// What both devices hash: the protocol and a zero byte, then both keys and the nonce, each behind
/// its length.
pub proof fn transcripts_hold_keys_and_nonce(
    initiator_ephemeral_key: Seq<u8>,
    responder_ephemeral_key: Seq<u8>,
    session_nonce: Seq<u8>,
)
    ensures
        ({
            let head = vstd::utf8::encode_utf8("cliptown.proximity.v1"@).push(0);
            let a = framed(initiator_ephemeral_key);
            let b = framed(responder_ephemeral_key);
            let c = framed(session_nonce);
            transcript(initiator_ephemeral_key, responder_ephemeral_key, session_nonce) == head + a + b
                + c
        }),
{
    assert(vstd::utf8::encode_utf8("cliptown.proximity.v1"@) + seq![0u8]
        =~= vstd::utf8::encode_utf8("cliptown.proximity.v1"@).push(0));
}

/// A safety code has six decimal digits. They stand for the number that the first four bytes of the
/// digest are without their highest bit, modulo a million.
pub proof fn safety_codes_are_numbers_below_a_million(digest: Seq<u8>)
    requires
        digest.len() >= 4,
    ensures
        ({
            let code = code_of_digest(digest);
            let n = (digest[0] % 128) * 0x100_0000 + digest[1] * 0x1_0000 + digest[2] * 0x100
                + digest[3];
            &&& code.len() == 6
            &&& forall|i: int| 0 <= i < 6 ==> '0' <= #[trigger] code[i] <= '9'
            &&& n % 1_000_000 == (code[0] as int - 48) * 100_000 + (code[1] as int - 48) * 10_000 + (
            code[2] as int - 48) * 1000 + (code[3] as int - 48) * 100 + (code[4] as int - 48) * 10 + (
            code[5] as int - 48)
        }),
{
    let word = proximity::frame::be32(digest[0], digest[1], digest[2], digest[3]) as int;
    let n = (digest[0] % 128) * 0x100_0000 + digest[1] * 0x1_0000 + digest[2] * 0x100 + digest[3];
    assert(word % 0x8000_0000 == n) by {
        assert(digest[0] as int == (digest[0] as int / 128) * 128 + digest[0] as int % 128);
    }
    let m = n % 1_000_000;
    let code = code_of_digest(digest);
    assert(code == six_digits(m));
    assert(m / 10 / 10 == m / 100);
    assert(m / 100 / 10 == m / 1000);
    assert(m / 1000 / 10 == m / 10_000);
    assert(m / 10_000 / 10 == m / 100_000);
    assert(m / 100_000 < 10);
    assert(code[0] as int == m / 100_000 % 10 + 48);
    assert(code[1] as int == m / 10_000 % 10 + 48);
    assert(code[2] as int == m / 1000 % 10 + 48);
    assert(code[3] as int == m / 100 % 10 + 48);
    assert(code[4] as int == m / 10 % 10 + 48);
    assert(code[5] as int == m % 10 + 48);
}

} // verus!
