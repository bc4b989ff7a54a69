use base64::engine::general_purpose::URL_SAFE_NO_PAD;
use base64::Engine as _;
use cliptown_desktop::proximity::advertisement::safety_code_of_digest;
use cliptown_desktop::proximity::{
    base64url_chars, bounded_identifier, derive_safety_code, fragment_ble_message,
    fragment_with_id, BleFrameReassembler, ConsentState, ProximityAdvertisement,
    ProximityConsentGate, ProximityEnvelope, ProximityError, ProximityMessageKind,
    ProximityReplayGuard, ReplayDecision, DEFAULT_ADVERTISEMENT_ROTATION_MS,
    MAX_CIPHERTEXT_BYTES, MAX_CLOCK_SKEW_MS, MAX_ENCODED_ENVELOPE_BYTES, MAX_MESSAGE_LIFETIME_MS,
    PROTOCOL, SERVICE_UUID,
};
use ed25519_dalek::{Signer as _, SigningKey};
use sha2::{Digest as _, Sha256};

const NOW: u64 = 1_787_590_800_000;
const SENDER: u128 = 0x22222222_2222_4222_8222_222222222222;
const RECIPIENT: u128 = 0x33333333_3333_4333_8333_333333333333;
const MESSAGE: u128 = 0xaaaaaaaa_aaaa_4aaa_8aaa_aaaaaaaaaaaa;

fn envelope(sequence: u32, id: u128, key: &SigningKey) -> ProximityEnvelope {
    let ciphertext = b"encrypted-clip-envelope";
    let mut value = ProximityEnvelope {
        protocol: PROTOCOL.to_owned(),
        message_kind: ProximityMessageKind::ClipboardOffer,
        message_id: id,
        session_id: "AQIDBAUGBwgJCgsMDQ4PEA".to_owned(),
        sequence,
        issued_at_unix_ms: NOW,
        expires_at_unix_ms: NOW + MAX_MESSAGE_LIFETIME_MS,
        sender_device_id: SENDER,
        recipient_device_id: RECIPIENT,
        scope: ProximityMessageKind::ClipboardOffer
            .required_scope()
            .to_owned(),
        ciphertext: URL_SAFE_NO_PAD.encode(ciphertext),
        ciphertext_sha256: hex::encode(Sha256::digest(ciphertext)),
        signing_key_id: "device-key-1".to_owned(),
        signature: URL_SAFE_NO_PAD.encode([0_u8; 64]),
    };
    sign(&mut value, key);
    value
}

fn sign(value: &mut ProximityEnvelope, key: &SigningKey) {
    value.signature = URL_SAFE_NO_PAD.encode(key.sign(&value.signing_bytes().unwrap()).to_bytes());
}

fn signing_key() -> SigningKey {
    SigningKey::from_bytes(&[9_u8; 32])
}

fn accept(
    value: &ProximityEnvelope,
    guard: &mut ProximityReplayGuard,
    now_ms: u64,
) -> Result<ReplayDecision, ProximityError> {
    value.verify_and_accept(
        signing_key().verifying_key().as_bytes(),
        guard,
        now_ms,
        RECIPIENT,
        SENDER,
    )
}

#[test]
fn advertisements_rotate_without_stable_device_metadata() {
    let secret = [7_u8; 32];
    let first = ProximityAdvertisement::derive(&secret, "device-key-1", NOW).unwrap();
    let next = ProximityAdvertisement::derive(
        &secret,
        "device-key-1",
        NOW + DEFAULT_ADVERTISEMENT_ROTATION_MS,
    )
    .unwrap();
    assert_ne!(first.rotating_id, next.rotating_id);
    assert!(!format!("{first:?}").contains("device-key-1"));
    assert!(first.display_name().unwrap().starts_with("CT-"));
}

#[test]
fn advertisements_have_the_derived_identifier() {
    let secret = [7_u8; 32];
    let first = ProximityAdvertisement::derive(&secret, "device-key-1", NOW).unwrap();
    assert_eq!(first.protocol, PROTOCOL);
    assert_eq!(first.service_uuid, SERVICE_UUID);
    assert_eq!(first.rotation_epoch, 14_896_590);
    assert_eq!(first.rotating_id, "odOkdNRDhyvX");
    assert_eq!(first.display_name().unwrap(), "CT-odOkdN");
    let next = ProximityAdvertisement::derive(&secret, "device-key-1", NOW + 120_000).unwrap();
    assert_eq!(next.rotating_id, "uMF68B5x3Y_E");
    let same = ProximityAdvertisement::derive(&secret, "device-key-1", NOW + 119_999).unwrap();
    assert_eq!(same, first);
}

#[test]
fn advertisements_are_refused() {
    let short = ProximityAdvertisement::derive(&[7; 31], "device-key-1", NOW);
    assert_eq!(short, Err(ProximityError::InvalidAdvertisement));
    let unnamed = ProximityAdvertisement::derive(&[7; 32], "", NOW);
    assert_eq!(unnamed, Err(ProximityError::InvalidAdvertisement));
    let long = ProximityAdvertisement::derive(&[7; 32], &"k".repeat(129), NOW);
    assert_eq!(long, Err(ProximityError::InvalidAdvertisement));
    let spaced = ProximityAdvertisement::derive(&[7; 32], "a b", NOW);
    assert_eq!(spaced, Err(ProximityError::InvalidAdvertisement));
    let mut value = ProximityAdvertisement::from_tag(&[1; 9], 1);
    assert_eq!(value.rotating_id, "AQEBAQEBAQEB");
    value.rotating_id = "short".to_owned();
    assert_eq!(
        value.display_name(),
        Err(ProximityError::InvalidAdvertisement)
    );
}

#[test]
fn safety_code_changes_with_transcript() {
    let first = derive_safety_code(&[1; 32], &[2; 32], &[3; 32]).unwrap();
    let second = derive_safety_code(&[1; 32], &[2; 32], &[4; 32]).unwrap();
    assert_eq!(first.len(), 6);
    assert_ne!(first, second);
}

#[test]
fn safety_codes_have_their_values() {
    assert_eq!(
        derive_safety_code(&[1; 32], &[2; 32], &[3; 32]).unwrap(),
        "874283"
    );
    assert_eq!(
        derive_safety_code(&[1; 32], &[2; 32], &[4; 32]).unwrap(),
        "353612"
    );
    assert_eq!(
        derive_safety_code(&[1; 15], &[2; 32], &[4; 32]),
        Err(ProximityError::IncompleteHandshake)
    );
    assert_eq!(safety_code_of_digest(&[0x80, 0, 0, 7]), "000007");
    assert_eq!(safety_code_of_digest(&[0xff, 0xff, 0xff, 0xff]), "483647");
}

#[test]
fn handshakes_and_devices_are_told_apart() {
    let first = derive_safety_code(&[1; 16], &[1; 17], &[3; 16]).unwrap();
    let second = derive_safety_code(&[1; 17], &[1; 16], &[3; 16]).unwrap();
    assert_ne!(first, second);
    let one = ProximityAdvertisement::derive(&[7; 32], "device-key-1", NOW).unwrap();
    let two = ProximityAdvertisement::derive(&[7; 32], "device-key-2", NOW).unwrap();
    assert_ne!(one.rotating_id, two.rotating_id);
}

#[test]
fn signature_digest_and_replay_guards_fail_closed() {
    let key = SigningKey::from_bytes(&[9_u8; 32]);
    let value = envelope(1, MESSAGE, &key);
    value.verify_digest().unwrap();
    value
        .verify_signature(key.verifying_key().as_bytes())
        .unwrap();
    let mut replay = ProximityReplayGuard::new(16).unwrap();
    assert_eq!(
        value
            .verify_and_accept(
                key.verifying_key().as_bytes(),
                &mut replay,
                NOW,
                RECIPIENT,
                SENDER
            )
            .unwrap(),
        ReplayDecision::Accepted
    );
    assert_eq!(
        value
            .verify_and_accept(
                key.verifying_key().as_bytes(),
                &mut replay,
                NOW,
                RECIPIENT,
                SENDER
            )
            .unwrap(),
        ReplayDecision::Duplicate
    );
    let mut wrong_recipient = ProximityReplayGuard::new(16).unwrap();
    assert_eq!(
        value
            .verify_and_accept(
                key.verifying_key().as_bytes(),
                &mut wrong_recipient,
                NOW,
                SENDER,
                SENDER
            )
            .unwrap(),
        ReplayDecision::WrongRecipient
    );

    let mut unsigned = value.clone();
    unsigned.signature = URL_SAFE_NO_PAD.encode([0_u8; 64]);
    let mut signature_guard = ProximityReplayGuard::new(16).unwrap();
    assert_eq!(
        unsigned.verify_and_accept(
            key.verifying_key().as_bytes(),
            &mut signature_guard,
            NOW,
            RECIPIENT,
            SENDER
        ),
        Err(ProximityError::SignatureMismatch)
    );
    assert_eq!(
        value
            .verify_and_accept(
                key.verifying_key().as_bytes(),
                &mut signature_guard,
                NOW,
                RECIPIENT,
                SENDER
            )
            .unwrap(),
        ReplayDecision::Accepted
    );
}

#[test]
fn signing_bytes_are_the_unsigned_members() {
    let value = envelope(1, MESSAGE, &signing_key());
    let unsigned = "{\"protocol\":\"cliptown.proximity.v1\",\
        \"message_kind\":\"clipboard_offer\",\
        \"message_id\":\"aaaaaaaa-aaaa-4aaa-8aaa-aaaaaaaaaaaa\",\
        \"session_id\":\"AQIDBAUGBwgJCgsMDQ4PEA\",\
        \"sequence\":1,\
        \"issued_at_unix_ms\":1787590800000,\
        \"expires_at_unix_ms\":1787590920000,\
        \"sender_device_id\":\"22222222-2222-4222-8222-222222222222\",\
        \"recipient_device_id\":\"33333333-3333-4333-8333-333333333333\",\
        \"scope\":\"cliptown:clipboard:import\",\
        \"ciphertext\":\"ZW5jcnlwdGVkLWNsaXAtZW52ZWxvcGU\",\
        \"ciphertext_sha256\":\"ee2ac3b94f1c16089138a5bc5f49735f23a7a3c6ccf5c2a8f3142f6f129a11d9\",\
        \"signing_key_id\":\"device-key-1\"";
    let signed = String::from_utf8(value.signing_bytes().unwrap()).unwrap();
    assert_eq!(signed, format!("{unsigned}}}"));
    let encoded = String::from_utf8(value.to_vec().unwrap()).unwrap();
    assert_eq!(
        encoded,
        format!("{unsigned},\"signature\":\"{}\"}}", value.signature)
    );
}

#[test]
fn written_envelopes_are_read_back() {
    let value = envelope(1, MESSAGE, &signing_key());
    let bytes = value.to_vec().unwrap();
    let decoded = value.clone();
    let read = ProximityEnvelope::from_slice(&bytes, |_| Some(decoded)).unwrap();
    assert_eq!(read, value);
    let unreadable = ProximityEnvelope::from_slice(&bytes, |_| None);
    assert_eq!(unreadable, Err(ProximityError::InvalidEnvelope));
    let empty = ProximityEnvelope::from_slice(&[], |_| unreachable!());
    assert_eq!(empty, Err(ProximityError::OversizedEnvelope));
    let large = vec![b' '; MAX_ENCODED_ENVELOPE_BYTES + 1];
    let oversized = ProximityEnvelope::from_slice(&large, |_| unreachable!());
    assert_eq!(oversized, Err(ProximityError::OversizedEnvelope));
    let mut wrong = value.clone();
    wrong.sequence = 0;
    assert_eq!(
        ProximityEnvelope::from_decoded(Some(wrong)),
        Err(ProximityError::InvalidEnvelope)
    );
}

#[test]
fn the_largest_envelopes_fit() {
    let key = signing_key();
    let mut value = envelope(0x7fff_ffff, MESSAGE, &key);
    let ciphertext = vec![0xab_u8; MAX_CIPHERTEXT_BYTES];
    value.ciphertext = URL_SAFE_NO_PAD.encode(&ciphertext);
    value.ciphertext_sha256 = hex::encode(Sha256::digest(&ciphertext));
    value.session_id = "s".repeat(86);
    value.signing_key_id = "/".repeat(128);
    value.issued_at_unix_ms = u64::MAX - 1;
    value.expires_at_unix_ms = u64::MAX;
    sign(&mut value, &key);
    value.verify_digest().unwrap();
    assert_eq!(value.ciphertext_bytes().unwrap(), ciphertext);
    assert!(value.to_vec().unwrap().len() <= MAX_ENCODED_ENVELOPE_BYTES);
    value.ciphertext = URL_SAFE_NO_PAD.encode(vec![0; MAX_CIPHERTEXT_BYTES + 1]);
    assert_eq!(value.to_vec(), Err(ProximityError::OversizedEnvelope));
}

#[test]
fn structures_are_refused() {
    let good = envelope(1, MESSAGE, &signing_key());
    assert_eq!(good.validate_structure(), Ok(()));
    let invalid = Err(ProximityError::InvalidEnvelope);

    let mut value = good.clone();
    value.protocol = "cliptown.proximity.v2".to_owned();
    assert_eq!(value.validate_structure(), invalid);
    let mut value = good.clone();
    value.session_id = "A".repeat(21);
    assert_eq!(value.validate_structure(), invalid);
    let mut value = good.clone();
    value.session_id = "A".repeat(87);
    assert_eq!(value.validate_structure(), invalid);
    let mut value = good.clone();
    value.session_id = "A+".repeat(12);
    assert_eq!(value.validate_structure(), invalid);
    let mut value = good.clone();
    value.sequence = 0x8000_0000;
    assert_eq!(value.validate_structure(), invalid);
    let mut value = good.clone();
    value.expires_at_unix_ms = value.issued_at_unix_ms;
    assert_eq!(value.validate_structure(), invalid);
    let mut value = good.clone();
    value.expires_at_unix_ms += 1;
    assert_eq!(value.validate_structure(), invalid);
    let mut value = good.clone();
    value.recipient_device_id = SENDER;
    assert_eq!(value.validate_structure(), invalid);
    let mut value = good.clone();
    value.scope = "shared-auth:step-up:relay".to_owned();
    assert_eq!(value.validate_structure(), invalid);
    let mut value = good.clone();
    value.ciphertext_sha256 = value.ciphertext_sha256.to_uppercase();
    assert_eq!(value.validate_structure(), invalid);
    let mut value = good.clone();
    value.signing_key_id = "device key".to_owned();
    assert_eq!(value.validate_structure(), invalid);
    let mut value = good.clone();
    value.ciphertext = String::new();
    assert_eq!(value.validate_structure(), invalid);
    let mut value = good.clone();
    value.ciphertext = "A".to_owned();
    assert_eq!(value.validate_structure(), invalid);
    assert_eq!(
        value.verify_digest(),
        Err(ProximityError::InvalidEnvelope)
    );
    let mut value = good.clone();
    value.ciphertext = "AB".to_owned();
    assert_eq!(value.validate_structure(), invalid);
    let mut value = good.clone();
    value.signature = URL_SAFE_NO_PAD.encode([0_u8; 63]);
    assert_eq!(value.validate_structure(), invalid);
    let mut value = good;
    value.signature = "=".to_owned();
    assert_eq!(value.validate_structure(), invalid);
}

#[test]
fn digests_and_signatures_are_checked() {
    let key = signing_key();
    let good = envelope(1, MESSAGE, &key);
    let public = key.verifying_key();
    assert_eq!(
        good.check_digest(&Sha256::digest(b"encrypted-clip-envelope")),
        Ok(())
    );
    assert_eq!(
        good.check_digest(&[0; 32]),
        Err(ProximityError::DigestMismatch)
    );
    let mut value = good.clone();
    value.ciphertext = URL_SAFE_NO_PAD.encode(b"other");
    assert_eq!(value.verify_digest(), Err(ProximityError::DigestMismatch));
    assert_eq!(
        good.verify_signature(&public.as_bytes()[..31]),
        Err(ProximityError::SignatureMismatch)
    );
    let other = SigningKey::from_bytes(&[8_u8; 32]);
    assert_eq!(
        good.verify_signature(other.verifying_key().as_bytes()),
        Err(ProximityError::SignatureMismatch)
    );
    let mut value = good.clone();
    value.sequence = 2;
    assert_eq!(
        value.verify_signature(public.as_bytes()),
        Err(ProximityError::SignatureMismatch)
    );
    let mut value = good;
    value.signature = "?".to_owned();
    assert_eq!(
        value.verify_signature(public.as_bytes()),
        Err(ProximityError::SignatureMismatch)
    );
}

#[test]
fn times_are_checked() {
    let value = envelope(1, MESSAGE, &signing_key());
    assert_eq!(value.validate_time(NOW), Ok(()));
    assert_eq!(value.validate_time(NOW - MAX_CLOCK_SKEW_MS), Ok(()));
    assert_eq!(
        value.validate_time(NOW - MAX_CLOCK_SKEW_MS - 1),
        Err(ProximityError::FromFuture)
    );
    assert_eq!(value.validate_time(NOW + 119_999), Ok(()));
    assert_eq!(
        value.validate_time(NOW + 120_000),
        Err(ProximityError::Expired)
    );
    assert_eq!(value.validate_time(u64::MAX), Err(ProximityError::Expired));
}

#[test]
fn replay_decisions() {
    let key = signing_key();
    let mut guard = ProximityReplayGuard::new(16).unwrap();
    let first = envelope(5, 1, &key);
    assert_eq!(
        guard.decide(&first, NOW, RECIPIENT, SENDER),
        ReplayDecision::Accepted
    );
    assert_eq!(accept(&first, &mut guard, NOW), Ok(ReplayDecision::Accepted));
    assert_eq!(
        guard.decide(&first, NOW, RECIPIENT, SENDER),
        ReplayDecision::Duplicate
    );
    let same = envelope(5, 2, &key);
    assert_eq!(
        accept(&same, &mut guard, NOW),
        Ok(ReplayDecision::OutOfOrder)
    );
    let later = envelope(6, 2, &key);
    assert_eq!(
        guard.decide(&later, NOW, RECIPIENT, 7),
        ReplayDecision::WrongSender
    );
    assert_eq!(
        guard.decide(&later, NOW, 7, SENDER),
        ReplayDecision::WrongRecipient
    );
    assert_eq!(
        accept(&later, &mut guard, NOW + 120_000),
        Ok(ReplayDecision::Expired)
    );
    assert_eq!(
        accept(&later, &mut guard, NOW - 30_001),
        Ok(ReplayDecision::FromFuture)
    );
    assert_eq!(accept(&later, &mut guard, NOW), Ok(ReplayDecision::Accepted));
    let mut invalid = later;
    invalid.sequence = 0;
    assert_eq!(
        guard.decide(&invalid, NOW, RECIPIENT, SENDER),
        ReplayDecision::Invalid
    );
    assert_eq!(
        accept(&invalid, &mut guard, NOW),
        Err(ProximityError::InvalidEnvelope)
    );
}

#[test]
fn the_guard_forgets_the_oldest_message_first() {
    let key = signing_key();
    let mut guard = ProximityReplayGuard::new(16).unwrap();
    for i in 1..=16_u32 {
        let value = envelope(i, u128::from(i), &key);
        assert_eq!(accept(&value, &mut guard, NOW), Ok(ReplayDecision::Accepted));
    }
    let again = envelope(20, 1, &key);
    assert_eq!(
        guard.decide(&again, NOW, RECIPIENT, SENDER),
        ReplayDecision::Duplicate
    );
    let more = envelope(17, 17, &key);
    assert_eq!(accept(&more, &mut guard, NOW), Ok(ReplayDecision::Accepted));
    assert_eq!(
        guard.decide(&again, NOW, RECIPIENT, SENDER),
        ReplayDecision::Accepted
    );
    let second = envelope(20, 2, &key);
    assert_eq!(
        guard.decide(&second, NOW, RECIPIENT, SENDER),
        ReplayDecision::Duplicate
    );
}

#[test]
fn the_guard_forgets_the_oldest_session_first() {
    let key = signing_key();
    let mut guard = ProximityReplayGuard::new(16).unwrap();
    for i in 0..17_u32 {
        let mut value = envelope(9, u128::from(i) + 1, &key);
        value.session_id = format!("AQIDBAUGBwgJCgsMDQ4P{i:02}");
        sign(&mut value, &key);
        assert_eq!(accept(&value, &mut guard, NOW), Ok(ReplayDecision::Accepted));
    }
    let mut value = envelope(9, 100, &key);
    value.session_id = "AQIDBAUGBwgJCgsMDQ4P01".to_owned();
    assert_eq!(
        guard.decide(&value, NOW, RECIPIENT, SENDER),
        ReplayDecision::OutOfOrder
    );
    value.session_id = "AQIDBAUGBwgJCgsMDQ4P00".to_owned();
    assert_eq!(
        guard.decide(&value, NOW, RECIPIENT, SENDER),
        ReplayDecision::Accepted
    );
}

#[test]
fn guard_capacities_are_bounded() {
    assert!(ProximityReplayGuard::new(15).is_err());
    assert!(ProximityReplayGuard::new(16).is_ok());
    assert!(ProximityReplayGuard::new(4096).is_ok());
    assert_eq!(
        ProximityReplayGuard::new(4097).err(),
        Some(ProximityError::InvalidCapacity)
    );
}

#[test]
fn consent_is_bilateral_and_offer_specific() {
    let mut gate = ProximityConsentGate::default();
    gate.begin_code_comparison().unwrap();
    gate.confirm_code(true).unwrap();
    assert_eq!(gate.state(), ConsentState::ComparingCode);
    gate.confirm_code(false).unwrap();
    gate.present_offer("offer-1").unwrap();
    assert!(!gate.approve_once("offer-2"));
    assert!(gate.approve_once("offer-1"));
    assert!(!gate.approve_once("offer-1"));
}

#[test]
fn consent_is_for_one_use() {
    let mut gate = ProximityConsentGate::default();
    assert_eq!(gate.state(), ConsentState::Idle);
    assert_eq!(
        gate.confirm_code(true),
        Err(ProximityError::ConsentState)
    );
    assert_eq!(
        gate.present_offer("offer-1"),
        Err(ProximityError::ConsentState)
    );
    gate.begin_code_comparison().unwrap();
    assert_eq!(
        gate.begin_code_comparison(),
        Err(ProximityError::ConsentState)
    );
    gate.confirm_code(true).unwrap();
    gate.confirm_code(true).unwrap();
    assert_eq!(gate.state(), ConsentState::ComparingCode);
    gate.confirm_code(false).unwrap();
    assert_eq!(gate.state(), ConsentState::Ready);
    assert_eq!(
        gate.present_offer("offer 1"),
        Err(ProximityError::ConsentState)
    );
    gate.present_offer("offer-1").unwrap();
    assert_eq!(gate.state(), ConsentState::AwaitingConsent);
    assert!(gate.approve_once("offer-1"));
    assert_eq!(
        gate.present_offer("offer-1"),
        Err(ProximityError::ConsentState)
    );
    gate.present_offer("offer-2").unwrap();
    gate.close();
    assert!(!gate.approve_once("offer-2"));
    assert_eq!(gate.state(), ConsentState::Closed);
    assert_eq!(
        gate.begin_code_comparison(),
        Err(ProximityError::ConsentState)
    );
}

#[test]
fn ble_frames_round_trip_out_of_order_and_reject_duplicates() {
    let message: Vec<u8> = (0..700).map(|value| (value % 251) as u8).collect();
    let packets = fragment_ble_message(&message, 64).unwrap();
    let mut reassembler = BleFrameReassembler::new(8).unwrap();
    let mut result = None;
    for packet in packets.iter().rev() {
        result = reassembler.add(packet, NOW).unwrap().or(result);
    }
    assert_eq!(result.unwrap(), message);
    let mut duplicate = BleFrameReassembler::new(8).unwrap();
    assert!(duplicate.add(&packets[0], NOW).unwrap().is_none());
    assert_eq!(
        duplicate.add(&packets[0], NOW).unwrap_err(),
        ProximityError::InvalidFrame
    );
}

#[test]
fn frames_have_their_bytes() {
    let packets = fragment_with_id(b"ABCDEFGHIJ", 20, 0x01020304).unwrap();
    assert_eq!(packets.len(), 2);
    assert_eq!(
        packets[0],
        [0x43, 0x54, 1, 0, 1, 2, 3, 4, 0, 0, 0, 2, 65, 66, 67, 68, 69, 70, 71, 72]
    );
    assert_eq!(
        packets[1],
        [0x43, 0x54, 1, 1, 1, 2, 3, 4, 0, 1, 0, 2, 73, 74]
    );
    assert_eq!(
        fragment_with_id(b"", 20, 1),
        Err(ProximityError::InvalidFrame)
    );
    assert_eq!(
        fragment_with_id(b"A", 19, 1),
        Err(ProximityError::InvalidFrame)
    );
    assert_eq!(
        fragment_with_id(b"A", 513, 1),
        Err(ProximityError::InvalidFrame)
    );
    assert!(fragment_with_id(&[1; 32_768], 20, 1).is_ok());
    assert_eq!(
        fragment_with_id(&[1; 32_769], 20, 1),
        Err(ProximityError::InvalidFrame)
    );
    assert_eq!(
        fragment_ble_message(&[1; 49_153], 512),
        Err(ProximityError::InvalidFrame)
    );
    let drawn: Vec<Vec<u8>> = (0..8)
        .map(|_| fragment_ble_message(b"A", 20).unwrap()[0][4..8].to_vec())
        .collect();
    assert!(drawn.iter().any(|id| *id != drawn[0]));
}

#[test]
fn reassembly_expires_and_is_bounded() {
    let a = fragment_with_id(b"ABCDEFGHIJ", 20, 1).unwrap();
    let b = fragment_with_id(b"KLMNOPQRST", 20, 2).unwrap();
    let mut reassembler = BleFrameReassembler::new(1).unwrap();
    assert_eq!(reassembler.add(&a[0], NOW), Ok(None));
    assert_eq!(reassembler.add(&b[0], NOW), Ok(None));
    assert_eq!(reassembler.add(&a[1], NOW), Ok(None));
    let mut reassembler = BleFrameReassembler::new(2).unwrap();
    assert_eq!(reassembler.add(&a[0], NOW), Ok(None));
    assert_eq!(reassembler.add(&b[0], NOW + 1), Ok(None));
    assert_eq!(
        reassembler.add(&a[1], NOW + 14_999),
        Ok(Some(b"ABCDEFGHIJ".to_vec()))
    );
    assert_eq!(reassembler.add(&b[1], NOW + 15_001), Ok(None));
    reassembler.clear();
    assert_eq!(reassembler.add(&b[0], NOW), Ok(None));
    let mut wrong = a[0].clone();
    wrong[0] = 0;
    assert_eq!(
        reassembler.add(&wrong, NOW),
        Err(ProximityError::InvalidFrame)
    );
    assert_eq!(
        reassembler.add(&a[0][..12], NOW),
        Err(ProximityError::InvalidFrame)
    );
    assert_eq!(
        BleFrameReassembler::new(0).err(),
        Some(ProximityError::InvalidCapacity)
    );
    assert!(BleFrameReassembler::new(33).is_err());
}

#[test]
fn identifiers_are_bounded() {
    assert!(bounded_identifier("a.b_c:d@e/f-9", 13));
    assert!(!bounded_identifier("a.b_c:d@e/f-9", 12));
    assert!(!bounded_identifier("", 12));
    assert!(!bounded_identifier("\u{e9}", 12));
    assert!(base64url_chars("Az09_-"));
    assert!(!base64url_chars("A+"));
    assert!(!base64url_chars(""));
}

#[test]
fn proximity_errors_have_their_messages() {
    assert_eq!(
        ProximityError::InvalidAdvertisement.message(),
        "invalid or linkable proximity advertisement"
    );
    assert_eq!(
        ProximityError::ConsentState.message(),
        "invalid proximity consent transition"
    );
    assert_eq!(
        ProximityMessageKind::SharedAuthStepUp.required_scope(),
        "shared-auth:step-up:relay"
    );
    assert_eq!(
        ProximityMessageKind::PairingHello.required_scope(),
        "cliptown:device:pair"
    );
    assert_eq!(
        ProximityMessageKind::ClipboardChunk.wire_name(),
        "clipboard_chunk"
    );
}

#[test]
fn advertisements_and_envelopes_of_known_values_are_accepted() {
    let advertisement = ProximityAdvertisement {
        protocol: "cliptown.proximity.v1".to_owned(),
        service_uuid: SERVICE_UUID,
        rotating_id: "odOkdNRDhyvX".to_owned(),
        rotation_epoch: 14_896_590,
    };
    assert_eq!(advertisement.protocol, PROTOCOL);
    assert_eq!(
        ProximityAdvertisement::derive(&[7; 32], "device-key-1", NOW),
        Ok(advertisement)
    );
    let known = [
        (
            ProximityMessageKind::ClipboardOffer,
            "b25l",
            "7692c3ad3540bb803c020b3aee66cd8887123234ea0c6e7143c0add73ff431ed",
        ),
        (
            ProximityMessageKind::PairingHello,
            "dHdv",
            "3fc4ccfe745870e2c0d99f71f30ff0656c8dedd41cc1d7d3d376b0dbe685e2f3",
        ),
    ];
    for (message_kind, ciphertext, digest) in known {
        let mut value = envelope(1, MESSAGE, &signing_key());
        value.scope = message_kind.required_scope().to_owned();
        value.message_kind = message_kind;
        value.ciphertext = ciphertext.to_owned();
        value.ciphertext_sha256 = digest.to_owned();
        value.verify_digest().unwrap();
        let read = ProximityEnvelope::from_slice(&value.to_vec().unwrap(), |_| Some(value.clone()));
        assert_eq!(read.unwrap(), value);
        value.ciphertext = "b25s".to_owned();
        assert!(value.verify_digest().is_err());
    }
}
