//! What holds of all envelopes.

use crate::proximity::envelope::{self, EnvelopeView, ProximityEnvelope, ProximityMessageKind};
use crate::proximity::{
    self, ProximityError, MAX_CLOCK_SKEW_MS, MAX_ENCODED_ENVELOPE_BYTES, MAX_MESSAGE_LIFETIME_MS,
    PROTOCOL,
};
use crate::{codec, json, text};
use vstd::prelude::*;

verus! {

/// Different kinds have different names.
pub proof fn wire_names_are_unambiguous(a: ProximityMessageKind, b: ProximityMessageKind)
    requires
        a.wire_text()@ == b.wire_text()@,
    ensures
        a == b,
{
    reveal_strlit("pairing_hello");
    reveal_strlit("clipboard_offer");
    reveal_strlit("clipboard_chunk");
    reveal_strlit("shared_auth_step_up");
    let x = a.wire_text()@;
    let y = b.wire_text()@;
    assert("clipboard_offer"@[10] == 'o');
    assert("clipboard_chunk"@[10] == 'c');
    assert(x.len() == y.len());
    if x.len() == 15 {
        assert(x[10] == y[10]);
    }
}

/// Equal signed members are equal fields.
proof fn lemma_members_determine_fields(a: EnvelopeView, b: EnvelopeView)
    requires
        a.unsigned_members() == b.unsigned_members(),
    ensures
        b == (EnvelopeView { signature: b.signature, ..a }),
{
    let x = a.unsigned_members();
    let y = b.unsigned_members();
    assert(x[0] == y[0]);
    assert(x[1] == y[1]);
    wire_names_are_unambiguous(a.message_kind, b.message_kind);
    assert(x[2] == y[2]);
    codec::uuid_text_is_unambiguous(a.message_id, b.message_id);
    assert(x[3] == y[3]);
    assert(x[4] == y[4]);
    assert(x[5] == y[5]);
    assert(x[6] == y[6]);
    assert(x[7] == y[7]);
    codec::uuid_text_is_unambiguous(a.sender_device_id, b.sender_device_id);
    assert(x[8] == y[8]);
    codec::uuid_text_is_unambiguous(a.recipient_device_id, b.recipient_device_id);
    assert(x[9] == y[9]);
    assert(x[10] == y[10]);
    assert(x[11] == y[11]);
    assert(x[12] == y[12]);
    assert(b =~= EnvelopeView { signature: b.signature, ..a });
}

/// A signature binds every other field: envelopes that differ in any of them are signed on
/// different bytes.
pub proof fn signed_bytes_bind_every_field(a: EnvelopeView, b: EnvelopeView)
    requires
        a.signed_bytes() == b.signed_bytes(),
    ensures
        b == (EnvelopeView { signature: b.signature, ..a }),
{
    let x = a.unsigned_members();
    let y = b.unsigned_members();
    text::encoding_determines_text(json::json_object(x), json::json_object(y));
    json::json_object_is_unambiguous(x, y);
    lemma_members_determine_fields(a, b);
}

/// Different envelopes have different encodings.
pub proof fn encodings_are_unambiguous(a: EnvelopeView, b: EnvelopeView)
    requires
        a.encoded() == b.encoded(),
    ensures
        a == b,
{
    let x = a.members();
    let y = b.members();
    text::encoding_determines_text(json::json_object(x), json::json_object(y));
    json::json_object_is_unambiguous(x, y);
    assert(a.unsigned_members() =~= x.drop_last());
    assert(b.unsigned_members() =~= y.drop_last());
    lemma_members_determine_fields(a, b);
    assert(x[13] == y[13]);
}

/// Characters that stand for themselves in a JSON string, each in one byte.
spec fn is_plain(s: Seq<char>) -> bool {
    forall|i: int|
        0 <= i < s.len() ==> 32 <= (#[trigger] s[i]) as int && (s[i] as int) < 128 && s[i] != '"'
            && s[i] != '\\'
}

proof fn lemma_plain_escaped(s: Seq<char>)
    requires
        is_plain(s),
    ensures
        json::json_escaped(s) == s,
    decreases s.len(),
{
    if s.len() > 0 {
        let rest = s.drop_first();
        assert forall|i: int| 0 <= i < rest.len() implies 32 <= (#[trigger] rest[i]) as int && (
        rest[i] as int) < 128 && rest[i] != '"' && rest[i] != '\\' by {
            assert(rest[i] == s[i + 1]);
        }
        lemma_plain_escaped(rest);
        let c = s[0];
        assert(json::json_escape(c) == seq![c]);
        assert(json::json_escaped(s) =~= s);
    }
}

/// Whether all characters are ASCII.
spec fn is_ascii(s: Seq<char>) -> bool {
    forall|i: int| 0 <= i < s.len() ==> 0 <= (#[trigger] s[i]) as int && (s[i] as int) < 128
}

proof fn lemma_ascii_size(s: Seq<char>)
    requires
        is_ascii(s),
    ensures
        vstd::utf8::encode_utf8(s).len() == s.len(),
{
    assert forall|i: int| 0 <= i < s.len() implies '\0' <= #[trigger] s[i] <= '\u{7f}' by {
        assert(0 <= s[i] as int && (s[i] as int) < 128);
    }
    vstd::utf8::is_ascii_chars_encode_utf8(s);
}

/// Whether a text is ASCII and has at most `n` characters.
#[verifier::opaque]
spec fn fits(s: Seq<char>, n: nat) -> bool {
    is_ascii(s) && s.len() <= n
}

proof fn lemma_text_member_fits(name: Seq<char>, value: Seq<char>, n: nat)
    requires
        is_plain(name),
        is_plain(value),
        name.len() + value.len() + 5 <= n,
    ensures
        fits(json::json_member(envelope::text_member(name, value)), n),
{
    reveal(fits);
    lemma_plain_escaped(name);
    lemma_plain_escaped(value);
}

proof fn lemma_decimal_size(n: nat, digits: nat)
    requires
        n < pow10(digits),
        digits > 0,
    ensures
        0 < text::decimal(n).len() <= digits,
        is_ascii(text::decimal(n)),
    decreases digits,
{
    if n >= 10 {
        if digits == 1 {
            assert(pow10(0) == 1);
            assert(false);
        }
        let m = (digits - 1) as nat;
        assert(n / 10 < pow10(m));
        lemma_decimal_size(n / 10, m);
    }
}

spec fn pow10(n: nat) -> nat
    decreases n,
{
    if n == 0 {
        1
    } else {
        10 * pow10((n - 1) as nat)
    }
}

proof fn lemma_number_member_fits(name: Seq<char>, value: u64, n: nat)
    requires
        is_plain(name),
        name.len() + 23 <= n,
    ensures
        fits(json::json_member(envelope::number_member(name, value as nat)), n),
{
    reveal(fits);
    lemma_plain_escaped(name);
    assert(pow10(20) == 100_000_000_000_000_000_000) by {
        reveal_with_fuel(pow10, 21);
    }
    lemma_decimal_size(value as nat, 20);
}

/// How large the member at an index may be.
spec fn size_limit(i: int, large: int, small_n: nat, large_n: nat) -> nat {
    if i == large {
        large_n
    } else {
        small_n
    }
}

/// Members of one size, but for one that is larger.
proof fn lemma_members_fit(members: Seq<json::JsonMember>, large: int, small_n: nat, large_n: nat)
    requires
        forall|i: int|
            0 <= i < members.len() ==> #[trigger] fits(
                json::json_member(members[i]),
                size_limit(i, large, small_n, large_n),
            ),
    ensures
        is_ascii(json::json_members(members)),
        json::json_members(members).len() <= members.len() * (small_n + 1) + if 0 <= large
            < members.len() {
            large_n
        } else {
            0
        },
    decreases members.len(),
{
    if members.len() > 0 {
        let rest = members.drop_first();
        assert forall|i: int| 0 <= i < rest.len() implies #[trigger] fits(
            json::json_member(rest[i]),
            size_limit(i, large - 1, small_n, large_n),
        ) by {
            assert(rest[i] == members[i + 1]);
            assert(fits(json::json_member(members[i + 1]), size_limit(i + 1, large, small_n, large_n)));
        }
        lemma_members_fit(rest, large - 1, small_n, large_n);
        assert(fits(json::json_member(members[0]), size_limit(0, large, small_n, large_n)));
        assert(members.len() * (small_n + 1) == rest.len() * (small_n + 1) + small_n + 1)
            by (nonlinear_arith)
            requires
                members.len() == rest.len() + 1,
        ;
        reveal(fits);
    } else {
        assert(members.len() * (small_n + 1) == 0) by (nonlinear_arith)
            requires
                members.len() == 0,
        ;
    }
}

proof fn lemma_uuid_text_plain(value: u128)
    ensures
        is_plain(codec::uuid_text(value)),
        codec::uuid_text(value).len() == 36,
{
    codec::lemma_uuid_text_chars(value);
    let d = codec::hex_digits(value as nat, 32);
    lemma_hex_digits_plain(value as nat, 32);
    let t = codec::uuid_text(value);
    assert forall|i: int| 0 <= i < t.len() implies 32 <= (#[trigger] t[i]) as int && (t[i] as int)
        < 128 && t[i] != '"' && t[i] != '\\' by {
        if t[i] != '-' {
            let k = choose|k: int| 0 <= k < 32 && #[trigger] codec::text_place(k) == i;
            assert(t[i] == d[k]);
        }
    }
}

proof fn lemma_hex_digits_plain(value: nat, n: nat)
    ensures
        is_plain(codec::hex_digits(value, n)),
    decreases n,
{
    if n > 0 {
        lemma_hex_digits_plain(value / 16, (n - 1) as nat);
    }
}

proof fn lemma_scope_plain(kind: ProximityMessageKind)
    ensures
        is_plain(kind.scope()@),
        kind.scope()@.len() <= 25,
        is_plain(kind.wire_text()@),
        kind.wire_text()@.len() <= 19,
{
    reveal_strlit("cliptown:device:pair");
    reveal_strlit("cliptown:clipboard:import");
    reveal_strlit("shared-auth:step-up:relay");
    reveal_strlit("pairing_hello");
    reveal_strlit("clipboard_offer");
    reveal_strlit("clipboard_chunk");
    reveal_strlit("shared_auth_step_up");
}

/// The sizes of the fields of an envelope whose form is right.
proof fn lemma_field_sizes(e: EnvelopeView)
    requires
        e.structure_error() is None,
    ensures
        is_plain(e.session_id) && e.session_id.len() <= 86,
        is_plain(e.ciphertext) && e.ciphertext.len() <= 43_691,
        is_plain(e.ciphertext_sha256) && e.ciphertext_sha256.len() == 64,
        is_plain(e.signing_key_id) && e.signing_key_id.len() <= 128,
        is_plain(e.signature) && e.signature.len() == 86,
{
    let data = e.ciphertext_data()->Some_0;
    let bytes = e.signature_data()->Some_0;
    assert(codec::base64url(data) == e.ciphertext);
    assert(codec::base64url(bytes) == e.signature);
    assert(proximity::is_base64url_text(e.ciphertext));
    assert forall|i: int| 0 <= i < e.session_id.len() implies 32 <= (
    #[trigger] e.session_id[i]) as int && (e.session_id[i] as int) < 128 && e.session_id[i] != '"'
        && e.session_id[i] != '\\' by {
        assert(proximity::is_base64url_char(e.session_id[i]));
    }
    assert forall|i: int| 0 <= i < e.ciphertext.len() implies 32 <= (
    #[trigger] e.ciphertext[i]) as int && (e.ciphertext[i] as int) < 128 && e.ciphertext[i] != '"'
        && e.ciphertext[i] != '\\' by {
        assert(proximity::is_base64url_char(e.ciphertext[i]));
    }
    assert forall|i: int| 0 <= i < e.signature.len() implies 32 <= (
    #[trigger] e.signature[i]) as int && (e.signature[i] as int) < 128 && e.signature[i] != '"'
        && e.signature[i] != '\\' by {
        assert(proximity::is_base64url_char(e.signature[i]));
    }
    assert forall|i: int| 0 <= i < e.signing_key_id.len() implies 32 <= (
    #[trigger] e.signing_key_id[i]) as int && (e.signing_key_id[i] as int) < 128
        && e.signing_key_id[i] != '"' && e.signing_key_id[i] != '\\' by {
        assert(proximity::is_identifier_char(e.signing_key_id[i]));
    }
}

proof fn lemma_names_plain()
    ensures
        is_plain(PROTOCOL@) && PROTOCOL@.len() <= 21,
        is_plain("protocol"@) && "protocol"@.len() <= 19,
        is_plain("message_kind"@) && "message_kind"@.len() <= 19,
        is_plain("message_id"@) && "message_id"@.len() <= 19,
        is_plain("session_id"@) && "session_id"@.len() <= 19,
        is_plain("sequence"@) && "sequence"@.len() <= 19,
        is_plain("issued_at_unix_ms"@) && "issued_at_unix_ms"@.len() <= 19,
        is_plain("expires_at_unix_ms"@) && "expires_at_unix_ms"@.len() <= 19,
        is_plain("sender_device_id"@) && "sender_device_id"@.len() <= 19,
        is_plain("recipient_device_id"@) && "recipient_device_id"@.len() <= 19,
        is_plain("scope"@) && "scope"@.len() <= 19,
        is_plain("ciphertext"@) && "ciphertext"@.len() <= 19,
        is_plain("ciphertext_sha256"@) && "ciphertext_sha256"@.len() <= 19,
        is_plain("signing_key_id"@) && "signing_key_id"@.len() <= 19,
        is_plain("signature"@) && "signature"@.len() <= 19,
{
    reveal_strlit("cliptown.proximity.v1");
    reveal_strlit("protocol");
    reveal_strlit("message_kind");
    reveal_strlit("message_id");
    reveal_strlit("session_id");
    reveal_strlit("sequence");
    reveal_strlit("issued_at_unix_ms");
    reveal_strlit("expires_at_unix_ms");
    reveal_strlit("sender_device_id");
    reveal_strlit("recipient_device_id");
    reveal_strlit("scope");
    reveal_strlit("ciphertext");
    reveal_strlit("ciphertext_sha256");
    reveal_strlit("signing_key_id");
    reveal_strlit("signature");
}

/// The encoding of an envelope whose form is right is not empty and never too large.
#[verifier::rlimit(40)]
pub proof fn valid_envelopes_fit(e: EnvelopeView)
    requires
        e.structure_error() is None,
    ensures
        0 < e.encoded().len() <= MAX_ENCODED_ENVELOPE_BYTES,
{
    lemma_field_sizes(e);
    lemma_scope_plain(e.message_kind);
    lemma_uuid_text_plain(e.message_id);
    lemma_uuid_text_plain(e.sender_device_id);
    lemma_uuid_text_plain(e.recipient_device_id);
    lemma_names_plain();
    lemma_text_member_fits("protocol"@, e.protocol, 160);
    lemma_text_member_fits("message_kind"@, e.message_kind.wire_text()@, 160);
    lemma_text_member_fits("message_id"@, codec::uuid_text(e.message_id), 160);
    lemma_text_member_fits("session_id"@, e.session_id, 160);
    lemma_number_member_fits("sequence"@, e.sequence as u64, 160);
    lemma_number_member_fits("issued_at_unix_ms"@, e.issued_at_unix_ms, 160);
    lemma_number_member_fits("expires_at_unix_ms"@, e.expires_at_unix_ms, 160);
    lemma_text_member_fits("sender_device_id"@, codec::uuid_text(e.sender_device_id), 160);
    lemma_text_member_fits("recipient_device_id"@, codec::uuid_text(e.recipient_device_id), 160);
    lemma_text_member_fits("scope"@, e.scope, 160);
    lemma_text_member_fits("ciphertext"@, e.ciphertext, 43720);
    lemma_text_member_fits("ciphertext_sha256"@, e.ciphertext_sha256, 160);
    lemma_text_member_fits("signing_key_id"@, e.signing_key_id, 160);
    lemma_text_member_fits("signature"@, e.signature, 160);
    let m = e.members();
    lemma_members_fit(m, 10, 160, 43720);
    assert(json::json_members(m).len() <= 14 * 161 + 43720);
    lemma_ascii_size(json::json_object(m));
}

/// What is written is read back: the encoding of an envelope whose form is right has a size that
/// is read, and where the decoder gives the envelope back, reading it succeeds.
pub proof fn written_envelopes_are_read_back(
    e: ProximityEnvelope,
    r: Result<ProximityEnvelope, ProximityError>,
)
    requires
        e@.structure_error() is None,
        envelope::is_outcome(Some(e), r),
    ensures
        0 < e@.encoded().len() <= MAX_ENCODED_ENVELOPE_BYTES,
        r == Ok::<ProximityEnvelope, ProximityError>(e),
{
    valid_envelopes_fit(e@);
}

/// An envelope is only in time for as long as a message may live, and not long before it was
/// issued.
pub proof fn envelopes_in_time_are_recent(e: EnvelopeView, now_ms: u64)
    requires
        e.structure_error() is None,
        e.time_error(now_ms) is None,
    ensures
        now_ms < e.issued_at_unix_ms + MAX_MESSAGE_LIFETIME_MS,
        e.issued_at_unix_ms <= now_ms + MAX_CLOCK_SKEW_MS,
{
}

} // verus!
