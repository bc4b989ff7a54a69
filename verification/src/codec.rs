//! Text forms of bytes and identifiers: hexadecimal, base64 and UUIDs.

use base64::engine::general_purpose::{STANDARD, URL_SAFE_NO_PAD};
use base64::Engine as _;
use uuid::Uuid;
use vstd::prelude::*;

verus! {

// ---------------------------------------------------------------------------
// Hexadecimal
// ---------------------------------------------------------------------------

/// The lower-case character of one hexadecimal digit.
pub open spec fn hex_digit(d: int) -> char {
    if d < 10 {
        (d + 48) as char
    } else {
        (d + 87) as char
    }
}

/// Lower-case hexadecimal notation of a byte string: two digits a byte, high digit first.
pub open spec fn hex_lower(data: Seq<u8>) -> Seq<char> {
    Seq::new(
        data.len() * 2,
        |i: int|
            if i % 2 == 0 {
                hex_digit(data[i / 2] as int / 16)
            } else {
                hex_digit(data[i / 2] as int % 16)
            },
    )
}

/// `hex::encode` writes two lower-case hexadecimal digits for each byte, the high digit first.
#[verifier::external_body]
pub(crate) fn hex_encode(data: &[u8]) -> (s: String)
    requires
        data@.len() <= 0x3fff_ffff,
    ensures
        s@ == hex_lower(data@),
{
    hex::encode(data)
}

/// The last `n` hexadecimal digits of a number.
pub open spec fn hex_digits(value: nat, n: nat) -> Seq<char>
    decreases n,
{
    if n == 0 {
        seq![]
    } else {
        hex_digits(value / 16, (n - 1) as nat).push(hex_digit((value % 16) as int))
    }
}

// ---------------------------------------------------------------------------
// UUIDs
// ---------------------------------------------------------------------------

/// The hyphenated form of a UUID: 32 lower-case digits in groups of 8, 4, 4, 4 and 12.
pub open spec fn uuid_text(value: u128) -> Seq<char> {
    let d = hex_digits(value as nat, 32);
    d.subrange(0, 8) + seq!['-'] + d.subrange(8, 12) + seq!['-'] + d.subrange(12, 16) + seq!['-']
        + d.subrange(16, 20) + seq!['-'] + d.subrange(20, 32)
}

/// An ASCII capital letter as a small letter; any other character unchanged.
pub open spec fn ascii_lower(c: char) -> char {
    if 'A' <= c <= 'Z' {
        (c as int + 32) as char
    } else {
        c
    }
}

/// Whether a text names a UUID in one of its four forms (32 digits, hyphenated, braced, URN),
/// where the case of letters does not matter.
pub open spec fn reads_as_uuid(text: Seq<char>, value: u128) -> bool {
    let t = text.map_values(|c: char| ascii_lower(c));
    ||| t == hex_digits(value as nat, 32)
    ||| t == uuid_text(value)
    ||| t == seq!['{'] + uuid_text(value) + seq!['}']
    ||| t == seq!['u', 'r', 'n', ':', 'u', 'u', 'i', 'd', ':'] + uuid_text(value)
}

/// `Uuid::to_string` (its `Display`) writes the lower-case hyphenated form.
#[verifier::external_body]
pub(crate) fn format_uuid(value: u128) -> (s: String)
    ensures
        s@ == uuid_text(value),
{
    Uuid::from_u128(value).to_string()
}

/// What `Uuid::parse_str` reports when a text is no UUID.
#[verifier::external_type_specification]
#[verifier::external_body]
pub struct ExUuidError(uuid::Error);

/// `Uuid::parse_str` accepts the 32-digit, hyphenated, braced and URN forms in either case of
/// letters, and nothing else.
#[verifier::external_body]
pub(crate) fn parse_uuid(text: &str) -> (r: Result<u128, uuid::Error>)
    ensures
        r matches Ok(value) ==> reads_as_uuid(text@, value),
        r is Err ==> forall|value: u128| !reads_as_uuid(text@, value),
{
    Uuid::parse_str(text).map(|value| value.as_u128())
}

/// Whether a UUID has the version and the variant of random ones.
pub open spec fn is_random_uuid(value: u128) -> bool {
    (value / 0x1000_0000_0000_0000_0000) % 16 == 4 && (value / 0x4000_0000_0000_0000) % 4 == 2
}

/// `Uuid::new_v4` draws a random UUID and sets its version to 4 and its variant to the one of
/// RFC 9562. Which one is drawn is left open; where the operating system has no random bytes to
/// give, the call panics.
#[verifier::external_body]
pub(crate) fn random_uuid() -> (value: u128)
    ensures
        is_random_uuid(value),
{
    Uuid::new_v4().as_u128()
}

/// Whether a UUID is one that was drawn.
pub closed spec fn is_drawn_uuid(value: u128) -> bool {
    call_ensures(random_uuid, (), value)
}

/// Draws a random UUID.
pub(crate) fn draw_uuid() -> (value: u128)
    ensures
        is_drawn_uuid(value),
        is_random_uuid(value),
{
    random_uuid()
}

// ---------------------------------------------------------------------------
// Base64
// ---------------------------------------------------------------------------

/// The byte at position `i`, or zero past the end.
pub open spec fn byte_or_zero(data: Seq<u8>, i: int) -> int {
    if 0 <= i < data.len() {
        data[i] as int
    } else {
        0
    }
}

/// The `i`-th group of six bits of a byte string, the bits past its end being zero.
pub open spec fn sextet(data: Seq<u8>, i: int) -> int {
    let b = i / 4 * 3;
    if i % 4 == 0 {
        byte_or_zero(data, b) / 4
    } else if i % 4 == 1 {
        byte_or_zero(data, b) % 4 * 16 + byte_or_zero(data, b + 1) / 16
    } else if i % 4 == 2 {
        byte_or_zero(data, b + 1) % 16 * 4 + byte_or_zero(data, b + 2) / 64
    } else {
        byte_or_zero(data, b + 2) % 64
    }
}

/// The number of six-bit groups that hold `n` bytes.
pub open spec fn sextet_count(n: nat) -> nat {
    (n * 4 + 2) / 3
}

/// The character for a group of six bits, given those for 62 and 63.
pub open spec fn base64_char(v: int, c62: char, c63: char) -> char {
    if v < 26 {
        (v + 65) as char
    } else if v < 52 {
        (v + 71) as char
    } else if v < 62 {
        (v - 4) as char
    } else if v == 62 {
        c62
    } else {
        c63
    }
}

/// URL-safe base64 without padding (RFC 4648, section 5).
pub open spec fn base64url(data: Seq<u8>) -> Seq<char> {
    Seq::new(sextet_count(data.len()), |i: int| base64_char(sextet(data, i), '-', '_'))
}

/// Standard base64 (RFC 4648, section 4): filled up with `=` to a multiple of four characters.
pub open spec fn base64_standard(data: Seq<u8>) -> Seq<char> {
    Seq::new(
        (data.len() + 2) / 3 * 4,
        |i: int|
            if i < sextet_count(data.len()) {
                base64_char(sextet(data, i), '+', '/')
            } else {
                '='
            },
    )
}

/// What the base64 engines report when a text is no encoding.
#[verifier::external_type_specification]
#[verifier::external_body]
pub struct ExDecodeError(base64::DecodeError);

/// `Engine::encode` of `URL_SAFE_NO_PAD` writes URL-safe base64 without padding.
#[verifier::external_body]
pub(crate) fn base64url_encode(data: &[u8]) -> (s: String)
    requires
        data@.len() <= 0x3fff_ffff,
    ensures
        s@ == base64url(data@),
{
    URL_SAFE_NO_PAD.encode(data)
}

/// `Engine::decode` of `URL_SAFE_NO_PAD` undoes the encoding, and refuses every text that is
/// not the encoding of some bytes: other characters, padding, a lone last character, or set bits
/// past the last byte.
#[verifier::external_body]
pub(crate) fn base64url_decode(text: &str) -> (r: Result<Vec<u8>, base64::DecodeError>)
    ensures
        r matches Ok(data) ==> base64url(data@) == text@,
        r is Err ==> forall|data: Seq<u8>| base64url(data) != text@,
{
    URL_SAFE_NO_PAD.decode(text)
}

/// `Engine::decode` of `STANDARD` undoes the padded encoding, and refuses every text that is
/// not the padded encoding of some bytes.
#[verifier::external_body]
pub(crate) fn base64_standard_decode(text: &str) -> (r: Result<Vec<u8>, base64::DecodeError>)
    ensures
        r matches Ok(data) ==> base64_standard(data@) == text@,
        r is Err ==> forall|data: Seq<u8>| base64_standard(data) != text@,
{
    STANDARD.decode(text)
}

/// Different byte strings have different encodings.
pub proof fn base64url_is_unambiguous(a: Seq<u8>, b: Seq<u8>)
    requires
        base64url(a) == base64url(b),
    ensures
        a == b,
{
    assert(base64url(a).len() == sextet_count(a.len()));
    assert(base64url(b).len() == sextet_count(b.len()));
    assert forall|i: int| 0 <= i < sextet_count(a.len()) implies #[trigger] sextet(a, i) == sextet(
        b,
        i,
    ) by {
        assert(base64url(a)[i] == base64_char(sextet(a, i), '-', '_'));
        assert(base64url(b)[i] == base64_char(sextet(b, i), '-', '_'));
        lemma_base64_char(sextet(a, i), sextet(b, i), '-', '_');
    }
    lemma_sextets_determine_bytes(a, b);
}

/// Different byte strings have different standard encodings.
pub proof fn base64_standard_is_unambiguous(a: Seq<u8>, b: Seq<u8>)
    requires
        base64_standard(a) == base64_standard(b),
    ensures
        a == b,
{
    let ea = base64_standard(a);
    let eb = base64_standard(b);
    let na = sextet_count(a.len());
    let nb = sextet_count(b.len());
    assert(ea.len() == (a.len() + 2) / 3 * 4);
    assert(eb.len() == (b.len() + 2) / 3 * 4);
    assert(na <= ea.len() && nb <= eb.len());
    if na < nb {
        assert(ea[na as int] == '=');
        assert(eb[na as int] == base64_char(sextet(b, na as int), '+', '/'));
    } else if nb < na {
        assert(eb[nb as int] == '=');
        assert(ea[nb as int] == base64_char(sextet(a, nb as int), '+', '/'));
    }
    assert forall|i: int| 0 <= i < na implies #[trigger] sextet(a, i) == sextet(b, i) by {
        assert(ea[i] == base64_char(sextet(a, i), '+', '/'));
        assert(eb[i] == base64_char(sextet(b, i), '+', '/'));
        lemma_base64_char(sextet(a, i), sextet(b, i), '+', '/');
    }
    lemma_sextets_determine_bytes(a, b);
}

proof fn lemma_sextets_determine_bytes(a: Seq<u8>, b: Seq<u8>)
    requires
        sextet_count(a.len()) == sextet_count(b.len()),
        forall|i: int| 0 <= i < sextet_count(a.len()) ==> #[trigger] sextet(a, i) == sextet(b, i),
    ensures
        a == b,
{
    assert(a.len() == b.len());
    assert forall|i: int| 0 <= i < a.len() implies a[i] == b[i] by {
        let q = i / 3;
        let c = 4 * q;
        assert(c / 4 == q && (c + 1) / 4 == q && (c + 2) / 4 == q && (c + 3) / 4 == q);
        assert(sextet(a, c) == sextet(b, c));
        assert(sextet(a, c + 1) == sextet(b, c + 1));
        if i % 3 >= 1 {
            assert(sextet(a, c + 2) == sextet(b, c + 2));
        }
        if i % 3 == 2 {
            assert(sextet(a, c + 3) == sextet(b, c + 3));
        }
    }
    assert(a =~= b);
}

proof fn lemma_base64_char(v: int, w: int, c62: char, c63: char)
    requires
        0 <= v < 64,
        0 <= w < 64,
        base64_char(v, c62, c63) == base64_char(w, c62, c63),
        (c62 == '-' && c63 == '_') || (c62 == '+' && c63 == '/'),
    ensures
        v == w,
{
}

/// The characters of an encoding are letters, digits, `-` and `_`.
pub proof fn lemma_base64url_char(data: Seq<u8>, i: int)
    requires
        0 <= i < base64url(data).len(),
    ensures
        ({
            let c = base64url(data)[i];
            'a' <= c <= 'z' || 'A' <= c <= 'Z' || '0' <= c <= '9' || c == '_' || c == '-'
        }),
{
    assert(0 <= sextet(data, i) < 64);
}

/// The bytes that a text encodes in standard base64, if it is an encoding.
pub open spec fn base64_standard_decoded(text: Seq<char>) -> Option<Seq<u8>> {
    if exists|data: Seq<u8>| base64_standard(data) == text {
        Some(choose|data: Seq<u8>| base64_standard(data) == text)
    } else {
        None
    }
}

/// The bytes that a text encodes in standard base64, if it is an encoding.
pub fn decode_base64_standard(text: &str) -> (r: Option<Vec<u8>>)
    ensures
        r matches Some(data) ==> base64_standard_decoded(text@) == Some(data@),
        r is None ==> base64_standard_decoded(text@) is None,
{
    match base64_standard_decode(text) {
        Ok(data) => {
            proof {
                assert(base64_standard(data@) == text@);
                let other = choose|other: Seq<u8>| base64_standard(other) == text@;
                base64_standard_is_unambiguous(other, data@);
            }
            Some(data)
        },
        Err(_) => None,
    }
}

/// The bytes that a text encodes, if it is an encoding.
pub open spec fn base64url_decoded(text: Seq<char>) -> Option<Seq<u8>> {
    if exists|data: Seq<u8>| base64url(data) == text {
        Some(choose|data: Seq<u8>| base64url(data) == text)
    } else {
        None
    }
}

/// Decoding undoes encoding.
pub proof fn base64url_decodes_what_it_encodes(data: Seq<u8>)
    ensures
        base64url_decoded(base64url(data)) == Some(data),
{
    let d = choose|d: Seq<u8>| base64url(d) == base64url(data);
    assert(base64url(d) == base64url(data));
    base64url_is_unambiguous(d, data);
}

/// Decodes URL-safe base64 without padding.
pub fn decode_base64url(text: &str) -> (r: Option<Vec<u8>>)
    ensures
        r matches Some(data) ==> base64url_decoded(text@) == Some(data@),
        r is None ==> base64url_decoded(text@) is None,
{
    match base64url_decode(text) {
        Ok(data) => {
            proof {
                base64url_decodes_what_it_encodes(data@);
            }
            Some(data)
        },
        Err(_) => None,
    }
}

proof fn lemma_hex_digit(a: int, b: int)
    requires
        0 <= a < 16,
        0 <= b < 16,
        hex_digit(a) == hex_digit(b),
    ensures
        a == b,
{
}

/// Different byte strings have different hexadecimal notations.
pub proof fn hex_is_unambiguous(a: Seq<u8>, b: Seq<u8>)
    requires
        hex_lower(a) == hex_lower(b),
    ensures
        a == b,
{
    assert(hex_lower(a).len() == 2 * a.len());
    assert(hex_lower(b).len() == 2 * b.len());
    assert forall|i: int| 0 <= i < a.len() implies a[i] == b[i] by {
        assert(2 * i / 2 == i && (2 * i + 1) / 2 == i);
        assert(hex_lower(a)[2 * i] == hex_digit(a[i] as int / 16));
        assert(hex_lower(b)[2 * i] == hex_digit(b[i] as int / 16));
        assert(hex_lower(a)[2 * i + 1] == hex_digit(a[i] as int % 16));
        assert(hex_lower(b)[2 * i + 1] == hex_digit(b[i] as int % 16));
        lemma_hex_digit(a[i] as int / 16, b[i] as int / 16);
        lemma_hex_digit(a[i] as int % 16, b[i] as int % 16);
    }
    assert(a =~= b);
}

/// `16` to the power of `n`.
pub open spec fn pow16(n: nat) -> nat
    decreases n,
{
    if n == 0 {
        1
    } else {
        16 * pow16((n - 1) as nat)
    }
}

proof fn lemma_hex_digits(a: nat, b: nat, n: nat)
    requires
        a < pow16(n),
        b < pow16(n),
        hex_digits(a, n) == hex_digits(b, n),
    ensures
        a == b,
    decreases n,
{
    if n > 0 {
        let m = (n - 1) as nat;
        assert(hex_digits(a, n).drop_last() =~= hex_digits(a / 16, m));
        assert(hex_digits(b, n).drop_last() =~= hex_digits(b / 16, m));
        assert(hex_digits(a, n).last() == hex_digit((a % 16) as int));
        assert(hex_digits(b, n).last() == hex_digit((b % 16) as int));
        lemma_hex_digit((a % 16) as int, (b % 16) as int);
        lemma_hex_digits(a / 16, b / 16, m);
    }
}

/// The number of digits of a hexadecimal text.
pub proof fn lemma_hex_digits_len(value: nat, n: nat)
    ensures
        hex_digits(value, n).len() == n,
    decreases n,
{
    if n > 0 {
        lemma_hex_digits_len(value / 16, (n - 1) as nat);
    }
}

/// The hyphenated form has 36 characters.
pub proof fn lemma_uuid_text_len(value: u128)
    ensures
        uuid_text(value).len() == 36,
{
    lemma_hex_digits_len(value as nat, 32);
}

/// Where a digit of a UUID stands in the hyphenated form.
pub open spec fn text_place(k: int) -> int {
    if k < 8 {
        k
    } else if k < 12 {
        k + 1
    } else if k < 16 {
        k + 2
    } else if k < 20 {
        k + 3
    } else {
        k + 4
    }
}

/// The hyphenated form of a UUID has its digits in their places, and hyphens elsewhere.
pub proof fn lemma_uuid_text_chars(value: u128)
    ensures
        uuid_text(value).len() == 36,
        hex_digits(value as nat, 32).len() == 32,
        forall|k: int|
            0 <= k < 32 ==> uuid_text(value)[#[trigger] text_place(k)] == hex_digits(
                value as nat,
                32,
            )[k],
        forall|i: int|
            0 <= i < 36 ==> (#[trigger] uuid_text(value)[i]) == '-' || exists|k: int|
                0 <= k < 32 && #[trigger] text_place(k) == i,
{
    lemma_hex_digits_len(value as nat, 32);
    assert forall|i: int| 0 <= i < 36 implies (#[trigger] uuid_text(value)[i]) == '-' || exists|
        k: int,
    |
        0 <= k < 32 && #[trigger] text_place(k) == i by {
        if i < 8 {
            assert(text_place(i) == i);
        } else if 8 < i < 13 {
            assert(text_place(i - 1) == i);
        } else if 13 < i < 18 {
            assert(text_place(i - 2) == i);
        } else if 18 < i < 23 {
            assert(text_place(i - 3) == i);
        } else if 23 < i {
            assert(text_place(i - 4) == i);
        }
    }
}

/// Different UUIDs have different texts.
pub proof fn uuid_text_is_unambiguous(a: u128, b: u128)
    requires
        uuid_text(a) == uuid_text(b),
    ensures
        a == b,
{
    lemma_uuid_text_chars(a);
    lemma_uuid_text_chars(b);
    let da = hex_digits(a as nat, 32);
    let db = hex_digits(b as nat, 32);
    assert forall|k: int| 0 <= k < 32 implies da[k] == db[k] by {
        assert(uuid_text(a)[text_place(k)] == da[k]);
    }
    assert(da =~= db);
    assert(pow16(32) == 0x1_0000_0000_0000_0000_0000_0000_0000_0000) by {
        reveal_with_fuel(pow16, 33);
    }
    lemma_hex_digits(a as nat, b as nat, 32);
}

/// The UUID that a text stands for.
pub open spec fn uuid_of(text: Seq<char>) -> Option<u128> {
    if exists|value: u128| reads_as_uuid(text, value) {
        Some(choose|value: u128| reads_as_uuid(text, value))
    } else {
        None
    }
}

/// A text stands for one UUID at most.
pub proof fn uuids_are_read_unambiguously(text: Seq<char>, a: u128, b: u128)
    requires
        reads_as_uuid(text, a),
        reads_as_uuid(text, b),
    ensures
        a == b,
        uuid_of(text) == Some(a),
{
    lemma_one_reading(text, a, b);
    let value = choose|value: u128| reads_as_uuid(text, value);
    lemma_one_reading(text, a, value);
}

proof fn lemma_one_reading(text: Seq<char>, a: u128, b: u128)
    requires
        reads_as_uuid(text, a),
        reads_as_uuid(text, b),
    ensures
        a == b,
{
    let t = text.map_values(|c: char| ascii_lower(c));
    lemma_hex_digits_len(a as nat, 32);
    lemma_hex_digits_len(b as nat, 32);
    lemma_uuid_text_len(a);
    lemma_uuid_text_len(b);
    if t.len() == 32 {
        assert(pow16(32) > u128::MAX) by {
            reveal_with_fuel(pow16, 33);
        }
        lemma_hex_digits(a as nat, b as nat, 32);
    } else {
        if t.len() == 36 {
            assert(t == uuid_text(a) && t == uuid_text(b));
        } else if t.len() == 38 {
            assert(t.subrange(1, 37) =~= uuid_text(a));
            assert(t.subrange(1, 37) =~= uuid_text(b));
        } else {
            assert(t.len() == 45);
            assert(t.skip(9) =~= uuid_text(a));
            assert(t.skip(9) =~= uuid_text(b));
        }
        uuid_text_is_unambiguous(a, b);
    }
}

proof fn lemma_hex_digits_lower(value: nat, n: nat)
    ensures
        forall|i: int|
            0 <= i < hex_digits(value, n).len() ==> ascii_lower(#[trigger] hex_digits(value, n)[i])
                == hex_digits(value, n)[i],
    decreases n,
{
    if n > 0 {
        let rest = hex_digits(value / 16, (n - 1) as nat);
        lemma_hex_digits_lower(value / 16, (n - 1) as nat);
        assert forall|i: int| 0 <= i < hex_digits(value, n).len() implies ascii_lower(
            #[trigger] hex_digits(value, n)[i],
        ) == hex_digits(value, n)[i] by {
            if i < rest.len() {
                assert(hex_digits(value, n)[i] == rest[i]);
            } else {
                assert(hex_digits(value, n)[i] == hex_digit((value % 16) as int));
            }
        }
    }
}

/// The text of a UUID stands for it.
pub proof fn uuid_texts_are_read_back(value: u128)
    ensures
        uuid_of(uuid_text(value)) == Some(value),
{
    let t = uuid_text(value);
    let d = hex_digits(value as nat, 32);
    lemma_hex_digits_lower(value as nat, 32);
    lemma_uuid_text_chars(value);
    assert forall|i: int| 0 <= i < t.len() implies ascii_lower(#[trigger] t[i]) == t[i] by {
        if t[i] != '-' {
            let k = choose|k: int| 0 <= k < 32 && #[trigger] text_place(k) == i;
            assert(t[i] == d[k]);
        }
    }
    assert(t.map_values(|c: char| ascii_lower(c)) =~= t);
    assert(reads_as_uuid(t, value));
    uuids_are_read_unambiguously(t, value, value);
}

/// The UUID that a text stands for.
pub fn read_uuid(text: &str) -> (r: Option<u128>)
    ensures
        r == uuid_of(text@),
{
    match parse_uuid(text) {
        Ok(value) => {
            proof {
                uuids_are_read_unambiguously(text@, value, value);
            }
            Some(value)
        },
        Err(_) => None,
    }
}

/// A text stands for a UUID exactly where it names one in one of the four forms.
pub proof fn uuids_are_read_where_they_are_named(text: Seq<char>, value: u128)
    ensures
        uuid_of(text) == Some(value) <==> ({
            let lower = Seq::new(
                text.len(),
                |i: int|
                    if 'A' <= text[i] <= 'Z' {
                        (text[i] as int + 32) as char
                    } else {
                        text[i]
                    },
            );
            ||| lower == hex_digits(value as nat, 32)
            ||| lower == uuid_text(value)
            ||| lower == seq!['{'] + uuid_text(value) + seq!['}']
            ||| lower == seq!['u', 'r', 'n', ':', 'u', 'u', 'i', 'd', ':'] + uuid_text(value)
        }),
{
    let lower = Seq::new(
        text.len(),
        |i: int|
            if 'A' <= text[i] <= 'Z' {
                (text[i] as int + 32) as char
            } else {
                text[i]
            },
    );
    assert(text.map_values(|c: char| ascii_lower(c)) =~= lower);
    if reads_as_uuid(text, value) {
        uuids_are_read_unambiguously(text, value, value);
    }
    if uuid_of(text) == Some(value) {
        let other = choose|other: u128| reads_as_uuid(text, other);
        assert(reads_as_uuid(text, other));
    }
}

/// What is decoded is what encodes to the text, and every encoding is decoded.
pub proof fn encodings_are_decoded(text: Seq<char>, data: Seq<u8>)
    ensures
        base64url_decoded(text) == Some(data) <==> base64url(data) == text,
        base64_standard_decoded(text) == Some(data) <==> base64_standard(data) == text,
{
    if base64url(data) == text {
        base64url_decodes_what_it_encodes(data);
    }
    if base64url_decoded(text) == Some(data) {
        let other = choose|other: Seq<u8>| base64url(other) == text;
        assert(base64url(other) == text);
    }
    if base64_standard(data) == text {
        let other = choose|other: Seq<u8>| base64_standard(other) == text;
        assert(base64_standard(other) == text);
        base64_standard_is_unambiguous(other, data);
    }
    if base64_standard_decoded(text) == Some(data) {
        let other = choose|other: Seq<u8>| base64_standard(other) == text;
        assert(base64_standard(other) == text);
    }
}

} // verus!
