//! The rules for the key of the encrypted history.

use crate::{codec, crypto};
use vstd::prelude::*;

verus! {

/// The length of the key.
pub const KEY_BYTES: usize = 32;

/// The service under which the credential store keeps the key.
pub const KEYRING_SERVICE: &'static str = "com.cliptown.desktop.history";

/// Why there is no key.
#[derive(Clone, Copy, Debug, PartialEq, Eq, Structural)]
pub enum KeyError {
    Missing,
    InvalidLength,
    Unreadable,
    NoRandomBytes,
}

impl KeyError {
    /// The sentence that is shown to the user.
    pub open spec fn message_text(self) -> &'static str {
        match self {
            KeyError::Missing => "encrypted history key is missing; refusing destructive recovery",
            KeyError::InvalidLength => "encrypted history key has an invalid length",
            KeyError::Unreadable => "read encrypted history key",
            KeyError::NoRandomBytes => "generate encrypted history key",
        }
    }

    /// The sentence that is shown to the user.
    pub fn message(&self) -> (s: &'static str)
        ensures
            s@ == self.message_text()@,
    {
        match self {
            KeyError::Missing => "encrypted history key is missing; refusing destructive recovery",
            KeyError::InvalidLength => "encrypted history key has an invalid length",
            KeyError::Unreadable => "read encrypted history key",
            KeyError::NoRandomBytes => "generate encrypted history key",
        }
    }
}

/// What the credential store answered.
pub enum KeyLookup {
    Found(Vec<u8>),
    NoEntry,
    Failed,
}

/// What is done about the key.
pub enum KeyAction {
    Use([u8; 32]),
    Create,
    Refuse(KeyError),
}

/// What is done about the key. A new one is only made where there is no history yet.
pub fn key_action(lookup: KeyLookup, history_exists: bool) -> (action: KeyAction)
    ensures
        match lookup {
            KeyLookup::Found(secret) => if secret@.len() == KEY_BYTES {
                action matches KeyAction::Use(key) && key@ == secret@
            } else {
                action == KeyAction::Refuse(KeyError::InvalidLength)
            },
            KeyLookup::NoEntry => if history_exists {
                action == KeyAction::Refuse(KeyError::Missing)
            } else {
                action is Create
            },
            KeyLookup::Failed => action == KeyAction::Refuse(KeyError::Unreadable),
        },
        history_exists ==> !(action is Create),
{
    match lookup {
        KeyLookup::Found(secret) => match parse_key(secret) {
            Ok(key) => KeyAction::Use(key),
            Err(e) => KeyAction::Refuse(e),
        },
        KeyLookup::NoEntry => if history_exists {
            KeyAction::Refuse(KeyError::Missing)
        } else {
            KeyAction::Create
        },
        KeyLookup::Failed => KeyAction::Refuse(KeyError::Unreadable),
    }
}

/// A secret as a key, where its length is right. The memory of the secret is wiped.
pub fn parse_key(secret: Vec<u8>) -> (r: Result<[u8; 32], KeyError>)
    ensures
        r is Ok <==> secret@.len() == KEY_BYTES,
        r matches Ok(key) ==> key@ == secret@,
        r matches Err(e) ==> e == KeyError::InvalidLength,
{
    let mut secret = secret;
    take_key(&mut secret)
}

/// Takes a key out of a secret, where its length is right. Nothing of the secret is left.
pub fn take_key(secret: &mut Vec<u8>) -> (r: Result<[u8; 32], KeyError>)
    ensures
        r is Ok <==> old(secret)@.len() == KEY_BYTES,
        r matches Ok(key) ==> key@ == old(secret)@,
        r matches Err(e) ==> e == KeyError::InvalidLength,
        final(secret)@ == Seq::<u8>::empty(),
{
    if secret.len() != KEY_BYTES {
        crypto::wipe(secret);
        return Err(KeyError::InvalidLength);
    }
    let mut key: [u8; 32] = [0u8; 32];
    let mut i: usize = 0;
    while i < KEY_BYTES
        invariant
            i <= KEY_BYTES,
            secret@ == old(secret)@,
            secret@.len() == KEY_BYTES,
            forall|j: int| 0 <= j < i ==> key@[j] == secret@[j],
        decreases KEY_BYTES - i,
    {
        key[i] = secret[i];
        i = i + 1;
    }
    assert(key@ =~= secret@);
    crypto::wipe(secret);
    Ok(key)
}

/// A new key of random bytes: those that the operating system gives. Which bytes come, and whether
/// there are any, is left open; what is made of them is what [`key_from_random`] says.
pub fn generate_key() -> (r: Result<[u8; 32], KeyError>)
    ensures
        r matches Err(e) ==> e == KeyError::NoRandomBytes,
        exists|drawn: Result<Vec<u8>, getrandom::Error>| #[trigger]
            crypto::is_random_draw(KEY_BYTES, drawn) && match drawn {
                Ok(bytes) => r matches Ok(key) && key@ == bytes@,
                Err(_) => r is Err,
            },
{
    let drawn = crypto::draw_bytes(KEY_BYTES);
    let ghost given = drawn;
    assert(crypto::is_random_draw(KEY_BYTES, given));
    match drawn {
        Ok(bytes) => key_from_random(Some(bytes)),
        Err(_) => key_from_random(None),
    }
}

/// The key that is made of random bytes: these bytes, where they came and are as many as a key has.
pub fn key_from_random(drawn: Option<Vec<u8>>) -> (r: Result<[u8; 32], KeyError>)
    ensures
        match drawn {
            Some(bytes) => if bytes@.len() == KEY_BYTES {
                r matches Ok(key) && key@ == bytes@
            } else {
                r matches Err(e) && e == KeyError::InvalidLength
            },
            None => r matches Err(e) && e == KeyError::NoRandomBytes,
        },
{
    match drawn {
        Some(bytes) => parse_key(bytes),
        None => Err(KeyError::NoRandomBytes),
    }
}

/// The account under which the key of a history is kept: a digest that does not show the path.
pub open spec fn account_of_digest(digest: Seq<u8>) -> Seq<char> {
    "history-"@ + codec::hex_lower(digest)
}

/// The account for the digest of a path.
pub fn account_for_digest(digest: &[u8]) -> (s: String)
    requires
        digest@.len() <= 0x3fff_ffff,
    ensures
        s@ == account_of_digest(digest@),
{
    let mut s = "history-".to_owned();
    let hex = codec::hex_encode(digest);
    s.append(hex.as_str());
    s
}

/// The account under which the key of the history at an absolute path is kept.
pub fn keyring_account(absolute_path: &str) -> (s: String)
    ensures
        s@ == account_of_digest(crypto::sha256(vstd::utf8::encode_utf8(absolute_path@))),
        s@.len() == 72,
{
    let digest = crypto::sha256_digest(absolute_path.as_bytes());
    proof {
        reveal_strlit("history-");
    }
    account_for_digest(digest.as_slice())
}

/// A key as the encrypted database takes it: a blob literal of hexadecimal digits.
pub open spec fn literal_of_key(key: Seq<u8>) -> Seq<char> {
    "x'"@ + codec::hex_lower(key) + "'"@
}

/// The literal by which the encrypted database is given its key.
pub fn key_literal(key: &[u8; 32]) -> (s: String)
    ensures
        s@ == literal_of_key(key@),
{
    let mut s = "x'".to_owned();
    let hex = codec::hex_encode(key.as_slice());
    s.append(hex.as_str());
    s.append("'");
    s
}

/// Different keys have different literals.
pub proof fn key_literals_are_unambiguous(a: Seq<u8>, b: Seq<u8>)
    requires
        literal_of_key(a) == literal_of_key(b),
    ensures
        a == b,
{
    let ha = codec::hex_lower(a);
    let hb = codec::hex_lower(b);
    reveal_strlit("x'");
    reveal_strlit("'");
    assert(literal_of_key(a).len() == ha.len() + 3);
    assert(literal_of_key(b).len() == hb.len() + 3);
    assert(literal_of_key(a).subrange(2, 2 + ha.len() as int) =~= ha);
    assert(literal_of_key(b).subrange(2, 2 + hb.len() as int) =~= hb);
    codec::hex_is_unambiguous(a, b);
}

/// The literal of a key is `x`, a quote, two hexadecimal digits a byte, and a quote.
pub proof fn key_literals_hold_two_digits_a_byte(key: Seq<u8>, i: int)
    requires
        0 <= i < key.len(),
    ensures
        ({
            let s = literal_of_key(key);
            &&& s.len() == 2 * key.len() + 3
            &&& s[0] == 'x' && s[1] == '\'' && s.last() == '\''
            &&& s[2 * i + 2] == codec::hex_digit(key[i] as int / 16)
            &&& s[2 * i + 3] == codec::hex_digit(key[i] as int % 16)
        }),
        KEY_BYTES == 32,
{
    reveal_strlit("x'");
    reveal_strlit("'");
    let hex = codec::hex_lower(key);
    let s = literal_of_key(key);
    assert((2 * i) / 2 == i && (2 * i) % 2 == 0);
    assert((2 * i + 1) / 2 == i && (2 * i + 1) % 2 == 1);
    assert(s[2 * i + 2] == hex[2 * i]);
    assert(s[2 * i + 3] == hex[2 * i + 1]);
}

/// An account is a fixed word and two hexadecimal digits a byte of the digest, so that different
/// digests have different accounts.
pub proof fn accounts_are_unambiguous(a: Seq<u8>, b: Seq<u8>)
    ensures
        account_of_digest(a) == "history-"@ + codec::hex_lower(a),
        account_of_digest(a).len() == 8 + 2 * a.len(),
        account_of_digest(a) == account_of_digest(b) ==> a == b,
{
    reveal_strlit("history-");
    let ha = codec::hex_lower(a);
    let hb = codec::hex_lower(b);
    if account_of_digest(a) == account_of_digest(b) {
        assert(account_of_digest(a).subrange(8, 8 + ha.len() as int) =~= ha);
        assert(account_of_digest(b).subrange(8, 8 + hb.len() as int) =~= hb);
        codec::hex_is_unambiguous(a, b);
    }
}

/// Every failure has its sentence, and the key is kept under the service of this client.
pub proof fn key_errors_have_their_sentences(error: KeyError)
    ensures
        error.message_text()@ == (match error {
            KeyError::Missing => {
                "encrypted history key is missing; refusing destructive recovery"@
            },
            KeyError::InvalidLength => "encrypted history key has an invalid length"@,
            KeyError::Unreadable => "read encrypted history key"@,
            KeyError::NoRandomBytes => "generate encrypted history key"@,
        }),
        KEYRING_SERVICE@ == "com.cliptown.desktop.history"@,
{
}

} // verus!
