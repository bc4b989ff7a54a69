//! The hash embedding: how often the tokens of a text fall into which bucket.

use crate::crypto;
use crate::text::{self, TokenClass};
use vstd::prelude::*;

verus! {

/// The number of buckets.
pub const EMBEDDING_DIMENSIONS: usize = 384;

/// Where a bucket stops to grow: the last number up to which a single-precision float counts.
pub const BUCKET_LIMIT: i32 = 16_777_216;

/// A deterministic embedding that needs no network: tokens are hashed into buckets.
#[derive(Clone, Copy, Debug, Default)]
pub struct HashEmbedding;

/// The bucket for a digest.
pub open spec fn bucket_index(digest: Seq<u8>) -> int {
    (digest[0] as int + digest[1] as int * 256) % EMBEDDING_DIMENSIONS as int
}

/// The direction for a digest.
pub open spec fn bucket_sign(digest: Seq<u8>) -> int {
    if digest[2] % 2 == 0 {
        1
    } else {
        -1
    }
}

/// A bucket after one more token.
pub open spec fn bumped(count: int, sign: int) -> int {
    if -BUCKET_LIMIT <= count + sign <= BUCKET_LIMIT {
        count + sign
    } else {
        count
    }
}

/// The buckets after tokens with these digests.
pub open spec fn tallied(digests: Seq<Seq<u8>>) -> Seq<int>
    decreases digests.len(),
{
    if digests.len() == 0 {
        Seq::new(EMBEDDING_DIMENSIONS as nat, |i: int| 0int)
    } else {
        let before = tallied(digests.drop_last());
        let i = bucket_index(digests.last());
        before.update(i, bumped(before[i], bucket_sign(digests.last())))
    }
}

/// The digest of a token: that of its small letters.
pub open spec fn token_digest(token: Seq<char>) -> Seq<u8> {
    crypto::blake3(vstd::utf8::encode_utf8(text::lowercase(token)))
}

/// The digests of the tokens of a text.
pub open spec fn token_digests(s: Seq<char>) -> Seq<Seq<u8>> {
    text::runs(s, TokenClass::Alphanumeric).map_values(|token: Seq<char>| token_digest(token))
}

/// The numbers in a list of buckets.
pub open spec fn numbers(buckets: Seq<i32>) -> Seq<int> {
    buckets.map_values(|count: i32| count as int)
}

/// The contents of a list of byte strings.
pub open spec fn byte_strings(list: Seq<Vec<u8>>) -> Seq<Seq<u8>> {
    list.map_values(|bytes: Vec<u8>| bytes@)
}

/// Every bucket stays between the limits.
pub proof fn buckets_are_bounded(digests: Seq<Seq<u8>>)
    ensures
        tallied(digests).len() == EMBEDDING_DIMENSIONS,
        forall|i: int|
            0 <= i < EMBEDDING_DIMENSIONS ==> -BUCKET_LIMIT <= #[trigger] tallied(digests)[i]
                <= BUCKET_LIMIT,
    decreases digests.len(),
{
    if digests.len() > 0 {
        buckets_are_bounded(digests.drop_last());
    }
}

/// A text without letters and digits leaves every bucket empty.
pub proof fn texts_without_tokens_have_no_direction(s: Seq<char>)
    requires
        forall|i: int| 0 <= i < s.len() ==> !text::is_unicode_alphanumeric(#[trigger] s[i]),
    ensures
        forall|i: int|
            0 <= i < EMBEDDING_DIMENSIONS ==> #[trigger] tallied(token_digests(s))[i] == 0,
{
    text::runs_are_empty_where_no_character_counts(s, TokenClass::Alphanumeric);
    assert forall|i: int| 0 <= i < s.len() implies !TokenClass::Alphanumeric.has(
        #[trigger] s[i],
    ) by {}
    assert(token_digests(s).len() == 0);
}

/// Texts whose tokens agree one by one, but for capital letters, have the same buckets.
pub proof fn buckets_go_by_small_letters(a: Seq<char>, b: Seq<char>)
    requires
        text::runs(a, TokenClass::Alphanumeric).len() == text::runs(
            b,
            TokenClass::Alphanumeric,
        ).len(),
        forall|i: int|
            0 <= i < text::runs(a, TokenClass::Alphanumeric).len() ==> text::lowercase(
                #[trigger] text::runs(a, TokenClass::Alphanumeric)[i],
            ) == text::lowercase(text::runs(b, TokenClass::Alphanumeric)[i]),
    ensures
        tallied(token_digests(a)) == tallied(token_digests(b)),
{
    let ra = text::runs(a, TokenClass::Alphanumeric);
    let rb = text::runs(b, TokenClass::Alphanumeric);
    assert forall|i: int| 0 <= i < token_digests(a).len() implies #[trigger] token_digests(a)[i]
        == token_digests(b)[i] by {
        assert(text::lowercase(ra[i]) == text::lowercase(rb[i]));
    }
    assert(token_digests(a) =~= token_digests(b));
}

// ---------------------------------------------------------------------------
// The order of the tokens
// ---------------------------------------------------------------------------

/// The tokens of a text in small letters.
pub open spec fn small_tokens(s: Seq<char>) -> Seq<Seq<char>> {
    text::runs(s, TokenClass::Alphanumeric).map_values(|token: Seq<char>| text::lowercase(token))
}

/// How many tokens with these digests move a bucket in a direction.
pub open spec fn moves(digests: Seq<Seq<u8>>, bucket: int, sign: int) -> nat
    decreases digests.len(),
{
    if digests.len() == 0 {
        0
    } else {
        moves(digests.drop_last(), bucket, sign) + (if bucket_index(digests.last()) == bucket
            && bucket_sign(digests.last()) == sign {
            1nat
        } else {
            0nat
        })
    }
}

/// Whether a bucket cannot stop to grow on its way in one direction and then be moved in the other,
/// whatever the order of the tokens.
pub open spec fn is_within_limits(digests: Seq<Seq<u8>>, bucket: int) -> bool {
    ||| moves(digests, bucket, 1) == 0
    ||| moves(digests, bucket, -1) == 0
    ||| moves(digests, bucket, 1) <= BUCKET_LIMIT && moves(digests, bucket, -1) <= BUCKET_LIMIT
}

/// The smaller of a number and the limit of a bucket.
spec fn limited(n: nat) -> int {
    if n < BUCKET_LIMIT {
        n as int
    } else {
        BUCKET_LIMIT as int
    }
}

proof fn lemma_bucket_by_moves(digests: Seq<Seq<u8>>, bucket: int)
    requires
        0 <= bucket < EMBEDDING_DIMENSIONS,
        is_within_limits(digests, bucket),
    ensures
        tallied(digests)[bucket] == limited(moves(digests, bucket, 1)) - limited(
            moves(digests, bucket, -1),
        ),
    decreases digests.len(),
{
    if digests.len() > 0 {
        buckets_are_bounded(digests.drop_last());
        lemma_bucket_by_moves(digests.drop_last(), bucket);
    }
}

proof fn lemma_moves_without(digests: Seq<Seq<u8>>, i: int, bucket: int, sign: int)
    requires
        0 <= i < digests.len(),
    ensures
        moves(digests, bucket, sign) == moves(digests.remove(i), bucket, sign) + (if bucket_index(
            digests[i],
        ) == bucket && bucket_sign(digests[i]) == sign {
            1nat
        } else {
            0nat
        }),
    decreases digests.len(),
{
    let rest = digests.drop_last();
    if i == digests.len() - 1 {
        assert(digests.remove(i) =~= rest);
    } else {
        lemma_moves_without(rest, i, bucket, sign);
        assert(digests.remove(i).drop_last() =~= rest.remove(i));
        assert(digests.remove(i).last() == digests.last());
    }
}

proof fn lemma_moves_in_any_order(a: Seq<Seq<u8>>, b: Seq<Seq<u8>>, bucket: int, sign: int)
    requires
        a.to_multiset() == b.to_multiset(),
    ensures
        moves(a, bucket, sign) == moves(b, bucket, sign),
    decreases a.len(),
{
    broadcast use vstd::seq_lib::group_to_multiset_ensures;

    assert(a.to_multiset().len() == a.len());
    assert(b.to_multiset().len() == b.len());
    if a.len() > 0 {
        let last = a.last();
        assert(a.contains(last));
        assert(b.to_multiset().count(last) > 0);
        let i = choose|i: int| 0 <= i < b.len() && b[i] == last;
        assert(a.remove(a.len() - 1) =~= a.drop_last());
        vstd::seq_lib::to_multiset_remove(a, a.len() - 1);
        vstd::seq_lib::to_multiset_remove(b, i);
        lemma_moves_without(b, i, bucket, sign);
        lemma_moves_in_any_order(a.drop_last(), b.remove(i), bucket, sign);
    }
}

/// The order of the tokens does not matter, as long as no bucket can stop to grow and then be moved
/// back.
pub proof fn buckets_do_not_depend_on_order(a: Seq<Seq<u8>>, b: Seq<Seq<u8>>)
    requires
        a.to_multiset() == b.to_multiset(),
        forall|i: int| 0 <= i < EMBEDDING_DIMENSIONS ==> #[trigger] is_within_limits(a, i),
    ensures
        tallied(a) == tallied(b),
{
    buckets_are_bounded(a);
    buckets_are_bounded(b);
    assert forall|i: int| 0 <= i < EMBEDDING_DIMENSIONS implies tallied(a)[i] == tallied(b)[i] by {
        assert(is_within_limits(a, i));
        lemma_moves_in_any_order(a, b, i, 1);
        lemma_moves_in_any_order(a, b, i, -1);
        lemma_bucket_by_moves(a, i);
        lemma_bucket_by_moves(b, i);
    }
    assert(tallied(a) =~= tallied(b));
}

proof fn lemma_map_keeps_multiset(
    a: Seq<Seq<char>>,
    b: Seq<Seq<char>>,
    f: spec_fn(Seq<char>) -> Seq<u8>,
)
    requires
        a.to_multiset() == b.to_multiset(),
    ensures
        a.map_values(f).to_multiset() == b.map_values(f).to_multiset(),
    decreases a.len(),
{
    broadcast use vstd::seq_lib::group_to_multiset_ensures;

    assert(a.to_multiset().len() == a.len());
    assert(b.to_multiset().len() == b.len());
    if a.len() == 0 {
        assert(a.map_values(f) =~= b.map_values(f));
    } else {
        let n = a.len() - 1;
        let last = a.last();
        assert(a.contains(last));
        assert(b.to_multiset().count(last) > 0);
        let i = choose|i: int| 0 <= i < b.len() && b[i] == last;
        assert(a.remove(n) =~= a.drop_last());
        vstd::seq_lib::to_multiset_remove(a, n);
        vstd::seq_lib::to_multiset_remove(b, i);
        lemma_map_keeps_multiset(a.drop_last(), b.remove(i), f);
        let fa = a.map_values(f);
        let fb = b.map_values(f);
        assert(fa.remove(n) =~= a.drop_last().map_values(f));
        assert(fb.remove(i) =~= b.remove(i).map_values(f));
        vstd::seq_lib::to_multiset_remove(fa, n);
        vstd::seq_lib::to_multiset_remove(fb, i);
        assert(fa.contains(fa[n]) && fb.contains(fb[i]));
        assert(fa.to_multiset() =~= fa.remove(n).to_multiset().insert(f(last)));
        assert(fb.to_multiset() =~= fb.remove(i).to_multiset().insert(f(last)));
    }
}

/// Texts with the same tokens, each as often, in any order and with any capital letters, have the
/// same buckets, as long as no bucket can stop to grow and then be moved back.
pub proof fn texts_with_the_same_tokens_have_the_same_buckets(a: Seq<char>, b: Seq<char>)
    requires
        small_tokens(a).to_multiset() == small_tokens(b).to_multiset(),
        forall|i: int|
            0 <= i < EMBEDDING_DIMENSIONS ==> #[trigger] is_within_limits(token_digests(a), i),
    ensures
        tallied(token_digests(a)) == tallied(token_digests(b)),
{
    let f = |small: Seq<char>| crypto::blake3(vstd::utf8::encode_utf8(small));
    lemma_map_keeps_multiset(small_tokens(a), small_tokens(b), f);
    assert(token_digests(a) =~= small_tokens(a).map_values(f));
    assert(token_digests(b) =~= small_tokens(b).map_values(f));
    buckets_do_not_depend_on_order(token_digests(a), token_digests(b));
}

/// Up to as many tokens as a bucket counts, no bucket stops to grow.
pub proof fn short_texts_are_within_limits(digests: Seq<Seq<u8>>, bucket: int)
    requires
        digests.len() <= BUCKET_LIMIT,
    ensures
        is_within_limits(digests, bucket),
{
    lemma_moves_bound(digests, bucket, 1);
    lemma_moves_bound(digests, bucket, -1);
}

proof fn lemma_moves_bound(digests: Seq<Seq<u8>>, bucket: int, sign: int)
    ensures
        moves(digests, bucket, sign) <= digests.len(),
    decreases digests.len(),
{
    if digests.len() > 0 {
        lemma_moves_bound(digests.drop_last(), bucket, sign);
    }
}

// ---------------------------------------------------------------------------
// Counting
// ---------------------------------------------------------------------------

/// Counts one more token.
fn bump(buckets: &mut Vec<i32>, digest: &[u8])
    requires
        old(buckets)@.len() == EMBEDDING_DIMENSIONS,
        digest@.len() >= 3,
        forall|i: int|
            0 <= i < EMBEDDING_DIMENSIONS ==> -BUCKET_LIMIT <= #[trigger] old(buckets)@[i]
                <= BUCKET_LIMIT,
    ensures
        final(buckets)@.len() == EMBEDDING_DIMENSIONS,
        numbers(final(buckets)@) == numbers(old(buckets)@).update(
            bucket_index(digest@),
            bumped(numbers(old(buckets)@)[bucket_index(digest@)], bucket_sign(digest@)),
        ),
{
    let index: usize = (digest[0] as usize + digest[1] as usize * 256) % EMBEDDING_DIMENSIONS;
    let count: i32 = buckets[index];
    let next: i32 = if digest[2] % 2 == 0 {
        if count < BUCKET_LIMIT {
            count + 1
        } else {
            count
        }
    } else {
        if count > -BUCKET_LIMIT {
            count - 1
        } else {
            count
        }
    };
    buckets.set(index, next);
    assert(numbers(buckets@) =~= numbers(old(buckets)@).update(
        bucket_index(digest@),
        bumped(numbers(old(buckets)@)[bucket_index(digest@)], bucket_sign(digest@)),
    ));
}

/// The buckets after tokens with these digests.
pub fn tally_digests(digests: &[Vec<u8>]) -> (buckets: Vec<i32>)
    requires
        forall|i: int| 0 <= i < digests@.len() ==> (#[trigger] digests@[i])@.len() >= 3,
    ensures
        numbers(buckets@) == tallied(byte_strings(digests@)),
{
    let mut buckets: Vec<i32> = Vec::new();
    let mut n: usize = 0;
    while n < EMBEDDING_DIMENSIONS
        invariant
            n <= EMBEDDING_DIMENSIONS,
            buckets@.len() == n,
            forall|i: int| 0 <= i < n ==> #[trigger] buckets@[i] == 0,
        decreases EMBEDDING_DIMENSIONS - n,
    {
        buckets.push(0);
        n = n + 1;
    }
    let ghost all = byte_strings(digests@);
    assert(numbers(buckets@) =~= tallied(all.take(0)));
    let mut i: usize = 0;
    while i < digests.len()
        invariant
            i <= digests@.len(),
            all == byte_strings(digests@),
            buckets@.len() == EMBEDDING_DIMENSIONS,
            numbers(buckets@) == tallied(all.take(i as int)),
            forall|j: int| 0 <= j < digests@.len() ==> (#[trigger] digests@[j])@.len() >= 3,
        decreases digests@.len() - i,
    {
        proof {
            buckets_are_bounded(all.take(i as int));
            assert forall|j: int| 0 <= j < EMBEDDING_DIMENSIONS implies -BUCKET_LIMIT
                <= #[trigger] buckets@[j] <= BUCKET_LIMIT by {
                assert(numbers(buckets@)[j] == buckets@[j]);
            }
            assert(all.take(i + 1).drop_last() =~= all.take(i as int));
            assert(all.take(i + 1).last() == digests@[i as int]@);
        }
        bump(&mut buckets, digests[i].as_slice());
        i = i + 1;
    }
    assert(all.take(i as int) =~= all);
    buckets
}

/// Whether every bucket is empty.
pub open spec fn is_directionless(buckets: Seq<i32>) -> bool {
    forall|i: int| 0 <= i < buckets.len() ==> #[trigger] buckets[i] == 0
}

/// Whether a text has a direction: a bucket that is not empty.
pub fn has_direction(buckets: &[i32]) -> (r: bool)
    ensures
        r == !is_directionless(buckets@),
{
    let mut i: usize = 0;
    while i < buckets.len()
        invariant
            i <= buckets@.len(),
            forall|j: int| 0 <= j < i ==> #[trigger] buckets@[j] == 0,
        decreases buckets@.len() - i,
    {
        if buckets[i] != 0 {
            return true;
        }
        i = i + 1;
    }
    false
}

impl HashEmbedding {
    /// The name of the model.
    pub fn model_id(&self) -> (s: &'static str)
        ensures
            s@ == "cliptown-hash-v1"@,
    {
        "cliptown-hash-v1"
    }

    /// The number of buckets.
    pub fn dimensions(&self) -> (n: usize)
        ensures
            n == EMBEDDING_DIMENSIONS,
    {
        EMBEDDING_DIMENSIONS
    }

    /// The buckets of a text, before they are brought to unit length.
    pub fn buckets(&self, value: &str) -> (buckets: Vec<i32>)
        ensures
            numbers(buckets@) == tallied(token_digests(value@)),
            buckets@.len() == EMBEDDING_DIMENSIONS,
    {
        let tokens = text::split_runs(value, TokenClass::Alphanumeric);
        let ghost runs = text::runs(value@, TokenClass::Alphanumeric);
        let mut digests: Vec<Vec<u8>> = Vec::new();
        let mut i: usize = 0;
        while i < tokens.len()
            invariant
                i <= tokens@.len(),
                runs == text::texts(tokens@),
                digests@.len() == i,
                forall|j: int|
                    0 <= j < i ==> (#[trigger] digests@[j])@ == token_digest(runs[j])
                        && digests@[j]@.len() == 32,
            decreases tokens@.len() - i,
        {
            let small = text::to_lowercase(tokens[i].as_str());
            digests.push(crypto::blake3_digest(small.as_str().as_bytes()));
            i = i + 1;
        }
        assert(byte_strings(digests@) =~= token_digests(value@));
        proof {
            buckets_are_bounded(token_digests(value@));
        }
        let buckets = tally_digests(digests.as_slice());
        assert(numbers(buckets@).len() == buckets@.len());
        buckets
    }
}

// ---------------------------------------------------------------------------
// Stored vectors
// ---------------------------------------------------------------------------

/// `256` to the power of 0 to 3.
pub open spec fn place(i: int) -> int {
    if i == 0 {
        1
    } else if i == 1 {
        0x100
    } else if i == 2 {
        0x1_0000
    } else {
        0x100_0000
    }
}

/// Words in four bytes each, the lowest byte first.
pub open spec fn le_bytes(words: Seq<u32>) -> Seq<u8> {
    Seq::new(4 * words.len(), |i: int| (words[i / 4] as int / place(i % 4) % 256) as u8)
}

/// The bit patterns of a vector in little-endian order.
pub fn as_le_bytes(words: &[u32]) -> (bytes: Vec<u8>)
    ensures
        bytes@ == le_bytes(words@),
{
    let mut bytes: Vec<u8> = Vec::new();
    let mut i: usize = 0;
    while i < words.len()
        invariant
            i <= words@.len(),
            bytes@.len() == 4 * i,
            forall|j: int| 0 <= j < 4 * i ==> #[trigger] bytes@[j] == le_bytes(words@)[j],
        decreases words@.len() - i,
    {
        let word: u32 = words[i];
        bytes.push((word % 256) as u8);
        bytes.push((word / 0x100 % 256) as u8);
        bytes.push((word / 0x1_0000 % 256) as u8);
        bytes.push((word / 0x100_0000 % 256) as u8);
        assert forall|j: int| 4 * i <= j < 4 * i + 4 implies #[trigger] bytes@[j] == le_bytes(
            words@,
        )[j] by {
            assert(j / 4 == i);
            assert(j % 4 == j - 4 * i);
        }
        i = i + 1;
    }
    assert(bytes@ =~= le_bytes(words@));
    bytes
}

proof fn lemma_byte(a: Seq<u32>, b: Seq<u32>, i: int, k: int)
    requires
        le_bytes(a) == le_bytes(b),
        0 <= i < a.len(),
        0 <= i < b.len(),
        0 <= k < 4,
    ensures
        a[i] as int / place(k) % 256 == b[i] as int / place(k) % 256,
{
    let j = 4 * i + k;
    assert(j / 4 == i);
    assert(j % 4 == k);
    assert(le_bytes(a)[j] == (a[i] as int / place(k) % 256) as u8);
    assert(le_bytes(b)[j] == (b[i] as int / place(k) % 256) as u8);
}

proof fn lemma_word(x: u32, y: u32)
    requires
        x % 0x100 == y % 0x100,
        x / 0x100 % 0x100 == y / 0x100 % 0x100,
        x / 0x1_0000 % 0x100 == y / 0x1_0000 % 0x100,
        x / 0x100_0000 % 0x100 == y / 0x100_0000 % 0x100,
    ensures
        x == y,
{
    assert(x / 0x1_0000 == x / 0x100 / 0x100);
    assert(y / 0x1_0000 == y / 0x100 / 0x100);
    assert(x / 0x100_0000 == x / 0x1_0000 / 0x100);
    assert(y / 0x100_0000 == y / 0x1_0000 / 0x100);
}

/// Different vectors have different bytes.
pub proof fn le_bytes_are_unambiguous(a: Seq<u32>, b: Seq<u32>)
    requires
        le_bytes(a) == le_bytes(b),
    ensures
        a == b,
{
    assert(le_bytes(a).len() == 4 * a.len());
    assert(le_bytes(b).len() == 4 * b.len());
    assert forall|i: int| 0 <= i < a.len() implies a[i] == b[i] by {
        lemma_byte(a, b, i, 0);
        lemma_byte(a, b, i, 1);
        lemma_byte(a, b, i, 2);
        lemma_byte(a, b, i, 3);
        lemma_word(a[i], b[i]);
    }
    assert(a =~= b);
}

// ---------------------------------------------------------------------------
// What the buckets count
// ---------------------------------------------------------------------------

/// Without tokens, 384 buckets are empty. One more token moves one bucket, which the first two bytes
/// of its digest choose, by one: up where the third byte is even, and down where it is odd, but never
/// beyond 16 777 216 in either direction.
pub proof fn tokens_move_one_bucket_by_one(digests: Seq<Seq<u8>>, digest: Seq<u8>)
    ensures
        digests.len() == 0 ==> tallied(digests) == Seq::new(384, |i: int| 0int),
        ({
            let before = tallied(digests);
            let after = tallied(digests.push(digest));
            let bucket = (digest[0] as int + 256 * digest[1] as int) % 384;
            let up = digest[2] as int % 2 == 0;
            &&& after.len() == before.len() == 384
            &&& forall|i: int| 0 <= i < 384 && i != bucket ==> #[trigger] after[i] == before[i]
            &&& up && before[bucket] < 16_777_216 ==> after[bucket] == before[bucket] + 1
            &&& up && before[bucket] == 16_777_216 ==> after[bucket] == before[bucket]
            &&& !up && before[bucket] > -16_777_216 ==> after[bucket] == before[bucket] - 1
            &&& !up && before[bucket] == -16_777_216 ==> after[bucket] == before[bucket]
            &&& -16_777_216 <= after[bucket] <= 16_777_216
        }),
{
    let more = digests.push(digest);
    assert(more.drop_last() =~= digests);
    assert(more.last() == digest);
    buckets_are_bounded(digests);
    buckets_are_bounded(more);
    let bucket = (digest[0] as int + 256 * digest[1] as int) % 384;
    assert(-BUCKET_LIMIT <= tallied(digests)[bucket] <= BUCKET_LIMIT);
    assert(-BUCKET_LIMIT <= tallied(more)[bucket] <= BUCKET_LIMIT);
}

/// Up to 16 777 216 tokens, a bucket holds how many tokens move it up less how many move it down.
pub proof fn buckets_count_their_tokens(digests: Seq<Seq<u8>>, bucket: int)
    requires
        digests.len() <= 16_777_216,
        0 <= bucket < 384,
    ensures
        tallied(digests)[bucket] == digests.filter(
            |d: Seq<u8>| (d[0] as int + 256 * d[1] as int) % 384 == bucket && d[2] as int % 2 == 0,
        ).len() - digests.filter(
            |d: Seq<u8>| (d[0] as int + 256 * d[1] as int) % 384 == bucket && d[2] as int % 2 != 0,
        ).len(),
    decreases digests.len(),
{
    reveal_with_fuel(Seq::filter, 2);
    let ups = |d: Seq<u8>|
        (d[0] as int + 256 * d[1] as int) % 384 == bucket && d[2] as int % 2 == 0;
    let downs = |d: Seq<u8>|
        (d[0] as int + 256 * d[1] as int) % 384 == bucket && d[2] as int % 2 != 0;
    if digests.len() > 0 {
        let rest = digests.drop_last();
        buckets_count_their_tokens(rest, bucket);
        tokens_move_one_bucket_by_one(rest, digests.last());
        assert(rest.push(digests.last()) =~= digests);
        rest.lemma_filter_len(ups);
        rest.lemma_filter_len(downs);
        let u = rest.filter(ups).len();
        let d = rest.filter(downs).len();
        assert(u <= rest.len() && d <= rest.len());
    }
}

/// The tokens of a text are its longest runs of letters and digits, and each counts by the digest of
/// its small letters.
pub proof fn texts_count_by_their_tokens(s: Seq<char>)
    ensures
        token_digests(s).len() == text::runs(s, TokenClass::Alphanumeric).len(),
        forall|i: int|
            0 <= i < token_digests(s).len() ==> #[trigger] token_digests(s)[i] == crypto::blake3(
                vstd::utf8::encode_utf8(
                    text::lowercase(text::runs(s, TokenClass::Alphanumeric)[i]),
                ),
            ),
        EMBEDDING_DIMENSIONS == 384,
{
}

/// Four bytes stand for each word, the lowest first.
pub proof fn words_are_the_sums_of_their_bytes(words: Seq<u32>, i: int)
    requires
        0 <= i < words.len(),
    ensures
        le_bytes(words).len() == 4 * words.len(),
        words[i] == le_bytes(words)[4 * i] + 0x100 * le_bytes(words)[4 * i + 1] + 0x1_0000
            * le_bytes(words)[4 * i + 2] + 0x100_0000 * le_bytes(words)[4 * i + 3],
{
    let w = words[i] as int;
    assert((4 * i) / 4 == i && (4 * i) % 4 == 0);
    assert((4 * i + 1) / 4 == i && (4 * i + 1) % 4 == 1);
    assert((4 * i + 2) / 4 == i && (4 * i + 2) % 4 == 2);
    assert((4 * i + 3) / 4 == i && (4 * i + 3) % 4 == 3);
    assert(w / 0x1_0000 == w / 0x100 / 0x100);
    assert(w / 0x100_0000 == w / 0x1_0000 / 0x100);
    assert(le_bytes(words)[4 * i] == (w % 256) as u8);
    assert(le_bytes(words)[4 * i + 1] == (w / 0x100 % 256) as u8);
    assert(le_bytes(words)[4 * i + 2] == (w / 0x1_0000 % 256) as u8);
    assert(le_bytes(words)[4 * i + 3] == (w / 0x100_0000 % 256) as u8);
}

} // verus!
