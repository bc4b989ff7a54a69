//! Character-level helpers on strings.

use vstd::prelude::*;

verus! {

/// `String::push` appends one character to the end of the string.
pub assume_specification[ String::push ](s: &mut String, c: char)
    ensures
        final(s)@ == old(s)@.push(c),
;

/// The characters of a string, in order.
pub fn to_chars(s: &str) -> (v: Vec<char>)
    ensures
        v@ == s@,
{
    let mut v: Vec<char> = Vec::new();
    for c in it: s.chars()
        invariant
            v@ == it.seq().take(it.index()),
            it.seq() == s@,
    {
        v.push(c);
        assert(v@ == it.seq().take(it.index() + 1));
    }
    assert(v@ == s@);
    v
}

/// The string made of the characters `v[from..to]`.
pub fn chars_between(v: &[char], from: usize, to: usize) -> (s: String)
    requires
        from <= to <= v@.len(),
    ensures
        s@ == v@.subrange(from as int, to as int),
{
    let mut s = String::new();
    let mut i: usize = from;
    while i < to
        invariant
            from <= i <= to <= v@.len(),
            s@ == v@.subrange(from as int, i as int),
        decreases to - i,
    {
        s.push(v[i]);
        i = i + 1;
        assert(s@ == v@.subrange(from as int, i as int));
    }
    s
}

/// Two character sequences with the same UTF-8 encoding are the same.
pub proof fn encoding_determines_text(a: Seq<char>, b: Seq<char>)
    ensures
        vstd::utf8::encode_utf8(a) == vstd::utf8::encode_utf8(b) ==> a == b,
{
    vstd::utf8::encode_utf8_decode_utf8(a);
    vstd::utf8::encode_utf8_decode_utf8(b);
}

/// The UTF-8 encoding of a concatenation is the concatenation of the encodings.
pub proof fn encoding_of_concatenation(a: Seq<char>, b: Seq<char>)
    ensures
        vstd::utf8::encode_utf8(a + b) == vstd::utf8::encode_utf8(a) + vstd::utf8::encode_utf8(b),
    decreases a.len(),
{
    if a.len() == 0 {
        assert(a + b == b);
        assert(vstd::utf8::encode_utf8(a) + vstd::utf8::encode_utf8(b) == vstd::utf8::encode_utf8(b));
    } else {
        assert((a + b).drop_first() == a.drop_first() + b);
        encoding_of_concatenation(a.drop_first(), b);
        assert(vstd::utf8::encode_utf8(a + b) == vstd::utf8::encode_utf8(a) + vstd::utf8::encode_utf8(b));
    }
}

/// Whether two byte strings are equal.
pub fn same_bytes(a: &[u8], b: &[u8]) -> (r: bool)
    ensures
        r == (a@ == b@),
{
    if a.len() != b.len() {
        return false;
    }
    let mut i: usize = 0;
    while i < a.len()
        invariant
            i <= a@.len() == b@.len(),
            forall|j: int| 0 <= j < i ==> a@[j] == b@[j],
        decreases a@.len() - i,
    {
        if a[i] != b[i] {
            assert(a@[i as int] != b@[i as int]);
            return false;
        }
        i = i + 1;
    }
    assert(a@ == b@);
    true
}

/// Whether two strings hold the same characters.
pub fn same_text(a: &str, b: &str) -> (r: bool)
    ensures
        r == (a@ == b@),
{
    proof {
        encoding_determines_text(a@, b@);
    }
    same_bytes(a.as_bytes(), b.as_bytes())
}

/// Appends a byte string to a buffer.
pub fn append_bytes(out: &mut Vec<u8>, bytes: &[u8])
    ensures
        final(out)@ == old(out)@ + bytes@,
{
    let mut i: usize = 0;
    while i < bytes.len()
        invariant
            i <= bytes@.len(),
            out@ == old(out)@ + bytes@.take(i as int),
        decreases bytes@.len() - i,
    {
        out.push(bytes[i]);
        i = i + 1;
        assert(out@ == old(out)@ + bytes@.take(i as int));
    }
    assert(bytes@.take(bytes@.len() as int) == bytes@);
}

/// The character of one decimal digit.
pub open spec fn digit(d: int) -> char {
    (d + 48) as char
}

/// Decimal notation, without sign or leading zeros.
pub open spec fn decimal(n: nat) -> Seq<char>
    decreases n,
{
    if n < 10 {
        seq![digit(n as int)]
    } else {
        decimal(n / 10).push(digit((n % 10) as int))
    }
}

/// One decimal digit as a character.
pub fn digit_char(d: u64) -> (c: char)
    requires
        d < 10,
    ensures
        c == digit(d as int),
{
    let b: u8 = d as u8;
    (b + 48) as char
}

/// Writes a number in decimal notation.
pub fn decimal_text(n: u64) -> (s: String)
    ensures
        s@ == decimal(n as nat),
    decreases n,
{
    let mut s = if n < 10 {
        String::new()
    } else {
        decimal_text(n / 10)
    };
    s.push(digit_char(n % 10));
    assert(s@ == decimal(n as nat));
    s
}

// ---------------------------------------------------------------------------
// White space
// ---------------------------------------------------------------------------

/// The characters with the Unicode property White_Space.
pub open spec fn is_white_space(c: char) -> bool {
    let n = c as int;
    9 <= n <= 13 || n == 32 || n == 0x85 || n == 0xa0 || n == 0x1680 || 0x2000 <= n <= 0x200a || n
        == 0x2028 || n == 0x2029 || n == 0x202f || n == 0x205f || n == 0x3000
}

/// Whether a character is white space.
pub fn white_space(c: char) -> (r: bool)
    ensures
        r == is_white_space(c),
{
    let n: u32 = c as u32;
    (9 <= n && n <= 13) || n == 32 || n == 0x85 || n == 0xa0 || n == 0x1680 || (0x2000 <= n && n
        <= 0x200a) || n == 0x2028 || n == 0x2029 || n == 0x202f || n == 0x205f || n == 0x3000
}

/// A text without the white space at its beginning.
pub open spec fn trimmed_start(s: Seq<char>) -> Seq<char>
    decreases s.len(),
{
    if s.len() > 0 && is_white_space(s[0]) {
        trimmed_start(s.drop_first())
    } else {
        s
    }
}

/// A text without the white space at its end.
pub open spec fn trimmed_end(s: Seq<char>) -> Seq<char>
    decreases s.len(),
{
    if s.len() > 0 && is_white_space(s.last()) {
        trimmed_end(s.drop_last())
    } else {
        s
    }
}

/// A text without the white space at both ends.
pub open spec fn trimmed(s: Seq<char>) -> Seq<char> {
    trimmed_end(trimmed_start(s))
}

/// Whether a text has nothing but white space.
pub open spec fn is_blank(s: Seq<char>) -> bool {
    forall|i: int| 0 <= i < s.len() ==> is_white_space(#[trigger] s[i])
}

/// Nothing is left exactly where there was nothing but white space.
pub proof fn trimmed_is_empty_where_blank(s: Seq<char>)
    ensures
        trimmed(s).len() == 0 <==> is_blank(s),
{
    lemma_trimmed_start(s);
    lemma_trimmed_end(trimmed_start(s));
    let t = trimmed_start(s);
    if t.len() > 0 && trimmed_end(t).len() == 0 {
        assert(is_white_space(t[0]));
        assert(false);
    }
}

/// What is cut off at the beginning is white space, and what is left begins with something else.
proof fn lemma_trimmed_start(s: Seq<char>)
    ensures
        trimmed_start(s).len() <= s.len(),
        trimmed_start(s) == s.skip(s.len() - trimmed_start(s).len()),
        forall|i: int|
            0 <= i < s.len() - trimmed_start(s).len() ==> is_white_space(#[trigger] s[i]),
        trimmed_start(s).len() > 0 ==> !is_white_space(trimmed_start(s)[0]),
    decreases s.len(),
{
    if s.len() > 0 && is_white_space(s[0]) {
        let rest = s.drop_first();
        lemma_trimmed_start(rest);
        assert forall|i: int| 0 <= i < s.len() - trimmed_start(s).len() implies is_white_space(
            #[trigger] s[i],
        ) by {
            if i > 0 {
                assert(rest[i - 1] == s[i]);
            }
        }
        assert(trimmed_start(s) =~= s.skip(s.len() - trimmed_start(s).len()));
        if trimmed_start(s).len() > 0 {
            assert(s[s.len() - trimmed_start(s).len()] == trimmed_start(s)[0]);
        }
    } else {
        assert(s =~= s.skip(0));
    }
}

/// What is cut off at the end is white space, and what is left ends with something else.
proof fn lemma_trimmed_end(s: Seq<char>)
    ensures
        trimmed_end(s).len() <= s.len(),
        trimmed_end(s) == s.take(trimmed_end(s).len() as int),
        forall|i: int| trimmed_end(s).len() <= i < s.len() ==> is_white_space(#[trigger] s[i]),
        trimmed_end(s).len() > 0 ==> !is_white_space(trimmed_end(s).last()),
    decreases s.len(),
{
    if s.len() > 0 && is_white_space(s.last()) {
        let rest = s.drop_last();
        lemma_trimmed_end(rest);
        assert forall|i: int| trimmed_end(s).len() <= i < s.len() implies is_white_space(
            #[trigger] s[i],
        ) by {
            if i < s.len() - 1 {
                assert(rest[i] == s[i]);
            }
        }
        assert(trimmed_end(s) =~= s.take(trimmed_end(s).len() as int));
    } else {
        assert(s =~= s.take(s.len() as int));
    }
}

/// Trimming finds the first and the last character that is no white space.
proof fn lemma_trimmed_between(s: Seq<char>, from: int, to: int)
    requires
        0 <= from <= to <= s.len(),
        forall|i: int| 0 <= i < from ==> is_white_space(#[trigger] s[i]),
        forall|i: int| to <= i < s.len() ==> is_white_space(#[trigger] s[i]),
        from < to ==> !is_white_space(s[from]) && !is_white_space(s[to - 1]),
        from == to ==> from == s.len(),
    ensures
        trimmed(s) == s.subrange(from, to),
{
    lemma_trimmed_start(s);
    let t = trimmed_start(s);
    let a = s.len() - t.len();
    if a < from {
        assert(t[0] == s[a]);
        assert(is_white_space(s[a]));
    } else if from < a {
        assert(is_white_space(s[from]));
    }
    lemma_trimmed_end(t);
    let n = trimmed_end(t).len();
    if n < to - from {
        assert(is_white_space(t[to - from - 1]));
        assert(t[to - from - 1] == s[to - 1]);
    } else if n > to - from {
        assert(t[n - 1] == s[from + n - 1]);
        assert(is_white_space(s[from + n - 1]));
    }
    assert(trimmed(s) =~= s.subrange(from, to));
}

/// Where the trimmed text begins and ends.
pub fn trim_bounds(chars: &[char]) -> (r: (usize, usize))
    ensures
        r.0 <= r.1 <= chars@.len(),
        trimmed(chars@) == chars@.subrange(r.0 as int, r.1 as int),
{
    let mut from: usize = 0;
    while from < chars.len() && white_space(chars[from])
        invariant
            from <= chars@.len(),
            forall|i: int| 0 <= i < from ==> is_white_space(#[trigger] chars@[i]),
        decreases chars@.len() - from,
    {
        from = from + 1;
    }
    let mut to: usize = chars.len();
    while from < to && white_space(chars[to - 1])
        invariant
            from <= to <= chars@.len(),
            from < chars@.len() ==> !is_white_space(chars@[from as int]),
            forall|i: int| to <= i < chars@.len() ==> is_white_space(#[trigger] chars@[i]),
        decreases to,
    {
        to = to - 1;
    }
    if from == to && from < chars.len() {
        assert(is_white_space(chars@[from as int]));
        assert(false);
    }
    proof {
        lemma_trimmed_between(chars@, from as int, to as int);
    }
    (from, to)
}

/// Whether a text has nothing but white space.
pub fn blank(s: &str) -> (r: bool)
    ensures
        r == is_blank(s@),
        r == (trimmed(s@).len() == 0),
{
    let chars = to_chars(s);
    let (from, to) = trim_bounds(chars.as_slice());
    proof {
        trimmed_is_empty_where_blank(s@);
    }
    from == to
}

// ---------------------------------------------------------------------------
// Parts of a text
// ---------------------------------------------------------------------------

/// What stands before the first occurrence of a character; everything, where it does not occur.
pub open spec fn before(s: Seq<char>, c: char) -> Seq<char>
    decreases s.len(),
{
    if s.len() == 0 || s[0] == c {
        seq![]
    } else {
        seq![s[0]] + before(s.drop_first(), c)
    }
}

proof fn lemma_before(s: Seq<char>, c: char, n: int)
    requires
        0 <= n <= s.len(),
        forall|i: int| 0 <= i < n ==> #[trigger] s[i] != c,
        n < s.len() ==> s[n] == c,
    ensures
        before(s, c) == s.take(n),
    decreases s.len(),
{
    if s.len() > 0 && s[0] != c {
        let rest = s.drop_first();
        assert forall|i: int| 0 <= i < n - 1 implies #[trigger] rest[i] != c by {
            assert(rest[i] == s[i + 1]);
        }
        lemma_before(rest, c, n - 1);
        assert(before(s, c) =~= s.take(n));
    } else {
        assert(n == 0);
        assert(before(s, c) =~= s.take(n));
    }
}

/// How many characters stand before the first occurrence of a character.
pub fn length_before(chars: &[char], c: char) -> (n: usize)
    ensures
        n <= chars@.len(),
        before(chars@, c) == chars@.take(n as int),
{
    let mut n: usize = 0;
    while n < chars.len() && chars[n] != c
        invariant
            n <= chars@.len(),
            forall|i: int| 0 <= i < n ==> #[trigger] chars@[i] != c,
        decreases chars@.len() - n,
    {
        n = n + 1;
    }
    proof {
        lemma_before(chars@, c, n as int);
    }
    n
}

/// Whether a text contains a character.
pub fn contains_char(s: &str, c: char) -> (r: bool)
    ensures
        r == s@.contains(c),
{
    let chars = to_chars(s);
    let mut i: usize = 0;
    while i < chars.len()
        invariant
            i <= chars@.len(),
            chars@ == s@,
            forall|j: int| 0 <= j < i ==> #[trigger] chars@[j] != c,
        decreases chars@.len() - i,
    {
        if chars[i] == c {
            assert(s@[i as int] == c);
            return true;
        }
        i = i + 1;
    }
    false
}

/// Texts with a separator between them.
pub open spec fn joined(list: Seq<Seq<char>>, separator: Seq<char>) -> Seq<char>
    decreases list.len(),
{
    if list.len() == 0 {
        seq![]
    } else if list.len() == 1 {
        list[0]
    } else {
        joined(list.drop_last(), separator) + separator + list.last()
    }
}

/// The contents of a list of texts.
pub open spec fn texts(list: Seq<String>) -> Seq<Seq<char>> {
    list.map_values(|s: String| s@)
}

/// Joins texts with a separator between them.
pub fn join(list: &[String], separator: &str) -> (s: String)
    ensures
        s@ == joined(texts(list@), separator@),
{
    let mut s = String::new();
    let mut i: usize = 0;
    assert(texts(list@).take(0) =~= Seq::empty());
    while i < list.len()
        invariant
            i <= list@.len(),
            s@ == joined(texts(list@).take(i as int), separator@),
        decreases list@.len() - i,
    {
        let ghost done = texts(list@).take(i as int);
        let ghost more = texts(list@).take(i + 1);
        let ghost written = s@;
        assert(more.drop_last() =~= done);
        assert(more.last() == list@[i as int]@);
        if i > 0 {
            s.append(separator);
        } else {
            assert(written.len() == 0);
        }
        s.append(list[i].as_str());
        proof {
            if i > 0 {
                assert(s@ =~= joined(more, separator@));
            } else {
                assert(s@ =~= more[0]);
            }
        }
        i = i + 1;
    }
    assert(texts(list@).take(i as int) =~= texts(list@));
    s
}

// ---------------------------------------------------------------------------
// Runs of characters
// ---------------------------------------------------------------------------

/// Which characters belong together.
#[derive(Clone, Copy, Debug, PartialEq, Eq, Structural)]
pub enum TokenClass {
    /// Everything but white space.
    NonBlank,
    /// Letters and digits of any script.
    Alphanumeric,
}

/// Whether a character is a letter or a digit of any script.
pub uninterp spec fn is_unicode_alphanumeric(c: char) -> bool;

/// `char::is_alphanumeric`, which goes by the Unicode properties Alphabetic and General_Category.
#[verifier::external_body]
pub(crate) fn unicode_alphanumeric(c: char) -> (r: bool)
    ensures
        r == is_unicode_alphanumeric(c),
        r <== 'a' <= c <= 'z' || 'A' <= c <= 'Z' || '0' <= c <= '9',
{
    c.is_alphanumeric()
}

/// A text in small letters, by the Unicode property Lowercase.
pub uninterp spec fn lowercase(s: Seq<char>) -> Seq<char>;

/// `str::to_lowercase`, which goes by the Unicode property Lowercase.
#[verifier::external_body]
pub(crate) fn to_lowercase(s: &str) -> (r: String)
    ensures
        r@ == lowercase(s@),
{
    s.to_lowercase()
}

impl TokenClass {
    /// Whether a character belongs to the class.
    pub open spec fn has(self, c: char) -> bool {
        match self {
            TokenClass::NonBlank => !is_white_space(c),
            TokenClass::Alphanumeric => is_unicode_alphanumeric(c),
        }
    }

    /// Whether a character belongs to the class.
    fn holds(self, c: char) -> (r: bool)
        ensures
            r == self.has(c),
    {
        match self {
            TokenClass::NonBlank => !white_space(c),
            TokenClass::Alphanumeric => unicode_alphanumeric(c),
        }
    }
}

/// The complete runs of a text, and the run at its end.
pub open spec fn runs_so_far(s: Seq<char>, class: TokenClass) -> (Seq<Seq<char>>, Seq<char>)
    decreases s.len(),
{
    if s.len() == 0 {
        (seq![], seq![])
    } else {
        let (complete, open) = runs_so_far(s.drop_last(), class);
        if class.has(s.last()) {
            (complete, open.push(s.last()))
        } else if open.len() > 0 {
            (complete.push(open), seq![])
        } else {
            (complete, open)
        }
    }
}

/// The longest runs of characters of a class, in the order in which they stand in the text.
pub open spec fn runs(s: Seq<char>, class: TokenClass) -> Seq<Seq<char>> {
    let (complete, open) = runs_so_far(s, class);
    if open.len() > 0 {
        complete.push(open)
    } else {
        complete
    }
}

/// The longest runs of characters of a class.
pub fn split_runs(s: &str, class: TokenClass) -> (list: Vec<String>)
    ensures
        texts(list@) == runs(s@, class),
{
    let chars = to_chars(s);
    let mut list: Vec<String> = Vec::new();
    let mut open = String::new();
    let mut empty: bool = true;
    let mut i: usize = 0;
    assert(chars@.take(0) =~= Seq::empty());
    assert(texts(list@) =~= Seq::empty());
    while i < chars.len()
        invariant
            i <= chars@.len(),
            chars@ == s@,
            empty == (open@.len() == 0),
            runs_so_far(chars@.take(i as int), class) == (texts(list@), open@),
        decreases chars@.len() - i,
    {
        let c = chars[i];
        let ghost more = chars@.take(i + 1);
        assert(more.drop_last() =~= chars@.take(i as int));
        assert(more.last() == c);
        if class.holds(c) {
            open.push(c);
            empty = false;
        } else if !empty {
            let ghost done = texts(list@);
            list.push(open);
            assert(texts(list@) =~= done.push(open@));
            open = String::new();
            empty = true;
        }
        i = i + 1;
    }
    assert(chars@.take(i as int) =~= s@);
    if !empty {
        let ghost done = texts(list@);
        list.push(open);
        assert(texts(list@) =~= done.push(open@));
    }
    list
}

/// A text has a run exactly where it has a character of the class.
pub proof fn runs_are_empty_where_no_character_counts(s: Seq<char>, class: TokenClass)
    ensures
        runs(s, class).len() == 0 <==> forall|i: int| 0 <= i < s.len() ==> !class.has(#[trigger] s[i]),
    decreases s.len(),
{
    if s.len() > 0 {
        let rest = s.drop_last();
        runs_are_empty_where_no_character_counts(rest, class);
        assert forall|i: int| 0 <= i < rest.len() implies #[trigger] rest[i] == s[i] by {}
        if class.has(s.last()) {
            assert(class.has(s[s.len() - 1]));
        } else if forall|i: int| 0 <= i < rest.len() ==> !class.has(#[trigger] rest[i]) {
            assert forall|i: int| 0 <= i < s.len() implies !class.has(#[trigger] s[i]) by {
                if i < rest.len() {
                    assert(rest[i] == s[i]);
                }
            }
        } else {
            let i = choose|i: int| 0 <= i < rest.len() && class.has(#[trigger] rest[i]);
            assert(class.has(s[i]));
        }
    }
}

// ---------------------------------------------------------------------------
// What the parts are
// ---------------------------------------------------------------------------

/// White space is the tabs, line ends and blanks of Unicode, and nothing else.
pub proof fn white_space_is_told_by_code_points(c: char)
    ensures
        is_white_space(c) <==> c == '\t' || c == '\n' || c == '\u{b}' || c == '\u{c}' || c == '\r' || c
            == ' ' || c == '\u{85}' || c == '\u{a0}' || c == '\u{1680}' || ('\u{2000}' <= c
            <= '\u{200a}') || c == '\u{2028}' || c == '\u{2029}' || c == '\u{202f}' || c
            == '\u{205f}' || c == '\u{3000}',
{
}

/// Trimming takes away the white space at both ends and nothing else.
pub proof fn trimming_takes_white_space_from_both_ends(s: Seq<char>) -> (bounds: (int, int))
    ensures
        0 <= bounds.0 <= bounds.1 <= s.len(),
        trimmed(s) == s.subrange(bounds.0, bounds.1),
        forall|i: int|
            0 <= i < s.len() && !(bounds.0 <= i < bounds.1) ==> is_white_space(#[trigger] s[i]),
        bounds.0 < bounds.1 ==> !is_white_space(s[bounds.0]) && !is_white_space(s[bounds.1 - 1]),
{
    lemma_trimmed_start(s);
    let t = trimmed_start(s);
    lemma_trimmed_end(t);
    let from = s.len() - t.len();
    let to = from + trimmed_end(t).len();
    assert(trimmed(s) =~= s.subrange(from, to));
    assert forall|i: int| 0 <= i < s.len() && !(from <= i < to) implies is_white_space(
        #[trigger] s[i],
    ) by {
        if i >= to {
            assert(t[i - from] == s[i]);
        }
    }
    if from < to {
        assert(trimmed(s)[0] == s[from] && trimmed(s)[0] == t[0]);
        assert(trimmed(s).last() == s[to - 1]);
    }
    (from, to)
}

/// What stands before a character goes up to its first occurrence, or to the end.
pub proof fn parts_end_before_the_first_occurrence(s: Seq<char>, c: char)
    ensures
        before(s, c).len() <= s.len(),
        before(s, c) == s.take(before(s, c).len() as int),
        forall|i: int| 0 <= i < before(s, c).len() ==> #[trigger] s[i] != c,
        before(s, c).len() < s.len() ==> s[before(s, c).len() as int] == c,
    decreases s.len(),
{
    if s.len() > 0 && s[0] != c {
        let rest = s.drop_first();
        parts_end_before_the_first_occurrence(rest, c);
        let n = before(rest, c).len() as int;
        assert forall|i: int| 0 <= i < n + 1 implies #[trigger] s[i] != c by {
            if i > 0 {
                assert(rest[i - 1] == s[i]);
            }
        }
        if n < rest.len() {
            assert(rest[n] == s[n + 1]);
        }
        lemma_before(s, c, n + 1);
    } else {
        assert(before(s, c) =~= s.take(0));
    }
}

/// Between texts that are joined stands the separator, and nowhere else.
pub proof fn joined_texts_stand_one_behind_the_other(
    a: Seq<Seq<char>>,
    b: Seq<Seq<char>>,
    separator: Seq<char>,
)
    ensures
        a.len() == 0 ==> joined(a, separator).len() == 0,
        a.len() == 1 ==> joined(a, separator) == a[0],
        a.len() > 0 && b.len() > 0 ==> joined(a + b, separator) == joined(a, separator) + separator
            + joined(b, separator),
    decreases b.len(),
{
    if a.len() > 0 && b.len() > 0 {
        let all = a + b;
        assert(all.last() == b.last());
        if b.len() == 1 {
            assert(all.drop_last() =~= a);
        } else {
            let rest = b.drop_last();
            assert(all.drop_last() =~= a + rest);
            joined_texts_stand_one_behind_the_other(a, rest, separator);
            assert(joined(all, separator) =~= joined(a, separator) + separator + joined(
                b,
                separator,
            ));
        }
    }
}

/// Decimal notation has digits only, and no zero in front but for zero itself. A number with one
/// digit is that digit, and another digit behind a number multiplies it by ten.
pub proof fn numbers_are_written_in_decimal(n: nat, d: nat)
    requires
        d < 10,
    ensures
        decimal(n).len() > 0,
        forall|i: int| 0 <= i < decimal(n).len() ==> '0' <= #[trigger] decimal(n)[i] <= '9',
        n > 0 ==> decimal(n)[0] != '0',
        decimal(d) == seq![(48 + d) as char],
        n > 0 ==> decimal(10 * n + d) == decimal(n).push((48 + d) as char),
    decreases n,
{
    if n >= 10 {
        numbers_are_written_in_decimal(n / 10, d);
        let s = decimal(n);
        let rest = decimal(n / 10);
        assert forall|i: int| 0 <= i < s.len() implies '0' <= #[trigger] s[i] <= '9' by {
            if i < rest.len() {
                assert(rest[i] == s[i]);
            }
        }
    }
    if n > 0 {
        assert((10 * n + d) / 10 == n && (10 * n + d) % 10 == d);
        assert(digit((n % 10) as int) != '0' || n >= 10);
    }
}

/// Where the complete runs and the run at the end stand.
proof fn lemma_runs_so_far(s: Seq<char>, class: TokenClass) -> (bounds: (Seq<(int, int)>, int))
    ensures
        bounds.0.len() == runs_so_far(s, class).0.len(),
        0 <= bounds.1 <= s.len(),
        runs_so_far(s, class).1 == s.subrange(bounds.1, s.len() as int),
        forall|i: int| bounds.1 <= i < s.len() ==> class.has(#[trigger] s[i]),
        bounds.1 > 0 ==> !class.has(s[bounds.1 - 1]),
        forall|k: int|
            0 <= k < bounds.0.len() ==> {
                let run = #[trigger] bounds.0[k];
                &&& 0 <= run.0 < run.1 < s.len()
                &&& run.1 < bounds.1
                &&& runs_so_far(s, class).0[k] == s.subrange(run.0, run.1)
                &&& forall|i: int| run.0 <= i < run.1 ==> class.has(#[trigger] s[i])
                &&& run.0 == 0 || !class.has(s[run.0 - 1])
                &&& !class.has(s[run.1])
            },
        forall|k: int, l: int|
            0 <= k < l < bounds.0.len() ==> (#[trigger] bounds.0[k]).1 < (#[trigger] bounds.0[l]).0,
        forall|i: int|
            0 <= i < bounds.1 && class.has(#[trigger] s[i]) ==> exists|k: int|
                0 <= k < bounds.0.len() && (#[trigger] bounds.0[k]).0 <= i < bounds.0[k].1,
    decreases s.len(),
{
    if s.len() == 0 {
        assert(runs_so_far(s, class).1 =~= s.subrange(0, 0));
        (seq![], 0)
    } else {
        let rest = s.drop_last();
        let n = rest.len() as int;
        let (list, from) = lemma_runs_so_far(rest, class);
        let (complete, open) = runs_so_far(rest, class);
        assert forall|i: int| 0 <= i < n implies rest[i] == #[trigger] s[i] by {}
        assert(s.last() == s[n]);
        assert forall|i: int| 0 <= i < from && class.has(#[trigger] s[i]) implies exists|k: int|
            0 <= k < list.len() && (#[trigger] list[k]).0 <= i < list[k].1 by {
            assert(class.has(rest[i]));
        }
        assert forall|k: int| 0 <= k < list.len() implies complete[k] == s.subrange(
            (#[trigger] list[k]).0,
            list[k].1,
        ) by {
            assert(rest.subrange(list[k].0, list[k].1) =~= s.subrange(list[k].0, list[k].1));
        }
        if class.has(s.last()) {
            assert(runs_so_far(s, class).1 =~= s.subrange(from, n + 1));
            (list, from)
        } else if open.len() > 0 {
            let more = list.push((from, n));
            assert(open =~= s.subrange(from, n));
            assert(runs_so_far(s, class).1 =~= s.subrange(n + 1, n + 1));
            assert forall|k: int| 0 <= k < more.len() implies {
                let run = #[trigger] more[k];
                &&& 0 <= run.0 < run.1 < s.len()
                &&& run.1 < n + 1
                &&& runs_so_far(s, class).0[k] == s.subrange(run.0, run.1)
                &&& forall|i: int| run.0 <= i < run.1 ==> class.has(#[trigger] s[i])
                &&& run.0 == 0 || !class.has(s[run.0 - 1])
                &&& !class.has(s[run.1])
            } by {
                if k < list.len() {
                    assert(more[k] == list[k]);
                    assert forall|i: int| list[k].0 <= i < list[k].1 implies class.has(
                        #[trigger] s[i],
                    ) by {
                        assert(class.has(rest[i]));
                    }
                } else {
                    assert forall|i: int| from <= i < n implies class.has(#[trigger] s[i]) by {
                        assert(class.has(rest[i]));
                    }
                }
            }
            assert forall|i: int| 0 <= i < n + 1 && class.has(#[trigger] s[i]) implies exists|k: int|
                0 <= k < more.len() && (#[trigger] more[k]).0 <= i < more[k].1 by {
                if i < from {
                    let k = choose|k: int|
                        0 <= k < list.len() && (#[trigger] list[k]).0 <= i < list[k].1;
                    assert(more[k] == list[k]);
                } else {
                    assert(more[list.len() as int] == (from, n));
                }
            }
            (more, n + 1)
        } else {
            assert(from == n);
            assert(runs_so_far(s, class).1 =~= s.subrange(n + 1, n + 1));
            (list, n + 1)
        }
    }
}

/// The runs of a text are those parts of it, in order, that have only characters of the class and
/// cannot be made longer; every character of the class stands in one of them.
pub proof fn runs_are_the_longest_parts_of_a_class(s: Seq<char>, class: TokenClass) -> (bounds: Seq<
    (int, int),
>)
    ensures
        bounds.len() == runs(s, class).len(),
        forall|k: int|
            0 <= k < bounds.len() ==> {
                let run = #[trigger] bounds[k];
                &&& 0 <= run.0 < run.1 <= s.len()
                &&& runs(s, class)[k] == s.subrange(run.0, run.1)
                &&& forall|i: int| run.0 <= i < run.1 ==> class.has(#[trigger] s[i])
                &&& run.0 == 0 || !class.has(s[run.0 - 1])
                &&& run.1 == s.len() || !class.has(s[run.1])
            },
        forall|k: int, l: int|
            0 <= k < l < bounds.len() ==> (#[trigger] bounds[k]).1 < (#[trigger] bounds[l]).0,
        forall|i: int|
            0 <= i < s.len() && class.has(#[trigger] s[i]) ==> exists|k: int|
                0 <= k < bounds.len() && (#[trigger] bounds[k]).0 <= i < bounds[k].1,
{
    let (list, from) = lemma_runs_so_far(s, class);
    if from < s.len() {
        let more = list.push((from, s.len() as int));
        assert forall|i: int| 0 <= i < s.len() && class.has(#[trigger] s[i]) implies exists|k: int|
            0 <= k < more.len() && (#[trigger] more[k]).0 <= i < more[k].1 by {
            if i < from {
                let k = choose|k: int| 0 <= k < list.len() && (#[trigger] list[k]).0 <= i < list[k].1;
                assert(more[k] == list[k]);
            } else {
                assert(more[list.len() as int] == (from, s.len() as int));
            }
        }
        more
    } else {
        list
    }
}

/// The words of a query are told apart by white space, and those of a text that is compared by what
/// is neither letter nor digit.
pub proof fn classes_have_their_characters(c: char)
    ensures
        TokenClass::NonBlank.has(c) <==> !is_white_space(c),
        TokenClass::Alphanumeric.has(c) <==> is_unicode_alphanumeric(c),
{
}

} // verus!
