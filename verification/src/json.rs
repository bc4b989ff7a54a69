//! JSON text: strings, string arrays and flat objects.

use crate::{codec, text};
use vstd::prelude::*;

verus! {

/// How a character stands inside a JSON string.
pub open spec fn json_escape(c: char) -> Seq<char> {
    if c == '"' || c == '\\' {
        seq!['\\', c]
    } else if c == '\u{8}' {
        seq!['\\', 'b']
    } else if c == '\t' {
        seq!['\\', 't']
    } else if c == '\n' {
        seq!['\\', 'n']
    } else if c == '\u{c}' {
        seq!['\\', 'f']
    } else if c == '\r' {
        seq!['\\', 'r']
    } else if (c as int) < 32 {
        seq!['\\', 'u', '0', '0', codec::hex_digit(c as int / 16), codec::hex_digit(c as int % 16)]
    } else {
        seq![c]
    }
}

/// The characters of a text, escaped one by one.
pub open spec fn json_escaped(s: Seq<char>) -> Seq<char>
    decreases s.len(),
{
    if s.len() == 0 {
        seq![]
    } else {
        json_escape(s[0]) + json_escaped(s.drop_first())
    }
}

/// A text as a JSON string.
pub open spec fn json_string(s: Seq<char>) -> Seq<char> {
    seq!['"'] + json_escaped(s) + seq!['"']
}

/// The JSON strings of a list of texts, with commas between them.
pub open spec fn json_items(list: Seq<Seq<char>>) -> Seq<char>
    decreases list.len(),
{
    if list.len() == 0 {
        seq![]
    } else if list.len() == 1 {
        json_string(list[0])
    } else {
        json_string(list[0]) + seq![','] + json_items(list.drop_first())
    }
}

/// A list of texts as a JSON array of strings.
pub open spec fn json_array(list: Seq<Seq<char>>) -> Seq<char> {
    seq!['['] + json_items(list) + seq![']']
}

/// What `serde_json` reports when a text is not what was asked for.
#[verifier::external_type_specification]
#[verifier::external_body]
pub struct ExJsonError(serde_json::Error);

/// `serde_json::to_string` of a string slice writes it in quotes, with `"`, `\` and the control
/// characters escaped and every other character as it is. It fails for no text.
#[verifier::external_body]
pub(crate) fn json_quote(text: &str) -> (r: Result<String, serde_json::Error>)
    ensures
        r is Ok,
        r matches Ok(s) ==> s@ == json_string(text@),
{
    serde_json::to_string(text)
}

/// The strings of a JSON array of strings, where a text is one.
pub uninterp spec fn json_list(s: Seq<char>) -> Option<Seq<Seq<char>>>;

/// `serde_json::to_string` of a list of strings writes an array without white space, which
/// `serde_json::from_str` reads back. It fails for no list.
#[verifier::external_body]
pub(crate) fn json_write_list(list: &[String]) -> (r: Result<String, serde_json::Error>)
    ensures
        r is Ok,
        r matches Ok(s) ==> s@ == json_array(text::texts(list@)),
        r matches Ok(s) ==> json_list(s@) == Some(text::texts(list@)),
{
    serde_json::to_string(list)
}

/// `serde_json::from_str` of a list of strings.
#[verifier::external_body]
pub(crate) fn json_read_list(s: &str) -> (r: Result<Vec<String>, serde_json::Error>)
    ensures
        r is Ok == json_list(s@) is Some,
        r matches Ok(list) ==> json_list(s@) == Some(text::texts(list@)),
{
    serde_json::from_str(s)
}

/// A member value: a string or an unsigned number.
pub enum JsonValue {
    Text(Seq<char>),
    Number(nat),
}

/// One member of an object.
pub struct JsonMember {
    pub name: Seq<char>,
    pub value: JsonValue,
}

/// A value as JSON.
pub open spec fn json_value(value: JsonValue) -> Seq<char> {
    match value {
        JsonValue::Text(s) => json_string(s),
        JsonValue::Number(n) => text::decimal(n),
    }
}

/// A member as JSON.
pub open spec fn json_member(member: JsonMember) -> Seq<char> {
    json_string(member.name) + seq![':'] + json_value(member.value)
}

/// Members with commas between them.
pub open spec fn json_members(members: Seq<JsonMember>) -> Seq<char>
    decreases members.len(),
{
    if members.len() == 0 {
        seq![]
    } else if members.len() == 1 {
        json_member(members[0])
    } else {
        json_member(members[0]) + seq![','] + json_members(members.drop_first())
    }
}

/// An object without white space, its members in the given order.
pub open spec fn json_object(members: Seq<JsonMember>) -> Seq<char> {
    seq!['{'] + json_members(members) + seq!['}']
}

/// A further member stands behind a comma.
proof fn lemma_push_member(members: Seq<JsonMember>, member: JsonMember)
    ensures
        json_members(members.push(member)) == if members.len() == 0 {
            json_member(member)
        } else {
            json_members(members) + seq![','] + json_member(member)
        },
    decreases members.len(),
{
    let all = members.push(member);
    if members.len() > 0 {
        let rest = members.drop_first();
        assert(all.drop_first() =~= rest.push(member));
        lemma_push_member(rest, member);
        if members.len() == 1 {
            assert(rest.len() == 0);
            assert(json_members(all) =~= json_members(members) + seq![','] + json_member(member));
        } else {
            assert(json_members(all) =~= json_members(members) + seq![','] + json_member(member));
        }
    } else {
        assert(all.len() == 1);
    }
}

/// Writes an object member by member.
pub struct JsonWriter {
    text: String,
    empty: bool,
    members: Ghost<Seq<JsonMember>>,
}

impl JsonWriter {
    /// The members written so far.
    pub closed spec fn members(&self) -> Seq<JsonMember> {
        self.members@
    }

    /// Whether the text holds the members.
    pub closed spec fn wf(&self) -> bool {
        &&& self.text@ == seq!['{'] + json_members(self.members@)
        &&& self.empty == (self.members@.len() == 0)
    }

    /// An object without members.
    pub fn new() -> (w: Self)
        ensures
            w.wf(),
            w.members() == Seq::<JsonMember>::empty(),
    {
        let mut text = String::new();
        text.push('{');
        let w = JsonWriter { text, empty: true, members: Ghost(Seq::empty()) };
        assert(w.text@ =~= seq!['{'] + json_members(w.members@));
        w
    }

    /// Writes the name of a member, and the comma before it.
    fn name(&mut self, name: &str)
        requires
            old(self).wf(),
        ensures
            final(self).members() == old(self).members(),
            !final(self).empty,
            final(self).text@ == seq!['{'] + json_members(old(self).members()) + (
            if old(self).members().len() == 0 {
                seq![]
            } else {
                seq![',']
            }) + json_string(name@) + seq![':'],
    {
        if !self.empty {
            self.text.push(',');
        }
        self.empty = false;
        let ghost before = self.text@;
        let quoted = quote(name);
        self.text.append(quoted.as_str());
        self.text.push(':');
        assert(self.text@ =~= before + json_string(name@) + seq![':']);
    }

    /// Writes a member whose value is a string.
    pub fn put_text(&mut self, name: &str, value: &str)
        requires
            old(self).wf(),
        ensures
            final(self).wf(),
            final(self).members() == old(self).members().push(
                JsonMember { name: name@, value: JsonValue::Text(value@) },
            ),
    {
        let ghost member = JsonMember { name: name@, value: JsonValue::Text(value@) };
        self.name(name);
        let quoted = quote(value);
        self.text.append(quoted.as_str());
        proof {
            lemma_push_member(self.members@, member);
            self.members@ = self.members@.push(member);
            assert(self.text@ =~= seq!['{'] + json_members(self.members@));
        }
    }

    /// Writes a member whose value is a number.
    pub fn put_number(&mut self, name: &str, value: u64)
        requires
            old(self).wf(),
        ensures
            final(self).wf(),
            final(self).members() == old(self).members().push(
                JsonMember { name: name@, value: JsonValue::Number(value as nat) },
            ),
    {
        let ghost member = JsonMember { name: name@, value: JsonValue::Number(value as nat) };
        self.name(name);
        let digits = text::decimal_text(value);
        self.text.append(digits.as_str());
        proof {
            lemma_push_member(self.members@, member);
            self.members@ = self.members@.push(member);
            assert(self.text@ =~= seq!['{'] + json_members(self.members@));
        }
    }

    /// The finished object.
    pub fn finish(self) -> (s: String)
        requires
            self.wf(),
        ensures
            s@ == json_object(self.members()),
    {
        let mut text = self.text;
        text.push('}');
        assert(text@ =~= json_object(self.members@));
        text
    }
}

/// A text as a JSON string.
pub fn quote(text: &str) -> (s: String)
    ensures
        s@ == json_string(text@),
{
    match json_quote(text) {
        Ok(s) => s,
        Err(_) => {
            assert(false);
            String::new()
        },
    }
}

// ---------------------------------------------------------------------------
// Reading back
// ---------------------------------------------------------------------------

/// Where two texts agree after a common beginning, they agree.
proof fn lemma_strip(head: Seq<char>, p: Seq<char>, q: Seq<char>)
    requires
        head + p == head + q,
    ensures
        p == q,
{
    assert(p =~= (head + p).skip(head.len() as int));
    assert(q =~= (head + q).skip(head.len() as int));
}

proof fn lemma_escape_prefix(a: char, b: char, p: Seq<char>, q: Seq<char>)
    requires
        json_escape(a) + p == json_escape(b) + q,
    ensures
        a == b,
        p == q,
{
    let x = json_escape(a) + p;
    let y = json_escape(b) + q;
    assert(x[0] == json_escape(a)[0]);
    assert(y[0] == json_escape(b)[0]);
    if json_escape(a).len() > 1 {
        assert(x[1] == json_escape(a)[1]);
    }
    if json_escape(b).len() > 1 {
        assert(y[1] == json_escape(b)[1]);
    }
    if json_escape(a).len() > 2 && json_escape(b).len() > 2 {
        assert(x[4] == json_escape(a)[4]);
        assert(x[5] == json_escape(a)[5]);
        assert(y[4] == json_escape(b)[4]);
        assert(y[5] == json_escape(b)[5]);
        assert(a as int / 16 == b as int / 16);
        assert(a as int % 16 == b as int % 16);
    }
    assert(a == b);
    lemma_strip(json_escape(a), p, q);
}

/// No escape begins with a quote.
proof fn lemma_escape_not_quote(c: char)
    ensures
        json_escape(c).len() > 0,
        json_escape(c)[0] != '"',
{
}

proof fn lemma_escaped_prefix(a: Seq<char>, b: Seq<char>, p: Seq<char>, q: Seq<char>)
    requires
        json_escaped(a) + seq!['"'] + p == json_escaped(b) + seq!['"'] + q,
    ensures
        a == b,
        p == q,
    decreases a.len(),
{
    let x = json_escaped(a) + seq!['"'] + p;
    let y = json_escaped(b) + seq!['"'] + q;
    if a.len() == 0 && b.len() == 0 {
        assert(x =~= seq!['"'] + p);
        assert(y =~= seq!['"'] + q);
        lemma_strip(seq!['"'], p, q);
        assert(a =~= b);
    } else if a.len() == 0 {
        lemma_escape_not_quote(b[0]);
        assert(x[0] == '"');
        assert(y[0] == json_escape(b[0])[0]);
    } else if b.len() == 0 {
        lemma_escape_not_quote(a[0]);
        assert(y[0] == '"');
        assert(x[0] == json_escape(a[0])[0]);
    } else {
        let ra = a.drop_first();
        let rb = b.drop_first();
        assert(x =~= json_escape(a[0]) + (json_escaped(ra) + seq!['"'] + p));
        assert(y =~= json_escape(b[0]) + (json_escaped(rb) + seq!['"'] + q));
        lemma_escape_prefix(
            a[0],
            b[0],
            json_escaped(ra) + seq!['"'] + p,
            json_escaped(rb) + seq!['"'] + q,
        );
        lemma_escaped_prefix(ra, rb, p, q);
        assert(a =~= seq![a[0]] + ra);
        assert(b =~= seq![b[0]] + rb);
    }
}

/// A JSON string at the beginning of a text tells where it ends and what it holds.
pub proof fn json_string_is_unambiguous(a: Seq<char>, b: Seq<char>, p: Seq<char>, q: Seq<char>)
    requires
        json_string(a) + p == json_string(b) + q,
    ensures
        a == b,
        p == q,
{
    let u = json_escaped(a) + seq!['"'] + p;
    let v = json_escaped(b) + seq!['"'] + q;
    assert(json_string(a) + p =~= seq!['"'] + u);
    assert(json_string(b) + q =~= seq!['"'] + v);
    lemma_strip(seq!['"'], u, v);
    lemma_escaped_prefix(a, b, p, q);
}

/// Whether a text begins with something other than a digit.
pub open spec fn no_digit_first(p: Seq<char>) -> bool {
    p.len() > 0 && !('0' <= p[0] <= '9')
}

proof fn lemma_decimal_digits(n: nat)
    ensures
        text::decimal(n).len() > 0,
        forall|i: int| 0 <= i < text::decimal(n).len() ==> '0' <= #[trigger] text::decimal(n)[i] <= '9',
    decreases n,
{
    if n >= 10 {
        lemma_decimal_digits(n / 10);
    }
}

proof fn lemma_decimal_injective(a: nat, b: nat)
    requires
        text::decimal(a) == text::decimal(b),
    ensures
        a == b,
    decreases a,
{
    let da = text::decimal(a);
    let db = text::decimal(b);
    lemma_decimal_digits(a / 10);
    lemma_decimal_digits(b / 10);
    assert(da.last() == text::digit((a % 10) as int));
    assert(db.last() == text::digit((b % 10) as int));
    assert(a % 10 == b % 10);
    if a >= 10 && b >= 10 {
        assert(da.drop_last() =~= text::decimal(a / 10));
        assert(db.drop_last() =~= text::decimal(b / 10));
        lemma_decimal_injective(a / 10, b / 10);
    }
}

/// A number before something other than a digit tells where it ends and what it is.
pub proof fn decimal_is_unambiguous(a: nat, b: nat, p: Seq<char>, q: Seq<char>)
    requires
        text::decimal(a) + p == text::decimal(b) + q,
        no_digit_first(p),
        no_digit_first(q),
    ensures
        a == b,
        p == q,
{
    let da = text::decimal(a);
    let db = text::decimal(b);
    lemma_decimal_digits(a);
    lemma_decimal_digits(b);
    let x = da + p;
    let y = db + q;
    if da.len() < db.len() {
        assert(x[da.len() as int] == p[0]);
        assert(y[da.len() as int] == db[da.len() as int]);
    } else if db.len() < da.len() {
        assert(y[db.len() as int] == q[0]);
        assert(x[db.len() as int] == da[db.len() as int]);
    }
    assert(da =~= x.take(da.len() as int));
    assert(db =~= y.take(db.len() as int));
    lemma_decimal_injective(a, b);
    lemma_strip(da, p, q);
}

/// Whether two objects have members of the same names and kinds, in the same order.
pub open spec fn same_shape(a: Seq<JsonMember>, b: Seq<JsonMember>) -> bool {
    &&& a.len() == b.len()
    &&& forall|i: int|
        0 <= i < a.len() ==> (#[trigger] a[i]).name == b[i].name && (a[i].value is Text)
            == (b[i].value is Text)
}

proof fn lemma_members_prefix(a: Seq<JsonMember>, b: Seq<JsonMember>)
    requires
        same_shape(a, b),
        json_members(a) + seq!['}'] == json_members(b) + seq!['}'],
    ensures
        a == b,
    decreases a.len(),
{
    if a.len() == 0 {
        assert(a =~= b);
    } else {
        let ra = a.drop_first();
        let rb = b.drop_first();
        assert(a[0].name == b[0].name);
        let head = json_string(a[0].name) + seq![':'];
        let p = if a.len() == 1 {
            seq!['}']
        } else {
            seq![','] + (json_members(ra) + seq!['}'])
        };
        let q = if a.len() == 1 {
            seq!['}']
        } else {
            seq![','] + (json_members(rb) + seq!['}'])
        };
        let va = json_value(a[0].value) + p;
        let vb = json_value(b[0].value) + q;
        assert(json_members(a) + seq!['}'] =~= head + va);
        assert(json_members(b) + seq!['}'] =~= head + vb);
        lemma_strip(head, va, vb);
        assert(p[0] == ',' || p[0] == '}');
        assert(q[0] == ',' || q[0] == '}');
        match (a[0].value, b[0].value) {
            (JsonValue::Text(s), JsonValue::Text(t)) => {
                json_string_is_unambiguous(s, t, p, q);
            },
            (JsonValue::Number(m), JsonValue::Number(n)) => {
                decimal_is_unambiguous(m, n, p, q);
            },
            _ => {},
        }
        assert(a[0] == b[0]);
        if a.len() > 1 {
            lemma_strip(seq![','], json_members(ra) + seq!['}'], json_members(rb) + seq!['}']);
            assert forall|i: int| 0 <= i < ra.len() implies (#[trigger] ra[i]).name == rb[i].name
                && (ra[i].value is Text) == (rb[i].value is Text) by {
                assert(ra[i] == a[i + 1]);
                assert(rb[i] == b[i + 1]);
            }
            lemma_members_prefix(ra, rb);
        } else {
            assert(ra =~= rb);
        }
        assert(a =~= seq![a[0]] + ra);
        assert(b =~= seq![b[0]] + rb);
    }
}

/// Objects of one shape with the same text have the same members.
pub proof fn json_object_is_unambiguous(a: Seq<JsonMember>, b: Seq<JsonMember>)
    requires
        same_shape(a, b),
        json_object(a) == json_object(b),
    ensures
        a == b,
{
    let u = json_members(a) + seq!['}'];
    let v = json_members(b) + seq!['}'];
    assert(json_object(a) =~= seq!['{'] + u);
    assert(json_object(b) =~= seq!['{'] + v);
    lemma_strip(seq!['{'], u, v);
    lemma_members_prefix(a, b);
}

/// An object is its members in braces: each a name in quotes, a colon and the value, with one comma
/// between two of them and nothing else.
pub proof fn objects_are_members_with_commas(a: Seq<JsonMember>, b: Seq<JsonMember>)
    ensures
        json_object(a) == seq!['{'] + json_members(a) + seq!['}'],
        a.len() == 0 ==> json_members(a).len() == 0,
        a.len() == 1 ==> json_members(a) == seq!['"'] + json_escaped(a[0].name) + seq!['"', ':'] + (
        match a[0].value {
            JsonValue::Text(s) => seq!['"'] + json_escaped(s) + seq!['"'],
            JsonValue::Number(n) => text::decimal(n),
        }),
        a.len() > 0 && b.len() > 0 ==> json_members(a + b) == json_members(a) + seq![','] + json_members(
            b,
        ),
    decreases a.len(),
{
    if a.len() == 1 {
        assert(json_members(a) =~= seq!['"'] + json_escaped(a[0].name) + seq!['"', ':'] + (
        match a[0].value {
            JsonValue::Text(s) => seq!['"'] + json_escaped(s) + seq!['"'],
            JsonValue::Number(n) => text::decimal(n),
        }));
    }
    if a.len() > 0 && b.len() > 0 {
        let all = a + b;
        assert(all[0] == a[0]);
        if a.len() == 1 {
            assert(all.drop_first() =~= b);
        } else {
            let rest = a.drop_first();
            assert(all.drop_first() =~= rest + b);
            objects_are_members_with_commas(rest, b);
            assert(json_members(all) =~= json_members(a) + seq![','] + json_members(b));
        }
    }
}

/// Characters are escaped one by one: quotes and backslashes behind a backslash, control characters
/// by their names or their numbers, and every other one not at all.
pub proof fn characters_are_escaped_one_by_one(a: Seq<char>, b: Seq<char>)
    ensures
        a.len() == 0 ==> json_escaped(a).len() == 0,
        a.len() == 1 && a[0] != '"' && a[0] != '\\' && a[0] as int >= 32 ==> json_escaped(a) == a,
        a.len() == 1 && (a[0] == '"' || a[0] == '\\') ==> json_escaped(a) == seq!['\\', a[0]],
        a.len() == 1 && (a[0] as int) < 32 ==> json_escaped(a)[0] == '\\',
        json_escaped(a + b) == json_escaped(a) + json_escaped(b),
    decreases a.len(),
{
    if a.len() == 0 {
        assert(a + b =~= b);
        assert(json_escaped(a) + json_escaped(b) =~= json_escaped(b));
    } else {
        let rest = a.drop_first();
        assert((a + b).drop_first() =~= rest + b);
        assert((a + b)[0] == a[0]);
        characters_are_escaped_one_by_one(rest, b);
        assert(json_escaped(a + b) =~= json_escaped(a) + json_escaped(b));
        if a.len() == 1 {
            assert(json_escaped(rest) =~= Seq::empty());
            assert(json_escaped(a) =~= json_escape(a[0]));
            if a[0] != '"' && a[0] != '\\' && a[0] as int >= 32 {
                assert(json_escaped(a) =~= a);
            }
        }
    }
}

} // verus!
