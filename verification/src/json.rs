//! JSON text: one-line objects of strings and numbers, and JSON-encoded strings.

use vstd::prelude::*;

use crate::json_grammar::string_text;
use crate::text;

verus! {

/// The value of an object's member.
pub enum Scalar {
    Text(String),
    Number(u64),
}

/// What a [`Scalar`] holds.
pub enum ScalarView {
    Text(Seq<char>),
    Number(u64),
}

impl View for Scalar {
    type V = ScalarView;

    open spec fn view(&self) -> ScalarView {
        match *self {
            Scalar::Text(t) => ScalarView::Text(t@),
            Scalar::Number(n) => ScalarView::Number(n),
        }
    }
}

/// The members of an object, in order.
pub open spec fn member_views(members: Seq<(String, Scalar)>) -> Seq<(Seq<char>, ScalarView)> {
    members.map_values(|m: (String, Scalar)| (m.0@, m.1@))
}

/// The lower-case hexadecimal digit of value `d`.
pub open spec fn hex_digit(d: int) -> char {
    if d < 10 {
        (0x30 + d) as char
    } else {
        (0x61 + d - 10) as char
    }
}

/// How `c` is written inside a JSON string.
pub open spec fn escaped(c: char) -> Seq<char> {
    let n = c as u32;
    if c == '"' || c == '\\' {
        seq!['\\', c]
    } else if n == 0x8 {
        seq!['\\', 'b']
    } else if n == 0x9 {
        seq!['\\', 't']
    } else if n == 0xa {
        seq!['\\', 'n']
    } else if n == 0xc {
        seq!['\\', 'f']
    } else if n == 0xd {
        seq!['\\', 'r']
    } else if n < 0x20 {
        seq!['\\', 'u', '0', '0', hex_digit(n as int / 16), hex_digit(n as int % 16)]
    } else {
        seq![c]
    }
}

/// The characters of `s`, each as it is written inside a JSON string.
pub open spec fn escaped_all(s: Seq<char>) -> Seq<char>
    decreases s.len(),
{
    if s.len() == 0 {
        Seq::empty()
    } else {
        escaped_all(s.drop_last()) + escaped(s.last())
    }
}

/// `s` as a JSON string.
pub open spec fn quoted(s: Seq<char>) -> Seq<char> {
    seq!['"'] + escaped_all(s) + seq!['"']
}

/// A member's value as JSON.
pub open spec fn scalar_text(v: ScalarView) -> Seq<char> {
    match v {
        ScalarView::Text(t) => quoted(t),
        ScalarView::Number(n) => text::decimal(n as nat),
    }
}

/// Members as JSON, separated by commas.
pub open spec fn members_text(members: Seq<(Seq<char>, ScalarView)>) -> Seq<char>
    decreases members.len(),
{
    if members.len() == 0 {
        Seq::empty()
    } else {
        let last = members.last();
        let member = quoted(last.0) + seq![':'] + scalar_text(last.1);
        if members.len() == 1 {
            member
        } else {
            members_text(members.drop_last()) + seq![','] + member
        }
    }
}

/// A one-line JSON object.
pub open spec fn object_text(members: Seq<(Seq<char>, ScalarView)>) -> Seq<char> {
    seq!['{'] + members_text(members) + seq!['}']
}

/// Whether `a` comes before `b` in code point order.
pub open spec fn precedes(a: Seq<char>, b: Seq<char>) -> bool {
    exists|i: int|
        #![trigger a.take(i)]
        0 <= i <= a.len() && i < b.len() && a.take(i) == b.take(i) && (i == a.len() || (a[i] as u32)
            < (b[i] as u32))
}

/// Whether each member's name comes before the next one's.
pub open spec fn names_ascend(members: Seq<(Seq<char>, ScalarView)>) -> bool {
    forall|i: int| 0 < i < members.len() ==> precedes(members[i - 1].0, #[trigger] members[i].0)
}

/// The text that `serde_json` gives the object with these members.
///
/// `Value::to_string` writes compact JSON: no white space, the members in ascending order of
/// their names, a string in double quotes with the quote, the backslash and the control
/// characters below U+0020 escaped and all else as it is, and a `u64` in decimal.
#[verifier::external_body]
pub(crate) fn object(members: Vec<(String, Scalar)>) -> (r: String)
    requires
        names_ascend(member_views(members@)),
    ensures
        r@ == object_text(member_views(members@)),
{
    let object = members
        .into_iter()
        .map(|(name, value)| match value {
            Scalar::Text(t) => (name, serde_json::Value::String(t)),
            Scalar::Number(n) => (name, serde_json::Value::from(n)),
        })
        .collect();
    serde_json::Value::Object(object).to_string()
}

/// The string that `line` is the JSON encoding of, if it is one, as `serde_json` reads it.
pub uninterp spec fn json_string(line: Seq<char>) -> Option<Seq<char>>;

/// Whether `c` is white space between the tokens of JSON text.
pub open spec fn is_json_space(c: char) -> bool {
    c == ' ' || c == '\t' || c == '\n' || c == '\r'
}

/// Whether `line` is read as the grammar has it: as the string that it is the JSON text of, and,
/// where no JSON white space stands at either end, as no other.
pub open spec fn reads_strings(line: Seq<char>) -> bool {
    &&& forall|s: Seq<char>| #[trigger]
        string_text(line, s) ==> json_string(line) == Some(s)
    &&& json_string(line) is Some && line.len() > 0 && !is_json_space(line[0]) && !is_json_space(
        line.last(),
    ) ==> string_text(line, json_string(line)->0)
}

/// What `serde_json::from_str` reads from `line`, where that is a string and nothing else.
///
/// The string is a function of `line` alone. The JSON text of a string is read as that string,
/// however it is written; text without JSON white space at either end that is no such text is read
/// as no string.
#[verifier::external_body]
pub(crate) fn parse_string(line: &str) -> (r: Option<String>)
    ensures
        match r {
            Some(s) => json_string(line@) == Some(s@),
            None => json_string(line@) is None,
        },
        forall|s: Seq<char>| line@ == #[trigger] quoted(s) ==> r is Some && r->0@ == s,
        forall|s: Seq<char>| #[trigger] string_text(line@, s) ==> r is Some && r->0@ == s,
        r is Some && line@.len() > 0 && !is_json_space(line@[0]) && !is_json_space(line@.last())
            ==> string_text(line@, r->0@),
{
    match serde_json::from_str(line) {
        Ok(serde_json::Value::String(s)) => Some(s),
        _ => None,
    }
}

proof fn lemma_escaped_one_line(s: Seq<char>)
    ensures
        !escaped_all(s).contains('\n'),
    decreases s.len(),
{
    if s.len() > 0 {
        lemma_escaped_one_line(s.drop_last());
        let front = escaped_all(s.drop_last());
        let tail = escaped(s.last());
        assert(!tail.contains('\n')) by {
            assert forall|i: int| 0 <= i < tail.len() implies tail[i] != '\n' by {
                let n = s.last() as u32;
                if n == 0xa {
                    assert(tail == seq!['\\', 'n']);
                }
            }
        }
        assert forall|i: int| 0 <= i < (front + tail).len() implies (front + tail)[i] != '\n' by {
            if i < front.len() {
                assert(front.contains(front[i]));
            } else {
                assert(tail.contains(tail[i - front.len()]));
            }
        }
    }
}

/// A JSON string starts and ends with a double quote and holds no line feed, so that it fits on
/// one line of an inbox.
pub proof fn quoted_is_one_line(s: Seq<char>)
    ensures
        quoted(s).len() >= 2,
        quoted(s)[0] == '"',
        quoted(s).last() == '"',
        !quoted(s).contains('\n'),
{
    lemma_escaped_one_line(s);
    let e = escaped_all(s);
    assert forall|i: int| 0 <= i < quoted(s).len() implies quoted(s)[i] != '\n' by {
        if 0 < i < quoted(s).len() - 1 {
            assert(quoted(s)[i] == e[i - 1]);
            assert(e.contains(e[i - 1]));
        }
    }
}

/// An object is written on one line.
pub proof fn object_is_one_line(members: Seq<(Seq<char>, ScalarView)>)
    ensures
        !object_text(members).contains('\n'),
{
    lemma_members_one_line(members);
    let m = members_text(members);
    let o = object_text(members);
    assert forall|i: int| 0 <= i < o.len() implies o[i] != '\n' by {
        if 0 < i < o.len() - 1 {
            assert(o[i] == m[i - 1]);
            assert(m.contains(m[i - 1]));
        }
    }
}

proof fn lemma_no_line_feed_in_sum(a: Seq<char>, b: Seq<char>)
    requires
        !a.contains('\n'),
        !b.contains('\n'),
    ensures
        !(a + b).contains('\n'),
{
    assert forall|i: int| 0 <= i < (a + b).len() implies (a + b)[i] != '\n' by {
        if i < a.len() {
            assert(a.contains(a[i]));
        } else {
            assert(b.contains(b[i - a.len()]));
        }
    }
}

proof fn lemma_members_one_line(members: Seq<(Seq<char>, ScalarView)>)
    ensures
        !members_text(members).contains('\n'),
    decreases members.len(),
{
    if members.len() > 0 {
        let last = members.last();
        quoted_is_one_line(last.0);
        match last.1 {
            ScalarView::Text(t) => quoted_is_one_line(t),
            ScalarView::Number(n) => text::decimal_is_one_line(n),
        }
        lemma_no_line_feed_in_sum(quoted(last.0), seq![':']);
        lemma_no_line_feed_in_sum(quoted(last.0) + seq![':'], scalar_text(last.1));
        let member = quoted(last.0) + seq![':'] + scalar_text(last.1);
        if members.len() > 1 {
            lemma_members_one_line(members.drop_last());
            lemma_no_line_feed_in_sum(members_text(members.drop_last()), seq![',']);
            lemma_no_line_feed_in_sum(members_text(members.drop_last()) + seq![','], member);
        }
    }
}

} // verus!
