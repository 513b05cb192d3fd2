//! The JSON grammar of strings, whole numbers and flat objects: which text denotes what.
//!
//! A string can be written in many ways: any character by its code, as one escape or as a pair of
//! surrogates, and most of them as they are. Every way denotes one string.

use vstd::prelude::*;

use crate::json::{
    escaped, escaped_all, hex_digit, members_text, object_text, quoted, scalar_text, ScalarView,
};
use crate::text;

verus! {

/// The value of a hexadecimal digit, in either case.
pub open spec fn hex_value(c: char) -> Option<int> {
    let n = c as u32;
    if 0x30 <= n <= 0x39 {
        Some(n - 0x30)
    } else if 0x41 <= n <= 0x46 {
        Some(n - 0x41 + 10)
    } else if 0x61 <= n <= 0x66 {
        Some(n - 0x61 + 10)
    } else {
        None
    }
}

/// The code that `\uXXXX` gives, where `t` is such an escape.
pub open spec fn escaped_code(t: Seq<char>) -> Option<int> {
    if t.len() == 6 && t[0] == '\\' && t[1] == 'u' {
        match (hex_value(t[2]), hex_value(t[3]), hex_value(t[4]), hex_value(t[5])) {
            (Some(a), Some(b), Some(c), Some(d)) => Some(0x1000 * a + 0x100 * b + 0x10 * c + d),
            _ => None,
        }
    } else {
        None
    }
}

/// The character that a backslash and `e` stand for.
pub open spec fn short_escape(e: char) -> Option<char> {
    if e == '"' || e == '\\' || e == '/' {
        Some(e)
    } else if e == 'b' {
        Some('\u{8}')
    } else if e == 'f' {
        Some('\u{c}')
    } else if e == 'n' {
        Some('\n')
    } else if e == 'r' {
        Some('\r')
    } else if e == 't' {
        Some('\t')
    } else {
        None
    }
}

/// Whether `t` is a way to write `c` inside a JSON string: as it is, where it is neither a quote
/// nor a backslash nor a control character; by a short escape; by its code; or, beyond U+FFFF, by
/// the codes of its two surrogates.
pub open spec fn writes_char(t: Seq<char>, c: char) -> bool {
    ||| t == seq![c] && c != '"' && c != '\\' && c as u32 >= 0x20
    ||| t.len() == 2 && t[0] == '\\' && short_escape(t[1]) == Some(c)
    ||| escaped_code(t) == Some(c as u32 as int)
    ||| t.len() == 12 && match (escaped_code(t.take(6)), escaped_code(t.skip(6))) {
        (Some(high), Some(low)) => 0xD800 <= high < 0xDC00 && 0xDC00 <= low < 0xE000 && c as u32
            == 0x10000 + 0x400 * (high - 0xD800) + (low - 0xDC00),
        _ => false,
    }
}

/// Whether `t` writes the characters of `s`, one after another.
pub open spec fn writes_chars(t: Seq<char>, s: Seq<char>) -> bool
    decreases s.len(),
{
    if s.len() == 0 {
        t.len() == 0
    } else {
        exists|k: int|
            #![trigger t.take(k)]
            0 <= k <= t.len() && writes_char(t.take(k), s[0]) && writes_chars(
                t.skip(k),
                s.drop_first(),
            )
    }
}

/// Whether `t` is the JSON text of the string `s`: its characters in double quotes, each written in
/// one of the ways there are.
pub open spec fn string_text(t: Seq<char>, s: Seq<char>) -> bool {
    &&& t.len() >= 2
    &&& t[0] == '"'
    &&& t.last() == '"'
    &&& writes_chars(t.subrange(1, t.len() - 1), s)
}

/// Whether `t` is the JSON text of the number `n`: its decimal digits, without leading zeros.
pub open spec fn number_text(t: Seq<char>, n: nat) -> bool {
    &&& t.len() > 0
    &&& text::all_digits(t)
    &&& t.len() > 1 ==> t[0] != '0'
    &&& text::digits_value(t) == n
}

/// Whether `t` is the JSON text of the value `v`.
pub open spec fn value_text(t: Seq<char>, v: ScalarView) -> bool {
    match v {
        ScalarView::Text(s) => string_text(t, s),
        ScalarView::Number(n) => number_text(t, n as nat),
    }
}

/// Whether `t` writes these members, one or more of them, with commas between them.
pub open spec fn writes_members(t: Seq<char>, members: Seq<(Seq<char>, ScalarView)>) -> bool
    decreases members.len(),
{
    members.len() > 0 && exists|a: int, b: int|
        #![trigger t.take(a), t.subrange(a + 1, b)]
        {
            &&& 0 <= a < b <= t.len()
            &&& string_text(t.take(a), members[0].0)
            &&& t[a] == ':'
            &&& value_text(t.subrange(a + 1, b), members[0].1)
            &&& if members.len() == 1 {
                b == t.len()
            } else {
                b < t.len() && t[b] == ',' && writes_members(t.skip(b + 1), members.drop_first())
            }
        }
}

/// Whether `t` is the JSON text of an object with these members, in this order.
pub open spec fn denotes_object(t: Seq<char>, members: Seq<(Seq<char>, ScalarView)>) -> bool {
    &&& t.len() >= 2
    &&& t[0] == '{'
    &&& t.last() == '}'
    &&& if members.len() == 0 {
        t.len() == 2
    } else {
        writes_members(t.subrange(1, t.len() - 1), members)
    }
}

/// Whether `t` is the JSON text of an object in which `name` has the value `v`.
#[verifier::opaque]
pub open spec fn object_says(t: Seq<char>, name: Seq<char>, v: ScalarView) -> bool {
    exists|members: Seq<(Seq<char>, ScalarView)>| #[trigger]
        denotes_object(t, members) && members.contains((name, v))
}

#[verifier::rlimit(30)]
proof fn lemma_char_is_found_once(u: Seq<char>, k1: int, c1: char, k2: int, c2: char)
    requires
        0 <= k1 <= u.len(),
        0 <= k2 <= u.len(),
        writes_char(u.take(k1), c1),
        writes_char(u.take(k2), c2),
    ensures
        k1 == k2,
        c1 == c2,
        k1 > 0,
        u[0] != '"',
{
    let t1 = u.take(k1);
    let t2 = u.take(k2);
    assert(t1.len() == 1 || t1.len() == 2 || t1.len() == 6 || t1.len() == 12);
    assert(t2.len() == 1 || t2.len() == 2 || t2.len() == 6 || t2.len() == 12);
    assert(t1[0] == u[0] && t2[0] == u[0]);
    if t1.len() == 1 {
        assert(t1 =~= seq![c1]);
    }
    if t2.len() == 1 {
        assert(t2 =~= seq![c2]);
    }
    if k1 == 12 {
        assert(t1.take(6) =~= u.take(6));
    }
    if k2 == 12 {
        assert(t2.take(6) =~= u.take(6));
    }
    if t1.len() > 1 && t2.len() > 1 {
        assert(t1[1] == u[1] && t2[1] == u[1]);
    }
}

proof fn lemma_string_ends_once(u: Seq<char>, p1: int, s1: Seq<char>, p2: int, s2: Seq<char>)
    requires
        0 <= p1 < u.len(),
        0 <= p2 < u.len(),
        writes_chars(u.take(p1), s1),
        writes_chars(u.take(p2), s2),
        u[p1] == '"',
        u[p2] == '"',
    ensures
        p1 == p2,
        s1 == s2,
    decreases s1.len(),
{
    let t1 = u.take(p1);
    let t2 = u.take(p2);
    if s1.len() > 0 {
        let k1 = choose|k: int|
            #![trigger t1.take(k)]
            0 <= k <= t1.len() && writes_char(t1.take(k), s1[0]) && writes_chars(
                t1.skip(k),
                s1.drop_first(),
            );
        assert(t1.take(k1) =~= u.take(k1));
        lemma_char_is_found_once(u, k1, s1[0], k1, s1[0]);
        if s2.len() > 0 {
            let k2 = choose|k: int|
                #![trigger t2.take(k)]
                0 <= k <= t2.len() && writes_char(t2.take(k), s2[0]) && writes_chars(
                    t2.skip(k),
                    s2.drop_first(),
                );
            assert(t2.take(k2) =~= u.take(k2));
            lemma_char_is_found_once(u, k1, s1[0], k2, s2[0]);
            let rest = u.skip(k1);
            assert(t1.skip(k1) =~= rest.take(p1 - k1));
            assert(t2.skip(k1) =~= rest.take(p2 - k1));
            lemma_string_ends_once(rest, p1 - k1, s1.drop_first(), p2 - k1, s2.drop_first());
            assert(s1 =~= seq![s1[0]] + s1.drop_first());
            assert(s2 =~= seq![s2[0]] + s2.drop_first());
        } else {
            assert(p2 == 0);
        }
    } else {
        assert(p1 == 0);
        if s2.len() > 0 {
            let k2 = choose|k: int|
                #![trigger t2.take(k)]
                0 <= k <= t2.len() && writes_char(t2.take(k), s2[0]) && writes_chars(
                    t2.skip(k),
                    s2.drop_first(),
                );
            assert(t2.take(k2) =~= u.take(k2));
            lemma_char_is_found_once(u, k2, s2[0], k2, s2[0]);
        }
        assert(s1 =~= s2);
    }
}

proof fn lemma_string_is_found_once(t: Seq<char>, a1: int, s1: Seq<char>, a2: int, s2: Seq<char>)
    requires
        0 <= a1 <= t.len(),
        0 <= a2 <= t.len(),
        string_text(t.take(a1), s1),
        string_text(t.take(a2), s2),
    ensures
        a1 == a2,
        s1 == s2,
{
    let u = t.skip(1);
    assert(t.take(a1).subrange(1, a1 - 1) =~= u.take(a1 - 2));
    assert(t.take(a2).subrange(1, a2 - 1) =~= u.take(a2 - 2));
    assert(u[a1 - 2] == t.take(a1).last());
    assert(u[a2 - 2] == t.take(a2).last());
    lemma_string_ends_once(u, a1 - 2, s1, a2 - 2, s2);
}

/// However it is written, a JSON string denotes one string.
pub proof fn strings_denote_one_string(t: Seq<char>, s1: Seq<char>, s2: Seq<char>)
    requires
        string_text(t, s1),
        string_text(t, s2),
    ensures
        s1 == s2,
{
    assert(t.take(t.len() as int) =~= t);
    lemma_string_is_found_once(t, t.len() as int, s1, t.len() as int, s2);
}

proof fn lemma_value_is_found_once(t: Seq<char>, b1: int, v1: ScalarView, b2: int, v2: ScalarView)
    requires
        0 <= b1 <= t.len(),
        0 <= b2 <= t.len(),
        value_text(t.take(b1), v1),
        value_text(t.take(b2), v2),
        b1 < t.len() ==> t[b1] == ',',
        b2 < t.len() ==> t[b2] == ',',
    ensures
        b1 == b2,
        v1 == v2,
{
    let t1 = t.take(b1);
    let t2 = t.take(b2);
    assert(t1[0] == t[0] && t2[0] == t[0]);
    match (v1, v2) {
        (ScalarView::Text(s1), ScalarView::Text(s2)) => {
            lemma_string_is_found_once(t, b1, s1, b2, s2);
        },
        (ScalarView::Number(_), ScalarView::Number(_)) => {
            if b1 < b2 {
                assert(text::is_digit(t2[b1]));
            }
            if b2 < b1 {
                assert(text::is_digit(t1[b2]));
            }
        },
        (ScalarView::Number(_), _) => {
            assert(text::is_digit(t1[0]));
        },
        (_, ScalarView::Number(_)) => {
            assert(text::is_digit(t2[0]));
        },
    }
}

#[verifier::rlimit(30)]
proof fn lemma_members_are_found_once(
    t: Seq<char>,
    m1: Seq<(Seq<char>, ScalarView)>,
    m2: Seq<(Seq<char>, ScalarView)>,
)
    requires
        writes_members(t, m1),
        writes_members(t, m2),
    ensures
        m1 == m2,
    decreases m1.len(),
{
    let (a1, b1) = choose|a: int, b: int|
        #![trigger t.take(a), t.subrange(a + 1, b)]
        {
            &&& 0 <= a < b <= t.len()
            &&& string_text(t.take(a), m1[0].0)
            &&& t[a] == ':'
            &&& value_text(t.subrange(a + 1, b), m1[0].1)
            &&& if m1.len() == 1 {
                b == t.len()
            } else {
                b < t.len() && t[b] == ',' && writes_members(t.skip(b + 1), m1.drop_first())
            }
        };
    let (a2, b2) = choose|a: int, b: int|
        #![trigger t.take(a), t.subrange(a + 1, b)]
        {
            &&& 0 <= a < b <= t.len()
            &&& string_text(t.take(a), m2[0].0)
            &&& t[a] == ':'
            &&& value_text(t.subrange(a + 1, b), m2[0].1)
            &&& if m2.len() == 1 {
                b == t.len()
            } else {
                b < t.len() && t[b] == ',' && writes_members(t.skip(b + 1), m2.drop_first())
            }
        };
    lemma_string_is_found_once(t, a1, m1[0].0, a2, m2[0].0);
    let rest = t.skip(a1 + 1);
    assert(t.subrange(a1 + 1, b1) =~= rest.take(b1 - a1 - 1));
    assert(t.subrange(a2 + 1, b2) =~= rest.take(b2 - a1 - 1));
    lemma_value_is_found_once(rest, b1 - a1 - 1, m1[0].1, b2 - a1 - 1, m2[0].1);
    assert(m1[0] == m2[0]);
    if m1.len() > 1 {
        lemma_members_are_found_once(t.skip(b1 + 1), m1.drop_first(), m2.drop_first());
    }
    assert(m1 =~= seq![m1[0]] + m1.drop_first());
    assert(m2 =~= seq![m2[0]] + m2.drop_first());
}

/// However it is written, the text of an object denotes one object.
pub proof fn objects_denote_one_object(
    t: Seq<char>,
    m1: Seq<(Seq<char>, ScalarView)>,
    m2: Seq<(Seq<char>, ScalarView)>,
)
    requires
        denotes_object(t, m1),
        denotes_object(t, m2),
    ensures
        m1 == m2,
{
    if m1.len() > 0 && m2.len() > 0 {
        lemma_members_are_found_once(t.subrange(1, t.len() - 1), m1, m2);
    } else {
        assert(t.len() == 2 ==> t.subrange(1, t.len() - 1).take(0) =~= Seq::<char>::empty());
        assert(m1 =~= m2);
    }
}

proof fn lemma_one_more_char(t: Seq<char>, s: Seq<char>, u: Seq<char>, c: char)
    requires
        writes_chars(t, s),
        writes_char(u, c),
    ensures
        writes_chars(t + u, s.push(c)),
    decreases s.len(),
{
    let all = t + u;
    if s.len() == 0 {
        let k = u.len() as int;
        assert(all.take(k) =~= u);
        assert(all.skip(k) =~= Seq::<char>::empty());
        assert(s.push(c).drop_first() =~= Seq::<char>::empty());
        assert(writes_chars(all.skip(k), s.push(c).drop_first()));
    } else {
        let k = choose|k: int|
            #![trigger t.take(k)]
            0 <= k <= t.len() && writes_char(t.take(k), s[0]) && writes_chars(
                t.skip(k),
                s.drop_first(),
            );
        lemma_one_more_char(t.skip(k), s.drop_first(), u, c);
        assert(all.take(k) =~= t.take(k));
        assert(all.skip(k) =~= t.skip(k) + u);
        assert(s.push(c).drop_first() =~= s.drop_first().push(c));
    }
}

proof fn lemma_quotes_make_a_string(t: Seq<char>, s: Seq<char>)
    requires
        writes_chars(t, s),
    ensures
        string_text(seq!['"'] + t + seq!['"'], s),
{
    let all = seq!['"'] + t + seq!['"'];
    assert(all.subrange(1, all.len() - 1) =~= t);
}

/// A hexadecimal digit has its value, and is an ASCII character that can be shown.
pub proof fn lemma_hex_digit(d: int)
    requires
        0 <= d < 16,
    ensures
        hex_value(hex_digit(d)) == Some(d),
        0x20 <= hex_digit(d) as u32,
        (hex_digit(d) as u32) < 0x7f,
{
}

/// Whether `t` is made of ASCII characters that can be shown.
pub open spec fn is_ascii(t: Seq<char>) -> bool {
    forall|i: int| 0 <= i < t.len() ==> 0x20 <= (#[trigger] t[i]) as u32 && (t[i] as u32) < 0x7f
}

proof fn lemma_escaped_char(c: char)
    ensures
        writes_char(escaped(c), c),
        (c as u32) < 0x7f ==> is_ascii(escaped(c)),
{
    let n = c as u32;
    if n < 0x20 {
        lemma_hex_digit(n as int / 16);
        lemma_hex_digit(n as int % 16);
        assert(hex_value('0') == Some(0int));
        let t = escaped(c);
        if t.len() == 6 {
            let (high, low) = (hex_digit(n as int / 16), hex_digit(n as int % 16));
            assert(t == seq!['\\', 'u', '0', '0', high, low]);
            assert(escaped_code(t) == Some(16 * (n as int / 16) + n as int % 16));
        }
    }
}

proof fn lemma_escaped_writes(s: Seq<char>)
    ensures
        writes_chars(escaped_all(s), s),
    decreases s.len(),
{
    if s.len() > 0 {
        lemma_escaped_writes(s.drop_last());
        let c = s.last();
        lemma_escaped_char(c);
        lemma_one_more_char(escaped_all(s.drop_last()), s.drop_last(), escaped(c), c);
        assert(s.drop_last().push(c) =~= s);
    }
}

/// A quoted string is the JSON text of the string.
pub proof fn quoted_is_string_text(s: Seq<char>)
    ensures
        string_text(quoted(s), s),
{
    lemma_escaped_writes(s);
    lemma_quotes_make_a_string(escaped_all(s), s);
}

/// The escape of the code `n`.
pub open spec fn code_escape(n: int) -> Seq<char> {
    seq![
        '\\',
        'u',
        hex_digit(n / 16 / 16 / 16),
        hex_digit(n / 16 / 16 % 16),
        hex_digit(n / 16 % 16),
        hex_digit(n % 16),
    ]
}

/// How `c` is written inside a JSON string that is plain ASCII: by its code, or the codes of its
/// surrogates, where it is not an ASCII character that can be shown.
pub open spec fn ascii_escaped(c: char) -> Seq<char> {
    let n = c as u32 as int;
    if n < 0x7f {
        escaped(c)
    } else if n < 0x10000 {
        code_escape(n)
    } else {
        code_escape(0xD800 + (n - 0x10000) / 0x400) + code_escape(0xDC00 + (n - 0x10000) % 0x400)
    }
}

/// The characters of `s`, each as it is written inside a JSON string that is plain ASCII.
pub open spec fn ascii_escaped_all(s: Seq<char>) -> Seq<char>
    decreases s.len(),
{
    if s.len() == 0 {
        Seq::empty()
    } else {
        ascii_escaped_all(s.drop_last()) + ascii_escaped(s.last())
    }
}

/// `s` as a JSON string that is plain ASCII.
pub open spec fn ascii_quoted(s: Seq<char>) -> Seq<char> {
    seq!['"'] + ascii_escaped_all(s) + seq!['"']
}

proof fn lemma_code_escape(n: int)
    requires
        0 <= n < 0x10000,
    ensures
        escaped_code(code_escape(n)) == Some(n),
        is_ascii(code_escape(n)),
{
    let x = n / 16;
    let y = x / 16;
    let (a, b, c, d) = (y / 16, y % 16, x % 16, n % 16);
    assert(n == 16 * x + d && x == 16 * y + c && y == 16 * a + b);
    lemma_hex_digit(a);
    lemma_hex_digit(b);
    lemma_hex_digit(c);
    lemma_hex_digit(d);
    let t = code_escape(n);
    assert(t == seq!['\\', 'u', hex_digit(a), hex_digit(b), hex_digit(c), hex_digit(d)]);
    assert forall|i: int| 0 <= i < t.len() implies 0x20 <= (#[trigger] t[i]) as u32 && (
    t[i] as u32) < 0x7f by {
        assert(i == 0 || i == 1 || i == 2 || i == 3 || i == 4 || i == 5);
    }
}

proof fn lemma_ascii_escaped_char(c: char)
    ensures
        writes_char(ascii_escaped(c), c),
        is_ascii(ascii_escaped(c)),
{
    let n = c as u32 as int;
    let u = ascii_escaped(c);
    if n < 0x7f {
        lemma_escaped_char(c);
    } else if n < 0x10000 {
        lemma_code_escape(n);
    } else {
        let high = 0xD800 + (n - 0x10000) / 0x400;
        let low = 0xDC00 + (n - 0x10000) % 0x400;
        assert(n <= 0x10FFFF);
        lemma_code_escape(high);
        lemma_code_escape(low);
        assert(u.take(6) =~= code_escape(high));
        assert(u.skip(6) =~= code_escape(low));
        assert forall|i: int| 0 <= i < u.len() implies 0x20 <= (#[trigger] u[i]) as u32 && (
        u[i] as u32) < 0x7f by {
            if i < 6 {
                assert(u[i] == code_escape(high)[i]);
            } else {
                assert(u[i] == code_escape(low)[i - 6]);
            }
        }
    }
}

proof fn lemma_ascii_sum(a: Seq<char>, b: Seq<char>)
    requires
        is_ascii(a),
        is_ascii(b),
    ensures
        is_ascii(a + b),
{
    let t = a + b;
    assert forall|i: int| 0 <= i < t.len() implies 0x20 <= (#[trigger] t[i]) as u32 && (
    t[i] as u32) < 0x7f by {
        if i < a.len() {
            assert(t[i] == a[i]);
        } else {
            assert(t[i] == b[i - a.len()]);
        }
    }
}

proof fn lemma_ascii_escaped_writes(s: Seq<char>)
    ensures
        writes_chars(ascii_escaped_all(s), s),
        is_ascii(ascii_escaped_all(s)),
    decreases s.len(),
{
    if s.len() > 0 {
        let front = ascii_escaped_all(s.drop_last());
        let c = s.last();
        lemma_ascii_escaped_writes(s.drop_last());
        lemma_ascii_escaped_char(c);
        lemma_ascii_sum(front, ascii_escaped(c));
        lemma_one_more_char(front, s.drop_last(), ascii_escaped(c), c);
        assert(s.drop_last().push(c) =~= s);
    }
}

/// Every string can be written in plain ASCII, on one line.
pub proof fn ascii_quoted_is_string_text(s: Seq<char>)
    ensures
        string_text(ascii_quoted(s), s),
        is_ascii(ascii_quoted(s)),
        !ascii_quoted(s).contains('\n'),
{
    let inner = ascii_escaped_all(s);
    lemma_ascii_escaped_writes(s);
    lemma_quotes_make_a_string(inner, s);
    lemma_ascii_sum(seq!['"'], inner);
    lemma_ascii_sum(seq!['"'] + inner, seq!['"']);
    let all = ascii_quoted(s);
    assert forall|i: int| 0 <= i < all.len() implies all[i] != '\n' by {
        assert(0x20 <= all[i] as u32);
    }
}

proof fn lemma_decimal_is_number_text(n: nat)
    ensures
        number_text(text::decimal(n), n),
        n > 0 ==> text::decimal(n)[0] != '0',
    decreases n,
{
    text::decimal_is_made_of_digits(n);
    if n >= 10 {
        lemma_decimal_is_number_text(n / 10);
        assert(text::decimal(n)[0] == text::decimal(n / 10)[0]);
    }
}

#[verifier::rlimit(30)]
proof fn lemma_one_more_member(
    t: Seq<char>,
    members: Seq<(Seq<char>, ScalarView)>,
    name: Seq<char>,
    v: ScalarView,
)
    requires
        members.len() > 0 ==> writes_members(t, members),
        members.len() == 0 ==> t.len() == 0,
    ensures
        ({
            let member = quoted(name) + seq![':'] + scalar_text(v);
            writes_members(
                if members.len() == 0 {
                    member
                } else {
                    t + seq![','] + member
                },
                members.push((name, v)),
            )
        }),
    decreases members.len(),
{
    let member = quoted(name) + seq![':'] + scalar_text(v);
    let after = members.push((name, v));
    if members.len() == 0 {
        let a = quoted(name).len() as int;
        let b = member.len() as int;
        quoted_is_string_text(name);
        match v {
            ScalarView::Text(s) => quoted_is_string_text(s),
            ScalarView::Number(n) => lemma_decimal_is_number_text(n as nat),
        }
        assert(member.take(a) =~= quoted(name));
        assert(member.subrange(a + 1, b) =~= scalar_text(v));
        assert(a < b);
    } else {
        let all = t + seq![','] + member;
        let (a, b) = choose|a: int, b: int|
            #![trigger t.take(a), t.subrange(a + 1, b)]
            {
                &&& 0 <= a < b <= t.len()
                &&& string_text(t.take(a), members[0].0)
                &&& t[a] == ':'
                &&& value_text(t.subrange(a + 1, b), members[0].1)
                &&& if members.len() == 1 {
                    b == t.len()
                } else {
                    b < t.len() && t[b] == ',' && writes_members(
                        t.skip(b + 1),
                        members.drop_first(),
                    )
                }
            };
        assert(all.take(a) =~= t.take(a));
        assert(all.subrange(a + 1, b) =~= t.subrange(a + 1, b));
        assert(after.drop_first() =~= members.drop_first().push((name, v)));
        if members.len() == 1 {
            lemma_one_more_member(Seq::empty(), members.drop_first(), name, v);
            assert(all.skip(b + 1) =~= member);
        } else {
            lemma_one_more_member(t.skip(b + 1), members.drop_first(), name, v);
            assert(all.skip(b + 1) =~= t.skip(b + 1) + seq![','] + member);
        }
    }
}

proof fn lemma_members_text_writes(members: Seq<(Seq<char>, ScalarView)>)
    requires
        members.len() > 0,
    ensures
        writes_members(members_text(members), members),
    decreases members.len(),
{
    let front = members.drop_last();
    let last = members.last();
    if front.len() > 0 {
        lemma_members_text_writes(front);
        lemma_one_more_member(members_text(front), front, last.0, last.1);
    } else {
        lemma_one_more_member(Seq::empty(), front, last.0, last.1);
    }
    assert(front.push((last.0, last.1)) =~= members);
}

/// An object's text denotes the object: it is read back with the members it was written with.
pub proof fn objects_read_back(members: Seq<(Seq<char>, ScalarView)>)
    ensures
        denotes_object(object_text(members), members),
        forall|name: Seq<char>, v: ScalarView| #[trigger]
            object_says(object_text(members), name, v) <==> members.contains((name, v)),
{
    reveal(object_says);
    let t = object_text(members);
    assert(t.subrange(1, t.len() - 1) =~= members_text(members));
    if members.len() > 0 {
        lemma_members_text_writes(members);
    }
    assert forall|name: Seq<char>, v: ScalarView| #[trigger]
        object_says(t, name, v) implies members.contains((name, v)) by {
        let other = choose|other: Seq<(Seq<char>, ScalarView)>| #[trigger]
            denotes_object(t, other) && other.contains((name, v));
        objects_denote_one_object(t, members, other);
    }
    assert forall|name: Seq<char>, v: ScalarView| members.contains((name, v)) implies #[trigger]
        object_says(t, name, v) by {
        assert(denotes_object(t, members));
    }
}

} // verus!
