//! Text as a sequence of characters, and its UTF-16 code units.
//!
//! Formatting ranges are measured in UTF-16 code units, while Rust strings are
//! sequences of Unicode scalar values. This module states the correspondence
//! between the two and the facts about it that the range codec relies on.

use vstd::prelude::*;

verus! {

/// The character that replaces an unpaired surrogate when UTF-16 is decoded
/// leniently.
pub open spec fn replacement() -> char {
    '\u{FFFD}'
}

/// Number of UTF-16 code units that encode `c`.
pub open spec fn unit_len(c: char) -> nat {
    if (c as u32) < 0x10000 {
        1
    } else {
        2
    }
}

/// The UTF-16 code units of one character.
pub open spec fn char_units(c: char) -> Seq<u16> {
    if (c as u32) < 0x10000 {
        seq![c as u16]
    } else {
        seq![
            (0xD800 + ((c as u32) - 0x10000) / 0x400) as u16,
            (0xDC00 + ((c as u32) - 0x10000) % 0x400) as u16,
        ]
    }
}

/// The UTF-16 encoding of a text.
pub open spec fn utf16_units(s: Seq<char>) -> Seq<u16>
    decreases s.len(),
{
    if s.len() == 0 {
        Seq::empty()
    } else {
        char_units(s[0]) + utf16_units(s.skip(1))
    }
}

/// Length of a text in UTF-16 code units.
pub open spec fn utf16_len(s: Seq<char>) -> nat
    decreases s.len(),
{
    if s.len() == 0 {
        0
    } else {
        unit_len(s[0]) + utf16_len(s.skip(1))
    }
}

pub open spec fn is_high_surrogate(u: u16) -> bool {
    0xD800 <= u < 0xDC00
}

pub open spec fn is_low_surrogate(u: u16) -> bool {
    0xDC00 <= u < 0xE000
}

/// The character encoded by a high and a low surrogate.
pub open spec fn pair_char(hi: u16, lo: u16) -> char {
    (0x10000 + (hi - 0xD800) * 0x400 + (lo - 0xDC00)) as char
}

/// Lenient UTF-16 decoding: a well-formed surrogate pair gives its character,
/// every other surrogate gives the replacement character, and any other unit
/// gives the character with that code point.
pub open spec fn decode_lossy(u: Seq<u16>) -> Seq<char>
    decreases u.len(),
{
    if u.len() == 0 {
        Seq::empty()
    } else if !is_high_surrogate(u[0]) && !is_low_surrogate(u[0]) {
        seq![u[0] as char] + decode_lossy(u.skip(1))
    } else if is_high_surrogate(u[0]) && u.len() >= 2 && is_low_surrogate(u[1]) {
        seq![pair_char(u[0], u[1])] + decode_lossy(u.skip(2))
    } else {
        seq![replacement()] + decode_lossy(u.skip(1))
    }
}

/// `utf16_len` is the length of `utf16_units`.
pub proof fn lemma_units_len(s: Seq<char>)
    ensures
        utf16_units(s).len() == utf16_len(s),
    decreases s.len(),
{
    if s.len() > 0 {
        lemma_units_len(s.skip(1));
    }
}

/// Encoding distributes over concatenation.
pub proof fn lemma_units_concat(a: Seq<char>, b: Seq<char>)
    ensures
        utf16_units(a + b) == utf16_units(a) + utf16_units(b),
        utf16_len(a + b) == utf16_len(a) + utf16_len(b),
    decreases a.len(),
{
    if a.len() == 0 {
        assert(a + b == b);
        assert(utf16_units(a) + utf16_units(b) == utf16_units(b));
    } else {
        lemma_units_concat(a.skip(1), b);
        assert((a + b).skip(1) == a.skip(1) + b);
        assert((a + b)[0] == a[0]);
        assert(char_units(a[0]) + (utf16_units(a.skip(1)) + utf16_units(b)) == (char_units(a[0])
            + utf16_units(a.skip(1))) + utf16_units(b));
    }
}

/// Decoding what was encoded, followed by further units, gives the text back
/// and goes on with those units.
pub proof fn lemma_decode_encoded_prefix(s: Seq<char>, rest: Seq<u16>)
    ensures
        decode_lossy(utf16_units(s) + rest) == s + decode_lossy(rest),
    decreases s.len(),
{
    if s.len() == 0 {
        assert(utf16_units(s) + rest == rest);
        assert(s + decode_lossy(rest) == decode_lossy(rest));
    } else {
        let c = s[0];
        let tail = s.skip(1);
        let all = utf16_units(s) + rest;
        lemma_decode_encoded_prefix(tail, rest);
        lemma_char_units(c);
        if (c as u32) < 0x10000 {
            assert(all.skip(1) == utf16_units(tail) + rest);
            assert(all[0] == c as u16);
            assert(all[0] as char == c);
        } else {
            assert(all.skip(2) == utf16_units(tail) + rest);
            assert(all[0] == char_units(c)[0]);
            assert(all[1] == char_units(c)[1]);
        }
        assert(seq![c] + (tail + decode_lossy(rest)) == s + decode_lossy(rest));
    }
}

/// The units of a character decode to that character.
pub proof fn lemma_char_units(c: char)
    ensures
        (c as u32) < 0x10000 ==> !is_high_surrogate(c as u16) && !is_low_surrogate(c as u16) && (
        c as u16) as char == c,
        (c as u32) >= 0x10000 ==> is_high_surrogate(char_units(c)[0]) && is_low_surrogate(
            char_units(c)[1],
        ) && pair_char(char_units(c)[0], char_units(c)[1]) == c,
{
    let v = c as u32;
    if v >= 0x10000 {
        let d = (v - 0x10000) as int;
        assert(0 <= d < 0x100000);
        assert(0 <= d / 0x400 < 0x400);
        assert(0 <= d % 0x400 < 0x400);
        assert(d == (d / 0x400) * 0x400 + d % 0x400);
    }
}

/// Decoding an encoded text gives the text back.
pub proof fn lemma_decode_encoded(s: Seq<char>)
    ensures
        decode_lossy(utf16_units(s)) == s,
{
    lemma_decode_encoded_prefix(s, Seq::empty());
    assert(utf16_units(s) + Seq::<u16>::empty() == utf16_units(s));
    assert(s + Seq::<char>::empty() == s);
}

/// Lenient decoding keeps the number of code units: every unit that is
/// replaced gives a character of one unit.
pub proof fn lemma_decode_keeps_len(u: Seq<u16>)
    ensures
        utf16_len(decode_lossy(u)) == u.len(),
    decreases u.len(),
{
    if u.len() == 0 {
    } else if !is_high_surrogate(u[0]) && !is_low_surrogate(u[0]) {
        lemma_decode_keeps_len(u.skip(1));
        let d = seq![u[0] as char] + decode_lossy(u.skip(1));
        assert(d.skip(1) == decode_lossy(u.skip(1)));
    } else if is_high_surrogate(u[0]) && u.len() >= 2 && is_low_surrogate(u[1]) {
        lemma_decode_keeps_len(u.skip(2));
        let d = seq![pair_char(u[0], u[1])] + decode_lossy(u.skip(2));
        assert(d.skip(1) == decode_lossy(u.skip(2)));
        assert(pair_char(u[0], u[1]) as u32 >= 0x10000);
    } else {
        lemma_decode_keeps_len(u.skip(1));
        let d = seq![replacement()] + decode_lossy(u.skip(1));
        assert(d.skip(1) == decode_lossy(u.skip(1)));
    }
}

/// Whether decoding `x` and `y` apart breaks a surrogate pair: `x` ends
/// with the first half of a pair and `y` starts with the second.
pub open spec fn breaks_pair(x: Seq<u16>, y: Seq<u16>) -> bool {
    x.len() > 0 && is_high_surrogate(x.last()) && y.len() > 0 && is_low_surrogate(y[0])
}

/// Decoding two stretches apart gives what decoding them as one gives,
/// unless that breaks a surrogate pair: then it gives one character more.
pub proof fn lemma_decode_concat(x: Seq<u16>, y: Seq<u16>)
    ensures
        !breaks_pair(x, y) ==> decode_lossy(x + y) == decode_lossy(x) + decode_lossy(y),
        breaks_pair(x, y) ==> decode_lossy(x + y).len() + 1 == decode_lossy(x).len() + decode_lossy(
            y,
        ).len(),
    decreases x.len(),
{
    let all = x + y;
    if x.len() == 0 {
        assert(all =~= y);
        assert(decode_lossy(x) + decode_lossy(y) =~= decode_lossy(y));
    } else {
        assert(all[0] == x[0]);
        if x.len() >= 2 {
            assert(all[1] == x[1]);
            assert(x.skip(1).last() == x.last());
        }
        if !is_high_surrogate(x[0]) && !is_low_surrogate(x[0]) {
            assert(all.skip(1) =~= x.skip(1) + y);
            lemma_decode_concat(x.skip(1), y);
            assert(seq![x[0] as char] + (decode_lossy(x.skip(1)) + decode_lossy(y)) =~= (seq![
                x[0] as char,
            ] + decode_lossy(x.skip(1))) + decode_lossy(y));
        } else if is_high_surrogate(x[0]) && x.len() >= 2 && is_low_surrogate(x[1]) {
            assert(all.skip(2) =~= x.skip(2) + y);
            if x.len() > 2 {
                assert(x.skip(2).last() == x.last());
            }
            lemma_decode_concat(x.skip(2), y);
            assert(seq![pair_char(x[0], x[1])] + (decode_lossy(x.skip(2)) + decode_lossy(y))
                =~= (seq![pair_char(x[0], x[1])] + decode_lossy(x.skip(2))) + decode_lossy(y));
        } else if is_high_surrogate(x[0]) && x.len() == 1 {
            assert(x.skip(1) =~= Seq::<u16>::empty());
            assert(decode_lossy(x) =~= seq![replacement()]);
            if y.len() > 0 {
                assert(all[1] == y[0]);
            }
            if breaks_pair(x, y) {
                assert(all.skip(2) =~= y.skip(1));
            } else {
                assert(all.skip(1) =~= y);
            }
        } else {
            assert(all.skip(1) =~= x.skip(1) + y);
            lemma_decode_concat(x.skip(1), y);
            assert(seq![replacement()] + (decode_lossy(x.skip(1)) + decode_lossy(y)) =~= (seq![
                replacement(),
            ] + decode_lossy(x.skip(1))) + decode_lossy(y));
        }
    }
}

/// Three-way order of two integers: negative, zero or positive as `a` is
/// below, equal to or above `b`.
pub open spec fn int_order(a: int, b: int) -> int {
    if a < b {
        -1
    } else if a == b {
        0
    } else {
        1
    }
}

/// Lexicographic step: the first order decides unless it is zero.
pub open spec fn then_order(first: int, rest: int) -> int {
    if first != 0 {
        first
    } else {
        rest
    }
}

/// Three-way lexicographic order of two texts by code point.
pub open spec fn text_order(a: Seq<char>, b: Seq<char>) -> int
    decreases a.len(),
{
    if a.len() == 0 {
        if b.len() == 0 {
            0
        } else {
            -1
        }
    } else if b.len() == 0 {
        1
    } else if a[0] != b[0] {
        int_order(a[0] as int, b[0] as int)
    } else {
        text_order(a.skip(1), b.skip(1))
    }
}

/// Three-way order of two optional texts; an absent text comes first.
pub open spec fn opt_text_order(a: Option<Seq<char>>, b: Option<Seq<char>>) -> int {
    match (a, b) {
        (None, None) => 0,
        (None, Some(_)) => -1,
        (Some(_), None) => 1,
        (Some(x), Some(y)) => text_order(x, y),
    }
}

/// `text_order` is antisymmetric and is zero exactly on equal texts.
pub proof fn lemma_text_order(a: Seq<char>, b: Seq<char>)
    ensures
        text_order(a, b) == -text_order(b, a),
        -1 <= text_order(a, b) <= 1,
        (text_order(a, b) == 0) == (a == b),
    decreases a.len(),
{
    if a.len() == 0 || b.len() == 0 {
        if a.len() == 0 && b.len() == 0 {
            assert(a =~= b);
        }
    } else if a[0] != b[0] {
    } else {
        lemma_text_order(a.skip(1), b.skip(1));
        if a.skip(1) == b.skip(1) {
            assert(a =~= seq![a[0]] + a.skip(1));
            assert(b =~= seq![b[0]] + b.skip(1));
        }
    }
}

/// `text_order` is transitive.
pub proof fn lemma_text_order_trans(a: Seq<char>, b: Seq<char>, c: Seq<char>)
    requires
        text_order(a, b) <= 0,
        text_order(b, c) <= 0,
    ensures
        text_order(a, c) <= 0,
    decreases a.len(),
{
    if a.len() == 0 || b.len() == 0 || c.len() == 0 {
    } else if a[0] != b[0] || b[0] != c[0] {
    } else {
        lemma_text_order_trans(a.skip(1), b.skip(1), c.skip(1));
    }
}

/// `opt_text_order` is antisymmetric, zero exactly on equal values, and
/// transitive.
pub proof fn lemma_opt_text_order(
    a: Option<Seq<char>>,
    b: Option<Seq<char>>,
    c: Option<Seq<char>>,
)
    ensures
        opt_text_order(a, b) == -opt_text_order(b, a),
        -1 <= opt_text_order(a, b) <= 1,
        (opt_text_order(a, b) == 0) == (a == b),
        opt_text_order(a, b) <= 0 && opt_text_order(b, c) <= 0 ==> opt_text_order(a, c) <= 0,
{
    match (a, b, c) {
        (Some(x), Some(y), Some(z)) => {
            lemma_text_order(x, y);
            if text_order(x, y) <= 0 && text_order(y, z) <= 0 {
                lemma_text_order_trans(x, y, z);
            }
        },
        (Some(x), Some(y), None) => {
            lemma_text_order(x, y);
        },
        _ => {},
    }
}

/// View of an optional string.
pub open spec fn opt_view(s: Option<String>) -> Option<Seq<char>> {
    match s {
        Some(t) => Some(t@),
        None => None,
    }
}

/// Three-way lexicographic order of two strings by code point.
pub fn order_text(a: &str, b: &str) -> (r: i8)
    ensures
        r as int == text_order(a@, b@),
{
    let n = a.unicode_len();
    let m = b.unicode_len();
    let mut i: usize = 0;
    proof {
        assert(a@.skip(0) == a@);
        assert(b@.skip(0) == b@);
    }
    while i < n && i < m
        invariant
            i <= n,
            i <= m,
            n == a@.len(),
            m == b@.len(),
            text_order(a@, b@) == text_order(a@.skip(i as int), b@.skip(i as int)),
        decreases n - i,
    {
        let x = a.get_char(i);
        let y = b.get_char(i);
        if x != y {
            return if (x as u32) < (y as u32) {
                -1
            } else {
                1
            };
        }
        proof {
            assert(a@.skip(i as int).skip(1) == a@.skip(i + 1));
            assert(b@.skip(i as int).skip(1) == b@.skip(i + 1));
        }
        i += 1;
    }
    if n == m {
        0
    } else if n < m {
        -1
    } else {
        1
    }
}

/// Three-way order of two optional strings; an absent one comes first.
pub fn order_opt_text(a: &Option<String>, b: &Option<String>) -> (r: i8)
    ensures
        r as int == opt_text_order(opt_view(*a), opt_view(*b)),
{
    match (a, b) {
        (None, None) => 0,
        (None, Some(_)) => -1,
        (Some(_), None) => 1,
        (Some(x), Some(y)) => order_text(x.as_str(), y.as_str()),
    }
}

/// A copy of an optional string.
pub fn copy_opt_text(s: &Option<String>) -> (r: Option<String>)
    ensures
        r == *s,
{
    match s {
        Some(t) => Some(t.clone()),
        None => None,
    }
}

/// Whether `c` is white space: what `char::is_whitespace` answers for it,
/// the Unicode property White_Space.
pub uninterp spec fn white_space(c: char) -> bool;

/// `char::is_whitespace`. Assumed: the answer depends on the character
/// alone.
#[verifier::external_body]
pub(crate) fn is_whitespace(c: char) -> (r: bool)
    ensures
        r == white_space(c),
{
    c.is_whitespace()
}

/// Number of leading white-space characters of a text.
pub open spec fn leading_ws(t: Seq<char>) -> nat
    decreases t.len(),
{
    if t.len() > 0 && white_space(t[0]) {
        1 + leading_ws(t.skip(1))
    } else {
        0
    }
}

/// Number of trailing white-space characters of a text.
pub open spec fn trailing_ws(t: Seq<char>) -> nat
    decreases t.len(),
{
    if t.len() > 0 && white_space(t.last()) {
        1 + trailing_ws(t.drop_last())
    } else {
        0
    }
}

/// The text without its leading white space.
pub open spec fn trim_start_text(t: Seq<char>) -> Seq<char> {
    t.skip(leading_ws(t) as int)
}

/// The text without its trailing white space.
pub open spec fn trim_end_text(t: Seq<char>) -> Seq<char> {
    t.take(t.len() - trailing_ws(t))
}

/// `leading_ws` counts no more characters than the text has; the character
/// after those it counts, if any, is not white space.
pub proof fn lemma_leading_ws(t: Seq<char>)
    ensures
        leading_ws(t) <= t.len(),
        forall|i: int| 0 <= i < leading_ws(t) ==> white_space(t[i]),
        leading_ws(t) < t.len() ==> !white_space(t[leading_ws(t) as int]),
    decreases t.len(),
{
    if t.len() > 0 && white_space(t[0]) {
        lemma_leading_ws(t.skip(1));
        assert forall|i: int| 0 <= i < leading_ws(t) implies white_space(t[i]) by {
            if i > 0 {
                assert(t[i] == t.skip(1)[i - 1]);
            }
        }
        if leading_ws(t) < t.len() {
            assert(t[leading_ws(t) as int] == t.skip(1)[leading_ws(t.skip(1)) as int]);
        }
    }
}

/// `trailing_ws` counts no more characters than the text has; the character
/// before those it counts, if any, is not white space.
pub proof fn lemma_trailing_ws(t: Seq<char>)
    ensures
        trailing_ws(t) <= t.len(),
        forall|i: int| t.len() - trailing_ws(t) <= i < t.len() ==> white_space(t[i]),
        trailing_ws(t) < t.len() ==> !white_space(t[t.len() - trailing_ws(t) - 1]),
    decreases t.len(),
{
    if t.len() > 0 && white_space(t.last()) {
        lemma_trailing_ws(t.drop_last());
        assert forall|i: int| t.len() - trailing_ws(t) <= i < t.len() implies white_space(
            t[i],
        ) by {
            if i < t.len() - 1 {
                assert(t[i] == t.drop_last()[i]);
            }
        }
        if trailing_ws(t) < t.len() {
            assert(t[t.len() - trailing_ws(t) - 1] == t.drop_last()[t.drop_last().len()
                - trailing_ws(t.drop_last()) - 1]);
        }
    }
}

/// The number of leading white-space characters is the index of the first
/// character that is not white space.
pub proof fn lemma_leading_ws_is(t: Seq<char>, n: int)
    requires
        0 <= n <= t.len(),
        forall|i: int| 0 <= i < n ==> white_space(t[i]),
        n < t.len() ==> !white_space(t[n]),
    ensures
        leading_ws(t) == n,
    decreases t.len(),
{
    if n > 0 {
        assert(white_space(t[0]));
        assert forall|i: int| 0 <= i < n - 1 implies white_space(t.skip(1)[i]) by {
            assert(t.skip(1)[i] == t[i + 1]);
        }
        lemma_leading_ws_is(t.skip(1), n - 1);
    }
}

/// The number of trailing white-space characters is the distance from the
/// last character that is not white space to the end.
pub proof fn lemma_trailing_ws_is(t: Seq<char>, n: int)
    requires
        0 <= n <= t.len(),
        forall|i: int| t.len() - n <= i < t.len() ==> white_space(t[i]),
        n < t.len() ==> !white_space(t[t.len() - n - 1]),
    ensures
        trailing_ws(t) == n,
    decreases t.len(),
{
    if n > 0 {
        assert(white_space(t.last()));
        lemma_trailing_ws_is(t.drop_last(), n - 1);
    }
}

/// The text of `s` without its leading white space.
pub fn trim_start(s: &str) -> (r: String)
    ensures
        r@ == trim_start_text(s@),
{
    let n = s.unicode_len();
    let mut i: usize = 0;
    while i < n && is_whitespace(s.get_char(i))
        invariant
            i <= n,
            n == s@.len(),
            forall|j: int| 0 <= j < i ==> white_space(s@[j]),
        decreases n - i,
    {
        i += 1;
    }
    proof {
        lemma_leading_ws_is(s@, i as int);
    }
    String::from_str(s.substring_char(i, n))
}

/// The text of `s` without its trailing white space.
pub fn trim_end(s: &str) -> (r: String)
    ensures
        r@ == trim_end_text(s@),
{
    let n = s.unicode_len();
    let mut i: usize = n;
    while i > 0 && is_whitespace(s.get_char(i - 1))
        invariant
            i <= n,
            n == s@.len(),
            forall|j: int| i <= j < n ==> white_space(s@[j]),
        decreases i,
    {
        i -= 1;
    }
    proof {
        lemma_trailing_ws_is(s@, n - i);
    }
    String::from_str(s.substring_char(0, i))
}

/// `str::encode_utf16`, collected. Assumed: the result is the UTF-16
/// encoding of the text, a character below U+10000 as one code unit and any
/// other as a surrogate pair.
#[verifier::external_body]
pub(crate) fn encode_utf16(s: &str) -> (units: Vec<u16>)
    ensures
        units@ == utf16_units(s@),
{
    s.encode_utf16().collect()
}

/// `String::from_utf16_lossy`. Assumed: the result is the text that the
/// units encode, with the replacement character U+FFFD in place of each
/// surrogate that has no partner.
#[verifier::external_body]
pub(crate) fn from_utf16_lossy(units: &[u16]) -> (s: String)
    ensures
        s@ == decode_lossy(units@),
{
    String::from_utf16_lossy(units)
}

} // verus!
