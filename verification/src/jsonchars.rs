//! Character-level building blocks of the textual codec: string
//! escaping, hexadecimal digits, and the JSON number-token grammar.
//!
//! Everything here is stated over `Seq<char>`; the executable codec in
//! [`crate::text`] is proved against these definitions.

use vstd::prelude::*;
use vstd::utf8::char_u32_cast;

verus! {

/// An ASCII decimal digit.
pub open spec fn is_digit(c: char) -> bool {
    48 <= (c as u32) && (c as u32) <= 57
}

/// JSON insignificant whitespace.
pub open spec fn is_ws(c: char) -> bool {
    c == ' ' || c == '\t' || c == '\n' || c == '\r'
}

/// The lower-case hexadecimal digit for a value below 16.
pub open spec fn hex_digit_char(n: u32) -> char
    recommends
        n < 16,
{
    if n == 0 { '0' } else if n == 1 { '1' } else if n == 2 { '2' } else if n == 3 { '3' }
    else if n == 4 { '4' } else if n == 5 { '5' } else if n == 6 { '6' } else if n == 7 { '7' }
    else if n == 8 { '8' } else if n == 9 { '9' } else if n == 10 { 'a' } else if n == 11 { 'b' }
    else if n == 12 { 'c' } else if n == 13 { 'd' } else if n == 14 { 'e' } else { 'f' }
}

/// The value of a hexadecimal digit, upper or lower case.
pub open spec fn hex_val(c: char) -> Option<u32> {
    let u = c as u32;
    if 48 <= u && u <= 57 {
        Some((u - 48) as u32)
    } else if 97 <= u && u <= 102 {
        Some((u - 87) as u32)
    } else if 65 <= u && u <= 70 {
        Some((u - 55) as u32)
    } else {
        None
    }
}

pub proof fn lemma_hex_round_trip(n: u32)
    requires
        n < 16,
    ensures
        hex_val(hex_digit_char(n)) == Some(n),
{
}

/// How one character appears inside a JSON string literal: quote and
/// backslash are escaped, control characters become `\u00XX`, and
/// everything else stands for itself.
pub open spec fn esc_char(c: char) -> Seq<char> {
    if c == '"' {
        seq!['\\', '"']
    } else if c == '\\' {
        seq!['\\', '\\']
    } else if (c as u32) < 32 {
        seq!['\\', 'u', '0', '0', hex_digit_char((c as u32) / 16), hex_digit_char((c as u32) % 16)]
    } else {
        seq![c]
    }
}

/// A whole string body, escaped character by character.
pub open spec fn esc_string(s: Seq<char>) -> Seq<char>
    decreases s.len(),
{
    if s.len() == 0 {
        Seq::<char>::empty()
    } else {
        esc_char(s[0]) + esc_string(s.drop_first())
    }
}

/// A JSON string literal: the escaped body between double quotes.
pub open spec fn quoted(s: Seq<char>) -> Seq<char> {
    seq!['"'] + esc_string(s) + seq!['"']
}

pub proof fn lemma_esc_string_push(s: Seq<char>, c: char)
    ensures
        esc_string(s.push(c)) == esc_string(s) + esc_char(c),
    decreases s.len(),
{
    if s.len() == 0 {
        assert(s.push(c)[0] == c);
        assert(s.push(c).drop_first() =~= Seq::<char>::empty());
        assert(esc_string(s.push(c)) == esc_char(c) + esc_string(Seq::<char>::empty()));
        assert(esc_char(c) + Seq::<char>::empty() =~= esc_char(c));
        assert(esc_string(s) + esc_char(c) =~= esc_char(c));
    } else {
        assert(s.push(c).drop_first() =~= s.drop_first().push(c));
        lemma_esc_string_push(s.drop_first(), c);
        assert(esc_string(s.push(c)) =~= esc_string(s) + esc_char(c));
    }
}

/// The plain (unescaped) meaning of a single-character escape.
pub open spec fn simple_escape(e: char) -> Option<char> {
    if e == '"' { Some('"') } else if e == '\\' { Some('\\') } else if e == '/' { Some('/') }
    else if e == 'b' { Some('\u{0008}') } else if e == 'f' { Some('\u{000C}') }
    else if e == 'n' { Some('\n') } else if e == 'r' { Some('\r') } else if e == 't' { Some('\t') }
    else { None }
}

/// Four hexadecimal digits at the front of `t`, combined.
pub open spec fn hex4(t: Seq<char>) -> Option<u32> {
    if t.len() >= 4 && hex_val(t[0]) is Some && hex_val(t[1]) is Some && hex_val(t[2]) is Some
        && hex_val(t[3]) is Some {
        Some(
            (hex_val(t[0]).unwrap() * 4096 + hex_val(t[1]).unwrap() * 256 + hex_val(t[2]).unwrap()
                * 16 + hex_val(t[3]).unwrap()) as u32,
        )
    } else {
        None
    }
}

/// Parse the body of a JSON string literal up to and including the
/// closing quote; the result is the unescaped text and the remainder of
/// the input after the quote.  Escaped surrogate pairs combine into one
/// character; lone surrogates, raw control characters and unterminated
/// input are rejected.
pub open spec fn p_strchars(t: Seq<char>) -> Option<(Seq<char>, Seq<char>)>
    decreases t.len(),
{
    if t.len() == 0 {
        None
    } else if t[0] == '"' {
        Some((Seq::<char>::empty(), t.drop_first()))
    } else if t[0] == '\\' {
        if t.len() < 2 {
            None
        } else if simple_escape(t[1]) is Some {
            match p_strchars(t.skip(2)) {
                None => None,
                Some((s, r)) => Some((seq![simple_escape(t[1]).unwrap()] + s, r)),
            }
        } else if t[1] == 'u' {
            match hex4(t.skip(2)) {
                None => None,
                Some(v) => if 0xD800 <= v && v < 0xDC00 {
                    if t.len() >= 12 && t[6] == '\\' && t[7] == 'u' {
                        match hex4(t.skip(8)) {
                            None => None,
                            Some(w) => if 0xDC00 <= w && w < 0xE000 {
                                let scalar = (0x10000 + (v - 0xD800) * 0x400 + (w
                                    - 0xDC00)) as u32;
                                match p_strchars(t.skip(12)) {
                                    None => None,
                                    Some((s, r)) => Some((seq![scalar as char] + s, r)),
                                }
                            } else {
                                None
                            },
                        }
                    } else {
                        None
                    }
                } else if 0xDC00 <= v && v < 0xE000 {
                    None
                } else {
                    match p_strchars(t.skip(6)) {
                        None => None,
                        Some((s, r)) => Some((seq![v as char] + s, r)),
                    }
                },
            }
        } else {
            None
        }
    } else if (t[0] as u32) < 32 {
        None
    } else {
        match p_strchars(t.drop_first()) {
            None => None,
            Some((s, r)) => Some((seq![t[0]] + s, r)),
        }
    }
}

/// Parsing inverts escaping: the escaped body of `s`, a closing quote,
/// and any remainder parse back to exactly `s` and that remainder.
pub proof fn lemma_p_strchars_esc(s: Seq<char>, rest: Seq<char>)
    ensures
        p_strchars(esc_string(s) + seq!['"'] + rest) == Some((s, rest)),
    decreases s.len(),
{
    let t = esc_string(s) + seq!['"'] + rest;
    if s.len() == 0 {
        assert(t =~= seq!['"'] + rest);
        assert(t[0] == '"');
        assert(t.drop_first() =~= rest);
    } else {
        let c = s[0];
        let tail = s.drop_first();
        let t2 = esc_string(tail) + seq!['"'] + rest;
        lemma_p_strchars_esc(tail, rest);
        assert(esc_string(s) == esc_char(c) + esc_string(tail));
        assert(t =~= esc_char(c) + t2);
        if c == '"' {
            assert(t =~= seq!['\\', '"'] + t2);
            assert(t.skip(2) =~= t2);
            assert(seq![c] + tail =~= s);
        } else if c == '\\' {
            assert(t =~= seq!['\\', '\\'] + t2);
            assert(t.skip(2) =~= t2);
            assert(seq![c] + tail =~= s);
        } else if (c as u32) < 32 {
            let u = c as u32;
            assert(t =~= seq!['\\', 'u', '0', '0', hex_digit_char(u / 16), hex_digit_char(u % 16)]
                + t2);
            lemma_hex_round_trip(u / 16);
            lemma_hex_round_trip(u % 16);
            assert(t.skip(2).len() >= 4);
            assert(hex4(t.skip(2)) == Some((0 * 4096 + 0 * 256 + (u / 16) * 16 + u % 16) as u32));
            assert((0 * 4096 + 0 * 256 + (u / 16) * 16 + u % 16) as u32 == u);
            assert(t.skip(6) =~= t2);
            char_u32_cast(c, u);
            assert(seq![u as char] + tail =~= s);
        } else {
            assert(t[0] == c);
            assert(t.drop_first() =~= t2);
            assert(seq![c] + tail =~= s);
        }
    }
}

/// The number of decimal digits at the front of `t`.
pub open spec fn digits_len(t: Seq<char>) -> nat
    decreases t.len(),
{
    if t.len() > 0 && is_digit(t[0]) {
        (1 + digits_len(t.drop_first())) as nat
    } else {
        0
    }
}

pub proof fn lemma_digits_len_le(t: Seq<char>)
    ensures
        digits_len(t) <= t.len(),
    decreases t.len(),
{
    if t.len() > 0 && is_digit(t[0]) {
        lemma_digits_len_le(t.drop_first());
    }
}

pub proof fn lemma_digits_append_stop(a: Seq<char>, b: Seq<char>)
    requires
        digits_len(a) < a.len(),
    ensures
        digits_len(a + b) == digits_len(a),
    decreases a.len(),
{
    lemma_digits_len_le(a);
    if a.len() > 0 && is_digit(a[0]) {
        assert((a + b).drop_first() =~= a.drop_first() + b);
        lemma_digits_append_stop(a.drop_first(), b);
    } else {
        if b.len() > 0 {
            assert((a + b)[0] == a[0]);
        }
    }
}

pub proof fn lemma_digits_append_all(a: Seq<char>, b: Seq<char>)
    requires
        digits_len(a) == a.len(),
        b.len() == 0 || !is_digit(b[0]),
    ensures
        digits_len(a + b) == a.len(),
    decreases a.len(),
{
    if a.len() == 0 {
        assert(a + b =~= b);
    } else {
        lemma_digits_len_le(a.drop_first());
        assert(is_digit(a[0]));
        assert((a + b)[0] == a[0]);
        assert((a + b).drop_first() =~= a.drop_first() + b);
        lemma_digits_append_all(a.drop_first(), b);
    }
}

/// Continue a number token after the integer part: an optional fraction.
pub open spec fn scan_frac(t: Seq<char>, i: int) -> Option<int>
    recommends
        0 <= i <= t.len(),
{
    if i < t.len() && t[i] == '.' {
        let d = digits_len(t.skip(i + 1));
        if d == 0 {
            None
        } else {
            scan_exp(t, i + 1 + d)
        }
    } else {
        scan_exp(t, i)
    }
}

/// Continue a number token after the fraction: an optional exponent.
pub open spec fn scan_exp(t: Seq<char>, i: int) -> Option<int>
    recommends
        0 <= i <= t.len(),
{
    if i < t.len() && (t[i] == 'e' || t[i] == 'E') {
        let j = if i + 1 < t.len() && (t[i + 1] == '+' || t[i + 1] == '-') {
            i + 2
        } else {
            i + 1
        };
        let d = digits_len(t.skip(j));
        if d == 0 {
            None
        } else {
            Some(j + d)
        }
    } else {
        Some(i)
    }
}

/// The length of the JSON number token at the front of `t`, if one is
/// there: an optional minus sign, an integer part without leading
/// zeroes, an optional fraction and an optional exponent.
pub open spec fn spec_scan_number(t: Seq<char>) -> Option<int> {
    let i0: int = if t.len() > 0 && t[0] == '-' {
        1
    } else {
        0
    };
    if i0 >= t.len() {
        None
    } else if t[i0] == '0' {
        scan_frac(t, i0 + 1)
    } else if is_digit(t[i0]) {
        scan_frac(t, i0 + digits_len(t.skip(i0)) as int)
    } else {
        None
    }
}

/// `s` is exactly one well-formed JSON number token.
pub open spec fn is_json_number(s: Seq<char>) -> bool {
    spec_scan_number(s) == Some(s.len() as int)
}

pub proof fn lemma_scan_exp_append(s: Seq<char>, rest: Seq<char>, i: int)
    requires
        0 <= i <= s.len(),
        scan_exp(s, i) == Some(s.len() as int),
        rest.len() > 0,
        !is_digit(rest[0]),
        rest[0] != 'e',
        rest[0] != 'E',
    ensures
        scan_exp(s + rest, i) == Some(s.len() as int),
{
    let u = s + rest;
    if i == s.len() {
        assert(u[i] == rest[0]);
    } else {
        assert(u[i] == s[i]);
        if s[i] == 'e' || s[i] == 'E' {
            if i + 1 < s.len() && (s[i + 1] == '+' || s[i + 1] == '-') {
                let j = i + 2;
                lemma_digits_len_le(s.skip(j));
                let d = digits_len(s.skip(j)) as int;
                assert(u.skip(j) =~= s.skip(j) + rest);
                if d < s.skip(j).len() {
                    lemma_digits_append_stop(s.skip(j), rest);
                } else {
                    lemma_digits_append_all(s.skip(j), rest);
                }
                assert(u[i + 1] == s[i + 1]);
            } else {
                if i + 1 >= s.len() {
                    assert(digits_len(s.skip(i + 1)) == 0);
                    assert(scan_exp(s, i) is None);
                    assert(false);
                }
                let j = i + 1;
                lemma_digits_len_le(s.skip(j));
                let d = digits_len(s.skip(j)) as int;
                assert(u.skip(j) =~= s.skip(j) + rest);
                if d < s.skip(j).len() {
                    lemma_digits_append_stop(s.skip(j), rest);
                } else {
                    lemma_digits_append_all(s.skip(j), rest);
                }
                assert(u[i + 1] == s[i + 1]);
            }
        } else {
            assert(scan_exp(s, i) == Some(i));
            assert(false);
        }
    }
}

pub proof fn lemma_scan_frac_append(s: Seq<char>, rest: Seq<char>, i: int)
    requires
        0 <= i <= s.len(),
        scan_frac(s, i) == Some(s.len() as int),
        rest.len() > 0,
        !is_digit(rest[0]),
        rest[0] != '.',
        rest[0] != 'e',
        rest[0] != 'E',
    ensures
        scan_frac(s + rest, i) == Some(s.len() as int),
{
    let u = s + rest;
    if i < s.len() && s[i] == '.' {
        assert(u[i] == s[i]);
        let d = digits_len(s.skip(i + 1)) as int;
        lemma_digits_len_le(s.skip(i + 1));
        assert(d != 0);
        assert(u.skip(i + 1) =~= s.skip(i + 1) + rest);
        if d < s.skip(i + 1).len() {
            lemma_digits_append_stop(s.skip(i + 1), rest);
        } else {
            lemma_digits_append_all(s.skip(i + 1), rest);
        }
        lemma_scan_exp_append(s, rest, i + 1 + d);
    } else {
        if i == s.len() {
            assert(u[i] == rest[0]);
        } else {
            assert(u[i] == s[i]);
        }
        lemma_scan_exp_append(s, rest, i);
    }
}

/// A number token keeps its meaning in front of a delimiter: if `s` is
/// exactly one token and the next character cannot extend a token, the
/// scanner finds exactly `s` at the front of `s + rest`.
pub proof fn lemma_scan_number_append(s: Seq<char>, rest: Seq<char>)
    requires
        is_json_number(s),
        rest.len() > 0,
        !is_digit(rest[0]),
        rest[0] != '.',
        rest[0] != 'e',
        rest[0] != 'E',
    ensures
        spec_scan_number(s + rest) == Some(s.len() as int),
{
    let u = s + rest;
    assert(s.len() > 0);
    let i0: int = if s[0] == '-' {
        1
    } else {
        0
    };
    assert(u[0] == s[0]);
    assert(i0 < s.len());
    assert(u[i0] == s[i0]);
    if s[i0] == '0' {
        lemma_scan_frac_append(s, rest, i0 + 1);
    } else if is_digit(s[i0]) {
        let d0 = digits_len(s.skip(i0)) as int;
        lemma_digits_len_le(s.skip(i0));
        assert(u.skip(i0) =~= s.skip(i0) + rest);
        if d0 < s.skip(i0).len() {
            lemma_digits_append_stop(s.skip(i0), rest);
        } else {
            lemma_digits_append_all(s.skip(i0), rest);
        }
        lemma_scan_frac_append(s, rest, i0 + d0);
    } else {
        assert(false);
    }
}

} // verus!
