//! Conversions between `String` and `Vec<char>`, and a scalar-value
//! constructor for `char`, taken on trust from std.
//!
//! The codecs in this crate work over character and byte vectors; these
//! helpers move between those and the `String` values of the public API.

use vstd::prelude::*;
use vstd::utf8::{decode_utf8, is_scalar, valid_utf8};

verus! {

/// Relies on `core::iter::Iterator::collect` for `String`: collecting
/// characters yields the string of exactly those characters.
#[verifier::external_body]
pub(crate) fn chars_to_string(v: &Vec<char>) -> (r: String)
    ensures
        r@ == v@,
{
    v.iter().collect()
}

/// Relies on `str::chars`: iterating a string slice yields its
/// characters in order.
#[verifier::external_body]
pub(crate) fn str_to_chars(s: &str) -> (r: Vec<char>)
    ensures
        r@ == s@,
{
    s.chars().collect()
}

/// Relies on `String::from_utf8`: a byte vector converts to a string
/// exactly when it is valid UTF-8, and then to the decoding of those
/// bytes.
#[verifier::external_body]
pub(crate) fn utf8_to_string(v: Vec<u8>) -> (r: Option<String>)
    ensures
        match r {
            Some(s) => valid_utf8(v@) && s@ == decode_utf8(v@),
            None => !valid_utf8(v@),
        },
{
    match String::from_utf8(v) {
        Ok(s) => Some(s),
        Err(_) => None,
    }
}

/// Append the elements of `cs[from..to]` to `out`.
pub(crate) fn push_run<T: Copy>(out: &mut Vec<T>, cs: &Vec<T>, from: usize, to: usize)
    requires
        from <= to <= cs@.len(),
    ensures
        final(out)@ == old(out)@ + cs@.subrange(from as int, to as int),
{
    let mut i: usize = from;
    while i < to
        invariant
            from <= i <= to <= cs@.len(),
            out@ == old(out)@ + cs@.subrange(from as int, i as int),
        decreases to - i,
    {
        out.push(cs[i]);
        proof {
            assert(old(out)@ + cs@.subrange(from as int, i + 1) =~= (old(out)@ + cs@.subrange(
                from as int,
                i as int,
            )).push(cs@[i as int]));
        }
        i += 1;
    }
    proof {
        assert(out@ =~= old(out)@ + cs@.subrange(from as int, to as int));
    }
}

/// Relies on `char::from_u32`: every Unicode scalar value converts to
/// the character with that value; surrogates and values above
/// `0x10FFFF` do not convert.
#[verifier::external_body]
pub(crate) fn char_from_u32(u: u32) -> (r: Option<char>)
    ensures
        r == if is_scalar(u) {
            Some(u as char)
        } else {
            None::<char>
        },
{
    char::from_u32(u)
}

} // verus!
