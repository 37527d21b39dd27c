//! Conversions between bytes and text that the standard library makes.

use vstd::prelude::*;
use vstd::utf8::{decode_utf8, valid_utf8};

verus! {

/// What `String::from_utf8_lossy` makes of `data`.
pub uninterp spec fn utf8_lossy(data: Seq<u8>) -> Seq<char>;

/// Calls `std::str::from_utf8`, which gives the text that `data` encodes, and
/// an error exactly where `data` is no valid UTF-8.
#[verifier::external_body]
pub(crate) fn utf8_text(data: &[u8]) -> (r: Option<String>)
    ensures
        match r {
            Some(s) => valid_utf8(data@) && s@ == decode_utf8(data@),
            None => !valid_utf8(data@),
        },
{
    match std::str::from_utf8(data) {
        Ok(text) => Some(text.to_string()),
        Err(_) => None,
    }
}

/// Calls `String::from_utf8_lossy`, which decodes `data` and puts U+FFFD in
/// place of what is no valid UTF-8. Which bytes one such character stands for is
/// left to the name; valid UTF-8 is decoded as it is.
#[verifier::external_body]
pub(crate) fn utf8_text_lossy(data: &[u8]) -> (r: String)
    ensures
        r@ == utf8_lossy(data@),
        valid_utf8(data@) ==> r@ == decode_utf8(data@),
{
    String::from_utf8_lossy(data).into_owned()
}

/// The UTF-16 code units of one character.
pub open spec fn utf16_char(c: char) -> Seq<u16> {
    let u = c as u32;
    if u < 0x1_0000 {
        seq![u as u16]
    } else {
        seq![
            (0xd800 + (u - 0x1_0000) / 0x400) as u16,
            (0xdc00 + (u - 0x1_0000) % 0x400) as u16,
        ]
    }
}

/// The UTF-16 code units of a text.
pub open spec fn utf16(s: Seq<char>) -> Seq<u16>
    decreases s.len(),
{
    if s.len() == 0 {
        Seq::empty()
    } else {
        utf16_char(s[0]) + utf16(s.skip(1))
    }
}

/// The text that `units` are the UTF-16 code units of, where there is one.
pub open spec fn utf16_decoded(units: Seq<u16>) -> Option<Seq<char>> {
    if exists|s: Seq<char>| utf16(s) == units {
        Some(choose|s: Seq<char>| utf16(s) == units)
    } else {
        None
    }
}

proof fn lemma_utf16_first(c: char, d: char, rest_c: Seq<u16>, rest_d: Seq<u16>)
    requires
        utf16_char(c) + rest_c == utf16_char(d) + rest_d,
    ensures
        c == d,
        rest_c == rest_d,
{
    vstd::utf8::char_is_scalar(c);
    vstd::utf8::char_is_scalar(d);
    let x = utf16_char(c) + rest_c;
    let y = utf16_char(d) + rest_d;
    assert(x[0] == utf16_char(c)[0]);
    assert(y[0] == utf16_char(d)[0]);
    if (c as u32) >= 0x1_0000 {
        assert(x[1] == utf16_char(c)[1]);
    }
    if (d as u32) >= 0x1_0000 {
        assert(y[1] == utf16_char(d)[1]);
    }
    assert(c as u32 == d as u32);
    vstd::utf8::char_u32_cast(c, c as u32);
    vstd::utf8::char_u32_cast(d, d as u32);
    let n = utf16_char(c).len();
    assert(rest_c =~= x.skip(n as int));
    assert(rest_d =~= y.skip(n as int));
}

/// Two texts with the same code units are the same.
pub proof fn law_utf16_injective(a: Seq<char>, b: Seq<char>)
    requires
        utf16(a) == utf16(b),
    ensures
        a == b,
    decreases a.len(),
{
    if a.len() == 0 {
        if b.len() > 0 {
            assert(utf16_char(b[0]).len() > 0);
        }
        assert(a =~= b);
    } else if b.len() == 0 {
        assert(utf16_char(a[0]).len() > 0);
    } else {
        lemma_utf16_first(a[0], b[0], utf16(a.skip(1)), utf16(b.skip(1)));
        law_utf16_injective(a.skip(1), b.skip(1));
        assert(a =~= seq![a[0]] + a.skip(1));
        assert(b =~= seq![b[0]] + b.skip(1));
    }
}

/// Calls `String::from_utf16`, which gives the text that the code units encode,
/// and an error exactly where they encode none.
#[verifier::external_body]
pub(crate) fn utf16_text(units: &[u16]) -> (r: Option<String>)
    ensures
        match r {
            Some(s) => utf16(s@) == units@,
            None => !(exists|s: Seq<char>| utf16(s) == units@),
        },
{
    match String::from_utf16(units) {
        Ok(text) => Some(text),
        Err(_) => None,
    }
}

/// The text that `units` encode.
pub fn decode_utf16(units: &[u16]) -> (r: Option<String>)
    ensures
        match r {
            Some(s) => utf16_decoded(units@) == Some(s@),
            None => utf16_decoded(units@) is None,
        },
{
    let r = utf16_text(units);
    proof {
        if r is Some {
            let s = r->0@;
            let t = choose|t: Seq<char>| utf16(t) == units@;
            assert(utf16(s) == units@);
            law_utf16_injective(s, t);
        }
    }
    r
}

} // verus!
