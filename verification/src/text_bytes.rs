//! The bytes of a text in UTF-8.

use vstd::prelude::*;
use vstd::utf8::{encode_scalar, encode_utf8};

use crate::text::{
    contains, first_at, is_first_at, is_last_at, last_at, lemma_first_at, lemma_last_at, lower,
    lower_char, occurs_at,
};

verus! {

/// The number of bytes of `s`.
pub open spec fn byte_len(s: Seq<char>) -> nat {
    encode_utf8(s).len()
}

/// The number of bytes of one character.
pub open spec fn char_width(c: char) -> nat {
    if (c as u32) < 0x80 {
        1
    } else if (c as u32) < 0x800 {
        2
    } else if (c as u32) < 0x10000 {
        3
    } else {
        4
    }
}

pub proof fn lemma_char_width(c: char)
    ensures
        encode_scalar(c as u32).len() == char_width(c),
{
    vstd::utf8::char_is_scalar(c);
}

pub proof fn lemma_encode_concat(a: Seq<char>, b: Seq<char>)
    ensures
        encode_utf8(a + b) == encode_utf8(a) + encode_utf8(b),
    decreases a.len(),
{
    if a.len() == 0 {
        assert(a + b =~= b);
        assert(encode_utf8(a) + encode_utf8(b) =~= encode_utf8(b));
    } else {
        lemma_encode_concat(a.drop_first(), b);
        assert((a + b).drop_first() =~= a.drop_first() + b);
        assert(encode_utf8(a + b) =~= encode_utf8(a) + encode_utf8(b));
    }
}

pub proof fn lemma_byte_len_push(s: Seq<char>, c: char)
    ensures
        byte_len(s.push(c)) == byte_len(s) + char_width(c),
{
    lemma_encode_concat(s, seq![c]);
    assert(s + seq![c] =~= s.push(c));
    lemma_char_width(c);
    assert(seq![c].drop_first() =~= Seq::<char>::empty());
    reveal_with_fuel(encode_utf8, 2);
    assert(encode_utf8(seq![c]) =~= encode_scalar(c as u32));
}

/// A part of a text has no more bytes than the text up to its end.
pub proof fn lemma_byte_len_part(s: Seq<char>, a: int, b: int)
    requires
        0 <= a <= b <= s.len(),
    ensures
        byte_len(s.take(b)) == byte_len(s.take(a)) + byte_len(s.subrange(a, b)),
        byte_len(s.take(b)) <= byte_len(s),
{
    lemma_encode_concat(s.take(a), s.subrange(a, b));
    assert(s.take(a) + s.subrange(a, b) =~= s.take(b));
    lemma_encode_concat(s.take(b), s.skip(b));
    assert(s.take(b) + s.skip(b) =~= s);
}

/// Lower case takes as many bytes.
pub proof fn lemma_lower_byte_len(s: Seq<char>)
    ensures
        byte_len(lower(s)) == byte_len(s),
    decreases s.len(),
{
    if s.len() > 0 {
        let before = s.drop_last();
        lemma_lower_byte_len(before);
        lemma_byte_len_push(before, s.last());
        lemma_byte_len_push(lower(before), lower_char(s.last()));
        assert(before.push(s.last()) =~= s);
        assert(lower(before).push(lower_char(s.last())) =~= lower(s));
    } else {
        assert(lower(s) =~= s);
    }
}

pub fn width_of_char(c: char) -> (r: usize)
    ensures
        r as nat == char_width(c),
{
    let u: u32 = c as u32;
    if u < 0x80 {
        1
    } else if u < 0x800 {
        2
    } else if u < 0x10000 {
        3
    } else {
        4
    }
}

/// Whether `n` stands in `h` at index `i`.
pub fn bytes_stand_at(h: &[u8], n: &[u8], i: usize) -> (r: bool)
    ensures
        r == occurs_at(h@, n@, i as int),
{
    let size: usize = h.len();
    if n.len() > size || i > size - n.len() {
        return false;
    }
    for j in 0..n.len()
        invariant
            size == h@.len(),
            i + n@.len() <= h@.len(),
            forall|k: int| 0 <= k < j ==> h@[i + k] == n@[k],
    {
        if h[i + j] != n[j] {
            assert(h@.subrange(i as int, i + n@.len())[j as int] != n@[j as int]);
            return false;
        }
    }
    assert(h@.subrange(i as int, i + n@.len()) =~= n@);
    true
}

/// The greatest index at which `n` stands in `h`.
pub fn rfind_bytes(h: &[u8], n: &[u8]) -> (r: Option<usize>)
    ensures
        match r {
            Some(i) => last_at(h@, n@) == Some(i as int),
            None => last_at(h@, n@) is None,
        },
{
    if n.len() > h.len() {
        return None;
    }
    let mut i: usize = h.len() - n.len();
    loop
        invariant
            i + n@.len() <= h@.len(),
            forall|j: int| j > i ==> !occurs_at(h@, n@, j),
        decreases i,
    {
        if bytes_stand_at(h, n, i) {
            proof {
                assert(is_last_at(h@, n@, i as int));
                lemma_last_at(h@, n@, i as int);
            }
            return Some(i);
        }
        if i == 0 {
            return None;
        }
        i = i - 1;
    }
}

/// The least index at which `n` stands in `h`.
pub fn find_bytes(h: &[u8], n: &[u8]) -> (r: Option<usize>)
    ensures
        match r {
            Some(i) => first_at(h@, n@) == Some(i as int) && occurs_at(h@, n@, i as int),
            None => first_at(h@, n@) is None,
        },
{
    if n.len() > h.len() {
        return None;
    }
    let limit: usize = h.len() - n.len();
    let mut i: usize = 0;
    loop
        invariant
            n@.len() <= h@.len(),
            limit == h@.len() - n@.len(),
            i <= limit,
            forall|j: int| j < i ==> !occurs_at(h@, n@, j),
        decreases limit - i,
    {
        if bytes_stand_at(h, n, i) {
            proof {
                assert(is_first_at(h@, n@, i as int));
                lemma_first_at(h@, n@, i as int);
            }
            return Some(i);
        }
        if i == limit {
            assert(!contains(h@, n@));
            return None;
        }
        i = i + 1;
    }
}

} // verus!
