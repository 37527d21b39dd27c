//! Discord names and ids, and the pieces of text and bytes in which they are
//! looked for.

use vstd::prelude::*;
use vstd::utf8::{decode_utf8, encode_utf8, valid_utf8};

use crate::outside::utc_now_ms;
use crate::paths::{file_name, name_of_path};
use crate::std_text::{utf8_lossy, utf8_text, utf8_text_lossy};
use crate::text::{
    all_digits, char_is_alphanumeric, chars_of, contains, digits_value, ends_with, finishes_with,
    has_text, head, is_alphanumeric, is_text, last_at, lemma_unquoted_stable, lower, lower_chars,
    only_digits, parse_u64, replace_chars, replaced, string_of, tail, trim, trim_chars, unquote,
    unquoted, CharClass,
};
use crate::text_bytes::{byte_len, lemma_byte_len_part, lemma_byte_len_push, rfind_bytes, width_of_char};
use crate::viewer::last_dot;
use crate::views::{push_view, views};

verus! {

pub const DISCORD_EPOCH_MS: u64 = 1_420_070_400_000;

pub const MAX_DISCORD_FUTURE_SKEW_MS: i64 = 1_577_000_000;

// ---------------------------------------------------------------------------
// Names and ids
// ---------------------------------------------------------------------------

pub open spec fn is_name_char(c: char) -> bool {
    is_alphanumeric(c) || c == '_' || c == '.' || c == '-'
}

/// The name in `value`: without white space and quotes around it, 2 to 64
/// letters, digits, underscores, dots and hyphens.
pub open spec fn discord_name(value: Seq<char>) -> Option<Seq<char>> {
    let name = unquoted(value);
    if 2 <= name.len() <= 64 && (forall|i: int|
        0 <= i < name.len() ==> is_name_char(#[trigger] name[i])) {
        Some(name)
    } else {
        None
    }
}

pub fn normalize_discord_username(value: &str) -> (r: Option<String>)
    ensures
        match r {
            Some(name) => discord_name(value@) == Some(name@),
            None => discord_name(value@) is None,
        },
{
    let chars = chars_of(value);
    let name = unquote(chars.as_slice());
    if name.len() < 2 || name.len() > 64 {
        return None;
    }
    for i in 0..name.len()
        invariant
            name@ == unquoted(value@),
            forall|j: int| 0 <= j < i ==> is_name_char(#[trigger] name@[j]),
    {
        let c = name[i];
        if !(char_is_alphanumeric(c) || c == '_' || c == '.' || c == '-') {
            return None;
        }
    }
    Some(string_of(name))
}

/// A name that was accepted is accepted again, unchanged.
pub proof fn law_discord_name_stable(value: Seq<char>)
    requires
        discord_name(value) is Some,
    ensures
        discord_name(discord_name(value)->0) == discord_name(value),
{
    let name = discord_name(value)->0;
    assert(is_name_char(name[0]));
    assert(is_name_char(name[name.len() - 1]));
    lemma_unquoted_stable(name);
}

/// An id was made at the time in its high bits, counted from 2015 on; that time
/// is not later than `now` by more than the clocks of machines may differ.
pub open spec fn is_snowflake(id: nat, now_ms: int) -> bool {
    let limit = if now_ms + MAX_DISCORD_FUTURE_SKEW_MS > i64::MAX {
        i64::MAX as int
    } else {
        now_ms + MAX_DISCORD_FUTURE_SKEW_MS
    };
    id / 0x40_0000 + DISCORD_EPOCH_MS <= limit
}

pub fn is_snowflake_at(id: u64, now_ms: i64) -> (r: bool)
    ensures
        r == is_snowflake(id as nat, now_ms as int),
{
    let timestamp_ms: u64 = id / 0x40_0000 + DISCORD_EPOCH_MS;
    let limit: i64 = if now_ms > i64::MAX - MAX_DISCORD_FUTURE_SKEW_MS {
        i64::MAX
    } else {
        now_ms + MAX_DISCORD_FUTURE_SKEW_MS
    };
    timestamp_ms as i64 <= limit
}

/// Whether an id is not from the future by the machine's clock.
pub fn is_valid_discord_snowflake(id: u64) -> (r: bool)
    ensures
        exists|now_ms: i64|
            now_ms >= 0 && r == #[trigger] is_snowflake(id as nat, now_ms as int),
{
    let now_ms: i64 = utc_now_ms();
    is_snowflake_at(id, now_ms)
}

/// The id in `value`: without white space and quotes around it, 17 to 20 digits
/// that make up a 64-bit number not from the future.
pub open spec fn discord_id(value: Seq<char>, now_ms: int) -> Option<Seq<char>> {
    let id = unquoted(value);
    if 17 <= id.len() <= 20 && all_digits(id) && digits_value(id) <= u64::MAX && is_snowflake(
        digits_value(id),
        now_ms,
    ) {
        Some(id)
    } else {
        None
    }
}

pub fn normalize_discord_id_at(value: &str, now_ms: i64) -> (r: Option<String>)
    ensures
        match r {
            Some(id) => discord_id(value@, now_ms as int) == Some(id@),
            None => discord_id(value@, now_ms as int) is None,
        },
{
    let chars = chars_of(value);
    let id = unquote(chars.as_slice());
    if id.len() < 17 || id.len() > 20 || !only_digits(id) {
        return None;
    }
    assert(crate::text::is_digit(id@[0]));
    match parse_u64(id) {
        Some(number) => {
            if is_snowflake_at(number, now_ms) {
                Some(string_of(id))
            } else {
                None
            }
        },
        None => None,
    }
}

/// The id in `value`, by the machine's clock.
pub fn normalize_discord_id(value: &str) -> (r: Option<String>)
    ensures
        exists|now_ms: i64|
            now_ms >= 0 && match r {
                Some(id) => #[trigger] discord_id(value@, now_ms as int) == Some(id@),
                None => discord_id(value@, now_ms as int) is None,
            },
{
    let now_ms: i64 = utc_now_ms();
    normalize_discord_id_at(value, now_ms)
}

/// An id that was accepted is accepted again, unchanged, at any later time.
pub proof fn law_discord_id_stable(value: Seq<char>, now_ms: int, later_ms: int)
    requires
        discord_id(value, now_ms) is Some,
        now_ms <= later_ms,
    ensures
        discord_id(discord_id(value, now_ms)->0, later_ms) == discord_id(value, now_ms),
{
    let id = discord_id(value, now_ms)->0;
    assert(crate::text::is_digit(id[0]));
    assert(crate::text::is_digit(id[id.len() - 1]));
    lemma_unquoted_stable(id);
}

// ---------------------------------------------------------------------------
// Tokens
// ---------------------------------------------------------------------------

/// The six bits that a character of either base64 alphabet stands for.
pub open spec fn sextet(c: char) -> Option<nat> {
    if 'A' <= c && c <= 'Z' {
        Some((c as nat - 'A' as nat) as nat)
    } else if 'a' <= c && c <= 'z' {
        Some((c as nat - 'a' as nat + 26) as nat)
    } else if '0' <= c && c <= '9' {
        Some((c as nat - '0' as nat + 52) as nat)
    } else if c == '+' || c == '-' {
        Some(62)
    } else if c == '/' || c == '_' {
        Some(63)
    } else {
        None
    }
}

/// What the characters before the first `=` stand for.
pub open spec fn sextets(s: Seq<char>) -> Option<Seq<nat>>
    decreases s.len(),
{
    if s.len() == 0 || s[0] == '=' {
        Some(Seq::empty())
    } else {
        match (sextet(s[0]), sextets(s.skip(1))) {
            (Some(v), Some(rest)) => Some(seq![v] + rest),
            _ => None,
        }
    }
}

/// The whole bytes in a list of six-bit numbers, highest bits first.
pub open spec fn packed(v: Seq<nat>) -> Seq<u8>
    decreases v.len(),
{
    if v.len() >= 4 {
        let n = v[0] * 0x4_0000 + v[1] * 0x1000 + v[2] * 0x40 + v[3];
        seq![(n / 0x1_0000) as u8, (n / 0x100 % 0x100) as u8, (n % 0x100) as u8] + packed(v.skip(4))
    } else if v.len() == 3 {
        let n = v[0] * 0x1000 + v[1] * 0x40 + v[2];
        seq![(n / 0x400) as u8, (n / 4 % 0x100) as u8]
    } else if v.len() == 2 {
        seq![((v[0] * 0x40 + v[1]) / 0x10) as u8]
    } else {
        Seq::empty()
    }
}

/// The bytes that `input` encodes in base64, with either alphabet and with or
/// without padding.
pub open spec fn base64_decoded(input: Seq<char>) -> Option<Seq<u8>> {
    if input.len() == 0 {
        None
    } else {
        match sextets(input) {
            Some(v) => Some(packed(v)),
            None => None,
        }
    }
}

fn sextet_of(c: char) -> (r: Option<u32>)
    ensures
        match r {
            Some(v) => sextet(c) == Some(v as nat) && v < 64,
            None => sextet(c) is None,
        },
{
    if 'A' <= c && c <= 'Z' {
        Some(c as u32 - 65)
    } else if 'a' <= c && c <= 'z' {
        Some(c as u32 - 97 + 26)
    } else if '0' <= c && c <= '9' {
        Some(c as u32 - 48 + 52)
    } else if c == '+' || c == '-' {
        Some(62)
    } else if c == '/' || c == '_' {
        Some(63)
    } else {
        None
    }
}

pub open spec fn as_numbers(v: Seq<u32>) -> Seq<nat> {
    v.map_values(|x: u32| x as nat)
}

fn read_sextets(s: &[char]) -> (r: Option<Vec<u32>>)
    ensures
        match r {
            Some(v) => sextets(s@) == Some(as_numbers(v@)) && forall|i: int|
                0 <= i < v@.len() ==> #[trigger] v@[i] < 64,
            None => sextets(s@) is None,
        },
{
    let mut out: Vec<u32> = Vec::new();
    let mut i: usize = 0;
    assert(s@.skip(0) =~= s@);
    assert(forall|rest: Seq<nat>| as_numbers(out@) + rest =~= rest);
    while i < s.len() && s[i] != '='
        invariant
            i <= s@.len(),
            forall|k: int| 0 <= k < out@.len() ==> #[trigger] out@[k] < 64,
            sextets(s@) == match sextets(s@.skip(i as int)) {
                Some(rest) => Some(as_numbers(out@) + rest),
                None => None,
            },
        decreases s@.len() - i,
    {
        assert(s@.skip(i as int).skip(1) =~= s@.skip(i + 1));
        match sextet_of(s[i]) {
            Some(v) => {
                let ghost before = as_numbers(out@);
                out.push(v);
                proof {
                    assert(as_numbers(out@) =~= before.push(v as nat));
                    if let Some(rest) = sextets(s@.skip(i + 1)) {
                        assert(before + (seq![v as nat] + rest) =~= as_numbers(out@) + rest);
                    }
                }
            },
            None => {
                return None;
            },
        }
        i = i + 1;
    }
    assert(as_numbers(out@) + Seq::empty() =~= as_numbers(out@));
    Some(out)
}

fn pack(v: &Vec<u32>) -> (r: Vec<u8>)
    requires
        forall|i: int| 0 <= i < v@.len() ==> #[trigger] v@[i] < 64,
    ensures
        r@ == packed(as_numbers(v@)),
{
    let ghost all = as_numbers(v@);
    let mut out: Vec<u8> = Vec::new();
    let mut i: usize = 0;
    let size: usize = v.len();
    assert(all.skip(0) =~= all);
    while size - i >= 4
        invariant
            size == v@.len(),
            i <= size,
            all == as_numbers(v@),
            forall|k: int| 0 <= k < v@.len() ==> #[trigger] v@[k] < 64,
            out@ + packed(all.skip(i as int)) == packed(all),
        decreases size - i,
    {
        let ghost before = out@;
        let ghost rest = all.skip(i as int);
        assert(rest[0] == v@[i as int] && rest[1] == v@[i + 1] && rest[2] == v@[i + 2] && rest[3]
            == v@[i + 3]);
        let n: u32 = v[i] * 0x4_0000 + v[i + 1] * 0x1000 + v[i + 2] * 0x40 + v[i + 3];
        out.push((n / 0x1_0000) as u8);
        out.push((n / 0x100 % 0x100) as u8);
        out.push((n % 0x100) as u8);
        assert(rest.skip(4) =~= all.skip(i + 4));
        assert(before + packed(rest) =~= out@ + packed(all.skip(i + 4)));
        i = i + 4;
    }
    let ghost rest = all.skip(i as int);
    let ghost before = out@;
    if size - i == 3 {
        assert(rest[0] == v@[i as int] && rest[1] == v@[i + 1] && rest[2] == v@[i + 2]);
        let n: u32 = v[i] * 0x1000 + v[i + 1] * 0x40 + v[i + 2];
        out.push((n / 0x400) as u8);
        out.push((n / 4 % 0x100) as u8);
    } else if size - i == 2 {
        assert(rest[0] == v@[i as int] && rest[1] == v@[i + 1]);
        out.push(((v[i] * 0x40 + v[i + 1]) / 0x10) as u8);
    }
    assert(before + packed(rest) =~= out@);
    out
}

pub fn decode_base64_url(input: &str) -> (r: Option<Vec<u8>>)
    ensures
        match r {
            Some(bytes) => base64_decoded(input@) == Some(bytes@),
            None => base64_decoded(input@) is None,
        },
{
    let chars = chars_of(input);
    if chars.len() == 0 {
        return None;
    }
    match read_sextets(chars.as_slice()) {
        Some(v) => Some(pack(&v)),
        None => None,
    }
}

/// The six-bit numbers that `data` is cut into.
pub open spec fn unpacked(data: Seq<u8>) -> Seq<nat>
    decreases data.len(),
{
    if data.len() >= 3 {
        let n = data[0] as nat * 0x1_0000 + data[1] as nat * 0x100 + data[2] as nat;
        seq![n / 0x4_0000, n / 0x1000 % 0x40, n / 0x40 % 0x40, n % 0x40] + unpacked(data.skip(3))
    } else if data.len() == 2 {
        let n = data[0] as nat * 0x100 + data[1] as nat;
        seq![n / 0x400, n / 0x10 % 0x40, n % 0x10 * 4]
    } else if data.len() == 1 {
        seq![data[0] as nat / 4, data[0] as nat % 4 * 0x10]
    } else {
        Seq::empty()
    }
}

/// The two alphabets of base64: they differ in the last two characters.
pub enum Base64Alphabet {
    Standard,
    Url,
}

/// The character that stands for six bits.
pub open spec fn base64_char(v: nat, alphabet: Base64Alphabet) -> char {
    if v < 26 {
        (('A' as nat) + v) as char
    } else if v < 52 {
        (('a' as nat) + v - 26) as char
    } else if v < 62 {
        (('0' as nat) + v - 52) as char
    } else if v == 62 {
        if alphabet is Standard {
            '+'
        } else {
            '-'
        }
    } else if alphabet is Standard {
        '/'
    } else {
        '_'
    }
}

/// What fills up the characters of `length` bytes to a multiple of four.
pub open spec fn base64_padding(length: nat) -> Seq<char> {
    if length % 3 == 1 {
        seq!['=', '=']
    } else if length % 3 == 2 {
        seq!['=']
    } else {
        Seq::empty()
    }
}

/// `data` in base64, with padding where it is asked for.
pub open spec fn base64_encoded(data: Seq<u8>, alphabet: Base64Alphabet, padded: bool) -> Seq<char> {
    unpacked(data).map_values(|v: nat| base64_char(v, alphabet)) + if padded {
        base64_padding(data.len())
    } else {
        Seq::empty()
    }
}

proof fn lemma_unpacked_small(data: Seq<u8>)
    ensures
        forall|i: int| 0 <= i < unpacked(data).len() ==> #[trigger] unpacked(data)[i] < 64,
    decreases data.len(),
{
    if data.len() >= 3 {
        lemma_unpacked_small(data.skip(3));
        let rest = unpacked(data.skip(3));
        assert forall|i: int| 0 <= i < unpacked(data).len() implies #[trigger] unpacked(data)[i]
            < 64 by {
            if i >= 4 {
                assert(unpacked(data)[i] == rest[i - 4]);
            }
        }
    }
}

proof fn lemma_three_bytes(a: nat, b: nat, c: nat)
    requires
        a < 256,
        b < 256,
        c < 256,
    ensures
        ({
            let n = a * 0x1_0000 + b * 0x100 + c;
            &&& (n / 0x4_0000) * 0x4_0000 + (n / 0x1000 % 0x40) * 0x1000 + (n / 0x40 % 0x40) * 0x40
                + n % 0x40 == n
            &&& n / 0x1_0000 == a
            &&& n / 0x100 % 0x100 == b
            &&& n % 0x100 == c
        }),
{
    let n = a * 0x1_0000 + b * 0x100 + c;
    let m = n as u32;
    assert((m / 0x4_0000) * 0x4_0000 + (m / 0x1000 % 0x40) * 0x1000 + (m / 0x40 % 0x40) * 0x40 + m
        % 0x40 == m) by (bit_vector);
    assert(n / 0x100 == a * 0x100 + b);
}

proof fn lemma_two_bytes(a: nat, b: nat)
    requires
        a < 256,
        b < 256,
    ensures
        ({
            let n = a * 0x100 + b;
            let m = (n / 0x400) * 0x1000 + (n / 0x10 % 0x40) * 0x40 + n % 0x10 * 4;
            &&& m == n * 4
            &&& m / 0x400 == a
            &&& m / 4 % 0x100 == b
        }),
{
    let n = (a * 0x100 + b) as u32;
    assert(n < 0x1_0000 ==> (n / 0x400) * 0x1000 + (n / 0x10 % 0x40) * 0x40 + n % 0x10 * 4 == n * 4)
        by (bit_vector);
}

proof fn lemma_packed_unpacked(data: Seq<u8>)
    ensures
        packed(unpacked(data)) == data,
    decreases data.len(),
{
    let v = unpacked(data);
    if data.len() >= 3 {
        let rest = data.skip(3);
        lemma_packed_unpacked(rest);
        assert(v.skip(4) =~= unpacked(rest));
        lemma_three_bytes(data[0] as nat, data[1] as nat, data[2] as nat);
        let n = v[0] * 0x4_0000 + v[1] * 0x1000 + v[2] * 0x40 + v[3];
        let head = seq![(n / 0x1_0000) as u8, (n / 0x100 % 0x100) as u8, (n % 0x100) as u8];
        assert(v.len() >= 4);
        assert(packed(v) == head + packed(v.skip(4)));
        assert(head =~= data.take(3));
        assert(data =~= data.take(3) + rest);
    } else if data.len() == 2 {
        lemma_two_bytes(data[0] as nat, data[1] as nat);
        assert(packed(v) =~= data);
    } else {
        assert(packed(v) =~= data);
    }
}

proof fn lemma_sextets_of_chars(v: Seq<nat>, alphabet: Base64Alphabet, padding: Seq<char>)
    requires
        forall|i: int| 0 <= i < v.len() ==> #[trigger] v[i] < 64,
        padding.len() > 0 ==> padding[0] == '=',
    ensures
        sextets(v.map_values(|x: nat| base64_char(x, alphabet)) + padding) == Some(v),
    decreases v.len(),
{
    let s = v.map_values(|x: nat| base64_char(x, alphabet)) + padding;
    if v.len() > 0 {
        let rest = v.skip(1);
        assert forall|i: int| 0 <= i < rest.len() implies #[trigger] rest[i] < 64 by {
            assert(rest[i] == v[i + 1]);
        }
        lemma_sextets_of_chars(rest, alphabet, padding);
        assert(s.skip(1) =~= rest.map_values(|x: nat| base64_char(x, alphabet)) + padding);
        assert(v[0] < 64);
        assert(s[0] == base64_char(v[0], alphabet));
        assert(sextet(s[0]) == Some(v[0]));
        assert(seq![v[0]] + rest =~= v);
    } else {
        assert(v =~= Seq::empty());
        assert(s =~= padding);
    }
}

/// What was encoded in base64, with either alphabet and with or without padding,
/// decodes to itself.
pub proof fn law_base64_roundtrip(data: Seq<u8>, alphabet: Base64Alphabet, padded: bool)
    requires
        data.len() > 0,
    ensures
        base64_decoded(base64_encoded(data, alphabet, padded)) == Some(data),
{
    lemma_unpacked_small(data);
    lemma_packed_unpacked(data);
    let padding = if padded {
        base64_padding(data.len())
    } else {
        Seq::empty()
    };
    lemma_sextets_of_chars(unpacked(data), alphabet, padding);
    assert(unpacked(data).len() > 0);
}

/// The id that the first part of a token encodes.
pub open spec fn token_user_id(segment: Seq<char>, now_ms: int) -> Option<Seq<char>> {
    match base64_decoded(segment) {
        Some(bytes) => if valid_utf8(bytes) {
            discord_id(trim(decode_utf8(bytes), CharClass::Space), now_ms)
        } else {
            None
        },
        None => None,
    }
}

pub fn decode_token_user_id_at(first_segment: &str, now_ms: i64) -> (r: Option<String>)
    ensures
        match r {
            Some(id) => token_user_id(first_segment@, now_ms as int) == Some(id@),
            None => token_user_id(first_segment@, now_ms as int) is None,
        },
{
    match decode_base64_url(first_segment) {
        Some(bytes) => match utf8_text(bytes.as_slice()) {
            Some(text) => {
                let chars = chars_of(text.as_str());
                let id = string_of(trim_chars(chars.as_slice(), CharClass::Space));
                normalize_discord_id_at(id.as_str(), now_ms)
            },
            None => None,
        },
        None => None,
    }
}

/// The id that the first part of a token encodes, by the machine's clock.
pub fn decode_discord_token_user_id(first_segment: &str) -> (r: Option<String>)
    ensures
        exists|now_ms: i64|
            now_ms >= 0 && match r {
                Some(id) => #[trigger] token_user_id(first_segment@, now_ms as int) == Some(id@),
                None => token_user_id(first_segment@, now_ms as int) is None,
            },
{
    let now_ms: i64 = utc_now_ms();
    decode_token_user_id_at(first_segment, now_ms)
}

// ---------------------------------------------------------------------------
// Whose account a text is about
// ---------------------------------------------------------------------------

/// A key below which another user than the owner is described.
pub open spec fn is_foreign_key(key: Seq<char>) -> bool {
    let k = lower(key);
    ||| k == "other_user"@
    ||| k == "otheruser"@
    ||| k == "recipient"@
    ||| k == "author"@
    ||| k == "sender"@
    ||| k == "member"@
    ||| k == "mentioned_users"@
}

pub fn is_foreign_discord_user_key(key: &str) -> (r: bool)
    ensures
        r == is_foreign_key(key@),
{
    let chars = chars_of(key);
    let k = lower_chars(chars.as_slice());
    let k = k.as_slice();
    is_text(k, "other_user") || is_text(k, "otheruser") || is_text(k, "recipient") || is_text(
        k,
        "author",
    ) || is_text(k, "sender") || is_text(k, "member") || is_text(k, "mentioned_users")
}

/// The later of two positions, where there are any.
pub open spec fn later(a: Option<int>, b: Option<int>) -> Option<int> {
    match (a, b) {
        (Some(x), Some(y)) => if x < y {
            b
        } else {
            a
        },
        (Some(_), None) => a,
        (None, _) => b,
    }
}

/// Where the bytes of `word` stand last in `window`.
pub open spec fn last_word(window: Seq<u8>, word: Seq<char>) -> Option<int> {
    last_at(window, encode_utf8(word))
}

/// Where another user is last spoken of.
pub open spec fn last_foreign(w: Seq<u8>) -> Option<int> {
    later(
        later(
            later(
                later(
                    later(last_word(w, "\"other_user\""@), last_word(w, "\"otheruser\""@)),
                    last_word(w, "\"recipient\""@),
                ),
                last_word(w, "\"author\""@),
            ),
            last_word(w, "\"sender\""@),
        ),
        last_word(w, "\"member\""@),
    )
}

/// Where the owner is last spoken of.
pub open spec fn last_owner(w: Seq<u8>) -> Option<int> {
    later(
        later(
            later(
                later(last_word(w, "\"current_user\""@), last_word(w, "\"currentuser\""@)),
                last_word(w, "\"users\""@),
            ),
            last_word(w, "\"tokenstatus\""@),
        ),
        last_word(w, "\"multiaccountstore\""@),
    )
}

/// In the 260 bytes before `pos` another user is spoken of, and the owner not
/// after that.
pub open spec fn is_foreign_near(text: Seq<u8>, pos: int) -> bool {
    let start = if pos < 260 {
        0
    } else {
        pos - 260
    };
    let w = text.subrange(start, pos);
    match (last_foreign(w), last_owner(w)) {
        (Some(foreign), Some(owner)) => owner <= foreign,
        (Some(_), None) => true,
        (None, _) => false,
    }
}

pub open spec fn as_position(x: Option<usize>) -> Option<int> {
    match x {
        Some(i) => Some(i as int),
        None => None,
    }
}

fn later_of(a: Option<usize>, b: Option<usize>) -> (r: Option<usize>)
    ensures
        as_position(r) == later(as_position(a), as_position(b)),
{
    match (a, b) {
        (Some(x), Some(y)) => if x < y {
            b
        } else {
            a
        },
        (Some(_), None) => a,
        (None, _) => b,
    }
}

fn find_last_word(window: &[u8], word: &str) -> (r: Option<usize>)
    ensures
        as_position(r) == last_word(window@, word@),
{
    rfind_bytes(window, word.as_bytes())
}

/// Whether what stands at byte `pos` of a text in lower case is about another
/// user than the owner.
pub fn is_foreign_context_near_position(text_lower: &str, pos: usize) -> (r: bool)
    requires
        pos <= byte_len(text_lower@),
    ensures
        r == is_foreign_near(encode_utf8(text_lower@), pos as int),
{
    let bytes = text_lower.as_bytes();
    let start: usize = pos.saturating_sub(260);
    let w = vstd::slice::slice_subrange(bytes, start, pos);
    let foreign = later_of(
        later_of(
            later_of(
                later_of(
                    later_of(find_last_word(w, "\"other_user\""), find_last_word(w, "\"otheruser\"")),
                    find_last_word(w, "\"recipient\""),
                ),
                find_last_word(w, "\"author\""),
            ),
            find_last_word(w, "\"sender\""),
        ),
        find_last_word(w, "\"member\""),
    );
    let owner = later_of(
        later_of(
            later_of(
                later_of(
                    find_last_word(w, "\"current_user\""),
                    find_last_word(w, "\"currentuser\""),
                ),
                find_last_word(w, "\"users\""),
            ),
            find_last_word(w, "\"tokenstatus\""),
        ),
        find_last_word(w, "\"multiaccountstore\""),
    );
    match (foreign, owner) {
        (Some(f), Some(o)) => o <= f,
        (Some(_), None) => true,
        (None, _) => false,
    }
}

/// A text, in lower case, that names a store of the owner's accounts.
pub open spec fn names_owner_store(text: Seq<char>) -> bool {
    contains(text, "multiaccountstore"@) || contains(text, "test/token"@) || contains(
        text,
        "user_id_cache"@,
    )
}

/// Whether `text`, in any case, names a store of the owner's accounts.
pub fn text_names_owner_store(text: &str) -> (r: bool)
    ensures
        r == names_owner_store(lower(text@)),
{
    let chars = chars_of(text);
    let t = lower_chars(chars.as_slice());
    let t = t.as_slice();
    has_text(t, "multiaccountstore") || has_text(t, "test/token") || has_text(t, "user_id_cache")
}

pub fn is_discord_owner_store_key(user_key: &[u8]) -> (r: bool)
    ensures
        r == names_owner_store(lower(utf8_lossy(user_key@))),
{
    let text = utf8_text_lossy(user_key);
    text_names_owner_store(text.as_str())
}

pub fn discord_payload_looks_owner_related(bytes: &[u8]) -> (r: bool)
    ensures
        r == names_owner_store(lower(utf8_lossy(bytes@))),
{
    let text = utf8_text_lossy(bytes);
    text_names_owner_store(text.as_str())
}

/// A file name, in lower case, of a table or of a numbered log.
pub open spec fn is_leveldb_name(name: Seq<char>) -> bool {
    ends_with(name, ".ldb"@) || match last_at(name, "."@) {
        Some(dot) => name.skip(dot + 1) == "log"@ && all_digits(name.take(dot)),
        None => false,
    }
}

pub fn is_discord_leveldb_file(path: &str) -> (r: bool)
    ensures
        r == is_leveldb_name(lower(file_name(path@))),
{
    let name = name_of_path(path);
    let chars = chars_of(name.as_str());
    let low = lower_chars(chars.as_slice());
    if finishes_with(low.as_slice(), ".ldb") {
        return true;
    }
    match last_dot(low.as_slice()) {
        Some(dot) => {
            let size: usize = low.len();
            assert(dot < size);
            is_text(tail(low.as_slice(), dot + 1), "log") && only_digits(head(low.as_slice(), dot))
        },
        None => false,
    }
}

/// A piece of a browser's file that may hold an account.
pub open spec fn is_relevant_chunk(text: Seq<char>) -> bool {
    let t = lower(text);
    (contains(t, "discord"@) && (contains(t, "discord.com/users/"@) || contains(
        t,
        "discordapp.com/users/"@,
    ) || (contains(t, "%22id%22%3a%22"@) && contains(t, "%22username%22%3a%22"@)))) || contains(
        t,
        "discord_id="@,
    )
}

pub fn discord_context_chunk_looks_relevant(text: &str) -> (r: bool)
    ensures
        r == is_relevant_chunk(text@),
{
    let chars = chars_of(text);
    let t = lower_chars(chars.as_slice());
    let t = t.as_slice();
    (has_text(t, "discord") && (has_text(t, "discord.com/users/") || has_text(
        t,
        "discordapp.com/users/",
    ) || (has_text(t, "%22id%22%3a%22") && has_text(t, "%22username%22%3a%22")))) || has_text(
        t,
        "discord_id=",
    )
}

// ---------------------------------------------------------------------------
// Pieces
// ---------------------------------------------------------------------------

/// A line break, a tab or a visible ASCII character.
pub open spec fn is_printable(b: u8) -> bool {
    b == 10 || b == 13 || b == 9 || 32 <= b <= 126
}

/// The runs of printable bytes that have ended, where they are long enough, and
/// the one that has not.
pub struct Runs {
    pub done: Seq<Seq<char>>,
    pub current: Seq<char>,
}

pub open spec fn printable_runs(bytes: Seq<u8>, min_len: nat) -> Runs
    decreases bytes.len(),
{
    if bytes.len() == 0 {
        Runs { done: Seq::empty(), current: Seq::empty() }
    } else {
        let before = printable_runs(bytes.drop_last(), min_len);
        if is_printable(bytes.last()) {
            Runs { done: before.done, current: before.current.push(bytes.last() as char) }
        } else if before.current.len() >= min_len {
            Runs { done: before.done.push(before.current), current: Seq::empty() }
        } else {
            Runs { done: before.done, current: Seq::empty() }
        }
    }
}

/// The first `n` of a list, or all where there are fewer.
pub open spec fn first_of<T>(s: Seq<T>, n: nat) -> Seq<T> {
    if s.len() > n {
        s.take(n as int)
    } else {
        s
    }
}

/// The first `max_chunks` runs of at least `min_len` printable bytes. A limit of
/// zero still lets a run through that has ended.
pub open spec fn printable_chunks(bytes: Seq<u8>, min_len: nat, max_chunks: nat) -> Seq<Seq<char>> {
    let runs = printable_runs(bytes, min_len);
    if max_chunks == 0 {
        first_of(runs.done, 1)
    } else if runs.current.len() >= min_len {
        first_of(runs.done.push(runs.current), max_chunks)
    } else {
        first_of(runs.done, max_chunks)
    }
}

/// Cuts a list of texts to its first `n`.
fn keep_first(v: &mut Vec<String>, n: usize)
    ensures
        views(final(v)@) == first_of(views(old(v)@), n as nat),
{
    if v.len() > n {
        v.truncate(n);
        assert(views(v@) =~= views(old(v)@).take(n as int));
    }
}

pub fn extract_printable_chunks(bytes: &[u8], min_len: usize, max_chunks: usize) -> (r: Vec<String>)
    ensures
        views(r@) == printable_chunks(bytes@, min_len as nat, max_chunks as nat),
{
    let mut chunks: Vec<String> = Vec::new();
    let mut current: Vec<char> = Vec::new();
    assert(views(chunks@) =~= Seq::empty());
    assert(current@ =~= Seq::empty());
    for i in 0..bytes.len()
        invariant
            printable_runs(bytes@.take(i as int), min_len as nat) == (Runs {
                done: views(chunks@),
                current: current@,
            }),
    {
        assert(bytes@.take(i + 1).drop_last() =~= bytes@.take(i as int));
        let b: u8 = bytes[i];
        if b == 10 || b == 13 || b == 9 || (32 <= b && b <= 126) {
            current.push(b as char);
        } else {
            if current.len() >= min_len {
                push_view(&mut chunks, string_of(current.as_slice()));
            }
            current = Vec::new();
            assert(current@ =~= Seq::empty());
        }
    }
    assert(bytes@.take(bytes@.len() as int) =~= bytes@);
    if max_chunks == 0 {
        keep_first(&mut chunks, 1);
    } else {
        if current.len() >= min_len {
            push_view(&mut chunks, string_of(current.as_slice()));
        }
        keep_first(&mut chunks, max_chunks);
    }
    chunks
}

/// Line breaks, tabs and visible ASCII characters only.
pub open spec fn all_printable(s: Seq<char>) -> bool {
    forall|i: int| 0 <= i < s.len() ==> (s[i] as u32) < 127 && is_printable(#[trigger] s[i] as u8)
}

proof fn lemma_runs_printable(bytes: Seq<u8>, min_len: nat)
    ensures
        ({
            let runs = printable_runs(bytes, min_len);
            &&& forall|i: int|
                0 <= i < runs.done.len() ==> all_printable(#[trigger] runs.done[i])
                    && runs.done[i].len() >= min_len
            &&& all_printable(runs.current)
        }),
    decreases bytes.len(),
{
    if bytes.len() > 0 {
        lemma_runs_printable(bytes.drop_last(), min_len);
        let before = printable_runs(bytes.drop_last(), min_len);
        let c = bytes.last() as char;
        if is_printable(bytes.last()) {
            assert(c as u8 == bytes.last());
            let grown = before.current.push(c);
            assert forall|i: int| 0 <= i < grown.len() implies (grown[i] as u32) < 127
                && is_printable(#[trigger] grown[i] as u8) by {
                if i < before.current.len() {
                    assert(grown[i] == before.current[i]);
                }
            }
        }
    }
}

/// Every chunk is at least as long as asked for and holds printable characters
/// only, and there are no more chunks than asked for.
pub proof fn law_chunks_bounded(bytes: Seq<u8>, min_len: nat, max_chunks: nat)
    ensures
        ({
            let chunks = printable_chunks(bytes, min_len, max_chunks);
            &&& max_chunks > 0 ==> chunks.len() <= max_chunks
            &&& forall|i: int|
                0 <= i < chunks.len() ==> (#[trigger] chunks[i]).len() >= min_len && all_printable(
                    chunks[i],
                )
        }),
{
    lemma_runs_printable(bytes, min_len);
}

/// What has been seen of brackets and quotes: the open brackets, where the
/// outermost of them stands, and the ranges that were closed.
#[verifier::ext_equal]
pub struct Brackets {
    pub open: Seq<char>,
    pub start: int,
    pub in_string: bool,
    pub escaped: bool,
    pub found: Seq<(int, int)>,
}

pub open spec fn closes(opening: char, closing: char) -> bool {
    (opening == '{' && closing == '}') || (opening == '[' && closing == ']')
}

/// The state after the character `c` at index `i`. Inside quotes brackets do
/// not count; a bracket that does not fit drops all that is open.
pub open spec fn bracket_step(b: Brackets, c: char, i: int) -> Brackets {
    if b.in_string {
        if b.escaped {
            Brackets { escaped: false, ..b }
        } else if c == '\\' {
            Brackets { escaped: true, ..b }
        } else if c == '"' {
            Brackets { in_string: false, ..b }
        } else {
            b
        }
    } else if c == '"' {
        Brackets { in_string: true, ..b }
    } else if c == '{' || c == '[' {
        Brackets {
            start: if b.open.len() == 0 {
                i
            } else {
                b.start
            },
            open: b.open.push(c),
            ..b
        }
    } else if (c == '}' || c == ']') && b.open.len() > 0 {
        if !closes(b.open.last(), c) {
            Brackets { open: Seq::empty(), ..b }
        } else if b.open.len() == 1 {
            Brackets { open: Seq::empty(), found: b.found.push((b.start, i + 1)), ..b }
        } else {
            Brackets { open: b.open.drop_last(), ..b }
        }
    } else {
        b
    }
}

pub open spec fn brackets(s: Seq<char>) -> Brackets
    decreases s.len(),
{
    if s.len() == 0 {
        Brackets {
            open: Seq::empty(),
            start: 0,
            in_string: false,
            escaped: false,
            found: Seq::empty(),
        }
    } else {
        bracket_step(brackets(s.drop_last()), s.last(), s.len() - 1)
    }
}

/// The text of those of `found` that take 8 to `max_len` bytes.
pub open spec fn sized(s: Seq<char>, found: Seq<(int, int)>, max_len: nat) -> Seq<Seq<char>>
    decreases found.len(),
{
    if found.len() == 0 {
        Seq::empty()
    } else {
        let before = sized(s, found.drop_last(), max_len);
        let part = s.subrange(found.last().0, found.last().1);
        if 8 <= byte_len(part) <= max_len {
            before.push(part)
        } else {
            before
        }
    }
}

/// The outermost bracketed parts of a text, the first `max_fragments` of those
/// that take 8 to `max_len` bytes. One is let through even where the limit is zero.
pub open spec fn json_fragments(s: Seq<char>, max_fragments: nat, max_len: nat) -> Seq<Seq<char>> {
    first_of(
        sized(s, brackets(s).found, max_len),
        if max_fragments == 0 {
            1
        } else {
            max_fragments
        },
    )
}

pub fn extract_json_fragments(text: &str, max_fragments: usize, max_len: usize) -> (r: Vec<String>)
    ensures
        views(r@) == json_fragments(text@, max_fragments as nat, max_len as nat),
{
    let chars = chars_of(text);
    let encoded = text.as_bytes();
    let total: usize = encoded.len();
    let mut fragments: Vec<String> = Vec::new();
    let mut open: Vec<char> = Vec::new();
    let mut start: usize = 0;
    let mut start_bytes: usize = 0;
    let mut in_string = false;
    let mut escaped = false;
    let mut offset: usize = 0;
    let ghost mut found = Seq::<(int, int)>::empty();
    assert(views(fragments@) =~= Seq::empty());
    assert(open@ =~= Seq::empty());
    assert(chars@.take(0) =~= Seq::empty());
    for i in 0..chars.len()
        invariant
            chars@ == text@,
            total == byte_len(text@),
            offset == byte_len(chars@.take(i as int)),
            brackets(chars@.take(i as int)) == (Brackets {
                open: open@,
                start: start as int,
                in_string,
                escaped,
                found,
            }),
            start <= i,
            start_bytes == byte_len(chars@.take(start as int)),
            views(fragments@) == sized(chars@, found, max_len as nat),
    {
        let c = chars[i];
        proof {
            assert(chars@.take(i + 1).drop_last() =~= chars@.take(i as int));
            assert(chars@.take(i as int).push(c) =~= chars@.take(i + 1));
            lemma_byte_len_push(chars@.take(i as int), c);
            lemma_byte_len_part(chars@, start as int, i + 1);
        }
        let ghost before = brackets(chars@.take(i as int));
        let ghost seen = found;
        offset = offset + width_of_char(c);
        if in_string {
            if escaped {
                escaped = false;
            } else if c == '\\' {
                escaped = true;
            } else if c == '"' {
                in_string = false;
            }
        } else if c == '"' {
            in_string = true;
        } else if c == '{' || c == '[' {
            if open.len() == 0 {
                start = i;
                start_bytes = offset - 1;
            }
            open.push(c);
        } else if (c == '}' || c == ']') && open.len() > 0 {
            let last = open[open.len() - 1];
            let fits = (last == '{' && c == '}') || (last == '[' && c == ']');
            if !fits {
                open = Vec::new();
                assert(open@ =~= Seq::empty());
            } else if open.len() == 1 {
                open = Vec::new();
                assert(open@ =~= Seq::empty());
                let size: usize = offset - start_bytes;
                proof {
                    found = found.push((start as int, i + 1));
                    assert(found.drop_last() =~= seen);
                }
                assert(size == byte_len(chars@.subrange(start as int, i + 1)));
                if size >= 8 && size <= max_len {
                    let part = vstd::slice::slice_subrange(chars.as_slice(), start, i + 1);
                    push_view(&mut fragments, string_of(part));
                }
            } else {
                open.pop();
                assert(open@ =~= before.open.drop_last());
            }
        }
        assert(brackets(chars@.take(i + 1)) == bracket_step(before, c, i as int));
    }
    assert(chars@.take(chars@.len() as int) =~= chars@);
    let limit: usize = if max_fragments == 0 {
        1
    } else {
        max_fragments
    };
    keep_first(&mut fragments, limit);
    fragments
}

/// There are no more fragments than asked for, and each takes 8 to `max_len` bytes.
pub proof fn law_fragments_bounded(s: Seq<char>, max_fragments: nat, max_len: nat)
    ensures
        max_fragments > 0 ==> json_fragments(s, max_fragments, max_len).len() <= max_fragments,
        forall|i: int|
            0 <= i < json_fragments(s, max_fragments, max_len).len() ==> 8 <= byte_len(
                #[trigger] json_fragments(s, max_fragments, max_len)[i],
            ) <= max_len,
{
    lemma_sized(s, brackets(s).found, max_len);
}

proof fn lemma_sized(s: Seq<char>, found: Seq<(int, int)>, max_len: nat)
    ensures
        forall|i: int|
            0 <= i < sized(s, found, max_len).len() ==> 8 <= byte_len(
                #[trigger] sized(s, found, max_len)[i],
            ) <= max_len,
    decreases found.len(),
{
    if found.len() > 0 {
        lemma_sized(s, found.drop_last(), max_len);
        let before = sized(s, found.drop_last(), max_len);
        let all = sized(s, found, max_len);
        assert forall|i: int| 0 <= i < all.len() implies 8 <= byte_len(#[trigger] all[i])
            <= max_len by {
            if i < before.len() {
                assert(all[i] == before[i]);
            }
        }
    }
}

/// `part` is one bracketed part and nothing else: read by itself, the bracket at
/// its start is closed by the character at its end and not before, every bracket
/// in between is closed by one that fits, and no quote is left open.
pub open spec fn is_bracketed(part: Seq<char>) -> bool {
    &&& part.len() >= 2
    &&& closes(part[0], part.last())
    &&& brackets(part).open.len() == 0
    &&& !brackets(part).in_string
    &&& brackets(part).found == seq![(0int, part.len() as int)]
}

/// The ranges lie inside `s`, one behind the other.
pub open spec fn are_in_order(s: Seq<char>, ranges: Seq<(int, int)>) -> bool {
    &&& forall|i: int|
        0 <= i < ranges.len() ==> 0 <= (#[trigger] ranges[i]).0 < ranges[i].1 <= s.len()
    &&& forall|i: int, j: int|
        0 <= i < j < ranges.len() ==> (#[trigger] ranges[i]).1 <= (#[trigger] ranges[j]).0
}

/// Those of `found` whose text takes 8 to `max_len` bytes.
pub open spec fn sized_ranges(s: Seq<char>, found: Seq<(int, int)>, max_len: nat) -> Seq<(int, int)>
    decreases found.len(),
{
    if found.len() == 0 {
        Seq::empty()
    } else {
        let before = sized_ranges(s, found.drop_last(), max_len);
        if 8 <= byte_len(s.subrange(found.last().0, found.last().1)) <= max_len {
            before.push(found.last())
        } else {
            before
        }
    }
}

/// Where the fragments of a text stand in it.
pub open spec fn fragment_ranges(s: Seq<char>, max_fragments: nat, max_len: nat) -> Seq<(int, int)> {
    first_of(
        sized_ranges(s, brackets(s).found, max_len),
        if max_fragments == 0 {
            1
        } else {
            max_fragments
        },
    )
}

/// What is open, read from where it starts, is open in the same way.
spec fn is_open_from_start(s: Seq<char>) -> bool {
    let b = brackets(s);
    let part = s.subrange(b.start, s.len() as int);
    &&& 0 <= b.start < s.len()
    &&& b.open[0] == s[b.start]
    &&& brackets(part) == (Brackets {
        open: b.open,
        start: 0,
        in_string: b.in_string,
        escaped: b.escaped,
        found: Seq::empty(),
    })
}

proof fn lemma_brackets(s: Seq<char>)
    ensures
        ({
            let b = brackets(s);
            &&& !b.in_string ==> !b.escaped
            &&& b.open.len() > 0 ==> is_open_from_start(s)
            &&& are_in_order(s, b.found)
            &&& forall|i: int|
                0 <= i < b.found.len() ==> is_bracketed(
                    s.subrange((#[trigger] b.found[i]).0, b.found[i].1),
                )
            &&& b.open.len() > 0 ==> forall|i: int|
                0 <= i < b.found.len() ==> (#[trigger] b.found[i]).1 <= b.start
        }),
    decreases s.len(),
{
    if s.len() > 0 {
        let before = s.drop_last();
        let c = s.last();
        lemma_brackets(before);
        let a = brackets(before);
        let b = brackets(s);
        if a.open.len() > 0 {
            let part = s.subrange(a.start, s.len() as int);
            assert(part.drop_last() =~= before.subrange(a.start, before.len() as int));
            assert(part.last() == c);
            assert(part[0] == a.open[0]);
            assert(brackets(part) == bracket_step(brackets(part.drop_last()), c, part.len() - 1));
            if b.found.len() > a.found.len() {
                assert(a.open.last() == a.open[0]);
                assert(brackets(part).found =~= seq![(0int, part.len() as int)]);
                assert(is_bracketed(part));
            } else if b.open.len() > 0 {
                assert(b.start == a.start);
                assert(b.open[0] == a.open[0]);
                assert(is_open_from_start(s));
            }
        } else if b.open.len() > 0 {
            let part = s.subrange(b.start, s.len() as int);
            assert(part =~= seq![c]);
            assert(part.drop_last() =~= Seq::empty());
            assert(brackets(part.drop_last()).open =~= a.open);
            assert(brackets(part) == bracket_step(brackets(part.drop_last()), c, 0));
            assert(brackets(part).open =~= b.open);
            assert(is_open_from_start(s));
        }
        assert forall|i: int| 0 <= i < b.found.len() implies is_bracketed(
            s.subrange((#[trigger] b.found[i]).0, b.found[i].1),
        ) by {
            if i < a.found.len() {
                let (x, y) = a.found[i];
                assert(b.found[i] == a.found[i]);
                assert(s.subrange(x, y) =~= before.subrange(x, y));
            }
        }
    } else {
        assert(brackets(s).found =~= Seq::empty());
    }
}

proof fn lemma_sized_ranges(s: Seq<char>, found: Seq<(int, int)>, max_len: nat)
    requires
        are_in_order(s, found),
        forall|i: int|
            0 <= i < found.len() ==> is_bracketed(
                s.subrange((#[trigger] found[i]).0, found[i].1),
            ),
    ensures
        ({
            let ranges = sized_ranges(s, found, max_len);
            &&& are_in_order(s, ranges)
            &&& ranges.len() > 0 ==> ranges.last().1 <= found.last().1
            &&& sized(s, found, max_len) == ranges.map_values(
                |r: (int, int)| s.subrange(r.0, r.1),
            )
            &&& forall|i: int|
                0 <= i < ranges.len() ==> is_bracketed(
                    s.subrange((#[trigger] ranges[i]).0, ranges[i].1),
                )
        }),
    decreases found.len(),
{
    let ranges = sized_ranges(s, found, max_len);
    if found.len() > 0 {
        let shorter = found.drop_last();
        lemma_sized_ranges(s, shorter, max_len);
        let before = sized_ranges(s, shorter, max_len);
        assert(found[found.len() - 1] == found.last());
        if shorter.len() > 0 {
            assert(shorter.last() == found[found.len() - 2]);
        } else {
            assert(before.len() == 0);
        }
        if ranges.len() > before.len() {
            assert forall|i: int, j: int| 0 <= i < j < ranges.len() implies (
            #[trigger] ranges[i]).1 <= (#[trigger] ranges[j]).0 by {
                assert(ranges[i] == before[i]);
                if j < before.len() {
                    assert(ranges[j] == before[j]);
                } else {
                    let last = before.len() - 1;
                    if i < last {
                        assert(before[i].1 <= before[last].0 < before[last].1);
                    }
                    assert(before[last] == before.last());
                }
            }
        }
    }
    assert(sized(s, found, max_len) =~= ranges.map_values(|r: (int, int)| s.subrange(r.0, r.1)));
}

/// The fragments are parts of the text that do not overlap, in the order in which
/// they stand in it, and the brackets of each balance.
pub proof fn law_fragments_apart(s: Seq<char>, max_fragments: nat, max_len: nat)
    ensures
        ({
            let fragments = json_fragments(s, max_fragments, max_len);
            let ranges = fragment_ranges(s, max_fragments, max_len);
            &&& are_in_order(s, ranges)
            &&& fragments == ranges.map_values(|r: (int, int)| s.subrange(r.0, r.1))
            &&& forall|i: int| 0 <= i < fragments.len() ==> is_bracketed(#[trigger] fragments[i])
        }),
{
    lemma_brackets(s);
    lemma_sized_ranges(s, brackets(s).found, max_len);
    let fragments = json_fragments(s, max_fragments, max_len);
    let ranges = fragment_ranges(s, max_fragments, max_len);
    let all = sized_ranges(s, brackets(s).found, max_len);
    assert(forall|i: int| 0 <= i < ranges.len() ==> ranges[i] == all[i]);
    assert(fragments =~= ranges.map_values(|r: (int, int)| s.subrange(r.0, r.1)));
    assert forall|i: int| 0 <= i < fragments.len() implies is_bracketed(#[trigger] fragments[i]) by {
        assert(fragments[i] == s.subrange(ranges[i].0, ranges[i].1));
    }
}

/// `text` with one level of escapes of JSON strings undone, where there are any.
pub open spec fn unescaped(text: Seq<char>) -> Seq<char> {
    if !contains(text, "\\\""@) && !contains(text, "\\n"@) && !contains(text, "\\r"@) && !contains(
        text,
        "\\t"@,
    ) {
        text
    } else {
        let a = replaced(text, "\\\\\""@, "\""@);
        let b = replaced(a, "\\\""@, "\""@);
        let c = replaced(b, "\\n"@, "\n"@);
        let d = replaced(c, "\\r"@, "\r"@);
        let e = replaced(d, "\\t"@, "\t"@);
        replaced(e, "\\/"@, "/"@)
    }
}

pub fn normalize_escaped_json_text(text: &str) -> (r: String)
    ensures
        r@ == unescaped(text@),
{
    let t = chars_of(text);
    if !has_text(t.as_slice(), "\\\"") && !has_text(t.as_slice(), "\\n") && !has_text(
        t.as_slice(),
        "\\r",
    ) && !has_text(t.as_slice(), "\\t") {
        return text.to_string();
    }
    proof {
        reveal_strlit("\\\\\"");
        reveal_strlit("\\\"");
        reveal_strlit("\\n");
        reveal_strlit("\\r");
        reveal_strlit("\\t");
        reveal_strlit("\\/");
    }
    let a = replace_chars(t.as_slice(), "\\\\\"", "\"");
    let b = replace_chars(a.as_slice(), "\\\"", "\"");
    let c = replace_chars(b.as_slice(), "\\n", "\n");
    let d = replace_chars(c.as_slice(), "\\r", "\r");
    let e = replace_chars(d.as_slice(), "\\t", "\t");
    let f = replace_chars(e.as_slice(), "\\/", "/");
    string_of(f.as_slice())
}

} // verus!
