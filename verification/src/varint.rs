//! Variable-length integers: seven bits a byte, the lowest first, the high bit
//! set in every byte but the last.

use vstd::prelude::*;

verus! {

/// What reading a variable-length integer gives.
pub enum VarintRead {
    /// The number, and the index after its last byte.
    Value { value: nat, next: int },
    /// The input ends inside the number.
    End,
    /// More bytes are marked as continued than the width allows.
    TooLong,
}

/// The integer of at most `left` bytes that starts at `pos`.
pub open spec fn varint(s: Seq<u8>, pos: int, left: nat) -> VarintRead
    decreases left,
{
    if left == 0 {
        VarintRead::TooLong
    } else if pos < 0 || pos >= s.len() {
        VarintRead::End
    } else if s[pos] < 0x80 {
        VarintRead::Value { value: s[pos] as nat, next: pos + 1 }
    } else {
        match varint(s, pos + 1, (left - 1) as nat) {
            VarintRead::Value { value, next } => VarintRead::Value {
                value: (s[pos] - 0x80) as nat + 128 * value,
                next,
            },
            other => other,
        }
    }
}

/// The index at which a reader of at most `left` bytes stops.
pub open spec fn varint_stop(s: Seq<u8>, pos: int, left: nat) -> int
    decreases left,
{
    if left == 0 || pos < 0 || pos >= s.len() {
        pos
    } else if s[pos] < 0x80 {
        pos + 1
    } else {
        varint_stop(s, pos + 1, (left - 1) as nat)
    }
}

pub open spec fn varint32(s: Seq<u8>, pos: int) -> Result<(u32, int), Seq<char>> {
    match varint(s, pos, 5) {
        VarintRead::Value { value, next } => Ok(((value % 0x1_0000_0000) as u32, next)),
        VarintRead::End => Err("Unexpected end of payload while reading varint32."@),
        VarintRead::TooLong => Err("Invalid varint32: too many continuation bytes."@),
    }
}

pub open spec fn varint64(s: Seq<u8>, pos: int) -> Result<(u64, int), Seq<char>> {
    match varint(s, pos, 10) {
        VarintRead::Value { value, next } => Ok(((value % 0x1_0000_0000_0000_0000) as u64, next)),
        VarintRead::End => Err("Unexpected end of payload while reading varint64."@),
        VarintRead::TooLong => Err("Invalid varint64: too many continuation bytes."@),
    }
}

/// The bytes that encode `n`.
pub open spec fn varint_bytes(n: nat) -> Seq<u8>
    decreases n,
{
    if n < 128 {
        seq![n as u8]
    } else {
        seq![(n % 128 + 128) as u8] + varint_bytes(n / 128)
    }
}

pub open spec fn pow128(n: nat) -> nat
    decreases n,
{
    if n == 0 {
        1
    } else {
        128 * pow128((n - 1) as nat)
    }
}

proof fn lemma_pow128_bound(i: nat, n: nat)
    requires
        i <= n,
    ensures
        0 < pow128(i) <= pow128(n),
    decreases n,
{
    if i < n {
        lemma_pow128_bound(i, (n - 1) as nat);
    } else if n > 0 {
        lemma_pow128_bound((n - 1) as nat, (n - 1) as nat);
    }
}

/// A number that fits in `left` bytes reads back from its encoding, wherever
/// that stands and whatever follows.
pub proof fn law_varint_roundtrip(n: nat, before: Seq<u8>, after: Seq<u8>, left: nat)
    requires
        0 < left,
        n < pow128(left),
    ensures
        varint(before + varint_bytes(n) + after, before.len() as int, left)
            == (VarintRead::Value { value: n, next: (before.len() + varint_bytes(n).len()) as int }),
    decreases n,
{
    let s = before + varint_bytes(n) + after;
    let pos = before.len() as int;
    if n < 128 {
        assert(s[pos] == n as u8);
    } else {
        let first = (n % 128 + 128) as u8;
        assert(s[pos] == first);
        assert(n / 128 < pow128((left - 1) as nat)) by (nonlinear_arith)
            requires
                n < 128 * pow128((left - 1) as nat),
        ;
        law_varint_roundtrip(n / 128, before.push(first), after, (left - 1) as nat);
        assert(before.push(first) + varint_bytes(n / 128) + after =~= s);
    }
}

/// A 32-bit number reads back from its encoding.
pub proof fn law_varint32_roundtrip(n: u32, before: Seq<u8>, after: Seq<u8>)
    ensures
        varint32(before + varint_bytes(n as nat) + after, before.len() as int) == Ok::<
            (u32, int),
            Seq<char>,
        >((n, (before.len() + varint_bytes(n as nat).len()) as int)),
{
    reveal_with_fuel(pow128, 6);
    law_varint_roundtrip(n as nat, before, after, 5);
}

/// A 64-bit number reads back from its encoding.
pub proof fn law_varint64_roundtrip(n: u64, before: Seq<u8>, after: Seq<u8>)
    ensures
        varint64(before + varint_bytes(n as nat) + after, before.len() as int) == Ok::<
            (u64, int),
            Seq<char>,
        >((n, (before.len() + varint_bytes(n as nat).len()) as int)),
{
    reveal_with_fuel(pow128, 11);
    law_varint_roundtrip(n as nat, before, after, 10);
}

/// What a reader of a variable-length integer stops with.
pub enum VarintEnd {
    Value(u128),
    End,
    TooLong,
}

/// Reads the integer of at most `limit` bytes at `position`, and moves
/// `position` past what was read.
fn read_varint(payload: &[u8], position: &mut usize, limit: usize) -> (r: VarintEnd)
    requires
        limit <= 10,
    ensures
        *final(position) == varint_stop(payload@, *old(position) as int, limit as nat),
        match r {
            VarintEnd::Value(v) => varint(payload@, *old(position) as int, limit as nat) == (
            VarintRead::Value { value: v as nat, next: *final(position) as int }),
            VarintEnd::End => varint(payload@, *old(position) as int, limit as nat)
                == VarintRead::End,
            VarintEnd::TooLong => varint(payload@, *old(position) as int, limit as nat)
                == VarintRead::TooLong,
        },
{
    let mut value: u128 = 0;
    let mut scale: u128 = 1;
    let ghost start = *position as int;
    proof {
        reveal_with_fuel(pow128, 11);
    }
    for i in 0..limit
        invariant
            limit <= 10,
            start == *old(position),
            scale == pow128(i as nat),
            scale <= 0x4000_0000_0000_0000_00,
            value < scale,
            varint_stop(payload@, start, limit as nat) == varint_stop(
                payload@,
                *position as int,
                (limit - i) as nat,
            ),
            match varint(payload@, *position as int, (limit - i) as nat) {
                VarintRead::Value { value: rest, next } => varint(payload@, start, limit as nat)
                    == (VarintRead::Value { value: value as nat + scale as nat * rest, next }),
                other => varint(payload@, start, limit as nat) == other,
            },
    {
        let ghost at = *position as int;
        if *position >= payload.len() {
            return VarintEnd::End;
        }
        let byte: u8 = payload[*position];
        *position = *position + 1;
        proof {
            lemma_pow128_bound(i as nat, 9);
            reveal_with_fuel(pow128, 11);
        }
        if byte < 0x80 {
            assert((value as nat) + (scale as nat) * (byte as nat) < (scale as nat) * 128)
                by (nonlinear_arith)
                requires
                    value < scale,
                    byte < 0x80,
            ;
            return VarintEnd::Value(value + scale * (byte as u128));
        }
        let low: u128 = (byte - 0x80) as u128;
        proof {
            assert((value as nat) + (scale as nat) * (low as nat) < (scale as nat) * 128)
                by (nonlinear_arith)
                requires
                    value < scale,
                    low < 0x80,
            ;
            match varint(payload@, at + 1, (limit - i - 1) as nat) {
                VarintRead::Value { value: rest, next } => {
                    assert(value as nat + scale as nat * (low as nat + 128 * rest) == (value as nat
                        + scale as nat * low as nat) + (scale as nat * 128) * rest)
                        by (nonlinear_arith);
                },
                _ => {},
            }
        }
        value = value + scale * low;
        scale = scale * 128;
    }
    VarintEnd::TooLong
}

/// Reads a 32-bit variable-length integer at `position`, and moves `position`
/// past what was read. Bits beyond the 32nd are dropped.
pub fn read_varint32(payload: &[u8], position: &mut usize) -> (r: Result<u32, String>)
    ensures
        *final(position) == varint_stop(payload@, *old(position) as int, 5),
        match r {
            Ok(v) => varint32(payload@, *old(position) as int) == Ok::<(u32, int), Seq<char>>(
                (v, *final(position) as int),
            ),
            Err(e) => varint32(payload@, *old(position) as int) == Err::<(u32, int), Seq<char>>(
                e@,
            ),
        },
{
    match read_varint(payload, position, 5) {
        VarintEnd::Value(v) => Ok((v % 0x1_0000_0000) as u32),
        VarintEnd::End => Err("Unexpected end of payload while reading varint32.".to_string()),
        VarintEnd::TooLong => Err("Invalid varint32: too many continuation bytes.".to_string()),
    }
}

/// Reads a 64-bit variable-length integer at `position`, and moves `position`
/// past what was read. Bits beyond the 64th are dropped.
pub fn read_varint64(payload: &[u8], position: &mut usize) -> (r: Result<u64, String>)
    ensures
        *final(position) == varint_stop(payload@, *old(position) as int, 10),
        match r {
            Ok(v) => varint64(payload@, *old(position) as int) == Ok::<(u64, int), Seq<char>>(
                (v, *final(position) as int),
            ),
            Err(e) => varint64(payload@, *old(position) as int) == Err::<(u64, int), Seq<char>>(
                e@,
            ),
        },
{
    match read_varint(payload, position, 10) {
        VarintEnd::Value(v) => Ok((v % 0x1_0000_0000_0000_0000) as u64),
        VarintEnd::End => Err("Unexpected end of payload while reading varint64.".to_string()),
        VarintEnd::TooLong => Err("Invalid varint64: too many continuation bytes.".to_string()),
    }
}

/// A number that was read does not change when bytes are added behind the input.
pub proof fn lemma_varint_extends(s: Seq<u8>, more: Seq<u8>, pos: int, left: nat)
    requires
        varint(s, pos, left) is Value,
    ensures
        varint(s + more, pos, left) == varint(s, pos, left),
    decreases left,
{
    assert((s + more)[pos] == s[pos]);
    if s[pos] >= 0x80 {
        lemma_varint_extends(s, more, pos + 1, (left - 1) as nat);
    }
}

/// A reader moves forward, and never past the end of the input.
pub proof fn lemma_varint_next(s: Seq<u8>, pos: int, left: nat)
    ensures
        varint_stop(s, pos, left) >= pos,
        pos <= s.len() ==> varint_stop(s, pos, left) <= s.len(),
        match varint(s, pos, left) {
            VarintRead::Value { value, next } => pos < next <= s.len() && next == varint_stop(
                s,
                pos,
                left,
            ),
            _ => true,
        },
    decreases left,
{
    if left > 0 && 0 <= pos < s.len() && s[pos] >= 0x80 {
        lemma_varint_next(s, pos + 1, (left - 1) as nat);
    }
}

} // verus!
