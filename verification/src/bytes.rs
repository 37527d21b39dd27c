//! Little-endian numbers and byte ranges.

use vstd::prelude::*;
use vstd::slice::slice_subrange;

verus! {

/// The number whose little-endian bytes are `s`.
pub open spec fn le(s: Seq<u8>) -> nat
    decreases s.len(),
{
    if s.len() == 0 {
        0
    } else {
        s[0] as nat + 256 * le(s.skip(1))
    }
}

/// The number in the `n` bytes of `s` from index `at` on.
pub open spec fn le_at(s: Seq<u8>, at: int, n: int) -> nat {
    le(s.subrange(at, at + n))
}

/// The `n` little-endian bytes of `value`.
pub open spec fn le_bytes(value: nat, n: nat) -> Seq<u8>
    decreases n,
{
    if n == 0 {
        Seq::empty()
    } else {
        seq![(value % 256) as u8] + le_bytes(value / 256, (n - 1) as nat)
    }
}

/// The value that fits in `n` bytes reads back from its bytes.
pub proof fn lemma_le_roundtrip(value: nat, n: nat)
    requires
        value < pow256(n),
    ensures
        le(le_bytes(value, n)) == value,
        le_bytes(value, n).len() == n,
    decreases n,
{
    if n > 0 {
        assert(value / 256 < pow256((n - 1) as nat)) by (nonlinear_arith)
            requires
                value < 256 * pow256((n - 1) as nat),
        ;
        lemma_le_roundtrip(value / 256, (n - 1) as nat);
        let s = le_bytes(value, n);
        assert(s.skip(1) =~= le_bytes(value / 256, (n - 1) as nat));
    }
}

/// 256 to the power `n`.
pub open spec fn pow256(n: nat) -> nat
    decreases n,
{
    if n == 0 {
        1
    } else {
        256 * pow256((n - 1) as nat)
    }
}

pub proof fn lemma_le_bound(s: Seq<u8>)
    ensures
        le(s) < pow256(s.len()),
    decreases s.len(),
{
    if s.len() > 0 {
        lemma_le_bound(s.skip(1));
    }
}

/// The number in the `n` bytes of `s` from index `at` on.
pub fn read_le(s: &[u8], at: usize, n: usize) -> (r: u64)
    requires
        n <= 8,
        at + n <= s@.len(),
    ensures
        r as nat == le_at(s@, at as int, n as int),
        r < pow256(n as nat),
    decreases n,
{
    proof {
        let part = s@.subrange(at as int, at + n);
        lemma_le_bound(part);
        reveal_with_fuel(pow256, 9);
        if n > 0 {
            assert(part.skip(1) =~= s@.subrange(at + 1, at + n));
            assert(pow256(n as nat) <= 0x1_0000_0000_0000_0000);
        }
    }
    if n == 0 || at >= s.len() {
        0
    } else {
        let rest: u64 = read_le(s, at + 1, n - 1);
        (s[at] as u64) + 256 * rest
    }
}

pub fn read_u16(s: &[u8], at: usize) -> (r: u16)
    requires
        at + 2 <= s@.len(),
    ensures
        r as nat == le_at(s@, at as int, 2),
{
    let v: u64 = read_le(s, at, 2);
    proof {
        reveal_with_fuel(pow256, 3);
    }
    v as u16
}

pub fn read_u32(s: &[u8], at: usize) -> (r: u32)
    requires
        at + 4 <= s@.len(),
    ensures
        r as nat == le_at(s@, at as int, 4),
{
    let v: u64 = read_le(s, at, 4);
    proof {
        reveal_with_fuel(pow256, 5);
    }
    v as u32
}

pub fn read_u64(s: &[u8], at: usize) -> (r: u64)
    requires
        at + 8 <= s@.len(),
    ensures
        r as nat == le_at(s@, at as int, 8),
{
    read_le(s, at, 8)
}

/// The bytes of `s` from `from` up to, but not with, `to`.
pub fn byte_range(s: &[u8], from: usize, to: usize) -> (r: Vec<u8>)
    requires
        from <= to <= s@.len(),
    ensures
        r@ == s@.subrange(from as int, to as int),
{
    let mut out: Vec<u8> = Vec::new();
    out.extend_from_slice(slice_subrange(s, from, to));
    assert(out@ =~= s@.subrange(from as int, to as int));
    out
}

/// Adds the bytes of `s` from `from` up to, but not with, `to` at the end of `out`.
pub fn push_range(out: &mut Vec<u8>, s: &[u8], from: usize, to: usize)
    requires
        from <= to <= s@.len(),
    ensures
        final(out)@ == old(out)@ + s@.subrange(from as int, to as int),
{
    out.extend_from_slice(slice_subrange(s, from, to));
    assert(out@ =~= old(out)@ + s@.subrange(from as int, to as int));
}

/// A copy of `s`.
pub fn copy_bytes(s: &[u8]) -> (r: Vec<u8>)
    ensures
        r@ == s@,
{
    let r = byte_range(s, 0, s.len());
    assert(s@.subrange(0, s@.len() as int) =~= s@);
    r
}

/// `v` with the bits that do not fit in a `usize` dropped.
pub open spec fn usize_bits(v: u64) -> nat {
    v as nat % (usize::MAX as nat + 1)
}

/// A number that fits in a `usize` keeps all its bits.
pub proof fn lemma_usize_bits(v: u64)
    requires
        v <= usize::MAX,
    ensures
        usize_bits(v) == v,
{
    vstd::arithmetic::div_mod::lemma_small_mod(v as nat, usize::MAX as nat + 1);
}

pub fn to_usize_bits(v: u64) -> (r: usize)
    ensures
        r as nat == usize_bits(v),
{
    assert(usize::MAX == 0xffff_ffff || usize::MAX == 0xffff_ffff_ffff_ffff);
    if v <= usize::MAX as u64 {
        proof {
            lemma_usize_bits(v);
        }
        v as usize
    } else {
        (v % 0x1_0000_0000) as usize
    }
}

} // verus!
