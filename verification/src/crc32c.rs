//! The CRC-32C checksum and the form in which LevelDB stores it.

use vstd::prelude::*;

verus! {

/// The Castagnoli polynomial, bits reversed.
pub const POLYNOMIAL: u32 = 0x82f6_3b78;

/// What is added to a rotated checksum before it is stored.
pub const MASK_DELTA: u32 = 0xa282_ead8;

/// The state after one bit: shifted right, the polynomial taken off where the
/// bit shifted out was set.
pub open spec fn crc_bit(state: u32) -> u32 {
    if state & 1 == 1 {
        (state >> 1) ^ POLYNOMIAL
    } else {
        state >> 1
    }
}

pub open spec fn crc_bits(state: u32, n: nat) -> u32
    decreases n,
{
    if n == 0 {
        state
    } else {
        crc_bit(crc_bits(state, (n - 1) as nat))
    }
}

/// The state after the bytes of `data`.
pub open spec fn crc_state(state: u32, data: Seq<u8>) -> u32
    decreases data.len(),
{
    if data.len() == 0 {
        state
    } else {
        crc_bits(crc_state(state, data.drop_last()) ^ (data.last() as u32), 8)
    }
}

/// The CRC-32C of `data`.
pub open spec fn crc(data: Seq<u8>) -> u32 {
    !crc_state(!0u32, data)
}

/// `x` with its 32 bits rotated right by 15.
pub open spec fn rotated(x: u32) -> u32 {
    (x >> 15) | (x << 17)
}

/// The stored form of a checksum: rotated, then moved by a constant.
pub open spec fn masked(x: u32) -> u32 {
    ((rotated(x) + MASK_DELTA) % 0x1_0000_0000) as u32
}

pub fn crc32c_extend(state: u32, data: &[u8]) -> (r: u32)
    ensures
        r == crc_state(state, data@),
{
    let mut current: u32 = state;
    for i in 0..data.len()
        invariant
            current == crc_state(state, data@.take(i as int)),
    {
        assert(data@.take(i + 1).drop_last() == data@.take(i as int));
        current = current ^ (data[i] as u32);
        let ghost start = current;
        for n in 0..8u32
            invariant
                current == crc_bits(start, n as nat),
        {
            if current & 1 == 1 {
                current = (current >> 1) ^ POLYNOMIAL;
            } else {
                current = current >> 1;
            }
        }
    }
    assert(data@.take(data@.len() as int) == data@);
    current
}

pub fn crc32c(data: &[u8]) -> (r: u32)
    ensures
        r == crc(data@),
{
    !crc32c_extend(!0u32, data)
}

/// The state after a concatenation is the state after its two parts in turn.
pub proof fn law_crc_state_concat(state: u32, a: Seq<u8>, b: Seq<u8>)
    ensures
        crc_state(state, a + b) == crc_state(crc_state(state, a), b),
    decreases b.len(),
{
    if b.len() == 0 {
        assert(a + b =~= a);
    } else {
        assert((a + b).drop_last() =~= a + b.drop_last());
        law_crc_state_concat(state, a, b.drop_last());
    }
}

/// The checksum of `prefix` followed by `payload`.
pub fn crc32c_with_leading_byte(prefix: u8, payload: &[u8]) -> (r: u32)
    ensures
        r == crc(seq![prefix] + payload@),
{
    let first: [u8; 1] = [prefix];
    assert(first@ =~= seq![prefix]);
    let state: u32 = crc32c_extend(!0u32, &first);
    proof {
        law_crc_state_concat(!0u32, seq![prefix], payload@);
    }
    !crc32c_extend(state, payload)
}

/// The checksum of `payload` followed by `suffix`.
pub fn crc32c_with_trailing_byte(payload: &[u8], suffix: u8) -> (r: u32)
    ensures
        r == crc(payload@.push(suffix)),
{
    let last: [u8; 1] = [suffix];
    assert(last@ =~= seq![suffix]);
    let state: u32 = crc32c_extend(!0u32, payload);
    proof {
        law_crc_state_concat(!0u32, payload@, seq![suffix]);
        assert(payload@ + seq![suffix] =~= payload@.push(suffix));
    }
    !crc32c_extend(state, &last)
}

pub fn mask_crc32c(crc: u32) -> (r: u32)
    ensures
        r == masked(crc),
{
    ((crc >> 15) | (crc << 17)).wrapping_add(MASK_DELTA)
}

/// Whether `stored_masked` is the stored form of the checksum of the type byte
/// followed by the payload.
pub fn verify_wal_record_checksum(stored_masked: u32, record_type: u8, payload: &[u8]) -> (r: bool)
    ensures
        r == (stored_masked == masked(crc(seq![record_type] + payload@))),
{
    stored_masked == mask_crc32c(crc32c_with_leading_byte(record_type, payload))
}

/// Two checksums with the same stored form are the same.
pub proof fn law_mask_injective(a: u32, b: u32)
    requires
        masked(a) == masked(b),
    ensures
        a == b,
{
    assert(rotated(a) == rotated(b));
    assert((a >> 15) | (a << 17) == (b >> 15) | (b << 17) ==> a == b) by (bit_vector);
}

} // verus!
