//! What the reading of damaged LevelDB files promises: what is sound is read, and
//! what is not is told.

use vstd::prelude::*;

use crate::bytes::{le_at, le_bytes, lemma_le_roundtrip, pow256};
use crate::crc32c::{crc, crc_bits, crc_state, masked};
use crate::snappy::{decompressed, element};
use crate::table::{table_block, table_footer, BlockHandle, EntryView};
use crate::text::{decimal, hex};
use crate::varint::{varint, varint32, varint64, VarintRead};
use crate::viewer::{ldb_entry, with_entries, TableScan};
use crate::wal::{
    assembled, logical_records, operations_from, physical_from, write_batch, LogicalView,
    OperationView, PhysicalParseView, PhysicalView, WalRecordType,
};

verus! {

// ---------------------------------------------------------------------------
// Checksums
// ---------------------------------------------------------------------------

/// One bit of the division by the Castagnoli polynomial, lowest bit first.
pub open spec fn divided(x: u32) -> u32 {
    if x % 2 == 1 {
        (x / 2) as u32 ^ 0x82f6_3b78
    } else {
        x / 2
    }
}

/// A checksum is CRC-32C: all bits are set at the start and turned over at the end,
/// and each byte is taken in with eight steps of the division. Its stored form is
/// rotated right by 15 bits and moved by a constant.
pub proof fn law_checksum(state: u32, data: Seq<u8>, byte: u8, sum: u32)
    ensures
        crc(Seq::empty()) == 0,
        crc(data) == !crc_state(0xffff_ffff, data),
        crc_state(state, data.push(byte)) == divided(
            divided(
                divided(
                    divided(
                        divided(
                            divided(divided(divided(crc_state(state, data) ^ (byte as u32)))),
                        ),
                    ),
                ),
            ),
        ),
        masked(sum) == ((sum / 0x8000 + sum % 0x8000 * 0x2_0000) + 0xa282_ead8) % 0x1_0000_0000,
{
    assert(!0u32 == 0xffff_ffffu32) by (bit_vector);
    assert(!0xffff_ffffu32 == 0u32) by (bit_vector);
    assert(data.push(byte).drop_last() =~= data);
    reveal_with_fuel(crc_bits, 9);
    assert forall|x: u32| #[trigger] crate::crc32c::crc_bit(x) == divided(x) by {
        assert(x & 1 == x % 2) by (bit_vector);
        assert(x >> 1 == x / 2) by (bit_vector);
    }
    let r = (sum >> 15) | (sum << 17);
    assert(r % 0x2_0000 == sum / 0x8000 && r / 0x2_0000 == sum % 0x8000) by (bit_vector)
        requires
            r == (sum >> 15) | (sum << 17),
    ;
}

// ---------------------------------------------------------------------------
// Write-ahead logs
// ---------------------------------------------------------------------------

/// The bytes of a physical record with any checksum, length and type.
pub open spec fn written_record(checksum: u32, length: u16, kind: u8, payload: Seq<u8>) -> Seq<u8> {
    le_bytes(checksum as nat, 4) + le_bytes(length as nat, 2) + seq![kind] + payload
}

pub open spec fn kind_of(kind: u8) -> WalRecordType {
    if kind == 1 {
        WalRecordType::Full
    } else if kind == 2 {
        WalRecordType::First
    } else if kind == 3 {
        WalRecordType::Middle
    } else {
        WalRecordType::Last
    }
}

/// What is made of a record that stands anywhere in a log, in blocks of 32768 bytes,
/// of which its header takes 7. One of the types 1 to 4 is read, with a warning where
/// its checksum is not that of its type and payload. One of another type is passed
/// over with a warning, and one that is longer than what is left of its block or of
/// the log ends the block or the log with a warning. Zeros are passed over.
pub proof fn law_any_record(
    before: Seq<u8>,
    checksum: u32,
    length: u16,
    kind: u8,
    payload: Seq<u8>,
    after: Seq<u8>,
    done: PhysicalParseView,
)
    requires
        before.len() % 32768 + 7 <= 32768,
        payload.len() == length || after.len() == 0,
        payload.len() <= length,
    ensures
        ({
            let all = before + written_record(checksum, length, kind, payload) + after;
            let at = before.len() as int;
            let left = 32768 - at % 32768;
            let empty = checksum == 0 && length == 0 && kind == 0;
            let result = physical_from(all, at, done);
            let warned = |text: Seq<char>| PhysicalParseView {
                records: done.records,
                warnings: done.warnings.push(text),
            };
            &&& empty ==> result == physical_from(all, at + 7, done)
            &&& !empty && 7 + length > left ==> result == physical_from(
                all,
                at + left,
                warned(
                    "Physical record at offset "@ + decimal(at as nat) + " has invalid length "@
                        + decimal(length as nat) + " (block remainder "@ + decimal(
                        (left - 7) as nat,
                    ) + ")."@,
                ),
            )
            &&& !empty && 7 + length <= left && payload.len() < length ==> result == warned(
                "Truncated physical record at offset "@ + decimal(at as nat) + " (declared "@
                    + decimal(length as nat) + " byte payload)."@,
            )
            &&& !empty && 7 + length <= left && payload.len() == length && !(1 <= kind <= 4)
                ==> result == physical_from(
                all,
                at + 7 + length,
                warned(
                    "Unknown WAL record type "@ + decimal(kind as nat) + " at offset "@ + decimal(
                        at as nat,
                    ) + "."@,
                ),
            )
            &&& 7 + length <= left && payload.len() == length && 1 <= kind <= 4 ==> {
                let sound = checksum == masked(crc(seq![kind] + payload));
                result == physical_from(
                    all,
                    at + 7 + length,
                    (PhysicalParseView {
                        records: done.records.push(
                            (PhysicalView {
                                offset: at,
                                record_type: kind_of(kind),
                                payload,
                                checksum_ok: sound,
                            }),
                        ),
                        warnings: if sound {
                            done.warnings
                        } else {
                            done.warnings.push(
                                "Checksum mismatch at offset "@ + decimal(at as nat)
                                    + ": expected masked CRC "@ + hex(checksum as nat, 8) + "."@,
                            )
                        },
                    }),
                )
            }
        }),
{
    reveal_with_fuel(pow256, 5);
    lemma_le_roundtrip(checksum as nat, 4);
    lemma_le_roundtrip(length as nat, 2);
    let all = before + written_record(checksum, length, kind, payload) + after;
    let at = before.len() as int;
    assert(all.subrange(at, at + 4) =~= le_bytes(checksum as nat, 4));
    assert(all.subrange(at + 4, at + 6) =~= le_bytes(length as nat, 2));
    assert(all[at + 6] == kind);
    if payload.len() == length {
        assert(all.subrange(at + 7, at + 7 + payload.len()) =~= payload);
    }
}

/// Less than a header at the end of a block or of a log is passed over.
pub proof fn law_rest_of_block(data: Seq<u8>, at: int, done: PhysicalParseView)
    requires
        0 <= at < data.len(),
    ensures
        at % 32768 > 32761 ==> physical_from(data, at, done) == physical_from(
            data,
            at - at % 32768 + 32768,
            done,
        ),
        at % 32768 <= 32761 && at + 7 > data.len() ==> physical_from(data, at, done) == done,
{
}

/// A part without the one before it is dropped and told of, and so is a record that
/// was begun and not ended.
pub proof fn law_stray_parts(before: Seq<PhysicalView>, r: PhysicalView)
    ensures
        ({
            let a = assembled(before);
            let b = assembled(before.push(r));
            let at = decimal(r.offset as nat);
            &&& a.pending is None && r.record_type is Middle ==> b.records == a.records
                && b.pending is None && b.warnings == a.warnings.push(
                "Found MIDDLE fragment without FIRST at offset "@ + at + "."@,
            )
            &&& a.pending is None && r.record_type is Last ==> b.records == a.records
                && b.pending is None && b.warnings == a.warnings.push(
                "Found LAST fragment without FIRST at offset "@ + at + "."@,
            )
            &&& a.pending is Some && r.record_type is First ==> b.records == a.records
                && b.pending is Some && b.pending->0.payload == r.payload && b.warnings
                == a.warnings.push(
                "Discarded unterminated fragmented record started at offset "@ + decimal(
                    a.pending->0.offset as nat,
                ) + "."@,
            )
            &&& r.record_type is Full ==> b.pending is None && b.records == a.records.push(
                (LogicalView {
                    offset: r.offset,
                    payload: r.payload,
                    checksum_ok: r.checksum_ok,
                    fragments: 1,
                }),
            )
            &&& a.pending is Some && r.record_type is Full ==> b.warnings == a.warnings.push(
                "Unterminated fragmented record started at offset "@ + decimal(
                    a.pending->0.offset as nat,
                ) + "."@,
            )
            &&& a.pending is None && r.record_type is Full ==> b.warnings == a.warnings
            &&& logical_records(before).records == a.records
            &&& a.pending is None ==> logical_records(before).warnings == a.warnings
            &&& a.pending is Some ==> logical_records(before).warnings == a.warnings.push(
                "WAL ended while a fragmented record from offset "@ + decimal(
                    a.pending->0.offset as nat,
                ) + " was still open."@,
            )
        }),
{
    assert(before.push(r).drop_last() =~= before);
}

/// A payload that is no batch is refused, with the reason: it is shorter than its
/// head, counts more than a million operations, or has an operation of a type that
/// is not 0 or 1.
pub proof fn law_batch_refused(payload: Seq<u8>, index: int, count: int, pos: int, done: Seq<OperationView>)
    ensures
        payload.len() < 12 ==> write_batch(payload) == Err::<crate::wal::WriteBatchView, Seq<char>>(
            "WriteBatch payload too short: "@ + decimal(payload.len()) + " bytes (minimum 12)."@,
        ),
        payload.len() >= 12 && le_at(payload, 8, 4) > 1_000_000 ==> write_batch(payload) == Err::<
            crate::wal::WriteBatchView,
            Seq<char>,
        >(
            "Declared entry count "@ + decimal(le_at(payload, 8, 4))
                + " is unreasonably large."@,
        ),
        0 <= index < count && pos >= payload.len() ==> operations_from(
            payload,
            index,
            count,
            pos,
            done,
        ) == Err::<(Seq<OperationView>, int), Seq<char>>(
            "Unexpected end of payload before entry "@ + decimal((index + 1) as nat) + " tag."@,
        ),
        0 <= index < count && 0 <= pos < payload.len() && payload[pos] > 1 ==> operations_from(
            payload,
            index,
            count,
            pos,
            done,
        ) is Err,
{
}

// ---------------------------------------------------------------------------
// Tables
// ---------------------------------------------------------------------------

/// A block is read also where its checksum is wrong, which is told; one of another
/// compression than none and Snappy is refused, and so is one that reaches beyond
/// the end of the table.
pub proof fn law_any_block(
    before: Seq<u8>,
    stored: Seq<u8>,
    compression: u8,
    checksum: u32,
    after: Seq<u8>,
)
    requires
        before.len() + stored.len() + 5 + after.len() <= usize::MAX,
    ensures
        ({
            let all = before + stored.push(compression) + le_bytes(checksum as nat, 4) + after;
            let handle = BlockHandle { offset: before.len() as u64, size: stored.len() as u64 };
            let read = table_block(all, handle);
            let sound = checksum == masked(crc(stored.push(compression)));
            &&& compression == 0 ==> read == Ok::<(Seq<u8>, bool), Seq<char>>((stored, sound))
            &&& compression == 1 && decompressed(stored) is Ok ==> read == Ok::<
                (Seq<u8>, bool),
                Seq<char>,
            >((decompressed(stored)->Ok_0, sound))
            &&& compression == 1 && decompressed(stored) is Err ==> read is Err
            &&& compression > 1 ==> read == Err::<(Seq<u8>, bool), Seq<char>>(
                "Unsupported block compression type "@ + decimal(compression as nat)
                    + " at offset "@ + decimal(before.len()) + "."@,
            )
            &&& forall|offset: u64, size: u64|
                offset + size + 5 > all.len() ==> #[trigger] table_block(
                    all,
                    BlockHandle { offset, size },
                ) is Err
        }),
{
    reveal_with_fuel(pow256, 5);
    lemma_le_roundtrip(checksum as nat, 4);
    let all = before + stored.push(compression) + le_bytes(checksum as nat, 4) + after;
    let offset = before.len() as int;
    let size = stored.len() as int;
    assert(all.subrange(offset, offset + size) =~= stored);
    assert(all[offset + size] == compression);
    assert(all.subrange(offset + size + 1, offset + size + 5) =~= le_bytes(checksum as nat, 4));
}

/// A table ends in 48 bytes, the last eight of which are always the same.
pub proof fn law_footer_needed(table: Seq<u8>)
    ensures
        table.len() < 48 ==> table_footer(table) is Err,
        table.len() >= 48 && le_at(table.skip(table.len() - 48), 40, 8) != 0xdb47_7524_8b80_fb57
            ==> table_footer(table) is Err,
        table_footer(table) is Ok ==> table.len() >= 48 && le_at(
            table.skip(table.len() - 48),
            40,
            8,
        ) == 0xdb47_7524_8b80_fb57,
{
}

/// The last eight bytes of a key in a table hold the type of the entry and, above it,
/// its number; an entry whose key is shorter is passed over with a warning.
pub proof fn law_table_keys(
    scan: TableScan,
    entries: Seq<EntryView>,
    user_key: Seq<u8>,
    kind: u8,
    sequence: nat,
    value: Seq<u8>,
    short: EntryView,
    number: nat,
)
    requires
        sequence < 0x100_0000_0000_0000,
        short.key.len() < 8,
    ensures
        ({
            let e = EntryView { key: user_key + le_bytes(sequence * 256 + kind as nat, 8), value };
            let read = ldb_entry(e);
            let before = with_entries(scan, entries, number as int);
            let after = with_entries(scan, entries.push(short), number as int);
            &&& read.user_key == user_key
            &&& read.sequence == sequence
            &&& read.value_type == kind
            &&& read.value == value
            &&& with_entries(scan, entries.push(e), number as int).entries == before.entries.push(
                read,
            )
            &&& with_entries(scan, entries.push(e), number as int).warnings == before.warnings
            &&& after.entries == before.entries
            &&& after.warnings == before.warnings.push(
                "Skipped short internal key ("@ + decimal(short.key.len())
                    + " bytes) in data block "@ + decimal(number) + "."@,
            )
        }),
{
    reveal_with_fuel(pow256, 9);
    let tag = sequence * 256 + kind as nat;
    lemma_le_roundtrip(tag, 8);
    let e = EntryView { key: user_key + le_bytes(tag, 8), value };
    assert(e.key.subrange(e.key.len() - 8, e.key.len() as int) =~= le_bytes(tag, 8));
    assert(e.key.take(e.key.len() - 8) =~= user_key);
    assert(entries.push(e).drop_last() =~= entries);
    assert(entries.push(short).drop_last() =~= entries);
}

/// A piece of a compressed block that is cut short is refused: a literal that is longer
/// than what is left, and a repeat without the bytes of its offset.
pub proof fn law_cut_piece(input: Seq<u8>, pos: int)
    requires
        0 <= pos < input.len(),
    ensures
        ({
            let tag = input[pos] as int;
            let left = input.len() - pos - 1;
            &&& tag % 4 == 0 && tag / 4 < 60 && left < tag / 4 + 1 ==> element(input, pos) is Err
            &&& tag % 4 == 0 && tag / 4 >= 60 && left < tag / 4 - 59 ==> element(input, pos) is Err
            &&& tag % 4 == 1 && left < 1 ==> element(input, pos) is Err
            &&& tag % 4 == 2 && left < 2 ==> element(input, pos) is Err
            &&& tag % 4 == 3 && left < 4 ==> element(input, pos) is Err
        }),
{
}

// ---------------------------------------------------------------------------
// Variable-length integers
// ---------------------------------------------------------------------------

proof fn lemma_continued(s: Seq<u8>, pos: int, left: nat)
    requires
        0 <= pos,
        pos + left <= s.len(),
        forall|i: int| pos <= i < pos + left ==> #[trigger] s[i] >= 0x80,
    ensures
        varint(s, pos, left) == VarintRead::TooLong,
    decreases left,
{
    if left > 0 {
        assert(s[pos] >= 0x80);
        lemma_continued(s, pos + 1, (left - 1) as nat);
    }
}

proof fn lemma_ends_inside(s: Seq<u8>, pos: int, left: nat)
    requires
        0 <= pos <= s.len(),
        s.len() - pos < left,
        forall|i: int| pos <= i < s.len() ==> #[trigger] s[i] >= 0x80,
    ensures
        varint(s, pos, left) == VarintRead::End,
    decreases left,
{
    if pos < s.len() {
        assert(s[pos] >= 0x80);
        lemma_ends_inside(s, pos + 1, (left - 1) as nat);
    }
}

/// An integer of 32 bits has at most five bytes and one of 64 bits at most ten; one
/// that is marked as longer is refused, and so is one that is not ended.
pub proof fn law_varint_refused(s: Seq<u8>, pos: int)
    requires
        0 <= pos <= s.len(),
    ensures
        pos + 5 <= s.len() && (forall|i: int| pos <= i < pos + 5 ==> #[trigger] s[i] >= 0x80)
            ==> varint32(s, pos) == Err::<(u32, int), Seq<char>>(
            "Invalid varint32: too many continuation bytes."@,
        ),
        pos + 10 <= s.len() && (forall|i: int| pos <= i < pos + 10 ==> #[trigger] s[i] >= 0x80)
            ==> varint64(s, pos) == Err::<(u64, int), Seq<char>>(
            "Invalid varint64: too many continuation bytes."@,
        ),
        s.len() - pos < 5 && (forall|i: int| pos <= i < s.len() ==> #[trigger] s[i] >= 0x80)
            ==> varint32(s, pos) == Err::<(u32, int), Seq<char>>(
            "Unexpected end of payload while reading varint32."@,
        ),
        s.len() - pos < 10 && (forall|i: int| pos <= i < s.len() ==> #[trigger] s[i] >= 0x80)
            ==> varint64(s, pos) == Err::<(u64, int), Seq<char>>(
            "Unexpected end of payload while reading varint64."@,
        ),
{
    if pos + 5 <= s.len() && (forall|i: int| pos <= i < pos + 5 ==> #[trigger] s[i] >= 0x80) {
        lemma_continued(s, pos, 5);
    }
    if pos + 10 <= s.len() && (forall|i: int| pos <= i < pos + 10 ==> #[trigger] s[i] >= 0x80) {
        lemma_continued(s, pos, 10);
    }
    if forall|i: int| pos <= i < s.len() ==> #[trigger] s[i] >= 0x80 {
        if s.len() - pos < 5 {
            lemma_ends_inside(s, pos, 5);
        }
        if s.len() - pos < 10 {
            lemma_ends_inside(s, pos, 10);
        }
    }
}

} // verus!
