//! What is written to the files of a LevelDB directory is read back from them.

use vstd::prelude::*;

use crate::bytes::{le_bytes, lemma_le_roundtrip, pow256};
use crate::table::{
    all_storable, block_bytes, block_entries, block_handle, is_stored_as,
    law_block_entries_roundtrip, law_table_block_roundtrip, leading_handle, storable, stored,
    stored_entries_bytes, table_block, table_footer, BlockHandle, EntryView, StoredEntry,
    TABLE_FOOTER_SIZE, TABLE_MAGIC_NUMBER,
};
use crate::varint::{law_varint64_roundtrip, pow128, varint_bytes};
use crate::viewer::{
    blocks_from, ldb_entry, ldb_file, wal_batch, wal_file, with_entries, LdbEntryView, LdbFileView,
    TableScan, WalFileView,
};
use crate::wal::{
    assembled, assembled_step, law_physical_record_roundtrip, opened, physical_from,
    physical_records, record_bytes, Assembly, LogicalView, PhysicalParseView, PhysicalView,
    WalRecordType, WAL_BLOCK_SIZE, WAL_HEADER_SIZE,
};

verus! {

// ---------------------------------------------------------------------------
// Logs
// ---------------------------------------------------------------------------

/// How many bytes of its block are left from `at` on.
pub open spec fn block_room(at: nat) -> nat {
    (WAL_BLOCK_SIZE - at % (WAL_BLOCK_SIZE as nat)) as nat
}

/// The byte of a record that goes on with what was `begun` or not, and ends it
/// or not.
pub open spec fn record_kind(begun: bool, ends: bool) -> u8 {
    if begun {
        if ends {
            4
        } else {
            3
        }
    } else if ends {
        1
    } else {
        2
    }
}

pub open spec fn record_type(begun: bool, ends: bool) -> WalRecordType {
    if begun {
        if ends {
            WalRecordType::Last
        } else {
            WalRecordType::Middle
        }
    } else if ends {
        WalRecordType::Full
    } else {
        WalRecordType::First
    }
}

/// A payload as it is written at `at`: in one record where it fits in the
/// block, else cut at the borders of blocks. Where no header fits in a block,
/// the rest of it is filled.
pub open spec fn framed(at: nat, payload: Seq<u8>, begun: bool) -> Seq<u8>
    decreases
            payload.len(),
            (if block_room(at) <= WAL_HEADER_SIZE {
                1nat
            } else {
                0nat
            }),
    via framed_decreases
{
    let left = block_room(at);
    if left < WAL_HEADER_SIZE {
        Seq::new(left, |i: int| 0u8) + framed(at + left, payload, begun)
    } else {
        let n = left - WAL_HEADER_SIZE;
        if payload.len() <= n {
            record_bytes(record_kind(begun, true), payload)
        } else {
            record_bytes(record_kind(begun, false), payload.take(n)) + framed(
                at + left,
                payload.skip(n),
                true,
            )
        }
    }
}

#[via_fn]
proof fn framed_decreases(at: nat, payload: Seq<u8>, begun: bool) {
    lemma_next_block(at);
}

/// The physical records that a payload is written as.
pub open spec fn fragments(at: nat, payload: Seq<u8>, begun: bool) -> Seq<PhysicalView>
    decreases
            payload.len(),
            (if block_room(at) <= WAL_HEADER_SIZE {
                1nat
            } else {
                0nat
            }),
    via fragments_decreases
{
    let left = block_room(at);
    if left < WAL_HEADER_SIZE {
        fragments(at + left, payload, begun)
    } else {
        let n = left - WAL_HEADER_SIZE;
        if payload.len() <= n {
            seq![fragment(at, record_type(begun, true), payload)]
        } else {
            seq![fragment(at, record_type(begun, false), payload.take(n))] + fragments(
                at + left,
                payload.skip(n),
                true,
            )
        }
    }
}

#[via_fn]
proof fn fragments_decreases(at: nat, payload: Seq<u8>, begun: bool) {
    lemma_next_block(at);
}

/// A physical record with a good checksum.
pub open spec fn fragment(at: nat, record_type: WalRecordType, payload: Seq<u8>) -> PhysicalView {
    PhysicalView { offset: at as int, record_type, payload, checksum_ok: true }
}

proof fn lemma_next_block(at: nat)
    ensures
        0 < block_room(at) <= WAL_BLOCK_SIZE,
        block_room(at + block_room(at)) == WAL_BLOCK_SIZE,
{
    let size = WAL_BLOCK_SIZE as int;
    let left = block_room(at) as int;
    vstd::arithmetic::div_mod::lemma_fundamental_div_mod(at as int, size);
    assert(at + left == size * (at as int / size) + size);
    assert((size * (at as int / size) + size) % size == 0) by {
        vstd::arithmetic::div_mod::lemma_mod_multiples_vanish(at as int / size, size, size);
    }
}

/// Where the first record of a payload written at `at` stands.
pub open spec fn record_start(at: nat) -> nat {
    if block_room(at) < WAL_HEADER_SIZE {
        at + block_room(at)
    } else {
        at
    }
}

/// A log with `payloads` in it.
pub open spec fn log_bytes(payloads: Seq<Seq<u8>>) -> Seq<u8>
    decreases payloads.len(),
{
    if payloads.len() == 0 {
        Seq::empty()
    } else {
        let before = log_bytes(payloads.drop_last());
        before + framed(before.len(), payloads.last(), false)
    }
}

/// The physical records of such a log.
pub open spec fn log_fragments(payloads: Seq<Seq<u8>>) -> Seq<PhysicalView>
    decreases payloads.len(),
{
    if payloads.len() == 0 {
        Seq::empty()
    } else {
        log_fragments(payloads.drop_last()) + fragments(
            log_bytes(payloads.drop_last()).len(),
            payloads.last(),
            false,
        )
    }
}

/// The logical records of such a log: the payloads, where each starts, and in
/// how many parts it was written.
pub open spec fn log_records(payloads: Seq<Seq<u8>>) -> Seq<LogicalView>
    decreases payloads.len(),
{
    if payloads.len() == 0 {
        Seq::empty()
    } else {
        let at = log_bytes(payloads.drop_last()).len();
        log_records(payloads.drop_last()).push(
            LogicalView {
                offset: record_start(at) as int,
                payload: payloads.last(),
                checksum_ok: true,
                fragments: fragments(at, payloads.last(), false).len() as int,
            },
        )
    }
}

proof fn lemma_record_len(kind: u8, payload: Seq<u8>)
    requires
        payload.len() <= WAL_BLOCK_SIZE,
    ensures
        record_bytes(kind, payload).len() == WAL_HEADER_SIZE + payload.len(),
{
    reveal_with_fuel(pow256, 5);
    let stored = crate::crc32c::masked(crate::crc32c::crc(seq![kind] + payload)) as nat;
    lemma_le_roundtrip(stored, 4);
    lemma_le_roundtrip(payload.len(), 2);
}

/// A parse with more records at its end.
spec fn with_records(done: PhysicalParseView, more: Seq<PhysicalView>) -> PhysicalParseView {
    PhysicalParseView { records: done.records + more, warnings: done.warnings }
}

/// The rest of a block in which no header fits is passed over.
proof fn lemma_fill_passed(data: Seq<u8>, at: nat, done: PhysicalParseView)
    requires
        at < data.len(),
        block_room(at) < WAL_HEADER_SIZE,
    ensures
        physical_from(data, at as int, done) == physical_from(
            data,
            (at + block_room(at)) as int,
            done,
        ),
{
    assert(WAL_BLOCK_SIZE - (at as int) % (WAL_BLOCK_SIZE as int) == block_room(at));
}

/// The record at the start of a longer run of them reads back.
proof fn lemma_fragment_read(
    before: Seq<u8>,
    record_type: WalRecordType,
    kind: u8,
    payload: Seq<u8>,
    after: Seq<u8>,
    done: PhysicalParseView,
    data: Seq<u8>,
)
    requires
        WalRecordType::spec_from_byte(kind) == Some(record_type),
        before.len() % (WAL_BLOCK_SIZE as nat) + WAL_HEADER_SIZE + payload.len() <= WAL_BLOCK_SIZE,
        data == before + record_bytes(kind, payload) + after,
    ensures
        record_bytes(kind, payload).len() == WAL_HEADER_SIZE + payload.len(),
        physical_from(data, before.len() as int, done) == physical_from(
            data,
            (before + record_bytes(kind, payload)).len() as int,
            done.with(fragment(before.len(), record_type, payload)),
        ),
{
    lemma_record_len(kind, payload);
    law_physical_record_roundtrip(before, record_type, kind, payload, after, done);
}

/// Reading a payload's records leads to its end.
#[verifier::spinoff_prover]
#[verifier::rlimit(40)]
proof fn lemma_framed(
    before: Seq<u8>,
    payload: Seq<u8>,
    begun: bool,
    after: Seq<u8>,
    done: PhysicalParseView,
)
    ensures
        ({
            let written = framed(before.len(), payload, begun);
            let data = before + written + after;
            physical_from(data, before.len() as int, done) == physical_from(
                data,
                (before + written).len() as int,
                with_records(done, fragments(before.len(), payload, begun)),
            )
        }),
    decreases
            payload.len(),
            (if block_room(before.len()) <= WAL_HEADER_SIZE {
                1nat
            } else {
                0nat
            }),
{
    let at = before.len();
    let left = block_room(at);
    let written = framed(at, payload, begun);
    let data = before + written + after;
    lemma_next_block(at);
    if left < WAL_HEADER_SIZE {
        let fill = Seq::new(left, |i: int| 0u8);
        let rest = framed(at + left, payload, begun);
        assert((before + fill).len() == at + left);
        lemma_framed(before + fill, payload, begun, after, done);
        assert((before + fill) + rest + after =~= data);
        assert((before + fill) + rest =~= before + written);
        lemma_fill_passed(data, at, done);
    } else {
        let n = (left - WAL_HEADER_SIZE) as int;
        assert(at % (WAL_BLOCK_SIZE as nat) + WAL_HEADER_SIZE + n == WAL_BLOCK_SIZE);
        if payload.len() <= n {
            let kind = record_kind(begun, true);
            lemma_fragment_read(
                before,
                record_type(begun, true),
                kind,
                payload,
                after,
                done,
                data,
            );
            let record = fragment(at, record_type(begun, true), payload);
            assert(done.records + seq![record] =~= done.records.push(record));
        } else {
            let kind = record_kind(begun, false);
            let part = payload.take(n);
            let bytes = record_bytes(kind, part);
            let rest = framed(at + left, payload.skip(n), true);
            assert(before + bytes + (rest + after) =~= data);
            lemma_fragment_read(
                before,
                record_type(begun, false),
                kind,
                part,
                rest + after,
                done,
                data,
            );
            let record = fragment(at, record_type(begun, false), part);
            assert((before + bytes).len() == at + left);
            lemma_framed(before + bytes, payload.skip(n), true, after, done.with(record));
            assert((before + bytes) + rest + after =~= data);
            assert((before + bytes) + rest =~= before + written);
            assert(done.records.push(record) + fragments(at + left, payload.skip(n), true)
                =~= done.records + fragments(at, payload, begun));
        }
    }
}

/// Reading the records of a log leads to its end.
proof fn lemma_log_records(payloads: Seq<Seq<u8>>, after: Seq<u8>)
    ensures
        physical_from(
            log_bytes(payloads) + after,
            0,
            (PhysicalParseView { records: Seq::empty(), warnings: Seq::empty() }),
        ) == physical_from(
            log_bytes(payloads) + after,
            log_bytes(payloads).len() as int,
            (PhysicalParseView { records: log_fragments(payloads), warnings: Seq::empty() }),
        ),
    decreases payloads.len(),
{
    if payloads.len() > 0 {
        let front = payloads.drop_last();
        let before = log_bytes(front);
        let written = framed(before.len(), payloads.last(), false);
        lemma_log_records(front, written + after);
        assert(before + (written + after) =~= log_bytes(payloads) + after);
        lemma_framed(
            before,
            payloads.last(),
            false,
            after,
            PhysicalParseView { records: log_fragments(front), warnings: Seq::empty() },
        );
        assert(before + written + after =~= log_bytes(payloads) + after);
    }
}

/// The parts of a payload go on with the record that is open and close it.
proof fn lemma_continued(before: Seq<PhysicalView>, at: nat, payload: Seq<u8>, open: LogicalView)
    requires
        assembled(before).pending == Some(open),
        open.checksum_ok,
    ensures
        assembled(before + fragments(at, payload, true)) == (Assembly {
            records: assembled(before).records.push(
                LogicalView {
                    offset: open.offset,
                    payload: open.payload + payload,
                    checksum_ok: true,
                    fragments: open.fragments + fragments(at, payload, true).len(),
                },
            ),
            warnings: assembled(before).warnings,
            pending: None,
        }),
        fragments(at, payload, true).len() > 0,
    decreases
            payload.len(),
            (if block_room(at) <= WAL_HEADER_SIZE {
                1nat
            } else {
                0nat
            }),
{
    let left = block_room(at);
    lemma_next_block(at);
    if left < WAL_HEADER_SIZE {
        lemma_continued(before, at + left, payload, open);
    } else {
        let n = (left - WAL_HEADER_SIZE) as int;
        if payload.len() <= n {
            let record = fragment(at, WalRecordType::Last, payload);
            lemma_one_more(before, record, Seq::empty());
            assert(before + seq![record] =~= before.push(record) + Seq::<PhysicalView>::empty());
            assert(before.push(record) + Seq::<PhysicalView>::empty() =~= before.push(record));
        } else {
            let record = fragment(at, WalRecordType::Middle, payload.take(n));
            let rest = fragments(at + left, payload.skip(n), true);
            lemma_one_more(before, record, rest);
            let longer = LogicalView {
                offset: open.offset,
                payload: open.payload + payload.take(n),
                checksum_ok: true,
                fragments: open.fragments + 1,
            };
            lemma_continued(before.push(record), at + left, payload.skip(n), longer);
            assert(longer.payload + payload.skip(n) =~= open.payload + payload);
        }
    }
}

proof fn lemma_one_more(before: Seq<PhysicalView>, record: PhysicalView, rest: Seq<PhysicalView>)
    ensures
        before + (seq![record] + rest) == before.push(record) + rest,
        assembled(before.push(record)) == assembled_step(assembled(before), record),
{
    assert(before + (seq![record] + rest) =~= before.push(record) + rest);
    assert(before.push(record).drop_last() =~= before);
}

/// The parts of a payload make up one logical record where none is open.
proof fn lemma_payload_assembled(before: Seq<PhysicalView>, at: nat, payload: Seq<u8>)
    requires
        assembled(before).pending is None,
    ensures
        assembled(before + fragments(at, payload, false)) == (Assembly {
            records: assembled(before).records.push(
                LogicalView {
                    offset: record_start(at) as int,
                    payload,
                    checksum_ok: true,
                    fragments: fragments(at, payload, false).len() as int,
                },
            ),
            warnings: assembled(before).warnings,
            pending: None,
        }),
        fragments(at, payload, false).len() > 0,
    decreases
            (if block_room(at) <= WAL_HEADER_SIZE {
                1nat
            } else {
                0nat
            }),
{
    let left = block_room(at);
    lemma_next_block(at);
    if left < WAL_HEADER_SIZE {
        lemma_payload_assembled(before, at + left, payload);
    } else {
        let n = (left - WAL_HEADER_SIZE) as int;
        if payload.len() <= n {
            let record = fragment(at, WalRecordType::Full, payload);
            lemma_one_more(before, record, Seq::empty());
            assert(before + seq![record] =~= before.push(record));
        } else {
            let record = fragment(at, WalRecordType::First, payload.take(n));
            let rest = fragments(at + left, payload.skip(n), true);
            lemma_one_more(before, record, rest);
            lemma_continued(before.push(record), at + left, payload.skip(n), opened(record));
            assert(payload.take(n) + payload.skip(n) =~= payload);
        }
    }
}

proof fn lemma_log_assembled(payloads: Seq<Seq<u8>>)
    ensures
        assembled(log_fragments(payloads)) == (Assembly {
            records: log_records(payloads),
            warnings: Seq::empty(),
            pending: None,
        }),
        log_records(payloads).len() == payloads.len(),
        payloads.len() > 0 ==> log_fragments(payloads).len() > 0,
    decreases payloads.len(),
{
    if payloads.len() > 0 {
        let front = payloads.drop_last();
        lemma_log_assembled(front);
        lemma_payload_assembled(log_fragments(front), log_bytes(front).len(), payloads.last());
    }
}

/// The payloads that were written to a log are read back from it, whatever their
/// sizes: in order, each put together from its parts, with their checksums
/// confirmed, without a warning, and with the batch that it carries.
pub proof fn law_log_roundtrip(path: Seq<char>, payloads: Seq<Seq<u8>>)
    requires
        0 < payloads.len(),
    ensures
        wal_file(path, log_bytes(payloads)) == Ok::<WalFileView, Seq<char>>(
            WalFileView {
                physical_records: log_fragments(payloads).len(),
                logical_records: payloads.len(),
                warnings: Seq::empty(),
                batches: log_records(payloads).map_values(|r: LogicalView| wal_batch(r)),
            },
        ),
        forall|i: int|
            0 <= i < payloads.len() ==> (#[trigger] log_records(payloads)[i]).payload == payloads[i],
{
    let data = log_bytes(payloads);
    let none = Seq::<u8>::empty();
    lemma_log_records(payloads, none);
    assert(data + none =~= data);
    let records = log_fragments(payloads);
    assert(physical_records(data) == (PhysicalParseView { records, warnings: Seq::empty() }));
    lemma_log_assembled(payloads);
    assert(Seq::<Seq<char>>::empty() + Seq::<Seq<char>>::empty() =~= Seq::<Seq<char>>::empty());
    assert forall|i: int| 0 <= i < payloads.len() implies (#[trigger] log_records(
        payloads,
    )[i]).payload == payloads[i] by {
        lemma_log_payload(payloads, i);
    }
}

proof fn lemma_log_payload(payloads: Seq<Seq<u8>>, i: int)
    requires
        0 <= i < payloads.len(),
    ensures
        log_records(payloads)[i].payload == payloads[i],
    decreases payloads.len(),
{
    let front = payloads.drop_last();
    lemma_log_assembled(front);
    if i < front.len() {
        lemma_log_payload(front, i);
        assert(log_records(payloads)[i] == log_records(front)[i]);
    }
}

// ---------------------------------------------------------------------------
// Tables
// ---------------------------------------------------------------------------

/// The key under which an entry is stored.
pub open spec fn internal_key(e: LdbEntryView) -> Seq<u8> {
    e.user_key + le_bytes(e.sequence * 256 + e.value_type, 8)
}

/// The entry fits in a table: a sequence number of 56 bits, a type of 8, and
/// lengths of 32.
pub open spec fn fits_in_table(e: LdbEntryView) -> bool {
    &&& e.sequence < 0x100_0000_0000_0000
    &&& e.value_type < 256
    &&& e.user_key.len() + 8 <= u32::MAX
    &&& e.value.len() <= u32::MAX
}

/// A data block: its entries, each with how much of the key before it its own
/// key repeats, its restart points, and what is stored for it.
pub struct DataBlock {
    pub entries: Seq<(nat, LdbEntryView)>,
    pub restarts: Seq<u8>,
    pub compression: u8,
    pub stored: Seq<u8>,
}

/// The entries of a block as they are stored.
pub open spec fn stored_entries(entries: Seq<(nat, LdbEntryView)>) -> Seq<StoredEntry> {
    entries.map_values(
        |x: (nat, LdbEntryView)|
            StoredEntry {
                shared: x.0,
                entry: EntryView { key: internal_key(x.1), value: x.1.value },
            },
    )
}

/// The content of a block.
pub open spec fn block_content(s: Seq<StoredEntry>, restarts: Seq<u8>) -> Seq<u8> {
    stored_entries_bytes(s) + restarts + le_bytes(restarts.len() / 4, 4)
}

/// The entries fit in a table, each key repeats what it says it repeats, the
/// restart points are 32-bit numbers, and what is stored stands for all this.
pub open spec fn is_data_block(b: DataBlock) -> bool {
    &&& forall|i: int| 0 <= i < b.entries.len() ==> fits_in_table((#[trigger] b.entries[i]).1)
    &&& all_storable(Seq::empty(), stored_entries(b.entries))
    &&& b.restarts.len() % 4 == 0
    &&& b.restarts.len() / 4 <= u32::MAX
    &&& block_content(stored_entries(b.entries), b.restarts).len() <= usize::MAX
    &&& is_stored_as(
        block_content(stored_entries(b.entries), b.restarts),
        b.compression,
        b.stored,
    )
}

/// The data blocks one behind the other.
pub open spec fn blocks_bytes(blocks: Seq<DataBlock>) -> Seq<u8>
    decreases blocks.len(),
{
    if blocks.len() == 0 {
        Seq::empty()
    } else {
        blocks_bytes(blocks.drop_last()) + block_bytes(
            blocks.last().compression,
            blocks.last().stored,
        )
    }
}

/// The entries of the data blocks one behind the other.
pub open spec fn blocks_entries(blocks: Seq<DataBlock>) -> Seq<LdbEntryView>
    decreases blocks.len(),
{
    if blocks.len() == 0 {
        Seq::empty()
    } else {
        blocks_entries(blocks.drop_last()) + blocks.last().entries.map_values(
            |x: (nat, LdbEntryView)| x.1,
        )
    }
}

pub open spec fn handle_bytes(offset: nat, size: nat) -> Seq<u8> {
    varint_bytes(offset) + varint_bytes(size)
}

/// The entries of the index: where each block stands, under a key of its own.
pub open spec fn index_entries(blocks: Seq<DataBlock>, keys: Seq<Seq<u8>>) -> Seq<StoredEntry> {
    Seq::new(
        blocks.len(),
        |i: int|
            StoredEntry {
                shared: 0,
                entry: EntryView {
                    key: keys[i],
                    value: handle_bytes(blocks_bytes(blocks.take(i)).len(), blocks[i].stored.len()),
                },
            },
    )
}

/// The content of the index, with one restart point.
pub open spec fn index_content(blocks: Seq<DataBlock>, keys: Seq<Seq<u8>>) -> Seq<u8> {
    block_content(index_entries(blocks, keys), le_bytes(0, 4))
}

/// The handles of the metaindex and of the index.
pub open spec fn footer_handles(meta: (nat, nat), index: (nat, nat)) -> Seq<u8> {
    handle_bytes(meta.0, meta.1) + handle_bytes(index.0, index.1)
}

/// The end of a table: the handles, `padding`, and the magic number.
pub open spec fn footer_bytes(meta: (nat, nat), index: (nat, nat), padding: Seq<u8>) -> Seq<u8> {
    footer_handles(meta, index) + padding + le_bytes(TABLE_MAGIC_NUMBER as nat, 8)
}

/// A table: the data blocks, a metaindex that holds `meta`, the index and the
/// footer.
pub open spec fn table_bytes(
    blocks: Seq<DataBlock>,
    keys: Seq<Seq<u8>>,
    meta: Seq<u8>,
    padding: Seq<u8>,
) -> Seq<u8> {
    let data = blocks_bytes(blocks);
    let index = index_content(blocks, keys);
    let meta_handle = (data.len(), meta.len());
    let index_handle = ((data + block_bytes(0, meta)).len(), index.len());
    data + block_bytes(0, meta) + block_bytes(0, index) + footer_bytes(
        meta_handle,
        index_handle,
        padding,
    )
}

/// How many bytes the handles in the footer of a table take.
pub open spec fn handles_len(blocks: Seq<DataBlock>, keys: Seq<Seq<u8>>, meta: Seq<u8>) -> nat {
    let data = blocks_bytes(blocks);
    footer_handles(
        (data.len(), meta.len()),
        ((data + block_bytes(0, meta)).len(), index_content(blocks, keys).len()),
    ).len()
}

proof fn lemma_handle(before: Seq<u8>, offset: nat, size: nat, after: Seq<u8>)
    requires
        offset <= u64::MAX,
        size <= u64::MAX,
    ensures
        block_handle(before + handle_bytes(offset, size) + after, before.len() as int) == Ok::<
            (BlockHandle, int),
            Seq<char>,
        >(
            (
                BlockHandle { offset: offset as u64, size: size as u64 },
                (before + handle_bytes(offset, size)).len() as int,
            ),
        ),
{
    let all = before + handle_bytes(offset, size) + after;
    law_varint64_roundtrip(offset as u64, before, varint_bytes(size) + after);
    assert(before + varint_bytes(offset) + (varint_bytes(size) + after) =~= all);
    law_varint64_roundtrip(size as u64, before + varint_bytes(offset), after);
    assert(before + varint_bytes(offset) + varint_bytes(size) + after =~= all);
}

proof fn lemma_internal_key(e: LdbEntryView)
    requires
        fits_in_table(e),
    ensures
        internal_key(e).len() == e.user_key.len() + 8,
        ldb_entry(EntryView { key: internal_key(e), value: e.value }) == e,
{
    let tag = e.sequence * 256 + e.value_type;
    reveal_with_fuel(pow256, 9);
    lemma_le_roundtrip(tag, 8);
    let key = internal_key(e);
    let n = e.user_key.len() as int;
    assert(key.subrange(key.len() - 8, key.len() as int) =~= le_bytes(tag, 8));
    assert(key.take(n) =~= e.user_key);
    assert(tag / 256 == e.sequence && tag % 256 == e.value_type);
    assert(ldb_entry(EntryView { key, value: e.value }) =~= e);
}

/// The entries of a block are taken in as they were stored.
proof fn lemma_entries_collected(
    done: Seq<LdbEntryView>,
    entries: Seq<(nat, LdbEntryView)>,
    number: int,
)
    requires
        forall|i: int| 0 <= i < entries.len() ==> fits_in_table((#[trigger] entries[i]).1),
    ensures
        with_entries(
            (TableScan { warnings: Seq::empty(), entries: done }),
            stored(stored_entries(entries)),
            number,
        ) == (TableScan {
            warnings: Seq::empty(),
            entries: done + entries.map_values(|x: (nat, LdbEntryView)| x.1),
        }),
    decreases entries.len(),
{
    let all = stored(stored_entries(entries));
    let plain = entries.map_values(|x: (nat, LdbEntryView)| x.1);
    if entries.len() > 0 {
        let before = entries.drop_last();
        let e = entries.last().1;
        assert forall|i: int| 0 <= i < before.len() implies fits_in_table(
            (#[trigger] before[i]).1,
        ) by {
            assert(before[i] == entries[i]);
        }
        assert(fits_in_table(entries[entries.len() - 1].1));
        lemma_entries_collected(done, before, number);
        lemma_internal_key(e);
        assert(all.drop_last() =~= stored(stored_entries(before)));
        assert(all.last() == (EntryView { key: internal_key(e), value: e.value }));
        assert((done + before.map_values(|x: (nat, LdbEntryView)| x.1)).push(e) =~= done + plain);
    } else {
        assert(done + plain =~= done);
    }
}

proof fn lemma_block_content(s: Seq<StoredEntry>, restarts: Seq<u8>)
    requires
        all_storable(Seq::empty(), s),
        restarts.len() % 4 == 0,
        restarts.len() / 4 <= u32::MAX,
        block_content(s, restarts).len() <= usize::MAX,
    ensures
        block_entries(block_content(s, restarts)) == Ok::<Seq<EntryView>, Seq<char>>(stored(s)),
{
    reveal_with_fuel(pow256, 5);
    lemma_le_roundtrip(restarts.len() / 4, 4);
    law_block_entries_roundtrip(s, restarts, restarts.len() / 4);
}

proof fn lemma_footer(before: Seq<u8>, meta: (nat, nat), index: (nat, nat), padding: Seq<u8>)
    requires
        meta.0 <= u64::MAX,
        meta.1 <= u64::MAX,
        index.0 <= u64::MAX,
        index.1 <= u64::MAX,
        footer_handles(meta, index).len() + padding.len() == 40,
    ensures
        footer_bytes(meta, index, padding).len() == TABLE_FOOTER_SIZE,
        table_footer(before + footer_bytes(meta, index, padding)) == Ok::<
            (BlockHandle, BlockHandle),
            Seq<char>,
        >(
            (
                BlockHandle { offset: meta.0 as u64, size: meta.1 as u64 },
                BlockHandle { offset: index.0 as u64, size: index.1 as u64 },
            ),
        ),
{
    let footer = footer_bytes(meta, index, padding);
    let magic = le_bytes(TABLE_MAGIC_NUMBER as nat, 8);
    reveal_with_fuel(pow256, 9);
    lemma_le_roundtrip(TABLE_MAGIC_NUMBER as nat, 8);
    let table = before + footer;
    assert(table.skip(table.len() - TABLE_FOOTER_SIZE) =~= footer);
    assert(footer.subrange(40, 48) =~= magic);
    let none = Seq::<u8>::empty();
    let first = handle_bytes(meta.0, meta.1);
    let second = handle_bytes(index.0, index.1);
    lemma_handle(none, meta.0, meta.1, second + padding + magic);
    assert(none + first + (second + padding + magic) =~= footer);
    assert((none + first).len() == first.len());
    lemma_handle(first, index.0, index.1, padding + magic);
    assert(first + second + (padding + magic) =~= footer);
}

proof fn lemma_varint_size(n: nat, left: nat)
    requires
        0 < left,
        n < pow128(left),
    ensures
        varint_bytes(n).len() <= left,
    decreases n,
{
    if n >= 128 {
        assert(n / 128 < pow128((left - 1) as nat)) by (nonlinear_arith)
            requires
                n < 128 * pow128((left - 1) as nat),
        ;
        lemma_varint_size(n / 128, (left - 1) as nat);
    }
}

/// Entries that repeat nothing can be stored where their lengths fit.
proof fn lemma_plain_storable(last: Seq<u8>, s: Seq<StoredEntry>)
    requires
        forall|i: int|
            0 <= i < s.len() ==> (#[trigger] s[i]).shared == 0 && s[i].entry.key.len() <= u32::MAX
                && s[i].entry.value.len() <= u32::MAX,
    ensures
        all_storable(last, s),
    decreases s.len(),
{
    if s.len() > 0 {
        let rest = s.skip(1);
        assert forall|i: int| 0 <= i < rest.len() implies (#[trigger] rest[i]).shared == 0
            && rest[i].entry.key.len() <= u32::MAX && rest[i].entry.value.len() <= u32::MAX by {
            assert(rest[i] == s[i + 1]);
        }
        lemma_plain_storable(s[0].entry.key, rest);
        assert(last.take(0) =~= s[0].entry.key.take(0));
        assert(storable(last, s[0]));
    }
}

/// The blocks up to the `i`-th, that block, and the ones behind it.
proof fn lemma_blocks_split(blocks: Seq<DataBlock>, i: int) -> (rest: Seq<u8>)
    requires
        0 <= i < blocks.len(),
    ensures
        blocks_bytes(blocks) == blocks_bytes(blocks.take(i)) + block_bytes(
            blocks[i].compression,
            blocks[i].stored,
        ) + rest,
    decreases blocks.len(),
{
    let front = blocks.drop_last();
    let none = Seq::<u8>::empty();
    let last = block_bytes(blocks.last().compression, blocks.last().stored);
    if i == blocks.len() - 1 {
        assert(blocks.take(i) =~= front);
        assert(blocks_bytes(front) + last + none =~= blocks_bytes(front) + last);
        none
    } else {
        let rest = lemma_blocks_split(front, i);
        assert(front.take(i) =~= blocks.take(i));
        let block = block_bytes(blocks[i].compression, blocks[i].stored);
        assert(blocks_bytes(blocks.take(i)) + block + rest + last =~= blocks_bytes(blocks.take(i))
            + block + (rest + last));
        rest + last
    }
}

/// The index entry of a block leads to it.
proof fn lemma_data_block(
    table: Seq<u8>,
    blocks: Seq<DataBlock>,
    keys: Seq<Seq<u8>>,
    after: Seq<u8>,
    i: int,
)
    requires
        0 <= i < blocks.len(),
        is_data_block(blocks[i]),
        table == blocks_bytes(blocks) + after,
        table.len() <= usize::MAX,
    ensures
        ({
            let b = blocks[i];
            let handle = BlockHandle {
                offset: blocks_bytes(blocks.take(i)).len() as u64,
                size: b.stored.len() as u64,
            };
            let content = block_content(stored_entries(b.entries), b.restarts);
            let value = index_entries(blocks, keys)[i].entry.value;
            &&& leading_handle(value) == Ok::<BlockHandle, Seq<char>>(handle)
            &&& value.len() <= u32::MAX
            &&& table_block(table, handle) == Ok::<(Seq<u8>, bool), Seq<char>>((content, true))
            &&& block_entries(content) == Ok::<Seq<EntryView>, Seq<char>>(
                stored(stored_entries(b.entries)),
            )
        }),
{
    let b = blocks[i];
    let before = blocks_bytes(blocks.take(i));
    let block = block_bytes(b.compression, b.stored);
    let content = block_content(stored_entries(b.entries), b.restarts);
    let rest = lemma_blocks_split(blocks, i);
    assert(before + block + (rest + after) =~= table);
    assert(block.len() >= b.stored.len());
    law_table_block_roundtrip(before, content, b.compression, b.stored, rest + after);
    lemma_block_content(stored_entries(b.entries), b.restarts);
    let none = Seq::<u8>::empty();
    let value = handle_bytes(before.len(), b.stored.len());
    lemma_handle(none, before.len(), b.stored.len(), none);
    assert(none + value + none =~= value);
    reveal_with_fuel(pow128, 11);
    lemma_varint_size(before.len(), 10);
    lemma_varint_size(b.stored.len(), 10);
}

/// The blocks that the index entries from `i` on point to are taken in.
proof fn lemma_blocks_read(
    table: Seq<u8>,
    blocks: Seq<DataBlock>,
    keys: Seq<Seq<u8>>,
    after: Seq<u8>,
    i: int,
)
    requires
        0 <= i <= blocks.len(),
        forall|j: int| 0 <= j < blocks.len() ==> is_data_block(#[trigger] blocks[j]),
        table == blocks_bytes(blocks) + after,
        table.len() <= usize::MAX,
    ensures
        blocks_from(
            table,
            stored(index_entries(blocks, keys)),
            i,
            (TableScan { warnings: Seq::empty(), entries: blocks_entries(blocks.take(i)) }),
        ) == Ok::<TableScan, Seq<char>>(
            TableScan { warnings: Seq::empty(), entries: blocks_entries(blocks) },
        ),
    decreases blocks.len() - i,
{
    if i == blocks.len() {
        assert(blocks.take(i) =~= blocks);
    } else {
        lemma_data_block(table, blocks, keys, after, i);
        lemma_entries_collected(blocks_entries(blocks.take(i)), blocks[i].entries, i + 1);
        assert(blocks.take(i + 1).drop_last() =~= blocks.take(i));
        assert(blocks.take(i + 1).last() == blocks[i]);
        lemma_blocks_read(table, blocks, keys, after, i + 1);
        assert(stored(index_entries(blocks, keys))[i] == index_entries(blocks, keys)[i].entry);
    }
}

/// A table whose parts read as given reads as a whole.
proof fn lemma_table_parts(
    path: Seq<char>,
    table: Seq<u8>,
    meta_handle: BlockHandle,
    meta: Seq<u8>,
    index_handle: BlockHandle,
    index: Seq<u8>,
    found: Seq<EntryView>,
    entries: Seq<LdbEntryView>,
)
    requires
        table.len() >= TABLE_FOOTER_SIZE,
        table_footer(table) == Ok::<(BlockHandle, BlockHandle), Seq<char>>(
            (meta_handle, index_handle),
        ),
        table_block(table, meta_handle) == Ok::<(Seq<u8>, bool), Seq<char>>((meta, true)),
        table_block(table, index_handle) == Ok::<(Seq<u8>, bool), Seq<char>>((index, true)),
        block_entries(index) == Ok::<Seq<EntryView>, Seq<char>>(found),
        blocks_from(
            table,
            found,
            0,
            (TableScan { warnings: Seq::empty(), entries: Seq::empty() }),
        ) == Ok::<TableScan, Seq<char>>(TableScan { warnings: Seq::empty(), entries }),
    ensures
        ldb_file(path, table) == Ok::<LdbFileView, Seq<char>>(
            LdbFileView {
                index_entries: found.len(),
                data_blocks: found.len(),
                warnings: Seq::empty(),
                entries,
            },
        ),
{
}

/// The index of a table reads back.
proof fn lemma_index_read(
    table: Seq<u8>,
    blocks: Seq<DataBlock>,
    keys: Seq<Seq<u8>>,
    after: Seq<u8>,
)
    requires
        forall|i: int| 0 <= i < blocks.len() ==> is_data_block(#[trigger] blocks[i]),
        keys.len() == blocks.len(),
        forall|i: int| 0 <= i < keys.len() ==> (#[trigger] keys[i]).len() <= u32::MAX,
        table == blocks_bytes(blocks) + after,
        table.len() <= usize::MAX,
        index_content(blocks, keys).len() <= usize::MAX,
    ensures
        block_entries(index_content(blocks, keys)) == Ok::<Seq<EntryView>, Seq<char>>(
            stored(index_entries(blocks, keys)),
        ),
{
    let s = index_entries(blocks, keys);
    assert forall|i: int| 0 <= i < s.len() implies (#[trigger] s[i]).shared == 0
        && s[i].entry.key.len() <= u32::MAX && s[i].entry.value.len() <= u32::MAX by {
        assert(keys[i].len() <= u32::MAX);
        assert(is_data_block(blocks[i]));
        lemma_data_block(table, blocks, keys, after, i);
    }
    lemma_plain_storable(Seq::empty(), s);
    reveal_with_fuel(pow256, 5);
    lemma_le_roundtrip(0, 4);
    lemma_block_content(s, le_bytes(0, 4));
}

/// The entries of a table are read back from its bytes: all of them, from all
/// blocks, compressed or not, in order, with their sequence numbers and types,
/// and without a warning. The keys of the index, what the metaindex holds and
/// the padding, which fills the footer to its size, do not matter.
pub proof fn law_table_roundtrip(
    path: Seq<char>,
    blocks: Seq<DataBlock>,
    keys: Seq<Seq<u8>>,
    meta: Seq<u8>,
    padding: Seq<u8>,
)
    requires
        forall|i: int| 0 <= i < blocks.len() ==> is_data_block(#[trigger] blocks[i]),
        keys.len() == blocks.len(),
        forall|i: int| 0 <= i < keys.len() ==> (#[trigger] keys[i]).len() <= u32::MAX,
        table_bytes(blocks, keys, meta, padding).len() <= usize::MAX,
        handles_len(blocks, keys, meta) + padding.len() == 40,
    ensures
        ldb_file(path, table_bytes(blocks, keys, meta, padding)) == Ok::<LdbFileView, Seq<char>>(
            LdbFileView {
                index_entries: blocks.len(),
                data_blocks: blocks.len(),
                warnings: Seq::empty(),
                entries: blocks_entries(blocks),
            },
        ),
{
    let table = table_bytes(blocks, keys, meta, padding);
    let data = blocks_bytes(blocks);
    let meta_block = block_bytes(0, meta);
    let s = index_entries(blocks, keys);
    let index = index_content(blocks, keys);
    let index_block = block_bytes(0, index);
    let meta_handle = (data.len(), meta.len());
    let index_handle = ((data + meta_block).len(), index.len());
    let footer = footer_bytes(meta_handle, index_handle, padding);
    assert(table == data + meta_block + index_block + footer);
    assert(meta_block.len() >= meta.len() && index_block.len() >= index.len());
    lemma_footer(data + meta_block + index_block, meta_handle, index_handle, padding);
    law_table_block_roundtrip(data + meta_block, index, 0, index, footer);
    assert(data + meta_block + (index_block + footer) =~= table);
    law_table_block_roundtrip(data, meta, 0, meta, index_block + footer);
    let after = meta_block + index_block + footer;
    assert(data + after =~= table);
    lemma_index_read(table, blocks, keys, after);
    lemma_blocks_read(table, blocks, keys, after, 0);
    assert(blocks.take(0) =~= Seq::empty());
    assert(stored(s).len() == blocks.len());
    lemma_table_parts(
        path,
        table,
        BlockHandle { offset: meta_handle.0 as u64, size: meta_handle.1 as u64 },
        meta,
        BlockHandle { offset: index_handle.0 as u64, size: index_handle.1 as u64 },
        index,
        stored(s),
        blocks_entries(blocks),
    );
}

} // verus!
