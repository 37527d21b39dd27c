//! The write-ahead log: physical records, the logical records they make up, and
//! the write batches these carry.

use vstd::prelude::*;

use crate::bytes::{
    byte_range, copy_bytes, le_at, le_bytes, lemma_le_roundtrip, pow256, read_u16, read_u32, read_u64,
};
use crate::crc32c::{crc, masked, verify_wal_record_checksum};
use crate::text::{hex, number_text, push_hex, push_number, with_number};
use crate::varint::{
    law_varint32_roundtrip, lemma_varint_extends, lemma_varint_next, read_varint32, varint32,
    varint_bytes, varint_stop,
};
use crate::views::{opt_view, push_view, views};

verus! {

pub const WAL_BLOCK_SIZE: usize = 32 * 1024;

pub const WAL_HEADER_SIZE: usize = 7;

pub const MAX_REASONABLE_ENTRY_COUNT: u32 = 1_000_000;

/// Whether a physical record is a whole record or a part of one.
#[derive(Debug, Clone, Copy, PartialEq, Eq, Structural)]
pub enum WalRecordType {
    Full,
    First,
    Middle,
    Last,
}

impl WalRecordType {
    pub open spec fn spec_from_byte(byte: u8) -> Option<WalRecordType> {
        if byte == 1 {
            Some(WalRecordType::Full)
        } else if byte == 2 {
            Some(WalRecordType::First)
        } else if byte == 3 {
            Some(WalRecordType::Middle)
        } else if byte == 4 {
            Some(WalRecordType::Last)
        } else {
            None
        }
    }

    pub fn from_byte(byte: u8) -> (r: Option<WalRecordType>)
        ensures
            r == WalRecordType::spec_from_byte(byte),
    {
        match byte {
            1 => Some(WalRecordType::Full),
            2 => Some(WalRecordType::First),
            3 => Some(WalRecordType::Middle),
            4 => Some(WalRecordType::Last),
            _ => None,
        }
    }

    pub fn as_byte(self) -> (r: u8)
        ensures
            1 <= r <= 4,
            WalRecordType::spec_from_byte(r) == Some(self),
    {
        match self {
            WalRecordType::Full => 1,
            WalRecordType::First => 2,
            WalRecordType::Middle => 3,
            WalRecordType::Last => 4,
        }
    }
}

// ---------------------------------------------------------------------------
// Physical records
// ---------------------------------------------------------------------------

#[derive(Debug, Clone)]
pub struct WalPhysicalRecord {
    pub offset: usize,
    pub record_type: WalRecordType,
    pub payload: Vec<u8>,
    pub checksum_ok: bool,
}

/// A physical record as mathematical values.
#[verifier::ext_equal]
pub struct PhysicalView {
    pub offset: int,
    pub record_type: WalRecordType,
    pub payload: Seq<u8>,
    pub checksum_ok: bool,
}

impl View for WalPhysicalRecord {
    type V = PhysicalView;

    open spec fn view(&self) -> PhysicalView {
        PhysicalView {
            offset: self.offset as int,
            record_type: self.record_type,
            payload: self.payload@,
            checksum_ok: self.checksum_ok,
        }
    }
}

#[derive(Debug)]
pub struct WalPhysicalParseResult {
    pub records: Vec<WalPhysicalRecord>,
    pub warnings: Vec<String>,
}

#[verifier::ext_equal]
pub struct PhysicalParseView {
    pub records: Seq<PhysicalView>,
    pub warnings: Seq<Seq<char>>,
}

impl View for WalPhysicalParseResult {
    type V = PhysicalParseView;

    open spec fn view(&self) -> PhysicalParseView {
        PhysicalParseView { records: views(self.records@), warnings: views(self.warnings@) }
    }
}

impl PhysicalParseView {
    pub open spec fn warn(self, warning: Seq<char>) -> PhysicalParseView {
        PhysicalParseView { records: self.records, warnings: self.warnings.push(warning) }
    }

    pub open spec fn with(self, record: PhysicalView) -> PhysicalParseView {
        PhysicalParseView { records: self.records.push(record), warnings: self.warnings }
    }
}

pub open spec fn invalid_length_text(offset: int, length: int, room: int) -> Seq<char> {
    with_number(
        with_number(
            with_number("Physical record at offset "@, offset as nat, " has invalid length "@),
            length as nat,
            " (block remainder "@,
        ),
        room as nat,
        ")."@,
    )
}

pub open spec fn truncated_text(offset: int, length: int) -> Seq<char> {
    with_number(
        with_number("Truncated physical record at offset "@, offset as nat, " (declared "@),
        length as nat,
        " byte payload)."@,
    )
}

pub open spec fn unknown_type_text(kind: u8, offset: int) -> Seq<char> {
    with_number(
        with_number("Unknown WAL record type "@, kind as nat, " at offset "@),
        offset as nat,
        "."@,
    )
}

pub open spec fn checksum_text(offset: int, stored: nat) -> Seq<char> {
    with_number(
        "Checksum mismatch at offset "@,
        offset as nat,
        ": expected masked CRC "@,
    ) + hex(stored, 8) + "."@
}

/// What is read from `offset` on, after `done`. A header of seven bytes holds
/// the stored checksum, the payload's length and the record's type; a record
/// does not cross the border of a block, and a header of zeros is padding.
pub open spec fn physical_from(data: Seq<u8>, offset: int, done: PhysicalParseView) -> PhysicalParseView
    decreases
            (if offset < data.len() {
                data.len() - offset
            } else {
                0
            }),
{
    let left = WAL_BLOCK_SIZE - offset % (WAL_BLOCK_SIZE as int);
    if offset < 0 || offset >= data.len() {
        done
    } else if left < WAL_HEADER_SIZE {
        physical_from(data, offset + left, done)
    } else if offset + WAL_HEADER_SIZE > data.len() {
        done
    } else {
        let checksum = le_at(data, offset, 4);
        let length = le_at(data, offset + 4, 2) as int;
        let kind = data[offset + 6];
        let room = left - WAL_HEADER_SIZE;
        let start = offset + WAL_HEADER_SIZE;
        if checksum == 0 && length == 0 && kind == 0 {
            physical_from(data, start, done)
        } else if length > room {
            physical_from(data, offset + left, done.warn(invalid_length_text(offset, length, room)))
        } else if start + length > data.len() {
            done.warn(truncated_text(offset, length))
        } else {
            match WalRecordType::spec_from_byte(kind) {
                None => physical_from(
                    data,
                    start + length,
                    done.warn(unknown_type_text(kind, offset)),
                ),
                Some(record_type) => {
                    let payload = data.subrange(start, start + length);
                    let checksum_ok = checksum == masked(crc(seq![kind] + payload));
                    let record = PhysicalView { offset, record_type, payload, checksum_ok };
                    let next = if checksum_ok {
                        done.with(record)
                    } else {
                        done.warn(checksum_text(offset, checksum)).with(record)
                    };
                    physical_from(data, start + length, next)
                },
            }
        }
    }
}

/// The physical records of a log, and what was wrong with it.
pub open spec fn physical_records(data: Seq<u8>) -> PhysicalParseView {
    physical_from(data, 0, PhysicalParseView { records: Seq::empty(), warnings: Seq::empty() })
}

pub fn parse_wal_physical_records(data: &[u8]) -> (r: WalPhysicalParseResult)
    ensures
        r@ == physical_records(data@),
{
    let mut result = WalPhysicalParseResult { records: Vec::new(), warnings: Vec::new() };
    assert(result@ =~= PhysicalParseView { records: Seq::empty(), warnings: Seq::empty() });
    let mut offset: usize = 0;
    while offset < data.len()
        invariant
            physical_from(data@, offset as int, result@) == physical_records(data@),
        decreases data@.len() - offset,
    {
        let ghost before = result@;
        let block_offset: usize = offset % WAL_BLOCK_SIZE;
        let left: usize = WAL_BLOCK_SIZE - block_offset;
        let available: usize = data.len() - offset;
        if left < WAL_HEADER_SIZE {
            if left >= available {
                assert(physical_from(data@, offset + left, before) == before);
                return result;
            }
            offset = offset + left;
            continue;
        }
        if WAL_HEADER_SIZE > available {
            return result;
        }
        let checksum: u32 = read_u32(data, offset);
        let length: usize = read_u16(data, offset + 4) as usize;
        let kind: u8 = data[offset + 6];
        let room: usize = left - WAL_HEADER_SIZE;
        let start: usize = offset + WAL_HEADER_SIZE;
        if checksum == 0 && length == 0 && kind == 0 {
            offset = start;
            continue;
        }
        if length > room {
            let mut message = number_text(
                "Physical record at offset ",
                offset as u64,
                " has invalid length ",
            );
            push_number(&mut message, length as u64, " (block remainder ");
            push_number(&mut message, room as u64, ").");
            push_view(&mut result.warnings, message);
            assert(result@ == before.warn(
                invalid_length_text(offset as int, length as int, room as int),
            ));
            if left >= available {
                assert(physical_from(data@, offset + left, result@) == result@);
                return result;
            }
            offset = offset + left;
            continue;
        }
        if length > data.len() - start {
            let mut message = number_text(
                "Truncated physical record at offset ",
                offset as u64,
                " (declared ",
            );
            push_number(&mut message, length as u64, " byte payload).");
            push_view(&mut result.warnings, message);
            return result;
        }
        let end: usize = start + length;
        match WalRecordType::from_byte(kind) {
            None => {
                let mut message = number_text(
                    "Unknown WAL record type ",
                    kind as u64,
                    " at offset ",
                );
                push_number(&mut message, offset as u64, ".");
                push_view(&mut result.warnings, message);
                assert(result@ == before.warn(unknown_type_text(kind, offset as int)));
            },
            Some(record_type) => {
                let payload = byte_range(data, start, end);
                let checksum_ok = verify_wal_record_checksum(checksum, kind, payload.as_slice());
                if !checksum_ok {
                    let mut message = number_text(
                        "Checksum mismatch at offset ",
                        offset as u64,
                        ": expected masked CRC ",
                    );
                    push_hex(&mut message, checksum as u64, 8);
                    message.push_str(".");
                    push_view(&mut result.warnings, message);
                }
                push_view(
                    &mut result.records,
                    WalPhysicalRecord { offset, record_type, payload, checksum_ok },
                );
                let ghost record = PhysicalView {
                    offset: offset as int,
                    record_type,
                    payload: data@.subrange(start as int, end as int),
                    checksum_ok,
                };
                assert(result@ == if checksum_ok {
                    before.with(record)
                } else {
                    before.warn(checksum_text(offset as int, checksum as nat)).with(record)
                });
            },
        }
        offset = end;
    }
    result
}

/// The bytes of a physical record.
pub open spec fn record_bytes(kind: u8, payload: Seq<u8>) -> Seq<u8> {
    le_bytes(masked(crc(seq![kind] + payload)) as nat, 4) + le_bytes(payload.len(), 2) + seq![kind]
        + payload
}

/// A record that fits in its block reads back from its bytes with its checksum
/// confirmed, and reading goes on right after it.
pub proof fn law_physical_record_roundtrip(
    before: Seq<u8>,
    record_type: WalRecordType,
    kind: u8,
    payload: Seq<u8>,
    after: Seq<u8>,
    done: PhysicalParseView,
)
    requires
        WalRecordType::spec_from_byte(kind) == Some(record_type),
        before.len() % (WAL_BLOCK_SIZE as nat) + WAL_HEADER_SIZE + payload.len() <= WAL_BLOCK_SIZE,
    ensures
        physical_from(
            before + record_bytes(kind, payload) + after,
            before.len() as int,
            done,
        ) == physical_from(
            before + record_bytes(kind, payload) + after,
            (before.len() + WAL_HEADER_SIZE + payload.len()) as int,
            done.with(
                PhysicalView {
                    offset: before.len() as int,
                    record_type,
                    payload,
                    checksum_ok: true,
                },
            ),
        ),
{
    let stored = masked(crc(seq![kind] + payload)) as nat;
    reveal_with_fuel(pow256, 5);
    lemma_le_roundtrip(stored, 4);
    lemma_le_roundtrip(payload.len(), 2);
    let all = before + record_bytes(kind, payload) + after;
    let at = before.len() as int;
    assert(all.subrange(at, at + 4) =~= le_bytes(stored, 4));
    assert(all.subrange(at + 4, at + 6) =~= le_bytes(payload.len(), 2));
    assert(all[at + 6] == kind);
    assert(all.subrange(at + 7, at + 7 + payload.len()) =~= payload);
}

// ---------------------------------------------------------------------------
// Logical records
// ---------------------------------------------------------------------------

#[derive(Debug, Clone)]
pub struct WalLogicalRecord {
    pub offset: usize,
    pub payload: Vec<u8>,
    pub checksum_ok: bool,
    pub fragments: usize,
}

#[verifier::ext_equal]
pub struct LogicalView {
    pub offset: int,
    pub payload: Seq<u8>,
    pub checksum_ok: bool,
    pub fragments: int,
}

impl View for WalLogicalRecord {
    type V = LogicalView;

    open spec fn view(&self) -> LogicalView {
        LogicalView {
            offset: self.offset as int,
            payload: self.payload@,
            checksum_ok: self.checksum_ok,
            fragments: self.fragments as int,
        }
    }
}

#[derive(Debug)]
pub struct WalLogicalParseResult {
    pub records: Vec<WalLogicalRecord>,
    pub warnings: Vec<String>,
}

#[verifier::ext_equal]
pub struct LogicalParseView {
    pub records: Seq<LogicalView>,
    pub warnings: Seq<Seq<char>>,
}

impl View for WalLogicalParseResult {
    type V = LogicalParseView;

    open spec fn view(&self) -> LogicalParseView {
        LogicalParseView { records: views(self.records@), warnings: views(self.warnings@) }
    }
}

/// What has been put together so far, and the record that is still open.
#[verifier::ext_equal]
pub struct Assembly {
    pub records: Seq<LogicalView>,
    pub warnings: Seq<Seq<char>>,
    pub pending: Option<LogicalView>,
}

/// A logical record with one fragment.
pub open spec fn opened(r: PhysicalView) -> LogicalView {
    LogicalView {
        offset: r.offset,
        payload: r.payload,
        checksum_ok: r.checksum_ok,
        fragments: 1,
    }
}

/// A logical record with one more fragment.
pub open spec fn extended(open: LogicalView, r: PhysicalView) -> LogicalView {
    LogicalView {
        offset: open.offset,
        payload: open.payload + r.payload,
        checksum_ok: open.checksum_ok && r.checksum_ok,
        fragments: open.fragments + 1,
    }
}

/// The assembly after one more physical record.
pub open spec fn assembled_step(a: Assembly, r: PhysicalView) -> Assembly {
    match r.record_type {
        WalRecordType::Full => Assembly {
            records: a.records.push(opened(r)),
            warnings: match a.pending {
                Some(open) => a.warnings.push(
                    with_number(
                        "Unterminated fragmented record started at offset "@,
                        open.offset as nat,
                        "."@,
                    ),
                ),
                None => a.warnings,
            },
            pending: None,
        },
        WalRecordType::First => Assembly {
            records: a.records,
            warnings: match a.pending {
                Some(open) => a.warnings.push(
                    with_number(
                        "Discarded unterminated fragmented record started at offset "@,
                        open.offset as nat,
                        "."@,
                    ),
                ),
                None => a.warnings,
            },
            pending: Some(opened(r)),
        },
        WalRecordType::Middle => match a.pending {
            Some(open) => Assembly { pending: Some(extended(open, r)), ..a },
            None => Assembly {
                warnings: a.warnings.push(
                    with_number(
                        "Found MIDDLE fragment without FIRST at offset "@,
                        r.offset as nat,
                        "."@,
                    ),
                ),
                ..a
            },
        },
        WalRecordType::Last => match a.pending {
            Some(open) => Assembly {
                records: a.records.push(extended(open, r)),
                warnings: a.warnings,
                pending: None,
            },
            None => Assembly {
                warnings: a.warnings.push(
                    with_number(
                        "Found LAST fragment without FIRST at offset "@,
                        r.offset as nat,
                        "."@,
                    ),
                ),
                ..a
            },
        },
    }
}

/// The assembly after all of `physical`.
pub open spec fn assembled(physical: Seq<PhysicalView>) -> Assembly
    decreases physical.len(),
{
    if physical.len() == 0 {
        Assembly { records: Seq::empty(), warnings: Seq::empty(), pending: None }
    } else {
        assembled_step(assembled(physical.drop_last()), physical.last())
    }
}

/// The logical records of `physical`, and what was wrong with them. A record
/// that is still open at the end is dropped with a warning.
pub open spec fn logical_records(physical: Seq<PhysicalView>) -> LogicalParseView {
    let a = assembled(physical);
    LogicalParseView {
        records: a.records,
        warnings: match a.pending {
            Some(open) => a.warnings.push(
                with_number(
                    "WAL ended while a fragmented record from offset "@,
                    open.offset as nat,
                    " was still open."@,
                ),
            ),
            None => a.warnings,
        },
    }
}

pub fn assemble_wal_logical_records(physical_records: &[WalPhysicalRecord]) -> (r:
    WalLogicalParseResult)
    ensures
        r@ == logical_records(views(physical_records@)),
{
    let mut records: Vec<WalLogicalRecord> = Vec::new();
    let mut warnings: Vec<String> = Vec::new();
    let mut pending: Option<WalLogicalRecord> = None;
    let ghost all = views(physical_records@);
    assert(views(records@) =~= Seq::empty());
    assert(views(warnings@) =~= Seq::empty());
    for i in 0..physical_records.len()
        invariant
            all == views(physical_records@),
            assembled(all.take(i as int)) == (Assembly {
                records: views(records@),
                warnings: views(warnings@),
                pending: opt_view(pending),
            }),
            pending is Some ==> pending->0.fragments <= i,
    {
        let record = &physical_records[i];
        assert(all.take(i + 1).drop_last() == all.take(i as int));
        assert(all.take(i + 1).last() == record@);
        match record.record_type {
            WalRecordType::Full => {
                match pending {
                    Some(open) => {
                        push_view(
                            &mut warnings,
                            number_text(
                                "Unterminated fragmented record started at offset ",
                                open.offset as u64,
                                ".",
                            ),
                        );
                    },
                    None => {},
                }
                pending = None;
                push_view(
                    &mut records,
                    WalLogicalRecord {
                        offset: record.offset,
                        payload: copy_bytes(record.payload.as_slice()),
                        checksum_ok: record.checksum_ok,
                        fragments: 1,
                    },
                );
            },
            WalRecordType::First => {
                match pending {
                    Some(open) => {
                        push_view(
                            &mut warnings,
                            number_text(
                                "Discarded unterminated fragmented record started at offset ",
                                open.offset as u64,
                                ".",
                            ),
                        );
                    },
                    None => {},
                }
                pending = Some(
                    WalLogicalRecord {
                        offset: record.offset,
                        payload: copy_bytes(record.payload.as_slice()),
                        checksum_ok: record.checksum_ok,
                        fragments: 1,
                    },
                );
            },
            WalRecordType::Middle => {
                match pending {
                    Some(open) => {
                        let mut payload = open.payload;
                        payload.extend_from_slice(record.payload.as_slice());
                        assert(payload@ =~= open.payload@ + record.payload@);
                        pending = Some(
                            WalLogicalRecord {
                                offset: open.offset,
                                payload,
                                checksum_ok: open.checksum_ok && record.checksum_ok,
                                fragments: open.fragments + 1,
                            },
                        );
                    },
                    None => {
                        push_view(
                            &mut warnings,
                            number_text(
                                "Found MIDDLE fragment without FIRST at offset ",
                                record.offset as u64,
                                ".",
                            ),
                        );
                        pending = None;
                    },
                }
            },
            WalRecordType::Last => {
                match pending {
                    Some(open) => {
                        let mut payload = open.payload;
                        payload.extend_from_slice(record.payload.as_slice());
                        assert(payload@ =~= open.payload@ + record.payload@);
                        push_view(
                            &mut records,
                            WalLogicalRecord {
                                offset: open.offset,
                                payload,
                                checksum_ok: open.checksum_ok && record.checksum_ok,
                                fragments: open.fragments + 1,
                            },
                        );
                    },
                    None => {
                        push_view(
                            &mut warnings,
                            number_text(
                                "Found LAST fragment without FIRST at offset ",
                                record.offset as u64,
                                ".",
                            ),
                        );
                    },
                }
                pending = None;
            },
        }
    }
    assert(all.take(all.len() as int) == all);
    match pending {
        Some(open) => {
            push_view(
                &mut warnings,
                number_text(
                    "WAL ended while a fragmented record from offset ",
                    open.offset as u64,
                    " was still open.",
                ),
            );
        },
        None => {},
    }
    WalLogicalParseResult { records, warnings }
}

/// The payloads of `parts`, one after the other.
pub open spec fn joined_payloads(parts: Seq<PhysicalView>) -> Seq<u8>
    decreases parts.len(),
{
    if parts.len() == 0 {
        Seq::empty()
    } else {
        joined_payloads(parts.drop_last()) + parts.last().payload
    }
}

proof fn lemma_open_after_middles(before: Seq<PhysicalView>, first: PhysicalView, middles: Seq<PhysicalView>)
    requires
        first.record_type == WalRecordType::First,
        forall|i: int|
            0 <= i < middles.len() ==> (#[trigger] middles[i]).record_type == WalRecordType::Middle,
    ensures
        ({
            let a = assembled(before.push(first) + middles);
            let a0 = assembled(before.push(first));
            &&& a.records == assembled(before).records
            &&& a.warnings == a0.warnings
            &&& a.pending is Some
            &&& a.pending->0.offset == first.offset
            &&& a.pending->0.payload == first.payload + joined_payloads(middles)
            &&& a.pending->0.fragments == 1 + middles.len()
            &&& a.pending->0.checksum_ok == (first.checksum_ok && forall|i: int|
                0 <= i < middles.len() ==> (#[trigger] middles[i]).checksum_ok)
        }),
    decreases middles.len(),
{
    let s = before.push(first) + middles;
    if middles.len() == 0 {
        assert(s =~= before.push(first));
        assert(before.push(first).drop_last() =~= before);
        assert(first.payload + joined_payloads(middles) =~= first.payload);
    } else {
        let rest = middles.drop_last();
        assert(s.drop_last() =~= before.push(first) + rest);
        assert forall|i: int| 0 <= i < rest.len() implies (#[trigger] rest[i]).record_type
            == WalRecordType::Middle by {
            assert(rest[i] == middles[i]);
        }
        lemma_open_after_middles(before, first, rest);
        assert(s.last() == middles.last());
        assert(middles.last().record_type == WalRecordType::Middle);
        assert((first.payload + joined_payloads(rest)) + middles.last().payload =~= first.payload
            + joined_payloads(middles));
        if forall|i: int| 0 <= i < rest.len() ==> (#[trigger] rest[i]).checksum_ok {
            if middles.last().checksum_ok {
                assert forall|i: int| 0 <= i < middles.len() implies (
                #[trigger] middles[i]).checksum_ok by {
                    if i < rest.len() {
                        assert(rest[i].checksum_ok);
                    }
                }
            }
        } else {
            let i = choose|i: int| 0 <= i < rest.len() && !(#[trigger] rest[i]).checksum_ok;
            assert(!middles[i].checksum_ok);
        }
    }
}

/// A first fragment, any number of middle ones and a last one make one logical
/// record: its payload is theirs in order, it is sound only where each of them
/// is, and it starts where the first one does. Nothing else changes when no
/// record was open before.
pub proof fn law_fragments_reassemble(
    before: Seq<PhysicalView>,
    first: PhysicalView,
    middles: Seq<PhysicalView>,
    last: PhysicalView,
)
    requires
        first.record_type == WalRecordType::First,
        last.record_type == WalRecordType::Last,
        forall|i: int|
            0 <= i < middles.len() ==> (#[trigger] middles[i]).record_type == WalRecordType::Middle,
        assembled(before).pending is None,
    ensures
        assembled((before.push(first) + middles).push(last)) == (Assembly {
            records: assembled(before).records.push(
                LogicalView {
                    offset: first.offset,
                    payload: first.payload + joined_payloads(middles) + last.payload,
                    checksum_ok: first.checksum_ok && (forall|i: int|
                        0 <= i < middles.len() ==> (#[trigger] middles[i]).checksum_ok)
                        && last.checksum_ok,
                    fragments: (middles.len() + 2) as int,
                },
            ),
            warnings: assembled(before).warnings,
            pending: None,
        }),
{
    lemma_open_after_middles(before, first, middles);
    let s = (before.push(first) + middles).push(last);
    assert(s.drop_last() =~= before.push(first) + middles);
    assert(before.push(first).drop_last() =~= before);
}

// ---------------------------------------------------------------------------
// Write batches
// ---------------------------------------------------------------------------

#[derive(Debug, Clone, Copy, PartialEq, Eq, Structural)]
pub enum BatchOperationKind {
    Put,
    Delete,
}

#[derive(Debug, Clone)]
pub struct BatchOperation {
    pub kind: BatchOperationKind,
    pub key: Vec<u8>,
    pub value: Option<Vec<u8>>,
}

#[verifier::ext_equal]
pub struct OperationView {
    pub kind: BatchOperationKind,
    pub key: Seq<u8>,
    pub value: Option<Seq<u8>>,
}

impl View for BatchOperation {
    type V = OperationView;

    open spec fn view(&self) -> OperationView {
        OperationView { kind: self.kind, key: self.key@, value: opt_view(self.value) }
    }
}

#[derive(Debug)]
pub struct WriteBatch {
    pub sequence: u64,
    pub declared_count: u32,
    pub operations: Vec<BatchOperation>,
    pub trailing_bytes: usize,
}

#[verifier::ext_equal]
pub struct WriteBatchView {
    pub sequence: nat,
    pub declared_count: nat,
    pub operations: Seq<OperationView>,
    pub trailing_bytes: nat,
}

impl View for WriteBatch {
    type V = WriteBatchView;

    open spec fn view(&self) -> WriteBatchView {
        WriteBatchView {
            sequence: self.sequence as nat,
            declared_count: self.declared_count as nat,
            operations: views(self.operations@),
            trailing_bytes: self.trailing_bytes as nat,
        }
    }
}

/// The bytes at `pos` that a variable-length integer before them counts, and
/// the index after them.
pub open spec fn length_prefixed(payload: Seq<u8>, pos: int, field: Seq<char>) -> Result<
    (Seq<u8>, int),
    Seq<char>,
> {
    match varint32(payload, pos) {
        Err(e) => Err(e),
        Ok((length, start)) => if start + length > usize::MAX {
            Err(field + " length overflow"@)
        } else if start + length > payload.len() {
            Err(
                with_number(
                    with_number(
                        "Truncated "@ + field + ": declared "@,
                        length as nat,
                        " bytes, only "@,
                    ),
                    (payload.len() - start) as nat,
                    " remain."@,
                ),
            )
        } else {
            Ok((payload.subrange(start, start + length), start + length))
        },
    }
}

pub fn read_length_prefixed_bytes(
    payload: &[u8],
    position: &mut usize,
    field_name: &str,
) -> (r: Result<Vec<u8>, String>)
    ensures
        match r {
            Ok(bytes) => length_prefixed(payload@, *old(position) as int, field_name@) == Ok::<
                (Seq<u8>, int),
                Seq<char>,
            >((bytes@, *final(position) as int)),
            Err(e) => length_prefixed(payload@, *old(position) as int, field_name@) == Err::<
                (Seq<u8>, int),
                Seq<char>,
            >(e@) && *final(position) == varint_stop(payload@, *old(position) as int, 5),
        },
{
    let length: usize = match read_varint32(payload, position) {
        Ok(v) => v as usize,
        Err(e) => {
            return Err(e);
        },
    };
    let start: usize = *position;
    proof {
        lemma_varint_next(payload@, *old(position) as int, 5);
    }
    match start.checked_add(length) {
        None => {
            let mut message = field_name.to_string();
            message.push_str(" length overflow");
            Err(message)
        },
        Some(end) => {
            if end > payload.len() {
                let mut message = "Truncated ".to_string();
                message.push_str(field_name);
                message.push_str(": declared ");
                push_number(&mut message, length as u64, " bytes, only ");
                push_number(&mut message, (payload.len() - start) as u64, " remain.");
                return Err(message);
            }
            let bytes = byte_range(payload, start, end);
            *position = end;
            Ok(bytes)
        },
    }
}

/// The operations from entry `index` on, after `done`, and the index after the
/// last of them.
pub open spec fn operations_from(
    payload: Seq<u8>,
    index: int,
    count: int,
    pos: int,
    done: Seq<OperationView>,
) -> Result<(Seq<OperationView>, int), Seq<char>>
    decreases count - index,
{
    if index >= count {
        Ok((done, pos))
    } else if pos >= payload.len() {
        Err(
            with_number(
                "Unexpected end of payload before entry "@,
                (index + 1) as nat,
                " tag."@,
            ),
        )
    } else {
        let tag = payload[pos];
        match length_prefixed(payload, pos + 1, "key"@) {
            Err(e) => Err(e),
            Ok((key, after_key)) => if tag == 0 {
                let op = OperationView { kind: BatchOperationKind::Delete, key, value: None };
                operations_from(payload, index + 1, count, after_key, done.push(op))
            } else if tag == 1 {
                match length_prefixed(payload, after_key, "value"@) {
                    Err(e) => Err(e),
                    Ok((value, after_value)) => {
                        let op = OperationView {
                            kind: BatchOperationKind::Put,
                            key,
                            value: Some(value),
                        };
                        operations_from(payload, index + 1, count, after_value, done.push(op))
                    },
                }
            } else {
                Err(
                    with_number(
                        with_number(
                            "Unknown WriteBatch operation tag "@,
                            tag as nat,
                            " at entry "@,
                        ),
                        (index + 1) as nat,
                        "."@,
                    ),
                )
            },
        }
    }
}

/// The batch in `payload`: eight bytes of sequence number, four of entry count,
/// then the entries.
pub open spec fn write_batch(payload: Seq<u8>) -> Result<WriteBatchView, Seq<char>> {
    if payload.len() < 12 {
        Err(
            with_number(
                "WriteBatch payload too short: "@,
                payload.len(),
                " bytes (minimum 12)."@,
            ),
        )
    } else {
        let count = le_at(payload, 8, 4);
        if count > MAX_REASONABLE_ENTRY_COUNT {
            Err(with_number("Declared entry count "@, count, " is unreasonably large."@))
        } else {
            match operations_from(payload, 0, count as int, 12, Seq::empty()) {
                Err(e) => Err(e),
                Ok((operations, end)) => Ok(
                    WriteBatchView {
                        sequence: le_at(payload, 0, 8),
                        declared_count: count,
                        operations,
                        trailing_bytes: (payload.len() - end) as nat,
                    },
                ),
            }
        }
    }
}

pub fn parse_write_batch(payload: &[u8]) -> (r: Result<WriteBatch, String>)
    ensures
        match r {
            Ok(batch) => write_batch(payload@) == Ok::<WriteBatchView, Seq<char>>(batch@),
            Err(e) => write_batch(payload@) == Err::<WriteBatchView, Seq<char>>(e@),
        },
{
    if payload.len() < 12 {
        return Err(
            number_text(
                "WriteBatch payload too short: ",
                payload.len() as u64,
                " bytes (minimum 12).",
            ),
        );
    }
    let sequence: u64 = read_u64(payload, 0);
    let declared_count: u32 = read_u32(payload, 8);
    if declared_count > MAX_REASONABLE_ENTRY_COUNT {
        return Err(
            number_text("Declared entry count ", declared_count as u64, " is unreasonably large."),
        );
    }
    let mut position: usize = 12;
    let mut operations: Vec<BatchOperation> = Vec::new();
    assert(views(operations@) =~= Seq::empty());
    let ghost whole = operations_from(payload@, 0, declared_count as int, 12, Seq::empty());
    for index in 0..declared_count
        invariant
            declared_count == le_at(payload@, 8, 4),
            declared_count <= MAX_REASONABLE_ENTRY_COUNT,
            payload@.len() >= 12,
            position <= payload@.len(),
            whole == operations_from(payload@, 0, declared_count as int, 12, Seq::empty()),
            operations_from(
                payload@,
                index as int,
                declared_count as int,
                position as int,
                views(operations@),
            ) == whole,
    {
        if position >= payload.len() {
            return Err(
                number_text(
                    "Unexpected end of payload before entry ",
                    (index + 1) as u64,
                    " tag.",
                ),
            );
        }
        let tag: u8 = payload[position];
        position = position + 1;
        let key = match read_length_prefixed_bytes(payload, &mut position, "key") {
            Ok(key) => key,
            Err(e) => {
                return Err(e);
            },
        };
        if tag == 0 {
            push_view(
                &mut operations,
                BatchOperation { kind: BatchOperationKind::Delete, key, value: None },
            );
        } else if tag == 1 {
            let value = match read_length_prefixed_bytes(payload, &mut position, "value") {
                Ok(value) => value,
                Err(e) => {
                    return Err(e);
                },
            };
            push_view(
                &mut operations,
                BatchOperation { kind: BatchOperationKind::Put, key, value: Some(value) },
            );
        } else {
            let mut message = number_text(
                "Unknown WriteBatch operation tag ",
                tag as u64,
                " at entry ",
            );
            push_number(&mut message, (index + 1) as u64, ".");
            return Err(message);
        }
    }
    let trailing_bytes: usize = payload.len() - position;
    Ok(WriteBatch { sequence, declared_count, operations, trailing_bytes })
}

/// The bytes of an operation in a batch.
pub open spec fn operation_bytes(op: OperationView) -> Seq<u8> {
    match op.value {
        Some(value) => seq![1u8] + prefixed_bytes(op.key) + prefixed_bytes(value),
        None => seq![0u8] + prefixed_bytes(op.key),
    }
}

pub open spec fn prefixed_bytes(s: Seq<u8>) -> Seq<u8> {
    varint_bytes(s.len()) + s
}

pub open spec fn operations_bytes(ops: Seq<OperationView>) -> Seq<u8>
    decreases ops.len(),
{
    if ops.len() == 0 {
        Seq::empty()
    } else {
        operation_bytes(ops[0]) + operations_bytes(ops.skip(1))
    }
}

/// A put carries a value and a delete none; lengths fit in 32 bits.
pub open spec fn well_formed_operation(op: OperationView) -> bool {
    &&& op.value is Some <==> op.kind == BatchOperationKind::Put
    &&& op.key.len() <= u32::MAX
    &&& op.value is Some ==> op.value->0.len() <= u32::MAX
}

proof fn lemma_prefixed(before: Seq<u8>, s: Seq<u8>, after: Seq<u8>, field: Seq<char>)
    requires
        s.len() <= u32::MAX,
        (before + prefixed_bytes(s) + after).len() <= usize::MAX,
    ensures
        length_prefixed(before + prefixed_bytes(s) + after, before.len() as int, field) == Ok::<
            (Seq<u8>, int),
            Seq<char>,
        >((s, (before + prefixed_bytes(s)).len() as int)),
{
    let all = before + prefixed_bytes(s) + after;
    law_varint32_roundtrip(s.len() as u32, before, s + after);
    assert(before + varint_bytes(s.len()) + (s + after) =~= all);
    let start = (before.len() + varint_bytes(s.len()).len()) as int;
    assert(all.subrange(start, start + s.len()) =~= s);
}

proof fn lemma_operation_parses(
    before: Seq<u8>,
    op: OperationView,
    rest: Seq<u8>,
    index: int,
    count: int,
    done: Seq<OperationView>,
)
    requires
        (before + operation_bytes(op) + rest).len() <= usize::MAX,
        well_formed_operation(op),
        index < count,
    ensures
        operations_from(
            before + operation_bytes(op) + rest,
            index,
            count,
            before.len() as int,
            done,
        ) == operations_from(
            before + operation_bytes(op) + rest,
            index + 1,
            count,
            (before + operation_bytes(op)).len() as int,
            done.push(op),
        ),
{
    let all = before + operation_bytes(op) + rest;
    let at = before.len() as int;
    match op.value {
        Some(value) => {
            let front = before + seq![1u8];
            let middle = front + prefixed_bytes(op.key);
            assert(length_prefixed(all, at + 1, "key"@) == Ok::<(Seq<u8>, int), Seq<char>>(
                (op.key, middle.len() as int),
            )) by {
                assert(front + prefixed_bytes(op.key) + (prefixed_bytes(value) + rest) =~= all);
                lemma_prefixed(front, op.key, prefixed_bytes(value) + rest, "key"@);
            }
            assert(length_prefixed(all, middle.len() as int, "value"@) == Ok::<
                (Seq<u8>, int),
                Seq<char>,
            >((value, (before + operation_bytes(op)).len() as int))) by {
                assert(middle + prefixed_bytes(value) + rest =~= all);
                lemma_prefixed(middle, value, rest, "value"@);
                assert(middle + prefixed_bytes(value) =~= before + operation_bytes(op));
            }
            assert(all[at] == 1u8);
        },
        None => {
            let front = before + seq![0u8];
            assert(length_prefixed(all, at + 1, "key"@) == Ok::<(Seq<u8>, int), Seq<char>>(
                (op.key, (before + operation_bytes(op)).len() as int),
            )) by {
                assert(front + prefixed_bytes(op.key) + rest =~= all);
                lemma_prefixed(front, op.key, rest, "key"@);
                assert(front + prefixed_bytes(op.key) =~= before + operation_bytes(op));
            }
            assert(all[at] == 0u8);
        },
    }
}

/// Four parts one behind the other, however they are grouped.
proof fn lemma_grouped(a: Seq<u8>, b: Seq<u8>, c: Seq<u8>, d: Seq<u8>)
    ensures
        a + b + (c + d) == a + (b + c) + d,
        a + b + c + d == a + (b + c) + d,
        a + b + c == a + (b + c),
{
    assert(a + b + (c + d) =~= a + (b + c) + d);
    assert(a + b + c + d =~= a + (b + c) + d);
    assert(a + b + c =~= a + (b + c));
}

#[verifier::spinoff_prover]
#[verifier::rlimit(40)]
proof fn lemma_operations_parse(
    before: Seq<u8>,
    ops: Seq<OperationView>,
    after: Seq<u8>,
    index: int,
    done: Seq<OperationView>,
)
    requires
        (before + operations_bytes(ops) + after).len() <= usize::MAX,
        forall|i: int| 0 <= i < ops.len() ==> well_formed_operation(#[trigger] ops[i]),
    ensures
        operations_from(
            before + operations_bytes(ops) + after,
            index,
            index + ops.len(),
            before.len() as int,
            done,
        ) == Ok::<(Seq<OperationView>, int), Seq<char>>(
            (done + ops, (before + operations_bytes(ops)).len() as int),
        ),
    decreases ops.len(),
{
    if ops.len() == 0 {
        assert(done + ops =~= done);
    } else {
        let op = ops[0];
        let others = ops.skip(1);
        assert(operations_bytes(ops) == operation_bytes(op) + operations_bytes(others));
        lemma_grouped(before, operation_bytes(op), operations_bytes(others), after);
        lemma_operation_parses(
            before,
            op,
            operations_bytes(others) + after,
            index,
            index + ops.len(),
            done,
        );
        let next = before + operation_bytes(op);
        assert forall|i: int| 0 <= i < others.len() implies well_formed_operation(
            #[trigger] others[i],
        ) by {
            assert(others[i] == ops[i + 1]);
        }
        lemma_operations_parse(next, others, after, index + 1, done.push(op));
        assert(done.push(op) + others =~= done + ops);
    }
}

/// A batch of at most a million operations reads back from its bytes, whatever
/// follows them; what follows is counted.
pub proof fn law_write_batch_roundtrip(sequence: u64, ops: Seq<OperationView>, trailing: Seq<u8>)
    requires
        ops.len() <= MAX_REASONABLE_ENTRY_COUNT,
        forall|i: int| 0 <= i < ops.len() ==> well_formed_operation(#[trigger] ops[i]),
        12 + operations_bytes(ops).len() + trailing.len() <= usize::MAX,
    ensures
        write_batch(
            le_bytes(sequence as nat, 8) + le_bytes(ops.len(), 4) + operations_bytes(ops)
                + trailing,
        ) == Ok::<WriteBatchView, Seq<char>>(
            WriteBatchView {
                sequence: sequence as nat,
                declared_count: ops.len(),
                operations: ops,
                trailing_bytes: trailing.len(),
            },
        ),
{
    let head = le_bytes(sequence as nat, 8) + le_bytes(ops.len(), 4);
    let all = head + operations_bytes(ops) + trailing;
    reveal_with_fuel(pow256, 9);
    lemma_le_roundtrip(sequence as nat, 8);
    lemma_le_roundtrip(ops.len(), 4);
    assert(all.subrange(0, 8) =~= le_bytes(sequence as nat, 8));
    assert(all.subrange(8, 12) =~= le_bytes(ops.len(), 4));
    lemma_operations_parse(head, ops, trailing, 0, Seq::empty());
    assert(Seq::<OperationView>::empty() + ops =~= ops);
}

proof fn lemma_prefixed_extends(payload: Seq<u8>, more: Seq<u8>, pos: int, field: Seq<char>)
    requires
        length_prefixed(payload, pos, field) is Ok,
    ensures
        length_prefixed(payload + more, pos, field) == length_prefixed(payload, pos, field),
        pos < (length_prefixed(payload, pos, field)->Ok_0).1 <= payload.len(),
{
    lemma_varint_extends(payload, more, pos, 5);
    lemma_varint_next(payload, pos, 5);
    let (length, start) = varint32(payload, pos)->Ok_0;
    assert((payload + more).subrange(start, start + length) =~= payload.subrange(
        start,
        start + length,
    ));
}

proof fn lemma_operations_extend(
    payload: Seq<u8>,
    more: Seq<u8>,
    index: int,
    count: int,
    pos: int,
    done: Seq<OperationView>,
)
    requires
        0 <= pos <= payload.len(),
        operations_from(payload, index, count, pos, done) is Ok,
    ensures
        operations_from(payload + more, index, count, pos, done) == operations_from(
            payload,
            index,
            count,
            pos,
            done,
        ),
        (operations_from(payload, index, count, pos, done)->Ok_0).1 <= payload.len(),
    decreases count - index,
{
    if index < count {
        let tag = payload[pos];
        assert((payload + more)[pos] == tag);
        lemma_prefixed_extends(payload, more, pos + 1, "key"@);
        let (key, after_key) = length_prefixed(payload, pos + 1, "key"@)->Ok_0;
        if tag == 0 {
            let op = OperationView { kind: BatchOperationKind::Delete, key, value: None };
            lemma_operations_extend(payload, more, index + 1, count, after_key, done.push(op));
        } else {
            lemma_prefixed_extends(payload, more, after_key, "value"@);
            let (value, after_value) = length_prefixed(payload, after_key, "value"@)->Ok_0;
            let op = OperationView { kind: BatchOperationKind::Put, key, value: Some(value) };
            lemma_operations_extend(payload, more, index + 1, count, after_value, done.push(op));
        }
    }
}

/// Bytes behind a batch that reads change nothing of it but the number of bytes
/// that follow it.
pub proof fn law_bytes_behind_batch(payload: Seq<u8>, more: Seq<u8>)
    requires
        write_batch(payload) is Ok,
    ensures
        write_batch(payload + more) == Ok::<WriteBatchView, Seq<char>>(
            (WriteBatchView {
                trailing_bytes: (write_batch(payload)->Ok_0).trailing_bytes + more.len(),
                ..write_batch(payload)->Ok_0
            }),
        ),
{
    let all = payload + more;
    let count = le_at(payload, 8, 4);
    assert(all.subrange(0, 8) =~= payload.subrange(0, 8));
    assert(all.subrange(8, 12) =~= payload.subrange(8, 12));
    lemma_operations_extend(payload, more, 0, count as int, 12, Seq::empty());
}

/// A batch that is cut short, anywhere before the end of its last operation, is
/// refused.
pub proof fn law_batch_cut_short(payload: Seq<u8>, length: int)
    requires
        write_batch(payload) is Ok,
        0 <= length < payload.len() - (write_batch(payload)->Ok_0).trailing_bytes,
    ensures
        write_batch(payload.take(length)) is Err,
{
    let front = payload.take(length);
    let rest = payload.skip(length);
    assert(front + rest =~= payload);
    if write_batch(front) is Ok {
        law_bytes_behind_batch(front, rest);
    }
}

} // verus!
