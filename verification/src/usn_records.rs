//! The records of an NTFS change journal and of a file record, as they lie in
//! the buffers that the system fills.

use vstd::prelude::*;

use crate::bytes::{le_at, read_u16, read_u32, read_u64};
use crate::minecraft::{is_numbered, is_numbered_name};
use crate::std_text::{decode_utf16, utf16_decoded};
use crate::text::{
    all_digits, chars_of, ends_with, finishes_with, head, is_text, lower, lower_chars, only_digits,
    split, split_chars, string_of, CharClass,
};
use crate::time::{filetime_to_datetime, of_filetime, Timestamp};
use crate::views::{push_view, views};

verus! {

pub const DATA_OVERWRITE: u32 = 0x0000_0001;

pub const DATA_EXTEND: u32 = 0x0000_0002;

pub const FILE_CREATE: u32 = 0x0000_0100;

pub const FILE_DELETE: u32 = 0x0000_0200;

pub const RENAME_OLD_NAME: u32 = 0x0000_1000;

pub const RENAME_NEW_NAME: u32 = 0x0000_2000;

pub const STREAM_CHANGE: u32 = 0x0020_0000;

pub const CLOSE: u32 = 0x8000_0000;

/// All reasons that are told apart.
pub const KNOWN_REASONS: u32 = 0x8020_3303;

/// The reasons that make a record worth a look: all but `CLOSE`.
pub const WATCHED_REASONS: u32 = 0x0020_3303;

/// The flag of a directory among the attributes of a file.
pub const DIRECTORY_ATTRIBUTE: u32 = 0x0000_0010;

// ---------------------------------------------------------------------------
// Records
// ---------------------------------------------------------------------------

#[derive(Debug, Clone)]
pub struct ParsedUsnRecord {
    pub file_reference_number: u64,
    pub parent_file_reference_number: u64,
    pub timestamp_utc: Timestamp,
    pub reason: u32,
    pub file_attributes: u32,
    pub file_name: String,
}

#[verifier::ext_equal]
pub struct UsnRecordView {
    pub file_reference_number: u64,
    pub parent_file_reference_number: u64,
    pub timestamp_utc: Timestamp,
    pub reason: u32,
    pub file_attributes: u32,
    pub file_name: Seq<char>,
}

impl View for ParsedUsnRecord {
    type V = UsnRecordView;

    open spec fn view(&self) -> UsnRecordView {
        UsnRecordView {
            file_reference_number: self.file_reference_number,
            parent_file_reference_number: self.parent_file_reference_number,
            timestamp_utc: self.timestamp_utc,
            reason: self.reason,
            file_attributes: self.file_attributes,
            file_name: self.file_name@,
        }
    }
}

/// A 64-bit number read as a signed one.
pub open spec fn signed(v: nat) -> int {
    if v < 0x8000_0000_0000_0000 {
        v as int
    } else {
        v - 0x1_0000_0000_0000_0000
    }
}

pub fn read_i64(s: &[u8], at: usize) -> (r: i64)
    requires
        at + 8 <= s@.len(),
    ensures
        r as int == signed(le_at(s@, at as int, 8)),
{
    let v: u64 = read_u64(s, at);
    if v < 0x8000_0000_0000_0000 {
        v as i64
    } else {
        -((u64::MAX - v) as i64) - 1
    }
}

/// Two bytes each, low byte first.
pub open spec fn units(s: Seq<u8>) -> Seq<u16>
    decreases s.len(),
{
    if s.len() < 2 {
        Seq::empty()
    } else {
        units(s.take(s.len() - 2)).push((s[s.len() - 2] + 256 * s[s.len() - 1]) as u16)
    }
}

/// The text in UTF-16 that `s` holds.
pub open spec fn wide_text(s: Seq<u8>) -> Option<Seq<char>> {
    if s.len() % 2 != 0 {
        None
    } else {
        utf16_decoded(units(s))
    }
}

pub fn wide_to_string(bytes: &[u8]) -> (r: Option<String>)
    ensures
        match r {
            Some(s) => wide_text(bytes@) == Some(s@),
            None => wide_text(bytes@) is None,
        },
{
    if bytes.len() % 2 != 0 {
        return None;
    }
    let mut out: Vec<u16> = Vec::new();
    let mut i: usize = 0;
    assert(units(bytes@.take(0)) =~= Seq::empty());
    while i < bytes.len()
        invariant
            i <= bytes@.len(),
            i % 2 == 0,
            bytes@.len() % 2 == 0,
            out@ == units(bytes@.take(i as int)),
        decreases bytes@.len() - i,
    {
        let unit: u16 = bytes[i] as u16 + 256 * bytes[i + 1] as u16;
        let ghost next = bytes@.take(i + 2);
        assert(next.take(next.len() - 2) =~= bytes@.take(i as int));
        out.push(unit);
        i = i + 2;
    }
    assert(bytes@.take(i as int) =~= bytes@);
    decode_utf16(out.as_slice())
}

/// Where the fields of a record stand, counted from its start.
pub struct RecordLayout {
    pub parent: int,
    pub timestamp: int,
    pub reason: int,
    pub attributes: int,
    pub name_length: int,
    pub name_offset: int,
}

/// The layout of a record of version 2 or 3. In version 3 a file has 16 bytes of
/// id, of which the low 8 count.
pub open spec fn record_layout(major: nat) -> Option<RecordLayout> {
    if major == 2 {
        Some(
            RecordLayout {
                parent: 16,
                timestamp: 32,
                reason: 40,
                attributes: 52,
                name_length: 56,
                name_offset: 58,
            },
        )
    } else if major == 3 {
        Some(
            RecordLayout {
                parent: 24,
                timestamp: 48,
                reason: 56,
                attributes: 68,
                name_length: 72,
                name_offset: 74,
            },
        )
    } else {
        None
    }
}

/// The record of the layout `l` at `offset`, with the name in the bytes from
/// `name_start` up to `name_end`.
pub open spec fn record_at(b: Seq<u8>, offset: int, l: RecordLayout, name_start: int, name_end: int) -> UsnRecordView {
    UsnRecordView {
        file_reference_number: le_at(b, offset + 8, 8) as u64,
        parent_file_reference_number: le_at(b, offset + l.parent, 8) as u64,
        timestamp_utc: of_filetime(signed(le_at(b, offset + l.timestamp, 8))),
        reason: (le_at(b, offset + l.reason, 4) as u32) & KNOWN_REASONS,
        file_attributes: le_at(b, offset + l.attributes, 4) as u32,
        file_name: match wide_text(b.subrange(name_start, name_end)) {
            Some(name) => name,
            None => "<unknown>"@,
        },
    }
}

/// The records from `offset` on, after `done`. A record of an unknown version,
/// or one too short for its version, is passed over; reading ends at a record
/// that does not fit in the buffer.
pub open spec fn records_from(b: Seq<u8>, offset: int, done: Seq<UsnRecordView>) -> Seq<
    UsnRecordView,
>
    decreases b.len() - offset,
{
    if offset < 0 || offset + 60 > b.len() {
        done
    } else {
        let length = le_at(b, offset, 4) as int;
        if length == 0 || offset + length > b.len() {
            done
        } else {
            match record_layout(le_at(b, offset + 4, 2)) {
                None => records_from(b, offset + length, done),
                Some(l) => if length < l.name_offset + 2 {
                    records_from(b, offset + length, done)
                } else {
                    let name_start = offset + le_at(b, offset + l.name_offset, 2);
                    let name_end = name_start + le_at(b, offset + l.name_length, 2);
                    if name_end > b.len() {
                        done
                    } else {
                        records_from(
                            b,
                            offset + length,
                            done.push(record_at(b, offset, l, name_start, name_end)),
                        )
                    }
                },
            }
        }
    }
}

/// The number at the start of a buffer, which says where to go on.
pub open spec fn next_marker(b: Seq<u8>) -> nat {
    if b.len() < 8 {
        0
    } else {
        le_at(b, 0, 8)
    }
}

pub open spec fn usn_records(b: Seq<u8>) -> Seq<UsnRecordView> {
    if b.len() < 8 {
        Seq::empty()
    } else {
        records_from(b, 8, Seq::empty())
    }
}

/// The number at the start of a buffer and the records behind it.
pub fn parse_usn_buffer(buffer: &[u8]) -> (r: (u64, Vec<ParsedUsnRecord>))
    ensures
        r.0 as nat == next_marker(buffer@),
        views(r.1@) == usn_records(buffer@),
{
    let mut out: Vec<ParsedUsnRecord> = Vec::new();
    assert(views(out@) =~= Seq::empty());
    if buffer.len() < 8 {
        return (0, out);
    }
    let marker: u64 = read_u64(buffer, 0);
    let mut offset: usize = 8;
    while buffer.len() - offset >= 60
        invariant
            8 <= offset <= buffer@.len(),
            marker as nat == next_marker(buffer@),
            records_from(buffer@, offset as int, views(out@)) == usn_records(buffer@),
        decreases buffer@.len() - offset,
    {
        let available: usize = buffer.len() - offset;
        let length: usize = read_u32(buffer, offset) as usize;
        if length == 0 || length > available {
            return (marker, out);
        }
        let major: u16 = read_u16(buffer, offset + 4);
        let (parent, timestamp, reason, attributes, name_length, name_offset): (
            usize,
            usize,
            usize,
            usize,
            usize,
            usize,
        ) = if major == 2 {
            (16, 32, 40, 52, 56, 58)
        } else {
            (24, 48, 56, 68, 72, 74)
        };
        if (major == 2 || major == 3) && length >= name_offset + 2 {
            let name_start: usize = read_u16(buffer, offset + name_offset) as usize;
            let name_size: usize = read_u16(buffer, offset + name_length) as usize;
            if name_start + name_size > available {
                return (marker, out);
            }
            let name_bytes = vstd::slice::slice_subrange(
                buffer,
                offset + name_start,
                offset + name_start + name_size,
            );
            let file_name = match wide_to_string(name_bytes) {
                Some(name) => name,
                None => "<unknown>".to_string(),
            };
            let record = ParsedUsnRecord {
                file_reference_number: read_u64(buffer, offset + 8),
                parent_file_reference_number: read_u64(buffer, offset + parent),
                timestamp_utc: filetime_to_datetime(read_i64(buffer, offset + timestamp)),
                reason: read_u32(buffer, offset + reason) & KNOWN_REASONS,
                file_attributes: read_u32(buffer, offset + attributes),
                file_name,
            };
            assert(record@ == record_at(
                buffer@,
                offset as int,
                record_layout(major as nat)->0,
                offset + name_start,
                offset + name_start + name_size,
            ));
            push_view(&mut out, record);
        }
        offset = offset + length;
    }
    (marker, out)
}

/// The time of the first record in a buffer.
pub fn first_timestamp(buffer: &[u8]) -> (r: Option<Timestamp>)
    ensures
        r == if usn_records(buffer@).len() > 0 {
            Some(usn_records(buffer@)[0].timestamp_utc)
        } else {
            None
        },
{
    let (_, records) = parse_usn_buffer(buffer);
    assert(views(records@).len() == records@.len());
    if records.len() > 0 {
        assert(views(records@)[0] == records@[0]@);
        Some(records[0].timestamp_utc)
    } else {
        None
    }
}

/// A reference number without the count of how often it was used again.
pub open spec fn reference_base(value: u64) -> u64 {
    value % 0x1_0000_0000_0000
}

pub fn frn_base(value: u64) -> (r: u64)
    ensures
        r == reference_base(value),
{
    value % 0x1_0000_0000_0000
}

/// All bits of `flag` are set in `reasons`.
pub open spec fn has_reason(reasons: u32, flag: u32) -> bool {
    reasons & flag == flag
}

/// What happened to a file, in one word: the gravest of the reasons.
pub open spec fn reason_word(reasons: u32) -> Seq<char> {
    if has_reason(reasons, FILE_DELETE) {
        "deleted"@
    } else if has_reason(reasons, RENAME_NEW_NAME) || has_reason(reasons, RENAME_OLD_NAME) {
        "renamed"@
    } else if has_reason(reasons, FILE_CREATE) {
        "created"@
    } else if has_reason(reasons, DATA_OVERWRITE) {
        "overwrite"@
    } else if has_reason(reasons, DATA_EXTEND) {
        "extend"@
    } else if has_reason(reasons, STREAM_CHANGE) {
        "stream_change"@
    } else {
        "changed"@
    }
}

pub fn describe_reason(flags: u32) -> (r: &'static str)
    ensures
        r@ == reason_word(flags),
{
    if flags & FILE_DELETE == FILE_DELETE {
        "deleted"
    } else if flags & RENAME_NEW_NAME == RENAME_NEW_NAME || flags & RENAME_OLD_NAME
        == RENAME_OLD_NAME {
        "renamed"
    } else if flags & FILE_CREATE == FILE_CREATE {
        "created"
    } else if flags & DATA_OVERWRITE == DATA_OVERWRITE {
        "overwrite"
    } else if flags & DATA_EXTEND == DATA_EXTEND {
        "extend"
    } else if flags & STREAM_CHANGE == STREAM_CHANGE {
        "stream_change"
    } else {
        "changed"
    }
}

/// A record that is worth a look is described by one of the watched reasons.
pub proof fn law_watched_reason_named(reasons: u32)
    requires
        reasons & WATCHED_REASONS != 0,
    ensures
        has_reason(reasons, FILE_DELETE) || has_reason(reasons, RENAME_NEW_NAME) || has_reason(
            reasons,
            RENAME_OLD_NAME,
        ) || has_reason(reasons, FILE_CREATE) || has_reason(reasons, DATA_OVERWRITE) || has_reason(
            reasons,
            DATA_EXTEND,
        ) || has_reason(reasons, STREAM_CHANGE),
{
    assert(reasons & 0x0020_3303 != 0 ==> reasons & 0x200 == 0x200 || reasons & 0x2000 == 0x2000
        || reasons & 0x1000 == 0x1000 || reasons & 0x100 == 0x100 || reasons & 1 == 1 || reasons & 2
        == 2 || reasons & 0x20_0000 == 0x20_0000) by (bit_vector);
}

// ---------------------------------------------------------------------------
// File records
// ---------------------------------------------------------------------------

/// The time of the last change in the attributes from `offset` on. Only a
/// standard information attribute (type 16) that lies in the record holds one.
pub open spec fn modified_from(record: Seq<u8>, offset: int) -> Option<Timestamp>
    decreases record.len() - offset,
{
    if offset < 0 || offset + 16 > record.len() {
        None
    } else {
        let kind = le_at(record, offset, 4);
        let length = le_at(record, offset + 4, 4) as int;
        if kind == 0xffff_ffff || length < 16 || offset + length > record.len() {
            None
        } else if kind == 0x10 && record[offset + 8] == 0 {
            if offset + 24 > record.len() {
                None
            } else {
                let value_length = le_at(record, offset + 16, 4) as int;
                let value_start = offset + le_at(record, offset + 20, 2);
                if value_length >= 16 && value_start + value_length <= record.len() {
                    Some(of_filetime(signed(le_at(record, value_start + 8, 8))))
                } else {
                    None
                }
            }
        } else {
            modified_from(record, offset + length)
        }
    }
}

/// The time of the last change that a file record holds.
pub open spec fn record_modified(record: Seq<u8>) -> Option<Timestamp> {
    if record.len() < 24 || le_at(record, 20, 2) >= record.len() {
        None
    } else {
        modified_from(record, le_at(record, 20, 2) as int)
    }
}

pub fn parse_standard_info_modified_time(record: &[u8]) -> (r: Option<Timestamp>)
    ensures
        r == record_modified(record@),
{
    if record.len() < 24 {
        return None;
    }
    let mut offset: usize = read_u16(record, 20) as usize;
    if offset >= record.len() {
        return None;
    }
    while record.len() - offset >= 16
        invariant
            offset <= record@.len(),
            modified_from(record@, offset as int) == record_modified(record@),
        decreases record@.len() - offset,
    {
        let available: usize = record.len() - offset;
        let kind: u32 = read_u32(record, offset);
        let length: usize = read_u32(record, offset + 4) as usize;
        if kind == 0xffff_ffff || length < 16 || length > available {
            return None;
        }
        if kind == 0x10 && record[offset + 8] == 0 {
            if available < 24 {
                return None;
            }
            let value_length: u64 = read_u32(record, offset + 16) as u64;
            let value_offset: u64 = read_u16(record, offset + 20) as u64;
            if value_length >= 16 && value_offset + value_length <= available as u64 {
                let value_start: usize = offset + value_offset as usize;
                return Some(filetime_to_datetime(read_i64(record, value_start + 8)));
            }
            return None;
        }
        offset = offset + length;
    }
    None
}

/// The time of the last change in what the system handed out for a file record:
/// twelve bytes, the last four of which count those of the record, and the record.
pub open spec fn output_modified(output: Seq<u8>) -> Option<Timestamp> {
    if output.len() < 12 {
        None
    } else {
        let end = 12 + le_at(output, 8, 4);
        let cut = if end < output.len() {
            end as int
        } else {
            output.len() as int
        };
        if cut <= 12 {
            None
        } else {
            record_modified(output.subrange(12, cut))
        }
    }
}

pub fn file_record_modified_time(output: &[u8]) -> (r: Option<Timestamp>)
    ensures
        r == output_modified(output@),
{
    if output.len() < 12 {
        return None;
    }
    let length: usize = read_u32(output, 8) as usize;
    let end: usize = if length < output.len() - 12 {
        12 + length
    } else {
        output.len()
    };
    if end <= 12 {
        return None;
    }
    parse_standard_info_modified_time(vstd::slice::slice_subrange(output, 12, end))
}

// ---------------------------------------------------------------------------
// Names
// ---------------------------------------------------------------------------

/// What stands behind the last separator of a path; all of it where there is none.
pub open spec fn usn_name(path: Seq<char>) -> Seq<char> {
    split(path, CharClass::Separator).last()
}

pub fn usn_file_name(path: &str) -> (r: String)
    ensures
        r@ == usn_name(path@),
{
    let chars = chars_of(path);
    let pieces = split_chars(chars.as_slice(), CharClass::Separator);
    assert(views(pieces@).last() == pieces@.last()@);
    string_of(pieces[pieces.len() - 1].as_slice())
}

/// Four, two, two and at least one digit with hyphens between them.
pub open spec fn is_dated_stem(stem: Seq<char>) -> bool {
    let parts = split(stem, CharClass::Only('-'));
    &&& parts.len() == 4
    &&& parts[0].len() == 4 && all_digits(parts[0])
    &&& parts[1].len() == 2 && all_digits(parts[1])
    &&& parts[2].len() == 2 && all_digits(parts[2])
    &&& parts[3].len() > 0 && all_digits(parts[3])
}

pub fn is_minecraft_dated_log_stem(stem: &str) -> (r: bool)
    ensures
        r == is_dated_stem(stem@),
{
    let chars = chars_of(stem);
    let parts = split_chars(chars.as_slice(), CharClass::Only('-'));
    let ghost all = split(stem@, CharClass::Only('-'));
    assert(all.len() == parts@.len());
    if parts.len() != 4 {
        return false;
    }
    assert(all[0] == parts@[0]@ && all[1] == parts@[1]@ && all[2] == parts@[2]@ && all[3]
        == parts@[3]@);
    parts[0].len() == 4 && only_digits(parts[0].as_slice()) && parts[1].len() == 2 && only_digits(
        parts[1].as_slice(),
    ) && parts[2].len() == 2 && only_digits(parts[2].as_slice()) && parts[3].len() > 0
        && only_digits(parts[3].as_slice())
}

/// A dated log, compressed or not.
pub open spec fn is_dated_log(name: Seq<char>) -> bool {
    let n = lower(name);
    if ends_with(n, ".log.gz"@) {
        is_dated_stem(n.take(n.len() - 7))
    } else {
        ends_with(n, ".log"@) && is_dated_stem(n.take(n.len() - 4))
    }
}

pub fn is_minecraft_dated_log_name(file_name: &str) -> (r: bool)
    ensures
        r == is_dated_log(file_name@),
{
    let chars = chars_of(file_name);
    let n = lower_chars(chars.as_slice());
    proof {
        reveal_strlit(".log.gz");
        reveal_strlit(".log");
    }
    if finishes_with(n.as_slice(), ".log.gz") {
        let stem = string_of(head(n.as_slice(), n.len() - 7));
        return is_minecraft_dated_log_stem(stem.as_str());
    }
    if finishes_with(n.as_slice(), ".log") {
        let stem = string_of(head(n.as_slice(), n.len() - 4));
        return is_minecraft_dated_log_stem(stem.as_str());
    }
    false
}

/// A current log with a number behind it.
pub open spec fn is_rotated_log(name: Seq<char>) -> bool {
    is_numbered(name, "latest.log."@) || is_numbered(name, "debug.log."@)
}

pub fn minecraft_rotated_log_name(file_name_lower: &str) -> (r: bool)
    ensures
        r == is_rotated_log(file_name_lower@),
{
    let s = chars_of(file_name_lower);
    is_numbered_name(s.as_slice(), "latest.log.") || is_numbered_name(s.as_slice(), "debug.log.")
}

/// The name of a log of the game: current, rotated or dated.
pub open spec fn is_usn_log(name: Seq<char>) -> bool {
    let n = lower(name);
    n == "latest.log"@ || n == "debug.log"@ || is_rotated_log(n) || is_dated_log(n)
}

pub fn is_minecraft_usn_log_name(file_name: &str) -> (r: bool)
    ensures
        r == is_usn_log(file_name@),
{
    let chars = chars_of(file_name);
    let n = lower_chars(chars.as_slice());
    let text = string_of(n.as_slice());
    is_text(n.as_slice(), "latest.log") || is_text(n.as_slice(), "debug.log")
        || minecraft_rotated_log_name(text.as_str()) || is_minecraft_dated_log_name(text.as_str())
}

pub fn looks_like_minecraft_trace(path: &str) -> (r: bool)
    ensures
        r == is_usn_log(usn_name(path@)),
{
    let name = usn_file_name(path);
    is_minecraft_usn_log_name(name.as_str())
}

} // verus!
