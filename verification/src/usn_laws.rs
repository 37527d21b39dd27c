//! What reading a change journal promises: the records that the system wrote are
//! read, those on logs of the game become events, and each event is shown.

use vstd::prelude::*;

use crate::bytes::{le_at, le_bytes, lemma_le_roundtrip, pow256};
use crate::minecraft::is_numbered;
use crate::std_text::{law_utf16_injective, utf16};
use crate::text::{
    all_digits, contains, decimal, ends_with, is_digit, law_split, lemma_split_whole, lower,
    same_ignoring_case, split, trim, CharClass,
};
use crate::time::{age_status, humanized_age, of_filetime, Timestamp};
use crate::usn_journal::{
    error_kind, error_message, global_status, limited, system_code, with_drive, with_failed_drive,
    AssemblyView, DriveAction, DriveScanErrorKind, DriveScanOutput, DriveTimes, UsnDriveView,
    UsnEventView,
};
use crate::usn_records::{
    is_dated_log, is_dated_stem, is_usn_log, modified_from, next_marker, output_modified,
    reason_word, record_modified, records_from, reference_base, units, usn_name, usn_records,
    wide_text, UsnRecordView,
};
use crate::usn_scan::{
    counted, event_key, event_list, event_path, first_named, is_watched, journal_number,
    journal_start, looked_at, wants_more, with_buffer, with_event, with_node, with_nodes,
    with_records, with_table_buffer, EventList, JournalView, MftView, NodeView, RawEventView,
};
use crate::views::views;

verus! {

// ---------------------------------------------------------------------------
// Records
// ---------------------------------------------------------------------------

/// A record as the system writes it. In version 3 the numbers of files have eight
/// more bytes, `high` and `parent_high`.
pub struct WrittenRecord {
    pub is_version_3: bool,
    pub number: u64,
    pub high: u64,
    pub parent: u64,
    pub parent_high: u64,
    pub usn: u64,
    pub filetime: i64,
    pub reason: u32,
    pub source: u32,
    pub security: u32,
    pub attributes: u32,
    pub name: Seq<char>,
}

/// The bytes of code units, low byte first.
pub open spec fn unit_bytes(u: Seq<u16>) -> Seq<u8>
    decreases u.len(),
{
    if u.len() == 0 {
        Seq::empty()
    } else {
        unit_bytes(u.drop_last()) + seq![(u.last() % 256) as u8, (u.last() / 256) as u8]
    }
}

pub open spec fn name_bytes(r: WrittenRecord) -> Seq<u8> {
    unit_bytes(utf16(r.name))
}

/// The bytes before the name.
pub open spec fn header_len(r: WrittenRecord) -> nat {
    if r.is_version_3 {
        76
    } else {
        60
    }
}

/// The number of a file: eight bytes, and in version 3 eight more.
pub open spec fn with_file_number(r: WrittenRecord, low: u64, high: u64, rest: Seq<u8>) -> Seq<u8> {
    if r.is_version_3 {
        le_bytes(low as nat, 8) + (le_bytes(high as nat, 8) + rest)
    } else {
        le_bytes(low as nat, 8) + rest
    }
}

/// The bytes of a record, with `rest` behind them: its length, its version, the
/// numbers of the file and of its directory, its place in the journal, the time,
/// the reason, three numbers, the length and the place of the name, and the name.
pub open spec fn record_then(r: WrittenRecord, rest: Seq<u8>) -> Seq<u8> {
    let size = header_len(r) + name_bytes(r).len();
    let major: nat = if r.is_version_3 {
        3
    } else {
        2
    };
    le_bytes(size, 4) + (le_bytes(major, 2) + (le_bytes(0, 2) + with_file_number(
        r,
        r.number,
        r.high,
        with_file_number(
            r,
            r.parent,
            r.parent_high,
            le_bytes(r.usn as nat, 8) + (le_bytes(r.filetime as nat, 8) + (le_bytes(
                r.reason as nat,
                4,
            ) + (le_bytes(r.source as nat, 4) + (le_bytes(r.security as nat, 4) + (le_bytes(
                r.attributes as nat,
                4,
            ) + (le_bytes(name_bytes(r).len(), 2) + (le_bytes(header_len(r), 2) + (name_bytes(r)
                + rest)))))))),
        ),
    )))
}

/// The bytes of records, one after the other.
pub open spec fn records_bytes(rs: Seq<WrittenRecord>) -> Seq<u8>
    decreases rs.len(),
{
    if rs.len() == 0 {
        Seq::empty()
    } else {
        record_then(rs[0], records_bytes(rs.skip(1)))
    }
}

/// What a record is read as: the low eight bytes of the numbers, the time that the
/// file time stands for, those reasons that are told apart, and the name.
pub open spec fn read_record(r: WrittenRecord) -> UsnRecordView {
    UsnRecordView {
        file_reference_number: r.number,
        parent_file_reference_number: r.parent,
        timestamp_utc: of_filetime(r.filetime as int),
        reason: r.reason & 0x8020_3303,
        file_attributes: r.attributes,
        file_name: r.name,
    }
}

/// The record can be written: its name is not too long, and its time not before
/// 1601.
pub open spec fn can_be_written(r: WrittenRecord) -> bool {
    r.filetime >= 0 && name_bytes(r).len() < 0x1_0000
}

proof fn lemma_units(u: Seq<u16>)
    ensures
        units(unit_bytes(u)) == u,
        unit_bytes(u).len() == 2 * u.len(),
    decreases u.len(),
{
    let s = unit_bytes(u);
    if u.len() > 0 {
        let before = u.drop_last();
        lemma_units(before);
        assert(s.take(s.len() - 2) =~= unit_bytes(before));
        let last = u.last();
        assert(s[s.len() - 2] == (last % 256) as u8);
        assert(s[s.len() - 1] == (last / 256) as u8);
        assert((s[s.len() - 2] + 256 * s[s.len() - 1]) as u16 == last);
        assert(before.push(last) =~= u);
    } else {
        assert(units(s) =~= u);
    }
}

proof fn lemma_name_reads(r: WrittenRecord)
    ensures
        wide_text(name_bytes(r)) == Some(r.name),
{
    lemma_units(utf16(r.name));
    let u = utf16(r.name);
    let s = choose|s: Seq<char>| utf16(s) == u;
    law_utf16_injective(s, r.name);
}

/// A number at `at` reads back, and what follows it follows.
proof fn lemma_next(b: Seq<u8>, at: int, value: nat, n: nat, rest: Seq<u8>)
    requires
        0 <= at <= b.len(),
        value < pow256(n),
        b.skip(at) == le_bytes(value, n) + rest,
    ensures
        at + n <= b.len(),
        le_at(b, at, n as int) == value,
        b.skip(at + n) == rest,
{
    lemma_le_roundtrip(value, n);
    let tail = b.skip(at);
    assert(tail.len() == n + rest.len());
    assert(b.subrange(at, at + n) =~= tail.subrange(0, n as int));
    assert(tail.subrange(0, n as int) =~= le_bytes(value, n));
    assert(b.skip(at + n) =~= tail.skip(n as int));
    assert(tail.skip(n as int) =~= rest);
}

proof fn lemma_powers()
    ensures
        pow256(2) == 0x1_0000,
        pow256(4) == 0x1_0000_0000,
        pow256(8) == 0x1_0000_0000_0000_0000,
{
    reveal_with_fuel(pow256, 9);
}

proof fn lemma_number_reads(r: WrittenRecord, b: Seq<u8>, at: int, low: u64, high: u64, rest: Seq<u8>)
    requires
        0 <= at <= b.len(),
        b.skip(at) == with_file_number(r, low, high, rest),
    ensures
        ({
            let n: int = if r.is_version_3 {
                16
            } else {
                8
            };
            &&& at + n <= b.len()
            &&& le_at(b, at, 8) == low
            &&& b.skip(at + n) == rest
        }),
{
    lemma_powers();
    if r.is_version_3 {
        lemma_next(b, at, low as nat, 8, le_bytes(high as nat, 8) + rest);
        lemma_next(b, at + 8, high as nat, 8, rest);
    } else {
        lemma_next(b, at, low as nat, 8, rest);
    }
}

#[verifier::rlimit(60)]
#[verifier::spinoff_prover]
proof fn lemma_record_reads(
    b: Seq<u8>,
    at: int,
    r: WrittenRecord,
    rest: Seq<u8>,
    done: Seq<UsnRecordView>,
)
    requires
        0 <= at <= b.len(),
        can_be_written(r),
        b.skip(at) == record_then(r, rest),
    ensures
        ({
            let size = (header_len(r) + name_bytes(r).len()) as int;
            &&& at + size <= b.len()
            &&& b.skip(at + size) == rest
            &&& records_from(b, at, done) == records_from(b, at + size, done.push(read_record(r)))
        }),
{
    lemma_powers();
    let names = name_bytes(r);
    let header = header_len(r) as int;
    let size = header_len(r) + names.len();
    let major: nat = if r.is_version_3 {
        3
    } else {
        2
    };
    let t9 = names + rest;
    let t8 = le_bytes(header_len(r), 2) + t9;
    let t7 = le_bytes(names.len(), 2) + t8;
    let t6 = le_bytes(r.attributes as nat, 4) + t7;
    let t5 = le_bytes(r.security as nat, 4) + t6;
    let t4 = le_bytes(r.source as nat, 4) + t5;
    let t3 = le_bytes(r.reason as nat, 4) + t4;
    let t2 = le_bytes(r.filetime as nat, 8) + t3;
    let t1 = le_bytes(r.usn as nat, 8) + t2;
    let t0 = with_file_number(r, r.parent, r.parent_high, t1);
    let tn = with_file_number(r, r.number, r.high, t0);
    let tm = le_bytes(0, 2) + tn;
    lemma_next(b, at, size, 4, le_bytes(major, 2) + tm);
    lemma_next(b, at + 4, major, 2, tm);
    lemma_next(b, at + 6, 0, 2, tn);
    lemma_number_reads(r, b, at + 8, r.number, r.high, t0);
    let w: int = if r.is_version_3 {
        16
    } else {
        8
    };
    lemma_number_reads(r, b, at + 8 + w, r.parent, r.parent_high, t1);
    let p = at + 8 + 2 * w;
    lemma_next(b, p, r.usn as nat, 8, t2);
    lemma_next(b, p + 8, r.filetime as nat, 8, t3);
    lemma_next(b, p + 16, r.reason as nat, 4, t4);
    lemma_next(b, p + 20, r.source as nat, 4, t5);
    lemma_next(b, p + 24, r.security as nat, 4, t6);
    lemma_next(b, p + 28, r.attributes as nat, 4, t7);
    lemma_next(b, p + 32, names.len(), 2, t8);
    lemma_next(b, p + 34, header_len(r), 2, t9);
    assert(p + 36 == at + header);
    let tail = b.skip(at + header);
    assert(tail == names + rest);
    assert(b.subrange(at + header, at + header + names.len()) =~= names) by {
        assert(tail.subrange(0, names.len() as int) =~= names);
        assert(b.subrange(at + header, at + header + names.len()) =~= tail.subrange(
            0,
            names.len() as int,
        ));
    }
    assert(b.skip(at + size) =~= rest) by {
        assert(b.skip(at + size) =~= tail.skip(names.len() as int));
        assert(tail.skip(names.len() as int) =~= rest);
    }
    lemma_name_reads(r);
    let l = crate::usn_records::record_layout(major)->0;
    assert(crate::usn_records::record_at(b, at, l, at + header, at + header + names.len())
        == read_record(r));
    assert(at + 60 <= b.len());
}

/// The records that the system wrote, of either version, are read in order, each
/// with its numbers, its time, its reasons and its name; and so is the number in
/// front of them that says where to go on.
pub proof fn law_records_read_back(marker: u64, rs: Seq<WrittenRecord>)
    requires
        forall|i: int| 0 <= i < rs.len() ==> can_be_written(#[trigger] rs[i]),
    ensures
        ({
            let buffer = le_bytes(marker as nat, 8) + records_bytes(rs);
            &&& next_marker(buffer) == marker
            &&& usn_records(buffer) == rs.map_values(|r: WrittenRecord| read_record(r))
        }),
{
    let buffer = le_bytes(marker as nat, 8) + records_bytes(rs);
    lemma_powers();
    assert(buffer.skip(0) =~= buffer);
    lemma_next(buffer, 0, marker as nat, 8, records_bytes(rs));
    lemma_records_read(buffer, 8, rs, Seq::empty());
    assert(Seq::<UsnRecordView>::empty() + rs.map_values(|r: WrittenRecord| read_record(r))
        =~= rs.map_values(|r: WrittenRecord| read_record(r)));
}

proof fn lemma_records_read(
    b: Seq<u8>,
    at: int,
    rs: Seq<WrittenRecord>,
    done: Seq<UsnRecordView>,
)
    requires
        0 <= at <= b.len(),
        b.skip(at) == records_bytes(rs),
        forall|i: int| 0 <= i < rs.len() ==> can_be_written(#[trigger] rs[i]),
    ensures
        records_from(b, at, done) == done + rs.map_values(|r: WrittenRecord| read_record(r)),
    decreases rs.len(),
{
    if rs.len() == 0 {
        assert(b.skip(at).len() == 0);
        assert(done + rs.map_values(|r: WrittenRecord| read_record(r)) =~= done);
    } else {
        let r = rs[0];
        let rest = rs.skip(1);
        assert(can_be_written(r));
        lemma_record_reads(b, at, r, records_bytes(rest), done);
        assert forall|i: int| 0 <= i < rest.len() implies can_be_written(#[trigger] rest[i]) by {
            assert(rest[i] == rs[i + 1]);
        }
        let next = (at + header_len(r) + name_bytes(r).len()) as int;
        lemma_records_read(b, next, rest, done.push(read_record(r)));
        assert(done.push(read_record(r)) + rest.map_values(|r: WrittenRecord| read_record(r))
            =~= done + rs.map_values(|r: WrittenRecord| read_record(r)));
    }
}

// ---------------------------------------------------------------------------
// Reasons
// ---------------------------------------------------------------------------

/// A record is looked at where a file was written, created, deleted or renamed or a
/// stream of it changed, and not where it was closed alone. The word for it names
/// the gravest thing that happened.
pub proof fn law_reasons(r: UsnRecordView)
    ensures
        is_watched(r) <==> r.reason & 0x1 != 0 || r.reason & 0x2 != 0 || r.reason & 0x100 != 0
            || r.reason & 0x200 != 0 || r.reason & 0x1000 != 0 || r.reason & 0x2000 != 0 || r.reason
            & 0x20_0000 != 0,
        r.reason == 0x8000_0000 ==> !is_watched(r),
        r.reason & 0x200 != 0 ==> reason_word(r.reason) == "deleted"@,
        r.reason & 0x200 == 0 && (r.reason & 0x1000 != 0 || r.reason & 0x2000 != 0) ==> reason_word(
            r.reason,
        ) == "renamed"@,
        r.reason & 0x3200 == 0 && r.reason & 0x100 != 0 ==> reason_word(r.reason) == "created"@,
        r.reason & 0x3300 == 0 && r.reason & 0x1 != 0 ==> reason_word(r.reason) == "overwrite"@,
        r.reason & 0x3301 == 0 && r.reason & 0x2 != 0 ==> reason_word(r.reason) == "extend"@,
        r.reason & 0x3303 == 0 && r.reason & 0x20_0000 != 0 ==> reason_word(r.reason)
            == "stream_change"@,
        r.reason & 0x20_3303 == 0 ==> reason_word(r.reason) == "changed"@,
{
    let x = r.reason;
    assert(x & 0x0020_3303 != 0 <==> (x & 0x1 != 0 || x & 0x2 != 0 || x & 0x100 != 0 || x & 0x200
        != 0 || x & 0x1000 != 0 || x & 0x2000 != 0 || x & 0x20_0000 != 0)) by (bit_vector);
    assert(x == 0x8000_0000u32 ==> x & 0x0020_3303 == 0) by (bit_vector);
    assert(x & 0x200 != 0 <==> x & 0x200 == 0x200) by (bit_vector);
    assert(x & 0x1000 != 0 <==> x & 0x1000 == 0x1000) by (bit_vector);
    assert(x & 0x2000 != 0 <==> x & 0x2000 == 0x2000) by (bit_vector);
    assert(x & 0x100 != 0 <==> x & 0x100 == 0x100) by (bit_vector);
    assert(x & 0x1 != 0 <==> x & 0x1 == 0x1) by (bit_vector);
    assert(x & 0x2 != 0 <==> x & 0x2 == 0x2) by (bit_vector);
    assert(x & 0x20_0000 != 0 <==> x & 0x20_0000 == 0x20_0000) by (bit_vector);
    assert(x & 0x3200 == 0 ==> x & 0x200 == 0 && x & 0x1000 == 0 && x & 0x2000 == 0)
        by (bit_vector);
    assert(x & 0x3300 == 0 ==> x & 0x200 == 0 && x & 0x1000 == 0 && x & 0x2000 == 0 && x & 0x100
        == 0) by (bit_vector);
    assert(x & 0x3301 == 0 ==> x & 0x3300 == 0 && x & 0x1 == 0) by (bit_vector);
    assert(x & 0x3303 == 0 ==> x & 0x3301 == 0 && x & 0x2 == 0) by (bit_vector);
    assert(x & 0x20_3303 == 0 ==> x & 0x3303 == 0 && x & 0x20_0000 == 0) by (bit_vector);
}

/// The number of a file without the count in its highest two bytes.
pub proof fn law_reference_base(number: u64, uses: u64)
    requires
        number < 0x1_0000_0000_0000,
        uses < 0x1_0000,
    ensures
        reference_base((number + uses * 0x1_0000_0000_0000) as u64) == number,
        reference_base(number) == number,
{
}

// ---------------------------------------------------------------------------
// Names of logs
// ---------------------------------------------------------------------------

/// Digits in the form of a date with a number behind it, and the ending of a log,
/// compressed or not, are the name of a log of the game; so are `latest.log` and
/// `debug.log`, in any case, and with a number behind them.
pub proof fn law_log_names(
    year: Seq<char>,
    month: Seq<char>,
    day: Seq<char>,
    number: Seq<char>,
    name: Seq<char>,
)
    requires
        year.len() == 4,
        month.len() == 2,
        day.len() == 2,
        number.len() > 0,
        all_digits(year),
        all_digits(month),
        all_digits(day),
        all_digits(number),
    ensures
        is_dated_stem(year.push('-') + (month.push('-') + (day.push('-') + number))),
        lower(name) == "latest.log"@ || lower(name) == "debug.log"@ ==> is_usn_log(name),
        is_usn_log("latest.log."@ + number),
        is_usn_log("debug.log."@ + number),
{
    let dash = CharClass::Only('-');
    lemma_digits_whole(year);
    lemma_digits_whole(month);
    lemma_digits_whole(day);
    lemma_digits_whole(number);
    let tail = day.push('-') + number;
    let rest = month.push('-') + tail;
    law_split(day, '-', number, dash);
    law_split(month, '-', tail, dash);
    law_split(year, '-', rest, dash);
    let parts = split(year.push('-') + rest, dash);
    assert(parts =~= seq![year, month, day, number]);
    let a = "latest.log."@ + number;
    let b = "debug.log."@ + number;
    assert(lower(a) =~= a) by {
        reveal_strlit("latest.log.");
        assert forall|i: int| 0 <= i < a.len() implies #[trigger] lower(a)[i] == a[i] by {
            if i >= 11 {
                assert(is_digit(number[i - 11]));
            }
        }
    }
    assert(lower(b) =~= b) by {
        reveal_strlit("debug.log.");
        assert forall|i: int| 0 <= i < b.len() implies #[trigger] lower(b)[i] == b[i] by {
            if i >= 10 {
                assert(is_digit(number[i - 10]));
            }
        }
    }
    assert(a.subrange(0, "latest.log."@.len() as int) =~= "latest.log."@);
    assert(a.skip("latest.log."@.len() as int) =~= number);
    assert(b.subrange(0, "debug.log."@.len() as int) =~= "debug.log."@);
    assert(b.skip("debug.log."@.len() as int) =~= number);
}

proof fn lemma_digits_whole(s: Seq<char>)
    requires
        all_digits(s),
    ensures
        split(s, CharClass::Only('-')) == seq![s],
{
    assert forall|i: int| 0 <= i < s.len() implies !CharClass::Only('-').has(#[trigger] s[i]) by {
        assert(is_digit(s[i]));
    }
    lemma_split_whole(s, CharClass::Only('-'));
}

/// A dated stem with the ending of a log is a dated log.
pub proof fn law_dated_logs(stem: Seq<char>)
    requires
        is_dated_stem(stem),
        lower(stem) == stem,
    ensures
        is_dated_log(stem + ".log"@),
        is_dated_log(stem + ".log.gz"@),
        is_usn_log(stem + ".log"@),
        is_usn_log(stem + ".log.gz"@),
{
    let plain = stem + ".log"@;
    let packed = stem + ".log.gz"@;
    reveal_strlit(".log");
    reveal_strlit(".log.gz");
    assert forall|i: int| 0 <= i < stem.len() implies lower(stem)[i] == stem[i] by {}
    assert(lower(plain) =~= plain) by {
        assert forall|i: int| 0 <= i < plain.len() implies #[trigger] lower(plain)[i]
            == plain[i] by {
            if i < stem.len() {
                assert(lower(stem)[i] == stem[i]);
            }
        }
    }
    assert(lower(packed) =~= packed) by {
        assert forall|i: int| 0 <= i < packed.len() implies #[trigger] lower(packed)[i]
            == packed[i] by {
            if i < stem.len() {
                assert(lower(stem)[i] == stem[i]);
            }
        }
    }
    assert(packed.subrange(packed.len() - 7, packed.len() as int) =~= ".log.gz"@);
    assert(packed.take(packed.len() - 7) =~= stem);
    assert(plain.subrange(plain.len() - 4, plain.len() as int) =~= ".log"@);
    assert(plain.take(plain.len() - 4) =~= stem);
    if ends_with(plain, ".log.gz"@) {
        assert(plain.subrange(plain.len() - 7, plain.len() as int)[6] == plain[plain.len() - 1]);
        assert(".log.gz"@[6] == 'z');
        assert(plain[plain.len() - 1] == 'g');
    }
}

/// Which names are those of logs of the game: no others than the two current ones,
/// numbered ones and dated ones.
pub proof fn law_only_log_names(name: Seq<char>, stem: Seq<char>)
    ensures
        is_usn_log(name) <==> {
            let n = lower(name);
            ||| n == "latest.log"@
            ||| n == "debug.log"@
            ||| is_numbered(n, "latest.log."@)
            ||| is_numbered(n, "debug.log."@)
            ||| is_dated_log(n)
        },
        is_dated_log(name) ==> ends_with(lower(name), ".log"@) || ends_with(
            lower(name),
            ".log.gz"@,
        ),
        is_dated_log(name) && ends_with(lower(name), ".log.gz"@) ==> is_dated_stem(
            lower(name).take(name.len() - 7),
        ),
        is_dated_log(name) && !ends_with(lower(name), ".log.gz"@) ==> is_dated_stem(
            lower(name).take(name.len() - 4),
        ),
        is_dated_stem(stem) ==> stem.len() >= 12 && stem[4] == '-' && stem[7] == '-' && stem[10]
            == '-' && forall|i: int|
            0 <= i < stem.len() && i != 4 && i != 7 && i != 10 ==> is_digit(#[trigger] stem[i]),
{
    if is_dated_stem(stem) {
        let dash = CharClass::Only('-');
        let parts = split(stem, dash);
        lemma_split_joins(stem, '-');
        let a = parts.take(1);
        let b = parts.take(2);
        let c = parts.take(3);
        assert(parts.take(4) =~= parts);
        assert(c.drop_last() =~= b && b.drop_last() =~= a && parts.drop_last() =~= c);
        assert(parts.last() == parts[3] && c.last() == parts[2] && b.last() == parts[1]);
        assert(a.drop_last() =~= Seq::empty());
        assert(joined_with(a, '-') =~= parts[0]);
        assert(joined_with(b, '-') == parts[0].push('-') + parts[1]);
        assert(joined_with(c, '-') == (parts[0].push('-') + parts[1]).push('-') + parts[2]);
        assert(stem == ((parts[0].push('-') + parts[1]).push('-') + parts[2]).push('-') + parts[3]);
        assert forall|i: int|
            0 <= i < stem.len() && i != 4 && i != 7 && i != 10 implies is_digit(
            #[trigger] stem[i],
        ) by {
            if i < 4 {
                assert(stem[i] == parts[0][i]);
            } else if i < 7 {
                assert(stem[i] == parts[1][i - 5]);
            } else if i < 10 {
                assert(stem[i] == parts[2][i - 8]);
            } else {
                assert(stem[i] == parts[3][i - 11]);
            }
        }
    }
}

/// The pieces with `c` between each two.
spec fn joined_with(pieces: Seq<Seq<char>>, c: char) -> Seq<char>
    decreases pieces.len(),
{
    if pieces.len() == 0 {
        Seq::empty()
    } else if pieces.len() == 1 {
        pieces[0]
    } else {
        joined_with(pieces.drop_last(), c).push(c) + pieces.last()
    }
}

proof fn lemma_split_joins(s: Seq<char>, c: char)
    ensures
        joined_with(split(s, CharClass::Only(c)), c) == s,
        split(s, CharClass::Only(c)).len() >= 1,
    decreases s.len(),
{
    let k = CharClass::Only(c);
    let all = split(s, k);
    if s.len() == 0 {
        assert(all =~= seq![Seq::<char>::empty()]);
        assert(joined_with(all, c) =~= s);
    } else {
        let t = s.drop_last();
        let before = split(t, k);
        lemma_split_joins(t, c);
        if k.has(s.last()) {
            assert(all =~= before.push(Seq::<char>::empty()));
            assert(all.drop_last() =~= before);
            assert(joined_with(all, c) =~= s);
        } else {
            let grown = before.last().push(s.last());
            assert(all =~= before.drop_last().push(grown));
            if before.len() == 1 {
                assert(before[0] == t);
                assert(joined_with(all, c) =~= s);
            } else {
                assert(all.drop_last() =~= before.drop_last());
                assert(all.last() == grown);
                let head = joined_with(before.drop_last(), c).push(c);
                assert(t == head + before.last());
                assert(head + grown =~= t.push(s.last()));
                assert(t.push(s.last()) =~= s);
            }
        }
    }
}

/// A file time counts steps of 100 nanoseconds from the start of 1601, which is
/// 11644473600 seconds before that of 1970; before 1601 whole seconds count alone.
pub proof fn law_file_times(steps: int)
    requires
        -0x8000_0000_0000_0000 <= steps < 0x8000_0000_0000_0000,
    ensures
        steps >= 0 ==> of_filetime(steps).total() == steps * 100 - 11_644_473_600_000_000_000,
        steps >= 0 ==> of_filetime(steps).nanos < 1_000_000_000,
        steps < 0 ==> of_filetime(steps).nanos == 0,
        steps < 0 ==> of_filetime(steps).secs == -((-steps) / 10_000_000) - 11_644_473_600,
{
}

/// Reading of records ends where less than the shortest record is left, or one has no
/// length or reaches beyond the end. One of another version than 2 and 3 is passed
/// over, and so is one that is too short.
pub proof fn law_unread_records(b: Seq<u8>, at: int, done: Seq<UsnRecordView>)
    requires
        0 <= at <= b.len(),
    ensures
        at + 60 > b.len() ==> records_from(b, at, done) == done,
        at + 60 <= b.len() ==> {
            let length = le_at(b, at, 4);
            let version = le_at(b, at + 4, 2);
            &&& length == 0 || at + length > b.len() ==> records_from(b, at, done) == done
            &&& 0 < length && at + length <= b.len() && version != 2 && version != 3
                ==> records_from(b, at, done) == records_from(b, (at + length) as int, done)
            &&& 0 < length < 60 && version == 2 && at + length <= b.len() ==> records_from(
                b,
                at,
                done,
            ) == records_from(b, (at + length) as int, done)
            &&& 0 < length < 76 && version == 3 && at + length <= b.len() ==> records_from(
                b,
                at,
                done,
            ) == records_from(b, (at + length) as int, done)
        },
        b.len() < 8 ==> usn_records(b).len() == 0 && next_marker(b) == 0,
{
}

// ---------------------------------------------------------------------------
// The journal
// ---------------------------------------------------------------------------

/// The event that a record on a log of the game is.
pub open spec fn event_of(r: UsnRecordView) -> RawEventView {
    RawEventView {
        parent_file_reference_number: (r.parent_file_reference_number % 0x1_0000_0000_0000) as u64,
        timestamp_utc: r.timestamp_utc,
        reason: reason_word(r.reason),
        file_name: r.file_name,
    }
}

/// The record is one on a log of the game that is looked at.
pub open spec fn is_event(r: UsnRecordView) -> bool {
    is_watched(r) && is_usn_log(usn_name(lower(r.file_name)))
}

/// Below the limit of a million, every record is counted, every one on a log of the
/// game is an event, in order, and no other is. The oldest and the newest time
/// span all records.
pub proof fn law_records_are_events(s: JournalView, records: Seq<UsnRecordView>, i: int)
    requires
        0 <= i <= records.len(),
        s.records_scanned + records.len() < 1_000_000,
        s.oldest is Some == s.newest is Some,
    ensures
        ({
            let after = with_records(s, records, i);
            let rest = records.skip(i);
            &&& after.records_scanned == s.records_scanned + rest.len()
            &&& forall|j: int|
                i <= j < records.len() && is_event(#[trigger] records[j])
                    ==> after.matched.skip(s.matched.len() as int).contains(event_of(records[j]))
            &&& after.matched.len() >= s.matched.len()
            &&& after.matched.take(s.matched.len() as int) == s.matched
            &&& forall|k: int|
                s.matched.len() <= k < after.matched.len() ==> is_event_of_some(
                    #[trigger] after.matched[k],
                    records,
                    i,
                )
            &&& forall|j: int|
                i <= j < records.len() ==> after.oldest is Some && after.newest is Some
                    && !(#[trigger] records[j]).timestamp_utc.is_before(after.oldest->0)
                    && !after.newest->0.is_before(records[j].timestamp_utc)
            &&& s.oldest is Some ==> after.oldest is Some && after.newest is Some
                && !s.oldest->0.is_before(after.oldest->0) && !after.newest->0.is_before(
                s.newest->0,
            )
            &&& after.oldest is Some == after.newest is Some
        }),
    decreases records.len() - i,
{
    let after = with_records(s, records, i);
    if i < records.len() {
        let r = records[i];
        let c = counted(s, r);
        let l = if is_watched(r) {
            looked_at(c, r)
        } else {
            c
        };
        lemma_records_rest(s, l, records, i);
    } else {
        assert(after.matched.take(s.matched.len() as int) =~= s.matched);
    }
}

pub open spec fn is_event_of_some(e: RawEventView, records: Seq<UsnRecordView>, i: int) -> bool {
    exists|j: int|
        i <= j < records.len() && is_event(#[trigger] records[j]) && e == event_of(records[j])
}

proof fn lemma_records_rest(s: JournalView, l: JournalView, records: Seq<UsnRecordView>, i: int)
    requires
        0 <= i < records.len(),
        s.records_scanned + records.len() < 1_000_000,
        s.oldest is Some == s.newest is Some,
        l == if is_watched(records[i]) {
            looked_at(counted(s, records[i]), records[i])
        } else {
            counted(s, records[i])
        },
    ensures
        ({
            let after = with_records(s, records, i);
            let rest = records.skip(i);
            &&& after.records_scanned == s.records_scanned + rest.len()
            &&& forall|j: int|
                i <= j < records.len() && is_event(#[trigger] records[j])
                    ==> after.matched.skip(s.matched.len() as int).contains(event_of(records[j]))
            &&& after.matched.len() >= s.matched.len()
            &&& after.matched.take(s.matched.len() as int) == s.matched
            &&& forall|k: int|
                s.matched.len() <= k < after.matched.len() ==> is_event_of_some(
                    #[trigger] after.matched[k],
                    records,
                    i,
                )
            &&& forall|j: int|
                i <= j < records.len() ==> after.oldest is Some && after.newest is Some
                    && !(#[trigger] records[j]).timestamp_utc.is_before(after.oldest->0)
                    && !after.newest->0.is_before(records[j].timestamp_utc)
            &&& s.oldest is Some ==> after.oldest is Some && after.newest is Some
                && !s.oldest->0.is_before(after.oldest->0) && !after.newest->0.is_before(
                s.newest->0,
            )
            &&& after.oldest is Some == after.newest is Some
        }),
    decreases records.len() - i, 0int,
{
    let r = records[i];
    let after = with_records(s, records, i);
    lemma_records_counted(l, records, i + 1);
    assert(l.records_scanned == s.records_scanned + 1);
    assert(after == with_records(l, records, i + 1));
    let n = s.matched.len() as int;
    let m = l.matched.len() as int;
    assert(l.matched.take(n) =~= s.matched);
    assert(after.matched.take(n) =~= after.matched.take(m).take(n));
    assert forall|j: int|
        i <= j < records.len() && is_event(#[trigger] records[j]) implies after.matched.skip(
        n,
    ).contains(event_of(records[j])) by {
        if j == i {
            assert(l.matched == s.matched.push(event_of(r)));
            assert(after.matched[n] == after.matched.take(m)[n]);
            assert(after.matched.skip(n)[0] == event_of(r));
        } else {
            let tail = after.matched.skip(m);
            assert(tail.contains(event_of(records[j])));
            let k = choose|k: int| 0 <= k < tail.len() && tail[k] == event_of(records[j]);
            assert(after.matched.skip(n)[k + m - n] == event_of(records[j]));
        }
    }
    assert forall|k: int| n <= k < after.matched.len() implies is_event_of_some(
        #[trigger] after.matched[k],
        records,
        i,
    ) by {
        if k < m {
            assert(is_event(r));
            assert(after.matched[k] == after.matched.take(m)[k]);
            assert(after.matched[k] == event_of(records[i]));
        } else {
            assert(is_event_of_some(after.matched[k], records, i + 1));
            let j = choose|j: int|
                i + 1 <= j < records.len() && is_event(#[trigger] records[j]) && after.matched[k]
                    == event_of(records[j]);
            assert(is_event(records[j]));
        }
    }
}

proof fn lemma_records_counted(s: JournalView, records: Seq<UsnRecordView>, i: int)
    requires
        0 <= i <= records.len(),
        s.records_scanned + records.len() - i < 1_000_000,
        s.oldest is Some && s.newest is Some,
    ensures
        ({
            let after = with_records(s, records, i);
            &&& after.records_scanned == s.records_scanned + records.len() - i
            &&& forall|j: int|
                i <= j < records.len() && is_event(#[trigger] records[j])
                    ==> after.matched.skip(s.matched.len() as int).contains(event_of(records[j]))
            &&& after.matched.len() >= s.matched.len()
            &&& after.matched.take(s.matched.len() as int) == s.matched
            &&& forall|k: int|
                s.matched.len() <= k < after.matched.len() ==> is_event_of_some(
                    #[trigger] after.matched[k],
                    records,
                    i,
                )
            &&& forall|j: int|
                i <= j < records.len() ==> !(#[trigger] records[j]).timestamp_utc.is_before(
                    after.oldest->0,
                ) && !after.newest->0.is_before(records[j].timestamp_utc)
            &&& after.oldest is Some && after.newest is Some
            &&& !s.oldest->0.is_before(after.oldest->0)
            &&& !after.newest->0.is_before(s.newest->0)
        }),
    decreases records.len() - i, 1int,
{
    let after = with_records(s, records, i);
    if i < records.len() {
        let r = records[i];
        let c = counted(s, r);
        let l = if is_watched(r) {
            looked_at(c, r)
        } else {
            c
        };
        lemma_records_counted(l, records, i + 1);
        assert(l.records_scanned == s.records_scanned + 1);
        assert(after == with_records(l, records, i + 1));
        let n = s.matched.len() as int;
        let m = l.matched.len() as int;
        assert(l.matched.take(n) =~= s.matched);
        assert(after.matched.take(n) =~= after.matched.take(m).take(n));
        assert forall|j: int|
            i <= j < records.len() && is_event(#[trigger] records[j]) implies after.matched.skip(
            n,
        ).contains(event_of(records[j])) by {
            if j == i {
                assert(l.matched == s.matched.push(event_of(r)));
                assert(after.matched[n] == after.matched.take(m)[n]);
                assert(after.matched.skip(n)[0] == event_of(r));
            } else {
                let tail = after.matched.skip(m);
                assert(tail.contains(event_of(records[j])));
                let k = choose|k: int| 0 <= k < tail.len() && tail[k] == event_of(records[j]);
                assert(after.matched.skip(n)[k + m - n] == event_of(records[j]));
            }
        }
        assert forall|k: int| n <= k < after.matched.len() implies is_event_of_some(
            #[trigger] after.matched[k],
            records,
            i,
        ) by {
            if k < m {
                assert(is_event(r));
                assert(after.matched[k] == after.matched.take(m)[k]);
                assert(after.matched[k] == event_of(records[i]));
            } else {
                assert(is_event_of_some(after.matched[k], records, i + 1));
                let j = choose|j: int|
                    i + 1 <= j < records.len() && is_event(#[trigger] records[j])
                        && after.matched[k] == event_of(records[j]);
                assert(is_event(records[j]));
            }
        }
    } else {
        assert(after.matched.take(s.matched.len() as int) =~= s.matched);
    }
}

/// A journal is read from its first entry on, or from two gigabytes before its end
/// where it is longer than that; reading goes on until its end, a million records
/// or 2048 reads.
pub proof fn law_journal_bounds(first: int, end: int, s: JournalView)
    ensures
        end - first <= 2_147_483_648 ==> journal_start(first, end) == first,
        end - first > 2_147_483_648 ==> journal_start(first, end) == end - 2_147_483_648,
        wants_more(s) <==> s.start < s.end && s.records_scanned < 1_000_000 && s.reads < 2048,
{
}

/// A buffer that the system filled is read record by record: what comes of it is
/// what comes of the records, and reading goes on where the buffer says, as long
/// as that is further on.
pub proof fn law_buffer_read(s: JournalView, marker: u64, rs: Seq<WrittenRecord>)
    requires
        forall|i: int| 0 <= i < rs.len() ==> can_be_written(#[trigger] rs[i]),
        rs.len() > 0,
    ensures
        ({
            let buffer = le_bytes(marker as nat, 8) + records_bytes(rs);
            let (after, more) = with_buffer(s, buffer);
            let found = with_records(
                JournalView { reads: s.reads + 1, ..s },
                rs.map_values(|r: WrittenRecord| read_record(r)),
                0,
            );
            &&& after.matched == found.matched
            &&& after.records_scanned == found.records_scanned
            &&& after.oldest == found.oldest
            &&& after.newest == found.newest
            &&& marker < 0x8000_0000_0000_0000 ==> {
                &&& more <==> marker > s.start
                &&& more ==> after.start == marker
            }
        }),
{
    law_records_read_back(marker, rs);
    lemma_powers();
    lemma_le_roundtrip(marker as nat, 8);
    let buffer = le_bytes(marker as nat, 8) + records_bytes(rs);
    let size = header_len(rs[0]) + name_bytes(rs[0]).len();
    assert(can_be_written(rs[0]));
    lemma_le_roundtrip(size, 4);
    assert(records_bytes(rs).len() >= 4);
    assert(buffer.len() > 8);
}

// ---------------------------------------------------------------------------
// Events
// ---------------------------------------------------------------------------

/// Every event is shown, with its drive, its path, its reason and its time, unless
/// one with the same path in any case, reason and time is, or eighty are. No two
/// of those that are shown are the same in this way.
pub proof fn law_events_shown(
    drive: Seq<char>,
    events: Seq<RawEventView>,
    times: Seq<Seq<char>>,
    nodes: Map<u64, NodeView>,
    n: nat,
    i: int,
)
    requires
        n <= events.len(),
        n <= times.len(),
        0 <= i < n,
    ensures
        ({
            let l = event_list(drive, events, times, nodes, n);
            &&& l.events.len() <= 80
            &&& l.events.len() < 80 ==> shows_event(
                l.events,
                event_path(drive, events[i], nodes),
                events[i].reason,
                times[i],
            )
            &&& forall|a: int, b: int|
                0 <= a < b < l.events.len() ==> event_key(
                    (#[trigger] l.events[a]).path,
                    l.events[a].reason,
                    l.events[a].timestamp_utc,
                ) != event_key(
                    (#[trigger] l.events[b]).path,
                    l.events[b].reason,
                    l.events[b].timestamp_utc,
                )
            &&& forall|a: int| 0 <= a < l.events.len() ==> (#[trigger] l.events[a]).drive == drive
        }),
        forall|p: Seq<char>, r: Seq<char>, t: Seq<char>| #[trigger]
            event_key(p, r, t) == lower(p) + "|"@ + r + "|"@ + t,
{
    lemma_event_list(drive, events, times, nodes, n);
    let l = event_list(drive, events, times, nodes, n);
    if l.events.len() < 80 {
        lemma_event_shown(drive, events, times, nodes, n, i);
    }
}

/// Some event is shown under the key of this one.
pub open spec fn shows_event(
    shown: Seq<UsnEventView>,
    path: Seq<char>,
    reason: Seq<char>,
    time: Seq<char>,
) -> bool {
    exists|a: int|
        0 <= a < shown.len() && event_key(
            (#[trigger] shown[a]).path,
            shown[a].reason,
            shown[a].timestamp_utc,
        ) == event_key(path, reason, time)
}

spec fn is_event_list(l: EventList, drive: Seq<char>) -> bool {
    &&& l.events.len() <= 80
    &&& forall|key: Seq<char>| #[trigger]
        l.seen.contains(key) <==> exists|a: int|
            0 <= a < l.events.len() && event_key(
                (#[trigger] l.events[a]).path,
                l.events[a].reason,
                l.events[a].timestamp_utc,
            ) == key
    &&& forall|a: int, b: int|
        0 <= a < b < l.events.len() ==> event_key(
            (#[trigger] l.events[a]).path,
            l.events[a].reason,
            l.events[a].timestamp_utc,
        ) != event_key(
            (#[trigger] l.events[b]).path,
            l.events[b].reason,
            l.events[b].timestamp_utc,
        )
    &&& forall|a: int| 0 <= a < l.events.len() ==> (#[trigger] l.events[a]).drive == drive
}

proof fn lemma_with_event(
    l: EventList,
    drive: Seq<char>,
    e: RawEventView,
    time: Seq<char>,
    nodes: Map<u64, NodeView>,
)
    requires
        is_event_list(l, drive),
    ensures
        is_event_list(with_event(l, drive, e, time, nodes), drive),
        with_event(l, drive, e, time, nodes).events.len() < 80 ==> shows_event(
            with_event(l, drive, e, time, nodes).events,
            event_path(drive, e, nodes),
            e.reason,
            time,
        ),
        with_event(l, drive, e, time, nodes).events.len() >= l.events.len(),
        forall|a: int|
            0 <= a < l.events.len() ==> #[trigger] with_event(
                l,
                drive,
                e,
                time,
                nodes,
            ).events[a] == l.events[a],
{
    let after = with_event(l, drive, e, time, nodes);
    let path = event_path(drive, e, nodes);
    let own = event_key(path, e.reason, time);
    if l.events.len() >= 80 || l.seen.contains(own) {
        if l.events.len() < 80 {
            let a = choose|a: int|
                0 <= a < l.events.len() && event_key(
                    (#[trigger] l.events[a]).path,
                    l.events[a].reason,
                    l.events[a].timestamp_utc,
                ) == own;
            assert(after.events[a] == l.events[a]);
        }
    } else {
        let last = l.events.len() as int;
        assert(after.events[last].path == path);
        assert forall|key: Seq<char>| #[trigger]
            after.seen.contains(key) <==> exists|a: int|
                0 <= a < after.events.len() && event_key(
                    (#[trigger] after.events[a]).path,
                    after.events[a].reason,
                    after.events[a].timestamp_utc,
                ) == key by {
            if l.seen.contains(key) {
                let a = choose|a: int|
                    0 <= a < l.events.len() && event_key(
                        (#[trigger] l.events[a]).path,
                        l.events[a].reason,
                        l.events[a].timestamp_utc,
                    ) == key;
                assert(after.events[a] == l.events[a]);
            }
            if exists|a: int|
                0 <= a < after.events.len() && event_key(
                    (#[trigger] after.events[a]).path,
                    after.events[a].reason,
                    after.events[a].timestamp_utc,
                ) == key {
                let a = choose|a: int|
                    0 <= a < after.events.len() && event_key(
                        (#[trigger] after.events[a]).path,
                        after.events[a].reason,
                        after.events[a].timestamp_utc,
                    ) == key;
                if a < last {
                    assert(after.events[a] == l.events[a]);
                    assert(l.seen.contains(key));
                }
            }
            if key == own {
                assert(after.events[last].path == path);
            }
        }
        assert forall|a: int, b: int| 0 <= a < b < after.events.len() implies event_key(
            (#[trigger] after.events[a]).path,
            after.events[a].reason,
            after.events[a].timestamp_utc,
        ) != event_key(
            (#[trigger] after.events[b]).path,
            after.events[b].reason,
            after.events[b].timestamp_utc,
        ) by {
            assert(after.events[a] == l.events[a]);
            if b < last {
                assert(after.events[b] == l.events[b]);
            } else {
                let key = event_key(
                    l.events[a].path,
                    l.events[a].reason,
                    l.events[a].timestamp_utc,
                );
                assert(l.seen.contains(key));
            }
        }
    }
}

proof fn lemma_event_list(
    drive: Seq<char>,
    events: Seq<RawEventView>,
    times: Seq<Seq<char>>,
    nodes: Map<u64, NodeView>,
    n: nat,
)
    ensures
        is_event_list(event_list(drive, events, times, nodes, n), drive),
    decreases n,
{
    if n > 0 {
        lemma_event_list(drive, events, times, nodes, (n - 1) as nat);
        let before = event_list(drive, events, times, nodes, (n - 1) as nat);
        lemma_with_event(before, drive, events[n - 1], times[n - 1], nodes);
    }
}

proof fn lemma_event_shown(
    drive: Seq<char>,
    events: Seq<RawEventView>,
    times: Seq<Seq<char>>,
    nodes: Map<u64, NodeView>,
    n: nat,
    i: int,
)
    requires
        0 <= i < n,
        event_list(drive, events, times, nodes, n).events.len() < 80,
    ensures
        shows_event(
            event_list(drive, events, times, nodes, n).events,
            event_path(drive, events[i], nodes),
            events[i].reason,
            times[i],
        ),
    decreases n,
{
    let before = event_list(drive, events, times, nodes, (n - 1) as nat);
    lemma_event_list(drive, events, times, nodes, (n - 1) as nat);
    lemma_with_event(before, drive, events[n - 1], times[n - 1], nodes);
    if i < n - 1 {
        lemma_event_shown(drive, events, times, nodes, (n - 1) as nat, i);
        let after = event_list(drive, events, times, nodes, n);
        let path = event_path(drive, events[i], nodes);
        let a = choose|a: int|
            0 <= a < before.events.len() && event_key(
                (#[trigger] before.events[a]).path,
                before.events[a].reason,
                before.events[a].timestamp_utc,
            ) == event_key(path, events[i].reason, times[i]);
        assert(after.events[a] == before.events[a]);
    }
}

// ---------------------------------------------------------------------------
// The file table
// ---------------------------------------------------------------------------

/// Every directory in the file table is known afterwards, and so is every wanted
/// file: under its number, with its name and the number of the directory that it
/// lies in, as its first record has them.
pub proof fn law_directories_known(m: MftView, records: Seq<UsnRecordView>, i: int)
    requires
        0 <= i < records.len(),
        records[i].file_attributes & 0x10 == 0x10 || same_ignoring_case(
            records[i].file_name,
            "$UsnJrnl"@,
        ) || same_ignoring_case(records[i].file_name, "$Extend"@),
        !m.nodes.dom().contains(reference_base(records[i].file_reference_number)),
        forall|j: int|
            0 <= j < i ==> reference_base((#[trigger] records[j]).file_reference_number)
                != reference_base(records[i].file_reference_number),
    ensures
        ({
            let key = reference_base(records[i].file_reference_number);
            let nodes = with_nodes(m, records).nodes;
            &&& nodes.dom().contains(key)
            &&& nodes[key].name == records[i].file_name
            &&& nodes[key].parent_file_reference_number == reference_base(
                records[i].parent_file_reference_number,
            )
            &&& nodes[key].file_reference_number == records[i].file_reference_number
        }),
    decreases records.len(),
{
    let before = records.drop_last();
    let key = reference_base(records[i].file_reference_number);
    if i < before.len() {
        assert(before[i] == records[i]);
        assert forall|j: int| 0 <= j < i implies reference_base(
            (#[trigger] before[j]).file_reference_number,
        ) != key by {
            assert(before[j] == records[j]);
        }
        law_directories_known(m, before, i);
    } else {
        assert forall|j: int| 0 <= j < before.len() implies reference_base(
            (#[trigger] before[j]).file_reference_number,
        ) != key by {
            assert(before[j] == records[j]);
        }
        lemma_unknown_stays(m, before, key);
        lemma_system_names();
    }
}

proof fn lemma_system_names()
    ensures
        lower("$UsnJrnl"@) == lower("$usnjrnl"@),
        lower("$Extend"@) == lower("$extend"@),
{
    assert(lower("$UsnJrnl"@) =~= lower("$usnjrnl"@)) by {
        reveal_strlit("$UsnJrnl");
        reveal_strlit("$usnjrnl");
    }
    assert(lower("$Extend"@) =~= lower("$extend"@)) by {
        reveal_strlit("$Extend");
        reveal_strlit("$extend");
    }
}

proof fn lemma_unknown_stays(m: MftView, records: Seq<UsnRecordView>, key: u64)
    requires
        !m.nodes.dom().contains(key),
        forall|j: int|
            0 <= j < records.len() ==> reference_base(
                (#[trigger] records[j]).file_reference_number,
            ) != key,
    ensures
        !with_nodes(m, records).nodes.dom().contains(key),
    decreases records.len(),
{
    if records.len() > 0 {
        let before = records.drop_last();
        assert forall|j: int| 0 <= j < before.len() implies reference_base(
            (#[trigger] before[j]).file_reference_number,
        ) != key by {
            assert(before[j] == records[j]);
        }
        lemma_unknown_stays(m, before, key);
        assert(records[records.len() - 1] == records.last());
    }
}

/// What was found of one node at least is wanted no more, and where its directory
/// is not known that is wanted instead.
pub proof fn law_parents_wanted(m: MftView, r: UsnRecordView)
    requires
        m.pending.contains(reference_base(r.file_reference_number)),
    ensures
        ({
            let key = reference_base(r.file_reference_number);
            let parent = reference_base(r.parent_file_reference_number);
            let after = with_node(m, r);
            &&& after.nodes.dom().contains(key)
            &&& !after.pending.contains(key)
            &&& parent != 0 && parent != key && !after.nodes.dom().contains(parent)
                ==> after.pending.contains(parent)
        }),
{
}

/// The journal's own number is that of a node `$UsnJrnl`, in any case; where a node
/// `$Extend` is known, of one that lies in it.
pub proof fn law_journal_number(nodes: Map<u64, NodeView>)
    requires
        nodes.dom().finite(),
    ensures
        journal_number(nodes) is Some ==> exists|key: u64| #[trigger]
            nodes.dom().contains(key) && same_ignoring_case(nodes[key].name, "$UsnJrnl"@)
                && nodes[key].file_reference_number == journal_number(nodes)->0,
        journal_number(nodes) is None && (exists|key: u64| #[trigger]
            nodes.dom().contains(key) && same_ignoring_case(nodes[key].name, "$UsnJrnl"@)) ==> (
        exists|key: u64| #[trigger]
            nodes.dom().contains(key) && same_ignoring_case(nodes[key].name, "$Extend"@)),
{
    lemma_system_names();
    crate::order::lemma_in_order_exists::<u64>(nodes.dom());
    let keys = crate::order::in_order::<u64>(nodes.dom());
    let extend = first_named(nodes, keys, "$extend"@, None);
    lemma_first_named(nodes, keys, "$extend"@, None);
    lemma_first_named(nodes, keys, "$usnjrnl"@, extend);
    let found = first_named(nodes, keys, "$usnjrnl"@, extend);
    if found is Some {
        assert(keys.to_set().contains(found->0));
        assert(nodes.dom().contains(found->0));
    } else if exists|key: u64| #[trigger]
        nodes.dom().contains(key) && same_ignoring_case(nodes[key].name, "$UsnJrnl"@) {
        let key = choose|key: u64| #[trigger]
            nodes.dom().contains(key) && same_ignoring_case(nodes[key].name, "$UsnJrnl"@);
        assert(keys.to_set().contains(key));
        let i = choose|i: int| 0 <= i < keys.len() && keys[i] == key;
        assert(extend is Some);
        assert(keys.to_set().contains(extend->0));
        assert(nodes.dom().contains(extend->0));
    }
}

proof fn lemma_first_named(
    nodes: Map<u64, NodeView>,
    keys: Seq<u64>,
    name: Seq<char>,
    parent: Option<u64>,
)
    ensures
        first_named(nodes, keys, name, parent) matches Some(key) ==> keys.contains(key)
            && same_ignoring_case(nodes[key].name, name) && (parent is Some
            ==> nodes[key].parent_file_reference_number == parent->0),
        first_named(nodes, keys, name, parent) is None ==> forall|i: int|
            0 <= i < keys.len() && same_ignoring_case(nodes[#[trigger] keys[i]].name, name)
                ==> parent is Some && nodes[keys[i]].parent_file_reference_number != parent->0,
    decreases keys.len(),
{
    if keys.len() > 0 {
        let rest = keys.skip(1);
        lemma_first_named(nodes, rest, name, parent);
        if let Some(key) = first_named(nodes, keys, name, parent) {
            if key != keys[0] {
                let i = choose|i: int| 0 <= i < rest.len() && rest[i] == key;
                assert(keys[i + 1] == key);
            } else {
                assert(keys[0] == key);
            }
        } else {
            assert forall|i: int|
                0 <= i < keys.len() && same_ignoring_case(
                    nodes[#[trigger] keys[i]].name,
                    name,
                ) implies parent is Some && nodes[keys[i]].parent_file_reference_number
                != parent->0 by {
                if i > 0 {
                    assert(rest[i - 1] == keys[i]);
                }
            }
        }
    }
}

// ---------------------------------------------------------------------------
// File records
// ---------------------------------------------------------------------------

/// The time of the last change stands in the standard information of a file
/// record, eight bytes into its value; attributes before it are passed over.
pub proof fn law_modified_time(
    record: Seq<u8>,
    at: int,
    other_kind: nat,
    other_len: nat,
    value_len: nat,
    created: nat,
    modified: nat,
    rest: Seq<u8>,
    pad: Seq<u8>,
)
    requires
        0 <= at <= record.len(),
        pad.len() == 7,
        16 <= value_len < 0x1_0000_0000 - 24,
        created < 0x8000_0000_0000_0000,
        modified < 0x8000_0000_0000_0000,
        value_len <= 16 + rest.len(),
    ensures
        record.skip(at) == le_bytes(0x10, 4) + (le_bytes(24 + value_len, 4) + (seq![0u8] + pad + (
        le_bytes(value_len, 4) + (le_bytes(24, 2) + (le_bytes(0, 2) + (le_bytes(created, 8) + (
        le_bytes(modified, 8) + rest))))))) ==> modified_from(record, at) == Some(
            of_filetime(modified as int),
        ),
        other_kind != 0x10 && other_kind < 0xffff_ffff && 16 <= other_len < 0x1_0000_0000 && at
            + other_len <= record.len() && record.skip(at).take(8) == le_bytes(other_kind, 4)
            + le_bytes(other_len, 4) ==> modified_from(record, at) == modified_from(
            record,
            at + other_len,
        ),
{
    lemma_powers();
    let t5 = le_bytes(modified, 8) + rest;
    let t4 = le_bytes(created, 8) + t5;
    let t3 = le_bytes(0, 2) + t4;
    let t2 = le_bytes(24, 2) + t3;
    let t1 = le_bytes(value_len, 4) + t2;
    let t0 = seq![0u8] + pad + t1;
    if record.skip(at) == le_bytes(0x10, 4) + (le_bytes(24 + value_len, 4) + t0) {
        lemma_next(record, at, 0x10, 4, le_bytes(24 + value_len, 4) + t0);
        lemma_next(record, at + 4, 24 + value_len, 4, t0);
        assert(record[at + 8] == record.skip(at + 8)[0]);
        assert(record[at + 8] == 0);
        assert(record.skip(at + 16) =~= t1) by {
            assert(record.skip(at + 16) =~= record.skip(at + 8).skip(8));
            assert(t0.skip(8) =~= t1);
        }
        lemma_next(record, at + 16, value_len, 4, t2);
        lemma_next(record, at + 20, 24, 2, t3);
        lemma_next(record, at + 22, 0, 2, t4);
        lemma_next(record, at + 24, created, 8, t5);
        lemma_next(record, at + 32, modified, 8, rest);
        assert(record.skip(at + 40).len() == rest.len());
        assert(record.len() == at + 40 + rest.len());
    }
    if other_kind != 0x10 && other_kind < 0xffff_ffff && 16 <= other_len < 0x1_0000_0000 && at
        + other_len <= record.len() && record.skip(at).take(8) == le_bytes(other_kind, 4)
        + le_bytes(other_len, 4) {
        let behind = record.skip(at).skip(8);
        assert(record.skip(at) =~= record.skip(at).take(8) + behind);
        assert(record.skip(at) =~= le_bytes(other_kind, 4) + (le_bytes(other_len, 4) + behind));
        lemma_next(record, at, other_kind, 4, le_bytes(other_len, 4) + behind);
        lemma_next(record, at + 4, other_len, 4, behind);
    }
}

/// Where the attributes of a file record begin, its bytes 20 and 21 say; and what the
/// system hands out holds the record behind twelve bytes, of which the last four
/// count its bytes. What follows is not looked at.
pub proof fn law_record_unwrapped(
    head: Seq<u8>,
    first: nat,
    rest: Seq<u8>,
    front: Seq<u8>,
    record: Seq<u8>,
    after: Seq<u8>,
)
    requires
        head.len() == 20,
        first < 22 + rest.len(),
        first < 0x1_0000,
        rest.len() >= 2,
        front.len() == 8,
        0 < record.len() < 0x1_0000_0000,
    ensures
        record_modified(head + le_bytes(first, 2) + rest) == modified_from(
            head + le_bytes(first, 2) + rest,
            first as int,
        ),
        output_modified(front + le_bytes(record.len(), 4) + record + after) == record_modified(
            record,
        ),
{
    lemma_powers();
    let whole = head + le_bytes(first, 2) + rest;
    assert(whole.skip(20) =~= le_bytes(first, 2) + rest);
    lemma_next(whole, 20, first, 2, rest);
    lemma_le_roundtrip(first, 2);
    let output = front + le_bytes(record.len(), 4) + record + after;
    assert(output.skip(8) =~= le_bytes(record.len(), 4) + (record + after));
    lemma_next(output, 8, record.len(), 4, record + after);
    lemma_le_roundtrip(record.len(), 4);
    assert(output.subrange(12, 12 + record.len() as int) =~= record);
}

/// A buffer of the file table is read record by record, and reading goes on where the
/// buffer says, as long as that is further on and something is still wanted.
pub proof fn law_table_buffer_read(m: MftView, marker: u64, rs: Seq<WrittenRecord>)
    requires
        forall|i: int| 0 <= i < rs.len() ==> can_be_written(#[trigger] rs[i]),
        rs.len() > 0,
    ensures
        ({
            let buffer = le_bytes(marker as nat, 8) + records_bytes(rs);
            let (after, more) = with_table_buffer(m, buffer);
            let found = with_nodes(
                MftView { reads: m.reads + 1, ..m },
                rs.map_values(|r: WrittenRecord| read_record(r)),
            );
            &&& after.nodes == found.nodes
            &&& after.pending == found.pending
            &&& marker <= m.start ==> !more
            &&& marker > m.start ==> after.start == marker && (more <==> !(found.pending
                == Set::<u64>::empty() && journal_number(found.nodes) is Some))
        }),
{
    law_records_read_back(marker, rs);
    lemma_powers();
    lemma_le_roundtrip(marker as nat, 8);
    assert(can_be_written(rs[0]));
    lemma_le_roundtrip(header_len(rs[0]) + name_bytes(rs[0]).len(), 4);
    assert(records_bytes(rs).len() >= 4);
}

// ---------------------------------------------------------------------------
// Drives
// ---------------------------------------------------------------------------

/// The age of the oldest entry, in whole seconds, is told by its limits of a day
/// and of fourteen.
pub proof fn law_age_status(at: i64, seconds: int)
    requires
        i64::MIN <= at + seconds <= i64::MAX,
    ensures
        ({
            let old = Timestamp { secs: at, nanos: 0 };
            let now = Timestamp { secs: (at + seconds) as i64, nanos: 0 };
            &&& seconds < 86_400 ==> age_status(Some(old), now)
                == "Journal active <24h (Likely cleared)"@
            &&& 86_400 <= seconds < 1_209_600 ==> age_status(Some(old), now)
                == "Journal active <14d (Possible overwrite)"@
            &&& seconds >= 1_209_600 ==> age_status(Some(old), now)
                == "Journal active >14d (Normal)"@
            &&& age_status(None, now) == "Journal active (age unknown)"@
        }),
{
    let age = seconds * 1_000_000_000;
    assert((at + seconds) * 1_000_000_000 - at * 1_000_000_000 == age) by (nonlinear_arith)
        requires
            age == seconds * 1_000_000_000,
    ;
}

/// How long ago something was is told in days, hours and minutes, as many of them
/// as there are, and up to half a minute as just now.
pub proof fn law_humanized_age(at: i64, days: nat, hours: nat, minutes: nat, seconds: nat)
    requires
        hours < 24,
        minutes < 60,
        seconds < 60,
        at + days * 86_400 + hours * 3_600 + minutes * 60 + seconds <= i64::MAX,
    ensures
        ({
            let value = Timestamp { secs: at, nanos: 0 };
            let now = Timestamp {
                secs: (at + days * 86_400 + hours * 3_600 + minutes * 60 + seconds) as i64,
                nanos: 0,
            };
            let shown = humanized_age(value, now);
            &&& days == 0 && hours == 0 && minutes == 0 && seconds <= 30 ==> shown
                == "только что"@
            &&& days == 0 && hours == 0 && (minutes > 0 || seconds > 30) ==> shown == decimal(
                minutes,
            ) + " мин назад"@
            &&& days == 0 && hours > 0 ==> shown == decimal(hours) + " ч "@ + decimal(minutes)
                + " мин назад"@
            &&& days > 0 ==> shown == decimal(days) + " д "@ + decimal(hours) + " ч "@ + decimal(
                minutes,
            ) + " мин назад"@
        }),
{
    let total = days * 86_400 + hours * 3_600 + minutes * 60 + seconds;
    let value = Timestamp { secs: at, nanos: 0 };
    let now = Timestamp { secs: (at + total) as i64, nanos: 0 };
    assert(now.total() - value.total() == total * 1_000_000_000);
    assert((total * 1_000_000_000) / 1_000_000_000 == total);
    let m = total / 60;
    assert(m == days * 1440 + hours * 60 + minutes);
    assert(m / 1440 == days);
    assert(m % 1440 == hours * 60 + minutes);
    assert((hours * 60 + minutes) / 60 == hours);
    assert(m % 60 == minutes);
    reveal_strlit("");
    assert(""@ =~= Seq::empty());
    assert(""@ + decimal(minutes) =~= decimal(minutes));
    assert(""@ + decimal(hours) =~= decimal(hours));
    assert(""@ + decimal(days) =~= decimal(days));
}

/// Denied access is told apart from what a drive does not support and from all
/// else; the code of a system error is the same in both its forms.
pub proof fn law_drive_errors(action: DriveAction, code: u32)
    requires
        code < 0x1_0000,
    ensures
        system_code(code) == code,
        system_code((0x8007_0000 + code) as u32) == code,
        error_kind(action, 5) == DriveScanErrorKind::Permission,
        code == 1 || code == 50 || code == 87 ==> error_kind(action, code)
            == DriveScanErrorKind::Unsupported,
        action != DriveAction::OpenVolume ==> error_kind(action, 1179)
            == DriveScanErrorKind::Unsupported,
        code != 5 && code != 1 && code != 50 && code != 87 && code != 1179 ==> error_kind(
            action,
            code,
        ) == DriveScanErrorKind::Other,
{
}

/// What is said of a failed action: what was tried, how it failed and why.
pub proof fn law_errors_told(action: DriveAction, code: u32, text: Seq<char>)
    ensures
        ({
            let tried = match action {
                DriveAction::OpenVolume => "open volume"@,
                DriveAction::QueryJournal => "query journal"@,
                DriveAction::ReadJournal => "read journal"@,
                DriveAction::EnumerateFiles => "enum mft"@,
            };
            &&& error_kind(action, code) is Permission ==> error_message(action, code, text)
                == tried + " requires elevated rights: "@ + text
            &&& error_kind(action, code) is Unsupported ==> error_message(action, code, text)
                == tried + " unsupported: "@ + text
            &&& error_kind(action, code) is Other ==> error_message(action, code, text) == tried
                + " failed: "@ + text
        }),
{
}

/// Of the drives the most telling one decides: one with a fresh journal before one
/// with a young one, and either before all that are as they should be.
pub proof fn law_global_status(drives: Seq<UsnDriveView>, i: int)
    requires
        0 <= i < drives.len(),
    ensures
        contains(drives[i].status, "<24h"@) || contains(drives[i].status, "Likely cleared"@)
            ==> global_status(drives) == "USN: журнал выглядит свежим (<24h), проверь вручную"@,
        contains(drives[i].status, "<14d"@) && (forall|j: int|
            0 <= j < drives.len() ==> !contains((#[trigger] drives[j]).status, "<24h"@)
                && !contains(drives[j].status, "Likely cleared"@)) ==> global_status(drives)
            == "USN: активность журнала <14 дней (возможна очистка)"@,
        drives[i].records_scanned > 0 && (forall|j: int|
            0 <= j < drives.len() ==> !contains((#[trigger] drives[j]).status, "<24h"@)
                && !contains(drives[j].status, "Likely cleared"@) && !contains(
                drives[j].status,
                "<14d"@,
            )) ==> global_status(drives) == "USN: проверка завершена"@,
        (forall|j: int|
            0 <= j < drives.len() ==> (#[trigger] drives[j]).records_scanned == 0 && !contains(
                drives[j].status,
                "<24h"@,
            ) && !contains(drives[j].status, "Likely cleared"@) && !contains(
                drives[j].status,
                "<14d"@,
            )) && contains(drives[i].status, "Недоступно"@) ==> global_status(drives)
            == "USN: частично недоступен"@,
        global_status(Seq::empty()) == "USN Journal: данных нет"@,
{
}

/// Of the events of a drive the first ones are taken up, as many as there is room
/// for, behind those that are there.
pub proof fn law_events_taken_up(have: Seq<UsnEventView>, more: Seq<UsnEventView>, i: int)
    requires
        have.len() <= 80,
    ensures
        limited(have, more).take(have.len() as int) == have,
        limited(have, more).len() <= 80,
        0 <= i < more.len() && have.len() + i < 80 ==> have.len() + i < limited(have, more).len()
            && limited(have, more)[have.len() + i] == more[i],
{
    let all = have + more;
    assert(limited(have, more).take(have.len() as int) =~= have);
}

/// What was found on a drive that was read is shown for that drive, and one that
/// could not be read counts no records.
pub proof fn law_drive_shown(
    a: AssemblyView,
    drive: Seq<char>,
    scan: DriveScanOutput,
    times: DriveTimes,
    now: Timestamp,
    kind: DriveScanErrorKind,
    message: Seq<char>,
)
    ensures
        ({
            let d = with_drive(a, drive, scan, times, now).drives.last();
            let f = with_failed_drive(a, drive, true, kind, message).drives.last();
            &&& with_drive(a, drive, scan, times, now).drives.drop_last() == a.drives
            &&& d.drive == drive
            &&& d.records_scanned == scan.records_scanned
            &&& d.status == age_status(scan.oldest, now)
            &&& scan.newest is Some ==> d.age == Some(humanized_age(scan.newest->0, now))
            &&& scan.newest is None ==> d.age is None
            &&& d.oldest_entry_utc is Some == times.oldest is Some
            &&& times.oldest is Some ==> d.oldest_entry_utc == Some(times.oldest->0@)
            &&& times.newest is Some ==> d.newest_entry_utc == Some(times.newest->0@)
            &&& times.last_deletion is Some ==> d.last_deletion_utc == Some(
                times.last_deletion->0@,
            )
            &&& times.oldest_date is Some ==> d.oldest_entry_date_utc == Some(
                times.oldest_date->0@,
            )
            &&& with_drive(a, drive, scan, times, now).minecraft_events == limited(
                a.minecraft_events,
                views(scan.minecraft_events@),
            )
            &&& with_drive(a, drive, scan, times, now).discord_events == limited(
                a.discord_events,
                views(scan.discord_events@),
            )
            &&& with_drive(a, drive, scan, times, now).warnings == a.warnings + views(
                scan.warnings@,
            )
            &&& with_drive(a, drive, scan, times, now).scanned_locations
                == a.scanned_locations.push("usn_volume: "@ + drive)
            &&& a.scanned_records + scan.records_scanned <= usize::MAX ==> with_drive(
                a,
                drive,
                scan,
                times,
                now,
            ).scanned_records == a.scanned_records + scan.records_scanned
            &&& with_failed_drive(a, drive, true, kind, message).scanned_locations
                == a.scanned_locations.push("usn_volume: "@ + drive)
            &&& kind is Other ==> with_failed_drive(a, drive, true, kind, message).warnings
                == a.warnings.push("USN "@ + drive + ": "@ + trim(message, CharClass::Space))
            &&& kind is Other ==> with_failed_drive(a, drive, false, kind, message).warnings
                == a.warnings.push(
                "USN "@ + drive + ": пропущен ("@ + trim(message, CharClass::Space) + ")"@,
            )
            &&& kind is Other || with_failed_drive(a, drive, false, kind, message).warnings
                == a.warnings
            &&& f.drive == drive
            &&& f.records_scanned == 0
            &&& with_failed_drive(a, drive, false, kind, message).drives == a.drives
            &&& kind == DriveScanErrorKind::Permission ==> f.status
                == "Недоступно (нужны права администратора)"@
            &&& kind == DriveScanErrorKind::Unsupported ==> f.status
                == "Недоступно (USN не поддерживается)"@
            &&& kind == DriveScanErrorKind::Other ==> f.status
                == "Недоступно (права или политика системы)"@ && with_failed_drive(
                a,
                drive,
                true,
                kind,
                message,
            ).warnings.len() == a.warnings.len() + 1
            &&& kind != DriveScanErrorKind::Other ==> with_failed_drive(
                a,
                drive,
                true,
                kind,
                message,
            ).warnings == a.warnings
        }),
{
    assert(with_drive(a, drive, scan, times, now).drives.drop_last() =~= a.drives);
}

} // verus!
