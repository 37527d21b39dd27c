//! The records of a LevelDB directory that are in force, and a listing of
//! everything in it.

use vstd::prelude::*;

use crate::bytes::copy_bytes;
use crate::order::{
    bytes_before, char_codes, chars_position, in_order, increasing, lemma_in_order_exists,
    lemma_increasing_bytes, lemma_increasing_drop_last, lemma_precedes_transitive,
    lemma_text_total, text_before, OrderedMap, Position,
};
use crate::paths::{file_name, name_of_path};
use crate::readable::{
    decode_key_text, decode_value_full, key_text, normalize_line_text, one_line, preview,
    preview_text, value_text,
};
use crate::text::{chars_of, decimal, number_text, push_decimal, push_number, with_number};
use crate::viewer::{
    ContentView, LdbEntryView, LdbFile, ParsedFile, ParsedFileContent, ParsedFileView, ScanResult,
    ScanResultView, WalBatch, WalBatchView, WalFile, WalOperation, WalOperationKind,
    WalOperationView,
};
use crate::views::{opt_view, push_view, views};

verus! {

// ---------------------------------------------------------------------------
// Operations
// ---------------------------------------------------------------------------

/// One change of a key: to a value, or to none.
#[derive(Debug)]
pub struct Operation {
    pub sequence: u64,
    pub key: Vec<u8>,
    pub value: Option<Vec<u8>>,
    pub source: String,
}

#[verifier::ext_equal]
pub struct OpView {
    pub sequence: nat,
    pub key: Seq<u8>,
    pub value: Option<Seq<u8>>,
    pub source: Seq<char>,
}

impl View for Operation {
    type V = OpView;

    open spec fn view(&self) -> OpView {
        OpView {
            sequence: self.sequence as nat,
            key: self.key@,
            value: opt_view(self.value),
            source: self.source@,
        }
    }
}

/// The name of a file, or that it is not known.
pub open spec fn source_name(path: Seq<char>) -> Seq<char> {
    if file_name(path).len() == 0 {
        "<unknown>"@
    } else {
        file_name(path)
    }
}

fn name_of_source(path: &str) -> (r: String)
    ensures
        r@ == source_name(path@),
{
    let name = name_of_path(path);
    let chars = chars_of(name.as_str());
    if chars.len() == 0 {
        "<unknown>".to_string()
    } else {
        name
    }
}

/// The change that an entry of a table is; type 0 is a deletion.
pub open spec fn entry_op(e: LdbEntryView, source: Seq<char>) -> OpView {
    OpView {
        sequence: e.sequence,
        key: e.user_key,
        value: if e.value_type == 0 {
            None
        } else {
            Some(e.value)
        },
        source,
    }
}

/// The sum, up to the greatest 64-bit number.
pub open spec fn sequence_plus(start: nat, i: int) -> nat {
    if start + i > u64::MAX {
        u64::MAX as nat
    } else {
        (start + i) as nat
    }
}

/// The changes of the first `n` operations of a batch that starts at the
/// sequence number `start`. A put without a value is none.
pub open spec fn batch_ops(ops: Seq<WalOperationView>, start: nat, source: Seq<char>, n: nat) -> Seq<
    OpView,
>
    decreases n,
{
    if n == 0 || n > ops.len() {
        Seq::empty()
    } else {
        let before = batch_ops(ops, start, source, (n - 1) as nat);
        let op = ops[n - 1];
        let sequence = sequence_plus(start, n - 1);
        match op.kind {
            WalOperationKind::Put => match op.value {
                Some(value) => before.push(
                    OpView { sequence, key: op.key, value: Some(value), source },
                ),
                None => before,
            },
            WalOperationKind::Delete => before.push(
                OpView { sequence, key: op.key, value: None, source },
            ),
        }
    }
}

/// The changes of the batches of a log; one that did not parse has none.
pub open spec fn wal_ops(batches: Seq<WalBatchView>, source: Seq<char>) -> Seq<OpView>
    decreases batches.len(),
{
    if batches.len() == 0 {
        Seq::empty()
    } else {
        let before = wal_ops(batches.drop_last(), source);
        let b = batches.last();
        match b.sequence {
            Some(start) => before + batch_ops(b.operations, start, source, b.operations.len()),
            None => before,
        }
    }
}

/// The changes of one file.
pub open spec fn file_ops(file: ParsedFileView) -> Seq<OpView> {
    let source = source_name(file.path);
    match file.content {
        ContentView::Ldb(table) => table.entries.map_values(|e: LdbEntryView| entry_op(e, source)),
        ContentView::Wal(wal) => wal_ops(wal.batches, source),
        _ => Seq::empty(),
    }
}

/// The changes of all files, as found.
pub open spec fn scan_ops(files: Seq<ParsedFileView>) -> Seq<OpView>
    decreases files.len(),
{
    if files.len() == 0 {
        Seq::empty()
    } else {
        scan_ops(files.drop_last()) + file_ops(files.last())
    }
}

fn collect_table(table: &LdbFile, source: &str, out: &mut Vec<Operation>)
    ensures
        views(final(out)@) == views(old(out)@) + table@.entries.map_values(
            |e: LdbEntryView| entry_op(e, source@),
        ),
{
    let ghost start = views(out@);
    let ghost more = table@.entries.map_values(|e: LdbEntryView| entry_op(e, source@));
    assert(start + more.take(0) =~= start);
    for i in 0..table.entries.len()
        invariant
            more == views(table.entries@).map_values(|e: LdbEntryView| entry_op(e, source@)),
            views(out@) == start + more.take(i as int),
    {
        let e = &table.entries[i];
        let value = if e.value_type == 0 {
            None
        } else {
            Some(copy_bytes(e.value.as_slice()))
        };
        push_view(
            out,
            Operation {
                sequence: e.sequence,
                key: copy_bytes(e.user_key.as_slice()),
                value,
                source: source.to_string(),
            },
        );
        assert(out@.last()@ == entry_op(e@, source@));
        assert(more[i as int] == entry_op(e@, source@));
        assert(views(out@) =~= start + more.take(i + 1));
    }
    assert(more.take(more.len() as int) =~= more);
}

fn collect_batch(operations: &Vec<WalOperation>, start: u64, source: &str, out: &mut Vec<Operation>)
    ensures
        views(final(out)@) == views(old(out)@) + batch_ops(
            views(operations@),
            start as nat,
            source@,
            operations@.len(),
        ),
{
    let ghost had = views(out@);
    let ghost all = views(operations@);
    assert(had + batch_ops(all, start as nat, source@, 0) =~= had);
    for i in 0..operations.len()
        invariant
            all == views(operations@),
            views(out@) == had + batch_ops(all, start as nat, source@, i as nat),
    {
        let op = &operations[i];
        assert(all[i as int] == op@);
        let ghost before = batch_ops(all, start as nat, source@, i as nat);
        let sequence: u64 = start.saturating_add(i as u64);
        match op.kind {
            WalOperationKind::Put => {
                if let Some(value) = &op.value {
                    push_view(
                        out,
                        Operation {
                            sequence,
                            key: copy_bytes(op.key.as_slice()),
                            value: Some(copy_bytes(value.as_slice())),
                            source: source.to_string(),
                        },
                    );
                    assert((had + before).push(out@.last()@) =~= had + before.push(out@.last()@));
                }
            },
            WalOperationKind::Delete => {
                push_view(
                    out,
                    Operation {
                        sequence,
                        key: copy_bytes(op.key.as_slice()),
                        value: None,
                        source: source.to_string(),
                    },
                );
                assert((had + before).push(out@.last()@) =~= had + before.push(out@.last()@));
            },
        }
    }
}

fn collect_log(wal: &WalFile, source: &str, out: &mut Vec<Operation>)
    ensures
        views(final(out)@) == views(old(out)@) + wal_ops(wal@.batches, source@),
{
    let ghost had = views(out@);
    let ghost all = views(wal.batches@);
    assert(had + wal_ops(all.take(0), source@) =~= had);
    for i in 0..wal.batches.len()
        invariant
            all == views(wal.batches@),
            views(out@) == had + wal_ops(all.take(i as int), source@),
    {
        let batch = &wal.batches[i];
        assert(all.take(i + 1).drop_last() =~= all.take(i as int));
        assert(all.take(i + 1).last() == batch@);
        let ghost before = wal_ops(all.take(i as int), source@);
        if let Some(start) = batch.sequence {
            collect_batch(&batch.operations, start, source, out);
            let ghost more = batch_ops(
                batch@.operations,
                start as nat,
                source@,
                batch@.operations.len(),
            );
            assert((had + before) + more =~= had + (before + more));
        }
    }
    assert(all.take(all.len() as int) =~= all);
}

pub fn collect_operations(scan: &ScanResult) -> (r: Vec<Operation>)
    ensures
        views(r@) == scan_ops(scan@.files),
{
    let ghost all = views(scan.files@);
    let mut out: Vec<Operation> = Vec::new();
    assert(views(out@) =~= Seq::empty());
    for i in 0..scan.files.len()
        invariant
            all == views(scan.files@),
            views(out@) == scan_ops(all.take(i as int)),
    {
        let file = &scan.files[i];
        assert(all.take(i + 1).drop_last() =~= all.take(i as int));
        assert(all.take(i + 1).last() == file@);
        let source = name_of_source(file.path.as_str());
        match &file.content {
            ParsedFileContent::Ldb(table) => {
                collect_table(table, source.as_str(), &mut out);
            },
            ParsedFileContent::Wal(wal) => {
                collect_log(wal, source.as_str(), &mut out);
            },
            _ => {
                assert(scan_ops(all.take(i as int)) + Seq::empty() =~= scan_ops(
                    all.take(i as int),
                ));
            },
        }
    }
    assert(all.take(all.len() as int) =~= all);
    out
}

// ---------------------------------------------------------------------------
// Records in force
// ---------------------------------------------------------------------------

/// `a` was made before `b`: by sequence number, then by the name of the source.
pub open spec fn op_before(a: OpView, b: OpView) -> bool {
    a.sequence < b.sequence || (a.sequence == b.sequence && text_before(a.source, b.source))
}

/// The last change of each key; of two that are not ordered the later one found
/// counts.
pub open spec fn latest(ops: Seq<OpView>) -> Map<Seq<u8>, OpView>
    decreases ops.len(),
{
    if ops.len() == 0 {
        Map::empty()
    } else {
        let before = latest(ops.drop_last());
        let op = ops.last();
        if before.dom().contains(op.key) && op_before(op, before[op.key]) {
            before
        } else {
            before.insert(op.key, op)
        }
    }
}

proof fn lemma_op_before_transitive(a: OpView, b: OpView, c: OpView)
    requires
        !op_before(b, a),
        !op_before(c, b),
    ensures
        !op_before(c, a),
{
    lemma_text_total(a.source, b.source);
    lemma_text_total(b.source, c.source);
    lemma_text_total(a.source, c.source);
    if a.sequence == b.sequence && b.sequence == c.sequence && text_before(c.source, a.source) {
        let x = char_codes(a.source);
        let y = char_codes(b.source);
        let z = char_codes(c.source);
        if text_before(a.source, b.source) {
            lemma_precedes_transitive(z, x, y);
        }
    }
}

/// Every key that was changed has a last change: one of those that were found,
/// and none found was made after it.
pub proof fn law_latest(ops: Seq<OpView>, key: Seq<u8>)
    ensures
        latest(ops).dom().contains(key) <==> exists|i: int|
            0 <= i < ops.len() && (#[trigger] ops[i]).key == key,
        latest(ops).dom().contains(key) ==> {
            &&& ops.contains(latest(ops)[key])
            &&& latest(ops)[key].key == key
            &&& forall|i: int|
                0 <= i < ops.len() && (#[trigger] ops[i]).key == key ==> !op_before(
                    latest(ops)[key],
                    ops[i],
                )
        },
    decreases ops.len(),
{
    if ops.len() > 0 {
        let before = ops.drop_last();
        let op = ops.last();
        law_latest(before, key);
        let m = latest(before);
        if exists|i: int| 0 <= i < before.len() && (#[trigger] before[i]).key == key {
            let i = choose|i: int| 0 <= i < before.len() && (#[trigger] before[i]).key == key;
            assert(ops[i].key == key);
            let j = choose|j: int| 0 <= j < before.len() && before[j] == m[key];
            assert(ops[j] == m[key]);
        }
        if exists|i: int| 0 <= i < ops.len() && (#[trigger] ops[i]).key == key {
            let i = choose|i: int| 0 <= i < ops.len() && (#[trigger] ops[i]).key == key;
            if i < before.len() {
                assert(before[i].key == key);
            }
        }
        assert(ops[ops.len() - 1] == op);
        if latest(ops).dom().contains(key) {
            let last = latest(ops)[key];
            assert forall|i: int| 0 <= i < ops.len() && (
            #[trigger] ops[i]).key == key implies !op_before(last, ops[i]) by {
                lemma_text_total(op.source, op.source);
                if i < before.len() {
                    assert(before[i] == ops[i]);
                    assert(!op_before(m[key], before[i]));
                    if op.key == key && last == op {
                        lemma_op_before_transitive(ops[i], m[key], op);
                    }
                } else if last != op {
                    lemma_text_total(op.source, last.source);
                }
            }
        }
    }
}

#[derive(Debug, Clone)]
pub struct ReadableRecord {
    pub key_raw: Vec<u8>,
    pub value_raw: Vec<u8>,
    pub key_text: String,
    pub value_preview: String,
    pub value_full: String,
    pub sequence: u64,
    pub source: String,
}

#[verifier::ext_equal]
pub struct RecordView {
    pub key_raw: Seq<u8>,
    pub value_raw: Seq<u8>,
    pub key_text: Seq<char>,
    pub value_preview: Seq<char>,
    pub value_full: Seq<char>,
    pub sequence: nat,
    pub source: Seq<char>,
}

impl View for ReadableRecord {
    type V = RecordView;

    open spec fn view(&self) -> RecordView {
        RecordView {
            key_raw: self.key_raw@,
            value_raw: self.value_raw@,
            key_text: self.key_text@,
            value_preview: self.value_preview@,
            value_full: self.value_full@,
            sequence: self.sequence as nat,
            source: self.source@,
        }
    }
}

/// The readable form of a change that set a value.
pub open spec fn readable_record(op: OpView, preview_chars: nat) -> RecordView {
    RecordView {
        key_raw: op.key,
        value_raw: op.value->0,
        key_text: key_text(op.key),
        value_preview: preview(value_text(op.value->0), preview_chars),
        value_full: value_text(op.value->0),
        sequence: op.sequence,
        source: op.source,
    }
}

/// The readable forms of those of `ops` that set a value, in order.
pub open spec fn readable_of(ops: Seq<OpView>, preview_chars: nat) -> Seq<RecordView>
    decreases ops.len(),
{
    if ops.len() == 0 {
        Seq::empty()
    } else {
        let before = readable_of(ops.drop_last(), preview_chars);
        if ops.last().value is Some {
            before.push(readable_record(ops.last(), preview_chars))
        } else {
            before
        }
    }
}

/// The last changes of all keys in the order of the keys.
pub open spec fn latest_in_order(ops: Seq<OpView>) -> Seq<OpView> {
    in_order::<Vec<u8>>(latest(ops).dom()).map_values(|k: Seq<u8>| latest(ops)[k])
}

proof fn lemma_latest_finite(ops: Seq<OpView>)
    ensures
        latest(ops).dom().finite(),
    decreases ops.len(),
{
    if ops.len() > 0 {
        lemma_latest_finite(ops.drop_last());
    }
}

proof fn lemma_readable_of(ops: Seq<OpView>, preview_chars: nat, key: Seq<u8>)
    requires
        increasing::<Vec<u8>>(ops.map_values(|op: OpView| op.key)),
    ensures
        ({
            let records = readable_of(ops, preview_chars);
            &&& forall|i: int, j: int|
                0 <= i < j < records.len() ==> bytes_before(
                    (#[trigger] records[i]).key_raw,
                    (#[trigger] records[j]).key_raw,
                )
            &&& forall|i: int|
                0 <= i < records.len() ==> exists|j: int|
                    0 <= j < ops.len() && (#[trigger] ops[j]).value is Some
                        && #[trigger] records[i] == readable_record(ops[j], preview_chars)
            &&& (exists|i: int| 0 <= i < records.len() && (#[trigger] records[i]).key_raw == key)
                <==> exists|j: int|
                0 <= j < ops.len() && (#[trigger] ops[j]).key == key && ops[j].value is Some
        }),
    decreases ops.len(),
{
    if ops.len() > 0 {
        let shorter = ops.drop_last();
        let keys = ops.map_values(|op: OpView| op.key);
        let some_keys = shorter.map_values(|op: OpView| op.key);
        lemma_increasing_drop_last::<Vec<u8>>(keys);
        assert(keys.drop_last() =~= some_keys);
        lemma_readable_of(shorter, preview_chars, key);
        let before = readable_of(shorter, preview_chars);
        let records = readable_of(ops, preview_chars);
        let last = ops.last();
        assert(ops[ops.len() - 1] == last);
        assert forall|i: int| 0 <= i < records.len() implies exists|j: int|
            0 <= j < ops.len() && (#[trigger] ops[j]).value is Some && #[trigger] records[i]
                == readable_record(ops[j], preview_chars) by {
            if i < before.len() {
                assert(records[i] == before[i]);
                let j = choose|j: int|
                    0 <= j < shorter.len() && (#[trigger] shorter[j]).value is Some && before[i]
                        == readable_record(shorter[j], preview_chars);
                assert(ops[j] == shorter[j]);
            }
        }
        assert forall|i: int, j: int| 0 <= i < j < records.len() implies bytes_before(
            (#[trigger] records[i]).key_raw,
            (#[trigger] records[j]).key_raw,
        ) by {
            assert(records[i] == before[i]);
            if j < before.len() {
                assert(records[j] == before[j]);
            } else {
                let k = choose|k: int|
                    0 <= k < shorter.len() && (#[trigger] shorter[k]).value is Some && before[i]
                        == readable_record(shorter[k], preview_chars);
                assert(keys[k] == shorter[k].key);
                assert(keys[ops.len() - 1] == last.key);
                lemma_increasing_bytes(keys, k, ops.len() - 1);
            }
        }
        if exists|i: int| 0 <= i < before.len() && (#[trigger] before[i]).key_raw == key {
            let i = choose|i: int| 0 <= i < before.len() && (#[trigger] before[i]).key_raw == key;
            assert(records[i].key_raw == key);
        }
        if exists|i: int| 0 <= i < records.len() && (#[trigger] records[i]).key_raw == key {
            let i = choose|i: int| 0 <= i < records.len() && (#[trigger] records[i]).key_raw == key;
            if i < before.len() {
                assert(before[i].key_raw == key);
            }
        }
        if exists|j: int|
            0 <= j < shorter.len() && (#[trigger] shorter[j]).key == key && shorter[j].value is Some {
            let j = choose|j: int|
                0 <= j < shorter.len() && (#[trigger] shorter[j]).key == key && shorter[j].value is Some;
            assert(ops[j].key == key && ops[j].value is Some);
        }
        if exists|j: int|
            0 <= j < ops.len() && (#[trigger] ops[j]).key == key && ops[j].value is Some {
            let j = choose|j: int|
                0 <= j < ops.len() && (#[trigger] ops[j]).key == key && ops[j].value is Some;
            if j < shorter.len() {
                assert(shorter[j].key == key && shorter[j].value is Some);
            } else {
                assert(records[records.len() - 1].key_raw == key);
            }
        }
    }
}

/// The records stand in the order of their keys, no key twice, and a key has one
/// exactly where its last change set a value.
pub proof fn law_records_in_force(ops: Seq<OpView>, preview_chars: nat, key: Seq<u8>)
    ensures
        ({
            let records = readable_of(latest_in_order(ops), preview_chars);
            &&& forall|i: int, j: int|
                0 <= i < j < records.len() ==> bytes_before(
                    (#[trigger] records[i]).key_raw,
                    (#[trigger] records[j]).key_raw,
                )
            &&& (exists|i: int| 0 <= i < records.len() && (#[trigger] records[i]).key_raw == key)
                <==> latest(ops).dom().contains(key) && latest(ops)[key].value is Some
        }),
{
    let map = latest(ops);
    lemma_latest_finite(ops);
    lemma_in_order_exists::<Vec<u8>>(map.dom());
    let keys = in_order::<Vec<u8>>(map.dom());
    let ordered = latest_in_order(ops);
    assert forall|i: int| 0 <= i < keys.len() implies (#[trigger] ordered[i]).key == keys[i] by {
        assert(keys.to_set().contains(keys[i]));
        law_latest(ops, keys[i]);
    }
    assert(ordered.map_values(|op: OpView| op.key) =~= keys);
    lemma_readable_of(ordered, preview_chars, key);
    if map.dom().contains(key) {
        assert(keys.to_set().contains(key));
        let j = choose|j: int| 0 <= j < keys.len() && keys[j] == key;
        assert(ordered[j] == map[key]);
        assert(ordered[j].key == key);
    }
    if exists|j: int|
        0 <= j < ordered.len() && (#[trigger] ordered[j]).key == key && ordered[j].value is Some {
        let j = choose|j: int|
            0 <= j < ordered.len() && (#[trigger] ordered[j]).key == key && ordered[j].value is Some;
        assert(keys[j] == key);
        assert(keys.to_set().contains(key));
        assert(ordered[j] == map[key]);
    }
}

/// The file is a table or a write-ahead log: it can hold changes.
pub open spec fn holds_changes(file: ParsedFileView) -> bool {
    file.content is Ldb || file.content is Wal
}

/// Which tables and write-ahead logs are among the files.
pub open spec fn change_files(files: Seq<ParsedFileView>) -> Set<ParsedFileView> {
    files.to_set().filter(|f: ParsedFileView| holds_changes(f))
}

/// The names of the files tell them apart.
pub open spec fn have_own_names(files: Set<ParsedFileView>) -> bool {
    forall|f: ParsedFileView, g: ParsedFileView| #[trigger]
        files.contains(f) && #[trigger] files.contains(g) && f != g ==> source_name(f.path)
            != source_name(g.path)
}

proof fn lemma_batch_sources(ops: Seq<WalOperationView>, start: nat, source: Seq<char>, n: nat)
    ensures
        forall|i: int|
            0 <= i < batch_ops(ops, start, source, n).len() ==> (#[trigger] batch_ops(
                ops,
                start,
                source,
                n,
            )[i]).source == source,
    decreases n,
{
    if 0 < n <= ops.len() {
        lemma_batch_sources(ops, start, source, (n - 1) as nat);
    }
}

proof fn lemma_wal_sources(batches: Seq<WalBatchView>, source: Seq<char>)
    ensures
        forall|i: int|
            0 <= i < wal_ops(batches, source).len() ==> (#[trigger] wal_ops(batches, source)[i]).source
                == source,
    decreases batches.len(),
{
    if batches.len() > 0 {
        lemma_wal_sources(batches.drop_last(), source);
        let b = batches.last();
        if b.sequence is Some {
            lemma_batch_sources(b.operations, b.sequence->0, source, b.operations.len());
        }
    }
}

/// The last change of a key in a file bears the name of the file.
proof fn lemma_latest_source(file: ParsedFileView, key: Seq<u8>)
    requires
        latest(file_ops(file)).dom().contains(key),
    ensures
        latest(file_ops(file))[key].source == source_name(file.path),
{
    let ops = file_ops(file);
    law_latest(ops, key);
    let i = choose|i: int| 0 <= i < ops.len() && ops[i] == latest(ops)[key];
    match file.content {
        ContentView::Wal(wal) => {
            lemma_wal_sources(wal.batches, source_name(file.path));
        },
        _ => {},
    }
}

/// The last change of a key in two lists, one behind the other, is that of the
/// second list, unless it has none or one that was made before that of the first.
proof fn lemma_latest_concat(a: Seq<OpView>, b: Seq<OpView>, key: Seq<u8>)
    ensures
        latest(a + b).dom().contains(key) <==> latest(a).dom().contains(key) || latest(
            b,
        ).dom().contains(key),
        latest(b).dom().contains(key) && !(latest(a).dom().contains(key) && op_before(
            latest(b)[key],
            latest(a)[key],
        )) ==> latest(a + b)[key] == latest(b)[key],
        latest(a).dom().contains(key) && (latest(b).dom().contains(key) ==> op_before(
            latest(b)[key],
            latest(a)[key],
        )) ==> latest(a + b)[key] == latest(a)[key],
    decreases b.len(),
{
    if b.len() == 0 {
        assert(a + b =~= a);
    } else {
        let shorter = b.drop_last();
        let op = b.last();
        assert((a + b).drop_last() =~= a + shorter);
        assert((a + b).last() == op);
        lemma_latest_concat(a, shorter, key);
        if op.key == key && latest(a).dom().contains(key) && latest(shorter).dom().contains(key) {
            let x = latest(a)[key];
            let y = latest(shorter)[key];
            if !op_before(y, x) && !op_before(op, y) {
                lemma_op_before_transitive(x, y, op);
            }
            if op_before(op, y) && op_before(y, x) {
                lemma_text_total(op.source, y.source);
                lemma_text_total(y.source, x.source);
                if !op_before(op, x) {
                    lemma_op_before_transitive(x, op, y);
                }
            }
        }
    }
}

/// `op` is the last change of the key in one of the files, and in none of them
/// the last one was made after it.
spec fn is_last_in(files: Set<ParsedFileView>, key: Seq<u8>, op: OpView) -> bool {
    &&& exists|f: ParsedFileView|
        #![trigger file_ops(f)]
        files.contains(f) && latest(file_ops(f)).dom().contains(key) && op == latest(
            file_ops(f),
        )[key]
    &&& forall|f: ParsedFileView|
        #![trigger file_ops(f)]
        files.contains(f) && latest(file_ops(f)).dom().contains(key) ==> !op_before(
            op,
            latest(file_ops(f))[key],
        )
}

/// The last change of a key is the last one in one of the files that hold changes.
proof fn lemma_latest_of_files(files: Seq<ParsedFileView>, key: Seq<u8>)
    ensures
        latest(scan_ops(files)).dom().contains(key) <==> exists|f: ParsedFileView|
            #![trigger file_ops(f)]
            change_files(files).contains(f) && latest(file_ops(f)).dom().contains(key),
        latest(scan_ops(files)).dom().contains(key) ==> is_last_in(
            change_files(files),
            key,
            latest(scan_ops(files))[key],
        ),
    decreases files.len(),
{
    if files.len() > 0 {
        let shorter = files.drop_last();
        let file = files.last();
        let all = change_files(files);
        let some = change_files(shorter);
        let a = scan_ops(shorter);
        let b = file_ops(file);
        lemma_latest_of_files(shorter, key);
        lemma_latest_concat(a, b, key);
        assert(all =~= if holds_changes(file) {
            some.insert(file)
        } else {
            some
        }) by {
            assert forall|f: ParsedFileView| files.to_set().contains(f) == (
            shorter.to_set().contains(f) || f == file) by {
                if shorter.contains(f) {
                    let i = choose|i: int| 0 <= i < shorter.len() && shorter[i] == f;
                    assert(files[i] == f);
                }
                if files.contains(f) && f != file {
                    let i = choose|i: int| 0 <= i < files.len() && files[i] == f;
                    assert(shorter[i] == f);
                }
                assert(files[files.len() - 1] == file);
            }
        }
        if !holds_changes(file) {
            assert(b =~= Seq::<OpView>::empty());
        } else {
            let has_a = latest(a).dom().contains(key);
            let has_b = latest(b).dom().contains(key);
            if has_a {
                let f = choose|f: ParsedFileView|
                    #![trigger file_ops(f)]
                    some.contains(f) && latest(file_ops(f)).dom().contains(key) && latest(a)[key]
                        == latest(file_ops(f))[key];
                assert(all.contains(f));
            }
            if has_a || has_b {
                let op = latest(a + b)[key];
                assert(is_last_in(all, key, op)) by {
                    assert forall|f: ParsedFileView|
                        #![trigger file_ops(f)]
                        all.contains(f) && latest(file_ops(f)).dom().contains(
                            key,
                        ) implies !op_before(op, latest(file_ops(f))[key]) by {
                        let other = latest(file_ops(f))[key];
                        lemma_text_total(op.source, other.source);
                        if f != file {
                            assert(some.contains(f));
                            assert(!op_before(latest(a)[key], other));
                            if has_b && op == latest(b)[key] && !op_before(op, latest(a)[key]) {
                                lemma_op_before_transitive(other, latest(a)[key], op);
                            }
                        } else if op != other {
                            lemma_text_total(other.source, op.source);
                        }
                    }
                }
            }
        }
    } else {
        assert(change_files(files) =~= Set::empty()) by {
            assert forall|f: ParsedFileView| !files.to_set().contains(f) by {}
        }
    }
}

/// The records in force depend on which tables and write-ahead logs there are,
/// told apart by their names, and on nothing else: not on the order in which the
/// files were read, nor on text logs or on files that could not be read.
pub proof fn law_records_of_any_order(
    a: Seq<ParsedFileView>,
    b: Seq<ParsedFileView>,
    preview_chars: nat,
)
    requires
        change_files(a) == change_files(b),
        have_own_names(change_files(a)),
    ensures
        readable_of(latest_in_order(scan_ops(a)), preview_chars) == readable_of(
            latest_in_order(scan_ops(b)),
            preview_chars,
        ),
{
    let files = change_files(a);
    let x = latest(scan_ops(a));
    let y = latest(scan_ops(b));
    assert forall|key: Seq<u8>| x.dom().contains(key) == y.dom().contains(key) by {
        lemma_latest_of_files(a, key);
        lemma_latest_of_files(b, key);
    }
    assert forall|key: Seq<u8>| #[trigger] x.dom().contains(key) implies x[key] == y[key] by {
        lemma_latest_of_files(a, key);
        lemma_latest_of_files(b, key);
        let f = choose|f: ParsedFileView|
            #![trigger file_ops(f)]
            files.contains(f) && latest(file_ops(f)).dom().contains(key) && x[key] == latest(
                file_ops(f),
            )[key];
        let g = choose|g: ParsedFileView|
            #![trigger file_ops(g)]
            files.contains(g) && latest(file_ops(g)).dom().contains(key) && y[key] == latest(
                file_ops(g),
            )[key];
        lemma_latest_source(f, key);
        lemma_latest_source(g, key);
        lemma_text_total(x[key].source, y[key].source);
        assert(!op_before(x[key], y[key]));
        assert(!op_before(y[key], x[key]));
        assert(f == g);
    }
    assert(x =~= y);
    assert(latest_in_order(scan_ops(a)) =~= latest_in_order(scan_ops(b)));
}

fn is_made_before(a: &Operation, b: &Operation) -> (r: bool)
    ensures
        r == op_before(a@, b@),
{
    if a.sequence != b.sequence {
        return a.sequence < b.sequence;
    }
    let x = chars_of(a.source.as_str());
    let y = chars_of(b.source.as_str());
    proof {
        lemma_text_total(x@, y@);
    }
    match chars_position(x.as_slice(), y.as_slice()) {
        Position::Before => true,
        _ => false,
    }
}

/// The records in force, in the order of their keys.
pub fn build_readable_records(scan: &ScanResult, preview_chars: usize) -> (r: Vec<ReadableRecord>)
    ensures
        views(r@) == readable_of(latest_in_order(scan_ops(scan@.files)), preview_chars as nat),
{
    let operations = collect_operations(scan);
    let ghost ops = views(operations@);
    let mut last: OrderedMap<Vec<u8>, Operation> = OrderedMap::new();
    for i in 0..operations.len()
        invariant
            ops == views(operations@),
            last@ == latest(ops.take(i as int)),
    {
        let op = &operations[i];
        assert(ops.take(i + 1).drop_last() =~= ops.take(i as int));
        assert(ops.take(i + 1).last() == op@);
        let outdated = match last.get(&op.key) {
            Some(newer) => is_made_before(op, newer),
            None => false,
        };
        if !outdated {
            let value = match &op.value {
                Some(value) => Some(copy_bytes(value.as_slice())),
                None => None,
            };
            let copy = Operation {
                sequence: op.sequence,
                key: copy_bytes(op.key.as_slice()),
                value,
                source: op.source.clone(),
            };
            assert(copy@ == op@);
            last.insert(copy_bytes(op.key.as_slice()), copy);
        }
    }
    assert(ops.take(ops.len() as int) =~= ops);
    let ghost ordered = latest_in_order(ops);
    let (keys, values) = last.into_lists();
    assert(views(values@) =~= ordered);
    let mut out: Vec<ReadableRecord> = Vec::new();
    assert(views(out@) =~= Seq::empty());
    for i in 0..values.len()
        invariant
            views(values@) == ordered,
            views(out@) == readable_of(ordered.take(i as int), preview_chars as nat),
    {
        let op = &values[i];
        assert(ordered.take(i + 1).drop_last() =~= ordered.take(i as int));
        assert(ordered.take(i + 1).last() == op@);
        if let Some(value) = &op.value {
            let value_full = decode_value_full(value.as_slice());
            let value_preview = preview_text(value_full.as_str(), preview_chars);
            let record = ReadableRecord {
                key_raw: copy_bytes(op.key.as_slice()),
                value_raw: copy_bytes(value.as_slice()),
                key_text: decode_key_text(op.key.as_slice()),
                value_preview,
                value_full,
                sequence: op.sequence,
                source: op.source.clone(),
            };
            assert(record@ == readable_record(op@, preview_chars as nat));
            push_view(&mut out, record);
        }
    }
    assert(ordered.take(ordered.len() as int) =~= ordered);
    out
}

// ---------------------------------------------------------------------------
// Listing
// ---------------------------------------------------------------------------

/// `s` with spaces before it, up to six characters.
pub open spec fn padded(s: Seq<char>) -> Seq<char>
    decreases 6 - s.len(),
{
    if s.len() >= 6 {
        s
    } else {
        padded(seq![' '] + s)
    }
}

/// The numbered lines of a text log.
pub open spec fn log_lines(lines: Seq<Seq<char>>, n: nat) -> Seq<Seq<char>>
    decreases n,
{
    if n == 0 || n > lines.len() {
        Seq::empty()
    } else {
        log_lines(lines, (n - 1) as nat).push(padded(decimal(n)) + " | "@ + lines[n - 1])
    }
}

/// The start of every line of a batch.
pub open spec fn batch_prefix(b: WalBatchView, number: nat) -> Seq<char> {
    with_number(
        with_number(with_number("batch="@, number, " offset="@), b.offset as nat, " fragments="@),
        b.fragments as nat,
        " checksum="@,
    ) + if b.checksum_ok {
        "ok"@
    } else {
        "bad"@
    }
}

/// The line of an operation.
pub open spec fn operation_line(prefix: Seq<char>, sequence: nat, op: WalOperationView) -> Seq<char> {
    let key = one_line(key_text(op.key));
    match op.kind {
        WalOperationKind::Put => with_number(
            prefix + " | seq="@,
            sequence,
            " | PUT | key="@,
        ) + key + " | value="@ + one_line(
            match op.value {
                Some(value) => value_text(value),
                None => "<missing>"@,
            },
        ),
        WalOperationKind::Delete => with_number(
            prefix + " | seq="@,
            sequence,
            " | DELETE | key="@,
        ) + key,
    }
}

/// The lines of the first `n` operations.
pub open spec fn operation_lines(prefix: Seq<char>, start: nat, ops: Seq<WalOperationView>, n: nat) -> Seq<
    Seq<char>,
>
    decreases n,
{
    if n == 0 || n > ops.len() {
        Seq::empty()
    } else {
        operation_lines(prefix, start, ops, (n - 1) as nat).push(
            operation_line(prefix, sequence_plus(start, n - 1), ops[n - 1]),
        )
    }
}

/// The lines of a batch: why it did not parse, or its operations.
pub open spec fn batch_lines(b: WalBatchView, number: nat) -> Seq<Seq<char>> {
    let prefix = batch_prefix(b, number);
    match b.parse_error {
        Some(error) => seq![prefix + " | parse_error="@ + error],
        None => operation_lines(
            prefix,
            match b.sequence {
                Some(n) => n,
                None => 0,
            },
            b.operations,
            b.operations.len(),
        ),
    }
}

/// The lines of the first `n` batches.
pub open spec fn batches_lines(batches: Seq<WalBatchView>, n: nat) -> Seq<Seq<char>>
    decreases n,
{
    if n == 0 || n > batches.len() {
        Seq::empty()
    } else {
        batches_lines(batches, (n - 1) as nat) + batch_lines(batches[n - 1], n)
    }
}

/// The line of an entry of a table.
pub open spec fn entry_line(e: LdbEntryView, number: nat) -> Seq<char> {
    let start = with_number("entry="@, number, " | seq="@);
    let key = one_line(key_text(e.user_key));
    if e.value_type == 0 {
        with_number(start, e.sequence, " | DELETE | key="@) + key
    } else {
        with_number(start, e.sequence, " | PUT | key="@) + key + " | value="@ + one_line(
            value_text(e.value),
        )
    }
}

/// The lines of the first `n` entries of a table.
pub open spec fn entry_lines(entries: Seq<LdbEntryView>, n: nat) -> Seq<Seq<char>>
    decreases n,
{
    if n == 0 || n > entries.len() {
        Seq::empty()
    } else {
        entry_lines(entries, (n - 1) as nat).push(entry_line(entries[n - 1], n))
    }
}

pub open spec fn prefixed(prefix: Seq<char>, texts: Seq<Seq<char>>) -> Seq<Seq<char>> {
    texts.map_values(|t: Seq<char>| prefix + t)
}

/// The line above a file.
pub open spec fn file_heading(path: Seq<char>, kind: Seq<char>) -> Seq<char> {
    "=== FILE: "@ + source_name(path) + " ["@ + kind + "] ==="@
}

/// The lines of a file, with an empty one at the end.
pub open spec fn file_lines(file: ParsedFileView) -> Seq<Seq<char>> {
    let heading = seq![file_heading(file.path, crate::viewer::kind_name(file.content))];
    let body = match file.content {
        ContentView::TextLog(lines) => log_lines(lines, lines.len()),
        ContentView::Wal(wal) => prefixed("warning | "@, wal.warnings) + batches_lines(
            wal.batches,
            wal.batches.len(),
        ),
        ContentView::Ldb(table) => prefixed("warning | "@, table.warnings) + entry_lines(
            table.entries,
            table.entries.len(),
        ),
        ContentView::Error(message) => seq![message],
    };
    heading + body + seq![Seq::<char>::empty()]
}

/// The lines of all files.
pub open spec fn files_lines(files: Seq<ParsedFileView>) -> Seq<Seq<char>>
    decreases files.len(),
{
    if files.len() == 0 {
        Seq::empty()
    } else {
        files_lines(files.drop_last()) + file_lines(files.last())
    }
}

/// The lines of a listing: the target, the warnings, an empty line, the files.
pub open spec fn scan_lines(scan: ScanResultView) -> Seq<Seq<char>> {
    seq!["scan_target: "@ + scan.target] + prefixed("scan_warning: "@, scan.warnings)
        + seq![Seq::<char>::empty()] + files_lines(scan.files)
}

fn push_empty(out: &mut Vec<String>)
    ensures
        views(final(out)@) == views(old(out)@).push(Seq::<char>::empty()),
{
    let s = String::new();
    assert(s@ =~= Seq::<char>::empty());
    push_view(out, s);
}

fn push_prefixed(out: &mut Vec<String>, prefix: &str, texts: &Vec<String>)
    ensures
        views(final(out)@) == views(old(out)@) + prefixed(prefix@, views(texts@)),
{
    let ghost start = views(out@);
    let ghost more = prefixed(prefix@, views(texts@));
    assert(start + more.take(0) =~= start);
    for i in 0..texts.len()
        invariant
            more == prefixed(prefix@, views(texts@)),
            views(out@) == start + more.take(i as int),
    {
        let mut line = prefix.to_string();
        line.push_str(texts[i].as_str());
        assert(more[i as int] == line@);
        push_view(out, line);
        assert(views(out@) =~= start + more.take(i + 1));
    }
    assert(more.take(more.len() as int) =~= more);
}

fn pad(s: String) -> (r: String)
    ensures
        r@ == padded(s@),
{
    let mut out = s;
    let mut size: usize = chars_of(out.as_str()).len();
    while size < 6
        invariant
            size == out@.len(),
            padded(out@) == padded(s@),
        decreases 6 - size,
    {
        let ghost before = out@;
        let mut wider = String::new();
        wider.push(' ');
        wider.push_str(out.as_str());
        out = wider;
        assert(out@ =~= seq![' '] + before);
        size = size + 1;
    }
    out
}

fn push_log_lines(out: &mut Vec<String>, lines: &Vec<String>)
    ensures
        views(final(out)@) == views(old(out)@) + log_lines(views(lines@), lines@.len()),
{
    let ghost start = views(out@);
    let ghost all = views(lines@);
    assert(start + log_lines(all, 0) =~= start);
    for i in 0..lines.len()
        invariant
            all == views(lines@),
            views(out@) == start + log_lines(all, i as nat),
    {
        let mut number = String::new();
        push_decimal(&mut number, i as u64 + 1);
        assert(number@ =~= decimal((i + 1) as nat));
        let mut line = pad(number);
        line.push_str(" | ");
        line.push_str(lines[i].as_str());
        assert(all[i as int] == lines@[i as int]@);
        push_view(out, line);
        assert(views(out@) =~= start + log_lines(all, (i + 1) as nat));
    }
}

fn operation_text(prefix: &str, sequence: u64, op: &WalOperation) -> (r: String)
    ensures
        r@ == operation_line(prefix@, sequence as nat, op@),
{
    let key = decode_key_text(op.key.as_slice());
    let key_line = normalize_line_text(key.as_str());
    let mut line = prefix.to_string();
    line.push_str(" | seq=");
    match op.kind {
        WalOperationKind::Put => {
            let value = match &op.value {
                Some(value) => decode_value_full(value.as_slice()),
                None => "<missing>".to_string(),
            };
            let value_line = normalize_line_text(value.as_str());
            push_number(&mut line, sequence, " | PUT | key=");
            line.push_str(key_line.as_str());
            line.push_str(" | value=");
            line.push_str(value_line.as_str());
        },
        WalOperationKind::Delete => {
            push_number(&mut line, sequence, " | DELETE | key=");
            line.push_str(key_line.as_str());
        },
    }
    line
}

fn push_batch_lines(out: &mut Vec<String>, batch: &WalBatch, number: usize)
    ensures
        views(final(out)@) == views(old(out)@) + batch_lines(batch@, number as nat),
{
    let mut prefix = number_text("batch=", number as u64, " offset=");
    push_number(&mut prefix, batch.offset as u64, " fragments=");
    push_number(&mut prefix, batch.fragments as u64, " checksum=");
    prefix.push_str(
        if batch.checksum_ok {
            "ok"
        } else {
            "bad"
        },
    );
    assert(prefix@ == batch_prefix(batch@, number as nat));
    let ghost start = views(out@);
    if let Some(error) = &batch.parse_error {
        let mut line = prefix;
        line.push_str(" | parse_error=");
        line.push_str(error.as_str());
        push_view(out, line);
        assert(views(out@) =~= start + batch_lines(batch@, number as nat));
        return;
    }
    let first: u64 = match batch.sequence {
        Some(n) => n,
        None => 0,
    };
    let ghost all = views(batch.operations@);
    assert(start + operation_lines(prefix@, first as nat, all, 0) =~= start);
    for i in 0..batch.operations.len()
        invariant
            all == views(batch.operations@),
            views(out@) == start + operation_lines(prefix@, first as nat, all, i as nat),
    {
        assert(all[i as int] == batch.operations@[i as int]@);
        let sequence: u64 = first.saturating_add(i as u64);
        let line = operation_text(prefix.as_str(), sequence, &batch.operations[i]);
        push_view(out, line);
        assert(views(out@) =~= start + operation_lines(
            prefix@,
            first as nat,
            all,
            (i + 1) as nat,
        ));
    }
}

fn push_batches_lines(out: &mut Vec<String>, wal: &WalFile)
    ensures
        views(final(out)@) == views(old(out)@) + batches_lines(wal@.batches, wal@.batches.len()),
{
    let ghost start = views(out@);
    let ghost all = views(wal.batches@);
    assert(start + batches_lines(all, 0) =~= start);
    for i in 0..wal.batches.len()
        invariant
            all == views(wal.batches@),
            views(out@) == start + batches_lines(all, i as nat),
    {
        assert(all[i as int] == wal.batches@[i as int]@);
        push_batch_lines(out, &wal.batches[i], i + 1);
        assert(views(out@) =~= start + batches_lines(all, (i + 1) as nat));
    }
}

fn push_entry_lines(out: &mut Vec<String>, table: &LdbFile)
    ensures
        views(final(out)@) == views(old(out)@) + entry_lines(table@.entries, table@.entries.len()),
{
    let ghost start = views(out@);
    let ghost all = views(table.entries@);
    assert(start + entry_lines(all, 0) =~= start);
    for i in 0..table.entries.len()
        invariant
            all == views(table.entries@),
            views(out@) == start + entry_lines(all, i as nat),
    {
        let e = &table.entries[i];
        assert(all[i as int] == e@);
        let key = decode_key_text(e.user_key.as_slice());
        let key_line = normalize_line_text(key.as_str());
        let mut line = number_text("entry=", i as u64 + 1, " | seq=");
        if e.value_type == 0 {
            push_number(&mut line, e.sequence, " | DELETE | key=");
            line.push_str(key_line.as_str());
        } else {
            let value = decode_value_full(e.value.as_slice());
            let value_line = normalize_line_text(value.as_str());
            push_number(&mut line, e.sequence, " | PUT | key=");
            line.push_str(key_line.as_str());
            line.push_str(" | value=");
            line.push_str(value_line.as_str());
        }
        assert(line@ == entry_line(e@, (i + 1) as nat));
        push_view(out, line);
        assert(views(out@) =~= start + entry_lines(all, (i + 1) as nat));
    }
}

fn push_file_lines(out: &mut Vec<String>, file: &ParsedFile)
    ensures
        views(final(out)@) == views(old(out)@) + file_lines(file@),
{
    let ghost start = views(out@);
    let name = name_of_source(file.path.as_str());
    let mut heading = "=== FILE: ".to_string();
    heading.push_str(name.as_str());
    heading.push_str(" [");
    heading.push_str(crate::viewer::file_kind_name(&file.content));
    heading.push_str("] ===");
    push_view(out, heading);
    match &file.content {
        ParsedFileContent::TextLog(log) => {
            push_log_lines(out, &log.lines);
        },
        ParsedFileContent::Wal(wal) => {
            push_prefixed(out, "warning | ", &wal.warnings);
            push_batches_lines(out, wal);
        },
        ParsedFileContent::Ldb(table) => {
            push_prefixed(out, "warning | ", &table.warnings);
            push_entry_lines(out, table);
        },
        ParsedFileContent::Error(message) => {
            push_view(out, message.clone());
        },
    }
    push_empty(out);
    assert(views(out@) =~= start + file_lines(file@));
}

pub fn build_scan_export_lines(scan: &ScanResult) -> (r: Vec<String>)
    ensures
        views(r@) == scan_lines(scan@),
{
    let mut out: Vec<String> = Vec::new();
    assert(views(out@) =~= Seq::empty());
    let mut target = "scan_target: ".to_string();
    target.push_str(scan.target.as_str());
    push_view(&mut out, target);
    push_prefixed(&mut out, "scan_warning: ", &scan.warnings);
    push_empty(&mut out);
    let ghost head = views(out@);
    let ghost all = views(scan.files@);
    assert(head + files_lines(all.take(0)) =~= head);
    for i in 0..scan.files.len()
        invariant
            all == views(scan.files@),
            views(out@) == head + files_lines(all.take(i as int)),
    {
        assert(all.take(i + 1).drop_last() =~= all.take(i as int));
        assert(all.take(i + 1).last() == scan.files@[i as int]@);
        push_file_lines(&mut out, &scan.files[i]);
        assert(views(out@) =~= head + files_lines(all.take(i + 1)));
    }
    assert(all.take(all.len() as int) =~= all);
    assert(views(out@) =~= scan_lines(scan@));
    out
}

/// The lines with a line feed behind each.
pub open spec fn ended_lines(lines: Seq<Seq<char>>) -> Seq<char>
    decreases lines.len(),
{
    if lines.len() == 0 {
        Seq::empty()
    } else {
        (ended_lines(lines.drop_last()) + lines.last()).push('\n')
    }
}

/// The text of a listing, and how many lines it has.
pub fn export_scan_text(scan: &ScanResult) -> (r: (String, usize))
    ensures
        r.0@ == ended_lines(scan_lines(scan@)),
        r.1 == scan_lines(scan@).len(),
{
    let lines = build_scan_export_lines(scan);
    let ghost all = views(lines@);
    let mut content = String::new();
    assert(content@ =~= Seq::empty());
    for i in 0..lines.len()
        invariant
            all == views(lines@),
            content@ == ended_lines(all.take(i as int)),
    {
        assert(all.take(i + 1).drop_last() =~= all.take(i as int));
        assert(all.take(i + 1).last() == lines@[i as int]@);
        content.push_str(lines[i].as_str());
        content.push('\n');
    }
    assert(all.take(all.len() as int) =~= all);
    (content, lines.len())
}

} // verus!
