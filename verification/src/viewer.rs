//! The files of a LevelDB directory: which ones are read, what each one holds,
//! and how bytes are shown.

use vstd::prelude::*;
use vstd::utf8::{decode_utf8, valid_utf8};

use crate::bytes::{byte_range, copy_bytes, le_at, read_u64};
use crate::order::{
    char_codes, chars_position, lemma_precedes_transitive, lemma_text_total, text_before, Position,
};
use crate::std_text::{utf8_lossy, utf8_text, utf8_text_lossy};
use crate::table::{
    block_entries, decode_block_handle, leading_handle, parse_block_entries, parse_table_footer,
    read_table_block, table_block, table_footer, BlockEntry, EntryView, TABLE_FOOTER_SIZE,
};
use crate::text::{
    append_texts, char_is_control, chars_of, decimal, head, hex, is_control, is_text,
    is_text_ignoring_case, last_at, lines, lines_of, lower, number_text, push_decimal, push_hex,
    push_number, rfind_chars, same_ignoring_case, string_of, tail, to_lower, with_number,
};
use crate::views::{opt_view, push_view, views};
use crate::wal::{
    assemble_wal_logical_records, logical_records, parse_wal_physical_records, parse_write_batch,
    physical_records, write_batch, BatchOperation, BatchOperationKind, LogicalView, OperationView,
    WalLogicalRecord,
};

verus! {

// ---------------------------------------------------------------------------
// Parsed files
// ---------------------------------------------------------------------------

#[derive(Debug, Clone)]
pub struct ScanResult {
    pub target: String,
    pub files: Vec<ParsedFile>,
    pub warnings: Vec<String>,
}

#[derive(Debug, Clone)]
pub struct ParsedFile {
    pub path: String,
    pub content: ParsedFileContent,
}

#[derive(Debug, Clone)]
pub enum ParsedFileContent {
    TextLog(TextLogFile),
    Wal(WalFile),
    Ldb(LdbFile),
    Error(String),
}

#[derive(Debug, Clone)]
pub struct TextLogFile {
    pub lines: Vec<String>,
}

#[derive(Debug, Clone)]
pub struct WalFile {
    pub physical_records: usize,
    pub logical_records: usize,
    pub warnings: Vec<String>,
    pub batches: Vec<WalBatch>,
}

#[derive(Debug, Clone)]
pub struct WalBatch {
    pub offset: usize,
    pub payload_bytes: usize,
    pub fragments: usize,
    pub checksum_ok: bool,
    pub sequence: Option<u64>,
    pub declared_count: Option<u32>,
    pub trailing_bytes: usize,
    pub parse_error: Option<String>,
    pub operations: Vec<WalOperation>,
}

#[derive(Debug, Clone)]
pub struct WalOperation {
    pub kind: WalOperationKind,
    pub key: Vec<u8>,
    pub value: Option<Vec<u8>>,
}

#[derive(Debug, Clone, Copy, PartialEq, Eq, Structural)]
pub enum WalOperationKind {
    Put,
    Delete,
}

#[derive(Debug, Clone)]
pub struct LdbFile {
    pub index_entries: usize,
    pub data_blocks: usize,
    pub warnings: Vec<String>,
    pub entries: Vec<LdbEntry>,
}

#[derive(Debug, Clone)]
pub struct LdbEntry {
    pub user_key: Vec<u8>,
    pub sequence: u64,
    pub value_type: u8,
    pub value: Vec<u8>,
}

#[verifier::ext_equal]
pub struct WalOperationView {
    pub kind: WalOperationKind,
    pub key: Seq<u8>,
    pub value: Option<Seq<u8>>,
}

impl View for WalOperation {
    type V = WalOperationView;

    open spec fn view(&self) -> WalOperationView {
        WalOperationView { kind: self.kind, key: self.key@, value: opt_view(self.value) }
    }
}

#[verifier::ext_equal]
pub struct WalBatchView {
    pub offset: int,
    pub payload_bytes: nat,
    pub fragments: int,
    pub checksum_ok: bool,
    pub sequence: Option<nat>,
    pub declared_count: Option<nat>,
    pub trailing_bytes: nat,
    pub parse_error: Option<Seq<char>>,
    pub operations: Seq<WalOperationView>,
}

impl View for WalBatch {
    type V = WalBatchView;

    open spec fn view(&self) -> WalBatchView {
        WalBatchView {
            offset: self.offset as int,
            payload_bytes: self.payload_bytes as nat,
            fragments: self.fragments as int,
            checksum_ok: self.checksum_ok,
            sequence: match self.sequence {
                Some(n) => Some(n as nat),
                None => None,
            },
            declared_count: match self.declared_count {
                Some(n) => Some(n as nat),
                None => None,
            },
            trailing_bytes: self.trailing_bytes as nat,
            parse_error: opt_view(self.parse_error),
            operations: views(self.operations@),
        }
    }
}

#[verifier::ext_equal]
pub struct WalFileView {
    pub physical_records: nat,
    pub logical_records: nat,
    pub warnings: Seq<Seq<char>>,
    pub batches: Seq<WalBatchView>,
}

impl View for WalFile {
    type V = WalFileView;

    open spec fn view(&self) -> WalFileView {
        WalFileView {
            physical_records: self.physical_records as nat,
            logical_records: self.logical_records as nat,
            warnings: views(self.warnings@),
            batches: views(self.batches@),
        }
    }
}

#[verifier::ext_equal]
pub struct LdbEntryView {
    pub user_key: Seq<u8>,
    pub sequence: nat,
    pub value_type: nat,
    pub value: Seq<u8>,
}

impl View for LdbEntry {
    type V = LdbEntryView;

    open spec fn view(&self) -> LdbEntryView {
        LdbEntryView {
            user_key: self.user_key@,
            sequence: self.sequence as nat,
            value_type: self.value_type as nat,
            value: self.value@,
        }
    }
}

#[verifier::ext_equal]
pub struct LdbFileView {
    pub index_entries: nat,
    pub data_blocks: nat,
    pub warnings: Seq<Seq<char>>,
    pub entries: Seq<LdbEntryView>,
}

impl View for LdbFile {
    type V = LdbFileView;

    open spec fn view(&self) -> LdbFileView {
        LdbFileView {
            index_entries: self.index_entries as nat,
            data_blocks: self.data_blocks as nat,
            warnings: views(self.warnings@),
            entries: views(self.entries@),
        }
    }
}

#[verifier::ext_equal]
pub enum ContentView {
    TextLog(Seq<Seq<char>>),
    Wal(WalFileView),
    Ldb(LdbFileView),
    Error(Seq<char>),
}

impl View for ParsedFileContent {
    type V = ContentView;

    open spec fn view(&self) -> ContentView {
        match self {
            ParsedFileContent::TextLog(file) => ContentView::TextLog(views(file.lines@)),
            ParsedFileContent::Wal(file) => ContentView::Wal(file@),
            ParsedFileContent::Ldb(file) => ContentView::Ldb(file@),
            ParsedFileContent::Error(message) => ContentView::Error(message@),
        }
    }
}

#[verifier::ext_equal]
pub struct ParsedFileView {
    pub path: Seq<char>,
    pub content: ContentView,
}

impl View for ParsedFile {
    type V = ParsedFileView;

    open spec fn view(&self) -> ParsedFileView {
        ParsedFileView { path: self.path@, content: self.content@ }
    }
}

#[verifier::ext_equal]
pub struct ScanResultView {
    pub target: Seq<char>,
    pub files: Seq<ParsedFileView>,
    pub warnings: Seq<Seq<char>>,
}

impl View for ScanResult {
    type V = ScanResultView;

    open spec fn view(&self) -> ScanResultView {
        ScanResultView {
            target: self.target@,
            files: views(self.files@),
            warnings: views(self.warnings@),
        }
    }
}

/// The short name of what a file is.
pub open spec fn kind_name(content: ContentView) -> Seq<char> {
    match content {
        ContentView::TextLog(_) => "LOG"@,
        ContentView::Wal(_) => "WAL"@,
        ContentView::Ldb(_) => "LDB"@,
        ContentView::Error(_) => "ERROR"@,
    }
}

pub fn file_kind_name(content: &ParsedFileContent) -> (r: &'static str)
    ensures
        r@ == kind_name(content@),
{
    match content {
        ParsedFileContent::TextLog(_) => "LOG",
        ParsedFileContent::Wal(_) => "WAL",
        ParsedFileContent::Ldb(_) => "LDB",
        ParsedFileContent::Error(_) => "ERROR",
    }
}

// ---------------------------------------------------------------------------
// Which files are read
// ---------------------------------------------------------------------------

#[derive(Debug, Clone, Copy, PartialEq, Eq, Structural)]
pub enum FileCategory {
    TextLog,
    Wal,
    Ldb,
    Other,
}

/// `LOG`, or `LOG.` with anything behind it, in any case.
pub open spec fn text_log_name(name: Seq<char>) -> bool {
    same_ignoring_case(name, "LOG"@) || (name.len() >= 4 && same_ignoring_case(
        name.take(4),
        "LOG."@,
    ))
}

/// A name that ends in `.log` in any case, unless all before its last dot is `LOG`.
pub open spec fn wal_log_name(name: Seq<char>) -> bool {
    match last_at(name, "."@) {
        Some(dot) => !same_ignoring_case(name.take(dot), "LOG"@) && same_ignoring_case(
            name.skip(dot + 1),
            "log"@,
        ),
        None => false,
    }
}

/// What stands behind the last dot of a file name, where something stands
/// before that dot.
pub open spec fn extension(name: Seq<char>) -> Option<Seq<char>> {
    match last_at(name, "."@) {
        Some(dot) => if dot == 0 || name == ".."@ {
            None
        } else {
            Some(name.skip(dot + 1))
        },
        None => None,
    }
}

pub open spec fn extension_is(name: Seq<char>, expected: Seq<char>) -> bool {
    extension(name) is Some && same_ignoring_case(extension(name)->0, expected)
}

pub open spec fn category(name: Seq<char>) -> FileCategory {
    if text_log_name(name) {
        FileCategory::TextLog
    } else if wal_log_name(name) {
        FileCategory::Wal
    } else if extension_is(name, "ldb"@) {
        FileCategory::Ldb
    } else {
        FileCategory::Other
    }
}

pub fn is_text_log_name(name: &str) -> (r: bool)
    ensures
        r == text_log_name(name@),
{
    let chars = chars_of(name);
    if is_text_ignoring_case(chars.as_slice(), "LOG") {
        return true;
    }
    if chars.len() < 4 {
        return false;
    }
    is_text_ignoring_case(head(chars.as_slice(), 4), "LOG.")
}

/// The index of the last dot.
pub fn last_dot(chars: &[char]) -> (r: Option<usize>)
    ensures
        match r {
            Some(i) => last_at(chars@, "."@) == Some(i as int) && i < chars@.len(),
            None => last_at(chars@, "."@) is None,
        },
{
    let dot = chars_of(".");
    proof {
        reveal_strlit(".");
    }
    rfind_chars(chars, dot.as_slice())
}

pub fn is_wal_log_name(name: &str) -> (r: bool)
    ensures
        r == wal_log_name(name@),
{
    let chars = chars_of(name);
    match last_dot(chars.as_slice()) {
        Some(dot) => {
            let size: usize = chars.len();
            assert(dot < size);
            let stem = head(chars.as_slice(), dot);
            let ext = tail(chars.as_slice(), dot + 1);
            !is_text_ignoring_case(stem, "LOG") && is_text_ignoring_case(ext, "log")
        },
        None => false,
    }
}

/// Where the extension of the file name `chars` starts.
pub fn extension_start(chars: &[char]) -> (r: Option<usize>)
    ensures
        match r {
            Some(at) => at <= chars@.len() && extension(chars@) == Some(chars@.skip(at as int)),
            None => extension(chars@) is None,
        },
{
    match last_dot(chars) {
        Some(dot) => {
            if dot == 0 || is_text(chars, "..") {
                return None;
            }
            let size: usize = chars.len();
            assert(dot < size);
            Some(dot + 1)
        },
        None => None,
    }
}

/// Whether the file name `name` has the extension `expected`, in any case.
pub fn has_extension(name: &str, expected: &str) -> (r: bool)
    ensures
        r == extension_is(name@, expected@),
{
    let chars = chars_of(name);
    match extension_start(chars.as_slice()) {
        Some(at) => is_text_ignoring_case(tail(chars.as_slice(), at), expected),
        None => false,
    }
}

/// What the file with the name `name` is read as. A path without a name has
/// the empty one.
pub fn classify_file(name: &str) -> (r: FileCategory)
    ensures
        r == category(name@),
{
    if is_text_log_name(name) {
        return FileCategory::TextLog;
    }
    if is_wal_log_name(name) {
        return FileCategory::Wal;
    }
    if has_extension(name, "ldb") {
        return FileCategory::Ldb;
    }
    FileCategory::Other
}

/// Text logs come first, then write-ahead logs, then tables.
pub open spec fn rank(category: FileCategory) -> int {
    match category {
        FileCategory::TextLog => 0,
        FileCategory::Wal => 1,
        FileCategory::Ldb => 2,
        FileCategory::Other => 3,
    }
}

/// The place of a file in the order of reading: its rank, then its name in
/// lower case.
pub fn sort_key_for_path(name: &str) -> (r: (u8, String))
    ensures
        r.0 == rank(category(name@)),
        r.1@ == lower(name@),
{
    let place: u8 = match classify_file(name) {
        FileCategory::TextLog => 0,
        FileCategory::Wal => 1,
        FileCategory::Ldb => 2,
        FileCategory::Other => 3,
    };
    (place, to_lower(name))
}

/// File `i` of `names` is read before file `j`: by rank, then by name in lower
/// case, then as found.
pub open spec fn read_before(names: Seq<Seq<char>>, i: int, j: int) -> bool {
    let a = rank(category(names[i]));
    let b = rank(category(names[j]));
    let x = lower(names[i]);
    let y = lower(names[j]);
    a < b || (a == b && (text_before(x, y) || (x == y && i < j)))
}

/// `order` holds the index of every supported file once, in the order of reading.
pub open spec fn is_reading_order(names: Seq<Seq<char>>, order: Seq<usize>) -> bool {
    &&& forall|k: int|
        0 <= k < order.len() ==> (#[trigger] order[k]) < names.len() && category(
            names[order[k] as int],
        ) != FileCategory::Other
    &&& forall|i: int|
        0 <= i < names.len() && category(#[trigger] names[i]) != FileCategory::Other
            ==> order.contains(i as usize)
    &&& forall|k: int, l: int|
        0 <= k < l < order.len() ==> read_before(
            names,
            #[trigger] order[k] as int,
            #[trigger] order[l] as int,
        )
}

proof fn lemma_read_before_total(names: Seq<Seq<char>>, i: int, j: int)
    requires
        i != j,
        !read_before(names, i, j),
    ensures
        read_before(names, j, i),
{
    let x = lower(names[i]);
    let y = lower(names[j]);
    lemma_text_total(x, y);
}

proof fn lemma_read_before_transitive(names: Seq<Seq<char>>, i: int, j: int, k: int)
    requires
        read_before(names, i, j),
        read_before(names, j, k),
    ensures
        read_before(names, i, k),
{
    let x = char_codes(lower(names[i]));
    let y = char_codes(lower(names[j]));
    let z = char_codes(lower(names[k]));
    if text_before(lower(names[i]), lower(names[j])) && text_before(
        lower(names[j]),
        lower(names[k]),
    ) {
        lemma_precedes_transitive(x, y, z);
    }
}

/// The indices of the files of a directory that are read, in the order of
/// reading; `names` are their names as found.
pub fn reading_order(names: &Vec<String>) -> (r: Vec<usize>)
    ensures
        is_reading_order(views(names@), r@),
{
    let ghost all = views(names@);
    let mut order: Vec<usize> = Vec::new();
    for i in 0..names.len()
        invariant
            all == views(names@),
            forall|k: int|
                0 <= k < order@.len() ==> (#[trigger] order@[k]) < i && category(
                    all[order@[k] as int],
                ) != FileCategory::Other,
            forall|n: int|
                0 <= n < i && category(#[trigger] all[n]) != FileCategory::Other
                    ==> order@.contains(n as usize),
            forall|k: int, l: int|
                0 <= k < l < order@.len() ==> read_before(
                    all,
                    #[trigger] order@[k] as int,
                    #[trigger] order@[l] as int,
                ),
    {
        assert(all[i as int] == names@[i as int]@);
        if classify_file(names[i].as_str()) != FileCategory::Other {
            let (own_rank, name) = sort_key_for_path(names[i].as_str());
            let chars = chars_of(name.as_str());
            let mut at: usize = order.len();
            let mut found = false;
            while at > 0 && !found
                invariant
                    all == views(names@),
                    i < names@.len(),
                    at <= order@.len(),
                    own_rank == rank(category(all[i as int])),
                    chars@ == lower(all[i as int]),
                    found ==> at > 0 && read_before(all, order@[at - 1] as int, i as int),
                    forall|k: int|
                        0 <= k < order@.len() ==> (#[trigger] order@[k]) < i,
                    forall|k: int|
                        at <= k < order@.len() ==> read_before(
                            all,
                            i as int,
                            #[trigger] order@[k] as int,
                        ),
                decreases
                    at,
                    (if found {
                        0int
                    } else {
                        1int
                    }),
            {
                let other: usize = order[at - 1];
                assert(all[other as int] == names@[other as int]@);
                let (other_rank, other_name) = sort_key_for_path(names[other].as_str());
                let other_chars = chars_of(other_name.as_str());
                let earlier = other_rank < own_rank || (other_rank == own_rank && chars_position(
                    other_chars.as_slice(),
                    chars.as_slice(),
                ) != Position::After);
                proof {
                    lemma_text_total(other_chars@, chars@);
                }
                assert(earlier == read_before(all, other as int, i as int));
                if earlier {
                    found = true;
                } else {
                    proof {
                        lemma_read_before_total(all, other as int, i as int);
                    }
                    at = at - 1;
                }
            }
            let ghost before = order@;
            order.insert(at, i);
            proof {
                let after = order@;
                assert(after =~= before.insert(at as int, i));
                assert forall|k: int| 0 <= k < at implies read_before(
                    all,
                    #[trigger] before[k] as int,
                    i as int,
                ) by {
                    if k < at - 1 {
                        lemma_read_before_transitive(
                            all,
                            before[k] as int,
                            before[at - 1] as int,
                            i as int,
                        );
                    }
                }
                assert forall|k: int, l: int| 0 <= k < l < after.len() implies read_before(
                    all,
                    #[trigger] after[k] as int,
                    #[trigger] after[l] as int,
                ) by {
                    let a = if k < at {
                        k
                    } else {
                        k - 1
                    };
                    let b = if l < at {
                        l
                    } else {
                        l - 1
                    };
                    if k != at {
                        assert(after[k] == before[a]);
                    }
                    if l != at {
                        assert(after[l] == before[b]);
                    }
                }
                assert forall|n: int|
                    0 <= n < i + 1 && category(#[trigger] all[n]) != FileCategory::Other implies after.contains(n as usize) by {
                    if n < i {
                        assert(before.contains(n as usize));
                        let k = before.index_of(n as usize);
                        if k < at {
                            assert(after[k] == n as usize);
                        } else {
                            assert(after[k + 1] == n as usize);
                        }
                    } else {
                        assert(after[at as int] == i);
                    }
                }
            }
        }
    }
    order
}

/// What a path that was asked for turned out to be.
#[derive(Debug, Clone, Copy, PartialEq, Eq, Structural)]
pub enum TargetKind {
    Missing,
    File,
    Directory,
    Neither,
}

/// The outcome of a scan of `target`, of which `files` were parsed.
pub open spec fn scanned(target: Seq<char>, kind: TargetKind, files: Seq<ParsedFileView>) -> Result<
    ScanResultView,
    Seq<char>,
> {
    match kind {
        TargetKind::Missing => Err("Path does not exist: "@ + target),
        TargetKind::Neither => Err("Path is neither file nor directory: "@ + target),
        TargetKind::File => Ok(ScanResultView { target, files, warnings: Seq::empty() }),
        TargetKind::Directory => Ok(
            ScanResultView {
                target,
                files,
                warnings: if files.len() == 0 {
                    seq![
                        "No supported files found in "@ + target
                            + ". Expected LOG*, *.log, *.ldb."@,
                    ]
                } else {
                    Seq::empty()
                },
            },
        ),
    }
}

/// Puts the outcome of a scan together. `target` is the path as shown.
pub fn scan_target(target: &str, kind: TargetKind, files: Vec<ParsedFile>) -> (r: Result<
    ScanResult,
    String,
>)
    ensures
        match r {
            Ok(result) => scanned(target@, kind, views(files@)) == Ok::<ScanResultView, Seq<char>>(
                result@,
            ),
            Err(e) => scanned(target@, kind, views(files@)) == Err::<ScanResultView, Seq<char>>(e@),
        },
{
    let mut warnings: Vec<String> = Vec::new();
    assert(views(warnings@) =~= Seq::empty());
    match kind {
        TargetKind::Missing => {
            let mut message = "Path does not exist: ".to_string();
            message.push_str(target);
            return Err(message);
        },
        TargetKind::Neither => {
            let mut message = "Path is neither file nor directory: ".to_string();
            message.push_str(target);
            return Err(message);
        },
        TargetKind::File => {},
        TargetKind::Directory => {
            if files.len() == 0 {
                let mut message = "No supported files found in ".to_string();
                message.push_str(target);
                message.push_str(". Expected LOG*, *.log, *.ldb.");
                push_view(&mut warnings, message);
                assert(views(warnings@) =~= seq![
                    "No supported files found in "@ + target@
                        + ". Expected LOG*, *.log, *.ldb."@,
                ]);
            }
        },
    }
    Ok(ScanResult { target: target.to_string(), files, warnings })
}

// ---------------------------------------------------------------------------
// Files
// ---------------------------------------------------------------------------

pub open spec fn wal_operation(op: OperationView) -> WalOperationView {
    WalOperationView {
        kind: match op.kind {
            BatchOperationKind::Put => WalOperationKind::Put,
            BatchOperationKind::Delete => WalOperationKind::Delete,
        },
        key: op.key,
        value: op.value,
    }
}

/// What a logical record shows as: the batch it carries, or why it carries none.
pub open spec fn wal_batch(record: LogicalView) -> WalBatchView {
    match write_batch(record.payload) {
        Ok(batch) => WalBatchView {
            offset: record.offset,
            payload_bytes: record.payload.len(),
            fragments: record.fragments,
            checksum_ok: record.checksum_ok,
            sequence: Some(batch.sequence),
            declared_count: Some(batch.declared_count),
            trailing_bytes: batch.trailing_bytes,
            parse_error: None,
            operations: batch.operations.map_values(|op: OperationView| wal_operation(op)),
        },
        Err(e) => WalBatchView {
            offset: record.offset,
            payload_bytes: record.payload.len(),
            fragments: record.fragments,
            checksum_ok: record.checksum_ok,
            sequence: None,
            declared_count: None,
            trailing_bytes: 0,
            parse_error: Some(e),
            operations: Seq::empty(),
        },
    }
}

/// The content of the write-ahead log `data`.
pub open spec fn wal_file(path: Seq<char>, data: Seq<u8>) -> Result<WalFileView, Seq<char>> {
    let physical = physical_records(data);
    if physical.records.len() == 0 {
        Err("No valid WAL physical records were found in "@ + path + "."@)
    } else {
        let logical = logical_records(physical.records);
        Ok(
            WalFileView {
                physical_records: physical.records.len(),
                logical_records: logical.records.len(),
                warnings: physical.warnings + logical.warnings,
                batches: logical.records.map_values(|r: LogicalView| wal_batch(r)),
            },
        )
    }
}

fn wal_operations(ops: Vec<BatchOperation>) -> (r: Vec<WalOperation>)
    ensures
        views(r@) == views(ops@).map_values(|op: OperationView| wal_operation(op)),
{
    let ghost want = views(ops@).map_values(|op: OperationView| wal_operation(op));
    let mut out: Vec<WalOperation> = Vec::new();
    for i in 0..ops.len()
        invariant
            want == views(ops@).map_values(|op: OperationView| wal_operation(op)),
            views(out@) == want.take(i as int),
    {
        let op = &ops[i];
        let kind = match op.kind {
            BatchOperationKind::Put => WalOperationKind::Put,
            BatchOperationKind::Delete => WalOperationKind::Delete,
        };
        let value = match &op.value {
            Some(value) => Some(copy_bytes(value.as_slice())),
            None => None,
        };
        push_view(
            &mut out,
            WalOperation { kind, key: copy_bytes(op.key.as_slice()), value },
        );
        assert(out@.last()@ == wal_operation(op@));
        assert(views(out@) =~= want.take(i + 1));
    }
    assert(want.take(want.len() as int) =~= want);
    out
}

fn wal_batch_of(record: &WalLogicalRecord) -> (r: WalBatch)
    ensures
        r@ == wal_batch(record@),
{
    match parse_write_batch(record.payload.as_slice()) {
        Ok(batch) => WalBatch {
            offset: record.offset,
            payload_bytes: record.payload.len(),
            fragments: record.fragments,
            checksum_ok: record.checksum_ok,
            sequence: Some(batch.sequence),
            declared_count: Some(batch.declared_count),
            trailing_bytes: batch.trailing_bytes,
            parse_error: None,
            operations: wal_operations(batch.operations),
        },
        Err(e) => {
            let operations: Vec<WalOperation> = Vec::new();
            assert(views(operations@) =~= Seq::empty());
            WalBatch {
                offset: record.offset,
                payload_bytes: record.payload.len(),
                fragments: record.fragments,
                checksum_ok: record.checksum_ok,
                sequence: None,
                declared_count: None,
                trailing_bytes: 0,
                parse_error: Some(e),
                operations,
            }
        },
    }
}

/// Reads the write-ahead log `data`; `path` is the path as shown.
pub fn parse_wal_file(path: &str, data: &[u8]) -> (r: Result<WalFile, String>)
    ensures
        match r {
            Ok(file) => wal_file(path@, data@) == Ok::<WalFileView, Seq<char>>(file@),
            Err(e) => wal_file(path@, data@) == Err::<WalFileView, Seq<char>>(e@),
        },
{
    let physical = parse_wal_physical_records(data);
    if physical.records.len() == 0 {
        let mut message = "No valid WAL physical records were found in ".to_string();
        message.push_str(path);
        message.push_str(".");
        return Err(message);
    }
    let logical = assemble_wal_logical_records(physical.records.as_slice());
    let ghost records = views(logical.records@);
    let ghost want = records.map_values(|r: LogicalView| wal_batch(r));
    let mut batches: Vec<WalBatch> = Vec::new();
    for i in 0..logical.records.len()
        invariant
            records == views(logical.records@),
            want == records.map_values(|r: LogicalView| wal_batch(r)),
            views(batches@) == want.take(i as int),
    {
        push_view(&mut batches, wal_batch_of(&logical.records[i]));
        assert(views(batches@) =~= want.take(i + 1));
    }
    assert(want.take(want.len() as int) =~= want);
    assert(views(batches@).len() == batches@.len());
    let mut warnings = physical.warnings;
    append_texts(&mut warnings, &logical.warnings);
    Ok(
        WalFile {
            physical_records: physical.records.len(),
            logical_records: batches.len(),
            warnings,
            batches,
        },
    )
}

/// What has been collected from the blocks of a table.
#[verifier::ext_equal]
pub struct TableScan {
    pub warnings: Seq<Seq<char>>,
    pub entries: Seq<LdbEntryView>,
}

/// The entry of a table: the last eight bytes of its key hold the sequence
/// number and, lowest, the type of the value.
pub open spec fn ldb_entry(e: EntryView) -> LdbEntryView {
    let tag = le_at(e.key, e.key.len() - 8, 8);
    LdbEntryView {
        user_key: e.key.take(e.key.len() - 8),
        sequence: tag / 256,
        value_type: tag % 256,
        value: e.value,
    }
}

/// `scan` after the entries of data block `number`. A key that is too short to
/// hold a tag is skipped with a warning.
pub open spec fn with_entries(scan: TableScan, entries: Seq<EntryView>, number: int) -> TableScan
    decreases entries.len(),
{
    if entries.len() == 0 {
        scan
    } else {
        let before = with_entries(scan, entries.drop_last(), number);
        let e = entries.last();
        if e.key.len() < 8 {
            TableScan {
                warnings: before.warnings.push(
                    with_number(
                        with_number(
                            "Skipped short internal key ("@,
                            e.key.len(),
                            " bytes) in data block "@,
                        ),
                        number as nat,
                        "."@,
                    ),
                ),
                ..before
            }
        } else {
            TableScan { entries: before.entries.push(ldb_entry(e)), ..before }
        }
    }
}

/// `scan` after the data blocks that the index entries from `i` on point to.
pub open spec fn blocks_from(table: Seq<u8>, index: Seq<EntryView>, i: int, scan: TableScan) -> Result<
    TableScan,
    Seq<char>,
>
    decreases index.len() - i,
{
    if i < 0 || i >= index.len() {
        Ok(scan)
    } else {
        let number = (i + 1) as nat;
        match leading_handle(index[i].value) {
            Err(e) => Err(
                with_number("Failed to decode block handle in index entry "@, number, ": "@) + e,
            ),
            Ok(handle) => match table_block(table, handle) {
                Err(e) => Err(e),
                Ok((data, checksum_ok)) => match block_entries(data) {
                    Err(e) => Err(
                        with_number(
                            with_number("Failed to parse data block "@, number, " (offset "@),
                            handle.offset as nat,
                            "): "@,
                        ) + e,
                    ),
                    Ok(entries) => {
                        let warnings = if checksum_ok {
                            scan.warnings
                        } else {
                            scan.warnings.push(
                                with_number(
                                    with_number(
                                        "Data block checksum mismatch for index entry "@,
                                        number,
                                        " (offset "@,
                                    ),
                                    handle.offset as nat,
                                    ")."@,
                                ),
                            )
                        };
                        let next = TableScan { warnings, entries: scan.entries };
                        blocks_from(table, index, i + 1, with_entries(next, entries, i + 1))
                    },
                },
            },
        }
    }
}

/// The content of the table `table`.
pub open spec fn ldb_file(path: Seq<char>, table: Seq<u8>) -> Result<LdbFileView, Seq<char>> {
    if table.len() < TABLE_FOOTER_SIZE {
        Err(
            with_number(
                "LDB file "@ + path + " is too small ("@,
                table.len(),
                " bytes)."@,
            ),
        )
    } else {
        match table_footer(table) {
            Err(e) => Err(e),
            Ok((metaindex, index)) => match table_block(table, index) {
                Err(e) => Err(e),
                Ok((data, index_ok)) => match block_entries(data) {
                    Err(e) => Err(e),
                    Ok(index_entries) => {
                        let start = TableScan {
                            warnings: if index_ok {
                                Seq::empty()
                            } else {
                                seq!["Index block checksum mismatch."@]
                            },
                            entries: Seq::empty(),
                        };
                        match blocks_from(table, index_entries, 0, start) {
                            Err(e) => Err(e),
                            Ok(scan) => {
                                let file = LdbFileView {
                                    index_entries: index_entries.len(),
                                    data_blocks: index_entries.len(),
                                    warnings: scan.warnings,
                                    entries: scan.entries,
                                };
                                if metaindex.size == 0 {
                                    Ok(file)
                                } else {
                                    match table_block(table, metaindex) {
                                        Err(e) => Err(e),
                                        Ok((_, true)) => Ok(file),
                                        Ok((_, false)) => Ok(
                                            LdbFileView {
                                                warnings: scan.warnings.push(
                                                    "Metaindex block checksum mismatch."@,
                                                ),
                                                ..file
                                            },
                                        ),
                                    }
                                }
                            },
                        }
                    },
                },
            },
        }
    }
}

fn collect_entries(
    data_entries: &Vec<BlockEntry>,
    number: usize,
    warnings: &mut Vec<String>,
    entries: &mut Vec<LdbEntry>,
)
    ensures
        with_entries(
            (TableScan { warnings: views(old(warnings)@), entries: views(old(entries)@) }),
            views(data_entries@),
            number as int,
        ) == (TableScan { warnings: views(final(warnings)@), entries: views(final(entries)@) }),
{
    let ghost all = views(data_entries@);
    let ghost w = views(warnings@);
    let ghost es = views(entries@);
    for i in 0..data_entries.len()
        invariant
            all == views(data_entries@),
            with_entries(
                (TableScan { warnings: w, entries: es }),
                all.take(i as int),
                number as int,
            ) == (TableScan { warnings: views(warnings@), entries: views(entries@) }),
    {
        let entry = &data_entries[i];
        assert(all.take(i + 1).drop_last() =~= all.take(i as int));
        assert(all.take(i + 1).last() == entry@);
        let size: usize = entry.key.len();
        if size < 8 {
            let mut message = number_text(
                "Skipped short internal key (",
                size as u64,
                " bytes) in data block ",
            );
            push_number(&mut message, number as u64, ".");
            push_view(warnings, message);
        } else {
            let split: usize = size - 8;
            let tag: u64 = read_u64(entry.key.as_slice(), split);
            let user_key = byte_range(entry.key.as_slice(), 0, split);
            assert(user_key@ =~= entry@.key.take(split as int));
            push_view(
                entries,
                LdbEntry {
                    user_key,
                    sequence: tag / 256,
                    value_type: (tag % 256) as u8,
                    value: copy_bytes(entry.value.as_slice()),
                },
            );
            assert(entries@.last()@ == ldb_entry(entry@));
        }
    }
    assert(all.take(all.len() as int) =~= all);
}

/// Reads the table `table`; `path` is the path as shown.
pub fn parse_ldb_file(path: &str, table: &[u8]) -> (r: Result<LdbFile, String>)
    ensures
        match r {
            Ok(file) => ldb_file(path@, table@) == Ok::<LdbFileView, Seq<char>>(file@),
            Err(e) => ldb_file(path@, table@) == Err::<LdbFileView, Seq<char>>(e@),
        },
{
    if table.len() < TABLE_FOOTER_SIZE {
        let mut message = "LDB file ".to_string();
        message.push_str(path);
        message.push_str(" is too small (");
        push_number(&mut message, table.len() as u64, " bytes).");
        return Err(message);
    }
    let (metaindex_handle, index_handle) = match parse_table_footer(table) {
        Ok(handles) => handles,
        Err(e) => {
            return Err(e);
        },
    };
    let index_block = match read_table_block(table, index_handle) {
        Ok(block) => block,
        Err(e) => {
            return Err(e);
        },
    };
    let mut warnings: Vec<String> = Vec::new();
    assert(views(warnings@) =~= Seq::empty());
    if !index_block.checksum_ok {
        push_view(&mut warnings, "Index block checksum mismatch.".to_string());
        assert(views(warnings@) =~= seq!["Index block checksum mismatch."@]);
    }
    let index_entries = match parse_block_entries(index_block.data.as_slice()) {
        Ok(entries) => entries,
        Err(e) => {
            return Err(e);
        },
    };
    let ghost index = views(index_entries@);
    let mut entries: Vec<LdbEntry> = Vec::new();
    assert(views(entries@) =~= Seq::empty());
    let ghost start = TableScan { warnings: views(warnings@), entries: views(entries@) };
    for i in 0..index_entries.len()
        invariant
            index == views(index_entries@),
            table@.len() >= TABLE_FOOTER_SIZE,
            table_footer(table@) == Ok::<
                (crate::table::BlockHandle, crate::table::BlockHandle),
                Seq<char>,
            >((metaindex_handle, index_handle)),
            table_block(table@, index_handle) == Ok::<(Seq<u8>, bool), Seq<char>>(
                (index_block.data@, index_block.checksum_ok),
            ),
            block_entries(index_block.data@) == Ok::<Seq<EntryView>, Seq<char>>(index),
            start.entries == Seq::<LdbEntryView>::empty(),
            start.warnings == if index_block.checksum_ok {
                Seq::<Seq<char>>::empty()
            } else {
                seq!["Index block checksum mismatch."@]
            },
            blocks_from(
                table@,
                index,
                i as int,
                (TableScan { warnings: views(warnings@), entries: views(entries@) }),
            ) == blocks_from(table@, index, 0, start),
    {
        let index_entry = &index_entries[i];
        assert(index[i as int] == index_entry@);
        let handle = match decode_block_handle(index_entry.value.as_slice()) {
            Ok(handle) => handle,
            Err(e) => {
                let mut message = number_text(
                    "Failed to decode block handle in index entry ",
                    (i + 1) as u64,
                    ": ",
                );
                message.push_str(e.as_str());
                return Err(message);
            },
        };
        let block = match read_table_block(table, handle) {
            Ok(block) => block,
            Err(e) => {
                return Err(e);
            },
        };
        if !block.checksum_ok {
            let mut message = number_text(
                "Data block checksum mismatch for index entry ",
                (i + 1) as u64,
                " (offset ",
            );
            push_number(&mut message, handle.offset, ").");
            push_view(&mut warnings, message);
        }
        let data_entries = match parse_block_entries(block.data.as_slice()) {
            Ok(entries) => entries,
            Err(e) => {
                let mut message = number_text(
                    "Failed to parse data block ",
                    (i + 1) as u64,
                    " (offset ",
                );
                push_number(&mut message, handle.offset, "): ");
                message.push_str(e.as_str());
                return Err(message);
            },
        };
        collect_entries(&data_entries, i + 1, &mut warnings, &mut entries);
    }
    if metaindex_handle.size > 0 {
        match read_table_block(table, metaindex_handle) {
            Ok(block) => {
                if !block.checksum_ok {
                    push_view(&mut warnings, "Metaindex block checksum mismatch.".to_string());
                }
            },
            Err(e) => {
                return Err(e);
            },
        }
    }
    Ok(
        LdbFile {
            index_entries: index_entries.len(),
            data_blocks: index_entries.len(),
            warnings,
            entries,
        },
    )
}

/// The lines of a text log.
pub fn parse_text_log_file(data: &[u8]) -> (r: TextLogFile)
    ensures
        views(r.lines@) == lines(utf8_lossy(data@)),
{
    let text = utf8_text_lossy(data);
    TextLogFile { lines: lines_of(text.as_str()) }
}

/// The content of a file named `name` whose bytes, or why they could not be
/// read, are `data`; `path` is the path as shown.
pub open spec fn file_content(path: Seq<char>, name: Seq<char>, data: Result<Seq<u8>, Seq<char>>) -> ContentView {
    match (category(name), data) {
        (FileCategory::TextLog, Ok(bytes)) => ContentView::TextLog(lines(utf8_lossy(bytes))),
        (FileCategory::TextLog, Err(e)) => ContentView::Error(
            "Failed to read text log "@ + path + ": "@ + e,
        ),
        (FileCategory::Wal, Ok(bytes)) => match wal_file(path, bytes) {
            Ok(file) => ContentView::Wal(file),
            Err(e) => ContentView::Error(e),
        },
        (FileCategory::Wal, Err(e)) => ContentView::Error(
            "Failed to read WAL file "@ + path + ": "@ + e,
        ),
        (FileCategory::Ldb, Ok(bytes)) => match ldb_file(path, bytes) {
            Ok(file) => ContentView::Ldb(file),
            Err(e) => ContentView::Error(e),
        },
        (FileCategory::Ldb, Err(e)) => ContentView::Error(
            "Failed to read LDB file "@ + path + ": "@ + e,
        ),
        (FileCategory::Other, _) => ContentView::Error("Unsupported file type."@),
    }
}

fn read_failure(what: &str, path: &str, error: &str) -> (r: ParsedFileContent)
    ensures
        r@ == ContentView::Error(what@ + path@ + ": "@ + error@),
{
    let mut message = what.to_string();
    message.push_str(path);
    message.push_str(": ");
    message.push_str(error);
    ParsedFileContent::Error(message)
}

/// Parses a file by what its name says it is.
pub fn parse_file(path: String, name: &str, data: Result<Vec<u8>, String>) -> (r: ParsedFile)
    ensures
        r.path@ == path@,
        r.content@ == file_content(
            path@,
            name@,
            match data {
                Ok(bytes) => Ok(bytes@),
                Err(e) => Err(e@),
            },
        ),
{
    let content = match classify_file(name) {
        FileCategory::TextLog => match data {
            Ok(bytes) => ParsedFileContent::TextLog(parse_text_log_file(bytes.as_slice())),
            Err(e) => read_failure("Failed to read text log ", path.as_str(), e.as_str()),
        },
        FileCategory::Wal => match data {
            Ok(bytes) => match parse_wal_file(path.as_str(), bytes.as_slice()) {
                Ok(file) => ParsedFileContent::Wal(file),
                Err(e) => ParsedFileContent::Error(e),
            },
            Err(e) => read_failure("Failed to read WAL file ", path.as_str(), e.as_str()),
        },
        FileCategory::Ldb => match data {
            Ok(bytes) => match parse_ldb_file(path.as_str(), bytes.as_slice()) {
                Ok(file) => ParsedFileContent::Ldb(file),
                Err(e) => ParsedFileContent::Error(e),
            },
            Err(e) => read_failure("Failed to read LDB file ", path.as_str(), e.as_str()),
        },
        FileCategory::Other => ParsedFileContent::Error("Unsupported file type.".to_string()),
    };
    ParsedFile { path, content }
}

// ---------------------------------------------------------------------------
// Showing bytes
// ---------------------------------------------------------------------------

/// Only line breaks and tabs among the control characters.
pub open spec fn displayable(s: Seq<char>) -> bool {
    forall|i: int|
        0 <= i < s.len() ==> #[trigger] s[i] == '\n' || s[i] == '\r' || s[i] == '\t' || !is_control(
            s[i],
        )
}

pub fn is_displayable_text(value: &str) -> (r: bool)
    ensures
        r == displayable(value@),
{
    let chars = chars_of(value);
    for i in 0..chars.len()
        invariant
            chars@ == value@,
            displayable(chars@.take(i as int)),
    {
        let ch = chars[i];
        if !(ch == '\n' || ch == '\r' || ch == '\t' || !char_is_control(ch)) {
            assert(!displayable(value@));
            return false;
        }
        assert(chars@.take(i + 1) =~= chars@.take(i as int).push(ch));
    }
    assert(chars@.take(chars@.len() as int) =~= chars@);
    true
}

/// `s` with a backslash and a letter in place of each line break and tab.
pub open spec fn escaped(s: Seq<char>) -> Seq<char>
    decreases s.len(),
{
    if s.len() == 0 {
        Seq::empty()
    } else {
        let c = s.last();
        escaped(s.drop_last()) + if c == '\n' {
            seq!['\\', 'n']
        } else if c == '\r' {
            seq!['\\', 'r']
        } else if c == '\t' {
            seq!['\\', 't']
        } else {
            seq![c]
        }
    }
}

pub fn escape_text(value: &str) -> (r: String)
    ensures
        r@ == escaped(value@),
{
    let chars = chars_of(value);
    let mut out = String::new();
    for i in 0..chars.len()
        invariant
            chars@ == value@,
            out@ == escaped(chars@.take(i as int)),
    {
        let ghost before = out@;
        assert(chars@.take(i + 1).drop_last() =~= chars@.take(i as int));
        let ch = chars[i];
        if ch == '\n' {
            out.push('\\');
            out.push('n');
        } else if ch == '\r' {
            out.push('\\');
            out.push('r');
        } else if ch == '\t' {
            out.push('\\');
            out.push('t');
        } else {
            out.push(ch);
        }
        assert(out@ =~= escaped(chars@.take(i + 1)));
    }
    assert(chars@.take(chars@.len() as int) =~= chars@);
    out
}

/// A displayable text has no control characters once it is escaped.
pub proof fn law_escaped_has_no_control(s: Seq<char>)
    requires
        displayable(s),
    ensures
        forall|i: int| 0 <= i < escaped(s).len() ==> !is_control(#[trigger] escaped(s)[i]),
    decreases s.len(),
{
    if s.len() > 0 {
        let before = s.drop_last();
        assert forall|i: int| 0 <= i < before.len() implies #[trigger] before[i] == '\n'
            || before[i] == '\r' || before[i] == '\t' || !is_control(before[i]) by {
            assert(before[i] == s[i]);
        }
        law_escaped_has_no_control(before);
        assert(s[s.len() - 1] == s.last());
        let e = escaped(before);
        assert forall|i: int| 0 <= i < escaped(s).len() implies !is_control(
            #[trigger] escaped(s)[i],
        ) by {
            if i < e.len() {
                assert(escaped(s)[i] == e[i]);
            }
        }
    }
}

/// The first `max` characters of `s`, or all where there are fewer.
pub open spec fn at_most(s: Seq<char>, max: nat) -> Seq<char> {
    if s.len() > max {
        s.take(max as int)
    } else {
        s
    }
}

/// The first `max_chars` characters of `input`, and whether there are more.
pub fn truncate_chars(input: &str, max_chars: usize) -> (r: (String, bool))
    ensures
        r.0@ == at_most(input@, max_chars as nat),
        r.1 == (input@.len() > max_chars),
{
    let chars = chars_of(input);
    if chars.len() > max_chars {
        (string_of(head(chars.as_slice(), max_chars)), true)
    } else {
        (string_of(chars.as_slice()), false)
    }
}

/// Two hexadecimal digits for each byte.
pub open spec fn hex_digits(s: Seq<u8>) -> Seq<char>
    decreases s.len(),
{
    if s.len() == 0 {
        Seq::empty()
    } else {
        hex_digits(s.drop_last()) + hex(s.last() as nat, 2)
    }
}

/// How many bytes a preview of at most `max` characters shows: one at least.
pub open spec fn preview_bytes(len: nat, max: nat) -> nat {
    let room = if max / 2 == 0 {
        1
    } else {
        max / 2
    };
    if len < room {
        len
    } else {
        room
    }
}

pub open spec fn hex_preview(data: Seq<u8>, max: nat) -> Seq<char> {
    let shown = preview_bytes(data.len(), max);
    "0x"@ + hex_digits(data.take(shown as int)) + if shown < data.len() {
        "... ("@
    } else {
        " ("@
    } + decimal(data.len()) + " bytes)"@
}

pub fn format_hex_preview(data: &[u8], max_chars: usize) -> (r: String)
    ensures
        r@ == hex_preview(data@, max_chars as nat),
{
    let room: usize = if max_chars / 2 == 0 {
        1
    } else {
        max_chars / 2
    };
    let shown: usize = if data.len() < room {
        data.len()
    } else {
        room
    };
    let mut out = "0x".to_string();
    let ghost part = data@.take(shown as int);
    assert("0x"@ + hex_digits(part.take(0)) =~= "0x"@);
    for i in 0..shown
        invariant
            shown <= data@.len(),
            part == data@.take(shown as int),
            out@ == "0x"@ + hex_digits(part.take(i as int)),
    {
        push_hex(&mut out, data[i] as u64, 2);
        assert(part.take(i + 1).drop_last() =~= part.take(i as int));
        assert(out@ =~= "0x"@ + hex_digits(part.take(i + 1)));
    }
    assert(part.take(shown as int) =~= part);
    if shown < data.len() {
        out.push_str("... (");
    } else {
        out.push_str(" (");
    }
    push_decimal(&mut out, data.len() as u64);
    out.push_str(" bytes)");
    out
}

/// How bytes are shown: as quoted text where they are displayable text and hex
/// is not asked for, else in hexadecimal, cut to about `max` characters.
pub open spec fn shown_bytes(data: Seq<u8>, max: nat, force_hex: bool) -> Seq<char> {
    if !force_hex && valid_utf8(data) && displayable(decode_utf8(data)) {
        let text = escaped(decode_utf8(data));
        if text.len() > max {
            "\""@ + text.take(max as int) + "\"... ("@ + decimal(data.len()) + " bytes)"@
        } else {
            "\""@ + text + "\""@
        }
    } else {
        hex_preview(data, max)
    }
}

pub fn format_bytes_for_ui(data: &[u8], max_chars: usize, force_hex: bool) -> (r: String)
    ensures
        r@ == shown_bytes(data@, max_chars as nat, force_hex),
{
    if !force_hex {
        if let Some(text) = utf8_text(data) {
            if is_displayable_text(text.as_str()) {
                let whole = escape_text(text.as_str());
                let (preview, truncated) = truncate_chars(whole.as_str(), max_chars);
                let mut out = "\"".to_string();
                out.push_str(preview.as_str());
                if truncated {
                    out.push_str("\"... (");
                    push_decimal(&mut out, data.len() as u64);
                    out.push_str(" bytes)");
                } else {
                    out.push_str("\"");
                }
                return out;
            }
        }
    }
    format_hex_preview(data, max_chars)
}

} // verus!
