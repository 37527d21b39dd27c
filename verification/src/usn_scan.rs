//! Reading a journal and the file table of a drive, buffer by buffer.

use vstd::prelude::*;

use crate::minecraft_accounts::counted_up;
use crate::order::{in_order, increasing, OrderedMap, TextSet};
use crate::text::{
    chars_of, is_text, is_text_ignoring_case, lower, same_ignoring_case, starts_with, string_of, to_lower, trim,
    trim_chars, CharClass,
};
use crate::time::Timestamp;
use crate::usn_journal::{
    classify_drive_error, error_kind, error_message, system_code, win32_error_code, DriveAction,
    DriveScanError, DriveScanOutput, UsnEvent, UsnEventView, MAX_EVENTS_PER_CATEGORY,
};
use crate::usn_records::{
    describe_reason, frn_base, is_usn_log, looks_like_minecraft_trace, next_marker,
    parse_usn_buffer, reason_word, reference_base, signed, usn_name, usn_records, ParsedUsnRecord,
    UsnRecordView, DIRECTORY_ATTRIBUTE, WATCHED_REASONS,
};
use crate::views::{push_view, views};

verus! {

pub const MAX_RECORDS_PER_DRIVE: usize = 1_000_000;

pub const RECENT_USN_WINDOW: i64 = 2 * 1024 * 1024 * 1024;

pub const MAX_JOURNAL_READS: usize = 2048;

pub const MAX_MFT_ENUM_GUARD: usize = 8192;

// ---------------------------------------------------------------------------
// The journal
// ---------------------------------------------------------------------------

/// A record on a log of the game.
#[derive(Debug, Clone)]
pub struct RawUsnEvent {
    pub parent_file_reference_number: u64,
    pub timestamp_utc: Timestamp,
    pub reason: String,
    pub file_name: String,
}

#[verifier::ext_equal]
pub struct RawEventView {
    pub parent_file_reference_number: u64,
    pub timestamp_utc: Timestamp,
    pub reason: Seq<char>,
    pub file_name: Seq<char>,
}

impl View for RawUsnEvent {
    type V = RawEventView;

    open spec fn view(&self) -> RawEventView {
        RawEventView {
            parent_file_reference_number: self.parent_file_reference_number,
            timestamp_utc: self.timestamp_utc,
            reason: self.reason@,
            file_name: self.file_name@,
        }
    }
}

/// How far a journal has been read, and what was found.
#[derive(Debug)]
pub struct JournalScan {
    pub start: i64,
    pub end: i64,
    pub reads: usize,
    pub records_scanned: usize,
    pub oldest: Option<Timestamp>,
    pub newest: Option<Timestamp>,
    pub matched: Vec<RawUsnEvent>,
}

#[verifier::ext_equal]
pub struct JournalView {
    pub start: int,
    pub end: int,
    pub reads: nat,
    pub records_scanned: nat,
    pub oldest: Option<Timestamp>,
    pub newest: Option<Timestamp>,
    pub matched: Seq<RawEventView>,
}

impl View for JournalScan {
    type V = JournalView;

    open spec fn view(&self) -> JournalView {
        JournalView {
            start: self.start as int,
            end: self.end as int,
            reads: self.reads as nat,
            records_scanned: self.records_scanned as nat,
            oldest: self.oldest,
            newest: self.newest,
            matched: views(self.matched@),
        }
    }
}

/// Where reading starts in a journal that reaches from `first` to `end`: at its
/// first entry, or nearer to its end where it is long.
pub open spec fn journal_start(first: int, end: int) -> int {
    if end - first > RECENT_USN_WINDOW {
        end - RECENT_USN_WINDOW
    } else {
        first
    }
}

/// There is more to read.
pub open spec fn wants_more(s: JournalView) -> bool {
    s.start < s.end && s.records_scanned < MAX_RECORDS_PER_DRIVE && s.reads < MAX_JOURNAL_READS
}

/// A record that is looked at: one of the watched things happened.
pub open spec fn is_watched(r: UsnRecordView) -> bool {
    r.reason & WATCHED_REASONS != 0
}

/// The scan after a record was counted.
pub open spec fn counted(s: JournalView, r: UsnRecordView) -> JournalView {
    JournalView {
        records_scanned: counted_up(s.records_scanned),
        oldest: Some(
            match s.oldest {
                Some(time) => time.spec_earlier(r.timestamp_utc),
                None => r.timestamp_utc,
            },
        ),
        newest: Some(
            match s.newest {
                Some(time) => time.spec_later(r.timestamp_utc),
                None => r.timestamp_utc,
            },
        ),
        ..s
    }
}

/// The scan after a watched record was looked at: one on a log of the game is kept.
pub open spec fn looked_at(s: JournalView, r: UsnRecordView) -> JournalView {
    if is_usn_log(usn_name(lower(r.file_name))) {
        JournalView {
            matched: s.matched.push(
                RawEventView {
                    parent_file_reference_number: reference_base(r.parent_file_reference_number),
                    timestamp_utc: r.timestamp_utc,
                    reason: reason_word(r.reason),
                    file_name: r.file_name,
                },
            ),
            ..s
        }
    } else {
        s
    }
}

/// The scan after the records from `i` on. It stops behind a watched record at
/// which the limit of records is reached.
pub open spec fn with_records(s: JournalView, records: Seq<UsnRecordView>, i: int) -> JournalView
    decreases records.len() - i,
{
    if i < 0 || i >= records.len() {
        s
    } else {
        let c = counted(s, records[i]);
        if !is_watched(records[i]) {
            with_records(c, records, i + 1)
        } else {
            let l = looked_at(c, records[i]);
            if l.records_scanned >= MAX_RECORDS_PER_DRIVE {
                l
            } else {
                with_records(l, records, i + 1)
            }
        }
    }
}

/// The scan after a buffer was read, and whether to go on. A buffer that holds
/// no more than the number at its start ends the scan, and so does one that
/// does not lead further.
pub open spec fn with_buffer(s: JournalView, buffer: Seq<u8>) -> (JournalView, bool) {
    let read = JournalView { reads: s.reads + 1, ..s };
    if buffer.len() <= 8 {
        (read, false)
    } else {
        let found = with_records(read, usn_records(buffer), 0);
        let next = signed(next_marker(buffer));
        if next <= s.start {
            (found, false)
        } else {
            (JournalView { start: next, ..found }, true)
        }
    }
}

/// `v` read as a signed number.
pub fn to_signed(v: u64) -> (r: i64)
    ensures
        r as int == signed(v as nat),
{
    if v < 0x8000_0000_0000_0000 {
        v as i64
    } else {
        -((u64::MAX - v) as i64) - 1
    }
}

impl JournalScan {
    /// A scan of the journal that reaches from `first_usn` to `next_usn`.
    pub fn new(first_usn: i64, next_usn: i64) -> (r: JournalScan)
        ensures
            r@ == (JournalView {
                start: journal_start(first_usn as int, next_usn as int),
                end: next_usn as int,
                reads: 0,
                records_scanned: 0,
                oldest: None,
                newest: None,
                matched: Seq::empty(),
            }),
    {
        let length: i128 = next_usn as i128 - first_usn as i128;
        let start: i64 = if length > RECENT_USN_WINDOW as i128 {
            next_usn - RECENT_USN_WINDOW
        } else {
            first_usn
        };
        let r = JournalScan {
            start,
            end: next_usn,
            reads: 0,
            records_scanned: 0,
            oldest: None,
            newest: None,
            matched: Vec::new(),
        };
        assert(views(r.matched@) =~= Seq::empty());
        r
    }

    /// Where to read next, if at all.
    pub fn next_read(&self) -> (r: Option<i64>)
        ensures
            r == if wants_more(self@) {
                Some(self.start)
            } else {
                None
            },
    {
        if self.start < self.end && self.records_scanned < MAX_RECORDS_PER_DRIVE && self.reads
            < MAX_JOURNAL_READS {
            Some(self.start)
        } else {
            None
        }
    }

    fn count(&mut self, record: &ParsedUsnRecord)
        ensures
            final(self)@ == counted(old(self)@, record@),
    {
        self.records_scanned = self.records_scanned.saturating_add(1);
        self.oldest = Some(
            match self.oldest {
                Some(time) => time.earlier(record.timestamp_utc),
                None => record.timestamp_utc,
            },
        );
        self.newest = Some(
            match self.newest {
                Some(time) => time.later(record.timestamp_utc),
                None => record.timestamp_utc,
            },
        );
    }

    fn look_at(&mut self, record: &ParsedUsnRecord)
        ensures
            final(self)@ == looked_at(old(self)@, record@),
    {
        let name = to_lower(record.file_name.as_str());
        if looks_like_minecraft_trace(name.as_str()) {
            let event = RawUsnEvent {
                parent_file_reference_number: frn_base(record.parent_file_reference_number),
                timestamp_utc: record.timestamp_utc,
                reason: describe_reason(record.reason).to_string(),
                file_name: record.file_name.clone(),
            };
            push_view(&mut self.matched, event);
        }
    }

    /// Takes in what a read put in the buffer; gives whether to go on.
    pub fn add_buffer(&mut self, buffer: &[u8]) -> (r: bool)
        requires
            wants_more(old(self)@),
        ensures
            (final(self)@, r) == with_buffer(old(self)@, buffer@),
    {
        self.reads = self.reads + 1;
        if buffer.len() <= 8 {
            return false;
        }
        let (marker, records) = parse_usn_buffer(buffer);
        let ghost all = views(records@);
        let ghost begun = self@;
        let mut i: usize = 0;
        let mut full = false;
        while i < records.len() && !full
            invariant
                i <= records@.len(),
                all == views(records@),
                self.start == old(self).start,
                self.end == old(self).end,
                self.reads == begun.reads,
                full ==> self@ == with_records(begun, all, 0),
                !full ==> with_records(self@, all, i as int) == with_records(begun, all, 0),
            decreases records@.len() - i,
        {
            let record = &records[i];
            assert(all[i as int] == record@);
            self.count(record);
            if record.reason & WATCHED_REASONS != 0 {
                self.look_at(record);
                if self.records_scanned >= MAX_RECORDS_PER_DRIVE {
                    full = true;
                }
            }
            i = i + 1;
        }
        let next: i64 = to_signed(marker);
        if next <= self.start {
            return false;
        }
        self.start = next;
        true
    }

    /// The directories of the logs that were found, each once and none of them zero.
    pub fn needed_parents(&self) -> (r: OrderedMap<u64, bool>)
        ensures
            forall|n: u64| #[trigger]
                r@.dom().contains(n) <==> n != 0 && is_parent_of_some(self@.matched, n),
    {
        let ghost all = views(self.matched@);
        let mut out: OrderedMap<u64, bool> = OrderedMap::new();
        for i in 0..self.matched.len()
            invariant
                all == views(self.matched@),
                forall|n: u64| #[trigger]
                    out@.dom().contains(n) <==> n != 0 && is_parent_of_some(
                        all.take(i as int),
                        n,
                    ),
        {
            let n: u64 = self.matched[i].parent_file_reference_number;
            let ghost part = all.take(i as int);
            assert(all[i as int].parent_file_reference_number == n);
            assert(all.take(i + 1) =~= part.push(all[i as int]));
            assert forall|m: u64| #[trigger] is_parent_of_some(all.take(i + 1), m) <==> m == n
                || is_parent_of_some(part, m) by {
                if is_parent_of_some(part, m) {
                    let j = choose|j: int|
                        0 <= j < part.len() && (#[trigger] part[j]).parent_file_reference_number
                            == m;
                    assert(all.take(i + 1)[j].parent_file_reference_number == m);
                }
                if is_parent_of_some(all.take(i + 1), m) && m != n {
                    let j = choose|j: int|
                        0 <= j < i + 1 && (#[trigger] all.take(
                            i + 1,
                        )[j]).parent_file_reference_number == m;
                    assert(part[j].parent_file_reference_number == m);
                }
                assert(all.take(i + 1)[i as int].parent_file_reference_number == n);
            }
            let ghost before = out@;
            if n != 0 {
                out.insert(n, true);
            }
            assert forall|m: u64| #[trigger] out@.dom().contains(m) <==> m != 0
                && is_parent_of_some(all.take(i + 1), m) by {
                assert(out@.dom().contains(m) <==> (m == n && n != 0) || before.dom().contains(m));
            }
        }
        assert(all.take(all.len() as int) =~= all);
        out
    }
}

/// Some of `events` lies in the directory `n`.
pub open spec fn is_parent_of_some(events: Seq<RawEventView>, n: u64) -> bool {
    exists|i: int|
        0 <= i < events.len() && (#[trigger] events[i]).parent_file_reference_number == n
}

/// Reading moves forward: a scan that goes on starts later than before.
pub proof fn law_scan_advances(s: JournalView, buffer: Seq<u8>)
    requires
        with_buffer(s, buffer).1,
    ensures
        s.start < with_buffer(s, buffer).0.start,
        with_buffer(s, buffer).0.reads == s.reads + 1,
        with_buffer(s, buffer).0.end == s.end,
{
    lemma_records_keep(JournalView { reads: s.reads + 1, ..s }, usn_records(buffer), 0);
}

proof fn lemma_records_keep(s: JournalView, records: Seq<UsnRecordView>, i: int)
    ensures
        with_records(s, records, i).start == s.start,
        with_records(s, records, i).end == s.end,
        with_records(s, records, i).reads == s.reads,
    decreases records.len() - i,
{
    if 0 <= i < records.len() {
        let c = counted(s, records[i]);
        lemma_records_keep(c, records, i + 1);
        lemma_records_keep(looked_at(c, records[i]), records, i + 1);
    }
}

// ---------------------------------------------------------------------------
// The file table
// ---------------------------------------------------------------------------

/// A file or directory of the file table.
#[derive(Debug, Clone)]
pub struct MftNode {
    pub file_reference_number: u64,
    pub parent_file_reference_number: u64,
    pub name: String,
}

#[verifier::ext_equal]
pub struct NodeView {
    pub file_reference_number: u64,
    pub parent_file_reference_number: u64,
    pub name: Seq<char>,
}

impl View for MftNode {
    type V = NodeView;

    open spec fn view(&self) -> NodeView {
        NodeView {
            file_reference_number: self.file_reference_number,
            parent_file_reference_number: self.parent_file_reference_number,
            name: self.name@,
        }
    }
}

pub type MftNodes = OrderedMap<u64, MftNode>;

/// How far the file table has been read, the nodes found, and those still
/// wanted.
#[derive(Debug)]
pub struct MftScan {
    pub nodes: MftNodes,
    pub pending: OrderedMap<u64, bool>,
    pub start: u64,
    pub reads: usize,
}

#[verifier::ext_equal]
pub struct MftView {
    pub nodes: Map<u64, NodeView>,
    pub pending: Set<u64>,
    pub start: nat,
    pub reads: nat,
}

impl View for MftScan {
    type V = MftView;

    open spec fn view(&self) -> MftView {
        MftView {
            nodes: self.nodes@,
            pending: self.pending@.dom(),
            start: self.start as nat,
            reads: self.reads as nat,
        }
    }
}

/// The record is kept as a node: a directory, a wanted one, or part of the path
/// of the journal itself.
pub open spec fn is_kept_node(m: MftView, r: UsnRecordView) -> bool {
    ||| r.file_attributes & DIRECTORY_ATTRIBUTE == DIRECTORY_ATTRIBUTE
    ||| m.pending.contains(reference_base(r.file_reference_number))
    ||| same_ignoring_case(r.file_name, "$extend"@)
    ||| same_ignoring_case(r.file_name, "$usnjrnl"@)
}

/// The scan after one record. The first record of a node counts; once a wanted
/// node is found its parent is wanted, unless it is known.
pub open spec fn with_node(m: MftView, r: UsnRecordView) -> MftView {
    let key = reference_base(r.file_reference_number);
    let parent = reference_base(r.parent_file_reference_number);
    let nodes = if is_kept_node(m, r) && !m.nodes.dom().contains(key) {
        m.nodes.insert(
            key,
            NodeView {
                file_reference_number: r.file_reference_number,
                parent_file_reference_number: parent,
                name: r.file_name,
            },
        )
    } else {
        m.nodes
    };
    let pending = if !m.pending.contains(key) {
        m.pending
    } else if parent != 0 && parent != key && !nodes.dom().contains(parent) {
        m.pending.remove(key).insert(parent)
    } else {
        m.pending.remove(key)
    };
    MftView { nodes, pending, ..m }
}

pub open spec fn with_nodes(m: MftView, records: Seq<UsnRecordView>) -> MftView
    decreases records.len(),
{
    if records.len() == 0 {
        m
    } else {
        with_node(with_nodes(m, records.drop_last()), records.last())
    }
}

/// A node that was found stays as it was found.
pub proof fn law_nodes_stay(m: MftView, records: Seq<UsnRecordView>, key: u64)
    requires
        m.nodes.dom().contains(key),
    ensures
        with_nodes(m, records).nodes.dom().contains(key),
        with_nodes(m, records).nodes[key] == m.nodes[key],
    decreases records.len(),
{
    if records.len() > 0 {
        law_nodes_stay(m, records.drop_last(), key);
    }
}

/// A node that is wanted when its record comes is known from then on.
pub proof fn law_wanted_nodes_found(m: MftView, records: Seq<UsnRecordView>, i: int)
    requires
        0 <= i < records.len(),
        with_nodes(m, records.take(i)).pending.contains(
            reference_base(records[i].file_reference_number),
        ),
    ensures
        with_nodes(m, records).nodes.dom().contains(
            reference_base(records[i].file_reference_number),
        ),
    decreases records.len(),
{
    let before = records.drop_last();
    if i < before.len() {
        assert(before.take(i) =~= records.take(i));
        law_wanted_nodes_found(m, before, i);
    } else {
        assert(records.take(i) =~= before);
    }
}

/// The first of `keys` whose node is called `name`, in any case, and lies in
/// `parent` where one is given.
pub open spec fn first_named(
    nodes: Map<u64, NodeView>,
    keys: Seq<u64>,
    name: Seq<char>,
    parent: Option<u64>,
) -> Option<u64>
    decreases keys.len(),
{
    if keys.len() == 0 {
        None
    } else {
        let n = nodes[keys[0]];
        if same_ignoring_case(n.name, name) && (parent is None || n.parent_file_reference_number
            == parent->0) {
            Some(keys[0])
        } else {
            first_named(nodes, keys.skip(1), name, parent)
        }
    }
}

/// The reference number of the journal itself: the node `$UsnJrnl`, in `$Extend`
/// where that is known.
pub open spec fn journal_number(nodes: Map<u64, NodeView>) -> Option<u64> {
    let keys = in_order::<u64>(nodes.dom());
    let extend = first_named(nodes, keys, "$extend"@, None);
    match first_named(nodes, keys, "$usnjrnl"@, extend) {
        Some(key) => Some(nodes[key].file_reference_number),
        None => None,
    }
}

fn find_named(keys: &Vec<u64>, values: &Vec<MftNode>, name: &str, parent: Option<u64>, Ghost(nodes): Ghost<Map<u64, NodeView>>) -> (r:
    Option<usize>)
    requires
        keys@.len() == values@.len(),
        forall|i: int| 0 <= i < keys@.len() ==> #[trigger] values@[i]@ == nodes[keys@[i]],
    ensures
        match r {
            Some(i) => i < keys@.len() && first_named(nodes, keys@, name@, parent) == Some(
                keys@[i as int],
            ),
            None => first_named(nodes, keys@, name@, parent) is None,
        },
{
    assert(keys@.skip(0) =~= keys@);
    for i in 0..keys.len()
        invariant
            keys@.len() == values@.len(),
            forall|i: int| 0 <= i < keys@.len() ==> #[trigger] values@[i]@ == nodes[keys@[i]],
            first_named(nodes, keys@.skip(i as int), name@, parent) == first_named(
                nodes,
                keys@,
                name@,
                parent,
            ),
    {
        assert(values@[i as int]@ == nodes[keys@[i as int]]);
        assert(keys@.skip(i as int)[0] == keys@[i as int]);
        assert(keys@.skip(i as int).skip(1) =~= keys@.skip(i + 1));
        let chars = chars_of(values[i].name.as_str());
        if is_text_ignoring_case(chars.as_slice(), name) {
            let fits = match parent {
                Some(number) => values[i].parent_file_reference_number == number,
                None => true,
            };
            if fits {
                return Some(i);
            }
        }
    }
    None
}

pub fn locate_usn_journal_frn(nodes: &MftNodes) -> (r: Option<u64>)
    ensures
        r == journal_number(nodes@),
        increasing::<u64>(in_order::<u64>(nodes@.dom())),
        in_order::<u64>(nodes@.dom()).to_set() == nodes@.dom(),
{
    let (keys, values) = nodes.as_lists();
    let ghost map = nodes@;
    proof {
        assert(views(keys@) =~= keys@);
        assert forall|i: int| 0 <= i < keys@.len() implies #[trigger] values@[i]@
            == map[keys@[i]] by {
            assert(views(values@)[i] == values@[i]@);
            assert(views(values@)[i] == map[views(keys@)[i]]);
        }
        assert(views(values@).len() == values@.len());
    }
    let extend = match find_named(keys, values, "$extend", None, Ghost(map)) {
        Some(i) => Some(keys[i]),
        None => None,
    };
    match find_named(keys, values, "$usnjrnl", extend, Ghost(map)) {
        Some(i) => {
            assert(values@[i as int]@ == map[keys@[i as int]]);
            Some(values[i].file_reference_number)
        },
        None => None,
    }
}

/// The scan after a buffer was read, and whether to go on. It ends once all
/// wanted nodes and the journal itself were found.
pub open spec fn with_table_buffer(m: MftView, buffer: Seq<u8>) -> (MftView, bool) {
    let read = MftView { reads: m.reads + 1, ..m };
    if buffer.len() <= 8 {
        (read, false)
    } else {
        let found = with_nodes(read, usn_records(buffer));
        let next = next_marker(buffer);
        if next <= m.start {
            (found, false)
        } else {
            (
                MftView { start: next, ..found },
                !(found.pending == Set::<u64>::empty() && journal_number(found.nodes) is Some),
            )
        }
    }
}

impl MftScan {
    /// A scan for the nodes `needed` and those above them.
    pub fn new(needed: OrderedMap<u64, bool>) -> (r: MftScan)
        ensures
            r@ == (MftView {
                nodes: Map::empty(),
                pending: needed@.dom(),
                start: 0,
                reads: 0,
            }),
    {
        MftScan { nodes: OrderedMap::new(), pending: needed, start: 0, reads: 0 }
    }

    /// Where to read next, if at all.
    pub fn next_read(&self) -> (r: Option<u64>)
        ensures
            r == if self.reads < MAX_MFT_ENUM_GUARD {
                Some(self.start)
            } else {
                None
            },
    {
        if self.reads < MAX_MFT_ENUM_GUARD {
            Some(self.start)
        } else {
            None
        }
    }

    fn add_node(&mut self, record: &ParsedUsnRecord)
        ensures
            final(self)@ == with_node(old(self)@, record@),
    {
        let key: u64 = frn_base(record.file_reference_number);
        let parent: u64 = frn_base(record.parent_file_reference_number);
        let chars = chars_of(record.file_name.as_str());
        let wanted = self.pending.get(&key).is_some();
        let keep = record.file_attributes & DIRECTORY_ATTRIBUTE == DIRECTORY_ATTRIBUTE || wanted
            || is_text_ignoring_case(chars.as_slice(), "$extend") || is_text_ignoring_case(
            chars.as_slice(),
            "$usnjrnl",
        );
        assert(keep == is_kept_node(old(self)@, record@));
        if keep && self.nodes.get(&key).is_none() {
            self.nodes.insert(
                key,
                MftNode {
                    file_reference_number: record.file_reference_number,
                    parent_file_reference_number: parent,
                    name: record.file_name.clone(),
                },
            );
        }
        if wanted {
            self.pending.remove(&key);
            assert(self.pending@.dom() =~= old(self)@.pending.remove(key));
            if parent != 0 && parent != key && self.nodes.get(&parent).is_none() {
                self.pending.insert(parent, true);
                assert(self.pending@.dom() =~= old(self)@.pending.remove(key).insert(parent));
            }
        }
    }

    /// Takes in what a read put in the buffer; gives whether to go on.
    pub fn add_buffer(&mut self, buffer: &[u8]) -> (r: bool)
        requires
            old(self).reads < MAX_MFT_ENUM_GUARD,
        ensures
            (final(self)@, r) == with_table_buffer(old(self)@, buffer@),
    {
        self.reads = self.reads + 1;
        if buffer.len() <= 8 {
            return false;
        }
        let (marker, records) = parse_usn_buffer(buffer);
        let ghost all = views(records@);
        let ghost begun = self@;
        for i in 0..records.len()
            invariant
                all == views(records@),
                self.start == begun.start,
                self@ == with_nodes(begun, all.take(i as int)),
        {
            assert(all.take(i + 1).drop_last() =~= all.take(i as int));
            assert(all.take(i + 1).last() == records@[i as int]@);
            self.add_node(&records[i]);
        }
        assert(all.take(all.len() as int) =~= all);
        if marker <= self.start {
            return false;
        }
        self.start = marker;
        let done = self.pending.is_empty() && locate_usn_journal_frn(&self.nodes).is_some();
        proof {
            let m = self.pending@;
            if m.dom() == Set::<u64>::empty() {
                assert(m =~= Map::<u64, bool>::empty());
            }
        }
        !done
    }

    /// What a failed read means: the end of the table, or all there is where some
    /// of it was read, or an error.
    pub fn read_failed(&self, hr: u32, text: &str) -> (r: Option<DriveScanError>)
        ensures
            ({
                let code = system_code(hr);
                let fails = code != 38 && code != 259 && self@.nodes == Map::<
                    u64,
                    NodeView,
                >::empty();
                &&& r is Some == fails
                &&& fails ==> r->0.kind == error_kind(DriveAction::EnumerateFiles, code)
                    && r->0.message@ == error_message(DriveAction::EnumerateFiles, code, text@)
            }),
    {
        let code: u32 = win32_error_code(hr);
        if code == 38 || code == 259 || !self.nodes.is_empty() {
            None
        } else {
            Some(classify_drive_error(DriveAction::EnumerateFiles, hr, text))
        }
    }
}

// ---------------------------------------------------------------------------
// Events
// ---------------------------------------------------------------------------

/// The names from `current` upwards, at most `fuel` of them. A node without a
/// name, or called like the root, ends the way up.
pub open spec fn climb(nodes: Map<u64, NodeView>, current: u64, fuel: nat) -> Seq<Seq<char>>
    decreases fuel,
{
    if fuel == 0 || !nodes.dom().contains(current) {
        Seq::empty()
    } else {
        let node = nodes[current];
        let name = trim(node.name, CharClass::Space);
        let parent = node.parent_file_reference_number;
        if name.len() == 0 || name == "\\"@ {
            Seq::empty()
        } else if parent == 0 || parent == current {
            seq![name]
        } else {
            seq![name] + climb(nodes, parent, (fuel - 1) as nat)
        }
    }
}

/// The path of the directory whose names from inside out are `names`.
pub open spec fn path_below(drive: Seq<char>, names: Seq<Seq<char>>) -> Seq<char>
    decreases names.len(),
{
    if names.len() == 0 {
        drive
    } else {
        path_below(drive, names.skip(1)) + seq!['\\'] + names[0]
    }
}

/// The path of the directory with the number `parent`; none where it is not known.
pub open spec fn parent_path(drive: Seq<char>, parent: u64, nodes: Map<u64, NodeView>) -> Option<
    Seq<char>,
> {
    let names = climb(nodes, parent, 256);
    if parent == 0 {
        Some(drive)
    } else if names.len() == 0 {
        None
    } else {
        Some(path_below(drive, names))
    }
}

proof fn lemma_path_below(drive: Seq<char>, names: Seq<Seq<char>>)
    ensures
        starts_with(path_below(drive, names), drive),
    decreases names.len(),
{
    if names.len() > 0 {
        lemma_path_below(drive, names.skip(1));
        let inner = path_below(drive, names.skip(1));
        let whole = path_below(drive, names);
        assert(whole.subrange(0, drive.len() as int) =~= inner.subrange(0, drive.len() as int));
    } else {
        assert(drive.subrange(0, drive.len() as int) =~= drive);
    }
}

/// The path of every event lies on its drive.
pub proof fn law_event_on_drive(drive: Seq<char>, e: RawEventView, nodes: Map<u64, NodeView>)
    ensures
        starts_with(event_path(drive, e, nodes), drive),
{
    let names = climb(nodes, e.parent_file_reference_number, 256);
    lemma_path_below(drive, names);
    let path = event_path(drive, e, nodes);
    assert(drive.subrange(0, drive.len() as int) =~= drive);
    let parent = match parent_path(drive, e.parent_file_reference_number, nodes) {
        Some(p) => p,
        None => drive,
    };
    assert(starts_with(parent, drive));
    assert(path.subrange(0, drive.len() as int) =~= parent.subrange(0, drive.len() as int));
}

/// The name of a node as it stands in paths.
pub open spec fn node_name(nodes: Map<u64, NodeView>, number: u64) -> Seq<char> {
    trim(nodes[number].name, CharClass::Space)
}

/// The number is that of a known node that has a name, other than the root's.
pub open spec fn is_named(nodes: Map<u64, NodeView>, number: u64) -> bool {
    &&& nodes.dom().contains(number)
    &&& node_name(nodes, number).len() > 0
    &&& node_name(nodes, number) != "\\"@
}

/// Each node of `chain` is named and lies in the next one, and the last one lies
/// in the root: in a node that is not named, in none, or in itself. A chain of
/// 256 nodes need not end there.
pub open spec fn is_chain(nodes: Map<u64, NodeView>, chain: Seq<u64>) -> bool {
    &&& 1 <= chain.len() <= 256
    &&& forall|i: int| 0 <= i < chain.len() ==> is_named(nodes, #[trigger] chain[i])
    &&& forall|i: int|
        0 <= i < chain.len() - 1 ==> nodes[#[trigger] chain[i]].parent_file_reference_number
            == chain[i + 1] && chain[i + 1] != 0 && chain[i + 1] != chain[i]
    &&& chain.len() == 256 || {
        let top = nodes[chain.last()].parent_file_reference_number;
        top == 0 || top == chain.last() || !is_named(nodes, top)
    }
}

/// The names of a chain from the outermost to the innermost.
pub open spec fn names_from_outside(nodes: Map<u64, NodeView>, chain: Seq<u64>) -> Seq<Seq<char>> {
    Seq::new(chain.len(), |i: int| node_name(nodes, chain[chain.len() - 1 - i]))
}

/// `drive`, and each of `names` behind a backslash.
pub open spec fn path_along(drive: Seq<char>, names: Seq<Seq<char>>) -> Seq<char>
    decreases names.len(),
{
    if names.len() == 0 {
        drive
    } else {
        path_along(drive, names.drop_last()) + "\\"@ + names.last()
    }
}

/// The names of a chain from the innermost to the outermost.
spec fn names_from_inside(nodes: Map<u64, NodeView>, chain: Seq<u64>) -> Seq<Seq<char>> {
    chain.map_values(|n: u64| node_name(nodes, n))
}

proof fn lemma_climb_chain(nodes: Map<u64, NodeView>, chain: Seq<u64>, fuel: nat)
    requires
        1 <= chain.len() <= fuel,
        forall|i: int| 0 <= i < chain.len() ==> is_named(nodes, #[trigger] chain[i]),
        forall|i: int|
            0 <= i < chain.len() - 1 ==> nodes[#[trigger] chain[i]].parent_file_reference_number
                == chain[i + 1] && chain[i + 1] != 0 && chain[i + 1] != chain[i],
        chain.len() == fuel || ({
            let top = nodes[chain.last()].parent_file_reference_number;
            top == 0 || top == chain.last() || !is_named(nodes, top)
        }),
    ensures
        climb(nodes, chain[0], fuel) == names_from_inside(nodes, chain),
    decreases chain.len(),
{
    let names = names_from_inside(nodes, chain);
    let own = node_name(nodes, chain[0]);
    let parent = nodes[chain[0]].parent_file_reference_number;
    assert(is_named(nodes, chain[0]));
    if chain.len() == 1 {
        assert(chain.last() == chain[0]);
        assert(names =~= seq![own]);
        assert(seq![own] + Seq::<Seq<char>>::empty() =~= seq![own]);
        if parent != 0 && parent != chain[0] {
            assert(climb(nodes, parent, (fuel - 1) as nat) =~= Seq::empty());
        }
    } else {
        let rest = chain.skip(1);
        assert(parent == chain[1]);
        assert forall|i: int| 0 <= i < rest.len() implies is_named(nodes, #[trigger] rest[i]) by {
            assert(rest[i] == chain[i + 1]);
        }
        assert forall|i: int|
            0 <= i < rest.len() - 1 implies nodes[#[trigger] rest[i]].parent_file_reference_number
            == rest[i + 1] && rest[i + 1] != 0 && rest[i + 1] != rest[i] by {
            assert(rest[i] == chain[i + 1]);
            assert(rest[i + 1] == chain[i + 2]);
        }
        assert(rest.last() == chain.last());
        lemma_climb_chain(nodes, rest, (fuel - 1) as nat);
        assert(names =~= seq![own] + names_from_inside(nodes, rest));
    }
}

proof fn lemma_path_turned(drive: Seq<char>, inside: Seq<Seq<char>>, outside: Seq<Seq<char>>)
    requires
        inside.len() == outside.len(),
        forall|i: int|
            0 <= i < inside.len() ==> #[trigger] outside[i] == inside[inside.len() - 1 - i],
    ensures
        path_below(drive, inside) == path_along(drive, outside),
    decreases inside.len(),
{
    if inside.len() > 0 {
        let a = inside.skip(1);
        let b = outside.drop_last();
        assert forall|i: int| 0 <= i < a.len() implies #[trigger] b[i] == a[a.len() - 1 - i] by {
            assert(b[i] == outside[i]);
        }
        lemma_path_turned(drive, a, b);
        assert(outside[outside.len() - 1] == inside[0]);
        reveal_strlit("\\");
        assert("\\"@ =~= seq!['\\']);
    }
}

/// The path of a directory is the drive and the names of all directories on the
/// way to it from the root, each behind a backslash. It is that of the directory
/// that it lies in, a backslash and its own name.
pub proof fn law_path_names_all(drive: Seq<char>, nodes: Map<u64, NodeView>, chain: Seq<u64>)
    requires
        is_chain(nodes, chain),
        chain[0] != 0,
    ensures
        parent_path(drive, chain[0], nodes) == Some(
            path_along(drive, names_from_outside(nodes, chain)),
        ),
        1 < chain.len() < 256 ==> parent_path(drive, chain[0], nodes) == Some(
            parent_path(drive, chain[1], nodes)->0 + "\\"@ + node_name(nodes, chain[0]),
        ),
{
    lemma_climb_chain(nodes, chain, 256);
    let names = names_from_inside(nodes, chain);
    lemma_path_turned(drive, names, names_from_outside(nodes, chain));
    assert(names.len() == chain.len());
    if 1 < chain.len() < 256 {
        let rest = chain.skip(1);
        assert forall|i: int| 0 <= i < rest.len() implies is_named(nodes, #[trigger] rest[i]) by {
            assert(rest[i] == chain[i + 1]);
        }
        assert forall|i: int|
            0 <= i < rest.len() - 1 implies nodes[#[trigger] rest[i]].parent_file_reference_number
            == rest[i + 1] && rest[i + 1] != 0 && rest[i + 1] != rest[i] by {
            assert(rest[i] == chain[i + 1]);
            assert(rest[i + 1] == chain[i + 2]);
        }
        assert(rest.last() == chain.last());
        lemma_climb_chain(nodes, rest, 256);
        assert(names.skip(1) =~= names_from_inside(nodes, rest));
        assert(chain[0] == chain[0] && chain[1] != 0);
        reveal_strlit("\\");
        assert("\\"@ =~= seq!['\\']);
    }
}

/// The path of an event is that of the directory of its file, a backslash and the
/// name of the file. Where nothing is known of the directory the file is shown
/// right below the drive, and so is one in the directory without a number.
pub proof fn law_event_path(
    drive: Seq<char>,
    e: RawEventView,
    nodes: Map<u64, NodeView>,
    chain: Seq<u64>,
)
    ensures
        is_chain(nodes, chain) && chain[0] != 0 && chain[0] == e.parent_file_reference_number
            ==> event_path(drive, e, nodes) == path_along(
            drive,
            names_from_outside(nodes, chain).push(e.file_name),
        ),
        !is_named(nodes, e.parent_file_reference_number) || e.parent_file_reference_number == 0
            ==> event_path(drive, e, nodes) == drive + "\\"@ + e.file_name,
{
    if is_chain(nodes, chain) && chain[0] != 0 && chain[0] == e.parent_file_reference_number {
        law_path_names_all(drive, nodes, chain);
        let names = names_from_outside(nodes, chain);
        assert(names.push(e.file_name).drop_last() =~= names);
    }
}

pub fn resolve_parent_path(drive: &str, parent_file_reference_number: u64, nodes: &MftNodes) -> (r:
    Option<String>)
    ensures
        match r {
            Some(path) => parent_path(drive@, parent_file_reference_number, nodes@) == Some(path@),
            None => parent_path(drive@, parent_file_reference_number, nodes@) is None,
        },
{
    if parent_file_reference_number == 0 {
        return Some(drive.to_string());
    }
    let mut current: u64 = parent_file_reference_number;
    let mut names: Vec<String> = Vec::new();
    let mut guard: usize = 0;
    let mut done = false;
    let ghost all = climb(nodes@, parent_file_reference_number, 256);
    assert(views(names@) + climb(nodes@, current, 256) =~= all);
    while guard < 256 && !done
        invariant
            guard <= 256,
            done ==> views(names@) == all,
            !done ==> views(names@) + climb(nodes@, current, (256 - guard) as nat) == all,
        decreases 256 - guard,
    {
        let ghost rest = climb(nodes@, current, (256 - guard) as nat);
        guard = guard + 1;
        match nodes.get(&current) {
            None => {
                done = true;
                assert(views(names@) + rest =~= views(names@));
            },
            Some(node) => {
                let chars = chars_of(node.name.as_str());
                let name = trim_chars(chars.as_slice(), CharClass::Space);
                if name.len() == 0 || is_text(name, "\\") {
                    done = true;
                    assert(views(names@) + rest =~= views(names@));
                } else {
                    let ghost before = views(names@);
                    let ghost own = name@;
                    push_view(&mut names, string_of(name));
                    if node.parent_file_reference_number == 0 || node.parent_file_reference_number
                        == current {
                        done = true;
                        assert(before + rest =~= before.push(own));
                    } else {
                        assert(before + rest =~= before.push(own) + climb(
                            nodes@,
                            node.parent_file_reference_number,
                            (256 - guard) as nat,
                        ));
                        current = node.parent_file_reference_number;
                    }
                }
            },
        }
    }
    assert(views(names@) + Seq::empty() =~= views(names@));
    assert(views(names@) == all);
    assert(all.len() == names@.len());
    if names.len() == 0 {
        return None;
    }
    let mut path = drive.to_string();
    let mut i: usize = names.len();
    assert(all.skip(i as int) =~= Seq::empty());
    while i > 0
        invariant
            i <= names@.len(),
            all == views(names@),
            path@ == path_below(drive@, all.skip(i as int)),
        decreases i,
    {
        assert(all.skip(i - 1).skip(1) =~= all.skip(i as int));
        assert(all.skip(i - 1)[0] == names@[i - 1]@);
        path.push('\\');
        path.push_str(names[i - 1].as_str());
        assert(path@ =~= path_below(drive@, all.skip(i - 1)));
        i = i - 1;
    }
    assert(all.skip(0) =~= all);
    Some(path)
}

/// The path of the file of an event.
pub open spec fn event_path(drive: Seq<char>, e: RawEventView, nodes: Map<u64, NodeView>) -> Seq<
    char,
> {
    match parent_path(drive, e.parent_file_reference_number, nodes) {
        Some(parent) => parent + "\\"@ + e.file_name,
        None => drive + "\\"@ + e.file_name,
    }
}

/// What tells an event apart from others: its path in lower case, what happened
/// and when.
pub open spec fn event_key(path: Seq<char>, reason: Seq<char>, time: Seq<char>) -> Seq<char> {
    lower(path) + "|"@ + reason + "|"@ + time
}

/// The events so far and the keys of all that were looked at.
#[verifier::ext_equal]
pub struct EventList {
    pub events: Seq<UsnEventView>,
    pub seen: Set<Seq<char>>,
}

/// The list after one more event, shown with the time `time`. A repeated event
/// does not count, nor does any once the list is full.
pub open spec fn with_event(
    l: EventList,
    drive: Seq<char>,
    e: RawEventView,
    time: Seq<char>,
    nodes: Map<u64, NodeView>,
) -> EventList {
    let path = event_path(drive, e, nodes);
    let key = event_key(path, e.reason, time);
    if l.events.len() >= MAX_EVENTS_PER_CATEGORY || l.seen.contains(key) {
        l
    } else {
        EventList {
            events: l.events.push(
                UsnEventView { drive, path, reason: e.reason, timestamp_utc: time },
            ),
            seen: l.seen.insert(key),
        }
    }
}

/// The list of the first `n` events.
pub open spec fn event_list(
    drive: Seq<char>,
    events: Seq<RawEventView>,
    times: Seq<Seq<char>>,
    nodes: Map<u64, NodeView>,
    n: nat,
) -> EventList
    decreases n,
{
    if n == 0 {
        EventList { events: Seq::empty(), seen: Set::empty() }
    } else {
        with_event(
            event_list(drive, events, times, nodes, (n - 1) as nat),
            drive,
            events[n - 1],
            times[n - 1],
            nodes,
        )
    }
}

/// The events of a drive with their paths; `times` are their times as shown.
pub fn journal_events(
    drive: &str,
    matched: &Vec<RawUsnEvent>,
    times: &Vec<String>,
    nodes: &MftNodes,
) -> (r: Vec<UsnEvent>)
    requires
        matched@.len() == times@.len(),
    ensures
        views(r@) == event_list(
            drive@,
            views(matched@),
            views(times@),
            nodes@,
            matched@.len(),
        ).events,
        r@.len() <= MAX_EVENTS_PER_CATEGORY,
{
    let ghost all = views(matched@);
    let ghost stamps = views(times@);
    let mut events: Vec<UsnEvent> = Vec::new();
    let mut seen = TextSet::new();
    assert(views(events@) =~= Seq::empty());
    for i in 0..matched.len()
        invariant
            all == views(matched@),
            stamps == views(times@),
            matched@.len() == times@.len(),
            events@.len() <= MAX_EVENTS_PER_CATEGORY,
            event_list(drive@, all, stamps, nodes@, i as nat) == (EventList {
                events: views(events@),
                seen: seen@,
            }),
    {
        assert(views(events@).len() == events@.len());
        let event = &matched[i];
        assert(all[i as int] == event@);
        assert(stamps[i as int] == times@[i as int]@);
        if events.len() < MAX_EVENTS_PER_CATEGORY {
            let mut path = match resolve_parent_path(
                drive,
                event.parent_file_reference_number,
                nodes,
            ) {
                Some(parent) => parent,
                None => drive.to_string(),
            };
            path.push_str("\\");
            path.push_str(event.file_name.as_str());
            assert(path@ == event_path(drive@, event@, nodes@));
            let mut key = to_lower(path.as_str());
            key.push_str("|");
            key.push_str(event.reason.as_str());
            key.push_str("|");
            key.push_str(times[i].as_str());
            if seen.insert(key) {
                push_view(
                    &mut events,
                    UsnEvent {
                        drive: drive.to_string(),
                        path,
                        reason: event.reason.clone(),
                        timestamp_utc: times[i].clone(),
                    },
                );
            } else {
                assert(seen@ =~= event_list(drive@, all, stamps, nodes@, i as nat).seen);
            }
        }
    }
    events
}

/// The warning that the file table of a drive could not be read.
pub fn index_warning(drive: &str, error: &DriveScanError) -> (r: String)
    ensures
        r@ == "USN "@ + drive@ + ": MFT index unavailable ("@ + trim(
            error.message@,
            CharClass::Space,
        ) + ")"@,
{
    let chars = chars_of(error.message.as_str());
    let reason = string_of(trim_chars(chars.as_slice(), CharClass::Space));
    let mut out = "USN ".to_string();
    out.push_str(drive);
    out.push_str(": MFT index unavailable (");
    out.push_str(reason.as_str());
    out.push_str(")");
    out
}

/// What was found on a drive. `first` is the time of the first entry of the
/// journal, which is older than any that was scanned.
pub fn drive_output(
    scan: JournalScan,
    first: Option<Timestamp>,
    last_deletion: Option<Timestamp>,
    minecraft_events: Vec<UsnEvent>,
    warnings: Vec<String>,
) -> (r: DriveScanOutput)
    ensures
        r.records_scanned == scan.records_scanned,
        r.oldest == match first {
            Some(time) => Some(time),
            None => scan.oldest,
        },
        r.newest == scan.newest,
        r.last_deletion == last_deletion,
        r.minecraft_events == minecraft_events,
        r.discord_events@.len() == 0,
        r.warnings == warnings,
{
    let oldest = match first {
        Some(time) => Some(time),
        None => scan.oldest,
    };
    DriveScanOutput {
        records_scanned: scan.records_scanned,
        oldest,
        newest: scan.newest,
        last_deletion,
        minecraft_events,
        discord_events: Vec::new(),
        warnings,
    }
}

} // verus!
