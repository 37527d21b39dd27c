//! Which parts of a Discord directory are looked at, and the accounts found.

use vstd::prelude::*;

use crate::discord_accounts::{
    extract_discord_accounts_from_bytes, extract_discord_accounts_from_text, grown, id_key,
    keyed_by_id, law_bytes_grow, lemma_grown_transitive, with_bytes, with_text,
    DiscordCandidateView, DiscordCandidates,
};
use crate::discord_text::{
    discord_payload_looks_owner_related, is_discord_leveldb_file, is_discord_owner_store_key,
    is_leveldb_name, names_owner_store,
};
use crate::minecraft_accounts::{failure, failure_text};
use crate::order::{
    char_codes, in_order, listed, lists, precedes, OrderedKey, OrderedMap, TextPair,
};
use crate::paths::file_name;
use crate::profiles::{add_account, by_profile, ProfileAccounts};
use crate::std_text::utf8_lossy;
use crate::text::{lower, same_text, to_lower};
use crate::viewer::{
    ContentView, LdbEntryView, LdbFile, ParsedFile, ParsedFileContent, ParsedFileView, ScanResult,
    ScanResultView, WalBatchView, WalFile, WalOperation, WalOperationView,
};
use crate::views::{opt_view, push_view, views};

verus! {

pub const MAX_DISCORD_FILE_BYTES: u64 = 8 * 1024 * 1024;

pub const MAX_DISCORD_CONTEXT_FILE_BYTES: u64 = 64 * 1024 * 1024;

// ---------------------------------------------------------------------------
// Files
// ---------------------------------------------------------------------------

/// A key of a store of the owner's accounts.
pub open spec fn is_owner_key(key: Seq<u8>) -> bool {
    names_owner_store(lower(utf8_lossy(key)))
}

/// The candidates after an entry was seen: its key and its value, where the key
/// is that of a store of the owner's accounts.
pub open spec fn with_entry(
    map: Map<Seq<char>, DiscordCandidateView>,
    now: int,
    key: Seq<u8>,
    value: Option<Seq<u8>>,
    source: Seq<char>,
) -> Map<Seq<char>, DiscordCandidateView> {
    if is_owner_key(key) {
        let a = with_bytes(map, now, key, source);
        match value {
            Some(bytes) => with_bytes(a, now, bytes, source),
            None => a,
        }
    } else {
        map
    }
}

fn add_entry(map: &mut DiscordCandidates, key: &Vec<u8>, value: Option<&Vec<u8>>, source: &str)
    ensures
        final(map)@ == with_entry(
            old(map)@,
            old(map).now(),
            key@,
            match value {
                Some(v) => Some(v@),
                None => None,
            },
            source@,
        ),
        final(map).now() == old(map).now(),
{
    if is_discord_owner_store_key(key.as_slice()) {
        extract_discord_accounts_from_bytes(key.as_slice(), source, map);
        if let Some(bytes) = value {
            extract_discord_accounts_from_bytes(bytes.as_slice(), source, map);
        }
    }
}

/// The candidates after the entries of a table were seen.
pub open spec fn with_table(
    map: Map<Seq<char>, DiscordCandidateView>,
    now: int,
    entries: Seq<LdbEntryView>,
    source: Seq<char>,
) -> Map<Seq<char>, DiscordCandidateView>
    decreases entries.len(),
{
    if entries.len() == 0 {
        map
    } else {
        let e = entries.last();
        with_entry(
            with_table(map, now, entries.drop_last(), source),
            now,
            e.user_key,
            Some(e.value),
            source,
        )
    }
}

fn add_table(map: &mut DiscordCandidates, file: &LdbFile, source: &str)
    ensures
        final(map)@ == with_table(old(map)@, old(map).now(), file@.entries, source@),
        final(map).now() == old(map).now(),
{
    let ghost all = views(file.entries@);
    let ghost start = map@;
    let ghost now = map.now();
    for i in 0..file.entries.len()
        invariant
            all == views(file.entries@),
            map.now() == now,
            map@ == with_table(start, now, all.take(i as int), source@),
    {
        assert(all.take(i + 1).drop_last() =~= all.take(i as int));
        assert(all.take(i + 1).last() == file.entries@[i as int]@);
        add_entry(map, &file.entries[i].user_key, Some(&file.entries[i].value), source);
    }
    assert(all.take(all.len() as int) =~= all);
}

/// The candidates after the operations of a batch were seen.
pub open spec fn with_operations(
    map: Map<Seq<char>, DiscordCandidateView>,
    now: int,
    operations: Seq<WalOperationView>,
    source: Seq<char>,
) -> Map<Seq<char>, DiscordCandidateView>
    decreases operations.len(),
{
    if operations.len() == 0 {
        map
    } else {
        let op = operations.last();
        with_entry(
            with_operations(map, now, operations.drop_last(), source),
            now,
            op.key,
            op.value,
            source,
        )
    }
}

fn add_operations(map: &mut DiscordCandidates, operations: &Vec<WalOperation>, source: &str)
    ensures
        final(map)@ == with_operations(old(map)@, old(map).now(), views(operations@), source@),
        final(map).now() == old(map).now(),
{
    let ghost all = views(operations@);
    let ghost start = map@;
    let ghost now = map.now();
    for i in 0..operations.len()
        invariant
            all == views(operations@),
            map.now() == now,
            map@ == with_operations(start, now, all.take(i as int), source@),
    {
        assert(all.take(i + 1).drop_last() =~= all.take(i as int));
        assert(all.take(i + 1).last() == operations@[i as int]@);
        match &operations[i].value {
            Some(value) => {
                add_entry(map, &operations[i].key, Some(value), source);
            },
            None => {
                add_entry(map, &operations[i].key, None, source);
            },
        }
    }
    assert(all.take(all.len() as int) =~= all);
}

/// The candidates after the batches of a write-ahead log were seen.
pub open spec fn with_batches(
    map: Map<Seq<char>, DiscordCandidateView>,
    now: int,
    batches: Seq<WalBatchView>,
    source: Seq<char>,
) -> Map<Seq<char>, DiscordCandidateView>
    decreases batches.len(),
{
    if batches.len() == 0 {
        map
    } else {
        with_operations(
            with_batches(map, now, batches.drop_last(), source),
            now,
            batches.last().operations,
            source,
        )
    }
}

fn add_batches(map: &mut DiscordCandidates, file: &WalFile, source: &str)
    ensures
        final(map)@ == with_batches(old(map)@, old(map).now(), file@.batches, source@),
        final(map).now() == old(map).now(),
{
    let ghost all = views(file.batches@);
    let ghost start = map@;
    let ghost now = map.now();
    for i in 0..file.batches.len()
        invariant
            all == views(file.batches@),
            map.now() == now,
            map@ == with_batches(start, now, all.take(i as int), source@),
    {
        assert(all.take(i + 1).drop_last() =~= all.take(i as int));
        assert(all.take(i + 1).last() == file.batches@[i as int]@);
        add_operations(map, &file.batches[i].operations, source);
    }
    assert(all.take(all.len() as int) =~= all);
}

/// `lines` with a line feed between each two.
pub open spec fn joined_lines(lines: Seq<Seq<char>>) -> Seq<char>
    decreases lines.len(),
{
    if lines.len() == 0 {
        Seq::empty()
    } else if lines.len() == 1 {
        lines[0]
    } else {
        joined_lines(lines.drop_last()) + "\n"@ + lines.last()
    }
}

pub fn join_lines(lines: &Vec<String>) -> (r: String)
    ensures
        r@ == joined_lines(views(lines@)),
{
    let ghost all = views(lines@);
    let mut out = String::new();
    assert(out@ =~= Seq::empty());
    for i in 0..lines.len()
        invariant
            all == views(lines@),
            out@ == joined_lines(all.take(i as int)),
    {
        assert(all.take(i + 1).drop_last() =~= all.take(i as int));
        assert(all.take(i + 1).last() == lines@[i as int]@);
        if i > 0 {
            out.push_str("\n");
        }
        out.push_str(lines[i].as_str());
        if i == 0 {
            assert(out@ =~= lines@[0]@);
        }
    }
    assert(all.take(all.len() as int) =~= all);
    out
}

/// What a scan has found, and what it complained of.
#[verifier::ext_equal]
pub struct Findings {
    pub candidates: Map<Seq<char>, DiscordCandidateView>,
    pub files: nat,
    pub warnings: Seq<Seq<char>>,
}

/// The findings after one file of a LevelDB directory. A file that is neither a
/// table nor a numbered log does not count.
pub open spec fn with_file(f: Findings, now: int, file: ParsedFileView) -> Findings {
    if !is_leveldb_name(lower(file_name(file.path))) {
        f
    } else {
        let counted = Findings { files: f.files + 1, ..f };
        match file.content {
            ContentView::Ldb(table) => Findings {
                candidates: with_table(f.candidates, now, table.entries, file.path),
                ..counted
            },
            ContentView::Wal(wal) => Findings {
                candidates: with_batches(f.candidates, now, wal.batches, file.path),
                ..counted
            },
            ContentView::TextLog(lines) => Findings {
                candidates: with_text(f.candidates, now, joined_lines(lines), file.path),
                ..counted
            },
            ContentView::Error(error) => Findings {
                warnings: f.warnings.push(failure("Discord parse error in "@, file.path, error)),
                ..counted
            },
        }
    }
}

pub open spec fn with_files(f: Findings, now: int, files: Seq<ParsedFileView>) -> Findings
    decreases files.len(),
{
    if files.len() == 0 {
        f
    } else {
        with_file(with_files(f, now, files.drop_last()), now, files.last())
    }
}

/// A warning of the directory `dir`.
pub open spec fn directory_warning(dir: Seq<char>, warning: Seq<char>) -> Seq<char> {
    "Discord LevelDB warning ("@ + dir + "): "@ + warning
}

/// The findings after the parsed files of the LevelDB directory `dir`, or after
/// it could not be parsed.
pub open spec fn with_directory(f: Findings, now: int, dir: Seq<char>, scan: Result<ScanResultView, Seq<char>>) -> Findings {
    match scan {
        Ok(result) => {
            let g = with_files(f, now, result.files);
            Findings {
                warnings: g.warnings + result.warnings.map_values(
                    |w: Seq<char>| directory_warning(dir, w),
                ),
                ..g
            }
        },
        Err(error) => Findings {
            warnings: f.warnings.push(failure("Discord LevelDB parse failed for "@, dir, error)),
            ..f
        },
    }
}

fn add_file(map: &mut DiscordCandidates, file: &ParsedFile, warnings: &mut Vec<String>) -> (r: bool)
    ensures
        final(map).now() == old(map).now(),
        r == is_leveldb_name(lower(file_name(file.path@))),
        forall|files: nat|
            #[trigger] with_file(
                (Findings { candidates: old(map)@, files, warnings: views(old(warnings)@) }),
                old(map).now(),
                file@,
            ) == (Findings {
                candidates: final(map)@,
                files: if r {
                    files + 1
                } else {
                    files
                },
                warnings: views(final(warnings)@),
            }),
{
    if !is_discord_leveldb_file(file.path.as_str()) {
        return false;
    }
    let source = file.path.as_str();
    match &file.content {
        ParsedFileContent::Ldb(table) => {
            add_table(map, table, source);
        },
        ParsedFileContent::Wal(wal) => {
            add_batches(map, wal, source);
        },
        ParsedFileContent::TextLog(log) => {
            let text = join_lines(&log.lines);
            extract_discord_accounts_from_text(text.as_str(), source, map);
        },
        ParsedFileContent::Error(error) => {
            push_view(warnings, failure_text("Discord parse error in ", source, error.as_str()));
        },
    }
    true
}

/// Looks through the parsed files of the LevelDB directory `dir`; gives how
/// many of them counted.
pub fn scan_single_discord_leveldb_dir(
    dir: &str,
    scan: &Result<ScanResult, String>,
    map: &mut DiscordCandidates,
    warnings: &mut Vec<String>,
) -> (r: usize)
    ensures
        final(map).now() == old(map).now(),
        with_directory(
            (Findings { candidates: old(map)@, files: 0, warnings: views(old(warnings)@) }),
            old(map).now(),
            dir@,
            match scan {
                Ok(result) => Ok(result@),
                Err(e) => Err(e@),
            },
        ) == (Findings {
            candidates: final(map)@,
            files: r as nat,
            warnings: views(final(warnings)@),
        }),
{
    let ghost now = map.now();
    let mut counted: usize = 0;
    match scan {
        Ok(result) => {
            let ghost start = Findings {
                candidates: map@,
                files: 0,
                warnings: views(warnings@),
            };
            let ghost all = views(result.files@);
            for i in 0..result.files.len()
                invariant
                    all == views(result.files@),
                    map.now() == now,
                    counted <= i,
                    with_files(start, now, all.take(i as int)) == (Findings {
                        candidates: map@,
                        files: counted as nat,
                        warnings: views(warnings@),
                    }),
            {
                assert(all.take(i + 1).drop_last() =~= all.take(i as int));
                assert(all.take(i + 1).last() == result.files@[i as int]@);
                let ghost before = Findings {
                    candidates: map@,
                    files: counted as nat,
                    warnings: views(warnings@),
                };
                let counts = add_file(map, &result.files[i], warnings);
                assert(with_files(start, now, all.take(i + 1)) == with_file(
                    before,
                    now,
                    result.files@[i as int]@,
                ));
                if counts {
                    counted = counted + 1;
                }
            }
            assert(all.take(all.len() as int) =~= all);
            let ghost had = views(warnings@);
            let ghost complaints = views(result.warnings@).map_values(
                |w: Seq<char>| directory_warning(dir@, w),
            );
            assert(had + complaints.take(0) =~= had);
            for i in 0..result.warnings.len()
                invariant
                    complaints == views(result.warnings@).map_values(
                        |w: Seq<char>| directory_warning(dir@, w),
                    ),
                    views(warnings@) == had + complaints.take(i as int),
            {
                let mut message = "Discord LevelDB warning (".to_string();
                message.push_str(dir);
                message.push_str("): ");
                message.push_str(result.warnings[i].as_str());
                push_view(warnings, message);
                assert(complaints[i as int] == message@);
                assert(views(warnings@) =~= had + complaints.take(i + 1));
            }
            assert(complaints.take(complaints.len() as int) =~= complaints);
        },
        Err(error) => {
            push_view(
                warnings,
                failure_text("Discord LevelDB parse failed for ", dir, error.as_str()),
            );
        },
    }
    counted
}

/// A file that is searched as it is: not empty and not too large.
pub fn is_raw_discord_file_size(size: u64) -> (r: bool)
    ensures
        r == (0 < size <= MAX_DISCORD_FILE_BYTES),
{
    size != 0 && size <= MAX_DISCORD_FILE_BYTES
}

/// A browser's file that is searched: not empty and not too large.
pub fn is_context_file_size(size: u64) -> (r: bool)
    ensures
        r == (0 < size <= MAX_DISCORD_CONTEXT_FILE_BYTES),
{
    size != 0 && size <= MAX_DISCORD_CONTEXT_FILE_BYTES
}

/// Searches the bytes of a file that could not be parsed, where they name a
/// store of the owner's accounts; gives whether they do.
pub fn scan_raw_discord_file(path: &str, bytes: &[u8], map: &mut DiscordCandidates) -> (r: bool)
    ensures
        r == is_owner_key(bytes@),
        final(map)@ == if r {
            with_bytes(old(map)@, old(map).now(), bytes@, path@)
        } else {
            old(map)@
        },
        final(map).now() == old(map).now(),
{
    if !discord_payload_looks_owner_related(bytes) {
        return false;
    }
    extract_discord_accounts_from_bytes(bytes, path, map);
    true
}

proof fn lemma_entry_grows(
    map: Map<Seq<char>, DiscordCandidateView>,
    now: int,
    key: Seq<u8>,
    value: Option<Seq<u8>>,
    source: Seq<char>,
)
    ensures
        grown(map, with_entry(map, now, key, value, source)),
{
    let a = with_bytes(map, now, key, source);
    law_bytes_grow(map, now, key, Seq::empty(), source);
    if let Some(bytes) = value {
        law_bytes_grow(a, now, bytes, Seq::empty(), source);
        lemma_grown_transitive(map, a, with_bytes(a, now, bytes, source));
    }
}

proof fn lemma_table_grows(
    map: Map<Seq<char>, DiscordCandidateView>,
    now: int,
    entries: Seq<LdbEntryView>,
    source: Seq<char>,
)
    ensures
        grown(map, with_table(map, now, entries, source)),
    decreases entries.len(),
{
    if entries.len() > 0 {
        lemma_table_grows(map, now, entries.drop_last(), source);
        let before = with_table(map, now, entries.drop_last(), source);
        let e = entries.last();
        lemma_entry_grows(before, now, e.user_key, Some(e.value), source);
        lemma_grown_transitive(map, before, with_table(map, now, entries, source));
    }
}

proof fn lemma_operations_grow(
    map: Map<Seq<char>, DiscordCandidateView>,
    now: int,
    operations: Seq<WalOperationView>,
    source: Seq<char>,
)
    ensures
        grown(map, with_operations(map, now, operations, source)),
    decreases operations.len(),
{
    if operations.len() > 0 {
        lemma_operations_grow(map, now, operations.drop_last(), source);
        let before = with_operations(map, now, operations.drop_last(), source);
        let op = operations.last();
        lemma_entry_grows(before, now, op.key, op.value, source);
        lemma_grown_transitive(map, before, with_operations(map, now, operations, source));
    }
}

proof fn lemma_batches_grow(
    map: Map<Seq<char>, DiscordCandidateView>,
    now: int,
    batches: Seq<WalBatchView>,
    source: Seq<char>,
)
    ensures
        grown(map, with_batches(map, now, batches, source)),
    decreases batches.len(),
{
    if batches.len() > 0 {
        lemma_batches_grow(map, now, batches.drop_last(), source);
        let before = with_batches(map, now, batches.drop_last(), source);
        lemma_operations_grow(before, now, batches.last().operations, source);
        lemma_grown_transitive(map, before, with_batches(map, now, batches, source));
    }
}

proof fn lemma_files_grow(f: Findings, now: int, files: Seq<ParsedFileView>)
    ensures
        grown(f.candidates, with_files(f, now, files).candidates),
    decreases files.len(),
{
    if files.len() > 0 {
        lemma_files_grow(f, now, files.drop_last());
        let before = with_files(f, now, files.drop_last());
        let file = files.last();
        match file.content {
            ContentView::Ldb(table) => {
                lemma_table_grows(before.candidates, now, table.entries, file.path);
            },
            ContentView::Wal(wal) => {
                lemma_batches_grow(before.candidates, now, wal.batches, file.path);
            },
            ContentView::TextLog(lines) => {
                law_bytes_grow(
                    before.candidates,
                    now,
                    Seq::empty(),
                    joined_lines(lines),
                    file.path,
                );
            },
            ContentView::Error(_) => {},
        }
        lemma_grown_transitive(
            f.candidates,
            before.candidates,
            with_files(f, now, files).candidates,
        );
    }
}

/// A directory takes no candidate away, and nothing known of one.
pub proof fn law_directory_grows(f: Findings, now: int, dir: Seq<char>, scan: Result<ScanResultView, Seq<char>>)
    ensures
        grown(f.candidates, with_directory(f, now, dir, scan).candidates),
{
    if let Ok(result) = scan {
        lemma_files_grow(f, now, result.files);
    }
}

// ---------------------------------------------------------------------------
// Accounts
// ---------------------------------------------------------------------------

#[derive(Debug, Clone)]
pub struct DiscordAlt {
    pub username: String,
    pub id: Option<String>,
    pub sources: Vec<String>,
}

#[verifier::ext_equal]
pub struct DiscordAltView {
    pub username: Seq<char>,
    pub id: Option<Seq<char>>,
    pub sources: Seq<Seq<char>>,
}

impl View for DiscordAlt {
    type V = DiscordAltView;

    open spec fn view(&self) -> DiscordAltView {
        DiscordAltView {
            username: self.username@,
            id: opt_view(self.id),
            sources: views(self.sources@),
        }
    }
}

/// What an account is listed as: its name, or its id where no name is known.
pub open spec fn shown_name(c: DiscordCandidateView) -> Seq<char> {
    if c.username == "unknown"@ {
        id_key(c.id->0)
    } else {
        c.username
    }
}

pub open spec fn discord_alt(c: DiscordCandidateView) -> DiscordAltView {
    DiscordAltView { username: shown_name(c), id: c.id, sources: listed(c.sources) }
}

/// An account comes before another: by name in lower case, then by id.
pub open spec fn alt_before(a: DiscordAltView, b: DiscordAltView) -> bool {
    let x = lower(a.username);
    let y = lower(b.username);
    crate::order::text_before(x, y) || (x == y && crate::order::text_before(a.id->0, b.id->0))
}

/// `alt` is the account of one of the candidates.
pub open spec fn is_alt_in(alt: DiscordAltView, map: Map<Seq<char>, DiscordCandidateView>) -> bool {
    exists|key: Seq<char>| #[trigger] map.dom().contains(key) && alt == discord_alt(map[key])
}

/// `alts` are the accounts of the candidates, each once, in order.
pub open spec fn are_alts_of(alts: Seq<DiscordAltView>, map: Map<Seq<char>, DiscordCandidateView>) -> bool {
    &&& forall|key: Seq<char>| #[trigger]
        map.dom().contains(key) ==> alts.contains(discord_alt(map[key]))
    &&& forall|i: int| 0 <= i < alts.len() ==> is_alt_in(#[trigger] alts[i], map)
    &&& forall|i: int, j: int|
        0 <= i < j < alts.len() ==> alt_before(#[trigger] alts[i], #[trigger] alts[j])
}

#[derive(Debug)]
pub struct DiscordScanOutcome {
    pub accounts: Vec<DiscordAlt>,
    pub profile_accounts: ProfileAccounts,
}

/// The candidates in the order of their keys.
pub open spec fn accounts_in_order(map: Map<Seq<char>, DiscordCandidateView>) -> Seq<
    DiscordCandidateView,
> {
    in_order::<String>(map.dom()).map_values(|key: Seq<char>| map[key])
}

pub open spec fn shown_under(c: DiscordCandidateView) -> (Seq<char>, Set<Seq<char>>) {
    (shown_name(c), c.profile_keys)
}

/// The place of an account in the list: its name in lower case, then its id.
pub open spec fn alt_place(c: DiscordCandidateView) -> (Seq<char>, Seq<char>) {
    (lower(shown_name(c)), c.id->0)
}

/// Lists all candidates as accounts, by name and under the profiles that they
/// were seen under.
pub fn discord_outcome(map: DiscordCandidates) -> (r: DiscordScanOutcome)
    ensures
        are_alts_of(views(r.accounts@), map@),
        r.profile_accounts@ == by_profile(
            accounts_in_order(map@).map_values(|c: DiscordCandidateView| shown_under(c)),
        ),
        lists(listed(map@.dom()), map@.dom()),
        forall|key: Seq<char>| #[trigger]
            map@.dom().contains(key) ==> lists(listed(map@[key].sources), map@[key].sources),
{
    let ghost start = map@;
    let ghost now = map.now();
    let entries = map.into_entries();
    let (keys, candidates) = entries.into_lists();
    let ghost ks = views(keys@);
    let ghost all = accounts_in_order(start);
    assert(views(candidates@) =~= all);
    let ghost pairs = all.map_values(|c: DiscordCandidateView| shown_under(c));
    let mut places: OrderedMap<TextPair, DiscordAlt> = OrderedMap::new();
    let mut profile_accounts: ProfileAccounts = OrderedMap::new();
    assert(pairs.take(0) =~= Seq::empty());
    for i in 0..candidates.len()
        invariant
            views(candidates@) == all,
            all == accounts_in_order(start),
            ks == in_order::<String>(start.dom()),
            ks.len() == all.len(),
            ks.to_set() == start.dom(),
            crate::order::increasing_texts(ks),
            keyed_by_id(start, now),
            pairs == all.map_values(|c: DiscordCandidateView| shown_under(c)),
            profile_accounts@ == by_profile(pairs.take(i as int)),
            forall|j: int|
                0 <= j < i ==> lists(listed((#[trigger] all[j]).sources), all[j].sources),
            forall|j: int|
                0 <= j < i ==> places@.dom().contains(alt_place(#[trigger] all[j]))
                    && places@[alt_place(all[j])] == discord_alt(all[j]),
            forall|p: (Seq<char>, Seq<char>)| #[trigger]
                places@.dom().contains(p) ==> exists|j: int|
                    0 <= j < i && p == alt_place(#[trigger] all[j]),
    {
        let entry = &candidates[i];
        let ghost old_places = places@;
        proof {
            assert(all[i as int] == entry@);
            assert(ks.to_set().contains(ks[i as int]));
            assert(start.dom().contains(ks[i as int]));
            assert(pairs.take(i + 1).drop_last() =~= pairs.take(i as int));
            assert(pairs.take(i + 1).last() == shown_under(entry@));
        }
        if let Some(id) = &entry.id {
            let username = if same_text(entry.username.as_str(), "unknown") {
                let mut shown = "id:".to_string();
                shown.push_str(id.as_str());
                shown
            } else {
                entry.username.clone()
            };
            add_account(&mut profile_accounts, &entry.profile_keys, username.as_str());
            let place = TextPair { first: to_lower(username.as_str()), second: id.clone() };
            assert(place@ == alt_place(entry@));
            let alt = DiscordAlt {
                username,
                id: Some(id.clone()),
                sources: entry.sources.to_list(),
            };
            assert(alt@ == discord_alt(entry@));
            places.insert(place, alt);
        }
        proof {
            assert(places@ == old_places.insert(alt_place(entry@), discord_alt(entry@)));
            assert forall|j: int| 0 <= j < i + 1 implies places@.dom().contains(
                alt_place(#[trigger] all[j]),
            ) && places@[alt_place(all[j])] == discord_alt(all[j]) by {
                if j < i {
                    assert(ks.to_set().contains(ks[j]));
                    assert(start.dom().contains(ks[j]));
                    assert(ks[j] == id_key(all[j].id->0));
                    assert(ks[i as int] == id_key(all[i as int].id->0));
                    if alt_place(all[j]) == alt_place(all[i as int]) {
                        assert(ks[j] == ks[i as int]);
                        crate::order::lemma_precedes_irreflexive(
                            char_codes(ks[j]),
                            char_codes(ks[i as int]),
                        );
                    }
                }
            }
            assert forall|p: (Seq<char>, Seq<char>)| #[trigger] places@.dom().contains(p) implies exists|
                j: int,
            |
                0 <= j < i + 1 && p == alt_place(#[trigger] all[j]) by {
                if p == alt_place(entry@) {
                    assert(p == alt_place(all[i as int]));
                } else {
                    assert(old_places.dom().contains(p));
                    let j = choose|j: int| 0 <= j < i && p == alt_place(#[trigger] all[j]);
                    assert(p == alt_place(all[j]));
                }
            }
        }
    }
    assert(pairs.take(pairs.len() as int) =~= pairs);
    let ghost placed = places@;
    let (place_keys, accounts) = places.into_lists();
    proof {
        let pk = views(place_keys@);
        let alts = views(accounts@);
        assert forall|key: Seq<char>| #[trigger] start.dom().contains(key) implies lists(
            listed(start[key].sources),
            start[key].sources,
        ) by {
            assert(ks.to_set().contains(key));
            let j = choose|j: int| 0 <= j < ks.len() && ks[j] == key;
            assert(all[j] == start[key]);
        }
        assert forall|key: Seq<char>| #[trigger] start.dom().contains(key) implies alts.contains(
            discord_alt(start[key]),
        ) by {
            assert(ks.to_set().contains(key));
            let j = choose|j: int| 0 <= j < ks.len() && ks[j] == key;
            assert(all[j] == start[key]);
            let p = alt_place(all[j]);
            assert(placed.dom().contains(p));
            assert(pk.to_set().contains(p));
            let m = choose|m: int| 0 <= m < pk.len() && pk[m] == p;
            assert(alts[m] == placed[pk[m]]);
        }
        assert forall|i: int| 0 <= i < alts.len() implies is_alt_in(#[trigger] alts[i], start) by {
            assert(pk.to_set().contains(pk[i]));
            assert(placed.dom().contains(pk[i]));
            let j = choose|j: int| 0 <= j < all.len() && pk[i] == alt_place(#[trigger] all[j]);
            assert(ks.to_set().contains(ks[j]));
            assert(start.dom().contains(ks[j]));
            assert(alts[i] == placed[pk[i]]);
            assert(alts[i] == discord_alt(start[ks[j]]));
        }
        assert forall|i: int, j: int| 0 <= i < j < alts.len() implies alt_before(
            #[trigger] alts[i],
            #[trigger] alts[j],
        ) by {
            assert(pk.to_set().contains(pk[i]) && pk.to_set().contains(pk[j]));
            let a = choose|k: int| 0 <= k < all.len() && pk[i] == alt_place(#[trigger] all[k]);
            let b = choose|k: int| 0 <= k < all.len() && pk[j] == alt_place(#[trigger] all[k]);
            assert(alts[i] == placed[pk[i]] && alts[j] == placed[pk[j]]);
            crate::order::lemma_pair_order(pk[i], pk[j]);
            assert(precedes(TextPair::codes(pk[i]), TextPair::codes(pk[j])));
        }
    }
    DiscordScanOutcome { accounts, profile_accounts }
}

} // verus!
