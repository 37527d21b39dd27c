//! A scan as it goes along: what is taken in from each directory and file, and
//! what it ends with.

use vstd::prelude::*;

use crate::discord_accounts::{
    extract_discord_accounts_from_context_bytes, with_context_chunks, DiscordCandidateView,
    DiscordCandidates,
};
use crate::discord_scan::{
    scan_raw_discord_file, scan_single_discord_leveldb_dir, with_directory, Findings,
};
use crate::discord_text::printable_chunks;
use crate::json::json_parsed;
use crate::minecraft::{is_account_file, JSON_USERNAME_PATTERN};
use crate::minecraft_accounts::{
    counted_up, extract_minecraft_accounts_from_json_file, extract_minecraft_accounts_from_log_file,
    failure, failure_text, insert_minecraft_names, json_file_names, keyed_by_name,
    law_candidates_keyed, log_content, log_names, plain_content, with_candidates, FileData, FileDataView, MinecraftCandidateView,
    MinecraftCandidates,
};
use crate::order::{listed, lists, OrderedMap};
use crate::outside::regex_matches;
use crate::paths::file_name;
use crate::scanner::ScanStats;
use crate::std_text::utf8_lossy;
use crate::text::{lower, same_ignoring_case};
use crate::usn_journal::added_up;
use crate::viewer::ScanResult;
use crate::views::{push_view, views};

verus! {

// ---------------------------------------------------------------------------
// Minecraft
// ---------------------------------------------------------------------------

/// The names found so far, what was read, and what was complained of.
#[derive(Debug)]
pub struct MinecraftScan {
    pub candidates: MinecraftCandidates,
    pub stats: ScanStats,
    pub warnings: Vec<String>,
}

#[verifier::ext_equal]
pub struct MinecraftScanView {
    pub candidates: Map<Seq<char>, MinecraftCandidateView>,
    pub stats: ScanStats,
    pub warnings: Seq<Seq<char>>,
}

impl View for MinecraftScan {
    type V = MinecraftScanView;

    open spec fn view(&self) -> MinecraftScanView {
        MinecraftScanView {
            candidates: self.candidates@,
            stats: self.stats,
            warnings: views(self.warnings@),
        }
    }
}

pub open spec fn count(n: usize) -> usize {
    counted_up(n as nat) as usize
}

/// The scan after a log was read: its names are seen in it, or it gives a warning.
pub open spec fn with_log_file(s: MinecraftScanView, path: Seq<char>, data: FileDataView) -> MinecraftScanView {
    let stats = ScanStats {
        minecraft_files_scanned: count(s.stats.minecraft_files_scanned),
        minecraft_log_files_scanned: count(s.stats.minecraft_log_files_scanned),
        ..s.stats
    };
    match log_content(path, data) {
        Ok(content) => MinecraftScanView {
            candidates: with_candidates(
                s.candidates,
                listed(log_names(utf8_lossy(content))),
                path,
                true,
            ),
            stats,
            warnings: s.warnings,
        },
        Err(warning) => MinecraftScanView {
            candidates: s.candidates,
            stats,
            warnings: s.warnings.push(warning),
        },
    }
}

/// The names in the content of the JSON file `path`.
pub open spec fn names_in_json_file(path: Seq<char>, content: Seq<u8>) -> Set<Seq<char>> {
    json_file_names(
        utf8_lossy(content),
        is_account_file(lower(file_name(path))),
        json_parsed(utf8_lossy(content)),
        regex_matches(JSON_USERNAME_PATTERN@, utf8_lossy(content)),
    )
}

/// The scan after a JSON file was read: its names are seen in it, or it gives a
/// warning.
pub open spec fn with_json_file(s: MinecraftScanView, path: Seq<char>, data: FileDataView) -> MinecraftScanView {
    let stats = ScanStats {
        minecraft_files_scanned: count(s.stats.minecraft_files_scanned),
        minecraft_json_files_scanned: count(s.stats.minecraft_json_files_scanned),
        ..s.stats
    };
    match plain_content(path, data) {
        Ok(content) => MinecraftScanView {
            candidates: with_candidates(
                s.candidates,
                listed(names_in_json_file(path, content)),
                path,
                false,
            ),
            stats,
            warnings: s.warnings,
        },
        Err(warning) => MinecraftScanView {
            candidates: s.candidates,
            stats,
            warnings: s.warnings.push(warning),
        },
    }
}

proof fn lemma_no_names()
    ensures
        listed(Set::<Seq<char>>::empty()) == Seq::<Seq<char>>::empty(),
{
    let none = Seq::<Seq<char>>::empty();
    assert(none.to_set() =~= Set::<Seq<char>>::empty());
    crate::order::lemma_in_order::<String>(none, Set::empty());
}

impl MinecraftScan {
    /// A scan of `roots` directories.
    pub fn new(roots: usize) -> (r: MinecraftScan)
        ensures
            r@ == (MinecraftScanView {
                candidates: Map::empty(),
                stats: (ScanStats {
                    minecraft_roots: roots,
                    minecraft_files_scanned: 0,
                    minecraft_log_files_scanned: 0,
                    minecraft_json_files_scanned: 0,
                    logs_directories_found: 0,
                    discord_files_scanned: 0,
                }),
                warnings: Seq::empty(),
            }),
    {
        let stats = ScanStats::new();
        let r = MinecraftScan {
            candidates: OrderedMap::new(),
            stats: ScanStats { minecraft_roots: roots, ..stats },
            warnings: Vec::new(),
        };
        assert(views(r.warnings@) =~= Seq::empty());
        r
    }

    /// Takes in a directory that was met.
    pub fn visit_directory(&mut self, name: &str)
        ensures
            final(self)@ == (MinecraftScanView {
                stats: (ScanStats {
                    logs_directories_found: if same_ignoring_case(name@, "logs"@) {
                        count(old(self).stats.logs_directories_found)
                    } else {
                        old(self).stats.logs_directories_found
                    },
                    ..old(self).stats
                }),
                ..old(self)@
            }),
    {
        self.stats.count_directory(name);
    }

    /// Takes in a log.
    pub fn read_log(&mut self, path: &str, data: FileData)
        ensures
            final(self)@ == with_log_file(old(self)@, path@, data@),
            match log_content(path@, data@) {
                Ok(content) => {
                    let names = log_names(utf8_lossy(content));
                    lists(listed(names), names)
                },
                Err(_) => true,
            },
    {
        self.stats.count_log();
        let names = extract_minecraft_accounts_from_log_file(path, data, &mut self.warnings);
        proof {
            lemma_no_names();
        }
        insert_minecraft_names(&mut self.candidates, &names, path, true);
    }

    /// Takes in a JSON file.
    pub fn read_json(&mut self, path: &str, data: FileData)
        ensures
            final(self)@ == with_json_file(old(self)@, path@, data@),
            match plain_content(path@, data@) {
                Ok(content) => {
                    let names = names_in_json_file(path@, content);
                    lists(listed(names), names)
                },
                Err(_) => true,
            },
    {
        self.stats.count_json();
        let names = extract_minecraft_accounts_from_json_file(path, data, &mut self.warnings);
        proof {
            lemma_no_names();
        }
        insert_minecraft_names(&mut self.candidates, &names, path, false);
    }
}

/// Reading a file takes no candidate away and no warning back.
pub proof fn law_reading_keeps(s: MinecraftScanView, path: Seq<char>, data: FileDataView, key: Seq<char>)
    requires
        s.candidates.dom().contains(key),
    ensures
        with_log_file(s, path, data).candidates.dom().contains(key),
        with_log_file(s, path, data).candidates[key].username == s.candidates[key].username,
        with_json_file(s, path, data).candidates.dom().contains(key),
        with_json_file(s, path, data).candidates[key].username == s.candidates[key].username,
        with_log_file(s, path, data).warnings.take(s.warnings.len() as int) == s.warnings,
        with_json_file(s, path, data).warnings.take(s.warnings.len() as int) == s.warnings,
{
    if let Ok(content) = log_content(path, data) {
        lemma_candidates_kept(
            s.candidates,
            listed(log_names(utf8_lossy(content))),
            path,
            true,
            key,
        );
    }
    if let Ok(content) = plain_content(path, data) {
        lemma_candidates_kept(
            s.candidates,
            listed(names_in_json_file(path, content)),
            path,
            false,
            key,
        );
    }
    assert(with_log_file(s, path, data).warnings.take(s.warnings.len() as int) =~= s.warnings);
    assert(with_json_file(s, path, data).warnings.take(s.warnings.len() as int) =~= s.warnings);
}

/// A scan starts with every candidate under its name in lower case, and reading a
/// file keeps it so.
pub proof fn law_session_keyed(s: MinecraftScanView, path: Seq<char>, data: FileDataView)
    requires
        keyed_by_name(s.candidates),
    ensures
        keyed_by_name(Map::empty()),
        keyed_by_name(with_log_file(s, path, data).candidates),
        keyed_by_name(with_json_file(s, path, data).candidates),
{
    if let Ok(content) = log_content(path, data) {
        law_candidates_keyed(s.candidates, listed(log_names(utf8_lossy(content))), path, true);
    }
    if let Ok(content) = plain_content(path, data) {
        law_candidates_keyed(
            s.candidates,
            listed(names_in_json_file(path, content)),
            path,
            false,
        );
    }
}

proof fn lemma_candidates_kept(
    map: Map<Seq<char>, MinecraftCandidateView>,
    names: Seq<Seq<char>>,
    path: Seq<char>,
    from_log: bool,
    key: Seq<char>,
)
    requires
        map.dom().contains(key),
    ensures
        with_candidates(map, names, path, from_log).dom().contains(key),
        with_candidates(map, names, path, from_log)[key].username == map[key].username,
    decreases names.len(),
{
    if names.len() > 0 {
        lemma_candidates_kept(map, names.drop_last(), path, from_log, key);
        crate::minecraft_accounts::law_candidates_kept(
            with_candidates(map, names.drop_last(), path, from_log),
            names.last(),
            path,
            from_log,
            key,
        );
    }
}

// ---------------------------------------------------------------------------
// Discord
// ---------------------------------------------------------------------------

/// What a path that should be a LevelDB directory turned out to be.
#[derive(Debug)]
pub enum DirectoryState {
    Missing,
    NotADirectory,
    /// A directory, and what parsing it gave.
    Parsed(Result<ScanResult, String>),
}

/// What reading a browser's file gave.
#[derive(Debug)]
pub enum ContextFile {
    MetadataFailed(String),
    ReadFailed(String),
    Bytes(Vec<u8>),
}

/// The accounts found so far, how many files were read, what was complained of,
/// and where was looked.
#[derive(Debug)]
pub struct DiscordScan {
    pub candidates: DiscordCandidates,
    pub files_scanned: usize,
    pub warnings: Vec<String>,
    pub scanned_dirs: Vec<String>,
    pub scanned_context_files: Vec<String>,
}

#[verifier::ext_equal]
pub struct DiscordScanView {
    pub candidates: Map<Seq<char>, DiscordCandidateView>,
    pub now: int,
    pub files_scanned: nat,
    pub warnings: Seq<Seq<char>>,
    pub scanned_dirs: Seq<Seq<char>>,
    pub scanned_context_files: Seq<Seq<char>>,
}

impl View for DiscordScan {
    type V = DiscordScanView;

    open spec fn view(&self) -> DiscordScanView {
        DiscordScanView {
            candidates: self.candidates@,
            now: self.candidates.now(),
            files_scanned: self.files_scanned as nat,
            warnings: views(self.warnings@),
            scanned_dirs: views(self.scanned_dirs@),
            scanned_context_files: views(self.scanned_context_files@),
        }
    }
}

/// What parsing a LevelDB directory adds to a scan.
pub open spec fn directory_findings(s: DiscordScanView, dir: Seq<char>, parsed: Result<ScanResult, String>) -> Findings {
    with_directory(
        Findings { candidates: s.candidates, files: 0, warnings: s.warnings },
        s.now,
        dir,
        match parsed {
            Ok(result) => Ok(result@),
            Err(e) => Err(e@),
        },
    )
}

/// The scan after a LevelDB directory. A missing one is passed over, anything
/// else that is none gives a warning.
pub open spec fn with_leveldb_dir(s: DiscordScanView, dir: Seq<char>, state: DirectoryState) -> DiscordScanView {
    match state {
        DirectoryState::Missing => s,
        DirectoryState::NotADirectory => DiscordScanView {
            warnings: s.warnings.push("Discord path is not a directory: "@ + dir),
            ..s
        },
        DirectoryState::Parsed(parsed) => {
            let f = directory_findings(s, dir, parsed);
            DiscordScanView {
                candidates: f.candidates,
                files_scanned: added_up(s.files_scanned, f.files),
                warnings: f.warnings,
                scanned_dirs: s.scanned_dirs.push(dir),
                ..s
            }
        },
    }
}

/// The scan after a browser's file.
pub open spec fn with_context_file(s: DiscordScanView, path: Seq<char>, file: ContextFile) -> DiscordScanView {
    match file {
        ContextFile::MetadataFailed(e) => DiscordScanView {
            warnings: s.warnings.push(failure("Failed to read metadata for "@, path, e@)),
            ..s
        },
        ContextFile::ReadFailed(e) => DiscordScanView {
            warnings: s.warnings.push(failure("Failed to read "@, path, e@)),
            ..s
        },
        ContextFile::Bytes(bytes) => DiscordScanView {
            candidates: with_context_chunks(
                s.candidates,
                s.now,
                printable_chunks(bytes@, 72, 2_200),
                path,
            ),
            files_scanned: counted_up(s.files_scanned),
            scanned_context_files: s.scanned_context_files.push(path),
            ..s
        },
    }
}

impl DiscordScan {
    /// A scan in which ids are checked against the machine's clock as it stands
    /// now, which is not before 1970.
    pub fn new() -> (r: DiscordScan)
        ensures
            r@ == (DiscordScanView {
                candidates: Map::empty(),
                now: r@.now,
                files_scanned: 0,
                warnings: Seq::empty(),
                scanned_dirs: Seq::empty(),
                scanned_context_files: Seq::empty(),
            }),
            r@.now >= 0,
    {
        let r = DiscordScan {
            candidates: DiscordCandidates::new(),
            files_scanned: 0,
            warnings: Vec::new(),
            scanned_dirs: Vec::new(),
            scanned_context_files: Vec::new(),
        };
        assert(views(r.warnings@) =~= Seq::empty());
        assert(views(r.scanned_dirs@) =~= Seq::empty());
        assert(views(r.scanned_context_files@) =~= Seq::empty());
        r
    }

    /// Takes in a LevelDB directory. Gives whether its files are to be searched
    /// as they are, since none of them was parsed.
    pub fn read_leveldb_dir(&mut self, dir: &str, state: DirectoryState) -> (r: bool)
        ensures
            final(self)@ == with_leveldb_dir(old(self)@, dir@, state),
            r == (state matches DirectoryState::Parsed(parsed) && directory_findings(
                old(self)@,
                dir@,
                parsed,
            ).files == 0),
    {
        match state {
            DirectoryState::Missing => false,
            DirectoryState::NotADirectory => {
                let mut message = "Discord path is not a directory: ".to_string();
                message.push_str(dir);
                push_view(&mut self.warnings, message);
                false
            },
            DirectoryState::Parsed(parsed) => {
                push_view(&mut self.scanned_dirs, dir.to_string());
                let counted: usize = scan_single_discord_leveldb_dir(
                    dir,
                    &parsed,
                    &mut self.candidates,
                    &mut self.warnings,
                );
                self.files_scanned = self.files_scanned.saturating_add(counted);
                counted == 0
            },
        }
    }

    /// Takes in that the files of a directory could not be listed.
    pub fn listing_failed(&mut self, dir: &str, error: &str)
        ensures
            final(self)@ == (DiscordScanView {
                warnings: old(self)@.warnings.push(
                    failure("Failed to read Discord LevelDB directory "@, dir@, error@),
                ),
                ..old(self)@
            }),
    {
        push_view(
            &mut self.warnings,
            failure_text("Failed to read Discord LevelDB directory ", dir, error),
        );
    }

    /// Searches a file that was not parsed.
    pub fn read_raw_file(&mut self, path: &str, bytes: &[u8])
        ensures
            final(self)@ == if crate::discord_scan::is_owner_key(bytes@) {
                DiscordScanView {
                    candidates: crate::discord_accounts::with_bytes(
                        old(self)@.candidates,
                        old(self)@.now,
                        bytes@,
                        path@,
                    ),
                    files_scanned: counted_up(old(self)@.files_scanned),
                    ..old(self)@
                }
            } else {
                old(self)@
            },
    {
        let searched = scan_raw_discord_file(path, bytes, &mut self.candidates);
        if searched {
            self.files_scanned = self.files_scanned.saturating_add(1);
        }
    }

    /// Takes in a browser's file.
    pub fn read_context_file(&mut self, path: &str, file: ContextFile)
        ensures
            final(self)@ == with_context_file(old(self)@, path@, file),
    {
        match file {
            ContextFile::MetadataFailed(e) => {
                push_view(
                    &mut self.warnings,
                    failure_text("Failed to read metadata for ", path, e.as_str()),
                );
            },
            ContextFile::ReadFailed(e) => {
                push_view(&mut self.warnings, failure_text("Failed to read ", path, e.as_str()));
            },
            ContextFile::Bytes(bytes) => {
                self.files_scanned = self.files_scanned.saturating_add(1);
                push_view(&mut self.scanned_context_files, path.to_string());
                extract_discord_accounts_from_context_bytes(
                    bytes.as_slice(),
                    path,
                    &mut self.candidates,
                );
            },
        }
    }
}

} // verus!
