//! What a scan and its report promise: nothing that was found or complained of is
//! lost on the way to what is shown.

use vstd::prelude::*;

use crate::discord_accounts::{with_account_seen, with_context_chunks, DiscordCandidateView};
use crate::discord_scan::{
    alt_before, discord_alt, joined_lines, with_directory, with_files, DiscordAltView, Findings,
};
use crate::discord_text::{discord_id, discord_name, printable_chunks};
use crate::forensics::forensic_signals;
use crate::minecraft::{
    is_game_path, is_root_name, is_skipped_dir, is_structural_word,
};
use crate::order::{listed, text_before};
use crate::paths::{file_name, path_key, profile_key};
use crate::profiles::{accounts_of, links_of, profile_links};
use crate::scan_session::{
    with_context_file, with_json_file, with_leveldb_dir, with_log_file, ContextFile,
    DirectoryState, DiscordScanView, MinecraftScanView,
};
use crate::scanner::{
    all_locations, all_signals, is_browser_profile, is_shared_profile, report_of, ScanFindings,
    ScannedPlaces,
};
use crate::text::{contains, lower, starts_with};
use crate::usn_journal::UsnReportView;
use crate::viewer::{ParsedFileView, ScanResultView};
use crate::views::views;

verus! {

// ---------------------------------------------------------------------------
// Discord
// ---------------------------------------------------------------------------

/// An account that is seen is listed under its id, with the file, with the profile
/// that the file lies in, and one more sighting; the first name that is known stays.
/// No other account changes.
pub proof fn law_account_seen(
    map: Map<Seq<char>, DiscordCandidateView>,
    now: int,
    username: Option<Seq<char>>,
    id: Seq<char>,
    source: Seq<char>,
    other: Seq<char>,
)
    requires
        discord_id(id, now) == Some(id),
        other != "id:"@ + id,
    ensures
        ({
            let key = "id:"@ + id;
            let after = with_account_seen(map, now, username, Some(id), source);
            let name = match username {
                Some(u) => discord_name(u),
                None => None,
            };
            let known = map.dom().contains(key);
            &&& after.dom() == map.dom().insert(key)
            &&& map.dom().contains(other) ==> after[other] == map[other]
            &&& after[key].id == if known {
                map[key].id
            } else {
                Some(id)
            }
            &&& after[key].sources.contains(source)
            &&& profile_key(source) is Some ==> after[key].profile_keys.contains(
                profile_key(source)->0,
            )
            &&& known && map[key].username != "unknown"@ ==> after[key].username
                == map[key].username
            &&& !(known && map[key].username != "unknown"@) && name is Some ==> after[key].username
                == name->0
            &&& !(known && map[key].username != "unknown"@) && name is None ==> after[key].username
                == "unknown"@
            &&& !known ==> after[key].evidence_hits == 1 && after[key].sources
                == Set::<Seq<char>>::empty().insert(source)
            &&& known && map[key].evidence_hits < usize::MAX ==> after[key].evidence_hits
                == map[key].evidence_hits + 1
            &&& known ==> after[key].sources == map[key].sources.insert(source)
        }),
{
    let after = with_account_seen(map, now, username, Some(id), source);
    assert(after.dom() =~= map.dom().insert("id:"@ + id));
}

/// Every table and numbered log of a directory counts as a file, and each that could
/// not be parsed gives a warning; so does each warning of the directory, and a
/// directory that could not be parsed. Other files do not count.
pub proof fn law_directory_told(
    f: Findings,
    now: int,
    dir: Seq<char>,
    files: Seq<ParsedFileView>,
    file: ParsedFileView,
    warnings: Seq<Seq<char>>,
    target: Seq<char>,
    error: Seq<char>,
    i: int,
)
    requires
        0 <= i < warnings.len(),
    ensures
        ({
            let before = with_files(f, now, files);
            let after = with_files(f, now, files.push(file));
            let numbered = crate::discord_text::is_leveldb_name(lower(file_name(file.path)));
            &&& after.files == before.files + if numbered {
                1nat
            } else {
                0nat
            }
            &&& !numbered ==> after == before
            &&& numbered && file.content is Error ==> after.warnings == before.warnings.push(
                "Discord parse error in "@ + file.path + ": "@ + file.content->Error_0,
            ) && after.candidates == before.candidates
            &&& !(numbered && file.content is Error) ==> after.warnings == before.warnings
            &&& numbered && file.content is TextLog ==> after.candidates
                == crate::discord_accounts::with_text(
                before.candidates,
                now,
                joined_lines(file.content->TextLog_0),
                file.path,
            )
        }),
        with_files(f, now, Seq::empty()) == f,
        ({
            let whole = with_directory(f, now, dir, Ok(ScanResultView { target, files, warnings }));
            let before = with_files(f, now, files);
            &&& whole.files == before.files
            &&& whole.candidates == before.candidates
            &&& whole.warnings.len() == before.warnings.len() + warnings.len()
            &&& whole.warnings.take(before.warnings.len() as int) == before.warnings
            &&& whole.warnings[before.warnings.len() + i] == "Discord LevelDB warning ("@ + dir
                + "): "@ + warnings[i]
        }),
        with_directory(f, now, dir, Err(error)) == (Findings {
            candidates: f.candidates,
            files: f.files,
            warnings: f.warnings.push(
                "Discord LevelDB parse failed for "@ + dir + ": "@ + error,
            ),
        }),
{
    assert(files.push(file).drop_last() =~= files);
    let whole = with_directory(f, now, dir, Ok(ScanResultView { target, files, warnings }));
    let before = with_files(f, now, files);
    assert(whole.warnings.take(before.warnings.len() as int) =~= before.warnings);
}

/// The lines of a text log are looked through as one text, with a line feed between
/// each two.
pub proof fn law_lines_joined(lines: Seq<Seq<char>>, line: Seq<char>)
    ensures
        lines.len() > 0 ==> joined_lines(lines.push(line)) == joined_lines(lines).push('\n') + line,
        joined_lines(seq![line]) == line,
        joined_lines(Seq::empty()).len() == 0,
{
    assert(lines.push(line).drop_last() =~= lines);
    reveal_strlit("\n");
    if lines.len() > 0 {
        assert(joined_lines(lines) + "\n"@ + line =~= joined_lines(lines).push('\n') + line);
    }
}

/// An account is listed under its name, or under its id where no name is known;
/// accounts stand by name, in any case, and those of the same name by id.
pub proof fn law_accounts_listed(c: DiscordCandidateView, a: DiscordAltView, b: DiscordAltView)
    requires
        c.id is Some,
    ensures
        c.username != "unknown"@ ==> discord_alt(c).username == c.username,
        c.username == "unknown"@ ==> discord_alt(c).username == "id:"@ + c.id->0,
        discord_alt(c).id == c.id,
        discord_alt(c).sources == listed(c.sources),
        text_before(lower(a.username), lower(b.username)) ==> alt_before(a, b),
        lower(a.username) == lower(b.username) ==> (alt_before(a, b) <==> text_before(
            a.id->0,
            b.id->0,
        )),
{
    if lower(a.username) == lower(b.username) {
        crate::viewer_laws::law_order(
            lower(a.username),
            'a',
            Seq::empty(),
            'a',
            Seq::empty(),
            Seq::empty(),
            0,
            Seq::empty(),
            0,
            Seq::empty(),
        );
    }
}

/// A directory of Discord that is missing changes nothing, and what is no directory is
/// complained of. Else what was found in it, how many files it has and that it was
/// looked at are kept.
pub proof fn law_directory_taken_in(s: DiscordScanView, dir: Seq<char>, result: crate::viewer::ScanResult)
    requires
        s.files_scanned + result@.files.len() <= usize::MAX,
    ensures
        with_leveldb_dir(s, dir, DirectoryState::Missing) == s,
        with_leveldb_dir(s, dir, DirectoryState::NotADirectory) == (DiscordScanView {
            warnings: s.warnings.push("Discord path is not a directory: "@ + dir),
            ..s
        }),
        ({
            let after = with_leveldb_dir(s, dir, DirectoryState::Parsed(Ok(result)));
            let found = with_directory(
                Findings { candidates: s.candidates, files: 0, warnings: s.warnings },
                s.now,
                dir,
                Ok(result@),
            );
            &&& after.candidates == found.candidates
            &&& after.warnings == found.warnings
            &&& after.files_scanned == s.files_scanned + found.files
            &&& after.scanned_dirs == s.scanned_dirs.push(dir)
            &&& after.scanned_context_files == s.scanned_context_files
            &&& after.now == s.now
        }),
{
    lemma_files_bounded(
        Findings { candidates: s.candidates, files: 0, warnings: s.warnings },
        s.now,
        result@.files,
    );
}

proof fn lemma_files_bounded(f: Findings, now: int, files: Seq<ParsedFileView>)
    ensures
        with_files(f, now, files).files <= f.files + files.len(),
    decreases files.len(),
{
    if files.len() > 0 {
        lemma_files_bounded(f, now, files.drop_last());
    }
}

/// A browser's file that was read counts, and its runs of 72 printable bytes or more,
/// up to 2200 of them, are looked through; one that was not is complained of.
pub proof fn law_context_file_taken_in(s: DiscordScanView, path: Seq<char>, bytes: Vec<u8>, error: String)
    requires
        s.files_scanned < usize::MAX,
    ensures
        with_context_file(s, path, ContextFile::Bytes(bytes)) == (DiscordScanView {
            candidates: with_context_chunks(
                s.candidates,
                s.now,
                printable_chunks(bytes@, 72, 2200),
                path,
            ),
            files_scanned: s.files_scanned + 1,
            scanned_context_files: s.scanned_context_files.push(path),
            ..s
        }),
        with_context_file(s, path, ContextFile::MetadataFailed(error)) == (DiscordScanView {
            warnings: s.warnings.push("Failed to read metadata for "@ + path + ": "@ + error@),
            ..s
        }),
        with_context_file(s, path, ContextFile::ReadFailed(error)) == (DiscordScanView {
            warnings: s.warnings.push("Failed to read "@ + path + ": "@ + error@),
            ..s
        }),
{
}

// ---------------------------------------------------------------------------
// Minecraft
// ---------------------------------------------------------------------------

/// Each log and each JSON file that is read counts once as a file and once as what it
/// is; one that could not be read gives its warning and no names.
pub proof fn law_files_counted(
    s: MinecraftScanView,
    path: Seq<char>,
    data: crate::minecraft_accounts::FileDataView,
)
    requires
        s.stats.minecraft_files_scanned < usize::MAX,
        s.stats.minecraft_log_files_scanned < usize::MAX,
        s.stats.minecraft_json_files_scanned < usize::MAX,
    ensures
        ({
            let log = with_log_file(s, path, data);
            let json = with_json_file(s, path, data);
            &&& log.stats.minecraft_files_scanned == s.stats.minecraft_files_scanned + 1
            &&& log.stats.minecraft_log_files_scanned == s.stats.minecraft_log_files_scanned + 1
            &&& log.stats.minecraft_json_files_scanned == s.stats.minecraft_json_files_scanned
            &&& json.stats.minecraft_files_scanned == s.stats.minecraft_files_scanned + 1
            &&& json.stats.minecraft_json_files_scanned == s.stats.minecraft_json_files_scanned + 1
            &&& json.stats.minecraft_log_files_scanned == s.stats.minecraft_log_files_scanned
            &&& log.stats.minecraft_roots == s.stats.minecraft_roots
            &&& json.stats.minecraft_roots == s.stats.minecraft_roots
            &&& log.stats.logs_directories_found == s.stats.logs_directories_found
            &&& json.stats.logs_directories_found == s.stats.logs_directories_found
            &&& crate::minecraft_accounts::log_content(path, data) is Err ==> log.candidates
                == s.candidates && log.warnings == s.warnings.push(
                crate::minecraft_accounts::log_content(path, data)->Err_0,
            )
            &&& crate::minecraft_accounts::log_content(path, data) is Ok ==> log.warnings
                == s.warnings
        }),
{
}

/// Which directories are not walked into, which look like the root of the game, which
/// paths are of the game, and which words are no names.
pub proof fn law_directory_words(name: Seq<char>, path: Seq<char>)
    ensures
        is_skipped_dir(name) <==> name == "libraries"@ || name == "assets"@ || name == "runtime"@
            || name == "cache"@ || name == "caches"@ || name == "logs_cache"@ || name == "natives"@
            || name == "node_modules"@ || name == ".git"@ || name == ".gradle"@ || name
            == "program files"@ || name == "program files (x86)"@ || name == "windows"@ || name
            == "$recycle.bin"@ || name == "system volume information"@,
        is_root_name(name) <==> contains(name, ".minecraft"@) || contains(name, "minecraft"@)
            || contains(name, "tlauncher"@) || contains(name, "lunarclient"@) || contains(
            name,
            "prismlauncher"@,
        ) || contains(name, "multimc"@) || contains(name, "polymc"@) || contains(name, "modrinth"@)
            || contains(name, "gdlauncher"@) || contains(name, "sklauncher"@) || contains(
            name,
            "salwyrr"@,
        ) || contains(name, "hmcl"@) || contains(name, "labymod"@) || contains(name, "curseforge"@)
            || contains(name, "technic"@),
        is_game_path(path) <==> contains(path_key(path), "\\.minecraft"@) || contains(
            path_key(path),
            "\\minecraft"@,
        ) || contains(path_key(path), "\\tlauncher"@) || contains(path_key(path), "\\lunarclient"@)
            || contains(path_key(path), "\\prismlauncher"@) || contains(
            path_key(path),
            "\\multimc"@,
        ) || contains(path_key(path), "\\modrinth"@) || contains(path_key(path), "\\gdlauncher"@)
            || contains(path_key(path), "\\hmcl"@) || contains(path_key(path), "\\labymod"@)
            || contains(path_key(path), "\\sklauncher"@) || contains(path_key(path), "\\salwyrr"@)
            || contains(path_key(path), "\\curseforge"@),
        is_structural_word(name) <==> name == "forge"@ || name == "fabric"@ || name == "vanilla"@
            || name == "optifine"@ || name == "account"@ || name == "accounts"@ || name
            == "profile"@ || name == "instance"@,
        is_shared_profile(name) <==> lower(name) == "public"@ || lower(name) == "default"@ || lower(
            name,
        ) == "default user"@ || lower(name) == "all users"@ || lower(name) == "defaultapppool"@,
        is_browser_profile(name) <==> lower(name) == "default"@ || lower(name) == "guest profile"@
            || starts_with(lower(name), "profile "@),
{
}

// ---------------------------------------------------------------------------
// The report
// ---------------------------------------------------------------------------

/// Every place that was looked at is named, with what it is.
pub proof fn law_locations(places: ScannedPlaces, usn: Seq<Seq<char>>, i: int)
    ensures
        ({
            let all = all_locations(places, usn);
            &&& 0 <= i < places.minecraft_roots@.len() ==> all.contains(
                "minecraft_root: "@ + places.minecraft_roots@[i]@,
            )
            &&& 0 <= i < places.discord_dirs@.len() ==> all.contains(
                "discord_leveldb: "@ + places.discord_dirs@[i]@,
            )
            &&& 0 <= i < places.discord_context_files@.len() ==> all.contains(
                "discord_context: "@ + places.discord_context_files@[i]@,
            )
            &&& 0 <= i < usn.len() ==> all.contains(usn[i])
            &&& all.len() == places.minecraft_roots@.len() + places.discord_dirs@.len()
                + places.discord_context_files@.len() + usn.len()
        }),
{
    let all = all_locations(places, usn);
    let a = places.minecraft_roots@.len() as int;
    let b = places.discord_dirs@.len() as int;
    let c = places.discord_context_files@.len() as int;
    if 0 <= i < a {
        assert(all[i] == "minecraft_root: "@ + places.minecraft_roots@[i]@);
    }
    if 0 <= i < b {
        assert(all[a + i] == "discord_leveldb: "@ + places.discord_dirs@[i]@);
    }
    if 0 <= i < c {
        assert(all[a + b + i] == "discord_context: "@ + places.discord_context_files@[i]@);
    }
    if 0 <= i < usn.len() {
        assert(all[a + b + c + i] == usn[i]);
    }
}

/// The signals of a scan are those of the journals, and for each kind of account that
/// none was found, where none was.
pub proof fn law_signals(usn: Option<UsnReportView>, no_discord: bool, no_minecraft: bool, signal: Seq<char>)
    ensures
        all_signals(usn, no_discord, no_minecraft).contains(signal) <==> forensic_signals(
            usn,
        ).contains(signal) || (no_discord && signal == "Discord: аккаунты не обнаружены"@) || (
        no_minecraft && signal == "Minecraft: аккаунты не обнаружены"@),
{
    let a = forensic_signals(usn);
    let b = if no_discord {
        seq!["Discord: аккаунты не обнаружены"@]
    } else {
        Seq::empty()
    };
    let c = if no_minecraft {
        seq!["Minecraft: аккаунты не обнаружены"@]
    } else {
        Seq::empty()
    };
    let all = a + b + c;
    assert(all == all_signals(usn, no_discord, no_minecraft));
    if a.contains(signal) {
        let i = choose|i: int| 0 <= i < a.len() && a[i] == signal;
        assert(all[i] == signal);
    }
    if no_discord {
        assert(all[a.len() as int] == b[0]);
    }
    if no_minecraft {
        assert(all[(a.len() + b.len()) as int] == c[0]);
    }
    if all.contains(signal) {
        let i = choose|i: int| 0 <= i < all.len() && all[i] == signal;
        if i < a.len() {
            assert(a[i] == signal);
        }
    }
}

/// The report has every account as it was found, what the journals say, and every
/// location, warning and signal, each once and in order.
pub proof fn law_report(found: ScanFindings, generated_at: Seq<char>, text: Seq<char>)
    ensures
        ({
            let r = report_of(found, generated_at);
            let warnings = views(found.warnings@) + found.usn@.warnings;
            &&& r.app == "RSS-AltsChecker"@
            &&& r.generated_at == generated_at
            &&& r.report_file.len() == 0
            &&& r.minecraft_accounts == views(found.minecraft.accounts@)
            &&& r.minecraft_detection_debug == views(found.minecraft.debug@)
            &&& r.discord_accounts == views(found.discord.accounts@)
            &&& r.usn_journal == found.usn@.report
            &&& r.stats == found.stats
            &&& r.profile_links == profile_links(
                found.minecraft.profile_accounts@,
                found.discord.profile_accounts@,
            )
            &&& r.warnings.contains(text) <==> views(found.warnings@).contains(text)
                || found.usn@.warnings.contains(text)
            &&& r.scanned_locations.contains(text) <==> all_locations(
                found.places,
                found.usn@.scanned_locations,
            ).contains(text)
            &&& r.forensic_signals.contains(text) <==> all_signals(
                found.usn@.report,
                found.discord.accounts@.len() == 0,
                found.minecraft.accounts@.len() == 0,
            ).contains(text)
        }),
{
    let a = views(found.warnings@);
    let b = found.usn@.warnings;
    crate::scanner::law_sorted_texts(a + b, text);
    crate::scanner::law_sorted_texts(
        all_locations(found.places, found.usn@.scanned_locations),
        text,
    );
    crate::scanner::law_sorted_texts(
        all_signals(
            found.usn@.report,
            views(found.discord.accounts@).len() == 0,
            views(found.minecraft.accounts@).len() == 0,
        ),
        text,
    );
    if a.contains(text) {
        let i = choose|i: int| 0 <= i < a.len() && a[i] == text;
        assert((a + b)[i] == text);
    }
    if b.contains(text) {
        let i = choose|i: int| 0 <= i < b.len() && b[i] == text;
        assert((a + b)[a.len() + i] == text);
    }
    if (a + b).contains(text) {
        let i = choose|i: int| 0 <= i < (a + b).len() && (a + b)[i] == text;
        if i < a.len() {
            assert(a[i] == text);
        } else {
            assert(b[i - a.len()] == text);
        }
    }
}

/// A profile is linked where a name of the game and an account of Discord were seen
/// under it, and not otherwise; the link names all of both.
pub proof fn law_profiles_linked(
    minecraft: Map<Seq<char>, Set<Seq<char>>>,
    discord: Map<Seq<char>, Set<Seq<char>>>,
    profile: Seq<char>,
)
    requires
        minecraft.dom().finite(),
        discord.dom().finite(),
    ensures
        ({
            let links = profile_links(minecraft, discord);
            (exists|i: int| 0 <= i < links.len() && (#[trigger] links[i]).profile == profile)
                <==> minecraft.dom().contains(profile) && discord.dom().contains(profile) && (
            exists|name: Seq<char>| minecraft[profile].contains(name)) && (exists|name: Seq<char>|
                discord[profile].contains(name))
        }),
        forall|i: int|
            0 <= i < profile_links(minecraft, discord).len() ==> {
                let link = #[trigger] profile_links(minecraft, discord)[i];
                &&& link.minecraft_accounts == listed(minecraft[link.profile])
                &&& link.discord_accounts == listed(discord[link.profile])
            },
{
    let all = minecraft.dom().union(discord.dom());
    let profiles = listed(all);
    crate::order::lemma_in_order_exists::<String>(all);
    assert(profiles.to_set() == all);
    assert(profiles.contains(profile) <==> profiles.to_set().contains(profile));
    assert(profiles.contains(profile) <==> minecraft.dom().contains(profile)
        || discord.dom().contains(profile));
    crate::profiles::law_links(minecraft, discord, profiles, profile);
    let a = accounts_of(minecraft, profile);
    let b = accounts_of(discord, profile);
    assert(a != Set::<Seq<char>>::empty() <==> exists|name: Seq<char>| a.contains(name)) by {
        if !(exists|name: Seq<char>| a.contains(name)) {
            assert(a =~= Set::empty());
        }
    }
    assert(b != Set::<Seq<char>>::empty() <==> exists|name: Seq<char>| b.contains(name)) by {
        if !(exists|name: Seq<char>| b.contains(name)) {
            assert(b =~= Set::empty());
        }
    }
    let links = links_of(minecraft, discord, profiles);
    assert(links == profile_links(minecraft, discord));
    let linked = exists|i: int| 0 <= i < links.len() && (#[trigger] links[i]).profile == profile;
    assert(linked <==> profiles.contains(profile) && crate::profiles::is_linked(
        minecraft,
        discord,
        profile,
    ));
    if minecraft.dom().contains(profile) && discord.dom().contains(profile) {
        assert(a == minecraft[profile] && b == discord[profile]);
    } else if !minecraft.dom().contains(profile) {
        assert(a == Set::<Seq<char>>::empty());
    } else {
        assert(b == Set::<Seq<char>>::empty());
    }
    lemma_links_name_all(minecraft, discord, profiles);
}

proof fn lemma_links_name_all(
    minecraft: Map<Seq<char>, Set<Seq<char>>>,
    discord: Map<Seq<char>, Set<Seq<char>>>,
    profiles: Seq<Seq<char>>,
)
    ensures
        forall|i: int|
            0 <= i < links_of(minecraft, discord, profiles).len() ==> {
                let link = #[trigger] links_of(minecraft, discord, profiles)[i];
                &&& link.minecraft_accounts == listed(minecraft[link.profile])
                &&& link.discord_accounts == listed(discord[link.profile])
            },
    decreases profiles.len(),
{
    if profiles.len() > 0 {
        lemma_links_name_all(minecraft, discord, profiles.drop_last());
        let before = links_of(minecraft, discord, profiles.drop_last());
        let links = links_of(minecraft, discord, profiles);
        assert forall|i: int| 0 <= i < links.len() implies {
            let link = #[trigger] links[i];
            &&& link.minecraft_accounts == listed(minecraft[link.profile])
            &&& link.discord_accounts == listed(discord[link.profile])
        } by {
            if i < before.len() {
                assert(links[i] == before[i]);
            } else {
                let profile = profiles.last();
                assert(links[i].profile == profile);
                assert(minecraft.dom().contains(profile));
                assert(discord.dom().contains(profile));
            }
        }
    }
}

/// How much is read: files of Discord up to eight mebibytes and those of browsers up to
/// 64, texts up to four million bytes, directories ten levels deep, and 25000
/// directories, five levels deep, of those that are looked through for roots.
pub proof fn law_limits()
    ensures
        crate::discord_scan::MAX_DISCORD_FILE_BYTES == 8_388_608,
        crate::discord_scan::MAX_DISCORD_CONTEXT_FILE_BYTES == 67_108_864,
        crate::discord_accounts::MAX_DISCORD_TEXT_BYTES == 4_000_000,
        crate::scanner::MINECRAFT_SCAN_MAX_DEPTH == 10,
        crate::scanner::DISCOVERY_SCAN_MAX_DEPTH == 5,
        crate::scanner::DISCOVERY_MAX_DIRS_PER_PROFILE == 25_000,
        crate::usn_scan::MAX_MFT_ENUM_GUARD == 8_192,
{
}

} // verus!
