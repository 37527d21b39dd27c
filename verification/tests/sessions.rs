use alts_checker::alts::{
    collect_names_from_json, extract_from_line, is_scanned_json, scan_json_file, scan_json_value,
    scan_log_file, scan_log_lines, AltScan,
};
use alts_checker::app_state::{
    build_discord_copy_text, build_minecraft_copy_text, id_or_unknown, usn_event, AppState,
};
use alts_checker::bytes::{read_u16, read_u32, read_u64};
use alts_checker::crc32c::{crc32c, crc32c_extend};
use alts_checker::detect::{extract_version_jar_path, version_jar_path};
use alts_checker::discord_accounts::{discord_id_from_value, DiscordCandidates};
use alts_checker::discord_scan::{discord_outcome, DiscordAlt};
use alts_checker::forensics::{analyze_usn_event_group, TraceKind};
use alts_checker::json::{Json, Member};
use alts_checker::minecraft::{
    is_placeholder_minecraft_username, is_potential_source_given_dated,
    is_structural_minecraft_word, should_scan_log_given_dated,
};
use alts_checker::minecraft_accounts::{
    key_looks_account_related, minecraft_json_likely_has_account_markers, minecraft_outcome,
    read_gzip_file, FileData, MinecraftAlt,
};
use alts_checker::order::OrderedMap;
use alts_checker::readable::{
    ascii_fallback, find_delimiter, is_readable_text, normalize_key_text, try_clean_utf8,
};
use alts_checker::scan_session::{ContextFile, DirectoryState, DiscordScan, MinecraftScan};
use alts_checker::scanner::{
    browser_discord_context_files, browser_userdata_dirs, discord_client_names,
    local_launcher_dirs, opera_leveldb_dirs,
};
use alts_checker::table::read_block_handle;
use alts_checker::theme::{event_line_color, palette, Rgb};
use alts_checker::time::Timestamp;
use alts_checker::usn_journal::{
    is_system_drive, DriveScanError, DriveScanErrorKind, UsnEvent, UsnJournalReport,
};
use alts_checker::usn_records::{
    is_minecraft_dated_log_stem, minecraft_rotated_log_name, parse_standard_info_modified_time,
};
use alts_checker::usn_scan::{drive_output, index_warning, JournalScan};
use alts_checker::viewer::{escape_text, format_hex_preview, is_displayable_text, ScanResult};
use alts_checker::wal::read_length_prefixed_bytes;
use std::io::Write;

const NOW_MS: i64 = 1_767_225_600_000;
const FILETIME_1970: i64 = 116_444_736_000_000_000;

fn text(value: &str) -> Json {
    Json::Text(value.to_string())
}

fn member(key: &str, value: Json) -> Member {
    Member {
        key: key.to_string(),
        value,
    }
}

fn gzip(data: &[u8]) -> Vec<u8> {
    let mut encoder = flate2::write::GzEncoder::new(Vec::new(), flate2::Compression::default());
    encoder.write_all(data).expect("write");
    encoder.finish().expect("finish")
}

fn bytes(data: &[u8]) -> FileData {
    FileData::Bytes(data.to_vec())
}

fn minecraft(username: &str) -> MinecraftAlt {
    MinecraftAlt {
        username: username.to_string(),
        sources: Vec::new(),
    }
}

fn discord(username: &str, id: Option<&str>) -> DiscordAlt {
    DiscordAlt {
        username: username.to_string(),
        id: id.map(str::to_string),
        sources: Vec::new(),
    }
}

#[test]
fn game_files_are_taken_in_one_by_one() {
    let mut scan = MinecraftScan::new(2);
    scan.visit_directory("LOGS");
    scan.visit_directory("saves");
    scan.read_log("logs\\latest.log", bytes(b"Setting user: First_1\n"));
    scan.read_log(
        "logs\\2026-01-01-1.log.gz",
        bytes(&gzip(b"Setting user: Second_2\n")),
    );
    scan.read_json("accounts.json", bytes(b"{\"username\":\"Third_3\"}"));
    scan.read_log("logs\\debug.log", FileData::ReadFailed("gone".to_string()));
    assert_eq!(scan.stats.minecraft_roots, 2);
    assert_eq!(scan.stats.logs_directories_found, 1);
    assert_eq!(scan.stats.minecraft_files_scanned, 4);
    assert_eq!(scan.stats.minecraft_log_files_scanned, 3);
    assert_eq!(scan.stats.minecraft_json_files_scanned, 1);
    assert_eq!(scan.stats.discord_files_scanned, 0);
    assert_eq!(scan.warnings, vec!["Failed to read logs\\debug.log: gone"]);
    let (names, candidates) = scan.candidates.as_lists();
    assert_eq!(names, &vec!["first_1", "second_2", "third_3"]);
    assert_eq!(candidates[1].username, "Second_2");
}

#[test]
fn reading_more_files_keeps_what_was_found() {
    let mut scan = MinecraftScan::new(1);
    scan.read_log("a.log", bytes(b"Setting user: Kept_1\n"));
    scan.read_json("broken.json", FileData::OpenFailed("denied".to_string()));
    let warnings = scan.warnings.clone();
    scan.read_json("accounts.json", bytes(b"{\"username\":\"kept_1\"}"));
    scan.read_log("b.log", bytes(b"nothing here\n"));
    let (names, candidates) = scan.candidates.as_lists();
    assert_eq!(names, &vec!["kept_1"]);
    assert_eq!(candidates[0].username, "Kept_1");
    assert_eq!(scan.warnings, warnings);
    assert_eq!(warnings.len(), 1);
}

#[test]
fn discord_places_are_taken_in_one_by_one() {
    let mut scan = DiscordScan::new();
    assert!(!scan.read_leveldb_dir("missing", DirectoryState::Missing));
    assert!(!scan.read_leveldb_dir("file", DirectoryState::NotADirectory));
    assert!(scan.read_leveldb_dir(
        "bad",
        DirectoryState::Parsed(Err("broken".to_string()))
    ));
    let empty = ScanResult {
        target: "empty".to_string(),
        files: Vec::new(),
        warnings: Vec::new(),
    };
    assert!(scan.read_leveldb_dir("empty", DirectoryState::Parsed(Ok(empty))));
    scan.listing_failed("bad", "denied");
    assert_eq!(scan.scanned_dirs, vec!["bad", "empty"]);
    assert_eq!(scan.warnings[0], "Discord path is not a directory: file");
    assert_eq!(
        scan.warnings[scan.warnings.len() - 1],
        "Failed to read Discord LevelDB directory bad: denied"
    );
    scan.read_raw_file("x.ldb", b"nothing of an owner");
    assert_eq!(scan.files_scanned, 0);
    scan.read_raw_file(
        "y.ldb",
        b"MultiAccountStore {\"users\":[{\"id\":\"123456789012345678\",\"username\":\"owner_name\"}]}",
    );
    assert_eq!(scan.files_scanned, 1);
    scan.read_context_file("p\\History", ContextFile::MetadataFailed("a".to_string()));
    scan.read_context_file("p\\Web Data", ContextFile::ReadFailed("b".to_string()));
    scan.read_context_file(
        "p\\Shortcuts",
        ContextFile::Bytes(
            b"https://discord.com/users/223456789012345678 is the address of a profile, long enough"
                .to_vec(),
        ),
    );
    assert_eq!(scan.files_scanned, 2);
    assert_eq!(scan.scanned_context_files, vec!["p\\Shortcuts"]);
    let tail = &scan.warnings[scan.warnings.len() - 2..];
    assert_eq!(tail[0], "Failed to read metadata for p\\History: a");
    assert_eq!(tail[1], "Failed to read p\\Web Data: b");
    let ids: Vec<Option<String>> = discord_outcome(scan.candidates)
    .accounts
    .into_iter()
    .map(|account| account.id)
    .collect();
    assert!(ids.contains(&Some("123456789012345678".to_string())));
    assert!(ids.contains(&Some("223456789012345678".to_string())));
}

#[test]
fn nothing_found_gives_nothing() {
    let outcome = minecraft_outcome(OrderedMap::new());
    assert!(outcome.accounts.is_empty());
    let none = discord_outcome(DiscordCandidates::at(NOW_MS));
    assert!(none.accounts.is_empty());
}

#[test]
fn themes_have_their_colors() {
    let dark = palette(true);
    let light = palette(false);
    assert_eq!(dark.background, Rgb { r: 30, g: 31, b: 34 });
    assert_eq!(light.surface, Rgb { r: 255, g: 255, b: 255 });
    assert_eq!(event_line_color("[10:00:00] nothing special", dark), dark.muted);
    assert_eq!(event_line_color("[10:00:00] nothing special", light), light.muted);
}

#[test]
fn drive_results_hold_what_was_scanned() {
    let first = Timestamp { secs: 5, nanos: 0 };
    let mut scan = JournalScan::new(0, 10);
    scan.records_scanned = 7;
    scan.oldest = Some(Timestamp { secs: 6, nanos: 0 });
    scan.newest = Some(Timestamp { secs: 9, nanos: 0 });
    let output = drive_output(scan, Some(first), None, Vec::new(), vec!["w".to_string()]);
    assert_eq!(output.records_scanned, 7);
    assert_eq!(output.oldest, Some(first));
    assert_eq!(output.newest, Some(Timestamp { secs: 9, nanos: 0 }));
    assert_eq!(output.warnings, vec!["w"]);
    assert!(output.discord_events.is_empty());
    let mut other = JournalScan::new(0, 10);
    other.oldest = Some(first);
    let without = drive_output(other, None, Some(first), Vec::new(), Vec::new());
    assert_eq!(without.oldest, Some(first));
    assert_eq!(without.last_deletion, Some(first));
    let error = DriveScanError {
        kind: DriveScanErrorKind::Other,
        message: " enum mft failed: x ".to_string(),
    };
    assert_eq!(
        index_warning("C:", &error),
        "USN C:: MFT index unavailable (enum mft failed: x)"
    );
    assert!(is_system_drive("C:", "c:\\"));
    assert!(!is_system_drive("D:", "C:"));
}

#[test]
fn standard_information_gives_the_last_change() {
    let mut record = vec![0u8; 24];
    record[20..22].copy_from_slice(&24u16.to_le_bytes());
    let mut attribute = vec![0u8; 24];
    attribute[0..4].copy_from_slice(&0x10u32.to_le_bytes());
    attribute[4..8].copy_from_slice(&72u32.to_le_bytes());
    attribute[16..20].copy_from_slice(&48u32.to_le_bytes());
    attribute[20..22].copy_from_slice(&24u16.to_le_bytes());
    let mut content = vec![0u8; 48];
    content[8..16].copy_from_slice(&(FILETIME_1970 + 30_000_000).to_le_bytes());
    record.extend_from_slice(&attribute);
    record.extend_from_slice(&content);
    assert_eq!(
        parse_standard_info_modified_time(&record),
        Some(Timestamp { secs: 3, nanos: 0 })
    );
    assert_eq!(parse_standard_info_modified_time(&record[..20]), None);
}

#[test]
fn rotated_logs_are_told_by_name() {
    assert!(is_minecraft_dated_log_stem("2026-02-18-12"));
    assert!(!is_minecraft_dated_log_stem("2026-02-18"));
    assert!(!is_minecraft_dated_log_stem("2026-2-18-1"));
    assert!(minecraft_rotated_log_name("latest.log.12"));
    assert!(minecraft_rotated_log_name("debug.log.1"));
    assert!(!minecraft_rotated_log_name("latest.log."));
    assert!(!minecraft_rotated_log_name("2026-02-18-1.log.gz"));
}

#[test]
fn lines_give_the_names_of_all_patterns() {
    let mut scan = AltScan::new();
    extract_from_line(
        &mut scan,
        &Some("Client_1".to_string()),
        &None,
        &Some("Auth_1".to_string()),
        &Some("x".to_string()),
        "a.log",
    );
    let names: Vec<&str> = scan.accounts.iter().map(|a| a.name.as_str()).collect();
    assert_eq!(names, vec!["Client_1", "Auth_1"]);
    let lines = vec![
        "[10:00:00] [Client thread/INFO]: Setting user: Client_1".to_string(),
        "displayName=Shown_1, x".to_string(),
    ];
    scan_log_lines(&mut scan, &lines, "b.log");
    scan_log_file(&mut scan, "c.txt", b"displayName=Never_1, x");
    scan_log_file(&mut scan, "c.log", b"displayName=Other_1, x");
    let found: Vec<(&str, &str)> = scan
        .accounts
        .iter()
        .map(|a| (a.name.as_str(), a.source.as_str()))
        .collect();
    assert_eq!(
        found,
        vec![
            ("Client_1", "a.log"),
            ("Auth_1", "a.log"),
            ("Shown_1", "b.log"),
            ("Other_1", "c.log"),
        ]
    );
}

#[test]
fn json_names_are_found_at_any_depth() {
    assert!(is_scanned_json("C:\\game\\Options.JSON"));
    assert!(!is_scanned_json("C:\\game\\options.txt"));
    assert!(!is_scanned_json("C:\\game\\versions\\a\\a.json"));
    let value = Json::Object(vec![
        member("displayName", text("Outer_1")),
        member(
            "list",
            Json::List(vec![
                Json::Null,
                Json::Flag(true),
                Json::Number("1".to_string()),
                Json::Object(vec![member("username", text("Inner_1"))]),
            ]),
        ),
        member("other", text("Never_1")),
    ]);
    let mut names = vec!["Before".to_string()];
    collect_names_from_json(&value, &mut names);
    assert_eq!(names, vec!["Before", "Outer_1", "Inner_1"]);
    let mut scan = AltScan::new();
    scan_json_value(&mut scan, &value, "a.json");
    scan_json_file(&mut scan, "b.json", "{\"name\":\"Parsed_1\"}");
    scan_json_file(&mut scan, "c.json", "{");
    let found: Vec<&str> = scan.accounts.iter().map(|a| a.name.as_str()).collect();
    assert_eq!(found, vec!["Outer_1", "Inner_1", "Parsed_1"]);
}

#[test]
fn copied_texts_have_a_line_each() {
    assert_eq!(
        build_minecraft_copy_text(&vec![minecraft("One"), minecraft("Two")]),
        "One\nTwo"
    );
    assert_eq!(build_minecraft_copy_text(&Vec::new()), "");
    let with_id = discord("ann", Some("123456789012345678"));
    assert_eq!(id_or_unknown(&with_id), "123456789012345678");
    assert_eq!(id_or_unknown(&discord("bob", None)), "unknown");
    let shown = build_discord_copy_text(&vec![with_id, discord("bob", None)]);
    assert_eq!(shown.lines().count(), 2);
    assert!(shown.starts_with("ann"));
}

#[test]
fn events_are_logged_with_their_time() {
    let mut state = AppState::new("10:00:00");
    let before = state.event_log.len();
    state.push_event("10:00:01", "hello");
    assert_eq!(state.event_log.len(), before + 1);
    assert!(state.event_log[before].contains("10:00:01"));
    assert!(state.event_log[before].ends_with("hello"));
    let report = UsnJournalReport {
        status: "USN: ok".to_string(),
        scanned_records: 12,
        ..UsnJournalReport::default()
    };
    assert_eq!(usn_event(&report), "USN: ok | records 12");
    let other = UsnJournalReport {
        status: "ok".to_string(),
        ..UsnJournalReport::default()
    };
    assert_eq!(usn_event(&other), "USN: ok | records 0");
}

#[test]
fn version_archives_lie_below_versions() {
    assert_eq!(
        version_jar_path("C:\\game", "1.20.1"),
        "C:\\game\\versions\\1.20.1\\1.20.1.jar"
    );
    assert_eq!(
        extract_version_jar_path("C:\\game\\versions\\1.20.1\\1.20.1.jar"),
        Some("C:\\game\\versions\\1.20.1\\1.20.1.jar".to_string())
    );
    assert_eq!(extract_version_jar_path("C:\\libs\\other.jar"), None);
}

#[test]
fn ids_are_texts_or_numbers() {
    assert_eq!(
        discord_id_from_value(&text("123456789012345678"), NOW_MS),
        Some("123456789012345678".to_string())
    );
    assert_eq!(
        discord_id_from_value(&Json::Number("123456789012345678".to_string()), NOW_MS),
        Some("123456789012345678".to_string())
    );
    assert_eq!(discord_id_from_value(&Json::Flag(true), NOW_MS), None);
    assert_eq!(discord_id_from_value(&text("12"), NOW_MS), None);
}

#[test]
fn groups_of_events_add_signals() {
    let event = |reason: &str| UsnEvent {
        drive: "C:".to_string(),
        path: "C:\\logs\\latest.log".to_string(),
        reason: reason.to_string(),
        timestamp_utc: "T".to_string(),
    };
    let mut signals = vec!["first".to_string()];
    analyze_usn_event_group(
        "Minecraft",
        &vec![event("created")],
        TraceKind::Minecraft,
        &mut signals,
    );
    assert_eq!(
        signals,
        vec!["first", "USN Minecraft: манипуляций не выявлено (событий: 1)"]
    );
    let mut none = Vec::new();
    analyze_usn_event_group("Discord", &Vec::new(), TraceKind::Discord, &mut none);
    assert!(none.is_empty());
}

#[test]
fn words_of_the_game_are_no_names() {
    assert!(is_structural_minecraft_word("fabric"));
    assert!(!is_structural_minecraft_word("fabrics"));
    assert!(is_placeholder_minecraft_username("player123"));
    assert!(!is_placeholder_minecraft_username("player123456"));
    assert!(!is_placeholder_minecraft_username("player"));
    assert!(is_potential_source_given_dated("2026-01-01-1.log", true));
    assert!(should_scan_log_given_dated("2026-01-01-1.log", 5, true));
    assert!(!should_scan_log_given_dated("odd.txt", 5, false));
    assert!(key_looks_account_related("account"));
    assert!(!key_looks_account_related("colour"));
    assert!(minecraft_json_likely_has_account_markers("{\"selectedUser\":{}}"));
    assert!(!minecraft_json_likely_has_account_markers("{\"colour\":1}"));
}

#[test]
fn compressed_files_are_read_whole() {
    assert_eq!(
        read_gzip_file("a.gz", bytes(&gzip(b"content"))),
        Ok(b"content".to_vec())
    );
    let packed = gzip(b"content");
    let error = read_gzip_file("a.gz", bytes(&packed[..packed.len() - 4])).expect_err("error");
    assert!(error.starts_with("Failed to read gzip a.gz: "));
    assert_eq!(
        read_gzip_file("a.gz", FileData::OpenFailed("no".to_string())),
        Err("Failed to open gzip a.gz: no".to_string())
    );
}

#[test]
fn shown_texts_are_cleaned() {
    assert!(is_readable_text("text"));
    assert!(!is_readable_text(""));
    assert!(is_displayable_text("two words"));
    assert!(!is_displayable_text("\u{1}\u{2}\u{3}"));
    assert_eq!(escape_text("a\nb\tc\r\\"), "a\\nb\\tc\\r\\");
    assert_eq!(format_hex_preview(&[1, 0xab, 3], 4), "0x01ab... (3 bytes)");
    assert_eq!(format_hex_preview(&[1, 0xab], 4), "0x01ab (2 bytes)");
    assert_eq!(try_clean_utf8(b"plain"), Some("plain".to_string()));
    assert_eq!(try_clean_utf8(&[0xff, 0xfe]), None);
    assert_eq!(ascii_fallback(b"abcdef", 3), "abc");
    assert_eq!(ascii_fallback(&[b'a', 0x00, b'b'], 9).chars().count(), 3);
    assert_eq!(normalize_key_text("a/^0b^0c"), "a | b | c");
    assert_eq!(find_delimiter(b"xx\x00\x01yy", b"\x00\x01"), Some(2));
    assert_eq!(find_delimiter(b"xx", b""), None);
    assert_eq!(find_delimiter(b"xx", b"yy"), None);
}

#[test]
fn fixed_places_are_known() {
    assert_eq!(discord_client_names(), vec!["discord", "discordcanary", "discordptb"]);
    assert_eq!(browser_discord_context_files(), vec!["History", "Web Data", "Shortcuts"]);
    assert_eq!(browser_userdata_dirs().len(), 5);
    assert_eq!(opera_leveldb_dirs().len(), 2);
    assert_eq!(local_launcher_dirs()[3], "PrismLauncher");
}

#[test]
fn checksums_go_on_where_they_stopped() {
    let whole = crc32c(b"123456789");
    let half = crc32c_extend(u32::MAX, b"1234");
    assert_eq!(!crc32c_extend(half, b"56789"), whole);
    assert_eq!(crc32c_extend(half, b""), half);
}

#[test]
fn numbers_are_read_from_the_low_byte_up() {
    let data = [0, 1, 2, 3, 4, 5, 6, 7, 8];
    assert_eq!(read_u16(&data, 1), 0x0201);
    assert_eq!(read_u32(&data, 1), 0x0403_0201);
    assert_eq!(read_u64(&data, 1), 0x0807_0605_0403_0201);
}

#[test]
fn handles_and_prefixed_bytes_move_the_position() {
    let mut position = 0;
    let handle = read_block_handle(&[0x80, 0x01, 0x05, 0xff], &mut position).expect("handle");
    assert_eq!((handle.offset, handle.size), (128, 5));
    assert_eq!(position, 3);
    let mut at = 1;
    assert_eq!(
        read_length_prefixed_bytes(&[9, 2, b'a', b'b', 7], &mut at, "key"),
        Ok(b"ab".to_vec())
    );
    assert_eq!(at, 4);
    let mut short = 0;
    assert!(read_length_prefixed_bytes(&[5, b'a'], &mut short, "key").is_err());
    assert_eq!(short, 1);
}
