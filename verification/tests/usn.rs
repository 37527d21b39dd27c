use alts_checker::forensics::{
    analyze_marked_events, analyze_usn_forensic_signals, is_discord_trace, is_minecraft_log_trace,
    tampering_of, Tampering,
};
use alts_checker::order::OrderedMap;
use alts_checker::time::{
    classify_age_status, filetime_to_datetime, humanize_age_since, Timestamp,
};
use alts_checker::usn_journal::{
    classify_drive_error, no_volumes, order_drives, scan_for_minecraft_discord,
    summarize_global_status, volumes_failed, win32_error_code, DriveAction, DriveScanErrorKind,
    DriveScanOutput, DriveTimes, UsnAssembly, UsnDriveStatus, UsnEvent, UsnJournalReport,
};
use alts_checker::usn_records::{
    describe_reason, file_record_modified_time, first_timestamp, frn_base,
    is_minecraft_dated_log_name, is_minecraft_usn_log_name, looks_like_minecraft_trace,
    parse_usn_buffer, usn_file_name, wide_to_string, FILE_CREATE, FILE_DELETE, RENAME_OLD_NAME,
};
use alts_checker::usn_scan::{
    journal_events, locate_usn_journal_frn, resolve_parent_path, JournalScan, MftNode, MftScan,
    RawUsnEvent,
};

const FILETIME_1970: i64 = 116_444_736_000_000_000;

fn wide(text: &str) -> Vec<u8> {
    text.encode_utf16().flat_map(|unit| unit.to_le_bytes()).collect()
}

fn usn_record(frn: u64, parent: u64, filetime: i64, reason: u32, attributes: u32, name: &str) -> Vec<u8> {
    let name = wide(name);
    let length = (60 + name.len() + 7) / 8 * 8;
    let mut out = vec![0u8; length];
    out[0..4].copy_from_slice(&(length as u32).to_le_bytes());
    out[4..6].copy_from_slice(&2u16.to_le_bytes());
    out[8..16].copy_from_slice(&frn.to_le_bytes());
    out[16..24].copy_from_slice(&parent.to_le_bytes());
    out[32..40].copy_from_slice(&filetime.to_le_bytes());
    out[40..44].copy_from_slice(&reason.to_le_bytes());
    out[52..56].copy_from_slice(&attributes.to_le_bytes());
    out[56..58].copy_from_slice(&(name.len() as u16).to_le_bytes());
    out[58..60].copy_from_slice(&60u16.to_le_bytes());
    out[60..60 + name.len()].copy_from_slice(&name);
    out
}

fn usn_buffer(next: u64, records: &[Vec<u8>]) -> Vec<u8> {
    let mut out = next.to_le_bytes().to_vec();
    for record in records {
        out.extend_from_slice(record);
    }
    out
}

fn at(secs: i64) -> Timestamp {
    Timestamp { secs, nanos: 0 }
}

#[test]
fn usn_scan_returns_report_object() {
    let output = scan_for_minecraft_discord();
    assert!(output.report.is_some());
}

#[test]
fn minecraft_dated_log_name_is_detected() {
    assert!(is_minecraft_dated_log_name("2026-02-18-1.log.gz"));
    assert!(is_minecraft_dated_log_name("2026-02-18-2.log"));
    assert!(!is_minecraft_dated_log_name("scan_latest.log"));
}

#[test]
fn minecraft_usn_log_name_is_strict() {
    assert!(is_minecraft_usn_log_name("latest.log"));
    assert!(is_minecraft_usn_log_name("latest.log.1"));
    assert!(is_minecraft_usn_log_name("2026-02-18-2.log.gz"));
    assert!(!is_minecraft_usn_log_name("latest.log.backup"));
    assert!(!is_minecraft_usn_log_name(
        "R-gpu-0-g6-c200-2026-2-19-13-42-33-231.log"
    ));
    assert!(!is_minecraft_usn_log_name("000005.ldb"));
}

#[test]
fn reports_without_a_journal_say_why() {
    let report = scan_for_minecraft_discord().report.expect("report");
    assert_eq!(report.status, "USN Journal доступен только на Windows");
    let failed = volumes_failed("denied");
    assert_eq!(failed.warnings, vec!["USN: enumerate volumes failed: denied"]);
    assert_eq!(failed.report.expect("report").status, "USN Journal недоступен");
    assert_eq!(
        no_volumes().report.expect("report").status,
        "USN Journal: NTFS диски не найдены"
    );
}

#[test]
fn records_are_read_from_a_buffer() {
    let buffer = usn_buffer(
        77,
        &[
            usn_record(
                0x0001_0000_0000_0005,
                6,
                FILETIME_1970 + 10_000_005,
                FILE_DELETE | 0x40,
                0x20,
                "latest.log",
            ),
            usn_record(7, 8, FILETIME_1970, FILE_CREATE, 0x10, "каталог"),
        ],
    );
    let (next, records) = parse_usn_buffer(&buffer);
    assert_eq!(next, 77);
    assert_eq!(records.len(), 2);
    assert_eq!(records[0].file_reference_number, 0x0001_0000_0000_0005);
    assert_eq!(records[0].parent_file_reference_number, 6);
    assert_eq!(records[0].timestamp_utc, Timestamp { secs: 1, nanos: 500 });
    assert_eq!(records[0].reason, FILE_DELETE);
    assert_eq!(records[0].file_name, "latest.log");
    assert_eq!(records[1].file_name, "каталог");
    assert_eq!(records[1].file_attributes, 0x10);
    assert_eq!(first_timestamp(&buffer), Some(Timestamp { secs: 1, nanos: 500 }));
    assert_eq!(first_timestamp(b"short"), None);
    assert_eq!(frn_base(0x0001_0000_0000_0005), 5);
}

#[test]
fn records_of_version_three_keep_the_low_id() {
    let name = wide("debug.log");
    let length = 76 + name.len();
    let mut record = vec![0u8; length];
    record[0..4].copy_from_slice(&(length as u32).to_le_bytes());
    record[4..6].copy_from_slice(&3u16.to_le_bytes());
    record[8..16].copy_from_slice(&11u64.to_le_bytes());
    record[24..32].copy_from_slice(&12u64.to_le_bytes());
    record[48..56].copy_from_slice(&FILETIME_1970.to_le_bytes());
    record[56..60].copy_from_slice(&RENAME_OLD_NAME.to_le_bytes());
    record[72..74].copy_from_slice(&(name.len() as u16).to_le_bytes());
    record[74..76].copy_from_slice(&76u16.to_le_bytes());
    record[76..].copy_from_slice(&name);
    let (_, records) = parse_usn_buffer(&usn_buffer(1, &[record]));
    assert_eq!(records.len(), 1);
    assert_eq!(records[0].file_reference_number, 11);
    assert_eq!(records[0].parent_file_reference_number, 12);
    assert_eq!(records[0].file_name, "debug.log");
}

#[test]
fn unreadable_names_and_unknown_versions_are_passed_over() {
    let mut lone = usn_record(1, 2, FILETIME_1970, 1, 0, "ab");
    lone[60..62].copy_from_slice(&0xd800u16.to_le_bytes());
    let mut unknown = usn_record(3, 4, FILETIME_1970, 1, 0, "cd");
    unknown[4] = 9;
    let (_, records) = parse_usn_buffer(&usn_buffer(1, &[lone, unknown]));
    assert_eq!(records.len(), 1);
    assert_eq!(records[0].file_name, "<unknown>");
    assert_eq!(wide_to_string(b"a"), None);
    assert_eq!(wide_to_string(&wide("a😀")), Some("a😀".to_string()));
}

#[test]
fn file_record_gives_its_last_change() {
    let mut record = vec![0u8; 96];
    record[20..22].copy_from_slice(&24u16.to_le_bytes());
    record[24..28].copy_from_slice(&0x10u32.to_le_bytes());
    record[28..32].copy_from_slice(&72u32.to_le_bytes());
    record[40..44].copy_from_slice(&48u32.to_le_bytes());
    record[44..46].copy_from_slice(&24u16.to_le_bytes());
    record[56..64].copy_from_slice(&(FILETIME_1970 + 20_000_000).to_le_bytes());
    let mut output = vec![0u8; 8];
    output.extend_from_slice(&(record.len() as u32).to_le_bytes());
    output.extend_from_slice(&record);
    assert_eq!(file_record_modified_time(&output), Some(at(2)));
    assert_eq!(file_record_modified_time(&output[..30]), None);
    assert_eq!(file_record_modified_time(b""), None);
}

#[test]
fn reasons_are_described_by_the_gravest() {
    assert_eq!(describe_reason(FILE_DELETE | FILE_CREATE), "deleted");
    assert_eq!(describe_reason(RENAME_OLD_NAME), "renamed");
    assert_eq!(describe_reason(FILE_CREATE), "created");
    assert_eq!(describe_reason(1), "overwrite");
    assert_eq!(describe_reason(2), "extend");
    assert_eq!(describe_reason(0x20_0000), "stream_change");
    assert_eq!(describe_reason(0x8000_0000), "changed");
}

#[test]
fn file_times_become_times() {
    assert_eq!(filetime_to_datetime(FILETIME_1970), at(0));
    assert_eq!(
        filetime_to_datetime(FILETIME_1970 + 1),
        Timestamp { secs: 0, nanos: 100 }
    );
    assert_eq!(filetime_to_datetime(-15_000_000), at(-11_644_473_601));
    assert_eq!(filetime_to_datetime(i64::MIN).nanos, 0);
}

#[test]
fn ages_are_told_in_words() {
    let now = at(100_000_000);
    assert_eq!(classify_age_status(None, now), "Journal active (age unknown)");
    assert_eq!(
        classify_age_status(Some(at(100_000_000 - 60)), now),
        "Journal active <24h (Likely cleared)"
    );
    assert_eq!(
        classify_age_status(Some(at(100_000_000 - 24 * 3600)), now),
        "Journal active <14d (Possible overwrite)"
    );
    assert_eq!(
        classify_age_status(Some(at(100_000_000 - 14 * 24 * 3600)), now),
        "Journal active >14d (Normal)"
    );
    assert_eq!(humanize_age_since(at(100_000_000 - 30), now), "только что");
    assert_eq!(humanize_age_since(at(100_000_100), now), "только что");
    assert_eq!(humanize_age_since(at(100_000_000 - 31), now), "0 мин назад");
    assert_eq!(humanize_age_since(at(100_000_000 - 3_720), now), "1 ч 2 мин назад");
    assert_eq!(
        humanize_age_since(at(100_000_000 - 90_061), now),
        "1 д 1 ч 1 мин назад"
    );
}

#[test]
fn drive_errors_are_classified_by_code() {
    assert_eq!(win32_error_code(0x8007_0005), 5);
    assert_eq!(win32_error_code(0x8000_4005), 0x8000_4005);
    let denied = classify_drive_error(DriveAction::OpenVolume, 0x8007_0005, "no");
    assert_eq!(denied.kind, DriveScanErrorKind::Permission);
    assert_eq!(denied.message, "open volume requires elevated rights: no");
    let inactive = classify_drive_error(DriveAction::QueryJournal, 0x8007_049b, "off");
    assert_eq!(inactive.kind, DriveScanErrorKind::Unsupported);
    assert_eq!(inactive.message, "query journal unsupported: off");
    let open = classify_drive_error(DriveAction::OpenVolume, 0x8007_049b, "off");
    assert_eq!(open.kind, DriveScanErrorKind::Other);
    assert_eq!(open.message, "open volume failed: off");
}

#[test]
fn assembly_makes_one_report_of_all_drives() {
    let now = at(100_000_000);
    let event = |n: usize| UsnEvent {
        drive: "C:".to_string(),
        path: format!("C:\\{n}"),
        reason: "deleted".to_string(),
        timestamp_utc: "t".to_string(),
    };
    let mut assembly = UsnAssembly::new();
    assembly.add_drive(
        "C:",
        DriveScanOutput {
            records_scanned: 3,
            oldest: Some(at(1)),
            newest: Some(at(100_000_000)),
            last_deletion: None,
            minecraft_events: (0..100).map(event).collect(),
            discord_events: Vec::new(),
            warnings: vec!["w".to_string()],
        },
        DriveTimes {
            oldest: Some("old".to_string()),
            newest: None,
            oldest_date: None,
            last_deletion: None,
        },
        now,
    );
    let error = classify_drive_error(DriveAction::ReadJournal, 3, " broken ");
    assembly.add_failed_drive("D:", false, &error);
    let output = assembly.finish();
    let report = output.report.expect("report");
    assert_eq!(report.minecraft_events.len(), 80);
    assert_eq!(report.scanned_records, 3);
    assert_eq!(report.drives.len(), 1);
    assert_eq!(report.drives[0].age, Some("только что".to_string()));
    assert_eq!(report.status, "USN: проверка завершена");
    assert_eq!(output.scanned_locations, vec!["usn_volume: C:", "usn_volume: D:"]);
    assert_eq!(
        output.warnings,
        vec!["w", "USN D:: пропущен (read journal failed:  broken)"]
    );
}

#[test]
fn drives_are_tallied() {
    let event = |drive: &str| UsnEvent {
        drive: drive.to_string(),
        path: "p".to_string(),
        reason: "r".to_string(),
        timestamp_utc: "t".to_string(),
    };
    let found = |records: usize, minecraft: usize, discord: usize| DriveScanOutput {
        records_scanned: records,
        oldest: None,
        newest: None,
        last_deletion: None,
        minecraft_events: vec![event("m"); minecraft],
        discord_events: vec![event("d"); discord],
        warnings: Vec::new(),
    };
    let no_times = || DriveTimes {
        oldest: None,
        newest: None,
        oldest_date: None,
        last_deletion: None,
    };
    let error = classify_drive_error(DriveAction::OpenVolume, 5, "no");
    let mut assembly = UsnAssembly::new();
    assembly.add_drive("C:", found(7, 50, 3), no_times(), at(9));
    assembly.add_failed_drive("D:", false, &error);
    assembly.add_failed_drive("E:", true, &error);
    assembly.add_drive("F:", found(5, 50, 4), no_times(), at(9));
    let report = assembly.finish().report.expect("report");
    assert_eq!(report.scanned_records, 12);
    let listed: usize = report.drives.iter().map(|drive| drive.records_scanned).sum();
    assert_eq!(listed, report.scanned_records);
    assert_eq!(report.drives.len(), 3);
    assert_eq!(report.minecraft_events.len(), 80);
    assert_eq!(report.discord_events.len(), 7);
    let mut full = UsnAssembly::new();
    full.add_drive("C:", found(usize::MAX, 0, 0), no_times(), at(9));
    full.add_drive("D:", found(2, 0, 0), no_times(), at(9));
    assert_eq!(full.finish().report.expect("report").scanned_records, usize::MAX);
}

#[test]
fn failed_system_drive_is_listed() {
    let mut assembly = UsnAssembly::new();
    let error = classify_drive_error(DriveAction::OpenVolume, 0x8007_0005, "no");
    assembly.add_failed_drive("C:", true, &error);
    let report = assembly.finish().report.expect("report");
    assert_eq!(report.drives[0].status, "Недоступно (нужны права администратора)");
    assert_eq!(report.status, "USN: частично недоступен");
}

#[test]
fn global_status_is_the_most_telling() {
    let drive = |status: &str, records: usize| UsnDriveStatus {
        status: status.to_string(),
        records_scanned: records,
        ..UsnDriveStatus::default()
    };
    assert_eq!(summarize_global_status(&Vec::new()), "USN Journal: данных нет");
    assert_eq!(
        summarize_global_status(&vec![drive("x <14d", 1), drive("y <24h", 1)]),
        "USN: журнал выглядит свежим (<24h), проверь вручную"
    );
    assert_eq!(
        summarize_global_status(&vec![drive("x <14d", 1)]),
        "USN: активность журнала <14 дней (возможна очистка)"
    );
    assert_eq!(summarize_global_status(&vec![drive("ok", 0)]), "USN: данных не найдено");
}

#[test]
fn system_drive_is_read_first() {
    let names = vec!["D:".to_string(), "C:".to_string(), "E:".to_string()];
    assert_eq!(order_drives(&names, "c:\\"), vec![1, 0, 2]);
}

#[test]
fn journal_scan_collects_logs_of_the_game() {
    let mut scan = JournalScan::new(0, 1000);
    assert_eq!(scan.next_read(), Some(0));
    let buffer = usn_buffer(
        500,
        &[
            usn_record(1, 0x0003_0000_0000_0009, FILETIME_1970 + 10_000_000, FILE_DELETE, 0, "Latest.log"),
            usn_record(2, 9, FILETIME_1970, FILE_DELETE, 0, "other.txt"),
            usn_record(3, 9, FILETIME_1970, 0x8000_0000, 0, "latest.log"),
        ],
    );
    assert!(scan.add_buffer(&buffer));
    assert_eq!(scan.records_scanned, 3);
    assert_eq!(scan.oldest, Some(at(0)));
    assert_eq!(scan.newest, Some(at(1)));
    assert_eq!(scan.matched.len(), 1);
    assert_eq!(scan.matched[0].parent_file_reference_number, 9);
    assert_eq!(scan.matched[0].reason, "deleted");
    assert_eq!(scan.next_read(), Some(500));
    assert_eq!(scan.needed_parents().len(), 1);
    assert!(!scan.add_buffer(&usn_buffer(500, &[])));
    assert_eq!(JournalScan::new(0, 3 * 1024 * 1024 * 1024).start, 1024 * 1024 * 1024);
}

#[test]
fn file_table_scan_follows_parents() {
    let mut needed: OrderedMap<u64, bool> = OrderedMap::new();
    needed.insert(9, true);
    let mut scan = MftScan::new(needed);
    assert_eq!(scan.next_read(), Some(0));
    let first = usn_buffer(
        50,
        &[
            usn_record(9, 8, FILETIME_1970, 0, 0x10, "logs"),
            usn_record(11, 5, FILETIME_1970, 0, 0x10, "$Extend"),
        ],
    );
    assert!(scan.add_buffer(&first));
    assert_eq!(locate_usn_journal_frn(&scan.nodes), None);
    let second = usn_buffer(
        90,
        &[
            usn_record(0x0002_0000_0000_000c, 11, FILETIME_1970, 0, 0, "$UsnJrnl"),
            usn_record(8, 5, FILETIME_1970, 0, 0x10, ".minecraft"),
            usn_record(5, 5, FILETIME_1970, 0, 0x10, " "),
        ],
    );
    assert!(!scan.add_buffer(&second));
    assert_eq!(locate_usn_journal_frn(&scan.nodes), Some(0x0002_0000_0000_000c));
    assert_eq!(
        resolve_parent_path("C:", 9, &scan.nodes),
        Some("C:\\.minecraft\\logs".to_string())
    );
    assert_eq!(resolve_parent_path("C:", 77, &scan.nodes), None);
    assert_eq!(resolve_parent_path("C:", 0, &scan.nodes), Some("C:".to_string()));
    assert!(scan.read_failed(0x8007_0026, "end").is_none());
    assert!(scan.read_failed(0x8007_0005, "late").is_none());
}

#[test]
fn file_table_read_fails_where_nothing_was_read() {
    let scan = MftScan::new(OrderedMap::new());
    let error = scan.read_failed(0x8007_0005, "no").expect("error");
    assert_eq!(error.kind, DriveScanErrorKind::Permission);
    assert_eq!(error.message, "enum mft requires elevated rights: no");
}

#[test]
fn repeated_events_count_once() {
    let mut nodes = OrderedMap::new();
    nodes.insert(
        9u64,
        MftNode {
            file_reference_number: 9,
            parent_file_reference_number: 0,
            name: "logs".to_string(),
        },
    );
    let raw = |parent: u64, reason: &str| RawUsnEvent {
        parent_file_reference_number: parent,
        timestamp_utc: at(0),
        reason: reason.to_string(),
        file_name: "latest.log".to_string(),
    };
    let matched = vec![raw(9, "deleted"), raw(9, "deleted"), raw(9, "renamed"), raw(4, "deleted")];
    let times = vec!["t".to_string(); 4];
    let events = journal_events("C:", &matched, &times, &nodes);
    let paths: Vec<&str> = events.iter().map(|event| event.path.as_str()).collect();
    assert_eq!(
        paths,
        vec!["C:\\logs\\latest.log", "C:\\logs\\latest.log", "C:\\latest.log"]
    );
    assert_eq!(events[1].reason, "renamed");
}

#[test]
fn traces_are_told_by_path() {
    assert_eq!(usn_file_name("C:\\a/b.log"), "b.log");
    assert!(looks_like_minecraft_trace("x\\2026-01-02-3.log"));
    assert!(is_minecraft_log_trace("c:\\logs\\2026-01-02-3.log.gz"));
    assert!(!is_minecraft_log_trace("c:\\logs\\other.log"));
    assert!(is_discord_trace("c:\\discord\\local storage\\leveldb\\x"));
    assert!(!is_discord_trace("c:\\discord\\x.txt"));
    assert_eq!(tampering_of("Deleted"), Tampering::Deleted);
    assert_eq!(tampering_of("файл переименован"), Tampering::Renamed);
    assert_eq!(tampering_of("stream_change"), Tampering::Overwritten);
    assert_eq!(tampering_of("created"), Tampering::Nothing);
}

#[test]
fn signals_sum_up_events() {
    let event = |path: &str, reason: &str| UsnEvent {
        drive: "C:".to_string(),
        path: path.to_string(),
        reason: reason.to_string(),
        timestamp_utc: "T".to_string(),
    };
    let report = UsnJournalReport {
        minecraft_events: vec![
            event("C:\\logs\\latest.log", "deleted"),
            event("C:\\logs\\debug.log", "created"),
        ],
        discord_events: vec![event("C:\\discord\\1.ldb", "created")],
        ..UsnJournalReport::default()
    };
    assert_eq!(
        analyze_usn_forensic_signals(&Some(report)),
        vec![
            "USN Minecraft: возможна манипуляция (удалено: 1, переименовано: 0, изменено: 0)",
            "USN Minecraft: [deleted] T | C:\\logs\\latest.log",
            "USN Discord: манипуляций не выявлено (событий: 1)",
        ]
    );
    assert_eq!(
        analyze_usn_forensic_signals(&Some(UsnJournalReport::default())),
        vec!["USN: явных признаков чистки логов не обнаружено"]
    );
    assert!(analyze_usn_forensic_signals(&None).is_empty());
    let mut signals = Vec::new();
    let many: Vec<UsnEvent> = (0..10).map(|n| event(&format!("{n}"), "renamed")).collect();
    analyze_marked_events("X", &many, &vec![true; 10], &mut signals);
    assert_eq!(signals.len(), 9);
}
