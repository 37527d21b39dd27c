use alts_checker::alts::{
    detect_alt_accounts, lines_of_unpacked, load_game_dirs, log_kind_of_path, log_lines_of,
    normalize_username, scan_log_file, should_skip_json, AltScan, GameDirFiles, JsonFile, LogFile, LogKind, RunningGame,
};
use alts_checker::app_state::{
    alts_check_finished, build_all_copy_text, compact_source_path, discord_link_matches_account,
    discord_title, event_line_tone, find_explanation, format_event, humanize_minecraft_reason,
    links_of_discord_account, links_of_minecraft_account, minecraft_title, parse_trusted_reason,
    preview_list, source_label, AppState, EventTone, StatusState,
};
use alts_checker::detect::{
    analyze_process, arg_value, build_version_jar_path, collect_mods, command_line,
    detect_game_dir, detect_indicators, detect_launcher, detect_loader, detect_mods_dir,
    detect_version_id, detect_version_jar, extract_instance_path, extract_mc_version,
    extract_version_from_classpath, extract_version_from_cmdline,
    extract_version_jar_from_classpath, extract_version_jar_from_cmdline, is_addons_dir_name,
    is_game_process_name, is_mc_version, is_mod_file, normalize_launcher,
    preferred_addons_dir, property_value, read_version_json, strip_quotes, version_in_json,
    version_of_id, DiskFacts, ModEntry, ModsFacts, ProcessFacts,
};
use alts_checker::discord_scan::{DiscordAlt, DiscordScanOutcome};
use alts_checker::json::{Json, Member};
use alts_checker::minecraft_accounts::{
    MinecraftAlt, MinecraftDetectionDebug, MinecraftScanOutcome,
};
use alts_checker::paths::{is_same_path, join_path};
use alts_checker::profiles::{ProfileAccounts, ProfileLink};
use alts_checker::readable::{
    decode_key_text, decode_value_full, looks_encoded_blob, normalize_line_text, preview_text,
    pretty_json, sanitize_json, text_value_given,
};
use alts_checker::readable_records::{
    build_readable_records, build_scan_export_lines, export_scan_text,
};
use alts_checker::scanner::{
    check_cancelled, discovery_step, home_launcher_dirs, is_browser_profile_name,
    is_cancelled_error, roaming_launcher_dirs, run_scan, scan, should_skip_windows_profile_name,
    sorted_texts, DiscoveryStep, RunEvent, RunStep, ScanFindings, ScanOptions, ScanReport,
    ScanStats, ScannedPlaces, SCAN_CANCELLED_MESSAGE,
};
use alts_checker::text::{
    char_is_control, char_is_space, lines_of, parse_usize, to_lower,
};
use alts_checker::usn_journal::{scan_for_minecraft_discord, UsnScanOutput};
use alts_checker::viewer::{
    LdbEntry, LdbFile, ParsedFile, ParsedFileContent, ScanResult, TextLogFile, WalBatch, WalFile,
    WalOperation, WalOperationKind,
};
use alts_checker::webview2::{
    client_key, ensure_runtime_or_open_installer, is_installed_version, RuntimeCheck, RuntimeStep,
};
use std::io::Write;

fn strings(items: &[&str]) -> Vec<String> {
    items.iter().map(|item| item.to_string()).collect()
}

fn gzip(data: &[u8]) -> Vec<u8> {
    let mut encoder =
        flate2::write::GzEncoder::new(Vec::new(), flate2::Compression::default());
    encoder.write_all(data).expect("gzip in memory");
    encoder.finish().expect("gzip in memory")
}

fn no_findings() -> ScanFindings {
    ScanFindings {
        minecraft: MinecraftScanOutcome {
            accounts: Vec::new(),
            debug: Vec::new(),
            profile_accounts: ProfileAccounts::new(),
        },
        discord: DiscordScanOutcome {
            accounts: Vec::new(),
            profile_accounts: ProfileAccounts::new(),
        },
        usn: UsnScanOutput::default(),
        places: ScannedPlaces {
            minecraft_roots: Vec::new(),
            discord_dirs: Vec::new(),
            discord_context_files: Vec::new(),
        },
        warnings: Vec::new(),
        stats: ScanStats::new(),
    }
}

fn options(cancel_flag: Option<bool>) -> ScanOptions {
    ScanOptions {
        include_known_launcher_paths: true,
        extra_minecraft_root: None,
        discord_leveldb_dir: None,
        cancel_flag,
    }
}

fn empty_report() -> ScanReport {
    scan(&options(None), Ok(no_findings()), "now".to_string()).expect("report")
}

#[test]
fn character_classes_agree_with_the_standard_library() {
    for code in 0..=0x10ffffu32 {
        if let Some(c) = char::from_u32(code) {
            assert_eq!(char_is_space(c), c.is_whitespace());
            assert_eq!(char_is_control(c), c.is_control());
        }
    }
}

#[test]
fn text_routines_agree_with_the_standard_library() {
    for text in ["", "a", "a\n", "\r\n\r\nx\r", "один\nдва\r\n", "\n\n"] {
        let lines: Vec<String> = text.lines().map(|line| line.to_string()).collect();
        assert_eq!(lines_of(text), lines);
        assert_eq!(to_lower(text), text.to_ascii_lowercase());
    }
    for text in ["", "+", "+5", "007", "18446744073709551615", "18446744073709551616", "1a", "-1"] {
        let chars: Vec<char> = text.chars().collect();
        assert_eq!(parse_usize(&chars), text.parse::<usize>().ok());
    }
}

#[test]
fn arguments_are_found_in_both_forms() {
    let args = strings(&["java", "--VERSION", "\"1.20\"", "--uuid=x", "-Dp='v'", "--end"]);
    assert_eq!(arg_value(&args, "--version"), Some("1.20".to_string()));
    assert_eq!(arg_value(&args, "--uuid"), Some("x".to_string()));
    assert_eq!(arg_value(&args, "--end"), None);
    assert_eq!(property_value(&args, "-Dp"), Some("v".to_string()));
    assert_eq!(property_value(&args, "-Dq"), None);
    assert_eq!(strip_quotes("\"'a'\""), "a");
    assert!(detect_indicators(&args, ""));
    assert!(!detect_indicators(&strings(&["java"]), "java"));
    assert!(detect_indicators(&strings(&[]), "x net.minecraft.client.main.main y"));
}

#[test]
fn versions_are_read_from_names() {
    assert!(is_mc_version("1.20.1"));
    assert!(!is_mc_version("1."));
    assert!(!is_mc_version("120"));
    assert!(!is_mc_version("1.20a"));
    assert_eq!(extract_mc_version(" fabric-loader-0.15-1.20.1 "), Some("1.20.1".to_string()));
    assert_eq!(extract_mc_version("1.20.1-forge-47.1.0"), Some("47.1.0".to_string()));
    assert_eq!(extract_mc_version("none"), None);
    assert_eq!(version_of_id("Unknown"), "Unknown");
    assert_eq!(version_of_id("custom"), "custom");
    assert_eq!(
        read_version_json("{\"id\":\"x-1.19\",\"inheritsFrom\":\"1.20\"}"),
        Some("1.20".to_string())
    );
    assert_eq!(read_version_json("nonsense"), None);
    let described = Json::Object(vec![Member {
        key: "id".to_string(),
        value: Json::Text("forge-1.12.2".to_string()),
    }]);
    assert_eq!(version_in_json(&described), Some("1.12.2".to_string()));
}

#[test]
fn versions_are_read_from_paths() {
    let classpath = "C:\\lib\\a.jar;C:\\Game\\Versions\\1.20.1\\1.20.1.jar";
    assert_eq!(extract_version_from_classpath(classpath), Some("1.20.1".to_string()));
    assert_eq!(
        extract_version_jar_from_classpath(classpath),
        Some("C:\\Game\\versions\\1.20.1\\1.20.1.jar".to_string())
    );
    assert_eq!(extract_version_jar_from_classpath("a;b"), None);
    assert_eq!(
        extract_version_from_cmdline("java -cp c:\\g\\versions\\1.8\\1.8.jar"),
        Some("1.8".to_string())
    );
    assert_eq!(
        extract_version_jar_from_cmdline("java -cp \"c:\\g\\versions\\1.8\\1.8.jar"),
        Some("c:\\g\\versions\\1.8\\1.8.jar".to_string())
    );
    assert_eq!(extract_version_jar_from_cmdline("c:\\versions\\1.8\\other.jar"), None);
    assert_eq!(
        build_version_jar_path("D:/g", "1.9"),
        Some("D:\\g\\versions\\1.9\\1.9.jar".to_string())
    );
    assert_eq!(join_path("C:", "x"), "C:x");
    assert_eq!(join_path("a\\", "b"), "a\\b");
    assert_eq!(join_path("a", "D:x"), "D:x");
    assert_eq!(join_path("", "b"), "b");
    assert_eq!(join_path("C:\\a\\b", "\\c"), "C:\\c");
    assert_eq!(join_path("C:\\a", "\\\\server\\share\\x"), "\\\\server\\share\\x");
    assert_eq!(join_path("\\\\?\\C:\\a", "b/../c"), "\\\\?\\C:\\a\\c");
    assert_eq!(join_path("\\\\?\\C:\\a\\b", "/c"), "\\\\?\\C:\\c");
    assert_eq!(join_path("\\\\?\\C:", "x"), "\\\\?\\C:\\x");
    assert_eq!(join_path("\\\\?\\C:\\", "."), "\\\\?\\C:\\");
}

#[test]
fn installations_are_detected() {
    let args = strings(&["java", "-cp", "C:\\g\\versions\\1.16\\1.16.jar"]);
    let none: Option<String> = None;
    assert_eq!(detect_version_id(&args, "", &none, None), "1.16");
    let dir = Some("C:\\g".to_string());
    let bare = strings(&["java"]);
    assert_eq!(
        detect_version_id(&bare, "", &dir, Some("1.7.10".to_string())),
        "1.7.10"
    );
    assert_eq!(detect_version_id(&bare, "", &none, Some("1.7.10".to_string())), "Unknown");
    assert_eq!(
        detect_version_id(&strings(&["--fml.mcVersion", "1.18"]), "", &none, None),
        "1.18"
    );
    assert_eq!(
        detect_version_jar(&bare, "", &dir, "1.7.10", true),
        "C:\\g\\versions\\1.7.10\\1.7.10.jar"
    );
    assert_eq!(detect_version_jar(&bare, "", &dir, "1.7.10", false), "Unknown");
    assert_eq!(detect_version_jar(&bare, "", &none, "1.7.10", true), "Unknown");
}

#[test]
fn game_directories_are_detected() {
    let none: Option<String> = None;
    assert_eq!(
        detect_game_dir(&strings(&["--gameDir", "D:\\mc"]), "", &none),
        Some("D:\\mc".to_string())
    );
    assert_eq!(
        detect_game_dir(&strings(&[]), "c:\\x\\modrinthapp\\profiles\\my pack\\mods", &none),
        Some("c:\\x\\modrinthapp\\profiles\\my pack".to_string())
    );
    assert_eq!(
        detect_game_dir(&strings(&[]), "", &Some("C:\\R".to_string())),
        Some("C:\\R\\.minecraft".to_string())
    );
    assert_eq!(detect_game_dir(&strings(&[]), "", &none), None);
    assert_eq!(extract_instance_path("a/.tlauncher\\profiles\\", ".tlauncher\\profiles\\"), None);
}

#[test]
fn loaders_and_launchers_are_named() {
    let none = strings(&[]);
    assert_eq!(detect_loader(&none, "labymod and forge"), "LabyMod");
    assert_eq!(detect_loader(&none, "net.fabricmc"), "Fabric");
    assert_eq!(detect_loader(&none, "fml"), "Forge");
    assert_eq!(detect_loader(&none, "quilt"), "Quilt");
    assert_eq!(detect_loader(&none, "net.minecraft.client.main.main"), "Vanilla");
    assert_eq!(detect_loader(&strings(&["x.FMLTweaker"]), ""), "Forge");
    assert_eq!(detect_loader(&none, ""), "Unknown");
    assert_eq!(normalize_launcher("My-Legacy"), "Legacy");
    assert_eq!(normalize_launcher("minecraft-launcher"), "Official");
    assert_eq!(normalize_launcher("Strange"), "Strange");
    let branded = strings(&["-Dminecraft.launcher.brand=Lunar"]);
    assert_eq!(detect_launcher(&branded, "", ""), "Lunar");
    assert_eq!(detect_launcher(&none, "", "C:\\.TLauncher\\legacy\\x.exe"), "Legacy");
    assert_eq!(detect_launcher(&none, "tlauncher", ""), "TLauncher");
    assert_eq!(detect_launcher(&none, "", "C:\\MinecraftLauncher.exe"), "TLauncher");
    assert_eq!(detect_launcher(&none, "x.lunarclient", ""), "Lunar");
    assert_eq!(detect_launcher(&none, "", ""), "Unknown");
}

#[test]
fn modifications_are_found_and_sorted() {
    let facts = ModsFacts {
        has_laby_dir: false,
        addons_dir: Some("A".to_string()),
        mods_is_dir: true,
        lunar_mods_is_dir: true,
        appdata_lunar_mods: None,
    };
    let dir = Some("C:\\g".to_string());
    assert_eq!(detect_mods_dir(&None, "", "", &facts), "Not found");
    assert_eq!(detect_mods_dir(&dir, "LABYMOD", "", &facts), "A");
    assert_eq!(detect_mods_dir(&dir, "Forge", "Lunar", &facts), "C:\\g\\mods");
    let lunar = ModsFacts {
        mods_is_dir: false,
        ..facts
    };
    assert_eq!(
        detect_mods_dir(&dir, "Forge", "Lunar", &lunar),
        "C:\\g\\.lunarclient\\mods"
    );
    assert_eq!(detect_mods_dir(&dir, "Forge", "Other", &lunar), "Not found");
    assert_eq!(preferred_addons_dir("1.8"), Some("addons-1.8".to_string()));
    assert_eq!(preferred_addons_dir("Unknown"), None);
    assert!(is_addons_dir_name("Addons-1.16"));
    assert!(is_mod_file("C:\\mods\\a.JAR"));
    assert!(!is_mod_file("C:\\mods\\a.txt"));
    let entry = |name: &str, size: u64| ModEntry {
        name: name.to_string(),
        size_bytes: size,
        path: name.to_string(),
    };
    let sorted = collect_mods(&vec![entry("b", 1), entry("A", 2), entry("B", 3)]);
    let sizes: Vec<u64> = sorted.iter().map(|m| m.size_bytes).collect();
    assert_eq!(sizes, vec![2, 1, 3]);
}

#[test]
fn processes_are_described() {
    assert!(is_game_process_name("JavaW.exe"));
    assert_eq!(command_line(&strings(&["a", "b"]), "n"), "a b");
    assert_eq!(command_line(&strings(&[]), "n"), "n");
    let process = ProcessFacts {
        pid: 7,
        name: "javaw.exe".to_string(),
        args: strings(&[
            "java",
            "net.fabricmc.loader.KnotClient",
            "--gameDir",
            "C:\\Game",
            "--version",
            "fabric-loader-0.15-1.20.1",
            "--accessToken",
            "t",
        ]),
        exe_path: None,
        parent_pid: None,
        parent_exe: Some("C:\\Modrinth\\app.exe".to_string()),
    };
    let disk = DiskFacts {
        appdata: None,
        installed: None,
        jar_is_file: true,
        mods: ModsFacts {
            has_laby_dir: false,
            addons_dir: None,
            mods_is_dir: true,
            lunar_mods_is_dir: false,
            appdata_lunar_mods: None,
        },
        mod_files: vec![
            ModEntry {
                name: "b.jar".to_string(),
                size_bytes: 2,
                path: "C:\\Game\\mods\\b.jar".to_string(),
            },
            ModEntry {
                name: "A.jar".to_string(),
                size_bytes: 1,
                path: "C:\\Game\\mods\\A.jar".to_string(),
            },
        ],
    };
    let info = analyze_process(process.clone(), disk.clone());
    assert_eq!(info.pid, 7);
    assert_eq!(info.exe_path, "Unknown");
    assert_eq!(info.cmdline, process.args.join(" "));
    assert_eq!(info.parent_pid, 0);
    assert_eq!(info.parent_exe, "C:\\Modrinth\\app.exe");
    assert!(info.is_minecraft);
    assert_eq!(info.version_id, "fabric-loader-0.15-1.20.1");
    assert_eq!(info.mc_version, "1.20.1");
    assert_eq!(
        info.version_jar,
        "C:\\Game\\versions\\fabric-loader-0.15-1.20.1\\fabric-loader-0.15-1.20.1.jar"
    );
    assert_eq!(info.loader, "Fabric");
    assert_eq!(info.launcher, "Modrinth");
    assert_eq!(info.game_dir, "C:\\Game");
    assert_eq!(info.mods_dir, "C:\\Game\\mods");
    let names: Vec<&str> = info.mods.iter().map(|m| m.name.as_str()).collect();
    assert_eq!(names, vec!["A.jar", "b.jar"]);
    let other = analyze_process(
        ProcessFacts {
            args: strings(&["java", "-jar", "server.jar"]),
            ..process
        },
        disk,
    );
    assert!(!other.is_minecraft);
    assert_eq!(other.cmdline, "java -jar server.jar");
    assert_eq!(other.loader, "Unknown");
    assert_eq!(other.launcher, "Unknown");
    assert_eq!(other.mods_dir, "Unknown");
    assert!(other.mods.is_empty());
}

#[test]
fn alternative_accounts_are_listed_once() {
    assert_eq!(normalize_username(" \"abc,\" "), Some("abc".to_string()));
    assert_eq!(normalize_username("ab"), None);
    assert_eq!(log_kind_of_path("x.LOG.GZ"), LogKind::Compressed);
    assert_eq!(log_kind_of_path("x.log"), LogKind::Plain);
    assert_eq!(log_kind_of_path("x.txt"), LogKind::NoLog);
    assert_eq!(log_lines_of(b"a\r\n\xff\nb"), vec!["a", "", "b"]);
    assert!(should_skip_json("C:\\Versions\\x.json"));
    assert!(should_skip_json("my-fabric.json"));
    let dirs = vec![GameDirFiles {
        logs: vec![
            LogFile {
                path: "latest.log".to_string(),
                data: b"[10:00:00] [Client thread/INFO]: Setting user: Alpha\n[LC] Setting user: alpha\ndisplayName=Beta, x\n"
                    .to_vec(),
            },
            LogFile {
                path: "old.log.gz".to_string(),
                data: gzip(b"[Authenticator] Creating Minecraft session for Gamma\n"),
            },
            LogFile {
                path: "broken.gz".to_string(),
                data: b"no".to_vec(),
            },
        ],
        jsons: vec![
            JsonFile {
                path: "a.json".to_string(),
                text: "{\"name\":\"Delta\",\"list\":[{\"UserName\":\"beta\"}],\"other\":\"Nope\"}"
                    .to_string(),
            },
            JsonFile {
                path: "b.json".to_string(),
                text: "broken".to_string(),
            },
        ],
    }];
    let found = detect_alt_accounts(&dirs);
    let names: Vec<(&str, &str)> = found
        .iter()
        .map(|account| (account.name.as_str(), account.source.as_str()))
        .collect();
    assert_eq!(
        names,
        vec![
            ("Alpha", "latest.log"),
            ("Beta", "latest.log"),
            ("Gamma", "old.log.gz"),
            ("Delta", "a.json"),
        ]
    );
    assert!(detect_alt_accounts(&Vec::new()).is_empty());
    let mut scan = AltScan::new();
    scan.add_name("Same", "1");
    scan.add_name("SAME", "2");
    assert_eq!(scan.accounts.len(), 1);
}

#[test]
fn account_names_have_their_length_and_characters() {
    let longest = "a".repeat(32);
    let too_long = "b".repeat(33);
    let text = format!(
        "displayName=abc,\ndisplayName=ab\ndisplayName={longest}\ndisplayName={too_long}\ndisplayName=a-b-c\ndisplayName=A_9\n"
    );
    let accounts = detect_alt_accounts(&vec![GameDirFiles {
        logs: vec![LogFile {
            path: "latest.log".to_string(),
            data: text.into_bytes(),
        }],
        jsons: Vec::new(),
    }]);
    let names: Vec<&str> = accounts.iter().map(|account| account.name.as_str()).collect();
    assert_eq!(names, vec!["abc", longest.as_str(), "A_9"]);
}

#[test]
fn running_games_give_directories() {
    let game = |dir: &str, is_minecraft: bool, is_dir: bool| RunningGame {
        is_minecraft,
        game_dir: dir.to_string(),
        is_dir,
        parent: Some("C:\\up".to_string()),
        laby_dir: None,
    };
    let dirs = load_game_dirs(&vec![
        game("C:\\up\\Game", true, true),
        game("C:\\b", true, true),
        game("C:\\no", false, true),
        game("C:\\gone", true, false),
    ]);
    assert_eq!(dirs, vec!["C:\\up\\Game", "C:\\up", "C:\\b"]);
    let spelled = load_game_dirs(&vec![
        game("C:\\up\\Game", true, true),
        game("C:\\up\\Game\\", true, true),
        game("C:\\up\\.\\Game", true, true),
        game("C:/up//Game", true, true),
        game("c:\\up\\Game", true, true),
        game("C:\\up\\game", true, true),
        game("C:\\up\\..\\up\\Game", true, true),
    ]);
    assert_eq!(
        spelled,
        vec!["C:\\up\\Game", "C:\\up", "C:\\up\\game", "C:\\up\\..\\up\\Game"]
    );
}

#[test]
fn paths_are_told_apart_by_prefix_and_parts() {
    for (a, b) in [
        ("C:\\a\\b", "c:/a//b/"),
        ("C:\\a\\.\\b", "C:\\a\\b"),
        ("a\\b", "a/b"),
        ("", ""),
    ] {
        assert!(is_same_path(a, b), "{a} and {b}");
    }
    for (a, b) in [
        ("C:\\a", "D:\\a"),
        ("C:\\a", "C:a"),
        ("C:\\a", "C:\\A"),
        (".\\a", "a"),
        ("\\a", "a"),
        ("C:\\a\\..\\b", "C:\\b"),
    ] {
        assert!(!is_same_path(a, b), "{a} and {b}");
    }
}

#[test]
fn damaged_archive_gives_its_complete_lines() {
    let text = b"[10:00:00] [Client thread/INFO]: Setting user: Alpha\n[Authenticator] Creating Minecraft session for Beta\n[LC] Setting user: Gamma";
    let mut wrong = gzip(text);
    let at = wrong.len() - 8;
    wrong[at] ^= 0xff;
    let mut short = gzip(text);
    short.truncate(short.len() - 12);
    let names = |data: Vec<u8>| -> Vec<String> {
        let mut scan = AltScan::new();
        scan_log_file(&mut scan, "old.log.gz", &data);
        scan.accounts.into_iter().map(|account| account.name).collect()
    };
    assert_eq!(names(gzip(text)), vec!["Alpha", "Beta", "Gamma"]);
    assert_eq!(names(wrong), vec!["Alpha", "Beta"]);
    assert_eq!(names(short), Vec::<String>::new());
    let mismatch = Some("corrupt gzip stream does not have a matching checksum".to_string());
    assert_eq!(lines_of_unpacked(b"a\r\nb", &None), vec!["a", "b"]);
    assert_eq!(lines_of_unpacked(b"a\r\nb", &mismatch), vec!["a", ""]);
    assert_eq!(lines_of_unpacked(b"a\nb", &Some("x".to_string())), vec![""]);
}

#[test]
fn runtime_check_decides_the_next_step() {
    assert!(is_installed_version(" 120.0.1 "));
    assert!(!is_installed_version("0.0.0.0"));
    assert!(!is_installed_version("  "));
    assert_eq!(
        client_key("Software\\"),
        "Software\\Microsoft\\EdgeUpdate\\Clients\\{F3017226-FE2A-4295-8BDF-00C3A9A7E4C5}"
    );
    let looked = |in_registry: bool, on_disk: bool| RuntimeCheck::Looked {
        in_registry,
        on_disk,
    };
    assert_eq!(ensure_runtime_or_open_installer(looked(false, true)), RuntimeStep::Start);
    assert_eq!(ensure_runtime_or_open_installer(looked(false, false)), RuntimeStep::Ask);
    assert_eq!(
        ensure_runtime_or_open_installer(RuntimeCheck::Asked { install: true }),
        RuntimeStep::OpenDownloadPage
    );
    assert_eq!(
        ensure_runtime_or_open_installer(RuntimeCheck::Asked { install: false }),
        RuntimeStep::Quit
    );
}

#[test]
fn keys_and_values_are_readable() {
    assert_eq!(decode_key_text(b"a/^0b^0c"), "a | b | c");
    assert_eq!(decode_key_text(b"left\x00\x01right"), "left :: right");
    assert_eq!(decode_key_text(b"\x02x"), "binary key [2 bytes] | ascii=.x");
    assert_eq!(decode_value_full(b""), "<empty>");
    assert_eq!(decode_value_full(b"plain"), "plain");
    assert_eq!(decode_value_full(b"\x01marked"), "marked");
    assert_eq!(
        decode_value_full(b"\x02\xff"),
        "binary value [2 bytes]; ascii preview: .."
    );
    assert_eq!(decode_value_full(b"[1, {\"a\":null}]"), "[\n  1,\n  {\n    \"a\": null\n  }\n]");
    let blob = "A".repeat(200);
    assert!(looks_encoded_blob(&blob));
    assert!(!looks_encoded_blob(&"A".repeat(179)));
    assert!(!looks_encoded_blob(&"a b ".repeat(60)));
    assert_eq!(decode_value_full(blob.as_bytes()), "encoded text blob [200 chars]");
    assert_eq!(
        pretty_json(&format!("{{\"k\":\"{blob}\",\"n\":1.50}}")),
        Some("{\n  \"k\": \"<encoded blob: 200 chars>\",\n  \"n\": 1.5\n}".to_string())
    );
    assert_eq!(pretty_json("{broken"), None);
    assert_eq!(pretty_json("text"), None);
    match sanitize_json(&Json::List(vec![Json::Text(blob)])) {
        Json::List(items) => match &items[0] {
            Json::Text(text) => assert_eq!(text, "<encoded blob: 200 chars>"),
            _ => panic!("expected a text"),
        },
        _ => panic!("expected a list"),
    }
    assert_eq!(text_value_given("x".to_string(), Some("shown".to_string())), "shown");
    assert_eq!(preview_text("a\nb\rc", 3), "a b...");
    assert_eq!(preview_text("abc", 0), "");
    assert_eq!(normalize_line_text("a\r\n\tb"), "a\\r\\n\\tb");
}

fn sample_scan() -> ScanResult {
    let entry = |key: &[u8], sequence: u64, value_type: u8, value: &[u8]| LdbEntry {
        user_key: key.to_vec(),
        sequence,
        value_type,
        value: value.to_vec(),
    };
    let operation = |kind: WalOperationKind, key: &[u8], value: Option<&[u8]>| WalOperation {
        kind,
        key: key.to_vec(),
        value: value.map(|v| v.to_vec()),
    };
    ScanResult {
        target: "T".to_string(),
        files: vec![
            ParsedFile {
                path: "d/LOG".to_string(),
                content: ParsedFileContent::TextLog(TextLogFile {
                    lines: strings(&["first"]),
                }),
            },
            ParsedFile {
                path: "d/1.log".to_string(),
                content: ParsedFileContent::Wal(WalFile {
                    physical_records: 1,
                    logical_records: 1,
                    warnings: strings(&["odd"]),
                    batches: vec![
                        WalBatch {
                            offset: 4,
                            payload_bytes: 9,
                            fragments: 2,
                            checksum_ok: true,
                            sequence: Some(10),
                            declared_count: Some(2),
                            trailing_bytes: 0,
                            parse_error: None,
                            operations: vec![
                                operation(WalOperationKind::Put, b"b", Some(b"new")),
                                operation(WalOperationKind::Delete, b"gone", None),
                            ],
                        },
                        WalBatch {
                            offset: 5,
                            payload_bytes: 1,
                            fragments: 1,
                            checksum_ok: false,
                            sequence: None,
                            declared_count: None,
                            trailing_bytes: 0,
                            parse_error: Some("bad".to_string()),
                            operations: Vec::new(),
                        },
                    ],
                }),
            },
            ParsedFile {
                path: "d/2.ldb".to_string(),
                content: ParsedFileContent::Ldb(LdbFile {
                    index_entries: 1,
                    data_blocks: 1,
                    warnings: Vec::new(),
                    entries: vec![
                        entry(b"b", 3, 1, b"old"),
                        entry(b"a", 4, 1, b"x\ny"),
                        entry(b"gone", 5, 1, b"was here"),
                        entry(b"c", 6, 0, b""),
                    ],
                }),
            },
        ],
        warnings: strings(&["scan odd"]),
    }
}

#[test]
fn records_do_not_depend_on_the_order_of_files() {
    let shown = |scan: &ScanResult| -> Vec<(String, String, String)> {
        build_readable_records(scan, 2)
            .into_iter()
            .map(|record| (record.key_text, record.value_full, record.source))
            .collect()
    };
    let tie = |path: &str, value: &[u8]| ParsedFile {
        path: path.to_string(),
        content: ParsedFileContent::Ldb(LdbFile {
            index_entries: 1,
            data_blocks: 1,
            warnings: Vec::new(),
            entries: vec![LdbEntry {
                user_key: b"t".to_vec(),
                sequence: 20,
                value_type: 1,
                value: value.to_vec(),
            }],
        }),
    };
    let mut scan = sample_scan();
    scan.files.push(tie("d/3.ldb", b"three"));
    scan.files.push(tie("d/4.ldb", b"four"));
    let expected = shown(&scan);
    assert_eq!(
        expected[2],
        ("t".to_string(), "four".to_string(), "4.ldb".to_string())
    );
    scan.files.reverse();
    assert_eq!(shown(&scan), expected);
    scan.files.rotate_left(2);
    scan.files.insert(
        1,
        ParsedFile {
            path: "d/5.ldb".to_string(),
            content: ParsedFileContent::Error("unreadable".to_string()),
        },
    );
    assert_eq!(shown(&scan), expected);
    scan.files.retain(|file| !matches!(file.content, ParsedFileContent::TextLog(_)));
    assert_eq!(shown(&scan), expected);
}

#[test]
fn numbers_keep_their_last_digit() {
    let mut seed: u64 = 0x9e37_79b9_7f4a_7c15;
    for _ in 0..4000 {
        seed ^= seed << 13;
        seed ^= seed >> 7;
        seed ^= seed << 17;
        let digits = seed % 100_000_000_000_000_000;
        let exponent = (seed >> 40) % 40;
        let text = format!("[0.{digits:017},{digits}e-{exponent},-{digits}.5,{digits}]");
        let value: serde_json::Value = serde_json::from_str(&text).expect("numbers");
        let expected = serde_json::to_string_pretty(&value).expect("text");
        assert_eq!(pretty_json(&text), Some(expected));
    }
}

#[test]
fn records_in_force_are_the_latest() {
    let records = build_readable_records(&sample_scan(), 2);
    assert_eq!(records.len(), 2);
    assert_eq!(records[0].key_text, "a");
    assert_eq!(records[0].value_full, "x\ny");
    assert_eq!(records[0].value_preview, "x ...");
    assert_eq!(records[0].source, "2.ldb");
    assert_eq!(records[1].key_raw, b"b");
    assert_eq!(records[1].value_raw, b"new");
    assert_eq!(records[1].sequence, 10);
    assert_eq!(records[1].source, "1.log");
}

#[test]
fn listing_has_a_line_for_everything() {
    let lines = build_scan_export_lines(&sample_scan());
    assert_eq!(
        lines,
        vec![
            "scan_target: T",
            "scan_warning: scan odd",
            "",
            "=== FILE: LOG [LOG] ===",
            "     1 | first",
            "",
            "=== FILE: 1.log [WAL] ===",
            "warning | odd",
            "batch=1 offset=4 fragments=2 checksum=ok | seq=10 | PUT | key=b | value=new",
            "batch=1 offset=4 fragments=2 checksum=ok | seq=11 | DELETE | key=gone",
            "batch=2 offset=5 fragments=1 checksum=bad | parse_error=bad",
            "",
            "=== FILE: 2.ldb [LDB] ===",
            "entry=1 | seq=3 | PUT | key=b | value=old",
            "entry=2 | seq=4 | PUT | key=a | value=x\\ny",
            "entry=3 | seq=5 | PUT | key=gone | value=was here",
            "entry=4 | seq=6 | DELETE | key=c",
            "",
        ]
    );
    let (text, count) = export_scan_text(&sample_scan());
    assert_eq!(count, lines.len());
    assert_eq!(text, lines.iter().map(|line| format!("{line}\n")).collect::<String>());
}

#[test]
fn stopped_scans_are_recognised() {
    assert!(is_cancelled_error(SCAN_CANCELLED_MESSAGE));
    assert!(is_cancelled_error(&format!("  {SCAN_CANCELLED_MESSAGE}\n")));
    assert!(!is_cancelled_error("other"));
    let mut options = ScanOptions::with_discord_dir("d".to_string());
    assert_eq!(check_cancelled(&options), Ok(()));
    options.cancel_flag = Some(false);
    assert_eq!(check_cancelled(&options), Ok(()));
    options.cancel_flag = Some(true);
    assert_eq!(check_cancelled(&options), Err(SCAN_CANCELLED_MESSAGE.to_string()));
}

#[test]
fn places_are_told_by_name() {
    assert!(should_skip_windows_profile_name("Default User"));
    assert!(!should_skip_windows_profile_name("ann"));
    assert!(is_browser_profile_name("Profile 3"));
    assert!(is_browser_profile_name("DEFAULT"));
    assert!(!is_browser_profile_name("Profiles"));
    assert_eq!(roaming_launcher_dirs().len(), 27);
    assert_eq!(home_launcher_dirs()[3], ".local/share/PrismLauncher");
    assert_eq!(discovery_step(25_000, "x", true), DiscoveryStep::LimitReached);
    assert_eq!(discovery_step(24_999, "x", true), DiscoveryStep::Root);
    assert_eq!(discovery_step(0, "My.Minecraft", false), DiscoveryStep::Root);
    assert_eq!(discovery_step(0, "x", false), DiscoveryStep::PassOver);
}

#[test]
fn report_is_put_together_in_order() {
    let mut usn = scan_for_minecraft_discord();
    usn.warnings = strings(&["b"]);
    usn.scanned_locations = strings(&["usn_volume: C:"]);
    let mut found = no_findings();
    found.minecraft.accounts = vec![MinecraftAlt {
        username: "Steve".to_string(),
        sources: Vec::new(),
    }];
    found.usn = usn;
    found.places = ScannedPlaces {
        minecraft_roots: strings(&["r"]),
        discord_dirs: strings(&["d"]),
        discord_context_files: strings(&["c"]),
    };
    found.warnings = strings(&["z", "b", "a"]);
    let report = scan(&options(Some(false)), Ok(found), "now".to_string()).expect("report");
    assert_eq!(report.app, "RSS-AltsChecker");
    assert_eq!(report.warnings, vec!["a", "b", "z"]);
    assert_eq!(
        report.scanned_locations,
        vec!["discord_context: c", "discord_leveldb: d", "minecraft_root: r", "usn_volume: C:"]
    );
    assert_eq!(
        report.forensic_signals,
        vec![
            "Discord: аккаунты не обнаружены",
            "USN: явных признаков чистки логов не обнаружено",
        ]
    );
    assert_eq!(report.report_file, "");
    assert_eq!(report.generated_at, "now");
    assert_eq!(sorted_texts(&strings(&["b", "a", "b"])), vec!["a", "b"]);
    let mut stats = ScanStats::new();
    stats.count_directory("LOGS");
    stats.count_directory("x");
    stats.count_log();
    stats.count_json();
    stats.count_discord(4);
    assert_eq!(stats.logs_directories_found, 1);
    assert_eq!(stats.minecraft_files_scanned, 2);
    assert_eq!(stats.discord_files_scanned, 4);
}

#[test]
fn stopped_scan_has_no_report() {
    let stopped = scan(&options(Some(true)), Ok(no_findings()), "now".to_string());
    assert_eq!(stopped.err(), Some(SCAN_CANCELLED_MESSAGE.to_string()));
    let failed = scan(&options(None), Err("disk".to_string()), "now".to_string());
    assert_eq!(failed.err(), Some("disk".to_string()));
    let both = scan(&options(Some(true)), Err("disk".to_string()), "now".to_string());
    assert!(is_cancelled_error(&both.expect_err("stopped")));
}

#[test]
fn run_returns_what_it_wrote() {
    let report = match run_scan(RunEvent::Scanned(Ok(empty_report())), "out.json") {
        RunStep::Write(report) => report,
        RunStep::Done(_) => panic!("the report is not written"),
    };
    assert_eq!(report.report_file, "out.json");
    assert_eq!(report.app, "RSS-AltsChecker");
    let mut kept = empty_report();
    kept.report_file = "out.json".to_string();
    kept.warnings = strings(&["w"]);
    match run_scan(RunEvent::Written(kept, Ok(())), "out.json") {
        RunStep::Done(Ok(returned)) => {
            assert_eq!(returned.report_file, "out.json");
            assert_eq!(returned.warnings, vec!["w"]);
        }
        _ => panic!("the run does not end with its report"),
    }
    match run_scan(RunEvent::Written(report, Err("full".to_string())), "out.json") {
        RunStep::Done(Err(error)) => assert_eq!(error, "full"),
        _ => panic!("the run does not end with the error"),
    }
    match run_scan(RunEvent::Scanned(Err("e".to_string())), "out.json") {
        RunStep::Done(Err(error)) => assert_eq!(error, "e"),
        _ => panic!("the run goes on after an error"),
    }
}

#[test]
fn window_follows_a_scan() {
    let mut state = AppState::new("10:00");
    assert_eq!(state.event_log, vec!["10:00  Приложение запущено"]);
    assert!(state.start_scan("10:01"));
    assert!(!state.start_scan("10:01"));
    assert_eq!(state.status_state, StatusState::Scanning);
    let mut report = empty_report();
    report.warnings = strings(&["w"]);
    report.usn_journal = scan_for_minecraft_discord().report;
    state.finish_scan(Ok(report), "10:02");
    assert!(!state.is_scanning);
    assert_eq!(state.status_state, StatusState::Done);
    assert_eq!(state.status_line, "Готово: Discord 0 | Minecraft 0");
    assert_eq!(
        state.event_log[2..],
        [
            "10:02  Сканирование завершено: Discord 0 | Minecraft 0".to_string(),
            "10:02  USN Journal доступен только на Windows | records 0".to_string(),
            "10:02  Discord: аккаунты не обнаружены".to_string(),
            "10:02  Minecraft: аккаунты не обнаружены".to_string(),
            "10:02  Предупреждений при сканировании: 1".to_string(),
            "10:02  Warning: w".to_string(),
        ]
    );
    assert!(state.start_scan("10:03"));
    assert!(state.report.is_none());
    state.finish_scan(Err(SCAN_CANCELLED_MESSAGE.to_string()), "10:04");
    assert_eq!(state.status_state, StatusState::Idle);
    state.finish_scan(Err("disk".to_string()), "10:05");
    assert_eq!(state.status_state, StatusState::Error);
    assert_eq!(state.error_message, Some("disk".to_string()));
    state.toggle_ghost_mode("10:06");
    assert!(state.ghost_mode);
    assert_eq!(
        state.event_log.last().map(|line| line.as_str()),
        Some("10:06  Включен режим ghost mode")
    );
}

#[test]
fn texts_of_a_report_are_short() {
    let mut report = empty_report();
    report.minecraft_accounts = vec![
        MinecraftAlt {
            username: "A".to_string(),
            sources: strings(&["s"]),
        },
        MinecraftAlt {
            username: "B".to_string(),
            sources: Vec::new(),
        },
    ];
    assert_eq!(
        build_all_copy_text(&report),
        "Minecraft Nick:\nA\nB\n\nDiscord Nick:\n"
    );
    assert_eq!(minecraft_title(&report.minecraft_accounts[0]), "A  [1 source]");
    assert_eq!(source_label(0), "0 sources");
    assert_eq!(compact_source_path(r"C:\a\b\c\d\e.txt", 4), r"...\b\c\d\e.txt");
    assert_eq!(compact_source_path(r"C:\a", 4), r"C:\a");
    assert_eq!(compact_source_path("", 4), "");
    assert_eq!(preview_list(&strings(&["a", "b", "c"]), 2), "a, b, +1 more");
    assert_eq!(preview_list(&strings(&["a"]), 2), "a");
    assert_eq!(preview_list(&Vec::new(), 2), "");
    assert_eq!(format_event("t", "m"), "t  m");
    assert_eq!(alts_check_finished(1, 2), "Alts Check завершен: Minecraft 1, Discord 2");
}

#[test]
fn reasons_are_put_in_words() {
    assert_eq!(parse_trusted_reason("trusted-account-source:3;log:5"), Some((3, 5)));
    assert_eq!(parse_trusted_reason("trusted-account-source:3"), Some((3, 0)));
    assert_eq!(parse_trusted_reason("trusted-account-source:x;log:5"), None);
    assert_eq!(
        humanize_minecraft_reason("trusted-account-source:3;log:5"),
        "Подтверждено account-файлами: 3; логами: 5"
    );
    assert_eq!(humanize_minecraft_reason("log-evidence:2"), "Подтверждено логами: 2");
    assert_eq!(
        humanize_minecraft_reason("placeholder-multi-log:4"),
        "Плейсхолдер, но подтверждено многими логами: 4"
    );
    assert_eq!(
        humanize_minecraft_reason("placeholder-filtered:1"),
        "Отфильтрован как плейсхолдер (логов: 1)"
    );
    assert_eq!(
        humanize_minecraft_reason("structural-word-filter"),
        "Отфильтрован как системное/структурное слово"
    );
    assert_eq!(
        humanize_minecraft_reason("no-usable-evidence"),
        "Недостаточно доказательств для включения"
    );
    assert_eq!(humanize_minecraft_reason("odd"), "odd");
}

#[test]
fn links_are_found_for_accounts() {
    let account = DiscordAlt {
        username: "jumarf".to_string(),
        id: Some("1".to_string()),
        sources: Vec::new(),
    };
    assert!(discord_link_matches_account("JUMARF", &account));
    assert!(discord_link_matches_account("1", &account));
    assert!(discord_link_matches_account("ID:1", &account));
    assert!(!discord_link_matches_account("2", &account));
    assert_eq!(discord_title(&account), "jumarf (1)  [0 sources]");
    let link = |minecraft: &str, discord: &str| ProfileLink {
        profile: "p".to_string(),
        minecraft_accounts: strings(&[minecraft]),
        discord_accounts: strings(&[discord]),
    };
    let links = vec![link("Steve", "x"), link("alex", "id:1"), link("STEVE", "jumarf")];
    assert_eq!(links_of_minecraft_account(&links, "steve"), vec![0, 2]);
    assert_eq!(links_of_discord_account(&links, &account), vec![1, 2]);
    let debug = vec![MinecraftDetectionDebug {
        username: "Steve".to_string(),
        kept: true,
        reason: "r".to_string(),
        source_count: 0,
        account_source_count: 0,
        sources: Vec::new(),
    }];
    assert_eq!(find_explanation(&debug, "sTEVE"), Some(0));
    assert_eq!(find_explanation(&debug, "alex"), None);
}

#[test]
fn event_lines_have_a_tone() {
    assert_eq!(event_line_tone("USN: [deleted] x"), EventTone::Danger);
    assert_eq!(event_line_tone("[RENAMED]"), EventTone::Renamed);
    assert_eq!(event_line_tone("[extend]"), EventTone::Changed);
    assert_eq!(event_line_tone("Warning: x"), EventTone::Warning);
    assert_eq!(event_line_tone("it failed"), EventTone::Danger);
    assert_eq!(event_line_tone("сканирование завершено"), EventTone::Success);
    assert_eq!(event_line_tone("plain"), EventTone::Muted);
}
