use alts_checker::discord_accounts::{
    collect_discord_accounts_from_json, extract_discord_accounts_from_bytes,
    extract_discord_accounts_from_context_bytes, extract_discord_accounts_from_context_text,
    extract_discord_accounts_from_text, insert_discord_candidate, insert_id_matches,
    insert_token_matches, insert_user_matches, DiscordCandidates,
};
use alts_checker::discord_scan::{
    discord_outcome, is_context_file_size, is_raw_discord_file_size, join_lines,
    scan_raw_discord_file, scan_single_discord_leveldb_dir,
};
use alts_checker::discord_text::{
    decode_base64_url, decode_discord_token_user_id, decode_token_user_id_at,
    discord_context_chunk_looks_relevant, discord_payload_looks_owner_related,
    extract_json_fragments, extract_printable_chunks, is_discord_leveldb_file,
    is_discord_owner_store_key, is_foreign_context_near_position, is_foreign_discord_user_key,
    is_snowflake_at, is_valid_discord_snowflake, normalize_discord_id, normalize_discord_id_at,
    normalize_discord_username, normalize_escaped_json_text,
};
use alts_checker::json::{Json, Member};
use alts_checker::minecraft::{
    account_file_names, file_action_given_dated, is_log_name_given_dated,
    is_potential_minecraft_source_file, is_probable_minecraft_log_name,
    is_trusted_minecraft_account_file, looks_like_minecraft_root_name, minecraft_file_action,
    normalize_minecraft_username, path_looks_minecraft_related, should_scan_minecraft_json,
    should_scan_minecraft_log, should_skip_discovery_dir, should_skip_walk_dir_entry, FileAction,
};
use alts_checker::minecraft_accounts::{
    classify_minecraft_candidate, collect_match_names, collect_minecraft_names_from_json,
    extract_minecraft_accounts_from_json_file, extract_minecraft_accounts_from_log_file,
    insert_minecraft_candidate, insert_minecraft_names, minecraft_outcome, names_in_json,
    names_in_log, FileData, MinecraftCandidate, MinecraftCandidates,
};
use alts_checker::order::{OrderedMap, TextSet};
use alts_checker::outside::RegexMatch;
use alts_checker::paths::{
    extension_of_path, name_of_path, normalize_path_key, path_has_segment, profile_key_from_path,
    UniquePaths,
};
use alts_checker::profiles::{add_account, build_profile_links, ProfileAccounts};
use alts_checker::viewer::{
    LdbEntry, LdbFile, ParsedFile, ParsedFileContent, ScanResult, TextLogFile, WalBatch, WalFile,
    WalOperation, WalOperationKind,
};
use std::io::Write;

const NOW_MS: i64 = 1_767_225_600_000;

fn text(value: &str) -> Json {
    Json::Text(value.to_string())
}

fn object(members: Vec<(&str, Json)>) -> Json {
    Json::Object(
        members
            .into_iter()
            .map(|(key, value)| Member {
                key: key.to_string(),
                value,
            })
            .collect(),
    )
}

fn gzip(data: &[u8]) -> Vec<u8> {
    let mut encoder =
        flate2::write::GzEncoder::new(Vec::new(), flate2::Compression::default());
    encoder.write_all(data).expect("gzip in memory");
    encoder.finish().expect("gzip in memory")
}

fn found(start: usize, groups: &[&str]) -> RegexMatch {
    let mut all = vec![Some("whole".to_string())];
    all.extend(groups.iter().map(|group| Some(group.to_string())));
    RegexMatch { start, groups: all }
}

#[test]
fn minecraft_name_normalization_works() {
    assert_eq!(
        normalize_minecraft_username("Alpha_01"),
        Some("Alpha_01".to_string())
    );
    assert_eq!(normalize_minecraft_username("ab"), None);
    assert_eq!(normalize_minecraft_username("bad-name"), None);
}

#[test]
fn minecraft_json_context_filters_noise() {
    let sample = object(vec![
        ("displayName", text("LooksLikeName")),
        ("title", text("Player")),
    ]);

    let mut out = TextSet::new();
    collect_minecraft_names_from_json(&sample, &mut out, false);
    assert!(out.is_empty());
}

#[test]
fn minecraft_json_account_context_keeps_username() {
    let sample = object(vec![(
        "accounts",
        Json::List(vec![object(vec![
            ("username", text("Novellisimo")),
            ("uuid", text("ab")),
        ])]),
    )]);

    let mut out = TextSet::new();
    collect_minecraft_names_from_json(&sample, &mut out, false);
    assert!(out.contains("Novellisimo"));
}

#[test]
fn discord_snowflake_validation() {
    assert!(normalize_discord_id("698025508365008949").is_some());
    assert!(normalize_discord_id("123").is_none());
}

#[test]
fn base64_url_decoder_decodes_ascii() {
    let decoded = decode_base64_url("MTIzNDU2").expect("must decode base64");
    assert_eq!(decoded, b"123456");
}

#[test]
fn foreign_context_detector_marks_other_user() {
    let text = "\"other_user\":{\"id\":\"1388529174477672588\",\"username\":\"imsandy.dll\"}";
    let lower = text.to_ascii_lowercase();
    let pos = lower
        .find("\"username\":\"imsandy.dll\"")
        .expect("must contain username");
    assert!(is_foreign_context_near_position(&lower, pos));
}

#[test]
fn foreign_context_detector_keeps_current_user_when_closer() {
    let text = "\"other_user\":{\"id\":\"1388529174477672588\"},\"current_user\":{\"id\":\"698025508365008949\",\"username\":\"jumarf\"}";
    let lower = text.to_ascii_lowercase();
    let pos = lower
        .find("\"username\":\"jumarf\"")
        .expect("must contain username");
    assert!(!is_foreign_context_near_position(&lower, pos));
}

#[test]
fn profile_key_extraction_from_windows_path() {
    let path = r"C:\Users\jumarf\AppData\Roaming\.minecraft\launcher_accounts.json";
    assert_eq!(
        profile_key_from_path(path),
        Some(r"C:\Users\jumarf".to_string())
    );
}

#[test]
fn minecraft_placeholder_requires_multiple_logs() {
    let mut candidate = MinecraftCandidate {
        username: "Player123".to_string(),
        sources: TextSet::new(),
        profile_keys: TextSet::new(),
        account_hits: 0,
        log_hits: 1,
    };

    let (kept, _, _) = classify_minecraft_candidate(&candidate);
    assert!(!kept);

    candidate.log_hits = 3;
    let (kept, _, _) = classify_minecraft_candidate(&candidate);
    assert!(kept);
}

#[test]
fn discord_candidate_requires_id() {
    let mut map = DiscordCandidates::new();
    insert_discord_candidate(&mut map, Some("jumarf"), None, "src");
    assert!(map.is_empty());

    insert_discord_candidate(&mut map, Some("jumarf"), Some("698025508365008949"), "src");
    assert_eq!(map.len(), 1);
}

#[test]
fn discord_owner_store_key_filter_is_strict() {
    assert!(is_discord_owner_store_key(
        b"_https://discord.com MultiAccountStore"
    ));
    assert!(is_discord_owner_store_key(b"test/token"));
    assert!(is_discord_owner_store_key(b"user_id_cache"));
    assert!(!is_discord_owner_store_key(b"redux-storage"));
    assert!(!is_discord_owner_store_key(
        b"_https://example.com SelectedChannelStore"
    ));
}

#[test]
fn discord_context_profile_url_keeps_id_only_account() {
    let mut map = DiscordCandidates::new();
    extract_discord_accounts_from_context_text(
        "https://discord.com/users/1394584725926187069",
        "ctx",
        &mut map,
    );
    assert!(map.contains_key("id:1394584725926187069"));
}

#[test]
fn discord_context_encoded_user_extracts_username_and_id() {
    let mut map = DiscordCandidates::new();
    extract_discord_accounts_from_context_text(
        "%22id%22%3A%221394584725926187069%22%2C%22username%22%3A%22mini_pekka123123%22",
        "ctx",
        &mut map,
    );

    let entry = map
        .get("id:1394584725926187069")
        .expect("must contain parsed id");
    assert_eq!(entry.username, "mini_pekka123123");
}

#[test]
fn names_lose_quotes_and_space() {
    assert_eq!(
        normalize_minecraft_username(" \"'Steve'\" "),
        Some("Steve".to_string())
    );
    assert_eq!(normalize_minecraft_username("seventeen_letters"), None);
    assert_eq!(normalize_minecraft_username("Игрок"), None);
    assert_eq!(
        normalize_discord_username("a.b-c_1"),
        Some("a.b-c_1".to_string())
    );
    assert_eq!(normalize_discord_username("x"), None);
    assert_eq!(normalize_discord_username("a b"), None);
}

#[test]
fn ids_from_the_future_are_refused() {
    assert_eq!(
        normalize_discord_id_at("\"698025508365008949\"", NOW_MS),
        Some("698025508365008949".to_string())
    );
    assert_eq!(normalize_discord_id_at("698025508365008949", 1_500_000_000_000), None);
    assert_eq!(normalize_discord_id_at("99999999999999999999", NOW_MS), None);
    assert_eq!(normalize_discord_id_at("18446744073709551615", NOW_MS), None);
    assert_eq!(normalize_discord_id_at("+69802550836500894", NOW_MS), None);
    let edge = ((NOW_MS + 1_577_000_000 - 1_420_070_400_000) as u64) << 22;
    assert!(is_snowflake_at(edge, NOW_MS));
    assert!(!is_snowflake_at(edge + (1 << 22), NOW_MS));
    assert!(is_snowflake_at(u64::MAX, i64::MAX));
    assert!(is_valid_discord_snowflake(1));
}

#[test]
fn base64_reads_both_alphabets() {
    assert_eq!(decode_base64_url(""), None);
    assert_eq!(decode_base64_url("="), Some(Vec::new()));
    assert_eq!(decode_base64_url("-_+/"), Some(vec![0xfb, 0xff, 0xbf]));
    assert_eq!(decode_base64_url("YQ=="), Some(b"a".to_vec()));
    assert_eq!(decode_base64_url("YWI"), Some(b"ab".to_vec()));
    assert_eq!(decode_base64_url("Y"), Some(Vec::new()));
    assert_eq!(decode_base64_url("Y*"), None);
    assert_eq!(decode_base64_url("YWJj=!"), Some(b"abc".to_vec()));
    for text in ["-_8", "-_8=", "+/8", "+/8="] {
        assert_eq!(decode_base64_url(text), Some(vec![0xfb, 0xff]));
    }
    for text in ["_w", "_w==", "/w", "/w=="] {
        assert_eq!(decode_base64_url(text), Some(vec![0xff]));
    }
}

#[test]
fn tokens_hold_ids() {
    let segment = "Njk4MDI1NTA4MzY1MDA4OTQ5";
    assert_eq!(
        decode_token_user_id_at(segment, NOW_MS),
        Some("698025508365008949".to_string())
    );
    assert_eq!(
        decode_discord_token_user_id(segment),
        Some("698025508365008949".to_string())
    );
    assert_eq!(decode_token_user_id_at("_____w", NOW_MS), None);
    let mut map = DiscordCandidates::at(NOW_MS);
    insert_token_matches(&mut map, &vec![found(0, &[segment])], "s");
    assert!(map.contains_key("id:698025508365008949"));
    let mut other = DiscordCandidates::at(NOW_MS);
    let token = format!("{segment}.abcdef.0123456789012345678901234");
    extract_discord_accounts_from_text(&token, "s", &mut other);
    assert!(other.contains_key("id:698025508365008949"));
}

#[test]
fn known_names_stay() {
    let mut map = DiscordCandidates::at(NOW_MS);
    let id = Some("698025508365008949");
    insert_discord_candidate(&mut map, None, id, r"C:\Users\ann\x");
    assert_eq!(map.get("id:698025508365008949").expect("entry").username, "unknown");
    insert_discord_candidate(&mut map, Some("first"), id, "b");
    insert_discord_candidate(&mut map, Some("second"), id, "a");
    let entry = map.get("id:698025508365008949").expect("entry");
    assert_eq!(entry.username, "first");
    assert_eq!(entry.evidence_hits, 3);
    assert_eq!(entry.sources.to_list(), vec![r"C:\Users\ann\x", "a", "b"]);
    assert_eq!(entry.profile_keys.to_list(), vec![r"C:\Users\ann"]);
}

#[test]
fn matches_about_other_users_are_passed_over() {
    let mut map = DiscordCandidates::at(NOW_MS);
    let near = "\"author\":{";
    let matches = vec![found(near.len(), &["someone", "698025508365008949"])];
    insert_user_matches(&mut map, &matches, 1, 2, Some(near), "s");
    assert!(map.is_empty());
    insert_user_matches(&mut map, &matches, 1, 2, None, "s");
    assert_eq!(map.get("id:698025508365008949").expect("entry").username, "someone");
    insert_id_matches(&mut map, &vec![found(0, &["1394584725926187069"])], "s");
    assert_eq!(map.len(), 2);
}

#[test]
fn json_accounts_of_the_owner_are_kept() {
    let user = |id: &str| {
        object(vec![
            ("id", text(id)),
            ("username", text("jumarf")),
            ("avatar", Json::Null),
        ])
    };
    let mut map = DiscordCandidates::at(NOW_MS);
    let value = object(vec![
        ("users", Json::List(vec![user("698025508365008949")])),
        ("author", user("1394584725926187069")),
        ("id", Json::Number("1388529174477672588".to_string())),
        ("flags", Json::Flag(true)),
    ]);
    collect_discord_accounts_from_json(&value, "s", &mut map, 0, false);
    assert_eq!(map.len(), 2);
    assert!(map.contains_key("id:698025508365008949"));
    assert_eq!(map.get("id:1388529174477672588").expect("entry").username, "unknown");
    let mut deep = DiscordCandidates::at(NOW_MS);
    collect_discord_accounts_from_json(&value, "s", &mut deep, 21, false);
    assert!(deep.is_empty());
    assert!(is_foreign_discord_user_key("Recipient"));
    assert!(!is_foreign_discord_user_key("users"));
}

#[test]
fn discord_texts_are_read_in_all_forms() {
    let mut map = DiscordCandidates::at(NOW_MS);
    extract_discord_accounts_from_text(
        "noise {\"id\":\"698025508365008949\",\"username\":\"inside\"} noise",
        "s",
        &mut map,
    );
    assert_eq!(map.get("id:698025508365008949").expect("entry").username, "inside");
    let mut escaped = DiscordCandidates::at(NOW_MS);
    extract_discord_accounts_from_text(
        "{\\\"id\\\":\\\"698025508365008949\\\",\\\"username\\\":\\\"escaped\\\"}",
        "s",
        &mut escaped,
    );
    assert_eq!(escaped.get("id:698025508365008949").expect("entry").username, "escaped");
    let mut empty = DiscordCandidates::at(NOW_MS);
    extract_discord_accounts_from_text("   ", "s", &mut empty);
    extract_discord_accounts_from_bytes(b"", "s", &mut empty);
    assert!(empty.is_empty());
    let mut bytes = b"\xff\xfe".to_vec();
    bytes.extend_from_slice(b"{\"id\":\"698025508365008949\",\"username\":\"in_bytes\"}");
    extract_discord_accounts_from_bytes(&bytes, "s", &mut empty);
    assert_eq!(empty.get("id:698025508365008949").expect("entry").username, "in_bytes");
}

#[test]
fn context_bytes_need_a_relevant_chunk() {
    let url = "https://example.test/?discord_id=698025508365008949&padding=padding-padding-padding";
    let mut map = DiscordCandidates::at(NOW_MS);
    extract_discord_accounts_from_context_bytes(url.as_bytes(), "s", &mut map);
    assert!(map.contains_key("id:698025508365008949"));
    assert!(discord_context_chunk_looks_relevant(url));
    assert!(discord_context_chunk_looks_relevant("Discord.com/users/"));
    assert!(!discord_context_chunk_looks_relevant("discord"));
}

#[test]
fn fragments_are_outermost_and_balanced() {
    let found = extract_json_fragments("a {\"k\":\"}\"} [1] {\"n\":[1,2]} ]", 10, 100);
    assert_eq!(found, vec!["{\"k\":\"}\"}", "{\"n\":[1,2]}"]);
    assert_eq!(extract_json_fragments("{\"a\":1]} {\"b\":222}", 10, 100), vec!["{\"b\":222}"]);
    assert_eq!(extract_json_fragments("{\"a\":11} {\"b\":22}", 1, 100).len(), 1);
    assert_eq!(extract_json_fragments("{\"a\":11} {\"b\":22}", 0, 100).len(), 1);
    assert!(extract_json_fragments("{\"a\":111}", 9, 8).is_empty());
    assert_eq!(extract_json_fragments("[\"ж\\\"]\",1]", 9, 100), vec!["[\"ж\\\"]\",1]"]);
}

#[test]
fn fragments_stand_apart_in_order() {
    let text = "x {\"a\":[1,{}]} y [\"}\",\"z\"] {\"b\"] [1,[2,[3]]] {\"open\":1";
    let found = extract_json_fragments(text, 10, 100);
    assert_eq!(found, vec!["{\"a\":[1,{}]}", "[\"}\",\"z\"]", "[1,[2,[3]]]"]);
    let mut from: usize = 0;
    for fragment in &found {
        let at = text[from..].find(fragment.as_str()).expect("in order");
        from = from + at + fragment.len();
        assert_eq!(extract_json_fragments(fragment, 10, 100), vec![fragment.clone()]);
    }
}

#[test]
fn candidates_stand_under_their_names() {
    let mut map: MinecraftCandidates = OrderedMap::new();
    for name in ["zoe_1", "Alex", "bOb", "ALEX", "Zed", "BOB"] {
        insert_minecraft_candidate(&mut map, name, "a.json", false);
    }
    for key in ["zoe_1", "alex", "bob", "zed"] {
        let candidate = map.get(&key.to_string()).expect("candidate");
        assert_eq!(candidate.username.to_ascii_lowercase(), key);
    }
    let names: Vec<String> = minecraft_outcome(map)
        .accounts
        .into_iter()
        .map(|account| account.username)
        .collect();
    assert_eq!(names, vec!["Alex", "bOb", "Zed", "zoe_1"]);
}

#[test]
fn chunks_are_printable_runs() {
    assert_eq!(
        extract_printable_chunks(b"abcd\x00ef\x01ghij\tk", 4, 10),
        vec!["abcd", "ghij\tk"]
    );
    assert_eq!(extract_printable_chunks(b"abcd\x00efgh", 4, 1), vec!["abcd"]);
    assert_eq!(extract_printable_chunks(b"abcd\x00efgh", 4, 0), vec!["abcd"]);
    assert!(extract_printable_chunks(b"abcd", 4, 0).is_empty());
}

#[test]
fn escapes_are_undone_once() {
    assert_eq!(normalize_escaped_json_text("plain \\/ kept"), "plain \\/ kept");
    assert_eq!(
        normalize_escaped_json_text("\\\"a\\\"\\n\\t\\/"),
        "\"a\"\n\t/"
    );
    assert_eq!(normalize_escaped_json_text("\\\\\"x"), "\"x");
}

#[test]
fn leveldb_files_are_told_by_name() {
    assert!(is_discord_leveldb_file("C:\\x\\000003.LDB"));
    assert!(is_discord_leveldb_file("000003.log"));
    assert!(!is_discord_leveldb_file("latest.log"));
    assert!(!is_discord_leveldb_file("C:\\x\\LOG"));
    assert!(discord_payload_looks_owner_related(b"..USER_ID_CACHE.."));
    assert!(is_raw_discord_file_size(1));
    assert!(!is_raw_discord_file_size(0));
    assert!(!is_raw_discord_file_size(8 * 1024 * 1024 + 1));
    assert!(is_context_file_size(64 * 1024 * 1024));
    assert!(!is_context_file_size(64 * 1024 * 1024 + 1));
}

#[test]
fn parsed_directories_are_looked_through() {
    let account = b"{\"id\":\"698025508365008949\",\"username\":\"stored\"}".to_vec();
    let other = b"{\"id\":\"1394584725926187069\",\"username\":\"hidden\"}".to_vec();
    let file = |path: &str, content: ParsedFileContent| ParsedFile {
        path: path.to_string(),
        content,
    };
    let scan = Ok(ScanResult {
        target: "dir".to_string(),
        files: vec![
            file(
                "dir\\1.ldb",
                ParsedFileContent::Ldb(LdbFile {
                    index_entries: 1,
                    data_blocks: 1,
                    warnings: Vec::new(),
                    entries: vec![
                        LdbEntry {
                            user_key: b"MultiAccountStore".to_vec(),
                            sequence: 1,
                            value_type: 1,
                            value: account,
                        },
                        LdbEntry {
                            user_key: b"redux".to_vec(),
                            sequence: 2,
                            value_type: 1,
                            value: other,
                        },
                    ],
                }),
            ),
            file(
                "dir\\2.log",
                ParsedFileContent::Wal(WalFile {
                    physical_records: 1,
                    logical_records: 1,
                    warnings: Vec::new(),
                    batches: vec![WalBatch {
                        offset: 0,
                        payload_bytes: 0,
                        fragments: 1,
                        checksum_ok: true,
                        sequence: Some(1),
                        declared_count: Some(1),
                        trailing_bytes: 0,
                        parse_error: None,
                        operations: vec![WalOperation {
                            kind: WalOperationKind::Put,
                            key: b"user_id_cache".to_vec(),
                            value: Some(
                                b"{\"id\":\"1388529174477672588\",\"username\":\"logged\"}".to_vec(),
                            ),
                        }],
                    }],
                }),
            ),
            file("dir\\3.log", ParsedFileContent::Error("broken".to_string())),
            file(
                "dir\\LOG",
                ParsedFileContent::TextLog(TextLogFile {
                    lines: vec!["x".to_string()],
                }),
            ),
        ],
        warnings: vec!["odd".to_string()],
    });
    let mut map = DiscordCandidates::at(NOW_MS);
    let mut warnings = Vec::new();
    let counted = scan_single_discord_leveldb_dir("dir", &scan, &mut map, &mut warnings);
    assert_eq!(counted, 3);
    assert_eq!(map.len(), 2);
    assert_eq!(map.get("id:698025508365008949").expect("entry").username, "stored");
    assert_eq!(
        warnings,
        vec![
            "Discord parse error in dir\\3.log: broken",
            "Discord LevelDB warning (dir): odd",
        ]
    );
    let counted =
        scan_single_discord_leveldb_dir("d", &Err("gone".to_string()), &mut map, &mut warnings);
    assert_eq!(counted, 0);
    assert_eq!(warnings[2], "Discord LevelDB parse failed for d: gone");
    assert_eq!(join_lines(&vec!["a".to_string(), "b".to_string()]), "a\nb");
    let raw = b"test/token {\"id\":\"698025508365008949\",\"username\":\"raw\"}";
    let mut fresh = DiscordCandidates::at(NOW_MS);
    assert!(scan_raw_discord_file("f", raw, &mut fresh));
    assert_eq!(fresh.len(), 1);
    assert!(!scan_raw_discord_file("f", b"nothing", &mut fresh));
}

#[test]
fn discord_accounts_are_listed_by_name_then_id() {
    let mut map = DiscordCandidates::at(NOW_MS);
    insert_discord_candidate(&mut map, Some("Zed"), Some("698025508365008949"), r"C:\Users\a\x");
    insert_discord_candidate(&mut map, Some("anna"), Some("1394584725926187069"), "s2");
    insert_discord_candidate(&mut map, Some("Anna"), Some("1388529174477672588"), "s3");
    insert_discord_candidate(&mut map, None, Some("1388529174477672589"), "s4");
    let outcome = discord_outcome(map);
    let names: Vec<&str> = outcome.accounts.iter().map(|a| a.username.as_str()).collect();
    assert_eq!(names, vec!["Anna", "anna", "id:1388529174477672589", "Zed"]);
    assert_eq!(outcome.accounts[3].id, Some("698025508365008949".to_string()));
    assert_eq!(outcome.accounts[3].sources, vec![r"C:\Users\a\x"]);
    let under = outcome
        .profile_accounts
        .get(&r"C:\Users\a".to_string())
        .expect("profile");
    assert_eq!(under.to_list(), vec!["Zed"]);
}

#[test]
fn log_names_come_from_all_patterns() {
    let names = names_in_log(
        "[12:00:00] Setting user: Alpha_1\nlogged in as Beta22\njava --username Gamma_3\nCreating Minecraft session for Delta4\ngot lunar client token for Epsilon\nsetting user: ab\n",
    );
    assert_eq!(
        names.to_list(),
        vec!["Alpha_1", "Beta22", "Delta4", "Epsilon"]
    );
    let mut out = TextSet::new();
    collect_match_names(&vec![found(0, &["Steve"]), found(1, &["x"])], &mut out);
    assert_eq!(out.to_list(), vec!["Steve"]);
}

#[test]
fn logs_are_decompressed_by_extension() {
    let mut warnings = Vec::new();
    let packed = gzip(b"Setting user: Packed_1\n");
    let names = extract_minecraft_accounts_from_log_file(
        "logs\\2026-01-01-1.log.gz",
        FileData::Bytes(packed.clone()),
        &mut warnings,
    );
    assert_eq!(names.to_list(), vec!["Packed_1"]);
    let plain = extract_minecraft_accounts_from_log_file(
        "logs\\latest.log",
        FileData::Bytes(b"Setting user: Plain_1\n".to_vec()),
        &mut warnings,
    );
    assert_eq!(plain.to_list(), vec!["Plain_1"]);
    assert!(warnings.is_empty());
    let broken = extract_minecraft_accounts_from_log_file(
        "a.log.gz",
        FileData::Bytes(b"not gzip".to_vec()),
        &mut warnings,
    );
    assert!(broken.is_empty());
    assert!(warnings[0].starts_with("Failed to decompress a.log.gz: Failed to read gzip a.log.gz: "));
    extract_minecraft_accounts_from_log_file(
        "a.log.gz",
        FileData::OpenFailed("denied".to_string()),
        &mut warnings,
    );
    assert_eq!(
        warnings[1],
        "Failed to decompress a.log.gz: Failed to open gzip a.log.gz: denied"
    );
    extract_minecraft_accounts_from_log_file(
        "a.log",
        FileData::ReadFailed("gone".to_string()),
        &mut warnings,
    );
    assert_eq!(warnings[2], "Failed to read a.log: gone");
}

#[test]
fn json_files_are_trusted_by_name() {
    let mut warnings = Vec::new();
    let trusted = extract_minecraft_accounts_from_json_file(
        "x\\accounts.json",
        FileData::Bytes(b"{\"username\":\"Trusted_1\"}".to_vec()),
        &mut warnings,
    );
    assert_eq!(trusted.to_list(), vec!["Trusted_1"]);
    let unmarked = extract_minecraft_accounts_from_json_file(
        "x\\other.json",
        FileData::Bytes(b"{\"username\":\"Nobody_1\"}".to_vec()),
        &mut warnings,
    );
    assert!(unmarked.is_empty());
    let broken = extract_minecraft_accounts_from_json_file(
        "x\\accounts.json",
        FileData::Bytes(b"{ \"displayName\" : \"Broken_1\", ".to_vec()),
        &mut warnings,
    );
    assert_eq!(broken.to_list(), vec!["Broken_1"]);
    assert!(warnings.is_empty());
    let named = object(vec![
        ("name", text("Named_1")),
        ("id", text("1")),
        ("accessToken", text("t")),
    ]);
    let names = names_in_json("\"account", false, &Some(named), &Vec::new());
    assert_eq!(names.to_list(), vec!["Named_1"]);
    let fallback = names_in_json("x", true, &None, &vec![found(0, &["Matched"])]);
    assert_eq!(fallback.to_list(), vec!["Matched"]);
}

#[test]
fn files_of_the_game_are_told_by_path() {
    assert!(is_log_name_given_dated("debug.log.12", false));
    assert!(!is_log_name_given_dated("debug.log.x", false));
    assert!(is_log_name_given_dated("anything", true));
    assert!(is_probable_minecraft_log_name("2026-02-18-2.log"));
    assert!(!is_probable_minecraft_log_name("2026-02-18.log"));
    assert!(is_potential_minecraft_source_file("c:\\x\\logs\\my.log"));
    assert!(is_potential_minecraft_source_file("AuthenticationDatabase"));
    assert!(!is_potential_minecraft_source_file("c:\\.minecraft\\usercache.json"));
    assert!(is_potential_minecraft_source_file("c:\\.minecraft\\my_profile.json"));
    assert!(!is_potential_minecraft_source_file("c:\\other\\my_profile.json"));
    assert!(should_scan_minecraft_log("logs/latest.log", 10));
    assert!(!should_scan_minecraft_log("latest.log", 8 * 1024 * 1024 + 1));
    assert!(!should_scan_minecraft_log("x.gz", 1));
    assert!(should_scan_minecraft_json("accounts.json", 1));
    assert!(!should_scan_minecraft_json("accounts.json", 4 * 1024 * 1024 + 1));
    assert!(is_trusted_minecraft_account_file("x\\Launcher_Accounts.json"));
    assert_eq!(minecraft_file_action("a\\latest.log", 0), FileAction::Ignore);
    assert_eq!(minecraft_file_action("a\\latest.log", 5), FileAction::ReadLog);
    assert_eq!(minecraft_file_action("a\\accounts.json", 5), FileAction::ReadJson);
    assert_eq!(file_action_given_dated("a\\x.log", 5, true), FileAction::ReadLog);
    assert_eq!(file_action_given_dated("a\\x.log", 5, false), FileAction::Ignore);
    assert!(path_looks_minecraft_related("C:/Games/.Minecraft/x"));
    assert!(looks_like_minecraft_root_name("my.minecraft.backup"));
    assert!(should_skip_walk_dir_entry("Assets"));
    assert!(!should_skip_walk_dir_entry("$stuff"));
    assert!(should_skip_discovery_dir("$stuff"));
    assert_eq!(account_file_names().len(), 9);
}

#[test]
fn candidates_are_judged_and_listed() {
    let mut map: MinecraftCandidates = OrderedMap::new();
    insert_minecraft_candidate(&mut map, "Steve", r"C:\Users\ann\a.log", true);
    insert_minecraft_candidate(&mut map, "STEVE", "b.json", false);
    insert_minecraft_candidate(&mut map, "forge", "b.json", false);
    insert_minecraft_candidate(&mut map, "Player12", "c.log", true);
    insert_minecraft_candidate(&mut map, "x", "c.log", true);
    let mut names = TextSet::new();
    names.insert("Alex".to_string());
    insert_minecraft_names(&mut map, &names, r"C:\Users\ann\c.log", true);
    assert_eq!(map.len(), 4);
    let outcome = minecraft_outcome(map);
    let kept: Vec<&str> = outcome.accounts.iter().map(|a| a.username.as_str()).collect();
    assert_eq!(kept, vec!["Alex", "Steve"]);
    assert_eq!(outcome.accounts[1].sources, vec![r"C:\Users\ann\a.log", "b.json"]);
    let reasons: Vec<&str> = outcome.debug.iter().map(|d| d.reason.as_str()).collect();
    assert_eq!(
        reasons,
        vec![
            "log-evidence:1",
            "structural-word-filter",
            "placeholder-filtered:1",
            "trusted-account-source:1;log:1",
        ]
    );
    assert_eq!(outcome.debug[3].source_count, 2);
    assert_eq!(outcome.debug[3].account_source_count, 1);
    let under = outcome
        .profile_accounts
        .get(&r"C:\Users\ann".to_string())
        .expect("profile");
    assert_eq!(under.to_list(), vec!["Alex", "Steve"]);
}

#[test]
fn links_need_accounts_of_both_kinds() {
    let mut profiles = TextSet::new();
    profiles.insert("p1".to_string());
    profiles.insert("p2".to_string());
    let mut one = TextSet::new();
    one.insert("p2".to_string());
    let mut minecraft = ProfileAccounts::new();
    add_account(&mut minecraft, &profiles, "Steve");
    add_account(&mut minecraft, &one, "Alex");
    let mut discord = ProfileAccounts::new();
    add_account(&mut discord, &one, "jumarf");
    let links = build_profile_links(&minecraft, &discord);
    assert_eq!(links.len(), 1);
    assert_eq!(links[0].profile, "p2");
    assert_eq!(links[0].minecraft_accounts, vec!["Alex", "Steve"]);
    assert_eq!(links[0].discord_accounts, vec!["jumarf"]);
}

#[test]
fn windows_paths_are_taken_apart() {
    assert_eq!(name_of_path(r"C:\a\b.txt"), "b.txt");
    assert_eq!(name_of_path(r"C:\a\b\.\"), "b");
    assert_eq!(name_of_path(r"C:\a\.."), "");
    assert_eq!(name_of_path(r"\\server\share"), "");
    assert_eq!(name_of_path(r"\\?\C:\a\."), "");
    assert_eq!(name_of_path(r"\\?\C:/a"), "a");
    assert_eq!(extension_of_path("x/Y.JSON"), "json");
    assert_eq!(extension_of_path(".gitignore"), "");
    assert!(path_has_segment("a/Logs/b", "logs"));
    assert!(!path_has_segment("a/mylogs/b", "logs"));
    assert_eq!(normalize_path_key("C:/A/b"), r"c:\a\b");
    assert_eq!(
        profile_key_from_path(r"\\?\C:\USERS\bob\x"),
        Some(r"\\?\C:\Users\bob".to_string())
    );
    assert_eq!(
        profile_key_from_path(r"\\srv\users\users\eve"),
        Some(r"\\srv\users\Users\eve".to_string())
    );
    assert_eq!(profile_key_from_path("/Users/kim/x"), Some(r"Users\kim".to_string()));
    assert_eq!(profile_key_from_path(r"C:\Users"), None);
    assert_eq!(profile_key_from_path("ctx"), None);
}

#[test]
fn unique_paths_are_numbered_once() {
    let mut paths = UniquePaths::new();
    assert!(paths.add("C:/b"));
    assert!(paths.add(r"C:\a"));
    assert!(!paths.add(r"c:\B"));
    assert_eq!(paths.order(), vec![1, 0]);
}
