//! A scan of the machine: its options, the places that are looked at, and the
//! report that is made of what was found.

use vstd::prelude::*;

use crate::discord_scan::{DiscordAlt, DiscordAltView, DiscordScanOutcome};
use crate::forensics::{analyze_usn_forensic_signals, forensic_signals};
use crate::minecraft::{is_root_name, looks_like_minecraft_root_name};
use crate::minecraft_accounts::{
    counted_up, MinecraftAlt, MinecraftAltView, MinecraftDebugView, MinecraftDetectionDebug,
    MinecraftScanOutcome,
};
use crate::order::{increasing_texts, lemma_in_order_exists, listed, TextSet};
use crate::profiles::{build_profile_links, profile_links, ProfileLink, ProfileLinkView};
use crate::text::{
    append_texts, begins_with, chars_of, is_text, is_text_ignoring_case, lower, lower_chars,
    same_ignoring_case, starts_with, trim, trim_chars, CharClass,
};
use crate::usn_journal::{UsnJournalReport, UsnReportView, UsnScanOutput};
use crate::views::{opt_view, push_view, views};

verus! {

pub const APP_NAME: &'static str = "RSS-AltsChecker";

pub const SCAN_CANCELLED_MESSAGE: &'static str = "Сканирование остановлено пользователем";

pub const MINECRAFT_SCAN_MAX_DEPTH: usize = 10;

pub const DISCOVERY_SCAN_MAX_DEPTH: usize = 5;

pub const DISCOVERY_MAX_DIRS_PER_PROFILE: usize = 25_000;

// ---------------------------------------------------------------------------
// Options and cancelling
// ---------------------------------------------------------------------------

/// What is scanned. `cancel_flag` is what the flag by which a scan is stopped
/// reads, where there is one.
#[derive(Debug, Clone)]
pub struct ScanOptions {
    pub include_known_launcher_paths: bool,
    pub extra_minecraft_root: Option<String>,
    pub discord_leveldb_dir: Option<String>,
    pub cancel_flag: Option<bool>,
}

impl ScanOptions {
    /// The options that a scan starts from, with the usual directory of Discord.
    pub fn with_discord_dir(discord_leveldb_dir: String) -> (r: ScanOptions)
        ensures
            r.include_known_launcher_paths,
            r.extra_minecraft_root is None,
            opt_view(r.discord_leveldb_dir) == Some(discord_leveldb_dir@),
            r.cancel_flag is None,
    {
        ScanOptions {
            include_known_launcher_paths: true,
            extra_minecraft_root: None,
            discord_leveldb_dir: Some(discord_leveldb_dir),
            cancel_flag: None,
        }
    }
}

pub fn is_cancelled_error(message: &str) -> (r: bool)
    ensures
        r == (trim(message@, CharClass::Space) == SCAN_CANCELLED_MESSAGE@),
{
    let chars = chars_of(message);
    is_text(trim_chars(chars.as_slice(), CharClass::Space), SCAN_CANCELLED_MESSAGE)
}

/// An error, the message of a stopped scan, where the flag is set.
pub fn check_cancelled(options: &ScanOptions) -> (r: Result<(), String>)
    ensures
        r is Err == (options.cancel_flag == Some(true)),
        r is Err ==> r->Err_0@ == SCAN_CANCELLED_MESSAGE@,
{
    match options.cancel_flag {
        Some(true) => Err(SCAN_CANCELLED_MESSAGE.to_string()),
        _ => Ok(()),
    }
}

/// The message of a stopped scan is recognised as one.
pub proof fn law_cancelled_message_recognised()
    ensures
        trim(SCAN_CANCELLED_MESSAGE@, CharClass::Space) == SCAN_CANCELLED_MESSAGE@,
{
    reveal_strlit("Сканирование остановлено пользователем");
    let s = "Сканирование остановлено пользователем"@;
    assert(s.len() == 38);
    assert(s[0] == 'С' && s[37] == 'м');
}

// ---------------------------------------------------------------------------
// Places
// ---------------------------------------------------------------------------

/// A Windows profile that belongs to no user.
pub open spec fn is_shared_profile(name: Seq<char>) -> bool {
    let n = lower(name);
    ||| n == "public"@
    ||| n == "default"@
    ||| n == "default user"@
    ||| n == "all users"@
    ||| n == "defaultapppool"@
}

pub fn should_skip_windows_profile_name(name: &str) -> (r: bool)
    ensures
        r == is_shared_profile(name@),
{
    let chars = chars_of(name);
    let n = lower_chars(chars.as_slice());
    let n = n.as_slice();
    is_text(n, "public") || is_text(n, "default") || is_text(n, "default user") || is_text(
        n,
        "all users",
    ) || is_text(n, "defaultapppool")
}

/// A directory in which a browser keeps one of its profiles.
pub open spec fn is_browser_profile(name: Seq<char>) -> bool {
    let n = lower(name);
    n == "default"@ || n == "guest profile"@ || starts_with(n, "profile "@)
}

pub fn is_browser_profile_name(name: &str) -> (r: bool)
    ensures
        r == is_browser_profile(name@),
{
    let chars = chars_of(name);
    let n = lower_chars(chars.as_slice());
    let n = n.as_slice();
    is_text(n, "default") || is_text(n, "guest profile") || begins_with(n, "profile ")
}

/// Where launchers keep their data below the roaming directory of a user.
pub fn roaming_launcher_dirs() -> (r: Vec<&'static str>)
    ensures
        views(r@) == seq![
            ".minecraft"@,
            ".lunarclient"@,
            ".tlauncher"@,
            "TLauncher"@,
            "Legacy Launcher"@,
            "LegacyLauncher"@,
            "PrismLauncher"@,
            "MultiMC"@,
            "PolyMC"@,
            "ModrinthApp"@,
            "AstralRinth"@,
            "gdlauncher_carbon"@,
            "GDLauncher Carbon"@,
            "CurseForge"@,
            "FTB App"@,
            "FTBApp"@,
            ".ftba"@,
            "HMCL"@,
            ".hmcl"@,
            "SKLauncher"@,
            ".sklauncher"@,
            "Salwyrr"@,
            ".salwyrr"@,
            "LabyMod"@,
            "Feather"@,
            "TechnicLauncher"@,
            ".technic"@,
        ],
{
    let r: Vec<&'static str> = vec![
        ".minecraft",
        ".lunarclient",
        ".tlauncher",
        "TLauncher",
        "Legacy Launcher",
        "LegacyLauncher",
        "PrismLauncher",
        "MultiMC",
        "PolyMC",
        "ModrinthApp",
        "AstralRinth",
        "gdlauncher_carbon",
        "GDLauncher Carbon",
        "CurseForge",
        "FTB App",
        "FTBApp",
        ".ftba",
        "HMCL",
        ".hmcl",
        "SKLauncher",
        ".sklauncher",
        "Salwyrr",
        ".salwyrr",
        "LabyMod",
        "Feather",
        "TechnicLauncher",
        ".technic",
    ];
    assert(views(r@) =~= seq![
        ".minecraft"@,
        ".lunarclient"@,
        ".tlauncher"@,
        "TLauncher"@,
        "Legacy Launcher"@,
        "LegacyLauncher"@,
        "PrismLauncher"@,
        "MultiMC"@,
        "PolyMC"@,
        "ModrinthApp"@,
        "AstralRinth"@,
        "gdlauncher_carbon"@,
        "GDLauncher Carbon"@,
        "CurseForge"@,
        "FTB App"@,
        "FTBApp"@,
        ".ftba"@,
        "HMCL"@,
        ".hmcl"@,
        "SKLauncher"@,
        ".sklauncher"@,
        "Salwyrr"@,
        ".salwyrr"@,
        "LabyMod"@,
        "Feather"@,
        "TechnicLauncher"@,
        ".technic"@,
    ]);
    r
}

/// Where launchers keep their data below the local directory of a user.
pub fn local_launcher_dirs() -> (r: Vec<&'static str>)
    ensures
        views(r@) == seq![
            "Packages\\Microsoft.4297127D64EC6_8wekyb3d8bbwe\\LocalCache\\Roaming\\.minecraft"@,
            "Packages\\Microsoft.4297127D64EC6_8wekyb3d8bbwe\\LocalCache\\Local\\.minecraft"@,
            "Packages\\MinecraftUWP_8wekyb3d8bbwe\\LocalState\\games\\com.mojang"@,
            "PrismLauncher"@,
            "ModrinthApp"@,
            "gdlauncher_carbon"@,
            "CurseForge"@,
        ],
{
    let r: Vec<&'static str> = vec![
        "Packages\\Microsoft.4297127D64EC6_8wekyb3d8bbwe\\LocalCache\\Roaming\\.minecraft",
        "Packages\\Microsoft.4297127D64EC6_8wekyb3d8bbwe\\LocalCache\\Local\\.minecraft",
        "Packages\\MinecraftUWP_8wekyb3d8bbwe\\LocalState\\games\\com.mojang",
        "PrismLauncher",
        "ModrinthApp",
        "gdlauncher_carbon",
        "CurseForge",
    ];
    assert(views(r@) =~= seq![
        "Packages\\Microsoft.4297127D64EC6_8wekyb3d8bbwe\\LocalCache\\Roaming\\.minecraft"@,
        "Packages\\Microsoft.4297127D64EC6_8wekyb3d8bbwe\\LocalCache\\Local\\.minecraft"@,
        "Packages\\MinecraftUWP_8wekyb3d8bbwe\\LocalState\\games\\com.mojang"@,
        "PrismLauncher"@,
        "ModrinthApp"@,
        "gdlauncher_carbon"@,
        "CurseForge"@,
    ]);
    r
}

/// Where launchers keep their data below the home of a user.
pub fn home_launcher_dirs() -> (r: Vec<&'static str>)
    ensures
        views(r@) == seq![
            ".minecraft"@,
            ".lunarclient"@,
            ".tlauncher"@,
            ".local/share/PrismLauncher"@,
            ".local/share/MultiMC"@,
            ".local/share/PolyMC"@,
            ".local/share/ModrinthApp"@,
            ".config/PrismLauncher"@,
            ".config/ModrinthApp"@,
            "Library/Application Support/minecraft"@,
            "Library/Application Support/PrismLauncher"@,
        ],
{
    let r: Vec<&'static str> = vec![
        ".minecraft",
        ".lunarclient",
        ".tlauncher",
        ".local/share/PrismLauncher",
        ".local/share/MultiMC",
        ".local/share/PolyMC",
        ".local/share/ModrinthApp",
        ".config/PrismLauncher",
        ".config/ModrinthApp",
        "Library/Application Support/minecraft",
        "Library/Application Support/PrismLauncher",
    ];
    assert(views(r@) =~= seq![
        ".minecraft"@,
        ".lunarclient"@,
        ".tlauncher"@,
        ".local/share/PrismLauncher"@,
        ".local/share/MultiMC"@,
        ".local/share/PolyMC"@,
        ".local/share/ModrinthApp"@,
        ".config/PrismLauncher"@,
        ".config/ModrinthApp"@,
        "Library/Application Support/minecraft"@,
        "Library/Application Support/PrismLauncher"@,
    ]);
    r
}

/// The names of the Discord clients.
pub fn discord_client_names() -> (r: Vec<&'static str>)
    ensures
        views(r@) == seq!["discord"@, "discordcanary"@, "discordptb"@],
{
    let r: Vec<&'static str> = vec!["discord", "discordcanary", "discordptb"];
    assert(views(r@) =~= seq!["discord"@, "discordcanary"@, "discordptb"@]);
    r
}

/// Where browsers keep their profiles below the local directory of a user.
pub fn browser_userdata_dirs() -> (r: Vec<&'static str>)
    ensures
        views(r@) == seq![
            "Google\\Chrome\\User Data"@,
            "Microsoft\\Edge\\User Data"@,
            "BraveSoftware\\Brave-Browser\\User Data"@,
            "Vivaldi\\User Data"@,
            "Yandex\\YandexBrowser\\User Data"@,
        ],
{
    let r: Vec<&'static str> = vec![
        "Google\\Chrome\\User Data",
        "Microsoft\\Edge\\User Data",
        "BraveSoftware\\Brave-Browser\\User Data",
        "Vivaldi\\User Data",
        "Yandex\\YandexBrowser\\User Data",
    ];
    assert(views(r@) =~= seq![
        "Google\\Chrome\\User Data"@,
        "Microsoft\\Edge\\User Data"@,
        "BraveSoftware\\Brave-Browser\\User Data"@,
        "Vivaldi\\User Data"@,
        "Yandex\\YandexBrowser\\User Data"@,
    ]);
    r
}

/// Where Opera keeps its storage below the roaming directory of a user.
pub fn opera_leveldb_dirs() -> (r: Vec<&'static str>)
    ensures
        views(r@) == seq![
            "Opera Software\\Opera Stable\\Local Storage\\leveldb"@,
            "Opera Software\\Opera GX Stable\\Local Storage\\leveldb"@,
        ],
{
    let r: Vec<&'static str> = vec![
        "Opera Software\\Opera Stable\\Local Storage\\leveldb",
        "Opera Software\\Opera GX Stable\\Local Storage\\leveldb",
    ];
    assert(views(r@) =~= seq![
        "Opera Software\\Opera Stable\\Local Storage\\leveldb"@,
        "Opera Software\\Opera GX Stable\\Local Storage\\leveldb"@,
    ]);
    r
}

/// The files of a browser's profile that may name a Discord account.
pub fn browser_discord_context_files() -> (r: Vec<&'static str>)
    ensures
        views(r@) == seq!["History"@, "Web Data"@, "Shortcuts"@],
{
    let r: Vec<&'static str> = vec!["History", "Web Data", "Shortcuts"];
    assert(views(r@) =~= seq!["History"@, "Web Data"@, "Shortcuts"@]);
    r
}

/// What is done with a directory that is met while roots are looked for.
#[derive(Debug, Clone, Copy, PartialEq, Eq, Structural)]
pub enum DiscoveryStep {
    /// Too many directories were met: the search ends.
    LimitReached,
    Root,
    PassOver,
}

/// What is done with the directory `name`, after `visited` others; `has_files`
/// says whether it holds what the root of a launcher holds.
pub fn discovery_step(visited: usize, name: &str, has_files: bool) -> (r: DiscoveryStep)
    ensures
        r == if visited >= DISCOVERY_MAX_DIRS_PER_PROFILE {
            DiscoveryStep::LimitReached
        } else if is_root_name(lower(name@)) || has_files {
            DiscoveryStep::Root
        } else {
            DiscoveryStep::PassOver
        },
{
    if visited >= DISCOVERY_MAX_DIRS_PER_PROFILE {
        return DiscoveryStep::LimitReached;
    }
    let low = crate::text::to_lower(name);
    if looks_like_minecraft_root_name(low.as_str()) || has_files {
        DiscoveryStep::Root
    } else {
        DiscoveryStep::PassOver
    }
}

// ---------------------------------------------------------------------------
// Counting
// ---------------------------------------------------------------------------

#[derive(Debug, Clone, Copy, Default)]
pub struct ScanStats {
    pub minecraft_roots: usize,
    pub minecraft_files_scanned: usize,
    pub minecraft_log_files_scanned: usize,
    pub minecraft_json_files_scanned: usize,
    pub logs_directories_found: usize,
    pub discord_files_scanned: usize,
}

impl ScanStats {
    pub fn new() -> (r: ScanStats)
        ensures
            r == (ScanStats {
                minecraft_roots: 0,
                minecraft_files_scanned: 0,
                minecraft_log_files_scanned: 0,
                minecraft_json_files_scanned: 0,
                logs_directories_found: 0,
                discord_files_scanned: 0,
            }),
    {
        ScanStats {
            minecraft_roots: 0,
            minecraft_files_scanned: 0,
            minecraft_log_files_scanned: 0,
            minecraft_json_files_scanned: 0,
            logs_directories_found: 0,
            discord_files_scanned: 0,
        }
    }

    /// Counts a directory where it is called `logs`, in any case.
    pub fn count_directory(&mut self, name: &str)
        ensures
            *final(self) == (ScanStats {
                logs_directories_found: if same_ignoring_case(name@, "logs"@) {
                    counted_up(old(self).logs_directories_found as nat) as usize
                } else {
                    old(self).logs_directories_found
                },
                ..*old(self)
            }),
    {
        let chars = chars_of(name);
        if is_text_ignoring_case(chars.as_slice(), "logs") {
            self.logs_directories_found = self.logs_directories_found.saturating_add(1);
        }
    }

    /// Counts a log that is read.
    pub fn count_log(&mut self)
        ensures
            *final(self) == (ScanStats {
                minecraft_files_scanned: counted_up(
                    old(self).minecraft_files_scanned as nat,
                ) as usize,
                minecraft_log_files_scanned: counted_up(
                    old(self).minecraft_log_files_scanned as nat,
                ) as usize,
                ..*old(self)
            }),
    {
        self.minecraft_files_scanned = self.minecraft_files_scanned.saturating_add(1);
        self.minecraft_log_files_scanned = self.minecraft_log_files_scanned.saturating_add(1);
    }

    /// Counts a JSON file that is read.
    pub fn count_json(&mut self)
        ensures
            *final(self) == (ScanStats {
                minecraft_files_scanned: counted_up(
                    old(self).minecraft_files_scanned as nat,
                ) as usize,
                minecraft_json_files_scanned: counted_up(
                    old(self).minecraft_json_files_scanned as nat,
                ) as usize,
                ..*old(self)
            }),
    {
        self.minecraft_files_scanned = self.minecraft_files_scanned.saturating_add(1);
        self.minecraft_json_files_scanned = self.minecraft_json_files_scanned.saturating_add(1);
    }

    /// Counts files of Discord.
    pub fn count_discord(&mut self, files: usize)
        ensures
            *final(self) == (ScanStats {
                discord_files_scanned: crate::usn_journal::added_up(
                    old(self).discord_files_scanned as nat,
                    files as nat,
                ) as usize,
                ..*old(self)
            }),
    {
        self.discord_files_scanned = self.discord_files_scanned.saturating_add(files);
    }
}

// ---------------------------------------------------------------------------
// The report
// ---------------------------------------------------------------------------

#[derive(Debug, Clone)]
pub struct ScanReport {
    pub app: String,
    pub generated_at: String,
    pub report_file: String,
    pub minecraft_accounts: Vec<MinecraftAlt>,
    pub minecraft_detection_debug: Vec<MinecraftDetectionDebug>,
    pub discord_accounts: Vec<DiscordAlt>,
    pub profile_links: Vec<ProfileLink>,
    pub forensic_signals: Vec<String>,
    pub usn_journal: Option<UsnJournalReport>,
    pub scanned_locations: Vec<String>,
    pub warnings: Vec<String>,
    pub stats: ScanStats,
}

#[verifier::ext_equal]
pub struct ScanReportView {
    pub app: Seq<char>,
    pub generated_at: Seq<char>,
    pub report_file: Seq<char>,
    pub minecraft_accounts: Seq<MinecraftAltView>,
    pub minecraft_detection_debug: Seq<MinecraftDebugView>,
    pub discord_accounts: Seq<DiscordAltView>,
    pub profile_links: Seq<ProfileLinkView>,
    pub forensic_signals: Seq<Seq<char>>,
    pub usn_journal: Option<UsnReportView>,
    pub scanned_locations: Seq<Seq<char>>,
    pub warnings: Seq<Seq<char>>,
    pub stats: ScanStats,
}

impl View for ScanReport {
    type V = ScanReportView;

    open spec fn view(&self) -> ScanReportView {
        ScanReportView {
            app: self.app@,
            generated_at: self.generated_at@,
            report_file: self.report_file@,
            minecraft_accounts: views(self.minecraft_accounts@),
            minecraft_detection_debug: views(self.minecraft_detection_debug@),
            discord_accounts: views(self.discord_accounts@),
            profile_links: views(self.profile_links@),
            forensic_signals: views(self.forensic_signals@),
            usn_journal: opt_view(self.usn_journal),
            scanned_locations: views(self.scanned_locations@),
            warnings: views(self.warnings@),
            stats: self.stats,
        }
    }
}

/// The places that a scan went to, each as shown.
#[derive(Debug, Clone)]
pub struct ScannedPlaces {
    pub minecraft_roots: Vec<String>,
    pub discord_dirs: Vec<String>,
    pub discord_context_files: Vec<String>,
}

/// `label` before each of `places`.
pub open spec fn labelled(label: Seq<char>, places: Seq<Seq<char>>) -> Seq<Seq<char>> {
    places.map_values(|p: Seq<char>| label + p)
}

fn push_labelled(out: &mut Vec<String>, label: &str, places: &Vec<String>)
    ensures
        views(final(out)@) == views(old(out)@) + labelled(label@, views(places@)),
{
    let ghost start = views(out@);
    let ghost more = labelled(label@, views(places@));
    assert(start + more.take(0) =~= start);
    for i in 0..places.len()
        invariant
            more == labelled(label@, views(places@)),
            views(out@) == start + more.take(i as int),
    {
        let mut text = label.to_string();
        text.push_str(places[i].as_str());
        assert(more[i as int] == text@);
        push_view(out, text);
        assert(views(out@) =~= start + more.take(i + 1));
    }
    assert(more.take(more.len() as int) =~= more);
}

/// The places of a scan, each with what it is.
pub open spec fn all_locations(places: ScannedPlaces, usn: Seq<Seq<char>>) -> Seq<Seq<char>> {
    labelled("minecraft_root: "@, views(places.minecraft_roots@)) + labelled(
        "discord_leveldb: "@,
        views(places.discord_dirs@),
    ) + labelled("discord_context: "@, views(places.discord_context_files@)) + usn
}

/// The signals of a scan: those of the journals, and that no account was found.
pub open spec fn all_signals(
    usn: Option<UsnReportView>,
    no_discord: bool,
    no_minecraft: bool,
) -> Seq<Seq<char>> {
    forensic_signals(usn) + if no_discord {
        seq!["Discord: аккаунты не обнаружены"@]
    } else {
        Seq::empty()
    } + if no_minecraft {
        seq!["Minecraft: аккаунты не обнаружены"@]
    } else {
        Seq::empty()
    }
}

/// The texts of a list, each once, in increasing order.
pub fn sorted_texts(list: &Vec<String>) -> (r: Vec<String>)
    ensures
        views(r@) == listed(views(list@).to_set()),
{
    let ghost all = views(list@);
    let mut set = TextSet::new();
    assert(all.take(0).to_set() =~= Set::<Seq<char>>::empty());
    for i in 0..list.len()
        invariant
            all == views(list@),
            set@ == all.take(i as int).to_set(),
    {
        proof {
            assert(all.take(i + 1) =~= all.take(i as int).push(all[i as int]));
            all.take(i as int).lemma_push_to_set_commute(all[i as int]);
        }
        set.insert(list[i].clone());
    }
    assert(all.take(all.len() as int) =~= all);
    set.to_list()
}

/// Sorting drops repetitions and nothing else, and puts the texts in increasing
/// order.
pub proof fn law_sorted_texts(list: Seq<Seq<char>>, text: Seq<char>)
    ensures
        increasing_texts(listed(list.to_set())),
        listed(list.to_set()).contains(text) <==> list.contains(text),
{
    list.lemma_cardinality_of_set();
    vstd::seq_lib::seq_to_set_is_finite(list);
    lemma_in_order_exists::<String>(list.to_set());
    assert(listed(list.to_set()).to_set().contains(text) <==> list.to_set().contains(text));
}

/// The report of a scan.
pub open spec fn scan_report(
    minecraft_accounts: Seq<MinecraftAltView>,
    minecraft_debug: Seq<MinecraftDebugView>,
    discord_accounts: Seq<DiscordAltView>,
    links: Seq<ProfileLinkView>,
    usn_report: Option<UsnReportView>,
    locations: Seq<Seq<char>>,
    warnings: Seq<Seq<char>>,
    stats: ScanStats,
    generated_at: Seq<char>,
) -> ScanReportView {
    ScanReportView {
        app: APP_NAME@,
        generated_at,
        report_file: Seq::empty(),
        minecraft_accounts,
        minecraft_detection_debug: minecraft_debug,
        discord_accounts,
        profile_links: links,
        forensic_signals: listed(
            all_signals(
                usn_report,
                discord_accounts.len() == 0,
                minecraft_accounts.len() == 0,
            ).to_set(),
        ),
        usn_journal: usn_report,
        scanned_locations: listed(locations.to_set()),
        warnings: listed(warnings.to_set()),
        stats,
    }
}

/// What a scan found: the accounts of both kinds, what the journals say, where
/// was looked, what was complained of, and what was counted.
#[derive(Debug)]
pub struct ScanFindings {
    pub minecraft: MinecraftScanOutcome,
    pub discord: DiscordScanOutcome,
    pub usn: UsnScanOutput,
    pub places: ScannedPlaces,
    pub warnings: Vec<String>,
    pub stats: ScanStats,
}

/// The report of what a scan found.
pub open spec fn report_of(found: ScanFindings, generated_at: Seq<char>) -> ScanReportView {
    scan_report(
        views(found.minecraft.accounts@),
        views(found.minecraft.debug@),
        views(found.discord.accounts@),
        profile_links(found.minecraft.profile_accounts@, found.discord.profile_accounts@),
        found.usn@.report,
        all_locations(found.places, found.usn@.scanned_locations),
        views(found.warnings@) + found.usn@.warnings,
        found.stats,
        generated_at,
    )
}

/// Puts the report of a scan together.
fn put_together(found: ScanFindings, generated_at: String) -> (r: ScanReport)
    ensures
        r@ == report_of(found, generated_at@),
{
    let minecraft = found.minecraft;
    let discord = found.discord;
    let usn = found.usn;
    let places = found.places;
    let stats = found.stats;
    let mut signals = analyze_usn_forensic_signals(&usn.report);
    let mut warnings = found.warnings;
    append_texts(&mut warnings, &usn.warnings);
    let ghost found = views(signals@);
    assert(views(discord.accounts@).len() == discord.accounts@.len());
    assert(views(minecraft.accounts@).len() == minecraft.accounts@.len());
    if discord.accounts.len() == 0 {
        push_view(&mut signals, "Discord: аккаунты не обнаружены".to_string());
    }
    if minecraft.accounts.len() == 0 {
        push_view(&mut signals, "Minecraft: аккаунты не обнаружены".to_string());
    }
    assert(views(signals@) =~= all_signals(
        usn@.report,
        discord.accounts@.len() == 0,
        minecraft.accounts@.len() == 0,
    ));
    let links = build_profile_links(&minecraft.profile_accounts, &discord.profile_accounts);
    let mut locations: Vec<String> = Vec::new();
    assert(views(locations@) =~= Seq::empty());
    push_labelled(&mut locations, "minecraft_root: ", &places.minecraft_roots);
    push_labelled(&mut locations, "discord_leveldb: ", &places.discord_dirs);
    push_labelled(&mut locations, "discord_context: ", &places.discord_context_files);
    append_texts(&mut locations, &usn.scanned_locations);
    assert(views(locations@) =~= all_locations(places, usn@.scanned_locations));
    let report_file = String::new();
    assert(report_file@ =~= Seq::empty());
    ScanReport {
        app: APP_NAME.to_string(),
        generated_at,
        report_file,
        minecraft_accounts: minecraft.accounts,
        minecraft_detection_debug: minecraft.debug,
        discord_accounts: discord.accounts,
        profile_links: links,
        forensic_signals: sorted_texts(&signals),
        usn_journal: usn.report,
        scanned_locations: sorted_texts(&locations),
        warnings: sorted_texts(&warnings),
        stats,
    }
}

/// How a scan ends: stopped where the flag is set, else with the error that
/// ended it early, else with its report.
pub open spec fn scan_outcome(
    cancel_flag: Option<bool>,
    found: Result<ScanFindings, String>,
    generated_at: Seq<char>,
) -> Result<ScanReportView, Seq<char>> {
    if cancel_flag == Some(true) {
        Err(SCAN_CANCELLED_MESSAGE@)
    } else {
        match found {
            Ok(findings) => Ok(report_of(findings, generated_at)),
            Err(e) => Err(e@),
        }
    }
}

/// Ends a scan that found `found`, or that an error ended early. The flag in
/// `options` is read when this is known; where it is set there is no report.
pub fn scan(
    options: &ScanOptions,
    found: Result<ScanFindings, String>,
    generated_at: String,
) -> (r: Result<ScanReport, String>)
    ensures
        match r {
            Ok(report) => scan_outcome(options.cancel_flag, found, generated_at@) == Ok::<
                ScanReportView,
                Seq<char>,
            >(report@),
            Err(e) => scan_outcome(options.cancel_flag, found, generated_at@) == Err::<
                ScanReportView,
                Seq<char>,
            >(e@),
        },
{
    match check_cancelled(options) {
        Err(e) => Err(e),
        Ok(()) => match found {
            Ok(findings) => Ok(put_together(findings, generated_at)),
            Err(e) => Err(e),
        },
    }
}

/// A scan whose flag is set ends, whatever it found, with an error that is
/// recognised as that of a stopped scan; there is no report, and none is written.
pub proof fn law_cancelled_scan(
    found: Result<ScanFindings, String>,
    generated_at: Seq<char>,
    output_path: Seq<char>,
)
    ensures
        ({
            let ended = scan_outcome(Some(true), found, generated_at);
            &&& ended is Err
            &&& trim(ended->Err_0, CharClass::Space) == SCAN_CANCELLED_MESSAGE@
            &&& after_scan(ended, output_path) == RunStepView::Done(ended)
        }),
{
    law_cancelled_message_recognised();
}

// ---------------------------------------------------------------------------
// The report file
// ---------------------------------------------------------------------------

/// What happened in a run: a scan ended, or a report was written or not.
#[derive(Debug)]
pub enum RunEvent {
    Scanned(Result<ScanReport, String>),
    Written(ScanReport, Result<(), String>),
}

/// What a run does next: it writes a report to its file, or it is done.
#[derive(Debug)]
pub enum RunStep {
    Write(ScanReport),
    Done(Result<ScanReport, String>),
}

pub enum RunStepView {
    Write(ScanReportView),
    Done(Result<ScanReportView, Seq<char>>),
}

pub open spec fn result_views(r: Result<ScanReport, String>) -> Result<ScanReportView, Seq<char>> {
    match r {
        Ok(report) => Ok(report@),
        Err(e) => Err(e@),
    }
}

impl View for RunStep {
    type V = RunStepView;

    open spec fn view(&self) -> RunStepView {
        match self {
            RunStep::Write(report) => RunStepView::Write(report@),
            RunStep::Done(result) => RunStepView::Done(result_views(*result)),
        }
    }
}

/// After a scan its report is written, which says where; an error ends the run.
pub open spec fn after_scan(
    scanned: Result<ScanReportView, Seq<char>>,
    output_path: Seq<char>,
) -> RunStepView {
    match scanned {
        Ok(report) => RunStepView::Write(
            ScanReportView { report_file: output_path, ..report },
        ),
        Err(e) => RunStepView::Done(Err(e)),
    }
}

/// After a report was written, it is the result of the run; where that failed,
/// the error is.
pub open spec fn after_writing(
    report: ScanReportView,
    written: Result<(), Seq<char>>,
) -> RunStepView {
    RunStepView::Done(
        match written {
            Ok(_) => Ok(report),
            Err(e) => Err(e),
        },
    )
}

/// What a run whose report goes to `output_path` does next.
pub fn run_scan(event: RunEvent, output_path: &str) -> (r: RunStep)
    ensures
        r@ == match event {
            RunEvent::Scanned(scanned) => after_scan(result_views(scanned), output_path@),
            RunEvent::Written(report, written) => after_writing(
                report@,
                match written {
                    Ok(_) => Ok(()),
                    Err(e) => Err(e@),
                },
            ),
        },
{
    match event {
        RunEvent::Scanned(Ok(report)) => RunStep::Write(
            ScanReport { report_file: output_path.to_string(), ..report },
        ),
        RunEvent::Scanned(Err(e)) => RunStep::Done(Err(e)),
        RunEvent::Written(report, Ok(())) => RunStep::Done(Ok(report)),
        RunEvent::Written(_, Err(e)) => RunStep::Done(Err(e)),
    }
}

/// A run returns the very report that it had written, which is that of the scan
/// but for the file it names. Where the scan fails nothing is written, and where
/// the writing fails its error is returned.
pub proof fn law_written_report_is_returned(
    scanned: Result<ScanReportView, Seq<char>>,
    output_path: Seq<char>,
    written: Result<(), Seq<char>>,
)
    ensures
        scanned is Err ==> after_scan(scanned, output_path) == RunStepView::Done(scanned),
        scanned is Ok ==> {
            let report = ScanReportView { report_file: output_path, ..scanned->Ok_0 };
            &&& after_scan(scanned, output_path) == RunStepView::Write(report)
            &&& written is Ok ==> after_writing(report, written) == RunStepView::Done(Ok(report))
            &&& written is Err ==> after_writing(report, written) == RunStepView::Done(
                Err(written->Err_0),
            )
        },
{
}

} // verus!
