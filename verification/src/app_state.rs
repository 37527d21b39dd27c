//! What the window shows: the state of a scan, the log of events, and the texts
//! made of a report.

use vstd::prelude::*;

use crate::discord_scan::{DiscordAlt, DiscordAltView};
use crate::minecraft::{is_placeholder, is_structural_word};
use crate::minecraft_accounts::{
    verdict, MinecraftAlt, MinecraftAltView, MinecraftCandidateView, MinecraftDebugView,
    MinecraftDetectionDebug,
};
use crate::paths::{components, names_nothing, normal_components, parse_path, prefix};
use crate::profiles::{ProfileLink, ProfileLinkView};
use crate::scanner::{is_cancelled_error, ScanReport, ScanReportView, SCAN_CANCELLED_MESSAGE};
use crate::text::{
    after_prefix, begins_with, chars_of, contains, decimal, has_text, is_text_ignoring_case,
    law_decimal_roundtrip, lemma_decimal, lemma_split_two, lower, lower_chars, number_text,
    parse_unsigned, parse_usize, push_number, same_ignoring_case, same_text, split, split_chars,
    starts_with, strip_start, trim, with_number, CharClass,
};
use crate::usn_journal::{UsnJournalReport, UsnReportView};
use crate::views::{opt_view, push_view, views};

verus! {

// ---------------------------------------------------------------------------
// State
// ---------------------------------------------------------------------------

#[derive(Debug, Clone, Copy, PartialEq, Eq, Structural)]
pub enum StatusState {
    Idle,
    Scanning,
    Done,
    Error,
}

/// What the window shows.
#[derive(Debug)]
pub struct AppState {
    pub report: Option<ScanReport>,
    pub status_line: String,
    pub status_state: StatusState,
    pub error_message: Option<String>,
    pub is_scanning: bool,
    pub has_started: bool,
    pub event_log: Vec<String>,
    pub ghost_mode: bool,
    pub is_dark_theme: bool,
}

#[verifier::ext_equal]
pub struct AppView {
    pub report: Option<ScanReportView>,
    pub status_line: Seq<char>,
    pub status_state: StatusState,
    pub error_message: Option<Seq<char>>,
    pub is_scanning: bool,
    pub has_started: bool,
    pub event_log: Seq<Seq<char>>,
    pub ghost_mode: bool,
    pub is_dark_theme: bool,
}

impl View for AppState {
    type V = AppView;

    open spec fn view(&self) -> AppView {
        AppView {
            report: opt_view(self.report),
            status_line: self.status_line@,
            status_state: self.status_state,
            error_message: opt_view(self.error_message),
            is_scanning: self.is_scanning,
            has_started: self.has_started,
            event_log: views(self.event_log@),
            ghost_mode: self.ghost_mode,
            is_dark_theme: self.is_dark_theme,
        }
    }
}

/// A line of the log of events.
pub open spec fn event_line(time: Seq<char>, message: Seq<char>) -> Seq<char> {
    time + "  "@ + message
}

pub fn format_event(time: &str, message: &str) -> (r: String)
    ensures
        r@ == event_line(time@, message@),
{
    let mut line = time.to_string();
    line.push_str("  ");
    line.push_str(message);
    line
}

/// The log after more messages, all at the same time.
pub open spec fn logged(log: Seq<Seq<char>>, time: Seq<char>, messages: Seq<Seq<char>>) -> Seq<
    Seq<char>,
> {
    log + messages.map_values(|m: Seq<char>| event_line(time, m))
}

/// How many accounts of each kind were found, behind `before`.
pub open spec fn counts_text(before: Seq<char>, discord: nat, minecraft: nat) -> Seq<char> {
    with_number(with_number(before, discord, " | Minecraft "@), minecraft, ""@)
}

fn counts_message(before: &str, discord: usize, minecraft: usize) -> (r: String)
    ensures
        r@ == counts_text(before@, discord as nat, minecraft as nat),
{
    let mut out = number_text(before, discord as u64, " | Minecraft ");
    push_number(&mut out, minecraft as u64, "");
    out
}

/// What is said of the journals.
pub open spec fn usn_message(r: UsnReportView) -> Seq<char> {
    let status = if starts_with(lower(r.status), "usn"@) {
        r.status
    } else {
        "USN: "@ + r.status
    };
    with_number(status + " | records "@, r.scanned_records, ""@)
}

pub fn usn_event(report: &UsnJournalReport) -> (r: String)
    ensures
        r@ == usn_message(report@),
{
    let chars = chars_of(report.status.as_str());
    let low = lower_chars(chars.as_slice());
    let mut out = String::new();
    assert(out@ =~= Seq::empty());
    if !begins_with(low.as_slice(), "usn") {
        out.push_str("USN: ");
        assert(out@ =~= "USN: "@);
    }
    out.push_str(report.status.as_str());
    assert(begins_with_usn(report@.status) ==> out@ =~= report@.status);
    out.push_str(" | records ");
    push_number(&mut out, report.scanned_records as u64, "");
    out
}

spec fn begins_with_usn(status: Seq<char>) -> bool {
    starts_with(lower(status), "usn"@)
}

/// What is said of the warnings of a scan: how many there are, and each.
pub open spec fn warning_messages(warnings: Seq<Seq<char>>) -> Seq<Seq<char>> {
    if warnings.len() == 0 {
        Seq::empty()
    } else {
        seq![with_number("Предупреждений при сканировании: "@, warnings.len(), ""@)]
            + warnings.map_values(|w: Seq<char>| "Warning: "@ + w)
    }
}

/// What is said of a finished scan.
pub open spec fn report_messages(r: ScanReportView) -> Seq<Seq<char>> {
    seq![
        counts_text(
            "Сканирование завершено: Discord "@,
            r.discord_accounts.len(),
            r.minecraft_accounts.len(),
        ),
    ] + (match r.usn_journal {
        Some(usn) => seq![usn_message(usn)],
        None => Seq::empty(),
    }) + r.forensic_signals + warning_messages(r.warnings)
}

/// The state when the program starts.
pub open spec fn started(time: Seq<char>) -> AppView {
    AppView {
        report: None,
        status_line: Seq::empty(),
        status_state: StatusState::Idle,
        error_message: None,
        is_scanning: false,
        has_started: false,
        event_log: seq![event_line(time, "Приложение запущено"@)],
        ghost_mode: false,
        is_dark_theme: true,
    }
}

/// The state after a scan was asked for. While one runs, nothing changes.
pub open spec fn scan_started(s: AppView, time: Seq<char>) -> AppView {
    if s.is_scanning {
        s
    } else {
        AppView {
            has_started: true,
            is_scanning: true,
            report: None,
            error_message: None,
            status_state: StatusState::Scanning,
            status_line: "Сканирование..."@,
            event_log: logged(
                s.event_log,
                time,
                seq!["Запущено сканирование Minecraft + Discord"@],
            ),
            ..s
        }
    }
}

/// The state after a scan ended: with a report, stopped by the user, or with an
/// error. Only a report replaces the one that was shown.
pub open spec fn scan_ended(s: AppView, result: Result<ScanReportView, Seq<char>>, time: Seq<char>) -> AppView {
    match result {
        Ok(report) => AppView {
            is_scanning: false,
            status_state: StatusState::Done,
            status_line: counts_text(
                "Готово: Discord "@,
                report.discord_accounts.len(),
                report.minecraft_accounts.len(),
            ),
            error_message: None,
            event_log: logged(s.event_log, time, report_messages(report)),
            report: Some(report),
            ..s
        },
        Err(error) => if trim(error, CharClass::Space) == SCAN_CANCELLED_MESSAGE@ {
            AppView {
                is_scanning: false,
                status_state: StatusState::Idle,
                status_line: SCAN_CANCELLED_MESSAGE@,
                error_message: None,
                event_log: logged(s.event_log, time, seq![SCAN_CANCELLED_MESSAGE@]),
                ..s
            }
        } else {
            AppView {
                is_scanning: false,
                status_state: StatusState::Error,
                status_line: "Ошибка сканирования"@,
                error_message: Some(error),
                event_log: logged(s.event_log, time, seq!["Ошибка: "@ + error]),
                ..s
            }
        },
    }
}

impl AppState {
    /// The state when the program starts, at `time`.
    pub fn new(time: &str) -> (r: AppState)
        ensures
            r@ == started(time@),
    {
        let mut event_log: Vec<String> = Vec::new();
        push_view(&mut event_log, format_event(time, "Приложение запущено"));
        assert(views(event_log@) =~= seq![event_line(time@, "Приложение запущено"@)]);
        let status_line = String::new();
        assert(status_line@ =~= Seq::empty());
        AppState {
            report: None,
            status_line,
            status_state: StatusState::Idle,
            error_message: None,
            is_scanning: false,
            has_started: false,
            event_log,
            ghost_mode: false,
            is_dark_theme: true,
        }
    }

    /// Adds a message to the log of events.
    pub fn push_event(&mut self, time: &str, message: &str)
        ensures
            final(self)@ == (AppView {
                event_log: logged(old(self)@.event_log, time@, seq![message@]),
                ..old(self)@
            }),
    {
        push_view(&mut self.event_log, format_event(time, message));
        assert(views(self.event_log@) =~= logged(old(self)@.event_log, time@, seq![message@]));
    }

    fn push_events(&mut self, time: &str, messages: &Vec<String>)
        ensures
            final(self)@ == (AppView {
                event_log: logged(old(self)@.event_log, time@, views(messages@)),
                ..old(self)@
            }),
    {
        let ghost all = views(messages@);
        let ghost start = self@;
        assert(logged(start.event_log, time@, all.take(0)) =~= start.event_log);
        for i in 0..messages.len()
            invariant
                all == views(messages@),
                self@ == (AppView {
                    event_log: logged(start.event_log, time@, all.take(i as int)),
                    ..start
                }),
        {
            let ghost before = self@.event_log;
            self.push_event(time, messages[i].as_str());
            assert(all.take(i + 1) =~= all.take(i as int).push(messages@[i as int]@));
            assert(logged(before, time@, seq![messages@[i as int]@]) =~= logged(
                start.event_log,
                time@,
                all.take(i + 1),
            ));
        }
        assert(all.take(all.len() as int) =~= all);
    }

    /// Asks for a scan; gives whether one is to be started.
    pub fn start_scan(&mut self, time: &str) -> (r: bool)
        ensures
            r == !old(self).is_scanning,
            final(self)@ == scan_started(old(self)@, time@),
    {
        if self.is_scanning {
            return false;
        }
        self.has_started = true;
        self.is_scanning = true;
        self.report = None;
        self.error_message = None;
        self.status_state = StatusState::Scanning;
        self.status_line = "Сканирование...".to_string();
        self.push_event(time, "Запущено сканирование Minecraft + Discord");
        true
    }

    /// Takes in how a scan ended.
    pub fn finish_scan(&mut self, result: Result<ScanReport, String>, time: &str)
        ensures
            final(self)@ == scan_ended(
                old(self)@,
                match result {
                    Ok(report) => Ok(report@),
                    Err(e) => Err(e@),
                },
                time@,
            ),
    {
        self.is_scanning = false;
        match result {
            Ok(report) => {
                let discord_count: usize = report.discord_accounts.len();
                let minecraft_count: usize = report.minecraft_accounts.len();
                assert(report@.discord_accounts.len() == discord_count);
                assert(report@.minecraft_accounts.len() == minecraft_count);
                self.status_state = StatusState::Done;
                self.status_line = counts_message(
                    "Готово: Discord ",
                    discord_count,
                    minecraft_count,
                );
                self.error_message = None;
                let messages = messages_of_report(&report);
                self.push_events(time, &messages);
                self.report = Some(report);
            },
            Err(error) => {
                if is_cancelled_error(error.as_str()) {
                    self.status_state = StatusState::Idle;
                    self.status_line = SCAN_CANCELLED_MESSAGE.to_string();
                    self.error_message = None;
                    self.push_event(time, SCAN_CANCELLED_MESSAGE);
                } else {
                    self.status_state = StatusState::Error;
                    self.status_line = "Ошибка сканирования".to_string();
                    let mut message = "Ошибка: ".to_string();
                    message.push_str(error.as_str());
                    self.error_message = Some(error);
                    self.push_event(time, message.as_str());
                }
            },
        }
    }

    /// Switches the mode in which accounts are not shown.
    pub fn toggle_ghost_mode(&mut self, time: &str)
        ensures
            final(self)@ == (AppView {
                ghost_mode: !old(self).ghost_mode,
                event_log: logged(
                    old(self)@.event_log,
                    time@,
                    seq![
                        if old(self).ghost_mode {
                            "Выключен режим ghost mode"@
                        } else {
                            "Включен режим ghost mode"@
                        },
                    ],
                ),
                ..old(self)@
            }),
    {
        self.ghost_mode = !self.ghost_mode;
        if self.ghost_mode {
            self.push_event(time, "Включен режим ghost mode");
        } else {
            self.push_event(time, "Выключен режим ghost mode");
        }
    }
}

fn messages_of_report(report: &ScanReport) -> (r: Vec<String>)
    ensures
        views(r@) == report_messages(report@),
{
    let mut out: Vec<String> = Vec::new();
    assert(report@.discord_accounts.len() == report.discord_accounts@.len());
    assert(report@.minecraft_accounts.len() == report.minecraft_accounts@.len());
    push_view(
        &mut out,
        counts_message(
            "Сканирование завершено: Discord ",
            report.discord_accounts.len(),
            report.minecraft_accounts.len(),
        ),
    );
    if let Some(usn) = &report.usn_journal {
        push_view(&mut out, usn_event(usn));
    }
    crate::text::append_texts(&mut out, &report.forensic_signals);
    let ghost before = views(out@);
    let ghost complaints = report@.warnings.map_values(|w: Seq<char>| "Warning: "@ + w);
    assert(report@.warnings.len() == report.warnings@.len());
    if report.warnings.len() > 0 {
        push_view(
            &mut out,
            number_text("Предупреждений при сканировании: ", report.warnings.len() as u64, ""),
        );
        let ghost headed = views(out@);
        assert(headed + complaints.take(0) =~= headed);
        for i in 0..report.warnings.len()
            invariant
                complaints == views(report.warnings@).map_values(
                    |w: Seq<char>| "Warning: "@ + w,
                ),
                views(out@) == headed + complaints.take(i as int),
        {
            let mut message = "Warning: ".to_string();
            message.push_str(report.warnings[i].as_str());
            assert(complaints[i as int] == message@);
            push_view(&mut out, message);
            assert(views(out@) =~= headed + complaints.take(i + 1));
        }
        assert(complaints.take(complaints.len() as int) =~= complaints);
        assert(views(out@) =~= before + warning_messages(report@.warnings));
    } else {
        assert(views(out@) =~= before + warning_messages(report@.warnings));
    }
    assert(views(out@) =~= report_messages(report@));
    out
}

/// A scan that was started and has ended leaves the window ready for another.
pub proof fn law_scan_can_restart(s: AppView, result: Result<ScanReportView, Seq<char>>, time: Seq<char>)
    ensures
        !scan_ended(s, result, time).is_scanning,
        scan_started(scan_ended(s, result, time), time).is_scanning,
        scan_started(scan_ended(s, result, time), time).report is None,
{
}

/// Neither the start nor the end of a scan takes an event off the log.
pub proof fn law_log_grows(s: AppView, result: Result<ScanReportView, Seq<char>>, time: Seq<char>)
    ensures
        scan_ended(s, result, time).event_log.take(s.event_log.len() as int) == s.event_log,
        scan_started(s, time).event_log.take(s.event_log.len() as int) == s.event_log,
{
    assert(scan_ended(s, result, time).event_log.take(s.event_log.len() as int) =~= s.event_log);
    assert(scan_started(s, time).event_log.take(s.event_log.len() as int) =~= s.event_log);
}

// ---------------------------------------------------------------------------
// Texts
// ---------------------------------------------------------------------------

/// `items` with `between` between each two.
pub open spec fn joined_by(items: Seq<Seq<char>>, between: Seq<char>) -> Seq<char>
    decreases items.len(),
{
    if items.len() == 0 {
        Seq::empty()
    } else if items.len() == 1 {
        items[0]
    } else {
        joined_by(items.drop_last(), between) + between + items.last()
    }
}

fn join_first(items: &Vec<String>, n: usize, between: &str) -> (r: String)
    requires
        n <= items@.len(),
    ensures
        r@ == joined_by(views(items@).take(n as int), between@),
{
    let ghost all = views(items@);
    let mut out = String::new();
    assert(out@ =~= joined_by(all.take(0), between@));
    for i in 0..n
        invariant
            n <= items@.len(),
            all == views(items@),
            out@ == joined_by(all.take(i as int), between@),
    {
        assert(all.take(i + 1).drop_last() =~= all.take(i as int));
        assert(all.take(i + 1).last() == items@[i as int]@);
        if i > 0 {
            out.push_str(between);
        }
        out.push_str(items[i].as_str());
        if i == 0 {
            assert(out@ =~= items@[0]@);
        }
    }
    out
}

pub open spec fn minecraft_names(accounts: Seq<MinecraftAltView>) -> Seq<Seq<char>> {
    accounts.map_values(|a: MinecraftAltView| a.username)
}

pub open spec fn discord_names(accounts: Seq<DiscordAltView>) -> Seq<Seq<char>> {
    accounts.map_values(|a: DiscordAltView| a.username)
}

/// The names of the accounts, one on each line.
pub fn build_minecraft_copy_text(accounts: &Vec<MinecraftAlt>) -> (r: String)
    ensures
        r@ == joined_by(minecraft_names(views(accounts@)), "\n"@),
{
    let ghost want = minecraft_names(views(accounts@));
    let mut names: Vec<String> = Vec::new();
    for i in 0..accounts.len()
        invariant
            want == minecraft_names(views(accounts@)),
            views(names@) == want.take(i as int),
    {
        push_view(&mut names, accounts[i].username.clone());
        assert(want[i as int] == accounts@[i as int]@.username);
        assert(views(names@) =~= want.take(i + 1));
    }
    assert(want.take(want.len() as int) =~= want);
    assert(views(names@).take(names@.len() as int) =~= views(names@));
    join_first(&names, names.len(), "\n")
}

/// The names of the accounts, one on each line.
pub fn build_discord_copy_text(accounts: &Vec<DiscordAlt>) -> (r: String)
    ensures
        r@ == joined_by(discord_names(views(accounts@)), "\n"@),
{
    let ghost want = discord_names(views(accounts@));
    let mut names: Vec<String> = Vec::new();
    for i in 0..accounts.len()
        invariant
            want == discord_names(views(accounts@)),
            views(names@) == want.take(i as int),
    {
        push_view(&mut names, accounts[i].username.clone());
        assert(want[i as int] == accounts@[i as int]@.username);
        assert(views(names@) =~= want.take(i + 1));
    }
    assert(want.take(want.len() as int) =~= want);
    assert(views(names@).take(names@.len() as int) =~= views(names@));
    join_first(&names, names.len(), "\n")
}

/// The names of all accounts.
pub fn build_all_copy_text(report: &ScanReport) -> (r: String)
    ensures
        r@ == "Minecraft Nick:\n"@ + joined_by(
            minecraft_names(report@.minecraft_accounts),
            "\n"@,
        ) + "\n\nDiscord Nick:\n"@ + joined_by(discord_names(report@.discord_accounts), "\n"@),
{
    let minecraft = build_minecraft_copy_text(&report.minecraft_accounts);
    let discord = build_discord_copy_text(&report.discord_accounts);
    let mut out = "Minecraft Nick:\n".to_string();
    out.push_str(minecraft.as_str());
    out.push_str("\n\nDiscord Nick:\n");
    out.push_str(discord.as_str());
    out
}

pub open spec fn sources_text(count: nat) -> Seq<char> {
    if count == 1 {
        "1 source"@
    } else {
        with_number(""@, count, " sources"@)
    }
}

pub fn source_label(count: usize) -> (r: String)
    ensures
        r@ == sources_text(count as nat),
{
    if count == 1 {
        "1 source".to_string()
    } else {
        number_text("", count as u64, " sources")
    }
}

/// The prefix of a path, where it has one, and its components that are names.
pub open spec fn shown_components(path: Seq<char>) -> Seq<Seq<char>> {
    if prefix(path).len() == 0 {
        normal_components(components(path))
    } else {
        seq![prefix(path)] + normal_components(components(path))
    }
}

/// The last components of a path, with dots before them where some are left out.
pub open spec fn compact_path(path: Seq<char>, tail: nat) -> Seq<char> {
    let parts = shown_components(path);
    if parts.len() == 0 {
        path
    } else if parts.len() <= tail {
        joined_by(parts, "\\"@)
    } else {
        "...\\"@ + joined_by(parts.skip(parts.len() - tail), "\\"@)
    }
}

pub fn compact_source_path(path: &str, tail_components: usize) -> (r: String)
    ensures
        r@ == compact_path(path@, tail_components as nat),
{
    let chars = chars_of(path);
    let (drive, all_parts) = parse_path(chars.as_slice());
    let ghost all = views(all_parts@);
    let mut parts: Vec<String> = Vec::new();
    let ghost mut first = Seq::<Seq<char>>::empty();
    let drive_chars = chars_of(drive.as_str());
    if drive_chars.len() > 0 {
        push_view(&mut parts, drive);
        proof {
            first = seq![prefix(path@)];
        }
    }
    assert(views(parts@) =~= first + normal_components(all.take(0)));
    for i in 0..all_parts.len()
        invariant
            all == views(all_parts@),
            views(parts@) == first + normal_components(all.take(i as int)),
    {
        assert(all.take(i + 1).drop_last() =~= all.take(i as int));
        assert(all.take(i + 1).last() == all_parts@[i as int]@);
        let ghost before = normal_components(all.take(i as int));
        if !names_nothing(all_parts[i].as_str()) {
            push_view(&mut parts, all_parts[i].clone());
            assert((first + before).push(all_parts@[i as int]@) =~= first + before.push(
                all_parts@[i as int]@,
            ));
        }
    }
    assert(all.take(all.len() as int) =~= all);
    let ghost shown = shown_components(path@);
    assert(views(parts@) =~= shown);
    assert(shown.len() == parts@.len());
    if parts.len() == 0 {
        return path.to_string();
    }
    if parts.len() <= tail_components {
        assert(shown.take(parts@.len() as int) =~= shown);
        return join_first(&parts, parts.len(), "\\");
    }
    let start: usize = parts.len() - tail_components;
    let mut tail: Vec<String> = Vec::new();
    assert(views(tail@) =~= shown.subrange(start as int, start as int));
    for i in start..parts.len()
        invariant
            shown == views(parts@),
            start <= parts@.len(),
            views(tail@) == shown.subrange(start as int, i as int),
    {
        push_view(&mut tail, parts[i].clone());
        assert(shown[i as int] == parts@[i as int]@);
        assert(views(tail@) =~= shown.subrange(start as int, i + 1));
    }
    assert(shown.subrange(start as int, parts@.len() as int) =~= shown.skip(start as int));
    assert(views(tail@).take(tail@.len() as int) =~= views(tail@));
    let mut out = "...\\".to_string();
    let rest = join_first(&tail, tail.len(), "\\");
    out.push_str(rest.as_str());
    out
}

/// The first items, and how many more there are.
pub open spec fn previewed(items: Seq<Seq<char>>, max: nat) -> Seq<char> {
    if items.len() <= max {
        joined_by(items, ", "@)
    } else {
        with_number(
            joined_by(items.take(max as int), ", "@) + ", +"@,
            (items.len() - max) as nat,
            " more"@,
        )
    }
}

pub fn preview_list(items: &Vec<String>, max_items: usize) -> (r: String)
    ensures
        r@ == previewed(views(items@), max_items as nat),
{
    assert(views(items@).len() == items@.len());
    if items.len() <= max_items {
        assert(views(items@).take(items@.len() as int) =~= views(items@));
        return join_first(items, items.len(), ", ");
    }
    let mut out = join_first(items, max_items, ", ");
    out.push_str(", +");
    push_number(&mut out, (items.len() - max_items) as u64, " more");
    out
}

// ---------------------------------------------------------------------------
// Reasons
// ---------------------------------------------------------------------------

/// The number behind `start` in a reason.
pub open spec fn reason_number(reason: Seq<char>, start: Seq<char>) -> Option<nat> {
    match after_prefix(reason, start) {
        Some(rest) => parse_unsigned(rest, usize::MAX as nat),
        None => None,
    }
}

pub open spec fn opt_number(n: Option<usize>) -> Option<nat> {
    match n {
        Some(v) => Some(v as nat),
        None => None,
    }
}

pub fn parse_reason_suffix_usize(reason: &str, prefix: &str) -> (r: Option<usize>)
    ensures
        opt_number(r) == reason_number(reason@, prefix@),
{
    let chars = chars_of(reason);
    match strip_start(chars.as_slice(), prefix) {
        Some(rest) => parse_usize(rest),
        None => None,
    }
}

/// The sightings in account files and in logs that the parts of a reason give:
/// the first number that stands alone, and the last behind `log:`.
pub open spec fn reason_parts(parts: Seq<Seq<char>>) -> (Option<nat>, Option<nat>)
    decreases parts.len(),
{
    if parts.len() == 0 {
        (None, None)
    } else {
        let (accounts, logs) = reason_parts(parts.drop_last());
        match after_prefix(parts.last(), "log:"@) {
            Some(value) => (accounts, parse_unsigned(value, usize::MAX as nat)),
            None => if accounts is None {
                (parse_unsigned(parts.last(), usize::MAX as nat), logs)
            } else {
                (accounts, logs)
            },
        }
    }
}

/// The sightings in account files and in logs that a reason gives.
pub open spec fn trusted_reason(reason: Seq<char>) -> Option<(nat, nat)> {
    match after_prefix(reason, "trusted-account-source:"@) {
        Some(rest) => {
            let (accounts, logs) = reason_parts(split(rest, CharClass::Only(';')));
            match accounts {
                Some(a) => Some(
                    (
                        a,
                        match logs {
                            Some(l) => l,
                            None => 0,
                        },
                    ),
                ),
                None => None,
            }
        },
        None => None,
    }
}

pub fn parse_trusted_reason(reason: &str) -> (r: Option<(usize, usize)>)
    ensures
        match r {
            Some((a, l)) => trusted_reason(reason@) == Some((a as nat, l as nat)),
            None => trusted_reason(reason@) is None,
        },
{
    let chars = chars_of(reason);
    let rest = match strip_start(chars.as_slice(), "trusted-account-source:") {
        Some(rest) => rest,
        None => {
            return None;
        },
    };
    let parts = split_chars(rest, CharClass::Only(';'));
    let ghost all = views(parts@);
    let mut account_hits: Option<usize> = None;
    let mut log_hits: Option<usize> = None;
    assert(reason_parts(all.take(0)) == (None::<nat>, None::<nat>));
    for i in 0..parts.len()
        invariant
            all == views(parts@),
            reason_parts(all.take(i as int)) == (opt_number(account_hits), opt_number(log_hits)),
    {
        assert(all.take(i + 1).drop_last() =~= all.take(i as int));
        assert(all.take(i + 1).last() == parts@[i as int]@);
        match strip_start(parts[i].as_slice(), "log:") {
            Some(value) => {
                log_hits = parse_usize(value);
            },
            None => {
                if account_hits.is_none() {
                    account_hits = parse_usize(parts[i].as_slice());
                }
            },
        }
    }
    assert(all.take(all.len() as int) =~= all);
    match account_hits {
        Some(a) => Some(
            (
                a,
                match log_hits {
                    Some(l) => l,
                    None => 0,
                },
            ),
        ),
        None => None,
    }
}

/// The reason for a verdict in words.
pub open spec fn humanized_reason(reason: Seq<char>) -> Seq<char> {
    match trusted_reason(reason) {
        Some((accounts, logs)) => with_number(
            with_number("Подтверждено account-файлами: "@, accounts, "; логами: "@),
            logs,
            ""@,
        ),
        None => if reason_number(reason, "log-evidence:"@) is Some {
            with_number(
                "Подтверждено логами: "@,
                reason_number(reason, "log-evidence:"@)->0,
                ""@,
            )
        } else if reason_number(reason, "placeholder-multi-log:"@) is Some {
            with_number(
                "Плейсхолдер, но подтверждено многими логами: "@,
                reason_number(reason, "placeholder-multi-log:"@)->0,
                ""@,
            )
        } else if reason_number(reason, "placeholder-filtered:"@) is Some {
            with_number(
                "Отфильтрован как плейсхолдер (логов: "@,
                reason_number(reason, "placeholder-filtered:"@)->0,
                ")"@,
            )
        } else if reason == "structural-word-filter"@ {
            "Отфильтрован как системное/структурное слово"@
        } else if reason == "no-usable-evidence"@ {
            "Недостаточно доказательств для включения"@
        } else {
            reason
        },
    }
}

pub fn humanize_minecraft_reason(reason: &str) -> (r: String)
    ensures
        r@ == humanized_reason(reason@),
{
    if let Some((account_hits, log_hits)) = parse_trusted_reason(reason) {
        let mut out = number_text(
            "Подтверждено account-файлами: ",
            account_hits as u64,
            "; логами: ",
        );
        push_number(&mut out, log_hits as u64, "");
        return out;
    }
    if let Some(value) = parse_reason_suffix_usize(reason, "log-evidence:") {
        return number_text("Подтверждено логами: ", value as u64, "");
    }
    if let Some(value) = parse_reason_suffix_usize(reason, "placeholder-multi-log:") {
        return number_text("Плейсхолдер, но подтверждено многими логами: ", value as u64, "");
    }
    if let Some(value) = parse_reason_suffix_usize(reason, "placeholder-filtered:") {
        return number_text("Отфильтрован как плейсхолдер (логов: ", value as u64, ")");
    }
    if same_text(reason, "structural-word-filter") {
        return "Отфильтрован как системное/структурное слово".to_string();
    }
    if same_text(reason, "no-usable-evidence") {
        return "Недостаточно доказательств для включения".to_string();
    }
    reason.to_string()
}

proof fn lemma_decimal_has_no_semicolon(n: nat)
    ensures
        forall|i: int| 0 <= i < decimal(n).len() ==> !CharClass::Only(';').has(#[trigger] decimal(n)[i]),
{
    lemma_decimal(n);
    assert forall|i: int| 0 <= i < decimal(n).len() implies !CharClass::Only(';').has(
        #[trigger] decimal(n)[i],
    ) by {
        assert(crate::text::is_digit(decimal(n)[i]));
    }
}

/// The reason that is given for a name from account files gives back how often
/// it was seen in them and in logs.
pub proof fn law_trusted_reason_reads_back(c: MinecraftCandidateView)
    requires
        !is_structural_word(lower(c.username)),
        0 < c.account_hits <= usize::MAX,
        c.log_hits <= usize::MAX,
    ensures
        trusted_reason(verdict(c).1) == Some((c.account_hits, c.log_hits)),
{
    let start = "trusted-account-source:"@;
    let a = decimal(c.account_hits);
    let l = decimal(c.log_hits);
    reveal_strlit("trusted-account-source:");
    reveal_strlit(";log:");
    reveal_strlit("log:");
    reveal_strlit("");
    let reason = verdict(c).1;
    let second = "log:"@ + l;
    let rest = a.push(';') + second;
    assert(reason =~= start + rest);
    assert(reason.subrange(0, start.len() as int) =~= start);
    assert(reason.skip(start.len() as int) =~= rest);
    lemma_decimal_has_no_semicolon(c.account_hits);
    lemma_decimal_has_no_semicolon(c.log_hits);
    assert forall|i: int| 0 <= i < second.len() implies !CharClass::Only(';').has(
        #[trigger] second[i],
    ) by {
        if i >= 4 {
            assert(second[i] == l[i - 4]);
        }
    }
    lemma_split_two(a, ';', second, CharClass::Only(';'));
    law_decimal_roundtrip(c.account_hits, usize::MAX as nat);
    law_decimal_roundtrip(c.log_hits, usize::MAX as nat);
    lemma_decimal(c.account_hits);
    assert(crate::text::is_digit(a[0]));
    assert(!starts_with(a, "log:"@)) by {
        if starts_with(a, "log:"@) {
            assert(a.subrange(0, 4)[0] == 'l');
        }
    }
    assert(second.subrange(0, 4) =~= "log:"@);
    assert(second.skip(4) =~= l);
    let parts = seq![a, second];
    assert(parts.drop_last() =~= seq![a]);
    assert(parts.drop_last().drop_last() =~= Seq::<Seq<char>>::empty());
    assert(reason_parts(seq![a]) == (Some(c.account_hits), None::<nat>)) by {
        assert(seq![a].drop_last() =~= Seq::<Seq<char>>::empty());
        assert(seq![a].last() == a);
        assert(reason_parts(Seq::empty()) == (None::<nat>, None::<nat>));
        assert(after_prefix(a, "log:"@) is None);
        assert(reason_parts(seq![a]).0 == parse_unsigned(a, usize::MAX as nat));
    }
}

/// The reason that is given for a name from logs gives back how often it was
/// seen in them.
pub proof fn law_log_reason_reads_back(c: MinecraftCandidateView)
    requires
        !is_structural_word(lower(c.username)),
        !is_placeholder(lower(c.username)),
        c.account_hits == 0,
        0 < c.log_hits <= usize::MAX,
    ensures
        reason_number(verdict(c).1, "log-evidence:"@) == Some(c.log_hits),
{
    let start = "log-evidence:"@;
    let l = decimal(c.log_hits);
    reveal_strlit("");
    assert(verdict(c).1 =~= start + l);
    assert(verdict(c).1.subrange(0, start.len() as int) =~= start);
    assert(verdict(c).1.skip(start.len() as int) =~= l);
    law_decimal_roundtrip(c.log_hits, usize::MAX as nat);
}

// ---------------------------------------------------------------------------
// Accounts and links
// ---------------------------------------------------------------------------

/// A name in a link stands for the account: its name, its id, or `id:` and its id.
pub open spec fn link_matches(value: Seq<char>, account: DiscordAltView) -> bool {
    same_ignoring_case(value, account.username) || (account.id is Some && (same_ignoring_case(
        value,
        account.id->0,
    ) || same_ignoring_case(value, "id:"@ + account.id->0)))
}

pub fn discord_link_matches_account(link_value: &str, account: &DiscordAlt) -> (r: bool)
    ensures
        r == link_matches(link_value@, account@),
{
    let value = chars_of(link_value);
    if is_text_ignoring_case(value.as_slice(), account.username.as_str()) {
        return true;
    }
    if let Some(id) = &account.id {
        let mut key = "id:".to_string();
        key.push_str(id.as_str());
        if is_text_ignoring_case(value.as_slice(), id.as_str()) || is_text_ignoring_case(
            value.as_slice(),
            key.as_str(),
        ) {
            return true;
        }
    }
    false
}

/// Some Minecraft account of the link is called `username`, up to case.
pub open spec fn links_minecraft(link: ProfileLinkView, username: Seq<char>) -> bool {
    exists|i: int|
        0 <= i < link.minecraft_accounts.len() && same_ignoring_case(
            #[trigger] link.minecraft_accounts[i],
            username,
        )
}

/// Some Discord account of the link stands for `account`.
pub open spec fn links_discord(link: ProfileLinkView, account: DiscordAltView) -> bool {
    exists|i: int|
        0 <= i < link.discord_accounts.len() && link_matches(
            #[trigger] link.discord_accounts[i],
            account,
        )
}

fn is_minecraft_link(link: &ProfileLink, username: &str) -> (r: bool)
    ensures
        r == links_minecraft(link@, username@),
{
    let ghost all = link@.minecraft_accounts;
    for i in 0..link.minecraft_accounts.len()
        invariant
            all == link@.minecraft_accounts,
            all == views(link.minecraft_accounts@),
            forall|j: int| 0 <= j < i ==> !same_ignoring_case(#[trigger] all[j], username@),
    {
        let name = chars_of(link.minecraft_accounts[i].as_str());
        assert(all[i as int] == name@);
        if is_text_ignoring_case(name.as_slice(), username) {
            return true;
        }
    }
    assert(all.len() == link.minecraft_accounts@.len());
    false
}

fn is_discord_link(link: &ProfileLink, account: &DiscordAlt) -> (r: bool)
    ensures
        r == links_discord(link@, account@),
{
    let ghost all = link@.discord_accounts;
    for i in 0..link.discord_accounts.len()
        invariant
            all == link@.discord_accounts,
            all == views(link.discord_accounts@),
            forall|j: int| 0 <= j < i ==> !link_matches(#[trigger] all[j], account@),
    {
        assert(all[i as int] == link.discord_accounts@[i as int]@);
        if discord_link_matches_account(link.discord_accounts[i].as_str(), account) {
            return true;
        }
    }
    assert(all.len() == link.discord_accounts@.len());
    false
}

/// The indices of the links of a Minecraft account among the first `n`.
pub open spec fn minecraft_link_indices(links: Seq<ProfileLinkView>, username: Seq<char>, n: nat) -> Seq<
    usize,
>
    decreases n,
{
    if n == 0 || n > links.len() {
        Seq::empty()
    } else {
        let before = minecraft_link_indices(links, username, (n - 1) as nat);
        if links_minecraft(links[n - 1], username) {
            before.push((n - 1) as usize)
        } else {
            before
        }
    }
}

/// The indices of the links of a Minecraft account.
pub fn links_of_minecraft_account(links: &Vec<ProfileLink>, username: &str) -> (r: Vec<usize>)
    ensures
        r@ == minecraft_link_indices(views(links@), username@, links@.len()),
{
    let ghost all = views(links@);
    let mut out: Vec<usize> = Vec::new();
    assert(out@ =~= Seq::empty());
    for i in 0..links.len()
        invariant
            all == views(links@),
            out@ == minecraft_link_indices(all, username@, i as nat),
    {
        assert(all[i as int] == links@[i as int]@);
        if is_minecraft_link(&links[i], username) {
            out.push(i);
        }
    }
    out
}

/// The indices of the links of a Discord account among the first `n`.
pub open spec fn discord_link_indices(links: Seq<ProfileLinkView>, account: DiscordAltView, n: nat) -> Seq<
    usize,
>
    decreases n,
{
    if n == 0 || n > links.len() {
        Seq::empty()
    } else {
        let before = discord_link_indices(links, account, (n - 1) as nat);
        if links_discord(links[n - 1], account) {
            before.push((n - 1) as usize)
        } else {
            before
        }
    }
}

/// The indices of the links of a Discord account.
pub fn links_of_discord_account(links: &Vec<ProfileLink>, account: &DiscordAlt) -> (r: Vec<usize>)
    ensures
        r@ == discord_link_indices(views(links@), account@, links@.len()),
{
    let ghost all = views(links@);
    let mut out: Vec<usize> = Vec::new();
    assert(out@ =~= Seq::empty());
    for i in 0..links.len()
        invariant
            all == views(links@),
            out@ == discord_link_indices(all, account@, i as nat),
    {
        assert(all[i as int] == links@[i as int]@);
        if is_discord_link(&links[i], account) {
            out.push(i);
        }
    }
    out
}

/// The index of the first explanation from `i` on that is about `username`, up
/// to case.
pub open spec fn explanation_index(debug: Seq<MinecraftDebugView>, username: Seq<char>, i: int) -> Option<
    int,
>
    decreases debug.len() - i,
{
    if i < 0 || i >= debug.len() {
        None
    } else if same_ignoring_case(debug[i].username, username) {
        Some(i)
    } else {
        explanation_index(debug, username, i + 1)
    }
}

/// The index of the first explanation that is about `username`.
pub fn find_explanation(debug: &Vec<MinecraftDetectionDebug>, username: &str) -> (r: Option<usize>)
    ensures
        match r {
            Some(i) => explanation_index(views(debug@), username@, 0) == Some(i as int) && i
                < debug@.len(),
            None => explanation_index(views(debug@), username@, 0) is None,
        },
{
    let ghost all = views(debug@);
    for i in 0..debug.len()
        invariant
            all == views(debug@),
            explanation_index(all, username@, i as int) == explanation_index(all, username@, 0),
    {
        let name = chars_of(debug[i].username.as_str());
        assert(all[i as int].username == name@);
        if is_text_ignoring_case(name.as_slice(), username) {
            return Some(i);
        }
    }
    assert(all.len() == debug@.len());
    None
}

/// The heading of a Minecraft account.
pub fn minecraft_title(account: &MinecraftAlt) -> (r: String)
    ensures
        r@ == account.username@ + "  ["@ + sources_text(account.sources@.len()) + "]"@,
{
    let mut out = account.username.clone();
    out.push_str("  [");
    let label = source_label(account.sources.len());
    out.push_str(label.as_str());
    out.push_str("]");
    out
}

/// The id of an account, or that it is unknown.
pub open spec fn shown_id(account: DiscordAltView) -> Seq<char> {
    match account.id {
        Some(id) => id,
        None => "unknown"@,
    }
}

pub fn id_or_unknown(account: &DiscordAlt) -> (r: String)
    ensures
        r@ == shown_id(account@),
{
    match &account.id {
        Some(id) => id.clone(),
        None => "unknown".to_string(),
    }
}

/// The heading of a Discord account.
pub fn discord_title(account: &DiscordAlt) -> (r: String)
    ensures
        r@ == account.username@ + " ("@ + shown_id(account@) + ")  ["@ + sources_text(
            account.sources@.len(),
        ) + "]"@,
{
    let mut out = account.username.clone();
    out.push_str(" (");
    let id = id_or_unknown(account);
    out.push_str(id.as_str());
    out.push_str(")  [");
    let label = source_label(account.sources.len());
    out.push_str(label.as_str());
    out.push_str("]");
    out
}

// ---------------------------------------------------------------------------
// Events
// ---------------------------------------------------------------------------

/// In which tone a line of the log of events is shown.
#[derive(Debug, Clone, Copy, PartialEq, Eq, Structural)]
pub enum EventTone {
    Danger,
    Renamed,
    Changed,
    Warning,
    Success,
    Muted,
}

pub open spec fn tone(line: Seq<char>) -> EventTone {
    let t = lower(line);
    if contains(t, "[deleted]"@) || contains(t, "удалено:"@) {
        EventTone::Danger
    } else if contains(t, "[renamed]"@) || contains(t, "переименовано:"@) {
        EventTone::Renamed
    } else if contains(t, "[overwrite]"@) || contains(t, "[extend]"@) || contains(t, "изменено:"@)
        || contains(t, "stream_change"@) {
        EventTone::Changed
    } else if contains(t, "warning:"@) || contains(t, "предупреж"@) {
        EventTone::Warning
    } else if contains(t, "ошибка"@) || contains(t, "failed"@) {
        EventTone::Danger
    } else if contains(t, "сканирование завершено"@) || contains(t, "готово:"@) {
        EventTone::Success
    } else {
        EventTone::Muted
    }
}

pub fn event_line_tone(line: &str) -> (r: EventTone)
    ensures
        r == tone(line@),
{
    let chars = chars_of(line);
    let low = lower_chars(chars.as_slice());
    let t = low.as_slice();
    if has_text(t, "[deleted]") || has_text(t, "удалено:") {
        return EventTone::Danger;
    }
    if has_text(t, "[renamed]") || has_text(t, "переименовано:") {
        return EventTone::Renamed;
    }
    if has_text(t, "[overwrite]") || has_text(t, "[extend]") || has_text(t, "изменено:")
        || has_text(t, "stream_change") {
        return EventTone::Changed;
    }
    if has_text(t, "warning:") || has_text(t, "предупреж") {
        return EventTone::Warning;
    }
    if has_text(t, "ошибка") || has_text(t, "failed") {
        return EventTone::Danger;
    }
    if has_text(t, "сканирование завершено") || has_text(t, "готово:") {
        return EventTone::Success;
    }
    EventTone::Muted
}

/// What is said of a finished check of accounts.
pub fn alts_check_finished(minecraft: usize, discord: usize) -> (r: String)
    ensures
        r@ == with_number(
            with_number("Alts Check завершен: Minecraft "@, minecraft as nat, ", Discord "@),
            discord as nat,
            ""@,
        ),
{
    let mut out = number_text("Alts Check завершен: Minecraft ", minecraft as u64, ", Discord ");
    push_number(&mut out, discord as u64, "");
    out
}

} // verus!
