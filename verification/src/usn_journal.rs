//! What the change journals of the drives say: events on logs of the game, the
//! state of each journal, and the report on all of them.

use vstd::prelude::*;

use crate::text::{
    append_texts, chars_of, contains, has_text, lower, string_of, to_lower, trim, trim_chars,
    CharClass,
};
use crate::time::{age_status, classify_age_status, humanize_age_since, humanized_age, Timestamp};
use crate::views::{opt_view, push_view, views};

verus! {

pub const MAX_EVENTS_PER_CATEGORY: usize = 80;

// ---------------------------------------------------------------------------
// Reports
// ---------------------------------------------------------------------------

#[derive(Debug, Clone, Default)]
pub struct UsnEvent {
    pub drive: String,
    pub path: String,
    pub reason: String,
    pub timestamp_utc: String,
}

#[verifier::ext_equal]
pub struct UsnEventView {
    pub drive: Seq<char>,
    pub path: Seq<char>,
    pub reason: Seq<char>,
    pub timestamp_utc: Seq<char>,
}

impl View for UsnEvent {
    type V = UsnEventView;

    open spec fn view(&self) -> UsnEventView {
        UsnEventView {
            drive: self.drive@,
            path: self.path@,
            reason: self.reason@,
            timestamp_utc: self.timestamp_utc@,
        }
    }
}

#[derive(Debug, Clone, Default)]
pub struct UsnDriveStatus {
    pub drive: String,
    pub status: String,
    pub records_scanned: usize,
    pub oldest_entry_utc: Option<String>,
    pub newest_entry_utc: Option<String>,
    pub oldest_entry_date_utc: Option<String>,
    pub last_deletion_utc: Option<String>,
    pub age: Option<String>,
}

#[verifier::ext_equal]
pub struct UsnDriveView {
    pub drive: Seq<char>,
    pub status: Seq<char>,
    pub records_scanned: nat,
    pub oldest_entry_utc: Option<Seq<char>>,
    pub newest_entry_utc: Option<Seq<char>>,
    pub oldest_entry_date_utc: Option<Seq<char>>,
    pub last_deletion_utc: Option<Seq<char>>,
    pub age: Option<Seq<char>>,
}

impl View for UsnDriveStatus {
    type V = UsnDriveView;

    open spec fn view(&self) -> UsnDriveView {
        UsnDriveView {
            drive: self.drive@,
            status: self.status@,
            records_scanned: self.records_scanned as nat,
            oldest_entry_utc: opt_view(self.oldest_entry_utc),
            newest_entry_utc: opt_view(self.newest_entry_utc),
            oldest_entry_date_utc: opt_view(self.oldest_entry_date_utc),
            last_deletion_utc: opt_view(self.last_deletion_utc),
            age: opt_view(self.age),
        }
    }
}

#[derive(Debug, Clone, Default)]
pub struct UsnJournalReport {
    pub status: String,
    pub drives: Vec<UsnDriveStatus>,
    pub minecraft_events: Vec<UsnEvent>,
    pub discord_events: Vec<UsnEvent>,
    pub scanned_records: usize,
}

#[verifier::ext_equal]
pub struct UsnReportView {
    pub status: Seq<char>,
    pub drives: Seq<UsnDriveView>,
    pub minecraft_events: Seq<UsnEventView>,
    pub discord_events: Seq<UsnEventView>,
    pub scanned_records: nat,
}

impl View for UsnJournalReport {
    type V = UsnReportView;

    open spec fn view(&self) -> UsnReportView {
        UsnReportView {
            status: self.status@,
            drives: views(self.drives@),
            minecraft_events: views(self.minecraft_events@),
            discord_events: views(self.discord_events@),
            scanned_records: self.scanned_records as nat,
        }
    }
}

#[derive(Debug, Clone, Default)]
pub struct UsnScanOutput {
    pub report: Option<UsnJournalReport>,
    pub warnings: Vec<String>,
    pub scanned_locations: Vec<String>,
}

#[verifier::ext_equal]
pub struct UsnOutputView {
    pub report: Option<UsnReportView>,
    pub warnings: Seq<Seq<char>>,
    pub scanned_locations: Seq<Seq<char>>,
}

impl View for UsnScanOutput {
    type V = UsnOutputView;

    open spec fn view(&self) -> UsnOutputView {
        UsnOutputView {
            report: opt_view(self.report),
            warnings: views(self.warnings@),
            scanned_locations: views(self.scanned_locations@),
        }
    }
}

/// A report that holds a status and nothing else.
pub open spec fn status_only(status: Seq<char>) -> UsnReportView {
    UsnReportView {
        status,
        drives: Seq::empty(),
        minecraft_events: Seq::empty(),
        discord_events: Seq::empty(),
        scanned_records: 0,
    }
}

fn status_report(status: &str) -> (r: UsnJournalReport)
    ensures
        r@ == status_only(status@),
{
    let r = UsnJournalReport {
        status: status.to_string(),
        drives: Vec::new(),
        minecraft_events: Vec::new(),
        discord_events: Vec::new(),
        scanned_records: 0,
    };
    assert(r@ =~= status_only(status@));
    r
}

fn status_output(status: &str) -> (r: UsnScanOutput)
    ensures
        r@ == (UsnOutputView {
            report: Some(status_only(status@)),
            warnings: Seq::empty(),
            scanned_locations: Seq::empty(),
        }),
{
    let r = UsnScanOutput {
        report: Some(status_report(status)),
        warnings: Vec::new(),
        scanned_locations: Vec::new(),
    };
    assert(r.warnings@ =~= Seq::empty());
    assert(views(r.warnings@) =~= Seq::empty());
    assert(views(r.scanned_locations@) =~= Seq::empty());
    r
}

/// The report where there is no journal to read: on systems other than Windows.
pub fn scan_for_minecraft_discord() -> (r: UsnScanOutput)
    ensures
        r@ == (UsnOutputView {
            report: Some(status_only("USN Journal доступен только на Windows"@)),
            warnings: Seq::empty(),
            scanned_locations: Seq::empty(),
        }),
{
    status_output("USN Journal доступен только на Windows")
}

/// The report where the drives could not be listed.
pub fn volumes_failed(error: &str) -> (r: UsnScanOutput)
    ensures
        r@ == (UsnOutputView {
            report: Some(status_only("USN Journal недоступен"@)),
            warnings: seq!["USN: enumerate volumes failed: "@ + error@],
            scanned_locations: Seq::empty(),
        }),
{
    let mut out = status_output("USN Journal недоступен");
    let mut message = "USN: enumerate volumes failed: ".to_string();
    message.push_str(error);
    push_view(&mut out.warnings, message);
    assert(views(out.warnings@) =~= seq!["USN: enumerate volumes failed: "@ + error@]);
    out
}

/// The report where no drive has a journal.
pub fn no_volumes() -> (r: UsnScanOutput)
    ensures
        r@ == (UsnOutputView {
            report: Some(status_only("USN Journal: NTFS диски не найдены"@)),
            warnings: Seq::empty(),
            scanned_locations: Seq::empty(),
        }),
{
    status_output("USN Journal: NTFS диски не найдены")
}

// ---------------------------------------------------------------------------
// Status
// ---------------------------------------------------------------------------

/// The status of some drive contains `words`.
pub open spec fn some_status(drives: Seq<UsnDriveView>, words: Seq<char>) -> bool {
    exists|i: int| 0 <= i < drives.len() && contains((#[trigger] drives[i]).status, words)
}

fn any_status(drives: &Vec<UsnDriveStatus>, words: &str) -> (r: bool)
    ensures
        r == some_status(views(drives@), words@),
{
    let ghost all = views(drives@);
    for i in 0..drives.len()
        invariant
            all == views(drives@),
            forall|j: int| 0 <= j < i ==> !contains((#[trigger] all[j]).status, words@),
    {
        let status = chars_of(drives[i].status.as_str());
        assert(all[i as int].status == status@);
        if has_text(status.as_slice(), words) {
            return true;
        }
    }
    assert(all.len() == drives@.len());
    false
}

/// Some drive had records.
pub open spec fn some_records(drives: Seq<UsnDriveView>) -> bool {
    exists|i: int| 0 <= i < drives.len() && (#[trigger] drives[i]).records_scanned > 0
}

/// The status of all drives together: the most telling one.
pub open spec fn global_status(drives: Seq<UsnDriveView>) -> Seq<char> {
    if drives.len() == 0 {
        "USN Journal: данных нет"@
    } else if some_status(drives, "<24h"@) || some_status(drives, "Likely cleared"@) {
        "USN: журнал выглядит свежим (<24h), проверь вручную"@
    } else if some_status(drives, "<14d"@) {
        "USN: активность журнала <14 дней (возможна очистка)"@
    } else if some_status(drives, "Недоступно"@) && !some_records(drives) {
        "USN: частично недоступен"@
    } else if some_records(drives) {
        "USN: проверка завершена"@
    } else {
        "USN: данных не найдено"@
    }
}

pub fn summarize_global_status(drives: &Vec<UsnDriveStatus>) -> (r: String)
    ensures
        r@ == global_status(views(drives@)),
{
    let ghost all = views(drives@);
    if drives.len() == 0 {
        return "USN Journal: данных нет".to_string();
    }
    if any_status(drives, "<24h") || any_status(drives, "Likely cleared") {
        return "USN: журнал выглядит свежим (<24h), проверь вручную".to_string();
    }
    if any_status(drives, "<14d") {
        return "USN: активность журнала <14 дней (возможна очистка)".to_string();
    }
    let mut has_data = false;
    for i in 0..drives.len()
        invariant
            all == views(drives@),
            has_data == exists|j: int| 0 <= j < i && (#[trigger] all[j]).records_scanned > 0,
    {
        assert(all[i as int] == drives@[i as int]@);
        if drives[i].records_scanned > 0 {
            has_data = true;
        }
    }
    assert(all.len() == drives@.len());
    assert(has_data == some_records(all));
    if any_status(drives, "Недоступно") && !has_data {
        return "USN: частично недоступен".to_string();
    }
    if has_data {
        "USN: проверка завершена".to_string()
    } else {
        "USN: данных не найдено".to_string()
    }
}

// ---------------------------------------------------------------------------
// Errors
// ---------------------------------------------------------------------------

#[derive(Debug, Clone, Copy, PartialEq, Eq, Structural)]
pub enum DriveScanErrorKind {
    Unsupported,
    Permission,
    Other,
}

#[derive(Debug, Clone)]
pub struct DriveScanError {
    pub kind: DriveScanErrorKind,
    pub message: String,
}

impl DriveScanError {
    pub fn unsupported(message: String) -> (r: DriveScanError)
        ensures
            r.kind == DriveScanErrorKind::Unsupported,
            r.message == message,
    {
        DriveScanError { kind: DriveScanErrorKind::Unsupported, message }
    }

    pub fn permission(message: String) -> (r: DriveScanError)
        ensures
            r.kind == DriveScanErrorKind::Permission,
            r.message == message,
    {
        DriveScanError { kind: DriveScanErrorKind::Permission, message }
    }

    pub fn other(message: String) -> (r: DriveScanError)
        ensures
            r.kind == DriveScanErrorKind::Other,
            r.message == message,
    {
        DriveScanError { kind: DriveScanErrorKind::Other, message }
    }
}

/// The code of a system error in a result code; any other result code is itself.
pub open spec fn system_code(hr: u32) -> u32 {
    if hr / 0x1_0000 == 0x8007 {
        hr % 0x1_0000
    } else {
        hr
    }
}

pub fn win32_error_code(hr: u32) -> (r: u32)
    ensures
        r == system_code(hr),
{
    if hr / 0x1_0000 == 0x8007 {
        hr % 0x1_0000
    } else {
        hr
    }
}

/// What was tried on a drive.
#[derive(Debug, Clone, Copy, PartialEq, Eq, Structural)]
pub enum DriveAction {
    OpenVolume,
    QueryJournal,
    ReadJournal,
    EnumerateFiles,
}

pub open spec fn action_name(action: DriveAction) -> Seq<char> {
    match action {
        DriveAction::OpenVolume => "open volume"@,
        DriveAction::QueryJournal => "query journal"@,
        DriveAction::ReadJournal => "read journal"@,
        DriveAction::EnumerateFiles => "enum mft"@,
    }
}

/// What the code of a failed action means. A journal that is not active (1179)
/// counts as unsupported for all but the opening of the drive.
pub open spec fn error_kind(action: DriveAction, code: u32) -> DriveScanErrorKind {
    if code == 5 {
        DriveScanErrorKind::Permission
    } else if code == 1 || code == 50 || code == 87 || (code == 1179 && action
        != DriveAction::OpenVolume) {
        DriveScanErrorKind::Unsupported
    } else {
        DriveScanErrorKind::Other
    }
}

pub open spec fn error_message(action: DriveAction, code: u32, text: Seq<char>) -> Seq<char> {
    action_name(action) + match error_kind(action, code) {
        DriveScanErrorKind::Permission => " requires elevated rights: "@,
        DriveScanErrorKind::Unsupported => " unsupported: "@,
        DriveScanErrorKind::Other => " failed: "@,
    } + text
}

/// The error of an action that failed with the result code `hr` and `text`.
pub fn classify_drive_error(action: DriveAction, hr: u32, text: &str) -> (r: DriveScanError)
    ensures
        r.kind == error_kind(action, system_code(hr)),
        r.message@ == error_message(action, system_code(hr), text@),
{
    let code: u32 = win32_error_code(hr);
    let mut message = match action {
        DriveAction::OpenVolume => "open volume".to_string(),
        DriveAction::QueryJournal => "query journal".to_string(),
        DriveAction::ReadJournal => "read journal".to_string(),
        DriveAction::EnumerateFiles => "enum mft".to_string(),
    };
    if code == 5 {
        message.push_str(" requires elevated rights: ");
        message.push_str(text);
        DriveScanError::permission(message)
    } else if code == 1 || code == 50 || code == 87 || (code == 1179 && action
        != DriveAction::OpenVolume) {
        message.push_str(" unsupported: ");
        message.push_str(text);
        DriveScanError::unsupported(message)
    } else {
        message.push_str(" failed: ");
        message.push_str(text);
        DriveScanError::other(message)
    }
}

// ---------------------------------------------------------------------------
// All drives
// ---------------------------------------------------------------------------

/// What was found on one drive.
#[derive(Debug, Clone)]
pub struct DriveScanOutput {
    pub records_scanned: usize,
    pub oldest: Option<Timestamp>,
    pub newest: Option<Timestamp>,
    pub last_deletion: Option<Timestamp>,
    pub minecraft_events: Vec<UsnEvent>,
    pub discord_events: Vec<UsnEvent>,
    pub warnings: Vec<String>,
}

/// The times of a drive as they are shown.
#[derive(Debug, Clone)]
pub struct DriveTimes {
    pub oldest: Option<String>,
    pub newest: Option<String>,
    pub oldest_date: Option<String>,
    pub last_deletion: Option<String>,
}

/// The findings of all drives so far.
#[derive(Debug)]
pub struct UsnAssembly {
    pub drives: Vec<UsnDriveStatus>,
    pub minecraft_events: Vec<UsnEvent>,
    pub discord_events: Vec<UsnEvent>,
    pub scanned_records: usize,
    pub warnings: Vec<String>,
    pub scanned_locations: Vec<String>,
}

#[verifier::ext_equal]
pub struct AssemblyView {
    pub drives: Seq<UsnDriveView>,
    pub minecraft_events: Seq<UsnEventView>,
    pub discord_events: Seq<UsnEventView>,
    pub scanned_records: nat,
    pub warnings: Seq<Seq<char>>,
    pub scanned_locations: Seq<Seq<char>>,
}

impl View for UsnAssembly {
    type V = AssemblyView;

    open spec fn view(&self) -> AssemblyView {
        AssemblyView {
            drives: views(self.drives@),
            minecraft_events: views(self.minecraft_events@),
            discord_events: views(self.discord_events@),
            scanned_records: self.scanned_records as nat,
            warnings: views(self.warnings@),
            scanned_locations: views(self.scanned_locations@),
        }
    }
}

/// `have` and then `more`, up to the limit of events.
pub open spec fn limited(have: Seq<UsnEventView>, more: Seq<UsnEventView>) -> Seq<UsnEventView> {
    let all = have + more;
    if have.len() >= MAX_EVENTS_PER_CATEGORY {
        have
    } else if all.len() > MAX_EVENTS_PER_CATEGORY {
        all.take(MAX_EVENTS_PER_CATEGORY as int)
    } else {
        all
    }
}

fn add_events(have: &mut Vec<UsnEvent>, more: Vec<UsnEvent>)
    ensures
        views(final(have)@) == limited(views(old(have)@), views(more@)),
{
    let ghost start = views(have@);
    let ghost rest = views(more@);
    let mut i: usize = 0;
    assert(start + rest.take(0) =~= start);
    while i < more.len() && have.len() < MAX_EVENTS_PER_CATEGORY
        invariant
            i <= more@.len(),
            rest == views(more@),
            views(have@) == start + rest.take(i as int),
            start.len() >= MAX_EVENTS_PER_CATEGORY ==> i == 0,
            have@.len() <= MAX_EVENTS_PER_CATEGORY || i == 0,
        decreases more@.len() - i,
    {
        let e = &more[i];
        push_view(
            have,
            UsnEvent {
                drive: e.drive.clone(),
                path: e.path.clone(),
                reason: e.reason.clone(),
                timestamp_utc: e.timestamp_utc.clone(),
            },
        );
        assert(have@.last()@ == rest[i as int]);
        assert(views(have@) =~= start + rest.take(i + 1));
        assert(views(have@).len() == have@.len());
        i = i + 1;
    }
    assert(views(have@).len() == have@.len());
    proof {
        if i == more@.len() {
            assert(start + rest.take(i as int) =~= start + rest);
        } else if start.len() < MAX_EVENTS_PER_CATEGORY {
            assert(start + rest.take(i as int) =~= (start + rest).take(
                MAX_EVENTS_PER_CATEGORY as int,
            ));
        } else {
            assert(start + rest.take(0) =~= start);
        }
    }
}

/// A drive that could not be read.
pub open spec fn unread_drive(drive: Seq<char>, status: Seq<char>) -> UsnDriveView {
    UsnDriveView {
        drive,
        status,
        records_scanned: 0,
        oldest_entry_utc: None,
        newest_entry_utc: None,
        oldest_entry_date_utc: None,
        last_deletion_utc: None,
        age: None,
    }
}

fn unread_status(drive: &str, status: &str) -> (r: UsnDriveStatus)
    ensures
        r@ == unread_drive(drive@, status@),
{
    UsnDriveStatus {
        drive: drive.to_string(),
        status: status.to_string(),
        records_scanned: 0,
        oldest_entry_utc: None,
        newest_entry_utc: None,
        oldest_entry_date_utc: None,
        last_deletion_utc: None,
        age: None,
    }
}

/// The findings after the drive `drive` was read.
pub open spec fn with_drive(
    a: AssemblyView,
    drive: Seq<char>,
    scan: DriveScanOutput,
    times: DriveTimes,
    now: Timestamp,
) -> AssemblyView {
    AssemblyView {
        drives: a.drives.push(
            UsnDriveView {
                drive,
                status: age_status(scan.oldest, now),
                records_scanned: scan.records_scanned as nat,
                oldest_entry_utc: opt_view(times.oldest),
                newest_entry_utc: opt_view(times.newest),
                oldest_entry_date_utc: opt_view(times.oldest_date),
                last_deletion_utc: opt_view(times.last_deletion),
                age: match scan.newest {
                    Some(time) => Some(humanized_age(time, now)),
                    None => None,
                },
            },
        ),
        minecraft_events: limited(a.minecraft_events, views(scan.minecraft_events@)),
        discord_events: limited(a.discord_events, views(scan.discord_events@)),
        scanned_records: added_up(a.scanned_records, scan.records_scanned as nat),
        warnings: a.warnings + views(scan.warnings@),
        scanned_locations: a.scanned_locations.push("usn_volume: "@ + drive),
    }
}

/// The sum, up to the greatest `usize`.
pub open spec fn added_up(a: nat, b: nat) -> nat {
    if a + b > usize::MAX {
        usize::MAX as nat
    } else {
        a + b
    }
}

/// The findings after the drive `drive` could not be read. Only the system
/// drive is listed then; other drives are mentioned where the error is no
/// common one.
pub open spec fn with_failed_drive(
    a: AssemblyView,
    drive: Seq<char>,
    is_system: bool,
    kind: DriveScanErrorKind,
    message: Seq<char>,
) -> AssemblyView {
    let reason = trim(message, CharClass::Space);
    AssemblyView {
        drives: if !is_system {
            a.drives
        } else {
            a.drives.push(
                unread_drive(
                    drive,
                    match kind {
                        DriveScanErrorKind::Unsupported => "Недоступно (USN не поддерживается)"@,
                        DriveScanErrorKind::Permission =>
                            "Недоступно (нужны права администратора)"@,
                        DriveScanErrorKind::Other => "Недоступно (права или политика системы)"@,
                    },
                ),
            )
        },
        warnings: if kind != DriveScanErrorKind::Other {
            a.warnings
        } else if is_system {
            a.warnings.push("USN "@ + drive + ": "@ + reason)
        } else {
            a.warnings.push("USN "@ + drive + ": пропущен ("@ + reason + ")"@)
        },
        scanned_locations: a.scanned_locations.push("usn_volume: "@ + drive),
        ..a
    }
}

/// Nothing found on any drive yet.
pub open spec fn no_drives() -> AssemblyView {
    AssemblyView {
        drives: Seq::empty(),
        minecraft_events: Seq::empty(),
        discord_events: Seq::empty(),
        scanned_records: 0,
        warnings: Seq::empty(),
        scanned_locations: Seq::empty(),
    }
}

/// The records of all of `drives`.
pub open spec fn records_of(drives: Seq<UsnDriveView>) -> nat
    decreases drives.len(),
{
    if drives.len() == 0 {
        0
    } else {
        records_of(drives.drop_last()) + drives.last().records_scanned
    }
}

/// The records scanned are those of the drives listed, as far as they can be
/// counted, and neither list of events is longer than its limit.
pub open spec fn is_tallied(a: AssemblyView) -> bool {
    &&& a.scanned_records == added_up(0, records_of(a.drives))
    &&& a.minecraft_events.len() <= MAX_EVENTS_PER_CATEGORY
    &&& a.discord_events.len() <= MAX_EVENTS_PER_CATEGORY
}

/// A drive that was read or not, with what came of it.
pub enum DriveOutcome {
    Read { drive: Seq<char>, scan: DriveScanOutput, times: DriveTimes, now: Timestamp },
    Failed { drive: Seq<char>, is_system: bool, kind: DriveScanErrorKind, message: Seq<char> },
}

/// The findings after all of `outcomes`.
pub open spec fn after_drives(outcomes: Seq<DriveOutcome>) -> AssemblyView
    decreases outcomes.len(),
{
    if outcomes.len() == 0 {
        no_drives()
    } else {
        let before = after_drives(outcomes.drop_last());
        match outcomes.last() {
            DriveOutcome::Read { drive, scan, times, now } => with_drive(
                before,
                drive,
                scan,
                times,
                now,
            ),
            DriveOutcome::Failed { drive, is_system, kind, message } => with_failed_drive(
                before,
                drive,
                is_system,
                kind,
                message,
            ),
        }
    }
}

/// Whatever came of the drives, the records scanned are the sum over those that
/// are listed, up to the greatest `usize`, and neither list of events is longer
/// than its limit.
pub proof fn law_drives_tallied(outcomes: Seq<DriveOutcome>)
    ensures
        is_tallied(after_drives(outcomes)),
    decreases outcomes.len(),
{
    if outcomes.len() > 0 {
        law_drives_tallied(outcomes.drop_last());
        let before = after_drives(outcomes.drop_last());
        let after = after_drives(outcomes);
        if after.drives.len() > before.drives.len() {
            assert(after.drives.drop_last() =~= before.drives);
        }
    }
}

impl UsnAssembly {
    pub fn new() -> (r: UsnAssembly)
        ensures
            r@ == no_drives(),
    {
        let r = UsnAssembly {
            drives: Vec::new(),
            minecraft_events: Vec::new(),
            discord_events: Vec::new(),
            scanned_records: 0,
            warnings: Vec::new(),
            scanned_locations: Vec::new(),
        };
        assert(views(r.drives@) =~= Seq::empty());
        assert(views(r.minecraft_events@) =~= Seq::empty());
        assert(views(r.discord_events@) =~= Seq::empty());
        assert(views(r.warnings@) =~= Seq::empty());
        assert(views(r.scanned_locations@) =~= Seq::empty());
        r
    }

    fn note_location(&mut self, drive: &str)
        ensures
            final(self)@ == (AssemblyView {
                scanned_locations: old(self)@.scanned_locations.push("usn_volume: "@ + drive@),
                ..old(self)@
            }),
    {
        let mut location = "usn_volume: ".to_string();
        location.push_str(drive);
        push_view(&mut self.scanned_locations, location);
    }

    /// Adds what was found on `drive`; `times` are its times as shown.
    pub fn add_drive(
        &mut self,
        drive: &str,
        scan: DriveScanOutput,
        times: DriveTimes,
        now: Timestamp,
    )
        ensures
            final(self)@ == with_drive(old(self)@, drive@, scan, times, now),
    {
        self.note_location(drive);
        self.scanned_records = self.scanned_records.saturating_add(scan.records_scanned);
        append_texts(&mut self.warnings, &scan.warnings);
        let age = match scan.newest {
            Some(time) => Some(humanize_age_since(time, now)),
            None => None,
        };
        let status = UsnDriveStatus {
            drive: drive.to_string(),
            status: classify_age_status(scan.oldest, now),
            records_scanned: scan.records_scanned,
            oldest_entry_utc: times.oldest,
            newest_entry_utc: times.newest,
            oldest_entry_date_utc: times.oldest_date,
            last_deletion_utc: times.last_deletion,
            age,
        };
        push_view(&mut self.drives, status);
        add_events(&mut self.minecraft_events, scan.minecraft_events);
        add_events(&mut self.discord_events, scan.discord_events);
    }

    /// Adds that `drive` could not be read.
    pub fn add_failed_drive(&mut self, drive: &str, is_system: bool, error: &DriveScanError)
        ensures
            final(self)@ == with_failed_drive(
                old(self)@,
                drive@,
                is_system,
                error.kind,
                error.message@,
            ),
    {
        self.note_location(drive);
        let chars = chars_of(error.message.as_str());
        let reason = string_of(trim_chars(chars.as_slice(), CharClass::Space));
        let status = match error.kind {
            DriveScanErrorKind::Unsupported => "Недоступно (USN не поддерживается)",
            DriveScanErrorKind::Permission => "Недоступно (нужны права администратора)",
            DriveScanErrorKind::Other => "Недоступно (права или политика системы)",
        };
        if is_system {
            push_view(&mut self.drives, unread_status(drive, status));
        }
        match error.kind {
            DriveScanErrorKind::Other => {
                let mut warning = "USN ".to_string();
                warning.push_str(drive);
                if is_system {
                    warning.push_str(": ");
                    warning.push_str(reason.as_str());
                } else {
                    warning.push_str(": пропущен (");
                    warning.push_str(reason.as_str());
                    warning.push_str(")");
                }
                push_view(&mut self.warnings, warning);
            },
            _ => {},
        }
    }

    /// The report on all drives.
    pub fn finish(self) -> (r: UsnScanOutput)
        ensures
            r@ == (UsnOutputView {
                report: Some(
                    UsnReportView {
                        status: global_status(self@.drives),
                        drives: self@.drives,
                        minecraft_events: self@.minecraft_events,
                        discord_events: self@.discord_events,
                        scanned_records: self@.scanned_records,
                    },
                ),
                warnings: self@.warnings,
                scanned_locations: self@.scanned_locations,
            }),
    {
        let status = summarize_global_status(&self.drives);
        UsnScanOutput {
            report: Some(
                UsnJournalReport {
                    status,
                    drives: self.drives,
                    minecraft_events: self.minecraft_events,
                    discord_events: self.discord_events,
                    scanned_records: self.scanned_records,
                },
            ),
            warnings: self.warnings,
            scanned_locations: self.scanned_locations,
        }
    }
}

/// The system drive as drives are named: without backslashes at its end, in
/// lower case.
pub open spec fn system_drive(value: Seq<char>) -> Seq<char> {
    lower(crate::text::trim_end(value, CharClass::Only('\\')))
}

/// Whether the drive `name` is the one that `system` names.
pub fn is_system_drive(name: &str, system: &str) -> (r: bool)
    ensures
        r == (lower(name@) == system_drive(system@)),
{
    let chars = chars_of(system);
    let cut = crate::text::trim_end_chars(chars.as_slice(), CharClass::Only('\\'));
    let low = crate::text::lower_chars(cut);
    let own = to_lower(name);
    crate::text::is_text(low.as_slice(), own.as_str())
}

/// The indices of the drives `names`, the system drive first, else as found.
pub open spec fn drive_order(names: Seq<Seq<char>>, system: Seq<char>, n: nat) -> (
    Seq<usize>,
    Seq<usize>,
)
    decreases n,
{
    if n == 0 {
        (Seq::empty(), Seq::empty())
    } else {
        let (first, rest) = drive_order(names, system, (n - 1) as nat);
        if lower(names[n - 1]) == system_drive(system) {
            (first.push((n - 1) as usize), rest)
        } else {
            (first, rest.push((n - 1) as usize))
        }
    }
}

/// The order in which drives are read: the system drive first, else as found.
pub fn order_drives(names: &Vec<String>, system: &str) -> (r: Vec<usize>)
    ensures
        r@ == drive_order(views(names@), system@, names@.len()).0 + drive_order(
            views(names@),
            system@,
            names@.len(),
        ).1,
{
    let ghost all = views(names@);
    let mut first: Vec<usize> = Vec::new();
    let mut rest: Vec<usize> = Vec::new();
    assert(first@ =~= Seq::empty());
    assert(rest@ =~= Seq::empty());
    for i in 0..names.len()
        invariant
            all == views(names@),
            (first@, rest@) == drive_order(all, system@, i as nat),
    {
        assert(all[i as int] == names@[i as int]@);
        if is_system_drive(names[i].as_str(), system) {
            first.push(i);
        } else {
            rest.push(i);
        }
    }
    first.append(&mut rest);
    first
}

} // verus!
