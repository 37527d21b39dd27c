//! Signs in the change journals that logs were tampered with.

use vstd::prelude::*;

use crate::minecraft::{is_dated, is_log_name, is_probable_minecraft_log_name};
use crate::text::{
    chars_of, contains, ends_with, finishes_with, has_text, lower, lower_chars, push_number,
    to_lower, with_number,
};
use crate::usn_journal::{UsnEvent, UsnEventView, UsnJournalReport, UsnReportView};
use crate::usn_records::{usn_file_name, usn_name};
use crate::views::{push_view, views};

verus! {

/// A path that ends in the name of a log of the game.
pub open spec fn is_log_path(path: Seq<char>) -> bool {
    let name = lower(usn_name(path));
    is_log_name(name, is_dated(name))
}

pub fn is_minecraft_log_trace(path: &str) -> (r: bool)
    ensures
        r == is_log_path(path@),
{
    let name = usn_file_name(path);
    let low = to_lower(name.as_str());
    is_probable_minecraft_log_name(low.as_str())
}

/// A path, in lower case, of a file in which Discord keeps its data.
pub open spec fn is_discord_path(path: Seq<char>) -> bool {
    contains(path, "discord"@) && (ends_with(path, ".ldb"@) || ends_with(path, ".log"@) || contains(
        path,
        "local storage\\leveldb"@,
    ))
}

pub fn is_discord_trace(path: &str) -> (r: bool)
    ensures
        r == is_discord_path(path@),
{
    let p = chars_of(path);
    let p = p.as_slice();
    has_text(p, "discord") && (finishes_with(p, ".ldb") || finishes_with(p, ".log") || has_text(
        p,
        "local storage\\leveldb",
    ))
}

/// Whose files events are about.
#[derive(Debug, Clone, Copy, PartialEq, Eq, Structural)]
pub enum TraceKind {
    Minecraft,
    Discord,
}

/// The event is about a file of that kind.
pub open spec fn is_trace(kind: TraceKind, event: UsnEventView) -> bool {
    match kind {
        TraceKind::Minecraft => is_log_path(lower(event.path)),
        TraceKind::Discord => is_discord_path(lower(event.path)),
    }
}

/// What was done to a file.
#[derive(Debug, Clone, Copy, PartialEq, Eq, Structural)]
pub enum Tampering {
    Deleted,
    Renamed,
    Overwritten,
    Nothing,
}

/// What the reason of an event says was done, in English or Russian.
pub open spec fn tampering(reason: Seq<char>) -> Tampering {
    let r = lower(reason);
    if contains(r, "deleted"@) || contains(r, "удален"@) {
        Tampering::Deleted
    } else if contains(r, "renamed"@) || contains(r, "переимен"@) {
        Tampering::Renamed
    } else if contains(r, "overwrite"@) || contains(r, "stream"@) || contains(r, "extend"@)
        || contains(r, "changed"@) {
        Tampering::Overwritten
    } else {
        Tampering::Nothing
    }
}

pub fn tampering_of(reason: &str) -> (r: Tampering)
    ensures
        r == tampering(reason@),
{
    let chars = chars_of(reason);
    let low = lower_chars(chars.as_slice());
    let t = low.as_slice();
    if has_text(t, "deleted") || has_text(t, "удален") {
        Tampering::Deleted
    } else if has_text(t, "renamed") || has_text(t, "переимен") {
        Tampering::Renamed
    } else if has_text(t, "overwrite") || has_text(t, "stream") || has_text(t, "extend")
        || has_text(t, "changed") {
        Tampering::Overwritten
    } else {
        Tampering::Nothing
    }
}

/// What a list of events adds up to.
#[verifier::ext_equal]
pub struct Tally {
    pub deleted: nat,
    pub renamed: nat,
    pub overwritten: nat,
    pub matched: nat,
    pub samples: Seq<UsnEventView>,
}

/// The tally of the events that `traced` marks; the first eight telling ones
/// are kept.
pub open spec fn tally(events: Seq<UsnEventView>, traced: Seq<bool>) -> Tally
    decreases events.len(),
{
    if events.len() == 0 {
        Tally { deleted: 0, renamed: 0, overwritten: 0, matched: 0, samples: Seq::empty() }
    } else {
        let before = tally(events.drop_last(), traced);
        let e = events.last();
        let what = tampering(e.reason);
        if !traced[events.len() - 1] {
            before
        } else {
            Tally {
                matched: before.matched + 1,
                deleted: before.deleted + if what == Tampering::Deleted {
                    1nat
                } else {
                    0nat
                },
                renamed: before.renamed + if what == Tampering::Renamed {
                    1nat
                } else {
                    0nat
                },
                overwritten: before.overwritten + if what == Tampering::Overwritten {
                    1nat
                } else {
                    0nat
                },
                samples: if what != Tampering::Nothing && before.samples.len() < 8 {
                    before.samples.push(e)
                } else {
                    before.samples
                },
            }
        }
    }
}

/// The signal of one telling event.
pub open spec fn sample_signal(label: Seq<char>, e: UsnEventView) -> Seq<char> {
    "USN "@ + label + ": ["@ + e.reason + "] "@ + e.timestamp_utc + " | "@ + e.path
}

/// The signals of a group of events: that nothing was done, or what was done
/// how often, and the telling events.
pub open spec fn group_signals(label: Seq<char>, t: Tally) -> Seq<Seq<char>> {
    if t.deleted + t.renamed + t.overwritten == 0 {
        if t.matched > 0 {
            seq![
                with_number(
                    "USN "@ + label + ": манипуляций не выявлено (событий: "@,
                    t.matched,
                    ")"@,
                ),
            ]
        } else {
            Seq::empty()
        }
    } else {
        seq![
            with_number(
                with_number(
                    with_number(
                        "USN "@ + label + ": возможна манипуляция (удалено: "@,
                        t.deleted,
                        ", переименовано: "@,
                    ),
                    t.renamed,
                    ", изменено: "@,
                ),
                t.overwritten,
                ")"@,
            ),
        ] + t.samples.map_values(|e: UsnEventView| sample_signal(label, e))
    }
}

/// No more events are telling than are about the files, at most eight of them
/// are kept, and one is wherever there is any.
pub proof fn law_tally_counts(events: Seq<UsnEventView>, traced: Seq<bool>)
    ensures
        tally(events, traced).deleted + tally(events, traced).renamed + tally(
            events,
            traced,
        ).overwritten <= tally(events, traced).matched,
        tally(events, traced).matched <= events.len(),
        tally(events, traced).samples.len() <= 8,
        tally(events, traced).samples.len() <= tally(events, traced).deleted + tally(
            events,
            traced,
        ).renamed + tally(events, traced).overwritten,
        tally(events, traced).deleted + tally(events, traced).renamed + tally(
            events,
            traced,
        ).overwritten > 0 ==> tally(events, traced).samples.len() > 0,
    decreases events.len(),
{
    if events.len() > 0 {
        law_tally_counts(events.drop_last(), traced);
    }
}

/// Adds the signals of the events that `traced` marks.
pub fn analyze_marked_events(
    label: &str,
    events: &Vec<UsnEvent>,
    traced: &Vec<bool>,
    signals: &mut Vec<String>,
)
    requires
        events@.len() == traced@.len(),
    ensures
        views(final(signals)@) == views(old(signals)@) + group_signals(
            label@,
            tally(views(events@), traced@),
        ),
{
    let ghost all = views(events@);
    let ghost start = views(signals@);
    let mut deleted: usize = 0;
    let mut renamed: usize = 0;
    let mut overwritten: usize = 0;
    let mut matched: usize = 0;
    let mut samples: Vec<usize> = Vec::new();
    let ghost mut kept = Seq::<UsnEventView>::empty();
    for i in 0..events.len()
        invariant
            all == views(events@),
            events@.len() == traced@.len(),
            matched <= i,
            deleted + renamed + overwritten <= matched,
            samples@.len() == kept.len(),
            forall|k: int|
                0 <= k < kept.len() ==> #[trigger] samples@[k] < events@.len() && kept[k]
                    == all[samples@[k] as int],
            tally(all.take(i as int), traced@) == (Tally {
                deleted: deleted as nat,
                renamed: renamed as nat,
                overwritten: overwritten as nat,
                matched: matched as nat,
                samples: kept,
            }),
    {
        let event = &events[i];
        assert(all.take(i + 1).drop_last() =~= all.take(i as int));
        assert(all.take(i + 1).last() == event@);
        if traced[i] {
            matched = matched + 1;
            let what = tampering_of(event.reason.as_str());
            match what {
                Tampering::Deleted => {
                    deleted = deleted + 1;
                },
                Tampering::Renamed => {
                    renamed = renamed + 1;
                },
                Tampering::Overwritten => {
                    overwritten = overwritten + 1;
                },
                Tampering::Nothing => {},
            }
            if what != Tampering::Nothing && samples.len() < 8 {
                samples.push(i);
                proof {
                    kept = kept.push(event@);
                }
            }
        }
    }
    assert(all.take(all.len() as int) =~= all);
    assert(all.len() == events@.len());
    if deleted == 0 && renamed == 0 && overwritten == 0 {
        if matched > 0 {
            let mut text = "USN ".to_string();
            text.push_str(label);
            text.push_str(": манипуляций не выявлено (событий: ");
            push_number(&mut text, matched as u64, ")");
            push_view(signals, text);
        }
        assert(views(signals@) =~= start + group_signals(label@, tally(all, traced@)));
        return;
    }
    let mut text = "USN ".to_string();
    text.push_str(label);
    text.push_str(": возможна манипуляция (удалено: ");
    push_number(&mut text, deleted as u64, ", переименовано: ");
    push_number(&mut text, renamed as u64, ", изменено: ");
    push_number(&mut text, overwritten as u64, ")");
    push_view(signals, text);
    let ghost first = views(signals@);
    let ghost shown = kept.map_values(|e: UsnEventView| sample_signal(label@, e));
    assert(first + shown.take(0) =~= first);
    for k in 0..samples.len()
        invariant
            all == views(events@),
            samples@.len() == kept.len(),
            shown == kept.map_values(|e: UsnEventView| sample_signal(label@, e)),
            forall|k: int|
                0 <= k < kept.len() ==> #[trigger] samples@[k] < events@.len() && kept[k]
                    == all[samples@[k] as int],
            views(signals@) == first + shown.take(k as int),
    {
        assert(samples@[k as int] < events@.len());
        let e = &events[samples[k]];
        let mut line = "USN ".to_string();
        line.push_str(label);
        line.push_str(": [");
        line.push_str(e.reason.as_str());
        line.push_str("] ");
        line.push_str(e.timestamp_utc.as_str());
        line.push_str(" | ");
        line.push_str(e.path.as_str());
        assert(kept[k as int] == e@);
        assert(shown[k as int] == line@);
        push_view(signals, line);
        assert(views(signals@) =~= first + shown.take(k + 1));
    }
    assert(shown.take(shown.len() as int) =~= shown);
    assert(views(signals@) =~= start + group_signals(label@, tally(all, traced@)));
}

/// Which events are about files of a kind.
pub open spec fn traces(kind: TraceKind, events: Seq<UsnEventView>) -> Seq<bool> {
    events.map_values(|e: UsnEventView| is_trace(kind, e))
}

pub fn analyze_usn_event_group(
    label: &str,
    events: &Vec<UsnEvent>,
    kind: TraceKind,
    signals: &mut Vec<String>,
)
    ensures
        views(final(signals)@) == views(old(signals)@) + group_signals(
            label@,
            tally(views(events@), traces(kind, views(events@))),
        ),
{
    let ghost marks = traces(kind, views(events@));
    let mut traced: Vec<bool> = Vec::new();
    for i in 0..events.len()
        invariant
            marks == traces(kind, views(events@)),
            traced@ == marks.take(i as int),
    {
        let path = to_lower(events[i].path.as_str());
        let trace = match kind {
            TraceKind::Minecraft => is_minecraft_log_trace(path.as_str()),
            TraceKind::Discord => is_discord_trace(path.as_str()),
        };
        assert(views(events@)[i as int] == events@[i as int]@);
        assert(trace == marks[i as int]);
        traced.push(trace);
        assert(traced@ =~= marks.take(i + 1));
    }
    assert(marks.take(marks.len() as int) =~= marks);
    analyze_marked_events(label, events, &traced, signals);
}

/// The signals of a report. Where there is a report but no signal, that is said.
pub open spec fn forensic_signals(report: Option<UsnReportView>) -> Seq<Seq<char>> {
    match report {
        None => Seq::empty(),
        Some(r) => {
            let found = group_signals(
                "Minecraft"@,
                tally(r.minecraft_events, traces(TraceKind::Minecraft, r.minecraft_events)),
            ) + group_signals(
                "Discord"@,
                tally(r.discord_events, traces(TraceKind::Discord, r.discord_events)),
            );
            if found.len() == 0 {
                seq!["USN: явных признаков чистки логов не обнаружено"@]
            } else {
                found
            }
        },
    }
}

pub fn analyze_usn_forensic_signals(report: &Option<UsnJournalReport>) -> (r: Vec<String>)
    ensures
        views(r@) == forensic_signals(crate::views::opt_view(*report)),
{
    let mut signals: Vec<String> = Vec::new();
    assert(views(signals@) =~= Seq::empty());
    match report {
        None => {},
        Some(report) => {
            analyze_usn_event_group(
                "Minecraft",
                &report.minecraft_events,
                TraceKind::Minecraft,
                &mut signals,
            );
            analyze_usn_event_group(
                "Discord",
                &report.discord_events,
                TraceKind::Discord,
                &mut signals,
            );
            let ghost found = group_signals(
                "Minecraft"@,
                tally(
                    report@.minecraft_events,
                    traces(TraceKind::Minecraft, report@.minecraft_events),
                ),
            ) + group_signals(
                "Discord"@,
                tally(
                    report@.discord_events,
                    traces(TraceKind::Discord, report@.discord_events),
                ),
            );
            assert(views(signals@) =~= found);
            assert(views(signals@).len() == signals@.len());
            if signals.len() == 0 {
                push_view(
                    &mut signals,
                    "USN: явных признаков чистки логов не обнаружено".to_string(),
                );
                assert(views(signals@) =~= seq!["USN: явных признаков чистки логов не обнаружено"@]);
            }
        },
    }
    signals
}

} // verus!
