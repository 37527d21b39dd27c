//! What the look for tampering promises: every event counts for what was done, and
//! every group of events is reported with its numbers.

use vstd::prelude::*;

use crate::forensics::{
    forensic_signals, group_signals, is_trace, tally, tampering, Tally, Tampering, TraceKind,
};
use crate::minecraft::is_numbered;
use crate::outside::regex_found;
use crate::text::{contains, decimal, ends_with, law_split, lower, CharClass};
use crate::usn_journal::{UsnEventView, UsnReportView};

verus! {

/// Which words say what was done to a file, in any case; a deletion counts before a
/// renaming, and that before a change.
pub proof fn law_words_of_tampering(reason: Seq<char>)
    ensures
        ({
            let r = lower(reason);
            let deleted = contains(r, "deleted"@) || contains(r, "удален"@);
            let renamed = contains(r, "renamed"@) || contains(r, "переимен"@);
            let changed = contains(r, "overwrite"@) || contains(r, "stream"@) || contains(
                r,
                "extend"@,
            ) || contains(r, "changed"@);
            &&& tampering(reason) == Tampering::Deleted <==> deleted
            &&& tampering(reason) == Tampering::Renamed <==> renamed && !deleted
            &&& tampering(reason) == Tampering::Overwritten <==> changed && !renamed && !deleted
        }),
{
}

/// The places of the events about the files to which `what` was done.
pub open spec fn places(events: Seq<UsnEventView>, traced: Seq<bool>, what: Tampering) -> Set<int> {
    Set::new(|i: int| 0 <= i < events.len() && traced[i] && tampering(events[i].reason) == what)
}

/// The events about the files that tell of tampering, in order.
pub open spec fn telling(events: Seq<UsnEventView>, traced: Seq<bool>) -> Seq<UsnEventView>
    decreases events.len(),
{
    if events.len() == 0 {
        Seq::empty()
    } else if traced[events.len() - 1] && tampering(events.last().reason) != Tampering::Nothing {
        telling(events.drop_last(), traced).push(events.last())
    } else {
        telling(events.drop_last(), traced)
    }
}

proof fn lemma_places(events: Seq<UsnEventView>, traced: Seq<bool>, what: Tampering)
    requires
        events.len() > 0,
    ensures
        places(events.drop_last(), traced, what).finite() ==> {
            &&& places(events, traced, what).finite()
            &&& places(events, traced, what).len() == places(
                events.drop_last(),
                traced,
                what,
            ).len() + if traced[events.len() - 1] && tampering(events.last().reason) == what {
                1nat
            } else {
                0nat
            }
        },
{
    let before = events.drop_last();
    let last = events.len() - 1;
    let small = places(before, traced, what);
    let all = places(events, traced, what);
    if traced[last] && tampering(events.last().reason) == what {
        assert(all =~= small.insert(last));
        assert(!small.contains(last));
    } else {
        assert(all =~= small);
    }
}

/// Each number is that of the events about the files to which that was done, and
/// the first eight events that tell of tampering are kept.
pub proof fn law_tally(events: Seq<UsnEventView>, traced: Seq<bool>)
    ensures
        tally(events, traced).deleted == places(events, traced, Tampering::Deleted).len(),
        tally(events, traced).renamed == places(events, traced, Tampering::Renamed).len(),
        tally(events, traced).overwritten == places(events, traced, Tampering::Overwritten).len(),
        tally(events, traced).matched == places(events, traced, Tampering::Deleted).len() + places(
            events,
            traced,
            Tampering::Renamed,
        ).len() + places(events, traced, Tampering::Overwritten).len() + places(
            events,
            traced,
            Tampering::Nothing,
        ).len(),
        places(events, traced, Tampering::Deleted).finite(),
        places(events, traced, Tampering::Renamed).finite(),
        places(events, traced, Tampering::Overwritten).finite(),
        places(events, traced, Tampering::Nothing).finite(),
        telling(events, traced).len() <= 8 ==> tally(events, traced).samples == telling(
            events,
            traced,
        ),
        telling(events, traced).len() > 8 ==> tally(events, traced).samples == telling(
            events,
            traced,
        ).take(8),
    decreases events.len(),
{
    if events.len() > 0 {
        let before = events.drop_last();
        law_tally(before, traced);
        lemma_places(events, traced, Tampering::Deleted);
        lemma_places(events, traced, Tampering::Renamed);
        lemma_places(events, traced, Tampering::Overwritten);
        lemma_places(events, traced, Tampering::Nothing);
        let small = telling(before, traced);
        let all = telling(events, traced);
        if all.len() > 8 {
            if small.len() == 8 {
                assert(all.take(8) =~= small);
            } else {
                assert(all.take(8) =~= small.take(8));
            }
        }
    } else {
        assert(places(events, traced, Tampering::Deleted) =~= Set::empty());
        assert(places(events, traced, Tampering::Renamed) =~= Set::empty());
        assert(places(events, traced, Tampering::Overwritten) =~= Set::empty());
        assert(places(events, traced, Tampering::Nothing) =~= Set::empty());
    }
}

/// What is said of a group of events: how often what was done and the events that
/// tell of it, that nothing was done, or, where no event is about the files,
/// nothing.
pub proof fn law_group_signals(label: Seq<char>, t: Tally, i: int)
    requires
        0 <= i < t.samples.len(),
    ensures
        t.deleted + t.renamed + t.overwritten > 0 ==> {
            let s = group_signals(label, t);
            &&& s.len() == t.samples.len() + 1
            &&& s[0] == "USN "@ + label + ": возможна манипуляция (удалено: "@ + decimal(t.deleted)
                + ", переименовано: "@ + decimal(t.renamed) + ", изменено: "@ + decimal(
                t.overwritten,
            ) + ")"@
            &&& s[i + 1] == "USN "@ + label + ": ["@ + t.samples[i].reason + "] "@
                + t.samples[i].timestamp_utc + " | "@ + t.samples[i].path
        },
        t.deleted + t.renamed + t.overwritten == 0 && t.matched > 0 ==> group_signals(label, t)
            == seq![
            "USN "@ + label + ": манипуляций не выявлено (событий: "@ + decimal(t.matched) + ")"@,
        ],
        t.deleted + t.renamed + t.overwritten == 0 && t.matched == 0 ==> group_signals(
            label,
            t,
        ).len() == 0,
{
}

/// A report is looked through for both the game and Discord; what is said of the one
/// stands before what is said of the other, and something is said of every report.
pub proof fn law_report_signals(r: UsnReportView)
    ensures
        ({
            let game = group_signals(
                "Minecraft"@,
                tally(
                    r.minecraft_events,
                    r.minecraft_events.map_values(
                        |e: UsnEventView| is_trace(TraceKind::Minecraft, e),
                    ),
                ),
            );
            let discord = group_signals(
                "Discord"@,
                tally(
                    r.discord_events,
                    r.discord_events.map_values(|e: UsnEventView| is_trace(TraceKind::Discord, e)),
                ),
            );
            let all = forensic_signals(Some(r));
            &&& game.len() + discord.len() > 0 ==> all == game + discord
            &&& game.len() + discord.len() == 0 ==> all == seq![
                "USN: явных признаков чистки логов не обнаружено"@,
            ]
            &&& all.len() > 0
        }),
        forensic_signals(None).len() == 0,
{
}

/// An event is about the game where its path ends in the name of one of its logs, and
/// about Discord where it is in a path of Discord, of a table, of a log or of its
/// storage; all in any case.
pub proof fn law_traces(dir: Seq<char>, sep: char, name: Seq<char>, e: UsnEventView)
    requires
        sep == '\\' || sep == '/',
        forall|i: int| 0 <= i < name.len() ==> #[trigger] name[i] != '\\' && name[i] != '/',
    ensures
        e.path == dir.push(sep) + name ==> (is_trace(TraceKind::Minecraft, e) <==> {
            let n = lower(name);
            ||| n == "latest.log"@
            ||| n == "debug.log"@
            ||| is_numbered(n, "latest.log."@)
            ||| is_numbered(n, "debug.log."@)
            ||| regex_found(r"(?i)^\d{4}-\d{2}-\d{2}-\d+\.log(?:\.gz)?$"@, n)
        }),
        is_trace(TraceKind::Discord, e) <==> contains(lower(e.path), "discord"@) && (ends_with(
            lower(e.path),
            ".ldb"@,
        ) || ends_with(lower(e.path), ".log"@) || contains(
            lower(e.path),
            "local storage\\leveldb"@,
        )),
{
    if e.path == dir.push(sep) + name {
        let low = lower(e.path);
        let n = lower(name);
        let k = CharClass::Separator;
        assert(low =~= lower(dir).push(sep) + n);
        assert forall|i: int| 0 <= i < n.len() implies !k.has(#[trigger] n[i]) by {
            assert(name[i] != '\\' && name[i] != '/');
        }
        law_split(n, sep, Seq::empty(), k);
        law_split(lower(dir), sep, n, k);
        assert(crate::text::split(low, k).last() == n);
        assert(lower(n) =~= n) by {
            if n.len() > 0 {
                crate::text::law_lower(name, 0);
            }
        }
    }
}

} // verus!
