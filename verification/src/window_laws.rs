//! What the window promises: how a scan shows, and how what it found is put into
//! words.

use vstd::prelude::*;

use crate::app_state::{
    compact_path, discord_link_indices, explanation_index, humanized_reason, joined_by,
    link_matches, minecraft_link_indices, previewed, report_messages, scan_ended, scan_started,
    sources_text, started, tone, usn_message, AppView, EventTone, StatusState,
};
use crate::discord_scan::DiscordAltView;
use crate::minecraft_accounts::MinecraftDebugView;
use crate::paths_laws::{is_part, is_separator, on_drive};
use crate::profiles::ProfileLinkView;
use crate::scanner::ScanReportView;
use crate::text::{
    contains, decimal, is_alphabetic, law_decimal_roundtrip, lower, same_ignoring_case, starts_with,
    trim, CharClass,
};
use crate::theme::{dark_colors, light_colors, tone_color, Rgb};
use crate::usn_journal::UsnReportView;

verus! {

/// The state of the window from start to end of a scan. While one runs another is not
/// started; a report is shown with what was counted, a stopped scan is no error, and
/// an error is shown as it is.
pub proof fn law_scan_shown(
    s: AppView,
    time: Seq<char>,
    report: ScanReportView,
    error: Seq<char>,
)
    ensures
        ({
            let first = started(time);
            &&& first.report is None && !first.is_scanning && !first.has_started
                && first.status_state == StatusState::Idle && first.is_dark_theme
                && !first.ghost_mode && first.error_message is None
            &&& first.event_log == seq![time + "  "@ + "Приложение запущено"@]
        }),
        s.is_scanning ==> scan_started(s, time) == s,
        !s.is_scanning ==> {
            let next = scan_started(s, time);
            &&& next.is_scanning && next.has_started && next.report is None
                && next.error_message is None && next.status_state == StatusState::Scanning
            &&& next.status_line == "Сканирование..."@
            &&& next.event_log == s.event_log.push(
                time + "  "@ + "Запущено сканирование Minecraft + Discord"@,
            )
            &&& next.ghost_mode == s.ghost_mode && next.is_dark_theme == s.is_dark_theme
        },
        ({
            let done = scan_ended(s, Ok(report), time);
            &&& !done.is_scanning && done.status_state == StatusState::Done && done.report == Some(
                report,
            ) && done.error_message is None
            &&& done.status_line == "Готово: Discord "@ + decimal(report.discord_accounts.len())
                + " | Minecraft "@ + decimal(report.minecraft_accounts.len())
            &&& done.event_log.len() == s.event_log.len() + report_messages(report).len()
            &&& forall|i: int|
                0 <= i < report_messages(report).len() ==> #[trigger] done.event_log[s.event_log.len()
                    + i] == time + "  "@ + report_messages(report)[i]
        }),
        ({
            let failed = scan_ended(s, Err(error), time);
            let stopped = trim(error, CharClass::Space)
                == "Сканирование остановлено пользователем"@;
            &&& !failed.is_scanning && failed.report == s.report
            &&& stopped ==> failed.status_state == StatusState::Idle && failed.error_message is None
                && failed.status_line == "Сканирование остановлено пользователем"@
            &&& !stopped ==> failed.status_state == StatusState::Error && failed.error_message
                == Some(error) && failed.status_line == "Ошибка сканирования"@ && failed.event_log
                == s.event_log.push(time + "  "@ + ("Ошибка: "@ + error))
        }),
{
    reveal_strlit("");
    assert(started(time).event_log =~= seq![time + "  "@ + "Приложение запущено"@]);
    assert(!s.is_scanning ==> scan_started(s, time).event_log =~= s.event_log.push(
        time + "  "@ + "Запущено сканирование Minecraft + Discord"@,
    ));
    let failed = scan_ended(s, Err(error), time);
    assert(trim(error, CharClass::Space) != "Сканирование остановлено пользователем"@
        ==> failed.event_log =~= s.event_log.push(time + "  "@ + ("Ошибка: "@ + error)));
    assert(scan_ended(s, Ok(report), time).status_line =~= "Готово: Discord "@ + decimal(
        report.discord_accounts.len(),
    ) + " | Minecraft "@ + decimal(report.minecraft_accounts.len()));
}

/// A finished scan is told of with the numbers of accounts, what the journals say,
/// every signal, how many warnings there are and each of them, in this order.
pub proof fn law_report_told(r: ScanReportView, i: int)
    ensures
        ({
            let all = report_messages(r);
            let n: int = if r.usn_journal is Some {
                2
            } else {
                1
            };
            let m = r.forensic_signals.len() as int;
            &&& all[0] == "Сканирование завершено: Discord "@ + decimal(r.discord_accounts.len())
                + " | Minecraft "@ + decimal(r.minecraft_accounts.len())
            &&& r.usn_journal is Some ==> all[1] == usn_message(r.usn_journal->0)
            &&& 0 <= i < m ==> all[n + i] == r.forensic_signals[i]
            &&& r.warnings.len() == 0 ==> all.len() == n + m
            &&& r.warnings.len() > 0 ==> all.len() == n + m + 1 + r.warnings.len() && all[n + m]
                == "Предупреждений при сканировании: "@ + decimal(r.warnings.len())
            &&& 0 <= i < r.warnings.len() ==> all[n + m + 1 + i] == "Warning: "@ + r.warnings[i]
        }),
{
    reveal_strlit("");
    let all = report_messages(r);
    assert(all[0] =~= "Сканирование завершено: Discord "@ + decimal(r.discord_accounts.len())
        + " | Minecraft "@ + decimal(r.minecraft_accounts.len()));
    let head = "Предупреждений при сканировании: "@;
    assert(head + decimal(r.warnings.len()) + ""@ =~= head + decimal(r.warnings.len()));
}

/// What is said of the journals begins with `USN`, in any case, and ends with how many
/// records were read.
pub proof fn law_usn_told(r: UsnReportView)
    ensures
        starts_with(lower(r.status), "usn"@) ==> usn_message(r) == r.status + " | records "@
            + decimal(r.scanned_records),
        !starts_with(lower(r.status), "usn"@) ==> usn_message(r) == "USN: "@ + r.status
            + " | records "@ + decimal(r.scanned_records),
        starts_with(lower(usn_message(r)), "usn"@),
{
    reveal_strlit("");
    reveal_strlit("usn");
    reveal_strlit("USN: ");
    let n = decimal(r.scanned_records);
    assert(r.status + " | records "@ + n + ""@ =~= r.status + " | records "@ + n);
    assert("USN: "@ + r.status + " | records "@ + n + ""@ =~= "USN: "@ + r.status + " | records "@
        + n);
    let m = usn_message(r);
    let low = lower(m);
    if starts_with(lower(r.status), "usn"@) {
        let head = lower(r.status).subrange(0, 3);
        assert(head == "usn"@);
        assert(low.subrange(0, 3) =~= head);
    } else {
        assert(m[0] == 'U' && m[1] == 'S' && m[2] == 'N');
        assert(low.subrange(0, 3) =~= "usn"@);
    }
}

/// Items are put together with what stands between them, and nothing else.
pub proof fn law_joined(items: Seq<Seq<char>>, last: Seq<char>, between: Seq<char>)
    ensures
        items.len() > 0 ==> joined_by(items.push(last), between) == joined_by(items, between)
            + between + last,
        joined_by(seq![last], between) == last,
        joined_by(Seq::empty(), between).len() == 0,
{
    assert(items.push(last).drop_last() =~= items);
}

/// Of a list the first items are shown and how many more there are.
pub proof fn law_preview_of_list(items: Seq<Seq<char>>, max: nat)
    ensures
        items.len() <= max ==> previewed(items, max) == joined_by(items, ", "@),
        items.len() > max ==> previewed(items, max) == joined_by(items.take(max as int), ", "@)
            + ", +"@ + decimal((items.len() - max) as nat) + " more"@,
        sources_text(1) == "1 source"@,
        max != 1 ==> sources_text(max) == decimal(max) + " sources"@,
{
    reveal_strlit("");
    assert(""@ + decimal(max) =~= decimal(max));
}

/// A path is shown by its last parts; dots say that others stand before them.
pub proof fn law_compact_path(d: char, names: Seq<Seq<char>>, seps: Seq<char>, tail: nat)
    requires
        is_alphabetic(d),
        0 < names.len() <= seps.len(),
        forall|i: int| 0 <= i < names.len() ==> is_part(#[trigger] names[i]) && names[i] != ".."@,
        forall|i: int| 0 <= i < seps.len() ==> is_separator(#[trigger] seps[i]),
    ensures
        tail <= names.len() ==> compact_path(on_drive(d, names, seps), tail) == "...\\"@
            + joined_by(names.skip(names.len() - tail), "\\"@),
        tail > names.len() ==> compact_path(on_drive(d, names, seps), tail) == joined_by(
            seq![seq![d, ':']] + names,
            "\\"@,
        ),
{
    crate::paths_laws::law_path_comes_apart(d, names, seps);
    assert forall|i: int| 0 <= i < names.len() implies !crate::paths::is_dots(
        #[trigger] names[i],
    ) by {
        assert(is_part(names[i]));
    }
    lemma_normal(names);
    let parts = seq![seq![d, ':']] + names;
    if tail <= names.len() {
        assert(parts.skip(parts.len() - tail) =~= names.skip(names.len() - tail));
    }
}

proof fn lemma_normal(names: Seq<Seq<char>>)
    requires
        forall|i: int| 0 <= i < names.len() ==> !crate::paths::is_dots(#[trigger] names[i]),
    ensures
        crate::paths::normal_components(names) == names,
    decreases names.len(),
{
    if names.len() > 0 {
        let before = names.drop_last();
        assert forall|i: int| 0 <= i < before.len() implies !crate::paths::is_dots(
            #[trigger] before[i],
        ) by {
            assert(before[i] == names[i]);
        }
        lemma_normal(before);
        assert(!crate::paths::is_dots(names[names.len() - 1]));
        assert(before.push(names.last()) =~= names);
    } else {
        assert(crate::paths::normal_components(names) =~= names);
    }
}

/// The reasons that are given for names are put into words with their numbers.
pub proof fn law_reasons_told(n: nat)
    requires
        n <= usize::MAX,
    ensures
        humanized_reason("log-evidence:"@ + decimal(n)) == "Подтверждено логами: "@ + decimal(n),
        humanized_reason("placeholder-multi-log:"@ + decimal(n))
            == "Плейсхолдер, но подтверждено многими логами: "@ + decimal(n),
        humanized_reason("placeholder-filtered:"@ + decimal(n))
            == "Отфильтрован как плейсхолдер (логов: "@ + decimal(n) + ")"@,
        humanized_reason("structural-word-filter"@)
            == "Отфильтрован как системное/структурное слово"@,
        humanized_reason("no-usable-evidence"@) == "Недостаточно доказательств для включения"@,
{
    law_decimal_roundtrip(n, usize::MAX as nat);
    let d = decimal(n);
    let a = "log-evidence:"@ + d;
    let b = "placeholder-multi-log:"@ + d;
    let c = "placeholder-filtered:"@ + d;
    lemma_behind("log-evidence:"@, d);
    lemma_behind("placeholder-multi-log:"@, d);
    lemma_behind("placeholder-filtered:"@, d);
    let t = "trusted-account-source:"@;
    assert(!starts_with(a, t) && !starts_with(b, t) && !starts_with(c, t) && !starts_with(
        "structural-word-filter"@,
        t,
    ) && !starts_with("no-usable-evidence"@, t)) by {
        assert(t.len() > 0 && t[0] == 't') by {
            reveal_strlit("trusted-account-source:");
        }
        lemma_heads(d);
        lemma_differ(a, t, 0);
        lemma_differ(b, t, 0);
        lemma_differ(c, t, 0);
        lemma_differ("structural-word-filter"@, t, 0);
        lemma_differ("no-usable-evidence"@, t, 0);
    }
    let l = "log-evidence:"@;
    assert(!starts_with(b, l) && !starts_with(c, l) && !starts_with("structural-word-filter"@, l)
        && !starts_with("no-usable-evidence"@, l)) by {
        assert(l.len() > 0 && l[0] == 'l') by {
            reveal_strlit("log-evidence:");
        }
        lemma_heads(d);
        lemma_differ(b, l, 0);
        lemma_differ(c, l, 0);
        lemma_differ("structural-word-filter"@, l, 0);
        lemma_differ("no-usable-evidence"@, l, 0);
    }
    let m = "placeholder-multi-log:"@;
    assert(!starts_with(c, m) && !starts_with("structural-word-filter"@, m) && !starts_with(
        "no-usable-evidence"@,
        m,
    )) by {
        assert(m.len() > 12 && m[0] == 'p' && m[12] == 'm') by {
            reveal_strlit("placeholder-multi-log:");
        }
        lemma_heads(d);
        lemma_differ(c, m, 12);
        lemma_differ("structural-word-filter"@, m, 0);
        lemma_differ("no-usable-evidence"@, m, 0);
    }
    let f = "placeholder-filtered:"@;
    assert(!starts_with("structural-word-filter"@, f) && !starts_with("no-usable-evidence"@, f)) by {
        assert(f.len() > 0 && f[0] == 'p') by {
            reveal_strlit("placeholder-filtered:");
        }
        lemma_heads(d);
        lemma_differ("structural-word-filter"@, f, 0);
        lemma_differ("no-usable-evidence"@, f, 0);
    }
    assert("structural-word-filter"@ != "no-usable-evidence"@) by {
        lemma_heads(d);
    }
    reveal_strlit("");
    assert("Подтверждено логами: "@ + d + ""@ =~= "Подтверждено логами: "@ + d);
    assert("Плейсхолдер, но подтверждено многими логами: "@ + d + ""@
        =~= "Плейсхолдер, но подтверждено многими логами: "@ + d);
}

proof fn lemma_behind(p: Seq<char>, d: Seq<char>)
    ensures
        starts_with(p + d, p),
        (p + d).skip(p.len() as int) == d,
{
    assert((p + d).subrange(0, p.len() as int) =~= p);
    assert((p + d).skip(p.len() as int) =~= d);
}

proof fn lemma_differ(s: Seq<char>, p: Seq<char>, i: int)
    requires
        0 <= i < s.len(),
        i < p.len(),
        s[i] != p[i],
    ensures
        !starts_with(s, p),
{
    if starts_with(s, p) {
        assert(s.subrange(0, p.len() as int)[i] == s[i]);
    }
}

proof fn lemma_heads(d: Seq<char>)
    ensures
        ("log-evidence:"@ + d).len() > 0 && ("log-evidence:"@ + d)[0] == 'l',
        ("placeholder-multi-log:"@ + d).len() > 0 && ("placeholder-multi-log:"@ + d)[0] == 'p',
        ("placeholder-filtered:"@ + d).len() > 12 && ("placeholder-filtered:"@ + d)[0] == 'p' && (
        "placeholder-filtered:"@ + d)[12] == 'f',
        "structural-word-filter"@.len() > 0 && "structural-word-filter"@[0] == 's',
        "no-usable-evidence"@.len() > 0 && "no-usable-evidence"@[0] == 'n',
{
    assert("log-evidence:"@.len() > 0 && "log-evidence:"@[0] == 'l') by {
        reveal_strlit("log-evidence:");
    }
    assert("placeholder-multi-log:"@.len() > 0 && "placeholder-multi-log:"@[0] == 'p') by {
        reveal_strlit("placeholder-multi-log:");
    }
    assert("placeholder-filtered:"@.len() > 12 && "placeholder-filtered:"@[0] == 'p'
        && "placeholder-filtered:"@[12] == 'f') by {
        reveal_strlit("placeholder-filtered:");
    }
    assert("structural-word-filter"@.len() > 0 && "structural-word-filter"@[0] == 's') by {
        reveal_strlit("structural-word-filter");
    }
    assert("no-usable-evidence"@.len() > 0 && "no-usable-evidence"@[0] == 'n') by {
        reveal_strlit("no-usable-evidence");
    }
}

/// A link stands for an account by its name, its id, or `id:` and its id, in any case.
/// The links of an account are all those that name it.
pub proof fn law_links_of_account(
    links: Seq<ProfileLinkView>,
    username: Seq<char>,
    account: DiscordAltView,
    value: Seq<char>,
    n: nat,
    i: int,
)
    requires
        n <= links.len() <= usize::MAX,
        0 <= i < n,
    ensures
        link_matches(value, account) <==> lower(value) == lower(account.username) || (
        account.id is Some && (lower(value) == lower(account.id->0) || lower(value) == lower(
            "id:"@ + account.id->0,
        ))),
        minecraft_link_indices(links, username, n).contains(i as usize) <==> exists|k: int|
            0 <= k < links[i].minecraft_accounts.len() && lower(
                #[trigger] links[i].minecraft_accounts[k],
            ) == lower(username),
        discord_link_indices(links, account, n).contains(i as usize) <==> exists|k: int|
            0 <= k < links[i].discord_accounts.len() && link_matches(
                #[trigger] links[i].discord_accounts[k],
                account,
            ),
    decreases n,
{
    lemma_minecraft_links(links, username, n, i);
    lemma_discord_links(links, account, n, i);
    if exists|k: int|
        0 <= k < links[i].minecraft_accounts.len() && lower(
            #[trigger] links[i].minecraft_accounts[k],
        ) == lower(username) {
        let k = choose|k: int|
            0 <= k < links[i].minecraft_accounts.len() && lower(
                #[trigger] links[i].minecraft_accounts[k],
            ) == lower(username);
        assert(same_ignoring_case(links[i].minecraft_accounts[k], username));
    }
}

proof fn lemma_minecraft_links(links: Seq<ProfileLinkView>, username: Seq<char>, n: nat, i: int)
    requires
        n <= links.len() <= usize::MAX,
        0 <= i < links.len(),
    ensures
        minecraft_link_indices(links, username, n).contains(i as usize) <==> i < n
            && crate::app_state::links_minecraft(links[i], username),
    decreases n,
{
    if n > 0 {
        lemma_minecraft_links(links, username, (n - 1) as nat, i);
        lemma_pushed(
            minecraft_link_indices(links, username, (n - 1) as nat),
            (n - 1) as usize,
            i as usize,
        );
    }
}

proof fn lemma_discord_links(links: Seq<ProfileLinkView>, account: DiscordAltView, n: nat, i: int)
    requires
        n <= links.len() <= usize::MAX,
        0 <= i < links.len(),
    ensures
        discord_link_indices(links, account, n).contains(i as usize) <==> i < n
            && crate::app_state::links_discord(links[i], account),
    decreases n,
{
    if n > 0 {
        lemma_discord_links(links, account, (n - 1) as nat, i);
        lemma_pushed(
            discord_link_indices(links, account, (n - 1) as nat),
            (n - 1) as usize,
            i as usize,
        );
    }
}

proof fn lemma_pushed(s: Seq<usize>, last: usize, x: usize)
    ensures
        s.push(last).contains(x) <==> s.contains(x) || x == last,
{
    if s.contains(x) {
        let i = choose|i: int| 0 <= i < s.len() && s[i] == x;
        assert(s.push(last)[i] == x);
    }
    assert(s.push(last)[s.len() as int] == last);
    if s.push(last).contains(x) && x != last {
        let i = choose|i: int| 0 <= i < s.push(last).len() && s.push(last)[i] == x;
        assert(s[i] == x);
    }
}

/// The explanation of a name is the first one that is about it, in any case; there is
/// none where none is about it.
pub proof fn law_explanation(debug: Seq<MinecraftDebugView>, username: Seq<char>, from: int, i: int)
    requires
        0 <= from <= i < debug.len(),
        lower(debug[i].username) == lower(username),
    ensures
        explanation_index(debug, username, from) is Some,
        from <= explanation_index(debug, username, from)->0 <= i,
        lower(debug[explanation_index(debug, username, from)->0].username) == lower(username),
    decreases i - from,
{
    if lower(debug[from].username) != lower(username) {
        law_explanation(debug, username, from + 1, i);
    }
}

/// In which tone a line is shown: what was deleted and errors as a danger, what was
/// renamed or changed, warnings and ends each in their own, and all else muted.
pub proof fn law_tones(line: Seq<char>)
    ensures
        ({
            let t = lower(line);
            let deleted = contains(t, "[deleted]"@) || contains(t, "удалено:"@);
            let renamed = contains(t, "[renamed]"@) || contains(t, "переименовано:"@);
            let changed = contains(t, "[overwrite]"@) || contains(t, "[extend]"@) || contains(
                t,
                "изменено:"@,
            ) || contains(t, "stream_change"@);
            let warned = contains(t, "warning:"@) || contains(t, "предупреж"@);
            let failed = contains(t, "ошибка"@) || contains(t, "failed"@);
            let finished = contains(t, "сканирование завершено"@) || contains(t, "готово:"@);
            &&& deleted ==> tone(line) == EventTone::Danger
            &&& !deleted && renamed ==> tone(line) == EventTone::Renamed
            &&& !deleted && !renamed && changed ==> tone(line) == EventTone::Changed
            &&& !deleted && !renamed && !changed && warned ==> tone(line) == EventTone::Warning
            &&& !deleted && !renamed && !changed && !warned && failed ==> tone(line)
                == EventTone::Danger
            &&& !deleted && !renamed && !changed && !warned && !failed && finished ==> tone(line)
                == EventTone::Success
            &&& !deleted && !renamed && !changed && !warned && !failed && !finished ==> tone(line)
                == EventTone::Muted
        }),
{
}

/// The colour of every tone: danger and muted lines have those of the theme, the
/// others one that is the same in both.
pub proof fn law_colors()
    ensures
        dark_colors().danger == (Rgb { r: 240, g: 71, b: 71 }),
        light_colors().danger == (Rgb { r: 189, g: 47, b: 47 }),
        forall|c: crate::theme::UiPalette|
            #![trigger tone_color(EventTone::Danger, c)]
            tone_color(EventTone::Danger, c) == c.danger && tone_color(EventTone::Muted, c)
                == c.muted && tone_color(EventTone::Renamed, c) == (Rgb { r: 230, g: 197, b: 92 })
                && tone_color(EventTone::Changed, c) == (Rgb { r: 138, g: 186, b: 255 })
                && tone_color(EventTone::Warning, c) == (Rgb { r: 241, g: 171, b: 89 })
                && tone_color(EventTone::Success, c) == (Rgb { r: 127, g: 210, b: 144 }),
{
}

} // verus!
