//! What the search for alternative accounts promises: every name that a log or a
//! JSON file of a game directory gives is found, and nothing else.

use vstd::prelude::*;
use vstd::utf8::{decode_utf8, valid_utf8};

use crate::alts::{
    account_name, byte_pieces, dirs_of_games, ended_line, is_listed, is_skipped_json, item_names,
    line_finds, lines_in, member_names, names_in, nothing_found, unpacked_lines, with_dirs,
    with_found, with_game_dir, with_json, with_jsons, with_line, with_lines, with_log, with_logs,
    with_name, with_names, with_optional_dir, AltScanView, GameDirFiles, JsonFile, LogFile,
    RunningGame,
};
use crate::json::{json_parsed, key_at, lemma_value_at, step_into, value_at, JsonStep, JsonView};
use crate::outside::{gunzipped, regex_first_group, GZIP_MISMATCH};
use crate::paths::{file_name, path_identity};
use crate::text::{
    contains, ends_with, is_alphanumeric, is_space, law_trim, lower, same_ignoring_case, CharClass,
};
use crate::views::opt_view;

verus! {

/// The text holds a name that is `key` in lower case.
pub open spec fn has_name(text: Seq<char>, key: Seq<char>) -> bool {
    account_name(text) is Some && lower(account_name(text)->0) == key
}

/// A pattern finds in the line a name that is `key` in lower case.
pub open spec fn is_found_by(pattern: Seq<char>, line: Seq<char>, key: Seq<char>) -> bool {
    regex_first_group(pattern, line) is Some && has_name(regex_first_group(pattern, line)->0, key)
}

/// A line of a log gives a name: the game, Lunar Client or a launcher says whose
/// session begins, or what is displayed.
pub open spec fn line_gives(line: Seq<char>, key: Seq<char>) -> bool {
    ||| is_found_by(
        r"\[\d{2}:\d{2}:\d{2}\] \[Client thread/INFO\]: Setting user: (\S+)"@,
        line,
        key,
    )
    ||| is_found_by(r"\[LC\] Setting user: (\S+)"@, line, key)
    ||| is_found_by(r"\[Authenticator\] Creating Minecraft session for (\S+)"@, line, key)
    ||| is_found_by(r"displayName=([^\s,]+)"@, line, key)
}

/// The lines of a file of the directory of logs.
pub open spec fn lines_of_log(log: LogFile) -> Seq<Seq<char>> {
    let name = lower(file_name(log.path@));
    if ends_with(name, ".gz"@) {
        unpacked_lines(gunzipped(log.data@).0, gunzipped(log.data@).1)
    } else if ends_with(name, ".log"@) {
        lines_in(log.data@)
    } else {
        Seq::empty()
    }
}

pub open spec fn lines_give(lines: Seq<Seq<char>>, key: Seq<char>) -> bool {
    exists|i: int| 0 <= i < lines.len() && line_gives(#[trigger] lines[i], key)
}

/// Where `path` leads stands a text under a key for names.
pub open spec fn names_at(value: JsonView, path: Seq<JsonStep>, text: Seq<char>) -> bool {
    &&& path.len() > 0
    &&& value_at(value, path) == Some(JsonView::Text(text))
    &&& key_at(value, path, path.len() - 1) matches Some(k) && (lower(k) == "username"@ || lower(k)
        == "name"@ || lower(k) == "displayname"@)
}

/// Somewhere in the value a name stands under a key for names.
pub open spec fn value_gives(value: JsonView, key: Seq<char>) -> bool {
    exists|path: Seq<JsonStep>, text: Seq<char>| #[trigger]
        names_at(value, path, text) && has_name(text, key)
}

pub open spec fn json_gives(json: JsonFile, key: Seq<char>) -> bool {
    json_parsed(json.text@) is Some && value_gives(json_parsed(json.text@)->0, key)
}

pub open spec fn dir_gives(d: GameDirFiles, key: Seq<char>) -> bool {
    ||| exists|i: int| 0 <= i < d.logs@.len() && lines_give(lines_of_log(#[trigger] d.logs@[i]), key)
    ||| exists|i: int| 0 <= i < d.jsons@.len() && json_gives(#[trigger] d.jsons@[i], key)
}

/// The seen names are those of the accounts.
pub open spec fn is_kept(s: AltScanView) -> bool {
    forall|key: Seq<char>| #[trigger] s.seen.contains(key) <==> has_account(s, key)
}

pub open spec fn has_account(s: AltScanView, key: Seq<char>) -> bool {
    exists|i: int| 0 <= i < s.accounts.len() && lower((#[trigger] s.accounts[i]).name) == key
}

proof fn lemma_name(s: AltScanView, value: Seq<char>, source: Seq<char>, key: Seq<char>)
    requires
        is_kept(s),
    ensures
        is_kept(with_name(s, value, source)),
        with_name(s, value, source).seen.contains(key) <==> s.seen.contains(key) || has_name(
            value,
            key,
        ),
{
    let after = with_name(s, value, source);
    if let Some(name) = account_name(value) {
        if !s.seen.contains(lower(name)) {
            let last = s.accounts.len() as int;
            assert(after.accounts[last].name == name);
            assert forall|k: Seq<char>| #[trigger]
                after.seen.contains(k) <==> has_account(after, k) by {
                if s.seen.contains(k) {
                    let i = choose|i: int|
                        0 <= i < s.accounts.len() && lower((#[trigger] s.accounts[i]).name) == k;
                    assert(after.accounts[i] == s.accounts[i]);
                }
                if has_account(after, k) {
                    let i = choose|i: int|
                        0 <= i < after.accounts.len() && lower(
                            (#[trigger] after.accounts[i]).name,
                        ) == k;
                    if i < last {
                        assert(after.accounts[i] == s.accounts[i]);
                        assert(has_account(s, k));
                    }
                }
            }
        }
    }
}

proof fn lemma_line(s: AltScanView, line: Seq<char>, source: Seq<char>, key: Seq<char>)
    requires
        is_kept(s),
    ensures
        ({
            let after = with_line(s, line_finds(line), source);
            is_kept(after) && (after.seen.contains(key) <==> s.seen.contains(key) || line_gives(
                line,
                key,
            ))
        }),
{
    let f = line_finds(line);
    let a = with_found(s, f.client, source);
    let b = with_found(a, f.lunar, source);
    let c = with_found(b, f.authenticator, source);
    if f.client is Some {
        lemma_name(s, f.client->0, source, key);
    }
    if f.lunar is Some {
        lemma_name(a, f.lunar->0, source, key);
    }
    if f.authenticator is Some {
        lemma_name(b, f.authenticator->0, source, key);
    }
    if f.display is Some {
        lemma_name(c, f.display->0, source, key);
    }
}

/// Every line of a log counts: of the names, those that some line gives are found
/// in it.
pub proof fn law_lines_give(
    s: AltScanView,
    lines: Seq<Seq<char>>,
    source: Seq<char>,
    key: Seq<char>,
)
    requires
        is_kept(s),
    ensures
        is_kept(with_lines(s, lines, source)),
        with_lines(s, lines, source).seen.contains(key) <==> s.seen.contains(key) || lines_give(
            lines,
            key,
        ),
    decreases lines.len(),
{
    if lines.len() > 0 {
        let before = lines.drop_last();
        law_lines_give(s, before, source, key);
        lemma_line(with_lines(s, before, source), lines.last(), source, key);
        if lines_give(before, key) {
            let i = choose|i: int| 0 <= i < before.len() && line_gives(#[trigger] before[i], key);
            assert(lines[i] == before[i]);
        }
        if lines_give(lines, key) && !line_gives(lines.last(), key) {
            let i = choose|i: int| 0 <= i < lines.len() && line_gives(#[trigger] lines[i], key);
            assert(before[i] == lines[i]);
        }
        if line_gives(lines.last(), key) {
            assert(line_gives(lines[lines.len() - 1], key));
        }
    }
}

spec fn some_name(names: Seq<Seq<char>>, key: Seq<char>) -> bool {
    exists|i: int| 0 <= i < names.len() && has_name(#[trigger] names[i], key)
}

proof fn lemma_names(s: AltScanView, names: Seq<Seq<char>>, source: Seq<char>, key: Seq<char>)
    requires
        is_kept(s),
    ensures
        is_kept(with_names(s, names, source)),
        with_names(s, names, source).seen.contains(key) <==> s.seen.contains(key) || some_name(
            names,
            key,
        ),
    decreases names.len(),
{
    if names.len() > 0 {
        let before = names.drop_last();
        lemma_names(s, before, source, key);
        lemma_name(with_names(s, before, source), names.last(), source, key);
        if some_name(before, key) {
            let i = choose|i: int| 0 <= i < before.len() && has_name(#[trigger] before[i], key);
            assert(names[i] == before[i]);
        }
        if some_name(names, key) && !has_name(names.last(), key) {
            let i = choose|i: int| 0 <= i < names.len() && has_name(#[trigger] names[i], key);
            assert(before[i] == names[i]);
        }
        if has_name(names.last(), key) {
            assert(has_name(names[names.len() - 1], key));
        }
    }
}

/// The texts that stand under keys for names, at whatever depth, are those found in
/// a value.
pub proof fn law_names_in_value(value: JsonView, text: Seq<char>)
    ensures
        names_in(value).contains(text) <==> exists|path: Seq<JsonStep>| #[trigger]
            names_at(value, path, text),
{
    if names_in(value).contains(text) {
        let path = lemma_name_has_path(value, text);
        assert(names_at(value, path, text));
    }
    if exists|path: Seq<JsonStep>| #[trigger] names_at(value, path, text) {
        let path = choose|path: Seq<JsonStep>| #[trigger] names_at(value, path, text);
        lemma_path_has_name(value, path, text);
    }
}

proof fn lemma_in_concat(a: Seq<Seq<char>>, b: Seq<Seq<char>>, x: Seq<char>)
    ensures
        (a + b).contains(x) <==> a.contains(x) || b.contains(x),
        a.push(x).contains(x),
        forall|y: Seq<char>| #[trigger] a.push(y).contains(x) <==> a.contains(x) || x == y,
{
    let both = a + b;
    if a.contains(x) {
        let i = choose|i: int| 0 <= i < a.len() && a[i] == x;
        assert(both[i] == x);
    }
    if b.contains(x) {
        let i = choose|i: int| 0 <= i < b.len() && b[i] == x;
        assert(both[a.len() + i] == x);
    }
    if both.contains(x) {
        let i = choose|i: int| 0 <= i < both.len() && both[i] == x;
        if i < a.len() {
            assert(a[i] == x);
        } else {
            assert(b[i - a.len()] == x);
        }
    }
    assert forall|y: Seq<char>| #[trigger]
        a.push(y).contains(x) <==> a.contains(x) || x == y by {
        let p = a.push(y);
        assert(p[a.len() as int] == y);
        if a.contains(x) {
            let i = choose|i: int| 0 <= i < a.len() && a[i] == x;
            assert(p[i] == x);
        }
        if p.contains(x) && x != y {
            let i = choose|i: int| 0 <= i < p.len() && p[i] == x;
            assert(a[i] == x);
        }
    }
    assert(a.push(x).contains(x));
}

spec fn own_names(key: Seq<char>, child: JsonView) -> Option<Seq<char>> {
    if lower(key) == "username"@ || lower(key) == "name"@ || lower(key) == "displayname"@ {
        match child {
            JsonView::Text(text) => Some(text),
            _ => None,
        }
    } else {
        None
    }
}

proof fn lemma_member_names(
    members: Seq<(Seq<char>, JsonView)>,
    n: nat,
    i: int,
    text: Seq<char>,
)
    requires
        0 <= i < n <= members.len(),
        names_in(members[i].1).contains(text) || own_names(members[i].0, members[i].1) == Some(
            text,
        ),
    ensures
        member_names(members, n).contains(text),
    decreases n,
{
    let before = member_names(members, (n - 1) as nat);
    let (key, child) = members[n - 1];
    let own = match own_names(key, child) {
        Some(t) => before.push(t),
        None => before,
    };
    assert(member_names(members, n) == own + names_in(child));
    if i < n - 1 {
        lemma_member_names(members, (n - 1) as nat, i, text);
    }
    lemma_in_concat(own, names_in(child), text);
    lemma_in_concat(before, names_in(child), text);
}

proof fn lemma_item_names(items: Seq<JsonView>, n: nat, i: int, text: Seq<char>)
    requires
        0 <= i < n <= items.len(),
        names_in(items[i]).contains(text),
    ensures
        item_names(items, n).contains(text),
    decreases n,
{
    if i < n - 1 {
        lemma_item_names(items, (n - 1) as nat, i, text);
    }
    lemma_in_concat(item_names(items, (n - 1) as nat), names_in(items[n - 1]), text);
}

/// What a first step leads to holds the text under a key for names, or is it.
proof fn lemma_names_below(value: JsonView, path: Seq<JsonStep>, text: Seq<char>)
    requires
        path.len() > 1,
    ensures
        names_at(value, path, text) <==> step_into(value, path[0]) is Some && names_at(
            step_into(value, path[0])->0,
            path.skip(1),
            text,
        ),
{
    lemma_value_at(value, path);
    if step_into(value, path[0]) is Some {
        crate::json::lemma_key_at(value, path, path.len() - 1);
    }
}

proof fn lemma_path_has_name(value: JsonView, path: Seq<JsonStep>, text: Seq<char>)
    requires
        names_at(value, path, text),
    ensures
        names_in(value).contains(text),
    decreases path.len(),
{
    lemma_value_at(value, path);
    if path.len() > 1 {
        lemma_names_below(value, path, text);
        lemma_path_has_name(step_into(value, path[0])->0, path.skip(1), text);
    } else {
        assert(path.take(0) =~= Seq::empty());
        assert(path.skip(1) =~= Seq::empty());
    }
    match (value, path[0]) {
        (JsonView::Object(members), JsonStep::Member(i)) => {
            lemma_member_names(members, members.len(), i, text);
        },
        (JsonView::List(items), JsonStep::Item(i)) => {
            lemma_item_names(items, items.len(), i, text);
        },
        _ => {},
    }
}

proof fn lemma_name_has_path(value: JsonView, text: Seq<char>) -> (path: Seq<JsonStep>)
    requires
        names_in(value).contains(text),
    ensures
        names_at(value, path, text),
    decreases value, 0int,
{
    match value {
        JsonView::Object(members) => lemma_member_has_path(members, members.len(), text),
        JsonView::List(items) => lemma_item_has_path(items, items.len(), text),
        _ => Seq::empty(),
    }
}

proof fn lemma_longer_path(value: JsonView, step: JsonStep, path: Seq<JsonStep>, text: Seq<char>)
    requires
        step_into(value, step) is Some,
        names_at(step_into(value, step)->0, path, text),
    ensures
        names_at(value, seq![step] + path, text),
{
    let whole = seq![step] + path;
    assert(whole.skip(1) =~= path);
    lemma_names_below(value, whole, text);
}

proof fn lemma_member_has_path(
    members: Seq<(Seq<char>, JsonView)>,
    n: nat,
    text: Seq<char>,
) -> (path: Seq<JsonStep>)
    requires
        n <= members.len(),
        member_names(members, n).contains(text),
    ensures
        names_at(JsonView::Object(members), path, text),
    decreases members, n,
{
    let value = JsonView::Object(members);
    let before = member_names(members, (n - 1) as nat);
    let i = n - 1;
    let (key, child) = members[i];
    let own = match own_names(key, child) {
        Some(t) => before.push(t),
        None => before,
    };
    assert(member_names(members, n) == own + names_in(child));
    lemma_in_concat(own, names_in(child), text);
    lemma_in_concat(before, names_in(child), text);
    if before.contains(text) {
        lemma_member_has_path(members, (n - 1) as nat, text)
    } else if names_in(child).contains(text) {
        let path = lemma_name_has_path(child, text);
        lemma_longer_path(value, JsonStep::Member(i), path, text);
        seq![JsonStep::Member(i)] + path
    } else {
        let path = seq![JsonStep::Member(i)];
        assert(own_names(key, child) == Some(text));
        lemma_value_at(value, path);
        assert(path.skip(1) =~= Seq::empty());
        assert(path.take(0) =~= Seq::empty());
        path
    }
}

proof fn lemma_item_has_path(items: Seq<JsonView>, n: nat, text: Seq<char>) -> (path: Seq<JsonStep>)
    requires
        n <= items.len(),
        item_names(items, n).contains(text),
    ensures
        names_at(JsonView::List(items), path, text),
    decreases items, n,
{
    let before = item_names(items, (n - 1) as nat);
    lemma_in_concat(before, names_in(items[n - 1]), text);
    if before.contains(text) {
        lemma_item_has_path(items, (n - 1) as nat, text)
    } else {
        let path = lemma_name_has_path(items[n - 1], text);
        lemma_longer_path(JsonView::List(items), JsonStep::Item(n - 1), path, text);
        seq![JsonStep::Item(n - 1)] + path
    }
}

proof fn lemma_json(s: AltScanView, json: JsonFile, key: Seq<char>)
    requires
        is_kept(s),
    ensures
        is_kept(with_json(s, json.path@, json.text@)),
        with_json(s, json.path@, json.text@).seen.contains(key) <==> s.seen.contains(key)
            || json_gives(json, key),
{
    if let Some(value) = json_parsed(json.text@) {
        let names = names_in(value);
        lemma_names(s, names, json.path@, key);
        if some_name(names, key) {
            let i = choose|i: int| 0 <= i < names.len() && has_name(#[trigger] names[i], key);
            let text = names[i];
            assert(names.contains(text));
            law_names_in_value(value, text);
            let path = choose|path: Seq<JsonStep>| #[trigger] names_at(value, path, text);
            assert(names_at(value, path, text) && has_name(text, key));
        }
        if value_gives(value, key) {
            let (path, text) = choose|path: Seq<JsonStep>, text: Seq<char>| #[trigger]
                names_at(value, path, text) && has_name(text, key);
            law_names_in_value(value, text);
            let i = choose|i: int| 0 <= i < names.len() && names[i] == text;
            assert(has_name(names[i], key));
        }
    }
}

proof fn lemma_logs(s: AltScanView, logs: Seq<LogFile>, n: nat, key: Seq<char>)
    requires
        is_kept(s),
        n <= logs.len(),
    ensures
        is_kept(with_logs(s, logs, n)),
        with_logs(s, logs, n).seen.contains(key) <==> s.seen.contains(key) || exists|i: int|
            0 <= i < n && lines_give(lines_of_log(#[trigger] logs[i]), key),
    decreases n,
{
    if n > 0 {
        lemma_logs(s, logs, (n - 1) as nat, key);
        let log = logs[n - 1];
        let before = with_logs(s, logs, (n - 1) as nat);
        assert(with_log(before, log.path@, log.data@) == with_lines(
            before,
            lines_of_log(log),
            log.path@,
        ));
        law_lines_give(before, lines_of_log(log), log.path@, key);
    }
}

proof fn lemma_jsons(s: AltScanView, jsons: Seq<JsonFile>, n: nat, key: Seq<char>)
    requires
        is_kept(s),
        n <= jsons.len(),
    ensures
        is_kept(with_jsons(s, jsons, n)),
        with_jsons(s, jsons, n).seen.contains(key) <==> s.seen.contains(key) || exists|i: int|
            0 <= i < n && json_gives(#[trigger] jsons[i], key),
    decreases n,
{
    if n > 0 {
        lemma_jsons(s, jsons, (n - 1) as nat, key);
        lemma_json(with_jsons(s, jsons, (n - 1) as nat), jsons[n - 1], key);
    }
}

proof fn lemma_dirs(dirs: Seq<GameDirFiles>, n: nat, key: Seq<char>)
    requires
        n <= dirs.len(),
    ensures
        is_kept(with_dirs(nothing_found(), dirs, n)),
        with_dirs(nothing_found(), dirs, n).seen.contains(key) <==> exists|i: int|
            0 <= i < n && dir_gives(#[trigger] dirs[i], key),
    decreases n,
{
    if n > 0 {
        lemma_dirs(dirs, (n - 1) as nat, key);
        let before = with_dirs(nothing_found(), dirs, (n - 1) as nat);
        let d = dirs[n - 1];
        lemma_logs(before, d.logs@, d.logs@.len(), key);
        lemma_jsons(with_logs(before, d.logs@, d.logs@.len()), d.jsons@, d.jsons@.len(), key);
    }
}

/// The accounts found are those that some log or some JSON file of some directory
/// names, up to case.
pub proof fn law_accounts_found(dirs: Seq<GameDirFiles>, key: Seq<char>)
    ensures
        has_account(with_dirs(nothing_found(), dirs, dirs.len()), key) <==> exists|i: int|
            0 <= i < dirs.len() && dir_gives(#[trigger] dirs[i], key),
{
    lemma_dirs(dirs, dirs.len(), key);
}

// ---------------------------------------------------------------------------
// Names, lines and files
// ---------------------------------------------------------------------------

/// Every character of `s` is `c`.
pub open spec fn only(s: Seq<char>, c: char) -> bool {
    forall|i: int| 0 <= i < s.len() ==> #[trigger] s[i] == c
}

/// A name of 3 to 32 letters, digits and underscores is taken from between white
/// space, double quotes, single quotes and commas; nothing else is a name.
pub proof fn law_account_name(
    value: Seq<char>,
    name: Seq<char>,
    spaces: (Seq<char>, Seq<char>),
    doubles: (Seq<char>, Seq<char>),
    singles: (Seq<char>, Seq<char>),
    commas: (Seq<char>, Seq<char>),
)
    requires
        forall|i: int| 0 <= i < spaces.0.len() ==> is_space(#[trigger] spaces.0[i]),
        forall|i: int| 0 <= i < spaces.1.len() ==> is_space(#[trigger] spaces.1[i]),
        only(doubles.0, '"') && only(doubles.1, '"'),
        only(singles.0, '\'') && only(singles.1, '\''),
        only(commas.0, ',') && only(commas.1, ','),
        3 <= name.len() <= 32,
        forall|i: int|
            0 <= i < name.len() ==> is_alphanumeric(#[trigger] name[i]) || name[i] == '_',
    ensures
        account_name(
            spaces.0 + (doubles.0 + (singles.0 + (commas.0 + name + commas.1) + singles.1)
                + doubles.1) + spaces.1,
        ) == Some(name),
        account_name(value) is Some ==> 3 <= account_name(value)->0.len() <= 32 && forall|i: int|
            0 <= i < account_name(value)->0.len() ==> is_alphanumeric(
                #[trigger] account_name(value)->0[i],
            ) || account_name(value)->0[i] == '_',
{
    let a = commas.0 + name + commas.1;
    let b = singles.0 + a + singles.1;
    let c = doubles.0 + b + doubles.1;
    assert(is_alphanumeric(name[0]) || name[0] == '_');
    assert(is_alphanumeric(name[name.len() - 1]) || name[name.len() - 1] == '_');
    lemma_ends(commas.0, name, commas.1);
    lemma_ends(singles.0, a, singles.1);
    lemma_ends(doubles.0, b, doubles.1);
    if commas.0.len() > 0 {
        assert(commas.0[0] == ',');
    }
    if commas.1.len() > 0 {
        assert(commas.1[commas.1.len() - 1] == ',');
    }
    if singles.0.len() > 0 {
        assert(singles.0[0] == '\'');
    }
    if singles.1.len() > 0 {
        assert(singles.1[singles.1.len() - 1] == '\'');
    }
    if doubles.0.len() > 0 {
        assert(doubles.0[0] == '"');
    }
    if doubles.1.len() > 0 {
        assert(doubles.1[doubles.1.len() - 1] == '"');
    }
    law_trim(commas.0, name, commas.1, CharClass::Only(','));
    law_trim(singles.0, a, singles.1, CharClass::Only('\''));
    law_trim(doubles.0, b, doubles.1, CharClass::Only('"'));
    law_trim(spaces.0, c, spaces.1, CharClass::Space);
}

proof fn lemma_ends(before: Seq<char>, inner: Seq<char>, after: Seq<char>)
    requires
        inner.len() > 0,
    ensures
        ({
            let all = before + inner + after;
            &&& all.len() > 0
            &&& before.len() > 0 ==> all[0] == before[0]
            &&& before.len() == 0 ==> all[0] == inner[0]
            &&& after.len() > 0 ==> all.last() == after[after.len() - 1]
            &&& after.len() == 0 ==> all.last() == inner[inner.len() - 1]
        }),
{
}

proof fn lemma_pieces_some(data: Seq<u8>)
    ensures
        byte_pieces(data).len() >= 1,
    decreases data.len(),
{
    if data.len() > 0 {
        lemma_pieces_some(data.drop_last());
    }
}

proof fn lemma_one_piece(line: Seq<u8>)
    requires
        forall|i: int| 0 <= i < line.len() ==> #[trigger] line[i] != 10,
    ensures
        byte_pieces(line) == seq![line],
    decreases line.len(),
{
    if line.len() > 0 {
        let before = line.drop_last();
        assert forall|i: int| 0 <= i < before.len() implies #[trigger] before[i] != 10 by {
            assert(before[i] == line[i]);
        }
        lemma_one_piece(before);
        assert(line[line.len() - 1] != 10);
        assert(before.push(line.last()) =~= line);
        assert(byte_pieces(line) =~= seq![line]);
    } else {
        assert(line =~= Seq::empty());
        assert(byte_pieces(line) =~= seq![line]);
    }
}

proof fn lemma_pieces_behind(line: Seq<u8>, rest: Seq<u8>)
    requires
        forall|i: int| 0 <= i < line.len() ==> #[trigger] line[i] != 10,
    ensures
        byte_pieces(line.push(10) + rest) == seq![line] + byte_pieces(rest),
    decreases rest.len(),
{
    let whole = line.push(10) + rest;
    if rest.len() == 0 {
        lemma_one_piece(line);
        assert(whole.drop_last() =~= line);
        assert(whole.last() == 10);
        assert(byte_pieces(whole) =~= seq![line] + byte_pieces(rest));
    } else {
        let before = rest.drop_last();
        lemma_pieces_behind(line, before);
        lemma_pieces_some(before);
        assert(whole.drop_last() =~= line.push(10) + before);
        assert(whole.last() == rest.last());
        let left = seq![line] + byte_pieces(before);
        assert(left.last() == byte_pieces(before).last());
        assert(left.drop_last() =~= seq![line] + byte_pieces(before).drop_last());
        assert(byte_pieces(whole) =~= seq![line] + byte_pieces(rest));
    }
}

/// The text of a line is the bytes up to a line feed, without the carriage return
/// before it; the rest of the log follows as other lines. What stands behind the
/// last line feed is a line where it is not empty. A line that is no text is empty.
pub proof fn law_log_lines(line: Seq<u8>, rest: Seq<u8>)
    requires
        forall|i: int| 0 <= i < line.len() ==> #[trigger] line[i] != 10,
    ensures
        valid_utf8(line) && (line.len() == 0 || line.last() != 13) ==> lines_in(line.push(10) + rest)
            == seq![decode_utf8(line)] + lines_in(rest),
        valid_utf8(line) ==> lines_in(line.push(13).push(10) + rest) == seq![decode_utf8(line)]
            + lines_in(rest),
        !valid_utf8(line) && line.last() != 13 ==> lines_in(line.push(10) + rest) == seq![
            Seq::<char>::empty(),
        ] + lines_in(rest),
        line.len() > 0 && valid_utf8(line) ==> lines_in(line) == seq![decode_utf8(line)],
        line.len() == 0 ==> lines_in(line) == Seq::<Seq<char>>::empty(),
{
    lemma_lines_behind(line, rest);
    let returned = line.push(13);
    assert forall|i: int| 0 <= i < returned.len() implies #[trigger] returned[i] != 10 by {
        if i < line.len() {
            assert(returned[i] == line[i]);
        }
    }
    lemma_lines_behind(returned, rest);
    assert(returned.drop_last() =~= line);
    lemma_one_piece(line);
    assert(byte_pieces(line).last() == line);
    if line.len() == 0 {
        assert(lines_in(line) =~= Seq::<Seq<char>>::empty());
    } else if valid_utf8(line) {
        assert(lines_in(line) =~= seq![decode_utf8(line)]);
    }
}

proof fn lemma_lines_behind(line: Seq<u8>, rest: Seq<u8>)
    requires
        forall|i: int| 0 <= i < line.len() ==> #[trigger] line[i] != 10,
    ensures
        lines_in(line.push(10) + rest) == seq![ended_line(line)] + lines_in(rest),
{
    let whole = line.push(10) + rest;
    lemma_pieces_behind(line, rest);
    lemma_pieces_some(rest);
    let all = byte_pieces(whole);
    let behind = byte_pieces(rest);
    assert(all.len() == 1 + behind.len());
    assert(all[0] == line);
    assert forall|i: int| 0 <= i < behind.len() implies all[i + 1] == behind[i] by {}
    assert(all.last() == behind.last());
    assert(lines_in(whole) =~= seq![ended_line(line)] + lines_in(rest));
}

/// A log that could not be decompressed to its end gives no line, and one whose
/// check sum is wrong the lines that ended.
pub proof fn law_broken_log(line: Seq<u8>, error: Seq<char>, content: Seq<u8>)
    requires
        forall|i: int| 0 <= i < line.len() ==> #[trigger] line[i] != 10,
        valid_utf8(line),
        line.len() == 0 || line.last() != 13,
    ensures
        unpacked_lines(content, None) == lines_in(content),
        error != GZIP_MISMATCH@ ==> unpacked_lines(content, Some(error)) == seq![
            Seq::<char>::empty(),
        ],
        unpacked_lines(line.push(10), Some(GZIP_MISMATCH@)) == seq![
            decode_utf8(line),
            Seq::<char>::empty(),
        ],
{
    lemma_pieces_behind(line, Seq::empty());
    assert(line.push(10) + Seq::empty() =~= line.push(10));
    assert(unpacked_lines(line.push(10), Some(GZIP_MISMATCH@)) =~= seq![
        decode_utf8(line),
        Seq::<char>::empty(),
    ]);
}

/// JSON files of installations are passed over, wherever `versions` stands in the
/// path and in whatever case, and those of Fabric.
pub proof fn law_skipped_jsons(path: Seq<char>)
    ensures
        contains(lower(path), "\\versions\\"@) ==> is_skipped_json(path),
        contains(lower(file_name(path)), "fabric"@) && contains(lower(file_name(path)), ".json"@)
            ==> is_skipped_json(path),
        !contains(lower(path), "\\versions\\"@) && !contains(lower(file_name(path)), "fabric"@)
            ==> !is_skipped_json(path),
{
}

// ---------------------------------------------------------------------------
// Directories
// ---------------------------------------------------------------------------

/// A running game has `dir` among its directories: its own, the one above it where
/// it is called `game`, in any case, or the one of LabyMod.
pub open spec fn has_dir(g: RunningGame, dir: Seq<char>) -> bool {
    g.is_minecraft && g.is_dir && {
        ||| path_identity(g.game_dir@) == path_identity(dir)
        ||| lower(file_name(g.game_dir@)) == "game"@ && g.parent is Some && path_identity(
            g.parent->0@,
        ) == path_identity(dir)
        ||| g.laby_dir is Some && path_identity(g.laby_dir->0@) == path_identity(dir)
    }
}

proof fn lemma_with_dir(dirs: Seq<Seq<char>>, own: Seq<char>, dir: Seq<char>)
    ensures
        is_listed(with_game_dir(dirs, own), dir) <==> is_listed(dirs, dir) || path_identity(own)
            == path_identity(dir),
{
    let after = with_game_dir(dirs, own);
    if is_listed(dirs, dir) {
        let i = choose|i: int|
            0 <= i < dirs.len() && path_identity(#[trigger] dirs[i]) == path_identity(dir);
        assert(after[i] == dirs[i]);
    }
    if path_identity(own) == path_identity(dir) {
        if is_listed(dirs, own) {
            let i = choose|i: int|
                0 <= i < dirs.len() && path_identity(#[trigger] dirs[i]) == path_identity(own);
            assert(after[i] == dirs[i]);
        } else {
            assert(after[dirs.len() as int] == own);
        }
    }
    if is_listed(after, dir) && path_identity(own) != path_identity(dir) {
        let i = choose|i: int|
            0 <= i < after.len() && path_identity(#[trigger] after[i]) == path_identity(dir);
        assert(after[i] == dirs[i]);
    }
}

/// The directories looked at are those of the running games.
pub proof fn law_game_dirs(games: Seq<RunningGame>, n: nat, dir: Seq<char>)
    requires
        n <= games.len(),
    ensures
        is_listed(dirs_of_games(games, n), dir) <==> exists|i: int|
            0 <= i < n && has_dir(#[trigger] games[i], dir),
    decreases n,
{
    if n > 0 {
        law_game_dirs(games, (n - 1) as nat, dir);
        let before = dirs_of_games(games, (n - 1) as nat);
        let g = games[n - 1];
        assert(lower("game"@) =~= "game"@) by {
            reveal_strlit("game");
        }
        let own = with_game_dir(before, g.game_dir@);
        lemma_with_dir(before, g.game_dir@, dir);
        let up = if same_ignoring_case(file_name(g.game_dir@), "game"@) {
            with_optional_dir(own, opt_view(g.parent))
        } else {
            own
        };
        if g.parent is Some {
            lemma_with_dir(own, g.parent->0@, dir);
        }
        if g.laby_dir is Some {
            lemma_with_dir(up, g.laby_dir->0@, dir);
        }
    }
}

} // verus!
