//! Where accounts of the game are found, and which of them are kept.

use vstd::prelude::*;

use crate::json::{json_parsed, JsonView};
use crate::minecraft::{
    file_action, is_account_file, is_log_name, is_placeholder, is_word, minecraft_name, FileAction,
};
use crate::minecraft_accounts::{
    alt_of, debug_of, has_account_markers, items_names, json_file_names, json_names, kept,
    law_json_names_accepted, law_match_names_accepted, log_content, log_names, match_names,
    object_names, plain_content, verdict, with_candidates, FileDataView, MinecraftCandidateView,
};
use crate::order::{lemma_in_order_exists, listed};
use crate::outside::{group, gunzipped, regex_matches};
use crate::paths::{file_name, lower_extension, profile_key};
use crate::scan_session::{names_in_json_file, with_json_file, with_log_file, MinecraftScanView};
use crate::std_text::utf8_lossy;
use crate::text::{
    all_digits, contains, ends_with, is_alphanumeric, law_trim, lower, occurs_at, starts_with,
    unquoted, CharClass,
};

verus! {

// ---------------------------------------------------------------------------
// Names
// ---------------------------------------------------------------------------

/// A letter, a digit or an underscore.
pub open spec fn is_name_letter(c: char) -> bool {
    ('A' <= c && c <= 'Z') || ('a' <= c && c <= 'z') || ('0' <= c && c <= '9') || c == '_'
}

/// 3 to 16 letters, digits and underscores are a name, and so they are with white
/// space or quotes around them. Fewer or more are none, nor is anything with
/// another character inside.
pub proof fn law_minecraft_names(name: Seq<char>, i: int)
    requires
        name.len() > 0,
        is_name_letter(name[0]),
        is_name_letter(name.last()),
    ensures
        (forall|j: int| 0 <= j < name.len() ==> is_name_letter(#[trigger] name[j])) && 3
            <= name.len() <= 16 ==> {
            &&& minecraft_name(name) == Some(name)
            &&& minecraft_name(seq!['"'] + name + seq!['"']) == Some(name)
            &&& minecraft_name(seq![' '] + name + seq!['\n']) == Some(name)
        },
        name.len() < 3 || name.len() > 16 ==> minecraft_name(name) is None,
        0 <= i < name.len() && !is_name_letter(name[i]) ==> minecraft_name(name) is None,
{
    let none = Seq::<char>::empty();
    lemma_unquoted(none, name, none);
    assert(none + name + none =~= name);
    assert forall|j: int| 0 <= j < name.len() implies is_name_letter(#[trigger] name[j]) == (
    is_alphanumeric(name[j]) || name[j] == '_') by {}
    if 0 <= i < name.len() && is_word(name) {
        assert(is_alphanumeric(name[i]) || name[i] == '_');
    }
    lemma_unquoted(seq![' '], name, seq!['\n']);
    let quoted = seq!['"'] + name + seq!['"'];
    assert(none + quoted + none =~= quoted);
    law_trim(none, quoted, none, CharClass::Space);
    law_trim(seq!['"'], name, seq!['"'], CharClass::Only('"'));
    law_trim(none, name, none, CharClass::Only('\''));
}

proof fn lemma_unquoted(before: Seq<char>, name: Seq<char>, after: Seq<char>)
    requires
        name.len() > 0,
        is_name_letter(name[0]),
        is_name_letter(name.last()),
        forall|i: int| 0 <= i < before.len() ==> CharClass::Space.has(#[trigger] before[i]),
        forall|i: int| 0 <= i < after.len() ==> CharClass::Space.has(#[trigger] after[i]),
    ensures
        unquoted(before + name + after) == name,
{
    let none = Seq::<char>::empty();
    law_trim(before, name, after, CharClass::Space);
    assert(none + name + none =~= name);
    law_trim(none, name, none, CharClass::Only('"'));
    law_trim(none, name, none, CharClass::Only('\''));
}

// ---------------------------------------------------------------------------
// Logs
// ---------------------------------------------------------------------------

/// The first group of some match is the name.
pub open spec fn name_matched(matches: Seq<(int, Seq<Option<Seq<char>>>)>, name: Seq<char>) -> bool {
    exists|i: int|
        0 <= i < matches.len() && group(#[trigger] matches[i], 1) is Some && minecraft_name(
            group(matches[i], 1)->0,
        ) == Some(name)
}

proof fn lemma_match_names(matches: Seq<(int, Seq<Option<Seq<char>>>)>, name: Seq<char>)
    ensures
        match_names(matches).contains(name) <==> name_matched(matches, name),
        match_names(matches).finite(),
    decreases matches.len(),
{
    if matches.len() > 0 {
        let rest = matches.drop_last();
        lemma_match_names(rest, name);
        assert(matches[matches.len() - 1] == matches.last());
        if name_matched(rest, name) {
            let i = choose|i: int|
                0 <= i < rest.len() && group(#[trigger] rest[i], 1) is Some && minecraft_name(
                    group(rest[i], 1)->0,
                ) == Some(name);
            assert(matches[i] == rest[i]);
        }
        if name_matched(matches, name) {
            let i = choose|i: int|
                0 <= i < matches.len() && group(#[trigger] matches[i], 1) is Some
                    && minecraft_name(group(matches[i], 1)->0) == Some(name);
            if i < rest.len() {
                assert(matches[i] == rest[i]);
            }
        }
    }
}

/// The names in a log are those that any of five kinds of lines give, wherever in
/// the log they stand.
pub proof fn law_log_names(text: Seq<char>, name: Seq<char>)
    ensures
        log_names(text).contains(name) <==> {
            ||| name_matched(
                regex_matches(r"(?i)\bsetting user:\s*([A-Za-z0-9_]{3,16})"@, text),
                name,
            )
            ||| name_matched(
                regex_matches(
                    r"(?i)\bcreating minecraft session for\s*([A-Za-z0-9_]{3,16})"@,
                    text,
                ),
                name,
            )
            ||| name_matched(
                regex_matches(r"(?i)\blogged in as\s*([A-Za-z0-9_]{3,16})"@, text),
                name,
            )
            ||| name_matched(
                regex_matches(
                    r"(?i)\bgot lunar client token for\s*([A-Za-z0-9_]{3,16})"@,
                    text,
                ),
                name,
            )
            ||| name_matched(
                regex_matches(r"(?i)\b--username\s+([A-Za-z0-9_]{3,16})"@, text),
                name,
            )
        },
        log_names(text).finite(),
{
    lemma_match_names(regex_matches(crate::minecraft::SETTING_USER_PATTERN@, text), name);
    lemma_match_names(regex_matches(crate::minecraft::SESSION_PATTERN@, text), name);
    lemma_match_names(regex_matches(crate::minecraft::LOGGED_IN_PATTERN@, text), name);
    lemma_match_names(regex_matches(crate::minecraft::LUNAR_TOKEN_PATTERN@, text), name);
    lemma_match_names(regex_matches(crate::minecraft::USERNAME_ARGUMENT_PATTERN@, text), name);
}

/// A log is read as it is, or decompressed where its name ends in `.gz`; only where
/// that fails there is no content.
pub proof fn law_log_content(path: Seq<char>, bytes: Seq<u8>)
    ensures
        lower_extension(path) != "gz"@ ==> log_content(path, FileDataView::Bytes(bytes)) == Ok::<
            Seq<u8>,
            Seq<char>,
        >(bytes),
        lower_extension(path) == "gz"@ && gunzipped(bytes).1 is None ==> log_content(
            path,
            FileDataView::Bytes(bytes),
        ) == Ok::<Seq<u8>, Seq<char>>(gunzipped(bytes).0),
        lower_extension(path) == "gz"@ && gunzipped(bytes).1 is Some ==> log_content(
            path,
            FileDataView::Bytes(bytes),
        ) is Err,
        plain_content(path, FileDataView::Bytes(bytes)) == Ok::<Seq<u8>, Seq<char>>(bytes),
{
}

// ---------------------------------------------------------------------------
// JSON files
// ---------------------------------------------------------------------------

/// What a JSON file parses to is read as one about accounts where launchers keep
/// accounts in it. Another file is read where its text speaks of accounts, and
/// then by what its own objects say. A text that does not parse is searched for
/// names, under the same conditions.
pub proof fn law_json_file_names(
    text: Seq<char>,
    value: JsonView,
    matches: Seq<(int, Seq<Option<Seq<char>>>)>,
    name: Seq<char>,
)
    ensures
        json_file_names(text, true, Some(value), matches) == json_names(value, true),
        contains(lower(text), "\"account"@) || contains(lower(text), "\"profile"@) || contains(
            lower(text),
            "\"uuid"@,
        ) || contains(lower(text), "\"xuid"@) || contains(lower(text), "\"accesstoken"@)
            || contains(lower(text), "\"refreshtoken"@) || contains(lower(text), "launcher"@)
            || contains(lower(text), "selecteduser"@) ==> {
            &&& json_file_names(text, false, Some(value), matches) == json_names(value, false)
            &&& json_file_names(text, false, None, matches).contains(name) <==> name_matched(
                matches,
                name,
            )
        },
        json_file_names(text, true, None, matches).contains(name) <==> name_matched(matches, name),
        !contains(lower(text), "account"@) && !contains(lower(text), "profile"@) && !contains(
            lower(text),
            "uuid"@,
        ) && !contains(lower(text), "xuid"@) && !contains(lower(text), "token"@) && !contains(
            lower(text),
            "launcher"@,
        ) && !contains(lower(text), "selecteduser"@) ==> json_file_names(
            text,
            false,
            Some(value),
            matches,
        ) == Set::<Seq<char>>::empty(),
{
    lemma_match_names(matches, name);
    let t = lower(text);
    if has_account_markers(text) {
        lemma_marker_words(t);
    }
}

proof fn lemma_inner(t: Seq<char>, word: Seq<char>, from: int, to: int)
    requires
        0 <= from <= to <= word.len(),
        contains(t, word),
    ensures
        contains(t, word.subrange(from, to)),
{
    let i = choose|i: int| occurs_at(t, word, i);
    assert(t.subrange(i + from, i + to) =~= t.subrange(i, i + word.len()).subrange(from, to));
    assert(occurs_at(t, word.subrange(from, to), i + from));
}

proof fn lemma_marker_words(t: Seq<char>)
    ensures
        contains(t, "\"account"@) ==> contains(t, "account"@),
        contains(t, "\"accounts"@) ==> contains(t, "account"@),
        contains(t, "\"profile"@) ==> contains(t, "profile"@),
        contains(t, "\"uuid"@) ==> contains(t, "uuid"@),
        contains(t, "\"xuid"@) ==> contains(t, "xuid"@),
        contains(t, "\"accesstoken"@) ==> contains(t, "token"@),
        contains(t, "\"refreshtoken"@) ==> contains(t, "token"@),
{
    if contains(t, "\"account"@) {
        assert("\"account"@.subrange(1, 8) =~= "account"@ && "\"account"@.len() == 8) by {
            reveal_strlit("\"account");
            reveal_strlit("account");
        }
        lemma_inner(t, "\"account"@, 1, 8);
    }
    if contains(t, "\"accounts"@) {
        assert("\"accounts"@.subrange(1, 8) =~= "account"@ && "\"accounts"@.len() == 9) by {
            reveal_strlit("\"accounts");
            reveal_strlit("account");
        }
        lemma_inner(t, "\"accounts"@, 1, 8);
    }
    if contains(t, "\"profile"@) {
        assert("\"profile"@.subrange(1, 8) =~= "profile"@ && "\"profile"@.len() == 8) by {
            reveal_strlit("\"profile");
            reveal_strlit("profile");
        }
        lemma_inner(t, "\"profile"@, 1, 8);
    }
    if contains(t, "\"uuid"@) {
        assert("\"uuid"@.subrange(1, 5) =~= "uuid"@ && "\"uuid"@.len() == 5) by {
            reveal_strlit("\"uuid");
            reveal_strlit("uuid");
        }
        lemma_inner(t, "\"uuid"@, 1, 5);
    }
    if contains(t, "\"xuid"@) {
        assert("\"xuid"@.subrange(1, 5) =~= "xuid"@ && "\"xuid"@.len() == 5) by {
            reveal_strlit("\"xuid");
            reveal_strlit("xuid");
        }
        lemma_inner(t, "\"xuid"@, 1, 5);
    }
    if contains(t, "\"accesstoken"@) {
        assert("\"accesstoken"@.subrange(7, 12) =~= "token"@ && "\"accesstoken"@.len() == 12) by {
            reveal_strlit("\"accesstoken");
            reveal_strlit("token");
        }
        lemma_inner(t, "\"accesstoken"@, 7, 12);
    }
    if contains(t, "\"refreshtoken"@) {
        assert("\"refreshtoken"@.subrange(8, 13) =~= "token"@ && "\"refreshtoken"@.len()
            == 13) by {
            reveal_strlit("\"refreshtoken");
            reveal_strlit("token");
        }
        lemma_inner(t, "\"refreshtoken"@, 8, 13);
    }
}

proof fn lemma_json_names_finite(value: JsonView, context: bool)
    ensures
        json_names(value, context).finite(),
    decreases value, 0int,
{
    match value {
        JsonView::Object(members) => {
            lemma_object_names_finite(
                members,
                members.len(),
                context || crate::minecraft_accounts::has_account_context(members),
                crate::minecraft_accounts::has_identity(members),
            );
        },
        JsonView::List(items) => {
            lemma_items_names_finite(items, items.len(), context);
        },
        _ => {},
    }
}

proof fn lemma_object_names_finite(
    members: Seq<(Seq<char>, JsonView)>,
    n: nat,
    context: bool,
    identity: bool,
)
    ensures
        object_names(members, n, context, identity).finite(),
    decreases members, n,
{
    if n > 0 && n <= members.len() {
        lemma_object_names_finite(members, (n - 1) as nat, context, identity);
        lemma_json_names_finite(
            members[n - 1].1,
            context || crate::minecraft_accounts::is_account_key(lower(members[n - 1].0)),
        );
    }
}

proof fn lemma_items_names_finite(items: Seq<JsonView>, n: nat, context: bool)
    ensures
        items_names(items, n, context).finite(),
    decreases items, n,
{
    if n > 0 && n <= items.len() {
        lemma_items_names_finite(items, (n - 1) as nat, context);
        lemma_json_names_finite(items[n - 1], context);
    }
}

// ---------------------------------------------------------------------------
// Candidates
// ---------------------------------------------------------------------------

/// The name is a candidate, seen in the file `path` and under its profile; a log
/// counts for it as a log, another file as one of accounts.
pub open spec fn is_recorded(
    map: Map<Seq<char>, MinecraftCandidateView>,
    name: Seq<char>,
    path: Seq<char>,
    from_log: bool,
) -> bool {
    let key = lower(name);
    &&& map.dom().contains(key)
    &&& map[key].sources.contains(path)
    &&& profile_key(path) is Some ==> map[key].profile_keys.contains(profile_key(path)->0)
    &&& from_log ==> map[key].log_hits > 0
    &&& !from_log ==> map[key].account_hits > 0
}

/// Every name that is seen is recorded, and of those that are not nothing changes:
/// neither where they were seen nor how often.
pub proof fn law_names_recorded(
    map: Map<Seq<char>, MinecraftCandidateView>,
    names: Seq<Seq<char>>,
    path: Seq<char>,
    from_log: bool,
    key: Seq<char>,
)
    ensures
        ({
            let after = with_candidates(map, names, path, from_log);
            &&& forall|i: int|
                0 <= i < names.len() && minecraft_name(#[trigger] names[i]) is Some ==> is_recorded(
                    after,
                    minecraft_name(names[i])->0,
                    path,
                    from_log,
                )
            &&& (forall|i: int|
                0 <= i < names.len() ==> minecraft_name(#[trigger] names[i]) is None || lower(
                    minecraft_name(names[i])->0,
                ) != key) ==> (after.dom().contains(key) <==> map.dom().contains(key)) && (
            map.dom().contains(key) ==> after[key] == map[key])
            &&& map.dom().contains(key) ==> {
                &&& after.dom().contains(key)
                &&& map[key].sources.subset_of(after[key].sources)
                &&& map[key].profile_keys.subset_of(after[key].profile_keys)
                &&& map[key].log_hits <= after[key].log_hits
                &&& map[key].account_hits <= after[key].account_hits
                &&& from_log ==> map[key].account_hits == after[key].account_hits
                &&& !from_log ==> map[key].log_hits == after[key].log_hits
                &&& after[key].username == map[key].username
            }
            &&& !map.dom().contains(key) && after.dom().contains(key) ==> {
                &&& from_log ==> after[key].account_hits == 0
                &&& !from_log ==> after[key].log_hits == 0
                &&& forall|s: Seq<char>| after[key].sources.contains(s) ==> s == path
            }
        }),
    decreases names.len(),
{
    if names.len() > 0 {
        let rest = names.drop_last();
        let last = names.last();
        law_names_recorded(map, rest, path, from_log, key);
        let before = with_candidates(map, rest, path, from_log);
        let after = with_candidates(map, names, path, from_log);
        assert(names[names.len() - 1] == last);
        assert forall|i: int|
            0 <= i < names.len() && minecraft_name(
                #[trigger] names[i],
            ) is Some implies is_recorded(
            after,
            minecraft_name(names[i])->0,
            path,
            from_log,
        ) by {
            if i < rest.len() {
                assert(names[i] == rest[i]);
                assert(is_recorded(before, minecraft_name(rest[i])->0, path, from_log));
            }
        }
        if forall|i: int|
            0 <= i < names.len() ==> minecraft_name(#[trigger] names[i]) is None || lower(
                minecraft_name(names[i])->0,
            ) != key {
            assert forall|i: int| 0 <= i < rest.len() implies minecraft_name(
                #[trigger] rest[i],
            ) is None || lower(minecraft_name(rest[i])->0) != key by {
                assert(rest[i] == names[i]);
            }
            assert(minecraft_name(names[names.len() - 1]) is None || lower(
                minecraft_name(last)->0,
            ) != key);
        }
    }
}

/// Every name in a log that can be read is recorded as seen in it, and every name
/// in a JSON file likewise. A file that cannot be read gives a warning and changes
/// no candidate.
pub proof fn law_files_are_read(s: MinecraftScanView, path: Seq<char>, data: FileDataView, name: Seq<char>)
    ensures
        log_content(path, data) matches Ok(content) ==> {
            &&& log_names(utf8_lossy(content)).contains(name) ==> is_recorded(
                with_log_file(s, path, data).candidates,
                name,
                path,
                true,
            )
            &&& with_log_file(s, path, data).warnings == s.warnings
        },
        log_content(path, data) matches Err(warning) ==> {
            &&& with_log_file(s, path, data).candidates == s.candidates
            &&& with_log_file(s, path, data).warnings == s.warnings.push(warning)
        },
        plain_content(path, data) matches Ok(content) ==> {
            &&& names_in_json_file(path, content).contains(name) ==> is_recorded(
                with_json_file(s, path, data).candidates,
                name,
                path,
                false,
            )
            &&& with_json_file(s, path, data).warnings == s.warnings
        },
        plain_content(path, data) matches Err(warning) ==> {
            &&& with_json_file(s, path, data).candidates == s.candidates
            &&& with_json_file(s, path, data).warnings == s.warnings.push(warning)
        },
        s.stats.minecraft_log_files_scanned < usize::MAX ==> with_log_file(
            s,
            path,
            data,
        ).stats.minecraft_log_files_scanned == s.stats.minecraft_log_files_scanned + 1,
        s.stats.minecraft_json_files_scanned < usize::MAX ==> with_json_file(
            s,
            path,
            data,
        ).stats.minecraft_json_files_scanned == s.stats.minecraft_json_files_scanned + 1,
        s.stats.minecraft_files_scanned < usize::MAX ==> with_log_file(
            s,
            path,
            data,
        ).stats.minecraft_files_scanned == s.stats.minecraft_files_scanned + 1 && with_json_file(
            s,
            path,
            data,
        ).stats.minecraft_files_scanned == s.stats.minecraft_files_scanned + 1,
{
    if let Ok(content) = log_content(path, data) {
        let text = utf8_lossy(content);
        let names = log_names(text);
        law_log_names(text, name);
        if names.contains(name) {
            lemma_log_names_accepted(text, name);
            lemma_listed_recorded(s.candidates, names, path, true, name);
        }
    }
    if let Ok(content) = plain_content(path, data) {
        let names = names_in_json_file(path, content);
        if names.contains(name) {
            lemma_json_file_finite(path, content, name);
            lemma_listed_recorded(s.candidates, names, path, false, name);
        }
    }
}

proof fn lemma_log_names_accepted(text: Seq<char>, name: Seq<char>)
    requires
        log_names(text).contains(name),
    ensures
        minecraft_name(name) == Some(name),
{
    law_match_names_accepted(regex_matches(crate::minecraft::SETTING_USER_PATTERN@, text));
    law_match_names_accepted(regex_matches(crate::minecraft::SESSION_PATTERN@, text));
    law_match_names_accepted(regex_matches(crate::minecraft::LOGGED_IN_PATTERN@, text));
    law_match_names_accepted(regex_matches(crate::minecraft::LUNAR_TOKEN_PATTERN@, text));
    law_match_names_accepted(regex_matches(crate::minecraft::USERNAME_ARGUMENT_PATTERN@, text));
}

proof fn lemma_json_file_finite(path: Seq<char>, content: Seq<u8>, name: Seq<char>)
    requires
        names_in_json_file(path, content).contains(name),
    ensures
        names_in_json_file(path, content).finite(),
        minecraft_name(name) == Some(name),
{
    let text = utf8_lossy(content);
    let matches = regex_matches(crate::minecraft::JSON_USERNAME_PATTERN@, text);
    lemma_match_names(matches, name);
    law_match_names_accepted(matches);
    if let Some(value) = json_parsed(text) {
        let trusted = is_account_file(lower(file_name(path)));
        lemma_json_names_finite(value, trusted);
        law_json_names_accepted(value, trusted);
    }
}

proof fn lemma_listed_recorded(
    map: Map<Seq<char>, MinecraftCandidateView>,
    names: Set<Seq<char>>,
    path: Seq<char>,
    from_log: bool,
    name: Seq<char>,
)
    requires
        names.finite(),
        names.contains(name),
        minecraft_name(name) == Some(name),
    ensures
        is_recorded(with_candidates(map, listed(names), path, from_log), name, path, from_log),
{
    lemma_in_order_exists::<String>(names);
    let list = listed(names);
    assert(list.to_set().contains(name));
    let i = choose|i: int| 0 <= i < list.len() && list[i] == name;
    law_names_recorded(map, list, path, from_log, lower(name));
    assert(minecraft_name(list[i]) is Some);
}

// ---------------------------------------------------------------------------
// Verdicts
// ---------------------------------------------------------------------------

/// A word of launcher files is never kept. Any other name is kept once it was seen
/// in an account file, and without that once it was seen in a log; a placeholder,
/// `player` with up to five digits behind it, only once it was seen in three.
pub proof fn law_verdicts(c: MinecraftCandidateView, digits: Seq<char>)
    ensures
        ({
            let name = lower(c.username);
            let structural = name == "forge"@ || name == "fabric"@ || name == "vanilla"@ || name
                == "optifine"@ || name == "account"@ || name == "accounts"@ || name == "profile"@
                || name == "instance"@;
            let placeholder = is_placeholder(name);
            &&& structural ==> !verdict(c).0
            &&& !structural && c.account_hits > 0 ==> verdict(c).0
            &&& !structural && c.account_hits == 0 && !placeholder ==> (verdict(c).0 <==> c.log_hits
                > 0)
            &&& !structural && c.account_hits == 0 && placeholder ==> (verdict(c).0 <==> c.log_hits
                >= 3)
        }),
        is_placeholder("player"@ + digits) <==> 1 <= digits.len() <= 5 && all_digits(digits),
        !starts_with(lower(c.username), "player"@) ==> !is_placeholder(lower(c.username)),
{
    let whole = "player"@ + digits;
    assert(whole.subrange(0, "player"@.len() as int) =~= "player"@);
    assert(whole.skip("player"@.len() as int) =~= digits);
}

/// A candidate is listed under the name it was first seen with and with every file
/// it was seen in; the explanation of it counts these files and those of accounts,
/// and says whether it is kept.
pub proof fn law_candidate_listed(c: MinecraftCandidateView, source: Seq<char>)
    requires
        c.sources.finite(),
    ensures
        alt_of(c).username == c.username,
        debug_of(c).username == c.username,
        alt_of(c).sources.contains(source) <==> c.sources.contains(source),
        debug_of(c).sources.contains(source) <==> c.sources.contains(source),
        debug_of(c).source_count == c.sources.len(),
        debug_of(c).account_source_count == c.account_hits,
        debug_of(c).kept == verdict(c).0,
        debug_of(c).reason == verdict(c).1,
{
    lemma_in_order_exists::<String>(c.sources);
    let list = listed(c.sources);
    assert(list.to_set().contains(source) <==> list.contains(source));
    assert(list.no_duplicates()) by {
        assert forall|i: int, j: int| 0 <= i < list.len() && 0 <= j < list.len() && i
            != j implies list[i] != list[j] by {
            if i < j {
                crate::order::lemma_increasing_texts(list, i, j);
                crate::order::lemma_text_total(list[i], list[j]);
            } else {
                crate::order::lemma_increasing_texts(list, j, i);
                crate::order::lemma_text_total(list[j], list[i]);
            }
        }
    }
    list.unique_seq_to_set();
}

// ---------------------------------------------------------------------------
// Files
// ---------------------------------------------------------------------------

/// A file in which a launcher keeps accounts is read as one of accounts, up to four
/// megabytes, and one that names other players never is. A JSON file elsewhere is
/// read where it lies below a directory of the game and its name hints at
/// accounts.
#[verifier::spinoff_prover]
pub proof fn law_json_files_to_read(path: Seq<char>, size: nat, dated: bool)
    ensures
        ({
            let name = lower(file_name(path));
            let action = file_action(path, size, dated);
            let is_json = lower_extension(path) == "json"@;
            let blocked = name == "usercache.json"@ || name == "servers.json"@ || name
                == "realms_persistence.json"@;
            let hint = contains(name, "account"@) || contains(name, "profile"@) || contains(
                name,
                "launcher"@,
            ) || contains(name, "auth"@) || contains(name, "minecraft"@);
            &&& is_json && 0 < size <= 4_194_304 && (name == "accounts.json"@ || name
                == "launcher_accounts.json"@ || name == "launcher_accounts_microsoft_store.json"@
                || name == "launcher_msa_credentials.json"@ || name == "launcher_profiles.json"@
                || name == "tlauncher_profiles.json"@ || name == "tlauncherprofiles.json"@ || name
                == "labymod_accounts.json"@) ==> action == FileAction::ReadJson
            &&& name == "authenticationdatabase"@ && lower_extension(path).len() == 0 && 0 < size
                <= 4_194_304 ==> action == FileAction::ReadJson
            &&& blocked ==> action != FileAction::ReadJson
            &&& is_json && 0 < size <= 4_194_304 && !blocked && hint
                && crate::minecraft::is_game_path(path) ==> action == FileAction::ReadJson
            &&& !hint && !is_account_file(name) ==> action != FileAction::ReadJson
            &&& size == 0 || size > 4_194_304 ==> action != FileAction::ReadJson
        }),
{
    assert("json"@.len() == 4) by {
        reveal_strlit("json");
    }
    assert("log"@.len() == 3) by {
        reveal_strlit("log");
    }
    assert("gz"@.len() == 2) by {
        reveal_strlit("gz");
    }
    let name = lower(file_name(path));
    let ext = lower_extension(path);
    assert(ext == "json"@ || ext.len() == 0 ==> !crate::minecraft::is_read_as_log(
        path,
        size,
        dated,
    ));
    if is_account_file(name) {
        lemma_account_files_allowed(name);
    }
    if contains(name, "account"@) || contains(name, "profile"@) || contains(name, "launcher"@)
        || contains(name, "auth"@) || contains(name, "minecraft"@) {
        lemma_not_empty(name);
    }
}

/// What contains a word is not empty.
proof fn lemma_not_empty(name: Seq<char>)
    ensures
        contains(name, "account"@) || contains(name, "profile"@) || contains(name, "launcher"@)
            || contains(name, "auth"@) || contains(name, "minecraft"@) ==> name.len() > 0,
{
    reveal_strlit("account");
    reveal_strlit("profile");
    reveal_strlit("launcher");
    reveal_strlit("auth");
    reveal_strlit("minecraft");
}

proof fn lemma_account_files_allowed(name: Seq<char>)
    requires
        is_account_file(name),
    ensures
        !crate::minecraft::is_blocked_json(name),
        name.len() > 0,
{
    assert("accounts.json"@.len() == 13) by {
        reveal_strlit("accounts.json");
    }
    assert("launcher_accounts.json"@.len() == 22) by {
        reveal_strlit("launcher_accounts.json");
    }
    assert("launcher_accounts_microsoft_store.json"@.len() == 38) by {
        reveal_strlit("launcher_accounts_microsoft_store.json");
    }
    assert("launcher_msa_credentials.json"@.len() == 29) by {
        reveal_strlit("launcher_msa_credentials.json");
    }
    assert("launcher_profiles.json"@.len() == 22) by {
        reveal_strlit("launcher_profiles.json");
    }
    assert("tlauncher_profiles.json"@.len() == 23) by {
        reveal_strlit("tlauncher_profiles.json");
    }
    assert("tlauncherprofiles.json"@.len() == 22) by {
        reveal_strlit("tlauncherprofiles.json");
    }
    assert("labymod_accounts.json"@.len() == 21) by {
        reveal_strlit("labymod_accounts.json");
    }
    assert("authenticationdatabase"@.len() == 22) by {
        reveal_strlit("authenticationdatabase");
    }
    assert("usercache.json"@.len() == 14) by {
        reveal_strlit("usercache.json");
    }
    assert("servers.json"@.len() == 12) by {
        reveal_strlit("servers.json");
    }
    assert("realms_persistence.json"@.len() == 23) by {
        reveal_strlit("realms_persistence.json");
    }
    assert("tlauncher_profiles.json"@[0] == 't') by {
        reveal_strlit("tlauncher_profiles.json");
    }
    assert("realms_persistence.json"@[0] == 'r') by {
        reveal_strlit("realms_persistence.json");
    }
}

/// A log of the game is read, up to eight megabytes: the current ones, those with a
/// number or a date, and any other below a directory `logs`. An empty file is left
/// alone, and so is one that is too large.
pub proof fn law_logs_to_read(path: Seq<char>, size: nat, dated: bool, digits: Seq<char>)
    requires
        file_name(path).len() > 0,
    ensures
        ({
            let name = lower(file_name(path));
            let action = file_action(path, size, dated);
            let is_log = lower_extension(path) == "log"@;
            &&& is_log && 0 < size <= 8_388_608 && (name == "latest.log"@ || name == "debug.log"@
                || dated) ==> action == FileAction::ReadLog
            &&& is_log && 0 < size <= 8_388_608 && crate::paths::has_segment(path, "logs"@)
                && ends_with(name, ".log"@) ==> action == FileAction::ReadLog
            &&& lower_extension(path) == "gz"@ && ends_with(name, ".log.gz"@) && dated && 0 < size
                <= 8_388_608 ==> action == FileAction::ReadLog
            &&& size == 0 || size > 8_388_608 ==> action == FileAction::Ignore
            &&& !is_log && lower_extension(path) != "gz"@ ==> action != FileAction::ReadLog
        }),
        digits.len() > 0 && all_digits(digits) ==> is_log_name("latest.log."@ + digits, false)
            && is_log_name("debug.log."@ + digits, false),
{
    reveal_strlit("log");
    reveal_strlit("gz");
    reveal_strlit(".log.gz");
    reveal_strlit("authenticationdatabase");
    let a = "latest.log."@ + digits;
    let b = "debug.log."@ + digits;
    assert(a.subrange(0, "latest.log."@.len() as int) =~= "latest.log."@);
    assert(a.skip("latest.log."@.len() as int) =~= digits);
    assert(b.subrange(0, "debug.log."@.len() as int) =~= "debug.log."@);
    assert(b.skip("debug.log."@.len() as int) =~= digits);
}

/// A numbered log has digits behind the name of a log, at least one and nothing else.
pub proof fn law_numbered_logs(base: Seq<char>, suffix: Seq<char>, name: Seq<char>)
    ensures
        crate::minecraft::is_numbered(base + suffix, base) <==> suffix.len() > 0 && all_digits(
            suffix,
        ),
        !starts_with(name, base) ==> !crate::minecraft::is_numbered(name, base),
        is_log_name(name, false) <==> name == "latest.log"@ || name == "debug.log"@
            || crate::minecraft::is_numbered(name, "latest.log."@) || crate::minecraft::is_numbered(
            name,
            "debug.log."@,
        ),
        is_log_name(name, true),
        crate::minecraft::is_dated(name) <==> crate::outside::regex_found(
            r"(?i)^\d{4}-\d{2}-\d{2}-\d+\.log(?:\.gz)?$"@,
            name,
        ),
{
    assert((base + suffix).subrange(0, base.len() as int) =~= base);
    assert((base + suffix).skip(base.len() as int) =~= suffix);
}

} // verus!
