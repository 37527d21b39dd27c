//! Minecraft accounts: how names are read from logs and JSON files, and which of
//! them are believed.

use vstd::prelude::*;

use crate::json::{
    json_parsed, key_at, lemma_key_at, lemma_list_model, lemma_object_model, lemma_value_at,
    list_model, object_model, parse_json, step_into, value_at, Json, JsonStep, JsonView, Member,
};
use crate::minecraft::{
    is_account_file, is_placeholder, is_placeholder_minecraft_username, is_structural_minecraft_word,
    is_structural_word, is_trusted_minecraft_account_file, law_minecraft_name_stable, minecraft_name,
    normalize_minecraft_username, JSON_USERNAME_PATTERN, LOGGED_IN_PATTERN, LUNAR_TOKEN_PATTERN,
    SESSION_PATTERN, SETTING_USER_PATTERN, USERNAME_ARGUMENT_PATTERN,
};
use crate::order::{
    in_order, lemma_in_order_exists, lemma_increasing_texts, listed, lists, text_before, OrderedMap,
    TextSet,
};
use crate::outside::{find_matches, group, gunzip, gunzipped, regex_matches, RegexMatch};
use crate::paths::{extension_of_path, file_name, lower_extension, profile_key, profile_key_from_path};
use crate::profiles::{add_account, by_profile, ProfileAccounts};
use crate::std_text::{utf8_lossy, utf8_text_lossy};
use crate::text::{
    chars_of, contains, has_text, is_text, lemma_contains_inside, lower, lower_chars, number_text,
    push_number, same_text, to_lower, with_number,
};
use crate::views::{push_view, views};

verus! {

// ---------------------------------------------------------------------------
// Names in matches
// ---------------------------------------------------------------------------

/// The accepted names among what the first group of each match took.
pub open spec fn match_names(matches: Seq<(int, Seq<Option<Seq<char>>>)>) -> Set<Seq<char>>
    decreases matches.len(),
{
    if matches.len() == 0 {
        Set::empty()
    } else {
        let before = match_names(matches.drop_last());
        match group(matches.last(), 1) {
            Some(value) => match minecraft_name(value) {
                Some(name) => before.insert(name),
                None => before,
            },
            None => before,
        }
    }
}

/// Adds the accepted names among what the first group of each match took.
pub fn collect_match_names(matches: &Vec<RegexMatch>, out: &mut TextSet)
    ensures
        final(out)@ == old(out)@.union(match_names(views(matches@))),
{
    let ghost all = views(matches@);
    let ghost start = out@;
    assert(start.union(match_names(all.take(0))) =~= start);
    for i in 0..matches.len()
        invariant
            all == views(matches@),
            out@ == start.union(match_names(all.take(i as int))),
    {
        let m = &matches[i];
        assert(all.take(i + 1).drop_last() =~= all.take(i as int));
        assert(all.take(i + 1).last() == m@);
        let ghost before = match_names(all.take(i as int));
        if let Some(value) = m.group_text(1) {
            if let Some(name) = normalize_minecraft_username(value.as_str()) {
                assert(start.union(before).insert(name@) =~= start.union(before.insert(name@)));
                out.insert(name);
            }
        }
    }
    assert(all.take(all.len() as int) =~= all);
}

/// The names in the text of a log.
pub open spec fn log_names(text: Seq<char>) -> Set<Seq<char>> {
    match_names(regex_matches(SETTING_USER_PATTERN@, text)).union(
        match_names(regex_matches(SESSION_PATTERN@, text)),
    ).union(match_names(regex_matches(LOGGED_IN_PATTERN@, text))).union(
        match_names(regex_matches(LUNAR_TOKEN_PATTERN@, text)),
    ).union(match_names(regex_matches(USERNAME_ARGUMENT_PATTERN@, text)))
}

/// The names in the text of a log.
pub fn names_in_log(text: &str) -> (r: TextSet)
    ensures
        r@ == log_names(text@),
{
    let mut names = TextSet::new();
    collect_match_names(&find_matches(SETTING_USER_PATTERN, text), &mut names);
    assert(names@ =~= match_names(regex_matches(SETTING_USER_PATTERN@, text@)));
    collect_match_names(&find_matches(SESSION_PATTERN, text), &mut names);
    collect_match_names(&find_matches(LOGGED_IN_PATTERN, text), &mut names);
    collect_match_names(&find_matches(LUNAR_TOKEN_PATTERN, text), &mut names);
    collect_match_names(&find_matches(USERNAME_ARGUMENT_PATTERN, text), &mut names);
    names
}

// ---------------------------------------------------------------------------
// Log files
// ---------------------------------------------------------------------------

/// What reading a file gave.
#[derive(Debug, Clone)]
pub enum FileData {
    /// The file could not be opened, for the reason given.
    OpenFailed(String),
    /// The file could not be read, for the reason given.
    ReadFailed(String),
    Bytes(Vec<u8>),
}

pub enum FileDataView {
    OpenFailed(Seq<char>),
    ReadFailed(Seq<char>),
    Bytes(Seq<u8>),
}

impl View for FileData {
    type V = FileDataView;

    open spec fn view(&self) -> FileDataView {
        match self {
            FileData::OpenFailed(e) => FileDataView::OpenFailed(e@),
            FileData::ReadFailed(e) => FileDataView::ReadFailed(e@),
            FileData::Bytes(b) => FileDataView::Bytes(b@),
        }
    }
}

/// `what`, the path, a colon and the error.
pub open spec fn failure(what: Seq<char>, path: Seq<char>, error: Seq<char>) -> Seq<char> {
    what + path + ": "@ + error
}

pub fn failure_text(what: &str, path: &str, error: &str) -> (r: String)
    ensures
        r@ == failure(what@, path@, error@),
{
    let mut out = what.to_string();
    out.push_str(path);
    out.push_str(": ");
    out.push_str(error);
    out
}

/// The content of a compressed file, or why there is none.
pub open spec fn gzip_content(path: Seq<char>, data: FileDataView) -> Result<Seq<u8>, Seq<char>> {
    match data {
        FileDataView::OpenFailed(e) => Err(failure("Failed to open gzip "@, path, e)),
        FileDataView::ReadFailed(e) => Err(failure("Failed to read gzip "@, path, e)),
        FileDataView::Bytes(bytes) => match gunzipped(bytes).1 {
            None => Ok(gunzipped(bytes).0),
            Some(e) => Err(failure("Failed to read gzip "@, path, e)),
        },
    }
}

/// Decompresses what was read from the file `path`.
pub fn read_gzip_file(path: &str, data: FileData) -> (r: Result<Vec<u8>, String>)
    ensures
        match r {
            Ok(content) => gzip_content(path@, data@) == Ok::<Seq<u8>, Seq<char>>(content@),
            Err(e) => gzip_content(path@, data@) == Err::<Seq<u8>, Seq<char>>(e@),
        },
{
    match data {
        FileData::OpenFailed(e) => Err(failure_text("Failed to open gzip ", path, e.as_str())),
        FileData::ReadFailed(e) => Err(failure_text("Failed to read gzip ", path, e.as_str())),
        FileData::Bytes(bytes) => match gunzip(bytes.as_slice()) {
            (content, None) => Ok(content),
            (_, Some(e)) => Err(failure_text("Failed to read gzip ", path, e.as_str())),
        },
    }
}

/// The content of a file that is not compressed, or the warning that it gives.
pub open spec fn plain_content(path: Seq<char>, data: FileDataView) -> Result<Seq<u8>, Seq<char>> {
    match data {
        FileDataView::OpenFailed(e) => Err(failure("Failed to read "@, path, e)),
        FileDataView::ReadFailed(e) => Err(failure("Failed to read "@, path, e)),
        FileDataView::Bytes(bytes) => Ok(bytes),
    }
}

fn plain_bytes(path: &str, data: FileData) -> (r: Result<Vec<u8>, String>)
    ensures
        match r {
            Ok(content) => plain_content(path@, data@) == Ok::<Seq<u8>, Seq<char>>(content@),
            Err(e) => plain_content(path@, data@) == Err::<Seq<u8>, Seq<char>>(e@),
        },
{
    match data {
        FileData::OpenFailed(e) => Err(failure_text("Failed to read ", path, e.as_str())),
        FileData::ReadFailed(e) => Err(failure_text("Failed to read ", path, e.as_str())),
        FileData::Bytes(bytes) => Ok(bytes),
    }
}

/// The content of a log, or the warning that it gives.
pub open spec fn log_content(path: Seq<char>, data: FileDataView) -> Result<Seq<u8>, Seq<char>> {
    if lower_extension(path) == "gz"@ {
        match gzip_content(path, data) {
            Ok(content) => Ok(content),
            Err(e) => Err(failure("Failed to decompress "@, path, e)),
        }
    } else {
        plain_content(path, data)
    }
}

/// The names in the log `path`. A log that could not be read gives a warning
/// and no names.
pub fn extract_minecraft_accounts_from_log_file(
    path: &str,
    data: FileData,
    warnings: &mut Vec<String>,
) -> (r: TextSet)
    ensures
        match log_content(path@, data@) {
            Ok(content) => r@ == log_names(utf8_lossy(content)) && views(final(warnings)@) == views(
                old(warnings)@,
            ),
            Err(warning) => r@ == Set::<Seq<char>>::empty() && views(final(warnings)@) == views(
                old(warnings)@,
            ).push(warning),
        },
{
    let extension = extension_of_path(path);
    let content = if same_text(extension.as_str(), "gz") {
        match read_gzip_file(path, data) {
            Ok(content) => Ok(content),
            Err(e) => Err(failure_text("Failed to decompress ", path, e.as_str())),
        }
    } else {
        plain_bytes(path, data)
    };
    match content {
        Ok(bytes) => {
            let text = utf8_text_lossy(bytes.as_slice());
            names_in_log(text.as_str())
        },
        Err(warning) => {
            push_view(warnings, warning);
            TextSet::new()
        },
    }
}

// ---------------------------------------------------------------------------
// JSON files
// ---------------------------------------------------------------------------

/// A text with a word that account files hold.
pub open spec fn has_account_markers(text: Seq<char>) -> bool {
    let t = lower(text);
    ||| contains(t, "\"account"@)
    ||| contains(t, "\"accounts"@)
    ||| contains(t, "\"profile"@)
    ||| contains(t, "\"uuid"@)
    ||| contains(t, "\"xuid"@)
    ||| contains(t, "\"accesstoken"@)
    ||| contains(t, "\"refreshtoken"@)
    ||| contains(t, "launcher"@)
    ||| contains(t, "selecteduser"@)
}

pub fn minecraft_json_likely_has_account_markers(text: &str) -> (r: bool)
    ensures
        r == has_account_markers(text@),
{
    let chars = chars_of(text);
    let t = lower_chars(chars.as_slice());
    let t = t.as_slice();
    has_text(t, "\"account") || has_text(t, "\"accounts") || has_text(t, "\"profile") || has_text(
        t,
        "\"uuid",
    ) || has_text(t, "\"xuid") || has_text(t, "\"accesstoken") || has_text(t, "\"refreshtoken")
        || has_text(t, "launcher") || has_text(t, "selecteduser")
}

/// A key, in lower case, under which a name stands where accounts are kept.
pub open spec fn is_strong_name_key(key: Seq<char>) -> bool {
    ||| key == "username"@
    ||| key == "displayname"@
    ||| key == "display_name"@
    ||| key == "playername"@
    ||| key == "profile_name"@
    ||| key == "profilename"@
    ||| key == "lastusedname"@
    ||| key == "selecteduser"@
    ||| key == "ingamename"@
    ||| key == "ign"@
}

fn is_strong_name(k: &[char]) -> (r: bool)
    ensures
        r == is_strong_name_key(k@),
{
    is_text(k, "username") || is_text(k, "displayname") || is_text(k, "display_name") || is_text(
        k,
        "playername",
    ) || is_text(k, "profile_name") || is_text(k, "profilename") || is_text(k, "lastusedname")
        || is_text(k, "selecteduser") || is_text(k, "ingamename") || is_text(k, "ign")
}

/// A key, in lower case, of an object about an account.
pub open spec fn is_context_key(key: Seq<char>) -> bool {
    ||| key == "account"@
    ||| key == "accounts"@
    ||| key == "authenticationdatabase"@
    ||| key == "accesstoken"@
    ||| key == "refreshtoken"@
    ||| key == "clienttoken"@
    ||| key == "uuid"@
    ||| key == "xuid"@
    ||| key == "profileid"@
    ||| key == "selecteduser"@
    ||| key == "minecraftprofile"@
    ||| key == "msa"@
}

fn is_context(k: &[char]) -> (r: bool)
    ensures
        r == is_context_key(k@),
{
    is_text(k, "account") || is_text(k, "accounts") || is_text(k, "authenticationdatabase")
        || is_text(k, "accesstoken") || is_text(k, "refreshtoken") || is_text(k, "clienttoken")
        || is_text(k, "uuid") || is_text(k, "xuid") || is_text(k, "profileid") || is_text(
        k,
        "selecteduser",
    ) || is_text(k, "minecraftprofile") || is_text(k, "msa")
}

/// A key, in lower case, that identifies an account.
pub open spec fn is_identity_key(key: Seq<char>) -> bool {
    ||| key == "id"@
    ||| key == "uuid"@
    ||| key == "xuid"@
    ||| key == "profileid"@
    ||| key == "selecteduser"@
    ||| key == "accesstoken"@
    ||| key == "refreshtoken"@
}

fn is_identity(k: &[char]) -> (r: bool)
    ensures
        r == is_identity_key(k@),
{
    is_text(k, "id") || is_text(k, "uuid") || is_text(k, "xuid") || is_text(k, "profileid")
        || is_text(k, "selecteduser") || is_text(k, "accesstoken") || is_text(k, "refreshtoken")
}

/// A key, in lower case, below which everything is about accounts.
pub open spec fn is_account_key(key: Seq<char>) -> bool {
    is_context_key(key) || contains(key, "account"@) || contains(key, "profile"@) || contains(
        key,
        "token"@,
    )
}

pub fn key_looks_account_related(key_lower: &str) -> (r: bool)
    ensures
        r == is_account_key(key_lower@),
{
    let k = chars_of(key_lower);
    let k = k.as_slice();
    is_context(k) || has_text(k, "account") || has_text(k, "profile") || has_text(k, "token")
}

/// The members are those of an object about an account.
pub open spec fn has_account_context(members: Seq<(Seq<char>, JsonView)>) -> bool {
    exists|i: int|
        0 <= i < members.len() && gives_context(lower((#[trigger] members[i]).0))
}

pub open spec fn gives_context(key: Seq<char>) -> bool {
    is_context_key(key) || contains(key, "token"@) || contains(key, "account"@)
}

/// The members identify an account.
pub open spec fn has_identity(members: Seq<(Seq<char>, JsonView)>) -> bool {
    exists|i: int|
        0 <= i < members.len() && is_identity_key(lower((#[trigger] members[i]).0))
}

/// The name that a member gives, in an object about an account (`context`)
/// that identifies one (`identity`).
pub open spec fn member_name(key: Seq<char>, value: JsonView, context: bool, identity: bool) -> Option<
    Seq<char>,
> {
    match value {
        JsonView::Text(text) => if is_strong_name_key(lower(key)) {
            if context {
                minecraft_name(text)
            } else {
                None
            }
        } else if lower(key) == "name"@ && context && identity {
            minecraft_name(text)
        } else {
            None
        },
        _ => None,
    }
}

/// The names in a JSON value; `context` says whether it stands below something
/// about an account.
pub open spec fn json_names(value: JsonView, context: bool) -> Set<Seq<char>>
    decreases value, 0int,
{
    match value {
        JsonView::Object(members) => object_names(
            members,
            members.len(),
            context || has_account_context(members),
            has_identity(members),
        ),
        JsonView::List(items) => items_names(items, items.len(), context),
        _ => Set::empty(),
    }
}

/// The names in the first `n` members of an object.
pub open spec fn object_names(
    members: Seq<(Seq<char>, JsonView)>,
    n: nat,
    context: bool,
    identity: bool,
) -> Set<Seq<char>>
    decreases members, n,
{
    if n == 0 || n > members.len() {
        Set::empty()
    } else {
        let (key, child) = members[n - 1];
        let before = object_names(members, (n - 1) as nat, context, identity);
        let own = match member_name(key, child, context, identity) {
            Some(name) => before.insert(name),
            None => before,
        };
        own.union(json_names(child, context || is_account_key(lower(key))))
    }
}

/// The names in the first `n` items of a list.
pub open spec fn items_names(items: Seq<JsonView>, n: nat, context: bool) -> Set<Seq<char>>
    decreases items, n,
{
    if n == 0 || n > items.len() {
        Set::empty()
    } else {
        items_names(items, (n - 1) as nat, context).union(json_names(items[n - 1], context))
    }
}

/// Whether the keys of an object make it one about an account, and whether they
/// identify one.
fn object_marks(members: &Vec<Member>) -> (r: (bool, bool))
    ensures
        r.0 == has_account_context(object_model(*members, members@.len())),
        r.1 == has_identity(object_model(*members, members@.len())),
{
    let ghost all = object_model(*members, members@.len());
    proof {
        lemma_object_model(*members, members@.len());
    }
    let mut context = false;
    let mut identity = false;
    for i in 0..members.len()
        invariant
            all == object_model(*members, members@.len()),
            all.len() == members@.len(),
            context == exists|j: int| 0 <= j < i && gives_context(lower((#[trigger] all[j]).0)),
            identity == exists|j: int| 0 <= j < i && is_identity_key(lower((#[trigger] all[j]).0)),
    {
        proof {
            lemma_object_model(*members, members@.len());
        }
        let chars = chars_of(members[i].key.as_str());
        let key = lower_chars(chars.as_slice());
        let key = key.as_slice();
        assert(lower(all[i as int].0) == key@);
        if is_context(key) || has_text(key, "token") || has_text(key, "account") {
            context = true;
        }
        if is_identity(key) {
            identity = true;
        }
    }
    (context, identity)
}

/// Adds the names in `value` to `output`.
pub fn collect_minecraft_names_from_json(
    value: &Json,
    output: &mut TextSet,
    inherited_account_context: bool,
)
    ensures
        final(output)@ == old(output)@.union(json_names(value.model(), inherited_account_context)),
    decreases value,
{
    let ghost start = output@;
    match value {
        Json::Object(members) => {
            let ghost all = object_model(*members, members@.len());
            let (marked, identity) = object_marks(members);
            let context = inherited_account_context || marked;
            proof {
                lemma_object_model(*members, members@.len());
                assert(start.union(object_names(all, 0, context, identity)) =~= start);
            }
            for i in 0..members.len()
                invariant
                    all == object_model(*members, members@.len()),
                    all.len() == members@.len(),
                    *value == Json::Object(*members),
                    output@ == start.union(object_names(all, i as nat, context, identity)),
            {
                proof {
                    lemma_object_model(*members, members@.len());
                }
                let ghost before = object_names(all, i as nat, context, identity);
                let key_lower = to_lower(members[i].key.as_str());
                let key = chars_of(key_lower.as_str());
                assert(all[i as int] == (members@[i as int].key@, members@[i as int].value.model()));
                let keep = (is_strong_name(key.as_slice()) && context) || (!is_strong_name(
                    key.as_slice(),
                ) && is_text(key.as_slice(), "name") && context && identity);
                let ghost own = before;
                match &members[i].value {
                    Json::Text(text) => {
                        if keep {
                            if let Some(name) = normalize_minecraft_username(text.as_str()) {
                                proof {
                                    own = before.insert(name@);
                                    assert(start.union(before).insert(name@) =~= start.union(own));
                                }
                                output.insert(name);
                            }
                        }
                    },
                    _ => {},
                }
                let child_context = context || key_looks_account_related(key_lower.as_str());
                let ghost inner = json_names(members@[i as int].value.model(), child_context);
                assert(decreases_to!(*value => value->Object_0));
                assert(decreases_to!(*members => members@[i as int]));
                collect_minecraft_names_from_json(&members[i].value, output, child_context);
                proof {
                    assert(start.union(own).union(inner) =~= start.union(own.union(inner)));
                    assert(object_names(all, (i + 1) as nat, context, identity) == own.union(inner));
                }
            }
        },
        Json::List(items) => {
            let ghost all = list_model(*items, items@.len());
            proof {
                lemma_list_model(*items, items@.len());
                assert(start.union(items_names(all, 0, inherited_account_context)) =~= start);
            }
            for i in 0..items.len()
                invariant
                    all == list_model(*items, items@.len()),
                    all.len() == items@.len(),
                    *value == Json::List(*items),
                    output@ == start.union(items_names(all, i as nat, inherited_account_context)),
            {
                proof {
                    lemma_list_model(*items, items@.len());
                }
                let ghost before = items_names(all, i as nat, inherited_account_context);
                let ghost inner = json_names(items@[i as int].model(), inherited_account_context);
                assert(decreases_to!(*value => value->List_0));
                assert(decreases_to!(*items => items@[i as int]));
                collect_minecraft_names_from_json(&items[i], output, inherited_account_context);
                assert(start.union(before).union(inner) =~= start.union(before.union(inner)));
            }
        },
        _ => {
            assert(start.union(Set::empty()) =~= start);
        },
    }
}

/// The names in the text of a JSON file that is `trusted` or not: what the text
/// parses to, or else the matches in it, are looked at only where the file is
/// trusted or the text holds a word that account files hold.
pub open spec fn json_file_names(
    text: Seq<char>,
    trusted: bool,
    parsed: Option<JsonView>,
    matches: Seq<(int, Seq<Option<Seq<char>>>)>,
) -> Set<Seq<char>> {
    if !trusted && !has_account_markers(text) {
        Set::empty()
    } else {
        match parsed {
            Some(value) => json_names(value, trusted),
            None => match_names(matches),
        }
    }
}

/// The names that the parsed content of a JSON file, or else the matches in its
/// text, give.
pub fn names_in_json(text: &str, trusted: bool, parsed: &Option<Json>, matches: &Vec<RegexMatch>) -> (r:
    TextSet)
    ensures
        r@ == json_file_names(
            text@,
            trusted,
            match parsed {
                Some(value) => Some(value.model()),
                None => None,
            },
            views(matches@),
        ),
{
    let mut names = TextSet::new();
    if !trusted && !minecraft_json_likely_has_account_markers(text) {
        return names;
    }
    match parsed {
        Some(value) => {
            collect_minecraft_names_from_json(value, &mut names, trusted);
            assert(names@ =~= json_names(value.model(), trusted));
        },
        None => {
            collect_match_names(matches, &mut names);
            assert(names@ =~= match_names(views(matches@)));
        },
    }
    names
}

/// The names in the JSON file `path`. A file that could not be read gives a
/// warning and no names.
pub fn extract_minecraft_accounts_from_json_file(
    path: &str,
    data: FileData,
    warnings: &mut Vec<String>,
) -> (r: TextSet)
    ensures
        match plain_content(path@, data@) {
            Ok(content) => views(final(warnings)@) == views(old(warnings)@) && r@
                == json_file_names(
                utf8_lossy(content),
                is_account_file(lower(file_name(path@))),
                json_parsed(utf8_lossy(content)),
                regex_matches(JSON_USERNAME_PATTERN@, utf8_lossy(content)),
            ),
            Err(warning) => r@ == Set::<Seq<char>>::empty() && views(final(warnings)@) == views(
                old(warnings)@,
            ).push(warning),
        },
{
    let bytes = match plain_bytes(path, data) {
        Ok(bytes) => bytes,
        Err(warning) => {
            push_view(warnings, warning);
            return TextSet::new();
        },
    };
    let text = utf8_text_lossy(bytes.as_slice());
    let trusted = is_trusted_minecraft_account_file(path);
    if !trusted && !minecraft_json_likely_has_account_markers(text.as_str()) {
        return TextSet::new();
    }
    let parsed = parse_json(text.as_str());
    let matches = if parsed.is_some() {
        Vec::new()
    } else {
        find_matches(JSON_USERNAME_PATTERN, text.as_str())
    };
    names_in_json(text.as_str(), trusted, &parsed, &matches)
}

/// All of `names` are accepted as they are.
pub open spec fn all_accepted(names: Set<Seq<char>>) -> bool {
    forall|name: Seq<char>| #[trigger] names.contains(name) ==> minecraft_name(name) == Some(name)
}

/// What is collected from matches are accepted names.
pub proof fn law_match_names_accepted(matches: Seq<(int, Seq<Option<Seq<char>>>)>)
    ensures
        all_accepted(match_names(matches)),
    decreases matches.len(),
{
    if matches.len() > 0 {
        law_match_names_accepted(matches.drop_last());
        if let Some(value) = group(matches.last(), 1) {
            if minecraft_name(value) is Some {
                law_minecraft_name_stable(value);
            }
        }
    }
}

/// What is collected from a JSON value are accepted names.
pub proof fn law_json_names_accepted(value: JsonView, context: bool)
    ensures
        all_accepted(json_names(value, context)),
    decreases value, 0int,
{
    match value {
        JsonView::Object(members) => {
            lemma_object_names_accepted(
                members,
                members.len(),
                context || has_account_context(members),
                has_identity(members),
            );
        },
        JsonView::List(items) => {
            lemma_items_names_accepted(items, items.len(), context);
        },
        _ => {},
    }
}

proof fn lemma_object_names_accepted(
    members: Seq<(Seq<char>, JsonView)>,
    n: nat,
    context: bool,
    identity: bool,
)
    ensures
        all_accepted(object_names(members, n, context, identity)),
    decreases members, n,
{
    if n > 0 && n <= members.len() {
        let (key, child) = members[n - 1];
        lemma_object_names_accepted(members, (n - 1) as nat, context, identity);
        law_json_names_accepted(child, context || is_account_key(lower(key)));
        if let JsonView::Text(text) = child {
            if minecraft_name(text) is Some {
                law_minecraft_name_stable(text);
            }
        }
    }
}

proof fn lemma_items_names_accepted(items: Seq<JsonView>, n: nat, context: bool)
    ensures
        all_accepted(items_names(items, n, context)),
    decreases items, n,
{
    if n > 0 && n <= items.len() {
        lemma_items_names_accepted(items, (n - 1) as nat, context);
        law_json_names_accepted(items[n - 1], context);
    }
}

/// Standing below something about an account only adds names.
pub proof fn law_context_adds_names(value: JsonView)
    ensures
        json_names(value, false).subset_of(json_names(value, true)),
    decreases value, 0int,
{
    match value {
        JsonView::Object(members) => {
            if !has_account_context(members) {
                lemma_context_adds_in_object(members, members.len(), has_identity(members));
            }
        },
        JsonView::List(items) => {
            lemma_context_adds_in_items(items, items.len());
        },
        _ => {},
    }
}

proof fn lemma_context_adds_in_object(members: Seq<(Seq<char>, JsonView)>, n: nat, identity: bool)
    ensures
        object_names(members, n, false, identity).subset_of(
            object_names(members, n, true, identity),
        ),
    decreases members, n,
{
    if n > 0 && n <= members.len() {
        lemma_context_adds_in_object(members, (n - 1) as nat, identity);
        law_context_adds_names(members[n - 1].1);
    }
}

proof fn lemma_context_adds_in_items(items: Seq<JsonView>, n: nat)
    ensures
        items_names(items, n, false).subset_of(items_names(items, n, true)),
    decreases items, n,
{
    if n > 0 && n <= items.len() {
        lemma_context_adds_in_items(items, (n - 1) as nat);
        law_context_adds_names(items[n - 1]);
    }
}

/// No key anywhere in a value is one of accounts.
pub open spec fn is_free_of_accounts(value: JsonView) -> bool
    decreases value, 0int,
{
    match value {
        JsonView::Object(members) => !has_account_context(members) && are_free_members(
            members,
            members.len(),
        ),
        JsonView::List(items) => are_free_items(items, items.len()),
        _ => true,
    }
}

pub open spec fn are_free_members(members: Seq<(Seq<char>, JsonView)>, n: nat) -> bool
    decreases members, n,
{
    n == 0 || n > members.len() || (are_free_members(members, (n - 1) as nat) && !is_account_key(
        lower(members[n - 1].0),
    ) && is_free_of_accounts(members[n - 1].1))
}

pub open spec fn are_free_items(items: Seq<JsonView>, n: nat) -> bool
    decreases items, n,
{
    n == 0 || n > items.len() || (are_free_items(items, (n - 1) as nat) && is_free_of_accounts(
        items[n - 1],
    ))
}

/// A value without any key of accounts gives no names, whatever else it holds.
pub proof fn law_noise_gives_no_names(value: JsonView)
    requires
        is_free_of_accounts(value),
    ensures
        json_names(value, false) == Set::<Seq<char>>::empty(),
    decreases value, 0int,
{
    match value {
        JsonView::Object(members) => {
            lemma_no_names_in_members(members, members.len(), has_identity(members));
        },
        JsonView::List(items) => {
            lemma_no_names_in_items(items, items.len());
        },
        _ => {},
    }
}

proof fn lemma_no_names_in_members(members: Seq<(Seq<char>, JsonView)>, n: nat, identity: bool)
    requires
        are_free_members(members, n),
        n <= members.len(),
    ensures
        object_names(members, n, false, identity) == Set::<Seq<char>>::empty(),
    decreases members, n,
{
    if n > 0 {
        lemma_no_names_in_members(members, (n - 1) as nat, identity);
        law_noise_gives_no_names(members[n - 1].1);
        assert(Set::<Seq<char>>::empty().union(Set::empty()) =~= Set::<Seq<char>>::empty());
    }
}

proof fn lemma_no_names_in_items(items: Seq<JsonView>, n: nat)
    requires
        are_free_items(items, n),
        n <= items.len(),
    ensures
        items_names(items, n, false) == Set::<Seq<char>>::empty(),
    decreases items, n,
{
    if n > 0 {
        lemma_no_names_in_items(items, (n - 1) as nat);
        law_noise_gives_no_names(items[n - 1]);
        assert(Set::<Seq<char>>::empty().union(Set::empty()) =~= Set::<Seq<char>>::empty());
    }
}

/// Step `k` of the way down leaves an object that is about an account, or goes to
/// a member whose key is one of accounts.
pub open spec fn enters_account(value: JsonView, path: Seq<JsonStep>, k: int) -> bool {
    ||| value_at(value, path.take(k)) matches Some(JsonView::Object(members))
        && has_account_context(members)
    ||| k < path.len() && key_at(value, path, k) is Some && is_account_key(
        lower(key_at(value, path, k)->0),
    )
}

/// What `path` leads to is about an account: it is by itself, or something on
/// the way to it is, or all of it is (`context`).
pub open spec fn is_about_account(value: JsonView, path: Seq<JsonStep>, context: bool) -> bool {
    context || exists|k: int| 0 <= k <= path.len() && #[trigger] enters_account(value, path, k)
}

/// Member `i` of the object that `path` leads to gives the name `name`: it is a
/// text that is accepted as that name, under a key for names, or under `name`
/// beside a key that identifies an account, and the object is about an account.
pub open spec fn gives_name(
    value: JsonView,
    context: bool,
    path: Seq<JsonStep>,
    i: int,
    name: Seq<char>,
) -> bool {
    match value_at(value, path) {
        Some(JsonView::Object(members)) => {
            &&& 0 <= i < members.len()
            &&& members[i].1 matches JsonView::Text(text) && minecraft_name(text) == Some(name)
            &&& is_strong_name_key(lower(members[i].0)) || (lower(members[i].0) == "name"@
                && has_identity(members))
            &&& is_about_account(value, path, context)
        },
        _ => false,
    }
}

proof fn lemma_in_object(
    members: Seq<(Seq<char>, JsonView)>,
    n: nat,
    context: bool,
    identity: bool,
    i: int,
)
    requires
        0 <= i < n <= members.len(),
    ensures
        json_names(members[i].1, context || is_account_key(lower(members[i].0))).subset_of(
            object_names(members, n, context, identity),
        ),
        member_name(members[i].0, members[i].1, context, identity) is Some ==> object_names(
            members,
            n,
            context,
            identity,
        ).contains(member_name(members[i].0, members[i].1, context, identity)->0),
    decreases n,
{
    if i < n - 1 {
        lemma_in_object(members, (n - 1) as nat, context, identity, i);
    }
}

proof fn lemma_in_items(items: Seq<JsonView>, n: nat, context: bool, i: int)
    requires
        0 <= i < n <= items.len(),
    ensures
        json_names(items[i], context).subset_of(items_names(items, n, context)),
    decreases n,
{
    if i < n - 1 {
        lemma_in_items(items, (n - 1) as nat, context, i);
    }
}

/// Below a first step the context is that of the start, of the object that is
/// left and of the key of the member that it goes to.
spec fn context_below(value: JsonView, step: JsonStep, context: bool) -> bool {
    match (value, step) {
        (JsonView::Object(members), JsonStep::Member(i)) => context || has_account_context(members)
            || is_account_key(lower(members[i].0)),
        _ => context,
    }
}

proof fn lemma_about_account(value: JsonView, path: Seq<JsonStep>, context: bool)
    requires
        path.len() > 0,
        step_into(value, path[0]) is Some,
    ensures
        is_about_account(value, path, context) <==> is_about_account(
            step_into(value, path[0])->0,
            path.skip(1),
            context_below(value, path[0], context),
        ),
{
    let child = step_into(value, path[0])->0;
    let rest = path.skip(1);
    let inner = context_below(value, path[0], context);
    assert(path.take(0) =~= Seq::empty());
    assert(enters_account(value, path, 0) || context <==> inner);
    assert forall|k: int| 0 < k <= path.len() implies enters_account(value, path, k)
        == enters_account(child, rest, k - 1) by {
        lemma_value_at(value, path.take(k));
        assert(path.take(k).skip(1) =~= rest.take(k - 1));
        assert(path.take(k)[0] == path[0]);
        if k < path.len() {
            lemma_key_at(value, path, k);
        }
    }
    if is_about_account(value, path, context) && !inner {
        let k = choose|k: int| 0 <= k <= path.len() && #[trigger] enters_account(value, path, k);
        assert(enters_account(child, rest, k - 1));
    }
    if is_about_account(child, rest, inner) && !inner {
        let k = choose|k: int| 0 <= k <= rest.len() && #[trigger] enters_account(child, rest, k);
        assert(enters_account(value, path, k + 1));
    }
}

proof fn lemma_given_name_found(
    value: JsonView,
    context: bool,
    path: Seq<JsonStep>,
    i: int,
    name: Seq<char>,
)
    requires
        gives_name(value, context, path, i, name),
    ensures
        json_names(value, context).contains(name),
    decreases path.len(),
{
    if path.len() == 0 {
        let members = value->Object_0;
        assert(path.take(0) =~= path);
        if is_about_account(value, path, context) && !context {
            let k = choose|k: int|
                0 <= k <= path.len() && #[trigger] enters_account(value, path, k);
            assert(k == 0);
        }
        let inner = context || has_account_context(members);
        assert(inner);
        lemma_in_object(members, members.len(), inner, has_identity(members), i);
    } else {
        lemma_value_at(value, path);
        let child = step_into(value, path[0])->0;
        let rest = path.skip(1);
        lemma_about_account(value, path, context);
        let inner = context_below(value, path[0], context);
        assert(gives_name(child, inner, rest, i, name));
        lemma_given_name_found(child, inner, rest, i, name);
        match (value, path[0]) {
            (JsonView::Object(members), JsonStep::Member(j)) => {
                lemma_in_object(
                    members,
                    members.len(),
                    context || has_account_context(members),
                    has_identity(members),
                    j,
                );
            },
            (JsonView::List(items), JsonStep::Item(j)) => {
                lemma_in_items(items, items.len(), context, j);
            },
            _ => {},
        }
    }
}

proof fn lemma_step_gives_name(
    value: JsonView,
    context: bool,
    step: JsonStep,
    path: Seq<JsonStep>,
    i: int,
    name: Seq<char>,
)
    requires
        step_into(value, step) is Some,
        gives_name(
            step_into(value, step)->0,
            context_below(value, step, context),
            path,
            i,
            name,
        ),
    ensures
        gives_name(value, context, seq![step] + path, i, name),
{
    let whole = seq![step] + path;
    lemma_value_at(value, whole);
    assert(whole.skip(1) =~= path);
    lemma_about_account(value, whole, context);
}

proof fn lemma_found_name_given(value: JsonView, context: bool, name: Seq<char>) -> (r: (
    Seq<JsonStep>,
    int,
))
    requires
        json_names(value, context).contains(name),
    ensures
        gives_name(value, context, r.0, r.1, name),
    decreases value, 0int,
{
    match value {
        JsonView::Object(members) => lemma_found_in_object(
            members,
            members.len(),
            context,
            name,
        ),
        JsonView::List(items) => lemma_found_in_items(items, items.len(), context, name),
        _ => (Seq::empty(), 0),
    }
}

proof fn lemma_found_in_object(
    members: Seq<(Seq<char>, JsonView)>,
    n: nat,
    context: bool,
    name: Seq<char>,
) -> (r: (Seq<JsonStep>, int))
    requires
        n <= members.len(),
        object_names(
            members,
            n,
            context || has_account_context(members),
            has_identity(members),
        ).contains(name),
    ensures
        gives_name(JsonView::Object(members), context, r.0, r.1, name),
    decreases members, n,
{
    let value = JsonView::Object(members);
    let inner = context || has_account_context(members);
    let identity = has_identity(members);
    let i = n - 1;
    let (key, child) = members[i];
    let below = inner || is_account_key(lower(key));
    if object_names(members, (n - 1) as nat, inner, identity).contains(name) {
        lemma_found_in_object(members, (n - 1) as nat, context, name)
    } else if json_names(child, below).contains(name) {
        let (path, j) = lemma_found_name_given(child, below, name);
        let step = JsonStep::Member(i);
        lemma_step_gives_name(value, context, step, path, j, name);
        (seq![step] + path, j)
    } else {
        let here = Seq::<JsonStep>::empty();
        assert(here.take(0) =~= here);
        assert(member_name(key, child, inner, identity) == Some(name));
        if !context {
            assert(enters_account(value, here, 0));
        }
        (here, i)
    }
}

proof fn lemma_found_in_items(items: Seq<JsonView>, n: nat, context: bool, name: Seq<char>) -> (r: (
    Seq<JsonStep>,
    int,
))
    requires
        n <= items.len(),
        items_names(items, n, context).contains(name),
    ensures
        gives_name(JsonView::List(items), context, r.0, r.1, name),
    decreases items, n,
{
    let i = n - 1;
    if items_names(items, (n - 1) as nat, context).contains(name) {
        lemma_found_in_items(items, (n - 1) as nat, context, name)
    } else {
        let (path, j) = lemma_found_name_given(items[i], context, name);
        let step = JsonStep::Item(i);
        lemma_step_gives_name(JsonView::List(items), context, step, path, j, name);
        (seq![step] + path, j)
    }
}

/// The names in a value are those that some object in it gives, at whatever
/// depth. What is about an account passes that on to everything below it.
pub proof fn law_account_context_reaches_down(value: JsonView, context: bool, name: Seq<char>)
    ensures
        json_names(value, context).contains(name) <==> exists|path: Seq<JsonStep>, i: int|
            gives_name(value, context, path, i, name),
{
    if json_names(value, context).contains(name) {
        let (path, i) = lemma_found_name_given(value, context, name);
        assert(gives_name(value, context, path, i, name));
    }
    if exists|path: Seq<JsonStep>, i: int| gives_name(value, context, path, i, name) {
        let (path, i) = choose|path: Seq<JsonStep>, i: int|
            gives_name(value, context, path, i, name);
        lemma_given_name_found(value, context, path, i, name);
    }
}

/// Whatever stands around a word for accounts, the key is one of accounts, and so
/// is each key under which launchers keep them. A key without such a word that is
/// none of those is not.
pub proof fn law_keys_of_accounts(key: Seq<char>, before: Seq<char>, after: Seq<char>)
    ensures
        is_account_key(before + "account"@ + after) && gives_context(before + "account"@ + after),
        is_account_key(before + "token"@ + after) && gives_context(before + "token"@ + after),
        is_account_key(before + "profile"@ + after),
        gives_context(key) <==> contains(key, "account"@) || contains(key, "token"@) || key
            == "uuid"@ || key == "xuid"@ || key == "selecteduser"@ || key
            == "authenticationdatabase"@ || key == "profileid"@ || key == "minecraftprofile"@
            || key == "msa"@ || key == "account"@ || key == "accounts"@ || key == "accesstoken"@
            || key == "refreshtoken"@ || key == "clienttoken"@,
        is_account_key(key) <==> gives_context(key) || contains(key, "profile"@),
        is_identity_key(key) <==> key == "id"@ || key == "uuid"@ || key == "xuid"@ || key
            == "profileid"@ || key == "selecteduser"@ || key == "accesstoken"@ || key
            == "refreshtoken"@,
        is_strong_name_key(key) <==> key == "username"@ || key == "displayname"@ || key
            == "display_name"@ || key == "playername"@ || key == "profile_name"@ || key
            == "profilename"@ || key == "lastusedname"@ || key == "selecteduser"@ || key
            == "ingamename"@ || key == "ign"@,
{
    lemma_contains_inside(before, "account"@, after);
    lemma_contains_inside(before, "profile"@, after);
    lemma_contains_inside(before, "token"@, after);
}

// ---------------------------------------------------------------------------
// Candidates
// ---------------------------------------------------------------------------

/// A name and where it was seen.
#[derive(Debug)]
pub struct MinecraftCandidate {
    pub username: String,
    pub sources: TextSet,
    pub profile_keys: TextSet,
    pub account_hits: usize,
    pub log_hits: usize,
}

#[verifier::ext_equal]
pub struct MinecraftCandidateView {
    pub username: Seq<char>,
    pub sources: Set<Seq<char>>,
    pub profile_keys: Set<Seq<char>>,
    pub account_hits: nat,
    pub log_hits: nat,
}

impl View for MinecraftCandidate {
    type V = MinecraftCandidateView;

    open spec fn view(&self) -> MinecraftCandidateView {
        MinecraftCandidateView {
            username: self.username@,
            sources: self.sources@,
            profile_keys: self.profile_keys@,
            account_hits: self.account_hits as nat,
            log_hits: self.log_hits as nat,
        }
    }
}

/// The names seen, by their form in lower case.
pub type MinecraftCandidates = OrderedMap<String, MinecraftCandidate>;

/// One more, up to the greatest `usize`.
pub open spec fn counted_up(n: nat) -> nat {
    if n < usize::MAX {
        n + 1
    } else {
        n
    }
}

/// A name that was not seen yet.
pub open spec fn new_candidate(username: Seq<char>) -> MinecraftCandidateView {
    MinecraftCandidateView {
        username,
        sources: Set::empty(),
        profile_keys: Set::empty(),
        account_hits: 0,
        log_hits: 0,
    }
}

/// A candidate after it was seen once more, in the file `path`.
pub open spec fn seen_again(c: MinecraftCandidateView, path: Seq<char>, from_log: bool) -> MinecraftCandidateView {
    MinecraftCandidateView {
        username: c.username,
        sources: c.sources.insert(path),
        profile_keys: match profile_key(path) {
            Some(profile) => c.profile_keys.insert(profile),
            None => c.profile_keys,
        },
        account_hits: if from_log {
            c.account_hits
        } else {
            counted_up(c.account_hits)
        },
        log_hits: if from_log {
            counted_up(c.log_hits)
        } else {
            c.log_hits
        },
    }
}

/// The candidates after `username` was seen in the file `path`. The first way
/// in which a name was written stays.
pub open spec fn with_candidate(
    map: Map<Seq<char>, MinecraftCandidateView>,
    username: Seq<char>,
    path: Seq<char>,
    from_log: bool,
) -> Map<Seq<char>, MinecraftCandidateView> {
    match minecraft_name(username) {
        None => map,
        Some(name) => {
            let key = lower(name);
            let old_candidate = if map.dom().contains(key) {
                map[key]
            } else {
                new_candidate(name)
            };
            map.insert(key, seen_again(old_candidate, path, from_log))
        },
    }
}

pub fn insert_minecraft_candidate(
    map: &mut MinecraftCandidates,
    username: &str,
    source_path: &str,
    from_log: bool,
)
    ensures
        final(map)@ == with_candidate(old(map)@, username@, source_path@, from_log),
{
    let name = match normalize_minecraft_username(username) {
        Some(name) => name,
        None => {
            return;
        },
    };
    let key = to_lower(name.as_str());
    let mut candidate = match map.get(&key) {
        Some(c) => MinecraftCandidate {
            username: c.username.clone(),
            sources: c.sources.clone(),
            profile_keys: c.profile_keys.clone(),
            account_hits: c.account_hits,
            log_hits: c.log_hits,
        },
        None => MinecraftCandidate {
            username: name,
            sources: TextSet::new(),
            profile_keys: TextSet::new(),
            account_hits: 0,
            log_hits: 0,
        },
    };
    let ghost before = candidate@;
    candidate.sources.insert(source_path.to_string());
    if let Some(profile) = profile_key_from_path(source_path) {
        candidate.profile_keys.insert(profile);
    }
    if from_log {
        candidate.log_hits = candidate.log_hits.saturating_add(1);
    } else {
        candidate.account_hits = candidate.account_hits.saturating_add(1);
    }
    assert(candidate@ == seen_again(before, source_path@, from_log));
    map.insert(key, candidate);
}

/// Seeing a name removes no candidate and changes no other: only its own entry
/// is touched, and how it is written stays once it is there.
pub proof fn law_candidates_kept(
    map: Map<Seq<char>, MinecraftCandidateView>,
    username: Seq<char>,
    path: Seq<char>,
    from_log: bool,
    key: Seq<char>,
)
    requires
        map.dom().contains(key),
    ensures
        ({
            let after = with_candidate(map, username, path, from_log);
            &&& after.dom().contains(key)
            &&& after[key].username == map[key].username
            &&& map[key].sources.subset_of(after[key].sources)
            &&& map[key].profile_keys.subset_of(after[key].profile_keys)
            &&& map[key].account_hits <= after[key].account_hits
            &&& map[key].log_hits <= after[key].log_hits
            &&& (minecraft_name(username) is None || lower(minecraft_name(username)->0) != key)
                ==> after[key] == map[key]
        }),
{
}

/// Every candidate stands under its name in lower case, and that is a name.
pub open spec fn keyed_by_name(map: Map<Seq<char>, MinecraftCandidateView>) -> bool {
    forall|key: Seq<char>| #[trigger]
        map.dom().contains(key) ==> {
            &&& key == lower(map[key].username)
            &&& minecraft_name(map[key].username) == Some(map[key].username)
        }
}

/// Whatever names are seen, every candidate stands under its name in lower case.
pub proof fn law_candidates_keyed(
    map: Map<Seq<char>, MinecraftCandidateView>,
    names: Seq<Seq<char>>,
    path: Seq<char>,
    from_log: bool,
)
    requires
        keyed_by_name(map),
    ensures
        keyed_by_name(with_candidates(map, names, path, from_log)),
    decreases names.len(),
{
    if names.len() > 0 {
        law_candidates_keyed(map, names.drop_last(), path, from_log);
        if minecraft_name(names.last()) is Some {
            law_minecraft_name_stable(names.last());
        }
    }
}

/// The candidates after each of `names` was seen in the file `path`.
pub open spec fn with_candidates(
    map: Map<Seq<char>, MinecraftCandidateView>,
    names: Seq<Seq<char>>,
    path: Seq<char>,
    from_log: bool,
) -> Map<Seq<char>, MinecraftCandidateView>
    decreases names.len(),
{
    if names.len() == 0 {
        map
    } else {
        with_candidate(
            with_candidates(map, names.drop_last(), path, from_log),
            names.last(),
            path,
            from_log,
        )
    }
}

/// Records that each of `names` was seen in the file `path`.
pub fn insert_minecraft_names(
    map: &mut MinecraftCandidates,
    names: &TextSet,
    path: &str,
    from_log: bool,
)
    ensures
        final(map)@ == with_candidates(old(map)@, listed(names@), path@, from_log),
        lists(listed(names@), names@),
{
    let list = names.to_list();
    let ghost all = views(list@);
    let ghost start = map@;
    for i in 0..list.len()
        invariant
            all == views(list@),
            map@ == with_candidates(start, all.take(i as int), path@, from_log),
    {
        assert(all.take(i + 1).drop_last() =~= all.take(i as int));
        assert(all.take(i + 1).last() == list@[i as int]@);
        insert_minecraft_candidate(map, list[i].as_str(), path, from_log);
    }
    assert(all.take(all.len() as int) =~= all);
}

// ---------------------------------------------------------------------------
// Verdicts
// ---------------------------------------------------------------------------

/// Whether a candidate is kept, and why. A name from an account file is, a name
/// from logs alone is unless it looks like a placeholder seen fewer than three
/// times; a word of launcher files never is.
pub open spec fn verdict(c: MinecraftCandidateView) -> (bool, Seq<char>) {
    let name = lower(c.username);
    if is_structural_word(name) {
        (false, "structural-word-filter"@)
    } else if c.account_hits > 0 {
        (
            true,
            with_number(
                with_number("trusted-account-source:"@, c.account_hits, ";log:"@),
                c.log_hits,
                ""@,
            ),
        )
    } else if is_placeholder(name) {
        if c.log_hits >= 3 {
            (true, with_number("placeholder-multi-log:"@, c.log_hits, ""@))
        } else {
            (false, with_number("placeholder-filtered:"@, c.log_hits, ""@))
        }
    } else if c.log_hits >= 1 {
        (true, with_number("log-evidence:"@, c.log_hits, ""@))
    } else {
        (false, "no-usable-evidence"@)
    }
}

pub fn classify_minecraft_candidate(entry: &MinecraftCandidate) -> (r: (bool, String, usize))
    ensures
        r.0 == verdict(entry@).0,
        r.1@ == verdict(entry@).1,
        r.2 == entry.account_hits,
{
    let name = to_lower(entry.username.as_str());
    let logs: u64 = entry.log_hits as u64;
    if is_structural_minecraft_word(name.as_str()) {
        return (false, "structural-word-filter".to_string(), entry.account_hits);
    }
    if entry.account_hits > 0 {
        let mut reason = number_text(
            "trusted-account-source:",
            entry.account_hits as u64,
            ";log:",
        );
        push_number(&mut reason, logs, "");
        return (true, reason, entry.account_hits);
    }
    if is_placeholder_minecraft_username(name.as_str()) {
        if entry.log_hits >= 3 {
            return (true, number_text("placeholder-multi-log:", logs, ""), entry.account_hits);
        }
        return (false, number_text("placeholder-filtered:", logs, ""), entry.account_hits);
    }
    if entry.log_hits >= 1 {
        return (true, number_text("log-evidence:", logs, ""), entry.account_hits);
    }
    (false, "no-usable-evidence".to_string(), entry.account_hits)
}

/// More sightings never turn a kept candidate into one that is not.
pub proof fn law_verdict_monotone(c: MinecraftCandidateView, path: Seq<char>, from_log: bool)
    requires
        verdict(c).0,
    ensures
        verdict(seen_again(c, path, from_log)).0,
{
}

#[derive(Debug, Clone)]
pub struct MinecraftAlt {
    pub username: String,
    pub sources: Vec<String>,
}

#[verifier::ext_equal]
pub struct MinecraftAltView {
    pub username: Seq<char>,
    pub sources: Seq<Seq<char>>,
}

impl View for MinecraftAlt {
    type V = MinecraftAltView;

    open spec fn view(&self) -> MinecraftAltView {
        MinecraftAltView { username: self.username@, sources: views(self.sources@) }
    }
}

#[derive(Debug, Clone)]
pub struct MinecraftDetectionDebug {
    pub username: String,
    pub kept: bool,
    pub reason: String,
    pub source_count: usize,
    pub account_source_count: usize,
    pub sources: Vec<String>,
}

#[verifier::ext_equal]
pub struct MinecraftDebugView {
    pub username: Seq<char>,
    pub kept: bool,
    pub reason: Seq<char>,
    pub source_count: nat,
    pub account_source_count: nat,
    pub sources: Seq<Seq<char>>,
}

impl View for MinecraftDetectionDebug {
    type V = MinecraftDebugView;

    open spec fn view(&self) -> MinecraftDebugView {
        MinecraftDebugView {
            username: self.username@,
            kept: self.kept,
            reason: self.reason@,
            source_count: self.source_count as nat,
            account_source_count: self.account_source_count as nat,
            sources: views(self.sources@),
        }
    }
}

#[derive(Debug)]
pub struct MinecraftScanOutcome {
    pub accounts: Vec<MinecraftAlt>,
    pub debug: Vec<MinecraftDetectionDebug>,
    pub profile_accounts: ProfileAccounts,
}

pub open spec fn alt_of(c: MinecraftCandidateView) -> MinecraftAltView {
    MinecraftAltView { username: c.username, sources: listed(c.sources) }
}

pub open spec fn debug_of(c: MinecraftCandidateView) -> MinecraftDebugView {
    MinecraftDebugView {
        username: c.username,
        kept: verdict(c).0,
        reason: verdict(c).1,
        source_count: listed(c.sources).len(),
        account_source_count: c.account_hits,
        sources: listed(c.sources),
    }
}

/// The candidates that are kept, in order.
pub open spec fn kept(cs: Seq<MinecraftCandidateView>) -> Seq<MinecraftCandidateView>
    decreases cs.len(),
{
    if cs.len() == 0 {
        Seq::empty()
    } else if verdict(cs.last()).0 {
        kept(cs.drop_last()).push(cs.last())
    } else {
        kept(cs.drop_last())
    }
}

/// Nothing that is not kept by its verdict is among the kept, and all that is, is.
pub proof fn law_kept(cs: Seq<MinecraftCandidateView>, c: MinecraftCandidateView)
    ensures
        kept(cs).contains(c) <==> cs.contains(c) && verdict(c).0,
    decreases cs.len(),
{
    if cs.len() > 0 {
        let before = cs.drop_last();
        law_kept(before, c);
        assert(cs =~= before.push(cs.last()));
        assert(cs.contains(c) <==> before.contains(c) || c == cs.last()) by {
            if before.contains(c) {
                let i = choose|i: int| 0 <= i < before.len() && before[i] == c;
                assert(cs[i] == c);
            }
            assert(cs[cs.len() - 1] == cs.last());
        }
        let k = kept(before);
        assert(k.push(cs.last()).contains(c) <==> k.contains(c) || c == cs.last()) by {
            if k.contains(c) {
                let i = choose|i: int| 0 <= i < k.len() && k[i] == c;
                assert(k.push(cs.last())[i] == c);
            }
            assert(k.push(cs.last())[k.len() as int] == cs.last());
        }
    }
}

/// The candidates in the order of their names in lower case.
pub open spec fn candidates_in_order(map: Map<Seq<char>, MinecraftCandidateView>) -> Seq<
    MinecraftCandidateView,
> {
    in_order::<String>(map.dom()).map_values(|key: Seq<char>| map[key])
}

/// The name of a candidate and the profiles that it was seen under.
pub open spec fn seen_under(c: MinecraftCandidateView) -> (Seq<char>, Set<Seq<char>>) {
    (c.username, c.profile_keys)
}

/// The names, in lower case, increase: none is there twice, whatever its case.
pub open spec fn increase_by_name(cs: Seq<MinecraftCandidateView>) -> bool {
    forall|i: int, j: int|
        0 <= i < j < cs.len() ==> text_before(
            lower((#[trigger] cs[i]).username),
            lower((#[trigger] cs[j]).username),
        )
}

proof fn lemma_kept_increase(cs: Seq<MinecraftCandidateView>)
    requires
        increase_by_name(cs),
    ensures
        increase_by_name(kept(cs)),
    decreases cs.len(),
{
    if cs.len() > 0 {
        let before = cs.drop_last();
        lemma_kept_increase(before);
        let all = kept(cs);
        let some = kept(before);
        assert forall|i: int, j: int| 0 <= i < j < all.len() implies text_before(
            lower((#[trigger] all[i]).username),
            lower((#[trigger] all[j]).username),
        ) by {
            assert(all[i] == some[i]);
            if j < some.len() {
                assert(all[j] == some[j]);
            } else {
                law_kept(before, some[i]);
                let k = choose|k: int| 0 <= k < before.len() && before[k] == some[i];
                assert(cs[k] == some[i]);
                assert(all[j] == cs[cs.len() - 1]);
            }
        }
    }
}

/// The accounts, and all names that are explained, increase strictly by their
/// names in lower case.
pub proof fn law_accounts_increase(map: Map<Seq<char>, MinecraftCandidateView>)
    requires
        keyed_by_name(map),
        map.dom().finite(),
    ensures
        increase_by_name(candidates_in_order(map)),
        increase_by_name(kept(candidates_in_order(map))),
{
    let keys = listed(map.dom());
    let all = candidates_in_order(map);
    lemma_in_order_exists::<String>(map.dom());
    assert forall|i: int, j: int| 0 <= i < j < all.len() implies text_before(
        lower((#[trigger] all[i]).username),
        lower((#[trigger] all[j]).username),
    ) by {
        lemma_increasing_texts(keys, i, j);
        assert(keys.to_set().contains(keys[i]));
        assert(keys.to_set().contains(keys[j]));
        assert(map.dom().contains(keys[i]) && map.dom().contains(keys[j]));
    }
    lemma_kept_increase(all);
}

/// Decides on all candidates: every one is explained, the kept ones are
/// accounts, listed by name and under the profiles that they were seen under.
pub fn minecraft_outcome(map: MinecraftCandidates) -> (r: MinecraftScanOutcome)
    ensures
        ({
            let all = candidates_in_order(map@);
            &&& lists(listed(map@.dom()), map@.dom())
            &&& views(r.debug@) == all.map_values(|c: MinecraftCandidateView| debug_of(c))
            &&& views(r.accounts@) == kept(all).map_values(|c: MinecraftCandidateView| alt_of(c))
            &&& r.profile_accounts@ == by_profile(
                kept(all).map_values(|c: MinecraftCandidateView| seen_under(c)),
            )
            &&& forall|i: int|
                0 <= i < all.len() ==> lists(
                    listed((#[trigger] all[i]).sources),
                    all[i].sources,
                )
        }),
{
    let ghost start = map@;
    let (keys, candidates) = map.into_lists();
    let ghost all = candidates_in_order(start);
    assert(views(candidates@) =~= all);
    let ghost explained = all.map_values(|c: MinecraftCandidateView| debug_of(c));
    let mut accounts: Vec<MinecraftAlt> = Vec::new();
    let mut debug: Vec<MinecraftDetectionDebug> = Vec::new();
    let mut profile_accounts: ProfileAccounts = OrderedMap::new();
    assert(views(accounts@) =~= kept(all.take(0)).map_values(
        |c: MinecraftCandidateView| alt_of(c),
    ));
    assert(kept(all.take(0)).map_values(|c: MinecraftCandidateView| seen_under(c)) =~= Seq::empty());
    for i in 0..candidates.len()
        invariant
            views(candidates@) == all,
            explained == all.map_values(|c: MinecraftCandidateView| debug_of(c)),
            views(debug@) == explained.take(i as int),
            forall|j: int|
                0 <= j < i ==> lists(listed((#[trigger] all[j]).sources), all[j].sources),
            views(accounts@) == kept(all.take(i as int)).map_values(
                |c: MinecraftCandidateView| alt_of(c),
            ),
            profile_accounts@ == by_profile(
                kept(all.take(i as int)).map_values(|c: MinecraftCandidateView| seen_under(c)),
            ),
    {
        let entry = &candidates[i];
        assert(all[i as int] == entry@);
        assert(all.take(i + 1).drop_last() =~= all.take(i as int));
        assert(all.take(i + 1).last() == entry@);
        let ghost before = kept(all.take(i as int));
        let (keep, reason, account_source_count) = classify_minecraft_candidate(entry);
        let sources = entry.sources.to_list();
        assert(views(sources@).len() == sources@.len());
        push_view(
            &mut debug,
            MinecraftDetectionDebug {
                username: entry.username.clone(),
                kept: keep,
                reason,
                source_count: sources.len(),
                account_source_count,
                sources: entry.sources.to_list(),
            },
        );
        assert(debug@.last()@ == debug_of(entry@));
        assert(views(debug@) =~= explained.take(i + 1));
        if keep {
            add_account(&mut profile_accounts, &entry.profile_keys, entry.username.as_str());
            push_view(&mut accounts, MinecraftAlt { username: entry.username.clone(), sources });
            proof {
                let after = before.push(entry@);
                assert(after.map_values(|c: MinecraftCandidateView| alt_of(c)) =~= before.map_values(
                    |c: MinecraftCandidateView| alt_of(c),
                ).push(alt_of(entry@)));
                let pairs = after.map_values(|c: MinecraftCandidateView| seen_under(c));
                assert(pairs.drop_last() =~= before.map_values(
                    |c: MinecraftCandidateView| seen_under(c),
                ));
            }
        }
    }
    assert(all.take(all.len() as int) =~= all);
    assert(explained.take(explained.len() as int) =~= explained);
    MinecraftScanOutcome { accounts, debug, profile_accounts }
}

} // verus!
