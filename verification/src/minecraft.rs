//! Minecraft names, and the files that may hold one.

use vstd::prelude::*;

use crate::outside::{finds_match, regex_found};
use crate::paths::{
    extension_of_path, file_name, has_segment, lower_extension, name_of_path, normalize_path_key,
    path_has_segment, path_key,
};
use crate::text::{
    after_prefix, all_digits, begins_with, char_is_alphanumeric, chars_of, contains, ends_with,
    finishes_with, has_text, is_alphanumeric, is_text, lemma_unquoted_stable, lower, lower_chars,
    only_digits, starts_with, string_of, strip_start, unquote, unquoted,
};

verus! {

pub const MAX_MINECRAFT_LOG_FILE_BYTES: u64 = 8 * 1024 * 1024;

pub const MAX_MINECRAFT_JSON_FILE_BYTES: u64 = 4 * 1024 * 1024;

// ---------------------------------------------------------------------------
// Patterns
// ---------------------------------------------------------------------------

pub const SETTING_USER_PATTERN: &'static str = r"(?i)\bsetting user:\s*([A-Za-z0-9_]{3,16})";

pub const SESSION_PATTERN: &'static str =
    r"(?i)\bcreating minecraft session for\s*([A-Za-z0-9_]{3,16})";

pub const LOGGED_IN_PATTERN: &'static str = r"(?i)\blogged in as\s*([A-Za-z0-9_]{3,16})";

pub const LUNAR_TOKEN_PATTERN: &'static str =
    r"(?i)\bgot lunar client token for\s*([A-Za-z0-9_]{3,16})";

pub const USERNAME_ARGUMENT_PATTERN: &'static str = r"(?i)\b--username\s+([A-Za-z0-9_]{3,16})";

pub const JSON_USERNAME_PATTERN: &'static str =
    "(?i)\\\"(?:username|displayName|profileName|playerName|lastUsedName)\\\"\\s*:\\s*\\\"([A-Za-z0-9_]{3,16})\\\"";

pub const DATED_LOG_PATTERN: &'static str = r"(?i)^\d{4}-\d{2}-\d{2}-\d+\.log(?:\.gz)?$";

// ---------------------------------------------------------------------------
// Names
// ---------------------------------------------------------------------------

pub open spec fn is_word(s: Seq<char>) -> bool {
    forall|i: int| 0 <= i < s.len() ==> is_alphanumeric(#[trigger] s[i]) || s[i] == '_'
}

/// The name in `value`: without white space and quotes around it, 3 to 16
/// letters, digits and underscores.
pub open spec fn minecraft_name(value: Seq<char>) -> Option<Seq<char>> {
    let name = unquoted(value);
    if 3 <= name.len() <= 16 && is_word(name) {
        Some(name)
    } else {
        None
    }
}

pub fn normalize_minecraft_username(value: &str) -> (r: Option<String>)
    ensures
        match r {
            Some(name) => minecraft_name(value@) == Some(name@),
            None => minecraft_name(value@) is None,
        },
{
    let chars = chars_of(value);
    let name = unquote(chars.as_slice());
    if name.len() < 3 || name.len() > 16 {
        return None;
    }
    for i in 0..name.len()
        invariant
            name@ == unquoted(value@),
            forall|j: int| 0 <= j < i ==> is_alphanumeric(#[trigger] name@[j]) || name@[j] == '_',
    {
        if !(char_is_alphanumeric(name[i]) || name[i] == '_') {
            return None;
        }
    }
    Some(string_of(name))
}

/// A name that was accepted is accepted again, unchanged.
pub proof fn law_minecraft_name_stable(value: Seq<char>)
    requires
        minecraft_name(value) is Some,
    ensures
        minecraft_name(minecraft_name(value)->0) == minecraft_name(value),
{
    let name = minecraft_name(value)->0;
    assert(is_alphanumeric(name[0]) || name[0] == '_');
    assert(is_alphanumeric(name.last()) || name.last() == '_');
    lemma_unquoted_stable(name);
}

/// A word of launcher files that is no name.
pub open spec fn is_structural_word(s: Seq<char>) -> bool {
    ||| s == "forge"@
    ||| s == "fabric"@
    ||| s == "vanilla"@
    ||| s == "optifine"@
    ||| s == "account"@
    ||| s == "accounts"@
    ||| s == "profile"@
    ||| s == "instance"@
}

pub fn is_structural_minecraft_word(username_lower: &str) -> (r: bool)
    ensures
        r == is_structural_word(username_lower@),
{
    let s = chars_of(username_lower);
    let s = s.as_slice();
    is_text(s, "forge") || is_text(s, "fabric") || is_text(s, "vanilla") || is_text(s, "optifine")
        || is_text(s, "account") || is_text(s, "accounts") || is_text(s, "profile") || is_text(
        s,
        "instance",
    )
}

/// `player` and one to five digits.
pub open spec fn is_placeholder(s: Seq<char>) -> bool {
    match after_prefix(s, "player"@) {
        Some(suffix) => 1 <= suffix.len() <= 5 && all_digits(suffix),
        None => false,
    }
}

pub fn is_placeholder_minecraft_username(username_lower: &str) -> (r: bool)
    ensures
        r == is_placeholder(username_lower@),
{
    let s = chars_of(username_lower);
    match strip_start(s.as_slice(), "player") {
        Some(suffix) => suffix.len() >= 1 && suffix.len() <= 5 && only_digits(suffix),
        None => false,
    }
}

// ---------------------------------------------------------------------------
// Files
// ---------------------------------------------------------------------------

/// `base` and one or more digits.
pub open spec fn is_numbered(name: Seq<char>, base: Seq<char>) -> bool {
    match after_prefix(name, base) {
        Some(suffix) => suffix.len() > 0 && all_digits(suffix),
        None => false,
    }
}

pub fn is_numbered_name(name: &[char], base: &str) -> (r: bool)
    ensures
        r == is_numbered(name@, base@),
{
    match strip_start(name, base) {
        Some(suffix) => suffix.len() > 0 && only_digits(suffix),
        None => false,
    }
}

/// A name, in lower case, that the game gives to a log; `dated` says whether it
/// is one with a date.
pub open spec fn is_log_name(name: Seq<char>, dated: bool) -> bool {
    ||| name == "latest.log"@
    ||| name == "debug.log"@
    ||| is_numbered(name, "latest.log."@)
    ||| is_numbered(name, "debug.log."@)
    ||| dated
}

pub fn is_log_name_given_dated(file_name_lower: &str, dated: bool) -> (r: bool)
    ensures
        r == is_log_name(file_name_lower@, dated),
{
    let s = chars_of(file_name_lower);
    let s = s.as_slice();
    is_text(s, "latest.log") || is_text(s, "debug.log") || is_numbered_name(s, "latest.log.")
        || is_numbered_name(s, "debug.log.") || dated
}

/// The pattern of dated logs is found in `name`.
pub open spec fn is_dated(name: Seq<char>) -> bool {
    regex_found(DATED_LOG_PATTERN@, name)
}

pub fn is_probable_minecraft_log_name(file_name_lower: &str) -> (r: bool)
    ensures
        r == is_log_name(file_name_lower@, is_dated(file_name_lower@)),
{
    is_log_name_given_dated(file_name_lower, finds_match(DATED_LOG_PATTERN, file_name_lower))
}

/// The files in which launchers keep accounts.
pub open spec fn is_account_file(name: Seq<char>) -> bool {
    ||| name == "accounts.json"@
    ||| name == "launcher_accounts.json"@
    ||| name == "launcher_accounts_microsoft_store.json"@
    ||| name == "launcher_msa_credentials.json"@
    ||| name == "launcher_profiles.json"@
    ||| name == "tlauncher_profiles.json"@
    ||| name == "tlauncherprofiles.json"@
    ||| name == "authenticationdatabase"@
    ||| name == "labymod_accounts.json"@
}

/// The names of the files in which launchers keep accounts.
pub fn account_file_names() -> (r: Vec<&'static str>)
    ensures
        forall|name: Seq<char>|
            is_account_file(name) <==> exists|i: int| 0 <= i < r@.len() && #[trigger] r@[i]@ == name,
{
    let r: Vec<&'static str> = vec![
        "accounts.json",
        "launcher_accounts.json",
        "launcher_accounts_microsoft_store.json",
        "launcher_msa_credentials.json",
        "launcher_profiles.json",
        "tlauncher_profiles.json",
        "tlauncherprofiles.json",
        "authenticationdatabase",
        "labymod_accounts.json",
    ];
    assert forall|name: Seq<char>| is_account_file(name) implies exists|i: int|
        0 <= i < r@.len() && #[trigger] r@[i]@ == name by {
        assert(r@[0]@ == "accounts.json"@);
        assert(r@[1]@ == "launcher_accounts.json"@);
        assert(r@[2]@ == "launcher_accounts_microsoft_store.json"@);
        assert(r@[3]@ == "launcher_msa_credentials.json"@);
        assert(r@[4]@ == "launcher_profiles.json"@);
        assert(r@[5]@ == "tlauncher_profiles.json"@);
        assert(r@[6]@ == "tlauncherprofiles.json"@);
        assert(r@[7]@ == "authenticationdatabase"@);
        assert(r@[8]@ == "labymod_accounts.json"@);
    }
    r
}

fn is_account_file_name(s: &[char]) -> (r: bool)
    ensures
        r == is_account_file(s@),
{
    is_text(s, "accounts.json") || is_text(s, "launcher_accounts.json") || is_text(
        s,
        "launcher_accounts_microsoft_store.json",
    ) || is_text(s, "launcher_msa_credentials.json") || is_text(s, "launcher_profiles.json")
        || is_text(s, "tlauncher_profiles.json") || is_text(s, "tlauncherprofiles.json") || is_text(
        s,
        "authenticationdatabase",
    ) || is_text(s, "labymod_accounts.json")
}

/// Files that name other players.
pub open spec fn is_blocked_json(name: Seq<char>) -> bool {
    name == "usercache.json"@ || name == "servers.json"@ || name == "realms_persistence.json"@
}

fn is_blocked_json_name(s: &[char]) -> (r: bool)
    ensures
        r == is_blocked_json(s@),
{
    is_text(s, "usercache.json") || is_text(s, "servers.json") || is_text(
        s,
        "realms_persistence.json",
    )
}

/// A word in a file name that hints at accounts.
pub open spec fn has_account_hint(name: Seq<char>) -> bool {
    ||| contains(name, "account"@)
    ||| contains(name, "profile"@)
    ||| contains(name, "launcher"@)
    ||| contains(name, "auth"@)
    ||| contains(name, "minecraft"@)
}

fn name_has_account_hint(s: &[char]) -> (r: bool)
    ensures
        r == has_account_hint(s@),
{
    has_text(s, "account") || has_text(s, "profile") || has_text(s, "launcher") || has_text(
        s,
        "auth",
    ) || has_text(s, "minecraft")
}

/// A path below the directory of the game or of a launcher.
pub open spec fn is_game_path(path: Seq<char>) -> bool {
    let key = path_key(path);
    ||| contains(key, "\\.minecraft"@)
    ||| contains(key, "\\minecraft"@)
    ||| contains(key, "\\tlauncher"@)
    ||| contains(key, "\\lunarclient"@)
    ||| contains(key, "\\prismlauncher"@)
    ||| contains(key, "\\multimc"@)
    ||| contains(key, "\\modrinth"@)
    ||| contains(key, "\\gdlauncher"@)
    ||| contains(key, "\\hmcl"@)
    ||| contains(key, "\\labymod"@)
    ||| contains(key, "\\sklauncher"@)
    ||| contains(key, "\\salwyrr"@)
    ||| contains(key, "\\curseforge"@)
}

pub fn path_looks_minecraft_related(path: &str) -> (r: bool)
    ensures
        r == is_game_path(path@),
{
    let key = normalize_path_key(path);
    let s = chars_of(key.as_str());
    let s = s.as_slice();
    has_text(s, "\\.minecraft") || has_text(s, "\\minecraft") || has_text(s, "\\tlauncher")
        || has_text(s, "\\lunarclient") || has_text(s, "\\prismlauncher") || has_text(
        s,
        "\\multimc",
    ) || has_text(s, "\\modrinth") || has_text(s, "\\gdlauncher") || has_text(s, "\\hmcl")
        || has_text(s, "\\labymod") || has_text(s, "\\sklauncher") || has_text(s, "\\salwyrr")
        || has_text(s, "\\curseforge")
}

/// A directory, its name in lower case, that looks like the root of the game or
/// of a launcher.
pub open spec fn is_root_name(name: Seq<char>) -> bool {
    ||| contains(name, ".minecraft"@)
    ||| contains(name, "minecraft"@)
    ||| contains(name, "tlauncher"@)
    ||| contains(name, "lunarclient"@)
    ||| contains(name, "prismlauncher"@)
    ||| contains(name, "multimc"@)
    ||| contains(name, "polymc"@)
    ||| contains(name, "modrinth"@)
    ||| contains(name, "gdlauncher"@)
    ||| contains(name, "sklauncher"@)
    ||| contains(name, "salwyrr"@)
    ||| contains(name, "hmcl"@)
    ||| contains(name, "labymod"@)
    ||| contains(name, "curseforge"@)
    ||| contains(name, "technic"@)
}

pub fn looks_like_minecraft_root_name(dir_name_lower: &str) -> (r: bool)
    ensures
        r == is_root_name(dir_name_lower@),
{
    let s = chars_of(dir_name_lower);
    let s = s.as_slice();
    has_text(s, ".minecraft") || has_text(s, "minecraft") || has_text(s, "tlauncher") || has_text(
        s,
        "lunarclient",
    ) || has_text(s, "prismlauncher") || has_text(s, "multimc") || has_text(s, "polymc")
        || has_text(s, "modrinth") || has_text(s, "gdlauncher") || has_text(s, "sklauncher")
        || has_text(s, "salwyrr") || has_text(s, "hmcl") || has_text(s, "labymod") || has_text(
        s,
        "curseforge",
    ) || has_text(s, "technic")
}

/// A directory, its name in lower case, that is not walked into.
pub open spec fn is_skipped_dir(name: Seq<char>) -> bool {
    ||| name == "libraries"@
    ||| name == "assets"@
    ||| name == "runtime"@
    ||| name == "cache"@
    ||| name == "caches"@
    ||| name == "logs_cache"@
    ||| name == "natives"@
    ||| name == "node_modules"@
    ||| name == ".git"@
    ||| name == ".gradle"@
    ||| name == "program files"@
    ||| name == "program files (x86)"@
    ||| name == "windows"@
    ||| name == "$recycle.bin"@
    ||| name == "system volume information"@
}

/// Whether the directory `name` is passed over when files are looked for.
pub fn should_skip_walk_dir_entry(name: &str) -> (r: bool)
    ensures
        r == is_skipped_dir(lower(name@)),
{
    let chars = chars_of(name);
    let s = lower_chars(chars.as_slice());
    let s = s.as_slice();
    is_text(s, "libraries") || is_text(s, "assets") || is_text(s, "runtime") || is_text(s, "cache")
        || is_text(s, "caches") || is_text(s, "logs_cache") || is_text(s, "natives") || is_text(
        s,
        "node_modules",
    ) || is_text(s, ".git") || is_text(s, ".gradle") || is_text(s, "program files") || is_text(
        s,
        "program files (x86)",
    ) || is_text(s, "windows") || is_text(s, "$recycle.bin") || is_text(
        s,
        "system volume information",
    )
}

/// Whether the directory `name` is passed over when roots are looked for.
pub fn should_skip_discovery_dir(name: &str) -> (r: bool)
    ensures
        r == (is_skipped_dir(lower(name@)) || starts_with(name@, "$"@)),
{
    let chars = chars_of(name);
    should_skip_walk_dir_entry(name) || begins_with(chars.as_slice(), "$")
}

/// A path that may be worth a look, before its size is known.
pub open spec fn is_potential_source(path: Seq<char>, dated: bool) -> bool {
    let name = lower(file_name(path));
    let ext = lower_extension(path);
    if name.len() == 0 {
        false
    } else if name == "authenticationdatabase"@ {
        true
    } else if ext == "log"@ {
        is_log_name(name, dated) || has_segment(path, "logs"@)
    } else if ext == "gz"@ {
        ends_with(name, ".log.gz"@)
    } else if ext != "json"@ || is_blocked_json(name) {
        false
    } else {
        is_account_file(name) || (is_game_path(path) && has_account_hint(name))
    }
}

fn lower_name(path: &str) -> (r: Vec<char>)
    ensures
        r@ == lower(file_name(path@)),
{
    let name = name_of_path(path);
    let chars = chars_of(name.as_str());
    lower_chars(chars.as_slice())
}

/// Whether the pattern of dated logs is found in the name of `path`.
fn name_is_dated(path: &str) -> (r: bool)
    ensures
        r == is_dated(lower(file_name(path@))),
{
    let chars = lower_name(path);
    let name = string_of(chars.as_slice());
    finds_match(DATED_LOG_PATTERN, name.as_str())
}

pub fn is_potential_source_given_dated(path: &str, dated: bool) -> (r: bool)
    ensures
        r == is_potential_source(path@, dated),
{
    let name = lower_name(path);
    if name.len() == 0 {
        return false;
    }
    if is_text(name.as_slice(), "authenticationdatabase") {
        return true;
    }
    let extension = extension_of_path(path);
    let ext = chars_of(extension.as_str());
    if is_text(ext.as_slice(), "log") {
        let text = string_of(name.as_slice());
        return is_log_name_given_dated(text.as_str(), dated) || path_has_segment(path, "logs");
    }
    if is_text(ext.as_slice(), "gz") {
        return finishes_with(name.as_slice(), ".log.gz");
    }
    if !is_text(ext.as_slice(), "json") || is_blocked_json_name(name.as_slice()) {
        return false;
    }
    is_account_file_name(name.as_slice()) || (path_looks_minecraft_related(path)
        && name_has_account_hint(name.as_slice()))
}

pub fn is_potential_minecraft_source_file(path: &str) -> (r: bool)
    ensures
        r == is_potential_source(path@, is_dated(lower(file_name(path@)))),
{
    is_potential_source_given_dated(path, name_is_dated(path))
}

/// A log that is read: not too large, and with the name of a log of the game or
/// below a directory `logs`.
pub open spec fn is_read_as_log(path: Seq<char>, size: nat, dated: bool) -> bool {
    let name = lower(file_name(path));
    let ext = lower_extension(path);
    &&& size <= MAX_MINECRAFT_LOG_FILE_BYTES
    &&& ext == "log"@ || (ext == "gz"@ && ends_with(name, ".log.gz"@))
    &&& is_log_name(name, dated) || (has_segment(path, "logs"@) && ends_with(name, ".log"@))
}

pub fn should_scan_log_given_dated(path: &str, file_size: u64, dated: bool) -> (r: bool)
    ensures
        r == is_read_as_log(path@, file_size as nat, dated),
{
    if file_size > MAX_MINECRAFT_LOG_FILE_BYTES {
        return false;
    }
    let extension = extension_of_path(path);
    let ext = chars_of(extension.as_str());
    let name = lower_name(path);
    if !is_text(ext.as_slice(), "log") && !(is_text(ext.as_slice(), "gz") && finishes_with(
        name.as_slice(),
        ".log.gz",
    )) {
        return false;
    }
    let text = string_of(name.as_slice());
    is_log_name_given_dated(text.as_str(), dated) || (path_has_segment(path, "logs")
        && finishes_with(name.as_slice(), ".log"))
}

pub fn should_scan_minecraft_log(path: &str, file_size: u64) -> (r: bool)
    ensures
        r == is_read_as_log(path@, file_size as nat, is_dated(lower(file_name(path@)))),
{
    should_scan_log_given_dated(path, file_size, name_is_dated(path))
}

/// A JSON file that is read: not too large, not blocked, and an account file or
/// a file of the game with a telling name.
pub open spec fn is_read_as_json(path: Seq<char>, size: nat) -> bool {
    let name = lower(file_name(path));
    &&& size <= MAX_MINECRAFT_JSON_FILE_BYTES
    &&& !is_blocked_json(name)
    &&& lower_extension(path) == "json"@ || name == "authenticationdatabase"@
    &&& is_account_file(name) || (has_account_hint(name) && is_game_path(path))
}

pub fn should_scan_minecraft_json(path: &str, file_size: u64) -> (r: bool)
    ensures
        r == is_read_as_json(path@, file_size as nat),
{
    if file_size > MAX_MINECRAFT_JSON_FILE_BYTES {
        return false;
    }
    let name = lower_name(path);
    if is_blocked_json_name(name.as_slice()) {
        return false;
    }
    let extension = extension_of_path(path);
    let ext = chars_of(extension.as_str());
    if !is_text(ext.as_slice(), "json") && !is_text(name.as_slice(), "authenticationdatabase") {
        return false;
    }
    is_account_file_name(name.as_slice()) || (name_has_account_hint(name.as_slice())
        && path_looks_minecraft_related(path))
}

pub fn is_trusted_minecraft_account_file(path: &str) -> (r: bool)
    ensures
        r == is_account_file(lower(file_name(path@))),
{
    let name = lower_name(path);
    is_account_file_name(name.as_slice())
}

/// What is done with a file.
#[derive(Debug, Clone, Copy, PartialEq, Eq, Structural)]
pub enum FileAction {
    Ignore,
    ReadLog,
    ReadJson,
}

/// What is done with the file `path` of `size` bytes.
pub open spec fn file_action(path: Seq<char>, size: nat, dated: bool) -> FileAction {
    if !is_potential_source(path, dated) || size == 0 {
        FileAction::Ignore
    } else if is_read_as_log(path, size, dated) {
        FileAction::ReadLog
    } else if is_read_as_json(path, size) {
        FileAction::ReadJson
    } else {
        FileAction::Ignore
    }
}

pub fn file_action_given_dated(path: &str, file_size: u64, dated: bool) -> (r: FileAction)
    ensures
        r == file_action(path@, file_size as nat, dated),
{
    if !is_potential_source_given_dated(path, dated) || file_size == 0 {
        FileAction::Ignore
    } else if should_scan_log_given_dated(path, file_size, dated) {
        FileAction::ReadLog
    } else if should_scan_minecraft_json(path, file_size) {
        FileAction::ReadJson
    } else {
        FileAction::Ignore
    }
}

pub fn minecraft_file_action(path: &str, file_size: u64) -> (r: FileAction)
    ensures
        r == file_action(path@, file_size as nat, is_dated(lower(file_name(path@)))),
{
    file_action_given_dated(path, file_size, name_is_dated(path))
}

} // verus!
