//! What the command line of a running game says: whether it is Minecraft, which
//! version, loader and launcher, and where its files are.

use vstd::prelude::*;

use crate::json::{find_member, json_parsed, member, parse_json, Json, JsonView};
use crate::order::{is_stable_order, stable_order};
use crate::paths::{backslashed, join_path, joined};
use crate::text::{
    begins_with, char_is_digit, chars_of, contains, find_chars, first_at,
    has_text, head, is_digit, is_text_ignoring_case, last_at, lemma_split_whole, lower, lower_chars,
    push_chars, rfind_chars, same_ignoring_case, same_text, split, split_chars, starts_with,
    string_of, strip_start, tail, to_lower, trim, trim_chars, CharClass,
};
use crate::views::{opt_view, push_view, views};

verus! {

// ---------------------------------------------------------------------------
// Arguments
// ---------------------------------------------------------------------------

/// `s` without double, then without single quotes at its ends.
pub open spec fn bare(s: Seq<char>) -> Seq<char> {
    trim(trim(s, CharClass::Only('"')), CharClass::Only('\''))
}

fn bare_chars<'a>(s: &'a [char]) -> (r: &'a [char])
    ensures
        r@ == bare(s@),
{
    trim_chars(trim_chars(s, CharClass::Only('"')), CharClass::Only('\''))
}

pub fn strip_quotes(value: &str) -> (r: String)
    ensures
        r@ == bare(value@),
{
    let chars = chars_of(value);
    string_of(bare_chars(chars.as_slice()))
}

/// The value of a flag among the arguments from `i` on: the argument behind it,
/// or what stands behind `=`. A flag at the very end has none.
pub open spec fn flag_value(args: Seq<Seq<char>>, flag: Seq<char>, i: int) -> Option<Seq<char>>
    decreases args.len() - i,
{
    if i < 0 || i >= args.len() {
        None
    } else if same_ignoring_case(args[i], flag) {
        if i + 1 < args.len() {
            Some(bare(args[i + 1]))
        } else {
            None
        }
    } else if starts_with(args[i], flag + "="@) {
        Some(bare(args[i].skip((flag.len() + 1) as int)))
    } else {
        flag_value(args, flag, i + 1)
    }
}

fn with_equals(name: &str) -> (r: String)
    ensures
        r@ == name@ + "="@,
{
    let mut out = name.to_string();
    out.push_str("=");
    out
}

pub fn arg_value(args: &Vec<String>, flag: &str) -> (r: Option<String>)
    ensures
        opt_view(r) == flag_value(views(args@), flag@, 0),
{
    let ghost all = views(args@);
    let assignment = with_equals(flag);
    proof {
        reveal_strlit("=");
    }
    for i in 0..args.len()
        invariant
            all == views(args@),
            assignment@ == flag@ + "="@,
            assignment@.len() == flag@.len() + 1,
            flag_value(all, flag@, i as int) == flag_value(all, flag@, 0),
    {
        let chars = chars_of(args[i].as_str());
        assert(all[i as int] == chars@);
        if is_text_ignoring_case(chars.as_slice(), flag) {
            if args.len() - i > 1 {
                assert(all[i + 1] == args@[i + 1]@);
                return Some(strip_quotes(args[i + 1].as_str()));
            }
            return None;
        }
        if let Some(value) = strip_start(chars.as_slice(), assignment.as_str()) {
            return Some(string_of(bare_chars(value)));
        }
    }
    None
}

/// The value of a property among the arguments from `i` on: what stands behind
/// its name and `=`.
pub open spec fn property(args: Seq<Seq<char>>, name: Seq<char>, i: int) -> Option<Seq<char>>
    decreases args.len() - i,
{
    if i < 0 || i >= args.len() {
        None
    } else if starts_with(args[i], name + "="@) {
        Some(bare(args[i].skip((name.len() + 1) as int)))
    } else {
        property(args, name, i + 1)
    }
}

pub fn property_value(args: &Vec<String>, prefix: &str) -> (r: Option<String>)
    ensures
        opt_view(r) == property(views(args@), prefix@, 0),
{
    let ghost all = views(args@);
    let assignment = with_equals(prefix);
    proof {
        reveal_strlit("=");
    }
    for i in 0..args.len()
        invariant
            all == views(args@),
            assignment@ == prefix@ + "="@,
            assignment@.len() == prefix@.len() + 1,
            property(all, prefix@, i as int) == property(all, prefix@, 0),
    {
        let chars = chars_of(args[i].as_str());
        assert(all[i as int] == chars@);
        if let Some(value) = strip_start(chars.as_slice(), assignment.as_str()) {
            return Some(string_of(bare_chars(value)));
        }
    }
    None
}

pub open spec fn has_flag(args: Seq<Seq<char>>, flag: Seq<char>) -> bool {
    flag_value(args, flag, 0) is Some
}

/// The class that starts the game is on the command line.
pub open spec fn has_main_class(line: Seq<char>) -> bool {
    ||| contains(line, "net.minecraft.client.main.main"@)
    ||| contains(line, "net.fabricmc.loader.impl.launch.knot.knotclient"@)
    ||| contains(line, "net.fabricmc.loader.launch.knot.knotclient"@)
    ||| contains(line, "cpw.mods.modlauncher.launcher"@)
    ||| contains(line, "net.minecraft.launchwrapper.launch"@)
}

/// The arguments and the command line, in lower case, are those of the game:
/// its directory and assets, or its version and a user, or its main class.
pub open spec fn is_game(args: Seq<Seq<char>>, line: Seq<char>) -> bool {
    ||| (has_flag(args, "--gameDir"@) || property(args, "-Dminecraft.gamedir"@, 0) is Some) && (
    has_flag(args, "--assetsDir"@) || has_flag(args, "--assetIndex"@))
    ||| has_flag(args, "--version"@) && (has_flag(args, "--uuid"@) || has_flag(
        args,
        "--accessToken"@,
    ) || has_flag(args, "--userType"@))
    ||| has_main_class(line)
}

pub fn detect_indicators(args: &Vec<String>, cmdline_lower: &str) -> (r: bool)
    ensures
        r == is_game(views(args@), cmdline_lower@),
{
    let has_game_dir = arg_value(args, "--gameDir").is_some() || property_value(
        args,
        "-Dminecraft.gamedir",
    ).is_some();
    let has_assets = arg_value(args, "--assetsDir").is_some() || arg_value(
        args,
        "--assetIndex",
    ).is_some();
    let has_version = arg_value(args, "--version").is_some();
    let has_identity = arg_value(args, "--uuid").is_some() || arg_value(
        args,
        "--accessToken",
    ).is_some() || arg_value(args, "--userType").is_some();
    let chars = chars_of(cmdline_lower);
    let line = chars.as_slice();
    let has_main = has_text(line, "net.minecraft.client.main.main") || has_text(
        line,
        "net.fabricmc.loader.impl.launch.knot.knotclient",
    ) || has_text(line, "net.fabricmc.loader.launch.knot.knotclient") || has_text(
        line,
        "cpw.mods.modlauncher.launcher",
    ) || has_text(line, "net.minecraft.launchwrapper.launch");
    (has_game_dir && has_assets) || (has_version && has_identity) || has_main
}

// ---------------------------------------------------------------------------
// Versions
// ---------------------------------------------------------------------------

pub open spec fn count_digits(s: Seq<char>) -> nat
    decreases s.len(),
{
    if s.len() == 0 {
        0
    } else {
        count_digits(s.drop_last()) + if is_digit(s.last()) {
            1nat
        } else {
            0nat
        }
    }
}

/// Dots and digits only, at least one and two of them.
pub open spec fn is_version(s: Seq<char>) -> bool {
    &&& forall|i: int| 0 <= i < s.len() ==> #[trigger] s[i] == '.' || is_digit(s[i])
    &&& count_digits(s) >= 2
    &&& s.len() - count_digits(s) >= 1
}

fn chars_are_version(s: &[char]) -> (r: bool)
    ensures
        r == is_version(s@),
{
    let mut digits: usize = 0;
    for i in 0..s.len()
        invariant
            digits <= i,
            digits as nat == count_digits(s@.take(i as int)),
            forall|j: int| 0 <= j < i ==> #[trigger] s@[j] == '.' || is_digit(s@[j]),
    {
        assert(s@.take(i + 1).drop_last() =~= s@.take(i as int));
        if char_is_digit(s[i]) {
            digits = digits + 1;
        } else if s[i] != '.' {
            return false;
        }
    }
    assert(s@.take(s@.len() as int) =~= s@);
    digits >= 2 && s.len() - digits >= 1
}

pub fn is_mc_version(value: &str) -> (r: bool)
    ensures
        r == is_version(value@),
{
    let chars = chars_of(value);
    chars_are_version(chars.as_slice())
}

/// The last of `parts` that is a version.
pub open spec fn last_version(parts: Seq<Seq<char>>) -> Option<Seq<char>>
    decreases parts.len(),
{
    if parts.len() == 0 {
        None
    } else if is_version(parts.last()) {
        Some(parts.last())
    } else {
        last_version(parts.drop_last())
    }
}

/// The version in the name of an installation: the last version between hyphens.
pub open spec fn version_in(id: Seq<char>) -> Option<Seq<char>> {
    last_version(split(trim(id, CharClass::Space), CharClass::Only('-')))
}

pub fn extract_mc_version(id: &str) -> (r: Option<String>)
    ensures
        opt_view(r) == version_in(id@),
{
    let chars = chars_of(id);
    let cleaned = trim_chars(chars.as_slice(), CharClass::Space);
    let parts = split_chars(cleaned, CharClass::Only('-'));
    let ghost all = views(parts@);
    let mut n: usize = parts.len();
    assert(all.take(n as int) =~= all);
    while n > 0
        invariant
            n <= parts@.len(),
            all == views(parts@),
            last_version(all.take(n as int)) == version_in(id@),
        decreases n,
    {
        assert(all.take(n as int).drop_last() =~= all.take(n - 1));
        assert(all.take(n as int).last() == parts@[n - 1]@);
        if chars_are_version(parts[n - 1].as_slice()) {
            return Some(string_of(parts[n - 1].as_slice()));
        }
        n = n - 1;
    }
    None
}

/// A text without hyphens that is a version is the version in it.
pub proof fn law_plain_version(id: Seq<char>)
    requires
        is_version(id),
    ensures
        version_in(id) == Some(id),
{
    lemma_split_whole(id, CharClass::Only('-'));
    assert(id[0] == '.' || is_digit(id[0]));
    assert(id[id.len() - 1] == '.' || is_digit(id[id.len() - 1]));
    assert(trim(id, CharClass::Space) == id);
    assert(seq![id].last() == id);
}

/// What stands behind the first `\versions\`, looked for in `low`, of `s`.
pub open spec fn behind_versions(s: Seq<char>, low: Seq<char>) -> Option<Seq<char>> {
    match first_at(low, "\\versions\\"@) {
        Some(pos) => Some(s.skip(pos + 10)),
        None => None,
    }
}

/// The first piece of what stands behind `\versions\`.
pub open spec fn versions_folder(s: Seq<char>, low: Seq<char>) -> Option<Seq<char>> {
    match behind_versions(s, low) {
        Some(rest) => Some(split(rest, CharClass::Separator)[0]),
        None => None,
    }
}

fn find_versions(low: &[char]) -> (r: Option<usize>)
    ensures
        match r {
            Some(pos) => first_at(low@, "\\versions\\"@) == Some(pos as int) && pos + 10
                <= low@.len(),
            None => first_at(low@, "\\versions\\"@) is None,
        },
{
    let marker = chars_of("\\versions\\");
    proof {
        reveal_strlit("\\versions\\");
    }
    find_chars(low, marker.as_slice())
}

/// The folder below `versions` in the first entry of a class path that names one.
pub open spec fn classpath_version(entries: Seq<Seq<char>>) -> Option<Seq<char>>
    decreases entries.len(),
{
    if entries.len() == 0 {
        None
    } else {
        match versions_folder(entries[0], lower(entries[0])) {
            Some(id) => if id.len() > 0 {
                Some(id)
            } else {
                classpath_version(entries.skip(1))
            },
            None => classpath_version(entries.skip(1)),
        }
    }
}

pub fn extract_version_from_classpath(classpath: &str) -> (r: Option<String>)
    ensures
        opt_view(r) == classpath_version(split(classpath@, CharClass::Only(';'))),
{
    let chars = chars_of(classpath);
    let entries = split_chars(chars.as_slice(), CharClass::Only(';'));
    let ghost all = views(entries@);
    assert(all.skip(0) =~= all);
    for i in 0..entries.len()
        invariant
            all == views(entries@),
            all == split(classpath@, CharClass::Only(';')),
            classpath_version(all.skip(i as int)) == classpath_version(all),
    {
        let entry = &entries[i];
        assert(all.skip(i as int)[0] == entry@);
        assert(all.skip(i as int).skip(1) =~= all.skip(i + 1));
        let low = lower_chars(entry.as_slice());
        let size: usize = entry.len();
        if let Some(pos) = find_versions(low.as_slice()) {
            assert(pos + 10 <= size);
            let pieces = split_chars(tail(entry.as_slice(), pos + 10), CharClass::Separator);
            assert(views(pieces@)[0] == pieces@[0]@);
            if pieces[0].len() > 0 {
                return Some(string_of(pieces[0].as_slice()));
            }
        }
    }
    None
}

/// The folder below `versions` that a command line names.
pub fn extract_version_from_cmdline(cmdline_lower: &str) -> (r: Option<String>)
    ensures
        opt_view(r) == versions_folder(cmdline_lower@, cmdline_lower@),
{
    let line = chars_of(cmdline_lower);
    let size: usize = line.len();
    match find_versions(line.as_slice()) {
        Some(pos) => {
            assert(pos + 10 <= size);
            let pieces = split_chars(tail(line.as_slice(), pos + 10), CharClass::Separator);
            assert(views(pieces@)[0] == pieces@[0]@);
            Some(string_of(pieces[0].as_slice()))
        },
        None => None,
    }
}

/// The class path among the arguments.
pub open spec fn classpath(args: Seq<Seq<char>>) -> Option<Seq<char>> {
    match flag_value(args, "-cp"@, 0) {
        Some(value) => Some(value),
        None => flag_value(args, "-classpath"@, 0),
    }
}

fn classpath_of(args: &Vec<String>) -> (r: Option<String>)
    ensures
        opt_view(r) == classpath(views(args@)),
{
    match arg_value(args, "-cp") {
        Some(value) => Some(value),
        None => arg_value(args, "-classpath"),
    }
}

/// The name of the installation that runs: from the flags, the class path, or,
/// where the directory of the game is known, the command line or what is
/// installed there.
pub open spec fn version_id(
    args: Seq<Seq<char>>,
    line: Seq<char>,
    has_game_dir: bool,
    installed: Option<Seq<char>>,
) -> Seq<char> {
    let from_path = match classpath(args) {
        Some(value) => classpath_version(split(value, CharClass::Only(';'))),
        None => None,
    };
    if flag_value(args, "--version"@, 0) is Some {
        flag_value(args, "--version"@, 0)->0
    } else if flag_value(args, "--fml.mcVersion"@, 0) is Some {
        flag_value(args, "--fml.mcVersion"@, 0)->0
    } else if from_path is Some {
        from_path->0
    } else if has_game_dir && versions_folder(line, line) is Some {
        versions_folder(line, line)->0
    } else if has_game_dir && installed is Some {
        installed->0
    } else {
        "Unknown"@
    }
}

/// The name of the installation that runs; `installed` is the version that the
/// directory of the game holds.
pub fn detect_version_id(
    args: &Vec<String>,
    cmdline_lower: &str,
    game_dir: &Option<String>,
    installed: Option<String>,
) -> (r: String)
    ensures
        r@ == version_id(views(args@), cmdline_lower@, game_dir is Some, opt_view(installed)),
{
    if let Some(value) = arg_value(args, "--version") {
        return value;
    }
    if let Some(value) = arg_value(args, "--fml.mcVersion") {
        return value;
    }
    if let Some(value) = classpath_of(args) {
        if let Some(id) = extract_version_from_classpath(value.as_str()) {
            return id;
        }
    }
    if game_dir.is_some() {
        if let Some(id) = extract_version_from_cmdline(cmdline_lower) {
            return id;
        }
        if let Some(version) = installed {
            return version;
        }
    }
    "Unknown".to_string()
}

/// The version that runs, from the name of the installation.
pub open spec fn shown_version(id: Seq<char>) -> Seq<char> {
    if id == "Unknown"@ {
        "Unknown"@
    } else {
        match version_in(id) {
            Some(v) => v,
            None => id,
        }
    }
}

pub fn version_of_id(id: &str) -> (r: String)
    ensures
        r@ == shown_version(id@),
{
    if same_text(id, "Unknown") {
        return "Unknown".to_string();
    }
    match extract_mc_version(id) {
        Some(v) => v,
        None => id.to_string(),
    }
}

/// The text of the member `key` of an object.
pub open spec fn text_member(value: JsonView, key: Seq<char>) -> Option<Seq<char>> {
    match value {
        JsonView::Object(members) => match member(members, key) {
            Some(JsonView::Text(text)) => Some(text),
            _ => None,
        },
        _ => None,
    }
}

/// The version in the member `key` of an object.
pub open spec fn version_member(value: JsonView, key: Seq<char>) -> Option<Seq<char>> {
    match text_member(value, key) {
        Some(text) => version_in(text),
        None => None,
    }
}

/// The version that a description of an installation gives: the one it builds
/// on, else its own.
pub open spec fn described_version(value: JsonView) -> Option<Seq<char>> {
    match version_member(value, "inheritsFrom"@) {
        Some(v) => Some(v),
        None => version_member(value, "id"@),
    }
}

fn version_of_member(value: &Json, key: &str) -> (r: Option<String>)
    ensures
        opt_view(r) == version_member(value.model(), key@),
{
    match value {
        Json::Object(members) => match find_member(members, key) {
            Some(Json::Text(text)) => extract_mc_version(text.as_str()),
            _ => None,
        },
        _ => None,
    }
}

pub fn version_in_json(value: &Json) -> (r: Option<String>)
    ensures
        opt_view(r) == described_version(value.model()),
{
    match version_of_member(value, "inheritsFrom") {
        Some(v) => Some(v),
        None => version_of_member(value, "id"),
    }
}

/// The version that the text of a description gives.
pub fn read_version_json(contents: &str) -> (r: Option<String>)
    ensures
        opt_view(r) == match json_parsed(contents@) {
            Some(value) => described_version(value),
            None => None,
        },
{
    match parse_json(contents) {
        Some(value) => version_in_json(&value),
        None => None,
    }
}

// ---------------------------------------------------------------------------
// Paths
// ---------------------------------------------------------------------------

/// The path of the archive of the installation `folder` below `prefix`.
pub open spec fn jar_path(prefix: Seq<char>, folder: Seq<char>) -> Seq<char> {
    joined(joined(joined(prefix, "versions"@), folder), folder + ".jar"@)
}

pub fn version_jar_path(dir: &str, version_id: &str) -> (r: String)
    ensures
        r@ == jar_path(dir@, version_id@),
{
    let a = join_path(dir, "versions");
    let b = join_path(a.as_str(), version_id);
    let mut file = version_id.to_string();
    file.push_str(".jar");
    join_path(b.as_str(), file.as_str())
}

/// The path of the archive below `prefix`, with backslashes alone. It is never empty.
pub fn build_version_jar_path(prefix: &str, folder: &str) -> (r: Option<String>)
    ensures
        opt_view(r) == Some(backslashed(jar_path(prefix@, folder@))),
{
    let path = version_jar_path(prefix, folder);
    let chars = chars_of(path.as_str());
    let back = crate::paths::to_backslashes(chars.as_slice());
    Some(string_of(back.as_slice()))
}

/// The folder and the prefix of an archive that `s` names: behind `\versions\`
/// stand a folder and an archive of the same name.
pub open spec fn named_jar(s: Seq<char>, low: Seq<char>) -> Option<(Seq<char>, Seq<char>)> {
    match first_at(low, "\\versions\\"@) {
        Some(pos) => {
            let pieces = split(s.skip(pos + 10), CharClass::Separator);
            if pieces.len() < 2 {
                None
            } else {
                let folder = bare(pieces[0]);
                if same_ignoring_case(bare(pieces[1]), folder + ".jar"@) {
                    Some((folder, s.take(pos)))
                } else {
                    None
                }
            }
        },
        None => None,
    }
}

fn find_named_jar(s: &[char], low: &[char]) -> (r: Option<(String, usize)>)
    requires
        s@.len() == low@.len(),
    ensures
        match r {
            Some((folder, pos)) => pos <= s@.len() && named_jar(s@, low@) == Some(
                (folder@, s@.take(pos as int)),
            ),
            None => named_jar(s@, low@) is None,
        },
{
    let size: usize = s.len();
    match find_versions(low) {
        Some(pos) => {
            assert(pos + 10 <= size);
            let pieces = split_chars(tail(s, pos + 10), CharClass::Separator);
            let ghost all = split(s@.skip(pos + 10), CharClass::Separator);
            assert(all.len() == pieces@.len());
            if pieces.len() < 2 {
                return None;
            }
            assert(all[0] == pieces@[0]@ && all[1] == pieces@[1]@);
            let folder = string_of(bare_chars(pieces[0].as_slice()));
            let mut expected = folder.clone();
            expected.push_str(".jar");
            if is_text_ignoring_case(bare_chars(pieces[1].as_slice()), expected.as_str()) {
                Some((folder, pos))
            } else {
                None
            }
        },
        None => None,
    }
}

/// The archive that an entry of a class path is.
pub open spec fn entry_jar(entry: Seq<char>) -> Option<Seq<char>> {
    match named_jar(entry, lower(entry)) {
        Some((folder, before)) => Some(backslashed(jar_path(bare(before), folder))),
        None => None,
    }
}

fn jar_of_entry(entry: &[char]) -> (r: Option<String>)
    ensures
        opt_view(r) == entry_jar(entry@),
{
    let low = lower_chars(entry);
    match find_named_jar(entry, low.as_slice()) {
        Some((folder, pos)) => {
            let prefix = string_of(bare_chars(head(entry, pos)));
            build_version_jar_path(prefix.as_str(), folder.as_str())
        },
        None => None,
    }
}

pub fn extract_version_jar_path(entry: &str) -> (r: Option<String>)
    ensures
        opt_view(r) == entry_jar(entry@),
{
    let chars = chars_of(entry);
    jar_of_entry(chars.as_slice())
}

/// The first archive among the entries of a class path.
pub open spec fn classpath_jar(entries: Seq<Seq<char>>) -> Option<Seq<char>>
    decreases entries.len(),
{
    if entries.len() == 0 {
        None
    } else {
        match entry_jar(entries[0]) {
            Some(path) => Some(path),
            None => classpath_jar(entries.skip(1)),
        }
    }
}

pub fn extract_version_jar_from_classpath(classpath: &str) -> (r: Option<String>)
    ensures
        opt_view(r) == classpath_jar(split(classpath@, CharClass::Only(';'))),
{
    let chars = chars_of(classpath);
    let entries = split_chars(chars.as_slice(), CharClass::Only(';'));
    let ghost all = views(entries@);
    assert(all.skip(0) =~= all);
    for i in 0..entries.len()
        invariant
            all == views(entries@),
            all == split(classpath@, CharClass::Only(';')),
            classpath_jar(all.skip(i as int)) == classpath_jar(all),
    {
        assert(all.skip(i as int)[0] == entries@[i as int]@);
        assert(all.skip(i as int).skip(1) =~= all.skip(i + 1));
        if let Some(path) = jar_of_entry(entries[i].as_slice()) {
            return Some(path);
        }
    }
    None
}

/// The archive that a command line names: the path to it starts with the letter
/// before the last `:\` in front of it.
pub open spec fn cmdline_jar(line: Seq<char>) -> Option<Seq<char>> {
    match named_jar(line, line) {
        Some((folder, before)) => match last_at(before, ":\\"@) {
            Some(colon) => {
                let start = if colon > 0 {
                    colon - 1
                } else {
                    0
                };
                Some(backslashed(jar_path(bare(before.skip(start)), folder)))
            },
            None => None,
        },
        None => None,
    }
}

pub fn extract_version_jar_from_cmdline(cmdline_lower: &str) -> (r: Option<String>)
    ensures
        opt_view(r) == cmdline_jar(cmdline_lower@),
{
    let line = chars_of(cmdline_lower);
    match find_named_jar(line.as_slice(), line.as_slice()) {
        Some((folder, pos)) => {
            let before = head(line.as_slice(), pos);
            let colon = chars_of(":\\");
            match rfind_chars(before, colon.as_slice()) {
                Some(at) => {
                    let start: usize = if at > 0 {
                        at - 1
                    } else {
                        0
                    };
                    let prefix = string_of(bare_chars(tail(before, start)));
                    build_version_jar_path(prefix.as_str(), folder.as_str())
                },
                None => None,
            }
        },
        None => None,
    }
}

/// The archive of the installation that runs: from the class path, else, where
/// the directory of the game is known, the archive in it, where there is one
/// (`exists`), or the one that the command line names.
pub open spec fn version_jar(
    args: Seq<Seq<char>>,
    line: Seq<char>,
    game_dir: Option<Seq<char>>,
    id: Seq<char>,
    exists: bool,
) -> Seq<char> {
    let from_path = match classpath(args) {
        Some(value) => classpath_jar(split(value, CharClass::Only(';'))),
        None => None,
    };
    match (from_path, game_dir) {
        (Some(path), _) => path,
        (None, Some(dir)) => if id != "Unknown"@ && exists {
            jar_path(dir, id)
        } else {
            match cmdline_jar(line) {
                Some(path) => path,
                None => "Unknown"@,
            }
        },
        (None, None) => "Unknown"@,
    }
}

/// The archive of the installation that runs; `jar_is_file` says whether the
/// one in the directory of the game is there.
pub fn detect_version_jar(
    args: &Vec<String>,
    cmdline_lower: &str,
    game_dir: &Option<String>,
    version_id: &str,
    jar_is_file: bool,
) -> (r: String)
    ensures
        r@ == version_jar(
            views(args@),
            cmdline_lower@,
            opt_view(*game_dir),
            version_id@,
            jar_is_file,
        ),
{
    if let Some(value) = classpath_of(args) {
        if let Some(path) = extract_version_jar_from_classpath(value.as_str()) {
            return path;
        }
    }
    if let Some(dir) = game_dir {
        if !same_text(version_id, "Unknown") && jar_is_file {
            return version_jar_path(dir.as_str(), version_id);
        }
        if let Some(path) = extract_version_jar_from_cmdline(cmdline_lower) {
            return path;
        }
    }
    "Unknown".to_string()
}

/// The profile of a launcher that a command line names behind `marker`.
pub open spec fn instance_path(line: Seq<char>, marker: Seq<char>) -> Option<Seq<char>> {
    match first_at(line, lower(marker)) {
        Some(pos) => {
            let profile = split(line.skip((pos + marker.len()) as int), CharClass::Separator)[0];
            if profile.len() == 0 {
                None
            } else {
                Some(backslashed(line.take(pos) + marker + profile))
            }
        },
        None => None,
    }
}

pub fn extract_instance_path(cmdline_lower: &str, marker: &str) -> (r: Option<String>)
    ensures
        opt_view(r) == instance_path(cmdline_lower@, marker@),
{
    let line = chars_of(cmdline_lower);
    let mark = chars_of(marker);
    let low = lower_chars(mark.as_slice());
    let size: usize = line.len();
    match find_chars(line.as_slice(), low.as_slice()) {
        Some(pos) => {
            assert(pos + marker@.len() <= size);
            let pieces = split_chars(tail(line.as_slice(), pos + low.len()), CharClass::Separator);
            assert(views(pieces@)[0] == pieces@[0]@);
            if pieces[0].len() == 0 {
                return None;
            }
            let mut full = string_of(head(line.as_slice(), pos));
            full.push_str(marker);
            push_chars(&mut full, pieces[0].as_slice());
            let chars = chars_of(full.as_str());
            let back = crate::paths::to_backslashes(chars.as_slice());
            Some(string_of(back.as_slice()))
        },
        None => None,
    }
}

/// The directory of the game: from the arguments, else a profile that the
/// command line names, else the usual one where `appdata` is known.
pub open spec fn game_dir(args: Seq<Seq<char>>, line: Seq<char>, appdata: Option<Seq<char>>) -> Option<
    Seq<char>,
> {
    if flag_value(args, "--gameDir"@, 0) is Some {
        flag_value(args, "--gameDir"@, 0)
    } else if property(args, "-Dminecraft.gamedir"@, 0) is Some {
        property(args, "-Dminecraft.gamedir"@, 0)
    } else if instance_path(line, "modrinthapp\\profiles\\"@) is Some {
        instance_path(line, "modrinthapp\\profiles\\"@)
    } else if instance_path(line, ".lunarclient\\profiles\\"@) is Some {
        instance_path(line, ".lunarclient\\profiles\\"@)
    } else if instance_path(line, ".tlauncher\\profiles\\"@) is Some {
        instance_path(line, ".tlauncher\\profiles\\"@)
    } else {
        match appdata {
            Some(dir) => Some(joined(dir, ".minecraft"@)),
            None => None,
        }
    }
}

pub fn detect_game_dir(args: &Vec<String>, cmdline_lower: &str, appdata: &Option<String>) -> (r:
    Option<String>)
    ensures
        opt_view(r) == game_dir(views(args@), cmdline_lower@, opt_view(*appdata)),
{
    if let Some(value) = arg_value(args, "--gameDir") {
        return Some(value);
    }
    if let Some(value) = property_value(args, "-Dminecraft.gamedir") {
        return Some(value);
    }
    if let Some(path) = extract_instance_path(cmdline_lower, "modrinthapp\\profiles\\") {
        return Some(path);
    }
    if let Some(path) = extract_instance_path(cmdline_lower, ".lunarclient\\profiles\\") {
        return Some(path);
    }
    if let Some(path) = extract_instance_path(cmdline_lower, ".tlauncher\\profiles\\") {
        return Some(path);
    }
    match appdata {
        Some(dir) => Some(join_path(dir.as_str(), ".minecraft")),
        None => None,
    }
}

// ---------------------------------------------------------------------------
// Loader and launcher
// ---------------------------------------------------------------------------

/// Some argument contains the class of a Forge tweaker.
pub open spec fn has_tweaker(args: Seq<Seq<char>>) -> bool {
    exists|i: int|
        0 <= i < args.len() && (contains(#[trigger] args[i], "ForgeTweaker"@) || contains(
            args[i],
            "FMLTweaker"@,
        ))
}

fn any_tweaker(args: &Vec<String>) -> (r: bool)
    ensures
        r == has_tweaker(views(args@)),
{
    let ghost all = views(args@);
    for i in 0..args.len()
        invariant
            all == views(args@),
            forall|j: int|
                0 <= j < i ==> !contains(#[trigger] all[j], "ForgeTweaker"@) && !contains(
                    all[j],
                    "FMLTweaker"@,
                ),
    {
        let chars = chars_of(args[i].as_str());
        assert(all[i as int] == chars@);
        if has_text(chars.as_slice(), "ForgeTweaker") || has_text(chars.as_slice(), "FMLTweaker") {
            return true;
        }
    }
    assert(all.len() == args@.len());
    false
}

pub open spec fn loader_name(args: Seq<Seq<char>>, line: Seq<char>) -> Seq<char> {
    if contains(line, "laby"@) || contains(line, "labymod"@) {
        "LabyMod"@
    } else if contains(line, "fabric-loader"@) || contains(line, "net.fabricmc"@) || contains(
        line,
        "knotclient"@,
    ) {
        "Fabric"@
    } else if contains(line, "forge"@) || contains(line, "fml"@) || contains(line, "modlauncher"@) {
        "Forge"@
    } else if contains(line, "quilt"@) {
        "Quilt"@
    } else if contains(line, "net.minecraft.client.main.main"@) {
        "Vanilla"@
    } else if has_tweaker(args) {
        "Forge"@
    } else {
        "Unknown"@
    }
}

pub fn detect_loader(args: &Vec<String>, cmdline_lower: &str) -> (r: String)
    ensures
        r@ == loader_name(views(args@), cmdline_lower@),
{
    let chars = chars_of(cmdline_lower);
    let line = chars.as_slice();
    if has_text(line, "laby") || has_text(line, "labymod") {
        return "LabyMod".to_string();
    }
    if has_text(line, "fabric-loader") || has_text(line, "net.fabricmc") || has_text(
        line,
        "knotclient",
    ) {
        return "Fabric".to_string();
    }
    if has_text(line, "forge") || has_text(line, "fml") || has_text(line, "modlauncher") {
        return "Forge".to_string();
    }
    if has_text(line, "quilt") {
        return "Quilt".to_string();
    }
    if has_text(line, "net.minecraft.client.main.main") {
        return "Vanilla".to_string();
    }
    if any_tweaker(args) {
        return "Forge".to_string();
    }
    "Unknown".to_string()
}

/// The launcher that names itself `value`; an unknown one keeps its name.
pub open spec fn launcher_brand(value: Seq<char>) -> Seq<char> {
    let v = lower(value);
    if contains(v, "tlauncher"@) {
        "TLauncher"@
    } else if contains(v, "legacy"@) {
        "Legacy"@
    } else if contains(v, "modrinth"@) {
        "Modrinth"@
    } else if contains(v, "lunar"@) {
        "Lunar"@
    } else if contains(v, "laby"@) {
        "LabyMod"@
    } else if contains(v, "official"@) || contains(v, "minecraft"@) {
        "Official"@
    } else {
        value
    }
}

pub fn normalize_launcher(value: &str) -> (r: String)
    ensures
        r@ == launcher_brand(value@),
{
    let chars = chars_of(value);
    let low = lower_chars(chars.as_slice());
    let v = low.as_slice();
    if has_text(v, "tlauncher") {
        return "TLauncher".to_string();
    }
    if has_text(v, "legacy") {
        return "Legacy".to_string();
    }
    if has_text(v, "modrinth") {
        return "Modrinth".to_string();
    }
    if has_text(v, "lunar") {
        return "Lunar".to_string();
    }
    if has_text(v, "laby") {
        return "LabyMod".to_string();
    }
    if has_text(v, "official") || has_text(v, "minecraft") {
        return "Official".to_string();
    }
    value.to_string()
}

/// A text, in lower case, that names the Legacy launcher.
pub open spec fn names_legacy(s: Seq<char>) -> bool {
    ||| contains(s, "legacylauncher"@)
    ||| contains(s, "\\.tlauncher\\legacy"@)
    ||| contains(s, "\\tlauncher\\legacy"@)
    ||| contains(s, "/.tlauncher/legacy"@)
    ||| contains(s, "/tlauncher/legacy"@)
}

fn text_names_legacy(s: &[char]) -> (r: bool)
    ensures
        r == names_legacy(s@),
{
    has_text(s, "legacylauncher") || has_text(s, "\\.tlauncher\\legacy") || has_text(
        s,
        "\\tlauncher\\legacy",
    ) || has_text(s, "/.tlauncher/legacy") || has_text(s, "/tlauncher/legacy")
}

pub open spec fn launcher_name(args: Seq<Seq<char>>, line: Seq<char>, parent: Seq<char>) -> Seq<char> {
    let p = lower(parent);
    match property(args, "-Dminecraft.launcher.brand"@, 0) {
        Some(value) => launcher_brand(value),
        None => if names_legacy(p) || names_legacy(line) {
            "Legacy"@
        } else if contains(p, "tlauncher"@) || contains(line, "tlauncher"@) {
            "TLauncher"@
        } else if contains(p, "modrinth"@) || contains(line, "modrinthapp"@) {
            "Modrinth"@
        } else if contains(p, "lunar"@) || contains(line, ".lunarclient"@) {
            "Lunar"@
        } else if contains(p, "labymod"@) || contains(line, "labymod"@) {
            "LabyMod"@
        } else if contains(p, "minecraftlauncher"@) {
            "Official"@
        } else {
            "Unknown"@
        },
    }
}

pub fn detect_launcher(args: &Vec<String>, cmdline_lower: &str, parent_exe: &str) -> (r: String)
    ensures
        r@ == launcher_name(views(args@), cmdline_lower@, parent_exe@),
{
    if let Some(value) = property_value(args, "-Dminecraft.launcher.brand") {
        return normalize_launcher(value.as_str());
    }
    let parent_chars = chars_of(parent_exe);
    let parent_low = lower_chars(parent_chars.as_slice());
    let parent = parent_low.as_slice();
    let line_chars = chars_of(cmdline_lower);
    let line = line_chars.as_slice();
    if text_names_legacy(parent) || text_names_legacy(line) {
        return "Legacy".to_string();
    }
    if has_text(parent, "tlauncher") || has_text(line, "tlauncher") {
        return "TLauncher".to_string();
    }
    if has_text(parent, "modrinth") || has_text(line, "modrinthapp") {
        return "Modrinth".to_string();
    }
    if has_text(parent, "lunar") || has_text(line, ".lunarclient") {
        return "Lunar".to_string();
    }
    if has_text(parent, "labymod") || has_text(line, "labymod") {
        return "LabyMod".to_string();
    }
    if has_text(parent, "minecraftlauncher") {
        return "Official".to_string();
    }
    "Unknown".to_string()
}

// ---------------------------------------------------------------------------
// Modifications
// ---------------------------------------------------------------------------

/// What is found below the directory of the game: whether it has the
/// directories of LabyMod, the directory of its addons, whether there is one of
/// modifications, and those of Lunar in the game's and in the user's directory.
#[derive(Debug, Clone)]
pub struct ModsFacts {
    pub has_laby_dir: bool,
    pub addons_dir: Option<String>,
    pub mods_is_dir: bool,
    pub lunar_mods_is_dir: bool,
    pub appdata_lunar_mods: Option<String>,
}

/// The directory of the modifications.
pub open spec fn mods_dir(
    game_dir: Option<Seq<char>>,
    loader: Seq<char>,
    launcher: Seq<char>,
    facts: ModsFacts,
) -> Seq<char> {
    match game_dir {
        None => "Not found"@,
        Some(dir) => {
            let laby = same_ignoring_case(loader, "LabyMod"@) || same_ignoring_case(
                launcher,
                "LabyMod"@,
            ) || facts.has_laby_dir;
            if laby && facts.addons_dir is Some {
                facts.addons_dir->0@
            } else if facts.mods_is_dir {
                joined(dir, "mods"@)
            } else if same_ignoring_case(launcher, "Lunar"@) && facts.lunar_mods_is_dir {
                joined(joined(dir, ".lunarclient"@), "mods"@)
            } else if same_ignoring_case(launcher, "Lunar"@) && facts.appdata_lunar_mods is Some {
                facts.appdata_lunar_mods->0@
            } else {
                "Not found"@
            }
        },
    }
}

pub fn detect_mods_dir(
    game_dir: &Option<String>,
    loader: &str,
    launcher: &str,
    facts: &ModsFacts,
) -> (r: String)
    ensures
        r@ == mods_dir(opt_view(*game_dir), loader@, launcher@, *facts),
{
    let dir = match game_dir {
        Some(dir) => dir,
        None => {
            return "Not found".to_string();
        },
    };
    let loader_chars = chars_of(loader);
    let launcher_chars = chars_of(launcher);
    let laby = is_text_ignoring_case(loader_chars.as_slice(), "LabyMod") || is_text_ignoring_case(
        launcher_chars.as_slice(),
        "LabyMod",
    ) || facts.has_laby_dir;
    if laby {
        if let Some(path) = &facts.addons_dir {
            return path.clone();
        }
    }
    if facts.mods_is_dir {
        return join_path(dir.as_str(), "mods");
    }
    if is_text_ignoring_case(launcher_chars.as_slice(), "Lunar") {
        if facts.lunar_mods_is_dir {
            let lunar = join_path(dir.as_str(), ".lunarclient");
            return join_path(lunar.as_str(), "mods");
        }
        if let Some(path) = &facts.appdata_lunar_mods {
            return path.clone();
        }
    }
    "Not found".to_string()
}

/// The directory of the addons for `version`, where that is known.
pub fn preferred_addons_dir(version: &str) -> (r: Option<String>)
    ensures
        opt_view(r) == if version@ == "Unknown"@ {
            None
        } else {
            Some("addons-"@ + version@)
        },
{
    if same_text(version, "Unknown") {
        return None;
    }
    let mut name = "addons-".to_string();
    name.push_str(version);
    Some(name)
}

/// A directory of addons, for whatever version.
pub fn is_addons_dir_name(name: &str) -> (r: bool)
    ensures
        r == starts_with(lower(name@), "addons-"@),
{
    let chars = chars_of(name);
    let low = lower_chars(chars.as_slice());
    begins_with(low.as_slice(), "addons-")
}

#[derive(Clone, Debug)]
pub struct ModEntry {
    pub name: String,
    pub size_bytes: u64,
    pub path: String,
}

#[verifier::ext_equal]
pub struct ModView {
    pub name: Seq<char>,
    pub size_bytes: u64,
    pub path: Seq<char>,
}

impl View for ModEntry {
    type V = ModView;

    open spec fn view(&self) -> ModView {
        ModView { name: self.name@, size_bytes: self.size_bytes, path: self.path@ }
    }
}

/// A file that is a modification: an archive.
pub fn is_mod_file(path: &str) -> (r: bool)
    ensures
        r == (crate::paths::lower_extension(path@) == "jar"@ || crate::paths::lower_extension(path@)
            == "zip"@),
{
    let ext = crate::paths::extension_of_path(path);
    same_text(ext.as_str(), "jar") || same_text(ext.as_str(), "zip")
}

pub open spec fn lower_names(mods: Seq<ModView>) -> Seq<Seq<char>> {
    mods.map_values(|m: ModView| lower(m.name))
}

/// `sorted` are the modifications in the order of their names in lower case;
/// those with equal names stay as found.
pub open spec fn are_sorted_mods(sorted: Seq<ModView>, mods: Seq<ModView>) -> bool {
    exists|order: Seq<usize>| #[trigger]
        is_stable_order(lower_names(mods), order) && sorted.len() == order.len() && forall|i: int|
            0 <= i < order.len() ==> #[trigger] sorted[i] == mods[order[i] as int]
}

pub fn collect_mods(mods: &Vec<ModEntry>) -> (r: Vec<ModEntry>)
    ensures
        are_sorted_mods(views(r@), views(mods@)),
{
    let ghost all = views(mods@);
    let ghost names = lower_names(all);
    let mut keys: Vec<String> = Vec::new();
    assert(views(keys@) =~= names.take(0));
    for i in 0..mods.len()
        invariant
            names == lower_names(views(mods@)),
            views(keys@) == names.take(i as int),
    {
        push_view(&mut keys, to_lower(mods[i].name.as_str()));
        assert(names[i as int] == lower(mods@[i as int]@.name));
        assert(views(keys@) =~= names.take(i + 1));
    }
    assert(names.take(names.len() as int) =~= names);
    let order = stable_order(&keys);
    let mut out: Vec<ModEntry> = Vec::new();
    for k in 0..order.len()
        invariant
            all == views(mods@),
            names == lower_names(all),
            is_stable_order(names, order@),
            out@.len() == k,
            forall|i: int| 0 <= i < k ==> (#[trigger] out@[i])@ == all[order@[i] as int],
    {
        assert(order@[k as int] < names.len());
        let m = &mods[order[k]];
        assert(all[order@[k as int] as int] == m@);
        let copy = ModEntry { name: m.name.clone(), size_bytes: m.size_bytes, path: m.path.clone() };
        assert(copy@ == m@);
        out.push(copy);
    }
    proof {
        let sorted = views(out@);
        assert forall|i: int| 0 <= i < order@.len() implies #[trigger] sorted[i]
            == all[order@[i] as int] by {
            assert(sorted[i] == out@[i]@);
        }
        assert(is_stable_order(lower_names(all), order@));
    }
    out
}

// ---------------------------------------------------------------------------
// Processes
// ---------------------------------------------------------------------------

#[derive(Clone, Debug)]
pub struct MinecraftProcessInfo {
    pub pid: u32,
    pub exe_path: String,
    pub cmdline: String,
    pub parent_pid: u32,
    pub parent_exe: String,
    pub is_minecraft: bool,
    pub mc_version: String,
    pub version_id: String,
    pub version_jar: String,
    pub loader: String,
    pub launcher: String,
    pub game_dir: String,
    pub mods_dir: String,
    pub mods: Vec<ModEntry>,
}

/// A process that may be the game: one of Java without a console.
pub fn is_game_process_name(name: &str) -> (r: bool)
    ensures
        r == same_ignoring_case(name@, "javaw.exe"@),
{
    let chars = chars_of(name);
    is_text_ignoring_case(chars.as_slice(), "javaw.exe")
}

/// `words` with a space between each two.
pub open spec fn spaced(words: Seq<Seq<char>>) -> Seq<char>
    decreases words.len(),
{
    if words.len() == 0 {
        Seq::empty()
    } else if words.len() == 1 {
        words[0]
    } else {
        spaced(words.drop_last()) + " "@ + words.last()
    }
}

/// The command line of a process: its arguments, or its name where it has none.
pub fn command_line(args: &Vec<String>, name: &str) -> (r: String)
    ensures
        r@ == if args@.len() == 0 {
            name@
        } else {
            spaced(views(args@))
        },
{
    if args.len() == 0 {
        return name.to_string();
    }
    let ghost all = views(args@);
    let mut out = String::new();
    assert(out@ =~= Seq::empty());
    for i in 0..args.len()
        invariant
            all == views(args@),
            out@ == spaced(all.take(i as int)),
    {
        assert(all.take(i + 1).drop_last() =~= all.take(i as int));
        assert(all.take(i + 1).last() == args@[i as int]@);
        if i > 0 {
            out.push_str(" ");
        }
        out.push_str(args[i].as_str());
        if i == 0 {
            assert(out@ =~= args@[0]@);
        }
    }
    assert(all.take(all.len() as int) =~= all);
    out
}

/// A process as the system describes it.
#[derive(Clone, Debug)]
pub struct ProcessFacts {
    pub pid: u32,
    pub name: String,
    pub args: Vec<String>,
    pub exe_path: Option<String>,
    pub parent_pid: Option<u32>,
    pub parent_exe: Option<String>,
}

/// What the disk says about a game: the user's directory of data, the version
/// that is installed in the directory of the game, whether the archive of the
/// installation is there, where modifications are, and those that are.
#[derive(Clone, Debug)]
pub struct DiskFacts {
    pub appdata: Option<String>,
    pub installed: Option<String>,
    pub jar_is_file: bool,
    pub mods: ModsFacts,
    pub mod_files: Vec<ModEntry>,
}

/// The text, or that it is unknown.
pub open spec fn or_unknown(text: Option<Seq<char>>) -> Seq<char> {
    match text {
        Some(t) => t,
        None => "Unknown"@,
    }
}

pub fn text_or_unknown(text: Option<String>) -> (r: String)
    ensures
        r@ == or_unknown(opt_view(text)),
{
    match text {
        Some(t) => t,
        None => "Unknown".to_string(),
    }
}

fn shown_if(show: bool, text: String) -> (r: String)
    ensures
        r@ == if show {
            text@
        } else {
            "Unknown"@
        },
{
    if show {
        text
    } else {
        "Unknown".to_string()
    }
}

/// The command line of a process.
pub open spec fn line_of(process: ProcessFacts) -> Seq<char> {
    if process.args@.len() == 0 {
        process.name@
    } else {
        spaced(views(process.args@))
    }
}

/// What a process and the disk say about a game that runs.
pub struct GameView {
    pub mc_version: Seq<char>,
    pub version_id: Seq<char>,
    pub version_jar: Seq<char>,
    pub loader: Seq<char>,
    pub launcher: Seq<char>,
    pub game_dir: Option<Seq<char>>,
    pub mods_dir: Seq<char>,
}

pub open spec fn game_of(process: ProcessFacts, disk: DiskFacts) -> GameView {
    let args = views(process.args@);
    let line = lower(line_of(process));
    let dir = game_dir(args, line, opt_view(disk.appdata));
    let id = version_id(args, line, dir is Some, opt_view(disk.installed));
    let loader = loader_name(args, line);
    let launcher = launcher_name(args, line, or_unknown(opt_view(process.parent_exe)));
    GameView {
        mc_version: shown_version(id),
        version_id: id,
        version_jar: version_jar(args, line, dir, id, disk.jar_is_file),
        loader,
        launcher,
        game_dir: dir,
        mods_dir: mods_dir(dir, loader, launcher, disk.mods),
    }
}

/// The description of a process: whether its arguments and command line are
/// those of the game, and if so what they and the disk say about it. Of one that
/// is not the game, nothing about the game is said.
pub fn analyze_process(process: ProcessFacts, disk: DiskFacts) -> (r: MinecraftProcessInfo)
    ensures
        r.pid == process.pid,
        r.exe_path@ == or_unknown(opt_view(process.exe_path)),
        r.cmdline@ == line_of(process),
        r.parent_pid == match process.parent_pid {
            Some(pid) => pid,
            None => 0,
        },
        r.parent_exe@ == or_unknown(opt_view(process.parent_exe)),
        r.is_minecraft == is_game(views(process.args@), lower(line_of(process))),
        r.is_minecraft ==> {
            let game = game_of(process, disk);
            &&& r.mc_version@ == game.mc_version
            &&& r.version_id@ == game.version_id
            &&& r.version_jar@ == game.version_jar
            &&& r.loader@ == game.loader
            &&& r.launcher@ == game.launcher
            &&& r.game_dir@ == or_unknown(game.game_dir)
            &&& r.mods_dir@ == game.mods_dir
            &&& are_sorted_mods(views(r.mods@), views(disk.mod_files@))
        },
        !r.is_minecraft ==> {
            &&& r.mc_version@ == "Unknown"@
            &&& r.version_id@ == "Unknown"@
            &&& r.version_jar@ == "Unknown"@
            &&& r.loader@ == "Unknown"@
            &&& r.launcher@ == "Unknown"@
            &&& r.game_dir@ == "Unknown"@
            &&& r.mods_dir@ == "Unknown"@
            &&& r.mods@.len() == 0
        },
{
    let args = &process.args;
    let cmdline = command_line(args, process.name.as_str());
    let line = to_lower(cmdline.as_str());
    let low = line.as_str();
    let is_minecraft = detect_indicators(args, low);
    let dir = detect_game_dir(args, low, &disk.appdata);
    let id = detect_version_id(args, low, &dir, disk.installed);
    let loader = detect_loader(args, low);
    let parent_exe = text_or_unknown(process.parent_exe);
    let launcher = detect_launcher(args, low, parent_exe.as_str());
    let jar = detect_version_jar(args, low, &dir, id.as_str(), disk.jar_is_file);
    let mods_dir = detect_mods_dir(&dir, loader.as_str(), launcher.as_str(), &disk.mods);
    let mc_version = version_of_id(id.as_str());
    let parent_pid: u32 = match process.parent_pid {
        Some(pid) => pid,
        None => 0,
    };
    MinecraftProcessInfo {
        pid: process.pid,
        exe_path: text_or_unknown(process.exe_path),
        cmdline,
        parent_pid,
        parent_exe,
        is_minecraft,
        mc_version: shown_if(is_minecraft, mc_version),
        version_id: shown_if(is_minecraft, id),
        version_jar: shown_if(is_minecraft, jar),
        loader: shown_if(is_minecraft, loader),
        launcher: shown_if(is_minecraft, launcher),
        game_dir: shown_if(is_minecraft, text_or_unknown(dir)),
        mods_dir: shown_if(is_minecraft, mods_dir),
        mods: if is_minecraft {
            collect_mods(&disk.mod_files)
        } else {
            Vec::new()
        },
    }
}

} // verus!
