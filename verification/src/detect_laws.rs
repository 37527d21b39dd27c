//! What the description of a running game promises: where a thing is named, it
//! is that thing that is shown, and what else is there changes nothing.

use vstd::prelude::*;

use crate::detect::{
    are_sorted_mods, bare, classpath, classpath_jar, classpath_version, count_digits,
    described_version, entry_jar, flag_value, game_dir, game_of, has_flag, instance_path, is_game,
    is_version, launcher_name, line_of, loader_name, lower_names, mods_dir, property,
    shown_version, spaced, text_member, version_id, version_in, version_jar, versions_folder,
    DiskFacts, ModView, ModsFacts, ProcessFacts,
};
use crate::json::{member, JsonView};
use crate::order::{
    char_codes, diverges_at, is_stable_order, key_before, lemma_precedes_transitive, precedes,
    text_before,
};
use crate::paths::{backslashed, joined};
use crate::text::{
    contains, is_digit, is_first_at, law_split, law_trim, lemma_first_at, lower, occurs_at,
    same_ignoring_case, split, starts_with, CharClass,
};
use crate::views::{opt_view, views};

verus! {

// ---------------------------------------------------------------------------
// Arguments
// ---------------------------------------------------------------------------

/// The argument is the flag itself or gives its value behind `=`.
pub open spec fn names_flag(arg: Seq<char>, flag: Seq<char>) -> bool {
    same_ignoring_case(arg, flag) || starts_with(arg, flag + "="@)
}

proof fn lemma_flag_from(args: Seq<Seq<char>>, flag: Seq<char>, from: int, i: int)
    requires
        0 <= from <= i <= args.len(),
        forall|j: int| from <= j < i ==> !names_flag(#[trigger] args[j], flag),
    ensures
        flag_value(args, flag, from) == flag_value(args, flag, i),
    decreases i - from,
{
    if from < i {
        assert(!names_flag(args[from], flag));
        lemma_flag_from(args, flag, from + 1, i);
    }
}

proof fn lemma_behind_equals(name: Seq<char>, value: Seq<char>)
    ensures
        starts_with(name + "="@ + value, name + "="@),
        (name + "="@ + value).skip((name.len() + 1) as int) == value,
{
    reveal_strlit("=");
    let whole = name + "="@ + value;
    assert(whole.subrange(0, (name + "="@).len() as int) =~= name + "="@);
    assert(whole.skip((name.len() + 1) as int) =~= value);
}

/// The first argument that names a flag gives its value: the argument behind it,
/// or what stands behind `=`. Where no argument names it, or the last one alone,
/// there is none.
pub proof fn law_flag_value(args: Seq<Seq<char>>, flag: Seq<char>, i: int, value: Seq<char>)
    requires
        0 <= i <= args.len(),
        forall|j: int| 0 <= j < i ==> !names_flag(#[trigger] args[j], flag),
    ensures
        i + 1 < args.len() && same_ignoring_case(args[i], flag) ==> flag_value(args, flag, 0)
            == Some(bare(args[i + 1])),
        i < args.len() && args[i] == flag + "="@ + value ==> flag_value(args, flag, 0) == Some(
            bare(value),
        ),
        i == args.len() ==> flag_value(args, flag, 0) is None,
        i + 1 == args.len() && same_ignoring_case(args[i], flag) ==> flag_value(args, flag, 0)
            is None,
{
    lemma_flag_from(args, flag, 0, i);
    if i < args.len() && args[i] == flag + "="@ + value {
        lemma_behind_equals(flag, value);
        reveal_strlit("=");
        assert(lower(args[i]).len() == args[i].len());
        assert(lower(flag).len() == flag.len());
    }
}

proof fn lemma_property_from(args: Seq<Seq<char>>, name: Seq<char>, from: int, i: int)
    requires
        0 <= from <= i <= args.len(),
        forall|j: int| from <= j < i ==> !starts_with(#[trigger] args[j], name + "="@),
    ensures
        property(args, name, from) == property(args, name, i),
    decreases i - from,
{
    if from < i {
        assert(!starts_with(args[from], name + "="@));
        lemma_property_from(args, name, from + 1, i);
    }
}

/// The first argument that sets a property gives its value; where none does there
/// is none.
pub proof fn law_property(args: Seq<Seq<char>>, name: Seq<char>, i: int, value: Seq<char>)
    requires
        0 <= i <= args.len(),
        forall|j: int| 0 <= j < i ==> !starts_with(#[trigger] args[j], name + "="@),
    ensures
        i < args.len() && args[i] == name + "="@ + value ==> property(args, name, 0) == Some(
            bare(value),
        ),
        i == args.len() ==> property(args, name, 0) is None,
{
    lemma_property_from(args, name, 0, i);
    lemma_behind_equals(name, value);
}

/// A value loses the quotes around it and nothing else.
pub proof fn law_quotes_stripped(value: Seq<char>)
    requires
        value.len() > 0,
        value[0] != '"' && value[0] != '\'',
        value.last() != '"' && value.last() != '\'',
    ensures
        bare(value) == value,
        bare(seq!['"'] + value + seq!['"']) == value,
        bare(seq!['\''] + value + seq!['\'']) == value,
{
    let none = Seq::<char>::empty();
    let double = CharClass::Only('"');
    let single = CharClass::Only('\'');
    assert(none + value + none =~= value);
    law_trim(none, value, none, double);
    law_trim(none, value, none, single);
    law_trim(seq!['"'], value, seq!['"'], double);
    let quoted = seq!['\''] + value + seq!['\''];
    assert(none + quoted + none =~= quoted);
    assert(quoted[0] == '\'' && quoted.last() == '\'');
    law_trim(none, quoted, none, double);
    law_trim(seq!['\''], value, seq!['\''], single);
}

/// A version with a user of any kind, a directory with assets, or a main class is
/// a game; without any of these it is none.
pub proof fn law_game_is_recognised(args: Seq<Seq<char>>, line: Seq<char>)
    ensures
        has_flag(args, "--version"@) && (has_flag(args, "--uuid"@) || has_flag(
            args,
            "--accessToken"@,
        ) || has_flag(args, "--userType"@)) ==> is_game(args, line),
        (has_flag(args, "--gameDir"@) || property(args, "-Dminecraft.gamedir"@, 0) is Some) && (
        has_flag(args, "--assetsDir"@) || has_flag(args, "--assetIndex"@)) ==> is_game(args, line),
        contains(line, "net.minecraft.client.main.main"@) || contains(
            line,
            "net.fabricmc.loader.impl.launch.knot.knotclient"@,
        ) || contains(line, "net.fabricmc.loader.launch.knot.knotclient"@) || contains(
            line,
            "cpw.mods.modlauncher.launcher"@,
        ) || contains(line, "net.minecraft.launchwrapper.launch"@) ==> is_game(args, line),
        args.len() == 0 && !contains(line, "net.minecraft."@) && !contains(line, "net.fabricmc."@)
            && !contains(line, "cpw.mods."@) ==> !is_game(args, line),
        !has_flag(args, "--version"@) && !has_flag(args, "--assetsDir"@) && !has_flag(
            args,
            "--assetIndex"@,
        ) && is_game(args, line) ==> is_game(Seq::empty(), line),
{
    if args.len() == 0 && is_game(args, line) {
        lemma_main_class_prefix(line);
    }
}

proof fn lemma_main_class_prefix(line: Seq<char>)
    ensures
        contains(line, "net.minecraft.client.main.main"@) ==> contains(line, "net.minecraft."@),
        contains(line, "net.minecraft.launchwrapper.launch"@) ==> contains(
            line,
            "net.minecraft."@,
        ),
        contains(line, "net.fabricmc.loader.impl.launch.knot.knotclient"@) ==> contains(
            line,
            "net.fabricmc."@,
        ),
        contains(line, "net.fabricmc.loader.launch.knot.knotclient"@) ==> contains(
            line,
            "net.fabricmc."@,
        ),
        contains(line, "cpw.mods.modlauncher.launcher"@) ==> contains(line, "cpw.mods."@),
{
    assert("net.minecraft.client.main.main"@.subrange(0, 14) =~= "net.minecraft."@) by {
        reveal_strlit("net.minecraft.client.main.main");
        reveal_strlit("net.minecraft.");
    }
    assert("net.minecraft."@.len() == 14) by {
        reveal_strlit("net.minecraft.");
    }
    assert("net.minecraft.launchwrapper.launch"@.subrange(0, 14) =~= "net.minecraft."@) by {
        reveal_strlit("net.minecraft.launchwrapper.launch");
        reveal_strlit("net.minecraft.");
    }
    assert("net.fabricmc."@.len() == 13) by {
        reveal_strlit("net.fabricmc.");
    }
    assert("net.fabricmc.loader.impl.launch.knot.knotclient"@.subrange(0, 13)
        =~= "net.fabricmc."@) by {
        reveal_strlit("net.fabricmc.loader.impl.launch.knot.knotclient");
        reveal_strlit("net.fabricmc.");
    }
    assert("net.fabricmc.loader.launch.knot.knotclient"@.subrange(0, 13) =~= "net.fabricmc."@) by {
        reveal_strlit("net.fabricmc.loader.launch.knot.knotclient");
        reveal_strlit("net.fabricmc.");
    }
    assert("cpw.mods."@.len() == 9) by {
        reveal_strlit("cpw.mods.");
    }
    assert("cpw.mods.modlauncher.launcher"@.subrange(0, 9) =~= "cpw.mods."@) by {
        reveal_strlit("cpw.mods.modlauncher.launcher");
        reveal_strlit("cpw.mods.");
    }
    assert("net.minecraft.client.main.main"@.len() >= 14) by {
        reveal_strlit("net.minecraft.client.main.main");
    }
    assert("net.minecraft.launchwrapper.launch"@.len() >= 14) by {
        reveal_strlit("net.minecraft.launchwrapper.launch");
    }
    assert("net.fabricmc.loader.impl.launch.knot.knotclient"@.len() >= 13) by {
        reveal_strlit("net.fabricmc.loader.impl.launch.knot.knotclient");
    }
    assert("net.fabricmc.loader.launch.knot.knotclient"@.len() >= 13) by {
        reveal_strlit("net.fabricmc.loader.launch.knot.knotclient");
    }
    assert("cpw.mods.modlauncher.launcher"@.len() >= 9) by {
        reveal_strlit("cpw.mods.modlauncher.launcher");
    }
    lemma_contains_start(line, "net.minecraft.client.main.main"@, 14);
    lemma_contains_start(line, "net.minecraft.launchwrapper.launch"@, 14);
    lemma_contains_start(line, "net.fabricmc.loader.impl.launch.knot.knotclient"@, 13);
    lemma_contains_start(line, "net.fabricmc.loader.launch.knot.knotclient"@, 13);
    lemma_contains_start(line, "cpw.mods.modlauncher.launcher"@, 9);
}

/// What contains a word contains its start.
proof fn lemma_contains_start(line: Seq<char>, word: Seq<char>, n: int)
    requires
        0 <= n <= word.len(),
    ensures
        contains(line, word) ==> contains(line, word.subrange(0, n)),
{
    if contains(line, word) {
        let i = choose|i: int| occurs_at(line, word, i);
        assert(line.subrange(i, i + n) =~= line.subrange(i, i + word.len()).subrange(0, n));
        assert(occurs_at(line, word.subrange(0, n), i));
    }
}

// ---------------------------------------------------------------------------
// The directory of the game
// ---------------------------------------------------------------------------

/// The arguments or the command line name a directory of the game.
pub open spec fn names_game_dir(args: Seq<Seq<char>>, line: Seq<char>) -> bool {
    ||| flag_value(args, "--gameDir"@, 0) is Some
    ||| property(args, "-Dminecraft.gamedir"@, 0) is Some
    ||| instance_path(line, "modrinthapp\\profiles\\"@) is Some
    ||| instance_path(line, ".lunarclient\\profiles\\"@) is Some
    ||| instance_path(line, ".tlauncher\\profiles\\"@) is Some
}

/// Where the arguments hold `--gameDir`, the argument behind it is the directory of
/// the game, whatever the command line is and wherever the user's data are. Where
/// they set the property instead, its value is. The usual directory below the
/// user's data is given only where neither the arguments nor the command line
/// name one, and a directory that one of them names does not depend on it.
pub proof fn law_game_dir(
    args: Seq<Seq<char>>,
    line: Seq<char>,
    appdata: Option<Seq<char>>,
    other: Option<Seq<char>>,
    i: int,
    value: Seq<char>,
)
    requires
        0 <= i < args.len(),
    ensures
        (forall|j: int| 0 <= j < i ==> !names_flag(#[trigger] args[j], "--gameDir"@)) && i + 1
            < args.len() && same_ignoring_case(args[i], "--gameDir"@) ==> game_dir(
            args,
            line,
            appdata,
        ) == Some(bare(args[i + 1])),
        (forall|j: int| 0 <= j < i ==> !names_flag(#[trigger] args[j], "--gameDir"@)) && args[i]
            == "--gameDir"@ + "="@ + value ==> game_dir(args, line, appdata) == Some(bare(value)),
        (forall|j: int| 0 <= j < args.len() ==> !names_flag(#[trigger] args[j], "--gameDir"@)) && (
        forall|j: int|
            0 <= j < i ==> !starts_with(#[trigger] args[j], "-Dminecraft.gamedir"@ + "="@))
            && args[i] == "-Dminecraft.gamedir"@ + "="@ + value ==> game_dir(args, line, appdata)
            == Some(bare(value)),
        names_game_dir(args, line) ==> game_dir(args, line, appdata) is Some && game_dir(
            args,
            line,
            appdata,
        ) == game_dir(args, line, other),
        !names_game_dir(args, line) ==> game_dir(args, line, appdata) == match appdata {
            Some(dir) => Some(joined(dir, ".minecraft"@)),
            None => None,
        },
{
    let flag = "--gameDir"@;
    let name = "-Dminecraft.gamedir"@;
    if forall|j: int| 0 <= j < i ==> !names_flag(#[trigger] args[j], flag) {
        law_flag_value(args, flag, i, value);
    }
    if forall|j: int| 0 <= j < args.len() ==> !names_flag(#[trigger] args[j], flag) {
        law_flag_value(args, flag, args.len() as int, value);
    }
    if forall|j: int| 0 <= j < i ==> !starts_with(#[trigger] args[j], name + "="@) {
        law_property(args, name, i, value);
    }
}

/// A profile of a launcher that the command line names is the directory of the
/// game where the arguments name none: what stands before the name of the profile,
/// and that name up to the next separator.
pub proof fn law_profile_dir(
    args: Seq<Seq<char>>,
    appdata: Option<Seq<char>>,
    before: Seq<char>,
    profile: Seq<char>,
    separator: char,
    after: Seq<char>,
)
    requires
        flag_value(args, "--gameDir"@, 0) is None,
        property(args, "-Dminecraft.gamedir"@, 0) is None,
        profile.len() > 0,
        forall|i: int| 0 <= i < profile.len() ==> !CharClass::Separator.has(#[trigger] profile[i]),
        separator == '\\' || separator == '/',
    ensures
        ({
            let marker = "modrinthapp\\profiles\\"@;
            let line = before + marker + (profile.push(separator) + after);
            is_first_at(line, marker, before.len() as int) ==> game_dir(args, line, appdata)
                == Some(backslashed(before + marker + profile))
        }),
        ({
            let marker = ".lunarclient\\profiles\\"@;
            let line = before + marker + (profile.push(separator) + after);
            is_first_at(line, marker, before.len() as int) && !contains(
                line,
                "modrinthapp\\profiles\\"@,
            ) ==> game_dir(args, line, appdata) == Some(backslashed(before + marker + profile))
        }),
        ({
            let marker = ".tlauncher\\profiles\\"@;
            let line = before + marker + (profile.push(separator) + after);
            is_first_at(line, marker, before.len() as int) && !contains(
                line,
                "modrinthapp\\profiles\\"@,
            ) && !contains(line, ".lunarclient\\profiles\\"@) ==> game_dir(args, line, appdata)
                == Some(backslashed(before + marker + profile))
        }),
{
    lemma_markers_small();
    lemma_instance_path("modrinthapp\\profiles\\"@, before, profile, separator, after);
    lemma_instance_path(".lunarclient\\profiles\\"@, before, profile, separator, after);
    lemma_instance_path(".tlauncher\\profiles\\"@, before, profile, separator, after);
}

proof fn lemma_markers_small()
    ensures
        lower("modrinthapp\\profiles\\"@) == "modrinthapp\\profiles\\"@,
        lower(".lunarclient\\profiles\\"@) == ".lunarclient\\profiles\\"@,
        lower(".tlauncher\\profiles\\"@) == ".tlauncher\\profiles\\"@,
{
    assert(lower("modrinthapp\\profiles\\"@) =~= "modrinthapp\\profiles\\"@) by {
        reveal_strlit("modrinthapp\\profiles\\");
    }
    assert(lower(".lunarclient\\profiles\\"@) =~= ".lunarclient\\profiles\\"@) by {
        reveal_strlit(".lunarclient\\profiles\\");
    }
    assert(lower(".tlauncher\\profiles\\"@) =~= ".tlauncher\\profiles\\"@) by {
        reveal_strlit(".tlauncher\\profiles\\");
    }
}

proof fn lemma_instance_path(
    marker: Seq<char>,
    before: Seq<char>,
    profile: Seq<char>,
    separator: char,
    after: Seq<char>,
)
    requires
        lower(marker) == marker,
        profile.len() > 0,
        forall|i: int| 0 <= i < profile.len() ==> !CharClass::Separator.has(#[trigger] profile[i]),
        separator == '\\' || separator == '/',
    ensures
        ({
            let line = before + marker + (profile.push(separator) + after);
            is_first_at(line, marker, before.len() as int) ==> instance_path(line, marker) == Some(
                backslashed(before + marker + profile),
            )
        }),
{
    let rest = profile.push(separator) + after;
    let line = before + marker + rest;
    if is_first_at(line, marker, before.len() as int) {
        lemma_first_at(line, marker, before.len() as int);
        assert(line.skip((before.len() + marker.len()) as int) =~= rest);
        law_split(profile, separator, after, CharClass::Separator);
        assert(split(rest, CharClass::Separator)[0] == profile);
        assert(line.take(before.len() as int) =~= before);
    }
}

// ---------------------------------------------------------------------------
// The version
// ---------------------------------------------------------------------------

/// The value of `--version` is the name of the installation, whatever else there
/// is; without it that of `--fml.mcVersion` is, and without both the folder that
/// the class path names. The command line and what is installed count only
/// without all of these, and only where the directory of the game is known.
pub proof fn law_version_id(
    args: Seq<Seq<char>>,
    line: Seq<char>,
    has_game_dir: bool,
    installed: Option<Seq<char>>,
    other_line: Seq<char>,
    other_dir: bool,
    other_installed: Option<Seq<char>>,
)
    ensures
        ({
            let by_flag = flag_value(args, "--version"@, 0);
            let by_loader = flag_value(args, "--fml.mcVersion"@, 0);
            let by_path = match classpath(args) {
                Some(value) => classpath_version(split(value, CharClass::Only(';'))),
                None => None,
            };
            let id = version_id(args, line, has_game_dir, installed);
            &&& by_flag is Some ==> id == by_flag->0
            &&& by_flag is None && by_loader is Some ==> id == by_loader->0
            &&& by_flag is None && by_loader is None && by_path is Some ==> id == by_path->0
            &&& by_flag is Some || by_loader is Some || by_path is Some ==> id == version_id(
                args,
                other_line,
                other_dir,
                other_installed,
            )
            &&& by_flag is None && by_loader is None && by_path is None ==> {
                &&& !has_game_dir ==> id == "Unknown"@
                &&& has_game_dir && versions_folder(line, line) is Some ==> id == versions_folder(
                    line,
                    line,
                )->0
                &&& has_game_dir && versions_folder(line, line) is None && installed is Some ==> id
                    == installed->0
                &&& versions_folder(line, line) is None && installed is None ==> id == "Unknown"@
            }
        }),
{
}

/// The folder below `versions` in a path is the piece behind it.
pub proof fn law_versions_folder(before: Seq<char>, folder: Seq<char>, separator: char, after: Seq<char>)
    requires
        forall|i: int| 0 <= i < folder.len() ==> !CharClass::Separator.has(#[trigger] folder[i]),
        separator == '\\' || separator == '/',
        is_first_at(
            lower(before + "\\versions\\"@ + (folder.push(separator) + after)),
            "\\versions\\"@,
            before.len() as int,
        ),
    ensures
        ({
            let path = before + "\\versions\\"@ + (folder.push(separator) + after);
            versions_folder(path, lower(path)) == Some(folder)
        }),
        folder.len() > 0 ==> classpath_version(
            seq![before + "\\versions\\"@ + (folder.push(separator) + after)],
        ) == Some(folder),
{
    let rest = folder.push(separator) + after;
    let path = before + "\\versions\\"@ + rest;
    let low = lower(path);
    reveal_strlit("\\versions\\");
    lemma_first_at(low, "\\versions\\"@, before.len() as int);
    assert(path.skip((before.len() + 10) as int) =~= rest);
    law_split(folder, separator, after, CharClass::Separator);
    assert(split(rest, CharClass::Separator)[0] == folder);
    assert(seq![path][0] == path);
}

/// Of the entries of a class path the first one counts that names a version, or an
/// archive.
pub proof fn law_first_entry_counts(entries: Seq<Seq<char>>, i: int)
    requires
        0 <= i < entries.len(),
    ensures
        (forall|j: int| 0 <= j < i ==> entry_jar(#[trigger] entries[j]) is None) && entry_jar(
            entries[i],
        ) is Some ==> classpath_jar(entries) == entry_jar(entries[i]),
        (forall|j: int|
            0 <= j < i ==> versions_folder(#[trigger] entries[j], lower(entries[j])) is None)
            && versions_folder(entries[i], lower(entries[i])) is Some && versions_folder(
            entries[i],
            lower(entries[i]),
        )->0.len() > 0 ==> classpath_version(entries) == versions_folder(
            entries[i],
            lower(entries[i]),
        ),
    decreases i,
{
    if i > 0 {
        let rest = entries.skip(1);
        law_first_entry_counts(rest, i - 1);
        assert(rest[i - 1] == entries[i]);
        if forall|j: int| 0 <= j < i ==> entry_jar(#[trigger] entries[j]) is None {
            assert(entry_jar(entries[0]) is None);
            assert forall|j: int| 0 <= j < i - 1 implies entry_jar(#[trigger] rest[j]) is None by {
                assert(rest[j] == entries[j + 1]);
            }
        }
        if forall|j: int|
            0 <= j < i ==> versions_folder(#[trigger] entries[j], lower(entries[j])) is None {
            assert(versions_folder(entries[0], lower(entries[0])) is None);
            assert forall|j: int| 0 <= j < i - 1 implies versions_folder(
                #[trigger] rest[j],
                lower(rest[j]),
            ) is None by {
                assert(rest[j] == entries[j + 1]);
            }
        }
    }
}

/// The version in the name of an installation is the last of the parts between
/// hyphens that is one.
pub proof fn law_version_behind_hyphen(before: Seq<char>, version: Seq<char>)
    requires
        is_version(version),
        before.len() > 0,
        !CharClass::Space.has(before[0]),
    ensures
        version_in(before.push('-') + version) == Some(version),
        shown_version(before.push('-') + version) == version,
{
    let id = before.push('-') + version;
    let none = Seq::<char>::empty();
    let dash = CharClass::Only('-');
    assert forall|i: int| 0 <= i < version.len() implies !dash.has(#[trigger] version[i])
        && !CharClass::Space.has(version[i]) by {
        assert(version[i] == '.' || crate::text::is_digit(version[i]));
    }
    assert(version.len() > 0);
    assert(id.last() == version[version.len() - 1]);
    assert(none + id + none =~= id);
    law_trim(none, id, none, CharClass::Space);
    law_split(before, '-', version, dash);
    crate::text::lemma_split_whole(version, dash);
    let parts = split(before, dash) + seq![version];
    assert(parts.last() == version);
    reveal_strlit("Unknown");
    if id == "Unknown"@ {
        assert(id[before.len() as int] == '-');
    }
}

/// Where the class path names an archive, it is the archive of the game, whatever
/// else there is. Otherwise the one in the directory of the game is, where it is
/// there and the version is known. Without a directory there is none.
pub proof fn law_version_jar(
    args: Seq<Seq<char>>,
    line: Seq<char>,
    dir: Option<Seq<char>>,
    id: Seq<char>,
    exists: bool,
)
    ensures
        ({
            let by_path = match classpath(args) {
                Some(value) => classpath_jar(split(value, CharClass::Only(';'))),
                None => None,
            };
            let jar = version_jar(args, line, dir, id, exists);
            &&& by_path is Some ==> jar == by_path->0
            &&& by_path is None && dir is None ==> jar == "Unknown"@
            &&& by_path is None && dir is Some && exists && id != "Unknown"@ ==> jar == joined(
                joined(joined(dir->0, "versions"@), id),
                id + ".jar"@,
            )
            &&& by_path is None && !contains(line, "\\versions\\"@) && !(exists && id
                != "Unknown"@) ==> jar == "Unknown"@
        }),
{
}

// ---------------------------------------------------------------------------
// Loader, launcher, modifications
// ---------------------------------------------------------------------------

/// The loader is the one that the command line names. LabyMod counts before
/// Fabric, Fabric before Forge, Forge before Quilt, and each of them before the
/// plain game.
pub proof fn law_loader(args: Seq<Seq<char>>, line: Seq<char>)
    ensures
        ({
            let loader = loader_name(args, line);
            let laby = contains(line, "laby"@);
            let fabric = contains(line, "fabric-loader"@) || contains(line, "net.fabricmc"@)
                || contains(line, "knotclient"@);
            let forge = contains(line, "forge"@) || contains(line, "fml"@) || contains(
                line,
                "modlauncher"@,
            );
            let quilt = contains(line, "quilt"@);
            let plain = contains(line, "net.minecraft.client.main.main"@);
            &&& laby ==> loader == "LabyMod"@
            &&& !laby && fabric ==> loader == "Fabric"@
            &&& !laby && !fabric && forge ==> loader == "Forge"@
            &&& !laby && !fabric && !forge && quilt ==> loader == "Quilt"@
            &&& !laby && !fabric && !forge && !quilt && plain ==> loader == "Vanilla"@
            &&& !laby && !fabric && !forge && !quilt && !plain && args.len() == 0 ==> loader
                == "Unknown"@
            &&& !laby && !fabric && !forge && !quilt && !plain && (exists|i: int|
                0 <= i < args.len() && (contains(#[trigger] args[i], "ForgeTweaker"@) || contains(
                    args[i],
                    "FMLTweaker"@,
                ))) ==> loader == "Forge"@
        }),
{
    assert("labymod"@.subrange(0, 4) =~= "laby"@ && "labymod"@.len() >= 4) by {
        reveal_strlit("labymod");
        reveal_strlit("laby");
    }
    lemma_contains_start(line, "labymod"@, 4);
}

/// The launcher is the one that names itself in the arguments, whatever started the
/// game; otherwise the one that the command line or the program that started it
/// names.
pub proof fn law_launcher(
    args: Seq<Seq<char>>,
    line: Seq<char>,
    parent: Seq<char>,
    other_line: Seq<char>,
    other_parent: Seq<char>,
)
    ensures
        ({
            let brand = property(args, "-Dminecraft.launcher.brand"@, 0);
            let launcher = launcher_name(args, line, parent);
            let p = lower(parent);
            let b = lower(brand->0);
            let legacy = contains(line, "legacylauncher"@) || contains(p, "legacylauncher"@)
                || contains(line, "\\tlauncher\\legacy"@) || contains(p, "\\tlauncher\\legacy"@)
                || contains(line, "\\.tlauncher\\legacy"@) || contains(p, "\\.tlauncher\\legacy"@)
                || contains(line, "/.tlauncher/legacy"@) || contains(p, "/.tlauncher/legacy"@)
                || contains(line, "/tlauncher/legacy"@) || contains(p, "/tlauncher/legacy"@);
            let tl = contains(line, "tlauncher"@) || contains(p, "tlauncher"@);
            let modrinth = contains(line, "modrinthapp"@) || contains(p, "modrinth"@);
            let lunar = contains(line, ".lunarclient"@) || contains(p, "lunar"@);
            let laby = contains(line, "labymod"@) || contains(p, "labymod"@);
            &&& brand is Some ==> launcher == launcher_name(args, other_line, other_parent)
            &&& brand is Some && contains(b, "tlauncher"@) ==> launcher == "TLauncher"@
            &&& brand is Some && !contains(b, "tlauncher"@) ==> {
                &&& contains(b, "legacy"@) ==> launcher == "Legacy"@
                &&& !contains(b, "legacy"@) ==> {
                    &&& contains(b, "modrinth"@) ==> launcher == "Modrinth"@
                    &&& !contains(b, "modrinth"@) && contains(b, "lunar"@) ==> launcher
                        == "Lunar"@
                    &&& !contains(b, "modrinth"@) && !contains(b, "lunar"@) && contains(
                        b,
                        "laby"@,
                    ) ==> launcher == "LabyMod"@
                    &&& !contains(b, "modrinth"@) && !contains(b, "lunar"@) && !contains(
                        b,
                        "laby"@,
                    ) ==> {
                        &&& contains(b, "official"@) || contains(b, "minecraft"@) ==> launcher
                            == "Official"@
                        &&& !contains(b, "official"@) && !contains(b, "minecraft"@) ==> launcher
                            == brand->0
                    }
                }
            }
            &&& brand is None && legacy ==> launcher == "Legacy"@
            &&& brand is None && !legacy && tl ==> launcher == "TLauncher"@
            &&& brand is None && !legacy && !tl && modrinth ==> launcher == "Modrinth"@
            &&& brand is None && !legacy && !tl && !modrinth && lunar ==> launcher == "Lunar"@
            &&& brand is None && !legacy && !tl && !modrinth && !lunar && laby ==> launcher
                == "LabyMod"@
            &&& brand is None && !legacy && !tl && !modrinth && !lunar && !laby ==> {
                &&& contains(p, "minecraftlauncher"@) ==> launcher == "Official"@
                &&& !contains(p, "minecraftlauncher"@) ==> launcher == "Unknown"@
            }
        }),
{
}

/// Modifications are looked for below the directory of the game: for LabyMod in its
/// addons where there are any, else in `mods` where that is a directory, else, for
/// Lunar alone, in its own directories. Without a directory there are none.
pub proof fn law_mods_dir(
    dir: Option<Seq<char>>,
    loader: Seq<char>,
    launcher: Seq<char>,
    facts: ModsFacts,
)
    ensures
        ({
            let found = mods_dir(dir, loader, launcher, facts);
            let laby = same_ignoring_case(loader, "LabyMod"@) || same_ignoring_case(
                launcher,
                "LabyMod"@,
            ) || facts.has_laby_dir;
            let addons = laby && facts.addons_dir is Some;
            let lunar = same_ignoring_case(launcher, "Lunar"@);
            &&& dir is None ==> found == "Not found"@
            &&& dir is Some && addons ==> found == facts.addons_dir->0@
            &&& dir is Some && !addons && facts.mods_is_dir ==> found == joined(dir->0, "mods"@)
            &&& dir is Some && !addons && !facts.mods_is_dir && !lunar ==> found == "Not found"@
            &&& dir is Some && !addons && !facts.mods_is_dir && lunar && facts.lunar_mods_is_dir
                ==> found == joined(joined(dir->0, ".lunarclient"@), "mods"@)
            &&& dir is Some && !addons && !facts.mods_is_dir && lunar && !facts.lunar_mods_is_dir
                ==> found == match facts.appdata_lunar_mods {
                Some(path) => path@,
                None => "Not found"@,
            }
        }),
{
}

/// What is said of a game is said of the arguments of its own process, and of the
/// command line that they make up.
pub proof fn law_process_described(process: ProcessFacts, disk: DiskFacts)
    ensures
        ({
            let args = views(process.args@);
            let line = lower(line_of(process));
            let game = game_of(process, disk);
            let parent = match process.parent_exe {
                Some(exe) => exe@,
                None => "Unknown"@,
            };
            &&& args.len() == 0 ==> line == lower(process.name@)
            &&& args.len() > 0 ==> line == lower(spaced(args))
            &&& game.game_dir == game_dir(args, line, opt_view(disk.appdata))
            &&& game.version_id == version_id(
                args,
                line,
                game.game_dir is Some,
                opt_view(disk.installed),
            )
            &&& game.mc_version == shown_version(game.version_id)
            &&& game.version_jar == version_jar(
                args,
                line,
                game.game_dir,
                game.version_id,
                disk.jar_is_file,
            )
            &&& game.loader == loader_name(args, line)
            &&& game.launcher == launcher_name(args, line, parent)
            &&& game.mods_dir == mods_dir(game.game_dir, game.loader, game.launcher, disk.mods)
        }),
{
}

/// Arguments stand in the command line with a space between each two.
pub proof fn law_command_line(args: Seq<Seq<char>>, last: Seq<char>)
    ensures
        spaced(seq![last]) == last,
        args.len() > 0 ==> spaced(args.push(last)) == spaced(args) + " "@ + last,
{
    assert(args.push(last).drop_last() =~= args);
}

// ---------------------------------------------------------------------------
// Versions and mods
// ---------------------------------------------------------------------------

/// A version is made of digits and dots: two digits at least and a dot.
pub proof fn law_versions(s: Seq<char>, i: int, j: int, k: int)
    ensures
        is_version(s) ==> forall|m: int|
            0 <= m < s.len() ==> #[trigger] s[m] == '.' || ('0' <= s[m] && s[m] <= '9'),
        is_version(s) ==> exists|a: int, b: int|
            0 <= a < b < s.len() && is_digit(#[trigger] s[a]) && is_digit(#[trigger] s[b]),
        is_version(s) ==> exists|a: int| 0 <= a < s.len() && #[trigger] s[a] == '.',
        (forall|m: int| 0 <= m < s.len() ==> #[trigger] s[m] == '.' || is_digit(s[m])) && 0 <= i < j
            < s.len() && is_digit(s[i]) && is_digit(s[j]) && 0 <= k < s.len() && s[k] == '.'
            ==> is_version(s),
{
    lemma_digits_counted(s);
    if is_version(s) {
        assert forall|m: int| 0 <= m < s.len() implies #[trigger] s[m] == '.' || ('0' <= s[m]
            && s[m] <= '9') by {
            assert(s[m] == '.' || is_digit(s[m]));
        }
    }
    if (forall|m: int| 0 <= m < s.len() ==> #[trigger] s[m] == '.' || is_digit(s[m])) && 0 <= i < j
        < s.len() && is_digit(s[i]) && is_digit(s[j]) && 0 <= k < s.len() && s[k] == '.' {
        lemma_one_digit(s, j);
        lemma_two_digits(s, i, j);
        lemma_one_dot(s, k);
    }
}

proof fn lemma_digits_counted(s: Seq<char>)
    ensures
        count_digits(s) <= s.len(),
        count_digits(s) >= 1 ==> exists|a: int| 0 <= a < s.len() && is_digit(#[trigger] s[a]),
        count_digits(s) >= 2 ==> exists|a: int, b: int|
            0 <= a < b < s.len() && is_digit(#[trigger] s[a]) && is_digit(#[trigger] s[b]),
        count_digits(s) < s.len() ==> exists|a: int| 0 <= a < s.len() && !is_digit(#[trigger] s[a]),
    decreases s.len(),
{
    if s.len() > 0 {
        let t = s.drop_last();
        lemma_digits_counted(t);
        let last = s.len() - 1;
        assert(s[last] == s.last());
        if count_digits(t) >= 1 {
            let a = choose|a: int| 0 <= a < t.len() && is_digit(#[trigger] t[a]);
            assert(s[a] == t[a]);
            assert(is_digit(s[a]));
            if is_digit(s[last]) {
                assert(0 <= a < last);
            }
        }
        if count_digits(t) >= 2 {
            let (a, b) = choose|a: int, b: int|
                0 <= a < b < t.len() && is_digit(#[trigger] t[a]) && is_digit(#[trigger] t[b]);
            assert(s[a] == t[a] && s[b] == t[b]);
            assert(is_digit(s[a]) && is_digit(s[b]));
        }
        if count_digits(t) < t.len() {
            let a = choose|a: int| 0 <= a < t.len() && !is_digit(#[trigger] t[a]);
            assert(s[a] == t[a]);
            assert(!is_digit(s[a]));
        }
    }
}

proof fn lemma_one_digit(s: Seq<char>, i: int)
    requires
        0 <= i < s.len(),
        is_digit(s[i]),
    ensures
        count_digits(s) >= 1,
    decreases s.len(),
{
    if i < s.len() - 1 {
        lemma_one_digit(s.drop_last(), i);
    }
}

proof fn lemma_two_digits(s: Seq<char>, i: int, j: int)
    requires
        0 <= i < j < s.len(),
        is_digit(s[i]),
        is_digit(s[j]),
    ensures
        count_digits(s) >= 2,
    decreases s.len(),
{
    if j < s.len() - 1 {
        lemma_two_digits(s.drop_last(), i, j);
    } else {
        lemma_one_digit(s.drop_last(), i);
    }
}

proof fn lemma_one_dot(s: Seq<char>, k: int)
    requires
        0 <= k < s.len(),
        !is_digit(s[k]),
    ensures
        count_digits(s) < s.len(),
    decreases s.len(),
{
    lemma_digits_counted(s.drop_last());
    if k < s.len() - 1 {
        lemma_one_dot(s.drop_last(), k);
    }
}

/// The file that describes a version gives the version that it is made from, and its
/// own where it is made from none.
pub proof fn law_described_version(value: JsonView, parent: Seq<char>, id: Seq<char>)
    ensures
        text_member(value, "inheritsFrom"@) == Some(parent) && version_in(parent) is Some
            ==> described_version(value) == version_in(parent),
        (text_member(value, "inheritsFrom"@) is None || text_member(value, "inheritsFrom"@) == Some(
            parent,
        ) && version_in(parent) is None) && text_member(value, "id"@) == Some(id)
            ==> described_version(value) == version_in(id),
        text_member(value, "inheritsFrom"@) is None && text_member(value, "id"@) is None
            ==> described_version(value) is None,
        value matches JsonView::Object(members) ==> (text_member(value, id) == Some(parent) <==> member(
            members,
            id,
        ) == Some(JsonView::Text(parent))),
{
}

/// The mods are all listed, by name in lower case; those of the same name stay in
/// the order in which they were found.
pub proof fn law_mods_sorted(sorted: Seq<ModView>, mods: Seq<ModView>)
    requires
        are_sorted_mods(sorted, mods),
        mods.len() <= usize::MAX,
    ensures
        forall|m: ModView| #[trigger] sorted.contains(m) <==> mods.contains(m),
        forall|i: int, j: int|
            0 <= i < j < sorted.len() ==> !text_before(
                lower((#[trigger] sorted[j]).name),
                lower((#[trigger] sorted[i]).name),
            ),
{
    let names = lower_names(mods);
    let order = choose|order: Seq<usize>| #[trigger]
        is_stable_order(names, order) && sorted.len() == order.len() && forall|i: int|
            0 <= i < order.len() ==> #[trigger] sorted[i] == mods[order[i] as int];
    assert forall|m: ModView| #[trigger] sorted.contains(m) <==> mods.contains(m) by {
        if mods.contains(m) {
            let i = choose|i: int| 0 <= i < mods.len() && mods[i] == m;
            assert(names.len() == mods.len());
            assert(order.contains(i as usize));
            let k = choose|k: int| 0 <= k < order.len() && order[k] == i as usize;
            assert(sorted[k] == m);
        }
        if sorted.contains(m) {
            let k = choose|k: int| 0 <= k < sorted.len() && sorted[k] == m;
            assert(order[k] < names.len());
            assert(mods[order[k] as int] == m);
        }
    }
    assert forall|i: int, j: int| 0 <= i < j < sorted.len() implies !text_before(
        lower((#[trigger] sorted[j]).name),
        lower((#[trigger] sorted[i]).name),
    ) by {
        let a = order[i] as int;
        let b = order[j] as int;
        assert(a < names.len() && b < names.len());
        assert(names[a] == lower(sorted[i].name) && names[b] == lower(sorted[j].name));
        assert(key_before(names, a, b));
        if text_before(names[b], names[a]) {
            let x = char_codes(names[a]);
            let y = char_codes(names[b]);
            if precedes(x, y) {
                lemma_precedes_transitive(x, y, x);
            }
            let k = choose|k: int| diverges_at(x, x, k);
            assert(diverges_at(x, x, k));
        }
    }
}

} // verus!
