//! What the reading of Windows paths promises: names that were put together come
//! apart again, however they were separated.

use vstd::prelude::*;

use crate::paths::{
    behind_root, components, counted, file_name, is_dots, is_verbatim, joined, lower_extension,
    normal_components, path_identity, path_key, prefix, prefix_len, profile_key, separators,
    user_in,
};
use crate::text::{
    is_alphabetic, last_at, law_split, lemma_last_at,
    lemma_split_whole, lower, occurs_at, same_ignoring_case, split, starts_with, CharClass,
};

verus! {

/// A separator of Windows paths.
pub open spec fn is_separator(c: char) -> bool {
    c == '\\' || c == '/'
}

/// What can be the name of a file or directory in a path: it is not empty, not a
/// single dot, and holds no separator.
pub open spec fn is_part(name: Seq<char>) -> bool {
    &&& name.len() > 0
    &&& name != "."@
    &&& forall|i: int| 0 <= i < name.len() ==> !is_separator(#[trigger] name[i])
}

/// The path on drive `d` that leads through `names`, with `seps[i]` before name `i`.
pub open spec fn on_drive(d: char, names: Seq<Seq<char>>, seps: Seq<char>) -> Seq<char>
    decreases names.len(),
{
    if names.len() == 0 {
        seq![d, ':']
    } else {
        on_drive(d, names.drop_last(), seps).push(seps[names.len() - 1]) + names.last()
    }
}

spec fn is_written(d: char, names: Seq<Seq<char>>, seps: Seq<char>) -> bool {
    &&& is_alphabetic(d)
    &&& names.len() <= seps.len()
    &&& forall|i: int| 0 <= i < names.len() ==> is_part(#[trigger] names[i])
    &&& forall|i: int| 0 <= i < seps.len() ==> is_separator(#[trigger] seps[i])
}

proof fn lemma_start(d: char, names: Seq<Seq<char>>, seps: Seq<char>)
    requires
        is_written(d, names, seps),
    ensures
        ({
            let s = on_drive(d, names, seps);
            &&& s.len() >= 2
            &&& s[0] == d
            &&& s[1] == ':'
            &&& names.len() > 0 ==> s.len() > 3 && s[2] == seps[0]
            &&& !is_verbatim(s)
            &&& prefix_len(s) == 2
            &&& prefix(s) == seq![d, ':']
        }),
    decreases names.len(),
{
    let s = on_drive(d, names, seps);
    if names.len() > 0 {
        let before = names.drop_last();
        assert forall|i: int| 0 <= i < before.len() implies is_part(#[trigger] before[i]) by {
            assert(before[i] == names[i]);
        }
        lemma_start(d, before, seps);
        assert(is_part(names[names.len() - 1]));
    }
    assert(is_alphabetic(d));
    assert(s[0] == d);
    reveal_strlit("\\\\?\\");
    reveal_strlit("\\\\");
    if is_verbatim(s) {
        assert(s.subrange(0, 4)[0] == s[0]);
    }
    let b = crate::paths::backslashed(s);
    if starts_with(b, "\\\\"@) {
        assert(b.subrange(0, 2)[0] == b[0]);
    }
    assert(s.take(2) =~= seq![d, ':']);
}

proof fn lemma_behind(d: char, names: Seq<Seq<char>>, seps: Seq<char>)
    requires
        is_written(d, names, seps),
        names.len() > 0,
    ensures
        behind_root(on_drive(d, names, seps)) == on_drive(d, names, seps).skip(3),
        split(on_drive(d, names, seps).skip(3), CharClass::Separator) == names,
    decreases names.len(),
{
    let s = on_drive(d, names, seps);
    let k = CharClass::Separator;
    lemma_start(d, names, seps);
    assert(is_separator(seps[0]));
    assert(s.skip(2)[0] == s[2]);
    assert(s.skip(2).skip(1) =~= s.skip(3));
    let before = names.drop_last();
    let last = names.last();
    assert(is_part(names[names.len() - 1]));
    assert forall|i: int| 0 <= i < last.len() implies !k.has(#[trigger] last[i]) by {
        assert(!is_separator(last[i]));
    }
    lemma_split_whole(last, k);
    if before.len() == 0 {
        assert(on_drive(d, before, seps) == seq![d, ':']);
        assert(s == seq![d, ':'].push(seps[0]) + last);
        assert(s.skip(3) =~= last);
        assert(seq![last] =~= names);
    } else {
        assert forall|i: int| 0 <= i < before.len() implies is_part(#[trigger] before[i]) by {
            assert(before[i] == names[i]);
        }
        lemma_behind(d, before, seps);
        lemma_start(d, before, seps);
        let t = on_drive(d, before, seps);
        let sep = seps[names.len() - 1];
        assert(is_separator(sep));
        law_split(t.skip(3), sep, last, k);
        assert(s.skip(3) =~= t.skip(3).push(sep) + last);
        assert(before + seq![last] =~= names);
    }
}

proof fn lemma_all_counted(names: Seq<Seq<char>>)
    requires
        forall|i: int| 0 <= i < names.len() ==> is_part(#[trigger] names[i]),
    ensures
        counted(names, false) == names,
    decreases names.len(),
{
    if names.len() > 0 {
        let before = names.drop_last();
        assert forall|i: int| 0 <= i < before.len() implies is_part(#[trigger] before[i]) by {
            assert(before[i] == names[i]);
        }
        lemma_all_counted(before);
        assert(is_part(names[names.len() - 1]));
        assert(before.push(names.last()) =~= names);
    } else {
        assert(counted(names, false) =~= names);
    }
}

/// A path on a drive comes apart into the names that it leads through, whichever
/// separators stand between them; the last one is its file name.
pub proof fn law_path_comes_apart(d: char, names: Seq<Seq<char>>, seps: Seq<char>)
    requires
        is_alphabetic(d),
        names.len() > 0,
        names.len() <= seps.len(),
        forall|i: int| 0 <= i < names.len() ==> is_part(#[trigger] names[i]),
        forall|i: int| 0 <= i < seps.len() ==> is_separator(#[trigger] seps[i]),
    ensures
        prefix(on_drive(d, names, seps)) == seq![d, ':'],
        components(on_drive(d, names, seps)) == names,
        names.last() != ".."@ ==> file_name(on_drive(d, names, seps)) == names.last(),
{
    lemma_start(d, names, seps);
    lemma_behind(d, names, seps);
    lemma_all_counted(names);
    assert(is_part(names[names.len() - 1]));
}

/// The extension of a file is what stands behind the last dot of its name, in lower
/// case; a dot in front of a name begins no extension.
pub proof fn law_extension(
    d: char,
    dirs: Seq<Seq<char>>,
    seps: Seq<char>,
    stem: Seq<char>,
    ext: Seq<char>,
)
    requires
        is_alphabetic(d),
        dirs.len() < seps.len(),
        forall|i: int| 0 <= i < dirs.len() ==> is_part(#[trigger] dirs[i]),
        forall|i: int| 0 <= i < seps.len() ==> is_separator(#[trigger] seps[i]),
        forall|i: int| 0 <= i < stem.len() ==> !is_separator(#[trigger] stem[i]),
        forall|i: int| 0 <= i < ext.len() ==> !is_separator(#[trigger] ext[i]) && ext[i] != '.',
        ext.len() > 0,
    ensures
        stem.len() > 0 ==> lower_extension(on_drive(d, dirs.push(stem.push('.') + ext), seps))
            == lower(ext),
        lower_extension(on_drive(d, dirs.push(seq!['.'] + ext), seps)).len() == 0,
        lower_extension(on_drive(d, dirs.push(ext), seps)).len() == 0,
{
    reveal_strlit(".");
    reveal_strlit("..");
    let plain = stem.push('.') + ext;
    let hidden = seq!['.'] + ext;
    let at = stem.len() as int;
    lemma_dotted(d, dirs, seps, plain, stem, ext);
    lemma_dotted(d, dirs, seps, hidden, Seq::empty(), ext);
    assert(Seq::<char>::empty().push('.') + ext =~= hidden);
    assert(ext[0] != '.');
    assert(ext != "."@ && ext != ".."@) by {
        assert("."@[0] == '.' && ".."@[0] == '.');
    }
    lemma_named(d, dirs, seps, ext);
    assert(last_at(ext, "."@) is None) by {
        if crate::text::contains(ext, "."@) {
            let i = choose|i: int| occurs_at(ext, "."@, i);
            assert(ext.subrange(i, i + 1)[0] == ext[i]);
            assert(ext[i] != '.');
        }
    }
}

proof fn lemma_named(d: char, dirs: Seq<Seq<char>>, seps: Seq<char>, name: Seq<char>)
    requires
        is_alphabetic(d),
        dirs.len() < seps.len(),
        forall|i: int| 0 <= i < dirs.len() ==> is_part(#[trigger] dirs[i]),
        forall|i: int| 0 <= i < seps.len() ==> is_separator(#[trigger] seps[i]),
        is_part(name),
        name != ".."@,
    ensures
        file_name(on_drive(d, dirs.push(name), seps)) == name,
{
    let names = dirs.push(name);
    assert forall|i: int| 0 <= i < names.len() implies is_part(#[trigger] names[i]) by {
        if i < dirs.len() {
            assert(names[i] == dirs[i]);
        }
    }
    law_path_comes_apart(d, names, seps);
}

proof fn lemma_dotted(
    d: char,
    dirs: Seq<Seq<char>>,
    seps: Seq<char>,
    name: Seq<char>,
    stem: Seq<char>,
    ext: Seq<char>,
)
    requires
        is_alphabetic(d),
        dirs.len() < seps.len(),
        forall|i: int| 0 <= i < dirs.len() ==> is_part(#[trigger] dirs[i]),
        forall|i: int| 0 <= i < seps.len() ==> is_separator(#[trigger] seps[i]),
        forall|i: int| 0 <= i < stem.len() ==> !is_separator(#[trigger] stem[i]),
        forall|i: int| 0 <= i < ext.len() ==> !is_separator(#[trigger] ext[i]) && ext[i] != '.',
        ext.len() > 0,
        name == stem.push('.') + ext,
    ensures
        file_name(on_drive(d, dirs.push(name), seps)) == name,
        last_at(name, "."@) == Some(stem.len() as int),
        name.skip(stem.len() as int + 1) == ext,
        name != ".."@,
{
    reveal_strlit(".");
    reveal_strlit("..");
    let at = stem.len() as int;
    assert(name[name.len() - 1] == ext[ext.len() - 1]);
    assert(ext[ext.len() - 1] != '.');
    assert(name != ".."@ && name != "."@) by {
        assert(name.last() != '.');
        assert(".."@.last() == '.' && "."@.last() == '.');
    }
    assert forall|i: int| 0 <= i < name.len() implies !is_separator(#[trigger] name[i]) by {
        if i < at {
            assert(name[i] == stem[i]);
        } else if i > at {
            assert(name[i] == ext[i - at - 1]);
        }
    }
    lemma_named(d, dirs, seps, name);
    assert(name.subrange(at, at + 1) =~= "."@);
    assert(occurs_at(name, "."@, at));
    assert forall|j: int| at < j implies !occurs_at(name, "."@, j) by {
        if occurs_at(name, "."@, j) {
            assert(name.subrange(j, j + 1)[0] == name[j]);
            assert(name[j] == ext[j - at - 1]);
        }
    }
    assert(crate::text::is_last_at(name, "."@, at));
    lemma_last_at(name, "."@, at);
    assert(name.skip(at + 1) =~= ext);
}

/// A name below a directory is put behind it with a separator, and the result leads
/// through the directory to the name.
pub proof fn law_joined(d: char, dirs: Seq<Seq<char>>, seps: Seq<char>, name: Seq<char>)
    requires
        is_alphabetic(d),
        dirs.len() > 0,
        dirs.len() == seps.len(),
        forall|i: int| 0 <= i < dirs.len() ==> is_part(#[trigger] dirs[i]),
        forall|i: int| 0 <= i < seps.len() ==> is_separator(#[trigger] seps[i]),
        is_part(name),
        name.len() < 2 || name[1] != ':',
    ensures
        joined(on_drive(d, dirs, seps), name) == on_drive(d, dirs, seps).push('\\') + name,
        components(joined(on_drive(d, dirs, seps), name)) == dirs.push(name),
        name != ".."@ ==> file_name(joined(on_drive(d, dirs, seps), name)) == name,
{
    let base = on_drive(d, dirs, seps);
    lemma_start(d, dirs, seps);
    assert(!is_separator(name[0]));
    reveal_strlit("\\\\");
    let b = crate::paths::backslashed(name);
    if starts_with(b, "\\\\"@) {
        assert(b.subrange(0, 2)[0] == b[0]);
    }
    assert(prefix_len(name) == 0);
    assert(is_part(dirs[dirs.len() - 1]));
    assert(base.last() == dirs.last()[dirs.last().len() - 1]);
    assert(!is_separator(base.last()));
    let names = dirs.push(name);
    let all = seps.push('\\');
    assert forall|i: int| 0 <= i < names.len() implies is_part(#[trigger] names[i]) by {
        if i < dirs.len() {
            assert(names[i] == dirs[i]);
        }
    }
    assert forall|i: int| 0 <= i < all.len() implies is_separator(#[trigger] all[i]) by {
        if i < seps.len() {
            assert(all[i] == seps[i]);
        }
    }
    law_path_comes_apart(d, names, all);
    lemma_more_separators(d, dirs, seps, all);
    assert(names.drop_last() =~= dirs);
    assert(base + seq!['\\'] + name =~= base.push('\\') + name);
}

/// Behind a bare drive and behind a separator none is added; a name that begins with a
/// drive of its own stands for itself, and one that begins with a separator keeps
/// only the drive.
pub proof fn law_joined_at_edges(
    d: char,
    dirs: Seq<Seq<char>>,
    seps: Seq<char>,
    name: Seq<char>,
    sep: char,
    e: char,
)
    requires
        is_alphabetic(d),
        is_alphabetic(e),
        dirs.len() > 0,
        dirs.len() == seps.len(),
        forall|i: int| 0 <= i < dirs.len() ==> is_part(#[trigger] dirs[i]),
        forall|i: int| 0 <= i < seps.len() ==> is_separator(#[trigger] seps[i]),
        is_part(name),
        name.len() < 2 || name[1] != ':',
        is_separator(sep),
    ensures
        joined(seq![d, ':'], name) == seq![d, ':'] + name,
        joined(on_drive(d, dirs, seps).push(sep), name) == on_drive(d, dirs, seps).push(sep) + name,
        joined(on_drive(d, dirs, seps), seq![e, ':'] + name) == seq![e, ':'] + name,
        joined(on_drive(d, dirs, seps), seq![sep] + name) == seq![d, ':', sep] + name,
{
    let base = on_drive(d, dirs, seps);
    lemma_start(d, dirs, seps);
    let none = Seq::<Seq<char>>::empty();
    lemma_start(d, none, seps);
    assert(on_drive(d, none, seps) =~= seq![d, ':']);
    lemma_starts_plain(base.push(sep));
    assert(!is_separator(name[0]));
    lemma_no_prefix(name);
    let whole = seq![e, ':'] + name;
    lemma_starts_plain(whole);
    let rooted = seq![sep] + name;
    lemma_no_prefix(rooted);
    assert(prefix(base) + rooted =~= seq![d, ':', sep] + name);
}

proof fn lemma_starts_plain(s: Seq<char>)
    requires
        s.len() >= 2,
        is_alphabetic(s[0]),
        s[1] == ':',
    ensures
        !is_verbatim(s),
        prefix_len(s) == 2,
{
    reveal_strlit("\\\\?\\");
    reveal_strlit("\\\\");
    if is_verbatim(s) {
        assert(s.subrange(0, 4)[0] == s[0]);
    }
    let b = crate::paths::backslashed(s);
    if starts_with(b, "\\\\"@) {
        assert(b.subrange(0, 2)[0] == b[0]);
    }
}

proof fn lemma_no_prefix(s: Seq<char>)
    requires
        s.len() > 0,
        s.len() < 2 || s[1] != ':' || !is_alphabetic(s[0]),
        s.len() < 2 || !is_separator(s[0]) || !is_separator(s[1]),
    ensures
        prefix_len(s) == 0,
{
    reveal_strlit("\\\\");
    let b = crate::paths::backslashed(s);
    if starts_with(b, "\\\\"@) {
        assert(b.subrange(0, 2)[0] == b[0]);
        assert(b.subrange(0, 2)[1] == b[1]);
    }
}

proof fn lemma_more_separators(d: char, names: Seq<Seq<char>>, seps: Seq<char>, all: Seq<char>)
    requires
        names.len() <= seps.len() <= all.len(),
        forall|i: int| 0 <= i < seps.len() ==> #[trigger] all[i] == seps[i],
    ensures
        on_drive(d, names, all) == on_drive(d, names, seps),
    decreases names.len(),
{
    if names.len() > 0 {
        lemma_more_separators(d, names.drop_last(), seps, all);
        assert(all[names.len() - 1] == seps[names.len() - 1]);
    }
}

/// Below the directory of users, in whatever case it is written, a path lies in the
/// profile of the user whose name comes next, on the same drive.
pub proof fn law_user_profile(
    d: char,
    before: Seq<Seq<char>>,
    users: Seq<char>,
    user: Seq<char>,
    after: Seq<Seq<char>>,
    seps: Seq<char>,
)
    requires
        is_alphabetic(d),
        before.len() + 2 + after.len() <= seps.len(),
        forall|i: int|
            0 <= i < before.len() ==> is_part(#[trigger] before[i]) && before[i] != ".."@ && lower(
                before[i],
            ) != "users"@,
        forall|i: int| 0 <= i < after.len() ==> is_part(#[trigger] after[i]) && after[i] != ".."@,
        is_part(users),
        lower(users) == "users"@,
        is_part(user),
        user != ".."@,
        forall|i: int| 0 <= i < seps.len() ==> is_separator(#[trigger] seps[i]),
    ensures
        profile_key(on_drive(d, before + seq![users, user] + after, seps)) == Some(
            seq![d, ':'] + "\\Users\\"@ + user,
        ),
{
    let names = before + seq![users, user] + after;
    reveal_strlit("..");
    reveal_strlit(".");
    reveal_strlit("users");
    assert(users != ".."@) by {
        assert(lower(users).len() == users.len());
    }
    assert forall|i: int| 0 <= i < names.len() implies is_part(#[trigger] names[i]) && !is_dots(
        names[i],
    ) by {
        if i < before.len() {
            assert(names[i] == before[i]);
        } else if i >= before.len() + 2 {
            assert(names[i] == after[i - before.len() - 2]);
        }
    }
    law_path_comes_apart(d, names, seps);
    lemma_all_normal(names);
    assert(lower("users"@) =~= "users"@);
    lemma_user_found(before, seq![users, user] + after);
    assert(names =~= before + (seq![users, user] + after));
}

proof fn lemma_all_normal(names: Seq<Seq<char>>)
    requires
        forall|i: int| 0 <= i < names.len() ==> !is_dots(#[trigger] names[i]),
    ensures
        normal_components(names) == names,
    decreases names.len(),
{
    if names.len() > 0 {
        let before = names.drop_last();
        assert forall|i: int| 0 <= i < before.len() implies !is_dots(#[trigger] before[i]) by {
            assert(before[i] == names[i]);
        }
        lemma_all_normal(before);
        assert(!is_dots(names[names.len() - 1]));
        assert(before.push(names.last()) =~= names);
    } else {
        assert(normal_components(names) =~= names);
    }
}

proof fn lemma_user_found(before: Seq<Seq<char>>, rest: Seq<Seq<char>>)
    requires
        rest.len() >= 2,
        same_ignoring_case(rest[0], "users"@),
        lower("users"@) == "users"@,
        forall|i: int| 0 <= i < before.len() ==> lower(#[trigger] before[i]) != "users"@,
    ensures
        user_in(before + rest) == Some(rest[1]),
    decreases before.len(),
{
    let all = before + rest;
    if before.len() == 0 {
        assert(all =~= rest);
    } else {
        let shorter = before.skip(1);
        assert forall|i: int| 0 <= i < shorter.len() implies lower(#[trigger] shorter[i])
            != "users"@ by {
            assert(shorter[i] == before[i + 1]);
        }
        lemma_user_found(shorter, rest);
        assert(all[0] == before[0]);
        assert(all.skip(1) =~= shorter + rest);
    }
}

/// A path that leads through no directory of users lies in no profile.
pub proof fn law_no_profile(d: char, names: Seq<Seq<char>>, seps: Seq<char>)
    requires
        is_alphabetic(d),
        names.len() > 0,
        names.len() <= seps.len(),
        forall|i: int|
            0 <= i < names.len() ==> is_part(#[trigger] names[i]) && names[i] != ".."@ && lower(
                names[i],
            ) != "users"@,
        forall|i: int| 0 <= i < seps.len() ==> is_separator(#[trigger] seps[i]),
    ensures
        profile_key(on_drive(d, names, seps)) is None,
{
    law_path_comes_apart(d, names, seps);
    assert forall|i: int| 0 <= i < names.len() implies !is_dots(#[trigger] names[i]) by {
        assert(is_part(names[i]));
    }
    lemma_all_normal(names);
    assert(lower("users"@) =~= "users"@) by {
        reveal_strlit("users");
    }
    lemma_no_user(names);
}

proof fn lemma_no_user(names: Seq<Seq<char>>)
    requires
        lower("users"@) == "users"@,
        forall|i: int| 0 <= i < names.len() ==> lower(#[trigger] names[i]) != "users"@,
    ensures
        user_in(names) is None,
    decreases names.len(),
{
    if names.len() >= 2 {
        let rest = names.skip(1);
        assert forall|i: int| 0 <= i < rest.len() implies lower(#[trigger] rest[i]) != "users"@ by {
            assert(rest[i] == names[i + 1]);
        }
        lemma_no_user(rest);
        assert(lower(names[0]) != "users"@);
    }
}

/// Two paths on drives are the same where they lead through the same names on the
/// same drive, whichever separators they are written with and in whatever case the
/// drive is; else they are not.
pub proof fn law_same_path(
    d: char,
    names: Seq<Seq<char>>,
    seps: Seq<char>,
    e: char,
    others: Seq<Seq<char>>,
    other_seps: Seq<char>,
)
    requires
        is_alphabetic(d),
        is_alphabetic(e),
        0 < names.len() <= seps.len(),
        0 < others.len() <= other_seps.len(),
        forall|i: int| 0 <= i < names.len() ==> is_part(#[trigger] names[i]),
        forall|i: int| 0 <= i < others.len() ==> is_part(#[trigger] others[i]),
        forall|i: int| 0 <= i < seps.len() ==> is_separator(#[trigger] seps[i]),
        forall|i: int| 0 <= i < other_seps.len() ==> is_separator(#[trigger] other_seps[i]),
    ensures
        path_identity(on_drive(d, names, seps)) == path_identity(on_drive(e, others, other_seps))
            <==> names == others && lower(seq![d]) == lower(seq![e]),
{
    law_path_comes_apart(d, names, seps);
    law_path_comes_apart(e, others, other_seps);
    lemma_head(d, names, seps);
    lemma_head(e, others, other_seps);
    let a = lower(seq![d, ':']);
    let b = lower(seq![e, ':']);
    if lower(seq![d]) == lower(seq![e]) {
        assert(lower(seq![d])[0] == lower(seq![e])[0]);
        assert(a =~= b);
    }
    if a == b {
        assert(a[0] == b[0]);
        assert(lower(seq![d]) =~= lower(seq![e]));
    }
}

proof fn lemma_head(d: char, names: Seq<Seq<char>>, seps: Seq<char>)
    requires
        is_written(d, names, seps),
        names.len() > 0,
    ensures
        ({
            let i = path_identity(on_drive(d, names, seps));
            i.prefix == lower(seq![d, ':']) && i.rooted && !i.here
        }),
{
    let s = on_drive(d, names, seps);
    lemma_start(d, names, seps);
    assert(is_separator(seps[0]));
    assert(s.skip(2)[0] == s[2]);
    assert(crate::paths::backslashed(seq![d, ':']) =~= seq![d, ':']);
}

proof fn lemma_piece(a: Seq<char>, rest: Seq<char>)
    requires
        forall|i: int| 0 <= i < a.len() ==> !is_separator(#[trigger] a[i]),
        rest.len() == 0 || is_separator(rest[0]),
    ensures
        crate::paths::piece_len(a + rest, CharClass::Separator) == a.len(),
    decreases a.len(),
{
    let s = a + rest;
    if a.len() > 0 {
        let b = a.skip(1);
        assert forall|i: int| 0 <= i < b.len() implies !is_separator(#[trigger] b[i]) by {
            assert(b[i] == a[i + 1]);
        }
        lemma_piece(b, rest);
        assert(s.skip(1) =~= b + rest);
        assert(!is_separator(a[0]));
        assert(s[0] == a[0]);
    } else {
        assert(s =~= rest);
    }
}

/// A path on a share begins with the names of the server and of the share, which
/// together take the place of the drive; behind them it comes apart like any other.
pub proof fn law_share(
    server: Seq<char>,
    share: Seq<char>,
    names: Seq<Seq<char>>,
    seps: Seq<char>,
    a: char,
    b: char,
    c: char,
)
    requires
        is_part(server),
        server != "?"@,
        is_part(share),
        is_separator(a) && is_separator(b) && is_separator(c),
        0 < names.len() <= seps.len(),
        forall|i: int| 0 <= i < names.len() ==> is_part(#[trigger] names[i]),
        forall|i: int| 0 <= i < seps.len() ==> is_separator(#[trigger] seps[i]),
    ensures
        ({
            let root = seq![a, b] + server + seq![c] + share;
            let path = root + on_drive('C', names, seps).skip(2);
            &&& prefix(path) == root
            &&& components(path) == names
            &&& names.last() != ".."@ ==> file_name(path) == names.last()
        }),
{
    let root = seq![a, b] + server + seq![c] + share;
    let tail = on_drive('C', names, seps).skip(2);
    let path = root + tail;
    lemma_start('C', names, seps);
    lemma_behind('C', names, seps);
    lemma_all_counted(names);
    assert(is_separator(seps[0]));
    assert(tail[0] == seps[0]);
    reveal_strlit("\\\\?\\");
    reveal_strlit("\\\\.\\");
    reveal_strlit("\\\\");
    reveal_strlit("?");
    reveal_strlit(".");
    let back = crate::paths::backslashed(path);
    assert(back.subrange(0, 2) =~= "\\\\"@);
    let rest = path.skip(2);
    assert(rest =~= server + (seq![c] + share + tail));
    lemma_piece(server, seq![c] + share + tail);
    assert(rest.skip(server.len() as int + 1) =~= share + tail);
    lemma_piece(share, tail);
    assert(!is_separator(server[0]));
    if is_verbatim(path) {
        assert(path.subrange(0, 4)[2] == path[2]);
        assert(path.subrange(0, 4)[3] == path[3]);
        assert(path[2] == server[0]);
        if server.len() > 1 {
            assert(path[3] == server[1]);
            assert(!is_separator(server[1]));
        }
        assert(server =~= "?"@);
    }
    if starts_with(back, "\\\\.\\"@) {
        assert(back.subrange(0, 4)[2] == back[2]);
        assert(back.subrange(0, 4)[3] == back[3]);
        assert(path[2] == server[0]);
        if server.len() > 1 {
            assert(path[3] == server[1]);
            assert(!is_separator(server[1]));
        }
        assert(server =~= "."@);
    }
    assert(prefix_len(path) == root.len());
    assert(path.take(root.len() as int) =~= root);
    assert(path.skip(root.len() as int) =~= tail);
    assert(tail.skip(1) =~= on_drive('C', names, seps).skip(3));
    assert(is_part(names[names.len() - 1]));
}

/// The key of a path has backslashes for slashes and small letters for capitals;
/// all else is kept.
pub proof fn law_path_key(path: Seq<char>, i: int)
    requires
        0 <= i < path.len(),
    ensures
        path_key(path).len() == path.len(),
        path[i] == '/' ==> path_key(path)[i] == '\\',
        path[i] != '/' ==> path_key(path)[i] == lower(path)[i],
{
}

} // verus!
