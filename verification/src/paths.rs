//! Windows paths as text: prefix, components, name and extension, and the keys
//! by which paths and user profiles are told apart.

use vstd::prelude::*;

use crate::order::{lists_map, OrderedMap};
use crate::text::{
    begins_with, char_is_alphabetic, chars_of, head, is_alphabetic, is_text,
    is_text_ignoring_case, lower, lower_chars, same_chars, same_ignoring_case, same_text, split,
    split_chars, starts_with, string_of, tail, CharClass,
};
use crate::viewer::{extension, extension_start};
use crate::views::{push_view, views};

verus! {

// ---------------------------------------------------------------------------
// Components
// ---------------------------------------------------------------------------

/// A path that is passed on to the system as it is: only a backslash separates.
pub open spec fn is_verbatim(s: Seq<char>) -> bool {
    starts_with(s, "\\\\?\\"@)
}

/// What separates the components of a path.
pub open spec fn separators(s: Seq<char>) -> CharClass {
    if is_verbatim(s) {
        CharClass::Only('\\')
    } else {
        CharClass::Separator
    }
}

/// `s` with backslashes in place of slashes.
pub open spec fn backslashed(s: Seq<char>) -> Seq<char> {
    s.map_values(
        |c: char|
            if c == '/' {
                '\\'
            } else {
                c
            },
    )
}

/// A letter and a colon.
pub open spec fn starts_with_drive(s: Seq<char>) -> bool {
    s.len() >= 2 && is_alphabetic(s[0]) && s[1] == ':'
}

/// The number of characters before the first of `k`.
pub open spec fn piece_len(s: Seq<char>, k: CharClass) -> int
    decreases s.len(),
{
    if s.len() == 0 || k.has(s[0]) {
        0
    } else {
        1 + piece_len(s.skip(1), k)
    }
}

/// The length of the second piece of `s`, which starts behind a separator.
pub open spec fn second_piece_len(s: Seq<char>, k: CharClass) -> int {
    let first = piece_len(s, k);
    if first < s.len() {
        piece_len(s.skip(first + 1), k)
    } else {
        0
    }
}

/// The length of the prefix of a path: a drive (`C:`), a share
/// (`\\server\share`), a device (`\\.\name`), or one of these written to be
/// passed on as it is (`\\?\C:`, `\\?\UNC\server\share`, `\\?\name`).
pub open spec fn prefix_len(s: Seq<char>) -> int {
    let b = backslashed(s);
    if starts_with(b, "\\\\"@) {
        if is_verbatim(s) {
            let k = CharClass::Only('\\');
            if starts_with(s, "\\\\?\\UNC\\"@) {
                let rest = s.skip(8);
                let second = second_piece_len(rest, k);
                8 + piece_len(rest, k) + if second > 0 {
                    1 + second
                } else {
                    0
                }
            } else {
                let rest = s.skip(4);
                if starts_with_drive(rest) && (rest.len() == 2 || rest[2] == '\\' || rest[2]
                    == '/') {
                    6
                } else {
                    4 + piece_len(rest, k)
                }
            }
        } else if starts_with(b, "\\\\.\\"@) {
            4 + piece_len(s.skip(4), CharClass::Separator)
        } else {
            let rest = s.skip(2);
            let first = piece_len(rest, CharClass::Separator);
            let second = second_piece_len(rest, CharClass::Separator);
            if first > 0 && second > 0 {
                3 + first + second
            } else {
                0
            }
        }
    } else if starts_with_drive(s) {
        2
    } else {
        0
    }
}

/// The prefix of a path, as written.
pub open spec fn prefix(s: Seq<char>) -> Seq<char> {
    s.take(prefix_len(s))
}

/// What stands behind the prefix and, where there is one, the root of a path.
pub open spec fn behind_root(s: Seq<char>) -> Seq<char> {
    let rest = s.skip(prefix_len(s));
    if has_root(rest) {
        rest.skip(1)
    } else {
        rest
    }
}

/// A path without a prefix that starts at a root.
pub open spec fn has_root(s: Seq<char>) -> bool {
    s.len() > 0 && CharClass::Separator.has(s[0])
}

/// The pieces that count as components: no empty ones and, where `dots` is not
/// set, none that are a single dot.
pub open spec fn counted(pieces: Seq<Seq<char>>, dots: bool) -> Seq<Seq<char>>
    decreases pieces.len(),
{
    if pieces.len() == 0 {
        Seq::empty()
    } else {
        let before = counted(pieces.drop_last(), dots);
        if pieces.last().len() == 0 || (!dots && pieces.last() == "."@) {
            before
        } else {
            before.push(pieces.last())
        }
    }
}

/// The components behind the root of a path, `..` included. A single dot is one
/// only where a path is passed on as it is.
pub open spec fn components(s: Seq<char>) -> Seq<Seq<char>> {
    counted(split(behind_root(s), separators(s)), is_verbatim(s))
}

/// A component that names nothing: a dot or two.
pub open spec fn is_dots(part: Seq<char>) -> bool {
    part == "."@ || part == ".."@
}

/// The last component of a path, where it is a name; else empty.
pub open spec fn file_name(s: Seq<char>) -> Seq<char> {
    let c = components(s);
    if c.len() == 0 || is_dots(c.last()) {
        Seq::empty()
    } else {
        c.last()
    }
}

/// The extension of the last component in lower case; empty where there is none.
pub open spec fn lower_extension(s: Seq<char>) -> Seq<char> {
    match extension(file_name(s)) {
        Some(e) => lower(e),
        None => Seq::empty(),
    }
}

fn first_piece(s: &[char], k: CharClass) -> (r: usize)
    ensures
        r as int == piece_len(s@, k),
        r <= s@.len(),
{
    let mut i: usize = 0;
    assert(s@.skip(0) =~= s@);
    while i < s.len() && !k.contains_char(s[i])
        invariant
            i <= s@.len(),
            i + piece_len(s@.skip(i as int), k) == piece_len(s@, k),
        decreases s@.len() - i,
    {
        assert(s@.skip(i as int).skip(1) =~= s@.skip(i + 1));
        i = i + 1;
    }
    i
}

fn second_piece(s: &[char], k: CharClass) -> (r: usize)
    ensures
        r as int == second_piece_len(s@, k),
        piece_len(s@, k) + 1 + r <= s@.len() || r == 0,
{
    let first: usize = first_piece(s, k);
    if first < s.len() {
        first_piece(tail(s, first + 1), k)
    } else {
        0
    }
}

pub fn to_backslashes(s: &[char]) -> (r: Vec<char>)
    ensures
        r@ == backslashed(s@),
{
    let mut out: Vec<char> = Vec::new();
    for i in 0..s.len()
        invariant
            out@ == backslashed(s@).take(i as int),
    {
        let c = s[i];
        out.push(
            if c == '/' {
                '\\'
            } else {
                c
            },
        );
        assert(out@ =~= backslashed(s@).take(i + 1));
    }
    assert(backslashed(s@).take(s@.len() as int) =~= backslashed(s@));
    out
}

fn has_drive(s: &[char]) -> (r: bool)
    ensures
        r == starts_with_drive(s@),
{
    s.len() >= 2 && char_is_alphabetic(s[0]) && s[1] == ':'
}

fn prefix_size(s: &[char]) -> (r: usize)
    ensures
        r as int == prefix_len(s@),
        r <= s@.len(),
{
    let b = to_backslashes(s);
    let total: usize = s.len();
    proof {
        reveal_strlit("\\\\");
        reveal_strlit("\\\\?\\");
        reveal_strlit("\\\\?\\UNC\\");
        reveal_strlit("\\\\.\\");
    }
    if begins_with(b.as_slice(), "\\\\") {
        if begins_with(s, "\\\\?\\") {
            let k = CharClass::Only('\\');
            if begins_with(s, "\\\\?\\UNC\\") {
                let rest = tail(s, 8);
                let first: usize = first_piece(rest, k);
                let second: usize = second_piece(rest, k);
                if second > 0 {
                    8 + first + 1 + second
                } else {
                    8 + first
                }
            } else {
                let rest = tail(s, 4);
                if has_drive(rest) && (rest.len() == 2 || rest[2] == '\\' || rest[2] == '/') {
                    6
                } else {
                    4 + first_piece(rest, k)
                }
            }
        } else if begins_with(b.as_slice(), "\\\\.\\") {
            4 + first_piece(tail(s, 4), CharClass::Separator)
        } else {
            let rest = tail(s, 2);
            let first: usize = first_piece(rest, CharClass::Separator);
            let second: usize = second_piece(rest, CharClass::Separator);
            if first > 0 && second > 0 {
                3 + first + second
            } else {
                0
            }
        }
    } else if has_drive(s) {
        2
    } else {
        0
    }
}

/// The prefix of a path and the components behind it.
pub fn parse_path(s: &[char]) -> (r: (String, Vec<String>))
    ensures
        r.0@ == prefix(s@),
        views(r.1@) == components(s@),
{
    let n: usize = prefix_size(s);
    let k = if begins_with(s, "\\\\?\\") {
        CharClass::Only('\\')
    } else {
        CharClass::Separator
    };
    let rest = tail(s, n);
    let behind = if starts_at_root(rest) {
        tail(rest, 1)
    } else {
        rest
    };
    let parts = counted_pieces(behind, k, begins_with(s, "\\\\?\\"));
    (string_of(head(s, n)), parts)
}

fn starts_at_root(s: &[char]) -> (r: bool)
    ensures
        r == has_root(s@),
{
    s.len() > 0 && CharClass::Separator.contains_char(s[0])
}

/// The pieces of `s` between characters of `k` that count.
fn counted_pieces(s: &[char], k: CharClass, dots: bool) -> (r: Vec<String>)
    ensures
        views(r@) == counted(split(s@, k), dots),
{
    let pieces = split_chars(s, k);
    let ghost all = split(s@, k);
    let mut parts: Vec<String> = Vec::new();
    assert(views(parts@) =~= counted(all.take(0), dots));
    for i in 0..pieces.len()
        invariant
            all == views(pieces@),
            views(parts@) == counted(all.take(i as int), dots),
    {
        assert(all.take(i + 1).drop_last() =~= all.take(i as int));
        assert(all.take(i + 1).last() == pieces@[i as int]@);
        if pieces[i].len() > 0 && (dots || !is_text(pieces[i].as_slice(), ".")) {
            push_view(&mut parts, string_of(pieces[i].as_slice()));
        }
    }
    assert(all.take(all.len() as int) =~= all);
    parts
}

/// Whether a component names nothing.
pub fn names_nothing(part: &str) -> (r: bool)
    ensures
        r == is_dots(part@),
{
    same_text(part, ".") || same_text(part, "..")
}

/// The last component of a path, where it is a name; else empty.
pub fn name_of_path(path: &str) -> (r: String)
    ensures
        r@ == file_name(path@),
{
    let chars = chars_of(path);
    let (_, parts) = parse_path(chars.as_slice());
    assert(views(parts@).len() == parts@.len());
    if parts.len() == 0 {
        return String::new();
    }
    let last = &parts[parts.len() - 1];
    assert(views(parts@).last() == last@);
    if names_nothing(last.as_str()) {
        String::new()
    } else {
        last.clone()
    }
}

/// The extension of the last component in lower case; empty where there is none.
pub fn extension_of_path(path: &str) -> (r: String)
    ensures
        r@ == lower_extension(path@),
{
    let name = name_of_path(path);
    let chars = chars_of(name.as_str());
    match extension_start(chars.as_slice()) {
        Some(at) => {
            let low = lower_chars(tail(chars.as_slice(), at));
            string_of(low.as_slice())
        },
        None => String::new(),
    }
}

/// Some component is a name and is `segment`, up to case.
pub open spec fn has_segment(path: Seq<char>, segment: Seq<char>) -> bool {
    exists|i: int|
        0 <= i < components(path).len() && !is_dots(#[trigger] components(path)[i])
            && same_ignoring_case(components(path)[i], segment)
}

pub fn path_has_segment(path: &str, expected_segment: &str) -> (r: bool)
    ensures
        r == has_segment(path@, expected_segment@),
{
    let chars = chars_of(path);
    let (_, parts) = parse_path(chars.as_slice());
    for i in 0..parts.len()
        invariant
            views(parts@) == components(path@),
            forall|j: int|
                0 <= j < i ==> is_dots(#[trigger] components(path@)[j]) || !same_ignoring_case(
                    components(path@)[j],
                    expected_segment@,
                ),
    {
        let part = chars_of(parts[i].as_str());
        assert(components(path@)[i as int] == part@);
        if !names_nothing(parts[i].as_str()) && is_text_ignoring_case(
            part.as_slice(),
            expected_segment,
        ) {
            return true;
        }
    }
    assert(views(parts@).len() == parts@.len());
    false
}

// ---------------------------------------------------------------------------
// Joining
// ---------------------------------------------------------------------------

/// Behind `base` no separator is needed: it is empty, ends with one, or is a
/// bare drive.
pub open spec fn is_open(base: Seq<char>) -> bool {
    ||| base.len() == 0
    ||| CharClass::Separator.has(base.last())
    ||| base.len() == 2 && starts_with_drive(base)
}

/// The components reached from `parts` by `steps`: `..` leaves a name.
pub open spec fn descended(parts: Seq<Seq<char>>, steps: Seq<Seq<char>>) -> Seq<Seq<char>>
    decreases steps.len(),
{
    if steps.len() == 0 {
        parts
    } else {
        let before = descended(parts, steps.drop_last());
        if steps.last() != ".."@ {
            before.push(steps.last())
        } else if before.len() > 0 && !is_dots(before.last()) {
            before.drop_last()
        } else {
            before
        }
    }
}

/// `parts` behind `start`, each with a backslash before it.
pub open spec fn below(start: Seq<char>, parts: Seq<Seq<char>>) -> Seq<char>
    decreases parts.len(),
{
    if parts.len() == 0 {
        start
    } else {
        below(start, parts.drop_last()) + seq!['\\'] + parts.last()
    }
}

/// `name` below a path that is passed on as it is: the result has no dots in
/// it but those of `base`.
pub open spec fn verbatim_joined(base: Seq<char>, name: Seq<char>) -> Seq<char> {
    let steps = components(name);
    let parts = descended(
        if has_root(name) {
            Seq::empty()
        } else {
            components(base)
        },
        steps,
    );
    if parts.len() == 0 && (has_root(name) || has_root(base.skip(prefix_len(base)))) {
        prefix(base) + seq!['\\']
    } else {
        below(prefix(base), parts)
    }
}

/// `name` below `base`. A name with a prefix stands for itself, and one with a
/// root keeps nothing of `base` but its prefix.
pub open spec fn joined(base: Seq<char>, name: Seq<char>) -> Seq<char> {
    if prefix_len(name) > 0 {
        name
    } else if is_verbatim(base) && name.len() > 0 {
        verbatim_joined(base, name)
    } else if has_root(name) {
        prefix(base) + name
    } else if is_open(base) {
        base + name
    } else {
        base + seq!['\\'] + name
    }
}

fn join_verbatim(base: &[char], name: &[char]) -> (r: String)
    ensures
        r@ == verbatim_joined(base@, name@),
{
    let (start, base_parts) = parse_path(base);
    let (_, steps) = parse_path(name);
    let mut parts: Vec<String> = if starts_at_root(name) {
        Vec::new()
    } else {
        base_parts
    };
    let ghost first = views(parts@);
    let ghost all = views(steps@);
    assert(has_root(name@) ==> first =~= Seq::empty());
    assert(first == descended(first, all.take(0)));
    for i in 0..steps.len()
        invariant
            all == views(steps@),
            views(parts@) == descended(first, all.take(i as int)),
    {
        assert(all.take(i + 1).drop_last() =~= all.take(i as int));
        assert(all.take(i + 1).last() == steps@[i as int]@);
        let ghost before = views(parts@);
        assert(before.len() == parts@.len());
        if !same_text(steps[i].as_str(), "..") {
            push_view(&mut parts, steps[i].clone());
        } else if parts.len() > 0 && !names_nothing(parts[parts.len() - 1].as_str()) {
            let _ = parts.pop();
            assert(views(parts@) =~= before.drop_last());
        }
    }
    assert(all.take(all.len() as int) =~= all);
    let ghost done = views(parts@);
    let mut out = start;
    let n: usize = prefix_size(base);
    if parts.len() == 0 && (starts_at_root(name) || starts_at_root(tail(base, n))) {
        out.push('\\');
        assert(out@ =~= prefix(base@) + seq!['\\']);
        return out;
    }
    assert(done.take(0) =~= Seq::empty());
    for i in 0..parts.len()
        invariant
            done == views(parts@),
            out@ == below(prefix(base@), done.take(i as int)),
    {
        assert(done.take(i + 1).drop_last() =~= done.take(i as int));
        assert(done.take(i + 1).last() == parts@[i as int]@);
        out.push('\\');
        out.push_str(parts[i].as_str());
        assert(out@ =~= below(prefix(base@), done.take(i + 1)));
    }
    assert(done.take(done.len() as int) =~= done);
    out
}

pub fn join_path(base: &str, name: &str) -> (r: String)
    ensures
        r@ == joined(base@, name@),
{
    let b = chars_of(base);
    let n = chars_of(name);
    if prefix_size(n.as_slice()) > 0 {
        return name.to_string();
    }
    if begins_with(b.as_slice(), "\\\\?\\") && n.len() > 0 {
        return join_verbatim(b.as_slice(), n.as_slice());
    }
    let mut out = if starts_at_root(n.as_slice()) {
        string_of(head(b.as_slice(), prefix_size(b.as_slice())))
    } else {
        base.to_string()
    };
    if !starts_at_root(n.as_slice()) && b.len() > 0 && !CharClass::Separator.contains_char(
        b[b.len() - 1],
    ) && !(b.len() == 2 && has_drive(b.as_slice())) {
        out.push('\\');
    }
    out.push_str(name);
    assert(out@ =~= joined(base@, name@));
    out
}

// ---------------------------------------------------------------------------
// Equality
// ---------------------------------------------------------------------------

/// The prefix of a path is a drive.
pub open spec fn has_drive_prefix(s: Seq<char>) -> bool {
    ||| prefix_len(s) == 2
    ||| is_verbatim(s) && prefix_len(s) == 6 && starts_with_drive(s.skip(4))
}

/// The prefix of a path, written in one way only: it does not matter in which
/// case a drive is written and, unless the path is passed on as it is, which
/// separators are.
pub open spec fn plain_prefix(s: Seq<char>) -> Seq<char> {
    let p = if is_verbatim(s) {
        prefix(s)
    } else {
        backslashed(prefix(s))
    };
    if has_drive_prefix(s) {
        lower(p)
    } else {
        p
    }
}

/// A path starts at a root. A share or a device has one even where no
/// separator follows it.
pub open spec fn is_rooted(s: Seq<char>) -> bool {
    has_root(s.skip(prefix_len(s))) || (prefix_len(s) > 2 && !is_verbatim(s))
}

/// A path starts with a dot that stands for the directory one is in.
pub open spec fn starts_here(s: Seq<char>) -> bool {
    let rest = s.skip(prefix_len(s));
    &&& !is_verbatim(s) && !is_rooted(s)
    &&& rest.len() > 0 && rest[0] == '.'
    &&& rest.len() == 1 || CharClass::Separator.has(rest[1])
}

/// What tells a path apart from others.
#[verifier::ext_equal]
pub struct PathIdentity {
    pub prefix: Seq<char>,
    pub rooted: bool,
    pub here: bool,
    pub parts: Seq<Seq<char>>,
}

pub open spec fn path_identity(s: Seq<char>) -> PathIdentity {
    PathIdentity {
        prefix: plain_prefix(s),
        rooted: is_rooted(s),
        here: starts_here(s),
        parts: components(s),
    }
}

/// A prefix written in one way only, whether the path is rooted, and whether it
/// starts with a dot.
fn identity_head(s: &[char]) -> (r: (Vec<char>, bool, bool))
    ensures
        r.0@ == plain_prefix(s@),
        r.1 == is_rooted(s@),
        r.2 == starts_here(s@),
{
    let n: usize = prefix_size(s);
    let verbatim = begins_with(s, "\\\\?\\");
    let front = head(s, n);
    let rest = tail(s, n);
    let mut p = if verbatim {
        chars_of(string_of(front).as_str())
    } else {
        to_backslashes(front)
    };
    if n == 2 || (verbatim && n == 6 && has_drive(tail(s, 4))) {
        p = lower_chars(p.as_slice());
    }
    let rooted = starts_at_root(rest) || (n > 2 && !verbatim);
    let here = !verbatim && !rooted && rest.len() > 0 && rest[0] == '.' && (rest.len() == 1
        || CharClass::Separator.contains_char(rest[1]));
    (p, rooted, here)
}

fn same_parts(a: &Vec<String>, b: &Vec<String>) -> (r: bool)
    ensures
        r == (views(a@) == views(b@)),
{
    assert(views(a@).len() == a@.len() && views(b@).len() == b@.len());
    if a.len() != b.len() {
        return false;
    }
    for i in 0..a.len()
        invariant
            a@.len() == b@.len(),
            forall|j: int| 0 <= j < i ==> a@[j]@ == b@[j]@,
    {
        if !same_text(a[i].as_str(), b[i].as_str()) {
            assert(views(a@)[i as int] != views(b@)[i as int]);
            return false;
        }
    }
    assert(views(a@) =~= views(b@));
    true
}

/// Whether two paths are the same, however they are written.
pub fn is_same_path(a: &str, b: &str) -> (r: bool)
    ensures
        r == (path_identity(a@) == path_identity(b@)),
{
    let x = chars_of(a);
    let y = chars_of(b);
    let (prefix_a, rooted_a, here_a) = identity_head(x.as_slice());
    let (prefix_b, rooted_b, here_b) = identity_head(y.as_slice());
    let (_, parts_a) = parse_path(x.as_slice());
    let (_, parts_b) = parse_path(y.as_slice());
    same_chars(prefix_a.as_slice(), prefix_b.as_slice()) && rooted_a == rooted_b && here_a
        == here_b && same_parts(&parts_a, &parts_b)
}

// ---------------------------------------------------------------------------
// Keys
// ---------------------------------------------------------------------------

/// The key by which a path is told apart from others: backslashes, lower case.
pub open spec fn path_key(path: Seq<char>) -> Seq<char> {
    lower(backslashed(path))
}

pub fn normalize_path_key(path: &str) -> (r: String)
    ensures
        r@ == path_key(path@),
{
    let chars = chars_of(path);
    let back = to_backslashes(chars.as_slice());
    let low = lower_chars(back.as_slice());
    string_of(low.as_slice())
}

/// A key is its own key.
pub proof fn law_path_key_idempotent(path: Seq<char>)
    ensures
        path_key(path_key(path)) == path_key(path),
{
    assert(path_key(path_key(path)) =~= path_key(path));
}

/// The components that are names.
pub open spec fn normal_components(parts: Seq<Seq<char>>) -> Seq<Seq<char>>
    decreases parts.len(),
{
    if parts.len() == 0 {
        Seq::empty()
    } else if is_dots(parts.last()) {
        normal_components(parts.drop_last())
    } else {
        normal_components(parts.drop_last()).push(parts.last())
    }
}

/// The component behind the first one that is `users` in any case, where one
/// stands behind it.
pub open spec fn user_in(parts: Seq<Seq<char>>) -> Option<Seq<char>>
    decreases parts.len(),
{
    if parts.len() < 2 {
        None
    } else if same_ignoring_case(parts[0], "users"@) {
        Some(parts[1])
    } else {
        user_in(parts.skip(1))
    }
}

/// The user profile that a path lies in: the prefix of the path, `Users` and
/// the name of the user.
pub open spec fn profile_key(path: Seq<char>) -> Option<Seq<char>> {
    match user_in(normal_components(components(path))) {
        Some(user) => if prefix(path).len() == 0 {
            Some("Users\\"@ + user)
        } else {
            Some(prefix(path) + "\\Users\\"@ + user)
        },
        None => None,
    }
}

pub fn profile_key_from_path(path: &str) -> (r: Option<String>)
    ensures
        match r {
            Some(key) => profile_key(path@) == Some(key@),
            None => profile_key(path@) is None,
        },
{
    let chars = chars_of(path);
    let (drive, all_parts) = parse_path(chars.as_slice());
    let ghost all = views(all_parts@);
    let mut parts: Vec<String> = Vec::new();
    assert(views(parts@) =~= normal_components(all.take(0)));
    for i in 0..all_parts.len()
        invariant
            all == views(all_parts@),
            views(parts@) == normal_components(all.take(i as int)),
    {
        assert(all.take(i + 1).drop_last() =~= all.take(i as int));
        assert(all.take(i + 1).last() == all_parts@[i as int]@);
        if !names_nothing(all_parts[i].as_str()) {
            push_view(&mut parts, all_parts[i].clone());
        }
    }
    assert(all.take(all.len() as int) =~= all);
    let ghost normal = views(parts@);
    let mut i: usize = 0;
    assert(normal.skip(0) =~= normal);
    while i < parts.len() && parts.len() - i > 1
        invariant
            normal == views(parts@),
            i <= parts@.len(),
            user_in(normal.skip(i as int)) == user_in(normal),
            normal == normal_components(components(path@)),
            drive@ == prefix(path@),
        decreases parts@.len() - i,
    {
        let part = chars_of(parts[i].as_str());
        assert(normal.skip(i as int)[0] == part@);
        assert(normal.skip(i as int).skip(1) =~= normal.skip(i + 1));
        if is_text_ignoring_case(part.as_slice(), "users") {
            assert(normal.skip(i as int)[1] == parts@[i + 1]@);
            let drive_chars = chars_of(drive.as_str());
            let mut key = if drive_chars.len() == 0 {
                "Users\\".to_string()
            } else {
                let mut start = drive;
                start.push_str("\\Users\\");
                start
            };
            key.push_str(parts[i + 1].as_str());
            return Some(key);
        }
        i = i + 1;
    }
    None
}

/// Numbers paths by their keys: a path whose key is known gets no number, every
/// other one the next.
pub struct UniquePaths {
    index: OrderedMap<String, usize>,
    count: usize,
}

impl View for UniquePaths {
    type V = Map<Seq<char>, usize>;

    closed spec fn view(&self) -> Map<Seq<char>, usize> {
        self.index@
    }
}

impl UniquePaths {
    /// The number that the next new path gets.
    pub closed spec fn next(&self) -> nat {
        self.count as nat
    }

    pub fn new() -> (r: UniquePaths)
        ensures
            r@ == Map::<Seq<char>, usize>::empty(),
            r.next() == 0,
    {
        UniquePaths { index: OrderedMap::new(), count: 0 }
    }

    /// Whether `path` is new; if so it gets the next number.
    pub fn add(&mut self, path: &str) -> (r: bool)
        requires
            old(self).next() < usize::MAX,
        ensures
            r == !old(self)@.dom().contains(path_key(path@)),
            r ==> final(self)@ == old(self)@.insert(path_key(path@), old(self).next() as usize),
            r ==> final(self).next() == old(self).next() + 1,
            !r ==> final(self)@ == old(self)@ && final(self).next() == old(self).next(),
    {
        let key = normalize_path_key(path);
        match self.index.get(&key) {
            Some(_) => false,
            None => {
                self.index.insert(key, self.count);
                self.count = self.count + 1;
                true
            },
        }
    }

    /// The numbers in increasing order of the keys.
    pub fn order(&self) -> (r: Vec<usize>)
        ensures
            exists|keys: Seq<Seq<char>>| #[trigger] lists_map::<String, usize>(keys, r@, self@),
    {
        let (keys, values) = self.index.as_lists();
        let mut out: Vec<usize> = Vec::new();
        for i in 0..values.len()
            invariant
                out@ == values@.take(i as int),
        {
            out.push(values[i]);
            assert(out@ =~= values@.take(i + 1));
        }
        assert(out@ =~= views(values@));
        assert(lists_map::<String, usize>(views(keys@), out@, self@));
        out
    }
}

} // verus!
