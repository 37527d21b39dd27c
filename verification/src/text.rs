//! Character-level text routines, each stated over sequences of characters.

use vstd::prelude::*;
use vstd::slice::slice_subrange;

use crate::views::{push_view, views};

verus! {

/// `String::push` adds one character at the end.
pub assume_specification[ String::push ](s: &mut String, ch: char)
    ensures
        final(s)@ == old(s)@.push(ch),
;

/// `String::push_str` adds the characters of `other` at the end.
pub assume_specification[ String::push_str ](s: &mut String, other: &str)
    ensures
        final(s)@ == old(s)@ + other@,
;

// ---------------------------------------------------------------------------
// Characters
// ---------------------------------------------------------------------------

/// The lower-case form of an ASCII capital; every other character is itself.
pub open spec fn lower_char(c: char) -> char {
    if 'A' <= c && c <= 'Z' {
        ((c as u32) + 32) as char
    } else {
        c
    }
}

/// ASCII decimal digits.
pub open spec fn is_digit(c: char) -> bool {
    '0' <= c && c <= '9'
}

/// ASCII letters.
pub open spec fn is_alphabetic(c: char) -> bool {
    ('A' <= c && c <= 'Z') || ('a' <= c && c <= 'z')
}

/// ASCII letters and digits.
pub open spec fn is_alphanumeric(c: char) -> bool {
    is_alphabetic(c) || is_digit(c)
}

/// Characters with the Unicode property `White_Space`.
pub open spec fn is_space(c: char) -> bool {
    let u = c as u32;
    ||| 9 <= u <= 13
    ||| u == 0x20
    ||| u == 0x85
    ||| u == 0xa0
    ||| u == 0x1680
    ||| 0x2000 <= u <= 0x200a
    ||| u == 0x2028
    ||| u == 0x2029
    ||| u == 0x202f
    ||| u == 0x205f
    ||| u == 0x3000
}

/// Characters of the Unicode category `Cc`.
pub open spec fn is_control(c: char) -> bool {
    let u = c as u32;
    u < 0x20 || 0x7f <= u <= 0x9f
}

pub fn lower_char_exec(c: char) -> (r: char)
    ensures
        r == lower_char(c),
{
    if 'A' <= c && c <= 'Z' {
        ((c as u8) + 32) as char
    } else {
        c
    }
}

pub fn char_is_digit(c: char) -> (r: bool)
    ensures
        r == is_digit(c),
{
    '0' <= c && c <= '9'
}

pub fn char_is_alphabetic(c: char) -> (r: bool)
    ensures
        r == is_alphabetic(c),
{
    ('A' <= c && c <= 'Z') || ('a' <= c && c <= 'z')
}

pub fn char_is_alphanumeric(c: char) -> (r: bool)
    ensures
        r == is_alphanumeric(c),
{
    char_is_alphabetic(c) || char_is_digit(c)
}

pub fn char_is_space(c: char) -> (r: bool)
    ensures
        r == is_space(c),
{
    let u: u32 = c as u32;
    (9 <= u && u <= 13) || u == 0x20 || u == 0x85 || u == 0xa0 || u == 0x1680 || (0x2000 <= u && u
        <= 0x200a) || u == 0x2028 || u == 0x2029 || u == 0x202f || u == 0x205f || u == 0x3000
}

pub fn char_is_control(c: char) -> (r: bool)
    ensures
        r == is_control(c),
{
    let u: u32 = c as u32;
    u < 0x20 || (0x7f <= u && u <= 0x9f)
}

/// A set of characters that text is trimmed of or split at.
#[derive(Clone, Copy)]
pub enum CharClass {
    /// White space.
    Space,
    /// One given character.
    Only(char),
    /// The two path separators.
    Separator,
}

impl CharClass {
    pub open spec fn has(self, c: char) -> bool {
        match self {
            CharClass::Space => is_space(c),
            CharClass::Only(x) => c == x,
            CharClass::Separator => c == '\\' || c == '/',
        }
    }

    pub fn contains_char(self, c: char) -> (r: bool)
        ensures
            r == self.has(c),
    {
        match self {
            CharClass::Space => char_is_space(c),
            CharClass::Only(x) => c == x,
            CharClass::Separator => c == '\\' || c == '/',
        }
    }
}

// ---------------------------------------------------------------------------
// Conversions
// ---------------------------------------------------------------------------

/// The characters of `s`, in order.
pub fn chars_of(s: &str) -> (r: Vec<char>)
    ensures
        r@ == s@,
{
    let mut out: Vec<char> = Vec::new();
    for ch in it: s.chars()
        invariant
            out@ == it.seq().take(it.index() as int),
            it.seq() == s@,
    {
        out.push(ch);
    }
    out
}

/// The text made of `chars`, in order.
pub fn string_of(chars: &[char]) -> (r: String)
    ensures
        r@ == chars@,
{
    let mut out = String::new();
    for i in 0..chars.len()
        invariant
            out@ == chars@.take(i as int),
    {
        out.push(chars[i]);
        assert(chars@.take(i + 1) == chars@.take(i as int).push(chars@[i as int]));
    }
    assert(chars@.take(chars@.len() as int) == chars@);
    out
}

/// Adds `chars` at the end of `out`.
pub fn push_chars(out: &mut String, chars: &[char])
    ensures
        final(out)@ == old(out)@ + chars@,
{
    for i in 0..chars.len()
        invariant
            out@ == old(out)@ + chars@.take(i as int),
    {
        out.push(chars[i]);
        assert(chars@.take(i + 1) == chars@.take(i as int).push(chars@[i as int]));
    }
    assert(chars@.take(chars@.len() as int) == chars@);
}

/// Adds the strings of `more` at the end of `v`.
pub fn append_texts(v: &mut Vec<String>, more: &Vec<String>)
    ensures
        views(final(v)@) == views(old(v)@) + views(more@),
{
    for i in 0..more.len()
        invariant
            views(v@) == views(old(v)@) + views(more@).take(i as int),
    {
        push_view(v, more[i].clone());
        assert(views(v@) =~= views(old(v)@) + views(more@).take(i + 1));
    }
    assert(views(more@).take(more@.len() as int) == views(more@));
}

// ---------------------------------------------------------------------------
// Case
// ---------------------------------------------------------------------------

/// `s` with ASCII capitals made lower case.
pub open spec fn lower(s: Seq<char>) -> Seq<char> {
    s.map_values(|c: char| lower_char(c))
}

/// Equality up to the case of ASCII letters.
pub open spec fn same_ignoring_case(a: Seq<char>, b: Seq<char>) -> bool {
    lower(a) == lower(b)
}

pub fn lower_chars(s: &[char]) -> (r: Vec<char>)
    ensures
        r@ == lower(s@),
{
    let mut out: Vec<char> = Vec::new();
    for i in 0..s.len()
        invariant
            out@ == lower(s@).take(i as int),
    {
        out.push(lower_char_exec(s[i]));
        assert(out@ =~= lower(s@).take(i + 1));
    }
    assert(lower(s@).take(s@.len() as int) == lower(s@));
    out
}

/// `s` with ASCII capitals made lower case.
pub fn to_lower(s: &str) -> (r: String)
    ensures
        r@ == lower(s@),
{
    let chars = chars_of(s);
    let low = lower_chars(chars.as_slice());
    string_of(low.as_slice())
}

/// Whether two character lists are equal.
pub fn same_chars(a: &[char], b: &[char]) -> (r: bool)
    ensures
        r == (a@ == b@),
{
    if a.len() != b.len() {
        return false;
    }
    for i in 0..a.len()
        invariant
            a@.len() == b@.len(),
            forall|j: int| 0 <= j < i ==> a@[j] == b@[j],
    {
        if a[i] != b[i] {
            return false;
        }
    }
    assert(a@ =~= b@);
    true
}

/// Whether two texts are equal.
pub fn same_text(a: &str, b: &str) -> (r: bool)
    ensures
        r == (a@ == b@),
{
    let x = chars_of(a);
    let y = chars_of(b);
    same_chars(x.as_slice(), y.as_slice())
}

/// Whether the characters `a` spell the text `b`.
pub fn is_text(a: &[char], b: &str) -> (r: bool)
    ensures
        r == (a@ == b@),
{
    let y = chars_of(b);
    same_chars(a, y.as_slice())
}

/// Whether the characters `a` spell the text `b` up to the case of ASCII letters.
pub fn is_text_ignoring_case(a: &[char], b: &str) -> (r: bool)
    ensures
        r == same_ignoring_case(a@, b@),
{
    let x = lower_chars(a);
    let c = chars_of(b);
    let y = lower_chars(c.as_slice());
    same_chars(x.as_slice(), y.as_slice())
}

// ---------------------------------------------------------------------------
// Searching
// ---------------------------------------------------------------------------

/// `n` stands in `h` at index `i`.
pub open spec fn occurs_at<T>(h: Seq<T>, n: Seq<T>, i: int) -> bool {
    0 <= i && i + n.len() <= h.len() && h.subrange(i, i + n.len()) == n
}

/// `n` stands somewhere in `h`.
pub open spec fn contains<T>(h: Seq<T>, n: Seq<T>) -> bool {
    exists|i: int| occurs_at(h, n, i)
}

/// `i` is the least index at which `n` stands in `h`.
pub open spec fn is_first_at<T>(h: Seq<T>, n: Seq<T>, i: int) -> bool {
    occurs_at(h, n, i) && forall|j: int| j < i ==> !occurs_at(h, n, j)
}

/// `i` is the greatest index at which `n` stands in `h`.
pub open spec fn is_last_at<T>(h: Seq<T>, n: Seq<T>, i: int) -> bool {
    occurs_at(h, n, i) && forall|j: int| j > i ==> !occurs_at(h, n, j)
}

/// The least index at which `n` stands in `h`.
pub open spec fn first_at<T>(h: Seq<T>, n: Seq<T>) -> Option<int> {
    if contains(h, n) {
        Some(choose|i: int| is_first_at(h, n, i))
    } else {
        None
    }
}

/// The greatest index at which `n` stands in `h`.
pub open spec fn last_at<T>(h: Seq<T>, n: Seq<T>) -> Option<int> {
    if contains(h, n) {
        Some(choose|i: int| is_last_at(h, n, i))
    } else {
        None
    }
}

pub open spec fn starts_with<T>(s: Seq<T>, p: Seq<T>) -> bool {
    occurs_at(s, p, 0)
}

pub open spec fn ends_with<T>(s: Seq<T>, p: Seq<T>) -> bool {
    occurs_at(s, p, s.len() - p.len())
}

/// What follows the prefix `p` of `s`.
pub open spec fn after_prefix<T>(s: Seq<T>, p: Seq<T>) -> Option<Seq<T>> {
    if starts_with(s, p) {
        Some(s.skip(p.len() as int))
    } else {
        None
    }
}

/// A text contains what stands inside it.
pub proof fn lemma_contains_inside<T>(before: Seq<T>, inner: Seq<T>, after: Seq<T>)
    ensures
        contains(before + inner + after, inner),
{
    let whole = before + inner + after;
    let at = before.len() as int;
    assert(whole.subrange(at, at + inner.len()) =~= inner);
    assert(occurs_at(whole, inner, at));
}

/// The least index is the one that `first_at` names.
pub proof fn lemma_first_at<T>(h: Seq<T>, n: Seq<T>, i: int)
    requires
        is_first_at(h, n, i),
    ensures
        first_at(h, n) == Some(i),
{
    let k = choose|k: int| is_first_at(h, n, k);
    assert(occurs_at(h, n, i) && occurs_at(h, n, k));
}

/// The greatest index is the one that `last_at` names.
pub proof fn lemma_last_at<T>(h: Seq<T>, n: Seq<T>, i: int)
    requires
        is_last_at(h, n, i),
    ensures
        last_at(h, n) == Some(i),
{
    let k = choose|k: int| is_last_at(h, n, k);
    assert(occurs_at(h, n, i) && occurs_at(h, n, k));
}

/// Whether `n` stands in `h` at index `i`.
pub fn stands_at(h: &[char], n: &[char], i: usize) -> (r: bool)
    ensures
        r == occurs_at(h@, n@, i as int),
{
    let size: usize = h.len();
    if n.len() > size || i > size - n.len() {
        return false;
    }
    for j in 0..n.len()
        invariant
            size == h@.len(),
            i + n@.len() <= h@.len(),
            forall|k: int| 0 <= k < j ==> h@[i + k] == n@[k],
    {
        if h[i + j] != n[j] {
            assert(h@.subrange(i as int, i + n@.len())[j as int] != n@[j as int]);
            return false;
        }
    }
    assert(h@.subrange(i as int, i + n@.len()) =~= n@);
    true
}

/// The least index at which `n` stands in `h`.
pub fn find_chars(h: &[char], n: &[char]) -> (r: Option<usize>)
    ensures
        match r {
            Some(i) => first_at(h@, n@) == Some(i as int) && occurs_at(h@, n@, i as int),
            None => first_at(h@, n@) is None,
        },
        r is Some == contains(h@, n@),
{
    if n.len() > h.len() {
        return None;
    }
    let limit: usize = h.len() - n.len();
    let mut i: usize = 0;
    loop
        invariant
            n@.len() <= h@.len(),
            limit == h@.len() - n@.len(),
            i <= limit,
            forall|j: int| j < i ==> !occurs_at(h@, n@, j),
        decreases limit - i,
    {
        if stands_at(h, n, i) {
            proof {
                assert(is_first_at(h@, n@, i as int));
                lemma_first_at(h@, n@, i as int);
            }
            return Some(i);
        }
        if i == limit {
            assert(!contains(h@, n@));
            return None;
        }
        i = i + 1;
    }
}

/// The greatest index at which `n` stands in `h`.
pub fn rfind_chars(h: &[char], n: &[char]) -> (r: Option<usize>)
    ensures
        match r {
            Some(i) => last_at(h@, n@) == Some(i as int) && occurs_at(h@, n@, i as int),
            None => last_at(h@, n@) is None,
        },
        r is Some == contains(h@, n@),
{
    if n.len() > h.len() {
        return None;
    }
    let mut i: usize = h.len() - n.len();
    loop
        invariant
            i + n@.len() <= h@.len(),
            forall|j: int| j > i ==> !occurs_at(h@, n@, j),
        decreases i,
    {
        if stands_at(h, n, i) {
            proof {
                assert(is_last_at(h@, n@, i as int));
                lemma_last_at(h@, n@, i as int);
            }
            return Some(i);
        }
        if i == 0 {
            assert(!contains(h@, n@));
            return None;
        }
        i = i - 1;
    }
}

/// Whether `n` stands somewhere in `h`.
pub fn has_text(h: &[char], n: &str) -> (r: bool)
    ensures
        r == contains(h@, n@),
{
    let needle = chars_of(n);
    find_chars(h, needle.as_slice()).is_some()
}

pub fn begins_with(h: &[char], p: &str) -> (r: bool)
    ensures
        r == starts_with(h@, p@),
{
    let prefix = chars_of(p);
    stands_at(h, prefix.as_slice(), 0)
}

pub fn finishes_with(h: &[char], p: &str) -> (r: bool)
    ensures
        r == ends_with(h@, p@),
{
    let suffix = chars_of(p);
    if suffix.len() > h.len() {
        return false;
    }
    stands_at(h, suffix.as_slice(), h.len() - suffix.len())
}

/// What follows the prefix `p` of `h`.
pub fn strip_start<'a>(h: &'a [char], p: &str) -> (r: Option<&'a [char]>)
    ensures
        match r {
            Some(rest) => after_prefix(h@, p@) == Some(rest@),
            None => after_prefix(h@, p@) is None,
        },
{
    let prefix = chars_of(p);
    if stands_at(h, prefix.as_slice(), 0) {
        Some(tail(h, prefix.len()))
    } else {
        None
    }
}

/// The first `n` characters.
pub fn head<'a>(s: &'a [char], n: usize) -> (r: &'a [char])
    requires
        n <= s@.len(),
    ensures
        r@ == s@.take(n as int),
{
    let r = slice_subrange(s, 0, n);
    assert(r@ =~= s@.take(n as int));
    r
}

/// All but the first `n` characters.
pub fn tail<'a>(s: &'a [char], n: usize) -> (r: &'a [char])
    requires
        n <= s@.len(),
    ensures
        r@ == s@.skip(n as int),
{
    let r = slice_subrange(s, n, s.len());
    assert(r@ =~= s@.skip(n as int));
    r
}

// ---------------------------------------------------------------------------
// Trimming
// ---------------------------------------------------------------------------

pub open spec fn trim_start(s: Seq<char>, k: CharClass) -> Seq<char>
    decreases s.len(),
{
    if s.len() > 0 && k.has(s[0]) {
        trim_start(s.skip(1), k)
    } else {
        s
    }
}

pub open spec fn trim_end(s: Seq<char>, k: CharClass) -> Seq<char>
    decreases s.len(),
{
    if s.len() > 0 && k.has(s.last()) {
        trim_end(s.drop_last(), k)
    } else {
        s
    }
}

/// `s` without the characters of `k` at its two ends.
pub open spec fn trim(s: Seq<char>, k: CharClass) -> Seq<char> {
    trim_end(trim_start(s, k), k)
}

pub fn trim_end_chars<'a>(s: &'a [char], k: CharClass) -> (r: &'a [char])
    ensures
        r@ == trim_end(s@, k),
{
    let mut end: usize = s.len();
    assert(s@.take(end as int) == s@);
    while end > 0 && k.contains_char(s[end - 1])
        invariant
            end <= s@.len(),
            trim_end(s@.take(end as int), k) == trim_end(s@, k),
        decreases end,
    {
        assert(s@.take(end as int).drop_last() == s@.take(end - 1));
        end = end - 1;
    }
    head(s, end)
}

pub fn trim_chars<'a>(s: &'a [char], k: CharClass) -> (r: &'a [char])
    ensures
        r@ == trim(s@, k),
{
    let mut start: usize = 0;
    assert(s@.skip(0) == s@);
    while start < s.len() && k.contains_char(s[start])
        invariant
            start <= s@.len(),
            trim_start(s@.skip(start as int), k) == trim_start(s@, k),
        decreases s@.len() - start,
    {
        assert(s@.skip(start as int).skip(1) == s@.skip(start + 1));
        start = start + 1;
    }
    trim_end_chars(tail(s, start), k)
}

/// `s` without white space at its ends, then without double, then without
/// single quotes there.
pub open spec fn unquoted(s: Seq<char>) -> Seq<char> {
    trim(trim(trim(s, CharClass::Space), CharClass::Only('"')), CharClass::Only('\''))
}

/// A text that neither starts nor ends with white space or a quote is kept as it is.
pub proof fn lemma_unquoted_stable(s: Seq<char>)
    requires
        s.len() > 0,
        !is_space(s[0]) && s[0] != '"' && s[0] != '\'',
        !is_space(s.last()) && s.last() != '"' && s.last() != '\'',
    ensures
        unquoted(s) == s,
{
}

pub fn unquote<'a>(s: &'a [char]) -> (r: &'a [char])
    ensures
        r@ == unquoted(s@),
{
    let a = trim_chars(s, CharClass::Space);
    let b = trim_chars(a, CharClass::Only('"'));
    trim_chars(b, CharClass::Only('\''))
}

// ---------------------------------------------------------------------------
// Splitting
// ---------------------------------------------------------------------------

/// The pieces of `s` between the characters of `k`: such a character opens a
/// new piece, every other one extends the last.
pub open spec fn split(s: Seq<char>, k: CharClass) -> Seq<Seq<char>>
    decreases s.len(),
{
    if s.len() == 0 {
        seq![Seq::<char>::empty()]
    } else {
        let before = split(s.drop_last(), k);
        if k.has(s.last()) {
            before.push(Seq::<char>::empty())
        } else {
            before.drop_last().push(before.last().push(s.last()))
        }
    }
}

pub fn split_chars(s: &[char], k: CharClass) -> (r: Vec<Vec<char>>)
    ensures
        views(r@) == split(s@, k),
        r@.len() >= 1,
{
    let mut done: Vec<Vec<char>> = Vec::new();
    let mut current: Vec<char> = Vec::new();
    assert(views(done@).push(current@) =~= split(s@.take(0), k));
    for i in 0..s.len()
        invariant
            views(done@).push(current@) == split(s@.take(i as int), k),
    {
        let ghost before = views(done@).push(current@);
        assert(s@.take(i + 1).drop_last() == s@.take(i as int));
        assert(before.drop_last() =~= views(done@));
        if k.contains_char(s[i]) {
            let mut piece: Vec<char> = Vec::new();
            std::mem::swap(&mut piece, &mut current);
            done.push(piece);
            assert(views(done@) =~= before);
        } else {
            current.push(s[i]);
        }
    }
    assert(s@.take(s@.len() as int) == s@);
    let ghost pieces = views(done@).push(current@);
    done.push(current);
    assert(views(done@) =~= pieces);
    done
}

/// The lines of `s`: a line ends at a line feed, which goes together with a
/// carriage return before it; an empty last piece is no line.
pub open spec fn lines(s: Seq<char>) -> Seq<Seq<char>> {
    let pieces = split(s, CharClass::Only('\n'));
    let ended = Seq::new((pieces.len() - 1) as nat, |i: int| without_return(pieces[i]));
    if pieces.last().len() == 0 {
        ended
    } else {
        ended.push(pieces.last())
    }
}

pub open spec fn without_return(s: Seq<char>) -> Seq<char> {
    if s.len() > 0 && s.last() == '\r' {
        s.drop_last()
    } else {
        s
    }
}

pub fn lines_of(s: &str) -> (r: Vec<String>)
    ensures
        views(r@) == lines(s@),
{
    let chars = chars_of(s);
    let pieces = split_chars(chars.as_slice(), CharClass::Only('\n'));
    let mut out: Vec<String> = Vec::new();
    let ghost ps = split(s@, CharClass::Only('\n'));
    let ghost ended = Seq::new((ps.len() - 1) as nat, |i: int| without_return(ps[i]));
    let last: usize = pieces.len() - 1;
    for i in 0..last
        invariant
            views(pieces@) == ps,
            last == pieces@.len() - 1,
            ended == Seq::new((ps.len() - 1) as nat, |i: int| without_return(ps[i])),
            views(out@) == ended.take(i as int),
    {
        let piece = &pieces[i];
        assert(piece@ == ps[i as int]);
        let n: usize = piece.len();
        if n > 0 && piece[n - 1] == '\r' {
            let cut = slice_subrange(piece.as_slice(), 0, n - 1);
            assert(cut@ =~= piece@.drop_last());
            push_view(&mut out, string_of(cut));
        } else {
            push_view(&mut out, string_of(piece.as_slice()));
        }
        assert(views(out@) =~= ended.take(i + 1));
    }
    assert(ended.take(last as int) == ended);
    assert(pieces@[last as int]@ == ps.last());
    if pieces[last].len() > 0 {
        push_view(&mut out, string_of(pieces[last].as_slice()));
    }
    out
}

// ---------------------------------------------------------------------------
// Replacing
// ---------------------------------------------------------------------------

/// `s` with every occurrence of `from`, taken from the left without overlap,
/// replaced by `to`.
pub open spec fn replaced(s: Seq<char>, from: Seq<char>, to: Seq<char>) -> Seq<char>
    decreases s.len(),
{
    if s.len() == 0 || from.len() == 0 {
        s
    } else if starts_with(s, from) {
        to + replaced(s.skip(from.len() as int), from, to)
    } else {
        seq![s[0]] + replaced(s.skip(1), from, to)
    }
}

pub fn replace_chars(s: &[char], from: &str, to: &str) -> (r: Vec<char>)
    requires
        from@.len() > 0,
    ensures
        r@ == replaced(s@, from@, to@),
{
    let f = chars_of(from);
    let t = chars_of(to);
    let mut out: Vec<char> = Vec::new();
    let mut i: usize = 0;
    assert(s@.skip(0) == s@);
    while i < s.len()
        invariant
            f@ == from@,
            t@ == to@,
            f@.len() > 0,
            i <= s@.len(),
            out@ + replaced(s@.skip(i as int), from@, to@) == replaced(s@, from@, to@),
        decreases s@.len() - i,
    {
        let ghost rest = s@.skip(i as int);
        let ghost before = out@;
        if stands_at(s, f.as_slice(), i) {
            assert(rest.subrange(0, f@.len() as int) =~= s@.subrange(i as int, i + f@.len()));
            assert(starts_with(rest, from@));
            assert(rest.skip(f@.len() as int) =~= s@.skip(i + f@.len()));
            for j in 0..t.len()
                invariant
                    out@ == before + t@.take(j as int),
            {
                out.push(t[j]);
                assert(t@.take(j + 1) == t@.take(j as int).push(t@[j as int]));
            }
            assert(t@.take(t@.len() as int) == t@);
            i = i + f.len();
            assert(before + replaced(rest, from@, to@) =~= out@ + replaced(
                s@.skip(i as int),
                from@,
                to@,
            ));
        } else {
            assert(!starts_with(rest, from@)) by {
                if starts_with(rest, from@) {
                    assert(s@.subrange(i as int, i + f@.len()) =~= rest.subrange(0, f@.len() as int));
                }
            }
            assert(rest.skip(1) =~= s@.skip(i + 1));
            out.push(s[i]);
            i = i + 1;
            assert(before + replaced(rest, from@, to@) =~= out@ + replaced(
                s@.skip(i as int),
                from@,
                to@,
            ));
        }
    }
    assert(s@.skip(i as int) =~= Seq::<char>::empty());
    assert(out@ + replaced(s@.skip(i as int), from@, to@) =~= out@);
    out
}

// ---------------------------------------------------------------------------
// Numbers
// ---------------------------------------------------------------------------

pub open spec fn digit_char(d: int) -> char {
    (('0' as int) + d) as char
}

/// The decimal digits of `n`, without leading zeros.
pub open spec fn decimal(n: nat) -> Seq<char>
    decreases n,
{
    if n < 10 {
        seq![digit_char(n as int)]
    } else {
        decimal(n / 10).push(digit_char((n % 10) as int))
    }
}

/// Adds the decimal digits of `n` at the end of `out`.
pub fn push_decimal(out: &mut String, n: u64)
    ensures
        final(out)@ == old(out)@ + decimal(n as nat),
    decreases n,
{
    if n >= 10 {
        push_decimal(out, n / 10);
    }
    out.push((48u8 + (n % 10) as u8) as char);
}

/// `before`, then `n` in decimal, then `after`.
pub open spec fn with_number(before: Seq<char>, n: nat, after: Seq<char>) -> Seq<char> {
    before + decimal(n) + after
}

pub fn number_text(before: &str, n: u64, after: &str) -> (r: String)
    ensures
        r@ == with_number(before@, n as nat, after@),
{
    let mut out = before.to_string();
    push_decimal(&mut out, n);
    out.push_str(after);
    out
}

/// Adds `n` in decimal, then `after`, at the end of `out`.
pub fn push_number(out: &mut String, n: u64, after: &str)
    ensures
        final(out)@ == with_number(old(out)@, n as nat, after@),
{
    push_decimal(out, n);
    out.push_str(after);
}

pub open spec fn hex_char(d: int) -> char {
    if d < 10 {
        digit_char(d)
    } else {
        (('a' as int) + d - 10) as char
    }
}

/// The last `width` hexadecimal digits of `n`.
pub open spec fn hex(n: nat, width: nat) -> Seq<char>
    decreases width,
{
    if width == 0 {
        Seq::empty()
    } else {
        hex(n / 16, (width - 1) as nat).push(hex_char((n % 16) as int))
    }
}

/// Adds the last `width` hexadecimal digits of `n` at the end of `out`.
pub fn push_hex(out: &mut String, n: u64, width: usize)
    ensures
        final(out)@ == old(out)@ + hex(n as nat, width as nat),
    decreases width,
{
    if width > 0 {
        push_hex(out, n / 16, width - 1);
        let d: u8 = (n % 16) as u8;
        if d < 10 {
            out.push((48u8 + d) as char);
        } else {
            out.push((87u8 + d) as char);
        }
    }
}

pub open spec fn all_digits(s: Seq<char>) -> bool {
    forall|i: int| 0 <= i < s.len() ==> is_digit(#[trigger] s[i])
}

pub fn only_digits(s: &[char]) -> (r: bool)
    ensures
        r == all_digits(s@),
{
    for i in 0..s.len()
        invariant
            forall|j: int| 0 <= j < i ==> is_digit(#[trigger] s@[j]),
    {
        if !char_is_digit(s[i]) {
            return false;
        }
    }
    true
}

/// The number that a list of decimal digits stands for.
pub open spec fn digits_value(s: Seq<char>) -> nat
    decreases s.len(),
{
    if s.len() == 0 {
        0
    } else {
        digits_value(s.drop_last()) * 10 + (s.last() as nat - '0' as nat) as nat
    }
}

/// The unsigned number, at most `max`, that `s` writes in decimal: one plus
/// sign may stand before the digits, of which there is at least one.
pub open spec fn parse_unsigned(s: Seq<char>, max: nat) -> Option<nat> {
    let digits = if s.len() > 0 && s[0] == '+' {
        s.skip(1)
    } else {
        s
    };
    if digits.len() > 0 && all_digits(digits) && digits_value(digits) <= max {
        Some(digits_value(digits))
    } else {
        None
    }
}

proof fn lemma_digits_value_grows(s: Seq<char>, i: int)
    requires
        0 <= i <= s.len(),
        all_digits(s),
    ensures
        digits_value(s.take(i)) <= digits_value(s),
    decreases s.len() - i,
{
    if i < s.len() {
        lemma_digits_value_grows(s, i + 1);
        assert(s.take(i + 1).drop_last() == s.take(i));
        assert(is_digit(s[i]));
    } else {
        assert(s.take(i) == s);
    }
}

pub fn parse_u64(s: &[char]) -> (r: Option<u64>)
    ensures
        match r {
            Some(n) => parse_unsigned(s@, u64::MAX as nat) == Some(n as nat),
            None => parse_unsigned(s@, u64::MAX as nat) is None,
        },
{
    let digits: &[char] = if s.len() > 0 && s[0] == '+' {
        slice_subrange(s, 1, s.len())
    } else {
        s
    };
    proof {
        if s@.len() > 0 && s@[0] == '+' {
            assert(digits@ =~= s@.skip(1));
        }
    }
    if digits.len() == 0 || !only_digits(digits) {
        return None;
    }
    let mut value: u64 = 0;
    for i in 0..digits.len()
        invariant
            all_digits(digits@),
            value as nat == digits_value(digits@.take(i as int)),
            parse_unsigned(s@, u64::MAX as nat) == if digits_value(digits@) <= u64::MAX {
                Some(digits_value(digits@))
            } else {
                None::<nat>
            },
    {
        assert(digits@.take(i + 1).drop_last() == digits@.take(i as int));
        assert(is_digit(digits@[i as int]));
        proof {
            lemma_digits_value_grows(digits@, i + 1);
        }
        let d: u64 = (digits[i] as u64) - 48;
        match value.checked_mul(10) {
            Some(tens) => {
                match tens.checked_add(d) {
                    Some(next) => {
                        value = next;
                    },
                    None => {
                        return None;
                    },
                }
            },
            None => {
                return None;
            },
        }
    }
    assert(digits@.take(digits@.len() as int) == digits@);
    Some(value)
}

/// The number that `s` writes in decimal, where it fits in a `usize`.
pub fn parse_usize(s: &[char]) -> (r: Option<usize>)
    ensures
        match r {
            Some(n) => parse_unsigned(s@, usize::MAX as nat) == Some(n as nat),
            None => parse_unsigned(s@, usize::MAX as nat) is None,
        },
{
    match parse_u64(s) {
        Some(n) => if n <= usize::MAX as u64 {
            Some(n as usize)
        } else {
            None
        },
        None => None,
    }
}

proof fn lemma_digit_char(d: nat)
    requires
        d < 10,
    ensures
        is_digit(digit_char(d as int)),
        digit_char(d as int) as nat - '0' as nat == d,
        digit_char(d as int) != '+',
        digit_char(d as int) != ';',
{
}

/// The decimal digits of a number are digits that stand for it.
pub proof fn lemma_decimal(n: nat)
    ensures
        decimal(n).len() > 0,
        all_digits(decimal(n)),
        digits_value(decimal(n)) == n,
    decreases n,
{
    if n < 10 {
        lemma_digit_char(n);
        assert(decimal(n).drop_last() =~= Seq::empty());
        assert(digits_value(decimal(n).drop_last()) == 0);
        assert(decimal(n).last() == digit_char(n as int));
    } else {
        lemma_decimal(n / 10);
        lemma_digit_char(n % 10);
        let before = decimal(n / 10);
        assert(decimal(n).drop_last() =~= before);
        assert(decimal(n).last() == digit_char((n % 10) as int));
        assert forall|i: int| 0 <= i < decimal(n).len() implies is_digit(
            #[trigger] decimal(n)[i],
        ) by {
            if i < before.len() {
                assert(decimal(n)[i] == before[i]);
            }
        }
    }
}

/// A number reads back from its decimal digits.
pub proof fn law_decimal_roundtrip(n: nat, max: nat)
    requires
        n <= max,
    ensures
        parse_unsigned(decimal(n), max) == Some(n),
{
    lemma_decimal(n);
    assert(is_digit(decimal(n)[0]));
}

/// A text without characters of `k` is one piece.
pub proof fn lemma_split_whole(s: Seq<char>, k: CharClass)
    requires
        forall|i: int| 0 <= i < s.len() ==> !k.has(#[trigger] s[i]),
    ensures
        split(s, k) == seq![s],
    decreases s.len(),
{
    if s.len() > 0 {
        let before = s.drop_last();
        assert forall|i: int| 0 <= i < before.len() implies !k.has(#[trigger] before[i]) by {
            assert(before[i] == s[i]);
        }
        lemma_split_whole(before, k);
        assert(!k.has(s[s.len() - 1]));
        assert(before.push(s.last()) =~= s);
        assert(split(s, k) =~= seq![s]);
    } else {
        assert(s =~= Seq::empty());
    }
}

/// Two texts without characters of `k` are the pieces of what they make up with
/// one such character between them.
pub proof fn lemma_split_two(a: Seq<char>, c: char, b: Seq<char>, k: CharClass)
    requires
        forall|i: int| 0 <= i < a.len() ==> !k.has(#[trigger] a[i]),
        forall|i: int| 0 <= i < b.len() ==> !k.has(#[trigger] b[i]),
        k.has(c),
    ensures
        split(a.push(c) + b, k) == seq![a, b],
    decreases b.len(),
{
    if b.len() == 0 {
        lemma_split_whole(a, k);
        assert(a.push(c) + b =~= a.push(c));
        assert(a.push(c).drop_last() =~= a);
        assert(b =~= Seq::empty());
        assert(split(a.push(c), k) =~= seq![a, b]);
    } else {
        let before = b.drop_last();
        assert forall|i: int| 0 <= i < before.len() implies !k.has(#[trigger] before[i]) by {
            assert(before[i] == b[i]);
        }
        lemma_split_two(a, c, before, k);
        let whole = a.push(c) + b;
        assert(whole.drop_last() =~= a.push(c) + before);
        assert(whole.last() == b[b.len() - 1]);
        assert(before.push(b.last()) =~= b);
        assert(split(whole, k) =~= seq![a, b]);
    }
}

/// What stands between characters of `k` is what is left when those are trimmed.
pub proof fn law_trim(before: Seq<char>, inner: Seq<char>, after: Seq<char>, k: CharClass)
    requires
        forall|i: int| 0 <= i < before.len() ==> k.has(#[trigger] before[i]),
        forall|i: int| 0 <= i < after.len() ==> k.has(#[trigger] after[i]),
        inner.len() > 0 ==> !k.has(inner[0]) && !k.has(inner.last()),
    ensures
        trim(before + inner + after, k) == inner,
{
    if inner.len() == 0 {
        let all = before + after;
        assert(before + inner + after =~= all);
        assert forall|i: int| 0 <= i < all.len() implies k.has(#[trigger] all[i]) by {
            if i < before.len() {
                assert(all[i] == before[i]);
            } else {
                assert(all[i] == after[i - before.len()]);
            }
        }
        lemma_trim_start(all, Seq::empty(), k);
        assert(all + Seq::empty() =~= all);
        assert(inner =~= Seq::empty());
    } else {
        assert(before + inner + after =~= before + (inner + after));
        assert((inner + after)[0] == inner[0]);
        lemma_trim_start(before, inner + after, k);
        lemma_trim_end(inner, after, k);
    }
}

proof fn lemma_trim_start(before: Seq<char>, rest: Seq<char>, k: CharClass)
    requires
        forall|i: int| 0 <= i < before.len() ==> k.has(#[trigger] before[i]),
        rest.len() > 0 ==> !k.has(rest[0]),
    ensures
        trim_start(before + rest, k) == rest,
    decreases before.len(),
{
    let all = before + rest;
    if before.len() > 0 {
        assert(k.has(before[0]));
        let shorter = before.skip(1);
        assert forall|i: int| 0 <= i < shorter.len() implies k.has(#[trigger] shorter[i]) by {
            assert(shorter[i] == before[i + 1]);
        }
        lemma_trim_start(shorter, rest, k);
        assert(all.skip(1) =~= shorter + rest);
        assert(all[0] == before[0]);
    } else {
        assert(all =~= rest);
    }
}

proof fn lemma_trim_end(inner: Seq<char>, after: Seq<char>, k: CharClass)
    requires
        forall|i: int| 0 <= i < after.len() ==> k.has(#[trigger] after[i]),
        inner.len() > 0,
        !k.has(inner.last()),
    ensures
        trim_end(inner + after, k) == inner,
    decreases after.len(),
{
    let all = inner + after;
    if after.len() > 0 {
        assert(k.has(after[after.len() - 1]));
        let shorter = after.drop_last();
        assert forall|i: int| 0 <= i < shorter.len() implies k.has(#[trigger] shorter[i]) by {
            assert(shorter[i] == after[i]);
        }
        lemma_trim_end(inner, shorter, k);
        assert(all.drop_last() =~= inner + shorter);
        assert(all.last() == after.last());
    } else {
        assert(all =~= inner);
    }
}

proof fn lemma_split_some(s: Seq<char>, k: CharClass)
    ensures
        split(s, k).len() >= 1,
    decreases s.len(),
{
    if s.len() > 0 {
        lemma_split_some(s.drop_last(), k);
    }
}

/// A character of `k` parts a text: the pieces are those before it and those
/// behind it. A text without such a character is one piece.
pub proof fn law_split(a: Seq<char>, c: char, b: Seq<char>, k: CharClass)
    requires
        k.has(c),
    ensures
        split(a.push(c) + b, k) == split(a, k) + split(b, k),
        (forall|i: int| 0 <= i < a.len() ==> !k.has(#[trigger] a[i])) ==> split(a, k) == seq![a],
    decreases b.len(),
{
    if forall|i: int| 0 <= i < a.len() ==> !k.has(#[trigger] a[i]) {
        lemma_split_whole(a, k);
    }
    let whole = a.push(c) + b;
    if b.len() == 0 {
        assert(whole =~= a.push(c));
        assert(a.push(c).drop_last() =~= a);
        assert(split(whole, k) =~= split(a, k) + split(b, k));
    } else {
        let before = b.drop_last();
        law_split(a, c, before, k);
        lemma_split_some(before, k);
        assert(whole.drop_last() =~= a.push(c) + before);
        assert(whole.last() == b.last());
        let left = split(a, k) + split(before, k);
        assert(left.last() == split(before, k).last());
        assert(left.drop_last() =~= split(a, k) + split(before, k).drop_last());
        assert(split(whole, k) =~= split(a, k) + split(b, k));
    }
}

/// Capitals are made small and nothing else is changed.
pub proof fn law_lower(s: Seq<char>, i: int)
    requires
        0 <= i < s.len(),
    ensures
        lower(s).len() == s.len(),
        65 <= s[i] as u32 <= 90 ==> lower(s)[i] as u32 == s[i] as u32 + 32,
        !(65 <= s[i] as u32 <= 90) ==> lower(s)[i] == s[i],
        lower(lower(s)) == lower(s),
{
    assert forall|j: int| 0 <= j < s.len() implies #[trigger] lower(lower(s))[j] == lower(s)[j] by {
        let c = s[j];
        if 'A' <= c && c <= 'Z' {
            let d = ((c as u32) + 32) as char;
            assert(lower(s)[j] == d);
            assert(d as u32 == c as u32 + 32);
        }
    }
    assert(lower(lower(s)) =~= lower(s));
}

} // verus!
