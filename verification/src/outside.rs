//! Calls into the regular expression engine, the gzip decoder and the clock.

use std::io::Read;

use vstd::prelude::*;
use vstd::utf8::encode_utf8;

use crate::views::{opt_view, views};

verus! {

/// One match of a pattern: where it starts, in bytes, and what each group took;
/// group 0 is the whole match.
#[derive(Debug, Clone)]
pub struct RegexMatch {
    pub start: usize,
    pub groups: Vec<Option<String>>,
}

/// The content of the groups of a match.
pub open spec fn group_views(groups: Seq<Option<String>>) -> Seq<Option<Seq<char>>> {
    groups.map_values(|g: Option<String>| opt_view(g))
}

impl View for RegexMatch {
    type V = (int, Seq<Option<Seq<char>>>);

    open spec fn view(&self) -> (int, Seq<Option<Seq<char>>>) {
        (self.start as int, group_views(self.groups@))
    }
}

/// What group `i` of a match took.
pub open spec fn group(m: (int, Seq<Option<Seq<char>>>), i: int) -> Option<Seq<char>> {
    if 0 <= i < m.1.len() {
        m.1[i]
    } else {
        None
    }
}

impl RegexMatch {
    /// What group `i` took.
    pub fn group_text(&self, i: usize) -> (r: Option<&String>)
        ensures
            match r {
                Some(s) => group(self@, i as int) == Some(s@),
                None => group(self@, i as int) is None,
            },
    {
        if i < self.groups.len() {
            assert(group_views(self.groups@)[i as int] == opt_view(self.groups@[i as int]));
            match &self.groups[i] {
                Some(s) => Some(s),
                None => None,
            }
        } else {
            None
        }
    }
}

/// The matches of `pattern` in `text` that `Regex::captures_iter` hands out.
pub uninterp spec fn regex_matches(pattern: Seq<char>, text: Seq<char>) -> Seq<
    (int, Seq<Option<Seq<char>>>),
>;

/// What the first group took in the match of `pattern` in `text` that
/// `Regex::captures` finds.
pub uninterp spec fn regex_first_group(pattern: Seq<char>, text: Seq<char>) -> Option<Seq<char>>;

/// Whether `Regex::is_match` finds `pattern` in `text`.
pub uninterp spec fn regex_found(pattern: Seq<char>, text: Seq<char>) -> bool;

/// What a `GzDecoder` reads from `data`, and the text of its error, where there
/// is one.
pub uninterp spec fn gunzipped(data: Seq<u8>) -> (Seq<u8>, Option<Seq<char>>);

/// The error of a `GzDecoder` where a checksum does not match: the one of the
/// header, before any content, or the one behind all of the content.
pub const GZIP_MISMATCH: &'static str =
    "corrupt gzip stream does not have a matching checksum";

/// All content that there is to read was read, whether or not it proved right.
pub open spec fn is_read_whole(error: Option<Seq<char>>) -> bool {
    error is None || error == Some(GZIP_MISMATCH@)
}

/// Calls `regex::Regex::new` and `captures_iter`. The matches depend on the
/// pattern and the text alone; what they are is left to the name. A match
/// starts inside the text. A pattern that does not compile has no matches.
#[verifier::external_body]
pub(crate) fn find_matches(pattern: &str, text: &str) -> (r: Vec<RegexMatch>)
    ensures
        views(r@) == regex_matches(pattern@, text@),
        forall|i: int|
            0 <= i < r@.len() ==> (#[trigger] r@[i]).start <= encode_utf8(text@).len(),
{
    let Ok(regex) = regex::Regex::new(pattern) else {
        return Vec::new();
    };
    let found = regex.captures_iter(text);
    found.map(|c| RegexMatch {
        start: c.get(0).map_or(0, |m| m.start()),
        groups: c.iter().map(|g| g.map(|m| m.as_str().to_string())).collect(),
    }).collect()
}

/// Calls `regex::Regex::new` once and `captures` on each line, and hands out
/// what the first group took. That depends on the pattern and the line alone
/// and is left to the name. A pattern that does not compile takes nothing.
#[verifier::external_body]
pub(crate) fn first_groups(pattern: &str, lines: &Vec<String>) -> (r: Vec<Option<String>>)
    ensures
        r@.len() == lines@.len(),
        forall|i: int|
            0 <= i < r@.len() ==> opt_view(#[trigger] r@[i]) == regex_first_group(
                pattern@,
                lines@[i]@,
            ),
{
    let regex = regex::Regex::new(pattern).ok();
    let found = lines.iter().map(|line| regex.as_ref().and_then(|r| r.captures(line)));
    found.map(|c| c.and_then(|c| c.get(1).map(|m| m.as_str().to_string()))).collect()
}

/// Calls `regex::Regex::new` and `is_match`. Whether the pattern is found
/// depends on it and on the text alone and is left to the name. A pattern that
/// does not compile is not found.
#[verifier::external_body]
pub(crate) fn finds_match(pattern: &str, text: &str) -> (r: bool)
    ensures
        r == regex_found(pattern@, text@),
{
    match regex::Regex::new(pattern) {
        Ok(regex) => regex.is_match(text),
        Err(_) => false,
    }
}

/// Calls `flate2::read::GzDecoder` on bytes in memory and reads it to its end or
/// to its first error. Which error that is, and the content where it was read
/// whole, depend on the bytes alone and are left to the name. Of content that
/// breaks off nothing is claimed: how much of it was handed out by then depends
/// on how it was asked for.
#[verifier::external_body]
pub(crate) fn gunzip(data: &[u8]) -> (r: (Vec<u8>, Option<String>))
    ensures
        opt_view(r.1) == gunzipped(data@).1,
        is_read_whole(gunzipped(data@).1) ==> r.0@ == gunzipped(data@).0,
{
    let mut out = Vec::new();
    match flate2::read::GzDecoder::new(data).read_to_end(&mut out) {
        Ok(_) => (out, None),
        Err(error) => (out, Some(error.to_string())),
    }
}

/// Calls `chrono::Utc::now`: the milliseconds since 1970 by the machine's
/// clock. All that is promised of a clock is that it does not stand before 1970;
/// one that does makes the call panic.
#[verifier::external_body]
pub(crate) fn utc_now_ms() -> (r: i64)
    ensures
        r >= 0,
{
    chrono::Utc::now().timestamp_millis()
}

} // verus!
