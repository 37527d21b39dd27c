//! Names of alternative accounts in the logs and JSON files of a game directory.

use vstd::prelude::*;
use vstd::utf8::{decode_utf8, valid_utf8};

use crate::bytes::byte_range;
use crate::json::{
    json_parsed, lemma_list_model, lemma_object_model, list_model, object_model, parse_json, Json,
    JsonView,
};
use crate::order::TextSet;
use crate::outside::{
    first_groups, gunzip, gunzipped, is_read_whole, regex_first_group, GZIP_MISMATCH,
};
use crate::paths::{
    extension_of_path, file_name, is_same_path, lower_extension, name_of_path, path_identity,
};
use crate::std_text::utf8_text;
use crate::text::{
    char_is_alphanumeric, chars_of, contains, ends_with, finishes_with, has_text, is_text,
    is_text_ignoring_case, lower, lower_chars, same_ignoring_case, same_text, string_of, to_lower,
    trim, trim_chars, unquote, unquoted, CharClass,
};
use crate::minecraft::is_word;
use crate::views::{opt_view, push_view, views};

verus! {

pub const CLIENT_USER_PATTERN: &'static str =
    r"\[\d{2}:\d{2}:\d{2}\] \[Client thread/INFO\]: Setting user: (\S+)";

pub const LUNAR_USER_PATTERN: &'static str = r"\[LC\] Setting user: (\S+)";

pub const AUTHENTICATOR_PATTERN: &'static str =
    r"\[Authenticator\] Creating Minecraft session for (\S+)";

pub const DISPLAY_NAME_PATTERN: &'static str = r"displayName=([^\s,]+)";

/// A name and the file that it was first seen in.
#[derive(Clone, Debug)]
pub struct AltAccount {
    pub name: String,
    pub source: String,
}

#[verifier::ext_equal]
pub struct AltAccountView {
    pub name: Seq<char>,
    pub source: Seq<char>,
}

impl View for AltAccount {
    type V = AltAccountView;

    open spec fn view(&self) -> AltAccountView {
        AltAccountView { name: self.name@, source: self.source@ }
    }
}

/// 3 to 32 letters, digits and underscores.
pub open spec fn is_account_name(name: Seq<char>) -> bool {
    3 <= name.len() <= 32 && is_word(name)
}

/// The name in `value`: without white space, quotes and commas around it, 3 to
/// 32 letters, digits and underscores.
pub open spec fn account_name(value: Seq<char>) -> Option<Seq<char>> {
    let name = trim(unquoted(value), CharClass::Only(','));
    if is_account_name(name) {
        Some(name)
    } else {
        None
    }
}

pub fn normalize_username(value: &str) -> (r: Option<String>)
    ensures
        opt_view(r) == account_name(value@),
{
    let chars = chars_of(value);
    let name = trim_chars(unquote(chars.as_slice()), CharClass::Only(','));
    if name.len() < 3 || name.len() > 32 {
        return None;
    }
    for i in 0..name.len()
        invariant
            name@ == trim(unquoted(value@), CharClass::Only(',')),
            forall|j: int|
                0 <= j < i ==> crate::text::is_alphanumeric(#[trigger] name@[j]) || name@[j] == '_',
    {
        if !(char_is_alphanumeric(name[i]) || name[i] == '_') {
            return None;
        }
    }
    Some(string_of(name))
}

// ---------------------------------------------------------------------------
// Collecting
// ---------------------------------------------------------------------------

/// The accounts found so far, and their names in lower case.
#[derive(Debug)]
pub struct AltScan {
    pub seen: TextSet,
    pub accounts: Vec<AltAccount>,
}

#[verifier::ext_equal]
pub struct AltScanView {
    pub seen: Set<Seq<char>>,
    pub accounts: Seq<AltAccountView>,
}

impl View for AltScan {
    type V = AltScanView;

    open spec fn view(&self) -> AltScanView {
        AltScanView { seen: self.seen@, accounts: views(self.accounts@) }
    }
}

pub open spec fn nothing_found() -> AltScanView {
    AltScanView { seen: Set::empty(), accounts: Seq::empty() }
}

/// The scan after `value` was found in `source`. A name counts once, whatever
/// its case.
pub open spec fn with_name(s: AltScanView, value: Seq<char>, source: Seq<char>) -> AltScanView {
    match account_name(value) {
        Some(name) => if s.seen.contains(lower(name)) {
            s
        } else {
            AltScanView {
                seen: s.seen.insert(lower(name)),
                accounts: s.accounts.push(AltAccountView { name, source }),
            }
        },
        None => s,
    }
}

pub open spec fn with_found(s: AltScanView, found: Option<Seq<char>>, source: Seq<char>) -> AltScanView {
    match found {
        Some(value) => with_name(s, value, source),
        None => s,
    }
}

/// The scan after the values `names` were found.
pub open spec fn with_names(s: AltScanView, names: Seq<Seq<char>>, source: Seq<char>) -> AltScanView
    decreases names.len(),
{
    if names.len() == 0 {
        s
    } else {
        with_name(with_names(s, names.drop_last(), source), names.last(), source)
    }
}

/// The names seen are those of the accounts, each can be one, and no two
/// accounts share one.
pub open spec fn is_consistent(s: AltScanView) -> bool {
    &&& forall|i: int|
        0 <= i < s.accounts.len() ==> is_account_name((#[trigger] s.accounts[i]).name)
    &&& forall|i: int|
        0 <= i < s.accounts.len() ==> s.seen.contains(lower((#[trigger] s.accounts[i]).name))
    &&& forall|i: int, j: int|
        0 <= i < j < s.accounts.len() ==> lower((#[trigger] s.accounts[i]).name) != lower(
            (#[trigger] s.accounts[j]).name,
        )
}

/// However names are found, each can be one, no two accounts have the same name
/// up to case, and no account is lost.
pub proof fn law_names_distinct(s: AltScanView, value: Seq<char>, source: Seq<char>)
    requires
        is_consistent(s),
    ensures
        is_consistent(with_name(s, value, source)),
        with_name(s, value, source).accounts.take(s.accounts.len() as int) == s.accounts,
{
    let after = with_name(s, value, source);
    assert(after.accounts.take(s.accounts.len() as int) =~= s.accounts);
}

impl AltScan {
    pub fn new() -> (r: AltScan)
        ensures
            r@ == nothing_found(),
    {
        let r = AltScan { seen: TextSet::new(), accounts: Vec::new() };
        assert(views(r.accounts@) =~= Seq::empty());
        r
    }

    /// Records that `value` was found in `source`.
    pub fn add_name(&mut self, value: &str, source: &str)
        ensures
            final(self)@ == with_name(old(self)@, value@, source@),
    {
        if let Some(name) = normalize_username(value) {
            let key = to_lower(name.as_str());
            let is_new = self.seen.insert(key);
            if is_new {
                push_view(&mut self.accounts, AltAccount { name, source: source.to_string() });
            } else {
                assert(self.seen@ =~= old(self).seen@);
            }
        }
    }

    fn add_found(&mut self, found: &Option<String>, source: &str)
        ensures
            final(self)@ == with_found(old(self)@, opt_view(*found), source@),
    {
        if let Some(value) = found {
            self.add_name(value.as_str(), source);
        }
    }
}

// ---------------------------------------------------------------------------
// Logs
// ---------------------------------------------------------------------------

/// What the four patterns found in one line.
pub struct LineFinds {
    pub client: Option<Seq<char>>,
    pub lunar: Option<Seq<char>>,
    pub authenticator: Option<Seq<char>>,
    pub display: Option<Seq<char>>,
}

pub open spec fn line_finds(line: Seq<char>) -> LineFinds {
    LineFinds {
        client: regex_first_group(CLIENT_USER_PATTERN@, line),
        lunar: regex_first_group(LUNAR_USER_PATTERN@, line),
        authenticator: regex_first_group(AUTHENTICATOR_PATTERN@, line),
        display: regex_first_group(DISPLAY_NAME_PATTERN@, line),
    }
}

/// The scan after what was found in one line.
pub open spec fn with_line(s: AltScanView, f: LineFinds, source: Seq<char>) -> AltScanView {
    with_found(
        with_found(
            with_found(with_found(s, f.client, source), f.lunar, source),
            f.authenticator,
            source,
        ),
        f.display,
        source,
    )
}

/// The scan after the lines of a log.
pub open spec fn with_lines(s: AltScanView, lines: Seq<Seq<char>>, source: Seq<char>) -> AltScanView
    decreases lines.len(),
{
    if lines.len() == 0 {
        s
    } else {
        with_line(with_lines(s, lines.drop_last(), source), line_finds(lines.last()), source)
    }
}

/// Records what the four patterns found in one line.
pub fn extract_from_line(
    scan: &mut AltScan,
    client: &Option<String>,
    lunar: &Option<String>,
    authenticator: &Option<String>,
    display: &Option<String>,
    source: &str,
)
    ensures
        final(scan)@ == with_line(
            old(scan)@,
            (LineFinds {
                client: opt_view(*client),
                lunar: opt_view(*lunar),
                authenticator: opt_view(*authenticator),
                display: opt_view(*display),
            }),
            source@,
        ),
{
    scan.add_found(client, source);
    scan.add_found(lunar, source);
    scan.add_found(authenticator, source);
    scan.add_found(display, source);
}

/// Looks for names in the lines of the log `source`.
pub fn scan_log_lines(scan: &mut AltScan, lines: &Vec<String>, source: &str)
    ensures
        final(scan)@ == with_lines(old(scan)@, views(lines@), source@),
{
    let client = first_groups(CLIENT_USER_PATTERN, lines);
    let lunar = first_groups(LUNAR_USER_PATTERN, lines);
    let authenticator = first_groups(AUTHENTICATOR_PATTERN, lines);
    let display = first_groups(DISPLAY_NAME_PATTERN, lines);
    let ghost all = views(lines@);
    let ghost start = scan@;
    for i in 0..lines.len()
        invariant
            all == views(lines@),
            client@.len() == lines@.len(),
            lunar@.len() == lines@.len(),
            authenticator@.len() == lines@.len(),
            display@.len() == lines@.len(),
            forall|j: int|
                0 <= j < lines@.len() ==> opt_view(#[trigger] client@[j]) == regex_first_group(
                    CLIENT_USER_PATTERN@,
                    lines@[j]@,
                ),
            forall|j: int|
                0 <= j < lines@.len() ==> opt_view(#[trigger] lunar@[j]) == regex_first_group(
                    LUNAR_USER_PATTERN@,
                    lines@[j]@,
                ),
            forall|j: int|
                0 <= j < lines@.len() ==> opt_view(#[trigger] authenticator@[j])
                    == regex_first_group(AUTHENTICATOR_PATTERN@, lines@[j]@),
            forall|j: int|
                0 <= j < lines@.len() ==> opt_view(#[trigger] display@[j]) == regex_first_group(
                    DISPLAY_NAME_PATTERN@,
                    lines@[j]@,
                ),
            scan@ == with_lines(start, all.take(i as int), source@),
    {
        assert(all.take(i + 1).drop_last() =~= all.take(i as int));
        assert(all.take(i + 1).last() == lines@[i as int]@);
        assert(opt_view(client@[i as int]) == line_finds(lines@[i as int]@).client);
        assert(opt_view(lunar@[i as int]) == line_finds(lines@[i as int]@).lunar);
        assert(opt_view(authenticator@[i as int]) == line_finds(lines@[i as int]@).authenticator);
        assert(opt_view(display@[i as int]) == line_finds(lines@[i as int]@).display);
        extract_from_line(scan, &client[i], &lunar[i], &authenticator[i], &display[i], source);
    }
    assert(all.take(all.len() as int) =~= all);
}

/// How a file in the directory of logs is read.
#[derive(Debug, Clone, Copy, PartialEq, Eq, Structural)]
pub enum LogKind {
    Compressed,
    Plain,
    NoLog,
}

pub open spec fn log_kind(name: Seq<char>) -> LogKind {
    if ends_with(name, ".gz"@) {
        LogKind::Compressed
    } else if ends_with(name, ".log"@) {
        LogKind::Plain
    } else {
        LogKind::NoLog
    }
}

pub fn log_kind_of_path(path: &str) -> (r: LogKind)
    ensures
        r == log_kind(lower(file_name(path@))),
{
    let name = name_of_path(path);
    let chars = chars_of(name.as_str());
    let low = lower_chars(chars.as_slice());
    if finishes_with(low.as_slice(), ".gz") {
        LogKind::Compressed
    } else if finishes_with(low.as_slice(), ".log") {
        LogKind::Plain
    } else {
        LogKind::NoLog
    }
}

/// The pieces of `data` between line feeds.
pub open spec fn byte_pieces(data: Seq<u8>) -> Seq<Seq<u8>>
    decreases data.len(),
{
    if data.len() == 0 {
        seq![Seq::<u8>::empty()]
    } else {
        let before = byte_pieces(data.drop_last());
        if data.last() == 10 {
            before.push(Seq::<u8>::empty())
        } else {
            before.drop_last().push(before.last().push(data.last()))
        }
    }
}

/// A line as text; one that is no UTF-8 is empty.
pub open spec fn line_text(line: Seq<u8>) -> Seq<char> {
    if valid_utf8(line) {
        decode_utf8(line)
    } else {
        Seq::empty()
    }
}

/// A line that ended: without the carriage return before the line feed.
pub open spec fn ended_line(line: Seq<u8>) -> Seq<char> {
    if line.len() > 0 && line.last() == 13 {
        line_text(line.drop_last())
    } else {
        line_text(line)
    }
}

/// The lines that ended.
pub open spec fn ended_lines(data: Seq<u8>) -> Seq<Seq<char>> {
    let pieces = byte_pieces(data);
    Seq::new((pieces.len() - 1) as nat, |i: int| ended_line(pieces[i]))
}

/// The lines of a log; an empty last piece is none.
pub open spec fn lines_in(data: Seq<u8>) -> Seq<Seq<char>> {
    if byte_pieces(data).last().len() == 0 {
        ended_lines(data)
    } else {
        ended_lines(data).push(line_text(byte_pieces(data).last()))
    }
}

fn split_bytes(data: &[u8]) -> (r: Vec<Vec<u8>>)
    ensures
        views(r@) == byte_pieces(data@),
        r@.len() >= 1,
{
    let mut done: Vec<Vec<u8>> = Vec::new();
    let mut current: Vec<u8> = Vec::new();
    assert(views(done@).push(current@) =~= byte_pieces(data@.take(0)));
    for i in 0..data.len()
        invariant
            views(done@).push(current@) == byte_pieces(data@.take(i as int)),
    {
        let ghost before = views(done@).push(current@);
        assert(data@.take(i + 1).drop_last() =~= data@.take(i as int));
        assert(before.drop_last() =~= views(done@));
        if data[i] == 10 {
            let mut piece: Vec<u8> = Vec::new();
            std::mem::swap(&mut piece, &mut current);
            done.push(piece);
            assert(views(done@) =~= before);
        } else {
            current.push(data[i]);
        }
    }
    assert(data@.take(data@.len() as int) =~= data@);
    let ghost pieces = views(done@).push(current@);
    done.push(current);
    assert(views(done@) =~= pieces);
    done
}

fn text_of_line(line: &[u8]) -> (r: String)
    ensures
        r@ == line_text(line@),
{
    match utf8_text(line) {
        Some(text) => text,
        None => {
            let r = String::new();
            assert(r@ =~= Seq::empty());
            r
        },
    }
}

/// The lines of `pieces` that ended: all but the last.
fn lines_of_pieces(pieces: &Vec<Vec<u8>>) -> (r: Vec<String>)
    requires
        pieces@.len() >= 1,
    ensures
        views(r@) == Seq::new((pieces@.len() - 1) as nat, |i: int| ended_line(pieces@[i]@)),
{
    let ghost ended = Seq::new((pieces@.len() - 1) as nat, |i: int| ended_line(pieces@[i]@));
    let mut out: Vec<String> = Vec::new();
    let last: usize = pieces.len() - 1;
    assert(views(out@) =~= ended.take(0));
    for i in 0..last
        invariant
            last == pieces@.len() - 1,
            ended == Seq::new((pieces@.len() - 1) as nat, |i: int| ended_line(pieces@[i]@)),
            views(out@) == ended.take(i as int),
    {
        let piece = &pieces[i];
        let n: usize = piece.len();
        if n > 0 && piece[n - 1] == 13 {
            let cut = byte_range(piece.as_slice(), 0, n - 1);
            assert(cut@ =~= piece@.drop_last());
            push_view(&mut out, text_of_line(cut.as_slice()));
        } else {
            push_view(&mut out, text_of_line(piece.as_slice()));
        }
        assert(views(out@) =~= ended.take(i + 1));
    }
    assert(ended.take(last as int) =~= ended);
    out
}

/// The lines of a log.
pub fn log_lines_of(data: &[u8]) -> (r: Vec<String>)
    ensures
        views(r@) == lines_in(data@),
{
    let pieces = split_bytes(data);
    let ghost ps = byte_pieces(data@);
    assert forall|i: int| 0 <= i < pieces@.len() implies pieces@[i]@ == #[trigger] ps[i] by {
        assert(views(pieces@)[i] == pieces@[i]@);
    }
    assert(ps.len() == pieces@.len());
    let mut out = lines_of_pieces(&pieces);
    assert(views(out@) =~= ended_lines(data@));
    let last: usize = pieces.len() - 1;
    assert(pieces@[last as int]@ == ps.last());
    if pieces[last].len() > 0 {
        push_view(&mut out, text_of_line(pieces[last].as_slice()));
    }
    out
}

/// The lines of a log that was decompressed. Where that failed, the lines that
/// ended before count, of content that was read whole, and an empty one stands
/// for the failure.
pub open spec fn unpacked_lines(content: Seq<u8>, error: Option<Seq<char>>) -> Seq<Seq<char>> {
    match error {
        None => lines_in(content),
        Some(_) => if is_read_whole(error) {
            ended_lines(content).push(Seq::empty())
        } else {
            seq![Seq::empty()]
        },
    }
}

/// The lines of a log that was decompressed to `content`, with an error or not.
pub fn lines_of_unpacked(content: &[u8], error: &Option<String>) -> (r: Vec<String>)
    ensures
        views(r@) == unpacked_lines(content@, opt_view(*error)),
{
    match error {
        None => log_lines_of(content),
        Some(e) => {
            let mut out: Vec<String> = Vec::new();
            assert(views(out@) =~= Seq::empty());
            if same_text(e.as_str(), GZIP_MISMATCH) {
                let pieces = split_bytes(content);
                let ghost ps = byte_pieces(content@);
                assert forall|i: int| 0 <= i < pieces@.len() implies pieces@[i]@
                    == #[trigger] ps[i] by {
                    assert(views(pieces@)[i] == pieces@[i]@);
                }
                assert(ps.len() == pieces@.len());
                out = lines_of_pieces(&pieces);
                assert(views(out@) =~= ended_lines(content@));
            }
            let empty = String::new();
            assert(empty@ =~= Seq::empty());
            push_view(&mut out, empty);
            assert(views(out@) =~= unpacked_lines(content@, opt_view(*error)));
            out
        },
    }
}

/// The lines of a file of the directory of logs; one that is no log has none.
pub open spec fn log_lines(kind: LogKind, data: Seq<u8>) -> Seq<Seq<char>> {
    match kind {
        LogKind::Plain => lines_in(data),
        LogKind::Compressed => unpacked_lines(gunzipped(data).0, gunzipped(data).1),
        LogKind::NoLog => Seq::empty(),
    }
}

/// The scan after the file `path` of the directory of logs.
pub open spec fn with_log(s: AltScanView, path: Seq<char>, data: Seq<u8>) -> AltScanView {
    with_lines(s, log_lines(log_kind(lower(file_name(path))), data), path)
}

pub fn scan_log_file(scan: &mut AltScan, path: &str, data: &[u8])
    ensures
        final(scan)@ == with_log(old(scan)@, path@, data@),
{
    match log_kind_of_path(path) {
        LogKind::Plain => {
            let lines = log_lines_of(data);
            scan_log_lines(scan, &lines, path);
        },
        LogKind::Compressed => {
            let (content, error) = gunzip(data);
            let lines = lines_of_unpacked(content.as_slice(), &error);
            assert(views(lines@) == log_lines(LogKind::Compressed, data@));
            scan_log_lines(scan, &lines, path);
        },
        LogKind::NoLog => {},
    }
}

// ---------------------------------------------------------------------------
// JSON files
// ---------------------------------------------------------------------------

/// A file that names no accounts: of an installation, or of Fabric.
pub open spec fn is_skipped_json(path: Seq<char>) -> bool {
    let name = lower(file_name(path));
    contains(lower(path), "\\versions\\"@) || (contains(name, "fabric"@) && contains(
        name,
        ".json"@,
    ))
}

pub fn should_skip_json(path: &str) -> (r: bool)
    ensures
        r == is_skipped_json(path@),
{
    let chars = chars_of(path);
    let low = lower_chars(chars.as_slice());
    if has_text(low.as_slice(), "\\versions\\") {
        return true;
    }
    let name = name_of_path(path);
    let name_chars = chars_of(name.as_str());
    let name_low = lower_chars(name_chars.as_slice());
    has_text(name_low.as_slice(), "fabric") && has_text(name_low.as_slice(), ".json")
}

/// A JSON file that is looked at.
pub fn is_scanned_json(path: &str) -> (r: bool)
    ensures
        r == (lower_extension(path@) == "json"@ && !is_skipped_json(path@)),
{
    let ext = extension_of_path(path);
    same_text(ext.as_str(), "json") && !should_skip_json(path)
}

/// A key, in lower case, under which a name stands.
pub open spec fn is_name_key(key: Seq<char>) -> bool {
    key == "username"@ || key == "name"@ || key == "displayname"@
}

/// The texts under keys for names, in order.
pub open spec fn names_in(value: JsonView) -> Seq<Seq<char>>
    decreases value, 0int,
{
    match value {
        JsonView::Object(members) => member_names(members, members.len()),
        JsonView::List(items) => item_names(items, items.len()),
        _ => Seq::empty(),
    }
}

pub open spec fn member_names(members: Seq<(Seq<char>, JsonView)>, n: nat) -> Seq<Seq<char>>
    decreases members, n,
{
    if n == 0 || n > members.len() {
        Seq::empty()
    } else {
        let (key, child) = members[n - 1];
        let before = member_names(members, (n - 1) as nat);
        let own = match child {
            JsonView::Text(text) => if is_name_key(lower(key)) {
                before.push(text)
            } else {
                before
            },
            _ => before,
        };
        own + names_in(child)
    }
}

pub open spec fn item_names(items: Seq<JsonView>, n: nat) -> Seq<Seq<char>>
    decreases items, n,
{
    if n == 0 || n > items.len() {
        Seq::empty()
    } else {
        item_names(items, (n - 1) as nat) + names_in(items[n - 1])
    }
}

/// Adds the texts under keys for names.
pub fn collect_names_from_json(value: &Json, out: &mut Vec<String>)
    ensures
        views(final(out)@) == views(old(out)@) + names_in(value.model()),
    decreases value,
{
    let ghost start = views(out@);
    match value {
        Json::Object(members) => {
            let ghost all = object_model(*members, members@.len());
            proof {
                lemma_object_model(*members, members@.len());
                assert(start + member_names(all, 0) =~= start);
            }
            for i in 0..members.len()
                invariant
                    all == object_model(*members, members@.len()),
                    all.len() == members@.len(),
                    *value == Json::Object(*members),
                    views(out@) == start + member_names(all, i as nat),
            {
                proof {
                    lemma_object_model(*members, members@.len());
                    assert(all[i as int] == (
                        members@[i as int].key@,
                        members@[i as int].value.model(),
                    ));
                    assert(decreases_to!(*value => value->Object_0));
                    assert(decreases_to!(*members => members@[i as int]));
                }
                let ghost before = member_names(all, i as nat);
                let ghost own = before;
                let chars = chars_of(members[i].key.as_str());
                let low = lower_chars(chars.as_slice());
                let key = low.as_slice();
                if is_text(key, "username") || is_text(key, "name") || is_text(key, "displayname") {
                    if let Json::Text(text) = &members[i].value {
                        push_view(out, text.clone());
                        proof {
                            own = before.push(text@);
                            assert((start + before).push(text@) =~= start + own);
                        }
                    }
                }
                let ghost inner = names_in(members@[i as int].value.model());
                collect_names_from_json(&members[i].value, out);
                proof {
                    assert((start + own) + inner =~= start + (own + inner));
                    assert(member_names(all, (i + 1) as nat) == own + inner);
                }
            }
        },
        Json::List(items) => {
            let ghost all = list_model(*items, items@.len());
            proof {
                lemma_list_model(*items, items@.len());
                assert(start + item_names(all, 0) =~= start);
            }
            for i in 0..items.len()
                invariant
                    all == list_model(*items, items@.len()),
                    all.len() == items@.len(),
                    *value == Json::List(*items),
                    views(out@) == start + item_names(all, i as nat),
            {
                proof {
                    lemma_list_model(*items, items@.len());
                    assert(decreases_to!(*value => value->List_0));
                    assert(decreases_to!(*items => items@[i as int]));
                }
                let ghost before = item_names(all, i as nat);
                let ghost inner = names_in(items@[i as int].model());
                collect_names_from_json(&items[i], out);
                assert((start + before) + inner =~= start + (before + inner));
            }
        },
        _ => {
            assert(start + Seq::empty() =~= start);
        },
    }
}

/// Records the names in a JSON value.
pub fn scan_json_value(scan: &mut AltScan, value: &Json, path: &str)
    ensures
        final(scan)@ == with_names(old(scan)@, names_in(value.model()), path@),
{
    let mut names: Vec<String> = Vec::new();
    collect_names_from_json(value, &mut names);
    let ghost all = names_in(value.model());
    assert(views(names@) =~= all);
    let ghost start = scan@;
    for i in 0..names.len()
        invariant
            all == views(names@),
            scan@ == with_names(start, all.take(i as int), path@),
    {
        assert(all.take(i + 1).drop_last() =~= all.take(i as int));
        assert(all.take(i + 1).last() == names@[i as int]@);
        scan.add_name(names[i].as_str(), path);
    }
    assert(all.take(all.len() as int) =~= all);
}

/// The scan after the JSON file `path`; a text that does not parse gives no names.
pub open spec fn with_json(s: AltScanView, path: Seq<char>, text: Seq<char>) -> AltScanView {
    match json_parsed(text) {
        Some(value) => with_names(s, names_in(value), path),
        None => s,
    }
}

pub fn scan_json_file(scan: &mut AltScan, path: &str, text: &str)
    ensures
        final(scan)@ == with_json(old(scan)@, path@, text@),
{
    if let Some(value) = parse_json(text) {
        scan_json_value(scan, &value, path);
    }
}

// ---------------------------------------------------------------------------
// Directories
// ---------------------------------------------------------------------------

/// A file of the directory of logs.
#[derive(Debug, Clone)]
pub struct LogFile {
    pub path: String,
    pub data: Vec<u8>,
}

/// A JSON file.
#[derive(Debug, Clone)]
pub struct JsonFile {
    pub path: String,
    pub text: String,
}

/// What a game directory holds.
#[derive(Debug, Clone)]
pub struct GameDirFiles {
    pub logs: Vec<LogFile>,
    pub jsons: Vec<JsonFile>,
}

/// The scan after the first `n` files of the directory of logs.
pub open spec fn with_logs(s: AltScanView, logs: Seq<LogFile>, n: nat) -> AltScanView
    decreases n,
{
    if n == 0 || n > logs.len() {
        s
    } else {
        with_log(with_logs(s, logs, (n - 1) as nat), logs[n - 1].path@, logs[n - 1].data@)
    }
}

/// The scan after the first `n` JSON files.
pub open spec fn with_jsons(s: AltScanView, jsons: Seq<JsonFile>, n: nat) -> AltScanView
    decreases n,
{
    if n == 0 || n > jsons.len() {
        s
    } else {
        with_json(with_jsons(s, jsons, (n - 1) as nat), jsons[n - 1].path@, jsons[n - 1].text@)
    }
}

/// The scan after the first `n` directories: of each the logs, then the JSON files.
pub open spec fn with_dirs(s: AltScanView, dirs: Seq<GameDirFiles>, n: nat) -> AltScanView
    decreases n,
{
    if n == 0 || n > dirs.len() {
        s
    } else {
        let d = dirs[n - 1];
        let after_logs = with_logs(with_dirs(s, dirs, (n - 1) as nat), d.logs@, d.logs@.len());
        with_jsons(after_logs, d.jsons@, d.jsons@.len())
    }
}

fn scan_logs(scan: &mut AltScan, logs: &Vec<LogFile>)
    ensures
        final(scan)@ == with_logs(old(scan)@, logs@, logs@.len()),
{
    let ghost start = scan@;
    for i in 0..logs.len()
        invariant
            scan@ == with_logs(start, logs@, i as nat),
    {
        scan_log_file(scan, logs[i].path.as_str(), logs[i].data.as_slice());
    }
}

fn scan_jsons(scan: &mut AltScan, jsons: &Vec<JsonFile>)
    ensures
        final(scan)@ == with_jsons(old(scan)@, jsons@, jsons@.len()),
{
    let ghost start = scan@;
    for i in 0..jsons.len()
        invariant
            scan@ == with_jsons(start, jsons@, i as nat),
    {
        scan_json_file(scan, jsons[i].path.as_str(), jsons[i].text.as_str());
    }
}

/// The accounts named in game directories, each once, in the order in which
/// they are found.
pub fn detect_alt_accounts(dirs: &Vec<GameDirFiles>) -> (r: Vec<AltAccount>)
    ensures
        views(r@) == with_dirs(nothing_found(), dirs@, dirs@.len()).accounts,
{
    let mut scan = AltScan::new();
    for i in 0..dirs.len()
        invariant
            scan@ == with_dirs(nothing_found(), dirs@, i as nat),
    {
        scan_logs(&mut scan, &dirs[i].logs);
        scan_jsons(&mut scan, &dirs[i].jsons);
    }
    scan.accounts
}

proof fn lemma_found_consistent(s: AltScanView, found: Option<Seq<char>>, source: Seq<char>)
    requires
        is_consistent(s),
    ensures
        is_consistent(with_found(s, found, source)),
{
    if let Some(value) = found {
        law_names_distinct(s, value, source);
    }
}

proof fn lemma_lines_consistent(s: AltScanView, lines: Seq<Seq<char>>, source: Seq<char>)
    requires
        is_consistent(s),
    ensures
        is_consistent(with_lines(s, lines, source)),
    decreases lines.len(),
{
    if lines.len() > 0 {
        lemma_lines_consistent(s, lines.drop_last(), source);
        let f = line_finds(lines.last());
        let a = with_lines(s, lines.drop_last(), source);
        let b = with_found(a, f.client, source);
        let c = with_found(b, f.lunar, source);
        let d = with_found(c, f.authenticator, source);
        lemma_found_consistent(a, f.client, source);
        lemma_found_consistent(b, f.lunar, source);
        lemma_found_consistent(c, f.authenticator, source);
        lemma_found_consistent(d, f.display, source);
    }
}

proof fn lemma_names_consistent(s: AltScanView, names: Seq<Seq<char>>, source: Seq<char>)
    requires
        is_consistent(s),
    ensures
        is_consistent(with_names(s, names, source)),
    decreases names.len(),
{
    if names.len() > 0 {
        lemma_names_consistent(s, names.drop_last(), source);
        law_names_distinct(with_names(s, names.drop_last(), source), names.last(), source);
    }
}

proof fn lemma_logs_consistent(s: AltScanView, logs: Seq<LogFile>, n: nat)
    requires
        is_consistent(s),
    ensures
        is_consistent(with_logs(s, logs, n)),
    decreases n,
{
    if n > 0 && n <= logs.len() {
        lemma_logs_consistent(s, logs, (n - 1) as nat);
        let before = with_logs(s, logs, (n - 1) as nat);
        let path = logs[n - 1].path@;
        lemma_lines_consistent(
            before,
            log_lines(log_kind(lower(file_name(path))), logs[n - 1].data@),
            path,
        );
    }
}

proof fn lemma_jsons_consistent(s: AltScanView, jsons: Seq<JsonFile>, n: nat)
    requires
        is_consistent(s),
    ensures
        is_consistent(with_jsons(s, jsons, n)),
    decreases n,
{
    if n > 0 && n <= jsons.len() {
        lemma_jsons_consistent(s, jsons, (n - 1) as nat);
        let before = with_jsons(s, jsons, (n - 1) as nat);
        if let Some(value) = json_parsed(jsons[n - 1].text@) {
            lemma_names_consistent(before, names_in(value), jsons[n - 1].path@);
        }
    }
}

proof fn lemma_dirs_consistent(dirs: Seq<GameDirFiles>, n: nat)
    ensures
        is_consistent(with_dirs(nothing_found(), dirs, n)),
    decreases n,
{
    if n > 0 && n <= dirs.len() {
        lemma_dirs_consistent(dirs, (n - 1) as nat);
        let before = with_dirs(nothing_found(), dirs, (n - 1) as nat);
        let d = dirs[n - 1];
        lemma_logs_consistent(before, d.logs@, d.logs@.len());
        lemma_jsons_consistent(with_logs(before, d.logs@, d.logs@.len()), d.jsons@, d.jsons@.len());
    }
}

/// No two of the accounts found have the same name up to case.
pub proof fn law_accounts_distinct(dirs: Seq<GameDirFiles>, i: int, j: int)
    requires
        0 <= i < j < with_dirs(nothing_found(), dirs, dirs.len()).accounts.len(),
    ensures
        lower(with_dirs(nothing_found(), dirs, dirs.len()).accounts[i].name) != lower(
            with_dirs(nothing_found(), dirs, dirs.len()).accounts[j].name,
        ),
{
    lemma_dirs_consistent(dirs, dirs.len());
}

/// The name of every account found has 3 to 32 letters, digits and underscores.
pub proof fn law_account_names(dirs: Seq<GameDirFiles>, i: int)
    requires
        0 <= i < with_dirs(nothing_found(), dirs, dirs.len()).accounts.len(),
    ensures
        is_account_name(with_dirs(nothing_found(), dirs, dirs.len()).accounts[i].name),
{
    lemma_dirs_consistent(dirs, dirs.len());
}

/// A running game: its directory, what contains that, and the directory of
/// LabyMod in it, each where it is a directory.
#[derive(Debug, Clone)]
pub struct RunningGame {
    pub is_minecraft: bool,
    pub game_dir: String,
    pub is_dir: bool,
    pub parent: Option<String>,
    pub laby_dir: Option<String>,
}

/// Some of `dirs` is the same path as `dir`.
pub open spec fn is_listed(dirs: Seq<Seq<char>>, dir: Seq<char>) -> bool {
    exists|i: int| 0 <= i < dirs.len() && path_identity(#[trigger] dirs[i]) == path_identity(dir)
}

/// `dirs` with `dir`, unless it is listed.
pub open spec fn with_game_dir(dirs: Seq<Seq<char>>, dir: Seq<char>) -> Seq<Seq<char>> {
    if is_listed(dirs, dir) {
        dirs
    } else {
        dirs.push(dir)
    }
}

pub open spec fn with_optional_dir(dirs: Seq<Seq<char>>, dir: Option<Seq<char>>) -> Seq<Seq<char>> {
    match dir {
        Some(d) => with_game_dir(dirs, d),
        None => dirs,
    }
}

/// `dirs` with the directories of one running game: its own, the one above it
/// where it is called `game`, and the one of LabyMod.
pub open spec fn with_game(dirs: Seq<Seq<char>>, g: RunningGame) -> Seq<Seq<char>> {
    if !g.is_minecraft || !g.is_dir {
        dirs
    } else {
        let own = with_game_dir(dirs, g.game_dir@);
        let up = if same_ignoring_case(file_name(g.game_dir@), "game"@) {
            with_optional_dir(own, opt_view(g.parent))
        } else {
            own
        };
        with_optional_dir(up, opt_view(g.laby_dir))
    }
}

/// The directories of the first `n` running games, in the order in which they
/// are found.
pub open spec fn dirs_of_games(games: Seq<RunningGame>, n: nat) -> Seq<Seq<char>>
    decreases n,
{
    if n == 0 || n > games.len() {
        Seq::empty()
    } else {
        with_game(dirs_of_games(games, (n - 1) as nat), games[n - 1])
    }
}

/// No two of `dirs` are the same path.
pub open spec fn are_distinct_paths(dirs: Seq<Seq<char>>) -> bool {
    forall|i: int, j: int|
        0 <= i < j < dirs.len() ==> path_identity(#[trigger] dirs[i]) != path_identity(
            #[trigger] dirs[j],
        )
}

/// No directory is listed twice, however it is written.
pub proof fn law_game_dirs_distinct(games: Seq<RunningGame>, n: nat)
    ensures
        are_distinct_paths(dirs_of_games(games, n)),
    decreases n,
{
    if n > 0 && n <= games.len() {
        law_game_dirs_distinct(games, (n - 1) as nat);
    }
}

fn add_dir(dirs: &mut Vec<String>, dir: &String)
    ensures
        views(final(dirs)@) == with_game_dir(views(old(dirs)@), dir@),
{
    let ghost all = views(dirs@);
    for i in 0..dirs.len()
        invariant
            all == views(dirs@),
            all.len() == dirs@.len(),
            forall|j: int| 0 <= j < i ==> path_identity(#[trigger] all[j]) != path_identity(dir@),
    {
        assert(all[i as int] == dirs@[i as int]@);
        if is_same_path(dirs[i].as_str(), dir.as_str()) {
            return;
        }
    }
    push_view(dirs, dir.clone());
}

/// The directories of all running games, each once.
pub fn load_game_dirs(games: &Vec<RunningGame>) -> (r: Vec<String>)
    ensures
        views(r@) == dirs_of_games(games@, games@.len()),
        are_distinct_paths(views(r@)),
{
    let mut dirs: Vec<String> = Vec::new();
    assert(views(dirs@) =~= Seq::empty());
    for i in 0..games.len()
        invariant
            views(dirs@) == dirs_of_games(games@, i as nat),
    {
        let game = &games[i];
        if game.is_minecraft && game.is_dir {
            add_dir(&mut dirs, &game.game_dir);
            let name = name_of_path(game.game_dir.as_str());
            let chars = chars_of(name.as_str());
            if is_text_ignoring_case(chars.as_slice(), "game") {
                if let Some(parent) = &game.parent {
                    add_dir(&mut dirs, parent);
                }
            }
            if let Some(laby) = &game.laby_dir {
                add_dir(&mut dirs, laby);
            }
        }
        assert(views(dirs@) == with_game(dirs_of_games(games@, i as nat), *game));
    }
    proof {
        law_game_dirs_distinct(games@, games@.len());
    }
    dirs
}

} // verus!
