//! LevelDB keys and values as text.

use vstd::prelude::*;
use vstd::utf8::{decode_utf8, valid_utf8};

use crate::bytes::byte_range;
use crate::json::{
    json_parsed, json_pretty, lemma_list_model, lemma_object_model, list_model, object_model,
    parse_json, print_json, Json, JsonView, Member,
};
use crate::std_text::utf8_text;
use crate::text::{
    begins_with, char_is_alphanumeric, chars_of, first_at, is_alphanumeric, number_text,
    replace_chars, replaced, starts_with, string_of, trim, trim_chars, with_number, CharClass,
};
use crate::text_bytes::find_bytes;
use crate::viewer::{displayable, is_displayable_text, truncate_chars};
use crate::views::opt_view;

verus! {

// ---------------------------------------------------------------------------
// Text in bytes
// ---------------------------------------------------------------------------

/// The text of `bytes`, where they are readable: not empty, UTF-8, and without
/// control characters other than line breaks and tabs.
pub open spec fn clean_text(bytes: Seq<u8>) -> Option<Seq<char>> {
    if valid_utf8(bytes) && decode_utf8(bytes).len() > 0 && displayable(decode_utf8(bytes)) {
        Some(trim(decode_utf8(bytes), CharClass::Only('\0')))
    } else {
        None
    }
}

pub fn is_readable_text(text: &str) -> (r: bool)
    ensures
        r == (text@.len() > 0 && displayable(text@)),
{
    let chars = chars_of(text);
    chars.len() > 0 && is_displayable_text(text)
}

pub fn try_clean_utf8(bytes: &[u8]) -> (r: Option<String>)
    ensures
        match r {
            Some(text) => clean_text(bytes@) == Some(text@),
            None => clean_text(bytes@) is None,
        },
{
    match utf8_text(bytes) {
        Some(text) => {
            if !is_readable_text(text.as_str()) {
                return None;
            }
            let chars = chars_of(text.as_str());
            Some(string_of(trim_chars(chars.as_slice(), CharClass::Only('\0'))))
        },
        None => None,
    }
}

/// A visible ASCII character or a space as itself, any other byte as a dot.
pub open spec fn ascii_char(b: u8) -> char {
    if 32 <= b <= 126 {
        b as char
    } else {
        '.'
    }
}

/// The first `max` bytes as ASCII.
pub open spec fn ascii_text(bytes: Seq<u8>, max: nat) -> Seq<char> {
    let n = if bytes.len() < max {
        bytes.len()
    } else {
        max
    };
    bytes.take(n as int).map_values(|b: u8| ascii_char(b))
}

pub fn ascii_fallback(bytes: &[u8], max_bytes: usize) -> (r: String)
    ensures
        r@ == ascii_text(bytes@, max_bytes as nat),
{
    let n: usize = if bytes.len() < max_bytes {
        bytes.len()
    } else {
        max_bytes
    };
    let ghost want = ascii_text(bytes@, max_bytes as nat);
    let mut out = String::new();
    assert(out@ =~= want.take(0));
    for i in 0..n
        invariant
            n <= bytes@.len(),
            want == bytes@.take(n as int).map_values(|b: u8| ascii_char(b)),
            out@ == want.take(i as int),
    {
        let b: u8 = bytes[i];
        if 32 <= b && b <= 126 {
            out.push(b as char);
        } else {
            out.push('.');
        }
        assert(want[i as int] == ascii_char(b));
        assert(out@ =~= want.take(i + 1));
    }
    assert(want.take(want.len() as int) =~= want);
    out
}

// ---------------------------------------------------------------------------
// Keys
// ---------------------------------------------------------------------------

/// A key with the separators that browsers put in it made visible.
pub open spec fn shown_key(value: Seq<char>) -> Seq<char> {
    replaced(replaced(value, "/^0"@, " | "@), "^0"@, " | "@)
}

pub fn normalize_key_text(value: &str) -> (r: String)
    ensures
        r@ == shown_key(value@),
{
    proof {
        reveal_strlit("/^0");
        reveal_strlit("^0");
    }
    let chars = chars_of(value);
    let a = replace_chars(chars.as_slice(), "/^0", " | ");
    let b = replace_chars(a.as_slice(), "^0", " | ");
    string_of(b.as_slice())
}

/// Where the bytes of `needle`, of which there is at least one, stand first.
pub fn find_delimiter(haystack: &[u8], needle: &[u8]) -> (r: Option<usize>)
    ensures
        match r {
            Some(i) => needle@.len() > 0 && first_at(haystack@, needle@) == Some(i as int) && i
                + needle@.len() <= haystack@.len(),
            None => needle@.len() == 0 || first_at(haystack@, needle@) is None,
        },
{
    if needle.len() == 0 {
        return None;
    }
    find_bytes(haystack, needle)
}

/// A key of which nothing is readable.
pub open spec fn binary_key(bytes: Seq<u8>) -> Seq<char> {
    with_number("binary key ["@, bytes.len(), " bytes] | ascii="@) + ascii_text(bytes, 64)
}

/// A key as text: as it is where it is readable, as two parts where the bytes 0
/// and 1 part it into readable ones, else as ASCII.
pub open spec fn key_text(bytes: Seq<u8>) -> Seq<char> {
    match clean_text(bytes) {
        Some(text) => shown_key(text),
        None => match first_at(bytes, seq![0u8, 1u8]) {
            Some(pos) => match (clean_text(bytes.take(pos)), clean_text(bytes.skip(pos + 2))) {
                (Some(a), Some(b)) => if a.len() > 0 || b.len() > 0 {
                    shown_key(a) + " :: "@ + shown_key(b)
                } else {
                    binary_key(bytes)
                },
                _ => binary_key(bytes),
            },
            None => binary_key(bytes),
        },
    }
}

pub fn decode_key_text(bytes: &[u8]) -> (r: String)
    ensures
        r@ == key_text(bytes@),
{
    if let Some(text) = try_clean_utf8(bytes) {
        return normalize_key_text(text.as_str());
    }
    let delimiter: [u8; 2] = [0, 1];
    assert(delimiter@ =~= seq![0u8, 1u8]);
    if let Some(pos) = find_delimiter(bytes, &delimiter) {
        let size: usize = bytes.len();
        assert(pos + 2 <= size);
        let left = byte_range(bytes, 0, pos);
        let right = byte_range(bytes, pos + 2, size);
        assert(left@ =~= bytes@.take(pos as int));
        assert(right@ =~= bytes@.skip(pos + 2));
        if let Some(a) = try_clean_utf8(left.as_slice()) {
            if let Some(b) = try_clean_utf8(right.as_slice()) {
                let a_chars = chars_of(a.as_str());
                let b_chars = chars_of(b.as_str());
                if a_chars.len() > 0 || b_chars.len() > 0 {
                    let mut out = normalize_key_text(a.as_str());
                    out.push_str(" :: ");
                    let second = normalize_key_text(b.as_str());
                    out.push_str(second.as_str());
                    return out;
                }
            }
        }
    }
    let mut out = number_text("binary key [", bytes.len() as u64, " bytes] | ascii=");
    let ascii = ascii_fallback(bytes, 64);
    out.push_str(ascii.as_str());
    out
}

// ---------------------------------------------------------------------------
// Values
// ---------------------------------------------------------------------------

/// A character of an encoded text.
pub open spec fn is_blob_char(c: char) -> bool {
    is_alphanumeric(c) || c == '+' || c == '/' || c == '=' || c == '-' || c == '_'
}

/// How many characters of `s` are those of an encoded text.
pub open spec fn blob_chars(s: Seq<char>) -> nat
    decreases s.len(),
{
    if s.len() == 0 {
        0
    } else {
        blob_chars(s.drop_last()) + if is_blob_char(s.last()) {
            1nat
        } else {
            0nat
        }
    }
}

/// A long text of which at least 88 percent are characters of an encoded text.
pub open spec fn is_blob(s: Seq<char>) -> bool {
    s.len() >= 180 && blob_chars(s) * 100 / s.len() >= 88
}

pub fn looks_encoded_blob(text: &str) -> (r: bool)
    ensures
        r == is_blob(text@),
{
    let chars = chars_of(text);
    if chars.len() < 180 {
        return false;
    }
    let mut blob_like: usize = 0;
    for i in 0..chars.len()
        invariant
            chars@ == text@,
            blob_like <= i,
            blob_like as nat == blob_chars(chars@.take(i as int)),
    {
        assert(chars@.take(i + 1).drop_last() =~= chars@.take(i as int));
        let c = chars[i];
        if char_is_alphanumeric(c) || c == '+' || c == '/' || c == '=' || c == '-' || c == '_' {
            blob_like = blob_like + 1;
        }
    }
    assert(chars@.take(chars@.len() as int) =~= chars@);
    let total: u128 = chars.len() as u128;
    (blob_like as u128) * 100 / total >= 88
}

/// A JSON value with a note in place of each encoded text.
pub open spec fn sanitized(value: JsonView) -> JsonView
    decreases value, 0int,
{
    match value {
        JsonView::Object(members) => JsonView::Object(sanitized_members(members, members.len())),
        JsonView::List(items) => JsonView::List(sanitized_items(items, items.len())),
        JsonView::Text(text) => if is_blob(text) {
            JsonView::Text(with_number("<encoded blob: "@, text.len(), " chars>"@))
        } else {
            value
        },
        _ => value,
    }
}

pub open spec fn sanitized_items(items: Seq<JsonView>, n: nat) -> Seq<JsonView>
    decreases items, n,
{
    if n == 0 || n > items.len() {
        Seq::empty()
    } else {
        sanitized_items(items, (n - 1) as nat).push(sanitized(items[n - 1]))
    }
}

pub open spec fn sanitized_members(members: Seq<(Seq<char>, JsonView)>, n: nat) -> Seq<
    (Seq<char>, JsonView),
>
    decreases members, n,
{
    if n == 0 || n > members.len() {
        Seq::empty()
    } else {
        sanitized_members(members, (n - 1) as nat).push(
            (members[n - 1].0, sanitized(members[n - 1].1)),
        )
    }
}

/// The list with one more item shows one more.
proof fn lemma_list_push(v: Vec<Json>, w: Vec<Json>, x: Json)
    requires
        w@ == v@.push(x),
    ensures
        list_model(w, w@.len()) == list_model(v, v@.len()).push(x.model()),
{
    lemma_list_model(v, v@.len());
    lemma_list_model(w, w@.len());
    assert(list_model(w, w@.len()) =~= list_model(v, v@.len()).push(x.model()));
}

proof fn lemma_object_push(v: Vec<Member>, w: Vec<Member>, x: Member)
    requires
        w@ == v@.push(x),
    ensures
        object_model(w, w@.len()) == object_model(v, v@.len()).push((x.key@, x.value.model())),
{
    lemma_object_model(v, v@.len());
    lemma_object_model(w, w@.len());
    assert(object_model(w, w@.len()) =~= object_model(v, v@.len()).push(
        (x.key@, x.value.model()),
    ));
}

pub fn sanitize_json(value: &Json) -> (r: Json)
    ensures
        r.model() == sanitized(value.model()),
    decreases value,
{
    match value {
        Json::Object(members) => {
            let ghost all = object_model(*members, members@.len());
            let mut out: Vec<Member> = Vec::new();
            proof {
                lemma_object_model(*members, members@.len());
                lemma_object_model(out, 0);
                assert(object_model(out, out@.len()) =~= sanitized_members(all, 0));
            }
            for i in 0..members.len()
                invariant
                    all == object_model(*members, members@.len()),
                    all.len() == members@.len(),
                    *value == Json::Object(*members),
                    object_model(out, out@.len()) == sanitized_members(all, i as nat),
            {
                proof {
                    lemma_object_model(*members, members@.len());
                    assert(all[i as int] == (
                        members@[i as int].key@,
                        members@[i as int].value.model(),
                    ));
                    assert(decreases_to!(*value => value->Object_0));
                    assert(decreases_to!(*members => members@[i as int]));
                }
                let ghost before = out;
                let member = Member {
                    key: members[i].key.clone(),
                    value: sanitize_json(&members[i].value),
                };
                let ghost added = member;
                out.push(member);
                proof {
                    lemma_object_push(before, out, added);
                }
            }
            Json::Object(out)
        },
        Json::List(items) => {
            let ghost all = list_model(*items, items@.len());
            let mut out: Vec<Json> = Vec::new();
            proof {
                lemma_list_model(*items, items@.len());
                lemma_list_model(out, 0);
                assert(list_model(out, out@.len()) =~= sanitized_items(all, 0));
            }
            for i in 0..items.len()
                invariant
                    all == list_model(*items, items@.len()),
                    all.len() == items@.len(),
                    *value == Json::List(*items),
                    list_model(out, out@.len()) == sanitized_items(all, i as nat),
            {
                proof {
                    lemma_list_model(*items, items@.len());
                    assert(decreases_to!(*value => value->List_0));
                    assert(decreases_to!(*items => items@[i as int]));
                }
                let ghost before = out;
                let item = sanitize_json(&items[i]);
                let ghost added = item;
                out.push(item);
                proof {
                    lemma_list_push(before, out, added);
                }
            }
            Json::List(out)
        },
        Json::Text(text) => {
            if looks_encoded_blob(text.as_str()) {
                let chars = chars_of(text.as_str());
                Json::Text(number_text("<encoded blob: ", chars.len() as u64, " chars>"))
            } else {
                Json::Text(text.clone())
            }
        },
        Json::Number(n) => Json::Number(n.clone()),
        Json::Flag(b) => Json::Flag(*b),
        Json::Null => Json::Null,
    }
}

/// A text that is a JSON object or list, on several lines and with notes in
/// place of encoded texts.
pub open spec fn pretty(text: Seq<char>) -> Option<Seq<char>> {
    let trimmed = trim(text, CharClass::Space);
    if !(starts_with(trimmed, "{"@) || starts_with(trimmed, "["@)) {
        None
    } else {
        match json_parsed(trimmed) {
            Some(value) => json_pretty(sanitized(value)),
            None => None,
        }
    }
}

pub fn pretty_json(text: &str) -> (r: Option<String>)
    ensures
        match r {
            Some(shown) => pretty(text@) == Some(shown@),
            None => pretty(text@) is None,
        },
{
    let chars = chars_of(text);
    let trimmed = trim_chars(chars.as_slice(), CharClass::Space);
    if !(begins_with(trimmed, "{") || begins_with(trimmed, "[")) {
        return None;
    }
    let trimmed_text = string_of(trimmed);
    match parse_json(trimmed_text.as_str()) {
        Some(value) => {
            let clean = sanitize_json(&value);
            print_json(&clean)
        },
        None => None,
    }
}

/// A readable text as a value: a note where it is encoded, on several lines
/// where it is JSON (`shown`), else as it is.
pub open spec fn text_value(text: Seq<char>, shown: Option<Seq<char>>) -> Seq<char> {
    if is_blob(text) {
        with_number("encoded text blob ["@, text.len(), " chars]"@)
    } else {
        match shown {
            Some(p) => p,
            None => text,
        }
    }
}

/// The text behind a first byte that marks how a text is stored.
pub open spec fn marked_text(bytes: Seq<u8>) -> Option<Seq<char>> {
    if bytes.len() > 1 && (bytes[0] == 1 || bytes[0] == 0 || bytes[0] == 8) {
        clean_text(bytes.skip(1))
    } else {
        None
    }
}

/// A value as text.
pub open spec fn value_text(bytes: Seq<u8>) -> Seq<char> {
    if bytes.len() == 0 {
        "<empty>"@
    } else {
        match clean_text(bytes) {
            Some(text) => text_value(text, pretty(text)),
            None => match marked_text(bytes) {
                Some(text) => text_value(text, pretty(text)),
                None => with_number(
                    "binary value ["@,
                    bytes.len(),
                    " bytes]; ascii preview: "@,
                ) + ascii_text(bytes, 96),
            },
        }
    }
}

/// A readable text as a value, `shown` where it is JSON.
pub fn text_value_given(text: String, shown: Option<String>) -> (r: String)
    ensures
        r@ == text_value(text@, opt_view(shown)),
{
    if looks_encoded_blob(text.as_str()) {
        let chars = chars_of(text.as_str());
        return number_text("encoded text blob [", chars.len() as u64, " chars]");
    }
    match shown {
        Some(p) => p,
        None => text,
    }
}

pub fn decode_value_full(bytes: &[u8]) -> (r: String)
    ensures
        r@ == value_text(bytes@),
{
    if bytes.len() == 0 {
        return "<empty>".to_string();
    }
    if let Some(text) = try_clean_utf8(bytes) {
        let shown = pretty_json(text.as_str());
        return text_value_given(text, shown);
    }
    if bytes.len() > 1 && (bytes[0] == 1 || bytes[0] == 0 || bytes[0] == 8) {
        let rest = byte_range(bytes, 1, bytes.len());
        assert(rest@ =~= bytes@.skip(1));
        if let Some(text) = try_clean_utf8(rest.as_slice()) {
            let shown = pretty_json(text.as_str());
            return text_value_given(text, shown);
        }
    }
    let mut out = number_text(
        "binary value [",
        bytes.len() as u64,
        " bytes]; ascii preview: ",
    );
    let ascii = ascii_fallback(bytes, 96);
    out.push_str(ascii.as_str());
    out
}

/// The first `max` characters on one line, with dots behind them where there
/// are more.
pub open spec fn preview(text: Seq<char>, max: nat) -> Seq<char> {
    let line = replaced(replaced(text, "\n"@, " "@), "\r"@, " "@);
    if max == 0 {
        Seq::empty()
    } else if line.len() > max {
        line.take(max as int) + "..."@
    } else {
        line
    }
}

pub fn preview_text(text: &str, max_chars: usize) -> (r: String)
    ensures
        r@ == preview(text@, max_chars as nat),
{
    if max_chars == 0 {
        let r = String::new();
        assert(r@ =~= Seq::empty());
        return r;
    }
    proof {
        reveal_strlit("\n");
        reveal_strlit("\r");
    }
    let chars = chars_of(text);
    let a = replace_chars(chars.as_slice(), "\n", " ");
    let b = replace_chars(a.as_slice(), "\r", " ");
    let line = string_of(b.as_slice());
    let (cut, truncated) = truncate_chars(line.as_str(), max_chars);
    let mut out = cut;
    if truncated {
        out.push_str("...");
    }
    out
}

/// A text on one line, line breaks and tabs written out.
pub open spec fn one_line(text: Seq<char>) -> Seq<char> {
    replaced(replaced(replaced(text, "\r"@, "\\r"@), "\n"@, "\\n"@), "\t"@, "\\t"@)
}

pub fn normalize_line_text(text: &str) -> (r: String)
    ensures
        r@ == one_line(text@),
{
    proof {
        reveal_strlit("\n");
        reveal_strlit("\r");
        reveal_strlit("\t");
    }
    let chars = chars_of(text);
    let a = replace_chars(chars.as_slice(), "\r", "\\r");
    let b = replace_chars(a.as_slice(), "\n", "\\n");
    let c = replace_chars(b.as_slice(), "\t", "\\t");
    string_of(c.as_slice())
}

} // verus!
