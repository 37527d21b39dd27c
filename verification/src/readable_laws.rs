//! What the readable form of a LevelDB directory promises: what is text is shown as
//! it is, what is not is told apart, and every change counts in its order.

use vstd::prelude::*;
use vstd::utf8::{decode_utf8, encode_utf8, encode_utf8_decode_utf8, encode_utf8_valid_utf8, valid_utf8};

use crate::json::{key_at, value_at, JsonStep, JsonView};
use crate::order::text_before;
use crate::paths::file_name;
use crate::readable::{
    ascii_text, blob_chars, clean_text, is_blob, key_text, one_line, pretty, preview, sanitized,
    sanitized_items, sanitized_members, shown_key, value_text,
};
use crate::readable_records::{
    batch_lines, batch_ops, batch_prefix, batches_lines, entry_line, entry_lines, entry_op,
    file_lines, file_ops, files_lines, latest, latest_in_order, law_latest, law_records_in_force,
    log_lines, operation_line, operation_lines, padded, prefixed, readable_of, readable_record,
    scan_lines, scan_ops, wal_ops, OpView, RecordView,
};
use crate::text::{decimal, first_at, lemma_first_at, occurs_at, replaced, starts_with};
use crate::viewer::{
    displayable, ContentView, LdbEntryView, ParsedFileView, ScanResultView, WalBatchView,
    WalOperationKind, WalOperationView,
};

verus! {

// ---------------------------------------------------------------------------
// Texts
// ---------------------------------------------------------------------------

/// The character is one that is not shown: a control character other than a line
/// break or a tab.
pub open spec fn is_hidden(c: char) -> bool {
    let u = c as u32;
    (u < 32 || 127 <= u < 160) && c != '\t' && c != '\n' && c != '\r'
}

/// Bytes are readable where they are the UTF-8 of a text that is not empty and
/// has no hidden character; then they are read as that text.
pub proof fn law_clean_text(text: Seq<char>, bytes: Seq<u8>, i: int)
    requires
        0 <= i < text.len(),
    ensures
        (forall|j: int| 0 <= j < text.len() ==> !is_hidden(#[trigger] text[j])) ==> clean_text(
            encode_utf8(text),
        ) == Some(text),
        is_hidden(text[i]) ==> clean_text(encode_utf8(text)) is None,
        !valid_utf8(bytes) ==> clean_text(bytes) is None,
        clean_text(Seq::empty()) is None,
{
    encode_utf8_valid_utf8(text);
    encode_utf8_decode_utf8(text);
    if forall|j: int| 0 <= j < text.len() ==> !is_hidden(#[trigger] text[j]) {
        assert forall|j: int| 0 <= j < text.len() implies #[trigger] text[j] == '\n' || text[j]
            == '\r' || text[j] == '\t' || !crate::text::is_control(text[j]) by {
            assert(!is_hidden(text[j]));
        }
        assert(!is_hidden(text[0]));
        assert(!is_hidden(text[text.len() - 1]));
        assert(text[0] != '\0' && text.last() != '\0');
    }
}

/// At most `max` bytes are shown as characters: those from 32 to 126 as
/// themselves, all others as dots.
pub proof fn law_ascii_text(bytes: Seq<u8>, max: nat, i: int)
    requires
        0 <= i < bytes.len(),
        i < max,
    ensures
        bytes.len() <= max ==> ascii_text(bytes, max).len() == bytes.len(),
        bytes.len() > max ==> ascii_text(bytes, max).len() == max,
        32 <= bytes[i] <= 126 ==> ascii_text(bytes, max)[i] as u32 == bytes[i] as u32,
        !(32 <= bytes[i] <= 126) ==> ascii_text(bytes, max)[i] == '.',
{
}

/// Where a text is parted at its first mark, the mark is replaced and what stands
/// behind it is replaced in turn; a text without the mark stays as it is.
pub proof fn law_replaced(a: Seq<char>, from: Seq<char>, to: Seq<char>, b: Seq<char>)
    requires
        from.len() > 0,
        forall|i: int| 0 <= i < a.len() ==> !occurs_at(a + from + b, from, #[trigger] in_front(i)),
    ensures
        replaced(a + from + b, from, to) == a + to + replaced(b, from, to),
    decreases a.len(),
{
    let whole = a + from + b;
    if a.len() == 0 {
        assert(whole =~= from + b);
        assert(whole.subrange(0, from.len() as int) =~= from);
        assert(whole.skip(from.len() as int) =~= b);
        assert(a + to + replaced(b, from, to) =~= to + replaced(b, from, to));
    } else {
        let rest = a.skip(1);
        let tail = rest + from + b;
        assert(!occurs_at(whole, from, in_front(0)));
        assert(whole.skip(1) =~= tail);
        assert forall|i: int| 0 <= i < rest.len() implies !occurs_at(
            tail,
            from,
            #[trigger] in_front(i),
        ) by {
            assert(!occurs_at(whole, from, in_front(i + 1)));
            if occurs_at(tail, from, i) {
                assert(whole.subrange(i + 1, i + 1 + from.len()) =~= tail.subrange(
                    i,
                    i + from.len(),
                ));
            }
        }
        law_replaced(rest, from, to, b);
        assert(seq![a[0]] + (rest + to + replaced(b, from, to)) =~= a + to + replaced(b, from, to));
    }
}

/// The place `i` itself.
pub open spec fn in_front(i: int) -> int {
    i
}

/// A text in which the mark does not occur stays as it is.
pub proof fn law_nothing_replaced(s: Seq<char>, from: Seq<char>, to: Seq<char>)
    requires
        forall|i: int| 0 <= i < s.len() ==> !occurs_at(s, from, #[trigger] in_front(i)),
    ensures
        replaced(s, from, to) == s,
    decreases s.len(),
{
    if s.len() > 0 && from.len() > 0 {
        let rest = s.skip(1);
        assert(!occurs_at(s, from, in_front(0)));
        assert forall|i: int| 0 <= i < rest.len() implies !occurs_at(
            rest,
            from,
            #[trigger] in_front(i),
        ) by {
            assert(!occurs_at(s, from, in_front(i + 1)));
            if occurs_at(rest, from, i) {
                assert(s.subrange(i + 1, i + 1 + from.len()) =~= rest.subrange(i, i + from.len()));
            }
        }
        law_nothing_replaced(rest, from, to);
        assert(seq![s[0]] + rest =~= s);
    }
}

/// Replacing one character keeps every other one at its place.
proof fn lemma_replaced_chars(s: Seq<char>, from: Seq<char>, to: Seq<char>, i: int)
    requires
        from.len() == 1,
        to.len() == 1,
        0 <= i < s.len(),
    ensures
        replaced(s, from, to).len() == s.len(),
        replaced(s, from, to)[i] == if s[i] == from[0] {
            to[0]
        } else {
            s[i]
        },
    decreases s.len(),
{
    assert(starts_with(s, from) <==> s[0] == from[0]) by {
        if s[0] == from[0] {
            assert(s.subrange(0, 1) =~= from);
        } else {
            assert(s.subrange(0, 1)[0] == s[0]);
        }
    }
    let rest = s.skip(1);
    if rest.len() > 0 {
        if i > 0 {
            lemma_replaced_chars(rest, from, to, i - 1);
        } else {
            lemma_replaced_chars(rest, from, to, 0);
        }
    } else {
        assert(replaced(rest, from, to).len() == 0);
    }
}

/// The separators of keys, `^0` with or without a slash before it, are shown as
/// strokes.
pub proof fn law_shown_key(a: Seq<char>, b: Seq<char>)
    requires
        forall|i: int| 0 <= i < a.len() ==> #[trigger] a[i] != '^',
        forall|i: int| 0 <= i < b.len() ==> #[trigger] b[i] != '^',
        a.len() == 0 || a.last() != '/',
    ensures
        shown_key(a) == a,
        shown_key(a + "^0"@ + b) == a + " | "@ + b,
        shown_key(a + "/^0"@ + b) == a + " | "@ + b,
{
    reveal_strlit("^0");
    reveal_strlit("/^0");
    reveal_strlit(" | ");
    lemma_no_mark(a, "^0"@, 0);
    lemma_no_mark(a, "/^0"@, 1);
    lemma_no_mark(b, "^0"@, 0);
    lemma_no_mark(b, "/^0"@, 1);
    let plain = a + "^0"@ + b;
    let slashed = a + "/^0"@ + b;
    let shown = a + " | "@ + b;
    assert forall|i: int| 0 <= i < plain.len() implies !occurs_at(
        plain,
        "/^0"@,
        #[trigger] in_front(i),
    ) by {
        if occurs_at(plain, "/^0"@, i) {
            let part = plain.subrange(i, i + 3);
            assert(part[0] == plain[i] && part[1] == plain[i + 1]);
            if i + 1 < a.len() {
                assert(plain[i + 1] == a[i + 1]);
            } else if i + 1 == a.len() {
                assert(plain[i] == a.last());
            } else if i + 1 > a.len() + 1 {
                assert(plain[i + 1] == b[i + 1 - a.len() - 2]);
            }
        }
    }
    law_nothing_replaced(plain, "/^0"@, " | "@);
    assert forall|i: int| 0 <= i < a.len() implies !occurs_at(
        plain,
        "^0"@,
        #[trigger] in_front(i),
    ) by {
        if occurs_at(plain, "^0"@, i) {
            assert(plain.subrange(i, i + 2)[0] == plain[i]);
            assert(plain[i] == a[i]);
        }
    }
    law_replaced(a, "^0"@, " | "@, b);
    assert forall|i: int| 0 <= i < a.len() implies !occurs_at(
        slashed,
        "/^0"@,
        #[trigger] in_front(i),
    ) by {
        if occurs_at(slashed, "/^0"@, i) {
            assert(slashed.subrange(i, i + 3)[1] == slashed[i + 1]);
            if i + 1 < a.len() {
                assert(slashed[i + 1] == a[i + 1]);
            }
        }
    }
    law_replaced(a, "/^0"@, " | "@, b);
    assert forall|i: int| 0 <= i < shown.len() implies #[trigger] shown[i] != '^' by {
        if i < a.len() {
            assert(shown[i] == a[i]);
        } else if i >= a.len() + 3 {
            assert(shown[i] == b[i - a.len() - 3]);
        }
    }
    lemma_no_mark(shown, "^0"@, 0);
}

proof fn lemma_no_mark(s: Seq<char>, mark: Seq<char>, k: int)
    requires
        0 <= k < mark.len(),
        mark[k] == '^',
        forall|i: int| 0 <= i < s.len() ==> #[trigger] s[i] != '^',
    ensures
        replaced(s, mark, " | "@) == s,
{
    assert forall|i: int| 0 <= i < s.len() implies !occurs_at(s, mark, #[trigger] in_front(i)) by {
        if occurs_at(s, mark, i) {
            assert(s.subrange(i, i + mark.len())[k] == s[i + k]);
        }
    }
    law_nothing_replaced(s, mark, " | "@);
}

/// A preview is on one line: line breaks are spaces, the other characters are kept
/// up to the limit, and dots say that there are more.
pub proof fn law_preview(text: Seq<char>, max: nat, i: int)
    requires
        0 <= i < text.len(),
        i < max,
    ensures
        ({
            let shown = preview(text, max);
            &&& text.len() <= max ==> shown.len() == text.len()
            &&& text.len() > max ==> shown.len() == max + 3 && shown.skip(max as int) == "..."@
            &&& text[i] == '\n' || text[i] == '\r' ==> shown[i] == ' '
            &&& text[i] != '\n' && text[i] != '\r' ==> shown[i] == text[i]
        }),
        preview(text, 0).len() == 0,
{
    reveal_strlit("\n");
    reveal_strlit("\r");
    reveal_strlit(" ");
    reveal_strlit("...");
    let a = replaced(text, "\n"@, " "@);
    lemma_replaced_chars(text, "\n"@, " "@, i);
    lemma_replaced_chars(a, "\r"@, " "@, i);
    let shown = preview(text, max);
    if text.len() > max {
        assert(shown.skip(max as int) =~= "..."@);
    }
}

// ---------------------------------------------------------------------------
// Encoded texts
// ---------------------------------------------------------------------------

/// Characters of encoded texts are counted wherever they stand.
pub proof fn law_blob_chars(a: Seq<char>, b: Seq<char>, c: char)
    ensures
        blob_chars(a + b) == blob_chars(a) + blob_chars(b),
        blob_chars(seq![c]) == if ('a' <= c && c <= 'z') || ('A' <= c && c <= 'Z') || ('0' <= c && c
            <= '9') || c == '+' || c == '/' || c == '=' || c == '-' || c == '_' {
            1nat
        } else {
            0nat
        },
    decreases b.len(),
{
    reveal_with_fuel(blob_chars, 2);
    assert(seq![c].drop_last() =~= Seq::empty());
    if b.len() == 0 {
        assert(a + b =~= a);
    } else {
        law_blob_chars(a, b.drop_last(), c);
        assert((a + b).drop_last() =~= a + b.drop_last());
        assert((a + b).last() == b.last());
    }
}

/// A text is encoded where it has 180 characters or more, and of a hundred of them
/// at least 88 are those of encoded texts.
pub proof fn law_blobs(s: Seq<char>)
    ensures
        s.len() < 180 ==> !is_blob(s),
        s.len() >= 180 && blob_chars(s) * 100 >= 88 * s.len() ==> is_blob(s),
        s.len() >= 180 && blob_chars(s) * 100 < 88 * s.len() ==> !is_blob(s),
{
    if s.len() >= 180 {
        let n = blob_chars(s) * 100;
        let d = s.len();
        if n >= 88 * d {
            assert(n / d >= 88) by (nonlinear_arith)
                requires
                    n >= 88 * d,
                    d > 0,
            ;
        } else {
            assert(n / d < 88) by (nonlinear_arith)
                requires
                    n < 88 * d,
                    d > 0,
            ;
        }
    }
}

/// What a text is shown as in JSON: a note where it is encoded, else itself.
pub open spec fn shown_leaf(value: JsonView) -> JsonView {
    match value {
        JsonView::Text(text) => if is_blob(text) {
            JsonView::Text("<encoded blob: "@ + decimal(text.len()) + " chars>"@)
        } else {
            value
        },
        _ => value,
    }
}

/// Encoded texts are replaced at whatever depth they stand, and nothing else is
/// changed: what was found along a path is found there afterwards, under the same
/// keys.
pub proof fn law_sanitized(value: JsonView, path: Seq<JsonStep>)
    ensures
        value_at(sanitized(value), path) is Some <==> value_at(value, path) is Some,
        value_at(value, path) is Some && !(value_at(value, path)->0 is Object) && !(value_at(
            value,
            path,
        )->0 is List) ==> value_at(sanitized(value), path) == Some(
            shown_leaf(value_at(value, path)->0),
        ),
        path.len() > 0 ==> key_at(sanitized(value), path, path.len() - 1) == key_at(
            value,
            path,
            path.len() - 1,
        ),
        value_at(value, path) matches Some(JsonView::Object(members)) ==> value_at(
            sanitized(value),
            path,
        )->0 is Object && value_at(sanitized(value), path)->0->Object_0.len() == members.len(),
        value_at(value, path) matches Some(JsonView::List(items)) ==> value_at(
            sanitized(value),
            path,
        )->0 is List && value_at(sanitized(value), path)->0->List_0.len() == items.len(),
    decreases path.len(),
{
    lemma_sanitized_at(value, path);
    if let Some(inner) = value_at(value, path) {
        lemma_sanitized_parts(inner);
    }
    if path.len() > 0 {
        let before = path.drop_last();
        assert(path.take(path.len() - 1) =~= before);
        lemma_sanitized_at(value, before);
        if let Some(inner) = value_at(value, before) {
            lemma_sanitized_parts(inner);
        }
    }
}

proof fn lemma_sanitized_parts(value: JsonView)
    ensures
        value matches JsonView::Object(members) ==> sanitized(value) is Object && sanitized(
            value,
        )->Object_0.len() == members.len() && forall|i: int|
            0 <= i < members.len() ==> #[trigger] sanitized(value)->Object_0[i] == (
                members[i].0,
                sanitized(members[i].1),
            ),
        value matches JsonView::List(items) ==> sanitized(value) is List && sanitized(
            value,
        )->List_0.len() == items.len() && forall|i: int|
            0 <= i < items.len() ==> #[trigger] sanitized(value)->List_0[i] == sanitized(items[i]),
{
    match value {
        JsonView::Object(members) => {
            lemma_members(members, members.len());
        },
        JsonView::List(items) => {
            lemma_items(items, items.len());
        },
        _ => {},
    }
}

proof fn lemma_members(members: Seq<(Seq<char>, JsonView)>, n: nat)
    requires
        n <= members.len(),
    ensures
        sanitized_members(members, n).len() == n,
        forall|i: int|
            0 <= i < n ==> #[trigger] sanitized_members(members, n)[i] == (
                members[i].0,
                sanitized(members[i].1),
            ),
    decreases n,
{
    if n > 0 {
        lemma_members(members, (n - 1) as nat);
    }
}

proof fn lemma_items(items: Seq<JsonView>, n: nat)
    requires
        n <= items.len(),
    ensures
        sanitized_items(items, n).len() == n,
        forall|i: int| 0 <= i < n ==> #[trigger] sanitized_items(items, n)[i] == sanitized(items[i]),
    decreases n,
{
    if n > 0 {
        lemma_items(items, (n - 1) as nat);
    }
}

proof fn lemma_sanitized_at(value: JsonView, path: Seq<JsonStep>)
    ensures
        value_at(sanitized(value), path) == match value_at(value, path) {
            Some(inner) => Some(sanitized(inner)),
            None => None,
        },
    decreases path.len(),
{
    if path.len() > 0 {
        let before = path.drop_last();
        lemma_sanitized_at(value, before);
        if let Some(inner) = value_at(value, before) {
            lemma_sanitized_parts(inner);
            match (inner, path.last()) {
                (JsonView::Object(members), JsonStep::Member(i)) => {
                    if 0 <= i < members.len() {
                        assert(sanitized(inner)->Object_0[i] == (
                            members[i].0,
                            sanitized(members[i].1),
                        ));
                    }
                },
                (JsonView::List(items), JsonStep::Item(i)) => {
                    if 0 <= i < items.len() {
                        assert(sanitized(inner)->List_0[i] == sanitized(items[i]));
                    }
                },
                _ => {},
            }
        }
    }
}

// ---------------------------------------------------------------------------
// Keys and values
// ---------------------------------------------------------------------------

/// A key is shown as its text; one that is two texts with the bytes 0 and 1 between
/// them as both; any other with its length and its first 64 bytes.
pub proof fn law_key_text(key: Seq<u8>, a: Seq<u8>, b: Seq<u8>)
    ensures
        clean_text(key) is Some ==> key_text(key) == shown_key(clean_text(key)->0),
        clean_text(key) is None && key == a + seq![0u8, 1u8] + b && clean_text(a) is Some
            && clean_text(b) is Some && (clean_text(a)->0.len() > 0 || clean_text(b)->0.len() > 0)
            ==> key_text(key) == shown_key(clean_text(a)->0) + " :: "@ + shown_key(
            clean_text(b)->0,
        ),
        clean_text(key) is None && first_at(key, seq![0u8, 1u8]) is None ==> key_text(key)
            == "binary key ["@ + decimal(key.len()) + " bytes] | ascii="@ + ascii_text(key, 64),
{
    let mark = seq![0u8, 1u8];
    if clean_text(key) is None && key == a + mark + b && clean_text(a) is Some && clean_text(
        b,
    ) is Some && (clean_text(a)->0.len() > 0 || clean_text(b)->0.len() > 0) {
        let at = a.len() as int;
        assert(key.subrange(at, at + 2) =~= mark);
        assert forall|j: int| 0 <= j < at implies !occurs_at(key, mark, j) by {
            if occurs_at(key, mark, j) {
                assert(key.subrange(j, j + 2)[0] == key[j]);
                assert(key[j] == a[j]);
                lemma_no_zero(a, j);
            }
        }
        assert(crate::text::is_first_at(key, mark, at));
        lemma_first_at(key, mark, at);
        assert(key.take(at) =~= a);
        assert(key.skip(at + 2) =~= b);
    }
}

/// Readable bytes hold no zero: that would be read as a hidden character.
proof fn lemma_no_zero(bytes: Seq<u8>, i: int)
    requires
        clean_text(bytes) is Some,
        0 <= i < bytes.len(),
    ensures
        bytes[i] != 0,
{
    let text = decode_utf8(bytes);
    vstd::utf8::decode_utf8_encode_utf8(bytes);
    if bytes[i] == 0 {
        lemma_zero_is_char(text, i);
    }
}

proof fn lemma_scalar_zero(c: char, i: int)
    requires
        0 <= i < vstd::utf8::encode_scalar(c as u32).len(),
        vstd::utf8::encode_scalar(c as u32)[i] == 0,
    ensures
        c as u32 == 0,
{
    let v = c as u32;
    assert(forall|x: u8| #[trigger] (0x80u8 | x) != 0) by (bit_vector);
    assert(forall|x: u8| #[trigger] (0xC0u8 | x) != 0) by (bit_vector);
    assert(forall|x: u8| #[trigger] (0xE0u8 | x) != 0) by (bit_vector);
    assert(forall|x: u8| #[trigger] (0xF0u8 | x) != 0) by (bit_vector);
    if v <= 0x7f {
        assert(v <= 0x7f ==> (v & 0x7f) == v) by (bit_vector);
    }
}

/// A zero in the bytes of a text is the character zero.
proof fn lemma_zero_is_char(text: Seq<char>, i: int)
    requires
        0 <= i < encode_utf8(text).len(),
        encode_utf8(text)[i] == 0,
    ensures
        !displayable(text),
    decreases text.len(),
{
    if text.len() > 0 {
        let first = vstd::utf8::encode_scalar(text[0] as u32);
        let rest = text.drop_first();
        assert(encode_utf8(text) =~= first + encode_utf8(rest));
        vstd::utf8::char_is_scalar(text[0]);
        if i < first.len() {
            lemma_scalar_zero(text[0], i);
            assert('\n' as u32 == 10 && '\r' as u32 == 13 && '\t' as u32 == 9);
            assert(crate::text::is_control(text[0]));
            assert(!(text[0] == '\n' || text[0] == '\r' || text[0] == '\t'));
        } else {
            lemma_zero_is_char(rest, i - first.len());
            let j = choose|j: int|
                0 <= j < rest.len() && !(#[trigger] rest[j] == '\n' || rest[j] == '\r' || rest[j]
                    == '\t' || !crate::text::is_control(rest[j]));
            assert(text[j + 1] == rest[j]);
        }
    }
}

/// A value is shown as its text, also where a byte 0, 1 or 8 stands before that;
/// one that is no text with its length and its first 96 bytes.
pub proof fn law_value_text(value: Seq<u8>, mark: u8, text: Seq<u8>)
    ensures
        value_text(Seq::empty()) == "<empty>"@,
        clean_text(text) is Some && !is_blob(clean_text(text)->0) && pretty(
            clean_text(text)->0,
        ) is None ==> value_text(text) == clean_text(text)->0,
        clean_text(text) is Some && is_blob(clean_text(text)->0) ==> value_text(text)
            == "encoded text blob ["@ + decimal(clean_text(text)->0.len()) + " chars]"@,
        clean_text(text) is Some && !is_blob(clean_text(text)->0) && pretty(
            clean_text(text)->0,
        ) is Some ==> value_text(text) == pretty(clean_text(text)->0)->0,
        (mark == 0 || mark == 1 || mark == 8) && clean_text(text) is Some && clean_text(
            seq![mark] + text,
        ) is None ==> value_text(seq![mark] + text) == value_text(text),
        value.len() > 0 && clean_text(value) is None && (value[0] != 0 && value[0] != 1 && value[0]
            != 8 || clean_text(value.skip(1)) is None) ==> value_text(value) == "binary value ["@
            + decimal(value.len()) + " bytes]; ascii preview: "@ + ascii_text(value, 96),
{
    let marked = seq![mark] + text;
    assert(marked.skip(1) =~= text);
    if clean_text(text) is Some {
        assert(text.len() > 0);
        assert(marked.len() > 1);
    }
}

// ---------------------------------------------------------------------------
// Records
// ---------------------------------------------------------------------------

proof fn lemma_in_parts<T>(a: Seq<T>, b: Seq<T>, x: T)
    ensures
        a.contains(x) || b.contains(x) ==> (a + b).contains(x),
        a.push(x).contains(x),
        forall|y: T| a.contains(x) ==> #[trigger] a.push(y).contains(x),
{
    if a.contains(x) {
        let i = choose|i: int| 0 <= i < a.len() && a[i] == x;
        assert((a + b)[i] == x);
        assert forall|y: T| #[trigger] a.push(y).contains(x) by {
            assert(a.push(y)[i] == x);
        }
    }
    if b.contains(x) {
        let i = choose|i: int| 0 <= i < b.len() && b[i] == x;
        assert((a + b)[a.len() + i] == x);
    }
    assert(a.push(x)[a.len() as int] == x);
}

/// The change that an operation of a batch is: it has the number of the batch plus
/// its place in it.
pub open spec fn change_of(start: nat, k: int, op: WalOperationView, source: Seq<char>) -> OpView {
    OpView {
        sequence: if start + k > 0xffff_ffff_ffff_ffff {
            0xffff_ffff_ffff_ffff
        } else {
            (start + k) as nat
        },
        key: op.key,
        value: match op.kind {
            WalOperationKind::Put => op.value,
            WalOperationKind::Delete => None,
        },
        source,
    }
}

proof fn lemma_batch_change(
    ops: Seq<WalOperationView>,
    start: nat,
    source: Seq<char>,
    n: nat,
    k: int,
)
    requires
        0 <= k < n <= ops.len(),
        ops[k].kind is Delete || ops[k].value is Some,
    ensures
        batch_ops(ops, start, source, n).contains(change_of(start, k, ops[k], source)),
    decreases n,
{
    let before = batch_ops(ops, start, source, (n - 1) as nat);
    let change = change_of(start, k, ops[k], source);
    lemma_in_parts(before, before, change);
    if k < n - 1 {
        lemma_batch_change(ops, start, source, (n - 1) as nat, k);
    }
}

proof fn lemma_wal_change(batches: Seq<WalBatchView>, source: Seq<char>, b: int, k: int)
    requires
        0 <= b < batches.len(),
        batches[b].sequence is Some,
        0 <= k < batches[b].operations.len(),
        batches[b].operations[k].kind is Delete || batches[b].operations[k].value is Some,
    ensures
        wal_ops(batches, source).contains(
            change_of(batches[b].sequence->0, k, batches[b].operations[k], source),
        ),
    decreases batches.len(),
{
    let change = change_of(batches[b].sequence->0, k, batches[b].operations[k], source);
    let before = wal_ops(batches.drop_last(), source);
    let last = batches.last();
    if b < batches.len() - 1 {
        lemma_wal_change(batches.drop_last(), source, b, k);
    } else {
        lemma_batch_change(last.operations, last.sequence->0, source, last.operations.len(), k);
    }
    if last.sequence is Some {
        lemma_in_parts(
            before,
            batch_ops(last.operations, last.sequence->0, source, last.operations.len()),
            change,
        );
    }
}

proof fn lemma_file_change(files: Seq<ParsedFileView>, f: int, change: OpView)
    requires
        0 <= f < files.len(),
        file_ops(files[f]).contains(change),
    ensures
        scan_ops(files).contains(change),
    decreases files.len(),
{
    if f < files.len() - 1 {
        lemma_file_change(files.drop_last(), f, change);
    }
    lemma_in_parts(scan_ops(files.drop_last()), file_ops(files.last()), change);
}

/// Every operation of every batch of every log counts, and every entry of every
/// table, under the name of its file; type 0 of an entry is a deletion.
pub proof fn law_changes_count(files: Seq<ParsedFileView>, f: int, b: int, k: int)
    requires
        0 <= f < files.len(),
        file_name(files[f].path).len() > 0,
    ensures
        files[f].content matches ContentView::Wal(wal) ==> 0 <= b < wal.batches.len()
            && wal.batches[b].sequence is Some && 0 <= k < wal.batches[b].operations.len() && (
        wal.batches[b].operations[k].kind is Delete || wal.batches[b].operations[k].value is Some)
            ==> scan_ops(files).contains(
            change_of(
                wal.batches[b].sequence->0,
                k,
                wal.batches[b].operations[k],
                file_name(files[f].path),
            ),
        ),
        files[f].content matches ContentView::Ldb(table) ==> 0 <= k < table.entries.len()
            ==> scan_ops(files).contains(
            (OpView {
                sequence: table.entries[k].sequence,
                key: table.entries[k].user_key,
                value: if table.entries[k].value_type == 0 {
                    None
                } else {
                    Some(table.entries[k].value)
                },
                source: file_name(files[f].path),
            }),
        ),
{
    let source = file_name(files[f].path);
    match files[f].content {
        ContentView::Wal(wal) => {
            if 0 <= b < wal.batches.len() && wal.batches[b].sequence is Some && 0 <= k
                < wal.batches[b].operations.len() && (wal.batches[b].operations[k].kind is Delete
                || wal.batches[b].operations[k].value is Some) {
                lemma_wal_change(wal.batches, source, b, k);
                lemma_file_change(
                    files,
                    f,
                    change_of(wal.batches[b].sequence->0, k, wal.batches[b].operations[k], source),
                );
            }
        },
        ContentView::Ldb(table) => {
            if 0 <= k < table.entries.len() {
                let change = entry_op(table.entries[k], source);
                assert(file_ops(files[f])[k] == change);
                lemma_file_change(files, f, change);
            }
        },
        _ => {},
    }
}

/// The change of a key that is in force has the greatest number of all its changes,
/// and of those with that number the greatest name of a source.
pub proof fn law_newest_counts(ops: Seq<OpView>, key: Seq<u8>, i: int)
    requires
        0 <= i < ops.len(),
        ops[i].key == key,
    ensures
        latest(ops).dom().contains(key),
        ops.contains(latest(ops)[key]),
        latest(ops)[key].key == key,
        latest(ops)[key].sequence >= ops[i].sequence,
        latest(ops)[key].sequence == ops[i].sequence ==> !text_before(
            latest(ops)[key].source,
            ops[i].source,
        ),
{
    law_latest(ops, key);
}

/// A key whose last change set a value is shown with that value, whole and up to
/// the limit, and with the number and the source of that change.
pub proof fn law_record_shown(ops: Seq<OpView>, preview_chars: nat, key: Seq<u8>)
    requires
        latest(ops).dom().contains(key),
        latest(ops)[key].value is Some,
    ensures
        readable_of(latest_in_order(ops), preview_chars).contains(
            (RecordView {
                key_raw: key,
                value_raw: latest(ops)[key].value->0,
                key_text: key_text(key),
                value_preview: preview(value_text(latest(ops)[key].value->0), preview_chars),
                value_full: value_text(latest(ops)[key].value->0),
                sequence: latest(ops)[key].sequence,
                source: latest(ops)[key].source,
            }),
        ),
{
    law_latest(ops, key);
    law_records_in_force(ops, preview_chars, key);
    let records = readable_of(latest_in_order(ops), preview_chars);
    let i = choose|i: int| 0 <= i < records.len() && (#[trigger] records[i]).key_raw == key;
    lemma_of_op(latest_in_order(ops), preview_chars, i);
    let j = choose|j: int|
        0 <= j < latest_in_order(ops).len() && records[i] == readable_record(
            #[trigger] latest_in_order(ops)[j],
            preview_chars,
        );
    let own = crate::order::in_order::<Vec<u8>>(latest(ops).dom())[j];
    assert(latest_in_order(ops)[j] == latest(ops)[own]);
    lemma_latest_finite(ops);
    crate::order::lemma_in_order_exists::<Vec<u8>>(latest(ops).dom());
    assert(latest(ops).dom().contains(own)) by {
        let keys = crate::order::in_order::<Vec<u8>>(latest(ops).dom());
        assert(keys.to_set().contains(keys[j]));
    }
    law_latest(ops, own);
    assert(own == key);
}

proof fn lemma_latest_finite(ops: Seq<OpView>)
    ensures
        latest(ops).dom().finite(),
    decreases ops.len(),
{
    if ops.len() > 0 {
        lemma_latest_finite(ops.drop_last());
    }
}

proof fn lemma_of_op(ops: Seq<OpView>, preview_chars: nat, i: int)
    requires
        0 <= i < readable_of(ops, preview_chars).len(),
    ensures
        exists|j: int|
            0 <= j < ops.len() && readable_of(ops, preview_chars)[i] == readable_record(
                #[trigger] ops[j],
                preview_chars,
            ),
    decreases ops.len(),
{
    let before = readable_of(ops.drop_last(), preview_chars);
    if i < before.len() {
        lemma_of_op(ops.drop_last(), preview_chars, i);
        let j = choose|j: int|
            0 <= j < ops.drop_last().len() && before[i] == readable_record(
                #[trigger] ops.drop_last()[j],
                preview_chars,
            );
        assert(ops.drop_last()[j] == ops[j]);
    } else {
        assert(ops[ops.len() - 1] == ops.last());
    }
}

// ---------------------------------------------------------------------------
// Listings
// ---------------------------------------------------------------------------

proof fn lemma_file_listed(files: Seq<ParsedFileView>, f: int, line: Seq<char>)
    requires
        0 <= f < files.len(),
        file_lines(files[f]).contains(line),
    ensures
        files_lines(files).contains(line),
    decreases files.len(),
{
    if f < files.len() - 1 {
        lemma_file_listed(files.drop_last(), f, line);
    }
    lemma_in_parts(files_lines(files.drop_last()), file_lines(files.last()), line);
}

proof fn lemma_operation_lines(
    prefix: Seq<char>,
    start: nat,
    ops: Seq<WalOperationView>,
    n: nat,
    k: int,
)
    requires
        0 <= k < n <= ops.len(),
    ensures
        operation_lines(prefix, start, ops, n).contains(
            operation_line(prefix, crate::readable_records::sequence_plus(start, k), ops[k]),
        ),
    decreases n,
{
    let before = operation_lines(prefix, start, ops, (n - 1) as nat);
    let line = operation_line(prefix, crate::readable_records::sequence_plus(start, k), ops[k]);
    if k < n - 1 {
        lemma_operation_lines(prefix, start, ops, (n - 1) as nat, k);
    }
    lemma_in_parts(before, before, line);
}

proof fn lemma_batches_lines(batches: Seq<WalBatchView>, n: nat, b: int, line: Seq<char>)
    requires
        0 <= b < n <= batches.len(),
        batch_lines(batches[b], (b + 1) as nat).contains(line),
    ensures
        batches_lines(batches, n).contains(line),
    decreases n,
{
    if b < n - 1 {
        lemma_batches_lines(batches, (n - 1) as nat, b, line);
    }
    lemma_in_parts(
        batches_lines(batches, (n - 1) as nat),
        batch_lines(batches[n - 1], n),
        line,
    );
}

proof fn lemma_entry_lines(entries: Seq<LdbEntryView>, n: nat, k: int)
    requires
        0 <= k < n <= entries.len(),
    ensures
        entry_lines(entries, n).contains(entry_line(entries[k], (k + 1) as nat)),
    decreases n,
{
    let before = entry_lines(entries, (n - 1) as nat);
    if k < n - 1 {
        lemma_entry_lines(entries, (n - 1) as nat, k);
    }
    lemma_in_parts(before, before, entry_line(entries[k], (k + 1) as nat));
}

/// What a line says of a batch before it says what was done.
pub open spec fn batch_told(b: WalBatchView, number: nat) -> Seq<char> {
    "batch="@ + decimal(number) + " offset="@ + decimal(b.offset as nat) + " fragments="@ + decimal(
        b.fragments as nat,
    ) + " checksum="@ + if b.checksum_ok {
        "ok"@
    } else {
        "bad"@
    }
}

/// Every operation of every batch is listed with the number of its batch, what was
/// done, to which key and with which value; of a batch that could not be read is
/// listed why.
pub proof fn law_operations_listed(scan: ScanResultView, f: int, b: int, k: int)
    requires
        0 <= f < scan.files.len(),
        scan.files[f].content is Wal,
        0 <= b < scan.files[f].content->Wal_0.batches.len(),
    ensures
        ({
            let batch = scan.files[f].content->Wal_0.batches[b];
            let told = batch_told(batch, (b + 1) as nat);
            let all = scan_lines(scan);
            &&& batch.parse_error is Some ==> all.contains(
                told + " | parse_error="@ + batch.parse_error->0,
            )
            &&& batch.parse_error is None && batch.sequence is Some && 0 <= k
                < batch.operations.len() && batch.sequence->0 + k <= u64::MAX ==> {
                let op = batch.operations[k];
                let number = decimal((batch.sequence->0 + k) as nat);
                &&& op.kind is Put && op.value is Some ==> all.contains(
                    told + " | seq="@ + number + " | PUT | key="@ + one_line(key_text(op.key))
                        + " | value="@ + one_line(value_text(op.value->0)),
                )
                &&& op.kind is Delete ==> all.contains(
                    told + " | seq="@ + number + " | DELETE | key="@ + one_line(key_text(op.key)),
                )
            }
        }),
{
    let wal = scan.files[f].content->Wal_0;
    let batch = wal.batches[b];
    let number = (b + 1) as nat;
    let told = batch_told(batch, number);
    assert(batch_prefix(batch, number) == told);
    let lines = batch_lines(batch, number);
    if batch.parse_error is Some {
        let line = told + " | parse_error="@ + batch.parse_error->0;
        assert(lines[0] == line);
        lemma_wal_listed(scan, f, b, line);
    } else if batch.sequence is Some && 0 <= k < batch.operations.len() && batch.sequence->0 + k
        <= u64::MAX {
        let op = batch.operations[k];
        lemma_operation_lines(
            told,
            batch.sequence->0,
            batch.operations,
            batch.operations.len(),
            k,
        );
        let line = operation_line(told, (batch.sequence->0 + k) as nat, op);
        lemma_wal_listed(scan, f, b, line);
    }
}

proof fn lemma_wal_listed(scan: ScanResultView, f: int, b: int, line: Seq<char>)
    requires
        0 <= f < scan.files.len(),
        scan.files[f].content is Wal,
        0 <= b < scan.files[f].content->Wal_0.batches.len(),
        batch_lines(scan.files[f].content->Wal_0.batches[b], (b + 1) as nat).contains(line),
    ensures
        scan_lines(scan).contains(line),
{
    let wal = scan.files[f].content->Wal_0;
    lemma_batches_lines(wal.batches, wal.batches.len(), b, line);
    let body = batches_lines(wal.batches, wal.batches.len());
    lemma_in_parts(prefixed("warning | "@, wal.warnings), body, line);
    lemma_body_listed(scan, f, prefixed("warning | "@, wal.warnings) + body, line);
}

proof fn lemma_body_listed(scan: ScanResultView, f: int, body: Seq<Seq<char>>, line: Seq<char>)
    requires
        0 <= f < scan.files.len(),
        file_lines(scan.files[f]) == seq![
            crate::readable_records::file_heading(
                scan.files[f].path,
                crate::viewer::kind_name(scan.files[f].content),
            ),
        ] + body + seq![Seq::<char>::empty()],
    ensures
        body.contains(line) ==> scan_lines(scan).contains(line),
{
    if body.contains(line) {
        let heading = seq![
            crate::readable_records::file_heading(
                scan.files[f].path,
                crate::viewer::kind_name(scan.files[f].content),
            ),
        ];
        lemma_in_parts(heading, body, line);
        lemma_in_parts(heading + body, seq![Seq::<char>::empty()], line);
        lemma_file_listed(scan.files, f, line);
        lemma_in_parts(
            seq!["scan_target: "@ + scan.target] + prefixed("scan_warning: "@, scan.warnings)
                + seq![Seq::<char>::empty()],
            files_lines(scan.files),
            line,
        );
    }
}

/// Every entry of every table is listed with its number, what was done, to which key
/// and with which value.
pub proof fn law_entries_listed(scan: ScanResultView, f: int, k: int)
    requires
        0 <= f < scan.files.len(),
        scan.files[f].content is Ldb,
        0 <= k < scan.files[f].content->Ldb_0.entries.len(),
    ensures
        ({
            let e = scan.files[f].content->Ldb_0.entries[k];
            let start = "entry="@ + decimal((k + 1) as nat) + " | seq="@ + decimal(e.sequence);
            &&& e.value_type == 0 ==> scan_lines(scan).contains(
                start + " | DELETE | key="@ + one_line(key_text(e.user_key)),
            )
            &&& e.value_type != 0 ==> scan_lines(scan).contains(
                start + " | PUT | key="@ + one_line(key_text(e.user_key)) + " | value="@ + one_line(
                    value_text(e.value),
                ),
            )
        }),
{
    let table = scan.files[f].content->Ldb_0;
    let e = table.entries[k];
    let line = entry_line(e, (k + 1) as nat);
    lemma_entry_lines(table.entries, table.entries.len(), k);
    let body = entry_lines(table.entries, table.entries.len());
    lemma_in_parts(prefixed("warning | "@, table.warnings), body, line);
    lemma_body_listed(scan, f, prefixed("warning | "@, table.warnings) + body, line);
    let start = "entry="@ + decimal((k + 1) as nat) + " | seq="@ + decimal(e.sequence);
    assert("entry="@ + decimal((k + 1) as nat) + " | seq="@ + decimal(e.sequence)
        + " | DELETE | key="@ =~= start + " | DELETE | key="@);
}

/// A listing begins with what was scanned; each line ends in a line feed, and lines
/// follow on each other.
pub proof fn law_listing(scan: ScanResultView, a: Seq<Seq<char>>, b: Seq<Seq<char>>, line: Seq<char>)
    ensures
        scan_lines(scan)[0] == "scan_target: "@ + scan.target,
        crate::readable_records::ended_lines(a + b) == crate::readable_records::ended_lines(a)
            + crate::readable_records::ended_lines(b),
        crate::readable_records::ended_lines(seq![line]) == line.push('\n'),
    decreases b.len(),
{
    reveal_with_fuel(crate::readable_records::ended_lines, 2);
    assert(seq![line].drop_last() =~= Seq::empty());
    assert(Seq::<char>::empty() + line =~= line);
    if b.len() == 0 {
        assert(a + b =~= a);
        assert(crate::readable_records::ended_lines(a) + Seq::<char>::empty()
            =~= crate::readable_records::ended_lines(a));
    } else {
        law_listing(scan, a, b.drop_last(), line);
        assert((a + b).drop_last() =~= a + b.drop_last());
        assert((a + b).last() == b.last());
        let x = crate::readable_records::ended_lines(a);
        let y = crate::readable_records::ended_lines(b.drop_last());
        assert((x + y + b.last()).push('\n') =~= x + (y + b.last()).push('\n'));
    }
}

/// A line of a text log is listed behind its number, for which there is room of six
/// characters.
pub proof fn law_log_lines_listed(scan: ScanResultView, f: int, k: int)
    requires
        0 <= f < scan.files.len(),
        scan.files[f].content is TextLog,
        0 <= k < scan.files[f].content->TextLog_0.len(),
    ensures
        scan_lines(scan).contains(
            padded(decimal((k + 1) as nat)) + " | "@ + scan.files[f].content->TextLog_0[k],
        ),
        forall|s: Seq<char>|
            s.len() < 6 ==> #[trigger] padded(s) == Seq::new((6 - s.len()) as nat, |i: int| ' ')
                + s,
        forall|s: Seq<char>| s.len() >= 6 ==> #[trigger] padded(s) == s,
{
    let lines = scan.files[f].content->TextLog_0;
    lemma_log_lines(lines, lines.len(), k);
    lemma_body_listed(
        scan,
        f,
        log_lines(lines, lines.len()),
        padded(decimal((k + 1) as nat)) + " | "@ + lines[k],
    );
    assert forall|s: Seq<char>| s.len() < 6 implies #[trigger] padded(s) == Seq::new(
        (6 - s.len()) as nat,
        |i: int| ' ',
    ) + s by {
        lemma_padded(s);
    }
}

proof fn lemma_padded(s: Seq<char>)
    requires
        s.len() < 6,
    ensures
        padded(s) == Seq::new((6 - s.len()) as nat, |i: int| ' ') + s,
    decreases 6 - s.len(),
{
    let longer = seq![' '] + s;
    if s.len() < 5 {
        lemma_padded(longer);
    }
    assert(padded(s) == padded(longer));
    assert(padded(s) =~= Seq::new((6 - s.len()) as nat, |i: int| ' ') + s);
}

proof fn lemma_log_lines(lines: Seq<Seq<char>>, n: nat, k: int)
    requires
        0 <= k < n <= lines.len(),
    ensures
        log_lines(lines, n).contains(padded(decimal((k + 1) as nat)) + " | "@ + lines[k]),
    decreases n,
{
    let before = log_lines(lines, (n - 1) as nat);
    if k < n - 1 {
        lemma_log_lines(lines, (n - 1) as nat, k);
    }
    lemma_in_parts(before, before, padded(decimal((k + 1) as nat)) + " | "@ + lines[k]);
}

} // verus!
