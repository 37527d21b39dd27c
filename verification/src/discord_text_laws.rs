//! What the reading of Discord's names, ids, tokens and texts promises.

use vstd::prelude::*;
use vstd::utf8::{encode_utf8, encode_utf8_decode_utf8, encode_utf8_valid_utf8};

use crate::alts_laws::only;
use crate::discord_text::{
    base64_encoded, bracket_step, brackets, discord_id, discord_name, is_snowflake, json_fragments,
    law_base64_roundtrip, sextet, sized, token_user_id, unescaped, Base64Alphabet,
};
use crate::text::{
    all_digits, contains, digits_value, is_alphanumeric, is_digit, is_space, law_trim, occurs_at,
    replaced, starts_with, unquoted, CharClass,
};
use crate::text_bytes::byte_len;

verus! {

// ---------------------------------------------------------------------------
// Names and ids
// ---------------------------------------------------------------------------

proof fn lemma_quotes_fall(
    inner: Seq<char>,
    spaces: (Seq<char>, Seq<char>),
    doubles: (Seq<char>, Seq<char>),
    singles: (Seq<char>, Seq<char>),
)
    requires
        forall|i: int| 0 <= i < spaces.0.len() ==> is_space(#[trigger] spaces.0[i]),
        forall|i: int| 0 <= i < spaces.1.len() ==> is_space(#[trigger] spaces.1[i]),
        only(doubles.0, '"') && only(doubles.1, '"'),
        only(singles.0, '\'') && only(singles.1, '\''),
        inner.len() > 0,
        !is_space(inner[0]) && inner[0] != '"' && inner[0] != '\'',
        !is_space(inner.last()) && inner.last() != '"' && inner.last() != '\'',
    ensures
        unquoted(
            spaces.0 + (doubles.0 + (singles.0 + inner + singles.1) + doubles.1) + spaces.1,
        ) == inner,
{
    let b = singles.0 + inner + singles.1;
    let c = doubles.0 + b + doubles.1;
    if singles.0.len() > 0 {
        assert(singles.0[0] == '\'');
        assert(b[0] == singles.0[0]);
    } else {
        assert(b[0] == inner[0]);
    }
    if singles.1.len() > 0 {
        assert(singles.1[singles.1.len() - 1] == '\'');
        assert(b.last() == singles.1[singles.1.len() - 1]);
    } else {
        assert(b.last() == inner.last());
    }
    if doubles.0.len() > 0 {
        assert(doubles.0[0] == '"');
        assert(c[0] == doubles.0[0]);
    } else {
        assert(c[0] == b[0]);
    }
    if doubles.1.len() > 0 {
        assert(doubles.1[doubles.1.len() - 1] == '"');
        assert(c.last() == doubles.1[doubles.1.len() - 1]);
    } else {
        assert(c.last() == b.last());
    }
    law_trim(singles.0, inner, singles.1, CharClass::Only('\''));
    law_trim(doubles.0, b, doubles.1, CharClass::Only('"'));
    law_trim(spaces.0, c, spaces.1, CharClass::Space);
}

/// A name of 2 to 64 letters, digits, underscores, dots and hyphens is taken from
/// between white space and quotes; what is shorter, longer or has any other
/// character is no name.
pub proof fn law_discord_names(
    name: Seq<char>,
    spaces: (Seq<char>, Seq<char>),
    doubles: (Seq<char>, Seq<char>),
    singles: (Seq<char>, Seq<char>),
)
    requires
        forall|i: int| 0 <= i < spaces.0.len() ==> is_space(#[trigger] spaces.0[i]),
        forall|i: int| 0 <= i < spaces.1.len() ==> is_space(#[trigger] spaces.1[i]),
        only(doubles.0, '"') && only(doubles.1, '"'),
        only(singles.0, '\'') && only(singles.1, '\''),
        name.len() > 0,
        !is_space(name[0]) && name[0] != '"' && name[0] != '\'',
        !is_space(name.last()) && name.last() != '"' && name.last() != '\'',
    ensures
        ({
            let value = spaces.0 + (doubles.0 + (singles.0 + name + singles.1) + doubles.1)
                + spaces.1;
            let accepted = 2 <= name.len() <= 64 && forall|i: int|
                0 <= i < name.len() ==> is_alphanumeric(#[trigger] name[i]) || name[i] == '_'
                    || name[i] == '.' || name[i] == '-';
            &&& accepted ==> discord_name(value) == Some(name)
            &&& !accepted ==> discord_name(value) is None
        }),
{
    lemma_quotes_fall(name, spaces, doubles, singles);
    if forall|i: int|
        0 <= i < name.len() ==> is_alphanumeric(#[trigger] name[i]) || name[i] == '_' || name[i]
            == '.' || name[i] == '-' {
        assert forall|i: int| 0 <= i < name.len() implies crate::discord_text::is_name_char(
            #[trigger] name[i],
        ) by {}
    } else {
        let i = choose|i: int|
            0 <= i < name.len() && !(is_alphanumeric(#[trigger] name[i]) || name[i] == '_'
                || name[i] == '.' || name[i] == '-');
        assert(!crate::discord_text::is_name_char(name[i]));
    }
}

/// An id holds, above its lowest 22 bits, the milliseconds from the start of 2015 to
/// when it was made. It is accepted where that is not more than 1577000 seconds
/// ahead of the clock.
pub proof fn law_snowflakes(age_ms: nat, low: nat, now_ms: int)
    requires
        low < 0x40_0000,
        now_ms + 1_577_000_000 <= i64::MAX,
    ensures
        is_snowflake(age_ms * 0x40_0000 + low, now_ms) <==> age_ms + 1_420_070_400_000 <= now_ms
            + 1_577_000_000,
{
    assert((age_ms * 0x40_0000 + low) / 0x40_0000 == age_ms) by (nonlinear_arith)
        requires
            low < 0x40_0000,
    ;
}

/// An id is accepted, from between white space and quotes, where it is 17 to 20
/// digits that write a number of 64 bits that is not from the future.
pub proof fn law_discord_ids(
    id: Seq<char>,
    now_ms: int,
    spaces: (Seq<char>, Seq<char>),
    doubles: (Seq<char>, Seq<char>),
    singles: (Seq<char>, Seq<char>),
)
    requires
        forall|i: int| 0 <= i < spaces.0.len() ==> is_space(#[trigger] spaces.0[i]),
        forall|i: int| 0 <= i < spaces.1.len() ==> is_space(#[trigger] spaces.1[i]),
        only(doubles.0, '"') && only(doubles.1, '"'),
        only(singles.0, '\'') && only(singles.1, '\''),
        id.len() > 0,
        !is_space(id[0]) && id[0] != '"' && id[0] != '\'',
        !is_space(id.last()) && id.last() != '"' && id.last() != '\'',
        now_ms + 1_577_000_000 <= i64::MAX,
    ensures
        ({
            let value = spaces.0 + (doubles.0 + (singles.0 + id + singles.1) + doubles.1)
                + spaces.1;
            let accepted = 17 <= id.len() <= 20 && all_digits(id) && digits_value(id)
                <= 0xffff_ffff_ffff_ffff && digits_value(id) / 0x40_0000 + 1_420_070_400_000
                <= now_ms + 1_577_000_000;
            &&& accepted ==> discord_id(value, now_ms) == Some(id)
            &&& !accepted ==> discord_id(value, now_ms) is None
        }),
{
    lemma_quotes_fall(id, spaces, doubles, singles);
}

/// The first part of a token is the id of its owner in base64, of either alphabet:
/// that id is read from it.
pub proof fn law_token_of_owner(id: Seq<char>, now_ms: int, alphabet: Base64Alphabet, padded: bool)
    requires
        id.len() > 0,
        all_digits(id),
        discord_id(id, now_ms) == Some(id),
    ensures
        token_user_id(base64_encoded(encode_utf8(id), alphabet, padded), now_ms) == Some(id),
{
    encode_utf8_valid_utf8(id);
    encode_utf8_decode_utf8(id);
    assert(encode_utf8(id).len() > 0) by {
        vstd::utf8::char_is_scalar(id[0]);
    }
    law_base64_roundtrip(encode_utf8(id), alphabet, padded);
    assert(is_digit(id[0]) && is_digit(id[id.len() - 1]));
    law_trim(Seq::empty(), id, Seq::empty(), CharClass::Space);
    assert(Seq::<char>::empty() + id + Seq::<char>::empty() =~= id);
}

/// The characters of both alphabets of base64, each at the place of the number that
/// it stands for.
pub proof fn law_base64_alphabets(i: int)
    requires
        0 <= i < 64,
    ensures
        sextet("ABCDEFGHIJKLMNOPQRSTUVWXYZabcdefghijklmnopqrstuvwxyz0123456789+/"@[i]) == Some(
            i as nat,
        ),
        sextet("ABCDEFGHIJKLMNOPQRSTUVWXYZabcdefghijklmnopqrstuvwxyz0123456789-_"@[i]) == Some(
            i as nat,
        ),
{
    reveal_strlit("ABCDEFGHIJKLMNOPQRSTUVWXYZabcdefghijklmnopqrstuvwxyz0123456789+/");
    reveal_strlit("ABCDEFGHIJKLMNOPQRSTUVWXYZabcdefghijklmnopqrstuvwxyz0123456789-_");
}

// ---------------------------------------------------------------------------
// Bracketed parts
// ---------------------------------------------------------------------------

/// What stands between quotes: a character that is neither a quote nor a backslash,
/// or a backslash and any character.
pub enum InQuotes {
    Plain(char),
    Escaped(char),
}

/// A text whose brackets fit: a character that is no bracket and no quote, a text in
/// quotes, or a group in curly or square brackets.
pub enum Nested {
    Plain(char),
    Quoted(Seq<InQuotes>),
    Group { curly: bool, inside: Seq<Nested> },
}

pub open spec fn in_quotes_text(items: Seq<InQuotes>) -> Seq<char>
    decreases items.len(),
{
    if items.len() == 0 {
        Seq::empty()
    } else {
        in_quotes_text(items.drop_last()) + match items.last() {
            InQuotes::Plain(c) => seq![c],
            InQuotes::Escaped(c) => seq!['\\', c],
        }
    }
}

pub open spec fn is_plain_in_quotes(items: Seq<InQuotes>) -> bool {
    forall|i: int|
        0 <= i < items.len() ==> (#[trigger] items[i] matches InQuotes::Plain(c) ==> c != '"' && c
            != '\\')
}

pub open spec fn opening(curly: bool) -> char {
    if curly {
        '{'
    } else {
        '['
    }
}

pub open spec fn closing(curly: bool) -> char {
    if curly {
        '}'
    } else {
        ']'
    }
}

pub open spec fn nested_text(n: Nested) -> Seq<char>
    decreases n, 0int,
{
    match n {
        Nested::Plain(c) => seq![c],
        Nested::Quoted(items) => seq!['"'] + in_quotes_text(items) + seq!['"'],
        Nested::Group { curly, inside } => seq![opening(curly)] + nested_texts(inside, inside.len())
            + seq![closing(curly)],
    }
}

pub open spec fn nested_texts(ns: Seq<Nested>, k: nat) -> Seq<char>
    decreases ns, k,
{
    if k == 0 || k > ns.len() {
        Seq::empty()
    } else {
        nested_texts(ns, (k - 1) as nat) + nested_text(ns[k - 1])
    }
}

/// The plain characters are none that count.
pub open spec fn is_well_formed(n: Nested) -> bool
    decreases n, 0int,
{
    match n {
        Nested::Plain(c) => c != '"' && c != '{' && c != '[' && c != '}' && c != ']',
        Nested::Quoted(items) => is_plain_in_quotes(items),
        Nested::Group { curly, inside } => are_well_formed(inside, inside.len()),
    }
}

pub open spec fn are_well_formed(ns: Seq<Nested>, k: nat) -> bool
    decreases ns, k,
{
    if k == 0 || k > ns.len() {
        true
    } else {
        are_well_formed(ns, (k - 1) as nat) && is_well_formed(ns[k - 1])
    }
}

proof fn lemma_step(a: Seq<char>, c: char)
    ensures
        brackets(a.push(c)) == bracket_step(brackets(a), c, a.len() as int),
{
    assert(a.push(c).drop_last() =~= a);
}

proof fn lemma_in_quotes(a: Seq<char>, items: Seq<InQuotes>)
    requires
        brackets(a).in_string && !brackets(a).escaped,
        is_plain_in_quotes(items),
    ensures
        brackets(a + in_quotes_text(items)) == brackets(a),
    decreases items.len(),
{
    if items.len() == 0 {
        assert(a + in_quotes_text(items) =~= a);
    } else {
        let before = items.drop_last();
        assert forall|i: int| 0 <= i < before.len() implies (#[trigger] before[i] matches
            InQuotes::Plain(c) ==> c != '"' && c != '\\') by {
            assert(before[i] == items[i]);
        }
        lemma_in_quotes(a, before);
        let left = a + in_quotes_text(before);
        assert(items[items.len() - 1] == items.last());
        match items.last() {
            InQuotes::Plain(c) => {
                assert(a + in_quotes_text(items) =~= left.push(c));
                lemma_step(left, c);
            },
            InQuotes::Escaped(c) => {
                assert(a + in_quotes_text(items) =~= left.push('\\').push(c));
                lemma_step(left, '\\');
                lemma_step(left.push('\\'), c);
            },
        }
    }
}

/// Inside open brackets a text whose own brackets fit changes nothing.
proof fn lemma_nested(a: Seq<char>, n: Nested)
    requires
        !brackets(a).in_string && !brackets(a).escaped,
        brackets(a).open.len() > 0,
        is_well_formed(n),
    ensures
        brackets(a + nested_text(n)) == brackets(a),
    decreases n, 0int,
{
    let b = brackets(a);
    match n {
        Nested::Plain(c) => {
            assert(a + nested_text(n) =~= a.push(c));
            lemma_step(a, c);
        },
        Nested::Quoted(items) => {
            let q = a.push('"');
            lemma_step(a, '"');
            lemma_in_quotes(q, items);
            let r = q + in_quotes_text(items);
            lemma_step(r, '"');
            assert(a + nested_text(n) =~= r.push('"'));
        },
        Nested::Group { curly, inside } => {
            let q = a.push(opening(curly));
            lemma_step(a, opening(curly));
            assert(brackets(q).open.last() == opening(curly));
            lemma_nested_all(q, inside, inside.len());
            let r = q + nested_texts(inside, inside.len());
            lemma_step(r, closing(curly));
            assert(brackets(q).open.drop_last() =~= b.open);
            assert(a + nested_text(n) =~= r.push(closing(curly)));
        },
    }
}

proof fn lemma_nested_all(a: Seq<char>, ns: Seq<Nested>, k: nat)
    requires
        !brackets(a).in_string && !brackets(a).escaped,
        brackets(a).open.len() > 0,
        k <= ns.len(),
        are_well_formed(ns, k),
    ensures
        brackets(a + nested_texts(ns, k)) == brackets(a),
    decreases ns, k,
{
    if k == 0 {
        assert(a + nested_texts(ns, k) =~= a);
    } else {
        lemma_nested_all(a, ns, (k - 1) as nat);
        let left = a + nested_texts(ns, (k - 1) as nat);
        lemma_nested(left, ns[k - 1]);
        assert(a + nested_texts(ns, k) =~= left + nested_text(ns[k - 1]));
    }
}

proof fn lemma_found_grows(a: Seq<char>, rest: Seq<char>)
    ensures
        brackets(a).found.len() <= brackets(a + rest).found.len(),
        brackets(a + rest).found.take(brackets(a).found.len() as int) == brackets(a).found,
    decreases rest.len(),
{
    let n = brackets(a).found.len() as int;
    if rest.len() == 0 {
        assert(a + rest =~= a);
        assert(brackets(a).found.take(n) =~= brackets(a).found);
    } else {
        lemma_found_grows(a, rest.drop_last());
        assert(a + rest =~= (a + rest.drop_last()).push(rest.last()));
        lemma_step(a + rest.drop_last(), rest.last());
        let before = brackets(a + rest.drop_last()).found;
        assert(brackets(a + rest).found.take(n) =~= before.take(n));
    }
}

/// A group whose brackets fit, however deep, with texts in quotes and escapes in
/// them, is found whole where nothing is open before it, whatever stands behind.
pub proof fn law_group_found(
    before: Seq<char>,
    curly: bool,
    inside: Seq<Nested>,
    after: Seq<char>,
    max_fragments: nat,
    max_len: nat,
)
    requires
        are_well_formed(inside, inside.len()),
        forall|i: int|
            0 <= i < before.len() ==> #[trigger] before[i] != '"' && before[i] != '{' && before[i]
                != '[',
        8 <= byte_len(nested_text(Nested::Group { curly, inside })) <= max_len,
    ensures
        json_fragments(
            before + nested_text(Nested::Group { curly, inside }) + after,
            max_fragments,
            max_len,
        ).len() > 0,
        json_fragments(
            before + nested_text(Nested::Group { curly, inside }) + after,
            max_fragments,
            max_len,
        )[0] == nested_text(Nested::Group { curly, inside }),
{
    let part = nested_text(Nested::Group { curly, inside });
    let s = before + part + after;
    lemma_nothing_open(before);
    let q = before.push(opening(curly));
    lemma_step(before, opening(curly));
    assert(brackets(q).open =~= seq![opening(curly)]);
    lemma_nested_all(q, inside, inside.len());
    let r = q + nested_texts(inside, inside.len());
    lemma_step(r, closing(curly));
    assert(before + part =~= r.push(closing(curly)));
    let end = (before + part).len() as int;
    assert(brackets(before + part).found =~= seq![(before.len() as int, end)]);
    lemma_found_grows(before + part, after);
    assert(s =~= (before + part) + after);
    let found = brackets(s).found;
    assert(found.take(1)[0] == (before.len() as int, end));
    assert(found[0] == (before.len() as int, end));
    assert(s.subrange(before.len() as int, end) =~= part);
    lemma_first_sized(s, found, max_len);
}

proof fn lemma_nothing_open(before: Seq<char>)
    requires
        forall|i: int|
            0 <= i < before.len() ==> #[trigger] before[i] != '"' && before[i] != '{' && before[i]
                != '[',
    ensures
        !brackets(before).in_string,
        !brackets(before).escaped,
        brackets(before).open.len() == 0,
        brackets(before).found.len() == 0,
    decreases before.len(),
{
    if before.len() > 0 {
        let shorter = before.drop_last();
        assert forall|i: int| 0 <= i < shorter.len() implies #[trigger] shorter[i] != '"'
            && shorter[i] != '{' && shorter[i] != '[' by {
            assert(shorter[i] == before[i]);
        }
        lemma_nothing_open(shorter);
        assert(before[before.len() - 1] != '"');
    }
}

proof fn lemma_first_sized(s: Seq<char>, found: Seq<(int, int)>, max_len: nat)
    requires
        found.len() > 0,
        8 <= byte_len(s.subrange(found[0].0, found[0].1)) <= max_len,
    ensures
        sized(s, found, max_len).len() > 0,
        sized(s, found, max_len)[0] == s.subrange(found[0].0, found[0].1),
    decreases found.len(),
{
    if found.len() > 1 {
        assert(found.drop_last()[0] == found[0]);
        lemma_first_sized(s, found.drop_last(), max_len);
    } else {
        assert(found.last() == found[0]);
        assert(sized(s, found.drop_last(), max_len).len() == 0);
    }
}

// ---------------------------------------------------------------------------
// Escapes
// ---------------------------------------------------------------------------

/// A piece of a text in which the escapes of JSON strings stand: a character that is
/// no backslash, an escape, or a quote that was escaped twice.
pub enum Escape {
    Plain(char),
    Escaped(char),
    TwiceEscapedQuote,
}

pub open spec fn escape_text(e: Escape) -> Seq<char> {
    match e {
        Escape::Plain(c) => seq![c],
        Escape::Escaped(c) => seq!['\\', c],
        Escape::TwiceEscapedQuote => seq!['\\', '\\', '"'],
    }
}

pub open spec fn escaped_text(es: Seq<Escape>) -> Seq<char>
    decreases es.len(),
{
    if es.len() == 0 {
        Seq::empty()
    } else {
        escape_text(es[0]) + escaped_text(es.skip(1))
    }
}

pub open spec fn is_escape(e: Escape) -> bool {
    match e {
        Escape::Plain(c) => c != '\\',
        Escape::Escaped(c) => c == '"' || c == 'n' || c == 'r' || c == 't' || c == '/',
        Escape::TwiceEscapedQuote => true,
    }
}

/// The character that a piece stands for.
pub open spec fn stands_for(e: Escape) -> char {
    match e {
        Escape::Plain(c) => c,
        Escape::Escaped(c) => if c == 'n' {
            '\n'
        } else if c == 'r' {
            '\r'
        } else if c == 't' {
            '\t'
        } else {
            c
        },
        Escape::TwiceEscapedQuote => '"',
    }
}

/// The pieces after those that are `e` were replaced by the character `c`.
spec fn with_plain(es: Seq<Escape>, e: Escape, c: char) -> Seq<Escape> {
    es.map_values(|x: Escape| if x == e { Escape::Plain(c) } else { x })
}

proof fn lemma_replace_escape(es: Seq<Escape>, e: Escape, c: char)
    requires
        forall|i: int| 0 <= i < es.len() ==> is_escape(#[trigger] es[i]),
        is_escape(e),
        !(e is Plain),
        e is Escaped ==> forall|i: int|
            0 <= i < es.len() ==> #[trigger] es[i] != Escape::TwiceEscapedQuote,
        c != '\\',
    ensures
        replaced(escaped_text(es), escape_text(e), seq![c]) == escaped_text(with_plain(es, e, c)),
    decreases es.len(),
{
    let from = escape_text(e);
    let s = escaped_text(es);
    let after = with_plain(es, e, c);
    if es.len() > 0 {
        let rest = es.skip(1);
        let tail = escaped_text(rest);
        assert forall|i: int| 0 <= i < rest.len() implies is_escape(#[trigger] rest[i]) by {
            assert(rest[i] == es[i + 1]);
        }
        assert forall|i: int|
            e is Escaped && 0 <= i < rest.len() implies #[trigger] rest[i]
            != Escape::TwiceEscapedQuote by {
            assert(rest[i] == es[i + 1]);
        }
        lemma_replace_escape(rest, e, c);
        assert(after.skip(1) =~= with_plain(rest, e, c));
        let first = es[0];
        assert(is_escape(first));
        let own = escape_text(first);
        assert(s == own + tail);
        assert(s[0] == own[0]);
        if first == e {
            assert(s.subrange(0, from.len() as int) =~= from);
            assert(s.skip(from.len() as int) =~= tail);
            assert(replaced(s, from, seq![c]) == seq![c] + replaced(tail, from, seq![c]));
        } else {
            assert(!starts_with(s, from)) by {
                if starts_with(s, from) {
                    let head = s.subrange(0, from.len() as int);
                    assert(head[0] == s[0] && head[1] == s[1]);
                    assert(from[0] == '\\');
                }
            }
            assert(replaced(s, from, seq![c]) == seq![s[0]] + replaced(s.skip(1), from, seq![c]));
            match first {
                Escape::Plain(x) => {
                    assert(s.skip(1) =~= tail);
                },
                Escape::Escaped(x) => {
                    let t = s.skip(1);
                    assert(t =~= seq![x] + tail);
                    assert(!starts_with(t, from)) by {
                        if starts_with(t, from) {
                            assert(t.subrange(0, from.len() as int)[0] == t[0]);
                        }
                    }
                    assert(t.skip(1) =~= tail);
                    assert(seq![s[0]] + (seq![x] + replaced(tail, from, seq![c])) =~= own
                        + replaced(tail, from, seq![c]));
                },
                Escape::TwiceEscapedQuote => {},
            }
        }
    } else {
        assert(after =~= es);
    }
}

/// Escapes are undone, one level of them: where some quote, line break or tab is
/// escaped, each piece is read as the character that it stands for. A text in which
/// none is escaped stays as it is.
pub proof fn law_unescaped(es: Seq<Escape>, k: int, text: Seq<char>)
    requires
        forall|i: int| 0 <= i < es.len() ==> is_escape(#[trigger] es[i]),
        0 <= k < es.len(),
        !(es[k] is Plain),
        es[k] != Escape::Escaped('/'),
    ensures
        unescaped(escaped_text(es)) == es.map_values(|e: Escape| stands_for(e)),
        !contains(text, "\\\""@) && !contains(text, "\\n"@) && !contains(text, "\\r"@) && !contains(
            text,
            "\\t"@,
        ) ==> unescaped(text) == text,
{
    assert("\\\\\""@ =~= escape_text(Escape::TwiceEscapedQuote)) by {
        reveal_strlit("\\\\\"");
    }
    assert("\\\""@ =~= escape_text(Escape::Escaped('"'))) by {
        reveal_strlit("\\\"");
    }
    assert("\\n"@ =~= escape_text(Escape::Escaped('n'))) by {
        reveal_strlit("\\n");
    }
    assert("\\r"@ =~= escape_text(Escape::Escaped('r'))) by {
        reveal_strlit("\\r");
    }
    assert("\\t"@ =~= escape_text(Escape::Escaped('t'))) by {
        reveal_strlit("\\t");
    }
    assert("\\/"@ =~= escape_text(Escape::Escaped('/'))) by {
        reveal_strlit("\\/");
    }
    assert("\""@ =~= seq!['"']) by {
        reveal_strlit("\"");
    }
    assert("\n"@ =~= seq!['\n']) by {
        reveal_strlit("\n");
    }
    assert("\r"@ =~= seq!['\r']) by {
        reveal_strlit("\r");
    }
    assert("\t"@ =~= seq!['\t']) by {
        reveal_strlit("\t");
    }
    assert("/"@ =~= seq!['/']) by {
        reveal_strlit("/");
    }
    let whole = escaped_text(es);
    lemma_piece_stands(es, k);
    let a = with_plain(es, Escape::TwiceEscapedQuote, '"');
    lemma_stage(es, Escape::TwiceEscapedQuote, '"');
    let b = with_plain(a, Escape::Escaped('"'), '"');
    lemma_stage(a, Escape::Escaped('"'), '"');
    let c = with_plain(b, Escape::Escaped('n'), '\n');
    lemma_stage(b, Escape::Escaped('n'), '\n');
    let d = with_plain(c, Escape::Escaped('r'), '\r');
    lemma_stage(c, Escape::Escaped('r'), '\r');
    let e = with_plain(d, Escape::Escaped('t'), '\t');
    lemma_stage(d, Escape::Escaped('t'), '\t');
    let f = with_plain(e, Escape::Escaped('/'), '/');
    lemma_stage(e, Escape::Escaped('/'), '/');
    assert forall|i: int| 0 <= i < f.len() implies #[trigger] f[i] == Escape::Plain(
        stands_for(es[i]),
    ) by {
        assert(is_escape(es[i]));
    }
    lemma_all_plain(f, es.map_values(|e: Escape| stands_for(e)));
}

proof fn lemma_stage(es: Seq<Escape>, e: Escape, c: char)
    requires
        forall|i: int| 0 <= i < es.len() ==> is_escape(#[trigger] es[i]),
        is_escape(e),
        !(e is Plain),
        e is Escaped ==> forall|i: int|
            0 <= i < es.len() ==> #[trigger] es[i] != Escape::TwiceEscapedQuote,
        c != '\\',
    ensures
        replaced(escaped_text(es), escape_text(e), seq![c]) == escaped_text(with_plain(es, e, c)),
        with_plain(es, e, c).len() == es.len(),
        forall|i: int| 0 <= i < es.len() ==> is_escape(#[trigger] with_plain(es, e, c)[i]),
        forall|i: int|
            0 <= i < es.len() ==> #[trigger] with_plain(es, e, c)[i] != Escape::TwiceEscapedQuote
                || (es[i] == Escape::TwiceEscapedQuote && e != Escape::TwiceEscapedQuote),
        e is Escaped ==> forall|i: int|
            0 <= i < es.len() ==> #[trigger] with_plain(es, e, c)[i] != Escape::TwiceEscapedQuote,
{
    lemma_replace_escape(es, e, c);
    let after = with_plain(es, e, c);
    assert forall|i: int| 0 <= i < es.len() implies is_escape(#[trigger] after[i]) by {
        assert(is_escape(es[i]));
    }
    assert forall|i: int| e is Escaped && 0 <= i < es.len() implies #[trigger] after[i]
        != Escape::TwiceEscapedQuote by {
        assert(es[i] != Escape::TwiceEscapedQuote);
    }
}

proof fn lemma_all_plain(es: Seq<Escape>, text: Seq<char>)
    requires
        es.len() == text.len(),
        forall|i: int| 0 <= i < es.len() ==> #[trigger] es[i] == Escape::Plain(text[i]),
    ensures
        escaped_text(es) == text,
    decreases es.len(),
{
    if es.len() > 0 {
        let rest = es.skip(1);
        assert forall|i: int| 0 <= i < rest.len() implies #[trigger] rest[i] == Escape::Plain(
            text.skip(1)[i],
        ) by {
            assert(rest[i] == es[i + 1]);
        }
        lemma_all_plain(rest, text.skip(1));
        assert(es[0] == Escape::Plain(text[0]));
        assert(seq![text[0]] + text.skip(1) =~= text);
    } else {
        assert(escaped_text(es) =~= text);
    }
}

/// Where some quote, line break or tab is escaped, its escape stands in the text.
proof fn lemma_piece_stands(es: Seq<Escape>, k: int)
    requires
        0 <= k < es.len(),
        is_escape(es[k]),
        !(es[k] is Plain),
    ensures
        es[k] == Escape::TwiceEscapedQuote ==> contains(
            escaped_text(es),
            escape_text(Escape::Escaped('"')),
        ),
        es[k] is Escaped ==> contains(escaped_text(es), escape_text(es[k])),
    decreases k,
{
    let s = escaped_text(es);
    let own = escape_text(es[0]);
    let tail = escaped_text(es.skip(1));
    if k == 0 {
        if es[0] is Escaped {
            assert(s.subrange(0, 2) =~= own);
            assert(occurs_at(s, own, 0));
        } else {
            assert(s.subrange(1, 3) =~= escape_text(Escape::Escaped('"')));
            assert(occurs_at(s, escape_text(Escape::Escaped('"')), 1));
        }
    } else {
        lemma_piece_stands(es.skip(1), k - 1);
        let mark = if es[k] is Escaped {
            escape_text(es[k])
        } else {
            escape_text(Escape::Escaped('"'))
        };
        let i = choose|i: int| occurs_at(tail, mark, i);
        assert(s.subrange(i + own.len(), i + own.len() + 2) =~= tail.subrange(i, i + 2));
        assert(occurs_at(s, mark, i + own.len()));
    }
}

} // verus!
