//! Where Discord accounts are found: every place in which one stands is looked
//! at, whatever was found before, and nothing else adds one.

use vstd::prelude::*;
use vstd::utf8::encode_utf8;

use crate::discord_accounts::{
    id_key, object_id, object_name, text_of_bytes, value_id, whole_value, with_account_seen,
    with_bytes, with_context_chunks, with_context_text, with_id_matches, with_items, with_json,
    with_json_texts, with_members, with_text, with_text_variant, with_texts, with_token_matches,
    with_user_matches, DiscordCandidateView,
};
use crate::discord_scan::{
    is_owner_key, joined_lines, with_batches, with_directory, with_entry, with_file, with_files,
    with_operations, with_table, Findings,
};
use crate::discord_text::{
    discord_id, discord_name, is_foreign_key, is_foreign_near, is_leveldb_name, is_printable,
    is_relevant_chunk, json_fragments, last_foreign, last_owner, last_word, law_discord_id_stable,
    law_discord_name_stable, printable_chunks, printable_runs, token_user_id, unescaped,
};
use crate::json::{
    has_member, json_parsed, key_at, lemma_key_at, lemma_value_at, member, step_into, value_at,
    JsonStep, JsonView,
};
use crate::outside::{group, regex_matches};
use crate::paths::file_name;
use crate::std_text::utf8_lossy;
use crate::text::{
    all_digits, contains, ends_with, lemma_last_at, lower, occurs_at, starts_with, trim, CharClass,
};
use crate::text_bytes::byte_len;
use crate::viewer::{
    ContentView, LdbEntryView, ParsedFileView, ScanResultView, WalBatchView, WalOperationView,
};

verus! {

// ---------------------------------------------------------------------------
// What a step adds
// ---------------------------------------------------------------------------

/// The step from `before` to `after` adds the account `id` exactly where `source`
/// shows it: it is a candidate then, seen there, and, where a name was shown too,
/// has one. A candidate that is not shown stays as it was; none is lost.
pub open spec fn adds(
    before: Map<Seq<char>, DiscordCandidateView>,
    after: Map<Seq<char>, DiscordCandidateView>,
    id: Seq<char>,
    source: Seq<char>,
    shown: bool,
    named: bool,
) -> bool {
    let key = id_key(id);
    &&& after.dom().contains(key) <==> before.dom().contains(key) || shown
    &&& shown ==> after[key].sources.contains(source)
    &&& named ==> shown && after[key].username != "unknown"@
    &&& before.dom().contains(key) ==> {
        &&& before[key].sources.subset_of(after[key].sources)
        &&& before[key].username != "unknown"@ ==> after[key].username == before[key].username
        &&& !shown ==> after[key] == before[key]
    }
}

proof fn lemma_adds_both(
    a: Map<Seq<char>, DiscordCandidateView>,
    b: Map<Seq<char>, DiscordCandidateView>,
    c: Map<Seq<char>, DiscordCandidateView>,
    id: Seq<char>,
    source: Seq<char>,
    shown: bool,
    named: bool,
    also_shown: bool,
    also_named: bool,
)
    requires
        adds(a, b, id, source, shown, named),
        adds(b, c, id, source, also_shown, also_named),
    ensures
        adds(a, c, id, source, shown || also_shown, named || also_named),
{
}

proof fn lemma_id_key(a: Seq<char>, b: Seq<char>)
    ensures
        id_key(a) == id_key(b) <==> a == b,
{
    if id_key(a) == id_key(b) {
        let n = "id:"@.len() as int;
        assert(id_key(a).skip(n) =~= a);
        assert(id_key(b).skip(n) =~= b);
    }
}

/// A name that is accepted and tells something.
pub open spec fn is_real_name(name: Seq<char>) -> bool {
    discord_name(name) is Some && discord_name(name)->0 != "unknown"@
}

proof fn lemma_seen_adds(
    map: Map<Seq<char>, DiscordCandidateView>,
    now: int,
    username: Option<Seq<char>>,
    value: Option<Seq<char>>,
    source: Seq<char>,
    id: Seq<char>,
)
    ensures
        ({
            let shown = value is Some && discord_id(value->0, now) == Some(id);
            adds(
                map,
                with_account_seen(map, now, username, value, source),
                id,
                source,
                shown,
                shown && username is Some && is_real_name(username->0),
            )
        }),
{
    if value is Some && discord_id(value->0, now) is Some {
        lemma_id_key(id, discord_id(value->0, now)->0);
    }
}

// ---------------------------------------------------------------------------
// Matches
// ---------------------------------------------------------------------------

/// Some match shows the account by its id alone.
pub open spec fn id_matched(
    matches: Seq<(int, Seq<Option<Seq<char>>>)>,
    now: int,
    id: Seq<char>,
) -> bool {
    exists|i: int|
        0 <= i < matches.len() && group(#[trigger] matches[i], 1) is Some && discord_id(
            group(matches[i], 1)->0,
            now,
        ) == Some(id)
}

proof fn lemma_id_matches_add(
    map: Map<Seq<char>, DiscordCandidateView>,
    now: int,
    matches: Seq<(int, Seq<Option<Seq<char>>>)>,
    source: Seq<char>,
    id: Seq<char>,
)
    ensures
        adds(
            map,
            with_id_matches(map, now, matches, source),
            id,
            source,
            id_matched(matches, now, id),
            false,
        ),
    decreases matches.len(),
{
    if matches.len() > 0 {
        let rest = matches.drop_last();
        let m = matches.last();
        lemma_id_matches_add(map, now, rest, source, id);
        let before = with_id_matches(map, now, rest, source);
        let after = with_id_matches(map, now, matches, source);
        let own = group(m, 1) is Some && discord_id(group(m, 1)->0, now) == Some(id);
        if group(m, 1) is Some {
            lemma_seen_adds(before, now, None, group(m, 1), source, id);
        }
        lemma_adds_both(
            map,
            before,
            after,
            id,
            source,
            id_matched(rest, now, id),
            false,
            own,
            false,
        );
        assert(matches[matches.len() - 1] == m);
        if id_matched(rest, now, id) {
            let i = choose|i: int|
                0 <= i < rest.len() && group(#[trigger] rest[i], 1) is Some && discord_id(
                    group(rest[i], 1)->0,
                    now,
                ) == Some(id);
            assert(matches[i] == rest[i]);
        }
        if id_matched(matches, now, id) && !own {
            let i = choose|i: int|
                0 <= i < matches.len() && group(#[trigger] matches[i], 1) is Some && discord_id(
                    group(matches[i], 1)->0,
                    now,
                ) == Some(id);
            assert(matches[i] == rest[i]);
        }
    }
}

/// Some match that is not about another user shows the account by a name and its
/// id; `named` asks for a name that tells something.
pub open spec fn user_matched(
    matches: Seq<(int, Seq<Option<Seq<char>>>)>,
    now: int,
    name_group: int,
    id_group: int,
    text: Option<Seq<char>>,
    id: Seq<char>,
    named: bool,
) -> bool {
    exists|i: int|
        0 <= i < matches.len() && shows_user(
            #[trigger] matches[i],
            now,
            name_group,
            id_group,
            text,
            id,
            named,
        )
}

pub open spec fn shows_user(
    m: (int, Seq<Option<Seq<char>>>),
    now: int,
    name_group: int,
    id_group: int,
    text: Option<Seq<char>>,
    id: Seq<char>,
    named: bool,
) -> bool {
    &&& !(text is Some && is_foreign_near(encode_utf8(text->0), m.0))
    &&& group(m, name_group) is Some
    &&& group(m, id_group) is Some
    &&& discord_id(group(m, id_group)->0, now) == Some(id)
    &&& named ==> is_real_name(group(m, name_group)->0)
}

proof fn lemma_user_matches_add(
    map: Map<Seq<char>, DiscordCandidateView>,
    now: int,
    matches: Seq<(int, Seq<Option<Seq<char>>>)>,
    a: int,
    b: int,
    text: Option<Seq<char>>,
    source: Seq<char>,
    id: Seq<char>,
)
    ensures
        adds(
            map,
            with_user_matches(map, now, matches, a, b, text, source),
            id,
            source,
            user_matched(matches, now, a, b, text, id, false),
            user_matched(matches, now, a, b, text, id, true),
        ),
    decreases matches.len(),
{
    if matches.len() > 0 {
        let rest = matches.drop_last();
        let m = matches.last();
        lemma_user_matches_add(map, now, rest, a, b, text, source, id);
        let before = with_user_matches(map, now, rest, a, b, text, source);
        let after = with_user_matches(map, now, matches, a, b, text, source);
        let shown = shows_user(m, now, a, b, text, id, false);
        let named = shows_user(m, now, a, b, text, id, true);
        lemma_seen_adds(before, now, group(m, a), group(m, b), source, id);
        assert(adds(before, after, id, source, shown, named));
        lemma_adds_both(
            map,
            before,
            after,
            id,
            source,
            user_matched(rest, now, a, b, text, id, false),
            user_matched(rest, now, a, b, text, id, true),
            shown,
            named,
        );
        lemma_user_matched(matches, now, a, b, text, id, false);
        lemma_user_matched(matches, now, a, b, text, id, true);
    }
}

proof fn lemma_user_matched(
    matches: Seq<(int, Seq<Option<Seq<char>>>)>,
    now: int,
    a: int,
    b: int,
    text: Option<Seq<char>>,
    id: Seq<char>,
    named: bool,
)
    requires
        matches.len() > 0,
    ensures
        user_matched(matches, now, a, b, text, id, named) <==> user_matched(
            matches.drop_last(),
            now,
            a,
            b,
            text,
            id,
            named,
        ) || shows_user(matches.last(), now, a, b, text, id, named),
{
    let rest = matches.drop_last();
    assert(matches[matches.len() - 1] == matches.last());
    if user_matched(rest, now, a, b, text, id, named) {
        let i = choose|i: int|
            0 <= i < rest.len() && shows_user(#[trigger] rest[i], now, a, b, text, id, named);
        assert(matches[i] == rest[i]);
    }
    if user_matched(matches, now, a, b, text, id, named) {
        let i = choose|i: int|
            0 <= i < matches.len() && shows_user(#[trigger] matches[i], now, a, b, text, id, named);
        if i < rest.len() {
            assert(matches[i] == rest[i]);
        }
    }
}

/// Some match is a token of the account.
pub open spec fn token_matched(
    matches: Seq<(int, Seq<Option<Seq<char>>>)>,
    now: int,
    id: Seq<char>,
) -> bool {
    exists|i: int|
        0 <= i < matches.len() && group(#[trigger] matches[i], 1) is Some && token_user_id(
            group(matches[i], 1)->0,
            now,
        ) == Some(id)
}

proof fn lemma_token_matches_add(
    map: Map<Seq<char>, DiscordCandidateView>,
    now: int,
    matches: Seq<(int, Seq<Option<Seq<char>>>)>,
    source: Seq<char>,
    id: Seq<char>,
)
    ensures
        adds(
            map,
            with_token_matches(map, now, matches, source),
            id,
            source,
            token_matched(matches, now, id),
            false,
        ),
    decreases matches.len(),
{
    if matches.len() > 0 {
        let rest = matches.drop_last();
        let m = matches.last();
        lemma_token_matches_add(map, now, rest, source, id);
        let before = with_token_matches(map, now, rest, source);
        let after = with_token_matches(map, now, matches, source);
        let own = group(m, 1) is Some && token_user_id(group(m, 1)->0, now) == Some(id);
        if group(m, 1) is Some && token_user_id(group(m, 1)->0, now) is Some {
            let token = token_user_id(group(m, 1)->0, now);
            lemma_token_id(group(m, 1)->0, now);
            lemma_seen_adds(before, now, None, token, source, id);
        }
        lemma_adds_both(
            map,
            before,
            after,
            id,
            source,
            token_matched(rest, now, id),
            false,
            own,
            false,
        );
        assert(matches[matches.len() - 1] == m);
        if token_matched(rest, now, id) {
            let i = choose|i: int|
                0 <= i < rest.len() && group(#[trigger] rest[i], 1) is Some && token_user_id(
                    group(rest[i], 1)->0,
                    now,
                ) == Some(id);
            assert(matches[i] == rest[i]);
        }
        if token_matched(matches, now, id) && !own {
            let i = choose|i: int|
                0 <= i < matches.len() && group(#[trigger] matches[i], 1) is Some
                    && token_user_id(group(matches[i], 1)->0, now) == Some(id);
            assert(matches[i] == rest[i]);
        }
    }
}

proof fn lemma_token_id(segment: Seq<char>, now: int)
    requires
        token_user_id(segment, now) is Some,
    ensures
        discord_id(token_user_id(segment, now)->0, now) == token_user_id(segment, now),
{
    let bytes = crate::discord_text::base64_decoded(segment)->0;
    law_discord_id_stable(trim(vstd::utf8::decode_utf8(bytes), CharClass::Space), now, now);
}

// ---------------------------------------------------------------------------
// JSON values
// ---------------------------------------------------------------------------

/// The members are those of the account `id`: it stands under `id`, as a text or a
/// number, beside a name or a member that users have. `named` asks for a name
/// that tells something.
pub open spec fn is_account(members: Seq<(Seq<char>, JsonView)>, now: int, id: Seq<char>, named: bool) -> bool {
    &&& match member(members, "id"@) {
        Some(JsonView::Text(text)) => discord_id(text, now) == Some(id),
        Some(JsonView::Number(text)) => discord_id(text, now) == Some(id),
        _ => false,
    }
    &&& match member(members, "username"@) {
        Some(JsonView::Text(name)) => if named {
            is_real_name(name)
        } else {
            discord_name(name) is Some || has_mark(members)
        },
        _ => !named && has_mark(members),
    }
}

/// A member stands among `members` that users have and other things do not.
pub open spec fn has_mark(members: Seq<(Seq<char>, JsonView)>) -> bool {
    exists|i: int|
        0 <= i < members.len() && ((#[trigger] members[i]).0 == "discriminator"@ || members[i].0
            == "avatar"@ || members[i].0 == "tokenStatus"@ || members[i].0 == "global_name"@
            || members[i].0 == "globalName"@ || members[i].0 == "flags"@)
}

/// What `path` leads to is the account `id`, not below a key of another user and
/// not more than 20 levels down from a start at the level `depth`.
pub open spec fn leads_to_account(
    value: JsonView,
    path: Seq<JsonStep>,
    now: int,
    id: Seq<char>,
    named: bool,
    depth: int,
) -> bool {
    &&& depth + path.len() <= 20
    &&& forall|k: int|
        0 <= k < path.len() && (#[trigger] key_at(value, path, k)) is Some ==> !is_foreign_key(
            key_at(value, path, k)->0,
        )
    &&& value_at(value, path) matches Some(JsonView::Object(members)) && is_account(
        members,
        now,
        id,
        named,
    )
}

/// The value holds the account somewhere.
pub open spec fn holds_account(
    value: JsonView,
    now: int,
    id: Seq<char>,
    named: bool,
    depth: int,
) -> bool {
    exists|path: Seq<JsonStep>| leads_to_account(value, path, now, id, named, depth)
}

/// A path to the account, where there is one.
spec fn account_path(value: JsonView, now: int, id: Seq<char>, named: bool, depth: int) -> Seq<JsonStep> {
    choose|path: Seq<JsonStep>| leads_to_account(value, path, now, id, named, depth)
}

proof fn lemma_member(members: Seq<(Seq<char>, JsonView)>, key: Seq<char>)
    ensures
        has_member(members, key) <==> exists|i: int|
            0 <= i < members.len() && (#[trigger] members[i]).0 == key,
    decreases members.len(),
{
    if members.len() > 0 {
        let rest = members.skip(1);
        lemma_member(rest, key);
        if exists|i: int| 0 <= i < members.len() && (#[trigger] members[i]).0 == key {
            let i = choose|i: int| 0 <= i < members.len() && (#[trigger] members[i]).0 == key;
            if i > 0 {
                assert(rest[i - 1].0 == key);
            }
        }
        if exists|i: int| 0 <= i < rest.len() && (#[trigger] rest[i]).0 == key {
            let i = choose|i: int| 0 <= i < rest.len() && (#[trigger] rest[i]).0 == key;
            assert(members[i + 1].0 == key);
        }
    }
}

proof fn lemma_marks(members: Seq<(Seq<char>, JsonView)>)
    ensures
        crate::discord_accounts::has_user_marks(members) == has_mark(members),
{
    lemma_member(members, "discriminator"@);
    lemma_member(members, "avatar"@);
    lemma_member(members, "tokenStatus"@);
    lemma_member(members, "global_name"@);
    lemma_member(members, "globalName"@);
    lemma_member(members, "flags"@);
}

/// The first `n` members hold the account.
spec fn members_hold(
    members: Seq<(Seq<char>, JsonView)>,
    n: nat,
    now: int,
    id: Seq<char>,
    named: bool,
    depth: int,
) -> bool {
    exists|i: int|
        0 <= i < n && !is_foreign_key((#[trigger] members[i]).0) && holds_account(
            members[i].1,
            now,
            id,
            named,
            depth,
        )
}

spec fn items_hold(items: Seq<JsonView>, n: nat, now: int, id: Seq<char>, named: bool, depth: int) -> bool {
    exists|i: int|
        0 <= i < n && holds_account(#[trigger] items[i], now, id, named, depth)
}

/// A path leads to an account where its other steps do from where the first one
/// leads, unless that goes below a key of another user.
proof fn lemma_leads(
    value: JsonView,
    path: Seq<JsonStep>,
    now: int,
    id: Seq<char>,
    named: bool,
    depth: int,
)
    requires
        path.len() > 0,
        step_into(value, path[0]) is Some,
    ensures
        leads_to_account(value, path, now, id, named, depth) <==> leads_to_account(
            step_into(value, path[0])->0,
            path.skip(1),
            now,
            id,
            named,
            depth + 1,
        ) && (key_at(value, path, 0) is Some ==> !is_foreign_key(key_at(value, path, 0)->0)),
{
    let child = step_into(value, path[0])->0;
    let rest = path.skip(1);
    lemma_value_at(value, path);
    assert forall|k: int| 0 < k < path.len() implies #[trigger] key_at(value, path, k) == key_at(
        child,
        rest,
        k - 1,
    ) by {
        lemma_key_at(value, path, k);
    }
    if leads_to_account(value, path, now, id, named, depth) {
        assert forall|k: int| 0 <= k < rest.len() && (#[trigger] key_at(child, rest, k))
            is Some implies !is_foreign_key(key_at(child, rest, k)->0) by {
            assert(key_at(value, path, k + 1) == key_at(child, rest, k));
        }
        assert(key_at(value, path, 0) is Some ==> !is_foreign_key(key_at(value, path, 0)->0));
    }
    if leads_to_account(child, rest, now, id, named, depth + 1) && (key_at(value, path, 0) is Some
        ==> !is_foreign_key(key_at(value, path, 0)->0)) {
        assert forall|k: int| 0 <= k < path.len() && (#[trigger] key_at(value, path, k))
            is Some implies !is_foreign_key(key_at(value, path, k)->0) by {
            if k > 0 {
                assert(key_at(child, rest, k - 1) == key_at(value, path, k));
            }
        }
    }
}

proof fn lemma_object_holds(
    members: Seq<(Seq<char>, JsonView)>,
    now: int,
    id: Seq<char>,
    named: bool,
    depth: int,
)
    requires
        depth <= 20,
    ensures
        holds_account(JsonView::Object(members), now, id, named, depth) <==> is_account(
            members,
            now,
            id,
            named,
        ) || members_hold(members, members.len(), now, id, named, depth + 1),
{
    let value = JsonView::Object(members);
    let here = Seq::<JsonStep>::empty();
    if is_account(members, now, id, named) {
        assert(leads_to_account(value, here, now, id, named, depth));
    }
    if members_hold(members, members.len(), now, id, named, depth + 1) {
        let i = choose|i: int|
            0 <= i < members.len() && !is_foreign_key((#[trigger] members[i]).0) && holds_account(
                members[i].1,
                now,
                id,
                named,
                depth + 1,
            );
        let rest = account_path(members[i].1, now, id, named, depth + 1);
        let path = seq![JsonStep::Member(i)] + rest;
        assert(path.skip(1) =~= rest);
        assert(path.take(0) =~= here);
        lemma_leads(value, path, now, id, named, depth);
        assert(leads_to_account(value, path, now, id, named, depth));
    }
    if holds_account(value, now, id, named, depth) {
        let path = account_path(value, now, id, named, depth);
        if path.len() > 0 {
            lemma_value_at(value, path);
            assert(path.take(0) =~= here);
            lemma_leads(value, path, now, id, named, depth);
            let i = path[0]->Member_0;
            assert(key_at(value, path, 0) == Some(members[i].0));
            assert(holds_account(members[i].1, now, id, named, depth + 1));
        }
    }
}

proof fn lemma_list_holds(items: Seq<JsonView>, now: int, id: Seq<char>, named: bool, depth: int)
    requires
        depth <= 20,
    ensures
        holds_account(JsonView::List(items), now, id, named, depth) <==> items_hold(
            items,
            items.len(),
            now,
            id,
            named,
            depth + 1,
        ),
{
    let value = JsonView::List(items);
    let here = Seq::<JsonStep>::empty();
    if items_hold(items, items.len(), now, id, named, depth + 1) {
        let i = choose|i: int|
            0 <= i < items.len() && holds_account(#[trigger] items[i], now, id, named, depth + 1);
        let rest = account_path(items[i], now, id, named, depth + 1);
        let path = seq![JsonStep::Item(i)] + rest;
        assert(path.skip(1) =~= rest);
        assert(path.take(0) =~= here);
        lemma_leads(value, path, now, id, named, depth);
        assert(leads_to_account(value, path, now, id, named, depth));
    }
    if holds_account(value, now, id, named, depth) {
        let path = account_path(value, now, id, named, depth);
        if path.len() > 0 {
            lemma_value_at(value, path);
            assert(path.take(0) =~= here);
            lemma_leads(value, path, now, id, named, depth);
            let i = path[0]->Item_0;
            assert(holds_account(items[i], now, id, named, depth + 1));
        }
    }
}

proof fn lemma_other_holds(value: JsonView, now: int, id: Seq<char>, named: bool, depth: int)
    requires
        depth > 20 || !(value is Object || value is List),
    ensures
        !holds_account(value, now, id, named, depth),
{
    if holds_account(value, now, id, named, depth) {
        let path = account_path(value, now, id, named, depth);
        if path.len() > 0 {
            lemma_value_at(value, path);
        }
    }
}

proof fn lemma_json_adds(
    map: Map<Seq<char>, DiscordCandidateView>,
    now: int,
    value: JsonView,
    source: Seq<char>,
    depth: int,
    foreign: bool,
    id: Seq<char>,
)
    ensures
        adds(
            map,
            with_json(map, now, value, source, depth, foreign),
            id,
            source,
            !foreign && holds_account(value, now, id, false, depth),
            !foreign && holds_account(value, now, id, true, depth),
        ),
    decreases value, 0int,
{
    if depth > 20 || !(value is Object || value is List) {
        lemma_other_holds(value, now, id, false, depth);
        lemma_other_holds(value, now, id, true, depth);
    } else {
        match value {
            JsonView::Object(members) => {
                let name = object_name(members);
                let found = object_id(members, now);
                lemma_marks(members);
                let is_own = !foreign && found is Some && (has_mark(members) || name is Some);
                let own = if is_own {
                    with_account_seen(map, now, name, found, source)
                } else {
                    map
                };
                if found is Some {
                    lemma_value_id(member(members, "id"@)->0, now);
                }
                if name is Some {
                    law_discord_name_stable(member(members, "username"@)->0->Text_0);
                }
                lemma_seen_adds(map, now, name, found, source, id);
                let shown = !foreign && is_account(members, now, id, false);
                let named = !foreign && is_account(members, now, id, true);
                assert(adds(map, own, id, source, shown, named));
                lemma_members_add(own, now, members, members.len(), source, depth + 1, foreign, id);
                let after = with_members(
                    own,
                    now,
                    members,
                    members.len(),
                    source,
                    depth + 1,
                    foreign,
                );
                lemma_adds_both(
                    map,
                    own,
                    after,
                    id,
                    source,
                    shown,
                    named,
                    !foreign && members_hold(members, members.len(), now, id, false, depth + 1),
                    !foreign && members_hold(members, members.len(), now, id, true, depth + 1),
                );
                lemma_object_holds(members, now, id, false, depth);
                lemma_object_holds(members, now, id, true, depth);
            },
            JsonView::List(items) => {
                lemma_items_add(map, now, items, items.len(), source, depth + 1, foreign, id);
                lemma_list_holds(items, now, id, false, depth);
                lemma_list_holds(items, now, id, true, depth);
            },
            _ => {},
        }
    }
}

proof fn lemma_value_id(value: JsonView, now: int)
    requires
        value_id(value, now) is Some,
    ensures
        discord_id(value_id(value, now)->0, now) == value_id(value, now),
{
    match value {
        JsonView::Text(text) => {
            law_discord_id_stable(text, now, now);
        },
        JsonView::Number(text) => {
            law_discord_id_stable(text, now, now);
        },
        _ => {},
    }
}

proof fn lemma_members_add(
    map: Map<Seq<char>, DiscordCandidateView>,
    now: int,
    members: Seq<(Seq<char>, JsonView)>,
    n: nat,
    source: Seq<char>,
    depth: int,
    foreign: bool,
    id: Seq<char>,
)
    requires
        n <= members.len(),
    ensures
        adds(
            map,
            with_members(map, now, members, n, source, depth, foreign),
            id,
            source,
            !foreign && members_hold(members, n, now, id, false, depth),
            !foreign && members_hold(members, n, now, id, true, depth),
        ),
    decreases members, n,
{
    if n > 0 {
        let m = (n - 1) as nat;
        lemma_members_add(map, now, members, m, source, depth, foreign, id);
        let before = with_members(map, now, members, m, source, depth, foreign);
        let (key, child) = members[n - 1];
        let inner = foreign || is_foreign_key(key);
        lemma_json_adds(before, now, child, source, depth, inner, id);
        lemma_adds_both(
            map,
            before,
            with_json(before, now, child, source, depth, inner),
            id,
            source,
            !foreign && members_hold(members, m, now, id, false, depth),
            !foreign && members_hold(members, m, now, id, true, depth),
            !inner && holds_account(child, now, id, false, depth),
            !inner && holds_account(child, now, id, true, depth),
        );
        lemma_members_hold(members, n, now, id, false, depth);
        lemma_members_hold(members, n, now, id, true, depth);
    }
}

proof fn lemma_members_hold(
    members: Seq<(Seq<char>, JsonView)>,
    n: nat,
    now: int,
    id: Seq<char>,
    named: bool,
    depth: int,
)
    requires
        0 < n <= members.len(),
    ensures
        members_hold(members, n, now, id, named, depth) <==> members_hold(
            members,
            (n - 1) as nat,
            now,
            id,
            named,
            depth,
        ) || (!is_foreign_key(members[n - 1].0) && holds_account(
            members[n - 1].1,
            now,
            id,
            named,
            depth,
        )),
{
    if members_hold(members, n, now, id, named, depth) {
        let i = choose|i: int|
            0 <= i < n && !is_foreign_key((#[trigger] members[i]).0) && holds_account(
                members[i].1,
                now,
                id,
                named,
                depth,
            );
        assert(i < n - 1 || i == n - 1);
    }
}

proof fn lemma_items_add(
    map: Map<Seq<char>, DiscordCandidateView>,
    now: int,
    items: Seq<JsonView>,
    n: nat,
    source: Seq<char>,
    depth: int,
    foreign: bool,
    id: Seq<char>,
)
    requires
        n <= items.len(),
    ensures
        adds(
            map,
            with_items(map, now, items, n, source, depth, foreign),
            id,
            source,
            !foreign && items_hold(items, n, now, id, false, depth),
            !foreign && items_hold(items, n, now, id, true, depth),
        ),
    decreases items, n,
{
    if n > 0 {
        let m = (n - 1) as nat;
        lemma_items_add(map, now, items, m, source, depth, foreign, id);
        let before = with_items(map, now, items, m, source, depth, foreign);
        let child = items[n - 1];
        lemma_json_adds(before, now, child, source, depth, foreign, id);
        lemma_adds_both(
            map,
            before,
            with_json(before, now, child, source, depth, foreign),
            id,
            source,
            !foreign && items_hold(items, m, now, id, false, depth),
            !foreign && items_hold(items, m, now, id, true, depth),
            !foreign && holds_account(child, now, id, false, depth),
            !foreign && holds_account(child, now, id, true, depth),
        );
        lemma_items_hold(items, n, now, id, false, depth);
        lemma_items_hold(items, n, now, id, true, depth);
    }
}

proof fn lemma_items_hold(
    items: Seq<JsonView>,
    n: nat,
    now: int,
    id: Seq<char>,
    named: bool,
    depth: int,
)
    requires
        0 < n <= items.len(),
    ensures
        items_hold(items, n, now, id, named, depth) <==> items_hold(
            items,
            (n - 1) as nat,
            now,
            id,
            named,
            depth,
        ) || holds_account(items[n - 1], now, id, named, depth),
{
    if items_hold(items, n, now, id, named, depth) {
        let i = choose|i: int|
            0 <= i < n && holds_account(#[trigger] items[i], now, id, named, depth);
        assert(i < n - 1 || i == n - 1);
    }
}

/// A JSON value adds an account exactly where some object in it, at most 20 levels
/// down and not below a key of another user, is that account.
pub proof fn law_json_adds(
    map: Map<Seq<char>, DiscordCandidateView>,
    now: int,
    value: JsonView,
    source: Seq<char>,
    id: Seq<char>,
)
    ensures
        adds(
            map,
            with_json(map, now, value, source, 0, false),
            id,
            source,
            holds_account(value, now, id, false, 0),
            holds_account(value, now, id, true, 0),
        ),
{
    lemma_json_adds(map, now, value, source, 0, false, id);
}

// ---------------------------------------------------------------------------
// Texts
// ---------------------------------------------------------------------------

/// One of `texts` is a JSON value that holds the account.
pub open spec fn texts_hold(texts: Seq<Seq<char>>, now: int, id: Seq<char>, named: bool) -> bool {
    exists|i: int|
        0 <= i < texts.len() && (json_parsed(#[trigger] texts[i]) matches Some(value)
            && holds_account(value, now, id, named, 0))
}

proof fn lemma_texts_hold(texts: Seq<Seq<char>>, now: int, id: Seq<char>, named: bool)
    requires
        texts.len() > 0,
    ensures
        texts_hold(texts, now, id, named) <==> texts_hold(texts.drop_last(), now, id, named) || (
        json_parsed(texts.last()) matches Some(value) && holds_account(value, now, id, named, 0)),
{
    let rest = texts.drop_last();
    assert(texts[texts.len() - 1] == texts.last());
    if texts_hold(rest, now, id, named) {
        let i = choose|i: int|
            0 <= i < rest.len() && (json_parsed(#[trigger] rest[i]) matches Some(value)
                && holds_account(value, now, id, named, 0));
        assert(texts[i] == rest[i]);
    }
    if texts_hold(texts, now, id, named) {
        let i = choose|i: int|
            0 <= i < texts.len() && (json_parsed(#[trigger] texts[i]) matches Some(value)
                && holds_account(value, now, id, named, 0));
        if i < rest.len() {
            assert(texts[i] == rest[i]);
        }
    }
}

proof fn lemma_json_texts_add(
    map: Map<Seq<char>, DiscordCandidateView>,
    now: int,
    texts: Seq<Seq<char>>,
    source: Seq<char>,
    id: Seq<char>,
)
    ensures
        adds(
            map,
            with_json_texts(map, now, texts, source),
            id,
            source,
            texts_hold(texts, now, id, false),
            texts_hold(texts, now, id, true),
        ),
    decreases texts.len(),
{
    if texts.len() > 0 {
        let rest = texts.drop_last();
        lemma_json_texts_add(map, now, rest, source, id);
        let before = with_json_texts(map, now, rest, source);
        let after = with_json_texts(map, now, texts, source);
        let parsed = json_parsed(texts.last());
        if parsed is Some {
            law_json_adds(before, now, parsed->0, source, id);
        }
        lemma_adds_both(
            map,
            before,
            after,
            id,
            source,
            texts_hold(rest, now, id, false),
            texts_hold(rest, now, id, true),
            parsed is Some && holds_account(parsed->0, now, id, false, 0),
            parsed is Some && holds_account(parsed->0, now, id, true, 0),
        );
        lemma_texts_hold(texts, now, id, false);
        lemma_texts_hold(texts, now, id, true);
    }
}

/// One form of a text shows the account: it is a JSON value that holds it, some
/// bracketed part of it is, a name and the id stand beside each other in it and
/// are not about another user, or a token of the account stands in it.
pub open spec fn variant_shows(text: Seq<char>, now: int, id: Seq<char>, named: bool) -> bool {
    let trimmed = trim(text, CharClass::Space);
    &&& trimmed.len() > 0
    &&& {
        ||| (trimmed[0] == '{' || trimmed[0] == '[') && texts_hold(seq![trimmed], now, id, named)
        ||| texts_hold(json_fragments(trimmed, 220, 650_000), now, id, named)
        ||| user_matched(
            regex_matches(
                r#"(?s)\{[^{}]{0,1400}\"username\"\s*:\s*\"(?P<username>[A-Za-z0-9_.-]{2,64})\"[^{}]{0,1400}\"id\"\s*:\s*\"(?P<id>\d{17,20})\"[^{}]*\}"#@,
                text,
            ),
            now,
            1,
            2,
            Some(lower(text)),
            id,
            named,
        )
        ||| user_matched(
            regex_matches(
                r#"(?s)\{[^{}]{0,1400}\"id\"\s*:\s*\"(?P<id>\d{17,20})\"[^{}]{0,1400}\"username\"\s*:\s*\"(?P<username>[A-Za-z0-9_.-]{2,64})\"[^{}]*\}"#@,
                text,
            ),
            now,
            2,
            1,
            Some(lower(text)),
            id,
            named,
        )
        ||| !named && token_matched(
            regex_matches(
                r"([A-Za-z0-9_-]{23,28})\.([A-Za-z0-9_-]{6,8})\.([A-Za-z0-9_-]{20,110})"@,
                text,
            ),
            now,
            id,
        )
    }
}

proof fn lemma_whole_value(text: Seq<char>, now: int, id: Seq<char>, named: bool)
    requires
        text.len() > 0,
    ensures
        texts_hold(whole_value(text), now, id, named) <==> (text[0] == '{' || text[0] == '[')
            && texts_hold(seq![text], now, id, named),
{
    reveal_strlit("{");
    reveal_strlit("[");
    assert(starts_with(text, "{"@) <==> text[0] == '{') by {
        assert(text.subrange(0, 1) =~= seq![text[0]]);
        assert("{"@ =~= seq!['{']);
        if text.subrange(0, 1) == "{"@ {
            assert(seq![text[0]][0] == seq!['{'][0]);
        }
    }
    assert(starts_with(text, "["@) <==> text[0] == '[') by {
        assert(text.subrange(0, 1) =~= seq![text[0]]);
        assert("["@ =~= seq!['[']);
        if text.subrange(0, 1) == "["@ {
            assert(seq![text[0]][0] == seq!['['][0]);
        }
    }
}

proof fn lemma_variant_adds(
    map: Map<Seq<char>, DiscordCandidateView>,
    now: int,
    text: Seq<char>,
    source: Seq<char>,
    id: Seq<char>,
)
    ensures
        adds(
            map,
            with_text_variant(map, now, text, source),
            id,
            source,
            variant_shows(text, now, id, false),
            variant_shows(text, now, id, true),
        ),
{
    let trimmed = trim(text, CharClass::Space);
    if trimmed.len() > 0 {
        let whole = whole_value(trimmed);
        let parts = json_fragments(trimmed, 220, 650_000);
        let forward = regex_matches(crate::discord_accounts::NAME_THEN_ID_PATTERN@, text);
        let backward = regex_matches(crate::discord_accounts::ID_THEN_NAME_PATTERN@, text);
        let tokens = regex_matches(crate::discord_accounts::TOKEN_PATTERN@, text);
        let low = Some(lower(text));
        let a = with_json_texts(map, now, whole, source);
        let b = with_json_texts(a, now, parts, source);
        let c = with_user_matches(b, now, forward, 1, 2, low, source);
        let d = with_user_matches(c, now, backward, 2, 1, low, source);
        let e = with_token_matches(d, now, tokens, source);
        let s1 = texts_hold(whole, now, id, false);
        let n1 = texts_hold(whole, now, id, true);
        let s2 = texts_hold(parts, now, id, false);
        let n2 = texts_hold(parts, now, id, true);
        let s3 = user_matched(forward, now, 1, 2, low, id, false);
        let n3 = user_matched(forward, now, 1, 2, low, id, true);
        let s4 = user_matched(backward, now, 2, 1, low, id, false);
        let n4 = user_matched(backward, now, 2, 1, low, id, true);
        let s5 = token_matched(tokens, now, id);
        lemma_json_texts_add(map, now, whole, source, id);
        lemma_json_texts_add(a, now, parts, source, id);
        lemma_user_matches_add(b, now, forward, 1, 2, low, source, id);
        lemma_user_matches_add(c, now, backward, 2, 1, low, source, id);
        lemma_token_matches_add(d, now, tokens, source, id);
        lemma_adds_both(map, a, b, id, source, s1, n1, s2, n2);
        lemma_adds_both(map, b, c, id, source, s1 || s2, n1 || n2, s3, n3);
        lemma_adds_both(map, c, d, id, source, s1 || s2 || s3, n1 || n2 || n3, s4, n4);
        lemma_adds_both(
            map,
            d,
            e,
            id,
            source,
            s1 || s2 || s3 || s4,
            n1 || n2 || n3 || n4,
            s5,
            false,
        );
        lemma_whole_value(trimmed, now, id, false);
        lemma_whole_value(trimmed, now, id, true);
    }
}

/// A text of at most four million bytes shows the account, as it is or with escapes
/// undone.
pub open spec fn text_shows(text: Seq<char>, now: int, id: Seq<char>, named: bool) -> bool {
    &&& text.len() > 0
    &&& byte_len(text) <= 4_000_000
    &&& variant_shows(text, now, id, named) || variant_shows(unescaped(text), now, id, named)
}

/// A text adds an account exactly where it shows it.
pub proof fn law_text_adds(
    map: Map<Seq<char>, DiscordCandidateView>,
    now: int,
    text: Seq<char>,
    source: Seq<char>,
    id: Seq<char>,
)
    ensures
        adds(
            map,
            with_text(map, now, text, source),
            id,
            source,
            text_shows(text, now, id, false),
            text_shows(text, now, id, true),
        ),
{
    let a = with_text_variant(map, now, text, source);
    let plain = unescaped(text);
    lemma_variant_adds(map, now, text, source, id);
    lemma_variant_adds(a, now, plain, source, id);
    if plain != text {
        lemma_adds_both(
            map,
            a,
            with_text_variant(a, now, plain, source),
            id,
            source,
            variant_shows(text, now, id, false),
            variant_shows(text, now, id, true),
            variant_shows(plain, now, id, false),
            variant_shows(plain, now, id, true),
        );
    }
}

/// One of `texts` shows the account.
pub open spec fn some_text_shows(texts: Seq<Seq<char>>, now: int, id: Seq<char>, named: bool) -> bool {
    exists|i: int| 0 <= i < texts.len() && text_shows(#[trigger] texts[i], now, id, named)
}

proof fn lemma_some_text(texts: Seq<Seq<char>>, now: int, id: Seq<char>, named: bool)
    requires
        texts.len() > 0,
    ensures
        some_text_shows(texts, now, id, named) <==> some_text_shows(
            texts.drop_last(),
            now,
            id,
            named,
        ) || text_shows(texts.last(), now, id, named),
{
    let rest = texts.drop_last();
    assert(texts[texts.len() - 1] == texts.last());
    if some_text_shows(rest, now, id, named) {
        let i = choose|i: int|
            0 <= i < rest.len() && text_shows(#[trigger] rest[i], now, id, named);
        assert(texts[i] == rest[i]);
    }
    if some_text_shows(texts, now, id, named) {
        let i = choose|i: int|
            0 <= i < texts.len() && text_shows(#[trigger] texts[i], now, id, named);
        if i < rest.len() {
            assert(texts[i] == rest[i]);
        }
    }
}

proof fn lemma_texts_add(
    map: Map<Seq<char>, DiscordCandidateView>,
    now: int,
    texts: Seq<Seq<char>>,
    source: Seq<char>,
    id: Seq<char>,
)
    ensures
        adds(
            map,
            with_texts(map, now, texts, source),
            id,
            source,
            some_text_shows(texts, now, id, false),
            some_text_shows(texts, now, id, true),
        ),
    decreases texts.len(),
{
    if texts.len() > 0 {
        let rest = texts.drop_last();
        lemma_texts_add(map, now, rest, source, id);
        let before = with_texts(map, now, rest, source);
        law_text_adds(before, now, texts.last(), source, id);
        lemma_adds_both(
            map,
            before,
            with_texts(map, now, texts, source),
            id,
            source,
            some_text_shows(rest, now, id, false),
            some_text_shows(rest, now, id, true),
            text_shows(texts.last(), now, id, false),
            text_shows(texts.last(), now, id, true),
        );
        lemma_some_text(texts, now, id, false);
        lemma_some_text(texts, now, id, true);
    }
}

/// Bytes show the account: the text that they are does, or one of their first 180
/// printable runs of at least 80 characters.
pub open spec fn bytes_show(bytes: Seq<u8>, now: int, id: Seq<char>, named: bool) -> bool {
    &&& bytes.len() > 0
    &&& text_shows(text_of_bytes(bytes), now, id, named) || some_text_shows(
        printable_chunks(bytes, 80, 180),
        now,
        id,
        named,
    )
}

/// Bytes add an account exactly where they show it.
pub proof fn law_bytes_add(
    map: Map<Seq<char>, DiscordCandidateView>,
    now: int,
    bytes: Seq<u8>,
    source: Seq<char>,
    id: Seq<char>,
)
    ensures
        adds(
            map,
            with_bytes(map, now, bytes, source),
            id,
            source,
            bytes_show(bytes, now, id, false),
            bytes_show(bytes, now, id, true),
        ),
{
    if bytes.len() > 0 {
        let text = text_of_bytes(bytes);
        let chunks = printable_chunks(bytes, 80, 180);
        let a = with_text(map, now, text, source);
        law_text_adds(map, now, text, source, id);
        lemma_texts_add(a, now, chunks, source, id);
        lemma_adds_both(
            map,
            a,
            with_texts(a, now, chunks, source),
            id,
            source,
            text_shows(text, now, id, false),
            text_shows(text, now, id, true),
            some_text_shows(chunks, now, id, false),
            some_text_shows(chunks, now, id, true),
        );
    }
}

// ---------------------------------------------------------------------------
// Browsers' files
// ---------------------------------------------------------------------------

/// A piece of a browser's file shows the account: by the address of a profile, by
/// a parameter, or by an encoded object.
pub open spec fn context_shows(text: Seq<char>, now: int, id: Seq<char>, named: bool) -> bool {
    ||| !named && id_matched(
        regex_matches(r#"(?i)discord(?:app)?\.com/users/(\d{17,20})"#@, text),
        now,
        id,
    )
    ||| !named && id_matched(
        regex_matches(r#"(?i)(?:\bdiscord_id=)(\d{17,20})"#@, text),
        now,
        id,
    )
    ||| user_matched(
        regex_matches(
            r#"(?is)%22id%22%3a%22(?P<id>\d{17,20})%22.{0,1200}?%22username%22%3a%22(?P<username>[A-Za-z0-9_.-]{2,64})%22"#@,
            text,
        ),
        now,
        2,
        1,
        None,
        id,
        named,
    )
    ||| user_matched(
        regex_matches(
            r#"(?is)%22username%22%3a%22(?P<username>[A-Za-z0-9_.-]{2,64})%22.{0,1200}?%22id%22%3a%22(?P<id>\d{17,20})%22"#@,
            text,
        ),
        now,
        1,
        2,
        None,
        id,
        named,
    )
}

proof fn lemma_context_adds(
    map: Map<Seq<char>, DiscordCandidateView>,
    now: int,
    text: Seq<char>,
    source: Seq<char>,
    id: Seq<char>,
)
    ensures
        adds(
            map,
            with_context_text(map, now, text, source),
            id,
            source,
            context_shows(text, now, id, false),
            context_shows(text, now, id, true),
        ),
{
    let urls = regex_matches(crate::discord_accounts::PROFILE_URL_PATTERN@, text);
    let params = regex_matches(crate::discord_accounts::ID_PARAMETER_PATTERN@, text);
    let forward = regex_matches(crate::discord_accounts::ENCODED_ID_THEN_NAME_PATTERN@, text);
    let backward = regex_matches(crate::discord_accounts::ENCODED_NAME_THEN_ID_PATTERN@, text);
    let a = with_id_matches(map, now, urls, source);
    let b = with_id_matches(a, now, params, source);
    let c = with_user_matches(b, now, forward, 2, 1, None, source);
    let d = with_user_matches(c, now, backward, 1, 2, None, source);
    let s1 = id_matched(urls, now, id);
    let s2 = id_matched(params, now, id);
    let s3 = user_matched(forward, now, 2, 1, None, id, false);
    let n3 = user_matched(forward, now, 2, 1, None, id, true);
    let s4 = user_matched(backward, now, 1, 2, None, id, false);
    let n4 = user_matched(backward, now, 1, 2, None, id, true);
    lemma_id_matches_add(map, now, urls, source, id);
    lemma_id_matches_add(a, now, params, source, id);
    lemma_user_matches_add(b, now, forward, 2, 1, None, source, id);
    lemma_user_matches_add(c, now, backward, 1, 2, None, source, id);
    lemma_adds_both(map, a, b, id, source, s1, false, s2, false);
    lemma_adds_both(map, b, c, id, source, s1 || s2, false, s3, n3);
    lemma_adds_both(map, c, d, id, source, s1 || s2 || s3, n3, s4, n4);
}

/// One of the pieces that may hold an account shows it.
pub open spec fn some_chunk_shows(chunks: Seq<Seq<char>>, now: int, id: Seq<char>, named: bool) -> bool {
    exists|i: int|
        0 <= i < chunks.len() && is_relevant_chunk(#[trigger] chunks[i]) && context_shows(
            chunks[i],
            now,
            id,
            named,
        )
}

proof fn lemma_some_chunk(chunks: Seq<Seq<char>>, now: int, id: Seq<char>, named: bool)
    requires
        chunks.len() > 0,
    ensures
        some_chunk_shows(chunks, now, id, named) <==> some_chunk_shows(
            chunks.drop_last(),
            now,
            id,
            named,
        ) || (is_relevant_chunk(chunks.last()) && context_shows(chunks.last(), now, id, named)),
{
    let rest = chunks.drop_last();
    assert(chunks[chunks.len() - 1] == chunks.last());
    if some_chunk_shows(rest, now, id, named) {
        let i = choose|i: int|
            0 <= i < rest.len() && is_relevant_chunk(#[trigger] rest[i]) && context_shows(
                rest[i],
                now,
                id,
                named,
            );
        assert(chunks[i] == rest[i]);
    }
    if some_chunk_shows(chunks, now, id, named) {
        let i = choose|i: int|
            0 <= i < chunks.len() && is_relevant_chunk(#[trigger] chunks[i]) && context_shows(
                chunks[i],
                now,
                id,
                named,
            );
        if i < rest.len() {
            assert(chunks[i] == rest[i]);
        }
    }
}

/// The pieces of a browser's file add an account exactly where one that may hold
/// an account shows it.
pub proof fn law_context_adds(
    map: Map<Seq<char>, DiscordCandidateView>,
    now: int,
    chunks: Seq<Seq<char>>,
    source: Seq<char>,
    id: Seq<char>,
)
    ensures
        adds(
            map,
            with_context_chunks(map, now, chunks, source),
            id,
            source,
            some_chunk_shows(chunks, now, id, false),
            some_chunk_shows(chunks, now, id, true),
        ),
    decreases chunks.len(),
{
    if chunks.len() > 0 {
        let rest = chunks.drop_last();
        law_context_adds(map, now, rest, source, id);
        let before = with_context_chunks(map, now, rest, source);
        let last = chunks.last();
        let looked = is_relevant_chunk(last);
        lemma_context_adds(before, now, last, source, id);
        lemma_adds_both(
            map,
            before,
            with_context_chunks(map, now, chunks, source),
            id,
            source,
            some_chunk_shows(rest, now, id, false),
            some_chunk_shows(rest, now, id, true),
            looked && context_shows(last, now, id, false),
            looked && context_shows(last, now, id, true),
        );
        lemma_some_chunk(chunks, now, id, false);
        lemma_some_chunk(chunks, now, id, true);
    }
}

// ---------------------------------------------------------------------------
// Directories
// ---------------------------------------------------------------------------

/// An entry shows the account: its key names a store of the owner, and the key or
/// the value shows it.
pub open spec fn entry_shows(
    key: Seq<u8>,
    value: Option<Seq<u8>>,
    now: int,
    id: Seq<char>,
    named: bool,
) -> bool {
    is_owner_key(key) && (bytes_show(key, now, id, named) || (value is Some && bytes_show(
        value->0,
        now,
        id,
        named,
    )))
}

proof fn lemma_entry_adds(
    map: Map<Seq<char>, DiscordCandidateView>,
    now: int,
    key: Seq<u8>,
    value: Option<Seq<u8>>,
    source: Seq<char>,
    id: Seq<char>,
)
    ensures
        adds(
            map,
            with_entry(map, now, key, value, source),
            id,
            source,
            entry_shows(key, value, now, id, false),
            entry_shows(key, value, now, id, true),
        ),
{
    if is_owner_key(key) {
        let a = with_bytes(map, now, key, source);
        law_bytes_add(map, now, key, source, id);
        if value is Some {
            law_bytes_add(a, now, value->0, source, id);
            lemma_adds_both(
                map,
                a,
                with_bytes(a, now, value->0, source),
                id,
                source,
                bytes_show(key, now, id, false),
                bytes_show(key, now, id, true),
                bytes_show(value->0, now, id, false),
                bytes_show(value->0, now, id, true),
            );
        }
    }
}

/// Some entry of a table shows the account.
pub open spec fn table_shows(entries: Seq<LdbEntryView>, now: int, id: Seq<char>, named: bool) -> bool {
    exists|i: int|
        0 <= i < entries.len() && entry_shows(
            (#[trigger] entries[i]).user_key,
            Some(entries[i].value),
            now,
            id,
            named,
        )
}

proof fn lemma_table_shows(entries: Seq<LdbEntryView>, now: int, id: Seq<char>, named: bool)
    requires
        entries.len() > 0,
    ensures
        table_shows(entries, now, id, named) <==> table_shows(entries.drop_last(), now, id, named)
            || entry_shows(
            entries.last().user_key,
            Some(entries.last().value),
            now,
            id,
            named,
        ),
{
    let rest = entries.drop_last();
    assert(entries[entries.len() - 1] == entries.last());
    if table_shows(rest, now, id, named) {
        let i = choose|i: int|
            0 <= i < rest.len() && entry_shows(
                (#[trigger] rest[i]).user_key,
                Some(rest[i].value),
                now,
                id,
                named,
            );
        assert(entries[i] == rest[i]);
    }
    if table_shows(entries, now, id, named) {
        let i = choose|i: int|
            0 <= i < entries.len() && entry_shows(
                (#[trigger] entries[i]).user_key,
                Some(entries[i].value),
                now,
                id,
                named,
            );
        if i < rest.len() {
            assert(entries[i] == rest[i]);
        }
    }
}

proof fn lemma_table_adds(
    map: Map<Seq<char>, DiscordCandidateView>,
    now: int,
    entries: Seq<LdbEntryView>,
    source: Seq<char>,
    id: Seq<char>,
)
    ensures
        adds(
            map,
            with_table(map, now, entries, source),
            id,
            source,
            table_shows(entries, now, id, false),
            table_shows(entries, now, id, true),
        ),
    decreases entries.len(),
{
    if entries.len() > 0 {
        let rest = entries.drop_last();
        let e = entries.last();
        lemma_table_adds(map, now, rest, source, id);
        let before = with_table(map, now, rest, source);
        lemma_entry_adds(before, now, e.user_key, Some(e.value), source, id);
        lemma_adds_both(
            map,
            before,
            with_table(map, now, entries, source),
            id,
            source,
            table_shows(rest, now, id, false),
            table_shows(rest, now, id, true),
            entry_shows(e.user_key, Some(e.value), now, id, false),
            entry_shows(e.user_key, Some(e.value), now, id, true),
        );
        lemma_table_shows(entries, now, id, false);
        lemma_table_shows(entries, now, id, true);
    }
}

/// Some operation of a batch shows the account.
pub open spec fn operations_show(ops: Seq<WalOperationView>, now: int, id: Seq<char>, named: bool) -> bool {
    exists|i: int|
        0 <= i < ops.len() && entry_shows((#[trigger] ops[i]).key, ops[i].value, now, id, named)
}

proof fn lemma_operations_show(ops: Seq<WalOperationView>, now: int, id: Seq<char>, named: bool)
    requires
        ops.len() > 0,
    ensures
        operations_show(ops, now, id, named) <==> operations_show(ops.drop_last(), now, id, named)
            || entry_shows(ops.last().key, ops.last().value, now, id, named),
{
    let rest = ops.drop_last();
    assert(ops[ops.len() - 1] == ops.last());
    if operations_show(rest, now, id, named) {
        let i = choose|i: int|
            0 <= i < rest.len() && entry_shows(
                (#[trigger] rest[i]).key,
                rest[i].value,
                now,
                id,
                named,
            );
        assert(ops[i] == rest[i]);
    }
    if operations_show(ops, now, id, named) {
        let i = choose|i: int|
            0 <= i < ops.len() && entry_shows((#[trigger] ops[i]).key, ops[i].value, now, id, named);
        if i < rest.len() {
            assert(ops[i] == rest[i]);
        }
    }
}

proof fn lemma_operations_add(
    map: Map<Seq<char>, DiscordCandidateView>,
    now: int,
    ops: Seq<WalOperationView>,
    source: Seq<char>,
    id: Seq<char>,
)
    ensures
        adds(
            map,
            with_operations(map, now, ops, source),
            id,
            source,
            operations_show(ops, now, id, false),
            operations_show(ops, now, id, true),
        ),
    decreases ops.len(),
{
    if ops.len() > 0 {
        let rest = ops.drop_last();
        let op = ops.last();
        lemma_operations_add(map, now, rest, source, id);
        let before = with_operations(map, now, rest, source);
        lemma_entry_adds(before, now, op.key, op.value, source, id);
        lemma_adds_both(
            map,
            before,
            with_operations(map, now, ops, source),
            id,
            source,
            operations_show(rest, now, id, false),
            operations_show(rest, now, id, true),
            entry_shows(op.key, op.value, now, id, false),
            entry_shows(op.key, op.value, now, id, true),
        );
        lemma_operations_show(ops, now, id, false);
        lemma_operations_show(ops, now, id, true);
    }
}

/// Some operation of some batch shows the account.
pub open spec fn batches_show(batches: Seq<WalBatchView>, now: int, id: Seq<char>, named: bool) -> bool {
    exists|i: int|
        0 <= i < batches.len() && operations_show(
            (#[trigger] batches[i]).operations,
            now,
            id,
            named,
        )
}

proof fn lemma_batches_show(batches: Seq<WalBatchView>, now: int, id: Seq<char>, named: bool)
    requires
        batches.len() > 0,
    ensures
        batches_show(batches, now, id, named) <==> batches_show(
            batches.drop_last(),
            now,
            id,
            named,
        ) || operations_show(batches.last().operations, now, id, named),
{
    let rest = batches.drop_last();
    assert(batches[batches.len() - 1] == batches.last());
    if batches_show(rest, now, id, named) {
        let i = choose|i: int|
            0 <= i < rest.len() && operations_show(
                (#[trigger] rest[i]).operations,
                now,
                id,
                named,
            );
        assert(batches[i] == rest[i]);
    }
    if batches_show(batches, now, id, named) {
        let i = choose|i: int|
            0 <= i < batches.len() && operations_show(
                (#[trigger] batches[i]).operations,
                now,
                id,
                named,
            );
        if i < rest.len() {
            assert(batches[i] == rest[i]);
        }
    }
}

proof fn lemma_batches_add(
    map: Map<Seq<char>, DiscordCandidateView>,
    now: int,
    batches: Seq<WalBatchView>,
    source: Seq<char>,
    id: Seq<char>,
)
    ensures
        adds(
            map,
            with_batches(map, now, batches, source),
            id,
            source,
            batches_show(batches, now, id, false),
            batches_show(batches, now, id, true),
        ),
    decreases batches.len(),
{
    if batches.len() > 0 {
        let rest = batches.drop_last();
        let ops = batches.last().operations;
        lemma_batches_add(map, now, rest, source, id);
        let before = with_batches(map, now, rest, source);
        lemma_operations_add(before, now, ops, source, id);
        lemma_adds_both(
            map,
            before,
            with_batches(map, now, batches, source),
            id,
            source,
            batches_show(rest, now, id, false),
            batches_show(rest, now, id, true),
            operations_show(ops, now, id, false),
            operations_show(ops, now, id, true),
        );
        lemma_batches_show(batches, now, id, false);
        lemma_batches_show(batches, now, id, true);
    }
}

/// A file of a directory shows the account: it is a table or a numbered log, and an
/// entry, an operation or a text in it does.
pub open spec fn file_shows(file: ParsedFileView, now: int, id: Seq<char>, named: bool) -> bool {
    is_leveldb_name(lower(file_name(file.path))) && match file.content {
        ContentView::Ldb(table) => table_shows(table.entries, now, id, named),
        ContentView::Wal(wal) => batches_show(wal.batches, now, id, named),
        ContentView::TextLog(lines) => text_shows(joined_lines(lines), now, id, named),
        ContentView::Error(_) => false,
    }
}

/// A file adds an account exactly where it shows it; the account is then seen in
/// that file.
pub proof fn law_file_adds(f: Findings, now: int, file: ParsedFileView, id: Seq<char>)
    ensures
        adds(
            f.candidates,
            with_file(f, now, file).candidates,
            id,
            file.path,
            file_shows(file, now, id, false),
            file_shows(file, now, id, true),
        ),
{
    match file.content {
        ContentView::Ldb(table) => {
            lemma_table_adds(f.candidates, now, table.entries, file.path, id);
        },
        ContentView::Wal(wal) => {
            lemma_batches_add(f.candidates, now, wal.batches, file.path, id);
        },
        ContentView::TextLog(lines) => {
            law_text_adds(f.candidates, now, joined_lines(lines), file.path, id);
        },
        ContentView::Error(_) => {},
    }
}

/// How many of `files` are tables or numbered logs.
pub open spec fn leveldb_files(files: Seq<ParsedFileView>) -> nat
    decreases files.len(),
{
    if files.len() == 0 {
        0
    } else {
        leveldb_files(files.drop_last()) + if is_leveldb_name(
            lower(file_name(files.last().path)),
        ) {
            1nat
        } else {
            0nat
        }
    }
}

#[verifier::rlimit(30)]
proof fn lemma_files_add(f: Findings, now: int, files: Seq<ParsedFileView>, id: Seq<char>)
    ensures
        ({
            let before = f.candidates;
            let after = with_files(f, now, files).candidates;
            let key = id_key(id);
            let shown = exists|i: int|
                0 <= i < files.len() && file_shows(#[trigger] files[i], now, id, false);
            &&& after.dom().contains(key) <==> before.dom().contains(key) || shown
            &&& forall|i: int|
                0 <= i < files.len() && file_shows(#[trigger] files[i], now, id, false)
                    ==> after[key].sources.contains(files[i].path)
            &&& forall|i: int|
                0 <= i < files.len() && file_shows(#[trigger] files[i], now, id, true)
                    ==> after[key].username != "unknown"@
            &&& before.dom().contains(key) ==> before[key].sources.subset_of(after[key].sources)
            &&& before.dom().contains(key) && before[key].username != "unknown"@
                ==> after[key].username == before[key].username
            &&& before.dom().contains(key) && !shown ==> after[key] == before[key]
            &&& with_files(f, now, files).files == f.files + leveldb_files(files)
        }),
    decreases files.len(),
{
    if files.len() > 0 {
        let rest = files.drop_last();
        let last = files.last();
        lemma_files_add(f, now, rest, id);
        let g = with_files(f, now, rest);
        law_file_adds(g, now, last, id);
        let key = id_key(id);
        let before = f.candidates;
        let mid = g.candidates;
        let after = with_files(f, now, files).candidates;
        assert(files[files.len() - 1] == last);
        let shown_rest = exists|i: int|
            0 <= i < rest.len() && file_shows(#[trigger] rest[i], now, id, false);
        let shown = exists|i: int|
            0 <= i < files.len() && file_shows(#[trigger] files[i], now, id, false);
        if shown_rest {
            let i = choose|i: int|
                0 <= i < rest.len() && file_shows(#[trigger] rest[i], now, id, false);
            assert(files[i] == rest[i]);
        }
        if shown {
            let i = choose|i: int|
                0 <= i < files.len() && file_shows(#[trigger] files[i], now, id, false);
            if i < rest.len() {
                assert(files[i] == rest[i]);
            }
        }
        assert forall|i: int|
            0 <= i < files.len() && file_shows(
                #[trigger] files[i],
                now,
                id,
                false,
            ) implies after[key].sources.contains(files[i].path) by {
            if i < rest.len() {
                assert(files[i] == rest[i]);
                assert(mid[key].sources.contains(rest[i].path));
                assert(mid.dom().contains(key));
            }
        }
        assert forall|i: int|
            0 <= i < files.len() && file_shows(#[trigger] files[i], now, id, true) implies after[
            key].username != "unknown"@ by {
            if i < rest.len() {
                assert(files[i] == rest[i]);
                lemma_named_shown(rest[i], now, id);
                assert(mid.dom().contains(key));
                assert(mid[key].username != "unknown"@);
            }
        }
    }
}

/// What shows an account with a name shows it.
proof fn lemma_named_shown(file: ParsedFileView, now: int, id: Seq<char>)
    ensures
        file_shows(file, now, id, true) ==> file_shows(file, now, id, false),
{
    let none = Findings {
        candidates: Map::empty(),
        files: 0,
        warnings: Seq::empty(),
    };
    law_file_adds(none, now, file, id);
}

/// Every file of a directory is looked at, and in it every entry of every table and
/// every operation of every batch whose key names a store of the owner: the
/// accounts in their keys and values are candidates afterwards, seen in that file.
/// Nothing else adds one, and no candidate that was there is lost.
pub proof fn law_directory_adds(
    f: Findings,
    now: int,
    dir: Seq<char>,
    result: ScanResultView,
    id: Seq<char>,
)
    ensures
        ({
            let before = f.candidates;
            let after = with_directory(
                f,
                now,
                dir,
                Ok::<ScanResultView, Seq<char>>(result),
            ).candidates;
            let key = id_key(id);
            &&& after.dom().contains(key) <==> before.dom().contains(key) || exists|i: int|
                0 <= i < result.files.len() && file_shows(
                    #[trigger] result.files[i],
                    now,
                    id,
                    false,
                )
            &&& forall|i: int|
                0 <= i < result.files.len() && file_shows(
                    #[trigger] result.files[i],
                    now,
                    id,
                    false,
                ) ==> after[key].sources.contains(result.files[i].path)
            &&& forall|i: int|
                0 <= i < result.files.len() && file_shows(
                    #[trigger] result.files[i],
                    now,
                    id,
                    true,
                ) ==> after[key].username != "unknown"@
            &&& before.dom().contains(key) ==> before[key].sources.subset_of(after[key].sources)
            &&& with_directory(f, now, dir, Ok::<ScanResultView, Seq<char>>(result)).files
                == f.files + leveldb_files(result.files)
        }),
{
    lemma_files_add(f, now, result.files, id);
}

/// An operation anywhere in a numbered log, and an entry anywhere in a table, is
/// looked at.
pub proof fn law_every_operation_counts(
    f: Findings,
    now: int,
    dir: Seq<char>,
    result: ScanResultView,
    i: int,
    batch: int,
    operation: int,
    id: Seq<char>,
)
    requires
        0 <= i < result.files.len(),
        is_leveldb_name(lower(file_name(result.files[i].path))),
    ensures
        ({
            let after = with_directory(
                f,
                now,
                dir,
                Ok::<ScanResultView, Seq<char>>(result),
            ).candidates;
            let listed = after.dom().contains(id_key(id)) && after[id_key(id)].sources.contains(
                result.files[i].path,
            );
            &&& result.files[i].content matches ContentView::Wal(wal) ==> (0 <= batch
                < wal.batches.len() && 0 <= operation < wal.batches[batch].operations.len() ==> {
                let op = wal.batches[batch].operations[operation];
                is_owner_key(op.key) && (bytes_show(op.key, now, id, false) || (op.value is Some
                    && bytes_show(op.value->0, now, id, false))) ==> listed
            })
            &&& result.files[i].content matches ContentView::Ldb(table) ==> (0 <= operation
                < table.entries.len() ==> {
                let e = table.entries[operation];
                is_owner_key(e.user_key) && (bytes_show(e.user_key, now, id, false) || bytes_show(
                    e.value,
                    now,
                    id,
                    false,
                )) ==> listed
            })
        }),
{
    law_directory_adds(f, now, dir, result, id);
    let file = result.files[i];
    match file.content {
        ContentView::Wal(wal) => {
            if 0 <= batch < wal.batches.len() && 0 <= operation
                < wal.batches[batch].operations.len() {
                let op = wal.batches[batch].operations[operation];
                if entry_shows(op.key, op.value, now, id, false) {
                    assert(operations_show(wal.batches[batch].operations, now, id, false));
                    assert(batches_show(wal.batches, now, id, false));
                    assert(file_shows(file, now, id, false));
                }
            }
        },
        ContentView::Ldb(table) => {
            if 0 <= operation < table.entries.len() {
                let e = table.entries[operation];
                if entry_shows(e.user_key, Some(e.value), now, id, false) {
                    assert(table_shows(table.entries, now, id, false));
                    assert(file_shows(file, now, id, false));
                }
            }
        },
        _ => {},
    }
}

// ---------------------------------------------------------------------------
// Words
// ---------------------------------------------------------------------------

/// A key is one of the owner's where it contains the name of one of three stores,
/// in any case.
pub proof fn law_owner_keys(key: Seq<u8>)
    ensures
        is_owner_key(key) <==> contains(lower(utf8_lossy(key)), "multiaccountstore"@) || contains(
            lower(utf8_lossy(key)),
            "test/token"@,
        ) || contains(lower(utf8_lossy(key)), "user_id_cache"@),
{
}

/// A name of digits with `.log` behind them is that of a numbered log, and any name
/// with `.ldb` behind it is that of a table. A log whose name is not a number is
/// none.
pub proof fn law_leveldb_names(stem: Seq<char>)
    ensures
        is_leveldb_name(stem + ".ldb"@),
        is_leveldb_name(stem + ".log"@) <==> all_digits(stem),
{
    let table = stem + ".ldb"@;
    let log = stem + ".log"@;
    reveal_strlit(".ldb");
    reveal_strlit(".log");
    reveal_strlit(".");
    reveal_strlit("log");
    assert(table.subrange(table.len() - 4, table.len() as int) =~= ".ldb"@);
    let dot = stem.len() as int;
    assert(log.subrange(dot, dot + 1) =~= "."@);
    assert(crate::text::is_last_at(log, "."@, dot)) by {
        assert forall|j: int| j > dot implies !occurs_at(log, "."@, j) by {
            if occurs_at(log, "."@, j) {
                assert(log.subrange(j, j + 1)[0] == log[j]);
                assert("."@[0] == '.');
            }
        }
    }
    lemma_last_at(log, "."@, dot);
    assert(log.skip(dot + 1) =~= "log"@);
    assert(log.take(dot) =~= stem);
    if ends_with(log, ".ldb"@) {
        assert(log.subrange(log.len() - 4, log.len() as int)[2] == 'o');
        assert(".ldb"@[2] == 'd');
    }
}

/// The keys below which other users are described, in any case, and no others.
pub proof fn law_foreign_keys(key: Seq<char>)
    ensures
        is_foreign_key(key) <==> lower(key) == "other_user"@ || lower(key) == "otheruser"@ || lower(
            key,
        ) == "recipient"@ || lower(key) == "author"@ || lower(key) == "sender"@ || lower(key)
            == "member"@ || lower(key) == "mentioned_users"@,
{
}

/// A piece of a browser's file may hold an account where it names Discord together
/// with the address of a profile or an encoded user, or a parameter with an id.
pub proof fn law_relevant_chunks(text: Seq<char>)
    ensures
        contains(lower(text), "discord_id="@) ==> is_relevant_chunk(text),
        contains(lower(text), "discord"@) && (contains(lower(text), "discord.com/users/"@)
            || contains(lower(text), "discordapp.com/users/"@)) ==> is_relevant_chunk(text),
        contains(lower(text), "discord"@) && contains(lower(text), "%22id%22%3a%22"@) && contains(
            lower(text),
            "%22username%22%3a%22"@,
        ) ==> is_relevant_chunk(text),
        !contains(lower(text), "discord"@) && !contains(lower(text), "discord_id="@)
            ==> !is_relevant_chunk(text),
        !contains(lower(text), "discord_id="@) && !contains(lower(text), "/users/"@) && !contains(
            lower(text),
            "%22id%22%3a%22"@,
        ) ==> !is_relevant_chunk(text),
{
    let t = lower(text);
    assert("discord.com/users/"@.subrange(11, 18) =~= "/users/"@ && "discord.com/users/"@.len()
        == 18 && "/users/"@.len() == 7) by {
        reveal_strlit("discord.com/users/");
        reveal_strlit("/users/");
    }
    assert("discordapp.com/users/"@.subrange(14, 21) =~= "/users/"@
        && "discordapp.com/users/"@.len() == 21) by {
        reveal_strlit("discordapp.com/users/");
        reveal_strlit("/users/");
    }
    if contains(t, "discord.com/users/"@) {
        let i = choose|i: int| occurs_at(t, "discord.com/users/"@, i);
        assert(t.subrange(i + 11, i + 18) =~= t.subrange(i, i + 18).subrange(11, 18));
        assert(occurs_at(t, "/users/"@, i + 11));
    }
    if contains(t, "discordapp.com/users/"@) {
        let i = choose|i: int| occurs_at(t, "discordapp.com/users/"@, i);
        assert(t.subrange(i + 14, i + 21) =~= t.subrange(i, i + 21).subrange(14, 21));
        assert(occurs_at(t, "/users/"@, i + 14));
    }
}

/// The printable runs of at least `min_len` bytes, all of them.
pub open spec fn all_runs(bytes: Seq<u8>, min_len: nat) -> Seq<Seq<char>> {
    let runs = printable_runs(bytes, min_len);
    if runs.current.len() >= min_len {
        runs.done.push(runs.current)
    } else {
        runs.done
    }
}

proof fn lemma_runs_parted(a: Seq<u8>, c: u8, b: Seq<u8>, min_len: nat)
    requires
        !is_printable(c),
    ensures
        printable_runs(a.push(c) + b, min_len).done == all_runs(a, min_len) + printable_runs(
            b,
            min_len,
        ).done,
        printable_runs(a.push(c) + b, min_len).current == printable_runs(b, min_len).current,
    decreases b.len(),
{
    let whole = a.push(c) + b;
    if b.len() == 0 {
        assert(whole =~= a.push(c));
        assert(whole.drop_last() =~= a);
        assert(all_runs(a, min_len) + Seq::<Seq<char>>::empty() =~= all_runs(a, min_len));
    } else {
        let rest = b.drop_last();
        lemma_runs_parted(a, c, rest, min_len);
        assert(whole.drop_last() =~= a.push(c) + rest);
        assert(whole.last() == b.last());
        let left = all_runs(a, min_len);
        let runs = printable_runs(rest, min_len);
        assert((left + runs.done).push(runs.current) =~= left + runs.done.push(runs.current));
    }
}

proof fn lemma_run_whole(bytes: Seq<u8>, min_len: nat)
    requires
        forall|i: int| 0 <= i < bytes.len() ==> is_printable(#[trigger] bytes[i]),
    ensures
        printable_runs(bytes, min_len).done.len() == 0,
        printable_runs(bytes, min_len).current == bytes.map_values(|b: u8| b as char),
    decreases bytes.len(),
{
    let text = bytes.map_values(|b: u8| b as char);
    if bytes.len() > 0 {
        let rest = bytes.drop_last();
        assert forall|i: int| 0 <= i < rest.len() implies is_printable(#[trigger] rest[i]) by {
            assert(rest[i] == bytes[i]);
        }
        lemma_run_whole(rest, min_len);
        assert(is_printable(bytes[bytes.len() - 1]));
        assert(text =~= rest.map_values(|b: u8| b as char).push(bytes.last() as char));
    } else {
        assert(text =~= Seq::empty());
    }
}

/// A byte that is not printable parts the runs: those of the whole are those before
/// it and those behind it. Printable bytes alone are one run where they are
/// enough. Of all runs the first ones are taken, as many as asked for.
pub proof fn law_printable_runs(a: Seq<u8>, c: u8, b: Seq<u8>, min_len: nat, max_chunks: nat)
    requires
        max_chunks > 0,
    ensures
        printable_chunks(a, min_len, max_chunks) == if all_runs(a, min_len).len() > max_chunks {
            all_runs(a, min_len).take(max_chunks as int)
        } else {
            all_runs(a, min_len)
        },
        !(c == 9 || c == 10 || c == 13 || 32 <= c <= 126) ==> all_runs(a.push(c) + b, min_len)
            == all_runs(a, min_len) + all_runs(b, min_len),
        (forall|i: int|
            0 <= i < a.len() ==> (#[trigger] a[i]) == 9 || a[i] == 10 || a[i] == 13 || 32 <= a[i]
                <= 126) && a.len() >= min_len ==> all_runs(a, min_len) == seq![
            a.map_values(|x: u8| x as char),
        ],
{
    if !is_printable(c) {
        lemma_runs_parted(a, c, b, min_len);
        let left = all_runs(a, min_len);
        let runs = printable_runs(b, min_len);
        assert((left + runs.done).push(runs.current) =~= left + runs.done.push(runs.current));
    }
    if forall|i: int|
        0 <= i < a.len() ==> (#[trigger] a[i]) == 9 || a[i] == 10 || a[i] == 13 || 32 <= a[i]
            <= 126 {
        lemma_run_whole(a, min_len);
        assert(Seq::<Seq<char>>::empty().push(a.map_values(|x: u8| x as char)) =~= seq![
            a.map_values(|x: u8| x as char),
        ]);
        if a.len() >= min_len {
            assert(all_runs(a, min_len) =~= seq![a.map_values(|x: u8| x as char)]);
        }
    }
}

/// A match is about another user where the last word about a user in the 260 bytes
/// before it is one for another user, and not where none of those words is there.
pub proof fn law_foreign_near(text: Seq<u8>, pos: int, word: Seq<char>)
    requires
        0 <= pos <= text.len(),
    ensures
        ({
            let w = text.subrange(
                if pos < 260 {
                    0
                } else {
                    pos - 260
                },
                pos,
            );
            let is_word = word == "\"other_user\""@ || word == "\"otheruser\""@ || word
                == "\"recipient\""@ || word == "\"author\""@ || word == "\"sender\""@ || word
                == "\"member\""@;
            let is_owner = word == "\"current_user\""@ || word == "\"currentuser\""@ || word
                == "\"users\""@ || word == "\"tokenstatus\""@ || word == "\"multiaccountstore\""@;
            &&& is_word && contains(w, encode_utf8(word)) && last_owner(w) is None
                ==> is_foreign_near(text, pos)
            &&& last_foreign(w) is None ==> !is_foreign_near(text, pos)
            &&& is_word && contains(w, encode_utf8(word)) ==> last_foreign(w) is Some && last_word(
                w,
                word,
            ) is Some && last_word(w, word)->0 <= last_foreign(w)->0
            &&& is_owner && contains(w, encode_utf8(word)) ==> last_owner(w) is Some && last_word(
                w,
                word,
            ) is Some && last_word(w, word)->0 <= last_owner(w)->0
            &&& last_foreign(w) is Some && last_owner(w) is Some ==> (is_foreign_near(text, pos)
                <==> last_owner(w)->0 <= last_foreign(w)->0)
        }),
{
}

} // verus!
