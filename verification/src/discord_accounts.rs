//! Discord accounts: how ids and names are read from JSON values, matches,
//! tokens and files, and what is made of them in the end.

use vstd::prelude::*;
use vstd::utf8::{decode_utf8, encode_utf8, valid_utf8};

use crate::discord_text::{
    decode_token_user_id_at, discord_context_chunk_looks_relevant, discord_id, discord_name,
    extract_json_fragments, extract_printable_chunks, is_foreign_context_near_position,
    is_foreign_discord_user_key, is_foreign_key, is_foreign_near, is_relevant_chunk, json_fragments,
    law_discord_id_stable, law_discord_name_stable, normalize_discord_id_at,
    normalize_discord_username, normalize_escaped_json_text, printable_chunks, token_user_id,
    unescaped,
};
use crate::json::{
    find_member, has_member, json_parsed, lemma_list_model, lemma_object_model, list_model, member,
    object_model, parse_json, Json, JsonView,
};
use crate::minecraft_accounts::counted_up;
use crate::order::{OrderedMap, TextSet};
use crate::outside::{find_matches, group, regex_matches, utc_now_ms, RegexMatch};
use crate::paths::{profile_key, profile_key_from_path};
use crate::std_text::{utf8_lossy, utf8_text, utf8_text_lossy};
use crate::text::{
    begins_with, chars_of, lower, same_text, starts_with, string_of, to_lower, trim, trim_chars,
    CharClass,
};
use crate::text_bytes::{byte_len, lemma_lower_byte_len};
use crate::views::{push_view, views};

verus! {

pub const MAX_DISCORD_TEXT_BYTES: usize = 4_000_000;

// ---------------------------------------------------------------------------
// Patterns
// ---------------------------------------------------------------------------

/// An object with a name and, behind it, an id: groups 1 and 2.
pub const NAME_THEN_ID_PATTERN: &'static str =
    r#"(?s)\{[^{}]{0,1400}\"username\"\s*:\s*\"(?P<username>[A-Za-z0-9_.-]{2,64})\"[^{}]{0,1400}\"id\"\s*:\s*\"(?P<id>\d{17,20})\"[^{}]*\}"#;

/// An object with an id and, behind it, a name: groups 1 and 2.
pub const ID_THEN_NAME_PATTERN: &'static str =
    r#"(?s)\{[^{}]{0,1400}\"id\"\s*:\s*\"(?P<id>\d{17,20})\"[^{}]{0,1400}\"username\"\s*:\s*\"(?P<username>[A-Za-z0-9_.-]{2,64})\"[^{}]*\}"#;

pub const TOKEN_PATTERN: &'static str =
    r"([A-Za-z0-9_-]{23,28})\.([A-Za-z0-9_-]{6,8})\.([A-Za-z0-9_-]{20,110})";

pub const PROFILE_URL_PATTERN: &'static str = r#"(?i)discord(?:app)?\.com/users/(\d{17,20})"#;

pub const ID_PARAMETER_PATTERN: &'static str = r#"(?i)(?:\bdiscord_id=)(\d{17,20})"#;

/// An encoded object with an id and, behind it, a name: groups 1 and 2.
pub const ENCODED_ID_THEN_NAME_PATTERN: &'static str =
    r#"(?is)%22id%22%3a%22(?P<id>\d{17,20})%22.{0,1200}?%22username%22%3a%22(?P<username>[A-Za-z0-9_.-]{2,64})%22"#;

/// An encoded object with a name and, behind it, an id: groups 1 and 2.
pub const ENCODED_NAME_THEN_ID_PATTERN: &'static str =
    r#"(?is)%22username%22%3a%22(?P<username>[A-Za-z0-9_.-]{2,64})%22.{0,1200}?%22id%22%3a%22(?P<id>\d{17,20})%22"#;

// ---------------------------------------------------------------------------
// Candidates
// ---------------------------------------------------------------------------

/// An id, the name it goes with, and where it was seen.
#[derive(Debug)]
pub struct DiscordCandidate {
    pub username: String,
    pub id: Option<String>,
    pub sources: TextSet,
    pub profile_keys: TextSet,
    pub evidence_hits: usize,
}

#[verifier::ext_equal]
pub struct DiscordCandidateView {
    pub username: Seq<char>,
    pub id: Option<Seq<char>>,
    pub sources: Set<Seq<char>>,
    pub profile_keys: Set<Seq<char>>,
    pub evidence_hits: nat,
}

impl View for DiscordCandidate {
    type V = DiscordCandidateView;

    open spec fn view(&self) -> DiscordCandidateView {
        DiscordCandidateView {
            username: self.username@,
            id: crate::views::opt_view(self.id),
            sources: self.sources@,
            profile_keys: self.profile_keys@,
            evidence_hits: self.evidence_hits as nat,
        }
    }
}

/// The key of an id among the candidates.
pub open spec fn id_key(id: Seq<char>) -> Seq<char> {
    "id:"@ + id
}

/// A candidate has an accepted id, and an accepted name or none.
pub open spec fn is_valid_candidate(c: DiscordCandidateView, now: int) -> bool {
    &&& c.id is Some
    &&& discord_id(c.id->0, now) == c.id
    &&& c.username == "unknown"@ || discord_name(c.username) == Some(c.username)
}

/// Every candidate is valid and stands under the key of its id.
pub open spec fn keyed_by_id(map: Map<Seq<char>, DiscordCandidateView>, now: int) -> bool {
    forall|key: Seq<char>| #[trigger]
        map.dom().contains(key) ==> is_valid_candidate(map[key], now) && key == id_key(
            map[key].id->0,
        )
}

/// The ids seen so far, and the time against which ids are checked.
#[derive(Debug)]
pub struct DiscordCandidates {
    now_ms: i64,
    entries: OrderedMap<String, DiscordCandidate>,
}

impl View for DiscordCandidates {
    type V = Map<Seq<char>, DiscordCandidateView>;

    closed spec fn view(&self) -> Map<Seq<char>, DiscordCandidateView> {
        self.entries@
    }
}

impl DiscordCandidates {
    #[verifier::type_invariant]
    closed spec fn wf(self) -> bool {
        keyed_by_id(self.entries@, self.now_ms as int)
    }

    /// The time against which ids are checked, in milliseconds since 1970.
    pub closed spec fn now(&self) -> int {
        self.now_ms as int
    }

    /// No candidates yet; ids are checked against the machine's clock as it
    /// stands now.
    pub fn new() -> (r: DiscordCandidates)
        ensures
            r@ == Map::<Seq<char>, DiscordCandidateView>::empty(),
            r.now() >= 0,
    {
        let now_ms: i64 = utc_now_ms();
        DiscordCandidates::at(now_ms)
    }

    /// No candidates yet; ids are checked against the time `now_ms`.
    pub fn at(now_ms: i64) -> (r: DiscordCandidates)
        ensures
            r@ == Map::<Seq<char>, DiscordCandidateView>::empty(),
            r.now() == now_ms,
    {
        DiscordCandidates { now_ms, entries: OrderedMap::new() }
    }

    pub fn len(&self) -> (r: usize)
        ensures
            self@.dom().finite(),
            r == self@.dom().len(),
            keyed_by_id(self@, self.now()),
    {
        proof {
            use_type_invariant(self);
        }
        self.entries.len()
    }

    pub fn is_empty(&self) -> (r: bool)
        ensures
            r == (self@ == Map::<Seq<char>, DiscordCandidateView>::empty()),
    {
        let n: usize = self.entries.len();
        proof {
            if n == 0 {
                assert(self@ =~= Map::<Seq<char>, DiscordCandidateView>::empty());
            }
        }
        n == 0
    }

    /// The candidates by their keys.
    pub fn into_entries(self) -> (r: OrderedMap<String, DiscordCandidate>)
        ensures
            r@ == self@,
            keyed_by_id(self@, self.now()),
    {
        proof {
            use_type_invariant(&self);
        }
        self.entries
    }

    /// The candidate under `key`.
    pub fn get(&self, key: &str) -> (r: Option<&DiscordCandidate>)
        ensures
            match r {
                Some(c) => self@.dom().contains(key@) && c@ == self@[key@] && is_valid_candidate(
                    c@,
                    self.now(),
                ),
                None => !self@.dom().contains(key@),
            },
    {
        proof {
            use_type_invariant(self);
        }
        self.entries.get(&key.to_string())
    }

    pub fn contains_key(&self, key: &str) -> (r: bool)
        ensures
            r == self@.dom().contains(key@),
    {
        self.get(key).is_some()
    }
}

/// The accepted name, where one is given.
pub open spec fn given_name(username: Option<Seq<char>>) -> Option<Seq<char>> {
    match username {
        Some(u) => discord_name(u),
        None => None,
    }
}

/// The accepted id, where one is given.
pub open spec fn given_id(id: Option<Seq<char>>, now: int) -> Option<Seq<char>> {
    match id {
        Some(i) => discord_id(i, now),
        None => None,
    }
}

/// An id that was not seen yet.
pub open spec fn new_account(id: Seq<char>, name: Option<Seq<char>>) -> DiscordCandidateView {
    DiscordCandidateView {
        username: match name {
            Some(n) => n,
            None => "unknown"@,
        },
        id: Some(id),
        sources: Set::empty(),
        profile_keys: Set::empty(),
        evidence_hits: 0,
    }
}

/// A candidate after it was seen once more, in `source` and with `name` where
/// that is known. The first name stays.
pub open spec fn seen_with(c: DiscordCandidateView, name: Option<Seq<char>>, source: Seq<char>) -> DiscordCandidateView {
    DiscordCandidateView {
        username: if c.username == "unknown"@ && name is Some {
            name->0
        } else {
            c.username
        },
        id: c.id,
        sources: c.sources.insert(source),
        profile_keys: match profile_key(source) {
            Some(profile) => c.profile_keys.insert(profile),
            None => c.profile_keys,
        },
        evidence_hits: counted_up(c.evidence_hits),
    }
}

/// The candidates after an account was seen in `source`. Without an id that is
/// accepted nothing changes.
pub open spec fn with_account_seen(
    map: Map<Seq<char>, DiscordCandidateView>,
    now: int,
    username: Option<Seq<char>>,
    id: Option<Seq<char>>,
    source: Seq<char>,
) -> Map<Seq<char>, DiscordCandidateView> {
    match given_id(id, now) {
        None => map,
        Some(nid) => {
            let key = id_key(nid);
            let name = given_name(username);
            let old_candidate = if map.dom().contains(key) {
                map[key]
            } else {
                new_account(nid, name)
            };
            map.insert(key, seen_with(old_candidate, name, source))
        },
    }
}

pub open spec fn opt_text(s: Option<&str>) -> Option<Seq<char>> {
    match s {
        Some(t) => Some(t@),
        None => None,
    }
}

pub fn insert_discord_candidate(
    map: &mut DiscordCandidates,
    username: Option<&str>,
    id: Option<&str>,
    source: &str,
)
    ensures
        final(map)@ == with_account_seen(
            old(map)@,
            old(map).now(),
            opt_text(username),
            opt_text(id),
            source@,
        ),
        final(map).now() == old(map).now(),
{
    proof {
        use_type_invariant(&*map);
    }
    let normalized_id = match id {
        Some(id) => match normalize_discord_id_at(id, map.now_ms) {
            Some(id) => id,
            None => {
                return;
            },
        },
        None => {
            return;
        },
    };
    let name = match username {
        Some(username) => normalize_discord_username(username),
        None => None,
    };
    let ghost known = given_name(opt_text(username));
    assert(crate::views::opt_view(name) == known);
    let mut key = "id:".to_string();
    key.push_str(normalized_id.as_str());
    let ghost id_text = normalized_id@;
    let mut candidate = match map.entries.get(&key) {
        Some(c) => DiscordCandidate {
            username: c.username.clone(),
            id: match &c.id {
                Some(id) => Some(id.clone()),
                None => None,
            },
            sources: c.sources.clone(),
            profile_keys: c.profile_keys.clone(),
            evidence_hits: c.evidence_hits,
        },
        None => DiscordCandidate {
            username: match &name {
                Some(name) => name.clone(),
                None => "unknown".to_string(),
            },
            id: Some(normalized_id),
            sources: TextSet::new(),
            profile_keys: TextSet::new(),
            evidence_hits: 0,
        },
    };
    let ghost before = candidate@;
    proof {
        law_discord_id_stable(id->0@, map.now(), map.now());
        if username is Some && discord_name(username->0@) is Some {
            law_discord_name_stable(username->0@);
        }
    }
    assert(is_valid_candidate(before, map.now()) && key@ == id_key(before.id->0));
    if same_text(candidate.username.as_str(), "unknown") {
        if let Some(name) = name {
            candidate.username = name;
        }
    }
    candidate.evidence_hits = candidate.evidence_hits.saturating_add(1);
    candidate.sources.insert(source.to_string());
    if let Some(profile) = profile_key_from_path(source) {
        candidate.profile_keys.insert(profile);
    }
    assert(candidate@ == seen_with(before, known, source@));
    let mut taken = DiscordCandidates::at(map.now_ms);
    std::mem::swap(map, &mut taken);
    let now_ms: i64 = taken.now_ms;
    let mut entries = taken.entries;
    entries.insert(key, candidate);
    *map = DiscordCandidates { now_ms, entries };
}

/// Without an accepted id nothing is recorded; a name alone is no account.
pub proof fn law_account_needs_id(
    map: Map<Seq<char>, DiscordCandidateView>,
    now: int,
    username: Option<Seq<char>>,
    id: Option<Seq<char>>,
    source: Seq<char>,
)
    requires
        given_id(id, now) is None,
    ensures
        with_account_seen(map, now, username, id, source) == map,
{
}

/// Seeing an account keeps all candidates valid.
pub proof fn law_candidates_valid(
    map: Map<Seq<char>, DiscordCandidateView>,
    now: int,
    username: Option<Seq<char>>,
    id: Option<Seq<char>>,
    source: Seq<char>,
)
    requires
        keyed_by_id(map, now),
    ensures
        keyed_by_id(with_account_seen(map, now, username, id, source), now),
{
    if id is Some && discord_id(id->0, now) is Some {
        law_discord_id_stable(id->0, now, now);
    }
    if username is Some && discord_name(username->0) is Some {
        law_discord_name_stable(username->0);
    }
}

/// `after` has all candidates of `before`: each keeps its id and a name that is
/// known, and loses no source and no profile.
pub open spec fn grown(
    before: Map<Seq<char>, DiscordCandidateView>,
    after: Map<Seq<char>, DiscordCandidateView>,
) -> bool {
    forall|key: Seq<char>| #[trigger]
        before.dom().contains(key) ==> after.dom().contains(key) && is_grown(before[key], after[key])
}

pub open spec fn is_grown(a: DiscordCandidateView, b: DiscordCandidateView) -> bool {
    &&& b.id == a.id
    &&& a.username != "unknown"@ ==> b.username == a.username
    &&& a.sources.subset_of(b.sources)
    &&& a.profile_keys.subset_of(b.profile_keys)
    &&& a.evidence_hits <= b.evidence_hits
}

pub proof fn lemma_grown_transitive(
    a: Map<Seq<char>, DiscordCandidateView>,
    b: Map<Seq<char>, DiscordCandidateView>,
    c: Map<Seq<char>, DiscordCandidateView>,
)
    requires
        grown(a, b),
        grown(b, c),
    ensures
        grown(a, c),
{
    assert forall|key: Seq<char>| #[trigger] a.dom().contains(key) implies c.dom().contains(key)
        && is_grown(a[key], c[key]) by {
        assert(b.dom().contains(key));
    }
}

/// Seeing an account takes no candidate away, and nothing known of one.
pub proof fn law_account_seen_grows(
    map: Map<Seq<char>, DiscordCandidateView>,
    now: int,
    username: Option<Seq<char>>,
    id: Option<Seq<char>>,
    source: Seq<char>,
)
    ensures
        grown(map, with_account_seen(map, now, username, id, source)),
{
}

/// An account seen with an accepted id and a name is listed, and under that name
/// unless another one was known.
pub proof fn law_account_recorded(
    map: Map<Seq<char>, DiscordCandidateView>,
    now: int,
    username: Seq<char>,
    id: Seq<char>,
    source: Seq<char>,
)
    requires
        discord_id(id, now) is Some,
        discord_name(username) is Some,
    ensures
        ({
            let key = id_key(discord_id(id, now)->0);
            let after = with_account_seen(map, now, Some(username), Some(id), source);
            &&& after.dom().contains(key)
            &&& after[key].sources.contains(source)
            &&& !map.dom().contains(key) || map[key].username == "unknown"@ ==> after[key].username
                == discord_name(username)->0
        }),
{
}

// ---------------------------------------------------------------------------
// Matches
// ---------------------------------------------------------------------------

/// The candidates after the id in the first group of each match was seen.
pub open spec fn with_id_matches(
    map: Map<Seq<char>, DiscordCandidateView>,
    now: int,
    matches: Seq<(int, Seq<Option<Seq<char>>>)>,
    source: Seq<char>,
) -> Map<Seq<char>, DiscordCandidateView>
    decreases matches.len(),
{
    if matches.len() == 0 {
        map
    } else {
        let before = with_id_matches(map, now, matches.drop_last(), source);
        match group(matches.last(), 1) {
            Some(id) => with_account_seen(before, now, None, Some(id), source),
            None => before,
        }
    }
}

pub fn insert_id_matches(map: &mut DiscordCandidates, matches: &Vec<RegexMatch>, source: &str)
    ensures
        final(map)@ == with_id_matches(old(map)@, old(map).now(), views(matches@), source@),
        final(map).now() == old(map).now(),
{
    let ghost all = views(matches@);
    let ghost start = map@;
    let ghost now = map.now();
    for i in 0..matches.len()
        invariant
            all == views(matches@),
            map.now() == now,
            map@ == with_id_matches(start, now, all.take(i as int), source@),
    {
        assert(all.take(i + 1).drop_last() =~= all.take(i as int));
        assert(all.take(i + 1).last() == matches@[i as int]@);
        if let Some(id) = matches[i].group_text(1) {
            insert_discord_candidate(map, None, Some(id.as_str()), source);
        }
    }
    assert(all.take(all.len() as int) =~= all);
}

/// The candidates after the name and the id in two groups of each match were
/// seen. Where `text` is given, a match that is about another user in it is
/// passed over.
pub open spec fn with_user_matches(
    map: Map<Seq<char>, DiscordCandidateView>,
    now: int,
    matches: Seq<(int, Seq<Option<Seq<char>>>)>,
    name_group: int,
    id_group: int,
    text: Option<Seq<char>>,
    source: Seq<char>,
) -> Map<Seq<char>, DiscordCandidateView>
    decreases matches.len(),
{
    if matches.len() == 0 {
        map
    } else {
        let before = with_user_matches(
            map,
            now,
            matches.drop_last(),
            name_group,
            id_group,
            text,
            source,
        );
        let m = matches.last();
        if text is Some && is_foreign_near(encode_utf8(text->0), m.0) {
            before
        } else {
            match (group(m, name_group), group(m, id_group)) {
                (Some(name), Some(id)) => with_account_seen(
                    before,
                    now,
                    Some(name),
                    Some(id),
                    source,
                ),
                _ => before,
            }
        }
    }
}

pub fn insert_user_matches(
    map: &mut DiscordCandidates,
    matches: &Vec<RegexMatch>,
    name_group: usize,
    id_group: usize,
    text: Option<&str>,
    source: &str,
)
    requires
        text is Some ==> forall|i: int|
            0 <= i < matches@.len() ==> (#[trigger] matches@[i]).start <= byte_len(text->0@),
    ensures
        final(map)@ == with_user_matches(
            old(map)@,
            old(map).now(),
            views(matches@),
            name_group as int,
            id_group as int,
            opt_text(text),
            source@,
        ),
        final(map).now() == old(map).now(),
{
    let ghost all = views(matches@);
    let ghost start = map@;
    let ghost now = map.now();
    for i in 0..matches.len()
        invariant
            all == views(matches@),
            map.now() == now,
            text is Some ==> forall|i: int|
                0 <= i < matches@.len() ==> (#[trigger] matches@[i]).start <= byte_len(text->0@),
            map@ == with_user_matches(
                start,
                now,
                all.take(i as int),
                name_group as int,
                id_group as int,
                opt_text(text),
                source@,
            ),
    {
        assert(all.take(i + 1).drop_last() =~= all.take(i as int));
        assert(all.take(i + 1).last() == matches@[i as int]@);
        let m = &matches[i];
        let foreign = match text {
            Some(t) => is_foreign_context_near_position(t, m.start),
            None => false,
        };
        if !foreign {
            if let Some(name) = m.group_text(name_group) {
                if let Some(id) = m.group_text(id_group) {
                    insert_discord_candidate(
                        map,
                        Some(name.as_str()),
                        Some(id.as_str()),
                        source,
                    );
                }
            }
        }
    }
    assert(all.take(all.len() as int) =~= all);
}

/// The candidates after the token that each match is was seen.
pub open spec fn with_token_matches(
    map: Map<Seq<char>, DiscordCandidateView>,
    now: int,
    matches: Seq<(int, Seq<Option<Seq<char>>>)>,
    source: Seq<char>,
) -> Map<Seq<char>, DiscordCandidateView>
    decreases matches.len(),
{
    if matches.len() == 0 {
        map
    } else {
        let before = with_token_matches(map, now, matches.drop_last(), source);
        match group(matches.last(), 1) {
            Some(segment) => match token_user_id(segment, now) {
                Some(id) => with_account_seen(before, now, None, Some(id), source),
                None => before,
            },
            None => before,
        }
    }
}

pub fn insert_token_matches(map: &mut DiscordCandidates, matches: &Vec<RegexMatch>, source: &str)
    ensures
        final(map)@ == with_token_matches(old(map)@, old(map).now(), views(matches@), source@),
        final(map).now() == old(map).now(),
{
    let ghost all = views(matches@);
    let ghost start = map@;
    let ghost now = map.now();
    for i in 0..matches.len()
        invariant
            all == views(matches@),
            map.now() == now,
            map@ == with_token_matches(start, now, all.take(i as int), source@),
    {
        assert(all.take(i + 1).drop_last() =~= all.take(i as int));
        assert(all.take(i + 1).last() == matches@[i as int]@);
        if let Some(segment) = matches[i].group_text(1) {
            if let Some(id) = decode_token_user_id_at(segment.as_str(), map.now_ms) {
                insert_discord_candidate(map, None, Some(id.as_str()), source);
            }
        }
    }
    assert(all.take(all.len() as int) =~= all);
}

pub fn extract_discord_ids_from_tokens(text: &str, source: &str, map: &mut DiscordCandidates)
    ensures
        final(map)@ == with_token_matches(
            old(map)@,
            old(map).now(),
            regex_matches(TOKEN_PATTERN@, text@),
            source@,
        ),
        final(map).now() == old(map).now(),
{
    let matches = find_matches(TOKEN_PATTERN, text);
    insert_token_matches(map, &matches, source);
}

// ---------------------------------------------------------------------------
// JSON values
// ---------------------------------------------------------------------------

/// The id that a JSON value is.
pub open spec fn value_id(value: JsonView, now: int) -> Option<Seq<char>> {
    match value {
        JsonView::Text(id) => discord_id(id, now),
        JsonView::Number(number) => discord_id(number, now),
        _ => None,
    }
}

/// The id that a JSON value is, checked against the time `now_ms`.
pub fn discord_id_from_value(value: &Json, now_ms: i64) -> (r: Option<String>)
    ensures
        match r {
            Some(id) => value_id(value.model(), now_ms as int) == Some(id@),
            None => value_id(value.model(), now_ms as int) is None,
        },
{
    match value {
        Json::Text(id) => normalize_discord_id_at(id.as_str(), now_ms),
        Json::Number(number) => normalize_discord_id_at(number.as_str(), now_ms),
        _ => None,
    }
}

/// The name of the user that an object describes.
pub open spec fn object_name(members: Seq<(Seq<char>, JsonView)>) -> Option<Seq<char>> {
    match member(members, "username"@) {
        Some(JsonView::Text(name)) => discord_name(name),
        _ => None,
    }
}

/// The id of the user that an object describes.
pub open spec fn object_id(members: Seq<(Seq<char>, JsonView)>, now: int) -> Option<Seq<char>> {
    match member(members, "id"@) {
        Some(value) => value_id(value, now),
        None => None,
    }
}

/// The object has a member that users have.
pub open spec fn has_user_marks(members: Seq<(Seq<char>, JsonView)>) -> bool {
    ||| has_member(members, "discriminator"@)
    ||| has_member(members, "avatar"@)
    ||| has_member(members, "tokenStatus"@)
    ||| has_member(members, "global_name"@)
    ||| has_member(members, "globalName"@)
    ||| has_member(members, "flags"@)
}

/// The candidates after a JSON value was seen in `source`, at most 20 levels
/// deep. An object with an id is an account where it has a name or a mark of
/// one, unless it stands below a key of another user (`foreign`).
pub open spec fn with_json(
    map: Map<Seq<char>, DiscordCandidateView>,
    now: int,
    value: JsonView,
    source: Seq<char>,
    depth: int,
    foreign: bool,
) -> Map<Seq<char>, DiscordCandidateView>
    decreases value, 0int,
{
    if depth > 20 {
        map
    } else {
        match value {
            JsonView::Object(members) => {
                let name = object_name(members);
                let id = object_id(members, now);
                let own = if !foreign && id is Some && (has_user_marks(members) || name is Some) {
                    with_account_seen(map, now, name, id, source)
                } else {
                    map
                };
                with_members(own, now, members, members.len(), source, depth + 1, foreign)
            },
            JsonView::List(items) => with_items(
                map,
                now,
                items,
                items.len(),
                source,
                depth + 1,
                foreign,
            ),
            _ => map,
        }
    }
}

/// The candidates after the first `n` members of an object.
pub open spec fn with_members(
    map: Map<Seq<char>, DiscordCandidateView>,
    now: int,
    members: Seq<(Seq<char>, JsonView)>,
    n: nat,
    source: Seq<char>,
    depth: int,
    foreign: bool,
) -> Map<Seq<char>, DiscordCandidateView>
    decreases members, n,
{
    if n == 0 || n > members.len() {
        map
    } else {
        let before = with_members(map, now, members, (n - 1) as nat, source, depth, foreign);
        let (key, child) = members[n - 1];
        with_json(before, now, child, source, depth, foreign || is_foreign_key(key))
    }
}

/// The candidates after the first `n` items of a list.
pub open spec fn with_items(
    map: Map<Seq<char>, DiscordCandidateView>,
    now: int,
    items: Seq<JsonView>,
    n: nat,
    source: Seq<char>,
    depth: int,
    foreign: bool,
) -> Map<Seq<char>, DiscordCandidateView>
    decreases items, n,
{
    if n == 0 || n > items.len() {
        map
    } else {
        let before = with_items(map, now, items, (n - 1) as nat, source, depth, foreign);
        with_json(before, now, items[n - 1], source, depth, foreign)
    }
}

pub fn collect_discord_accounts_from_json(
    value: &Json,
    source: &str,
    map: &mut DiscordCandidates,
    depth: usize,
    foreign_user_context: bool,
)
    ensures
        final(map)@ == with_json(
            old(map)@,
            old(map).now(),
            value.model(),
            source@,
            depth as int,
            foreign_user_context,
        ),
        final(map).now() == old(map).now(),
    decreases value,
{
    if depth > 20 {
        return;
    }
    let ghost now = map.now();
    match value {
        Json::Object(members) => {
            let ghost all = object_model(*members, members@.len());
            let name = match find_member(members, "username") {
                Some(Json::Text(name)) => normalize_discord_username(name.as_str()),
                _ => None,
            };
            let id = match find_member(members, "id") {
                Some(value) => discord_id_from_value(value, map.now_ms),
                None => None,
            };
            assert(crate::views::opt_view(name) == object_name(all));
            assert(crate::views::opt_view(id) == object_id(all, now));
            let marked = find_member(members, "discriminator").is_some() || find_member(
                members,
                "avatar",
            ).is_some() || find_member(members, "tokenStatus").is_some() || find_member(
                members,
                "global_name",
            ).is_some() || find_member(members, "globalName").is_some() || find_member(
                members,
                "flags",
            ).is_some();
            assert(marked == has_user_marks(all));
            if !foreign_user_context {
                if let Some(id) = &id {
                    match &name {
                        Some(name) => {
                            insert_discord_candidate(
                                map,
                                Some(name.as_str()),
                                Some(id.as_str()),
                                source,
                            );
                        },
                        None => {
                            if marked {
                                insert_discord_candidate(map, None, Some(id.as_str()), source);
                            }
                        },
                    }
                }
            }
            let ghost start = map@;
            proof {
                lemma_object_model(*members, members@.len());
            }
            for i in 0..members.len()
                invariant
                    all == object_model(*members, members@.len()),
                    all.len() == members@.len(),
                    *value == Json::Object(*members),
                    depth <= 20,
                    map.now() == now,
                    map@ == with_members(
                        start,
                        now,
                        all,
                        i as nat,
                        source@,
                        depth + 1,
                        foreign_user_context,
                    ),
            {
                proof {
                    lemma_object_model(*members, members@.len());
                    assert(all[i as int] == (
                        members@[i as int].key@,
                        members@[i as int].value.model(),
                    ));
                    assert(decreases_to!(*value => value->Object_0));
                    assert(decreases_to!(*members => members@[i as int]));
                }
                let foreign = foreign_user_context || is_foreign_discord_user_key(
                    members[i].key.as_str(),
                );
                collect_discord_accounts_from_json(
                    &members[i].value,
                    source,
                    map,
                    depth + 1,
                    foreign,
                );
            }
        },
        Json::List(items) => {
            let ghost all = list_model(*items, items@.len());
            let ghost start = map@;
            proof {
                lemma_list_model(*items, items@.len());
            }
            for i in 0..items.len()
                invariant
                    all == list_model(*items, items@.len()),
                    all.len() == items@.len(),
                    *value == Json::List(*items),
                    depth <= 20,
                    map.now() == now,
                    map@ == with_items(
                        start,
                        now,
                        all,
                        i as nat,
                        source@,
                        depth + 1,
                        foreign_user_context,
                    ),
            {
                proof {
                    lemma_list_model(*items, items@.len());
                    assert(decreases_to!(*value => value->List_0));
                    assert(decreases_to!(*items => items@[i as int]));
                }
                collect_discord_accounts_from_json(
                    &items[i],
                    source,
                    map,
                    depth + 1,
                    foreign_user_context,
                );
            }
        },
        _ => {},
    }
}

/// The candidates after what each of `texts` parses to was seen.
pub open spec fn with_json_texts(
    map: Map<Seq<char>, DiscordCandidateView>,
    now: int,
    texts: Seq<Seq<char>>,
    source: Seq<char>,
) -> Map<Seq<char>, DiscordCandidateView>
    decreases texts.len(),
{
    if texts.len() == 0 {
        map
    } else {
        let before = with_json_texts(map, now, texts.drop_last(), source);
        match json_parsed(texts.last()) {
            Some(value) => with_json(before, now, value, source, 0, false),
            None => before,
        }
    }
}

fn insert_json_texts(map: &mut DiscordCandidates, texts: &Vec<String>, source: &str)
    ensures
        final(map)@ == with_json_texts(old(map)@, old(map).now(), views(texts@), source@),
        final(map).now() == old(map).now(),
{
    let ghost all = views(texts@);
    let ghost start = map@;
    let ghost now = map.now();
    for i in 0..texts.len()
        invariant
            all == views(texts@),
            map.now() == now,
            map@ == with_json_texts(start, now, all.take(i as int), source@),
    {
        assert(all.take(i + 1).drop_last() =~= all.take(i as int));
        assert(all.take(i + 1).last() == texts@[i as int]@);
        if let Some(value) = parse_json(texts[i].as_str()) {
            collect_discord_accounts_from_json(&value, source, map, 0, false);
        }
    }
    assert(all.take(all.len() as int) =~= all);
}

// ---------------------------------------------------------------------------
// Texts
// ---------------------------------------------------------------------------

/// The candidates after the text of a browser's file was seen.
pub open spec fn with_context_text(
    map: Map<Seq<char>, DiscordCandidateView>,
    now: int,
    text: Seq<char>,
    source: Seq<char>,
) -> Map<Seq<char>, DiscordCandidateView> {
    let a = with_id_matches(map, now, regex_matches(PROFILE_URL_PATTERN@, text), source);
    let b = with_id_matches(a, now, regex_matches(ID_PARAMETER_PATTERN@, text), source);
    let c = with_user_matches(
        b,
        now,
        regex_matches(ENCODED_ID_THEN_NAME_PATTERN@, text),
        2,
        1,
        None,
        source,
    );
    with_user_matches(
        c,
        now,
        regex_matches(ENCODED_NAME_THEN_ID_PATTERN@, text),
        1,
        2,
        None,
        source,
    )
}

pub fn extract_discord_accounts_from_context_text(
    text: &str,
    source: &str,
    map: &mut DiscordCandidates,
)
    ensures
        final(map)@ == with_context_text(old(map)@, old(map).now(), text@, source@),
        final(map).now() == old(map).now(),
{
    insert_id_matches(map, &find_matches(PROFILE_URL_PATTERN, text), source);
    insert_id_matches(map, &find_matches(ID_PARAMETER_PATTERN, text), source);
    insert_user_matches(map, &find_matches(ENCODED_ID_THEN_NAME_PATTERN, text), 2, 1, None, source);
    insert_user_matches(map, &find_matches(ENCODED_NAME_THEN_ID_PATTERN, text), 1, 2, None, source);
}

/// The text as one value, where it looks like one.
pub open spec fn whole_value(text: Seq<char>) -> Seq<Seq<char>> {
    if starts_with(text, "{"@) || starts_with(text, "["@) {
        seq![text]
    } else {
        Seq::empty()
    }
}

/// The candidates after one form of a text was seen: as a JSON value, as
/// bracketed parts that are JSON values, and by the matches in it.
pub open spec fn with_text_variant(
    map: Map<Seq<char>, DiscordCandidateView>,
    now: int,
    text: Seq<char>,
    source: Seq<char>,
) -> Map<Seq<char>, DiscordCandidateView> {
    let trimmed = trim(text, CharClass::Space);
    if trimmed.len() == 0 {
        map
    } else {
        let a = with_json_texts(map, now, whole_value(trimmed), source);
        let b = with_json_texts(a, now, json_fragments(trimmed, 220, 650_000), source);
        let c = with_user_matches(
            b,
            now,
            regex_matches(NAME_THEN_ID_PATTERN@, text),
            1,
            2,
            Some(lower(text)),
            source,
        );
        let d = with_user_matches(
            c,
            now,
            regex_matches(ID_THEN_NAME_PATTERN@, text),
            2,
            1,
            Some(lower(text)),
            source,
        );
        with_token_matches(d, now, regex_matches(TOKEN_PATTERN@, text), source)
    }
}

pub fn extract_discord_accounts_from_text_variant(
    text: &str,
    source: &str,
    map: &mut DiscordCandidates,
)
    ensures
        final(map)@ == with_text_variant(old(map)@, old(map).now(), text@, source@),
        final(map).now() == old(map).now(),
{
    let chars = chars_of(text);
    let trimmed_chars = trim_chars(chars.as_slice(), CharClass::Space);
    if trimmed_chars.len() == 0 {
        return;
    }
    let trimmed = string_of(trimmed_chars);
    let mut whole: Vec<String> = Vec::new();
    assert(views(whole@) =~= Seq::empty());
    if begins_with(trimmed_chars, "{") || begins_with(trimmed_chars, "[") {
        push_view(&mut whole, trimmed.clone());
        assert(views(whole@) =~= seq![trimmed@]);
    }
    assert(views(whole@) == whole_value(trimmed@));
    insert_json_texts(map, &whole, source);
    let fragments = extract_json_fragments(trimmed.as_str(), 220, 650_000);
    insert_json_texts(map, &fragments, source);
    let low = to_lower(text);
    proof {
        lemma_lower_byte_len(text@);
    }
    insert_user_matches(
        map,
        &find_matches(NAME_THEN_ID_PATTERN, text),
        1,
        2,
        Some(low.as_str()),
        source,
    );
    insert_user_matches(
        map,
        &find_matches(ID_THEN_NAME_PATTERN, text),
        2,
        1,
        Some(low.as_str()),
        source,
    );
    extract_discord_ids_from_tokens(text, source, map);
}

/// The candidates after a text was seen, as it is and, where that differs, with
/// escapes undone. A text that is too long is passed over.
pub open spec fn with_text(
    map: Map<Seq<char>, DiscordCandidateView>,
    now: int,
    text: Seq<char>,
    source: Seq<char>,
) -> Map<Seq<char>, DiscordCandidateView> {
    if text.len() == 0 || byte_len(text) > MAX_DISCORD_TEXT_BYTES {
        map
    } else {
        let a = with_text_variant(map, now, text, source);
        if unescaped(text) == text {
            a
        } else {
            with_text_variant(a, now, unescaped(text), source)
        }
    }
}

pub fn extract_discord_accounts_from_text(text: &str, source: &str, map: &mut DiscordCandidates)
    ensures
        final(map)@ == with_text(old(map)@, old(map).now(), text@, source@),
        final(map).now() == old(map).now(),
{
    let bytes = text.as_bytes();
    let chars = chars_of(text);
    if chars.len() == 0 || bytes.len() > MAX_DISCORD_TEXT_BYTES {
        return;
    }
    extract_discord_accounts_from_text_variant(text, source, map);
    let normalized = normalize_escaped_json_text(text);
    if !same_text(normalized.as_str(), text) {
        extract_discord_accounts_from_text_variant(normalized.as_str(), source, map);
    }
}

/// The candidates after each of `texts` was seen.
pub open spec fn with_texts(
    map: Map<Seq<char>, DiscordCandidateView>,
    now: int,
    texts: Seq<Seq<char>>,
    source: Seq<char>,
) -> Map<Seq<char>, DiscordCandidateView>
    decreases texts.len(),
{
    if texts.len() == 0 {
        map
    } else {
        with_text(with_texts(map, now, texts.drop_last(), source), now, texts.last(), source)
    }
}

/// The text that bytes are read as: themselves where they are UTF-8, else with
/// replacements.
pub open spec fn text_of_bytes(bytes: Seq<u8>) -> Seq<char> {
    if valid_utf8(bytes) {
        decode_utf8(bytes)
    } else {
        utf8_lossy(bytes)
    }
}

/// The candidates after bytes were seen, as a text and by their printable runs.
pub open spec fn with_bytes(
    map: Map<Seq<char>, DiscordCandidateView>,
    now: int,
    bytes: Seq<u8>,
    source: Seq<char>,
) -> Map<Seq<char>, DiscordCandidateView> {
    if bytes.len() == 0 {
        map
    } else {
        with_texts(
            with_text(map, now, text_of_bytes(bytes), source),
            now,
            printable_chunks(bytes, 80, 180),
            source,
        )
    }
}

pub fn extract_discord_accounts_from_bytes(bytes: &[u8], source: &str, map: &mut DiscordCandidates)
    ensures
        final(map)@ == with_bytes(old(map)@, old(map).now(), bytes@, source@),
        final(map).now() == old(map).now(),
{
    if bytes.len() == 0 {
        return;
    }
    let text = match utf8_text(bytes) {
        Some(text) => text,
        None => utf8_text_lossy(bytes),
    };
    extract_discord_accounts_from_text(text.as_str(), source, map);
    let chunks = extract_printable_chunks(bytes, 80, 180);
    let ghost all = views(chunks@);
    let ghost start = map@;
    let ghost now = map.now();
    for i in 0..chunks.len()
        invariant
            all == views(chunks@),
            map.now() == now,
            map@ == with_texts(start, now, all.take(i as int), source@),
    {
        assert(all.take(i + 1).drop_last() =~= all.take(i as int));
        assert(all.take(i + 1).last() == chunks@[i as int]@);
        extract_discord_accounts_from_text(chunks[i].as_str(), source, map);
    }
    assert(all.take(all.len() as int) =~= all);
}

/// The candidates after the relevant ones of `chunks` were seen.
pub open spec fn with_context_chunks(
    map: Map<Seq<char>, DiscordCandidateView>,
    now: int,
    chunks: Seq<Seq<char>>,
    source: Seq<char>,
) -> Map<Seq<char>, DiscordCandidateView>
    decreases chunks.len(),
{
    if chunks.len() == 0 {
        map
    } else {
        let before = with_context_chunks(map, now, chunks.drop_last(), source);
        if is_relevant_chunk(chunks.last()) {
            with_context_text(before, now, chunks.last(), source)
        } else {
            before
        }
    }
}

pub fn extract_discord_accounts_from_context_bytes(
    bytes: &[u8],
    source: &str,
    map: &mut DiscordCandidates,
)
    ensures
        final(map)@ == with_context_chunks(
            old(map)@,
            old(map).now(),
            printable_chunks(bytes@, 72, 2_200),
            source@,
        ),
        final(map).now() == old(map).now(),
{
    let chunks = extract_printable_chunks(bytes, 72, 2_200);
    let ghost all = views(chunks@);
    let ghost start = map@;
    let ghost now = map.now();
    for i in 0..chunks.len()
        invariant
            all == views(chunks@),
            map.now() == now,
            map@ == with_context_chunks(start, now, all.take(i as int), source@),
    {
        assert(all.take(i + 1).drop_last() =~= all.take(i as int));
        assert(all.take(i + 1).last() == chunks@[i as int]@);
        if discord_context_chunk_looks_relevant(chunks[i].as_str()) {
            extract_discord_accounts_from_context_text(chunks[i].as_str(), source, map);
        }
    }
    assert(all.take(all.len() as int) =~= all);
}

// ---------------------------------------------------------------------------
// Candidates only grow
// ---------------------------------------------------------------------------

proof fn lemma_id_matches_grow(
    map: Map<Seq<char>, DiscordCandidateView>,
    now: int,
    matches: Seq<(int, Seq<Option<Seq<char>>>)>,
    source: Seq<char>,
)
    ensures
        grown(map, with_id_matches(map, now, matches, source)),
    decreases matches.len(),
{
    if matches.len() > 0 {
        lemma_id_matches_grow(map, now, matches.drop_last(), source);
        let before = with_id_matches(map, now, matches.drop_last(), source);
        law_account_seen_grows(before, now, None, group(matches.last(), 1), source);
        lemma_grown_transitive(map, before, with_id_matches(map, now, matches, source));
    }
}

proof fn lemma_user_matches_grow(
    map: Map<Seq<char>, DiscordCandidateView>,
    now: int,
    matches: Seq<(int, Seq<Option<Seq<char>>>)>,
    name_group: int,
    id_group: int,
    text: Option<Seq<char>>,
    source: Seq<char>,
)
    ensures
        grown(map, with_user_matches(map, now, matches, name_group, id_group, text, source)),
    decreases matches.len(),
{
    if matches.len() > 0 {
        let rest = matches.drop_last();
        lemma_user_matches_grow(map, now, rest, name_group, id_group, text, source);
        let before = with_user_matches(map, now, rest, name_group, id_group, text, source);
        let m = matches.last();
        law_account_seen_grows(before, now, group(m, name_group), group(m, id_group), source);
        lemma_grown_transitive(
            map,
            before,
            with_user_matches(map, now, matches, name_group, id_group, text, source),
        );
    }
}

proof fn lemma_token_matches_grow(
    map: Map<Seq<char>, DiscordCandidateView>,
    now: int,
    matches: Seq<(int, Seq<Option<Seq<char>>>)>,
    source: Seq<char>,
)
    ensures
        grown(map, with_token_matches(map, now, matches, source)),
    decreases matches.len(),
{
    if matches.len() > 0 {
        lemma_token_matches_grow(map, now, matches.drop_last(), source);
        let before = with_token_matches(map, now, matches.drop_last(), source);
        if let Some(segment) = group(matches.last(), 1) {
            law_account_seen_grows(before, now, None, token_user_id(segment, now), source);
        }
        lemma_grown_transitive(map, before, with_token_matches(map, now, matches, source));
    }
}

/// A JSON value takes no candidate away.
pub proof fn law_json_grows(
    map: Map<Seq<char>, DiscordCandidateView>,
    now: int,
    value: JsonView,
    source: Seq<char>,
    depth: int,
    foreign: bool,
)
    ensures
        grown(map, with_json(map, now, value, source, depth, foreign)),
    decreases value, 0int,
{
    if depth <= 20 {
        match value {
            JsonView::Object(members) => {
                let name = object_name(members);
                let id = object_id(members, now);
                let seen = with_account_seen(map, now, name, id, source);
                law_account_seen_grows(map, now, name, id, source);
                let own = if !foreign && id is Some && (has_user_marks(members) || name is Some) {
                    seen
                } else {
                    map
                };
                lemma_members_grow(own, now, members, members.len(), source, depth + 1, foreign);
                lemma_grown_transitive(
                    map,
                    own,
                    with_members(own, now, members, members.len(), source, depth + 1, foreign),
                );
            },
            JsonView::List(items) => {
                lemma_items_grow(map, now, items, items.len(), source, depth + 1, foreign);
            },
            _ => {},
        }
    }
}

proof fn lemma_members_grow(
    map: Map<Seq<char>, DiscordCandidateView>,
    now: int,
    members: Seq<(Seq<char>, JsonView)>,
    n: nat,
    source: Seq<char>,
    depth: int,
    foreign: bool,
)
    ensures
        grown(map, with_members(map, now, members, n, source, depth, foreign)),
    decreases members, n,
{
    if n > 0 && n <= members.len() {
        lemma_members_grow(map, now, members, (n - 1) as nat, source, depth, foreign);
        let before = with_members(map, now, members, (n - 1) as nat, source, depth, foreign);
        let (key, child) = members[n - 1];
        law_json_grows(before, now, child, source, depth, foreign || is_foreign_key(key));
        lemma_grown_transitive(
            map,
            before,
            with_members(map, now, members, n, source, depth, foreign),
        );
    }
}

proof fn lemma_items_grow(
    map: Map<Seq<char>, DiscordCandidateView>,
    now: int,
    items: Seq<JsonView>,
    n: nat,
    source: Seq<char>,
    depth: int,
    foreign: bool,
)
    ensures
        grown(map, with_items(map, now, items, n, source, depth, foreign)),
    decreases items, n,
{
    if n > 0 && n <= items.len() {
        lemma_items_grow(map, now, items, (n - 1) as nat, source, depth, foreign);
        let before = with_items(map, now, items, (n - 1) as nat, source, depth, foreign);
        law_json_grows(before, now, items[n - 1], source, depth, foreign);
        lemma_grown_transitive(map, before, with_items(map, now, items, n, source, depth, foreign));
    }
}

/// What stands below a key of another user is never taken for an account.
pub proof fn law_foreign_json_ignored(
    map: Map<Seq<char>, DiscordCandidateView>,
    now: int,
    value: JsonView,
    source: Seq<char>,
    depth: int,
)
    ensures
        with_json(map, now, value, source, depth, true) == map,
    decreases value, 0int,
{
    if depth <= 20 {
        match value {
            JsonView::Object(members) => {
                lemma_foreign_members(map, now, members, members.len(), source, depth + 1);
            },
            JsonView::List(items) => {
                lemma_foreign_items(map, now, items, items.len(), source, depth + 1);
            },
            _ => {},
        }
    }
}

proof fn lemma_foreign_members(
    map: Map<Seq<char>, DiscordCandidateView>,
    now: int,
    members: Seq<(Seq<char>, JsonView)>,
    n: nat,
    source: Seq<char>,
    depth: int,
)
    ensures
        with_members(map, now, members, n, source, depth, true) == map,
    decreases members, n,
{
    if n > 0 && n <= members.len() {
        lemma_foreign_members(map, now, members, (n - 1) as nat, source, depth);
        law_foreign_json_ignored(map, now, members[n - 1].1, source, depth);
    }
}

proof fn lemma_foreign_items(
    map: Map<Seq<char>, DiscordCandidateView>,
    now: int,
    items: Seq<JsonView>,
    n: nat,
    source: Seq<char>,
    depth: int,
)
    ensures
        with_items(map, now, items, n, source, depth, true) == map,
    decreases items, n,
{
    if n > 0 && n <= items.len() {
        lemma_foreign_items(map, now, items, (n - 1) as nat, source, depth);
        law_foreign_json_ignored(map, now, items[n - 1], source, depth);
    }
}

proof fn lemma_json_texts_grow(
    map: Map<Seq<char>, DiscordCandidateView>,
    now: int,
    texts: Seq<Seq<char>>,
    source: Seq<char>,
)
    ensures
        grown(map, with_json_texts(map, now, texts, source)),
    decreases texts.len(),
{
    if texts.len() > 0 {
        lemma_json_texts_grow(map, now, texts.drop_last(), source);
        let before = with_json_texts(map, now, texts.drop_last(), source);
        if let Some(value) = json_parsed(texts.last()) {
            law_json_grows(before, now, value, source, 0, false);
        }
        lemma_grown_transitive(map, before, with_json_texts(map, now, texts, source));
    }
}

proof fn lemma_text_variant_grows(
    map: Map<Seq<char>, DiscordCandidateView>,
    now: int,
    text: Seq<char>,
    source: Seq<char>,
)
    ensures
        grown(map, with_text_variant(map, now, text, source)),
{
    let trimmed = trim(text, CharClass::Space);
    let whole = whole_value(trimmed);
    let fragments = json_fragments(trimmed, 220, 650_000);
    let forward = regex_matches(NAME_THEN_ID_PATTERN@, text);
    let backward = regex_matches(ID_THEN_NAME_PATTERN@, text);
    let tokens = regex_matches(TOKEN_PATTERN@, text);
    let low = Some(lower(text));
    let a = with_json_texts(map, now, whole, source);
    let b = with_json_texts(a, now, fragments, source);
    let c = with_user_matches(b, now, forward, 1, 2, low, source);
    let d = with_user_matches(c, now, backward, 2, 1, low, source);
    let e = with_token_matches(d, now, tokens, source);
    lemma_json_texts_grow(map, now, whole, source);
    lemma_json_texts_grow(a, now, fragments, source);
    lemma_user_matches_grow(b, now, forward, 1, 2, low, source);
    lemma_user_matches_grow(c, now, backward, 2, 1, low, source);
    lemma_token_matches_grow(d, now, tokens, source);
    lemma_grown_transitive(map, a, b);
    lemma_grown_transitive(map, b, c);
    lemma_grown_transitive(map, c, d);
    lemma_grown_transitive(map, d, e);
}

proof fn lemma_text_grows(
    map: Map<Seq<char>, DiscordCandidateView>,
    now: int,
    text: Seq<char>,
    source: Seq<char>,
)
    ensures
        grown(map, with_text(map, now, text, source)),
{
    let a = with_text_variant(map, now, text, source);
    lemma_text_variant_grows(map, now, text, source);
    lemma_text_variant_grows(a, now, unescaped(text), source);
    lemma_grown_transitive(map, a, with_text_variant(a, now, unescaped(text), source));
}

proof fn lemma_texts_grow(
    map: Map<Seq<char>, DiscordCandidateView>,
    now: int,
    texts: Seq<Seq<char>>,
    source: Seq<char>,
)
    ensures
        grown(map, with_texts(map, now, texts, source)),
    decreases texts.len(),
{
    if texts.len() > 0 {
        lemma_texts_grow(map, now, texts.drop_last(), source);
        let before = with_texts(map, now, texts.drop_last(), source);
        lemma_text_grows(before, now, texts.last(), source);
        lemma_grown_transitive(map, before, with_texts(map, now, texts, source));
    }
}

/// Texts and bytes take no candidate away, and nothing known of one.
pub proof fn law_bytes_grow(
    map: Map<Seq<char>, DiscordCandidateView>,
    now: int,
    bytes: Seq<u8>,
    text: Seq<char>,
    source: Seq<char>,
)
    ensures
        grown(map, with_text(map, now, text, source)),
        grown(map, with_bytes(map, now, bytes, source)),
{
    lemma_text_grows(map, now, text, source);
    let a = with_text(map, now, text_of_bytes(bytes), source);
    let chunks = printable_chunks(bytes, 80, 180);
    lemma_text_grows(map, now, text_of_bytes(bytes), source);
    lemma_texts_grow(a, now, chunks, source);
    lemma_grown_transitive(map, a, with_texts(a, now, chunks, source));
}

proof fn lemma_context_text_grows(
    map: Map<Seq<char>, DiscordCandidateView>,
    now: int,
    text: Seq<char>,
    source: Seq<char>,
)
    ensures
        grown(map, with_context_text(map, now, text, source)),
{
    let urls = regex_matches(PROFILE_URL_PATTERN@, text);
    let ids = regex_matches(ID_PARAMETER_PATTERN@, text);
    let forward = regex_matches(ENCODED_ID_THEN_NAME_PATTERN@, text);
    let backward = regex_matches(ENCODED_NAME_THEN_ID_PATTERN@, text);
    let a = with_id_matches(map, now, urls, source);
    let b = with_id_matches(a, now, ids, source);
    let c = with_user_matches(b, now, forward, 2, 1, None, source);
    let d = with_user_matches(c, now, backward, 1, 2, None, source);
    lemma_id_matches_grow(map, now, urls, source);
    lemma_id_matches_grow(a, now, ids, source);
    lemma_user_matches_grow(b, now, forward, 2, 1, None, source);
    lemma_user_matches_grow(c, now, backward, 1, 2, None, source);
    lemma_grown_transitive(map, a, b);
    lemma_grown_transitive(map, b, c);
    lemma_grown_transitive(map, c, d);
}

/// The pieces of a browser's file take no candidate away, and nothing known of
/// one.
pub proof fn law_context_grows(
    map: Map<Seq<char>, DiscordCandidateView>,
    now: int,
    chunks: Seq<Seq<char>>,
    source: Seq<char>,
)
    ensures
        grown(map, with_context_chunks(map, now, chunks, source)),
    decreases chunks.len(),
{
    if chunks.len() > 0 {
        law_context_grows(map, now, chunks.drop_last(), source);
        let before = with_context_chunks(map, now, chunks.drop_last(), source);
        lemma_context_text_grows(before, now, chunks.last(), source);
        lemma_grown_transitive(map, before, with_context_chunks(map, now, chunks, source));
    }
}

} // verus!
