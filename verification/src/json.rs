//! JSON values, and the parser and printer that make and show them.

use vstd::prelude::*;

use crate::text::same_text;

verus! {

/// A JSON value. A number is kept as it is written; an object keeps its members
/// in the order in which the parser hands them out.
#[derive(Debug)]
pub enum Json {
    Null,
    Flag(bool),
    Number(String),
    Text(String),
    List(Vec<Json>),
    Object(Vec<Member>),
}

#[derive(Debug)]
pub struct Member {
    pub key: String,
    pub value: Json,
}

/// A JSON value as mathematical values.
pub enum JsonView {
    Null,
    Flag(bool),
    Number(Seq<char>),
    Text(Seq<char>),
    List(Seq<JsonView>),
    Object(Seq<(Seq<char>, JsonView)>),
}

impl Json {
    pub open spec fn model(self) -> JsonView
        decreases self,
    {
        match self {
            Json::Null => JsonView::Null,
            Json::Flag(b) => JsonView::Flag(b),
            Json::Number(n) => JsonView::Number(n@),
            Json::Text(s) => JsonView::Text(s@),
            Json::List(v) => JsonView::List(list_model(v, v@.len())),
            Json::Object(v) => JsonView::Object(object_model(v, v@.len())),
        }
    }
}

/// The first `n` items of a list.
pub open spec fn list_model(v: Vec<Json>, n: nat) -> Seq<JsonView>
    decreases v, n,
{
    if n == 0 || n > v@.len() {
        Seq::empty()
    } else {
        list_model(v, (n - 1) as nat).push(v@[n - 1].model())
    }
}

/// The first `n` members of an object.
pub open spec fn object_model(v: Vec<Member>, n: nat) -> Seq<(Seq<char>, JsonView)>
    decreases v, n,
{
    if n == 0 || n > v@.len() {
        Seq::empty()
    } else {
        object_model(v, (n - 1) as nat).push((v@[n - 1].key@, v@[n - 1].value.model()))
    }
}

pub proof fn lemma_list_model(v: Vec<Json>, n: nat)
    requires
        n <= v@.len(),
    ensures
        list_model(v, n).len() == n,
        forall|i: int| 0 <= i < n ==> #[trigger] list_model(v, n)[i] == v@[i].model(),
    decreases n,
{
    if n > 0 {
        lemma_list_model(v, (n - 1) as nat);
    }
}

pub proof fn lemma_object_model(v: Vec<Member>, n: nat)
    requires
        n <= v@.len(),
    ensures
        object_model(v, n).len() == n,
        forall|i: int|
            0 <= i < n ==> #[trigger] object_model(v, n)[i] == (v@[i].key@, v@[i].value.model()),
    decreases n,
{
    if n > 0 {
        lemma_object_model(v, (n - 1) as nat);
    }
}

/// The value of the member of an object that is called `key`.
pub open spec fn member(members: Seq<(Seq<char>, JsonView)>, key: Seq<char>) -> Option<JsonView>
    decreases members.len(),
{
    if members.len() == 0 {
        None
    } else if members[0].0 == key {
        Some(members[0].1)
    } else {
        member(members.skip(1), key)
    }
}

/// The first member of a name is the one that the name stands for; a name that no
/// member has stands for nothing.
pub proof fn law_member(members: Seq<(Seq<char>, JsonView)>, key: Seq<char>, i: int)
    requires
        0 <= i <= members.len(),
        forall|j: int| 0 <= j < i ==> (#[trigger] members[j]).0 != key,
    ensures
        i < members.len() && members[i].0 == key ==> member(members, key) == Some(members[i].1),
        i == members.len() ==> member(members, key) is None,
    decreases members.len(),
{
    if members.len() > 0 && i > 0 {
        let rest = members.skip(1);
        assert(members[0].0 != key);
        assert forall|j: int| 0 <= j < i - 1 implies (#[trigger] rest[j]).0 != key by {
            assert(rest[j] == members[j + 1]);
        }
        law_member(rest, key, i - 1);
        if i < members.len() {
            assert(rest[i - 1] == members[i]);
        }
    }
}

/// Some member is called `key`.
pub open spec fn has_member(members: Seq<(Seq<char>, JsonView)>, key: Seq<char>) -> bool {
    member(members, key) is Some
}

pub fn find_member<'a>(members: &'a Vec<Member>, key: &str) -> (r: Option<&'a Json>)
    ensures
        match r {
            Some(value) => member(object_model(*members, members@.len()), key@) == Some(
                value.model(),
            ),
            None => member(object_model(*members, members@.len()), key@) is None,
        },
{
    let ghost all = object_model(*members, members@.len());
    proof {
        lemma_object_model(*members, members@.len());
        assert(all.skip(0) =~= all);
    }
    for i in 0..members.len()
        invariant
            all == object_model(*members, members@.len()),
            all.len() == members@.len(),
            member(all.skip(i as int), key@) == member(all, key@),
    {
        proof {
            lemma_object_model(*members, members@.len());
            assert(all.skip(i as int)[0] == all[i as int]);
            assert(all.skip(i as int).skip(1) =~= all.skip(i + 1));
        }
        if same_text(members[i].key.as_str(), key) {
            return Some(&members[i].value);
        }
    }
    None
}

/// One step down in a value: to a member of an object or to an item of a list.
pub enum JsonStep {
    Member(int),
    Item(int),
}

/// What one step leads to.
pub open spec fn step_into(value: JsonView, step: JsonStep) -> Option<JsonView> {
    match (value, step) {
        (JsonView::Object(members), JsonStep::Member(i)) => if 0 <= i < members.len() {
            Some(members[i].1)
        } else {
            None
        },
        (JsonView::List(items), JsonStep::Item(i)) => if 0 <= i < items.len() {
            Some(items[i])
        } else {
            None
        },
        _ => None,
    }
}

/// What the steps of `path` lead to.
pub open spec fn value_at(value: JsonView, path: Seq<JsonStep>) -> Option<JsonView>
    decreases path.len(),
{
    if path.len() == 0 {
        Some(value)
    } else {
        match value_at(value, path.drop_last()) {
            Some(inner) => step_into(inner, path.last()),
            None => None,
        }
    }
}

/// The key of the member that step `k` of `path` goes to, where it goes to one.
pub open spec fn key_at(value: JsonView, path: Seq<JsonStep>, k: int) -> Option<Seq<char>> {
    match (value_at(value, path.take(k)), path[k]) {
        (Some(JsonView::Object(members)), JsonStep::Member(i)) => if 0 <= i < members.len() {
            Some(members[i].0)
        } else {
            None
        },
        _ => None,
    }
}

/// A path leads to where its other steps lead from where its first one does.
pub proof fn lemma_value_at(value: JsonView, path: Seq<JsonStep>)
    requires
        path.len() > 0,
    ensures
        value_at(value, path) == match step_into(value, path[0]) {
            Some(child) => value_at(child, path.skip(1)),
            None => None,
        },
    decreases path.len(),
{
    let before = path.drop_last();
    if path.len() == 1 {
        assert(before =~= Seq::empty());
        assert(path.skip(1) =~= Seq::empty());
    } else {
        lemma_value_at(value, before);
        assert(before.skip(1) =~= path.skip(1).drop_last());
        assert(before[0] == path[0]);
        assert(path.skip(1).last() == path.last());
        if step_into(value, path[0]) is None {
            assert(value_at(value, before) is None);
        }
    }
}

/// The keys behind the first step are those on the way from where it leads.
pub proof fn lemma_key_at(value: JsonView, path: Seq<JsonStep>, k: int)
    requires
        0 < k < path.len(),
        step_into(value, path[0]) is Some,
    ensures
        key_at(value, path, k) == key_at(step_into(value, path[0])->0, path.skip(1), k - 1),
        value_at(value, path.take(k)) == value_at(
            step_into(value, path[0])->0,
            path.skip(1).take(k - 1),
        ),
{
    lemma_value_at(value, path.take(k));
    assert(path.take(k).skip(1) =~= path.skip(1).take(k - 1));
    assert(path.take(k)[0] == path[0]);
}

/// The value type of `serde_json`, which only passes through.
#[verifier::external_type_specification]
#[verifier::external_body]
pub struct ExValue(serde_json::Value);

/// The number type of `serde_json`, which only passes through.
#[verifier::external_type_specification]
#[verifier::external_body]
pub struct ExNumber(serde_json::Number);

/// What `serde_json::from_str` makes of `text`, read as any JSON value.
pub uninterp spec fn json_parsed(text: Seq<char>) -> Option<JsonView>;

/// The library's form of a `serde_json::Value`, variant by variant. Nothing is
/// claimed of it here: what a text parses to is claimed where the parser is called.
#[verifier::external_body]
fn json_of(value: serde_json::Value) -> (r: Json) {
    match value {
        serde_json::Value::Null => Json::Null,
        serde_json::Value::Bool(b) => Json::Flag(b),
        serde_json::Value::Number(n) => Json::Number(n.to_string()),
        serde_json::Value::String(s) => Json::Text(s),
        serde_json::Value::Array(items) => Json::List(items.into_iter().map(json_of).collect()),
        serde_json::Value::Object(map) => {
            let members = map.into_iter();
            Json::Object(members.map(|(key, v)| Member { key, value: json_of(v) }).collect())
        },
    }
}

/// Calls `serde_json::from_str`, which parses `text` as one JSON value or fails.
/// The result depends on `text` alone; what it is, is left to the name.
#[verifier::external_body]
pub(crate) fn parse_json(text: &str) -> (r: Option<Json>)
    ensures
        match r {
            Some(value) => json_parsed(text@) == Some(value.model()),
            None => json_parsed(text@) is None,
        },
{
    match serde_json::from_str::<serde_json::Value>(text) {
        Ok(value) => Some(json_of(value)),
        Err(_) => None,
    }
}

/// What `serde_json::to_string_pretty` makes of a value.
pub uninterp spec fn json_pretty(value: JsonView) -> Option<Seq<char>>;

/// The number that is written as `text`: a whole one, or else the floating one
/// that the standard library reads, which is the very one that was written.
/// Nothing is claimed of it here.
#[verifier::external_body]
fn number_of(text: &str) -> (r: Option<serde_json::Number>) {
    match (text.parse::<u64>(), text.parse::<i64>()) {
        (Ok(whole), _) => Some(serde_json::Number::from(whole)),
        (_, Ok(whole)) => Some(serde_json::Number::from(whole)),
        _ => text.parse().ok().and_then(serde_json::Number::from_f64),
    }
}

/// The `serde_json::Value` of the library's form, variant by variant; a number
/// is read back from how it is written. Nothing is claimed of it here: how a
/// value is shown is claimed where the printer is called.
#[verifier::external_body]
fn value_of(json: &Json) -> (r: serde_json::Value) {
    match json {
        Json::Null => serde_json::Value::Null,
        Json::Flag(b) => serde_json::Value::Bool(*b),
        Json::Number(n) => number_of(n).map_or(serde_json::Value::Null, serde_json::Value::Number),
        Json::Text(s) => serde_json::Value::String(s.clone()),
        Json::List(items) => serde_json::Value::Array(items.iter().map(value_of).collect()),
        Json::Object(members) => {
            let pairs = members.iter().map(|m| (m.key.clone(), value_of(&m.value)));
            serde_json::Value::Object(pairs.collect())
        },
    }
}

/// Calls `serde_json::to_string_pretty`, which writes a value on several lines.
/// The text depends on the value alone and is left to the name.
#[verifier::external_body]
pub(crate) fn print_json(value: &Json) -> (r: Option<String>)
    ensures
        match r {
            Some(text) => json_pretty(value.model()) == Some(text@),
            None => json_pretty(value.model()) is None,
        },
{
    match serde_json::to_string_pretty(&value_of(value)) {
        Ok(text) => Some(text),
        Err(_) => None,
    }
}

} // verus!
