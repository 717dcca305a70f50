//! The JSON form of a change.

use vstd::prelude::*;

use crate::model::{ChangeView, ObservedChange, ObservedChangeKind};

verus! {

/// `serde_json::Value`: a JSON value.
#[verifier::external_type_specification]
#[verifier::external_body]
pub struct ExJsonValue(serde_json::Value);

/// `serde_json::Map`: the members of a JSON object.
#[verifier::external_type_specification]
#[verifier::external_body]
#[verifier::reject_recursive_types(K)]
#[verifier::reject_recursive_types(V)]
pub struct ExJsonMap<K, V>(serde_json::Map<K, V>);

/// `serde_json::Error`: why a value has no JSON text.
#[verifier::external_type_specification]
#[verifier::external_body]
pub struct ExJsonError(serde_json::Error);

/// What a JSON value holds, as far as changes are written with it.
pub enum JsonView {
    Null,
    Number(u64),
    Text(Seq<char>),
    Object(Map<Seq<char>, JsonView>),
    Other,
}

/// What a JSON value holds: null, a number that is a `u64`, a text, the members of
/// an object, or anything else.
pub uninterp spec fn json_view(value: serde_json::Value) -> JsonView;

/// The members of a JSON object: what it holds under each key.
pub uninterp spec fn object_members(object: serde_json::Map<String, serde_json::Value>) -> Map<
    Seq<char>,
    JsonView,
>;

/// The JSON text of an object with these members, as `serde_json::to_vec` writes it.
pub uninterp spec fn json_encoding(members: Map<Seq<char>, JsonView>) -> Seq<u8>;

/// No members.
pub open spec fn no_members() -> Map<Seq<char>, JsonView> {
    Map::empty()
}

/// Every member is null, a number or a text.
pub open spec fn is_flat(members: Map<Seq<char>, JsonView>) -> bool {
    forall|key: Seq<char>| #[trigger]
        members.contains_key(key) ==> (members[key] is Null || members[key] is Number
            || members[key] is Text)
}

/// `serde_json::Map::new` makes an object without members.
#[verifier::external_body]
pub(crate) fn json_object() -> (object: serde_json::Map<String, serde_json::Value>)
    ensures
        object_members(object) == no_members(),
{
    serde_json::Map::new()
}

/// `serde_json::Map::insert` gives a key a value, in place of the one it had.
#[verifier::external_body]
pub(crate) fn json_insert(
    object: &mut serde_json::Map<String, serde_json::Value>,
    key: &str,
    value: serde_json::Value,
)
    ensures
        object_members(*final(object)) == object_members(*old(object)).insert(
            key@,
            json_view(value),
        ),
{
    object.insert(key.to_string(), value);
}

/// `serde_json::Value::Null` is the JSON null.
#[verifier::external_body]
pub(crate) fn json_null() -> (value: serde_json::Value)
    ensures
        json_view(value) == JsonView::Null,
{
    serde_json::Value::Null
}

/// `serde_json::Value::from`, for a `u64`, is that number.
#[verifier::external_body]
pub(crate) fn json_number(n: u64) -> (value: serde_json::Value)
    ensures
        json_view(value) == JsonView::Number(n),
{
    serde_json::Value::from(n)
}

/// `serde_json::Value::String` is that text.
#[verifier::external_body]
pub(crate) fn json_text(text: &str) -> (value: serde_json::Value)
    ensures
        json_view(value) == JsonView::Text(text@),
{
    serde_json::Value::String(text.to_string())
}

/// `serde_json::Value::Object` is the object with those members.
#[verifier::external_body]
pub(crate) fn json_value(object: serde_json::Map<String, serde_json::Value>) -> (value:
    serde_json::Value)
    ensures
        json_view(value) == JsonView::Object(object_members(object)),
{
    serde_json::Value::Object(object)
}

/// `serde_json::to_vec` writes a value as JSON text. It writes every object of
/// nulls, numbers and texts, and what it writes depends on the members alone: it
/// takes them in the order of their keys, whatever the order in which they were
/// given. Of other values nothing is claimed here.
#[verifier::external_body]
pub(crate) fn json_bytes(value: &serde_json::Value) -> (bytes: Result<Vec<u8>, serde_json::Error>)
    ensures
        json_view(*value) matches JsonView::Object(members) ==> is_flat(members) ==> bytes is Ok,
        json_view(*value) matches JsonView::Object(members) ==> is_flat(members) ==> bytes->Ok_0@
            == json_encoding(members),
{
    serde_json::to_vec(value)
}

/// The word for a kind of change.
pub open spec fn kind_word(kind: ObservedChangeKind) -> Seq<char> {
    match kind {
        ObservedChangeKind::Created => "created"@,
        ObservedChangeKind::Modified => "modified"@,
        ObservedChangeKind::Deleted => "deleted"@,
    }
}

/// The word for a kind of change.
pub fn kind_label(kind: ObservedChangeKind) -> (word: &'static str)
    ensures
        word@ == kind_word(kind),
{
    match kind {
        ObservedChangeKind::Created => "created",
        ObservedChangeKind::Modified => "modified",
        ObservedChangeKind::Deleted => "deleted",
    }
}

/// A number, or null.
pub open spec fn number_view(n: Option<u64>) -> JsonView {
    match n {
        Some(n) => JsonView::Number(n),
        None => JsonView::Null,
    }
}

/// A text, or null.
pub open spec fn text_view(text: Option<Seq<char>>) -> JsonView {
    match text {
        Some(text) => JsonView::Text(text),
        None => JsonView::Null,
    }
}

/// The members of the JSON form of a change.
pub open spec fn payload(change: ChangeView) -> Map<Seq<char>, JsonView> {
    no_members().insert("watcher"@, JsonView::Text(change.watcher)).insert(
        "stream"@,
        JsonView::Text(change.stream_name),
    ).insert("change_kind"@, JsonView::Text(kind_word(change.change_kind))).insert(
        "absolute_path"@,
        JsonView::Text(change.absolute_path),
    ).insert("relative_path"@, JsonView::Text(change.relative_path)).insert(
        "size_bytes"@,
        number_view(change.size_bytes),
    ).insert("modified_unix_ms"@, number_view(change.modified_unix_ms)).insert(
        "sha256"@,
        text_view(change.sha256),
    ).insert("detected_at"@, JsonView::Text(change.detected_at))
}

fn json_optional_number(n: Option<u64>) -> (value: serde_json::Value)
    ensures
        json_view(value) == number_view(n),
{
    match n {
        Some(n) => json_number(n),
        None => json_null(),
    }
}

/// The JSON form of a change: an object whose members are its parts. What a change
/// does not have is null.
pub fn observed_change_to_json(change: &ObservedChange) -> (value: serde_json::Value)
    ensures
        json_view(value) == JsonView::Object(payload(change@)),
{
    let mut object = json_object();
    json_insert(&mut object, "watcher", json_text(change.watcher.as_str()));
    json_insert(&mut object, "stream", json_text(change.stream_name.as_str()));
    json_insert(&mut object, "change_kind", json_text(kind_label(change.change_kind)));
    json_insert(&mut object, "absolute_path", json_text(change.absolute_path.as_str()));
    json_insert(&mut object, "relative_path", json_text(change.relative_path.as_str()));
    json_insert(&mut object, "size_bytes", json_optional_number(change.size_bytes));
    json_insert(&mut object, "modified_unix_ms", json_optional_number(change.modified_unix_ms));
    let sha256 = match &change.sha256 {
        Some(sha256) => json_text(sha256.as_str()),
        None => json_null(),
    };
    json_insert(&mut object, "sha256", sha256);
    json_insert(&mut object, "detected_at", json_text(change.detected_at.as_str()));
    json_value(object)
}

/// The JSON text of a change.
pub fn change_bytes(change: &ObservedChange) -> (bytes: Vec<u8>)
    ensures
        bytes@ == json_encoding(payload(change@)),
{
    let value = observed_change_to_json(change);
    assert(is_flat(payload(change@)));
    json_bytes(&value).unwrap()
}

/// The JSON form of a change has nine members, each with its own part of the
/// change.
pub proof fn law_payload_members(change: ChangeView)
    ensures
        payload(change).dom() == set![
            "watcher"@,
            "stream"@,
            "change_kind"@,
            "absolute_path"@,
            "relative_path"@,
            "size_bytes"@,
            "modified_unix_ms"@,
            "sha256"@,
            "detected_at"@,
        ],
        payload(change)["watcher"@] == JsonView::Text(change.watcher),
        payload(change)["stream"@] == JsonView::Text(change.stream_name),
        payload(change)["change_kind"@] == JsonView::Text(kind_word(change.change_kind)),
        payload(change)["absolute_path"@] == JsonView::Text(change.absolute_path),
        payload(change)["relative_path"@] == JsonView::Text(change.relative_path),
        payload(change)["size_bytes"@] == number_view(change.size_bytes),
        payload(change)["modified_unix_ms"@] == number_view(change.modified_unix_ms),
        payload(change)["sha256"@] == text_view(change.sha256),
        payload(change)["detected_at"@] == JsonView::Text(change.detected_at),
{
    reveal_strlit("watcher");
    reveal_strlit("stream");
    reveal_strlit("change_kind");
    reveal_strlit("absolute_path");
    reveal_strlit("relative_path");
    reveal_strlit("size_bytes");
    reveal_strlit("modified_unix_ms");
    reveal_strlit("sha256");
    reveal_strlit("detected_at");
    assert("watcher"@.len() == 7 && "stream"@.len() == 6 && "sha256"@.len() == 6);
    assert("change_kind"@.len() == 11 && "detected_at"@.len() == 11 && "size_bytes"@.len() == 10);
    assert("absolute_path"@.len() == 13 && "relative_path"@.len() == 13);
    assert("modified_unix_ms"@.len() == 16);
    assert("absolute_path"@[0] != "relative_path"@[0]);
    assert("change_kind"@[0] != "detected_at"@[0]);
    assert("stream"@[1] != "sha256"@[1]);
    assert(payload(change).dom() =~= set![
        "watcher"@,
        "stream"@,
        "change_kind"@,
        "absolute_path"@,
        "relative_path"@,
        "size_bytes"@,
        "modified_unix_ms"@,
        "sha256"@,
        "detected_at"@,
    ]);
}

/// The three kinds of change have three different words.
pub proof fn law_kind_words_differ(a: ObservedChangeKind, b: ObservedChangeKind)
    requires
        kind_word(a) == kind_word(b),
    ensures
        a == b,
{
    reveal_strlit("created");
    reveal_strlit("modified");
    reveal_strlit("deleted");
    assert("created"@[0] != "deleted"@[0]);
    assert("modified"@.len() == 8);
}

/// The members of the JSON form of a change are its parts: each text as it is, each
/// number as it is, null for what the change does not have, and a word for its kind.
pub proof fn law_payload_is_the_change(change: ChangeView)
    ensures
        payload(change)["watcher"@] == JsonView::Text(change.watcher),
        payload(change)["stream"@] == JsonView::Text(change.stream_name),
        change.change_kind == ObservedChangeKind::Created ==> payload(change)["change_kind"@]
            == JsonView::Text("created"@),
        change.change_kind == ObservedChangeKind::Modified ==> payload(change)["change_kind"@]
            == JsonView::Text("modified"@),
        change.change_kind == ObservedChangeKind::Deleted ==> payload(change)["change_kind"@]
            == JsonView::Text("deleted"@),
        payload(change)["absolute_path"@] == JsonView::Text(change.absolute_path),
        payload(change)["relative_path"@] == JsonView::Text(change.relative_path),
        change.size_bytes matches Some(size) ==> payload(change)["size_bytes"@]
            == JsonView::Number(size),
        change.size_bytes is None ==> payload(change)["size_bytes"@] == JsonView::Null,
        change.modified_unix_ms matches Some(ms) ==> payload(change)["modified_unix_ms"@]
            == JsonView::Number(ms),
        change.modified_unix_ms is None ==> payload(change)["modified_unix_ms"@] == JsonView::Null,
        change.sha256 matches Some(digest) ==> payload(change)["sha256"@] == JsonView::Text(digest),
        change.sha256 is None ==> payload(change)["sha256"@] == JsonView::Null,
        payload(change)["detected_at"@] == JsonView::Text(change.detected_at),
{
    law_payload_members(change);
}

} // verus!
