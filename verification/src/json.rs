//! JSON values, as `serde_json` reads and writes them.
//!
//! A `serde_json::Value` is opaque to the contracts of this crate; `json_view`
//! names what it holds. Everything else is said about that view.

use std::collections::BTreeMap;

use vstd::prelude::*;
use vstd::string::*;

use crate::text;

verus! {

#[verifier::external_type_specification]
#[verifier::external_body]
pub struct ExValue(serde_json::Value);

/// What a JSON value holds. A number is known by its numeral, an object by the
/// value under each key.
pub enum Json {
    Null,
    Bool(bool),
    Number(Seq<char>),
    Text(Seq<char>),
    Array(Seq<Json>),
    Object(Map<Seq<char>, Json>),
}

/// What a `serde_json::Value` holds.
pub uninterp spec fn json_view(v: serde_json::Value) -> Json;

/// What the values of a list hold.
pub open spec fn json_views(vs: Seq<serde_json::Value>) -> Seq<Json> {
    vs.map_values(|v: serde_json::Value| json_view(v))
}

/// The object made by setting the keys of `pairs` one after the other.
pub open spec fn pairs_object(pairs: Seq<(Seq<char>, Json)>) -> Map<Seq<char>, Json>
    decreases pairs.len(),
{
    if pairs.len() == 0 {
        Map::empty()
    } else {
        pairs_object(pairs.drop_last()).insert(pairs.last().0, pairs.last().1)
    }
}

/// No two of the pairs have the same key.
pub open spec fn distinct_keys(pairs: Seq<(Seq<char>, Json)>) -> bool {
    forall|i: int, j: int|
        0 <= i < j < pairs.len() ==> (#[trigger] pairs[i]).0 != (#[trigger] pairs[j]).0
}

/// The object without fields.
pub open spec fn empty_object() -> Json {
    Json::Object(Map::empty())
}

/// The keys of a list of fields, each with what its value holds.
pub open spec fn pair_views(pairs: Seq<(String, serde_json::Value)>) -> Seq<(Seq<char>, Json)> {
    pairs.map_values(|p: (String, serde_json::Value)| (p.0@, json_view(p.1)))
}

/// The outcome of a call that gives a text or the text of an error.
pub open spec fn text_outcome(r: Result<String, String>) -> Result<Seq<char>, Seq<char>> {
    match r {
        Ok(s) => Ok(s@),
        Err(e) => Err(e@),
    }
}

/// One level of a JSON value.
pub enum JsonParts {
    Null,
    Bool(bool),
    Number(String),
    Text(String),
    Array(Vec<serde_json::Value>),
    Object(Vec<(String, serde_json::Value)>),
}

impl JsonParts {
    /// What the value that was taken apart holds.
    pub open spec fn whole(self) -> Json {
        match self {
            JsonParts::Null => Json::Null,
            JsonParts::Bool(b) => Json::Bool(b),
            JsonParts::Number(n) => Json::Number(n@),
            JsonParts::Text(s) => Json::Text(s@),
            JsonParts::Array(items) => Json::Array(json_views(items@)),
            JsonParts::Object(fields) => Json::Object(pairs_object(pair_views(fields@))),
        }
    }
}

/// The outcome of a call that gives a value or the text of an error.
pub open spec fn value_outcome(r: Result<serde_json::Value, String>) -> Result<Json, Seq<char>> {
    match r {
        Ok(v) => Ok(json_view(v)),
        Err(e) => Err(e@),
    }
}

/// A key that `serde_json` keeps for itself: an object that starts with it stands for
/// something else.
pub open spec fn is_reserved(key: Seq<char>) -> bool {
    key == "$serde_json::private::RawValue"@ || key == "$serde_json::private::Number"@
}

/// A value without numbers and without reserved keys, nested no deeper than `depth`.
pub open spec fn plain(j: Json, depth: nat) -> bool
    decreases depth,
{
    match j {
        Json::Number(_) => false,
        Json::Array(items) => depth > 0 && forall|i: int|
            0 <= i < items.len() ==> plain(#[trigger] items[i], (depth - 1) as nat),
        Json::Object(fields) => depth > 0 && forall|k: Seq<char>| #[trigger]
            fields.contains_key(k) ==> !is_reserved(k) && plain(fields[k], (depth - 1) as nat),
        _ => true,
    }
}

/// An object made of fields with different keys has each value under its key, and no other
/// key.
pub proof fn law_object_has_its_fields(pairs: Seq<(Seq<char>, Json)>)
    requires
        distinct_keys(pairs),
    ensures
        forall|i: int|
            0 <= i < pairs.len() ==> pairs_object(pairs).contains_key((#[trigger] pairs[i]).0)
                && pairs_object(pairs)[pairs[i].0] == pairs[i].1,
        forall|k: Seq<char>| #[trigger]
            pairs_object(pairs).contains_key(k) ==> exists|i: int|
                0 <= i < pairs.len() && (#[trigger] pairs[i]).0 == k,
    decreases pairs.len(),
{
    if pairs.len() > 0 {
        let front = pairs.drop_last();
        assert forall|i: int, j: int| 0 <= i < j < front.len() implies (#[trigger] front[i]).0 != (
        #[trigger] front[j]).0 by {
            assert(front[i] == pairs[i] && front[j] == pairs[j]);
        }
        law_object_has_its_fields(front);
        let last = pairs[pairs.len() - 1];
        assert(last == pairs.last());
        assert forall|i: int| 0 <= i < pairs.len() implies pairs_object(pairs).contains_key(
            (#[trigger] pairs[i]).0,
        ) && pairs_object(pairs)[pairs[i].0] == pairs[i].1 by {
            if i < front.len() {
                assert(front[i] == pairs[i]);
                assert(pairs[i].0 != last.0);
            }
        }
        assert forall|k: Seq<char>| #[trigger] pairs_object(pairs).contains_key(k) implies exists|
            i: int,
        | 0 <= i < pairs.len() && (#[trigger] pairs[i]).0 == k by {
            if k == last.0 {
                assert(pairs[pairs.len() - 1].0 == k);
            } else {
                assert(pairs_object(front).contains_key(k));
                let i = choose|i: int| 0 <= i < front.len() && (#[trigger] front[i]).0 == k;
                assert(pairs[i] == front[i]);
            }
        }
    }
}

/// An object is as plain as its fields.
pub proof fn lemma_plain_object(pairs: Seq<(Seq<char>, Json)>, depth: nat)
    requires
        forall|i: int|
            0 <= i < pairs.len() ==> !is_reserved((#[trigger] pairs[i]).0) && plain(
                pairs[i].1,
                depth,
            ),
    ensures
        plain(Json::Object(pairs_object(pairs)), depth + 1),
{
    lemma_plain_fields(pairs, depth);
    reveal_with_fuel(plain, 2);
    assert(((depth + 1) - 1) as nat == depth);
}

proof fn lemma_plain_fields(pairs: Seq<(Seq<char>, Json)>, depth: nat)
    requires
        forall|i: int|
            0 <= i < pairs.len() ==> !is_reserved((#[trigger] pairs[i]).0) && plain(
                pairs[i].1,
                depth,
            ),
    ensures
        forall|k: Seq<char>| #[trigger]
            pairs_object(pairs).contains_key(k) ==> !is_reserved(k) && plain(
                pairs_object(pairs)[k],
                depth,
            ),
    decreases pairs.len(),
{
    if pairs.len() > 0 {
        let front = pairs.drop_last();
        assert forall|i: int| 0 <= i < front.len() implies !is_reserved((#[trigger] front[i]).0)
            && plain(front[i].1, depth) by {
            assert(front[i] == pairs[i]);
        }
        lemma_plain_fields(front, depth);
        assert(pairs[pairs.len() - 1] == pairs.last());
        assert forall|k: Seq<char>| #[trigger] pairs_object(pairs).contains_key(k) implies
            !is_reserved(k) && plain(pairs_object(pairs)[k], depth) by {
            if k != pairs.last().0 {
                assert(pairs_object(front).contains_key(k));
            }
        }
    }
}

/// A value that survives being written: it has no numbers and no reserved keys, and its
/// nesting is far from what a reader puts up with.
pub open spec fn readable(j: Json) -> bool {
    plain(j, 100)
}

/// `needle` stands in no string of a value that is nested no deeper than `depth`.
pub open spec fn free_of(j: Json, needle: Seq<char>, depth: nat) -> bool
    decreases depth,
{
    match j {
        Json::Text(s) => !text::has_text(s, needle),
        Json::Array(items) => depth > 0 && forall|i: int|
            0 <= i < items.len() ==> free_of(#[trigger] items[i], needle, (depth - 1) as nat),
        Json::Object(fields) => depth > 0 && forall|k: Seq<char>| #[trigger]
            fields.contains_key(k) ==> !text::has_text(k, needle) && free_of(
                fields[k],
                needle,
                (depth - 1) as nat,
            ),
        _ => true,
    }
}

/// A text that JSON neither uses for itself nor changes by escaping: it starts with an
/// angle bracket and holds neither quotes nor backslashes.
pub open spec fn is_tag(needle: Seq<char>) -> bool {
    &&& needle.len() > 0
    &&& needle[0] == '<'
    &&& !needle.contains('"')
    &&& !needle.contains('\\')
}

/// A text in braces.
pub open spec fn braced(t: Seq<char>) -> bool {
    t.len() >= 2 && t.first() == '{' && t.last() == '}'
}

/// What can be said of the text `out` that a value is written as. A readable value can
/// be written. An object is written in braces. A tag that stands in no string of the
/// value does not stand in the text either.
pub open spec fn well_written(out: Result<Seq<char>, Seq<char>>, j: Json) -> bool {
    &&& readable(j) ==> out is Ok
    &&& out matches Ok(t) ==> {
        &&& j is Object ==> braced(t)
        &&& forall|needle: Seq<char>|
            is_tag(needle) && #[trigger] free_of(j, needle, 100) ==> !text::has_text(t, needle)
    }
}

/// A text that a readable value is written as is read as that value.
pub open spec fn reads_back(t: Seq<char>, parsed: Result<Json, Seq<char>>) -> bool {
    forall|j: Json|
        readable(j) && #[trigger] json_text(j) == Ok::<Seq<char>, Seq<char>>(t) ==> parsed
            == Ok::<Json, Seq<char>>(j)
}

/// What `serde_json::from_str` makes of a text: the value, or the text of its
/// error.
pub uninterp spec fn json_parse(text: Seq<char>) -> Result<Json, Seq<char>>;

/// `serde_json::from_str` into a `Value`. It reads back what `serde_json::to_string`
/// writes for a value without numbers and without reserved keys that is nested no more
/// than a hundred deep, and the text `{}` as the object without fields. What else it
/// accepts and what it reads are left to the name.
#[verifier::external_body]
pub(crate) fn parse_json(text: &str) -> (r: Result<serde_json::Value, String>)
    ensures
        value_outcome(r) == json_parse(text@),
        reads_back(text@, value_outcome(r)),
        text@ == "{}"@ ==> r is Ok && json_view(r->Ok_0) == empty_object(),
{
    serde_json::from_str::<serde_json::Value>(text).map_err(|e| e.to_string())
}

/// The outcome of each step of a stream of JSON values.
pub open spec fn step_views(steps: Seq<Result<serde_json::Value, String>>) -> Seq<
    Result<Json, Seq<char>>,
> {
    steps.map_values(
        |r: Result<serde_json::Value, String>|
            match r {
                Ok(v) => Ok::<Json, Seq<char>>(json_view(v)),
                Err(e) => Err::<Json, Seq<char>>(e@),
            },
    )
}

/// What a `serde_json` stream deserializer yields for a text, step by step.
pub uninterp spec fn json_stream(text: Seq<char>) -> Seq<Result<Json, Seq<char>>>;

/// `serde_json::Deserializer::from_str(..).into_iter::<Value>()`, collected: the
/// values that follow each other in the text. Where one ends and the next
/// begins is left to the name.
#[verifier::external_body]
pub(crate) fn stream_json(text: &str) -> (r: Vec<Result<serde_json::Value, String>>)
    ensures
        step_views(r@) == json_stream(text@),
{
    serde_json::Deserializer::from_str(text)
        .into_iter::<serde_json::Value>()
        .map(|step| step.map_err(|e| e.to_string()))
        .collect()
}

/// The keys and the texts of the fields of an object.
pub open spec fn field_views(fields: Seq<(String, String)>) -> Seq<(Seq<char>, Seq<char>)> {
    fields.map_values(|f: (String, String)| (f.0@, f.1@))
}

/// The outcome of a call that gives fields or the text of an error.
pub open spec fn fields_outcome(r: Result<Vec<(String, String)>, String>) -> Result<
    Seq<(Seq<char>, Seq<char>)>,
    Seq<char>,
> {
    match r {
        Ok(fields) => Ok(field_views(fields@)),
        Err(e) => Err(e@),
    }
}

/// What `serde_json::from_str` makes of a text as a map of `RawValue`s: each key with the
/// text of its value, or the text of its error.
pub uninterp spec fn json_fields(text: Seq<char>) -> Result<
    Seq<(Seq<char>, Seq<char>)>,
    Seq<char>,
>;

/// `serde_json::from_str` into a map from keys to `RawValue`s, whose values it checks for
/// their form alone: a number may be out of range, a string may not be Unicode, and there
/// is no limit to the nesting. The keys of a map are distinct. Which texts it accepts, and
/// which value stays where a key stands twice, is left to the name.
#[verifier::external_body]
pub(crate) fn split_fields(text: &str) -> (r: Result<Vec<(String, String)>, String>)
    ensures
        fields_outcome(r) == json_fields(text@),
        r matches Ok(fields) ==> forall|i: int, j: int|
            0 <= i < j < fields@.len() ==> #[trigger] fields@[i].0@ != #[trigger] fields@[j].0@,
{
    serde_json::from_str::<BTreeMap<String, Box<serde_json::value::RawValue>>>(text)
        .map(|map| map.into_iter().map(|(k, v)| (k, v.get().to_owned())).collect())
        .map_err(|e| e.to_string())
}

/// Tells the variants of `serde_json::Value` apart and hands out what the
/// variant holds. The keys of an object are distinct.
#[verifier::external_body]
pub(crate) fn split_json(v: serde_json::Value) -> (r: JsonParts)
    ensures
        r.whole() == json_view(v),
        r matches JsonParts::Object(fields) ==> forall|i: int, j: int|
            0 <= i < j < fields@.len() ==> #[trigger] fields@[i].0@ != #[trigger] fields@[j].0@,
{
    match v {
        serde_json::Value::Null => JsonParts::Null,
        serde_json::Value::Bool(b) => JsonParts::Bool(b),
        serde_json::Value::Number(n) => JsonParts::Number(n.to_string()),
        serde_json::Value::String(s) => JsonParts::Text(s),
        serde_json::Value::Array(items) => JsonParts::Array(items),
        serde_json::Value::Object(fields) => JsonParts::Object(fields.into_iter().collect()),
    }
}

/// `serde_json::Value::Null`.
#[verifier::external_body]
pub(crate) fn json_null() -> (v: serde_json::Value)
    ensures
        json_view(v) == Json::Null,
{
    serde_json::Value::Null
}

/// `serde_json::Value::String`.
#[verifier::external_body]
pub(crate) fn json_string(s: &str) -> (v: serde_json::Value)
    ensures
        json_view(v) == Json::Text(s@),
{
    serde_json::Value::String(s.to_owned())
}

/// `serde_json::Value::from` of a signed number: its decimal numeral.
#[verifier::external_body]
pub(crate) fn json_number(n: i64) -> (v: serde_json::Value)
    ensures
        json_view(v) == Json::Number(text::decimal_int(n as int)),
{
    serde_json::Value::from(n)
}

/// `serde_json::Value::Array`.
#[verifier::external_body]
pub(crate) fn json_array(items: Vec<serde_json::Value>) -> (v: serde_json::Value)
    ensures
        json_view(v) == Json::Array(json_views(items@)),
{
    serde_json::Value::Array(items)
}

/// `serde_json::Value::Object`, its map filled with the fields. No two of them have the
/// same key.
#[verifier::external_body]
pub(crate) fn json_object(fields: Vec<(String, serde_json::Value)>) -> (v: serde_json::Value)
    requires
        distinct_keys(pair_views(fields@)),
    ensures
        json_view(v) == Json::Object(pairs_object(pair_views(fields@))),
{
    serde_json::Value::Object(fields.into_iter().collect())
}

/// `serde_json::Value::clone`: the copy holds the same.
pub assume_specification[ <serde_json::Value as Clone>::clone ](v: &serde_json::Value) -> (r:
    serde_json::Value)
    ensures
        json_view(r) == json_view(*v),
;

/// Adds a field to the list that an object is made of.
pub(crate) fn push_field(
    fields: &mut Vec<(String, serde_json::Value)>,
    key: &str,
    value: serde_json::Value,
)
    ensures
        pair_views(final(fields)@) == pair_views(old(fields)@).push((key@, json_view(value))),
{
    let ghost before = fields@;
    fields.push((key.to_owned(), value));
    assert(pair_views(fields@) =~= pair_views(before).push((key@, json_view(value))));
}

/// What `serde_json::to_string` writes for a value: its compact text, or the text
/// of an error.
pub uninterp spec fn json_text(j: Json) -> Result<Seq<char>, Seq<char>>;

/// `serde_json::to_string` of a `Value`. A value without numbers and without reserved keys
/// that is nested no more than a hundred deep can be written; an object is written in braces; and a tag, such as
/// `</a>`, stands in the text only where it stands in a string or a key of the value.
/// How else the text spells a string or orders the keys of an object is left to the name.
#[verifier::external_body]
pub(crate) fn write_json(v: &serde_json::Value) -> (r: Result<String, String>)
    ensures
        text_outcome(r) == json_text(json_view(*v)),
        well_written(text_outcome(r), json_view(*v)),
{
    serde_json::to_string(v).map_err(|e| e.to_string())
}

/// The compact text of a value, or `fallback` where it cannot be written.
pub open spec fn json_text_or(j: Json, fallback: Seq<char>) -> Seq<char> {
    match json_text(j) {
        Ok(t) => t,
        Err(_) => fallback,
    }
}

/// The compact text of `v`, or `fallback` where it cannot be written.
pub(crate) fn json_text_of(v: &serde_json::Value, fallback: &str) -> (out: String)
    ensures
        out@ == json_text_or(json_view(*v), fallback@),
        well_written(json_text(json_view(*v)), json_view(*v)),
{
    match write_json(v) {
        Ok(t) => t,
        Err(_) => fallback.to_owned(),
    }
}

/// A value that can be written is told by its own text, and any other by the text that
/// stands in for it.
pub proof fn law_text_of_a_value(j: Json, t: Seq<char>, e: Seq<char>, fallback: Seq<char>)
    ensures
        json_text(j) == Ok::<Seq<char>, Seq<char>>(t) ==> json_text_or(j, fallback) == t,
        json_text(j) == Err::<Seq<char>, Seq<char>>(e) ==> json_text_or(j, fallback) == fallback,
{
}

} // verus!
