//! JSON values.

use vstd::prelude::*;

verus! {

#[verifier::external_type_specification]
#[verifier::external_body]
pub struct ExJsonValue(serde_json::Value);

/// A JSON value. Integers that fit are kept as such; any other number as its
/// JSON text. The keys of an object are distinct.
#[derive(Debug, PartialEq)]
pub enum Json {
    Null,
    Boolean(bool),
    Integer(i64),
    Decimal(String),
    Text(String),
    Array(Vec<Json>),
    Object(Vec<(String, Json)>),
}

/// What a [`Json`] holds.
pub enum JsonView {
    Null,
    Boolean(bool),
    Integer(i64),
    Decimal(Seq<char>),
    Text(Seq<char>),
    Array(Seq<JsonView>),
    Object(Seq<(Seq<char>, JsonView)>),
}

pub open spec fn json_view(v: Json) -> JsonView
    decreases v,
{
    match v {
        Json::Null => JsonView::Null,
        Json::Boolean(b) => JsonView::Boolean(b),
        Json::Integer(i) => JsonView::Integer(i),
        Json::Decimal(s) => JsonView::Decimal(s@),
        Json::Text(s) => JsonView::Text(s@),
        Json::Array(items) => JsonView::Array(jsons_view(items@)),
        Json::Object(members) => JsonView::Object(members_view(members@)),
    }
}

pub open spec fn jsons_view(v: Seq<Json>) -> Seq<JsonView>
    decreases v,
{
    Seq::new(
        v.len(),
        |i: int|
            if 0 <= i < v.len() {
                json_view(v[i])
            } else {
                JsonView::Null
            },
    )
}

pub open spec fn members_view(v: Seq<(String, Json)>) -> Seq<(Seq<char>, JsonView)>
    decreases v,
{
    Seq::new(
        v.len(),
        |i: int|
            if 0 <= i < v.len() {
                (v[i].0@, json_view(v[i].1))
            } else {
                (Seq::empty(), JsonView::Null)
            },
    )
}

impl View for Json {
    type V = JsonView;

    open spec fn view(&self) -> JsonView {
        json_view(*self)
    }
}

/// A copy of a JSON value.
pub fn copy_json(v: &Json) -> (r: Json)
    ensures
        r@ == v@,
    decreases v,
{
    match v {
        Json::Null => Json::Null,
        Json::Boolean(b) => Json::Boolean(*b),
        Json::Integer(i) => Json::Integer(*i),
        Json::Decimal(s) => Json::Decimal(s.clone()),
        Json::Text(s) => Json::Text(s.clone()),
        Json::Array(items) => Json::Array(copy_jsons(items)),
        Json::Object(members) => Json::Object(copy_members(members)),
    }
}

fn copy_jsons(v: &Vec<Json>) -> (r: Vec<Json>)
    ensures
        jsons_view(r@) == jsons_view(v@),
    decreases v@,
{
    let mut out: Vec<Json> = Vec::new();
    let mut i: usize = 0;
    while i < v.len()
        invariant
            i <= v.len(),
            out.len() == i,
            forall|k: int| 0 <= k < i ==> (#[trigger] out[k])@ == v[k]@,
        decreases v.len() - i,
    {
        let c = copy_json(&v[i]);
        out.push(c);
        i += 1;
    }
    assert(jsons_view(out@) =~= jsons_view(v@));
    out
}

fn copy_members(v: &Vec<(String, Json)>) -> (r: Vec<(String, Json)>)
    ensures
        members_view(r@) == members_view(v@),
    decreases v@,
{
    let mut out: Vec<(String, Json)> = Vec::new();
    let mut i: usize = 0;
    while i < v.len()
        invariant
            i <= v.len(),
            out.len() == i,
            forall|k: int|
                0 <= k < i ==> (#[trigger] out[k]).0@ == v[k].0@ && out[k].1@ == v[k].1@,
        decreases v.len() - i,
    {
        assert(decreases_to!(v@ => v@[i as int]));
        let k = v[i].0.clone();
        let c = copy_json(&v[i].1);
        out.push((k, c));
        i += 1;
    }
    assert(members_view(out@) =~= members_view(v@));
    out
}

impl Clone for Json {
    fn clone(&self) -> (r: Json)
        ensures
            r@ == self@,
    {
        copy_json(self)
    }
}

/// The member of an object with the key `key`.
pub open spec fn json_member(v: JsonView, key: Seq<char>) -> Option<JsonView> {
    match v {
        JsonView::Object(members) => crate::ordered::lookup(members, key),
        _ => None,
    }
}

proof fn lookup_found_early(m: Seq<(Seq<char>, JsonView)>, key: Seq<char>, n: int)
    requires
        0 <= n <= m.len(),
        crate::ordered::lookup(m.take(n), key) is Some,
    ensures
        crate::ordered::lookup(m, key) == crate::ordered::lookup(m.take(n), key),
    decreases m.len() - n,
{
    if n < m.len() {
        assert(m.take(n + 1).drop_last() =~= m.take(n));
        lookup_found_early(m, key, n + 1);
    } else {
        assert(m.take(n) =~= m);
    }
}

impl Json {
    /// The member of an object with the key `key`.
    pub fn get(&self, key: &str) -> (r: Option<&Json>)
        ensures
            match r {
                Some(v) => json_member(self@, key@) == Some(v@),
                None => json_member(self@, key@) is None,
            },
    {
        match self {
            Json::Object(members) => {
                let ghost all = members_view(members@);
                assert(self@ == JsonView::Object(all));
                let mut i: usize = 0;
                assert(all.take(0) =~= Seq::empty());
                while i < members.len()
                    invariant
                        i <= members.len(),
                        all == members_view(members@),
                        self@ == JsonView::Object(all),
                        crate::ordered::lookup(all.take(i as int), key@) is None,
                    decreases members.len() - i,
                {
                    assert(all.take(i + 1).drop_last() =~= all.take(i as int));
                    if members[i].0.as_str().eq(key) {
                        proof {
                            lookup_found_early(all, key@, i + 1);
                        }
                        return Some(&members[i].1);
                    }
                    i += 1;
                }
                assert(all.take(all.len() as int) =~= all);
                None
            },
            _ => None,
        }
    }
}

/// The content of a `serde_json` value.
pub uninterp spec fn json_content(v: serde_json::Value) -> JsonView;

/// Takes a `serde_json::Value` apart, variant by variant; what comes out
/// holds the same nulls, booleans, numbers, texts, array items and members,
/// in the same order.
#[verifier::external_body]
fn from_json(v: serde_json::Value) -> (r: Json)
    ensures
        r@ == json_content(v),
{
    match v {
        serde_json::Value::Null => Json::Null,
        serde_json::Value::Bool(b) => Json::Boolean(b),
        serde_json::Value::Number(n) => match n.as_i64() {
            Some(i) => Json::Integer(i),
            None => Json::Decimal(n.to_string()),
        },
        serde_json::Value::String(s) => Json::Text(s),
        serde_json::Value::Array(a) => Json::Array(a.into_iter().map(from_json).collect()),
        serde_json::Value::Object(m) => Json::Object(
            m.into_iter().map(|e| (e.0, from_json(e.1))).collect(),
        ),
    }
}

impl Json {
    /// The library's form of a `serde_json` value.
    pub fn from_serde(v: serde_json::Value) -> (r: Json)
        ensures
            r@ == json_content(v),
    {
        from_json(v)
    }
}

/// Builds the `serde_json::Value` that holds what `v` holds, variant by
/// variant.
#[verifier::external_body]
fn to_serde(v: &Json) -> serde_json::Value {
    match v {
        Json::Null => serde_json::Value::Null,
        Json::Boolean(b) => serde_json::Value::Bool(*b),
        Json::Integer(i) => serde_json::Value::Number((*i).into()),
        Json::Decimal(s) => serde_json::from_str(s).unwrap_or(serde_json::Value::Null),
        Json::Text(s) => serde_json::Value::String(s.clone()),
        Json::Array(a) => serde_json::Value::Array(a.iter().map(to_serde).collect()),
        Json::Object(m) => serde_json::Value::Object(
            m.iter().map(|e| (e.0.clone(), to_serde(&e.1))).collect(),
        ),
    }
}

/// Whether `jsonschema` builds a validator for a schema.
pub uninterp spec fn json_schema_accepted(schema: JsonView, formats: bool) -> bool;

/// `jsonschema::options().should_validate_formats(formats).build(schema)`:
/// the text of its error, or `None` where it builds a validator. Whether it
/// builds one depends on the schema and the option alone: other documents
/// that the schema refers to are not fetched. Nothing is claimed of the text:
/// of several such references, the one that it names may be any.
#[verifier::external_body]
pub(crate) fn schema_error(schema: &Json, formats: bool) -> (r: Option<String>)
    ensures
        r is None == json_schema_accepted(schema@, formats),
{
    let built = jsonschema::options().should_validate_formats(formats).build(&to_serde(schema));
    built.err().map(|e| e.to_string())
}

/// Whether a value meets a schema that `jsonschema` accepts.
pub uninterp spec fn json_meets(schema: JsonView, formats: bool, value: JsonView) -> bool;

/// `Validator::is_valid`, of the validator that `jsonschema::options()` builds
/// for the schema: whether the value meets it. It depends on the schema, the
/// option and the value alone.
#[verifier::external_body]
pub(crate) fn meets_schema(schema: &Json, formats: bool, value: &Json) -> (r: bool)
    requires
        json_schema_accepted(schema@, formats),
    ensures
        r == json_meets(schema@, formats, value@),
{
    let built = jsonschema::options().should_validate_formats(formats).build(&to_serde(schema));
    built.is_ok_and(|v| v.is_valid(&to_serde(value)))
}

} // verus!
