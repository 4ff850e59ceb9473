//! JSON values of front matter and of `Key: Value` properties.

use crate::json_value::{json_member, jsons_view, members_view, Json, JsonView};
use crate::ordered::{distinct_keys, has_key, lookup, stored, stored_then_looked_up};
use crate::schema::{property_schema, FieldDef, FieldType, TypeDef};
use crate::text::{decimal, decimal_reads_back, option_text, parse_i64, spelled_i64};
use crate::value::{pairs_view, untagged, values_view, Yaml, YamlView};
use serde_yaml::Number;
use vstd::prelude::*;

verus! {

/// The 64-bit integer that a number is.
pub uninterp spec fn number_integer(n: Number) -> Option<i64>;

/// `serde_yaml::Number::as_i64`: the number as a 64-bit integer, if it is
/// one.
#[verifier::external_body]
fn as_integer(n: &Number) -> (r: Option<i64>)
    ensures
        r == number_integer(*n),
{
    n.as_i64()
}

/// The JSON text of a number as a floating point number.
pub uninterp spec fn number_decimal(n: Number) -> Option<Seq<char>>;

/// `serde_yaml::Number::as_f64`, then `serde_json::Number::from_f64`: the
/// text of the floating point number nearest to the number; `None` where JSON
/// has none (an infinity, or not a number).
#[verifier::external_body]
fn as_decimal(n: &Number) -> (r: Option<String>)
    ensures
        option_text(r) == number_decimal(*n),
{
    match n.as_f64().and_then(serde_json::Number::from_f64) {
        Some(x) => Some(x.to_string()),
        None => None,
    }
}

/// A number in JSON.
pub open spec fn number_json(n: Number) -> JsonView {
    match number_integer(n) {
        Some(i) => JsonView::Integer(i),
        None => match number_decimal(n) {
            Some(t) => JsonView::Decimal(t),
            None => JsonView::Null,
        },
    }
}

/// A YAML value in JSON. Tags are dropped, and so are mapping entries whose
/// key is not text.
pub open spec fn plain_json(v: YamlView) -> JsonView
    decreases v,
{
    match v {
        YamlView::Null => JsonView::Null,
        YamlView::Boolean(b) => JsonView::Boolean(b),
        YamlView::Numeric(n) => number_json(n),
        YamlView::Text(s) => JsonView::Text(s),
        YamlView::Sequence(items) => JsonView::Array(plain_array(items)),
        YamlView::Mapping(entries) => JsonView::Object(plain_object(entries)),
        YamlView::Tagged(_, inner) => plain_json(*inner),
    }
}

/// YAML values in JSON.
pub open spec fn plain_array(items: Seq<YamlView>) -> Seq<JsonView>
    decreases items,
{
    if items.len() == 0 {
        Seq::empty()
    } else {
        plain_array(items.drop_last()).push(plain_json(items[items.len() - 1]))
    }
}

/// Mapping entries as the members of an object.
pub open spec fn plain_object(entries: Seq<(YamlView, YamlView)>) -> Seq<(Seq<char>, JsonView)>
    decreases entries,
{
    if entries.len() == 0 {
        Seq::empty()
    } else {
        with_entry(plain_object(entries.drop_last()), entries[entries.len() - 1])
    }
}

/// Members with one more mapping entry stored.
pub open spec fn with_entry(members: Seq<(Seq<char>, JsonView)>, e: (YamlView, YamlView)) -> Seq<
    (Seq<char>, JsonView),
>
    decreases e,
{
    match e.0 {
        YamlView::Text(key) => stored(members, key, plain_json(e.1)),
        _ => members,
    }
}

/// Store a member in an object.
pub fn put_member(members: &mut Vec<(String, Json)>, key: String, value: Json)
    requires
        distinct_keys(members_view(old(members)@)),
    ensures
        members_view(final(members)@) == stored(members_view(old(members)@), key@, value@),
        distinct_keys(members_view(final(members)@)),
{
    let ghost was = members_view(members@);
    let ghost entry = (key@, value@);
    proof {
        stored_then_looked_up(was, key@, value@, key@);
    }
    let mut i: usize = 0;
    while i < members.len()
        invariant
            i <= members.len(),
            was == members_view(members@),
            was == members_view(old(members)@),
            entry == (key@, value@),
            distinct_keys(was),
            distinct_keys(stored(was, key@, value@)),
            forall|k: int| 0 <= k < i ==> (#[trigger] was[k]).0 != key@,
        decreases members.len() - i,
    {
        if members[i].0.as_str().eq(key.as_str()) {
            assert(was[i as int].0 == key@);
            assert(has_key(was, key@));
            assert forall|k: int| 0 <= k < was.len() && k != i implies (#[trigger] was[k]).0
                != key@ by {
                if k < i {
                    assert(was[k].0 != was[i as int].0);
                } else {
                    assert(was[i as int].0 != was[k].0);
                }
            }
            members.set(i, (key, value));
            assert(members_view(members@) =~= stored(was, entry.0, entry.1));
            return;
        }
        i += 1;
    }
    assert(!has_key(was, key@));
    members.push((key, value));
    assert(members_view(members@) =~= was.push(entry));
}

/// A YAML value in JSON.
pub fn yaml_to_json(value: &Yaml) -> (r: Json)
    ensures
        r@ == plain_json(value@),
    decreases value,
{
    match value {
        Yaml::Null => Json::Null,
        Yaml::Boolean(b) => Json::Boolean(*b),
        Yaml::Numeric(n) => match as_integer(n) {
            Some(i) => Json::Integer(i),
            None => match as_decimal(n) {
                Some(t) => Json::Decimal(t),
                None => Json::Null,
            },
        },
        Yaml::Text(s) => Json::Text(s.clone()),
        Yaml::Sequence(items) => Json::Array(array_to_json(items)),
        Yaml::Mapping(entries) => Json::Object(mapping_to_json(entries)),
        Yaml::Tagged(_, inner) => yaml_to_json(inner),
    }
}

fn array_to_json(items: &Vec<Yaml>) -> (r: Vec<Json>)
    ensures
        jsons_view(r@) == plain_array(values_view(items@)),
    decreases items@,
{
    let ghost s = values_view(items@);
    let mut out: Vec<Json> = Vec::new();
    let mut i: usize = 0;
    assert(jsons_view(out@) =~= plain_array(s.take(0)));
    while i < items.len()
        invariant
            i <= items.len(),
            s == values_view(items@),
            jsons_view(out@) == plain_array(s.take(i as int)),
        decreases items.len() - i,
    {
        assert(s.take(i + 1).drop_last() =~= s.take(i as int));
        assert(s.take(i + 1)[i as int] == items@[i as int]@);
        let ghost was = out@;
        let j = yaml_to_json(&items[i]);
        out.push(j);
        assert(jsons_view(out@) =~= jsons_view(was).push(j@));
        i += 1;
    }
    assert(s.take(s.len() as int) =~= s);
    out
}

fn mapping_to_json(entries: &Vec<(Yaml, Yaml)>) -> (r: Vec<(String, Json)>)
    ensures
        members_view(r@) == plain_object(pairs_view(entries@)),
        distinct_keys(members_view(r@)),
    decreases entries@,
{
    let ghost s = pairs_view(entries@);
    let mut out: Vec<(String, Json)> = Vec::new();
    let mut i: usize = 0;
    assert(members_view(out@) =~= plain_object(s.take(0)));
    while i < entries.len()
        invariant
            i <= entries.len(),
            s == pairs_view(entries@),
            distinct_keys(members_view(out@)),
            members_view(out@) == plain_object(s.take(i as int)),
        decreases entries.len() - i,
    {
        assert(s.take(i + 1).drop_last() =~= s.take(i as int));
        assert(s.take(i + 1)[i as int] == (entries@[i as int].0@, entries@[i as int].1@));
        assert(decreases_to!(entries@ => entries@[i as int]));
        let ghost was = members_view(out@);
        if let Yaml::Text(key) = &entries[i].0 {
            let j = yaml_to_json(&entries[i].1);
            put_member(&mut out, key.clone(), j);
        }
        assert(members_view(out@) == with_entry(was, s[i as int]));
        i += 1;
    }
    assert(s.take(s.len() as int) =~= s);
    out
}

/// A YAML value in JSON, as a field of the given type: texts that spell an
/// integer or a truth value become one where the field has that type, and
/// the items of a list are taken as fields of the item type.
pub open spec fn typed_json(v: YamlView, t: FieldType, item: Option<FieldType>) -> JsonView
    decreases v,
{
    match (t, v) {
        (FieldType::Integer, YamlView::Text(s)) => match spelled_i64(s) {
            Some(n) => JsonView::Integer(n as i64),
            None => JsonView::Text(s),
        },
        (FieldType::Bool, YamlView::Text(s)) => if s == "true"@ || s == "yes"@ {
            JsonView::Boolean(true)
        } else if s == "false"@ || s == "no"@ {
            JsonView::Boolean(false)
        } else {
            JsonView::Text(s)
        },
        (FieldType::List, YamlView::Sequence(items)) => match item {
            Some(it) => JsonView::Array(typed_array(items, it)),
            None => JsonView::Array(plain_array(items)),
        },
        _ => plain_json(v),
    }
}

/// YAML values in JSON, as fields of the given type.
pub open spec fn typed_array(items: Seq<YamlView>, t: FieldType) -> Seq<JsonView>
    decreases items,
{
    if items.len() == 0 {
        Seq::empty()
    } else {
        typed_array(items.drop_last(), t).push(typed_json(items[items.len() - 1], t, None))
    }
}

/// A YAML value in JSON, as a field of the given type.
pub fn coerce_by_type(value: &Yaml, field_type: FieldType, item_type: Option<FieldType>) -> (r: Json)
    ensures
        r@ == typed_json(value@, field_type, item_type),
    decreases value,
{
    match (field_type, value) {
        (FieldType::Integer, Yaml::Text(s)) => match parse_i64(s.as_str()) {
            Some(n) => Json::Integer(n),
            None => Json::Text(s.clone()),
        },
        (FieldType::Bool, Yaml::Text(s)) => {
            let t = s.as_str();
            if t.eq("true") || t.eq("yes") {
                Json::Boolean(true)
            } else if t.eq("false") || t.eq("no") {
                Json::Boolean(false)
            } else {
                Json::Text(s.clone())
            }
        },
        (FieldType::List, Yaml::Sequence(items)) => match item_type {
            Some(it) => Json::Array(coerce_items(items, it)),
            None => Json::Array(array_to_json(items)),
        },
        _ => yaml_to_json(value),
    }
}

fn coerce_items(items: &Vec<Yaml>, t: FieldType) -> (r: Vec<Json>)
    ensures
        jsons_view(r@) == typed_array(values_view(items@), t),
    decreases items@,
{
    let ghost s = values_view(items@);
    let mut out: Vec<Json> = Vec::new();
    let mut i: usize = 0;
    assert(jsons_view(out@) =~= typed_array(s.take(0), t));
    while i < items.len()
        invariant
            i <= items.len(),
            s == values_view(items@),
            jsons_view(out@) == typed_array(s.take(i as int), t),
        decreases items.len() - i,
    {
        assert(s.take(i + 1).drop_last() =~= s.take(i as int));
        assert(s.take(i + 1)[i as int] == items@[i as int]@);
        let ghost was = out@;
        let j = coerce_by_type(&items[i], t, None);
        out.push(j);
        assert(jsons_view(out@) =~= jsons_view(was).push(j@));
        i += 1;
    }
    assert(s.take(s.len() as int) =~= s);
    out
}

/// The text of a property, as a field of the given definition.
pub open spec fn property_json(value: Seq<char>, def: FieldDef) -> JsonView {
    typed_json(YamlView::Text(value), def.field_type, def.item_type)
}

/// Coerce a property value text to JSON using the declared field type.
pub fn coerce_property_str(value: &str, def: &FieldDef) -> (r: Json)
    ensures
        r@ == property_json(value@, *def),
{
    let v = Yaml::Text(String::from_str(value));
    coerce_by_type(&v, def.field_type, def.item_type)
}

/// The field type that a json-schema's `type` asks for, where it bears on
/// how a value is read.
pub open spec fn schema_type(schema: JsonView) -> Option<FieldType> {
    match json_member(schema, "type"@) {
        Some(JsonView::Text(t)) => if t == "integer"@ {
            Some(FieldType::Integer)
        } else if t == "boolean"@ {
            Some(FieldType::Bool)
        } else if t == "array"@ {
            Some(FieldType::List)
        } else {
            None
        },
        _ => None,
    }
}

/// The field type that a json-schema's `type` asks for.
fn schema_field_type(schema: &Json) -> (r: Option<FieldType>)
    ensures
        r == schema_type(schema@),
{
    match schema.get("type") {
        Some(Json::Text(t)) => {
            let t = t.as_str();
            if t.eq("integer") {
                Some(FieldType::Integer)
            } else if t.eq("boolean") {
                Some(FieldType::Bool)
            } else if t.eq("array") {
                Some(FieldType::List)
            } else {
                None
            }
        },
        _ => None,
    }
}

/// A front matter value in JSON, read as the json-schema of its property
/// asks for.
pub open spec fn field_json(v: YamlView, schema: Option<JsonView>) -> JsonView {
    match schema {
        Some(s) => match schema_type(s) {
            Some(t) => typed_json(
                v,
                t,
                match json_member(s, "items"@) {
                    Some(items) => schema_type(items),
                    None => None,
                },
            ),
            None => plain_json(v),
        },
        None => plain_json(v),
    }
}

/// The json-schema of a property, where the type is known.
pub open spec fn declared_schema(td: Option<TypeDef>, key: Seq<char>) -> Option<JsonView> {
    match td {
        Some(td) => property_schema(td, key),
        None => None,
    }
}

/// The type behind an optional reference.
pub open spec fn option_type(td: Option<&TypeDef>) -> Option<TypeDef> {
    match td {
        Some(td) => Some(*td),
        None => None,
    }
}

/// A front matter value in JSON.
pub fn coerce_field_value(value: &Yaml, key: &str, type_def: Option<&TypeDef>) -> (r: Json)
    ensures
        r@ == field_json(value@, declared_schema(option_type(type_def), key@)),
{
    match type_def {
        Some(td) => match td.frontmatter_property(key) {
            Some(s) => match schema_field_type(s) {
                Some(t) => {
                    let item = match s.get("items") {
                        Some(items) => schema_field_type(items),
                        None => None,
                    };
                    coerce_by_type(value, t, item)
                },
                None => yaml_to_json(value),
            },
            None => yaml_to_json(value),
        },
        None => yaml_to_json(value),
    }
}

/// A list in JSON has one value for each item, in order.
pub proof fn every_item_is_a_value(items: Seq<YamlView>, t: FieldType)
    ensures
        plain_array(items).len() == items.len(),
        typed_array(items, t).len() == items.len(),
        forall|i: int|
            0 <= i < items.len() ==> #[trigger] plain_array(items)[i] == plain_json(items[i]),
        forall|i: int|
            0 <= i < items.len() ==> #[trigger] typed_array(items, t)[i] == typed_json(
                items[i],
                t,
                None,
            ),
    decreases items.len(),
{
    reveal_with_fuel(plain_array, 2);
    reveal_with_fuel(plain_json, 2);
    reveal_with_fuel(typed_array, 2);
    if items.len() > 0 {
        let f = items.drop_last();
        every_item_is_a_value(f, t);
        assert forall|i: int| 0 <= i < items.len() implies #[trigger] plain_array(items)[i]
            == plain_json(items[i]) by {
            if i < f.len() {
                assert(plain_array(f)[i] == plain_json(f[i]));
            }
        }
        assert forall|i: int| 0 <= i < items.len() implies #[trigger] typed_array(items, t)[i]
            == typed_json(items[i], t, None) by {
            if i < f.len() {
                assert(typed_array(f, t)[i] == typed_json(f[i], t, None));
            }
        }
    }
}

/// A value keeps its kind and what it holds: null is null, a boolean the same
/// boolean, a text the same text, an integer the same integer, and a tag
/// changes nothing.
pub proof fn a_value_keeps_its_kind(v: YamlView, t: FieldType, item: Option<FieldType>)
    ensures
        plain_json(v) == plain_json(untagged(v)),
        plain_json(v) is Boolean ==> untagged(v) == YamlView::Boolean(plain_json(v)->Boolean_0),
        plain_json(v) is Text ==> untagged(v) == YamlView::Text(plain_json(v)->Text_0),
        plain_json(v) is Array <==> untagged(v) is Sequence,
        plain_json(v) is Object <==> untagged(v) is Mapping,
        untagged(v) is Boolean ==> plain_json(v) is Boolean,
        untagged(v) is Text ==> plain_json(v) is Text,
        untagged(v) is Null ==> plain_json(v) is Null,
        untagged(v) matches YamlView::Numeric(n) ==> (number_integer(n) matches Some(i)
            ==> plain_json(v) == JsonView::Integer(i)),
        plain_json(v) is Null ==> untagged(v) is Null || untagged(v) is Numeric,
        !(v is Text) && !(v is Sequence) ==> typed_json(v, t, item) == plain_json(v),
    decreases v,
{
    match v {
        YamlView::Tagged(_, inner) => {
            a_value_keeps_its_kind(*inner, t, item);
        },
        _ => {},
    }
}

/// A text in a field that is declared as an integer or a boolean is read as
/// one where it spells one, and stays a text where it does not; in any other
/// field it stays a text.
pub proof fn a_text_is_read_as_declared(s: Seq<char>, n: nat, t: FieldType, item: Option<FieldType>)
    requires
        n <= i64::MAX,
    ensures
        ({
            let whole = YamlView::Text(decimal(n));
            &&& typed_json(whole, FieldType::Integer, item) == JsonView::Integer(n as i64)
            &&& typed_json(YamlView::Text("true"@), FieldType::Bool, item) == JsonView::Boolean(
                true,
            )
            &&& typed_json(YamlView::Text("yes"@), FieldType::Bool, item) == JsonView::Boolean(true)
            &&& typed_json(YamlView::Text("false"@), FieldType::Bool, item) == JsonView::Boolean(
                false,
            )
            &&& typed_json(YamlView::Text("no"@), FieldType::Bool, item) == JsonView::Boolean(false)
            &&& s != "true"@ && s != "yes"@ && s != "false"@ && s != "no"@ ==> typed_json(
                YamlView::Text(s),
                FieldType::Bool,
                item,
            ) == JsonView::Text(s)
            &&& !(t is Integer) && !(t is Bool) ==> typed_json(YamlView::Text(s), t, item)
                == JsonView::Text(s)
            &&& (exists|i: int| 0 <= i < s.len() && !('0' <= #[trigger] s[i] <= '9') && i > 0)
                ==> typed_json(YamlView::Text(s), FieldType::Integer, item) == JsonView::Text(s)
        }),
{
    decimal_reads_back(n);
    reveal_strlit("true");
    reveal_strlit("yes");
    reveal_strlit("false");
    reveal_strlit("no");
    assert("true"@.len() == 4 && "yes"@.len() == 3 && "false"@.len() == 5 && "no"@.len() == 2);
    if exists|i: int| 0 <= i < s.len() && !('0' <= #[trigger] s[i] <= '9') && i > 0 {
        let i = choose|i: int| 0 <= i < s.len() && !('0' <= #[trigger] s[i] <= '9') && i > 0;
        let signed = s[0] == '-' || s[0] == '+';
        if signed {
            assert(s.skip(1)[i - 1] == s[i]);
        }
    }
}

/// An object has the entries of a mapping whose keys are texts, under these
/// keys; of two with the same key the later counts.
pub proof fn an_object_has_the_entries(entries: Seq<(YamlView, YamlView)>, key: Seq<char>)
    ensures
        distinct_keys(plain_object(entries)),
        (forall|i: int| 0 <= i < entries.len() ==> (#[trigger] entries[i]).0 != YamlView::Text(key))
            ==> lookup(plain_object(entries), key) is None,
        forall|i: int|
            0 <= i < entries.len() && (#[trigger] entries[i]).0 == YamlView::Text(key) && (forall|
                j: int,
            |
                i < j < entries.len() ==> (#[trigger] entries[j]).0 != YamlView::Text(key))
                ==> lookup(plain_object(entries), key) == Some(plain_json(entries[i].1)),
    decreases entries.len(),
{
    reveal_with_fuel(plain_object, 2);
    reveal_with_fuel(with_entry, 2);
    if entries.len() > 0 {
        let f = entries.drop_last();
        let n = entries.len() - 1;
        an_object_has_the_entries(f, key);
        if let YamlView::Text(k) = entries[n].0 {
            stored_then_looked_up(plain_object(f), k, plain_json(entries[n].1), key);
        }
        if forall|i: int| 0 <= i < entries.len() ==> (#[trigger] entries[i]).0 != YamlView::Text(key) {
            assert forall|i: int| 0 <= i < f.len() implies (#[trigger] f[i]).0 != YamlView::Text(
                key,
            ) by {
                assert(f[i] == entries[i]);
            }
            assert(entries[n].0 != YamlView::Text(key));
        }
        assert forall|i: int|
            0 <= i < entries.len() && (#[trigger] entries[i]).0 == YamlView::Text(key) && (forall|
                j: int,
            |
                i < j < entries.len() ==> (#[trigger] entries[j]).0 != YamlView::Text(
                    key,
                )) implies lookup(plain_object(entries), key) == Some(plain_json(entries[i].1)) by {
            if i < n {
                assert(entries[n].0 != YamlView::Text(key));
                assert(f[i] == entries[i]);
                assert forall|j: int| i < j < f.len() implies (#[trigger] f[j]).0 != YamlView::Text(
                    key,
                ) by {
                    assert(f[j] == entries[j]);
                }
            }
        }
    }
}

/// A field is read as its json-schema says: as an integer or a boolean, or as
/// an array with its items as their schema says. Declared otherwise, or not
/// at all, it stays as it is.
pub proof fn a_field_is_read_as_its_schema_says(
    s: JsonView,
    of: JsonView,
    n: nat,
    items: Seq<YamlView>,
    v: YamlView,
)
    requires
        n <= i64::MAX,
    ensures
        json_member(s, "type"@) == Some(JsonView::Text("integer"@)) ==> field_json(
            YamlView::Text(decimal(n)),
            Some(s),
        ) == JsonView::Integer(n as i64),
        json_member(s, "type"@) == Some(JsonView::Text("boolean"@)) ==> field_json(
            YamlView::Text("true"@),
            Some(s),
        ) == JsonView::Boolean(true) && field_json(YamlView::Text("no"@), Some(s))
            == JsonView::Boolean(false),
        json_member(s, "type"@) == Some(JsonView::Text("array"@)) && json_member(s, "items"@)
            == Some(of) && json_member(of, "type"@) == Some(JsonView::Text("integer"@))
            ==> field_json(YamlView::Sequence(items), Some(s)) == JsonView::Array(
            typed_array(items, FieldType::Integer),
        ),
        json_member(s, "type"@) == Some(JsonView::Text("array"@)) && json_member(s, "items"@)
            == Some(of) && json_member(of, "type"@) == Some(JsonView::Text("boolean"@))
            ==> field_json(YamlView::Sequence(items), Some(s)) == JsonView::Array(
            typed_array(items, FieldType::Bool),
        ),
        json_member(s, "type"@) is None || json_member(s, "type"@) == Some(
            JsonView::Text("string"@),
        ) ==> field_json(v, Some(s)) == plain_json(v),
        field_json(v, None) == plain_json(v),
{
    reveal_strlit("integer");
    reveal_strlit("boolean");
    reveal_strlit("array");
    reveal_strlit("string");
    assert("integer"@.len() == 7 && "boolean"@.len() == 7);
    assert("integer"@[0] == 'i' && "boolean"@[0] == 'b');
    assert("array"@.len() == 5 && "string"@.len() == 6);
    a_text_is_read_as_declared("true"@, n, FieldType::Bool, None);
    let item = match json_member(s, "items"@) {
        Some(x) => schema_type(x),
        None => None,
    };
    a_text_is_read_as_declared("true"@, n, FieldType::Bool, item);
    reveal_with_fuel(typed_json, 2);
}

} // verus!
