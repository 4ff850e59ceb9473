//! YAML values.

use serde_yaml::value::{Tag, TaggedValue};
use serde_yaml::Number;
use crate::text::option_text;
use vstd::prelude::*;

verus! {

#[verifier::external_type_specification]
#[verifier::external_body]
pub struct ExNumber(serde_yaml::Number);

#[verifier::external_type_specification]
#[verifier::external_body]
pub struct ExYamlValue(serde_yaml::Value);

#[verifier::external_type_specification]
#[verifier::external_body]
pub struct ExYamlTag(serde_yaml::value::Tag);

/// `Tag::clone` gives an equal tag.
pub assume_specification[ <serde_yaml::value::Tag as Clone>::clone ](
    t: &serde_yaml::value::Tag,
) -> (r: serde_yaml::value::Tag)
    ensures
        r == *t,
;

/// `Number::clone` gives an equal number.
pub assume_specification[ <serde_yaml::Number as Clone>::clone ](n: &serde_yaml::Number) -> (r: serde_yaml::Number)
    ensures
        r == *n,
;

/// A YAML value. Mappings keep the order of their entries.
#[derive(Debug, PartialEq)]
pub enum Yaml {
    Null,
    Boolean(bool),
    Numeric(Number),
    Text(String),
    Sequence(Vec<Yaml>),
    Mapping(Vec<(Yaml, Yaml)>),
    Tagged(Tag, Box<Yaml>),
}

/// What a [`Yaml`] holds.
pub enum YamlView {
    Null,
    Boolean(bool),
    Numeric(Number),
    Text(Seq<char>),
    Sequence(Seq<YamlView>),
    Mapping(Seq<(YamlView, YamlView)>),
    Tagged(Tag, Box<YamlView>),
}

pub open spec fn value_view(v: Yaml) -> YamlView
    decreases v,
{
    match v {
        Yaml::Null => YamlView::Null,
        Yaml::Boolean(b) => YamlView::Boolean(b),
        Yaml::Numeric(n) => YamlView::Numeric(n),
        Yaml::Text(s) => YamlView::Text(s@),
        Yaml::Sequence(items) => YamlView::Sequence(values_view(items@)),
        Yaml::Mapping(entries) => YamlView::Mapping(pairs_view(entries@)),
        Yaml::Tagged(tag, inner) => YamlView::Tagged(tag, Box::new(value_view(*inner))),
    }
}

pub open spec fn values_view(v: Seq<Yaml>) -> Seq<YamlView>
    decreases v,
{
    Seq::new(
        v.len(),
        |i: int|
            if 0 <= i < v.len() {
                value_view(v[i])
            } else {
                YamlView::Null
            },
    )
}

pub open spec fn pairs_view(v: Seq<(Yaml, Yaml)>) -> Seq<(YamlView, YamlView)>
    decreases v,
{
    Seq::new(
        v.len(),
        |i: int|
            if 0 <= i < v.len() {
                (value_view(v[i].0), value_view(v[i].1))
            } else {
                (YamlView::Null, YamlView::Null)
            },
    )
}

impl View for Yaml {
    type V = YamlView;

    open spec fn view(&self) -> YamlView {
        value_view(*self)
    }
}

/// The content of a `serde_yaml` value.
pub uninterp spec fn yaml_content(v: serde_yaml::Value) -> YamlView;

/// Takes a `serde_yaml::Value` apart, variant by variant; what comes out
/// holds the same nulls, booleans, numbers, texts, sequences, mapping
/// entries and tags, in the same order.
#[verifier::external_body]
fn from_yaml(v: serde_yaml::Value) -> (r: Yaml)
    ensures
        r@ == yaml_content(v),
{
    match v {
        serde_yaml::Value::Null => Yaml::Null,
        serde_yaml::Value::Bool(b) => Yaml::Boolean(b),
        serde_yaml::Value::Number(n) => Yaml::Numeric(n),
        serde_yaml::Value::String(s) => Yaml::Text(s),
        serde_yaml::Value::Sequence(s) => Yaml::Sequence(s.into_iter().map(from_yaml).collect()),
        serde_yaml::Value::Mapping(m) => Yaml::Mapping(
            m.into_iter().map(|e| (from_yaml(e.0), from_yaml(e.1))).collect(),
        ),
        serde_yaml::Value::Tagged(t) => Yaml::Tagged(
            t.tag,
            Box::new(from_yaml(t.value)),
        ),
    }
}

impl Yaml {
    /// The library's form of a `serde_yaml` value.
    pub fn from_serde(v: serde_yaml::Value) -> (r: Yaml)
        ensures
            r@ == yaml_content(v),
    {
        from_yaml(v)
    }
}

/// Builds the `serde_yaml::Value` that holds what `v` holds, variant by
/// variant.
#[verifier::external_body]
fn to_yaml(v: &Yaml) -> serde_yaml::Value {
    match v {
        Yaml::Null => serde_yaml::Value::Null,
        Yaml::Boolean(b) => serde_yaml::Value::Bool(*b),
        Yaml::Numeric(n) => serde_yaml::Value::Number(n.clone()),
        Yaml::Text(s) => serde_yaml::Value::String(s.clone()),
        Yaml::Sequence(s) => serde_yaml::Value::Sequence(s.iter().map(to_yaml).collect()),
        Yaml::Mapping(m) => serde_yaml::Value::Mapping(
            m.iter().map(|e| (to_yaml(&e.0), to_yaml(&e.1))).collect(),
        ),
        Yaml::Tagged(t, v) => serde_yaml::Value::Tagged(
            Box::new(TaggedValue { tag: t.clone(), value: to_yaml(v) }),
        ),
    }
}

/// The form that `{:?}` gives a `serde_yaml` value.
pub uninterp spec fn yaml_debug(v: YamlView) -> Seq<char>;

/// `serde_yaml::Value` formatted with `{:?}`: a text that depends on what
/// the value holds alone.
#[verifier::external_body]
pub(crate) fn debug_text(v: &Yaml) -> (r: String)
    ensures
        r@ == yaml_debug(v@),
{
    format!("{:?}", to_yaml(v))
}

/// The YAML text that `serde_yaml` writes for a value, if it can.
pub uninterp spec fn yaml_text(v: YamlView) -> Option<Seq<char>>;

/// `serde_yaml::to_string`: a text that depends on what the value holds
/// alone, `None` for its error.
#[verifier::external_body]
pub(crate) fn to_text(v: &Yaml) -> (r: Option<String>)
    ensures
        option_text(r) == yaml_text(v@),
{
    serde_yaml::to_string(&to_yaml(v)).ok()
}

/// The decimal form that `serde_yaml` gives a number.
pub uninterp spec fn number_text(n: Number) -> Seq<char>;

/// `Number` formatted with `{}`.
#[verifier::external_body]
pub(crate) fn numeric_text(n: &Number) -> (r: String)
    ensures
        r@ == number_text(*n),
{
    n.to_string()
}

/// A copy of a list of values.
pub fn copy_values(v: &Vec<Yaml>) -> (r: Vec<Yaml>)
    ensures
        values_view(r@) == values_view(v@),
    decreases v@,
{
    let mut out: Vec<Yaml> = Vec::new();
    let mut i: usize = 0;
    while i < v.len()
        invariant
            i <= v.len(),
            out.len() == i,
            forall|k: int| 0 <= k < i ==> (#[trigger] out[k])@ == v[k]@,
        decreases v.len() - i,
    {
        let c = copy_value(&v[i]);
        out.push(c);
        i += 1;
    }
    assert(values_view(out@) =~= values_view(v@));
    out
}

/// A copy of a list of mapping entries.
pub fn copy_pairs(v: &Vec<(Yaml, Yaml)>) -> (r: Vec<(Yaml, Yaml)>)
    ensures
        pairs_view(r@) == pairs_view(v@),
    decreases v@,
{
    let mut out: Vec<(Yaml, Yaml)> = Vec::new();
    let mut i: usize = 0;
    while i < v.len()
        invariant
            i <= v.len(),
            out.len() == i,
            forall|k: int|
                0 <= k < i ==> (#[trigger] out[k]).0@ == v[k].0@ && out[k].1@ == v[k].1@,
        decreases v.len() - i,
    {
        assert(decreases_to!(v@ => v@[i as int]));
        let a = copy_value(&v[i].0);
        let b = copy_value(&v[i].1);
        out.push((a, b));
        i += 1;
    }
    assert(pairs_view(out@) =~= pairs_view(v@));
    out
}

/// A copy of a value.
pub fn copy_value(v: &Yaml) -> (r: Yaml)
    ensures
        r@ == v@,
    decreases v,
{
    match v {
        Yaml::Null => Yaml::Null,
        Yaml::Boolean(b) => Yaml::Boolean(*b),
        Yaml::Numeric(n) => Yaml::Numeric(n.clone()),
        Yaml::Text(s) => Yaml::Text(s.clone()),
        Yaml::Sequence(items) => Yaml::Sequence(copy_values(items)),
        Yaml::Mapping(entries) => Yaml::Mapping(copy_pairs(entries)),
        Yaml::Tagged(tag, inner) => Yaml::Tagged(tag.clone(), Box::new(copy_value(inner))),
    }
}

impl Clone for Yaml {
    fn clone(&self) -> (r: Yaml)
        ensures
            r@ == self@,
    {
        copy_value(self)
    }
}

/// A value without the tags around it.
pub open spec fn untagged(v: YamlView) -> YamlView
    decreases v,
{
    match v {
        YamlView::Tagged(_, inner) => untagged(*inner),
        _ => v,
    }
}

/// A value without the tags around it.
pub fn untag(v: &Yaml) -> (r: &Yaml)
    ensures
        r@ == untagged(v@),
    decreases v,
{
    match v {
        Yaml::Tagged(_, inner) => untag(inner),
        _ => v,
    }
}

} // verus!
