//! Documents as structured JSON.
//!
//! The `content` of a section is the markdown of what stands directly in it;
//! where that holds lists, `items` takes its place. Only nested lists count
//! as sub-items of an item.

use crate::ast::{
    blocks_view, copy_block, inlines_text, inlines_to_string, items_view, Block, BlockView,
    Document, DocumentView, FrontmatterView, ListItem, ListItemView,
};
use crate::coerce::{
    coerce_field_value, coerce_property_str, declared_schema, field_json, option_type,
    property_json, put_member,
};
use crate::json_value::{members_view, Json, JsonView};
use crate::links::{links_view, JsonLink, LinkView};
use crate::ordered::{
    distinct_keys, has_key, lookup, lookup_at, lookup_finds, stored, stored_then_looked_up, OrderedMap,
};
use crate::path::{path_text, relative_to, FilePath, PathView};
use crate::schema::{FieldDef, SectionDef, StructureDef, TypeDef};
use crate::serialize::{serialize_top, top_text};
use crate::standing::{all_leaves, links_among, links_come_in_reading_order, runs};
use crate::text::{
    contains, cut_once, first_at, first_at_is_first, has_part, lower, lowercase, option_text, split_once, stands_at, texts,
    trim, trim_char, trimmed, trimmed_char,
};
use vstd::prelude::*;

verus! {

// ── output types ──────────────────────────────────────────────────────────

/// A document.
#[derive(Debug)]
pub struct JsonDocument {
    pub path: String,
    pub doc_type: Option<String>,
    pub frontmatter: Json,
    pub title: Option<String>,
    pub intro: Option<SectionContent>,
    pub sections: Vec<JsonSection>,
}

/// A section.
#[derive(Debug)]
pub struct JsonSection {
    pub heading: String,
    /// Markdown of the section's direct content. Absent when `items` is not
    /// empty.
    pub content: Option<String>,
    /// Properties of the section as a whole, where its schema declares any
    /// and all its list items are flat `Key: Value` pairs. `items` is empty
    /// then.
    pub properties: OrderedMap<Json>,
    pub items: Vec<JsonItem>,
    pub links: Vec<JsonLink>,
    pub subsections: Vec<JsonSection>,
}

/// What stands directly in a section, or before the first.
#[derive(Debug)]
pub struct SectionContent {
    /// Markdown of the content. Absent when `items` is not empty.
    pub content: Option<String>,
    pub items: Vec<JsonItem>,
    pub links: Vec<JsonLink>,
}

/// A list item. Its `properties` come from its sub-list, where the section's
/// schema declares any; `items` is empty then.
#[derive(Debug)]
pub struct JsonItem {
    pub text: String,
    pub properties: OrderedMap<Json>,
    pub items: Vec<JsonItem>,
}

/// What a [`JsonItem`] holds.
pub struct JsonItemView {
    pub text: Seq<char>,
    pub properties: Seq<(Seq<char>, JsonView)>,
    pub items: Seq<JsonItemView>,
}

/// What a [`SectionContent`] holds.
#[verifier::ext_equal]
pub struct SectionContentView {
    pub content: Option<Seq<char>>,
    pub items: Seq<JsonItemView>,
    pub links: Seq<LinkView>,
}

/// What a [`JsonSection`] holds.
pub struct JsonSectionView {
    pub heading: Seq<char>,
    pub content: Option<Seq<char>>,
    pub properties: Seq<(Seq<char>, JsonView)>,
    pub items: Seq<JsonItemView>,
    pub links: Seq<LinkView>,
    pub subsections: Seq<JsonSectionView>,
}

/// What a [`JsonDocument`] holds.
pub struct JsonDocumentView {
    pub path: Seq<char>,
    pub doc_type: Option<Seq<char>>,
    pub frontmatter: JsonView,
    pub title: Option<Seq<char>>,
    pub intro: Option<SectionContentView>,
    pub sections: Seq<JsonSectionView>,
}

/// The content of a map of JSON values.
pub open spec fn properties_view(v: Seq<(Seq<char>, Json)>) -> Seq<(Seq<char>, JsonView)> {
    v.map_values(|e: (Seq<char>, Json)| (e.0, e.1@))
}

pub open spec fn json_item_view(i: JsonItem) -> JsonItemView
    decreases i,
{
    JsonItemView {
        text: i.text@,
        properties: properties_view(i.properties@),
        items: json_items_view(i.items@),
    }
}

/// The content of a list of items.
pub open spec fn json_items_view(v: Seq<JsonItem>) -> Seq<JsonItemView>
    decreases v,
{
    Seq::new(
        v.len(),
        |i: int|
            if 0 <= i < v.len() {
                json_item_view(v[i])
            } else {
                JsonItemView { text: Seq::empty(), properties: Seq::empty(), items: Seq::empty() }
            },
    )
}

impl View for JsonItem {
    type V = JsonItemView;

    open spec fn view(&self) -> JsonItemView {
        json_item_view(*self)
    }
}

impl View for SectionContent {
    type V = SectionContentView;

    open spec fn view(&self) -> SectionContentView {
        SectionContentView {
            content: option_text(self.content),
            items: json_items_view(self.items@),
            links: links_view(self.links@),
        }
    }
}

pub open spec fn json_section_view(s: JsonSection) -> JsonSectionView
    decreases s,
{
    JsonSectionView {
        heading: s.heading@,
        content: option_text(s.content),
        properties: properties_view(s.properties@),
        items: json_items_view(s.items@),
        links: links_view(s.links@),
        subsections: json_sections_view(s.subsections@),
    }
}

/// The content of a list of sections.
pub open spec fn json_sections_view(v: Seq<JsonSection>) -> Seq<JsonSectionView>
    decreases v,
{
    Seq::new(
        v.len(),
        |i: int|
            if 0 <= i < v.len() {
                json_section_view(v[i])
            } else {
                JsonSectionView {
                    heading: Seq::empty(),
                    content: None,
                    properties: Seq::empty(),
                    items: Seq::empty(),
                    links: Seq::empty(),
                    subsections: Seq::empty(),
                }
            },
    )
}

impl View for JsonSection {
    type V = JsonSectionView;

    open spec fn view(&self) -> JsonSectionView {
        json_section_view(*self)
    }
}

impl View for JsonDocument {
    type V = JsonDocumentView;

    open spec fn view(&self) -> JsonDocumentView {
        JsonDocumentView {
            path: self.path@,
            doc_type: option_text(self.doc_type),
            frontmatter: self.frontmatter@,
            title: option_text(self.title),
            intro: match self.intro {
                Some(c) => Some(c@),
                None => None,
            },
            sections: json_sections_view(self.sections@),
        }
    }
}

proof fn properties_stored(m: Seq<(Seq<char>, Json)>, key: Seq<char>, v: Json)
    ensures
        properties_view(stored(m, key, v)) == stored(properties_view(m), key, v@),
{
    if has_key(m, key) {
        let i = choose|i: int| 0 <= i < m.len() && (#[trigger] m[i]).0 == key;
        assert(properties_view(m)[i].0 == key);
    }
    if has_key(properties_view(m), key) {
        let i = choose|i: int|
            0 <= i < properties_view(m).len() && (#[trigger] properties_view(m)[i]).0 == key;
        assert(m[i].0 == key);
    }
    assert(properties_view(stored(m, key, v)) =~= stored(properties_view(m), key, v@));
}

// ── properties ────────────────────────────────────────────────────────────

/// `props` with the property that a `Key: Value` text gives: the key in lower
/// case, the value as its definition asks for, or as text where it has none.
/// Any other text leaves them.
pub open spec fn with_property(
    props: Seq<(Seq<char>, JsonView)>,
    text: Seq<char>,
    defs: Seq<(Seq<char>, FieldDef)>,
) -> Seq<(Seq<char>, JsonView)> {
    match cut_once(text, ": "@) {
        Some((k, v)) => {
            let key = lowercase(trimmed(k));
            stored(
                props,
                key,
                match lookup(defs, key) {
                    Some(def) => property_json(trimmed(v), def),
                    None => JsonView::Text(trimmed(v)),
                },
            )
        },
        None => props,
    }
}

fn add_property(props: &mut OrderedMap<Json>, text: &str, defs: &OrderedMap<FieldDef>)
    ensures
        properties_view(final(props)@) == with_property(
            properties_view(old(props)@),
            text@,
            defs@,
        ),
{
    if let Some((k, v)) = split_once(text, ": ") {
        let t = trim(k.as_str());
        let key = lower(t.as_str());
        let value = trim(v.as_str());
        let json = match defs.get(key.as_str()) {
            Some(def) => coerce_property_str(value.as_str(), def),
            None => Json::Text(value),
        };
        proof {
            properties_stored(props@, key@, json);
        }
        props.insert(key, json);
    }
}

/// `props` with the properties that list items give.
pub open spec fn with_item_properties(
    props: Seq<(Seq<char>, JsonView)>,
    items: Seq<ListItemView>,
    defs: Seq<(Seq<char>, FieldDef)>,
) -> Seq<(Seq<char>, JsonView)>
    decreases items.len(),
{
    if items.len() == 0 {
        props
    } else {
        with_property(
            with_item_properties(props, items.drop_last(), defs),
            inlines_text(items.last().content),
            defs,
        )
    }
}

/// The properties that the lists among an item's children give.
pub open spec fn child_properties(
    children: Seq<BlockView>,
    defs: Seq<(Seq<char>, FieldDef)>,
) -> Seq<(Seq<char>, JsonView)>
    decreases children.len(),
{
    if children.len() == 0 {
        Seq::empty()
    } else {
        let before = child_properties(children.drop_last(), defs);
        match children.last() {
            BlockView::List { items, .. } => with_item_properties(before, items, defs),
            _ => before,
        }
    }
}

fn add_item_properties(
    props: &mut OrderedMap<Json>,
    items: &Vec<ListItem>,
    defs: &OrderedMap<FieldDef>,
)
    ensures
        properties_view(final(props)@) == with_item_properties(
            properties_view(old(props)@),
            items_view(items@),
            defs@,
        ),
{
    let ghost s = items_view(items@);
    let ghost start = properties_view(props@);
    let mut i: usize = 0;
    assert(s.take(0) =~= Seq::empty());
    while i < items.len()
        invariant
            i <= items.len(),
            s == items_view(items@),
            start == properties_view(old(props)@),
            properties_view(props@) == with_item_properties(start, s.take(i as int), defs@),
        decreases items.len() - i,
    {
        assert(s.take(i + 1).drop_last() =~= s.take(i as int));
        assert(s.take(i + 1).last() == items@[i as int]@);
        let text = inlines_to_string(items[i].content.as_slice());
        add_property(props, text.as_str(), defs);
        i += 1;
    }
    assert(s.take(s.len() as int) =~= s);
}

/// The `Key: Value` pairs in the sub-lists of an item, each value as its
/// definition asks for. Unknown keys give texts.
fn extract_item_properties(item: &ListItem, defs: &OrderedMap<FieldDef>) -> (r: OrderedMap<Json>)
    ensures
        properties_view(r@) == child_properties(item@.children, defs@),
{
    let ghost s = blocks_view(item.children@);
    let mut out: OrderedMap<Json> = OrderedMap::new();
    let mut i: usize = 0;
    assert(properties_view(out@) =~= child_properties(s.take(0), defs@));
    while i < item.children.len()
        invariant
            i <= item.children.len(),
            s == blocks_view(item.children@),
            properties_view(out@) == child_properties(s.take(i as int), defs@),
        decreases item.children.len() - i,
    {
        assert(s.take(i + 1).drop_last() =~= s.take(i as int));
        assert(s.take(i + 1).last() == item.children@[i as int]@);
        if let Block::List { items, .. } = &item.children[i] {
            add_item_properties(&mut out, items, defs);
        }
        i += 1;
    }
    assert(s.take(s.len() as int) =~= s);
    out
}

// ── items ─────────────────────────────────────────────────────────────────

/// The definitions behind an optional map.
pub open spec fn option_defs(defs: Option<&OrderedMap<FieldDef>>) -> Option<
    Seq<(Seq<char>, FieldDef)>,
> {
    match defs {
        Some(d) => Some(d@),
        None => None,
    }
}

/// A list item in JSON. Sub-items do not inherit the definitions.
pub open spec fn item_json(item: ListItemView, defs: Option<Seq<(Seq<char>, FieldDef)>>) -> JsonItemView
    decreases item,
{
    let props = match defs {
        Some(d) => child_properties(item.children, d),
        None => Seq::empty(),
    };
    JsonItemView {
        text: inlines_text(item.content),
        properties: props,
        items: if props.len() == 0 {
            block_items(item.children, None)
        } else {
            Seq::empty()
        },
    }
}

/// List items in JSON.
pub open spec fn items_json(
    items: Seq<ListItemView>,
    defs: Option<Seq<(Seq<char>, FieldDef)>>,
) -> Seq<JsonItemView>
    decreases items,
{
    if items.len() == 0 {
        Seq::empty()
    } else {
        items_json(items.drop_last(), defs).push(item_json(items[items.len() - 1], defs))
    }
}

/// The items of a block, in JSON: those of a list, none of any other block.
pub open spec fn items_of_block(b: BlockView, defs: Option<Seq<(Seq<char>, FieldDef)>>) -> Seq<
    JsonItemView,
>
    decreases b,
{
    match b {
        BlockView::List { items, .. } => items_json(items, defs),
        _ => Seq::empty(),
    }
}

/// The items of all lists among blocks, in JSON.
pub open spec fn block_items(
    s: Seq<BlockView>,
    defs: Option<Seq<(Seq<char>, FieldDef)>>,
) -> Seq<JsonItemView>
    decreases s,
{
    if s.len() == 0 {
        Seq::empty()
    } else {
        block_items(s.drop_last(), defs) + items_of_block(s[s.len() - 1], defs)
    }
}

fn append_items(out: &mut Vec<JsonItem>, more: Vec<JsonItem>)
    ensures
        json_items_view(final(out)@) == json_items_view(old(out)@) + json_items_view(more@),
{
    let ghost a = out@;
    let ghost b = more@;
    let mut more = more;
    out.append(&mut more);
    assert(out@ =~= a + b);
    assert(json_items_view(a + b) =~= json_items_view(a) + json_items_view(b));
}

fn no_items() -> (r: Vec<JsonItem>)
    ensures
        json_items_view(r@) == Seq::<JsonItemView>::empty(),
        r@.len() == 0,
{
    let out: Vec<JsonItem> = Vec::new();
    assert(json_items_view(out@) =~= Seq::empty());
    out
}

/// A list item in JSON.
pub fn list_item_to_json_item(item: &ListItem, defs: Option<&OrderedMap<FieldDef>>) -> (r: JsonItem)
    ensures
        r@ == item_json(item@, option_defs(defs)),
    decreases item,
{
    let text = inlines_to_string(item.content.as_slice());
    let props = match defs {
        Some(d) => extract_item_properties(item, d),
        None => {
            let none: OrderedMap<Json> = OrderedMap::new();
            assert(properties_view(none@) =~= Seq::empty());
            none
        },
    };
    assert(properties_view(props@).len() == props@.len());
    let items = if props.is_empty() {
        children_to_items(&item.children)
    } else {
        no_items()
    };
    JsonItem { text, properties: props, items }
}

fn list_to_items(items: &Vec<ListItem>, defs: Option<&OrderedMap<FieldDef>>) -> (r: Vec<JsonItem>)
    ensures
        json_items_view(r@) == items_json(items_view(items@), option_defs(defs)),
    decreases items@,
{
    let ghost s = items_view(items@);
    let ghost d = option_defs(defs);
    let mut out = no_items();
    let mut i: usize = 0;
    assert(json_items_view(out@) =~= items_json(s.take(0), d));
    while i < items.len()
        invariant
            i <= items.len(),
            s == items_view(items@),
            d == option_defs(defs),
            json_items_view(out@) == items_json(s.take(i as int), d),
        decreases items.len() - i,
    {
        assert(s.take(i + 1).drop_last() =~= s.take(i as int));
        assert(s.take(i + 1)[i as int] == items@[i as int]@);
        let ghost was = out@;
        let j = list_item_to_json_item(&items[i], defs);
        out.push(j);
        assert(json_items_view(out@) =~= json_items_view(was).push(j@));
        i += 1;
    }
    assert(s.take(s.len() as int) =~= s);
    out
}

fn children_to_items(children: &Vec<Block>) -> (r: Vec<JsonItem>)
    ensures
        json_items_view(r@) == block_items(blocks_view(children@), None),
    decreases children@,
{
    let ghost s = blocks_view(children@);
    let mut out = no_items();
    let mut i: usize = 0;
    assert(json_items_view(out@) =~= block_items(s.take(0), None));
    while i < children.len()
        invariant
            i <= children.len(),
            s == blocks_view(children@),
            json_items_view(out@) == block_items(s.take(i as int), None),
        decreases children.len() - i,
    {
        assert(s.take(i + 1).drop_last() =~= s.take(i as int));
        assert(s.take(i + 1)[i as int] == children@[i as int]@);
        assert(decreases_to!(children@ => children@[i as int]));
        let ghost was = json_items_view(out@);
        if let Block::List { items, .. } = &children[i] {
            let more = list_to_items(items, None);
            append_items(&mut out, more);
        } else {
            assert(was + Seq::<JsonItemView>::empty() =~= was);
        }
        assert(json_items_view(out@) == was + items_of_block(s[i as int], None));
        i += 1;
    }
    assert(s.take(s.len() as int) =~= s);
    out
}

/// The items of all lists in the blocks `from..to`.
fn extract_items(
    blocks: &Vec<Block>,
    from: usize,
    to: usize,
    defs: Option<&OrderedMap<FieldDef>>,
) -> (r: Vec<JsonItem>)
    requires
        from <= to <= blocks.len(),
    ensures
        json_items_view(r@) == block_items(
            blocks_view(blocks@).subrange(from as int, to as int),
            option_defs(defs),
        ),
{
    let ghost s = blocks_view(blocks@).subrange(from as int, to as int);
    let ghost d = option_defs(defs);
    let mut out = no_items();
    let mut i: usize = from;
    assert(json_items_view(out@) =~= block_items(s.take(0), d));
    while i < to
        invariant
            from <= i <= to <= blocks.len(),
            s == blocks_view(blocks@).subrange(from as int, to as int),
            d == option_defs(defs),
            json_items_view(out@) == block_items(s.take(i - from), d),
        decreases to - i,
    {
        let ghost k = i - from;
        assert(s.take(k + 1).drop_last() =~= s.take(k));
        assert(s.take(k + 1)[k] == blocks@[i as int]@);
        let ghost was = json_items_view(out@);
        if let Block::List { items, .. } = &blocks[i] {
            let more = list_to_items(items, defs);
            append_items(&mut out, more);
        } else {
            assert(was + Seq::<JsonItemView>::empty() =~= was);
        }
        assert(json_items_view(out@) == was + items_of_block(s[k], d));
        i += 1;
    }
    assert(s.take(s.len() as int) =~= s);
    out
}

// ── direct content ────────────────────────────────────────────────────────

/// The markdown of blocks without line feeds at either end; `None` where
/// nothing is left.
pub open spec fn content_text(s: Seq<BlockView>) -> Option<Seq<char>> {
    let t = trimmed_char(top_text(s, false), '\n');
    if t.len() == 0 {
        None
    } else {
        Some(t)
    }
}

/// What blocks hold: their list items, or where they have none their
/// markdown; and their links.
pub open spec fn direct_content(
    s: Seq<BlockView>,
    defs: Option<Seq<(Seq<char>, FieldDef)>>,
) -> SectionContentView {
    let items = block_items(s, defs);
    SectionContentView {
        content: if items.len() == 0 {
            content_text(s)
        } else {
            None
        },
        items,
        links: crate::links::blocks_links(s),
    }
}

fn copy_range(blocks: &Vec<Block>, from: usize, to: usize) -> (r: Vec<Block>)
    requires
        from <= to <= blocks.len(),
    ensures
        blocks_view(r@) == blocks_view(blocks@).subrange(from as int, to as int),
{
    let mut out: Vec<Block> = Vec::new();
    let mut i: usize = from;
    while i < to
        invariant
            from <= i <= to <= blocks.len(),
            out.len() == i - from,
            forall|k: int| 0 <= k < out.len() ==> (#[trigger] out@[k])@ == blocks@[from + k]@,
        decreases to - i,
    {
        out.push(copy_block(&blocks[i]));
        i += 1;
    }
    assert(blocks_view(out@) =~= blocks_view(blocks@).subrange(from as int, to as int));
    out
}

/// What the blocks `from..to` hold.
pub fn blocks_to_section_content(
    blocks: &Vec<Block>,
    from: usize,
    to: usize,
    defs: Option<&OrderedMap<FieldDef>>,
) -> (r: SectionContent)
    requires
        from <= to <= blocks.len(),
    ensures
        r@ == direct_content(
            blocks_view(blocks@).subrange(from as int, to as int),
            option_defs(defs),
        ),
{
    let ghost s = blocks_view(blocks@).subrange(from as int, to as int);
    let items = extract_items(blocks, from, to, defs);
    assert(json_items_view(items@).len() == items@.len());
    let direct = copy_range(blocks, from, to);
    let links = crate::links::collect_links(&direct);
    let content = if items.len() == 0 {
        let text = serialize_top(&direct, false);
        let t = trim_char(text.as_str(), '\n');
        if t.as_str().is_empty() {
            None
        } else {
            Some(t)
        }
    } else {
        None
    };
    SectionContent { content, items, links }
}

/// Whether no item has sub-items or properties.
pub open spec fn all_flat(items: Seq<JsonItemView>) -> bool {
    forall|i: int|
        0 <= i < items.len() ==> (#[trigger] items[i]).items.len() == 0
            && items[i].properties.len() == 0
}

/// The properties that the texts of items give.
pub open spec fn text_properties(
    items: Seq<JsonItemView>,
    defs: Seq<(Seq<char>, FieldDef)>,
) -> Seq<(Seq<char>, JsonView)>
    decreases items.len(),
{
    if items.len() == 0 {
        Seq::empty()
    } else {
        with_property(text_properties(items.drop_last(), defs), items.last().text, defs)
    }
}

/// Whether the text of each item is a `Key: Value` pair.
pub open spec fn all_pairs(items: Seq<JsonItemView>) -> bool {
    forall|i: int| 0 <= i < items.len() ==> has_part((#[trigger] items[i]).text, ": "@)
}

/// The properties of a section whose items are all flat `Key: Value` pairs;
/// none where one is not.
pub open spec fn flat_properties(
    items: Seq<JsonItemView>,
    defs: Option<Seq<(Seq<char>, FieldDef)>>,
) -> Seq<(Seq<char>, JsonView)> {
    match defs {
        Some(d) => if all_flat(items) && all_pairs(items) {
            text_properties(items, d)
        } else {
            Seq::empty()
        },
        None => Seq::empty(),
    }
}

/// Section-level properties from flat `Key: Value` items; none where an item
/// is not flat or no such pair.
fn extract_flat_section_properties(items: &Vec<JsonItem>, defs: Option<&OrderedMap<FieldDef>>) -> (r:
    OrderedMap<Json>)
    ensures
        properties_view(r@) == flat_properties(json_items_view(items@), option_defs(defs)),
{
    let ghost s = json_items_view(items@);
    let mut out: OrderedMap<Json> = OrderedMap::new();
    assert(properties_view(out@) =~= Seq::empty());
    if let Some(d) = defs {
        let mut i: usize = 0;
        while i < items.len()
            invariant
                i <= items.len(),
                s == json_items_view(items@),
                forall|k: int|
                    0 <= k < i ==> (#[trigger] s[k]).items.len() == 0 && s[k].properties.len() == 0
                        && has_part(s[k].text, ": "@),
                properties_view(out@) == Seq::<(Seq<char>, JsonView)>::empty(),
                option_defs(defs) == Some(d@),
            decreases items.len() - i,
        {
            assert(s[i as int] == items@[i as int]@);
            assert(s[i as int].items.len() == items@[i as int].items@.len());
            assert(s[i as int].properties.len() == items@[i as int].properties@.len());
            if items[i].items.len() > 0 || !items[i].properties.is_empty() || !contains(
                items[i].text.as_str(),
                ": ",
            ) {
                return out;
            }
            i += 1;
        }
        let mut k: usize = 0;
        assert(s.take(0) =~= Seq::empty());
        while k < items.len()
            invariant
                k <= items.len(),
                s == json_items_view(items@),
                properties_view(out@) == text_properties(s.take(k as int), d@),
            decreases items.len() - k,
        {
            assert(s.take(k + 1).drop_last() =~= s.take(k as int));
            assert(s.take(k + 1).last() == items@[k as int]@);
            add_property(&mut out, items[k].text.as_str(), d);
            k += 1;
        }
        assert(s.take(s.len() as int) =~= s);
    }
    out
}

// ── sections ──────────────────────────────────────────────────────────────

/// Whether a block is a heading of exactly the given level.
pub open spec fn is_heading(b: BlockView, level: u8) -> bool {
    b matches BlockView::Heading { level: l, .. } && l == level
}

/// The position of the first heading of exactly the given level in the blocks
/// `i..to`; `to` where there is none.
pub open spec fn next_heading(s: Seq<BlockView>, level: u8, i: int, to: int) -> int
    decreases to - i,
{
    if i >= to {
        to
    } else if is_heading(s[i], level) {
        i
    } else {
        next_heading(s, level, i + 1, to)
    }
}

/// The position of the first heading of the given level or above in the
/// blocks `i..to`; `to` where there is none.
pub open spec fn end_of_section(s: Seq<BlockView>, level: u8, i: int, to: int) -> int
    decreases to - i,
{
    if i >= to {
        to
    } else if (s[i] matches BlockView::Heading { level: l, .. } && l <= level) {
        i
    } else {
        end_of_section(s, level, i + 1, to)
    }
}

/// The end of a section lies behind its start.
pub proof fn end_of_section_bounds(s: Seq<BlockView>, level: u8, i: int, to: int)
    requires
        i <= to,
    ensures
        i <= end_of_section(s, level, i, to) <= to,
    decreases to - i,
{
    if i < to && !(s[i] matches BlockView::Heading { level: l, .. } && l <= level) {
        end_of_section_bounds(s, level, i + 1, to);
    }
}

/// The property definitions of the first section with the given title.
pub open spec fn section_defs(defs: Seq<SectionDef>, title: Seq<char>, i: int) -> Option<
    Seq<(Seq<char>, FieldDef)>,
>
    decreases defs.len() - i,
{
    if i >= defs.len() {
        None
    } else if defs[i].title@ == title {
        match defs[i].properties {
            Some(p) => Some(p@),
            None => None,
        }
    } else {
        section_defs(defs, title, i + 1)
    }
}

/// The property definitions of a section, where a structure declares any.
pub open spec fn declared_defs(sections: Option<Seq<SectionDef>>, title: Seq<char>) -> Option<
    Seq<(Seq<char>, FieldDef)>,
> {
    match sections {
        Some(defs) => section_defs(defs, title, 0),
        None => None,
    }
}

/// The sections of the given level in the blocks `i..to`, with their
/// subsections down to `max`. Deeper headings stay in the content.
/// Definitions are for sections of this level alone.
pub open spec fn sections_from(
    s: Seq<BlockView>,
    i: int,
    to: int,
    level: u8,
    max: u8,
    defs: Option<Seq<SectionDef>>,
) -> Seq<JsonSectionView>
    decreases max - level, 1int, to - i,
{
    if i >= to {
        Seq::empty()
    } else {
        match s[i] {
            BlockView::Heading { level: l, content, .. } => if l == level {
                let end = end_of_section(s, level, i + 1, to);
                proof {
                    end_of_section_bounds(s, level, i + 1, to);
                }
                seq![
                    section_json(
                        s,
                        inlines_text(content),
                        i + 1,
                        end,
                        level,
                        max,
                        declared_defs(defs, inlines_text(content)),
                    ),
                ] + sections_from(s, end, to, level, max, defs)
            } else {
                sections_from(s, i + 1, to, level, max, defs)
            },
            _ => sections_from(s, i + 1, to, level, max, defs),
        }
    }
}

/// The section of the given level that holds the blocks `from..to`.
pub open spec fn section_json(
    s: Seq<BlockView>,
    heading: Seq<char>,
    from: int,
    to: int,
    level: u8,
    max: u8,
    defs: Option<Seq<(Seq<char>, FieldDef)>>,
) -> JsonSectionView
    decreases max - level, 0int, 0int,
{
    let next = (level + 1) as u8;
    let direct_end = if level < max {
        next_heading(s, next, from, to)
    } else {
        to
    };
    let direct = direct_content(s.subrange(from, direct_end), defs);
    let props = flat_properties(direct.items, defs);
    JsonSectionView {
        heading,
        content: direct.content,
        properties: props,
        items: if props.len() == 0 {
            direct.items
        } else {
            Seq::empty()
        },
        links: direct.links,
        subsections: if level < max {
            sections_from(s, from, to, next, max, None)
        } else {
            Seq::empty()
        },
    }
}

/// The property definitions of the first section with the given title.
fn find_defs<'a>(sections: &'a Vec<SectionDef>, title: &str) -> (r: Option<&'a OrderedMap<FieldDef>>)
    ensures
        option_defs(r) == section_defs(sections@, title@, 0),
{
    let mut i: usize = 0;
    while i < sections.len()
        invariant
            i <= sections.len(),
            section_defs(sections@, title@, 0) == section_defs(sections@, title@, i as int),
        decreases sections.len() - i,
    {
        if sections[i].title.as_str().eq(title) {
            return match &sections[i].properties {
                Some(p) => Some(p),
                None => None,
            };
        }
        i += 1;
    }
    None
}

/// The section definitions of an optional structure.
pub open spec fn option_sections(structure: Option<&StructureDef>) -> Option<Seq<SectionDef>> {
    match structure {
        Some(sd) => Some(sd.sections@),
        None => None,
    }
}

/// Split the blocks `from..to` into sections at headings of the given level,
/// with subsections down to `max`.
pub fn build_sections(
    blocks: &Vec<Block>,
    from: usize,
    to: usize,
    level: u8,
    max: u8,
    structure: Option<&StructureDef>,
) -> (r: Vec<JsonSection>)
    requires
        from <= to <= blocks.len(),
        level <= max < 255,
    ensures
        json_sections_view(r@) == sections_from(
            blocks_view(blocks@),
            from as int,
            to as int,
            level,
            max,
            option_sections(structure),
        ),
    decreases max - level, 1int,
{
    let ghost s = blocks_view(blocks@);
    let ghost defs = option_sections(structure);
    let mut out: Vec<JsonSection> = Vec::new();
    let mut i: usize = from;
    assert(json_sections_view(out@) + sections_from(s, from as int, to as int, level, max, defs)
        =~= sections_from(s, from as int, to as int, level, max, defs));
    while i < to
        invariant
            from <= i <= to <= blocks.len(),
            level <= max < 255,
            s == blocks_view(blocks@),
            defs == option_sections(structure),
            sections_from(s, from as int, to as int, level, max, defs) == json_sections_view(out@)
                + sections_from(s, i as int, to as int, level, max, defs),
        decreases to - i,
    {
        assert(s[i as int] == blocks@[i as int]@);
        let heading = match &blocks[i] {
            Block::Heading { level: l, content, .. } => if *l == level {
                Some(inlines_to_string(content.as_slice()))
            } else {
                None
            },
            _ => None,
        };
        match heading {
            Some(title) => {
                let start: usize = i + 1;
                let mut end: usize = start;
                while end < to && !ends_at(&blocks[end], level)
                    invariant
                        start <= end <= to <= blocks.len(),
                        s == blocks_view(blocks@),
                        end_of_section(s, level, start as int, to as int) == end_of_section(
                            s,
                            level,
                            end as int,
                            to as int,
                        ),
                    decreases to - end,
                {
                    assert(s[end as int] == blocks@[end as int]@);
                    end += 1;
                }
                assert(end < to ==> s[end as int] == blocks@[end as int]@);
                let props = match structure {
                    Some(sd) => find_defs(&sd.sections, title.as_str()),
                    None => None,
                };
                let ghost was = out@;
                let ghost rest = sections_from(s, end as int, to as int, level, max, defs);
                let section = make_section(title, blocks, start, end, level, max, props);
                out.push(section);
                proof {
                    assert(json_sections_view(out@) =~= json_sections_view(was).push(section@));
                    assert(json_sections_view(was) + (seq![section@] + rest)
                        =~= json_sections_view(out@) + rest);
                }
                i = end;
            },
            None => {
                i += 1;
            },
        }
    }
    assert(json_sections_view(out@) + Seq::<JsonSectionView>::empty() =~= json_sections_view(out@));
    out
}

/// Whether a block is a heading of the given level or above.
fn ends_at(b: &Block, level: u8) -> (r: bool)
    ensures
        r == (b@ matches BlockView::Heading { level: l, .. } && l <= level),
{
    match b {
        Block::Heading { level: l, .. } => *l <= level,
        _ => false,
    }
}

/// Whether a block is a heading of exactly the given level.
fn heads_at(b: &Block, level: u8) -> (r: bool)
    ensures
        r == is_heading(b@, level),
{
    match b {
        Block::Heading { level: l, .. } => *l == level,
        _ => false,
    }
}

/// The position of the first heading of exactly the given level in the blocks
/// `from..to`.
fn find_next_heading(blocks: &Vec<Block>, level: u8, from: usize, to: usize) -> (r: usize)
    requires
        from <= to <= blocks.len(),
    ensures
        r == next_heading(blocks_view(blocks@), level, from as int, to as int),
        from <= r <= to,
{
    let ghost s = blocks_view(blocks@);
    let mut i: usize = from;
    while i < to && !heads_at(&blocks[i], level)
        invariant
            from <= i <= to <= blocks.len(),
            s == blocks_view(blocks@),
            next_heading(s, level, from as int, to as int) == next_heading(
                s,
                level,
                i as int,
                to as int,
            ),
        decreases to - i,
    {
        assert(s[i as int] == blocks@[i as int]@);
        i += 1;
    }
    assert(i < to ==> s[i as int] == blocks@[i as int]@);
    i
}

/// The section of the given level that holds the blocks `from..to`.
fn make_section(
    heading: String,
    blocks: &Vec<Block>,
    from: usize,
    to: usize,
    level: u8,
    max: u8,
    defs: Option<&OrderedMap<FieldDef>>,
) -> (r: JsonSection)
    requires
        from <= to <= blocks.len(),
        level <= max < 255,
    ensures
        r@ == section_json(
            blocks_view(blocks@),
            heading@,
            from as int,
            to as int,
            level,
            max,
            option_defs(defs),
        ),
    decreases max - level, 0int,
{
    let direct_end = if level < max {
        find_next_heading(blocks, level + 1, from, to)
    } else {
        to
    };
    let SectionContent { content, items, links } = blocks_to_section_content(
        blocks,
        from,
        direct_end,
        defs,
    );
    let subsections = if level < max {
        build_sections(blocks, from, to, level + 1, max, None)
    } else {
        let none: Vec<JsonSection> = Vec::new();
        assert(json_sections_view(none@) =~= Seq::empty());
        none
    };
    let properties = extract_flat_section_properties(&items, defs);
    assert(properties_view(properties@).len() == properties@.len());
    let items = if properties.is_empty() {
        items
    } else {
        no_items()
    };
    JsonSection { heading, content, properties, items, links, subsections }
}

// ── front matter ──────────────────────────────────────────────────────────

/// The `type` member: what front matter says, or else the resolved type.
pub open spec fn type_member(doc: DocumentView, resolved: Option<Seq<char>>) -> Seq<
    (Seq<char>, JsonView),
> {
    let named = crate::resolve::named_type(doc);
    match (named, resolved) {
        (Some(t), _) => seq![("type"@, JsonView::Text(t))],
        (None, Some(t)) => seq![("type"@, JsonView::Text(t))],
        (None, None) => Seq::empty(),
    }
}

/// `members` with front matter fields stored, each read as its property
/// asks for.
pub open spec fn with_fields(
    members: Seq<(Seq<char>, JsonView)>,
    fields: Seq<(Seq<char>, crate::value::YamlView)>,
    td: Option<TypeDef>,
) -> Seq<(Seq<char>, JsonView)>
    decreases fields.len(),
{
    if fields.len() == 0 {
        members
    } else {
        let (key, value) = fields.last();
        stored(
            with_fields(members, fields.drop_last(), td),
            key,
            field_json(value, declared_schema(td, key)),
        )
    }
}

/// The front matter of a document in JSON.
pub open spec fn frontmatter_json(
    doc: DocumentView,
    resolved: Option<Seq<char>>,
    td: Option<TypeDef>,
) -> JsonView {
    JsonView::Object(
        match doc.frontmatter {
            Some(fm) => with_fields(type_member(doc, resolved), fm.fields, td),
            None => type_member(doc, resolved),
        },
    )
}

/// The text of an optional reference.
pub open spec fn option_str(s: Option<&str>) -> Option<Seq<char>> {
    match s {
        Some(s) => Some(s@),
        None => None,
    }
}

fn build_frontmatter_json(
    doc: &Document,
    resolved_type: Option<&str>,
    type_def: Option<&TypeDef>,
) -> (r: Json)
    ensures
        r@ == frontmatter_json(doc@, option_str(resolved_type), option_type(type_def)),
{
    let ghost td = option_type(type_def);
    let ghost resolved = option_str(resolved_type);
    let mut members: Vec<(String, Json)> = Vec::new();
    let named = match &doc.frontmatter {
        Some(fm) => match &fm.doc_type {
            Some(t) => Some(t.clone()),
            None => None,
        },
        None => None,
    };
    let value = match named {
        Some(t) => Some(t),
        None => match resolved_type {
            Some(t) => Some(String::from_str(t)),
            None => None,
        },
    };
    if let Some(t) = value {
        members.push((String::from_str("type"), Json::Text(t)));
    }
    assert(members_view(members@) =~= type_member(doc@, resolved));
    if let Some(fm) = &doc.frontmatter {
        let ghost all = crate::ast::fields_view(fm.fields@);
        let ghost start = members_view(members@);
        let n: usize = fm.fields.len();
        let mut i: usize = 0;
        assert(all.take(0) =~= Seq::empty());
        while i < n
            invariant
                i <= n,
                n == fm.fields@.len(),
                all == crate::ast::fields_view(fm.fields@),
                td == option_type(type_def),
                distinct_keys(members_view(members@)),
                members_view(members@) == with_fields(start, all.take(i as int), td),
            decreases n - i,
        {
            assert(all.take(i + 1).drop_last() =~= all.take(i as int));
            let key = fm.fields.key_at(i);
            let value = fm.fields.value_at(i);
            assert(all.take(i + 1).last() == (key@, value@));
            let json = coerce_field_value(value, key.as_str(), type_def);
            put_member(&mut members, key.clone(), json);
            i += 1;
        }
        assert(all.take(all.len() as int) =~= all);
    }
    Json::Object(members)
}

// ── documents ─────────────────────────────────────────────────────────────

/// The position behind the first H1; 0 where there is none.
pub open spec fn after_title(s: Seq<BlockView>) -> int {
    let h = next_heading(s, 1, 0, s.len() as int);
    if h < s.len() {
        h + 1
    } else {
        0
    }
}

/// The text of the first H1.
pub open spec fn title_text(s: Seq<BlockView>) -> Option<Seq<char>> {
    let h = next_heading(s, 1, 0, s.len() as int);
    if h < s.len() {
        match s[h] {
            BlockView::Heading { content, .. } => Some(inlines_text(content)),
            _ => None,
        }
    } else {
        None
    }
}

/// Whether some block is not a blank line.
pub open spec fn has_content(s: Seq<BlockView>) -> bool {
    exists|i: int| 0 <= i < s.len() && #[trigger] s[i] != BlockView::BlankLine
}

/// The content between the title and the first H2; `None` where there is
/// none but blank lines.
pub open spec fn intro_json(s: Seq<BlockView>) -> Option<SectionContentView> {
    let start = after_title(s);
    let intro = s.subrange(start, next_heading(s, 2, start, s.len() as int));
    if has_content(intro) {
        Some(direct_content(intro, None))
    } else {
        None
    }
}

/// A document in JSON. Sections are H2 headings, with subsections down to H4.
pub open spec fn document_json(
    doc: DocumentView,
    path: PathView,
    resolved: Option<Seq<char>>,
    td: Option<TypeDef>,
    root: PathView,
) -> JsonDocumentView {
    let s = doc.blocks;
    let body = next_heading(s, 2, after_title(s), s.len() as int);
    JsonDocumentView {
        path: path_text(
            match relative_to(path, root) {
                Some(rel) => rel,
                None => path,
            },
        ),
        doc_type: resolved,
        frontmatter: frontmatter_json(doc, resolved, td),
        title: title_text(s),
        intro: intro_json(s),
        sections: sections_from(
            s,
            body,
            s.len() as int,
            2,
            4,
            match td {
                Some(td) => Some(td.structure.sections@),
                None => None,
            },
        ),
    }
}

fn any_content(blocks: &Vec<Block>, from: usize, to: usize) -> (r: bool)
    requires
        from <= to <= blocks.len(),
    ensures
        r == has_content(blocks_view(blocks@).subrange(from as int, to as int)),
{
    let ghost s = blocks_view(blocks@).subrange(from as int, to as int);
    let mut i: usize = from;
    while i < to
        invariant
            from <= i <= to <= blocks.len(),
            s == blocks_view(blocks@).subrange(from as int, to as int),
            forall|k: int| 0 <= k < i - from ==> #[trigger] s[k] == BlockView::BlankLine,
        decreases to - i,
    {
        assert(s[i - from] == blocks@[i as int]@);
        if !crate::parse::is_blank(&blocks[i]) {
            return true;
        }
        i += 1;
    }
    false
}

/// The JSON form of a document: `resolved_type` is the type that was settled
/// for it, `type_def` the definition of that type, and `root` the directory
/// that its path is relative to.
pub fn document_to_json(
    doc: &Document,
    path: &FilePath,
    resolved_type: Option<&str>,
    type_def: Option<&TypeDef>,
    root: &FilePath,
) -> (r: JsonDocument)
    ensures
        r@ == document_json(
            doc@,
            path@,
            option_str(resolved_type),
            option_type(type_def),
            root@,
        ),
{
    let ghost s = blocks_view(doc.blocks@);
    let n: usize = doc.blocks.len();
    let path_str = match path.strip_prefix(root) {
        Some(rel) => rel.to_text(),
        None => path.to_text(),
    };
    let frontmatter = build_frontmatter_json(doc, resolved_type, type_def);
    let h = find_next_heading(&doc.blocks, 1, 0, n);
    let (title, start) = if h < n {
        assert(s[h as int] == doc.blocks@[h as int]@);
        let title = match &doc.blocks[h] {
            Block::Heading { content, .. } => Some(inlines_to_string(content.as_slice())),
            _ => None,
        };
        (title, h + 1)
    } else {
        (None, 0)
    };
    let body = find_next_heading(&doc.blocks, 2, start, n);
    let intro = if any_content(&doc.blocks, start, body) {
        Some(blocks_to_section_content(&doc.blocks, start, body, None))
    } else {
        None
    };
    let structure = match type_def {
        Some(td) => Some(&td.structure),
        None => None,
    };
    let sections = build_sections(&doc.blocks, body, n, 2, 4, structure);
    let doc_type = match resolved_type {
        Some(t) => Some(String::from_str(t)),
        None => None,
    };
    JsonDocument { path: path_str, doc_type, frontmatter, title, intro, sections }
}

// ── links ─────────────────────────────────────────────────────────────────

/// The URLs of links.
pub open spec fn urls_of_links(links: Seq<LinkView>) -> Seq<Seq<char>> {
    links.map_values(|l: LinkView| l.url)
}

/// The URLs of a section and its subsections, in order.
pub open spec fn section_urls(s: JsonSectionView) -> Seq<Seq<char>>
    decreases s,
{
    urls_of_links(s.links) + sections_urls(s.subsections)
}

/// The URLs of sections and their subsections, in order.
pub open spec fn sections_urls(v: Seq<JsonSectionView>) -> Seq<Seq<char>>
    decreases v,
{
    if v.len() == 0 {
        Seq::empty()
    } else {
        sections_urls(v.drop_last()) + section_urls(v[v.len() - 1])
    }
}

/// The URLs of a document: those of its intro, then those of its sections.
pub open spec fn document_urls(d: JsonDocumentView) -> Seq<Seq<char>> {
    (match d.intro {
        Some(c) => urls_of_links(c.links),
        None => Seq::empty(),
    }) + sections_urls(d.sections)
}

fn add_urls(links: &Vec<JsonLink>, urls: &mut Vec<String>)
    ensures
        texts(final(urls)@) == texts(old(urls)@) + urls_of_links(links_view(links@)),
{
    let ghost all = links_view(links@);
    let ghost start = texts(urls@);
    let mut i: usize = 0;
    assert(start + urls_of_links(all.take(0)) =~= start);
    while i < links.len()
        invariant
            i <= links.len(),
            all == links_view(links@),
            start == texts(old(urls)@),
            texts(urls@) == start + urls_of_links(all.take(i as int)),
        decreases links.len() - i,
    {
        let ghost was = urls@;
        urls.push(links[i].url.clone());
        proof {
            assert(texts(urls@) =~= texts(was).push(all[i as int].url));
            assert(urls_of_links(all.take(i + 1)) =~= urls_of_links(all.take(i as int)).push(
                all[i as int].url,
            ));
            assert(texts(urls@) =~= start + urls_of_links(all.take(i + 1)));
        }
        i += 1;
    }
    assert(all.take(all.len() as int) =~= all);
}

fn collect_section_links(section: &JsonSection, urls: &mut Vec<String>)
    ensures
        texts(final(urls)@) == texts(old(urls)@) + section_urls(section@),
    decreases section,
{
    let ghost start = texts(urls@);
    add_urls(&section.links, urls);
    collect_sections_links(&section.subsections, urls);
    assert(texts(urls@) =~= start + section_urls(section@));
}

fn collect_sections_links(sections: &Vec<JsonSection>, urls: &mut Vec<String>)
    ensures
        texts(final(urls)@) == texts(old(urls)@) + sections_urls(json_sections_view(sections@)),
    decreases sections@,
{
    let ghost s = json_sections_view(sections@);
    let ghost start = texts(urls@);
    let mut i: usize = 0;
    assert(start + sections_urls(s.take(0)) =~= start);
    while i < sections.len()
        invariant
            i <= sections.len(),
            s == json_sections_view(sections@),
            start == texts(old(urls)@),
            texts(urls@) == start + sections_urls(s.take(i as int)),
        decreases sections.len() - i,
    {
        let ghost was = texts(urls@);
        assert(s.take(i + 1).drop_last() =~= s.take(i as int));
        assert(s.take(i + 1)[i as int] == sections@[i as int]@);
        collect_section_links(&sections[i], urls);
        assert(texts(urls@) =~= start + sections_urls(s.take(i + 1)));
        i += 1;
    }
    assert(s.take(s.len() as int) =~= s);
}

/// All link URLs of a document: its intro's, then those of all sections.
pub fn collect_doc_links(jdoc: &JsonDocument) -> (r: Vec<String>)
    ensures
        texts(r@) == document_urls(jdoc@),
{
    let mut urls: Vec<String> = Vec::new();
    assert(texts(urls@) =~= Seq::empty());
    if let Some(intro) = &jdoc.intro {
        add_urls(&intro.links, &mut urls);
        assert(texts(urls@) =~= urls_of_links(links_view(intro.links@)));
    }
    collect_sections_links(&jdoc.sections, &mut urls);
    urls
}

/// A section shows its markdown, its list items or its properties, and never
/// two of them: items supersede the markdown, and properties the items.
pub proof fn section_shows_one_form(
    s: Seq<BlockView>,
    heading: Seq<char>,
    from: int,
    to: int,
    level: u8,
    max: u8,
    defs: Option<Seq<(Seq<char>, FieldDef)>>,
)
    ensures
        ({
            let j = section_json(s, heading, from, to, level, max, defs);
            &&& j.content is Some ==> j.items.len() == 0 && j.properties.len() == 0
            &&& j.properties.len() > 0 ==> j.items.len() == 0
        }),
{
    let next = (level + 1) as u8;
    let direct_end = if level < max {
        next_heading(s, next, from, to)
    } else {
        to
    };
    no_items_no_properties(direct_content(s.subrange(from, direct_end), defs).items, defs);
}

proof fn no_items_no_properties(
    items: Seq<JsonItemView>,
    defs: Option<Seq<(Seq<char>, FieldDef)>>,
)
    ensures
        items.len() == 0 ==> flat_properties(items, defs).len() == 0,
{
}

/// An item shows its properties or its sub-items, never both.
pub proof fn item_shows_one_form(item: ListItemView, defs: Option<Seq<(Seq<char>, FieldDef)>>)
    ensures
        item_json(item, defs).properties.len() > 0 ==> item_json(item, defs).items.len() == 0,
{
}

// ── what JSON shows of a document ─────────────────────────────────────────

/// The items of the lists that stand directly among `s`, of either kind, in
/// order.
pub open spec fn listed_items(s: Seq<BlockView>) -> Seq<ListItemView>
    decreases s.len(),
{
    if s.len() == 0 {
        Seq::empty()
    } else {
        match s.last() {
            BlockView::List { items, .. } => listed_items(s.drop_last()) + items,
            _ => listed_items(s.drop_last()),
        }
    }
}

/// A block with its ordered flag turned over, where it is a list.
pub open spec fn turned_over(b: BlockView) -> BlockView {
    match b {
        BlockView::List { items, ordered, start, line } => BlockView::List {
            items,
            ordered: !ordered,
            start,
            line,
        },
        _ => b,
    }
}

proof fn items_are_shown(items: Seq<ListItemView>, defs: Option<Seq<(Seq<char>, FieldDef)>>)
    ensures
        items_json(items, defs).len() == items.len(),
        forall|k: int|
            0 <= k < items.len() ==> #[trigger] items_json(items, defs)[k] == item_json(
                items[k],
                defs,
            ),
    decreases items.len(),
{
    if items.len() > 0 {
        items_are_shown(items.drop_last(), defs);
        assert forall|k: int| 0 <= k < items.len() implies #[trigger] items_json(items, defs)[k]
            == item_json(items[k], defs) by {
            if k < items.len() - 1 {
                assert(items.drop_last()[k] == items[k]);
            }
        }
    }
}

proof fn listed_are_shown(s: Seq<BlockView>, defs: Option<Seq<(Seq<char>, FieldDef)>>)
    ensures
        block_items(s, defs).len() == listed_items(s).len(),
        forall|k: int|
            0 <= k < listed_items(s).len() ==> #[trigger] block_items(s, defs)[k] == item_json(
                listed_items(s)[k],
                defs,
            ),
    decreases s.len(),
{
    reveal_with_fuel(block_items, 2);
    reveal_with_fuel(items_of_block, 2);
    if s.len() > 0 {
        let f = s.drop_last();
        listed_are_shown(f, defs);
        match s[s.len() - 1] {
            BlockView::List { items, .. } => {
                items_are_shown(items, defs);
                assert forall|k: int| 0 <= k < listed_items(s).len() implies
                    #[trigger] block_items(s, defs)[k] == item_json(listed_items(s)[k], defs) by {
                    if k < listed_items(f).len() {
                        assert(block_items(f, defs)[k] == item_json(listed_items(f)[k], defs));
                    } else {
                        let j = k - listed_items(f).len();
                        assert(items_json(items, defs)[j] == item_json(items[j], defs));
                    }
                }
            },
            _ => {
                assert(block_items(s, defs) =~= block_items(f, defs));
            },
        }
    }
}

/// Every item of a list is shown, in order and with its text, whether the
/// list is ordered or not, and nothing else is; what stands in lists below an
/// item without properties is shown below it in the same way.
pub proof fn every_item_is_shown(
    s: Seq<BlockView>,
    defs: Option<Seq<(Seq<char>, FieldDef)>>,
    k: int,
)
    requires
        0 <= k < listed_items(s).len(),
    ensures
        block_items(s, defs).len() == listed_items(s).len(),
        ({
            let item = listed_items(s)[k];
            let shown = block_items(s, defs)[k];
            &&& shown.text == inlines_text(item.content)
            &&& defs is None ==> shown.properties.len() == 0
            &&& shown.properties.len() == 0 ==> shown.items.len() == listed_items(
                item.children,
            ).len() && forall|j: int|
                0 <= j < shown.items.len() ==> (#[trigger] shown.items[j]).text == inlines_text(
                    listed_items(item.children)[j].content,
                )
        }),
{
    listed_are_shown(s, defs);
    let item = listed_items(s)[k];
    let shown = block_items(s, defs)[k];
    assert(shown == item_json(item, defs));
    listed_are_shown(item.children, None);
    assert forall|j: int| 0 <= j < shown.items.len() && shown.properties.len() == 0 implies (
    #[trigger] shown.items[j]).text == inlines_text(listed_items(item.children)[j].content) by {
        assert(block_items(item.children, None)[j] == item_json(
            listed_items(item.children)[j],
            None,
        ));
    }
}

/// Whether a list is ordered changes nothing of what is shown of its items.
pub proof fn order_of_lists_shows_not(
    s: Seq<BlockView>,
    k: int,
    defs: Option<Seq<(Seq<char>, FieldDef)>>,
)
    requires
        0 <= k < s.len(),
    ensures
        block_items(s.update(k, turned_over(s[k])), defs) == block_items(s, defs),
    decreases s.len(),
{
    let t = s.update(k, turned_over(s[k]));
    reveal_with_fuel(block_items, 2);
    reveal_with_fuel(items_of_block, 2);
    if k < s.len() - 1 {
        order_of_lists_shows_not(s.drop_last(), k, defs);
        assert(t.drop_last() =~= s.drop_last().update(k, turned_over(s[k])));
    } else {
        assert(t.drop_last() =~= s.drop_last());
    }
}

/// The text of a heading.
pub open spec fn heading_words(b: BlockView) -> Seq<char> {
    match b {
        BlockView::Heading { content, .. } => inlines_text(content),
        _ => Seq::empty(),
    }
}

/// Whether the blocks `p+1..q` are those of the section that the heading at
/// `p` starts, within `..to`: no heading of its level or above is among them,
/// and one stands at `q` where that is not the end.
pub open spec fn is_section(s: Seq<BlockView>, p: int, q: int, to: int) -> bool {
    &&& 0 <= p < q <= to <= s.len()
    &&& s[p] is Heading
    &&& forall|k: int| p < k < q ==> !(s[k] is Heading && s[k]->Heading_level <= s[p]->Heading_level)
    &&& q < to ==> s[q] is Heading && s[q]->Heading_level <= s[p]->Heading_level
}

proof fn end_of_section_is_end(s: Seq<BlockView>, level: u8, i: int, to: int)
    requires
        i <= to,
    ensures
        i <= end_of_section(s, level, i, to) <= to,
        forall|k: int|
            i <= k < end_of_section(s, level, i, to) ==> !((#[trigger] s[k]) is Heading
                && s[k]->Heading_level <= level),
        end_of_section(s, level, i, to) < to ==> s[end_of_section(s, level, i, to)] is Heading
            && s[end_of_section(s, level, i, to)]->Heading_level <= level,
    decreases to - i,
{
    if i < to && !(s[i] matches BlockView::Heading { level: l, .. } && l <= level) {
        end_of_section_is_end(s, level, i + 1, to);
    }
}

proof fn next_heading_is_next(s: Seq<BlockView>, level: u8, i: int, to: int)
    requires
        i <= to,
    ensures
        i <= next_heading(s, level, i, to) <= to,
        forall|k: int|
            i <= k < next_heading(s, level, i, to) ==> !((#[trigger] s[k]) is Heading
                && s[k]->Heading_level == level),
        next_heading(s, level, i, to) < to ==> s[next_heading(s, level, i, to)] is Heading
            && s[next_heading(s, level, i, to)]->Heading_level == level,
    decreases to - i,
{
    if i < to && !is_heading(s[i], level) {
        next_heading_is_next(s, level, i + 1, to);
    }
}

proof fn none_of_level(s: Seq<BlockView>, i: int, to: int, level: u8)
    requires
        0 <= i <= to <= s.len(),
        forall|k: int| i <= k < to ==> !((#[trigger] s[k]) is Heading && s[k]->Heading_level == level),
    ensures
        s.subrange(i, to).filter(
            |b: BlockView| b is Heading && b->Heading_level == level,
        ).len() == 0,
    decreases to - i,
{
    reveal(Seq::filter);
    if i < to {
        none_of_level(s, i, to - 1, level);
        assert(s.subrange(i, to).drop_last() =~= s.subrange(i, to - 1));
        assert(s.subrange(i, to).last() == s[to - 1]);
    }
}

/// Sections come one for each heading of their level, in order and with its
/// text.
pub proof fn sections_follow_the_headings(
    s: Seq<BlockView>,
    i: int,
    to: int,
    level: u8,
    max: u8,
    defs: Option<Seq<SectionDef>>,
)
    requires
        0 <= i <= to <= s.len(),
    ensures
        sections_from(s, i, to, level, max, defs).map_values(|x: JsonSectionView| x.heading)
            == s.subrange(i, to).filter(
            |b: BlockView| b is Heading && b->Heading_level == level,
        ).map_values(|b: BlockView| heading_words(b)),
    decreases to - i,
{
    let f = |b: BlockView| b is Heading && b->Heading_level == level;
    let h = |x: JsonSectionView| x.heading;
    let w = |b: BlockView| heading_words(b);
    let all = sections_from(s, i, to, level, max, defs);
    if i < to {
        let one = s.subrange(i, i + 1);
        assert(one =~= seq![s[i]]);
        assert(one.filter(f) == (if f(s[i]) {
            seq![s[i]]
        } else {
            Seq::empty()
        })) by {
            reveal_with_fuel(Seq::filter, 2);
            assert(one.drop_last() =~= Seq::empty());
        }
        if is_heading(s[i], level) {
            let end = end_of_section(s, level, i + 1, to);
            end_of_section_is_end(s, level, i + 1, to);
            none_of_level(s, i + 1, end, level);
            sections_follow_the_headings(s, end, to, level, max, defs);
            let rest = sections_from(s, end, to, level, max, defs);
            assert(s.subrange(i, to) =~= one + (s.subrange(i + 1, end) + s.subrange(end, to)));
            Seq::filter_distributes_over_add(one, s.subrange(i + 1, end) + s.subrange(end, to), f);
            Seq::filter_distributes_over_add(s.subrange(i + 1, end), s.subrange(end, to), f);
            assert(s.subrange(i + 1, end).filter(f) =~= Seq::empty());
            assert(s.subrange(i, to).filter(f) =~= seq![s[i]] + s.subrange(end, to).filter(f));
            assert(all.skip(1) =~= rest);
            assert(all[0].heading == heading_words(s[i])) by {
                reveal_with_fuel(sections_from, 2);
                reveal_with_fuel(section_json, 2);
            }
            assert(all.map_values(h) =~= seq![heading_words(s[i])] + rest.map_values(h));
            assert(s.subrange(i, to).filter(f).map_values(w) =~= seq![heading_words(s[i])]
                + s.subrange(end, to).filter(f).map_values(w));
        } else {
            sections_follow_the_headings(s, i + 1, to, level, max, defs);
            assert(s.subrange(i, to) =~= one + s.subrange(i + 1, to));
            Seq::filter_distributes_over_add(one, s.subrange(i + 1, to), f);
            assert(s.subrange(i, to).filter(f) =~= s.subrange(i + 1, to).filter(f));
        }
    } else {
        assert(s.subrange(i, to) =~= Seq::empty());
        reveal(Seq::filter);
        assert(all.map_values(h) =~= Seq::empty());
        assert(s.subrange(i, to).filter(f).map_values(w) =~= Seq::empty());
    }
}

/// The section of a heading is made of the blocks from it to the next heading
/// of its level or above.
pub proof fn a_section_is_made_of_its_blocks(
    s: Seq<BlockView>,
    i: int,
    to: int,
    level: u8,
    max: u8,
    defs: Option<Seq<SectionDef>>,
    p: int,
    q: int,
)
    requires
        0 <= i <= p < to <= s.len(),
        s[p] is Heading,
        s[p]->Heading_level == level,
        is_section(s, p, q, to),
    ensures
        sections_from(s, i, to, level, max, defs).contains(
            section_json(
                s,
                heading_words(s[p]),
                p + 1,
                q,
                level,
                max,
                declared_defs(defs, heading_words(s[p])),
            ),
        ),
    decreases to - i,
{
    let all = sections_from(s, i, to, level, max, defs);
    if is_heading(s[i], level) {
        let end = end_of_section(s, level, i + 1, to);
        end_of_section_is_end(s, level, i + 1, to);
        let rest = sections_from(s, end, to, level, max, defs);
        if i == p {
            assert(end == q) by {
                if end < q {
                    assert(s[end] is Heading && s[end]->Heading_level <= level);
                }
                if q < end {
                    assert(s[q] is Heading && s[q]->Heading_level <= level);
                }
            }
            assert(all[0] == section_json(
                s,
                heading_words(s[p]),
                p + 1,
                q,
                level,
                max,
                declared_defs(defs, heading_words(s[p])),
            ));
        } else {
            if p < end {
                assert(!(s[p] is Heading && s[p]->Heading_level <= level));
            }
            a_section_is_made_of_its_blocks(s, end, to, level, max, defs, p, q);
            let want = section_json(
                s,
                heading_words(s[p]),
                p + 1,
                q,
                level,
                max,
                declared_defs(defs, heading_words(s[p])),
            );
            let k = choose|k: int| 0 <= k < rest.len() && rest[k] == want;
            assert(all[k + 1] == want);
        }
    } else {
        a_section_is_made_of_its_blocks(s, i + 1, to, level, max, defs, p, q);
    }
}

/// Whether what is shown of blocks is theirs: the items of their lists, or
/// their markdown where there is none, and all links that stand in them.
pub open spec fn shows_blocks(
    s: Seq<BlockView>,
    content: Option<Seq<char>>,
    items: Seq<JsonItemView>,
    links: Seq<LinkView>,
) -> bool {
    &&& items.len() == listed_items(s).len()
    &&& forall|k: int|
        0 <= k < items.len() ==> (#[trigger] items[k]).text == inlines_text(
            listed_items(s)[k].content,
        )
    &&& links == links_among(all_leaves(runs(s)))
    &&& content is Some ==> items.len() == 0 && content->0.len() > 0 && content->0 == trimmed_char(
        top_text(s, false),
        '\n',
    )
    &&& content is None ==> items.len() > 0 || trimmed_char(top_text(s, false), '\n').len() == 0
}

proof fn direct_content_shows_blocks(
    s: Seq<BlockView>,
    defs: Option<Seq<(Seq<char>, FieldDef)>>,
)
    ensures
        ({
            let d = direct_content(s, defs);
            shows_blocks(s, d.content, d.items, d.links)
        }),
{
    listed_are_shown(s, defs);
    links_come_in_reading_order(s);
    let d = direct_content(s, defs);
    assert forall|k: int| 0 <= k < d.items.len() implies (#[trigger] d.items[k]).text
        == inlines_text(listed_items(s)[k].content) by {
        assert(block_items(s, defs)[k] == item_json(listed_items(s)[k], defs));
    }
}

/// A section shows what stands directly in it, before the first heading one
/// level below: its items, where they make no properties, or its markdown, and
/// its links. Its subsections follow those headings.
pub proof fn a_section_shows_what_stands_in_it(
    s: Seq<BlockView>,
    heading: Seq<char>,
    from: int,
    to: int,
    level: u8,
    max: u8,
    defs: Option<Seq<(Seq<char>, FieldDef)>>,
    e: int,
)
    requires
        0 <= from <= e <= to <= s.len(),
        level < 255,
        level < max ==> forall|k: int|
            from <= k < e ==> !((#[trigger] s[k]) is Heading && s[k]->Heading_level == level + 1),
        level < max && e < to ==> s[e] is Heading && s[e]->Heading_level == level + 1,
        level >= max ==> e == to,
    ensures
        ({
            let j = section_json(s, heading, from, to, level, max, defs);
            &&& j.heading == heading
            &&& j.properties.len() == 0 ==> shows_blocks(
                s.subrange(from, e),
                j.content,
                j.items,
                j.links,
            )
            &&& j.properties.len() > 0 ==> defs is Some && j.items.len() == 0 && j.content is None
                && j.links == links_among(all_leaves(runs(s.subrange(from, e))))
            &&& level < max ==> j.subsections.map_values(|x: JsonSectionView| x.heading)
                == s.subrange(from, to).filter(
                |b: BlockView| b is Heading && b->Heading_level == (level + 1) as u8,
            ).map_values(|b: BlockView| heading_words(b))
            &&& level >= max ==> j.subsections.len() == 0
        }),
{
    let next = (level + 1) as u8;
    if level < max {
        next_heading_is_next(s, next, from, to);
        let n = next_heading(s, next, from, to);
        if n < e {
            assert(s[n] is Heading && s[n]->Heading_level == level + 1);
        }
        if e < n {
            assert(!(s[e] is Heading && s[e]->Heading_level == next));
        }
        assert(n == e);
        sections_follow_the_headings(s, from, to, next, max, None);
    }
    direct_content_shows_blocks(s.subrange(from, e), defs);
    no_items_no_properties(direct_content(s.subrange(from, e), defs).items, defs);
}

/// The parts of a document are where they are looked for: its title is the
/// first heading of the first level; its intro is what stands between the
/// title and the first heading of the second level behind it, where that is
/// more than blank lines; its sections follow the headings of the second
/// level behind the title.
pub proof fn a_document_shows_its_parts(
    doc: DocumentView,
    path: PathView,
    resolved: Option<Seq<char>>,
    td: Option<TypeDef>,
    root: PathView,
    h: int,
    b: int,
)
    requires
        0 <= h <= doc.blocks.len(),
        forall|k: int|
            0 <= k < h ==> !((#[trigger] doc.blocks[k]) is Heading && doc.blocks[k]->Heading_level
                == 1),
        h < doc.blocks.len() ==> doc.blocks[h] is Heading && doc.blocks[h]->Heading_level == 1,
        ({
            let a = if h < doc.blocks.len() {
                h + 1
            } else {
                0
            };
            &&& a <= b <= doc.blocks.len()
            &&& forall|k: int|
                a <= k < b ==> !((#[trigger] doc.blocks[k]) is Heading
                    && doc.blocks[k]->Heading_level == 2)
            &&& b < doc.blocks.len() ==> doc.blocks[b] is Heading && doc.blocks[b]->Heading_level
                == 2
        }),
    ensures
        ({
            let s = doc.blocks;
            let a = if h < s.len() {
                h + 1
            } else {
                0
            };
            let j = document_json(doc, path, resolved, td, root);
            &&& j.doc_type == resolved
            &&& j.title == (if h < s.len() {
                Some(heading_words(s[h]))
            } else {
                None
            })
            &&& j.intro is Some <==> exists|k: int|
                a <= k < b && #[trigger] s[k] != BlockView::BlankLine
            &&& j.intro matches Some(c) ==> shows_blocks(
                s.subrange(a, b),
                c.content,
                c.items,
                c.links,
            )
            &&& j.sections.map_values(|x: JsonSectionView| x.heading) == s.subrange(
                b,
                s.len() as int,
            ).filter(|x: BlockView| x is Heading && x->Heading_level == 2u8).map_values(
                |x: BlockView| heading_words(x),
            )
        }),
{
    let s = doc.blocks;
    let n = s.len() as int;
    next_heading_is_next(s, 1, 0, n);
    let t = next_heading(s, 1, 0, n);
    if t < h {
        assert(s[t] is Heading && s[t]->Heading_level == 1);
    }
    if h < t {
        assert(!(s[h] is Heading && s[h]->Heading_level == 1));
    }
    assert(t == h);
    let a = after_title(s);
    next_heading_is_next(s, 2, a, n);
    let m = next_heading(s, 2, a, n);
    if m < b {
        assert(s[m] is Heading && s[m]->Heading_level == 2);
    }
    if b < m {
        assert(!(s[b] is Heading && s[b]->Heading_level == 2));
    }
    assert(m == b);
    let intro = s.subrange(a, b);
    direct_content_shows_blocks(intro, None);
    if has_content(intro) {
        let k = choose|k: int| 0 <= k < intro.len() && #[trigger] intro[k] != BlockView::BlankLine;
        assert(s[a + k] != BlockView::BlankLine);
    }
    if exists|k: int| a <= k < b && #[trigger] s[k] != BlockView::BlankLine {
        let k = choose|k: int| a <= k < b && #[trigger] s[k] != BlockView::BlankLine;
        assert(intro[k - a] != BlockView::BlankLine);
    }
    sections_follow_the_headings(
        s,
        b,
        n,
        2,
        4,
        match td {
            Some(td) => Some(td.structure.sections@),
            None => None,
        },
    );
}

/// Every field of front matter is shown under its key, in the form that its
/// schema asks for; `type` is what front matter says, or else the type that
/// was resolved; and nothing else is shown.
pub proof fn every_field_is_shown(
    doc: DocumentView,
    fm: FrontmatterView,
    resolved: Option<Seq<char>>,
    td: Option<TypeDef>,
    key: Seq<char>,
)
    requires
        doc.frontmatter == Some(fm),
        distinct_keys(fm.fields),
        !has_key(fm.fields, "type"@),
    ensures
        frontmatter_json(doc, resolved, td) matches JsonView::Object(members) && distinct_keys(
            members,
        ) && (if key == "type"@ {
            lookup(members, key) == (match fm.doc_type {
                Some(t) => Some(JsonView::Text(t)),
                None => match resolved {
                    Some(t) => Some(JsonView::Text(t)),
                    None => None,
                },
            })
        } else {
            lookup(members, key) == (match lookup(fm.fields, key) {
                Some(v) => Some(field_json(v, declared_schema(td, key))),
                None => None,
            })
        }),
{
    let start = type_member(doc, resolved);
    reveal_with_fuel(lookup, 3);
    if start.len() > 0 {
        assert(start.drop_last() =~= Seq::empty());
    }
    assert(distinct_keys(start));
    fields_are_stored(start, fm.fields, td, key);
    if key == "type"@ {
        lookup_finds(fm.fields, key);
    }
}

proof fn fields_are_stored(
    members: Seq<(Seq<char>, JsonView)>,
    fields: Seq<(Seq<char>, crate::value::YamlView)>,
    td: Option<TypeDef>,
    key: Seq<char>,
)
    requires
        distinct_keys(members),
        distinct_keys(fields),
    ensures
        distinct_keys(with_fields(members, fields, td)),
        lookup(with_fields(members, fields, td), key) == (match lookup(fields, key) {
            Some(v) => Some(field_json(v, declared_schema(td, key))),
            None => lookup(members, key),
        }),
    decreases fields.len(),
{
    if fields.len() > 0 {
        let f = fields.drop_last();
        assert(distinct_keys(f)) by {
            assert forall|i: int, j: int| 0 <= i < j < f.len() implies (#[trigger] f[i]).0 != (
            #[trigger] f[j]).0 by {
                assert(fields[i].0 != fields[j].0);
            }
        }
        fields_are_stored(members, f, td, key);
        let (k, v) = fields.last();
        stored_then_looked_up(
            with_fields(members, f, td),
            k,
            field_json(v, declared_schema(td, k)),
            key,
        );
        if k == key {
            lookup_at(fields, fields.len() - 1);
        } else {
            lookup_finds(f, key);
        }
    }
}

/// The links of a document in JSON are those of its intro and of its sections
/// at every depth: a URL is among them exactly where a link of the intro, or
/// of a section or a subsection, has it.
pub proof fn urls_of_sections_are_gathered(v: Seq<JsonSectionView>, u: Seq<char>)
    ensures
        sections_urls(v).contains(u) <==> exists|k: int|
            0 <= k < v.len() && ((exists|i: int|
                0 <= i < (#[trigger] v[k]).links.len() && (#[trigger] v[k].links[i]).url == u)
                || sections_urls(v[k].subsections).contains(u)),
    decreases v.len(),
{
    if v.len() > 0 {
        let f = v.drop_last();
        let l = v[v.len() - 1];
        let n = v.len() - 1;
        urls_of_sections_are_gathered(f, u);
        sum_contains_either(sections_urls(f), section_urls(l), u);
        sum_contains_either(urls_of_links(l.links), sections_urls(l.subsections), u);
        if urls_of_links(l.links).contains(u) {
            let i = choose|i: int| 0 <= i < l.links.len() && urls_of_links(l.links)[i] == u;
            assert(v[n].links[i].url == u);
        }
        if exists|i: int| 0 <= i < l.links.len() && (#[trigger] l.links[i]).url == u {
            let i = choose|i: int| 0 <= i < l.links.len() && (#[trigger] l.links[i]).url == u;
            assert(urls_of_links(l.links)[i] == u);
        }
        if sections_urls(f).contains(u) {
            let k = choose|k: int|
                0 <= k < f.len() && ((exists|i: int|
                    0 <= i < (#[trigger] f[k]).links.len() && (#[trigger] f[k].links[i]).url == u)
                    || sections_urls(f[k].subsections).contains(u));
            assert(v[k] == f[k]);
        }
        if exists|k: int|
            0 <= k < v.len() && ((exists|i: int|
                0 <= i < (#[trigger] v[k]).links.len() && (#[trigger] v[k].links[i]).url == u)
                || sections_urls(v[k].subsections).contains(u)) {
            let k = choose|k: int|
                0 <= k < v.len() && ((exists|i: int|
                    0 <= i < (#[trigger] v[k]).links.len() && (#[trigger] v[k].links[i]).url == u)
                    || sections_urls(v[k].subsections).contains(u));
            if k < n {
                assert(f[k] == v[k]);
            }
        }
    }
}

proof fn sum_contains_either(a: Seq<Seq<char>>, b: Seq<Seq<char>>, x: Seq<char>)
    ensures
        (a + b).contains(x) <==> a.contains(x) || b.contains(x),
{
    if a.contains(x) {
        let i = choose|i: int| 0 <= i < a.len() && a[i] == x;
        assert((a + b)[i] == x);
    }
    if b.contains(x) {
        let i = choose|i: int| 0 <= i < b.len() && b[i] == x;
        assert((a + b)[a.len() + i] == x);
    }
    if (a + b).contains(x) {
        let i = choose|i: int| 0 <= i < (a + b).len() && (a + b)[i] == x;
        if i < a.len() {
            assert(a[i] == x);
        } else {
            assert(b[i - a.len()] == x);
        }
    }
}

/// A pair `Key: Value` is shown as a property under its key in lower case;
/// what was there under other keys stays.
pub proof fn a_pair_is_a_property(
    props: Seq<(Seq<char>, JsonView)>,
    key: Seq<char>,
    value: Seq<char>,
    defs: Seq<(Seq<char>, FieldDef)>,
    other: Seq<char>,
)
    requires
        distinct_keys(props),
        !has_part(key + ":"@, ": "@),
    ensures
        ({
            let name = lowercase(trimmed(key));
            let r = with_property(props, key + ": "@ + value, defs);
            &&& distinct_keys(r)
            &&& lookup(r, name) == Some(
                match lookup(defs, name) {
                    Some(def) => property_json(trimmed(value), def),
                    None => JsonView::Text(trimmed(value)),
                },
            )
            &&& other != name ==> lookup(r, other) == lookup(props, other)
        }),
{
    let text = key + ": "@ + value;
    reveal_strlit(": ");
    reveal_strlit(":");
    let n = key.len() as int;
    first_at_is_first(text, ": "@, 0);
    assert(text.subrange(n, n + 2) =~= ": "@);
    assert(stands_at(text, ": "@, n));
    if let Some(i) = first_at(text, ": "@, 0) {
        if i < n {
            let short = key + ":"@;
            assert(text.subrange(i, i + 2) =~= short.subrange(i, i + 2));
            assert(stands_at(short, ": "@, i));
        }
    }
    assert(first_at(text, ": "@, 0) == Some(n));
    assert(text.take(n) =~= key);
    assert(text.skip(n + 2) =~= value);
    let name = lowercase(trimmed(key));
    stored_then_looked_up(
        props,
        name,
        match lookup(defs, name) {
            Some(def) => property_json(trimmed(value), def),
            None => JsonView::Text(trimmed(value)),
        },
        other,
    );
}

/// Whether texts are pairs `Key: Value` of the given keys and values, no two
/// under one key.
pub open spec fn are_pairs(
    texts: Seq<Seq<char>>,
    keys: Seq<Seq<char>>,
    values: Seq<Seq<char>>,
) -> bool {
    &&& keys.len() == texts.len() && values.len() == texts.len()
    &&& forall|k: int|
        0 <= k < texts.len() ==> #[trigger] texts[k] == keys[k] + ": "@ + values[k] && !has_part(
            keys[k] + ":"@,
            ": "@,
        )
    &&& forall|i: int, j: int|
        0 <= i < j < texts.len() ==> lowercase(trimmed(#[trigger] keys[i])) != lowercase(
            trimmed(#[trigger] keys[j]),
        )
}

/// What a pair shows for its value.
pub open spec fn shown_value(
    key: Seq<char>,
    value: Seq<char>,
    defs: Seq<(Seq<char>, FieldDef)>,
) -> JsonView {
    match lookup(defs, lowercase(trimmed(key))) {
        Some(def) => property_json(trimmed(value), def),
        None => JsonView::Text(trimmed(value)),
    }
}

proof fn fewer_pairs(texts: Seq<Seq<char>>, keys: Seq<Seq<char>>, values: Seq<Seq<char>>)
    requires
        are_pairs(texts, keys, values),
        texts.len() > 0,
    ensures
        are_pairs(texts.drop_last(), keys.drop_last(), values.drop_last()),
{
    let t = texts.drop_last();
    let ks = keys.drop_last();
    let vs = values.drop_last();
    assert forall|k: int| 0 <= k < t.len() implies #[trigger] t[k] == ks[k] + ": "@ + vs[k]
        && !has_part(ks[k] + ":"@, ": "@) by {
        assert(t[k] == texts[k]);
    }
    assert forall|i: int, j: int| 0 <= i < j < t.len() implies lowercase(
        trimmed(#[trigger] ks[i]),
    ) != lowercase(trimmed(#[trigger] ks[j])) by {
        assert(ks[i] == keys[i] && ks[j] == keys[j]);
    }
}

proof fn pairs_in_items_are_properties(
    items: Seq<JsonItemView>,
    keys: Seq<Seq<char>>,
    values: Seq<Seq<char>>,
    defs: Seq<(Seq<char>, FieldDef)>,
)
    requires
        are_pairs(items.map_values(|i: JsonItemView| i.text), keys, values),
    ensures
        distinct_keys(text_properties(items, defs)),
        forall|k: int|
            0 <= k < items.len() ==> lookup(
                text_properties(items, defs),
                lowercase(trimmed(#[trigger] keys[k])),
            ) == Some(shown_value(keys[k], values[k], defs)),
    decreases items.len(),
{
    let texts = items.map_values(|i: JsonItemView| i.text);
    let r = text_properties(items, defs);
    if items.len() > 0 {
        let f = items.drop_last();
        let n = items.len() - 1;
        fewer_pairs(texts, keys, values);
        assert(f.map_values(|i: JsonItemView| i.text) =~= texts.drop_last());
        pairs_in_items_are_properties(f, keys.drop_last(), values.drop_last(), defs);
        assert(texts[n] == keys[n] + ": "@ + values[n]);
        let before = text_properties(f, defs);
        assert(r == with_property(before, keys[n] + ": "@ + values[n], defs));
        a_pair_is_a_property(before, keys[n], values[n], defs, keys[n]);
        assert forall|k: int| 0 <= k < items.len() implies lookup(
            r,
            lowercase(trimmed(#[trigger] keys[k])),
        ) == Some(shown_value(keys[k], values[k], defs)) by {
            if k < n {
                let name = lowercase(trimmed(keys[k]));
                assert(keys.drop_last()[k] == keys[k]);
                assert(values.drop_last()[k] == values[k]);
                assert(lowercase(trimmed(keys[k])) != lowercase(trimmed(keys[n])));
                a_pair_is_a_property(before, keys[n], values[n], defs, name);
            }
        }
    }
}

/// A section whose items are pairs, with nothing under them, shows them as
/// properties: each key in lower case has its value.
pub proof fn pairs_of_a_section_are_its_properties(
    items: Seq<JsonItemView>,
    keys: Seq<Seq<char>>,
    values: Seq<Seq<char>>,
    defs: Seq<(Seq<char>, FieldDef)>,
    k: int,
)
    requires
        are_pairs(items.map_values(|i: JsonItemView| i.text), keys, values),
        forall|i: int|
            0 <= i < items.len() ==> (#[trigger] items[i]).items.len() == 0
                && items[i].properties.len() == 0,
        0 <= k < items.len(),
    ensures
        lookup(flat_properties(items, Some(defs)), lowercase(trimmed(keys[k]))) == Some(
            shown_value(keys[k], values[k], defs),
        ),
        flat_properties(items, None).len() == 0,
{
    pairs_in_items_are_properties(items, keys, values, defs);
    let texts = items.map_values(|i: JsonItemView| i.text);
    assert forall|i: int| 0 <= i < items.len() implies has_part(
        (#[trigger] items[i]).text,
        ": "@,
    ) by {
        assert(texts[i] == keys[i] + ": "@ + values[i]);
        let n = keys[i].len() as int;
        let p = ": "@;
        assert(texts[i].subrange(n, n + p.len()) =~= p);
        assert(stands_at(texts[i], p, n));
    }
    assert(keys[k] == keys[k]);
}

proof fn pairs_under_an_item_are_properties(
    items: Seq<ListItemView>,
    keys: Seq<Seq<char>>,
    values: Seq<Seq<char>>,
    defs: Seq<(Seq<char>, FieldDef)>,
)
    requires
        are_pairs(items.map_values(|i: ListItemView| inlines_text(i.content)), keys, values),
    ensures
        distinct_keys(with_item_properties(Seq::empty(), items, defs)),
        forall|k: int|
            0 <= k < items.len() ==> lookup(
                with_item_properties(Seq::empty(), items, defs),
                lowercase(trimmed(#[trigger] keys[k])),
            ) == Some(shown_value(keys[k], values[k], defs)),
    decreases items.len(),
{
    let texts = items.map_values(|i: ListItemView| inlines_text(i.content));
    let none: Seq<(Seq<char>, JsonView)> = Seq::empty();
    let r = with_item_properties(none, items, defs);
    if items.len() > 0 {
        let f = items.drop_last();
        let n = items.len() - 1;
        fewer_pairs(texts, keys, values);
        assert(f.map_values(|i: ListItemView| inlines_text(i.content)) =~= texts.drop_last());
        pairs_under_an_item_are_properties(f, keys.drop_last(), values.drop_last(), defs);
        assert(texts[n] == keys[n] + ": "@ + values[n]);
        let before = with_item_properties(none, f, defs);
        assert(r == with_property(before, keys[n] + ": "@ + values[n], defs));
        a_pair_is_a_property(before, keys[n], values[n], defs, keys[n]);
        assert forall|k: int| 0 <= k < items.len() implies lookup(
            r,
            lowercase(trimmed(#[trigger] keys[k])),
        ) == Some(shown_value(keys[k], values[k], defs)) by {
            if k < n {
                let name = lowercase(trimmed(keys[k]));
                assert(keys.drop_last()[k] == keys[k]);
                assert(values.drop_last()[k] == values[k]);
                assert(lowercase(trimmed(keys[k])) != lowercase(trimmed(keys[n])));
                a_pair_is_a_property(before, keys[n], values[n], defs, name);
            }
        }
    }
}

/// An item with a list of pairs under it shows them as its properties, where
/// properties are declared; otherwise it shows the items of the list.
pub proof fn pairs_of_an_item_are_its_properties(
    item: ListItemView,
    items: Seq<ListItemView>,
    ordered: bool,
    start: u64,
    line: int,
    keys: Seq<Seq<char>>,
    values: Seq<Seq<char>>,
    defs: Seq<(Seq<char>, FieldDef)>,
    k: int,
)
    requires
        item.children == seq![BlockView::List { items, ordered, start, line }],
        are_pairs(items.map_values(|i: ListItemView| inlines_text(i.content)), keys, values),
        0 <= k < items.len(),
    ensures
        lookup(item_json(item, Some(defs)).properties, lowercase(trimmed(keys[k]))) == Some(
            shown_value(keys[k], values[k], defs),
        ),
        item_json(item, Some(defs)).items.len() == 0,
        item_json(item, None).properties.len() == 0,
{
    pairs_under_an_item_are_properties(items, keys, values, defs);
    let c = item.children;
    reveal_with_fuel(child_properties, 2);
    assert(c.drop_last() =~= Seq::empty());
    assert(child_properties(c, defs) == with_item_properties(Seq::empty(), items, defs));
    assert(keys[k] == keys[k]);
    lookup_finds(child_properties(c, defs), lowercase(trimmed(keys[k])));
}

/// The properties of a section are declared by the first section of that
/// title.
pub proof fn a_section_is_declared_by_its_title(
    defs: Seq<SectionDef>,
    title: Seq<char>,
    from: int,
    i: int,
)
    requires
        0 <= from <= i <= defs.len(),
        forall|j: int| from <= j < i ==> (#[trigger] defs[j]).title@ != title,
        i < defs.len() ==> defs[i].title@ == title,
    ensures
        i == defs.len() ==> section_defs(defs, title, from) is None,
        i < defs.len() ==> section_defs(defs, title, from) == (match defs[i].properties {
            Some(p) => Some(p@),
            None => None,
        }),
    decreases i - from,
{
    if from < i {
        a_section_is_declared_by_its_title(defs, title, from + 1, i);
    }
}

} // verus!
