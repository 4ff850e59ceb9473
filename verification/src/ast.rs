//! The document tree: documents, front matter, blocks and inlines.

use crate::ordered::{distinct_keys, has_key, lookup, OrderedMap};
use crate::text::{
    chars_of, copy_option, copy_texts, ends_with_char, has_prefix, is_space, option_text, repeat,
    repeated, replace, replaced, slice_text, space, starts_with, starts_with_char, texts,
    trim_start, trimmed_start,
};
use crate::value::{copy_value, Yaml, YamlView};
use vstd::prelude::*;

verus! {

broadcast use vstd::seq_lib::group_seq_properties;

// ── inlines ───────────────────────────────────────────────────────────────

/// An inline markdown element.
///
/// `Spelled` is text that the source writes otherwise, with a backslash or
/// as an entity; `Autolink` a destination between angle brackets. `StyledLink`
/// and `StyledImage` are those whose text is more than plain text; their
/// title may be empty.
#[allow(inconsistent_fields)]
#[derive(Debug, PartialEq)]
pub enum Inline {
    Text(String),
    Spelled { text: String, source: String },
    Strong(Vec<Inline>),
    Emphasis(Vec<Inline>),
    Strikethrough(Vec<Inline>),
    Link { text: String, url: String },
    TitledLink { text: String, url: String, title: String },
    StyledLink { content: Vec<Inline>, url: String, title: String },
    Autolink(String),
    Image { alt: String, url: String },
    TitledImage { alt: String, url: String, title: String },
    StyledImage { content: Vec<Inline>, url: String, title: String },
    Code(String),
    Html(String),
    SoftBreak,
    HardBreak,
}

/// What an [`Inline`] holds.
#[allow(inconsistent_fields)]
pub enum InlineView {
    Text(Seq<char>),
    Spelled { text: Seq<char>, source: Seq<char> },
    Strong(Seq<InlineView>),
    Emphasis(Seq<InlineView>),
    Strikethrough(Seq<InlineView>),
    Link { text: Seq<char>, url: Seq<char> },
    TitledLink { text: Seq<char>, url: Seq<char>, title: Seq<char> },
    StyledLink { content: Seq<InlineView>, url: Seq<char>, title: Seq<char> },
    Autolink(Seq<char>),
    Image { alt: Seq<char>, url: Seq<char> },
    TitledImage { alt: Seq<char>, url: Seq<char>, title: Seq<char> },
    StyledImage { content: Seq<InlineView>, url: Seq<char>, title: Seq<char> },
    Code(Seq<char>),
    Html(Seq<char>),
    SoftBreak,
    HardBreak,
}

pub open spec fn inline_view(i: Inline) -> InlineView
    decreases i,
{
    match i {
        Inline::Text(s) => InlineView::Text(s@),
        Inline::Spelled { text, source } => InlineView::Spelled { text: text@, source: source@ },
        Inline::Strong(v) => InlineView::Strong(inlines_view(v@)),
        Inline::Emphasis(v) => InlineView::Emphasis(inlines_view(v@)),
        Inline::Strikethrough(v) => InlineView::Strikethrough(inlines_view(v@)),
        Inline::Link { text, url } => InlineView::Link { text: text@, url: url@ },
        Inline::TitledLink { text, url, title } => InlineView::TitledLink {
            text: text@,
            url: url@,
            title: title@,
        },
        Inline::StyledLink { content, url, title } => InlineView::StyledLink {
            content: inlines_view(content@),
            url: url@,
            title: title@,
        },
        Inline::Autolink(url) => InlineView::Autolink(url@),
        Inline::Image { alt, url } => InlineView::Image { alt: alt@, url: url@ },
        Inline::TitledImage { alt, url, title } => InlineView::TitledImage {
            alt: alt@,
            url: url@,
            title: title@,
        },
        Inline::StyledImage { content, url, title } => InlineView::StyledImage {
            content: inlines_view(content@),
            url: url@,
            title: title@,
        },
        Inline::Code(s) => InlineView::Code(s@),
        Inline::Html(s) => InlineView::Html(s@),
        Inline::SoftBreak => InlineView::SoftBreak,
        Inline::HardBreak => InlineView::HardBreak,
    }
}

pub open spec fn inlines_view(v: Seq<Inline>) -> Seq<InlineView>
    decreases v,
{
    Seq::new(
        v.len(),
        |i: int|
            if 0 <= i < v.len() {
                inline_view(v[i])
            } else {
                InlineView::SoftBreak
            },
    )
}

impl View for Inline {
    type V = InlineView;

    open spec fn view(&self) -> InlineView {
        inline_view(*self)
    }
}

/// A copy of an inline.
pub fn copy_inline(i: &Inline) -> (r: Inline)
    ensures
        r@ == i@,
    decreases i,
{
    match i {
        Inline::Text(s) => Inline::Text(s.clone()),
        Inline::Spelled { text, source } => Inline::Spelled {
            text: text.clone(),
            source: source.clone(),
        },
        Inline::Strong(v) => Inline::Strong(copy_inlines(v)),
        Inline::Emphasis(v) => Inline::Emphasis(copy_inlines(v)),
        Inline::Strikethrough(v) => Inline::Strikethrough(copy_inlines(v)),
        Inline::Link { text, url } => Inline::Link { text: text.clone(), url: url.clone() },
        Inline::TitledLink { text, url, title } => Inline::TitledLink {
            text: text.clone(),
            url: url.clone(),
            title: title.clone(),
        },
        Inline::StyledLink { content, url, title } => Inline::StyledLink {
            content: copy_inlines(content),
            url: url.clone(),
            title: title.clone(),
        },
        Inline::Autolink(url) => Inline::Autolink(url.clone()),
        Inline::Image { alt, url } => Inline::Image { alt: alt.clone(), url: url.clone() },
        Inline::TitledImage { alt, url, title } => Inline::TitledImage {
            alt: alt.clone(),
            url: url.clone(),
            title: title.clone(),
        },
        Inline::StyledImage { content, url, title } => Inline::StyledImage {
            content: copy_inlines(content),
            url: url.clone(),
            title: title.clone(),
        },
        Inline::Code(s) => Inline::Code(s.clone()),
        Inline::Html(s) => Inline::Html(s.clone()),
        Inline::SoftBreak => Inline::SoftBreak,
        Inline::HardBreak => Inline::HardBreak,
    }
}

/// A copy of a list of inlines.
pub fn copy_inlines(v: &Vec<Inline>) -> (r: Vec<Inline>)
    ensures
        inlines_view(r@) == inlines_view(v@),
    decreases v@,
{
    let mut out: Vec<Inline> = Vec::new();
    let mut i: usize = 0;
    while i < v.len()
        invariant
            i <= v.len(),
            out.len() == i,
            forall|k: int| 0 <= k < i ==> (#[trigger] out[k])@ == v[k]@,
        decreases v.len() - i,
    {
        let c = copy_inline(&v[i]);
        out.push(c);
        i += 1;
    }
    assert(inlines_view(out@) =~= inlines_view(v@));
    out
}

impl Clone for Inline {
    fn clone(&self) -> (r: Inline)
        ensures
            r@ == self@,
    {
        copy_inline(self)
    }
}

// ── blocks ────────────────────────────────────────────────────────────────

/// Column alignment in a table.
#[derive(Debug, Clone, Copy, PartialEq, Eq, Structural)]
pub enum ColumnAlignment {
    Unset,
    Left,
    Center,
    Right,
}

/// A list item with inline content and nested blocks.
#[derive(Debug, PartialEq)]
pub struct ListItem {
    pub content: Vec<Inline>,
    pub children: Vec<Block>,
}

/// A block-level markdown element.
///
/// All variants but `BlankLine` carry the 1-based number of the source line
/// where the block starts. `BlankLine` is inserted by normalization and has
/// no source position. `start` is the number of the first item where the list
/// is ordered.
#[allow(inconsistent_fields)]
#[derive(Debug, PartialEq)]
pub enum Block {
    Heading { level: u8, content: Vec<Inline>, line: usize },
    Paragraph { content: Vec<Inline>, line: usize },
    List { items: Vec<ListItem>, ordered: bool, start: u64, line: usize },
    CodeBlock { language: Option<String>, content: String, line: usize },
    Html { content: String, line: usize },
    BlockQuote { blocks: Vec<Block>, line: usize },
    Table {
        alignments: Vec<ColumnAlignment>,
        header: Vec<Vec<Inline>>,
        rows: Vec<Vec<Vec<Inline>>>,
        line: usize,
    },
    ThematicBreak { line: usize },
    BlankLine,
}

/// What a [`ListItem`] holds.
pub struct ListItemView {
    pub content: Seq<InlineView>,
    pub children: Seq<BlockView>,
}

/// What a [`Block`] holds.
#[allow(inconsistent_fields)]
pub enum BlockView {
    Heading { level: u8, content: Seq<InlineView>, line: int },
    Paragraph { content: Seq<InlineView>, line: int },
    List { items: Seq<ListItemView>, ordered: bool, start: u64, line: int },
    CodeBlock { language: Option<Seq<char>>, content: Seq<char>, line: int },
    Html { content: Seq<char>, line: int },
    BlockQuote { blocks: Seq<BlockView>, line: int },
    Table {
        alignments: Seq<ColumnAlignment>,
        header: Seq<Seq<InlineView>>,
        rows: Seq<Seq<Seq<InlineView>>>,
        line: int,
    },
    ThematicBreak { line: int },
    BlankLine,
}

/// The cells of a table row.
pub open spec fn cells_view(v: Seq<Vec<Inline>>) -> Seq<Seq<InlineView>> {
    v.map_values(|c: Vec<Inline>| inlines_view(c@))
}

/// The rows of a table.
pub open spec fn rows_view(v: Seq<Vec<Vec<Inline>>>) -> Seq<Seq<Seq<InlineView>>> {
    v.map_values(|r: Vec<Vec<Inline>>| cells_view(r@))
}

pub open spec fn block_view(b: Block) -> BlockView
    decreases b,
{
    match b {
        Block::Heading { level, content, line } => BlockView::Heading {
            level,
            content: inlines_view(content@),
            line: line as int,
        },
        Block::Paragraph { content, line } => BlockView::Paragraph {
            content: inlines_view(content@),
            line: line as int,
        },
        Block::List { items, ordered, start, line } => BlockView::List {
            items: items_view(items@),
            ordered,
            start,
            line: line as int,
        },
        Block::CodeBlock { language, content, line } => BlockView::CodeBlock {
            language: option_text(language),
            content: content@,
            line: line as int,
        },
        Block::Html { content, line } => BlockView::Html { content: content@, line: line as int },
        Block::BlockQuote { blocks, line } => BlockView::BlockQuote {
            blocks: blocks_view(blocks@),
            line: line as int,
        },
        Block::Table { alignments, header, rows, line } => BlockView::Table {
            alignments: alignments@,
            header: cells_view(header@),
            rows: rows_view(rows@),
            line: line as int,
        },
        Block::ThematicBreak { line } => BlockView::ThematicBreak { line: line as int },
        Block::BlankLine => BlockView::BlankLine,
    }
}

pub open spec fn blocks_view(v: Seq<Block>) -> Seq<BlockView>
    decreases v,
{
    Seq::new(
        v.len(),
        |i: int|
            if 0 <= i < v.len() {
                block_view(v[i])
            } else {
                BlockView::BlankLine
            },
    )
}

pub open spec fn item_view(item: ListItem) -> ListItemView
    decreases item,
{
    ListItemView {
        content: inlines_view(item.content@),
        children: blocks_view(item.children@),
    }
}

pub open spec fn items_view(v: Seq<ListItem>) -> Seq<ListItemView>
    decreases v,
{
    Seq::new(
        v.len(),
        |i: int|
            if 0 <= i < v.len() {
                item_view(v[i])
            } else {
                ListItemView { content: Seq::empty(), children: Seq::empty() }
            },
    )
}

impl View for Block {
    type V = BlockView;

    open spec fn view(&self) -> BlockView {
        block_view(*self)
    }
}

impl View for ListItem {
    type V = ListItemView;

    open spec fn view(&self) -> ListItemView {
        item_view(*self)
    }
}

/// A copy of a table row.
pub fn copy_cells(v: &Vec<Vec<Inline>>) -> (r: Vec<Vec<Inline>>)
    ensures
        cells_view(r@) == cells_view(v@),
{
    let mut out: Vec<Vec<Inline>> = Vec::new();
    let mut i: usize = 0;
    while i < v.len()
        invariant
            i <= v.len(),
            out.len() == i,
            forall|k: int| 0 <= k < i ==> inlines_view((#[trigger] out[k])@) == inlines_view(v[k]@),
        decreases v.len() - i,
    {
        let c = copy_inlines(&v[i]);
        out.push(c);
        i += 1;
    }
    assert(cells_view(out@) =~= cells_view(v@));
    out
}

/// A copy of the rows of a table.
pub fn copy_rows(v: &Vec<Vec<Vec<Inline>>>) -> (r: Vec<Vec<Vec<Inline>>>)
    ensures
        rows_view(r@) == rows_view(v@),
{
    let mut out: Vec<Vec<Vec<Inline>>> = Vec::new();
    let mut i: usize = 0;
    while i < v.len()
        invariant
            i <= v.len(),
            out.len() == i,
            forall|k: int| 0 <= k < i ==> cells_view((#[trigger] out[k])@) == cells_view(v[k]@),
        decreases v.len() - i,
    {
        let c = copy_cells(&v[i]);
        out.push(c);
        i += 1;
    }
    assert(rows_view(out@) =~= rows_view(v@));
    out
}

/// A copy of a list of alignments.
pub fn copy_alignments(v: &Vec<ColumnAlignment>) -> (r: Vec<ColumnAlignment>)
    ensures
        r@ == v@,
{
    let mut out: Vec<ColumnAlignment> = Vec::new();
    let mut i: usize = 0;
    while i < v.len()
        invariant
            i <= v.len(),
            out@ == v@.take(i as int),
        decreases v.len() - i,
    {
        out.push(v[i]);
        i += 1;
    }
    out
}

/// A copy of a block.
pub fn copy_block(b: &Block) -> (r: Block)
    ensures
        r@ == b@,
    decreases b,
{
    match b {
        Block::Heading { level, content, line } => Block::Heading {
            level: *level,
            content: copy_inlines(content),
            line: *line,
        },
        Block::Paragraph { content, line } => Block::Paragraph {
            content: copy_inlines(content),
            line: *line,
        },
        Block::List { items, ordered, start, line } => Block::List {
            items: copy_items(items),
            ordered: *ordered,
            start: *start,
            line: *line,
        },
        Block::CodeBlock { language, content, line } => Block::CodeBlock {
            language: copy_option(language),
            content: content.clone(),
            line: *line,
        },
        Block::Html { content, line } => Block::Html { content: content.clone(), line: *line },
        Block::BlockQuote { blocks, line } => Block::BlockQuote {
            blocks: copy_blocks(blocks),
            line: *line,
        },
        Block::Table { alignments, header, rows, line } => Block::Table {
            alignments: copy_alignments(alignments),
            header: copy_cells(header),
            rows: copy_rows(rows),
            line: *line,
        },
        Block::ThematicBreak { line } => Block::ThematicBreak { line: *line },
        Block::BlankLine => Block::BlankLine,
    }
}

/// A copy of a list of blocks.
pub fn copy_blocks(v: &Vec<Block>) -> (r: Vec<Block>)
    ensures
        blocks_view(r@) == blocks_view(v@),
    decreases v@,
{
    let mut out: Vec<Block> = Vec::new();
    let mut i: usize = 0;
    while i < v.len()
        invariant
            i <= v.len(),
            out.len() == i,
            forall|k: int| 0 <= k < i ==> (#[trigger] out[k])@ == v[k]@,
        decreases v.len() - i,
    {
        let c = copy_block(&v[i]);
        out.push(c);
        i += 1;
    }
    assert(blocks_view(out@) =~= blocks_view(v@));
    out
}

/// A copy of a list item.
pub fn copy_item(item: &ListItem) -> (r: ListItem)
    ensures
        r@ == item@,
    decreases item,
{
    ListItem { content: copy_inlines(&item.content), children: copy_blocks(&item.children) }
}

/// A copy of the items of a list.
pub fn copy_items(v: &Vec<ListItem>) -> (r: Vec<ListItem>)
    ensures
        items_view(r@) == items_view(v@),
    decreases v@,
{
    let mut out: Vec<ListItem> = Vec::new();
    let mut i: usize = 0;
    while i < v.len()
        invariant
            i <= v.len(),
            out.len() == i,
            forall|k: int| 0 <= k < i ==> (#[trigger] out[k])@ == v[k]@,
        decreases v.len() - i,
    {
        let c = copy_item(&v[i]);
        out.push(c);
        i += 1;
    }
    assert(items_view(out@) =~= items_view(v@));
    out
}

impl Clone for Block {
    fn clone(&self) -> (r: Block)
        ensures
            r@ == self@,
    {
        copy_block(self)
    }
}

impl Clone for ListItem {
    fn clone(&self) -> (r: ListItem)
        ensures
            r@ == self@,
    {
        copy_item(self)
    }
}

/// The source line of a block, 0 for a blank line.
pub open spec fn block_line(b: BlockView) -> int {
    match b {
        BlockView::Heading { line, .. } => line,
        BlockView::Paragraph { line, .. } => line,
        BlockView::List { line, .. } => line,
        BlockView::CodeBlock { line, .. } => line,
        BlockView::Html { line, .. } => line,
        BlockView::BlockQuote { line, .. } => line,
        BlockView::Table { line, .. } => line,
        BlockView::ThematicBreak { line } => line,
        BlockView::BlankLine => 0,
    }
}

impl Block {
    /// Returns the 1-based source line number, or 0 for `BlankLine`.
    pub fn line(&self) -> (r: usize)
        ensures
            r == block_line(self@),
    {
        match self {
            Block::Heading { line, .. } => *line,
            Block::Paragraph { line, .. } => *line,
            Block::List { line, .. } => *line,
            Block::CodeBlock { line, .. } => *line,
            Block::Html { line, .. } => *line,
            Block::BlockQuote { line, .. } => *line,
            Block::Table { line, .. } => *line,
            Block::ThematicBreak { line } => *line,
            Block::BlankLine => 0,
        }
    }
}

// ── front matter and documents ────────────────────────────────────────────

/// YAML front matter.
///
/// `type` is the only special field: it is kept in `doc_type`. Everything
/// else lands in `fields`, in document order.
#[derive(Debug)]
pub struct Frontmatter {
    /// Value of the `type` key.
    pub doc_type: Option<String>,
    /// All other fields in document order.
    pub fields: OrderedMap<Yaml>,
    /// The lines of the block as written, from the one that opens it on;
    /// empty where it was not read from a text.
    pub source: Vec<String>,
}

/// What a [`Frontmatter`] holds.
pub struct FrontmatterView {
    pub doc_type: Option<Seq<char>>,
    pub fields: Seq<(Seq<char>, YamlView)>,
    pub source: Seq<Seq<char>>,
}

/// The fields of a map of values.
pub open spec fn fields_view(v: Seq<(Seq<char>, Yaml)>) -> Seq<(Seq<char>, YamlView)> {
    v.map_values(|e: (Seq<char>, Yaml)| (e.0, e.1@))
}

impl View for Frontmatter {
    type V = FrontmatterView;

    open spec fn view(&self) -> FrontmatterView {
        FrontmatterView {
            doc_type: option_text(self.doc_type),
            fields: fields_view(self.fields@),
            source: texts(self.source@),
        }
    }
}

/// A parsed markdown document.
#[derive(Debug)]
pub struct Document {
    pub frontmatter: Option<Frontmatter>,
    pub blocks: Vec<Block>,
}

/// What a [`Document`] holds.
pub struct DocumentView {
    pub frontmatter: Option<FrontmatterView>,
    pub blocks: Seq<BlockView>,
}

/// The content of optional front matter.
pub open spec fn option_frontmatter(f: Option<Frontmatter>) -> Option<FrontmatterView> {
    match f {
        Some(f) => Some(f@),
        None => None,
    }
}

impl View for Document {
    type V = DocumentView;

    open spec fn view(&self) -> DocumentView {
        DocumentView {
            frontmatter: option_frontmatter(self.frontmatter),
            blocks: blocks_view(self.blocks@),
        }
    }
}

/// A lookup through the fields finds the content of what it finds in the map.
pub proof fn lookup_fields(v: Seq<(Seq<char>, Yaml)>, key: Seq<char>)
    ensures
        lookup(fields_view(v), key) == (match lookup(v, key) {
            Some(y) => Some(y@),
            None => None,
        }),
        has_key(fields_view(v), key) == has_key(v, key),
    decreases v.len(),
{
    if v.len() > 0 {
        lookup_fields(v.drop_last(), key);
        assert(fields_view(v).drop_last() =~= fields_view(v.drop_last()));
    }
    if has_key(v, key) {
        let i = choose|i: int| 0 <= i < v.len() && (#[trigger] v[i]).0 == key;
        assert(fields_view(v)[i].0 == key);
    }
    if has_key(fields_view(v), key) {
        let i = choose|i: int|
            0 <= i < fields_view(v).len() && (#[trigger] fields_view(v)[i]).0 == key;
        assert(v[i].0 == key);
    }
}

/// A copy of a map of values.
pub fn copy_fields(m: &OrderedMap<Yaml>) -> (r: OrderedMap<Yaml>)
    ensures
        fields_view(r@) == fields_view(m@),
{
    let mut out: OrderedMap<Yaml> = OrderedMap::new();
    let n: usize = m.len();
    let mut i: usize = 0;
    assert(fields_view(out@) =~= fields_view(m@).take(0));
    while i < n
        invariant
            i <= n,
            n == m@.len(),
            distinct_keys(m@),
            fields_view(out@) == fields_view(m@).take(i as int),
        decreases n - i,
    {
        let k = m.key_at(i).clone();
        let v = copy_value(m.value_at(i));
        let ghost was = out@;
        proof {
            assert forall|j: int| 0 <= j < was.len() implies (#[trigger] was[j]).0 != k@ by {
                assert(fields_view(was).len() == was.len());
                assert(fields_view(was)[j] == fields_view(m@).take(i as int)[j]);
                assert(was[j].0 == m@[j].0);
                assert(m@[i as int].0 == k@);
            }
        }
        out.insert(k, v);
        proof {
            assert(out@ == was.push((k@, v)));
            assert(fields_view(out@) =~= fields_view(was).push((k@, v@)));
            assert(fields_view(m@).take(i + 1) =~= fields_view(m@).take(i as int).push(
                fields_view(m@)[i as int],
            ));
        }
        i += 1;
    }
    assert(fields_view(m@).take(n as int) =~= fields_view(m@));
    out
}

impl Clone for Frontmatter {
    fn clone(&self) -> (r: Frontmatter)
        ensures
            r@ == self@,
    {
        Frontmatter {
            doc_type: copy_option(&self.doc_type),
            fields: copy_fields(&self.fields),
            source: copy_texts(&self.source),
        }
    }
}

/// Whether a line starts with `name` as the name of a field: a colon follows,
/// and behind it nothing or a space.
pub open spec fn starts_field(line: Seq<char>, name: Seq<char>) -> bool {
    let rest = trimmed_start(line.skip(name.len() as int));
    &&& has_prefix(line, name)
    &&& rest.len() > 0 && rest[0] == ':'
    &&& rest.len() > 1 ==> is_space(rest[1])
}

/// Whether the field `key` starts on a line, be it quoted or not.
pub open spec fn names_key(line: Seq<char>, key: Seq<char>) -> bool {
    ||| starts_field(line, key)
    ||| starts_field(line, "\""@ + key + "\""@)
    ||| starts_field(line, "'"@ + key + "'"@)
}

/// The position of the first line from number `i` on at which the field
/// `key` starts.
pub open spec fn key_place(source: Seq<Seq<char>>, key: Seq<char>, i: int) -> Option<int>
    decreases source.len() - i,
{
    if i < 0 || i >= source.len() {
        None
    } else if names_key(source[i], key) {
        Some(i)
    } else {
        key_place(source, key, i + 1)
    }
}

/// The 1-based source line on which a field starts that stands at the top of
/// front matter.
pub open spec fn key_line(fm: FrontmatterView, key: Seq<char>) -> Option<usize> {
    match key_place(fm.source, key, 1) {
        Some(i) => Some((i + 1) as usize),
        None => None,
    }
}

fn opens_field(line: &str, name: &str) -> (r: bool)
    ensures
        r == starts_field(line@, name@),
{
    if !starts_with(line, name) {
        return false;
    }
    let l = chars_of(line);
    let n = chars_of(name);
    let rest = slice_text(&l, n.len(), l.len());
    assert(rest@ =~= line@.skip(name@.len() as int));
    let t = trim_start(rest.as_str());
    let t = chars_of(t.as_str());
    t.len() > 0 && t[0] == ':' && (t.len() == 1 || space(t[1]))
}

/// Whether the field `key` starts on a line.
fn opens_key(line: &str, key: &str) -> (r: bool)
    ensures
        r == names_key(line@, key@),
{
    if opens_field(line, key) {
        return true;
    }
    let mut quoted = String::from_str("\"");
    quoted.append(key);
    quoted.append("\"");
    let mut single = String::from_str("'");
    single.append(key);
    single.append("'");
    opens_field(line, quoted.as_str()) || opens_field(line, single.as_str())
}

/// The position of the first line behind the opening one at which the field
/// `key` starts.
pub fn find_key(source: &Vec<String>, key: &str) -> (r: Option<usize>)
    ensures
        match r {
            Some(i) => key_place(texts(source@), key@, 1) == Some(i as int) && i < source.len(),
            None => key_place(texts(source@), key@, 1) is None,
        },
{
    let ghost all = texts(source@);
    let mut i: usize = 1;
    while i < source.len()
        invariant
            1 <= i,
            all == texts(source@),
            key_place(all, key@, 1) == key_place(all, key@, i as int),
        decreases source.len() - i,
    {
        assert(all[i as int] == source@[i as int]@);
        if opens_key(source[i].as_str(), key) {
            return Some(i);
        }
        i += 1;
    }
    None
}

impl Frontmatter {
    /// The 1-based source line on which a field starts. Only fields at the
    /// top of front matter have one.
    pub fn line_of(&self, key: &str) -> (r: Option<usize>)
        ensures
            r == key_line(self@, key@),
    {
        match find_key(&self.source, key) {
            Some(i) => Some(i + 1),
            None => None,
        }
    }
}

impl Clone for Document {
    fn clone(&self) -> (r: Document)
        ensures
            r@ == self@,
    {
        let frontmatter = match &self.frontmatter {
            Some(f) => Some(f.clone()),
            None => None,
        };
        Document { frontmatter, blocks: copy_blocks(&self.blocks) }
    }
}

// ── code spans ────────────────────────────────────────────────────────────

/// The longest run of `c` in `s` and the run that ends `s`.
pub open spec fn runs(s: Seq<char>, c: char) -> (nat, nat)
    decreases s.len(),
{
    if s.len() == 0 {
        (0, 0)
    } else {
        let (max, cur) = runs(s.drop_last(), c);
        if s.last() == c {
            (
                if cur + 1 > max {
                    (cur + 1) as nat
                } else {
                    max
                },
                (cur + 1) as nat,
            )
        } else {
            (max, 0)
        }
    }
}

/// The length of the longest run of `c` in `s`.
pub open spec fn longest_run(s: Seq<char>, c: char) -> nat {
    runs(s, c).0
}

/// Whether every character of `s[i..j]` is `c`.
pub open spec fn all_are(s: Seq<char>, c: char, i: int, j: int) -> bool {
    forall|k: int| i <= k < j ==> s[k] == c
}

/// No run of `c` in `s` is longer than the longest, and one is as long.
pub proof fn longest_run_is_longest(s: Seq<char>, c: char)
    ensures
        forall|i: int, j: int|
            0 <= i <= j <= s.len() && #[trigger] all_are(s, c, i, j) ==> j - i <= longest_run(s, c),
        exists|i: int, j: int|
            0 <= i <= j <= s.len() && #[trigger] all_are(s, c, i, j) && j - i == longest_run(s, c),
{
    runs_measure(s, c);
}

proof fn runs_measure(s: Seq<char>, c: char)
    ensures
        runs(s, c).1 <= runs(s, c).0 <= s.len(),
        all_are(s, c, s.len() - runs(s, c).1, s.len() as int),
        forall|i: int|
            0 <= i <= s.len() && #[trigger] all_are(s, c, i, s.len() as int) ==> s.len() - i
                <= runs(s, c).1,
        forall|i: int, j: int|
            0 <= i <= j <= s.len() && #[trigger] all_are(s, c, i, j) ==> j - i <= runs(s, c).0,
        exists|i: int, j: int|
            0 <= i <= j <= s.len() && #[trigger] all_are(s, c, i, j) && j - i == runs(s, c).0,
    decreases s.len(),
{
    if s.len() == 0 {
        assert(all_are(s, c, 0, 0));
    } else {
        let f = s.drop_last();
        runs_measure(f, c);
        let (max, cur) = runs(f, c);
        let n = s.len() as int;
        assert forall|i: int| 0 <= i <= n && #[trigger] all_are(s, c, i, n) implies n - i <= runs(
            s,
            c,
        ).1 by {
            if i < n {
                assert(s[n - 1] == c);
                assert(all_are(f, c, i, n - 1));
            }
        }
        assert forall|i: int, j: int|
            0 <= i <= j <= n && #[trigger] all_are(s, c, i, j) implies j - i <= runs(s, c).0 by {
            if j < n {
                assert(all_are(f, c, i, j));
            } else {
                assert(all_are(s, c, i, n));
            }
        }
        assert forall|k: int| n - runs(s, c).1 <= k < n implies s[k] == c by {
            if k < n - 1 {
                assert(f[k] == c);
            }
        }
        if runs(s, c).0 == max {
            let (i, j) = choose|i: int, j: int|
                0 <= i <= j <= f.len() && #[trigger] all_are(f, c, i, j) && j - i == max;
            assert forall|k: int| i <= k < j implies s[k] == c by {
                assert(f[k] == c);
            }
            assert(all_are(s, c, i, j));
        } else {
            assert(all_are(s, c, n - runs(s, c).1, n));
        }
    }
}

/// A code span: delimiters one backtick longer than the longest run in the
/// content, with a space inside each where the content starts or ends with
/// a backtick.
pub open spec fn code_span(content: Seq<char>) -> Seq<char> {
    let delim = repeated("`"@, longest_run(content, '`') + 1);
    if content.len() > 0 && (content[0] == '`' || content.last() == '`') {
        delim + " "@ + content + " "@ + delim
    } else {
        delim + content + delim
    }
}

/// Whether a code span loses the spaces around its content when it is read:
/// it starts and ends with one, and holds more than spaces.
pub open spec fn is_padded(s: Seq<char>) -> bool {
    s.len() > 0 && s[0] == ' ' && s.last() == ' ' && exists|i: int|
        0 <= i < s.len() && #[trigger] s[i] != ' '
}

/// A code span as the source has it: a space more on each side where reading
/// takes one away.
pub open spec fn exact_code(s: Seq<char>) -> Seq<char> {
    if is_padded(s) {
        let delim = repeated("`"@, longest_run(s, '`') + 1);
        delim + " "@ + s + " "@ + delim
    } else {
        code_span(s)
    }
}

/// The delimiter of a code span: one backtick more than the longest run of
/// backticks in `content`.
fn code_delimiter(content: &str) -> (r: String)
    ensures
        r@ == repeated("`"@, longest_run(content@, '`') + 1),
{
    let v = chars_of(content);
    let mut max_run: usize = 0;
    let mut current_run: usize = 0;
    let mut i: usize = 0;
    while i < v.len()
        invariant
            i <= v.len(),
            (max_run as nat, current_run as nat) == runs(v@.take(i as int), '`'),
            current_run <= i,
        decreases v.len() - i,
    {
        assert(v@.take(i + 1).drop_last() =~= v@.take(i as int));
        if v[i] == '`' {
            current_run += 1;
            if current_run > max_run {
                max_run = current_run;
            }
        } else {
            current_run = 0;
        }
        i += 1;
    }
    assert(v@.take(v@.len() as int) =~= v@);
    let mut delim = repeat("`", max_run);
    delim.append("`");
    delim
}

/// Format a code span with the correct number of backtick delimiters.
///
/// The delimiter has one backtick more than the longest run of backticks in
/// `content`. If the content starts or ends with a backtick, one space pads
/// each side so that the delimiter is not ambiguous.
pub fn format_code_span(content: &str) -> (r: String)
    ensures
        r@ == code_span(content@),
{
    let delim = code_delimiter(content);
    let needs_pad = starts_with_char(content, '`') || ends_with_char(content, '`');
    let mut out = delim.clone();
    if needs_pad {
        out.append(" ");
        out.append(content);
        out.append(" ");
    } else {
        out.append(content);
    }
    out.append(delim.as_str());
    out
}

// ── inline text ───────────────────────────────────────────────────────────

/// The plain text of an inline. Raw HTML and hard breaks have none.
pub open spec fn inline_text(i: InlineView) -> Seq<char>
    decreases i,
{
    match i {
        InlineView::Text(s) => s,
        InlineView::Spelled { text, .. } => text,
        InlineView::Strong(v) => inlines_text(v),
        InlineView::Emphasis(v) => inlines_text(v),
        InlineView::Strikethrough(v) => inlines_text(v),
        InlineView::Link { text, .. } => text,
        InlineView::TitledLink { text, .. } => text,
        InlineView::StyledLink { content, .. } => inlines_text(content),
        InlineView::Autolink(url) => url,
        InlineView::Image { alt, .. } => alt,
        InlineView::TitledImage { alt, .. } => alt,
        InlineView::StyledImage { content, .. } => inlines_text(content),
        InlineView::Code(s) => s,
        InlineView::Html(_) => Seq::empty(),
        InlineView::SoftBreak => " "@,
        InlineView::HardBreak => Seq::empty(),
    }
}

/// The plain text of a list of inlines.
pub open spec fn inlines_text(v: Seq<InlineView>) -> Seq<char>
    decreases v,
{
    if v.len() == 0 {
        Seq::empty()
    } else {
        inlines_text(v.drop_last()) + inline_text(v[v.len() - 1])
    }
}

/// The title of a link or an image, behind its destination.
pub open spec fn title_text(title: Seq<char>) -> Seq<char> {
    " \""@ + replaced(title, '"', "\\\""@) + "\""@
}

/// Where the parentheses of a text stand: how many are open at its end,
/// `None` where one is closed that was not open.
pub open spec fn open_parens(s: Seq<char>) -> Option<nat>
    decreases s.len(),
{
    if s.len() == 0 {
        Some(0)
    } else {
        match open_parens(s.drop_last()) {
            None => None,
            Some(n) => if s.last() == '(' {
                Some(n + 1)
            } else if s.last() != ')' {
                Some(n)
            } else if n > 0 {
                Some((n - 1) as nat)
            } else {
                None
            },
        }
    }
}

/// Whether a destination can be written only between angle brackets: it
/// holds a space or a control character, starts with a bracket, or its
/// parentheses do not match.
pub open spec fn needs_brackets(url: Seq<char>) -> bool {
    ||| exists|i: int| 0 <= i < url.len() && #[trigger] url[i] <= ' '
    ||| has_prefix(url, "<"@)
    ||| open_parens(url) != Some(0nat)
}

/// The destination of a link or an image.
pub open spec fn destination(url: Seq<char>) -> Seq<char> {
    if needs_brackets(url) {
        "<"@ + replaced(replaced(url, '<', "\\<"@), '>', "\\>"@) + ">"@
    } else {
        url
    }
}

/// A link or an image as the source has it: what it shows, its destination
/// and its title, if any.
pub open spec fn exact_link(
    open: Seq<char>,
    text: Seq<char>,
    url: Seq<char>,
    title: Seq<char>,
) -> Seq<char> {
    link_markdown(
        open,
        text,
        destination(url),
        if title.len() > 0 {
            title_text(title)
        } else {
            Seq::empty()
        },
    )
}

/// The markdown of an inline.
///
/// Where it is `exact` it is written as the source has it, over several
/// lines where there are breaks. Otherwise it is the one-line form that
/// items are matched by: links are written in full, spelling and titles do
/// not show, and neither do raw HTML and hard breaks.
pub open spec fn inline_markdown(i: InlineView, exact: bool) -> Seq<char>
    decreases i,
{
    match i {
        InlineView::Text(s) => s,
        InlineView::Spelled { text, source } => if exact {
            source
        } else {
            text
        },
        InlineView::Strong(v) => "**"@ + inlines_markdown(v, exact) + "**"@,
        InlineView::Emphasis(v) => "*"@ + inlines_markdown(v, exact) + "*"@,
        InlineView::Strikethrough(v) => "~~"@ + inlines_markdown(v, exact) + "~~"@,
        InlineView::Link { text, url } => if exact {
            exact_link("["@, text, url, Seq::empty())
        } else {
            link_markdown("["@, text, url, Seq::empty())
        },
        InlineView::TitledLink { text, url, title } => if exact {
            exact_link("["@, text, url, title)
        } else {
            link_markdown("["@, text, url, Seq::empty())
        },
        InlineView::StyledLink { content, url, title } => if exact {
            exact_link("["@, inlines_markdown(content, exact), url, title)
        } else {
            link_markdown("["@, inlines_text(content), url, Seq::empty())
        },
        InlineView::Autolink(url) => if exact {
            "<"@ + url + ">"@
        } else {
            link_markdown("["@, url, url, Seq::empty())
        },
        InlineView::Image { alt, url } => if exact {
            exact_link("!["@, alt, url, Seq::empty())
        } else {
            link_markdown("!["@, alt, url, Seq::empty())
        },
        InlineView::TitledImage { alt, url, title } => if exact {
            exact_link("!["@, alt, url, title)
        } else {
            link_markdown("!["@, alt, url, Seq::empty())
        },
        InlineView::StyledImage { content, url, title } => if exact {
            exact_link("!["@, inlines_markdown(content, exact), url, title)
        } else {
            link_markdown("!["@, inlines_text(content), url, Seq::empty())
        },
        InlineView::Code(s) => if exact {
            exact_code(s)
        } else {
            code_span(s)
        },
        InlineView::Html(s) => if exact {
            s
        } else {
            Seq::empty()
        },
        InlineView::SoftBreak => if exact {
            "\n"@
        } else {
            " "@
        },
        InlineView::HardBreak => if exact {
            "\\\n"@
        } else {
            Seq::empty()
        },
    }
}

/// A link or an image: what it shows, its destination and its title.
pub open spec fn link_markdown(
    open: Seq<char>,
    text: Seq<char>,
    url: Seq<char>,
    title: Seq<char>,
) -> Seq<char> {
    open + text + "]("@ + url + title + ")"@
}

/// Whether an inline is a line break.
pub open spec fn is_break(i: InlineView) -> bool {
    i is SoftBreak || i is HardBreak
}

/// The markdown of a list of inlines.
pub open spec fn inlines_markdown(v: Seq<InlineView>, exact: bool) -> Seq<char>
    decreases v,
{
    if v.len() == 0 {
        Seq::empty()
    } else {
        inlines_markdown(v.drop_last(), exact) + inline_markdown(v[v.len() - 1], exact)
    }
}

/// Convert inlines to plain text (strip all markup).
pub fn inlines_to_string(inlines: &[Inline]) -> (r: String)
    ensures
        r@ == inlines_text(inlines_view(inlines@)),
    decreases inlines@,
{
    let mut out = String::new();
    let mut i: usize = 0;
    while i < inlines.len()
        invariant
            i <= inlines.len(),
            out@ == inlines_text(inlines_view(inlines@).take(i as int)),
        decreases inlines.len() - i,
    {
        assert(inlines_view(inlines@).take(i + 1).drop_last() =~= inlines_view(inlines@).take(
            i as int,
        ));
        let ghost was = out@;
        match &inlines[i] {
            Inline::Text(s) => out.append(s.as_str()),
            Inline::Spelled { text, source: _ } => out.append(text.as_str()),
            Inline::Strong(inner) => {
                let t = inlines_to_string(inner.as_slice());
                out.append(t.as_str());
            },
            Inline::Emphasis(inner) => {
                let t = inlines_to_string(inner.as_slice());
                out.append(t.as_str());
            },
            Inline::Strikethrough(inner) => {
                let t = inlines_to_string(inner.as_slice());
                out.append(t.as_str());
            },
            Inline::Link { text, url: _ } => out.append(text.as_str()),
            Inline::TitledLink { text, .. } => out.append(text.as_str()),
            Inline::StyledLink { content, .. } => {
                let t = inlines_to_string(content.as_slice());
                out.append(t.as_str());
            },
            Inline::Autolink(url) => out.append(url.as_str()),
            Inline::Image { alt, url: _ } => out.append(alt.as_str()),
            Inline::TitledImage { alt, .. } => out.append(alt.as_str()),
            Inline::StyledImage { content, .. } => {
                let t = inlines_to_string(content.as_slice());
                out.append(t.as_str());
            },
            Inline::Code(s) => out.append(s.as_str()),
            Inline::Html(_) => {},
            Inline::SoftBreak => out.append(" "),
            Inline::HardBreak => {},
        }
        assert(out@ =~= was + inline_text(inlines@[i as int]@));
        i += 1;
    }
    assert(inlines_view(inlines@).take(inlines@.len() as int) =~= inlines_view(inlines@));
    out
}

/// A code span as the source has it.
fn write_exact_code(s: &str) -> (r: String)
    ensures
        r@ == exact_code(s@),
{
    let v = chars_of(s);
    let mut filled = false;
    let mut i: usize = 0;
    while i < v.len()
        invariant
            i <= v.len(),
            v@ == s@,
            filled == exists|k: int| 0 <= k < i && #[trigger] s@[k] != ' ',
        decreases v.len() - i,
    {
        if v[i] != ' ' {
            filled = true;
            assert(s@[i as int] != ' ');
        }
        i += 1;
    }
    if v.len() > 0 && v[0] == ' ' && v[v.len() - 1] == ' ' && filled {
        let delim = code_delimiter(s);
        let mut out = delim.clone();
        out.append(" ");
        out.append(s);
        out.append(" ");
        out.append(delim.as_str());
        out
    } else {
        format_code_span(s)
    }
}

/// The title of a link or an image, behind its destination.
fn write_title(title: &str) -> (r: String)
    ensures
        r@ == title_text(title@),
{
    let mut out = String::from_str(" \"");
    let t = replace(title, '"', "\\\"");
    out.append(t.as_str());
    out.append("\"");
    out
}

/// A link or an image: what it shows, its destination and its title.
fn write_link(open: &str, text: &str, url: &str, title: &str) -> (r: String)
    ensures
        r@ == link_markdown(open@, text@, url@, title@),
{
    let mut out = String::from_str(open);
    out.append(text);
    out.append("](");
    out.append(url);
    out.append(title);
    out.append(")");
    out
}

/// Whether a destination can be written only between angle brackets.
fn asks_for_brackets(url: &str) -> (r: bool)
    ensures
        r == needs_brackets(url@),
{
    if starts_with(url, "<") {
        return true;
    }
    let v = chars_of(url);
    let mut open: usize = 0;
    let mut i: usize = 0;
    assert(url@.take(0) =~= Seq::empty());
    while i < v.len()
        invariant
            i <= v.len(),
            v@ == url@,
            open <= i,
            forall|k: int| 0 <= k < i ==> #[trigger] url@[k] > ' ',
            open_parens(url@.take(i as int)) == Some(open as nat),
        decreases v.len() - i,
    {
        proof {
            assert(url@.take(i + 1).drop_last() =~= url@.take(i as int));
            assert(url@.take(i + 1).last() == url@[i as int]);
        }
        if v[i] <= ' ' {
            return true;
        }
        if v[i] == '(' {
            open += 1;
        } else if v[i] == ')' {
            if open == 0 {
                proof {
                    unmatched_stays(url@, i + 1);
                }
                return true;
            }
            open -= 1;
        }
        i += 1;
    }
    assert(url@.take(url@.len() as int) =~= url@);
    open != 0
}

proof fn unmatched_stays(s: Seq<char>, n: int)
    requires
        0 <= n <= s.len(),
        open_parens(s.take(n)) is None,
    ensures
        open_parens(s) is None,
    decreases s.len() - n,
{
    if n < s.len() {
        assert(s.take(n + 1).drop_last() =~= s.take(n));
        unmatched_stays(s, n + 1);
    } else {
        assert(s.take(n) =~= s);
    }
}

/// A link or an image as the source has it.
fn write_exact_link(open: &str, text: &str, url: &str, title: &str) -> (r: String)
    ensures
        r@ == exact_link(open@, text@, url@, title@),
{
    let t = if title.is_empty() {
        String::new()
    } else {
        write_title(title)
    };
    assert(title@.len() == 0 ==> t@ =~= Seq::<char>::empty());
    if asks_for_brackets(url) {
        let left = replace(url, '<', "\\<");
        let both = replace(left.as_str(), '>', "\\>");
        let mut d = String::from_str("<");
        d.append(both.as_str());
        d.append(">");
        write_link(open, text, d.as_str(), t.as_str())
    } else {
        write_link(open, text, url, t.as_str())
    }
}

/// A link or an image whose text is more than plain text, `written` where it
/// is exact.
fn write_styled(
    open: &str,
    content: &Vec<Inline>,
    written: &str,
    url: &str,
    title: &str,
    exact: bool,
) -> (r: String)
    ensures
        r@ == (if exact {
            exact_link(open@, written@, url@, title@)
        } else {
            link_markdown(open@, inlines_text(inlines_view(content@)), url@, Seq::empty())
        }),
{
    if exact {
        write_exact_link(open, written, url, title)
    } else {
        let text = inlines_to_string(content.as_slice());
        assert(""@ =~= Seq::<char>::empty()) by {
            reveal_strlit("");
        }
        write_link(open, text.as_str(), url, "")
    }
}

/// The markdown of an inline that holds no others.
fn write_leaf(inline: &Inline, exact: bool) -> (r: String)
    requires
        !(inline@ is Strong || inline@ is Emphasis || inline@ is Strikethrough),
        !(inline@ is StyledLink || inline@ is StyledImage),
    ensures
        r@ == inline_markdown(inline@, exact),
{
    assert(""@ =~= Seq::<char>::empty()) by {
        reveal_strlit("");
    }
    match inline {
        Inline::Text(s) => s.clone(),
        Inline::Spelled { text, source } => if exact {
            source.clone()
        } else {
            text.clone()
        },
        Inline::Link { text, url } => if exact {
            write_exact_link("[", text.as_str(), url.as_str(), "")
        } else {
            write_link("[", text.as_str(), url.as_str(), "")
        },
        Inline::TitledLink { text, url, title } => if exact {
            write_exact_link("[", text.as_str(), url.as_str(), title.as_str())
        } else {
            write_link("[", text.as_str(), url.as_str(), "")
        },
        Inline::Autolink(url) => if exact {
            let mut out = String::from_str("<");
            out.append(url.as_str());
            out.append(">");
            out
        } else {
            write_link("[", url.as_str(), url.as_str(), "")
        },
        Inline::Image { alt, url } => if exact {
            write_exact_link("![", alt.as_str(), url.as_str(), "")
        } else {
            write_link("![", alt.as_str(), url.as_str(), "")
        },
        Inline::TitledImage { alt, url, title } => if exact {
            write_exact_link("![", alt.as_str(), url.as_str(), title.as_str())
        } else {
            write_link("![", alt.as_str(), url.as_str(), "")
        },
        Inline::Code(s) => if exact {
            write_exact_code(s.as_str())
        } else {
            format_code_span(s.as_str())
        },
        Inline::Html(s) => if exact {
            s.clone()
        } else {
            String::new()
        },
        Inline::SoftBreak => String::from_str(
            if exact {
                "\n"
            } else {
                " "
            },
        ),
        Inline::HardBreak => String::from_str(
            if exact {
                "\\\n"
            } else {
                ""
            },
        ),
        _ => String::new(),
    }
}

/// Whether an inline is a line break.
pub fn breaks_line(i: &Inline) -> (r: bool)
    ensures
        r == is_break(i@),
{
    match i {
        Inline::SoftBreak => true,
        Inline::HardBreak => true,
        _ => false,
    }
}

/// The markdown of `inlines`, as the source has it or in one line.
pub fn write_inlines(inlines: &[Inline], exact: bool) -> (r: String)
    ensures
        r@ == inlines_markdown(inlines_view(inlines@), exact),
    decreases inlines@,
{
    let mut out = String::new();
    let mut i: usize = 0;
    while i < inlines.len()
        invariant
            i <= inlines.len(),
            out@ == inlines_markdown(inlines_view(inlines@).take(i as int), exact),
        decreases inlines.len() - i,
    {
        let ghost pre = inlines_view(inlines@).take(i + 1);
        proof {
            assert(pre.drop_last() =~= inlines_view(inlines@).take(i as int));
            assert(pre.last() == inlines@[i as int]@);
        }
        let ghost was = out@;
        match &inlines[i] {
            Inline::Strong(inner) => {
                let t = write_inlines(inner.as_slice(), exact);
                out.append("**");
                out.append(t.as_str());
                out.append("**");
                assert(out@ =~= was + ("**"@ + t@ + "**"@));
            },
            Inline::Emphasis(inner) => {
                let t = write_inlines(inner.as_slice(), exact);
                out.append("*");
                out.append(t.as_str());
                out.append("*");
                assert(out@ =~= was + ("*"@ + t@ + "*"@));
            },
            Inline::Strikethrough(inner) => {
                let t = write_inlines(inner.as_slice(), exact);
                out.append("~~");
                out.append(t.as_str());
                out.append("~~");
                assert(out@ =~= was + ("~~"@ + t@ + "~~"@));
            },
            Inline::StyledLink { content, url, title } => {
                let t = write_inlines(content.as_slice(), exact);
                let l = write_styled("[", content, t.as_str(), url.as_str(), title.as_str(), exact);
                out.append(l.as_str());
            },
            Inline::StyledImage { content, url, title } => {
                let t = write_inlines(content.as_slice(), exact);
                let l = write_styled("![", content, t.as_str(), url.as_str(), title.as_str(), exact);
                out.append(l.as_str());
            },
            leaf => {
                let t = write_leaf(leaf, exact);
                out.append(t.as_str());
            },
        }
        assert(out@ == was + inline_markdown(inlines@[i as int]@, exact));
        i += 1;
    }
    assert(inlines_view(inlines@).take(inlines@.len() as int) =~= inlines_view(inlines@));
    out
}

/// Convert inlines to markdown syntax (preserving links, emphasis, code, etc.).
pub fn inlines_to_markdown(inlines: &[Inline]) -> (r: String)
    ensures
        r@ == inlines_markdown(inlines_view(inlines@), false),
{
    write_inlines(inlines, false)
}

/// A code span is its content between two equal runs of backticks, longer than
/// any in the content; a space parts them from a backtick at its ends.
pub proof fn code_is_fenced_by_backticks(c: Seq<char>, n: nat)
    requires
        n == longest_run(c, '`') + 1,
    ensures
        c.len() > 0 && c[0] != '`' && c.last() != '`' ==> code_span(c) == Seq::new(n, |i: int| '`')
            + c + Seq::new(n, |i: int| '`'),
        c.len() > 0 && (c[0] == '`' || c.last() == '`') ==> code_span(c) == Seq::new(
            n,
            |i: int| '`',
        ) + seq![' '] + c + seq![' '] + Seq::new(n, |i: int| '`'),
        forall|i: int, j: int|
            0 <= i <= j <= c.len() && #[trigger] all_are(c, '`', i, j) ==> j - i < n,
{
    reveal_strlit("`");
    reveal_strlit(" ");
    assert("`"@ =~= seq!['`']);
    assert(" "@ =~= seq![' ']);
    crate::text::repeated_are_that_many('`', n);
    assert(repeated("`"@, n) =~= Seq::new(n, |i: int| '`'));
    longest_run_is_longest(c, '`');
}

} // verus!
