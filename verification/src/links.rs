//! The links of a document and what they point at.

use crate::ast::{
    block_line, blocks_view, cells_view, inlines_text, inlines_to_string, inlines_view, items_view,
    rows_view, Block, BlockView, Document, Inline, InlineView, ListItem, ListItemView,
};
use crate::ordered::{distinct_keys, has_key, lookup, stored, stored_then_looked_up};
use crate::path::{joined_path, normalize_path, normalized, parent_of, path_of, FilePath, PathView};
use crate::text::{has_prefix, option_text, starts_with, starts_with_char, texts};
use crate::uri::{percent_decode, percent_decoded};
use vstd::prelude::*;

verus! {

/// A link: its text and its URL.
#[derive(Debug, Clone, PartialEq, Eq)]
pub struct JsonLink {
    pub text: String,
    pub url: String,
}

/// What a [`JsonLink`] holds.
pub struct LinkView {
    pub text: Seq<char>,
    pub url: Seq<char>,
}

impl View for JsonLink {
    type V = LinkView;

    open spec fn view(&self) -> LinkView {
        LinkView { text: self.text@, url: self.url@ }
    }
}

/// The content of a list of links.
pub open spec fn links_view(v: Seq<JsonLink>) -> Seq<LinkView> {
    v.map_values(|l: JsonLink| l@)
}

proof fn links_view_append(a: Seq<JsonLink>, b: Seq<JsonLink>)
    ensures
        links_view(a + b) == links_view(a) + links_view(b),
{
    assert(links_view(a + b) =~= links_view(a) + links_view(b));
}

// ── links of inlines and blocks ───────────────────────────────────────────

/// The links of an inline.
pub open spec fn inline_links(i: InlineView) -> Seq<LinkView>
    decreases i,
{
    match i {
        InlineView::Link { text, url } => seq![LinkView { text, url }],
        InlineView::TitledLink { text, url, .. } => seq![LinkView { text, url }],
        InlineView::StyledLink { content, url, .. } => seq![
            LinkView { text: inlines_text(content), url },
        ],
        InlineView::Autolink(url) => seq![LinkView { text: url, url }],
        InlineView::Strong(v) => inlines_links(v),
        InlineView::Emphasis(v) => inlines_links(v),
        InlineView::Strikethrough(v) => inlines_links(v),
        _ => Seq::empty(),
    }
}

/// The links of a list of inlines.
pub open spec fn inlines_links(v: Seq<InlineView>) -> Seq<LinkView>
    decreases v,
{
    if v.len() == 0 {
        Seq::empty()
    } else {
        inlines_links(v.drop_last()) + inline_links(v[v.len() - 1])
    }
}

/// The links of table cells.
pub open spec fn cells_links(v: Seq<Seq<InlineView>>) -> Seq<LinkView>
    decreases v.len(),
{
    if v.len() == 0 {
        Seq::empty()
    } else {
        cells_links(v.drop_last()) + inlines_links(v.last())
    }
}

/// The links of table rows.
pub open spec fn rows_links(v: Seq<Seq<Seq<InlineView>>>) -> Seq<LinkView>
    decreases v.len(),
{
    if v.len() == 0 {
        Seq::empty()
    } else {
        rows_links(v.drop_last()) + cells_links(v.last())
    }
}

/// The links of a block, in reading order.
pub open spec fn block_links(b: BlockView) -> Seq<LinkView>
    decreases b,
{
    match b {
        BlockView::Heading { content, .. } => inlines_links(content),
        BlockView::Paragraph { content, .. } => inlines_links(content),
        BlockView::List { items, .. } => items_links(items),
        BlockView::BlockQuote { blocks, .. } => blocks_links(blocks),
        BlockView::Table { header, rows, .. } => cells_links(header) + rows_links(rows),
        _ => Seq::empty(),
    }
}

/// The links of list items.
pub open spec fn items_links(v: Seq<ListItemView>) -> Seq<LinkView>
    decreases v,
{
    if v.len() == 0 {
        Seq::empty()
    } else {
        items_links(v.drop_last()) + item_links(v[v.len() - 1])
    }
}

/// The links of a list item.
pub open spec fn item_links(item: ListItemView) -> Seq<LinkView>
    decreases item,
{
    inlines_links(item.content) + blocks_links(item.children)
}

/// The links of blocks.
pub open spec fn blocks_links(v: Seq<BlockView>) -> Seq<LinkView>
    decreases v,
{
    if v.len() == 0 {
        Seq::empty()
    } else {
        blocks_links(v.drop_last()) + block_links(v[v.len() - 1])
    }
}

fn add_links(out: &mut Vec<JsonLink>, more: Vec<JsonLink>)
    ensures
        links_view(final(out)@) == links_view(old(out)@) + links_view(more@),
{
    let ghost a = out@;
    let ghost b = more@;
    let mut more = more;
    out.append(&mut more);
    proof {
        assert(out@ =~= a + b);
        links_view_append(a, b);
    }
}

fn collect_inline_links(inlines: &Vec<Inline>) -> (r: Vec<JsonLink>)
    ensures
        links_view(r@) == inlines_links(inlines_view(inlines@)),
    decreases inlines@,
{
    let ghost s = inlines_view(inlines@);
    let mut out: Vec<JsonLink> = Vec::new();
    let mut i: usize = 0;
    assert(links_view(out@) =~= inlines_links(s.take(0)));
    while i < inlines.len()
        invariant
            i <= inlines.len(),
            s == inlines_view(inlines@),
            links_view(out@) == inlines_links(s.take(i as int)),
        decreases inlines.len() - i,
    {
        let ghost was = links_view(out@);
        proof {
            assert(s.take(i + 1).drop_last() =~= s.take(i as int));
            assert(s.take(i + 1)[i as int] == inlines@[i as int]@);
        }
        match &inlines[i] {
            Inline::Link { text, url } => {
                out.push(JsonLink { text: text.clone(), url: url.clone() });
                assert(links_view(out@) =~= was + seq![LinkView { text: text@, url: url@ }]);
            },
            Inline::TitledLink { text, url, title: _ } => {
                out.push(JsonLink { text: text.clone(), url: url.clone() });
                assert(links_view(out@) =~= was + seq![LinkView { text: text@, url: url@ }]);
            },
            Inline::StyledLink { content, url, title: _ } => {
                let text = inlines_to_string(content.as_slice());
                let ghost t = text@;
                out.push(JsonLink { text, url: url.clone() });
                assert(links_view(out@) =~= was + seq![LinkView { text: t, url: url@ }]);
            },
            Inline::Autolink(url) => {
                out.push(JsonLink { text: url.clone(), url: url.clone() });
                assert(links_view(out@) =~= was + seq![LinkView { text: url@, url: url@ }]);
            },
            Inline::Strong(inner) => {
                let more = collect_inline_links(inner);
                add_links(&mut out, more);
            },
            Inline::Emphasis(inner) => {
                let more = collect_inline_links(inner);
                add_links(&mut out, more);
            },
            Inline::Strikethrough(inner) => {
                let more = collect_inline_links(inner);
                add_links(&mut out, more);
            },
            _ => {
                assert(was + Seq::<LinkView>::empty() =~= was);
            },
        }
        assert(links_view(out@) == was + inline_links(inlines@[i as int]@));
        i += 1;
    }
    assert(s.take(s.len() as int) =~= s);
    out
}

fn collect_cell_links(cells: &Vec<Vec<Inline>>) -> (r: Vec<JsonLink>)
    ensures
        links_view(r@) == cells_links(cells_view(cells@)),
{
    let ghost s = cells_view(cells@);
    let mut out: Vec<JsonLink> = Vec::new();
    let mut i: usize = 0;
    assert(links_view(out@) =~= cells_links(s.take(0)));
    while i < cells.len()
        invariant
            i <= cells.len(),
            s == cells_view(cells@),
            links_view(out@) == cells_links(s.take(i as int)),
        decreases cells.len() - i,
    {
        proof {
            assert(s.take(i + 1).drop_last() =~= s.take(i as int));
            assert(s.take(i + 1).last() == inlines_view(cells@[i as int]@));
        }
        let more = collect_inline_links(&cells[i]);
        add_links(&mut out, more);
        i += 1;
    }
    assert(s.take(s.len() as int) =~= s);
    out
}

fn collect_row_links(rows: &Vec<Vec<Vec<Inline>>>) -> (r: Vec<JsonLink>)
    ensures
        links_view(r@) == rows_links(rows_view(rows@)),
{
    let ghost s = rows_view(rows@);
    let mut out: Vec<JsonLink> = Vec::new();
    let mut i: usize = 0;
    assert(links_view(out@) =~= rows_links(s.take(0)));
    while i < rows.len()
        invariant
            i <= rows.len(),
            s == rows_view(rows@),
            links_view(out@) == rows_links(s.take(i as int)),
        decreases rows.len() - i,
    {
        proof {
            assert(s.take(i + 1).drop_last() =~= s.take(i as int));
            assert(s.take(i + 1).last() == cells_view(rows@[i as int]@));
        }
        let more = collect_cell_links(&rows[i]);
        add_links(&mut out, more);
        i += 1;
    }
    assert(s.take(s.len() as int) =~= s);
    out
}

/// The links of a block, in reading order.
pub fn collect_block_links(block: &Block) -> (r: Vec<JsonLink>)
    ensures
        links_view(r@) == block_links(block@),
    decreases block,
{
    match block {
        Block::Heading { content, .. } => collect_inline_links(content),
        Block::Paragraph { content, .. } => collect_inline_links(content),
        Block::List { items, .. } => collect_item_links(items),
        Block::BlockQuote { blocks, .. } => collect_links(blocks),
        Block::Table { header, rows, .. } => {
            let mut out = collect_cell_links(header);
            let more = collect_row_links(rows);
            add_links(&mut out, more);
            out
        },
        _ => {
            let out: Vec<JsonLink> = Vec::new();
            assert(links_view(out@) =~= Seq::empty());
            out
        },
    }
}

fn collect_item_links(items: &Vec<ListItem>) -> (r: Vec<JsonLink>)
    ensures
        links_view(r@) == items_links(items_view(items@)),
    decreases items@,
{
    let ghost s = items_view(items@);
    let mut out: Vec<JsonLink> = Vec::new();
    let mut i: usize = 0;
    assert(links_view(out@) =~= items_links(s.take(0)));
    while i < items.len()
        invariant
            i <= items.len(),
            s == items_view(items@),
            links_view(out@) == items_links(s.take(i as int)),
        decreases items.len() - i,
    {
        let ghost was = links_view(out@);
        proof {
            assert(s.take(i + 1).drop_last() =~= s.take(i as int));
            assert(s.take(i + 1)[i as int] == items@[i as int]@);
            assert(decreases_to!(items@ => items@[i as int]));
        }
        let more = collect_inline_links(&items[i].content);
        add_links(&mut out, more);
        let more = collect_links(&items[i].children);
        add_links(&mut out, more);
        assert(links_view(out@) =~= was + item_links(items@[i as int]@));
        i += 1;
    }
    assert(s.take(s.len() as int) =~= s);
    out
}

/// The links of blocks, in reading order.
pub fn collect_links(blocks: &Vec<Block>) -> (r: Vec<JsonLink>)
    ensures
        links_view(r@) == blocks_links(blocks_view(blocks@)),
    decreases blocks@,
{
    let ghost s = blocks_view(blocks@);
    let mut out: Vec<JsonLink> = Vec::new();
    let mut i: usize = 0;
    assert(links_view(out@) =~= blocks_links(s.take(0)));
    while i < blocks.len()
        invariant
            i <= blocks.len(),
            s == blocks_view(blocks@),
            links_view(out@) == blocks_links(s.take(i as int)),
        decreases blocks.len() - i,
    {
        let ghost was = links_view(out@);
        proof {
            assert(s.take(i + 1).drop_last() =~= s.take(i as int));
            assert(s.take(i + 1)[i as int] == blocks@[i as int]@);
        }
        let more = collect_block_links(&blocks[i]);
        add_links(&mut out, more);
        assert(links_view(out@) == was + block_links(blocks@[i as int]@));
        i += 1;
    }
    assert(s.take(s.len() as int) =~= s);
    out
}

// ── links with their lines ────────────────────────────────────────────────

/// A URL and the source line of the top-level block that links to it.
pub struct PlacedLink {
    pub url: String,
    pub line: usize,
}

/// What a [`PlacedLink`] holds.
#[verifier::ext_equal]
pub struct PlacedLinkView {
    pub url: Seq<char>,
    pub line: int,
}

impl View for PlacedLink {
    type V = PlacedLinkView;

    open spec fn view(&self) -> PlacedLinkView {
        PlacedLinkView { url: self.url@, line: self.line as int }
    }
}

/// The content of a list of placed links.
pub open spec fn placed_view(v: Seq<PlacedLink>) -> Seq<PlacedLinkView> {
    v.map_values(|l: PlacedLink| l@)
}

/// Links at a line.
pub open spec fn at_line(links: Seq<LinkView>, line: int) -> Seq<PlacedLinkView> {
    links.map_values(|l: LinkView| PlacedLinkView { url: l.url, line })
}

/// The URLs of the blocks `from..to`, each with the line of its block.
pub open spec fn placed_links(s: Seq<BlockView>, from: int, to: int) -> Seq<PlacedLinkView>
    decreases to - from,
{
    if to <= from {
        Seq::empty()
    } else {
        placed_links(s, from, to - 1) + at_line(block_links(s[to - 1]), block_line(s[to - 1]))
    }
}

/// The URLs of the blocks `from..to`, each with the line of its block.
pub fn extract_links(blocks: &Vec<Block>, from: usize, to: usize) -> (r: Vec<PlacedLink>)
    requires
        from <= to <= blocks.len(),
    ensures
        placed_view(r@) == placed_links(blocks_view(blocks@), from as int, to as int),
{
    let ghost s = blocks_view(blocks@);
    let mut out: Vec<PlacedLink> = Vec::new();
    let mut i: usize = from;
    assert(placed_view(out@) =~= placed_links(s, from as int, from as int));
    while i < to
        invariant
            from <= i <= to <= blocks.len(),
            s == blocks_view(blocks@),
            placed_view(out@) == placed_links(s, from as int, i as int),
        decreases to - i,
    {
        let ghost was = placed_view(out@);
        assert(s[i as int] == blocks@[i as int]@);
        let links = collect_block_links(&blocks[i]);
        let line = blocks[i].line();
        let ghost ls = links_view(links@);
        let mut k: usize = 0;
        assert(was =~= was + at_line(ls.take(0), line as int));
        while k < links.len()
            invariant
                k <= links.len(),
                ls == links_view(links@),
                placed_view(out@) == was + at_line(ls.take(k as int), line as int),
            decreases links.len() - k,
        {
            let ghost prev = out@;
            out.push(PlacedLink { url: links[k].url.clone(), line });
            proof {
                let l = PlacedLinkView { url: ls[k as int].url, line: line as int };
                assert(placed_view(out@) =~= placed_view(prev).push(l));
                assert(at_line(ls.take(k + 1), line as int) =~= at_line(
                    ls.take(k as int),
                    line as int,
                ).push(l));
                assert(placed_view(out@) =~= was + at_line(ls.take(k + 1), line as int));
            }
            k += 1;
        }
        assert(ls.take(ls.len() as int) =~= ls);
        i += 1;
    }
    out
}

// ── link targets ──────────────────────────────────────────────────────────

/// Whether a URL leads out of the file tree, or only into the document
/// itself.
pub open spec fn is_external(url: Seq<char>) -> bool {
    ||| has_prefix(url, "http://"@)
    ||| has_prefix(url, "https://"@)
    ||| url.len() > 0 && url[0] == '#'
}

/// Whether a URL leads out of the file tree.
pub fn external(url: &str) -> (r: bool)
    ensures
        r == is_external(url@),
{
    starts_with(url, "http://") || starts_with(url, "https://") || starts_with_char(url, '#')
}

/// `url` up to its fragment.
pub open spec fn without_fragment(url: Seq<char>) -> Seq<char> {
    crate::text::pieces(url, '#')[0]
}

/// The normalized path that a relative URL in the document `source` points
/// at.
pub open spec fn link_target(url: Seq<char>, source: PathView) -> Option<PathView> {
    let rel = percent_decoded(without_fragment(url));
    if is_external(url) || rel.len() == 0 {
        None
    } else {
        match parent_of(source) {
            Some(dir) => Some(normalized(joined_path(dir, path_of(rel)))),
            None => None,
        }
    }
}

/// The normalized path that a relative URL in the document `source` points
/// at; `None` for a URL that leads elsewhere or nowhere.
pub fn resolve_link_path(url: &str, source: &FilePath) -> (r: Option<FilePath>)
    ensures
        match r {
            Some(p) => link_target(url@, source@) == Some(p@),
            None => link_target(url@, source@) is None,
        },
{
    if external(url) {
        return None;
    }
    let parts = crate::text::split(url, '#');
    proof {
        crate::text::pieces_not_empty(url@, '#');
        assert(crate::text::texts(parts@).len() == parts@.len());
    }
    let rel = percent_decode(parts[0].as_str());
    if rel.as_str().is_empty() {
        return None;
    }
    match source.parent() {
        Some(dir) => {
            let p = FilePath::parse(rel.as_str());
            let joined = dir.join(&p);
            Some(normalize_path(&joined))
        },
        None => None,
    }
}

// ── what is known of linked documents ─────────────────────────────────────

/// The URLs that stand in the sections of one title.
#[derive(Debug)]
pub struct SectionLinks {
    pub title: String,
    pub urls: Vec<String>,
}

/// What is known of a document that others link to.
#[derive(Debug)]
pub struct LinkedDocInfo {
    pub path: FilePath,
    pub doc_type: Option<String>,
    /// The URLs of each H2 section that has any, by title.
    pub section_links: Vec<SectionLinks>,
}

/// What a [`LinkedDocInfo`] holds.
#[verifier::ext_equal]
pub struct LinkedDocView {
    pub path: PathView,
    pub doc_type: Option<Seq<char>>,
    pub section_links: Seq<(Seq<char>, Seq<Seq<char>>)>,
}

/// The content of a list of section links.
pub open spec fn section_links_view(v: Seq<SectionLinks>) -> Seq<(Seq<char>, Seq<Seq<char>>)> {
    v.map_values(|l: SectionLinks| (l.title@, texts(l.urls@)))
}

impl View for LinkedDocInfo {
    type V = LinkedDocView;

    open spec fn view(&self) -> LinkedDocView {
        LinkedDocView {
            path: self.path@,
            doc_type: option_text(self.doc_type),
            section_links: section_links_view(self.section_links@),
        }
    }
}

/// The content of a list of linked documents.
pub open spec fn linked_view(v: Seq<LinkedDocInfo>) -> Seq<LinkedDocView> {
    v.map_values(|d: LinkedDocInfo| d@)
}

/// Store `urls` under `title`.
fn store_links(out: &mut Vec<SectionLinks>, title: String, urls: Vec<String>)
    requires
        distinct_keys(section_links_view(old(out)@)),
    ensures
        section_links_view(final(out)@) == stored(
            section_links_view(old(out)@),
            title@,
            texts(urls@),
        ),
        distinct_keys(section_links_view(final(out)@)),
{
    let ghost was = section_links_view(out@);
    proof {
        stored_then_looked_up(was, title@, texts(urls@), title@);
    }
    let mut i: usize = 0;
    while i < out.len()
        invariant
            i <= out.len(),
            was == section_links_view(out@),
            was == section_links_view(old(out)@),
            distinct_keys(was),
            forall|k: int| 0 <= k < i ==> (#[trigger] was[k]).0 != title@,
        decreases out.len() - i,
    {
        if out[i].title.as_str().eq(title.as_str()) {
            let ghost entry = (title@, texts(urls@));
            assert(was[i as int].0 == title@);
            assert(has_key(was, title@));
            assert forall|k: int| 0 <= k < was.len() && k != i implies (#[trigger] was[k]).0
                != title@ by {
                if k < i {
                    assert(was[k].0 != was[i as int].0);
                } else {
                    assert(was[i as int].0 != was[k].0);
                }
            }
            out.set(i, SectionLinks { title, urls });
            assert(section_links_view(out@) =~= stored(was, entry.0, entry.1));
            return;
        }
        i += 1;
    }
    let ghost entry = (title@, texts(urls@));
    assert(!has_key(was, title@));
    out.push(SectionLinks { title, urls });
    assert(section_links_view(out@) =~= was.push(entry));
}

/// Whether a block is a heading of the second level.
pub open spec fn is_h2(b: BlockView) -> bool {
    b matches BlockView::Heading { level, .. } && level == 2
}

/// The position of the first H2 at or behind `i`; the end where there is
/// none.
pub open spec fn next_h2(s: Seq<BlockView>, i: int) -> int
    decreases s.len() - i,
{
    if i >= s.len() {
        s.len() as int
    } else if is_h2(s[i]) {
        i
    } else {
        next_h2(s, i + 1)
    }
}

/// The URLs of links.
pub open spec fn urls_of(links: Seq<LinkView>) -> Seq<Seq<char>> {
    links.map_values(|l: LinkView| l.url)
}

/// The text of a heading, empty for another block.
pub open spec fn title_of(b: BlockView) -> Seq<char> {
    match b {
        BlockView::Heading { content, .. } => inlines_text(content),
        _ => Seq::empty(),
    }
}

/// The URLs of each H2 section from position `i` on, stored behind `acc`. Of
/// two sections with one title the later counts; one without links leaves
/// what was there.
pub open spec fn section_links_from(
    s: Seq<BlockView>,
    i: int,
    acc: Seq<(Seq<char>, Seq<Seq<char>>)>,
) -> Seq<(Seq<char>, Seq<Seq<char>>)>
    decreases s.len() - i,
{
    if i < 0 || i >= s.len() {
        acc
    } else if is_h2(s[i]) {
        let urls = urls_of(blocks_links(s.subrange(i + 1, next_h2(s, i + 1))));
        section_links_from(
            s,
            i + 1,
            if urls.len() > 0 {
                stored(acc, title_of(s[i]), urls)
            } else {
                acc
            },
        )
    } else {
        section_links_from(s, i + 1, acc)
    }
}

/// The URLs of the H2 sections of a document.
pub open spec fn doc_section_links(s: Seq<BlockView>) -> Seq<(Seq<char>, Seq<Seq<char>>)> {
    section_links_from(s, 0, Seq::empty())
}

/// The URLs in the blocks `from..to`.
fn extract_all_links(blocks: &Vec<Block>, from: usize, to: usize) -> (r: Vec<String>)
    requires
        from <= to <= blocks.len(),
    ensures
        texts(r@) == urls_of(
            blocks_links(blocks_view(blocks@).subrange(from as int, to as int)),
        ),
{
    let ghost s = blocks_view(blocks@).subrange(from as int, to as int);
    let mut out: Vec<String> = Vec::new();
    let mut i: usize = from;
    assert(s.take(0) =~= Seq::empty());
    assert(texts(out@) =~= urls_of(blocks_links(s.take(0))));
    while i < to
        invariant
            from <= i <= to <= blocks.len(),
            s == blocks_view(blocks@).subrange(from as int, to as int),
            texts(out@) == urls_of(blocks_links(s.take(i - from))),
        decreases to - i,
    {
        let ghost was = texts(out@);
        let links = collect_block_links(&blocks[i]);
        let ghost ls = links_view(links@);
        let mut k: usize = 0;
        assert(was =~= was + urls_of(ls.take(0)));
        while k < links.len()
            invariant
                k <= links.len(),
                ls == links_view(links@),
                texts(out@) == was + urls_of(ls.take(k as int)),
            decreases links.len() - k,
        {
            let ghost prev = out@;
            out.push(links[k].url.clone());
            proof {
                assert(texts(out@) =~= texts(prev).push(ls[k as int].url));
                assert(urls_of(ls.take(k + 1)) =~= urls_of(ls.take(k as int)).push(
                    ls[k as int].url,
                ));
            }
            k += 1;
        }
        proof {
            let t = s.take(i - from + 1);
            assert(ls.take(ls.len() as int) =~= ls);
            assert(t.drop_last() =~= s.take(i - from));
            assert(t[t.len() - 1] == blocks@[i as int]@);
            assert(urls_of(blocks_links(t)) =~= urls_of(blocks_links(s.take(i - from))) + urls_of(
                ls,
            ));
        }
        i += 1;
    }
    assert(s.take(s.len() as int) =~= s);
    out
}

/// The URLs of each H2 section of a document, by title.
pub fn extract_doc_section_links(doc: &Document) -> (r: Vec<SectionLinks>)
    ensures
        section_links_view(r@) == doc_section_links(blocks_view(doc.blocks@)),
        distinct_keys(section_links_view(r@)),
{
    let ghost s = blocks_view(doc.blocks@);
    let mut out: Vec<SectionLinks> = Vec::new();
    let mut i: usize = 0;
    assert(section_links_view(out@) =~= Seq::empty());
    while i < doc.blocks.len()
        invariant
            i <= doc.blocks.len(),
            s == blocks_view(doc.blocks@),
            distinct_keys(section_links_view(out@)),
            doc_section_links(s) == section_links_from(s, i as int, section_links_view(out@)),
        decreases doc.blocks.len() - i,
    {
        assert(s[i as int] == doc.blocks@[i as int]@);
        if let Block::Heading { level, content, .. } = &doc.blocks[i] {
            if *level == 2 {
                let mut end: usize = i + 1;
                while end < doc.blocks.len() && !h2(&doc.blocks[end])
                    invariant
                        i < end <= doc.blocks.len(),
                        s == blocks_view(doc.blocks@),
                        next_h2(s, i + 1) == next_h2(s, end as int),
                    decreases doc.blocks.len() - end,
                {
                    end += 1;
                }
                let urls = extract_all_links(&doc.blocks, i + 1, end);
                assert(texts(urls@).len() == urls@.len());
                if urls.len() > 0 {
                    store_links(&mut out, inlines_to_string(content.as_slice()), urls);
                }
            }
        }
        i += 1;
    }
    out
}

/// Whether a block is a heading of the second level.
fn h2(b: &Block) -> (r: bool)
    ensures
        r == is_h2(b@),
{
    match b {
        Block::Heading { level, .. } => *level == 2,
        _ => false,
    }
}

/// The document at `path`, the last one where several are listed.
pub open spec fn linked_doc(docs: Seq<LinkedDocView>, path: PathView) -> Option<LinkedDocView>
    decreases docs.len(),
{
    if docs.len() == 0 {
        None
    } else if docs.last().path == path {
        Some(docs.last())
    } else {
        linked_doc(docs.drop_last(), path)
    }
}

/// The document at `path`.
pub fn find_linked<'a>(docs: &'a Vec<LinkedDocInfo>, path: &FilePath) -> (r: Option<&'a LinkedDocInfo>)
    ensures
        match r {
            Some(d) => linked_doc(linked_view(docs@), path@) == Some(d@),
            None => linked_doc(linked_view(docs@), path@) is None,
        },
{
    let ghost all = linked_view(docs@);
    let mut i: usize = docs.len();
    assert(all.take(all.len() as int) =~= all);
    while i > 0
        invariant
            i <= docs.len(),
            all == linked_view(docs@),
            linked_doc(all, path@) == linked_doc(all.take(i as int), path@),
        decreases i,
    {
        assert(all.take(i as int).drop_last() =~= all.take(i - 1));
        assert(all.take(i as int).last() == docs@[i - 1]@);
        if docs[i - 1].path.same(path) {
            return Some(&docs[i - 1]);
        }
        i -= 1;
    }
    None
}

proof fn lookup_found_early<V>(entries: Seq<(Seq<char>, V)>, key: Seq<char>, n: int)
    requires
        0 <= n <= entries.len(),
        lookup(entries.take(n), key) is Some,
    ensures
        lookup(entries, key) == lookup(entries.take(n), key),
    decreases entries.len() - n,
{
    if n < entries.len() {
        assert(entries.take(n + 1).drop_last() =~= entries.take(n));
        lookup_found_early(entries, key, n + 1);
    } else {
        assert(entries.take(n) =~= entries);
    }
}

/// The URLs in the sections titled `title`.
pub fn find_urls<'a>(v: &'a Vec<SectionLinks>, title: &str) -> (r: Option<&'a Vec<String>>)
    ensures
        match r {
            Some(urls) => lookup(section_links_view(v@), title@) == Some(texts(urls@)),
            None => lookup(section_links_view(v@), title@) is None,
        },
{
    let ghost all = section_links_view(v@);
    let mut i: usize = 0;
    assert(all.take(0) =~= Seq::empty());
    while i < v.len()
        invariant
            i <= v.len(),
            all == section_links_view(v@),
            lookup(all.take(i as int), title@) is None,
        decreases v.len() - i,
    {
        assert(all.take(i + 1).drop_last() =~= all.take(i as int));
        assert(all.take(i + 1).last() == (v@[i as int].title@, texts(v@[i as int].urls@)));
        if v[i].title.as_str().eq(title) {
            proof {
                lookup_found_early(all, title@, i + 1);
            }
            return Some(&v[i].urls);
        }
        i += 1;
    }
    assert(all.take(all.len() as int) =~= all);
    None
}

// ── where a link leads ────────────────────────────────────────────────────

proof fn prefix_before_mark(path: Seq<char>, rest: Seq<char>, p: Seq<char>)
    requires
        !p.contains('#'),
    ensures
        has_prefix(path.push('#') + rest, p) == has_prefix(path, p),
{
    let url = path.push('#') + rest;
    let n = p.len() as int;
    if has_prefix(url, p) {
        if n > path.len() {
            assert(url.subrange(0, n)[path.len() as int] == '#');
            assert(p.contains('#'));
        }
        assert(path.subrange(0, n) =~= url.subrange(0, n));
    }
    if has_prefix(path, p) {
        assert(path.subrange(0, n) =~= url.subrange(0, n));
    }
}

/// A URL that leads out of the tree, or only into the document itself, points
/// at no file; a fragment does not change where a link points; and where it
/// points depends on the directory of the document alone.
pub proof fn where_a_link_leads(
    path: Seq<char>,
    fragment: Seq<char>,
    source: PathView,
    other: PathView,
)
    requires
        path.len() > 0,
        !path.contains('#'),
    ensures
        link_target("http://"@ + path, source) is None,
        link_target("https://"@ + path, source) is None,
        link_target("#"@ + path, source) is None,
        link_target(path.push('#') + fragment, source) == link_target(path, source),
        parent_of(source) == parent_of(other) ==> link_target(path, source) == link_target(
            path,
            other,
        ),
        link_target(path, source) matches Some(t) ==> normalized(t) == t,
{
    reveal_strlit("http://");
    reveal_strlit("https://");
    reveal_strlit("#");
    let a = "http://"@ + path;
    let b = "https://"@ + path;
    assert(a.subrange(0, "http://"@.len() as int) =~= "http://"@);
    assert(b.subrange(0, "https://"@.len() as int) =~= "https://"@);
    assert(("#"@ + path)[0] == '#');
    let url = path.push('#') + fragment;
    crate::text::pieces_cut(path, '#', fragment);
    crate::text::pieces_of_whole(path, '#');
    assert(without_fragment(url) == path);
    assert(without_fragment(path) == path);
    prefix_before_mark(path, fragment, "http://"@);
    prefix_before_mark(path, fragment, "https://"@);
    assert(url[0] == path[0]);
    if let Some(dir) = parent_of(source) {
        crate::path::normalized_twice(joined_path(dir, path_of(percent_decoded(path))));
    }
}

// ── the links of sections ─────────────────────────────────────────────────

proof fn next_h2_is_next(s: Seq<BlockView>, i: int)
    requires
        0 <= i <= s.len(),
    ensures
        i <= next_h2(s, i) <= s.len(),
        forall|k: int|
            i <= k < next_h2(s, i) ==> !((#[trigger] s[k]) is Heading && s[k]->Heading_level == 2),
        next_h2(s, i) < s.len() ==> s[next_h2(s, i)] is Heading && s[next_h2(s, i)]->Heading_level
            == 2,
    decreases s.len() - i,
{
    if i < s.len() && !is_h2(s[i]) {
        next_h2_is_next(s, i + 1);
    }
}

/// Whether the blocks `p+1..e` are those that follow the heading of the
/// second level at `p` up to the next one, and the heading has this text.
pub open spec fn is_titled_section(s: Seq<BlockView>, p: int, e: int, title: Seq<char>) -> bool {
    &&& 0 <= p < e <= s.len()
    &&& s[p] is Heading && s[p]->Heading_level == 2 && inlines_text(s[p]->Heading_content) == title
    &&& forall|k: int|
        p < k < e ==> !((#[trigger] s[k]) is Heading && s[k]->Heading_level == 2)
    &&& e < s.len() ==> s[e] is Heading && s[e]->Heading_level == 2
}

proof fn links_from_are_those(
    s: Seq<BlockView>,
    i: int,
    acc: Seq<(Seq<char>, Seq<Seq<char>>)>,
    title: Seq<char>,
)
    requires
        0 <= i <= s.len(),
        distinct_keys(acc),
    ensures
        distinct_keys(section_links_from(s, i, acc)),
        (forall|p: int, e: int|
            i <= p && #[trigger] is_titled_section(s, p, e, title) ==> blocks_links(
                s.subrange(p + 1, e),
            ).len() == 0) ==> lookup(section_links_from(s, i, acc), title) == lookup(acc, title),
        forall|p: int, e: int|
            i <= p && #[trigger] is_titled_section(s, p, e, title) && blocks_links(
                s.subrange(p + 1, e),
            ).len() > 0 && (forall|q: int, f: int|
                p < q && #[trigger] is_titled_section(s, q, f, title) ==> blocks_links(
                    s.subrange(q + 1, f),
                ).len() == 0) ==> lookup(section_links_from(s, i, acc), title) == Some(
                blocks_links(s.subrange(p + 1, e)).map_values(|l: LinkView| l.url),
            ),
    decreases s.len() - i,
{
    if i < s.len() {
        if is_h2(s[i]) {
            next_h2_is_next(s, i + 1);
            let n = next_h2(s, i + 1);
            let urls = urls_of(blocks_links(s.subrange(i + 1, n)));
            let key = title_of(s[i]);
            let next = if urls.len() > 0 {
                stored(acc, key, urls)
            } else {
                acc
            };
            stored_then_looked_up(acc, key, urls, title);
            links_from_are_those(s, i + 1, next, title);
            assert forall|e: int| #[trigger] is_titled_section(s, i, e, title) implies e == n by {
                if e < n {
                    assert(!(s[e] is Heading && s[e]->Heading_level == 2));
                }
                if n < e {
                    assert(!(s[n] is Heading && s[n]->Heading_level == 2));
                }
            }
            if key == title {
                assert(is_titled_section(s, i, n, title));
            }
            assert forall|p: int, e: int|
                i <= p && #[trigger] is_titled_section(s, p, e, title) && blocks_links(
                    s.subrange(p + 1, e),
                ).len() > 0 && (forall|q: int, f: int|
                    p < q && #[trigger] is_titled_section(s, q, f, title) ==> blocks_links(
                        s.subrange(q + 1, f),
                    ).len() == 0) implies lookup(section_links_from(s, i, acc), title) == Some(
                blocks_links(s.subrange(p + 1, e)).map_values(|l: LinkView| l.url),
            ) by {
                if p == i {
                    assert(e == n);
                    assert(forall|q: int, f: int|
                        i + 1 <= q && #[trigger] is_titled_section(s, q, f, title)
                            ==> blocks_links(s.subrange(q + 1, f)).len() == 0);
                }
            }
        } else {
            links_from_are_those(s, i + 1, acc, title);
            assert forall|e: int| !#[trigger] is_titled_section(s, i, e, title) by {}
        }
    }
}

/// The links of a document are listed under the titles of its sections: the
/// last section with the title that has links counts, with the URLs of all
/// links that stand in it, in reading order; where no section with the title
/// has any, none are listed.
pub proof fn a_section_lists_its_links(s: Seq<BlockView>, p: int, e: int, title: Seq<char>)
    requires
        is_titled_section(s, p, e, title),
    ensures
        blocks_links(s.subrange(p + 1, e)).len() > 0 && (forall|q: int, f: int|
            p < q && #[trigger] is_titled_section(s, q, f, title) ==> blocks_links(
                s.subrange(q + 1, f),
            ).len() == 0) ==> lookup(doc_section_links(s), title) == Some(
            blocks_links(s.subrange(p + 1, e)).map_values(|l: LinkView| l.url),
        ),
        (forall|q: int, f: int| #[trigger]
            is_titled_section(s, q, f, title) ==> blocks_links(s.subrange(q + 1, f)).len() == 0)
            ==> lookup(doc_section_links(s), title) is None,
{
    links_from_are_those(s, 0, Seq::empty(), title);
}

/// Where no heading has the title, no links are listed under it.
pub proof fn an_absent_section_lists_nothing(s: Seq<BlockView>, title: Seq<char>)
    requires
        forall|k: int|
            0 <= k < s.len() ==> !((#[trigger] s[k]) is Heading && s[k]->Heading_level == 2
                && inlines_text(s[k]->Heading_content) == title),
    ensures
        lookup(doc_section_links(s), title) is None,
{
    links_from_are_those(s, 0, Seq::empty(), title);
}

} // verus!
