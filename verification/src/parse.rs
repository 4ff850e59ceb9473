//! From markdown text to documents.

use crate::ast::{
    block_line, blocks_view, breaks_line, cells_view, copy_alignments, fields_view, find_key,
    inlines_markdown, inlines_text, inlines_to_string, inlines_view, is_break, items_view, key_line,
    key_place, lookup_fields, names_key, rows_view, write_inlines, Block, BlockView, Document,
    DocumentView, Frontmatter, FrontmatterView, Inline, InlineView, ListItem, ListItemView,
};
use crate::events::{
    events_of, events_view, markdown_events, MdEnd, MdEvent, MdEventView, MdTag, MdTagView,
};
use crate::ordered::{
    distinct_keys, has_key, lookup, lookup_finds, stored, stored_then_looked_up, OrderedMap,
};
use crate::text::{
    chars_of, cut_once, lines, lines_cut, lines_of, option_text, split_once, texts, trim_end,
    trimmed_end,
};
use crate::value::{copy_value, debug_text, yaml_content, yaml_debug, Yaml, YamlView};
use gray_matter::engine::YAML;
use gray_matter::Matter;
use indexmap::IndexMap;
use vstd::prelude::*;
use vstd::utf8::encode_utf8;

verus! {

// ── pushing onto lists ────────────────────────────────────────────────────

pub broadcast proof fn inlines_view_push(v: Seq<Inline>, x: Inline)
    ensures
        #[trigger] inlines_view(v.push(x)) == inlines_view(v).push(x@),
{
    assert(inlines_view(v.push(x)) =~= inlines_view(v).push(x@));
}

pub broadcast proof fn blocks_view_push(v: Seq<Block>, x: Block)
    ensures
        #[trigger] blocks_view(v.push(x)) == blocks_view(v).push(x@),
{
    assert(blocks_view(v.push(x)) =~= blocks_view(v).push(x@));
}

pub broadcast proof fn items_view_push(v: Seq<ListItem>, x: ListItem)
    ensures
        #[trigger] items_view(v.push(x)) == items_view(v).push(x@),
{
    assert(items_view(v.push(x)) =~= items_view(v).push(x@));
}

pub broadcast proof fn cells_view_push(v: Seq<Vec<Inline>>, x: Vec<Inline>)
    ensures
        #[trigger] cells_view(v.push(x)) == cells_view(v).push(inlines_view(x@)),
{
    assert(cells_view(v.push(x)) =~= cells_view(v).push(inlines_view(x@)));
}

pub broadcast proof fn rows_view_push(v: Seq<Vec<Vec<Inline>>>, x: Vec<Vec<Inline>>)
    ensures
        #[trigger] rows_view(v.push(x)) == rows_view(v).push(cells_view(x@)),
{
    assert(rows_view(v.push(x)) =~= rows_view(v).push(cells_view(x@)));
}

pub broadcast group group_push {
    inlines_view_push,
    blocks_view_push,
    items_view_push,
    cells_view_push,
    rows_view_push,
}

// ── what the events of a range stand for ──────────────────────────────────

/// How many events of `pos..stop` are left.
pub open spec fn left(pos: int, stop: int) -> nat {
    if pos < stop {
        (stop - pos) as nat
    } else {
        0
    }
}

/// The position to go on from after an element that started at `pos` and
/// was read up to `p`.
pub open spec fn after(pos: int, p: int) -> int {
    if p > pos {
        p
    } else {
        pos + 1
    }
}

/// The end of a span-level element, for a tag that starts one.
pub open spec fn span_end(tag: MdTagView) -> Option<MdEnd> {
    match tag {
        MdTagView::Strong => Some(MdEnd::Strong),
        MdTagView::Emphasis => Some(MdEnd::Emphasis),
        MdTagView::Strikethrough => Some(MdEnd::Strikethrough),
        MdTagView::Link { .. } => Some(MdEnd::Link),
        MdTagView::Image { .. } => Some(MdEnd::Image),
        _ => None,
    }
}

/// The inline made of a span-level tag and its content. The text of a link
/// or an image is kept as inlines where it is not written as it reads.
pub open spec fn span_inline(tag: MdTagView, inner: Seq<InlineView>) -> InlineView {
    match tag {
        MdTagView::Strong => InlineView::Strong(inner),
        MdTagView::Emphasis => InlineView::Emphasis(inner),
        MdTagView::Link { url, title, auto } => if auto {
            InlineView::Autolink(url)
        } else if inlines_markdown(inner, true) != inlines_text(inner) {
            InlineView::StyledLink { content: inner, url, title }
        } else if title.len() > 0 {
            InlineView::TitledLink { text: inlines_text(inner), url, title }
        } else {
            InlineView::Link { text: inlines_text(inner), url }
        },
        MdTagView::Image { url, title } => if inlines_markdown(inner, true) != inlines_text(inner) {
            InlineView::StyledImage { content: inner, url, title }
        } else if title.len() > 0 {
            InlineView::TitledImage { alt: inlines_text(inner), url, title }
        } else {
            InlineView::Image { alt: inlines_text(inner), url }
        },
        _ => InlineView::Strikethrough(inner),
    }
}

/// The inline that an event stands for by itself.
pub open spec fn leaf_inline(e: MdEventView) -> Option<InlineView> {
    match e {
        MdEventView::Text(s) => Some(InlineView::Text(s)),
        MdEventView::Spelled { text, source } => Some(InlineView::Spelled { text, source }),
        MdEventView::Code(s) => Some(InlineView::Code(s)),
        MdEventView::InlineHtml(s) => Some(InlineView::Html(s)),
        MdEventView::SoftBreak => Some(InlineView::SoftBreak),
        MdEventView::HardBreak => Some(InlineView::HardBreak),
        _ => None,
    }
}

/// The inlines from `pos` to the end tag `end`, appended to `acc`, and the
/// position behind that tag.
pub open spec fn inlines_from(
    ev: Seq<(MdEventView, usize)>,
    pos: int,
    stop: int,
    end: MdEnd,
    acc: Seq<InlineView>,
) -> (Seq<InlineView>, int)
    decreases left(pos, stop),
{
    if pos >= stop {
        (acc, pos)
    } else {
        match ev[pos].0 {
            MdEventView::End(e) => if e == end {
                (acc, pos + 1)
            } else {
                inlines_from(ev, pos + 1, stop, end, acc)
            },
            MdEventView::Start(tag) => match span_end(tag) {
                Some(inner_end) => {
                    let (inner, p) = inlines_from(ev, pos + 1, stop, inner_end, Seq::empty());
                    inlines_from(ev, after(pos, p), stop, end, acc.push(span_inline(tag, inner)))
                },
                None => inlines_from(ev, pos + 1, stop, end, acc),
            },
            e => match leaf_inline(e) {
                Some(leaf) => inlines_from(ev, pos + 1, stop, end, acc.push(leaf)),
                None => inlines_from(ev, pos + 1, stop, end, acc),
            },
        }
    }
}

/// The text of a code block from `pos` on, appended to `acc`, and the
/// position behind its end tag.
pub open spec fn code_from(
    ev: Seq<(MdEventView, usize)>,
    pos: int,
    stop: int,
    acc: Seq<char>,
) -> (Seq<char>, int)
    decreases left(pos, stop),
{
    if pos >= stop {
        (acc, pos)
    } else {
        match ev[pos].0 {
            MdEventView::End(MdEnd::CodeBlock) => (acc, pos + 1),
            MdEventView::Text(s) => code_from(ev, pos + 1, stop, acc + s),
            MdEventView::Spelled { text, .. } => code_from(ev, pos + 1, stop, acc + text),
            _ => code_from(ev, pos + 1, stop, acc),
        }
    }
}

/// The raw HTML from `pos` on, appended to `acc`, and the position behind
/// its end tag.
pub open spec fn html_from(
    ev: Seq<(MdEventView, usize)>,
    pos: int,
    stop: int,
    acc: Seq<char>,
) -> (Seq<char>, int)
    decreases left(pos, stop),
{
    if pos >= stop {
        (acc, pos)
    } else {
        match ev[pos].0 {
            MdEventView::End(MdEnd::HtmlBlock) => (acc, pos + 1),
            MdEventView::Html(s) => html_from(ev, pos + 1, stop, acc + s),
            _ => html_from(ev, pos + 1, stop, acc),
        }
    }
}

/// The cells of a table row from `pos` to the end tag `end`.
pub open spec fn row_from(
    ev: Seq<(MdEventView, usize)>,
    pos: int,
    stop: int,
    end: MdEnd,
    acc: Seq<Seq<InlineView>>,
) -> (Seq<Seq<InlineView>>, int)
    decreases left(pos, stop),
{
    if pos >= stop {
        (acc, pos)
    } else {
        match ev[pos].0 {
            MdEventView::End(e) => if e == end {
                (acc, pos + 1)
            } else {
                row_from(ev, pos + 1, stop, end, acc)
            },
            MdEventView::Start(MdTagView::TableCell) => {
                let (cell, p) = inlines_from(ev, pos + 1, stop, MdEnd::TableCell, Seq::empty());
                row_from(ev, after(pos, p), stop, end, acc.push(cell))
            },
            _ => row_from(ev, pos + 1, stop, end, acc),
        }
    }
}

/// The header and rows of a table from `pos` on: the header is the last one
/// found, rows are appended.
pub open spec fn table_from(
    ev: Seq<(MdEventView, usize)>,
    pos: int,
    stop: int,
    header: Seq<Seq<InlineView>>,
    rows: Seq<Seq<Seq<InlineView>>>,
) -> (Seq<Seq<InlineView>>, Seq<Seq<Seq<InlineView>>>, int)
    decreases left(pos, stop),
{
    if pos >= stop {
        (header, rows, pos)
    } else {
        match ev[pos].0 {
            MdEventView::End(MdEnd::Table) => (header, rows, pos + 1),
            MdEventView::Start(MdTagView::TableHead) => {
                let (cells, p) = row_from(ev, pos + 1, stop, MdEnd::TableHead, Seq::empty());
                table_from(ev, after(pos, p), stop, cells, rows)
            },
            MdEventView::Start(MdTagView::TableRow) => {
                let (cells, p) = row_from(ev, pos + 1, stop, MdEnd::TableRow, Seq::empty());
                table_from(ev, after(pos, p), stop, header, rows.push(cells))
            },
            _ => table_from(ev, pos + 1, stop, header, rows),
        }
    }
}

/// The position of the end of a block quote from `pos` on, where `inner`
/// quotes inside it are open; `stop` where it does not end.
pub open spec fn quote_end(ev: Seq<(MdEventView, usize)>, pos: int, stop: int, inner: nat) -> int
    decreases left(pos, stop),
{
    if pos >= stop {
        stop
    } else if ev[pos].0 == MdEventView::Start(MdTagView::BlockQuote) {
        quote_end(ev, pos + 1, stop, inner + 1)
    } else if ev[pos].0 != MdEventView::End(MdEnd::BlockQuote) {
        quote_end(ev, pos + 1, stop, inner)
    } else if inner > 0 {
        quote_end(ev, pos + 1, stop, (inner - 1) as nat)
    } else {
        pos
    }
}

/// How many more quotes start than end among the events `from..to`.
pub open spec fn open_quotes(ev: Seq<(MdEventView, usize)>, from: int, to: int) -> int
    decreases to - from,
{
    if from >= to {
        0
    } else {
        (if ev[from].0 == MdEventView::Start(MdTagView::BlockQuote) {
            1int
        } else if ev[from].0 == MdEventView::End(MdEnd::BlockQuote) {
            -1int
        } else {
            0int
        }) + open_quotes(ev, from + 1, to)
    }
}

/// A quote ends with the end that matches its start: what is inside it closes
/// as many quotes as it opens, and never more.
pub proof fn quote_ends_at_its_end(
    ev: Seq<(MdEventView, usize)>,
    pos: int,
    stop: int,
    inner: nat,
)
    requires
        pos <= stop,
    ensures
        ({
            let e = quote_end(ev, pos, stop, inner);
            &&& pos <= e <= stop
            &&& e < stop ==> ev[e].0 == MdEventView::End(MdEnd::BlockQuote)
            &&& e < stop ==> open_quotes(ev, pos, e) + inner == 0
            &&& forall|k: int| pos <= k <= e ==> #[trigger] open_quotes(ev, pos, k) + inner >= 0
        }),
    decreases left(pos, stop),
{
    if pos < stop {
        let e = quote_end(ev, pos, stop, inner);
        let started = ev[pos].0 == MdEventView::Start(MdTagView::BlockQuote);
        let ended = ev[pos].0 == MdEventView::End(MdEnd::BlockQuote);
        if !(ended && inner == 0) {
            let next: nat = if started {
                inner + 1
            } else if ended {
                (inner - 1) as nat
            } else {
                inner
            };
            quote_ends_at_its_end(ev, pos + 1, stop, next);
            assert forall|k: int| pos <= k <= e implies #[trigger] open_quotes(ev, pos, k) + inner
                >= 0 by {
                if k > pos {
                    assert(open_quotes(ev, pos + 1, k) + next >= 0);
                }
            }
        }
    }
}

/// The language of a code block with the given info string.
pub open spec fn language_of(info: Option<Seq<char>>) -> Option<Seq<char>> {
    match info {
        Some(lang) => if lang.len() > 0 {
            Some(lang)
        } else {
            None
        },
        None => None,
    }
}

/// A list, which is ordered where its first item has a number.
pub open spec fn list_block(items: Seq<ListItemView>, start: Option<u64>) -> BlockView {
    BlockView::List {
        items,
        ordered: start is Some,
        start: match start {
            Some(n) => n,
            None => 1,
        },
        line: 0,
    }
}

/// Blocks of a list item with a blank line at the end, unless they end with
/// one, or the item has neither text nor blocks yet.
pub open spec fn spaced_blocks(content: Seq<InlineView>, children: Seq<BlockView>) -> Seq<
    BlockView,
> {
    if content.len() == 0 && children.len() == 0 {
        children
    } else if children.len() > 0 && children.last() == BlockView::BlankLine {
        children
    } else {
        children.push(BlockView::BlankLine)
    }
}

/// Items of a list, with a blank line at the end of the last one.
pub open spec fn spaced_items(items: Seq<ListItemView>) -> Seq<ListItemView> {
    if items.len() == 0 {
        items
    } else {
        let last = items.last();
        items.drop_last().push(
            ListItemView {
                content: last.content,
                children: spaced_blocks(last.content, last.children),
            },
        )
    }
}

/// The items of a list from `pos` on, appended to `acc`, and the position
/// behind the list's end tag.
pub open spec fn items_from(
    ev: Seq<(MdEventView, usize)>,
    pos: int,
    stop: int,
    acc: Seq<ListItemView>,
) -> (Seq<ListItemView>, int)
    decreases left(pos, stop), 0nat,
{
    if pos >= stop {
        (acc, pos)
    } else {
        match ev[pos].0 {
            MdEventView::End(MdEnd::List) => (acc, pos + 1),
            MdEventView::Start(MdTagView::Item) => {
                let (content, children, p) = item_from(
                    ev,
                    pos + 1,
                    stop,
                    Seq::empty(),
                    Seq::empty(),
                    true,
                );
                items_from(ev, after(pos, p), stop, acc.push(ListItemView { content, children }))
            },
            MdEventView::Blank => items_from(ev, pos + 1, stop, spaced_items(acc)),
            _ => items_from(ev, pos + 1, stop, acc),
        }
    }
}

/// The inlines that stand at `pos` by themselves, not between tags of a
/// paragraph, appended to `acc`, and the position behind them.
pub open spec fn bare_from(
    ev: Seq<(MdEventView, usize)>,
    pos: int,
    stop: int,
    acc: Seq<InlineView>,
) -> (Seq<InlineView>, int)
    decreases left(pos, stop),
{
    if pos >= stop {
        (acc, pos)
    } else {
        match ev[pos].0 {
            MdEventView::Start(tag) => match span_end(tag) {
                Some(inner_end) => {
                    let (inner, p) = inlines_from(ev, pos + 1, stop, inner_end, Seq::empty());
                    bare_from(ev, after(pos, p), stop, acc.push(span_inline(tag, inner)))
                },
                None => (acc, pos),
            },
            e => match leaf_inline(e) {
                Some(leaf) => bare_from(ev, pos + 1, stop, acc.push(leaf)),
                None => (acc, pos),
            },
        }
    }
}

/// The content and children of a list item from `pos` on. `first` says
/// whether the next paragraph is still the item's own content; behind a
/// child none is.
pub open spec fn item_from(
    ev: Seq<(MdEventView, usize)>,
    pos: int,
    stop: int,
    content: Seq<InlineView>,
    children: Seq<BlockView>,
    first: bool,
) -> (Seq<InlineView>, Seq<BlockView>, int)
    decreases left(pos, stop), 0nat,
{
    if pos >= stop {
        (content, children, pos)
    } else {
        match ev[pos].0 {
            MdEventView::End(MdEnd::Item) => (content, children, pos + 1),
            MdEventView::Start(MdTagView::Paragraph) => {
                let (para, p) = inlines_from(ev, pos + 1, stop, MdEnd::Paragraph, Seq::empty());
                if first && children.len() == 0 {
                    item_from(ev, after(pos, p), stop, para, children, false)
                } else {
                    item_from(
                        ev,
                        after(pos, p),
                        stop,
                        content,
                        children.push(BlockView::Paragraph { content: para, line: 0 }),
                        first,
                    )
                }
            },
            MdEventView::Start(MdTagView::Heading(level)) => {
                let (title, p) = inlines_from(
                    ev,
                    pos + 1,
                    stop,
                    MdEnd::Heading(level),
                    Seq::empty(),
                );
                item_from(
                    ev,
                    after(pos, p),
                    stop,
                    content,
                    children.push(BlockView::Heading { level, content: title, line: 0 }),
                    first,
                )
            },
            MdEventView::Start(MdTagView::Table(alignments)) => {
                let (header, rows, p) = table_from(ev, pos + 1, stop, Seq::empty(), Seq::empty());
                item_from(
                    ev,
                    after(pos, p),
                    stop,
                    content,
                    children.push(BlockView::Table { alignments, header, rows, line: 0 }),
                    first,
                )
            },
            MdEventView::Start(MdTagView::List(start)) => {
                let (items, p) = items_from(ev, pos + 1, stop, Seq::empty());
                item_from(
                    ev,
                    after(pos, p),
                    stop,
                    content,
                    children.push(list_block(items, start)),
                    first,
                )
            },
            MdEventView::Start(MdTagView::CodeBlock(info)) => {
                let (code, p) = code_from(ev, pos + 1, stop, Seq::empty());
                item_from(
                    ev,
                    after(pos, p),
                    stop,
                    content,
                    children.push(
                        BlockView::CodeBlock { language: language_of(info), content: code, line: 0 },
                    ),
                    first,
                )
            },
            MdEventView::Start(MdTagView::HtmlBlock) => {
                let (html, p) = html_from(ev, pos + 1, stop, Seq::empty());
                item_from(
                    ev,
                    after(pos, p),
                    stop,
                    content,
                    children.push(BlockView::Html { content: html, line: 0 }),
                    first,
                )
            },
            MdEventView::Start(MdTagView::BlockQuote) => {
                let e = quote_end(ev, pos + 1, stop, 0);
                item_from(
                    ev,
                    after(pos, e),
                    stop,
                    content,
                    children.push(
                        BlockView::BlockQuote { blocks: quoted_blocks(ev, pos + 1, e, stop), line: 0 },
                    ),
                    first,
                )
            },
            MdEventView::Rule => item_from(
                ev,
                pos + 1,
                stop,
                content,
                children.push(BlockView::ThematicBreak { line: 0 }),
                first,
            ),
            MdEventView::Blank => item_from(
                ev,
                pos + 1,
                stop,
                content,
                spaced_blocks(content, children),
                first,
            ),
            MdEventView::Start(tag) => match span_end(tag) {
                Some(inner_end) => {
                    let (inner, p) = inlines_from(ev, pos + 1, stop, inner_end, Seq::empty());
                    let (para, q) = bare_from(ev, pos, stop, Seq::empty());
                    if children.len() == 0 {
                        item_from(
                            ev,
                            after(pos, p),
                            stop,
                            content.push(span_inline(tag, inner)),
                            children,
                            false,
                        )
                    } else {
                        item_from(
                            ev,
                            after(pos, q),
                            stop,
                            content,
                            children.push(BlockView::Paragraph { content: para, line: 0 }),
                            first,
                        )
                    }
                },
                None => item_from(ev, pos + 1, stop, content, children, first),
            },
            e => match leaf_inline(e) {
                Some(leaf) => {
                    let (para, q) = bare_from(ev, pos, stop, Seq::empty());
                    if children.len() == 0 {
                        item_from(
                            ev,
                            pos + 1,
                            stop,
                            content.push(leaf),
                            children,
                            first && is_break(leaf),
                        )
                    } else {
                        item_from(
                            ev,
                            after(pos, q),
                            stop,
                            content,
                            children.push(BlockView::Paragraph { content: para, line: 0 }),
                            first,
                        )
                    }
                },
                None => item_from(ev, pos + 1, stop, content, children, first),
            },
        }
    }
}

/// The blocks of a quote that spans `pos..e` inside `..stop`.
pub open spec fn quoted_blocks(
    ev: Seq<(MdEventView, usize)>,
    pos: int,
    e: int,
    stop: int,
) -> Seq<BlockView>
    decreases left(pos, stop), 1nat,
{
    if e <= stop {
        separated(blocks_from(ev, pos, e, Seq::empty(), Seq::empty()).0)
    } else {
        Seq::empty()
    }
}

/// The blocks from `pos` to `stop`, appended to `acc`, and for each of them
/// that is not a blank line the offset at which it starts, appended to
/// `starts`.
pub open spec fn blocks_from(
    ev: Seq<(MdEventView, usize)>,
    pos: int,
    stop: int,
    acc: Seq<BlockView>,
    starts: Seq<usize>,
) -> (Seq<BlockView>, Seq<usize>)
    decreases left(pos, stop), 0nat,
{
    if pos >= stop {
        (acc, starts)
    } else {
        let at = starts.push(ev[pos].1);
        match ev[pos].0 {
            MdEventView::Start(MdTagView::Heading(level)) => {
                let (content, p) = inlines_from(
                    ev,
                    pos + 1,
                    stop,
                    MdEnd::Heading(level),
                    Seq::empty(),
                );
                let b = BlockView::Heading { level, content, line: 0 };
                blocks_from(ev, after(pos, p), stop, acc.push(b), at)
            },
            MdEventView::Start(MdTagView::Paragraph) => {
                let (content, p) = inlines_from(ev, pos + 1, stop, MdEnd::Paragraph, Seq::empty());
                if content.len() == 0 {
                    blocks_from(ev, after(pos, p), stop, acc.push(BlockView::BlankLine), starts)
                } else {
                    let b = BlockView::Paragraph { content, line: 0 };
                    blocks_from(ev, after(pos, p), stop, acc.push(b), at)
                }
            },
            MdEventView::Start(MdTagView::List(start)) => {
                let (items, p) = items_from(ev, pos + 1, stop, Seq::empty());
                let b = list_block(items, start);
                blocks_from(ev, after(pos, p), stop, acc.push(b), at)
            },
            MdEventView::Start(MdTagView::CodeBlock(info)) => {
                let (code, p) = code_from(ev, pos + 1, stop, Seq::empty());
                let b = BlockView::CodeBlock { language: language_of(info), content: code, line: 0 };
                blocks_from(ev, after(pos, p), stop, acc.push(b), at)
            },
            MdEventView::Start(MdTagView::HtmlBlock) => {
                let (html, p) = html_from(ev, pos + 1, stop, Seq::empty());
                let b = BlockView::Html { content: html, line: 0 };
                blocks_from(ev, after(pos, p), stop, acc.push(b), at)
            },
            MdEventView::Start(MdTagView::BlockQuote) => {
                let e = quote_end(ev, pos + 1, stop, 0);
                let b = BlockView::BlockQuote {
                    blocks: quoted_blocks(ev, pos + 1, e, stop),
                    line: 0,
                };
                blocks_from(ev, after(pos, e), stop, acc.push(b), at)
            },
            MdEventView::Start(MdTagView::Table(alignments)) => {
                let (header, rows, p) = table_from(ev, pos + 1, stop, Seq::empty(), Seq::empty());
                let b = BlockView::Table { alignments, header, rows, line: 0 };
                blocks_from(ev, after(pos, p), stop, acc.push(b), at)
            },
            MdEventView::Rule => blocks_from(
                ev,
                pos + 1,
                stop,
                acc.push(BlockView::ThematicBreak { line: 0 }),
                at,
            ),
            _ => blocks_from(ev, pos + 1, stop, acc, starts),
        }
    }
}

// ── blank lines ───────────────────────────────────────────────────────────

/// `s` with a blank line between each two neighbours that are not blank.
pub open spec fn separated(s: Seq<BlockView>) -> Seq<BlockView>
    decreases s.len(),
{
    if s.len() <= 1 {
        s
    } else if s[s.len() - 2] != BlockView::BlankLine && s.last() != BlockView::BlankLine {
        separated(s.drop_last()).push(BlockView::BlankLine).push(s.last())
    } else {
        separated(s.drop_last()).push(s.last())
    }
}

/// Whether no two neighbours of `s` are both blocks other than blank lines.
pub open spec fn is_separated(s: Seq<BlockView>) -> bool {
    forall|i: int, j: int|
        0 <= i && j == i + 1 && j < s.len() ==> #[trigger] s[i] == BlockView::BlankLine
            || #[trigger] s[j] == BlockView::BlankLine
}

/// The blocks of `s` that are not blank lines.
pub open spec fn filled(s: Seq<BlockView>) -> Seq<BlockView>
    decreases s.len(),
{
    if s.len() == 0 {
        s
    } else if s.last() == BlockView::BlankLine {
        filled(s.drop_last())
    } else {
        filled(s.drop_last()).push(s.last())
    }
}

/// Normalizing puts a blank line between every two consecutive blocks, keeps
/// every other block in order, and keeps the first and the last block where
/// they are.
pub proof fn separated_is_separated(s: Seq<BlockView>)
    ensures
        is_separated(separated(s)),
        filled(separated(s)) == filled(s),
        separated(s).len() >= s.len(),
        s.len() > 0 ==> separated(s).last() == s.last() && separated(s)[0] == s[0],
    decreases s.len(),
{
    if s.len() > 1 {
        let front = separated(s.drop_last());
        separated_is_separated(s.drop_last());
        assert(s.drop_last().last() == s[s.len() - 2]);
        if s[s.len() - 2] != BlockView::BlankLine && s.last() != BlockView::BlankLine {
            let mid = front.push(BlockView::BlankLine);
            assert(separated(s).drop_last() =~= mid);
            assert(mid.drop_last() =~= front);
            assert(filled(mid) == filled(front));
        } else {
            assert(separated(s).drop_last() =~= front);
        }
    }
}

/// Normalizing what is separated already changes nothing.
pub proof fn separated_keeps_separated(s: Seq<BlockView>)
    requires
        is_separated(s),
    ensures
        separated(s) == s,
    decreases s.len(),
{
    if s.len() > 1 {
        assert(s[s.len() - 2] == BlockView::BlankLine || s[s.len() - 2 + 1]
            == BlockView::BlankLine);
        assert(is_separated(s.drop_last()));
        separated_keeps_separated(s.drop_last());
        assert(s.drop_last().push(s.last()) =~= s);
    }
}

/// Normalizing twice is normalizing once.
pub proof fn separated_twice(s: Seq<BlockView>)
    ensures
        separated(separated(s)) == separated(s),
{
    separated_is_separated(s);
    separated_keeps_separated(separated(s));
}

/// Whether a block is a blank line.
pub fn is_blank(b: &Block) -> (r: bool)
    ensures
        r == (b@ == BlockView::BlankLine),
{
    match b {
        Block::BlankLine => true,
        _ => false,
    }
}

/// Ensure there is a `BlankLine` between every pair of consecutive non-blank
/// blocks. Prevents CommonMark from merging consecutive paragraphs into one
/// paragraph with soft breaks, and avoids lazy continuation when a paragraph
/// follows a list.
pub fn normalize_blank_lines(blocks: &mut Vec<Block>)
    ensures
        blocks_view(final(blocks)@) == separated(blocks_view(old(blocks)@)),
{
    let ghost s = blocks_view(blocks@);
    if blocks.len() == 0 {
        return;
    }
    let mut i: usize = 0;
    let ghost mut k: int = 0;
    assert(blocks_view(blocks@).take(1) =~= s.take(1));
    while i + 1 < blocks.len()
        invariant
            i < blocks.len(),
            0 <= k < s.len(),
            blocks_view(blocks@).take(i + 1) == separated(s.take(k + 1)),
            blocks_view(blocks@).skip(i + 1) == s.skip(k + 1),
        decreases blocks.len() - i, s.len() - k,
    {
        let ghost b = blocks_view(blocks@);
        proof {
            assert(b.skip(i + 1).len() == s.skip(k + 1).len());
            assert(b.skip(i + 1)[0] == b[i + 1]);
            assert(s.skip(k + 1)[0] == s[k + 1]);
            separated_is_separated(s.take(k + 1));
            assert(b.take(i + 1).last() == b[i as int]);
            assert(s.take(k + 1).last() == s[k]);
            assert(s.take(k + 2).drop_last() =~= s.take(k + 1));
            assert(s.skip(k + 1).skip(1) =~= s.skip(k + 2));
        }
        if !is_blank(&blocks[i]) && !is_blank(&blocks[i + 1]) {
            blocks.insert(i + 1, Block::BlankLine);
            proof {
                let c = blocks_view(blocks@);
                assert(c =~= b.insert(i + 1, BlockView::BlankLine));
                assert(c.take(i + 3) =~= b.take(i + 1).push(BlockView::BlankLine).push(s[k + 1]));
                assert(c.skip(i + 3) =~= b.skip(i + 1).skip(1));
                k = k + 1;
            }
            i += 2;
        } else {
            proof {
                assert(b.take(i + 2) =~= b.take(i + 1).push(s[k + 1]));
                assert(b.skip(i + 2) =~= b.skip(i + 1).skip(1));
                k = k + 1;
            }
            i += 1;
        }
    }
    proof {
        let b = blocks_view(blocks@);
        assert(b.skip(i + 1).len() == 0);
        assert(s.skip(k + 1).len() == 0);
        assert(b.take(i + 1) =~= b);
        assert(s.take(k + 1) =~= s);
    }
}

// ── reading events ────────────────────────────────────────────────────────

/// The end of a span-level element, for a tag that starts one.
fn span_kind(tag: &MdTag) -> (r: Option<MdEnd>)
    ensures
        r == span_end(tag@),
{
    match tag {
        MdTag::Strong => Some(MdEnd::Strong),
        MdTag::Emphasis => Some(MdEnd::Emphasis),
        MdTag::Strikethrough => Some(MdEnd::Strikethrough),
        MdTag::Link { .. } => Some(MdEnd::Link),
        MdTag::Image { .. } => Some(MdEnd::Image),
        _ => None,
    }
}

/// The inline made of a span-level tag and its content.
fn span_from(tag: &MdTag, inner: Vec<Inline>) -> (r: Inline)
    ensures
        r@ == span_inline(tag@, inlines_view(inner@)),
{
    match tag {
        MdTag::Strong => Inline::Strong(inner),
        MdTag::Emphasis => Inline::Emphasis(inner),
        MdTag::Link { url, title, auto } => {
            if *auto {
                return Inline::Autolink(url.clone());
            }
            let text = inlines_to_string(inner.as_slice());
            let written = write_inlines(inner.as_slice(), true);
            if !written.as_str().eq(text.as_str()) {
                Inline::StyledLink { content: inner, url: url.clone(), title: title.clone() }
            } else if title.as_str().is_empty() {
                Inline::Link { text, url: url.clone() }
            } else {
                Inline::TitledLink { text, url: url.clone(), title: title.clone() }
            }
        },
        MdTag::Image { url, title } => {
            let alt = inlines_to_string(inner.as_slice());
            let written = write_inlines(inner.as_slice(), true);
            if !written.as_str().eq(alt.as_str()) {
                Inline::StyledImage { content: inner, url: url.clone(), title: title.clone() }
            } else if title.as_str().is_empty() {
                Inline::Image { alt, url: url.clone() }
            } else {
                Inline::TitledImage { alt, url: url.clone(), title: title.clone() }
            }
        },
        _ => Inline::Strikethrough(inner),
    }
}

/// The inline that an event stands for by itself.
fn leaf_from(event: &MdEvent) -> (r: Option<Inline>)
    ensures
        (match r {
            Some(i) => Some(i@),
            None => None,
        }) == leaf_inline(event@),
{
    match event {
        MdEvent::Text(s) => Some(Inline::Text(s.clone())),
        MdEvent::Spelled { text, source } => Some(
            Inline::Spelled { text: text.clone(), source: source.clone() },
        ),
        MdEvent::Code(s) => Some(Inline::Code(s.clone())),
        MdEvent::InlineHtml(s) => Some(Inline::Html(s.clone())),
        MdEvent::SoftBreak => Some(Inline::SoftBreak),
        MdEvent::HardBreak => Some(Inline::HardBreak),
        _ => None,
    }
}

/// The inlines from `pos` to the end tag `end`, and the position behind it.
pub fn collect_inlines(events: &Vec<(MdEvent, usize)>, pos: usize, stop: usize, end: MdEnd) -> (r: (
    Vec<Inline>,
    usize,
))
    requires
        pos <= stop <= events.len(),
    ensures
        pos <= r.1 <= stop,
        (inlines_view(r.0@), r.1 as int) == inlines_from(
            events_view(events@),
            pos as int,
            stop as int,
            end,
            Seq::empty(),
        ),
    decreases stop - pos,
{
    broadcast use group_push;

    let ghost ev = events_view(events@);
    let mut out: Vec<Inline> = Vec::new();
    assert(inlines_view(out@) =~= Seq::empty());
    let mut i: usize = pos;
    while i < stop
        invariant
            pos <= i <= stop <= events.len(),
            ev == events_view(events@),
            inlines_from(ev, pos as int, stop as int, end, Seq::empty()) == inlines_from(
                ev,
                i as int,
                stop as int,
                end,
                inlines_view(out@),
            ),
        decreases stop - i,
    {
        broadcast use group_push;

        assert(ev[i as int].0 == events@[i as int].0@);
        match &events[i].0 {
            MdEvent::End(e) => {
                if *e == end {
                    return (out, i + 1);
                }
                i += 1;
            },
            MdEvent::Start(tag) => {
                match span_kind(tag) {
                    Some(inner_end) => {
                        let (inner, p) = collect_inlines(events, i + 1, stop, inner_end);
                        let span = span_from(tag, inner);
                        out.push(span);
                        i = p;
                    },
                    None => {
                        i += 1;
                    },
                }
            },
            other => {
                if let Some(leaf) = leaf_from(other) {
                    out.push(leaf);
                }
                i += 1;
            },
        }
    }
    (out, i)
}

/// The inlines that stand at `pos` by themselves, and the position behind
/// them.
fn collect_bare_inlines(events: &Vec<(MdEvent, usize)>, pos: usize, stop: usize) -> (r: (
    Vec<Inline>,
    usize,
))
    requires
        pos <= stop <= events.len(),
    ensures
        pos <= r.1 <= stop,
        (inlines_view(r.0@), r.1 as int) == bare_from(
            events_view(events@),
            pos as int,
            stop as int,
            Seq::empty(),
        ),
{
    broadcast use group_push;

    let ghost ev = events_view(events@);
    let mut out: Vec<Inline> = Vec::new();
    assert(inlines_view(out@) =~= Seq::empty());
    let mut i: usize = pos;
    while i < stop
        invariant
            pos <= i <= stop <= events.len(),
            ev == events_view(events@),
            bare_from(ev, pos as int, stop as int, Seq::empty()) == bare_from(
                ev,
                i as int,
                stop as int,
                inlines_view(out@),
            ),
        decreases stop - i,
    {
        broadcast use group_push;

        assert(ev[i as int].0 == events@[i as int].0@);
        match &events[i].0 {
            MdEvent::Start(tag) => {
                match span_kind(tag) {
                    Some(inner_end) => {
                        let (inner, p) = collect_inlines(events, i + 1, stop, inner_end);
                        let span = span_from(tag, inner);
                        out.push(span);
                        i = p;
                    },
                    None => {
                        return (out, i);
                    },
                }
            },
            other => {
                match leaf_from(other) {
                    Some(leaf) => {
                        out.push(leaf);
                        i += 1;
                    },
                    None => {
                        return (out, i);
                    },
                }
            },
        }
    }
    (out, i)
}

/// The text of a code block from `pos` on.
pub fn collect_code_block(events: &Vec<(MdEvent, usize)>, pos: usize, stop: usize) -> (r: (
    String,
    usize,
))
    requires
        pos <= stop <= events.len(),
    ensures
        pos <= r.1 <= stop,
        (r.0@, r.1 as int) == code_from(
            events_view(events@),
            pos as int,
            stop as int,
            Seq::empty(),
        ),
{
    let ghost ev = events_view(events@);
    let mut out = String::new();
    let mut i: usize = pos;
    while i < stop
        invariant
            pos <= i <= stop <= events.len(),
            ev == events_view(events@),
            code_from(ev, pos as int, stop as int, Seq::empty()) == code_from(
                ev,
                i as int,
                stop as int,
                out@,
            ),
        decreases stop - i,
    {
        assert(ev[i as int].0 == events@[i as int].0@);
        match &events[i].0 {
            MdEvent::End(MdEnd::CodeBlock) => {
                return (out, i + 1);
            },
            MdEvent::Text(s) => {
                out.append(s.as_str());
            },
            MdEvent::Spelled { text, source: _ } => {
                out.append(text.as_str());
            },
            _ => {},
        }
        i += 1;
    }
    (out, i)
}

/// The raw HTML from `pos` on.
pub fn collect_html_block(events: &Vec<(MdEvent, usize)>, pos: usize, stop: usize) -> (r: (
    String,
    usize,
))
    requires
        pos <= stop <= events.len(),
    ensures
        pos <= r.1 <= stop,
        (r.0@, r.1 as int) == html_from(
            events_view(events@),
            pos as int,
            stop as int,
            Seq::empty(),
        ),
{
    let ghost ev = events_view(events@);
    let mut out = String::new();
    let mut i: usize = pos;
    while i < stop
        invariant
            pos <= i <= stop <= events.len(),
            ev == events_view(events@),
            html_from(ev, pos as int, stop as int, Seq::empty()) == html_from(
                ev,
                i as int,
                stop as int,
                out@,
            ),
        decreases stop - i,
    {
        assert(ev[i as int].0 == events@[i as int].0@);
        match &events[i].0 {
            MdEvent::End(MdEnd::HtmlBlock) => {
                return (out, i + 1);
            },
            MdEvent::Html(s) => {
                out.append(s.as_str());
            },
            _ => {},
        }
        i += 1;
    }
    (out, i)
}

/// The cells of a table row from `pos` to the end tag `end`.
pub fn collect_table_row(events: &Vec<(MdEvent, usize)>, pos: usize, stop: usize, end: MdEnd) -> (r:
    (Vec<Vec<Inline>>, usize))
    requires
        pos <= stop <= events.len(),
    ensures
        pos <= r.1 <= stop,
        (cells_view(r.0@), r.1 as int) == row_from(
            events_view(events@),
            pos as int,
            stop as int,
            end,
            Seq::empty(),
        ),
{
    broadcast use group_push;

    let ghost ev = events_view(events@);
    let mut cells: Vec<Vec<Inline>> = Vec::new();
    assert(cells_view(cells@) =~= Seq::empty());
    let mut i: usize = pos;
    while i < stop
        invariant
            pos <= i <= stop <= events.len(),
            ev == events_view(events@),
            row_from(ev, pos as int, stop as int, end, Seq::empty()) == row_from(
                ev,
                i as int,
                stop as int,
                end,
                cells_view(cells@),
            ),
        decreases stop - i,
    {
        broadcast use group_push;

        assert(ev[i as int].0 == events@[i as int].0@);
        match &events[i].0 {
            MdEvent::End(e) => {
                if *e == end {
                    return (cells, i + 1);
                }
                i += 1;
            },
            MdEvent::Start(MdTag::TableCell) => {
                let (cell, p) = collect_inlines(events, i + 1, stop, MdEnd::TableCell);
                cells.push(cell);
                i = p;
            },
            _ => {
                i += 1;
            },
        }
    }
    (cells, i)
}

/// The header and rows of a table from `pos` on.
pub fn collect_table(events: &Vec<(MdEvent, usize)>, pos: usize, stop: usize) -> (r: (
    Vec<Vec<Inline>>,
    Vec<Vec<Vec<Inline>>>,
    usize,
))
    requires
        pos <= stop <= events.len(),
    ensures
        pos <= r.2 <= stop,
        (cells_view(r.0@), rows_view(r.1@), r.2 as int) == table_from(
            events_view(events@),
            pos as int,
            stop as int,
            Seq::empty(),
            Seq::empty(),
        ),
{
    broadcast use group_push;

    let ghost ev = events_view(events@);
    let mut header: Vec<Vec<Inline>> = Vec::new();
    let mut rows: Vec<Vec<Vec<Inline>>> = Vec::new();
    assert(cells_view(header@) =~= Seq::empty());
    assert(rows_view(rows@) =~= Seq::empty());
    let mut i: usize = pos;
    while i < stop
        invariant
            pos <= i <= stop <= events.len(),
            ev == events_view(events@),
            table_from(ev, pos as int, stop as int, Seq::empty(), Seq::empty()) == table_from(
                ev,
                i as int,
                stop as int,
                cells_view(header@),
                rows_view(rows@),
            ),
        decreases stop - i,
    {
        broadcast use group_push;

        assert(ev[i as int].0 == events@[i as int].0@);
        match &events[i].0 {
            MdEvent::End(MdEnd::Table) => {
                return (header, rows, i + 1);
            },
            MdEvent::Start(MdTag::TableHead) => {
                let (cells, p) = collect_table_row(events, i + 1, stop, MdEnd::TableHead);
                header = cells;
                i = p;
            },
            MdEvent::Start(MdTag::TableRow) => {
                let (cells, p) = collect_table_row(events, i + 1, stop, MdEnd::TableRow);
                rows.push(cells);
                i = p;
            },
            _ => {
                i += 1;
            },
        }
    }
    (header, rows, i)
}

/// The position of the end of the block quote whose content starts at `pos`.
fn find_quote_end(events: &Vec<(MdEvent, usize)>, pos: usize, stop: usize) -> (r: usize)
    requires
        pos <= stop <= events.len(),
    ensures
        pos <= r <= stop,
        r == quote_end(events_view(events@), pos as int, stop as int, 0),
{
    let ghost ev = events_view(events@);
    let mut i: usize = pos;
    let mut inner: usize = 0;
    while i < stop
        invariant
            pos <= i <= stop <= events.len(),
            inner <= i - pos,
            ev == events_view(events@),
            quote_end(ev, pos as int, stop as int, 0) == quote_end(
                ev,
                i as int,
                stop as int,
                inner as nat,
            ),
        decreases stop - i,
    {
        assert(ev[i as int].0 == events@[i as int].0@);
        match &events[i].0 {
            MdEvent::Start(MdTag::BlockQuote) => {
                inner += 1;
            },
            MdEvent::End(MdEnd::BlockQuote) => {
                if inner == 0 {
                    return i;
                }
                inner -= 1;
            },
            _ => {},
        }
        i += 1;
    }
    stop
}

/// The language of a code block with the given info string.
fn code_language(info: &Option<String>) -> (r: Option<String>)
    ensures
        option_text(r) == language_of(option_text(*info)),
{
    match info {
        Some(lang) => if lang.as_str().is_empty() {
            None
        } else {
            Some(lang.clone())
        },
        None => None,
    }
}

/// The items of a list from `pos` on.
pub fn collect_list_items(events: &Vec<(MdEvent, usize)>, pos: usize, stop: usize) -> (r: (
    Vec<ListItem>,
    usize,
))
    requires
        pos <= stop <= events.len(),
    ensures
        pos <= r.1 <= stop,
        (items_view(r.0@), r.1 as int) == items_from(
            events_view(events@),
            pos as int,
            stop as int,
            Seq::empty(),
        ),
    decreases stop - pos,
{
    broadcast use group_push;

    let ghost ev = events_view(events@);
    let mut items: Vec<ListItem> = Vec::new();
    assert(items_view(items@) =~= Seq::empty());
    let mut i: usize = pos;
    while i < stop
        invariant
            pos <= i <= stop <= events.len(),
            ev == events_view(events@),
            items_from(ev, pos as int, stop as int, Seq::empty()) == items_from(
                ev,
                i as int,
                stop as int,
                items_view(items@),
            ),
        decreases stop - i,
    {
        broadcast use group_push;

        assert(ev[i as int].0 == events@[i as int].0@);
        match &events[i].0 {
            MdEvent::End(MdEnd::List) => {
                return (items, i + 1);
            },
            MdEvent::Start(MdTag::Item) => {
                let (content, children, p) = collect_item_content(events, i + 1, stop);
                items.push(ListItem { content, children });
                i = p;
            },
            MdEvent::Blank => {
                space_items(&mut items);
                i += 1;
            },
            _ => {
                i += 1;
            },
        }
    }
    (items, i)
}

/// A list, which is ordered where its first item has a number.
fn list_from(items: Vec<ListItem>, start: Option<u64>) -> (r: Block)
    ensures
        r@ == list_block(items_view(items@), start),
{
    match start {
        Some(n) => Block::List { items, ordered: true, start: n, line: 0 },
        None => Block::List { items, ordered: false, start: 1, line: 0 },
    }
}

/// Adds a blank line at the end of the blocks of an item.
fn space_blocks(content: &Vec<Inline>, children: &mut Vec<Block>)
    ensures
        blocks_view(final(children)@) == spaced_blocks(
            inlines_view(content@),
            blocks_view(old(children)@),
        ),
{
    broadcast use group_push;

    if content.len() == 0 && children.len() == 0 {
        return ;
    }
    if children.len() > 0 {
        assert(blocks_view(children@).last() == children@[children@.len() - 1]@);
        if is_blank(&children[children.len() - 1]) {
            return ;
        }
    }
    children.push(Block::BlankLine);
}

/// Adds a blank line at the end of the last item.
fn space_items(items: &mut Vec<ListItem>)
    ensures
        items_view(final(items)@) == spaced_items(items_view(old(items)@)),
{
    let ghost was = items_view(items@);
    match items.pop() {
        Some(mut last) => {
            assert(was.drop_last() =~= items_view(items@));
            space_blocks(&last.content, &mut last.children);
            let ghost front = items_view(items@);
            let ghost l = last@;
            items.push(last);
            assert(items_view(items@) =~= front.push(l));
        },
        None => {},
    }
}

/// Where an inline stands by itself, the inlines there reach beyond it.
proof fn bare_goes_on(ev: Seq<(MdEventView, usize)>, pos: int, stop: int)
    requires
        pos < stop,
        match ev[pos].0 {
            MdEventView::Start(tag) => span_end(tag) is Some,
            e => leaf_inline(e) is Some,
        },
    ensures
        bare_from(ev, pos, stop, Seq::empty()).1 > pos,
{
    match ev[pos].0 {
        MdEventView::Start(tag) => {
            let (inner, p) = inlines_from(ev, pos + 1, stop, span_end(tag)->0, Seq::empty());
            bare_stays_behind(
                ev,
                after(pos, p),
                stop,
                Seq::<InlineView>::empty().push(span_inline(tag, inner)),
            );
        },
        e => {
            bare_stays_behind(
                ev,
                pos + 1,
                stop,
                Seq::<InlineView>::empty().push(leaf_inline(e)->0),
            );
        },
    }
}

proof fn bare_stays_behind(
    ev: Seq<(MdEventView, usize)>,
    pos: int,
    stop: int,
    acc: Seq<InlineView>,
)
    ensures
        bare_from(ev, pos, stop, acc).1 >= pos,
    decreases left(pos, stop),
{
    if pos < stop {
        match ev[pos].0 {
            MdEventView::Start(tag) => {
                if span_end(tag) is Some {
                    let (inner, p) = inlines_from(
                        ev,
                        pos + 1,
                        stop,
                        span_end(tag)->0,
                        Seq::empty(),
                    );
                    bare_stays_behind(
                        ev,
                        after(pos, p),
                        stop,
                        acc.push(span_inline(tag, inner)),
                    );
                }
            },
            e => {
                if leaf_inline(e) is Some {
                    bare_stays_behind(ev, pos + 1, stop, acc.push(leaf_inline(e)->0));
                }
            },
        }
    }
}

/// The content and children of a list item from `pos` on.
#[verifier::rlimit(40)]
pub fn collect_item_content(events: &Vec<(MdEvent, usize)>, pos: usize, stop: usize) -> (r: (
    Vec<Inline>,
    Vec<Block>,
    usize,
))
    requires
        pos <= stop <= events.len(),
    ensures
        pos <= r.2 <= stop,
        (inlines_view(r.0@), blocks_view(r.1@), r.2 as int) == item_from(
            events_view(events@),
            pos as int,
            stop as int,
            Seq::empty(),
            Seq::empty(),
            true,
        ),
    decreases stop - pos,
{
    broadcast use group_push;

    let ghost ev = events_view(events@);
    let mut inlines: Vec<Inline> = Vec::new();
    let mut children: Vec<Block> = Vec::new();
    let mut first_paragraph = true;
    assert(inlines_view(inlines@) =~= Seq::empty());
    assert(blocks_view(children@) =~= Seq::empty());
    let mut i: usize = pos;
    while i < stop
        invariant
            pos <= i <= stop <= events.len(),
            ev == events_view(events@),
            item_from(ev, pos as int, stop as int, Seq::empty(), Seq::empty(), true) == item_from(
                ev,
                i as int,
                stop as int,
                inlines_view(inlines@),
                blocks_view(children@),
                first_paragraph,
            ),
        decreases stop - i,
    {
        broadcast use group_push;

        assert(ev[i as int].0 == events@[i as int].0@);
        match &events[i].0 {
            MdEvent::End(MdEnd::Item) => {
                return (inlines, children, i + 1);
            },
            MdEvent::Start(MdTag::Paragraph) => {
                let (content, p) = collect_inlines(events, i + 1, stop, MdEnd::Paragraph);
                if first_paragraph && children.len() == 0 {
                    inlines = content;
                    first_paragraph = false;
                } else {
                    children.push(Block::Paragraph { content, line: 0 });
                }
                i = p;
            },
            MdEvent::Start(MdTag::Heading(level)) => {
                let (content, p) = collect_inlines(events, i + 1, stop, MdEnd::Heading(*level));
                children.push(Block::Heading { level: *level, content, line: 0 });
                i = p;
            },
            MdEvent::Start(MdTag::Table(alignments)) => {
                let aligns = copy_alignments(alignments);
                let (header, rows, p) = collect_table(events, i + 1, stop);
                children.push(Block::Table { alignments: aligns, header, rows, line: 0 });
                i = p;
            },
            MdEvent::Start(MdTag::List(start)) => {
                let (items, p) = collect_list_items(events, i + 1, stop);
                children.push(list_from(items, *start));
                i = p;
            },
            MdEvent::Start(MdTag::CodeBlock(info)) => {
                let language = code_language(info);
                let (content, p) = collect_code_block(events, i + 1, stop);
                children.push(Block::CodeBlock { language, content, line: 0 });
                i = p;
            },
            MdEvent::Start(MdTag::HtmlBlock) => {
                let (content, p) = collect_html_block(events, i + 1, stop);
                children.push(Block::Html { content, line: 0 });
                i = p;
            },
            MdEvent::Start(MdTag::BlockQuote) => {
                let e = find_quote_end(events, i + 1, stop);
                let (blocks, _starts) = parse_blocks(events, i + 1, e);
                assert(quoted_blocks(ev, i + 1, e as int, stop as int) == blocks_view(blocks@));
                children.push(Block::BlockQuote { blocks, line: 0 });
                i = e;
            },
            MdEvent::Rule => {
                children.push(Block::ThematicBreak { line: 0 });
                i += 1;
            },
            MdEvent::Blank => {
                space_blocks(&inlines, &mut children);
                i += 1;
            },
            MdEvent::Start(tag) => {
                match span_kind(tag) {
                    Some(inner_end) => {
                        if children.len() > 0 {
                            let (content, q) = collect_bare_inlines(events, i, stop);
                            proof {
                                bare_goes_on(ev, i as int, stop as int);
                            }
                            children.push(Block::Paragraph { content, line: 0 });
                            i = q;
                        } else {
                            let (inner, p) = collect_inlines(events, i + 1, stop, inner_end);
                            let span = span_from(tag, inner);
                            inlines.push(span);
                            first_paragraph = false;
                            i = p;
                        }
                    },
                    None => {
                        i += 1;
                    },
                }
            },
            other => {
                match leaf_from(other) {
                    Some(leaf) => {
                        if children.len() > 0 {
                            let (content, q) = collect_bare_inlines(events, i, stop);
                            proof {
                                bare_goes_on(ev, i as int, stop as int);
                            }
                            children.push(Block::Paragraph { content, line: 0 });
                            i = q;
                        } else {
                            if !breaks_line(&leaf) {
                                first_paragraph = false;
                            }
                            inlines.push(leaf);
                            i += 1;
                        }
                    },
                    None => {
                        i += 1;
                    },
                }
            },
        }
    }
    (inlines, children, i)
}

/// The blocks that the events `pos..stop` stand for, with blank lines between
/// them, and for each block that is not a blank line the offset at which it
/// starts.
#[verifier::rlimit(40)]
pub fn parse_blocks(events: &Vec<(MdEvent, usize)>, pos: usize, stop: usize) -> (r: (
    Vec<Block>,
    Vec<usize>,
))
    requires
        pos <= stop <= events.len(),
    ensures
        blocks_view(r.0@) == separated(
            blocks_from(
                events_view(events@),
                pos as int,
                stop as int,
                Seq::empty(),
                Seq::empty(),
            ).0,
        ),
        r.1@ == blocks_from(
            events_view(events@),
            pos as int,
            stop as int,
            Seq::empty(),
            Seq::empty(),
        ).1,
    decreases stop - pos,
{
    broadcast use group_push;

    let ghost ev = events_view(events@);
    let mut blocks: Vec<Block> = Vec::new();
    let mut starts: Vec<usize> = Vec::new();
    assert(blocks_view(blocks@) =~= Seq::empty());
    let mut i: usize = pos;
    while i < stop
        invariant
            pos <= i <= stop <= events.len(),
            ev == events_view(events@),
            blocks_from(ev, pos as int, stop as int, Seq::empty(), Seq::empty()) == blocks_from(
                ev,
                i as int,
                stop as int,
                blocks_view(blocks@),
                starts@,
            ),
        decreases stop - i,
    {
        broadcast use group_push;

        assert(ev[i as int].0 == events@[i as int].0@);
        let at: usize = events[i].1;
        match &events[i].0 {
            MdEvent::Start(MdTag::Heading(level)) => {
                let (content, p) = collect_inlines(events, i + 1, stop, MdEnd::Heading(*level));
                blocks.push(Block::Heading { level: *level, content, line: 0 });
                starts.push(at);
                i = p;
            },
            MdEvent::Start(MdTag::Paragraph) => {
                let (content, p) = collect_inlines(events, i + 1, stop, MdEnd::Paragraph);
                if content.len() == 0 {
                    blocks.push(Block::BlankLine);
                } else {
                    blocks.push(Block::Paragraph { content, line: 0 });
                    starts.push(at);
                }
                i = p;
            },
            MdEvent::Start(MdTag::List(start)) => {
                let (items, p) = collect_list_items(events, i + 1, stop);
                blocks.push(list_from(items, *start));
                starts.push(at);
                i = p;
            },
            MdEvent::Start(MdTag::CodeBlock(info)) => {
                let language = code_language(info);
                let (content, p) = collect_code_block(events, i + 1, stop);
                blocks.push(Block::CodeBlock { language, content, line: 0 });
                starts.push(at);
                i = p;
            },
            MdEvent::Start(MdTag::HtmlBlock) => {
                let (content, p) = collect_html_block(events, i + 1, stop);
                blocks.push(Block::Html { content, line: 0 });
                starts.push(at);
                i = p;
            },
            MdEvent::Start(MdTag::BlockQuote) => {
                let e = find_quote_end(events, i + 1, stop);
                let (inner, _starts) = parse_blocks(events, i + 1, e);
                assert(quoted_blocks(ev, i + 1, e as int, stop as int) == blocks_view(inner@));
                blocks.push(Block::BlockQuote { blocks: inner, line: 0 });
                starts.push(at);
                i = e;
            },
            MdEvent::Start(MdTag::Table(alignments)) => {
                let aligns = copy_alignments(alignments);
                let (header, rows, p) = collect_table(events, i + 1, stop);
                blocks.push(Block::Table { alignments: aligns, header, rows, line: 0 });
                starts.push(at);
                i = p;
            },
            MdEvent::Rule => {
                blocks.push(Block::ThematicBreak { line: 0 });
                starts.push(at);
                i += 1;
            },
            _ => {
                i += 1;
            },
        }
    }
    normalize_blank_lines(&mut blocks);
    (blocks, starts)
}

// ── source lines ──────────────────────────────────────────────────────────

/// How many line feeds `b` holds.
pub open spec fn line_feeds(b: Seq<u8>) -> nat
    decreases b.len(),
{
    if b.len() == 0 {
        0
    } else if b.last() == 10 {
        line_feeds(b.drop_last()) + 1
    } else {
        line_feeds(b.drop_last())
    }
}

/// `a + b`, at most the largest `usize`.
pub open spec fn capped_sum(a: int, b: int) -> int {
    if a + b > usize::MAX {
        usize::MAX as int
    } else {
        a + b
    }
}

/// The 1-based line of the byte at `offset`, where `skipped` lines come
/// before the text.
pub open spec fn line_at(bytes: Seq<u8>, offset: usize, skipped: nat) -> int {
    let seen = if offset <= bytes.len() {
        bytes.take(offset as int)
    } else {
        bytes
    };
    capped_sum(line_feeds(seen) as int, capped_sum(skipped as int, 1))
}

/// How many lines of `content` come before `body`, the lines at its end.
pub open spec fn skipped_lines(content: Seq<char>, body: Seq<char>) -> nat {
    let all = lines_of(content).len();
    let kept = line_feeds(encode_utf8(body)) + 1;
    if all >= kept {
        (all - kept) as nat
    } else {
        0
    }
}

/// `b` with the source line `line`.
pub open spec fn with_line(b: BlockView, line: int) -> BlockView {
    match b {
        BlockView::Heading { level, content, .. } => BlockView::Heading { level, content, line },
        BlockView::Paragraph { content, .. } => BlockView::Paragraph { content, line },
        BlockView::List { items, ordered, start, .. } => BlockView::List {
            items,
            ordered,
            start,
            line,
        },
        BlockView::CodeBlock { language, content, .. } => BlockView::CodeBlock {
            language,
            content,
            line,
        },
        BlockView::Html { content, .. } => BlockView::Html { content, line },
        BlockView::BlockQuote { blocks, .. } => BlockView::BlockQuote { blocks, line },
        BlockView::Table { alignments, header, rows, .. } => BlockView::Table {
            alignments,
            header,
            rows,
            line,
        },
        BlockView::ThematicBreak { .. } => BlockView::ThematicBreak { line },
        BlockView::BlankLine => b,
    }
}

/// `blocks` with the lines of `lines` given, in order, to the blocks that
/// are not blank lines.
pub open spec fn with_lines(blocks: Seq<BlockView>, lines: Seq<int>) -> Seq<BlockView> {
    Seq::new(
        blocks.len(),
        |i: int|
            {
                let k = filled(blocks.take(i)).len();
                if blocks[i] != BlockView::BlankLine && k < lines.len() {
                    with_line(blocks[i], lines[k as int])
                } else {
                    blocks[i]
                }
            },
    )
}

/// The source lines of blocks that start at the given offsets.
pub open spec fn start_lines(starts: Seq<usize>, bytes: Seq<u8>, skipped: nat) -> Seq<int> {
    starts.map_values(|o: usize| line_at(bytes, o, skipped))
}

/// How many line feeds `bytes[..n]` holds.
fn count_line_feeds(bytes: &[u8], n: usize) -> (r: usize)
    requires
        n <= bytes.len(),
    ensures
        r == line_feeds(bytes@.take(n as int)),
        r <= n,
{
    let mut count: usize = 0;
    let mut i: usize = 0;
    while i < n
        invariant
            i <= n <= bytes.len(),
            count <= i,
            count == line_feeds(bytes@.take(i as int)),
        decreases n - i,
    {
        assert(bytes@.take(i + 1).drop_last() =~= bytes@.take(i as int));
        if bytes[i] == 10 {
            count += 1;
        }
        i += 1;
    }
    count
}

/// How many lines of `content` come before `body`.
fn count_skipped_lines(content: &str, body: &str) -> (r: usize)
    ensures
        r == skipped_lines(content@, body@),
{
    let all = lines(content);
    assert(texts(all@).len() == all@.len());
    let bytes = body.as_bytes();
    let feeds = count_line_feeds(bytes, bytes.len());
    assert(bytes@.take(bytes@.len() as int) =~= bytes@);
    if all.len() > feeds {
        all.len() - feeds - 1
    } else {
        0
    }
}

fn set_block_line(block: &mut Block, line: usize)
    ensures
        final(block)@ == with_line(old(block)@, line as int),
{
    match block {
        Block::Heading { line: l, .. } => *l = line,
        Block::Paragraph { line: l, .. } => *l = line,
        Block::List { line: l, .. } => *l = line,
        Block::CodeBlock { line: l, .. } => *l = line,
        Block::Html { line: l, .. } => *l = line,
        Block::BlockQuote { line: l, .. } => *l = line,
        Block::Table { line: l, .. } => *l = line,
        Block::ThematicBreak { line: l } => *l = line,
        Block::BlankLine => {},
    }
}

/// Attach 1-based source line numbers to top-level blocks.
///
/// `starts` holds the byte offset in `body` at which each block that is not
/// a blank line starts; blank lines keep line 0. `skipped` is the number of
/// source lines before `body`.
pub fn attach_line_numbers(blocks: &mut Vec<Block>, starts: &Vec<usize>, body: &str, skipped: usize)
    ensures
        blocks_view(final(blocks)@) == with_lines(
            blocks_view(old(blocks)@),
            start_lines(starts@, encode_utf8(body@), skipped as nat),
        ),
{
    let ghost s = blocks_view(blocks@);
    let ghost ls = start_lines(starts@, encode_utf8(body@), skipped as nat);
    let bytes = body.as_bytes();
    let mut k: usize = 0;
    let mut i: usize = 0;
    assert(s.take(0) =~= Seq::empty());
    while i < blocks.len()
        invariant
            i <= blocks.len(),
            blocks.len() == s.len(),
            bytes@ == encode_utf8(body@),
            ls == start_lines(starts@, encode_utf8(body@), skipped as nat),
            k <= starts.len(),
            k == (if filled(s.take(i as int)).len() < starts.len() {
                filled(s.take(i as int)).len()
            } else {
                starts@.len()
            }),
            forall|j: int|
                0 <= j < s.len() ==> (#[trigger] blocks@[j])@ == (if j < i {
                    with_lines(s, ls)[j]
                } else {
                    s[j]
                }),
        decreases blocks.len() - i,
    {
        assert(s.take(i + 1).drop_last() =~= s.take(i as int));
        if !is_blank(&blocks[i]) && k < starts.len() {
            let offset: usize = starts[k];
            let n: usize = if offset <= bytes.len() {
                offset
            } else {
                bytes.len()
            };
            let feeds = count_line_feeds(bytes, n);
            assert(bytes@.take(bytes@.len() as int) =~= bytes@);
            let line: usize = feeds.saturating_add(skipped.saturating_add(1));
            assert(ls[k as int] == line);
            set_block_line(&mut blocks[i], line);
            k += 1;
        }
        i += 1;
    }
    assert(blocks_view(blocks@) =~= with_lines(s, ls));
}

/// As many offsets are noted as there are blocks that are not blank lines.
pub proof fn starts_match_blocks(
    ev: Seq<(MdEventView, usize)>,
    pos: int,
    stop: int,
    acc: Seq<BlockView>,
    starts: Seq<usize>,
)
    requires
        filled(acc).len() == starts.len(),
    ensures
        ({
            let r = blocks_from(ev, pos, stop, acc, starts);
            filled(r.0).len() == r.1.len()
        }),
    decreases left(pos, stop),
{
    if pos < stop {
        let at = starts.push(ev[pos].1);
        assert forall|b: BlockView| b != BlockView::BlankLine implies filled(
            #[trigger] acc.push(b),
        ).len() == at.len() by {
            assert(acc.push(b).drop_last() =~= acc);
        }
        assert(acc.push(BlockView::BlankLine).drop_last() =~= acc);
        match ev[pos].0 {
            MdEventView::Start(MdTagView::Heading(level)) => {
                let (content, p) = inlines_from(
                    ev,
                    pos + 1,
                    stop,
                    MdEnd::Heading(level),
                    Seq::empty(),
                );
                let b = BlockView::Heading { level, content, line: 0 };
                starts_match_blocks(ev, after(pos, p), stop, acc.push(b), at);
            },
            MdEventView::Start(MdTagView::Paragraph) => {
                let (content, p) = inlines_from(ev, pos + 1, stop, MdEnd::Paragraph, Seq::empty());
                if content.len() == 0 {
                    starts_match_blocks(
                        ev,
                        after(pos, p),
                        stop,
                        acc.push(BlockView::BlankLine),
                        starts,
                    );
                } else {
                    let b = BlockView::Paragraph { content, line: 0 };
                    starts_match_blocks(ev, after(pos, p), stop, acc.push(b), at);
                }
            },
            MdEventView::Start(MdTagView::List(start)) => {
                let (items, p) = items_from(ev, pos + 1, stop, Seq::empty());
                let b = list_block(items, start);
                starts_match_blocks(ev, after(pos, p), stop, acc.push(b), at);
            },
            MdEventView::Start(MdTagView::CodeBlock(info)) => {
                let (code, p) = code_from(ev, pos + 1, stop, Seq::empty());
                let b = BlockView::CodeBlock { language: language_of(info), content: code, line: 0 };
                starts_match_blocks(ev, after(pos, p), stop, acc.push(b), at);
            },
            MdEventView::Start(MdTagView::HtmlBlock) => {
                let (html, p) = html_from(ev, pos + 1, stop, Seq::empty());
                let b = BlockView::Html { content: html, line: 0 };
                starts_match_blocks(ev, after(pos, p), stop, acc.push(b), at);
            },
            MdEventView::Start(MdTagView::BlockQuote) => {
                let e = quote_end(ev, pos + 1, stop, 0);
                let b = BlockView::BlockQuote {
                    blocks: quoted_blocks(ev, pos + 1, e, stop),
                    line: 0,
                };
                starts_match_blocks(ev, after(pos, e), stop, acc.push(b), at);
            },
            MdEventView::Start(MdTagView::Table(alignments)) => {
                let (header, rows, p) = table_from(ev, pos + 1, stop, Seq::empty(), Seq::empty());
                let b = BlockView::Table { alignments, header, rows, line: 0 };
                starts_match_blocks(ev, after(pos, p), stop, acc.push(b), at);
            },
            MdEventView::Rule => {
                starts_match_blocks(
                    ev,
                    pos + 1,
                    stop,
                    acc.push(BlockView::ThematicBreak { line: 0 }),
                    at,
                );
            },
            _ => {
                starts_match_blocks(ev, pos + 1, stop, acc, starts);
            },
        }
    }
}

/// The blocks of a whole text: normalized, and each with the line at which
/// it starts.
pub open spec fn placed_blocks(
    ev: Seq<(MdEventView, usize)>,
    bytes: Seq<u8>,
    skipped: nat,
) -> Seq<BlockView> {
    let (blocks, starts) = blocks_from(ev, 0, ev.len() as int, Seq::empty(), Seq::empty());
    with_lines(separated(blocks), start_lines(starts, bytes, skipped))
}

proof fn filled_prefix(s: Seq<BlockView>, i: int)
    requires
        0 <= i <= s.len(),
    ensures
        filled(s.take(i)).len() <= filled(s).len(),
        i < s.len() && s[i] != BlockView::BlankLine ==> filled(s.take(i)).len() < filled(s).len(),
    decreases s.len(),
{
    if i == s.len() {
        assert(s.take(i) =~= s);
    } else {
        let f = s.drop_last();
        assert(f.take(i) =~= s.take(i));
        filled_prefix(f, i);
        if i == f.len() {
            assert(f.take(i) =~= f);
        }
    }
}

/// In a parsed document every top-level block starts on a source line
/// after the skipped ones, blank lines have line 0, and no two blocks stand
/// without a blank line between them.
pub proof fn parsed_blocks_have_lines(
    ev: Seq<(MdEventView, usize)>,
    bytes: Seq<u8>,
    skipped: nat,
    i: int,
)
    requires
        0 <= i < placed_blocks(ev, bytes, skipped).len(),
        skipped < usize::MAX,
    ensures
        ({
            let b = placed_blocks(ev, bytes, skipped)[i];
            if b == BlockView::BlankLine {
                block_line(b) == 0
            } else {
                block_line(b) > skipped
            }
        }),
        is_separated(placed_blocks(ev, bytes, skipped)),
{
    let (blocks, starts) = blocks_from(ev, 0, ev.len() as int, Seq::empty(), Seq::empty());
    let s = separated(blocks);
    let ls = start_lines(starts, bytes, skipped);
    let r = placed_blocks(ev, bytes, skipped);
    separated_is_separated(blocks);
    starts_match_blocks(ev, 0, ev.len() as int, Seq::empty(), Seq::empty());
    filled_prefix(s, i);
    assert forall|a: int, b: int| 0 <= a && b == a + 1 && b < r.len() implies #[trigger] r[a]
        == BlockView::BlankLine || #[trigger] r[b] == BlockView::BlankLine by {
        assert(s[a] == BlockView::BlankLine || s[b] == BlockView::BlankLine);
    }
}

// ── front matter ──────────────────────────────────────────────────────────

/// The fields of front matter, as pairs of name and YAML value.
pub open spec fn raw_fields(v: Seq<(String, serde_yaml::Value)>) -> Seq<(Seq<char>, YamlView)> {
    v.map_values(|e: (String, serde_yaml::Value)| (e.0@, yaml_content(e.1)))
}

/// What `gray_matter` finds in a text: the fields of the front matter, or
/// the message why they are no mapping, where there is front matter; and the
/// text behind it.
pub uninterp spec fn matter_of(content: Seq<char>) -> (
    Option<Result<Seq<(Seq<char>, YamlView)>, Seq<char>>>,
    Seq<char>,
);

/// The content of what [`split_matter`] returns.
pub open spec fn raw_matter(
    m: (Option<Result<Vec<(String, serde_yaml::Value)>, String>>, String),
) -> (Option<Result<Seq<(Seq<char>, YamlView)>, Seq<char>>>, Seq<char>) {
    (
        match m.0 {
            Some(Ok(fields)) => Some(Ok(raw_fields(fields@))),
            Some(Err(e)) => Some(Err(e@)),
            None => None,
        },
        m.1@,
    )
}

/// `Matter::<YAML>::parse`, and on the data that it finds
/// `Pod::deserialize` into a map of YAML values. Both depend on the text
/// alone: the map is built in the order of the keys.
#[verifier::external_body]
fn split_matter(content: &str) -> (r: (
    Option<Result<Vec<(String, serde_yaml::Value)>, String>>,
    String,
))
    ensures
        raw_matter(r) == matter_of(content@),
{
    let parsed = Matter::<YAML>::new().parse(content);
    let data = parsed.data.map(|d| d.deserialize::<IndexMap<String, serde_yaml::Value>>());
    let fields = match data {
        Some(Ok(m)) => Some(Ok(m.into_iter().collect())),
        Some(Err(e)) => Some(Err(e.to_string())),
        None => None,
    };
    (fields, parsed.content)
}

/// `entries` stored one after the other.
pub open spec fn collected(entries: Seq<(Seq<char>, YamlView)>) -> Seq<(Seq<char>, YamlView)>
    decreases entries.len(),
{
    if entries.len() == 0 {
        entries
    } else {
        stored(collected(entries.drop_last()), entries.last().0, entries.last().1)
    }
}

/// `entries` without those of the key `key`.
pub open spec fn without_key(entries: Seq<(Seq<char>, YamlView)>, key: Seq<char>) -> Seq<
    (Seq<char>, YamlView),
>
    decreases entries.len(),
{
    if entries.len() == 0 {
        entries
    } else if entries.last().0 == key {
        without_key(entries.drop_last(), key)
    } else {
        without_key(entries.drop_last(), key).push(entries.last())
    }
}

/// Front matter made of the given fields: `type` must be text where it is
/// there, and is kept apart from the other fields.
pub open spec fn frontmatter_of(entries: Seq<(Seq<char>, YamlView)>) -> Result<
    FrontmatterView,
    Seq<char>,
> {
    let m = collected(entries);
    let fields = without_key(m, "type"@);
    match lookup(m, "type"@) {
        None => Ok(FrontmatterView { doc_type: None, fields, source: Seq::empty() }),
        Some(YamlView::Text(t)) => Ok(
            FrontmatterView { doc_type: Some(t), fields, source: Seq::empty() },
        ),
        Some(other) => Err("type: expected string, got "@ + yaml_debug(other)),
    }
}

/// The content of an outcome.
pub open spec fn frontmatter_outcome(r: Result<Frontmatter, String>) -> Result<
    FrontmatterView,
    Seq<char>,
> {
    match r {
        Ok(f) => Ok(f@),
        Err(e) => Err(e@),
    }
}

/// `type` never appears among the other fields, and every other field that
/// the entries set is there with the value that was set last.
pub proof fn type_is_kept_apart(entries: Seq<(Seq<char>, YamlView)>, key: Seq<char>)
    requires
        frontmatter_of(entries) is Ok,
    ensures
        !has_key(frontmatter_of(entries)->Ok_0.fields, "type"@),
        distinct_keys(frontmatter_of(entries)->Ok_0.fields),
        key != "type"@ ==> lookup(frontmatter_of(entries)->Ok_0.fields, key) == lookup(
            collected(entries),
            key,
        ),
        frontmatter_of(entries)->Ok_0.doc_type is Some <==> has_key(collected(entries), "type"@),
{
    lookup_finds(collected(entries), "type"@);
    without_key_looked_up(collected(entries), "type"@, key);
    collected_is_distinct(entries);
    without_key_is_distinct(collected(entries), "type"@);
}

proof fn without_key_looked_up(m: Seq<(Seq<char>, YamlView)>, gone: Seq<char>, key: Seq<char>)
    ensures
        !has_key(without_key(m, gone), gone),
        key != gone ==> lookup(without_key(m, gone), key) == lookup(m, key),
    decreases m.len(),
{
    if m.len() > 0 {
        without_key_looked_up(m.drop_last(), gone, key);
        let rest = without_key(m.drop_last(), gone);
        if m.last().0 != gone {
            let w = rest.push(m.last());
            assert(w.drop_last() =~= rest);
            assert forall|i: int| 0 <= i < w.len() implies (#[trigger] w[i]).0 != gone by {
                if i < rest.len() {
                    assert(rest[i].0 != gone);
                }
            }
        }
    }
}

proof fn without_key_is_distinct(m: Seq<(Seq<char>, YamlView)>, key: Seq<char>)
    requires
        distinct_keys(m),
    ensures
        distinct_keys(without_key(m, key)),
        forall|i: int|
            0 <= i < without_key(m, key).len() ==> has_key(m, (#[trigger] without_key(m, key)[i]).0),
    decreases m.len(),
{
    if m.len() > 0 {
        let f = m.drop_last();
        assert(distinct_keys(f));
        without_key_is_distinct(f, key);
        let w = without_key(f, key);
        let r = without_key(m, key);
        assert forall|i: int| 0 <= i < r.len() implies has_key(m, (#[trigger] r[i]).0) by {
            if i < w.len() {
                assert(r[i] == w[i]);
                let j = choose|j: int| 0 <= j < f.len() && (#[trigger] f[j]).0 == w[i].0;
                assert(m[j].0 == r[i].0);
            } else {
                assert(m[m.len() - 1].0 == r[i].0);
            }
        }
        assert forall|i: int, j: int| 0 <= i < j < r.len() implies (#[trigger] r[i]).0 != (
        #[trigger] r[j]).0 by {
            if j < w.len() {
                assert(w[i].0 != w[j].0);
            } else {
                assert(r[i] == w[i]);
                let k = choose|k: int| 0 <= k < f.len() && (#[trigger] f[k]).0 == w[i].0;
                assert(m[k].0 != m[m.len() - 1].0);
            }
        }
    }
}

proof fn fields_view_stored(m: Seq<(Seq<char>, Yaml)>, key: Seq<char>, v: Yaml)
    ensures
        fields_view(stored(m, key, v)) == stored(fields_view(m), key, v@),
{
    lookup_fields(m, key);
    assert(fields_view(stored(m, key, v)) =~= stored(fields_view(m), key, v@));
}

impl Frontmatter {
    /// Front matter made of the given fields. `type` is taken out of them;
    /// it is an error if it is not text.
    pub fn from_fields(entries: Vec<(String, Yaml)>) -> (r: Result<Frontmatter, String>)
        ensures
            frontmatter_outcome(r) == frontmatter_of(entries_view(entries@)),
    {
        let ghost all = entries_view(entries@);
        let mut map: OrderedMap<Yaml> = OrderedMap::new();
        let mut i: usize = 0;
        assert(fields_view(map@) =~= collected(all.take(0)));
        while i < entries.len()
            invariant
                i <= entries.len(),
                all == entries_view(entries@),
                fields_view(map@) == collected(all.take(i as int)),
            decreases entries.len() - i,
        {
            assert(all.take(i + 1).drop_last() =~= all.take(i as int));
            let key = entries[i].0.clone();
            let value = copy_value(&entries[i].1);
            proof {
                fields_view_stored(map@, key@, value);
            }
            map.insert(key, value);
            i += 1;
        }
        assert(all.take(all.len() as int) =~= all);
        let ghost m = collected(all);
        proof {
            lookup_fields(map@, "type"@);
        }
        let doc_type = match map.get("type") {
            Some(Yaml::Text(t)) => Some(t.clone()),
            Some(other) => {
                let mut message = String::from_str("type: expected string, got ");
                let form = debug_text(other);
                message.append(form.as_str());
                return Err(message);
            },
            None => None,
        };
        let mut fields: OrderedMap<Yaml> = OrderedMap::new();
        let n: usize = map.len();
        let mut j: usize = 0;
        assert(fields_view(fields@) =~= without_key(m.take(0), "type"@));
        while j < n
            invariant
                j <= n,
                n == map@.len(),
                distinct_keys(map@),
                m == fields_view(map@),
                fields_view(fields@) == without_key(m.take(j as int), "type"@),
            decreases n - j,
        {
            proof {
                assert(m.take(j + 1).drop_last() =~= m.take(j as int));
                assert(m.take(j + 1).last() == m[j as int]);
            }
            if !map.key_at(j).as_str().eq("type") {
                let key = map.key_at(j).clone();
                let value = copy_value(map.value_at(j));
                proof {
                    let front = m.take(j as int);
                    assert(distinct_keys(front)) by {
                        assert forall|a: int, b: int| 0 <= a < b < front.len() implies (
                        #[trigger] front[a]).0 != (#[trigger] front[b]).0 by {
                            assert(map@[a].0 != map@[b].0);
                        }
                    }
                    without_key_is_distinct(front, "type"@);
                    let w = without_key(front, "type"@);
                    assert(!has_key(w, key@)) by {
                        if has_key(w, key@) {
                            let a = choose|a: int| 0 <= a < w.len() && (#[trigger] w[a]).0 == key@;
                            let b = choose|b: int|
                                0 <= b < front.len() && (#[trigger] front[b]).0 == w[a].0;
                            assert(map@[b].0 != map@[j as int].0);
                        }
                    }
                    fields_view_stored(fields@, key@, value);
                }
                fields.insert(key, value);
            }
            j += 1;
        }
        assert(m.take(m.len() as int) =~= m);
        let source: Vec<String> = Vec::new();
        assert(texts(source@) =~= Seq::empty());
        Ok(Frontmatter { doc_type, fields, source })
    }
}

/// Fields as pairs of name and value.
pub open spec fn entries_view(v: Seq<(String, Yaml)>) -> Seq<(Seq<char>, YamlView)> {
    v.map_values(|e: (String, Yaml)| (e.0@, e.1@))
}

// ── document order ────────────────────────────────────────────────────────

/// Where a field stands among the lines of front matter; behind them all
/// where no line starts it.
pub open spec fn field_rank(source: Seq<Seq<char>>, key: Seq<char>) -> int {
    match key_place(source, key, 1) {
        Some(i) => i,
        None => source.len() as int,
    }
}

/// `sorted` with `e` put before the fields at its end that stand behind it.
pub open spec fn with_field(
    sorted: Seq<(Seq<char>, YamlView)>,
    e: (Seq<char>, YamlView),
    source: Seq<Seq<char>>,
) -> Seq<(Seq<char>, YamlView)>
    decreases sorted.len(),
{
    if sorted.len() > 0 && field_rank(source, sorted.last().0) > field_rank(source, e.0) {
        with_field(sorted.drop_last(), e, source).push(sorted.last())
    } else {
        sorted.push(e)
    }
}

/// Fields in the order in which the lines of front matter start them; those
/// that no line starts come last, as they came.
pub open spec fn in_document_order(
    entries: Seq<(Seq<char>, YamlView)>,
    source: Seq<Seq<char>>,
) -> Seq<(Seq<char>, YamlView)>
    decreases entries.len(),
{
    if entries.len() == 0 {
        entries
    } else {
        with_field(in_document_order(entries.drop_last(), source), entries.last(), source)
    }
}

/// Fields come in document order: each is there as often as it came, and
/// none stands before one that an earlier line starts.
pub proof fn fields_come_in_document_order(
    entries: Seq<(Seq<char>, YamlView)>,
    source: Seq<Seq<char>>,
)
    ensures
        in_document_order(entries, source).to_multiset() == entries.to_multiset(),
        forall|i: int, j: int|
            0 <= i < j < in_document_order(entries, source).len() ==> field_rank(
                source,
                (#[trigger] in_document_order(entries, source)[i]).0,
            ) <= field_rank(source, (#[trigger] in_document_order(entries, source)[j]).0),
    decreases entries.len(),
{
    broadcast use vstd::seq_lib::group_to_multiset_ensures;

    if entries.len() > 0 {
        let front = entries.drop_last();
        fields_come_in_document_order(front, source);
        with_field_in_order(in_document_order(front, source), entries.last(), source);
        assert(front.push(entries.last()) =~= entries);
    }
}

proof fn with_field_in_order(
    sorted: Seq<(Seq<char>, YamlView)>,
    e: (Seq<char>, YamlView),
    source: Seq<Seq<char>>,
)
    requires
        forall|i: int, j: int|
            0 <= i < j < sorted.len() ==> field_rank(source, (#[trigger] sorted[i]).0)
                <= field_rank(source, (#[trigger] sorted[j]).0),
    ensures
        ({
            let r = with_field(sorted, e, source);
            &&& r.len() == sorted.len() + 1
            &&& r.to_multiset() == sorted.to_multiset().insert(e)
            &&& forall|i: int|
                0 <= i < r.len() ==> #[trigger] r[i] == e || sorted.contains(r[i])
            &&& forall|i: int, j: int|
                0 <= i < j < r.len() ==> field_rank(source, (#[trigger] r[i]).0) <= field_rank(
                    source,
                    (#[trigger] r[j]).0,
                )
        }),
    decreases sorted.len(),
{
    broadcast use vstd::seq_lib::group_to_multiset_ensures;

    if sorted.len() > 0 && field_rank(source, sorted.last().0) > field_rank(source, e.0) {
        let f = sorted.drop_last();
        let x = sorted.last();
        assert forall|i: int, j: int| 0 <= i < j < f.len() implies field_rank(
            source,
            (#[trigger] f[i]).0,
        ) <= field_rank(source, (#[trigger] f[j]).0) by {
            assert(f[i] == sorted[i] && f[j] == sorted[j]);
        }
        with_field_in_order(f, e, source);
        let r = with_field(f, e, source);
        assert forall|i: int| 0 <= i < r.len() implies field_rank(source, (#[trigger] r[i]).0)
            <= field_rank(source, x.0) && (r[i] == e || sorted.contains(r[i])) by {
            if r[i] != e {
                let k = choose|k: int| 0 <= k < f.len() && f[k] == r[i];
                assert(sorted[k] == r[i]);
                assert(sorted[sorted.len() - 1] == x);
            }
        }
        assert(sorted[sorted.len() - 1] == x);
        assert(f.push(x) =~= sorted);
        assert(r.push(x).to_multiset() =~= sorted.to_multiset().insert(e));
    } else {
        let r = sorted.push(e);
        assert forall|i: int| 0 <= i < sorted.len() implies field_rank(
            source,
            (#[trigger] sorted[i]).0,
        ) <= field_rank(source, e.0) && sorted.contains(sorted[i]) by {
            assert(sorted[sorted.len() - 1] == sorted.last());
        }
        assert forall|i: int| 0 <= i < r.len() implies #[trigger] r[i] == e || sorted.contains(
            r[i],
        ) by {
            if i < sorted.len() {
                assert(r[i] == sorted[i]);
            }
        }
    }
}

/// Putting fields in order keeps what each key is set to.
proof fn order_keeps_values(
    entries: Seq<(Seq<char>, YamlView)>,
    source: Seq<Seq<char>>,
    key: Seq<char>,
)
    ensures
        lookup(collected(in_document_order(entries, source)), key) == lookup(
            collected(entries),
            key,
        ),
    decreases entries.len(),
{
    if entries.len() > 0 {
        let front = entries.drop_last();
        let e = entries.last();
        order_keeps_values(front, source, key);
        placed_field_is_set(in_document_order(front, source), e, source, key);
        collected_is_distinct(front);
        stored_then_looked_up(collected(front), e.0, e.1, key);
    }
}

proof fn placed_field_is_set(
    sorted: Seq<(Seq<char>, YamlView)>,
    e: (Seq<char>, YamlView),
    source: Seq<Seq<char>>,
    key: Seq<char>,
)
    ensures
        lookup(collected(with_field(sorted, e, source)), key) == (if key == e.0 {
            Some(e.1)
        } else {
            lookup(collected(sorted), key)
        }),
    decreases sorted.len(),
{
    if sorted.len() > 0 && field_rank(source, sorted.last().0) > field_rank(source, e.0) {
        let f = sorted.drop_last();
        let x = sorted.last();
        placed_field_is_set(f, e, source, key);
        let r = with_field(f, e, source);
        assert(r.push(x).drop_last() =~= r);
        collected_is_distinct(r);
        collected_is_distinct(f);
        stored_then_looked_up(collected(r), x.0, x.1, key);
        stored_then_looked_up(collected(f), x.0, x.1, key);
    } else {
        assert(sorted.push(e).drop_last() =~= sorted);
        collected_is_distinct(sorted);
        stored_then_looked_up(collected(sorted), e.0, e.1, key);
    }
}

proof fn collected_is_distinct(entries: Seq<(Seq<char>, YamlView)>)
    ensures
        distinct_keys(collected(entries)),
    decreases entries.len(),
{
    if entries.len() > 0 {
        let front = entries.drop_last();
        collected_is_distinct(front);
        stored_then_looked_up(collected(front), entries.last().0, entries.last().1, Seq::empty());
    }
}

/// The rank of a field.
fn rank_of(source: &Vec<String>, key: &str) -> (r: usize)
    ensures
        r == field_rank(texts(source@), key@),
{
    match find_key(source, key) {
        Some(i) => i,
        None => source.len(),
    }
}

fn put_field(v: &mut Vec<(String, Yaml)>, e: (String, Yaml), source: &Vec<String>)
    ensures
        entries_view(final(v)@) == with_field(
            entries_view(old(v)@),
            (e.0@, e.1@),
            texts(source@),
        ),
{
    let ghost s = entries_view(v@);
    let ghost q = (e.0@, e.1@);
    let ghost ls = texts(source@);
    let rank: usize = rank_of(source, e.0.as_str());
    let mut k: usize = v.len();
    assert(s.take(s.len() as int) =~= s);
    assert(with_field(s.take(s.len() as int), q, ls) + s.skip(s.len() as int) =~= with_field(
        s,
        q,
        ls,
    ));
    while k > 0 && rank_of(source, v[k - 1].0.as_str()) > rank
        invariant
            k <= v.len(),
            s == entries_view(v@),
            s == entries_view(old(v)@),
            ls == texts(source@),
            rank == field_rank(ls, q.0),
            with_field(s, q, ls) == with_field(s.take(k as int), q, ls) + s.skip(k as int),
        decreases k,
    {
        let ghost t = s.take(k as int);
        assert(t.drop_last() =~= s.take(k - 1));
        assert(t.last() == (v@[k - 1].0@, v@[k - 1].1@));
        assert(with_field(t, q, ls) =~= with_field(s.take(k - 1), q, ls).push(s[k - 1]));
        assert(with_field(t, q, ls) + s.skip(k as int) =~= with_field(s.take(k - 1), q, ls)
            + s.skip(k - 1));
        k -= 1;
    }
    proof {
        let t = s.take(k as int);
        if k > 0 {
            assert(t.last() == (v@[k - 1].0@, v@[k - 1].1@));
        }
        assert(with_field(t, q, ls) == t.push(q));
    }
    v.insert(k, e);
    assert(entries_view(v@) =~= s.take(k as int).push(q) + s.skip(k as int));
}

/// Fields in document order.
fn order_fields(entries: Vec<(String, Yaml)>, source: &Vec<String>) -> (r: Vec<(String, Yaml)>)
    ensures
        entries_view(r@) == in_document_order(entries_view(entries@), texts(source@)),
{
    let ghost orig = entries@;
    let ghost all = entries_view(orig);
    let mut rest = entries;
    let mut out: Vec<(String, Yaml)> = Vec::new();
    let ghost mut done: int = 0;
    assert(orig.skip(0) =~= orig);
    assert(all.take(0) =~= Seq::empty());
    assert(entries_view(out@) =~= Seq::empty());
    while rest.len() > 0
        invariant
            0 <= done <= orig.len(),
            all == entries_view(orig),
            rest@ == orig.skip(done),
            entries_view(out@) == in_document_order(all.take(done), texts(source@)),
        decreases rest@.len(),
    {
        assert(all.take(done + 1).drop_last() =~= all.take(done));
        assert(all.take(done + 1).last() == (orig[done].0@, orig[done].1@));
        assert(rest@[0] == orig[done]);
        let e = rest.remove(0);
        put_field(&mut out, e, source);
        proof {
            done = done + 1;
            assert(rest@ =~= orig.skip(done));
        }
    }
    assert(all.take(done) =~= all);
    out
}

/// The fields in the library's form.
fn convert_fields(fields: Vec<(String, serde_yaml::Value)>) -> (r: Vec<(String, Yaml)>)
    ensures
        entries_view(r@) == raw_fields(fields@),
{
    let mut rest = fields;
    let mut out: Vec<(String, Yaml)> = Vec::new();
    let ghost all = fields@;
    assert(rest@ =~= all.skip(0));
    while rest.len() > 0
        invariant
            rest@.len() + out@.len() == all.len(),
            rest@ == all.skip(out@.len() as int),
            forall|k: int|
                0 <= k < out@.len() ==> (#[trigger] out@[k]).0@ == all[k].0@ && out@[k].1@
                    == yaml_content(all[k].1),
        decreases rest@.len(),
    {
        let (key, value) = rest.remove(0);
        out.push((key, Yaml::from_serde(value)));
        assert(rest@ =~= all.skip(out@.len() as int));
    }
    assert(entries_view(out@) =~= raw_fields(all));
    out
}

// ── documents ─────────────────────────────────────────────────────────────

/// The document of a text whose front matter has the given fields (if it
/// has any that are a mapping), whose remaining text is `body`, and in which
/// the parser finds the given events. Front matter that is no mapping, or
/// whose `type` is not text, is left out.
pub open spec fn built_document(
    content: Seq<char>,
    fields: Option<Result<Seq<(Seq<char>, YamlView)>, Seq<char>>>,
    body: Seq<char>,
    ev: Seq<(MdEventView, usize)>,
) -> DocumentView {
    DocumentView {
        frontmatter: match fields {
            Some(Ok(entries)) => match frontmatter_of(
                in_document_order(entries, matter_source(content)),
            ) {
                Ok(f) => Some(
                    FrontmatterView {
                        doc_type: f.doc_type,
                        fields: f.fields,
                        source: matter_source(content),
                    },
                ),
                Err(_) => None,
            },
            _ => None,
        },
        blocks: placed_blocks(ev, encode_utf8(body), skipped_lines(content, body)),
    }
}

/// Why front matter with the given fields is not usable.
pub open spec fn frontmatter_error(
    fields: Option<Result<Seq<(Seq<char>, YamlView)>, Seq<char>>>,
) -> Option<Seq<char>> {
    match fields {
        Some(Ok(entries)) => match frontmatter_of(entries) {
            Ok(_) => None,
            Err(e) => Some(e),
        },
        Some(Err(e)) => Some(e),
        None => None,
    }
}

/// The content of fields that were found, or the message why there are none.
pub open spec fn fields_outcome(f: Option<Result<Vec<(String, Yaml)>, String>>) -> Option<
    Result<Seq<(Seq<char>, YamlView)>, Seq<char>>,
> {
    match f {
        Some(Ok(v)) => Some(Ok(entries_view(v@))),
        Some(Err(e)) => Some(Err(e@)),
        None => None,
    }
}

/// Whether a text starts with a line that opens front matter.
pub open spec fn opens_matter(content: Seq<char>) -> bool {
    match cut_once(content, "\n"@) {
        Some((first, _)) => trimmed_end(first) == "---"@,
        None => false,
    }
}

/// Whether `l` closes front matter.
pub open spec fn is_closing(l: Seq<char>) -> bool {
    trimmed_end(l) == "---"@
}

/// Whether one of the lines `ls` closes front matter.
pub open spec fn has_closing(ls: Seq<Seq<char>>) -> bool {
    exists|i: int| 0 <= i < ls.len() && #[trigger] is_closing(ls[i])
}

/// Whether a line behind the first closes the front matter of a text.
pub open spec fn closes_matter(content: Seq<char>) -> bool {
    match cut_once(content, "\n"@) {
        Some((_, rest)) => has_closing(lines_of(rest)),
        None => false,
    }
}

/// The position of the first of the lines `ls` from number `i` on that closes
/// front matter; their number where none does.
pub open spec fn closing_at(ls: Seq<Seq<char>>, i: int) -> int
    decreases ls.len() - i,
{
    if i >= ls.len() || is_closing(ls[i]) {
        i
    } else {
        closing_at(ls, i + 1)
    }
}

/// The lines of front matter, from the one that opens it up to the one that
/// closes it, which is left out.
pub open spec fn matter_source(content: Seq<char>) -> Seq<Seq<char>> {
    match cut_once(content, "\n"@) {
        Some((first, rest)) => if is_closing(first) {
            seq![first] + lines_of(rest).take(closing_at(lines_of(rest), 0))
        } else {
            Seq::empty()
        },
        None => Seq::empty(),
    }
}

/// The lines of front matter.
fn read_source(content: &str) -> (r: Vec<String>)
    ensures
        texts(r@) == matter_source(content@),
{
    let mut out: Vec<String> = Vec::new();
    assert(texts(out@) =~= Seq::empty());
    if let Some((first, rest)) = split_once(content, "\n") {
        if trim_end(first.as_str()).as_str().eq("---") {
            let ghost opening = first@;
            out.push(first);
            let ls = lines(rest.as_str());
            push_until_closing(&mut out, &ls);
            assert(texts(out@) =~= seq![opening] + lines_of(rest@).take(
                closing_at(lines_of(rest@), 0),
            ));
        }
    }
    out
}

fn push_until_closing(out: &mut Vec<String>, ls: &Vec<String>)
    ensures
        texts(final(out)@) == texts(old(out)@) + texts(ls@).take(closing_at(texts(ls@), 0)),
{
    let ghost all = texts(ls@);
    let ghost start = texts(out@);
    let mut i: usize = 0;
    assert(texts(out@) =~= start + all.take(0));
    while i < ls.len() && !trim_end(ls[i].as_str()).as_str().eq("---")
        invariant
            i <= ls.len(),
            all == texts(ls@),
            start == texts(old(out)@),
            closing_at(all, 0) == closing_at(all, i as int),
            texts(out@) == start + all.take(i as int),
        decreases ls.len() - i,
    {
        let ghost was = out@;
        assert(all[i as int] == ls@[i as int]@);
        out.push(ls[i].clone());
        assert(texts(out@) =~= texts(was).push(all[i as int]));
        assert(start + all.take(i + 1) =~= (start + all.take(i as int)).push(all[i as int]));
        i += 1;
    }
    proof {
        if i < ls.len() {
            assert(all[i as int] == ls@[i as int]@);
        }
        assert(closing_at(all, i as int) == i);
    }
}

/// The text that blocks are read from: what stands behind the front matter,
/// or the whole where it is too short to open front matter, or where front
/// matter is opened and never closed.
pub open spec fn body_of(content: Seq<char>, behind: Seq<char>) -> Seq<char> {
    if content.len() <= 3 || (opens_matter(content) && !closes_matter(content)) {
        content
    } else {
        behind
    }
}

/// Whether one of the lines of `text` closes front matter.
fn finds_closing(text: &str) -> (r: bool)
    ensures
        r == has_closing(lines_of(text@)),
{
    let ls = lines(text);
    let ghost all = lines_of(text@);
    assert(all.len() == ls@.len());
    let mut i: usize = 0;
    while i < ls.len()
        invariant
            i <= ls.len(),
            all == lines_of(text@),
            texts(ls@) == all,
            forall|k: int| 0 <= k < i ==> !#[trigger] is_closing(all[k]),
        decreases ls.len() - i,
    {
        assert(all[i as int] == ls@[i as int]@);
        if trim_end(ls[i].as_str()).as_str().eq("---") {
            assert(is_closing(all[i as int]));
            return true;
        }
        i += 1;
    }
    false
}

/// Whether the whole text is what blocks are read from.
fn is_all_body(content: &str) -> (r: bool)
    ensures
        r == (content@.len() <= 3 || (opens_matter(content@) && !closes_matter(content@))),
{
    if chars_of(content).len() <= 3 {
        return true;
    }
    match split_once(content, "\n") {
        Some((first, rest)) => trim_end(first.as_str()).as_str().eq("---") && !finds_closing(
            rest.as_str(),
        ),
        None => false,
    }
}

/// The document made of front matter fields, the text behind the front
/// matter and its events.
pub fn build_document(
    content: &str,
    fields: Option<Result<Vec<(String, Yaml)>, String>>,
    body: &str,
    events: &Vec<(MdEvent, usize)>,
) -> (r: Document)
    ensures
        r@ == built_document(content@, fields_outcome(fields), body@, events_view(events@)),
{
    let frontmatter = match fields {
        Some(Ok(entries)) => {
            let source = read_source(content);
            match Frontmatter::from_fields(order_fields(entries, &source)) {
                Ok(f) => Some(Frontmatter { doc_type: f.doc_type, fields: f.fields, source }),
                Err(_) => None,
            }
        },
        _ => None,
    };
    let (mut blocks, starts) = parse_blocks(events, 0, events.len());
    let skipped = count_skipped_lines(content, body);
    attach_line_numbers(&mut blocks, &starts, body, skipped);
    Document { frontmatter, blocks }
}

/// Why front matter with the given fields is not usable.
pub fn explain_frontmatter(fields: Option<Result<Vec<(String, Yaml)>, String>>) -> (r: Option<
    String,
>)
    ensures
        option_text(r) == frontmatter_error(fields_outcome(fields)),
{
    match fields {
        Some(Ok(entries)) => match Frontmatter::from_fields(entries) {
            Ok(_) => None,
            Err(e) => Some(e),
        },
        Some(Err(e)) => Some(e),
        None => None,
    }
}

/// The fields of a text's front matter and the text behind it.
fn matter_fields(content: &str) -> (r: (Option<Result<Vec<(String, Yaml)>, String>>, String))
    ensures
        (fields_outcome(r.0), r.1@) == matter_of(content@),
{
    let (fields, body) = split_matter(content);
    match fields {
        Some(Ok(v)) => (Some(Ok(convert_fields(v))), body),
        Some(Err(e)) => (Some(Err(e)), body),
        None => (None, body),
    }
}

/// Parse markdown content into a document.
pub fn parse(content: &str) -> (r: Document)
    ensures
        r@ == built_document(
            content@,
            matter_of(content@).0,
            body_of(content@, matter_of(content@).1),
            events_of(body_of(content@, matter_of(content@).1)),
        ),
{
    let (fields, behind) = matter_fields(content);
    let body = if is_all_body(content) {
        String::from_str(content)
    } else {
        behind
    };
    let events = markdown_events(body.as_str());
    build_document(content, fields, body.as_str(), &events)
}

/// Get the front matter parse error from raw content, if any.
///
/// Returns `Some(message)` if front matter exists but is not usable, `None`
/// if there is no front matter or it parsed successfully.
pub fn get_frontmatter_error(content: &str) -> (r: Option<String>)
    ensures
        option_text(r) == frontmatter_error(matter_of(content@).0),
{
    let (fields, _body) = matter_fields(content);
    explain_frontmatter(fields)
}

/// Front matter is usable exactly when there is no error to report, unless
/// there is none at all.
pub proof fn frontmatter_or_error(
    content: Seq<char>,
    fields: Option<Result<Seq<(Seq<char>, YamlView)>, Seq<char>>>,
    body: Seq<char>,
    ev: Seq<(MdEventView, usize)>,
)
    ensures
        fields is Some ==> (built_document(content, fields, body, ev).frontmatter is Some
            <==> frontmatter_error(fields) is None),
        fields is None ==> built_document(content, fields, body, ev).frontmatter is None
            && frontmatter_error(fields) is None,
{
    if let Some(Ok(entries)) = fields {
        order_keeps_values(entries, matter_source(content), "type"@);
    }
}

/// The line that front matter gives for a field is a line of the text, behind
/// the first, on which that field starts.
pub proof fn field_lines_are_source_lines(
    content: Seq<char>,
    fields: Option<Result<Seq<(Seq<char>, YamlView)>, Seq<char>>>,
    body: Seq<char>,
    ev: Seq<(MdEventView, usize)>,
    key: Seq<char>,
)
    requires
        lines_of(content).len() <= usize::MAX,
    ensures
        built_document(content, fields, body, ev).frontmatter matches Some(fm) ==> (key_line(
            fm,
            key,
        ) matches Some(n) ==> 1 < n <= lines_of(content).len() && names_key(
            lines_of(content)[n - 1],
            key,
        )),
{
    let source = matter_source(content);
    key_place_names(source, key, 1);
    lines_cut(content);
    if let Some((_, rest)) = cut_once(content, "\n"@) {
        let ls = lines_of(rest);
        closing_bounds(ls, 0);
        if let Some(i) = key_place(source, key, 1) {
            assert(source[i] == ls[i - 1]);
            assert(lines_of(content)[i] == ls[i - 1]);
        }
    }
}

proof fn key_place_names(source: Seq<Seq<char>>, key: Seq<char>, i: int)
    requires
        0 <= i,
    ensures
        key_place(source, key, i) matches Some(k) ==> i <= k < source.len() && names_key(
            source[k],
            key,
        ),
    decreases source.len() - i,
{
    if i < source.len() && !names_key(source[i], key) {
        key_place_names(source, key, i + 1);
    }
}

proof fn closing_bounds(ls: Seq<Seq<char>>, i: int)
    requires
        0 <= i <= ls.len(),
    ensures
        i <= closing_at(ls, i) <= ls.len(),
    decreases ls.len() - i,
{
    if i < ls.len() && !is_closing(ls[i]) {
        closing_bounds(ls, i + 1);
    }
}

// ── where blocks stand ────────────────────────────────────────────────────

proof fn line_feeds_are_counted(b: Seq<u8>)
    ensures
        line_feeds(b) == b.filter(|x: u8| x == 10).len(),
    decreases b.len(),
{
    reveal(Seq::filter);
    if b.len() > 0 {
        line_feeds_are_counted(b.drop_last());
    }
}

/// The line of a place is one more than the line feeds before it, behind the
/// lines that were skipped.
pub proof fn a_place_has_its_line(bytes: Seq<u8>, offset: usize, skipped: nat)
    requires
        offset <= bytes.len(),
        bytes.len() + skipped + 1 <= usize::MAX,
    ensures
        line_at(bytes, offset, skipped) == bytes.take(offset as int).filter(
            |x: u8| x == 10,
        ).len() + skipped + 1,
{
    let b = bytes.take(offset as int);
    line_feeds_are_counted(b);
    feeds_are_bytes(b);
}

proof fn feeds_are_bytes(b: Seq<u8>)
    ensures
        line_feeds(b) <= b.len(),
    decreases b.len(),
{
    if b.len() > 0 {
        feeds_are_bytes(b.drop_last());
    }
}

/// Giving a block its line changes nothing else of it.
pub proof fn a_line_changes_nothing_else(b: BlockView, x: int, y: int)
    ensures
        with_line(b, block_line(b)) == b,
        b != BlockView::BlankLine ==> block_line(with_line(b, x)) == x,
        with_line(with_line(b, x), y) == with_line(b, y),
{
}

/// Blocks get their lines in order, blank lines none.
pub proof fn blocks_get_their_lines(blocks: Seq<BlockView>, lines: Seq<int>, i: int)
    requires
        0 <= i < blocks.len(),
        filled(blocks).len() == lines.len(),
    ensures
        with_lines(blocks, lines).len() == blocks.len(),
        blocks[i] == BlockView::BlankLine ==> with_lines(blocks, lines)[i] == BlockView::BlankLine,
        blocks[i] != BlockView::BlankLine ==> with_lines(blocks, lines)[i] == with_line(
            blocks[i],
            lines[filled(blocks.take(i)).len() as int],
        ),
{
    filled_prefix(blocks, i);
}

/// Front matter takes the value that a field was given last; a `type` is the
/// type's name, and must be text.
pub proof fn the_last_value_counts(
    a: Seq<(Seq<char>, YamlView)>,
    key: Seq<char>,
    v: YamlView,
    b: Seq<(Seq<char>, YamlView)>,
)
    requires
        !has_key(b, key),
    ensures
        lookup(collected(a.push((key, v)) + b), key) == Some(v),
        key == "type"@ ==> (v matches YamlView::Text(t) ==> (frontmatter_of(
            a.push((key, v)) + b,
        ) matches Ok(f) && f.doc_type == Some(t))),
        key == "type"@ && !(v is Text) ==> frontmatter_of(a.push((key, v)) + b) is Err,
        key != "type"@ ==> (frontmatter_of(a.push((key, v)) + b) matches Ok(f) ==> lookup(
            f.fields,
            key,
        ) == Some(v)),
    decreases b.len(),
{
    let all = a.push((key, v)) + b;
    last_is_looked_up(a, key, v, b);
    if frontmatter_of(all) is Ok {
        type_is_kept_apart(all, key);
    }
}

proof fn last_is_looked_up(
    a: Seq<(Seq<char>, YamlView)>,
    key: Seq<char>,
    v: YamlView,
    b: Seq<(Seq<char>, YamlView)>,
)
    requires
        !has_key(b, key),
    ensures
        distinct_keys(collected(a.push((key, v)) + b)),
        lookup(collected(a.push((key, v)) + b), key) == Some(v),
    decreases b.len(),
{
    let all = a.push((key, v)) + b;
    if b.len() == 0 {
        assert(all =~= a.push((key, v)));
        assert(all.drop_last() =~= a);
        collected_keys_differ(a);
        stored_then_looked_up(collected(a), key, v, key);
    } else {
        let f = b.drop_last();
        assert(b[b.len() - 1].0 != key);
        assert forall|i: int| 0 <= i < f.len() implies (#[trigger] f[i]).0 != key by {
            assert(f[i] == b[i]);
        }
        last_is_looked_up(a, key, v, f);
        assert(all.drop_last() =~= a.push((key, v)) + f);
        assert(all.last() == b.last());
        stored_then_looked_up(collected(all.drop_last()), b.last().0, b.last().1, key);
    }
}

proof fn collected_keys_differ(a: Seq<(Seq<char>, YamlView)>)
    ensures
        distinct_keys(collected(a)),
    decreases a.len(),
{
    if a.len() > 0 {
        collected_keys_differ(a.drop_last());
        stored_then_looked_up(collected(a.drop_last()), a.last().0, a.last().1, a.last().0);
    }
}

/// The lines of front matter are those from the line of hyphens that opens a
/// text up to the next such line.
pub proof fn front_matter_stands_between_hyphens(first: Seq<char>, rest: Seq<char>, i: int)
    requires
        trimmed_end(first) == "---"@,
        !first.contains('\n'),
        0 <= i <= lines_of(rest).len(),
        i < lines_of(rest).len() ==> trimmed_end(lines_of(rest)[i]) == "---"@,
        forall|k: int| 0 <= k < i ==> trimmed_end(#[trigger] lines_of(rest)[k]) != "---"@,
    ensures
        opens_matter(first + seq!['\n'] + rest),
        closes_matter(first + seq!['\n'] + rest) <==> i < lines_of(rest).len(),
        matter_source(first + seq!['\n'] + rest) == seq![first] + lines_of(rest).take(i),
{
    let s = first + seq!['\n'] + rest;
    reveal_strlit("\n");
    assert("\n"@ =~= seq!['\n']);
    crate::text::first_at_is_first(s, "\n"@, 0);
    let n = first.len() as int;
    assert(s.subrange(n, n + 1) =~= "\n"@);
    assert(crate::text::stands_at(s, "\n"@, n));
    assert forall|k: int| 0 <= k < n implies !crate::text::stands_at(s, "\n"@, k) by {
        assert(s[k] == first[k]);
        assert(first.contains(s[k]));
        if crate::text::stands_at(s, "\n"@, k) {
            assert(s.subrange(k, k + 1)[0] == s[k]);
        }
    }
    assert(s.take(n) =~= first);
    assert(s.skip(n + 1) =~= rest);
    let ls = lines_of(rest);
    the_closing_line_is_first(ls, 0, i);
    if i < ls.len() {
        assert(is_closing(ls[i]));
    } else if has_closing(ls) {
        let k = choose|k: int| 0 <= k < ls.len() && #[trigger] is_closing(ls[k]);
        assert(trimmed_end(ls[k]) == "---"@);
    }
}

proof fn the_closing_line_is_first(ls: Seq<Seq<char>>, from: int, i: int)
    requires
        0 <= from <= i <= ls.len(),
        i < ls.len() ==> trimmed_end(ls[i]) == "---"@,
        forall|k: int| 0 <= k < i ==> trimmed_end(#[trigger] ls[k]) != "---"@,
    ensures
        closing_at(ls, from) == i,
    decreases i - from,
{
    if from < i {
        assert(trimmed_end(ls[from]) != "---"@);
        the_closing_line_is_first(ls, from + 1, i);
    }
}

/// A text that opens front matter and never closes it is all body.
pub proof fn unclosed_front_matter_is_body(content: Seq<char>, behind: Seq<char>)
    ensures
        opens_matter(content) && !closes_matter(content) ==> body_of(content, behind) == content,
        content.len() > 3 && (opens_matter(content) ==> closes_matter(content)) ==> body_of(
            content,
            behind,
        ) == behind,
{
}

} // verus!
