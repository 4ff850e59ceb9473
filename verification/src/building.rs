//! What the events of a text build: the document that they spell.

use crate::ast::{
    block_line, inlines_markdown, inlines_text, is_break, BlockView, InlineView, ListItemView,
};
use crate::events::{MdEnd, MdEventView, MdTagView};
use crate::parse::{
    a_line_changes_nothing_else, after, blocks_from, code_from, filled, html_from, inlines_from,
    item_from, items_from, leaf_inline, line_at, list_block, placed_blocks, quote_end,
    quoted_blocks, row_from, separated, separated_is_separated, span_end, span_inline, start_lines,
    table_from, with_line, with_lines,
};
use vstd::prelude::*;

verus! {

// ── inlines ───────────────────────────────────────────────────────────────

/// The events that spell an inline.
pub open spec fn spelled_inline(i: InlineView) -> Seq<MdEventView>
    decreases i,
{
    match i {
        InlineView::Text(s) => seq![MdEventView::Text(s)],
        InlineView::Spelled { text, source } => seq![MdEventView::Spelled { text, source }],
        InlineView::Strong(v) => seq![MdEventView::Start(MdTagView::Strong)] + spelled_inlines(v)
            + seq![MdEventView::End(MdEnd::Strong)],
        InlineView::Emphasis(v) => seq![MdEventView::Start(MdTagView::Emphasis)]
            + spelled_inlines(v) + seq![MdEventView::End(MdEnd::Emphasis)],
        InlineView::Strikethrough(v) => seq![MdEventView::Start(MdTagView::Strikethrough)]
            + spelled_inlines(v) + seq![MdEventView::End(MdEnd::Strikethrough)],
        InlineView::Link { text, url } => seq![
            MdEventView::Start(MdTagView::Link { url, title: Seq::empty(), auto: false }),
            MdEventView::Text(text),
            MdEventView::End(MdEnd::Link),
        ],
        InlineView::TitledLink { text, url, title } => seq![
            MdEventView::Start(MdTagView::Link { url, title, auto: false }),
            MdEventView::Text(text),
            MdEventView::End(MdEnd::Link),
        ],
        InlineView::StyledLink { content, url, title } => seq![
            MdEventView::Start(MdTagView::Link { url, title, auto: false }),
        ] + spelled_inlines(content) + seq![MdEventView::End(MdEnd::Link)],
        InlineView::Autolink(url) => seq![
            MdEventView::Start(MdTagView::Link { url, title: Seq::empty(), auto: true }),
            MdEventView::Text(url),
            MdEventView::End(MdEnd::Link),
        ],
        InlineView::Image { alt, url } => seq![
            MdEventView::Start(MdTagView::Image { url, title: Seq::empty() }),
            MdEventView::Text(alt),
            MdEventView::End(MdEnd::Image),
        ],
        InlineView::TitledImage { alt, url, title } => seq![
            MdEventView::Start(MdTagView::Image { url, title }),
            MdEventView::Text(alt),
            MdEventView::End(MdEnd::Image),
        ],
        InlineView::StyledImage { content, url, title } => seq![
            MdEventView::Start(MdTagView::Image { url, title }),
        ] + spelled_inlines(content) + seq![MdEventView::End(MdEnd::Image)],
        InlineView::Code(s) => seq![MdEventView::Code(s)],
        InlineView::Html(s) => seq![MdEventView::InlineHtml(s)],
        InlineView::SoftBreak => seq![MdEventView::SoftBreak],
        InlineView::HardBreak => seq![MdEventView::HardBreak],
    }
}

/// The events that spell inlines, one after the other.
pub open spec fn spelled_inlines(v: Seq<InlineView>) -> Seq<MdEventView>
    decreases v,
{
    if v.len() == 0 {
        Seq::empty()
    } else {
        spelled_inline(v[0]) + spelled_inlines(v.drop_first())
    }
}

/// Whether an inline is in the form in which it is kept: a link or an image
/// is titled where it has a title, and keeps its inlines only where they are
/// not written as they read.
pub open spec fn is_regular(i: InlineView) -> bool
    decreases i,
{
    match i {
        InlineView::Strong(v) => all_regular(v),
        InlineView::Emphasis(v) => all_regular(v),
        InlineView::Strikethrough(v) => all_regular(v),
        InlineView::TitledLink { title, .. } => title.len() > 0,
        InlineView::TitledImage { title, .. } => title.len() > 0,
        InlineView::StyledLink { content, .. } => all_regular(content) && inlines_markdown(
            content,
            true,
        ) != inlines_text(content),
        InlineView::StyledImage { content, .. } => all_regular(content) && inlines_markdown(
            content,
            true,
        ) != inlines_text(content),
        _ => true,
    }
}

/// Whether every inline is in the form in which it is kept.
pub open spec fn all_regular(v: Seq<InlineView>) -> bool
    decreases v,
{
    forall|k: int| #![trigger v[k]] 0 <= k < v.len() ==> is_regular(v[k])
}

/// Whether the events of `ev` from `pos` on are those of `e`.
pub open spec fn says(ev: Seq<(MdEventView, usize)>, pos: int, e: Seq<MdEventView>) -> bool {
    &&& 0 <= pos
    &&& pos + e.len() <= ev.len()
    &&& forall|k: int| 0 <= k < e.len() ==> (#[trigger] ev[pos + k]).0 == e[k]
}

proof fn says_both(
    ev: Seq<(MdEventView, usize)>,
    pos: int,
    a: Seq<MdEventView>,
    b: Seq<MdEventView>,
)
    requires
        says(ev, pos, a + b),
    ensures
        says(ev, pos, a),
        says(ev, pos + a.len(), b),
{
    let e = a + b;
    assert forall|k: int| 0 <= k < a.len() implies (#[trigger] ev[pos + k]).0 == a[k] by {
        assert(e[k] == a[k]);
    }
    let p = pos + a.len();
    assert forall|k: int| 0 <= k < b.len() implies (#[trigger] ev[p + k]).0 == b[k] by {
        let j = a.len() + k;
        assert(ev[pos + j].0 == e[j]);
        assert(e[j] == b[k]);
    }
}

proof fn says_one(ev: Seq<(MdEventView, usize)>, pos: int, x: MdEventView)
    requires
        says(ev, pos, seq![x]),
    ensures
        0 <= pos < ev.len(),
        ev[pos].0 == x,
{
    assert(ev[pos + 0].0 == seq![x][0]);
}

proof fn says_wrapped(
    ev: Seq<(MdEventView, usize)>,
    pos: int,
    x: MdEventView,
    e: Seq<MdEventView>,
    y: MdEventView,
)
    requires
        says(ev, pos, seq![x] + e + seq![y]),
    ensures
        0 <= pos,
        pos + e.len() + 2 <= ev.len(),
        ev[pos].0 == x,
        says(ev, pos + 1, e),
        ev[pos + 1 + e.len()].0 == y,
{
    says_both(ev, pos, seq![x] + e, seq![y]);
    says_both(ev, pos, seq![x], e);
    says_one(ev, pos, x);
    says_one(ev, pos + 1 + e.len(), y);
}

proof fn a_plain_text_reads_as_written(t: Seq<char>)
    ensures
        inlines_markdown(seq![InlineView::Text(t)], true) == t,
        inlines_text(seq![InlineView::Text(t)]) == t,
{
    let v = seq![InlineView::Text(t)];
    reveal_with_fuel(inlines_markdown, 3);
    reveal_with_fuel(inlines_text, 3);
    assert(v.drop_last() =~= Seq::empty());
    assert(inlines_markdown(v, true) =~= t);
    assert(inlines_text(v) =~= t);
}

proof fn a_span_is_built(
    tag: MdTagView,
    end: MdEnd,
    inner: Seq<InlineView>,
    x: InlineView,
    ev: Seq<(MdEventView, usize)>,
    pos: int,
    stop: int,
    outer: MdEnd,
    acc: Seq<InlineView>,
)
    requires
        span_end(tag) == Some(end),
        span_inline(tag, inner) == x,
        all_regular(inner),
        says(
            ev,
            pos,
            seq![MdEventView::Start(tag)] + spelled_inlines(inner) + seq![MdEventView::End(end)],
        ),
        pos + spelled_inlines(inner).len() + 2 <= stop <= ev.len(),
    ensures
        inlines_from(ev, pos, stop, outer, acc) == inlines_from(
            ev,
            pos + spelled_inlines(inner).len() + 2,
            stop,
            outer,
            acc.push(x),
        ),
    decreases inner, 1nat,
{
    let e = spelled_inlines(inner);
    says_wrapped(ev, pos, MdEventView::Start(tag), e, MdEventView::End(end));
    inlines_are_built(inner, ev, pos + 1, stop, end, Seq::empty());
    let none: Seq<InlineView> = Seq::empty();
    assert(none + inner =~= inner);
    let p = pos + 1 + e.len();
    assert(inlines_from(ev, p, stop, end, inner) == (inner, p + 1));
    assert(inlines_from(ev, pos + 1, stop, end, none) == (inner, p + 1));
    assert(after(pos, p + 1) == p + 1);
}

proof fn an_inline_is_built(
    x: InlineView,
    ev: Seq<(MdEventView, usize)>,
    pos: int,
    stop: int,
    end: MdEnd,
    acc: Seq<InlineView>,
)
    requires
        is_regular(x),
        says(ev, pos, spelled_inline(x)),
        pos + spelled_inline(x).len() <= stop <= ev.len(),
    ensures
        inlines_from(ev, pos, stop, end, acc) == inlines_from(
            ev,
            pos + spelled_inline(x).len(),
            stop,
            end,
            acc.push(x),
        ),
    decreases x, 0nat,
{
    let none: Seq<char> = Seq::empty();
    reveal_with_fuel(spelled_inline, 2);
    reveal_with_fuel(is_regular, 2);
    match x {
        InlineView::Strong(v) => {
            a_span_is_built(MdTagView::Strong, MdEnd::Strong, v, x, ev, pos, stop, end, acc);
        },
        InlineView::Emphasis(v) => {
            a_span_is_built(MdTagView::Emphasis, MdEnd::Emphasis, v, x, ev, pos, stop, end, acc);
        },
        InlineView::Strikethrough(v) => {
            a_span_is_built(
                MdTagView::Strikethrough,
                MdEnd::Strikethrough,
                v,
                x,
                ev,
                pos,
                stop,
                end,
                acc,
            );
        },
        InlineView::StyledLink { content, url, title } => {
            let tag = MdTagView::Link { url, title, auto: false };
            a_span_is_built(tag, MdEnd::Link, content, x, ev, pos, stop, end, acc);
        },
        InlineView::StyledImage { content, url, title } => {
            let tag = MdTagView::Image { url, title };
            a_span_is_built(tag, MdEnd::Image, content, x, ev, pos, stop, end, acc);
        },
        InlineView::Link { text, url } => {
            let tag = MdTagView::Link { url, title: none, auto: false };
            a_texted_span_is_built(tag, MdEnd::Link, text, x, ev, pos, stop, end, acc);
        },
        InlineView::TitledLink { text, url, title } => {
            let tag = MdTagView::Link { url, title, auto: false };
            a_texted_span_is_built(tag, MdEnd::Link, text, x, ev, pos, stop, end, acc);
        },
        InlineView::Autolink(url) => {
            let tag = MdTagView::Link { url, title: none, auto: true };
            a_texted_span_is_built(tag, MdEnd::Link, url, x, ev, pos, stop, end, acc);
        },
        InlineView::Image { alt, url } => {
            let tag = MdTagView::Image { url, title: none };
            a_texted_span_is_built(tag, MdEnd::Image, alt, x, ev, pos, stop, end, acc);
        },
        InlineView::TitledImage { alt, url, title } => {
            let tag = MdTagView::Image { url, title };
            a_texted_span_is_built(tag, MdEnd::Image, alt, x, ev, pos, stop, end, acc);
        },
        _ => {
            let e = spelled_inline(x);
            assert(e =~= seq![e[0]]);
            says_one(ev, pos, e[0]);
            assert(leaf_inline(e[0]) == Some(x));
        },
    }
}

proof fn a_texted_span_is_built(
    tag: MdTagView,
    end: MdEnd,
    text: Seq<char>,
    x: InlineView,
    ev: Seq<(MdEventView, usize)>,
    pos: int,
    stop: int,
    outer: MdEnd,
    acc: Seq<InlineView>,
)
    requires
        span_end(tag) == Some(end),
        span_inline(tag, seq![InlineView::Text(text)]) == x || {
            &&& tag matches MdTagView::Link { url, title, auto } && x == (if auto {
                InlineView::Autolink(url)
            } else if title.len() > 0 {
                InlineView::TitledLink { text, url, title }
            } else {
                InlineView::Link { text, url }
            })
        } || {
            &&& tag matches MdTagView::Image { url, title } && x == (if title.len() > 0 {
                InlineView::TitledImage { alt: text, url, title }
            } else {
                InlineView::Image { alt: text, url }
            })
        },
        says(
            ev,
            pos,
            seq![MdEventView::Start(tag), MdEventView::Text(text), MdEventView::End(end)],
        ),
        pos + 3 <= stop <= ev.len(),
    ensures
        inlines_from(ev, pos, stop, outer, acc) == inlines_from(
            ev,
            pos + 3,
            stop,
            outer,
            acc.push(x),
        ),
{
    a_plain_text_reads_as_written(text);
    let inner = seq![InlineView::Text(text)];
    let none: Seq<InlineView> = Seq::empty();
    let e = seq![MdEventView::Start(tag), MdEventView::Text(text), MdEventView::End(end)];
    assert(ev[pos + 0].0 == e[0]);
    assert(ev[pos + 1].0 == e[1]);
    assert(ev[pos + 2].0 == e[2]);
    assert(none.push(InlineView::Text(text)) =~= inner);
    assert(inlines_from(ev, pos + 2, stop, end, inner) == (inner, pos + 3));
    assert(inlines_from(ev, pos + 1, stop, end, none) == (inner, pos + 3));
    assert(span_inline(tag, inner) == x);
    assert(after(pos, pos + 3) == pos + 3);
}

/// The events that spell inlines build them.
pub proof fn inlines_are_built(
    v: Seq<InlineView>,
    ev: Seq<(MdEventView, usize)>,
    pos: int,
    stop: int,
    end: MdEnd,
    acc: Seq<InlineView>,
)
    requires
        all_regular(v),
        says(ev, pos, spelled_inlines(v)),
        pos + spelled_inlines(v).len() <= stop <= ev.len(),
    ensures
        inlines_from(ev, pos, stop, end, acc) == inlines_from(
            ev,
            pos + spelled_inlines(v).len(),
            stop,
            end,
            acc + v,
        ),
    decreases v, 0nat,
{
    if v.len() == 0 {
        assert(acc + v =~= acc);
    } else {
        let rest = v.drop_first();
        let a = spelled_inline(v[0]);
        says_both(ev, pos, a, spelled_inlines(rest));
        an_inline_is_built(v[0], ev, pos, stop, end, acc);
        assert forall|k: int| #![trigger rest[k]] 0 <= k < rest.len() implies is_regular(
            rest[k],
        ) by {
            assert(rest[k] == v[k + 1]);
        }
        inlines_are_built(rest, ev, pos + a.len(), stop, end, acc.push(v[0]));
        assert(acc.push(v[0]) + rest =~= acc + v);
    }
}

// ── blocks ────────────────────────────────────────────────────────────────

/// The events that spell the cells of a row.
pub open spec fn spelled_cells(cells: Seq<Seq<InlineView>>) -> Seq<MdEventView>
    decreases cells.len(),
{
    if cells.len() == 0 {
        Seq::empty()
    } else {
        (seq![MdEventView::Start(MdTagView::TableCell)] + spelled_inlines(cells[0]) + seq![
            MdEventView::End(MdEnd::TableCell),
        ]) + spelled_cells(cells.drop_first())
    }
}

/// The events that spell the rows of a table.
pub open spec fn spelled_rows(rows: Seq<Seq<Seq<InlineView>>>) -> Seq<MdEventView>
    decreases rows.len(),
{
    if rows.len() == 0 {
        Seq::empty()
    } else {
        (seq![MdEventView::Start(MdTagView::TableRow)] + spelled_cells(rows[0]) + seq![
            MdEventView::End(MdEnd::TableRow),
        ]) + spelled_rows(rows.drop_first())
    }
}

/// The events that spell a block. A blank line between blocks has none.
pub open spec fn spelled_block(b: BlockView) -> Seq<MdEventView>
    decreases b,
{
    match b {
        BlockView::Heading { level, content, .. } => seq![
            MdEventView::Start(MdTagView::Heading(level)),
        ] + spelled_inlines(content) + seq![MdEventView::End(MdEnd::Heading(level))],
        BlockView::Paragraph { content, .. } => seq![MdEventView::Start(MdTagView::Paragraph)]
            + spelled_inlines(content) + seq![MdEventView::End(MdEnd::Paragraph)],
        BlockView::List { items, ordered, start, .. } => seq![
            MdEventView::Start(
                MdTagView::List(
                    if ordered {
                        Some(start)
                    } else {
                        None
                    },
                ),
            ),
        ] + spelled_items(items) + seq![MdEventView::End(MdEnd::List)],
        BlockView::CodeBlock { language, content, .. } => seq![
            MdEventView::Start(MdTagView::CodeBlock(language)),
        ] + seq![MdEventView::Text(content)] + seq![MdEventView::End(MdEnd::CodeBlock)],
        BlockView::Html { content, .. } => seq![MdEventView::Start(MdTagView::HtmlBlock)] + seq![
            MdEventView::Html(content),
        ] + seq![MdEventView::End(MdEnd::HtmlBlock)],
        BlockView::BlockQuote { blocks, .. } => seq![MdEventView::Start(MdTagView::BlockQuote)]
            + spelled_blocks(blocks) + seq![MdEventView::End(MdEnd::BlockQuote)],
        BlockView::Table { alignments, header, rows, .. } => seq![
            MdEventView::Start(MdTagView::Table(alignments)),
        ] + ((seq![MdEventView::Start(MdTagView::TableHead)] + spelled_cells(header) + seq![
            MdEventView::End(MdEnd::TableHead),
        ]) + spelled_rows(rows)) + seq![MdEventView::End(MdEnd::Table)],
        BlockView::ThematicBreak { .. } => seq![MdEventView::Rule],
        BlockView::BlankLine => Seq::empty(),
    }
}

/// The events that spell blocks, one after the other.
pub open spec fn spelled_blocks(s: Seq<BlockView>) -> Seq<MdEventView>
    decreases s,
{
    if s.len() == 0 {
        Seq::empty()
    } else {
        spelled_block(s[0]) + spelled_blocks(s.drop_first())
    }
}

/// The events that spell the items of a list.
pub open spec fn spelled_items(items: Seq<ListItemView>) -> Seq<MdEventView>
    decreases items,
{
    if items.len() == 0 {
        Seq::empty()
    } else {
        spelled_item(items[0]) + spelled_items(items.drop_first())
    }
}

/// The events that spell an item of a list: its text as a paragraph, and
/// behind it what it holds.
pub open spec fn spelled_item(item: ListItemView) -> Seq<MdEventView>
    decreases item,
{
    seq![MdEventView::Start(MdTagView::Item)] + ((seq![MdEventView::Start(MdTagView::Paragraph)]
        + spelled_inlines(item.content) + seq![MdEventView::End(MdEnd::Paragraph)])
        + spelled_blocks(item.children)) + seq![MdEventView::End(MdEnd::Item)]
}

/// Whether a block is in the form in which it is built: without a line of its
/// own yet, a paragraph with some content, a code block without an empty
/// language, an unordered list that starts with one, items with a text and no
/// blank lines in them, and a quote with a blank line between each two blocks
/// and none elsewhere.
pub open spec fn is_built(b: BlockView) -> bool
    decreases b,
{
    match b {
        BlockView::Heading { content, line, .. } => all_regular(content) && line == 0,
        BlockView::Paragraph { content, line } => all_regular(content) && content.len() > 0 && line
            == 0,
        BlockView::List { items, ordered, start, line } => items_built(items) && line == 0 && (
        ordered || start == 1),
        BlockView::CodeBlock { language, line, .. } => (language matches Some(l) ==> l.len() > 0)
            && line == 0,
        BlockView::Html { line, .. } => line == 0,
        BlockView::BlockQuote { blocks, line } => quote_built(blocks) && separated(filled(blocks))
            == blocks && line == 0,
        BlockView::Table { header, rows, line, .. } => row_regular(header) && rows_regular(rows)
            && line == 0,
        BlockView::ThematicBreak { line } => line == 0,
        BlockView::BlankLine => false,
    }
}

/// Whether every block is in the form in which it is built.
pub open spec fn all_built(s: Seq<BlockView>) -> bool
    decreases s,
{
    forall|k: int| #![trigger s[k]] 0 <= k < s.len() ==> is_built(s[k])
}

/// Whether every block that is no blank line is in the form in which it is
/// built.
pub open spec fn quote_built(s: Seq<BlockView>) -> bool
    decreases s,
{
    forall|k: int|
        #![trigger s[k]]
        0 <= k < s.len() ==> s[k] == BlockView::BlankLine || is_built(s[k])
}

/// Whether every item has a regular text, and holds blocks in the form in
/// which they are built.
pub open spec fn items_built(items: Seq<ListItemView>) -> bool
    decreases items,
{
    forall|k: int|
        #![trigger items[k]]
        0 <= k < items.len() ==> all_regular(items[k].content) && all_built(items[k].children)
}

/// Whether every cell of a row is regular.
pub open spec fn row_regular(cells: Seq<Seq<InlineView>>) -> bool {
    forall|k: int| 0 <= k < cells.len() ==> all_regular(#[trigger] cells[k])
}

/// Whether every cell of every row is regular.
pub open spec fn rows_regular(rows: Seq<Seq<Seq<InlineView>>>) -> bool {
    forall|k: int| 0 <= k < rows.len() ==> row_regular(#[trigger] rows[k])
}

proof fn a_run_of_inlines_is_built(
    v: Seq<InlineView>,
    ev: Seq<(MdEventView, usize)>,
    pos: int,
    stop: int,
    end: MdEnd,
)
    requires
        all_regular(v),
        says(ev, pos, spelled_inlines(v)),
        pos + spelled_inlines(v).len() < stop <= ev.len(),
        ev[pos + spelled_inlines(v).len()].0 == MdEventView::End(end),
    ensures
        inlines_from(ev, pos, stop, end, Seq::empty()) == (
            v,
            pos + spelled_inlines(v).len() as int + 1,
        ),
{
    let none: Seq<InlineView> = Seq::empty();
    inlines_are_built(v, ev, pos, stop, end, none);
    assert(none + v =~= v);
}

proof fn cells_are_built(
    cells: Seq<Seq<InlineView>>,
    ev: Seq<(MdEventView, usize)>,
    pos: int,
    stop: int,
    end: MdEnd,
    acc: Seq<Seq<InlineView>>,
)
    requires
        row_regular(cells),
        says(ev, pos, spelled_cells(cells)),
        pos + spelled_cells(cells).len() <= stop <= ev.len(),
    ensures
        row_from(ev, pos, stop, end, acc) == row_from(
            ev,
            pos + spelled_cells(cells).len(),
            stop,
            end,
            acc + cells,
        ),
    decreases cells.len(),
{
    if cells.len() == 0 {
        assert(acc + cells =~= acc);
    } else {
        let rest = cells.drop_first();
        let e = spelled_inlines(cells[0]);
        let x = MdEventView::Start(MdTagView::TableCell);
        let y = MdEventView::End(MdEnd::TableCell);
        says_both(ev, pos, seq![x] + e + seq![y], spelled_cells(rest));
        says_wrapped(ev, pos, x, e, y);
        assert(all_regular(cells[0]));
        a_run_of_inlines_is_built(cells[0], ev, pos + 1, stop, MdEnd::TableCell);
        let p = pos + e.len() + 2;
        assert(after(pos, p) == p);
        assert forall|k: int| 0 <= k < rest.len() implies all_regular(#[trigger] rest[k]) by {
            assert(rest[k] == cells[k + 1]);
        }
        cells_are_built(rest, ev, p, stop, end, acc.push(cells[0]));
        assert(acc.push(cells[0]) + rest =~= acc + cells);
    }
}

proof fn a_row_is_built(
    cells: Seq<Seq<InlineView>>,
    ev: Seq<(MdEventView, usize)>,
    pos: int,
    stop: int,
    end: MdEnd,
)
    requires
        row_regular(cells),
        says(ev, pos, spelled_cells(cells)),
        pos + spelled_cells(cells).len() < stop <= ev.len(),
        ev[pos + spelled_cells(cells).len()].0 == MdEventView::End(end),
    ensures
        row_from(ev, pos, stop, end, Seq::empty()) == (
            cells,
            pos + spelled_cells(cells).len() as int + 1,
        ),
{
    let none: Seq<Seq<InlineView>> = Seq::empty();
    cells_are_built(cells, ev, pos, stop, end, none);
    assert(none + cells =~= cells);
}

proof fn rows_are_built(
    rows: Seq<Seq<Seq<InlineView>>>,
    ev: Seq<(MdEventView, usize)>,
    pos: int,
    stop: int,
    header: Seq<Seq<InlineView>>,
    acc: Seq<Seq<Seq<InlineView>>>,
)
    requires
        rows_regular(rows),
        says(ev, pos, spelled_rows(rows)),
        pos + spelled_rows(rows).len() <= stop <= ev.len(),
    ensures
        table_from(ev, pos, stop, header, acc) == table_from(
            ev,
            pos + spelled_rows(rows).len(),
            stop,
            header,
            acc + rows,
        ),
    decreases rows.len(),
{
    if rows.len() == 0 {
        assert(acc + rows =~= acc);
    } else {
        let rest = rows.drop_first();
        let e = spelled_cells(rows[0]);
        let x = MdEventView::Start(MdTagView::TableRow);
        let y = MdEventView::End(MdEnd::TableRow);
        says_both(ev, pos, seq![x] + e + seq![y], spelled_rows(rest));
        says_wrapped(ev, pos, x, e, y);
        assert(row_regular(rows[0]));
        a_row_is_built(rows[0], ev, pos + 1, stop, MdEnd::TableRow);
        let p = pos + e.len() + 2;
        assert(after(pos, p) == p);
        assert forall|k: int| 0 <= k < rest.len() implies row_regular(#[trigger] rest[k]) by {
            assert(rest[k] == rows[k + 1]);
        }
        rows_are_built(rest, ev, p, stop, header, acc.push(rows[0]));
        assert(acc.push(rows[0]) + rest =~= acc + rows);
    }
}

proof fn a_table_is_built(
    header: Seq<Seq<InlineView>>,
    rows: Seq<Seq<Seq<InlineView>>>,
    ev: Seq<(MdEventView, usize)>,
    pos: int,
    stop: int,
)
    requires
        row_regular(header),
        rows_regular(rows),
        ({
            let e = (seq![MdEventView::Start(MdTagView::TableHead)] + spelled_cells(header) + seq![
                MdEventView::End(MdEnd::TableHead),
            ]) + spelled_rows(rows);
            &&& says(ev, pos, e)
            &&& pos + e.len() < stop <= ev.len()
            &&& ev[pos + e.len()].0 == MdEventView::End(MdEnd::Table)
        }),
    ensures
        table_from(ev, pos, stop, Seq::empty(), Seq::empty()) == (
            header,
            rows,
            pos + spelled_cells(header).len() as int + 2 + spelled_rows(rows).len() as int + 1,
        ),
{
    let none: Seq<Seq<Seq<InlineView>>> = Seq::empty();
    let e = spelled_cells(header);
    let x = MdEventView::Start(MdTagView::TableHead);
    let y = MdEventView::End(MdEnd::TableHead);
    says_both(ev, pos, seq![x] + e + seq![y], spelled_rows(rows));
    says_wrapped(ev, pos, x, e, y);
    a_row_is_built(header, ev, pos + 1, stop, MdEnd::TableHead);
    let p = pos + e.len() + 2;
    assert(after(pos, p) == p);
    rows_are_built(rows, ev, p, stop, header, none);
    assert(none + rows =~= rows);
    let q = p + spelled_rows(rows).len();
    assert(table_from(ev, q, stop, header, rows) == (header, rows, q + 1));
}

// ── quotes ────────────────────────────────────────────────────────────────

/// Whether an event is the start or the end of a quote.
pub open spec fn bounds_quote(e: MdEventView) -> bool {
    e == MdEventView::Start(MdTagView::BlockQuote) || e == MdEventView::End(MdEnd::BlockQuote)
}

/// Whether no event is the start or the end of a quote.
pub open spec fn quotes_nothing(e: Seq<MdEventView>) -> bool {
    forall|k: int| 0 <= k < e.len() ==> !bounds_quote(#[trigger] e[k])
}

proof fn quotes_nothing_sum(a: Seq<MdEventView>, b: Seq<MdEventView>)
    requires
        quotes_nothing(a),
        quotes_nothing(b),
    ensures
        quotes_nothing(a + b),
{
    let e = a + b;
    assert forall|k: int| 0 <= k < e.len() implies !bounds_quote(#[trigger] e[k]) by {
        if k < a.len() {
            assert(e[k] == a[k]);
        } else {
            assert(e[k] == b[k - a.len()]);
        }
    }
}

proof fn inlines_quote_nothing(v: Seq<InlineView>)
    ensures
        quotes_nothing(spelled_inlines(v)),
    decreases v,
{
    if v.len() > 0 {
        an_inline_quotes_nothing(v[0]);
        inlines_quote_nothing(v.drop_first());
        quotes_nothing_sum(spelled_inline(v[0]), spelled_inlines(v.drop_first()));
    }
}

proof fn an_inline_quotes_nothing(x: InlineView)
    ensures
        quotes_nothing(spelled_inline(x)),
    decreases x,
{
    reveal_with_fuel(spelled_inline, 2);
    let e = spelled_inline(x);
    match x {
        InlineView::Strong(v) => {
            inlines_quote_nothing(v);
            wrapped_quotes_nothing(e[0], spelled_inlines(v), MdEventView::End(MdEnd::Strong));
        },
        InlineView::Emphasis(v) => {
            inlines_quote_nothing(v);
            wrapped_quotes_nothing(e[0], spelled_inlines(v), MdEventView::End(MdEnd::Emphasis));
        },
        InlineView::Strikethrough(v) => {
            inlines_quote_nothing(v);
            wrapped_quotes_nothing(
                e[0],
                spelled_inlines(v),
                MdEventView::End(MdEnd::Strikethrough),
            );
        },
        InlineView::StyledLink { content, .. } => {
            inlines_quote_nothing(content);
            wrapped_quotes_nothing(e[0], spelled_inlines(content), MdEventView::End(MdEnd::Link));
        },
        InlineView::StyledImage { content, .. } => {
            inlines_quote_nothing(content);
            wrapped_quotes_nothing(e[0], spelled_inlines(content), MdEventView::End(MdEnd::Image));
        },
        _ => {},
    }
}

proof fn wrapped_quotes_nothing(x: MdEventView, e: Seq<MdEventView>, y: MdEventView)
    requires
        !bounds_quote(x),
        !bounds_quote(y),
        quotes_nothing(e),
    ensures
        quotes_nothing(seq![x] + e + seq![y]),
{
    quotes_nothing_sum(seq![x], e);
    quotes_nothing_sum(seq![x] + e, seq![y]);
}

proof fn cells_quote_nothing(cells: Seq<Seq<InlineView>>)
    ensures
        quotes_nothing(spelled_cells(cells)),
    decreases cells.len(),
{
    if cells.len() > 0 {
        let x = MdEventView::Start(MdTagView::TableCell);
        let y = MdEventView::End(MdEnd::TableCell);
        inlines_quote_nothing(cells[0]);
        wrapped_quotes_nothing(x, spelled_inlines(cells[0]), y);
        cells_quote_nothing(cells.drop_first());
        quotes_nothing_sum(
            seq![x] + spelled_inlines(cells[0]) + seq![y],
            spelled_cells(cells.drop_first()),
        );
    }
}

proof fn rows_quote_nothing(rows: Seq<Seq<Seq<InlineView>>>)
    ensures
        quotes_nothing(spelled_rows(rows)),
    decreases rows.len(),
{
    if rows.len() > 0 {
        let x = MdEventView::Start(MdTagView::TableRow);
        let y = MdEventView::End(MdEnd::TableRow);
        cells_quote_nothing(rows[0]);
        wrapped_quotes_nothing(x, spelled_cells(rows[0]), y);
        rows_quote_nothing(rows.drop_first());
        quotes_nothing_sum(
            seq![x] + spelled_cells(rows[0]) + seq![y],
            spelled_rows(rows.drop_first()),
        );
    }
}

proof fn passed_by(
    ev: Seq<(MdEventView, usize)>,
    pos: int,
    stop: int,
    e: Seq<MdEventView>,
    n: nat,
)
    requires
        quotes_nothing(e),
        says(ev, pos, e),
        pos + e.len() <= stop <= ev.len(),
    ensures
        quote_end(ev, pos, stop, n) == quote_end(ev, pos + e.len(), stop, n),
    decreases e.len(),
{
    if e.len() > 0 {
        assert(e =~= seq![e[0]] + e.drop_first());
        says_both(ev, pos, seq![e[0]], e.drop_first());
        says_one(ev, pos, e[0]);
        assert(!bounds_quote(e[0]));
        let r = e.drop_first();
        assert forall|k: int| 0 <= k < r.len() implies !bounds_quote(#[trigger] r[k]) by {
            assert(r[k] == e[k + 1]);
        }
        passed_by(ev, pos + 1, stop, r, n);
    }
}

proof fn a_block_is_passed(
    b: BlockView,
    ev: Seq<(MdEventView, usize)>,
    pos: int,
    stop: int,
    n: nat,
)
    requires
        says(ev, pos, spelled_block(b)),
        pos + spelled_block(b).len() <= stop <= ev.len(),
    ensures
        quote_end(ev, pos, stop, n) == quote_end(ev, pos + spelled_block(b).len(), stop, n),
    decreases b, 0nat,
{
    reveal_with_fuel(spelled_block, 2);
    let all = spelled_block(b);
    match b {
        BlockView::Heading { level, content, .. } => {
            inlines_quote_nothing(content);
            wrapped_quotes_nothing(
                MdEventView::Start(MdTagView::Heading(level)),
                spelled_inlines(content),
                MdEventView::End(MdEnd::Heading(level)),
            );
            passed_by(ev, pos, stop, all, n);
        },
        BlockView::Paragraph { content, .. } => {
            inlines_quote_nothing(content);
            wrapped_quotes_nothing(
                MdEventView::Start(MdTagView::Paragraph),
                spelled_inlines(content),
                MdEventView::End(MdEnd::Paragraph),
            );
            passed_by(ev, pos, stop, all, n);
        },
        BlockView::List { items, ordered, start, .. } => {
            let x = MdEventView::Start(
                MdTagView::List(
                    if ordered {
                        Some(start)
                    } else {
                        None
                    },
                ),
            );
            let y = MdEventView::End(MdEnd::List);
            let e = spelled_items(items);
            says_wrapped(ev, pos, x, e, y);
            items_are_passed(items, ev, pos + 1, stop, n);
        },
        BlockView::BlockQuote { blocks, .. } => {
            let x = MdEventView::Start(MdTagView::BlockQuote);
            let y = MdEventView::End(MdEnd::BlockQuote);
            let e = spelled_blocks(blocks);
            says_wrapped(ev, pos, x, e, y);
            blocks_are_passed(blocks, ev, pos + 1, stop, n + 1);
        },
        BlockView::Table { alignments, header, rows, .. } => {
            let head = MdEventView::Start(MdTagView::TableHead);
            let foot = MdEventView::End(MdEnd::TableHead);
            cells_quote_nothing(header);
            wrapped_quotes_nothing(head, spelled_cells(header), foot);
            rows_quote_nothing(rows);
            let e = (seq![head] + spelled_cells(header) + seq![foot]) + spelled_rows(rows);
            quotes_nothing_sum(
                seq![head] + spelled_cells(header) + seq![foot],
                spelled_rows(rows),
            );
            wrapped_quotes_nothing(
                MdEventView::Start(MdTagView::Table(alignments)),
                e,
                MdEventView::End(MdEnd::Table),
            );
            passed_by(ev, pos, stop, all, n);
        },
        _ => {
            passed_by(ev, pos, stop, all, n);
        },
    }
}

proof fn blocks_are_passed(
    s: Seq<BlockView>,
    ev: Seq<(MdEventView, usize)>,
    pos: int,
    stop: int,
    n: nat,
)
    requires
        says(ev, pos, spelled_blocks(s)),
        pos + spelled_blocks(s).len() <= stop <= ev.len(),
    ensures
        quote_end(ev, pos, stop, n) == quote_end(ev, pos + spelled_blocks(s).len(), stop, n),
    decreases s, 0nat,
{
    if s.len() > 0 {
        reveal_with_fuel(spelled_blocks, 2);
        let a = spelled_block(s[0]);
        says_both(ev, pos, a, spelled_blocks(s.drop_first()));
        a_block_is_passed(s[0], ev, pos, stop, n);
        blocks_are_passed(s.drop_first(), ev, pos + a.len(), stop, n);
    }
}

proof fn items_are_passed(
    items: Seq<ListItemView>,
    ev: Seq<(MdEventView, usize)>,
    pos: int,
    stop: int,
    n: nat,
)
    requires
        says(ev, pos, spelled_items(items)),
        pos + spelled_items(items).len() <= stop <= ev.len(),
    ensures
        quote_end(ev, pos, stop, n) == quote_end(ev, pos + spelled_items(items).len(), stop, n),
    decreases items, 0nat,
{
    if items.len() > 0 {
        reveal_with_fuel(spelled_items, 2);
        let a = spelled_item(items[0]);
        says_both(ev, pos, a, spelled_items(items.drop_first()));
        an_item_is_passed(items[0], ev, pos, stop, n);
        items_are_passed(items.drop_first(), ev, pos + a.len(), stop, n);
    }
}

proof fn an_item_is_passed(
    item: ListItemView,
    ev: Seq<(MdEventView, usize)>,
    pos: int,
    stop: int,
    n: nat,
)
    requires
        says(ev, pos, spelled_item(item)),
        pos + spelled_item(item).len() <= stop <= ev.len(),
    ensures
        quote_end(ev, pos, stop, n) == quote_end(ev, pos + spelled_item(item).len(), stop, n),
    decreases item, 0nat,
{
    reveal_with_fuel(spelled_item, 2);
    let x = MdEventView::Start(MdTagView::Item);
    let y = MdEventView::End(MdEnd::Item);
    let px = MdEventView::Start(MdTagView::Paragraph);
    let py = MdEventView::End(MdEnd::Paragraph);
    let c = spelled_inlines(item.content);
    let para = seq![px] + c + seq![py];
    let e = para + spelled_blocks(item.children);
    says_wrapped(ev, pos, x, e, y);
    says_both(ev, pos + 1, para, spelled_blocks(item.children));
    inlines_quote_nothing(item.content);
    wrapped_quotes_nothing(px, c, py);
    passed_by(ev, pos + 1, stop, para, n);
    blocks_are_passed(item.children, ev, pos + 1 + para.len(), stop, n);
}

// ── the document ──────────────────────────────────────────────────────────

proof fn code_is_built(ev: Seq<(MdEventView, usize)>, pos: int, stop: int, content: Seq<char>)
    requires
        0 <= pos,
        pos + 1 < stop <= ev.len(),
        ev[pos].0 == MdEventView::Text(content),
        ev[pos + 1].0 == MdEventView::End(MdEnd::CodeBlock),
    ensures
        code_from(ev, pos, stop, Seq::empty()) == (content, pos + 2),
{
    let none: Seq<char> = Seq::empty();
    assert(none + content =~= content);
    assert(code_from(ev, pos + 1, stop, content) == (content, pos + 2));
}

proof fn html_is_built(ev: Seq<(MdEventView, usize)>, pos: int, stop: int, content: Seq<char>)
    requires
        0 <= pos,
        pos + 1 < stop <= ev.len(),
        ev[pos].0 == MdEventView::Html(content),
        ev[pos + 1].0 == MdEventView::End(MdEnd::HtmlBlock),
    ensures
        html_from(ev, pos, stop, Seq::empty()) == (content, pos + 2),
{
    let none: Seq<char> = Seq::empty();
    assert(none + content =~= content);
    assert(html_from(ev, pos + 1, stop, content) == (content, pos + 2));
}

proof fn a_quote_is_built(
    blocks: Seq<BlockView>,
    ev: Seq<(MdEventView, usize)>,
    pos: int,
    stop: int,
)
    requires
        quote_built(blocks),
        separated(filled(blocks)) == blocks,
        says(ev, pos, spelled_blocks(blocks)),
        pos + spelled_blocks(blocks).len() < stop <= ev.len(),
        ev[pos + spelled_blocks(blocks).len()].0 == MdEventView::End(MdEnd::BlockQuote),
    ensures
        quote_end(ev, pos, stop, 0) == pos + spelled_blocks(blocks).len(),
        quoted_blocks(ev, pos, pos + spelled_blocks(blocks).len(), stop) == blocks,
    decreases blocks, 1nat,
{
    let e = pos + spelled_blocks(blocks).len();
    blocks_are_passed(blocks, ev, pos, stop, 0);
    let none: Seq<BlockView> = Seq::empty();
    blocks_are_built(blocks, ev, pos, e, none, Seq::empty());
    assert(none + filled(blocks) =~= filled(blocks));
    reveal_with_fuel(quoted_blocks, 2);
    reveal_with_fuel(blocks_from, 2);
}

proof fn items_are_built(
    items: Seq<ListItemView>,
    ev: Seq<(MdEventView, usize)>,
    pos: int,
    stop: int,
    acc: Seq<ListItemView>,
)
    requires
        items_built(items),
        says(ev, pos, spelled_items(items)),
        pos + spelled_items(items).len() <= stop <= ev.len(),
    ensures
        items_from(ev, pos, stop, acc) == items_from(
            ev,
            pos + spelled_items(items).len(),
            stop,
            acc + items,
        ),
    decreases items, 0nat,
{
    if items.len() == 0 {
        assert(acc + items =~= acc);
    } else {
        reveal_with_fuel(spelled_items, 2);
        reveal_with_fuel(items_from, 2);
        let a = spelled_item(items[0]);
        let rest = items.drop_first();
        says_both(ev, pos, a, spelled_items(rest));
        an_item_is_built(items[0], ev, pos, stop);
        let p = pos + a.len();
        assert(after(pos, p) == p);
        assert(ListItemView { content: items[0].content, children: items[0].children } == items[0]);
        assert forall|k: int| #![trigger rest[k]] 0 <= k < rest.len() implies all_regular(
            rest[k].content,
        ) && all_built(rest[k].children) by {
            assert(rest[k] == items[k + 1]);
        }
        items_are_built(rest, ev, p, stop, acc.push(items[0]));
        assert(acc.push(items[0]) + rest =~= acc + items);
    }
}

proof fn an_item_is_built(
    item: ListItemView,
    ev: Seq<(MdEventView, usize)>,
    pos: int,
    stop: int,
)
    requires
        all_regular(item.content),
        all_built(item.children),
        says(ev, pos, spelled_item(item)),
        pos + spelled_item(item).len() <= stop <= ev.len(),
    ensures
        ev[pos].0 == MdEventView::Start(MdTagView::Item),
        item_from(ev, pos + 1, stop, Seq::empty(), Seq::empty(), true) == (
            item.content,
            item.children,
            pos + spelled_item(item).len() as int,
        ),
    decreases item, 0nat,
{
    reveal_with_fuel(spelled_item, 2);
    reveal_with_fuel(item_from, 2);
    let x = MdEventView::Start(MdTagView::Item);
    let y = MdEventView::End(MdEnd::Item);
    let px = MdEventView::Start(MdTagView::Paragraph);
    let py = MdEventView::End(MdEnd::Paragraph);
    let c = spelled_inlines(item.content);
    let para = seq![px] + c + seq![py];
    let k = spelled_blocks(item.children);
    says_wrapped(ev, pos, x, para + k, y);
    says_both(ev, pos + 1, para, k);
    says_wrapped(ev, pos + 1, px, c, py);
    a_run_of_inlines_is_built(item.content, ev, pos + 2, stop, MdEnd::Paragraph);
    let none: Seq<BlockView> = Seq::empty();
    let p = pos + 1 + para.len();
    assert(after(pos + 1, p) == p);
    children_are_built(item.children, ev, p, stop, item.content, none);
    assert(none + item.children =~= item.children);
    let q = p + k.len();
    assert(ev[q].0 == y);
    assert(item_from(ev, q, stop, item.content, item.children, false) == (
        item.content,
        item.children,
        q + 1,
    ));
}

proof fn children_are_built(
    s: Seq<BlockView>,
    ev: Seq<(MdEventView, usize)>,
    pos: int,
    stop: int,
    content: Seq<InlineView>,
    acc: Seq<BlockView>,
)
    requires
        all_built(s),
        says(ev, pos, spelled_blocks(s)),
        pos + spelled_blocks(s).len() <= stop <= ev.len(),
    ensures
        item_from(ev, pos, stop, content, acc, false) == item_from(
            ev,
            pos + spelled_blocks(s).len(),
            stop,
            content,
            acc + s,
            false,
        ),
    decreases s, 0nat,
{
    if s.len() == 0 {
        assert(acc + s =~= acc);
    } else {
        reveal_with_fuel(spelled_blocks, 2);
        let a = spelled_block(s[0]);
        let rest = s.drop_first();
        says_both(ev, pos, a, spelled_blocks(rest));
        a_child_is_built(s[0], ev, pos, stop, content, acc);
        assert forall|k: int| #![trigger rest[k]] 0 <= k < rest.len() implies is_built(rest[k]) by {
            assert(rest[k] == s[k + 1]);
        }
        children_are_built(rest, ev, pos + a.len(), stop, content, acc.push(s[0]));
        assert(acc.push(s[0]) + rest =~= acc + s);
    }
}

proof fn a_child_is_built(
    b: BlockView,
    ev: Seq<(MdEventView, usize)>,
    pos: int,
    stop: int,
    content: Seq<InlineView>,
    acc: Seq<BlockView>,
)
    requires
        is_built(b),
        says(ev, pos, spelled_block(b)),
        pos + spelled_block(b).len() <= stop <= ev.len(),
    ensures
        item_from(ev, pos, stop, content, acc, false) == item_from(
            ev,
            pos + spelled_block(b).len(),
            stop,
            content,
            acc.push(b),
            false,
        ),
    decreases b, 0nat,
{
    reveal_with_fuel(spelled_block, 2);
    reveal_with_fuel(item_from, 2);
    reveal_with_fuel(is_built, 2);
    match b {
        BlockView::Heading { level, content: title, .. } => {
            let x = MdEventView::Start(MdTagView::Heading(level));
            let y = MdEventView::End(MdEnd::Heading(level));
            says_wrapped(ev, pos, x, spelled_inlines(title), y);
            a_run_of_inlines_is_built(title, ev, pos + 1, stop, MdEnd::Heading(level));
        },
        BlockView::Paragraph { content: para, .. } => {
            let x = MdEventView::Start(MdTagView::Paragraph);
            let y = MdEventView::End(MdEnd::Paragraph);
            says_wrapped(ev, pos, x, spelled_inlines(para), y);
            a_run_of_inlines_is_built(para, ev, pos + 1, stop, MdEnd::Paragraph);
        },
        BlockView::List { items, ordered, start, .. } => {
            a_list_is_built(items, ordered, start, ev, pos, stop);
        },
        BlockView::CodeBlock { language, content: code, .. } => {
            let x = MdEventView::Start(MdTagView::CodeBlock(language));
            let y = MdEventView::End(MdEnd::CodeBlock);
            says_wrapped(ev, pos, x, seq![MdEventView::Text(code)], y);
            says_one(ev, pos + 1, MdEventView::Text(code));
            code_is_built(ev, pos + 1, stop, code);
        },
        BlockView::Html { content: html, .. } => {
            let x = MdEventView::Start(MdTagView::HtmlBlock);
            let y = MdEventView::End(MdEnd::HtmlBlock);
            says_wrapped(ev, pos, x, seq![MdEventView::Html(html)], y);
            says_one(ev, pos + 1, MdEventView::Html(html));
            html_is_built(ev, pos + 1, stop, html);
        },
        BlockView::BlockQuote { blocks, .. } => {
            let x = MdEventView::Start(MdTagView::BlockQuote);
            let y = MdEventView::End(MdEnd::BlockQuote);
            says_wrapped(ev, pos, x, spelled_blocks(blocks), y);
            a_quote_is_built(blocks, ev, pos + 1, stop);
            let e = pos + 1 + spelled_blocks(blocks).len();
            assert(after(pos, e) == e);
            assert(item_from(ev, e, stop, content, acc.push(b), false) == item_from(
                ev,
                e + 1,
                stop,
                content,
                acc.push(b),
                false,
            ));
        },
        BlockView::Table { alignments, header, rows, .. } => {
            let head = seq![MdEventView::Start(MdTagView::TableHead)] + spelled_cells(header)
                + seq![MdEventView::End(MdEnd::TableHead)];
            let x = MdEventView::Start(MdTagView::Table(alignments));
            let y = MdEventView::End(MdEnd::Table);
            says_wrapped(ev, pos, x, head + spelled_rows(rows), y);
            a_table_is_built(header, rows, ev, pos + 1, stop);
        },
        BlockView::ThematicBreak { .. } => {
            says_one(ev, pos, MdEventView::Rule);
        },
        BlockView::BlankLine => {},
    }
}

proof fn a_list_is_built(
    items: Seq<ListItemView>,
    ordered: bool,
    start: u64,
    ev: Seq<(MdEventView, usize)>,
    pos: int,
    stop: int,
)
    requires
        items_built(items),
        ordered || start == 1,
        ({
            let b = BlockView::List { items, ordered, start, line: 0 };
            says(ev, pos, spelled_block(b)) && pos + spelled_block(b).len() <= stop <= ev.len()
        }),
    ensures
        ({
            let number = if ordered {
                Some(start)
            } else {
                None
            };
            &&& ev[pos].0 == MdEventView::Start(MdTagView::List(number))
            &&& items_from(ev, pos + 1, stop, Seq::empty()) == (
                items,
                pos + spelled_items(items).len() as int + 2,
            )
            &&& list_block(items, number) == (BlockView::List { items, ordered, start, line: 0 })
        }),
    decreases items, 1nat,
{
    reveal_with_fuel(spelled_block, 2);
    reveal_with_fuel(items_from, 2);
    let number = if ordered {
        Some(start)
    } else {
        None
    };
    let x = MdEventView::Start(MdTagView::List(number));
    let y = MdEventView::End(MdEnd::List);
    says_wrapped(ev, pos, x, spelled_items(items), y);
    let none: Seq<ListItemView> = Seq::empty();
    items_are_built(items, ev, pos + 1, stop, none);
    assert(none + items =~= items);
    let q = pos + 1 + spelled_items(items).len();
    assert(items_from(ev, q, stop, items) == (items, q + 1));
}

proof fn a_block_is_built(
    b: BlockView,
    ev: Seq<(MdEventView, usize)>,
    pos: int,
    stop: int,
    acc: Seq<BlockView>,
    starts: Seq<usize>,
)
    requires
        is_built(b),
        says(ev, pos, spelled_block(b)),
        pos + spelled_block(b).len() <= stop <= ev.len(),
    ensures
        spelled_block(b).len() > 0,
        blocks_from(ev, pos, stop, acc, starts) == blocks_from(
            ev,
            pos + spelled_block(b).len(),
            stop,
            acc.push(b),
            starts.push(ev[pos].1),
        ),
    decreases b, 0nat,
{
    reveal_with_fuel(spelled_block, 2);
    reveal_with_fuel(blocks_from, 2);
    reveal_with_fuel(is_built, 2);
    let at = starts.push(ev[pos].1);
    match b {
        BlockView::Heading { level, content, .. } => {
            let x = MdEventView::Start(MdTagView::Heading(level));
            let y = MdEventView::End(MdEnd::Heading(level));
            says_wrapped(ev, pos, x, spelled_inlines(content), y);
            a_run_of_inlines_is_built(content, ev, pos + 1, stop, MdEnd::Heading(level));
        },
        BlockView::Paragraph { content, .. } => {
            let x = MdEventView::Start(MdTagView::Paragraph);
            let y = MdEventView::End(MdEnd::Paragraph);
            says_wrapped(ev, pos, x, spelled_inlines(content), y);
            a_run_of_inlines_is_built(content, ev, pos + 1, stop, MdEnd::Paragraph);
        },
        BlockView::List { items, ordered, start, .. } => {
            a_list_is_built(items, ordered, start, ev, pos, stop);
        },
        BlockView::CodeBlock { language, content, .. } => {
            let x = MdEventView::Start(MdTagView::CodeBlock(language));
            let y = MdEventView::End(MdEnd::CodeBlock);
            says_wrapped(ev, pos, x, seq![MdEventView::Text(content)], y);
            says_one(ev, pos + 1, MdEventView::Text(content));
            code_is_built(ev, pos + 1, stop, content);
        },
        BlockView::Html { content, .. } => {
            let x = MdEventView::Start(MdTagView::HtmlBlock);
            let y = MdEventView::End(MdEnd::HtmlBlock);
            says_wrapped(ev, pos, x, seq![MdEventView::Html(content)], y);
            says_one(ev, pos + 1, MdEventView::Html(content));
            html_is_built(ev, pos + 1, stop, content);
        },
        BlockView::BlockQuote { blocks, .. } => {
            let x = MdEventView::Start(MdTagView::BlockQuote);
            let y = MdEventView::End(MdEnd::BlockQuote);
            says_wrapped(ev, pos, x, spelled_blocks(blocks), y);
            a_quote_is_built(blocks, ev, pos + 1, stop);
            let e = pos + 1 + spelled_blocks(blocks).len();
            assert(after(pos, e) == e);
            assert(blocks_from(ev, e, stop, acc.push(b), at) == blocks_from(
                ev,
                e + 1,
                stop,
                acc.push(b),
                at,
            ));
        },
        BlockView::Table { alignments, header, rows, .. } => {
            let head = seq![MdEventView::Start(MdTagView::TableHead)] + spelled_cells(header)
                + seq![MdEventView::End(MdEnd::TableHead)];
            let x = MdEventView::Start(MdTagView::Table(alignments));
            let y = MdEventView::End(MdEnd::Table);
            says_wrapped(ev, pos, x, head + spelled_rows(rows), y);
            a_table_is_built(header, rows, ev, pos + 1, stop);
        },
        BlockView::ThematicBreak { .. } => {
            says_one(ev, pos, MdEventView::Rule);
        },
        BlockView::BlankLine => {},
    }
}

/// The places at which the events of blocks begin, blank lines aside.
pub open spec fn first_places(s: Seq<BlockView>, ev: Seq<(MdEventView, usize)>, pos: int) -> Seq<
    usize,
>
    decreases s.len(),
{
    if s.len() == 0 {
        Seq::empty()
    } else if s[0] == BlockView::BlankLine {
        first_places(s.drop_first(), ev, pos)
    } else {
        seq![ev[pos].1] + first_places(s.drop_first(), ev, pos + spelled_block(s[0]).len())
    }
}

/// The events that spell blocks build them, in order: headings with their
/// level, lists with their kind, their first number and all their items, code
/// with its language, quotes and tables with all that they hold, and every
/// inline as it is. Blank lines are not spelled, so none is built.
pub proof fn blocks_are_built(
    s: Seq<BlockView>,
    ev: Seq<(MdEventView, usize)>,
    pos: int,
    stop: int,
    acc: Seq<BlockView>,
    starts: Seq<usize>,
)
    requires
        quote_built(s),
        says(ev, pos, spelled_blocks(s)),
        pos + spelled_blocks(s).len() <= stop <= ev.len(),
    ensures
        blocks_from(ev, pos, stop, acc, starts) == blocks_from(
            ev,
            pos + spelled_blocks(s).len(),
            stop,
            acc + filled(s),
            starts + first_places(s, ev, pos),
        ),
    decreases s, 0nat,
{
    if s.len() == 0 {
        assert(acc + filled(s) =~= acc);
        assert(starts + first_places(s, ev, pos) =~= starts);
    } else {
        reveal_with_fuel(spelled_blocks, 2);
        let rest = s.drop_first();
        let a = spelled_block(s[0]);
        says_both(ev, pos, a, spelled_blocks(rest));
        assert forall|k: int| #![trigger rest[k]] 0 <= k < rest.len() implies rest[k]
            == BlockView::BlankLine || is_built(rest[k]) by {
            assert(rest[k] == s[k + 1]);
        }
        filled_from_the_front(s);
        if s[0] == BlockView::BlankLine {
            assert(a.len() == 0) by {
                reveal_with_fuel(spelled_block, 2);
            }
            blocks_are_built(rest, ev, pos, stop, acc, starts);
        } else {
            a_block_is_built(s[0], ev, pos, stop, acc, starts);
            let at = starts.push(ev[pos].1);
            blocks_are_built(rest, ev, pos + a.len(), stop, acc.push(s[0]), at);
            assert(acc.push(s[0]) + filled(rest) =~= acc + filled(s));
            assert(at + first_places(rest, ev, pos + a.len()) =~= starts + first_places(
                s,
                ev,
                pos,
            ));
        }
    }
}

proof fn filled_from_the_front(s: Seq<BlockView>)
    requires
        s.len() > 0,
    ensures
        filled(s) == (if s[0] == BlockView::BlankLine {
            filled(s.drop_first())
        } else {
            seq![s[0]] + filled(s.drop_first())
        }),
    decreases s.len(),
{
    let r = s.drop_first();
    if s.len() == 1 {
        reveal_with_fuel(filled, 2);
        assert(s.drop_last() =~= Seq::empty());
        assert(r =~= Seq::empty());
        if s[0] != BlockView::BlankLine {
            assert(filled(s) =~= seq![s[0]]);
        }
    } else {
        filled_from_the_front(s.drop_last());
        assert(s.drop_last().drop_first() =~= r.drop_last());
        assert(r.last() == s.last());
        if s[0] != BlockView::BlankLine {
            assert(filled(s) =~= seq![s[0]] + filled(r));
        }
    }
}

/// A document is built from the events that spell it.
pub proof fn a_document_is_built_from_its_events(
    s: Seq<BlockView>,
    ev: Seq<(MdEventView, usize)>,
)
    requires
        all_built(s),
        says(ev, 0, spelled_blocks(s)),
        ev.len() == spelled_blocks(s).len(),
    ensures
        blocks_from(ev, 0, ev.len() as int, Seq::empty(), Seq::empty()) == (
            s,
            first_places(s, ev, 0),
        ),
{
    let none: Seq<BlockView> = Seq::empty();
    let n = ev.len() as int;
    blocks_are_built(s, ev, 0, n, none, Seq::empty());
    nothing_blank(s);
    assert(none + filled(s) =~= s);
    let at: Seq<usize> = Seq::empty();
    assert(at + first_places(s, ev, 0) =~= first_places(s, ev, 0));
    reveal_with_fuel(blocks_from, 2);
    assert(blocks_from(ev, n, n, s, first_places(s, ev, 0)) == (s, first_places(s, ev, 0)));
}

proof fn filled_with_lines(b: Seq<BlockView>, lines: Seq<int>)
    requires
        filled(b).len() <= lines.len(),
    ensures
        filled(with_lines(b, lines)).len() == filled(b).len(),
        forall|k: int|
            0 <= k < filled(b).len() ==> #[trigger] filled(with_lines(b, lines))[k] == with_line(
                filled(b)[k],
                lines[k],
            ),
    decreases b.len(),
{
    if b.len() > 0 {
        let f = b.drop_last();
        let n = b.len() - 1;
        filled_with_lines(f, lines);
        let r = with_lines(b, lines);
        assert(r.drop_last() =~= with_lines(f, lines)) by {
            assert forall|i: int| 0 <= i < n implies #[trigger] r[i] == with_lines(f, lines)[i] by {
                assert(f.take(i) =~= b.take(i));
            }
        }
        assert(b.take(n) =~= f);
        assert(r.last() == BlockView::BlankLine <==> b.last() == BlockView::BlankLine);
    }
}

/// A document has the blocks that its events spell, each on the line at which
/// its events begin.
pub proof fn blocks_stand_on_their_lines(
    s: Seq<BlockView>,
    ev: Seq<(MdEventView, usize)>,
    bytes: Seq<u8>,
    skipped: nat,
)
    requires
        all_built(s),
        says(ev, 0, spelled_blocks(s)),
        ev.len() == spelled_blocks(s).len(),
    ensures
        ({
            let r = filled(placed_blocks(ev, bytes, skipped));
            &&& r.len() == s.len()
            &&& first_places(s, ev, 0).len() == s.len()
            &&& forall|k: int|
                #![trigger r[k]]
                0 <= k < s.len() ==> with_line(r[k], 0) == s[k] && block_line(r[k]) == line_at(
                    bytes,
                    first_places(s, ev, 0)[k],
                    skipped,
                )
        }),
{
    a_document_is_built_from_its_events(s, ev);
    nothing_blank(s);
    as_many_places(s, ev, 0);
    separated_is_separated(s);
    let at = first_places(s, ev, 0);
    let lines = start_lines(at, bytes, skipped);
    filled_with_lines(separated(s), lines);
    let r = filled(placed_blocks(ev, bytes, skipped));
    assert forall|k: int| #![trigger r[k]] 0 <= k < s.len() implies with_line(r[k], 0) == s[k]
        && block_line(r[k]) == line_at(bytes, at[k], skipped) by {
        assert(r[k] == with_line(s[k], lines[k]));
        assert(is_built(s[k]));
        assert(block_line(s[k]) == 0 && s[k] != BlockView::BlankLine) by {
            reveal_with_fuel(is_built, 2);
        }
        a_line_changes_nothing_else(s[k], lines[k], 0);
    }
}

proof fn as_many_places(s: Seq<BlockView>, ev: Seq<(MdEventView, usize)>, pos: int)
    requires
        all_built(s),
    ensures
        first_places(s, ev, pos).len() == s.len(),
    decreases s.len(),
{
    if s.len() > 0 {
        let rest = s.drop_first();
        assert(is_built(s[0]));
        assert forall|k: int| #![trigger rest[k]] 0 <= k < rest.len() implies is_built(rest[k]) by {
            assert(rest[k] == s[k + 1]);
        }
        as_many_places(rest, ev, pos + spelled_block(s[0]).len());
    }
}

proof fn nothing_blank(s: Seq<BlockView>)
    requires
        all_built(s),
    ensures
        filled(s) == s,
    decreases s.len(),
{
    if s.len() > 0 {
        let f = s.drop_last();
        let n = s.len() - 1;
        assert(is_built(s[n]));
        assert forall|k: int| #![trigger f[k]] 0 <= k < f.len() implies is_built(f[k]) by {
            assert(f[k] == s[k]);
        }
        nothing_blank(f);
        assert(f.push(s.last()) =~= s);
    }
}

// ── runs of events ────────────────────────────────────────────────────────

/// Texts one behind the other.
pub open spec fn run_on(ps: Seq<Seq<char>>) -> Seq<char>
    decreases ps.len(),
{
    if ps.len() == 0 {
        Seq::empty()
    } else {
        ps[0] + run_on(ps.drop_first())
    }
}

/// Code is all of its text, however many events it comes in.
pub proof fn pieces_of_code_are_joined(
    ps: Seq<Seq<char>>,
    ev: Seq<(MdEventView, usize)>,
    pos: int,
    stop: int,
    acc: Seq<char>,
)
    requires
        0 <= pos,
        pos + ps.len() < stop <= ev.len(),
        forall|k: int|
            0 <= k < ps.len() ==> match (#[trigger] ev[pos + k]).0 {
                MdEventView::Text(s) => s == ps[k],
                MdEventView::Spelled { text, .. } => text == ps[k],
                _ => false,
            },
        ev[pos + ps.len()].0 == MdEventView::End(MdEnd::CodeBlock),
    ensures
        code_from(ev, pos, stop, acc) == (acc + run_on(ps), pos + ps.len() + 1),
    decreases ps.len(),
{
    if ps.len() == 0 {
        assert(acc + run_on(ps) =~= acc);
    } else {
        let rest = ps.drop_first();
        assert(ev[pos + 0] == ev[pos]);
        let p = pos + 1;
        assert forall|k: int| 0 <= k < rest.len() implies match (#[trigger] ev[p + k]).0 {
            MdEventView::Text(s) => s == rest[k],
            MdEventView::Spelled { text, .. } => text == rest[k],
            _ => false,
        } by {
            assert(rest[k] == ps[k + 1]);
            assert(ev[p + k] == ev[pos + (k + 1)]);
        }
        pieces_of_code_are_joined(rest, ev, p, stop, acc + ps[0]);
        assert(acc + ps[0] + run_on(rest) =~= acc + run_on(ps));
    }
}

/// Raw HTML is all of its text, however many events it comes in.
pub proof fn pieces_of_html_are_joined(
    ps: Seq<Seq<char>>,
    ev: Seq<(MdEventView, usize)>,
    pos: int,
    stop: int,
    acc: Seq<char>,
)
    requires
        0 <= pos,
        pos + ps.len() < stop <= ev.len(),
        forall|k: int|
            0 <= k < ps.len() ==> (#[trigger] ev[pos + k]).0 == MdEventView::Html(ps[k]),
        ev[pos + ps.len()].0 == MdEventView::End(MdEnd::HtmlBlock),
    ensures
        html_from(ev, pos, stop, acc) == (acc + run_on(ps), pos + ps.len() + 1),
    decreases ps.len(),
{
    if ps.len() == 0 {
        assert(acc + run_on(ps) =~= acc);
    } else {
        let rest = ps.drop_first();
        assert(ev[pos + 0] == ev[pos]);
        let p = pos + 1;
        assert forall|k: int| 0 <= k < rest.len() implies (#[trigger] ev[p + k]).0
            == MdEventView::Html(rest[k]) by {
            assert(rest[k] == ps[k + 1]);
            assert(ev[p + k] == ev[pos + (k + 1)]);
        }
        pieces_of_html_are_joined(rest, ev, p, stop, acc + ps[0]);
        assert(acc + ps[0] + run_on(rest) =~= acc + run_on(ps));
    }
}

/// Whether an inline of `n` events stands at `pos`.
spec fn stands_there(
    x: InlineView,
    ev: Seq<(MdEventView, usize)>,
    pos: int,
    stop: int,
    n: nat,
) -> bool {
    match ev[pos].0 {
        MdEventView::Start(tag) => match span_end(tag) {
            Some(e) => {
                let (inner, p) = inlines_from(ev, pos + 1, stop, e, Seq::empty());
                p == pos + n && span_inline(tag, inner) == x
            },
            None => false,
        },
        e => leaf_inline(e) == Some(x) && n == 1,
    }
}

proof fn a_span_stands_there(
    tag: MdTagView,
    end: MdEnd,
    inner: Seq<InlineView>,
    ev: Seq<(MdEventView, usize)>,
    pos: int,
    stop: int,
)
    requires
        span_end(tag) == Some(end),
        all_regular(inner),
        says(
            ev,
            pos,
            seq![MdEventView::Start(tag)] + spelled_inlines(inner) + seq![MdEventView::End(end)],
        ),
        pos + spelled_inlines(inner).len() + 2 <= stop <= ev.len(),
    ensures
        stands_there(
            span_inline(tag, inner),
            ev,
            pos,
            stop,
            spelled_inlines(inner).len() + 2,
        ),
{
    let e = spelled_inlines(inner);
    says_wrapped(ev, pos, MdEventView::Start(tag), e, MdEventView::End(end));
    let none: Seq<InlineView> = Seq::empty();
    inlines_are_built(inner, ev, pos + 1, stop, end, none);
    assert(none + inner =~= inner);
    let p = pos + 1 + e.len();
    assert(inlines_from(ev, p, stop, end, inner) == (inner, p + 1));
}

proof fn a_texted_span_stands_there(
    tag: MdTagView,
    end: MdEnd,
    text: Seq<char>,
    ev: Seq<(MdEventView, usize)>,
    pos: int,
    stop: int,
)
    requires
        span_end(tag) == Some(end),
        says(
            ev,
            pos,
            seq![MdEventView::Start(tag), MdEventView::Text(text), MdEventView::End(end)],
        ),
        pos + 3 <= stop <= ev.len(),
    ensures
        stands_there(span_inline(tag, seq![InlineView::Text(text)]), ev, pos, stop, 3),
{
    let inner = seq![InlineView::Text(text)];
    let none: Seq<InlineView> = Seq::empty();
    let e = seq![MdEventView::Start(tag), MdEventView::Text(text), MdEventView::End(end)];
    assert(ev[pos + 0].0 == e[0]);
    assert(ev[pos + 1].0 == e[1]);
    assert(ev[pos + 2].0 == e[2]);
    assert(none.push(InlineView::Text(text)) =~= inner);
    assert(inlines_from(ev, pos + 2, stop, end, inner) == (inner, pos + 3));
    assert(inlines_from(ev, pos + 1, stop, end, none) == (inner, pos + 3));
}

proof fn an_inline_stands_there(
    x: InlineView,
    ev: Seq<(MdEventView, usize)>,
    pos: int,
    stop: int,
)
    requires
        is_regular(x),
        says(ev, pos, spelled_inline(x)),
        pos + spelled_inline(x).len() <= stop <= ev.len(),
    ensures
        spelled_inline(x).len() > 0,
        stands_there(x, ev, pos, stop, spelled_inline(x).len()),
{
    let none: Seq<char> = Seq::empty();
    reveal_with_fuel(spelled_inline, 2);
    reveal_with_fuel(is_regular, 2);
    match x {
        InlineView::Strong(v) => {
            a_span_stands_there(MdTagView::Strong, MdEnd::Strong, v, ev, pos, stop);
        },
        InlineView::Emphasis(v) => {
            a_span_stands_there(MdTagView::Emphasis, MdEnd::Emphasis, v, ev, pos, stop);
        },
        InlineView::Strikethrough(v) => {
            a_span_stands_there(MdTagView::Strikethrough, MdEnd::Strikethrough, v, ev, pos, stop);
        },
        InlineView::StyledLink { content, url, title } => {
            let tag = MdTagView::Link { url, title, auto: false };
            a_span_stands_there(tag, MdEnd::Link, content, ev, pos, stop);
        },
        InlineView::StyledImage { content, url, title } => {
            let tag = MdTagView::Image { url, title };
            a_span_stands_there(tag, MdEnd::Image, content, ev, pos, stop);
        },
        InlineView::Link { text, url } => {
            let tag = MdTagView::Link { url, title: none, auto: false };
            a_plain_text_reads_as_written(text);
            a_texted_span_stands_there(tag, MdEnd::Link, text, ev, pos, stop);
        },
        InlineView::TitledLink { text, url, title } => {
            let tag = MdTagView::Link { url, title, auto: false };
            a_plain_text_reads_as_written(text);
            a_texted_span_stands_there(tag, MdEnd::Link, text, ev, pos, stop);
        },
        InlineView::Autolink(url) => {
            let tag = MdTagView::Link { url, title: none, auto: true };
            a_texted_span_stands_there(tag, MdEnd::Link, url, ev, pos, stop);
        },
        InlineView::Image { alt, url } => {
            let tag = MdTagView::Image { url, title: none };
            a_plain_text_reads_as_written(alt);
            a_texted_span_stands_there(tag, MdEnd::Image, alt, ev, pos, stop);
        },
        InlineView::TitledImage { alt, url, title } => {
            let tag = MdTagView::Image { url, title };
            a_plain_text_reads_as_written(alt);
            a_texted_span_stands_there(tag, MdEnd::Image, alt, ev, pos, stop);
        },
        _ => {
            let e = spelled_inline(x);
            assert(e =~= seq![e[0]]);
            says_one(ev, pos, e[0]);
            assert(leaf_inline(e[0]) == Some(x));
        },
    }
}

proof fn bare_inlines_are_taken(
    v: Seq<InlineView>,
    ev: Seq<(MdEventView, usize)>,
    pos: int,
    stop: int,
    content: Seq<InlineView>,
    first: bool,
)
    requires
        all_regular(v),
        says(ev, pos, spelled_inlines(v)),
        pos + spelled_inlines(v).len() <= stop <= ev.len(),
        first ==> v.len() > 0 && !is_break(v[0]),
    ensures
        item_from(ev, pos, stop, content, Seq::empty(), first) == item_from(
            ev,
            pos + spelled_inlines(v).len(),
            stop,
            content + v,
            Seq::empty(),
            false,
        ),
    decreases v.len(),
{
    if v.len() == 0 {
        assert(content + v =~= content);
    } else {
        reveal_with_fuel(spelled_inlines, 2);
        reveal_with_fuel(item_from, 2);
        let rest = v.drop_first();
        let a = spelled_inline(v[0]);
        says_both(ev, pos, a, spelled_inlines(rest));
        assert(is_regular(v[0]));
        an_inline_stands_there(v[0], ev, pos, stop);
        assert(after(pos, pos + a.len()) == pos + a.len());
        assert forall|k: int| #![trigger rest[k]] 0 <= k < rest.len() implies is_regular(
            rest[k],
        ) by {
            assert(rest[k] == v[k + 1]);
        }
        bare_inlines_are_taken(rest, ev, pos + a.len(), stop, content.push(v[0]), false);
        assert(content.push(v[0]) + rest =~= content + v);
    }
}

/// An item of a tight list is its inlines and the blocks under them, without
/// a paragraph around the inlines.
pub proof fn a_tight_item_is_built(
    item: ListItemView,
    ev: Seq<(MdEventView, usize)>,
    pos: int,
    stop: int,
)
    requires
        all_regular(item.content),
        item.content.len() > 0,
        !is_break(item.content[0]),
        all_built(item.children),
        says(
            ev,
            pos,
            seq![MdEventView::Start(MdTagView::Item)] + (spelled_inlines(item.content)
                + spelled_blocks(item.children)) + seq![MdEventView::End(MdEnd::Item)],
        ),
        pos + spelled_inlines(item.content).len() + spelled_blocks(item.children).len() + 2 <= stop
            <= ev.len(),
    ensures
        item_from(ev, pos + 1, stop, Seq::empty(), Seq::empty(), true) == (
            item.content,
            item.children,
            pos + spelled_inlines(item.content).len() as int + spelled_blocks(
                item.children,
            ).len() as int + 2,
        ),
{
    let c = spelled_inlines(item.content);
    let k = spelled_blocks(item.children);
    says_wrapped(
        ev,
        pos,
        MdEventView::Start(MdTagView::Item),
        c + k,
        MdEventView::End(MdEnd::Item),
    );
    says_both(ev, pos + 1, c, k);
    let none: Seq<InlineView> = Seq::empty();
    let nothing: Seq<BlockView> = Seq::empty();
    bare_inlines_are_taken(item.content, ev, pos + 1, stop, none, true);
    assert(none + item.content =~= item.content);
    let p = pos + 1 + c.len();
    children_are_built(item.children, ev, p, stop, item.content, nothing);
    assert(nothing + item.children =~= item.children);
    let q = p + k.len();
    reveal_with_fuel(item_from, 2);
    assert(ev[q].0 == MdEventView::End(MdEnd::Item));
    assert(item_from(ev, q, stop, item.content, item.children, false) == (
        item.content,
        item.children,
        q + 1,
    ));
}

} // verus!
