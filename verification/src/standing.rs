//! What stands where in a document: every inline, at any depth, in reading
//! order; and what the collections made of a document owe to it.

use crate::ast::{block_line, inline_text, inlines_text, BlockView, InlineView, ListItemView};
use crate::links::{
    block_links, blocks_links, cells_links, inline_links, inlines_links, item_links, items_links,
    placed_links, rows_links, LinkView, PlacedLinkView,
};
use crate::query::{
    all_lines, block_lines, block_urls, blocks_urls, cells_lines, cells_urls, inline_urls,
    inlines_urls, item_lines, item_urls, items_lines, items_urls, rows_lines, rows_urls, some_holds,
};
use crate::text::{has_part, stands_at};
use vstd::prelude::*;

verus! {

// ── reading order ─────────────────────────────────────────────────────────

/// The inlines of an inline that hold no others: those inside emphasis, or
/// the inline itself.
pub open spec fn leaves_of(i: InlineView) -> Seq<InlineView>
    decreases i,
{
    match i {
        InlineView::Strong(v) => leaves(v),
        InlineView::Emphasis(v) => leaves(v),
        InlineView::Strikethrough(v) => leaves(v),
        _ => seq![i],
    }
}

/// The inlines among `v` that hold no others, in reading order.
pub open spec fn leaves(v: Seq<InlineView>) -> Seq<InlineView>
    decreases v,
{
    if v.len() == 0 {
        Seq::empty()
    } else {
        leaves(v.drop_last()) + leaves_of(v[v.len() - 1])
    }
}

/// The pieces of running text of a row, one for each cell.
pub open spec fn runs_of_rows(rows: Seq<Seq<Seq<InlineView>>>) -> Seq<Seq<InlineView>>
    decreases rows.len(),
{
    if rows.len() == 0 {
        Seq::empty()
    } else {
        runs_of_rows(rows.drop_last()) + rows.last()
    }
}

/// The pieces of running text of a block, in reading order: a heading and a
/// paragraph are one each, a list has one for each item, a table one for each
/// cell, and what items and quotes hold counts too.
pub open spec fn runs_of(b: BlockView) -> Seq<Seq<InlineView>>
    decreases b,
{
    match b {
        BlockView::Heading { content, .. } => seq![content],
        BlockView::Paragraph { content, .. } => seq![content],
        BlockView::List { items, .. } => runs_of_items(items),
        BlockView::BlockQuote { blocks, .. } => runs(blocks),
        BlockView::Table { header, rows, .. } => header + runs_of_rows(rows),
        _ => Seq::empty(),
    }
}

/// The pieces of running text of list items.
pub open spec fn runs_of_items(v: Seq<ListItemView>) -> Seq<Seq<InlineView>>
    decreases v,
{
    if v.len() == 0 {
        Seq::empty()
    } else {
        runs_of_items(v.drop_last()) + runs_of_item(v[v.len() - 1])
    }
}

/// The pieces of running text of a list item.
pub open spec fn runs_of_item(item: ListItemView) -> Seq<Seq<InlineView>>
    decreases item,
{
    seq![item.content] + runs(item.children)
}

/// The pieces of running text of blocks, in reading order.
pub open spec fn runs(s: Seq<BlockView>) -> Seq<Seq<InlineView>>
    decreases s,
{
    if s.len() == 0 {
        Seq::empty()
    } else {
        runs(s.drop_last()) + runs_of(s[s.len() - 1])
    }
}

/// Running text is read block by block.
pub proof fn runs_add(a: Seq<BlockView>, b: Seq<BlockView>)
    ensures
        runs(a + b) == runs(a) + runs(b),
    decreases b.len(),
{
    reveal_with_fuel(runs, 2);
    if b.len() == 0 {
        assert(a + b =~= a);
        assert(runs(a) + runs(b) =~= runs(a));
    } else {
        runs_add(a, b.drop_last());
        assert((a + b).drop_last() =~= a + b.drop_last());
        assert((a + b)[(a + b).len() - 1] == b[b.len() - 1]);
        assert(runs(a + b) =~= runs(a) + runs(b));
    }
}

/// The running text of one block.
pub proof fn runs_one(b: BlockView)
    ensures
        runs(seq![b]) == runs_of(b),
{
    reveal_with_fuel(runs, 3);
    reveal_with_fuel(runs_of, 3);
    assert(seq![b].drop_last() =~= Seq::empty());
    assert(runs(seq![b]) =~= runs_of(b));
}

/// The inlines that hold no others, of all pieces of running text.
pub open spec fn all_leaves(r: Seq<Seq<InlineView>>) -> Seq<InlineView>
    decreases r.len(),
{
    if r.len() == 0 {
        Seq::empty()
    } else {
        all_leaves(r.drop_last()) + leaves(r.last())
    }
}

proof fn all_leaves_add(a: Seq<Seq<InlineView>>, b: Seq<Seq<InlineView>>)
    ensures
        all_leaves(a + b) == all_leaves(a) + all_leaves(b),
    decreases b.len(),
{
    if b.len() == 0 {
        assert(a + b =~= a);
        assert(all_leaves(a) + all_leaves(b) =~= all_leaves(a));
    } else {
        all_leaves_add(a, b.drop_last());
        assert((a + b).drop_last() =~= a + b.drop_last());
        assert((a + b).last() == b.last());
        assert(all_leaves(a + b) =~= all_leaves(a) + all_leaves(b));
    }
}

proof fn all_leaves_one(v: Seq<InlineView>)
    ensures
        all_leaves(seq![v]) == leaves(v),
{
    reveal_with_fuel(all_leaves, 2);
    assert(seq![v].drop_last() =~= Seq::empty());
    assert(Seq::<InlineView>::empty() + leaves(v) =~= leaves(v));
}

// ── where something stands ────────────────────────────────────────────────

/// Whether `x` stands among `v`, or inside emphasis there, at any depth.
pub open spec fn stands_among(x: InlineView, v: Seq<InlineView>) -> bool
    decreases v,
{
    exists|k: int| #![trigger v[k]] 0 <= k < v.len() && (v[k] == x || stands_inside(x, v[k]))
}

/// Whether `x` stands inside the emphasis `i`.
pub open spec fn stands_inside(x: InlineView, i: InlineView) -> bool
    decreases i,
{
    match i {
        InlineView::Strong(v) => stands_among(x, v),
        InlineView::Emphasis(v) => stands_among(x, v),
        InlineView::Strikethrough(v) => stands_among(x, v),
        _ => false,
    }
}

/// Whether `x` stands in a cell of one of the rows.
pub open spec fn stands_in_rows(x: InlineView, rows: Seq<Seq<Seq<InlineView>>>) -> bool {
    exists|r: int, c: int|
        0 <= r < rows.len() && 0 <= c < rows[r].len() && stands_among(x, #[trigger] rows[r][c])
}

/// Whether `x` stands in the block `b`: in its text, its items, what they
/// hold, what it quotes, or its cells.
pub open spec fn stands_in_block(x: InlineView, b: BlockView) -> bool
    decreases b,
{
    match b {
        BlockView::Heading { content, .. } => stands_among(x, content),
        BlockView::Paragraph { content, .. } => stands_among(x, content),
        BlockView::List { items, .. } => stands_in_items(x, items),
        BlockView::BlockQuote { blocks, .. } => stands_in(x, blocks),
        BlockView::Table { header, rows, .. } => {
            ||| exists|c: int| 0 <= c < header.len() && stands_among(x, #[trigger] header[c])
            ||| stands_in_rows(x, rows)
        },
        _ => false,
    }
}

/// Whether `x` stands in one of the list items.
pub open spec fn stands_in_items(x: InlineView, items: Seq<ListItemView>) -> bool
    decreases items,
{
    exists|k: int|
        #![trigger items[k]]
        0 <= k < items.len() && (stands_among(x, items[k].content) || stands_in(
            x,
            items[k].children,
        ))
}

/// Whether `x` stands anywhere in the blocks `s`.
pub open spec fn stands_in(x: InlineView, s: Seq<BlockView>) -> bool
    decreases s,
{
    exists|k: int| #![trigger s[k]] 0 <= k < s.len() && stands_in_block(x, s[k])
}

/// Whether an inline holds no others.
pub open spec fn is_leaf(x: InlineView) -> bool {
    !(x is Strong || x is Emphasis || x is Strikethrough)
}

proof fn sum_holds<A>(a: Seq<A>, b: Seq<A>, x: A)
    ensures
        (a + b).contains(x) <==> a.contains(x) || b.contains(x),
{
    if a.contains(x) {
        let i = choose|i: int| 0 <= i < a.len() && a[i] == x;
        assert((a + b)[i] == x);
    }
    if b.contains(x) {
        let i = choose|i: int| 0 <= i < b.len() && b[i] == x;
        assert((a + b)[a.len() + i] == x);
    }
    if (a + b).contains(x) {
        let i = choose|i: int| 0 <= i < (a + b).len() && (a + b)[i] == x;
        if i < a.len() {
            assert(a[i] == x);
        } else {
            assert(b[i - a.len()] == x);
        }
    }
}

proof fn leaf_is_reached(x: InlineView, v: Seq<InlineView>)
    requires
        is_leaf(x),
    ensures
        stands_among(x, v) <==> leaves(v).contains(x),
    decreases v,
{
    if v.len() > 0 {
        let f = v.drop_last();
        let l = v[v.len() - 1];
        leaf_is_reached(x, f);
        sum_holds(leaves(f), leaves_of(l), x);
        match l {
            InlineView::Strong(w) => leaf_is_reached(x, w),
            InlineView::Emphasis(w) => leaf_is_reached(x, w),
            InlineView::Strikethrough(w) => leaf_is_reached(x, w),
            _ => {
                assert(leaves_of(l) == seq![l]);
                assert(seq![l][0] == l);
            },
        }
        if stands_among(x, v) {
            let k = choose|k: int|
                #![trigger v[k]]
                0 <= k < v.len() && (v[k] == x || stands_inside(x, v[k]));
            if k < f.len() {
                assert(f[k] == v[k]);
            }
        }
        if stands_among(x, f) {
            let k = choose|k: int|
                #![trigger f[k]]
                0 <= k < f.len() && (f[k] == x || stands_inside(x, f[k]));
            assert(v[k] == f[k]);
        }
    }
}

proof fn row_is_reached(x: InlineView, rows: Seq<Seq<Seq<InlineView>>>)
    requires
        is_leaf(x),
    ensures
        stands_in_rows(x, rows) <==> all_leaves(runs_of_rows(rows)).contains(x),
    decreases rows.len(),
{
    if rows.len() > 0 {
        let f = rows.drop_last();
        row_is_reached(x, f);
        all_leaves_add(runs_of_rows(f), rows.last());
        sum_holds(all_leaves(runs_of_rows(f)), all_leaves(rows.last()), x);
        cell_is_reached(x, rows.last());
        let n = rows.len() - 1;
        if stands_in_rows(x, rows) {
            let (r, c) = choose|r: int, c: int|
                0 <= r < rows.len() && 0 <= c < rows[r].len() && stands_among(
                    x,
                    #[trigger] rows[r][c],
                );
            if r < n {
                assert(f[r][c] == rows[r][c]);
            }
        }
        if stands_in_rows(x, f) {
            let (r, c) = choose|r: int, c: int|
                0 <= r < f.len() && 0 <= c < f[r].len() && stands_among(x, #[trigger] f[r][c]);
            assert(rows[r][c] == f[r][c]);
        }
        if exists|c: int| 0 <= c < rows.last().len() && stands_among(x, #[trigger] rows.last()[c]) {
            let c = choose|c: int|
                0 <= c < rows.last().len() && stands_among(x, #[trigger] rows.last()[c]);
            assert(stands_among(x, rows[n][c]));
        }
    }
}

proof fn cell_is_reached(x: InlineView, cells: Seq<Seq<InlineView>>)
    requires
        is_leaf(x),
    ensures
        (exists|c: int| 0 <= c < cells.len() && stands_among(x, #[trigger] cells[c]))
            <==> all_leaves(cells).contains(x),
    decreases cells.len(),
{
    if cells.len() > 0 {
        let f = cells.drop_last();
        let n = cells.len() - 1;
        cell_is_reached(x, f);
        leaf_is_reached(x, cells[n]);
        sum_holds(all_leaves(f), leaves(cells.last()), x);
        if exists|c: int| 0 <= c < cells.len() && stands_among(x, #[trigger] cells[c]) {
            let c = choose|c: int| 0 <= c < cells.len() && stands_among(x, #[trigger] cells[c]);
            if c < n {
                assert(stands_among(x, f[c]));
            }
        }
        if exists|c: int| 0 <= c < f.len() && stands_among(x, #[trigger] f[c]) {
            let c = choose|c: int| 0 <= c < f.len() && stands_among(x, #[trigger] f[c]);
            assert(stands_among(x, cells[c]));
        }
        if stands_among(x, cells.last()) {
            assert(stands_among(x, cells[n]));
        }
    }
}

proof fn block_is_reached(x: InlineView, b: BlockView)
    requires
        is_leaf(x),
    ensures
        stands_in_block(x, b) <==> all_leaves(runs_of(b)).contains(x),
    decreases b,
{
    match b {
        BlockView::Heading { content, .. } => {
            all_leaves_one(content);
            leaf_is_reached(x, content);
        },
        BlockView::Paragraph { content, .. } => {
            all_leaves_one(content);
            leaf_is_reached(x, content);
        },
        BlockView::List { items, .. } => items_are_reached(x, items),
        BlockView::BlockQuote { blocks, .. } => each_leaf_is_reached(x, blocks),
        BlockView::Table { header, rows, .. } => {
            cell_is_reached(x, header);
            row_is_reached(x, rows);
            all_leaves_add(header, runs_of_rows(rows));
            sum_holds(all_leaves(header), all_leaves(runs_of_rows(rows)), x);
        },
        _ => {},
    }
}

proof fn items_are_reached(x: InlineView, items: Seq<ListItemView>)
    requires
        is_leaf(x),
    ensures
        stands_in_items(x, items) <==> all_leaves(runs_of_items(items)).contains(x),
    decreases items,
{
    if items.len() > 0 {
        let f = items.drop_last();
        let n = items.len() - 1;
        let l = items[items.len() - 1];
        items_are_reached(x, f);
        each_leaf_is_reached(x, l.children);
        leaf_is_reached(x, l.content);
        all_leaves_one(l.content);
        all_leaves_add(seq![l.content], runs(l.children));
        all_leaves_add(runs_of_items(f), runs_of_item(l));
        sum_holds(all_leaves(seq![l.content]), all_leaves(runs(l.children)), x);
        sum_holds(all_leaves(runs_of_items(f)), all_leaves(runs_of_item(l)), x);
        if stands_in_items(x, items) {
            let k = choose|k: int|
                #![trigger items[k]]
                0 <= k < items.len() && (stands_among(x, items[k].content) || stands_in(
                    x,
                    items[k].children,
                ));
            if k < n {
                assert(f[k] == items[k]);
            }
        }
        if stands_in_items(x, f) {
            let k = choose|k: int|
                #![trigger f[k]]
                0 <= k < f.len() && (stands_among(x, f[k].content) || stands_in(x, f[k].children));
            assert(items[k] == f[k]);
        }
    }
}

/// Reading a document passes every inline that stands in it, however deep,
/// and no other.
pub proof fn each_leaf_is_reached(x: InlineView, s: Seq<BlockView>)
    requires
        is_leaf(x),
    ensures
        stands_in(x, s) <==> all_leaves(runs(s)).contains(x),
    decreases s,
{
    if s.len() > 0 {
        let f = s.drop_last();
        let n = s.len() - 1;
        each_leaf_is_reached(x, f);
        block_is_reached(x, s[s.len() - 1]);
        all_leaves_add(runs(f), runs_of(s[n]));
        sum_holds(all_leaves(runs(f)), all_leaves(runs_of(s[n])), x);
        if stands_in(x, s) {
            let k = choose|k: int|
                #![trigger s[k]]
                0 <= k < s.len() && stands_in_block(x, s[k]);
            if k < n {
                assert(f[k] == s[k]);
            }
        }
        if stands_in(x, f) {
            let k = choose|k: int|
                #![trigger f[k]]
                0 <= k < f.len() && stands_in_block(x, f[k]);
            assert(s[k] == f[k]);
        }
    }
}

// ── URLs ──────────────────────────────────────────────────────────────────

/// The destination of an inline, where it is a link or an image.
pub open spec fn url_of(x: InlineView) -> Option<Seq<char>> {
    match x {
        InlineView::Link { url, .. } => Some(url),
        InlineView::TitledLink { url, .. } => Some(url),
        InlineView::StyledLink { url, .. } => Some(url),
        InlineView::Autolink(url) => Some(url),
        InlineView::Image { url, .. } => Some(url),
        InlineView::TitledImage { url, .. } => Some(url),
        InlineView::StyledImage { url, .. } => Some(url),
        _ => None,
    }
}

/// The destinations of inlines, in order.
pub open spec fn urls_among(v: Seq<InlineView>) -> Seq<Seq<char>>
    decreases v.len(),
{
    if v.len() == 0 {
        Seq::empty()
    } else {
        match url_of(v.last()) {
            Some(u) => urls_among(v.drop_last()).push(u),
            None => urls_among(v.drop_last()),
        }
    }
}

proof fn urls_among_add(a: Seq<InlineView>, b: Seq<InlineView>)
    ensures
        urls_among(a + b) == urls_among(a) + urls_among(b),
    decreases b.len(),
{
    if b.len() == 0 {
        assert(a + b =~= a);
        assert(urls_among(a) + urls_among(b) =~= urls_among(a));
    } else {
        urls_among_add(a, b.drop_last());
        assert((a + b).drop_last() =~= a + b.drop_last());
        assert(urls_among(a + b) =~= urls_among(a) + urls_among(b));
    }
}

proof fn inline_urls_are(i: InlineView)
    ensures
        inline_urls(i) == urls_among(leaves_of(i)),
    decreases i,
{
    match i {
        InlineView::Strong(v) => inlines_urls_are(v),
        InlineView::Emphasis(v) => inlines_urls_are(v),
        InlineView::Strikethrough(v) => inlines_urls_are(v),
        _ => {
            reveal_with_fuel(urls_among, 2);
            assert(seq![i].drop_last() =~= Seq::empty());
            assert(inline_urls(i) =~= urls_among(seq![i]));
        },
    }
}

proof fn inlines_urls_are(v: Seq<InlineView>)
    ensures
        inlines_urls(v) == urls_among(leaves(v)),
    decreases v,
{
    if v.len() > 0 {
        inlines_urls_are(v.drop_last());
        inline_urls_are(v[v.len() - 1]);
        urls_among_add(leaves(v.drop_last()), leaves_of(v[v.len() - 1]));
    }
}

proof fn cells_urls_are(v: Seq<Seq<InlineView>>)
    ensures
        cells_urls(v) == urls_among(all_leaves(v)),
    decreases v.len(),
{
    if v.len() > 0 {
        cells_urls_are(v.drop_last());
        inlines_urls_are(v.last());
        urls_among_add(all_leaves(v.drop_last()), leaves(v.last()));
    }
}

proof fn rows_urls_are(v: Seq<Seq<Seq<InlineView>>>)
    ensures
        rows_urls(v) == urls_among(all_leaves(runs_of_rows(v))),
    decreases v.len(),
{
    if v.len() > 0 {
        rows_urls_are(v.drop_last());
        cells_urls_are(v.last());
        all_leaves_add(runs_of_rows(v.drop_last()), v.last());
        urls_among_add(all_leaves(runs_of_rows(v.drop_last())), all_leaves(v.last()));
    }
}

proof fn block_urls_are(b: BlockView)
    ensures
        block_urls(b) == urls_among(all_leaves(runs_of(b))),
    decreases b,
{
    match b {
        BlockView::Heading { content, .. } => {
            inlines_urls_are(content);
            all_leaves_one(content);
        },
        BlockView::Paragraph { content, .. } => {
            inlines_urls_are(content);
            all_leaves_one(content);
        },
        BlockView::List { items, .. } => items_urls_are(items),
        BlockView::BlockQuote { blocks, .. } => urls_come_in_reading_order(blocks),
        BlockView::Table { header, rows, .. } => {
            cells_urls_are(header);
            rows_urls_are(rows);
            all_leaves_add(header, runs_of_rows(rows));
            urls_among_add(all_leaves(header), all_leaves(runs_of_rows(rows)));
        },
        _ => {},
    }
}

proof fn items_urls_are(v: Seq<ListItemView>)
    ensures
        items_urls(v) == urls_among(all_leaves(runs_of_items(v))),
    decreases v,
{
    if v.len() > 0 {
        let l = v[v.len() - 1];
        items_urls_are(v.drop_last());
        item_urls_are(l);
        all_leaves_add(runs_of_items(v.drop_last()), runs_of_item(l));
        urls_among_add(all_leaves(runs_of_items(v.drop_last())), all_leaves(runs_of_item(l)));
    }
}

proof fn item_urls_are(item: ListItemView)
    ensures
        item_urls(item) == urls_among(all_leaves(runs_of_item(item))),
    decreases item,
{
    inlines_urls_are(item.content);
    urls_come_in_reading_order(item.children);
    all_leaves_one(item.content);
    all_leaves_add(seq![item.content], runs(item.children));
    urls_among_add(leaves(item.content), all_leaves(runs(item.children)));
}

/// The URLs of a document are the destinations of all links and images in
/// it, in reading order, each as often as it stands there.
pub proof fn urls_come_in_reading_order(s: Seq<BlockView>)
    ensures
        blocks_urls(s) == urls_among(all_leaves(runs(s))),
    decreases s,
{
    if s.len() > 0 {
        urls_come_in_reading_order(s.drop_last());
        block_urls_are(s[s.len() - 1]);
        all_leaves_add(runs(s.drop_last()), runs_of(s[s.len() - 1]));
        urls_among_add(all_leaves(runs(s.drop_last())), all_leaves(runs_of(s[s.len() - 1])));
    }
}

proof fn url_among_is_of_one(v: Seq<InlineView>, u: Seq<char>)
    ensures
        urls_among(v).contains(u) <==> exists|k: int|
            0 <= k < v.len() && url_of(#[trigger] v[k]) == Some(u),
    decreases v.len(),
{
    if v.len() > 0 {
        let f = v.drop_last();
        let n = v.len() - 1;
        url_among_is_of_one(f, u);
        let before = urls_among(f);
        if exists|k: int| 0 <= k < v.len() && url_of(#[trigger] v[k]) == Some(u) {
            let k = choose|k: int| 0 <= k < v.len() && url_of(#[trigger] v[k]) == Some(u);
            if k < n {
                assert(url_of(f[k]) == Some(u));
                let j = choose|j: int| 0 <= j < before.len() && before[j] == u;
                assert(urls_among(v)[j] == u);
            } else {
                assert(urls_among(v)[before.len() as int] == u);
            }
        }
        if urls_among(v).contains(u) {
            let j = choose|j: int| 0 <= j < urls_among(v).len() && urls_among(v)[j] == u;
            if j < before.len() {
                assert(before[j] == u);
                let k = choose|k: int| 0 <= k < f.len() && url_of(#[trigger] f[k]) == Some(u);
                assert(url_of(v[k]) == Some(u));
            } else {
                assert(url_of(v[n]) == Some(u));
            }
        }
    }
}

/// A URL is among those of a document exactly where a link or an image with
/// that destination stands in it, at any depth of items, quotes, cells and
/// emphasis.
pub proof fn a_url_is_one_of_a_link(s: Seq<BlockView>, u: Seq<char>)
    ensures
        blocks_urls(s).contains(u) <==> exists|x: InlineView|
            #[trigger] stands_in(x, s) && url_of(x) == Some(u),
{
    let all = all_leaves(runs(s));
    urls_come_in_reading_order(s);
    url_among_is_of_one(all, u);
    if blocks_urls(s).contains(u) {
        let k = choose|k: int| 0 <= k < all.len() && url_of(#[trigger] all[k]) == Some(u);
        each_leaf_is_reached(all[k], s);
        assert(all.contains(all[k]));
        assert(stands_in(all[k], s));
    }
    if exists|x: InlineView| #[trigger] stands_in(x, s) && url_of(x) == Some(u) {
        let x = choose|x: InlineView| #[trigger] stands_in(x, s) && url_of(x) == Some(u);
        each_leaf_is_reached(x, s);
        let k = choose|k: int| 0 <= k < all.len() && all[k] == x;
        assert(url_of(all[k]) == Some(u));
    }
}

/// A document has a link or an image whose destination holds `part` exactly
/// where one of its URLs does.
pub proof fn linking_is_holding_a_link(s: Seq<BlockView>, part: Seq<char>)
    ensures
        some_holds(blocks_urls(s), part) <==> exists|x: InlineView|
            #[trigger] stands_in(x, s) && (url_of(x) matches Some(u) && has_part(u, part)),
{
    let urls = blocks_urls(s);
    if some_holds(urls, part) {
        let i = choose|i: int| 0 <= i < urls.len() && has_part(#[trigger] urls[i], part);
        a_url_is_one_of_a_link(s, urls[i]);
        assert(urls.contains(urls[i]));
        let x = choose|x: InlineView| #[trigger] stands_in(x, s) && url_of(x) == Some(urls[i]);
        assert(stands_in(x, s));
    }
    if exists|x: InlineView|
        #[trigger] stands_in(x, s) && (url_of(x) matches Some(u) && has_part(u, part)) {
        let x = choose|x: InlineView|
            #[trigger] stands_in(x, s) && (url_of(x) matches Some(u) && has_part(u, part));
        let u = url_of(x)->0;
        a_url_is_one_of_a_link(s, u);
        let i = choose|i: int| 0 <= i < urls.len() && urls[i] == u;
        assert(has_part(urls[i], part));
    }
}

// ── links ─────────────────────────────────────────────────────────────────

/// The text and the destination of an inline, where it is a link.
pub open spec fn link_of(x: InlineView) -> Option<LinkView> {
    match x {
        InlineView::Link { text, url } => Some(LinkView { text, url }),
        InlineView::TitledLink { text, url, .. } => Some(LinkView { text, url }),
        InlineView::StyledLink { url, .. } => Some(LinkView { text: inline_text(x), url }),
        InlineView::Autolink(url) => Some(LinkView { text: url, url }),
        _ => None,
    }
}

/// The links among inlines, in order.
pub open spec fn links_among(v: Seq<InlineView>) -> Seq<LinkView>
    decreases v.len(),
{
    if v.len() == 0 {
        Seq::empty()
    } else {
        match link_of(v.last()) {
            Some(l) => links_among(v.drop_last()).push(l),
            None => links_among(v.drop_last()),
        }
    }
}

proof fn links_among_add(a: Seq<InlineView>, b: Seq<InlineView>)
    ensures
        links_among(a + b) == links_among(a) + links_among(b),
    decreases b.len(),
{
    if b.len() == 0 {
        assert(a + b =~= a);
        assert(links_among(a) + links_among(b) =~= links_among(a));
    } else {
        links_among_add(a, b.drop_last());
        assert((a + b).drop_last() =~= a + b.drop_last());
        assert(links_among(a + b) =~= links_among(a) + links_among(b));
    }
}

proof fn inline_links_are(i: InlineView)
    ensures
        inline_links(i) == links_among(leaves_of(i)),
    decreases i,
{
    match i {
        InlineView::Strong(v) => inlines_links_are(v),
        InlineView::Emphasis(v) => inlines_links_are(v),
        InlineView::Strikethrough(v) => inlines_links_are(v),
        _ => {
            reveal_with_fuel(links_among, 2);
            assert(seq![i].drop_last() =~= Seq::empty());
            assert(inline_links(i) =~= links_among(seq![i]));
        },
    }
}

proof fn inlines_links_are(v: Seq<InlineView>)
    ensures
        inlines_links(v) == links_among(leaves(v)),
    decreases v,
{
    if v.len() > 0 {
        inlines_links_are(v.drop_last());
        inline_links_are(v[v.len() - 1]);
        links_among_add(leaves(v.drop_last()), leaves_of(v[v.len() - 1]));
    }
}

proof fn cells_links_are(v: Seq<Seq<InlineView>>)
    ensures
        cells_links(v) == links_among(all_leaves(v)),
    decreases v.len(),
{
    if v.len() > 0 {
        cells_links_are(v.drop_last());
        inlines_links_are(v.last());
        links_among_add(all_leaves(v.drop_last()), leaves(v.last()));
    }
}

proof fn rows_links_are(v: Seq<Seq<Seq<InlineView>>>)
    ensures
        rows_links(v) == links_among(all_leaves(runs_of_rows(v))),
    decreases v.len(),
{
    if v.len() > 0 {
        rows_links_are(v.drop_last());
        cells_links_are(v.last());
        all_leaves_add(runs_of_rows(v.drop_last()), v.last());
        links_among_add(all_leaves(runs_of_rows(v.drop_last())), all_leaves(v.last()));
    }
}

proof fn block_links_are(b: BlockView)
    ensures
        block_links(b) == links_among(all_leaves(runs_of(b))),
    decreases b,
{
    match b {
        BlockView::Heading { content, .. } => {
            inlines_links_are(content);
            all_leaves_one(content);
        },
        BlockView::Paragraph { content, .. } => {
            inlines_links_are(content);
            all_leaves_one(content);
        },
        BlockView::List { items, .. } => items_links_are(items),
        BlockView::BlockQuote { blocks, .. } => links_come_in_reading_order(blocks),
        BlockView::Table { header, rows, .. } => {
            cells_links_are(header);
            rows_links_are(rows);
            all_leaves_add(header, runs_of_rows(rows));
            links_among_add(all_leaves(header), all_leaves(runs_of_rows(rows)));
        },
        _ => {},
    }
}

proof fn items_links_are(v: Seq<ListItemView>)
    ensures
        items_links(v) == links_among(all_leaves(runs_of_items(v))),
    decreases v,
{
    if v.len() > 0 {
        let l = v[v.len() - 1];
        items_links_are(v.drop_last());
        item_links_are(l);
        all_leaves_add(runs_of_items(v.drop_last()), runs_of_item(l));
        links_among_add(all_leaves(runs_of_items(v.drop_last())), all_leaves(runs_of_item(l)));
    }
}

proof fn item_links_are(item: ListItemView)
    ensures
        item_links(item) == links_among(all_leaves(runs_of_item(item))),
    decreases item,
{
    inlines_links_are(item.content);
    links_come_in_reading_order(item.children);
    all_leaves_one(item.content);
    all_leaves_add(seq![item.content], runs(item.children));
    links_among_add(leaves(item.content), all_leaves(runs(item.children)));
}

/// The links of a document are all links in it, in reading order, each as
/// often as it stands there; images are none.
pub proof fn links_come_in_reading_order(s: Seq<BlockView>)
    ensures
        blocks_links(s) == links_among(all_leaves(runs(s))),
    decreases s,
{
    if s.len() > 0 {
        links_come_in_reading_order(s.drop_last());
        block_links_are(s[s.len() - 1]);
        all_leaves_add(runs(s.drop_last()), runs_of(s[s.len() - 1]));
        links_among_add(all_leaves(runs(s.drop_last())), all_leaves(runs_of(s[s.len() - 1])));
    }
}

proof fn link_among_is_one(v: Seq<InlineView>, l: LinkView)
    ensures
        links_among(v).contains(l) <==> exists|k: int|
            0 <= k < v.len() && link_of(#[trigger] v[k]) == Some(l),
    decreases v.len(),
{
    if v.len() > 0 {
        let f = v.drop_last();
        let n = v.len() - 1;
        link_among_is_one(f, l);
        let before = links_among(f);
        if exists|k: int| 0 <= k < v.len() && link_of(#[trigger] v[k]) == Some(l) {
            let k = choose|k: int| 0 <= k < v.len() && link_of(#[trigger] v[k]) == Some(l);
            if k < n {
                assert(link_of(f[k]) == Some(l));
                let j = choose|j: int| 0 <= j < before.len() && before[j] == l;
                assert(links_among(v)[j] == l);
            } else {
                assert(links_among(v)[before.len() as int] == l);
            }
        }
        if links_among(v).contains(l) {
            let j = choose|j: int| 0 <= j < links_among(v).len() && links_among(v)[j] == l;
            if j < before.len() {
                assert(before[j] == l);
                let k = choose|k: int| 0 <= k < f.len() && link_of(#[trigger] f[k]) == Some(l);
                assert(link_of(v[k]) == Some(l));
            } else {
                assert(link_of(v[n]) == Some(l));
            }
        }
    }
}

/// A link is among those of a document exactly where it stands in it, at any
/// depth.
pub proof fn a_link_is_one_that_stands_there(s: Seq<BlockView>, l: LinkView)
    ensures
        blocks_links(s).contains(l) <==> exists|x: InlineView|
            #[trigger] stands_in(x, s) && link_of(x) == Some(l),
{
    let all = all_leaves(runs(s));
    links_come_in_reading_order(s);
    link_among_is_one(all, l);
    if blocks_links(s).contains(l) {
        let k = choose|k: int| 0 <= k < all.len() && link_of(#[trigger] all[k]) == Some(l);
        each_leaf_is_reached(all[k], s);
        assert(all.contains(all[k]));
        assert(stands_in(all[k], s));
    }
    if exists|x: InlineView| #[trigger] stands_in(x, s) && link_of(x) == Some(l) {
        let x = choose|x: InlineView| #[trigger] stands_in(x, s) && link_of(x) == Some(l);
        each_leaf_is_reached(x, s);
        let k = choose|k: int| 0 <= k < all.len() && all[k] == x;
        assert(link_of(all[k]) == Some(l));
    }
}

/// The placed links of the blocks `from..to` are the links that stand in one
/// of these blocks, each with its URL and the line of that block.
pub proof fn a_placed_link_stands_in_its_block(
    s: Seq<BlockView>,
    from: int,
    to: int,
    l: PlacedLinkView,
)
    requires
        0 <= from <= to <= s.len(),
    ensures
        placed_links(s, from, to).contains(l) <==> exists|k: int, x: InlineView|
            from <= k < to && #[trigger] stands_in_block(x, s[k]) && (link_of(x) matches Some(m)
                && m.url == l.url) && l.line == block_line(s[k]),
    decreases to - from,
{
    if from < to {
        let n = to - 1;
        let before = placed_links(s, from, n);
        let own = crate::links::at_line(block_links(s[n]), block_line(s[n]));
        a_placed_link_stands_in_its_block(s, from, n, l);
        sum_holds(before, own, l);
        block_links_are(s[n]);
        let all = all_leaves(runs_of(s[n]));
        if own.contains(l) {
            let j = choose|j: int| 0 <= j < own.len() && own[j] == l;
            let m = block_links(s[n])[j];
            link_among_is_one(all, m);
            assert(links_among(all).contains(m));
            let k = choose|k: int| 0 <= k < all.len() && link_of(#[trigger] all[k]) == Some(m);
            block_is_reached(all[k], s[n]);
            assert(all.contains(all[k]));
            assert(stands_in_block(all[k], s[n]));
        }
        if exists|k: int, x: InlineView|
            from <= k < to && #[trigger] stands_in_block(x, s[k]) && (link_of(x) matches Some(m)
                && m.url == l.url) && l.line == block_line(s[k]) {
            let (k, x) = choose|k: int, x: InlineView|
                from <= k < to && #[trigger] stands_in_block(x, s[k]) && (link_of(x) matches Some(m)
                    && m.url == l.url) && l.line == block_line(s[k]);
            if k == n {
                block_is_reached(x, s[n]);
                let j = choose|j: int| 0 <= j < all.len() && all[j] == x;
                let m = link_of(x)->0;
                link_among_is_one(all, m);
                assert(link_of(all[j]) == Some(m));
                let i = choose|i: int| 0 <= i < block_links(s[n]).len() && block_links(s[n])[i] == m;
                assert(own[i] == l);
            } else {
                assert(stands_in_block(x, s[k]));
            }
        }
    }
}

// ── plain text ────────────────────────────────────────────────────────────

/// How an inline that holds no others reads.
pub open spec fn reads(x: InlineView) -> Seq<char> {
    match x {
        InlineView::Text(t) => t,
        InlineView::Spelled { text, .. } => text,
        InlineView::Code(t) => t,
        InlineView::Link { text, .. } => text,
        InlineView::TitledLink { text, .. } => text,
        InlineView::StyledLink { content, .. } => inlines_text(content),
        InlineView::Autolink(url) => url,
        InlineView::Image { alt, .. } => alt,
        InlineView::TitledImage { alt, .. } => alt,
        InlineView::StyledImage { content, .. } => inlines_text(content),
        InlineView::SoftBreak => seq![' '],
        _ => Seq::empty(),
    }
}

/// Texts, one after the other.
pub open spec fn strung(v: Seq<Seq<char>>) -> Seq<char>
    decreases v.len(),
{
    if v.len() == 0 {
        Seq::empty()
    } else {
        strung(v.drop_last()) + v.last()
    }
}

proof fn strung_add(a: Seq<Seq<char>>, b: Seq<Seq<char>>)
    ensures
        strung(a + b) == strung(a) + strung(b),
    decreases b.len(),
{
    if b.len() == 0 {
        assert(a + b =~= a);
        assert(strung(a) + strung(b) =~= strung(a));
    } else {
        strung_add(a, b.drop_last());
        assert((a + b).drop_last() =~= a + b.drop_last());
        assert(strung(a + b) =~= strung(a) + strung(b));
    }
}

proof fn strung_one(t: Seq<char>)
    ensures
        strung(seq![t]) == t,
{
    reveal_with_fuel(strung, 2);
    assert(seq![t].drop_last() =~= Seq::empty());
    assert(Seq::<char>::empty() + t =~= t);
}

proof fn inline_reads(i: InlineView)
    ensures
        inline_text(i) == strung(leaves_of(i).map_values(|x: InlineView| reads(x))),
    decreases i,
{
    match i {
        InlineView::Strong(v) => text_is_what_reads(v),
        InlineView::Emphasis(v) => text_is_what_reads(v),
        InlineView::Strikethrough(v) => text_is_what_reads(v),
        _ => {
            reveal_strlit(" ");
            strung_one(reads(i));
            assert(seq![i].map_values(|x: InlineView| reads(x)) =~= seq![reads(i)]);
            assert(inline_text(i) =~= reads(i));
        },
    }
}

/// The plain text of inlines is how each of them reads, in reading order:
/// emphasis leaves no trace, and nothing is left out or comes twice.
pub proof fn text_is_what_reads(v: Seq<InlineView>)
    ensures
        inlines_text(v) == strung(leaves(v).map_values(|x: InlineView| reads(x))),
    decreases v,
{
    if v.len() > 0 {
        let f = v.drop_last();
        let l = v[v.len() - 1];
        text_is_what_reads(f);
        inline_reads(l);
        let g = |x: InlineView| reads(x);
        strung_add(leaves(f).map_values(g), leaves_of(l).map_values(g));
        assert((leaves(f) + leaves_of(l)).map_values(g) =~= leaves(f).map_values(g) + leaves_of(
            l,
        ).map_values(g));
    }
}

/// The passages of a block: its pieces of running text as they read, and the
/// text of code.
pub open spec fn passages_of(b: BlockView) -> Seq<Seq<char>>
    decreases b,
{
    match b {
        BlockView::CodeBlock { content, .. } => seq![content],
        BlockView::List { items, .. } => passages_of_items(items),
        BlockView::BlockQuote { blocks, .. } => passages(blocks),
        _ => runs_of(b).map_values(|r: Seq<InlineView>| inlines_text(r)),
    }
}

/// The passages of list items.
pub open spec fn passages_of_items(v: Seq<ListItemView>) -> Seq<Seq<char>>
    decreases v,
{
    if v.len() == 0 {
        Seq::empty()
    } else {
        passages_of_items(v.drop_last()) + passages_of_item(v[v.len() - 1])
    }
}

/// The passages of a list item.
pub open spec fn passages_of_item(item: ListItemView) -> Seq<Seq<char>>
    decreases item,
{
    seq![inlines_text(item.content)] + passages(item.children)
}

/// The passages of blocks, in reading order.
pub open spec fn passages(s: Seq<BlockView>) -> Seq<Seq<char>>
    decreases s,
{
    if s.len() == 0 {
        Seq::empty()
    } else {
        passages(s.drop_last()) + passages_of(s[s.len() - 1])
    }
}

/// Passages, each ended by a line feed.
pub open spec fn ended(v: Seq<Seq<char>>) -> Seq<char> {
    strung(v.map_values(|t: Seq<char>| t.push('\n')))
}

proof fn ended_add(a: Seq<Seq<char>>, b: Seq<Seq<char>>)
    ensures
        ended(a + b) == ended(a) + ended(b),
{
    let g = |t: Seq<char>| t.push('\n');
    strung_add(a.map_values(g), b.map_values(g));
    assert((a + b).map_values(g) =~= a.map_values(g) + b.map_values(g));
}

proof fn ended_one(t: Seq<char>)
    ensures
        ended(seq![t]) == t + "\n"@,
{
    reveal_strlit("\n");
    strung_one(t.push('\n'));
    assert(seq![t].map_values(|t: Seq<char>| t.push('\n')) =~= seq![t.push('\n')]);
    assert(t.push('\n') =~= t + "\n"@);
}

proof fn cells_end(v: Seq<Seq<InlineView>>)
    ensures
        cells_lines(v) == ended(v.map_values(|r: Seq<InlineView>| inlines_text(r))),
    decreases v.len(),
{
    let g = |r: Seq<InlineView>| inlines_text(r);
    if v.len() > 0 {
        let f = v.drop_last();
        cells_end(f);
        ended_one(inlines_text(v.last()));
        ended_add(f.map_values(g), seq![inlines_text(v.last())]);
        assert(v.map_values(g) =~= f.map_values(g) + seq![inlines_text(v.last())]);
        assert(cells_lines(v) =~= cells_lines(f) + (inlines_text(v.last()) + "\n"@));
    } else {
        assert(v.map_values(g) =~= Seq::empty());
        assert(Seq::<Seq<char>>::empty().map_values(|t: Seq<char>| t.push('\n')) =~= Seq::empty());
    }
}

proof fn rows_end(v: Seq<Seq<Seq<InlineView>>>)
    ensures
        rows_lines(v) == ended(runs_of_rows(v).map_values(|r: Seq<InlineView>| inlines_text(r))),
    decreases v.len(),
{
    let g = |r: Seq<InlineView>| inlines_text(r);
    if v.len() > 0 {
        let f = v.drop_last();
        rows_end(f);
        cells_end(v.last());
        ended_add(runs_of_rows(f).map_values(g), v.last().map_values(g));
        assert(runs_of_rows(v).map_values(g) =~= runs_of_rows(f).map_values(g)
            + v.last().map_values(g));
    } else {
        assert(runs_of_rows(v).map_values(g) =~= Seq::empty());
        assert(Seq::<Seq<char>>::empty().map_values(|t: Seq<char>| t.push('\n')) =~= Seq::empty());
    }
}

proof fn ended_none()
    ensures
        ended(Seq::empty()) == Seq::<char>::empty(),
{
    assert(Seq::<Seq<char>>::empty().map_values(|t: Seq<char>| t.push('\n')) =~= Seq::empty());
}

proof fn block_ends(b: BlockView)
    ensures
        block_lines(b) == ended(passages_of(b)),
    decreases b,
{
    let g = |r: Seq<InlineView>| inlines_text(r);
    match b {
        BlockView::Heading { content, .. } => {
            ended_one(inlines_text(content));
            assert(seq![content].map_values(g) =~= seq![inlines_text(content)]);
        },
        BlockView::Paragraph { content, .. } => {
            ended_one(inlines_text(content));
            assert(seq![content].map_values(g) =~= seq![inlines_text(content)]);
        },
        BlockView::List { items, .. } => items_end(items),
        BlockView::CodeBlock { content, .. } => ended_one(content),
        BlockView::BlockQuote { blocks, .. } => the_searched_text_is_all_text(blocks),
        BlockView::Table { header, rows, .. } => {
            cells_end(header);
            rows_end(rows);
            ended_add(header.map_values(g), runs_of_rows(rows).map_values(g));
            assert((header + runs_of_rows(rows)).map_values(g) =~= header.map_values(g)
                + runs_of_rows(rows).map_values(g));
        },
        _ => {
            ended_none();
            assert(runs_of(b).map_values(g) =~= Seq::empty());
        },
    }
}

proof fn items_end(v: Seq<ListItemView>)
    ensures
        items_lines(v) == ended(passages_of_items(v)),
    decreases v,
{
    if v.len() > 0 {
        items_end(v.drop_last());
        item_ends(v[v.len() - 1]);
        ended_add(passages_of_items(v.drop_last()), passages_of_item(v[v.len() - 1]));
    } else {
        ended_none();
    }
}

proof fn item_ends(item: ListItemView)
    ensures
        item_lines(item) == ended(passages_of_item(item)),
    decreases item,
{
    the_searched_text_is_all_text(item.children);
    ended_one(inlines_text(item.content));
    ended_add(seq![inlines_text(item.content)], passages(item.children));
}

/// The text that is searched is all text of a document, in reading order:
/// headings, paragraphs, items, cells, quotes and code, each passage on a line
/// of its own.
pub proof fn the_searched_text_is_all_text(s: Seq<BlockView>)
    ensures
        all_lines(s) == ended(passages(s)),
    decreases s,
{
    if s.len() > 0 {
        the_searched_text_is_all_text(s.drop_last());
        block_ends(s[s.len() - 1]);
        ended_add(passages(s.drop_last()), passages_of(s[s.len() - 1]));
    } else {
        ended_none();
    }
}

proof fn part_of_sum(a: Seq<char>, b: Seq<char>, p: Seq<char>)
    requires
        has_part(a, p) || has_part(b, p),
    ensures
        has_part(a + b, p),
{
    if has_part(a, p) {
        let i = choose|i: int| stands_at(a, p, i);
        assert((a + b).subrange(i, i + p.len()) =~= a.subrange(i, i + p.len()));
        assert(stands_at(a + b, p, i));
    } else {
        let i = choose|i: int| stands_at(b, p, i);
        assert((a + b).subrange(a.len() + i, a.len() + i + p.len()) =~= b.subrange(i, i + p.len()));
        assert(stands_at(a + b, p, a.len() + i));
    }
}

/// Whatever a passage of a document holds, its searched text holds.
pub proof fn every_passage_is_searched(s: Seq<BlockView>, k: int, part: Seq<char>)
    requires
        0 <= k < passages(s).len(),
        has_part(passages(s)[k], part),
    ensures
        has_part(all_lines(s), part),
{
    the_searched_text_is_all_text(s);
    let v = passages(s);
    let g = |t: Seq<char>| t.push('\n');
    part_of_sum(v[k], seq!['\n'], part);
    assert(v[k] + seq!['\n'] =~= v.map_values(g)[k]);
    part_of_strung(v.map_values(g), k, part);
}

proof fn part_of_strung(v: Seq<Seq<char>>, k: int, part: Seq<char>)
    requires
        0 <= k < v.len(),
        has_part(v[k], part),
    ensures
        has_part(strung(v), part),
    decreases v.len(),
{
    if k < v.len() - 1 {
        part_of_strung(v.drop_last(), k, part);
    }
    part_of_sum(strung(v.drop_last()), v.last(), part);
}

} // verus!
