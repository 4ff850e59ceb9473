//! The form of what is written: lines, marks and order.

use crate::ast::{inlines_markdown, BlockView, InlineView, ListItemView};
use crate::paragraph::paragraph_text;
use crate::reading::{is_whole, rows, rows_one, rows_sum};
use crate::serialize::{
    barred, cells_text, closing_feed, fence_char, fence_info, fence_text, gap, item_gap,
    item_number, item_text, list_text, longest_closing, marker, nested_text, opens_item,
    quoted_lines, row_text, softened, takes_other, top_block, top_text,
};
use crate::text::{
    decimal, has_prefix, lines_of, repeated, repeated_are_that_many, replaced, trimmed_char,
    trimmed_end_char, trimmed_start_char,
};
use crate::writing::barred_token;
use vstd::prelude::*;

verus! {

/// Blocks are written one behind the other: with one more block the text goes
/// on, with at most a blank line between.
pub proof fn blocks_are_written_in_order(s: Seq<BlockView>, b: BlockView, opens: bool)
    requires
        s.len() > 0,
    ensures
        ({
            let t = top_text(s, opens);
            let more = top_text(s.push(b), opens);
            let other = takes_other(s.push(b));
            ||| more == t + top_block(b, other)
            ||| more == t + "\n"@ + top_block(b, other)
        }),
        ({
            let blank = s[s.len() - 1] == BlockView::BlankLine;
            let other = takes_other(s.push(b));
            (b is Heading || b is ThematicBreak || b is BlockQuote) && !blank ==> top_text(
                s.push(b),
                opens,
            ) == top_text(s, opens) + "\n"@ + top_block(b, other)
        }),
{
    reveal_with_fuel(top_text, 2);
    let all = s.push(b);
    let other = takes_other(all);
    assert(all.drop_last() =~= s);
    assert(all[all.len() - 1] == b);
    assert(all[all.len() - 2] == s[s.len() - 1]);
    let g = gap(all);
    assert(top_text(all, opens) == top_text(s, opens) + g + top_block(b, other));
    if g.len() == 0 {
        assert(top_text(s, opens) + g =~= top_text(s, opens));
    }
}

/// A heading is one line: as many hashes as its level, a space, and its text.
pub proof fn a_heading_is_one_line(level: u8, content: Seq<InlineView>, line: int, other: bool)
    ensures
        ({
            let t = top_block(BlockView::Heading { level, content, line }, other);
            &&& t.len() >= level + 2
            &&& forall|i: int| 0 <= i < level ==> #[trigger] t[i] == '#'
            &&& t[level as int] == ' '
            &&& t.last() == '\n'
            &&& forall|i: int| 0 <= i < t.len() - 1 ==> #[trigger] t[i] != '\n'
        }),
{
    reveal_strlit("#");
    reveal_strlit(" ");
    reveal_strlit("\n");
    assert("#"@ =~= seq!['#']);
    repeated_are_that_many('#', level as nat);
    let m = inlines_markdown(softened(content), true);
    let r = replaced(m, '\n', " "@);
    no_feed_is_left(m);
    let c = trimmed_char(r, ' ');
    trimmed_keeps_out(r, ' ', '\n');
    let t = top_block(BlockView::Heading { level, content, line }, other);
    let hashes = repeated("#"@, level as nat);
    assert(t =~= hashes + " "@ + c + "\n"@);
    assert forall|i: int| 0 <= i < t.len() - 1 implies #[trigger] t[i] != '\n' by {
        if i < level {
            assert(t[i] == hashes[i]);
        } else if i > level {
            assert(t[i] == c[i - level - 1]);
        }
    }
}

proof fn no_feed_is_left(s: Seq<char>)
    ensures
        !replaced(s, '\n', " "@).contains('\n'),
    decreases s.len(),
{
    reveal_strlit(" ");
    if s.len() > 0 {
        no_feed_is_left(s.drop_last());
        let f = replaced(s.drop_last(), '\n', " "@);
        let r = replaced(s, '\n', " "@);
        assert forall|i: int| 0 <= i < r.len() implies r[i] != '\n' by {
            if i < f.len() {
                assert(f[i] != '\n');
            }
        }
    }
}

proof fn trimmed_keeps_out(s: Seq<char>, c: char, d: char)
    requires
        !s.contains(d),
    ensures
        !trimmed_char(s, c).contains(d),
{
    start_keeps_out(s, c, d);
    end_keeps_out(trimmed_start_char(s, c), c, d);
}

proof fn start_keeps_out(s: Seq<char>, c: char, d: char)
    requires
        !s.contains(d),
    ensures
        !trimmed_start_char(s, c).contains(d),
    decreases s.len(),
{
    if s.len() > 0 && s[0] == c {
        let r = s.skip(1);
        assert forall|i: int| 0 <= i < r.len() implies r[i] != d by {
            assert(s[i + 1] != d);
        }
        start_keeps_out(r, c, d);
    }
}

proof fn end_keeps_out(s: Seq<char>, c: char, d: char)
    requires
        !s.contains(d),
    ensures
        !trimmed_end_char(s, c).contains(d),
    decreases s.len(),
{
    if s.len() > 0 && s.last() == c {
        let r = s.drop_last();
        assert forall|i: int| 0 <= i < r.len() implies r[i] != d by {
            assert(s[i] != d);
        }
        end_keeps_out(r, c, d);
    }
}

/// The items of a list are written one behind the other, each behind its
/// marker and a space. The marker of an ordered list is the number of the
/// item, counted from the start of the list, and a point or a parenthesis;
/// that of another list is a dash or a star.
#[verifier::rlimit(60)]
pub proof fn items_are_written_in_order(
    items: Seq<ListItemView>,
    item: ListItemView,
    ordered: bool,
    start: u64,
    other: bool,
    indent: Seq<char>,
)
    requires
        start + items.len() <= u64::MAX,
    ensures
        ({
            let mark = if ordered {
                decimal((start + items.len()) as nat) + (if other {
                    ")"@
                } else {
                    "."@
                })
            } else if other {
                "*"@
            } else {
                "-"@
            };
            let before = list_text(items, ordered, start, other, indent);
            let all = list_text(items.push(item), ordered, start, other, indent);
            &&& (before + indent + mark + " "@).is_prefix_of(all)
            &&& !opens_item(item) ==> (before + indent + mark + " "@ + paragraph_text(
                inlines_markdown(item.content, true),
                indent + repeated(" "@, mark.len() + 1),
            ) + "\n"@).is_prefix_of(all)
            &&& list_text(Seq::empty(), ordered, start, other, indent).len() == 0
        }),
{
    reveal_with_fuel(list_text, 2);
    let mark = marker(ordered, other, item_number(start, items.len() as int));
    let all = list_text(items.push(item), ordered, start, other, indent);
    let before = list_text(items, ordered, start, other, indent);
    assert(items.push(item).drop_last() =~= items);
    let own = item_text(item, mark, indent);
    assert(all == before + own);
    an_item_starts_with_its_marker(item, mark, indent);
    let a = indent + mark + " "@;
    assert(before + indent + mark + " "@ =~= before + a);
    prefix_behind(before, a, own);
    if !opens_item(item) {
        let p = paragraph_text(
            inlines_markdown(item.content, true),
            indent + repeated(" "@, mark.len() + 1),
        );
        assert(before + indent + mark + " "@ + p + "\n"@ =~= before + (a + p + "\n"@));
        prefix_behind(before, a + p + "\n"@, own);
    }
}

proof fn prefix_behind(a: Seq<char>, b: Seq<char>, c: Seq<char>)
    requires
        b.is_prefix_of(c),
    ensures
        (a + b).is_prefix_of(a + c),
{
    assert(b =~= c.take(b.len() as int));
    assert(a + b =~= (a + c).take((a + b).len() as int));
}

proof fn an_item_starts_with_its_marker(item: ListItemView, mark: Seq<char>, indent: Seq<char>)
    ensures
        (indent + mark + " "@).is_prefix_of(item_text(item, mark, indent)),
        !opens_item(item) ==> (indent + mark + " "@ + paragraph_text(
            inlines_markdown(item.content, true),
            indent + repeated(" "@, mark.len() + 1),
        ) + "\n"@).is_prefix_of(item_text(item, mark, indent)),
{
    let all = item_text(item, mark, indent);
    let p = indent + mark + " "@;
    let deeper = indent + repeated(" "@, mark.len() + 1);
    let inner = nested_text(item.children, deeper);
    let m = paragraph_text(inlines_markdown(item.content, true), deeper);
    if opens_item(item) && has_prefix(inner, deeper) {
        assert(p =~= all.take(p.len() as int));
    } else {
        let q = p + m + "\n"@;
        assert(all =~= q + (item_gap(item) + inner));
        assert(q =~= all.take(q.len() as int));
        assert(p =~= all.take(p.len() as int));
    }
}

/// A text between two fences.
pub open spec fn fenced(
    fence: Seq<char>,
    info: Seq<char>,
    content: Seq<char>,
    feed: Seq<char>,
) -> Seq<char> {
    fence + info + "\n"@ + content + feed + fence + "\n"@
}

/// A code block is written between two fences, with its language behind the
/// first and its content as it is; no line of the content closes the fence.
pub proof fn code_is_written_as_it_is(
    language: Option<Seq<char>>,
    info: Seq<char>,
    content: Seq<char>,
    line: int,
    other: bool,
)
    requires
        language matches Some(l) ==> info == l,
        language is None ==> info.len() == 0,
    ensures
        ({
            let t = top_block(BlockView::CodeBlock { language, content, line }, other);
            exists|fence: Seq<char>, feed: Seq<char>|
                {
                    &&& t == #[trigger] fenced(fence, info, content, feed)
                    &&& fence.len() >= 3
                    &&& forall|i: int|
                        0 <= i < fence.len() ==> #[trigger] fence[i] == (if info.contains('`') {
                            '~'
                        } else {
                            '`'
                        })
                    &&& feed == (if content.len() > 0 && content.last() == '\n' {
                        Seq::empty()
                    } else {
                        "\n"@
                    })
                }
        }),
{
    reveal_strlit("");
    assert(fence_info(language) =~= info);
    let fence = fence_text(info, content);
    let feed = closing_feed(content);
    let c = fence_char(info);
    let n = longest_closing(lines_of(content), c);
    repeated_are_that_many(c, 3);
    repeated_are_that_many(
        c,
        if n < 3 {
            3
        } else {
            (n + 1) as nat
        },
    );
    let t = top_block(BlockView::CodeBlock { language, content, line }, other);
    assert(t =~= fenced(fence, info, content, feed));
    assert(fence.len() >= 3);
    assert forall|i: int| 0 <= i < fence.len() implies #[trigger] fence[i] == c by {}
    assert(c == (if info.contains('`') {
        '~'
    } else {
        '`'
    }));
}

/// Raw HTML is written as it is, with a line feed at its end.
pub proof fn html_is_written_as_it_is(content: Seq<char>, line: int, other: bool)
    ensures
        ({
            let t = top_block(BlockView::Html { content, line }, other);
            if content.len() > 0 && content.last() == '\n' {
                t == content
            } else {
                t == content + "\n"@
            }
        }),
{
    let t = top_block(BlockView::Html { content, line }, other);
    if content.len() > 0 && content.last() == '\n' {
        assert(t =~= content);
    }
}

/// A row of a table is one line for each of its columns: a bar, and for every
/// column the cell between spaces and a bar. A cell without bars in it is
/// written as its markdown; a column without a cell is empty.
pub proof fn a_row_has_its_cells(
    cells: Seq<Seq<InlineView>>,
    n: nat,
    indent: Seq<char>,
)
    ensures
        row_text(cells, 0, indent) == indent + "|"@ + "\n"@,
        n < cells.len() && !inlines_markdown(cells[n as int], true).contains('|')
            ==> cells_text(cells, n + 1) == cells_text(cells, n) + " "@ + inlines_markdown(
            cells[n as int],
            true,
        ) + " |"@,
        n >= cells.len() ==> cells_text(cells, n + 1) == cells_text(cells, n) + "  |"@,
        row_text(cells, n, indent) == indent + "|"@ + cells_text(cells, n) + "\n"@,
{
    reveal_strlit(" ");
    reveal_strlit(" |");
    reveal_strlit("  |");
    assert(row_text(cells, 0, indent) =~= indent + "|"@ + "\n"@);
    if n < cells.len() {
        let m = inlines_markdown(cells[n as int], true);
        if !m.contains('|') {
            assert forall|i: int| 0 <= i < m.len() implies #[trigger] m[i] != '|' by {
                if m[i] == '|' {
                    assert(m.contains('|'));
                }
            }
            barred_token(Seq::empty(), m);
            assert(Seq::<char>::empty() + m =~= m);
            assert(barred(Seq::empty()) + m =~= m);
            assert(cells_text(cells, n + 1) =~= cells_text(cells, n) + " "@ + m + " |"@);
        }
    } else {
        assert(cells_text(cells, n + 1) =~= cells_text(cells, n) + "  |"@);
    }
}

/// Every line of a quote is written behind its mark, and nothing else is
/// done to it.
#[verifier::rlimit(60)]
pub proof fn quotes_are_marked_line_by_line(ls: Seq<Seq<char>>)
    requires
        forall|i: int| 0 <= i < ls.len() ==> !(#[trigger] ls[i]).contains('\n'),
    ensures
        is_whole(quoted_lines(ls)),
        rows(quoted_lines(ls)).len() == ls.len(),
        forall|i: int|
            0 <= i < ls.len() ==> #[trigger] rows(quoted_lines(ls))[i] == (if ls[i].len() == 0 {
                ">"@
            } else {
                "> "@ + ls[i]
            }),
    decreases ls.len(),
{
    reveal_strlit(">\n");
    reveal_strlit("> ");
    reveal_strlit(">");
    reveal_strlit("\n");
    assert(rows(Seq::empty()) =~= Seq::<Seq<char>>::empty());
    if ls.len() > 0 {
        let f = ls.drop_last();
        let n = ls.len() - 1;
        assert forall|i: int| 0 <= i < f.len() implies !(#[trigger] f[i]).contains('\n') by {
            assert(f[i] == ls[i]);
        }
        quotes_are_marked_line_by_line(f);
        let l = if ls[n].len() == 0 {
            ">"@
        } else {
            "> "@ + ls[n]
        };
        a_marked_line(ls[n]);
        rows_one(l);
        rows_sum(quoted_lines(f), l.push('\n'));
        assert(quoted_lines(ls) =~= quoted_lines(f) + l.push('\n'));
        let all = rows(quoted_lines(ls));
        assert(all =~= rows(quoted_lines(f)) + seq![l]);
        assert forall|i: int| 0 <= i < ls.len() implies #[trigger] all[i] == (if ls[i].len() == 0 {
            ">"@
        } else {
            "> "@ + ls[i]
        }) by {
            if i < n {
                assert(all[i] == rows(quoted_lines(f))[i]);
                assert(f[i] == ls[i]);
            }
        }
    }
}

proof fn a_marked_line(s: Seq<char>)
    requires
        !s.contains('\n'),
    ensures
        !(if s.len() == 0 {
            ">"@
        } else {
            "> "@ + s
        }).contains('\n'),
{
    reveal_strlit("> ");
    reveal_strlit(">");
    let l = "> "@ + s;
    assert forall|i: int| 0 <= i < l.len() implies l[i] != '\n' by {
        if i >= 2 {
            assert(l[i] == s[i - 2]);
        }
    }
}

} // verus!
