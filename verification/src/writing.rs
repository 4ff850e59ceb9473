//! That writing a document loses nothing of what stands in it.

use crate::ast::{
    exact_code, exact_link, inline_markdown, inlines_markdown, longest_run, needs_brackets,
    title_text, BlockView, DocumentView, InlineView, ListItemView,
};
use crate::paragraph::{guard_place, guarded_line, guarded_lines, is_first_item, paragraph_text, run_end};
use crate::serialize::{
    barred, cells_text, column_count, document_text, entries_text, finished, heading_text,
    indented, item_text, list_text, nested_block, nested_text, opens_item, quote_text,
    quoted_lines, row_text, rows_text, softened, table_text, top_block, top_text, two_feeds,
    written_entries,
};
use crate::standing::{
    stands_among, stands_in, stands_in_block, stands_in_items, stands_in_rows, stands_inside,
    url_of,
};
use crate::text::{
    has_part, has_prefix, joined, lines_of, pieces, pieces_extended, pieces_not_empty, repeated,
    repeated_are_that_many, replaced, replacing_works_by_character, stands_at, trimmed_char,
    trimmed_end_char, trimmed_start_char, without_cr,
};
use vstd::prelude::*;

verus! {

// ── parts of texts ────────────────────────────────────────────────────────

/// Whether a text is in one piece for everything that is done to lines: it
/// does not begin with a digit, and holds no space, bar, line feed or
/// carriage return.
pub open spec fn is_token(w: Seq<char>) -> bool {
    &&& w.len() > 0
    &&& !('0' <= w[0] <= '9')
    &&& forall|i: int|
        0 <= i < w.len() ==> #[trigger] w[i] != ' ' && w[i] != '|' && w[i] != '\n' && w[i] != '\r'
}

/// A part of a text is a part of what the text is a part of.
pub proof fn part_of_either(a: Seq<char>, b: Seq<char>, w: Seq<char>)
    requires
        has_part(a, w) || has_part(b, w),
    ensures
        has_part(a + b, w),
{
    if has_part(a, w) {
        let i = choose|i: int| stands_at(a, w, i);
        assert((a + b).subrange(i, i + w.len()) =~= a.subrange(i, i + w.len()));
        assert(stands_at(a + b, w, i));
    } else {
        let i = choose|i: int| stands_at(b, w, i);
        let j = a.len() + i;
        assert((a + b).subrange(j, j + w.len()) =~= b.subrange(i, i + w.len()));
        assert(stands_at(a + b, w, j));
    }
}

proof fn part_of_itself(w: Seq<char>)
    ensures
        has_part(w, w),
{
    assert(w.subrange(0, w.len() as int) =~= w);
    assert(stands_at(w, w, 0));
}

proof fn part_of_part(a: Seq<char>, b: Seq<char>, w: Seq<char>)
    requires
        has_part(a, b),
        has_part(b, w),
    ensures
        has_part(a, w),
{
    let i = choose|i: int| stands_at(a, b, i);
    let j = choose|j: int| stands_at(b, w, j);
    let m = a.subrange(i, i + b.len());
    assert(a.subrange(i + j, i + j + w.len()) =~= m.subrange(j, j + w.len()));
    assert(stands_at(a, w, i + j));
}

/// A text around its part.
proof fn around_a_part(s: Seq<char>, w: Seq<char>) -> (r: (Seq<char>, Seq<char>))
    requires
        has_part(s, w),
    ensures
        s == r.0 + w + r.1,
{
    let i = choose|i: int| stands_at(s, w, i);
    let a = s.take(i);
    let b = s.skip(i + w.len());
    assert(s =~= a + w + b) by {
        assert forall|k: int| i <= k < i + w.len() implies s[k] == w[k - i] by {
            assert(s.subrange(i, i + w.len())[k - i] == s[k]);
        }
    }
    (a, b)
}

proof fn part_between(a: Seq<char>, w: Seq<char>, b: Seq<char>)
    ensures
        has_part(a + w + b, w),
{
    part_of_itself(w);
    part_of_either(a, w, w);
    part_of_either(a + w, b, w);
}

proof fn piece_grows(s: Seq<char>, c: char, t: Seq<char>, w: Seq<char>, i: int)
    requires
        0 <= i < pieces(s, c).len(),
        has_part(pieces(s, c)[i], w),
    ensures
        pieces(s + t, c).len() >= pieces(s, c).len(),
        has_part(pieces(s + t, c)[i], w),
    decreases t.len(),
{
    if t.len() == 0 {
        assert(s + t =~= s);
    } else {
        let f = t.drop_last();
        piece_grows(s, c, f, w, i);
        assert((s + t).drop_last() =~= s + f);
        assert((s + t).last() == t.last());
        let p = pieces(s + f, c);
        if t.last() != c && i == p.len() - 1 {
            part_of_either(p[i], seq![t.last()], w);
            assert(p.last().push(t.last()) =~= p[i] + seq![t.last()]);
        }
    }
}

proof fn part_of_a_piece(s: Seq<char>, c: char, w: Seq<char>) -> (i: int)
    requires
        has_part(s, w),
        !w.contains(c),
    ensures
        0 <= i < pieces(s, c).len(),
        has_part(pieces(s, c)[i], w),
{
    let (a, b) = around_a_part(s, w);
    pieces_not_empty(a, c);
    pieces_extended(a, c, w);
    let p = pieces(a + w, c);
    let n = p.len() - 1;
    part_of_itself(w);
    part_of_either(pieces(a, c).last(), w, w);
    assert(p[n] == pieces(a, c).last() + w);
    piece_grows(a + w, c, b, w, n);
    n
}

proof fn part_of_joined(v: Seq<Seq<char>>, sep: Seq<char>, w: Seq<char>, i: int)
    requires
        0 <= i < v.len(),
        has_part(v[i], w),
    ensures
        has_part(joined(v, sep), w),
    decreases v.len(),
{
    if v.len() > 1 {
        let f = v.drop_last();
        if i < f.len() {
            assert(f[i] == v[i]);
            part_of_joined(f, sep, w, i);
            part_of_either(joined(f, sep), sep, w);
            part_of_either(joined(f, sep) + sep, v.last(), w);
        } else {
            part_of_either(joined(f, sep) + sep, v.last(), w);
        }
    }
}

proof fn token_without_cr(l: Seq<char>, w: Seq<char>)
    requires
        is_token(w),
        has_part(l, w),
    ensures
        has_part(without_cr(l), w),
{
    if l.len() > 0 && l.last() == '\r' {
        let i = choose|i: int| stands_at(l, w, i);
        let n = w.len() as int;
        if i + n == l.len() {
            assert(l.subrange(i, i + n)[n - 1] == l.last());
            assert(w[n - 1] != '\r');
        }
        assert(l.drop_last().subrange(i, i + n) =~= l.subrange(i, i + n));
        assert(stands_at(l.drop_last(), w, i));
    }
}

proof fn token_of_a_line(s: Seq<char>, w: Seq<char>) -> (i: int)
    requires
        is_token(w),
        has_part(s, w),
    ensures
        0 <= i < lines_of(s).len(),
        has_part(lines_of(s)[i], w),
{
    assert(!w.contains('\n'));
    let i = part_of_a_piece(s, '\n', w);
    let p = pieces(s, '\n');
    if i < p.len() - 1 {
        token_without_cr(p[i], w);
        assert(lines_of(s)[i] == without_cr(p[i]));
    } else {
        let k = choose|k: int| stands_at(p[i], w, k);
        assert(p[i].len() > 0);
        assert(lines_of(s)[i] == p[i]);
    }
    i
}

proof fn part_of_indented(ls: Seq<Seq<char>>, indent: Seq<char>, w: Seq<char>, i: int)
    requires
        is_token(w),
        0 <= i < ls.len(),
        has_part(ls[i], w),
    ensures
        has_part(indented(ls, indent), w),
    decreases ls.len(),
{
    let f = ls.drop_last();
    let own = if ls.last().len() == 0 {
        "\n"@
    } else {
        indent + ls.last() + "\n"@
    };
    if i < f.len() {
        assert(f[i] == ls[i]);
        part_of_indented(f, indent, w, i);
    } else {
        let k = choose|k: int| stands_at(ls[i], w, k);
        part_of_either(indent, ls.last(), w);
        part_of_either(indent + ls.last(), "\n"@, w);
    }
    part_of_either(indented(f, indent), own, w);
}

proof fn part_of_quoted(ls: Seq<Seq<char>>, w: Seq<char>, i: int)
    requires
        is_token(w),
        0 <= i < ls.len(),
        has_part(ls[i], w),
    ensures
        has_part(quoted_lines(ls), w),
    decreases ls.len(),
{
    let f = ls.drop_last();
    let own = if ls.last().len() == 0 {
        ">\n"@
    } else {
        "> "@ + ls.last() + "\n"@
    };
    if i < f.len() {
        assert(f[i] == ls[i]);
        part_of_quoted(f, w, i);
    } else {
        let k = choose|k: int| stands_at(ls[i], w, k);
        part_of_either("> "@, ls.last(), w);
        part_of_either("> "@ + ls.last(), "\n"@, w);
    }
    part_of_either(quoted_lines(f), own, w);
}

proof fn part_without_last(s: Seq<char>, w: Seq<char>)
    requires
        has_part(s, w),
        w.len() > 0,
        s.last() != w.last(),
    ensures
        has_part(s.drop_last(), w),
{
    let i = choose|i: int| stands_at(s, w, i);
    let n = w.len() as int;
    if i + n == s.len() {
        assert(s.subrange(i, i + n)[n - 1] == s.last());
    }
    assert(s.drop_last().subrange(i, i + n) =~= s.subrange(i, i + n));
    assert(stands_at(s.drop_last(), w, i));
}

proof fn part_without_first(s: Seq<char>, w: Seq<char>)
    requires
        has_part(s, w),
        w.len() > 0,
        s[0] != w[0],
    ensures
        has_part(s.skip(1), w),
{
    let i = choose|i: int| stands_at(s, w, i);
    let n = w.len() as int;
    if i == 0 {
        assert(s.subrange(0, n)[0] == s[0]);
    }
    assert(s.skip(1).subrange(i - 1, i - 1 + n) =~= s.subrange(i, i + n));
    assert(stands_at(s.skip(1), w, i - 1));
}

proof fn part_of_trimmed_end(s: Seq<char>, c: char, w: Seq<char>)
    requires
        has_part(s, w),
        w.len() > 0,
        w.last() != c,
    ensures
        has_part(trimmed_end_char(s, c), w),
    decreases s.len(),
{
    if s.len() > 0 && s.last() == c {
        part_without_last(s, w);
        part_of_trimmed_end(s.drop_last(), c, w);
    }
}

proof fn part_of_trimmed_start(s: Seq<char>, c: char, w: Seq<char>)
    requires
        has_part(s, w),
        w.len() > 0,
        w[0] != c,
    ensures
        has_part(trimmed_start_char(s, c), w),
    decreases s.len(),
{
    if s.len() > 0 && s[0] == c {
        part_without_first(s, w);
        part_of_trimmed_start(s.skip(1), c, w);
    }
}

proof fn part_of_replaced(s: Seq<char>, c: char, by: Seq<char>, w: Seq<char>)
    requires
        has_part(s, w),
        !w.contains(c),
    ensures
        has_part(replaced(s, c, by), w),
{
    let (a, b) = around_a_part(s, w);
    replacing_works_by_character(a, w, c, by);
    replacing_works_by_character(a + w, b, c, by);
    replacing_works_by_character(w, Seq::empty(), c, by);
    part_between(replaced(a, c, by), w, replaced(b, c, by));
}

/// Bars apart, a cell is written as it is.
pub proof fn barred_token(a: Seq<char>, w: Seq<char>)
    requires
        forall|i: int| 0 <= i < w.len() ==> #[trigger] w[i] != '|',
    ensures
        barred(a + w) == barred(a) + w,
    decreases w.len(),
{
    if w.len() == 0 {
        assert(a + w =~= a);
        assert(barred(a) + w =~= barred(a));
    } else {
        let f = w.drop_last();
        assert forall|i: int| 0 <= i < f.len() implies #[trigger] f[i] != '|' by {
            assert(f[i] == w[i]);
        }
        barred_token(a, f);
        assert((a + w).drop_last() =~= a + f);
        assert((a + w).last() == w[w.len() - 1]);
        assert(barred(a + w) =~= barred(a) + w);
    }
}

proof fn part_of_barred(s: Seq<char>, t: Seq<char>, w: Seq<char>)
    requires
        has_part(barred(s), w),
    ensures
        has_part(barred(s + t), w),
    decreases t.len(),
{
    if t.len() == 0 {
        assert(s + t =~= s);
    } else {
        let f = t.drop_last();
        part_of_barred(s, f, w);
        let all = s + t;
        assert(all.drop_last() =~= s + f);
        if all.last() == '|' && !(all.len() > 1 && all[all.len() - 2] == '\\') {
            part_of_either(barred(s + f), "\\|"@, w);
        } else {
            part_of_either(barred(s + f), seq![all.last()], w);
            assert(barred(s + f).push(all.last()) =~= barred(s + f) + seq![all.last()]);
        }
    }
}

proof fn token_of_barred(s: Seq<char>, w: Seq<char>)
    requires
        is_token(w),
        has_part(s, w),
    ensures
        has_part(barred(s), w),
{
    let (a, b) = around_a_part(s, w);
    assert forall|i: int| 0 <= i < w.len() implies #[trigger] w[i] != '|' by {
        assert(w[i] != ' ');
    }
    barred_token(a, w);
    part_of_itself(w);
    part_of_either(barred(a), w, w);
    part_of_barred(a + w, b, w);
}

proof fn token_of_finished(s: Seq<char>, w: Seq<char>)
    requires
        is_token(w),
        has_part(s, w),
    ensures
        has_part(two_feeds(s), w),
        has_part(finished(s), w),
    decreases s.len(),
{
    let n = s.len() as int;
    if n >= 3 && s[n - 1] == '\n' && s[n - 2] == '\n' && s[n - 3] == '\n' {
        assert(w[w.len() - 1] != '\n');
        part_without_last(s, w);
        token_of_finished(s.drop_last(), w);
    }
    part_of_either(two_feeds(s), seq!['\n'], w);
    assert(two_feeds(s).push('\n') =~= two_feeds(s) + seq!['\n']);
}

proof fn run_of_zeros(s: Seq<char>, i: int)
    requires
        0 <= i <= s.len(),
    ensures
        i <= run_end(s, '0', i) <= s.len(),
        forall|k: int| i <= k < run_end(s, '0', i) ==> #[trigger] s[k] == '0',
    decreases s.len() - i,
{
    if i < s.len() && s[i] == '0' {
        run_of_zeros(s, i + 1);
    }
}

proof fn token_of_guarded(above: Seq<char>, first: bool, s: Seq<char>, w: Seq<char>)
    requires
        is_token(w),
        has_part(s, w),
    ensures
        has_part(guarded_line(above, first, s), w),
{
    let n = w.len() as int;
    let i = choose|i: int| stands_at(s, w, i);
    match guard_place(above, first, s) {
        Some(k) => {
            run_of_zeros(s, 0);
            assert(s.subrange(i, i + n)[0] == s[i]);
            assert(i >= k);
            let b = s.skip(k);
            assert(b.subrange(i - k, i - k + n) =~= s.subrange(i, i + n));
            assert(stands_at(b, w, i - k));
            part_of_either(s.take(k) + "\\"@, b, w);
        },
        None => {
            part_of_either("    "@, s, w);
        },
    }
}

proof fn as_many_guarded_lines(ls: Seq<Seq<char>>)
    ensures
        guarded_lines(ls).len() == ls.len(),
    decreases ls.len(),
{
    if ls.len() > 1 {
        as_many_guarded_lines(ls.drop_last());
    }
}

proof fn token_of_guarded_lines(ls: Seq<Seq<char>>, w: Seq<char>, i: int)
    requires
        is_token(w),
        0 <= i < ls.len(),
        has_part(ls[i], w),
    ensures
        guarded_lines(ls).len() == ls.len(),
        has_part(guarded_lines(ls)[i], w),
    decreases ls.len(),
{
    as_many_guarded_lines(ls);
    if ls.len() > 1 {
        let f = ls.drop_last();
        let above = guarded_lines(f);
        as_many_guarded_lines(f);
        if i < f.len() {
            assert(f[i] == ls[i]);
            token_of_guarded_lines(f, w, i);
            assert(guarded_lines(ls)[i] == above[i]);
        } else {
            token_of_guarded(above.last(), above.len() == 1, ls.last(), w);
        }
    }
}

/// A paragraph keeps what is in one piece.
pub proof fn a_paragraph_keeps_tokens(s: Seq<char>, indent: Seq<char>, w: Seq<char>)
    requires
        is_token(w),
        has_part(s, w),
    ensures
        has_part(paragraph_text(s, indent), w),
{
    assert(!w.contains('\n'));
    let i = part_of_a_piece(s, '\n', w);
    token_of_guarded_lines(pieces(s, '\n'), w, i);
    part_of_joined(guarded_lines(pieces(s, '\n')), "\n"@ + indent, w, i);
}

// ── inlines ───────────────────────────────────────────────────────────────

proof fn an_inline_is_written(v: Seq<InlineView>, exact: bool, k: int)
    requires
        0 <= k < v.len(),
    ensures
        has_part(inlines_markdown(v, exact), inline_markdown(v[k], exact)),
    decreases v.len(),
{
    reveal_with_fuel(inlines_markdown, 2);
    let f = v.drop_last();
    let n = v.len() - 1;
    let m = inline_markdown(v[k], exact);
    if k < n {
        assert(f[k] == v[k]);
        an_inline_is_written(f, exact, k);
    } else {
        part_of_itself(m);
    }
    part_of_either(inlines_markdown(f, exact), inline_markdown(v[n], exact), m);
}

/// The markdown of an inline stands in that of what it stands among, at any
/// depth of emphasis.
pub proof fn what_stands_among_is_written(x: InlineView, v: Seq<InlineView>, exact: bool)
    requires
        stands_among(x, v),
    ensures
        has_part(inlines_markdown(v, exact), inline_markdown(x, exact)),
    decreases v,
{
    let k = choose|k: int|
        #![trigger v[k]]
        0 <= k < v.len() && (v[k] == x || stands_inside(x, v[k]));
    an_inline_is_written(v, exact, k);
    let m = inline_markdown(x, exact);
    if v[k] != x {
        reveal_with_fuel(inline_markdown, 2);
        match v[k] {
            InlineView::Strong(inner) => {
                what_stands_among_is_written(x, inner, exact);
                part_of_either("**"@, inlines_markdown(inner, exact), m);
                part_of_either("**"@ + inlines_markdown(inner, exact), "**"@, m);
            },
            InlineView::Emphasis(inner) => {
                what_stands_among_is_written(x, inner, exact);
                part_of_either("*"@, inlines_markdown(inner, exact), m);
                part_of_either("*"@ + inlines_markdown(inner, exact), "*"@, m);
            },
            InlineView::Strikethrough(inner) => {
                what_stands_among_is_written(x, inner, exact);
                part_of_either("~~"@, inlines_markdown(inner, exact), m);
                part_of_either("~~"@ + inlines_markdown(inner, exact), "~~"@, m);
            },
            _ => {},
        }
        part_of_part(inlines_markdown(v, exact), inline_markdown(v[k], exact), m);
    }
}

/// Inlines are written one behind the other.
pub proof fn inlines_are_written_in_order(a: Seq<InlineView>, b: Seq<InlineView>, exact: bool)
    ensures
        inlines_markdown(a + b, exact) == inlines_markdown(a, exact) + inlines_markdown(b, exact),
    decreases b.len(),
{
    reveal_with_fuel(inlines_markdown, 2);
    if b.len() == 0 {
        assert(a + b =~= a);
        assert(inlines_markdown(a, exact) + inlines_markdown(b, exact) =~= inlines_markdown(
            a,
            exact,
        ));
    } else {
        inlines_are_written_in_order(a, b.drop_last(), exact);
        assert((a + b).drop_last() =~= a + b.drop_last());
        assert((a + b)[(a + b).len() - 1] == b[b.len() - 1]);
        assert(inlines_markdown(a + b, exact) =~= inlines_markdown(a, exact) + inlines_markdown(
            b,
            exact,
        ));
    }
}

proof fn softening_keeps_the_rest(x: InlineView, v: Seq<InlineView>)
    requires
        stands_among(x, v),
        !(x is HardBreak),
    ensures
        stands_among(x, softened(v)),
{
    let k = choose|k: int|
        #![trigger v[k]]
        0 <= k < v.len() && (v[k] == x || stands_inside(x, v[k]));
    assert(softened(v)[k] == v[k]);
}

// ── blocks ────────────────────────────────────────────────────────────────

/// Whether the token `w` is written where `x` is.
pub open spec fn writes(x: InlineView, w: Seq<char>) -> bool {
    is_token(w) && has_part(inline_markdown(x, true), w) && !(x is HardBreak)
}

proof fn content_is_written(x: InlineView, v: Seq<InlineView>, w: Seq<char>)
    requires
        writes(x, w),
        stands_among(x, v),
    ensures
        has_part(inlines_markdown(v, true), w),
{
    what_stands_among_is_written(x, v, true);
    part_of_part(inlines_markdown(v, true), inline_markdown(x, true), w);
}

proof fn a_heading_is_written(
    x: InlineView,
    level: u8,
    content: Seq<InlineView>,
    indent: Seq<char>,
    w: Seq<char>,
)
    requires
        writes(x, w),
        stands_among(x, content),
    ensures
        has_part(heading_text(level, content, indent), w),
{
    softening_keeps_the_rest(x, content);
    content_is_written(x, softened(content), w);
    let m = inlines_markdown(softened(content), true);
    assert(!w.contains('\n'));
    part_of_replaced(m, '\n', " "@, w);
    let r = replaced(m, '\n', " "@);
    assert(w[0] != ' ' && w[w.len() - 1] != ' ');
    part_of_trimmed_start(r, ' ', w);
    part_of_trimmed_end(trimmed_start_char(r, ' '), ' ', w);
    let head = indent + repeated("#"@, level as nat) + " "@;
    part_of_either(head, trimmed_char(r, ' '), w);
    part_of_either(head + trimmed_char(r, ' '), "\n"@, w);
}

proof fn a_cell_is_written(
    x: InlineView,
    cells: Seq<Seq<InlineView>>,
    n: nat,
    c: int,
    w: Seq<char>,
)
    requires
        writes(x, w),
        0 <= c < n,
        c < cells.len(),
        stands_among(x, cells[c]),
    ensures
        has_part(cells_text(cells, n), w),
    decreases n,
{
    let i = (n - 1) as nat;
    let cell = if i < cells.len() {
        barred(inlines_markdown(cells[i as int], true))
    } else {
        Seq::empty()
    };
    if c < i {
        a_cell_is_written(x, cells, i, c, w);
    } else {
        content_is_written(x, cells[c], w);
        token_of_barred(inlines_markdown(cells[c], true), w);
        part_of_either(" "@, cell, w);
        part_of_either(" "@ + cell, " |"@, w);
    }
    part_of_either(cells_text(cells, i), " "@ + cell + " |"@, w);
}

proof fn a_row_is_written(
    x: InlineView,
    cells: Seq<Seq<InlineView>>,
    n: nat,
    indent: Seq<char>,
    c: int,
    w: Seq<char>,
)
    requires
        writes(x, w),
        0 <= c < n,
        c < cells.len(),
        stands_among(x, cells[c]),
    ensures
        has_part(row_text(cells, n, indent), w),
{
    a_cell_is_written(x, cells, n, c, w);
    part_of_either(indent + "|"@, cells_text(cells, n), w);
    part_of_either(indent + "|"@ + cells_text(cells, n), "\n"@, w);
}

proof fn rows_are_written(
    x: InlineView,
    rows: Seq<Seq<Seq<InlineView>>>,
    n: nat,
    indent: Seq<char>,
    r: int,
    c: int,
    w: Seq<char>,
)
    requires
        writes(x, w),
        0 <= r < rows.len(),
        0 <= c < n,
        c < rows[r].len(),
        stands_among(x, rows[r][c]),
    ensures
        has_part(rows_text(rows, n, indent), w),
    decreases rows.len(),
{
    let f = rows.drop_last();
    if r < f.len() {
        assert(f[r] == rows[r]);
        rows_are_written(x, f, n, indent, r, c, w);
    } else {
        a_row_is_written(x, rows.last(), n, indent, c, w);
    }
    part_of_either(rows_text(f, n, indent), row_text(rows.last(), n, indent), w);
}

/// Whether no row of a table has more cells than it has columns.
pub open spec fn fits_columns(rows: Seq<Seq<Seq<InlineView>>>, n: nat) -> bool {
    forall|r: int| 0 <= r < rows.len() ==> (#[trigger] rows[r]).len() <= n
}

/// Whether every table among the blocks, at any depth, has a column for each
/// cell.
pub open spec fn all_fit(s: Seq<BlockView>) -> bool
    decreases s,
{
    forall|k: int| #![trigger s[k]] 0 <= k < s.len() ==> block_fits(s[k])
}

/// Whether every table of the block has a column for each cell.
pub open spec fn block_fits(b: BlockView) -> bool
    decreases b,
{
    match b {
        BlockView::List { items, .. } => items_fit(items),
        BlockView::BlockQuote { blocks, .. } => all_fit(blocks),
        BlockView::Table { alignments, header, rows, .. } => fits_columns(
            rows,
            column_count(alignments, header),
        ),
        _ => true,
    }
}

/// Whether every table in the items has a column for each cell.
pub open spec fn items_fit(items: Seq<ListItemView>) -> bool
    decreases items,
{
    forall|k: int| #![trigger items[k]] 0 <= k < items.len() ==> all_fit(items[k].children)
}

/// Whether a text is made of spaces.
pub open spec fn is_spaces(s: Seq<char>) -> bool {
    forall|i: int| 0 <= i < s.len() ==> #[trigger] s[i] == ' '
}

proof fn a_table_is_written(x: InlineView, b: BlockView, indent: Seq<char>, w: Seq<char>)
    requires
        writes(x, w),
        b is Table,
        stands_in_block(x, b),
        block_fits(b),
    ensures
        b matches BlockView::Table { alignments, header, rows, .. } && has_part(
            table_text(alignments, header, rows, indent),
            w,
        ),
{
    match b {
        BlockView::Table { alignments, header, rows, .. } => {
            let n = column_count(alignments, header);
            let mid = indent + "|"@ + crate::serialize::delimiters_text(alignments, n) + "\n"@;
            let top = row_text(header, n, indent);
            let low = rows_text(rows, n, indent);
            if stands_in_rows(x, rows) {
                let (r, c) = choose|r: int, c: int|
                    0 <= r < rows.len() && 0 <= c < rows[r].len() && stands_among(
                        x,
                        #[trigger] rows[r][c],
                    );
                assert(rows[r].len() <= n);
                rows_are_written(x, rows, n, indent, r, c, w);
                part_of_either(top + mid, low, w);
            } else {
                let c = choose|c: int|
                    0 <= c < header.len() && stands_among(x, #[trigger] header[c]);
                a_row_is_written(x, header, n, indent, c, w);
                part_of_either(top, mid, w);
                part_of_either(top + mid, low, w);
            }
        },
        _ => {},
    }
}

proof fn nested_is_written(x: InlineView, s: Seq<BlockView>, indent: Seq<char>, w: Seq<char>)
    requires
        writes(x, w),
        stands_in(x, s),
        all_fit(s),
        is_spaces(indent),
    ensures
        has_part(nested_text(s, indent), w),
    decreases s, 1nat, s.len(),
{
    let k = choose|k: int| #![trigger s[k]] 0 <= k < s.len() && stands_in_block(x, s[k]);
    nested_at(x, s, indent, w, k);
}

proof fn nested_at(x: InlineView, s: Seq<BlockView>, indent: Seq<char>, w: Seq<char>, k: int)
    requires
        writes(x, w),
        0 <= k < s.len(),
        stands_in_block(x, s[k]),
        all_fit(s),
        is_spaces(indent),
    ensures
        has_part(nested_text(s, indent), w),
    decreases s, 0nat, s.len(),
{
    reveal_with_fuel(nested_text, 2);
    let f = s.drop_last();
    let n = s.len() - 1;
    let other = crate::serialize::takes_other(s);
    let g = crate::serialize::nested_gap(s);
    if k < n {
        assert(f[k] == s[k]);
        assert forall|j: int| #![trigger f[j]] 0 <= j < f.len() implies block_fits(f[j]) by {
            assert(f[j] == s[j]);
        }
        nested_at(x, f, indent, w, k);
        part_of_either(nested_text(f, indent), g, w);
        part_of_either(nested_text(f, indent) + g, nested_block(s[n], other, indent), w);
    } else {
        nested_block_is_written(x, s[n], other, indent, w);
        part_of_either(nested_text(f, indent) + g, nested_block(s[n], other, indent), w);
    }
}

proof fn nested_block_is_written(
    x: InlineView,
    b: BlockView,
    other: bool,
    indent: Seq<char>,
    w: Seq<char>,
)
    requires
        writes(x, w),
        stands_in_block(x, b),
        block_fits(b),
        is_spaces(indent),
    ensures
        has_part(nested_block(b, other, indent), w),
    decreases b, 0nat, 0nat,
{
    reveal_with_fuel(nested_block, 2);
    match b {
        BlockView::Heading { level, content, .. } => {
            a_heading_is_written(x, level, content, indent, w);
        },
        BlockView::Paragraph { content, .. } => {
            content_is_written(x, content, w);
            let m = inlines_markdown(content, true);
            a_paragraph_keeps_tokens(m, indent, w);
            part_of_either(indent, paragraph_text(m, indent), w);
            part_of_either(indent + paragraph_text(m, indent), "\n"@, w);
        },
        BlockView::List { items, ordered, start, .. } => {
            items_are_written(x, items, ordered, start, other, indent, w);
        },
        BlockView::BlockQuote { blocks, .. } => {
            a_quote_is_written(x, blocks, w);
            let i = token_of_a_line(quote_text(blocks), w);
            part_of_indented(lines_of(quote_text(blocks)), indent, w, i);
        },
        BlockView::Table { .. } => {
            a_table_is_written(x, b, indent, w);
        },
        _ => {},
    }
}

proof fn items_are_written(
    x: InlineView,
    items: Seq<ListItemView>,
    ordered: bool,
    start: u64,
    other: bool,
    indent: Seq<char>,
    w: Seq<char>,
)
    requires
        writes(x, w),
        stands_in_items(x, items),
        items_fit(items),
        is_spaces(indent),
    ensures
        has_part(list_text(items, ordered, start, other, indent), w),
    decreases items, 1nat, items.len(),
{
    let k = choose|k: int|
        #![trigger items[k]]
        0 <= k < items.len() && (stands_among(x, items[k].content) || stands_in(
            x,
            items[k].children,
        ));
    item_at(x, items, ordered, start, other, indent, w, k);
}

proof fn item_at(
    x: InlineView,
    items: Seq<ListItemView>,
    ordered: bool,
    start: u64,
    other: bool,
    indent: Seq<char>,
    w: Seq<char>,
    k: int,
)
    requires
        writes(x, w),
        0 <= k < items.len(),
        stands_among(x, items[k].content) || stands_in(x, items[k].children),
        items_fit(items),
        is_spaces(indent),
    ensures
        has_part(list_text(items, ordered, start, other, indent), w),
    decreases items, 0nat, items.len(),
{
    reveal_with_fuel(list_text, 2);
    let f = items.drop_last();
    let n = items.len() - 1;
    let mark = crate::serialize::marker(
        ordered,
        other,
        crate::serialize::item_number(start, n),
    );
    let before = list_text(f, ordered, start, other, indent);
    if k < n {
        assert(f[k] == items[k]);
        assert forall|j: int| #![trigger f[j]] 0 <= j < f.len() implies all_fit(f[j].children) by {
            assert(f[j] == items[j]);
        }
        item_at(x, f, ordered, start, other, indent, w, k);
    } else {
        an_item_is_written(x, items[n], mark, indent, w);
    }
    part_of_either(before, item_text(items[n], mark, indent), w);
}

proof fn an_item_is_written(
    x: InlineView,
    item: ListItemView,
    mark: Seq<char>,
    indent: Seq<char>,
    w: Seq<char>,
)
    requires
        writes(x, w),
        stands_among(x, item.content) || stands_in(x, item.children),
        all_fit(item.children),
        is_spaces(indent),
    ensures
        has_part(item_text(item, mark, indent), w),
    decreases item, 0nat, 0nat,
{
    reveal_with_fuel(item_text, 2);
    reveal_strlit(" ");
    let spaces = repeated(" "@, mark.len() + 1);
    assert(" "@ =~= seq![' ']);
    repeated_are_that_many(' ', mark.len() + 1);
    let deeper = indent + spaces;
    assert forall|i: int| 0 <= i < deeper.len() implies #[trigger] deeper[i] == ' ' by {
        if i >= indent.len() {
            assert(spaces[i - indent.len()] == ' ');
        }
    }
    let inner = nested_text(item.children, deeper);
    if stands_in(x, item.children) {
        nested_is_written(x, item.children, deeper, w);
    }
    if opens_item(item) && has_prefix(inner, deeper) {
        assert(!stands_among(x, item.content));
        let i = choose|i: int| stands_at(inner, w, i);
        let d = deeper.len() as int;
        if i < d {
            assert(inner.subrange(0, d)[i] == inner[i]);
            assert(inner.subrange(i, i + w.len())[0] == inner[i]);
            assert(w[0] != ' ');
        }
        let rest = inner.skip(d);
        assert(rest.subrange(i - d, i - d + w.len()) =~= inner.subrange(i, i + w.len()));
        assert(stands_at(rest, w, i - d));
        part_of_either(indent + mark + " "@, rest, w);
    } else {
        let m = inlines_markdown(item.content, true);
        let p = indent + mark + " "@ + paragraph_text(m, deeper);
        let q = p + "\n"@ + crate::serialize::item_gap(item);
        if stands_among(x, item.content) {
            content_is_written(x, item.content, w);
            a_paragraph_keeps_tokens(m, deeper, w);
            part_of_either(indent + mark + " "@, paragraph_text(m, deeper), w);
            part_of_either(p, "\n"@, w);
            part_of_either(p + "\n"@, crate::serialize::item_gap(item), w);
            part_of_either(q, inner, w);
        } else {
            part_of_either(q, inner, w);
        }
    }
}

proof fn a_quote_is_written(x: InlineView, blocks: Seq<BlockView>, w: Seq<char>)
    requires
        writes(x, w),
        stands_in(x, blocks),
        all_fit(blocks),
    ensures
        has_part(quote_text(blocks), w),
    decreases blocks, 2nat, 0nat,
{
    reveal_with_fuel(quote_text, 2);
    top_is_written(x, blocks, false, w);
    let t = finished(top_text(blocks, false));
    token_of_finished(top_text(blocks, false), w);
    assert(w[w.len() - 1] != '\n');
    part_of_trimmed_end(t, '\n', w);
    assert(!w.contains('\n'));
    let u = trimmed_end_char(t, '\n');
    let i = part_of_a_piece(u, '\n', w);
    part_of_quoted(pieces(u, '\n'), w, i);
}

proof fn top_is_written(x: InlineView, s: Seq<BlockView>, opens: bool, w: Seq<char>)
    requires
        writes(x, w),
        stands_in(x, s),
        all_fit(s),
    ensures
        has_part(top_text(s, opens), w),
    decreases s, 1nat, s.len(),
{
    let k = choose|k: int| #![trigger s[k]] 0 <= k < s.len() && stands_in_block(x, s[k]);
    top_at(x, s, opens, w, k);
}

proof fn top_at(x: InlineView, s: Seq<BlockView>, opens: bool, w: Seq<char>, k: int)
    requires
        writes(x, w),
        0 <= k < s.len(),
        stands_in_block(x, s[k]),
        all_fit(s),
    ensures
        has_part(top_text(s, opens), w),
    decreases s, 0nat, s.len(),
{
    reveal_with_fuel(top_text, 2);
    let f = s.drop_last();
    let n = s.len() - 1;
    let g = crate::serialize::gap(s);
    let before = top_text(f, opens) + g;
    let own = if opens && s.len() == 1 && s[0] is ThematicBreak {
        "***\n"@
    } else {
        top_block(s[n], crate::serialize::takes_other(s))
    };
    if k < n {
        assert(f[k] == s[k]);
        assert forall|j: int| #![trigger f[j]] 0 <= j < f.len() implies block_fits(f[j]) by {
            assert(f[j] == s[j]);
        }
        top_at(x, f, opens, w, k);
        part_of_either(top_text(f, opens), g, w);
    } else {
        top_block_is_written(x, s[n], crate::serialize::takes_other(s), w);
    }
    part_of_either(before, own, w);
}

proof fn top_block_is_written(x: InlineView, b: BlockView, other: bool, w: Seq<char>)
    requires
        writes(x, w),
        stands_in_block(x, b),
        block_fits(b),
    ensures
        has_part(top_block(b, other), w),
    decreases b, 0nat, 0nat,
{
    reveal_with_fuel(top_block, 2);
    let none: Seq<char> = Seq::empty();
    match b {
        BlockView::Heading { level, content, .. } => {
            a_heading_is_written(x, level, content, none, w);
        },
        BlockView::Paragraph { content, .. } => {
            content_is_written(x, content, w);
            let m = inlines_markdown(content, true);
            a_paragraph_keeps_tokens(m, none, w);
            part_of_either(paragraph_text(m, none), "\n"@, w);
        },
        BlockView::List { items, ordered, start, .. } => {
            items_are_written(x, items, ordered, start, other, none, w);
        },
        BlockView::BlockQuote { blocks, .. } => {
            a_quote_is_written(x, blocks, w);
        },
        BlockView::Table { .. } => {
            a_table_is_written(x, b, none, w);
        },
        _ => {},
    }
}

/// Writing a document loses no word of it: whatever stands in its blocks, at
/// any depth of lists, quotes, tables and emphasis, each piece of its
/// markdown that line breaks and indentation cannot part stands in the text.
pub proof fn no_word_is_lost(
    doc: DocumentView,
    order: Seq<Seq<char>>,
    x: InlineView,
    w: Seq<char>,
)
    requires
        stands_in(x, doc.blocks),
        all_fit(doc.blocks),
        writes(x, w),
    ensures
        has_part(document_text(doc, order), w),
{
    top_is_written(x, doc.blocks, true, w);
    let head = match doc.frontmatter {
        Some(fm) => "---\n"@ + entries_text(written_entries(fm, order)) + "---\n"@,
        None => Seq::empty(),
    };
    part_of_either(head, top_text(doc.blocks, true), w);
    token_of_finished(head + top_text(doc.blocks, true), w);
}

proof fn tokens_make_a_token(a: Seq<char>, b: Seq<char>)
    requires
        is_token(a),
        is_token(b),
    ensures
        is_token(a + b),
{
    let t = a + b;
    assert(t[0] == a[0]);
    assert forall|i: int| 0 <= i < t.len() implies #[trigger] t[i] != ' ' && t[i] != '|' && t[i]
        != '\n' && t[i] != '\r' by {
        if i < a.len() {
            assert(t[i] == a[i]);
        } else {
            assert(t[i] == b[i - a.len()]);
        }
    }
}

proof fn code_holds_its_content(w: Seq<char>)
    requires
        is_token(w),
    ensures
        has_part(exact_code(w), w),
{
    let ticks = repeated("`"@, longest_run(w, '`') + 1);
    assert(w[0] != ' ');
    if w[0] == '`' || w.last() == '`' {
        part_between(ticks + " "@, w, " "@ + ticks);
        assert(exact_code(w) =~= ticks + " "@ + w + (" "@ + ticks));
    } else {
        part_between(ticks, w, ticks);
    }
}

/// A plain text is written.
pub proof fn words_are_written(w: Seq<char>)
    requires
        is_token(w),
    ensures
        writes(InlineView::Text(w), w),
{
    part_of_itself(w);
    assert(inline_markdown(InlineView::Text(w), true) == w);
}

/// The content of a code span is written.
#[verifier::spinoff_prover]
pub proof fn code_words_are_written(w: Seq<char>)
    requires
        is_token(w),
    ensures
        writes(InlineView::Code(w), w),
{
    code_holds_its_content(w);
    assert(inline_markdown(InlineView::Code(w), true) == exact_code(w));
}

proof fn a_destination_is_a_token(w: Seq<char>)
    requires
        is_token(w),
    ensures
        is_token("]("@ + w),
{
    reveal_strlit("](");
    tokens_make_a_token("]("@, w);
}

proof fn an_autolink_holds_its_target(w: Seq<char>)
    ensures
        has_part(inline_markdown(InlineView::Autolink(w), true), w),
{
    part_between("<"@, w, ">"@);
}

/// The destination of a link or an image is written, where it needs no
/// brackets: behind what the link shows, or alone where that is all it shows.
pub proof fn destinations_are_written(x: InlineView, w: Seq<char>)
    requires
        is_token(w),
        !needs_brackets(w),
        url_of(x) == Some(w),
    ensures
        writes(
            x,
            if x is Autolink {
                w
            } else {
                "]("@ + w
            },
        ),
{
    a_destination_is_a_token(w);
    match x {
        InlineView::Link { text, .. } => {
            a_destination_is_written("["@, text, w, Seq::empty());
        },
        InlineView::TitledLink { text, title, .. } => {
            a_destination_is_written("["@, text, w, title);
        },
        InlineView::StyledLink { content, title, .. } => {
            a_destination_is_written("["@, inlines_markdown(content, true), w, title);
        },
        InlineView::Image { alt, .. } => {
            a_destination_is_written("!["@, alt, w, Seq::empty());
        },
        InlineView::TitledImage { alt, title, .. } => {
            a_destination_is_written("!["@, alt, w, title);
        },
        InlineView::StyledImage { content, title, .. } => {
            a_destination_is_written("!["@, inlines_markdown(content, true), w, title);
        },
        InlineView::Autolink(_) => {
            an_autolink_holds_its_target(w);
        },
        _ => {},
    }
}

proof fn a_destination_is_written(
    open: Seq<char>,
    text: Seq<char>,
    w: Seq<char>,
    title: Seq<char>,
)
    requires
        !needs_brackets(w),
    ensures
        has_part(exact_link(open, text, w, title), "]("@ + w),
{
    let e = "]("@ + w;
    let t = if title.len() > 0 {
        title_text(title)
    } else {
        Seq::empty()
    };
    part_between(open + text, e, t + ")"@);
    assert(exact_link(open, text, w, title) =~= open + text + e + (t + ")"@));
}

/// Emphasis of each kind is written between its own marks, whatever it holds.
pub proof fn emphasis_is_marked(v: Seq<InlineView>, exact: bool)
    ensures
        ({
            let m = inlines_markdown(v, exact);
            let strong = inline_markdown(InlineView::Strong(v), exact);
            let soft = inline_markdown(InlineView::Emphasis(v), exact);
            let struck = inline_markdown(InlineView::Strikethrough(v), exact);
            &&& strong.len() == m.len() + 4 && soft.len() == m.len() + 2 && struck.len() == m.len()
                + 4
            &&& strong.subrange(2, strong.len() - 2) == m && soft.subrange(1, soft.len() - 1) == m
                && struck.subrange(2, struck.len() - 2) == m
            &&& strong[0] == '*' && strong[1] == '*' && strong.last() == '*' && strong[strong.len()
                - 2] == '*'
            &&& soft[0] == '*' && soft.last() == '*'
            &&& struck[0] == '~' && struck[1] == '~' && struck.last() == '~' && struck[struck.len()
                - 2] == '~'
        }),
{
    reveal_strlit("**");
    reveal_strlit("*");
    reveal_strlit("~~");
    reveal_with_fuel(inline_markdown, 2);
    let m = inlines_markdown(v, exact);
    let strong = inline_markdown(InlineView::Strong(v), exact);
    let soft = inline_markdown(InlineView::Emphasis(v), exact);
    let struck = inline_markdown(InlineView::Strikethrough(v), exact);
    assert(strong.subrange(2, strong.len() - 2) =~= m);
    assert(soft.subrange(1, soft.len() - 1) =~= m);
    assert(struck.subrange(2, struck.len() - 2) =~= m);
}

} // verus!
