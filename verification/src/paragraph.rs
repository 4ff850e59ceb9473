//! The lines of a paragraph, and what keeps them in it.

use crate::html::{parts_from_text, stands_under_text};
use crate::text::{chars_of, join, joined, pieces, pieces_not_empty, slice_text, split, texts};
use vstd::prelude::*;

verus! {

/// The position behind the run of `c` that starts at `i`.
pub open spec fn run_end(s: Seq<char>, c: char, i: int) -> int
    decreases s.len() - i,
{
    if 0 <= i < s.len() && s[i] == c {
        run_end(s, c, i + 1)
    } else {
        i
    }
}

/// Whether a character is a space or a tab.
pub open spec fn is_gap(c: char) -> bool {
    c == ' ' || c == '\t'
}

/// Whether there is nothing but spaces and tabs from `i` on.
pub open spec fn is_blank_from(s: Seq<char>, i: int) -> bool {
    forall|k: int| i <= k < s.len() ==> is_gap(#[trigger] s[k])
}

/// How often `c` stands in `s`.
pub open spec fn count_of(s: Seq<char>, c: char) -> nat
    decreases s.len(),
{
    if s.len() == 0 {
        0
    } else {
        count_of(s.drop_last(), c) + (if s.last() == c {
            1nat
        } else {
            0nat
        })
    }
}

/// Whether a line is a heading: one to six hashes and a space, or the end.
pub open spec fn is_heading(s: Seq<char>) -> bool {
    let n = run_end(s, '#', 0);
    1 <= n <= 6 && (n == s.len() || is_gap(s[n]))
}

/// Whether a line under text is the underline of a heading.
pub open spec fn is_underline(s: Seq<char>) -> bool {
    ||| run_end(s, '=', 0) > 0 && is_blank_from(s, run_end(s, '=', 0))
    ||| run_end(s, '-', 0) > 0 && is_blank_from(s, run_end(s, '-', 0))
}

/// Whether a line is a rule made of `c`: three or more of it, and spaces.
pub open spec fn is_rule_of(s: Seq<char>, c: char) -> bool {
    s.len() > 0 && s[0] == c && count_of(s, c) >= 3 && forall|k: int|
        0 <= k < s.len() ==> (#[trigger] s[k]) == c || is_gap(s[k])
}

/// Whether a line opens a code fence: three or more backticks and no other
/// behind them, or three or more tildes.
pub open spec fn is_fence(s: Seq<char>) -> bool {
    ||| run_end(s, '`', 0) >= 3 && forall|k: int|
        run_end(s, '`', 0) <= k < s.len() ==> (#[trigger] s[k]) != '`'
    ||| run_end(s, '~', 0) >= 3
}

/// Whether a line is a bullet with content.
pub open spec fn is_bullet(s: Seq<char>) -> bool {
    s.len() > 1 && (s[0] == '-' || s[0] == '+' || s[0] == '*') && is_gap(s[1]) && !is_blank_from(
        s,
        1,
    )
}

/// Whether a line is item number one of an ordered list, with content.
pub open spec fn is_first_item(s: Seq<char>) -> bool {
    let n = run_end(s, '0', 0);
    n + 2 < s.len() && n <= 8 && s[n] == '1' && (s[n + 1] == '.' || s[n + 1] == ')') && is_gap(
        s[n + 2],
    ) && !is_blank_from(s, n + 2)
}

/// How far the delimiter row of a table has come: its closed columns, and
/// whether the open one holds a dash, or anything at all.
pub struct RowState {
    pub columns: nat,
    pub dashed: bool,
    pub open: bool,
}

/// What a line is as the delimiter row of a table; `None` where it is none.
pub open spec fn row_state(s: Seq<char>) -> Option<RowState>
    decreases s.len(),
{
    if s.len() == 0 {
        Some(RowState { columns: 0, dashed: false, open: false })
    } else {
        match row_state(s.drop_last()) {
            None => None,
            Some(r) => if s.last() == ' ' {
                Some(r)
            } else if s.last() == ':' {
                Some(RowState { open: true, ..r })
            } else if s.last() == '-' {
                Some(RowState { dashed: true, open: true, ..r })
            } else if s.last() == '|' && s.len() == 1 {
                Some(r)
            } else if s.last() == '|' && r.dashed {
                Some(RowState { columns: r.columns + 1, dashed: false, open: false })
            } else {
                None
            },
        }
    }
}

/// The columns of a delimiter row, zero where the line is none.
pub open spec fn row_columns(s: Seq<char>) -> nat {
    match row_state(s) {
        Some(r) => if s.contains('|') && s.contains('-') {
            r.columns + (if r.open {
                1nat
            } else {
                0nat
            })
        } else {
            0
        },
        None => 0,
    }
}

/// The pipes of a line that no backslash stands before, and whether it ends
/// with a backslash.
pub open spec fn pipes(s: Seq<char>) -> (nat, bool)
    decreases s.len(),
{
    if s.len() == 0 {
        (0, false)
    } else {
        let (n, escaped) = pipes(s.drop_last());
        if s.last() == '|' && !escaped {
            (n + 1, false)
        } else {
            (n, s.last() == '\\')
        }
    }
}

/// The position behind the last character that is no space or tab.
pub open spec fn text_end(s: Seq<char>) -> int
    decreases s.len(),
{
    if s.len() > 0 && is_gap(s.last()) {
        text_end(s.drop_last())
    } else {
        s.len() as int
    }
}

/// The columns of a line as the header row of a table.
pub open spec fn header_columns(s: Seq<char>) -> int {
    let e = text_end(s);
    let n = pipes(s).0 as int;
    if n == 0 {
        0
    } else {
        n - (if s[0] == '|' {
            1int
        } else {
            0int
        }) + (if e > 0 && s[e - 1] == '|' && !pipes(s.take(e - 1)).1 {
            0int
        } else {
            1int
        })
    }
}

/// Whether the line `s` under the line `above`, which comes `first` in its
/// paragraph or not, would make a table of the two.
pub open spec fn is_delimiter_row(above: Seq<char>, first: bool, s: Seq<char>) -> bool {
    &&& row_columns(s) > 0
    &&& row_columns(s) == header_columns(above)
    &&& first || (above.len() > 0 && above[0] == '|')
}

/// Where a line needs a backslash to stay in the paragraph of the line
/// `above`, which comes `first` in it or not; `None` where it stays as it is.
///
/// Item number one gets it before its dot, all else at its start.
pub open spec fn guard_place(above: Seq<char>, first: bool, s: Seq<char>) -> Option<int> {
    if is_first_item(s) {
        Some(run_end(s, '0', 0) + 1)
    } else if (s.len() > 0 && s[0] == '>') || is_heading(s) || is_underline(s) || is_rule_of(
        s,
        '*',
    ) || is_rule_of(s, '-') || is_rule_of(s, '_') || is_fence(s) || is_bullet(s)
        || is_delimiter_row(above, first, s) {
        Some(0)
    } else {
        None
    }
}

/// Whether a line under text would start a block of raw HTML.
pub open spec fn is_html_start(s: Seq<char>) -> bool {
    s.len() > 0 && s[0] == '<' && parts_from_text(s)
}

/// Whether a line stays in the paragraph of the line `above` as it is.
pub open spec fn stays(above: Seq<char>, first: bool, s: Seq<char>) -> bool {
    guard_place(above, first, s) is None && !is_html_start(s)
}

/// A line with what it needs to stay in the paragraph of the line `above`: a
/// backslash, or four spaces before raw HTML.
pub open spec fn guarded_line(above: Seq<char>, first: bool, s: Seq<char>) -> Seq<char> {
    match guard_place(above, first, s) {
        Some(k) => s.take(k) + "\\"@ + s.skip(k),
        None => if is_html_start(s) {
            "    "@ + s
        } else {
            s
        },
    }
}

/// The lines of a paragraph, each below the first with what it needs to stay
/// in it.
pub open spec fn guarded_lines(ls: Seq<Seq<char>>) -> Seq<Seq<char>>
    decreases ls.len(),
{
    if ls.len() <= 1 {
        ls
    } else {
        let above = guarded_lines(ls.drop_last());
        above.push(guarded_line(above.last(), above.len() == 1, ls.last()))
    }
}

/// The text of a paragraph, its lines below the first behind `indent`.
pub open spec fn paragraph_text(s: Seq<char>, indent: Seq<char>) -> Seq<char> {
    joined(guarded_lines(pieces(s, '\n')), "\n"@ + indent)
}

// ── laws ──────────────────────────────────────────────────────────────────

proof fn run_end_is_end(s: Seq<char>, c: char, i: int)
    requires
        0 <= i <= s.len(),
    ensures
        i <= run_end(s, c, i) <= s.len(),
        forall|k: int| i <= k < run_end(s, c, i) ==> (#[trigger] s[k]) == c,
        run_end(s, c, i) < s.len() ==> s[run_end(s, c, i)] != c,
    decreases s.len() - i,
{
    if i < s.len() && s[i] == c {
        run_end_is_end(s, c, i + 1);
    }
}

proof fn run_end_from(s: Seq<char>, c: char, i: int, n: int)
    requires
        0 <= i <= n <= s.len(),
        forall|k: int| i <= k < n ==> (#[trigger] s[k]) == c,
        n < s.len() ==> s[n] != c,
    ensures
        run_end(s, c, i) == n,
    decreases n - i,
{
    if i < n {
        run_end_from(s, c, i + 1, n);
    }
}

/// A delimiter row is made of spaces, dashes, colons and pipes.
proof fn row_is_made_of(s: Seq<char>, i: int)
    requires
        row_state(s) is Some,
        0 <= i < s.len(),
    ensures
        s[i] == ' ' || s[i] == '-' || s[i] == ':' || s[i] == '|',
    decreases s.len(),
{
    if i < s.len() - 1 {
        row_is_made_of(s.drop_last(), i);
        assert(s.drop_last()[i] == s[i]);
    }
}

/// A line that got what it needs stays as it is.
proof fn guarded_line_is_safe(above: Seq<char>, first: bool, s: Seq<char>)
    ensures
        stays(above, first, guarded_line(above, first, s)),
{
    let place = guard_place(above, first, s);
    let g = guarded_line(above, first, s);
    if !stays(above, first, s) {
        reveal_strlit("\\");
        reveal_strlit("    ");
        run_end_is_end(s, '0', 0);
        let k = if place is Some {
            place->0
        } else {
            4
        };
        assert(place is Some ==> 0 <= k <= s.len() && g[k] == '\\');
        assert(place is None ==> g[k] == '<' && g[0] == ' ');
        assert forall|i: int| 0 <= i < k && place is Some implies #[trigger] g[i] == s[i] by {}
        if is_first_item(s) {
            let n = run_end(s, '0', 0);
            assert(g[n] == '1');
            run_end_from(g, '0', 0, n);
            assert(g[0] == '0' || g[0] == '1');
        } else {
            run_end_from(g, '0', 0, 0);
        }
        run_end_from(g, '#', 0, 0);
        run_end_from(g, '=', 0, 0);
        run_end_from(g, '-', 0, 0);
        run_end_from(g, '`', 0, 0);
        run_end_from(g, '~', 0, 0);
        if row_state(g) is Some {
            row_is_made_of(g, k);
        }
    }
}

/// Each line of a written paragraph stays in it, and a second writing changes
/// nothing.
pub proof fn guarded_lines_hold_still(ls: Seq<Seq<char>>)
    ensures
        guarded_lines(ls).len() == ls.len(),
        guarded_lines(guarded_lines(ls)) == guarded_lines(ls),
        forall|i: int|
            1 <= i < ls.len() ==> stays(
                guarded_lines(ls)[i - 1],
                i == 1,
                #[trigger] guarded_lines(ls)[i],
            ),
    decreases ls.len(),
{
    if ls.len() > 1 {
        let front = ls.drop_last();
        guarded_lines_hold_still(front);
        let above = guarded_lines(front);
        let g = guarded_lines(ls);
        guarded_line_is_safe(above.last(), above.len() == 1, ls.last());
        assert(g.drop_last() =~= above);
        assert(g =~= guarded_lines(g));
        assert forall|i: int| 1 <= i < ls.len() implies stays(g[i - 1], i == 1, #[trigger] g[i]) by {
            if i < ls.len() - 1 {
                assert(g[i] == above[i] && g[i - 1] == above[i - 1]);
            } else {
                assert(g[i - 1] == above.last());
            }
        }
    }
}

/// A line below the first that would stay in its paragraph as it is stays
/// as it is.
pub proof fn safe_lines_stay(ls: Seq<Seq<char>>)
    requires
        forall|i: int|
            1 <= i < ls.len() ==> stays(ls[i - 1], i == 1, #[trigger] ls[i]),
    ensures
        guarded_lines(ls) == ls,
    decreases ls.len(),
{
    if ls.len() > 1 {
        let front = ls.drop_last();
        assert forall|i: int| 1 <= i < front.len() implies stays(
            front[i - 1],
            i == 1,
            #[trigger] front[i],
        ) by {
            assert(ls[i] == front[i] && ls[i - 1] == front[i - 1]);
        }
        safe_lines_stay(front);
        let n = ls.len() - 1;
        assert(stays(ls[n - 1], n == 1, ls[n]));
        assert(front.push(ls.last()) =~= ls);
    }
}

// ── reading lines ─────────────────────────────────────────────────────────

/// The position behind the run of `c` that starts at `from`.
pub fn find_run_end(v: &Vec<char>, c: char, from: usize) -> (r: usize)
    requires
        from <= v.len(),
    ensures
        r == run_end(v@, c, from as int),
        from <= r <= v.len(),
{
    let mut i: usize = from;
    while i < v.len() && v[i] == c
        invariant
            from <= i <= v.len(),
            run_end(v@, c, from as int) == run_end(v@, c, i as int),
        decreases v.len() - i,
    {
        i += 1;
    }
    i
}

fn gap(c: char) -> (r: bool)
    ensures
        r == is_gap(c),
{
    c == ' ' || c == '\t'
}

fn blank_from(v: &Vec<char>, from: usize) -> (r: bool)
    ensures
        r == is_blank_from(v@, from as int),
{
    let mut i: usize = from;
    while i < v.len()
        invariant
            from <= i,
            forall|k: int| from <= k < i && k < v.len() ==> is_gap(#[trigger] v@[k]),
        decreases v.len() - i,
    {
        if !gap(v[i]) {
            assert(!is_gap(v@[i as int]));
            return false;
        }
        i += 1;
    }
    true
}

fn holds_from(v: &Vec<char>, c: char, from: usize) -> (r: bool)
    ensures
        r == exists|k: int| from <= k < v.len() && (#[trigger] v@[k]) == c,
{
    let mut i: usize = from;
    while i < v.len()
        invariant
            from <= i,
            forall|k: int| from <= k < i && k < v.len() ==> (#[trigger] v@[k]) != c,
        decreases v.len() - i,
    {
        if v[i] == c {
            return true;
        }
        i += 1;
    }
    false
}

fn heading(v: &Vec<char>) -> (r: bool)
    ensures
        r == is_heading(v@),
{
    let n = find_run_end(v, '#', 0);
    1 <= n && n <= 6 && (n == v.len() || gap(v[n]))
}

fn underline(v: &Vec<char>) -> (r: bool)
    ensures
        r == is_underline(v@),
{
    let double = find_run_end(v, '=', 0);
    let single = find_run_end(v, '-', 0);
    (double > 0 && blank_from(v, double)) || (single > 0 && blank_from(v, single))
}

fn rule_of(v: &Vec<char>, c: char) -> (r: bool)
    ensures
        r == is_rule_of(v@, c),
{
    if v.len() == 0 || v[0] != c {
        return false;
    }
    let mut n: usize = 0;
    let mut i: usize = 0;
    assert(v@.take(0) =~= Seq::empty());
    while i < v.len()
        invariant
            i <= v.len(),
            n <= i,
            n == count_of(v@.take(i as int), c),
            forall|k: int| 0 <= k < i ==> (#[trigger] v@[k]) == c || is_gap(v@[k]),
        decreases v.len() - i,
    {
        assert(v@.take(i + 1).drop_last() =~= v@.take(i as int));
        if v[i] == c {
            n += 1;
        } else if !gap(v[i]) {
            assert(!(v@[i as int] == c || is_gap(v@[i as int])));
            return false;
        }
        i += 1;
    }
    assert(v@.take(v@.len() as int) =~= v@);
    n >= 3
}

fn fence_line(v: &Vec<char>) -> (r: bool)
    ensures
        r == is_fence(v@),
{
    let n = find_run_end(v, '`', 0);
    (n >= 3 && !holds_from(v, '`', n)) || find_run_end(v, '~', 0) >= 3
}

fn bullet(v: &Vec<char>) -> (r: bool)
    ensures
        r == is_bullet(v@),
{
    v.len() > 1 && (v[0] == '-' || v[0] == '+' || v[0] == '*') && gap(v[1]) && !blank_from(v, 1)
}

fn first_item(v: &Vec<char>) -> (r: bool)
    ensures
        r == is_first_item(v@),
{
    let n = find_run_end(v, '0', 0);
    if n > 8 || v.len() < 3 || n >= v.len() - 2 {
        return false;
    }
    v[n] == '1' && (v[n + 1] == '.' || v[n + 1] == ')') && gap(v[n + 2]) && !blank_from(v, n + 2)
}

fn columns_of_row(v: &Vec<char>) -> (r: usize)
    ensures
        r == row_columns(v@),
{
    let ghost s = v@;
    if !holds_from(v, '|', 0) || !holds_from(v, '-', 0) {
        return 0;
    }
    let mut columns: usize = 0;
    let mut dashed = false;
    let mut open = false;
    let mut i: usize = 0;
    assert(s.take(0) =~= Seq::empty());
    while i < v.len()
        invariant
            i <= v.len(),
            s == v@,
            columns + (if open { 1int } else { 0int }) <= i,
            row_state(s.take(i as int)) == Some(RowState { columns: columns as nat, dashed, open }),
        decreases v.len() - i,
    {
        let c = v[i];
        proof {
            assert(s.take(i + 1).drop_last() =~= s.take(i as int));
            assert(s.take(i + 1).last() == c);
        }
        if c == ' ' {
        } else if c == ':' {
            open = true;
        } else if c == '-' {
            dashed = true;
            open = true;
        } else if c == '|' && i == 0 {
        } else if c == '|' && dashed {
            columns += 1;
            dashed = false;
            open = false;
        } else {
            proof {
                row_refused(s, i + 1);
            }
            return 0;
        }
        i += 1;
    }
    proof {
        assert(s.take(s.len() as int) =~= s);
        assert(s.contains('|') && s.contains('-'));
    }
    if open {
        columns + 1
    } else {
        columns
    }
}

proof fn row_refused(s: Seq<char>, n: int)
    requires
        0 <= n <= s.len(),
        row_state(s.take(n)) is None,
    ensures
        row_state(s) is None,
    decreases s.len() - n,
{
    if n < s.len() {
        assert(s.take(n + 1).drop_last() =~= s.take(n));
        row_refused(s, n + 1);
    } else {
        assert(s.take(n) =~= s);
    }
}

/// The pipes among the first `n` characters that no backslash stands before,
/// and whether those end with a backslash.
fn count_pipes(v: &Vec<char>, n: usize) -> (r: (usize, bool))
    requires
        n <= v.len(),
    ensures
        (r.0 as nat, r.1) == pipes(v@.take(n as int)),
        r.0 <= n,
{
    let mut found: usize = 0;
    let mut escaped = false;
    let mut i: usize = 0;
    assert(v@.take(0) =~= Seq::empty());
    while i < n
        invariant
            i <= n <= v.len(),
            found <= i,
            (found as nat, escaped) == pipes(v@.take(i as int)),
        decreases n - i,
    {
        assert(v@.take(i + 1).drop_last() =~= v@.take(i as int));
        if v[i] == '|' && !escaped {
            found += 1;
            escaped = false;
        } else {
            escaped = v[i] == '\\';
        }
        i += 1;
    }
    (found, escaped)
}

/// The columns of a line as the header row of a table, but for the last one
/// where that is not closed; and whether it is.
fn columns_of_header(v: &Vec<char>) -> (r: (usize, bool))
    ensures
        header_columns(v@) == r.0 + (if r.1 {
            0int
        } else {
            1int
        }),
{
    let mut e: usize = v.len();
    assert(v@.take(e as int) =~= v@);
    while e > 0 && gap(v[e - 1])
        invariant
            e <= v.len(),
            text_end(v@.take(e as int)) == text_end(v@),
        decreases e,
    {
        assert(v@.take(e as int).drop_last() =~= v@.take(e - 1));
        e -= 1;
    }
    let (n, _ends) = count_pipes(v, v.len());
    assert(v@.take(v@.len() as int) =~= v@);
    if n == 0 {
        return (0, true);
    }
    let lead: usize = if v[0] == '|' {
        1
    } else {
        0
    };
    let closed = if e > 0 && v[e - 1] == '|' {
        let (_before, escaped) = count_pipes(v, e - 1);
        !escaped
    } else {
        false
    };
    (n - lead, closed)
}

/// Where the line `v` needs a backslash below the line `above`.
fn find_guard(above: &Vec<char>, first: bool, v: &Vec<char>) -> (r: Option<usize>)
    ensures
        (match r {
            Some(k) => Some(k as int),
            None => None,
        }) == guard_place(above@, first, v@),
        r matches Some(k) ==> k <= v.len(),
{
    if first_item(v) {
        return Some(find_run_end(v, '0', 0) + 1);
    }
    let row = columns_of_row(v);
    let (columns, closed) = columns_of_header(above);
    let fits = if closed {
        row == columns
    } else {
        row > 0 && row - 1 == columns
    };
    if (v.len() > 0 && v[0] == '>') || heading(v) || underline(v) || rule_of(v, '*') || rule_of(
        v,
        '-',
    ) || rule_of(v, '_') || fence_line(v) || bullet(v) || (row > 0 && fits && (first || (above.len() > 0
        && above[0] == '|'))) {
        Some(0)
    } else {
        None
    }
}

/// The line `s` with what it needs to stay in the paragraph of `above`.
pub fn guard_line(above: &str, first: bool, s: &str) -> (r: String)
    ensures
        r@ == guarded_line(above@, first, s@),
{
    let v = chars_of(s);
    match find_guard(&chars_of(above), first, &v) {
        Some(k) => {
            let mut out = slice_text(&v, 0, k);
            out.append("\\");
            let rest = slice_text(&v, k, v.len());
            out.append(rest.as_str());
            assert(out@ =~= s@.take(k as int) + "\\"@ + s@.skip(k as int));
            out
        },
        None => {
            let whole = slice_text(&v, 0, v.len());
            assert(whole@ =~= s@);
            if v.len() > 0 && v[0] == '<' && stands_under_text(s) {
                let mut out = String::from_str("    ");
                out.append(s);
                out
            } else {
                whole
            }
        },
    }
}

/// The text of a paragraph whose markdown is `s`: each line below the first
/// behind `indent`, and with what it needs to stay in the paragraph.
pub fn write_paragraph(s: &str, indent: &str) -> (r: String)
    ensures
        r@ == paragraph_text(s@, indent@),
{
    let ls = split(s, '\n');
    let ghost all = texts(ls@);
    proof {
        pieces_not_empty(s@, '\n');
    }
    let mut out: Vec<String> = Vec::new();
    let mut i: usize = 0;
    assert(texts(out@) =~= guarded_lines(all.take(0)));
    while i < ls.len()
        invariant
            i <= ls.len(),
            out.len() == i,
            all == texts(ls@),
            texts(out@) == guarded_lines(all.take(i as int)),
        decreases ls.len() - i,
    {
        proof {
            assert(all.take(i + 1).drop_last() =~= all.take(i as int));
            assert(all.take(i + 1).last() == ls@[i as int]@);
        }
        let ghost was = texts(out@);
        let l = if i == 0 {
            ls[i].clone()
        } else {
            assert(was.last() == out@[i - 1]@);
            guard_line(out[i - 1].as_str(), i == 1, ls[i].as_str())
        };
        let ghost t = l@;
        out.push(l);
        proof {
            assert(texts(out@) =~= was.push(t));
            if i == 0 {
                assert(texts(out@) =~= all.take(1));
            }
        }
        i += 1;
    }
    assert(all.take(all.len() as int) =~= all);
    let mut sep = String::from_str("\n");
    sep.append(indent);
    join(&out, sep.as_str())
}

// ── what needs guarding ───────────────────────────────────────────────────

proof fn a_run_ends(s: Seq<char>, c: char, i: int, e: int)
    requires
        0 <= i <= e <= s.len(),
        forall|k: int| i <= k < e ==> #[trigger] s[k] == c,
        e < s.len() ==> s[e] != c,
    ensures
        run_end(s, c, i) == e,
    decreases e - i,
{
    if i < e {
        a_run_ends(s, c, i + 1, e);
    }
}

proof fn letters_are_no_row(s: Seq<char>)
    requires
        s.len() > 0,
        'a' <= s[0] && s[0] <= 'z',
    ensures
        row_state(s) is None,
    decreases s.len(),
{
    if s.len() == 1 {
        assert(s.last() == s[0]);
    } else {
        letters_are_no_row(s.drop_last());
    }
}

/// A line of a paragraph that would be something else gets a backslash: one
/// that starts as a quote, a heading, a bullet with content or a code fence,
/// and one of hyphens or equals signs alone. A line that starts with a letter
/// needs none.
pub proof fn marks_at_the_start_are_guarded(
    above: Seq<char>,
    first: bool,
    t: Seq<char>,
    n: nat,
    c: char,
)
    ensures
        guarded_line(above, first, seq!['>'] + t) == seq!['\\', '>'] + t,
        1 <= n <= 6 ==> guarded_line(above, first, Seq::new(n, |i: int| '#') + seq![' '] + t)
            == seq!['\\'] + (Seq::new(n, |i: int| '#') + seq![' '] + t),
        (c == '-' || c == '+' || c == '*') && t.len() > 0 && !is_gap(t[0]) ==> guarded_line(
            above,
            first,
            seq![c, ' '] + t,
        ) == seq!['\\', c, ' '] + t,
        n >= 1 && (c == '-' || c == '=') ==> guarded_line(above, first, Seq::new(n, |i: int| c))
            == seq!['\\'] + Seq::new(n, |i: int| c),
        n >= 3 ==> guarded_line(above, first, Seq::new(n, |i: int| '~') + t) == seq!['\\'] + (
        Seq::new(n, |i: int| '~') + t),
        'a' <= c && c <= 'z' ==> guarded_line(above, first, seq![c] + t) == seq![c] + t,
{
    reveal_strlit("\\");
    assert("\\"@ =~= seq!['\\']);
    let q = seq!['>'] + t;
    a_run_ends(q, '0', 0, 0);
    at_the_start(q);
    assert(seq!['\\'] + q =~= seq!['\\', '>'] + t);
    assert(guard_place(above, first, q) == Some(0int));
    let h = Seq::new(n, |i: int| '#') + seq![' '] + t;
    if 1 <= n <= 6 {
        assert(h[0] == '#');
        a_run_ends(h, '0', 0, 0);
        assert(h[n as int] == ' ');
        a_run_ends(h, '#', 0, n as int);
        at_the_start(h);
        assert(guard_place(above, first, h) == Some(0int));
    }
    let b = seq![c, ' '] + t;
    if (c == '-' || c == '+' || c == '*') && t.len() > 0 && !is_gap(t[0]) {
        a_run_ends(b, '0', 0, 0);
        assert(b[2] == t[0]);
        assert(!is_blank_from(b, 1)) by {
            assert(!is_gap(b[2]));
        }
        at_the_start(b);
        assert(guard_place(above, first, b) == Some(0int));
        assert(seq!['\\'] + b =~= seq!['\\', c, ' '] + t);
    }
    let u = Seq::new(n, |i: int| c);
    if n >= 1 && (c == '-' || c == '=') {
        a_run_ends(u, '0', 0, 0);
        a_run_ends(u, c, 0, n as int);
        assert(is_blank_from(u, n as int));
        at_the_start(u);
        assert(guard_place(above, first, u) == Some(0int));
    }
    let w = Seq::new(n, |i: int| '~') + t;
    if n >= 3 {
        assert(w[0] == '~');
        a_run_ends(w, '0', 0, 0);
        a_run_is_at_least(w, '~', 0, n as int);
        at_the_start(w);
        assert(guard_place(above, first, w) == Some(0int));
    }
    let l = seq![c] + t;
    if 'a' <= c && c <= 'z' {
        assert(l[0] == c);
        a_run_ends(l, '0', 0, 0);
        a_run_ends(l, '#', 0, 0);
        a_run_ends(l, '=', 0, 0);
        a_run_ends(l, '-', 0, 0);
        a_run_ends(l, '`', 0, 0);
        a_run_ends(l, '~', 0, 0);
        letters_are_no_row(l);
        assert(guard_place(above, first, l) is None);
    }
}

proof fn at_the_start(s: Seq<char>)
    ensures
        s.take(0) + seq!['\\'] + s.skip(0) == seq!['\\'] + s,
{
    assert(s.take(0) + seq!['\\'] + s.skip(0) =~= seq!['\\'] + s);
}

proof fn a_run_is_at_least(s: Seq<char>, c: char, i: int, e: int)
    requires
        0 <= i <= e <= s.len(),
        forall|k: int| i <= k < e ==> #[trigger] s[k] == c,
    ensures
        run_end(s, c, i) >= e,
    decreases s.len() - i,
{
    if i < e {
        a_run_is_at_least(s, c, i + 1, e);
    } else if i < s.len() && s[i] == c {
        a_run_is_at_least(s, c, i + 1, i + 1);
    }
}

} // verus!
