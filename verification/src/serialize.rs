//! From documents to markdown text.

use crate::ast::{
    blocks_view, cells_view, copy_inline, inline_markdown, inlines_markdown, inlines_view,
    is_padded, items_view, lookup_fields, needs_brackets, rows_view, write_inlines, Block,
    BlockView, ColumnAlignment, Document, DocumentView, Frontmatter, FrontmatterView, Inline,
    InlineView, ListItem, ListItemView,
};
use crate::html::{closes_itself, ends_by_itself, parts_from_text, stands_under_text};
use crate::ordered::{distinct_keys, has_key, lookup, lookup_at, lookup_finds};
use crate::paragraph::{find_run_end, paragraph_text, run_end, write_paragraph};
use crate::parse::{is_blank, with_line};
use crate::text::{
    chars_of, contains_char, decimal, ends_with_char, has_prefix, lines, lines_of, number,
    option_text, pieces, repeat, repeated, replace, replaced, slice_text, split, strip_prefix,
    texts, trim_char, trim_end_char, trimmed_char, trimmed_end_char,
};
use crate::value::{Yaml, YamlView};
use crate::yaml_text::{field_text, serialize_yaml_field};
use vstd::prelude::*;

verus! {

// ── front matter ──────────────────────────────────────────────────────────

/// The entries of front matter with `type` first.
pub open spec fn all_entries(fm: FrontmatterView) -> Seq<(Seq<char>, YamlView)> {
    type_entry(fm) + fm.fields
}

/// The `type` entry of front matter, if it has one.
pub open spec fn type_entry(fm: FrontmatterView) -> Seq<(Seq<char>, YamlView)> {
    match fm.doc_type {
        Some(t) => seq![("type"@, YamlView::Text(t))],
        None => Seq::empty(),
    }
}

/// The entry of front matter with the key `key`, if it has one.
pub open spec fn entry_of(fm: FrontmatterView, key: Seq<char>) -> Seq<(Seq<char>, YamlView)> {
    if key == "type"@ {
        type_entry(fm)
    } else {
        match lookup(fm.fields, key) {
            Some(v) => seq![(key, v)],
            None => Seq::empty(),
        }
    }
}

/// The entries whose keys `order` names, in that order.
pub open spec fn named_entries(fm: FrontmatterView, order: Seq<Seq<char>>) -> Seq<
    (Seq<char>, YamlView),
>
    decreases order.len(),
{
    if order.len() == 0 {
        Seq::empty()
    } else {
        named_entries(fm, order.drop_last()) + entry_of(fm, order.last())
    }
}

/// The entries of `fields` whose keys `order` does not name.
pub open spec fn other_entries(
    fields: Seq<(Seq<char>, YamlView)>,
    order: Seq<Seq<char>>,
) -> Seq<(Seq<char>, YamlView)>
    decreases fields.len(),
{
    if fields.len() == 0 {
        Seq::empty()
    } else if order.contains(fields.last().0) {
        other_entries(fields.drop_last(), order)
    } else {
        other_entries(fields.drop_last(), order).push(fields.last())
    }
}

/// The entries of front matter in the order in which they are written: first
/// those that `order` names, then `type` where it is not among them, then
/// the other fields as they come.
pub open spec fn written_entries(fm: FrontmatterView, order: Seq<Seq<char>>) -> Seq<
    (Seq<char>, YamlView),
> {
    named_entries(fm, order) + (if order.contains("type"@) {
        Seq::empty()
    } else {
        type_entry(fm)
    }) + other_entries(fm.fields, order)
}

/// The text of entries, one field after the other.
pub open spec fn entries_text(entries: Seq<(Seq<char>, YamlView)>) -> Seq<char>
    decreases entries.len(),
{
    if entries.len() == 0 {
        Seq::empty()
    } else {
        entries_text(entries.drop_last()) + field_text(
            entries.last().0,
            entries.last().1,
            Seq::empty(),
        )
    }
}

proof fn entries_text_push(entries: Seq<(Seq<char>, YamlView)>, e: (Seq<char>, YamlView))
    ensures
        entries_text(entries.push(e)) == entries_text(entries) + field_text(e.0, e.1, Seq::empty()),
{
    assert(entries.push(e).drop_last() =~= entries);
}

/// Without an order, `type` comes first and the other fields follow as they
/// come.
pub proof fn written_without_order(fm: FrontmatterView)
    ensures
        written_entries(fm, Seq::empty()) == all_entries(fm),
{
    other_without_order(fm.fields);
    assert(written_entries(fm, Seq::empty()) =~= all_entries(fm));
}

proof fn other_without_order(fields: Seq<(Seq<char>, YamlView)>)
    ensures
        other_entries(fields, Seq::empty()) == fields,
    decreases fields.len(),
{
    if fields.len() > 0 {
        other_without_order(fields.drop_last());
        assert(fields.drop_last().push(fields.last()) =~= fields);
    }
}

/// Every entry is written, and nothing else is.
pub proof fn every_entry_is_written(
    fm: FrontmatterView,
    order: Seq<Seq<char>>,
    e: (Seq<char>, YamlView),
)
    requires
        distinct_keys(fm.fields),
        !has_key(fm.fields, "type"@),
    ensures
        written_entries(fm, order).contains(e) <==> all_entries(fm).contains(e),
{
    named_contains(fm, order, e);
    other_contains(fm.fields, order, e);
    let a = named_entries(fm, order);
    let b = if order.contains("type"@) {
        Seq::empty()
    } else {
        type_entry(fm)
    };
    let c = other_entries(fm.fields, order);
    sum_contains(a + b, c, e);
    sum_contains(a, b, e);
    sum_contains(type_entry(fm), fm.fields, e);
    lookup_finds(fm.fields, e.0);
    if fm.fields.contains(e) {
        let i = choose|i: int| 0 <= i < fm.fields.len() && fm.fields[i] == e;
        lookup_at(fm.fields, i);
        assert(fm.fields[i].0 == e.0);
        assert(e.0 != "type"@);
    }
    if type_entry(fm).contains(e) {
        assert(type_entry(fm)[0] == e);
        assert(e.0 == "type"@);
    }
    let own = entry_of(fm, e.0);
    if e.0 != "type"@ {
        if own.contains(e) {
            assert(own[0] == e);
            let i = choose|i: int|
                0 <= i < fm.fields.len() && (#[trigger] fm.fields[i]).0 == e.0 && lookup(
                    fm.fields,
                    e.0,
                ) == Some(fm.fields[i].1);
            assert(fm.fields[i] == e);
        }
        if fm.fields.contains(e) {
            assert(own[0] == e);
        }
    } else if fm.fields.contains(e) {
        let i = choose|i: int| 0 <= i < fm.fields.len() && fm.fields[i] == e;
        assert(fm.fields[i].0 == "type"@);
    }
}

/// An order that names no key twice has each key written exactly once: no two
/// entries that are written have the same key, and every entry is written.
pub proof fn written_keys_are_distinct(fm: FrontmatterView, order: Seq<Seq<char>>)
    requires
        distinct_keys(fm.fields),
        !has_key(fm.fields, "type"@),
        order.no_duplicates(),
    ensures
        distinct_keys(written_entries(fm, order)),
        written_entries(fm, order).to_multiset() == all_entries(fm).to_multiset(),
{
    let a = named_entries(fm, order);
    let b = if order.contains("type"@) {
        Seq::empty()
    } else {
        type_entry(fm)
    };
    let c = other_entries(fm.fields, order);
    named_keys(fm, order);
    other_keys(fm.fields, order);
    let w = written_entries(fm, order);
    assert forall|i: int, j: int| 0 <= i < j < w.len() implies (#[trigger] w[i]).0 != (
    #[trigger] w[j]).0 by {
        if j < a.len() {
            assert(a[i].0 != a[j].0);
        } else if j < a.len() + b.len() {
            assert(w[j].0 == "type"@);
            assert(w[i] == a[i]);
            assert(order.contains(a[i].0));
        } else {
            assert(w[j] == c[j - a.len() - b.len()]);
            if i < a.len() {
                assert(w[i] == a[i]);
                assert(order.contains(a[i].0));
            } else if i < a.len() + b.len() {
                assert(w[i].0 == "type"@);
                assert(has_key(fm.fields, w[j].0));
            } else {
                assert(w[i] == c[i - a.len() - b.len()]);
            }
        }
    }
    let all = all_entries(fm);
    assert(distinct_keys(all)) by {
        assert forall|i: int, j: int| 0 <= i < j < all.len() implies (#[trigger] all[i]).0 != (
        #[trigger] all[j]).0 by {
            let n = type_entry(fm).len();
            if j >= n {
                assert(all[j] == fm.fields[j - n]);
                if i >= n {
                    assert(all[i] == fm.fields[i - n]);
                }
            }
        }
    }
    distinct_has_no_duplicates(w);
    distinct_has_no_duplicates(all);
    w.lemma_multiset_has_no_duplicates();
    all.lemma_multiset_has_no_duplicates();
    assert forall|e: (Seq<char>, YamlView)|
        w.to_multiset().count(e) == all.to_multiset().count(e) by {
        every_entry_is_written(fm, order, e);
        w.to_multiset_ensures();
        all.to_multiset_ensures();
    }
    assert(w.to_multiset() =~= all.to_multiset());
}

proof fn distinct_has_no_duplicates(s: Seq<(Seq<char>, YamlView)>)
    requires
        distinct_keys(s),
    ensures
        s.no_duplicates(),
{
    assert forall|i: int, j: int| 0 <= i < s.len() && 0 <= j < s.len() && i != j implies s[i]
        != s[j] by {
        if i < j {
            assert(s[i].0 != s[j].0);
        } else {
            assert(s[j].0 != s[i].0);
        }
    }
}

proof fn named_keys(fm: FrontmatterView, order: Seq<Seq<char>>)
    requires
        order.no_duplicates(),
    ensures
        distinct_keys(named_entries(fm, order)),
        forall|i: int|
            0 <= i < named_entries(fm, order).len() ==> order.contains(
                (#[trigger] named_entries(fm, order)[i]).0,
            ),
    decreases order.len(),
{
    if order.len() > 0 {
        let front = order.drop_last();
        assert(front.no_duplicates());
        named_keys(fm, front);
        let a = named_entries(fm, front);
        let b = entry_of(fm, order.last());
        let n = named_entries(fm, order);
        assert forall|i: int| 0 <= i < n.len() implies order.contains((#[trigger] n[i]).0) && (i
            < a.len() ==> n[i] == a[i] && n[i].0 != order.last()) && (i >= a.len() ==> n[i].0
            == order.last()) by {
            if i < a.len() {
                assert(n[i] == a[i]);
                let k = choose|k: int| 0 <= k < front.len() && front[k] == a[i].0;
                assert(order[k] == a[i].0);
                assert(order[order.len() - 1] == order.last());
            } else {
                assert(n[i] == b[i - a.len()]);
                assert(order[order.len() - 1] == order.last());
            }
        }
        assert(b.len() <= 1);
        assert forall|i: int, j: int| 0 <= i < j < n.len() implies (#[trigger] n[i]).0 != (
        #[trigger] n[j]).0 by {
            if j < a.len() {
                assert(a[i].0 != a[j].0);
            }
        }
    }
}

proof fn other_keys(fields: Seq<(Seq<char>, YamlView)>, order: Seq<Seq<char>>)
    requires
        distinct_keys(fields),
    ensures
        distinct_keys(other_entries(fields, order)),
        forall|i: int|
            0 <= i < other_entries(fields, order).len() ==> {
                let e = #[trigger] other_entries(fields, order)[i];
                !order.contains(e.0) && has_key(fields, e.0)
            },
    decreases fields.len(),
{
    if fields.len() > 0 {
        let front = fields.drop_last();
        assert(distinct_keys(front));
        other_keys(front, order);
        let o = other_entries(front, order);
        let r = other_entries(fields, order);
        assert forall|i: int| 0 <= i < r.len() implies !order.contains((#[trigger] r[i]).0)
            && has_key(fields, r[i].0) && (i < o.len() ==> r[i] == o[i] && r[i].0
            != fields.last().0) by {
            if i < o.len() {
                assert(r[i] == o[i]);
                let k = choose|k: int| 0 <= k < front.len() && (#[trigger] front[k]).0 == o[i].0;
                assert(fields[k].0 == o[i].0);
                assert(fields[fields.len() - 1] == fields.last());
            } else {
                assert(fields[fields.len() - 1].0 == r[i].0);
            }
        }
        assert forall|i: int, j: int| 0 <= i < j < r.len() implies (#[trigger] r[i]).0 != (
        #[trigger] r[j]).0 by {
            if j < o.len() {
                assert(o[i].0 != o[j].0);
            }
        }
    }
}

proof fn sum_contains(
    a: Seq<(Seq<char>, YamlView)>,
    b: Seq<(Seq<char>, YamlView)>,
    e: (Seq<char>, YamlView),
)
    ensures
        (a + b).contains(e) <==> a.contains(e) || b.contains(e),
{
    if a.contains(e) {
        let i = choose|i: int| 0 <= i < a.len() && a[i] == e;
        assert((a + b)[i] == e);
    }
    if b.contains(e) {
        let i = choose|i: int| 0 <= i < b.len() && b[i] == e;
        assert((a + b)[a.len() + i] == e);
    }
    if (a + b).contains(e) {
        let i = choose|i: int| 0 <= i < (a + b).len() && (a + b)[i] == e;
        if i < a.len() {
            assert(a[i] == e);
        } else {
            assert(b[i - a.len()] == e);
        }
    }
}

/// What an order names is written where front matter has it.
proof fn named_contains(fm: FrontmatterView, order: Seq<Seq<char>>, e: (Seq<char>, YamlView))
    ensures
        named_entries(fm, order).contains(e) <==> order.contains(e.0) && entry_of(
            fm,
            e.0,
        ).contains(e),
    decreases order.len(),
{
    if order.len() > 0 {
        let front = order.drop_last();
        named_contains(fm, front, e);
        sum_contains(named_entries(fm, front), entry_of(fm, order.last()), e);
        if entry_of(fm, order.last()).contains(e) {
            assert(entry_of(fm, order.last())[0] == e);
            assert(e.0 == order.last());
            assert(order[order.len() - 1] == e.0);
        }
        if order.contains(e.0) {
            let i = choose|i: int| 0 <= i < order.len() && order[i] == e.0;
            if i < front.len() {
                assert(front[i] == e.0);
            }
        }
        if front.contains(e.0) {
            let i = choose|i: int| 0 <= i < front.len() && front[i] == e.0;
            assert(order[i] == e.0);
        }
    }
}

proof fn other_contains(
    fields: Seq<(Seq<char>, YamlView)>,
    order: Seq<Seq<char>>,
    e: (Seq<char>, YamlView),
)
    ensures
        other_entries(fields, order).contains(e) <==> fields.contains(e) && !order.contains(e.0),
    decreases fields.len(),
{
    if fields.len() > 0 {
        let front = fields.drop_last();
        other_contains(front, order, e);
        let o = other_entries(front, order);
        if fields.contains(e) {
            let i = choose|i: int| 0 <= i < fields.len() && fields[i] == e;
            if i < front.len() {
                assert(front[i] == e);
            }
        }
        if front.contains(e) {
            let i = choose|i: int| 0 <= i < front.len() && front[i] == e;
            assert(fields[i] == e);
        }
        assert(fields[fields.len() - 1] == fields.last());
        if !order.contains(fields.last().0) {
            let p = o.push(fields.last());
            assert(p[o.len() as int] == fields.last());
            if o.contains(e) {
                let i = choose|i: int| 0 <= i < o.len() && o[i] == e;
                assert(p[i] == e);
            }
            if p.contains(e) {
                let i = choose|i: int| 0 <= i < p.len() && p[i] == e;
                if i < o.len() {
                    assert(o[i] == e);
                }
            }
        }
    }
}

/// The keys of an order.
pub open spec fn names(order: Seq<&str>) -> Seq<Seq<char>> {
    order.map_values(|s: &str| s@)
}

fn names_hold(order: &[&str], key: &str) -> (r: bool)
    ensures
        r == names(order@).contains(key@),
{
    let mut i: usize = 0;
    while i < order.len()
        invariant
            i <= order.len(),
            forall|k: int| 0 <= k < i ==> names(order@)[k] != key@,
        decreases order.len() - i,
    {
        if order[i].eq(key) {
            assert(names(order@)[i as int] == key@);
            return true;
        }
        i += 1;
    }
    false
}

/// Front matter fields in the given order.
pub fn serialize_frontmatter_ordered(fm: &Frontmatter, order: &[&str]) -> (r: String)
    ensures
        r@ == entries_text(written_entries(fm@, names(order@))),
{
    let ghost ks = names(order@);
    let ghost f = fm@;
    let mut out = String::new();
    let ghost mut done: Seq<(Seq<char>, YamlView)> = Seq::empty();
    let mut i: usize = 0;
    while i < order.len()
        invariant
            i <= order.len(),
            ks == names(order@),
            f == fm@,
            done == named_entries(f, ks.take(i as int)),
            out@ == entries_text(done),
        decreases order.len() - i,
    {
        proof {
            assert(ks.take(i + 1).drop_last() =~= ks.take(i as int));
            assert(ks.take(i + 1).last() == ks[i as int]);
        }
        let field = order[i];
        let ghost added = entry_of(f, field@);
        if field.eq("type") {
            if let Some(doc_type) = &fm.doc_type {
                let value = Yaml::Text(doc_type.clone());
                let t = serialize_yaml_field("type", &value, "");
                out.append(t.as_str());
                proof {
                    assert(""@ =~= Seq::<char>::empty()) by {
                        reveal_strlit("");
                    }
                    entries_text_push(done, added[0]);
                    assert(done + added =~= done.push(added[0]));
                }
            } else {
                assert(done + added =~= done);
            }
        } else {
            proof {
                lookup_fields(fm.fields@, field@);
            }
            if let Some(value) = fm.fields.get(field) {
                let t = serialize_yaml_field(field, value, "");
                out.append(t.as_str());
                proof {
                    assert(""@ =~= Seq::<char>::empty()) by {
                        reveal_strlit("");
                    }
                    entries_text_push(done, added[0]);
                    assert(done + added =~= done.push(added[0]));
                }
            } else {
                assert(done + added =~= done);
            }
        }
        proof {
            done = done + added;
        }
        i += 1;
    }
    assert(ks.take(ks.len() as int) =~= ks);
    if !names_hold(order, "type") {
        if let Some(doc_type) = &fm.doc_type {
            let value = Yaml::Text(doc_type.clone());
            let t = serialize_yaml_field("type", &value, "");
            out.append(t.as_str());
            proof {
                assert(""@ =~= Seq::<char>::empty()) by {
                    reveal_strlit("");
                }
                let e = type_entry(f)[0];
                entries_text_push(done, e);
                assert(done + type_entry(f) =~= done.push(e));
                done = done + type_entry(f);
            }
        } else {
            assert(done + type_entry(f) =~= done);
        }
    } else {
        assert(done + Seq::<(Seq<char>, YamlView)>::empty() =~= done);
    }
    let ghost head = done;
    let n: usize = fm.fields.len();
    let mut j: usize = 0;
    assert(head + other_entries(f.fields.take(0), ks) =~= head);
    while j < n
        invariant
            j <= n,
            n == f.fields.len(),
            f == fm@,
            ks == names(order@),
            out@ == entries_text(head + other_entries(f.fields.take(j as int), ks)),
        decreases n - j,
    {
        proof {
            assert(f.fields.take(j + 1).drop_last() =~= f.fields.take(j as int));
            assert(f.fields.take(j + 1).last() == f.fields[j as int]);
        }
        let key = fm.fields.key_at(j);
        if !names_hold(order, key.as_str()) {
            let t = serialize_yaml_field(key.as_str(), fm.fields.value_at(j), "");
            out.append(t.as_str());
            proof {
                assert(""@ =~= Seq::<char>::empty()) by {
                    reveal_strlit("");
                }
                let o = other_entries(f.fields.take(j as int), ks);
                entries_text_push(head + o, f.fields[j as int]);
                assert((head + o).push(f.fields[j as int]) =~= head + o.push(f.fields[j as int]));
            }
        }
        j += 1;
    }
    assert(f.fields.take(n as int) =~= f.fields);
    out
}

// ── tables ────────────────────────────────────────────────────────────────

/// `s` with a backslash before each bar that has none.
pub open spec fn barred(s: Seq<char>) -> Seq<char>
    decreases s.len(),
{
    if s.len() == 0 {
        s
    } else if s.last() == '|' && !(s.len() > 1 && s[s.len() - 2] == '\\') {
        barred(s.drop_last()) + "\\|"@
    } else {
        barred(s.drop_last()).push(s.last())
    }
}

/// `s` with a backslash before each bar that has none.
fn escape_bars(s: &str) -> (r: String)
    ensures
        r@ == barred(s@),
{
    let v = chars_of(s);
    let mut out = String::new();
    let mut i: usize = 0;
    assert(v@.take(0) =~= Seq::empty());
    while i < v.len()
        invariant
            i <= v.len(),
            v@ == s@,
            out@ == barred(v@.take(i as int)),
        decreases v.len() - i,
    {
        proof {
            assert(v@.take(i + 1).drop_last() =~= v@.take(i as int));
            assert(i > 0 ==> v@.take(i + 1)[i - 1] == v@[i - 1]);
        }
        if v[i] == '|' && !(i > 0 && v[i - 1] == '\\') {
            out.append("\\|");
        } else {
            out.push(v[i]);
        }
        i += 1;
    }
    assert(v@.take(v@.len() as int) =~= v@);
    out
}

/// The cells `0..n` of a row, each between spaces and before a bar.
pub open spec fn cells_text(cells: Seq<Seq<InlineView>>, n: nat) -> Seq<char>
    decreases n,
{
    if n == 0 {
        Seq::empty()
    } else {
        let i = (n - 1) as nat;
        let cell = if i < cells.len() {
            barred(inlines_markdown(cells[i as int], true))
        } else {
            Seq::empty()
        };
        cells_text(cells, i) + (" "@ + cell + " |"@)
    }
}

/// The delimiter cell of a column.
pub open spec fn delimiter(a: ColumnAlignment) -> Seq<char> {
    match a {
        ColumnAlignment::Unset => " --- "@,
        ColumnAlignment::Left => " :--- "@,
        ColumnAlignment::Center => " :---: "@,
        ColumnAlignment::Right => " ---: "@,
    }
}

/// The delimiter cells of the columns `0..n`.
pub open spec fn delimiters_text(alignments: Seq<ColumnAlignment>, n: nat) -> Seq<char>
    decreases n,
{
    if n == 0 {
        Seq::empty()
    } else {
        let i = (n - 1) as nat;
        let a = if i < alignments.len() {
            alignments[i as int]
        } else {
            ColumnAlignment::Unset
        };
        delimiters_text(alignments, i) + (delimiter(a) + "|"@)
    }
}

/// A row of a table.
pub open spec fn row_text(cells: Seq<Seq<InlineView>>, n: nat, indent: Seq<char>) -> Seq<char> {
    indent + "|"@ + cells_text(cells, n) + "\n"@
}

/// The rows of a table.
pub open spec fn rows_text(
    rows: Seq<Seq<Seq<InlineView>>>,
    n: nat,
    indent: Seq<char>,
) -> Seq<char>
    decreases rows.len(),
{
    if rows.len() == 0 {
        Seq::empty()
    } else {
        rows_text(rows.drop_last(), n, indent) + row_text(rows.last(), n, indent)
    }
}

/// The number of columns of a table.
pub open spec fn column_count(
    alignments: Seq<ColumnAlignment>,
    header: Seq<Seq<InlineView>>,
) -> nat {
    if alignments.len() >= header.len() {
        alignments.len()
    } else {
        header.len()
    }
}

/// A table: the header, the delimiter row and the rows.
pub open spec fn table_text(
    alignments: Seq<ColumnAlignment>,
    header: Seq<Seq<InlineView>>,
    rows: Seq<Seq<Seq<InlineView>>>,
    indent: Seq<char>,
) -> Seq<char> {
    let n = column_count(alignments, header);
    row_text(header, n, indent) + (indent + "|"@ + delimiters_text(alignments, n) + "\n"@)
        + rows_text(rows, n, indent)
}

fn serialize_row(cells: &Vec<Vec<Inline>>, n: usize, indent: &str) -> (r: String)
    ensures
        r@ == row_text(cells_view(cells@), n as nat, indent@),
{
    let mut out = String::from_str(indent);
    out.append("|");
    let ghost head = out@;
    let ghost cs = cells_view(cells@);
    let mut i: usize = 0;
    assert(out@ =~= head + cells_text(cs, 0));
    while i < n
        invariant
            i <= n,
            cs == cells_view(cells@),
            out@ == head + cells_text(cs, i as nat),
        decreases n - i,
    {
        let ghost was = out@;
        out.append(" ");
        let ghost mut cell: Seq<char> = Seq::empty();
        if i < cells.len() {
            let whole = write_inlines(cells[i].as_slice(), true);
            let t = escape_bars(whole.as_str());
            out.append(t.as_str());
            proof {
                cell = t@;
            }
        }
        out.append(" |");
        assert(out@ =~= head + (cells_text(cs, i as nat) + (" "@ + cell + " |"@)));
        i += 1;
    }
    out.append("\n");
    assert(out@ =~= row_text(cs, n as nat, indent@));
    out
}

/// The delimiter cell of a column.
fn delimiter_cell(a: ColumnAlignment) -> (r: &'static str)
    ensures
        r@ == delimiter(a),
{
    match a {
        ColumnAlignment::Unset => " --- ",
        ColumnAlignment::Left => " :--- ",
        ColumnAlignment::Center => " :---: ",
        ColumnAlignment::Right => " ---: ",
    }
}

/// A table, each line behind `indent`.
pub fn serialize_table(
    alignments: &Vec<ColumnAlignment>,
    header: &Vec<Vec<Inline>>,
    rows: &Vec<Vec<Vec<Inline>>>,
    indent: &str,
) -> (r: String)
    ensures
        r@ == table_text(alignments@, cells_view(header@), rows_view(rows@), indent@),
{
    let n: usize = if alignments.len() >= header.len() {
        alignments.len()
    } else {
        header.len()
    };
    let mut out = serialize_row(header, n, indent);
    let ghost first = out@;
    out.append(indent);
    out.append("|");
    let ghost head = out@;
    let mut i: usize = 0;
    assert(out@ =~= head + delimiters_text(alignments@, 0));
    while i < n
        invariant
            i <= n,
            out@ == head + delimiters_text(alignments@, i as nat),
        decreases n - i,
    {
        let a = if i < alignments.len() {
            alignments[i]
        } else {
            ColumnAlignment::Unset
        };
        out.append(delimiter_cell(a));
        out.append("|");
        assert(out@ =~= head + (delimiters_text(alignments@, i as nat) + (delimiter(a) + "|"@)));
        i += 1;
    }
    out.append("\n");
    let ghost top = out@;
    assert(top =~= first + (indent@ + "|"@ + delimiters_text(alignments@, n as nat) + "\n"@));
    let ghost rs = rows_view(rows@);
    let mut k: usize = 0;
    assert(out@ =~= top + rows_text(rs.take(0), n as nat, indent@));
    while k < rows.len()
        invariant
            k <= rows.len(),
            rs == rows_view(rows@),
            out@ == top + rows_text(rs.take(k as int), n as nat, indent@),
        decreases rows.len() - k,
    {
        assert(rs.take(k + 1).drop_last() =~= rs.take(k as int));
        let t = serialize_row(&rows[k], n, indent);
        out.append(t.as_str());
        assert(out@ =~= top + (rows_text(rs.take(k as int), n as nat, indent@) + t@));
        k += 1;
    }
    assert(rs.take(rs.len() as int) =~= rs);
    out
}

// ── blocks ────────────────────────────────────────────────────────────────

/// `s` without the line feeds at its end beyond the second.
pub open spec fn two_feeds(s: Seq<char>) -> Seq<char>
    decreases s.len(),
{
    let n = s.len() as int;
    if n >= 3 && s[n - 1] == '\n' && s[n - 2] == '\n' && s[n - 3] == '\n' {
        two_feeds(s.drop_last())
    } else {
        s
    }
}

/// `s` with one or two line feeds at its end.
pub open spec fn finished(s: Seq<char>) -> Seq<char> {
    let t = two_feeds(s);
    if t.len() > 0 && t.last() == '\n' {
        t
    } else {
        t.push('\n')
    }
}

/// A finished text ends with a line feed, and never with three of them.
pub proof fn finished_ends_well(s: Seq<char>)
    ensures
        ({
            let f = finished(s);
            let n = f.len() as int;
            &&& n > 0 && f[n - 1] == '\n'
            &&& !(n >= 3 && f[n - 2] == '\n' && f[n - 3] == '\n')
        }),
    decreases s.len(),
{
    let n = s.len() as int;
    if n >= 3 && s[n - 1] == '\n' && s[n - 2] == '\n' && s[n - 3] == '\n' {
        finished_ends_well(s.drop_last());
    }
}

/// Each line of `ls` behind `indent`, but for empty ones.
pub open spec fn indented(ls: Seq<Seq<char>>, indent: Seq<char>) -> Seq<char>
    decreases ls.len(),
{
    if ls.len() == 0 {
        Seq::empty()
    } else {
        indented(ls.drop_last(), indent) + (if ls.last().len() == 0 {
            "\n"@
        } else {
            indent + ls.last() + "\n"@
        })
    }
}

/// Each line of `ls` behind a quote mark.
pub open spec fn quoted_lines(ls: Seq<Seq<char>>) -> Seq<char>
    decreases ls.len(),
{
    if ls.len() == 0 {
        Seq::empty()
    } else if ls.last().len() == 0 {
        quoted_lines(ls.drop_last()) + ">\n"@
    } else {
        quoted_lines(ls.drop_last()) + ("> "@ + ls.last() + "\n"@)
    }
}

/// The language of a code fence.
pub open spec fn fence_info(language: Option<Seq<char>>) -> Seq<char> {
    match language {
        Some(lang) => lang,
        None => ""@,
    }
}

/// What a code fence with the given info string is made of.
pub open spec fn fence_char(info: Seq<char>) -> char {
    if info.contains('`') {
        '~'
    } else {
        '`'
    }
}

/// The length of the run of `c` that a line is, as the end of a code fence;
/// zero where it is none.
pub open spec fn closing_run(s: Seq<char>, c: char) -> int {
    let i = run_end(s, ' ', 0);
    let e = run_end(s, c, i);
    if i <= 3 && run_end(s, ' ', e) == s.len() {
        e - i
    } else {
        0
    }
}

/// The longest run of `c` that a line of `ls` is.
pub open spec fn longest_closing(ls: Seq<Seq<char>>, c: char) -> int
    decreases ls.len(),
{
    if ls.len() == 0 {
        0
    } else {
        let before = longest_closing(ls.drop_last(), c);
        if closing_run(ls.last(), c) > before {
            closing_run(ls.last(), c)
        } else {
            before
        }
    }
}

/// The fence of a code block: three characters, or one more than the longest
/// line of the block that would close it.
pub open spec fn fence_text(info: Seq<char>, content: Seq<char>) -> Seq<char> {
    let c = fence_char(info);
    let n = longest_closing(lines_of(content), c);
    repeated(
        seq![c],
        if n < 3 {
            3
        } else {
            (n + 1) as nat
        },
    )
}

/// The line feed that a text lacks at its end.
pub open spec fn closing_feed(s: Seq<char>) -> Seq<char> {
    if s.len() > 0 && s.last() == '\n' {
        Seq::empty()
    } else {
        "\n"@
    }
}

/// Inlines with soft breaks for hard ones.
pub open spec fn softened(v: Seq<InlineView>) -> Seq<InlineView> {
    v.map_values(
        |i: InlineView|
            if i is HardBreak {
                InlineView::SoftBreak
            } else {
                i
            },
    )
}

/// A heading, in one line: breaks become spaces.
pub open spec fn heading_text(level: u8, content: Seq<InlineView>, indent: Seq<char>) -> Seq<char> {
    indent + repeated("#"@, level as nat) + " "@ + trimmed_char(
        replaced(inlines_markdown(softened(content), true), '\n', " "@),
        ' ',
    ) + "\n"@
}

/// The marker of the list item number `n`, or the `other` one, for a list
/// right behind a list of its kind.
pub open spec fn marker(ordered: bool, other: bool, n: nat) -> Seq<char> {
    if ordered && other {
        decimal(n) + ")"@
    } else if ordered {
        decimal(n) + "."@
    } else if other {
        "*"@
    } else {
        "-"@
    }
}

/// The number of the item at position `i` of a list that starts with
/// `start`, as far as numbers go.
pub open spec fn item_number(start: u64, i: int) -> nat {
    if start + i <= u64::MAX {
        (start + i) as nat
    } else {
        u64::MAX as nat
    }
}

/// The blocks of `s` without the blank lines at the end.
pub open spec fn without_last_blanks(s: Seq<BlockView>) -> Seq<BlockView>
    decreases s.len(),
{
    if s.len() > 0 && s.last() == BlockView::BlankLine {
        without_last_blanks(s.drop_last())
    } else {
        s
    }
}

proof fn without_last_blanks_is_no_longer(s: Seq<BlockView>)
    ensures
        without_last_blanks(s).len() <= s.len(),
        without_last_blanks(s) == s.take(without_last_blanks(s).len() as int),
    decreases s.len(),
{
    if s.len() > 0 && s.last() == BlockView::BlankLine {
        without_last_blanks_is_no_longer(s.drop_last());
        assert(s.drop_last().take(without_last_blanks(s).len() as int) =~= s.take(
            without_last_blanks(s).len() as int,
        ));
    } else {
        assert(s.take(s.len() as int) =~= s);
    }
}

/// Whether the last block of `s` is a list that takes the other marker: it
/// comes right behind a list of its kind, which does not take it.
pub open spec fn takes_other(s: Seq<BlockView>) -> bool
    decreases s.len(),
    via takes_other_ends
{
    if s.len() == 0 {
        false
    } else {
        let f = without_last_blanks(s.drop_last());
        match s.last() {
            BlockView::List { ordered, .. } => f.len() > 0 && (match f.last() {
                BlockView::List { ordered: kind, .. } => kind == ordered && !takes_other(f),
                _ => false,
            }),
            _ => false,
        }
    }
}

#[via_fn]
proof fn takes_other_ends(s: Seq<BlockView>) {
    if s.len() > 0 {
        without_last_blanks_is_no_longer(s.drop_last());
    }
}

/// The blocks of a document, which `opens` a text, or of a quote.
pub open spec fn top_text(s: Seq<BlockView>, opens: bool) -> Seq<char>
    decreases s, 0nat,
{
    if s.len() == 0 {
        Seq::empty()
    } else {
        top_text(s.drop_last(), opens) + gap(s) + (if opens && s.len() == 1
            && s[0] is ThematicBreak {
            "***\n"@
        } else {
            top_block(s[s.len() - 1], takes_other(s))
        })
    }
}

/// The blank line before the last block of `s`: headings, thematic breaks
/// and quotes get one, unless they come first or behind a blank line.
pub open spec fn gap(s: Seq<BlockView>) -> Seq<char> {
    let b = s.last();
    if s.len() > 1 && (b is Heading || b is ThematicBreak || b is BlockQuote) && s[s.len() - 2]
        != BlockView::BlankLine {
        "\n"@
    } else {
        Seq::empty()
    }
}

/// A block of a document or of a quote; a list, with the `other` marker.
pub open spec fn top_block(b: BlockView, other: bool) -> Seq<char>
    decreases b, 0nat,
{
    match b {
        BlockView::Heading { level, content, .. } => heading_text(level, content, Seq::empty()),
        BlockView::Paragraph { content, .. } => paragraph_text(
            inlines_markdown(content, true),
            Seq::empty(),
        ) + "\n"@,
        BlockView::List { items, ordered, start, .. } => list_text(
            items,
            ordered,
            start,
            other,
            Seq::empty(),
        ),
        BlockView::CodeBlock { language, content, .. } => {
            let fence = fence_text(fence_info(language), content);
            fence + fence_info(language) + "\n"@ + content + closing_feed(content) + fence + "\n"@
        },
        BlockView::Html { content, .. } => content + closing_feed(content),
        BlockView::BlockQuote { blocks, .. } => quote_text(blocks),
        BlockView::Table { alignments, header, rows, .. } => table_text(
            alignments,
            header,
            rows,
            Seq::empty(),
        ),
        BlockView::ThematicBreak { .. } => "---\n"@,
        BlockView::BlankLine => "\n"@,
    }
}

/// A quote: the text of its blocks, each line behind a quote mark.
pub open spec fn quote_text(blocks: Seq<BlockView>) -> Seq<char>
    decreases blocks, 1nat,
{
    quoted_lines(pieces(trimmed_end_char(finished(top_text(blocks, false)), '\n'), '\n'))
}

/// The items of a list, numbered from `start` on where it is ordered.
pub open spec fn list_text(
    items: Seq<ListItemView>,
    ordered: bool,
    start: u64,
    other: bool,
    indent: Seq<char>,
) -> Seq<char>
    decreases items, 0nat,
{
    if items.len() == 0 {
        Seq::empty()
    } else {
        list_text(items.drop_last(), ordered, start, other, indent) + item_text(
            items[items.len() - 1],
            marker(ordered, other, item_number(start, items.len() - 1)),
            indent,
        )
    }
}

/// An item of a list. What it holds is indented to where its text starts.
pub open spec fn item_text(item: ListItemView, mark: Seq<char>, indent: Seq<char>) -> Seq<char>
    decreases item, 0nat,
{
    let deeper = indent + repeated(" "@, mark.len() + 1);
    let inner = nested_text(item.children, deeper);
    if opens_item(item) && has_prefix(inner, deeper) {
        indent + mark + " "@ + inner.skip(deeper.len() as int)
    } else {
        indent + mark + " "@ + paragraph_text(inlines_markdown(item.content, true), deeper)
            + "\n"@ + item_gap(item) + inner
    }
}

/// Whether the first block of an item stands beside its marker: the item has
/// no text, and the two together are not read as something else.
pub open spec fn opens_item(item: ListItemView) -> bool {
    item.content.len() == 0 && item.children.len() > 0 && (match item.children[0] {
        BlockView::Heading { .. } => true,
        BlockView::CodeBlock { .. } => true,
        BlockView::BlockQuote { .. } => true,
        BlockView::Table { .. } => true,
        BlockView::List { .. } => !starts_empty(item.children[0]),
        _ => false,
    })
}

/// Whether a block is a list whose first item has no text.
pub open spec fn starts_empty(b: BlockView) -> bool {
    match b {
        BlockView::List { items, .. } => items.len() > 0 && items[0].content.len() == 0,
        _ => false,
    }
}

/// Whether a block is an ordered list that does not start with one.
pub open spec fn starts_late(b: BlockView) -> bool {
    match b {
        BlockView::List { ordered, start, .. } => ordered && start != 1,
        _ => false,
    }
}

/// Whether a block is raw HTML that is none right under a line of text.
pub open spec fn is_loose_html(b: BlockView) -> bool {
    match b {
        BlockView::Html { content, .. } => !parts_from_text(content),
        _ => false,
    }
}

/// Whether a block is raw HTML that goes on to the next blank line.
pub open spec fn is_open_html(b: BlockView) -> bool {
    match b {
        BlockView::Html { content, .. } => !ends_by_itself(content),
        _ => false,
    }
}

/// Whether a block right under a line of text would be read as part of it,
/// or would make a heading of it.
pub open spec fn clings_to_text(b: BlockView) -> bool {
    b is Paragraph || is_loose_html(b) || b is ThematicBreak || starts_empty(b) || starts_late(b)
}

/// The blank line between the text of an item and its first block.
pub open spec fn item_gap(item: ListItemView) -> Seq<char> {
    if item.content.len() > 0 && item.children.len() > 0 && clings_to_text(item.children[0]) {
        "\n"@
    } else {
        Seq::empty()
    }
}

/// Whether `b` right under `above`, inside a list item, would be read as part
/// of it. A paragraph always gets a blank line.
pub open spec fn clings_to(above: BlockView, b: BlockView) -> bool {
    &&& above != BlockView::BlankLine
    &&& b != BlockView::BlankLine
    &&& {
        ||| b is Paragraph
        ||| is_loose_html(b)
        ||| is_open_html(above)
        ||| above is Paragraph && clings_to_text(b)
        ||| above is BlockQuote && b is BlockQuote
        ||| (above is Table || above is BlockQuote || above is List) && b is Table
    }
}

/// The blank line before the last of the blocks `s` inside a list item.
pub open spec fn nested_gap(s: Seq<BlockView>) -> Seq<char> {
    if s.len() > 1 && clings_to(s[s.len() - 2], s.last()) {
        "\n"@
    } else {
        Seq::empty()
    }
}

/// The blocks inside a list item.
pub open spec fn nested_text(s: Seq<BlockView>, indent: Seq<char>) -> Seq<char>
    decreases s, 0nat,
{
    if s.len() == 0 {
        Seq::empty()
    } else {
        nested_text(s.drop_last(), indent) + nested_gap(s) + nested_block(
            s[s.len() - 1],
            takes_other(s),
            indent,
        )
    }
}

/// A block inside a list item; a list, with the `other` marker.
pub open spec fn nested_block(b: BlockView, other: bool, indent: Seq<char>) -> Seq<char>
    decreases b, 0nat,
{
    match b {
        BlockView::Heading { level, content, .. } => heading_text(level, content, indent),
        BlockView::Paragraph { content, .. } => indent + paragraph_text(
            inlines_markdown(content, true),
            indent,
        ) + "\n"@,
        BlockView::List { items, ordered, start, .. } => list_text(
            items,
            ordered,
            start,
            other,
            indent,
        ),
        BlockView::CodeBlock { language, content, .. } => {
            let fence = fence_text(fence_info(language), content);
            indent + fence + fence_info(language) + "\n"@ + indented(lines_of(content), indent)
                + indent + fence + "\n"@
        },
        BlockView::Html { content, .. } => indented(
            lines_of(trimmed_end_char(content, '\n')),
            indent,
        ),
        BlockView::BlockQuote { blocks, .. } => indented(lines_of(quote_text(blocks)), indent),
        BlockView::Table { alignments, header, rows, .. } => table_text(
            alignments,
            header,
            rows,
            indent,
        ),
        BlockView::ThematicBreak { .. } => indent + "---\n"@,
        BlockView::BlankLine => "\n"@,
    }
}

/// The text of a document, its front matter fields in the given order.
pub open spec fn document_text(doc: DocumentView, order: Seq<Seq<char>>) -> Seq<char> {
    finished(
        (match doc.frontmatter {
            Some(fm) => "---\n"@ + entries_text(written_entries(fm, order)) + "---\n"@,
            None => Seq::empty(),
        }) + top_text(doc.blocks, true),
    )
}

/// Whether an inline is one that needs no form of its own within one line:
/// no break, raw HTML, autolink, title, bracketed destination, padded code or
/// spelling, at any depth.
pub open spec fn is_uniform(i: InlineView) -> bool
    decreases i,
{
    match i {
        InlineView::Text(_) => true,
        InlineView::Code(s) => !is_padded(s),
        InlineView::Link { url, .. } => !needs_brackets(url),
        InlineView::Image { url, .. } => !needs_brackets(url),
        InlineView::Strong(v) => all_uniform(v),
        InlineView::Emphasis(v) => all_uniform(v),
        InlineView::Strikethrough(v) => all_uniform(v),
        _ => false,
    }
}

/// Whether each of a list of inlines needs no form of its own within one
/// line.
pub open spec fn all_uniform(v: Seq<InlineView>) -> bool
    decreases v,
{
    v.len() == 0 || (all_uniform(v.drop_last()) && is_uniform(v[v.len() - 1]))
}

/// What is written and the one-line form of inlines are the same where there
/// is no line break, and nothing that only the source spells; a soft break is
/// a line feed in the one and a space in the other.
pub proof fn forms_agree_without_breaks(v: Seq<InlineView>)
    requires
        all_uniform(v),
    ensures
        inlines_markdown(v, true) == inlines_markdown(v, false),
        inlines_markdown(seq![InlineView::SoftBreak], true) == "\n"@,
        inlines_markdown(seq![InlineView::SoftBreak], false) == " "@,
{
    uniform_inlines_agree(v);
    reveal_with_fuel(inlines_markdown, 2);
    let b = seq![InlineView::SoftBreak];
    assert(b.drop_last() =~= Seq::empty());
    assert(inlines_markdown(b, true) =~= "\n"@);
    assert(inlines_markdown(b, false) =~= " "@);
}

proof fn uniform_inlines_agree(v: Seq<InlineView>)
    requires
        all_uniform(v),
    ensures
        inlines_markdown(v, true) == inlines_markdown(v, false),
    decreases v,
{
    if v.len() > 0 {
        let f = v.drop_last();
        uniform_inlines_agree(f);
        uniform_inline_agrees(v[v.len() - 1]);
    }
}

proof fn uniform_inline_agrees(i: InlineView)
    requires
        is_uniform(i),
    ensures
        inline_markdown(i, true) == inline_markdown(i, false),
    decreases i,
{
    match i {
        InlineView::Strong(v) => uniform_inlines_agree(v),
        InlineView::Emphasis(v) => uniform_inlines_agree(v),
        InlineView::Strikethrough(v) => uniform_inlines_agree(v),
        _ => {},
    }
}

/// A paragraph inside a list item stands apart: there is a blank line between
/// it and what comes before it, be that the item's text or another block.
pub proof fn paragraphs_stay_apart(item: ListItemView, n: int)
    requires
        0 <= n < item.children.len(),
        item.children[n] is Paragraph,
    ensures
        n == 0 && item.content.len() > 0 ==> item_gap(item) == "\n"@,
        n > 0 ==> item.children[n - 1] == BlockView::BlankLine || nested_gap(
            item.children.take(n + 1),
        ) == "\n"@,
{
}

/// No line of a code block closes its fence.
pub proof fn no_line_closes_the_fence(info: Seq<char>, content: Seq<char>, i: int)
    requires
        0 <= i < lines_of(content).len(),
    ensures
        closing_run(lines_of(content)[i], fence_char(info)) < fence_text(info, content).len(),
{
    let c = fence_char(info);
    let n = longest_closing(lines_of(content), c);
    longest_is_longest(lines_of(content), c, i);
    repeats_have_length(
        seq![c],
        if n < 3 {
            3
        } else {
            (n + 1) as nat
        },
    );
}

proof fn longest_is_longest(ls: Seq<Seq<char>>, c: char, i: int)
    requires
        0 <= i < ls.len(),
    ensures
        closing_run(ls[i], c) <= longest_closing(ls, c),
    decreases ls.len(),
{
    if i < ls.len() - 1 {
        longest_is_longest(ls.drop_last(), c, i);
        assert(ls.drop_last()[i] == ls[i]);
    }
}

proof fn repeats_have_length(s: Seq<char>, n: nat)
    requires
        s.len() == 1,
    ensures
        repeated(s, n).len() == n,
    decreases n,
{
    if n > 0 {
        repeats_have_length(s, (n - 1) as nat);
    }
}

/// Two lists of one kind, one right behind the other or with blank lines
/// between them, have different markers.
pub proof fn adjacent_lists_differ(s: Seq<BlockView>, n: nat)
    requires
        s.len() > 0,
        without_last_blanks(s.drop_last()).len() > 0,
        s.last() is List,
        without_last_blanks(s.drop_last()).last() is List,
        s.last()->ordered == without_last_blanks(s.drop_last()).last()->ordered,
    ensures
        ({
            let ordered = s.last()->ordered;
            marker(ordered, takes_other(s), n) != marker(
                ordered,
                takes_other(without_last_blanks(s.drop_last())),
                n,
            )
        }),
{
    reveal_strlit("-");
    reveal_strlit("*");
    reveal_strlit(".");
    reveal_strlit(")");
    assert("-"@[0] != "*"@[0]);
    let f = without_last_blanks(s.drop_last());
    let a = marker(s.last()->ordered, takes_other(s), n);
    let b = marker(s.last()->ordered, takes_other(f), n);
    assert(takes_other(s) != takes_other(f));
    assert(a.last() != b.last());
}

/// Whether two lists of blocks are the same but for the source lines of the
/// blocks.
pub open spec fn same_but_for_lines(s: Seq<BlockView>, t: Seq<BlockView>) -> bool {
    &&& s.len() == t.len()
    &&& forall|i: int|
        0 <= i < s.len() ==> with_line(#[trigger] s[i], 0) == with_line(#[trigger] t[i], 0)
}

proof fn same_blanks_end(s: Seq<BlockView>, t: Seq<BlockView>)
    requires
        same_but_for_lines(s, t),
    ensures
        same_but_for_lines(without_last_blanks(s), without_last_blanks(t)),
    decreases s.len(),
{
    if s.len() > 0 {
        let n = s.len() - 1;
        assert(with_line(s[n], 0) == with_line(t[n], 0));
        if s.last() == BlockView::BlankLine {
            same_blanks_end(s.drop_last(), t.drop_last());
        }
    }
}

proof fn same_lists_take_other(s: Seq<BlockView>, t: Seq<BlockView>)
    requires
        same_but_for_lines(s, t),
    ensures
        takes_other(s) == takes_other(t),
    decreases s.len(),
{
    if s.len() > 0 {
        let n = s.len() - 1;
        assert(with_line(s[n], 0) == with_line(t[n], 0));
        let f = without_last_blanks(s.drop_last());
        let g = without_last_blanks(t.drop_last());
        same_blanks_end(s.drop_last(), t.drop_last());
        without_last_blanks_is_no_longer(s.drop_last());
        if f.len() > 0 {
            same_lists_take_other(f, g);
            assert(with_line(f[f.len() - 1], 0) == with_line(g[f.len() - 1], 0));
        }
    }
}

/// Where a block stood in a source leaves no trace in what is written: blocks
/// that are the same but for their lines have the same text.
pub proof fn lines_are_not_written(s: Seq<BlockView>, t: Seq<BlockView>, opens: bool)
    requires
        same_but_for_lines(s, t),
    ensures
        top_text(s, opens) == top_text(t, opens),
    decreases s.len(),
{
    if s.len() > 0 {
        let n = s.len() - 1;
        lines_are_not_written(s.drop_last(), t.drop_last(), opens);
        assert(with_line(s[n], 0) == with_line(t[n], 0));
        let o = takes_other(s);
        same_lists_take_other(s, t);
        assert(top_block(s[n], o) == top_block(with_line(s[n], 0), o));
        assert(top_block(t[n], o) == top_block(with_line(t[n], 0), o));
        if n > 0 {
            assert(with_line(s[n - 1], 0) == with_line(t[n - 1], 0));
        }
        assert(gap(s) == gap(t));
    }
}

/// A serialized document ends with a line feed, and never with three.
pub proof fn document_ends_well(doc: DocumentView, order: Seq<Seq<char>>)
    ensures
        ({
            let f = document_text(doc, order);
            let n = f.len() as int;
            &&& n > 0 && f[n - 1] == '\n'
            &&& !(n >= 3 && f[n - 2] == '\n' && f[n - 3] == '\n')
        }),
{
    finished_ends_well(
        (match doc.frontmatter {
            Some(fm) => "---\n"@ + entries_text(written_entries(fm, order)) + "---\n"@,
            None => Seq::empty(),
        }) + top_text(doc.blocks, true),
    );
}

fn finish(s: &str) -> (r: String)
    ensures
        r@ == finished(s@),
{
    let v = chars_of(s);
    let mut n: usize = v.len();
    assert(v@.take(n as int) =~= v@);
    while n >= 3 && v[n - 1] == '\n' && v[n - 2] == '\n' && v[n - 3] == '\n'
        invariant
            n <= v.len(),
            two_feeds(v@.take(n as int)) == two_feeds(v@),
        decreases n,
    {
        assert(v@.take(n as int).drop_last() =~= v@.take(n - 1));
        n -= 1;
    }
    let mut out = slice_text(&v, 0, n);
    assert(out@ =~= v@.take(n as int));
    if !(n > 0 && v[n - 1] == '\n') {
        out.push('\n');
    }
    out
}

fn indent_lines(ls: &Vec<String>, indent: &str) -> (r: String)
    ensures
        r@ == indented(texts(ls@), indent@),
{
    let mut out = String::new();
    let mut i: usize = 0;
    while i < ls.len()
        invariant
            i <= ls.len(),
            out@ == indented(texts(ls@).take(i as int), indent@),
        decreases ls.len() - i,
    {
        assert(texts(ls@).take(i + 1).drop_last() =~= texts(ls@).take(i as int));
        let ghost was = out@;
        if !ls[i].as_str().is_empty() {
            out.append(indent);
            out.append(ls[i].as_str());
        }
        out.append("\n");
        assert(out@ =~= was + (if ls@[i as int]@.len() == 0 {
            "\n"@
        } else {
            indent@ + ls@[i as int]@ + "\n"@
        }));
        i += 1;
    }
    assert(texts(ls@).take(ls@.len() as int) =~= texts(ls@));
    out
}

/// A copy of inlines, with soft breaks for hard ones.
fn soften(v: &Vec<Inline>) -> (r: Vec<Inline>)
    ensures
        inlines_view(r@) == softened(inlines_view(v@)),
{
    let mut out: Vec<Inline> = Vec::new();
    let mut i: usize = 0;
    while i < v.len()
        invariant
            i <= v.len(),
            out.len() == i,
            forall|k: int|
                0 <= k < i ==> (#[trigger] out[k])@ == softened(inlines_view(v@))[k],
        decreases v.len() - i,
    {
        let c = match &v[i] {
            Inline::HardBreak => Inline::SoftBreak,
            other => copy_inline(other),
        };
        assert(c@ == softened(inlines_view(v@))[i as int]);
        out.push(c);
        i += 1;
    }
    assert(inlines_view(out@) =~= softened(inlines_view(v@)));
    out
}

fn serialize_heading(level: u8, content: &Vec<Inline>, indent: &str) -> (r: String)
    ensures
        r@ == heading_text(level, inlines_view(content@), indent@),
{
    let mut out = String::from_str(indent);
    let hashes = repeat("#", level as usize);
    out.append(hashes.as_str());
    out.append(" ");
    let soft = soften(content);
    let t = write_inlines(soft.as_slice(), true);
    let line = replace(t.as_str(), '\n', " ");
    out.append(trim_char(line.as_str(), ' ').as_str());
    out.append("\n");
    out
}

/// The length of the run of `c` that a line is, as the end of a code fence.
fn find_closing_run(s: &str, c: char) -> (r: usize)
    ensures
        r == closing_run(s@, c),
{
    let v = chars_of(s);
    let i = find_run_end(&v, ' ', 0);
    let e = find_run_end(&v, c, i);
    if i <= 3 && find_run_end(&v, ' ', e) == v.len() {
        e - i
    } else {
        0
    }
}

/// The info string of a code block.
fn info_of(language: &Option<String>) -> (r: String)
    ensures
        r@ == fence_info(option_text(*language)),
{
    match language {
        Some(lang) => lang.clone(),
        None => String::from_str(""),
    }
}

/// The fence of a code block, which none of its lines closes.
pub fn write_fence(info: &str, content: &str) -> (r: String)
    ensures
        r@ == fence_text(info@, content@),
{
    let tildes = contains_char(info, '`');
    let c = if tildes {
        '~'
    } else {
        '`'
    };
    let ls = lines(content);
    let ghost all = texts(ls@);
    let mut n: usize = 0;
    let mut i: usize = 0;
    assert(all.take(0) =~= Seq::empty());
    while i < ls.len()
        invariant
            i <= ls.len(),
            all == texts(ls@),
            n == longest_closing(all.take(i as int), c),
        decreases ls.len() - i,
    {
        assert(all.take(i + 1).drop_last() =~= all.take(i as int));
        assert(all.take(i + 1).last() == ls@[i as int]@);
        let r = find_closing_run(ls[i].as_str(), c);
        if r > n {
            n = r;
        }
        i += 1;
    }
    assert(all.take(all.len() as int) =~= all);
    proof {
        reveal_strlit("~");
        reveal_strlit("`");
        assert("~"@ =~= seq!['~']);
        assert("`"@ =~= seq!['`']);
    }
    let one = if tildes {
        "~"
    } else {
        "`"
    };
    if n < 3 {
        repeat(one, 3)
    } else {
        let mut out = repeat(one, n);
        out.append(one);
        out
    }
}

/// Whether the last of the first `n` blocks is a list that takes the other
/// marker.
fn other_at(blocks: &Vec<Block>, n: usize) -> (r: bool)
    requires
        n <= blocks.len(),
    ensures
        r == takes_other(blocks_view(blocks@).take(n as int)),
    decreases n,
{
    if n == 0 {
        return false;
    }
    let ghost s = blocks_view(blocks@);
    proof {
        assert(s.take(n as int).drop_last() =~= s.take(n - 1));
        assert(s.take(n as int).last() == blocks@[n - 1]@);
    }
    match &blocks[n - 1] {
        Block::List { items: _, ordered, start: _, line: _ } => {
            let mut m: usize = n - 1;
            while m > 0 && is_blank(&blocks[m - 1])
                invariant
                    m <= n - 1,
                    n <= blocks.len(),
                    s == blocks_view(blocks@),
                    without_last_blanks(s.take(m as int)) == without_last_blanks(s.take(n - 1)),
                decreases m,
            {
                assert(s.take(m as int).drop_last() =~= s.take(m - 1));
                assert(s.take(m as int).last() == blocks@[m - 1]@);
                m -= 1;
            }
            if m == 0 {
                return false;
            }
            assert(s.take(m as int).last() == blocks@[m - 1]@);
            match &blocks[m - 1] {
                Block::List { items: _, ordered: kind, start: _, line: _ } => *kind == *ordered && !other_at(
                    blocks,
                    m,
                ),
                _ => false,
            }
        },
        _ => false,
    }
}

/// The blocks of a document, which `opens` a text, or of a quote.
///
/// A thematic break that opens a text is written with stars: three dashes
/// there would start front matter.
pub fn serialize_top(blocks: &Vec<Block>, opens: bool) -> (r: String)
    ensures
        r@ == top_text(blocks_view(blocks@), opens),
    decreases blocks@, 0nat,
{
    let ghost s = blocks_view(blocks@);
    let mut out = String::new();
    let mut i: usize = 0;
    while i < blocks.len()
        invariant
            i <= blocks.len(),
            s == blocks_view(blocks@),
            out@ == top_text(s.take(i as int), opens),
        decreases blocks.len() - i,
    {
        let ghost was = out@;
        let ghost pre = s.take(i + 1);
        proof {
            assert(pre.drop_last() =~= s.take(i as int));
            assert(pre[i as int] == s[i as int]);
            assert(i > 0 ==> pre[i - 1] == s[i - 1]);
        }
        let sets_off = match &blocks[i] {
            Block::Heading { .. } => true,
            Block::ThematicBreak { .. } => true,
            Block::BlockQuote { .. } => true,
            _ => false,
        };
        if sets_off && i > 0 && !is_blank(&blocks[i - 1]) {
            out.append("\n");
        }
        assert(out@ =~= was + gap(pre));
        if opens && i == 0 && is_rule(&blocks[i]) {
            out.append("***\n");
        } else {
            let other = other_at(blocks, i + 1);
            let t = serialize_top_block(&blocks[i], other);
            out.append(t.as_str());
        }
        assert(out@ == top_text(pre, opens));
        i += 1;
    }
    assert(s.take(s.len() as int) =~= s);
    out
}

fn is_rule(b: &Block) -> (r: bool)
    ensures
        r == (b@ is ThematicBreak),
{
    match b {
        Block::ThematicBreak { .. } => true,
        _ => false,
    }
}

/// A block of a document or of a quote.
fn serialize_top_block(b: &Block, other: bool) -> (r: String)
    ensures
        r@ == top_block(b@, other),
    decreases b, 0nat,
{
    match b {
        Block::Heading { level, content, line: _ } => {
            let t = serialize_heading(*level, content, "");
            assert(""@ =~= Seq::<char>::empty()) by {
                reveal_strlit("");
            }
            t
        },
        Block::Paragraph { content, line: _ } => {
            let whole = write_inlines(content.as_slice(), true);
            let mut t = write_paragraph(whole.as_str(), "");
            t.append("\n");
            assert(""@ =~= Seq::<char>::empty()) by {
                reveal_strlit("");
            }
            t
        },
        Block::List { items, ordered, start, line: _ } => {
            let t = serialize_list(items, *ordered, *start, other, "");
            assert(""@ =~= Seq::<char>::empty()) by {
                reveal_strlit("");
            }
            t
        },
        Block::CodeBlock { language, content, line: _ } => {
            let info = info_of(language);
            let fence = write_fence(info.as_str(), content.as_str());
            let mut t = fence.clone();
            t.append(info.as_str());
            t.append("\n");
            t.append(content.as_str());
            if !ends_with_char(content.as_str(), '\n') {
                t.append("\n");
            }
            t.append(fence.as_str());
            t.append("\n");
            assert(t@ =~= top_block(b@, other));
            t
        },
        Block::Html { content, line: _ } => {
            let mut t = content.clone();
            if !ends_with_char(content.as_str(), '\n') {
                t.append("\n");
            }
            assert(t@ =~= top_block(b@, other));
            t
        },
        Block::BlockQuote { blocks, line: _ } => serialize_blockquote(blocks),
        Block::Table { alignments, header, rows, line: _ } => {
            let t = serialize_table(alignments, header, rows, "");
            assert(""@ =~= Seq::<char>::empty()) by {
                reveal_strlit("");
            }
            t
        },
        Block::ThematicBreak { line: _ } => String::from_str("---\n"),
        Block::BlankLine => String::from_str("\n"),
    }
}

/// A quote.
pub fn serialize_blockquote(inner: &Vec<Block>) -> (r: String)
    ensures
        r@ == quote_text(blocks_view(inner@)),
    decreases inner@, 1nat,
{
    let text = serialize_top(inner, false);
    let whole = finish(text.as_str());
    let body = trim_end_char(whole.as_str(), '\n');
    let ls = split(body.as_str(), '\n');
    let mut out = String::new();
    let mut i: usize = 0;
    while i < ls.len()
        invariant
            i <= ls.len(),
            out@ == quoted_lines(texts(ls@).take(i as int)),
        decreases ls.len() - i,
    {
        assert(texts(ls@).take(i + 1).drop_last() =~= texts(ls@).take(i as int));
        let ghost was = out@;
        if ls[i].as_str().is_empty() {
            out.append(">\n");
        } else {
            out.append("> ");
            out.append(ls[i].as_str());
            out.append("\n");
            assert(out@ =~= was + ("> "@ + ls@[i as int]@ + "\n"@));
        }
        i += 1;
    }
    assert(texts(ls@).take(ls@.len() as int) =~= texts(ls@));
    out
}

/// The items of a list, each behind `indent`.
pub fn serialize_list(
    items: &Vec<ListItem>,
    ordered: bool,
    start: u64,
    other: bool,
    indent: &str,
) -> (r: String)
    ensures
        r@ == list_text(items_view(items@), ordered, start, other, indent@),
    decreases items@, 0nat,
{
    let ghost s = items_view(items@);
    let mut out = String::new();
    let mut i: usize = 0;
    while i < items.len()
        invariant
            i <= items.len(),
            s == items_view(items@),
            out@ == list_text(s.take(i as int), ordered, start, other, indent@),
        decreases items.len() - i,
    {
        let ghost was = out@;
        let ghost pre = s.take(i + 1);
        proof {
            assert(pre.drop_last() =~= s.take(i as int));
            assert(pre[i as int] == s[i as int]);
        }
        let mark = if ordered {
            let n: u64 = if i as u64 <= u64::MAX - start {
                start + i as u64
            } else {
                u64::MAX
            };
            let mut m = number(n);
            m.append(
                if other {
                    ")"
                } else {
                    "."
                },
            );
            m
        } else {
            String::from_str(
                if other {
                    "*"
                } else {
                    "-"
                },
            )
        };
        assert(decreases_to!(items@ => items@[i as int]));
        let t = serialize_item(&items[i], mark.as_str(), indent);
        out.append(t.as_str());
        assert(out@ == list_text(pre, ordered, start, other, indent@));
        i += 1;
    }
    assert(s.take(s.len() as int) =~= s);
    out
}

/// An item of a list.
fn serialize_item(item: &ListItem, mark: &str, indent: &str) -> (r: String)
    ensures
        r@ == item_text(item@, mark@, indent@),
    decreases item, 0nat,
{
    let mut out = String::from_str(indent);
    out.append(mark);
    out.append(" ");
    let mut deeper = String::from_str(indent);
    let width = repeat(" ", chars_of(mark).len());
    deeper.append(width.as_str());
    deeper.append(" ");
    assert(deeper@ =~= indent@ + repeated(" "@, mark@.len() + 1));
    let c = serialize_blocks(&item.children, deeper.as_str());
    if begins_item(item) {
        if let Some(rest) = strip_prefix(c.as_str(), deeper.as_str()) {
            out.append(rest.as_str());
            assert(rest@ =~= c@.skip(deeper@.len() as int));
            return out;
        }
    }
    let whole = write_inlines(item.content.as_slice(), true);
    let t = write_paragraph(whole.as_str(), deeper.as_str());
    out.append(t.as_str());
    out.append("\n");
    let ghost head = out@;
    if item.content.len() > 0 && item.children.len() > 0 && stays_with_text(&item.children[0]) {
        out.append("\n");
    }
    assert(out@ =~= head + item_gap(item@));
    out.append(c.as_str());
    out
}

/// Whether the first block of an item stands beside its marker.
fn begins_item(item: &ListItem) -> (r: bool)
    ensures
        r == opens_item(item@),
{
    if item.content.len() > 0 || item.children.len() == 0 {
        return false;
    }
    assert(item@.children[0] == item.children@[0]@);
    match &item.children[0] {
        Block::Heading { .. } => true,
        Block::CodeBlock { .. } => true,
        Block::BlockQuote { .. } => true,
        Block::Table { .. } => true,
        Block::List { items, .. } => {
            assert(items@.len() > 0 ==> items_view(items@)[0] == items@[0]@);
            items.len() == 0 || items[0].content.len() > 0
        },
        _ => false,
    }
}

/// Whether a block right under a line of text would be read as part of it.
fn stays_with_text(b: &Block) -> (r: bool)
    ensures
        r == clings_to_text(b@),
{
    match b {
        Block::Paragraph { .. } => true,
        Block::Html { content, line: _ } => !stands_under_text(content.as_str()),
        Block::ThematicBreak { .. } => true,
        Block::List { items, ordered, start, line: _ } => {
            assert(items@.len() > 0 ==> items_view(items@)[0] == items@[0]@);
            (items.len() > 0 && items[0].content.len() == 0) || (*ordered && *start != 1)
        },
        _ => false,
    }
}

fn loose_html(b: &Block) -> (r: bool)
    ensures
        r == is_loose_html(b@),
{
    match b {
        Block::Html { content, line: _ } => !stands_under_text(content.as_str()),
        _ => false,
    }
}

/// Whether a block right under another, inside a list item, would be read as
/// part of it.
fn stays_with(above: &Block, b: &Block) -> (r: bool)
    ensures
        r == clings_to(above@, b@),
{
    if is_blank(above) || is_blank(b) {
        return false;
    }
    match (above, b) {
        (_, Block::Paragraph { .. }) => true,
        (Block::Html { content, line: _ }, _) => !closes_itself(content.as_str()) || loose_html(b),
        (_, Block::Html { .. }) => loose_html(b),
        (Block::Paragraph { .. }, _) => stays_with_text(b),
        (Block::BlockQuote { .. }, Block::BlockQuote { .. }) => true,
        (Block::Table { .. }, Block::Table { .. }) => true,
        (Block::BlockQuote { .. }, Block::Table { .. }) => true,
        (Block::List { .. }, Block::Table { .. }) => true,
        _ => false,
    }
}

/// The blocks inside a list item, each behind `indent`.
pub fn serialize_blocks(blocks: &Vec<Block>, indent: &str) -> (r: String)
    ensures
        r@ == nested_text(blocks_view(blocks@), indent@),
    decreases blocks@, 0nat,
{
    let ghost s = blocks_view(blocks@);
    let mut out = String::new();
    let mut i: usize = 0;
    while i < blocks.len()
        invariant
            i <= blocks.len(),
            s == blocks_view(blocks@),
            out@ == nested_text(s.take(i as int), indent@),
        decreases blocks.len() - i,
    {
        let ghost pre = s.take(i + 1);
        proof {
            assert(pre.drop_last() =~= s.take(i as int));
            assert(pre[i as int] == s[i as int]);
            assert(i > 0 ==> pre[i - 1] == s[i - 1]);
        }
        let ghost was = out@;
        if i > 0 && stays_with(&blocks[i - 1], &blocks[i]) {
            out.append("\n");
        }
        assert(out@ =~= was + nested_gap(pre));
        let other = other_at(blocks, i + 1);
        let t = serialize_nested_block(&blocks[i], other, indent);
        out.append(t.as_str());
        assert(out@ == nested_text(pre, indent@));
        i += 1;
    }
    assert(s.take(s.len() as int) =~= s);
    out
}

/// A block inside a list item.
fn serialize_nested_block(b: &Block, other: bool, indent: &str) -> (r: String)
    ensures
        r@ == nested_block(b@, other, indent@),
    decreases b, 0nat,
{
    match b {
        Block::Heading { level, content, line: _ } => serialize_heading(*level, content, indent),
        Block::Paragraph { content, line: _ } => {
            let mut out = String::from_str(indent);
            let whole = write_inlines(content.as_slice(), true);
            let t = write_paragraph(whole.as_str(), indent);
            out.append(t.as_str());
            out.append("\n");
            out
        },
        Block::List { items, ordered, start, line: _ } => serialize_list(
            items,
            *ordered,
            *start,
            other,
            indent,
        ),
        Block::CodeBlock { language, content, line: _ } => {
            let mut out = String::from_str(indent);
            let info = info_of(language);
            let fence = write_fence(info.as_str(), content.as_str());
            out.append(fence.as_str());
            out.append(info.as_str());
            out.append("\n");
            let ls = lines(content.as_str());
            let t = indent_lines(&ls, indent);
            out.append(t.as_str());
            out.append(indent);
            out.append(fence.as_str());
            out.append("\n");
            assert(out@ =~= nested_block(b@, other, indent@));
            out
        },
        Block::Html { content, line: _ } => {
            let html = trim_end_char(content.as_str(), '\n');
            let ls = lines(html.as_str());
            indent_lines(&ls, indent)
        },
        Block::BlockQuote { blocks, line: _ } => {
            let quote = serialize_blockquote(blocks);
            let ls = lines(quote.as_str());
            indent_lines(&ls, indent)
        },
        Block::Table { alignments, header, rows, line: _ } => serialize_table(
            alignments,
            header,
            rows,
            indent,
        ),
        Block::ThematicBreak { line: _ } => {
            let mut out = String::from_str(indent);
            out.append("---\n");
            out
        },
        Block::BlankLine => String::from_str("\n"),
    }
}

// ── documents ─────────────────────────────────────────────────────────────

/// Serialize a document with front matter fields in a given order.
///
/// The fields that `field_order` names are written first, in that order; any
/// remaining fields follow as they come. With an empty order `type` comes
/// first.
pub fn serialize_with_field_order(doc: &Document, field_order: &[&str]) -> (r: String)
    ensures
        r@ == document_text(doc@, names(field_order@)),
{
    let mut out = String::new();
    if let Some(fm) = &doc.frontmatter {
        out.append("---\n");
        let t = serialize_frontmatter_ordered(fm, field_order);
        out.append(t.as_str());
        out.append("---\n");
        assert(out@ =~= "---\n"@ + t@ + "---\n"@);
    }
    let t = serialize_top(&doc.blocks, true);
    out.append(t.as_str());
    finish(out.as_str())
}

/// Serialize a document back to a markdown string.
///
/// `type` is written first, then all other fields in their original order.
pub fn serialize(doc: &Document) -> (r: String)
    ensures
        r@ == document_text(doc@, Seq::empty()),
{
    let none: Vec<&str> = Vec::new();
    let r = serialize_with_field_order(doc, none.as_slice());
    assert(names(none@) =~= Seq::empty());
    r
}

} // verus!
