//! Corrections for diagnostics that have a known one.
//!
//! Fixes are separate from diagnostics: they describe the action, not the
//! problem.

use crate::ast::{
    block_line, blocks_view, copy_block, copy_blocks, copy_inlines, inlines_view, items_view, Block,
    BlockView, Document, Inline, InlineView, ListItem, ListItemView,
};
use crate::diagnostic::{
    block_lists_view, copy_block_lists, copy_entries, copy_ranges, diagnostics_view, entries_view,
    Diagnostic, DiagnosticView, SortedEntry, SortedEntryView,
};
use crate::parse::{blocks_view_push, is_blank, items_view_push};
use crate::standing::{runs, runs_add, runs_of, runs_of_item, runs_of_items, runs_one};
use vstd::prelude::*;

verus! {

/// An auto-correctable action derived from one or more diagnostics.
#[allow(inconsistent_fields)]
#[derive(Debug)]
pub enum Fix {
    /// Insert an H1 heading at the top of the document.
    InsertH1 { text: String },
    /// Replace the existing H1 heading text.
    ReplaceH1 { text: String },
    /// Replace or append a managed section.
    UpdateManagedSection {
        /// Block index of section start (`None` if the section doesn't exist
        /// yet).
        section_start: Option<usize>,
        /// Block index of section end (exclusive).
        section_end: usize,
        /// Blocks to write into the section.
        managed_blocks: Vec<Block>,
        /// Content the template didn't account for, appended after the
        /// managed blocks.
        custom_content: Vec<Block>,
    },
    /// Rebuild the document with date entries in the correct sort order.
    SortEntries { preamble: Vec<Block>, sorted_entries: Vec<SortedEntry> },
    /// Remove empty optional sections, given as block ranges.
    RemoveEmptySections { section_ranges: Vec<(usize, usize)> },
    /// Convert paragraph blocks to bullet list items.
    ConvertParagraphsToBullets {
        /// Block indices of the paragraphs to convert.
        paragraph_indices: Vec<usize>,
        /// Whether to produce ordered lists.
        ordered: bool,
    },
    /// Flip a list's ordered/unordered flag.
    ConvertListType {
        /// Block index of the list to convert.
        list_index: usize,
        /// Target: `true` for ordered, `false` for unordered.
        ordered: bool,
    },
    /// Rebuild the document with sections in schema-defined order.
    ReorderSections { preamble: Vec<Block>, sorted_sections: Vec<Vec<Block>> },
}

/// What a [`Fix`] holds.
#[allow(inconsistent_fields)]
pub enum FixView {
    InsertH1 { text: Seq<char> },
    ReplaceH1 { text: Seq<char> },
    UpdateManagedSection {
        section_start: Option<usize>,
        section_end: usize,
        managed_blocks: Seq<BlockView>,
        custom_content: Seq<BlockView>,
    },
    SortEntries { preamble: Seq<BlockView>, sorted_entries: Seq<SortedEntryView> },
    RemoveEmptySections { section_ranges: Seq<(usize, usize)> },
    ConvertParagraphsToBullets { paragraph_indices: Seq<usize>, ordered: bool },
    ConvertListType { list_index: usize, ordered: bool },
    ReorderSections { preamble: Seq<BlockView>, sorted_sections: Seq<Seq<BlockView>> },
}

impl View for Fix {
    type V = FixView;

    open spec fn view(&self) -> FixView {
        match *self {
            Fix::InsertH1 { text } => FixView::InsertH1 { text: text@ },
            Fix::ReplaceH1 { text } => FixView::ReplaceH1 { text: text@ },
            Fix::UpdateManagedSection {
                section_start,
                section_end,
                managed_blocks,
                custom_content,
            } => FixView::UpdateManagedSection {
                section_start,
                section_end,
                managed_blocks: blocks_view(managed_blocks@),
                custom_content: blocks_view(custom_content@),
            },
            Fix::SortEntries { preamble, sorted_entries } => FixView::SortEntries {
                preamble: blocks_view(preamble@),
                sorted_entries: entries_view(sorted_entries@),
            },
            Fix::RemoveEmptySections { section_ranges } => FixView::RemoveEmptySections {
                section_ranges: section_ranges@,
            },
            Fix::ConvertParagraphsToBullets { paragraph_indices, ordered } =>
                FixView::ConvertParagraphsToBullets {
                paragraph_indices: paragraph_indices@,
                ordered,
            },
            Fix::ConvertListType { list_index, ordered } => FixView::ConvertListType {
                list_index,
                ordered,
            },
            Fix::ReorderSections { preamble, sorted_sections } => FixView::ReorderSections {
                preamble: blocks_view(preamble@),
                sorted_sections: block_lists_view(sorted_sections@),
            },
        }
    }
}

/// The content of a list of fixes.
pub open spec fn fixes_view(v: Seq<Fix>) -> Seq<FixView> {
    v.map_values(|f: Fix| f@)
}

// ── which diagnostics have a fix ──────────────────────────────────────────

/// Whether a diagnostic has a fix.
pub open spec fn fixable(d: DiagnosticView) -> bool {
    ||| d is MissingH1
    ||| d is H1Mismatch
    ||| d is ManagedSectionNeedsUpdate
    ||| d is EntriesOutOfOrder
    ||| d is EmptyOptionalSection
    ||| d is SectionNotBullets
    ||| d is WrongListType
    ||| d is SectionOutOfOrder
    ||| d is SectionsOutOfOrder
}

/// The fix that a diagnostic carries itself.
pub open spec fn own_fix(d: DiagnosticView) -> Option<FixView> {
    match d {
        DiagnosticView::MissingH1 { expected } => Some(FixView::InsertH1 { text: expected }),
        DiagnosticView::H1Mismatch { expected, .. } => Some(FixView::ReplaceH1 { text: expected }),
        DiagnosticView::ManagedSectionNeedsUpdate {
            section_start,
            section_end,
            managed_blocks,
            custom_content,
        } => Some(
            FixView::UpdateManagedSection {
                section_start,
                section_end: section_end as usize,
                managed_blocks,
                custom_content,
            },
        ),
        DiagnosticView::EntriesOutOfOrder { preamble, sorted_entries } => Some(
            FixView::SortEntries { preamble, sorted_entries },
        ),
        DiagnosticView::EmptyOptionalSection { section_ranges } => Some(
            FixView::RemoveEmptySections { section_ranges },
        ),
        DiagnosticView::SectionsOutOfOrder { preamble, sorted_sections } => Some(
            FixView::ReorderSections { preamble, sorted_sections },
        ),
        _ => None,
    }
}

/// A diagnostic that carries a fix is fixable; of the fixable ones, those
/// that carry none either need the document to locate the blocks or come
/// along with one that does carry a fix.
pub proof fn own_fix_is_fixable(d: DiagnosticView)
    ensures
        fixable(d) <==> own_fix(d) is Some || d is SectionNotBullets || d is WrongListType
            || d is SectionOutOfOrder,
        own_fix(d) is Some ==> !(d is SectionNotBullets || d is WrongListType
            || d is SectionOutOfOrder),
{
}

/// The content of an optional fix.
pub open spec fn option_fix(f: Option<Fix>) -> Option<FixView> {
    match f {
        Some(f) => Some(f@),
        None => None,
    }
}

impl Fix {
    /// Returns `true` if this diagnostic variant has a corresponding
    /// auto-fix.
    pub fn is_fixable(diag: &Diagnostic) -> (r: bool)
        ensures
            r == fixable(diag@),
    {
        match diag {
            Diagnostic::MissingH1 { .. } => true,
            Diagnostic::H1Mismatch { .. } => true,
            Diagnostic::ManagedSectionNeedsUpdate { .. } => true,
            Diagnostic::EntriesOutOfOrder { .. } => true,
            Diagnostic::EmptyOptionalSection { .. } => true,
            Diagnostic::SectionNotBullets { .. } => true,
            Diagnostic::WrongListType { .. } => true,
            Diagnostic::SectionOutOfOrder { .. } => true,
            Diagnostic::SectionsOutOfOrder { .. } => true,
            _ => false,
        }
    }

    /// Derive a fix from a diagnostic, if one exists.
    ///
    /// For paragraphs in bullet sections and for lists of the wrong type use
    /// [`build_content_fixes`] instead: those need the document to locate
    /// the blocks.
    pub fn from_diagnostic(diag: &Diagnostic) -> (r: Option<Fix>)
        ensures
            option_fix(r) == own_fix(diag@),
    {
        match diag {
            Diagnostic::MissingH1 { expected } => Some(Fix::InsertH1 { text: expected.clone() }),
            Diagnostic::H1Mismatch { expected, .. } => Some(
                Fix::ReplaceH1 { text: expected.clone() },
            ),
            Diagnostic::ManagedSectionNeedsUpdate {
                section_start,
                section_end,
                managed_blocks,
                custom_content,
            } => Some(
                Fix::UpdateManagedSection {
                    section_start: *section_start,
                    section_end: *section_end,
                    managed_blocks: copy_blocks(managed_blocks),
                    custom_content: copy_blocks(custom_content),
                },
            ),
            Diagnostic::EntriesOutOfOrder { preamble, sorted_entries } => Some(
                Fix::SortEntries {
                    preamble: copy_blocks(preamble),
                    sorted_entries: copy_entries(sorted_entries),
                },
            ),
            Diagnostic::EmptyOptionalSection { section_ranges } => Some(
                Fix::RemoveEmptySections { section_ranges: copy_ranges(section_ranges) },
            ),
            Diagnostic::SectionsOutOfOrder { preamble, sorted_sections } => Some(
                Fix::ReorderSections {
                    preamble: copy_blocks(preamble),
                    sorted_sections: copy_block_lists(sorted_sections),
                },
            ),
            _ => None,
        }
    }
}

// ── what a fix does ───────────────────────────────────────────────────────

/// An H1 with the given text.
pub open spec fn h1(text: Seq<char>, line: int) -> BlockView {
    BlockView::Heading { level: 1, content: seq![InlineView::Text(text)], line }
}

/// The position of the first H1 from `i` on.
pub open spec fn first_h1(s: Seq<BlockView>, i: int) -> Option<int>
    decreases s.len() - i,
{
    if i < 0 || i >= s.len() {
        None
    } else if s[i] matches BlockView::Heading { level, .. } && level == 1 {
        Some(i)
    } else {
        first_h1(s, i + 1)
    }
}

/// The blocks of a managed section: the template's, and behind a blank line
/// what the document had on its own.
pub open spec fn section_blocks(managed: Seq<BlockView>, custom: Seq<BlockView>) -> Seq<BlockView> {
    if custom.len() == 0 {
        managed
    } else {
        managed.push(BlockView::BlankLine) + custom
    }
}

/// The blocks of all entries, one after the other.
pub open spec fn entry_blocks(entries: Seq<SortedEntryView>) -> Seq<BlockView>
    decreases entries.len(),
{
    if entries.len() == 0 {
        Seq::empty()
    } else {
        entry_blocks(entries.drop_last()) + entries.last().blocks
    }
}

/// The blocks of all sections, one after the other.
pub open spec fn all_blocks(sections: Seq<Seq<BlockView>>) -> Seq<BlockView>
    decreases sections.len(),
{
    if sections.len() == 0 {
        Seq::empty()
    } else {
        all_blocks(sections.drop_last()) + sections.last()
    }
}

/// `ranges` with `r` behind every range that does not start after it.
pub open spec fn inserted(ranges: Seq<(usize, usize)>, r: (usize, usize)) -> Seq<(usize, usize)>
    decreases ranges.len(),
{
    if ranges.len() == 0 || ranges.last().0 <= r.0 {
        ranges.push(r)
    } else {
        inserted(ranges.drop_last(), r).push(ranges.last())
    }
}

/// `ranges` in the order in which they start.
pub open spec fn by_start(ranges: Seq<(usize, usize)>) -> Seq<(usize, usize)>
    decreases ranges.len(),
{
    if ranges.len() == 0 {
        ranges
    } else {
        inserted(by_start(ranges.drop_last()), ranges.last())
    }
}

/// `s` without the blocks of the range `r`, as far as it has them.
pub open spec fn without_range(s: Seq<BlockView>, r: (usize, usize)) -> Seq<BlockView> {
    if r.0 < s.len() {
        let end = if r.1 <= s.len() {
            r.1 as int
        } else {
            s.len() as int
        };
        if end >= r.0 {
            s.take(r.0 as int) + s.skip(end)
        } else {
            s
        }
    } else {
        s
    }
}

/// `s` without the blocks of the ranges, taken out from the last to the
/// first.
pub open spec fn without_ranges(s: Seq<BlockView>, ranges: Seq<(usize, usize)>) -> Seq<BlockView>
    decreases ranges.len(),
{
    if ranges.len() == 0 {
        s
    } else {
        without_ranges(without_range(s, ranges.last()), ranges.drop_last())
    }
}

/// Whether block `i` is a paragraph that `chosen` names.
pub open spec fn is_chosen(s: Seq<BlockView>, chosen: Seq<usize>, i: int) -> bool {
    0 <= i < s.len() && s[i] is Paragraph && exists|k: int|
        0 <= k < chosen.len() && #[trigger] chosen[k] == i
}

/// The next chosen paragraph from `i` on with nothing but blank lines before
/// it.
pub open spec fn next_in_run(s: Seq<BlockView>, chosen: Seq<usize>, i: int) -> Option<int>
    decreases s.len() - i,
{
    if i < 0 || i >= s.len() {
        None
    } else if is_chosen(s, chosen, i) {
        Some(i)
    } else if s[i] == BlockView::BlankLine {
        next_in_run(s, chosen, i + 1)
    } else {
        None
    }
}

/// The inline content of a paragraph.
pub open spec fn paragraph_content(b: BlockView) -> Seq<InlineView> {
    match b {
        BlockView::Paragraph { content, .. } => content,
        _ => Seq::empty(),
    }
}

/// The list items of the run that goes on with the paragraph `i`, behind
/// `acc`, and the position behind the run. Every item but the last carries
/// the blank line that keeps the list loose.
pub open spec fn run_from(
    s: Seq<BlockView>,
    chosen: Seq<usize>,
    i: int,
    acc: Seq<ListItemView>,
) -> (Seq<ListItemView>, int)
    decreases s.len() - i,
{
    let content = paragraph_content(s[i]);
    match next_in_run(s, chosen, i + 1) {
        Some(j) => if i < j < s.len() {
            run_from(
                s,
                chosen,
                j,
                acc.push(ListItemView { content, children: seq![BlockView::BlankLine] }),
            )
        } else {
            (acc, i + 1)
        },
        None => (acc.push(ListItemView { content, children: Seq::empty() }), i + 1),
    }
}

/// `s` from `i` on, behind `acc`, with every run of chosen paragraphs turned
/// into one list. Paragraphs with nothing but blank lines between them are
/// one run.
pub open spec fn bulleted_from(
    s: Seq<BlockView>,
    chosen: Seq<usize>,
    ordered: bool,
    i: int,
    acc: Seq<BlockView>,
) -> Seq<BlockView>
    decreases s.len() - i,
{
    if i < 0 || i >= s.len() {
        acc
    } else if is_chosen(s, chosen, i) {
        let (items, e) = run_from(s, chosen, i, Seq::empty());
        let list = BlockView::List { items, ordered, start: 1, line: block_line(s[i]) };
        if i < e <= s.len() {
            bulleted_from(s, chosen, ordered, e, acc.push(list))
        } else {
            acc.push(list)
        }
    } else {
        bulleted_from(s, chosen, ordered, i + 1, acc.push(s[i]))
    }
}

/// `b` as an ordered or unordered list.
pub open spec fn with_order(b: BlockView, order: bool) -> BlockView {
    match b {
        BlockView::List { items, start, line, .. } => BlockView::List {
            items,
            ordered: order,
            start,
            line,
        },
        _ => b,
    }
}

/// Whether no range that starts among `n` blocks ends before it starts.
pub open spec fn ranges_apply(ranges: Seq<(usize, usize)>, n: nat) -> bool {
    forall|i: int|
        0 <= i < ranges.len() ==> (#[trigger] ranges[i]).0 <= ranges[i].1 || ranges[i].0 >= n
}

/// Whether a fix can be applied: a section to replace lies within the
/// document, a range to remove does not end before it starts, and no
/// paragraph to convert is named twice.
pub open spec fn applies(f: FixView, s: Seq<BlockView>) -> bool {
    match f {
        FixView::UpdateManagedSection { section_start: Some(start), section_end, .. } => start
            <= section_end <= s.len(),
        FixView::RemoveEmptySections { section_ranges } => ranges_apply(
            section_ranges,
            s.len(),
        ),
        FixView::ConvertParagraphsToBullets { paragraph_indices, .. } => forall|i: int, j: int|
            0 <= i < j < paragraph_indices.len() && is_chosen(
                s,
                paragraph_indices,
                paragraph_indices[i] as int,
            ) ==> #[trigger] paragraph_indices[i] != #[trigger] paragraph_indices[j],
        _ => true,
    }
}

/// The blocks of a document after a fix.
pub open spec fn fixed(f: FixView, s: Seq<BlockView>) -> Seq<BlockView> {
    match f {
        FixView::InsertH1 { text } => if text.len() == 0 {
            s
        } else {
            seq![h1(text, 0)] + s
        },
        FixView::ReplaceH1 { text } => match first_h1(s, 0) {
            Some(i) => s.update(i, h1(text, block_line(s[i]))),
            None => s,
        },
        FixView::UpdateManagedSection {
            section_start,
            section_end,
            managed_blocks,
            custom_content,
        } => {
            let new = section_blocks(managed_blocks, custom_content);
            match section_start {
                Some(start) => s.take(start as int) + new + s.skip(section_end as int),
                None => if s.len() > 0 && s.last() != BlockView::BlankLine {
                    s.push(BlockView::BlankLine) + new
                } else {
                    s + new
                },
            }
        },
        FixView::SortEntries { preamble, sorted_entries } => preamble + entry_blocks(
            sorted_entries,
        ),
        FixView::RemoveEmptySections { section_ranges } => without_ranges(
            s,
            by_start(section_ranges),
        ),
        FixView::ConvertParagraphsToBullets { paragraph_indices, ordered } => bulleted_from(
            s,
            paragraph_indices,
            ordered,
            0,
            Seq::empty(),
        ),
        FixView::ConvertListType { list_index, ordered } => if list_index < s.len() {
            s.update(list_index as int, with_order(s[list_index as int], ordered))
        } else {
            s
        },
        FixView::ReorderSections { preamble, sorted_sections } => preamble + all_blocks(
            sorted_sections,
        ),
    }
}

// ── applying ──────────────────────────────────────────────────────────────

proof fn append_view(a: Seq<Block>, b: Seq<Block>)
    ensures
        blocks_view(a + b) == blocks_view(a) + blocks_view(b),
{
    assert(blocks_view(a + b) =~= blocks_view(a) + blocks_view(b));
}

fn make_h1(text: &str, line: usize) -> (r: Block)
    ensures
        r@ == h1(text@, line as int),
{
    let content: Vec<Inline> = vec![Inline::Text(String::from_str(text))];
    assert(inlines_view(content@) =~= seq![InlineView::Text(text@)]);
    Block::Heading { level: 1, content, line }
}

fn find_h1(blocks: &Vec<Block>) -> (r: Option<usize>)
    ensures
        match r {
            Some(i) => first_h1(blocks_view(blocks@), 0) == Some(i as int) && i < blocks.len(),
            None => first_h1(blocks_view(blocks@), 0) is None,
        },
{
    let ghost s = blocks_view(blocks@);
    let mut i: usize = 0;
    while i < blocks.len()
        invariant
            i <= blocks.len(),
            s == blocks_view(blocks@),
            first_h1(s, 0) == first_h1(s, i as int),
        decreases blocks.len() - i,
    {
        assert(s[i as int] == blocks@[i as int]@);
        if let Block::Heading { level, .. } = &blocks[i] {
            if *level == 1 {
                return Some(i);
            }
        }
        i += 1;
    }
    None
}

/// A copy of the blocks `from..to`.
fn copy_range(blocks: &Vec<Block>, from: usize, to: usize) -> (r: Vec<Block>)
    requires
        from <= to <= blocks.len(),
    ensures
        blocks_view(r@) == blocks_view(blocks@).subrange(from as int, to as int),
{
    let mut out: Vec<Block> = Vec::new();
    let mut i: usize = from;
    while i < to
        invariant
            from <= i <= to <= blocks.len(),
            out.len() == i - from,
            forall|k: int| 0 <= k < out.len() ==> (#[trigger] out[k])@ == blocks[from + k]@,
        decreases to - i,
    {
        let b = copy_block(&blocks[i]);
        out.push(b);
        i += 1;
    }
    assert(blocks_view(out@) =~= blocks_view(blocks@).subrange(from as int, to as int));
    out
}

fn managed_section(managed: &Vec<Block>, custom: &Vec<Block>) -> (r: Vec<Block>)
    ensures
        blocks_view(r@) == section_blocks(blocks_view(managed@), blocks_view(custom@)),
{
    let mut out = copy_blocks(managed);
    if custom.len() > 0 {
        let ghost a = out@;
        out.push(Block::BlankLine);
        let ghost b = out@;
        let mut more = copy_blocks(custom);
        let ghost c = more@;
        out.append(&mut more);
        proof {
            assert(out@ =~= b + c);
            append_view(b, c);
            blocks_view_push(a, Block::BlankLine);
        }
    }
    out
}

fn replace_range(blocks: &Vec<Block>, start: usize, end: usize, new: Vec<Block>) -> (r: Vec<Block>)
    requires
        start <= end <= blocks.len(),
    ensures
        blocks_view(r@) == blocks_view(blocks@).take(start as int) + blocks_view(new@)
            + blocks_view(blocks@).skip(end as int),
{
    let ghost s = blocks_view(blocks@);
    let mut out = copy_range(blocks, 0, start);
    let ghost a = out@;
    let ghost n = new@;
    let mut new = new;
    out.append(&mut new);
    let ghost b = out@;
    let mut tail = copy_range(blocks, end, blocks.len());
    let ghost t = tail@;
    out.append(&mut tail);
    proof {
        assert(b =~= a + n);
        assert(out@ =~= b + t);
        append_view(a, n);
        append_view(b, t);
        assert(s.subrange(0, start as int) =~= s.take(start as int));
        assert(s.subrange(end as int, s.len() as int) =~= s.skip(end as int));
    }
    out
}

fn insert_range(ranges: &mut Vec<(usize, usize)>, r: (usize, usize))
    ensures
        final(ranges)@ == inserted(old(ranges)@, r),
{
    let ghost was = ranges@;
    let mut k: usize = ranges.len();
    assert(was.take(k as int) =~= was);
    assert(inserted(was, r) =~= inserted(was.take(k as int), r) + was.skip(k as int));
    while k > 0 && ranges[k - 1].0 > r.0
        invariant
            k <= ranges.len(),
            ranges@ == was,
            inserted(was, r) == inserted(was.take(k as int), r) + was.skip(k as int),
        decreases k,
    {
        proof {
            let w = was.take(k as int);
            assert(w.drop_last() =~= was.take(k - 1));
            assert(w.last() == was[k - 1]);
            assert(inserted(was.take(k - 1), r).push(was[k - 1]) + was.skip(k as int) =~= inserted(
                was.take(k - 1),
                r,
            ) + was.skip(k - 1));
        }
        k -= 1;
    }
    proof {
        let w = was.take(k as int);
        if k > 0 {
            assert(w.last() == was[k - 1]);
        }
        assert(inserted(w, r) == w.push(r));
        assert(w.push(r) + was.skip(k as int) =~= was.insert(k as int, r));
    }
    ranges.insert(k, r);
}

fn sort_ranges(ranges: &Vec<(usize, usize)>) -> (r: Vec<(usize, usize)>)
    ensures
        r@ == by_start(ranges@),
{
    let mut out: Vec<(usize, usize)> = Vec::new();
    let mut i: usize = 0;
    assert(out@ =~= by_start(ranges@.take(0)));
    while i < ranges.len()
        invariant
            i <= ranges.len(),
            out@ == by_start(ranges@.take(i as int)),
        decreases ranges.len() - i,
    {
        assert(ranges@.take(i + 1).drop_last() =~= ranges@.take(i as int));
        insert_range(&mut out, (ranges[i].0, ranges[i].1));
        i += 1;
    }
    assert(ranges@.take(ranges@.len() as int) =~= ranges@);
    out
}

fn remove_ranges(blocks: &Vec<Block>, ranges: &Vec<(usize, usize)>) -> (r: Vec<Block>)
    ensures
        blocks_view(r@) == without_ranges(blocks_view(blocks@), ranges@),
{
    let ghost s = blocks_view(blocks@);
    let mut out = copy_blocks(blocks);
    let mut n: usize = ranges.len();
    assert(ranges@.take(n as int) =~= ranges@);
    while n > 0
        invariant
            n <= ranges.len(),
            without_ranges(s, ranges@) == without_ranges(
                blocks_view(out@),
                ranges@.take(n as int),
            ),
        decreases n,
    {
        let (start, end) = ranges[n - 1];
        proof {
            assert(ranges@.take(n as int).drop_last() =~= ranges@.take(n - 1));
            assert(ranges@.take(n as int).last() == ranges@[n - 1]);
        }
        if start < out.len() {
            let end = if end <= out.len() {
                end
            } else {
                out.len()
            };
            if start <= end {
                let none: Vec<Block> = Vec::new();
                let ghost v = blocks_view(out@);
                let next = replace_range(&out, start, end, none);
                proof {
                    assert(blocks_view(none@) =~= Seq::empty());
                    assert(blocks_view(next@) =~= v.take(start as int) + v.skip(end as int));
                }
                out = next;
            }
        }
        n -= 1;
    }
    out
}

fn holds_index(v: &Vec<usize>, x: usize) -> (r: bool)
    ensures
        r == exists|k: int| 0 <= k < v@.len() && #[trigger] v@[k] == x,
{
    let mut i: usize = 0;
    while i < v.len()
        invariant
            i <= v.len(),
            forall|k: int| 0 <= k < i ==> v@[k] != x,
        decreases v.len() - i,
    {
        if v[i] == x {
            assert(v@[i as int] == x);
            return true;
        }
        i += 1;
    }
    false
}

fn chosen_at(blocks: &Vec<Block>, chosen: &Vec<usize>, i: usize) -> (r: bool)
    requires
        i < blocks.len(),
    ensures
        r == is_chosen(blocks_view(blocks@), chosen@, i as int),
{
    let paragraph = match &blocks[i] {
        Block::Paragraph { .. } => true,
        _ => false,
    };
    assert(blocks_view(blocks@)[i as int] == blocks@[i as int]@);
    paragraph && holds_index(chosen, i)
}

fn find_next_in_run(blocks: &Vec<Block>, chosen: &Vec<usize>, i: usize) -> (r: Option<usize>)
    requires
        i <= blocks.len(),
    ensures
        match r {
            Some(j) => next_in_run(blocks_view(blocks@), chosen@, i as int) == Some(j as int) && i
                <= j < blocks.len() && is_chosen(blocks_view(blocks@), chosen@, j as int),
            None => next_in_run(blocks_view(blocks@), chosen@, i as int) is None,
        },
{
    let ghost s = blocks_view(blocks@);
    let mut j: usize = i;
    while j < blocks.len()
        invariant
            i <= j <= blocks.len(),
            s == blocks_view(blocks@),
            next_in_run(s, chosen@, i as int) == next_in_run(s, chosen@, j as int),
        decreases blocks.len() - j,
    {
        assert(s[j as int] == blocks@[j as int]@);
        if chosen_at(blocks, chosen, j) {
            return Some(j);
        }
        if !is_blank(&blocks[j]) {
            return None;
        }
        j += 1;
    }
    None
}

fn item_of(b: &Block, last: bool) -> (r: ListItem)
    ensures
        r@.content == paragraph_content(b@),
        r@.children == (if last {
            Seq::<BlockView>::empty()
        } else {
            seq![BlockView::BlankLine]
        }),
{
    let content = match b {
        Block::Paragraph { content, .. } => copy_inlines(content),
        _ => Vec::new(),
    };
    assert(b@ is Paragraph || inlines_view(content@) =~= Seq::empty());
    let mut children: Vec<Block> = Vec::new();
    if !last {
        children.push(Block::BlankLine);
        assert(blocks_view(children@) =~= seq![BlockView::BlankLine]);
    } else {
        assert(blocks_view(children@) =~= Seq::empty());
    }
    ListItem { content, children }
}

fn collect_run(blocks: &Vec<Block>, chosen: &Vec<usize>, i: usize) -> (r: (Vec<ListItem>, usize))
    requires
        i < blocks.len(),
    ensures
        (items_view(r.0@), r.1 as int) == run_from(
            blocks_view(blocks@),
            chosen@,
            i as int,
            Seq::empty(),
        ),
        i < r.1 <= blocks.len(),
{
    let ghost s = blocks_view(blocks@);
    let mut items: Vec<ListItem> = Vec::new();
    let mut at: usize = i;
    assert(items_view(items@) =~= Seq::empty());
    loop
        invariant
            i <= at < blocks.len(),
            s == blocks_view(blocks@),
            run_from(s, chosen@, i as int, Seq::empty()) == run_from(
                s,
                chosen@,
                at as int,
                items_view(items@),
            ),
        decreases blocks.len() - at,
    {
        broadcast use items_view_push;

        assert(s[at as int] == blocks@[at as int]@);
        match find_next_in_run(blocks, chosen, at + 1) {
            Some(j) => {
                items.push(item_of(&blocks[at], false));
                at = j;
            },
            None => {
                items.push(item_of(&blocks[at], true));
                return (items, at + 1);
            },
        }
    }
}

fn convert_paragraphs(blocks: &Vec<Block>, chosen: &Vec<usize>, ordered: bool) -> (r: Vec<Block>)
    ensures
        blocks_view(r@) == bulleted_from(
            blocks_view(blocks@),
            chosen@,
            ordered,
            0,
            Seq::empty(),
        ),
{
    let ghost s = blocks_view(blocks@);
    let mut out: Vec<Block> = Vec::new();
    let mut i: usize = 0;
    assert(blocks_view(out@) =~= Seq::empty());
    while i < blocks.len()
        invariant
            i <= blocks.len(),
            s == blocks_view(blocks@),
            bulleted_from(s, chosen@, ordered, 0, Seq::empty()) == bulleted_from(
                s,
                chosen@,
                ordered,
                i as int,
                blocks_view(out@),
            ),
        decreases blocks.len() - i,
    {
        broadcast use blocks_view_push;

        assert(s[i as int] == blocks@[i as int]@);
        if chosen_at(blocks, chosen, i) {
            let line = blocks[i].line();
            let (items, e) = collect_run(blocks, chosen, i);
            out.push(Block::List { items, ordered, start: 1, line });
            i = e;
        } else {
            let b = copy_block(&blocks[i]);
            out.push(b);
            i += 1;
        }
    }
    out
}

fn append_entries(out: &mut Vec<Block>, entries: &Vec<SortedEntry>)
    ensures
        blocks_view(final(out)@) == blocks_view(old(out)@) + entry_blocks(entries_view(entries@)),
{
    let ghost es = entries_view(entries@);
    let ghost head = blocks_view(out@);
    let mut i: usize = 0;
    assert(head =~= head + entry_blocks(es.take(0)));
    while i < entries.len()
        invariant
            i <= entries.len(),
            es == entries_view(entries@),
            blocks_view(out@) == head + entry_blocks(es.take(i as int)),
        decreases entries.len() - i,
    {
        assert(es.take(i + 1).drop_last() =~= es.take(i as int));
        let ghost a = out@;
        let mut more = copy_blocks(&entries[i].blocks);
        let ghost b = more@;
        out.append(&mut more);
        proof {
            assert(out@ =~= a + b);
            append_view(a, b);
            assert(es.take(i + 1).last().blocks == blocks_view(b));
            assert(blocks_view(out@) =~= head + entry_blocks(es.take(i + 1)));
        }
        i += 1;
    }
    assert(es.take(es.len() as int) =~= es);
}

fn append_sections(out: &mut Vec<Block>, sections: &Vec<Vec<Block>>)
    ensures
        blocks_view(final(out)@) == blocks_view(old(out)@) + all_blocks(
            block_lists_view(sections@),
        ),
{
    let ghost ss = block_lists_view(sections@);
    let ghost head = blocks_view(out@);
    let mut i: usize = 0;
    assert(head =~= head + all_blocks(ss.take(0)));
    while i < sections.len()
        invariant
            i <= sections.len(),
            ss == block_lists_view(sections@),
            blocks_view(out@) == head + all_blocks(ss.take(i as int)),
        decreases sections.len() - i,
    {
        assert(ss.take(i + 1).drop_last() =~= ss.take(i as int));
        let ghost a = out@;
        let mut more = copy_blocks(&sections[i]);
        let ghost b = more@;
        out.append(&mut more);
        proof {
            assert(out@ =~= a + b);
            append_view(a, b);
            assert(ss.take(i + 1).last() == blocks_view(b));
            assert(blocks_view(out@) =~= head + all_blocks(ss.take(i + 1)));
        }
        i += 1;
    }
    assert(ss.take(ss.len() as int) =~= ss);
}

impl Fix {
    /// The blocks of a document after this fix.
    fn apply_to(&self, blocks: &Vec<Block>) -> (r: Vec<Block>)
        requires
            applies(self@, blocks_view(blocks@)),
        ensures
            blocks_view(r@) == fixed(self@, blocks_view(blocks@)),
    {
        let ghost s = blocks_view(blocks@);
        match self {
            Fix::InsertH1 { text } => {
                let mut out = copy_blocks(blocks);
                if !text.as_str().is_empty() {
                    let ghost was = out@;
                    let h = make_h1(text.as_str(), 0);
                    out.insert(0, h);
                    assert(blocks_view(out@) =~= seq![h1(text@, 0)] + s) by {
                        assert(forall|k: int|
                            0 <= k < was.len() ==> blocks_view(was)[k] == (#[trigger] was[k])@);
                    }
                }
                out
            },
            Fix::ReplaceH1 { text } => {
                let mut out = copy_blocks(blocks);
                if let Some(i) = find_h1(blocks) {
                    let h = make_h1(text.as_str(), blocks[i].line());
                    let ghost was = out@;
                    out.set(i, h);
                    assert(forall|k: int|
                        0 <= k < was.len() ==> blocks_view(was)[k] == (#[trigger] was[k])@);
                    assert(blocks_view(out@) =~= s.update(i as int, h@));
                }
                out
            },
            Fix::UpdateManagedSection {
                section_start,
                section_end,
                managed_blocks,
                custom_content,
            } => {
                let mut new = managed_section(managed_blocks, custom_content);
                match section_start {
                    Some(start) => replace_range(blocks, *start, *section_end, new),
                    None => {
                        let mut out = copy_blocks(blocks);
                        let ghost a = out@;
                        if blocks.len() > 0 && !is_blank(&blocks[blocks.len() - 1]) {
                            out.push(Block::BlankLine);
                            proof {
                                blocks_view_push(a, Block::BlankLine);
                            }
                        }
                        let ghost b = out@;
                        let ghost n = new@;
                        out.append(&mut new);
                        proof {
                            assert(out@ =~= b + n);
                            append_view(b, n);
                        }
                        out
                    },
                }
            },
            Fix::SortEntries { preamble, sorted_entries } => {
                let mut out = copy_blocks(preamble);
                append_entries(&mut out, sorted_entries);
                out
            },
            Fix::RemoveEmptySections { section_ranges } => {
                let ranges = sort_ranges(section_ranges);
                remove_ranges(blocks, &ranges)
            },
            Fix::ConvertParagraphsToBullets { paragraph_indices, ordered } => convert_paragraphs(
                blocks,
                paragraph_indices,
                *ordered,
            ),
            Fix::ConvertListType { list_index, ordered } => {
                let mut out = copy_blocks(blocks);
                if *list_index < out.len() {
                    let b = copy_block(&blocks[*list_index]);
                    let b = match b {
                        Block::List { items, ordered: _, start, line } => Block::List {
                            items,
                            ordered: *ordered,
                            start,
                            line,
                        },
                        other => other,
                    };
                    let ghost was = out@;
                    out.set(*list_index, b);
                    assert(forall|k: int|
                        0 <= k < was.len() ==> blocks_view(was)[k] == (#[trigger] was[k])@);
                    assert(blocks_view(out@) =~= s.update(*list_index as int, b@));
                }
                out
            },
            Fix::ReorderSections { preamble, sorted_sections } => {
                let mut out = copy_blocks(preamble);
                append_sections(&mut out, sorted_sections);
                out
            },
        }
    }

    /// Apply this fix to the document.
    pub fn apply(&self, doc: &mut Document)
        requires
            applies(self@, blocks_view(old(doc).blocks@)),
        ensures
            blocks_view(final(doc).blocks@) == fixed(self@, blocks_view(old(doc).blocks@)),
            final(doc).frontmatter == old(doc).frontmatter,
    {
        let blocks = self.apply_to(&doc.blocks);
        doc.blocks = blocks;
    }
}

// ── fixes that need the document ──────────────────────────────────────────

/// Whether a diagnostic says that no paragraph may stand at `line`.
pub open spec fn flagged(diags: Seq<DiagnosticView>, line: int) -> bool {
    exists|k: int|
        0 <= k < diags.len() && ((#[trigger] diags[k]) matches DiagnosticView::SectionNotBullets {
            line: l,
            ..
        } && l == line)
}

/// The positions among the first `n` of paragraphs whose line is flagged.
pub open spec fn flagged_paragraphs(s: Seq<BlockView>, diags: Seq<DiagnosticView>, n: nat) -> Seq<
    usize,
>
    decreases n,
{
    if n == 0 {
        Seq::empty()
    } else {
        let i = (n - 1) as nat;
        let before = flagged_paragraphs(s, diags, i);
        if s[i as int] is Paragraph && flagged(diags, block_line(s[i as int])) {
            before.push(i as usize)
        } else {
            before
        }
    }
}

/// The first list from `i` on that starts at `line` and is not ordered as
/// `ordered` says.
pub open spec fn first_wrong_list(s: Seq<BlockView>, line: int, order: bool, i: int) -> Option<int>
    decreases s.len() - i,
{
    if i < 0 || i >= s.len() {
        None
    } else if s[i] matches BlockView::List { ordered, line: l, .. } && l == line && ordered
        != order {
        Some(i)
    } else {
        first_wrong_list(s, line, order, i + 1)
    }
}

/// The fix for a list of the wrong type, where the document has it.
pub open spec fn list_fix(s: Seq<BlockView>, d: DiagnosticView) -> Seq<FixView> {
    match d {
        DiagnosticView::WrongListType { line, expected, .. } => {
            let order = expected == "ordered"@;
            match first_wrong_list(s, line, order, 0) {
                Some(i) => seq![
                    FixView::ConvertListType { list_index: i as usize, ordered: order },
                ],
                None => Seq::empty(),
            }
        },
        _ => Seq::empty(),
    }
}

/// The fixes for lists of the wrong type.
pub open spec fn list_fixes(s: Seq<BlockView>, diags: Seq<DiagnosticView>) -> Seq<FixView>
    decreases diags.len(),
{
    if diags.len() == 0 {
        Seq::empty()
    } else {
        list_fixes(s, diags.drop_last()) + list_fix(s, diags.last())
    }
}

/// The fixes for paragraphs in bullet sections and for lists of the wrong
/// type: the flagged paragraphs become unordered lists, then each list that
/// a diagnostic names is flipped.
pub open spec fn content_fixes(s: Seq<BlockView>, diags: Seq<DiagnosticView>) -> Seq<FixView> {
    let paras = flagged_paragraphs(s, diags, s.len());
    (if paras.len() == 0 {
        Seq::empty()
    } else {
        seq![
            FixView::ConvertParagraphsToBullets { paragraph_indices: paras, ordered: false },
        ]
    }) + list_fixes(s, diags)
}

/// The fixes that diagnostics carry themselves.
pub open spec fn own_fixes(diags: Seq<DiagnosticView>) -> Seq<FixView>
    decreases diags.len(),
{
    if diags.len() == 0 {
        Seq::empty()
    } else {
        match own_fix(diags.last()) {
            Some(f) => own_fixes(diags.drop_last()).push(f),
            None => own_fixes(diags.drop_last()),
        }
    }
}

/// All fixes for a document: first those to its content, then the others in
/// the order of their diagnostics.
pub open spec fn fixes_for(s: Seq<BlockView>, diags: Seq<DiagnosticView>) -> Seq<FixView> {
    content_fixes(s, diags) + own_fixes(diags)
}

/// The blocks of a document after a list of fixes.
pub open spec fn all_fixed(fixes: Seq<FixView>, s: Seq<BlockView>) -> Seq<BlockView>
    decreases fixes.len(),
{
    if fixes.len() == 0 {
        s
    } else {
        fixed(fixes.last(), all_fixed(fixes.drop_last(), s))
    }
}

/// Whether each of a list of fixes can be applied after those before it.
pub open spec fn all_apply(fixes: Seq<FixView>, s: Seq<BlockView>) -> bool
    decreases fixes.len(),
{
    if fixes.len() == 0 {
        true
    } else {
        all_apply(fixes.drop_last(), s) && applies(
            fixes.last(),
            all_fixed(fixes.drop_last(), s),
        )
    }
}

proof fn all_apply_prefix(fixes: Seq<FixView>, s: Seq<BlockView>, n: int)
    requires
        all_apply(fixes, s),
        0 <= n <= fixes.len(),
    ensures
        all_apply(fixes.take(n), s),
    decreases fixes.len(),
{
    if n < fixes.len() {
        assert(fixes.drop_last().take(n) =~= fixes.take(n));
        all_apply_prefix(fixes.drop_last(), s, n);
    } else {
        assert(fixes.take(n) =~= fixes);
    }
}

fn line_flagged(diags: &[Diagnostic], line: usize) -> (r: bool)
    ensures
        r == flagged(diagnostics_view(diags@), line as int),
{
    let ghost ds = diagnostics_view(diags@);
    let mut i: usize = 0;
    while i < diags.len()
        invariant
            i <= diags.len(),
            ds == diagnostics_view(diags@),
            forall|k: int|
                0 <= k < i ==> !((#[trigger] ds[k]) matches DiagnosticView::SectionNotBullets {
                    line: l,
                    ..
                } && l == line),
        decreases diags.len() - i,
    {
        assert(ds[i as int] == diags@[i as int]@);
        if let Diagnostic::SectionNotBullets { line: l, .. } = &diags[i] {
            if *l == line {
                return true;
            }
        }
        i += 1;
    }
    false
}

fn find_flagged(blocks: &Vec<Block>, diags: &[Diagnostic]) -> (r: Vec<usize>)
    ensures
        r@ == flagged_paragraphs(
            blocks_view(blocks@),
            diagnostics_view(diags@),
            blocks_view(blocks@).len(),
        ),
{
    let ghost s = blocks_view(blocks@);
    let ghost ds = diagnostics_view(diags@);
    let mut out: Vec<usize> = Vec::new();
    let mut i: usize = 0;
    while i < blocks.len()
        invariant
            i <= blocks.len(),
            s == blocks_view(blocks@),
            ds == diagnostics_view(diags@),
            out@ == flagged_paragraphs(s, ds, i as nat),
        decreases blocks.len() - i,
    {
        assert(s[i as int] == blocks@[i as int]@);
        if let Block::Paragraph { line, .. } = &blocks[i] {
            if line_flagged(diags, *line) {
                out.push(i);
            }
        }
        i += 1;
    }
    out
}

fn find_wrong_list(blocks: &Vec<Block>, line: usize, order: bool) -> (r: Option<usize>)
    ensures
        match r {
            Some(i) => first_wrong_list(blocks_view(blocks@), line as int, order, 0) == Some(
                i as int,
            ),
            None => first_wrong_list(blocks_view(blocks@), line as int, order, 0) is None,
        },
{
    let ghost s = blocks_view(blocks@);
    let mut i: usize = 0;
    while i < blocks.len()
        invariant
            i <= blocks.len(),
            s == blocks_view(blocks@),
            first_wrong_list(s, line as int, order, 0) == first_wrong_list(
                s,
                line as int,
                order,
                i as int,
            ),
        decreases blocks.len() - i,
    {
        assert(s[i as int] == blocks@[i as int]@);
        if let Block::List { ordered, line: l, .. } = &blocks[i] {
            if *l == line && *ordered != order {
                return Some(i);
            }
        }
        i += 1;
    }
    None
}

/// Build fixes for paragraphs in bullet sections and for lists of the wrong
/// type.
///
/// These diagnostics carry only a line number, so the document is scanned to
/// find the blocks.
pub fn build_content_fixes(doc: &Document, diagnostics: &[Diagnostic]) -> (r: Vec<Fix>)
    ensures
        fixes_view(r@) == content_fixes(
            blocks_view(doc.blocks@),
            diagnostics_view(diagnostics@),
        ),
{
    let ghost s = blocks_view(doc.blocks@);
    let ghost ds = diagnostics_view(diagnostics@);
    let mut fixes: Vec<Fix> = Vec::new();
    assert(fixes_view(fixes@) =~= Seq::empty());
    let paras = find_flagged(&doc.blocks, diagnostics);
    if paras.len() > 0 {
        fixes.push(Fix::ConvertParagraphsToBullets { paragraph_indices: paras, ordered: false });
        assert(fixes_view(fixes@) =~= seq![
            FixView::ConvertParagraphsToBullets { paragraph_indices: paras@, ordered: false },
        ]);
    }
    let ghost head = fixes_view(fixes@);
    let mut i: usize = 0;
    assert(head =~= head + list_fixes(s, ds.take(0)));
    while i < diagnostics.len()
        invariant
            i <= diagnostics.len(),
            s == blocks_view(doc.blocks@),
            ds == diagnostics_view(diagnostics@),
            fixes_view(fixes@) == head + list_fixes(s, ds.take(i as int)),
        decreases diagnostics.len() - i,
    {
        proof {
            assert(ds.take(i + 1).drop_last() =~= ds.take(i as int));
            assert(ds.take(i + 1).last() == diagnostics@[i as int]@);
        }
        let ghost was = fixes@;
        let ghost d = ds[i as int];
        if let Diagnostic::WrongListType { line, expected, .. } = &diagnostics[i] {
            let order = expected.as_str().eq("ordered");
            if let Some(idx) = find_wrong_list(&doc.blocks, *line, order) {
                fixes.push(Fix::ConvertListType { list_index: idx, ordered: order });
                assert(list_fix(s, d) == seq![
                    FixView::ConvertListType { list_index: idx, ordered: order },
                ]);
            }
        }
        assert(fixes_view(fixes@) =~= fixes_view(was) + list_fix(s, d));
        assert(fixes_view(fixes@) =~= head + list_fixes(s, ds.take(i + 1)));
        i += 1;
    }
    assert(ds.take(ds.len() as int) =~= ds);
    fixes
}

fn collect_fixes(doc: &Document, diagnostics: &[Diagnostic]) -> (r: Vec<Fix>)
    ensures
        fixes_view(r@) == fixes_for(blocks_view(doc.blocks@), diagnostics_view(diagnostics@)),
{
    let ghost ds = diagnostics_view(diagnostics@);
    let mut fixes = build_content_fixes(doc, diagnostics);
    let ghost head = fixes_view(fixes@);
    let mut i: usize = 0;
    assert(head =~= head + own_fixes(ds.take(0)));
    while i < diagnostics.len()
        invariant
            i <= diagnostics.len(),
            ds == diagnostics_view(diagnostics@),
            fixes_view(fixes@) == head + own_fixes(ds.take(i as int)),
        decreases diagnostics.len() - i,
    {
        proof {
            assert(ds.take(i + 1).drop_last() =~= ds.take(i as int));
            assert(ds.take(i + 1).last() == diagnostics@[i as int]@);
        }
        let ghost was = fixes@;
        if let Some(f) = Fix::from_diagnostic(&diagnostics[i]) {
            fixes.push(f);
            assert(fixes_view(fixes@) =~= fixes_view(was).push(f@));
        }
        assert(fixes_view(fixes@) =~= head + own_fixes(ds.take(i + 1)));
        i += 1;
    }
    assert(ds.take(ds.len() as int) =~= ds);
    fixes
}

/// Apply all fixable diagnostics to a document in one pass.
///
/// Fixes to the content come first, then the others in the order of their
/// diagnostics. Callers should re-validate after fixing if precise line
/// numbers matter: block indices shift after insertions and removals.
pub fn apply_fixes(doc: &mut Document, diagnostics: &[Diagnostic])
    requires
        all_apply(
            fixes_for(blocks_view(old(doc).blocks@), diagnostics_view(diagnostics@)),
            blocks_view(old(doc).blocks@),
        ),
    ensures
        blocks_view(final(doc).blocks@) == all_fixed(
            fixes_for(blocks_view(old(doc).blocks@), diagnostics_view(diagnostics@)),
            blocks_view(old(doc).blocks@),
        ),
        final(doc).frontmatter == old(doc).frontmatter,
{
    let fixes = collect_fixes(doc, diagnostics);
    let ghost s = blocks_view(doc.blocks@);
    let ghost fs = fixes_view(fixes@);
    let ghost fm = doc.frontmatter;
    let mut i: usize = 0;
    assert(fs.take(0) =~= Seq::empty());
    while i < fixes.len()
        invariant
            i <= fixes.len(),
            fs == fixes_view(fixes@),
            all_apply(fs, s),
            blocks_view(doc.blocks@) == all_fixed(fs.take(i as int), s),
            doc.frontmatter == fm,
        decreases fixes.len() - i,
    {
        proof {
            all_apply_prefix(fs, s, i + 1);
            assert(fs.take(i + 1).drop_last() =~= fs.take(i as int));
            assert(fs.take(i + 1).last() == fixes@[i as int]@);
        }
        fixes[i].apply(doc);
        i += 1;
    }
    assert(fs.take(fs.len() as int) =~= fs);
}

impl Fix {
    /// Whether this fix can be applied to the blocks of a document.
    pub fn can_apply(&self, blocks: &Vec<Block>) -> (r: bool)
        ensures
            r == applies(self@, blocks_view(blocks@)),
    {
        let ghost s = blocks_view(blocks@);
        match self {
            Fix::UpdateManagedSection { section_start: Some(start), section_end, .. } => *start
                <= *section_end && *section_end <= blocks.len(),
            Fix::RemoveEmptySections { section_ranges } => {
                let mut i: usize = 0;
                while i < section_ranges.len()
                    invariant
                        i <= section_ranges.len(),
                        s == blocks_view(blocks@),
                        self@ == (FixView::RemoveEmptySections { section_ranges: section_ranges@ }),
                        forall|k: int|
                            0 <= k < i ==> (#[trigger] section_ranges@[k]).0 <= section_ranges@[k].1
                                || section_ranges@[k].0 >= s.len(),
                    decreases section_ranges.len() - i,
                {
                    let (start, end) = section_ranges[i];
                    if start > end && start < blocks.len() {
                        assert(!ranges_apply(section_ranges@, s.len())) by {
                            assert(section_ranges@[i as int].0 == start);
                        }
                        return false;
                    }
                    i += 1;
                }
                true
            },
            Fix::ConvertParagraphsToBullets { paragraph_indices, .. } => {
                let idx = paragraph_indices;
                let mut i: usize = 0;
                while i < idx.len()
                    invariant
                        i <= idx.len(),
                        s == blocks_view(blocks@),
                        self@ matches FixView::ConvertParagraphsToBullets { paragraph_indices, .. }
                            && paragraph_indices == idx@,
                        forall|a: int, b: int|
                            0 <= a < b < idx@.len() && a < i && is_chosen(s, idx@, idx@[a] as int)
                                ==> #[trigger] idx@[a] != #[trigger] idx@[b],
                    decreases idx.len() - i,
                {
                    let x: usize = idx[i];
                    if x < blocks.len() && chosen_at(blocks, idx, x) {
                        let mut j: usize = i + 1;
                        while j < idx.len()
                            invariant
                                i < j <= idx.len(),
                                s == blocks_view(blocks@),
                                x == idx@[i as int],
                                is_chosen(s, idx@, x as int),
                                self@ matches FixView::ConvertParagraphsToBullets {
                                    paragraph_indices,
                                    ..
                                } && paragraph_indices == idx@,
                                forall|b: int| i < b < j ==> idx@[b] != x,
                            decreases idx.len() - j,
                        {
                            if idx[j] == x {
                                assert(idx@[i as int] == idx@[j as int]);
                                return false;
                            }
                            j += 1;
                        }
                    }
                    i += 1;
                }
                true
            },
            _ => true,
        }
    }
}

/// Apply all fixable diagnostics to a document, if each of them can be
/// applied; otherwise the document stays as it is and the result is `false`.
pub fn apply_fixes_checked(doc: &mut Document, diagnostics: &[Diagnostic]) -> (r: bool)
    ensures
        r == all_apply(
            fixes_for(blocks_view(old(doc).blocks@), diagnostics_view(diagnostics@)),
            blocks_view(old(doc).blocks@),
        ),
        r ==> blocks_view(final(doc).blocks@) == all_fixed(
            fixes_for(blocks_view(old(doc).blocks@), diagnostics_view(diagnostics@)),
            blocks_view(old(doc).blocks@),
        ),
        !r ==> *final(doc) == *old(doc),
        final(doc).frontmatter == old(doc).frontmatter,
{
    let fixes = collect_fixes(doc, diagnostics);
    let ghost s = blocks_view(doc.blocks@);
    let ghost fs = fixes_view(fixes@);
    let mut blocks = copy_blocks(&doc.blocks);
    let mut i: usize = 0;
    assert(fs.take(0) =~= Seq::empty());
    while i < fixes.len()
        invariant
            i <= fixes.len(),
            fs == fixes_view(fixes@),
            *doc == *old(doc),
            fs == fixes_for(blocks_view(old(doc).blocks@), diagnostics_view(diagnostics@)),
            s == blocks_view(old(doc).blocks@),
            all_apply(fs.take(i as int), s),
            blocks_view(blocks@) == all_fixed(fs.take(i as int), s),
        decreases fixes.len() - i,
    {
        proof {
            assert(fs.take(i + 1).drop_last() =~= fs.take(i as int));
            assert(fs.take(i + 1).last() == fixes@[i as int]@);
        }
        if !fixes[i].can_apply(&blocks) {
            proof {
                if all_apply(fs, s) {
                    all_apply_prefix(fs, s, i + 1);
                }
            }
            return false;
        }
        let next = fixes[i].apply_to(&blocks);
        blocks = next;
        i += 1;
    }
    assert(fs.take(fs.len() as int) =~= fs);
    doc.blocks = blocks;
    true
}

// ── what fixes promise ────────────────────────────────────────────────────

/// Diagnostics that have no fix leave a document as it is.
pub proof fn unfixable_change_nothing(s: Seq<BlockView>, diags: Seq<DiagnosticView>)
    requires
        forall|i: int| 0 <= i < diags.len() ==> !fixable(#[trigger] diags[i]),
    ensures
        fixes_for(s, diags) == Seq::<FixView>::empty(),
        all_apply(fixes_for(s, diags), s),
        all_fixed(fixes_for(s, diags), s) == s,
{
    no_flagged(s, diags, s.len());
    no_own_fixes(s, diags);
    assert(fixes_for(s, diags) =~= Seq::empty());
}

/// A fixed title is the document's title: the first top-level heading holds
/// the text that was asked for, and every other block is kept in order.
pub proof fn title_is_put_right(s: Seq<BlockView>, text: Seq<char>)
    ensures
        text.len() > 0 ==> {
            let t = fixed(FixView::InsertH1 { text }, s);
            &&& first_h1(t, 0) == Some(0int)
            &&& t[0] == h1(text, 0)
            &&& t.skip(1) == s
        },
        first_h1(s, 0) matches Some(i) ==> {
            let t = fixed(FixView::ReplaceH1 { text }, s);
            &&& first_h1(t, 0) == Some(i)
            &&& t[i] == h1(text, block_line(s[i]))
            &&& t.len() == s.len()
            &&& forall|k: int| 0 <= k < s.len() && k != i ==> t[k] == s[k]
            &&& fixed(FixView::ReplaceH1 { text }, t) == t
        },
{
    let t = fixed(FixView::InsertH1 { text }, s);
    if text.len() > 0 {
        assert(t.skip(1) =~= s);
    }
    if let Some(i) = first_h1(s, 0) {
        first_h1_bounds(s, 0);
        let b = h1(text, block_line(s[i]));
        first_h1_updated(s, 0, b);
        assert(s.update(i, b).update(i, b) =~= s.update(i, b));
    }
}

proof fn first_h1_bounds(s: Seq<BlockView>, from: int)
    requires
        0 <= from,
    ensures
        first_h1(s, from) matches Some(i) ==> from <= i < s.len(),
    decreases s.len() - from,
{
    if from < s.len() {
        first_h1_bounds(s, from + 1);
    }
}

proof fn first_h1_updated(s: Seq<BlockView>, from: int, b: BlockView)
    requires
        0 <= from,
        first_h1(s, from) is Some,
        b is Heading && b->Heading_level == 1,
    ensures
        first_h1(s.update(first_h1(s, from)->0, b), from) == first_h1(s, from),
    decreases s.len() - from,
{
    first_h1_bounds(s, from);
    if from < s.len() && first_h1(s, from) != Some(from) {
        first_h1_bounds(s, from + 1);
        first_h1_updated(s, from + 1, b);
    }
}

/// A list whose marker is fixed has the marker that was asked for and the
/// items that it had, and fixing it twice is fixing it once.
pub proof fn marker_is_put_right(s: Seq<BlockView>, list_index: usize, ordered: bool)
    requires
        list_index < s.len(),
        s[list_index as int] is List,
    ensures
        ({
            let f = FixView::ConvertListType { list_index, ordered };
            let t = fixed(f, s);
            &&& t[list_index as int] is List
            &&& t[list_index as int]->ordered == ordered
            &&& t[list_index as int]->items == s[list_index as int]->items
            &&& fixed(f, t) == t
        }),
{
    let f = FixView::ConvertListType { list_index, ordered };
    let t = fixed(f, s);
    assert(fixed(f, t) =~= t);
}

proof fn no_flagged(s: Seq<BlockView>, diags: Seq<DiagnosticView>, n: nat)
    requires
        forall|i: int| 0 <= i < diags.len() ==> !fixable(#[trigger] diags[i]),
    ensures
        flagged_paragraphs(s, diags, n) == Seq::<usize>::empty(),
    decreases n,
{
    if n > 0 {
        no_flagged(s, diags, (n - 1) as nat);
        if flagged(diags, block_line(s[n - 1])) {
            let k = choose|k: int|
                0 <= k < diags.len() && ((
                #[trigger] diags[k]) matches DiagnosticView::SectionNotBullets { line: l, .. } && l
                    == block_line(s[n - 1]));
            assert(fixable(diags[k]));
        }
    }
}

proof fn no_own_fixes(s: Seq<BlockView>, diags: Seq<DiagnosticView>)
    requires
        forall|i: int| 0 <= i < diags.len() ==> !fixable(#[trigger] diags[i]),
    ensures
        own_fixes(diags) == Seq::<FixView>::empty(),
        list_fixes(s, diags) == Seq::<FixView>::empty(),
    decreases diags.len(),
{
    if diags.len() > 0 {
        let f = diags.drop_last();
        assert forall|i: int| 0 <= i < f.len() implies !fixable(#[trigger] f[i]) by {
            assert(f[i] == diags[i]);
        }
        no_own_fixes(s, f);
        assert(!fixable(diags[diags.len() - 1]));
        own_fix_is_fixable(diags.last());
        assert(list_fixes(s, diags) =~= Seq::empty());
    }
}

/// Whether no block lies in both of two ranges.
pub open spec fn apart(a: (usize, usize), b: (usize, usize)) -> bool {
    a.0 >= a.1 || b.0 >= b.1 || a.1 <= b.0 || b.1 <= a.0
}

/// Whether no block lies in two of the ranges.
pub open spec fn all_apart(ranges: Seq<(usize, usize)>) -> bool {
    forall|i: int, j: int|
        0 <= i < j < ranges.len() ==> apart(#[trigger] ranges[i], #[trigger] ranges[j])
}

/// Whether no range starts before one that comes before it.
spec fn starts_rise(ranges: Seq<(usize, usize)>) -> bool {
    forall|i: int, j: int|
        0 <= i < j < ranges.len() ==> (#[trigger] ranges[i]).0 <= (#[trigger] ranges[j]).0
}

/// Whether block `i` lies in one of the ranges.
pub open spec fn covered(ranges: Seq<(usize, usize)>, i: int) -> bool {
    exists|k: int| 0 <= k < ranges.len() && (#[trigger] ranges[k]).0 <= i < ranges[k].1
}

/// The blocks among the first `n` that lie in none of the ranges.
pub open spec fn uncovered(s: Seq<BlockView>, ranges: Seq<(usize, usize)>, n: nat) -> Seq<BlockView>
    decreases n,
{
    if n == 0 {
        Seq::empty()
    } else {
        let before = uncovered(s, ranges, (n - 1) as nat);
        if covered(ranges, n - 1) {
            before
        } else {
            before.push(s[n - 1])
        }
    }
}

/// Removing ranges that share no block, in whatever order they come, keeps
/// exactly the blocks outside them, in order.
pub proof fn removal_keeps_the_rest(s: Seq<BlockView>, ranges: Seq<(usize, usize)>)
    requires
        all_apart(ranges),
    ensures
        without_ranges(s, by_start(ranges)) == uncovered(s, ranges, s.len()),
{
    let tail: Seq<BlockView> = Seq::empty();
    let sorted = by_start(ranges);
    by_start_keeps(ranges);
    assert(s + tail =~= s);
    removal_with_tail(s, sorted, tail);
    uncovered_alike(s, sorted, ranges, s.len());
    assert(uncovered(s, sorted, s.len()) + tail =~= uncovered(s, sorted, s.len()));
}

proof fn covered_push(ranges: Seq<(usize, usize)>, r: (usize, usize), i: int)
    ensures
        covered(ranges.push(r), i) <==> covered(ranges, i) || r.0 <= i < r.1,
{
    let all = ranges.push(r);
    if covered(ranges, i) {
        let k = choose|k: int|
            0 <= k < ranges.len() && (#[trigger] ranges[k]).0 <= i < ranges[k].1;
        assert(all[k].0 <= i < all[k].1);
    }
    if r.0 <= i < r.1 {
        assert(all[ranges.len() as int].0 <= i < all[ranges.len() as int].1);
    }
    if covered(all, i) {
        let k = choose|k: int| 0 <= k < all.len() && (#[trigger] all[k]).0 <= i < all[k].1;
        if k < ranges.len() {
            assert(ranges[k] == all[k]);
        }
    }
}

proof fn inserted_keeps(ranges: Seq<(usize, usize)>, r: (usize, usize))
    requires
        all_apart(ranges),
        starts_rise(ranges),
        forall|k: int| 0 <= k < ranges.len() ==> apart(#[trigger] ranges[k], r),
    ensures
        all_apart(inserted(ranges, r)),
        starts_rise(inserted(ranges, r)),
        forall|k: int|
            0 <= k < inserted(ranges, r).len() ==> #[trigger] inserted(ranges, r)[k] == r
                || ranges.contains(inserted(ranges, r)[k]),
        forall|i: int|
            #[trigger] covered(inserted(ranges, r), i) <==> covered(ranges, i) || r.0 <= i < r.1,
    decreases ranges.len(),
{
    let all = inserted(ranges, r);
    if ranges.len() == 0 || ranges.last().0 <= r.0 {
        assert forall|k: int| 0 <= k < all.len() implies #[trigger] all[k] == r
            || ranges.contains(all[k]) by {
            if k < ranges.len() {
                assert(all[k] == ranges[k]);
            }
        }
        assert forall|i: int, j: int| 0 <= i < j < all.len() implies apart(
            #[trigger] all[i],
            #[trigger] all[j],
        ) && all[i].0 <= all[j].0 by {
            assert(all[i] == ranges[i]);
            if j < ranges.len() {
                assert(all[j] == ranges[j]);
            } else if i < ranges.len() - 1 {
                assert(ranges[i].0 <= ranges[ranges.len() - 1].0);
            }
        }
        assert forall|i: int|
            #[trigger] covered(all, i) <==> covered(ranges, i) || r.0 <= i < r.1 by {
            covered_push(ranges, r, i);
        }
    } else {
        let f = ranges.drop_last();
        let x = ranges.last();
        assert(ranges[ranges.len() - 1] == x);
        assert forall|i: int, j: int| 0 <= i < j < f.len() implies apart(
            #[trigger] f[i],
            #[trigger] f[j],
        ) && f[i].0 <= f[j].0 by {
            assert(f[i] == ranges[i] && f[j] == ranges[j]);
        }
        assert forall|k: int| 0 <= k < f.len() implies apart(#[trigger] f[k], r) by {
            assert(f[k] == ranges[k]);
        }
        inserted_keeps(f, r);
        let g = inserted(f, r);
        assert forall|k: int| 0 <= k < g.len() implies apart(#[trigger] g[k], x) && g[k].0 <= x.0
            && (g[k] == r || ranges.contains(g[k])) by {
            if g[k] != r {
                let m = choose|m: int| 0 <= m < f.len() && f[m] == g[k];
                assert(ranges[m] == g[k]);
            }
        }
        assert forall|k: int| 0 <= k < all.len() implies #[trigger] all[k] == r
            || ranges.contains(all[k]) by {
            if k < g.len() {
                assert(all[k] == g[k]);
            }
        }
        assert forall|i: int, j: int| 0 <= i < j < all.len() implies apart(
            #[trigger] all[i],
            #[trigger] all[j],
        ) && all[i].0 <= all[j].0 by {
            assert(all[i] == g[i]);
            if j < g.len() {
                assert(all[j] == g[j]);
            }
        }
        assert forall|i: int|
            #[trigger] covered(all, i) <==> covered(ranges, i) || r.0 <= i < r.1 by {
            covered_push(g, x, i);
            covered_push(f, x, i);
            assert(f.push(x) =~= ranges);
        }
    }
}

proof fn by_start_keeps(ranges: Seq<(usize, usize)>)
    requires
        all_apart(ranges),
    ensures
        all_apart(by_start(ranges)),
        starts_rise(by_start(ranges)),
        forall|k: int|
            0 <= k < by_start(ranges).len() ==> ranges.contains(#[trigger] by_start(ranges)[k]),
        forall|i: int| #[trigger] covered(by_start(ranges), i) <==> covered(ranges, i),
    decreases ranges.len(),
{
    if ranges.len() > 0 {
        let f = ranges.drop_last();
        let x = ranges.last();
        assert(ranges[ranges.len() - 1] == x);
        assert forall|i: int, j: int| 0 <= i < j < f.len() implies apart(
            #[trigger] f[i],
            #[trigger] f[j],
        ) by {
            assert(f[i] == ranges[i] && f[j] == ranges[j]);
        }
        by_start_keeps(f);
        let g = by_start(f);
        assert forall|k: int| 0 <= k < g.len() implies apart(#[trigger] g[k], x)
            && ranges.contains(g[k]) by {
            let m = choose|m: int| 0 <= m < f.len() && f[m] == g[k];
            assert(ranges[m] == g[k]);
        }
        inserted_keeps(g, x);
        let all = by_start(ranges);
        assert forall|k: int| 0 <= k < all.len() implies ranges.contains(#[trigger] all[k]) by {
            if all[k] != x {
                let m = choose|m: int| 0 <= m < g.len() && g[m] == all[k];
                assert(ranges.contains(g[m]));
            }
        }
        assert forall|i: int| #[trigger] covered(all, i) <==> covered(ranges, i) by {
            covered_push(f, x, i);
            assert(f.push(x) =~= ranges);
        }
    }
}

proof fn uncovered_alike(
    s: Seq<BlockView>,
    a: Seq<(usize, usize)>,
    b: Seq<(usize, usize)>,
    n: nat,
)
    requires
        forall|i: int| 0 <= i < n ==> (#[trigger] covered(a, i) <==> covered(b, i)),
    ensures
        uncovered(s, a, n) == uncovered(s, b, n),
    decreases n,
{
    if n > 0 {
        uncovered_alike(s, a, b, (n - 1) as nat);
        assert(covered(a, n - 1) <==> covered(b, n - 1));
    }
}

/// What is removed from `s` leaves what stands behind it alone.
proof fn removal_with_tail(s: Seq<BlockView>, ranges: Seq<(usize, usize)>, tail: Seq<BlockView>)
    requires
        all_apart(ranges),
        starts_rise(ranges),
        tail.len() > 0 ==> forall|k: int|
            0 <= k < ranges.len() ==> (#[trigger] ranges[k]).0 >= ranges[k].1 || ranges[k].1
                <= s.len(),
    ensures
        without_ranges(s + tail, ranges) == uncovered(s, ranges, s.len()) + tail,
    decreases ranges.len(),
{
    if ranges.len() == 0 {
        uncovered_all(s, ranges, s.len());
        assert(s.take(s.len() as int) =~= s);
    } else {
        let f = ranges.drop_last();
        let (a, b) = ranges.last();
        let whole = s + tail;
        assert(ranges[ranges.len() - 1] == ranges.last());
        assert(f.push(ranges.last()) =~= ranges);
        assert forall|i: int, j: int| 0 <= i < j < f.len() implies apart(
            #[trigger] f[i],
            #[trigger] f[j],
        ) && f[i].0 <= f[j].0 by {
            assert(f[i] == ranges[i] && f[j] == ranges[j]);
        }
        assert forall|k: int| 0 <= k < f.len() implies #[trigger] f[k] == ranges[k] && f[k].0 <= a
            && apart(f[k], (a, b)) by {
            assert(f[k] == ranges[k]);
        }
        if a >= b || a >= s.len() {
            assert(without_range(whole, ranges.last()) =~= whole);
            removal_with_tail(s, f, tail);
            assert forall|i: int| 0 <= i < s.len() implies (#[trigger] covered(ranges, i)
                <==> covered(f, i)) by {
                covered_push(f, (a, b), i);
            }
            uncovered_alike(s, ranges, f, s.len());
        } else {
            let end = if b <= s.len() {
                b as int
            } else {
                s.len() as int
            };
            let front = s.take(a as int);
            let rest = s.skip(end) + tail;
            assert(without_range(whole, ranges.last()) =~= front + rest);
            removal_with_tail(front, f, rest);
            uncovered_split(s, f, (a, b), end, s.len());
            assert(s.subrange(end, s.len() as int) =~= s.skip(end));
            assert(uncovered(front, f, front.len()) + rest =~= (uncovered(front, f, front.len())
                + s.skip(end)) + tail);
        }
    }
}

proof fn uncovered_all(s: Seq<BlockView>, ranges: Seq<(usize, usize)>, n: nat)
    requires
        ranges.len() == 0,
        n <= s.len(),
    ensures
        uncovered(s, ranges, n) == s.take(n as int),
    decreases n,
{
    if n > 0 {
        uncovered_all(s, ranges, (n - 1) as nat);
        assert(!covered(ranges, n - 1));
        assert(s.take(n - 1).push(s[n - 1]) =~= s.take(n as int));
    } else {
        assert(s.take(0) =~= Seq::empty());
    }
}

/// What lies outside ranges that end before the range `r`, and outside `r`,
/// which ends at `end` or beyond the last block.
proof fn uncovered_split(
    s: Seq<BlockView>,
    f: Seq<(usize, usize)>,
    r: (usize, usize),
    end: int,
    n: nat,
)
    requires
        r.0 < r.1,
        r.0 <= n <= s.len(),
        r.0 <= end <= s.len(),
        end == r.1 || (end == s.len() && end <= r.1),
        forall|k: int| 0 <= k < f.len() ==> (#[trigger] f[k]).0 >= f[k].1 || f[k].1 <= r.0,
    ensures
        uncovered(s, f.push(r), n) == uncovered(s.take(r.0 as int), f, r.0 as nat) + (if n > end {
            s.subrange(end, n as int)
        } else {
            Seq::empty()
        }),
    decreases n,
{
    let ranges = f.push(r);
    let front = s.take(r.0 as int);
    let kept = uncovered(front, f, r.0 as nat);
    if n == r.0 {
        uncovered_front(s, f, r, n);
        assert(kept + Seq::<BlockView>::empty() =~= kept);
    } else {
        uncovered_split(s, f, r, end, (n - 1) as nat);
        covered_push(f, r, n - 1);
        assert(!covered(f, n - 1)) by {
            if covered(f, n - 1) {
                let k = choose|k: int| 0 <= k < f.len() && (#[trigger] f[k]).0 <= n - 1 < f[k].1;
                assert(f[k].1 <= r.0);
            }
        }
        if n - 1 >= end {
            if n - 1 > end {
                assert(s.subrange(end, n - 1).push(s[n - 1]) =~= s.subrange(end, n as int));
            } else {
                assert(seq![s[n - 1]] =~= s.subrange(end, n as int));
            }
            assert(uncovered(s, ranges, n) =~= kept + s.subrange(end, n as int));
        }
    }
}

proof fn uncovered_front(s: Seq<BlockView>, f: Seq<(usize, usize)>, r: (usize, usize), n: nat)
    requires
        n <= r.0 <= s.len(),
    ensures
        uncovered(s, f.push(r), n) == uncovered(s.take(r.0 as int), f, n),
    decreases n,
{
    if n > 0 {
        uncovered_front(s, f, r, (n - 1) as nat);
        covered_push(f, r, n - 1);
        assert(s.take(r.0 as int)[n - 1] == s[n - 1]);
    }
}

/// Where no paragraph is chosen, converting changes nothing.
pub proof fn nothing_chosen_changes_nothing(
    s: Seq<BlockView>,
    chosen: Seq<usize>,
    ordered: bool,
    i: int,
    acc: Seq<BlockView>,
)
    requires
        0 <= i <= s.len(),
        forall|k: int| 0 <= k < s.len() ==> !is_chosen(s, chosen, k),
    ensures
        bulleted_from(s, chosen, ordered, i, acc) == acc + s.skip(i),
    decreases s.len() - i,
{
    if i < s.len() {
        nothing_chosen_changes_nothing(s, chosen, ordered, i + 1, acc.push(s[i]));
        assert(acc.push(s[i]) + s.skip(i + 1) =~= acc + s.skip(i));
    } else {
        assert(acc + s.skip(i) =~= acc);
    }
}

// ── what a fix leaves as it is ────────────────────────────────────────────

/// A title fix works on the title alone. The first heading of the first
/// level, at `i`, gets the text and keeps its place and its line; where a
/// document has none, replacing changes nothing. Inserting puts a heading of
/// the first level on top, unless there is nothing to write.
pub proof fn a_title_fix_is_about_the_title(s: Seq<BlockView>, text: Seq<char>, i: int)
    requires
        0 <= i <= s.len(),
        forall|k: int|
            0 <= k < i ==> !((#[trigger] s[k]) is Heading && s[k]->Heading_level == 1),
        i < s.len() ==> s[i] is Heading && s[i]->Heading_level == 1,
    ensures
        fixed(FixView::ReplaceH1 { text }, s) == (if i < s.len() {
            s.take(i) + seq![
                BlockView::Heading {
                    level: 1,
                    content: seq![InlineView::Text(text)],
                    line: s[i]->Heading_line,
                },
            ] + s.skip(i + 1)
        } else {
            s
        }),
        fixed(FixView::InsertH1 { text }, s) == (if text.len() > 0 {
            seq![
                BlockView::Heading { level: 1, content: seq![InlineView::Text(text)], line: 0 },
            ] + s
        } else {
            s
        }),
{
    first_h1_at(s, 0, i);
    if i < s.len() {
        assert(fixed(FixView::ReplaceH1 { text }, s) =~= s.take(i) + seq![
            BlockView::Heading {
                level: 1,
                content: seq![InlineView::Text(text)],
                line: s[i]->Heading_line,
            },
        ] + s.skip(i + 1));
    }
}

proof fn first_h1_at(s: Seq<BlockView>, from: int, i: int)
    requires
        0 <= from <= i <= s.len(),
        forall|k: int|
            from <= k < i ==> !((#[trigger] s[k]) is Heading && s[k]->Heading_level == 1),
        i < s.len() ==> s[i] is Heading && s[i]->Heading_level == 1,
    ensures
        first_h1(s, from) == (if i < s.len() {
            Some(i)
        } else {
            None
        }),
    decreases i - from,
{
    if from < i {
        first_h1_at(s, from + 1, i);
    }
}

proof fn entries_are_flattened(entries: Seq<SortedEntryView>)
    ensures
        entry_blocks(entries) == entries.map_values(|e: SortedEntryView| e.blocks).flatten(),
    decreases entries.len(),
{
    let f = |e: SortedEntryView| e.blocks;
    let all = entries.map_values(f);
    all.lemma_flatten_and_flatten_alt_are_equivalent();
    if entries.len() > 0 {
        entries_are_flattened(entries.drop_last());
        let front = entries.drop_last().map_values(f);
        front.lemma_flatten_and_flatten_alt_are_equivalent();
        assert(all.drop_last() =~= front);
    }
}

proof fn sections_are_flattened(sections: Seq<Seq<BlockView>>)
    ensures
        all_blocks(sections) == sections.flatten(),
    decreases sections.len(),
{
    sections.lemma_flatten_and_flatten_alt_are_equivalent();
    if sections.len() > 0 {
        sections_are_flattened(sections.drop_last());
        sections.drop_last().lemma_flatten_and_flatten_alt_are_equivalent();
    }
}

/// Sorting entries writes the preamble and behind it the blocks of the
/// entries in their order, and nothing else. So where preamble and entries
/// together are a rearrangement of the document's blocks, no block is lost
/// and none is added.
pub proof fn sorting_is_a_rearrangement(
    s: Seq<BlockView>,
    preamble: Seq<BlockView>,
    sorted_entries: Seq<SortedEntryView>,
)
    ensures
        ({
            let t = fixed(FixView::SortEntries { preamble, sorted_entries }, s);
            let sorted = sorted_entries.map_values(|e: SortedEntryView| e.blocks).flatten();
            &&& preamble.is_prefix_of(t)
            &&& t.skip(preamble.len() as int) == sorted
            &&& (preamble + sorted).to_multiset() == s.to_multiset() ==> t.to_multiset()
                == s.to_multiset()
        }),
{
    entries_are_flattened(sorted_entries);
    let t = fixed(FixView::SortEntries { preamble, sorted_entries }, s);
    let sorted = sorted_entries.map_values(|e: SortedEntryView| e.blocks).flatten();
    assert(t.skip(preamble.len() as int) =~= sorted);
    assert(t =~= preamble + sorted);
}

/// Putting sections in order writes the preamble and behind it the sections
/// in their order, and nothing else. So where preamble and sections together
/// are a rearrangement of the document's blocks, no block is lost and none is
/// added.
pub proof fn reordering_is_a_rearrangement(
    s: Seq<BlockView>,
    preamble: Seq<BlockView>,
    sorted_sections: Seq<Seq<BlockView>>,
)
    ensures
        ({
            let t = fixed(FixView::ReorderSections { preamble, sorted_sections }, s);
            &&& preamble.is_prefix_of(t)
            &&& t.skip(preamble.len() as int) == sorted_sections.flatten()
            &&& (preamble + sorted_sections.flatten()).to_multiset() == s.to_multiset()
                ==> t.to_multiset() == s.to_multiset()
        }),
{
    sections_are_flattened(sorted_sections);
    let t = fixed(FixView::ReorderSections { preamble, sorted_sections }, s);
    assert(t.skip(preamble.len() as int) =~= sorted_sections.flatten());
    assert(t =~= preamble + sorted_sections.flatten());
}

/// An update of a managed section replaces the blocks of the section and no
/// others: by the template's blocks, and behind a blank line what the
/// document had on its own, where it had anything. A section that is not
/// there yet is appended behind a blank line, unless the document is empty or
/// ends in one.
pub proof fn a_managed_section_is_replaced_alone(
    s: Seq<BlockView>,
    section_start: Option<usize>,
    section_end: usize,
    managed_blocks: Seq<BlockView>,
    custom_content: Seq<BlockView>,
)
    requires
        section_start matches Some(a) ==> a <= section_end <= s.len(),
    ensures
        ({
            let f = FixView::UpdateManagedSection {
                section_start,
                section_end,
                managed_blocks,
                custom_content,
            };
            let t = fixed(f, s);
            let n = s.len() as int;
            let m = managed_blocks.len() as int;
            let c = custom_content.len() as int;
            let new = if c == 0 {
                m
            } else {
                m + 1 + c
            };
            let a = match section_start {
                Some(a) => a as int,
                None => if n > 0 && s[n - 1] != BlockView::BlankLine {
                    n + 1
                } else {
                    n
                },
            };
            &&& t.len() == a + new + (if section_start is Some {
                n - section_end
            } else {
                0
            })
            &&& forall|k: int| 0 <= k < a && k < n ==> #[trigger] t[k] == s[k]
            &&& section_start is None && a > n ==> t[n] == BlockView::BlankLine
            &&& forall|k: int| 0 <= k < m ==> #[trigger] managed_blocks[k] == t[a + k]
            &&& c > 0 ==> t[a + m] == BlockView::BlankLine
            &&& forall|k: int| 0 <= k < c ==> #[trigger] custom_content[k] == t[a + m + 1 + k]
            &&& section_start is Some ==> forall|k: int|
                section_end <= k < n ==> #[trigger] s[k] == t[k - section_end + a + new]
        }),
{
}

/// Removing sections whose ranges share no block keeps exactly the blocks
/// outside them, in order.
pub proof fn removing_sections_keeps_the_rest(
    s: Seq<BlockView>,
    section_ranges: Seq<(usize, usize)>,
)
    requires
        all_apart(section_ranges),
    ensures
        fixed(FixView::RemoveEmptySections { section_ranges }, s) == uncovered(
            s,
            section_ranges,
            s.len(),
        ),
{
    removal_keeps_the_rest(s, section_ranges);
}

/// Turning a list changes whether it is ordered and nothing else; where there
/// is no list at the position, nothing changes.
pub proof fn turning_a_list_changes_its_marker_alone(
    s: Seq<BlockView>,
    list_index: usize,
    order: bool,
)
    ensures
        ({
            let t = fixed(FixView::ConvertListType { list_index, ordered: order }, s);
            &&& t.len() == s.len()
            &&& forall|k: int| 0 <= k < s.len() && k != list_index ==> #[trigger] t[k] == s[k]
            &&& list_index < s.len() ==> match s[list_index as int] {
                BlockView::List { items, ordered, start, line } => t[list_index as int]
                    == (BlockView::List { items, ordered: order, start, line }),
                _ => t[list_index as int] == s[list_index as int],
            }
        }),
{
}

// ── what becomes of paragraphs ────────────────────────────────────────────

proof fn next_in_run_is_next(s: Seq<BlockView>, chosen: Seq<usize>, i: int)
    requires
        0 <= i <= s.len(),
    ensures
        next_in_run(s, chosen, i) matches Some(j) ==> i <= j < s.len() && is_chosen(s, chosen, j)
            && forall|k: int| i <= k < j ==> #[trigger] s[k] == BlockView::BlankLine && !is_chosen(
            s,
            chosen,
            k,
        ),
    decreases s.len() - i,
{
    if i < s.len() && !is_chosen(s, chosen, i) && s[i] == BlockView::BlankLine {
        next_in_run_is_next(s, chosen, i + 1);
    }
}

proof fn blank_lines_have_no_text(s: Seq<BlockView>)
    requires
        forall|k: int| 0 <= k < s.len() ==> #[trigger] s[k] == BlockView::BlankLine,
    ensures
        runs(s) == Seq::<Seq<InlineView>>::empty(),
    decreases s.len(),
{
    reveal_with_fuel(runs, 2);
    reveal_with_fuel(runs_of, 2);
    if s.len() > 0 {
        let f = s.drop_last();
        assert forall|k: int| 0 <= k < f.len() implies #[trigger] f[k] == BlockView::BlankLine by {
            assert(f[k] == s[k]);
        }
        blank_lines_have_no_text(f);
        assert(runs(s) =~= Seq::empty());
    }
}

proof fn an_item_of_one_paragraph(items: Seq<ListItemView>, content: Seq<InlineView>, loose: bool)
    ensures
        runs_of_items(
            items.push(
                ListItemView {
                    content,
                    children: if loose {
                        seq![BlockView::BlankLine]
                    } else {
                        Seq::empty()
                    },
                },
            ),
        ) == runs_of_items(items) + seq![content],
{
    let item = ListItemView {
        content,
        children: if loose {
            seq![BlockView::BlankLine]
        } else {
            Seq::empty()
        },
    };
    blank_lines_have_no_text(item.children);
    reveal_with_fuel(runs_of_items, 2);
    reveal_with_fuel(runs_of_item, 2);
    assert(items.push(item).drop_last() =~= items);
    assert(runs_of_item(item) =~= seq![content]);
}

/// Whether one of the items holds the content.
pub open spec fn is_item_of(items: Seq<ListItemView>, content: Seq<InlineView>) -> bool {
    exists|m: int| 0 <= m < items.len() && (#[trigger] items[m]).content == content
}

proof fn still_item_of(items: Seq<ListItemView>, item: ListItemView, content: Seq<InlineView>)
    requires
        is_item_of(items, content) || item.content == content,
    ensures
        is_item_of(items.push(item), content),
{
    let all = items.push(item);
    if is_item_of(items, content) {
        let m = choose|m: int| 0 <= m < items.len() && (#[trigger] items[m]).content == content;
        assert(all[m].content == content);
    } else {
        assert(all[items.len() as int].content == content);
    }
}

proof fn a_run_holds_its_paragraphs(
    s: Seq<BlockView>,
    chosen: Seq<usize>,
    i: int,
    acc: Seq<ListItemView>,
)
    requires
        0 <= i < s.len(),
        is_chosen(s, chosen, i),
    ensures
        ({
            let (items, e) = run_from(s, chosen, i, acc);
            &&& i < e <= s.len()
            &&& runs_of_items(items) == runs_of_items(acc) + runs(s.subrange(i, e))
            &&& forall|k: int|
                i <= k < e ==> is_chosen(s, chosen, k) || #[trigger] s[k] == BlockView::BlankLine
            &&& forall|k: int|
                i <= k < e && (#[trigger] s[k]) is Paragraph ==> is_item_of(
                    items,
                    s[k]->Paragraph_content,
                )
            &&& forall|c: Seq<InlineView>| is_item_of(acc, c) ==> #[trigger] is_item_of(items, c)
        }),
    decreases s.len() - i,
{
    let content = paragraph_content(s[i]);
    let (items, e) = run_from(s, chosen, i, acc);
    next_in_run_is_next(s, chosen, i + 1);
    reveal_with_fuel(runs_of, 2);
    match next_in_run(s, chosen, i + 1) {
        Some(j) => {
            let next = ListItemView { content, children: seq![BlockView::BlankLine] };
            a_run_holds_its_paragraphs(s, chosen, j, acc.push(next));
            an_item_of_one_paragraph(acc, content, true);
            let gap = s.subrange(i + 1, j);
            assert forall|k: int| 0 <= k < gap.len() implies #[trigger] gap[k]
                == BlockView::BlankLine by {
                assert(gap[k] == s[i + 1 + k]);
            }
            blank_lines_have_no_text(gap);
            runs_one(s[i]);
            runs_add(seq![s[i]], gap);
            runs_add(seq![s[i]] + gap, s.subrange(j, e));
            assert(s.subrange(i, e) =~= seq![s[i]] + gap + s.subrange(j, e));
            assert(runs(seq![s[i]] + gap) =~= seq![content]);
            assert(runs_of_items(items) =~= runs_of_items(acc) + runs(s.subrange(i, e)));
            still_item_of(acc, next, content);
            assert forall|c: Seq<InlineView>| is_item_of(acc, c) implies #[trigger] is_item_of(
                items,
                c,
            ) by {
                still_item_of(acc, next, c);
            }
            assert(is_item_of(acc.push(next), content));
            assert(is_item_of(items, content));
        },
        None => {
            let last = ListItemView { content, children: Seq::empty() };
            an_item_of_one_paragraph(acc, content, false);
            runs_one(s[i]);
            assert(s.subrange(i, e) =~= seq![s[i]]);
            still_item_of(acc, last, content);
            assert forall|c: Seq<InlineView>| is_item_of(acc, c) implies #[trigger] is_item_of(
                items,
                c,
            ) by {
                still_item_of(acc, last, c);
            }
        },
    }
}

/// Whether a list among the blocks holds the content as an item.
pub open spec fn is_listed(t: Seq<BlockView>, content: Seq<InlineView>, order: bool) -> bool {
    exists|j: int|
        #![trigger t[j]]
        0 <= j < t.len() && (t[j] matches BlockView::List { items, ordered, start, .. } && ordered
            == order && start == 1 && is_item_of(items, content))
}

/// The paragraphs from `i` on that `chosen` does not name.
pub open spec fn paragraphs_left(s: Seq<BlockView>, chosen: Seq<usize>, i: int) -> Seq<BlockView>
    decreases s.len() - i,
{
    if i < 0 || i >= s.len() {
        Seq::empty()
    } else if s[i] is Paragraph && !(exists|k: int|
        0 <= k < chosen.len() && #[trigger] chosen[k] == i) {
        seq![s[i]] + paragraphs_left(s, chosen, i + 1)
    } else {
        paragraphs_left(s, chosen, i + 1)
    }
}

proof fn none_left_in_a_run(s: Seq<BlockView>, chosen: Seq<usize>, i: int, e: int)
    requires
        0 <= i <= e <= s.len(),
        forall|k: int|
            i <= k < e ==> is_chosen(s, chosen, k) || #[trigger] s[k] == BlockView::BlankLine,
    ensures
        paragraphs_left(s, chosen, i) == paragraphs_left(s, chosen, e),
    decreases e - i,
{
    if i < e {
        none_left_in_a_run(s, chosen, i + 1, e);
        assert(is_chosen(s, chosen, i) || s[i] == BlockView::BlankLine);
    }
}

proof fn filtered_one(v: Seq<BlockView>, b: BlockView, p: spec_fn(BlockView) -> bool)
    ensures
        v.push(b).filter(p) == (if p(b) {
            v.filter(p).push(b)
        } else {
            v.filter(p)
        }),
{
    reveal(Seq::filter);
    assert(v.push(b).drop_last() =~= v);
}

proof fn bullets_from(
    s: Seq<BlockView>,
    chosen: Seq<usize>,
    order: bool,
    i: int,
    acc: Seq<BlockView>,
)
    requires
        0 <= i <= s.len(),
    ensures
        ({
            let t = bulleted_from(s, chosen, order, i, acc);
            &&& runs(t) == runs(acc) + runs(s.skip(i))
            &&& t.filter(|b: BlockView| b is Paragraph) == acc.filter(|b: BlockView| b is Paragraph)
                + paragraphs_left(s, chosen, i)
            &&& acc.is_prefix_of(t)
            &&& forall|k: int|
                i <= k < s.len() && !is_chosen(s, chosen, k) && (#[trigger] s[k])
                    != BlockView::BlankLine ==> t.contains(s[k])
            &&& forall|k: int|
                i <= k < s.len() && is_chosen(s, chosen, k) ==> is_listed(
                    t,
                    (#[trigger] s[k])->Paragraph_content,
                    order,
                )
        }),
    decreases s.len() - i,
{
    let p = |b: BlockView| b is Paragraph;
    let t = bulleted_from(s, chosen, order, i, acc);
    if i >= s.len() {
        assert(s.skip(i) =~= Seq::empty());
        assert(runs(acc) + runs(s.skip(i)) =~= runs(acc));
        assert(acc.filter(p) + paragraphs_left(s, chosen, i) =~= acc.filter(p));
    } else if is_chosen(s, chosen, i) {
        a_run_holds_its_paragraphs(s, chosen, i, Seq::empty());
        let (items, e) = run_from(s, chosen, i, Seq::empty());
        let list = BlockView::List { items, ordered: order, start: 1, line: block_line(s[i]) };
        bullets_from(s, chosen, order, e, acc.push(list));
        none_left_in_a_run(s, chosen, i, e);
        filtered_one(acc, list, p);
        runs_one(list);
        runs_add(acc, seq![list]);
        assert(acc.push(list) =~= acc + seq![list]);
        runs_add(s.subrange(i, e), s.skip(e));
        assert(s.skip(i) =~= s.subrange(i, e) + s.skip(e));
        assert(runs_of(list) =~= runs(s.subrange(i, e))) by {
            reveal_with_fuel(runs_of, 2);
            reveal_with_fuel(runs_of_items, 2);
        }
        assert(runs(t) =~= runs(acc) + runs(s.skip(i)));
        assert(acc.push(list).is_prefix_of(t));
        assert(t[acc.len() as int] == list) by {
            assert(acc.push(list)[acc.len() as int] == list);
        }
        assert(acc.is_prefix_of(t)) by {
            assert(acc =~= t.take(acc.len() as int));
        }
        assert forall|k: int| i <= k < s.len() && is_chosen(s, chosen, k) implies is_listed(
            t,
            (#[trigger] s[k])->Paragraph_content,
            order,
        ) by {
            if k < e {
                assert(is_item_of(items, s[k]->Paragraph_content));
                assert(t[acc.len() as int] == list);
            }
        }
        assert forall|k: int|
            i <= k < s.len() && !is_chosen(s, chosen, k) && (#[trigger] s[k])
                != BlockView::BlankLine implies t.contains(s[k]) by {
            if k < e {
                assert(is_chosen(s, chosen, k) || s[k] == BlockView::BlankLine);
            }
        }
    } else {
        bullets_from(s, chosen, order, i + 1, acc.push(s[i]));
        filtered_one(acc, s[i], p);
        runs_one(s[i]);
        runs_add(acc, seq![s[i]]);
        assert(acc.push(s[i]) =~= acc + seq![s[i]]);
        runs_add(seq![s[i]], s.skip(i + 1));
        assert(s.skip(i) =~= seq![s[i]] + s.skip(i + 1));
        assert(runs(t) =~= runs(acc) + runs(s.skip(i)));
        assert(t.filter(p) =~= acc.filter(p) + paragraphs_left(s, chosen, i));
        assert(t[acc.len() as int] == s[i]) by {
            assert(acc.push(s[i])[acc.len() as int] == s[i]);
        }
        assert(acc.is_prefix_of(t)) by {
            assert(acc =~= t.take(acc.len() as int));
        }
    }
}

/// Turning paragraphs into bullets loses no text: the running text of the
/// document is what it was, piece by piece and in order. Of the paragraphs
/// exactly those that were not named stay; each that was named is an item of
/// a list of the kind asked for; every other block stays, but for blank lines
/// between the items.
pub proof fn bullets_keep_all_text(
    s: Seq<BlockView>,
    paragraph_indices: Seq<usize>,
    order: bool,
    i: int,
)
    requires
        0 <= i < s.len(),
    ensures
        ({
            let t = fixed(
                FixView::ConvertParagraphsToBullets { paragraph_indices, ordered: order },
                s,
            );
            let named = exists|k: int|
                0 <= k < paragraph_indices.len() && #[trigger] paragraph_indices[k] == i;
            &&& runs(t) == runs(s)
            &&& t.filter(|b: BlockView| b is Paragraph) == paragraphs_left(s, paragraph_indices, 0)
            &&& named ==> (s[i] matches BlockView::Paragraph { content, .. } ==> is_listed(
                t,
                content,
                order,
            ))
            &&& !(s[i] is Paragraph && named) && s[i] != BlockView::BlankLine ==> t.contains(s[i])
        }),
{
    let none: Seq<BlockView> = Seq::empty();
    bullets_from(s, paragraph_indices, order, 0, none);
    assert(s.skip(0) =~= s);
    assert(runs(none) + runs(s) =~= runs(s));
    reveal(Seq::filter);
    assert(none.filter(|b: BlockView| b is Paragraph) =~= none);
    assert(none + paragraphs_left(s, paragraph_indices, 0) =~= paragraphs_left(
        s,
        paragraph_indices,
        0,
    ));
    if s[i] is Paragraph {
        assert(is_chosen(s, paragraph_indices, i) <==> exists|k: int|
            0 <= k < paragraph_indices.len() && #[trigger] paragraph_indices[k] == i);
    }
}

// ── which fix a diagnostic asks for ───────────────────────────────────────

/// Fixes work one after the other.
pub proof fn fixes_work_in_turn(a: Seq<FixView>, b: Seq<FixView>, s: Seq<BlockView>)
    ensures
        all_fixed(a + b, s) == all_fixed(b, all_fixed(a, s)),
    decreases b.len(),
{
    if b.len() == 0 {
        assert(a + b =~= a);
    } else {
        fixes_work_in_turn(a, b.drop_last(), s);
        assert((a + b).drop_last() =~= a + b.drop_last());
        assert((a + b).last() == b.last());
    }
}

proof fn one_fix(f: FixView, s: Seq<BlockView>)
    ensures
        all_fixed(seq![f], s) == fixed(f, s),
{
    reveal_with_fuel(all_fixed, 2);
    assert(seq![f].drop_last() =~= Seq::empty());
}

proof fn fixes_of_one(s: Seq<BlockView>, d: DiagnosticView)
    requires
        !(d is SectionNotBullets),
    ensures
        fixes_for(s, seq![d]) == list_fix(s, d) + (match own_fix(d) {
            Some(f) => seq![f],
            None => Seq::empty(),
        }),
{
    let one = seq![d];
    assert(one.drop_last() =~= Seq::empty());
    no_paragraph_flagged(s, one, s.len());
    reveal_with_fuel(own_fixes, 2);
    reveal_with_fuel(list_fixes, 2);
    assert(list_fixes(s, one) =~= list_fix(s, d));
    assert(own_fixes(one) =~= (match own_fix(d) {
        Some(f) => seq![f],
        None => Seq::empty(),
    }));
    assert(content_fixes(s, one) =~= list_fix(s, d));
}

proof fn no_paragraph_flagged(s: Seq<BlockView>, diags: Seq<DiagnosticView>, n: nat)
    requires
        forall|i: int| 0 <= i < diags.len() ==> !((#[trigger] diags[i]) is SectionNotBullets),
    ensures
        flagged_paragraphs(s, diags, n).len() == 0,
    decreases n,
{
    if n > 0 {
        no_paragraph_flagged(s, diags, (n - 1) as nat);
    }
}

/// Each finding that carries its own correction is corrected by it: the
/// missing title is put on top, the wrong one is replaced by the one that was
/// expected, the managed section gets its blocks, entries and sections are
/// written in the order that the finding gives, and the empty sections go.
pub proof fn a_finding_is_corrected(s: Seq<BlockView>, d: DiagnosticView)
    ensures
        ({
            let t = all_fixed(fixes_for(s, seq![d]), s);
            &&& d matches DiagnosticView::MissingH1 { expected } ==> t == fixed(
                FixView::InsertH1 { text: expected },
                s,
            )
            &&& d matches DiagnosticView::H1Mismatch { expected, .. } ==> t == fixed(
                FixView::ReplaceH1 { text: expected },
                s,
            )
            &&& d matches DiagnosticView::ManagedSectionNeedsUpdate {
                section_start,
                section_end,
                managed_blocks,
                custom_content,
            } ==> t == fixed(
                FixView::UpdateManagedSection {
                    section_start,
                    section_end: section_end as usize,
                    managed_blocks,
                    custom_content,
                },
                s,
            )
            &&& d matches DiagnosticView::EntriesOutOfOrder { preamble, sorted_entries } ==> t
                == preamble + sorted_entries.map_values(|e: SortedEntryView| e.blocks).flatten()
            &&& d matches DiagnosticView::EmptyOptionalSection { section_ranges } ==> (all_apart(
                section_ranges,
            ) ==> t == uncovered(s, section_ranges, s.len()))
            &&& d matches DiagnosticView::SectionsOutOfOrder { preamble, sorted_sections } ==> t
                == preamble + sorted_sections.flatten()
        }),
{
    if !(d is SectionNotBullets) {
        fixes_of_one(s, d);
        if let Some(f) = own_fix(d) {
            assert(fixes_for(s, seq![d]) =~= seq![f]);
            one_fix(f, s);
        }
        match d {
            DiagnosticView::EntriesOutOfOrder { preamble, sorted_entries } => {
                entries_are_flattened(sorted_entries);
            },
            DiagnosticView::EmptyOptionalSection { section_ranges } => {
                if all_apart(section_ranges) {
                    removal_keeps_the_rest(s, section_ranges);
                }
            },
            DiagnosticView::SectionsOutOfOrder { preamble, sorted_sections } => {
                sections_are_flattened(sorted_sections);
            },
            _ => {},
        }
    }
}

proof fn first_wrong_list_at(s: Seq<BlockView>, at: int, order: bool, from: int, i: int)
    requires
        0 <= from <= i <= s.len(),
        forall|k: int|
            from <= k < i ==> !((#[trigger] s[k]) is List && s[k]->List_line == at && s[k]->ordered
                != order),
        i < s.len() ==> s[i] is List && s[i]->List_line == at && s[i]->ordered != order,
    ensures
        first_wrong_list(s, at, order, from) == (if i < s.len() {
            Some(i)
        } else {
            None
        }),
    decreases i - from,
{
    if from < i {
        first_wrong_list_at(s, at, order, from + 1, i);
    }
}

/// A list of the wrong type is turned: the first list at the line of the
/// finding that is not what was expected becomes that and keeps its items,
/// and nothing else changes.
pub proof fn a_wrong_list_is_turned(
    s: Seq<BlockView>,
    line: int,
    context: Seq<char>,
    expected: Seq<char>,
    i: int,
)
    requires
        s.len() <= usize::MAX,
        0 <= i <= s.len(),
        forall|k: int|
            0 <= k < i ==> !((#[trigger] s[k]) is List && s[k]->List_line == line && s[k]->ordered
                != (expected == "ordered"@)),
        i < s.len() ==> s[i] is List && s[i]->List_line == line && s[i]->ordered != (expected
            == "ordered"@),
    ensures
        ({
            let d = DiagnosticView::WrongListType { line, context, expected };
            let t = all_fixed(fixes_for(s, seq![d]), s);
            if i < s.len() {
                t == s.update(
                    i,
                    BlockView::List {
                        items: s[i]->items,
                        ordered: expected == "ordered"@,
                        start: s[i]->start,
                        line,
                    },
                )
            } else {
                t == s
            }
        }),
{
    let d = DiagnosticView::WrongListType { line, context, expected };
    let order = expected == "ordered"@;
    first_wrong_list_at(s, line, order, 0, i);
    fixes_of_one(s, d);
    if i < s.len() {
        let f = FixView::ConvertListType { list_index: i as usize, ordered: order };
        assert(fixes_for(s, seq![d]) =~= seq![f]);
        one_fix(f, s);
    } else {
        assert(fixes_for(s, seq![d]) =~= Seq::empty());
    }
}

proof fn flagged_are_those(s: Seq<BlockView>, diags: Seq<DiagnosticView>, n: nat, i: usize)
    requires
        n <= s.len() <= usize::MAX,
    ensures
        flagged_paragraphs(s, diags, n).contains(i) <==> i < n && s[i as int] is Paragraph
            && exists|k: int|
            0 <= k < diags.len() && ((#[trigger] diags[k]) matches DiagnosticView::SectionNotBullets {
                line,
                ..
            } && line == s[i as int]->Paragraph_line),
    decreases n,
{
    if n > 0 {
        let m = (n - 1) as nat;
        flagged_are_those(s, diags, m, i);
        let before = flagged_paragraphs(s, diags, m);
        let all = flagged_paragraphs(s, diags, n);
        if before.contains(i) {
            let k = choose|k: int| 0 <= k < before.len() && before[k] == i;
            assert(all[k] == i);
        }
        if all.contains(i) {
            let k = choose|k: int| 0 <= k < all.len() && all[k] == i;
            if k < before.len() {
                assert(before[k] == i);
            }
        }
        if i == m && all.len() > before.len() {
            assert(all[before.len() as int] == i);
        }
    }
}

/// Paragraphs where only bullets may stand become bullets: a fix names
/// exactly the paragraphs at the lines of such findings, and asks for
/// unordered lists.
pub proof fn flagged_paragraphs_become_bullets(
    s: Seq<BlockView>,
    diags: Seq<DiagnosticView>,
    i: usize,
)
    requires
        s.len() <= usize::MAX,
        i < s.len(),
        s[i as int] is Paragraph,
        exists|k: int|
            0 <= k < diags.len() && ((#[trigger] diags[k]) matches DiagnosticView::SectionNotBullets {
                line,
                ..
            } && line == s[i as int]->Paragraph_line),
    ensures
        fixes_for(s, diags).len() > 0,
        fixes_for(s, diags)[0] matches FixView::ConvertParagraphsToBullets {
            paragraph_indices,
            ordered,
        } && !ordered && forall|j: usize| #[trigger]
            paragraph_indices.contains(j) <==> j < s.len() && s[j as int] is Paragraph && exists|
                k: int,
            |
                0 <= k < diags.len() && ((
                #[trigger] diags[k]) matches DiagnosticView::SectionNotBullets { line, .. } && line
                    == s[j as int]->Paragraph_line),
{
    let paras = flagged_paragraphs(s, diags, s.len());
    flagged_are_those(s, diags, s.len(), i);
    assert(paras.contains(i));
    assert forall|j: usize| #[trigger] paras.contains(j) <==> j < s.len() && s[j as int] is Paragraph
        && exists|k: int|
        0 <= k < diags.len() && ((#[trigger] diags[k]) matches DiagnosticView::SectionNotBullets {
            line,
            ..
        } && line == s[j as int]->Paragraph_line) by {
        flagged_are_those(s, diags, s.len(), j);
    }
}

} // verus!
