//! What the columns of a table are written as, and what a tag stands for.

use crate::ast::{ColumnAlignment, InlineView};
use crate::events::{alignment_of, end_view, level_number, tag_view};
use crate::parse::span_end;
use crate::serialize::{delimiter, delimiters_text, row_text, rows_text, table_text};
use pulldown_cmark::{Alignment, HeadingLevel, Tag, TagEnd};
use vstd::prelude::*;

verus! {

/// How the delimiter of a column aligns it: to the sides at which it has a
/// colon.
pub open spec fn alignment_read(cell: Seq<char>) -> ColumnAlignment {
    let left = cell.len() > 1 && cell[1] == ':';
    let right = cell.len() > 1 && cell[cell.len() - 2] == ':';
    if left && right {
        ColumnAlignment::Center
    } else if left {
        ColumnAlignment::Left
    } else if right {
        ColumnAlignment::Right
    } else {
        ColumnAlignment::Unset
    }
}

/// Whether a text is the delimiter of a column: hyphens, with colons at most
/// at their ends, between two spaces.
pub open spec fn is_delimiter(cell: Seq<char>) -> bool {
    &&& cell.len() >= 5
    &&& cell[0] == ' ' && cell.last() == ' '
    &&& forall|k: int| 2 <= k < cell.len() - 2 ==> #[trigger] cell[k] == '-'
    &&& cell[1] == '-' || cell[1] == ':'
    &&& cell[cell.len() - 2] == '-' || cell[cell.len() - 2] == ':'
}

/// The delimiter of a column reads back as its alignment.
pub proof fn a_delimiter_reads_back(a: ColumnAlignment)
    ensures
        is_delimiter(delimiter(a)),
        alignment_read(delimiter(a)) == a,
{
    reveal_strlit(" --- ");
    reveal_strlit(" :--- ");
    reveal_strlit(" :---: ");
    reveal_strlit(" ---: ");
}

/// Each column has its delimiter, in order; one without an alignment has no
/// colon.
pub proof fn every_column_has_its_delimiter(al: Seq<ColumnAlignment>, n: nat)
    ensures
        exists|cell: Seq<char>|
            {
                &&& is_delimiter(cell)
                &&& alignment_read(cell) == (if n < al.len() {
                    al[n as int]
                } else {
                    ColumnAlignment::Unset
                })
                &&& delimiters_text(al, n + 1) == #[trigger] (delimiters_text(al, n) + cell) + seq![
                    '|',
                ]
            },
        delimiters_text(al, 0).len() == 0,
{
    let a = if n < al.len() {
        al[n as int]
    } else {
        ColumnAlignment::Unset
    };
    a_delimiter_reads_back(a);
    reveal_strlit("|");
    assert("|"@ =~= seq!['|']);
    assert(delimiters_text(al, n + 1) =~= (delimiters_text(al, n) + delimiter(a)) + seq!['|']);
}

/// A table is written row by row: the header, the delimiters and each row,
/// all with as many cells as the header or the alignments have.
pub proof fn a_table_is_written_row_by_row(
    al: Seq<ColumnAlignment>,
    header: Seq<Seq<InlineView>>,
    rows: Seq<Seq<Seq<InlineView>>>,
    row: Seq<Seq<InlineView>>,
    indent: Seq<char>,
    n: nat,
)
    requires
        n >= al.len(),
        n >= header.len(),
        n == al.len() || n == header.len(),
    ensures
        table_text(al, header, Seq::empty(), indent) == row_text(header, n, indent) + indent + seq![
            '|',
        ] + delimiters_text(al, n) + seq!['\n'],
        table_text(al, header, rows.push(row), indent) == table_text(al, header, rows, indent)
            + row_text(row, n, indent),
{
    reveal_strlit("|");
    reveal_strlit("\n");
    assert("|"@ =~= seq!['|']);
    assert("\n"@ =~= seq!['\n']);
    let none: Seq<Seq<Seq<InlineView>>> = Seq::empty();
    assert(rows_text(none, n, indent).len() == 0);
    assert(table_text(al, header, none, indent) =~= row_text(header, n, indent) + indent + seq!['|']
        + delimiters_text(al, n) + seq!['\n']);
    assert(rows.push(row).drop_last() =~= rows);
    assert(table_text(al, header, rows.push(row), indent) =~= table_text(al, header, rows, indent)
        + row_text(row, n, indent));
}

/// Columns are aligned, and headings ranked, as the text says.
pub proof fn columns_and_levels_are_kept()
    ensures
        alignment_of(Alignment::Left) == ColumnAlignment::Left,
        alignment_of(Alignment::Center) == ColumnAlignment::Center,
        alignment_of(Alignment::Right) == ColumnAlignment::Right,
        alignment_of(Alignment::None) == ColumnAlignment::Unset,
        level_number(HeadingLevel::H1) == 1,
        level_number(HeadingLevel::H2) == 2,
        level_number(HeadingLevel::H3) == 3,
        level_number(HeadingLevel::H4) == 4,
        level_number(HeadingLevel::H5) == 5,
        level_number(HeadingLevel::H6) == 6,
{
}

/// A span is closed by the end of its own kind.
pub proof fn a_span_is_closed_by_its_end(tag: Tag<'_>)
    ensures
        tag is Strong ==> span_end(tag_view(tag)) == Some(end_view(TagEnd::Strong)),
        tag is Emphasis ==> span_end(tag_view(tag)) == Some(end_view(TagEnd::Emphasis)),
        tag is Strikethrough ==> span_end(tag_view(tag)) == Some(end_view(TagEnd::Strikethrough)),
        tag is Link ==> span_end(tag_view(tag)) == Some(end_view(TagEnd::Link)),
        tag is Image ==> span_end(tag_view(tag)) == Some(end_view(TagEnd::Image)),
        tag is Paragraph || tag is Item || tag is TableRow ==> span_end(tag_view(tag)) is None,
{
}

} // verus!
