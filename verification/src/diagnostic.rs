//! What can be wrong with a document, and what is known of the documents it
//! links to.

use crate::ast::{blocks_view, copy_blocks, Block, BlockView};
use crate::text::{has_part, option_text, stands_at};
use vstd::prelude::*;

verus! {

/// A date entry of a document, with its heading and its blocks.
#[derive(Debug)]
pub struct SortedEntry {
    pub heading: String,
    pub line: usize,
    pub blocks: Vec<Block>,
}

/// What a [`SortedEntry`] holds.
pub struct SortedEntryView {
    pub heading: Seq<char>,
    pub line: int,
    pub blocks: Seq<BlockView>,
}

impl View for SortedEntry {
    type V = SortedEntryView;

    open spec fn view(&self) -> SortedEntryView {
        SortedEntryView {
            heading: self.heading@,
            line: self.line as int,
            blocks: blocks_view(self.blocks@),
        }
    }
}

/// The content of a list of entries.
pub open spec fn entries_view(v: Seq<SortedEntry>) -> Seq<SortedEntryView> {
    v.map_values(|e: SortedEntry| e@)
}

/// The content of a list of block lists.
pub open spec fn block_lists_view(v: Seq<Vec<Block>>) -> Seq<Seq<BlockView>> {
    v.map_values(|b: Vec<Block>| blocks_view(b@))
}

/// A copy of a list of entries.
pub fn copy_entries(v: &Vec<SortedEntry>) -> (r: Vec<SortedEntry>)
    ensures
        entries_view(r@) == entries_view(v@),
{
    let mut out: Vec<SortedEntry> = Vec::new();
    let mut i: usize = 0;
    while i < v.len()
        invariant
            i <= v.len(),
            out.len() == i,
            forall|k: int| 0 <= k < i ==> (#[trigger] out[k])@ == v[k]@,
        decreases v.len() - i,
    {
        out.push(
            SortedEntry {
                heading: v[i].heading.clone(),
                line: v[i].line,
                blocks: copy_blocks(&v[i].blocks),
            },
        );
        i += 1;
    }
    assert(entries_view(out@) =~= entries_view(v@));
    out
}

/// A copy of a list of block lists.
pub fn copy_block_lists(v: &Vec<Vec<Block>>) -> (r: Vec<Vec<Block>>)
    ensures
        block_lists_view(r@) == block_lists_view(v@),
{
    let mut out: Vec<Vec<Block>> = Vec::new();
    let mut i: usize = 0;
    while i < v.len()
        invariant
            i <= v.len(),
            out.len() == i,
            forall|k: int| 0 <= k < i ==> blocks_view((#[trigger] out[k])@) == blocks_view(v[k]@),
        decreases v.len() - i,
    {
        let c = copy_blocks(&v[i]);
        out.push(c);
        i += 1;
    }
    assert(block_lists_view(out@) =~= block_lists_view(v@));
    out
}

/// A copy of a list of block ranges.
pub fn copy_ranges(v: &Vec<(usize, usize)>) -> (r: Vec<(usize, usize)>)
    ensures
        r@ == v@,
{
    let mut out: Vec<(usize, usize)> = Vec::new();
    let mut i: usize = 0;
    while i < v.len()
        invariant
            i <= v.len(),
            out@ == v@.take(i as int),
        decreases v.len() - i,
    {
        out.push((v[i].0, v[i].1));
        assert(out@ =~= v@.take(i + 1));
        i += 1;
    }
    assert(v@.take(v@.len() as int) =~= v@);
    out
}

/// A violation found in a document.
#[allow(inconsistent_fields)]
#[derive(Debug)]
pub enum Diagnostic {
    /// The document has no H1; `expected` is its text, empty where any would do.
    MissingH1 { expected: String },
    /// The H1 is not the one that the schema derives.
    H1Mismatch { line: usize, expected: String, actual: String },
    /// A managed section is missing or differs from its template.
    ManagedSectionNeedsUpdate { section_start: Option<usize>, section_end: usize, managed_blocks: Vec<Block>, custom_content: Vec<Block> },
    /// Date entries are not in the order that the schema asks for.
    EntriesOutOfOrder { preamble: Vec<Block>, sorted_entries: Vec<SortedEntry> },
    /// Optional sections are empty; block ranges in document order.
    EmptyOptionalSection { section_ranges: Vec<(usize, usize)> },
    /// A paragraph stands where only bullets may.
    SectionNotBullets { line: usize, context: String },
    /// A list is ordered where it must not be, or the other way round.
    WrongListType { line: usize, context: String, expected: String },
    /// A section stands before one that the schema puts first.
    SectionOutOfOrder { line: usize, section: String },
    /// Sections are not in schema order.
    SectionsOutOfOrder { preamble: Vec<Block>, sorted_sections: Vec<Vec<Block>> },
    /// A required section is missing.
    MissingSection { section: String },
    /// The document has no front matter.
    MissingFrontmatter,
    /// A required front matter field is missing.
    MissingRequiredField { field: String },
    /// A front matter field has the wrong shape.
    InvalidFieldType { line: Option<usize>, field: String, message: String },
    /// The document's type cannot be settled, or the file not be read.
    UnknownType { line: usize, message: String },
    /// A link cannot be read.
    MalformedLink { line: usize, url: String },
    /// A section template constrains nothing.
    VacuousTemplate { owner: String, section: String, template: String },
    /// A front matter item has no subsection.
    MissingSubsection { line: Option<usize>, heading: String, container: String },
    /// A front matter value has no link.
    MissingItemLink { line: Option<usize>, item: String, section: String, target_type: Option<String> },
    /// A subsection has no front matter item.
    OrphanSubsection { line: usize, heading: String, expected: String },
    /// A link is not named by front matter.
    OrphanLink { line: usize, url: String, expected: String },
    /// A link points at a document of another type.
    LinkTargetTypeMismatch { line: usize, url: String, expected: String, actual: Option<String> },
    /// A link's target does not link back.
    MissingBacklink { line: usize, url: String, inverse_section: String },
    /// A document that exists is not linked.
    UnlinkedDocument { line: Option<usize>, file: String, doc_type: String, section: String },
}

/// What a [`Diagnostic`] holds.
#[allow(inconsistent_fields)]
pub enum DiagnosticView {
    MissingH1 { expected: Seq<char> },
    H1Mismatch { line: int, expected: Seq<char>, actual: Seq<char> },
    ManagedSectionNeedsUpdate { section_start: Option<usize>, section_end: int, managed_blocks: Seq<BlockView>, custom_content: Seq<BlockView> },
    EntriesOutOfOrder { preamble: Seq<BlockView>, sorted_entries: Seq<SortedEntryView> },
    EmptyOptionalSection { section_ranges: Seq<(usize, usize)> },
    SectionNotBullets { line: int, context: Seq<char> },
    WrongListType { line: int, context: Seq<char>, expected: Seq<char> },
    SectionOutOfOrder { line: int, section: Seq<char> },
    SectionsOutOfOrder { preamble: Seq<BlockView>, sorted_sections: Seq<Seq<BlockView>> },
    MissingSection { section: Seq<char> },
    MissingFrontmatter,
    MissingRequiredField { field: Seq<char> },
    InvalidFieldType { line: Option<usize>, field: Seq<char>, message: Seq<char> },
    UnknownType { line: int, message: Seq<char> },
    MalformedLink { line: int, url: Seq<char> },
    VacuousTemplate { owner: Seq<char>, section: Seq<char>, template: Seq<char> },
    MissingSubsection { line: Option<usize>, heading: Seq<char>, container: Seq<char> },
    MissingItemLink { line: Option<usize>, item: Seq<char>, section: Seq<char>, target_type: Option<Seq<char>> },
    OrphanSubsection { line: int, heading: Seq<char>, expected: Seq<char> },
    OrphanLink { line: int, url: Seq<char>, expected: Seq<char> },
    LinkTargetTypeMismatch { line: int, url: Seq<char>, expected: Seq<char>, actual: Option<Seq<char>> },
    MissingBacklink { line: int, url: Seq<char>, inverse_section: Seq<char> },
    UnlinkedDocument { line: Option<usize>, file: Seq<char>, doc_type: Seq<char>, section: Seq<char> },
}

impl View for Diagnostic {
    type V = DiagnosticView;

    open spec fn view(&self) -> DiagnosticView {
        match *self {
            Diagnostic::MissingH1 { expected } => DiagnosticView::MissingH1 { expected: expected@ },
            Diagnostic::H1Mismatch { line, expected, actual } => DiagnosticView::H1Mismatch {
                line: line as int,
                expected: expected@,
                actual: actual@,
            },
            Diagnostic::ManagedSectionNeedsUpdate {
                section_start,
                section_end,
                managed_blocks,
                custom_content,
            } => DiagnosticView::ManagedSectionNeedsUpdate {
                section_start,
                section_end: section_end as int,
                managed_blocks: blocks_view(managed_blocks@),
                custom_content: blocks_view(custom_content@),
            },
            Diagnostic::EntriesOutOfOrder {
                preamble,
                sorted_entries,
            } => DiagnosticView::EntriesOutOfOrder {
                preamble: blocks_view(preamble@),
                sorted_entries: entries_view(sorted_entries@),
            },
            Diagnostic::EmptyOptionalSection {
                section_ranges,
            } => DiagnosticView::EmptyOptionalSection {
                section_ranges: section_ranges@,
            },
            Diagnostic::SectionNotBullets { line, context } => DiagnosticView::SectionNotBullets {
                line: line as int,
                context: context@,
            },
            Diagnostic::WrongListType { line, context, expected } => DiagnosticView::WrongListType {
                line: line as int,
                context: context@,
                expected: expected@,
            },
            Diagnostic::SectionOutOfOrder { line, section } => DiagnosticView::SectionOutOfOrder {
                line: line as int,
                section: section@,
            },
            Diagnostic::SectionsOutOfOrder {
                preamble,
                sorted_sections,
            } => DiagnosticView::SectionsOutOfOrder {
                preamble: blocks_view(preamble@),
                sorted_sections: block_lists_view(sorted_sections@),
            },
            Diagnostic::MissingSection { section } => DiagnosticView::MissingSection {
                section: section@,
            },
            Diagnostic::MissingFrontmatter => DiagnosticView::MissingFrontmatter,
            Diagnostic::MissingRequiredField { field } => DiagnosticView::MissingRequiredField {
                field: field@,
            },
            Diagnostic::InvalidFieldType {
                line,
                field,
                message,
            } => DiagnosticView::InvalidFieldType {
                line,
                field: field@,
                message: message@,
            },
            Diagnostic::UnknownType { line, message } => DiagnosticView::UnknownType {
                line: line as int,
                message: message@,
            },
            Diagnostic::MalformedLink { line, url } => DiagnosticView::MalformedLink {
                line: line as int,
                url: url@,
            },
            Diagnostic::VacuousTemplate {
                owner,
                section,
                template,
            } => DiagnosticView::VacuousTemplate {
                owner: owner@,
                section: section@,
                template: template@,
            },
            Diagnostic::MissingSubsection {
                line,
                heading,
                container,
            } => DiagnosticView::MissingSubsection {
                line,
                heading: heading@,
                container: container@,
            },
            Diagnostic::MissingItemLink {
                line,
                item,
                section,
                target_type,
            } => DiagnosticView::MissingItemLink {
                line,
                item: item@,
                section: section@,
                target_type: option_text(target_type),
            },
            Diagnostic::OrphanSubsection {
                line,
                heading,
                expected,
            } => DiagnosticView::OrphanSubsection {
                line: line as int,
                heading: heading@,
                expected: expected@,
            },
            Diagnostic::OrphanLink { line, url, expected } => DiagnosticView::OrphanLink {
                line: line as int,
                url: url@,
                expected: expected@,
            },
            Diagnostic::LinkTargetTypeMismatch {
                line,
                url,
                expected,
                actual,
            } => DiagnosticView::LinkTargetTypeMismatch {
                line: line as int,
                url: url@,
                expected: expected@,
                actual: option_text(actual),
            },
            Diagnostic::MissingBacklink {
                line,
                url,
                inverse_section,
            } => DiagnosticView::MissingBacklink {
                line: line as int,
                url: url@,
                inverse_section: inverse_section@,
            },
            Diagnostic::UnlinkedDocument {
                line,
                file,
                doc_type,
                section,
            } => DiagnosticView::UnlinkedDocument {
                line,
                file: file@,
                doc_type: doc_type@,
                section: section@,
            },
        }
    }
}

/// The content of a list of diagnostics.
pub open spec fn diagnostics_view(v: Seq<Diagnostic>) -> Seq<DiagnosticView> {
    v.map_values(|d: Diagnostic| d@)
}

/// The text of a diagnostic.
pub open spec fn message_text(d: DiagnosticView) -> Seq<char> {
    match d {
        DiagnosticView::MissingH1 { expected } => "missing H1 heading '"@ + expected + "'"@,
        DiagnosticView::H1Mismatch { expected, actual, .. } => {
            "H1 should be '"@ + expected + "', found '"@ + actual + "'"@
        },
        DiagnosticView::ManagedSectionNeedsUpdate { .. } => "managed section needs update"@,
        DiagnosticView::EntriesOutOfOrder { .. } => "entries are out of order"@,
        DiagnosticView::EmptyOptionalSection { .. } => "empty optional section"@,
        DiagnosticView::SectionNotBullets { context, .. } => {
            context + " must contain only bullet lists"@
        },
        DiagnosticView::WrongListType { context, expected, .. } => {
            context + " must use "@ + expected + " lists"@
        },
        DiagnosticView::SectionOutOfOrder { section, .. } => {
            "section '"@ + section + "' is out of order"@
        },
        DiagnosticView::SectionsOutOfOrder { .. } => "sections are out of order"@,
        DiagnosticView::MissingSection { section } => "missing section '"@ + section + "'"@,
        DiagnosticView::MissingFrontmatter => "missing frontmatter"@,
        DiagnosticView::MissingRequiredField { field } => {
            "missing required field '"@ + field + "'"@
        },
        DiagnosticView::InvalidFieldType { field, message, .. } => {
            "field '"@ + field + "' "@ + message
        },
        DiagnosticView::UnknownType { message, .. } => message,
        DiagnosticView::MalformedLink { url, .. } => "malformed link '"@ + url + "'"@,
        DiagnosticView::VacuousTemplate { owner, section, template } => {
            "type '"@ + owner + "', section '"@ + section + "': template '"@ + template + "' matches every list item"@
        },
        DiagnosticView::MissingSubsection { heading, container, .. } => {
            "missing subsection '"@ + heading + "' under '"@ + container + "'"@
        },
        DiagnosticView::MissingItemLink { item, section, .. } => {
            "no link to '"@ + item + "' in '"@ + section + "'"@
        },
        DiagnosticView::OrphanSubsection { heading, expected, .. } => {
            "subsection '"@ + heading + "' has no matching item in '"@ + expected + "'"@
        },
        DiagnosticView::OrphanLink { url, expected, .. } => {
            "link '"@ + url + "' has no matching value in '"@ + expected + "'"@
        },
        DiagnosticView::LinkTargetTypeMismatch { url, expected, .. } => {
            "link '"@ + url + "' must point at a document of type '"@ + expected + "'"@
        },
        DiagnosticView::MissingBacklink { url, inverse_section, .. } => {
            "target of '"@ + url + "' does not link back from '"@ + inverse_section + "'"@
        },
        DiagnosticView::UnlinkedDocument { file, doc_type, section, .. } => {
            "'"@ + file + "' is a "@ + doc_type + " document that '"@ + section + "' doesn't link"@
        },
    }
}

/// The source line of a diagnostic; `None` for one about the document as a
/// whole.
pub open spec fn diagnostic_line(d: DiagnosticView) -> Option<usize> {
    match d {
        DiagnosticView::H1Mismatch { line, .. } => {
            if line > 0 { Some(line as usize) } else { None }
        },
        DiagnosticView::SectionNotBullets { line, .. } => {
            if line > 0 { Some(line as usize) } else { None }
        },
        DiagnosticView::WrongListType { line, .. } => {
            if line > 0 { Some(line as usize) } else { None }
        },
        DiagnosticView::SectionOutOfOrder { line, .. } => {
            if line > 0 { Some(line as usize) } else { None }
        },
        DiagnosticView::UnknownType { line, .. } => {
            if line > 0 { Some(line as usize) } else { None }
        },
        DiagnosticView::MalformedLink { line, .. } => {
            if line > 0 { Some(line as usize) } else { None }
        },
        DiagnosticView::OrphanSubsection { line, .. } => {
            if line > 0 { Some(line as usize) } else { None }
        },
        DiagnosticView::OrphanLink { line, .. } => {
            if line > 0 { Some(line as usize) } else { None }
        },
        DiagnosticView::LinkTargetTypeMismatch { line, .. } => {
            if line > 0 { Some(line as usize) } else { None }
        },
        DiagnosticView::MissingBacklink { line, .. } => {
            if line > 0 { Some(line as usize) } else { None }
        },
        DiagnosticView::InvalidFieldType { line, .. } => line,
        DiagnosticView::MissingSubsection { line, .. } => line,
        DiagnosticView::MissingItemLink { line, .. } => line,
        DiagnosticView::UnlinkedDocument { line, .. } => line,
        _ => None,
    }
}

/// `Some(line)`, unless the line is 0.
fn known_line(line: usize) -> (r: Option<usize>)
    ensures
        r == (if line > 0 {
            Some(line)
        } else {
            None
        }),
{
    if line > 0 {
        Some(line)
    } else {
        None
    }
}

impl Diagnostic {
    /// The text of the diagnostic.
    pub fn message(&self) -> (r: String)
        ensures
            r@ == message_text(self@),
    {
        match self {
            Diagnostic::MissingH1 { expected } => {
                let mut out = String::from_str("missing H1 heading '");
                out.append(expected.as_str());
                out.append("'");
                out
            },
            Diagnostic::H1Mismatch { expected, actual, .. } => {
                let mut out = String::from_str("H1 should be '");
                out.append(expected.as_str());
                out.append("', found '");
                out.append(actual.as_str());
                out.append("'");
                out
            },
            Diagnostic::ManagedSectionNeedsUpdate { .. } => {
                String::from_str("managed section needs update")
            },
            Diagnostic::EntriesOutOfOrder { .. } => String::from_str("entries are out of order"),
            Diagnostic::EmptyOptionalSection { .. } => String::from_str("empty optional section"),
            Diagnostic::SectionNotBullets { context, .. } => {
                let mut out = context.clone();
                out.append(" must contain only bullet lists");
                out
            },
            Diagnostic::WrongListType { context, expected, .. } => {
                let mut out = context.clone();
                out.append(" must use ");
                out.append(expected.as_str());
                out.append(" lists");
                out
            },
            Diagnostic::SectionOutOfOrder { section, .. } => {
                let mut out = String::from_str("section '");
                out.append(section.as_str());
                out.append("' is out of order");
                out
            },
            Diagnostic::SectionsOutOfOrder { .. } => String::from_str("sections are out of order"),
            Diagnostic::MissingSection { section } => {
                let mut out = String::from_str("missing section '");
                out.append(section.as_str());
                out.append("'");
                out
            },
            Diagnostic::MissingFrontmatter => String::from_str("missing frontmatter"),
            Diagnostic::MissingRequiredField { field } => {
                let mut out = String::from_str("missing required field '");
                out.append(field.as_str());
                out.append("'");
                out
            },
            Diagnostic::InvalidFieldType { field, message, .. } => {
                let mut out = String::from_str("field '");
                out.append(field.as_str());
                out.append("' ");
                out.append(message.as_str());
                out
            },
            Diagnostic::UnknownType { message, .. } => message.clone(),
            Diagnostic::MalformedLink { url, .. } => {
                let mut out = String::from_str("malformed link '");
                out.append(url.as_str());
                out.append("'");
                out
            },
            Diagnostic::VacuousTemplate { owner, section, template } => {
                let mut out = String::from_str("type '");
                out.append(owner.as_str());
                out.append("', section '");
                out.append(section.as_str());
                out.append("': template '");
                out.append(template.as_str());
                out.append("' matches every list item");
                out
            },
            Diagnostic::MissingSubsection { heading, container, .. } => {
                let mut out = String::from_str("missing subsection '");
                out.append(heading.as_str());
                out.append("' under '");
                out.append(container.as_str());
                out.append("'");
                out
            },
            Diagnostic::MissingItemLink { item, section, .. } => {
                let mut out = String::from_str("no link to '");
                out.append(item.as_str());
                out.append("' in '");
                out.append(section.as_str());
                out.append("'");
                out
            },
            Diagnostic::OrphanSubsection { heading, expected, .. } => {
                let mut out = String::from_str("subsection '");
                out.append(heading.as_str());
                out.append("' has no matching item in '");
                out.append(expected.as_str());
                out.append("'");
                out
            },
            Diagnostic::OrphanLink { url, expected, .. } => {
                let mut out = String::from_str("link '");
                out.append(url.as_str());
                out.append("' has no matching value in '");
                out.append(expected.as_str());
                out.append("'");
                out
            },
            Diagnostic::LinkTargetTypeMismatch { url, expected, .. } => {
                let mut out = String::from_str("link '");
                out.append(url.as_str());
                out.append("' must point at a document of type '");
                out.append(expected.as_str());
                out.append("'");
                out
            },
            Diagnostic::MissingBacklink { url, inverse_section, .. } => {
                let mut out = String::from_str("target of '");
                out.append(url.as_str());
                out.append("' does not link back from '");
                out.append(inverse_section.as_str());
                out.append("'");
                out
            },
            Diagnostic::UnlinkedDocument { file, doc_type, section, .. } => {
                let mut out = String::from_str("'");
                out.append(file.as_str());
                out.append("' is a ");
                out.append(doc_type.as_str());
                out.append(" document that '");
                out.append(section.as_str());
                out.append("' doesn't link");
                out
            },
        }
    }

    /// The source line, `None` for a diagnostic about the document as a
    /// whole.
    pub fn line(&self) -> (r: Option<usize>)
        ensures
            r == diagnostic_line(self@),
    {
        match self {
            Diagnostic::H1Mismatch { line, .. } => known_line(*line),
            Diagnostic::SectionNotBullets { line, .. } => known_line(*line),
            Diagnostic::WrongListType { line, .. } => known_line(*line),
            Diagnostic::SectionOutOfOrder { line, .. } => known_line(*line),
            Diagnostic::UnknownType { line, .. } => known_line(*line),
            Diagnostic::MalformedLink { line, .. } => known_line(*line),
            Diagnostic::OrphanSubsection { line, .. } => known_line(*line),
            Diagnostic::OrphanLink { line, .. } => known_line(*line),
            Diagnostic::LinkTargetTypeMismatch { line, .. } => known_line(*line),
            Diagnostic::MissingBacklink { line, .. } => known_line(*line),
            Diagnostic::InvalidFieldType { line, .. } => *line,
            Diagnostic::MissingSubsection { line, .. } => *line,
            Diagnostic::MissingItemLink { line, .. } => *line,
            Diagnostic::UnlinkedDocument { line, .. } => *line,
            _ => None,
        }
    }
}

/// The texts that a diagnostic is about.
pub open spec fn subjects(d: DiagnosticView) -> Seq<Seq<char>> {
    match d {
        DiagnosticView::MissingH1 { expected } => seq![expected],
        DiagnosticView::H1Mismatch { expected, actual, .. } => seq![expected, actual],
        DiagnosticView::SectionNotBullets { context, .. } => seq![context],
        DiagnosticView::WrongListType { context, expected, .. } => seq![context, expected],
        DiagnosticView::SectionOutOfOrder { section, .. } => seq![section],
        DiagnosticView::MissingSection { section } => seq![section],
        DiagnosticView::MissingRequiredField { field } => seq![field],
        DiagnosticView::InvalidFieldType { field, message, .. } => seq![field, message],
        DiagnosticView::UnknownType { message, .. } => seq![message],
        DiagnosticView::MalformedLink { url, .. } => seq![url],
        DiagnosticView::VacuousTemplate { owner, section, template } => seq![
            owner,
            section,
            template,
        ],
        DiagnosticView::MissingSubsection { heading, container, .. } => seq![heading, container],
        DiagnosticView::MissingItemLink { item, section, .. } => seq![item, section],
        DiagnosticView::OrphanSubsection { heading, expected, .. } => seq![heading, expected],
        DiagnosticView::OrphanLink { url, expected, .. } => seq![url, expected],
        DiagnosticView::LinkTargetTypeMismatch { url, expected, .. } => seq![url, expected],
        DiagnosticView::MissingBacklink { url, inverse_section, .. } => seq![url, inverse_section],
        DiagnosticView::UnlinkedDocument { file, doc_type, section, .. } => seq![
            file,
            doc_type,
            section,
        ],
        _ => Seq::empty(),
    }
}

proof fn framed(a: Seq<char>, x: Seq<char>, b: Seq<char>)
    ensures
        has_part(a + x + b, x),
{
    let s = a + x + b;
    let n = a.len() as int;
    assert(s.subrange(n, n + x.len()) =~= x);
    assert(stands_at(s, x, n));
}

proof fn framed_twice(a: Seq<char>, x: Seq<char>, b: Seq<char>, y: Seq<char>, c: Seq<char>)
    ensures
        has_part(a + x + b + y + c, x),
        has_part(a + x + b + y + c, y),
{
    let s = a + x + b + y + c;
    framed(a, x, b + y + c);
    assert(s =~= a + x + (b + y + c));
    framed(a + x + b, y, c);
}

proof fn framed_thrice(
    a: Seq<char>,
    x: Seq<char>,
    b: Seq<char>,
    y: Seq<char>,
    c: Seq<char>,
    z: Seq<char>,
    d: Seq<char>,
)
    ensures
        has_part(a + x + b + y + c + z + d, x),
        has_part(a + x + b + y + c + z + d, y),
        has_part(a + x + b + y + c + z + d, z),
{
    let s = a + x + b + y + c + z + d;
    framed(a, x, b + y + c + z + d);
    assert(s =~= a + x + (b + y + c + z + d));
    framed(a + x + b, y, c + z + d);
    assert(s =~= a + x + b + y + (c + z + d));
    framed(a + x + b + y + c, z, d);
}

/// A message names everything that the diagnostic is about.
pub proof fn a_message_names_its_subjects(d: DiagnosticView, i: int)
    requires
        0 <= i < subjects(d).len(),
    ensures
        has_part(message_text(d), subjects(d)[i]),
{
    let none: Seq<char> = Seq::empty();
    match d {
        DiagnosticView::MissingH1 { expected } => {
            framed("missing H1 heading '"@, expected, "'"@);
        },
        DiagnosticView::H1Mismatch { expected, actual, .. } => {
            framed_twice("H1 should be '"@, expected, "', found '"@, actual, "'"@);
        },
        DiagnosticView::SectionNotBullets { context, .. } => {
            framed(none, context, " must contain only bullet lists"@);
            assert(none + context =~= context);
        },
        DiagnosticView::WrongListType { context, expected, .. } => {
            framed_twice(none, context, " must use "@, expected, " lists"@);
            assert(none + context =~= context);
        },
        DiagnosticView::SectionOutOfOrder { section, .. } => {
            framed("section '"@, section, "' is out of order"@);
        },
        DiagnosticView::MissingSection { section } => {
            framed("missing section '"@, section, "'"@);
        },
        DiagnosticView::MissingRequiredField { field } => {
            framed("missing required field '"@, field, "'"@);
        },
        DiagnosticView::InvalidFieldType { field, message, .. } => {
            framed_twice("field '"@, field, "' "@, message, none);
            assert("field '"@ + field + "' "@ + message + none =~= message_text(d));
        },
        DiagnosticView::UnknownType { message, .. } => {
            framed(none, message, none);
            assert(none + message + none =~= message);
        },
        DiagnosticView::MalformedLink { url, .. } => {
            framed("malformed link '"@, url, "'"@);
        },
        DiagnosticView::VacuousTemplate { owner, section, template } => {
            framed_thrice(
                "type '"@,
                owner,
                "', section '"@,
                section,
                "': template '"@,
                template,
                "' matches every list item"@,
            );
        },
        DiagnosticView::MissingSubsection { heading, container, .. } => {
            framed_twice("missing subsection '"@, heading, "' under '"@, container, "'"@);
        },
        DiagnosticView::MissingItemLink { item, section, .. } => {
            framed_twice("no link to '"@, item, "' in '"@, section, "'"@);
        },
        DiagnosticView::OrphanSubsection { heading, expected, .. } => {
            framed_twice(
                "subsection '"@,
                heading,
                "' has no matching item in '"@,
                expected,
                "'"@,
            );
        },
        DiagnosticView::OrphanLink { url, expected, .. } => {
            framed_twice("link '"@, url, "' has no matching value in '"@, expected, "'"@);
        },
        DiagnosticView::LinkTargetTypeMismatch { url, expected, .. } => {
            framed_twice(
                "link '"@,
                url,
                "' must point at a document of type '"@,
                expected,
                "'"@,
            );
        },
        DiagnosticView::MissingBacklink { url, inverse_section, .. } => {
            framed_twice(
                "target of '"@,
                url,
                "' does not link back from '"@,
                inverse_section,
                "'"@,
            );
        },
        DiagnosticView::UnlinkedDocument { file, doc_type, section, .. } => {
            framed_thrice(
                "'"@,
                file,
                "' is a "@,
                doc_type,
                " document that '"@,
                section,
                "' doesn't link"@,
            );
        },
        _ => {},
    }
}

/// The line of a diagnostic that has a place of its own is that place, and a
/// place of zero is none.
pub proof fn a_diagnostic_points_at_its_place(d: DiagnosticView, n: usize)
    ensures
        d is H1Mismatch && d->H1Mismatch_line == n || d is SectionNotBullets
            && d->SectionNotBullets_line == n || d is WrongListType && d->WrongListType_line == n
            || d is SectionOutOfOrder && d->SectionOutOfOrder_line == n || d is UnknownType
            && d->UnknownType_line == n || d is MalformedLink && d->MalformedLink_line == n
            || d is OrphanSubsection && d->OrphanSubsection_line == n || d is OrphanLink
            && d->OrphanLink_line == n || d is LinkTargetTypeMismatch
            && d->LinkTargetTypeMismatch_line == n || d is MissingBacklink
            && d->MissingBacklink_line == n ==> diagnostic_line(d) == (if n > 0 {
            Some(n)
        } else {
            None
        }),
        d is InvalidFieldType && d->InvalidFieldType_line == Some(n) || d is MissingSubsection
            && d->MissingSubsection_line == Some(n) || d is MissingItemLink
            && d->MissingItemLink_line == Some(n) || d is UnlinkedDocument
            && d->UnlinkedDocument_line == Some(n) ==> diagnostic_line(d) == Some(n),
{
}

} // verus!
