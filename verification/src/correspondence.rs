//! Checks of a document against the correspondence rules of its type.

use crate::ast::{
    blocks_view, inlines_text, inlines_to_string, key_line, lookup_fields, option_frontmatter,
    block_line, Block, BlockView, Document, DocumentView, Frontmatter, FrontmatterView,
    InlineView,
};
use crate::diagnostic::{diagnostics_view, Diagnostic, DiagnosticView};
use crate::fix::fixable;
use crate::links::{
    extract_links, find_linked, find_urls, link_target, linked_doc, linked_view, placed_links,
    placed_view, resolve_link_path, LinkedDocInfo, LinkedDocView, PlacedLink, PlacedLinkView,
};
use crate::ordered::lookup;
use crate::path::{
    holds_path, insert_sorted, joined_path, lies_in, normalize_path, normalized, parent_of,
    path_of, path_text, paths_view, relative_to, sorted_paths, sorted_paths_are_sorted, stem_of,
    FilePath, PathView,
};
use crate::rule::{
    get_member, item_path_text, member_of, member_text, rendered, scalar_text, scalar_to_string,
    section_text, section_titles, sections_view, CorrespondenceRule, DirScope, DirScopeView,
    HeadingTemplate, HeadingTemplateView, ItemPath, ItemPathView, Requirement, SectionRef,
    SectionRefView, Selector,
};
use crate::standing::{a_placed_link_stands_in_its_block, link_of, stands_in_block};
use crate::text::{copy_option, holds_text, joined, option_text, repeat, repeated, texts};
use crate::value::{copy_value, copy_values, untag, untagged, values_view, Yaml, YamlView};
use vstd::prelude::*;

verus! {

/// What a document's checks read besides the document.
pub struct ValidateCtx<'a> {
    /// Where the document stands.
    pub source_path: &'a FilePath,
    /// What is known of the documents around it.
    pub linked_docs: &'a Vec<LinkedDocInfo>,
}

// ── sections ──────────────────────────────────────────────────────────────

/// Whether a block is the heading of the section.
pub open spec fn heads(b: BlockView, sec: SectionRefView) -> bool {
    b matches BlockView::Heading { level, content, .. } && (level == sec.level && inlines_text(
        content,
    ) == sec.title)
}

/// The position of the first block at or behind `i` that heads the section.
pub open spec fn heading_at(s: Seq<BlockView>, sec: SectionRefView, i: int) -> Option<int>
    decreases s.len() - i,
{
    if i >= s.len() {
        None
    } else if heads(s[i], sec) {
        Some(i)
    } else {
        heading_at(s, sec, i + 1)
    }
}

/// Whether a block ends a section of the given level: a heading of that level
/// or above.
pub open spec fn ends_section(b: BlockView, level: u8) -> bool {
    b matches BlockView::Heading { level: l, .. } && l <= level
}

/// The position of the first block at or behind `i` that ends a section of
/// the given level; the end of the document where there is none.
pub open spec fn section_end(s: Seq<BlockView>, level: u8, i: int) -> int
    decreases s.len() - i,
{
    if i >= s.len() {
        s.len() as int
    } else if ends_section(s[i], level) {
        i
    } else {
        section_end(s, level, i + 1)
    }
}

/// The blocks of a section, as a range: all that follow its heading, up to
/// the next heading of its level or above.
pub open spec fn span_of(s: Seq<BlockView>, sec: SectionRefView) -> Option<(int, int)> {
    match heading_at(s, sec, 0) {
        Some(i) => Some((i + 1, section_end(s, sec.level, i + 1))),
        None => None,
    }
}

proof fn heading_at_found(s: Seq<BlockView>, sec: SectionRefView, i: int)
    requires
        0 <= i,
    ensures
        match heading_at(s, sec, i) {
            Some(h) => i <= h < s.len() && heads(s[h], sec) && forall|k: int|
                i <= k < h ==> !heads(#[trigger] s[k], sec),
            None => forall|k: int| i <= k < s.len() ==> !heads(#[trigger] s[k], sec),
        },
    decreases s.len() - i,
{
    if i < s.len() && !heads(s[i], sec) {
        heading_at_found(s, sec, i + 1);
    }
}

proof fn section_end_found(s: Seq<BlockView>, level: u8, i: int)
    requires
        0 <= i <= s.len(),
    ensures
        i <= section_end(s, level, i) <= s.len(),
        forall|k: int| i <= k < section_end(s, level, i) ==> !ends_section(#[trigger] s[k], level),
        section_end(s, level, i) < s.len() ==> ends_section(s[section_end(s, level, i)], level),
    decreases s.len() - i,
{
    if i < s.len() && !ends_section(s[i], level) {
        section_end_found(s, level, i + 1);
    }
}

/// A section starts behind the first heading that names it and reaches to the
/// next heading of its level or above, or to the end: no such heading stands
/// in it.
pub proof fn section_span_is_the_section(s: Seq<BlockView>, sec: SectionRefView)
    ensures
        match span_of(s, sec) {
            Some((from, to)) => {
                &&& 0 < from <= to <= s.len()
                &&& heads(s[from - 1], sec)
                &&& forall|k: int| 0 <= k < from - 1 ==> !heads(#[trigger] s[k], sec)
                &&& forall|k: int| from <= k < to ==> !ends_section(#[trigger] s[k], sec.level)
                &&& to < s.len() ==> ends_section(s[to], sec.level)
            },
            None => forall|k: int| 0 <= k < s.len() ==> !heads(#[trigger] s[k], sec),
        },
{
    heading_at_found(s, sec, 0);
    if let Some(i) = heading_at(s, sec, 0) {
        section_end_found(s, sec.level, i + 1);
    }
}

/// Whether a block is the heading of the section.
fn is_heading_of(b: &Block, sec: &SectionRef) -> (r: bool)
    ensures
        r == heads(b@, sec@),
{
    match b {
        Block::Heading { level, content, .. } => {
            *level == sec.level && inlines_to_string(content.as_slice()).as_str().eq(
                sec.title.as_str(),
            )
        },
        _ => false,
    }
}

/// The position of the heading of a section.
fn find_heading(blocks: &Vec<Block>, sec: &SectionRef) -> (r: Option<usize>)
    ensures
        match r {
            Some(i) => heading_at(blocks_view(blocks@), sec@, 0) == Some(i as int) && i
                < blocks.len(),
            None => heading_at(blocks_view(blocks@), sec@, 0) is None,
        },
{
    let ghost s = blocks_view(blocks@);
    let mut i: usize = 0;
    while i < blocks.len()
        invariant
            i <= blocks.len(),
            s == blocks_view(blocks@),
            heading_at(s, sec@, 0) == heading_at(s, sec@, i as int),
        decreases blocks.len() - i,
    {
        assert(s[i as int] == blocks@[i as int]@);
        if is_heading_of(&blocks[i], sec) {
            return Some(i);
        }
        i += 1;
    }
    None
}

/// The blocks of a section, as a range: all that follow its heading, up to
/// the next heading of its level or above.
pub fn section_span(blocks: &Vec<Block>, sec: &SectionRef) -> (r: Option<(usize, usize)>)
    ensures
        match r {
            Some((from, to)) => span_of(blocks_view(blocks@), sec@) == Some(
                (from as int, to as int),
            ) && from <= to <= blocks.len(),
            None => span_of(blocks_view(blocks@), sec@) is None,
        },
{
    let ghost s = blocks_view(blocks@);
    match find_heading(blocks, sec) {
        Some(start) => {
            let mut end: usize = start + 1;
            while end < blocks.len() && !closes(&blocks[end], sec.level)
                invariant
                    start < end <= blocks.len(),
                    s == blocks_view(blocks@),
                    section_end(s, sec.level, start + 1) == section_end(s, sec.level, end as int),
                decreases blocks.len() - end,
            {
                assert(s[end as int] == blocks@[end as int]@);
                end += 1;
            }
            assert(end < blocks.len() ==> s[end as int] == blocks@[end as int]@);
            Some((start + 1, end))
        },
        None => None,
    }
}

/// Whether a block ends a section of the given level.
fn closes(b: &Block, level: u8) -> (r: bool)
    ensures
        r == ends_section(b@, level),
{
    match b {
        Block::Heading { level: l, .. } => *l <= level,
        _ => false,
    }
}

/// The line of a section's own heading.
pub open spec fn section_line(s: Seq<BlockView>, sec: SectionRefView) -> Option<usize> {
    match heading_at(s, sec, 0) {
        Some(i) => match s[i] {
            BlockView::Heading { line, .. } => Some(line as usize),
            _ => None,
        },
        None => None,
    }
}

/// The source line of a section's own heading, when the document has it.
pub fn section_heading_line(blocks: &Vec<Block>, sec: &SectionRef) -> (r: Option<usize>)
    ensures
        r == section_line(blocks_view(blocks@), sec@),
{
    match find_heading(blocks, sec) {
        Some(i) => {
            assert(blocks_view(blocks@)[i as int] == blocks@[i as int]@);
            match &blocks[i] {
                Block::Heading { line, .. } => Some(*line),
                _ => None,
            }
        },
        None => None,
    }
}

/// The headings of exactly the given level in the blocks `from..to`: their
/// texts and lines.
pub open spec fn headings_in(s: Seq<BlockView>, from: int, to: int, level: int) -> Seq<
    (Seq<char>, int),
>
    decreases to - from,
{
    if to <= from {
        Seq::empty()
    } else {
        let before = headings_in(s, from, to - 1, level);
        match s[to - 1] {
            BlockView::Heading { level: l, content, line } => if l == level {
                before.push((inlines_text(content), line))
            } else {
                before
            },
            _ => before,
        }
    }
}

/// The content of headings with lines.
pub open spec fn placed_headings(v: Seq<(String, usize)>) -> Seq<(Seq<char>, int)> {
    v.map_values(|h: (String, usize)| (h.0@, h.1 as int))
}

/// The headings of exactly the given level in the blocks `from..to`: their
/// texts and lines.
pub fn headings_at(blocks: &Vec<Block>, from: usize, to: usize, level: u16) -> (r: Vec<
    (String, usize),
>)
    requires
        from <= to <= blocks.len(),
    ensures
        placed_headings(r@) == headings_in(
            blocks_view(blocks@),
            from as int,
            to as int,
            level as int,
        ),
{
    let ghost s = blocks_view(blocks@);
    let mut out: Vec<(String, usize)> = Vec::new();
    let mut i: usize = from;
    assert(placed_headings(out@) =~= headings_in(s, from as int, from as int, level as int));
    while i < to
        invariant
            from <= i <= to <= blocks.len(),
            s == blocks_view(blocks@),
            placed_headings(out@) == headings_in(s, from as int, i as int, level as int),
        decreases to - i,
    {
        assert(s[i as int] == blocks@[i as int]@);
        if let Block::Heading { level: l, content, line } = &blocks[i] {
            if *l as u16 == level {
                let ghost was = out@;
                out.push((inlines_to_string(content.as_slice()), *line));
                assert(placed_headings(out@) =~= placed_headings(was).push(
                    (out@[out@.len() - 1].0@, *line as int),
                ));
            }
        }
        i += 1;
    }
    out
}

// ── front matter values ───────────────────────────────────────────────────

/// The value of a front matter field; `type` gives the document's type.
pub open spec fn field_of(fm: FrontmatterView, key: Seq<char>) -> Option<YamlView> {
    match fm.doc_type {
        Some(t) => if key == "type"@ {
            Some(YamlView::Text(t))
        } else {
            lookup(fm.fields, key)
        },
        None => lookup(fm.fields, key),
    }
}

/// The content of an optional value.
pub open spec fn option_value(v: Option<Yaml>) -> Option<YamlView> {
    match v {
        Some(v) => Some(v@),
        None => None,
    }
}

impl Frontmatter {
    /// The value of a field; `type` gives the document's type.
    pub fn get(&self, key: &str) -> (r: Option<Yaml>)
        ensures
            option_value(r) == field_of(self@, key@),
    {
        if let Some(t) = &self.doc_type {
            if key.eq("type") {
                return Some(Yaml::Text(t.clone()));
            }
        }
        proof {
            lookup_fields(self.fields@, key@);
        }
        match self.fields.get(key) {
            Some(v) => Some(copy_value(v)),
            None => None,
        }
    }
}

/// The value below `v` at the given segments.
pub open spec fn value_below(v: YamlView, segments: Seq<Seq<char>>) -> Option<YamlView>
    decreases segments.len(),
{
    if segments.len() == 0 {
        Some(v)
    } else {
        match value_below(v, segments.drop_last()) {
            Some(inner) => member_of(inner, segments.last()),
            None => None,
        }
    }
}

proof fn value_below_stops(v: YamlView, segments: Seq<Seq<char>>, n: int)
    requires
        0 <= n <= segments.len(),
        value_below(v, segments.take(n)) is None,
    ensures
        value_below(v, segments) is None,
    decreases segments.len() - n,
{
    if n < segments.len() {
        assert(segments.take(n + 1).drop_last() =~= segments.take(n));
        value_below_stops(v, segments, n + 1);
    } else {
        assert(segments.take(n) =~= segments);
    }
}

/// The value below `v` at the segments `1..`.
fn get_below(v: Yaml, path: &Vec<String>) -> (r: Option<Yaml>)
    requires
        path.len() > 0,
    ensures
        option_value(r) == value_below(v@, texts(path@).skip(1)),
{
    let ghost segments = texts(path@).skip(1);
    let ghost root = v@;
    let mut current = v;
    let mut i: usize = 1;
    assert(segments.take(0) =~= Seq::empty());
    while i < path.len()
        invariant
            1 <= i <= path.len(),
            segments == texts(path@).skip(1),
            root == v@,
            value_below(root, segments.take(i - 1)) == Some(current@),
        decreases path.len() - i,
    {
        assert(segments.take(i as int).drop_last() =~= segments.take(i - 1));
        assert(segments.take(i as int).last() == path@[i as int]@);
        match get_member(&current, path[i].as_str()) {
            Some(inner) => {
                let next = copy_value(inner);
                current = next;
            },
            None => {
                proof {
                    value_below_stops(root, segments, i as int);
                }
                return None;
            },
        }
        i += 1;
    }
    assert(segments.take(segments.len() as int) =~= segments);
    Some(current)
}

/// The set that a path quantifies over: every item of its array, or the
/// single value that a scalar path names. `None` where the key is absent,
/// holds nothing, or has not the shape that the path claims.
pub open spec fn members_of(fm: FrontmatterView, path: ItemPathView) -> Option<Seq<YamlView>> {
    if path.path.len() == 0 {
        None
    } else {
        match field_of(fm, path.path[0]) {
            None => None,
            Some(root) => match value_below(root, path.path.skip(1)) {
                None => None,
                Some(v) => if path.is_array {
                    match untagged(v) {
                        YamlView::Sequence(items) => Some(items),
                        _ => None,
                    }
                } else if untagged(v) is Null {
                    None
                } else {
                    Some(seq![v])
                },
            },
        }
    }
}

/// The content of optional members.
pub open spec fn option_members(v: Option<Vec<Yaml>>) -> Option<Seq<YamlView>> {
    match v {
        Some(v) => Some(values_view(v@)),
        None => None,
    }
}

/// The set that a path quantifies over.
pub fn members_at(fm: &Frontmatter, path: &ItemPath) -> (r: Option<Vec<Yaml>>)
    ensures
        option_members(r) == members_of(fm@, path@),
{
    assert(texts(path.path@).len() == path.path@.len());
    if path.path.len() == 0 {
        return None;
    }
    match fm.get(path.path[0].as_str()) {
        None => None,
        Some(root) => match get_below(root, &path.path) {
            None => None,
            Some(v) => {
                let bare = untag(&v);
                if path.is_array {
                    match bare {
                        Yaml::Sequence(items) => Some(copy_values(items)),
                        _ => None,
                    }
                } else {
                    match bare {
                        Yaml::Null => None,
                        _ => {
                            let c = copy_value(&v);
                            let out = vec![c];
                            assert(values_view(out@) =~= seq![v@]);
                            Some(out)
                        },
                    }
                }
            },
        },
    }
}

/// The text that one member contributes: the field that the path names on
/// it, or the member itself.
pub open spec fn member_value_of(member: YamlView, field: Option<Seq<char>>) -> Option<Seq<char>> {
    match field {
        Some(f) => match member_of(member, f) {
            Some(v) => scalar_text(v),
            None => None,
        },
        None => scalar_text(member),
    }
}

/// The text that one member contributes; `None` where there is no scalar to
/// read.
pub fn member_value(member: &Yaml, field: &Option<String>) -> (r: Option<String>)
    ensures
        option_text(r) == member_value_of(member@, option_text(*field)),
{
    match field {
        Some(f) => match get_member(member, f.as_str()) {
            Some(v) => scalar_to_string(v),
            None => None,
        },
        None => scalar_to_string(member),
    }
}

/// The texts that members contribute, in order.
pub open spec fn values_of(members: Seq<YamlView>, field: Option<Seq<char>>) -> Seq<Seq<char>>
    decreases members.len(),
{
    if members.len() == 0 {
        Seq::empty()
    } else {
        match member_value_of(members.last(), field) {
            Some(t) => values_of(members.drop_last(), field).push(t),
            None => values_of(members.drop_last(), field),
        }
    }
}

/// The scalar values that a path selects.
pub open spec fn item_texts(fm: Option<FrontmatterView>, path: ItemPathView) -> Seq<Seq<char>> {
    match fm {
        Some(fm) => match members_of(fm, path) {
            Some(members) => values_of(members, path.field),
            None => Seq::empty(),
        },
        None => Seq::empty(),
    }
}

/// The scalar values that a path selects across every member.
pub fn item_values(fm: &Option<Frontmatter>, path: &ItemPath) -> (r: Vec<String>)
    ensures
        texts(r@) == item_texts(option_frontmatter(*fm), path@),
{
    let mut out: Vec<String> = Vec::new();
    assert(texts(out@) =~= Seq::empty());
    match fm {
        None => out,
        Some(fm) => match members_at(fm, path) {
            None => out,
            Some(members) => {
                let ghost all = values_view(members@);
                let mut i: usize = 0;
                assert(all.take(0) =~= Seq::empty());
                while i < members.len()
                    invariant
                        i <= members.len(),
                        all == values_view(members@),
                        texts(out@) == values_of(all.take(i as int), path@.field),
                    decreases members.len() - i,
                {
                    assert(all.take(i + 1).drop_last() =~= all.take(i as int));
                    assert(all.take(i + 1).last() == members@[i as int]@);
                    if let Some(t) = member_value(&members[i], &path.field) {
                        let ghost was = out@;
                        out.push(t);
                        assert(texts(out@) =~= texts(was).push(t@));
                    }
                    i += 1;
                }
                assert(all.take(all.len() as int) =~= all);
                out
            },
        },
    }
}

// ── data to prose: subsections ────────────────────────────────────────────

/// The heading line of the given level with the given text.
pub open spec fn heading_line(level: nat, text: Seq<char>) -> Seq<char> {
    repeated("#"@, level) + " "@ + text
}

/// The source line of what a path leads to: that of its outermost key, as
/// only keys at the top of front matter have one.
pub open spec fn anchor_line(fm: FrontmatterView, path: ItemPathView) -> Option<usize> {
    key_line(
        fm,
        if path.path.len() > 0 {
            path.path[0]
        } else {
            Seq::empty()
        },
    )
}

fn find_anchor(fm: &Frontmatter, path: &ItemPath) -> (r: Option<usize>)
    ensures
        r == anchor_line(fm@, path@),
{
    if path.path.len() > 0 {
        assert(path@.path[0] == path.path@[0]@);
        fm.line_of(path.path[0].as_str())
    } else {
        let none = String::new();
        assert(none@ =~= Seq::empty());
        fm.line_of(none.as_str())
    }
}

/// What is missing for one item of a front matter array: its subsection, or
/// a scalar for the heading that the subsection would carry.
pub open spec fn item_problem(
    item: YamlView,
    idx: nat,
    path: ItemPathView,
    container: SectionRefView,
    heading: HeadingTemplateView,
    present: Seq<(Seq<char>, int)>,
    line: Option<usize>,
) -> Option<DiagnosticView> {
    match rendered(heading.parts, item) {
        Ok(text) => if has_heading(present, text) {
            None
        } else {
            Some(
                DiagnosticView::MissingSubsection {
                    line,
                    heading: heading_line(heading.level as nat, text),
                    container: section_text(container),
                },
            )
        },
        Err(placeholder) => Some(
            DiagnosticView::InvalidFieldType {
                line,
                field: member_text(path, idx),
                message: "has no scalar '"@ + placeholder + "', so the '"@ + heading.written
                    + "' heading it requires can't be derived"@,
            },
        ),
    }
}

/// Whether some heading has the text.
pub open spec fn has_heading(present: Seq<(Seq<char>, int)>, text: Seq<char>) -> bool {
    exists|i: int| 0 <= i < present.len() && (#[trigger] present[i]).0 == text
}

fn holds_heading(present: &Vec<(String, usize)>, text: &str) -> (r: bool)
    ensures
        r == has_heading(placed_headings(present@), text@),
{
    let ghost all = placed_headings(present@);
    let mut i: usize = 0;
    while i < present.len()
        invariant
            i <= present.len(),
            all == placed_headings(present@),
            forall|k: int| 0 <= k < i ==> (#[trigger] all[k]).0 != text@,
        decreases present.len() - i,
    {
        assert(all[i as int].0 == present@[i as int].0@);
        if present[i].0.as_str().eq(text) {
            return true;
        }
        i += 1;
    }
    false
}

/// What is missing for the items of a front matter array.
pub open spec fn items_problems(
    items: Seq<YamlView>,
    path: ItemPathView,
    container: SectionRefView,
    heading: HeadingTemplateView,
    present: Seq<(Seq<char>, int)>,
    line: Option<usize>,
) -> Seq<DiagnosticView>
    decreases items.len(),
{
    if items.len() == 0 {
        Seq::empty()
    } else {
        let before = items_problems(items.drop_last(), path, container, heading, present, line);
        match item_problem(
            items.last(),
            (items.len() - 1) as nat,
            path,
            container,
            heading,
            present,
            line,
        ) {
            Some(d) => before.push(d),
            None => before,
        }
    }
}

/// What a rule that asks for a subsection per front matter item finds. A
/// missing container is one problem, not one per item.
pub open spec fn subsections_missing(
    doc: DocumentView,
    path: ItemPathView,
    container: SectionRefView,
    heading: HeadingTemplateView,
) -> Seq<DiagnosticView> {
    match doc.frontmatter {
        None => Seq::empty(),
        Some(fm) => match members_of(fm, path) {
            None => Seq::empty(),
            Some(items) => if items.len() == 0 {
                Seq::empty()
            } else {
                match span_of(doc.blocks, container) {
                    None => seq![DiagnosticView::MissingSection { section: container.title }],
                    Some((from, to)) => items_problems(
                        items,
                        path,
                        container,
                        heading,
                        headings_in(doc.blocks, from, to, heading.level as int),
                        anchor_line(fm, path),
                    ),
                }
            },
        },
    }
}

/// A heading line.
fn write_heading(level: usize, text: &str) -> (r: String)
    ensures
        r@ == heading_line(level as nat, text@),
{
    let mut out = repeat("#", level);
    out.append(" ");
    out.append(text);
    out
}

/// A list with one more diagnostic.
fn report(out: &mut Vec<Diagnostic>, d: Diagnostic)
    ensures
        diagnostics_view(final(out)@) == diagnostics_view(old(out)@).push(d@),
{
    let ghost was = out@;
    out.push(d);
    assert(diagnostics_view(out@) =~= diagnostics_view(was).push(d@));
}

/// Data to prose: every item of a front matter array needs its subsection.
fn items_need_subsections(
    doc: &Document,
    path: &ItemPath,
    container: &SectionRef,
    heading: &HeadingTemplate,
) -> (r: Vec<Diagnostic>)
    ensures
        diagnostics_view(r@) == subsections_missing(doc@, path@, container@, heading@),
{
    let mut out: Vec<Diagnostic> = Vec::new();
    assert(diagnostics_view(out@) =~= Seq::empty());
    let fm = match &doc.frontmatter {
        Some(fm) => fm,
        None => {
            return out;
        },
    };
    let items = match members_at(fm, path) {
        Some(items) => items,
        None => {
            return out;
        },
    };
    let ghost all = values_view(items@);
    assert(all.len() == items@.len());
    if items.len() == 0 {
        return out;
    }
    let (from, to) = match section_span(&doc.blocks, container) {
        Some(span) => span,
        None => {
            report(&mut out, Diagnostic::MissingSection { section: container.title.clone() });
            assert(diagnostics_view(out@) =~= seq![
                DiagnosticView::MissingSection { section: container.title@ },
            ]);
            return out;
        },
    };
    let line = find_anchor(fm, path);
    let level = heading.heading_level();
    let present = headings_at(&doc.blocks, from, to, level as u16);
    let ghost ps = placed_headings(present@);
    let mut i: usize = 0;
    assert(all.take(0) =~= Seq::empty());
    while i < items.len()
        invariant
            i <= items.len(),
            all == values_view(items@),
            ps == placed_headings(present@),
            level == heading@.level,
            line == anchor_line(fm@, path@),
            diagnostics_view(out@) == items_problems(
                all.take(i as int),
                path@,
                container@,
                heading@,
                ps,
                line,
            ),
        decreases items.len() - i,
    {
        assert(all.take(i + 1).drop_last() =~= all.take(i as int));
        assert(all.take(i + 1).last() == items@[i as int]@);
        match heading.render(&items[i]) {
            Ok(text) => {
                if !holds_heading(&present, text.as_str()) {
                    let d = Diagnostic::MissingSubsection {
                        line,
                        heading: write_heading(level as usize, text.as_str()),
                        container: container.to_text(),
                    };
                    report(&mut out, d);
                }
            },
            Err(placeholder) => {
                let mut message = String::from_str("has no scalar '");
                message.append(placeholder.as_str());
                message.append("', so the '");
                message.append(heading.as_written());
                message.append("' heading it requires can't be derived");
                report(
                    &mut out,
                    Diagnostic::InvalidFieldType { line, field: path.member_name(i), message },
                );
            },
        }
        i += 1;
    }
    assert(all.take(all.len() as int) =~= all);
    out
}

// ── data to prose: links ──────────────────────────────────────────────────

/// How a link and a front matter value are matched: the stem of the target's
/// file name.
pub fn link_identity(target: &FilePath) -> (r: Option<String>)
    ensures
        option_text(r) == stem_of(target@),
{
    target.file_stem()
}

/// The type of the document at `path`.
pub open spec fn type_at(docs: Seq<LinkedDocView>, path: PathView) -> Option<Seq<char>> {
    match linked_doc(docs, path) {
        Some(d) => d.doc_type,
        None => None,
    }
}

/// The type of the document at `path`.
fn find_type(docs: &Vec<LinkedDocInfo>, path: &FilePath) -> (r: Option<String>)
    ensures
        option_text(r) == type_at(linked_view(docs@), path@),
{
    match find_linked(docs, path) {
        Some(d) => copy_option(&d.doc_type),
        None => None,
    }
}

/// Whether the document at `path` has the wanted type, where one is wanted.
pub open spec fn is_of_type(docs: Seq<LinkedDocView>, path: PathView, wanted: Option<Seq<char>>) -> bool {
    wanted is Some ==> type_at(docs, path) == wanted
}

fn of_type(docs: &Vec<LinkedDocInfo>, path: &FilePath, wanted: &Option<String>) -> (r: bool)
    ensures
        r == is_of_type(linked_view(docs@), path@, option_text(*wanted)),
{
    match wanted {
        Some(t) => match find_type(docs, path) {
            Some(actual) => actual.as_str().eq(t.as_str()),
            None => false,
        },
        None => true,
    }
}

/// The values that links answer: the file stems of those targets that have
/// the wanted type.
pub open spec fn answered_values(
    links: Seq<PlacedLinkView>,
    source: PathView,
    docs: Seq<LinkedDocView>,
    wanted: Option<Seq<char>>,
) -> Seq<Seq<char>>
    decreases links.len(),
{
    if links.len() == 0 {
        Seq::empty()
    } else {
        let before = answered_values(links.drop_last(), source, docs, wanted);
        match link_target(links.last().url, source) {
            Some(target) => match stem_of(target) {
                Some(name) => if is_of_type(docs, target, wanted) {
                    before.push(name)
                } else {
                    before
                },
                None => before,
            },
            None => before,
        }
    }
}

fn find_answered(
    links: &Vec<PlacedLink>,
    ctx: &ValidateCtx,
    wanted: &Option<String>,
) -> (r: Vec<String>)
    ensures
        texts(r@) == answered_values(
            placed_view(links@),
            ctx.source_path@,
            linked_view(ctx.linked_docs@),
            option_text(*wanted),
        ),
{
    let ghost all = placed_view(links@);
    let ghost docs = linked_view(ctx.linked_docs@);
    let mut out: Vec<String> = Vec::new();
    let mut i: usize = 0;
    assert(texts(out@) =~= answered_values(
        all.take(0),
        ctx.source_path@,
        docs,
        option_text(*wanted),
    ));
    while i < links.len()
        invariant
            i <= links.len(),
            all == placed_view(links@),
            docs == linked_view(ctx.linked_docs@),
            texts(out@) == answered_values(
                all.take(i as int),
                ctx.source_path@,
                docs,
                option_text(*wanted),
            ),
        decreases links.len() - i,
    {
        assert(all.take(i + 1).drop_last() =~= all.take(i as int));
        assert(all.take(i + 1).last() == links@[i as int]@);
        if let Some(target) = resolve_link_path(links[i].url.as_str(), ctx.source_path) {
            if of_type(ctx.linked_docs, &target, wanted) {
                if let Some(name) = link_identity(&target) {
                    let ghost was = out@;
                    out.push(name);
                    assert(texts(out@) =~= texts(was).push(name@));
                }
            }
        }
        i += 1;
    }
    assert(all.take(all.len() as int) =~= all);
    out
}

/// What is missing for one front matter value: its link, or a scalar that
/// would name the link.
pub open spec fn value_problem(
    member: YamlView,
    idx: nat,
    path: ItemPathView,
    section: SectionRefView,
    wanted: Option<Seq<char>>,
    linked: Seq<Seq<char>>,
    line: Option<usize>,
) -> Option<DiagnosticView> {
    match member_value_of(member, path.field) {
        None => Some(
            DiagnosticView::InvalidFieldType {
                line,
                field: member_text(path, idx),
                message: match path.field {
                    Some(field) => "has no scalar '"@ + field + "', so the link '"@ + section_text(
                        section,
                    ) + "' requires can't be named"@,
                    None => "is not a scalar, so the link '"@ + section_text(section)
                        + "' requires can't be named"@,
                },
            },
        ),
        Some(value) => if linked.contains(value) {
            None
        } else {
            Some(
                DiagnosticView::MissingItemLink {
                    line,
                    item: value,
                    section: section_text(section),
                    target_type: wanted,
                },
            )
        },
    }
}

/// What is missing for front matter values.
pub open spec fn values_problems(
    members: Seq<YamlView>,
    path: ItemPathView,
    section: SectionRefView,
    wanted: Option<Seq<char>>,
    linked: Seq<Seq<char>>,
    line: Option<usize>,
) -> Seq<DiagnosticView>
    decreases members.len(),
{
    if members.len() == 0 {
        Seq::empty()
    } else {
        let before = values_problems(members.drop_last(), path, section, wanted, linked, line);
        match value_problem(
            members.last(),
            (members.len() - 1) as nat,
            path,
            section,
            wanted,
            linked,
            line,
        ) {
            Some(d) => before.push(d),
            None => before,
        }
    }
}

/// What a rule that asks for a link per front matter value finds. A missing
/// section is one problem, not one per value.
pub open spec fn item_links_missing(
    doc: DocumentView,
    path: ItemPathView,
    section: SectionRefView,
    wanted: Option<Seq<char>>,
    source: PathView,
    docs: Seq<LinkedDocView>,
) -> Seq<DiagnosticView> {
    match doc.frontmatter {
        None => Seq::empty(),
        Some(fm) => match members_of(fm, path) {
            None => Seq::empty(),
            Some(members) => if members.len() == 0 {
                Seq::empty()
            } else {
                match span_of(doc.blocks, section) {
                    None => seq![DiagnosticView::MissingSection { section: section.title }],
                    Some((from, to)) => values_problems(
                        members,
                        path,
                        section,
                        wanted,
                        answered_values(placed_links(doc.blocks, from, to), source, docs, wanted),
                        anchor_line(fm, path),
                    ),
                }
            },
        },
    }
}

/// Data to prose: every front matter value needs a link answering it.
fn items_need_links(
    doc: &Document,
    path: &ItemPath,
    section: &SectionRef,
    wanted: &Option<String>,
    ctx: &ValidateCtx,
) -> (r: Vec<Diagnostic>)
    ensures
        diagnostics_view(r@) == item_links_missing(
            doc@,
            path@,
            section@,
            option_text(*wanted),
            ctx.source_path@,
            linked_view(ctx.linked_docs@),
        ),
{
    let mut out: Vec<Diagnostic> = Vec::new();
    assert(diagnostics_view(out@) =~= Seq::empty());
    let fm = match &doc.frontmatter {
        Some(fm) => fm,
        None => {
            return out;
        },
    };
    let members = match members_at(fm, path) {
        Some(members) => members,
        None => {
            return out;
        },
    };
    let ghost all = values_view(members@);
    assert(all.len() == members@.len());
    if members.len() == 0 {
        return out;
    }
    let (from, to) = match section_span(&doc.blocks, section) {
        Some(span) => span,
        None => {
            report(&mut out, Diagnostic::MissingSection { section: section.title.clone() });
            assert(diagnostics_view(out@) =~= seq![
                DiagnosticView::MissingSection { section: section.title@ },
            ]);
            return out;
        },
    };
    let line = find_anchor(fm, path);
    let links = extract_links(&doc.blocks, from, to);
    let linked = find_answered(&links, ctx, wanted);
    let ghost ls = texts(linked@);
    let mut i: usize = 0;
    assert(all.take(0) =~= Seq::empty());
    while i < members.len()
        invariant
            i <= members.len(),
            all == values_view(members@),
            ls == texts(linked@),
            line == anchor_line(fm@, path@),
            diagnostics_view(out@) == values_problems(
                all.take(i as int),
                path@,
                section@,
                option_text(*wanted),
                ls,
                line,
            ),
        decreases members.len() - i,
    {
        assert(all.take(i + 1).drop_last() =~= all.take(i as int));
        assert(all.take(i + 1).last() == members@[i as int]@);
        match member_value(&members[i], &path.field) {
            None => {
                let mut message = match &path.field {
                    Some(field) => {
                        let mut m = String::from_str("has no scalar '");
                        m.append(field.as_str());
                        m.append("', so the link '");
                        m
                    },
                    None => String::from_str("is not a scalar, so the link '"),
                };
                let name = section.to_text();
                message.append(name.as_str());
                message.append("' requires can't be named");
                report(
                    &mut out,
                    Diagnostic::InvalidFieldType { line, field: path.member_name(i), message },
                );
            },
            Some(value) => {
                if !holds_text(&linked, value.as_str()) {
                    let d = Diagnostic::MissingItemLink {
                        line,
                        item: value,
                        section: section.to_text(),
                        target_type: copy_option(wanted),
                    };
                    report(&mut out, d);
                }
            },
        }
        i += 1;
    }
    assert(all.take(all.len() as int) =~= all);
    out
}

// ── prose to data ─────────────────────────────────────────────────────────

/// The headings that no value answers.
pub open spec fn orphans(
    headings: Seq<(Seq<char>, int)>,
    level: nat,
    values: Seq<Seq<char>>,
    path: ItemPathView,
) -> Seq<DiagnosticView>
    decreases headings.len(),
{
    if headings.len() == 0 {
        Seq::empty()
    } else {
        let before = orphans(headings.drop_last(), level, values, path);
        let (text, line) = headings.last();
        if values.contains(text) {
            before
        } else {
            before.push(
                DiagnosticView::OrphanSubsection {
                    line,
                    heading: heading_line(level, text),
                    expected: item_path_text(path),
                },
            )
        }
    }
}

/// What a rule that asks for a front matter item per subsection finds.
/// Without the section there is nothing to ask.
pub open spec fn orphan_subsections(
    doc: DocumentView,
    container: SectionRefView,
    path: ItemPathView,
) -> Seq<DiagnosticView> {
    match span_of(doc.blocks, container) {
        None => Seq::empty(),
        Some((from, to)) => orphans(
            headings_in(doc.blocks, from, to, container.level + 1),
            (container.level + 1) as nat,
            item_texts(doc.frontmatter, path),
            path,
        ),
    }
}

/// Prose to data: every subsection needs a front matter item behind it.
fn subsections_need_items(doc: &Document, container: &SectionRef, path: &ItemPath) -> (r: Vec<
    Diagnostic,
>)
    ensures
        diagnostics_view(r@) == orphan_subsections(doc@, container@, path@),
{
    let mut out: Vec<Diagnostic> = Vec::new();
    assert(diagnostics_view(out@) =~= Seq::empty());
    let (from, to) = match section_span(&doc.blocks, container) {
        Some(span) => span,
        None => {
            return out;
        },
    };
    let values = item_values(&doc.frontmatter, path);
    let level: u16 = container.level as u16 + 1;
    let headings = headings_at(&doc.blocks, from, to, level);
    let ghost all = placed_headings(headings@);
    let ghost vs = texts(values@);
    let mut i: usize = 0;
    assert(all.take(0) =~= Seq::empty());
    while i < headings.len()
        invariant
            i <= headings.len(),
            all == placed_headings(headings@),
            vs == texts(values@),
            diagnostics_view(out@) == orphans(all.take(i as int), level as nat, vs, path@),
        decreases headings.len() - i,
    {
        assert(all.take(i + 1).drop_last() =~= all.take(i as int));
        assert(all.take(i + 1).last() == (headings@[i as int].0@, headings@[i as int].1 as int));
        if !holds_text(&values, headings[i].0.as_str()) {
            let d = Diagnostic::OrphanSubsection {
                line: headings[i].1,
                heading: write_heading(level as usize, headings[i].0.as_str()),
                expected: path.to_text(),
            };
            report(&mut out, d);
        }
        i += 1;
    }
    assert(all.take(all.len() as int) =~= all);
    out
}

// ── prose to prose ────────────────────────────────────────────────────────

/// Whether one of the URLs, in the document at `from`, points at `to`.
pub open spec fn links_to(urls: Seq<Seq<char>>, from: PathView, to: PathView) -> bool {
    exists|i: int| 0 <= i < urls.len() && link_target(#[trigger] urls[i], from) == Some(to)
}

/// Whether a document links to `to` from a section of the given title.
pub open spec fn links_from_section(linked: LinkedDocView, title: Seq<char>, to: PathView) -> bool {
    match lookup(linked.section_links, title) {
        Some(urls) => links_to(urls, linked.path, to),
        None => false,
    }
}

/// Whether a document links back to `to` from one of the sections.
pub open spec fn links_back(
    linked: LinkedDocView,
    sections: Seq<SectionRefView>,
    to: PathView,
) -> bool {
    exists|i: int|
        0 <= i < sections.len() && links_from_section(linked, (#[trigger] sections[i]).title, to)
}

fn holds_link_to(urls: &Vec<String>, from: &FilePath, to: &FilePath) -> (r: bool)
    ensures
        r == links_to(texts(urls@), from@, to@),
{
    let ghost all = texts(urls@);
    let mut i: usize = 0;
    while i < urls.len()
        invariant
            i <= urls.len(),
            all == texts(urls@),
            forall|k: int| 0 <= k < i ==> link_target(#[trigger] all[k], from@) != Some(to@),
        decreases urls.len() - i,
    {
        assert(all[i as int] == urls@[i as int]@);
        if let Some(p) = resolve_link_path(urls[i].as_str(), from) {
            if p.same(to) {
                return true;
            }
        }
        i += 1;
    }
    false
}

fn has_backlink(linked: &LinkedDocInfo, sections: &Vec<SectionRef>, to: &FilePath) -> (r: bool)
    ensures
        r == links_back(linked@, sections_view(sections@), to@),
{
    let ghost all = sections_view(sections@);
    let mut i: usize = 0;
    while i < sections.len()
        invariant
            i <= sections.len(),
            all == sections_view(sections@),
            forall|k: int|
                0 <= k < i ==> !links_from_section(linked@, (#[trigger] all[k]).title, to@),
        decreases sections.len() - i,
    {
        assert(all[i as int] == sections@[i as int]@);
        if let Some(urls) = find_urls(&linked.section_links, sections[i].title.as_str()) {
            if holds_link_to(urls, &linked.path, to) {
                return true;
            }
        }
        i += 1;
    }
    false
}

/// What a rule asks of a link.
pub struct LinkDemand {
    pub target_type: Option<Seq<char>>,
    pub backlink_in: Option<Seq<SectionRefView>>,
    pub frontmatter_item: Option<ItemPathView>,
}

/// What a requirement asks of a link.
pub open spec fn demand_of(req: Requirement) -> LinkDemand {
    LinkDemand {
        target_type: option_text(req.target_type),
        backlink_in: match req.backlink_in {
            Some(s) => Some(sections_view(s.0@)),
            None => None,
        },
        frontmatter_item: match req.frontmatter_item {
            Some(p) => Some(p@),
            None => None,
        },
    }
}

/// The diagnostic for a target that does not link back. A document of which
/// nothing is known is not asked.
pub open spec fn backlink_problem(
    link: PlacedLinkView,
    linked: Option<LinkedDocView>,
    demand: LinkDemand,
    source: PathView,
) -> Seq<DiagnosticView> {
    match (demand.backlink_in, linked) {
        (Some(sections), Some(d)) => if links_back(d, sections, normalized(source)) {
            Seq::empty()
        } else {
            seq![
                DiagnosticView::MissingBacklink {
                    line: link.line,
                    url: link.url,
                    inverse_section: joined(section_titles(sections), "' or '"@),
                },
            ]
        },
        _ => Seq::empty(),
    }
}

/// The diagnostic for a target that front matter does not name.
pub open spec fn naming_problem(
    link: PlacedLinkView,
    target: PathView,
    demand: LinkDemand,
    named: Seq<Seq<char>>,
) -> Seq<DiagnosticView> {
    match (demand.frontmatter_item, stem_of(target)) {
        (Some(path), Some(name)) => if named.contains(name) {
            Seq::empty()
        } else {
            seq![
                DiagnosticView::OrphanLink {
                    line: link.line,
                    url: link.url,
                    expected: item_path_text(path),
                },
            ]
        },
        _ => Seq::empty(),
    }
}

/// What is wrong with one link of a section. A target of the wrong type is
/// not asked for more; nor is one of which nothing is known, where a
/// backlink is asked for.
pub open spec fn link_problems(
    link: PlacedLinkView,
    demand: LinkDemand,
    named: Seq<Seq<char>>,
    source: PathView,
    docs: Seq<LinkedDocView>,
) -> Seq<DiagnosticView> {
    match link_target(link.url, source) {
        None => Seq::empty(),
        Some(target) => {
            let linked = linked_doc(docs, target);
            if demand.target_type is Some && type_at(docs, target) != demand.target_type {
                seq![
                    DiagnosticView::LinkTargetTypeMismatch {
                        line: link.line,
                        url: link.url,
                        expected: demand.target_type->Some_0,
                        actual: type_at(docs, target),
                    },
                ]
            } else if demand.backlink_in is Some && linked is None {
                Seq::empty()
            } else {
                backlink_problem(link, linked, demand, source) + naming_problem(
                    link,
                    target,
                    demand,
                    named,
                )
            }
        },
    }
}

/// What is wrong with links of a section.
pub open spec fn links_problems_in(
    links: Seq<PlacedLinkView>,
    demand: LinkDemand,
    named: Seq<Seq<char>>,
    source: PathView,
    docs: Seq<LinkedDocView>,
) -> Seq<DiagnosticView>
    decreases links.len(),
{
    if links.len() == 0 {
        Seq::empty()
    } else {
        links_problems_in(links.drop_last(), demand, named, source, docs) + link_problems(
            links.last(),
            demand,
            named,
            source,
            docs,
        )
    }
}

/// The values that front matter names for a demand.
pub open spec fn named_values(doc: DocumentView, demand: LinkDemand) -> Seq<Seq<char>> {
    match demand.frontmatter_item {
        Some(path) => item_texts(doc.frontmatter, path),
        None => Seq::empty(),
    }
}

/// What a rule on the links of a section finds.
pub open spec fn section_links_problems(
    doc: DocumentView,
    section: SectionRefView,
    demand: LinkDemand,
    source: PathView,
    docs: Seq<LinkedDocView>,
) -> Seq<DiagnosticView> {
    match span_of(doc.blocks, section) {
        None => Seq::empty(),
        Some((from, to)) => links_problems_in(
            placed_links(doc.blocks, from, to),
            demand,
            named_values(doc, demand),
            source,
            docs,
        ),
    }
}

/// Prose to prose, and prose to data: links in a section point at the right
/// type, are answered by a backlink, and are named by front matter.
fn links_need_targets(
    doc: &Document,
    section: &SectionRef,
    req: &Requirement,
    ctx: &ValidateCtx,
) -> (r: Vec<Diagnostic>)
    ensures
        diagnostics_view(r@) == section_links_problems(
            doc@,
            section@,
            demand_of(*req),
            ctx.source_path@,
            linked_view(ctx.linked_docs@),
        ),
{
    let mut out: Vec<Diagnostic> = Vec::new();
    assert(diagnostics_view(out@) =~= Seq::empty());
    let (from, to) = match section_span(&doc.blocks, section) {
        Some(span) => span,
        None => {
            return out;
        },
    };
    let source_abs = normalize_path(ctx.source_path);
    let named = match &req.frontmatter_item {
        Some(path) => item_values(&doc.frontmatter, path),
        None => {
            let none: Vec<String> = Vec::new();
            assert(texts(none@) =~= Seq::empty());
            none
        },
    };
    let ghost ns = texts(named@);
    let ghost demand = demand_of(*req);
    let ghost docs = linked_view(ctx.linked_docs@);
    let links = extract_links(&doc.blocks, from, to);
    let ghost all = placed_view(links@);
    let mut i: usize = 0;
    assert(all.take(0) =~= Seq::empty());
    while i < links.len()
        invariant
            i <= links.len(),
            all == placed_view(links@),
            ns == texts(named@),
            demand == demand_of(*req),
            docs == linked_view(ctx.linked_docs@),
            source_abs@ == normalized(ctx.source_path@),
            diagnostics_view(out@) == links_problems_in(
                all.take(i as int),
                demand,
                ns,
                ctx.source_path@,
                docs,
            ),
        decreases links.len() - i,
    {
        let ghost was = diagnostics_view(out@);
        let ghost link = all[i as int];
        assert(all.take(i + 1).drop_last() =~= all.take(i as int));
        assert(all.take(i + 1).last() == links@[i as int]@);
        let line = links[i].line;
        let target = resolve_link_path(links[i].url.as_str(), ctx.source_path);
        i += 1;
        let target = match target {
            Some(target) => target,
            None => {
                assert(was + Seq::<DiagnosticView>::empty() =~= was);
                continue;
            },
        };
        let linked = find_linked(ctx.linked_docs, &target);
        if let Some(expected) = &req.target_type {
            let actual = match linked {
                Some(d) => copy_option(&d.doc_type),
                None => None,
            };
            let same = match &actual {
                Some(a) => a.as_str().eq(expected.as_str()),
                None => false,
            };
            if !same {
                let d = Diagnostic::LinkTargetTypeMismatch {
                    line,
                    url: links[i - 1].url.clone(),
                    expected: expected.clone(),
                    actual,
                };
                report(&mut out, d);
                assert(was + seq![d@] =~= was.push(d@));
                continue;
            }
        }
        if let Some(backlinks) = &req.backlink_in {
            match linked {
                None => {
                    assert(was + Seq::<DiagnosticView>::empty() =~= was);
                    continue;
                },
                Some(linked) => {
                    if !has_backlink(linked, &backlinks.0, &source_abs) {
                        let d = Diagnostic::MissingBacklink {
                            line,
                            url: links[i - 1].url.clone(),
                            inverse_section: backlinks.joined_titles(),
                        };
                        report(&mut out, d);
                    }
                },
            }
        }
        let ghost linked_v = linked_doc(docs, target@);
        assert(diagnostics_view(out@) =~= was + backlink_problem(
            link,
            linked_v,
            demand,
            ctx.source_path@,
        ));
        if let Some(path) = &req.frontmatter_item {
            if let Some(name) = link_identity(&target) {
                if !holds_text(&named, name.as_str()) {
                    let d = Diagnostic::OrphanLink {
                        line,
                        url: links[i - 1].url.clone(),
                        expected: path.to_text(),
                    };
                    report(&mut out, d);
                }
            }
        }
        assert(diagnostics_view(out@) =~= was + (backlink_problem(
            link,
            linked_v,
            demand,
            ctx.source_path@,
        ) + naming_problem(link, target@, demand, ns)));
    }
    assert(all.take(all.len() as int) =~= all);
    out
}

// ── disk to prose ─────────────────────────────────────────────────────────

/// Whether a path lies in the directory, or anywhere below it where the scope
/// is recursive.
pub open spec fn in_scope_of(path: PathView, dir: PathView, recursive: bool) -> bool {
    match parent_of(path) {
        Some(parent) => if recursive {
            lies_in(parent, dir)
        } else {
            parent == dir
        },
        None => false,
    }
}

/// Whether a document stands in the scope's directory, or anywhere below it
/// where the scope is recursive.
pub fn in_scope(path: &FilePath, scope_dir: &FilePath, recursive: bool) -> (r: bool)
    ensures
        r == in_scope_of(path@, scope_dir@, recursive),
{
    match path.parent() {
        Some(parent) => if recursive {
            parent.starts_with(scope_dir)
        } else {
            parent.same(scope_dir)
        },
        None => false,
    }
}

/// The paths that links of the document at `source` point at.
pub open spec fn targets_of(links: Seq<PlacedLinkView>, source: PathView) -> Seq<PathView>
    decreases links.len(),
{
    if links.len() == 0 {
        Seq::empty()
    } else {
        match link_target(links.last().url, source) {
            Some(t) => targets_of(links.drop_last(), source).push(t),
            None => targets_of(links.drop_last(), source),
        }
    }
}

/// The paths that the links of a section point at.
pub open spec fn section_targets(
    blocks: Seq<BlockView>,
    section: SectionRefView,
    source: PathView,
) -> Seq<PathView> {
    match span_of(blocks, section) {
        Some((from, to)) => targets_of(placed_links(blocks, from, to), source),
        None => Seq::empty(),
    }
}

fn find_targets(blocks: &Vec<Block>, section: &SectionRef, source: &FilePath) -> (r: Vec<FilePath>)
    ensures
        paths_view(r@) == section_targets(blocks_view(blocks@), section@, source@),
{
    let mut out: Vec<FilePath> = Vec::new();
    assert(paths_view(out@) =~= Seq::empty());
    if let Some((from, to)) = section_span(blocks, section) {
        let links = extract_links(blocks, from, to);
        let ghost all = placed_view(links@);
        let mut i: usize = 0;
        assert(all.take(0) =~= Seq::empty());
        while i < links.len()
            invariant
                i <= links.len(),
                all == placed_view(links@),
                paths_view(out@) == targets_of(all.take(i as int), source@),
            decreases links.len() - i,
        {
            assert(all.take(i + 1).drop_last() =~= all.take(i as int));
            assert(all.take(i + 1).last() == links@[i as int]@);
            if let Some(t) = resolve_link_path(links[i].url.as_str(), source) {
                let ghost was = out@;
                out.push(t);
                assert(paths_view(out@) =~= paths_view(was).push(t@));
            }
            i += 1;
        }
        assert(all.take(all.len() as int) =~= all);
    }
    out
}

/// Whether a document should be linked and is not: it has the type, stands in
/// the scope, is not the source itself, and no link points at it.
pub open spec fn is_unlinked(
    d: LinkedDocView,
    doc_type: Seq<char>,
    source: PathView,
    dir: PathView,
    recursive: bool,
    linked: Seq<PathView>,
) -> bool {
    let path = normalized(d.path);
    &&& d.doc_type == Some(doc_type)
    &&& path != source
    &&& in_scope_of(path, dir, recursive)
    &&& !linked.contains(path)
}

/// The normalized paths of the documents that should be linked and are not.
pub open spec fn unlinked_paths(
    docs: Seq<LinkedDocView>,
    doc_type: Seq<char>,
    source: PathView,
    dir: PathView,
    recursive: bool,
    linked: Seq<PathView>,
) -> Seq<PathView>
    decreases docs.len(),
{
    if docs.len() == 0 {
        Seq::empty()
    } else {
        let before = unlinked_paths(docs.drop_last(), doc_type, source, dir, recursive, linked);
        if is_unlinked(docs.last(), doc_type, source, dir, recursive, linked) {
            before.push(normalized(docs.last().path))
        } else {
            before
        }
    }
}

/// The diagnostics for unlinked documents; each is named as seen from `base`
/// where it lies below it.
pub open spec fn unlinked_problems(
    paths: Seq<PathView>,
    base: PathView,
    line: Option<usize>,
    doc_type: Seq<char>,
    section: SectionRefView,
) -> Seq<DiagnosticView> {
    paths.map_values(
        |p: PathView|
            DiagnosticView::UnlinkedDocument {
                line,
                file: path_text(
                    match relative_to(p, base) {
                        Some(rel) => rel,
                        None => p,
                    },
                ),
                doc_type,
                section: section_text(section),
            },
    )
}

/// What a rule that asks for a link per existing document finds. A missing
/// section links nothing.
pub open spec fn docs_unlinked(
    doc: DocumentView,
    doc_type: Seq<char>,
    scope: DirScopeView,
    section: SectionRefView,
    source_path: PathView,
    docs: Seq<LinkedDocView>,
) -> Seq<DiagnosticView> {
    let source = normalized(source_path);
    match parent_of(source) {
        None => Seq::empty(),
        Some(base) => unlinked_problems(
            sorted_paths(
                unlinked_paths(
                    docs,
                    doc_type,
                    source,
                    normalized(joined_path(base, path_of(scope.dir))),
                    scope.recursive,
                    section_targets(doc.blocks, section, source_path),
                ),
            ),
            base,
            section_line(doc.blocks, section),
            doc_type,
            section,
        ),
    }
}

/// Disk to prose: every document of a type that exists in scope needs a link.
fn docs_need_links(
    doc: &Document,
    doc_type: &String,
    scope: &DirScope,
    section: &SectionRef,
    ctx: &ValidateCtx,
) -> (r: Vec<Diagnostic>)
    ensures
        diagnostics_view(r@) == docs_unlinked(
            doc@,
            doc_type@,
            scope@,
            section@,
            ctx.source_path@,
            linked_view(ctx.linked_docs@),
        ),
{
    let mut out: Vec<Diagnostic> = Vec::new();
    assert(diagnostics_view(out@) =~= Seq::empty());
    let source = normalize_path(ctx.source_path);
    let base = match source.parent() {
        Some(base) => base,
        None => {
            return out;
        },
    };
    let dir = FilePath::parse(scope.dir.as_str());
    let joined_dir = base.join(&dir);
    let scope_dir = normalize_path(&joined_dir);
    let linked = find_targets(&doc.blocks, section, ctx.source_path);
    let line = section_heading_line(&doc.blocks, section);
    let ghost all = linked_view(ctx.linked_docs@);
    let ghost ls = paths_view(linked@);
    let mut unlinked: Vec<FilePath> = Vec::new();
    let mut i: usize = 0;
    assert(all.take(0) =~= Seq::empty());
    assert(paths_view(unlinked@) =~= Seq::empty());
    while i < ctx.linked_docs.len()
        invariant
            i <= ctx.linked_docs.len(),
            all == linked_view(ctx.linked_docs@),
            ls == paths_view(linked@),
            paths_view(unlinked@) == sorted_paths(
                unlinked_paths(
                    all.take(i as int),
                    doc_type@,
                    source@,
                    scope_dir@,
                    scope.recursive,
                    ls,
                ),
            ),
        decreases ctx.linked_docs.len() - i,
    {
        let ghost before = unlinked_paths(
            all.take(i as int),
            doc_type@,
            source@,
            scope_dir@,
            scope.recursive,
            ls,
        );
        assert(all.take(i + 1).drop_last() =~= all.take(i as int));
        let info = &ctx.linked_docs[i];
        assert(all.take(i + 1).last() == info@);
        let typed = match &info.doc_type {
            Some(t) => t.as_str().eq(doc_type.as_str()),
            None => false,
        };
        if typed {
            let path = normalize_path(&info.path);
            if !path.same(&source) && in_scope(&path, &scope_dir, scope.recursive) && !holds_path(
                &linked,
                &path,
            ) {
                assert(before.push(path@).drop_last() =~= before);
                insert_sorted(&mut unlinked, path);
            }
        }
        i += 1;
    }
    assert(all.take(all.len() as int) =~= all);
    let ghost ps = paths_view(unlinked@);
    let ghost want = unlinked_problems(ps, base@, line, doc_type@, section@);
    let mut k: usize = 0;
    assert(diagnostics_view(out@) =~= want.take(0));
    while k < unlinked.len()
        invariant
            k <= unlinked.len(),
            ps == paths_view(unlinked@),
            want == unlinked_problems(ps, base@, line, doc_type@, section@),
            diagnostics_view(out@) == want.take(k as int),
        decreases unlinked.len() - k,
    {
        assert(ps[k as int] == unlinked@[k as int]@);
        let file = match unlinked[k].strip_prefix(&base) {
            Some(rel) => rel.to_text(),
            None => unlinked[k].to_text(),
        };
        let d = Diagnostic::UnlinkedDocument {
            line,
            file,
            doc_type: doc_type.clone(),
            section: section.to_text(),
        };
        assert(d@ == want[k as int]);
        report(&mut out, d);
        assert(want.take(k + 1) =~= want.take(k as int).push(want[k as int]));
        k += 1;
    }
    assert(want.take(want.len() as int) =~= want);
    out
}

// ── all rules ─────────────────────────────────────────────────────────────

/// What one rule finds. A rule that lacks what its selector needs, which no
/// valid rule does, finds nothing.
pub open spec fn rule_findings(
    doc: DocumentView,
    rule: CorrespondenceRule,
    source: PathView,
    docs: Seq<LinkedDocView>,
) -> Seq<DiagnosticView> {
    let req = rule.requires_of;
    match rule.each {
        Selector::FrontmatterItems(path) => match (req.link_in, req.subsection_under, req.heading) {
            (Some(section), _, _) => item_links_missing(
                doc,
                path@,
                section@,
                option_text(req.target_type),
                source,
                docs,
            ),
            (None, Some(container), Some(heading)) => subsections_missing(
                doc,
                path@,
                container@,
                heading@,
            ),
            _ => Seq::empty(),
        },
        Selector::SubsectionsUnder(container) => match req.frontmatter_item {
            Some(path) => orphan_subsections(doc, container@, path@),
            None => Seq::empty(),
        },
        Selector::LinksInSection(section) => section_links_problems(
            doc,
            section@,
            demand_of(req),
            source,
            docs,
        ),
        Selector::DocsOfType { doc_type, scope } => match req.link_in {
            Some(section) => docs_unlinked(doc, doc_type@, scope@, section@, source, docs),
            None => Seq::empty(),
        },
    }
}

/// What the rules find, in their order.
pub open spec fn findings(
    doc: DocumentView,
    rules: Seq<CorrespondenceRule>,
    source: PathView,
    docs: Seq<LinkedDocView>,
) -> Seq<DiagnosticView>
    decreases rules.len(),
{
    if rules.len() == 0 {
        Seq::empty()
    } else {
        findings(doc, rules.drop_last(), source, docs) + rule_findings(
            doc,
            rules.last(),
            source,
            docs,
        )
    }
}

/// What one rule finds.
fn check_rule(doc: &Document, rule: &CorrespondenceRule, ctx: &ValidateCtx) -> (r: Vec<Diagnostic>)
    ensures
        diagnostics_view(r@) == rule_findings(
            doc@,
            *rule,
            ctx.source_path@,
            linked_view(ctx.linked_docs@),
        ),
{
    let req = &rule.requires_of;
    let none: Vec<Diagnostic> = Vec::new();
    assert(diagnostics_view(none@) =~= Seq::empty());
    match &rule.each {
        Selector::FrontmatterItems(path) => match &req.link_in {
            Some(section) => items_need_links(doc, path, section, &req.target_type, ctx),
            None => match (&req.subsection_under, &req.heading) {
                (Some(container), Some(heading)) => items_need_subsections(
                    doc,
                    path,
                    container,
                    heading,
                ),
                _ => none,
            },
        },
        Selector::SubsectionsUnder(container) => match &req.frontmatter_item {
            Some(path) => subsections_need_items(doc, container, path),
            None => none,
        },
        Selector::LinksInSection(section) => links_need_targets(doc, section, req, ctx),
        Selector::DocsOfType { doc_type, scope } => match &req.link_in {
            Some(section) => docs_need_links(doc, doc_type, scope, section, ctx),
            None => none,
        },
    }
}

/// Check a document against its type's correspondence rules.
pub fn validate_correspondence(
    doc: &Document,
    rules: &Vec<CorrespondenceRule>,
    ctx: &ValidateCtx,
    out: &mut Vec<Diagnostic>,
)
    ensures
        diagnostics_view(final(out)@) == diagnostics_view(old(out)@) + findings(
            doc@,
            rules@,
            ctx.source_path@,
            linked_view(ctx.linked_docs@),
        ),
{
    let ghost start = diagnostics_view(out@);
    let ghost docs = linked_view(ctx.linked_docs@);
    let mut i: usize = 0;
    assert(start =~= start + findings(doc@, rules@.take(0), ctx.source_path@, docs));
    while i < rules.len()
        invariant
            i <= rules.len(),
            start == diagnostics_view(old(out)@),
            docs == linked_view(ctx.linked_docs@),
            diagnostics_view(out@) == start + findings(
                doc@,
                rules@.take(i as int),
                ctx.source_path@,
                docs,
            ),
        decreases rules.len() - i,
    {
        let ghost was = out@;
        let mut found = check_rule(doc, &rules[i], ctx);
        let ghost f = found@;
        out.append(&mut found);
        proof {
            assert(rules@.take(i + 1).drop_last() =~= rules@.take(i as int));
            assert(out@ =~= was + f);
            assert(diagnostics_view(was + f) =~= diagnostics_view(was) + diagnostics_view(f));
            assert(diagnostics_view(out@) =~= start + findings(
                doc@,
                rules@.take(i + 1),
                ctx.source_path@,
                docs,
            ));
        }
        i += 1;
    }
    assert(rules@.take(rules@.len() as int) =~= rules@);
}

/// A document is never asked to link itself, whatever the rule's scope.
pub proof fn source_is_never_unlinked(
    docs: Seq<LinkedDocView>,
    doc_type: Seq<char>,
    source: PathView,
    dir: PathView,
    recursive: bool,
    linked: Seq<PathView>,
)
    ensures
        !unlinked_paths(docs, doc_type, source, dir, recursive, linked).contains(source),
    decreases docs.len(),
{
    if docs.len() > 0 {
        source_is_never_unlinked(docs.drop_last(), doc_type, source, dir, recursive, linked);
        let before = unlinked_paths(docs.drop_last(), doc_type, source, dir, recursive, linked);
        let after = unlinked_paths(docs, doc_type, source, dir, recursive, linked);
        assert forall|i: int| 0 <= i < after.len() implies #[trigger] after[i] != source by {
            if i < before.len() {
                assert(before[i] != source);
            }
        }
    }
}

/// An absent optional field makes a front matter rule vacuous, not violated.
pub proof fn absent_field_breaks_no_rule(
    doc: DocumentView,
    fm: FrontmatterView,
    rule: CorrespondenceRule,
    source: PathView,
    docs: Seq<LinkedDocView>,
)
    requires
        doc.frontmatter == Some(fm),
        rule.each matches Selector::FrontmatterItems(path) && members_of(fm, path@) is None,
    ensures
        rule_findings(doc, rule, source, docs) == Seq::<DiagnosticView>::empty(),
{
}

/// Whether no diagnostic of `v` has a fix.
pub open spec fn none_fixable(v: Seq<DiagnosticView>) -> bool {
    forall|i: int| 0 <= i < v.len() ==> !fixable(#[trigger] v[i])
}

proof fn items_problems_have_no_fix(
    items: Seq<YamlView>,
    path: ItemPathView,
    container: SectionRefView,
    heading: HeadingTemplateView,
    present: Seq<(Seq<char>, int)>,
    line: Option<usize>,
)
    ensures
        none_fixable(items_problems(items, path, container, heading, present, line)),
    decreases items.len(),
{
    if items.len() > 0 {
        items_problems_have_no_fix(items.drop_last(), path, container, heading, present, line);
    }
}

proof fn values_problems_have_no_fix(
    members: Seq<YamlView>,
    path: ItemPathView,
    section: SectionRefView,
    wanted: Option<Seq<char>>,
    linked: Seq<Seq<char>>,
    line: Option<usize>,
)
    ensures
        none_fixable(values_problems(members, path, section, wanted, linked, line)),
    decreases members.len(),
{
    if members.len() > 0 {
        values_problems_have_no_fix(members.drop_last(), path, section, wanted, linked, line);
    }
}

proof fn orphans_have_no_fix(
    headings: Seq<(Seq<char>, int)>,
    level: nat,
    values: Seq<Seq<char>>,
    path: ItemPathView,
)
    ensures
        none_fixable(orphans(headings, level, values, path)),
    decreases headings.len(),
{
    if headings.len() > 0 {
        orphans_have_no_fix(headings.drop_last(), level, values, path);
    }
}

proof fn links_problems_have_no_fix(
    links: Seq<PlacedLinkView>,
    demand: LinkDemand,
    named: Seq<Seq<char>>,
    source: PathView,
    docs: Seq<LinkedDocView>,
)
    ensures
        none_fixable(links_problems_in(links, demand, named, source, docs)),
    decreases links.len(),
{
    if links.len() > 0 {
        links_problems_have_no_fix(links.drop_last(), demand, named, source, docs);
    }
}

proof fn rule_findings_have_no_fix(
    doc: DocumentView,
    rule: CorrespondenceRule,
    source: PathView,
    docs: Seq<LinkedDocView>,
)
    ensures
        none_fixable(rule_findings(doc, rule, source, docs)),
{
    let req = rule.requires_of;
    match rule.each {
        Selector::FrontmatterItems(path) => {
            if let Some(fm) = doc.frontmatter {
                if let Some(members) = members_of(fm, path@) {
                    if let Some(section) = req.link_in {
                        if let Some((from, to)) = span_of(doc.blocks, section@) {
                            let wanted = option_text(req.target_type);
                            values_problems_have_no_fix(
                                members,
                                path@,
                                section@,
                                wanted,
                                answered_values(
                                    placed_links(doc.blocks, from, to),
                                    source,
                                    docs,
                                    wanted,
                                ),
                                anchor_line(fm, path@),
                            );
                        }
                    } else if let (Some(container), Some(heading)) = (
                        req.subsection_under,
                        req.heading,
                    ) {
                        if let Some((from, to)) = span_of(doc.blocks, container@) {
                            items_problems_have_no_fix(
                                members,
                                path@,
                                container@,
                                heading@,
                                headings_in(doc.blocks, from, to, heading@.level as int),
                                anchor_line(fm, path@),
                            );
                        }
                    }
                }
            }
        },
        Selector::SubsectionsUnder(container) => {
            if let (Some(path), Some((from, to))) = (
                req.frontmatter_item,
                span_of(doc.blocks, container@),
            ) {
                orphans_have_no_fix(
                    headings_in(doc.blocks, from, to, container@.level + 1),
                    (container@.level + 1) as nat,
                    item_texts(doc.frontmatter, path@),
                    path@,
                );
            }
        },
        Selector::LinksInSection(section) => {
            if let Some((from, to)) = span_of(doc.blocks, section@) {
                let demand = demand_of(req);
                links_problems_have_no_fix(
                    placed_links(doc.blocks, from, to),
                    demand,
                    named_values(doc, demand),
                    source,
                    docs,
                );
            }
        },
        Selector::DocsOfType { .. } => {},
    }
}

/// Nothing that correspondence rules find is fixable: what is missing is
/// prose that only an author can write.
pub proof fn findings_have_no_fix(
    doc: DocumentView,
    rules: Seq<CorrespondenceRule>,
    source: PathView,
    docs: Seq<LinkedDocView>,
)
    ensures
        none_fixable(findings(doc, rules, source, docs)),
    decreases rules.len(),
{
    if rules.len() > 0 {
        findings_have_no_fix(doc, rules.drop_last(), source, docs);
        rule_findings_have_no_fix(doc, rules.last(), source, docs);
    }
}

// ── what a rule is for ────────────────────────────────────────────────────

/// Whether the block is a heading of the section's level with its title.
pub open spec fn titles(b: BlockView, sec: SectionRefView) -> bool {
    b is Heading && b->Heading_level == sec.level && inlines_text(b->Heading_content) == sec.title
}

/// Whether the section is nowhere in the document.
pub open spec fn lacks_section(s: Seq<BlockView>, sec: SectionRefView) -> bool {
    forall|k: int| 0 <= k < s.len() ==> !titles(#[trigger] s[k], sec)
}

/// Whether the blocks `from..to` are those of the section: the first heading
/// with its title stands just before them, no heading of its level or above
/// is among them, and where the document goes on such a heading stands there.
pub open spec fn makes_section(s: Seq<BlockView>, sec: SectionRefView, from: int, to: int) -> bool {
    &&& 0 < from <= to <= s.len()
    &&& titles(s[from - 1], sec)
    &&& forall|k: int| 0 <= k < from - 1 ==> !titles(#[trigger] s[k], sec)
    &&& forall|k: int|
        from <= k < to ==> !((#[trigger] s[k]) is Heading && s[k]->Heading_level <= sec.level)
    &&& to < s.len() ==> s[to] is Heading && s[to]->Heading_level <= sec.level
}

proof fn the_span_is_the_section(s: Seq<BlockView>, sec: SectionRefView, from: int, to: int)
    requires
        makes_section(s, sec, from, to),
    ensures
        span_of(s, sec) == Some((from, to)),
{
    section_span_is_the_section(s, sec);
    match span_of(s, sec) {
        Some((a, b)) => {
            if a < from {
                assert(!titles(s[a - 1], sec));
            }
            if from < a {
                assert(!heads(s[from - 1], sec));
            }
            assert(a == from);
            if b < to {
                assert(ends_section(s[b], sec.level));
            }
            if to < b {
                assert(!ends_section(s[to], sec.level));
            }
        },
        None => {
            assert(!heads(s[from - 1], sec));
        },
    }
}

proof fn no_span_of_a_lacking_section(s: Seq<BlockView>, sec: SectionRefView)
    requires
        lacks_section(s, sec),
    ensures
        span_of(s, sec) is None,
{
    section_span_is_the_section(s, sec);
    if let Some((from, to)) = span_of(s, sec) {
        assert(!titles(s[from - 1], sec));
    }
}

/// Every section is either nowhere in a document or made of some blocks of
/// it.
pub proof fn a_section_is_there_or_not(s: Seq<BlockView>, sec: SectionRefView)
    ensures
        lacks_section(s, sec) || exists|from: int, to: int| makes_section(s, sec, from, to),
        lacks_section(s, sec) ==> !exists|from: int, to: int| makes_section(s, sec, from, to),
{
    section_span_is_the_section(s, sec);
    match span_of(s, sec) {
        Some((from, to)) => {
            assert forall|k: int| 0 <= k < from - 1 implies !titles(#[trigger] s[k], sec) by {
                assert(!heads(s[k], sec));
            }
            assert forall|k: int| from <= k < to implies !((#[trigger] s[k]) is Heading
                && s[k]->Heading_level <= sec.level) by {
                assert(!ends_section(s[k], sec.level));
            }
            assert(makes_section(s, sec, from, to));
        },
        None => {
            assert forall|k: int| 0 <= k < s.len() implies !titles(#[trigger] s[k], sec) by {
                assert(!heads(s[k], sec));
            }
        },
    }
    if lacks_section(s, sec) && exists|from: int, to: int| makes_section(s, sec, from, to) {
        let (from, to) = choose|from: int, to: int| makes_section(s, sec, from, to);
        assert(!titles(s[from - 1], sec));
    }
}

/// Whether `d` is what is known of the document at `path`: the last that is
/// listed under it.
pub open spec fn is_known(docs: Seq<LinkedDocView>, path: PathView, d: LinkedDocView) -> bool {
    exists|j: int|
        #![trigger docs[j]]
        0 <= j < docs.len() && docs[j] == d && d.path == path && forall|i: int|
            j < i < docs.len() ==> (#[trigger] docs[i]).path != path
}

/// What is known of a document is the last that is listed under its path.
pub proof fn the_last_listed_is_known(docs: Seq<LinkedDocView>, path: PathView)
    ensures
        linked_doc(docs, path) matches Some(d) ==> is_known(docs, path, d),
        linked_doc(docs, path) is None <==> forall|i: int|
            0 <= i < docs.len() ==> (#[trigger] docs[i]).path != path,
        forall|d: LinkedDocView|
            is_known(docs, path, d) ==> linked_doc(docs, path) == Some(d),
    decreases docs.len(),
{
    if docs.len() > 0 {
        let f = docs.drop_last();
        let n = docs.len() - 1;
        the_last_listed_is_known(f, path);
        if docs[n].path == path {
            assert(is_known(docs, path, docs[n]));
            assert forall|d: LinkedDocView| is_known(docs, path, d) implies linked_doc(docs, path)
                == Some(d) by {
                let j = choose|j: int|
                    #![trigger docs[j]]
                    0 <= j < docs.len() && docs[j] == d && d.path == path && forall|i: int|
                        j < i < docs.len() ==> (#[trigger] docs[i]).path != path;
                if j < n {
                    assert(docs[n].path != path);
                }
            }
        } else {
            assert forall|d: LinkedDocView| is_known(docs, path, d) <==> is_known(f, path, d) by {
                if is_known(docs, path, d) {
                    let j = choose|j: int|
                        #![trigger docs[j]]
                        0 <= j < docs.len() && docs[j] == d && d.path == path && forall|i: int|
                            j < i < docs.len() ==> (#[trigger] docs[i]).path != path;
                    assert(f[j] == d);
                    assert forall|i: int| j < i < f.len() implies (#[trigger] f[i]).path != path by {
                        assert(f[i] == docs[i]);
                    }
                    assert(is_known(f, path, d));
                }
                if is_known(f, path, d) {
                    let j = choose|j: int|
                        #![trigger f[j]]
                        0 <= j < f.len() && f[j] == d && d.path == path && forall|i: int|
                            j < i < f.len() ==> (#[trigger] f[i]).path != path;
                    assert(docs[j] == d);
                    assert forall|i: int| j < i < docs.len() implies (#[trigger] docs[i]).path
                        != path by {
                        if i < n {
                            assert(f[i] == docs[i]);
                        }
                    }
                    assert(is_known(docs, path, d));
                }
            }
            if linked_doc(docs, path) is None {
                assert forall|i: int| 0 <= i < docs.len() implies (#[trigger] docs[i]).path
                    != path by {
                    if i < n {
                        assert(f[i] == docs[i]);
                    }
                }
            }
            if forall|i: int| 0 <= i < docs.len() ==> (#[trigger] docs[i]).path != path {
                assert forall|i: int| 0 <= i < f.len() implies (#[trigger] f[i]).path != path by {
                    assert(f[i] == docs[i]);
                }
            }
        }
    }
}

/// Whether the document at `path` is known to have the type.
pub open spec fn has_type(docs: Seq<LinkedDocView>, path: PathView, t: Seq<char>) -> bool {
    exists|d: LinkedDocView| #[trigger] is_known(docs, path, d) && d.doc_type == Some(t)
}

proof fn of_type_is_known(docs: Seq<LinkedDocView>, path: PathView, wanted: Seq<char>)
    ensures
        type_at(docs, path) == Some(wanted) <==> has_type(docs, path, wanted),
{
    the_last_listed_is_known(docs, path);
}

/// Whether a link with this URL stands in the blocks `from..to`, at any
/// depth.
pub open spec fn holds_url(s: Seq<BlockView>, from: int, to: int, url: Seq<char>) -> bool {
    exists|k: int, x: InlineView|
        from <= k < to && #[trigger] stands_in_block(x, s[k]) && (link_of(x) matches Some(m)
            && m.url == url)
}

/// Whether a link in the blocks `from..to` of the document at `source` leads
/// to a document with this stem, and with the type where one is wanted.
pub open spec fn leads_to(
    s: Seq<BlockView>,
    from: int,
    to: int,
    source: PathView,
    docs: Seq<LinkedDocView>,
    wanted: Option<Seq<char>>,
    stem: Seq<char>,
) -> bool {
    exists|url: Seq<char>| #[trigger]
        holds_url(s, from, to, url) && (link_target(url, source) matches Some(t) && stem_of(t)
            == Some(stem) && (wanted matches Some(w) ==> has_type(docs, t, w)))
}

proof fn a_url_that_is_held_is_placed(s: Seq<BlockView>, from: int, to: int, url: Seq<char>)
    requires
        0 <= from <= to <= s.len(),
    ensures
        holds_url(s, from, to, url) <==> exists|i: int|
            0 <= i < placed_links(s, from, to).len() && (#[trigger] placed_links(
                s,
                from,
                to,
            )[i]).url == url,
{
    let links = placed_links(s, from, to);
    if holds_url(s, from, to, url) {
        let (k, x) = choose|k: int, x: InlineView|
            from <= k < to && #[trigger] stands_in_block(x, s[k]) && (link_of(x) matches Some(m)
                && m.url == url);
        let l = PlacedLinkView { url, line: block_line(s[k]) };
        a_placed_link_stands_in_its_block(s, from, to, l);
        let i = choose|i: int| 0 <= i < links.len() && links[i] == l;
        assert(links[i].url == url);
    }
    if exists|i: int| 0 <= i < links.len() && (#[trigger] links[i]).url == url {
        let i = choose|i: int| 0 <= i < links.len() && (#[trigger] links[i]).url == url;
        a_placed_link_stands_in_its_block(s, from, to, links[i]);
        assert(links.contains(links[i]));
    }
}

proof fn answered_are_led_to(
    links: Seq<PlacedLinkView>,
    source: PathView,
    docs: Seq<LinkedDocView>,
    wanted: Option<Seq<char>>,
    stem: Seq<char>,
)
    ensures
        answered_values(links, source, docs, wanted).contains(stem) <==> exists|i: int|
            0 <= i < links.len() && (link_target((#[trigger] links[i]).url, source) matches Some(t)
                && stem_of(t) == Some(stem) && is_of_type(docs, t, wanted)),
    decreases links.len(),
{
    let all = answered_values(links, source, docs, wanted);
    if links.len() > 0 {
        let f = links.drop_last();
        let n = links.len() - 1;
        let before = answered_values(f, source, docs, wanted);
        answered_are_led_to(f, source, docs, wanted, stem);
        if before.contains(stem) {
            let k = choose|k: int| 0 <= k < before.len() && before[k] == stem;
            assert(all[k] == stem);
            let i = choose|i: int|
                0 <= i < f.len() && (link_target((#[trigger] f[i]).url, source) matches Some(t)
                    && stem_of(t) == Some(stem) && is_of_type(docs, t, wanted));
            assert(links[i] == f[i]);
        }
        if all.contains(stem) {
            let k = choose|k: int| 0 <= k < all.len() && all[k] == stem;
            if k < before.len() {
                assert(before[k] == stem);
            } else {
                assert(link_target(links[n].url, source) is Some);
            }
        }
        if exists|i: int|
            0 <= i < links.len() && (link_target((#[trigger] links[i]).url, source) matches Some(t)
                && stem_of(t) == Some(stem) && is_of_type(docs, t, wanted)) {
            let i = choose|i: int|
                0 <= i < links.len() && (link_target((
                #[trigger] links[i]).url, source) matches Some(t) && stem_of(t) == Some(stem)
                    && is_of_type(docs, t, wanted));
            if i < n {
                assert(f[i] == links[i]);
            } else {
                assert(all[before.len() as int] == stem);
            }
        }
    }
}

proof fn answered_in_a_section(
    s: Seq<BlockView>,
    from: int,
    to: int,
    source: PathView,
    docs: Seq<LinkedDocView>,
    wanted: Option<Seq<char>>,
    stem: Seq<char>,
)
    requires
        0 <= from <= to <= s.len(),
    ensures
        answered_values(placed_links(s, from, to), source, docs, wanted).contains(stem) <==> leads_to(
            s,
            from,
            to,
            source,
            docs,
            wanted,
            stem,
        ),
{
    let links = placed_links(s, from, to);
    answered_are_led_to(links, source, docs, wanted, stem);
    if answered_values(links, source, docs, wanted).contains(stem) {
        let i = choose|i: int|
            0 <= i < links.len() && (link_target((#[trigger] links[i]).url, source) matches Some(t)
                && stem_of(t) == Some(stem) && is_of_type(docs, t, wanted));
        a_url_that_is_held_is_placed(s, from, to, links[i].url);
        let t = link_target(links[i].url, source)->0;
        if let Some(w) = wanted {
            of_type_is_known(docs, t, w);
        }
        assert(holds_url(s, from, to, links[i].url));
    }
    if leads_to(s, from, to, source, docs, wanted, stem) {
        let url = choose|url: Seq<char>| #[trigger]
            holds_url(s, from, to, url) && (link_target(url, source) matches Some(t) && stem_of(t)
                == Some(stem) && (wanted matches Some(w) ==> has_type(docs, t, w)));
        a_url_that_is_held_is_placed(s, from, to, url);
        let i = choose|i: int| 0 <= i < links.len() && (#[trigger] links[i]).url == url;
        let t = link_target(url, source)->0;
        if let Some(w) = wanted {
            of_type_is_known(docs, t, w);
        }
        assert(link_target(links[i].url, source) == Some(t));
    }
}

proof fn values_are_asked_one_by_one(
    members: Seq<YamlView>,
    path: ItemPathView,
    section: SectionRefView,
    wanted: Option<Seq<char>>,
    linked: Seq<Seq<char>>,
    line: Option<usize>,
)
    ensures
        values_problems(members, path, section, wanted, linked, line).len() == 0 <==> forall|i: int|
            0 <= i < members.len() ==> (member_value_of(
                #[trigger] members[i],
                path.field,
            ) matches Some(v) && linked.contains(v)),
        forall|i: int|
            0 <= i < members.len() ==> (member_value_of(
                #[trigger] members[i],
                path.field,
            ) matches Some(v) ==> !linked.contains(v) ==> values_problems(
                members,
                path,
                section,
                wanted,
                linked,
                line,
            ).contains(
                DiagnosticView::MissingItemLink {
                    line,
                    item: v,
                    section: section_text(section),
                    target_type: wanted,
                },
            )),
    decreases members.len(),
{
    let all = values_problems(members, path, section, wanted, linked, line);
    if members.len() > 0 {
        let f = members.drop_last();
        let n = members.len() - 1;
        let before = values_problems(f, path, section, wanted, linked, line);
        values_are_asked_one_by_one(f, path, section, wanted, linked, line);
        if all.len() == 0 {
            assert forall|i: int| 0 <= i < members.len() implies (member_value_of(
                #[trigger] members[i],
                path.field,
            ) matches Some(v) && linked.contains(v)) by {
                if i < n {
                    assert(f[i] == members[i]);
                }
            }
        }
        if forall|i: int|
            0 <= i < members.len() ==> (member_value_of(
                #[trigger] members[i],
                path.field,
            ) matches Some(v) && linked.contains(v)) {
            assert forall|i: int| 0 <= i < f.len() implies (member_value_of(
                #[trigger] f[i],
                path.field,
            ) matches Some(v) && linked.contains(v)) by {
                assert(f[i] == members[i]);
            }
            assert(member_value_of(members[n], path.field) is Some);
        }
        assert forall|i: int| 0 <= i < members.len() implies (member_value_of(
            #[trigger] members[i],
            path.field,
        ) matches Some(v) ==> !linked.contains(v) ==> all.contains(
            DiagnosticView::MissingItemLink {
                line,
                item: v,
                section: section_text(section),
                target_type: wanted,
            },
        )) by {
            if let Some(v) = member_value_of(members[i], path.field) {
                if !linked.contains(v) {
                    let d = DiagnosticView::MissingItemLink {
                        line,
                        item: v,
                        section: section_text(section),
                        target_type: wanted,
                    };
                    if i < n {
                        assert(f[i] == members[i]);
                        let k = choose|k: int| 0 <= k < before.len() && before[k] == d;
                        assert(all[k] == d);
                    } else {
                        assert(all[before.len() as int] == d);
                    }
                }
            }
        }
    }
}

/// A rule that asks for a link per front matter value is met exactly where
/// for every value some link of the section leads to a document with that
/// stem, and with the type where the rule names one. A value that no link
/// answers is reported, and a section that is not there is reported too.
pub proof fn every_value_needs_its_link(
    doc: DocumentView,
    rule: CorrespondenceRule,
    source: PathView,
    docs: Seq<LinkedDocView>,
    fm: FrontmatterView,
    members: Seq<YamlView>,
    from: int,
    to: int,
)
    requires
        doc.frontmatter == Some(fm),
        rule.each matches Selector::FrontmatterItems(path) && members_of(fm, path@) == Some(
            members,
        ),
        members.len() > 0,
        rule.requires_of.link_in matches Some(section) && (lacks_section(doc.blocks, section@)
            || makes_section(doc.blocks, section@, from, to)),
    ensures
        ({
            let found = rule_findings(doc, rule, source, docs);
            let section = rule.requires_of.link_in->0@;
            let wanted = option_text(rule.requires_of.target_type);
            let field = rule.each->FrontmatterItems_0@.field;
            if lacks_section(doc.blocks, section) {
                found == seq![DiagnosticView::MissingSection { section: section.title }]
            } else {
                &&& found.len() == 0 <==> forall|i: int|
                    0 <= i < members.len() ==> (member_value_of(
                        #[trigger] members[i],
                        field,
                    ) matches Some(v) && leads_to(
                        doc.blocks,
                        from,
                        to,
                        source,
                        docs,
                        wanted,
                        v,
                    ))
                &&& forall|i: int|
                    0 <= i < members.len() ==> (member_value_of(
                        #[trigger] members[i],
                        field,
                    ) matches Some(v) ==> !leads_to(
                        doc.blocks,
                        from,
                        to,
                        source,
                        docs,
                        wanted,
                        v,
                    ) ==> found.contains(
                        DiagnosticView::MissingItemLink {
                            line: anchor_line(fm, rule.each->FrontmatterItems_0@),
                            item: v,
                            section: section_text(section),
                            target_type: wanted,
                        },
                    ))
            }
        }),
{
    let section = rule.requires_of.link_in->0@;
    let path = rule.each->FrontmatterItems_0@;
    let wanted = option_text(rule.requires_of.target_type);
    if lacks_section(doc.blocks, section) {
        no_span_of_a_lacking_section(doc.blocks, section);
    } else {
        the_span_is_the_section(doc.blocks, section, from, to);
        let linked = answered_values(placed_links(doc.blocks, from, to), source, docs, wanted);
        values_are_asked_one_by_one(
            members,
            path,
            section,
            wanted,
            linked,
            anchor_line(fm, path),
        );
        assert forall|v: Seq<char>| linked.contains(v) <==> #[trigger] leads_to(
            doc.blocks,
            from,
            to,
            source,
            docs,
            wanted,
            v,
        ) by {
            answered_in_a_section(doc.blocks, from, to, source, docs, wanted, v);
        }
    }
}

/// Whether a heading of the level with the text stands in the blocks
/// `from..to`.
pub open spec fn has_subheading(
    s: Seq<BlockView>,
    from: int,
    to: int,
    level: int,
    text: Seq<char>,
) -> bool {
    exists|k: int|
        #![trigger s[k]]
        from <= k < to && s[k] is Heading && s[k]->Heading_level == level && inlines_text(
            s[k]->Heading_content,
        ) == text
}

proof fn headings_are_listed(s: Seq<BlockView>, from: int, to: int, level: int)
    requires
        0 <= from <= to <= s.len(),
    ensures
        forall|k: int|
            from <= k < to && (#[trigger] s[k]) is Heading && s[k]->Heading_level == level
                ==> headings_in(s, from, to, level).contains(
                (inlines_text(s[k]->Heading_content), s[k]->Heading_line),
            ),
        forall|i: int|
            0 <= i < headings_in(s, from, to, level).len() ==> exists|k: int|
                #![trigger s[k]]
                from <= k < to && s[k] is Heading && s[k]->Heading_level == level && (
                #[trigger] headings_in(s, from, to, level)[i]) == (
                    inlines_text(s[k]->Heading_content),
                    s[k]->Heading_line,
                ),
    decreases to - from,
{
    let all = headings_in(s, from, to, level);
    if from < to {
        let before = headings_in(s, from, to - 1, level);
        headings_are_listed(s, from, to - 1, level);
        assert forall|k: int|
            from <= k < to && (#[trigger] s[k]) is Heading && s[k]->Heading_level
                == level implies all.contains(
            (inlines_text(s[k]->Heading_content), s[k]->Heading_line),
        ) by {
            let h = (inlines_text(s[k]->Heading_content), s[k]->Heading_line);
            if k < to - 1 {
                let i = choose|i: int| 0 <= i < before.len() && before[i] == h;
                assert(all[i] == h);
            } else {
                assert(all[before.len() as int] == h);
            }
        }
        assert forall|i: int| 0 <= i < all.len() implies exists|k: int|
            #![trigger s[k]]
            from <= k < to && s[k] is Heading && s[k]->Heading_level == level && (
            #[trigger] all[i]) == (inlines_text(s[k]->Heading_content), s[k]->Heading_line) by {
            if i < before.len() {
                assert(before[i] == all[i]);
                let k = choose|k: int|
                    #![trigger s[k]]
                    from <= k < to - 1 && s[k] is Heading && s[k]->Heading_level == level
                        && before[i] == (inlines_text(s[k]->Heading_content), s[k]->Heading_line);
                assert(s[k] is Heading);
            } else {
                assert(s[to - 1] is Heading);
            }
        }
    }
}

proof fn a_listed_heading_is_held(
    s: Seq<BlockView>,
    from: int,
    to: int,
    level: int,
    text: Seq<char>,
)
    requires
        0 <= from <= to <= s.len(),
    ensures
        has_heading(headings_in(s, from, to, level), text) <==> has_subheading(
            s,
            from,
            to,
            level,
            text,
        ),
{
    let all = headings_in(s, from, to, level);
    headings_are_listed(s, from, to, level);
    if has_heading(all, text) {
        let i = choose|i: int| 0 <= i < all.len() && (#[trigger] all[i]).0 == text;
        assert(all[i].0 == text);
    }
    if has_subheading(s, from, to, level, text) {
        let k = choose|k: int|
            #![trigger s[k]]
            from <= k < to && s[k] is Heading && s[k]->Heading_level == level && inlines_text(
                s[k]->Heading_content,
            ) == text;
        let h = (inlines_text(s[k]->Heading_content), s[k]->Heading_line);
        let i = choose|i: int| 0 <= i < all.len() && all[i] == h;
        assert(all[i].0 == text);
    }
}

proof fn items_are_asked_one_by_one(
    items: Seq<YamlView>,
    path: ItemPathView,
    container: SectionRefView,
    heading: HeadingTemplateView,
    present: Seq<(Seq<char>, int)>,
    line: Option<usize>,
)
    ensures
        items_problems(items, path, container, heading, present, line).len() == 0 <==> forall|
            i: int,
        |
            0 <= i < items.len() ==> (rendered(heading.parts, #[trigger] items[i]) matches Ok(t)
                && has_heading(present, t)),
        forall|i: int|
            0 <= i < items.len() ==> (rendered(heading.parts, #[trigger] items[i]) matches Ok(t)
                ==> !has_heading(present, t) ==> items_problems(
                items,
                path,
                container,
                heading,
                present,
                line,
            ).contains(
                DiagnosticView::MissingSubsection {
                    line,
                    heading: heading_line(heading.level as nat, t),
                    container: section_text(container),
                },
            )),
    decreases items.len(),
{
    let all = items_problems(items, path, container, heading, present, line);
    if items.len() > 0 {
        let f = items.drop_last();
        let n = items.len() - 1;
        let before = items_problems(f, path, container, heading, present, line);
        items_are_asked_one_by_one(f, path, container, heading, present, line);
        if all.len() == 0 {
            assert forall|i: int| 0 <= i < items.len() implies (rendered(
                heading.parts,
                #[trigger] items[i],
            ) matches Ok(t) && has_heading(present, t)) by {
                if i < n {
                    assert(f[i] == items[i]);
                }
            }
        }
        if forall|i: int|
            0 <= i < items.len() ==> (rendered(heading.parts, #[trigger] items[i]) matches Ok(t)
                && has_heading(present, t)) {
            assert forall|i: int| 0 <= i < f.len() implies (rendered(
                heading.parts,
                #[trigger] f[i],
            ) matches Ok(t) && has_heading(present, t)) by {
                assert(f[i] == items[i]);
            }
            assert(rendered(heading.parts, items[n]) is Ok);
        }
        assert forall|i: int| 0 <= i < items.len() implies (rendered(
            heading.parts,
            #[trigger] items[i],
        ) matches Ok(t) ==> !has_heading(present, t) ==> all.contains(
            DiagnosticView::MissingSubsection {
                line,
                heading: heading_line(heading.level as nat, t),
                container: section_text(container),
            },
        )) by {
            if let Ok(t) = rendered(heading.parts, items[i]) {
                if !has_heading(present, t) {
                    let d = DiagnosticView::MissingSubsection {
                        line,
                        heading: heading_line(heading.level as nat, t),
                        container: section_text(container),
                    };
                    if i < n {
                        assert(f[i] == items[i]);
                        let k = choose|k: int| 0 <= k < before.len() && before[k] == d;
                        assert(all[k] == d);
                    } else {
                        assert(all[before.len() as int] == d);
                    }
                }
            }
        }
    }
}

/// A rule that asks for a subsection per front matter item is met exactly
/// where for every item its heading can be spelled and stands in the section.
/// A subsection that does not is reported, and a section that is not there is
/// reported too.
pub proof fn every_item_needs_its_subsection(
    doc: DocumentView,
    rule: CorrespondenceRule,
    source: PathView,
    docs: Seq<LinkedDocView>,
    fm: FrontmatterView,
    items: Seq<YamlView>,
    from: int,
    to: int,
)
    requires
        doc.frontmatter == Some(fm),
        rule.each matches Selector::FrontmatterItems(path) && members_of(fm, path@) == Some(items),
        items.len() > 0,
        rule.requires_of.link_in is None,
        rule.requires_of.heading is Some,
        rule.requires_of.subsection_under matches Some(section) && (lacks_section(
            doc.blocks,
            section@,
        ) || makes_section(doc.blocks, section@, from, to)),
    ensures
        ({
            let found = rule_findings(doc, rule, source, docs);
            let section = rule.requires_of.subsection_under->0@;
            let heading = rule.requires_of.heading->0@;
            if lacks_section(doc.blocks, section) {
                found == seq![DiagnosticView::MissingSection { section: section.title }]
            } else {
                &&& found.len() == 0 <==> forall|i: int|
                    0 <= i < items.len() ==> (rendered(
                        heading.parts,
                        #[trigger] items[i],
                    ) matches Ok(t) && has_subheading(
                        doc.blocks,
                        from,
                        to,
                        heading.level as int,
                        t,
                    ))
                &&& forall|i: int|
                    0 <= i < items.len() ==> (rendered(
                        heading.parts,
                        #[trigger] items[i],
                    ) matches Ok(t) ==> !has_subheading(
                        doc.blocks,
                        from,
                        to,
                        heading.level as int,
                        t,
                    ) ==> found.contains(
                        DiagnosticView::MissingSubsection {
                            line: anchor_line(fm, rule.each->FrontmatterItems_0@),
                            heading: repeated("#"@, heading.level as nat) + " "@ + t,
                            container: section_text(section),
                        },
                    ))
            }
        }),
{
    let section = rule.requires_of.subsection_under->0@;
    let heading = rule.requires_of.heading->0@;
    let path = rule.each->FrontmatterItems_0@;
    if lacks_section(doc.blocks, section) {
        no_span_of_a_lacking_section(doc.blocks, section);
    } else {
        the_span_is_the_section(doc.blocks, section, from, to);
        let present = headings_in(doc.blocks, from, to, heading.level as int);
        items_are_asked_one_by_one(items, path, section, heading, present, anchor_line(fm, path));
        assert forall|t: Seq<char>| has_heading(present, t) <==> #[trigger] has_subheading(
            doc.blocks,
            from,
            to,
            heading.level as int,
            t,
        ) by {
            a_listed_heading_is_held(doc.blocks, from, to, heading.level as int, t);
        }
    }
}

/// Where no front matter, or none of what a front matter rule quantifies
/// over, is there, the rule finds nothing.
pub proof fn nothing_to_ask_of(
    doc: DocumentView,
    rule: CorrespondenceRule,
    source: PathView,
    docs: Seq<LinkedDocView>,
)
    requires
        rule.each matches Selector::FrontmatterItems(path) && (doc.frontmatter matches Some(fm)
            ==> match members_of(fm, path@) {
            Some(members) => members.len() == 0,
            None => true,
        }),
    ensures
        rule_findings(doc, rule, source, docs).len() == 0,
{
}

proof fn headings_are_asked_one_by_one(
    headings: Seq<(Seq<char>, int)>,
    level: nat,
    values: Seq<Seq<char>>,
    path: ItemPathView,
)
    ensures
        orphans(headings, level, values, path).len() == 0 <==> forall|i: int|
            0 <= i < headings.len() ==> values.contains((#[trigger] headings[i]).0),
        forall|i: int|
            0 <= i < headings.len() && !values.contains((#[trigger] headings[i]).0) ==> orphans(
                headings,
                level,
                values,
                path,
            ).contains(
                DiagnosticView::OrphanSubsection {
                    line: headings[i].1,
                    heading: heading_line(level, headings[i].0),
                    expected: item_path_text(path),
                },
            ),
    decreases headings.len(),
{
    let all = orphans(headings, level, values, path);
    if headings.len() > 0 {
        let f = headings.drop_last();
        let n = headings.len() - 1;
        let before = orphans(f, level, values, path);
        headings_are_asked_one_by_one(f, level, values, path);
        if all.len() == 0 {
            assert forall|i: int| 0 <= i < headings.len() implies values.contains(
                (#[trigger] headings[i]).0,
            ) by {
                if i < n {
                    assert(f[i] == headings[i]);
                }
            }
        }
        if forall|i: int|
            0 <= i < headings.len() ==> values.contains((#[trigger] headings[i]).0) {
            assert forall|i: int| 0 <= i < f.len() implies values.contains((#[trigger] f[i]).0) by {
                assert(f[i] == headings[i]);
            }
            assert(values.contains(headings[n].0));
        }
        assert forall|i: int|
            0 <= i < headings.len() && !values.contains(
                (#[trigger] headings[i]).0,
            ) implies all.contains(
            DiagnosticView::OrphanSubsection {
                line: headings[i].1,
                heading: heading_line(level, headings[i].0),
                expected: item_path_text(path),
            },
        ) by {
            let d = DiagnosticView::OrphanSubsection {
                line: headings[i].1,
                heading: heading_line(level, headings[i].0),
                expected: item_path_text(path),
            };
            if i < n {
                assert(f[i] == headings[i]);
                let k = choose|k: int| 0 <= k < before.len() && before[k] == d;
                assert(all[k] == d);
            } else {
                assert(all[before.len() as int] == d);
            }
        }
    }
}

/// A rule that asks for a front matter item per subsection is met exactly
/// where the text of every heading one level below the section, in it, is one
/// of the values. A heading that is not is reported at its line; where the
/// section is not there, nothing is asked.
pub proof fn every_subsection_needs_its_item(
    doc: DocumentView,
    rule: CorrespondenceRule,
    source: PathView,
    docs: Seq<LinkedDocView>,
    from: int,
    to: int,
)
    requires
        rule.requires_of.frontmatter_item is Some,
        rule.each matches Selector::SubsectionsUnder(section) && (lacks_section(
            doc.blocks,
            section@,
        ) || makes_section(doc.blocks, section@, from, to)),
    ensures
        ({
            let found = rule_findings(doc, rule, source, docs);
            let s = doc.blocks;
            let section = rule.each->SubsectionsUnder_0@;
            let path = rule.requires_of.frontmatter_item->0@;
            let values = item_texts(doc.frontmatter, path);
            if lacks_section(s, section) {
                found.len() == 0
            } else {
                &&& found.len() == 0 <==> forall|k: int|
                    from <= k < to && (#[trigger] s[k]) is Heading && s[k]->Heading_level
                        == section.level + 1 ==> values.contains(
                        inlines_text(s[k]->Heading_content),
                    )
                &&& forall|k: int|
                    from <= k < to && (#[trigger] s[k]) is Heading && s[k]->Heading_level
                        == section.level + 1 && !values.contains(
                        inlines_text(s[k]->Heading_content),
                    ) ==> found.contains(
                        DiagnosticView::OrphanSubsection {
                            line: s[k]->Heading_line,
                            heading: repeated("#"@, (section.level + 1) as nat) + " "@
                                + inlines_text(s[k]->Heading_content),
                            expected: item_path_text(path),
                        },
                    )
            }
        }),
{
    let found = rule_findings(doc, rule, source, docs);
    let s = doc.blocks;
    let section = rule.each->SubsectionsUnder_0@;
    let path = rule.requires_of.frontmatter_item->0@;
    let values = item_texts(doc.frontmatter, path);
    if lacks_section(s, section) {
        no_span_of_a_lacking_section(s, section);
    } else {
        the_span_is_the_section(s, section, from, to);
        let level = section.level + 1;
        let all = headings_in(s, from, to, level);
        headings_are_listed(s, from, to, level);
        headings_are_asked_one_by_one(all, level as nat, values, path);
        assert forall|k: int|
            from <= k < to && (#[trigger] s[k]) is Heading && s[k]->Heading_level == level
                && !values.contains(inlines_text(s[k]->Heading_content)) implies found.contains(
            DiagnosticView::OrphanSubsection {
                line: s[k]->Heading_line,
                heading: repeated("#"@, (section.level + 1) as nat) + " "@ + inlines_text(
                    s[k]->Heading_content,
                ),
                expected: item_path_text(path),
            },
        ) by {
            let h = (inlines_text(s[k]->Heading_content), s[k]->Heading_line);
            let i = choose|i: int| 0 <= i < all.len() && all[i] == h;
            assert(!values.contains(all[i].0));
        }
        if found.len() == 0 {
            assert forall|k: int|
                from <= k < to && (#[trigger] s[k]) is Heading && s[k]->Heading_level
                    == level implies values.contains(inlines_text(s[k]->Heading_content)) by {
                let h = (inlines_text(s[k]->Heading_content), s[k]->Heading_line);
                let i = choose|i: int| 0 <= i < all.len() && all[i] == h;
                assert(values.contains(all[i].0));
            }
        }
        if forall|k: int|
            from <= k < to && (#[trigger] s[k]) is Heading && s[k]->Heading_level == level
                ==> values.contains(inlines_text(s[k]->Heading_content)) {
            assert forall|i: int| 0 <= i < all.len() implies values.contains(
                (#[trigger] all[i]).0,
            ) by {
                let k = choose|k: int|
                    #![trigger s[k]]
                    from <= k < to && s[k] is Heading && s[k]->Heading_level == level && all[i] == (
                        inlines_text(s[k]->Heading_content),
                        s[k]->Heading_line,
                    );
                assert(s[k] is Heading);
            }
        }
    }
}

/// The values that a path selects are those that its members contribute.
pub proof fn values_are_those_of_members(
    fm: FrontmatterView,
    path: ItemPathView,
    members: Seq<YamlView>,
    v: Seq<char>,
)
    requires
        members_of(fm, path) == Some(members),
    ensures
        item_texts(Some(fm), path).contains(v) <==> exists|i: int|
            0 <= i < members.len() && member_value_of(#[trigger] members[i], path.field) == Some(v),
    decreases members.len(),
{
    values_of_contains(members, path.field, v);
}

proof fn values_of_contains(members: Seq<YamlView>, field: Option<Seq<char>>, v: Seq<char>)
    ensures
        values_of(members, field).contains(v) <==> exists|i: int|
            0 <= i < members.len() && member_value_of(#[trigger] members[i], field) == Some(v),
    decreases members.len(),
{
    let all = values_of(members, field);
    if members.len() > 0 {
        let f = members.drop_last();
        let n = members.len() - 1;
        let before = values_of(f, field);
        values_of_contains(f, field, v);
        if before.contains(v) {
            let k = choose|k: int| 0 <= k < before.len() && before[k] == v;
            assert(all[k] == v);
            let i = choose|i: int|
                0 <= i < f.len() && member_value_of(#[trigger] f[i], field) == Some(v);
            assert(members[i] == f[i]);
        }
        if all.contains(v) {
            let k = choose|k: int| 0 <= k < all.len() && all[k] == v;
            if k < before.len() {
                assert(before[k] == v);
            } else {
                assert(member_value_of(members[n], field) == Some(v));
            }
        }
        if exists|i: int|
            0 <= i < members.len() && member_value_of(#[trigger] members[i], field) == Some(v) {
            let i = choose|i: int|
                0 <= i < members.len() && member_value_of(#[trigger] members[i], field) == Some(v);
            if i < n {
                assert(f[i] == members[i]);
            } else {
                assert(all[before.len() as int] == v);
            }
        }
    }
}

/// A path of one key selects what front matter has under it: the items of an
/// array, or the value itself unless it is null. A longer path goes on from
/// member to member.
pub proof fn a_path_selects_members(
    fm: FrontmatterView,
    key: Seq<char>,
    v: YamlView,
    field: Option<Seq<char>>,
    segments: Seq<Seq<char>>,
    last: Seq<char>,
)
    requires
        key != "type"@,
    ensures
        ({
            let one = ItemPathView { path: seq![key], is_array: false, field };
            let each = ItemPathView { path: seq![key], is_array: true, field };
            &&& lookup(fm.fields, key) is None ==> members_of(fm, one) is None && members_of(
                fm,
                each,
            ) is None
            &&& lookup(fm.fields, key) == Some(v) ==> {
                &&& members_of(fm, one) == (if untagged(v) is Null {
                    None
                } else {
                    Some(seq![v])
                })
                &&& members_of(fm, each) == (match untagged(v) {
                    YamlView::Sequence(items) => Some(items),
                    _ => None,
                })
            }
            &&& value_below(v, Seq::empty()) == Some(v)
            &&& value_below(v, segments.push(last)) == (match value_below(v, segments) {
                Some(inner) => member_of(inner, last),
                None => None,
            })
        }),
{
    assert(seq![key].skip(1) =~= Seq::empty());
    assert(segments.push(last).drop_last() =~= segments);
}

/// What a list of links is worth where the rule asks for types, backlinks or
/// front matter values: a link into the tree must lead to a document of the
/// type, if one is asked for; to one that links back from one of the
/// sections, if it is known; and to one whose stem front matter names, unless
/// a backlink is asked for and nothing is known of the document.
pub open spec fn is_in_order(
    url: Seq<char>,
    req: Requirement,
    named: Seq<Seq<char>>,
    source: PathView,
    docs: Seq<LinkedDocView>,
) -> bool {
    link_target(url, source) matches Some(t) ==> {
        &&& req.target_type matches Some(w) ==> has_type(docs, t, w@)
        &&& req.backlink_in matches Some(sections) ==> forall|d: LinkedDocView| #[trigger]
            is_known(docs, t, d) ==> exists|i: int|
                0 <= i < sections.0@.len() && links_from_section(
                    d,
                    (#[trigger] sections.0@[i])@.title,
                    normalized(source),
                )
        &&& req.frontmatter_item is Some && (req.backlink_in is None || exists|d: LinkedDocView|
            is_known(docs, t, d)) ==> (stem_of(t) matches Some(name) ==> named.contains(name))
    }
}

proof fn a_link_in_order_has_no_problem(
    link: PlacedLinkView,
    req: Requirement,
    named: Seq<Seq<char>>,
    source: PathView,
    docs: Seq<LinkedDocView>,
)
    ensures
        link_problems(link, demand_of(req), named, source, docs).len() == 0 <==> is_in_order(
            link.url,
            req,
            named,
            source,
            docs,
        ),
{
    let demand = demand_of(req);
    if let Some(t) = link_target(link.url, source) {
        the_last_listed_is_known(docs, t);
        if let Some(w) = req.target_type {
            of_type_is_known(docs, t, w@);
        }
        if let Some(sections) = req.backlink_in {
            let refs = sections_view(sections.0@);
            if let Some(d) = linked_doc(docs, t) {
                assert(is_known(docs, t, d));
                if links_back(d, refs, normalized(source)) {
                    let i = choose|i: int|
                        0 <= i < refs.len() && links_from_section(
                            d,
                            (#[trigger] refs[i]).title,
                            normalized(source),
                        );
                    assert(links_from_section(d, sections.0@[i]@.title, normalized(source)));
                }
                if exists|i: int|
                    0 <= i < sections.0@.len() && links_from_section(
                        d,
                        (#[trigger] sections.0@[i])@.title,
                        normalized(source),
                    ) {
                    let i = choose|i: int|
                        0 <= i < sections.0@.len() && links_from_section(
                            d,
                            (#[trigger] sections.0@[i])@.title,
                            normalized(source),
                        );
                    assert(refs[i] == sections.0@[i]@);
                }
            }
        }
    }
}

proof fn links_are_asked_one_by_one(
    links: Seq<PlacedLinkView>,
    demand: LinkDemand,
    named: Seq<Seq<char>>,
    source: PathView,
    docs: Seq<LinkedDocView>,
)
    ensures
        links_problems_in(links, demand, named, source, docs).len() == 0 <==> forall|i: int|
            0 <= i < links.len() ==> link_problems(
                #[trigger] links[i],
                demand,
                named,
                source,
                docs,
            ).len() == 0,
    decreases links.len(),
{
    if links.len() > 0 {
        let f = links.drop_last();
        let n = links.len() - 1;
        links_are_asked_one_by_one(f, demand, named, source, docs);
        if links_problems_in(links, demand, named, source, docs).len() == 0 {
            assert forall|i: int| 0 <= i < links.len() implies link_problems(
                #[trigger] links[i],
                demand,
                named,
                source,
                docs,
            ).len() == 0 by {
                if i < n {
                    assert(f[i] == links[i]);
                }
            }
        }
        if forall|i: int|
            0 <= i < links.len() ==> link_problems(
                #[trigger] links[i],
                demand,
                named,
                source,
                docs,
            ).len() == 0 {
            assert forall|i: int| 0 <= i < f.len() implies link_problems(
                #[trigger] f[i],
                demand,
                named,
                source,
                docs,
            ).len() == 0 by {
                assert(f[i] == links[i]);
            }
            assert(link_problems(links[n], demand, named, source, docs).len() == 0);
        }
    }
}

/// A rule on the links of a section is met exactly where every link that
/// stands in the section, at any depth, is in order.
pub proof fn every_link_is_in_order(
    doc: DocumentView,
    rule: CorrespondenceRule,
    source: PathView,
    docs: Seq<LinkedDocView>,
    from: int,
    to: int,
)
    requires
        rule.each matches Selector::LinksInSection(section) && (lacks_section(doc.blocks, section@)
            || makes_section(doc.blocks, section@, from, to)),
    ensures
        ({
            let found = rule_findings(doc, rule, source, docs);
            let section = rule.each->LinksInSection_0@;
            let req = rule.requires_of;
            let named = match req.frontmatter_item {
                Some(path) => item_texts(doc.frontmatter, path@),
                None => Seq::empty(),
            };
            if lacks_section(doc.blocks, section) {
                found.len() == 0
            } else {
                found.len() == 0 <==> forall|url: Seq<char>| #[trigger]
                    holds_url(doc.blocks, from, to, url) ==> is_in_order(
                        url,
                        req,
                        named,
                        source,
                        docs,
                    )
            }
        }),
{
    let found = rule_findings(doc, rule, source, docs);
    let section = rule.each->LinksInSection_0@;
    let req = rule.requires_of;
    let named = named_values(doc, demand_of(req));
    if lacks_section(doc.blocks, section) {
        no_span_of_a_lacking_section(doc.blocks, section);
    } else {
        the_span_is_the_section(doc.blocks, section, from, to);
        let links = placed_links(doc.blocks, from, to);
        links_are_asked_one_by_one(links, demand_of(req), named, source, docs);
        if found.len() == 0 {
            assert forall|url: Seq<char>| #[trigger]
                holds_url(doc.blocks, from, to, url) implies is_in_order(
                url,
                req,
                named,
                source,
                docs,
            ) by {
                a_url_that_is_held_is_placed(doc.blocks, from, to, url);
                let i = choose|i: int| 0 <= i < links.len() && (#[trigger] links[i]).url == url;
                a_link_in_order_has_no_problem(links[i], req, named, source, docs);
            }
        }
        if forall|url: Seq<char>| #[trigger]
            holds_url(doc.blocks, from, to, url) ==> is_in_order(url, req, named, source, docs) {
            assert forall|i: int| 0 <= i < links.len() implies link_problems(
                #[trigger] links[i],
                demand_of(req),
                named,
                source,
                docs,
            ).len() == 0 by {
                a_url_that_is_held_is_placed(doc.blocks, from, to, links[i].url);
                assert(holds_url(doc.blocks, from, to, links[i].url));
                a_link_in_order_has_no_problem(links[i], req, named, source, docs);
            }
        }
    }
}

/// A document links from a section to `to` exactly where a URL that is listed
/// under the title points there.
pub proof fn links_from_a_section(d: LinkedDocView, title: Seq<char>, to: PathView)
    ensures
        links_from_section(d, title, to) <==> (lookup(d.section_links, title) matches Some(urls)
            && exists|i: int|
            0 <= i < urls.len() && link_target(#[trigger] urls[i], d.path) == Some(to)),
{
}

proof fn a_target_is_pointed_at(links: Seq<PlacedLinkView>, source: PathView, p: PathView)
    ensures
        targets_of(links, source).contains(p) <==> exists|i: int|
            0 <= i < links.len() && link_target((#[trigger] links[i]).url, source) == Some(p),
    decreases links.len(),
{
    let all = targets_of(links, source);
    if links.len() > 0 {
        let f = links.drop_last();
        let n = links.len() - 1;
        let before = targets_of(f, source);
        a_target_is_pointed_at(f, source, p);
        if before.contains(p) {
            let k = choose|k: int| 0 <= k < before.len() && before[k] == p;
            assert(all[k] == p);
            let i = choose|i: int|
                0 <= i < f.len() && link_target((#[trigger] f[i]).url, source) == Some(p);
            assert(links[i] == f[i]);
        }
        if all.contains(p) {
            let k = choose|k: int| 0 <= k < all.len() && all[k] == p;
            if k < before.len() {
                assert(before[k] == p);
            } else {
                assert(link_target(links[n].url, source) == Some(p));
            }
        }
        if exists|i: int|
            0 <= i < links.len() && link_target((#[trigger] links[i]).url, source) == Some(p) {
            let i = choose|i: int|
                0 <= i < links.len() && link_target((#[trigger] links[i]).url, source) == Some(p);
            if i < n {
                assert(f[i] == links[i]);
            } else {
                assert(all[before.len() as int] == p);
            }
        }
    }
}

proof fn unlinked_are_those(
    docs: Seq<LinkedDocView>,
    doc_type: Seq<char>,
    source: PathView,
    dir: PathView,
    recursive: bool,
    linked: Seq<PathView>,
    p: PathView,
)
    ensures
        unlinked_paths(docs, doc_type, source, dir, recursive, linked).contains(p) <==> exists|
            i: int,
        |
            0 <= i < docs.len() && is_unlinked(
                #[trigger] docs[i],
                doc_type,
                source,
                dir,
                recursive,
                linked,
            ) && normalized(docs[i].path) == p,
    decreases docs.len(),
{
    let all = unlinked_paths(docs, doc_type, source, dir, recursive, linked);
    if docs.len() > 0 {
        let f = docs.drop_last();
        let n = docs.len() - 1;
        let before = unlinked_paths(f, doc_type, source, dir, recursive, linked);
        unlinked_are_those(f, doc_type, source, dir, recursive, linked, p);
        if before.contains(p) {
            let k = choose|k: int| 0 <= k < before.len() && before[k] == p;
            assert(all[k] == p);
            let i = choose|i: int|
                0 <= i < f.len() && is_unlinked(
                    #[trigger] f[i],
                    doc_type,
                    source,
                    dir,
                    recursive,
                    linked,
                ) && normalized(f[i].path) == p;
            assert(docs[i] == f[i]);
        }
        if all.contains(p) {
            let k = choose|k: int| 0 <= k < all.len() && all[k] == p;
            if k < before.len() {
                assert(before[k] == p);
            } else {
                assert(is_unlinked(docs[n], doc_type, source, dir, recursive, linked));
            }
        }
        if exists|i: int|
            0 <= i < docs.len() && is_unlinked(
                #[trigger] docs[i],
                doc_type,
                source,
                dir,
                recursive,
                linked,
            ) && normalized(docs[i].path) == p {
            let i = choose|i: int|
                0 <= i < docs.len() && is_unlinked(
                    #[trigger] docs[i],
                    doc_type,
                    source,
                    dir,
                    recursive,
                    linked,
                ) && normalized(docs[i].path) == p;
            if i < n {
                assert(f[i] == docs[i]);
            } else {
                assert(all[before.len() as int] == p);
            }
        }
    }
}

/// Whether a link in the blocks `from..to` of the document at `source` points
/// at `p`.
pub open spec fn points_at(
    s: Seq<BlockView>,
    from: int,
    to: int,
    source: PathView,
    p: PathView,
) -> bool {
    exists|url: Seq<char>| #[trigger]
        holds_url(s, from, to, url) && link_target(url, source) == Some(p)
}

proof fn a_pointed_at_target(
    s: Seq<BlockView>,
    from: int,
    to: int,
    source: PathView,
    p: PathView,
)
    requires
        0 <= from <= to <= s.len(),
    ensures
        targets_of(placed_links(s, from, to), source).contains(p) <==> points_at(
            s,
            from,
            to,
            source,
            p,
        ),
{
    let links = placed_links(s, from, to);
    a_target_is_pointed_at(links, source, p);
    if targets_of(links, source).contains(p) {
        let i = choose|i: int|
            0 <= i < links.len() && link_target((#[trigger] links[i]).url, source) == Some(p);
        a_url_that_is_held_is_placed(s, from, to, links[i].url);
        assert(holds_url(s, from, to, links[i].url));
    }
    if points_at(s, from, to, source, p) {
        let url = choose|url: Seq<char>| #[trigger]
            holds_url(s, from, to, url) && link_target(url, source) == Some(p);
        a_url_that_is_held_is_placed(s, from, to, url);
        let i = choose|i: int| 0 <= i < links.len() && (#[trigger] links[i]).url == url;
        assert(link_target(links[i].url, source) == Some(p));
    }
}

/// Whether a document is one that a rule asks for: it has the type, is not
/// the source, and lies in the directory, or anywhere below it where the rule
/// looks there too.
pub open spec fn is_asked_for(
    d: LinkedDocView,
    doc_type: Seq<char>,
    source: PathView,
    dir: PathView,
    recursive: bool,
) -> bool {
    &&& d.doc_type == Some(doc_type)
    &&& normalized(d.path) != normalized(source)
    &&& parent_of(normalized(d.path)) matches Some(parent) && (parent == dir || recursive
        && lies_in(parent, dir))
}

proof fn sorting_keeps_the_paths(v: Seq<PathView>)
    ensures
        sorted_paths(v).len() == v.len(),
        forall|p: PathView| #[trigger] sorted_paths(v).contains(p) <==> v.contains(p),
{
    broadcast use vstd::seq_lib::group_to_multiset_ensures;

    sorted_paths_are_sorted(v);
    let s = sorted_paths(v);
    assert(s.to_multiset().len() == v.to_multiset().len());
    assert forall|p: PathView| #[trigger] s.contains(p) <==> v.contains(p) by {
        assert(s.to_multiset().count(p) == v.to_multiset().count(p));
    }
}

proof fn a_directory_lies_in_itself(dir: PathView)
    ensures
        lies_in(dir, dir),
{
    assert(dir.parts.is_prefix_of(dir.parts));
}

/// A rule that asks for a link per existing document is met exactly where a
/// link of the section points at every document that the rule asks for; a
/// section that is not there links none. Each document that is not linked is
/// reported, by its path as seen from the directory of the source.
pub proof fn every_document_needs_its_link(
    doc: DocumentView,
    rule: CorrespondenceRule,
    source: PathView,
    docs: Seq<LinkedDocView>,
    base: PathView,
    from: int,
    to: int,
)
    requires
        rule.each is DocsOfType,
        parent_of(normalized(source)) == Some(base),
        rule.requires_of.link_in matches Some(section) && (if lacks_section(doc.blocks, section@) {
            from == to == 0
        } else {
            makes_section(doc.blocks, section@, from, to)
        }),
    ensures
        ({
            let found = rule_findings(doc, rule, source, docs);
            let doc_type = rule.each->DocsOfType_doc_type@;
            let scope = rule.each->DocsOfType_scope@;
            let section = rule.requires_of.link_in->0@;
            let dir = normalized(joined_path(base, path_of(scope.dir)));
            &&& found.len() == 0 <==> forall|i: int|
                0 <= i < docs.len() && is_asked_for(
                    #[trigger] docs[i],
                    doc_type,
                    source,
                    dir,
                    scope.recursive,
                ) ==> points_at(doc.blocks, from, to, source, normalized(docs[i].path))
            &&& forall|i: int|
                0 <= i < docs.len() && is_asked_for(
                    #[trigger] docs[i],
                    doc_type,
                    source,
                    dir,
                    scope.recursive,
                ) && !points_at(doc.blocks, from, to, source, normalized(docs[i].path))
                    ==> found.contains(
                    DiagnosticView::UnlinkedDocument {
                        line: section_line(doc.blocks, section),
                        file: path_text(
                            match relative_to(normalized(docs[i].path), base) {
                                Some(rel) => rel,
                                None => normalized(docs[i].path),
                            },
                        ),
                        doc_type,
                        section: section_text(section),
                    },
                )
        }),
{
    let found = rule_findings(doc, rule, source, docs);
    let doc_type = rule.each->DocsOfType_doc_type@;
    let scope = rule.each->DocsOfType_scope@;
    let section = rule.requires_of.link_in->0@;
    let dir = normalized(joined_path(base, path_of(scope.dir)));
    let linked = section_targets(doc.blocks, section, source);
    if lacks_section(doc.blocks, section) {
        no_span_of_a_lacking_section(doc.blocks, section);
        assert(placed_links(doc.blocks, from, to) =~= Seq::empty());
        assert(targets_of(placed_links(doc.blocks, from, to), source) =~= linked);
    } else {
        the_span_is_the_section(doc.blocks, section, from, to);
    }
    let src = normalized(source);
    let paths = unlinked_paths(docs, doc_type, src, dir, scope.recursive, linked);
    let sorted = sorted_paths(paths);
    sorting_keeps_the_paths(paths);
    assert forall|i: int| 0 <= i < docs.len() implies is_unlinked(
        #[trigger] docs[i],
        doc_type,
        src,
        dir,
        scope.recursive,
        linked,
    ) == (is_asked_for(docs[i], doc_type, source, dir, scope.recursive) && !points_at(
        doc.blocks,
        from,
        to,
        source,
        normalized(docs[i].path),
    )) by {
        a_pointed_at_target(doc.blocks, from, to, source, normalized(docs[i].path));
        a_directory_lies_in_itself(dir);
    }
    assert forall|i: int|
        0 <= i < docs.len() && is_asked_for(
            #[trigger] docs[i],
            doc_type,
            source,
            dir,
            scope.recursive,
        ) && !points_at(
            doc.blocks,
            from,
            to,
            source,
            normalized(docs[i].path),
        ) implies found.contains(
        DiagnosticView::UnlinkedDocument {
            line: section_line(doc.blocks, section),
            file: path_text(
                match relative_to(normalized(docs[i].path), base) {
                    Some(rel) => rel,
                    None => normalized(docs[i].path),
                },
            ),
            doc_type,
            section: section_text(section),
        },
    ) by {
        let p = normalized(docs[i].path);
        unlinked_are_those(docs, doc_type, src, dir, scope.recursive, linked, p);
        assert(paths.contains(p));
        assert(sorted.contains(p));
        let k = choose|k: int| 0 <= k < sorted.len() && sorted[k] == p;
        assert(found[k] == DiagnosticView::UnlinkedDocument {
            line: section_line(doc.blocks, section),
            file: path_text(
                match relative_to(p, base) {
                    Some(rel) => rel,
                    None => p,
                },
            ),
            doc_type,
            section: section_text(section),
        });
    }
    if found.len() > 0 {
        let p = sorted[0];
        assert(sorted.contains(p));
        assert(paths.contains(p));
        unlinked_are_those(docs, doc_type, src, dir, scope.recursive, linked, p);
        let i = choose|i: int|
            0 <= i < docs.len() && is_unlinked(
                #[trigger] docs[i],
                doc_type,
                src,
                dir,
                scope.recursive,
                linked,
            ) && normalized(docs[i].path) == p;
        assert(is_asked_for(docs[i], doc_type, source, dir, scope.recursive));
    }
}

/// Rules are checked one by one: a document meets all rules exactly where it
/// meets each of them, and what one rule finds is found.
pub proof fn rules_are_checked_one_by_one(
    doc: DocumentView,
    rules: Seq<CorrespondenceRule>,
    source: PathView,
    docs: Seq<LinkedDocView>,
)
    ensures
        findings(doc, rules, source, docs).len() == 0 <==> forall|i: int|
            0 <= i < rules.len() ==> rule_findings(
                doc,
                #[trigger] rules[i],
                source,
                docs,
            ).len() == 0,
        forall|i: int, d: DiagnosticView|
            0 <= i < rules.len() && #[trigger] rule_findings(
                doc,
                rules[i],
                source,
                docs,
            ).contains(d) ==> findings(doc, rules, source, docs).contains(d),
    decreases rules.len(),
{
    let all = findings(doc, rules, source, docs);
    if rules.len() > 0 {
        let f = rules.drop_last();
        let n = rules.len() - 1;
        let before = findings(doc, f, source, docs);
        let own = rule_findings(doc, rules[n], source, docs);
        rules_are_checked_one_by_one(doc, f, source, docs);
        if all.len() == 0 {
            assert forall|i: int| 0 <= i < rules.len() implies rule_findings(
                doc,
                #[trigger] rules[i],
                source,
                docs,
            ).len() == 0 by {
                if i < n {
                    assert(f[i] == rules[i]);
                }
            }
        }
        if forall|i: int|
            0 <= i < rules.len() ==> rule_findings(
                doc,
                #[trigger] rules[i],
                source,
                docs,
            ).len() == 0 {
            assert forall|i: int| 0 <= i < f.len() implies rule_findings(
                doc,
                #[trigger] f[i],
                source,
                docs,
            ).len() == 0 by {
                assert(f[i] == rules[i]);
            }
            assert(rule_findings(doc, rules[n], source, docs).len() == 0);
        }
        assert forall|i: int, d: DiagnosticView|
            0 <= i < rules.len() && #[trigger] rule_findings(
                doc,
                rules[i],
                source,
                docs,
            ).contains(d) implies all.contains(d) by {
            if i < n {
                assert(f[i] == rules[i]);
                assert(rule_findings(doc, f[i], source, docs).contains(d));
                let k = choose|k: int| 0 <= k < before.len() && before[k] == d;
                assert(all[k] == d);
            } else {
                let k = choose|k: int| 0 <= k < own.len() && own[k] == d;
                assert(all[before.len() + k] == d);
            }
        }
    }
}

/// A section is found on the line of its heading.
pub proof fn a_section_has_the_line_of_its_heading(
    s: Seq<BlockView>,
    sec: SectionRefView,
    from: int,
    to: int,
)
    requires
        makes_section(s, sec, from, to),
        0 <= s[from - 1]->Heading_line <= usize::MAX,
    ensures
        section_line(s, sec) matches Some(l) && l == s[from - 1]->Heading_line,
{
    the_heading_is_found(s, sec, 0, from - 1);
}

proof fn the_heading_is_found(s: Seq<BlockView>, sec: SectionRefView, from: int, i: int)
    requires
        0 <= from <= i < s.len(),
        titles(s[i], sec),
        forall|k: int| 0 <= k < i ==> !titles(#[trigger] s[k], sec),
    ensures
        heading_at(s, sec, from) == Some(i),
    decreases i - from,
{
    if from < i {
        assert(!titles(s[from], sec));
        the_heading_is_found(s, sec, from + 1, i);
    }
}

/// A section that is nowhere has no line.
pub proof fn an_absent_section_has_no_line(s: Seq<BlockView>, sec: SectionRefView)
    requires
        lacks_section(s, sec),
    ensures
        section_line(s, sec) is None,
{
    no_heading_is_found(s, sec, 0);
}

proof fn no_heading_is_found(s: Seq<BlockView>, sec: SectionRefView, from: int)
    requires
        0 <= from,
        lacks_section(s, sec),
    ensures
        heading_at(s, sec, from) is None,
    decreases s.len() - from,
{
    if from < s.len() {
        assert(!titles(s[from], sec));
        no_heading_is_found(s, sec, from + 1);
    }
}

} // verus!
