//! What checking and formatting report of a file, and the text that
//! formatting gives it.

use crate::ast::{blocks_view, Block, BlockView, Document, DocumentView, FrontmatterView};
use crate::diagnostic::{diagnostics_view, Diagnostic, DiagnosticView};
use crate::fix::{
    all_apply, all_fixed, apply_fixes_checked, fixable, fixes_for, unfixable_change_nothing,
    Fix,
};
use crate::ordered::{distinct_keys, has_key, lookup};
use crate::parse::{
    filled, frontmatter_error, get_frontmatter_error, is_blank, is_separated, matter_of,
    normalize_blank_lines, separated, separated_is_separated, separated_keeps_separated,
    with_line,
};
use crate::path::{FilePath, PathView};
use crate::resolve::{
    option_matcher, schema_dir_in, schema_dir_of, ResolvedType, ResolvedView, SchemaDir,
};
use crate::schema::{
    filled_up, matcher_of, matcher_problem, requires_fields, vacuous_all, vacuous_view, Schema,
    TypeDef, VacuousView,
};
use crate::serialize::{
    all_entries, document_text, lines_are_not_written, names, same_but_for_lines,
    serialize_with_field_order, written_entries, written_keys_are_distinct,
};
use crate::text::{
    has_prefix, holds_text, is_space, join, joined, lines, lines_of, option_text, pieces,
    pieces_after_separator, pieces_extended, pieces_hold_no_separator, pieces_not_empty,
    starts_with, texts, trim_start, trim_start_char, trimmed_start, trimmed_start_char,
    without_cr,
};
use crate::value::YamlView;
use vstd::prelude::*;

verus! {

/// Options controlling formatting behaviour.
#[derive(Debug, Clone, Copy)]
pub struct FormatOptions {
    /// Check mode: report what would change but don't write anything.
    pub check: bool,
}

impl Default for FormatOptions {
    fn default() -> (r: FormatOptions)
        ensures
            !r.check,
    {
        FormatOptions { check: false }
    }
}

/// Diagnostics for a single file.
#[derive(Debug)]
pub struct FileError {
    pub path: FilePath,
    pub diagnostics: Vec<Diagnostic>,
}

/// What a [`FileError`] holds.
#[verifier::ext_equal]
pub struct FileErrorView {
    pub path: PathView,
    pub diagnostics: Seq<DiagnosticView>,
}

impl View for FileError {
    type V = FileErrorView;

    open spec fn view(&self) -> FileErrorView {
        FileErrorView { path: self.path@, diagnostics: diagnostics_view(self.diagnostics@) }
    }
}

/// The content of a list of file errors.
pub open spec fn errors_view(v: Seq<FileError>) -> Seq<FileErrorView> {
    v.map_values(|e: FileError| e@)
}

/// Summary returned after formatting a directory tree.
#[derive(Debug)]
pub struct FormatResult {
    pub files_checked: usize,
    pub files_changed: usize,
    pub errors: Vec<FileError>,
}

impl Default for FormatResult {
    fn default() -> (r: FormatResult)
        ensures
            r.files_checked == 0,
            r.files_changed == 0,
            errors_view(r.errors@) == Seq::<FileErrorView>::empty(),
    {
        let r = FormatResult { files_checked: 0, files_changed: 0, errors: Vec::new() };
        assert(errors_view(r.errors@) =~= Seq::empty());
        r
    }
}

// ── lists of diagnostics ──────────────────────────────────────────────────

/// A diagnostic that names no position but the given line.
fn plain(line: usize, message: String) -> (r: Vec<Diagnostic>)
    ensures
        diagnostics_view(r@) == seq![
            DiagnosticView::UnknownType { line: line as int, message: message@ },
        ],
{
    let mut out: Vec<Diagnostic> = Vec::new();
    out.push(Diagnostic::UnknownType { line, message });
    assert(diagnostics_view(out@) =~= seq![
        DiagnosticView::UnknownType { line: line as int, message: message@ },
    ]);
    out
}

fn no_diagnostics() -> (r: Vec<Diagnostic>)
    ensures
        diagnostics_view(r@) == Seq::<DiagnosticView>::empty(),
{
    let out: Vec<Diagnostic> = Vec::new();
    assert(diagnostics_view(out@) =~= Seq::empty());
    out
}

fn extend(out: &mut Vec<Diagnostic>, more: Vec<Diagnostic>)
    ensures
        diagnostics_view(final(out)@) == diagnostics_view(old(out)@) + diagnostics_view(more@),
{
    let ghost a = out@;
    let ghost b = more@;
    let mut more = more;
    out.append(&mut more);
    proof {
        assert(out@ =~= a + b);
        assert(diagnostics_view(a + b) =~= diagnostics_view(a) + diagnostics_view(b));
    }
}

/// Whether a diagnostic asks for the `type` field.
pub open spec fn asks_for_type(d: DiagnosticView) -> bool {
    d matches DiagnosticView::MissingRequiredField { field } && field == "type"@
}

/// `v` without the diagnostics that ask for the `type` field.
pub open spec fn without_type_requirement(v: Seq<DiagnosticView>) -> Seq<DiagnosticView>
    decreases v.len(),
{
    if v.len() == 0 {
        v
    } else if asks_for_type(v.last()) {
        without_type_requirement(v.drop_last())
    } else {
        without_type_requirement(v.drop_last()).push(v.last())
    }
}

/// Remove `MissingRequiredField` diagnostics for the `type` field.
///
/// Path-matched files don't need `type:` in front matter since their type is
/// determined by their location.
pub fn suppress_type_field_requirement(diagnostics: &mut Vec<Diagnostic>)
    ensures
        diagnostics_view(final(diagnostics)@) == without_type_requirement(
            diagnostics_view(old(diagnostics)@),
        ),
{
    let ghost all = diagnostics_view(diagnostics@);
    let mut rest: Vec<Diagnostic> = Vec::new();
    std::mem::swap(&mut rest, diagnostics);
    let ghost orig = rest@;
    let ghost mut done: int = 0;
    assert(orig.skip(0) =~= orig);
    assert(all.take(0) =~= Seq::empty());
    assert(diagnostics_view(diagnostics@) =~= Seq::empty());
    while rest.len() > 0
        invariant
            0 <= done <= orig.len(),
            all == diagnostics_view(orig),
            rest@ == orig.skip(done),
            diagnostics_view(diagnostics@) == without_type_requirement(all.take(done)),
        decreases rest@.len(),
    {
        assert(all.take(done + 1).drop_last() =~= all.take(done));
        assert(all.take(done + 1).last() == orig[done]@);
        assert(rest@[0] == orig[done]);
        let d = rest.remove(0);
        let drop = match &d {
            Diagnostic::MissingRequiredField { field } => field.as_str().eq("type"),
            _ => false,
        };
        if !drop {
            let ghost was = diagnostics@;
            diagnostics.push(d);
            assert(diagnostics_view(diagnostics@) =~= diagnostics_view(was).push(d@));
        }
        proof {
            done = done + 1;
            assert(rest@ =~= orig.skip(done));
        }
    }
    assert(all.take(done) =~= all);
}

/// `v` without the diagnostics that report missing front matter.
pub open spec fn without_missing_frontmatter(v: Seq<DiagnosticView>) -> Seq<DiagnosticView>
    decreases v.len(),
{
    if v.len() == 0 {
        v
    } else if v.last() is MissingFrontmatter {
        without_missing_frontmatter(v.drop_last())
    } else {
        without_missing_frontmatter(v.drop_last()).push(v.last())
    }
}

fn drop_missing_frontmatter(diagnostics: &mut Vec<Diagnostic>)
    ensures
        diagnostics_view(final(diagnostics)@) == without_missing_frontmatter(
            diagnostics_view(old(diagnostics)@),
        ),
{
    let ghost all = diagnostics_view(diagnostics@);
    let mut rest: Vec<Diagnostic> = Vec::new();
    std::mem::swap(&mut rest, diagnostics);
    let ghost orig = rest@;
    let ghost mut done: int = 0;
    assert(orig.skip(0) =~= orig);
    assert(all.take(0) =~= Seq::empty());
    assert(diagnostics_view(diagnostics@) =~= Seq::empty());
    while rest.len() > 0
        invariant
            0 <= done <= orig.len(),
            all == diagnostics_view(orig),
            rest@ == orig.skip(done),
            diagnostics_view(diagnostics@) == without_missing_frontmatter(all.take(done)),
        decreases rest@.len(),
    {
        assert(all.take(done + 1).drop_last() =~= all.take(done));
        assert(all.take(done + 1).last() == orig[done]@);
        assert(rest@[0] == orig[done]);
        let d = rest.remove(0);
        match &d {
            Diagnostic::MissingFrontmatter => {},
            _ => {
                let ghost was = diagnostics@;
                diagnostics.push(d);
                assert(diagnostics_view(diagnostics@) =~= diagnostics_view(was).push(d@));
            },
        }
        proof {
            done = done + 1;
            assert(rest@ =~= orig.skip(done));
        }
    }
    assert(all.take(done) =~= all);
}

/// The diagnostic for a path-matched file that lacks required front matter.
pub open spec fn lacks_required(name: Seq<char>) -> DiagnosticView {
    DiagnosticView::UnknownType {
        line: 1,
        message: "file matched type '"@ + name
            + "' by path but is missing required frontmatter fields"@,
    }
}

/// The diagnostics of a path-matched file without front matter: missing front
/// matter is no problem where none is required, and otherwise says what is
/// asked for.
pub open spec fn frontmatter_excused(v: Seq<DiagnosticView>, name: Seq<char>, required: bool) -> Seq<
    DiagnosticView,
> {
    if required {
        v.map_values(
            |d: DiagnosticView|
                if d is MissingFrontmatter {
                    lacks_required(name)
                } else {
                    d
                },
        )
    } else {
        without_missing_frontmatter(v)
    }
}

/// Remove `MissingFrontmatter` if a path-matched type requires no fields;
/// otherwise say what the file matched.
pub fn suppress_missing_frontmatter(diagnostics: &mut Vec<Diagnostic>, name: &str, required: bool)
    ensures
        diagnostics_view(final(diagnostics)@) == frontmatter_excused(
            diagnostics_view(old(diagnostics)@),
            name@,
            required,
        ),
{
    if !required {
        drop_missing_frontmatter(diagnostics);
        return;
    }
    let ghost all = diagnostics_view(diagnostics@);
    let ghost want = frontmatter_excused(all, name@, required);
    let mut i: usize = 0;
    while i < diagnostics.len()
        invariant
            i <= diagnostics.len(),
            required,
            all == diagnostics_view(old(diagnostics)@),
            want == frontmatter_excused(all, name@, required),
            diagnostics.len() == all.len(),
            forall|k: int| 0 <= k < i ==> (#[trigger] diagnostics@[k])@ == want[k],
            forall|k: int| i <= k < all.len() ==> (#[trigger] diagnostics@[k])@ == all[k],
        decreases diagnostics.len() - i,
    {
        let missing = match &diagnostics[i] {
            Diagnostic::MissingFrontmatter => true,
            _ => false,
        };
        if missing {
            let mut message = String::from_str("file matched type '");
            message.append(name);
            message.append("' by path but is missing required frontmatter fields");
            diagnostics.set(i, Diagnostic::UnknownType { line: 1, message });
        }
        i += 1;
    }
    assert(diagnostics_view(diagnostics@) =~= want);
}

/// The diagnostics of a file whose front matter does not parse: the error
/// comes first, in place of any report that front matter is missing.
pub open spec fn with_error_reported(v: Seq<DiagnosticView>, error: Option<Seq<char>>) -> Seq<
    DiagnosticView,
> {
    match error {
        Some(e) => seq![
            DiagnosticView::UnknownType { line: 1, message: "frontmatter parse error: "@ + e },
        ] + without_missing_frontmatter(v),
        None => v,
    }
}

/// Report why front matter does not parse, where it does not.
pub fn report_error(diagnostics: &mut Vec<Diagnostic>, error: Option<String>) -> (r: bool)
    ensures
        diagnostics_view(final(diagnostics)@) == with_error_reported(
            diagnostics_view(old(diagnostics)@),
            option_text(error),
        ),
        r == (error is Some),
{
    match error {
        Some(e) => {
            drop_missing_frontmatter(diagnostics);
            let mut message = String::from_str("frontmatter parse error: ");
            message.append(e.as_str());
            let ghost was = diagnostics@;
            let d = Diagnostic::UnknownType { line: 1, message };
            diagnostics.insert(0, d);
            assert(diagnostics_view(diagnostics@) =~= seq![d@] + diagnostics_view(was));
            true
        },
        None => false,
    }
}

/// Why the front matter of a text does not parse, for a document that has
/// none.
pub open spec fn unparsed_frontmatter(content: Seq<char>, doc: DocumentView) -> Option<Seq<char>> {
    if doc.frontmatter is Some {
        None
    } else {
        frontmatter_error(matter_of(content).0)
    }
}

/// Report a front matter block that exists but doesn't parse. Returns whether
/// there was one.
///
/// A block that fails to deserialize isn't in the document, so every other
/// check has run against a document that looks like it has no front matter
/// at all. So this is reported unconditionally.
pub fn report_frontmatter_error(
    diagnostics: &mut Vec<Diagnostic>,
    content: &str,
    doc: &Document,
) -> (r: bool)
    ensures
        diagnostics_view(final(diagnostics)@) == with_error_reported(
            diagnostics_view(old(diagnostics)@),
            unparsed_frontmatter(content@, doc@),
        ),
        r == (unparsed_frontmatter(content@, doc@) is Some),
{
    if doc.frontmatter.is_some() {
        return false;
    }
    report_error(diagnostics, get_frontmatter_error(content))
}

// ── checking a document ───────────────────────────────────────────────────

/// Whether a type of the schema requires front matter fields.
pub open spec fn type_requires(types: Seq<(Seq<char>, TypeDef)>, name: Seq<char>) -> bool {
    lookup(types, name) matches Some(td) && (td.frontmatter matches Some(fm) && requires_fields(
        fm.schema@,
    ))
}

fn requires_frontmatter(schema: &Schema, name: &str) -> (r: bool)
    ensures
        r == type_requires(schema.types@, name@),
{
    match schema.get_type(name) {
        Some(td) => td.has_required_frontmatter(),
        None => false,
    }
}

/// The diagnostics that the resolved type leads to, given what its checks
/// found; `None` where the file is passed over. A schema that exists only
/// virtually covers no file that matches none of its patterns.
pub open spec fn type_findings(
    resolved: ResolvedView,
    schema_exists: bool,
    found: Seq<DiagnosticView>,
) -> Option<Seq<DiagnosticView>> {
    match resolved {
        ResolvedView::Explicit(_) => Some(found),
        ResolvedView::PathMatched(_) => Some(without_type_requirement(found)),
        ResolvedView::OptedOut => None,
        ResolvedView::Conflict(types) => Some(
            seq![
                DiagnosticView::UnknownType {
                    line: 0,
                    message: "file matches path patterns from multiple types: "@ + joined(
                        types,
                        ", "@,
                    ),
                },
            ],
        ),
        ResolvedView::Unknown => if schema_exists {
            Some(found)
        } else {
            None
        },
    }
}

/// The diagnostics of a file that may lack front matter.
pub open spec fn excused(
    v: Seq<DiagnosticView>,
    resolved: ResolvedView,
    types: Seq<(Seq<char>, TypeDef)>,
    doc: DocumentView,
) -> Seq<DiagnosticView> {
    match resolved {
        ResolvedView::PathMatched(name) => if doc.frontmatter is None {
            frontmatter_excused(v, name, type_requires(types, name))
        } else {
            v
        },
        _ => v,
    }
}

/// The content of optional diagnostics.
pub open spec fn option_diagnostics(v: Option<Vec<Diagnostic>>) -> Option<Seq<DiagnosticView>> {
    match v {
        Some(v) => Some(diagnostics_view(v@)),
        None => None,
    }
}

fn resolve_findings(resolved: &ResolvedType, schema_exists: bool, found: Vec<Diagnostic>) -> (r:
    Option<Vec<Diagnostic>>)
    ensures
        option_diagnostics(r) == type_findings(
            resolved@,
            schema_exists,
            diagnostics_view(found@),
        ),
{
    match resolved {
        ResolvedType::Explicit(_) => Some(found),
        ResolvedType::PathMatched(_) => {
            let mut found = found;
            suppress_type_field_requirement(&mut found);
            Some(found)
        },
        ResolvedType::OptedOut => None,
        ResolvedType::Conflict(types) => {
            let mut message = String::from_str("file matches path patterns from multiple types: ");
            let all = join(types, ", ");
            message.append(all.as_str());
            Some(plain(0, message))
        },
        ResolvedType::Unknown => if schema_exists {
            Some(found)
        } else {
            None
        },
    }
}

fn excuse(
    diagnostics: &mut Vec<Diagnostic>,
    resolved: &ResolvedType,
    schema: &Schema,
    doc: &Document,
)
    ensures
        diagnostics_view(final(diagnostics)@) == excused(
            diagnostics_view(old(diagnostics)@),
            resolved@,
            schema.types@,
            doc@,
        ),
{
    if let ResolvedType::PathMatched(name) = resolved {
        if doc.frontmatter.is_none() {
            let required = requires_frontmatter(schema, name.as_str());
            suppress_missing_frontmatter(diagnostics, name.as_str(), required);
        }
    }
}

/// What checking a covered file reports.
pub open spec fn check_findings(
    resolved: ResolvedView,
    types: Seq<(Seq<char>, TypeDef)>,
    schema_exists: bool,
    doc: DocumentView,
    error: Option<Seq<char>>,
    found: Seq<DiagnosticView>,
    malformed: Seq<DiagnosticView>,
) -> Seq<DiagnosticView> {
    match type_findings(resolved, schema_exists, found) {
        Some(v) => with_error_reported(excused(v, resolved, types, doc), error) + malformed,
        None => Seq::empty(),
    }
}

/// What checking a covered file reports: `found` is what the checks of its
/// type (or of a document without one) found, `malformed` the malformed
/// links of its text.
pub fn check_document(
    resolved: &ResolvedType,
    schema: &Schema,
    schema_exists: bool,
    content: &str,
    doc: &Document,
    found: Vec<Diagnostic>,
    malformed: Vec<Diagnostic>,
) -> (r: Vec<Diagnostic>)
    ensures
        diagnostics_view(r@) == check_findings(
            resolved@,
            schema.types@,
            schema_exists,
            doc@,
            unparsed_frontmatter(content@, doc@),
            diagnostics_view(found@),
            diagnostics_view(malformed@),
        ),
{
    match resolve_findings(resolved, schema_exists, found) {
        Some(mut v) => {
            excuse(&mut v, resolved, schema, doc);
            let _reported = report_frontmatter_error(&mut v, content, doc);
            extend(&mut v, malformed);
            v
        },
        None => no_diagnostics(),
    }
}

/// A front matter block that does not parse is always reported, whatever else
/// is: it comes first.
pub proof fn broken_frontmatter_is_reported(
    resolved: ResolvedView,
    types: Seq<(Seq<char>, TypeDef)>,
    schema_exists: bool,
    doc: DocumentView,
    error: Seq<char>,
    found: Seq<DiagnosticView>,
    malformed: Seq<DiagnosticView>,
)
    requires
        type_findings(resolved, schema_exists, found) is Some,
    ensures
        ({
            let r = check_findings(
                resolved,
                types,
                schema_exists,
                doc,
                Some(error),
                found,
                malformed,
            );
            r.len() > 0 && r[0] == (DiagnosticView::UnknownType {
                line: 1,
                message: "frontmatter parse error: "@ + error,
            })
        }),
{
}

// ── formatting a document ─────────────────────────────────────────────────

/// What formatting finds wrong with a covered file; `None` where the file is
/// passed over.
pub open spec fn format_findings(
    resolved: ResolvedView,
    types: Seq<(Seq<char>, TypeDef)>,
    schema_exists: bool,
    doc: DocumentView,
    error: Option<Seq<char>>,
    found: Seq<DiagnosticView>,
    malformed: Seq<DiagnosticView>,
) -> Option<Seq<DiagnosticView>> {
    match type_findings(resolved, schema_exists, found) {
        Some(v) => Some(with_error_reported(excused(v + malformed, resolved, types, doc), error)),
        None => None,
    }
}

/// The diagnostics of `v` that are fixable, or those that are not.
pub open spec fn sorted_out(v: Seq<DiagnosticView>, which: bool) -> Seq<DiagnosticView>
    decreases v.len(),
{
    if v.len() == 0 {
        v
    } else if fixable(v.last()) == which {
        sorted_out(v.drop_last(), which).push(v.last())
    } else {
        sorted_out(v.drop_last(), which)
    }
}

/// Split diagnostics into fixable ones and others, each in order.
pub fn partition(diagnostics: Vec<Diagnostic>) -> (r: (Vec<Diagnostic>, Vec<Diagnostic>))
    ensures
        diagnostics_view(r.0@) == sorted_out(diagnostics_view(diagnostics@), true),
        diagnostics_view(r.1@) == sorted_out(diagnostics_view(diagnostics@), false),
{
    let ghost orig = diagnostics@;
    let ghost all = diagnostics_view(orig);
    let mut rest = diagnostics;
    let mut yes: Vec<Diagnostic> = Vec::new();
    let mut no: Vec<Diagnostic> = Vec::new();
    let ghost mut done: int = 0;
    assert(orig.skip(0) =~= orig);
    assert(all.take(0) =~= Seq::empty());
    assert(diagnostics_view(yes@) =~= Seq::empty());
    assert(diagnostics_view(no@) =~= Seq::empty());
    while rest.len() > 0
        invariant
            0 <= done <= orig.len(),
            all == diagnostics_view(orig),
            rest@ == orig.skip(done),
            diagnostics_view(yes@) == sorted_out(all.take(done), true),
            diagnostics_view(no@) == sorted_out(all.take(done), false),
        decreases rest@.len(),
    {
        assert(all.take(done + 1).drop_last() =~= all.take(done));
        assert(all.take(done + 1).last() == orig[done]@);
        assert(rest@[0] == orig[done]);
        let d = rest.remove(0);
        if Fix::is_fixable(&d) {
            let ghost was = yes@;
            yes.push(d);
            assert(diagnostics_view(yes@) =~= diagnostics_view(was).push(d@));
        } else {
            let ghost was = no@;
            no.push(d);
            assert(diagnostics_view(no@) =~= diagnostics_view(was).push(d@));
        }
        proof {
            done = done + 1;
            assert(rest@ =~= orig.skip(done));
        }
    }
    assert(all.take(done) =~= all);
    (yes, no)
}

/// `s` without the blank lines at its end.
pub open spec fn without_trailing_blanks(s: Seq<BlockView>) -> Seq<BlockView>
    decreases s.len(),
{
    if s.len() > 0 && s.last() == BlockView::BlankLine {
        without_trailing_blanks(s.drop_last())
    } else {
        s
    }
}

fn strip_trailing_blanks(blocks: &mut Vec<Block>)
    ensures
        blocks_view(final(blocks)@) == without_trailing_blanks(blocks_view(old(blocks)@)),
{
    while blocks.len() > 0 && is_blank(&blocks[blocks.len() - 1])
        invariant
            without_trailing_blanks(blocks_view(blocks@)) == without_trailing_blanks(
                blocks_view(old(blocks)@),
            ),
        decreases blocks.len(),
    {
        let ghost was = blocks@;
        let _last = blocks.pop();
        proof {
            assert(blocks_view(was).last() == was.last()@);
            assert(blocks_view(blocks@) =~= blocks_view(was).drop_last());
        }
    }
    assert(blocks@.len() > 0 ==> blocks_view(blocks@).last() == blocks@.last()@);
}

/// `names` without those that come a second time.
pub open spec fn first_names(names: Seq<Seq<char>>) -> Seq<Seq<char>>
    decreases names.len(),
{
    if names.len() == 0 {
        names
    } else {
        let before = first_names(names.drop_last());
        if before.contains(names.last()) {
            before
        } else {
            before.push(names.last())
        }
    }
}

proof fn first_names_are_distinct(names: Seq<Seq<char>>)
    ensures
        first_names(names).no_duplicates(),
    decreases names.len(),
{
    if names.len() > 0 {
        first_names_are_distinct(names.drop_last());
    }
}

/// The order in which a document of the resolved type writes its front
/// matter: `type`, then the properties as the schema declares them, each name
/// once.
pub open spec fn field_order_of(resolved: ResolvedView, types: Seq<(Seq<char>, TypeDef)>) -> Seq<
    Seq<char>,
> {
    let name = match resolved {
        ResolvedView::Explicit(n) => Some(n),
        ResolvedView::PathMatched(n) => Some(n),
        _ => None,
    };
    match name {
        Some(n) => match lookup(types, n) {
            Some(td) => first_names(
                seq!["type"@] + (match td.frontmatter {
                    Some(fm) => texts(fm.property_order@),
                    None => Seq::empty(),
                }),
            ),
            None => Seq::empty(),
        },
        None => Seq::empty(),
    }
}

fn field_order(resolved: &ResolvedType, schema: &Schema) -> (r: Vec<String>)
    ensures
        texts(r@) == field_order_of(resolved@, schema.types@),
{
    let name = match resolved {
        ResolvedType::Explicit(n) => Some(n),
        ResolvedType::PathMatched(n) => Some(n),
        _ => None,
    };
    let mut out: Vec<String> = Vec::new();
    assert(texts(out@) =~= Seq::empty());
    if let Some(n) = name {
        if let Some(td) = schema.get_type(n.as_str()) {
            let mut more = td.frontmatter_field_order();
            let ghost m = more@;
            out.push(String::from_str("type"));
            let ghost first = out@;
            out.append(&mut more);
            assert(out@ =~= first + m);
            assert(texts(out@) =~= seq!["type"@] + texts(m));
            return keep_first(&out);
        }
    }
    out
}

fn keep_first(v: &Vec<String>) -> (r: Vec<String>)
    ensures
        texts(r@) == first_names(texts(v@)),
{
    let ghost all = texts(v@);
    let mut out: Vec<String> = Vec::new();
    let mut i: usize = 0;
    assert(texts(out@) =~= first_names(all.take(0)));
    while i < v.len()
        invariant
            i <= v.len(),
            all == texts(v@),
            texts(out@) == first_names(all.take(i as int)),
        decreases v.len() - i,
    {
        assert(all.take(i + 1).drop_last() =~= all.take(i as int));
        assert(all.take(i + 1).last() == v@[i as int]@);
        if !holds_text(&out, v[i].as_str()) {
            let ghost was = out@;
            out.push(v[i].clone());
            assert(texts(out@) =~= texts(was).push(v@[i as int]@));
        }
        i += 1;
    }
    assert(all.take(all.len() as int) =~= all);
    out
}

/// In what formatting writes, each key of front matter stands exactly once:
/// no two entries have the same key, and every entry is there.
pub proof fn each_key_is_written_once(
    fm: FrontmatterView,
    resolved: ResolvedView,
    types: Seq<(Seq<char>, TypeDef)>,
)
    requires
        distinct_keys(fm.fields),
        !has_key(fm.fields, "type"@),
    ensures
        distinct_keys(written_entries(fm, field_order_of(resolved, types))),
        written_entries(fm, field_order_of(resolved, types)).to_multiset() == all_entries(
            fm,
        ).to_multiset(),
{
    let order = field_order_of(resolved, types);
    let name = match resolved {
        ResolvedView::Explicit(n) => Some(n),
        ResolvedView::PathMatched(n) => Some(n),
        _ => None,
    };
    if let Some(n) = name {
        if let Some(td) = lookup(types, n) {
            first_names_are_distinct(
                seq!["type"@] + (match td.frontmatter {
                    Some(fm) => texts(fm.property_order@),
                    None => Seq::empty(),
                }),
            );
        }
    }
    assert(order.no_duplicates());
    written_keys_are_distinct(fm, order);
}

fn write_ordered(doc: &Document, order: &Vec<String>) -> (r: String)
    ensures
        r@ == document_text(doc@, texts(order@)),
{
    let mut refs: Vec<&str> = Vec::new();
    let mut i: usize = 0;
    while i < order.len()
        invariant
            i <= order.len(),
            refs.len() == i,
            forall|k: int| 0 <= k < i ==> (#[trigger] refs@[k])@ == order@[k]@,
        decreases order.len() - i,
    {
        refs.push(order[i].as_str());
        i += 1;
    }
    assert(names(refs@) =~= texts(order@));
    serialize_with_field_order(doc, refs.as_slice())
}

/// What formatting a file comes to.
#[derive(Debug)]
pub struct Formatted {
    /// Whether the file's text changes; `None` where the file is not
    /// rewritten whatever it holds.
    pub changed: Option<bool>,
    /// The new text, where it differs.
    pub text: Option<String>,
    /// The diagnostics that no fix answers.
    pub unfixable: Vec<Diagnostic>,
}

/// What a [`Formatted`] holds.
#[verifier::ext_equal]
pub struct FormattedView {
    pub changed: Option<bool>,
    pub text: Option<Seq<char>>,
    pub unfixable: Seq<DiagnosticView>,
}

impl View for Formatted {
    type V = FormattedView;

    open spec fn view(&self) -> FormattedView {
        FormattedView {
            changed: self.changed,
            text: option_text(self.text),
            unfixable: diagnostics_view(self.unfixable@),
        }
    }
}

/// The blocks of a document after fixing, with blank lines put right.
pub open spec fn formatted_blocks(s: Seq<BlockView>, diags: Seq<DiagnosticView>) -> Seq<BlockView> {
    without_trailing_blanks(separated(all_fixed(fixes_for(s, sorted_out(diags, true)), s)))
}

/// Whether each fix for the fixable diagnostics can be applied.
pub open spec fn fixes_apply(s: Seq<BlockView>, diags: Seq<DiagnosticView>) -> bool {
    all_apply(fixes_for(s, sorted_out(diags, true)), s)
}

/// What formatting a file with the given findings comes to. A file whose
/// front matter does not parse keeps its text: the block is not in the
/// document, so writing the document would drop it.
pub open spec fn formatted_with(
    diags: Seq<DiagnosticView>,
    broken: bool,
    content: Seq<char>,
    doc: DocumentView,
    order: Seq<Seq<char>>,
) -> FormattedView {
    let text = document_text(
        DocumentView { frontmatter: doc.frontmatter, blocks: formatted_blocks(doc.blocks, diags) },
        order,
    );
    if broken {
        FormattedView { changed: None, text: None, unfixable: sorted_out(diags, false) }
    } else if text == content {
        FormattedView { changed: Some(false), text: None, unfixable: sorted_out(diags, false) }
    } else {
        FormattedView { changed: Some(true), text: Some(text), unfixable: sorted_out(diags, false) }
    }
}

/// What formatting a file that is passed over comes to: nothing is done.
pub open spec fn passed_over(resolved: ResolvedView) -> FormattedView {
    FormattedView {
        changed: if resolved is OptedOut {
            Some(false)
        } else {
            None
        },
        text: None,
        unfixable: Seq::empty(),
    }
}

/// Format a document with the given findings; `None` where a fix for them
/// does not apply to it.
pub fn format_with(
    diagnostics: Vec<Diagnostic>,
    broken: bool,
    content: &str,
    doc: Document,
    order: &Vec<String>,
) -> (r: Option<Formatted>)
    ensures
        match r {
            Some(f) => fixes_apply(doc@.blocks, diagnostics_view(diagnostics@)) && f@
                == formatted_with(
                diagnostics_view(diagnostics@),
                broken,
                content@,
                doc@,
                texts(order@),
            ),
            None => !fixes_apply(doc@.blocks, diagnostics_view(diagnostics@)),
        },
{
    let ghost before = doc@;
    let ghost diags = diagnostics_view(diagnostics@);
    let (fixable_ones, unfixable) = partition(diagnostics);
    let mut doc = doc;
    if !apply_fixes_checked(&mut doc, fixable_ones.as_slice()) {
        return None;
    }
    normalize_blank_lines(&mut doc.blocks);
    strip_trailing_blanks(&mut doc.blocks);
    assert(doc@ =~= DocumentView {
        frontmatter: before.frontmatter,
        blocks: formatted_blocks(before.blocks, diags),
    });
    if broken {
        return Some(Formatted { changed: None, text: None, unfixable });
    }
    let text = write_ordered(&doc, order);
    if text.as_str().eq(content) {
        Some(Formatted { changed: Some(false), text: None, unfixable })
    } else {
        Some(Formatted { changed: Some(true), text: Some(text), unfixable })
    }
}

/// What formatting a covered file comes to; `None` where a fix does not
/// apply.
pub open spec fn format_outcome(
    resolved: ResolvedView,
    types: Seq<(Seq<char>, TypeDef)>,
    schema_exists: bool,
    content: Seq<char>,
    doc: DocumentView,
    error: Option<Seq<char>>,
    found: Seq<DiagnosticView>,
    malformed: Seq<DiagnosticView>,
) -> Option<FormattedView> {
    match format_findings(resolved, types, schema_exists, doc, error, found, malformed) {
        None => Some(passed_over(resolved)),
        Some(diags) => if fixes_apply(doc.blocks, diags) {
            Some(
                formatted_with(diags, error is Some, content, doc, field_order_of(resolved, types)),
            )
        } else {
            None
        },
    }
}

/// The content of an optional outcome.
pub open spec fn option_formatted(f: Option<Formatted>) -> Option<FormattedView> {
    match f {
        Some(f) => Some(f@),
        None => None,
    }
}

/// Format a covered file: fix what can be fixed, put blank lines right and
/// write the document. `found` is what the checks of its type (or of a
/// document without one) found, `malformed` the malformed links of its text.
/// `None` where a fix for a finding does not apply to the document.
pub fn format_document(
    resolved: &ResolvedType,
    schema: &Schema,
    schema_exists: bool,
    content: &str,
    doc: Document,
    found: Vec<Diagnostic>,
    malformed: Vec<Diagnostic>,
) -> (r: Option<Formatted>)
    ensures
        option_formatted(r) == format_outcome(
            resolved@,
            schema.types@,
            schema_exists,
            content@,
            doc@,
            unparsed_frontmatter(content@, doc@),
            diagnostics_view(found@),
            diagnostics_view(malformed@),
        ),
{
    match resolve_findings(resolved, schema_exists, found) {
        None => {
            let changed = match resolved {
                ResolvedType::OptedOut => Some(false),
                _ => None,
            };
            Some(Formatted { changed, text: None, unfixable: no_diagnostics() })
        },
        Some(mut v) => {
            extend(&mut v, malformed);
            excuse(&mut v, resolved, schema, &doc);
            let broken = report_frontmatter_error(&mut v, content, &doc);
            let order = field_order(resolved, schema);
            format_with(v, broken, content, doc, &order)
        },
    }
}

/// A file whose front matter does not parse is never rewritten, and neither
/// is one that opted out.
pub proof fn broken_frontmatter_is_kept(
    resolved: ResolvedView,
    types: Seq<(Seq<char>, TypeDef)>,
    schema_exists: bool,
    content: Seq<char>,
    doc: DocumentView,
    error: Option<Seq<char>>,
    found: Seq<DiagnosticView>,
    malformed: Seq<DiagnosticView>,
)
    requires
        error is Some || resolved is OptedOut,
    ensures
        format_outcome(
            resolved,
            types,
            schema_exists,
            content,
            doc,
            error,
            found,
            malformed,
        ) matches Some(f) ==> f.text is None,
{
}

/// The blocks that formatting writes are settled: no two of them touch, none
/// at their end is blank, and putting blank lines right again changes nothing.
pub proof fn formatted_blocks_are_settled(s: Seq<BlockView>, diags: Seq<DiagnosticView>)
    ensures
        is_separated(formatted_blocks(s, diags)),
        separated(formatted_blocks(s, diags)) == formatted_blocks(s, diags),
        without_trailing_blanks(formatted_blocks(s, diags)) == formatted_blocks(s, diags),
{
    let spread = separated(all_fixed(fixes_for(s, sorted_out(diags, true)), s));
    separated_is_separated(all_fixed(fixes_for(s, sorted_out(diags, true)), s));
    stripped_is_settled(spread);
    separated_keeps_separated(formatted_blocks(s, diags));
}

proof fn stripped_is_settled(s: Seq<BlockView>)
    requires
        is_separated(s),
    ensures
        is_separated(without_trailing_blanks(s)),
        without_trailing_blanks(without_trailing_blanks(s)) == without_trailing_blanks(s),
    decreases s.len(),
{
    if s.len() > 0 && s.last() == BlockView::BlankLine {
        assert(is_separated(s.drop_last()));
        stripped_is_settled(s.drop_last());
    }
}

/// What front matter writes, as entries; `None` for a document without any.
pub open spec fn written_frontmatter(fm: Option<FrontmatterView>, order: Seq<Seq<char>>) -> Option<
    Seq<(Seq<char>, YamlView)>,
> {
    match fm {
        Some(fm) => Some(written_entries(fm, order)),
        None => None,
    }
}

/// Formatting is idempotent: where the text that was written reads back as
/// the document it was written from, and nothing fixable is found in it any
/// more, formatting it again does not change it.
pub proof fn formatted_text_holds_still(
    doc: DocumentView,
    diags: Seq<DiagnosticView>,
    order: Seq<Seq<char>>,
    again: DocumentView,
    later: Seq<DiagnosticView>,
)
    requires
        written_frontmatter(again.frontmatter, order) == written_frontmatter(doc.frontmatter, order),
        same_but_for_lines(again.blocks, formatted_blocks(doc.blocks, diags)),
        forall|i: int| 0 <= i < later.len() ==> !fixable(#[trigger] later[i]),
    ensures
        ({
            let text = document_text(
                DocumentView {
                    frontmatter: doc.frontmatter,
                    blocks: formatted_blocks(doc.blocks, diags),
                },
                order,
            );
            &&& fixes_apply(again.blocks, later)
            &&& formatted_with(later, false, text, again, order) == (FormattedView {
                changed: Some(false),
                text: None,
                unfixable: later,
            })
        }),
{
    let s = formatted_blocks(doc.blocks, diags);
    let t = again.blocks;
    formatted_blocks_are_settled(doc.blocks, diags);
    assert(is_separated(t)) by {
        assert forall|i: int, j: int| 0 <= i && j == i + 1 && j < t.len() implies #[trigger] t[i]
            == BlockView::BlankLine || #[trigger] t[j] == BlockView::BlankLine by {
            assert(with_line(s[i], 0) == with_line(t[i], 0));
            assert(with_line(s[j], 0) == with_line(t[j], 0));
        }
    }
    separated_keeps_separated(t);
    if t.len() > 0 {
        let n = t.len() - 1;
        assert(with_line(s[n], 0) == with_line(t[n], 0));
        stripped_end(s);
    }
    all_unfixable(later);
    unfixable_change_nothing(t, sorted_out(later, true));
    lines_are_not_written(t, s, true);
}

proof fn stripped_end(s: Seq<BlockView>)
    requires
        without_trailing_blanks(s) == s,
        s.len() > 0,
    ensures
        s.last() != BlockView::BlankLine,
{
    if s.last() == BlockView::BlankLine {
        stripped_is_no_longer(s.drop_last());
    }
}

proof fn stripped_is_no_longer(s: Seq<BlockView>)
    ensures
        without_trailing_blanks(s).len() <= s.len(),
    decreases s.len(),
{
    if s.len() > 0 && s.last() == BlockView::BlankLine {
        stripped_is_no_longer(s.drop_last());
    }
}

proof fn all_unfixable(v: Seq<DiagnosticView>)
    requires
        forall|i: int| 0 <= i < v.len() ==> !fixable(#[trigger] v[i]),
    ensures
        sorted_out(v, true) == Seq::<DiagnosticView>::empty(),
        sorted_out(v, false) == v,
    decreases v.len(),
{
    if v.len() > 0 {
        assert(!fixable(v[v.len() - 1]));
        all_unfixable(v.drop_last());
        assert(v.drop_last().push(v.last()) =~= v);
    }
}

/// Every finding is either fixed or reported: the two lists together are as
/// long as all, and no list holds what belongs to the other.
pub proof fn findings_are_fixed_or_reported(v: Seq<DiagnosticView>)
    ensures
        sorted_out(v, true).len() + sorted_out(v, false).len() == v.len(),
        sorted_out(v, true).to_multiset().add(sorted_out(v, false).to_multiset())
            == v.to_multiset(),
        forall|i: int|
            0 <= i < sorted_out(v, true).len() ==> fixable(#[trigger] sorted_out(v, true)[i]),
        forall|i: int|
            0 <= i < sorted_out(v, false).len() ==> !fixable(#[trigger] sorted_out(v, false)[i]),
    decreases v.len(),
{
    broadcast use vstd::seq_lib::group_to_multiset_ensures;

    if v.len() > 0 {
        findings_are_fixed_or_reported(v.drop_last());
        assert(v.drop_last().push(v.last()) =~= v);
        assert(sorted_out(v, true).to_multiset().add(sorted_out(v, false).to_multiset())
            =~= v.to_multiset());
    } else {
        assert(sorted_out(v, true).to_multiset().add(sorted_out(v, false).to_multiset())
            =~= v.to_multiset());
    }
}

// ── summing up ────────────────────────────────────────────────────────────

/// What became of one file: its outcome, or why it could not be processed.
#[derive(Debug)]
pub struct FileOutcome {
    pub path: FilePath,
    pub outcome: Result<(Option<bool>, Vec<Diagnostic>), String>,
}

/// Whether a file changed.
pub open spec fn is_changed(o: FileOutcome) -> bool {
    o.outcome matches Ok(p) && p.0 == Some(true)
}

/// The number of files that changed.
pub open spec fn changed_count(v: Seq<FileOutcome>) -> nat
    decreases v.len(),
{
    if v.len() == 0 {
        0
    } else {
        changed_count(v.drop_last()) + (if is_changed(v.last()) {
            1nat
        } else {
            0
        })
    }
}

/// What an outcome adds to the errors: the diagnostics, where there are any,
/// or the reason why there are none.
pub open spec fn outcome_errors(o: FileOutcome) -> Seq<FileErrorView> {
    match o.outcome {
        Ok(p) => if p.1@.len() > 0 {
            seq![FileErrorView { path: o.path@, diagnostics: diagnostics_view(p.1@) }]
        } else {
            Seq::empty()
        },
        Err(e) => seq![
            FileErrorView {
                path: o.path@,
                diagnostics: seq![
                    DiagnosticView::UnknownType {
                        line: 0,
                        message: "error processing file: "@ + e@,
                    },
                ],
            },
        ],
    }
}

/// What outcomes add to the errors, in order.
pub open spec fn all_outcome_errors(v: Seq<FileOutcome>) -> Seq<FileErrorView>
    decreases v.len(),
{
    if v.len() == 0 {
        Seq::empty()
    } else {
        all_outcome_errors(v.drop_last()) + outcome_errors(v.last())
    }
}

proof fn changed_count_bound(v: Seq<FileOutcome>, n: int)
    requires
        0 <= n <= v.len(),
    ensures
        changed_count(v.take(n)) <= n,
    decreases n,
{
    if n > 0 {
        assert(v.take(n).drop_last() =~= v.take(n - 1));
        changed_count_bound(v, n - 1);
    }
}

impl FormatResult {
    /// Add one error.
    fn add_error(&mut self, path: FilePath, diagnostics: Vec<Diagnostic>)
        ensures
            errors_view(final(self).errors@) == errors_view(old(self).errors@).push(
                FileErrorView { path: path@, diagnostics: diagnostics_view(diagnostics@) },
            ),
            final(self).files_checked == old(self).files_checked,
            final(self).files_changed == old(self).files_changed,
    {
        let ghost was = self.errors@;
        let e = FileError { path, diagnostics };
        self.errors.push(e);
        assert(errors_view(self.errors@) =~= errors_view(was).push(e@));
    }

    /// Sum up what became of each file.
    pub fn tally(&mut self, outcomes: Vec<FileOutcome>)
        requires
            old(self).files_changed + outcomes@.len() <= usize::MAX,
        ensures
            final(self).files_checked == old(self).files_checked,
            final(self).files_changed == old(self).files_changed + changed_count(outcomes@),
            errors_view(final(self).errors@) == errors_view(old(self).errors@)
                + all_outcome_errors(outcomes@),
    {
        let ghost all = outcomes@;
        let ghost start = errors_view(self.errors@);
        let ghost base = self.files_changed;
        let mut rest = outcomes;
        let ghost mut done: int = 0;
        assert(all.skip(0) =~= all);
        assert(all.take(0) =~= Seq::empty());
        assert(start + Seq::<FileErrorView>::empty() =~= start);
        while rest.len() > 0
            invariant
                0 <= done <= all.len(),
                rest@ == all.skip(done),
                base + all.len() <= usize::MAX,
                start == errors_view(old(self).errors@),
                base == old(self).files_changed,
                self.files_checked == old(self).files_checked,
                self.files_changed == base + changed_count(all.take(done)),
                errors_view(self.errors@) == start + all_outcome_errors(all.take(done)),
            decreases rest@.len(),
        {
            let ghost o = all[done];
            let ghost was = errors_view(self.errors@);
            proof {
                assert(all.take(done + 1).drop_last() =~= all.take(done));
                assert(rest@[0] == o);
                changed_count_bound(all, done);
            }
            let FileOutcome { path, outcome } = rest.remove(0);
            match outcome {
                Ok((changed, unfixable)) => {
                    if let Some(true) = changed {
                        self.files_changed = self.files_changed + 1;
                    }
                    if unfixable.len() > 0 {
                        self.add_error(path, unfixable);
                    }
                },
                Err(e) => {
                    let mut message = String::from_str("error processing file: ");
                    message.append(e.as_str());
                    self.add_error(path, plain(0, message));
                },
            }
            proof {
                assert(errors_view(self.errors@) =~= was + outcome_errors(o));
                done = done + 1;
                assert(rest@ =~= all.skip(done));
                assert(errors_view(self.errors@) =~= start + all_outcome_errors(all.take(done)));
            }
        }
        assert(all.take(done) =~= all);
    }
}

/// The error entry of a checked file; `None` where nothing was found.
pub fn file_error(path: FilePath, diagnostics: Vec<Diagnostic>) -> (r: Option<FileError>)
    ensures
        match r {
            Some(e) => diagnostics@.len() > 0 && e@ == (FileErrorView {
                path: path@,
                diagnostics: diagnostics_view(diagnostics@),
            }),
            None => diagnostics@.len() == 0,
        },
{
    if diagnostics.len() == 0 {
        None
    } else {
        Some(FileError { path, diagnostics })
    }
}

// ── schemas as they are loaded ────────────────────────────────────────────

/// The diagnostics for templates that constrain nothing.
pub open spec fn vacuous_diagnostics(v: Seq<VacuousView>) -> Seq<DiagnosticView> {
    v.map_values(
        |t: VacuousView|
            DiagnosticView::VacuousTemplate {
                owner: t.owner,
                section: t.section,
                template: t.template,
            },
    )
}

/// Every section template of a schema that accepts any list item, as
/// diagnostics.
pub fn report_vacuous_templates(schema: &Schema) -> (r: Vec<Diagnostic>)
    ensures
        diagnostics_view(r@) == vacuous_diagnostics(vacuous_all(schema.types@)),
{
    let found = schema.vacuous_templates();
    let ghost all = vacuous_view(found@);
    let mut out: Vec<Diagnostic> = Vec::new();
    let mut i: usize = 0;
    while i < found.len()
        invariant
            i <= found.len(),
            all == vacuous_view(found@),
            out.len() == i,
            forall|k: int| 0 <= k < i ==> (#[trigger] out@[k])@ == vacuous_diagnostics(all)[k],
        decreases found.len() - i,
    {
        assert(all[i as int] == found@[i as int]@);
        out.push(
            Diagnostic::VacuousTemplate {
                owner: found[i].owner.clone(),
                section: found[i].section.clone(),
                template: found[i].template.clone(),
            },
        );
        i += 1;
    }
    assert(diagnostics_view(out@) =~= vacuous_diagnostics(all));
    out
}

/// The error entry for something about a schema directory.
pub fn schema_message(dir: &FilePath, what: &str, problem: &str) -> (r: FileError)
    ensures
        r@ == schema_complaint(dir@, what@, problem@),
{
    let mut message = String::from_str(what);
    message.append(" error: ");
    message.append(problem);
    assert(message@ =~= what@ + " error: "@ + problem@);
    FileError { path: dir.clone(), diagnostics: plain(0, message) }
}

/// The error entry for something about a schema directory.
pub open spec fn schema_complaint(dir: PathView, what: Seq<char>, problem: Seq<char>) -> FileErrorView {
    FileErrorView {
        path: dir,
        diagnostics: seq![
            DiagnosticView::UnknownType { line: 0, message: what + " error: "@ + problem },
        ],
    }
}

/// What preparing a schema directory reports: templates of its own that
/// constrain nothing, and path patterns that cannot be used.
pub open spec fn schema_errors(
    dir: PathView,
    own: Seq<(Seq<char>, TypeDef)>,
    merged: Seq<(Seq<char>, TypeDef)>,
) -> Seq<FileErrorView> {
    let vacuous = vacuous_diagnostics(vacuous_all(own));
    (if vacuous.len() > 0 {
        seq![FileErrorView { path: dir, diagnostics: vacuous }]
    } else {
        Seq::empty()
    }) + pattern_errors(dir, merged)
}

/// What is reported of a schema's path patterns.
pub open spec fn pattern_errors(dir: PathView, types: Seq<(Seq<char>, TypeDef)>) -> Seq<FileErrorView> {
    match matcher_problem(types) {
        Some(e) => seq![schema_complaint(dir, "path pattern"@, e)],
        None => Seq::empty(),
    }
}

fn with_matcher(dir: FilePath, schema: Schema, errors: &mut Vec<FileError>) -> (r: SchemaDir)
    ensures
        r.dir@ == dir@,
        r.schema == schema,
        option_matcher(r.matcher) == matcher_of(schema.types@),
        errors_view(final(errors)@) == errors_view(old(errors)@) + pattern_errors(
            dir@,
            schema.types@,
        ),
{
    let ghost was = errors@;
    let matcher = match schema.build_path_matcher() {
        Ok(m) => {
            assert(errors_view(was) + Seq::<FileErrorView>::empty() =~= errors_view(was));
            Some(m)
        },
        Err(e) => {
            let entry = schema_message(&dir, "path pattern", e.as_str());
            errors.push(entry);
            assert(errors_view(errors@) =~= errors_view(was) + seq![entry@]);
            None
        },
    };
    SchemaDir { dir, schema, matcher }
}

/// Prepare a loaded schema directory: lint it, fill in the preset types that
/// it lacks, and compile its path patterns. Templates are linted before
/// presets are merged, so a preset's problem is never reported against the
/// project.
pub fn prepare_schema(
    dir: FilePath,
    schema: Schema,
    presets: Option<Schema>,
    errors: &mut Vec<FileError>,
) -> (r: SchemaDir)
    ensures
        r.dir@ == dir@,
        r.schema.types@ == (match presets {
            Some(p) => filled_up(schema.types@, p.types@),
            None => schema.types@,
        }),
        option_matcher(r.matcher) == matcher_of(r.schema.types@),
        errors_view(final(errors)@) == errors_view(old(errors)@) + schema_errors(
            dir@,
            schema.types@,
            r.schema.types@,
        ),
{
    let ghost start = errors_view(errors@);
    let ghost own = schema.types@;
    let mut schema = schema;
    let vacuous = report_vacuous_templates(&schema);
    assert(diagnostics_view(vacuous@).len() == vacuous@.len());
    if vacuous.len() > 0 {
        let ghost was = errors@;
        let e = FileError { path: dir.clone(), diagnostics: vacuous };
        errors.push(e);
        assert(errors_view(errors@) =~= errors_view(was) + seq![e@]);
    } else {
        assert(start + Seq::<FileErrorView>::empty() =~= start);
    }
    if let Some(p) = presets {
        schema.merge_presets(p);
    }
    let ghost merged = schema.types@;
    let r = with_matcher(dir, schema, errors);
    assert(errors_view(errors@) =~= start + schema_errors(dir@, own, merged));
    r
}

/// The schema directory that presets stand for in a project without any of
/// its own, so that their path patterns anchor at the root.
pub fn virtual_schema(root: &FilePath, presets: Schema, errors: &mut Vec<FileError>) -> (r:
    SchemaDir)
    ensures
        r.dir@ == schema_dir_in(root@),
        r.schema == presets,
        option_matcher(r.matcher) == matcher_of(presets.types@),
        errors_view(final(errors)@) == errors_view(old(errors)@) + pattern_errors(
            schema_dir_in(root@),
            presets.types@,
        ),
{
    let dir = schema_dir_of(root);
    with_matcher(dir, presets, errors)
}

// ── modelines ─────────────────────────────────────────────────────────────

/// Whether a line is a `# yaml-language-server:` modeline.
pub open spec fn is_modeline(line: Seq<char>) -> bool {
    has_prefix(trimmed_start(line), "# yaml-language-server:"@)
}

fn modeline(line: &str) -> (r: bool)
    ensures
        r == is_modeline(line@),
{
    let t = trim_start(line);
    starts_with(t.as_str(), "# yaml-language-server:")
}

/// The lines that are no modelines, each ended by a line feed.
pub open spec fn other_lines(ls: Seq<Seq<char>>) -> Seq<char>
    decreases ls.len(),
{
    if ls.len() == 0 {
        Seq::empty()
    } else if is_modeline(ls.last()) {
        other_lines(ls.drop_last())
    } else {
        other_lines(ls.drop_last()) + ls.last() + "\n"@
    }
}

/// Whether some line is a modeline.
pub open spec fn has_modeline(ls: Seq<Seq<char>>) -> bool {
    exists|i: int| 0 <= i < ls.len() && is_modeline(#[trigger] ls[i])
}

/// Drop every `# yaml-language-server:` line from `content`, plus any blank
/// lines the removal leaves at the top. Returns `None` when there is no
/// modeline, so untouched files are never rewritten.
pub fn strip_modeline(content: &str) -> (r: Option<String>)
    ensures
        match r {
            Some(t) => has_modeline(lines_of(content@)) && t@ == trimmed_start_char(
                other_lines(lines_of(content@)),
                '\n',
            ),
            None => !has_modeline(lines_of(content@)),
        },
{
    let ls = lines(content);
    let ghost all = texts(ls@);
    let mut found = false;
    let mut out = String::new();
    let mut i: usize = 0;
    assert(out@ =~= other_lines(all.take(0)));
    while i < ls.len()
        invariant
            i <= ls.len(),
            all == texts(ls@),
            found <==> exists|k: int| 0 <= k < i && is_modeline(#[trigger] all[k]),
            out@ == other_lines(all.take(i as int)),
        decreases ls.len() - i,
    {
        assert(all.take(i + 1).drop_last() =~= all.take(i as int));
        assert(all.take(i + 1).last() == ls@[i as int]@);
        if modeline(ls[i].as_str()) {
            assert(is_modeline(all[i as int]));
            found = true;
        } else {
            let ghost was = out@;
            out.append(ls[i].as_str());
            out.append("\n");
            assert(out@ =~= was + ls@[i as int]@ + "\n"@);
        }
        i += 1;
    }
    assert(all.take(all.len() as int) =~= all);
    if found {
        Some(trim_start_char(out.as_str(), '\n'))
    } else {
        None
    }
}

/// Whether `p` are the pieces of a text whose lines all end and are no
/// modelines.
spec fn are_other_pieces(p: Seq<Seq<char>>) -> bool {
    &&& p.len() > 0
    &&& p.last().len() == 0
    &&& forall|i: int| 0 <= i < p.len() - 1 ==> !is_modeline(#[trigger] p[i])
}

proof fn other_lines_make_other_pieces(ls: Seq<Seq<char>>)
    requires
        forall|i: int| 0 <= i < ls.len() ==> !(#[trigger] ls[i]).contains('\n'),
    ensures
        are_other_pieces(pieces(other_lines(ls), '\n')),
    decreases ls.len(),
{
    if ls.len() > 0 {
        let f = ls.drop_last();
        assert forall|i: int| 0 <= i < f.len() implies !(#[trigger] f[i]).contains('\n') by {
            assert(f[i] == ls[i]);
        }
        other_lines_make_other_pieces(f);
        if !is_modeline(ls.last()) {
            let a = other_lines(f);
            let l = ls.last();
            assert(!ls[ls.len() - 1].contains('\n'));
            pieces_extended(a, '\n', l);
            let p = pieces(a, '\n');
            let q = pieces(a + l, '\n');
            assert(p.last() + l =~= l);
            assert(q == p.drop_last().push(l));
            reveal_strlit("\n");
            assert((a + l + "\n"@).drop_last() =~= a + l);
            assert((a + l + "\n"@).last() == '\n');
            assert(pieces(a + l + "\n"@, '\n') == q.push(Seq::empty()));
            assert forall|i: int| 0 <= i < q.len() implies !is_modeline(#[trigger] q[i]) by {
                if i < p.len() - 1 {
                    assert(q[i] == p[i]);
                }
            }
        }
    }
}

proof fn trimmed_keeps_other_pieces(s: Seq<char>)
    requires
        are_other_pieces(pieces(s, '\n')),
    ensures
        are_other_pieces(pieces(trimmed_start_char(s, '\n'), '\n')),
    decreases s.len(),
{
    if s.len() > 0 && s[0] == '\n' {
        pieces_after_separator(s, '\n');
        let p = pieces(s, '\n');
        assert forall|i: int| 0 <= i < p.skip(1).len() - 1 implies !is_modeline(
            #[trigger] p.skip(1)[i],
        ) by {
            assert(p.skip(1)[i] == p[i + 1]);
        }
        trimmed_keeps_other_pieces(s.skip(1));
    }
}

proof fn trimmed_start_then(s: Seq<char>, c: char)
    requires
        trimmed_start(s).len() > 0,
    ensures
        trimmed_start(s.push(c)) == trimmed_start(s).push(c),
    decreases s.len(),
{
    if is_space(s[0]) {
        assert(s.push(c).skip(1) =~= s.skip(1).push(c));
        trimmed_start_then(s.skip(1), c);
    }
}

proof fn modeline_before_return(l: Seq<char>)
    requires
        is_modeline(without_cr(l)),
    ensures
        is_modeline(l),
{
    if l.len() > 0 && l.last() == '\r' {
        let f = l.drop_last();
        reveal_strlit("# yaml-language-server:");
        trimmed_start_then(f, '\r');
        assert(f.push('\r') =~= l);
        let t = trimmed_start(f);
        let p = "# yaml-language-server:"@;
        assert(t.push('\r').subrange(0, p.len() as int) =~= t.subrange(0, p.len() as int));
    }
}

/// A text from which the modelines were dropped has none left, so that
/// dropping them again leaves it alone.
pub proof fn stripped_has_no_modeline(content: Seq<char>)
    ensures
        !has_modeline(
            lines_of(trimmed_start_char(other_lines(lines_of(content)), '\n')),
        ),
{
    let ls = lines_of(content);
    assert forall|i: int| 0 <= i < ls.len() implies !(#[trigger] ls[i]).contains('\n') by {
        pieces_not_empty(content, '\n');
        pieces_hold_no_separator(content, '\n', i);
        let l = pieces(content, '\n')[i];
        assert forall|k: int| 0 <= k < ls[i].len() implies ls[i][k] != '\n' by {
            assert(ls[i][k] == l[k]);
        }
    }
    other_lines_make_other_pieces(ls);
    trimmed_keeps_other_pieces(other_lines(ls));
    let t = trimmed_start_char(other_lines(ls), '\n');
    let p = pieces(t, '\n');
    let out = lines_of(t);
    assert forall|i: int| 0 <= i < out.len() implies !is_modeline(#[trigger] out[i]) by {
        assert(out[i] == without_cr(p[i]));
        if is_modeline(out[i]) {
            modeline_before_return(p[i]);
        }
    }
}

// ── what is reported and what is written ──────────────────────────────────

proof fn the_rest_is_kept(v: Seq<DiagnosticView>, which: bool)
    ensures
        without_type_requirement(v) == v.filter(
            |d: DiagnosticView| d != DiagnosticView::MissingRequiredField { field: "type"@ },
        ),
        without_missing_frontmatter(v) == v.filter(
            |d: DiagnosticView| d != DiagnosticView::MissingFrontmatter,
        ),
        sorted_out(v, which) == v.filter(|d: DiagnosticView| fixable(d) == which),
    decreases v.len(),
{
    reveal(Seq::filter);
    if v.len() > 0 {
        the_rest_is_kept(v.drop_last(), which);
    } else {
        assert(v =~= Seq::empty());
    }
}

/// What checking reports of a file with front matter: everything that was
/// found and every malformed link, in that order. A file that is typed by its
/// path alone is not asked for its type, one that opted out or that no schema
/// covers is asked nothing, and one that two types claim is told so.
pub proof fn everything_found_is_reported(
    resolved: ResolvedView,
    types: Seq<(Seq<char>, TypeDef)>,
    schema_exists: bool,
    doc: DocumentView,
    found: Seq<DiagnosticView>,
    malformed: Seq<DiagnosticView>,
)
    requires
        doc.frontmatter is Some,
    ensures
        ({
            let r = check_findings(resolved, types, schema_exists, doc, None, found, malformed);
            let f = format_findings(resolved, types, schema_exists, doc, None, found, malformed);
            match resolved {
                ResolvedView::Explicit(_) => r == found + malformed && f == Some(r),
                ResolvedView::PathMatched(_) => r == found.filter(
                    |d: DiagnosticView| d
                        != DiagnosticView::MissingRequiredField { field: "type"@ },
                ) + malformed && f == Some(r),
                ResolvedView::OptedOut => r.len() == 0 && f is None,
                ResolvedView::Conflict(names) => r.len() == malformed.len() + 1 && r.skip(1)
                    == malformed && f == Some(r),
                ResolvedView::Unknown => if schema_exists {
                    r == found + malformed && f == Some(r)
                } else {
                    r.len() == 0 && f is None
                },
            }
        }),
{
    the_rest_is_kept(found, true);
    let r = check_findings(resolved, types, schema_exists, doc, None, found, malformed);
    if resolved is Conflict {
        assert(r.skip(1) =~= malformed);
    }
}

/// A file that is typed by its path and has no front matter is not told that
/// it lacks any, unless the type requires fields; then it is told that these
/// are missing, in place of that. All other findings stay, in order.
pub proof fn missing_front_matter_is_excused(
    name: Seq<char>,
    types: Seq<(Seq<char>, TypeDef)>,
    doc: DocumentView,
    v: Seq<DiagnosticView>,
)
    requires
        doc.frontmatter is None,
    ensures
        ({
            let r = excused(v, ResolvedView::PathMatched(name), types, doc);
            if type_requires(types, name) {
                &&& r.len() == v.len()
                &&& forall|i: int|
                    0 <= i < v.len() ==> (if v[i] == DiagnosticView::MissingFrontmatter {
                        #[trigger] r[i] is UnknownType
                    } else {
                        r[i] == v[i]
                    })
            } else {
                r == v.filter(|d: DiagnosticView| d != DiagnosticView::MissingFrontmatter)
            }
        }),
        excused(v, ResolvedView::Explicit(name), types, doc) == v,
{
    the_rest_is_kept(v, true);
}

/// What formatting comes to: a text is given exactly where the document's own
/// text differs from what was there, and then it is the text of the document
/// with its blocks fixed. What cannot be fixed is reported, in order.
pub proof fn formatting_writes_what_differs(
    diags: Seq<DiagnosticView>,
    content: Seq<char>,
    doc: DocumentView,
    order: Seq<Seq<char>>,
)
    ensures
        ({
            let r = formatted_with(diags, false, content, doc, order);
            let text = document_text(
                DocumentView {
                    frontmatter: doc.frontmatter,
                    blocks: formatted_blocks(doc.blocks, diags),
                },
                order,
            );
            &&& r.text is Some <==> text != content
            &&& r.text matches Some(t) ==> t == text
            &&& r.changed == Some(text != content)
            &&& r.unfixable == diags.filter(|d: DiagnosticView| !fixable(d))
        }),
{
    the_rest_is_kept(diags, false);
    let p = |d: DiagnosticView| fixable(d) == false;
    let q = |d: DiagnosticView| !fixable(d);
    assert(diags.filter(p) =~= diags.filter(q)) by {
        filters_agree(diags, p, q);
    }
}

proof fn filters_agree(
    v: Seq<DiagnosticView>,
    p: spec_fn(DiagnosticView) -> bool,
    q: spec_fn(DiagnosticView) -> bool,
)
    requires
        forall|d: DiagnosticView| #[trigger] p(d) == q(d),
    ensures
        v.filter(p) == v.filter(q),
    decreases v.len(),
{
    reveal(Seq::filter);
    if v.len() > 0 {
        filters_agree(v.drop_last(), p, q);
        assert(p(v.last()) == q(v.last()));
    }
}

/// Where nothing is found, formatting keeps every block that is no blank
/// line, in order.
pub proof fn formatting_keeps_the_blocks(s: Seq<BlockView>)
    ensures
        filled(formatted_blocks(s, Seq::empty())) == filled(s),
{
    let none: Seq<DiagnosticView> = Seq::empty();
    unfixable_change_nothing(s, sorted_out(none, true));
    separated_is_separated(s);
    trailing_blanks_are_blank(separated(s));
}

proof fn trailing_blanks_are_blank(s: Seq<BlockView>)
    ensures
        filled(without_trailing_blanks(s)) == filled(s),
        without_trailing_blanks(s).len() <= s.len(),
        without_trailing_blanks(s) == s.take(without_trailing_blanks(s).len() as int),
        forall|i: int|
            without_trailing_blanks(s).len() <= i < s.len() ==> #[trigger] s[i]
                == BlockView::BlankLine,
        without_trailing_blanks(s).len() > 0 ==> without_trailing_blanks(s).last()
            != BlockView::BlankLine,
    decreases s.len(),
{
    if s.len() > 0 && s.last() == BlockView::BlankLine {
        let f = s.drop_last();
        trailing_blanks_are_blank(f);
        let n = without_trailing_blanks(f).len() as int;
        assert(f.take(n) =~= s.take(n));
        assert forall|i: int| n <= i < s.len() implies #[trigger] s[i] == BlockView::BlankLine by {
            if i < f.len() {
                assert(f[i] == s[i]);
            }
        }
    } else {
        assert(s.take(s.len() as int) =~= s);
    }
}

/// Only blank lines go from the end of a document.
pub proof fn only_blank_lines_go(s: Seq<BlockView>)
    ensures
        ({
            let t = without_trailing_blanks(s);
            &&& t.is_prefix_of(s)
            &&& forall|i: int| t.len() <= i < s.len() ==> #[trigger] s[i] == BlockView::BlankLine
            &&& t.len() > 0 ==> t.last() != BlockView::BlankLine
        }),
{
    trailing_blanks_are_blank(s);
}

/// The order of fields begins with `type`; then come the declared properties,
/// each name once, in the order in which they are first declared.
pub proof fn fields_come_as_declared(
    resolved: ResolvedView,
    types: Seq<(Seq<char>, TypeDef)>,
    name: Seq<char>,
    td: TypeDef,
    key: Seq<char>,
)
    requires
        resolved == ResolvedView::Explicit(name) || resolved == ResolvedView::PathMatched(name),
        lookup(types, name) == Some(td),
    ensures
        ({
            let order = field_order_of(resolved, types);
            &&& order.len() > 0 && order[0] == "type"@
            &&& order.no_duplicates()
            &&& order.contains(key) <==> key == "type"@ || (td.frontmatter matches Some(fm)
                && texts(fm.property_order@).contains(key))
        }),
{
    let props = match td.frontmatter {
        Some(fm) => texts(fm.property_order@),
        None => Seq::empty(),
    };
    let all = seq!["type"@] + props;
    names_are_kept_once(all, key);
    names_start_alike(seq!["type"@], props);
    reveal_with_fuel(first_names, 2);
    assert(seq!["type"@].drop_last() =~= Seq::empty());
    assert(first_names(seq!["type"@]) =~= seq!["type"@]);
    let f = first_names(all);
    assert(f.take(1) =~= seq!["type"@]);
    assert(f[0] == f.take(1)[0]);
    if all.contains(key) {
        let i = choose|i: int| 0 <= i < all.len() && all[i] == key;
        if i > 0 {
            assert(props[i - 1] == key);
        }
    }
    if props.contains(key) {
        let i = choose|i: int| 0 <= i < props.len() && props[i] == key;
        assert(all[i + 1] == key);
    }
    if key == "type"@ {
        assert(all[0] == key);
    }
}

proof fn names_are_kept_once(names: Seq<Seq<char>>, key: Seq<char>)
    ensures
        first_names(names).no_duplicates(),
        first_names(names).contains(key) <==> names.contains(key),
    decreases names.len(),
{
    if names.len() > 0 {
        let f = names.drop_last();
        let n = names.len() - 1;
        let before = first_names(f);
        names_are_kept_once(f, key);
        let all = first_names(names);
        if before.contains(key) {
            let i = choose|i: int| 0 <= i < before.len() && before[i] == key;
            assert(all[i] == key);
        }
        if f.contains(key) {
            let i = choose|i: int| 0 <= i < f.len() && f[i] == key;
            assert(names[i] == key);
        }
        if names.contains(key) {
            let i = choose|i: int| 0 <= i < names.len() && names[i] == key;
            if i < n {
                assert(f[i] == key);
            } else if !before.contains(names[n]) {
                assert(all[before.len() as int] == key);
            }
        }
        if all.contains(key) {
            let i = choose|i: int| 0 <= i < all.len() && all[i] == key;
            if i < before.len() {
                assert(before[i] == key);
            } else {
                assert(names[n] == key);
            }
        }
    }
}

proof fn names_start_alike(a: Seq<Seq<char>>, b: Seq<Seq<char>>)
    ensures
        first_names(a + b).len() >= first_names(a).len(),
        first_names(a + b).take(first_names(a).len() as int) == first_names(a),
    decreases b.len(),
{
    let n = first_names(a).len() as int;
    if b.len() == 0 {
        assert(a + b =~= a);
        assert(first_names(a).take(n) =~= first_names(a));
    } else {
        names_start_alike(a, b.drop_last());
        assert((a + b).drop_last() =~= a + b.drop_last());
        let before = first_names(a + b.drop_last());
        assert(first_names(a + b).take(n) =~= before.take(n));
    }
}

/// Each file is counted and reported on its own: the count is that of the
/// files that changed, and a file is reported exactly where something is
/// wrong with it, with all that is.
pub proof fn every_file_is_accounted_for(a: Seq<FileOutcome>, b: Seq<FileOutcome>, o: FileOutcome)
    ensures
        changed_count(a + b) == changed_count(a) + changed_count(b),
        changed_count(seq![o]) == (if o.outcome matches Ok(p) && p.0 == Some(true) {
            1nat
        } else {
            0
        }),
        all_outcome_errors(a + b) == all_outcome_errors(a) + all_outcome_errors(b),
        o.outcome matches Ok(p) ==> (if p.1@.len() == 0 {
            all_outcome_errors(seq![o]).len() == 0
        } else {
            all_outcome_errors(seq![o]) == seq![
                FileErrorView { path: o.path@, diagnostics: diagnostics_view(p.1@) },
            ]
        }),
        o.outcome is Err ==> all_outcome_errors(seq![o]).len() == 1 && all_outcome_errors(
            seq![o],
        )[0].path == o.path@,
    decreases b.len(),
{
    reveal_with_fuel(changed_count, 2);
    reveal_with_fuel(all_outcome_errors, 2);
    assert(seq![o].drop_last() =~= Seq::empty());
    assert(all_outcome_errors(seq![o]) =~= outcome_errors(o));
    if b.len() == 0 {
        assert(a + b =~= a);
        assert(all_outcome_errors(a) + all_outcome_errors(b) =~= all_outcome_errors(a));
    } else {
        every_file_is_accounted_for(a, b.drop_last(), o);
        assert((a + b).drop_last() =~= a + b.drop_last());
        assert((a + b).last() == b.last());
        assert(all_outcome_errors(a + b) =~= all_outcome_errors(a) + all_outcome_errors(b));
    }
}

/// Dropping modelines drops no other line.
pub proof fn other_lines_are_kept(a: Seq<Seq<char>>, b: Seq<Seq<char>>, l: Seq<char>)
    ensures
        other_lines(a + b) == other_lines(a) + other_lines(b),
        !has_prefix(trimmed_start(l), "# yaml-language-server:"@) ==> other_lines(seq![l]) == l
            + "\n"@,
        has_prefix(trimmed_start(l), "# yaml-language-server:"@) ==> other_lines(seq![l]).len()
            == 0,
    decreases b.len(),
{
    reveal_with_fuel(other_lines, 2);
    assert(seq![l].drop_last() =~= Seq::empty());
    assert(Seq::<char>::empty() + l + "\n"@ =~= l + "\n"@);
    if b.len() == 0 {
        assert(a + b =~= a);
        assert(other_lines(a) + other_lines(b) =~= other_lines(a));
    } else {
        other_lines_are_kept(a, b.drop_last(), l);
        assert((a + b).drop_last() =~= a + b.drop_last());
        assert((a + b).last() == b.last());
        assert(other_lines(a + b) =~= other_lines(a) + other_lines(b));
    }
}

/// A file that opts out of checking is left as it is, with nothing to report;
/// one of no known type is passed over where the schema is not there.
pub proof fn what_opts_out_is_left_alone(
    types: Seq<(Seq<char>, TypeDef)>,
    schema_exists: bool,
    content: Seq<char>,
    doc: DocumentView,
    error: Option<Seq<char>>,
    found: Seq<DiagnosticView>,
    malformed: Seq<DiagnosticView>,
)
    ensures
        format_outcome(
            ResolvedView::OptedOut,
            types,
            schema_exists,
            content,
            doc,
            error,
            found,
            malformed,
        ) matches Some(f) && f.changed == Some(false) && f.text is None && f.unfixable.len() == 0,
        format_findings(
            ResolvedView::Unknown,
            types,
            schema_exists,
            doc,
            error,
            found,
            malformed,
        ) is None ==> (format_outcome(
            ResolvedView::Unknown,
            types,
            schema_exists,
            content,
            doc,
            error,
            found,
            malformed,
        ) matches Some(f) && f.changed is None && f.text is None && f.unfixable.len() == 0),
{
}

} // verus!
