//! Which schema covers a file, and which type a document has.

use crate::ast::{Document, DocumentView};
use crate::globs::{claimants, MatcherView, PathMatcher};
use crate::links::{
    link_target, linked_view, resolve_link_path, section_links_view, LinkedDocInfo, LinkedDocView,
    SectionLinks,
};
use crate::ordered::{has_key, lookup, lookup_finds};
use crate::path::{
    a_name_is_stem_and_extension, extension_of_name, holds_path, joined_path, joining_is_undone,
    lies_in, name_of, parent_of, path_text, paths_view, relative_to,
    FilePath, PathView,
};
use crate::schema::{SCHEMA_DIR, Schema, TypeDef};
use crate::text::{copy_option, copy_texts, option_text, replace, replaced, texts};
use vstd::prelude::*;

verus! {

/// A schema directory with what was loaded from it.
#[derive(Debug)]
pub struct SchemaDir {
    /// The `.typedown` directory.
    pub dir: FilePath,
    pub schema: Schema,
    /// The matcher of the schema's path patterns, where they compile.
    pub matcher: Option<PathMatcher>,
}

/// The content of a list of schema directories: their paths.
pub open spec fn dirs_view(v: Seq<SchemaDir>) -> Seq<PathView> {
    v.map_values(|d: SchemaDir| d.dir@)
}

/// The schema directory in `dir`.
pub open spec fn schema_dir_in(dir: PathView) -> PathView {
    PathView { absolute: dir.absolute, parts: dir.parts.push(SCHEMA_DIR@) }
}

/// The schema directory in `dir`.
pub fn schema_dir_of(dir: &FilePath) -> (r: FilePath)
    ensures
        r@ == schema_dir_in(dir@),
{
    let mut parts = copy_texts(&dir.parts);
    let ghost was = parts@;
    parts.push(String::from_str(SCHEMA_DIR));
    assert(texts(parts@) =~= texts(was).push(SCHEMA_DIR@));
    FilePath { absolute: dir.absolute, parts }
}

/// The position of the first of `dirs` that is `dir`.
pub open spec fn position_of(dirs: Seq<PathView>, dir: PathView, i: int) -> Option<int>
    decreases dirs.len() - i,
{
    if i >= dirs.len() {
        None
    } else if dirs[i] == dir {
        Some(i)
    } else {
        position_of(dirs, dir, i + 1)
    }
}

/// The position of the nearest schema directory: in `dir`, or in a directory
/// above it up to `root`.
pub open spec fn nearest_schema(
    dirs: Seq<PathView>,
    dir: PathView,
    root: Option<PathView>,
) -> Option<int>
    decreases dir.parts.len(),
{
    match position_of(dirs, schema_dir_in(dir), 0) {
        Some(i) => Some(i),
        None => if Some(dir) == root {
            None
        } else {
            match parent_of(dir) {
                Some(up) => nearest_schema(dirs, up, root),
                None => None,
            }
        },
    }
}

/// The position of the schema directory that covers the file `path`.
pub open spec fn covering_schema(
    dirs: Seq<PathView>,
    path: PathView,
    root: Option<PathView>,
) -> Option<int> {
    match parent_of(path) {
        Some(dir) => nearest_schema(dirs, dir, root),
        None => None,
    }
}

proof fn position_is_first(dirs: Seq<PathView>, dir: PathView, i: int)
    requires
        0 <= i,
    ensures
        match position_of(dirs, dir, i) {
            Some(k) => i <= k < dirs.len() && dirs[k] == dir,
            None => forall|k: int| i <= k < dirs.len() ==> #[trigger] dirs[k] != dir,
        },
    decreases dirs.len() - i,
{
    if i < dirs.len() && dirs[i] != dir {
        position_is_first(dirs, dir, i + 1);
    }
}

/// The directory `n` levels above `dir`.
pub open spec fn above(dir: PathView, n: nat) -> PathView {
    PathView { absolute: dir.absolute, parts: dir.parts.take(dir.parts.len() - n) }
}

/// The schema that covers a file stands in a directory at or above the
/// file's own, none stands in a directory between them, and the search does
/// not go above the root.
pub proof fn nearest_schema_is_nearest(
    dirs: Seq<PathView>,
    dir: PathView,
    root: Option<PathView>,
) -> (n: nat)
    requires
        nearest_schema(dirs, dir, root) is Some,
    ensures
        n <= dir.parts.len(),
        0 <= nearest_schema(dirs, dir, root)->Some_0 < dirs.len(),
        dirs[nearest_schema(dirs, dir, root)->Some_0] == schema_dir_in(above(dir, n)),
        lies_in(dir, above(dir, n)),
        forall|m: nat| m < n ==> !dirs.contains(schema_dir_in(#[trigger] above(dir, m))),
        forall|m: nat| m < n ==> Some(#[trigger] above(dir, m)) != root,
    decreases dir.parts.len(),
{
    position_is_first(dirs, schema_dir_in(dir), 0);
    assert(above(dir, 0) =~= dir);
    match position_of(dirs, schema_dir_in(dir), 0) {
        Some(_) => {
            assert(dir.parts.is_prefix_of(dir.parts));
            0
        },
        None => {
            let up = parent_of(dir)->Some_0;
            let k = nearest_schema_is_nearest(dirs, up, root);
            assert(above(dir, k + 1) =~= above(up, k));
            assert forall|m: nat| m < k + 1 implies !dirs.contains(
                schema_dir_in(#[trigger] above(dir, m)),
            ) && Some(above(dir, m)) != root by {
                if m > 0 {
                    assert(above(dir, m) =~= above(up, (m - 1) as nat));
                    assert(!dirs.contains(schema_dir_in(above(up, (m - 1) as nat))));
                }
            }
            k + 1
        },
    }
}

fn find_dir(schemas: &Vec<SchemaDir>, dir: &FilePath) -> (r: Option<usize>)
    ensures
        match r {
            Some(i) => position_of(dirs_view(schemas@), dir@, 0) == Some(i as int) && i
                < schemas.len(),
            None => position_of(dirs_view(schemas@), dir@, 0) is None,
        },
{
    let ghost dirs = dirs_view(schemas@);
    let mut i: usize = 0;
    while i < schemas.len()
        invariant
            i <= schemas.len(),
            dirs == dirs_view(schemas@),
            position_of(dirs, dir@, 0) == position_of(dirs, dir@, i as int),
        decreases schemas.len() - i,
    {
        assert(dirs[i as int] == schemas@[i as int].dir@);
        if schemas[i].dir.same(dir) {
            return Some(i);
        }
        i += 1;
    }
    None
}

/// The nearest schema covering `path`, searching up to `root`, or to the top.
fn find_covering<'a>(path: &FilePath, root: Option<&FilePath>, schemas: &'a Vec<SchemaDir>) -> (r:
    Option<&'a SchemaDir>)
    ensures
        match r {
            Some(d) => covering_schema(
                dirs_view(schemas@),
                path@,
                option_ref(root),
            ) matches Some(i) && 0 <= i < schemas@.len() && *d == schemas@[i],
            None => covering_schema(dirs_view(schemas@), path@, option_ref(root)) is None,
        },
{
    let ghost dirs = dirs_view(schemas@);
    let ghost top = option_ref(root);
    let mut dir = match path.parent() {
        Some(dir) => dir,
        None => {
            return None;
        },
    };
    loop
        invariant
            dirs == dirs_view(schemas@),
            top == option_ref(root),
            covering_schema(dirs, path@, top) == nearest_schema(dirs, dir@, top),
        decreases dir.parts.len(),
    {
        let candidate = schema_dir_of(&dir);
        if let Some(i) = find_dir(schemas, &candidate) {
            return Some(&schemas[i]);
        }
        let last = match root {
            Some(root) => dir.same(root),
            None => false,
        };
        if last {
            return None;
        }
        match dir.parent() {
            Some(up) => {
                assert(texts(dir.parts@).len() == dir.parts@.len());
                assert(texts(up.parts@).len() == up.parts@.len());
                dir = up;
            },
            None => {
                return None;
            },
        }
    }
}

/// The path behind an optional reference.
pub open spec fn option_ref(p: Option<&FilePath>) -> Option<PathView> {
    match p {
        Some(p) => Some(p@),
        None => None,
    }
}

/// Find the nearest schema covering `path`, searching up to `root`.
pub fn find_schema_for<'a>(path: &FilePath, root: &FilePath, schemas: &'a Vec<SchemaDir>) -> (r: Option<
    &'a SchemaDir,
>)
    ensures
        match r {
            Some(d) => covering_schema(dirs_view(schemas@), path@, Some(root@)) matches Some(i) && 0
                <= i < schemas@.len() && *d == schemas@[i],
            None => covering_schema(dirs_view(schemas@), path@, Some(root@)) is None,
        },
{
    find_covering(path, Some(root), schemas)
}

// ── the type of a document ────────────────────────────────────────────────

/// How a file's document type was settled.
#[derive(Debug)]
pub enum ResolvedType {
    /// Front matter `type:` names a schema type (highest priority).
    Explicit(String),
    /// No `type:` in front matter, but the path matches a type's patterns.
    PathMatched(String),
    /// Front matter has `type: none`: opted out of validation.
    OptedOut,
    /// Path patterns of several types match.
    Conflict(Vec<String>),
    /// No type could be determined.
    Unknown,
}

/// What a [`ResolvedType`] holds.
pub enum ResolvedView {
    Explicit(Seq<char>),
    PathMatched(Seq<char>),
    OptedOut,
    Conflict(Seq<Seq<char>>),
    Unknown,
}

impl View for ResolvedType {
    type V = ResolvedView;

    open spec fn view(&self) -> ResolvedView {
        match *self {
            ResolvedType::Explicit(n) => ResolvedView::Explicit(n@),
            ResolvedType::PathMatched(n) => ResolvedView::PathMatched(n@),
            ResolvedType::OptedOut => ResolvedView::OptedOut,
            ResolvedType::Conflict(ns) => ResolvedView::Conflict(texts(ns@)),
            ResolvedType::Unknown => ResolvedView::Unknown,
        }
    }
}

/// The content of an optional matcher.
pub open spec fn option_matcher(m: Option<PathMatcher>) -> Option<MatcherView> {
    match m {
        Some(m) => Some(m@),
        None => None,
    }
}

/// The directory that a schema directory's patterns are relative to.
pub open spec fn schema_root(dir: PathView) -> PathView {
    match parent_of(dir) {
        Some(root) => root,
        None => PathView { absolute: false, parts: Seq::empty() },
    }
}

/// The types whose patterns match a path, seen from the directory that holds
/// the schema directory, with forward slashes.
pub open spec fn path_claims(
    path: PathView,
    dir: PathView,
    matcher: Option<MatcherView>,
) -> Seq<Seq<char>> {
    match (matcher, relative_to(path, schema_root(dir))) {
        (Some(m), Some(rel)) => claimants(m, replaced(path_text(rel), '\\', "/"@)),
        _ => Seq::empty(),
    }
}

/// The type of a document: its front matter's word, or what its path
/// matches.
pub open spec fn type_resolution(
    doc_type: Option<Seq<char>>,
    claims: Seq<Seq<char>>,
    types: Seq<(Seq<char>, TypeDef)>,
) -> ResolvedView {
    match doc_type {
        Some(name) => if name == "none"@ {
            ResolvedView::OptedOut
        } else if lookup(types, name) is Some {
            ResolvedView::Explicit(name)
        } else {
            ResolvedView::Unknown
        },
        None => if claims.len() > 1 {
            ResolvedView::Conflict(claims)
        } else if claims.len() == 1 && lookup(types, claims[0]) is Some {
            ResolvedView::PathMatched(claims[0])
        } else {
            ResolvedView::Unknown
        },
    }
}

/// The type that a document's front matter names.
pub open spec fn named_type(doc: DocumentView) -> Option<Seq<char>> {
    match doc.frontmatter {
        Some(fm) => fm.doc_type,
        None => None,
    }
}

/// The type that a document's front matter names.
fn frontmatter_type(doc: &Document) -> (r: Option<String>)
    ensures
        option_text(r) == named_type(doc@),
{
    match &doc.frontmatter {
        Some(fm) => copy_option(&fm.doc_type),
        None => None,
    }
}

/// The types whose patterns match a path.
fn claims_on(path: &FilePath, dir: &FilePath, matcher: &Option<PathMatcher>) -> (r: Vec<String>)
    ensures
        texts(r@) == path_claims(path@, dir@, option_matcher(*matcher)),
{
    let none: Vec<String> = Vec::new();
    assert(texts(none@) =~= Seq::empty());
    match matcher {
        Some(m) => {
            let root = match dir.parent() {
                Some(root) => root,
                None => {
                    let parts: Vec<String> = Vec::new();
                    assert(texts(parts@) =~= Seq::empty());
                    FilePath { absolute: false, parts }
                },
            };
            match path.strip_prefix(&root) {
                Some(rel) => {
                    let text = rel.to_text();
                    let slashed = replace(text.as_str(), '\\', "/");
                    m.match_path(slashed.as_str())
                },
                None => none,
            }
        },
        None => none,
    }
}

/// The type of a document from its front matter's word and the types whose
/// patterns match its path.
pub fn decide_type(doc_type: Option<String>, claims: Vec<String>, schema: &Schema) -> (r:
    ResolvedType)
    ensures
        r@ == type_resolution(option_text(doc_type), texts(claims@), schema.types@),
{
    assert(texts(claims@).len() == claims@.len());
    match doc_type {
        Some(name) => {
            if name.as_str().eq("none") {
                ResolvedType::OptedOut
            } else if schema.get_type(name.as_str()).is_some() {
                ResolvedType::Explicit(name)
            } else {
                ResolvedType::Unknown
            }
        },
        None => {
            if claims.len() > 1 {
                ResolvedType::Conflict(claims)
            } else if claims.len() == 1 && schema.get_type(claims[0].as_str()).is_some() {
                ResolvedType::PathMatched(claims[0].clone())
            } else {
                ResolvedType::Unknown
            }
        },
    }
}

/// The one type that claims a path by the nearest schema above it.
pub open spec fn path_match(
    path: PathView,
    schemas: Seq<SchemaDir>,
) -> Option<Seq<char>> {
    match covering_schema(dirs_view(schemas), path, None) {
        Some(i) => {
            let claims = path_claims(path, schemas[i].dir@, option_matcher(schemas[i].matcher));
            if claims.len() == 1 {
                Some(claims[0])
            } else {
                None
            }
        },
        None => None,
    }
}

/// The file's path-matched type by its nearest schema, without reading the
/// file; `None` if no type, or not just one, claims it.
pub fn resolve_path_match_type(path: &FilePath, schemas: &Vec<SchemaDir>) -> (r: Option<String>)
    ensures
        option_text(r) == path_match(path@, schemas@),
{
    match find_covering(path, None, schemas) {
        Some(d) => {
            let claims = claims_on(path, &d.dir, &d.matcher);
            assert(texts(claims@).len() == claims@.len());
            if claims.len() == 1 {
                Some(claims[0].clone())
            } else {
                None
            }
        },
        None => None,
    }
}

/// Resolve a file's type: front matter `type:` takes priority, then path
/// patterns.
pub fn resolve_type(path: &FilePath, doc: &Document, covering: &SchemaDir) -> (r: ResolvedType)
    ensures
        r@ == type_resolution(
            named_type(doc@),
            path_claims(path@, covering.dir@, option_matcher(covering.matcher)),
            covering.schema.types@,
        ),
{
    let named = frontmatter_type(doc);
    let claims = claims_on(path, &covering.dir, &covering.matcher);
    decide_type(named, claims, &covering.schema)
}

/// Front matter's `type:` settles the type, whatever the path matches, and
/// `none` opts out.
pub proof fn frontmatter_takes_priority(
    name: Seq<char>,
    a: Seq<Seq<char>>,
    b: Seq<Seq<char>>,
    types: Seq<(Seq<char>, TypeDef)>,
)
    ensures
        type_resolution(Some(name), a, types) == type_resolution(Some(name), b, types),
        !(type_resolution(Some(name), a, types) is PathMatched),
        !(type_resolution(Some(name), a, types) is Conflict),
        type_resolution(Some("none"@), a, types) is OptedOut,
{
}

// ── what is known of linked documents ─────────────────────────────────────

/// The type under which a document of the project is known to others.
pub open spec fn known_type(doc_type: Option<Seq<char>>, claims: Seq<Seq<char>>, types: Seq<
    (Seq<char>, TypeDef),
>) -> Option<Seq<char>> {
    match doc_type {
        Some(t) => Some(t),
        None => match type_resolution(None, claims, types) {
            ResolvedView::PathMatched(name) => Some(name),
            _ => None,
        },
    }
}

/// What others know of a document of the project: its type, by front matter
/// or path, and the links of its sections.
pub fn linked_info(path: &FilePath, doc: &Document, covering: &SchemaDir) -> (r: LinkedDocInfo)
    ensures
        r@ == (LinkedDocView {
            path: path@,
            doc_type: known_type(
                named_type(doc@),
                path_claims(path@, covering.dir@, option_matcher(covering.matcher)),
                covering.schema.types@,
            ),
            section_links: crate::links::doc_section_links(doc@.blocks),
        }),
{
    let doc_type = match frontmatter_type(doc) {
        Some(t) => Some(t),
        None => match resolve_type(path, doc, covering) {
            ResolvedType::PathMatched(name) => Some(name),
            _ => None,
        },
    };
    let section_links = crate::links::extract_doc_section_links(doc);
    LinkedDocInfo { path: path.clone(), doc_type, section_links }
}

/// The type under which a document of another project is known: its front
/// matter's word, where `none` is no type, or the one type that claims its
/// path.
pub open spec fn external_type(doc_type: Option<Seq<char>>, claims: Seq<Seq<char>>) -> Option<
    Seq<char>,
> {
    match doc_type {
        Some(t) => if t == "none"@ {
            None
        } else {
            Some(t)
        },
        None => if claims.len() == 1 {
            Some(claims[0])
        } else {
            None
        },
    }
}

/// The claims on a path of another project, where its schema is known.
pub open spec fn external_claims(path: PathView, schema: Option<SchemaDir>) -> Seq<Seq<char>> {
    match schema {
        Some(d) => path_claims(path, d.dir@, option_matcher(d.matcher)),
        None => Seq::empty(),
    }
}

/// What is known of a document of another project.
pub fn external_info(path: &FilePath, doc: &Document, schema: &Option<SchemaDir>) -> (r:
    LinkedDocInfo)
    ensures
        r@ == (LinkedDocView {
            path: path@,
            doc_type: external_type(named_type(doc@), external_claims(path@, *schema)),
            section_links: crate::links::doc_section_links(doc@.blocks),
        }),
{
    let doc_type = match frontmatter_type(doc) {
        Some(t) => if t.as_str().eq("none") {
            None
        } else {
            Some(t)
        },
        None => match schema {
            Some(d) => {
                let claims = claims_on(path, &d.dir, &d.matcher);
                assert(texts(claims@).len() == claims@.len());
                if claims.len() == 1 {
                    Some(claims[0].clone())
                } else {
                    None
                }
            },
            None => None,
        },
    };
    let section_links = crate::links::extract_doc_section_links(doc);
    LinkedDocInfo { path: path.clone(), doc_type, section_links }
}

/// `targets` with the path `t`, unless it lies in `root` or is there.
pub open spec fn with_external(targets: Seq<PathView>, t: Option<PathView>, root: PathView) -> Seq<
    PathView,
> {
    match t {
        Some(p) => if lies_in(p, root) || targets.contains(p) {
            targets
        } else {
            targets.push(p)
        },
        None => targets,
    }
}

/// The paths outside `root` that URLs in the document at `from` point at,
/// behind `acc`, each once.
pub open spec fn external_of_urls(
    urls: Seq<Seq<char>>,
    from: PathView,
    root: PathView,
    acc: Seq<PathView>,
) -> Seq<PathView>
    decreases urls.len(),
{
    if urls.len() == 0 {
        acc
    } else {
        with_external(
            external_of_urls(urls.drop_last(), from, root, acc),
            link_target(urls.last(), from),
            root,
        )
    }
}

/// The paths outside `root` that the sections of a document point at, behind
/// `acc`, each once.
pub open spec fn external_of_sections(
    sections: Seq<(Seq<char>, Seq<Seq<char>>)>,
    from: PathView,
    root: PathView,
    acc: Seq<PathView>,
) -> Seq<PathView>
    decreases sections.len(),
{
    if sections.len() == 0 {
        acc
    } else {
        external_of_urls(
            sections.last().1,
            from,
            root,
            external_of_sections(sections.drop_last(), from, root, acc),
        )
    }
}

/// The paths outside `root` that documents point at from their sections,
/// each once.
pub open spec fn external_of_docs(docs: Seq<LinkedDocView>, root: PathView) -> Seq<PathView>
    decreases docs.len(),
{
    if docs.len() == 0 {
        Seq::empty()
    } else {
        external_of_sections(
            docs.last().section_links,
            docs.last().path,
            root,
            external_of_docs(docs.drop_last(), root),
        )
    }
}

fn add_external(urls: &Vec<String>, from: &FilePath, root: &FilePath, out: &mut Vec<FilePath>)
    ensures
        paths_view(final(out)@) == external_of_urls(
            texts(urls@),
            from@,
            root@,
            paths_view(old(out)@),
        ),
{
    let ghost all = texts(urls@);
    let ghost start = paths_view(out@);
    let mut i: usize = 0;
    assert(all.take(0) =~= Seq::empty());
    while i < urls.len()
        invariant
            i <= urls.len(),
            all == texts(urls@),
            start == paths_view(old(out)@),
            paths_view(out@) == external_of_urls(all.take(i as int), from@, root@, start),
        decreases urls.len() - i,
    {
        assert(all.take(i + 1).drop_last() =~= all.take(i as int));
        assert(all.take(i + 1).last() == urls@[i as int]@);
        if let Some(t) = resolve_link_path(urls[i].as_str(), from) {
            if !t.starts_with(root) && !holds_path(out, &t) {
                let ghost was = out@;
                out.push(t);
                assert(paths_view(out@) =~= paths_view(was).push(t@));
            }
        }
        i += 1;
    }
    assert(all.take(all.len() as int) =~= all);
}

fn add_external_sections(
    sections: &Vec<SectionLinks>,
    from: &FilePath,
    root: &FilePath,
    out: &mut Vec<FilePath>,
)
    ensures
        paths_view(final(out)@) == external_of_sections(
            section_links_view(sections@),
            from@,
            root@,
            paths_view(old(out)@),
        ),
{
    let ghost all = section_links_view(sections@);
    let ghost start = paths_view(out@);
    let mut i: usize = 0;
    assert(all.take(0) =~= Seq::empty());
    while i < sections.len()
        invariant
            i <= sections.len(),
            all == section_links_view(sections@),
            start == paths_view(old(out)@),
            paths_view(out@) == external_of_sections(all.take(i as int), from@, root@, start),
        decreases sections.len() - i,
    {
        assert(all.take(i + 1).drop_last() =~= all.take(i as int));
        assert(all.take(i + 1).last().1 == texts(sections@[i as int].urls@));
        add_external(&sections[i].urls, from, root, out);
        i += 1;
    }
    assert(all.take(all.len() as int) =~= all);
}

/// The paths outside `root` that documents point at from their sections,
/// each once. Whether they exist is not asked.
pub fn collect_external_targets(linked_docs: &Vec<LinkedDocInfo>, root: &FilePath) -> (r: Vec<
    FilePath,
>)
    ensures
        paths_view(r@) == external_of_docs(linked_view(linked_docs@), root@),
{
    let ghost all = linked_view(linked_docs@);
    let mut out: Vec<FilePath> = Vec::new();
    let mut i: usize = 0;
    assert(paths_view(out@) =~= external_of_docs(all.take(0), root@));
    while i < linked_docs.len()
        invariant
            i <= linked_docs.len(),
            all == linked_view(linked_docs@),
            paths_view(out@) == external_of_docs(all.take(i as int), root@),
        decreases linked_docs.len() - i,
    {
        assert(all.take(i + 1).drop_last() =~= all.take(i as int));
        assert(all.take(i + 1).last() == linked_docs@[i as int]@);
        add_external_sections(&linked_docs[i].section_links, &linked_docs[i].path, root, &mut out);
        i += 1;
    }
    assert(all.take(all.len() as int) =~= all);
    out
}

/// Whether no path lies in `root` and none comes twice.
pub open spec fn all_outside(v: Seq<PathView>, root: PathView) -> bool {
    &&& forall|i: int| 0 <= i < v.len() ==> !lies_in(#[trigger] v[i], root)
    &&& v.no_duplicates()
}

proof fn urls_stay_outside(
    urls: Seq<Seq<char>>,
    from: PathView,
    root: PathView,
    acc: Seq<PathView>,
)
    requires
        all_outside(acc, root),
    ensures
        all_outside(external_of_urls(urls, from, root, acc), root),
    decreases urls.len(),
{
    if urls.len() > 0 {
        urls_stay_outside(urls.drop_last(), from, root, acc);
    }
}

proof fn sections_stay_outside(
    sections: Seq<(Seq<char>, Seq<Seq<char>>)>,
    from: PathView,
    root: PathView,
    acc: Seq<PathView>,
)
    requires
        all_outside(acc, root),
    ensures
        all_outside(external_of_sections(sections, from, root, acc), root),
    decreases sections.len(),
{
    if sections.len() > 0 {
        sections_stay_outside(sections.drop_last(), from, root, acc);
        urls_stay_outside(
            sections.last().1,
            from,
            root,
            external_of_sections(sections.drop_last(), from, root, acc),
        );
    }
}

/// External targets lie outside the project, and each is named once.
pub proof fn external_targets_are_outside(docs: Seq<LinkedDocView>, root: PathView)
    ensures
        all_outside(external_of_docs(docs, root), root),
    decreases docs.len(),
{
    if docs.len() > 0 {
        external_targets_are_outside(docs.drop_last(), root);
        sections_stay_outside(
            docs.last().section_links,
            docs.last().path,
            root,
            external_of_docs(docs.drop_last(), root),
        );
    }
}

// ── searches up the tree ──────────────────────────────────────────────────

/// The directories from `dir` up to `ceiling`, or to the top where `ceiling`
/// is not above.
pub open spec fn ancestors_to(dir: PathView, ceiling: Option<PathView>) -> Seq<PathView>
    decreases dir.parts.len(),
{
    if Some(dir) == ceiling {
        seq![dir]
    } else {
        match parent_of(dir) {
            Some(up) => seq![dir] + ancestors_to(up, ceiling),
            None => seq![dir],
        }
    }
}

/// The content of an optional path.
pub open spec fn option_path(p: Option<FilePath>) -> Option<PathView> {
    match p {
        Some(p) => Some(p@),
        None => None,
    }
}

/// The directories from `dir` up to `ceiling`, or to the top.
pub fn ancestors(dir: &FilePath, ceiling: &Option<FilePath>) -> (r: Vec<FilePath>)
    ensures
        paths_view(r@) == ancestors_to(dir@, option_path(*ceiling)),
        r@.len() > 0,
{
    let ghost top = option_path(*ceiling);
    let mut out: Vec<FilePath> = Vec::new();
    let mut current = dir.clone();
    assert(paths_view(out@) + ancestors_to(current@, top) =~= ancestors_to(dir@, top));
    loop
        invariant
            top == option_path(*ceiling),
            ancestors_to(dir@, top) == paths_view(out@) + ancestors_to(current@, top),
        decreases current.parts.len(),
    {
        let ghost was = paths_view(out@);
        let ghost here = current@;
        let last = match ceiling {
            Some(c) => current.same(c),
            None => false,
        };
        let up = current.parent();
        out.push(current);
        assert(paths_view(out@) =~= was.push(here));
        if last {
            assert(was + seq![here] =~= was.push(here));
            return out;
        }
        match up {
            Some(up) => {
                assert(texts(current.parts@).len() == current.parts@.len());
                assert(texts(up.parts@).len() == up.parts@.len());
                assert(was + (seq![here] + ancestors_to(up@, top)) =~= was.push(here)
                    + ancestors_to(up@, top));
                current = up;
            },
            None => {
                assert(was + seq![here] =~= was.push(here));
                return out;
            },
        }
    }
}

/// The position of the first directory for which the mark holds.
pub open spec fn first_marked(marks: Seq<bool>, i: int) -> Option<int>
    decreases marks.len() - i,
{
    if i >= marks.len() {
        None
    } else if marks[i] {
        Some(i)
    } else {
        first_marked(marks, i + 1)
    }
}

/// The position of the project root among directories from a start upwards:
/// the nearest with a schema directory that does not lie above the nearest
/// git root, else the start.
pub open spec fn project_root_at(schemas: Seq<bool>, gits: Seq<bool>) -> int {
    match (first_marked(schemas, 0), first_marked(gits, 0)) {
        (Some(i), Some(g)) => if i <= g {
            i
        } else {
            0
        },
        (Some(i), None) => i,
        (None, _) => 0,
    }
}

fn find_marked(marks: &Vec<bool>) -> (r: Option<usize>)
    ensures
        match r {
            Some(i) => first_marked(marks@, 0) == Some(i as int),
            None => first_marked(marks@, 0) is None,
        },
{
    let mut i: usize = 0;
    while i < marks.len()
        invariant
            i <= marks.len(),
            first_marked(marks@, 0) == first_marked(marks@, i as int),
        decreases marks.len() - i,
    {
        if marks[i] {
            return Some(i);
        }
        i += 1;
    }
    None
}

/// The position of the project root among directories from a start upwards,
/// given which of them hold a schema directory and which a `.git`.
pub fn choose_project_root(schemas: &Vec<bool>, gits: &Vec<bool>) -> (r: usize)
    ensures
        r == project_root_at(schemas@, gits@),
{
    match (find_marked(schemas), find_marked(gits)) {
        (Some(i), Some(g)) => if i <= g {
            i
        } else {
            0
        },
        (Some(i), None) => i,
        (None, _) => 0,
    }
}

/// The project root never lies above the nearest git root, and where it is
/// not the start it has a schema directory.
pub proof fn root_stays_in_the_repository(schemas: Seq<bool>, gits: Seq<bool>)
    ensures
        first_marked(gits, 0) matches Some(g) ==> project_root_at(schemas, gits) <= g,
        project_root_at(schemas, gits) != 0 ==> schemas[project_root_at(schemas, gits)],
        forall|i: int|
            0 <= i < project_root_at(schemas, gits) && i < schemas.len() ==> !schemas[i],
{
    first_marked_is_first(schemas, 0);
    first_marked_is_first(gits, 0);
}

proof fn first_marked_is_first(marks: Seq<bool>, from: int)
    requires
        0 <= from,
    ensures
        match first_marked(marks, from) {
            Some(i) => from <= i < marks.len() && marks[i] && (forall|k: int|
                from <= k < i ==> !marks[k]),
            None => forall|k: int| from <= k < marks.len() ==> !marks[k],
        },
    decreases marks.len() - from,
{
    if from < marks.len() && !marks[from] {
        first_marked_is_first(marks, from + 1);
    }
}

/// Whether a path names a markdown file.
pub open spec fn names_markdown(path: PathView) -> bool {
    match name_of(path) {
        Some(name) => extension_of_name(name) == Some("md"@),
        None => false,
    }
}

/// Whether a path names a markdown file.
pub fn is_markdown(path: &FilePath) -> (r: bool)
    ensures
        r == names_markdown(path@),
{
    match path.extension() {
        Some(e) => e.as_str().eq("md"),
        None => false,
    }
}

// ── what is found ─────────────────────────────────────────────────────────

proof fn a_position_is_found(dirs: Seq<PathView>, dir: PathView, i: int)
    requires
        0 <= i,
    ensures
        position_of(dirs, dir, i) is Some <==> exists|k: int|
            i <= k < dirs.len() && #[trigger] dirs[k] == dir,
    decreases dirs.len() - i,
{
    if i < dirs.len() && dirs[i] != dir {
        a_position_is_found(dirs, dir, i + 1);
    }
}

/// Where a schema directory stands at or above a file's own directory, not
/// above the root, one covers the file.
pub proof fn a_schema_above_covers(
    dirs: Seq<PathView>,
    dir: PathView,
    root: Option<PathView>,
    n: nat,
)
    requires
        n <= dir.parts.len(),
        dirs.contains(
            PathView {
                absolute: dir.absolute,
                parts: dir.parts.take(dir.parts.len() - n).push(".typedown"@),
            },
        ),
        forall|m: nat| m < n ==> Some(#[trigger] above(dir, m)) != root,
    ensures
        nearest_schema(dirs, dir, root) is Some,
    decreases n,
{
    a_position_is_found(dirs, schema_dir_in(dir), 0);
    if n == 0 {
        assert(dir.parts.take(dir.parts.len() as int) =~= dir.parts);
        let k = choose|k: int| 0 <= k < dirs.len() && dirs[k] == schema_dir_in(dir);
        assert(dirs[k] == schema_dir_in(dir));
    } else if position_of(dirs, schema_dir_in(dir), 0) is None {
        assert(above(dir, 0).parts =~= dir.parts);
        assert(Some(above(dir, 0)) != root);
        let up = PathView { absolute: dir.absolute, parts: dir.parts.drop_last() };
        let m = (n - 1) as nat;
        assert(up.parts.take(up.parts.len() - m) =~= dir.parts.take(dir.parts.len() - n));
        assert forall|k: nat| k < m implies Some(#[trigger] above(up, k)) != root by {
            assert(above(up, k).parts =~= above(dir, k + 1).parts);
            assert(Some(above(dir, k + 1)) != root);
        }
        a_schema_above_covers(dirs, up, root, m);
    }
}

/// How a type is settled: front matter's word where it names a type that is
/// there; without one, the one type that claims the path, where it is there.
/// Two claims are a conflict, and anything else is unknown.
pub proof fn how_a_type_is_settled(
    doc_type: Option<Seq<char>>,
    claims: Seq<Seq<char>>,
    types: Seq<(Seq<char>, TypeDef)>,
    name: Seq<char>,
)
    ensures
        ({
            let r = type_resolution(doc_type, claims, types);
            &&& r == ResolvedView::Explicit(name) <==> doc_type == Some(name) && name != "none"@
                && has_key(types, name)
            &&& r == ResolvedView::PathMatched(name) <==> doc_type is None && claims.len() == 1
                && claims[0] == name && has_key(types, name)
            &&& r is OptedOut <==> doc_type == Some("none"@)
            &&& r is Conflict <==> doc_type is None && claims.len() >= 2
            &&& r is Conflict ==> r == ResolvedView::Conflict(claims)
            &&& known_type(doc_type, claims, types) == (match doc_type {
                Some(t) => Some(t),
                None => if claims.len() == 1 && has_key(types, claims[0]) {
                    Some(claims[0])
                } else {
                    None
                },
            })
            &&& external_type(doc_type, claims) == Some(name) <==> (doc_type == Some(name) && name
                != "none"@) || (doc_type is None && claims.len() == 1 && claims[0] == name)
        }),
{
    lookup_finds(types, name);
    if doc_type is Some {
        lookup_finds(types, doc_type->0);
    }
    if claims.len() == 1 {
        lookup_finds(types, claims[0]);
    }
}

/// A path is claimed as it is seen from the directory that holds the schema
/// directory.
pub proof fn a_path_is_claimed_from_the_root(root: PathView, rel: PathView, m: MatcherView)
    requires
        root.absolute || root.parts.len() > 0,
        !rel.absolute,
        rel.parts.len() > 0,
        rel.parts[0] != "."@,
    ensures
        path_claims(joined_path(root, rel), schema_dir_in(root), Some(m)) == claimants(
            m,
            replaced(path_text(rel), '\\', "/"@),
        ),
        path_claims(joined_path(root, rel), schema_dir_in(root), None).len() == 0,
{
    assert(schema_dir_in(root).parts.drop_last() =~= root.parts);
    joining_is_undone(root, rel);
}

proof fn externals_of_urls_are_those(
    urls: Seq<Seq<char>>,
    from: PathView,
    root: PathView,
    acc: Seq<PathView>,
    p: PathView,
)
    ensures
        external_of_urls(urls, from, root, acc).contains(p) <==> acc.contains(p) || (!lies_in(
            p,
            root,
        ) && exists|i: int|
            0 <= i < urls.len() && link_target(#[trigger] urls[i], from) == Some(p)),
    decreases urls.len(),
{
    if urls.len() > 0 {
        let f = urls.drop_last();
        let n = urls.len() - 1;
        let before = external_of_urls(f, from, root, acc);
        let all = external_of_urls(urls, from, root, acc);
        externals_of_urls_are_those(f, from, root, acc, p);
        if before.contains(p) {
            let k = choose|k: int| 0 <= k < before.len() && before[k] == p;
            assert(all[k] == p);
        }
        if all.contains(p) && !before.contains(p) {
            let k = choose|k: int| 0 <= k < all.len() && all[k] == p;
            if k < before.len() {
                assert(before[k] == p);
            }
            assert(link_target(urls[n], from) == Some(p));
        }
        if exists|i: int| 0 <= i < f.len() && link_target(#[trigger] f[i], from) == Some(p) {
            let i = choose|i: int| 0 <= i < f.len() && link_target(#[trigger] f[i], from) == Some(p);
            assert(urls[i] == f[i]);
        }
        if exists|i: int| 0 <= i < urls.len() && link_target(#[trigger] urls[i], from) == Some(p) {
            let i = choose|i: int|
                0 <= i < urls.len() && link_target(#[trigger] urls[i], from) == Some(p);
            if i < n {
                assert(f[i] == urls[i]);
            } else if !lies_in(p, root) && !before.contains(p) {
                assert(all[before.len() as int] == p);
            }
        }
    }
}

/// Whether a section of a document links to `p`.
pub open spec fn links_somewhere_to(d: LinkedDocView, p: PathView) -> bool {
    exists|k: int, i: int|
        0 <= k < d.section_links.len() && 0 <= i < d.section_links[k].1.len() && link_target(
            #[trigger] d.section_links[k].1[i],
            d.path,
        ) == Some(p)
}

proof fn externals_of_sections_are_those(
    sections: Seq<(Seq<char>, Seq<Seq<char>>)>,
    from: PathView,
    root: PathView,
    acc: Seq<PathView>,
    p: PathView,
)
    ensures
        external_of_sections(sections, from, root, acc).contains(p) <==> acc.contains(p)
            || (!lies_in(p, root) && exists|k: int, i: int|
            0 <= k < sections.len() && 0 <= i < sections[k].1.len() && link_target(
                #[trigger] sections[k].1[i],
                from,
            ) == Some(p)),
    decreases sections.len(),
{
    if sections.len() > 0 {
        let f = sections.drop_last();
        let n = sections.len() - 1;
        let urls = sections[n].1;
        externals_of_sections_are_those(f, from, root, acc, p);
        externals_of_urls_are_those(
            urls,
            from,
            root,
            external_of_sections(f, from, root, acc),
            p,
        );
        if exists|k: int, i: int|
            0 <= k < f.len() && 0 <= i < f[k].1.len() && link_target(#[trigger] f[k].1[i], from)
                == Some(p) {
            let (k, i) = choose|k: int, i: int|
                0 <= k < f.len() && 0 <= i < f[k].1.len() && link_target(#[trigger] f[k].1[i], from)
                    == Some(p);
            assert(sections[k].1[i] == f[k].1[i]);
        }
        if exists|i: int| 0 <= i < urls.len() && link_target(#[trigger] urls[i], from) == Some(p) {
            let i = choose|i: int|
                0 <= i < urls.len() && link_target(#[trigger] urls[i], from) == Some(p);
            assert(sections[n].1[i] == urls[i]);
        }
        if exists|k: int, i: int|
            0 <= k < sections.len() && 0 <= i < sections[k].1.len() && link_target(
                #[trigger] sections[k].1[i],
                from,
            ) == Some(p) {
            let (k, i) = choose|k: int, i: int|
                0 <= k < sections.len() && 0 <= i < sections[k].1.len() && link_target(
                    #[trigger] sections[k].1[i],
                    from,
                ) == Some(p);
            if k < n {
                assert(f[k].1[i] == sections[k].1[i]);
            } else {
                assert(urls[i] == sections[k].1[i]);
            }
        }
    }
}

/// The files outside the project that matter are exactly those that a section
/// of one of its documents links to.
pub proof fn every_external_target_is_found(docs: Seq<LinkedDocView>, root: PathView, p: PathView)
    ensures
        external_of_docs(docs, root).contains(p) <==> !lies_in(p, root) && exists|d: int|
            0 <= d < docs.len() && links_somewhere_to(#[trigger] docs[d], p),
    decreases docs.len(),
{
    if docs.len() > 0 {
        let f = docs.drop_last();
        let n = docs.len() - 1;
        every_external_target_is_found(f, root, p);
        externals_of_sections_are_those(
            docs[n].section_links,
            docs[n].path,
            root,
            external_of_docs(f, root),
            p,
        );
        assert(links_somewhere_to(docs[n], p) <==> exists|k: int, i: int|
            0 <= k < docs[n].section_links.len() && 0 <= i < docs[n].section_links[k].1.len()
                && link_target(#[trigger] docs[n].section_links[k].1[i], docs[n].path) == Some(p));
        if exists|d: int| 0 <= d < f.len() && links_somewhere_to(#[trigger] f[d], p) {
            let d = choose|d: int| 0 <= d < f.len() && links_somewhere_to(#[trigger] f[d], p);
            assert(docs[d] == f[d]);
        }
        if exists|d: int| 0 <= d < docs.len() && links_somewhere_to(#[trigger] docs[d], p) {
            let d = choose|d: int| 0 <= d < docs.len() && links_somewhere_to(#[trigger] docs[d], p);
            if d < n {
                assert(f[d] == docs[d]);
            }
        }
    }
}

proof fn first_marked_is_at(marks: Seq<bool>, from: int, i: int)
    requires
        0 <= from <= i <= marks.len(),
        forall|k: int| from <= k < i ==> !#[trigger] marks[k],
        i < marks.len() ==> marks[i],
    ensures
        first_marked(marks, from) == (if i < marks.len() {
            Some(i)
        } else {
            None
        }),
    decreases i - from,
{
    if from < i {
        first_marked_is_at(marks, from + 1, i);
    }
}

/// The project root is the nearest directory upwards that holds schemas,
/// unless a git root is nearer; then, or where none holds any, it is the
/// start.
pub proof fn where_the_root_is(schemas: Seq<bool>, gits: Seq<bool>, i: int, g: int)
    requires
        0 <= i <= schemas.len(),
        0 <= g <= gits.len(),
        forall|k: int| 0 <= k < i ==> !#[trigger] schemas[k],
        i < schemas.len() ==> schemas[i],
        forall|k: int| 0 <= k < g ==> !#[trigger] gits[k],
        g < gits.len() ==> gits[g],
    ensures
        project_root_at(schemas, gits) == (if i < schemas.len() && (g == gits.len() || i <= g) {
            i
        } else {
            0
        }),
{
    first_marked_is_at(schemas, 0, i);
    first_marked_is_at(gits, 0, g);
}

/// The search for the root goes up one directory at a time, from the start to
/// the ceiling, or to the top.
pub proof fn ancestors_go_up(dir: PathView, ceiling: Option<PathView>, k: int)
    requires
        0 <= k < ancestors_to(dir, ceiling).len(),
    ensures
        ancestors_to(dir, ceiling).len() <= dir.parts.len() + 1,
        ancestors_to(dir, ceiling)[k] == above(dir, k as nat),
        k < ancestors_to(dir, ceiling).len() - 1 ==> Some(above(dir, k as nat)) != ceiling && k
            < dir.parts.len(),
        k == ancestors_to(dir, ceiling).len() - 1 ==> Some(above(dir, k as nat)) == ceiling || k
            == dir.parts.len(),
    decreases dir.parts.len(),
{
    assert(above(dir, 0).parts =~= dir.parts);
    if Some(dir) != ceiling {
        if let Some(up) = parent_of(dir) {
            let rest = ancestors_to(up, ceiling);
            ancestors_not_empty(up, ceiling);
            if k > 0 {
                ancestors_go_up(up, ceiling, k - 1);
                assert(above(up, (k - 1) as nat).parts =~= above(dir, k as nat).parts);
            } else {
                ancestors_go_up(up, ceiling, 0);
            }
        }
    }
}

proof fn ancestors_not_empty(dir: PathView, ceiling: Option<PathView>)
    ensures
        ancestors_to(dir, ceiling).len() > 0,
{
}

/// A markdown file is one whose name ends in `.md` behind at least one
/// character.
pub proof fn markdown_files_end_in_md(stem: Seq<char>, ext: Seq<char>, dir: PathView)
    requires
        stem.len() > 0,
        !ext.contains('.'),
        stem.push('.') + ext != ".."@,
    ensures
        names_markdown(
            PathView { absolute: dir.absolute, parts: dir.parts.push(stem.push('.') + ext) },
        ) <==> ext == "md"@,
{
    reveal_strlit(".");
    let name = stem.push('.') + ext;
    a_name_is_stem_and_extension(stem, ext);
    assert(dir.parts.push(name).last() == name);
    assert(name.len() > 1);
}

} // verus!
