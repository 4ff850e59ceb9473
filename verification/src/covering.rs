//! What a query answers of a file: the schema that covers it, the type that
//! is settled for it, and what is shown.

use crate::ast::{BlockView, DocumentView};
use crate::dates::name_day;
use crate::diagnostic::DiagnosticView;
use crate::format::{pattern_errors, schema_complaint, schema_errors, vacuous_diagnostics};
use crate::globs::{claimants, claimants_are_owners, glob_matches, MatcherView};
use crate::json::{document_json, document_urls, sections_urls, JsonDocumentView};
use crate::ordered::{distinct_keys, has_key, lookup_at, lookup_finds};
use crate::path::{lies_in, path_text, PathView};
use crate::query::{
    candidate_of, covered_def, covered_json, covered_type, flags_of, glob_problem, known_types,
    known_types_are_those_defined, match_limit, match_text, type_problem, QueryOptions,
};
use crate::resolve::{
    covering_schema, dirs_view, external_claims, named_type, nearest_schema, option_matcher,
    path_claims, path_match, position_of, schema_dir_in, SchemaDir,
};
use crate::schema::{
    all_patterns, matcher_of, matcher_problem, patterns_of, vacuous_all, PatternView, TypeDef,
};
use crate::serialize::top_text;
use crate::text::{
    cut_once, first_at_is_first, has_part, stands_at, texts, trimmed, trimming_takes_outer_runs,
};
use vstd::prelude::*;

verus! {

// ── the schema of a file ──────────────────────────────────────────────────

/// The schema directory `n` levels above the directory of a file.
pub open spec fn schema_place(path: PathView, n: nat) -> PathView {
    PathView {
        absolute: path.absolute,
        parts: path.parts.take(path.parts.len() - 1 - n).push(".typedown"@),
    }
}

/// Whether the `i`-th schema directory stands `n` levels above the directory
/// of a file, with none nearer, and the root not below it.
pub open spec fn is_nearest(
    dirs: Seq<PathView>,
    path: PathView,
    root: Option<PathView>,
    n: nat,
    i: int,
) -> bool {
    &&& n < path.parts.len()
    &&& 0 <= i < dirs.len()
    &&& dirs[i] == schema_place(path, n)
    &&& forall|j: int| 0 <= j < i ==> #[trigger] dirs[j] != dirs[i]
    &&& forall|m: nat| m < n ==> !dirs.contains(#[trigger] schema_place(path, m))
    &&& forall|m: nat|
        m < n ==> Some(
            PathView {
                absolute: path.absolute,
                parts: #[trigger] path.parts.take(path.parts.len() - 1 - m),
            },
        ) != root
}

proof fn a_position_is_first(dirs: Seq<PathView>, dir: PathView, from: int, i: int)
    requires
        0 <= from <= i < dirs.len(),
        dirs[i] == dir,
        forall|j: int| from <= j < i ==> #[trigger] dirs[j] != dir,
    ensures
        position_of(dirs, dir, from) == Some(i),
    decreases i - from,
{
    if from < i {
        a_position_is_first(dirs, dir, from + 1, i);
    }
}

proof fn no_position(dirs: Seq<PathView>, dir: PathView, from: int)
    requires
        0 <= from,
        !dirs.contains(dir),
    ensures
        position_of(dirs, dir, from) is None,
    decreases dirs.len() - from,
{
    if from < dirs.len() {
        assert(dirs[from] != dir);
        no_position(dirs, dir, from + 1);
    }
}

proof fn the_nearest_is_found(
    dirs: Seq<PathView>,
    path: PathView,
    root: Option<PathView>,
    n: nat,
    i: int,
    m: nat,
)
    requires
        is_nearest(dirs, path, root, n, i),
        m <= n,
    ensures
        nearest_schema(
            dirs,
            PathView { absolute: path.absolute, parts: path.parts.take(path.parts.len() - 1 - m) },
            root,
        ) == Some(i),
    decreases n - m,
{
    let dir = PathView {
        absolute: path.absolute,
        parts: path.parts.take(path.parts.len() - 1 - m),
    };
    assert(schema_dir_in(dir) == schema_place(path, m));
    if m == n {
        a_position_is_first(dirs, schema_dir_in(dir), 0, i);
    } else {
        no_position(dirs, schema_place(path, m), 0);
        assert(dir.parts.drop_last() =~= path.parts.take(path.parts.len() - 1 - (m + 1)));
        assert(Some(
            PathView {
                absolute: path.absolute,
                parts: path.parts.take(path.parts.len() - 1 - m),
            },
        ) != root);
        the_nearest_is_found(dirs, path, root, n, i, m + 1);
    }
}

/// The schema directory nearest above a file covers it.
pub proof fn the_nearest_schema_covers(
    dirs: Seq<PathView>,
    path: PathView,
    root: Option<PathView>,
    n: nat,
    i: int,
)
    requires
        is_nearest(dirs, path, root, n, i),
    ensures
        covering_schema(dirs, path, root) == Some(i),
{
    the_nearest_is_found(dirs, path, root, n, i, 0);
    assert(path.parts.drop_last() =~= path.parts.take(path.parts.len() - 1));
}

/// A type is matched by path exactly where it alone claims the path, by the
/// patterns of the schema nearest above the file.
pub proof fn a_path_match_is_the_only_claim(
    path: PathView,
    schemas: Seq<SchemaDir>,
    n: nat,
    i: int,
    name: Seq<char>,
)
    requires
        is_nearest(dirs_view(schemas), path, None, n, i),
    ensures
        path_match(path, schemas) == Some(name) <==> path_claims(
            path,
            schema_place(path, n),
            option_matcher(schemas[i].matcher),
        ) == seq![name],
        external_claims(path, Some(schemas[i])) == path_claims(
            path,
            schema_place(path, n),
            option_matcher(schemas[i].matcher),
        ),
        external_claims(path, None).len() == 0,
{
    the_nearest_schema_covers(dirs_view(schemas), path, None, n, i);
    assert(dirs_view(schemas)[i] == schemas[i].dir@);
    let claims = path_claims(path, schemas[i].dir@, option_matcher(schemas[i].matcher));
    if claims.len() == 1 {
        assert(claims =~= seq![claims[0]]);
        if claims == seq![name] {
            assert(claims[0] == name);
        }
    } else if claims == seq![name] {
        assert(claims.len() == 1);
    }
}

/// The type of a document is the one that its front matter names, where the
/// schema nearest above it defines that type; without such a name, the one
/// that alone claims its path there.
pub proof fn a_document_has_the_type_of_its_schema(
    path: PathView,
    doc: DocumentView,
    root: PathView,
    schemas: Seq<SchemaDir>,
    n: nat,
    i: int,
    name: Seq<char>,
)
    requires
        is_nearest(dirs_view(schemas), path, Some(root), n, i),
    ensures
        covered_type(path, doc, root, schemas) == Some(name) <==> {
            &&& has_key(schemas[i].schema.types@, name)
            &&& match named_type(doc) {
                Some(t) => t == name && name != "none"@,
                None => path_claims(
                    path,
                    schema_place(path, n),
                    option_matcher(schemas[i].matcher),
                ) == seq![name],
            }
        },
        covered_def(path, Some(name), root, schemas) is Some <==> has_key(
            schemas[i].schema.types@,
            name,
        ),
        covered_def(path, None, root, schemas) is None,
{
    the_nearest_schema_covers(dirs_view(schemas), path, Some(root), n, i);
    assert(dirs_view(schemas)[i] == schemas[i].dir@);
    let types = schemas[i].schema.types@;
    lookup_finds(types, name);
    let claims = path_claims(path, schemas[i].dir@, option_matcher(schemas[i].matcher));
    match named_type(doc) {
        Some(t) => {
            lookup_finds(types, t);
        },
        None => {
            if claims.len() == 1 {
                assert(claims =~= seq![claims[0]]);
                lookup_finds(types, claims[0]);
                if claims == seq![name] {
                    assert(claims[0] == name);
                }
            } else if claims == seq![name] {
                assert(claims.len() == 1);
            }
        },
    }
}

/// A document whose front matter names a type of the schema nearest above it
/// is shown by that type's definition.
pub proof fn a_document_is_shown_by_its_type(
    path: PathView,
    doc: DocumentView,
    root: PathView,
    schemas: Seq<SchemaDir>,
    n: nat,
    i: int,
    k: int,
)
    requires
        is_nearest(dirs_view(schemas), path, Some(root), n, i),
        distinct_keys(schemas[i].schema.types@),
        0 <= k < schemas[i].schema.types@.len(),
        named_type(doc) == Some(schemas[i].schema.types@[k].0),
        schemas[i].schema.types@[k].0 != "none"@,
    ensures
        covered_def(path, named_type(doc), root, schemas) == Some(schemas[i].schema.types@[k].1),
        covered_json(path, doc, root, schemas) == document_json(
            doc,
            path,
            named_type(doc),
            Some(schemas[i].schema.types@[k].1),
            root,
        ),
{
    let types = schemas[i].schema.types@;
    assert(has_key(types, types[k].0));
    a_document_has_the_type_of_its_schema(path, doc, root, schemas, n, i, types[k].0);
    the_nearest_schema_covers(dirs_view(schemas), path, Some(root), n, i);
    lookup_at(types, k);
}

/// A file that no schema directory stands above has no type, and is shown
/// without one.
pub proof fn a_file_without_schema_has_no_type(
    path: PathView,
    doc: DocumentView,
    root: PathView,
    name: Option<Seq<char>>,
    schemas: Seq<SchemaDir>,
)
    requires
        schemas.len() == 0,
    ensures
        path_match(path, schemas) is None,
        covered_type(path, doc, root, schemas) is None,
        covered_def(path, name, root, schemas) is None,
        covered_json(path, doc, root, schemas) == document_json(doc, path, None, None, root),
{
    let dirs = dirs_view(schemas);
    if path.parts.len() > 0 {
        let dir = PathView { absolute: path.absolute, parts: path.parts.drop_last() };
        none_is_nearest(dirs, dir, None);
        none_is_nearest(dirs, dir, Some(root));
    }
}

proof fn none_is_nearest(dirs: Seq<PathView>, dir: PathView, root: Option<PathView>)
    requires
        dirs.len() == 0,
    ensures
        nearest_schema(dirs, dir, root) is None,
    decreases dir.parts.len(),
{
    if dir.parts.len() > 0 {
        none_is_nearest(
            dirs,
            PathView { absolute: dir.absolute, parts: dir.parts.drop_last() },
            root,
        );
    }
}

// ── what is asked for ─────────────────────────────────────────────────────

/// Whether the first `=` of a text stands at `n`.
pub open spec fn parts_at(s: Seq<char>, n: int) -> bool {
    0 <= n < s.len() && s[n] == '=' && forall|j: int| 0 <= j < n ==> s[j] != '='
}

/// Whether a pair is what stands before and behind the first `=` of a text,
/// without outer space.
pub open spec fn is_parted(s: Seq<char>, pair: (Seq<char>, Seq<char>)) -> bool {
    exists|n: int| #[trigger]
        parts_at(s, n) && pair == (trimmed(s.take(n)), trimmed(s.skip(n + 1)))
}

proof fn a_cut_is_at_the_first(s: Seq<char>)
    ensures
        cut_once(s, "="@) is Some <==> s.contains('='),
        cut_once(s, "="@) matches Some((k, v)) ==> is_parted(s, (trimmed(k), trimmed(v))),
{
    reveal_strlit("=");
    let p = "="@;
    first_at_is_first(s, p, 0);
    assert forall|k: int| 0 <= k < s.len() implies (#[trigger] s[k] == '=' <==> stands_at(
        s,
        p,
        k,
    )) by {
        if s[k] == '=' {
            assert(s.subrange(k, k + 1) =~= p);
        }
        if stands_at(s, p, k) {
            assert(s.subrange(k, k + 1)[0] == s[k]);
        }
    }
    if let Some(i) = crate::text::first_at(s, p, 0) {
        assert(s[i] == '=');
        assert forall|j: int| 0 <= j < i implies s[j] != '=' by {
            assert(!stands_at(s, p, j));
        }
        assert(parts_at(s, i));
    } else if s.contains('=') {
        let k = choose|k: int| 0 <= k < s.len() && s[k] == '=';
        assert(stands_at(s, p, k));
    }
}

/// Properties are asked for as `key=value`: each gives its key and its value,
/// in order. One without `=` is refused by name.
pub proof fn a_flag_is_key_and_value(raw: Seq<Seq<char>>)
    ensures
        flags_of(raw) is Ok <==> forall|i: int|
            0 <= i < raw.len() ==> (#[trigger] raw[i]).contains('='),
        flags_of(raw) matches Ok(f) ==> f.len() == raw.len() && forall|i: int|
            0 <= i < raw.len() ==> is_parted(#[trigger] raw[i], f[i]),
        flags_of(raw) matches Err(e) ==> exists|i: int|
            0 <= i < raw.len() && !(#[trigger] raw[i]).contains('=') && has_part(e, raw[i]),
    decreases raw.len(),
{
    if raw.len() > 0 {
        let f = raw.drop_last();
        let n = raw.len() - 1;
        a_flag_is_key_and_value(f);
        a_cut_is_at_the_first(raw[n]);
        match flags_of(f) {
            Ok(before) => {
                assert forall|i: int| 0 <= i < n implies (#[trigger] raw[i]).contains('=') by {
                    assert(f[i] == raw[i]);
                }
                if let Ok(all) = flags_of(raw) {
                    assert forall|i: int| 0 <= i < raw.len() implies is_parted(
                        #[trigger] raw[i],
                        all[i],
                    ) by {
                        if i < n {
                            assert(f[i] == raw[i]);
                            assert(all[i] == before[i]);
                        }
                    }
                } else {
                    names_it("--property expects 'key=value', got '"@, raw[n], "'"@);
                    assert(!raw[n].contains('='));
                }
            },
            Err(e) => {
                let i = choose|i: int|
                    0 <= i < f.len() && !(#[trigger] f[i]).contains('=') && has_part(e, f[i]);
                assert(raw[i] == f[i]);
            },
        }
    }
}

proof fn names_it(a: Seq<char>, x: Seq<char>, b: Seq<char>)
    ensures
        has_part(a + x + b, x),
{
    let s = a + x + b;
    let n = a.len() as int;
    assert(s.subrange(n, n + x.len()) =~= x);
    assert(stands_at(s, x, n));
}

/// A type that no schema defines cannot be asked for: the refusal names it.
pub proof fn an_unknown_type_is_refused(schemas: Seq<SchemaDir>, name: Seq<char>)
    ensures
        type_problem(Some(name), known_types(schemas)) is None <==> exists|k: int|
            0 <= k < schemas.len() && has_key((#[trigger] schemas[k]).schema.types@, name),
        type_problem(Some(name), known_types(schemas)) matches Some(e) ==> has_part(e, name),
        type_problem(None, known_types(schemas)) is None,
        glob_problem(None) is None,
{
    known_types_are_those_defined(schemas, name);
    let known = known_types(schemas);
    let rest = "'; known types: "@ + crate::text::joined(known, ", "@);
    names_it("unknown --type '"@, name, rest);
    assert("unknown --type '"@ + name + rest =~= "unknown --type '"@ + name
        + "'; known types: "@ + crate::text::joined(known, ", "@));
}

/// A query stops when it has as many matches as it asks for, and no sooner.
pub proof fn a_query_stops_at_its_number(opts: QueryOptions, emitted: usize)
    ensures
        opts.last matches Some(n) ==> (emitted >= match_limit(opts) <==> emitted >= n),
        opts.last is None && emitted < usize::MAX ==> emitted < match_limit(opts),
{
}

/// A file in the root is listed by its path from there, one elsewhere by its
/// own path, and either by its name and the day in it.
pub proof fn a_candidate_is_its_file(path: PathView, root: PathView, schemas: Seq<SchemaDir>)
    requires
        root.absolute || root.parts.len() > 0,
    ensures
        ({
            let c = candidate_of(path, root, schemas);
            &&& c.abs_path == path
            &&& lies_in(path, root) ==> !c.rel_path.absolute && root.parts + c.rel_path.parts
                == path.parts
            &&& !lies_in(path, root) ==> c.rel_path == path
            &&& path.parts.len() > 0 && path.parts.last() != "."@ && path.parts.last() != ".."@
                ==> c.basename == path.parts.last()
            &&& c.file_date == name_day(c.basename)
            &&& c.path_match_type == path_match(path, schemas)
        }),
{
    if lies_in(path, root) {
        let k = root.parts.len() as int;
        assert(root.parts + path.parts.skip(k) =~= path.parts) by {
            assert(root.parts =~= path.parts.take(k));
        }
    }
}

// ── what is shown ─────────────────────────────────────────────────────────

/// A match is shown under a heading with its path: all of its text, without
/// the line feeds around it. A blank line parts it from the match before.
pub proof fn a_match_shows_path_and_text(
    rel: PathView,
    blocks: Seq<BlockView>,
    m: nat,
    core: Seq<char>,
    n: nat,
)
    requires
        core.len() > 0 ==> core[0] != '\n' && core.last() != '\n',
        top_text(blocks, false) == Seq::new(m, |i: int| '\n') + core + Seq::new(n, |i: int| '\n'),
    ensures
        match_text(rel, blocks, false) == seq!['\n'] + match_text(rel, blocks, true),
        core.len() > 0 ==> match_text(rel, blocks, true) == seq!['#', '#', ' '] + path_text(rel)
            + seq!['\n', '\n'] + core + seq!['\n'],
        core.len() == 0 ==> match_text(rel, blocks, true) == seq!['#', '#', ' '] + path_text(rel)
            + seq!['\n', '\n'],
{
    trimming_takes_outer_runs(m, core, n, '\n');
    reveal_strlit("\n");
    reveal_strlit("\n\n");
    reveal_strlit("## ");
    let none: Seq<char> = Seq::empty();
    assert("\n"@ =~= seq!['\n']);
    assert("\n\n"@ =~= seq!['\n', '\n']);
    assert("## "@ =~= seq!['#', '#', ' ']);
    let t = match_text(rel, blocks, true);
    assert(match_text(rel, blocks, false) =~= seq!['\n'] + t);
    if core.len() > 0 {
        assert(t =~= seq!['#', '#', ' '] + path_text(rel) + seq!['\n', '\n'] + core + seq!['\n']);
    } else {
        assert(t =~= seq!['#', '#', ' '] + path_text(rel) + seq!['\n', '\n']);
    }
}

/// The links of a document in JSON are those of its intro and of its
/// sections.
pub proof fn urls_of_a_document_are_gathered(d: JsonDocumentView, u: Seq<char>)
    ensures
        document_urls(d).contains(u) <==> (d.intro is Some && exists|i: int|
            0 <= i < d.intro->0.links.len() && (#[trigger] d.intro->0.links[i]).url == u)
            || sections_urls(d.sections).contains(u),
{
    let b = sections_urls(d.sections);
    let all = document_urls(d);
    let a = match d.intro {
        Some(c) => crate::json::urls_of_links(c.links),
        None => Seq::empty(),
    };
    assert(all == a + b);
    if all.contains(u) {
        let i = choose|i: int| 0 <= i < all.len() && all[i] == u;
        if i < a.len() {
            assert(d.intro->0.links[i].url == u);
        } else {
            assert(b[i - a.len()] == u);
        }
    }
    if b.contains(u) {
        let i = choose|i: int| 0 <= i < b.len() && b[i] == u;
        assert(all[a.len() + i] == u);
    }
    if d.intro is Some && exists|i: int|
        0 <= i < d.intro->0.links.len() && (#[trigger] d.intro->0.links[i]).url == u {
        let i = choose|i: int|
            0 <= i < d.intro->0.links.len() && (#[trigger] d.intro->0.links[i]).url == u;
        assert(all[i] == u);
    }
}

// ── what a pattern claims ─────────────────────────────────────────────────

/// Whether a type has a path pattern.
pub open spec fn has_pattern(td: TypeDef, pattern: Seq<char>) -> bool {
    exists|j: int| 0 <= j < td.paths@.len() && (#[trigger] td.paths@[j])@ == pattern
}

/// Whether one of a type's path patterns matches a path.
pub open spec fn matches_path(td: TypeDef, path: Seq<char>) -> bool {
    exists|j: int| 0 <= j < td.paths@.len() && glob_matches((#[trigger] td.paths@[j])@, path)
}

proof fn patterns_are_those_of_the_types(
    types: Seq<(Seq<char>, TypeDef)>,
    owner: Seq<char>,
    pattern: Seq<char>,
)
    ensures
        all_patterns(types).contains(PatternView { owner, pattern }) <==> exists|k: int|
            0 <= k < types.len() && (#[trigger] types[k]).0 == owner && has_pattern(
                types[k].1,
                pattern,
            ),
    decreases types.len(),
{
    let p = PatternView { owner, pattern };
    let all = all_patterns(types);
    if types.len() > 0 {
        let f = types.drop_last();
        let n = types.len() - 1;
        let (name, td) = types[n];
        let mine = patterns_of(name, texts(td.paths@));
        patterns_are_those_of_the_types(f, owner, pattern);
        assert(all == all_patterns(f) + mine);
        if all.contains(p) {
            let i = choose|i: int| 0 <= i < all.len() && all[i] == p;
            let k0 = all_patterns(f).len();
            if i < k0 {
                assert(all_patterns(f)[i] == p);
                let k = choose|k: int|
                    0 <= k < f.len() && (#[trigger] f[k]).0 == owner && has_pattern(
                        f[k].1,
                        pattern,
                    );
                assert(types[k] == f[k]);
            } else {
                assert(mine[i - k0] == p);
                assert(td.paths@[i - k0]@ == pattern);
                assert(types[n].0 == owner && has_pattern(types[n].1, pattern));
            }
        }
        if exists|k: int|
            0 <= k < types.len() && (#[trigger] types[k]).0 == owner && has_pattern(
                types[k].1,
                pattern,
            ) {
            let k = choose|k: int|
                0 <= k < types.len() && (#[trigger] types[k]).0 == owner && has_pattern(
                    types[k].1,
                    pattern,
                );
            if k < n {
                assert(f[k] == types[k]);
                let i = choose|i: int|
                    0 <= i < all_patterns(f).len() && all_patterns(f)[i] == p;
                assert(all[i] == p);
            } else {
                let j = choose|j: int|
                    0 <= j < td.paths@.len() && (#[trigger] td.paths@[j])@ == pattern;
                assert(mine[j] == p);
                assert(all[all_patterns(f).len() + j] == p);
            }
        }
    }
}

/// A type claims a path exactly where one of its own patterns matches the
/// path, and no type claims it twice.
pub proof fn a_type_claims_by_its_patterns(
    types: Seq<(Seq<char>, TypeDef)>,
    m: MatcherView,
    path: Seq<char>,
    name: Seq<char>,
)
    requires
        matcher_of(types) == Some(m),
    ensures
        claimants(m, path).contains(name) <==> exists|k: int|
            0 <= k < types.len() && (#[trigger] types[k]).0 == name && matches_path(
                types[k].1,
                path,
            ),
        claimants(m, path).no_duplicates(),
{
    let ps = all_patterns(types);
    claimants_are_owners(m, path, m.patterns.len(), name);
    if claimants(m, path).contains(name) {
        let i = choose|i: int|
            0 <= i < m.patterns.len() && #[trigger] m.owners[i] == name && glob_matches(
                m.patterns[i],
                path,
            );
        assert(ps[i] == PatternView { owner: name, pattern: m.patterns[i] });
        patterns_are_those_of_the_types(types, name, m.patterns[i]);
        let k = choose|k: int|
            0 <= k < types.len() && (#[trigger] types[k]).0 == name && has_pattern(
                types[k].1,
                m.patterns[i],
            );
        let j = choose|j: int|
            0 <= j < types[k].1.paths@.len() && (#[trigger] types[k].1.paths@[j])@ == m.patterns[i];
        assert(glob_matches(types[k].1.paths@[j]@, path));
    }
    if exists|k: int|
        0 <= k < types.len() && (#[trigger] types[k]).0 == name && matches_path(types[k].1, path) {
        let k = choose|k: int|
            0 <= k < types.len() && (#[trigger] types[k]).0 == name && matches_path(
                types[k].1,
                path,
            );
        let j = choose|j: int|
            0 <= j < types[k].1.paths@.len() && glob_matches(
                (#[trigger] types[k].1.paths@[j])@,
                path,
            );
        let pattern = types[k].1.paths@[j]@;
        assert(has_pattern(types[k].1, pattern));
        patterns_are_those_of_the_types(types, name, pattern);
        let i = choose|i: int|
            0 <= i < ps.len() && ps[i] == (PatternView { owner: name, pattern });
        assert(m.owners[i] == name && m.patterns[i] == pattern);
    }
}

/// What is wrong with a schema is reported of its directory: each vacuous
/// template, in order and by its names, and unusable patterns, with the
/// reason. A schema without either reports nothing.
pub proof fn problems_of_a_schema_are_reported(
    dir: PathView,
    own: Seq<(Seq<char>, TypeDef)>,
    merged: Seq<(Seq<char>, TypeDef)>,
)
    ensures
        ({
            let r = schema_errors(dir, own, merged);
            let vac = vacuous_all(own);
            &&& r.len() == 0 <==> vac.len() == 0 && matcher_problem(merged) is None
            &&& forall|i: int| 0 <= i < r.len() ==> (#[trigger] r[i]).path == dir
            &&& vac.len() > 0 ==> r.len() > 0 && r[0].diagnostics.len() == vac.len() && forall|
                i: int,
            |
                0 <= i < vac.len() ==> #[trigger] r[0].diagnostics[i] == (
                DiagnosticView::VacuousTemplate {
                    owner: vac[i].owner,
                    section: vac[i].section,
                    template: vac[i].template,
                })
            &&& matcher_problem(merged) matches Some(e) ==> r.len() > 0
                && r.last().diagnostics.len() == 1 && (
            r.last().diagnostics[0] matches DiagnosticView::UnknownType { line, message }
                && line == 0 && has_part(message, e))
        }),
{
    let r = schema_errors(dir, own, merged);
    let none: Seq<char> = Seq::empty();
    let vac = vacuous_all(own);
    assert(vacuous_diagnostics(vac).len() == vac.len());
    if let Some(e) = matcher_problem(merged) {
        let a = "path pattern"@ + " error: "@;
        names_it(a, e, none);
        assert(a + e + none =~= a + e);
        assert(r.last() == schema_complaint(dir, "path pattern"@, e));
    }
}

/// Patterns of a schema that is usable make a matcher of all of them.
pub proof fn usable_patterns_make_a_matcher(types: Seq<(Seq<char>, TypeDef)>)
    ensures
        matcher_of(types) is Some <==> pattern_errors(
            PathView { absolute: false, parts: Seq::empty() },
            types,
        ).len() == 0,
        matcher_of(types) matches Some(m) ==> m.patterns.len() == m.owners.len() && m.patterns.len()
            == all_patterns(types).len(),
{
}

} // verus!
