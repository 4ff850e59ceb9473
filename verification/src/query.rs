//! Filtering and listing documents.

use crate::ast::{
    blocks_view, cells_view, inlines_text, inlines_to_string, inlines_view, items_view, rows_view,
    Block, BlockView, Document, DocumentView, Inline, InlineView, ListItem, ListItemView,
};
use crate::coerce::option_type;
use crate::dates::{
    document_day, frontmatter_date, is_recent, name_day, option_day, parse_filename_date,
};
use crate::globs::{matches_name, name_glob, name_glob_error, name_matches, name_pattern};
use crate::json::{document_json, document_to_json, option_str, JsonDocument, JsonDocumentView};
use crate::ordered::{distinct_keys, has_key, lookup, lookup_at, lookup_finds};
use crate::path::{
    name_of, path_text, relative_to, text_before, text_before_is_strict, text_before_splits,
    text_precedes, FilePath, PathView,
};
use crate::resolve::{
    covering_schema, dirs_view, find_schema_for, named_type, option_matcher, path_claims,
    path_match, resolve_path_match_type, resolve_type, type_resolution, ResolvedType, ResolvedView,
    SchemaDir,
};
use crate::schema::TypeDef;
use crate::serialize::{serialize_top, top_text};
use crate::standing::{
    ended, linking_is_holding_a_link, passages, stands_in, the_searched_text_is_all_text, url_of,
};
use crate::text::{
    contains, cut_once, has_part, join, joined, lower, lowercase, option_text, split_once, texts,
    trim, trim_char, trimmed, trimmed_char,
};
use crate::value::{number_text, numeric_text, values_view, Yaml, YamlView};
use globset::GlobSet;
use vstd::prelude::*;

verus! {

/// What to look for, and how to show it.
#[derive(Debug, Clone)]
pub struct QueryOptions {
    pub doc_type: Option<String>,
    pub filename_glob: Option<String>,
    pub last: Option<usize>,
    pub days: Option<i64>,
    pub grep: Option<String>,
    pub has_link: Option<String>,
    pub properties: Vec<(String, String)>,
    pub json: bool,
    pub count: bool,
    pub path_only: bool,
}

impl Default for QueryOptions {
    fn default() -> (r: QueryOptions)
        ensures
            r.doc_type is None,
            r.filename_glob is None,
            r.last is None,
            r.days is None,
            r.grep is None,
            r.has_link is None,
            r.properties@.len() == 0,
            !r.json,
            !r.count,
            !r.path_only,
    {
        QueryOptions {
            doc_type: None,
            filename_glob: None,
            last: None,
            days: None,
            grep: None,
            has_link: None,
            properties: Vec::new(),
            json: false,
            count: false,
            path_only: false,
        }
    }
}

// ── property flags ────────────────────────────────────────────────────────

/// The content of key and value pairs.
pub open spec fn flags_view(v: Seq<(String, String)>) -> Seq<(Seq<char>, Seq<char>)> {
    v.map_values(|e: (String, String)| (e.0@, e.1@))
}

/// The pairs that `key=value` texts spell, or the message about the first
/// that spells none.
pub open spec fn flags_of(raw: Seq<Seq<char>>) -> Result<Seq<(Seq<char>, Seq<char>)>, Seq<char>>
    decreases raw.len(),
{
    if raw.len() == 0 {
        Ok(Seq::empty())
    } else {
        match flags_of(raw.drop_last()) {
            Err(e) => Err(e),
            Ok(before) => match cut_once(raw.last(), "="@) {
                Some((k, v)) => Ok(before.push((trimmed(k), trimmed(v)))),
                None => Err("--property expects 'key=value', got '"@ + raw.last() + "'"@),
            },
        }
    }
}

proof fn flags_fail_early(raw: Seq<Seq<char>>, n: int)
    requires
        0 <= n <= raw.len(),
        flags_of(raw.take(n)) is Err,
    ensures
        flags_of(raw) == flags_of(raw.take(n)),
    decreases raw.len() - n,
{
    if n < raw.len() {
        assert(raw.take(n + 1).drop_last() =~= raw.take(n));
        flags_fail_early(raw, n + 1);
    } else {
        assert(raw.take(n) =~= raw);
    }
}

/// The content of an outcome.
pub open spec fn flags_outcome(r: Result<Vec<(String, String)>, String>) -> Result<
    Seq<(Seq<char>, Seq<char>)>,
    Seq<char>,
> {
    match r {
        Ok(v) => Ok(flags_view(v@)),
        Err(e) => Err(e@),
    }
}

/// Parse `k=v` texts collected from `--property` flags.
pub fn parse_property_flags(raw: &[String]) -> (r: Result<Vec<(String, String)>, String>)
    ensures
        flags_outcome(r) == flags_of(texts(raw@)),
{
    let ghost all = texts(raw@);
    let mut out: Vec<(String, String)> = Vec::new();
    let mut i: usize = 0;
    assert(all.take(0) =~= Seq::empty());
    assert(flags_view(out@) =~= Seq::empty());
    while i < raw.len()
        invariant
            i <= raw.len(),
            all == texts(raw@),
            flags_of(all.take(i as int)) == Ok::<Seq<(Seq<char>, Seq<char>)>, Seq<char>>(
                flags_view(out@),
            ),
        decreases raw.len() - i,
    {
        assert(all.take(i + 1).drop_last() =~= all.take(i as int));
        assert(all.take(i + 1).last() == raw@[i as int]@);
        match split_once(raw[i].as_str(), "=") {
            Some((k, v)) => {
                let ghost was = out@;
                let key = trim(k.as_str());
                let value = trim(v.as_str());
                out.push((key, value));
                assert(flags_view(out@) =~= flags_view(was).push((key@, value@)));
            },
            None => {
                let mut m = String::from_str("--property expects 'key=value', got '");
                m.append(raw[i].as_str());
                m.append("'");
                proof {
                    flags_fail_early(all, i + 1);
                }
                return Err(m);
            },
        }
        i += 1;
    }
    assert(all.take(all.len() as int) =~= all);
    Ok(out)
}

// ── checks before the search ──────────────────────────────────────────────

/// `names`, which are sorted, with `n` in its place, unless it is there.
pub open spec fn with_name(names: Seq<Seq<char>>, n: Seq<char>) -> Seq<Seq<char>>
    decreases names.len(),
{
    if names.len() == 0 {
        seq![n]
    } else if names.last() == n {
        names
    } else if text_before(n, names.last(), 0) {
        with_name(names.drop_last(), n).push(names.last())
    } else {
        names.push(n)
    }
}

/// `names` with all of `more`.
pub open spec fn with_names(names: Seq<Seq<char>>, more: Seq<Seq<char>>) -> Seq<Seq<char>>
    decreases more.len(),
{
    if more.len() == 0 {
        names
    } else {
        with_name(with_names(names, more.drop_last()), more.last())
    }
}

/// The names of the types of a schema.
pub open spec fn type_names(types: Seq<(Seq<char>, TypeDef)>) -> Seq<Seq<char>> {
    types.map_values(|e: (Seq<char>, TypeDef)| e.0)
}

/// The names of the types of all schemas, sorted, each once.
pub open spec fn known_types(schemas: Seq<SchemaDir>) -> Seq<Seq<char>>
    decreases schemas.len(),
{
    if schemas.len() == 0 {
        Seq::empty()
    } else {
        with_names(known_types(schemas.drop_last()), type_names(schemas.last().schema.types@))
    }
}

fn put_name(names: &mut Vec<String>, n: &String)
    ensures
        texts(final(names)@) == with_name(texts(old(names)@), n@),
{
    let ghost s = texts(names@);
    let mut k: usize = names.len();
    assert(s.take(s.len() as int) =~= s);
    assert(with_name(s, n@) =~= with_name(s.take(s.len() as int), n@) + s.skip(s.len() as int));
    while k > 0
        invariant
            k <= names.len(),
            s == texts(names@),
            s == texts(old(names)@),
            with_name(s, n@) == with_name(s.take(k as int), n@) + s.skip(k as int),
        ensures
            k <= names.len(),
            s == texts(names@),
            s == texts(old(names)@),
            with_name(s, n@) == s.take(k as int).push(n@) + s.skip(k as int),
        decreases k,
    {
        let ghost t = s.take(k as int);
        assert(t.drop_last() =~= s.take(k - 1));
        assert(t.last() == names@[k - 1]@);
        if names[k - 1].as_str().eq(n.as_str()) {
            assert(t + s.skip(k as int) =~= s);
            return;
        }
        if !text_precedes(n.as_str(), names[k - 1].as_str()) {
            break;
        }
        assert(with_name(t, n@) =~= with_name(s.take(k - 1), n@).push(s[k - 1]));
        assert(with_name(t, n@) + s.skip(k as int) =~= with_name(s.take(k - 1), n@) + s.skip(
            k - 1,
        ));
        k -= 1;
        if k == 0 {
            assert(s.take(0).push(n@) =~= seq![n@]);
        }
    }
    proof {
        if k == 0 {
            assert(s.take(0).push(n@) =~= seq![n@]);
        }
    }
    names.insert(k, n.clone());
    assert(texts(names@) =~= s.take(k as int).push(n@) + s.skip(k as int));
}

fn put_types(names: &mut Vec<String>, schema: &SchemaDir)
    ensures
        texts(final(names)@) == with_names(
            texts(old(names)@),
            type_names(schema.schema.types@),
        ),
{
    let ghost all = type_names(schema.schema.types@);
    let ghost start = texts(names@);
    let keys = schema.schema.types.keys();
    let mut i: usize = 0;
    assert(texts(keys@) =~= all);
    assert(all.take(0) =~= Seq::empty());
    while i < keys.len()
        invariant
            i <= keys.len(),
            texts(keys@) == all,
            start == texts(old(names)@),
            texts(names@) == with_names(start, all.take(i as int)),
        decreases keys.len() - i,
    {
        assert(all.take(i + 1).drop_last() =~= all.take(i as int));
        assert(all.take(i + 1).last() == keys@[i as int]@);
        put_name(names, &keys[i]);
        i += 1;
    }
    assert(all.take(all.len() as int) =~= all);
}

fn list_types(schemas: &Vec<SchemaDir>) -> (r: Vec<String>)
    ensures
        texts(r@) == known_types(schemas@),
{
    let mut names: Vec<String> = Vec::new();
    let mut i: usize = 0;
    assert(texts(names@) =~= known_types(schemas@.take(0)));
    while i < schemas.len()
        invariant
            i <= schemas.len(),
            texts(names@) == known_types(schemas@.take(i as int)),
        decreases schemas.len() - i,
    {
        assert(schemas@.take(i + 1).drop_last() =~= schemas@.take(i as int));
        put_types(&mut names, &schemas[i]);
        i += 1;
    }
    assert(schemas@.take(schemas@.len() as int) =~= schemas@);
    names
}

/// What is wrong with the `--type` of a query.
pub open spec fn type_problem(wanted: Option<Seq<char>>, known: Seq<Seq<char>>) -> Option<Seq<char>> {
    match wanted {
        Some(t) => if known.contains(t) {
            None
        } else {
            Some("unknown --type '"@ + t + "'; known types: "@ + joined(known, ", "@))
        },
        None => None,
    }
}

/// What is wrong with the `--filename-glob` of a query.
pub open spec fn glob_problem(pattern: Option<Seq<char>>) -> Option<Seq<char>> {
    match pattern {
        Some(p) => match name_glob_error(p) {
            Some(e) => Some("invalid --filename-glob '"@ + p + "': "@ + e),
            None => None,
        },
        None => None,
    }
}

/// The pattern of an optional set.
pub open spec fn option_pattern(s: Option<GlobSet>) -> Option<Seq<char>> {
    match s {
        Some(s) => Some(name_pattern(s)),
        None => None,
    }
}

/// A query that can be run.
pub struct Query {
    opts: QueryOptions,
    names: Option<GlobSet>,
}

impl Query {
    #[verifier::type_invariant]
    spec fn well_formed(self) -> bool {
        option_pattern(self.names) == option_text(self.opts.filename_glob)
    }

    /// Check the options of a query: its file name pattern must be one, and
    /// its type must be known to a schema.
    pub fn new(opts: QueryOptions, schemas: &Vec<SchemaDir>) -> (r: Result<Query, String>)
        ensures
            match r {
                Ok(q) => {
                    &&& q.options() == opts
                    &&& glob_problem(option_text(opts.filename_glob)) is None
                    &&& type_problem(option_text(opts.doc_type), known_types(schemas@)) is None
                },
                Err(e) => match glob_problem(option_text(opts.filename_glob)) {
                    Some(p) => e@ == p,
                    None => type_problem(option_text(opts.doc_type), known_types(schemas@))
                        == Some(e@),
                },
            },
    {
        let names = match &opts.filename_glob {
            Some(p) => match name_glob(p.as_str()) {
                Ok(s) => Some(s),
                Err(e) => {
                    let mut m = String::from_str("invalid --filename-glob '");
                    m.append(p.as_str());
                    m.append("': ");
                    m.append(e.as_str());
                    return Err(m);
                },
            },
            None => None,
        };
        if let Some(t) = &opts.doc_type {
            let known = list_types(schemas);
            if !crate::text::holds_text(&known, t.as_str()) {
                let mut m = String::from_str("unknown --type '");
                m.append(t.as_str());
                m.append("'; known types: ");
                let all = join(&known, ", ");
                m.append(all.as_str());
                return Err(m);
            }
        }
        Ok(Query { opts, names })
    }

    /// The options of the query.
    pub closed spec fn options(self) -> QueryOptions {
        self.opts
    }

    /// The options of the query.
    pub fn opts(&self) -> (r: &QueryOptions)
        ensures
            *r == self.options(),
    {
        &self.opts
    }

    /// Whether a candidate may match, by its name alone.
    pub fn keeps(&self, c: &Candidate, today: i32) -> (r: bool)
        ensures
            r == may_match(self.options(), c@, today as int),
    {
        proof {
            use_type_invariant(self);
        }
        if let Some(s) = &self.names {
            if !matches_name(s, c.basename.as_str()) {
                return false;
            }
        }
        if let (Some(n), Some(d)) = (self.opts.days, c.file_date) {
            if !is_recent(d, today, n) {
                return false;
            }
        }
        true
    }

    /// The candidates that may match, newest first.
    pub fn select(&self, candidates: Vec<Candidate>, today: i32) -> (r: Vec<Candidate>)
        ensures
            candidates_view(r@) == newest_first(
                those_that_may(self.options(), candidates_view(candidates@), today as int),
            ),
    {
        let ghost orig = candidates@;
        let ghost all = candidates_view(orig);
        let mut rest = candidates;
        let mut out: Vec<Candidate> = Vec::new();
        let ghost mut done: int = 0;
        assert(orig.skip(0) =~= orig);
        assert(all.take(0) =~= Seq::empty());
        assert(candidates_view(out@) =~= Seq::empty());
        while rest.len() > 0
            invariant
                0 <= done <= orig.len(),
                all == candidates_view(orig),
                rest@ == orig.skip(done),
                candidates_view(out@) == newest_first(
                    those_that_may(self.options(), all.take(done), today as int),
                ),
            decreases rest@.len(),
        {
            let ghost before = those_that_may(self.options(), all.take(done), today as int);
            assert(all.take(done + 1).drop_last() =~= all.take(done));
            assert(all.take(done + 1).last() == orig[done]@);
            assert(rest@[0] == orig[done]);
            let c = rest.remove(0);
            if self.keeps(&c, today) {
                assert(before.push(c@).drop_last() =~= before);
                insert_newest(&mut out, c);
            }
            proof {
                done = done + 1;
                assert(rest@ =~= orig.skip(done));
            }
        }
        assert(all.take(done) =~= all);
        out
    }
}

// ── candidates ────────────────────────────────────────────────────────────

/// A file that a query may list.
#[derive(Debug)]
pub struct Candidate {
    pub abs_path: FilePath,
    pub rel_path: FilePath,
    pub basename: String,
    /// The number of the day that the file name holds.
    pub file_date: Option<i32>,
    /// Type resolved purely from path matching.
    pub path_match_type: Option<String>,
}

/// What a [`Candidate`] holds.
#[verifier::ext_equal]
pub struct CandidateView {
    pub abs_path: PathView,
    pub rel_path: PathView,
    pub basename: Seq<char>,
    pub file_date: Option<int>,
    pub path_match_type: Option<Seq<char>>,
}

impl View for Candidate {
    type V = CandidateView;

    open spec fn view(&self) -> CandidateView {
        CandidateView {
            abs_path: self.abs_path@,
            rel_path: self.rel_path@,
            basename: self.basename@,
            file_date: option_day(self.file_date),
            path_match_type: option_text(self.path_match_type),
        }
    }
}

/// The content of a list of candidates.
pub open spec fn candidates_view(v: Seq<Candidate>) -> Seq<CandidateView> {
    v.map_values(|c: Candidate| c@)
}

/// The candidate for a file.
pub open spec fn candidate_of(path: PathView, root: PathView, schemas: Seq<SchemaDir>) -> CandidateView {
    let basename = match name_of(path) {
        Some(n) => n,
        None => Seq::empty(),
    };
    CandidateView {
        abs_path: path,
        rel_path: match relative_to(path, root) {
            Some(rel) => rel,
            None => path,
        },
        basename,
        file_date: name_day(basename),
        path_match_type: path_match(path, schemas),
    }
}

/// The candidate for a file.
pub fn make_candidate(path: &FilePath, root: &FilePath, schemas: &Vec<SchemaDir>) -> (r: Candidate)
    ensures
        r@ == candidate_of(path@, root@, schemas@),
{
    let rel_path = match path.strip_prefix(root) {
        Some(rel) => rel,
        None => path.clone(),
    };
    let basename = match path.file_name() {
        Some(n) => n,
        None => String::new(),
    };
    let file_date = parse_filename_date(basename.as_str());
    let path_match_type = resolve_path_match_type(path, schemas);
    let r = Candidate { abs_path: path.clone(), rel_path, basename, file_date, path_match_type };
    assert(r@ =~= candidate_of(path@, root@, schemas@));
    r
}

/// Whether a candidate may match, by its name alone: it matches the pattern,
/// and is not known to be too old. What its type is, only its content says.
pub open spec fn may_match(opts: QueryOptions, c: CandidateView, today: int) -> bool {
    &&& (opts.filename_glob matches Some(p) ==> name_matches(p@, c.basename))
    &&& (opts.days matches Some(n) ==> (c.file_date matches Some(d) ==> d >= today - n))
}

/// The candidates that may match.
pub open spec fn those_that_may(opts: QueryOptions, v: Seq<CandidateView>, today: int) -> Seq<
    CandidateView,
>
    decreases v.len(),
{
    if v.len() == 0 {
        v
    } else if may_match(opts, v.last(), today) {
        those_that_may(opts, v.drop_last(), today).push(v.last())
    } else {
        those_that_may(opts, v.drop_last(), today)
    }
}

/// Whether `a` is listed before `b`: dated files before others, newer before
/// older, and then by descending name.
pub open spec fn is_newer(a: CandidateView, b: CandidateView) -> bool {
    match (a.file_date, b.file_date) {
        (Some(x), Some(y)) => x > y || (x == y && text_before(b.basename, a.basename, 0)),
        (Some(_), None) => true,
        (None, Some(_)) => false,
        (None, None) => text_before(b.basename, a.basename, 0),
    }
}

/// `sorted` with `c` put behind every candidate at its end that `c` is not
/// listed before.
pub open spec fn placed(sorted: Seq<CandidateView>, c: CandidateView) -> Seq<CandidateView>
    decreases sorted.len(),
{
    if sorted.len() > 0 && is_newer(c, sorted.last()) {
        placed(sorted.drop_last(), c).push(sorted.last())
    } else {
        sorted.push(c)
    }
}

/// The candidates, newest first; those that are listed alike keep their
/// order.
pub open spec fn newest_first(v: Seq<CandidateView>) -> Seq<CandidateView>
    decreases v.len(),
{
    if v.len() == 0 {
        v
    } else {
        placed(newest_first(v.drop_last()), v.last())
    }
}

fn newer(a: &Candidate, b: &Candidate) -> (r: bool)
    ensures
        r == is_newer(a@, b@),
{
    match (a.file_date, b.file_date) {
        (Some(x), Some(y)) => x > y || (x == y && text_precedes(
            b.basename.as_str(),
            a.basename.as_str(),
        )),
        (Some(_), None) => true,
        (None, Some(_)) => false,
        (None, None) => text_precedes(b.basename.as_str(), a.basename.as_str()),
    }
}

fn insert_newest(v: &mut Vec<Candidate>, c: Candidate)
    ensures
        candidates_view(final(v)@) == placed(candidates_view(old(v)@), c@),
{
    let ghost s = candidates_view(v@);
    let mut k: usize = v.len();
    assert(s.take(s.len() as int) =~= s);
    assert(placed(s.take(s.len() as int), c@) + s.skip(s.len() as int) =~= placed(s, c@));
    while k > 0 && newer(&c, &v[k - 1])
        invariant
            k <= v.len(),
            s == candidates_view(v@),
            s == candidates_view(old(v)@),
            placed(s, c@) == placed(s.take(k as int), c@) + s.skip(k as int),
        decreases k,
    {
        let ghost t = s.take(k as int);
        assert(t.drop_last() =~= s.take(k - 1));
        assert(t.last() == v@[k - 1]@);
        assert(placed(t, c@) =~= placed(s.take(k - 1), c@).push(s[k - 1]));
        assert(placed(t, c@) + s.skip(k as int) =~= placed(s.take(k - 1), c@) + s.skip(k - 1));
        k -= 1;
    }
    let ghost q = c@;
    proof {
        let t = s.take(k as int);
        if k > 0 {
            assert(t.last() == v@[k - 1]@);
        }
        assert(placed(t, q) == t.push(q));
    }
    v.insert(k, c);
    assert(candidates_view(v@) =~= s.take(k as int).push(q) + s.skip(k as int));
}

/// What is listed before a candidate is listed before, or after, any third.
proof fn newer_splits(a: CandidateView, b: CandidateView, c: CandidateView)
    requires
        is_newer(a, c),
    ensures
        is_newer(a, b) || is_newer(b, c),
{
    if text_before(c.basename, a.basename, 0) {
        text_before_splits(c.basename, b.basename, a.basename, 0);
    }
}

/// Whether no candidate is to be listed before one that stands before it.
pub open spec fn is_listed(v: Seq<CandidateView>) -> bool {
    forall|i: int, j: int|
        0 <= i < j < v.len() ==> !is_newer(#[trigger] v[j], #[trigger] v[i])
}

proof fn placed_is_listed(sorted: Seq<CandidateView>, c: CandidateView)
    requires
        is_listed(sorted),
    ensures
        is_listed(placed(sorted, c)),
        placed(sorted, c).len() == sorted.len() + 1,
        forall|k: int|
            0 <= k < placed(sorted, c).len() ==> #[trigger] placed(sorted, c)[k] == c
                || sorted.contains(placed(sorted, c)[k]),
        placed(sorted, c).to_multiset() == sorted.to_multiset().insert(c),
    decreases sorted.len(),
{
    broadcast use vstd::seq_lib::group_to_multiset_ensures;

    let all = placed(sorted, c);
    if sorted.len() > 0 && is_newer(c, sorted.last()) {
        let f = sorted.drop_last();
        let e = sorted.last();
        assert forall|i: int, j: int| 0 <= i < j < f.len() implies !is_newer(
            #[trigger] f[j],
            #[trigger] f[i],
        ) by {
            assert(!is_newer(sorted[j], sorted[i]));
        }
        placed_is_listed(f, c);
        if text_before(e.basename, c.basename, 0) {
            text_before_is_strict(e.basename, c.basename, 0);
        }
        assert(!is_newer(e, c));
        let r = placed(f, c);
        assert forall|k: int| 0 <= k < r.len() implies !is_newer(e, #[trigger] r[k]) && (r[k] == c
            || sorted.contains(r[k])) by {
            if r[k] != c {
                let m = choose|m: int| 0 <= m < f.len() && f[m] == r[k];
                assert(sorted[m] == r[k]);
                assert(!is_newer(sorted[sorted.len() - 1], sorted[m]));
            }
        }
        assert(sorted[sorted.len() - 1] == e);
        assert(f.push(e) =~= sorted);
        assert(all.to_multiset() =~= sorted.to_multiset().insert(c));
    } else {
        assert forall|k: int| 0 <= k < sorted.len() implies !is_newer(c, #[trigger] sorted[k])
            && sorted.contains(sorted[k]) by {
            if is_newer(c, sorted[k]) {
                newer_splits(c, sorted.last(), sorted[k]);
            }
        }
    }
}

/// Sorting keeps the candidates, each as often as it came, and lists the
/// newest first.
pub proof fn newest_come_first(v: Seq<CandidateView>)
    ensures
        is_listed(newest_first(v)),
        newest_first(v).to_multiset() == v.to_multiset(),
    decreases v.len(),
{
    broadcast use vstd::seq_lib::group_to_multiset_ensures;

    if v.len() > 0 {
        newest_come_first(v.drop_last());
        placed_is_listed(newest_first(v.drop_last()), v.last());
        assert(v.drop_last().push(v.last()) =~= v);
    }
}

// ── text and URLs of documents ────────────────────────────────────────────

/// The text of cells, each ended by a line feed.
pub open spec fn cells_lines(v: Seq<Seq<InlineView>>) -> Seq<char>
    decreases v.len(),
{
    if v.len() == 0 {
        Seq::empty()
    } else {
        cells_lines(v.drop_last()) + inlines_text(v.last()) + "\n"@
    }
}

/// The text of rows.
pub open spec fn rows_lines(v: Seq<Seq<Seq<InlineView>>>) -> Seq<char>
    decreases v.len(),
{
    if v.len() == 0 {
        Seq::empty()
    } else {
        rows_lines(v.drop_last()) + cells_lines(v.last())
    }
}

/// The text of a block with markup stripped, each piece ended by a line feed.
pub open spec fn block_lines(b: BlockView) -> Seq<char>
    decreases b,
{
    match b {
        BlockView::Heading { content, .. } => inlines_text(content) + "\n"@,
        BlockView::Paragraph { content, .. } => inlines_text(content) + "\n"@,
        BlockView::List { items, .. } => items_lines(items),
        BlockView::CodeBlock { content, .. } => content + "\n"@,
        BlockView::BlockQuote { blocks, .. } => all_lines(blocks),
        BlockView::Table { header, rows, .. } => cells_lines(header) + rows_lines(rows),
        _ => Seq::empty(),
    }
}

/// The text of list items.
pub open spec fn items_lines(v: Seq<ListItemView>) -> Seq<char>
    decreases v,
{
    if v.len() == 0 {
        Seq::empty()
    } else {
        items_lines(v.drop_last()) + item_lines(v[v.len() - 1])
    }
}

/// The text of a list item.
pub open spec fn item_lines(item: ListItemView) -> Seq<char>
    decreases item,
{
    inlines_text(item.content) + "\n"@ + all_lines(item.children)
}

/// The text of blocks.
pub open spec fn all_lines(v: Seq<BlockView>) -> Seq<char>
    decreases v,
{
    if v.len() == 0 {
        Seq::empty()
    } else {
        all_lines(v.drop_last()) + block_lines(v[v.len() - 1])
    }
}

fn write_cells(cells: &Vec<Vec<Inline>>) -> (r: String)
    ensures
        r@ == cells_lines(cells_view(cells@)),
{
    let ghost s = cells_view(cells@);
    let mut out = String::new();
    let mut i: usize = 0;
    assert(out@ =~= cells_lines(s.take(0)));
    while i < cells.len()
        invariant
            i <= cells.len(),
            s == cells_view(cells@),
            out@ == cells_lines(s.take(i as int)),
        decreases cells.len() - i,
    {
        assert(s.take(i + 1).drop_last() =~= s.take(i as int));
        assert(s.take(i + 1).last() == inlines_view(cells@[i as int]@));
        let t = inlines_to_string(cells[i].as_slice());
        out.append(t.as_str());
        out.append("\n");
        i += 1;
    }
    assert(s.take(s.len() as int) =~= s);
    out
}

fn write_rows(rows: &Vec<Vec<Vec<Inline>>>) -> (r: String)
    ensures
        r@ == rows_lines(rows_view(rows@)),
{
    let ghost s = rows_view(rows@);
    let mut out = String::new();
    let mut i: usize = 0;
    assert(out@ =~= rows_lines(s.take(0)));
    while i < rows.len()
        invariant
            i <= rows.len(),
            s == rows_view(rows@),
            out@ == rows_lines(s.take(i as int)),
        decreases rows.len() - i,
    {
        assert(s.take(i + 1).drop_last() =~= s.take(i as int));
        assert(s.take(i + 1).last() == cells_view(rows@[i as int]@));
        let t = write_cells(&rows[i]);
        out.append(t.as_str());
        i += 1;
    }
    assert(s.take(s.len() as int) =~= s);
    out
}

/// The text of a block with markup stripped.
pub fn collect_block_text(block: &Block) -> (r: String)
    ensures
        r@ == block_lines(block@),
    decreases block,
{
    match block {
        Block::Heading { content, .. } => {
            let mut out = inlines_to_string(content.as_slice());
            out.append("\n");
            out
        },
        Block::Paragraph { content, .. } => {
            let mut out = inlines_to_string(content.as_slice());
            out.append("\n");
            out
        },
        Block::List { items, .. } => collect_items_text(items),
        Block::CodeBlock { content, .. } => {
            let mut out = content.clone();
            out.append("\n");
            out
        },
        Block::BlockQuote { blocks, .. } => collect_all_text(blocks),
        Block::Table { header, rows, .. } => {
            let mut out = write_cells(header);
            let t = write_rows(rows);
            out.append(t.as_str());
            out
        },
        _ => {
            let out = String::new();
            assert(out@ =~= Seq::empty());
            out
        },
    }
}

fn collect_items_text(items: &Vec<ListItem>) -> (r: String)
    ensures
        r@ == items_lines(items_view(items@)),
    decreases items@,
{
    let ghost s = items_view(items@);
    let mut out = String::new();
    let mut i: usize = 0;
    assert(out@ =~= items_lines(s.take(0)));
    while i < items.len()
        invariant
            i <= items.len(),
            s == items_view(items@),
            out@ == items_lines(s.take(i as int)),
        decreases items.len() - i,
    {
        let ghost was = out@;
        assert(s.take(i + 1).drop_last() =~= s.take(i as int));
        assert(s.take(i + 1)[i as int] == items@[i as int]@);
        assert(decreases_to!(items@ => items@[i as int]));
        let t = inlines_to_string(items[i].content.as_slice());
        out.append(t.as_str());
        out.append("\n");
        let more = collect_all_text(&items[i].children);
        out.append(more.as_str());
        assert(out@ =~= was + item_lines(items@[i as int]@));
        i += 1;
    }
    assert(s.take(s.len() as int) =~= s);
    out
}

/// The text of blocks with markup stripped.
pub fn collect_all_text(blocks: &Vec<Block>) -> (r: String)
    ensures
        r@ == all_lines(blocks_view(blocks@)),
    decreases blocks@,
{
    let ghost s = blocks_view(blocks@);
    let mut out = String::new();
    let mut i: usize = 0;
    assert(out@ =~= all_lines(s.take(0)));
    while i < blocks.len()
        invariant
            i <= blocks.len(),
            s == blocks_view(blocks@),
            out@ == all_lines(s.take(i as int)),
        decreases blocks.len() - i,
    {
        let ghost was = out@;
        assert(s.take(i + 1).drop_last() =~= s.take(i as int));
        assert(s.take(i + 1)[i as int] == blocks@[i as int]@);
        let t = collect_block_text(&blocks[i]);
        out.append(t.as_str());
        assert(out@ == was + block_lines(blocks@[i as int]@));
        i += 1;
    }
    assert(s.take(s.len() as int) =~= s);
    out
}

/// The URLs of an inline: those of links and of images.
pub open spec fn inline_urls(i: InlineView) -> Seq<Seq<char>>
    decreases i,
{
    match i {
        InlineView::Link { url, .. } => seq![url],
        InlineView::TitledLink { url, .. } => seq![url],
        InlineView::StyledLink { url, .. } => seq![url],
        InlineView::Autolink(url) => seq![url],
        InlineView::Image { url, .. } => seq![url],
        InlineView::TitledImage { url, .. } => seq![url],
        InlineView::StyledImage { url, .. } => seq![url],
        InlineView::Strong(v) => inlines_urls(v),
        InlineView::Emphasis(v) => inlines_urls(v),
        InlineView::Strikethrough(v) => inlines_urls(v),
        _ => Seq::empty(),
    }
}

/// The URLs of inlines.
pub open spec fn inlines_urls(v: Seq<InlineView>) -> Seq<Seq<char>>
    decreases v,
{
    if v.len() == 0 {
        Seq::empty()
    } else {
        inlines_urls(v.drop_last()) + inline_urls(v[v.len() - 1])
    }
}

/// The URLs of cells.
pub open spec fn cells_urls(v: Seq<Seq<InlineView>>) -> Seq<Seq<char>>
    decreases v.len(),
{
    if v.len() == 0 {
        Seq::empty()
    } else {
        cells_urls(v.drop_last()) + inlines_urls(v.last())
    }
}

/// The URLs of rows.
pub open spec fn rows_urls(v: Seq<Seq<Seq<InlineView>>>) -> Seq<Seq<char>>
    decreases v.len(),
{
    if v.len() == 0 {
        Seq::empty()
    } else {
        rows_urls(v.drop_last()) + cells_urls(v.last())
    }
}

/// The URLs of a block: those of links and of images.
pub open spec fn block_urls(b: BlockView) -> Seq<Seq<char>>
    decreases b,
{
    match b {
        BlockView::Heading { content, .. } => inlines_urls(content),
        BlockView::Paragraph { content, .. } => inlines_urls(content),
        BlockView::List { items, .. } => items_urls(items),
        BlockView::BlockQuote { blocks, .. } => blocks_urls(blocks),
        BlockView::Table { header, rows, .. } => cells_urls(header) + rows_urls(rows),
        _ => Seq::empty(),
    }
}

/// The URLs of list items.
pub open spec fn items_urls(v: Seq<ListItemView>) -> Seq<Seq<char>>
    decreases v,
{
    if v.len() == 0 {
        Seq::empty()
    } else {
        items_urls(v.drop_last()) + item_urls(v[v.len() - 1])
    }
}

/// The URLs of a list item.
pub open spec fn item_urls(item: ListItemView) -> Seq<Seq<char>>
    decreases item,
{
    inlines_urls(item.content) + blocks_urls(item.children)
}

/// The URLs of blocks.
pub open spec fn blocks_urls(v: Seq<BlockView>) -> Seq<Seq<char>>
    decreases v,
{
    if v.len() == 0 {
        Seq::empty()
    } else {
        blocks_urls(v.drop_last()) + block_urls(v[v.len() - 1])
    }
}

fn no_urls() -> (r: Vec<String>)
    ensures
        texts(r@) == Seq::<Seq<char>>::empty(),
{
    let out: Vec<String> = Vec::new();
    assert(texts(out@) =~= Seq::empty());
    out
}

fn add_urls(out: &mut Vec<String>, more: Vec<String>)
    ensures
        texts(final(out)@) == texts(old(out)@) + texts(more@),
{
    let ghost a = out@;
    let ghost b = more@;
    let mut more = more;
    out.append(&mut more);
    assert(out@ =~= a + b);
    assert(texts(a + b) =~= texts(a) + texts(b));
}

fn collect_inline_urls(inlines: &Vec<Inline>) -> (r: Vec<String>)
    ensures
        texts(r@) == inlines_urls(inlines_view(inlines@)),
    decreases inlines@,
{
    let ghost s = inlines_view(inlines@);
    let mut out = no_urls();
    let mut i: usize = 0;
    assert(texts(out@) =~= inlines_urls(s.take(0)));
    while i < inlines.len()
        invariant
            i <= inlines.len(),
            s == inlines_view(inlines@),
            texts(out@) == inlines_urls(s.take(i as int)),
        decreases inlines.len() - i,
    {
        let ghost was = texts(out@);
        assert(s.take(i + 1).drop_last() =~= s.take(i as int));
        assert(s.take(i + 1)[i as int] == inlines@[i as int]@);
        match &inlines[i] {
            Inline::Link { url, .. } => {
                out.push(url.clone());
                assert(texts(out@) =~= was + seq![url@]);
            },
            Inline::TitledLink { url, .. } => {
                out.push(url.clone());
                assert(texts(out@) =~= was + seq![url@]);
            },
            Inline::StyledLink { url, .. } => {
                out.push(url.clone());
                assert(texts(out@) =~= was + seq![url@]);
            },
            Inline::Autolink(url) => {
                out.push(url.clone());
                assert(texts(out@) =~= was + seq![url@]);
            },
            Inline::Image { url, .. } => {
                out.push(url.clone());
                assert(texts(out@) =~= was + seq![url@]);
            },
            Inline::TitledImage { url, .. } => {
                out.push(url.clone());
                assert(texts(out@) =~= was + seq![url@]);
            },
            Inline::StyledImage { url, .. } => {
                out.push(url.clone());
                assert(texts(out@) =~= was + seq![url@]);
            },
            Inline::Strong(inner) => {
                let more = collect_inline_urls(inner);
                add_urls(&mut out, more);
            },
            Inline::Emphasis(inner) => {
                let more = collect_inline_urls(inner);
                add_urls(&mut out, more);
            },
            Inline::Strikethrough(inner) => {
                let more = collect_inline_urls(inner);
                add_urls(&mut out, more);
            },
            _ => {
                assert(was + Seq::<Seq<char>>::empty() =~= was);
            },
        }
        assert(texts(out@) == was + inline_urls(inlines@[i as int]@));
        i += 1;
    }
    assert(s.take(s.len() as int) =~= s);
    out
}

fn collect_cell_urls(cells: &Vec<Vec<Inline>>) -> (r: Vec<String>)
    ensures
        texts(r@) == cells_urls(cells_view(cells@)),
{
    let ghost s = cells_view(cells@);
    let mut out = no_urls();
    let mut i: usize = 0;
    assert(texts(out@) =~= cells_urls(s.take(0)));
    while i < cells.len()
        invariant
            i <= cells.len(),
            s == cells_view(cells@),
            texts(out@) == cells_urls(s.take(i as int)),
        decreases cells.len() - i,
    {
        assert(s.take(i + 1).drop_last() =~= s.take(i as int));
        assert(s.take(i + 1).last() == inlines_view(cells@[i as int]@));
        let more = collect_inline_urls(&cells[i]);
        add_urls(&mut out, more);
        i += 1;
    }
    assert(s.take(s.len() as int) =~= s);
    out
}

fn collect_row_urls(rows: &Vec<Vec<Vec<Inline>>>) -> (r: Vec<String>)
    ensures
        texts(r@) == rows_urls(rows_view(rows@)),
{
    let ghost s = rows_view(rows@);
    let mut out = no_urls();
    let mut i: usize = 0;
    assert(texts(out@) =~= rows_urls(s.take(0)));
    while i < rows.len()
        invariant
            i <= rows.len(),
            s == rows_view(rows@),
            texts(out@) == rows_urls(s.take(i as int)),
        decreases rows.len() - i,
    {
        assert(s.take(i + 1).drop_last() =~= s.take(i as int));
        assert(s.take(i + 1).last() == cells_view(rows@[i as int]@));
        let more = collect_cell_urls(&rows[i]);
        add_urls(&mut out, more);
        i += 1;
    }
    assert(s.take(s.len() as int) =~= s);
    out
}

/// The URLs of a block: those of links and of images.
pub fn collect_link_urls(block: &Block) -> (r: Vec<String>)
    ensures
        texts(r@) == block_urls(block@),
    decreases block,
{
    match block {
        Block::Heading { content, .. } => collect_inline_urls(content),
        Block::Paragraph { content, .. } => collect_inline_urls(content),
        Block::List { items, .. } => collect_item_urls(items),
        Block::BlockQuote { blocks, .. } => collect_all_urls(blocks),
        Block::Table { header, rows, .. } => {
            let mut out = collect_cell_urls(header);
            let more = collect_row_urls(rows);
            add_urls(&mut out, more);
            out
        },
        _ => no_urls(),
    }
}

fn collect_item_urls(items: &Vec<ListItem>) -> (r: Vec<String>)
    ensures
        texts(r@) == items_urls(items_view(items@)),
    decreases items@,
{
    let ghost s = items_view(items@);
    let mut out = no_urls();
    let mut i: usize = 0;
    assert(texts(out@) =~= items_urls(s.take(0)));
    while i < items.len()
        invariant
            i <= items.len(),
            s == items_view(items@),
            texts(out@) == items_urls(s.take(i as int)),
        decreases items.len() - i,
    {
        let ghost was = texts(out@);
        assert(s.take(i + 1).drop_last() =~= s.take(i as int));
        assert(s.take(i + 1)[i as int] == items@[i as int]@);
        assert(decreases_to!(items@ => items@[i as int]));
        let more = collect_inline_urls(&items[i].content);
        add_urls(&mut out, more);
        let more = collect_all_urls(&items[i].children);
        add_urls(&mut out, more);
        assert(texts(out@) =~= was + item_urls(items@[i as int]@));
        i += 1;
    }
    assert(s.take(s.len() as int) =~= s);
    out
}

fn collect_all_urls(blocks: &Vec<Block>) -> (r: Vec<String>)
    ensures
        texts(r@) == blocks_urls(blocks_view(blocks@)),
    decreases blocks@,
{
    let ghost s = blocks_view(blocks@);
    let mut out = no_urls();
    let mut i: usize = 0;
    assert(texts(out@) =~= blocks_urls(s.take(0)));
    while i < blocks.len()
        invariant
            i <= blocks.len(),
            s == blocks_view(blocks@),
            texts(out@) == blocks_urls(s.take(i as int)),
        decreases blocks.len() - i,
    {
        let ghost was = texts(out@);
        assert(s.take(i + 1).drop_last() =~= s.take(i as int));
        assert(s.take(i + 1)[i as int] == blocks@[i as int]@);
        let more = collect_link_urls(&blocks[i]);
        add_urls(&mut out, more);
        assert(texts(out@) == was + block_urls(blocks@[i as int]@));
        i += 1;
    }
    assert(s.take(s.len() as int) =~= s);
    out
}

// ── filters on content ────────────────────────────────────────────────────

/// Whether a front matter value equals the text of a `--property` flag. A
/// sequence does where one of its items does.
pub open spec fn value_equals(v: YamlView, raw: Seq<char>) -> bool
    decreases v,
{
    match v {
        YamlView::Text(s) => s == raw,
        YamlView::Boolean(b) => if raw == "true"@ || raw == "yes"@ {
            b
        } else if raw == "false"@ || raw == "no"@ {
            !b
        } else {
            false
        },
        YamlView::Numeric(n) => number_text(n) == raw,
        YamlView::Sequence(items) => some_equals(items, raw),
        YamlView::Null => raw.len() == 0 || raw == "null"@ || raw == "~"@,
        _ => false,
    }
}

/// Whether one of the values equals the text.
pub open spec fn some_equals(items: Seq<YamlView>, raw: Seq<char>) -> bool
    decreases items,
{
    items.len() > 0 && (value_equals(items[items.len() - 1], raw) || some_equals(
        items.drop_last(),
        raw,
    ))
}

proof fn some_equals_early(items: Seq<YamlView>, raw: Seq<char>, n: int)
    requires
        0 <= n <= items.len(),
        some_equals(items.take(n), raw),
    ensures
        some_equals(items, raw),
    decreases items.len() - n,
{
    if n < items.len() {
        assert(items.take(n + 1).drop_last() =~= items.take(n));
        assert(some_equals(items.take(n + 1), raw));
        some_equals_early(items, raw, n + 1);
    } else {
        assert(items.take(n) =~= items);
    }
}

/// Whether a front matter value equals the text of a `--property` flag.
pub fn yaml_value_eq(v: &Yaml, raw: &str) -> (r: bool)
    ensures
        r == value_equals(v@, raw@),
    decreases v,
{
    match v {
        Yaml::Text(s) => s.as_str().eq(raw),
        Yaml::Boolean(b) => {
            if raw.eq("true") || raw.eq("yes") {
                *b
            } else if raw.eq("false") || raw.eq("no") {
                !*b
            } else {
                false
            }
        },
        Yaml::Numeric(n) => {
            let t = numeric_text(n);
            t.as_str().eq(raw)
        },
        Yaml::Sequence(items) => any_value_eq(items, raw),
        Yaml::Null => raw.is_empty() || raw.eq("null") || raw.eq("~"),
        _ => false,
    }
}

fn any_value_eq(items: &Vec<Yaml>, raw: &str) -> (r: bool)
    ensures
        r == some_equals(values_view(items@), raw@),
    decreases items@,
{
    let ghost s = values_view(items@);
    let mut i: usize = 0;
    assert(s.take(0) =~= Seq::empty());
    while i < items.len()
        invariant
            i <= items.len(),
            s == values_view(items@),
            !some_equals(s.take(i as int), raw@),
        decreases items.len() - i,
    {
        assert(s.take(i + 1).drop_last() =~= s.take(i as int));
        assert(s.take(i + 1)[i as int] == items@[i as int]@);
        if yaml_value_eq(&items[i], raw) {
            proof {
                assert(some_equals(s.take(i + 1), raw@));
                some_equals_early(s, raw@, i + 1);
            }
            return true;
        }
        i += 1;
    }
    assert(s.take(s.len() as int) =~= s);
    false
}

/// Whether a document's front matter has the property.
pub open spec fn has_property(doc: DocumentView, key: Seq<char>, raw: Seq<char>) -> bool {
    match doc.frontmatter {
        Some(fm) => match lookup(fm.fields, key) {
            Some(v) => value_equals(v, raw),
            None => false,
        },
        None => false,
    }
}

/// Whether a document's front matter has all the properties.
pub open spec fn has_properties(doc: DocumentView, flags: Seq<(Seq<char>, Seq<char>)>) -> bool {
    forall|i: int|
        0 <= i < flags.len() ==> has_property(doc, (#[trigger] flags[i]).0, flags[i].1)
}

fn check_property(doc: &Document, key: &str, raw: &str) -> (r: bool)
    ensures
        r == has_property(doc@, key@, raw@),
{
    match &doc.frontmatter {
        Some(fm) => {
            proof {
                crate::ast::lookup_fields(fm.fields@, key@);
            }
            match fm.fields.get(key) {
                Some(v) => yaml_value_eq(v, raw),
                None => false,
            }
        },
        None => false,
    }
}

fn check_properties(doc: &Document, flags: &Vec<(String, String)>) -> (r: bool)
    ensures
        r == has_properties(doc@, flags_view(flags@)),
{
    let ghost all = flags_view(flags@);
    let mut i: usize = 0;
    while i < flags.len()
        invariant
            i <= flags.len(),
            all == flags_view(flags@),
            forall|k: int| 0 <= k < i ==> has_property(doc@, (#[trigger] all[k]).0, all[k].1),
        decreases flags.len() - i,
    {
        assert(all[i as int] == (flags@[i as int].0@, flags@[i as int].1@));
        if !check_property(doc, flags[i].0.as_str(), flags[i].1.as_str()) {
            return false;
        }
        i += 1;
    }
    true
}

/// Whether one of the URLs holds the text.
pub open spec fn some_holds(urls: Seq<Seq<char>>, part: Seq<char>) -> bool {
    exists|i: int| 0 <= i < urls.len() && has_part(#[trigger] urls[i], part)
}

fn any_holds(urls: &Vec<String>, part: &str) -> (r: bool)
    ensures
        r == some_holds(texts(urls@), part@),
{
    let ghost all = texts(urls@);
    let mut i: usize = 0;
    while i < urls.len()
        invariant
            i <= urls.len(),
            all == texts(urls@),
            forall|k: int| 0 <= k < i ==> !has_part(#[trigger] all[k], part@),
        decreases urls.len() - i,
    {
        assert(all[i as int] == urls@[i as int]@);
        if contains(urls[i].as_str(), part) {
            return true;
        }
        i += 1;
    }
    false
}

/// Whether a document matches the filters on its content: its type; its day
/// in front matter, where its name has none; its properties; its text, in
/// any case of letters; and its URLs.
pub open spec fn content_matches(
    opts: QueryOptions,
    doc: DocumentView,
    resolved: Option<Seq<char>>,
    file_date: Option<int>,
    today: int,
) -> bool {
    &&& (opts.doc_type matches Some(t) ==> resolved == Some(t@))
    &&& (opts.days matches Some(n) && file_date is None ==> (document_day(doc) matches Some(d)
        && d >= today - opts.days->Some_0))
    &&& has_properties(doc, flags_view(opts.properties@))
    &&& (opts.grep matches Some(g) ==> has_part(lowercase(all_lines(doc.blocks)), lowercase(g@)))
    &&& (opts.has_link matches Some(l) ==> some_holds(blocks_urls(doc.blocks), l@))
}

/// Whether a document matches the filters on its content.
pub fn apply_content_filters(
    opts: &QueryOptions,
    doc: &Document,
    resolved_type: Option<&str>,
    file_date: Option<i32>,
    today: i32,
) -> (r: bool)
    ensures
        r == content_matches(
            *opts,
            doc@,
            option_str(resolved_type),
            option_day(file_date),
            today as int,
        ),
{
    if let Some(wanted) = &opts.doc_type {
        let same = match resolved_type {
            Some(t) => t.eq(wanted.as_str()),
            None => false,
        };
        if !same {
            return false;
        }
    }
    if let Some(n) = opts.days {
        if file_date.is_none() {
            let recent = match frontmatter_date(doc) {
                Some(d) => is_recent(d, today, n),
                None => false,
            };
            if !recent {
                return false;
            }
        }
    }
    if !check_properties(doc, &opts.properties) {
        return false;
    }
    if let Some(pat) = &opts.grep {
        let needle = lower(pat.as_str());
        let text = collect_all_text(&doc.blocks);
        let haystack = lower(text.as_str());
        if !contains(haystack.as_str(), needle.as_str()) {
            return false;
        }
    }
    if let Some(pat) = &opts.has_link {
        let urls = collect_all_urls(&doc.blocks);
        if !any_holds(&urls, pat.as_str()) {
            return false;
        }
    }
    true
}

/// Whether a candidate must be read before it is known to match.
pub open spec fn needs_reading(opts: QueryOptions, c: CandidateView) -> bool {
    ||| opts.grep is Some
    ||| opts.has_link is Some
    ||| opts.properties@.len() > 0
    ||| opts.days is Some && c.file_date is None
    ||| opts.doc_type is Some
}

/// Whether a candidate must be read before it is known to match.
pub fn needs_content(opts: &QueryOptions, c: &Candidate) -> (r: bool)
    ensures
        r == needs_reading(*opts, c@),
{
    opts.grep.is_some() || opts.has_link.is_some() || opts.properties.len() > 0
        || opts.days.is_some() && c.file_date.is_none() || opts.doc_type.is_some()
}

/// A candidate that need not be read matches whatever it holds, and whatever
/// type that gives it.
pub proof fn unread_candidates_match(
    opts: QueryOptions,
    c: CandidateView,
    doc: DocumentView,
    resolved: Option<Seq<char>>,
    today: int,
)
    requires
        may_match(opts, c, today),
        !needs_reading(opts, c),
    ensures
        content_matches(opts, doc, resolved, c.file_date, today),
{
}

// ── output ────────────────────────────────────────────────────────────────

/// The name of the type that was settled for a document.
pub open spec fn settled_type(r: ResolvedView) -> Option<Seq<char>> {
    match r {
        ResolvedView::Explicit(n) => Some(n),
        ResolvedView::PathMatched(n) => Some(n),
        _ => None,
    }
}

/// The type of a document by the schema that covers it.
pub open spec fn covered_type(
    path: PathView,
    doc: DocumentView,
    root: PathView,
    schemas: Seq<SchemaDir>,
) -> Option<Seq<char>> {
    match covering_schema(dirs_view(schemas), path, Some(root)) {
        Some(i) => settled_type(
            type_resolution(
                named_type(doc),
                path_claims(path, schemas[i].dir@, option_matcher(schemas[i].matcher)),
                schemas[i].schema.types@,
            ),
        ),
        None => None,
    }
}

/// The type of a document by the schema that covers it.
pub fn document_type(path: &FilePath, doc: &Document, root: &FilePath, schemas: &Vec<SchemaDir>) -> (r:
    Option<String>)
    ensures
        option_text(r) == covered_type(path@, doc@, root@, schemas@),
{
    match find_schema_for(path, root, schemas) {
        Some(d) => match resolve_type(path, doc, d) {
            ResolvedType::Explicit(n) => Some(n),
            ResolvedType::PathMatched(n) => Some(n),
            _ => None,
        },
        None => None,
    }
}

/// The definition of a type by the schema that covers a file.
pub open spec fn covered_def(
    path: PathView,
    name: Option<Seq<char>>,
    root: PathView,
    schemas: Seq<SchemaDir>,
) -> Option<TypeDef> {
    match (covering_schema(dirs_view(schemas), path, Some(root)), name) {
        (Some(i), Some(n)) => lookup(schemas[i].schema.types@, n),
        _ => None,
    }
}

/// The definition of a type by the schema that covers a file.
pub fn find_type_def<'a>(
    path: &FilePath,
    name: Option<&str>,
    root: &FilePath,
    schemas: &'a Vec<SchemaDir>,
) -> (r: Option<&'a TypeDef>)
    ensures
        option_type(r) == covered_def(path@, option_str(name), root@, schemas@),
{
    match find_schema_for(path, root, schemas) {
        Some(d) => match name {
            Some(n) => d.schema.get_type(n),
            None => None,
        },
        None => None,
    }
}

/// A document in JSON, with the type and definition of the schema that
/// covers it.
pub open spec fn covered_json(
    path: PathView,
    doc: DocumentView,
    root: PathView,
    schemas: Seq<SchemaDir>,
) -> JsonDocumentView {
    let name = covered_type(path, doc, root, schemas);
    document_json(doc, path, name, covered_def(path, name, root, schemas), root)
}

/// The JSON form of a document, with the type and definition of the schema
/// that covers it.
pub fn build_file_doc(path: &FilePath, doc: &Document, root: &FilePath, schemas: &Vec<SchemaDir>) -> (r:
    JsonDocument)
    ensures
        r@ == covered_json(path@, doc@, root@, schemas@),
{
    let name = document_type(path, doc, root, schemas);
    match name {
        Some(n) => {
            let td = find_type_def(path, Some(n.as_str()), root, schemas);
            document_to_json(doc, path, Some(n.as_str()), td, root)
        },
        None => document_to_json(doc, path, None, None, root),
    }
}

/// What a match shows.
#[derive(Debug)]
pub enum QueryOutput {
    Nothing,
    Text(String),
    Document(JsonDocument),
}

/// What a [`QueryOutput`] holds.
pub enum QueryOutputView {
    Nothing,
    Text(Seq<char>),
    Document(JsonDocumentView),
}

impl View for QueryOutput {
    type V = QueryOutputView;

    open spec fn view(&self) -> QueryOutputView {
        match *self {
            QueryOutput::Nothing => QueryOutputView::Nothing,
            QueryOutput::Text(s) => QueryOutputView::Text(s@),
            QueryOutput::Document(d) => QueryOutputView::Document(d@),
        }
    }
}

/// A match in markdown: its path as a heading and its body, behind a blank
/// line where it is not the first.
pub open spec fn match_text(rel: PathView, blocks: Seq<BlockView>, first: bool) -> Seq<char> {
    let body = trimmed_char(top_text(blocks, false), '\n');
    (if first {
        Seq::empty()
    } else {
        "\n"@
    }) + "## "@ + path_text(rel) + "\n\n"@ + (if body.len() == 0 {
        Seq::empty()
    } else {
        body + "\n"@
    })
}

fn write_match(rel: &FilePath, doc: &Document, first: bool) -> (r: String)
    ensures
        r@ == match_text(rel@, doc@.blocks, first),
{
    let mut out = String::new();
    if !first {
        out.append("\n");
    }
    let path = rel.to_text();
    out.append("## ");
    out.append(path.as_str());
    out.append("\n\n");
    let body = serialize_top(&doc.blocks, false);
    let t = trim_char(body.as_str(), '\n');
    if !t.as_str().is_empty() {
        out.append(t.as_str());
        out.append("\n");
    }
    assert(out@ =~= match_text(rel@, doc@.blocks, first));
    out
}

/// How far a query has come.
#[derive(Debug)]
pub struct QueryRun {
    /// The number of matches.
    pub emitted: usize,
    /// Whether nothing was shown in markdown yet.
    pub first: bool,
}

/// The number of matches that a query stops at.
pub open spec fn match_limit(opts: QueryOptions) -> int {
    match opts.last {
        Some(n) => n as int,
        None => usize::MAX as int,
    }
}

impl QueryRun {
    /// A query without matches yet.
    pub fn new() -> (r: QueryRun)
        ensures
            r.emitted == 0,
            r.first,
    {
        QueryRun { emitted: 0, first: true }
    }

    /// Whether the query has all the matches that it asks for.
    pub fn is_done(&self, opts: &QueryOptions) -> (r: bool)
        ensures
            r == (self.emitted >= match_limit(*opts)),
    {
        match opts.last {
            Some(n) => self.emitted >= n,
            None => self.emitted >= usize::MAX,
        }
    }

    /// Whether showing a match takes its content.
    pub fn shows_content(&self, opts: &QueryOptions) -> (r: bool)
        ensures
            r == (!opts.count && !opts.path_only),
    {
        !opts.count && !opts.path_only
    }

    /// Count a match whose content is not shown; gives what is.
    pub fn emit_path(&mut self, opts: &QueryOptions, c: &Candidate) -> (r: QueryOutput)
        requires
            old(self).emitted < match_limit(*opts),
        ensures
            final(self).emitted == old(self).emitted + 1,
            final(self).first == old(self).first,
            r@ == (if !opts.count && opts.path_only {
                QueryOutputView::Text(path_text(c@.rel_path) + "\n"@)
            } else {
                QueryOutputView::Nothing
            }),
    {
        self.emitted = self.emitted + 1;
        if !opts.count && opts.path_only {
            let mut out = c.rel_path.to_text();
            out.append("\n");
            QueryOutput::Text(out)
        } else {
            QueryOutput::Nothing
        }
    }

    /// Count a match and give what is shown of it: the document in JSON, or
    /// in markdown.
    pub fn emit(
        &mut self,
        opts: &QueryOptions,
        c: &Candidate,
        doc: &Document,
        root: &FilePath,
        schemas: &Vec<SchemaDir>,
    ) -> (r: QueryOutput)
        requires
            old(self).emitted < match_limit(*opts),
        ensures
            final(self).emitted == old(self).emitted + 1,
            final(self).first == (old(self).first && (opts.count || opts.path_only || opts.json)),
            r@ == (if opts.count {
                QueryOutputView::Nothing
            } else if opts.path_only {
                QueryOutputView::Text(path_text(c@.rel_path) + "\n"@)
            } else if opts.json {
                QueryOutputView::Document(covered_json(c@.abs_path, doc@, root@, schemas@))
            } else {
                QueryOutputView::Text(match_text(c@.rel_path, doc@.blocks, old(self).first))
            }),
    {
        if opts.count || opts.path_only {
            return self.emit_path(opts, c);
        }
        self.emitted = self.emitted + 1;
        if opts.json {
            QueryOutput::Document(build_file_doc(&c.abs_path, doc, root, schemas))
        } else {
            let text = write_match(&c.rel_path, doc, self.first);
            self.first = false;
            QueryOutput::Text(text)
        }
    }

    /// What stands behind all matches: their number, where it is asked for.
    pub fn summary(&self, opts: &QueryOptions) -> (r: Option<String>)
        ensures
            match r {
                Some(t) => opts.count && t@ == crate::text::decimal(self.emitted as nat) + "\n"@,
                None => !opts.count,
            },
    {
        if opts.count {
            let mut out = crate::text::number(self.emitted as u64);
            out.append("\n");
            Some(out)
        } else {
            None
        }
    }
}

// ── what a query lists ────────────────────────────────────────────────────

/// Whether two texts have the same first `k` characters.
pub open spec fn same_start(a: Seq<char>, b: Seq<char>, k: int) -> bool {
    0 <= k <= a.len() && k <= b.len() && forall|j: int| 0 <= j < k ==> a[j] == b[j]
}

/// Text comes before text by the first character in which they differ, or by
/// being the start of the other.
pub proof fn text_order_is_lexical(a: Seq<char>, b: Seq<char>)
    ensures
        text_before(a, b, 0) <==> exists|k: int| #[trigger]
            same_start(a, b, k) && k < b.len() && (k == a.len() || (a[k] as int) < (b[k] as int)),
{
    text_order_from(a, b, 0);
}

proof fn text_order_from(a: Seq<char>, b: Seq<char>, i: int)
    requires
        same_start(a, b, i),
    ensures
        text_before(a, b, i) <==> exists|k: int| #[trigger]
            same_start(a, b, k) && k < b.len() && (k == a.len() || (a[k] as int) < (b[k] as int)),
    decreases a.len() - i,
{
    if i < a.len() && i < b.len() && a[i] == b[i] {
        assert(same_start(a, b, i + 1));
        text_order_from(a, b, i + 1);
    } else if exists|k: int| #[trigger]
        same_start(a, b, k) && k < b.len() && (k == a.len() || (a[k] as int) < (b[k] as int)) {
        let k = choose|k: int| #[trigger]
            same_start(a, b, k) && k < b.len() && (k == a.len() || (a[k] as int) < (b[k] as int));
        if k < i {
            assert(a[k] == b[k]);
        }
        if k > i {
            assert(a[i] == b[i]);
        }
    }
}

/// A listing goes back in time: dated files come before undated ones, and a
/// later day before an earlier one; files of one day, or of none, come by
/// descending name. Nothing is lost and nothing is added.
pub proof fn listing_goes_back_in_time(v: Seq<CandidateView>, i: int, j: int)
    requires
        0 <= i < j < newest_first(v).len(),
    ensures
        newest_first(v).to_multiset() == v.to_multiset(),
        ({
            let a = newest_first(v)[i];
            let b = newest_first(v)[j];
            &&& b.file_date is Some ==> a.file_date is Some && a.file_date->0 >= b.file_date->0
            &&& a.file_date == b.file_date ==> !text_before(a.basename, b.basename, 0)
        }),
{
    newest_come_first(v);
    assert(!is_newer(newest_first(v)[j], newest_first(v)[i]));
}

/// A query reads exactly the candidates whose name matches its pattern and
/// whose day, where the name has one, is recent enough; in the order in which
/// they came.
pub proof fn only_names_in_question_stay(opts: QueryOptions, v: Seq<CandidateView>, today: int)
    ensures
        those_that_may(opts, v, today) == v.filter(
            |c: CandidateView|
                !(opts.filename_glob is Some && !name_matches(
                    opts.filename_glob->0@,
                    c.basename,
                )) && !(opts.days is Some && c.file_date is Some && today - c.file_date->0
                    > opts.days->0),
        ),
    decreases v.len(),
{
    reveal(Seq::filter);
    if v.len() > 0 {
        only_names_in_question_stay(opts, v.drop_last(), today);
    }
}

/// What a query takes of a value: the text itself, a truth by its names, a
/// number as it is written, nothing by its names, and of a sequence any of
/// its values.
pub proof fn values_answer_as_they_read(v: YamlView, raw: Seq<char>)
    ensures
        v matches YamlView::Text(s) ==> (value_equals(v, raw) <==> raw == s),
        v matches YamlView::Numeric(n) ==> (value_equals(v, raw) <==> raw == number_text(n)),
        v == YamlView::Boolean(true) ==> (value_equals(v, raw) <==> raw == "true"@ || raw
            == "yes"@),
        v == YamlView::Boolean(false) ==> (value_equals(v, raw) <==> raw == "false"@ || raw
            == "no"@),
        v is Null ==> (value_equals(v, raw) <==> raw.len() == 0 || raw == "null"@ || raw == "~"@),
        v matches YamlView::Sequence(items) ==> (value_equals(v, raw) <==> exists|k: int|
            0 <= k < items.len() && value_equals(#[trigger] items[k], raw)),
        v is Mapping || v is Tagged ==> !value_equals(v, raw),
{
    reveal_strlit("true");
    reveal_strlit("yes");
    reveal_strlit("false");
    reveal_strlit("no");
    assert("true"@[0] != "false"@[0] && "true"@[0] != "no"@[0]);
    assert("yes"@[0] != "false"@[0] && "yes"@[0] != "no"@[0]);
    if let YamlView::Sequence(items) = v {
        some_equals_is_any(items, raw);
    }
}

proof fn some_equals_is_any(items: Seq<YamlView>, raw: Seq<char>)
    ensures
        some_equals(items, raw) <==> exists|k: int|
            0 <= k < items.len() && value_equals(#[trigger] items[k], raw),
    decreases items.len(),
{
    if items.len() > 0 {
        let f = items.drop_last();
        let n = items.len() - 1;
        some_equals_is_any(f, raw);
        if exists|k: int| 0 <= k < f.len() && value_equals(#[trigger] f[k], raw) {
            let k = choose|k: int| 0 <= k < f.len() && value_equals(#[trigger] f[k], raw);
            assert(value_equals(items[k], raw));
        }
        if exists|k: int| 0 <= k < items.len() && value_equals(#[trigger] items[k], raw) {
            let k = choose|k: int| 0 <= k < items.len() && value_equals(#[trigger] items[k], raw);
            if k < n {
                assert(value_equals(f[k], raw));
            }
        }
    }
}

/// Whether front matter has a field with the key whose value equals the text.
pub open spec fn some_field_equals(doc: DocumentView, key: Seq<char>, raw: Seq<char>) -> bool {
    doc.frontmatter matches Some(fm) && exists|i: int|
        0 <= i < fm.fields.len() && (#[trigger] fm.fields[i]).0 == key && value_equals(
            fm.fields[i].1,
            raw,
        )
}

proof fn property_is_some_field(doc: DocumentView, key: Seq<char>, raw: Seq<char>)
    requires
        doc.frontmatter matches Some(fm) ==> distinct_keys(fm.fields),
    ensures
        has_property(doc, key, raw) == some_field_equals(doc, key, raw),
{
    if let Some(fm) = doc.frontmatter {
        lookup_finds(fm.fields, key);
        if some_field_equals(doc, key, raw) {
            let i = choose|i: int|
                0 <= i < fm.fields.len() && (#[trigger] fm.fields[i]).0 == key && value_equals(
                    fm.fields[i].1,
                    raw,
                );
            lookup_at(fm.fields, i);
        }
    }
}

/// A document is listed exactly where it meets every filter that is given:
/// its type is the wanted one; it has a recent day in front matter, where its
/// name has none; each property is a field of its front matter with an equal
/// value; its text holds the searched one, whatever the case; and a link or an
/// image in it, at any depth, has a destination that holds the wanted text.
pub proof fn a_match_meets_every_filter(
    opts: QueryOptions,
    doc: DocumentView,
    resolved: Option<Seq<char>>,
    file_date: Option<int>,
    today: int,
)
    requires
        doc.frontmatter matches Some(fm) ==> distinct_keys(fm.fields),
    ensures
        content_matches(opts, doc, resolved, file_date, today) <==> {
            &&& opts.doc_type is Some ==> resolved == Some(opts.doc_type->0@)
            &&& opts.days is Some && file_date is None ==> document_day(doc) is Some && today
                - document_day(doc)->0 <= opts.days->0
            &&& forall|k: int|
                0 <= k < opts.properties@.len() ==> some_field_equals(
                    doc,
                    (#[trigger] opts.properties@[k]).0@,
                    opts.properties@[k].1@,
                )
            &&& opts.grep is Some ==> has_part(
                lowercase(ended(passages(doc.blocks))),
                lowercase(opts.grep->0@),
            )
            &&& opts.has_link is Some ==> exists|x: InlineView|
                #[trigger] stands_in(x, doc.blocks) && (url_of(x) matches Some(u) && has_part(
                    u,
                    opts.has_link->0@,
                ))
        },
{
    the_searched_text_is_all_text(doc.blocks);
    if opts.has_link is Some {
        linking_is_holding_a_link(doc.blocks, opts.has_link->0@);
    }
    let flags = flags_view(opts.properties@);
    let props = opts.properties@;
    assert forall|k: int| 0 <= k < props.len() implies flags[k] == ((#[trigger] props[k]).0@, props[k].1@)
        && has_property(doc, flags[k].0, flags[k].1) == some_field_equals(
        doc,
        props[k].0@,
        props[k].1@,
    ) by {
        property_is_some_field(doc, props[k].0@, props[k].1@);
    }
    if has_properties(doc, flags) {
        assert forall|k: int| 0 <= k < props.len() implies some_field_equals(
            doc,
            (#[trigger] props[k]).0@,
            props[k].1@,
        ) by {
            assert(has_property(doc, flags[k].0, flags[k].1));
        }
    } else {
        let k = choose|k: int|
            0 <= k < flags.len() && !has_property(doc, (#[trigger] flags[k]).0, flags[k].1);
        assert(!some_field_equals(doc, props[k].0@, props[k].1@));
    }
}

/// A type can be asked for exactly where a schema defines it.
pub proof fn known_types_are_those_defined(schemas: Seq<SchemaDir>, name: Seq<char>)
    ensures
        known_types(schemas).contains(name) <==> exists|k: int|
            0 <= k < schemas.len() && has_key((#[trigger] schemas[k]).schema.types@, name),
    decreases schemas.len(),
{
    if schemas.len() > 0 {
        let f = schemas.drop_last();
        let n = schemas.len() - 1;
        known_types_are_those_defined(f, name);
        let types = schemas.last().schema.types@;
        with_names_holds(known_types(f), type_names(types), name);
        if has_key(types, name) {
            let i = choose|i: int| 0 <= i < types.len() && (#[trigger] types[i]).0 == name;
            assert(type_names(types)[i] == name);
        }
        if type_names(types).contains(name) {
            let i = choose|i: int| 0 <= i < types.len() && type_names(types)[i] == name;
            assert(types[i].0 == name);
            assert(has_key(schemas[n].schema.types@, name));
        }
        if exists|k: int| 0 <= k < f.len() && has_key((#[trigger] f[k]).schema.types@, name) {
            let k = choose|k: int| 0 <= k < f.len() && has_key((#[trigger] f[k]).schema.types@, name);
            assert(has_key(schemas[k].schema.types@, name));
        }
        if exists|k: int|
            0 <= k < schemas.len() && has_key((#[trigger] schemas[k]).schema.types@, name) {
            let k = choose|k: int|
                0 <= k < schemas.len() && has_key((#[trigger] schemas[k]).schema.types@, name);
            if k < n {
                assert(has_key(f[k].schema.types@, name));
            }
        }
    }
}

proof fn with_names_holds(names: Seq<Seq<char>>, more: Seq<Seq<char>>, n: Seq<char>)
    ensures
        with_names(names, more).contains(n) <==> names.contains(n) || more.contains(n),
    decreases more.len(),
{
    if more.len() > 0 {
        let f = more.drop_last();
        with_names_holds(names, f, n);
        with_name_holds(with_names(names, f), more.last(), n);
        if more.contains(n) {
            let i = choose|i: int| 0 <= i < more.len() && more[i] == n;
            if i < f.len() {
                assert(f[i] == n);
            }
        }
        if f.contains(n) {
            let i = choose|i: int| 0 <= i < f.len() && f[i] == n;
            assert(more[i] == n);
        }
        assert(more[more.len() - 1] == more.last());
    }
}

proof fn with_name_holds(names: Seq<Seq<char>>, m: Seq<char>, n: Seq<char>)
    ensures
        with_name(names, m).contains(n) <==> names.contains(n) || n == m,
    decreases names.len(),
{
    let r = with_name(names, m);
    if names.len() == 0 {
        assert(seq![m][0] == m);
    } else if names.last() == m {
        assert(names[names.len() - 1] == m);
    } else if text_before(m, names.last(), 0) {
        let f = names.drop_last();
        with_name_holds(f, m, n);
        let g = with_name(f, m);
        assert(r == g.push(names.last()));
        if names.contains(n) {
            let i = choose|i: int| 0 <= i < names.len() && names[i] == n;
            if i < f.len() {
                assert(f[i] == n);
            } else {
                assert(r[g.len() as int] == n);
            }
        }
        if g.contains(n) {
            let i = choose|i: int| 0 <= i < g.len() && g[i] == n;
            assert(r[i] == n);
        }
        if r.contains(n) {
            let i = choose|i: int| 0 <= i < r.len() && r[i] == n;
            if i < g.len() {
                assert(g[i] == n);
                if f.contains(n) {
                    let k = choose|k: int| 0 <= k < f.len() && f[k] == n;
                    assert(names[k] == n);
                }
            } else {
                assert(names[names.len() - 1] == n);
            }
        }
    } else {
        if names.contains(n) {
            let i = choose|i: int| 0 <= i < names.len() && names[i] == n;
            assert(r[i] == n);
        }
        assert(r[names.len() as int] == m);
        if r.contains(n) {
            let i = choose|i: int| 0 <= i < r.len() && r[i] == n;
            if i < names.len() {
                assert(names[i] == n);
            }
        }
    }
}

} // verus!
