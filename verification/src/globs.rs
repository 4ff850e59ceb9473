//! Which types claim a path: glob patterns and their owners.

use crate::text::texts;
use globset::{Glob, GlobBuilder, GlobSet, GlobSetBuilder};
use vstd::prelude::*;

verus! {

#[verifier::external_type_specification]
#[verifier::external_body]
pub struct ExGlob(globset::Glob);

#[verifier::external_type_specification]
#[verifier::external_body]
pub struct ExGlobSet(globset::GlobSet);

#[verifier::external_type_specification]
#[verifier::external_body]
pub struct ExGlobSetBuilder(globset::GlobSetBuilder);

/// The pattern of a glob.
pub uninterp spec fn glob_pattern(g: Glob) -> Seq<char>;

/// The patterns that were added to a builder, in order.
pub uninterp spec fn builder_patterns(b: GlobSetBuilder) -> Seq<Seq<char>>;

/// The patterns of a set, in order.
pub uninterp spec fn set_patterns(s: GlobSet) -> Seq<Seq<char>>;

/// Why `globset` refuses a pattern, if it does.
pub uninterp spec fn glob_error(pattern: Seq<char>) -> Option<Seq<char>>;

/// Why `globset` cannot compile a set of patterns, if it cannot.
pub uninterp spec fn set_error(patterns: Seq<Seq<char>>) -> Option<Seq<char>>;

/// Whether a pattern, in which `*` and `?` do not match a separator, matches
/// a path. As for every pattern here, `/` is the only separator and `\`
/// escapes what follows it, as on systems whose paths know no other separator.
pub uninterp spec fn glob_matches(pattern: Seq<char>, path: Seq<char>) -> bool;

/// `GlobBuilder::build` with `literal_separator`: a glob of that pattern, or
/// the text of the error, which depends on the pattern alone.
#[verifier::external_body]
pub(crate) fn build_glob(pattern: &str) -> (r: Result<Glob, String>)
    ensures
        match r {
            Ok(g) => glob_error(pattern@) is None && glob_pattern(g) == pattern@,
            Err(e) => glob_error(pattern@) == Some(e@),
        },
{
    GlobBuilder::new(pattern).literal_separator(true).build().map_err(|e| e.to_string())
}

/// `GlobSetBuilder::new` makes a builder without patterns.
#[verifier::external_body]
pub(crate) fn new_builder() -> (r: GlobSetBuilder)
    ensures
        builder_patterns(r) == Seq::<Seq<char>>::empty(),
{
    GlobSetBuilder::new()
}

/// `GlobSetBuilder::add` appends a glob.
#[verifier::external_body]
pub(crate) fn add_glob(b: &mut GlobSetBuilder, g: Glob)
    ensures
        builder_patterns(*final(b)) == builder_patterns(*old(b)).push(glob_pattern(g)),
{
    b.add(g);
}

/// `GlobSetBuilder::build`: a set of the patterns that were added, or the
/// text of the error, which depends on those patterns alone.
#[verifier::external_body]
pub(crate) fn build_set(b: &GlobSetBuilder) -> (r: Result<GlobSet, String>)
    ensures
        match r {
            Ok(s) => set_error(builder_patterns(*b)) is None && set_patterns(s)
                == builder_patterns(*b),
            Err(e) => set_error(builder_patterns(*b)) == Some(e@),
        },
{
    b.build().map_err(|e| e.to_string())
}

/// `GlobSet::matches`: the numbers, in ascending order and each once, of the
/// patterns that match the path.
#[verifier::external_body]
fn matching(s: &GlobSet, path: &str) -> (r: Vec<usize>)
    ensures
        forall|i: int, j: int| 0 <= i < j < r@.len() ==> r@[i] < r@[j],
        forall|i: int|
            0 <= i < set_patterns(*s).len() ==> (glob_matches(#[trigger] set_patterns(*s)[i], path@)
                <==> r@.contains(i as usize)),
        forall|i: int| 0 <= i < r@.len() ==> #[trigger] r@[i] < set_patterns(*s).len(),
{
    s.matches(path)
}

/// The pattern of a set that was made for file names.
pub uninterp spec fn name_pattern(s: GlobSet) -> Seq<char>;

/// Why `globset` refuses a file name pattern, if it does.
pub uninterp spec fn name_glob_error(pattern: Seq<char>) -> Option<Seq<char>>;

/// Whether a file name pattern matches a name.
pub uninterp spec fn name_matches(pattern: Seq<char>, name: Seq<char>) -> bool;

/// `Glob::new`, put into a set of its own with `GlobSetBuilder`: a set of
/// that pattern, or the text of the error, which depends on the pattern
/// alone.
#[verifier::external_body]
pub(crate) fn name_glob(pattern: &str) -> (r: Result<GlobSet, String>)
    ensures
        match r {
            Ok(s) => name_glob_error(pattern@) is None && name_pattern(s) == pattern@,
            Err(e) => name_glob_error(pattern@) == Some(e@),
        },
{
    match Glob::new(pattern) {
        Ok(g) => GlobSetBuilder::new().add(g).build().map_err(|e| e.to_string()),
        Err(e) => Err(e.to_string()),
    }
}

/// `GlobSet::is_match`: whether the pattern of the set matches the name.
#[verifier::external_body]
pub(crate) fn matches_name(s: &GlobSet, name: &str) -> (r: bool)
    ensures
        r == name_matches(name_pattern(*s), name@),
{
    s.is_match(name)
}

/// Compiled path patterns of all types.
///
/// Maps file paths, relative to the schema root, to type names. When several
/// types match the same file, the caller treats it as a conflict.
#[derive(Debug)]
pub struct PathMatcher {
    glob_set: GlobSet,
    /// For each pattern, the name of the type that owns it.
    pattern_owners: Vec<String>,
}

/// The patterns of a [`PathMatcher`], each with its owner.
pub struct MatcherView {
    pub patterns: Seq<Seq<char>>,
    pub owners: Seq<Seq<char>>,
}

impl View for PathMatcher {
    type V = MatcherView;

    closed spec fn view(&self) -> MatcherView {
        MatcherView { patterns: set_patterns(self.glob_set), owners: texts(self.pattern_owners@) }
    }
}

/// The owners of the first `n` patterns that match the path, each once, in
/// the order of their first pattern that does.
pub open spec fn claiming(m: MatcherView, path: Seq<char>, n: nat) -> Seq<Seq<char>>
    decreases n,
{
    if n == 0 {
        Seq::empty()
    } else {
        let i = n - 1;
        let before = claiming(m, path, i as nat);
        if glob_matches(m.patterns[i], path) && !before.contains(m.owners[i]) {
            before.push(m.owners[i])
        } else {
            before
        }
    }
}

/// The types that claim a path.
pub open spec fn claimants(m: MatcherView, path: Seq<char>) -> Seq<Seq<char>> {
    claiming(m, path, m.patterns.len())
}

/// A type claims a path exactly when one of its patterns matches, and no
/// type is named twice.
pub proof fn claimants_are_owners(m: MatcherView, path: Seq<char>, n: nat, name: Seq<char>)
    requires
        n <= m.patterns.len(),
        m.patterns.len() == m.owners.len(),
    ensures
        claiming(m, path, n).contains(name) <==> exists|i: int|
            0 <= i < n && #[trigger] m.owners[i] == name && glob_matches(m.patterns[i], path),
        claiming(m, path, n).no_duplicates(),
    decreases n,
{
    if n > 0 {
        let i = n - 1;
        let before = claiming(m, path, i as nat);
        let after = claiming(m, path, n);
        claimants_are_owners(m, path, i as nat, name);
        if after.contains(name) && !before.contains(name) {
            let k = choose|k: int| 0 <= k < after.len() && after[k] == name;
            assert(k == before.len());
            assert(m.owners[i] == name);
        }
        if before.contains(name) {
            let k = choose|k: int| 0 <= k < before.len() && before[k] == name;
            assert(after[k] == name);
        }
        if m.owners[i] == name && glob_matches(m.patterns[i], path) {
            if !before.contains(name) {
                assert(after[before.len() as int] == name);
            }
        }
    }
}

impl PathMatcher {
    #[verifier::type_invariant]
    spec fn well_formed(self) -> bool {
        set_patterns(self.glob_set).len() == self.pattern_owners@.len()
    }

    /// A matcher of the given patterns, with an owner for each.
    pub(crate) fn new(glob_set: GlobSet, pattern_owners: Vec<String>) -> (r: PathMatcher)
        requires
            set_patterns(glob_set).len() == pattern_owners@.len(),
        ensures
            r@.patterns == set_patterns(glob_set),
            r@.owners == texts(pattern_owners@),
    {
        PathMatcher { glob_set, pattern_owners }
    }

    /// Match a file path and return the names of the types that claim it.
    ///
    /// The path is relative to the schema root. There are several names when
    /// patterns of different types match, and none when nothing matches.
    pub fn match_path(&self, relative_path: &str) -> (r: Vec<String>)
        ensures
            texts(r@) == claimants(self@, relative_path@),
            self@.patterns.len() == self@.owners.len(),
    {
        proof {
            use_type_invariant(self);
        }
        let ghost m = self@;
        let hits = matching(&self.glob_set, relative_path);
        let n: usize = self.pattern_owners.len();
        let mut types: Vec<String> = Vec::new();
        let mut h: usize = 0;
        let mut i: usize = 0;
        assert(texts(types@) =~= Seq::empty());
        while i < n
            invariant
                i <= n,
                n == m.patterns.len(),
                n == self.pattern_owners@.len(),
                m == self@,
                m.patterns == set_patterns(self.glob_set),
                m.owners == texts(self.pattern_owners@),
                h <= hits.len(),
                forall|a: int, b: int| 0 <= a < b < hits@.len() ==> hits@[a] < hits@[b],
                forall|k: int|
                    0 <= k < n ==> (glob_matches(#[trigger] m.patterns[k], relative_path@)
                        <==> hits@.contains(k as usize)),
                forall|a: int| 0 <= a < h ==> hits@[a] < i,
                forall|a: int| h <= a < hits@.len() ==> hits@[a] >= i,
                texts(types@) == claiming(m, relative_path@, i as nat),
            decreases n - i,
        {
            let hit = h < hits.len() && hits[h] == i;
            proof {
                assert(glob_matches(m.patterns[i as int], relative_path@) == hits@.contains(i));
                if hit {
                    assert(hits@[h as int] == i);
                } else if hits@.contains(i) {
                    let a = choose|a: int| 0 <= a < hits@.len() && hits@[a] == i;
                    assert(a >= h);
                    if a > h {
                        assert(hits@[h as int] < hits@[a]);
                    }
                }
            }
            if hit {
                let name = &self.pattern_owners[i];
                assert(name@ == m.owners[i as int]);
                if !crate::text::holds_text(&types, name.as_str()) {
                    let ghost was = types@;
                    types.push(name.clone());
                    assert(texts(types@) =~= texts(was).push(name@));
                }
                h += 1;
            }
            i += 1;
        }
        types
    }

    /// Returns `true` if the matcher has no patterns at all.
    pub fn is_empty(&self) -> (r: bool)
        ensures
            r == (self@.owners.len() == 0),
    {
        self.pattern_owners.len() == 0
    }
}

} // verus!
