//! File paths as lists of components.

use crate::text::{chars_of, pieces, slice_text, split, texts};
use vstd::prelude::*;

verus! {

/// A file path: whether it starts at the root, and its components. `.` is
/// kept only at the start of a relative path, and separators that repeat or
/// trail are dropped.
#[derive(Debug, PartialEq, Eq)]
pub struct FilePath {
    pub absolute: bool,
    pub parts: Vec<String>,
}

/// What a [`FilePath`] holds.
#[verifier::ext_equal]
pub struct PathView {
    pub absolute: bool,
    pub parts: Seq<Seq<char>>,
}

impl View for FilePath {
    type V = PathView;

    open spec fn view(&self) -> PathView {
        PathView { absolute: self.absolute, parts: texts(self.parts@) }
    }
}

/// The components among the pieces of a path text.
pub open spec fn kept(ps: Seq<Seq<char>>) -> Seq<Seq<char>>
    decreases ps.len(),
{
    if ps.len() == 0 {
        Seq::empty()
    } else if ps.last().len() == 0 || (ps.last() == "."@ && ps.len() > 1) {
        kept(ps.drop_last())
    } else {
        kept(ps.drop_last()).push(ps.last())
    }
}

/// The path that a text spells.
pub open spec fn path_of(text: Seq<char>) -> PathView {
    PathView {
        absolute: text.len() > 0 && text[0] == '/',
        parts: kept(pieces(text, '/')),
    }
}

/// `parts` with `/` between each two.
pub open spec fn slashed(parts: Seq<Seq<char>>) -> Seq<char> {
    crate::text::joined(parts, "/"@)
}

/// The text of a path.
pub open spec fn path_text(p: PathView) -> Seq<char> {
    (if p.absolute {
        "/"@
    } else {
        Seq::empty()
    }) + slashed(p.parts)
}

/// The directory that holds a path; the root and the empty path have none.
pub open spec fn parent_of(p: PathView) -> Option<PathView> {
    if p.parts.len() == 0 {
        None
    } else {
        Some(PathView { absolute: p.absolute, parts: p.parts.drop_last() })
    }
}

/// Whether `p` lies at or below `base`.
pub open spec fn lies_in(p: PathView, base: PathView) -> bool {
    ||| !base.absolute && base.parts.len() == 0
    ||| p.absolute == base.absolute && base.parts.is_prefix_of(p.parts)
}

/// What is left of `p` behind `base`.
pub open spec fn relative_to(p: PathView, base: PathView) -> Option<PathView> {
    if !base.absolute && base.parts.len() == 0 {
        Some(p)
    } else if lies_in(p, base) {
        Some(PathView { absolute: false, parts: p.parts.skip(base.parts.len() as int) })
    } else {
        None
    }
}

/// `rel` as seen from the directory `base`.
pub open spec fn joined_path(base: PathView, rel: PathView) -> PathView {
    if rel.absolute {
        rel
    } else if (base.absolute || base.parts.len() > 0) && rel.parts.len() > 0 && rel.parts[0]
        == "."@ {
        PathView { absolute: base.absolute, parts: base.parts + rel.parts.skip(1) }
    } else {
        PathView { absolute: base.absolute, parts: base.parts + rel.parts }
    }
}

/// `parts` without `.`, and with each `..` taken back together with the
/// component before it. At the root `..` stays there; at the start of a
/// relative path it is kept.
pub open spec fn resolved(parts: Seq<Seq<char>>, absolute: bool) -> Seq<Seq<char>>
    decreases parts.len(),
{
    if parts.len() == 0 {
        Seq::empty()
    } else {
        let before = resolved(parts.drop_last(), absolute);
        if parts.last() == "."@ {
            before
        } else if parts.last() == ".."@ {
            if before.len() > 0 && before.last() != ".."@ {
                before.drop_last()
            } else if absolute {
                before
            } else {
                before.push(parts.last())
            }
        } else {
            before.push(parts.last())
        }
    }
}

/// `p` without `.` and, as far as it goes, without `..`.
pub open spec fn normalized(p: PathView) -> PathView {
    PathView { absolute: p.absolute, parts: resolved(p.parts, p.absolute) }
}

/// The last component, unless it is `.` or `..`.
pub open spec fn name_of(p: PathView) -> Option<Seq<char>> {
    if p.parts.len() > 0 && p.parts.last() != "."@ && p.parts.last() != ".."@ {
        Some(p.parts.last())
    } else {
        None
    }
}

/// The position of the last `.` among the first `n` characters of `s`.
pub open spec fn last_dot(s: Seq<char>, n: nat) -> Option<int>
    decreases n,
{
    if n == 0 {
        None
    } else if s[n - 1] == '.' {
        Some(n - 1)
    } else {
        last_dot(s, (n - 1) as nat)
    }
}

/// A file name without its extension: what stands before the last `.`, where
/// anything does.
pub open spec fn stem_of_name(name: Seq<char>) -> Seq<char> {
    match last_dot(name, name.len()) {
        Some(i) => if i > 0 {
            name.take(i)
        } else {
            name
        },
        None => name,
    }
}

/// The extension of a file name: what stands behind the last `.`, where
/// anything stands before it.
pub open spec fn extension_of_name(name: Seq<char>) -> Option<Seq<char>> {
    match last_dot(name, name.len()) {
        Some(i) => if i > 0 {
            Some(name.skip(i + 1))
        } else {
            None
        },
        None => None,
    }
}

/// The file name of a path without its extension.
pub open spec fn stem_of(p: PathView) -> Option<Seq<char>> {
    match name_of(p) {
        Some(name) => Some(stem_of_name(name)),
        None => None,
    }
}

/// Resolving leaves no `.`, and no `..` behind another component.
pub proof fn resolved_is_plain(parts: Seq<Seq<char>>, absolute: bool, i: int)
    requires
        0 <= i < resolved(parts, absolute).len(),
    ensures
        resolved(parts, absolute)[i] != "."@,
        resolved(parts, absolute)[i] == ".."@ ==> !absolute && forall|j: int|
            0 <= j < i ==> resolved(parts, absolute)[j] == ".."@,
    decreases parts.len(),
{
    if parts.len() > 0 {
        let before = resolved(parts.drop_last(), absolute);
        let after = resolved(parts, absolute);
        if i < before.len() {
            resolved_is_plain(parts.drop_last(), absolute, i);
            assert(after[i] == before[i]);
        }
        if after.len() > before.len() {
            if parts.last() == ".."@ && i == before.len() {
                assert forall|j: int| 0 <= j < i implies after[j] == ".."@ by {
                    assert(before.last() == ".."@);
                    resolved_is_plain(parts.drop_last(), absolute, before.len() - 1);
                    if j < before.len() - 1 {
                        assert(before[j] == ".."@);
                    }
                }
            }
        }
    }
}

/// Normalizing twice is normalizing once.
pub proof fn normalized_twice(p: PathView)
    ensures
        normalized(normalized(p)) == normalized(p),
{
    let r = resolved(p.parts, p.absolute);
    assert forall|i: int| 0 <= i < r.len() implies #[trigger] r[i] != "."@ && (r[i] == ".."@ ==> !p.absolute
        && forall|j: int| 0 <= j < i ==> r[j] == ".."@) by {
        resolved_is_plain(p.parts, p.absolute, i);
    }
    resolved_keeps_plain(r, p.absolute);
}

proof fn resolved_keeps_plain(r: Seq<Seq<char>>, absolute: bool)
    requires
        forall|i: int|
            0 <= i < r.len() ==> #[trigger] r[i] != "."@ && (r[i] == ".."@ ==> !absolute
                && forall|j: int| 0 <= j < i ==> r[j] == ".."@),
    ensures
        resolved(r, absolute) == r,
    decreases r.len(),
{
    if r.len() > 0 {
        let f = r.drop_last();
        assert forall|i: int| 0 <= i < f.len() implies #[trigger] f[i] != "."@ && (f[i] == ".."@
            ==> !absolute && forall|j: int| 0 <= j < i ==> f[j] == ".."@) by {
            assert(r[i] == f[i]);
            if f[i] == ".."@ {
                assert forall|j: int| 0 <= j < i implies f[j] == ".."@ by {
                    assert(r[j] == ".."@);
                }
            }
        }
        resolved_keeps_plain(f, absolute);
        assert(r[r.len() - 1] == r.last());
        assert(f.push(r.last()) =~= r);
        if r.last() == ".."@ && f.len() > 0 {
            assert(r[f.len() - 1] == ".."@);
        }
    }
}

// ── paths in use ──────────────────────────────────────────────────────────

impl Clone for FilePath {
    fn clone(&self) -> (r: FilePath)
        ensures
            r@ == self@,
    {
        FilePath { absolute: self.absolute, parts: crate::text::copy_texts(&self.parts) }
    }
}

/// A copy of the parts `from..to`.
fn copy_range(parts: &Vec<String>, from: usize, to: usize) -> (r: Vec<String>)
    requires
        from <= to <= parts.len(),
    ensures
        texts(r@) == texts(parts@).subrange(from as int, to as int),
{
    let mut out: Vec<String> = Vec::new();
    let mut i: usize = from;
    while i < to
        invariant
            from <= i <= to <= parts.len(),
            out.len() == i - from,
            forall|k: int| 0 <= k < out.len() ==> (#[trigger] out[k])@ == parts[from + k]@,
        decreases to - i,
    {
        out.push(parts[i].clone());
        i += 1;
    }
    assert(texts(out@) =~= texts(parts@).subrange(from as int, to as int));
    out
}

/// Whether `a[..n]` and `b[..n]` are the same texts.
fn same_prefix(a: &Vec<String>, b: &Vec<String>, n: usize) -> (r: bool)
    requires
        n <= a.len(),
        n <= b.len(),
    ensures
        r == (texts(a@).take(n as int) == texts(b@).take(n as int)),
{
    let mut i: usize = 0;
    while i < n
        invariant
            i <= n,
            n <= a.len(),
            n <= b.len(),
            forall|k: int| 0 <= k < i ==> texts(a@)[k] == texts(b@)[k],
        decreases n - i,
    {
        if a[i].as_str().eq(b[i].as_str()) {
            assert(texts(a@)[i as int] == texts(b@)[i as int]);
        } else {
            assert(texts(a@).take(n as int)[i as int] != texts(b@).take(n as int)[i as int]);
            return false;
        }
        i += 1;
    }
    assert(texts(a@).take(n as int) =~= texts(b@).take(n as int));
    true
}

impl FilePath {
    /// The path that a text spells.
    pub fn parse(text: &str) -> (r: FilePath)
        ensures
            r@ == path_of(text@),
    {
        let absolute = crate::text::starts_with_char(text, '/');
        let ps = split(text, '/');
        let ghost all = texts(ps@);
        let mut parts: Vec<String> = Vec::new();
        let mut i: usize = 0;
        assert(texts(parts@) =~= kept(all.take(0)));
        while i < ps.len()
            invariant
                i <= ps.len(),
                all == texts(ps@),
                texts(parts@) == kept(all.take(i as int)),
            decreases ps.len() - i,
        {
            assert(all.take(i + 1).drop_last() =~= all.take(i as int));
            assert(all.take(i + 1).last() == ps@[i as int]@);
            let p = ps[i].as_str();
            if p.is_empty() || (p.eq(".") && i > 0) {
            } else {
                let ghost was = parts@;
                parts.push(ps[i].clone());
                assert(texts(parts@) =~= texts(was).push(ps@[i as int]@));
            }
            i += 1;
        }
        assert(all.take(all.len() as int) =~= all);
        FilePath { absolute, parts }
    }

    /// The text of the path.
    pub fn to_text(&self) -> (r: String)
        ensures
            r@ == path_text(self@),
    {
        let mut out = String::new();
        if self.absolute {
            out.append("/");
        }
        let t = crate::text::join(&self.parts, "/");
        out.append(t.as_str());
        assert(out@ =~= path_text(self@));
        out
    }

    /// The directory that holds the path.
    pub fn parent(&self) -> (r: Option<FilePath>)
        ensures
            match r {
                Some(p) => parent_of(self@) == Some(p@),
                None => parent_of(self@) is None,
            },
    {
        if self.parts.len() == 0 {
            None
        } else {
            let parts = copy_range(&self.parts, 0, self.parts.len() - 1);
            assert(texts(parts@) =~= texts(self.parts@).drop_last());
            Some(FilePath { absolute: self.absolute, parts })
        }
    }

    /// Whether two paths are the same.
    pub fn same(&self, other: &FilePath) -> (r: bool)
        ensures
            r == (self@ == other@),
    {
        if self.absolute != other.absolute || self.parts.len() != other.parts.len() {
            assert(texts(self.parts@).len() == self.parts@.len());
            assert(texts(other.parts@).len() == other.parts@.len());
            return false;
        }
        let r = same_prefix(&self.parts, &other.parts, self.parts.len());
        assert(texts(self.parts@).take(self.parts@.len() as int) =~= texts(self.parts@));
        assert(texts(other.parts@).take(other.parts@.len() as int) =~= texts(other.parts@));
        r
    }

    /// Whether the path lies at or below `base`.
    pub fn starts_with(&self, base: &FilePath) -> (r: bool)
        ensures
            r == lies_in(self@, base@),
    {
        if !base.absolute && base.parts.len() == 0 {
            return true;
        }
        if self.absolute != base.absolute || base.parts.len() > self.parts.len() {
            return false;
        }
        let r = same_prefix(&self.parts, &base.parts, base.parts.len());
        proof {
            let a = texts(self.parts@);
            let b = texts(base.parts@);
            assert(b.take(b.len() as int) =~= b);
            assert(a.take(b.len() as int) =~= a.subrange(0, b.len() as int));
        }
        r
    }

    /// What is left of the path behind `base`.
    pub fn strip_prefix(&self, base: &FilePath) -> (r: Option<FilePath>)
        ensures
            match r {
                Some(p) => relative_to(self@, base@) == Some(p@),
                None => relative_to(self@, base@) is None,
            },
    {
        if !base.absolute && base.parts.len() == 0 {
            return Some(self.clone());
        }
        if !self.starts_with(base) {
            return None;
        }
        assert(texts(base.parts@).len() <= texts(self.parts@).len());
        let parts = copy_range(&self.parts, base.parts.len(), self.parts.len());
        assert(texts(parts@) =~= texts(self.parts@).skip(base.parts@.len() as int));
        Some(FilePath { absolute: false, parts })
    }

    /// `rel` as seen from this directory.
    pub fn join(&self, rel: &FilePath) -> (r: FilePath)
        ensures
            r@ == joined_path(self@, rel@),
    {
        if rel.absolute {
            return rel.clone();
        }
        let from: usize = if (self.absolute || self.parts.len() > 0) && rel.parts.len() > 0
            && rel.parts[0].as_str().eq(".") {
            1
        } else {
            0
        };
        let mut parts = copy_range(&self.parts, 0, self.parts.len());
        let mut more = copy_range(&rel.parts, from, rel.parts.len());
        let ghost a = texts(parts@);
        let ghost b = texts(more@);
        assert(a =~= texts(self.parts@));
        parts.append(&mut more);
        assert(texts(parts@) =~= a + b);
        assert(b =~= texts(rel.parts@).skip(from as int));
        assert(texts(rel.parts@).skip(0) =~= texts(rel.parts@));
        FilePath { absolute: self.absolute, parts }
    }

    /// The last component, unless it is `.` or `..`.
    pub fn file_name(&self) -> (r: Option<String>)
        ensures
            crate::text::option_text(r) == name_of(self@),
    {
        let n: usize = self.parts.len();
        if n > 0 && !self.parts[n - 1].as_str().eq(".") && !self.parts[n - 1].as_str().eq("..") {
            Some(self.parts[n - 1].clone())
        } else {
            None
        }
    }

    /// The file name without its extension.
    pub fn file_stem(&self) -> (r: Option<String>)
        ensures
            crate::text::option_text(r) == stem_of(self@),
    {
        match self.file_name() {
            Some(name) => {
                let v = chars_of(name.as_str());
                match find_last_dot(&v) {
                    Some(i) => {
                        if i > 0 {
                            let t = slice_text(&v, 0, i);
                            assert(t@ =~= name@.take(i as int));
                            Some(t)
                        } else {
                            Some(name)
                        }
                    },
                    None => Some(name),
                }
            },
            None => None,
        }
    }

    /// The extension of the file name.
    pub fn extension(&self) -> (r: Option<String>)
        ensures
            crate::text::option_text(r) == (match name_of(self@) {
                Some(name) => extension_of_name(name),
                None => None,
            }),
    {
        match self.file_name() {
            Some(name) => {
                let v = chars_of(name.as_str());
                match find_last_dot(&v) {
                    Some(i) => {
                        if i > 0 {
                            let t = slice_text(&v, i + 1, v.len());
                            assert(t@ =~= name@.skip(i + 1));
                            Some(t)
                        } else {
                            None
                        }
                    },
                    None => None,
                }
            },
            None => None,
        }
    }
}

fn find_last_dot(v: &Vec<char>) -> (r: Option<usize>)
    ensures
        match r {
            Some(i) => last_dot(v@, v@.len()) == Some(i as int) && i < v.len(),
            None => last_dot(v@, v@.len()) is None,
        },
{
    let mut n: usize = v.len();
    while n > 0
        invariant
            n <= v.len(),
            last_dot(v@, v@.len()) == last_dot(v@, n as nat),
        decreases n,
    {
        if v[n - 1] == '.' {
            return Some(n - 1);
        }
        n -= 1;
    }
    None
}

/// The path without `.` and, as far as it goes, without `..`.
pub fn normalize_path(path: &FilePath) -> (r: FilePath)
    ensures
        r@ == normalized(path@),
{
    let ghost all = texts(path.parts@);
    let mut out: Vec<String> = Vec::new();
    let mut i: usize = 0;
    assert(texts(out@) =~= resolved(all.take(0), path.absolute));
    while i < path.parts.len()
        invariant
            i <= path.parts.len(),
            all == texts(path.parts@),
            texts(out@) == resolved(all.take(i as int), path.absolute),
        decreases path.parts.len() - i,
    {
        assert(all.take(i + 1).drop_last() =~= all.take(i as int));
        assert(all.take(i + 1).last() == path.parts@[i as int]@);
        let part = path.parts[i].as_str();
        let ghost was = texts(out@);
        let ghost old_out = out@;
        assert(out@.len() > 0 ==> was.last() == out@.last()@);
        if part.eq(".") {
        } else if part.eq("..") && out.len() > 0 && !out[out.len() - 1].as_str().eq("..") {
            let _last = out.pop();
            assert(texts(out@) =~= was.drop_last());
        } else if part.eq("..") && path.absolute {
        } else {
            out.push(path.parts[i].clone());
            assert(texts(out@) =~= was.push(part@));
        }
        i += 1;
    }
    assert(all.take(all.len() as int) =~= all);
    FilePath { absolute: path.absolute, parts: out }
}

// ── the order of paths ────────────────────────────────────────────────────

/// Whether `a` comes before `b` from position `i` on, character by character.
pub open spec fn text_before(a: Seq<char>, b: Seq<char>, i: int) -> bool
    decreases a.len() - i,
{
    if i >= b.len() {
        false
    } else if i >= a.len() {
        true
    } else if a[i] != b[i] {
        (a[i] as int) < (b[i] as int)
    } else {
        text_before(a, b, i + 1)
    }
}

/// The rank of a component: `.` before `..` before names.
pub open spec fn part_rank(p: Seq<char>) -> int {
    if p == "."@ {
        0
    } else if p == ".."@ {
        1
    } else {
        2
    }
}

/// Whether the component `a` comes before `b`.
pub open spec fn part_before(a: Seq<char>, b: Seq<char>) -> bool {
    if part_rank(a) != part_rank(b) {
        part_rank(a) < part_rank(b)
    } else {
        text_before(a, b, 0)
    }
}

/// Whether the components `a` come before `b` from position `i` on.
pub open spec fn parts_before(a: Seq<Seq<char>>, b: Seq<Seq<char>>, i: int) -> bool
    decreases a.len() - i,
{
    if i >= b.len() {
        false
    } else if i >= a.len() {
        true
    } else if a[i] != b[i] {
        part_before(a[i], b[i])
    } else {
        parts_before(a, b, i + 1)
    }
}

/// Whether `a` comes before `b`: component by component, where the root comes
/// before any other component.
pub open spec fn path_before(a: PathView, b: PathView) -> bool {
    if a.absolute == b.absolute {
        parts_before(a.parts, b.parts, 0)
    } else if a.absolute {
        b.parts.len() > 0
    } else {
        a.parts.len() == 0
    }
}

/// Of two texts at most one comes before the other.
pub proof fn text_before_is_strict(a: Seq<char>, b: Seq<char>, i: int)
    requires
        0 <= i,
        text_before(a, b, i),
    ensures
        !text_before(b, a, i),
    decreases a.len() - i,
{
    if i < a.len() && a[i] == b[i] {
        text_before_is_strict(a, b, i + 1);
    }
}

/// What comes before a text comes before, or comes after, any third.
pub proof fn text_before_splits(a: Seq<char>, b: Seq<char>, c: Seq<char>, i: int)
    requires
        0 <= i,
        text_before(a, c, i),
    ensures
        text_before(a, b, i) || text_before(b, c, i),
    decreases a.len() - i,
{
    if i < a.len() && i < b.len() && a[i] == b[i] && a[i] == c[i] {
        text_before_splits(a, b, c, i + 1);
    }
}

proof fn text_before_is_total(a: Seq<char>, b: Seq<char>, i: int)
    requires
        0 <= i <= a.len(),
        i <= b.len(),
        forall|k: int| 0 <= k < i ==> a[k] == b[k],
    ensures
        text_before(a, b, i) || text_before(b, a, i) || a == b,
    decreases a.len() - i,
{
    if i < a.len() && i < b.len() {
        if a[i] == b[i] {
            text_before_is_total(a, b, i + 1);
        }
    } else if a.len() == b.len() {
        assert(a =~= b);
    }
}

proof fn part_before_is_total(a: Seq<char>, b: Seq<char>)
    requires
        a != b,
    ensures
        part_before(a, b) || part_before(b, a),
{
    text_before_is_total(a, b, 0);
}

proof fn part_before_splits(a: Seq<char>, b: Seq<char>, c: Seq<char>)
    requires
        part_before(a, c),
    ensures
        part_before(a, b) || part_before(b, c),
{
    if part_rank(a) == part_rank(c) && part_rank(b) == part_rank(a) {
        text_before_splits(a, b, c, 0);
    }
}

proof fn parts_before_splits(a: Seq<Seq<char>>, b: Seq<Seq<char>>, c: Seq<Seq<char>>, i: int)
    requires
        0 <= i,
        parts_before(a, c, i),
    ensures
        parts_before(a, b, i) || parts_before(b, c, i),
    decreases a.len() - i,
{
    if i < a.len() && i < b.len() {
        if a[i] == c[i] {
            if a[i] == b[i] {
                parts_before_splits(a, b, c, i + 1);
            } else {
                part_before_is_total(a[i], b[i]);
            }
        } else {
            part_before_splits(a[i], b[i], c[i]);
        }
    }
}

/// What comes before a path comes before, or comes after, any third.
pub proof fn path_before_splits(a: PathView, b: PathView, c: PathView)
    requires
        path_before(a, c),
    ensures
        path_before(a, b) || path_before(b, c),
{
    if a.absolute == c.absolute && b.absolute == a.absolute {
        parts_before_splits(a.parts, b.parts, c.parts, 0);
    }
}

proof fn parts_before_is_strict(a: Seq<Seq<char>>, b: Seq<Seq<char>>, i: int)
    requires
        0 <= i,
        parts_before(a, b, i),
    ensures
        !parts_before(b, a, i),
    decreases a.len() - i,
{
    if i < a.len() {
        if a[i] == b[i] {
            parts_before_is_strict(a, b, i + 1);
        } else if part_rank(a[i]) == part_rank(b[i]) {
            text_before_is_strict(a[i], b[i], 0);
        }
    }
}

/// Of two paths at most one comes before the other.
pub proof fn path_before_is_strict(a: PathView, b: PathView)
    requires
        path_before(a, b),
    ensures
        !path_before(b, a),
{
    if a.absolute == b.absolute {
        parts_before_is_strict(a.parts, b.parts, 0);
    }
}

/// `sorted` with `p` put behind every path at its end that `p` does not come
/// before.
pub open spec fn inserted(sorted: Seq<PathView>, p: PathView) -> Seq<PathView>
    decreases sorted.len(),
{
    if sorted.len() > 0 && path_before(p, sorted.last()) {
        inserted(sorted.drop_last(), p).push(sorted.last())
    } else {
        sorted.push(p)
    }
}

/// The paths in order.
pub open spec fn sorted_paths(v: Seq<PathView>) -> Seq<PathView>
    decreases v.len(),
{
    if v.len() == 0 {
        Seq::empty()
    } else {
        inserted(sorted_paths(v.drop_last()), v.last())
    }
}

/// Whether no path comes before one that stands before it.
pub open spec fn in_order(v: Seq<PathView>) -> bool {
    forall|i: int, j: int|
        0 <= i < j < v.len() ==> !path_before(#[trigger] v[j], #[trigger] v[i])
}

proof fn inserted_in_order(sorted: Seq<PathView>, p: PathView)
    requires
        in_order(sorted),
    ensures
        in_order(inserted(sorted, p)),
        inserted(sorted, p).len() == sorted.len() + 1,
        forall|k: int|
            0 <= k < inserted(sorted, p).len() ==> #[trigger] inserted(sorted, p)[k] == p
                || sorted.contains(inserted(sorted, p)[k]),
        inserted(sorted, p).to_multiset() == sorted.to_multiset().insert(p),
    decreases sorted.len(),
{
    broadcast use vstd::seq_lib::group_to_multiset_ensures;

    let all = inserted(sorted, p);
    if sorted.len() > 0 && path_before(p, sorted.last()) {
        let f = sorted.drop_last();
        let e = sorted.last();
        assert forall|i: int, j: int| 0 <= i < j < f.len() implies !path_before(
            #[trigger] f[j],
            #[trigger] f[i],
        ) by {
            assert(!path_before(sorted[j], sorted[i]));
        }
        inserted_in_order(f, p);
        path_before_is_strict(p, e);
        let r = inserted(f, p);
        assert forall|k: int| 0 <= k < r.len() implies !path_before(e, #[trigger] r[k])
            && (r[k] == p || sorted.contains(r[k])) by {
            if r[k] != p {
                let m = choose|m: int| 0 <= m < f.len() && f[m] == r[k];
                assert(sorted[m] == r[k]);
                assert(!path_before(sorted[sorted.len() - 1], sorted[m]));
            }
        }
        assert(sorted[sorted.len() - 1] == e);
        assert(f.push(e) =~= sorted);
        assert(sorted.to_multiset() =~= f.to_multiset().insert(e));
        assert(all.to_multiset() =~= sorted.to_multiset().insert(p));
    } else {
        assert forall|k: int| 0 <= k < sorted.len() implies !path_before(
            p,
            #[trigger] sorted[k],
        ) && sorted.contains(sorted[k]) by {
            if path_before(p, sorted[k]) {
                path_before_splits(p, sorted.last(), sorted[k]);
            }
        }
    }
}

/// Sorting keeps the paths, each as often as it came, and puts them in order.
pub proof fn sorted_paths_are_sorted(v: Seq<PathView>)
    ensures
        in_order(sorted_paths(v)),
        sorted_paths(v).to_multiset() == v.to_multiset(),
    decreases v.len(),
{
    broadcast use vstd::seq_lib::group_to_multiset_ensures;

    if v.len() > 0 {
        sorted_paths_are_sorted(v.drop_last());
        inserted_in_order(sorted_paths(v.drop_last()), v.last());
        assert(v.drop_last().push(v.last()) =~= v);
    } else {
        assert(v =~= Seq::empty());
    }
}

/// Whether `a` comes before `b`, character by character.
pub fn text_precedes(a: &str, b: &str) -> (r: bool)
    ensures
        r == text_before(a@, b@, 0),
{
    let x = chars_of(a);
    let y = chars_of(b);
    let mut i: usize = 0;
    while i < x.len() && i < y.len()
        invariant
            i <= x.len(),
            i <= y.len(),
            x@ == a@,
            y@ == b@,
            text_before(a@, b@, 0) == text_before(a@, b@, i as int),
        decreases x.len() - i,
    {
        if x[i] != y[i] {
            return x[i] < y[i];
        }
        i += 1;
    }
    i < y.len()
}

fn rank(p: &str) -> (r: u8)
    ensures
        r == part_rank(p@),
{
    if p.eq(".") {
        0
    } else if p.eq("..") {
        1
    } else {
        2
    }
}

impl FilePath {
    /// Whether the path comes before `other`.
    pub fn precedes(&self, other: &FilePath) -> (r: bool)
        ensures
            r == path_before(self@, other@),
    {
        let ghost a = texts(self.parts@);
        let ghost b = texts(other.parts@);
        assert(a.len() == self.parts@.len() && b.len() == other.parts@.len());
        if self.absolute != other.absolute {
            return if self.absolute {
                other.parts.len() > 0
            } else {
                self.parts.len() == 0
            };
        }
        let mut i: usize = 0;
        while i < self.parts.len() && i < other.parts.len()
            invariant
                i <= self.parts.len(),
                i <= other.parts.len(),
                a == texts(self.parts@),
                b == texts(other.parts@),
                self.absolute == other.absolute,
                parts_before(a, b, 0) == parts_before(a, b, i as int),
            decreases self.parts.len() - i,
        {
            let x = self.parts[i].as_str();
            let y = other.parts[i].as_str();
            assert(a[i as int] == x@ && b[i as int] == y@);
            if !x.eq(y) {
                return if rank(x) != rank(y) {
                    rank(x) < rank(y)
                } else {
                    text_precedes(x, y)
                };
            }
            i += 1;
        }
        i < other.parts.len()
    }
}

/// The content of a list of paths.
pub open spec fn paths_view(v: Seq<FilePath>) -> Seq<PathView> {
    v.map_values(|p: FilePath| p@)
}

/// Whether a list holds a path.
pub fn holds_path(v: &Vec<FilePath>, p: &FilePath) -> (r: bool)
    ensures
        r == paths_view(v@).contains(p@),
{
    let ghost all = paths_view(v@);
    let mut i: usize = 0;
    while i < v.len()
        invariant
            i <= v.len(),
            all == paths_view(v@),
            forall|k: int| 0 <= k < i ==> #[trigger] all[k] != p@,
        decreases v.len() - i,
    {
        assert(all[i as int] == v@[i as int]@);
        if v[i].same(p) {
            return true;
        }
        i += 1;
    }
    false
}

/// Put a path into a sorted list.
pub fn insert_sorted(v: &mut Vec<FilePath>, p: FilePath)
    ensures
        paths_view(final(v)@) == inserted(paths_view(old(v)@), p@),
{
    let ghost s = paths_view(v@);
    let mut k: usize = v.len();
    assert(s.take(s.len() as int) + s.skip(s.len() as int) =~= s);
    assert(s.take(s.len() as int) =~= s);
    assert(inserted(s.take(s.len() as int), p@) + s.skip(s.len() as int) =~= inserted(s, p@));
    while k > 0 && p.precedes(&v[k - 1])
        invariant
            k <= v.len(),
            s == paths_view(v@),
            s == paths_view(old(v)@),
            inserted(s, p@) == inserted(s.take(k as int), p@) + s.skip(k as int),
        decreases k,
    {
        let ghost t = s.take(k as int);
        assert(t.drop_last() =~= s.take(k - 1));
        assert(t.last() == v@[k - 1]@);
        assert(inserted(t, p@) =~= inserted(s.take(k - 1), p@).push(s[k - 1]));
        assert(inserted(t, p@) + s.skip(k as int) =~= inserted(s.take(k - 1), p@) + s.skip(k - 1));
        k -= 1;
    }
    let ghost q = p@;
    proof {
        let t = s.take(k as int);
        if k > 0 {
            assert(t.last() == v@[k - 1]@);
        }
        assert(inserted(t, q) == t.push(q));
    }
    v.insert(k, p);
    assert(paths_view(v@) =~= s.take(k as int).push(q) + s.skip(k as int));
}

/// Paths as seen from a directory: each joined to it, unless it is absolute.
pub open spec fn all_joined(base: PathView, v: Seq<PathView>) -> Seq<PathView> {
    v.map_values(|p: PathView| joined_path(base, p))
}

/// Resolve paths relative to the working directory.
pub fn resolve_paths(cwd: &FilePath, paths: &Vec<FilePath>) -> (r: Vec<FilePath>)
    ensures
        paths_view(r@) == all_joined(cwd@, paths_view(paths@)),
{
    let mut out: Vec<FilePath> = Vec::new();
    let mut i: usize = 0;
    while i < paths.len()
        invariant
            i <= paths.len(),
            out.len() == i,
            forall|k: int| 0 <= k < i ==> (#[trigger] out@[k])@ == joined_path(cwd@, paths@[k]@),
        decreases paths.len() - i,
    {
        out.push(cwd.join(&paths[i]));
        i += 1;
    }
    assert(paths_view(out@) =~= all_joined(cwd@, paths_view(paths@)));
    out
}

// ── what paths mean ───────────────────────────────────────────────────────

proof fn resolved_alike(a: Seq<Seq<char>>, b: Seq<Seq<char>>, t: Seq<Seq<char>>, absolute: bool)
    requires
        resolved(a, absolute) == resolved(b, absolute),
    ensures
        resolved(a + t, absolute) == resolved(b + t, absolute),
    decreases t.len(),
{
    if t.len() == 0 {
        assert(a + t =~= a);
        assert(b + t =~= b);
    } else {
        resolved_alike(a, b, t.drop_last(), absolute);
        assert((a + t).drop_last() =~= a + t.drop_last());
        assert((b + t).drop_last() =~= b + t.drop_last());
        assert((a + t).last() == t.last());
        assert((b + t).last() == t.last());
    }
}

/// A step down and up again, and a step that stays, lead to the same place:
/// `a/b/../c` and `a/./c` are `a/c`.
pub proof fn steps_back_cancel(
    a: Seq<Seq<char>>,
    name: Seq<char>,
    c: Seq<Seq<char>>,
    absolute: bool,
)
    requires
        name != "."@,
        name != ".."@,
    ensures
        resolved(a + seq![name, ".."@] + c, absolute) == resolved(a + c, absolute),
        resolved(a + seq!["."@] + c, absolute) == resolved(a + c, absolute),
        resolved(a.push(name), absolute) == resolved(a, absolute).push(name),
{
    reveal_strlit(".");
    reveal_strlit("..");
    assert("."@.len() == 1 && ".."@.len() == 2);
    let down = a.push(name);
    let back = a + seq![name, ".."@];
    assert(down.drop_last() =~= a);
    assert(back.drop_last() =~= down);
    assert(back.last() == ".."@);
    assert(resolved(down, absolute) == resolved(a, absolute).push(name));
    assert(resolved(down, absolute).drop_last() =~= resolved(a, absolute));
    assert(resolved(back, absolute) == resolved(a, absolute));
    resolved_alike(back, a, c, absolute);
    let stay = a + seq!["."@];
    assert(stay.drop_last() =~= a);
    assert(stay.last() == "."@);
    resolved_alike(stay, a, c, absolute);
}

/// A path of plain names means what it says, and the root has nothing above
/// it.
pub proof fn plain_paths_stay(p: PathView)
    requires
        forall|i: int| 0 <= i < p.parts.len() ==> #[trigger] p.parts[i] != "."@ && p.parts[i] != ".."@,
    ensures
        normalized(p) == p,
        normalized(PathView { absolute: true, parts: seq![".."@] }) == (PathView {
            absolute: true,
            parts: Seq::empty(),
        }),
{
    resolved_keeps_plain(p.parts, p.absolute);
    reveal_strlit(".");
    reveal_strlit("..");
    reveal_with_fuel(resolved, 2);
    let up = seq![".."@];
    assert(up.drop_last() =~= Seq::empty());
    assert("."@.len() != ".."@.len());
    assert(resolved(up, true) =~= Seq::empty());
}

/// A path that is joined to a directory lies in it, and what is left of it
/// behind the directory is what was joined; one step up from a name is the
/// directory again.
pub proof fn joining_is_undone(base: PathView, rel: PathView)
    requires
        !rel.absolute,
        base.absolute || base.parts.len() > 0,
        rel.parts.len() > 0,
        rel.parts[0] != "."@,
    ensures
        lies_in(joined_path(base, rel), base),
        relative_to(joined_path(base, rel), base) == Some(rel),
        rel.parts.len() == 1 ==> parent_of(joined_path(base, rel)) == Some(base),
        parent_of(base) matches Some(dir) ==> lies_in(base, dir),
{
    let j = joined_path(base, rel);
    assert(base.parts =~= j.parts.take(base.parts.len() as int));
    assert(j.parts.skip(base.parts.len() as int) =~= rel.parts);
    if rel.parts.len() == 1 {
        assert(j.parts.drop_last() =~= base.parts);
    }
    if let Some(dir) = parent_of(base) {
        assert(dir.parts =~= base.parts.take(dir.parts.len() as int));
    }
}

/// What lies in a directory begins with its parts.
pub proof fn what_lies_in_begins_with(p: PathView, base: PathView)
    requires
        base.absolute || base.parts.len() > 0,
    ensures
        lies_in(p, base) <==> p.absolute == base.absolute && p.parts.len() >= base.parts.len()
            && forall|i: int| 0 <= i < base.parts.len() ==> #[trigger] base.parts[i] == p.parts[i],
        relative_to(p, base) is Some <==> lies_in(p, base),
{
    if p.absolute == base.absolute && p.parts.len() >= base.parts.len() && forall|i: int|
        0 <= i < base.parts.len() ==> #[trigger] base.parts[i] == p.parts[i] {
        assert(base.parts =~= p.parts.take(base.parts.len() as int));
    }
    if base.parts.is_prefix_of(p.parts) {
        let t = p.parts.take(base.parts.len() as int);
        assert forall|i: int| 0 <= i < base.parts.len() implies #[trigger] base.parts[i]
            == p.parts[i] by {
            assert(base.parts[i] == t[i]);
        }
    }
}

proof fn last_dot_is_last(s: Seq<char>, n: nat, i: int)
    requires
        0 <= i < n <= s.len(),
        s[i] == '.',
        forall|k: int| i < k < n ==> #[trigger] s[k] != '.',
    ensures
        last_dot(s, n) == Some(i),
    decreases n,
{
    if i < n - 1 {
        assert(s[n - 1] != '.');
        last_dot_is_last(s, (n - 1) as nat, i);
    }
}

proof fn no_last_dot(s: Seq<char>, n: nat)
    requires
        n <= s.len(),
        forall|k: int| 0 <= k < n ==> #[trigger] s[k] != '.',
    ensures
        last_dot(s, n) is None,
    decreases n,
{
    if n > 0 {
        assert(s[n - 1] != '.');
        no_last_dot(s, (n - 1) as nat);
    }
}

/// A file name is its stem, a point and its extension; one without a point is
/// its own stem.
pub proof fn a_name_is_stem_and_extension(stem: Seq<char>, ext: Seq<char>)
    requires
        stem.len() > 0,
        !ext.contains('.'),
    ensures
        stem_of_name(stem.push('.') + ext) == stem,
        extension_of_name(stem.push('.') + ext) == Some(ext),
        stem_of_name(ext) == ext,
        extension_of_name(ext) is None,
{
    let name = stem.push('.') + ext;
    let i = stem.len() as int;
    assert forall|k: int| i < k < name.len() implies #[trigger] name[k] != '.' by {
        if name[k] == '.' {
            assert(ext[k - i - 1] == '.');
        }
    }
    last_dot_is_last(name, name.len(), i);
    assert(name.take(i) =~= stem);
    assert(name.skip(i + 1) =~= ext);
    assert forall|k: int| 0 <= k < ext.len() implies #[trigger] ext[k] != '.' by {
        if ext[k] == '.' {
            assert(ext.contains('.'));
        }
    }
    no_last_dot(ext, ext.len());
}

/// A path is spelled with slashes between its parts, and its spelling names
/// it.
pub proof fn a_path_reads_back(p: PathView)
    requires
        forall|i: int|
            0 <= i < p.parts.len() ==> (#[trigger] p.parts[i]).len() > 0 && !p.parts[i].contains(
                '/',
            ) && p.parts[i] != "."@,
        p.parts.len() > 0,
    ensures
        path_of(path_text(p)) == p,
{
    reveal_strlit("/");
    assert("/"@ =~= seq!['/']);
    let s = slashed(p.parts);
    crate::text::pieces_of_joined(p.parts, '/');
    kept_whole(p.parts);
    first_of_joined(p.parts, "/"@);
    if p.absolute {
        let t = "/"@ + s;
        assert(t[0] == '/');
        crate::text::pieces_after_separator(t, '/');
        assert(t.skip(1) =~= s);
        let q = pieces(t, '/');
        assert(q.skip(1) == p.parts);
        slash_starts_with_nothing(t);
        assert forall|i: int| 1 <= i < q.len() implies (#[trigger] q[i]).len() > 0 && q[i]
            != "."@ by {
            assert(q.skip(1)[i - 1] == q[i]);
            assert(p.parts[i - 1].len() > 0);
        }
        kept_behind_nothing(q);
    } else {
        let t = Seq::<char>::empty() + s;
        assert(t =~= s);
        assert(s[0] == p.parts[0][0]);
        if s[0] == '/' {
            assert(p.parts[0].contains('/'));
        }
    }
}

proof fn first_of_joined(v: Seq<Seq<char>>, sep: Seq<char>)
    requires
        v.len() > 0,
        v[0].len() > 0,
    ensures
        crate::text::joined(v, sep).len() > 0,
        crate::text::joined(v, sep)[0] == v[0][0],
    decreases v.len(),
{
    if v.len() > 1 {
        first_of_joined(v.drop_last(), sep);
    }
}

proof fn kept_whole(v: Seq<Seq<char>>)
    requires
        forall|i: int| 0 <= i < v.len() ==> (#[trigger] v[i]).len() > 0 && v[i] != "."@,
    ensures
        kept(v) == v,
    decreases v.len(),
{
    if v.len() > 0 {
        let f = v.drop_last();
        assert(v[v.len() - 1].len() > 0);
        assert forall|i: int| 0 <= i < f.len() implies (#[trigger] f[i]).len() > 0 && f[i]
            != "."@ by {
            assert(f[i] == v[i]);
        }
        kept_whole(f);
        assert(f.push(v.last()) =~= v);
    }
}

proof fn slash_starts_with_nothing(t: Seq<char>)
    requires
        t.len() > 0,
        t[0] == '/',
    ensures
        pieces(t, '/').len() > 1,
        pieces(t, '/')[0].len() == 0,
{
    let none: Seq<char> = Seq::empty();
    crate::text::pieces_cut(none, '/', t.skip(1));
    assert(none.push('/') + t.skip(1) =~= t);
    crate::text::pieces_not_empty(t.skip(1), '/');
}

proof fn kept_behind_nothing(q: Seq<Seq<char>>)
    requires
        q.len() > 0,
        q[0].len() == 0,
        forall|i: int| 1 <= i < q.len() ==> (#[trigger] q[i]).len() > 0 && q[i] != "."@,
    ensures
        kept(q) == q.skip(1),
    decreases q.len(),
{
    if q.len() == 1 {
        reveal_with_fuel(kept, 2);
        assert(q.drop_last() =~= Seq::empty());
        assert(q.skip(1) =~= Seq::empty());
        assert(q.last() == q[0]);
    } else {
        let f = q.drop_last();
        assert(q[q.len() - 1].len() > 0);
        assert forall|i: int| 1 <= i < f.len() implies (#[trigger] f[i]).len() > 0 && f[i]
            != "."@ by {
            assert(f[i] == q[i]);
        }
        kept_behind_nothing(f);
        assert(f.skip(1).push(q.last()) =~= q.skip(1));
    }
}

} // verus!
