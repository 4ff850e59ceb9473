//! Following links from document to document.

use crate::links::{link_target, resolve_link_path};
use crate::path::{paths_view, FilePath, PathView};
use crate::resolve::{is_markdown, names_markdown};
use crate::text::texts;
use vstd::prelude::*;

verus! {

/// A walk over documents, breadth first: the documents found so far, each
/// with its distance from the start, and how many of them were handed out.
#[derive(Debug)]
pub struct LinkWalk {
    found: Vec<(FilePath, u32)>,
    head: usize,
    depth: u32,
}

/// What a [`LinkWalk`] holds.
#[verifier::ext_equal]
pub struct LinkWalkView {
    pub found: Seq<(PathView, u32)>,
    pub head: int,
    pub depth: u32,
}

/// The content of documents with distances.
pub open spec fn distances_view(v: Seq<(FilePath, u32)>) -> Seq<(PathView, u32)> {
    v.map_values(|e: (FilePath, u32)| (e.0@, e.1))
}

impl View for LinkWalk {
    type V = LinkWalkView;

    closed spec fn view(&self) -> LinkWalkView {
        LinkWalkView {
            found: distances_view(self.found@),
            head: self.head as int,
            depth: self.depth,
        }
    }
}

/// Whether a path is among those found.
pub open spec fn is_found(found: Seq<(PathView, u32)>, p: PathView) -> bool {
    exists|i: int| 0 <= i < found.len() && (#[trigger] found[i]).0 == p
}

/// Whether no path was found twice, and none nearer than one before it.
pub open spec fn is_found_in_order(found: Seq<(PathView, u32)>) -> bool {
    &&& forall|i: int, j: int|
        0 <= i < j < found.len() ==> (#[trigger] found[i]).0 != (#[trigger] found[j]).0
    &&& forall|i: int, j: int|
        0 <= i < j < found.len() ==> (#[trigger] found[i]).1 <= (#[trigger] found[j]).1
}

/// How far documents can have been found: one hop beyond the document that
/// was handed out last.
pub open spec fn reach(w: LinkWalkView) -> int {
    if w.head > 0 {
        w.found[w.head - 1].1 + 1
    } else {
        0
    }
}

/// Whether no path was found twice, none nearer than one before it, and none
/// farther than the depth or than what was handed out reaches.
pub open spec fn is_walk(w: LinkWalkView) -> bool {
    &&& 0 <= w.head <= w.found.len()
    &&& is_found_in_order(w.found)
    &&& forall|i: int|
        0 <= i < w.found.len() ==> (#[trigger] w.found[i]).1 <= w.depth && w.found[i].1 <= reach(w)
}

/// `found` with those of `paths` that were not there yet, at the given
/// distance.
pub open spec fn with_paths(
    found: Seq<(PathView, u32)>,
    paths: Seq<PathView>,
    distance: u32,
) -> Seq<(PathView, u32)>
    decreases paths.len(),
{
    if paths.len() == 0 {
        found
    } else {
        let before = with_paths(found, paths.drop_last(), distance);
        if is_found(before, paths.last()) {
            before
        } else {
            before.push((paths.last(), distance))
        }
    }
}

impl LinkWalk {
    #[verifier::type_invariant]
    spec fn well_formed(self) -> bool {
        is_walk(self@)
    }

    /// A walk from the given documents, following links `depth` hops deep.
    pub fn new(seeds: Vec<FilePath>, depth: u32) -> (r: LinkWalk)
        ensures
            r@ == (LinkWalkView {
                found: with_paths(Seq::empty(), paths_view(seeds@), 0),
                head: 0,
                depth,
            }),
    {
        let found: Vec<(FilePath, u32)> = Vec::new();
        assert(distances_view(found@) =~= Seq::empty());
        let mut found = found;
        add_paths(&mut found, seeds, 0);
        LinkWalk { found, head: 0, depth }
    }

    /// The next document, with its distance from the start; `None` where
    /// every document that was found has been handed out.
    pub fn next(&mut self) -> (r: Option<(FilePath, u32)>)
        ensures
            match r {
                Some((p, d)) => {
                    &&& old(self)@.head < old(self)@.found.len()
                    &&& (p@, d) == old(self)@.found[old(self)@.head]
                    &&& final(self)@.head == old(self)@.head + 1
                },
                None => old(self)@.head == old(self)@.found.len() && final(self)@.head == old(
                    self,
                )@.head,
            },
            final(self)@.found == old(self)@.found,
            final(self)@.depth == old(self)@.depth,
            is_walk(final(self)@),
    {
        proof {
            use_type_invariant(&*self);
        }
        if self.head < self.found.len() {
            let p = self.found[self.head].0.clone();
            let d = self.found[self.head].1;
            self.head = self.head + 1;
            Some((p, d))
        } else {
            None
        }
    }

    /// Add the documents that the one that was handed out last links to,
    /// unless it stands at the full depth. Those found before are not added
    /// again.
    pub fn follow(&mut self, linked: Vec<FilePath>)
        ensures
            final(self)@.found == (if old(self)@.head > 0 && reach(old(self)@)
                <= old(self)@.depth {
                with_paths(old(self)@.found, paths_view(linked@), reach(old(self)@) as u32)
            } else {
                old(self)@.found
            }),
            final(self)@.head == old(self)@.head,
            final(self)@.depth == old(self)@.depth,
            is_walk(final(self)@),
    {
        proof {
            use_type_invariant(&*self);
        }
        if self.head > 0 && self.found[self.head - 1].1 < self.depth {
            let ghost was = self@;
            assert(was.found[was.head - 1] == (self.found@[self.head - 1].0@, self.found@[self.head
                - 1].1));
            let mut taken = LinkWalk { found: Vec::new(), head: 0, depth: self.depth };
            std::mem::swap(&mut taken, self);
            proof {
                use_type_invariant(&taken);
            }
            let LinkWalk { mut found, head, depth } = taken;
            let distance: u32 = found[head - 1].1;
            let ghost all = paths_view(linked@);
            add_paths(&mut found, linked, distance + 1);
            proof {
                following_keeps_found(was.found, all, (distance + 1) as u32);
                assert(distances_view(found@)[was.head - 1] == was.found[was.head - 1]);
            }
            *self = LinkWalk { found, head, depth };
        }
    }
}

/// Whether no document that was found is farther than the distance.
pub open spec fn none_beyond(found: Seq<(PathView, u32)>, distance: u32) -> bool {
    forall|i: int| 0 <= i < found.len() ==> (#[trigger] found[i]).1 <= distance
}

fn holds(found: &Vec<(FilePath, u32)>, p: &FilePath) -> (r: bool)
    ensures
        r == is_found(distances_view(found@), p@),
{
    let ghost all = distances_view(found@);
    let mut i: usize = 0;
    while i < found.len()
        invariant
            i <= found.len(),
            all == distances_view(found@),
            forall|k: int| 0 <= k < i ==> (#[trigger] all[k]).0 != p@,
        decreases found.len() - i,
    {
        assert(all[i as int].0 == found@[i as int].0@);
        if found[i].0.same(p) {
            return true;
        }
        i += 1;
    }
    false
}

fn add_paths(found: &mut Vec<(FilePath, u32)>, paths: Vec<FilePath>, distance: u32)
    requires
        is_found_in_order(distances_view(old(found)@)),
        none_beyond(distances_view(old(found)@), distance),
    ensures
        distances_view(final(found)@) == with_paths(
            distances_view(old(found)@),
            paths_view(paths@),
            distance,
        ),
        is_found_in_order(distances_view(final(found)@)),
        none_beyond(distances_view(final(found)@), distance),
        final(found)@.len() >= old(found)@.len(),
{
    let ghost all = paths_view(paths@);
    let ghost orig = paths@;
    let ghost start = distances_view(found@);
    let mut rest = paths;
    let ghost mut done: int = 0;
    assert(orig.skip(0) =~= orig);
    assert(all.take(0) =~= Seq::empty());
    while rest.len() > 0
        invariant
            0 <= done <= orig.len(),
            all == paths_view(orig),
            rest@ == orig.skip(done),
            start == distances_view(old(found)@),
            found@.len() >= old(found)@.len(),
            is_found_in_order(distances_view(found@)),
            none_beyond(distances_view(found@), distance),
            distances_view(found@) == with_paths(start, all.take(done), distance),
        decreases rest@.len(),
    {
        assert(all.take(done + 1).drop_last() =~= all.take(done));
        assert(all.take(done + 1).last() == orig[done]@);
        assert(rest@[0] == orig[done]);
        let p = rest.remove(0);
        if !holds(found, &p) {
            let ghost was = distances_view(found@);
            let ghost q = p@;
            found.push((p, distance));
            proof {
                let now = distances_view(found@);
                assert(now =~= was.push((q, distance)));
                assert forall|i: int, j: int| 0 <= i < j < now.len() implies (#[trigger] now[i]).0
                    != (#[trigger] now[j]).0 by {
                    assert(was[i].0 != q);
                    if j < was.len() {
                        assert(was[i].0 != was[j].0);
                    }
                }
                assert forall|i: int, j: int| 0 <= i < j < now.len() implies (#[trigger] now[i]).1
                    <= (#[trigger] now[j]).1 by {
                    assert(was[i].1 <= distance);
                    if j < was.len() {
                        assert(was[i].1 <= was[j].1);
                    }
                }
            }
        }
        proof {
            done = done + 1;
            assert(rest@ =~= orig.skip(done));
        }
    }
    assert(all.take(done) =~= all);
}

/// No document is handed out twice: what is handed out next differs from all
/// that was handed out before, however the walk went on.
pub proof fn each_document_comes_once(w: LinkWalkView, i: int)
    requires
        is_walk(w),
        0 <= i < w.head < w.found.len(),
    ensures
        w.found[i].0 != w.found[w.head].0,
{
}

/// Documents come nearest first: none is handed out before one that is nearer
/// to the start.
pub proof fn nearest_come_first(w: LinkWalkView, i: int, j: int)
    requires
        is_walk(w),
        0 <= i <= j < w.found.len(),
    ensures
        w.found[i].1 <= w.found[j].1,
{
}

/// No document is handed out that is farther from the start than the depth.
pub proof fn none_is_too_far(w: LinkWalkView, i: int)
    requires
        is_walk(w),
        0 <= i < w.found.len(),
    ensures
        w.found[i].1 <= w.depth,
{
}

/// Following links keeps what was found, in place.
pub proof fn following_keeps_found(found: Seq<(PathView, u32)>, paths: Seq<PathView>, distance: u32)
    ensures
        found.is_prefix_of(with_paths(found, paths, distance)),
    decreases paths.len(),
{
    if paths.len() > 0 {
        following_keeps_found(found, paths.drop_last(), distance);
    }
}

/// Whether a path was found, no farther than `n` hops from the start.
pub open spec fn is_found_within(found: Seq<(PathView, u32)>, p: PathView, n: int) -> bool {
    exists|i: int| 0 <= i < found.len() && (#[trigger] found[i]).0 == p && found[i].1 <= n
}

/// Following links misses none: each of the paths is among those found
/// afterwards, no farther than the given distance where nothing was farther
/// before.
pub proof fn following_finds_all(
    found: Seq<(PathView, u32)>,
    paths: Seq<PathView>,
    distance: u32,
    k: int,
)
    requires
        0 <= k < paths.len(),
    ensures
        is_found(with_paths(found, paths, distance), paths[k]),
        none_beyond(found, distance) ==> is_found_within(
            with_paths(found, paths, distance),
            paths[k],
            distance as int,
        ),
    decreases paths.len(),
{
    let before = with_paths(found, paths.drop_last(), distance);
    let after = with_paths(found, paths, distance);
    following_adds_at_distance(found, paths.drop_last(), distance);
    if k < paths.len() - 1 {
        following_finds_all(found, paths.drop_last(), distance, k);
        assert(paths.drop_last()[k] == paths[k]);
        let i = choose|i: int| 0 <= i < before.len() && (#[trigger] before[i]).0 == paths[k];
        assert(after[i] == before[i]);
    } else if is_found(before, paths[k]) {
        let i = choose|i: int| 0 <= i < before.len() && (#[trigger] before[i]).0 == paths[k];
        assert(after[i] == before[i]);
    } else {
        assert(after[before.len() as int] == (paths[k], distance));
    }
}

/// What following links adds stands at the given distance.
proof fn following_adds_at_distance(
    found: Seq<(PathView, u32)>,
    paths: Seq<PathView>,
    distance: u32,
)
    ensures
        found.len() <= with_paths(found, paths, distance).len(),
        forall|i: int|
            0 <= i < with_paths(found, paths, distance).len() ==> (i < found.len() && (
            #[trigger] with_paths(found, paths, distance)[i]) == found[i]) || (i >= found.len()
                && with_paths(found, paths, distance)[i].1 == distance && paths.contains(
                with_paths(found, paths, distance)[i].0,
            )),
    decreases paths.len(),
{
    if paths.len() > 0 {
        let f = paths.drop_last();
        following_adds_at_distance(found, f, distance);
        let before = with_paths(found, f, distance);
        let after = with_paths(found, paths, distance);
        assert forall|i: int| found.len() <= i < after.len() implies (#[trigger] after[i]).1
            == distance && paths.contains(after[i].0) by {
            if i < before.len() {
                assert(after[i] == before[i]);
                assert(f.contains(before[i].0));
                let k = choose|k: int| 0 <= k < f.len() && f[k] == before[i].0;
                assert(paths[k] == before[i].0);
            } else {
                assert(paths[paths.len() - 1] == after[i].0);
            }
        }
    }
}

/// Whether `p` can be had from one of `seeds` by following at most `n` links,
/// where a document at `q` links to `links(q)`.
pub open spec fn can_be_reached(
    links: spec_fn(PathView) -> Seq<PathView>,
    seeds: Seq<PathView>,
    p: PathView,
    n: nat,
) -> bool
    decreases n,
{
    if n == 0 {
        seeds.contains(p)
    } else {
        ||| can_be_reached(links, seeds, p, (n - 1) as nat)
        ||| exists|q: PathView|
            can_be_reached(links, seeds, q, (n - 1) as nat) && #[trigger] links(q).contains(p)
    }
}

/// Whether the walk found all that the first `n` documents link to, but for
/// those at the full depth.
pub open spec fn is_followed(
    w: LinkWalkView,
    links: spec_fn(PathView) -> Seq<PathView>,
    n: int,
) -> bool {
    forall|i: int, p: PathView|
        0 <= i < n && (#[trigger] w.found[i]).1 < w.depth && #[trigger] links(
            w.found[i].0,
        ).contains(p) ==> is_found_within(w.found, p, w.found[i].1 + 1)
}

/// A walk starts with each of its seeds, at no distance, and with nothing
/// followed yet.
pub proof fn seeds_are_found(
    seeds: Seq<PathView>,
    depth: u32,
    links: spec_fn(PathView) -> Seq<PathView>,
)
    ensures
        ({
            let w = LinkWalkView { found: with_paths(Seq::empty(), seeds, 0), head: 0, depth };
            &&& forall|p: PathView| #[trigger] seeds.contains(p) ==> is_found_within(w.found, p, 0)
            &&& is_followed(w, links, w.head)
        }),
{
    let found = with_paths(Seq::empty(), seeds, 0);
    assert forall|p: PathView| #[trigger] seeds.contains(p) implies is_found_within(
        found,
        p,
        0,
    ) by {
        let k = choose|k: int| 0 <= k < seeds.len() && seeds[k] == p;
        following_finds_all(Seq::empty(), seeds, 0, k);
    }
}

/// Following the links of the document that was handed out last leaves
/// nothing unfollowed, where all before it were followed; what was found
/// stays found.
pub proof fn following_leaves_nothing(
    w: LinkWalkView,
    v: LinkWalkView,
    links: spec_fn(PathView) -> Seq<PathView>,
)
    requires
        is_walk(w),
        w.head > 0,
        is_followed(w, links, w.head - 1),
        v.found == (if reach(w) <= w.depth {
            with_paths(w.found, links(w.found[w.head - 1].0), reach(w) as u32)
        } else {
            w.found
        }),
        v.head == w.head,
        v.depth == w.depth,
    ensures
        is_followed(v, links, v.head),
        forall|p: PathView, n: int|
            is_found_within(w.found, p, n) ==> #[trigger] is_found_within(v.found, p, n),
{
    let last = w.found[w.head - 1];
    let next = links(last.0);
    if reach(w) <= w.depth {
        following_keeps_found(w.found, next, reach(w) as u32);
        assert(none_beyond(w.found, reach(w) as u32));
        assert forall|k: int| 0 <= k < next.len() implies is_found_within(
            v.found,
            #[trigger] next[k],
            reach(w),
        ) by {
            following_finds_all(w.found, next, reach(w) as u32, k);
        }
    }
    assert forall|i: int| 0 <= i < w.found.len() implies #[trigger] v.found[i] == w.found[i] by {}
    assert forall|p: PathView, n: int|
        is_found_within(w.found, p, n) implies #[trigger] is_found_within(v.found, p, n) by {
        let i = choose|i: int|
            0 <= i < w.found.len() && (#[trigger] w.found[i]).0 == p && w.found[i].1 <= n;
        assert(v.found[i] == w.found[i]);
    }
    assert forall|i: int, p: PathView|
        0 <= i < v.head && (#[trigger] v.found[i]).1 < v.depth && #[trigger] links(
            v.found[i].0,
        ).contains(p) implies is_found_within(v.found, p, v.found[i].1 + 1) by {
        assert(v.found[i] == w.found[i]);
        if i < w.head - 1 {
            assert(is_found_within(w.found, p, w.found[i].1 + 1));
        } else {
            let k = choose|k: int| 0 <= k < next.len() && next[k] == p;
            assert(is_found_within(v.found, next[k], reach(w)));
        }
    }
}

/// Nothing within the depth is missed: once every document that was found
/// has been handed out and followed, each document that can be had from the
/// start by at most `n` links, `n` within the depth, is among them, no
/// farther than `n` hops from the start.
pub proof fn nothing_is_missed(
    w: LinkWalkView,
    links: spec_fn(PathView) -> Seq<PathView>,
    seeds: Seq<PathView>,
    p: PathView,
    n: nat,
)
    requires
        w.head == w.found.len(),
        forall|q: PathView| #[trigger] seeds.contains(q) ==> is_found_within(w.found, q, 0),
        is_followed(w, links, w.head),
        n <= w.depth,
        can_be_reached(links, seeds, p, n),
    ensures
        exists|i: int|
            0 <= i < w.head && (#[trigger] w.found[i]).0 == p && w.found[i].1 <= n,
    decreases n,
{
    if n == 0 {
        assert(is_found_within(w.found, p, 0));
    } else if can_be_reached(links, seeds, p, (n - 1) as nat) {
        nothing_is_missed(w, links, seeds, p, (n - 1) as nat);
    } else {
        let q = choose|q: PathView|
            can_be_reached(links, seeds, q, (n - 1) as nat) && #[trigger] links(q).contains(p);
        nothing_is_missed(w, links, seeds, q, (n - 1) as nat);
        let i = choose|i: int|
            0 <= i < w.head && (#[trigger] w.found[i]).0 == q && w.found[i].1 <= n - 1;
        assert(links(w.found[i].0).contains(p));
        assert(is_found_within(w.found, p, w.found[i].1 + 1));
    }
}

/// The markdown files that URLs of the document at `source` point at.
pub open spec fn linked_files(urls: Seq<Seq<char>>, source: PathView) -> Seq<PathView>
    decreases urls.len(),
{
    if urls.len() == 0 {
        Seq::empty()
    } else {
        let before = linked_files(urls.drop_last(), source);
        match link_target(urls.last(), source) {
            Some(t) => if names_markdown(t) {
                before.push(t)
            } else {
                before
            },
            None => before,
        }
    }
}

/// The markdown files that URLs of the document at `source` point at, in
/// order. Whether they exist is not asked.
pub fn linked_markdown(urls: &Vec<String>, source: &FilePath) -> (r: Vec<FilePath>)
    ensures
        paths_view(r@) == linked_files(texts(urls@), source@),
{
    let ghost all = texts(urls@);
    let mut out: Vec<FilePath> = Vec::new();
    let mut i: usize = 0;
    assert(paths_view(out@) =~= linked_files(all.take(0), source@));
    while i < urls.len()
        invariant
            i <= urls.len(),
            all == texts(urls@),
            paths_view(out@) == linked_files(all.take(i as int), source@),
        decreases urls.len() - i,
    {
        assert(all.take(i + 1).drop_last() =~= all.take(i as int));
        assert(all.take(i + 1).last() == urls@[i as int]@);
        if let Some(t) = resolve_link_path(urls[i].as_str(), source) {
            if is_markdown(&t) {
                let ghost was = out@;
                out.push(t);
                assert(paths_view(out@) =~= paths_view(was).push(t@));
            }
        }
        i += 1;
    }
    assert(all.take(all.len() as int) =~= all);
    out
}

/// The files that a document leads to are the markdown files that its URLs
/// point at, all of them and no others.
pub proof fn every_linked_file_is_followed(
    urls: Seq<Seq<char>>,
    source: PathView,
    p: PathView,
)
    ensures
        linked_files(urls, source).contains(p) <==> names_markdown(p) && exists|i: int|
            0 <= i < urls.len() && link_target(#[trigger] urls[i], source) == Some(p),
    decreases urls.len(),
{
    if urls.len() > 0 {
        let f = urls.drop_last();
        let n = urls.len() - 1;
        let before = linked_files(f, source);
        let all = linked_files(urls, source);
        every_linked_file_is_followed(f, source, p);
        if before.contains(p) {
            let k = choose|k: int| 0 <= k < before.len() && before[k] == p;
            assert(all[k] == p);
            let i = choose|i: int|
                0 <= i < f.len() && link_target(#[trigger] f[i], source) == Some(p);
            assert(urls[i] == f[i]);
        }
        if all.contains(p) {
            let k = choose|k: int| 0 <= k < all.len() && all[k] == p;
            if k < before.len() {
                assert(before[k] == p);
            } else {
                assert(link_target(urls[n], source) == Some(p));
            }
        }
        if names_markdown(p) && exists|i: int|
            0 <= i < urls.len() && link_target(#[trigger] urls[i], source) == Some(p) {
            let i = choose|i: int|
                0 <= i < urls.len() && link_target(#[trigger] urls[i], source) == Some(p);
            if i < n {
                assert(f[i] == urls[i]);
            } else {
                assert(all[before.len() as int] == p);
            }
        }
    }
}

} // verus!
