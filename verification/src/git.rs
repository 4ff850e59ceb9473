//! The paths that a repository's head tracks.

use crate::path::{
    a_path_reads_back, holds_path, joined_path, path_of, path_text, paths_view, FilePath, PathView,
};
use vstd::prelude::*;

verus! {

/// The paths HEAD tracks, split into files and the directories holding them.
///
/// Both hold absolute paths, each once. `dirs` always contains the repository
/// root itself.
#[derive(Debug)]
pub struct GitTree {
    /// Every blob in HEAD.
    pub files: Vec<FilePath>,
    /// Every tree in HEAD, plus the repository root.
    pub dirs: Vec<FilePath>,
}

/// What stands in a tree.
#[derive(Debug, Clone, Copy, PartialEq, Eq, Structural)]
pub enum EntryKind {
    Blob,
    Tree,
    Other,
}

/// The path of an entry: `dir` is empty or ends in a separator.
pub open spec fn entry_path(root: PathView, dir: Seq<char>, name: Seq<char>) -> PathView {
    joined_path(root, path_of(dir + name))
}

/// `v` with `p`, unless it is there.
pub open spec fn with_one(v: Seq<PathView>, p: PathView) -> Seq<PathView> {
    if v.contains(p) {
        v
    } else {
        v.push(p)
    }
}

fn add_one(v: &mut Vec<FilePath>, p: FilePath)
    ensures
        paths_view(final(v)@) == with_one(paths_view(old(v)@), p@),
{
    if !holds_path(v, &p) {
        let ghost was = v@;
        v.push(p);
        assert(paths_view(v@) =~= paths_view(was).push(p@));
    }
}

impl GitTree {
    /// The tree of a repository of which nothing but the root is known.
    pub fn new(root: &FilePath) -> (r: GitTree)
        ensures
            paths_view(r.files@) == Seq::<PathView>::empty(),
            paths_view(r.dirs@) == seq![root@],
    {
        let mut dirs: Vec<FilePath> = Vec::new();
        dirs.push(root.clone());
        let r = GitTree { files: Vec::new(), dirs };
        assert(paths_view(r.files@) =~= Seq::empty());
        assert(paths_view(r.dirs@) =~= seq![root@]);
        r
    }

    /// Record an entry of the tree.
    pub fn record(&mut self, root: &FilePath, dir: &str, name: &str, kind: EntryKind)
        ensures
            paths_view(final(self).files@) == (if kind == EntryKind::Blob {
                with_one(paths_view(old(self).files@), entry_path(root@, dir@, name@))
            } else {
                paths_view(old(self).files@)
            }),
            paths_view(final(self).dirs@) == (if kind == EntryKind::Tree {
                with_one(paths_view(old(self).dirs@), entry_path(root@, dir@, name@))
            } else {
                paths_view(old(self).dirs@)
            }),
    {
        let mut rel = String::from_str(dir);
        rel.append(name);
        let p = root.join(&FilePath::parse(rel.as_str()));
        match kind {
            EntryKind::Blob => add_one(&mut self.files, p),
            EntryKind::Tree => add_one(&mut self.dirs, p),
            EntryKind::Other => {},
        }
    }
}

/// Recording keeps what was recorded, so `dirs` always contains the
/// repository root, and records no path twice.
pub proof fn recorded_stays(v: Seq<PathView>, p: PathView)
    requires
        v.no_duplicates(),
    ensures
        v.is_prefix_of(with_one(v, p)),
        with_one(v, p).contains(p),
        with_one(v, p).no_duplicates(),
{
    if !v.contains(p) {
        assert(v.push(p)[v.len() as int] == p);
    }
}

/// An entry stands where the repository root, its directory and its name
/// lead, wherever the text is parted into directory and name.
pub proof fn an_entry_stands_in_the_repository(
    root: PathView,
    dir: Seq<char>,
    name: Seq<char>,
    p: PathView,
)
    requires
        dir + name == path_text(p),
        !p.absolute,
        p.parts.len() > 0,
        forall|i: int|
            0 <= i < p.parts.len() ==> (#[trigger] p.parts[i]).len() > 0 && !p.parts[i].contains(
                '/',
            ) && p.parts[i] != "."@,
    ensures
        entry_path(root, dir, name).absolute == root.absolute,
        entry_path(root, dir, name).parts == root.parts + p.parts,
{
    a_path_reads_back(p);
    assert(p.parts[0] != "."@);
}

} // verus!
