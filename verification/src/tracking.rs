//! Files that a recorded branch depends on, and whether they have changed.

use vstd::prelude::*;

use crate::order::{rank, sort_unique, sorted_set, total_preorder, views, Ranked};
use crate::path::{
    is_absolute, join, join_undoes_strip_prefix, path_le, path_le_is_total_preorder, same_path,
    strip_prefix,
};
use crate::path_buf::PathBuf;

verus! {

/// What a tracked path is relative to.
#[derive(Clone, Copy, Debug, PartialEq, Eq, Structural)]
pub enum TrackedRoot {
    Package,
    Build,
    Absolute,
}

/// What is remembered of a file to see whether it changes.
#[derive(Clone, Copy, Debug, PartialEq, Eq, Structural)]
pub struct FileStamp {
    pub len: u64,
    pub modified_secs: u64,
    pub modified_nanos: u32,
}

/// A file with what was remembered of it; nothing where it was not there.
#[derive(Debug)]
pub struct TrackedPath {
    pub root: TrackedRoot,
    pub path: PathBuf,
    pub stamp: Option<FileStamp>,
}

/// A tracked file.
#[verifier::ext_equal]
pub struct TrackedModel {
    pub root: TrackedRoot,
    pub path: Seq<u8>,
    pub stamp: Option<FileStamp>,
}

impl View for TrackedPath {
    type V = TrackedModel;

    open spec fn view(&self) -> TrackedModel {
        TrackedModel { root: self.root, path: self.path@, stamp: self.stamp }
    }
}

impl Clone for TrackedPath {
    fn clone(&self) -> (r: Self)
        ensures
            r@ == self@,
    {
        TrackedPath { root: self.root, path: self.path.clone(), stamp: self.stamp }
    }
}

/// The order of the roots.
pub open spec fn root_rank(root: TrackedRoot) -> int {
    match root {
        TrackedRoot::Package => 0,
        TrackedRoot::Build => 1,
        TrackedRoot::Absolute => 2,
    }
}

/// The order of stamps: a missing file first, and others by their fields.
pub open spec fn stamp_le(a: Option<FileStamp>, b: Option<FileStamp>) -> bool {
    match (a, b) {
        (None, _) => true,
        (Some(_), None) => false,
        (Some(x), Some(y)) => x.len < y.len || (x.len == y.len && (x.modified_secs
            < y.modified_secs || (x.modified_secs == y.modified_secs && x.modified_nanos
            <= y.modified_nanos))),
    }
}

/// The order of tracked files: by root, by path, and by stamp.
pub open spec fn tracked_le(a: TrackedModel, b: TrackedModel) -> bool {
    root_rank(a.root) < root_rank(b.root) || (a.root == b.root && if same_path(a.path, b.path) {
        stamp_le(a.stamp, b.stamp)
    } else {
        path_le(a.path, b.path)
    })
}

/// Tracked files are ordered, and those tie that are the same file with the same
/// stamp.
pub proof fn tracked_le_is_total_preorder()
    ensures
        total_preorder(|a: TrackedModel, b: TrackedModel| tracked_le(a, b)),
        forall|a: TrackedModel, b: TrackedModel|
            (#[trigger] tracked_le(a, b) && tracked_le(b, a)) <==> a.root == b.root && same_path(
                a.path,
                b.path,
            ) && a.stamp == b.stamp,
{
    path_le_is_total_preorder();
    let by_path = |p: Seq<u8>, q: Seq<u8>| path_le(p, q);
    let le = |a: TrackedModel, b: TrackedModel| tracked_le(a, b);
    assert forall|a: TrackedModel, b: TrackedModel| #[trigger] le(a, b) || le(b, a) by {
        assert(by_path(a.path, b.path) || by_path(b.path, a.path));
        assert((path_le(a.path, b.path) && path_le(b.path, a.path)) <==> same_path(a.path, b.path));
    }
    assert forall|a: TrackedModel, b: TrackedModel, c: TrackedModel| #[trigger]
        le(a, b) && #[trigger] le(b, c) implies le(a, c) by {
        assert((path_le(a.path, b.path) && path_le(b.path, a.path)) <==> same_path(a.path, b.path));
        assert((path_le(b.path, c.path) && path_le(c.path, b.path)) <==> same_path(b.path, c.path));
        assert((path_le(a.path, c.path) && path_le(c.path, a.path)) <==> same_path(a.path, c.path));
        if a.root == b.root && b.root == c.root {
            if path_le(a.path, b.path) && path_le(b.path, c.path) {
                assert(by_path(a.path, b.path) && by_path(b.path, c.path));
                assert(by_path(a.path, c.path));
                if same_path(a.path, c.path) && !same_path(a.path, b.path) {
                    assert(by_path(c.path, a.path) && by_path(b.path, c.path));
                    assert(by_path(b.path, a.path));
                }
            }
        }
    }
    assert forall|a: TrackedModel, b: TrackedModel|
        (#[trigger] tracked_le(a, b) && tracked_le(b, a)) <==> a.root == b.root && same_path(
            a.path,
            b.path,
        ) && a.stamp == b.stamp by {
        assert((path_le(a.path, b.path) && path_le(b.path, a.path)) <==> same_path(a.path, b.path));
    }
}

fn rank_of_root(root: TrackedRoot) -> (r: u8)
    ensures
        r == root_rank(root),
{
    match root {
        TrackedRoot::Package => 0,
        TrackedRoot::Build => 1,
        TrackedRoot::Absolute => 2,
    }
}

fn stamp_at_most(a: &Option<FileStamp>, b: &Option<FileStamp>) -> (r: bool)
    ensures
        r == stamp_le(*a, *b),
{
    match (a, b) {
        (None, _) => true,
        (Some(_), None) => false,
        (Some(x), Some(y)) => x.len < y.len || (x.len == y.len && (x.modified_secs
            < y.modified_secs || (x.modified_secs == y.modified_secs && x.modified_nanos
            <= y.modified_nanos))),
    }
}

impl Ranked for TrackedPath {
    open spec fn rank_le(a: TrackedModel, b: TrackedModel) -> bool {
        tracked_le(a, b)
    }

    fn at_most(&self, other: &Self) -> (r: bool) {
        let mine: u8 = rank_of_root(self.root);
        let theirs: u8 = rank_of_root(other.root);
        if mine != theirs {
            mine < theirs
        } else if self.path.is_same(&other.path) {
            stamp_at_most(&self.stamp, &other.stamp)
        } else {
            self.path.at_most(&other.path)
        }
    }
}

/// What was seen of a file; nothing where it is not there.
pub struct ObservedFile {
    pub path: PathBuf,
    pub stamp: Option<FileStamp>,
}

impl View for ObservedFile {
    type V = (Seq<u8>, Option<FileStamp>);

    open spec fn view(&self) -> (Seq<u8>, Option<FileStamp>) {
        (self.path@, self.stamp)
    }
}

/// What was seen of the file at `p`.
pub open spec fn stamp_at(seen: Seq<(Seq<u8>, Option<FileStamp>)>, p: Seq<u8>) -> Option<FileStamp>
    decreases seen.len(),
{
    if seen.len() == 0 {
        None
    } else if same_path(seen[0].0, p) {
        seen[0].1
    } else {
        stamp_at(seen.skip(1), p)
    }
}

/// What was seen of a file does not depend on how its path is spelled.
pub proof fn stamp_at_ignores_spelling(
    seen: Seq<(Seq<u8>, Option<FileStamp>)>,
    p: Seq<u8>,
    q: Seq<u8>,
)
    requires
        same_path(p, q),
    ensures
        stamp_at(seen, p) == stamp_at(seen, q),
    decreases seen.len(),
{
    if seen.len() > 0 {
        stamp_at_ignores_spelling(seen.skip(1), p, q);
    }
}

/// What was seen of the file at `path`.
pub fn file_stamp(seen: &Vec<ObservedFile>, path: &PathBuf) -> (r: Option<FileStamp>)
    ensures
        r == stamp_at(views(seen@), path@),
{
    let ghost all = views(seen@);
    let mut i: usize = 0;
    assert(all.skip(0) =~= all);
    while i < seen.len()
        invariant
            i <= seen@.len(),
            all == views(seen@),
            stamp_at(all, path@) == stamp_at(all.skip(i as int), path@),
        decreases seen@.len() - i,
    {
        proof {
            assert(all.skip(i as int).skip(1) =~= all.skip(i + 1));
            assert(all.skip(i as int)[0] == seen@[i as int]@);
        }
        if seen[i].path.is_same(path) {
            return seen[i].stamp;
        }
        i = i + 1;
    }
    None
}

/// Where a tracked file is.
pub open spec fn resolved(t: TrackedModel, package_root: Seq<u8>, build_root: Seq<u8>) -> Seq<u8> {
    match t.root {
        TrackedRoot::Package => join(package_root, t.path),
        TrackedRoot::Build => join(build_root, t.path),
        TrackedRoot::Absolute => t.path,
    }
}

/// The file is not as it was remembered.
pub open spec fn has_changed(
    t: TrackedModel,
    package_root: Seq<u8>,
    build_root: Seq<u8>,
    seen: Seq<(Seq<u8>, Option<FileStamp>)>,
) -> bool {
    t.stamp != stamp_at(seen, resolved(t, package_root, build_root))
}

/// Where a path that a compilation depends on is: below the package, unless it
/// is absolute.
pub open spec fn located(path: Seq<u8>, package_root: Seq<u8>) -> Seq<u8> {
    if is_absolute(path) {
        path
    } else {
        join(package_root, path)
    }
}

/// How a path is tracked: relative to the package or else to the build root,
/// where it lies in one of them.
pub open spec fn tracked_file(
    path: Seq<u8>,
    package_root: Seq<u8>,
    build_root: Seq<u8>,
    seen: Seq<(Seq<u8>, Option<FileStamp>)>,
) -> TrackedModel {
    let absolute = located(path, package_root);
    let stamp = stamp_at(seen, absolute);
    match strip_prefix(absolute, package_root) {
        Some(rest) => TrackedModel { root: TrackedRoot::Package, path: rest, stamp },
        None => match strip_prefix(absolute, build_root) {
            Some(rest) => TrackedModel { root: TrackedRoot::Build, path: rest, stamp },
            None => TrackedModel { root: TrackedRoot::Absolute, path: absolute, stamp },
        },
    }
}

/// A tracked path resolves to the file it was made from, which has not changed
/// as long as the same is seen of it.
pub proof fn tracking_keeps_the_file(
    path: Seq<u8>,
    package_root: Seq<u8>,
    build_root: Seq<u8>,
    seen: Seq<(Seq<u8>, Option<FileStamp>)>,
)
    ensures
        ({
            let t = tracked_file(path, package_root, build_root, seen);
            &&& same_path(resolved(t, package_root, build_root), located(path, package_root))
            &&& !has_changed(t, package_root, build_root, seen)
        }),
{
    let absolute = located(path, package_root);
    let t = tracked_file(path, package_root, build_root, seen);
    if strip_prefix(absolute, package_root) is Some {
        join_undoes_strip_prefix(absolute, package_root);
    } else if strip_prefix(absolute, build_root) is Some {
        join_undoes_strip_prefix(absolute, build_root);
    }
    stamp_at_ignores_spelling(seen, resolved(t, package_root, build_root), absolute);
}

impl TrackedPath {
    /// Where the file is.
    pub fn resolve(&self, package_root: &PathBuf, build_root: &PathBuf) -> (r: PathBuf)
        ensures
            r@ == resolved(self@, package_root@, build_root@),
    {
        match self.root {
            TrackedRoot::Package => package_root.join(&self.path),
            TrackedRoot::Build => build_root.join(&self.path),
            TrackedRoot::Absolute => self.path.clone(),
        }
    }

    /// Whether the file is not as it was remembered.
    pub fn is_stale(&self, package_root: &PathBuf, build_root: &PathBuf, seen: &Vec<ObservedFile>) -> (r:
        bool)
        ensures
            r == has_changed(self@, package_root@, build_root@, views(seen@)),
    {
        let now = file_stamp(seen, &self.resolve(package_root, build_root));
        match (self.stamp, now) {
            (None, None) => false,
            (Some(a), Some(b)) => a != b,
            _ => true,
        }
    }
}

/// Where a path that a compilation depends on is.
pub fn locate(path: &PathBuf, package_root: &PathBuf) -> (r: PathBuf)
    ensures
        r@ == located(path@, package_root@),
{
    if path.is_absolute() {
        path.clone()
    } else {
        package_root.join(path)
    }
}

/// Tracks a path, with what is seen of the file now.
pub fn track(
    path: &PathBuf,
    package_root: &PathBuf,
    build_root: &PathBuf,
    seen: &Vec<ObservedFile>,
) -> (r: TrackedPath)
    ensures
        r@ == tracked_file(path@, package_root@, build_root@, views(seen@)),
{
    let absolute = locate(path, package_root);
    let stamp = file_stamp(seen, &absolute);
    match absolute.strip_prefix(package_root) {
        Some(rest) => TrackedPath { root: TrackedRoot::Package, path: rest, stamp },
        None => match absolute.strip_prefix(build_root) {
            Some(rest) => TrackedPath { root: TrackedRoot::Build, path: rest, stamp },
            None => TrackedPath { root: TrackedRoot::Absolute, path: absolute, stamp },
        },
    }
}

/// Each path tracked.
pub open spec fn tracked_each(
    paths: Seq<Seq<u8>>,
    package_root: Seq<u8>,
    build_root: Seq<u8>,
    seen: Seq<(Seq<u8>, Option<FileStamp>)>,
) -> Seq<TrackedModel> {
    Seq::new(paths.len(), |i: int| tracked_file(paths[i], package_root, build_root, seen))
}

/// The tracked files of a branch: each once, in order.
pub open spec fn tracked_set(
    paths: Seq<Seq<u8>>,
    package_root: Seq<u8>,
    build_root: Seq<u8>,
    seen: Seq<(Seq<u8>, Option<FileStamp>)>,
) -> Seq<TrackedModel> {
    sorted_set(
        tracked_each(paths, package_root, build_root, seen),
        |a: TrackedModel, b: TrackedModel| tracked_le(a, b),
    )
}

/// Tracks a list of paths: each file once, in order.
pub fn track_all(
    paths: &Vec<PathBuf>,
    package_root: &PathBuf,
    build_root: &PathBuf,
    seen: &Vec<ObservedFile>,
) -> (r: Vec<TrackedPath>)
    ensures
        views(r@) == tracked_set(views(paths@), package_root@, build_root@, views(seen@)),
{
    let mut all: Vec<TrackedPath> = Vec::new();
    let mut i: usize = 0;
    while i < paths.len()
        invariant
            i <= paths@.len(),
            all@.len() == i,
            forall|k: int|
                0 <= k < i ==> (#[trigger] all@[k])@ == tracked_file(
                    paths@[k]@,
                    package_root@,
                    build_root@,
                    views(seen@),
                ),
        decreases paths@.len() - i,
    {
        all.push(track(&paths[i], package_root, build_root, seen));
        i = i + 1;
    }
    proof {
        assert(views(all@) =~= tracked_each(
            views(paths@),
            package_root@,
            build_root@,
            views(seen@),
        ));
        assert(rank::<TrackedPath>() =~= (|a: TrackedModel, b: TrackedModel| tracked_le(a, b)));
    }
    sort_unique(all)
}

} // verus!
