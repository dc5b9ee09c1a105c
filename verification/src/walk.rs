//! Walking a directory tree for record files, and adding up file sizes.

use vstd::prelude::*;
use vstd::utf8::{encode_utf8, is_ascii_chars_encode_utf8};

use crate::order::{rank, sort_ranked, stable_sort, stable_sort_is_permutation, views};
use crate::path::{
    extension, extension_behind_last_dot, file_name, join, joined_name_is_file_name, path_le,
    stem_of_name, DOT, SEPARATOR,
};
use crate::path_buf::PathBuf;
use crate::reach::{reachable, reached_is_in_closed_set, start_is_reached, successor_is_reached};

verus! {

/// The sum of a list of numbers.
pub open spec fn sum(s: Seq<u64>) -> nat
    decreases s.len(),
{
    if s.len() == 0 {
        0
    } else {
        sum(s.drop_last()) + s.last() as nat
    }
}

/// A number, or the largest that fits where it is larger.
pub open spec fn capped(n: nat) -> u64 {
    if n > u64::MAX {
        u64::MAX
    } else {
        n as u64
    }
}

/// A sum is at least the sum of its first terms.
pub proof fn sum_grows(s: Seq<u64>, n: int)
    requires
        0 <= n <= s.len(),
    ensures
        sum(s.take(n)) <= sum(s),
    decreases s.len() - n,
{
    if n < s.len() {
        sum_grows(s, n + 1);
        assert(s.take(n + 1).drop_last() =~= s.take(n));
    } else {
        assert(s.take(n) =~= s);
    }
}

/// The total of the sizes measured for the parts of one output.
pub fn output_size(sizes: &Vec<u64>) -> (r: u64)
    ensures
        r == capped(sum(sizes@)),
{
    let mut total: u64 = 0;
    let mut i: usize = 0;
    while i < sizes.len()
        invariant
            i <= sizes@.len(),
            total == capped(sum(sizes@.take(i as int))),
        decreases sizes@.len() - i,
    {
        assert(sizes@.take(i + 1).drop_last() =~= sizes@.take(i as int));
        total = total.saturating_add(sizes[i]);
        i = i + 1;
    }
    assert(sizes@.take(i as int) =~= sizes@);
    total
}

/// An entry met while walking a directory: whether it is a file, and its length.
#[derive(Clone, Copy, Debug)]
pub struct Entry {
    pub is_file: bool,
    pub len: u64,
}

/// The lengths of those entries that are files.
pub open spec fn file_lengths(entries: Seq<Entry>) -> Seq<u64>
    decreases entries.len(),
{
    if entries.len() == 0 {
        Seq::empty()
    } else if entries.last().is_file {
        file_lengths(entries.drop_last()).push(entries.last().len)
    } else {
        file_lengths(entries.drop_last())
    }
}

/// What stands at a path.
#[derive(Debug)]
pub enum PathNode {
    /// There is nothing.
    Missing,
    /// Something that is no directory, of this length.
    Leaf { len: u64 },
    /// A directory, with the entries of its tree.
    Directory { entries: Vec<Entry> },
}

/// The size of what stands at a path: that of a directory is the total length of
/// the files in its tree.
pub open spec fn node_size(node: PathNode) -> u64 {
    match node {
        PathNode::Missing => 0,
        PathNode::Leaf { len } => len,
        PathNode::Directory { entries } => capped(sum(file_lengths(entries@))),
    }
}

/// The size of what stands at a path.
pub fn path_size(node: &PathNode) -> (r: u64)
    ensures
        r == node_size(*node),
{
    match node {
        PathNode::Missing => 0,
        PathNode::Leaf { len } => *len,
        PathNode::Directory { entries } => tree_size(entries),
    }
}

fn tree_size(entries: &Vec<Entry>) -> (r: u64)
    ensures
        r == capped(sum(file_lengths(entries@))),
{
    let mut total: u64 = 0;
    let mut i: usize = 0;
    while i < entries.len()
        invariant
            i <= entries@.len(),
            total == capped(sum(file_lengths(entries@.take(i as int)))),
        decreases entries@.len() - i,
    {
        proof {
            let before = file_lengths(entries@.take(i as int));
            assert(entries@.take(i + 1).drop_last() =~= entries@.take(i as int));
            assert(before.push(entries@[i as int].len).drop_last() =~= before);
        }
        if entries[i].is_file {
            total = total.saturating_add(entries[i].len);
        }
        i = i + 1;
    }
    assert(entries@.take(i as int) =~= entries@);
    total
}

/// An entry of one directory.
pub struct DirEntry {
    pub path: PathBuf,
    pub is_dir: bool,
}

impl View for DirEntry {
    type V = (Seq<u8>, bool);

    open spec fn view(&self) -> (Seq<u8>, bool) {
        (self.path@, self.is_dir)
    }
}

/// The directories among the entries of a directory.
pub open spec fn directories(entries: Seq<(Seq<u8>, bool)>) -> Seq<Seq<u8>>
    decreases entries.len(),
{
    if entries.len() == 0 {
        Seq::empty()
    } else if entries.last().1 {
        directories(entries.drop_last()).push(entries.last().0)
    } else {
        directories(entries.drop_last())
    }
}

/// A path whose file name ends in `.json`.
pub open spec fn is_json(p: Seq<u8>) -> bool {
    extension(p) == Some(encode_utf8("json"@))
}

proof fn lemma_json_suffix()
    ensures
        encode_utf8(".json"@) == seq![DOT] + encode_utf8("json"@),
        encode_utf8("json"@) == seq![106u8, 115u8, 111u8, 110u8],
{
    reveal_strlit(".json");
    reveal_strlit("json");
    is_ascii_chars_encode_utf8(".json"@);
    is_ascii_chars_encode_utf8("json"@);
    assert(encode_utf8("json"@) =~= seq![106u8, 115u8, 111u8, 110u8]);
    assert(encode_utf8(".json"@) =~= seq![DOT] + encode_utf8("json"@));
}

/// A file in a directory whose name is a stem and `.json` is a record file with
/// that stem.
pub proof fn json_name_is_json(directory: Seq<u8>, stem: Seq<u8>)
    requires
        stem.len() > 0,
        forall|i: int| 0 <= i < stem.len() ==> #[trigger] stem[i] != SEPARATOR,
    ensures
        ({
            let name = stem + encode_utf8(".json"@);
            &&& file_name(join(directory, name)) == Some(name)
            &&& is_json(join(directory, name))
            &&& stem_of_name(name) == stem
        }),
{
    let name = stem + encode_utf8(".json"@);
    let ext = encode_utf8("json"@);
    lemma_json_suffix();
    assert(name =~= stem + seq![DOT] + ext);
    assert forall|i: int| 0 <= i < name.len() implies #[trigger] name[i] != SEPARATOR by {
        if i < stem.len() {
            assert(name[i] == stem[i]);
        } else if i > stem.len() {
            assert(name[i] == ext[i - stem.len() - 1]);
        }
    }
    assert(name.len() > 2);
    assert(seq![DOT].len() == 1 && seq![DOT, DOT].len() == 2);
    joined_name_is_file_name(directory, name);
    extension_behind_last_dot(stem, ext);
}

/// The record files among the entries of a directory.
pub open spec fn json_entries(entries: Seq<(Seq<u8>, bool)>) -> Seq<Seq<u8>>
    decreases entries.len(),
{
    if entries.len() == 0 {
        Seq::empty()
    } else if !entries.last().1 && is_json(entries.last().0) {
        json_entries(entries.drop_last()).push(entries.last().0)
    } else {
        json_entries(entries.drop_last())
    }
}

/// Finds the record files in a directory tree. The caller lists the
/// directories that are asked for.
pub struct JsonFiles {
    pending: Vec<PathBuf>,
    found: Vec<PathBuf>,
}

impl JsonFiles {
    /// The directories that are still to be listed.
    pub closed spec fn pending(&self) -> Seq<Seq<u8>> {
        views(self.pending@)
    }

    /// The record files met so far.
    pub closed spec fn found(&self) -> Seq<Seq<u8>> {
        views(self.found@)
    }

    /// A walk of the tree at `root`.
    pub fn new(root: &PathBuf) -> (r: Self)
        ensures
            r.pending() == seq![root@],
            r.found() == Seq::<Seq<u8>>::empty(),
    {
        let mut pending: Vec<PathBuf> = Vec::new();
        pending.push(root.clone());
        let found: Vec<PathBuf> = Vec::new();
        assert(views(pending@) =~= seq![root@]);
        assert(views(found@) =~= Seq::<Seq<u8>>::empty());
        JsonFiles { pending, found }
    }

    /// The next directory to list.
    pub fn next_directory(&mut self) -> (r: Option<PathBuf>)
        ensures
            r is Some <==> old(self).pending().len() > 0,
            r matches Some(dir) ==> dir@ == old(self).pending().last() && final(self).pending()
                == old(self).pending().drop_last(),
            r is None ==> final(self).pending() == old(self).pending(),
            final(self).found() == old(self).found(),
    {
        let ghost before = self.pending@;
        let r = self.pending.pop();
        proof {
            if before.len() > 0 {
                assert(views(before.drop_last()) =~= views(before).drop_last());
            }
        }
        r
    }

    /// Takes in the entries of a listed directory.
    pub fn enter(&mut self, entries: &Vec<DirEntry>)
        ensures
            final(self).pending() == old(self).pending() + directories(views(entries@)),
            final(self).found() == old(self).found() + json_entries(views(entries@)),
    {
        let ghost pending0 = self.pending();
        let ghost found0 = self.found();
        let ghost all = views(entries@);
        let mut i: usize = 0;
        assert(pending0 + directories(all.take(0)) =~= pending0);
        assert(found0 + json_entries(all.take(0)) =~= found0);
        while i < entries.len()
            invariant
                i <= entries@.len(),
                all == views(entries@),
                self.pending() == pending0 + directories(all.take(i as int)),
                self.found() == found0 + json_entries(all.take(i as int)),
            decreases entries@.len() - i,
        {
            proof {
                assert(all.take(i + 1).drop_last() =~= all.take(i as int));
                assert(all.take(i + 1).last() == entries@[i as int]@);
            }
            let ghost p = self.pending@;
            let ghost f = self.found@;
            if entries[i].is_dir {
                self.pending.push(entries[i].path.clone());
                assert(views(self.pending@) =~= views(p).push(entries@[i as int].path@));
                assert(self.pending() =~= pending0 + directories(all.take(i + 1)));
            } else if entries[i].path.has_extension("json") {
                self.found.push(entries[i].path.clone());
                assert(views(self.found@) =~= views(f).push(entries@[i as int].path@));
                assert(self.found() =~= found0 + json_entries(all.take(i + 1)));
            }
            i = i + 1;
        }
        assert(all.take(i as int) =~= all);
    }

    /// The record files met, in path order.
    pub fn json_files(self) -> (r: Vec<PathBuf>)
        ensures
            views(r@) == stable_sort(self.found(), |p: Seq<u8>, q: Seq<u8>| path_le(p, q)),
            views(r@).to_multiset() == self.found().to_multiset(),
    {
        proof {
            stable_sort_is_permutation(self.found(), |p: Seq<u8>, q: Seq<u8>| path_le(p, q));
            assert(rank::<PathBuf>() =~= (|p: Seq<u8>, q: Seq<u8>| path_le(p, q)));
        }
        sort_ranked(self.found)
    }
}

/// A walk: the directories still to list, those listed, and the record files
/// met.
#[verifier::ext_equal]
pub struct WalkModel {
    pub pending: Seq<Seq<u8>>,
    pub listed: Seq<Seq<u8>>,
    pub found: Seq<Seq<u8>>,
}

/// A walk after `n` directories have been listed, where each directory has the
/// entries that `listing` gives.
pub open spec fn walk_after(
    listing: spec_fn(Seq<u8>) -> Seq<(Seq<u8>, bool)>,
    root: Seq<u8>,
    n: nat,
) -> WalkModel
    decreases n,
{
    if n == 0 {
        WalkModel { pending: seq![root], listed: Seq::empty(), found: Seq::empty() }
    } else {
        let w = walk_after(listing, root, (n - 1) as nat);
        if w.pending.len() == 0 {
            w
        } else {
            let entries = listing(w.pending.last());
            WalkModel {
                pending: w.pending.drop_last() + directories(entries),
                listed: w.listed.push(w.pending.last()),
                found: w.found + json_entries(entries),
            }
        }
    }
}

/// The directories in each directory.
pub open spec fn subdirectories(
    listing: spec_fn(Seq<u8>) -> Seq<(Seq<u8>, bool)>,
) -> spec_fn(Seq<u8>) -> Seq<Seq<u8>> {
    |d: Seq<u8>| directories(listing(d))
}

/// The directory lies in the tree at `root`.
pub open spec fn in_tree(
    listing: spec_fn(Seq<u8>) -> Seq<(Seq<u8>, bool)>,
    root: Seq<u8>,
    d: Seq<u8>,
) -> bool {
    reachable(subdirectories(listing), seq![root], d)
}

spec fn walk_holds(
    listing: spec_fn(Seq<u8>) -> Seq<(Seq<u8>, bool)>,
    root: Seq<u8>,
    w: WalkModel,
) -> bool {
    &&& w.pending.contains(root) || w.listed.contains(root)
    &&& forall|k: int| 0 <= k < w.pending.len() ==> in_tree(listing, root, #[trigger] w.pending[k])
    &&& forall|d: Seq<u8>| #[trigger] w.listed.contains(d) ==> in_tree(listing, root, d)
    &&& forall|d: Seq<u8>, e: Seq<u8>| #[trigger]
        w.listed.contains(d) && #[trigger] directories(listing(d)).contains(e)
            ==> w.listed.contains(e) || w.pending.contains(e)
    &&& forall|f: Seq<u8>| #[trigger]
        w.found.contains(f) <==> exists|d: Seq<u8>| #[trigger]
            w.listed.contains(d) && json_entries(listing(d)).contains(f)
}

proof fn lemma_walk(
    listing: spec_fn(Seq<u8>) -> Seq<(Seq<u8>, bool)>,
    root: Seq<u8>,
    n: nat,
)
    ensures
        walk_holds(listing, root, walk_after(listing, root, n)),
    decreases n,
{
    let now = walk_after(listing, root, n);
    if n == 0 {
        assert(now.pending[0] == root);
        assert(seq![root].contains(root));
        start_is_reached(subdirectories(listing), seq![root], root);
    } else {
        lemma_walk(listing, root, (n - 1) as nat);
        let w = walk_after(listing, root, (n - 1) as nat);
        if w.pending.len() > 0 {
            let d = w.pending.last();
            let next = directories(listing(d));
            let rest = w.pending.drop_last();
            assert(w.pending[w.pending.len() - 1] == d);
            assert(in_tree(listing, root, d));
            assert(now.listed[w.listed.len() as int] == d);
            assert forall|e: Seq<u8>| #[trigger] w.pending.contains(e) implies now.listed.contains(
                e,
            ) || now.pending.contains(e) by {
                let k = choose|k: int| 0 <= k < w.pending.len() && w.pending[k] == e;
                if k < rest.len() {
                    assert(now.pending[k] == e);
                } else {
                    assert(e == d);
                }
            }
            assert forall|e: Seq<u8>| #[trigger] w.listed.contains(e) implies now.listed.contains(
                e,
            ) by {
                let k = choose|k: int| 0 <= k < w.listed.len() && w.listed[k] == e;
                assert(now.listed[k] == e);
            }
            assert forall|e: Seq<u8>| #[trigger] now.listed.contains(e) implies e == d
                || w.listed.contains(e) by {
                let k = choose|k: int| 0 <= k < now.listed.len() && now.listed[k] == e;
                if k < w.listed.len() {
                    assert(w.listed[k] == e);
                }
            }
            assert forall|k: int| 0 <= k < now.pending.len() implies in_tree(
                listing,
                root,
                #[trigger] now.pending[k],
            ) by {
                if k < rest.len() {
                    assert(now.pending[k] == w.pending[k]);
                } else {
                    let j = k - rest.len();
                    assert(now.pending[k] == next[j]);
                    assert(next.contains(next[j]));
                    assert(subdirectories(listing)(d) == next);
                    successor_is_reached(subdirectories(listing), seq![root], d, next[j]);
                }
            }
            assert forall|a: Seq<u8>, e: Seq<u8>| #[trigger]
                now.listed.contains(a) && #[trigger] directories(listing(a)).contains(e) implies
                now.listed.contains(e) || now.pending.contains(e) by {
                if w.listed.contains(a) {
                    assert(w.listed.contains(e) || w.pending.contains(e));
                } else {
                    assert(a == d);
                    let j = choose|j: int| 0 <= j < next.len() && next[j] == e;
                    assert(now.pending[rest.len() + j] == e);
                }
            }
            assert forall|f: Seq<u8>| #[trigger] now.found.contains(f) <==> exists|a: Seq<u8>|
                #[trigger] now.listed.contains(a) && json_entries(listing(a)).contains(f) by {
                let own = json_entries(listing(d));
                if now.found.contains(f) {
                    let k = choose|k: int| 0 <= k < now.found.len() && now.found[k] == f;
                    if k < w.found.len() {
                        assert(w.found[k] == f);
                        assert(w.found.contains(f));
                        let a = choose|a: Seq<u8>| #[trigger]
                            w.listed.contains(a) && json_entries(listing(a)).contains(f);
                        assert(now.listed.contains(a));
                    } else {
                        assert(own[k - w.found.len()] == f);
                        assert(own.contains(f));
                        assert(now.listed.contains(d));
                    }
                }
                if exists|a: Seq<u8>| #[trigger]
                    now.listed.contains(a) && json_entries(listing(a)).contains(f) {
                    let a = choose|a: Seq<u8>| #[trigger]
                        now.listed.contains(a) && json_entries(listing(a)).contains(f);
                    if w.listed.contains(a) {
                        assert(w.found.contains(f));
                        let k = choose|k: int| 0 <= k < w.found.len() && w.found[k] == f;
                        assert(now.found[k] == f);
                    } else {
                        assert(a == d);
                        let k = choose|k: int| 0 <= k < own.len() && own[k] == f;
                        assert(now.found[w.found.len() + k] == f);
                    }
                }
            }
        }
    }
}

/// A walk that has listed all directories it met has found the record files of
/// every directory in the tree, and nothing else.
pub proof fn complete_walk_finds_every_record_file(
    listing: spec_fn(Seq<u8>) -> Seq<(Seq<u8>, bool)>,
    root: Seq<u8>,
    n: nat,
)
    requires
        walk_after(listing, root, n).pending.len() == 0,
    ensures
        forall|f: Seq<u8>| #[trigger]
            walk_after(listing, root, n).found.contains(f) <==> exists|d: Seq<u8>| #[trigger]
                in_tree(listing, root, d) && json_entries(listing(d)).contains(f),
{
    lemma_walk(listing, root, n);
    let w = walk_after(listing, root, n);
    let inside = |d: Seq<u8>| w.listed.contains(d);
    assert forall|d: Seq<u8>| #[trigger] in_tree(listing, root, d) implies w.listed.contains(d) by {
        assert forall|a: Seq<u8>| #[trigger] seq![root].contains(a) implies inside(a) by {
            assert(a == root);
        }
        assert forall|a: Seq<u8>, b: Seq<u8>| #[trigger]
            inside(a) && #[trigger] subdirectories(listing)(a).contains(b) implies inside(b) by {
            assert(w.listed.contains(a) && directories(listing(a)).contains(b));
        }
        reached_is_in_closed_set(subdirectories(listing), seq![root], inside, d);
    }
    assert forall|f: Seq<u8>| #[trigger] w.found.contains(f) <==> exists|d: Seq<u8>| #[trigger]
        in_tree(listing, root, d) && json_entries(listing(d)).contains(f) by {
        if w.found.contains(f) {
            let d = choose|d: Seq<u8>| #[trigger]
                w.listed.contains(d) && json_entries(listing(d)).contains(f);
            assert(in_tree(listing, root, d));
        }
        if exists|d: Seq<u8>| #[trigger]
            in_tree(listing, root, d) && json_entries(listing(d)).contains(f) {
            let d = choose|d: Seq<u8>| #[trigger]
                in_tree(listing, root, d) && json_entries(listing(d)).contains(f);
            assert(w.listed.contains(d));
        }
    }
}

} // verus!
