//! Sets of paths, reduced to those that contain the rest.

use vstd::prelude::*;

use crate::order::{
    lexicographic, rank, sort_unique, sorted_set, sorted_set_is_strictly_ranked,
    sorted_set_keeps_strictly_ranked, strictly_ranked, ties, total_preorder, views, Ranked,
};
use crate::path::{
    component_le, components, path_le, path_le_is_total_preorder, same_path, starts_with,
    starts_with_is_partial_order,
};
use crate::path_buf::PathBuf;

verus! {

/// Copies a list of paths.
pub fn copy_paths(list: &Vec<PathBuf>) -> (r: Vec<PathBuf>)
    ensures
        views(r@) == views(list@),
{
    let mut r: Vec<PathBuf> = Vec::new();
    let mut i: usize = 0;
    while i < list.len()
        invariant
            i <= list@.len(),
            r@.len() == i,
            forall|k: int| 0 <= k < i ==> (#[trigger] r@[k])@ == list@[k]@,
        decreases list@.len() - i,
    {
        r.push(list[i].clone());
        i = i + 1;
    }
    assert(views(r@) =~= views(list@));
    r
}

/// The view of an optional path.
pub open spec fn optional_path(p: Option<PathBuf>) -> Option<Seq<u8>> {
    match p {
        None => None,
        Some(path) => Some(path@),
    }
}

/// Copies an optional path.
pub fn copy_optional(p: &Option<PathBuf>) -> (r: Option<PathBuf>)
    ensures
        optional_path(r) == optional_path(*p),
{
    match p {
        None => None,
        Some(path) => Some(path.clone()),
    }
}

/// Shallow paths come first; paths of one depth in path order.
pub open spec fn depth_le(p: Seq<u8>, q: Seq<u8>) -> bool {
    components(p).len() < components(q).len() || (components(p).len() == components(q).len()
        && path_le(p, q))
}

/// `p` is one of `roots` or lies below one.
pub open spec fn covered(p: Seq<u8>, roots: Seq<Seq<u8>>) -> bool {
    exists|k: int| 0 <= k < roots.len() && starts_with(p, #[trigger] roots[k])
}

/// The paths that do not lie below one kept before them.
pub open spec fn keep_roots(s: Seq<Seq<u8>>) -> Seq<Seq<u8>>
    decreases s.len(),
{
    if s.len() == 0 {
        s
    } else {
        let before = keep_roots(s.drop_last());
        if covered(s.last(), before) {
            before
        } else {
            before.push(s.last())
        }
    }
}

/// The fewest paths that contain all of `s`, shallow ones first.
pub open spec fn minimal_paths_of(s: Seq<Seq<u8>>) -> Seq<Seq<u8>> {
    keep_roots(sorted_set(s, |p: Seq<u8>, q: Seq<u8>| depth_le(p, q)))
}

/// The paths of `s` that no other path of `s` contains, in path order.
pub open spec fn measured_paths_of(s: Seq<Seq<u8>>) -> Seq<Seq<u8>> {
    keep_roots(sorted_set(s, |p: Seq<u8>, q: Seq<u8>| path_le(p, q)))
}

/// Each path lies outside all the others.
pub open spec fn disjoint_paths(s: Seq<Seq<u8>>) -> bool {
    forall|i: int, j: int|
        0 <= i < s.len() && 0 <= j < s.len() && i != j ==> !starts_with(
            #[trigger] s[i],
            #[trigger] s[j],
        )
}

proof fn lemma_keep_roots(s: Seq<Seq<u8>>)
    ensures
        forall|y: Seq<u8>| #[trigger] keep_roots(s).contains(y) ==> s.contains(y),
        forall|i: int| 0 <= i < s.len() ==> covered(#[trigger] s[i], keep_roots(s)),
        forall|i: int, j: int|
            0 <= i < j < keep_roots(s).len() ==> !starts_with(
                #[trigger] keep_roots(s)[j],
                #[trigger] keep_roots(s)[i],
            ),
    decreases s.len(),
{
    if s.len() > 0 {
        let init = s.drop_last();
        lemma_keep_roots(init);
        let before = keep_roots(init);
        let after = keep_roots(s);
        assert forall|y: Seq<u8>| #[trigger] after.contains(y) implies s.contains(y) by {
            if before.contains(y) {
                assert(init.contains(y));
                let k = choose|k: int| 0 <= k < init.len() && init[k] == y;
                assert(s[k] == y);
            } else {
                assert(y == s.last());
                assert(s[s.len() - 1] == y);
            }
        }
        assert forall|i: int| 0 <= i < s.len() implies covered(#[trigger] s[i], after) by {
            if i < init.len() {
                assert(covered(init[i], before));
                let k = choose|k: int| 0 <= k < before.len() && starts_with(init[i], #[trigger]
                    before[k]);
                assert(after[k] == before[k]);
            } else if !covered(s.last(), before) {
                starts_with_is_partial_order(s.last(), s.last(), s.last());
                assert(after[after.len() - 1] == s.last());
            }
        }
        assert forall|i: int, j: int| 0 <= i < j < after.len() implies !starts_with(
            #[trigger] after[j],
            #[trigger] after[i],
        ) by {
            assert(after[i] == before[i]);
            if j < before.len() {
                assert(after[j] == before[j]);
            }
        }
    }
}

proof fn lemma_keep_roots_ranked(s: Seq<Seq<u8>>, le: spec_fn(Seq<u8>, Seq<u8>) -> bool)
    requires
        strictly_ranked(s, le),
    ensures
        strictly_ranked(keep_roots(s), le),
    decreases s.len(),
{
    if s.len() > 0 {
        let init = s.drop_last();
        assert forall|i: int, j: int| 0 <= i < j < init.len() implies #[trigger] le(
            init[i],
            init[j],
        ) && !le(init[j], init[i]) by {
            assert(le(s[i], s[j]));
        }
        lemma_keep_roots_ranked(init, le);
        lemma_keep_roots(init);
        let before = keep_roots(init);
        let after = keep_roots(s);
        assert forall|i: int, j: int| 0 <= i < j < after.len() implies #[trigger] le(
            after[i],
            after[j],
        ) && !le(after[j], after[i]) by {
            assert(after[i] == before[i]);
            if j < before.len() {
                assert(after[j] == before[j]);
                assert(le(before[i], before[j]));
            } else {
                assert(before.contains(before[i]));
                assert(init.contains(before[i]));
                let a = choose|a: int| 0 <= a < init.len() && init[a] == before[i];
                assert(le(s[a], s[s.len() - 1]));
            }
        }
    }
}

/// Depth order compares all paths, and exactly the spellings of one path tie.
pub proof fn depth_le_is_total_preorder()
    ensures
        total_preorder(|p: Seq<u8>, q: Seq<u8>| depth_le(p, q)),
        forall|p: Seq<u8>, q: Seq<u8>|
            (#[trigger] depth_le(p, q) && depth_le(q, p)) <==> same_path(p, q),
{
    path_le_is_total_preorder();
    let by_path = |p: Seq<u8>, q: Seq<u8>| path_le(p, q);
    let le = |p: Seq<u8>, q: Seq<u8>| depth_le(p, q);
    assert forall|p: Seq<u8>, q: Seq<u8>| #[trigger] le(p, q) || le(q, p) by {
        assert(by_path(p, q) || by_path(q, p));
    }
    assert forall|p: Seq<u8>, q: Seq<u8>, r: Seq<u8>| #[trigger]
        le(p, q) && #[trigger] le(q, r) implies le(p, r) by {
        if path_le(p, q) && path_le(q, r) {
            assert(by_path(p, q) && by_path(q, r));
            assert(by_path(p, r));
        }
    }
    assert forall|p: Seq<u8>, q: Seq<u8>| (#[trigger] depth_le(p, q) && depth_le(q, p))
        <==> same_path(p, q) by {
        assert((path_le(p, q) && path_le(q, p)) <==> same_path(p, q));
    }
}

/// The minimal paths are among the given ones, contain all of them, and do not
/// contain each other.
pub proof fn minimal_paths_cover_without_overlap(s: Seq<Seq<u8>>)
    ensures
        forall|y: Seq<u8>| #[trigger] minimal_paths_of(s).contains(y) ==> s.contains(y),
        forall|i: int| 0 <= i < s.len() ==> covered(#[trigger] s[i], minimal_paths_of(s)),
        disjoint_paths(minimal_paths_of(s)),
{
    let le = |p: Seq<u8>, q: Seq<u8>| depth_le(p, q);
    let sorted = sorted_set(s, le);
    let kept = minimal_paths_of(s);
    depth_le_is_total_preorder();
    sorted_set_is_strictly_ranked(s, le);
    lemma_keep_roots(sorted);
    lemma_keep_roots_ranked(sorted, le);
    assert forall|p: Seq<u8>, q: Seq<u8>| (#[trigger] le(p, q) && le(q, p)) implies same_path(
        p,
        q,
    ) by {
        assert(depth_le(p, q) && depth_le(q, p));
    }
    lemma_members_and_cover(s, le);
    assert(kept == keep_roots(sorted));
    assert(strictly_ranked(kept, le));
    assert forall|i: int, j: int|
        0 <= i < kept.len() && 0 <= j < kept.len() && i != j implies !starts_with(
        #[trigger] kept[i],
        #[trigger] kept[j],
    ) by {
        if i < j {
            assert(le(kept[i], kept[j]) && !le(kept[j], kept[i]));
            if starts_with(kept[i], kept[j]) {
                starts_with_is_partial_order(kept[i], kept[j], kept[j]);
                assert(components(kept[i]) =~= components(kept[j]));
                starts_with_is_partial_order(kept[j], kept[j], kept[j]);
                assert(starts_with(kept[j], kept[i]));
            }
        }
    }
}

proof fn lemma_members_and_cover(s: Seq<Seq<u8>>, le: spec_fn(Seq<u8>, Seq<u8>) -> bool)
    requires
        total_preorder(le),
        forall|p: Seq<u8>, q: Seq<u8>| (#[trigger] le(p, q) && le(q, p)) ==> same_path(p, q),
    ensures
        forall|y: Seq<u8>|
            #[trigger] keep_roots(sorted_set(s, le)).contains(y) ==> s.contains(y),
        forall|i: int|
            0 <= i < s.len() ==> covered(#[trigger] s[i], keep_roots(sorted_set(s, le))),
{
    let sorted = sorted_set(s, le);
    let kept = keep_roots(sorted);
    sorted_set_is_strictly_ranked(s, le);
    lemma_keep_roots(sorted);
    assert forall|y: Seq<u8>| #[trigger] kept.contains(y) implies s.contains(y) by {
        assert(sorted.contains(y));
    }
    assert forall|i: int| 0 <= i < s.len() implies covered(#[trigger] s[i], kept) by {
        assert(s.contains(s[i]));
        let k = choose|k: int| 0 <= k < sorted.len() && ties(le)(#[trigger] sorted[k], s[i]);
        assert(le(sorted[k], s[i]) && le(s[i], sorted[k]));
        assert(same_path(s[i], sorted[k]));
        assert(covered(sorted[k], kept));
        let j = choose|j: int| 0 <= j < kept.len() && starts_with(sorted[k], #[trigger] kept[j]);
        assert(starts_with(s[i], kept[j]));
    }
}

/// The outermost paths come from the shallowest on, and equally deep ones in the
/// order of paths.
pub proof fn minimal_paths_are_in_order(s: Seq<Seq<u8>>, i: int, j: int)
    requires
        0 <= i < j < minimal_paths_of(s).len(),
    ensures
        ({
            let p = minimal_paths_of(s)[i];
            let q = minimal_paths_of(s)[j];
            &&& components(p).len() <= components(q).len()
            &&& components(p).len() == components(q).len() ==> path_le(p, q)
        }),
{
    let le = |p: Seq<u8>, q: Seq<u8>| depth_le(p, q);
    depth_le_is_total_preorder();
    sorted_set_is_strictly_ranked(s, le);
    lemma_keep_roots_ranked(sorted_set(s, le), le);
    assert(le(minimal_paths_of(s)[i], minimal_paths_of(s)[j]));
}

/// What is measured is among the given paths, contains all of them, and holds
/// nothing twice.
pub proof fn measured_paths_cover_without_overlap(s: Seq<Seq<u8>>)
    ensures
        forall|y: Seq<u8>| #[trigger] measured_paths_of(s).contains(y) ==> s.contains(y),
        forall|i: int| 0 <= i < s.len() ==> covered(#[trigger] s[i], measured_paths_of(s)),
        disjoint_paths(measured_paths_of(s)),
{
    let le = |p: Seq<u8>, q: Seq<u8>| path_le(p, q);
    let sorted = sorted_set(s, le);
    let kept = measured_paths_of(s);
    path_le_is_total_preorder();
    sorted_set_is_strictly_ranked(s, le);
    lemma_keep_roots(sorted);
    lemma_keep_roots_ranked(sorted, le);
    assert forall|p: Seq<u8>, q: Seq<u8>| (#[trigger] le(p, q) && le(q, p)) implies same_path(
        p,
        q,
    ) by {
        assert(path_le(p, q) && path_le(q, p));
    }
    lemma_members_and_cover(s, le);
    assert forall|i: int, j: int|
        0 <= i < kept.len() && 0 <= j < kept.len() && i != j implies !starts_with(
        #[trigger] kept[i],
        #[trigger] kept[j],
    ) by {
        if i < j {
            assert(le(kept[i], kept[j]) && !le(kept[j], kept[i]));
            if starts_with(kept[i], kept[j]) {
                lemma_prefix_is_below(
                    components(kept[j]),
                    components(kept[i]),
                    |x: Seq<u8>, y: Seq<u8>| component_le(x, y),
                );
                assert(path_le(kept[j], kept[i]));
            }
        }
    }
}

proof fn lemma_prefix_is_below<A>(a: Seq<A>, b: Seq<A>, le: spec_fn(A, A) -> bool)
    requires
        a.is_prefix_of(b),
    ensures
        lexicographic(a, b, le),
    decreases a.len(),
{
    if a.len() > 0 {
        assert(a[0] == b.subrange(0, a.len() as int)[0]);
        assert(a.drop_first() =~= b.drop_first().subrange(0, a.drop_first().len() as int)) by {
            assert forall|k: int| 0 <= k < a.drop_first().len() implies a.drop_first()[k]
                == b.drop_first()[k] by {
                assert(a[k + 1] == b.subrange(0, a.len() as int)[k + 1]);
            }
        }
        lemma_prefix_is_below(a.drop_first(), b.drop_first(), le);
    }
}

/// A path ranked by its depth.
struct ByDepth {
    path: PathBuf,
}

impl View for ByDepth {
    type V = Seq<u8>;

    closed spec fn view(&self) -> Seq<u8> {
        self.path@
    }
}

impl Ranked for ByDepth {
    closed spec fn rank_le(a: Seq<u8>, b: Seq<u8>) -> bool {
        depth_le(a, b)
    }

    fn at_most(&self, other: &Self) -> (r: bool) {
        let mine: usize = self.path.component_count();
        let theirs: usize = other.path.component_count();
        mine < theirs || (mine == theirs && self.path.at_most(&other.path))
    }
}

/// Drops each path that lies below one kept before it.
fn roots_only(paths: Vec<PathBuf>) -> (r: Vec<PathBuf>)
    ensures
        views(r@) == keep_roots(views(paths@)),
{
    let mut roots: Vec<PathBuf> = Vec::new();
    let mut i: usize = 0;
    assert(views(roots@) =~= keep_roots(views(paths@).take(0)));
    while i < paths.len()
        invariant
            i <= paths@.len(),
            views(roots@) == keep_roots(views(paths@).take(i as int)),
        decreases paths@.len() - i,
    {
        let ghost before = roots@;
        if !is_covered(&paths[i], &roots) {
            roots.push(paths[i].clone());
            assert(views(roots@) =~= views(before).push(paths@[i as int]@));
        }
        proof {
            let next = views(paths@).take(i + 1);
            assert(next.drop_last() =~= views(paths@).take(i as int));
            assert(next.last() == paths@[i as int]@);
        }
        i = i + 1;
    }
    assert(views(paths@).take(i as int) =~= views(paths@));
    roots
}

/// Whether `path` is one of `roots` or lies below one.
fn is_covered(path: &PathBuf, roots: &Vec<PathBuf>) -> (r: bool)
    ensures
        r == covered(path@, views(roots@)),
{
    let mut k: usize = 0;
    while k < roots.len()
        invariant
            k <= roots@.len(),
            forall|j: int| 0 <= j < k ==> !starts_with(path@, #[trigger] views(roots@)[j]),
        decreases roots@.len() - k,
    {
        if path.starts_with(&roots[k]) {
            assert(starts_with(path@, views(roots@)[k as int]));
            return true;
        }
        k = k + 1;
    }
    false
}

/// The fewest paths that contain all of `paths`.
pub fn minimal_paths(paths: Vec<PathBuf>) -> (r: Vec<PathBuf>)
    ensures
        views(r@) == minimal_paths_of(views(paths@)),
{
    let ghost given = views(paths@);
    let mut wrapped: Vec<ByDepth> = Vec::new();
    let mut i: usize = 0;
    while i < paths.len()
        invariant
            i <= paths@.len(),
            wrapped@.len() == i,
            forall|k: int| 0 <= k < i ==> (#[trigger] wrapped@[k])@ == paths@[k]@,
        decreases paths@.len() - i,
    {
        wrapped.push(ByDepth { path: paths[i].clone() });
        i = i + 1;
    }
    assert(views(wrapped@) =~= given);
    let sorted = sort_unique(wrapped);
    assert(rank::<ByDepth>() =~= (|p: Seq<u8>, q: Seq<u8>| depth_le(p, q)));
    let mut unwrapped: Vec<PathBuf> = Vec::new();
    let mut j: usize = 0;
    while j < sorted.len()
        invariant
            j <= sorted@.len(),
            unwrapped@.len() == j,
            forall|k: int| 0 <= k < j ==> (#[trigger] unwrapped@[k])@ == sorted@[k]@,
        decreases sorted@.len() - j,
    {
        unwrapped.push(sorted[j].path.clone());
        j = j + 1;
    }
    assert(views(unwrapped@) =~= views(sorted@));
    roots_only(unwrapped)
}

/// The paths to measure so that nothing nested is counted twice.
pub fn measured_paths(output_paths: &Vec<PathBuf>) -> (r: Vec<PathBuf>)
    ensures
        views(r@) == measured_paths_of(views(output_paths@)),
{
    let sorted = sort_unique(copy_paths(output_paths));
    assert(rank::<PathBuf>() =~= (|p: Seq<u8>, q: Seq<u8>| path_le(p, q)));
    roots_only(sorted)
}

/// Reducing twice changes nothing more.
pub proof fn minimal_paths_of_minimal(s: Seq<Seq<u8>>)
    ensures
        minimal_paths_of(minimal_paths_of(s)) == minimal_paths_of(s),
{
    let le = |p: Seq<u8>, q: Seq<u8>| depth_le(p, q);
    let kept = minimal_paths_of(s);
    depth_le_is_total_preorder();
    sorted_set_is_strictly_ranked(s, le);
    lemma_keep_roots_ranked(sorted_set(s, le), le);
    assert(strictly_ranked(kept, le));
    sorted_set_keeps_strictly_ranked(kept, le);
    minimal_paths_cover_without_overlap(s);
    lemma_keep_roots_of_disjoint(kept);
}

proof fn lemma_keep_roots_of_disjoint(s: Seq<Seq<u8>>)
    requires
        disjoint_paths(s),
    ensures
        keep_roots(s) == s,
    decreases s.len(),
{
    if s.len() > 0 {
        let init = s.drop_last();
        assert forall|i: int, j: int|
            0 <= i < init.len() && 0 <= j < init.len() && i != j implies !starts_with(
            #[trigger] init[i],
            #[trigger] init[j],
        ) by {
            assert(!starts_with(s[i], s[j]));
        }
        lemma_keep_roots_of_disjoint(init);
        if covered(s.last(), init) {
            let k = choose|k: int| 0 <= k < init.len() && starts_with(s.last(), #[trigger] init[k]);
            assert(!starts_with(s[s.len() - 1], s[k]));
        }
        assert(init.push(s.last()) =~= s);
    }
}

} // verus!
