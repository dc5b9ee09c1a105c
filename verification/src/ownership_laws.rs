//! What units own, told by the components of paths alone.

use vstd::prelude::*;
use vstd::utf8::{encode_utf8, is_ascii_chars_encode_utf8};

use crate::outputs::{
    all_owned, beside, describes, first_holding, first_outside, first_outside_decides,
    inferred_unit_dir, inside, is_unit_dir, kept_size, lemma_beside, lemma_candidates,
    lemma_no_holding, owned_paths_of, ownership_fault, record_for, sidecars, unit_dir_candidates,
    unit_dirs_among, upgraded, OwnershipFault, OwnershipModel, RecordModel,
};
use crate::path::{
    ancestors, components, file_name, lemma_parent_spans, parent, same_path, spans, starts_with,
    strictly_below,
};
use crate::path_set::{covered, minimal_paths_cover_without_overlap};

verus! {

/// A component that names something.
spec fn plain(name: Seq<u8>) -> bool {
    name != seq![47u8] && name != seq![46u8] && name != seq![46u8, 46u8]
}

/// The components end in the directory of a unit.
spec fn unit_shaped(c: Seq<Seq<u8>>, package: Seq<char>, unit: Seq<char>) -> bool {
    &&& c.len() >= 3
    &&& c[c.len() - 1] == encode_utf8(unit) && plain(c[c.len() - 1])
    &&& c[c.len() - 2] == encode_utf8(package) && plain(c[c.len() - 2])
    &&& c[c.len() - 3] == encode_utf8("build"@) && plain(c[c.len() - 3])
}

proof fn lemma_file_name(p: Seq<u8>)
    ensures
        file_name(p) is Some <==> components(p).len() > 0 && plain(components(p).last()),
        file_name(p) is Some ==> file_name(p) == Some(components(p).last()),
        parent(p) is Some ==> components(parent(p)->0) == components(p).drop_last(),
        components(p).len() >= 2 ==> parent(p) is Some,
{
    if parent(p) is Some {
        lemma_parent_spans(p);
    }
    assert(components(p).len() == spans(p).len());
}

/// A directory is that of a unit exactly where its last three components are
/// `build`, the package and the unit, each of them a name.
pub proof fn unit_dir_is_told_by_its_end(dir: Seq<u8>, package: Seq<char>, unit: Seq<char>)
    ensures
        ({
            let c = components(dir);
            let named = |i: int, name: Seq<u8>|
                c[i] == name && name != seq![47u8] && name != seq![46u8] && name != seq![
                    46u8,
                    46u8,
                ];
            is_unit_dir(dir, package, unit) <==> c.len() >= 3 && named(
                c.len() - 1,
                encode_utf8(unit),
            ) && named(c.len() - 2, encode_utf8(package)) && named(
                c.len() - 3,
                encode_utf8("build"@),
            )
        }),
{
    lemma_unit_shaped(dir, package, unit);
}

proof fn lemma_unit_shaped(dir: Seq<u8>, package: Seq<char>, unit: Seq<char>)
    ensures
        is_unit_dir(dir, package, unit) <==> unit_shaped(components(dir), package, unit),
{
    lemma_file_name(dir);
    if parent(dir) is Some {
        let up = parent(dir)->0;
        lemma_file_name(up);
        if parent(up) is Some {
            let top = parent(up)->0;
            lemma_file_name(top);
        }
    }
}

/// What a unit may own. Each path is absolute and lies below the build directory
/// or the target directory, and is neither of them. The unit directory is
/// absolute, lies below the build directory and is the unit's own; and no path
/// is that directory or holds it.
pub proof fn ownership_is_right_where_nothing_is_foreign(
    build_root: Seq<u8>,
    target_root: Seq<u8>,
    package: Seq<char>,
    unit: Seq<char>,
    unit_dir: Option<Seq<u8>>,
    paths: Seq<Seq<u8>>,
)
    ensures
        ({
            let below = |p: Seq<u8>, root: Seq<u8>|
                components(root).is_prefix_of(components(p)) && components(root).len()
                    < components(p).len();
            let named = |c: Seq<Seq<u8>>, i: int, name: Seq<u8>|
                c[i] == name && name != seq![47u8] && name != seq![46u8] && name != seq![
                    46u8,
                    46u8,
                ];
            ownership_fault(build_root, target_root, package, unit, unit_dir, paths) is None <==> {
                &&& forall|i: int|
                    0 <= i < paths.len() ==> (#[trigger] paths[i]).len() > 0 && paths[i][0] == 47 && (
                    below(paths[i], build_root) || below(paths[i], target_root))
                &&& unit_dir matches Some(dir) ==> {
                    let c = components(dir);
                    &&& dir.len() > 0 && dir[0] == 47
                    &&& below(dir, build_root)
                    &&& c.len() >= 3
                    &&& named(c, c.len() - 1, encode_utf8(unit))
                    &&& named(c, c.len() - 2, encode_utf8(package))
                    &&& named(c, c.len() - 3, encode_utf8("build"@))
                    &&& forall|i: int|
                        0 <= i < paths.len() ==> !components(#[trigger] paths[i]).is_prefix_of(c)
                }
            }
        }),
{
    let roots = seq![build_root, target_root];
    first_outside_decides(paths, roots);
    assert forall|p: Seq<u8>, root: Seq<u8>| #[trigger]
        strictly_below(p, root) <==> components(root).is_prefix_of(components(p))
            && components(root).len() < components(p).len() by {
        if components(root).is_prefix_of(components(p)) && components(root).len() == components(
            p,
        ).len() {
            assert(components(root) =~= components(p));
        }
    }
    assert(roots[0] == build_root && roots[1] == target_root);
    assert forall|i: int| 0 <= i < paths.len() implies (inside(#[trigger] paths[i], roots)
        <==> paths[i].len() > 0 && paths[i][0] == 47 && (strictly_below(
        paths[i],
        build_root,
    ) || strictly_below(paths[i], target_root))) by {
        if strictly_below(paths[i], build_root) {
            assert(strictly_below(paths[i], roots[0]));
        }
        if strictly_below(paths[i], target_root) {
            assert(strictly_below(paths[i], roots[1]));
        }
    }
    if unit_dir is Some {
        let dir = unit_dir->0;
        lemma_unit_shaped(dir, package, unit);
        lemma_no_holding(paths, dir);
        let one = seq![build_root];
        assert(one[0] == build_root);
        assert(inside(dir, one) <==> dir.len() > 0 && dir[0] == 47
            && strictly_below(dir, build_root)) by {
            if strictly_below(dir, build_root) {
                assert(strictly_below(dir, one[0]));
            }
        }
    }
}

/// Of several faults the first is told: that the unit directory is outside the
/// build directory, that it is another unit's, that a path holds it, and that a
/// path is outside both directories. Of several paths it is the first.
pub proof fn first_ownership_fault_is_told(
    build_root: Seq<u8>,
    target_root: Seq<u8>,
    package: Seq<char>,
    unit: Seq<char>,
    unit_dir: Option<Seq<u8>>,
    paths: Seq<Seq<u8>>,
)
    requires
        ownership_fault(build_root, target_root, package, unit, unit_dir, paths) is Some,
    ensures
        ({
            let below = |p: Seq<u8>, root: Seq<u8>|
                p.len() > 0 && p[0] == 47 && components(root).is_prefix_of(components(p))
                    && components(root).len() < components(p).len();
            match ownership_fault(build_root, target_root, package, unit, unit_dir, paths)->0 {
                OwnershipFault::Outside(q) => {
                    ||| unit_dir == Some(q) && !below(q, build_root)
                    ||| (unit_dir matches Some(dir) ==> below(dir, build_root)) && exists|i: int|
                        0 <= i < paths.len() && #[trigger] paths[i] == q && !below(q, build_root)
                            && !below(q, target_root) && forall|j: int|
                            0 <= j < i ==> below(#[trigger] paths[j], build_root) || below(
                                paths[j],
                                target_root,
                            )
                },
                OwnershipFault::UnitDirMismatch(dir) => unit_dir == Some(dir) && below(
                    dir,
                    build_root,
                ) && !is_unit_dir(dir, package, unit),
                OwnershipFault::SidecarHoldsUnitDir(p, dir) => unit_dir == Some(dir) && below(
                    dir,
                    build_root,
                ) && exists|i: int|
                    0 <= i < paths.len() && #[trigger] paths[i] == p && components(p).is_prefix_of(
                        components(dir),
                    ) && forall|j: int|
                        0 <= j < i ==> !components(#[trigger] paths[j]).is_prefix_of(
                            components(dir),
                        ),
            }
        }),
{
    let roots = seq![build_root, target_root];
    assert(roots[0] == build_root && roots[1] == target_root);
    let below = |p: Seq<u8>, root: Seq<u8>|
        p.len() > 0 && p[0] == 47 && components(root).is_prefix_of(components(p)) && components(
            root,
        ).len() < components(p).len();
    assert forall|p: Seq<u8>| #[trigger] inside(p, roots) <==> below(p, build_root) || below(
        p,
        target_root,
    ) by {
        lemma_below(p, build_root);
        lemma_below(p, target_root);
        if below(p, build_root) {
            assert(strictly_below(p, roots[0]));
        }
        if below(p, target_root) {
            assert(strictly_below(p, roots[1]));
        }
    }
    lemma_first_outside(paths, roots);
    if unit_dir is Some {
        let dir = unit_dir->0;
        lemma_first_holding(paths, dir);
        let one = seq![build_root];
        assert(one[0] == build_root);
        lemma_below(dir, build_root);
        assert(inside(dir, one) <==> below(dir, build_root)) by {
            if below(dir, build_root) {
                assert(strictly_below(dir, one[0]));
            }
        }
    }
}

proof fn lemma_below(p: Seq<u8>, root: Seq<u8>)
    ensures
        strictly_below(p, root) <==> components(root).is_prefix_of(components(p))
            && components(root).len() < components(p).len(),
{
    if components(root).is_prefix_of(components(p)) && components(root).len() == components(
        p,
    ).len() {
        assert(components(root) =~= components(p));
    }
}

proof fn lemma_first_outside(paths: Seq<Seq<u8>>, roots: Seq<Seq<u8>>)
    ensures
        first_outside(paths, roots) matches Some(p) ==> exists|i: int|
            0 <= i < paths.len() && #[trigger] paths[i] == p && !inside(p, roots) && forall|j: int|
                0 <= j < i ==> inside(#[trigger] paths[j], roots),
    decreases paths.len(),
{
    if paths.len() > 0 {
        let init = paths.drop_last();
        lemma_first_outside(init, roots);
        first_outside_decides(init, roots);
        assert forall|j: int| 0 <= j < init.len() implies init[j] == #[trigger] paths[j] by {}
        if first_outside(init, roots) is Some {
            let p = first_outside(init, roots)->0;
            let i = choose|i: int|
                0 <= i < init.len() && #[trigger] init[i] == p && !inside(p, roots) && forall|j: int|
                    0 <= j < i ==> inside(#[trigger] init[j], roots);
            assert(paths[i] == p);
            assert forall|j: int| 0 <= j < i implies inside(#[trigger] paths[j], roots) by {
                assert(inside(init[j], roots));
            }
        } else {
            assert forall|j: int| 0 <= j < init.len() implies inside(#[trigger] paths[j], roots) by {
                assert(inside(init[j], roots));
            }
            assert(paths[paths.len() - 1] == paths.last());
        }
    }
}

proof fn lemma_first_holding(paths: Seq<Seq<u8>>, dir: Seq<u8>)
    ensures
        first_holding(paths, dir) matches Some(p) ==> exists|i: int|
            0 <= i < paths.len() && #[trigger] paths[i] == p && starts_with(dir, p) && forall|j: int|
                0 <= j < i ==> !starts_with(dir, #[trigger] paths[j]),
    decreases paths.len(),
{
    if paths.len() > 0 {
        let init = paths.drop_last();
        lemma_first_holding(init, dir);
        lemma_no_holding(init, dir);
        if first_holding(init, dir) is Some {
            let p = first_holding(init, dir)->0;
            let i = choose|i: int|
                0 <= i < init.len() && #[trigger] init[i] == p && starts_with(dir, p) && forall|
                    j: int,
                |
                    0 <= j < i ==> !starts_with(dir, #[trigger] init[j]);
            assert(paths[i] == p);
            assert forall|j: int| 0 <= j < i implies !starts_with(dir, #[trigger] paths[j]) by {
                assert(!starts_with(dir, init[j]));
            }
        } else {
            assert forall|j: int| 0 <= j < init.len() implies !starts_with(
                dir,
                #[trigger] paths[j],
            ) by {
                assert(!starts_with(dir, init[j]));
            }
            assert(paths[paths.len() - 1] == paths.last());
        }
    }
}

/// What a record owns is among its paths and its unit directory; each of these is
/// owned or lies below what is owned; and nothing owned lies below other owned
/// paths.
pub proof fn owned_paths_are_the_outermost(record: RecordModel)
    ensures
        ({
            let owned = owned_paths_of(record);
            &&& forall|i: int|
                0 <= i < owned.len() ==> record.paths.contains(#[trigger] owned[i])
                    || record.unit_dir == Some(owned[i])
            &&& forall|q: Seq<u8>| #[trigger]
                record.paths.contains(q) || record.unit_dir == Some(q) ==> exists|i: int|
                    0 <= i < owned.len() && components(#[trigger] owned[i]).is_prefix_of(
                        components(q),
                    )
            &&& forall|i: int, j: int|
                0 <= i < owned.len() && 0 <= j < owned.len() && i != j ==> !components(
                    #[trigger] owned[i],
                ).is_prefix_of(components(#[trigger] owned[j]))
        }),
{
    let owned = owned_paths_of(record);
    let all = all_owned(record);
    minimal_paths_cover_without_overlap(all);
    lemma_all_owned(record);
    assert forall|i: int| 0 <= i < owned.len() implies record.paths.contains(#[trigger] owned[i])
        || record.unit_dir == Some(owned[i]) by {
        assert(owned.contains(owned[i]));
        assert(all.contains(owned[i]));
    }
    assert forall|q: Seq<u8>| #[trigger]
        record.paths.contains(q) || record.unit_dir == Some(q) implies exists|i: int|
        0 <= i < owned.len() && components(#[trigger] owned[i]).is_prefix_of(components(q)) by {
        assert(all.contains(q));
        let k = choose|k: int| 0 <= k < all.len() && all[k] == q;
        assert(covered(all[k], owned));
        let i = choose|i: int| 0 <= i < owned.len() && starts_with(q, #[trigger] owned[i]);
        assert(components(owned[i]).is_prefix_of(components(q)));
    }
    assert forall|i: int, j: int|
        0 <= i < owned.len() && 0 <= j < owned.len() && i != j implies !components(
        #[trigger] owned[i],
    ).is_prefix_of(components(#[trigger] owned[j])) by {
        assert(!starts_with(owned[j], owned[i]));
    }
}

proof fn lemma_all_owned(record: RecordModel)
    ensures
        forall|q: Seq<u8>| #[trigger]
            all_owned(record).contains(q) <==> record.paths.contains(q) || record.unit_dir == Some(
                q,
            ),
{
    let all = all_owned(record);
    assert forall|q: Seq<u8>| #[trigger] all.contains(q) <==> record.paths.contains(q)
        || record.unit_dir == Some(q) by {
        if record.unit_dir is Some {
            assert(all[0] == record.unit_dir->0);
            if record.paths.contains(q) {
                let k = choose|k: int| 0 <= k < record.paths.len() && record.paths[k] == q;
                assert(all[k + 1] == q);
            }
            if all.contains(q) {
                let k = choose|k: int| 0 <= k < all.len() && all[k] == q;
                if k > 0 {
                    assert(record.paths[k - 1] == q);
                }
            }
        }
    }
}

/// What lies beside the unit directory is what does not lie below it: the
/// outermost of those paths, and all of them without such a directory.
pub proof fn sidecars_lie_beside_the_unit_dir(
    paths: Seq<Seq<u8>>,
    unit_dir: Option<Seq<u8>>,
    q: Seq<u8>,
)
    ensures
        ({
            let beside = sidecars(paths, unit_dir);
            let apart = |p: Seq<u8>|
                unit_dir matches Some(dir) ==> !components(dir).is_prefix_of(components(p));
            &&& beside.contains(q) ==> paths.contains(q) && apart(q)
            &&& paths.contains(q) && apart(q) ==> exists|i: int|
                0 <= i < beside.len() && components(#[trigger] beside[i]).is_prefix_of(
                    components(q),
                )
        }),
{
    let kept = match unit_dir {
        None => paths,
        Some(dir) => beside(paths, dir),
    };
    if unit_dir is Some {
        lemma_beside(paths, unit_dir->0);
    }
    minimal_paths_cover_without_overlap(kept);
    let all = sidecars(paths, unit_dir);
    if kept.contains(q) {
        let k = choose|k: int| 0 <= k < kept.len() && kept[k] == q;
        assert(covered(kept[k], all));
        let i = choose|i: int| 0 <= i < all.len() && starts_with(q, #[trigger] all[i]);
        assert(components(all[i]).is_prefix_of(components(q)));
    }
}

/// The record of a unit that was used: it has the current version and the time of
/// use, and names all that the unit owns. A size known before is kept only where
/// the record before has a version that is supported and describes the same
/// unit, directory and paths, path for path.
pub proof fn use_keeps_the_size_of_what_is_the_same(
    ownership: OwnershipModel,
    previous: Option<RecordModel>,
    now: u64,
)
    ensures
        ({
            let record = record_for(ownership, now, kept_size(ownership, previous));
            let same = |before: RecordModel|
                {
                    &&& before.version == 1 || before.version == 2
                    &&& before.package == ownership.package
                    &&& before.unit == ownership.unit
                    &&& match (before.unit_dir, ownership.unit_dir) {
                        (None, None) => true,
                        (Some(a), Some(b)) => components(a) == components(b),
                        _ => false,
                    }
                    &&& before.paths.len() == ownership.paths.len()
                    &&& forall|i: int|
                        0 <= i < ownership.paths.len() ==> components(#[trigger] before.paths[i])
                            == components(ownership.paths[i])
                };
            &&& record.version == 2
            &&& record.package == ownership.package
            &&& record.unit == ownership.unit
            &&& record.unit_dir == ownership.unit_dir
            &&& record.paths == ownership.paths
            &&& record.last_used == now
            &&& match previous {
                Some(before) => record.size == if same(before) {
                    before.size
                } else {
                    None
                },
                None => record.size is None,
            }
        }),
{
    if previous is Some {
        let before = previous->0;
        assert(describes(before, ownership) ==> before.paths.len() == ownership.paths.len());
    }
}

/// The prefix of a path's components is the directory of the unit, in the build
/// directory or at it.
spec fn is_candidate(
    c: Seq<Seq<u8>>,
    build_root: Seq<u8>,
    package: Seq<char>,
    unit: Seq<char>,
) -> bool {
    components(build_root).is_prefix_of(c) && unit_shaped(c, package, unit)
}

proof fn lemma_ancestor_at(p: Seq<u8>, n: int) -> (a: Seq<u8>)
    requires
        0 < n <= components(p).len(),
    ensures
        ancestors(p).contains(a),
        components(a) == components(p).take(n),
    decreases components(p).len(),
{
    let all = ancestors(p);
    if n == components(p).len() {
        assert(all[0] == p);
        assert(components(p).take(n) =~= components(p));
        p
    } else {
        lemma_file_name(p);
        let q = parent(p)->0;
        let a = lemma_ancestor_at(q, n);
        assert(components(q).take(n) =~= components(p).take(n));
        assert(all == seq![p] + ancestors(q));
        let k = choose|k: int| 0 <= k < ancestors(q).len() && ancestors(q)[k] == a;
        assert(all[k + 1] == a);
        a
    }
}

proof fn lemma_among(
    build_root: Seq<u8>,
    package: Seq<char>,
    unit: Seq<char>,
    dirs: Seq<Seq<u8>>,
    dir: Seq<u8>,
)
    requires
        dirs.contains(dir),
        starts_with(dir, build_root),
        is_unit_dir(dir, package, unit),
    ensures
        unit_dirs_among(build_root, package, unit, dirs).contains(dir),
    decreases dirs.len(),
{
    let init = dirs.drop_last();
    let before = unit_dirs_among(build_root, package, unit, init);
    let all = unit_dirs_among(build_root, package, unit, dirs);
    let k = choose|k: int| 0 <= k < dirs.len() && dirs[k] == dir;
    if k < init.len() {
        assert(init[k] == dir);
        lemma_among(build_root, package, unit, init, dir);
        let x = choose|x: int| 0 <= x < before.len() && before[x] == dir;
        assert(all[x] == dir);
    } else {
        assert(all[before.len() as int] == dir);
    }
}

proof fn lemma_is_candidate(
    build_root: Seq<u8>,
    package: Seq<char>,
    unit: Seq<char>,
    paths: Seq<Seq<u8>>,
    i: int,
    n: int,
) -> (dir: Seq<u8>)
    requires
        0 <= i < paths.len(),
        0 < n <= components(paths[i]).len(),
        is_candidate(components(paths[i]).take(n), build_root, package, unit),
    ensures
        unit_dir_candidates(build_root, package, unit, paths).contains(dir),
        components(dir) == components(paths[i]).take(n),
    decreases paths.len(),
{
    let init = paths.drop_last();
    let before = unit_dir_candidates(build_root, package, unit, init);
    let here = unit_dirs_among(build_root, package, unit, ancestors(paths.last()));
    let all = unit_dir_candidates(build_root, package, unit, paths);
    assert(all == before + here);
    if i < init.len() {
        assert(init[i] == paths[i]);
        let dir = lemma_is_candidate(build_root, package, unit, init, i, n);
        let x = choose|x: int| 0 <= x < before.len() && before[x] == dir;
        assert(all[x] == dir);
        dir
    } else {
        let dir = lemma_ancestor_at(paths.last(), n);
        lemma_unit_shaped(dir, package, unit);
        lemma_among(build_root, package, unit, ancestors(paths.last()), dir);
        let x = choose|x: int| 0 <= x < here.len() && here[x] == dir;
        assert(all[before.len() + x] == dir);
        dir
    }
}

/// A name that can be a component: it is no root, no `.` and no `..`.
pub open spec fn can_be_named(name: Seq<char>) -> bool {
    let bytes = encode_utf8(name);
    bytes != seq![47u8] && bytes != seq![46u8] && bytes != seq![46u8, 46u8]
}

/// The unit directory of a record that names none is one above its paths, in the
/// build directory or at it, whose components end in `build`, the package and
/// the unit.
pub proof fn inferred_unit_dir_is_above_a_path(
    build_root: Seq<u8>,
    package: Seq<char>,
    unit: Seq<char>,
    paths: Seq<Seq<u8>>,
    dir: Seq<u8>,
)
    requires
        inferred_unit_dir(build_root, package, unit, paths) == Some(dir),
    ensures
        ({
            let c = components(dir);
            &&& exists|i: int|
                0 <= i < paths.len() && c.is_prefix_of(components(#[trigger] paths[i]))
            &&& components(build_root).is_prefix_of(c)
            &&& c.len() >= 3
            &&& c[c.len() - 1] == encode_utf8(unit)
            &&& c[c.len() - 2] == encode_utf8(package)
            &&& c[c.len() - 3] == encode_utf8("build"@)
        }),
{
    let candidates = unit_dir_candidates(build_root, package, unit, paths);
    assert(candidates.contains(candidates[candidates.len() - 1]));
    lemma_candidates(build_root, package, unit, paths, dir);
    lemma_unit_shaped(dir, package, unit);
    let i = choose|i: int| 0 <= i < paths.len() && starts_with(#[trigger] paths[i], dir);
    assert(components(dir).is_prefix_of(components(paths[i])));
}

/// Where a place above a path looks like the unit directory, it is what is found,
/// unless another such place differs. Then none is found.
pub proof fn only_unit_dir_above_the_paths_is_inferred(
    build_root: Seq<u8>,
    package: Seq<char>,
    unit: Seq<char>,
    paths: Seq<Seq<u8>>,
    i: int,
    n: int,
)
    requires
        can_be_named(unit),
        can_be_named(package),
        0 <= i < paths.len(),
        3 <= n <= components(paths[i]).len(),
        components(build_root).is_prefix_of(components(paths[i]).take(n)),
        components(paths[i])[n - 1] == encode_utf8(unit),
        components(paths[i])[n - 2] == encode_utf8(package),
        components(paths[i])[n - 3] == encode_utf8("build"@),
    ensures
        match inferred_unit_dir(build_root, package, unit, paths) {
            Some(dir) => components(dir) == components(paths[i]).take(n),
            None => exists|j: int, k: int|
                {
                    &&& 0 <= j < paths.len()
                    &&& 3 <= k <= components(paths[j]).len()
                    &&& (#[trigger] components(paths[j]).take(k)) != components(paths[i]).take(n)
                    &&& components(build_root).is_prefix_of(components(paths[j]).take(k))
                    &&& components(paths[j])[k - 1] == encode_utf8(unit)
                    &&& components(paths[j])[k - 2] == encode_utf8(package)
                    &&& components(paths[j])[k - 3] == encode_utf8("build"@)
                },
        },
{
    let candidates = unit_dir_candidates(build_root, package, unit, paths);
    let place = components(paths[i]).take(n);
    lemma_build_is_plain();
    assert(is_candidate(place, build_root, package, unit));
    let own = lemma_is_candidate(build_root, package, unit, paths, i, n);
    let x = choose|x: int| 0 <= x < candidates.len() && candidates[x] == own;
    if inferred_unit_dir(build_root, package, unit, paths) is Some {
        assert(same_path(candidates[x], candidates[0]));
        assert(same_path(candidates[candidates.len() - 1], candidates[0]));
    } else {
        let z = choose|z: int|
            0 <= z < candidates.len() && !same_path(#[trigger] candidates[z], candidates[0]);
        let dir = if same_path(candidates[z], own) {
            candidates[0]
        } else {
            candidates[z]
        };
        assert(candidates.contains(dir));
        assert(components(dir) != place);
        lemma_candidates(build_root, package, unit, paths, dir);
        lemma_unit_shaped(dir, package, unit);
        let j = choose|j: int| 0 <= j < paths.len() && starts_with(#[trigger] paths[j], dir);
        let k = components(dir).len() as int;
        assert(components(paths[j]).take(k) =~= components(dir));
        assert(components(paths[j]).take(k) != place);
    }
}

proof fn lemma_build_is_plain()
    ensures
        plain(encode_utf8("build"@)),
{
    reveal_strlit("build");
    is_ascii_chars_encode_utf8("build"@);
    let name = encode_utf8("build"@);
    assert(name.len() == 5);
    assert(seq![47u8].len() == 1 && seq![46u8].len() == 1 && seq![46u8, 46u8].len() == 2);
}

/// A record is brought up to date only where it is of the first version, names no
/// unit directory and one is found. It then names that directory, is of the
/// second version and has to be measured again; its paths are those beside the
/// directory, and all else stays.
pub proof fn legacy_record_gains_its_unit_dir(record: RecordModel, build_root: Seq<u8>)
    ensures
        ({
            let found = inferred_unit_dir(build_root, record.package, record.unit, record.paths);
            &&& upgraded(record, build_root) is Some <==> record.version == 1
                && record.unit_dir is None && found is Some
            &&& upgraded(record, build_root) matches Some(after) ==> {
                &&& after.version == 2
                &&& after.unit_dir == found
                &&& after.size is None
                &&& after.package == record.package
                &&& after.unit == record.unit
                &&& after.last_used == record.last_used
                &&& after.paths == sidecars(record.paths, found)
            }
        }),
{
}

} // verus!
