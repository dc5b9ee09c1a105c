//! What selecting a branch and recording it come to, told by the records, the
//! environment and the files alone.

use vstd::bytes::{lemma_auto_spec_u64_to_from_le_bytes, spec_u64_to_le_bytes};
use vstd::prelude::*;
use vstd::utf8::encode_utf8;

use crate::environment::{provisional_key_of, variable_value_of, EnvironmentModel};
use crate::input_variant::{
    branch_stream, fresh, is_provisional, lemma_contains_either, lemma_fresh, lemma_matching,
    lemma_with_key, matching, recorded, selected_key, selected_record, with_key, BranchModel, Known,
    SiteModel,
};
use crate::order::{
    bytes_le, sorted_set_is_strictly_ranked, sorted_set_members, stable_sort,
    stable_sort_is_permutation, stable_sort_is_ranked, strictly_ranked, strictly_ranked_unique,
    ties, total_preorder,
};
use crate::path::{
    components, join, lemma_body, lemma_join, lemma_spans, lemma_strip_prefix, path_le,
    path_le_is_total_preorder, path_order, same_path,
};
use crate::text::{
    hex_text, key_digits_injective, key_text_bytes, key_text_of, text_le, text_le_is_total_order,
};
use crate::tracking::{
    has_changed, located, resolved, stamp_at, stamp_at_ignores_spelling, tracked_each, tracked_file,
    tracked_le, tracked_le_is_total_preorder, tracking_keeps_the_file, FileStamp, TrackedModel,
    TrackedRoot,
};
use crate::variants::{
    accepted, entry_order, record_is_stale, rejected, schema_fits, values_of, variant_key_of,
    EncodedModel, InputSource, SchemaModel, UnitHash, VariantModel,
};
use crate::walk::is_json;

verus! {

/// What is seen of a file is what the first entry for it says, however its path
/// is spelled; of a file without an entry nothing is seen.
pub proof fn seen_file_is_the_first_entry(
    seen: Seq<(Seq<u8>, Option<FileStamp>)>,
    p: Seq<u8>,
)
    ensures
        (forall|k: int| 0 <= k < seen.len() ==> components((#[trigger] seen[k]).0) != components(p))
            ==> stamp_at(seen, p) is None,
        forall|k: int|
            0 <= k < seen.len() && components((#[trigger] seen[k]).0) == components(p) && (forall|
                j: int,
            |
                0 <= j < k ==> components((#[trigger] seen[j]).0) != components(p)) ==> stamp_at(
                seen,
                p,
            ) == seen[k].1,
    decreases seen.len(),
{
    if seen.len() > 0 {
        let rest = seen.skip(1);
        seen_file_is_the_first_entry(rest, p);
        if components(seen[0].0) != components(p) {
            if forall|k: int|
                0 <= k < seen.len() ==> components((#[trigger] seen[k]).0) != components(p) {
                assert forall|k: int| 0 <= k < rest.len() implies components(
                    (#[trigger] rest[k]).0,
                ) != components(p) by {
                    assert(rest[k] == seen[k + 1]);
                }
            }
            assert forall|k: int|
                0 <= k < seen.len() && components((#[trigger] seen[k]).0) == components(p) && (
                forall|j: int| 0 <= j < k ==> components((#[trigger] seen[j]).0) != components(p)) implies stamp_at(
                seen,
                p,
            ) == seen[k].1 by {
                assert(rest[k - 1] == seen[k]);
                assert forall|j: int| 0 <= j < k - 1 implies components((#[trigger] rest[j]).0)
                    != components(p) by {
                    assert(rest[j] == seen[j + 1]);
                }
            }
        }
    }
}

/// A record is stale exactly where one of its files is not as it was remembered:
/// longer or shorter, changed at another time, gone, or there where it was not.
pub proof fn record_is_stale_where_a_file_differs(
    record: VariantModel,
    package_root: Seq<u8>,
    build_root: Seq<u8>,
    seen: Seq<(Seq<u8>, Option<FileStamp>)>,
)
    ensures
        record_is_stale(record, package_root, build_root, seen) <==> exists|k: int|
            0 <= k < record.tracked_paths.len() && (#[trigger] record.tracked_paths[k]).stamp
                != stamp_at(
                seen,
                match record.tracked_paths[k].root {
                    TrackedRoot::Package => join(package_root, record.tracked_paths[k].path),
                    TrackedRoot::Build => join(build_root, record.tracked_paths[k].path),
                    TrackedRoot::Absolute => record.tracked_paths[k].path,
                },
            ),
{
    let stale = |k: int|
        record.tracked_paths[k].stamp != stamp_at(
            seen,
            resolved(record.tracked_paths[k], package_root, build_root),
        );
    if record_is_stale(record, package_root, build_root, seen) {
        let k = choose|k: int|
            0 <= k < record.tracked_paths.len() && has_changed(
                #[trigger] record.tracked_paths[k],
                package_root,
                build_root,
                seen,
            );
        assert(stale(k));
    }
    if exists|k: int|
        0 <= k < record.tracked_paths.len() && (#[trigger] record.tracked_paths[k]).stamp
            != stamp_at(
            seen,
            match record.tracked_paths[k].root {
                TrackedRoot::Package => join(package_root, record.tracked_paths[k].path),
                TrackedRoot::Build => join(build_root, record.tracked_paths[k].path),
                TrackedRoot::Absolute => record.tracked_paths[k].path,
            },
        ) {
        let k = choose|k: int|
            0 <= k < record.tracked_paths.len() && (#[trigger] record.tracked_paths[k]).stamp
                != stamp_at(
                seen,
                match record.tracked_paths[k].root {
                    TrackedRoot::Package => join(package_root, record.tracked_paths[k].path),
                    TrackedRoot::Build => join(build_root, record.tracked_paths[k].path),
                    TrackedRoot::Absolute => record.tracked_paths[k].path,
                },
            );
        assert(has_changed(
            record.tracked_paths[k],
            package_root,
            build_root,
            seen,
        ));
    }
}

/// The values that a branch is selected by are those of the names of the schema,
/// in order: each is unset where the environment has no value, and else the
/// bytes of its value in hexadecimal.
pub proof fn values_are_those_of_the_environment(e: EnvironmentModel, names: Seq<Seq<char>>)
    ensures
        values_of(e, names).len() == names.len(),
        forall|i: int|
            0 <= i < names.len() ==> (#[trigger] values_of(e, names)[i]).0 == names[i] && match variable_value_of(
                e,
                names[i],
            ) {
                None => values_of(e, names)[i].1 == EncodedModel::Unset,
                Some(bytes) => values_of(e, names)[i].1 == EncodedModel::UnixBytes(hex_text(bytes)),
            },
{
}

proof fn lemma_first_usable(
    records: Seq<VariantModel>,
    context: Seq<char>,
    values: Seq<(Seq<char>, EncodedModel)>,
    package_root: Seq<u8>,
    build_root: Seq<u8>,
    seen: Seq<(Seq<u8>, Option<FileStamp>)>,
)
    ensures
        ({
            let good = fresh(matching(records, context, values), package_root, build_root, seen);
            let usable = |r: VariantModel|
                r.context_id == context && r.values == values && !record_is_stale(
                    r,
                    package_root,
                    build_root,
                    seen,
                );
            &&& good.len() == 0 ==> forall|j: int|
                0 <= j < records.len() ==> !usable(#[trigger] records[j])
            &&& good.len() > 0 ==> exists|i: int|
                0 <= i < records.len() && #[trigger] records[i] == good[0] && usable(records[i])
                    && forall|j: int| 0 <= j < i ==> !usable(#[trigger] records[j])
        }),
    decreases records.len(),
{
    if records.len() > 0 {
        let init = records.drop_last();
        let last = records.last();
        lemma_first_usable(init, context, values, package_root, build_root, seen);
        let found = matching(init, context, values);
        let before = fresh(found, package_root, build_root, seen);
        let good = fresh(matching(records, context, values), package_root, build_root, seen);
        let usable = |r: VariantModel|
            r.context_id == context && r.values == values && !record_is_stale(
                r,
                package_root,
                build_root,
                seen,
            );
        if last.context_id == context && last.values == values {
            assert(found.push(last).drop_last() =~= found);
            assert(good == if usable(last) {
                before.push(last)
            } else {
                before
            });
        }
        if before.len() > 0 {
            let i = choose|i: int|
                0 <= i < init.len() && #[trigger] init[i] == before[0] && usable(init[i])
                    && forall|j: int| 0 <= j < i ==> !usable(#[trigger] init[j]);
            assert(records[i] == good[0]);
            assert forall|j: int| 0 <= j < i implies !usable(#[trigger] records[j]) by {
                assert(init[j] == records[j]);
            }
        } else {
            assert forall|j: int| 0 <= j < init.len() implies !usable(#[trigger] records[j]) by {
                assert(init[j] == records[j]);
            }
            if usable(last) {
                assert(records[records.len() - 1] == good[0]);
            }
        }
    }
}

/// The branch of a unit whose names are known, told by its records. Those of the
/// unit's context with the values of now count.
///
/// - Where there are some and each depends on a file that has changed, the branch
///   has to be refreshed, under the key of the whole environment, with
///   fine-grain locking or without.
/// - Where one of them depends on no changed file, the branch is that of such a
///   record: of one with the key of the whole environment where there is one,
///   and else of the first. Nothing has to be refreshed.
/// - Where there are none, the branch is that of the values, and the plain one
///   where there are no names.
pub proof fn branch_is_told_by_its_records(
    site: SiteModel,
    e: EnvironmentModel,
    known: Known,
    fine_grain_locking: bool,
)
    requires
        known.schema is Some,
    ensures
        ({
            let values = values_of(e, known.schema->0.names);
            let own = |r: VariantModel|
                r.context_id == key_text_of(site.context_id.value) && r.values == values;
            let unchanged = |r: VariantModel|
                forall|k: int|
                    0 <= k < r.tracked_paths.len() ==> (#[trigger] r.tracked_paths[k]).stamp
                        == stamp_at(
                        known.seen,
                        match r.tracked_paths[k].root {
                            TrackedRoot::Package => join(site.package_root, r.tracked_paths[k].path),
                            TrackedRoot::Build => join(site.build_root, r.tracked_paths[k].path),
                            TrackedRoot::Absolute => r.tracked_paths[k].path,
                        },
                    );
            let records = known.records;
            let some = exists|i: int| 0 <= i < records.len() && own(#[trigger] records[i]);
            let usable = exists|i: int|
                0 <= i < records.len() && own(#[trigger] records[i]) && unchanged(records[i]);
            let key = selected_key(site, e, known, fine_grain_locking);
            let record = selected_record(site, e, known, fine_grain_locking);
            &&& is_provisional(site, e, known, fine_grain_locking) <==> some && !usable
            &&& some && !usable ==> key == provisional_key_of(e) && record is None
            &&& usable ==> exists|i: int|
                0 <= i < records.len() && own(#[trigger] records[i]) && unchanged(records[i])
                    && record == Some(records[i]) && key == records[i].key && if exists|j: int|
                    0 <= j < records.len() && own(#[trigger] records[j]) && unchanged(records[j])
                        && records[j].key == provisional_key_of(e) {
                    key == provisional_key_of(e)
                } else {
                    forall|j: int|
                        0 <= j < i ==> !(own(#[trigger] records[j]) && unchanged(records[j]))
                }
            &&& !some && known.schema->0.names.len() == 0 ==> key == 0 && record is None
            &&& !some && known.schema->0.names.len() > 0 ==> key == variant_key_of(values) && record is None
        }),
{
    let values = values_of(e, known.schema->0.names);
    let context = key_text_of(site.context_id.value);
    let p = site.package_root;
    let b = site.build_root;
    let records = known.records;
    let found = matching(records, context, values);
    let good = fresh(found, p, b, known.seen);
    let preferred = provisional_key_of(e);
    let own = |r: VariantModel| r.context_id == context && r.values == values;
    let unchanged = |r: VariantModel|
        forall|k: int|
            0 <= k < r.tracked_paths.len() ==> (#[trigger] r.tracked_paths[k]).stamp == stamp_at(
                known.seen,
                match r.tracked_paths[k].root {
                    TrackedRoot::Package => join(site.package_root, r.tracked_paths[k].path),
                    TrackedRoot::Build => join(site.build_root, r.tracked_paths[k].path),
                    TrackedRoot::Absolute => r.tracked_paths[k].path,
                },
            );
    assert forall|r: VariantModel| #[trigger] unchanged(r) <==> !record_is_stale(
        r,
        p,
        b,
        known.seen,
    ) by {
        record_is_stale_where_a_file_differs(r, p, b, known.seen);
    }
    lemma_matching(records, context, values);
    lemma_fresh(found, p, b, known.seen);
    lemma_with_key(good, preferred);
    lemma_first_usable(records, context, values, p, b, known.seen);
    assert forall|i: int| 0 <= i < records.len() implies (own(#[trigger] records[i])
        <==> found.contains(records[i])) && (own(records[i]) && unchanged(records[i])
        <==> good.contains(records[i])) by {
        assert(records.contains(records[i]));
    }
    if found.len() > 0 {
        assert(found.contains(found[0]));
        assert(records.contains(found[0]));
        let i = choose|i: int| 0 <= i < records.len() && records[i] == found[0];
        assert(own(records[i]));
    } else {
        assert forall|i: int| 0 <= i < records.len() implies !own(#[trigger] records[i]) by {
            assert(!found.contains(records[i]));
        }
    }
    if good.len() > 0 {
        let first = choose|i: int|
            0 <= i < records.len() && #[trigger] records[i] == good[0] && own(records[i])
                && !record_is_stale(records[i], p, b, known.seen) && forall|j: int|
                0 <= j < i ==> !(own(#[trigger] records[j]) && !record_is_stale(
                    records[j],
                    p,
                    b,
                    known.seen,
                ));
        assert(unchanged(records[first]));
        match with_key(good, preferred) {
            Some(r) => {
                assert(good.contains(r) && found.contains(r) && records.contains(r));
                let i = choose|i: int| 0 <= i < records.len() && records[i] == r;
                assert(own(records[i]) && unchanged(records[i]));
                assert(records[i].key == preferred);
            },
            None => {
                assert forall|j: int|
                    0 <= j < records.len() && own(#[trigger] records[j]) && unchanged(
                        records[j],
                    ) implies records[j].key != preferred by {
                    assert(good.contains(records[j]));
                }
            },
        }
    } else {
        assert forall|i: int| 0 <= i < records.len() implies !(own(#[trigger] records[i])
            && unchanged(records[i])) by {
            assert(!good.contains(records[i]));
        }
    }
}

/// The branch of a unit of which nothing is known yet: with fine-grain locking it
/// has to be refreshed, under the key of the whole environment; without, it is
/// the plain one.
pub proof fn unknown_branch_is_provisional_or_plain(
    site: SiteModel,
    e: EnvironmentModel,
    known: Known,
    fine_grain_locking: bool,
)
    requires
        known.schema is None,
        known.records.len() == 0,
    ensures
        is_provisional(site, e, known, fine_grain_locking) == fine_grain_locking,
        selected_record(site, e, known, fine_grain_locking) is None,
        selected_key(site, e, known, fine_grain_locking) == if fine_grain_locking {
            provisional_key_of(e)
        } else {
            0
        },
{
}

/// Where a path that a build depended on is: below the package, unless it starts
/// at the root.
spec fn place_of(path: Seq<u8>, package_root: Seq<u8>) -> Seq<u8> {
    if path.len() > 0 && path[0] == 47 {
        path
    } else {
        join(package_root, path)
    }
}

proof fn lemma_tracked_path(
    v: BranchModel,
    names: Seq<Seq<char>>,
    paths: Seq<Seq<u8>>,
    previous: Option<SchemaModel>,
    seen: Seq<(Seq<u8>, Option<FileStamp>)>,
    now: u64,
    i: int,
)
    requires
        0 <= i < paths.len(),
    ensures
        ({
            let files = recorded(v, names, paths, previous, seen, now).record.tracked_paths;
            let place = place_of(paths[i], v.site.package_root);
            exists|k: int|
                0 <= k < files.len() && components(
                    resolved(#[trigger] files[k], v.site.package_root, v.site.build_root),
                ) == components(place) && files[k].stamp == stamp_at(seen, place)
        }),
{
    let p = v.site.package_root;
    let b = v.site.build_root;
    let le = |x: TrackedModel, y: TrackedModel| tracked_le(x, y);
    let each = tracked_each(paths, p, b, seen);
    let files = recorded(v, names, paths, previous, seen, now).record.tracked_paths;
    let t = tracked_file(paths[i], p, b, seen);
    let place = place_of(paths[i], p);
    tracked_le_is_total_preorder();
    sorted_set_is_strictly_ranked(each, le);
    tracking_keeps_the_file(paths[i], p, b, seen);
    assert(each[i] == t);
    assert(each.contains(t));
    let k = choose|k: int| 0 <= k < files.len() && ties(le)(#[trigger] files[k], t);
    assert(tracked_le(files[k], t) && tracked_le(t, files[k]));
    assert(files.contains(files[k]));
    let j = choose|j: int| 0 <= j < each.len() && each[j] == files[k];
    lemma_resolved_alike(paths[j], paths[i], p, b, seen);
}

/// Tracked files with one root and one path are one file.
proof fn lemma_resolved_alike(
    x: Seq<u8>,
    y: Seq<u8>,
    p: Seq<u8>,
    b: Seq<u8>,
    seen: Seq<(Seq<u8>, Option<FileStamp>)>,
)
    requires
        tracked_file(x, p, b, seen).root == tracked_file(y, p, b, seen).root,
        components(tracked_file(x, p, b, seen).path) == components(
            tracked_file(y, p, b, seen).path,
        ),
    ensures
        components(resolved(tracked_file(x, p, b, seen), p, b)) == components(
            resolved(tracked_file(y, p, b, seen), p, b),
        ),
{
    let s = tracked_file(x, p, b, seen);
    let t = tracked_file(y, p, b, seen);
    let base = match s.root {
        TrackedRoot::Package => p,
        _ => b,
    };
    if !(s.root is Absolute) {
        lemma_strip_prefix(located(x, p), base);
        lemma_strip_prefix(located(y, p), base);
        if base.len() > 0 {
            lemma_spans(base);
            lemma_body(s.path);
            lemma_body(t.path);
            lemma_join(base, s.path);
            lemma_join(base, t.path);
        } else {
            assert(join(base, s.path) =~= s.path);
            assert(join(base, t.path) =~= t.path);
        }
    }
}

proof fn lemma_path_of(
    v: BranchModel,
    names: Seq<Seq<char>>,
    paths: Seq<Seq<u8>>,
    previous: Option<SchemaModel>,
    seen: Seq<(Seq<u8>, Option<FileStamp>)>,
    now: u64,
    k: int,
)
    requires
        0 <= k < recorded(v, names, paths, previous, seen, now).record.tracked_paths.len(),
    ensures
        ({
            let files = recorded(v, names, paths, previous, seen, now).record.tracked_paths;
            exists|i: int|
                0 <= i < paths.len() && components(
                    resolved(files[k], v.site.package_root, v.site.build_root),
                ) == components(place_of(#[trigger] paths[i], v.site.package_root))
                    && files[k].stamp == stamp_at(seen, place_of(paths[i], v.site.package_root))
        }),
{
    let p = v.site.package_root;
    let b = v.site.build_root;
    let le = |x: TrackedModel, y: TrackedModel| tracked_le(x, y);
    let each = tracked_each(paths, p, b, seen);
    let files = recorded(v, names, paths, previous, seen, now).record.tracked_paths;
    tracked_le_is_total_preorder();
    sorted_set_is_strictly_ranked(each, le);
    assert(files.contains(files[k]));
    let i = choose|i: int| 0 <= i < each.len() && each[i] == files[k];
    tracking_keeps_the_file(paths[i], p, b, seen);
    assert(place_of(paths[i], p) == located(paths[i], p));
}

/// A record remembers every file that its build depended on, as it was seen. A path
/// that is not absolute is one below the package.
pub proof fn every_input_is_tracked(
    v: BranchModel,
    names: Seq<Seq<char>>,
    paths: Seq<Seq<u8>>,
    previous: Option<SchemaModel>,
    seen: Seq<(Seq<u8>, Option<FileStamp>)>,
    now: u64,
    i: int,
)
    requires
        0 <= i < paths.len(),
    ensures
        ({
            let files = recorded(v, names, paths, previous, seen, now).record.tracked_paths;
            let place = if paths[i].len() > 0 && paths[i][0] == 47 {
                paths[i]
            } else {
                join(v.site.package_root, paths[i])
            };
            exists|k: int|
                0 <= k < files.len() && (#[trigger] files[k]).stamp == stamp_at(seen, place)
                    && components(place) == components(
                    match files[k].root {
                        TrackedRoot::Package => join(v.site.package_root, files[k].path),
                        TrackedRoot::Build => join(v.site.build_root, files[k].path),
                        TrackedRoot::Absolute => files[k].path,
                    },
                )
        }),
{
    lemma_tracked_path(v, names, paths, previous, seen, now, i);
    let files = recorded(v, names, paths, previous, seen, now).record.tracked_paths;
    let place = place_of(paths[i], v.site.package_root);
    let k = choose|k: int|
        0 <= k < files.len() && components(
            resolved(#[trigger] files[k], v.site.package_root, v.site.build_root),
        ) == components(place) && files[k].stamp == stamp_at(seen, place);
    assert(files[k].stamp == stamp_at(seen, place));
}

/// A record remembers no file that its build did not depend on.
pub proof fn every_tracked_file_is_an_input(
    v: BranchModel,
    names: Seq<Seq<char>>,
    paths: Seq<Seq<u8>>,
    previous: Option<SchemaModel>,
    seen: Seq<(Seq<u8>, Option<FileStamp>)>,
    now: u64,
    k: int,
)
    requires
        0 <= k < recorded(v, names, paths, previous, seen, now).record.tracked_paths.len(),
    ensures
        ({
            let files = recorded(v, names, paths, previous, seen, now).record.tracked_paths;
            let file = match files[k].root {
                TrackedRoot::Package => join(v.site.package_root, files[k].path),
                TrackedRoot::Build => join(v.site.build_root, files[k].path),
                TrackedRoot::Absolute => files[k].path,
            };
            exists|i: int| #![trigger paths[i]]
                0 <= i < paths.len() && components(file) == components(
                    if paths[i].len() > 0 && paths[i][0] == 47 {
                        paths[i]
                    } else {
                        join(v.site.package_root, paths[i])
                    },
                ) && files[k].stamp == stamp_at(seen, file)
        }),
{
    lemma_path_of(v, names, paths, previous, seen, now, k);
    let files = recorded(v, names, paths, previous, seen, now).record.tracked_paths;
    let file = resolved(files[k], v.site.package_root, v.site.build_root);
    let i = choose|i: int|
        0 <= i < paths.len() && components(file) == components(
            place_of(#[trigger] paths[i], v.site.package_root),
        ) && files[k].stamp == stamp_at(seen, place_of(paths[i], v.site.package_root));
    stamp_at_ignores_spelling(seen, file, place_of(paths[i], v.site.package_root));
    assert(0 <= i < paths.len());
}

/// A record is stale, from the build that left it on, exactly where something else
/// is seen of one of the files that the build depended on.
pub proof fn record_is_stale_once_an_input_differs(
    v: BranchModel,
    names: Seq<Seq<char>>,
    paths: Seq<Seq<u8>>,
    previous: Option<SchemaModel>,
    seen: Seq<(Seq<u8>, Option<FileStamp>)>,
    now: u64,
    later: Seq<(Seq<u8>, Option<FileStamp>)>,
)
    ensures
        ({
            let record = recorded(v, names, paths, previous, seen, now).record;
            let place = |path: Seq<u8>|
                if path.len() > 0 && path[0] == 47 {
                    path
                } else {
                    join(v.site.package_root, path)
                };
            record_is_stale(record, v.site.package_root, v.site.build_root, later)
                <==> exists|i: int|
                0 <= i < paths.len() && stamp_at(later, place(#[trigger] paths[i])) != stamp_at(
                    seen,
                    place(paths[i]),
                )
        }),
{
    let p = v.site.package_root;
    let b = v.site.build_root;
    let record = recorded(v, names, paths, previous, seen, now).record;
    let files = record.tracked_paths;
    let place = |path: Seq<u8>|
        if path.len() > 0 && path[0] == 47 {
            path
        } else {
            join(v.site.package_root, path)
        };
    if record_is_stale(record, p, b, later) {
        let k = choose|k: int|
            0 <= k < files.len() && has_changed(#[trigger] files[k], p, b, later);
        lemma_path_of(v, names, paths, previous, seen, now, k);
        let i = choose|i: int|
            0 <= i < paths.len() && components(resolved(files[k], p, b)) == components(
                place_of(#[trigger] paths[i], p),
            ) && files[k].stamp == stamp_at(seen, place_of(paths[i], p));
        stamp_at_ignores_spelling(later, resolved(files[k], p, b), place_of(paths[i], p));
        assert(place(paths[i]) == place_of(paths[i], p));
    }
    if exists|i: int|
        0 <= i < paths.len() && stamp_at(later, place(#[trigger] paths[i])) != stamp_at(
            seen,
            place(paths[i]),
        ) {
        let i = choose|i: int|
            0 <= i < paths.len() && stamp_at(later, place(#[trigger] paths[i])) != stamp_at(
                seen,
                place(paths[i]),
            );
        assert(place(paths[i]) == place_of(paths[i], p));
        lemma_tracked_path(v, names, paths, previous, seen, now, i);
        let k = choose|k: int|
            0 <= k < files.len() && components(resolved(#[trigger] files[k], p, b)) == components(
                place_of(paths[i], p),
            ) && files[k].stamp == stamp_at(seen, place_of(paths[i], p));
        stamp_at_ignores_spelling(later, resolved(files[k], p, b), place_of(paths[i], p));
        assert(has_changed(files[k], p, b, later));
    }
}

/// What a record says of its build: the branch, the unit's context, the time, and
/// the values that the names of the schema left with it have.
pub proof fn record_tells_of_its_build(
    v: BranchModel,
    names: Seq<Seq<char>>,
    paths: Seq<Seq<u8>>,
    previous: Option<SchemaModel>,
    seen: Seq<(Seq<u8>, Option<FileStamp>)>,
    now: u64,
)
    ensures
        ({
            let left = recorded(v, names, paths, previous, seen, now);
            let text = |a: Seq<char>, b: Seq<char>| bytes_le(encode_utf8(a), encode_utf8(b));
            &&& left.record.version == 3 && left.schema.version == 3
            &&& left.record.key == v.key
            &&& left.record.context_id == key_text_of(v.site.context_id.value)
            &&& left.schema.schema_id == key_text_of(v.site.schema_id.value)
            &&& left.schema.source == v.site.source
            &&& left.record.created == now && left.record.last_used == now
            &&& left.record.values.len() == left.schema.names.len()
            &&& forall|i: int|
                0 <= i < left.schema.names.len() ==> (#[trigger] left.record.values[i]).0
                    == left.schema.names[i] && match variable_value_of(
                    v.environment,
                    left.schema.names[i],
                ) {
                    None => left.record.values[i].1 == EncodedModel::Unset,
                    Some(bytes) => left.record.values[i].1 == EncodedModel::UnixBytes(
                        hex_text(bytes),
                    ),
                }
            &&& forall|i: int, j: int|
                0 <= i < j < left.schema.names.len() ==> text(
                    #[trigger] left.schema.names[i],
                    #[trigger] left.schema.names[j],
                ) && left.schema.names[i] != left.schema.names[j]
        }),
{
    let left = recorded(v, names, paths, previous, seen, now);
    let le = |x: Seq<char>, y: Seq<char>| text_le(x, y);
    let all = (match previous {
        Some(schema) => schema.names,
        None => Seq::empty(),
    }) + names;
    text_le_is_total_order();
    sorted_set_is_strictly_ranked(all, le);
    assert forall|i: int, j: int| 0 <= i < j < left.schema.names.len() implies bytes_le(
        encode_utf8(#[trigger] left.schema.names[i]),
        encode_utf8(#[trigger] left.schema.names[j]),
    ) && left.schema.names[i] != left.schema.names[j] by {
        assert(le(left.schema.names[i], left.schema.names[j]) && !le(
            left.schema.names[j],
            left.schema.names[i],
        ));
    }
}

/// The plain branch writes nothing to a hasher, so that units without variants
/// keep their identity. Any other branch writes something, and branches that
/// write the same have one source and one key.
pub proof fn branches_are_told_apart(a: BranchModel, b: BranchModel)
    ensures
        branch_stream(a).len() == 0 <==> a.key == 0,
        a.key != 0 ==> branch_stream(a) == seq![
            match a.site.source {
                InputSource::BuildScriptEnv => 0u8,
                InputSource::RustcEnv => 1u8,
            },
        ] + spec_u64_to_le_bytes(a.key),
        a.key != 0 && b.key != 0 && branch_stream(a) == branch_stream(b) ==> a.key == b.key
            && a.site.source == b.site.source,
{
    lemma_auto_spec_u64_to_from_le_bytes();
    if a.key != 0 && b.key != 0 && branch_stream(a) == branch_stream(b) {
        assert(branch_stream(a)[0] == a.site.source.tag());
        assert(branch_stream(b)[0] == b.site.source.tag());
        assert(branch_stream(a).skip(1) =~= spec_u64_to_le_bytes(a.key));
        assert(branch_stream(b).skip(1) =~= spec_u64_to_le_bytes(b.key));
    }
}

/// The schema that a build leaves names what was known and what was observed, and
/// nothing else. Its generation is that of the schema before, or the next where
/// there is a name more; only then the records before are dropped. The first
/// schema has the generation zero and drops nothing.
pub proof fn schema_names_all_that_was_observed(
    v: BranchModel,
    names: Seq<Seq<char>>,
    paths: Seq<Seq<u8>>,
    previous: Option<SchemaModel>,
    seen: Seq<(Seq<u8>, Option<FileStamp>)>,
    now: u64,
    name: Seq<char>,
)
    requires
        previous matches Some(schema) ==> schema.generation < u64::MAX && forall|i: int, j: int|
            0 <= i < j < schema.names.len() ==> bytes_le(
                encode_utf8(#[trigger] schema.names[i]),
                encode_utf8(#[trigger] schema.names[j]),
            ) && schema.names[i] != schema.names[j],
    ensures
        ({
            let left = recorded(v, names, paths, previous, seen, now);
            &&& left.schema.names.contains(name) <==> names.contains(name) || (previous matches Some(
                schema,
            ) && schema.names.contains(name))
            &&& left.record.generation == left.schema.generation
            &&& match previous {
                None => left.schema.generation == 0 && !left.drop_records,
                Some(schema) => {
                    let more = exists|i: int|
                        0 <= i < names.len() && !schema.names.contains(#[trigger] names[i]);
                    &&& left.drop_records <==> more
                    &&& left.schema.generation == if more {
                        schema.generation + 1
                    } else {
                        schema.generation as int
                    }
                },
            }
        }),
{
    let left = recorded(v, names, paths, previous, seen, now);
    let le = |a: Seq<char>, b: Seq<char>| text_le(a, b);
    let known = match previous {
        Some(schema) => schema.names,
        None => Seq::empty(),
    };
    text_le_is_total_order();
    sorted_set_members(known + names, le);
    lemma_contains_either(known, names, name);
    assert(left.schema.names.contains(name) <==> (known + names).contains(name));
    if previous is Some {
        let more = exists|i: int| 0 <= i < names.len() && !known.contains(#[trigger] names[i]);
        if !more {
            sorted_set_is_strictly_ranked(known + names, le);
            assert forall|x: Seq<char>| #[trigger] known.contains(x) <==> left.schema.names.contains(
                x,
            ) by {
                lemma_contains_either(known, names, x);
                if names.contains(x) {
                    let i = choose|i: int| 0 <= i < names.len() && names[i] == x;
                    assert(known.contains(names[i]));
                }
            }
            assert(strictly_ranked(known, le)) by {
                assert forall|i: int, j: int| 0 <= i < j < known.len() implies le(
                    #[trigger] known[i],
                    #[trigger] known[j],
                ) && !le(known[j], known[i]) by {
                    assert(bytes_le(encode_utf8(known[i]), encode_utf8(known[j])));
                    if le(known[j], known[i]) {
                        assert(le(known[i], known[j]));
                        assert(known[i] == known[j]);
                    }
                }
            }
            strictly_ranked_unique(known, left.schema.names, le);
        } else {
            let i = choose|i: int| 0 <= i < names.len() && !known.contains(#[trigger] names[i]);
            lemma_contains_either(known, names, names[i]);
            assert(names.contains(names[i]));
            assert(left.schema.names.contains(names[i]));
        }
    }
}

/// A tracked file is kept relative to the package where it lies in it, else
/// relative to the build directory where it lies in that, and else as it is. So
/// a record holds wherever these two are.
pub proof fn tracked_file_moves_with_its_root(
    path: Seq<u8>,
    package_root: Seq<u8>,
    build_root: Seq<u8>,
    seen: Seq<(Seq<u8>, Option<FileStamp>)>,
)
    ensures
        ({
            let place = if path.len() > 0 && path[0] == 47 {
                path
            } else {
                join(package_root, path)
            };
            let below = |root: Seq<u8>| components(root).is_prefix_of(components(place));
            let t = tracked_file(path, package_root, build_root, seen);
            &&& t.root == if below(package_root) {
                TrackedRoot::Package
            } else if below(build_root) {
                TrackedRoot::Build
            } else {
                TrackedRoot::Absolute
            }
            &&& t.root == TrackedRoot::Package ==> components(t.path) == components(place).skip(
                components(package_root).len() as int,
            )
            &&& t.root == TrackedRoot::Build ==> components(t.path) == components(place).skip(
                components(build_root).len() as int,
            )
            &&& t.root == TrackedRoot::Absolute ==> t.path == place
            &&& t.stamp == stamp_at(seen, place)
        }),
{
    let place = located(path, package_root);
    if components(package_root).is_prefix_of(components(place)) {
        lemma_strip_prefix(place, package_root);
    } else if components(build_root).is_prefix_of(components(place)) {
        lemma_strip_prefix(place, build_root);
    }
}

/// Of the files in a unit's directory of records, a JSON file with a record of the
/// third version and of the schema's generation counts.
pub proof fn record_of_the_generation_counts(
    entries: Seq<(Seq<u8>, Option<VariantModel>)>,
    generation: u64,
    i: int,
    record: VariantModel,
)
    requires
        0 <= i < entries.len(),
        is_json(entries[i].0),
        entries[i].1 == Some(record),
        record.version == 3,
        record.generation == generation,
    ensures
        accepted(entries, generation).contains(record),
    decreases entries.len(),
{
    let init = entries.drop_last();
    let before = accepted(init, generation);
    let all = accepted(entries, generation);
    if i < init.len() {
        assert(init[i] == entries[i]);
        record_of_the_generation_counts(init, generation, i, record);
        let x = choose|x: int| 0 <= x < before.len() && before[x] == record;
        assert(all[x] == record);
    } else {
        assert(all[before.len() as int] == record);
    }
}

/// No other file counts as a record.
pub proof fn only_records_of_the_generation_count(
    entries: Seq<(Seq<u8>, Option<VariantModel>)>,
    generation: u64,
    k: int,
)
    requires
        0 <= k < accepted(entries, generation).len(),
    ensures
        accepted(entries, generation)[k].version == 3,
        accepted(entries, generation)[k].generation == generation,
        exists|i: int|
            0 <= i < entries.len() && is_json((#[trigger] entries[i]).0) && entries[i].1 == Some(
                accepted(entries, generation)[k],
            ),
    decreases entries.len(),
{
    let init = entries.drop_last();
    let before = accepted(init, generation);
    let all = accepted(entries, generation);
    let n = entries.len() - 1;
    assert(entries[n] == entries.last());
    if k < before.len() {
        only_records_of_the_generation_count(init, generation, k);
        assert(all[k] == before[k]);
        let i = choose|i: int|
            0 <= i < init.len() && is_json((#[trigger] init[i]).0) && init[i].1 == Some(before[k]);
        assert(entries[i] == init[i]);
    } else {
        assert(is_json(entries[n].0) && entries[n].1 == Some(all[k]));
    }
}

/// The files to be removed from a unit's directory of records are the JSON files
/// that hold no record of the third version and of the schema's generation.
pub proof fn useless_records_are_rejected(
    entries: Seq<(Seq<u8>, Option<VariantModel>)>,
    generation: u64,
    path: Seq<u8>,
)
    ensures
        rejected(entries, generation).contains(path) <==> exists|i: int|
            0 <= i < entries.len() && (#[trigger] entries[i]).0 == path && is_json(path) && !(
            entries[i].1 matches Some(record) && record.version == 3 && record.generation
                == generation),
    decreases entries.len(),
{
    if entries.len() > 0 {
        let init = entries.drop_last();
        useless_records_are_rejected(init, generation, path);
        let before = rejected(init, generation);
        let all = rejected(entries, generation);
        let n = entries.len() - 1;
        assert(entries[n] == entries.last());
        assert forall|i: int| 0 <= i < n implies init[i] == #[trigger] entries[i] by {}
        if all.contains(path) {
            let x = choose|x: int| 0 <= x < all.len() && all[x] == path;
            if x < before.len() {
                assert(before[x] == path);
                let i = choose|i: int|
                    0 <= i < init.len() && (#[trigger] init[i]).0 == path && is_json(path) && !(
                    init[i].1 matches Some(record) && record.version == 3 && record.generation
                        == generation);
                assert(entries[i] == init[i]);
            } else {
                assert(entries[n].0 == path);
            }
        }
        if exists|i: int|
            0 <= i < entries.len() && (#[trigger] entries[i]).0 == path && is_json(path) && !(
            entries[i].1 matches Some(record) && record.version == 3 && record.generation
                == generation) {
            let i = choose|i: int|
                0 <= i < entries.len() && (#[trigger] entries[i]).0 == path && is_json(path) && !(
                entries[i].1 matches Some(record) && record.version == 3 && record.generation
                    == generation);
            if i < n {
                assert(init[i] == entries[i]);
                let x = choose|x: int| 0 <= x < before.len() && before[x] == path;
                assert(all[x] == path);
            } else {
                assert(all[before.len() as int] == path);
            }
        }
    }
}

/// A schema is that of a unit where it is of the third version and names the
/// source and the unit. So the schema that a build leaves is one for its own
/// unit, and for no unit of another source or hash.
pub proof fn schema_is_for_one_unit(
    v: BranchModel,
    names: Seq<Seq<char>>,
    paths: Seq<Seq<u8>>,
    previous: Option<SchemaModel>,
    seen: Seq<(Seq<u8>, Option<FileStamp>)>,
    now: u64,
    schema: SchemaModel,
    source: InputSource,
    id: UnitHash,
)
    ensures
        schema_fits(schema, source, id) ==> schema.version == 3 && schema.source == source
            && schema.schema_id == key_text_of(id.value),
        schema_fits(
            recorded(v, names, paths, previous, seen, now).schema,
            source,
            id,
        ) <==> source == v.site.source && id.value == v.site.schema_id.value,
{
    let left = recorded(v, names, paths, previous, seen, now).schema;
    if left.schema_id == key_text_of(id.value) {
        key_text_bytes(id.value);
        key_text_bytes(v.site.schema_id.value);
        key_digits_injective(id.value, v.site.schema_id.value);
    }
}

/// The files that a record tracks are in order and each is there once: those of the
/// package come first, then those of the build directory, then the others; within
/// each they come in the order of paths.
pub proof fn tracked_files_are_in_order(
    v: BranchModel,
    names: Seq<Seq<char>>,
    paths: Seq<Seq<u8>>,
    previous: Option<SchemaModel>,
    seen: Seq<(Seq<u8>, Option<FileStamp>)>,
    now: u64,
    i: int,
    j: int,
)
    requires
        0 <= i < j < recorded(v, names, paths, previous, seen, now).record.tracked_paths.len(),
    ensures
        ({
            let files = recorded(v, names, paths, previous, seen, now).record.tracked_paths;
            let rank = |t: TrackedModel|
                match t.root {
                    TrackedRoot::Package => 0int,
                    TrackedRoot::Build => 1,
                    TrackedRoot::Absolute => 2,
                };
            &&& rank(files[i]) <= rank(files[j])
            &&& rank(files[i]) == rank(files[j]) ==> path_le(files[i].path, files[j].path)
            &&& components(files[i].path) == components(files[j].path) && files[i].root
                == files[j].root ==> files[i].stamp != files[j].stamp
        }),
{
    let files = recorded(v, names, paths, previous, seen, now).record.tracked_paths;
    let le = |x: TrackedModel, y: TrackedModel| tracked_le(x, y);
    tracked_le_is_total_preorder();
    path_le_is_total_preorder();
    sorted_set_is_strictly_ranked(
        tracked_each(paths, v.site.package_root, v.site.build_root, seen),
        le,
    );
    assert(le(files[i], files[j]) && !le(files[j], files[i]));
    assert((path_le(files[i].path, files[j].path) && path_le(files[j].path, files[i].path))
        <==> same_path(files[i].path, files[j].path));
}

/// Records are read in the order of their files' paths, and none is left out.
pub proof fn records_are_read_in_the_order_of_their_files(
    entries: Seq<(Seq<u8>, Option<VariantModel>)>,
    i: int,
    j: int,
)
    ensures
        ({
            let sorted = stable_sort(entries, entry_order());
            &&& sorted.to_multiset() == entries.to_multiset()
            &&& 0 <= i < j < sorted.len() ==> path_le(sorted[i].0, sorted[j].0)
        }),
{
    let le = entry_order();
    let sorted = stable_sort(entries, le);
    path_le_is_total_preorder();
    let paths = path_order();
    assert(total_preorder(le)) by {
        assert forall|
            a: (Seq<u8>, Option<VariantModel>),
            b: (Seq<u8>, Option<VariantModel>),
        | #[trigger] le(a, b) || le(b, a) by {
            assert(paths(a.0, b.0) || paths(b.0, a.0));
        }
        assert forall|
            a: (Seq<u8>, Option<VariantModel>),
            b: (Seq<u8>, Option<VariantModel>),
            c: (Seq<u8>, Option<VariantModel>),
        | #[trigger] le(a, b) && #[trigger] le(b, c) implies le(a, c) by {
            assert(paths(a.0, b.0) && paths(b.0, c.0));
        }
    }
    stable_sort_is_permutation(entries, le);
    stable_sort_is_ranked(entries, le);
    if 0 <= i < j < sorted.len() {
        assert(le(sorted[i], sorted[j]));
    }
}

} // verus!
