//! Cleaning runs over a file tree: what they see of it, and what they leave.

use vstd::prelude::*;
use vstd::utf8::{encode_utf8, is_ascii_chars_encode_utf8};

use crate::clean::{
    admission, all_sized, decide_on, decided, doomed_at, expects, expired, is_stale, measure_on,
    measured, next_unsized, next_unsized_doomed, outputs_root, read_on, records_root, removal,
    removed_before, removed_sizes, report_of, size_of, sizes_of, start, step, used_le, with_outputs,
    Admission, CleanModel, EffectModel, LastUsedRecord, Ledger, ObservationModel, RequestModel,
    StageModel, StepModel, StoredModel,
};
use crate::clean_laws::{
    answers, complete_run_removes_what_it_reports, dry, dry_run_reports_without_removing, extend,
    kept_sizes, lemma_measured_prefix, lemma_next_unsized, lemma_next_unsized_doomed,
    retained_never_grows, run, size_limit_is_met, size_limit_removes_least_recently_used_first,
};
use crate::order::{
    stable_sort, stable_sort_is_permutation, strictly_ranked, strictly_ranked_unique,
};
use crate::outputs::{
    all_owned, owned_paths_of, ownership_fault, upgrade_keeps_ownership, upgraded, RecordModel,
};
use crate::path::{components, path_le, starts_with, starts_with_is_partial_order};
use crate::path_set::{
    covered, measured_paths_cover_without_overlap, measured_paths_of,
    minimal_paths_cover_without_overlap,
};
use crate::walk::{capped, sum};

verus! {

/// What cleaning runs see of a file tree: the output records and the variant
/// records, each under its file with what the file holds, and all other files
/// with their sizes.
#[verifier::ext_equal]
pub struct Tree {
    pub outputs: Map<Seq<u8>, Option<RecordModel>>,
    pub variants: Map<Seq<u8>, Option<LastUsedRecord>>,
    pub files: Seq<(Seq<u8>, u64)>,
}

/// The bytes in the files at a path or below it.
pub open spec fn bytes_below(files: Seq<(Seq<u8>, u64)>, path: Seq<u8>) -> nat
    decreases files.len(),
{
    if files.len() == 0 {
        0
    } else {
        bytes_below(files.drop_last(), path) + if starts_with(files.last().0, path) {
            files.last().1 as nat
        } else {
            0
        }
    }
}

/// The change removes this file.
pub open spec fn takes(change: EffectModel, file: Seq<u8>) -> bool {
    match change {
        EffectModel::RemoveFile(p) => file == p,
        EffectModel::RemovePath(p) => starts_with(file, p),
        EffectModel::Write(_, _) => false,
    }
}

/// The files that the change leaves.
pub open spec fn files_left(files: Seq<(Seq<u8>, u64)>, change: EffectModel) -> Seq<(Seq<u8>, u64)>
    decreases files.len(),
{
    if files.len() == 0 {
        files
    } else if takes(change, files.last().0) {
        files_left(files.drop_last(), change)
    } else {
        files_left(files.drop_last(), change).push(files.last())
    }
}

/// The tree with a change made to it.
pub open spec fn changed_tree(t: Tree, change: EffectModel) -> Tree {
    let outputs = t.outputs.remove_keys(Set::new(|f: Seq<u8>| takes(change, f)));
    Tree {
        outputs: match change {
            EffectModel::Write(p, record) => outputs.insert(p, Some(record)),
            _ => outputs,
        },
        variants: t.variants.remove_keys(Set::new(|f: Seq<u8>| takes(change, f))),
        files: files_left(t.files, change),
    }
}

/// The tree with changes made to it, one after the other.
pub open spec fn tree_after(t: Tree, changes: Seq<EffectModel>) -> Tree
    decreases changes.len(),
{
    if changes.len() == 0 {
        t
    } else {
        changed_tree(tree_after(t, changes.drop_last()), changes.last())
    }
}

/// The order of paths.
pub open spec fn path_order() -> spec_fn(Seq<u8>, Seq<u8>) -> bool {
    |p: Seq<u8>, q: Seq<u8>| path_le(p, q)
}

/// These are the files that a map is over, in path order.
pub open spec fn lists<V>(files: Seq<Seq<u8>>, map: Map<Seq<u8>, V>) -> bool {
    &&& strictly_ranked(files, path_order())
    &&& forall|p: Seq<u8>| #[trigger] files.contains(p) <==> map.contains_key(p)
}

/// What a file holds, where it is there and can be understood.
pub open spec fn held<V>(map: Map<Seq<u8>, Option<V>>, file: Seq<u8>) -> Option<V> {
    if map.contains_key(file) {
        map[file]
    } else {
        None
    }
}

/// The observation is what the tree shows to whom asks this.
pub open spec fn shows(
    t: Tree,
    build_root: Seq<u8>,
    request: RequestModel,
    seen: ObservationModel,
) -> bool {
    match (request, seen) {
        (RequestModel::List(root), ObservationModel::Files(files)) => if root == outputs_root(
            build_root,
        ) {
            lists(files, t.outputs)
        } else {
            lists(files, t.variants)
        },
        (RequestModel::ReadOutput(p), ObservationModel::Record(record)) => record == held(
            t.outputs,
            p,
        ),
        (RequestModel::Measure(paths), ObservationModel::Sizes(sizes)) => sizes == Seq::new(
            paths.len(),
            |k: int| capped(bytes_below(t.files, paths[k])),
        ),
        (RequestModel::ReadLastUsed(p), ObservationModel::LastUsed(record)) => record == held(
            t.variants,
            p,
        ),
        _ => false,
    }
}

/// Each observation is what the tree shows, with the changes made that the run
/// has asked for until then.
pub open spec fn sees(m: CleanModel, t: Tree, seen: Seq<ObservationModel>) -> bool
    decreases seen.len(),
{
    seen.len() > 0 ==> {
        let before = run(m, seen.drop_last());
        &&& sees(m, t, seen.drop_last())
        &&& shows(tree_after(t, before.effects), m.build_root, before.request, seen.last())
    }
}

proof fn lemma_roots_differ(build_root: Seq<u8>)
    ensures
        outputs_root(build_root) != records_root(build_root),
{
    let a = ".input-variants/v1/outputs"@;
    let b = ".input-variants/v1/records"@;
    reveal_strlit(".input-variants/v1/outputs");
    reveal_strlit(".input-variants/v1/records");
    is_ascii_chars_encode_utf8(a);
    is_ascii_chars_encode_utf8(b);
    let x = encode_utf8(a);
    let y = encode_utf8(b);
    assert(x[19] != y[19]);
    let p = outputs_root(build_root);
    let q = records_root(build_root);
    if p == q {
        let n = p.len() - x.len();
        assert(p[n + 19] == x[19]);
        assert(q[n + 19] == y[19]);
    }
}

/// Variant records are only ever removed.
proof fn lemma_variants_after(t: Tree, changes: Seq<EffectModel>, p: Seq<u8>)
    ensures
        ({
            let after = tree_after(t, changes).variants;
            &&& after.contains_key(p) <==> t.variants.contains_key(p) && forall|k: int|
                0 <= k < changes.len() ==> !takes(#[trigger] changes[k], p)
            &&& after.contains_key(p) ==> after[p] == t.variants[p]
        }),
    decreases changes.len(),
{
    if changes.len() > 0 {
        let init = changes.drop_last();
        lemma_variants_after(t, init, p);
        assert(changes.last() == changes[changes.len() - 1]);
        assert forall|k: int| 0 <= k < init.len() implies changes[k] == #[trigger] init[k] by {}
        if forall|k: int| 0 <= k < changes.len() ==> !takes(#[trigger] changes[k], p) {
            assert forall|k: int| 0 <= k < init.len() implies !takes(#[trigger] init[k], p) by {
                assert(!takes(changes[k], p));
            }
        }
        if forall|k: int| 0 <= k < init.len() ==> !takes(#[trigger] init[k], p) {
            if !takes(changes.last(), p) {
                assert forall|k: int| 0 <= k < changes.len() implies !takes(
                    #[trigger] changes[k],
                    p,
                ) by {
                    if k < init.len() {
                        assert(!takes(init[k], p));
                    }
                }
            }
        }
    }
}

/// The change writes this file.
spec fn writes(change: EffectModel, file: Seq<u8>) -> bool {
    change matches EffectModel::Write(p, _) && p == file
}

/// An output record that is there and was not written is the one there before,
/// and nothing has removed it.
proof fn lemma_output_unwritten(t: Tree, changes: Seq<EffectModel>, p: Seq<u8>)
    requires
        forall|k: int| 0 <= k < changes.len() ==> !writes(#[trigger] changes[k], p),
    ensures
        ({
            let after = tree_after(t, changes).outputs;
            &&& after.contains_key(p) <==> t.outputs.contains_key(p) && forall|k: int|
                0 <= k < changes.len() ==> !takes(#[trigger] changes[k], p)
            &&& after.contains_key(p) ==> after[p] == t.outputs[p]
        }),
    decreases changes.len(),
{
    if changes.len() > 0 {
        let init = changes.drop_last();
        assert(changes.last() == changes[changes.len() - 1]);
        assert(!writes(changes.last(), p));
        assert forall|k: int| 0 <= k < init.len() implies !writes(#[trigger] init[k], p) by {
            assert(!writes(changes[k], p));
        }
        lemma_output_unwritten(t, init, p);
        if forall|k: int| 0 <= k < changes.len() ==> !takes(#[trigger] changes[k], p) {
            assert forall|k: int| 0 <= k < init.len() implies !takes(#[trigger] init[k], p) by {
                assert(!takes(changes[k], p));
            }
        }
        if forall|k: int| 0 <= k < init.len() ==> !takes(#[trigger] init[k], p) {
            if !takes(changes.last(), p) {
                assert forall|k: int| 0 <= k < changes.len() implies !takes(
                    #[trigger] changes[k],
                    p,
                ) by {
                    if k < init.len() {
                        assert(!takes(init[k], p));
                    }
                }
            }
        }
    }
}

/// An output record that is there and was written holds what was written.
proof fn lemma_output_written(t: Tree, changes: Seq<EffectModel>, p: Seq<u8>, record: RecordModel)
    requires
        changes.contains(EffectModel::Write(p, record)),
        forall|k: int|
            0 <= k < changes.len() && writes(#[trigger] changes[k], p) ==> changes[k]
                == EffectModel::Write(p, record),
    ensures
        ({
            let after = tree_after(t, changes).outputs;
            after.contains_key(p) ==> after[p] == Some(record)
        }),
    decreases changes.len(),
{
    let init = changes.drop_last();
    let last = changes.last();
    assert(last == changes[changes.len() - 1]);
    if last != EffectModel::Write(p, record) {
        assert(!writes(last, p));
        let k = choose|k: int|
            0 <= k < changes.len() && changes[k] == EffectModel::Write(p, record);
        assert(init[k] == changes[k]);
        assert forall|k: int| 0 <= k < init.len() && writes(#[trigger] init[k], p) implies init[k]
            == EffectModel::Write(p, record) by {
            assert(writes(changes[k], p));
        }
        lemma_output_written(t, init, p, record);
    }
}

proof fn lemma_bytes_left(files: Seq<(Seq<u8>, u64)>, change: EffectModel, q: Seq<u8>)
    requires
        forall|f: Seq<u8>| #[trigger] takes(change, f) ==> !starts_with(f, q),
    ensures
        bytes_below(files_left(files, change), q) == bytes_below(files, q),
    decreases files.len(),
{
    if files.len() > 0 {
        let init = files.drop_last();
        lemma_bytes_left(init, change, q);
        if !takes(change, files.last().0) {
            let left = files_left(init, change);
            assert(left.push(files.last()).drop_last() =~= left);
        }
    }
}

/// Changes that take nothing below a path leave its size alone.
proof fn lemma_bytes_after(t: Tree, changes: Seq<EffectModel>, q: Seq<u8>)
    requires
        forall|k: int, f: Seq<u8>|
            0 <= k < changes.len() && #[trigger] takes(changes[k], f) ==> !starts_with(f, q),
    ensures
        bytes_below(tree_after(t, changes).files, q) == bytes_below(t.files, q),
    decreases changes.len(),
{
    if changes.len() > 0 {
        let init = changes.drop_last();
        assert forall|k: int, f: Seq<u8>|
            0 <= k < init.len() && #[trigger] takes(init[k], f) implies !starts_with(f, q) by {
            assert(takes(changes[k], f));
        }
        lemma_bytes_after(t, init, q);
        assert forall|f: Seq<u8>| #[trigger] takes(changes.last(), f) implies !starts_with(f, q) by {
            assert(takes(changes[changes.len() - 1], f));
        }
        lemma_bytes_left(tree_after(t, init).files, changes.last(), q);
    }
}

/// The outputs accepted from these record files.
spec fn read_outputs(t: Tree, build_root: Seq<u8>, target_root: Seq<u8>, files: Seq<Seq<u8>>) -> Seq<
    StoredModel,
>
    decreases files.len(),
{
    if files.len() == 0 {
        Seq::empty()
    } else {
        let before = read_outputs(t, build_root, target_root, files.drop_last());
        match admission(build_root, target_root, files.last(), held(t.outputs, files.last())) {
            Admission::Keep(output) => before.push(output),
            _ => before,
        }
    }
}

/// The changes that reading these record files leads to.
spec fn read_changes(m: CleanModel, t: Tree, files: Seq<Seq<u8>>) -> Seq<EffectModel> {
    if m.dry_run {
        Seq::empty()
    } else {
        discards(t, m.build_root, m.target_root, files)
    }
}

/// The removals of those of these record files that cannot be used.
spec fn discards(t: Tree, build_root: Seq<u8>, target_root: Seq<u8>, files: Seq<Seq<u8>>) -> Seq<
    EffectModel,
>
    decreases files.len(),
{
    if files.len() == 0 {
        Seq::empty()
    } else {
        let before = discards(t, build_root, target_root, files.drop_last());
        match admission(build_root, target_root, files.last(), held(t.outputs, files.last())) {
            Admission::Discard => before.push(EffectModel::RemoveFile(files.last())),
            _ => before,
        }
    }
}

/// The output, or the output with its size measured.
spec fn fills(o: StoredModel, now: StoredModel) -> bool {
    now == o || {
        &&& o.record.size is None
        &&& now.record.size is Some
        &&& now == (StoredModel {
            record: RecordModel { size: now.record.size, ..o.record },
            changed: true,
            ..o
        })
    }
}

/// The outputs read from the tree in the order of their use.
spec fn in_use_order(t: Tree, build_root: Seq<u8>, target_root: Seq<u8>, files: Seq<Seq<u8>>) -> Seq<
    StoredModel,
> {
    stable_sort(
        read_outputs(t, build_root, target_root, files),
        |a: StoredModel, b: StoredModel| used_le(a, b),
    )
}

/// None of these record files claims what no unit may own.
spec fn unrefused(t: Tree, build_root: Seq<u8>, target_root: Seq<u8>, files: Seq<Seq<u8>>) -> bool {
    forall|k: int|
        0 <= k < files.len() ==> !(admission(
            build_root,
            target_root,
            #[trigger] files[k],
            held(t.outputs, files[k]),
        ) is Refuse)
}

/// The outputs of the run are those read from the tree, in the order of their
/// use, some with their sizes measured.
spec fn filled(m: CleanModel, t: Tree, files: Seq<Seq<u8>>) -> bool {
    let read = in_use_order(t, m.build_root, m.target_root, files);
    &&& unrefused(t, m.build_root, m.target_root, files)
    &&& m.ledger.outputs.len() == read.len()
    &&& forall|k: int| 0 <= k < read.len() ==> fills(read[k], #[trigger] m.ledger.outputs[k])
}

/// The removals of stale variant records.
spec fn stale_changes(m: CleanModel) -> Seq<EffectModel> {
    if m.dry_run {
        Seq::empty()
    } else {
        Seq::new(m.stale.len(), |k: int| EffectModel::RemoveFile(m.stale[k]))
    }
}

/// The changes of a run that has decided all outputs.
spec fn all_changes(m: CleanModel, t: Tree, files: Seq<Seq<u8>>) -> Seq<EffectModel> {
    read_changes(m, t, files) + decided(m.ledger, m.dry_run, 0, m.ledger.outputs.len() as int)
        + stale_changes(m)
}

/// The variant records are sifted but for those that are left to read.
spec fn sifted(m: CleanModel, t: Tree, changes: Seq<EffectModel>, rest: Seq<Seq<u8>>) -> bool {
    let now = tree_after(t, changes).variants;
    &&& forall|i: int, j: int| 0 <= i < j < rest.len() ==> rest[i] != rest[j]
    &&& forall|p: Seq<u8>| #[trigger] rest.contains(p) ==> now.contains_key(p)
    &&& forall|p: Seq<u8>| #[trigger]
        now.contains_key(p) ==> rest.contains(p) || !is_stale(t.variants[p], m.ledger.cutoff) || (
        m.dry_run && m.stale.contains(p))
    &&& forall|k: int|
        0 <= k < m.stale.len() ==> t.variants.contains_key(#[trigger] m.stale[k]) && is_stale(
            t.variants[m.stale[k]],
            m.ledger.cutoff,
        )
}

/// What a run that started on these record files of the tree has come to.
spec fn traced(t: Tree, files: Seq<Seq<u8>>, r: StepModel) -> bool {
    let m = r.state;
    let l = m.ledger;
    let n = l.outputs.len() as int;
    match m.stage {
        StageModel::Listing => false,
        StageModel::Reading(rest) => {
            let k = files.len() - rest.len();
            &&& 0 <= k < files.len()
            &&& rest == files.skip(k)
            &&& unrefused(t, m.build_root, m.target_root, files.take(k))
            &&& l.outputs == read_outputs(t, m.build_root, m.target_root, files.take(k))
            &&& r.effects == read_changes(m, t, files.take(k))
            &&& m.stale.len() == 0
            &&& r.request == RequestModel::ReadOutput(rest[0])
        },
        StageModel::Measuring(i) => {
            &&& 0 <= i < n
            &&& l.max_size is Some
            &&& l.outputs[i].record.size is None
            &&& forall|k: int| 0 <= k < i ==> (#[trigger] l.outputs[k]).record.size is Some
            &&& filled(m, t, files)
            &&& r.effects == read_changes(m, t, files)
            &&& m.stale.len() == 0
            &&& r.request == RequestModel::Measure(measured_paths_of(l.outputs[i].owned))
        },
        StageModel::Deciding(i) => {
            &&& 0 <= i < n
            &&& l.max_size is None
            &&& l.outputs[i].record.size is None
            &&& filled(m, t, files)
            &&& r.effects == read_changes(m, t, files) + decided(l, m.dry_run, 0, i)
            &&& m.stale.len() == 0
            &&& r.request == RequestModel::Measure(measured_paths_of(l.outputs[i].owned))
        },
        StageModel::ListingRecords => {
            &&& filled(m, t, files)
            &&& r.effects == all_changes(m, t, files)
            &&& m.stale.len() == 0
            &&& r.request == RequestModel::List(records_root(m.build_root))
        },
        StageModel::Records(rest) => {
            &&& rest.len() > 0
            &&& filled(m, t, files)
            &&& r.effects == all_changes(m, t, files)
            &&& sifted(m, t, r.effects, rest)
            &&& r.request == RequestModel::ReadLastUsed(rest[0])
        },
        StageModel::Ended => match r.request {
            RequestModel::Finished(report) => {
                &&& filled(m, t, files)
                &&& r.effects == all_changes(m, t, files)
                &&& sifted(m, t, r.effects, Seq::empty())
                &&& report == report_of(l, m.stale)
            },
            RequestModel::Refused(_) => !unrefused(t, m.build_root, m.target_root, files),
            _ => false,
        },
    }
}

proof fn lemma_decided_joins(l: Ledger, dry_run: bool, i: int, j: int)
    requires
        0 <= i <= j,
    ensures
        decided(l, dry_run, 0, i) + decided(l, dry_run, i, j) == decided(l, dry_run, 0, j),
    decreases j - i,
{
    if i == j || dry_run {
        assert(decided(l, dry_run, 0, i) + decided(l, dry_run, i, j) =~= decided(l, dry_run, 0, j));
    } else {
        lemma_decided_joins(l, dry_run, i, j - 1);
        assert(decided(l, dry_run, 0, i) + decided(l, dry_run, i, j) =~= decided(l, dry_run, 0, j));
    }
}

/// Measuring an output leaves alone what was decided of those before it.
proof fn lemma_decided_before(l: Ledger, dry_run: bool, i: int, size: u64, j: int)
    requires
        l.max_size is None,
        0 <= j <= i < l.outputs.len(),
    ensures
        decided(Ledger { outputs: measured(l.outputs, i, size), ..l }, dry_run, 0, j) == decided(
            l,
            dry_run,
            0,
            j,
        ),
    decreases j,
{
    if j > 0 {
        lemma_decided_before(l, dry_run, i, size, j - 1);
        lemma_measured_prefix(l, i, size, j - 1);
    }
}

proof fn lemma_trace_decide(t: Tree, files: Seq<Seq<u8>>, m: CleanModel, changes: Seq<EffectModel>, i: int)
    requires
        0 <= i <= m.ledger.outputs.len(),
        filled(m, t, files),
        m.stale.len() == 0,
        m.ledger.max_size is Some ==> all_sized(m.ledger.outputs),
        changes == read_changes(m, t, files) + decided(m.ledger, m.dry_run, 0, i),
    ensures
        traced(t, files, extend(changes, decide_on(m, i))),
{
    let l = m.ledger;
    let r = extend(changes, decide_on(m, i));
    let j = next_unsized_doomed(l, i);
    lemma_next_unsized_doomed(l, i);
    lemma_decided_joins(l, m.dry_run, i, j);
    assert(filled(r.state, t, files));
    assert(r.effects =~= read_changes(m, t, files) + decided(l, m.dry_run, 0, j));
    if j < l.outputs.len() {
        assert(l.outputs[j].record.size is None);
    } else {
        assert(r.effects =~= all_changes(r.state, t, files));
    }
}

proof fn lemma_trace_measure(t: Tree, files: Seq<Seq<u8>>, m: CleanModel, changes: Seq<EffectModel>, i: int)
    requires
        0 <= i <= m.ledger.outputs.len(),
        filled(m, t, files),
        m.stale.len() == 0,
        m.ledger.max_size is Some,
        forall|k: int| 0 <= k < i ==> (#[trigger] m.ledger.outputs[k]).record.size is Some,
        changes == read_changes(m, t, files),
    ensures
        traced(t, files, extend(changes, measure_on(m, i))),
{
    let l = m.ledger;
    let r = extend(changes, measure_on(m, i));
    let j = next_unsized(l.outputs, i);
    lemma_next_unsized(l.outputs, i);
    if j < l.outputs.len() {
        assert(filled(r.state, t, files));
        assert(r.effects =~= changes);
    } else {
        assert(changes =~= changes + decided(l, m.dry_run, 0, 0));
        lemma_trace_decide(t, files, m, changes, 0);
    }
}

proof fn lemma_trace_read(t: Tree, files: Seq<Seq<u8>>, m: CleanModel, changes: Seq<EffectModel>, k: int)
    requires
        0 <= k <= files.len(),
        unrefused(t, m.build_root, m.target_root, files.take(k)),
        m.ledger.outputs == read_outputs(t, m.build_root, m.target_root, files.take(k)),
        m.stale.len() == 0,
        changes == read_changes(m, t, files.take(k)),
    ensures
        traced(t, files, extend(changes, read_on(m, files.skip(k)))),
{
    let r = extend(changes, read_on(m, files.skip(k)));
    if k < files.len() {
        assert(r.effects =~= changes);
    } else {
        assert(files.take(k) =~= files);
        let le = |a: StoredModel, b: StoredModel| used_le(a, b);
        let sorted = with_outputs(m, stable_sort(m.ledger.outputs, le));
        assert(filled(sorted, t, files));
        if m.ledger.max_size is Some {
            lemma_trace_measure(t, files, sorted, changes, 0);
        } else {
            assert(changes =~= changes + decided(sorted.ledger, m.dry_run, 0, 0));
            lemma_trace_decide(t, files, sorted, changes, 0);
        }
    }
}

proof fn lemma_discards(t: Tree, build_root: Seq<u8>, target_root: Seq<u8>, files: Seq<Seq<u8>>)
    ensures
        ({
            let d = discards(t, build_root, target_root, files);
            &&& forall|k: int|
                0 <= k < d.len() ==> (#[trigger] d[k] matches EffectModel::RemoveFile(f)
                    && files.contains(f) && admission(
                    build_root,
                    target_root,
                    f,
                    held(t.outputs, f),
                ) is Discard)
            &&& forall|k: int|
                0 <= k < files.len() && admission(
                    build_root,
                    target_root,
                    #[trigger] files[k],
                    held(t.outputs, files[k]),
                ) is Discard ==> d.contains(EffectModel::RemoveFile(files[k]))
        }),
    decreases files.len(),
{
    if files.len() > 0 {
        let init = files.drop_last();
        let last = files.last();
        lemma_discards(t, build_root, target_root, init);
        let before = discards(t, build_root, target_root, init);
        let d = discards(t, build_root, target_root, files);
        assert(files[files.len() - 1] == last);
        assert forall|k: int| 0 <= k < d.len() implies (#[trigger] d[k] matches EffectModel::RemoveFile(
            f,
        ) && files.contains(f) && admission(build_root, target_root, f, held(t.outputs, f)) is Discard) by {
            if k < before.len() {
                assert(d[k] == before[k]);
                let f = before[k]->RemoveFile_0;
                let j = choose|j: int| 0 <= j < init.len() && init[j] == f;
                assert(files[j] == f);
            }
        }
        assert forall|k: int|
            0 <= k < files.len() && admission(
                build_root,
                target_root,
                #[trigger] files[k],
                held(t.outputs, files[k]),
            ) is Discard implies d.contains(EffectModel::RemoveFile(files[k])) by {
            if k < init.len() {
                assert(init[k] == files[k]);
                let j = choose|j: int|
                    0 <= j < before.len() && before[j] == EffectModel::RemoveFile(files[k]);
                assert(d[j] == before[j]);
            } else {
                assert(d[before.len() as int] == EffectModel::RemoveFile(last));
            }
        }
    }
}

/// The files of a list in path order are all different.
proof fn lemma_listed_once(files: Seq<Seq<u8>>, i: int, j: int)
    requires
        strictly_ranked(files, path_order()),
        0 <= i < j < files.len(),
    ensures
        files[i] != files[j],
{
    let le = path_order();
    assert(le(files[i], files[j]) && !le(files[j], files[i]));
}

/// A record file that is still to be read holds what it held at the start.
proof fn lemma_unread_held(t: Tree, m: CleanModel, files: Seq<Seq<u8>>, k: int)
    requires
        strictly_ranked(files, path_order()),
        0 <= k < files.len(),
    ensures
        held(tree_after(t, read_changes(m, t, files.take(k))).outputs, files[k]) == held(
            t.outputs,
            files[k],
        ),
{
    let head = files.take(k);
    let changes = read_changes(m, t, head);
    lemma_discards(t, m.build_root, m.target_root, head);
    assert forall|x: int| 0 <= x < changes.len() implies !takes(#[trigger] changes[x], files[k])
        && !writes(changes[x], files[k]) by {
        let f = changes[x]->RemoveFile_0;
        let j = choose|j: int| 0 <= j < head.len() && head[j] == f;
        assert(files[j] == f);
        lemma_listed_once(files, j, k);
    }
    lemma_output_unwritten(t, changes, files[k]);
}

proof fn lemma_trace_reading(t: Tree, files: Seq<Seq<u8>>, r: StepModel, record: Option<RecordModel>)
    requires
        traced(t, files, r),
        r.state.stage is Reading,
        lists(files, t.outputs),
        shows(
            tree_after(t, r.effects),
            r.state.build_root,
            r.request,
            ObservationModel::Record(record),
        ),
    ensures
        traced(t, files, extend(r.effects, step(r.state, ObservationModel::Record(record)))),
{
    let m = r.state;
    let rest = m.stage->Reading_0;
    let k = files.len() - rest.len();
    let path = files[k];
    let changes = r.effects;
    assert(rest[0] == path);
    lemma_unread_held(t, m, files, k);
    assert(record == held(t.outputs, path));
    assert(files.take(k + 1).drop_last() =~= files.take(k));
    assert(files.take(k + 1).last() == path);
    assert(rest.skip(1) =~= files.skip(k + 1));
    if !(admission(m.build_root, m.target_root, path, record) is Refuse) {
        let more = files.take(k + 1);
        assert forall|j: int| 0 <= j < more.len() implies !(admission(
            m.build_root,
            m.target_root,
            #[trigger] more[j],
            held(t.outputs, more[j]),
        ) is Refuse) by {
            if j < k {
                assert(more[j] == files.take(k)[j]);
            }
        }
    }
    match admission(m.build_root, m.target_root, path, record) {
        Admission::Discard => {
            let change = seq![EffectModel::RemoveFile(path)];
            let begun = if m.dry_run {
                changes
            } else {
                changes + change
            };
            assert(begun =~= read_changes(m, t, files.take(k + 1)));
            lemma_trace_read(t, files, m, begun, k + 1);
            let s = read_on(m, files.skip(k + 1));
            if !m.dry_run {
                assert(begun + s.effects =~= changes + (change + s.effects));
            }
            assert(extend(changes, step(m, ObservationModel::Record(record))) == extend(begun, s));
        },
        Admission::Refuse(_) => {
            assert(held(t.outputs, files[k]) == record);
        },
        Admission::Keep(output) => {
            let next = with_outputs(m, m.ledger.outputs.push(output));
            assert(changes == read_changes(next, t, files.take(k + 1)));
            lemma_trace_read(t, files, next, changes, k + 1);
        },
    }
}

proof fn lemma_trace_measured(t: Tree, files: Seq<Seq<u8>>, m: CleanModel, i: int, size: u64)
    requires
        filled(m, t, files),
        0 <= i < m.ledger.outputs.len(),
        m.ledger.outputs[i].record.size is None,
    ensures
        filled(with_outputs(m, measured(m.ledger.outputs, i, size)), t, files),
{
    let read = in_use_order(t, m.build_root, m.target_root, files);
    let next = with_outputs(m, measured(m.ledger.outputs, i, size));
    assert forall|k: int| 0 <= k < read.len() implies fills(
        read[k],
        #[trigger] next.ledger.outputs[k],
    ) by {
        assert(fills(read[k], m.ledger.outputs[k]));
    }
}

proof fn lemma_trace_listed(t: Tree, files: Seq<Seq<u8>>, r: StepModel, found: Seq<Seq<u8>>)
    requires
        traced(t, files, r),
        r.state.stage is ListingRecords,
        shows(
            tree_after(t, r.effects),
            r.state.build_root,
            r.request,
            ObservationModel::Files(found),
        ),
    ensures
        traced(t, files, extend(r.effects, step(r.state, ObservationModel::Files(found)))),
{
    let m = r.state;
    let now = tree_after(t, r.effects).variants;
    lemma_roots_differ(m.build_root);
    assert(lists(found, now));
    let next = extend(r.effects, step(m, ObservationModel::Files(found)));
    assert(next.effects =~= r.effects);
    assert forall|i: int, j: int| 0 <= i < j < found.len() implies found[i] != found[j] by {
        lemma_listed_once(found, i, j);
    }
    assert forall|p: Seq<u8>| #[trigger] now.contains_key(p) implies found.contains(p) by {
        assert(found.contains(p) <==> now.contains_key(p));
    }
    assert(sifted(next.state, t, next.effects, found));
    assert(filled(next.state, t, files));
    if found.len() == 0 {
        assert(found =~= Seq::empty());
    }
}

proof fn lemma_trace_sifting(
    t: Tree,
    files: Seq<Seq<u8>>,
    r: StepModel,
    record: Option<LastUsedRecord>,
)
    requires
        traced(t, files, r),
        r.state.stage is Records,
        shows(
            tree_after(t, r.effects),
            r.state.build_root,
            r.request,
            ObservationModel::LastUsed(record),
        ),
    ensures
        traced(t, files, extend(r.effects, step(r.state, ObservationModel::LastUsed(record)))),
{
    let m = r.state;
    let rest = m.stage->Records_0;
    let left = rest.skip(1);
    let path = rest[0];
    let now = tree_after(t, r.effects).variants;
    assert(rest.contains(path));
    lemma_variants_after(t, r.effects, path);
    assert(record == t.variants[path]);
    let next = extend(r.effects, step(m, ObservationModel::LastUsed(record)));
    assert forall|i: int, j: int| 0 <= i < j < left.len() implies left[i] != left[j] by {
        assert(left[i] == rest[i + 1] && left[j] == rest[j + 1]);
    }
    assert forall|p: Seq<u8>| #[trigger] left.contains(p) <==> rest.contains(p) && p != path by {
        if left.contains(p) {
            let k = choose|k: int| 0 <= k < left.len() && left[k] == p;
            assert(rest[k + 1] == p);
        }
        if rest.contains(p) && p != path {
            let k = choose|k: int| 0 <= k < rest.len() && rest[k] == p;
            assert(left[k - 1] == p);
        }
    }
    assert(filled(next.state, t, files));
    let after = tree_after(t, next.effects).variants;
    if is_stale(record, m.ledger.cutoff) {
        assert(next.state.stale == m.stale.push(path));
        if m.dry_run {
            assert(next.effects =~= r.effects);
            assert(next.effects =~= all_changes(next.state, t, files));
            assert forall|p: Seq<u8>| m.stale.contains(p) || p == path implies #[trigger] next.state.stale.contains(
                p,
            ) by {
                if m.stale.contains(p) {
                    let k = choose|k: int| 0 <= k < m.stale.len() && m.stale[k] == p;
                    assert(next.state.stale[k] == p);
                } else {
                    assert(next.state.stale[m.stale.len() as int] == p);
                }
            }
        } else {
            let change = EffectModel::RemoveFile(path);
            assert(next.effects =~= r.effects.push(change));
            assert(stale_changes(next.state) =~= stale_changes(m).push(change));
            assert(next.effects =~= all_changes(next.state, t, files));
            assert(next.effects.drop_last() =~= r.effects);
            assert(next.effects.last() == change);
            assert forall|p: Seq<u8>| #[trigger] after.contains_key(p) <==> now.contains_key(p) && p
                != path by {}
        }
        assert forall|k: int| 0 <= k < next.state.stale.len() implies t.variants.contains_key(
            #[trigger] next.state.stale[k],
        ) && is_stale(t.variants[next.state.stale[k]], m.ledger.cutoff) by {
            if k < m.stale.len() {
                assert(next.state.stale[k] == m.stale[k]);
            }
        }
    } else {
        assert(next.effects =~= r.effects);
    }
    assert(sifted(next.state, t, next.effects, left));
    if left.len() == 0 {
        assert(left =~= Seq::empty());
    }
}

proof fn lemma_trace_step(t: Tree, files: Seq<Seq<u8>>, r: StepModel, more: ObservationModel)
    requires
        traced(t, files, r),
        lists(files, t.outputs),
        shows(tree_after(t, r.effects), r.state.build_root, r.request, more),
    ensures
        traced(t, files, extend(r.effects, step(r.state, more))),
        expects(r.state, more),
{
    let m = r.state;
    match (m.stage, more) {
        (StageModel::Reading(_), ObservationModel::Record(record)) => {
            lemma_trace_reading(t, files, r, record);
        },
        (StageModel::Measuring(i), ObservationModel::Sizes(sizes)) => {
            let size = capped(sum(sizes));
            let next = with_outputs(m, measured(m.ledger.outputs, i, size));
            lemma_trace_measured(t, files, m, i, size);
            lemma_trace_measure(t, files, next, r.effects, i);
        },
        (StageModel::Deciding(i), ObservationModel::Sizes(sizes)) => {
            let size = capped(sum(sizes));
            let next = with_outputs(m, measured(m.ledger.outputs, i, size));
            lemma_trace_measured(t, files, m, i, size);
            lemma_decided_before(m.ledger, m.dry_run, i, size, i);
            lemma_trace_decide(t, files, next, r.effects, i);
        },
        (StageModel::ListingRecords, ObservationModel::Files(found)) => {
            lemma_trace_listed(t, files, r, found);
        },
        (StageModel::Records(_), ObservationModel::LastUsed(record)) => {
            lemma_trace_sifting(t, files, r, record);
        },
        _ => {},
    }
}

/// A run that has not begun.
spec fn fresh(m: CleanModel) -> bool {
    &&& m.stage == StageModel::Listing
    &&& m.ledger.outputs == Seq::<StoredModel>::empty()
    &&& m.stale == Seq::<Seq<u8>>::empty()
}

/// The second state belongs to a run that was asked the same.
spec fn asked_alike(m: CleanModel, now: CleanModel) -> bool {
    &&& now.build_root == m.build_root
    &&& now.target_root == m.target_root
    &&& now.dry_run == m.dry_run
    &&& now.ledger.cutoff == m.ledger.cutoff
    &&& now.ledger.max_size == m.ledger.max_size
}

#[verifier::rlimit(30)]
proof fn lemma_traced(m: CleanModel, t: Tree, seen: Seq<ObservationModel>)
    requires
        fresh(m),
        sees(m, t, seen),
    ensures
        answers(m, seen),
        asked_alike(m, run(m, seen).state),
        seen.len() > 0 ==> (seen[0] matches ObservationModel::Files(files) && lists(
            files,
            t.outputs,
        ) && traced(t, files, run(m, seen))),
    decreases seen.len(),
{
    if seen.len() > 0 {
        let init = seen.drop_last();
        let before = run(m, init);
        lemma_traced(m, t, init);
        if init.len() == 0 {
            assert(init =~= Seq::empty());
            let files = seen[0]->Files_0;
            let none = Seq::<EffectModel>::empty();
            assert(files.take(0) =~= Seq::empty());
            assert(files.skip(0) =~= files);
            assert(read_changes(m, t, files.take(0)) =~= none);
            assert(tree_after(t, none) == t);
            lemma_trace_read(t, files, m, none, 0);
        } else {
            assert(init[0] == seen[0]);
            let files = seen[0]->Files_0;
            lemma_trace_step(t, files, before, seen.last());
        }
    }
}

/// The change is made for this output.
spec fn made_for(l: Ledger, k: int, change: EffectModel) -> bool {
    match change {
        EffectModel::RemovePath(p) => doomed_at(l, k) && l.outputs[k].owned.contains(p),
        EffectModel::RemoveFile(p) => doomed_at(l, k) && p == l.outputs[k].path,
        EffectModel::Write(p, record) => {
            &&& !doomed_at(l, k)
            &&& l.outputs[k].changed
            &&& p == l.outputs[k].path
            &&& record == l.outputs[k].record
        },
    }
}

/// The change belongs to one of the outputs before `i`.
spec fn made_before(l: Ledger, i: int, change: EffectModel) -> bool {
    exists|k: int| 0 <= k < i && #[trigger] made_for(l, k, change)
}

proof fn lemma_decided_contents(l: Ledger, i: int)
    requires
        0 <= i <= l.outputs.len(),
    ensures
        ({
            let changes = decided(l, false, 0, i);
            &&& forall|x: int|
                0 <= x < changes.len() ==> made_before(l, i, #[trigger] changes[x])
            &&& forall|k: int|
                0 <= k < i && #[trigger] doomed_at(l, k) ==> changes.contains(
                    EffectModel::RemoveFile(l.outputs[k].path),
                )
            &&& forall|k: int|
                0 <= k < i && !(#[trigger] doomed_at(l, k)) && l.outputs[k].changed
                    ==> changes.contains(
                    EffectModel::Write(l.outputs[k].path, l.outputs[k].record),
                )
        }),
    decreases i,
{
    if i > 0 {
        lemma_decided_contents(l, i - 1);
        let o = l.outputs[i - 1];
        let before = decided(l, false, 0, i - 1);
        let changes = decided(l, false, 0, i);
        let more = if doomed_at(l, i - 1) {
            removal(o)
        } else if o.changed {
            seq![EffectModel::Write(o.path, o.record)]
        } else {
            Seq::empty()
        };
        assert(changes == before + more);
        assert forall|x: int| 0 <= x < changes.len() implies made_before(
            l,
            i,
            #[trigger] changes[x],
        ) by {
            if x < before.len() {
                assert(changes[x] == before[x]);
                let k = choose|k: int| 0 <= k < i - 1 && #[trigger] made_for(l, k, before[x]);
                assert(made_for(l, k, changes[x]));
            } else {
                let y = x - before.len();
                assert(changes[x] == more[y]);
                if doomed_at(l, i - 1) && y < o.owned.len() {
                    assert(more[y] == EffectModel::RemovePath(o.owned[y]));
                    assert(o.owned.contains(o.owned[y]));
                }
                assert(made_for(l, i - 1, changes[x]));
            }
        }
        assert forall|k: int| 0 <= k < i && #[trigger] doomed_at(l, k) implies changes.contains(
            EffectModel::RemoveFile(l.outputs[k].path),
        ) by {
            let e = EffectModel::RemoveFile(l.outputs[k].path);
            if k < i - 1 {
                let x = choose|x: int| 0 <= x < before.len() && before[x] == e;
                assert(changes[x] == e);
            } else {
                assert(more[o.owned.len() as int] == e);
                assert(changes[(before.len() + o.owned.len()) as int] == e);
            }
        }
        assert forall|k: int|
            0 <= k < i && !(#[trigger] doomed_at(l, k)) && l.outputs[k].changed implies changes.contains(
            EffectModel::Write(l.outputs[k].path, l.outputs[k].record),
        ) by {
            let e = EffectModel::Write(l.outputs[k].path, l.outputs[k].record);
            if k < i - 1 {
                let x = choose|x: int| 0 <= x < before.len() && before[x] == e;
                assert(changes[x] == e);
            } else {
                assert(more[0] == e);
                assert(changes[before.len() as int] == e);
            }
        }
    }
}

/// Outputs come from record files, each from its own.
#[verifier::rlimit(30)]
proof fn lemma_read_outputs(t: Tree, build_root: Seq<u8>, target_root: Seq<u8>, files: Seq<Seq<u8>>)
    ensures
        ({
            let read = read_outputs(t, build_root, target_root, files);
            &&& forall|k: int|
                0 <= k < read.len() ==> files.contains((#[trigger] read[k]).path) && admission(
                    build_root,
                    target_root,
                    read[k].path,
                    held(t.outputs, read[k].path),
                ) == Admission::Keep(read[k])
            &&& forall|k: int|
                0 <= k < files.len() ==> (admission(
                    build_root,
                    target_root,
                    #[trigger] files[k],
                    held(t.outputs, files[k]),
                ) matches Admission::Keep(o) ==> read.contains(o))
            &&& strictly_ranked(files, path_order()) ==> read.no_duplicates()
        }),
    decreases files.len(),
{
    if files.len() > 0 {
        let init = files.drop_last();
        let last = files.last();
        lemma_read_outputs(t, build_root, target_root, init);
        let before = read_outputs(t, build_root, target_root, init);
        let read = read_outputs(t, build_root, target_root, files);
        assert(files[files.len() - 1] == last);
        assert forall|k: int| 0 <= k < read.len() implies files.contains((#[trigger] read[k]).path)
            && admission(build_root, target_root, read[k].path, held(t.outputs, read[k].path))
            == Admission::Keep(read[k]) by {
            if k < before.len() {
                assert(read[k] == before[k]);
                let j = choose|j: int| 0 <= j < init.len() && init[j] == before[k].path;
                assert(files[j] == read[k].path);
            }
        }
        assert forall|k: int| 0 <= k < files.len() implies (admission(
            build_root,
            target_root,
            #[trigger] files[k],
            held(t.outputs, files[k]),
        ) matches Admission::Keep(o) ==> read.contains(o)) by {
            if k < init.len() {
                assert(init[k] == files[k]);
                match admission(build_root, target_root, files[k], held(t.outputs, files[k])) {
                    Admission::Keep(o) => {
                        let j = choose|j: int| 0 <= j < before.len() && before[j] == o;
                        assert(read[j] == o);
                    },
                    _ => {},
                }
            } else {
                match admission(build_root, target_root, last, held(t.outputs, last)) {
                    Admission::Keep(o) => {
                        assert(read[before.len() as int] == o);
                    },
                    _ => {},
                }
            }
        }
        if strictly_ranked(files, path_order()) {
            let le = path_order();
            assert forall|i: int, j: int| 0 <= i < j < init.len() implies #[trigger] le(
                init[i],
                init[j],
            ) && !le(init[j], init[i]) by {
                assert(le(files[i], files[j]));
            }
            assert forall|i: int, j: int| 0 <= i < j < read.len() implies read[i] != read[j] by {
                assert(read[i] == before[i]);
                if j < before.len() {
                    assert(read[j] == before[j]);
                } else {
                    let x = choose|x: int| 0 <= x < init.len() && init[x] == before[i].path;
                    assert(files[x] == read[i].path);
                    lemma_listed_once(files, x, files.len() - 1);
                }
            }
        }
    }
}

/// What an output of a run is: read from the tree, perhaps with its size
/// measured.
spec fn stems_from(t: Tree, build_root: Seq<u8>, target_root: Seq<u8>, o: StoredModel) -> bool {
    &&& t.outputs.contains_key(o.path)
    &&& admission(build_root, target_root, o.path, t.outputs[o.path]) matches Admission::Keep(read)
        && fills(read, o)
}

proof fn lemma_outputs_stem(m: CleanModel, t: Tree, files: Seq<Seq<u8>>)
    requires
        lists(files, t.outputs),
        filled(m, t, files),
    ensures
        forall|k: int|
            0 <= k < m.ledger.outputs.len() ==> stems_from(
                t,
                m.build_root,
                m.target_root,
                #[trigger] m.ledger.outputs[k],
            ),
        forall|i: int, j: int|
            0 <= i < j < m.ledger.outputs.len() ==> (#[trigger] m.ledger.outputs[i]).path != (
            #[trigger] m.ledger.outputs[j]).path,
        forall|p: Seq<u8>| #[trigger]
            t.outputs.contains_key(p) && admission(
                m.build_root,
                m.target_root,
                p,
                t.outputs[p],
            ) is Keep ==> exists|k: int|
                0 <= k < m.ledger.outputs.len() && (#[trigger] m.ledger.outputs[k]).path == p,
{
    let le = |a: StoredModel, b: StoredModel| used_le(a, b);
    let read = read_outputs(t, m.build_root, m.target_root, files);
    let sorted = in_use_order(t, m.build_root, m.target_root, files);
    let now = m.ledger.outputs;
    lemma_read_outputs(t, m.build_root, m.target_root, files);
    stable_sort_is_permutation(read, le);
    assert(sorted.no_duplicates()) by {
        read.lemma_multiset_has_no_duplicates();
        sorted.lemma_multiset_has_no_duplicates_conv();
    }
    assert forall|k: int| 0 <= k < sorted.len() implies stems_from(
        t,
        m.build_root,
        m.target_root,
        #[trigger] sorted[k],
    ) by {
        assert(sorted.contains(sorted[k]));
        assert(read.contains(sorted[k]));
        let x = choose|x: int| 0 <= x < read.len() && read[x] == sorted[k];
        assert(files.contains(read[x].path));
    }
    assert forall|k: int| 0 <= k < now.len() implies stems_from(
        t,
        m.build_root,
        m.target_root,
        #[trigger] now[k],
    ) by {
        assert(fills(sorted[k], now[k]));
        assert(stems_from(t, m.build_root, m.target_root, sorted[k]));
    }
    assert forall|i: int, j: int| 0 <= i < j < now.len() implies (#[trigger] now[i]).path != (
    #[trigger] now[j]).path by {
        assert(fills(sorted[i], now[i]) && fills(sorted[j], now[j]));
        assert(stems_from(t, m.build_root, m.target_root, sorted[i]));
        assert(stems_from(t, m.build_root, m.target_root, sorted[j]));
        assert(sorted.contains(sorted[i]) && sorted.contains(sorted[j]));
        let x = choose|x: int| 0 <= x < read.len() && read[x] == sorted[i];
        let y = choose|y: int| 0 <= y < read.len() && read[y] == sorted[j];
        assert(sorted[i] != sorted[j]);
    }
    assert forall|p: Seq<u8>| #[trigger]
        t.outputs.contains_key(p) && admission(
            m.build_root,
            m.target_root,
            p,
            t.outputs[p],
        ) is Keep implies exists|k: int| 0 <= k < now.len() && (#[trigger] now[k]).path == p by {
        assert(files.contains(p));
        let j = choose|j: int| 0 <= j < files.len() && files[j] == p;
        let o = admission(m.build_root, m.target_root, files[j], held(t.outputs, files[j]))->Keep_0;
        assert(read.contains(o));
        assert(sorted.contains(o));
        let k = choose|k: int| 0 <= k < sorted.len() && sorted[k] == o;
        assert(fills(sorted[k], now[k]));
        assert(now[k].path == p);
    }
}

/// A record that a removing run leaves is that of an output it has kept.
#[verifier::rlimit(30)]
proof fn lemma_outputs_left(t: Tree, files: Seq<Seq<u8>>, r: StepModel, p: Seq<u8>)
    requires
        lists(files, t.outputs),
        traced(t, files, r),
        !r.state.dry_run,
        r.request is Finished,
        tree_after(t, r.effects).outputs.contains_key(p),
    ensures
        exists|k: int|
            0 <= k < r.state.ledger.outputs.len() && (#[trigger] r.state.ledger.outputs[k]).path
                == p && !doomed_at(r.state.ledger, k) && tree_after(t, r.effects).outputs[p] == Some(
                r.state.ledger.outputs[k].record,
            ),
{
    let m = r.state;
    let l = m.ledger;
    let n = l.outputs.len() as int;
    let changes = r.effects;
    let read = discards(t, m.build_root, m.target_root, files);
    let mid = decided(l, false, 0, n);
    let after = tree_after(t, changes).outputs;
    assert(changes == read + mid + stale_changes(m));
    lemma_discards(t, m.build_root, m.target_root, files);
    lemma_decided_contents(l, n);
    lemma_outputs_stem(m, t, files);
    assert forall|x: int| 0 <= x < changes.len() && writes(#[trigger] changes[x], p) implies made_before(
        l,
        n,
        changes[x],
    ) by {
        if x < read.len() {
            assert(changes[x] == read[x]);
        } else if x < read.len() + mid.len() {
            assert(changes[x] == mid[x - read.len()]);
        } else {
            assert(changes[x] == stale_changes(m)[x - read.len() - mid.len()]);
        }
    }
    if exists|x: int| 0 <= x < changes.len() && writes(#[trigger] changes[x], p) {
        let x = choose|x: int| 0 <= x < changes.len() && writes(#[trigger] changes[x], p);
        let k = choose|k: int| 0 <= k < n && #[trigger] made_for(l, k, changes[x]);
        let o = l.outputs[k];
        assert(changes.contains(changes[x]));
        assert forall|y: int| 0 <= y < changes.len() && writes(#[trigger] changes[y], p) implies changes[y]
            == EffectModel::Write(p, o.record) by {
            let j = choose|j: int| 0 <= j < n && #[trigger] made_for(l, j, changes[y]);
            if j < k {
                assert(l.outputs[j].path != l.outputs[k].path);
            } else if k < j {
                assert(l.outputs[k].path != l.outputs[j].path);
            }
        }
        lemma_output_written(t, changes, p, o.record);
        assert(l.outputs[k].path == p);
    } else {
        lemma_output_unwritten(t, changes, p);
        assert(files.contains(p));
        let j = choose|j: int| 0 <= j < files.len() && files[j] == p;
        let gone = EffectModel::RemoveFile(p);
        assert(!changes.contains(gone)) by {
            if changes.contains(gone) {
                let x = choose|x: int| 0 <= x < changes.len() && changes[x] == gone;
                assert(takes(changes[x], p));
            }
        }
        match admission(m.build_root, m.target_root, p, t.outputs[p]) {
            Admission::Discard => {
                assert(held(t.outputs, files[j]) == t.outputs[p]);
                assert(read.contains(gone));
                let x = choose|x: int| 0 <= x < read.len() && read[x] == gone;
                assert(changes[x] == gone);
            },
            Admission::Refuse(_) => {
                assert(held(t.outputs, files[j]) == t.outputs[p]);
            },
            Admission::Keep(o) => {
                let k = choose|k: int| 0 <= k < n && (#[trigger] l.outputs[k]).path == p;
                assert(stems_from(t, m.build_root, m.target_root, l.outputs[k]));
                if doomed_at(l, k) {
                    let x = choose|x: int| 0 <= x < mid.len() && mid[x] == gone;
                    assert(changes[read.len() + x] == gone);
                } else if l.outputs[k].changed {
                    let e = EffectModel::Write(p, l.outputs[k].record);
                    assert(mid.contains(e));
                    let x = choose|x: int| 0 <= x < mid.len() && mid[x] == e;
                    assert(changes[read.len() + x] == e);
                    assert(writes(changes[read.len() + x], p));
                }
                assert(l.outputs[k].path == p);
            },
        }
    }
}

/// A record that a run has kept is accepted as it is when it is read again.
proof fn lemma_kept_is_accepted(t: Tree, build_root: Seq<u8>, target_root: Seq<u8>, o: StoredModel)
    requires
        stems_from(t, build_root, target_root, o),
    ensures
        admission(build_root, target_root, o.path, Some(o.record)) == Admission::Keep(
            StoredModel { changed: false, ..o },
        ),
{
    let read = t.outputs[o.path]->0;
    let first = admission(build_root, target_root, o.path, Some(read))->Keep_0;
    assert(owned_paths_of(o.record) == owned_paths_of(first.record));
    assert(upgraded(o.record, build_root) is None);
    assert(StoredModel {
        path: o.path,
        record: o.record,
        owned: owned_paths_of(o.record),
        changed: false,
    } =~= StoredModel { changed: false, ..o });
}

proof fn lemma_sum_remove(s: Seq<u64>, j: int)
    requires
        0 <= j < s.len(),
    ensures
        sum(s) == sum(s.remove(j)) + s[j],
    decreases s.len(),
{
    let rest = s.remove(j);
    if j == s.len() - 1 {
        assert(rest =~= s.drop_last());
    } else {
        lemma_sum_remove(s.drop_last(), j);
        assert(rest.drop_last() =~= s.drop_last().remove(j));
        assert(rest.last() == s.last());
    }
}

/// The outputs are some of the others, each once.
spec fn within(a: Seq<StoredModel>, b: Seq<StoredModel>) -> bool {
    &&& forall|i: int, j: int|
        0 <= i < j < a.len() ==> (#[trigger] a[i]).path != (#[trigger] a[j]).path
    &&& forall|i: int| 0 <= i < a.len() ==> is_among(#[trigger] a[i], b)
}

spec fn is_among(o: StoredModel, b: Seq<StoredModel>) -> bool {
    exists|j: int|
        0 <= j < b.len() && (#[trigger] b[j]).path == o.path && size_of(b[j]) == size_of(o)
}

proof fn lemma_sum_within(a: Seq<StoredModel>, b: Seq<StoredModel>)
    requires
        within(a, b),
    ensures
        sum(sizes_of(a)) <= sum(sizes_of(b)),
    decreases a.len(),
{
    if a.len() > 0 {
        let init = a.drop_last();
        let last = a.last();
        assert(a[a.len() - 1] == last);
        assert(is_among(last, b));
        let j = choose|j: int|
            0 <= j < b.len() && (#[trigger] b[j]).path == last.path && size_of(b[j]) == size_of(
                last,
            );
        let rest = b.remove(j);
        assert forall|i: int| 0 <= i < init.len() implies is_among(#[trigger] init[i], rest) by {
            assert(a[i] == init[i]);
            assert(a[i].path != a[a.len() - 1].path);
            assert(is_among(a[i], b));
            let x = choose|x: int|
                0 <= x < b.len() && (#[trigger] b[x]).path == a[i].path && size_of(b[x]) == size_of(
                    a[i],
                );
            if x < j {
                assert(rest[x] == b[x]);
            } else {
                assert(rest[x - 1] == b[x]);
            }
        }
        lemma_sum_within(init, rest);
        lemma_sum_remove(sizes_of(b), j);
        assert(sizes_of(b).remove(j) =~= sizes_of(rest));
        assert(sizes_of(a).drop_last() =~= sizes_of(init));
        assert(sizes_of(a).last() == size_of(last));
    }
}

/// The outputs before `i` that are kept.
spec fn kept_outputs(l: Ledger, i: int) -> Seq<StoredModel>
    decreases i,
{
    if i <= 0 {
        Seq::empty()
    } else if doomed_at(l, i - 1) {
        kept_outputs(l, i - 1)
    } else {
        kept_outputs(l, i - 1).push(l.outputs[i - 1])
    }
}

proof fn lemma_kept_outputs(l: Ledger, i: int)
    requires
        0 <= i <= l.outputs.len(),
    ensures
        sizes_of(kept_outputs(l, i)) == kept_sizes(l, i),
        forall|k: int|
            0 <= k < i && !(#[trigger] doomed_at(l, k)) ==> kept_outputs(l, i).contains(
                l.outputs[k],
            ),
    decreases i,
{
    if i > 0 {
        lemma_kept_outputs(l, i - 1);
        let before = kept_outputs(l, i - 1);
        let kept = kept_outputs(l, i);
        assert(sizes_of(kept) =~= kept_sizes(l, i));
        assert forall|k: int| 0 <= k < i && !(#[trigger] doomed_at(l, k)) implies kept.contains(
            l.outputs[k],
        ) by {
            if k < i - 1 {
                let x = choose|x: int| 0 <= x < before.len() && before[x] == l.outputs[k];
                assert(kept[x] == before[x]);
            } else {
                assert(kept[before.len() as int] == l.outputs[k]);
            }
        }
    } else {
        assert(sizes_of(kept_outputs(l, i)) =~= kept_sizes(l, i));
    }
}

proof fn lemma_none_doomed(l: Ledger, i: int)
    requires
        0 <= i <= l.outputs.len(),
        forall|k: int| 0 <= k < l.outputs.len() ==> !(#[trigger] doomed_at(l, k)),
    ensures
        removed_before(l, i) == Seq::<Seq<u8>>::empty(),
        removed_sizes(l, i) == Seq::<u64>::empty(),
    decreases i,
{
    if i > 0 {
        assert(!doomed_at(l, i - 1));
        lemma_none_doomed(l, i - 1);
    }
}

/// After a complete removing run, a run with the same cutoff and the same limit
/// over what is left is not refused, and finds nothing to remove. The sizes that
/// the first run goes by have to have a total that can be counted: where they
/// do not, it counts less than it retains.
pub proof fn second_run_removes_nothing(
    build_root: Seq<u8>,
    target_root: Seq<u8>,
    cutoff: Option<u64>,
    max_size: Option<u64>,
    t: Tree,
    first: Seq<ObservationModel>,
    second: Seq<ObservationModel>,
)
    requires
        ({
            let m = start(build_root, target_root, cutoff, max_size, false);
            let r = run(m, first);
            &&& sees(m, t, first)
            &&& r.request is Finished
            &&& max_size is Some ==> sum(sizes_of(r.state.ledger.outputs)) <= u64::MAX
            &&& sees(m, tree_after(t, r.effects), second)
        }),
    ensures
        ({
            let m = start(build_root, target_root, cutoff, max_size, false);
            let request = run(m, second).request;
            &&& !(request is Refused)
            &&& request matches RequestModel::Finished(report) ==> report.removed == Seq::<
                Seq<u8>,
            >::empty() && report.removed_bytes == 0
        }),
{
    let m = start(build_root, target_root, cutoff, max_size, false);
    let r = run(m, first);
    let l = r.state.ledger;
    let n = l.outputs.len() as int;
    let left = tree_after(t, r.effects);
    let again = run(m, second);
    lemma_traced(m, t, first);
    lemma_traced(m, left, second);
    assert(first.len() > 0);
    let files = first[0]->Files_0;
    lemma_outputs_stem(r.state, t, files);
    complete_run_removes_what_it_reports(
        build_root,
        target_root,
        cutoff,
        max_size,
        false,
        first,
        r.request->Finished_0,
    );
    if second.len() > 0 {
        let found = second[0]->Files_0;
        if again.request is Refused {
            let k = choose|k: int|
                0 <= k < found.len() && admission(
                    build_root,
                    target_root,
                    #[trigger] found[k],
                    held(left.outputs, found[k]),
                ) is Refuse;
            assert(found.contains(found[k]));
            lemma_outputs_left(t, files, r, found[k]);
            let x = choose|x: int|
                0 <= x < n && (#[trigger] l.outputs[x]).path == found[k] && !doomed_at(l, x)
                    && left.outputs[found[k]] == Some(l.outputs[x].record);
            lemma_kept_is_accepted(t, build_root, target_root, l.outputs[x]);
        }
        if again.request is Finished {
            lemma_second_report(m, t, files, r, found, again);
        }
    }
}

proof fn lemma_second_report(
    m: CleanModel,
    t: Tree,
    files: Seq<Seq<u8>>,
    r: StepModel,
    found: Seq<Seq<u8>>,
    again: StepModel,
)
    requires
        !m.dry_run,
        asked_alike(m, r.state),
        asked_alike(m, again.state),
        lists(files, t.outputs),
        traced(t, files, r),
        r.request is Finished,
        lists(found, tree_after(t, r.effects).outputs),
        traced(tree_after(t, r.effects), found, again),
        again.request is Finished,
        m.ledger.max_size is Some ==> all_sized(r.state.ledger.outputs) && sum(
            sizes_of(r.state.ledger.outputs),
        ) <= u64::MAX,
    ensures
        again.request->Finished_0.removed == Seq::<Seq<u8>>::empty(),
        again.request->Finished_0.removed_bytes == 0,
{
    let left = tree_after(t, r.effects);
    let l = r.state.ledger;
    let n = l.outputs.len() as int;
    let l2 = again.state.ledger;
    let n2 = l2.outputs.len() as int;
    let b = m.build_root;
    let g = m.target_root;
    lemma_outputs_stem(r.state, t, files);
    lemma_outputs_stem(again.state, left, found);
    lemma_kept_outputs(l, n);
    let kept = kept_outputs(l, n);
    assert forall|k: int| 0 <= k < n2 implies !expired(
        (#[trigger] l2.outputs[k]).record.last_used,
        l2.cutoff,
    ) && (l2.max_size is Some ==> is_among(l2.outputs[k], kept)) by {
        let o = l2.outputs[k];
        assert(stems_from(left, b, g, o));
        lemma_outputs_left(t, files, r, o.path);
        let x = choose|x: int|
            0 <= x < n && (#[trigger] l.outputs[x]).path == o.path && !doomed_at(l, x)
                && left.outputs[o.path] == Some(l.outputs[x].record);
        assert(stems_from(t, b, g, l.outputs[x]));
        lemma_kept_is_accepted(t, b, g, l.outputs[x]);
        assert(kept.contains(l.outputs[x]));
        let y = choose|y: int| 0 <= y < kept.len() && kept[y] == l.outputs[x];
        assert(kept[y].path == o.path);
    }
    assert forall|k: int| 0 <= k < n2 implies !(#[trigger] doomed_at(l2, k)) by {
        assert(!expired(l2.outputs[k].record.last_used, l2.cutoff));
        if l2.max_size is Some {
            assert(within(l2.outputs, kept));
            lemma_sum_within(l2.outputs, kept);
            size_limit_is_met(l, l.max_size->0);
            retained_never_grows(l2, 0, k);
        }
    }
    lemma_none_doomed(l2, n2);
    if again.state.stale.len() > 0 {
        let p = again.state.stale[0];
        assert(left.variants.contains_key(p));
        lemma_variants_after(t, r.effects, p);
        assert(Seq::<Seq<u8>>::empty().contains(p) || !is_stale(t.variants[p], l.cutoff));
    }
    assert(again.state.stale =~= Seq::empty());
    assert(again.request->Finished_0.removed =~= Seq::empty());
}

/// The record file belongs to an output that owns the path.
pub open spec fn owns(
    t: Tree,
    build_root: Seq<u8>,
    target_root: Seq<u8>,
    file: Seq<u8>,
    path: Seq<u8>,
) -> bool {
    &&& t.outputs.contains_key(file)
    &&& admission(build_root, target_root, file, t.outputs[file]) matches Admission::Keep(o)
        && o.owned.contains(path)
}

/// Outputs own separate paths, none of which holds a record file; and no file is
/// an output record and a variant record at once.
pub open spec fn separate(t: Tree, build_root: Seq<u8>, target_root: Seq<u8>) -> bool {
    &&& forall|a: Seq<u8>, p: Seq<u8>, b: Seq<u8>, q: Seq<u8>|
        a != b && #[trigger] owns(t, build_root, target_root, a, p) && #[trigger] owns(
            t,
            build_root,
            target_root,
            b,
            q,
        ) ==> !starts_with(p, q) && !starts_with(q, p)
    &&& forall|a: Seq<u8>, p: Seq<u8>, f: Seq<u8>|
        #![trigger owns(t, build_root, target_root, a, p), starts_with(f, p)]
        owns(t, build_root, target_root, a, p) && (t.outputs.contains_key(f)
            || t.variants.contains_key(f)) ==> !starts_with(f, p)
    &&& forall|f: Seq<u8>| #[trigger]
        t.outputs.contains_key(f) ==> !t.variants.contains_key(f)
}

/// Of two paths that a file lies below, one lies below the other.
proof fn lemma_below_both(f: Seq<u8>, p: Seq<u8>, q: Seq<u8>)
    requires
        starts_with(f, p),
        starts_with(f, q),
    ensures
        starts_with(p, q) || starts_with(q, p),
{
    let x = components(p);
    let y = components(q);
    let z = components(f);
    if x.len() <= y.len() {
        assert(y.take(x.len() as int) =~= z.take(x.len() as int));
        assert(x =~= y.take(x.len() as int));
        assert(x.is_prefix_of(y));
    } else {
        assert(x.take(y.len() as int) =~= z.take(y.len() as int));
        assert(y =~= x.take(y.len() as int));
        assert(y.is_prefix_of(x));
    }
}

/// What a run takes before it looks at the sizes of an output, or at the variant
/// records: record files of outputs, and paths that decided outputs own.
spec fn takes_own(m: CleanModel, t: Tree, i: int, change: EffectModel) -> bool {
    match change {
        EffectModel::RemoveFile(f) => t.outputs.contains_key(f),
        EffectModel::RemovePath(p) => exists|k: int|
            0 <= k < i && (#[trigger] m.ledger.outputs[k]).owned.contains(p),
        EffectModel::Write(_, _) => true,
    }
}

proof fn lemma_takes_own(m: CleanModel, t: Tree, files: Seq<Seq<u8>>, i: int)
    requires
        lists(files, t.outputs),
        filled(m, t, files),
        0 <= i <= m.ledger.outputs.len(),
        !m.dry_run,
    ensures
        ({
            let changes = read_changes(m, t, files) + decided(m.ledger, m.dry_run, 0, i);
            forall|x: int| 0 <= x < changes.len() ==> takes_own(m, t, i, #[trigger] changes[x])
        }),
{
    let l = m.ledger;
    let read = read_changes(m, t, files);
    let mid = decided(l, false, 0, i);
    let changes = read + mid;
    lemma_discards(t, m.build_root, m.target_root, files);
    lemma_decided_contents(l, i);
    lemma_outputs_stem(m, t, files);
    assert forall|x: int| 0 <= x < changes.len() implies takes_own(m, t, i, #[trigger] changes[x]) by {
        if x < read.len() {
            assert(changes[x] == read[x]);
        } else {
            assert(changes[x] == mid[x - read.len()]);
            assert(made_before(l, i, mid[x - read.len()]));
            let k = choose|k: int| 0 <= k < i && #[trigger] made_for(l, k, changes[x]);
            assert(stems_from(t, m.build_root, m.target_root, l.outputs[k]));
        }
    }
}

/// An output that is not decided yet has the sizes it had at the start.
proof fn lemma_sizes_undisturbed(
    m: CleanModel,
    t: Tree,
    files: Seq<Seq<u8>>,
    changes: Seq<EffectModel>,
    i: int,
    q: Seq<u8>,
)
    requires
        separate(t, m.build_root, m.target_root),
        lists(files, t.outputs),
        filled(m, t, files),
        0 <= i < m.ledger.outputs.len(),
        forall|x: int| 0 <= x < changes.len() ==> takes_own(m, t, i, #[trigger] changes[x]),
        m.ledger.outputs[i].owned.contains(q),
    ensures
        bytes_below(tree_after(t, changes).files, q) == bytes_below(t.files, q),
{
    let l = m.ledger;
    let b = m.build_root;
    let g = m.target_root;
    lemma_outputs_stem(m, t, files);
    assert(stems_from(t, b, g, l.outputs[i]));
    assert(owns(t, b, g, l.outputs[i].path, q));
    assert forall|x: int, f: Seq<u8>|
        0 <= x < changes.len() && #[trigger] takes(changes[x], f) implies !starts_with(f, q) by {
        assert(takes_own(m, t, i, changes[x]));
        match changes[x] {
            EffectModel::RemovePath(p) => {
                let k = choose|k: int| 0 <= k < i && (#[trigger] l.outputs[k]).owned.contains(p);
                assert(stems_from(t, b, g, l.outputs[k]));
                assert(owns(t, b, g, l.outputs[k].path, p));
                assert(l.outputs[k].path != l.outputs[i].path);
                if starts_with(f, q) {
                    lemma_below_both(f, p, q);
                }
            },
            _ => {},
        }
    }
    lemma_bytes_after(t, changes, q);
}

/// Where outputs are separate, a run sees the tree as it was at the start.
proof fn lemma_undisturbed(t: Tree, files: Seq<Seq<u8>>, r: StepModel, more: ObservationModel)
    requires
        separate(t, r.state.build_root, r.state.target_root),
        lists(files, t.outputs),
        traced(t, files, r),
        !r.state.dry_run,
        shows(tree_after(t, r.effects), r.state.build_root, r.request, more),
    ensures
        shows(t, r.state.build_root, r.request, more),
{
    let m = r.state;
    let l = m.ledger;
    let now = tree_after(t, r.effects);
    match m.stage {
        StageModel::Reading(rest) => {
            let k = files.len() - rest.len();
            assert(rest[0] == files[k]);
            lemma_unread_held(t, m, files, k);
        },
        StageModel::Measuring(i) | StageModel::Deciding(i) => {
            let done = if m.stage is Measuring {
                0
            } else {
                i
            };
            lemma_takes_own(m, t, files, done);
            assert(decided(l, m.dry_run, 0, 0) =~= Seq::empty());
            assert(r.effects =~= read_changes(m, t, files) + decided(l, m.dry_run, 0, done));
            assert forall|x: int| 0 <= x < r.effects.len() implies takes_own(
                m,
                t,
                i,
                #[trigger] r.effects[x],
            ) by {
                assert(takes_own(m, t, done, r.effects[x]));
            }
            let paths = measured_paths_of(l.outputs[i].owned);
            let sizes = more->Sizes_0;
            measured_paths_cover_without_overlap(l.outputs[i].owned);
            assert forall|k: int| 0 <= k < paths.len() implies sizes[k] == capped(
                bytes_below(t.files, paths[k]),
            ) by {
                assert(paths.contains(paths[k]));
                lemma_sizes_undisturbed(m, t, files, r.effects, i, paths[k]);
            }
            assert(sizes =~= Seq::new(
                paths.len(),
                |k: int| capped(bytes_below(t.files, paths[k])),
            ));
        },
        StageModel::ListingRecords => {
            let found = more->Files_0;
            let n = l.outputs.len() as int;
            lemma_roots_differ(m.build_root);
            lemma_takes_own(m, t, files, n);
            lemma_outputs_stem(m, t, files);
            assert(r.effects =~= read_changes(m, t, files) + decided(l, m.dry_run, 0, n));
            assert forall|p: Seq<u8>| #[trigger] found.contains(p) <==> t.variants.contains_key(
                p,
            ) by {
                lemma_variants_after(t, r.effects, p);
                assert(found.contains(p) <==> now.variants.contains_key(p));
                if t.variants.contains_key(p) {
                    assert forall|x: int| 0 <= x < r.effects.len() implies !takes(
                        #[trigger] r.effects[x],
                        p,
                    ) by {
                        assert(takes_own(m, t, n, r.effects[x]));
                        match r.effects[x] {
                            EffectModel::RemovePath(q) => {
                                let k = choose|k: int|
                                    0 <= k < n && (#[trigger] l.outputs[k]).owned.contains(q);
                                assert(stems_from(t, m.build_root, m.target_root, l.outputs[k]));
                                assert(owns(
                                    t,
                                    m.build_root,
                                    m.target_root,
                                    l.outputs[k].path,
                                    q,
                                ));
                            },
                            _ => {},
                        }
                    }
                }
            }
        },
        StageModel::Records(rest) => {
            assert(rest.contains(rest[0]));
            lemma_variants_after(t, r.effects, rest[0]);
        },
        _ => {},
    }
}

/// A tree shows one thing to whom asks one thing.
proof fn lemma_shows_one(
    t: Tree,
    build_root: Seq<u8>,
    request: RequestModel,
    a: ObservationModel,
    b: ObservationModel,
)
    requires
        shows(t, build_root, request, a),
        shows(t, build_root, request, b),
    ensures
        a == b,
{
    match (a, b) {
        (ObservationModel::Files(x), ObservationModel::Files(y)) => {
            assert forall|p: Seq<u8>| #[trigger] x.contains(p) <==> y.contains(p) by {
                assert(t.outputs.contains_key(p) || !t.outputs.contains_key(p));
            }
            strictly_ranked_unique(x, y, path_order());
        },
        _ => {},
    }
}

proof fn lemma_sees_first(m: CleanModel, t: Tree, seen: Seq<ObservationModel>, n: int)
    requires
        sees(m, t, seen),
        0 <= n <= seen.len(),
    ensures
        sees(m, t, seen.take(n)),
        n < seen.len() ==> shows(
            tree_after(t, run(m, seen.take(n)).effects),
            m.build_root,
            run(m, seen.take(n)).request,
            seen[n],
        ),
    decreases seen.len(),
{
    if n == seen.len() {
        assert(seen.take(n) =~= seen);
    } else {
        let init = seen.drop_last();
        lemma_sees_first(m, t, init, n);
        assert(init.take(n) =~= seen.take(n));
        if n == init.len() {
            assert(init =~= seen.take(n));
        }
    }
}

/// On one tree a dry run and a removing run see the same.
#[verifier::rlimit(60)]
proof fn lemma_sees_alike(
    m: CleanModel,
    t: Tree,
    foretold: Seq<ObservationModel>,
    seen: Seq<ObservationModel>,
    n: int,
)
    requires
        fresh(m),
        !m.dry_run,
        separate(t, m.build_root, m.target_root),
        sees(dry(m), t, foretold),
        sees(m, t, seen),
        0 <= n <= foretold.len(),
        n <= seen.len(),
    ensures
        foretold.take(n) == seen.take(n),
    decreases n,
{
    if n > 0 {
        lemma_sees_alike(m, t, foretold, seen, n - 1);
        let pre = seen.take(n - 1);
        lemma_sees_first(dry(m), t, foretold, n - 1);
        lemma_sees_first(m, t, seen, n - 1);
        dry_run_reports_without_removing(m, pre);
        let r = run(m, pre);
        assert(tree_after(t, Seq::<EffectModel>::empty()) == t);
        lemma_traced(m, t, pre);
        if n > 1 {
            let files = pre[0]->Files_0;
            lemma_undisturbed(t, files, r, seen[n - 1]);
        } else {
            assert(pre =~= Seq::empty());
        }
        lemma_shows_one(t, m.build_root, r.request, foretold[n - 1], seen[n - 1]);
        assert(foretold.take(n) =~= foretold.take(n - 1).push(foretold[n - 1]));
        assert(seen.take(n) =~= seen.take(n - 1).push(seen[n - 1]));
    } else {
        assert(foretold.take(0) =~= seen.take(0));
    }
}

/// The shorter of two complete runs that see the same is the other.
proof fn lemma_complete_alike(
    m: CleanModel,
    t: Tree,
    foretold: Seq<ObservationModel>,
    seen: Seq<ObservationModel>,
)
    requires
        fresh(m),
        !m.dry_run,
        separate(t, m.build_root, m.target_root),
        sees(dry(m), t, foretold),
        sees(m, t, seen),
        run(dry(m), foretold).request is Finished,
        run(m, seen).request is Finished,
    ensures
        foretold == seen,
{
    if foretold.len() <= seen.len() {
        let n = foretold.len() as int;
        lemma_sees_alike(m, t, foretold, seen, n);
        assert(foretold.take(n) =~= foretold);
        lemma_sees_first(m, t, seen, n);
        dry_run_reports_without_removing(m, foretold);
        assert(seen.len() == n);
        assert(seen.take(n) =~= seen);
    } else {
        let n = seen.len() as int;
        lemma_sees_alike(m, t, foretold, seen, n);
        assert(seen.take(n) =~= seen);
        lemma_sees_first(dry(m), t, foretold, n);
        dry_run_reports_without_removing(m, seen);
    }
}

/// On one tree a dry run reports what a removing run then reports, and leaves the
/// tree as it is, where outputs own separate paths.
pub proof fn dry_run_foretells_the_run(
    build_root: Seq<u8>,
    target_root: Seq<u8>,
    cutoff: Option<u64>,
    max_size: Option<u64>,
    t: Tree,
    foretold: Seq<ObservationModel>,
    seen: Seq<ObservationModel>,
)
    requires
        separate(t, build_root, target_root),
        sees(start(build_root, target_root, cutoff, max_size, true), t, foretold),
        run(
            start(build_root, target_root, cutoff, max_size, true),
            foretold,
        ).request is Finished,
        sees(start(build_root, target_root, cutoff, max_size, false), t, seen),
        run(start(build_root, target_root, cutoff, max_size, false), seen).request is Finished,
    ensures
        run(start(build_root, target_root, cutoff, max_size, true), foretold).request == run(
            start(build_root, target_root, cutoff, max_size, false),
            seen,
        ).request,
        tree_after(
            t,
            run(start(build_root, target_root, cutoff, max_size, true), foretold).effects,
        ) == t,
{
    let m = start(build_root, target_root, cutoff, max_size, false);
    assert(dry(m) == start(build_root, target_root, cutoff, max_size, true));
    lemma_complete_alike(m, t, foretold, seen);
    dry_run_reports_without_removing(m, seen);
}

/// Where the record in a file of the tree stands among the outputs of a complete
/// run. The output owns all that the record names.
proof fn lemma_found(
    m: CleanModel,
    t: Tree,
    seen: Seq<ObservationModel>,
    p: Seq<u8>,
    record: RecordModel,
) -> (k: int)
    requires
        fresh(m),
        sees(m, t, seen),
        run(m, seen).request is Finished,
        t.outputs.contains_key(p),
        t.outputs[p] == Some(record),
        record.version == 1 || record.version == 2,
    ensures
        ({
            let l = run(m, seen).state.ledger;
            &&& 0 <= k < l.outputs.len()
            &&& l.outputs[k].path == p
            &&& l.outputs[k].record.last_used == record.last_used
            &&& l.outputs[k].record.package == record.package
            &&& l.outputs[k].record.unit == record.unit
            &&& l.outputs[k].record.version == 1 || l.outputs[k].record.version == 2
            &&& match upgraded(record, m.build_root) {
                Some(after) => l.outputs[k].record.unit_dir == after.unit_dir
                    && l.outputs[k].record.paths == after.paths,
                None => l.outputs[k].record.unit_dir == record.unit_dir
                    && l.outputs[k].record.paths == record.paths,
            }
            &&& forall|i: int|
                0 <= i < record.paths.len() ==> covered(
                    #[trigger] record.paths[i],
                    l.outputs[k].owned,
                )
            &&& record.unit_dir matches Some(dir) ==> covered(dir, l.outputs[k].owned)
        }),
{
    let r = run(m, seen);
    let l = r.state.ledger;
    lemma_traced(m, t, seen);
    let files = seen[0]->Files_0;
    lemma_outputs_stem(r.state, t, files);
    assert(files.contains(p));
    let j = choose|j: int| 0 <= j < files.len() && files[j] == p;
    assert(!(admission(m.build_root, m.target_root, files[j], held(t.outputs, files[j])) is Refuse));
    assert(admission(m.build_root, m.target_root, p, t.outputs[p]) is Keep);
    let k = choose|k: int| 0 <= k < l.outputs.len() && (#[trigger] l.outputs[k]).path == p;
    assert(stems_from(t, m.build_root, m.target_root, l.outputs[k]));
    if upgraded(record, m.build_root) is Some {
        upgrade_keeps_ownership(record, m.build_root);
    } else {
        let all = all_owned(record);
        minimal_paths_cover_without_overlap(all);
        assert forall|i: int| 0 <= i < record.paths.len() implies covered(
            #[trigger] record.paths[i],
            l.outputs[k].owned,
        ) by {
            match record.unit_dir {
                None => {
                    assert(all[i] == record.paths[i]);
                },
                Some(_) => {
                    assert(all[i + 1] == record.paths[i]);
                },
            }
        }
        if record.unit_dir is Some {
            assert(all[0] == record.unit_dir->0);
        }
    }
    k
}

proof fn lemma_removed_contains(l: Ledger, i: int, k: int, p: Seq<u8>)
    requires
        0 <= k < i <= l.outputs.len(),
        doomed_at(l, k),
        p == l.outputs[k].path || l.outputs[k].owned.contains(p),
    ensures
        removed_before(l, i).contains(p),
    decreases i,
{
    let before = removed_before(l, i - 1);
    let o = l.outputs[i - 1];
    let all = removed_before(l, i);
    if k < i - 1 {
        lemma_removed_contains(l, i - 1, k, p);
        let x = choose|x: int| 0 <= x < before.len() && before[x] == p;
        assert(all[x] == p);
    } else if p == o.path {
        assert(all[(before.len() + o.owned.len()) as int] == p);
    } else {
        let x = choose|x: int| 0 <= x < o.owned.len() && o.owned[x] == p;
        assert(all[before.len() + x] == p);
    }
}

proof fn lemma_decided_removes(l: Ledger, i: int, k: int, p: Seq<u8>)
    requires
        0 <= k < i <= l.outputs.len(),
        doomed_at(l, k),
        l.outputs[k].owned.contains(p),
    ensures
        decided(l, false, 0, i).contains(EffectModel::RemovePath(p)),
    decreases i,
{
    let before = decided(l, false, 0, i - 1);
    let o = l.outputs[i - 1];
    let all = decided(l, false, 0, i);
    let e = EffectModel::RemovePath(p);
    if k < i - 1 {
        lemma_decided_removes(l, i - 1, k, p);
        let x = choose|x: int| 0 <= x < before.len() && before[x] == e;
        assert(all[x] == e);
    } else {
        let x = choose|x: int| 0 <= x < o.owned.len() && o.owned[x] == p;
        assert(removal(o)[x] == e);
        assert(all[before.len() + x] == e);
    }
}

/// A file is left exactly where it was there and no change takes it.
proof fn lemma_file_left(files: Seq<(Seq<u8>, u64)>, change: EffectModel, f: (Seq<u8>, u64))
    ensures
        files_left(files, change).contains(f) <==> files.contains(f) && !takes(change, f.0),
    decreases files.len(),
{
    if files.len() > 0 {
        let init = files.drop_last();
        lemma_file_left(init, change, f);
        assert(files == init.push(files.last()));
        lemma_pushed(init, files.last(), f);
        lemma_pushed(files_left(init, change), files.last(), f);
    }
}

proof fn lemma_pushed(s: Seq<(Seq<u8>, u64)>, x: (Seq<u8>, u64), f: (Seq<u8>, u64))
    ensures
        s.push(x).contains(f) <==> s.contains(f) || x == f,
{
    if s.contains(f) {
        let i = choose|i: int| 0 <= i < s.len() && s[i] == f;
        assert(s.push(x)[i] == f);
    }
    assert(s.push(x)[s.len() as int] == x);
}

proof fn lemma_files_after(t: Tree, changes: Seq<EffectModel>, f: (Seq<u8>, u64))
    ensures
        tree_after(t, changes).files.contains(f) <==> t.files.contains(f) && forall|k: int|
            0 <= k < changes.len() ==> !takes(#[trigger] changes[k], f.0),
    decreases changes.len(),
{
    if changes.len() > 0 {
        let init = changes.drop_last();
        lemma_files_after(t, init, f);
        lemma_file_left(tree_after(t, init).files, changes.last(), f);
        assert(changes[changes.len() - 1] == changes.last());
        assert forall|k: int| 0 <= k < init.len() implies init[k] == #[trigger] changes[k] by {}
        if forall|k: int| 0 <= k < changes.len() ==> !takes(#[trigger] changes[k], f.0) {
            assert forall|k: int| 0 <= k < init.len() implies !takes(#[trigger] init[k], f.0) by {
                assert(!takes(changes[k], f.0));
            }
        }
        if tree_after(t, changes).files.contains(f) {
            assert forall|k: int| 0 <= k < changes.len() implies !takes(#[trigger] changes[k], f.0) by {
                if k < init.len() {
                    assert(!takes(init[k], f.0));
                }
            }
        }
    }
}

/// In a complete run with a cutoff, every output that has not been used since is
/// removed, whatever the size limit is: its record and all that it owns are
/// reported, and unless the run was a dry one, neither the record nor any file
/// at or below what it owned is left.
pub proof fn expired_output_is_removed(
    build_root: Seq<u8>,
    target_root: Seq<u8>,
    cutoff: u64,
    max_size: Option<u64>,
    dry_run: bool,
    t: Tree,
    seen: Seq<ObservationModel>,
    p: Seq<u8>,
    record: RecordModel,
    q: Seq<u8>,
)
    requires
        ({
            let m = start(build_root, target_root, Some(cutoff), max_size, dry_run);
            sees(m, t, seen) && run(m, seen).request is Finished
        }),
        t.outputs.contains_key(p),
        t.outputs[p] == Some(record),
        record.version == 1 || record.version == 2,
        record.last_used <= cutoff,
        record.paths.contains(q) || record.unit_dir == Some(q),
    ensures
        ({
            let m = start(build_root, target_root, Some(cutoff), max_size, dry_run);
            let r = run(m, seen);
            let removed = r.request->Finished_0.removed;
            let left = tree_after(t, r.effects);
            &&& removed.contains(p)
            &&& exists|k: int|
                0 <= k < removed.len() && components(#[trigger] removed[k]).is_prefix_of(
                    components(q),
                )
            &&& !dry_run ==> !left.outputs.contains_key(p) && forall|i: int|
                0 <= i < left.files.len() ==> !components(q).is_prefix_of(
                    components((#[trigger] left.files[i]).0),
                )
        }),
{
    let m = start(build_root, target_root, Some(cutoff), max_size, dry_run);
    let r = run(m, seen);
    let l = r.state.ledger;
    let n = l.outputs.len() as int;
    let k = lemma_found(m, t, seen, p, record);
    lemma_traced(m, t, seen);
    let files = seen[0]->Files_0;
    assert(doomed_at(l, k));
    let removed = r.request->Finished_0.removed;
    let before = removed_before(l, n);
    lemma_removed_contains(l, n, k, p);
    let x = choose|x: int| 0 <= x < before.len() && before[x] == p;
    assert(removed[x] == p);
    assert(covered(q, l.outputs[k].owned)) by {
        if record.paths.contains(q) {
            let i = choose|i: int| 0 <= i < record.paths.len() && record.paths[i] == q;
            assert(covered(record.paths[i], l.outputs[k].owned));
        }
    }
    let y = choose|y: int|
        0 <= y < l.outputs[k].owned.len() && starts_with(q, #[trigger] l.outputs[k].owned[y]);
    let own = l.outputs[k].owned[y];
    assert(l.outputs[k].owned.contains(own));
    lemma_removed_contains(l, n, k, own);
    let z = choose|z: int| 0 <= z < before.len() && before[z] == own;
    assert(removed[z] == own);
    if !dry_run {
        let left = tree_after(t, r.effects);
        if left.outputs.contains_key(p) {
            lemma_outputs_left(t, files, r, p);
            lemma_outputs_stem(r.state, t, files);
            let j = choose|j: int|
                0 <= j < n && (#[trigger] l.outputs[j]).path == p && !doomed_at(l, j);
            assert(j == k);
        }
        let mid = decided(l, false, 0, n);
        let read = read_changes(r.state, t, files);
        let gone = EffectModel::RemovePath(own);
        lemma_decided_removes(l, n, k, own);
        let w = choose|w: int| 0 <= w < mid.len() && mid[w] == gone;
        assert(r.effects[read.len() + w] == gone);
        assert forall|i: int| 0 <= i < left.files.len() implies !components(q).is_prefix_of(
            components((#[trigger] left.files[i]).0),
        ) by {
            let f = left.files[i];
            if components(q).is_prefix_of(components(f.0)) {
                assert(left.files.contains(f));
                lemma_files_after(t, r.effects, f);
                starts_with_is_partial_order(f.0, q, own);
                assert(takes(r.effects[read.len() + w], f.0));
            }
        }
    }
}

/// What a run reports as removed with outputs is the record of an output that is
/// to be removed, or owned by one.
proof fn lemma_removed_stems(l: Ledger, i: int, p: Seq<u8>) -> (k: int)
    requires
        0 <= i <= l.outputs.len(),
        removed_before(l, i).contains(p),
    ensures
        0 <= k < i,
        doomed_at(l, k),
        p == l.outputs[k].path || l.outputs[k].owned.contains(p),
    decreases i,
{
    let all = removed_before(l, i);
    let before = removed_before(l, i - 1);
    let x = choose|x: int| 0 <= x < all.len() && all[x] == p;
    if doomed_at(l, i - 1) {
        let o = l.outputs[i - 1];
        if x < before.len() {
            assert(before[x] == p);
            lemma_removed_stems(l, i - 1, p)
        } else {
            if x < before.len() + o.owned.len() {
                assert(o.owned[x - before.len()] == p);
            }
            i - 1
        }
    } else {
        lemma_removed_stems(l, i - 1, p)
    }
}

/// Where outputs own separate paths, an output record is reported exactly where
/// its output is to be removed.
proof fn lemma_reported(m: CleanModel, t: Tree, seen: Seq<ObservationModel>, p: Seq<u8>)
    requires
        fresh(m),
        sees(m, t, seen),
        run(m, seen).request is Finished,
        separate(t, m.build_root, m.target_root),
        t.outputs.contains_key(p),
    ensures
        ({
            let r = run(m, seen);
            let l = r.state.ledger;
            &&& r.request->Finished_0.removed.contains(p) <==> exists|k: int|
                0 <= k < l.outputs.len() && (#[trigger] l.outputs[k]).path == p && doomed_at(l, k)
            &&& forall|i: int, j: int|
                0 <= i < j < l.outputs.len() ==> (#[trigger] l.outputs[i]).path != (
                #[trigger] l.outputs[j]).path
        }),
{
    let r = run(m, seen);
    let l = r.state.ledger;
    let n = l.outputs.len() as int;
    let removed = r.request->Finished_0.removed;
    let before = removed_before(l, n);
    lemma_traced(m, t, seen);
    let files = seen[0]->Files_0;
    lemma_outputs_stem(r.state, t, files);
    if removed.contains(p) {
        let x = choose|x: int| 0 <= x < removed.len() && removed[x] == p;
        if x < before.len() {
            assert(before[x] == p);
            let k = lemma_removed_stems(l, n, p);
            if l.outputs[k].path != p {
                assert(stems_from(t, m.build_root, m.target_root, l.outputs[k]));
                assert(owns(t, m.build_root, m.target_root, l.outputs[k].path, p));
                starts_with_is_partial_order(p, p, p);
            }
            assert(l.outputs[k].path == p && doomed_at(l, k));
        } else {
            assert(r.state.stale[x - before.len()] == p);
            assert(t.variants.contains_key(p));
        }
    }
    if exists|k: int| 0 <= k < n && (#[trigger] l.outputs[k]).path == p && doomed_at(l, k) {
        let k = choose|k: int| 0 <= k < n && (#[trigger] l.outputs[k]).path == p && doomed_at(l, k);
        lemma_removed_contains(l, n, k, p);
        let x = choose|x: int| 0 <= x < before.len() && before[x] == p;
        assert(removed[x] == p);
    }
}

/// An output is removed only for a reason. One that has been used since the
/// cutoff is removed only where the total is limited and all outputs together
/// are larger than the limit, and then only after every output that was used
/// less recently.
pub proof fn used_output_is_removed_only_for_space(
    build_root: Seq<u8>,
    target_root: Seq<u8>,
    cutoff: Option<u64>,
    max_size: Option<u64>,
    dry_run: bool,
    t: Tree,
    seen: Seq<ObservationModel>,
    p: Seq<u8>,
    record: RecordModel,
)
    requires
        ({
            let m = start(build_root, target_root, cutoff, max_size, dry_run);
            sees(m, t, seen) && run(m, seen).request is Finished
        }),
        separate(t, build_root, target_root),
        t.outputs.contains_key(p),
        t.outputs[p] == Some(record),
        record.version == 1 || record.version == 2,
        cutoff matches Some(c) ==> record.last_used > c,
    ensures
        ({
            let m = start(build_root, target_root, cutoff, max_size, dry_run);
            let r = run(m, seen);
            let removed = r.request->Finished_0.removed;
            removed.contains(p) ==> {
                &&& max_size matches Some(limit) && sum(sizes_of(r.state.ledger.outputs)) > limit
                &&& forall|other: Seq<u8>| #[trigger]
                    t.outputs.contains_key(other) && (t.outputs[other] matches Some(o) && (o.version
                        == 1 || o.version == 2) && o.last_used < record.last_used)
                        ==> removed.contains(other)
            }
        }),
{
    let m = start(build_root, target_root, cutoff, max_size, dry_run);
    let r = run(m, seen);
    let l = r.state.ledger;
    let removed = r.request->Finished_0.removed;
    lemma_traced(m, t, seen);
    if removed.contains(p) {
        let k = lemma_found(m, t, seen, p, record);
        lemma_reported(m, t, seen, p);
        let j = choose|j: int|
            0 <= j < l.outputs.len() && (#[trigger] l.outputs[j]).path == p && doomed_at(l, j);
        assert(j == k);
        retained_never_grows(l, 0, k);
        complete_run_removes_what_it_reports(
            build_root,
            target_root,
            cutoff,
            max_size,
            dry_run,
            seen,
            r.request->Finished_0,
        );
        assert forall|other: Seq<u8>| #[trigger]
            t.outputs.contains_key(other) && (t.outputs[other] matches Some(o) && (o.version == 1
                || o.version == 2) && o.last_used < record.last_used) implies removed.contains(
            other,
        ) by {
            let x = lemma_found(m, t, seen, other, t.outputs[other]->0);
            let le = |a: StoredModel, b: StoredModel| used_le(a, b);
            if x >= k {
                assert(le(l.outputs[k], l.outputs[x]));
            }
            size_limit_removes_least_recently_used_first(l, x, k);
            lemma_reported(m, t, seen, other);
        }
    }
}

/// A removing run leaves what it does not report: the record of an output that
/// is not reported, up to its size and the unit directory found for it, and
/// every file at or below what such an output owns. Where the total is limited,
/// the record then has a size.
pub proof fn unreported_output_is_left_alone(
    build_root: Seq<u8>,
    target_root: Seq<u8>,
    cutoff: Option<u64>,
    max_size: Option<u64>,
    t: Tree,
    seen: Seq<ObservationModel>,
    p: Seq<u8>,
    record: RecordModel,
    q: Seq<u8>,
)
    requires
        ({
            let m = start(build_root, target_root, cutoff, max_size, false);
            &&& sees(m, t, seen)
            &&& run(m, seen).request matches RequestModel::Finished(report)
                && !report.removed.contains(p)
        }),
        separate(t, build_root, target_root),
        t.outputs.contains_key(p),
        t.outputs[p] == Some(record),
        record.version == 1 || record.version == 2,
        record.paths.contains(q) || record.unit_dir == Some(q),
    ensures
        ({
            let m = start(build_root, target_root, cutoff, max_size, false);
            let left = tree_after(t, run(m, seen).effects);
            &&& left.outputs.contains_key(p)
            &&& left.outputs[p] matches Some(now) && {
                &&& now.package == record.package
                &&& now.unit == record.unit
                &&& now.last_used == record.last_used
                &&& max_size is Some ==> now.size is Some
                &&& now.version == 1 || now.version == 2
                &&& match upgraded(record, build_root) {
                    Some(after) => now.unit_dir == after.unit_dir && now.paths == after.paths,
                    None => now.unit_dir == record.unit_dir && now.paths == record.paths,
                }
            }
            &&& forall|i: int|
                0 <= i < t.files.len() && components(q).is_prefix_of(
                    components((#[trigger] t.files[i]).0),
                ) ==> left.files.contains(t.files[i])
        }),
{
    let m = start(build_root, target_root, cutoff, max_size, false);
    let r = run(m, seen);
    let l = r.state.ledger;
    let n = l.outputs.len() as int;
    let changes = r.effects;
    lemma_traced(m, t, seen);
    let files = seen[0]->Files_0;
    let k = lemma_found(m, t, seen, p, record);
    lemma_reported(m, t, seen, p);
    assert(!doomed_at(l, k));
    lemma_untaken(m, t, seen, k, p);
    let left = tree_after(t, changes);
    lemma_output_stays(t, changes, p);
    lemma_outputs_left(t, files, r, p);
    let j = choose|j: int|
        0 <= j < n && (#[trigger] l.outputs[j]).path == p && !doomed_at(l, j)
            && left.outputs[p] == Some(l.outputs[j].record);
    assert(j == k);
    complete_run_removes_what_it_reports(
        build_root,
        target_root,
        cutoff,
        max_size,
        false,
        seen,
        r.request->Finished_0,
    );
    assert(covered(q, l.outputs[k].owned)) by {
        if record.paths.contains(q) {
            let i = choose|i: int| 0 <= i < record.paths.len() && record.paths[i] == q;
            assert(covered(record.paths[i], l.outputs[k].owned));
        }
    }
    let y = choose|y: int|
        0 <= y < l.outputs[k].owned.len() && starts_with(q, #[trigger] l.outputs[k].owned[y]);
    let own = l.outputs[k].owned[y];
    assert forall|i: int|
        0 <= i < t.files.len() && components(q).is_prefix_of(
            components((#[trigger] t.files[i]).0),
        ) implies left.files.contains(t.files[i]) by {
        let f = t.files[i];
        starts_with_is_partial_order(f.0, q, own);
        lemma_untaken_below(m, t, seen, k, own, f.0);
        assert(t.files.contains(f));
        lemma_files_after(t, changes, f);
    }
}

/// No change of a removing run takes a file below what an output owns that is
/// kept.
proof fn lemma_untaken_below(
    m: CleanModel,
    t: Tree,
    seen: Seq<ObservationModel>,
    k: int,
    own: Seq<u8>,
    f: Seq<u8>,
)
    requires
        fresh(m),
        !m.dry_run,
        sees(m, t, seen),
        run(m, seen).request is Finished,
        separate(t, m.build_root, m.target_root),
        0 <= k < run(m, seen).state.ledger.outputs.len(),
        !doomed_at(run(m, seen).state.ledger, k),
        run(m, seen).state.ledger.outputs[k].owned.contains(own),
        starts_with(f, own),
    ensures
        forall|x: int|
            0 <= x < run(m, seen).effects.len() ==> !takes(#[trigger] run(m, seen).effects[x], f),
{
    let r = run(m, seen);
    let l = r.state.ledger;
    let n = l.outputs.len() as int;
    let changes = r.effects;
    lemma_traced(m, t, seen);
    let files = seen[0]->Files_0;
    lemma_outputs_stem(r.state, t, files);
    assert(stems_from(t, m.build_root, m.target_root, l.outputs[k]));
    assert(owns(t, m.build_root, m.target_root, l.outputs[k].path, own));
    let read = discards(t, m.build_root, m.target_root, files);
    let mid = decided(l, false, 0, n);
    assert(changes == read + mid + stale_changes(r.state));
    lemma_discards(t, m.build_root, m.target_root, files);
    lemma_decided_contents(l, n);
    assert forall|x: int| 0 <= x < changes.len() implies !takes(#[trigger] changes[x], f) by {
        if x < read.len() {
            assert(changes[x] == read[x]);
            assert(t.outputs.contains_key(read[x]->RemoveFile_0));
        } else if x < read.len() + mid.len() {
            assert(changes[x] == mid[x - read.len()]);
            assert(made_before(l, n, mid[x - read.len()]));
            let j = choose|j: int| 0 <= j < n && #[trigger] made_for(l, j, changes[x]);
            assert(stems_from(t, m.build_root, m.target_root, l.outputs[j]));
            match changes[x] {
                EffectModel::RemovePath(other) => {
                    assert(owns(t, m.build_root, m.target_root, l.outputs[j].path, other));
                    if j < k {
                        assert(l.outputs[j].path != l.outputs[k].path);
                    } else if k < j {
                        assert(l.outputs[k].path != l.outputs[j].path);
                    }
                    if takes(changes[x], f) {
                        lemma_below_both(f, own, other);
                    }
                },
                _ => {},
            }
        } else {
            let y = x - read.len() - mid.len();
            assert(changes[x] == EffectModel::RemoveFile(r.state.stale[y]));
            assert(t.variants.contains_key(r.state.stale[y]));
        }
    }
}

/// A record file that no change takes stays.
proof fn lemma_output_stays(t: Tree, changes: Seq<EffectModel>, p: Seq<u8>)
    requires
        t.outputs.contains_key(p),
        forall|x: int| 0 <= x < changes.len() ==> !takes(#[trigger] changes[x], p),
    ensures
        tree_after(t, changes).outputs.contains_key(p),
    decreases changes.len(),
{
    if changes.len() > 0 {
        let init = changes.drop_last();
        assert forall|x: int| 0 <= x < init.len() implies !takes(#[trigger] init[x], p) by {
            assert(init[x] == changes[x]);
        }
        lemma_output_stays(t, init, p);
        assert(changes[changes.len() - 1] == changes.last());
        assert(!takes(changes.last(), p));
    }
}

/// No change of a removing run takes the record of an output that is kept.
proof fn lemma_untaken(m: CleanModel, t: Tree, seen: Seq<ObservationModel>, k: int, p: Seq<u8>)
    requires
        fresh(m),
        !m.dry_run,
        sees(m, t, seen),
        run(m, seen).request is Finished,
        separate(t, m.build_root, m.target_root),
        0 <= k < run(m, seen).state.ledger.outputs.len(),
        run(m, seen).state.ledger.outputs[k].path == p,
        !doomed_at(run(m, seen).state.ledger, k),
    ensures
        forall|x: int|
            0 <= x < run(m, seen).effects.len() ==> !takes(#[trigger] run(m, seen).effects[x], p),
{
    let r = run(m, seen);
    let l = r.state.ledger;
    let n = l.outputs.len() as int;
    let changes = r.effects;
    lemma_traced(m, t, seen);
    let files = seen[0]->Files_0;
    lemma_outputs_stem(r.state, t, files);
    assert(stems_from(t, m.build_root, m.target_root, l.outputs[k]));
    let read = discards(t, m.build_root, m.target_root, files);
    let mid = decided(l, false, 0, n);
    assert(changes == read + mid + stale_changes(r.state));
    lemma_discards(t, m.build_root, m.target_root, files);
    lemma_decided_contents(l, n);
    assert forall|x: int| 0 <= x < changes.len() implies !takes(#[trigger] changes[x], p) by {
        if x < read.len() {
            assert(changes[x] == read[x]);
        } else if x < read.len() + mid.len() {
            assert(changes[x] == mid[x - read.len()]);
            assert(made_before(l, n, mid[x - read.len()]));
            let j = choose|j: int| 0 <= j < n && #[trigger] made_for(l, j, changes[x]);
            assert(stems_from(t, m.build_root, m.target_root, l.outputs[j]));
            match changes[x] {
                EffectModel::RemovePath(own) => {
                    assert(owns(t, m.build_root, m.target_root, l.outputs[j].path, own));
                },
                EffectModel::RemoveFile(f) => {
                    if j < k {
                        assert(l.outputs[j].path != l.outputs[k].path);
                    } else if k < j {
                        assert(l.outputs[k].path != l.outputs[j].path);
                    }
                },
                EffectModel::Write(_, _) => {},
            }
        } else {
            let y = x - read.len() - mid.len();
            assert(changes[x] == EffectModel::RemoveFile(r.state.stale[y]));
            assert(t.variants.contains_key(r.state.stale[y]));
        }
    }
}

/// A removing run leaves no output record that cannot be read or has a version
/// that is not supported. No run reports one, where outputs own separate paths.
pub proof fn useless_output_record_is_removed(
    build_root: Seq<u8>,
    target_root: Seq<u8>,
    cutoff: Option<u64>,
    max_size: Option<u64>,
    dry_run: bool,
    t: Tree,
    seen: Seq<ObservationModel>,
    p: Seq<u8>,
)
    requires
        ({
            let m = start(build_root, target_root, cutoff, max_size, dry_run);
            sees(m, t, seen) && run(m, seen).request is Finished
        }),
        t.outputs.contains_key(p),
        t.outputs[p] matches Some(record) ==> record.version != 1 && record.version != 2,
    ensures
        ({
            let m = start(build_root, target_root, cutoff, max_size, dry_run);
            let r = run(m, seen);
            &&& !dry_run ==> !tree_after(t, r.effects).outputs.contains_key(p)
            &&& separate(t, build_root, target_root) ==> !r.request->Finished_0.removed.contains(p)
        }),
{
    let m = start(build_root, target_root, cutoff, max_size, dry_run);
    let r = run(m, seen);
    let l = r.state.ledger;
    let n = l.outputs.len() as int;
    lemma_traced(m, t, seen);
    let files = seen[0]->Files_0;
    lemma_outputs_stem(r.state, t, files);
    assert(admission(build_root, target_root, p, t.outputs[p]) is Discard);
    assert forall|k: int| 0 <= k < n implies (#[trigger] l.outputs[k]).path != p by {
        assert(stems_from(t, build_root, target_root, l.outputs[k]));
    }
    if !dry_run && tree_after(t, r.effects).outputs.contains_key(p) {
        lemma_outputs_left(t, files, r, p);
    }
    if separate(t, build_root, target_root) {
        lemma_reported(m, t, seen, p);
    }
}

/// A removing run leaves no variant record that cannot be read, has another
/// version than the third or has not been used since the cutoff. Every run
/// reports such a record, where outputs own separate paths.
pub proof fn stale_variant_record_is_removed(
    build_root: Seq<u8>,
    target_root: Seq<u8>,
    cutoff: Option<u64>,
    max_size: Option<u64>,
    dry_run: bool,
    t: Tree,
    seen: Seq<ObservationModel>,
    p: Seq<u8>,
)
    requires
        ({
            let m = start(build_root, target_root, cutoff, max_size, dry_run);
            sees(m, t, seen) && run(m, seen).request is Finished
        }),
        t.variants.contains_key(p),
        t.variants[p] matches Some(record) ==> record.version != 3 || (cutoff matches Some(c)
            && record.last_used <= c),
    ensures
        ({
            let m = start(build_root, target_root, cutoff, max_size, dry_run);
            let r = run(m, seen);
            &&& !dry_run ==> !tree_after(t, r.effects).variants.contains_key(p)
            &&& separate(t, build_root, target_root) ==> r.request->Finished_0.removed.contains(p)
        }),
{
    let m = start(build_root, target_root, cutoff, max_size, dry_run);
    let r = run(m, seen);
    let l = r.state.ledger;
    let n = l.outputs.len() as int;
    let after = tree_after(t, r.effects).variants;
    lemma_traced(m, t, seen);
    let files = seen[0]->Files_0;
    assert(is_stale(t.variants[p], l.cutoff));
    assert(!Seq::<Seq<u8>>::empty().contains(p));
    lemma_variants_after(t, r.effects, p);
    if separate(t, build_root, target_root) {
        let removed = r.request->Finished_0.removed;
        let before = removed_before(l, n);
        if !dry_run {
            let x = choose|x: int| 0 <= x < r.effects.len() && takes(#[trigger] r.effects[x], p);
            lemma_takes_own(r.state, t, files, n);
            let own = read_changes(r.state, t, files) + decided(l, false, 0, n);
            lemma_outputs_stem(r.state, t, files);
            if x < own.len() {
                assert(r.effects[x] == own[x]);
                assert(takes_own(r.state, t, n, own[x]));
                match own[x] {
                    EffectModel::RemovePath(q) => {
                        let k = choose|k: int|
                            0 <= k < n && (#[trigger] l.outputs[k]).owned.contains(q);
                        assert(stems_from(t, build_root, target_root, l.outputs[k]));
                        assert(owns(t, build_root, target_root, l.outputs[k].path, q));
                    },
                    _ => {},
                }
                assert(false);
            }
            let y = x - own.len();
            assert(r.effects[x] == stale_changes(r.state)[y]);
            assert(removed[before.len() + y] == r.state.stale[y]);
        } else {
            assert(r.effects =~= Seq::empty()) by {
                assert(read_changes(r.state, t, files) =~= Seq::empty());
                assert(decided(l, true, 0, n) =~= Seq::empty());
            }
            assert(after.contains_key(p));
            let y = choose|y: int| 0 <= y < r.state.stale.len() && r.state.stale[y] == p;
            assert(removed[before.len() + y] == p);
        }
    }
}

/// A variant record of the third version that has been used since the cutoff is
/// neither removed nor reported, where outputs own separate paths.
pub proof fn used_variant_record_is_kept(
    build_root: Seq<u8>,
    target_root: Seq<u8>,
    cutoff: Option<u64>,
    max_size: Option<u64>,
    dry_run: bool,
    t: Tree,
    seen: Seq<ObservationModel>,
    p: Seq<u8>,
)
    requires
        ({
            let m = start(build_root, target_root, cutoff, max_size, dry_run);
            sees(m, t, seen) && run(m, seen).request is Finished
        }),
        separate(t, build_root, target_root),
        t.variants.contains_key(p),
        t.variants[p] matches Some(record) && record.version == 3 && (cutoff matches Some(c)
            ==> record.last_used > c),
    ensures
        ({
            let m = start(build_root, target_root, cutoff, max_size, dry_run);
            let r = run(m, seen);
            let left = tree_after(t, r.effects).variants;
            &&& left.contains_key(p) && left[p] == t.variants[p]
            &&& !r.request->Finished_0.removed.contains(p)
        }),
{
    let m = start(build_root, target_root, cutoff, max_size, dry_run);
    let r = run(m, seen);
    let l = r.state.ledger;
    let n = l.outputs.len() as int;
    lemma_traced(m, t, seen);
    let files = seen[0]->Files_0;
    lemma_outputs_stem(r.state, t, files);
    assert(!is_stale(t.variants[p], l.cutoff));
    lemma_variants_after(t, r.effects, p);
    let removed = r.request->Finished_0.removed;
    let before = removed_before(l, n);
    if removed.contains(p) {
        let x = choose|x: int| 0 <= x < removed.len() && removed[x] == p;
        if x < before.len() {
            assert(before[x] == p);
            let k = lemma_removed_stems(l, n, p);
            assert(stems_from(t, build_root, target_root, l.outputs[k]));
            if l.outputs[k].owned.contains(p) {
                assert(owns(t, build_root, target_root, l.outputs[k].path, p));
                starts_with_is_partial_order(p, p, p);
            }
        } else {
            assert(r.state.stale[x - before.len()] == p);
        }
    }
    assert forall|x: int| 0 <= x < r.effects.len() implies !takes(#[trigger] r.effects[x], p) by {
        if dry_run {
            assert(read_changes(r.state, t, files) =~= Seq::empty());
            assert(decided(l, true, 0, n) =~= Seq::empty());
        } else {
            lemma_takes_own(r.state, t, files, n);
            let own = read_changes(r.state, t, files) + decided(l, false, 0, n);
            if x < own.len() {
                assert(r.effects[x] == own[x]);
                assert(takes_own(r.state, t, n, own[x]));
                match own[x] {
                    EffectModel::RemovePath(q) => {
                        let k = choose|k: int|
                            0 <= k < n && (#[trigger] l.outputs[k]).owned.contains(q);
                        assert(stems_from(t, build_root, target_root, l.outputs[k]));
                        assert(owns(t, build_root, target_root, l.outputs[k].path, q));
                    },
                    _ => {},
                }
            } else {
                let y = x - own.len();
                assert(r.effects[x] == stale_changes(r.state)[y]);
                assert(r.effects[x] == EffectModel::RemoveFile(r.state.stale[y]));
                assert(is_stale(t.variants[r.state.stale[y]], l.cutoff));
            }
        }
    }
}

/// A run is refused only where a record claims what its unit may not own, with the
/// unit directory found for it where it names none; and no run goes on to its end
/// over such a record.
pub proof fn run_is_refused_for_foreign_ownership(
    build_root: Seq<u8>,
    target_root: Seq<u8>,
    cutoff: Option<u64>,
    max_size: Option<u64>,
    dry_run: bool,
    t: Tree,
    seen: Seq<ObservationModel>,
)
    requires
        sees(start(build_root, target_root, cutoff, max_size, dry_run), t, seen),
    ensures
        ({
            let request = run(
                start(build_root, target_root, cutoff, max_size, dry_run),
                seen,
            ).request;
            let foreign = |record: RecordModel|
                {
                    let now = match upgraded(record, build_root) {
                        Some(after) => after,
                        None => record,
                    };
                    &&& record.version == 1 || record.version == 2
                    &&& ownership_fault(
                        build_root,
                        target_root,
                        now.package,
                        now.unit,
                        now.unit_dir,
                        now.paths,
                    ) is Some
                };
            &&& request is Refused ==> exists|p: Seq<u8>| #[trigger]
                t.outputs.contains_key(p) && (t.outputs[p] matches Some(record) && foreign(record))
            &&& request is Finished ==> forall|p: Seq<u8>| #[trigger]
                t.outputs.contains_key(p) ==> !(t.outputs[p] matches Some(record) && foreign(
                    record,
                ))
        }),
{
    let m = start(build_root, target_root, cutoff, max_size, dry_run);
    let r = run(m, seen);
    lemma_traced(m, t, seen);
    if seen.len() > 0 {
        let files = seen[0]->Files_0;
        if r.request is Refused {
            assert(!unrefused(t, build_root, target_root, files));
            let k = choose|k: int|
                0 <= k < files.len() && admission(
                    build_root,
                    target_root,
                    #[trigger] files[k],
                    held(t.outputs, files[k]),
                ) is Refuse;
            assert(files.contains(files[k]));
            assert(t.outputs.contains_key(files[k]));
        }
        if r.request is Finished {
            assert forall|p: Seq<u8>| #[trigger] t.outputs.contains_key(p) implies !(admission(
                build_root,
                target_root,
                p,
                t.outputs[p],
            ) is Refuse) by {
                assert(files.contains(p));
                let k = choose|k: int| 0 <= k < files.len() && files[k] == p;
                assert(held(t.outputs, files[k]) == t.outputs[p]);
            }
        }
    }
}

/// A run reports only what goes: the record of an output, a path that an output
/// owns, or a variant record that cannot be read, has another version than the
/// third or has not been used since the cutoff.
pub proof fn report_names_only_what_may_go(
    build_root: Seq<u8>,
    target_root: Seq<u8>,
    cutoff: Option<u64>,
    max_size: Option<u64>,
    dry_run: bool,
    t: Tree,
    seen: Seq<ObservationModel>,
    x: Seq<u8>,
)
    requires
        ({
            let m = start(build_root, target_root, cutoff, max_size, dry_run);
            &&& sees(m, t, seen)
            &&& run(m, seen).request matches RequestModel::Finished(report)
                && report.removed.contains(x)
        }),
    ensures
        ({
            let stale = t.variants.contains_key(x) && (t.variants[x] matches Some(record)
                ==> record.version != 3 || (cutoff matches Some(c) && record.last_used <= c));
            stale || exists|p: Seq<u8>| #[trigger]
                t.outputs.contains_key(p) && (t.outputs[p] matches Some(record) && (record.version
                    == 1 || record.version == 2) && (x == p || owned_paths_of(
                    match upgraded(record, build_root) {
                        Some(after) => after,
                        None => record,
                    },
                ).contains(x)))
        }),
{
    let m = start(build_root, target_root, cutoff, max_size, dry_run);
    let r = run(m, seen);
    let l = r.state.ledger;
    let n = l.outputs.len() as int;
    lemma_traced(m, t, seen);
    let files = seen[0]->Files_0;
    lemma_outputs_stem(r.state, t, files);
    let removed = r.request->Finished_0.removed;
    let before = removed_before(l, n);
    let i = choose|i: int| 0 <= i < removed.len() && removed[i] == x;
    if i < before.len() {
        assert(before[i] == x);
        let k = lemma_removed_stems(l, n, x);
        assert(stems_from(t, build_root, target_root, l.outputs[k]));
        assert(t.outputs.contains_key(l.outputs[k].path));
    } else {
        assert(r.state.stale[i - before.len()] == x);
        assert(is_stale(t.variants[x], l.cutoff));
    }
}

/// A run with a cutoff reports every path that an output owns which has not been
/// used since, whatever the size limit is.
pub proof fn expired_output_is_reported_with_all_it_owns(
    build_root: Seq<u8>,
    target_root: Seq<u8>,
    cutoff: u64,
    max_size: Option<u64>,
    dry_run: bool,
    t: Tree,
    seen: Seq<ObservationModel>,
    p: Seq<u8>,
    record: RecordModel,
    own: Seq<u8>,
)
    requires
        ({
            let m = start(build_root, target_root, Some(cutoff), max_size, dry_run);
            sees(m, t, seen) && run(m, seen).request is Finished
        }),
        t.outputs.contains_key(p),
        t.outputs[p] == Some(record),
        record.version == 1 || record.version == 2,
        record.last_used <= cutoff,
        owned_paths_of(
            match upgraded(record, build_root) {
                Some(after) => after,
                None => record,
            },
        ).contains(own),
    ensures
        run(
            start(build_root, target_root, Some(cutoff), max_size, dry_run),
            seen,
        ).request->Finished_0.removed.contains(own),
{
    let m = start(build_root, target_root, Some(cutoff), max_size, dry_run);
    let r = run(m, seen);
    let l = r.state.ledger;
    let n = l.outputs.len() as int;
    let k = lemma_found(m, t, seen, p, record);
    lemma_traced(m, t, seen);
    let files = seen[0]->Files_0;
    lemma_outputs_stem(r.state, t, files);
    assert(stems_from(t, build_root, target_root, l.outputs[k]));
    assert(l.outputs[k].owned.contains(own));
    assert(doomed_at(l, k));
    lemma_removed_contains(l, n, k, own);
    let before = removed_before(l, n);
    let x = choose|x: int| 0 <= x < before.len() && before[x] == own;
    assert(r.request->Finished_0.removed[x] == own);
}

/// Where the changes of a removed output stand: its record goes after what it owns.
proof fn lemma_record_goes_last(l: Ledger, i: int, k: int, own: Seq<u8>) -> (at: (int, int))
    requires
        0 <= k < i <= l.outputs.len(),
        doomed_at(l, k),
        l.outputs[k].owned.contains(own),
    ensures
        0 <= at.0 < at.1 < decided(l, false, 0, i).len(),
        decided(l, false, 0, i)[at.0] == EffectModel::RemovePath(own),
        decided(l, false, 0, i)[at.1] == EffectModel::RemoveFile(l.outputs[k].path),
    decreases i,
{
    let before = decided(l, false, 0, i - 1);
    let o = l.outputs[i - 1];
    let all = decided(l, false, 0, i);
    if k < i - 1 {
        let at = lemma_record_goes_last(l, i - 1, k, own);
        assert(all[at.0] == before[at.0] && all[at.1] == before[at.1]);
        at
    } else {
        let x = choose|x: int| 0 <= x < o.owned.len() && o.owned[x] == own;
        let n = o.owned.len() as int;
        assert(removal(o)[x] == EffectModel::RemovePath(own));
        assert(removal(o)[n] == EffectModel::RemoveFile(o.path));
        assert(all[before.len() + x] == removal(o)[x]);
        assert(all[before.len() + n] == removal(o)[n]);
        (before.len() + x, before.len() + n)
    }
}

/// The record of an output that has not been used since the cutoff is removed only
/// after all that the output owns, so that a run that is cut short leaves a record
/// of what is left.
pub proof fn record_is_removed_after_what_it_owns(
    build_root: Seq<u8>,
    target_root: Seq<u8>,
    cutoff: u64,
    max_size: Option<u64>,
    t: Tree,
    seen: Seq<ObservationModel>,
    p: Seq<u8>,
    record: RecordModel,
    own: Seq<u8>,
)
    requires
        ({
            let m = start(build_root, target_root, Some(cutoff), max_size, false);
            sees(m, t, seen) && run(m, seen).request is Finished
        }),
        t.outputs.contains_key(p),
        t.outputs[p] == Some(record),
        record.version == 1 || record.version == 2,
        record.last_used <= cutoff,
        owned_paths_of(
            match upgraded(record, build_root) {
                Some(after) => after,
                None => record,
            },
        ).contains(own),
    ensures
        ({
            let effects = run(
                start(build_root, target_root, Some(cutoff), max_size, false),
                seen,
            ).effects;
            exists|a: int, b: int|
                0 <= a < b < effects.len() && #[trigger] effects[a] == EffectModel::RemovePath(own)
                    && #[trigger] effects[b] == EffectModel::RemoveFile(p)
        }),
{
    let m = start(build_root, target_root, Some(cutoff), max_size, false);
    let r = run(m, seen);
    let l = r.state.ledger;
    let n = l.outputs.len() as int;
    let k = lemma_found(m, t, seen, p, record);
    lemma_traced(m, t, seen);
    let files = seen[0]->Files_0;
    lemma_outputs_stem(r.state, t, files);
    assert(stems_from(t, build_root, target_root, l.outputs[k]));
    assert(doomed_at(l, k));
    let at = lemma_record_goes_last(l, n, k, own);
    let read = read_changes(r.state, t, files);
    let mid = decided(l, false, 0, n);
    assert(r.effects == read + mid + stale_changes(r.state));
    assert(r.effects[read.len() + at.0] == mid[at.0]);
    assert(r.effects[read.len() + at.1] == mid[at.1]);
}

} // verus!
