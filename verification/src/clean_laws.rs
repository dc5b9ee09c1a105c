//! What holds of every cleaning run.

use vstd::prelude::*;

use crate::clean::{
    admission, after_change, all_sized, decide_on, decided, doomed_at, expects, expired, is_stale,
    measure_on, measured, next_unsized, next_unsized_doomed, outputs_root, read_on, records_on,
    removal, removed_before, removed_sizes, report_of, retained_at, size_of, sizes_of, start, step,
    used_le, with_outputs, Admission, CleanModel, EffectModel, LastUsedRecord, Ledger,
    ObservationModel, ReportModel, RequestModel, StageModel, StepModel, StoredModel,
};
use crate::order::{
    ranked, stable_sort, stable_sort_is_permutation, stable_sort_is_ranked, total_preorder,
};
use crate::outputs::{owned_paths_of, owned_paths_stay_below_roots};
use crate::path::{is_absolute, path_le, path_le_is_total_preorder, strictly_below};
use crate::walk::{capped, sum};

verus! {

/// A whole run: all the changes made, and what it came to.
pub open spec fn run(m: CleanModel, seen: Seq<ObservationModel>) -> StepModel
    decreases seen.len(),
{
    if seen.len() == 0 {
        StepModel {
            state: m,
            effects: Seq::empty(),
            request: RequestModel::List(outputs_root(m.build_root)),
        }
    } else {
        let before = run(m, seen.drop_last());
        let last = step(before.state, seen.last());
        StepModel { effects: before.effects + last.effects, ..last }
    }
}

/// Each observation answers what the run was waiting for.
pub open spec fn answers(m: CleanModel, seen: Seq<ObservationModel>) -> bool
    decreases seen.len(),
{
    seen.len() > 0 ==> answers(m, seen.drop_last()) && expects(
        run(m, seen.drop_last()).state,
        seen.last(),
    )
}

/// The same run, but as a dry run.
pub open spec fn dry(m: CleanModel) -> CleanModel {
    CleanModel { dry_run: true, ..m }
}

proof fn lemma_dry_step(m: CleanModel, seen: ObservationModel)
    ensures
        step(dry(m), seen).state == dry(step(m, seen).state),
        step(dry(m), seen).request == step(m, seen).request,
        step(dry(m), seen).effects == Seq::<EffectModel>::empty(),
{
    match (m.stage, seen) {
        (StageModel::Listing, ObservationModel::Files(files)) => {
            lemma_dry_read_on(m, files);
        },
        (StageModel::Reading(files), ObservationModel::Record(record)) => {
            let rest = files.skip(1);
            lemma_dry_read_on(m, rest);
            match admission(m.build_root, m.target_root, files[0], record) {
                Admission::Keep(output) => {
                    lemma_dry_read_on(with_outputs(m, m.ledger.outputs.push(output)), rest);
                },
                _ => {},
            }
        },
        _ => {},
    }
}

proof fn lemma_dry_read_on(m: CleanModel, files: Seq<Seq<u8>>)
    ensures
        read_on(dry(m), files).state == dry(read_on(m, files).state),
        read_on(dry(m), files).request == read_on(m, files).request,
        read_on(dry(m), files).effects == Seq::<EffectModel>::empty(),
{
}

/// A dry run changes nothing; shown the same, it asks for the same and reports
/// the same as a run that removes.
pub proof fn dry_run_reports_without_removing(m: CleanModel, seen: Seq<ObservationModel>)
    ensures
        run(dry(m), seen).effects == Seq::<EffectModel>::empty(),
        run(dry(m), seen).request == run(m, seen).request,
        run(dry(m), seen).state == dry(run(m, seen).state),
    decreases seen.len(),
{
    if seen.len() > 0 {
        let init = seen.drop_last();
        dry_run_reports_without_removing(m, init);
        lemma_dry_step(run(m, init).state, seen.last());
        assert(Seq::<EffectModel>::empty() + Seq::<EffectModel>::empty() =~= Seq::<
            EffectModel,
        >::empty());
    }
}

/// Outputs are ordered by when they were last used.
pub proof fn used_le_is_total_preorder()
    ensures
        total_preorder(|a: StoredModel, b: StoredModel| used_le(a, b)),
{
    path_le_is_total_preorder();
    let by_path = |p: Seq<u8>, q: Seq<u8>| path_le(p, q);
    let le = |a: StoredModel, b: StoredModel| used_le(a, b);
    assert forall|a: StoredModel, b: StoredModel| #[trigger] le(a, b) || le(b, a) by {
        assert(by_path(a.path, b.path) || by_path(b.path, a.path));
    }
    assert forall|a: StoredModel, b: StoredModel, c: StoredModel| #[trigger]
        le(a, b) && #[trigger] le(b, c) implies le(a, c) by {
        if path_le(a.path, b.path) && path_le(b.path, c.path) {
            assert(by_path(a.path, b.path) && by_path(b.path, c.path));
            assert(by_path(a.path, c.path));
        }
    }
}

/// What is counted as retained never grows.
pub proof fn retained_never_grows(l: Ledger, i: int, j: int)
    requires
        0 <= i <= j,
    ensures
        retained_at(l, j) <= retained_at(l, i),
    decreases j - i,
{
    if i < j {
        retained_never_grows(l, i, j - 1);
    }
}

/// An output that is removed only for its size is removed after all that were
/// used less recently.
pub proof fn size_limit_removes_least_recently_used_first(l: Ledger, j: int, i: int)
    requires
        0 <= j <= i < l.outputs.len(),
        doomed_at(l, i),
        !expired(l.outputs[i].record.last_used, l.cutoff),
    ensures
        doomed_at(l, j),
{
    retained_never_grows(l, j, i);
}

/// The sizes of the outputs before `i` that are kept.
pub open spec fn kept_sizes(l: Ledger, i: int) -> Seq<u64>
    decreases i,
{
    if i <= 0 {
        Seq::empty()
    } else if doomed_at(l, i - 1) {
        kept_sizes(l, i - 1)
    } else {
        kept_sizes(l, i - 1).push(size_of(l.outputs[i - 1]))
    }
}

proof fn lemma_sum_first(s: Seq<u64>)
    requires
        s.len() > 0,
    ensures
        sum(s) == s[0] + sum(s.skip(1)),
    decreases s.len(),
{
    if s.len() == 1 {
        assert(s.drop_last() =~= Seq::<u64>::empty());
        assert(s.skip(1) =~= Seq::<u64>::empty());
    } else {
        lemma_sum_first(s.drop_last());
        assert(s.drop_last().skip(1) =~= s.skip(1).drop_last());
        assert(s.skip(1).last() == s.last());
    }
}

/// What is counted as retained is what has been kept and what is not decided
/// yet, as long as their total can be counted.
pub proof fn retained_counts_kept_and_undecided(l: Ledger, i: int)
    requires
        l.max_size is Some,
        0 <= i <= l.outputs.len(),
    ensures
        retained_at(l, i) <= sum(kept_sizes(l, i)) + sum(sizes_of(l.outputs).skip(i)),
        sum(sizes_of(l.outputs)) <= u64::MAX ==> retained_at(l, i) == sum(kept_sizes(l, i)) + sum(
            sizes_of(l.outputs).skip(i),
        ),
    decreases i,
{
    let z = sizes_of(l.outputs);
    if i == 0 {
        assert(z.skip(0) =~= z);
    } else {
        retained_counts_kept_and_undecided(l, i - 1);
        lemma_sum_first(z.skip(i - 1));
        assert(z.skip(i - 1).skip(1) =~= z.skip(i));
        assert(z.skip(i - 1)[0] == size_of(l.outputs[i - 1]));
        let before = kept_sizes(l, i - 1);
        assert(before.push(size_of(l.outputs[i - 1])).drop_last() =~= before);
    }
}

/// Once all outputs are decided, no more is retained than the limit allows; and
/// an output that is not expired is removed only while more is retained.
pub proof fn size_limit_is_met(l: Ledger, limit: u64)
    requires
        l.max_size == Some(limit),
    ensures
        retained_at(l, l.outputs.len() as int) <= limit,
        sum(sizes_of(l.outputs)) <= u64::MAX ==> {
            &&& sum(kept_sizes(l, l.outputs.len() as int)) <= limit
            &&& forall|i: int|
                0 <= i < l.outputs.len() && #[trigger] doomed_at(l, i) && !expired(
                    l.outputs[i].record.last_used,
                    l.cutoff,
                ) ==> sum(kept_sizes(l, i)) + sum(sizes_of(l.outputs).skip(i)) > limit
        },
{
    let n = l.outputs.len() as int;
    let z = sizes_of(l.outputs);
    assert(z.skip(n) =~= Seq::<u64>::empty());
    retained_counts_kept_and_undecided(l, n);
    if exists|k: int| 0 <= k < n && !doomed_at(l, k) {
        let k = choose|k: int| 0 <= k < n && !doomed_at(l, k);
        assert(!doomed_at(l, k));
        assert(retained_at(l, k) <= limit);
        retained_never_grows(l, k, n);
    } else {
        lemma_nothing_kept(l, n);
    }
    assert forall|i: int|
        0 <= i < n && #[trigger] doomed_at(l, i) && !expired(
            l.outputs[i].record.last_used,
            l.cutoff,
        ) && sum(z) <= u64::MAX implies sum(kept_sizes(l, i)) + sum(z.skip(i)) > limit by {
        retained_counts_kept_and_undecided(l, i);
    }
}

proof fn lemma_nothing_kept(l: Ledger, i: int)
    requires
        0 <= i <= l.outputs.len(),
        forall|k: int| 0 <= k < l.outputs.len() ==> #[trigger] doomed_at(l, k),
    ensures
        kept_sizes(l, i) == Seq::<u64>::empty(),
    decreases i,
{
    if i > 0 {
        assert(doomed_at(l, i - 1));
        lemma_nothing_kept(l, i - 1);
    }
}

/// Without limits no output is removed.
pub proof fn no_limit_keeps_every_output(l: Ledger, i: int)
    requires
        l.cutoff is None,
        l.max_size is None,
    ensures
        !doomed_at(l, i),
        removed_before(l, i) == Seq::<Seq<u8>>::empty(),
        removed_sizes(l, i) == Seq::<u64>::empty(),
    decreases i,
{
    if i > 0 {
        no_limit_keeps_every_output(l, i - 1);
    }
}

/// The record files that the caller has found.
pub open spec fn listed(seen: Seq<ObservationModel>, p: Seq<u8>) -> bool {
    exists|k: int|
        0 <= k < seen.len() && (#[trigger] seen[k] matches ObservationModel::Files(files)
            && files.contains(p))
}

/// `p` is absolute and lies strictly below a root of the run.
pub open spec fn below_roots(m: CleanModel, p: Seq<u8>) -> bool {
    is_absolute(p) && (strictly_below(p, m.build_root) || strictly_below(p, m.target_root))
}

/// A change that a run may make: it removes what lies strictly below a root, or
/// removes or replaces a record file that was found.
pub open spec fn permitted(m: CleanModel, seen: Seq<ObservationModel>, e: EffectModel) -> bool {
    match e {
        EffectModel::RemovePath(p) => below_roots(m, p),
        EffectModel::RemoveFile(p) => listed(seen, p),
        EffectModel::Write(p, _) => listed(seen, p),
    }
}

/// The changes remove this path.
pub open spec fn removes(effects: Seq<EffectModel>, p: Seq<u8>) -> bool {
    effects.contains(EffectModel::RemoveFile(p)) || effects.contains(EffectModel::RemovePath(p))
}

/// The changes remove all these paths, unless nothing is to be changed.
pub open spec fn carried_out(m: CleanModel, effects: Seq<EffectModel>, paths: Seq<Seq<u8>>) -> bool {
    m.dry_run || forall|k: int| 0 <= k < paths.len() ==> removes(effects, #[trigger] paths[k])
}

spec fn all_listed(seen: Seq<ObservationModel>, files: Seq<Seq<u8>>) -> bool {
    forall|k: int| 0 <= k < files.len() ==> listed(seen, #[trigger] files[k])
}

spec fn sound_output(m: CleanModel, seen: Seq<ObservationModel>, o: StoredModel) -> bool {
    listed(seen, o.path) && forall|k: int|
        0 <= k < o.owned.len() ==> below_roots(m, #[trigger] o.owned[k])
}

spec fn sound_outputs(m: CleanModel, seen: Seq<ObservationModel>) -> bool {
    forall|k: int|
        0 <= k < m.ledger.outputs.len() ==> sound_output(m, seen, #[trigger] m.ledger.outputs[k])
}

spec fn in_order(l: Ledger) -> bool {
    ranked(l.outputs, |a: StoredModel, b: StoredModel| used_le(a, b))
}

/// What the stage reached says of the state.
spec fn stage_holds(m: CleanModel, seen: Seq<ObservationModel>, effects: Seq<EffectModel>) -> bool {
    let l = m.ledger;
    let n = l.outputs.len() as int;
    match m.stage {
        StageModel::Listing => true,
        StageModel::Reading(files) => files.len() > 0 && all_listed(seen, files),
        StageModel::Measuring(i) => {
            &&& 0 <= i < n
            &&& in_order(l)
            &&& l.max_size is Some
            &&& forall|k: int| 0 <= k < i ==> (#[trigger] l.outputs[k]).record.size is Some
        },
        StageModel::Deciding(i) => {
            &&& 0 <= i < n
            &&& in_order(l)
            &&& l.max_size is None
            &&& doomed_at(l, i)
            &&& carried_out(m, effects, removed_before(l, i))
        },
        StageModel::ListingRecords => complete(m, effects),
        StageModel::Records(files) => files.len() > 0 && all_listed(seen, files) && complete(
            m,
            effects,
        ),
        StageModel::Ended => true,
    }
}

/// Every output is decided.
spec fn complete(m: CleanModel, effects: Seq<EffectModel>) -> bool {
    &&& in_order(m.ledger)
    &&& m.ledger.max_size is Some ==> all_sized(m.ledger.outputs)
    &&& carried_out(m, effects, removed_before(m.ledger, m.ledger.outputs.len() as int))
}

spec fn request_holds(r: StepModel) -> bool {
    r.request matches RequestModel::Finished(report) ==> {
        &&& complete(r.state, r.effects)
        &&& report == report_of(r.state.ledger, r.state.stale)
    }
}

spec fn run_holds(seen: Seq<ObservationModel>, r: StepModel) -> bool {
    &&& sound_outputs(r.state, seen)
    &&& all_listed(seen, r.state.stale)
    &&& carried_out(r.state, r.effects, r.state.stale)
    &&& forall|k: int|
        0 <= k < r.effects.len() ==> permitted(r.state, seen, #[trigger] r.effects[k])
    &&& stage_holds(r.state, seen, r.effects)
    &&& request_holds(r)
}

pub(crate) proof fn lemma_next_unsized_doomed(l: Ledger, i: int)
    requires
        0 <= i <= l.outputs.len(),
    ensures
        i <= next_unsized_doomed(l, i) <= l.outputs.len(),
        next_unsized_doomed(l, i) < l.outputs.len() ==> doomed_at(l, next_unsized_doomed(l, i))
            && l.outputs[next_unsized_doomed(l, i)].record.size is None,
    decreases l.outputs.len() - i,
{
    if i < l.outputs.len() && !(doomed_at(l, i) && l.outputs[i].record.size is None) {
        lemma_next_unsized_doomed(l, i + 1);
    }
}

pub(crate) proof fn lemma_next_unsized(outputs: Seq<StoredModel>, i: int)
    requires
        0 <= i <= outputs.len(),
    ensures
        i <= next_unsized(outputs, i) <= outputs.len(),
        forall|k: int|
            i <= k < next_unsized(outputs, i) ==> (#[trigger] outputs[k]).record.size is Some,
        next_unsized(outputs, i) < outputs.len() ==> outputs[next_unsized(
            outputs,
            i,
        )].record.size is None,
    decreases outputs.len() - i,
{
    if i < outputs.len() && outputs[i].record.size is Some {
        lemma_next_unsized(outputs, i + 1);
    }
}

/// Deciding outputs makes permitted changes, and removes all that it should.
proof fn lemma_decided(m: CleanModel, seen: Seq<ObservationModel>, i: int, j: int)
    requires
        0 <= i <= j <= m.ledger.outputs.len(),
        sound_outputs(m, seen),
    ensures
        ({
            let effects = decided(m.ledger, m.dry_run, i, j);
            &&& forall|k: int|
                0 <= k < effects.len() ==> permitted(m, seen, #[trigger] effects[k])
            &&& !m.dry_run ==> forall|p: Seq<u8>| #[trigger]
                removed_before(m.ledger, j).contains(p) ==> removed_before(m.ledger, i).contains(p)
                    || removes(effects, p)
        }),
    decreases j - i,
{
    let l = m.ledger;
    if i < j && !m.dry_run {
        lemma_decided(m, seen, i, j - 1);
        let o = l.outputs[j - 1];
        assert(sound_output(m, seen, o));
        let before = decided(l, false, i, j - 1);
        let after = decided(l, false, i, j);
        let more = if doomed_at(l, j - 1) {
            removal(o)
        } else if o.changed {
            seq![EffectModel::Write(o.path, o.record)]
        } else {
            Seq::empty()
        };
        assert(after == before + more);
        assert forall|k: int| 0 <= k < after.len() implies permitted(
            m,
            seen,
            #[trigger] after[k],
        ) by {
            if k < before.len() {
                assert(after[k] == before[k]);
            } else {
                let x = k - before.len();
                assert(after[k] == more[x]);
                if doomed_at(l, j - 1) && x < o.owned.len() {
                    assert(more[x] == EffectModel::RemovePath(o.owned[x]));
                }
            }
        }
        assert forall|p: Seq<u8>| #[trigger] removed_before(l, j).contains(p) implies removed_before(
            l,
            i,
        ).contains(p) || removes(after, p) by {
            let all = removed_before(l, j);
            let init = removed_before(l, j - 1);
            let k = choose|k: int| 0 <= k < all.len() && all[k] == p;
            if k < init.len() {
                assert(all[k] == init[k]);
                assert(init.contains(p));
                if removes(before, p) {
                    lemma_removes_prefix(before, more, p);
                }
            } else {
                assert(doomed_at(l, j - 1));
                let x = k - init.len();
                if x < o.owned.len() {
                    assert(p == o.owned[x]);
                    assert(more[x] == EffectModel::RemovePath(p));
                    assert(after[before.len() + x] == EffectModel::RemovePath(p));
                } else {
                    assert(p == o.path);
                    assert(more[o.owned.len() as int] == EffectModel::RemoveFile(p));
                    assert(after[(before.len() + o.owned.len()) as int] == EffectModel::RemoveFile(p));
                }
            }
        }
    }
}

proof fn lemma_removes_prefix(a: Seq<EffectModel>, b: Seq<EffectModel>, p: Seq<u8>)
    requires
        removes(a, p),
    ensures
        removes(a + b, p),
{
    if a.contains(EffectModel::RemoveFile(p)) {
        let k = choose|k: int| 0 <= k < a.len() && a[k] == EffectModel::RemoveFile(p);
        assert((a + b)[k] == EffectModel::RemoveFile(p));
    } else {
        let k = choose|k: int| 0 <= k < a.len() && a[k] == EffectModel::RemovePath(p);
        assert((a + b)[k] == EffectModel::RemovePath(p));
    }
}

proof fn lemma_removes_suffix(a: Seq<EffectModel>, b: Seq<EffectModel>, p: Seq<u8>)
    requires
        removes(b, p),
    ensures
        removes(a + b, p),
{
    if b.contains(EffectModel::RemoveFile(p)) {
        let k = choose|k: int| 0 <= k < b.len() && b[k] == EffectModel::RemoveFile(p);
        assert((a + b)[a.len() + k] == EffectModel::RemoveFile(p));
    } else {
        let k = choose|k: int| 0 <= k < b.len() && b[k] == EffectModel::RemovePath(p);
        assert((a + b)[a.len() + k] == EffectModel::RemovePath(p));
    }
}

proof fn lemma_carried_on(
    m: CleanModel,
    a: Seq<EffectModel>,
    b: Seq<EffectModel>,
    paths: Seq<Seq<u8>>,
)
    requires
        carried_out(m, a, paths),
    ensures
        carried_out(m, a + b, paths),
{
    if !m.dry_run {
        assert forall|k: int| 0 <= k < paths.len() implies removes(a + b, #[trigger] paths[k]) by {
            lemma_removes_prefix(a, b, paths[k]);
        }
    }
}

proof fn lemma_permitted_on(
    m: CleanModel,
    seen: Seq<ObservationModel>,
    a: Seq<EffectModel>,
    b: Seq<EffectModel>,
)
    requires
        forall|k: int| 0 <= k < a.len() ==> permitted(m, seen, #[trigger] a[k]),
        forall|k: int| 0 <= k < b.len() ==> permitted(m, seen, #[trigger] b[k]),
    ensures
        forall|k: int| 0 <= k < (a + b).len() ==> permitted(m, seen, #[trigger] (a + b)[k]),
{
    assert forall|k: int| 0 <= k < (a + b).len() implies permitted(
        m,
        seen,
        #[trigger] (a + b)[k],
    ) by {
        if k < a.len() {
            assert((a + b)[k] == a[k]);
        } else {
            assert((a + b)[k] == b[k - a.len()]);
        }
    }
}

/// A step behind one that made these changes.
pub open spec fn extend(effects: Seq<EffectModel>, s: StepModel) -> StepModel {
    StepModel { effects: effects + s.effects, ..s }
}

proof fn lemma_decide_on(
    m: CleanModel,
    seen: Seq<ObservationModel>,
    effects: Seq<EffectModel>,
    i: int,
)
    requires
        0 <= i <= m.ledger.outputs.len(),
        sound_outputs(m, seen),
        all_listed(seen, m.stale),
        carried_out(m, effects, m.stale),
        forall|k: int| 0 <= k < effects.len() ==> permitted(m, seen, #[trigger] effects[k]),
        in_order(m.ledger),
        m.ledger.max_size is Some ==> all_sized(m.ledger.outputs),
        carried_out(m, effects, removed_before(m.ledger, i)),
    ensures
        run_holds(seen, extend(effects, decide_on(m, i))),
{
    let l = m.ledger;
    let s = decide_on(m, i);
    let j = next_unsized_doomed(l, i);
    lemma_next_unsized_doomed(l, i);
    lemma_decided(m, seen, i, j);
    let more = decided(l, m.dry_run, i, j);
    let all = effects + more;
    lemma_permitted_on(m, seen, effects, more);
    lemma_carried_on(m, effects, more, m.stale);
    assert(carried_out(m, all, removed_before(l, j))) by {
        if !m.dry_run {
            let now = removed_before(l, j);
            assert forall|k: int| 0 <= k < now.len() implies removes(all, #[trigger] now[k]) by {
                let p = now[k];
                assert(now.contains(p));
                if removed_before(l, i).contains(p) {
                    let before = removed_before(l, i);
                    let x = choose|x: int| 0 <= x < before.len() && before[x] == p;
                    assert(removes(effects, before[x]));
                    lemma_removes_prefix(effects, more, p);
                } else {
                    lemma_removes_suffix(effects, more, p);
                }
            }
        }
    }
    let r = extend(effects, s);
    assert(r.effects == all);
    lemma_restage(m, r.state, seen, all);
    if j < l.outputs.len() {
        assert(l.outputs[j].record.size is None);
    }
}

/// Whether outputs are sound and changes permitted does not depend on the stage.
proof fn lemma_restage(
    m: CleanModel,
    after: CleanModel,
    seen: Seq<ObservationModel>,
    effects: Seq<EffectModel>,
)
    requires
        after.build_root == m.build_root,
        after.target_root == m.target_root,
        sound_outputs(m, seen),
        forall|k: int| 0 <= k < effects.len() ==> permitted(m, seen, #[trigger] effects[k]),
    ensures
        after.ledger.outputs == m.ledger.outputs ==> sound_outputs(after, seen),
        forall|k: int| 0 <= k < effects.len() ==> permitted(after, seen, #[trigger] effects[k]),
{
    assert forall|k: int| 0 <= k < effects.len() implies permitted(
        after,
        seen,
        #[trigger] effects[k],
    ) by {
        assert(permitted(m, seen, effects[k]));
    }
    if after.ledger.outputs == m.ledger.outputs {
        assert forall|k: int| 0 <= k < after.ledger.outputs.len() implies sound_output(
            after,
            seen,
            #[trigger] after.ledger.outputs[k],
        ) by {
            assert(sound_output(m, seen, m.ledger.outputs[k]));
        }
    }
}

proof fn lemma_measure_on(
    m: CleanModel,
    seen: Seq<ObservationModel>,
    effects: Seq<EffectModel>,
    i: int,
)
    requires
        0 <= i <= m.ledger.outputs.len(),
        sound_outputs(m, seen),
        all_listed(seen, m.stale),
        carried_out(m, effects, m.stale),
        forall|k: int| 0 <= k < effects.len() ==> permitted(m, seen, #[trigger] effects[k]),
        in_order(m.ledger),
        m.ledger.max_size is Some,
        forall|k: int| 0 <= k < i ==> (#[trigger] m.ledger.outputs[k]).record.size is Some,
    ensures
        run_holds(seen, extend(effects, measure_on(m, i))),
{
    let j = next_unsized(m.ledger.outputs, i);
    lemma_next_unsized(m.ledger.outputs, i);
    if j < m.ledger.outputs.len() {
        let r = extend(effects, measure_on(m, i));
        assert(r.effects =~= effects);
        lemma_restage(m, r.state, seen, effects);
    } else {
        lemma_decide_on(m, seen, effects, 0);
    }
}

proof fn lemma_read_on(
    m: CleanModel,
    seen: Seq<ObservationModel>,
    effects: Seq<EffectModel>,
    files: Seq<Seq<u8>>,
)
    requires
        sound_outputs(m, seen),
        all_listed(seen, m.stale),
        carried_out(m, effects, m.stale),
        forall|k: int| 0 <= k < effects.len() ==> permitted(m, seen, #[trigger] effects[k]),
        all_listed(seen, files),
    ensures
        run_holds(seen, extend(effects, read_on(m, files))),
{
    if files.len() > 0 {
        let r = extend(effects, read_on(m, files));
        assert(r.effects =~= effects);
        lemma_restage(m, r.state, seen, effects);
    } else {
        let le = |a: StoredModel, b: StoredModel| used_le(a, b);
        let sorted = stable_sort(m.ledger.outputs, le);
        let after = with_outputs(m, sorted);
        used_le_is_total_preorder();
        stable_sort_is_ranked(m.ledger.outputs, le);
        stable_sort_is_permutation(m.ledger.outputs, le);
        lemma_restage(m, after, seen, effects);
        assert forall|k: int| 0 <= k < sorted.len() implies sound_output(
            after,
            seen,
            #[trigger] sorted[k],
        ) by {
            assert(sorted.contains(sorted[k]));
            assert(m.ledger.outputs.contains(sorted[k]));
            let x = choose|x: int|
                0 <= x < m.ledger.outputs.len() && m.ledger.outputs[x] == sorted[k];
            assert(sound_output(m, seen, m.ledger.outputs[x]));
        }
        if m.ledger.max_size is Some {
            lemma_measure_on(after, seen, effects, 0);
        } else {
            lemma_decide_on(after, seen, effects, 0);
        }
    }
}

proof fn lemma_records_on(
    m: CleanModel,
    seen: Seq<ObservationModel>,
    effects: Seq<EffectModel>,
    files: Seq<Seq<u8>>,
)
    requires
        sound_outputs(m, seen),
        all_listed(seen, m.stale),
        carried_out(m, effects, m.stale),
        forall|k: int| 0 <= k < effects.len() ==> permitted(m, seen, #[trigger] effects[k]),
        all_listed(seen, files),
        complete(m, effects),
    ensures
        run_holds(seen, extend(effects, records_on(m, files))),
{
    let r = extend(effects, records_on(m, files));
    assert(r.effects =~= effects);
    lemma_restage(m, r.state, seen, effects);
}

proof fn lemma_measured(m: CleanModel, seen: Seq<ObservationModel>, i: int, size: u64)
    requires
        0 <= i < m.ledger.outputs.len(),
        sound_outputs(m, seen),
        in_order(m.ledger),
    ensures
        ({
            let after = with_outputs(m, measured(m.ledger.outputs, i, size));
            &&& sound_outputs(after, seen)
            &&& in_order(after.ledger)
        }),
{
    let after = with_outputs(m, measured(m.ledger.outputs, i, size));
    let le = |a: StoredModel, b: StoredModel| used_le(a, b);
    let x = m.ledger.outputs;
    let y = after.ledger.outputs;
    assert forall|k: int| 0 <= k < y.len() implies sound_output(after, seen, #[trigger] y[k]) by {
        assert(sound_output(m, seen, x[k]));
        assert(y[k].owned == x[k].owned && y[k].path == x[k].path);
    }
    assert forall|a: int, b: int| 0 <= a <= b < y.len() implies #[trigger] le(y[a], y[b]) by {
        assert(le(x[a], x[b]));
    }
}

pub(crate) proof fn lemma_measured_prefix(l: Ledger, i: int, size: u64, k: int)
    requires
        l.max_size is None,
        0 <= k <= i < l.outputs.len(),
    ensures
        ({
            let after = Ledger { outputs: measured(l.outputs, i, size), ..l };
            &&& retained_at(after, k) == 0
            &&& retained_at(l, k) == 0
            &&& doomed_at(after, k) == doomed_at(l, k)
            &&& removed_before(after, k) == removed_before(l, k)
        }),
    decreases k,
{
    if k > 0 {
        lemma_measured_prefix(l, i, size, k - 1);
    }
}

proof fn lemma_seen_grows(seen: Seq<ObservationModel>, more: ObservationModel, p: Seq<u8>)
    requires
        listed(seen, p),
    ensures
        listed(seen.push(more), p),
{
    let k = choose|k: int|
        0 <= k < seen.len() && (#[trigger] seen[k] matches ObservationModel::Files(files)
            && files.contains(p));
    assert(seen.push(more)[k] == seen[k]);
}

proof fn lemma_holds_grows(seen: Seq<ObservationModel>, more: ObservationModel, r: StepModel)
    requires
        run_holds(seen, r),
    ensures
        run_holds(seen.push(more), r),
{
    let after = seen.push(more);
    assert forall|p: Seq<u8>| #[trigger] listed(seen, p) implies listed(after, p) by {
        lemma_seen_grows(seen, more, p);
    }
    assert forall|k: int| 0 <= k < r.effects.len() implies permitted(
        r.state,
        after,
        #[trigger] r.effects[k],
    ) by {
        assert(permitted(r.state, seen, r.effects[k]));
    }
    assert forall|k: int| 0 <= k < r.state.ledger.outputs.len() implies sound_output(
        r.state,
        after,
        #[trigger] r.state.ledger.outputs[k],
    ) by {
        assert(sound_output(r.state, seen, r.state.ledger.outputs[k]));
    }
}

proof fn lemma_step_holds(seen: Seq<ObservationModel>, more: ObservationModel, r: StepModel)
    requires
        run_holds(seen, r),
        expects(r.state, more),
    ensures
        run_holds(seen.push(more), extend(r.effects, step(r.state, more))),
{
    let m = r.state;
    let after = seen.push(more);
    let effects = r.effects;
    lemma_holds_grows(seen, more, r);
    match (m.stage, more) {
        (StageModel::Listing, ObservationModel::Files(files)) => {
            assert forall|k: int| 0 <= k < files.len() implies listed(after, #[trigger] files[k]) by {
                assert(after[seen.len() as int] == more);
                assert(files.contains(files[k]));
            }
            lemma_read_on(m, after, effects, files);
        },
        (StageModel::Reading(files), ObservationModel::Record(record)) => {
            let rest = files.skip(1);
            let path = files[0];
            assert(listed(after, path));
            assert forall|k: int| 0 <= k < rest.len() implies listed(after, #[trigger] rest[k]) by {
                assert(rest[k] == files[k + 1]);
            }
            match admission(m.build_root, m.target_root, path, record) {
                Admission::Discard => {
                    let change = seq![EffectModel::RemoveFile(path)];
                    let begun = if m.dry_run {
                        effects
                    } else {
                        effects + change
                    };
                    if !m.dry_run {
                        lemma_permitted_on(m, after, effects, change);
                        lemma_carried_on(m, effects, change, m.stale);
                    }
                    lemma_read_on(m, after, begun, rest);
                    let s = read_on(m, rest);
                    if !m.dry_run {
                        assert(begun + s.effects =~= effects + (change + s.effects));
                    }
                    assert(extend(effects, step(m, more)) == extend(begun, s));
                },
                Admission::Refuse(fault) => {
                    let s = step(m, more);
                    assert(effects + s.effects =~= effects);
                    lemma_restage(m, s.state, after, effects);
                },
                Admission::Keep(output) => {
                    let next = with_outputs(m, m.ledger.outputs.push(output));
                    lemma_restage(m, next, after, effects);
                    owned_paths_stay_below_roots(m.build_root, m.target_root, output.record);
                    assert(sound_output(next, after, output)) by {
                        assert forall|k: int| 0 <= k < output.owned.len() implies below_roots(
                            next,
                            #[trigger] output.owned[k],
                        ) by {
                            assert(output.owned.contains(output.owned[k]));
                            assert(owned_paths_of(output.record).contains(output.owned[k]));
                        }
                    }
                    assert forall|k: int| 0 <= k < next.ledger.outputs.len() implies sound_output(
                        next,
                        after,
                        #[trigger] next.ledger.outputs[k],
                    ) by {
                        if k < m.ledger.outputs.len() {
                            assert(sound_output(m, after, m.ledger.outputs[k]));
                        }
                    }
                    lemma_read_on(next, after, effects, rest);
                },
            }
        },
        (StageModel::Measuring(i), ObservationModel::Sizes(sizes)) => {
            let size = capped(sum(sizes));
            let next = with_outputs(m, measured(m.ledger.outputs, i, size));
            lemma_measured(m, after, i, size);
            lemma_restage(m, next, after, effects);
            lemma_measure_on(next, after, effects, i);
        },
        (StageModel::Deciding(i), ObservationModel::Sizes(sizes)) => {
            let size = capped(sum(sizes));
            let next = with_outputs(m, measured(m.ledger.outputs, i, size));
            lemma_measured(m, after, i, size);
            lemma_restage(m, next, after, effects);
            lemma_measured_prefix(m.ledger, i, size, i);
            lemma_decide_on(next, after, effects, i);
        },
        (StageModel::ListingRecords, ObservationModel::Files(files)) => {
            assert forall|k: int| 0 <= k < files.len() implies listed(after, #[trigger] files[k]) by {
                assert(after[seen.len() as int] == more);
                assert(files.contains(files[k]));
            }
            lemma_records_on(m, after, effects, files);
        },
        (StageModel::Records(files), ObservationModel::LastUsed(record)) => {
            let rest = files.skip(1);
            let path = files[0];
            assert(listed(after, path));
            assert forall|k: int| 0 <= k < rest.len() implies listed(after, #[trigger] rest[k]) by {
                assert(rest[k] == files[k + 1]);
            }
            lemma_stale_step(m, after, effects, path, record, rest);
        },
        _ => {},
    }
}

proof fn lemma_stale_step(
    m: CleanModel,
    seen: Seq<ObservationModel>,
    effects: Seq<EffectModel>,
    path: Seq<u8>,
    record: Option<LastUsedRecord>,
    rest: Seq<Seq<u8>>,
)
    requires
        sound_outputs(m, seen),
        all_listed(seen, m.stale),
        carried_out(m, effects, m.stale),
        forall|k: int| 0 <= k < effects.len() ==> permitted(m, seen, #[trigger] effects[k]),
        listed(seen, path),
        all_listed(seen, rest),
        complete(m, effects),
    ensures
        ({
            let s = if is_stale(record, m.ledger.cutoff) {
                after_change(
                    m,
                    EffectModel::RemoveFile(path),
                    records_on(CleanModel { stale: m.stale.push(path), ..m }, rest),
                )
            } else {
                records_on(m, rest)
            };
            run_holds(seen, extend(effects, s))
        }),
{
    if is_stale(record, m.ledger.cutoff) {
        let next = CleanModel { stale: m.stale.push(path), ..m };
        let change = seq![EffectModel::RemoveFile(path)];
        let begun = if m.dry_run {
            effects
        } else {
            effects + change
        };
        let last = removed_before(m.ledger, m.ledger.outputs.len() as int);
        if !m.dry_run {
            lemma_permitted_on(m, seen, effects, change);
            lemma_carried_on(m, effects, change, m.stale);
            lemma_carried_on(m, effects, change, last);
            assert(begun[effects.len() as int] == EffectModel::RemoveFile(path));
            assert forall|k: int| 0 <= k < next.stale.len() implies removes(
                begun,
                #[trigger] next.stale[k],
            ) by {
                if k < m.stale.len() {
                    assert(removes(begun, m.stale[k]));
                }
            }
        }
        lemma_restage(m, next, seen, begun);
        lemma_records_on(next, seen, begun, rest);
        let s = records_on(next, rest);
        if !m.dry_run {
            assert(begun + s.effects =~= effects + (change + s.effects));
        }
    } else {
        lemma_records_on(m, seen, effects, rest);
    }
}

proof fn lemma_run_holds(m: CleanModel, seen: Seq<ObservationModel>)
    requires
        m.stage == StageModel::Listing,
        m.ledger.outputs == Seq::<StoredModel>::empty(),
        m.stale == Seq::<Seq<u8>>::empty(),
        answers(m, seen),
    ensures
        run_holds(seen, run(m, seen)),
        run(m, seen).state.build_root == m.build_root,
        run(m, seen).state.target_root == m.target_root,
        run(m, seen).state.dry_run == m.dry_run,
        run(m, seen).state.ledger.cutoff == m.ledger.cutoff,
        run(m, seen).state.ledger.max_size == m.ledger.max_size,
    decreases seen.len(),
{
    if seen.len() > 0 {
        let init = seen.drop_last();
        lemma_run_holds(m, init);
        lemma_step_holds(init, seen.last(), run(m, init));
        assert(init.push(seen.last()) =~= seen);
    }
}

/// Whatever the caller sees, a run removes only what lies strictly below its
/// build root or its target root, and the record files that were found; and it
/// replaces only such record files.
pub proof fn run_changes_only_what_it_may(
    build_root: Seq<u8>,
    target_root: Seq<u8>,
    cutoff: Option<u64>,
    max_size: Option<u64>,
    dry_run: bool,
    seen: Seq<ObservationModel>,
)
    requires
        answers(start(build_root, target_root, cutoff, max_size, dry_run), seen),
    ensures
        ({
            let m = start(build_root, target_root, cutoff, max_size, dry_run);
            let r = run(m, seen);
            forall|k: int| 0 <= k < r.effects.len() ==> permitted(m, seen, #[trigger] r.effects[k])
        }),
{
    let m = start(build_root, target_root, cutoff, max_size, dry_run);
    let r = run(m, seen);
    lemma_run_holds(m, seen);
    assert forall|k: int| 0 <= k < r.effects.len() implies permitted(
        m,
        seen,
        #[trigger] r.effects[k],
    ) by {
        assert(permitted(r.state, seen, r.effects[k]));
    }
}

/// A complete run has decided the outputs from the least recently used on, knew
/// all their sizes where the total is limited, reports what its decisions
/// amount to, and has removed all that it reports, unless it was a dry run.
pub proof fn complete_run_removes_what_it_reports(
    build_root: Seq<u8>,
    target_root: Seq<u8>,
    cutoff: Option<u64>,
    max_size: Option<u64>,
    dry_run: bool,
    seen: Seq<ObservationModel>,
    report: ReportModel,
)
    requires
        answers(start(build_root, target_root, cutoff, max_size, dry_run), seen),
        run(start(build_root, target_root, cutoff, max_size, dry_run), seen).request
            == RequestModel::Finished(report),
    ensures
        ({
            let r = run(start(build_root, target_root, cutoff, max_size, dry_run), seen);
            let l = r.state.ledger;
            &&& l.cutoff == cutoff
            &&& l.max_size == max_size
            &&& ranked(l.outputs, |a: StoredModel, b: StoredModel| used_le(a, b))
            &&& max_size is Some ==> all_sized(l.outputs)
            &&& report == report_of(l, r.state.stale)
            &&& carried_out(r.state, r.effects, report.removed)
            &&& max_size matches Some(limit) ==> retained_at(l, l.outputs.len() as int) <= limit
        }),
{
    let m = start(build_root, target_root, cutoff, max_size, dry_run);
    let r = run(m, seen);
    let l = r.state.ledger;
    lemma_run_holds(m, seen);
    if max_size is Some {
        size_limit_is_met(l, max_size->0);
    }
    let first = removed_before(l, l.outputs.len() as int);
    if !dry_run {
        assert forall|k: int| 0 <= k < report.removed.len() implies removes(
            r.effects,
            #[trigger] report.removed[k],
        ) by {
            if k < first.len() {
                assert(removes(r.effects, first[k]));
            } else {
                assert(removes(r.effects, r.state.stale[k - first.len()]));
            }
        }
    }
}

/// The outputs before `i` that are to be removed have known sizes.
spec fn doomed_sized(l: Ledger, i: int) -> bool {
    forall|k: int|
        0 <= k < i && #[trigger] doomed_at(l, k) ==> l.outputs[k].record.size is Some
}

/// As far as a run has decided, the sizes of what it removes are known.
spec fn sized_so_far(s: StepModel) -> bool {
    let l = s.state.ledger;
    let n = l.outputs.len() as int;
    match s.state.stage {
        StageModel::Measuring(i) => {
            &&& 0 <= i < n
            &&& l.max_size is Some
            &&& forall|k: int| 0 <= k < i ==> (#[trigger] l.outputs[k]).record.size is Some
        },
        StageModel::Deciding(i) => {
            &&& 0 <= i < n
            &&& l.max_size is None
            &&& doomed_sized(l, i)
        },
        StageModel::ListingRecords => doomed_sized(l, n),
        StageModel::Records(_) => doomed_sized(l, n),
        StageModel::Ended => s.request is Finished ==> doomed_sized(l, n),
        _ => true,
    }
}

proof fn lemma_passed_are_sized(l: Ledger, i: int)
    requires
        0 <= i <= l.outputs.len(),
        doomed_sized(l, i),
    ensures
        i <= next_unsized_doomed(l, i) <= l.outputs.len(),
        doomed_sized(l, next_unsized_doomed(l, i)),
    decreases l.outputs.len() - i,
{
    if !(i >= l.outputs.len() || (doomed_at(l, i) && l.outputs[i].record.size is None)) {
        lemma_passed_are_sized(l, i + 1);
    }
}

proof fn lemma_decide_sized(m: CleanModel, i: int)
    requires
        0 <= i <= m.ledger.outputs.len(),
        doomed_sized(m.ledger, i),
        m.ledger.max_size is Some ==> all_sized(m.ledger.outputs),
    ensures
        sized_so_far(decide_on(m, i)),
{
    lemma_passed_are_sized(m.ledger, i);
    lemma_next_unsized_doomed(m.ledger, i);
}

proof fn lemma_measure_sized(m: CleanModel, i: int)
    requires
        0 <= i <= m.ledger.outputs.len(),
        m.ledger.max_size is Some,
        forall|k: int| 0 <= k < i ==> (#[trigger] m.ledger.outputs[k]).record.size is Some,
    ensures
        sized_so_far(measure_on(m, i)),
{
    lemma_next_unsized(m.ledger.outputs, i);
    if next_unsized(m.ledger.outputs, i) >= m.ledger.outputs.len() {
        lemma_decide_sized(m, 0);
    }
}

proof fn lemma_read_sized(m: CleanModel, files: Seq<Seq<u8>>)
    ensures
        sized_so_far(read_on(m, files)),
{
    if files.len() == 0 {
        let sorted = with_outputs(
            m,
            stable_sort(m.ledger.outputs, |a: StoredModel, b: StoredModel| used_le(a, b)),
        );
        if m.ledger.max_size is Some {
            lemma_measure_sized(sorted, 0);
        } else {
            lemma_decide_sized(sorted, 0);
        }
    }
}

proof fn lemma_sized(m: CleanModel, seen: Seq<ObservationModel>)
    requires
        m.stage == StageModel::Listing,
        answers(m, seen),
    ensures
        sized_so_far(run(m, seen)),
    decreases seen.len(),
{
    if seen.len() > 0 {
        let init = seen.drop_last();
        let before = run(m, init);
        lemma_sized(m, init);
        let at = before.state;
        match (at.stage, seen.last()) {
            (StageModel::Listing, ObservationModel::Files(files)) => {
                lemma_read_sized(at, files);
            },
            (StageModel::Reading(files), ObservationModel::Record(record)) => {
                let rest = files.skip(1);
                match admission(at.build_root, at.target_root, files[0], record) {
                    Admission::Discard => {
                        lemma_read_sized(at, rest);
                    },
                    Admission::Refuse(_) => {},
                    Admission::Keep(output) => {
                        lemma_read_sized(with_outputs(at, at.ledger.outputs.push(output)), rest);
                    },
                }
            },
            (StageModel::Measuring(i), ObservationModel::Sizes(sizes)) => {
                let next = with_outputs(at, measured(at.ledger.outputs, i, capped(sum(sizes))));
                lemma_measure_sized(next, i);
            },
            (StageModel::Deciding(i), ObservationModel::Sizes(sizes)) => {
                let size = capped(sum(sizes));
                let next = with_outputs(at, measured(at.ledger.outputs, i, size));
                assert forall|k: int|
                    0 <= k < i && #[trigger] doomed_at(next.ledger, k) implies next.ledger.outputs[k].record.size is Some by {
                    lemma_measured_prefix(at.ledger, i, size, k);
                    assert(doomed_at(at.ledger, k));
                }
                lemma_decide_sized(next, i);
            },
            _ => {},
        }
    }
}

/// What was removed and what was kept make up all sizes.
pub proof fn removed_and_kept_make_the_whole(l: Ledger, i: int)
    requires
        0 <= i <= l.outputs.len(),
    ensures
        sum(removed_sizes(l, i)) + sum(kept_sizes(l, i)) == sum(sizes_of(l.outputs).take(i)),
    decreases i,
{
    let sizes = sizes_of(l.outputs);
    if i > 0 {
        removed_and_kept_make_the_whole(l, i - 1);
        assert(sizes.take(i).drop_last() =~= sizes.take(i - 1));
        assert(sizes.take(i).last() == size_of(l.outputs[i - 1]));
        let gone = removed_sizes(l, i - 1);
        let kept = kept_sizes(l, i - 1);
        let size = size_of(l.outputs[i - 1]);
        assert(gone.push(size).drop_last() =~= gone);
        assert(kept.push(size).drop_last() =~= kept);
    } else {
        assert(sizes.take(0) =~= Seq::empty());
    }
}

/// A complete run knows the sizes of all outputs that it removes, and reports
/// their total: what all outputs have, without what those have that are kept.
pub proof fn removed_bytes_are_those_of_removed_outputs(
    build_root: Seq<u8>,
    target_root: Seq<u8>,
    cutoff: Option<u64>,
    max_size: Option<u64>,
    dry_run: bool,
    seen: Seq<ObservationModel>,
    report: ReportModel,
)
    requires
        answers(start(build_root, target_root, cutoff, max_size, dry_run), seen),
        run(start(build_root, target_root, cutoff, max_size, dry_run), seen).request
            == RequestModel::Finished(report),
    ensures
        ({
            let l = run(
                start(build_root, target_root, cutoff, max_size, dry_run),
                seen,
            ).state.ledger;
            let n = l.outputs.len() as int;
            &&& forall|k: int|
                0 <= k < n && #[trigger] doomed_at(l, k) ==> l.outputs[k].record.size is Some
            &&& report.removed_bytes == capped(
                (sum(sizes_of(l.outputs)) - sum(kept_sizes(l, n))) as nat,
            )
        }),
{
    let m = start(build_root, target_root, cutoff, max_size, dry_run);
    let l = run(m, seen).state.ledger;
    let n = l.outputs.len() as int;
    lemma_sized(m, seen);
    complete_run_removes_what_it_reports(
        build_root,
        target_root,
        cutoff,
        max_size,
        dry_run,
        seen,
        report,
    );
    lemma_run_ends(m, seen);
    removed_and_kept_make_the_whole(l, n);
    assert(sizes_of(l.outputs).take(n) =~= sizes_of(l.outputs));
}

proof fn lemma_run_ends(m: CleanModel, seen: Seq<ObservationModel>)
    requires
        m.stage == StageModel::Listing,
        answers(m, seen),
        run(m, seen).request is Finished,
    ensures
        run(m, seen).state.stage == StageModel::Ended,
{
    let before = run(m, seen.drop_last());
    let at = before.state;
    match (at.stage, seen.last()) {
        (StageModel::Reading(files), ObservationModel::Record(record)) => {
            match admission(at.build_root, at.target_root, files[0], record) {
                _ => {},
            }
        },
        _ => {},
    }
}

/// The size that is measured of an output is the total of the sizes of its paths,
/// or the largest number there is. Nothing else of it changes but that its record
/// is to be written, and no other output changes.
pub proof fn measured_size_is_the_total(m: CleanModel, i: int, sizes: Seq<u64>)
    requires
        m.stage == StageModel::Measuring(i) || m.stage == StageModel::Deciding(i),
        0 <= i < m.ledger.outputs.len(),
    ensures
        ({
            let before = m.ledger.outputs;
            let after = step(m, ObservationModel::Sizes(sizes)).state.ledger.outputs;
            &&& after.len() == before.len()
            &&& after[i].record.size == Some(
                if sum(sizes) <= u64::MAX {
                    sum(sizes) as u64
                } else {
                    u64::MAX
                },
            )
            &&& after[i].changed
            &&& after[i].path == before[i].path
            &&& after[i].owned == before[i].owned
            &&& after[i].record.last_used == before[i].record.last_used
            &&& after[i].record.paths == before[i].record.paths
            &&& after[i].record.unit_dir == before[i].record.unit_dir
            &&& forall|k: int| 0 <= k < before.len() && k != i ==> after[k] == #[trigger] before[k]
        }),
{
}

/// A complete run has decided the outputs by when they were last used, and those
/// that were last used at one time by the paths of their records. Where the total
/// is limited, it knew all sizes.
pub proof fn outputs_are_decided_by_age_and_path(
    build_root: Seq<u8>,
    target_root: Seq<u8>,
    cutoff: Option<u64>,
    max_size: Option<u64>,
    dry_run: bool,
    seen: Seq<ObservationModel>,
    i: int,
    j: int,
)
    requires
        ({
            let m = start(build_root, target_root, cutoff, max_size, dry_run);
            &&& answers(m, seen)
            &&& run(m, seen).request is Finished
            &&& 0 <= i < j < run(m, seen).state.ledger.outputs.len()
        }),
    ensures
        ({
            let outputs = run(
                start(build_root, target_root, cutoff, max_size, dry_run),
                seen,
            ).state.ledger.outputs;
            &&& outputs[i].record.last_used <= outputs[j].record.last_used
            &&& outputs[i].record.last_used == outputs[j].record.last_used ==> path_le(
                outputs[i].path,
                outputs[j].path,
            )
            &&& max_size is Some ==> outputs[i].record.size is Some
                && outputs[j].record.size is Some
        }),
{
    let r = run(start(build_root, target_root, cutoff, max_size, dry_run), seen);
    let outputs = r.state.ledger.outputs;
    complete_run_removes_what_it_reports(
        build_root,
        target_root,
        cutoff,
        max_size,
        dry_run,
        seen,
        r.request->Finished_0,
    );
    let le = |a: StoredModel, b: StoredModel| used_le(a, b);
    assert(le(outputs[i], outputs[j]));
}

} // verus!
