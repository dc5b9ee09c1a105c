//! What runs that remove outputs by their age alone do with each record.

use vstd::prelude::*;

use crate::clean::{less, records_root, EffectModel, LastUsedRecord};
use crate::outputs::OwnershipFault;
use crate::outputs_v1::{
    first_beyond, first_beyond_decides, step, within, ExpiryModel, ObservationModel, RecordModel,
    RequestModel, StageModel,
};
use crate::path::{components, starts_with};

verus! {

/// An output record that cannot be read or has another version than the first is
/// removed and not reported. One that was used behind the cutoff is left alone.
pub proof fn useless_record_goes_and_used_one_stays(
    m: ExpiryModel,
    files: Seq<Seq<u8>>,
    record: Option<RecordModel>,
)
    requires
        m.stage == StageModel::Reading(files),
        files.len() > 0,
        record matches Some(read) ==> read.version != 1 || read.last_used > m.cutoff,
    ensures
        ({
            let s = step(m, ObservationModel::Record(record));
            &&& s.effects == if !m.dry_run && (record matches Some(read) ==> read.version != 1) {
                seq![EffectModel::RemoveFile(files[0])]
            } else {
                Seq::empty()
            }
            &&& s.state.removed == m.removed
            &&& s.request == if files.len() > 1 {
                RequestModel::ReadOutput(files[1])
            } else {
                RequestModel::List(records_root(m.build_root))
            }
        }),
{
}

/// An output that was not used since the cutoff is removed with its record, and
/// both are reported, where each of its paths is absolute and lies in the build
/// directory or the target directory. Else nothing is removed, and the run ends
/// with the first path that does not.
pub proof fn expired_output_goes_with_its_record(
    m: ExpiryModel,
    files: Seq<Seq<u8>>,
    record: RecordModel,
)
    requires
        m.stage == StageModel::Reading(files),
        files.len() > 0,
        record.version == 1,
        record.last_used <= m.cutoff,
    ensures
        ({
            let s = step(m, ObservationModel::Record(Some(record)));
            let own = |p: Seq<u8>|
                p.len() > 0 && p[0] == 47 && (components(m.build_root).is_prefix_of(components(p))
                    || components(m.target_root).is_prefix_of(components(p)));
            if (forall|i: int| 0 <= i < record.paths.len() ==> own(#[trigger] record.paths[i])) {
                &&& s.state.removed == m.removed + record.paths + seq![files[0]]
                &&& m.dry_run ==> s.effects.len() == 0
                &&& !m.dry_run ==> s.effects.len() == record.paths.len() + 1 && s.effects.last()
                    == EffectModel::RemoveFile(files[0]) && forall|i: int|
                    0 <= i < record.paths.len() ==> #[trigger] s.effects[i]
                        == EffectModel::RemovePath(record.paths[i])
                &&& s.request == if files.len() > 1 {
                    RequestModel::ReadOutput(files[1])
                } else {
                    RequestModel::List(records_root(m.build_root))
                }
            } else {
                &&& s.effects.len() == 0
                &&& exists|i: int|
                    0 <= i < record.paths.len() && !own(#[trigger] record.paths[i]) && (forall|
                        j: int,
                    |
                        0 <= j < i ==> own(#[trigger] record.paths[j])) && s.request
                        == RequestModel::Refused(OwnershipFault::Outside(record.paths[i]))
            }
        }),
{
    let roots = seq![m.build_root, m.target_root];
    assert(roots[0] == m.build_root && roots[1] == m.target_root);
    let own = |p: Seq<u8>|
        p.len() > 0 && p[0] == 47 && (components(m.build_root).is_prefix_of(components(p))
            || components(m.target_root).is_prefix_of(components(p)));
    assert forall|p: Seq<u8>| #[trigger] within(p, roots) <==> own(p) by {
        if components(m.build_root).is_prefix_of(components(p)) {
            assert(starts_with(p, roots[0]));
        }
        if components(m.target_root).is_prefix_of(components(p)) {
            assert(starts_with(p, roots[1]));
        }
    }
    first_beyond_decides(record.paths, roots);
    lemma_first_beyond(record.paths, roots);
    let s = step(m, ObservationModel::Record(Some(record)));
    if first_beyond(record.paths, roots) is None {
        assert forall|i: int| 0 <= i < record.paths.len() implies own(#[trigger] record.paths[i]) by {
            assert(within(record.paths[i], roots));
        }
    } else {
        let p = first_beyond(record.paths, roots)->0;
        let i = choose|i: int|
            0 <= i < record.paths.len() && #[trigger] record.paths[i] == p && !within(p, roots)
                && forall|j: int| 0 <= j < i ==> within(#[trigger] record.paths[j], roots);
        assert(!own(record.paths[i]));
        assert forall|j: int| 0 <= j < i implies own(#[trigger] record.paths[j]) by {
            assert(within(record.paths[j], roots));
        }
    }
}

proof fn lemma_first_beyond(paths: Seq<Seq<u8>>, roots: Seq<Seq<u8>>)
    ensures
        first_beyond(paths, roots) matches Some(p) ==> exists|i: int|
            0 <= i < paths.len() && #[trigger] paths[i] == p && !within(p, roots) && forall|j: int|
                0 <= j < i ==> within(#[trigger] paths[j], roots),
    decreases paths.len(),
{
    if paths.len() > 0 {
        let init = paths.drop_last();
        lemma_first_beyond(init, roots);
        first_beyond_decides(init, roots);
        assert forall|j: int| 0 <= j < init.len() implies init[j] == #[trigger] paths[j] by {}
        if first_beyond(init, roots) is Some {
            let p = first_beyond(init, roots)->0;
            let i = choose|i: int|
                0 <= i < init.len() && #[trigger] init[i] == p && !within(p, roots) && forall|j: int|
                    0 <= j < i ==> within(#[trigger] init[j], roots);
            assert(paths[i] == p);
            assert forall|j: int| 0 <= j < i implies within(#[trigger] paths[j], roots) by {
                assert(within(init[j], roots));
            }
        } else {
            assert forall|j: int| 0 <= j < init.len() implies within(#[trigger] paths[j], roots) by {
                assert(within(init[j], roots));
            }
            assert(paths[paths.len() - 1] == paths.last());
        }
    }
}

/// A variant record is removed and reported where it cannot be read, has another
/// version than the first or was not used since the cutoff, and else left alone.
/// Behind the last one, the run reports all that it has removed.
pub proof fn variant_record_goes_with_its_age(
    m: ExpiryModel,
    files: Seq<Seq<u8>>,
    record: Option<LastUsedRecord>,
)
    requires
        m.stage == StageModel::Records(files),
        files.len() > 0,
    ensures
        ({
            let s = step(m, ObservationModel::LastUsed(record));
            let goes = record matches Some(read) ==> read.version != 1 || read.last_used
                <= m.cutoff;
            &&& s.state.removed == if goes {
                m.removed.push(files[0])
            } else {
                m.removed
            }
            &&& s.effects == if goes && !m.dry_run {
                seq![EffectModel::RemoveFile(files[0])]
            } else {
                Seq::empty()
            }
            &&& s.request == if files.len() > 1 {
                RequestModel::ReadLastUsed(files[1])
            } else {
                RequestModel::Finished(s.state.removed)
            }
        }),
{
}

/// Of a time and an age, the cutoff lies that age before the time, and at the
/// beginning of time where there is not so much.
pub proof fn cutoff_lies_the_age_before(now: u64, age: u64)
    ensures
        age <= now ==> less(now, age) + age == now,
        age > now ==> less(now, age) == 0,
{
}

} // verus!
