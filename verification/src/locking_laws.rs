//! What locks are taken, and how, told by files and modes alone.

use vstd::prelude::*;

use crate::hasher::path_stream_ignores_spelling;
use crate::locking::{
    answer, asked, dependency_lock, each_publication_lock, lease_of, lock_requests, lock_steps,
    own_locks_are_exclusive, pool_position, publication_lock, publication_locks, publication_stream,
    released, settled, with_entry, AcquireStep, DependencyArtifact, LockMode, LockSetModel,
    SharedLockState,
};
use crate::order::sorted_set_is_strictly_ranked;
use crate::path::{
    components, lemma_strip_prefix, path_le, path_le_is_total_preorder, path_order, same_path,
    strip_prefix,
};
use crate::sorted_map::{keys_ranked, maps_to};

verus! {

/// The locks that a job takes: its own two exclusively, where it does not take
/// all of them shared, and each other one shared. Such a one is the full lock of
/// a dependency whose object code it needs, or the metadata lock of one whose
/// metadata it needs.
pub proof fn job_takes_its_own_locks_and_those_it_needs(
    own: (Seq<u8>, Seq<u8>),
    dependencies: Seq<((Seq<u8>, Seq<u8>), DependencyArtifact)>,
    requested_modes: bool,
    i: int,
)
    requires
        0 <= i < lock_steps(lock_requests(own, dependencies), requested_modes).len(),
    ensures
        ({
            let (file, exclusive) = lock_steps(lock_requests(own, dependencies), requested_modes)[i];
            if components(file) == components(own.0) || components(file) == components(own.1) {
                exclusive == requested_modes
            } else {
                !exclusive && exists|k: int|
                    0 <= k < dependencies.len() && components(file) == components(
                        match (#[trigger] dependencies[k]).1 {
                            DependencyArtifact::All => dependencies[k].0.0,
                            DependencyArtifact::Metadata => dependencies[k].0.1,
                        },
                    )
            }
        }),
{
    let requests = lock_requests(own, dependencies);
    let file = requests[i].0;
    let mode = requests[i].1;
    own_locks_are_exclusive(own, dependencies, file);
    path_le_is_total_preorder();
    let le = path_order();
    assert((path_le(file, file) && path_le(file, file)) <==> same_path(file, file));
    assert(le(requests[i].0, file) && le(file, requests[i].0));
    assert(maps_to(requests, file, mode, le));
    if !(same_path(file, own.0) || same_path(file, own.1)) {
        let k = choose|k: int|
            0 <= k < dependencies.len() && same_path(
                dependency_lock(#[trigger] dependencies[k]),
                file,
            );
        assert(components(file) == components(dependency_lock(dependencies[k])));
    }
}

/// A job takes both its own locks, and of each dependency the full lock where it
/// needs its object code, and else the metadata lock.
pub proof fn job_misses_no_lock(
    own: (Seq<u8>, Seq<u8>),
    dependencies: Seq<((Seq<u8>, Seq<u8>), DependencyArtifact)>,
    requested_modes: bool,
    file: Seq<u8>,
)
    requires
        file == own.0 || file == own.1 || exists|k: int|
            0 <= k < dependencies.len() && file == match (#[trigger] dependencies[k]).1 {
                DependencyArtifact::All => dependencies[k].0.0,
                DependencyArtifact::Metadata => dependencies[k].0.1,
            },
    ensures
        ({
            let steps = lock_steps(lock_requests(own, dependencies), requested_modes);
            exists|i: int|
                0 <= i < steps.len() && components((#[trigger] steps[i]).0) == components(file)
        }),
{
    let requests = lock_requests(own, dependencies);
    let steps = lock_steps(requests, requested_modes);
    own_locks_are_exclusive(own, dependencies, file);
    path_le_is_total_preorder();
    let le = path_order();
    let mode = if same_path(file, own.0) || same_path(file, own.1) {
        LockMode::Exclusive
    } else {
        LockMode::Shared
    };
    if mode == LockMode::Shared {
        let k = choose|k: int|
            0 <= k < dependencies.len() && file == match (#[trigger] dependencies[k]).1 {
                DependencyArtifact::All => dependencies[k].0.0,
                DependencyArtifact::Metadata => dependencies[k].0.1,
            };
        assert(same_path(dependency_lock(dependencies[k]), file));
    }
    assert(maps_to(requests, file, mode, le));
    let i = choose|i: int|
        0 <= i < requests.len() && le(#[trigger] requests[i].0, file) && le(file, requests[i].0)
            && requests[i].1 == mode;
    assert((path_le(requests[i].0, file) && path_le(file, requests[i].0)) <==> same_path(
        requests[i].0,
        file,
    ));
    assert(steps[i].0 == requests[i].0);
}

/// A job takes no lock twice, and takes locks in the order of their files, so that
/// two jobs never wait for each other.
pub proof fn job_takes_locks_in_order(
    own: (Seq<u8>, Seq<u8>),
    dependencies: Seq<((Seq<u8>, Seq<u8>), DependencyArtifact)>,
    requested_modes: bool,
    i: int,
    j: int,
)
    requires
        0 <= i < j < lock_steps(lock_requests(own, dependencies), requested_modes).len(),
    ensures
        ({
            let steps = lock_steps(lock_requests(own, dependencies), requested_modes);
            &&& path_le(steps[i].0, steps[j].0)
            &&& components(steps[i].0) != components(steps[j].0)
        }),
{
    let requests = lock_requests(own, dependencies);
    own_locks_are_exclusive(own, dependencies, own.0);
    path_le_is_total_preorder();
    let le = path_order();
    assert(keys_ranked(requests, le));
    assert(le(requests[i].0, requests[j].0) && !le(requests[j].0, requests[i].0));
    assert((path_le(requests[i].0, requests[j].0) && path_le(requests[j].0, requests[i].0))
        <==> same_path(requests[i].0, requests[j].0));
}

/// How one lock is shared. A lock that nobody holds is locked by the job that asks
/// first, and others wait until it has reported how that went. One that is held
/// is granted at once. What one job is granted, its release gives back, and the
/// last release leaves the lock as nobody's.
pub proof fn lock_is_shared_from_the_first_job_to_the_last(s: SharedLockState, n: usize)
    requires
        0 < n < usize::MAX,
    ensures
        answer(SharedLockState::Vacant) == AcquireStep::Lock,
        asked(SharedLockState::Vacant) == SharedLockState::Acquiring,
        answer(SharedLockState::Acquiring) == AcquireStep::Wait,
        asked(SharedLockState::Acquiring) == SharedLockState::Acquiring,
        settled(true) == (SharedLockState::Held { leases: 1 }),
        settled(false) == SharedLockState::Vacant,
        answer(SharedLockState::Held { leases: n }) == AcquireStep::Granted,
        asked(SharedLockState::Held { leases: n }) matches SharedLockState::Held { leases }
            && leases == n + 1,
        released(asked(SharedLockState::Held { leases: n })) == (SharedLockState::Held {
            leases: n,
        }),
        released(SharedLockState::Held { leases: 1 }) == SharedLockState::Vacant,
        answer(s) == AcquireStep::Granted <==> s is Held,
{
}

/// A file has one place in the pool, however its path is spelled: the first entry
/// for it, and else a new one at the end, which nobody holds. Asking for it
/// changes no other entry.
pub proof fn file_has_one_place_in_the_pool(
    pool: Seq<(Seq<u8>, SharedLockState)>,
    file: Seq<u8>,
    k: int,
)
    ensures
        ({
            let after = with_entry(pool, file);
            let known = exists|i: int|
                0 <= i < pool.len() && components((#[trigger] pool[i]).0) == components(file);
            &&& after.len() == if known {
                pool.len()
            } else {
                pool.len() + 1
            }
            &&& 0 <= k < pool.len() ==> after[k] == pool[k]
            &&& pool_position(after, file) matches Some(i) && {
                &&& 0 <= i < after.len()
                &&& components(after[i].0) == components(file)
                &&& !known ==> i == pool.len() && after[i].1 == SharedLockState::Vacant
                &&& 0 <= k < i ==> components(after[k].0) != components(file)
            }
        }),
{
    let after = with_entry(pool, file);
    lemma_pool_position(pool, file);
    lemma_pool_position(after, file);
    if pool_position(pool, file) is None {
        assert(after[pool.len() as int].0 == file);
        let i = pool_position(after, file)->0;
        if i < pool.len() {
            assert(after[i] == pool[i]);
        }
    }
}

proof fn lemma_pool_position(pool: Seq<(Seq<u8>, SharedLockState)>, file: Seq<u8>)
    ensures
        pool_position(pool, file) is None ==> forall|i: int|
            0 <= i < pool.len() ==> components((#[trigger] pool[i]).0) != components(file),
        pool_position(pool, file) matches Some(i) ==> 0 <= i < pool.len() && components(pool[i].0)
            == components(file) && forall|j: int|
            0 <= j < i ==> components((#[trigger] pool[j]).0) != components(file),
    decreases pool.len(),
{
    if pool.len() > 0 {
        let init = pool.drop_last();
        lemma_pool_position(init, file);
        assert forall|j: int| 0 <= j < init.len() implies init[j] == #[trigger] pool[j] by {}
        if pool_position(init, file) is Some {
            let i = pool_position(init, file)->0;
            assert(pool[i] == init[i]);
            assert forall|j: int| 0 <= j < i implies components((#[trigger] pool[j]).0)
                != components(file) by {
                assert(components(init[j].0) != components(file));
            }
        } else {
            assert forall|j: int| 0 <= j < init.len() implies components((#[trigger] pool[j]).0)
                != components(file) by {
                assert(components(init[j].0) != components(file));
            }
        }
    }
}

/// Each destination has its lock among those taken for publishing, and no lock is
/// taken for anything else.
pub proof fn destinations_are_locked_and_no_more(
    target_root: Seq<u8>,
    destinations: Seq<Seq<u8>>,
    k: int,
)
    requires
        0 <= k < publication_locks(target_root, destinations).len(),
    ensures
        exists|i: int|
            0 <= i < destinations.len() && publication_locks(target_root, destinations)[k]
                == publication_lock(target_root, #[trigger] destinations[i]),
{
    path_le_is_total_preorder();
    let each = each_publication_lock(target_root, destinations);
    let locks = publication_locks(target_root, destinations);
    sorted_set_is_strictly_ranked(each, path_order());
    assert(locks.contains(locks[k]));
    assert(each.contains(locks[k]));
    let i = choose|i: int| 0 <= i < each.len() && each[i] == locks[k];
    assert(publication_lock(target_root, destinations[i]) == locks[k]);
}

/// A destination in the target directory is locked by its place in it, however its
/// path is spelled and wherever the directory is. One elsewhere is locked by its
/// own path, and what is hashed for it differs from what is hashed for any place
/// in the directory.
pub proof fn destination_is_locked_by_its_place(
    a: Seq<u8>,
    b: Seq<u8>,
    p: Seq<u8>,
    q: Seq<u8>,
)
    ensures
        components(a).is_prefix_of(components(p)) && components(b).is_prefix_of(components(q))
            && components(p).skip(components(a).len() as int) == components(q).skip(
            components(b).len() as int,
        ) && components(a).len() > 0 && components(b).len() > 0 ==> publication_stream(a, p)
            == publication_stream(b, q),
        !components(a).is_prefix_of(components(p)) && components(p) == components(q)
            ==> publication_stream(a, p) == publication_stream(a, q),
        components(a).is_prefix_of(components(p)) && !components(b).is_prefix_of(components(q))
            ==> publication_stream(a, p) != publication_stream(b, q),
{
    if components(a).is_prefix_of(components(p)) && components(b).is_prefix_of(components(q))
        && components(p).skip(components(a).len() as int) == components(q).skip(
        components(b).len() as int,
    ) {
        lemma_strip_prefix(p, a);
        lemma_strip_prefix(q, b);
        path_stream_ignores_spelling(strip_prefix(p, a)->0, strip_prefix(q, b)->0);
    }
    if !components(a).is_prefix_of(components(p)) && components(p) == components(q) {
        path_stream_ignores_spelling(p, q);
    }
    if components(a).is_prefix_of(components(p)) && !components(b).is_prefix_of(components(q)) {
        assert(publication_stream(a, p)[0] == 1);
        assert(publication_stream(b, q)[0] == 0);
    }
}

/// A job that takes its own locks exclusively has both to give up, and one that
/// takes them shared has none. Both know which ones they are.
pub proof fn lease_gives_up_what_was_taken_exclusively(s: LockSetModel, requested_modes: bool)
    ensures
        ({
            let lease = lease_of(s, requested_modes);
            &&& lease.own_full == s.own_full
            &&& lease.own_metadata == s.own_metadata
            &&& lease.full_downgraded <==> !requested_modes
            &&& lease.metadata_downgraded <==> !requested_modes
        }),
{
}

} // verus!
