//! Build-unit locking for builds that run at the same time.
//!
//! The library decides which locks are taken, in which order and how they are
//! shared; its caller opens and locks the files.

use vstd::prelude::*;
use vstd::utf8::encode_utf8;

use crate::hasher::{bool_stream, path_stream, short_hash, short_hash_of, StableHasher};
use crate::order::{
    rank, sort_unique, sorted_set, sorted_set_is_strictly_ranked, strictly_ranked, views,
};
use crate::path::{join, path_le, path_le_is_total_preorder, path_order, same_path, strip_prefix};
use crate::path_buf::{append_bytes, copy_bytes, PathBuf};
use crate::path_set::copy_paths;
use crate::sorted_map::{keys_ranked, last_value, maps_to, put, put_all, put_all_keeps_last};

verus! {

/// How a lock is held.
#[derive(Clone, Copy, Debug, PartialEq, Eq, Structural)]
pub enum LockMode {
    Shared,
    Exclusive,
}

impl View for LockMode {
    type V = LockMode;

    open spec fn view(&self) -> LockMode {
        *self
    }
}

/// What of a dependency is needed.
#[derive(Clone, Copy, Debug, PartialEq, Eq, Structural)]
pub enum DependencyArtifact {
    /// Its object code.
    All,
    /// Its metadata, for pipelining.
    Metadata,
}

/// The lock files of a unit.
#[derive(Debug)]
pub struct UnitLocks {
    pub full: PathBuf,
    pub metadata: PathBuf,
}

impl View for UnitLocks {
    type V = (Seq<u8>, Seq<u8>);

    open spec fn view(&self) -> (Seq<u8>, Seq<u8>) {
        (self.full@, self.metadata@)
    }
}

/// A unit that a job depends on, and what of it is needed.
#[derive(Debug)]
pub struct JobDependency {
    pub locks: UnitLocks,
    pub artifact: DependencyArtifact,
}

impl View for JobDependency {
    type V = ((Seq<u8>, Seq<u8>), DependencyArtifact);

    open spec fn view(&self) -> ((Seq<u8>, Seq<u8>), DependencyArtifact) {
        (self.locks@, self.artifact)
    }
}

/// The lock that a dependency needs: of its metadata where only that is needed,
/// and of the full unit otherwise.
pub open spec fn dependency_lock(d: ((Seq<u8>, Seq<u8>), DependencyArtifact)) -> Seq<u8> {
    match d.1 {
        DependencyArtifact::All => d.0.0,
        DependencyArtifact::Metadata => d.0.1,
    }
}

/// The shared locks of a job.
pub open spec fn shared_requests(
    dependencies: Seq<((Seq<u8>, Seq<u8>), DependencyArtifact)>,
) -> Seq<(Seq<u8>, LockMode)> {
    Seq::new(
        dependencies.len(),
        |i: int| (dependency_lock(dependencies[i]), LockMode::Shared),
    )
}

/// All locks of a job: those of its dependencies shared, and its own exclusive.
pub open spec fn all_requests(
    own: (Seq<u8>, Seq<u8>),
    dependencies: Seq<((Seq<u8>, Seq<u8>), DependencyArtifact)>,
) -> Seq<(Seq<u8>, LockMode)> {
    shared_requests(dependencies).push((own.0, LockMode::Exclusive)).push(
        (own.1, LockMode::Exclusive),
    )
}

/// The locks of a job in the order they are taken, each once.
pub open spec fn lock_requests(
    own: (Seq<u8>, Seq<u8>),
    dependencies: Seq<((Seq<u8>, Seq<u8>), DependencyArtifact)>,
) -> Seq<(Seq<u8>, LockMode)> {
    put_all(Seq::empty(), all_requests(own, dependencies), path_order())
}

/// A sorted set of locks owned by one queued job.
#[derive(Debug)]
pub struct UnitLockSet {
    own_full: usize,
    own_metadata: usize,
    requests: Vec<(PathBuf, LockMode)>,
}

/// A sorted set of locks owned by one queued job.
#[verifier::ext_equal]
pub struct LockSetModel {
    pub own_full: int,
    pub own_metadata: int,
    pub requests: Seq<(Seq<u8>, LockMode)>,
}

impl View for UnitLockSet {
    type V = LockSetModel;

    closed spec fn view(&self) -> LockSetModel {
        LockSetModel {
            own_full: self.own_full as int,
            own_metadata: self.own_metadata as int,
            requests: views(self.requests@),
        }
    }
}

/// Entry `i` is the exclusive lock of this file.
pub open spec fn owns(requests: Seq<(Seq<u8>, LockMode)>, i: int, file: Seq<u8>) -> bool {
    0 <= i < requests.len() && same_path(requests[i].0, file) && requests[i].1
        == LockMode::Exclusive
}

/// The locks are in order, and the job's own are exclusive.
pub open spec fn lock_set_holds(s: LockSetModel) -> bool {
    &&& keys_ranked(s.requests, path_order())
    &&& 0 <= s.own_full < s.requests.len()
    &&& 0 <= s.own_metadata < s.requests.len()
    &&& s.requests[s.own_full].1 == LockMode::Exclusive
    &&& s.requests[s.own_metadata].1 == LockMode::Exclusive
}

/// Taking a lock: the file, and whether for this job alone.
#[derive(Debug)]
pub struct LockStep {
    pub path: PathBuf,
    pub exclusive: bool,
}

impl View for LockStep {
    type V = (Seq<u8>, bool);

    open spec fn view(&self) -> (Seq<u8>, bool) {
        (self.path@, self.exclusive)
    }
}

/// The locks in the order they are taken. Where modes are not asked for, all are
/// shared.
pub open spec fn lock_steps(requests: Seq<(Seq<u8>, LockMode)>, requested_modes: bool) -> Seq<
    (Seq<u8>, bool),
> {
    Seq::new(
        requests.len(),
        |i: int| (requests[i].0, requested_modes && requests[i].1 == LockMode::Exclusive),
    )
}

/// What of its own locks a job holds for itself alone.
#[derive(Debug)]
pub struct UnitLockLease {
    own_full: usize,
    own_metadata: usize,
    full_downgraded: bool,
    metadata_downgraded: bool,
}

/// What of its own locks a job holds for itself alone.
#[verifier::ext_equal]
pub struct LeaseModel {
    pub own_full: int,
    pub own_metadata: int,
    pub full_downgraded: bool,
    pub metadata_downgraded: bool,
}

impl View for UnitLockLease {
    type V = LeaseModel;

    closed spec fn view(&self) -> LeaseModel {
        LeaseModel {
            own_full: self.own_full as int,
            own_metadata: self.own_metadata as int,
            full_downgraded: self.full_downgraded,
            metadata_downgraded: self.metadata_downgraded,
        }
    }
}

/// The locks to take, and the lease to hold once they are taken.
pub struct LockPlan {
    pub steps: Vec<LockStep>,
    pub lease: UnitLockLease,
}

/// The lease of a job that has taken its locks.
pub open spec fn lease_of(s: LockSetModel, requested_modes: bool) -> LeaseModel {
    LeaseModel {
        own_full: s.own_full,
        own_metadata: s.own_metadata,
        full_downgraded: !requested_modes,
        metadata_downgraded: !requested_modes,
    }
}

impl UnitLockSet {
    /// What holds of every set of locks.
    pub open spec fn well_formed(&self) -> bool {
        lock_set_holds(self@)
    }

    /// Takes all locks shared.
    pub fn acquire_shared(&self) -> (r: LockPlan)
        ensures
            views(r.steps@) == lock_steps(self@.requests, false),
            r.lease@ == lease_of(self@, false),
    {
        self.acquire_with(false)
    }

    /// Takes all locks as they are needed.
    pub fn acquire(&self) -> (r: LockPlan)
        ensures
            views(r.steps@) == lock_steps(self@.requests, true),
            r.lease@ == lease_of(self@, true),
    {
        self.acquire_with(true)
    }

    fn acquire_with(&self, requested_modes: bool) -> (r: LockPlan)
        ensures
            views(r.steps@) == lock_steps(self@.requests, requested_modes),
            r.lease@ == lease_of(self@, requested_modes),
    {
        let mut steps: Vec<LockStep> = Vec::new();
        let mut i: usize = 0;
        while i < self.requests.len()
            invariant
                i <= self.requests@.len(),
                steps@.len() == i,
                forall|k: int|
                    0 <= k < i ==> (#[trigger] steps@[k])@ == lock_steps(
                        self@.requests,
                        requested_modes,
                    )[k],
            decreases self.requests@.len() - i,
        {
            let exclusive: bool = requested_modes && self.requests[i].1 == LockMode::Exclusive;
            steps.push(LockStep { path: self.requests[i].0.clone(), exclusive });
            i = i + 1;
        }
        assert(views(steps@) =~= lock_steps(self@.requests, requested_modes));
        LockPlan {
            steps,
            lease: UnitLockLease {
                own_full: self.own_full,
                own_metadata: self.own_metadata,
                full_downgraded: !requested_modes,
                metadata_downgraded: !requested_modes,
            },
        }
    }
}

impl UnitLockLease {
    /// The metadata is there: gives the lock to turn into a shared one, once, so
    /// that pipelined dependents can go on while object code is being made.
    pub fn metadata_produced(&mut self) -> (r: Option<usize>)
        ensures
            r is Some <==> !old(self)@.metadata_downgraded,
            r matches Some(i) ==> i == old(self)@.own_metadata,
            final(self)@ == (LeaseModel { metadata_downgraded: true, ..old(self)@ }),
    {
        if self.metadata_downgraded {
            None
        } else {
            self.metadata_downgraded = true;
            Some(self.own_metadata)
        }
    }

    /// The next of the job's own locks to turn into a shared one before a fresh
    /// artifact is used: the metadata lock first, and then the full one.
    pub fn downgrade_own(&mut self) -> (r: Option<usize>)
        ensures
            r is Some <==> !(old(self)@.metadata_downgraded && old(self)@.full_downgraded),
            r matches Some(i) ==> i == if old(self)@.metadata_downgraded {
                old(self)@.own_full
            } else {
                old(self)@.own_metadata
            },
            final(self)@ == (LeaseModel {
                metadata_downgraded: true,
                full_downgraded: old(self)@.metadata_downgraded || old(self)@.full_downgraded,
                ..old(self)@
            }),
    {
        if !self.metadata_downgraded {
            self.metadata_produced()
        } else if !self.full_downgraded {
            self.full_downgraded = true;
            Some(self.own_full)
        } else {
            None
        }
    }
}

/// Where a file's lock stands among the requests.
fn find_request(requests: &Vec<(PathBuf, LockMode)>, file: &PathBuf) -> (r: usize)
    requires
        exists|k: int|
            0 <= k < requests@.len() && same_path(#[trigger] views(requests@)[k].0, file@),
    ensures
        r < requests@.len(),
        same_path(views(requests@)[r as int].0, file@),
{
    let mut i: usize = 0;
    while i < requests.len()
        invariant
            i <= requests@.len(),
            exists|k: int|
                i <= k < requests@.len() && same_path(#[trigger] views(requests@)[k].0, file@),
        decreases requests@.len() - i,
    {
        if requests[i].0.is_same(file) {
            return i;
        }
        proof {
            assert(!same_path(views(requests@)[i as int].0, file@));
        }
        i = i + 1;
    }
    0
}

/// What becomes of each file that a job locks: its own are exclusive, and those
/// of its dependencies that are not its own are shared.
pub proof fn own_locks_are_exclusive(
    own: (Seq<u8>, Seq<u8>),
    dependencies: Seq<((Seq<u8>, Seq<u8>), DependencyArtifact)>,
    file: Seq<u8>,
)
    ensures
        keys_ranked(lock_requests(own, dependencies), path_order()),
        forall|mode: LockMode| #[trigger]
            maps_to(lock_requests(own, dependencies), file, mode, path_order()) <==> {
                if same_path(file, own.0) || same_path(file, own.1) {
                    mode == LockMode::Exclusive
                } else {
                    mode == LockMode::Shared && exists|k: int|
                        0 <= k < dependencies.len() && same_path(
                            dependency_lock(#[trigger] dependencies[k]),
                            file,
                        )
                }
            },
{
    path_le_is_total_preorder();
    let le = path_order();
    let all = all_requests(own, dependencies);
    put_all_keeps_last(all, le);
    let shared = shared_requests(dependencies);
    assert(all.drop_last() =~= shared.push((own.0, LockMode::Exclusive)));
    assert(all.drop_last().drop_last() =~= shared);
    reveal_with_fuel(last_value, 3);
    lemma_last_shared(dependencies, file);
    assert(le(own.1, file) && le(file, own.1) <==> same_path(own.1, file)) by {
        assert((path_le(own.1, file) && path_le(file, own.1)) <==> same_path(own.1, file));
    }
    assert(le(own.0, file) && le(file, own.0) <==> same_path(own.0, file)) by {
        assert((path_le(own.0, file) && path_le(file, own.0)) <==> same_path(own.0, file));
    }
}

proof fn lemma_last_shared(
    dependencies: Seq<((Seq<u8>, Seq<u8>), DependencyArtifact)>,
    file: Seq<u8>,
)
    ensures
        last_value(shared_requests(dependencies), file, path_order()) == if exists|k: int|
            0 <= k < dependencies.len() && same_path(
                dependency_lock(#[trigger] dependencies[k]),
                file,
            ) {
            Some(LockMode::Shared)
        } else {
            None
        },
    decreases dependencies.len(),
{
    path_le_is_total_preorder();
    let shared = shared_requests(dependencies);
    if dependencies.len() > 0 {
        let init = dependencies.drop_last();
        lemma_last_shared(init, file);
        assert(shared.drop_last() =~= shared_requests(init));
        let last = dependency_lock(dependencies.last());
        assert((path_le(last, file) && path_le(file, last)) <==> same_path(last, file));
        assert(dependencies[dependencies.len() - 1] == dependencies.last());
        if exists|k: int|
            0 <= k < init.len() && same_path(dependency_lock(#[trigger] init[k]), file) {
            let k = choose|k: int|
                0 <= k < init.len() && same_path(dependency_lock(#[trigger] init[k]), file);
            assert(dependencies[k] == init[k]);
        }
        if exists|k: int|
            0 <= k < dependencies.len() && same_path(
                dependency_lock(#[trigger] dependencies[k]),
                file,
            ) {
            let k = choose|k: int|
                0 <= k < dependencies.len() && same_path(
                    dependency_lock(#[trigger] dependencies[k]),
                    file,
                );
            if k < init.len() {
                assert(init[k] == dependencies[k]);
            }
        }
    }
}

/// Creates the locks of the jobs of a build.
#[derive(Debug)]
pub struct LockManager {
    pool: SharedLockPool,
}

impl LockManager {
    /// A manager with no lock held.
    pub fn new() -> (r: Self)
        ensures
            r.pool() == Seq::<(Seq<u8>, SharedLockState)>::empty(),
    {
        LockManager { pool: SharedLockPool::new() }
    }

    /// The shared locks of the build.
    pub closed spec fn pool(&self) -> Seq<(Seq<u8>, SharedLockState)> {
        self.pool@
    }

    /// The shared locks of the build.
    pub fn shared_locks(&mut self) -> (r: &mut SharedLockPool)
        ensures
            r@ == old(self).pool(),
            final(self).pool() == final(r)@,
    {
        &mut self.pool
    }

    /// The locks of one job. Files are opened when the job starts. A dependency
    /// needed only for pipelining gives its metadata lock, and one whose object
    /// code is needed its full lock.
    pub fn prepare(&self, own: &UnitLocks, dependencies: &Vec<JobDependency>) -> (r: UnitLockSet)
        ensures
            r.well_formed(),
            r@.requests == lock_requests(own@, views(dependencies@)),
            owns(r@.requests, r@.own_full, own.full@),
            owns(r@.requests, r@.own_metadata, own.metadata@),
    {
        let ghost le = path_order();
        assert(rank::<PathBuf>() =~= le);
        let ghost all = all_requests(own@, views(dependencies@));
        let ghost none = Seq::<(Seq<u8>, LockMode)>::empty();
        let mut requests: Vec<(PathBuf, LockMode)> = Vec::new();
        let mut i: usize = 0;
        assert(views(requests@) =~= none);
        assert(all.take(0) =~= none);
        while i < dependencies.len()
            invariant
                i <= dependencies@.len(),
                all == all_requests(own@, views(dependencies@)),
                none == Seq::<(Seq<u8>, LockMode)>::empty(),
                rank::<PathBuf>() == le,
                le == path_order(),
                views(requests@) == put_all(none, all.take(i as int), le),
            decreases dependencies@.len() - i,
        {
            let key = match dependencies[i].artifact {
                DependencyArtifact::All => dependencies[i].locks.full.clone(),
                DependencyArtifact::Metadata => dependencies[i].locks.metadata.clone(),
            };
            proof {
                assert(all.take(i + 1).drop_last() =~= all.take(i as int));
                assert(all[i as int] == shared_requests(views(dependencies@))[i as int]);
                assert(views(dependencies@)[i as int] == dependencies@[i as int]@);
                assert(all.take(i + 1).last() == (key@, LockMode::Shared));
            }
            put(&mut requests, key, LockMode::Shared);
            i = i + 1;
        }
        proof {
            let n = i as int;
            assert(all.take(n + 1).drop_last() =~= all.take(n));
            assert(all.take(n + 1).last() == (own.full@, LockMode::Exclusive));
            assert(all.take(n + 2).drop_last() =~= all.take(n + 1));
            assert(all.take(n + 2).last() == (own.metadata@, LockMode::Exclusive));
            assert(all.take(n + 2) =~= all);
        }
        put(&mut requests, own.full.clone(), LockMode::Exclusive);
        assert(views(requests@) == put_all(none, all.take(i + 1), le));
        put(&mut requests, own.metadata.clone(), LockMode::Exclusive);
        proof {
            assert(views(requests@) == put_all(none, all.take(i + 2), le));
            lemma_own_request(own@, views(dependencies@), own.full@);
            lemma_own_request(own@, views(dependencies@), own.metadata@);
        }
        let own_full: usize = find_request(&requests, &own.full);
        let own_metadata: usize = find_request(&requests, &own.metadata);
        proof {
            lemma_owned_at(own@, views(dependencies@), own.full@, own_full as int);
            lemma_owned_at(own@, views(dependencies@), own.metadata@, own_metadata as int);
            own_locks_are_exclusive(own@, views(dependencies@), own.full@);
        }
        UnitLockSet { own_full, own_metadata, requests }
    }

    /// The exclusive locks for publishing artifacts to these places.
    pub fn prepare_artifact_publication(
        &self,
        target_root: &PathBuf,
        destinations: &Vec<PathBuf>,
    ) -> (r: ArtifactLockSet)
        ensures
            r@ == publication_locks(target_root@, views(destinations@)),
    {
        let lock_root = target_root.join_text(".cargo-artifact-locks/v1");
        let mut paths: Vec<PathBuf> = Vec::new();
        let mut i: usize = 0;
        while i < destinations.len()
            invariant
                i <= destinations@.len(),
                lock_root@ == join(target_root@, encode_utf8(".cargo-artifact-locks/v1"@)),
                paths@.len() == i,
                forall|k: int|
                    0 <= k < i ==> (#[trigger] paths@[k])@ == publication_lock(
                        target_root@,
                        destinations@[k]@,
                    ),
            decreases destinations@.len() - i,
        {
            let mut hasher = StableHasher::new();
            match destinations[i].strip_prefix(target_root) {
                Some(relative) => {
                    hasher.write_bool(true);
                    hasher.write_path(&relative);
                },
                None => {
                    hasher.write_bool(false);
                    hasher.write_path(&destinations[i]);
                },
            }
            assert(hasher@ =~= publication_stream(target_root@, destinations@[i as int]@));
            let key = short_hash(&hasher);
            let mut name = copy_bytes(key.as_str().as_bytes());
            append_bytes(&mut name, ".lock".as_bytes());
            paths.push(lock_root.join_bytes(name.as_slice()));
            i = i + 1;
        }
        proof {
            assert(views(paths@) =~= each_publication_lock(target_root@, views(destinations@)));
            assert(rank::<PathBuf>() =~= path_order());
        }
        ArtifactLockSet { paths: sort_unique(paths) }
    }

    /// The shared lock for reading one completed unit.
    pub fn prepare_unit_read(&self, unit_lock: &PathBuf) -> (r: UnitReadLock)
        ensures
            r@ == unit_lock@,
    {
        UnitReadLock { path: unit_lock.clone() }
    }
}

proof fn lemma_own_request(
    own: (Seq<u8>, Seq<u8>),
    dependencies: Seq<((Seq<u8>, Seq<u8>), DependencyArtifact)>,
    file: Seq<u8>,
)
    requires
        same_path(file, own.0) || same_path(file, own.1),
    ensures
        exists|k: int|
            0 <= k < lock_requests(own, dependencies).len() && same_path(
                #[trigger] lock_requests(own, dependencies)[k].0,
                file,
            ),
{
    path_le_is_total_preorder();
    own_locks_are_exclusive(own, dependencies, file);
    let s = lock_requests(own, dependencies);
    let le = path_order();
    assert(maps_to(s, file, LockMode::Exclusive, le));
    let k = choose|k: int|
        0 <= k < s.len() && le(#[trigger] s[k].0, file) && le(file, s[k].0) && s[k].1
            == LockMode::Exclusive;
    assert((path_le(s[k].0, file) && path_le(file, s[k].0)) <==> same_path(s[k].0, file));
}

proof fn lemma_owned_at(
    own: (Seq<u8>, Seq<u8>),
    dependencies: Seq<((Seq<u8>, Seq<u8>), DependencyArtifact)>,
    file: Seq<u8>,
    k: int,
)
    requires
        same_path(file, own.0) || same_path(file, own.1),
        0 <= k < lock_requests(own, dependencies).len(),
        same_path(lock_requests(own, dependencies)[k].0, file),
    ensures
        owns(lock_requests(own, dependencies), k, file),
{
    path_le_is_total_preorder();
    own_locks_are_exclusive(own, dependencies, file);
    let s = lock_requests(own, dependencies);
    let le = path_order();
    assert((path_le(s[k].0, file) && path_le(file, s[k].0)) <==> same_path(s[k].0, file));
    assert(le(s[k].0, file) && le(file, s[k].0));
    assert(maps_to(s, file, s[k].1, le));
}

/// Jobs take the locks they have in common in one order, so that no two of them
/// wait for each other.
pub proof fn common_locks_are_taken_in_one_order(
    a: Seq<(Seq<u8>, LockMode)>,
    b: Seq<(Seq<u8>, LockMode)>,
    i: int,
    j: int,
    k: int,
    l: int,
)
    requires
        keys_ranked(a, path_order()),
        keys_ranked(b, path_order()),
        0 <= i < j < a.len(),
        0 <= k < b.len(),
        0 <= l < b.len(),
        same_path(a[i].0, b[k].0),
        same_path(a[j].0, b[l].0),
    ensures
        k < l,
{
    path_le_is_total_preorder();
    let le = path_order();
    assert(le(a[i].0, a[j].0) && !le(a[j].0, a[i].0));
    assert((path_le(a[i].0, b[k].0) && path_le(b[k].0, a[i].0)) <==> same_path(a[i].0, b[k].0));
    assert((path_le(a[j].0, b[l].0) && path_le(b[l].0, a[j].0)) <==> same_path(a[j].0, b[l].0));
    assert(le(a[i].0, b[k].0) && le(b[k].0, a[i].0));
    assert(le(a[j].0, b[l].0) && le(b[l].0, a[j].0));
    if l <= k {
        if l < k {
            assert(le(b[l].0, b[k].0));
        } else {
            assert(le(b[l].0, b[l].0) || le(b[l].0, b[l].0));
        }
        assert(le(a[j].0, b[k].0));
        assert(le(a[j].0, a[i].0));
    }
}

/// What the place of an artifact writes to a hasher: the path below the target
/// root where it lies there, and else the whole path.
pub open spec fn publication_stream(target_root: Seq<u8>, destination: Seq<u8>) -> Seq<u8> {
    match strip_prefix(destination, target_root) {
        Some(relative) => bool_stream(true) + path_stream(relative),
        None => bool_stream(false) + path_stream(destination),
    }
}

/// The lock for publishing an artifact to a place.
pub open spec fn publication_lock(target_root: Seq<u8>, destination: Seq<u8>) -> Seq<u8> {
    join(
        join(target_root, encode_utf8(".cargo-artifact-locks/v1"@)),
        encode_utf8(short_hash_of(publication_stream(target_root, destination))) + encode_utf8(
            ".lock"@,
        ),
    )
}

/// The lock of each place.
pub open spec fn each_publication_lock(target_root: Seq<u8>, destinations: Seq<Seq<u8>>) -> Seq<
    Seq<u8>,
> {
    Seq::new(destinations.len(), |i: int| publication_lock(target_root, destinations[i]))
}

/// The locks for publishing artifacts, in the order they are taken, each once.
pub open spec fn publication_locks(target_root: Seq<u8>, destinations: Seq<Seq<u8>>) -> Seq<Seq<u8>> {
    sorted_set(each_publication_lock(target_root, destinations), path_order())
}

/// Publication locks are strictly in order, and every place has its own among
/// them.
pub proof fn publication_locks_are_in_order(target_root: Seq<u8>, destinations: Seq<Seq<u8>>)
    ensures
        strictly_ranked(publication_locks(target_root, destinations), path_order()),
        forall|i: int|
            0 <= i < destinations.len() ==> exists|k: int|
                0 <= k < publication_locks(target_root, destinations).len() && same_path(
                    #[trigger] publication_locks(target_root, destinations)[k],
                    publication_lock(target_root, #[trigger] destinations[i]),
                ),
{
    path_le_is_total_preorder();
    let le = path_order();
    let each = each_publication_lock(target_root, destinations);
    let locks = publication_locks(target_root, destinations);
    sorted_set_is_strictly_ranked(each, le);
    assert forall|i: int| 0 <= i < destinations.len() implies exists|k: int|
        0 <= k < locks.len() && same_path(
            #[trigger] locks[k],
            publication_lock(target_root, #[trigger] destinations[i]),
        ) by {
        assert(each.contains(each[i]));
        let k = choose|k: int|
            0 <= k < sorted_set(each, le).len() && crate::order::ties(le)(
                #[trigger] sorted_set(each, le)[k],
                each[i],
            );
        assert(le(locks[k], each[i]) && le(each[i], locks[k]));
        assert((path_le(locks[k], each[i]) && path_le(each[i], locks[k])) <==> same_path(
            locks[k],
            each[i],
        ));
        assert(same_path(locks[k], publication_lock(target_root, destinations[i])));
    }
}

/// Exclusive publication locks, taken in a stable order.
#[derive(Debug)]
pub struct ArtifactLockSet {
    paths: Vec<PathBuf>,
}

impl View for ArtifactLockSet {
    type V = Seq<Seq<u8>>;

    closed spec fn view(&self) -> Seq<Seq<u8>> {
        views(self.paths@)
    }
}

impl ArtifactLockSet {
    /// The files to lock, in order.
    pub fn acquire(&self) -> (r: Vec<PathBuf>)
        ensures
            views(r@) == self@,
    {
        copy_paths(&self.paths)
    }
}

/// A shared lock for using one completed unit.
#[derive(Debug)]
pub struct UnitReadLock {
    path: PathBuf,
}

impl View for UnitReadLock {
    type V = Seq<u8>;

    closed spec fn view(&self) -> Seq<u8> {
        self.path@
    }
}

impl UnitReadLock {
    /// The file to hold a shared lease of.
    pub fn acquire(&self) -> (r: &PathBuf)
        ensures
            r@ == self@,
    {
        &self.path
    }
}

/// How a file stands that jobs share a lock of.
#[derive(Clone, Copy, Debug, PartialEq, Eq, Structural)]
pub enum SharedLockState {
    /// It is not locked.
    Vacant,
    /// One job is locking it.
    Acquiring,
    /// It is locked for this many jobs.
    Held { leases: usize },
}

impl View for SharedLockState {
    type V = SharedLockState;

    open spec fn view(&self) -> SharedLockState {
        *self
    }
}

/// What a job that asks for a shared lock has to do.
#[derive(Clone, Copy, Debug, PartialEq, Eq, Structural)]
pub enum AcquireStep {
    /// Lock the file, and report how that went.
    Lock,
    /// Wait until another job has locked it, and ask again.
    Wait,
    /// Go on: the job shares the lock.
    Granted,
}

/// How many jobs share the lock.
pub open spec fn leases(s: SharedLockState) -> nat {
    match s {
        SharedLockState::Held { leases } => leases as nat,
        _ => 0,
    }
}

/// A lock that is held has a holder.
pub open spec fn state_holds(s: SharedLockState) -> bool {
    s matches SharedLockState::Held { leases } ==> leases > 0
}

/// The state after a job has asked.
pub open spec fn asked(s: SharedLockState) -> SharedLockState {
    match s {
        SharedLockState::Vacant => SharedLockState::Acquiring,
        SharedLockState::Acquiring => SharedLockState::Acquiring,
        SharedLockState::Held { leases } => SharedLockState::Held { leases: (leases + 1) as usize },
    }
}

/// What a job that asks has to do.
pub open spec fn answer(s: SharedLockState) -> AcquireStep {
    match s {
        SharedLockState::Vacant => AcquireStep::Lock,
        SharedLockState::Acquiring => AcquireStep::Wait,
        SharedLockState::Held { .. } => AcquireStep::Granted,
    }
}

/// The state after a job has locked the file, or failed to.
pub open spec fn settled(locked: bool) -> SharedLockState {
    if locked {
        SharedLockState::Held { leases: 1 }
    } else {
        SharedLockState::Vacant
    }
}

/// The state after a job has given up its lease.
pub open spec fn released(s: SharedLockState) -> SharedLockState {
    match s {
        SharedLockState::Held { leases } => if leases > 1 {
            SharedLockState::Held { leases: (leases - 1) as usize }
        } else {
            SharedLockState::Vacant
        },
        _ => s,
    }
}

impl SharedLockState {
    /// A job asks for the lock.
    pub fn acquire(&mut self) -> (r: AcquireStep)
        requires
            leases(*old(self)) < usize::MAX,
        ensures
            r == answer(*old(self)),
            *final(self) == asked(*old(self)),
    {
        match *self {
            SharedLockState::Vacant => {
                *self = SharedLockState::Acquiring;
                AcquireStep::Lock
            },
            SharedLockState::Acquiring => AcquireStep::Wait,
            SharedLockState::Held { leases } => {
                *self = SharedLockState::Held { leases: leases + 1 };
                AcquireStep::Granted
            },
        }
    }

    /// The job that was to lock the file has done so, or failed to. Those that
    /// wait are to ask again.
    pub fn settle(&mut self, locked: bool)
        requires
            *old(self) == SharedLockState::Acquiring,
        ensures
            *final(self) == settled(locked),
    {
        if locked {
            *self = SharedLockState::Held { leases: 1 };
        } else {
            *self = SharedLockState::Vacant;
        }
    }

    /// A job gives up its lease. Says whether it was the last, so that the file
    /// is to be closed.
    pub fn release(&mut self) -> (r: bool)
        requires
            leases(*old(self)) > 0,
        ensures
            *final(self) == released(*old(self)),
            r == (leases(*final(self)) == 0),
    {
        match *self {
            SharedLockState::Held { leases } => if leases > 1 {
                *self = SharedLockState::Held { leases: leases - 1 };
                false
            } else {
                *self = SharedLockState::Vacant;
                true
            },
            _ => false,
        }
    }
}

/// What can happen to a shared lock.
pub enum LockEvent {
    /// A job asks for it.
    Ask,
    /// The job that is locking the file reports how that went.
    Settle(bool),
    /// A job gives up its lease.
    Release,
}

/// The event can happen in this state.
pub open spec fn possible(s: SharedLockState, e: LockEvent) -> bool {
    match e {
        LockEvent::Ask => leases(s) < usize::MAX,
        LockEvent::Settle(_) => s == SharedLockState::Acquiring,
        LockEvent::Release => leases(s) > 0,
    }
}

/// The state after an event.
pub open spec fn after_event(s: SharedLockState, e: LockEvent) -> SharedLockState {
    match e {
        LockEvent::Ask => asked(s),
        LockEvent::Settle(locked) => settled(locked),
        LockEvent::Release => released(s),
    }
}

/// The state after a history of events.
pub open spec fn after_history(events: Seq<LockEvent>) -> SharedLockState
    decreases events.len(),
{
    if events.len() == 0 {
        SharedLockState::Vacant
    } else {
        after_event(after_history(events.drop_last()), events.last())
    }
}

/// Each event could happen when it did.
pub open spec fn is_history(events: Seq<LockEvent>) -> bool
    decreases events.len(),
{
    events.len() > 0 ==> is_history(events.drop_last()) && possible(
        after_history(events.drop_last()),
        events.last(),
    )
}

/// The event gives a job a lease.
pub open spec fn grants(s: SharedLockState, e: LockEvent) -> bool {
    match e {
        LockEvent::Ask => answer(s) == AcquireStep::Granted,
        LockEvent::Settle(locked) => locked,
        LockEvent::Release => false,
    }
}

/// How many leases a history has given out.
pub open spec fn granted_count(events: Seq<LockEvent>) -> nat
    decreases events.len(),
{
    if events.len() == 0 {
        0
    } else {
        granted_count(events.drop_last()) + if grants(
            after_history(events.drop_last()),
            events.last(),
        ) {
            1nat
        } else {
            0nat
        }
    }
}

/// How many leases a history has seen given up.
pub open spec fn released_count(events: Seq<LockEvent>) -> nat
    decreases events.len(),
{
    if events.len() == 0 {
        0
    } else {
        released_count(events.drop_last()) + if events.last() is Release {
            1nat
        } else {
            0nat
        }
    }
}

/// The file stays locked exactly as long as a job has a lease: the leases
/// counted are those given out and not given up, and a job that has one can
/// give it up.
pub proof fn leases_are_counted(events: Seq<LockEvent>)
    requires
        is_history(events),
    ensures
        state_holds(after_history(events)),
        leases(after_history(events)) + released_count(events) == granted_count(events),
        after_history(events) is Held <==> granted_count(events) > released_count(events),
        granted_count(events) > released_count(events) ==> possible(
            after_history(events),
            LockEvent::Release,
        ),
    decreases events.len(),
{
    if events.len() > 0 {
        leases_are_counted(events.drop_last());
    }
}

/// Where a file stands in the pool.
pub open spec fn pool_position(pool: Seq<(Seq<u8>, SharedLockState)>, file: Seq<u8>) -> Option<int>
    decreases pool.len(),
{
    if pool.len() == 0 {
        None
    } else {
        match pool_position(pool.drop_last(), file) {
            Some(i) => Some(i),
            None => if same_path(pool.last().0, file) {
                Some(pool.len() - 1)
            } else {
                None
            },
        }
    }
}

/// The pool with an entry for the file.
pub open spec fn with_entry(pool: Seq<(Seq<u8>, SharedLockState)>, file: Seq<u8>) -> Seq<
    (Seq<u8>, SharedLockState),
> {
    match pool_position(pool, file) {
        Some(_) => pool,
        None => pool.push((file, SharedLockState::Vacant)),
    }
}

/// Lets the jobs of one build share one lock of each file.
#[derive(Debug)]
pub struct SharedLockPool {
    entries: Vec<(PathBuf, SharedLockState)>,
}

impl View for SharedLockPool {
    type V = Seq<(Seq<u8>, SharedLockState)>;

    closed spec fn view(&self) -> Seq<(Seq<u8>, SharedLockState)> {
        views(self.entries@)
    }
}

proof fn lemma_pool_extends(pool: Seq<(Seq<u8>, SharedLockState)>, n: int, file: Seq<u8>)
    requires
        0 <= n <= pool.len(),
        pool_position(pool.take(n), file) is Some,
    ensures
        pool_position(pool, file) == pool_position(pool.take(n), file),
    decreases pool.len() - n,
{
    if n < pool.len() {
        assert(pool.take(n + 1).drop_last() =~= pool.take(n));
        lemma_pool_extends(pool, n + 1, file);
    } else {
        assert(pool.take(n) =~= pool);
    }
}

impl SharedLockPool {
    /// A pool with no lock held.
    pub fn new() -> (r: Self)
        ensures
            r@ == Seq::<(Seq<u8>, SharedLockState)>::empty(),
    {
        let entries: Vec<(PathBuf, SharedLockState)> = Vec::new();
        assert(views(entries@) =~= Seq::<(Seq<u8>, SharedLockState)>::empty());
        SharedLockPool { entries }
    }

    /// Finds the entry of a file, and makes one where there is none.
    pub fn entry(&mut self, file: &PathBuf) -> (r: usize)
        ensures
            final(self)@ == with_entry(old(self)@, file@),
            pool_position(final(self)@, file@) == Some(r as int),
            r < final(self)@.len(),
    {
        let ghost all = self@;
        let mut i: usize = 0;
        while i < self.entries.len()
            invariant
                i <= self.entries@.len(),
                self@ == old(self)@,
                all == self@,
                pool_position(all.take(i as int), file@) is None,
            decreases self.entries@.len() - i,
        {
            proof {
                assert(all.take(i + 1).drop_last() =~= all.take(i as int));
                assert(all.take(i + 1).last() == self.entries@[i as int]@);
            }
            if self.entries[i].0.is_same(file) {
                proof {
                    lemma_pool_extends(all, i + 1, file@);
                }
                return i;
            }
            i = i + 1;
        }
        assert(all.take(i as int) =~= all);
        let ghost before = self.entries@;
        self.entries.push((file.clone(), SharedLockState::Vacant));
        proof {
            assert(views(self.entries@) =~= views(before).push((file@, SharedLockState::Vacant)));
            assert(self@.drop_last() =~= all);
            assert(same_path(file@, file@));
        }
        i
    }

    /// A job asks for the lock of an entry.
    pub fn acquire(&mut self, i: usize) -> (r: AcquireStep)
        requires
            i < old(self)@.len(),
            leases(old(self)@[i as int].1) < usize::MAX,
        ensures
            r == answer(old(self)@[i as int].1),
            final(self)@ == old(self)@.update(
                i as int,
                (old(self)@[i as int].0, asked(old(self)@[i as int].1)),
            ),
    {
        let mut state = self.entries[i].1;
        let r = state.acquire();
        self.set_state(i, state);
        r
    }

    /// The job that was to lock the file of an entry reports how that went.
    pub fn settle(&mut self, i: usize, locked: bool)
        requires
            i < old(self)@.len(),
            old(self)@[i as int].1 == SharedLockState::Acquiring,
        ensures
            final(self)@ == old(self)@.update(
                i as int,
                (old(self)@[i as int].0, settled(locked)),
            ),
    {
        let mut state = self.entries[i].1;
        state.settle(locked);
        self.set_state(i, state);
    }

    /// A job gives up its lease of an entry. Says whether it was the last.
    pub fn release(&mut self, i: usize) -> (r: bool)
        requires
            i < old(self)@.len(),
            leases(old(self)@[i as int].1) > 0,
        ensures
            r == (leases(final(self)@[i as int].1) == 0),
            final(self)@ == old(self)@.update(
                i as int,
                (old(self)@[i as int].0, released(old(self)@[i as int].1)),
            ),
    {
        let mut state = self.entries[i].1;
        let r: bool = state.release();
        self.set_state(i, state);
        r
    }

    /// How the file of an entry stands.
    pub fn state(&self, i: usize) -> (r: SharedLockState)
        requires
            i < self@.len(),
        ensures
            r == self@[i as int].1,
    {
        self.entries[i].1
    }

    fn set_state(&mut self, i: usize, state: SharedLockState)
        requires
            i < old(self)@.len(),
        ensures
            final(self)@ == old(self)@.update(i as int, (old(self)@[i as int].0, state)),
    {
        let ghost before = self.entries@;
        let (file, _) = self.entries.remove(i);
        self.entries.insert(i, (file, state));
        proof {
            let after = self.entries@;
            assert(views(after) =~= views(before).update(
                i as int,
                (views(before)[i as int].0, state),
            )) by {
                assert forall|k: int| 0 <= k < after.len() implies views(after)[k] == views(
                    before,
                ).update(i as int, (views(before)[i as int].0, state))[k] by {
                    if k != i {
                        assert(after[k] == before[k]);
                    }
                }
            }
        }
    }
}

/// One file has one entry, however its path is spelled, and asking for it again
/// does not make another.
pub proof fn one_file_has_one_entry(
    pool: Seq<(Seq<u8>, SharedLockState)>,
    a: Seq<u8>,
    b: Seq<u8>,
)
    requires
        same_path(a, b),
    ensures
        with_entry(with_entry(pool, a), b) == with_entry(pool, a),
        pool_position(with_entry(pool, a), a) == pool_position(with_entry(pool, a), b),
        pool_position(with_entry(pool, a), a) is Some,
{
    let after = with_entry(pool, a);
    lemma_position_spelling(after, a, b);
    lemma_position_spelling(pool, a, b);
    if pool_position(pool, a) is None {
        assert(after.drop_last() =~= pool);
    }
}

proof fn lemma_position_spelling(
    pool: Seq<(Seq<u8>, SharedLockState)>,
    a: Seq<u8>,
    b: Seq<u8>,
)
    requires
        same_path(a, b),
    ensures
        pool_position(pool, a) == pool_position(pool, b),
    decreases pool.len(),
{
    if pool.len() > 0 {
        lemma_position_spelling(pool.drop_last(), a, b);
    }
}

/// A job's own locks are turned into shared ones at most once each, and only
/// where they were taken exclusively.
pub proof fn downgraded_locks_were_exclusive(s: LockSetModel, requested_modes: bool)
    requires
        lock_set_holds(s),
    ensures
        ({
            let lease = lease_of(s, requested_modes);
            let steps = lock_steps(s.requests, requested_modes);
            &&& !lease.metadata_downgraded ==> steps[lease.own_metadata].1
            &&& !lease.full_downgraded ==> steps[lease.own_full].1
        }),
{
}

} // verus!
