//! Which locks jobs take, in which order, and how they share them.

use std::hash::{Hash, Hasher};

use input_variants::locking::{
    AcquireStep, DependencyArtifact, JobDependency, LockManager, SharedLockPool, SharedLockState,
    UnitLocks,
};
use input_variants::path_buf::PathBuf;
use rustc_stable_hash::StableSipHasher128;

fn path(text: &str) -> PathBuf {
    PathBuf::new(text)
}

fn text(path: &PathBuf) -> String {
    String::from_utf8(path.as_bytes().to_vec()).unwrap()
}

fn locks(unit: &str) -> UnitLocks {
    UnitLocks {
        full: path(&format!("/build/{unit}/full.lock")),
        metadata: path(&format!("/build/{unit}/metadata.lock")),
    }
}

fn dependency(unit: &str, artifact: DependencyArtifact) -> JobDependency {
    JobDependency { locks: locks(unit), artifact }
}

#[test]
fn a_job_locks_its_own_files_alone_and_shares_those_of_its_dependencies() {
    let manager = LockManager::new();
    let dependencies = vec![
        dependency("z", DependencyArtifact::Metadata),
        dependency("a", DependencyArtifact::All),
        dependency("z", DependencyArtifact::Metadata),
        dependency("m", DependencyArtifact::All),
    ];
    let set = manager.prepare(&locks("m"), &dependencies);
    let plan = set.acquire();
    let steps: Vec<_> = plan.steps.iter().map(|s| (text(&s.path), s.exclusive)).collect();
    assert_eq!(
        steps,
        [
            ("/build/a/full.lock".to_owned(), false),
            ("/build/m/full.lock".to_owned(), true),
            ("/build/m/metadata.lock".to_owned(), true),
            ("/build/z/metadata.lock".to_owned(), false),
        ]
    );
    let shared = set.acquire_shared();
    assert!(shared.steps.iter().all(|step| !step.exclusive));
    assert_eq!(shared.steps.len(), 4);
}

#[test]
fn own_locks_are_downgraded_once_the_metadata_first() {
    let set = LockManager::new().prepare(
        &locks("m"),
        &vec![dependency("a", DependencyArtifact::All)],
    );
    let mut lease = set.acquire().lease;
    assert_eq!(lease.downgrade_own(), Some(2));
    assert_eq!(lease.downgrade_own(), Some(1));
    assert_eq!(lease.downgrade_own(), None);

    let mut lease = set.acquire().lease;
    assert_eq!(lease.metadata_produced(), Some(2));
    assert_eq!(lease.metadata_produced(), None);
    assert_eq!(lease.downgrade_own(), Some(1));
    assert_eq!(lease.downgrade_own(), None);

    let mut shared = set.acquire_shared().lease;
    assert_eq!(shared.metadata_produced(), None);
    assert_eq!(shared.downgrade_own(), None);
}

fn lock_name(below: bool, place: &str) -> String {
    let mut hasher = StableSipHasher128::new();
    (below, std::path::Path::new(place)).hash(&mut hasher);
    let digits: String = Hasher::finish(&hasher)
        .to_le_bytes()
        .iter()
        .map(|byte| format!("{byte:02x}"))
        .collect();
    format!("/target/.cargo-artifact-locks/v1/{digits}.lock")
}

#[test]
fn artifacts_are_published_under_one_lock_for_each_place() {
    let manager = LockManager::new();
    let places =
        ["/target/debug/app", "/elsewhere/app", "/target//debug/./app", "/target/debug/lib"]
            .map(path)
            .to_vec();
    let locks = manager.prepare_artifact_publication(&path("/target"), &places).acquire();
    let mut expected = vec![
        lock_name(true, "debug/app"),
        lock_name(false, "/elsewhere/app"),
        lock_name(true, "debug/lib"),
    ];
    expected.sort();
    assert_eq!(locks.iter().map(text).collect::<Vec<_>>(), expected);
    assert!(manager
        .prepare_artifact_publication(&path("/target"), &Vec::new())
        .acquire()
        .is_empty());
}

#[test]
fn a_completed_unit_is_read_under_its_full_lock() {
    let read = LockManager::new().prepare_unit_read(&path("/build/a/full.lock"));
    assert_eq!(text(read.acquire()), "/build/a/full.lock");
}

#[test]
fn jobs_share_one_lock_of_a_file() {
    let mut manager = LockManager::new();
    let pool = manager.shared_locks();
    let file = pool.entry(&path("/build/a.lock"));
    assert_eq!(pool.entry(&path("/build//a.lock")), file);
    assert_ne!(pool.entry(&path("/build/b.lock")), file);

    assert_eq!(pool.acquire(file), AcquireStep::Lock);
    assert_eq!(pool.acquire(file), AcquireStep::Wait);
    pool.settle(file, true);
    assert_eq!(pool.acquire(file), AcquireStep::Granted);
    assert_eq!(pool.state(file), SharedLockState::Held { leases: 2 });
    assert!(!pool.release(file));
    assert!(pool.release(file));
    assert_eq!(pool.state(file), SharedLockState::Vacant);
}

#[test]
fn a_lock_that_could_not_be_taken_can_be_asked_for_again() {
    let mut pool = SharedLockPool::new();
    let file = pool.entry(&path("/build/a.lock"));
    assert_eq!(pool.acquire(file), AcquireStep::Lock);
    assert_eq!(pool.state(file), SharedLockState::Acquiring);
    pool.settle(file, false);
    assert_eq!(pool.state(file), SharedLockState::Vacant);
    assert_eq!(pool.acquire(file), AcquireStep::Lock);
}
