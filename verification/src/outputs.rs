//! Ownership records for retained variant outputs.

use vstd::prelude::*;
use vstd::utf8::encode_utf8;

use crate::order::{bytes_equal, views};
use crate::path::{
    ancestors, components, file_name, is_absolute, join, lemma_parent_spans, parent, same_path,
    spans, starts_with, starts_with_is_partial_order, strictly_below,
};
use crate::path_buf::{append_bytes, copy_bytes, PathBuf};
use crate::path_set::{
    copy_optional, copy_paths, covered, disjoint_paths, minimal_paths,
    minimal_paths_cover_without_overlap, minimal_paths_of, minimal_paths_of_minimal, optional_path,
};
use crate::text::text_equal;

verus! {

/// The format that output records are written in.
pub const OUTPUT_FORMAT_VERSION: u32 = 2;

/// The format of output records that list no unit directory.
pub const LEGACY_OUTPUT_FORMAT_VERSION: u32 = 1;

/// What one unit identity owns on disk.
#[verifier::ext_equal]
pub struct OwnershipModel {
    pub build_root: Seq<u8>,
    pub package: Seq<char>,
    pub unit: Seq<char>,
    pub unit_dir: Option<Seq<u8>>,
    pub paths: Seq<Seq<u8>>,
}

/// What an output record says.
#[verifier::ext_equal]
pub struct RecordModel {
    pub version: u32,
    pub package: Seq<char>,
    pub unit: Seq<char>,
    pub last_used: u64,
    pub size: Option<u64>,
    pub unit_dir: Option<Seq<u8>>,
    pub paths: Seq<Seq<u8>>,
}

/// Complete filesystem ownership for one retained unit identity.
#[derive(Debug)]
pub struct OutputOwnership {
    build_root: PathBuf,
    package: String,
    unit: String,
    unit_dir: Option<PathBuf>,
    paths: Vec<PathBuf>,
}

impl View for OutputOwnership {
    type V = OwnershipModel;

    closed spec fn view(&self) -> OwnershipModel {
        OwnershipModel {
            build_root: self.build_root@,
            package: self.package@,
            unit: self.unit@,
            unit_dir: optional_path(self.unit_dir),
            paths: views(self.paths@),
        }
    }
}

/// A retained unit's record on disk.
#[derive(Debug, PartialEq, Eq)]
pub struct OutputRecord {
    pub version: u32,
    pub package: String,
    pub unit: String,
    pub last_used: u64,
    pub size: Option<u64>,
    pub unit_dir: Option<PathBuf>,
    pub paths: Vec<PathBuf>,
}

impl View for OutputRecord {
    type V = RecordModel;

    open spec fn view(&self) -> RecordModel {
        RecordModel {
            version: self.version,
            package: self.package@,
            unit: self.unit@,
            last_used: self.last_used,
            size: self.size,
            unit_dir: optional_path(self.unit_dir),
            paths: views(self.paths@),
        }
    }
}

impl Clone for OutputRecord {
    fn clone(&self) -> (r: Self)
        ensures
            r@ == self@,
    {
        OutputRecord {
            version: self.version,
            package: self.package.clone(),
            unit: self.unit.clone(),
            last_used: self.last_used,
            size: self.size,
            unit_dir: copy_optional(&self.unit_dir),
            paths: copy_paths(&self.paths),
        }
    }
}

/// Why an ownership description is refused.
pub enum OwnershipFault {
    /// The path is relative or not below a configured root.
    Outside(Seq<u8>),
    /// The unit directory is not named after its package and unit.
    UnitDirMismatch(Seq<u8>),
    /// The first path holds the second, which is the unit directory.
    SidecarHoldsUnitDir(Seq<u8>, Seq<u8>),
}

/// Why an ownership description is refused.
#[derive(Debug, PartialEq, Eq)]
pub enum OwnershipError {
    /// The path is relative or not below a configured root.
    Outside { path: PathBuf },
    /// The unit directory is not named after its package and unit.
    UnitDirMismatch { unit_dir: PathBuf },
    /// A path that the unit owns beside its directory holds that directory.
    SidecarHoldsUnitDir { sidecar: PathBuf, unit_dir: PathBuf },
}

impl View for OwnershipError {
    type V = OwnershipFault;

    open spec fn view(&self) -> OwnershipFault {
        match *self {
            OwnershipError::Outside { path } => OwnershipFault::Outside(path@),
            OwnershipError::UnitDirMismatch { unit_dir } => OwnershipFault::UnitDirMismatch(
                unit_dir@,
            ),
            OwnershipError::SidecarHoldsUnitDir {
                sidecar,
                unit_dir,
            } => OwnershipFault::SidecarHoldsUnitDir(sidecar@, unit_dir@),
        }
    }
}

/// `p` is absolute and lies strictly below one of `roots`.
pub open spec fn inside(p: Seq<u8>, roots: Seq<Seq<u8>>) -> bool {
    is_absolute(p) && exists|k: int| 0 <= k < roots.len() && strictly_below(p, #[trigger] roots[k])
}

/// The first path that is not inside `roots`.
pub open spec fn first_outside(paths: Seq<Seq<u8>>, roots: Seq<Seq<u8>>) -> Option<Seq<u8>>
    decreases paths.len(),
{
    if paths.len() == 0 {
        None
    } else {
        match first_outside(paths.drop_last(), roots) {
            Some(p) => Some(p),
            None => if inside(paths.last(), roots) {
                None
            } else {
                Some(paths.last())
            },
        }
    }
}

/// The first path that `dir` is or lies below.
pub open spec fn first_holding(paths: Seq<Seq<u8>>, dir: Seq<u8>) -> Option<Seq<u8>>
    decreases paths.len(),
{
    if paths.len() == 0 {
        None
    } else {
        match first_holding(paths.drop_last(), dir) {
            Some(p) => Some(p),
            None => if starts_with(dir, paths.last()) {
                Some(paths.last())
            } else {
                None
            },
        }
    }
}

/// `dir` is `build/package/unit` below some directory.
pub open spec fn is_unit_dir(dir: Seq<u8>, package: Seq<char>, unit: Seq<char>) -> bool {
    &&& file_name(dir) == Some(encode_utf8(unit))
    &&& parent(dir) matches Some(up) && {
        &&& file_name(up) == Some(encode_utf8(package))
        &&& parent(up) matches Some(top) && file_name(top) == Some(encode_utf8("build"@))
    }
}

/// What is wrong with an ownership description, if anything.
pub open spec fn ownership_fault(
    build_root: Seq<u8>,
    target_root: Seq<u8>,
    package: Seq<char>,
    unit: Seq<char>,
    unit_dir: Option<Seq<u8>>,
    paths: Seq<Seq<u8>>,
) -> Option<OwnershipFault> {
    let in_roots = match first_outside(paths, seq![build_root, target_root]) {
        Some(p) => Some(OwnershipFault::Outside(p)),
        None => None,
    };
    match unit_dir {
        None => in_roots,
        Some(dir) => if !inside(dir, seq![build_root]) {
            Some(OwnershipFault::Outside(dir))
        } else if !is_unit_dir(dir, package, unit) {
            Some(OwnershipFault::UnitDirMismatch(dir))
        } else {
            match first_holding(paths, dir) {
                Some(p) => Some(OwnershipFault::SidecarHoldsUnitDir(p, dir)),
                None => in_roots,
            }
        },
    }
}

/// The paths that do not lie in `dir`.
pub open spec fn beside(paths: Seq<Seq<u8>>, dir: Seq<u8>) -> Seq<Seq<u8>>
    decreases paths.len(),
{
    if paths.len() == 0 {
        paths
    } else {
        let before = beside(paths.drop_last(), dir);
        if starts_with(paths.last(), dir) {
            before
        } else {
            before.push(paths.last())
        }
    }
}

/// The paths that a unit owns beside its directory.
pub open spec fn sidecars(paths: Seq<Seq<u8>>, unit_dir: Option<Seq<u8>>) -> Seq<Seq<u8>> {
    minimal_paths_of(
        match unit_dir {
            None => paths,
            Some(dir) => beside(paths, dir),
        },
    )
}

/// Every path is inside the roots exactly where none is found outside.
pub proof fn first_outside_decides(paths: Seq<Seq<u8>>, roots: Seq<Seq<u8>>)
    ensures
        first_outside(paths, roots) is None <==> forall|i: int|
            0 <= i < paths.len() ==> inside(#[trigger] paths[i], roots),
        first_outside(paths, roots) matches Some(p) ==> paths.contains(p) && !inside(p, roots),
    decreases paths.len(),
{
    if paths.len() > 0 {
        let init = paths.drop_last();
        first_outside_decides(init, roots);
        assert forall|i: int| 0 <= i < init.len() implies init[i] == paths[i] by {}
        if first_outside(init, roots) is Some {
            let p = first_outside(init, roots)->0;
            let k = choose|k: int| 0 <= k < init.len() && init[k] == p;
            assert(paths[k] == p);
        } else if first_outside(paths, roots) is Some {
            assert(paths[paths.len() - 1] == paths.last());
        } else {
            assert forall|i: int| 0 <= i < paths.len() implies inside(
                #[trigger] paths[i],
                roots,
            ) by {
                if i < init.len() {
                    assert(inside(init[i], roots));
                }
            }
        }
        if forall|i: int| 0 <= i < paths.len() ==> inside(#[trigger] paths[i], roots) {
            assert(inside(paths[paths.len() - 1], roots));
            assert forall|i: int| 0 <= i < init.len() implies inside(
                #[trigger] init[i],
                roots,
            ) by {
                assert(inside(paths[i], roots));
            }
        }
    }
}

/// Whether `path` is absolute and strictly below one of `roots`.
fn is_inside(path: &PathBuf, roots: &[PathBuf]) -> (r: bool)
    ensures
        r == inside(path@, views(roots@)),
{
    if !path.is_absolute() {
        return false;
    }
    let mut k: usize = 0;
    while k < roots.len()
        invariant
            k <= roots@.len(),
            is_absolute(path@),
            forall|j: int| 0 <= j < k ==> !strictly_below(path@, #[trigger] views(roots@)[j]),
        decreases roots@.len() - k,
    {
        if path.starts_with(&roots[k]) && !path.is_same(&roots[k]) {
            assert(strictly_below(path@, views(roots@)[k as int]));
            return true;
        }
        k = k + 1;
    }
    false
}

/// Accepts paths that are absolute and strictly below one of `roots`.
pub fn validate_paths(output_paths: &[PathBuf], roots: &[PathBuf]) -> (r: Result<
    (),
    OwnershipError,
>)
    ensures
        r is Ok <==> first_outside(views(output_paths@), views(roots@)) is None,
        r matches Err(e) ==> e@ == OwnershipFault::Outside(
            first_outside(views(output_paths@), views(roots@))->0,
        ),
{
    let mut i: usize = 0;
    let ghost all = views(output_paths@);
    while i < output_paths.len()
        invariant
            i <= output_paths@.len(),
            all == views(output_paths@),
            first_outside(all.take(i as int), views(roots@)) is None,
        decreases output_paths@.len() - i,
    {
        proof {
            assert(all.take(i + 1).drop_last() =~= all.take(i as int));
            assert(all.take(i + 1).last() == output_paths@[i as int]@);
        }
        if !is_inside(&output_paths[i], roots) {
            proof {
                lemma_first_outside_extends(all, i + 1, views(roots@));
            }
            return Err(OwnershipError::Outside { path: output_paths[i].clone() });
        }
        i = i + 1;
    }
    assert(all.take(i as int) =~= all);
    Ok(())
}

proof fn lemma_first_outside_extends(paths: Seq<Seq<u8>>, n: int, roots: Seq<Seq<u8>>)
    requires
        0 <= n <= paths.len(),
        first_outside(paths.take(n), roots) is Some,
    ensures
        first_outside(paths, roots) == first_outside(paths.take(n), roots),
    decreases paths.len() - n,
{
    if n < paths.len() {
        assert(paths.take(n + 1).drop_last() =~= paths.take(n));
        lemma_first_outside_extends(paths, n + 1, roots);
    } else {
        assert(paths.take(n) =~= paths);
    }
}

proof fn lemma_first_holding_extends(paths: Seq<Seq<u8>>, n: int, dir: Seq<u8>)
    requires
        0 <= n <= paths.len(),
        first_holding(paths.take(n), dir) is Some,
    ensures
        first_holding(paths, dir) == first_holding(paths.take(n), dir),
    decreases paths.len() - n,
{
    if n < paths.len() {
        assert(paths.take(n + 1).drop_last() =~= paths.take(n));
        lemma_first_holding_extends(paths, n + 1, dir);
    } else {
        assert(paths.take(n) =~= paths);
    }
}

/// The first path that `dir` is or lies below.
fn find_holding(paths: &Vec<PathBuf>, dir: &PathBuf) -> (r: Option<PathBuf>)
    ensures
        optional_path(r) == first_holding(views(paths@), dir@),
{
    let mut i: usize = 0;
    let ghost all = views(paths@);
    while i < paths.len()
        invariant
            i <= paths@.len(),
            all == views(paths@),
            first_holding(all.take(i as int), dir@) is None,
        decreases paths@.len() - i,
    {
        proof {
            assert(all.take(i + 1).drop_last() =~= all.take(i as int));
            assert(all.take(i + 1).last() == paths@[i as int]@);
        }
        if dir.starts_with(&paths[i]) {
            proof {
                lemma_first_holding_extends(all, i + 1, dir@);
            }
            return Some(paths[i].clone());
        }
        i = i + 1;
    }
    assert(all.take(i as int) =~= all);
    None
}

fn file_name_is(path: &PathBuf, name: &str) -> (r: bool)
    ensures
        r == (file_name(path@) == Some(encode_utf8(name@))),
{
    match path.file_name() {
        None => false,
        Some(found) => bytes_equal(found.as_slice(), name.as_bytes()),
    }
}

/// Whether `unit_dir` is `build/package/unit` below some directory.
pub fn unit_dir_matches(unit_dir: &PathBuf, package: &str, unit: &str) -> (r: bool)
    ensures
        r == is_unit_dir(unit_dir@, package@, unit@),
{
    if !file_name_is(unit_dir, unit) {
        return false;
    }
    match unit_dir.parent() {
        None => false,
        Some(up) => {
            if !file_name_is(&up, package) {
                return false;
            }
            match up.parent() {
                None => false,
                Some(top) => file_name_is(&top, "build"),
            }
        },
    }
}

/// Accepts ownership that stays below the configured roots and whose unit
/// directory is the unit's own.
pub fn validate_ownership(
    build_root: &PathBuf,
    target_root: &PathBuf,
    package: &str,
    unit: &str,
    unit_dir: &Option<PathBuf>,
    paths: &Vec<PathBuf>,
) -> (r: Result<(), OwnershipError>)
    ensures
        r is Ok <==> ownership_fault(
            build_root@,
            target_root@,
            package@,
            unit@,
            optional_path(*unit_dir),
            views(paths@),
        ) is None,
        r matches Err(e) ==> e@ == ownership_fault(
            build_root@,
            target_root@,
            package@,
            unit@,
            optional_path(*unit_dir),
            views(paths@),
        )->0,
{
    if let Some(dir) = unit_dir {
        let mut only: Vec<PathBuf> = Vec::new();
        only.push(build_root.clone());
        assert(views(only@) =~= seq![build_root@]);
        if !is_inside(dir, only.as_slice()) {
            return Err(OwnershipError::Outside { path: dir.clone() });
        }
        if !unit_dir_matches(dir, package, unit) {
            return Err(OwnershipError::UnitDirMismatch { unit_dir: dir.clone() });
        }
        if let Some(sidecar) = find_holding(paths, dir) {
            return Err(OwnershipError::SidecarHoldsUnitDir { sidecar, unit_dir: dir.clone() });
        }
    }
    let mut roots: Vec<PathBuf> = Vec::new();
    roots.push(build_root.clone());
    roots.push(target_root.clone());
    assert(views(roots@) =~= seq![build_root@, target_root@]);
    validate_paths(paths.as_slice(), roots.as_slice())
}

/// Drops the paths that lie in `dir`.
fn drop_below(paths: Vec<PathBuf>, dir: &PathBuf) -> (r: Vec<PathBuf>)
    ensures
        views(r@) == beside(views(paths@), dir@),
{
    let mut kept: Vec<PathBuf> = Vec::new();
    let mut i: usize = 0;
    let ghost all = views(paths@);
    assert(views(kept@) =~= beside(all.take(0), dir@));
    while i < paths.len()
        invariant
            i <= paths@.len(),
            all == views(paths@),
            views(kept@) == beside(all.take(i as int), dir@),
        decreases paths@.len() - i,
    {
        proof {
            assert(all.take(i + 1).drop_last() =~= all.take(i as int));
            assert(all.take(i + 1).last() == paths@[i as int]@);
        }
        let ghost before = kept@;
        if !paths[i].starts_with(dir) {
            kept.push(paths[i].clone());
            assert(views(kept@) =~= views(before).push(paths@[i as int]@));
        }
        i = i + 1;
    }
    assert(all.take(i as int) =~= all);
    kept
}

/// Where the record of a unit is kept.
pub open spec fn record_path_of(build_root: Seq<u8>, package: Seq<char>, unit: Seq<char>) -> Seq<u8> {
    join(
        join(join(build_root, encode_utf8(".input-variants/v1/outputs"@)), encode_utf8(package)),
        encode_utf8(unit) + encode_utf8(".json"@),
    )
}

/// Where the record of a unit is kept.
pub fn record_path(build_root: &PathBuf, package: &str, unit: &str) -> (r: PathBuf)
    ensures
        r@ == record_path_of(build_root@, package@, unit@),
{
    let mut name = copy_bytes(unit.as_bytes());
    append_bytes(&mut name, ".json".as_bytes());
    build_root.join_text(".input-variants/v1/outputs").join_text(package).join_bytes(
        name.as_slice(),
    )
}

/// The same paths in the same order, however they are spelled.
pub open spec fn same_paths(a: Seq<Seq<u8>>, b: Seq<Seq<u8>>) -> bool {
    a.len() == b.len() && forall|i: int|
        0 <= i < a.len() ==> same_path(#[trigger] a[i], b[i])
}

/// Both absent, or the same path.
pub open spec fn same_optional(a: Option<Seq<u8>>, b: Option<Seq<u8>>) -> bool {
    match (a, b) {
        (None, None) => true,
        (Some(p), Some(q)) => same_path(p, q),
        _ => false,
    }
}

/// A record in a format that can be read.
pub open spec fn supported(record: RecordModel) -> bool {
    record.version == LEGACY_OUTPUT_FORMAT_VERSION || record.version == OUTPUT_FORMAT_VERSION
}

/// The record describes this ownership.
pub open spec fn describes(record: RecordModel, ownership: OwnershipModel) -> bool {
    &&& record.package == ownership.package
    &&& record.unit == ownership.unit
    &&& same_optional(record.unit_dir, ownership.unit_dir)
    &&& same_paths(record.paths, ownership.paths)
}

/// The record that is written for an ownership.
pub open spec fn record_for(ownership: OwnershipModel, last_used: u64, size: Option<u64>) -> RecordModel {
    RecordModel {
        version: OUTPUT_FORMAT_VERSION,
        package: ownership.package,
        unit: ownership.unit,
        last_used,
        size,
        unit_dir: ownership.unit_dir,
        paths: ownership.paths,
    }
}

/// The size that a fresh use takes over from the record found on disk.
pub open spec fn kept_size(ownership: OwnershipModel, previous: Option<RecordModel>) -> Option<u64> {
    match previous {
        Some(record) if supported(record) && describes(record, ownership) => record.size,
        _ => None,
    }
}

/// The view of an optional record.
pub open spec fn optional_record(r: Option<OutputRecord>) -> Option<RecordModel> {
    match r {
        None => None,
        Some(record) => Some(record@),
    }
}

fn same_path_list(a: &Vec<PathBuf>, b: &Vec<PathBuf>) -> (r: bool)
    ensures
        r == same_paths(views(a@), views(b@)),
{
    if a.len() != b.len() {
        return false;
    }
    let mut i: usize = 0;
    while i < a.len()
        invariant
            i <= a@.len(),
            a@.len() == b@.len(),
            forall|k: int| 0 <= k < i ==> same_path(#[trigger] views(a@)[k], views(b@)[k]),
        decreases a@.len() - i,
    {
        if !a[i].is_same(&b[i]) {
            assert(!same_path(views(a@)[i as int], views(b@)[i as int]));
            return false;
        }
        i = i + 1;
    }
    true
}

impl OutputOwnership {
    /// Describes what a unit owns. Paths in the unit's directory need not be
    /// listed and are dropped, as are paths below others.
    pub fn new(
        build_root: &PathBuf,
        target_root: &PathBuf,
        package: &str,
        unit: &str,
        unit_dir: Option<PathBuf>,
        paths: Vec<PathBuf>,
    ) -> (r: Result<Self, OwnershipError>)
        ensures
            r is Ok <==> ownership_fault(
                build_root@,
                target_root@,
                package@,
                unit@,
                optional_path(unit_dir),
                views(paths@),
            ) is None,
            r matches Err(e) ==> e@ == ownership_fault(
                build_root@,
                target_root@,
                package@,
                unit@,
                optional_path(unit_dir),
                views(paths@),
            )->0,
            r matches Ok(ownership) ==> ownership@ == (OwnershipModel {
                build_root: build_root@,
                package: package@,
                unit: unit@,
                unit_dir: optional_path(unit_dir),
                paths: sidecars(views(paths@), optional_path(unit_dir)),
            }),
    {
        match validate_ownership(build_root, target_root, package, unit, &unit_dir, &paths) {
            Err(e) => Err(e),
            Ok(()) => {
                let kept = match &unit_dir {
                    None => paths,
                    Some(dir) => drop_below(paths, dir),
                };
                Ok(
                    OutputOwnership {
                        build_root: build_root.clone(),
                        package: package.to_string(),
                        unit: unit.to_string(),
                        unit_dir,
                        paths: minimal_paths(kept),
                    },
                )
            },
        }
    }

    /// Where the unit's record is kept.
    pub fn record_path(&self) -> (r: PathBuf)
        ensures
            r@ == record_path_of(self@.build_root, self@.package, self@.unit),
    {
        record_path(&self.build_root, self.package.as_str(), self.unit.as_str())
    }

    /// The record of a cache hit at `now`. A size measured for this very
    /// ownership is kept; any other description found on disk is replaced.
    pub fn mark_used(&self, previous: &Option<OutputRecord>, now: u64) -> (r: OutputRecord)
        ensures
            r@ == record_for(self@, now, kept_size(self@, optional_record(*previous))),
    {
        let size: Option<u64> = match previous {
            Some(record) => if record.is_supported() && record.has_ownership(self) {
                record.size
            } else {
                None
            },
            None => None,
        };
        self.write(now, size)
    }

    /// The record of a build completed at `now`, whose size is not known.
    pub fn record_build(&self, now: u64) -> (r: OutputRecord)
        ensures
            r@ == record_for(self@, now, None),
    {
        self.write(now, None)
    }

    fn write(&self, now: u64, size: Option<u64>) -> (r: OutputRecord)
        ensures
            r@ == record_for(self@, now, size),
    {
        OutputRecord {
            version: OUTPUT_FORMAT_VERSION,
            package: self.package.clone(),
            unit: self.unit.clone(),
            last_used: now,
            size,
            unit_dir: copy_optional(&self.unit_dir),
            paths: copy_paths(&self.paths),
        }
    }
}

/// The directories named after the unit that contain one of `paths` and lie
/// in `build_root`, as often as they are found.
pub open spec fn unit_dir_candidates(
    build_root: Seq<u8>,
    package: Seq<char>,
    unit: Seq<char>,
    paths: Seq<Seq<u8>>,
) -> Seq<Seq<u8>>
    decreases paths.len(),
{
    if paths.len() == 0 {
        paths
    } else {
        unit_dir_candidates(build_root, package, unit, paths.drop_last()) + unit_dirs_among(
            build_root,
            package,
            unit,
            ancestors(paths.last()),
        )
    }
}

/// Those of `dirs` that lie in `build_root` and are named after the unit.
pub open spec fn unit_dirs_among(
    build_root: Seq<u8>,
    package: Seq<char>,
    unit: Seq<char>,
    dirs: Seq<Seq<u8>>,
) -> Seq<Seq<u8>>
    decreases dirs.len(),
{
    if dirs.len() == 0 {
        dirs
    } else {
        let before = unit_dirs_among(build_root, package, unit, dirs.drop_last());
        if starts_with(dirs.last(), build_root) && is_unit_dir(dirs.last(), package, unit) {
            before.push(dirs.last())
        } else {
            before
        }
    }
}

/// The one directory among the candidates, in its last spelling.
pub open spec fn only_one(candidates: Seq<Seq<u8>>) -> Option<Seq<u8>> {
    if candidates.len() > 0 && forall|i: int|
        0 <= i < candidates.len() ==> same_path(#[trigger] candidates[i], candidates[0]) {
        Some(candidates.last())
    } else {
        None
    }
}

/// The unit directory that a list of outputs points to, where it points to
/// exactly one.
pub open spec fn inferred_unit_dir(
    build_root: Seq<u8>,
    package: Seq<char>,
    unit: Seq<char>,
    paths: Seq<Seq<u8>>,
) -> Option<Seq<u8>> {
    only_one(unit_dir_candidates(build_root, package, unit, paths))
}

/// A legacy record with its unit directory filled in, where one is found.
pub open spec fn upgraded(record: RecordModel, build_root: Seq<u8>) -> Option<RecordModel> {
    if record.version != LEGACY_OUTPUT_FORMAT_VERSION || record.unit_dir is Some {
        None
    } else {
        match inferred_unit_dir(build_root, record.package, record.unit, record.paths) {
            None => None,
            Some(dir) => Some(
                RecordModel {
                    version: OUTPUT_FORMAT_VERSION,
                    size: None,
                    paths: sidecars(record.paths, Some(dir)),
                    unit_dir: Some(dir),
                    ..record
                },
            ),
        }
    }
}

/// Everything that a record owns, the unit directory first.
pub open spec fn all_owned(record: RecordModel) -> Seq<Seq<u8>> {
    match record.unit_dir {
        None => record.paths,
        Some(dir) => seq![dir] + record.paths,
    }
}

/// What is removed together with a record.
pub open spec fn owned_paths_of(record: RecordModel) -> Seq<Seq<u8>> {
    minimal_paths_of(all_owned(record))
}

/// The directories of the unit that contain `path` and lie in `build_root`.
fn unit_dirs_of(path: &PathBuf, build_root: &PathBuf, package: &str, unit: &str) -> (r: Vec<PathBuf>)
    ensures
        views(r@) == unit_dirs_among(build_root@, package@, unit@, ancestors(path@)),
{
    let dirs = path.ancestors();
    let ghost all = views(dirs@);
    let mut found: Vec<PathBuf> = Vec::new();
    let mut i: usize = 0;
    assert(views(found@) =~= unit_dirs_among(build_root@, package@, unit@, all.take(0)));
    while i < dirs.len()
        invariant
            i <= dirs@.len(),
            all == views(dirs@),
            views(found@) == unit_dirs_among(build_root@, package@, unit@, all.take(i as int)),
        decreases dirs@.len() - i,
    {
        proof {
            assert(all.take(i + 1).drop_last() =~= all.take(i as int));
            assert(all.take(i + 1).last() == dirs@[i as int]@);
        }
        let ghost before = found@;
        if dirs[i].starts_with(build_root) && unit_dir_matches(&dirs[i], package, unit) {
            found.push(dirs[i].clone());
            assert(views(found@) =~= views(before).push(dirs@[i as int]@));
        }
        i = i + 1;
    }
    assert(all.take(i as int) =~= all);
    found
}

/// The unit directory that a list of outputs points to, where it points to
/// exactly one.
pub fn infer_unit_dir(build_root: &PathBuf, package: &str, unit: &str, paths: &Vec<PathBuf>) -> (r:
    Option<PathBuf>)
    ensures
        optional_path(r) == inferred_unit_dir(build_root@, package@, unit@, views(paths@)),
{
    let ghost all = views(paths@);
    let mut candidates: Vec<PathBuf> = Vec::new();
    let mut i: usize = 0;
    assert(views(candidates@) =~= unit_dir_candidates(
        build_root@,
        package@,
        unit@,
        all.take(0),
    ));
    while i < paths.len()
        invariant
            i <= paths@.len(),
            all == views(paths@),
            views(candidates@) == unit_dir_candidates(
                build_root@,
                package@,
                unit@,
                all.take(i as int),
            ),
        decreases paths@.len() - i,
    {
        proof {
            assert(all.take(i + 1).drop_last() =~= all.take(i as int));
            assert(all.take(i + 1).last() == paths@[i as int]@);
        }
        let mut found = unit_dirs_of(&paths[i], build_root, package, unit);
        let ghost before = candidates@;
        let ghost more = found@;
        candidates.append(&mut found);
        assert(views(candidates@) =~= views(before) + views(more));
        i = i + 1;
    }
    assert(all.take(i as int) =~= all);
    let n: usize = candidates.len();
    if n == 0 {
        return None;
    }
    let mut k: usize = 0;
    while k < n
        invariant
            k <= n,
            0 < n == candidates@.len(),
            views(candidates@) == unit_dir_candidates(
                build_root@,
                package@,
                unit@,
                views(paths@),
            ),
            forall|j: int|
                0 <= j < k ==> same_path(#[trigger] views(candidates@)[j], views(candidates@)[0]),
        decreases n - k,
    {
        if !candidates[k].is_same(&candidates[0]) {
            assert(!same_path(views(candidates@)[k as int], views(candidates@)[0]));
            return None;
        }
        k = k + 1;
    }
    assert(views(candidates@).last() == candidates@[n - 1]@);
    Some(candidates[n - 1].clone())
}

impl OutputRecord {
    /// Whether the record's format can be read.
    pub fn is_supported(&self) -> (r: bool)
        ensures
            r == supported(self@),
    {
        self.version == LEGACY_OUTPUT_FORMAT_VERSION || self.version == OUTPUT_FORMAT_VERSION
    }

    /// Whether the record describes this ownership.
    pub fn has_ownership(&self, ownership: &OutputOwnership) -> (r: bool)
        ensures
            r == describes(self@, ownership@),
    {
        let dirs: bool = match (&self.unit_dir, &ownership.unit_dir) {
            (None, None) => true,
            (Some(mine), Some(theirs)) => mine.is_same(theirs),
            _ => false,
        };
        text_equal(self.package.as_str(), ownership.package.as_str()) && text_equal(
            self.unit.as_str(),
            ownership.unit.as_str(),
        ) && dirs && same_path_list(&self.paths, &ownership.paths)
    }

    /// Fills in the unit directory of a legacy record, where its outputs point
    /// to one, and says whether that happened.
    pub fn upgrade_ownership(&mut self, build_root: &PathBuf) -> (r: bool)
        ensures
            r == (upgraded(old(self)@, build_root@) is Some),
            r ==> final(self)@ == upgraded(old(self)@, build_root@)->0,
            !r ==> *final(self) == *old(self),
    {
        if self.version != LEGACY_OUTPUT_FORMAT_VERSION || self.unit_dir.is_some() {
            return false;
        }
        match infer_unit_dir(
            build_root,
            self.package.as_str(),
            self.unit.as_str(),
            &self.paths,
        ) {
            None => false,
            Some(dir) => {
                self.version = OUTPUT_FORMAT_VERSION;
                self.size = None;
                self.paths = minimal_paths(drop_below(copy_paths(&self.paths), &dir));
                self.unit_dir = Some(dir);
                true
            },
        }
    }

    /// The paths to remove together with the record.
    pub fn owned_paths(&self) -> (r: Vec<PathBuf>)
        ensures
            views(r@) == owned_paths_of(self@),
    {
        let mut all: Vec<PathBuf> = Vec::new();
        if let Some(dir) = &self.unit_dir {
            all.push(dir.clone());
        }
        let mut rest = copy_paths(&self.paths);
        let ghost head = all@;
        let ghost tail = rest@;
        all.append(&mut rest);
        assert(views(all@) =~= views(head) + views(tail));
        assert(views(all@) =~= all_owned(self@));
        minimal_paths(all)
    }
}

/// Everything that an accepted record removes is absolute and lies strictly
/// below the build root or the target root, and nothing is listed twice.
pub proof fn owned_paths_stay_below_roots(
    build_root: Seq<u8>,
    target_root: Seq<u8>,
    record: RecordModel,
)
    requires
        ownership_fault(
            build_root,
            target_root,
            record.package,
            record.unit,
            record.unit_dir,
            record.paths,
        ) is None,
    ensures
        forall|p: Seq<u8>| #[trigger]
            owned_paths_of(record).contains(p) ==> is_absolute(p) && (strictly_below(p, build_root)
                || strictly_below(p, target_root)),
        forall|i: int|
            0 <= i < all_owned(record).len() ==> covered(
                #[trigger] all_owned(record)[i],
                owned_paths_of(record),
            ),
        disjoint_paths(owned_paths_of(record)),
{
    let roots = seq![build_root, target_root];
    let all = all_owned(record);
    minimal_paths_cover_without_overlap(all);
    first_outside_decides(record.paths, roots);
    assert(first_outside(record.paths, roots) is None);
    assert forall|p: Seq<u8>| #[trigger] owned_paths_of(record).contains(p) implies is_absolute(p)
        && (strictly_below(p, build_root) || strictly_below(p, target_root)) by {
        assert(all.contains(p));
        if record.unit_dir is Some && p == record.unit_dir->0 {
            assert(inside(p, seq![build_root]));
            let k = choose|k: int|
                0 <= k < seq![build_root].len() && strictly_below(
                    p,
                    #[trigger] seq![build_root][k],
                );
            assert(seq![build_root][k] == build_root);
        } else {
            let k = choose|k: int| 0 <= k < all.len() && all[k] == p;
            let j = if record.unit_dir is Some {
                k - 1
            } else {
                k
            };
            assert(record.paths[j] == p);
            assert(inside(record.paths[j], roots));
            let m = choose|m: int| 0 <= m < roots.len() && strictly_below(p, #[trigger] roots[m]);
            assert(roots[m] == build_root || roots[m] == target_root);
        }
    }
}

/// A record written for an ownership describes it, and a fresh use of it keeps
/// the size that was measured.
pub proof fn fresh_use_keeps_measured_size(
    ownership: OwnershipModel,
    last_used: u64,
    size: Option<u64>,
)
    ensures
        describes(record_for(ownership, last_used, size), ownership),
        kept_size(ownership, Some(record_for(ownership, last_used, size))) == size,
{
}

/// An upgraded record is current, so it is upgraded only once. Its unit
/// directory lies in the build root, is the unit's own and contains an output
/// of the legacy record; and every output of that record is still owned.
pub proof fn upgrade_keeps_ownership(record: RecordModel, build_root: Seq<u8>)
    requires
        upgraded(record, build_root) is Some,
    ensures
        ({
            let after = upgraded(record, build_root)->0;
            &&& supported(after)
            &&& upgraded(after, build_root) is None
            &&& after.size is None
            &&& after.unit_dir matches Some(dir) && {
                &&& starts_with(dir, build_root)
                &&& is_unit_dir(dir, record.package, record.unit)
                &&& exists|i: int|
                    0 <= i < record.paths.len() && starts_with(#[trigger] record.paths[i], dir)
            }
            &&& forall|i: int|
                0 <= i < record.paths.len() ==> covered(
                    #[trigger] record.paths[i],
                    owned_paths_of(after),
                )
        }),
{
    let after = upgraded(record, build_root)->0;
    let dir = after.unit_dir->0;
    let candidates = unit_dir_candidates(build_root, record.package, record.unit, record.paths);
    assert(candidates.contains(candidates[candidates.len() - 1]));
    lemma_candidates(build_root, record.package, record.unit, record.paths, dir);
    let outside = beside(record.paths, dir);
    lemma_beside(record.paths, dir);
    minimal_paths_cover_without_overlap(outside);
    let all = all_owned(after);
    minimal_paths_cover_without_overlap(all);
    assert forall|i: int| 0 <= i < record.paths.len() implies covered(
        #[trigger] record.paths[i],
        owned_paths_of(after),
    ) by {
        let p = record.paths[i];
        if starts_with(p, dir) {
            assert(all[0] == dir);
            lemma_covered_transitive(p, dir, owned_paths_of(after));
        } else {
            assert(outside.contains(p));
            let k = choose|k: int| 0 <= k < outside.len() && outside[k] == p;
            assert(covered(outside[k], after.paths));
            let j = choose|j: int|
                0 <= j < after.paths.len() && starts_with(p, #[trigger] after.paths[j]);
            assert(all[j + 1] == after.paths[j]);
            lemma_covered_transitive(p, all[j + 1], owned_paths_of(after));
        }
    }
}

proof fn lemma_covered_transitive(p: Seq<u8>, q: Seq<u8>, roots: Seq<Seq<u8>>)
    requires
        starts_with(p, q),
        covered(q, roots),
    ensures
        covered(p, roots),
{
    let k = choose|k: int| 0 <= k < roots.len() && starts_with(q, #[trigger] roots[k]);
    starts_with_is_partial_order(p, q, roots[k]);
}

pub(crate) proof fn lemma_beside(paths: Seq<Seq<u8>>, dir: Seq<u8>)
    ensures
        forall|p: Seq<u8>| #[trigger]
            beside(paths, dir).contains(p) <==> paths.contains(p) && !starts_with(p, dir),
    decreases paths.len(),
{
    if paths.len() > 0 {
        let init = paths.drop_last();
        lemma_beside(init, dir);
        let before = beside(init, dir);
        let after = beside(paths, dir);
        assert forall|p: Seq<u8>| #[trigger] after.contains(p) <==> paths.contains(p)
            && !starts_with(p, dir) by {
            assert(before.contains(p) <==> init.contains(p) && !starts_with(p, dir));
            if after.contains(p) {
                let k = choose|k: int| 0 <= k < after.len() && after[k] == p;
                if k < before.len() {
                    assert(before[k] == p);
                    assert(before.contains(p));
                    let j = choose|j: int| 0 <= j < init.len() && init[j] == p;
                    assert(paths[j] == p);
                } else {
                    assert(paths[paths.len() - 1] == p);
                }
            }
            if paths.contains(p) && !starts_with(p, dir) {
                let k = choose|k: int| 0 <= k < paths.len() && paths[k] == p;
                if k < init.len() {
                    assert(init[k] == p);
                    assert(init.contains(p));
                    let j = choose|j: int| 0 <= j < before.len() && before[j] == p;
                    assert(after[j] == p);
                } else {
                    assert(after[after.len() - 1] == p);
                }
            }
        }
    }
}

pub(crate) proof fn lemma_candidates(
    build_root: Seq<u8>,
    package: Seq<char>,
    unit: Seq<char>,
    paths: Seq<Seq<u8>>,
    dir: Seq<u8>,
)
    requires
        unit_dir_candidates(build_root, package, unit, paths).contains(dir),
    ensures
        starts_with(dir, build_root),
        is_unit_dir(dir, package, unit),
        exists|i: int| 0 <= i < paths.len() && starts_with(#[trigger] paths[i], dir),
    decreases paths.len(),
{
    let init = paths.drop_last();
    let before = unit_dir_candidates(build_root, package, unit, init);
    let here = unit_dirs_among(build_root, package, unit, ancestors(paths.last()));
    let all = unit_dir_candidates(build_root, package, unit, paths);
    assert(paths.len() > 0);
    assert(all == before + here);
    let k = choose|k: int| 0 <= k < all.len() && all[k] == dir;
    if k < before.len() {
        assert(before[k] == dir);
        lemma_candidates(build_root, package, unit, init, dir);
        let i = choose|i: int| 0 <= i < init.len() && starts_with(#[trigger] init[i], dir);
        assert(paths[i] == init[i]);
    } else {
        assert(here[k - before.len()] == dir);
        lemma_unit_dirs_among(build_root, package, unit, ancestors(paths.last()), dir);
        lemma_ancestors(paths.last(), dir);
        assert(starts_with(paths[paths.len() - 1], dir));
    }
}

proof fn lemma_unit_dirs_among(
    build_root: Seq<u8>,
    package: Seq<char>,
    unit: Seq<char>,
    dirs: Seq<Seq<u8>>,
    dir: Seq<u8>,
)
    requires
        unit_dirs_among(build_root, package, unit, dirs).contains(dir),
    ensures
        starts_with(dir, build_root),
        is_unit_dir(dir, package, unit),
        dirs.contains(dir),
    decreases dirs.len(),
{
    assert(dirs.len() > 0);
    let init = dirs.drop_last();
    let before = unit_dirs_among(build_root, package, unit, init);
    let all = unit_dirs_among(build_root, package, unit, dirs);
    let k = choose|k: int| 0 <= k < all.len() && all[k] == dir;
    if k < before.len() {
        assert(before[k] == dir);
        lemma_unit_dirs_among(build_root, package, unit, init, dir);
        let i = choose|i: int| 0 <= i < init.len() && init[i] == dir;
        assert(dirs[i] == dir);
    } else {
        assert(dirs[dirs.len() - 1] == dir);
    }
}

proof fn lemma_ancestors(p: Seq<u8>, a: Seq<u8>)
    requires
        ancestors(p).contains(a),
    ensures
        starts_with(p, a),
    decreases spans(p).len(),
{
    starts_with_is_partial_order(p, p, p);
    match parent(p) {
        None => {
            assert(ancestors(p) == seq![p]);
            assert(a == p);
        },
        Some(q) => {
            lemma_parent_spans(p);
            assert(components(p).drop_last().is_prefix_of(components(p)));
            assert(starts_with(p, q));
            let rest = ancestors(q);
            let all = seq![p] + rest;
            assert(ancestors(p) == all);
            let k = choose|k: int| 0 <= k < all.len() && all[k] == a;
            if k > 0 {
                assert(rest[k - 1] == a);
                lemma_ancestors(q, a);
                starts_with_is_partial_order(p, q, a);
            }
        },
    }
}

/// Describing what was described changes nothing: the paths that an ownership
/// keeps are accepted again, and are kept as they are.
pub proof fn ownership_is_stable(
    build_root: Seq<u8>,
    target_root: Seq<u8>,
    package: Seq<char>,
    unit: Seq<char>,
    unit_dir: Option<Seq<u8>>,
    paths: Seq<Seq<u8>>,
)
    requires
        ownership_fault(build_root, target_root, package, unit, unit_dir, paths) is None,
    ensures
        ownership_fault(
            build_root,
            target_root,
            package,
            unit,
            unit_dir,
            sidecars(paths, unit_dir),
        ) is None,
        sidecars(sidecars(paths, unit_dir), unit_dir) == sidecars(paths, unit_dir),
{
    let roots = seq![build_root, target_root];
    let kept = sidecars(paths, unit_dir);
    let base = match unit_dir {
        None => paths,
        Some(dir) => beside(paths, dir),
    };
    minimal_paths_cover_without_overlap(base);
    minimal_paths_of_minimal(base);
    first_outside_decides(paths, roots);
    first_outside_decides(kept, roots);
    if unit_dir is Some {
        let dir = unit_dir->0;
        lemma_beside(paths, dir);
        assert forall|i: int| 0 <= i < kept.len() implies !starts_with(
            #[trigger] kept[i],
            dir,
        ) && paths.contains(kept[i]) by {
            assert(kept.contains(kept[i]));
            assert(base.contains(kept[i]));
        }
        lemma_beside_all(kept, dir);
        lemma_no_holding(paths, dir);
        assert forall|i: int| 0 <= i < kept.len() implies !starts_with(
            dir,
            #[trigger] kept[i],
        ) by {
            assert(paths.contains(kept[i]));
            let k = choose|k: int| 0 <= k < paths.len() && paths[k] == kept[i];
            assert(!starts_with(dir, paths[k]));
        }
        lemma_no_holding(kept, dir);
    }
    assert forall|i: int| 0 <= i < kept.len() implies inside(#[trigger] kept[i], roots) by {
        assert(kept.contains(kept[i]));
        assert(base.contains(kept[i]));
        if unit_dir is Some {
            assert(paths.contains(kept[i]));
        }
        let k = choose|k: int| 0 <= k < paths.len() && paths[k] == kept[i];
        assert(inside(paths[k], roots));
    }
}

proof fn lemma_beside_all(paths: Seq<Seq<u8>>, dir: Seq<u8>)
    requires
        forall|i: int| 0 <= i < paths.len() ==> !starts_with(#[trigger] paths[i], dir),
    ensures
        beside(paths, dir) == paths,
    decreases paths.len(),
{
    if paths.len() > 0 {
        let init = paths.drop_last();
        assert forall|i: int| 0 <= i < init.len() implies !starts_with(
            #[trigger] init[i],
            dir,
        ) by {
            assert(!starts_with(paths[i], dir));
        }
        lemma_beside_all(init, dir);
        assert(!starts_with(paths[paths.len() - 1], dir));
        assert(init.push(paths.last()) =~= paths);
    }
}

pub(crate) proof fn lemma_no_holding(paths: Seq<Seq<u8>>, dir: Seq<u8>)
    ensures
        first_holding(paths, dir) is None <==> forall|i: int|
            0 <= i < paths.len() ==> !starts_with(dir, #[trigger] paths[i]),
    decreases paths.len(),
{
    if paths.len() > 0 {
        let init = paths.drop_last();
        lemma_no_holding(init, dir);
        if first_holding(paths, dir) is None {
            assert forall|i: int| 0 <= i < paths.len() implies !starts_with(
                dir,
                #[trigger] paths[i],
            ) by {
                if i < init.len() {
                    assert(!starts_with(dir, init[i]));
                }
            }
        }
        if forall|i: int| 0 <= i < paths.len() ==> !starts_with(dir, #[trigger] paths[i]) {
            assert forall|i: int| 0 <= i < init.len() implies !starts_with(
                dir,
                #[trigger] init[i],
            ) by {
                assert(!starts_with(dir, paths[i]));
            }
            assert(!starts_with(dir, paths[paths.len() - 1]));
        }
    }
}

} // verus!
