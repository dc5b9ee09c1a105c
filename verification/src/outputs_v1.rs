//! Output records in their first format, which list every path of a unit and
//! know no sizes. They are removed by age alone.

use vstd::prelude::*;

use crate::clean::{less, outputs_root, records_root, Effect, EffectModel, LastUsedRecord};
use crate::order::views;
use crate::outputs::{record_path, record_path_of, OwnershipError, OwnershipFault};
use crate::path::{is_absolute, starts_with};
use crate::path_buf::PathBuf;
use crate::path_set::{copy_paths, covered};

verus! {

/// The format of these records, and of the variant records kept beside them.
pub const FORMAT_VERSION: u32 = 1;

/// A retained unit's record on disk.
#[derive(Debug, PartialEq, Eq)]
pub struct OutputRecord {
    pub version: u32,
    pub package: String,
    pub unit: String,
    pub last_used: u64,
    pub paths: Vec<PathBuf>,
}

/// What a record says.
#[verifier::ext_equal]
pub struct RecordModel {
    pub version: u32,
    pub package: Seq<char>,
    pub unit: Seq<char>,
    pub last_used: u64,
    pub paths: Seq<Seq<u8>>,
}

impl View for OutputRecord {
    type V = RecordModel;

    open spec fn view(&self) -> RecordModel {
        RecordModel {
            version: self.version,
            package: self.package@,
            unit: self.unit@,
            last_used: self.last_used,
            paths: views(self.paths@),
        }
    }
}

impl Clone for OutputRecord {
    fn clone(&self) -> (r: Self)
        ensures
            r@ == self@,
    {
        OutputRecord {
            version: self.version,
            package: self.package.clone(),
            unit: self.unit.clone(),
            last_used: self.last_used,
            paths: copy_paths(&self.paths),
        }
    }
}

/// The view of an optional record.
pub open spec fn optional_record(r: Option<OutputRecord>) -> Option<RecordModel> {
    match r {
        None => None,
        Some(record) => Some(record@),
    }
}

/// `p` is absolute, and is one of `roots` or lies below one.
pub open spec fn within(p: Seq<u8>, roots: Seq<Seq<u8>>) -> bool {
    is_absolute(p) && covered(p, roots)
}

/// The first path that is not within `roots`.
pub open spec fn first_beyond(paths: Seq<Seq<u8>>, roots: Seq<Seq<u8>>) -> Option<Seq<u8>>
    decreases paths.len(),
{
    if paths.len() == 0 {
        None
    } else {
        match first_beyond(paths.drop_last(), roots) {
            Some(p) => Some(p),
            None => if within(paths.last(), roots) {
                None
            } else {
                Some(paths.last())
            },
        }
    }
}

/// Every path is within the roots exactly where none is found beyond them.
pub proof fn first_beyond_decides(paths: Seq<Seq<u8>>, roots: Seq<Seq<u8>>)
    ensures
        first_beyond(paths, roots) is None <==> forall|i: int|
            0 <= i < paths.len() ==> within(#[trigger] paths[i], roots),
        first_beyond(paths, roots) matches Some(p) ==> paths.contains(p) && !within(p, roots),
    decreases paths.len(),
{
    if paths.len() > 0 {
        let init = paths.drop_last();
        first_beyond_decides(init, roots);
        if first_beyond(init, roots) is Some {
            let p = first_beyond(init, roots)->0;
            let k = choose|k: int| 0 <= k < init.len() && init[k] == p;
            assert(paths[k] == p);
        } else if first_beyond(paths, roots) is Some {
            assert(paths[paths.len() - 1] == paths.last());
        } else {
            assert forall|i: int| 0 <= i < paths.len() implies within(
                #[trigger] paths[i],
                roots,
            ) by {
                if i < init.len() {
                    assert(within(init[i], roots));
                }
            }
        }
        if forall|i: int| 0 <= i < paths.len() ==> within(#[trigger] paths[i], roots) {
            assert(within(paths[paths.len() - 1], roots));
            assert forall|i: int| 0 <= i < init.len() implies within(
                #[trigger] init[i],
                roots,
            ) by {
                assert(within(paths[i], roots));
            }
        }
    }
}

proof fn lemma_first_beyond_extends(paths: Seq<Seq<u8>>, n: int, roots: Seq<Seq<u8>>)
    requires
        0 <= n <= paths.len(),
        first_beyond(paths.take(n), roots) is Some,
    ensures
        first_beyond(paths, roots) == first_beyond(paths.take(n), roots),
    decreases paths.len() - n,
{
    if n < paths.len() {
        assert(paths.take(n + 1).drop_last() =~= paths.take(n));
        lemma_first_beyond_extends(paths, n + 1, roots);
    } else {
        assert(paths.take(n) =~= paths);
    }
}

fn is_within(path: &PathBuf, roots: &[PathBuf]) -> (r: bool)
    ensures
        r == within(path@, views(roots@)),
{
    if !path.is_absolute() {
        return false;
    }
    let mut k: usize = 0;
    while k < roots.len()
        invariant
            k <= roots@.len(),
            is_absolute(path@),
            forall|j: int| 0 <= j < k ==> !starts_with(path@, #[trigger] views(roots@)[j]),
        decreases roots@.len() - k,
    {
        if path.starts_with(&roots[k]) {
            assert(starts_with(path@, views(roots@)[k as int]));
            return true;
        }
        k = k + 1;
    }
    false
}

/// Accepts paths that are absolute and not outside of all `roots`.
pub fn validate_paths(output_paths: &[PathBuf], roots: &[PathBuf]) -> (r: Result<
    (),
    OwnershipError,
>)
    ensures
        r is Ok <==> first_beyond(views(output_paths@), views(roots@)) is None,
        r matches Err(e) ==> e@ == OwnershipFault::Outside(
            first_beyond(views(output_paths@), views(roots@))->0,
        ),
{
    let mut i: usize = 0;
    let ghost all = views(output_paths@);
    while i < output_paths.len()
        invariant
            i <= output_paths@.len(),
            all == views(output_paths@),
            first_beyond(all.take(i as int), views(roots@)) is None,
        decreases output_paths@.len() - i,
    {
        proof {
            assert(all.take(i + 1).drop_last() =~= all.take(i as int));
            assert(all.take(i + 1).last() == output_paths@[i as int]@);
        }
        if !is_within(&output_paths[i], roots) {
            proof {
                lemma_first_beyond_extends(all, i + 1, views(roots@));
            }
            return Err(OwnershipError::Outside { path: output_paths[i].clone() });
        }
        i = i + 1;
    }
    assert(all.take(i as int) =~= all);
    Ok(())
}

/// The record of outputs built at `now`, and where to write it.
pub fn record(
    build_root: &PathBuf,
    package: &str,
    unit: &str,
    output_paths: Vec<PathBuf>,
    roots: &[PathBuf],
    now: u64,
) -> (r: Result<(PathBuf, OutputRecord), OwnershipError>)
    ensures
        r is Ok <==> first_beyond(views(output_paths@), views(roots@)) is None,
        r matches Err(e) ==> e@ == OwnershipFault::Outside(
            first_beyond(views(output_paths@), views(roots@))->0,
        ),
        r matches Ok((path, written)) ==> {
            &&& path@ == record_path_of(build_root@, package@, unit@)
            &&& written@ == (RecordModel {
                version: FORMAT_VERSION,
                package: package@,
                unit: unit@,
                last_used: now,
                paths: views(output_paths@),
            })
        },
{
    match validate_paths(output_paths.as_slice(), roots) {
        Err(e) => Err(e),
        Ok(()) => Ok(
            (
                record_path(build_root, package, unit),
                OutputRecord {
                    version: FORMAT_VERSION,
                    package: package.to_string(),
                    unit: unit.to_string(),
                    last_used: now,
                    paths: output_paths,
                },
            ),
        ),
    }
}

/// What to write back when a unit is used at `now` and `read` was found in its
/// record's file: the record with its new time, or nothing where the file holds
/// no current record and is to be removed.
pub fn touch(read: Option<OutputRecord>, now: u64) -> (r: Option<OutputRecord>)
    ensures
        optional_record(r) == match optional_record(read) {
            Some(record) if record.version == FORMAT_VERSION => Some(
                RecordModel { last_used: now, ..record },
            ),
            _ => None,
        },
{
    match read {
        Some(found) => if found.version == FORMAT_VERSION {
            let mut touched = found;
            touched.last_used = now;
            Some(touched)
        } else {
            None
        },
        None => None,
    }
}

/// How far a run has come.
pub enum StageModel {
    /// The output records are being found.
    Listing,
    /// These output records are still to be read.
    Reading(Seq<Seq<u8>>),
    /// The variant records are being found.
    ListingRecords,
    /// These variant records are still to be read.
    Records(Seq<Seq<u8>>),
    /// The run has ended.
    Ended,
}

/// The state of a run that removes what was last used at the cutoff or before.
#[verifier::ext_equal]
pub struct ExpiryModel {
    pub build_root: Seq<u8>,
    pub target_root: Seq<u8>,
    pub cutoff: u64,
    pub dry_run: bool,
    pub stage: StageModel,
    pub removed: Seq<Seq<u8>>,
}

/// What the caller has to look at next, or how the run has ended.
pub enum Request {
    /// Find the record files in the tree at this directory.
    List { root: PathBuf },
    /// Read this output record.
    ReadOutput { path: PathBuf },
    /// Read when this variant record was last used.
    ReadLastUsed { path: PathBuf },
    /// The run is complete, and has removed this.
    Finished { removed: Vec<PathBuf> },
    /// A record claims what no unit may own.
    Refused { error: OwnershipError },
}

/// What the caller has to look at next, or how the run has ended.
pub enum RequestModel {
    List(Seq<u8>),
    ReadOutput(Seq<u8>),
    ReadLastUsed(Seq<u8>),
    Finished(Seq<Seq<u8>>),
    Refused(OwnershipFault),
}

impl View for Request {
    type V = RequestModel;

    open spec fn view(&self) -> RequestModel {
        match *self {
            Request::List { root } => RequestModel::List(root@),
            Request::ReadOutput { path } => RequestModel::ReadOutput(path@),
            Request::ReadLastUsed { path } => RequestModel::ReadLastUsed(path@),
            Request::Finished { removed } => RequestModel::Finished(views(removed@)),
            Request::Refused { error } => RequestModel::Refused(error@),
        }
    }
}

/// What the caller has seen.
pub enum Observation {
    /// The record files found, in path order.
    Files { paths: Vec<PathBuf> },
    /// The output record, where the file holds one.
    Record { record: Option<OutputRecord> },
    /// The variant record, where the file holds one.
    LastUsed { variant: Option<LastUsedRecord> },
}

/// What the caller has seen.
pub enum ObservationModel {
    Files(Seq<Seq<u8>>),
    Record(Option<RecordModel>),
    LastUsed(Option<LastUsedRecord>),
}

impl View for Observation {
    type V = ObservationModel;

    open spec fn view(&self) -> ObservationModel {
        match *self {
            Observation::Files { paths } => ObservationModel::Files(views(paths@)),
            Observation::Record { record } => ObservationModel::Record(optional_record(record)),
            Observation::LastUsed { variant } => ObservationModel::LastUsed(variant),
        }
    }
}

/// The outcome of one step: the state reached, the changes to make, and what to
/// look at next.
pub struct StepModel {
    pub state: ExpiryModel,
    pub effects: Seq<EffectModel>,
    pub request: RequestModel,
}

/// What becomes of an output record that was read.
pub enum Verdict {
    /// It cannot be used, and is removed without a word.
    Discard,
    /// It was used lately.
    Keep,
    /// It claims a path that no unit may own.
    Refuse(Seq<u8>),
    /// It goes, with these paths.
    Remove(Seq<Seq<u8>>),
}

/// What becomes of an output record that was read.
pub open spec fn verdict(m: ExpiryModel, record: Option<RecordModel>) -> Verdict {
    match record {
        Some(read) if read.version == FORMAT_VERSION => if read.last_used > m.cutoff {
            Verdict::Keep
        } else {
            match first_beyond(read.paths, seq![m.build_root, m.target_root]) {
                Some(p) => Verdict::Refuse(p),
                None => Verdict::Remove(read.paths),
            }
        },
        _ => Verdict::Discard,
    }
}

/// A variant record that is dropped: it cannot be read, has another format, or
/// has not been used since the cutoff.
pub open spec fn is_stale(record: Option<LastUsedRecord>, cutoff: u64) -> bool {
    match record {
        Some(r) => r.version != FORMAT_VERSION || r.last_used <= cutoff,
        None => true,
    }
}

/// The changes that remove an output and its record.
pub open spec fn removal(paths: Seq<Seq<u8>>, file: Seq<u8>) -> Seq<EffectModel> {
    Seq::new(paths.len(), |k: int| EffectModel::RemovePath(paths[k])) + seq![
        EffectModel::RemoveFile(file),
    ]
}

/// Changes, or none in a dry run.
pub open spec fn unless_dry(dry_run: bool, effects: Seq<EffectModel>) -> Seq<EffectModel> {
    if dry_run {
        Seq::empty()
    } else {
        effects
    }
}

/// Goes on to the next output record, or to the variant records.
pub open spec fn read_on(m: ExpiryModel, files: Seq<Seq<u8>>, effects: Seq<EffectModel>) -> StepModel {
    if files.len() > 0 {
        StepModel {
            state: ExpiryModel { stage: StageModel::Reading(files), ..m },
            effects,
            request: RequestModel::ReadOutput(files[0]),
        }
    } else {
        StepModel {
            state: ExpiryModel { stage: StageModel::ListingRecords, ..m },
            effects,
            request: RequestModel::List(records_root(m.build_root)),
        }
    }
}

/// Goes on to the next variant record; where there is none, reports.
pub open spec fn records_on(m: ExpiryModel, files: Seq<Seq<u8>>, effects: Seq<EffectModel>) -> StepModel {
    if files.len() > 0 {
        StepModel {
            state: ExpiryModel { stage: StageModel::Records(files), ..m },
            effects,
            request: RequestModel::ReadLastUsed(files[0]),
        }
    } else {
        StepModel {
            state: ExpiryModel { stage: StageModel::Ended, ..m },
            effects,
            request: RequestModel::Finished(m.removed),
        }
    }
}

/// The observation answers what the stage waits for.
pub open spec fn expects(stage: StageModel, seen: ObservationModel) -> bool {
    match stage {
        StageModel::Listing | StageModel::ListingRecords => seen is Files,
        StageModel::Reading(_) => seen is Record,
        StageModel::Records(_) => seen is LastUsed,
        StageModel::Ended => false,
    }
}

/// One step of a run.
pub open spec fn step(m: ExpiryModel, seen: ObservationModel) -> StepModel {
    match (m.stage, seen) {
        (StageModel::Listing, ObservationModel::Files(files)) => read_on(m, files, Seq::empty()),
        (StageModel::Reading(files), ObservationModel::Record(record)) => {
            let rest = files.skip(1);
            match verdict(m, record) {
                Verdict::Discard => read_on(
                    m,
                    rest,
                    unless_dry(m.dry_run, seq![EffectModel::RemoveFile(files[0])]),
                ),
                Verdict::Keep => read_on(m, rest, Seq::empty()),
                Verdict::Refuse(p) => StepModel {
                    state: ExpiryModel { stage: StageModel::Ended, ..m },
                    effects: Seq::empty(),
                    request: RequestModel::Refused(OwnershipFault::Outside(p)),
                },
                Verdict::Remove(paths) => read_on(
                    ExpiryModel { removed: m.removed + paths + seq![files[0]], ..m },
                    rest,
                    unless_dry(m.dry_run, removal(paths, files[0])),
                ),
            }
        },
        (StageModel::ListingRecords, ObservationModel::Files(files)) => records_on(
            m,
            files,
            Seq::empty(),
        ),
        (StageModel::Records(files), ObservationModel::LastUsed(record)) => {
            let rest = files.skip(1);
            if is_stale(record, m.cutoff) {
                records_on(
                    ExpiryModel { removed: m.removed.push(files[0]), ..m },
                    rest,
                    unless_dry(m.dry_run, seq![EffectModel::RemoveFile(files[0])]),
                )
            } else {
                records_on(m, rest, Seq::empty())
            }
        },
        _ => StepModel {
            state: m,
            effects: Seq::empty(),
            request: RequestModel::List(outputs_root(m.build_root)),
        },
    }
}

/// The state that a run starts in.
pub open spec fn start(build_root: Seq<u8>, target_root: Seq<u8>, cutoff: u64, dry_run: bool) -> ExpiryModel {
    ExpiryModel {
        build_root,
        target_root,
        cutoff,
        dry_run,
        stage: StageModel::Listing,
        removed: Seq::empty(),
    }
}

enum Stage {
    Listing,
    Reading { files: Vec<PathBuf> },
    ListingRecords,
    Records { files: Vec<PathBuf> },
    Ended,
}

impl View for Stage {
    type V = StageModel;

    closed spec fn view(&self) -> StageModel {
        match *self {
            Stage::Listing => StageModel::Listing,
            Stage::Reading { files } => StageModel::Reading(views(files@)),
            Stage::ListingRecords => StageModel::ListingRecords,
            Stage::Records { files } => StageModel::Records(views(files@)),
            Stage::Ended => StageModel::Ended,
        }
    }
}

/// A run that removes outputs by age.
pub struct Expiry {
    build_root: PathBuf,
    target_root: PathBuf,
    cutoff: u64,
    dry_run: bool,
    stage: Stage,
    removed: Vec<PathBuf>,
}

/// The changes to make now, and what to look at next.
pub struct Step {
    pub effects: Vec<Effect>,
    pub request: Request,
}

impl View for Expiry {
    type V = ExpiryModel;

    closed spec fn view(&self) -> ExpiryModel {
        ExpiryModel {
            build_root: self.build_root@,
            target_root: self.target_root@,
            cutoff: self.cutoff,
            dry_run: self.dry_run,
            stage: self.stage@,
            removed: views(self.removed@),
        }
    }
}

impl Expiry {
    /// There is a file where one is being read.
    pub open spec fn well_formed(&self) -> bool {
        match self@.stage {
            StageModel::Reading(files) => files.len() > 0,
            StageModel::Records(files) => files.len() > 0,
            _ => true,
        }
    }

    fn read_files(&mut self, files: Vec<PathBuf>, effects: Vec<Effect>) -> (r: Step)
        ensures
            final(self).well_formed(),
            final(self)@ == read_on(old(self)@, views(files@), views(effects@)).state,
            views(r.effects@) == views(effects@),
            r.request@ == read_on(old(self)@, views(files@), views(effects@)).request,
    {
        if files.len() > 0 {
            let path = files[0].clone();
            assert(views(files@)[0] == files@[0]@);
            self.stage = Stage::Reading { files };
            Step { effects, request: Request::ReadOutput { path } }
        } else {
            self.stage = Stage::ListingRecords;
            Step {
                effects,
                request: Request::List {
                    root: self.build_root.join_text(".input-variants/v1/records"),
                },
            }
        }
    }

    fn read_records(&mut self, files: Vec<PathBuf>, effects: Vec<Effect>) -> (r: Step)
        ensures
            final(self).well_formed(),
            final(self)@ == records_on(old(self)@, views(files@), views(effects@)).state,
            views(r.effects@) == views(effects@),
            r.request@ == records_on(old(self)@, views(files@), views(effects@)).request,
    {
        if files.len() > 0 {
            let path = files[0].clone();
            assert(views(files@)[0] == files@[0]@);
            self.stage = Stage::Records { files };
            Step { effects, request: Request::ReadLastUsed { path } }
        } else {
            self.stage = Stage::Ended;
            Step { effects, request: Request::Finished { removed: copy_paths(&self.removed) } }
        }
    }

    /// Removes an output and its record.
    fn remove_output(&mut self, paths: &Vec<PathBuf>, file: &PathBuf) -> (r: Vec<Effect>)
        ensures
            final(self)@ == (ExpiryModel {
                removed: old(self)@.removed + views(paths@) + seq![file@],
                ..old(self)@
            }),
            views(r@) == unless_dry(old(self)@.dry_run, removal(views(paths@), file@)),
    {
        let ghost before = views(self.removed@);
        let ghost all = removal(views(paths@), file@);
        let mut effects: Vec<Effect> = Vec::new();
        let mut k: usize = 0;
        assert(views(effects@) =~= unless_dry(self.dry_run, all.take(0)));
        assert(before =~= before + views(paths@).take(0));
        while k < paths.len()
            invariant
                k <= paths@.len(),
                all == removal(views(paths@), file@),
                views(self.removed@) == before + views(paths@).take(k as int),
                views(effects@) == unless_dry(self.dry_run, all.take(k as int)),
                self.build_root == old(self).build_root,
                self.target_root == old(self).target_root,
                self.cutoff == old(self).cutoff,
                self.dry_run == old(self).dry_run,
                self.stage == old(self).stage,
            decreases paths@.len() - k,
        {
            let ghost r = self.removed@;
            let ghost e = effects@;
            self.removed.push(paths[k].clone());
            proof {
                assert(views(self.removed@) =~= views(r).push(paths@[k as int]@));
                assert(views(self.removed@) =~= before + views(paths@).take(k + 1));
            }
            if !self.dry_run {
                effects.push(Effect::RemovePath { path: paths[k].clone() });
                proof {
                    assert(views(effects@) =~= views(e).push(
                        EffectModel::RemovePath(paths@[k as int]@),
                    ));
                    assert(all[k as int] == EffectModel::RemovePath(views(paths@)[k as int]));
                    assert(views(effects@) =~= all.take(k + 1));
                }
            }
            k = k + 1;
        }
        let ghost r = self.removed@;
        let ghost e = effects@;
        self.removed.push(file.clone());
        proof {
            assert(views(paths@).take(k as int) =~= views(paths@));
            assert(views(self.removed@) =~= views(r).push(file@));
            assert(views(self.removed@) =~= before + views(paths@) + seq![file@]);
        }
        if !self.dry_run {
            effects.push(Effect::RemoveFile { path: file.clone() });
            proof {
                assert(views(effects@) =~= views(e).push(EffectModel::RemoveFile(file@)));
                assert(all[k as int] == EffectModel::RemoveFile(file@));
                assert(views(effects@) =~= all);
            }
        }
        effects
    }

    /// Takes in the output record read from `path`, with `rest` still to read.
    fn take_record(&mut self, path: PathBuf, record: Option<OutputRecord>, rest: Vec<PathBuf>) -> (r:
        Step)
        ensures
            final(self).well_formed(),
            ({
                let m = old(self)@;
                let s = match verdict(m, optional_record(record)) {
                    Verdict::Discard => read_on(
                        m,
                        views(rest@),
                        unless_dry(m.dry_run, seq![EffectModel::RemoveFile(path@)]),
                    ),
                    Verdict::Keep => read_on(m, views(rest@), Seq::empty()),
                    Verdict::Refuse(p) => StepModel {
                        state: ExpiryModel { stage: StageModel::Ended, ..m },
                        effects: Seq::empty(),
                        request: RequestModel::Refused(OwnershipFault::Outside(p)),
                    },
                    Verdict::Remove(paths) => read_on(
                        ExpiryModel { removed: m.removed + paths + seq![path@], ..m },
                        views(rest@),
                        unless_dry(m.dry_run, removal(paths, path@)),
                    ),
                };
                &&& final(self)@ == s.state
                &&& views(r.effects@) == s.effects
                &&& r.request@ == s.request
            }),
    {
        let mut effects: Vec<Effect> = Vec::new();
        assert(views(effects@) =~= Seq::<EffectModel>::empty());
        let current = match record {
            Some(read) => if read.version == FORMAT_VERSION {
                Some(read)
            } else {
                None
            },
            None => None,
        };
        match current {
            None => {
                if !self.dry_run {
                    effects.push(Effect::RemoveFile { path });
                    assert(views(effects@) =~= seq![EffectModel::RemoveFile(path@)]);
                }
                self.read_files(rest, effects)
            },
            Some(read) => {
                if read.last_used > self.cutoff {
                    return self.read_files(rest, effects);
                }
                let mut roots: Vec<PathBuf> = Vec::new();
                roots.push(self.build_root.clone());
                roots.push(self.target_root.clone());
                assert(views(roots@) =~= seq![self.build_root@, self.target_root@]);
                match validate_paths(read.paths.as_slice(), roots.as_slice()) {
                    Err(error) => {
                        self.stage = Stage::Ended;
                        Step { effects, request: Request::Refused { error } }
                    },
                    Ok(()) => {
                        let made = self.remove_output(&read.paths, &path);
                        self.read_files(rest, made)
                    },
                }
            },
        }
    }

    /// Takes in the variant record read from `path`, with `rest` still to read.
    fn sift(&mut self, path: PathBuf, record: Option<LastUsedRecord>, rest: Vec<PathBuf>) -> (r:
        Step)
        ensures
            final(self).well_formed(),
            ({
                let m = old(self)@;
                let s = if is_stale(record, m.cutoff) {
                    records_on(
                        ExpiryModel { removed: m.removed.push(path@), ..m },
                        views(rest@),
                        unless_dry(m.dry_run, seq![EffectModel::RemoveFile(path@)]),
                    )
                } else {
                    records_on(m, views(rest@), Seq::empty())
                };
                &&& final(self)@ == s.state
                &&& views(r.effects@) == s.effects
                &&& r.request@ == s.request
            }),
    {
        let mut effects: Vec<Effect> = Vec::new();
        assert(views(effects@) =~= Seq::<EffectModel>::empty());
        let dropped: bool = match record {
            Some(r) => r.version != FORMAT_VERSION || r.last_used <= self.cutoff,
            None => true,
        };
        if dropped {
            let ghost before = self.removed@;
            self.removed.push(path.clone());
            assert(views(self.removed@) =~= views(before).push(path@));
            if !self.dry_run {
                effects.push(Effect::RemoveFile { path });
                assert(views(effects@) =~= seq![EffectModel::RemoveFile(path@)]);
            }
        }
        self.read_records(rest, effects)
    }

    /// Takes in what the caller has seen, and says what to change and what to
    /// look at next.
    pub fn step(&mut self, seen: Observation) -> (r: Step)
        requires
            old(self).well_formed(),
            expects(old(self)@.stage, seen@),
        ensures
            final(self).well_formed(),
            final(self)@ == step(old(self)@, seen@).state,
            views(r.effects@) == step(old(self)@, seen@).effects,
            r.request@ == step(old(self)@, seen@).request,
    {
        let mut stage = Stage::Ended;
        std::mem::swap(&mut stage, &mut self.stage);
        let effects: Vec<Effect> = Vec::new();
        assert(views(effects@) =~= Seq::<EffectModel>::empty());
        match (stage, seen) {
            (Stage::Listing, Observation::Files { paths }) => self.read_files(paths, effects),
            (Stage::Reading { files }, Observation::Record { record }) => {
                let mut rest = files;
                let path = rest.remove(0);
                assert(views(rest@) =~= views(files@).skip(1));
                assert(path@ == views(files@)[0]);
                self.take_record(path, record, rest)
            },
            (Stage::ListingRecords, Observation::Files { paths }) => self.read_records(
                paths,
                effects,
            ),
            (Stage::Records { files }, Observation::LastUsed { variant }) => {
                let mut rest = files;
                let path = rest.remove(0);
                assert(views(rest@) =~= views(files@).skip(1));
                assert(path@ == views(files@)[0]);
                self.sift(path, variant, rest)
            },
            _ => Step {
                effects,
                request: Request::List {
                    root: self.build_root.join_text(".input-variants/v1/outputs"),
                },
            },
        }
    }
}

/// Starts a run at the time `now` that removes what has been unused for
/// `max_age` seconds. A dry run changes nothing.
pub fn clean_expired(
    build_root: &PathBuf,
    target_root: &PathBuf,
    now: u64,
    max_age: u64,
    dry_run: bool,
) -> (r: (Expiry, Request))
    ensures
        r.0.well_formed(),
        r.0@ == start(build_root@, target_root@, less(now, max_age), dry_run),
        r.1@ == RequestModel::List(outputs_root(build_root@)),
{
    let removed: Vec<PathBuf> = Vec::new();
    assert(views(removed@) =~= Seq::<Seq<u8>>::empty());
    let expiry = Expiry {
        build_root: build_root.clone(),
        target_root: target_root.clone(),
        cutoff: now.saturating_sub(max_age),
        dry_run,
        stage: Stage::Listing,
        removed,
    };
    (expiry, Request::List { root: build_root.join_text(".input-variants/v1/outputs") })
}

/// The same run, but as a dry run.
pub open spec fn dry(m: ExpiryModel) -> ExpiryModel {
    ExpiryModel { dry_run: true, ..m }
}

/// A whole run: all the changes made, and what it came to.
pub open spec fn run(m: ExpiryModel, seen: Seq<ObservationModel>) -> StepModel
    decreases seen.len(),
{
    if seen.len() == 0 {
        StepModel {
            state: m,
            effects: Seq::empty(),
            request: RequestModel::List(outputs_root(m.build_root)),
        }
    } else {
        let before = run(m, seen.drop_last());
        let last = step(before.state, seen.last());
        StepModel { effects: before.effects + last.effects, ..last }
    }
}

/// A dry run changes nothing; shown the same, it asks for the same and reports
/// the same as a run that removes.
pub proof fn dry_run_reports_without_removing(m: ExpiryModel, seen: Seq<ObservationModel>)
    ensures
        run(dry(m), seen).effects == Seq::<EffectModel>::empty(),
        run(dry(m), seen).request == run(m, seen).request,
        run(dry(m), seen).state == dry(run(m, seen).state),
    decreases seen.len(),
{
    if seen.len() > 0 {
        dry_run_reports_without_removing(m, seen.drop_last());
        assert(Seq::<EffectModel>::empty() + Seq::<EffectModel>::empty() =~= Seq::<
            EffectModel,
        >::empty());
    }
}

/// Each step removes only what is within the roots and the record file that was
/// read, and only where the record was last used at the cutoff or before.
pub proof fn step_removes_only_expired(m: ExpiryModel, seen: ObservationModel, k: int)
    requires
        0 <= k < step(m, seen).effects.len(),
    ensures
        match step(m, seen).effects[k] {
            EffectModel::RemovePath(p) => {
                &&& within(p, seq![m.build_root, m.target_root])
                &&& seen matches ObservationModel::Record(Some(record))
                &&& record.last_used <= m.cutoff
                &&& record.version == FORMAT_VERSION
            },
            EffectModel::RemoveFile(p) => match m.stage {
                StageModel::Reading(files) => p == files[0],
                StageModel::Records(files) => p == files[0],
                _ => false,
            },
            EffectModel::Write(_, _) => false,
        },
{
    match (m.stage, seen) {
        (StageModel::Reading(files), ObservationModel::Record(Some(record))) => {
            first_beyond_decides(record.paths, seq![m.build_root, m.target_root]);
            if verdict(m, Some(record)) is Remove {
                let all = removal(record.paths, files[0]);
                if k < record.paths.len() {
                    assert(all[k] == EffectModel::RemovePath(record.paths[k]));
                    assert(within(record.paths[k], seq![m.build_root, m.target_root]));
                }
            }
        },
        _ => {},
    }
}

/// The changes remove this path.
pub open spec fn removes(effects: Seq<EffectModel>, p: Seq<u8>) -> bool {
    exists|k: int|
        0 <= k < effects.len() && (#[trigger] effects[k] == EffectModel::RemovePath(p) || effects[k]
            == EffectModel::RemoveFile(p))
}

proof fn lemma_step_removes(m: ExpiryModel, seen: ObservationModel, k: int)
    requires
        !m.dry_run,
        0 <= k < step(m, seen).state.removed.len(),
    ensures
        ({
            let s = step(m, seen);
            ||| k < m.removed.len() && s.state.removed[k] == m.removed[k]
            ||| removes(s.effects, s.state.removed[k])
        }),
{
    let s = step(m, seen);
    match (m.stage, seen) {
        (StageModel::Reading(files), ObservationModel::Record(record)) => {
            match verdict(m, record) {
                Verdict::Remove(paths) => {
                    let all = removal(paths, files[0]);
                    let x = k - m.removed.len();
                    if k >= m.removed.len() {
                        if x < paths.len() {
                            assert(all[x] == EffectModel::RemovePath(paths[x]));
                            assert(s.effects[x] == EffectModel::RemovePath(s.state.removed[k]));
                        } else {
                            assert(all[x] == EffectModel::RemoveFile(files[0]));
                            assert(s.effects[x] == EffectModel::RemoveFile(s.state.removed[k]));
                        }
                    }
                },
                _ => {},
            }
        },
        (StageModel::Records(files), ObservationModel::LastUsed(record)) => {
            if is_stale(record, m.cutoff) && k >= m.removed.len() {
                assert(s.effects[0] == EffectModel::RemoveFile(s.state.removed[k]));
            }
        },
        _ => {},
    }
}

/// A run removes all that it reports, unless it is a dry run.
pub proof fn run_removes_what_it_reports(
    build_root: Seq<u8>,
    target_root: Seq<u8>,
    cutoff: u64,
    seen: Seq<ObservationModel>,
)
    ensures
        ({
            let r = run(start(build_root, target_root, cutoff, false), seen);
            &&& !r.state.dry_run
            &&& forall|k: int|
                0 <= k < r.state.removed.len() ==> removes(r.effects, #[trigger] r.state.removed[k])
            &&& r.request matches RequestModel::Finished(removed) ==> removed == r.state.removed
        }),
    decreases seen.len(),
{
    let m = start(build_root, target_root, cutoff, false);
    let r = run(m, seen);
    if seen.len() > 0 {
        let init = seen.drop_last();
        run_removes_what_it_reports(build_root, target_root, cutoff, init);
        let before = run(m, init);
        let last = step(before.state, seen.last());
        assert forall|k: int| 0 <= k < r.state.removed.len() implies removes(
            r.effects,
            #[trigger] r.state.removed[k],
        ) by {
            lemma_step_removes(before.state, seen.last(), k);
            let p = r.state.removed[k];
            if k < before.state.removed.len() && p == before.state.removed[k] {
                assert(removes(before.effects, p));
                let x = choose|x: int|
                    0 <= x < before.effects.len() && (#[trigger] before.effects[x]
                        == EffectModel::RemovePath(p) || before.effects[x]
                        == EffectModel::RemoveFile(p));
                assert(r.effects[x] == before.effects[x]);
            } else {
                let x = choose|x: int|
                    0 <= x < last.effects.len() && (#[trigger] last.effects[x]
                        == EffectModel::RemovePath(p) || last.effects[x]
                        == EffectModel::RemoveFile(p));
                assert(r.effects[before.effects.len() + x] == last.effects[x]);
            }
        }
    }
}

} // verus!
