//! Removing retained outputs by age and by size.
//!
//! A cleaning run decides; its caller looks at the file system and changes it.
//! Each step takes what the caller has seen and gives back the changes to make,
//! in order, and what to look at next. Where a change or a look fails, the
//! caller gives the run up.

use vstd::prelude::*;
use vstd::utf8::encode_utf8;

use crate::order::{rank, sort_ranked, stable_sort, views, Ranked};
use crate::outputs::{
    optional_record, owned_paths_of, ownership_fault, supported, upgraded, validate_ownership,
    OutputRecord, OwnershipError, OwnershipFault, RecordModel,
};
use crate::path::{join, path_le, same_path};
use crate::path_buf::PathBuf;
use crate::path_set::{copy_paths, measured_paths, measured_paths_of};
use crate::variants::FORMAT_VERSION;
use crate::walk::{capped, output_size, sum};

verus! {

/// What has been removed, or would be.
#[derive(Debug, PartialEq, Eq)]
pub struct CleanReport {
    pub removed: Vec<PathBuf>,
    pub removed_bytes: u64,
}

/// What a report says.
#[verifier::ext_equal]
pub struct ReportModel {
    pub removed: Seq<Seq<u8>>,
    pub removed_bytes: u64,
}

impl View for CleanReport {
    type V = ReportModel;

    open spec fn view(&self) -> ReportModel {
        ReportModel { removed: views(self.removed@), removed_bytes: self.removed_bytes }
    }
}

/// What the removal of variant records goes by.
#[derive(Clone, Copy, Debug)]
pub struct LastUsedRecord {
    pub version: u32,
    pub last_used: u64,
}

/// An accepted output record with what it owns.
struct StoredOutput {
    path: PathBuf,
    record: OutputRecord,
    owned: Vec<PathBuf>,
    changed: bool,
}

/// An accepted output record: where it is kept, what it says, what it owns, and
/// whether it says something else than what is kept.
#[verifier::ext_equal]
pub struct StoredModel {
    pub path: Seq<u8>,
    pub record: RecordModel,
    pub owned: Seq<Seq<u8>>,
    pub changed: bool,
}

impl View for StoredOutput {
    type V = StoredModel;

    closed spec fn view(&self) -> StoredModel {
        StoredModel {
            path: self.path@,
            record: self.record@,
            owned: views(self.owned@),
            changed: self.changed,
        }
    }
}

/// The least recently used output comes first; outputs last used at the same
/// time come in the order of their records' paths.
pub open spec fn used_le(a: StoredModel, b: StoredModel) -> bool {
    a.record.last_used < b.record.last_used || (a.record.last_used == b.record.last_used
        && path_le(a.path, b.path))
}

impl Ranked for StoredOutput {
    closed spec fn rank_le(a: StoredModel, b: StoredModel) -> bool {
        used_le(a, b)
    }

    fn at_most(&self, other: &Self) -> (r: bool) {
        self.record.last_used < other.record.last_used || (self.record.last_used
            == other.record.last_used && self.path.at_most(&other.path))
    }
}

/// A change to the file system.
pub enum Effect {
    /// Remove this file, where it is there.
    RemoveFile { path: PathBuf },
    /// Remove this file or directory with all it holds, where it is there.
    RemovePath { path: PathBuf },
    /// Replace this file by the record.
    Write { path: PathBuf, record: OutputRecord },
}

/// A change to the file system.
pub enum EffectModel {
    RemoveFile(Seq<u8>),
    RemovePath(Seq<u8>),
    Write(Seq<u8>, RecordModel),
}

impl View for Effect {
    type V = EffectModel;

    open spec fn view(&self) -> EffectModel {
        match *self {
            Effect::RemoveFile { path } => EffectModel::RemoveFile(path@),
            Effect::RemovePath { path } => EffectModel::RemovePath(path@),
            Effect::Write { path, record } => EffectModel::Write(path@, record@),
        }
    }
}

/// What the caller has to look at next, or how the run has ended.
pub enum Request {
    /// Find the record files in the tree at this directory.
    List { root: PathBuf },
    /// Read this output record.
    ReadOutput { path: PathBuf },
    /// Measure these paths.
    Measure { paths: Vec<PathBuf> },
    /// Read when this variant record was last used.
    ReadLastUsed { path: PathBuf },
    /// The run is complete.
    Finished { report: CleanReport },
    /// A record claims what no unit may own.
    Refused { error: OwnershipError },
}

/// What the caller has to look at next, or how the run has ended.
pub enum RequestModel {
    List(Seq<u8>),
    ReadOutput(Seq<u8>),
    Measure(Seq<Seq<u8>>),
    ReadLastUsed(Seq<u8>),
    Finished(ReportModel),
    Refused(OwnershipFault),
}

impl View for Request {
    type V = RequestModel;

    open spec fn view(&self) -> RequestModel {
        match *self {
            Request::List { root } => RequestModel::List(root@),
            Request::ReadOutput { path } => RequestModel::ReadOutput(path@),
            Request::Measure { paths } => RequestModel::Measure(views(paths@)),
            Request::ReadLastUsed { path } => RequestModel::ReadLastUsed(path@),
            Request::Finished { report } => RequestModel::Finished(report@),
            Request::Refused { error } => RequestModel::Refused(error@),
        }
    }
}

/// What the caller has seen.
pub enum Observation {
    /// The record files found, in path order.
    Files { paths: Vec<PathBuf> },
    /// The output record, where the file holds one.
    Record { record: Option<OutputRecord> },
    /// The sizes of the paths to measure, one for each, in order.
    Sizes { sizes: Vec<u64> },
    /// The variant record, where the file holds one.
    LastUsed { variant: Option<LastUsedRecord> },
}

/// What the caller has seen.
pub enum ObservationModel {
    Files(Seq<Seq<u8>>),
    Record(Option<RecordModel>),
    Sizes(Seq<u64>),
    LastUsed(Option<LastUsedRecord>),
}

impl View for Observation {
    type V = ObservationModel;

    open spec fn view(&self) -> ObservationModel {
        match *self {
            Observation::Files { paths } => ObservationModel::Files(views(paths@)),
            Observation::Record { record } => ObservationModel::Record(optional_record(record)),
            Observation::Sizes { sizes } => ObservationModel::Sizes(sizes@),
            Observation::LastUsed { variant } => ObservationModel::LastUsed(variant),
        }
    }
}

/// How far a run has come.
pub enum StageModel {
    /// The output records are being found.
    Listing,
    /// These output records are still to be read.
    Reading(Seq<Seq<u8>>),
    /// The size of this output is being measured, to know the total.
    Measuring(int),
    /// The size of this output is being measured, to remove it.
    Deciding(int),
    /// The variant records are being found.
    ListingRecords,
    /// These variant records are still to be read.
    Records(Seq<Seq<u8>>),
    /// The run has ended.
    Ended,
}

/// The outputs accepted so far, and the limits they are held to: removed are
/// those last used at the cutoff or before it, and as many as it takes to stay
/// within the size.
#[verifier::ext_equal]
pub struct Ledger {
    pub cutoff: Option<u64>,
    pub max_size: Option<u64>,
    pub outputs: Seq<StoredModel>,
}

/// The state of a run: what it was asked, how far it has come, the outputs
/// accepted so far, and the variant records found stale so far.
#[verifier::ext_equal]
pub struct CleanModel {
    pub build_root: Seq<u8>,
    pub target_root: Seq<u8>,
    pub dry_run: bool,
    pub stage: StageModel,
    pub ledger: Ledger,
    pub stale: Seq<Seq<u8>>,
}

/// The outcome of one step: the state reached, the changes to make, and what to
/// look at next.
pub struct StepModel {
    pub state: CleanModel,
    pub effects: Seq<EffectModel>,
    pub request: RequestModel,
}

/// Where output records are kept.
pub open spec fn outputs_root(build_root: Seq<u8>) -> Seq<u8> {
    join(build_root, encode_utf8(".input-variants/v1/outputs"@))
}

/// Where variant records are kept.
pub open spec fn records_root(build_root: Seq<u8>) -> Seq<u8> {
    join(build_root, encode_utf8(".input-variants/v1/records"@))
}

/// Last used at the cutoff or before it.
pub open spec fn expired(last_used: u64, cutoff: Option<u64>) -> bool {
    cutoff matches Some(c) && last_used <= c
}

/// More is retained than allowed.
pub open spec fn oversized(retained: nat, max_size: Option<u64>) -> bool {
    max_size matches Some(m) && retained > m
}

/// The size that an output's record gives, where it gives one.
pub open spec fn size_of(output: StoredModel) -> u64 {
    match output.record.size {
        Some(size) => size,
        None => 0,
    }
}

/// The sizes of all outputs.
pub open spec fn sizes_of(outputs: Seq<StoredModel>) -> Seq<u64> {
    Seq::new(outputs.len(), |i: int| size_of(outputs[i]))
}

/// `a - b`, or nothing where `b` is larger.
pub open spec fn less(a: u64, b: u64) -> u64 {
    if a >= b {
        (a - b) as u64
    } else {
        0
    }
}

/// The bytes counted as retained before any output is removed. They are counted
/// only where their number is limited.
pub open spec fn counted(l: Ledger) -> u64 {
    if l.max_size is Some {
        capped(sum(sizes_of(l.outputs)))
    } else {
        0
    }
}

/// The bytes counted as retained when output `i` is decided.
pub open spec fn retained_at(l: Ledger, i: int) -> u64
    decreases i, 0int,
{
    if i <= 0 {
        counted(l)
    } else if doomed_at(l, i - 1) {
        less(retained_at(l, i - 1), size_of(l.outputs[i - 1]))
    } else {
        retained_at(l, i - 1)
    }
}

/// Output `i` is to be removed: it has not been used since the cutoff, or too
/// much is retained.
pub open spec fn doomed_at(l: Ledger, i: int) -> bool
    decreases i, 1int,
{
    expired(l.outputs[i].record.last_used, l.cutoff) || (i >= 0 && oversized(
        retained_at(l, i) as nat,
        l.max_size,
    ))
}

/// What is removed with the outputs before `i`: all that each of them owns,
/// and its record.
pub open spec fn removed_before(l: Ledger, i: int) -> Seq<Seq<u8>>
    decreases i,
{
    if i <= 0 {
        Seq::empty()
    } else if doomed_at(l, i - 1) {
        removed_before(l, i - 1) + l.outputs[i - 1].owned + seq![l.outputs[i - 1].path]
    } else {
        removed_before(l, i - 1)
    }
}

/// The sizes of the outputs before `i` that are removed.
pub open spec fn removed_sizes(l: Ledger, i: int) -> Seq<u64>
    decreases i,
{
    if i <= 0 {
        Seq::empty()
    } else if doomed_at(l, i - 1) {
        removed_sizes(l, i - 1).push(size_of(l.outputs[i - 1]))
    } else {
        removed_sizes(l, i - 1)
    }
}

/// The changes that remove one output.
pub open spec fn removal(output: StoredModel) -> Seq<EffectModel> {
    Seq::new(
        output.owned.len(),
        |k: int| EffectModel::RemovePath(output.owned[k]),
    ) + seq![EffectModel::RemoveFile(output.path)]
}

/// The changes that deciding the outputs from `i` up to `j` leads to.
pub open spec fn decided(l: Ledger, dry_run: bool, i: int, j: int) -> Seq<EffectModel>
    decreases j - i,
{
    if j <= i || dry_run {
        Seq::empty()
    } else {
        decided(l, dry_run, i, j - 1) + if doomed_at(l, j - 1) {
            removal(l.outputs[j - 1])
        } else if l.outputs[j - 1].changed {
            seq![EffectModel::Write(l.outputs[j - 1].path, l.outputs[j - 1].record)]
        } else {
            Seq::empty()
        }
    }
}

/// The first output at `i` or behind it that is to be removed and whose size is
/// not known, or the number of outputs.
pub open spec fn next_unsized_doomed(l: Ledger, i: int) -> int
    decreases l.outputs.len() - i,
{
    if i >= l.outputs.len() || (doomed_at(l, i) && l.outputs[i].record.size is None) {
        i
    } else {
        next_unsized_doomed(l, i + 1)
    }
}

/// The first output at `i` or behind it whose size is not known, or the number
/// of outputs.
pub open spec fn next_unsized(outputs: Seq<StoredModel>, i: int) -> int
    decreases outputs.len() - i,
{
    if i >= outputs.len() || outputs[i].record.size is None {
        i
    } else {
        next_unsized(outputs, i + 1)
    }
}

/// The outputs with the size of one of them filled in.
pub open spec fn measured(outputs: Seq<StoredModel>, i: int, size: u64) -> Seq<StoredModel> {
    outputs.update(
        i,
        StoredModel {
            record: RecordModel { size: Some(size), ..outputs[i].record },
            changed: true,
            ..outputs[i]
        },
    )
}

/// What becomes of an output record that was read.
pub enum Admission {
    /// It cannot be used, and is removed.
    Discard,
    /// It claims what no unit may own.
    Refuse(OwnershipFault),
    /// It is accepted.
    Keep(StoredModel),
}

/// What becomes of the output record read from `path`.
pub open spec fn admission(
    build_root: Seq<u8>,
    target_root: Seq<u8>,
    path: Seq<u8>,
    record: Option<RecordModel>,
) -> Admission {
    match record {
        Some(read) if supported(read) => {
            let (current, changed) = match upgraded(read, build_root) {
                Some(after) => (after, true),
                None => (read, false),
            };
            match ownership_fault(
                build_root,
                target_root,
                current.package,
                current.unit,
                current.unit_dir,
                current.paths,
            ) {
                Some(fault) => Admission::Refuse(fault),
                None => Admission::Keep(
                    StoredModel {
                        path,
                        record: current,
                        owned: owned_paths_of(current),
                        changed,
                    },
                ),
            }
        },
        _ => Admission::Discard,
    }
}

/// A variant record that is dropped: it cannot be read, has another format, or
/// has not been used since the cutoff.
pub open spec fn is_stale(record: Option<LastUsedRecord>, cutoff: Option<u64>) -> bool {
    match record {
        Some(r) => r.version != FORMAT_VERSION || expired(r.last_used, cutoff),
        None => true,
    }
}

/// What a complete run reports.
pub open spec fn report_of(l: Ledger, stale: Seq<Seq<u8>>) -> ReportModel {
    let n = l.outputs.len() as int;
    ReportModel {
        removed: removed_before(l, n) + stale,
        removed_bytes: capped(sum(removed_sizes(l, n))),
    }
}

/// Decides outputs from `i` on, until one has to be measured.
pub open spec fn decide_on(m: CleanModel, i: int) -> StepModel {
    let l = m.ledger;
    let j = next_unsized_doomed(l, i);
    let effects = decided(l, m.dry_run, i, j);
    if j < l.outputs.len() {
        StepModel {
            state: CleanModel { stage: StageModel::Deciding(j), ..m },
            effects,
            request: RequestModel::Measure(measured_paths_of(l.outputs[j].owned)),
        }
    } else {
        StepModel {
            state: CleanModel { stage: StageModel::ListingRecords, ..m },
            effects,
            request: RequestModel::List(records_root(m.build_root)),
        }
    }
}

/// Looks for an output to measure from `i` on; where there is none, decides.
pub open spec fn measure_on(m: CleanModel, i: int) -> StepModel {
    let outputs = m.ledger.outputs;
    let j = next_unsized(outputs, i);
    if j < outputs.len() {
        StepModel {
            state: CleanModel { stage: StageModel::Measuring(j), ..m },
            effects: Seq::empty(),
            request: RequestModel::Measure(measured_paths_of(outputs[j].owned)),
        }
    } else {
        decide_on(m, 0)
    }
}

/// Goes on to the next output record; where there is none, puts the outputs in
/// the order of their use and starts on them.
pub open spec fn read_on(m: CleanModel, files: Seq<Seq<u8>>) -> StepModel {
    if files.len() > 0 {
        StepModel {
            state: CleanModel { stage: StageModel::Reading(files), ..m },
            effects: Seq::empty(),
            request: RequestModel::ReadOutput(files[0]),
        }
    } else {
        let sorted = with_outputs(
            m,
            stable_sort(m.ledger.outputs, |a: StoredModel, b: StoredModel| used_le(a, b)),
        );
        if m.ledger.max_size is Some {
            measure_on(sorted, 0)
        } else {
            decide_on(sorted, 0)
        }
    }
}

/// The state with other outputs.
pub open spec fn with_outputs(m: CleanModel, outputs: Seq<StoredModel>) -> CleanModel {
    CleanModel { ledger: Ledger { outputs, ..m.ledger }, ..m }
}

/// Goes on to the next variant record; where there is none, reports.
pub open spec fn records_on(m: CleanModel, files: Seq<Seq<u8>>) -> StepModel {
    if files.len() > 0 {
        StepModel {
            state: CleanModel { stage: StageModel::Records(files), ..m },
            effects: Seq::empty(),
            request: RequestModel::ReadLastUsed(files[0]),
        }
    } else {
        StepModel {
            state: CleanModel { stage: StageModel::Ended, ..m },
            effects: Seq::empty(),
            request: RequestModel::Finished(report_of(m.ledger, m.stale)),
        }
    }
}

/// A step with a change put before those that it makes.
pub open spec fn after_change(m: CleanModel, change: EffectModel, s: StepModel) -> StepModel {
    if m.dry_run {
        s
    } else {
        StepModel { effects: seq![change] + s.effects, ..s }
    }
}

/// The observation answers what the run waits for; there is a size for each path
/// to measure.
pub open spec fn expects(m: CleanModel, seen: ObservationModel) -> bool {
    match m.stage {
        StageModel::Listing | StageModel::ListingRecords => seen is Files,
        StageModel::Reading(_) => seen is Record,
        StageModel::Measuring(i) | StageModel::Deciding(i) => {
            seen matches ObservationModel::Sizes(sizes) && sizes.len() == measured_paths_of(
                m.ledger.outputs[i].owned,
            ).len()
        },
        StageModel::Records(_) => seen is LastUsed,
        StageModel::Ended => false,
    }
}

/// One step of a run.
pub open spec fn step(m: CleanModel, seen: ObservationModel) -> StepModel {
    match (m.stage, seen) {
        (StageModel::Listing, ObservationModel::Files(files)) => read_on(m, files),
        (StageModel::Reading(files), ObservationModel::Record(record)) => {
            let rest = files.skip(1);
            match admission(m.build_root, m.target_root, files[0], record) {
                Admission::Discard => after_change(
                    m,
                    EffectModel::RemoveFile(files[0]),
                    read_on(m, rest),
                ),
                Admission::Refuse(fault) => StepModel {
                    state: CleanModel { stage: StageModel::Ended, ..m },
                    effects: Seq::empty(),
                    request: RequestModel::Refused(fault),
                },
                Admission::Keep(output) => read_on(
                    with_outputs(m, m.ledger.outputs.push(output)),
                    rest,
                ),
            }
        },
        (StageModel::Measuring(i), ObservationModel::Sizes(sizes)) => measure_on(
            with_outputs(m, measured(m.ledger.outputs, i, capped(sum(sizes)))),
            i,
        ),
        (StageModel::Deciding(i), ObservationModel::Sizes(sizes)) => decide_on(
            with_outputs(m, measured(m.ledger.outputs, i, capped(sum(sizes)))),
            i,
        ),
        (StageModel::ListingRecords, ObservationModel::Files(files)) => records_on(m, files),
        (StageModel::Records(files), ObservationModel::LastUsed(record)) => {
            let rest = files.skip(1);
            if is_stale(record, m.ledger.cutoff) {
                after_change(
                    m,
                    EffectModel::RemoveFile(files[0]),
                    records_on(CleanModel { stale: m.stale.push(files[0]), ..m }, rest),
                )
            } else {
                records_on(m, rest)
            }
        },
        _ => StepModel {
            state: m,
            effects: Seq::empty(),
            request: RequestModel::List(outputs_root(m.build_root)),
        },
    }
}

/// The state that a run starts in.
pub open spec fn start(
    build_root: Seq<u8>,
    target_root: Seq<u8>,
    cutoff: Option<u64>,
    max_size: Option<u64>,
    dry_run: bool,
) -> CleanModel {
    CleanModel {
        build_root,
        target_root,
        dry_run,
        stage: StageModel::Listing,
        ledger: Ledger { cutoff, max_size, outputs: Seq::empty() },
        stale: Seq::empty(),
    }
}

enum Stage {
    Listing,
    Reading { files: Vec<PathBuf> },
    Measuring { at: usize },
    Deciding { at: usize },
    ListingRecords,
    Records { files: Vec<PathBuf> },
    Ended,
}

impl View for Stage {
    type V = StageModel;

    closed spec fn view(&self) -> StageModel {
        match *self {
            Stage::Listing => StageModel::Listing,
            Stage::Reading { files } => StageModel::Reading(views(files@)),
            Stage::Measuring { at } => StageModel::Measuring(at as int),
            Stage::Deciding { at } => StageModel::Deciding(at as int),
            Stage::ListingRecords => StageModel::ListingRecords,
            Stage::Records { files } => StageModel::Records(views(files@)),
            Stage::Ended => StageModel::Ended,
        }
    }
}

/// A cleaning run.
pub struct Cleaner {
    build_root: PathBuf,
    target_root: PathBuf,
    cutoff: Option<u64>,
    max_size: Option<u64>,
    dry_run: bool,
    stage: Stage,
    outputs: Vec<StoredOutput>,
    retained_bytes: u64,
    removed: Vec<PathBuf>,
    removed_bytes: u64,
    stale: Vec<PathBuf>,
}

/// The changes to make now, and what to look at next.
pub struct Step {
    pub effects: Vec<Effect>,
    pub request: Request,
}

impl View for Cleaner {
    type V = CleanModel;

    closed spec fn view(&self) -> CleanModel {
        CleanModel {
            build_root: self.build_root@,
            target_root: self.target_root@,
            dry_run: self.dry_run,
            stage: self.stage@,
            ledger: self.ledger(),
            stale: views(self.stale@),
        }
    }
}

/// Every output's size is known.
pub open spec fn all_sized(outputs: Seq<StoredModel>) -> bool {
    forall|k: int| 0 <= k < outputs.len() ==> (#[trigger] outputs[k]).record.size is Some
}

proof fn lemma_measured_prefix(l: Ledger, i: int, size: u64, k: int)
    requires
        l.max_size is None,
        0 <= k <= i < l.outputs.len(),
    ensures
        ({
            let after = Ledger { outputs: measured(l.outputs, i, size), ..l };
            &&& retained_at(after, k) == 0
            &&& retained_at(l, k) == 0
            &&& doomed_at(after, k) == doomed_at(l, k)
            &&& removed_before(after, k) == removed_before(l, k)
            &&& removed_sizes(after, k) == removed_sizes(l, k)
        }),
    decreases k,
{
    if k > 0 {
        lemma_measured_prefix(l, i, size, k - 1);
    }
}

proof fn lemma_next_unsized_doomed(l: Ledger, i: int, j: int)
    requires
        0 <= i <= j <= l.outputs.len(),
        forall|k: int|
            i <= k < j ==> !(#[trigger] doomed_at(l, k) && l.outputs[k].record.size is None),
        j < l.outputs.len() ==> doomed_at(l, j) && l.outputs[j].record.size is None,
    ensures
        next_unsized_doomed(l, i) == j,
    decreases j - i,
{
    if i < j {
        assert(!(doomed_at(l, i) && l.outputs[i].record.size is None));
        lemma_next_unsized_doomed(l, i + 1, j);
    }
}

proof fn lemma_next_unsized(outputs: Seq<StoredModel>, i: int, j: int)
    requires
        0 <= i <= j <= outputs.len(),
        forall|k: int| i <= k < j ==> (#[trigger] outputs[k]).record.size is Some,
        j < outputs.len() ==> outputs[j].record.size is None,
    ensures
        next_unsized(outputs, i) == j,
    decreases j - i,
{
    if i < j {
        assert(outputs[i].record.size is Some);
        lemma_next_unsized(outputs, i + 1, j);
    }
}

impl Cleaner {
    spec fn ledger(&self) -> Ledger {
        Ledger {
            cutoff: self.cutoff,
            max_size: self.max_size,
            outputs: views(self.outputs@),
        }
    }

    /// The running counts are those of the outputs before `i`.
    spec fn counts_to(&self, i: int) -> bool {
        let l = self.ledger();
        &&& views(self.removed@) == removed_before(l, i)
        &&& self.removed_bytes == capped(sum(removed_sizes(l, i)))
    }

    /// What holds between the steps of a run.
    pub closed spec fn well_formed(&self) -> bool {
        let l = self.ledger();
        let n = l.outputs.len() as int;
        match self.stage@ {
            StageModel::Listing => self.counts_to(0),
            StageModel::Reading(files) => files.len() > 0 && self.counts_to(0),
            StageModel::Measuring(i) => {
                &&& 0 <= i < n
                &&& self.counts_to(0)
                &&& l.max_size is Some
                &&& forall|k: int| 0 <= k < i ==> (#[trigger] l.outputs[k]).record.size is Some
            },
            StageModel::Deciding(i) => {
                &&& 0 <= i < n
                &&& self.counts_to(i)
                &&& l.max_size is None
                &&& doomed_at(l, i)
                &&& self.retained_bytes == 0
            },
            StageModel::ListingRecords => self.counts_to(n),
            StageModel::Records(files) => files.len() > 0 && self.counts_to(n),
            StageModel::Ended => true,
        }
    }

    /// Whether output `i` is to be removed.
    fn is_doomed(&self, i: usize) -> (r: bool)
        requires
            i < self.outputs@.len(),
            self.retained_bytes == retained_at(self.ledger(), i as int),
        ensures
            r == doomed_at(self.ledger(), i as int),
    {
        let last_used: u64 = self.outputs[i].record.last_used;
        let old: bool = match self.cutoff {
            Some(cutoff) => last_used <= cutoff,
            None => false,
        };
        let large: bool = match self.max_size {
            Some(max_size) => self.retained_bytes > max_size,
            None => false,
        };
        assert(self.ledger().outputs[i as int].record.last_used == last_used);
        old || large
    }

    /// Removes output `i`, whose size is known.
    fn remove_output(&mut self, i: usize, size: u64, effects: &mut Vec<Effect>)
        requires
            i < old(self).outputs@.len(),
            old(self).counts_to(i as int),
            old(self).retained_bytes == retained_at(old(self).ledger(), i as int),
            doomed_at(old(self).ledger(), i as int),
            old(self).ledger().outputs[i as int].record.size == Some(size),
        ensures
            final(self)@ == old(self)@,
            final(self).outputs == old(self).outputs,
            final(self).counts_to(i + 1),
            final(self).retained_bytes == retained_at(final(self).ledger(), i + 1),
            views(final(effects)@) == views(old(effects)@) + if old(self).dry_run {
                Seq::empty()
            } else {
                removal(old(self).ledger().outputs[i as int])
            },
    {
        let ghost l = self.ledger();
        let ghost output = l.outputs[i as int];
        let ghost before = views(self.removed@);
        let ghost made = views(effects@);
        let owned = copy_paths(&self.outputs[i].owned);
        assert(views(owned@) == output.owned);
        self.retained_bytes = self.retained_bytes.saturating_sub(size);
        self.removed_bytes = self.removed_bytes.saturating_add(size);
        proof {
            let sizes = removed_sizes(l, i as int);
            assert(sizes.push(size).drop_last() =~= sizes);
            assert(removed_sizes(l, i + 1) == sizes.push(size));
        }
        let mut k: usize = 0;
        assert(before + output.owned.take(0) =~= before);
        let ghost all = removal(output);
        assert(made + all.take(0) =~= made);
        while k < owned.len()
            invariant
                k <= owned@.len(),
                views(owned@) == output.owned,
                views(self.removed@) == before + output.owned.take(k as int),
                all == removal(output),
                views(effects@) == made + if self.dry_run {
                    Seq::<EffectModel>::empty()
                } else {
                    all.take(k as int)
                },
                self@ == old(self)@,
                self.outputs == old(self).outputs,
                self.retained_bytes == less(old(self).retained_bytes, size),
                self.removed_bytes == capped(sum(removed_sizes(l, i + 1))),
            decreases owned@.len() - k,
        {
            let ghost r = self.removed@;
            let ghost e = effects@;
            self.removed.push(owned[k].clone());
            proof {
                assert(views(self.removed@) =~= views(r).push(owned@[k as int]@));
                assert(views(owned@)[k as int] == owned@[k as int]@);
                assert(views(self.removed@) =~= before + output.owned.take(k + 1));
            }
            if !self.dry_run {
                effects.push(Effect::RemovePath { path: owned[k].clone() });
                proof {
                    assert(views(effects@) =~= views(e).push(
                        EffectModel::RemovePath(output.owned[k as int]),
                    ));
                    assert(all[k as int] == EffectModel::RemovePath(output.owned[k as int]));
                    assert(views(effects@) =~= made + all.take(k + 1));
                }
            }
            k = k + 1;
        }
        assert(output.owned.take(k as int) =~= output.owned);
        let path = self.outputs[i].path.clone();
        assert(path@ == output.path);
        let ghost r = self.removed@;
        let ghost e = effects@;
        self.removed.push(path.clone());
        proof {
            assert(views(self.removed@) =~= views(r).push(path@));
            assert(views(self.removed@) =~= before + output.owned + seq![output.path]);
        }
        if !self.dry_run {
            effects.push(Effect::RemoveFile { path });
            proof {
                assert(views(effects@) =~= views(e).push(EffectModel::RemoveFile(output.path)));
                assert(all[k as int] == EffectModel::RemoveFile(output.path));
                assert(views(effects@) =~= made + all);
            }
        } else {
            assert(views(effects@) =~= made + Seq::<EffectModel>::empty());
        }
    }

    /// Decides outputs from `from` on, until one has to be measured.
    fn decide(&mut self, from: usize, begun: Vec<Effect>) -> (r: Step)
        requires
            from <= old(self).outputs@.len(),
            old(self).counts_to(from as int),
            old(self).retained_bytes == retained_at(old(self).ledger(), from as int),
            old(self).max_size is Some ==> all_sized(old(self).ledger().outputs),
        ensures
            final(self).well_formed(),
            final(self)@ == decide_on(old(self)@, from as int).state,
            views(r.effects@) == views(begun@) + decide_on(old(self)@, from as int).effects,
            r.request@ == decide_on(old(self)@, from as int).request,
    {
        let ghost l = self.ledger();
        let ghost made = views(begun@);
        let mut effects = begun;
        let mut i: usize = from;
        assert(views(effects@) =~= made + decided(l, self.dry_run, from as int, from as int));
        while i < self.outputs.len()
            invariant
                from <= i <= self.outputs@.len(),
                made == views(begun@),
                self@ == old(self)@,
                self.outputs == old(self).outputs,
                l == self.ledger(),
                self.counts_to(i as int),
                self.retained_bytes == retained_at(l, i as int),
                self.max_size is Some ==> all_sized(l.outputs),
                forall|k: int|
                    from <= k < i ==> !(#[trigger] doomed_at(l, k) && l.outputs[k].record.size is None),
                views(effects@) == made + decided(l, self.dry_run, from as int, i as int),
            decreases self.outputs@.len() - i,
        {
            let ghost e = views(effects@);
            let ghost done = decided(l, self.dry_run, from as int, i as int);
            assert(l.outputs[i as int] == self.outputs@[i as int]@);
            if self.is_doomed(i) {
                match self.outputs[i].record.size {
                    None => {
                        proof {
                            assert(l.outputs[i as int].record.size is None);
                            lemma_next_unsized_doomed(l, from as int, i as int);
                            lemma_uncounted(l, i as int);
                        }
                        let paths = measured_paths(&self.outputs[i].owned);
                        self.stage = Stage::Deciding { at: i };
                        return Step { effects, request: Request::Measure { paths } };
                    },
                    Some(size) => {
                        self.remove_output(i, size, &mut effects);
                    },
                }
            } else if self.outputs[i].changed && !self.dry_run {
                let path = self.outputs[i].path.clone();
                let record = self.outputs[i].record.clone();
                let ghost before = effects@;
                effects.push(Effect::Write { path, record });
                assert(views(effects@) =~= views(before).push(
                    EffectModel::Write(l.outputs[i as int].path, l.outputs[i as int].record),
                ));
            }
            proof {
                let after = decided(l, self.dry_run, from as int, i + 1);
                if !self.dry_run {
                    assert(views(effects@) =~= made + after);
                } else {
                    assert(views(effects@) =~= made + after);
                }
            }
            i = i + 1;
        }
        proof {
            lemma_next_unsized_doomed(l, from as int, i as int);
        }
        self.stage = Stage::ListingRecords;
        Step {
            effects,
            request: Request::List { root: self.build_root.join_text(".input-variants/v1/records") },
        }
    }

    /// Looks for an output to measure from `from` on; where there is none,
    /// decides.
    fn measure(&mut self, from: usize, begun: Vec<Effect>) -> (r: Step)
        requires
            from <= old(self).outputs@.len(),
            old(self).counts_to(0),
            old(self).max_size is Some,
            forall|k: int|
                0 <= k < from ==> (#[trigger] old(self).ledger().outputs[k]).record.size is Some,
        ensures
            final(self).well_formed(),
            final(self)@ == measure_on(old(self)@, from as int).state,
            views(r.effects@) == views(begun@) + measure_on(old(self)@, from as int).effects,
            r.request@ == measure_on(old(self)@, from as int).request,
    {
        let ghost l = self.ledger();
        let mut i: usize = from;
        while i < self.outputs.len() && self.outputs[i].record.size.is_some()
            invariant
                from <= i <= self.outputs@.len(),
                *self == *old(self),
                l == self.ledger(),
                forall|k: int| 0 <= k < i ==> (#[trigger] l.outputs[k]).record.size is Some,
            decreases self.outputs@.len() - i,
        {
            assert(l.outputs[i as int] == self.outputs@[i as int]@);
            i = i + 1;
        }
        proof {
            if i < l.outputs.len() {
                assert(l.outputs[i as int] == self.outputs@[i as int]@);
            }
            lemma_next_unsized(l.outputs, from as int, i as int);
        }
        if i < self.outputs.len() {
            let paths = measured_paths(&self.outputs[i].owned);
            self.stage = Stage::Measuring { at: i };
            assert(views(begun@) =~= views(begun@) + Seq::<EffectModel>::empty());
            return Step { effects: begun, request: Request::Measure { paths } };
        }
        self.retained_bytes = self.total();
        self.decide(0, begun)
    }

    /// The total size of the outputs.
    fn total(&self) -> (r: u64)
        ensures
            r == capped(sum(sizes_of(self.ledger().outputs))),
    {
        let ghost all = sizes_of(self.ledger().outputs);
        let mut total: u64 = 0;
        let mut i: usize = 0;
        while i < self.outputs.len()
            invariant
                i <= self.outputs@.len(),
                all == sizes_of(self.ledger().outputs),
                total == capped(sum(all.take(i as int))),
            decreases self.outputs@.len() - i,
        {
            proof {
                assert(all.take(i + 1).drop_last() =~= all.take(i as int));
                assert(self.ledger().outputs[i as int] == self.outputs@[i as int]@);
            }
            let size: u64 = match self.outputs[i].record.size {
                Some(size) => size,
                None => 0,
            };
            total = total.saturating_add(size);
            i = i + 1;
        }
        assert(all.take(i as int) =~= all);
        total
    }

    /// Fills in the size of output `i`.
    fn set_size(&mut self, i: usize, size: u64)
        requires
            i < old(self).outputs@.len(),
        ensures
            final(self)@ == with_outputs(
                old(self)@,
                measured(old(self).ledger().outputs, i as int, size),
            ),
            final(self).outputs@.len() == old(self).outputs@.len(),
            final(self).removed == old(self).removed,
            final(self).removed_bytes == old(self).removed_bytes,
            final(self).retained_bytes == old(self).retained_bytes,
    {
        let ghost before = self.outputs@;
        let mut output = self.outputs.remove(i);
        output.record.size = Some(size);
        output.changed = true;
        self.outputs.insert(i, output);
        proof {
            let after = self.outputs@;
            assert(views(after) =~= measured(views(before), i as int, size)) by {
                assert forall|k: int| 0 <= k < before.len() implies views(after)[k] == measured(
                    views(before),
                    i as int,
                    size,
                )[k] by {
                    if k == i {
                        assert(after[k] == output);
                    } else {
                        assert(after[k] == before[k]);
                    }
                }
            }
        }
    }

    /// Goes on to the next output record; where there is none, puts the outputs
    /// in the order of their use and starts on them.
    fn read_files(&mut self, files: Vec<PathBuf>, begun: Vec<Effect>) -> (r: Step)
        requires
            old(self).counts_to(0),
        ensures
            final(self).well_formed(),
            final(self)@ == read_on(old(self)@, views(files@)).state,
            views(r.effects@) == views(begun@) + read_on(old(self)@, views(files@)).effects,
            r.request@ == read_on(old(self)@, views(files@)).request,
    {
        if files.len() > 0 {
            let path = files[0].clone();
            assert(views(files@)[0] == files@[0]@);
            self.stage = Stage::Reading { files };
            assert(views(begun@) =~= views(begun@) + Seq::<EffectModel>::empty());
            return Step { effects: begun, request: Request::ReadOutput { path } };
        }
        let ghost m = self@;
        let mut outputs: Vec<StoredOutput> = Vec::new();
        std::mem::swap(&mut outputs, &mut self.outputs);
        assert(rank::<StoredOutput>() =~= (|a: StoredModel, b: StoredModel| used_le(a, b)));
        self.outputs = sort_ranked(outputs);
        assert(self@ == with_outputs(
            m,
            stable_sort(m.ledger.outputs, |a: StoredModel, b: StoredModel| used_le(a, b)),
        ));
        if self.max_size.is_some() {
            self.measure(0, begun)
        } else {
            self.retained_bytes = 0;
            self.decide(0, begun)
        }
    }

    /// Takes in the output record read from `path`, with `rest` still to read.
    fn take_record(&mut self, path: PathBuf, record: Option<OutputRecord>, rest: Vec<PathBuf>) -> (r: Step)
        requires
            old(self).counts_to(0),
        ensures
            final(self).well_formed(),
            ({
                let m = old(self)@;
                let s = match admission(
                    m.build_root,
                    m.target_root,
                    path@,
                    optional_record(record),
                ) {
                    Admission::Discard => after_change(
                        m,
                        EffectModel::RemoveFile(path@),
                        read_on(m, views(rest@)),
                    ),
                    Admission::Refuse(fault) => StepModel {
                        state: CleanModel { stage: StageModel::Ended, ..m },
                        effects: Seq::empty(),
                        request: RequestModel::Refused(fault),
                    },
                    Admission::Keep(output) => read_on(
                        with_outputs(m, m.ledger.outputs.push(output)),
                        views(rest@),
                    ),
                };
                &&& final(self)@ == s.state
                &&& views(r.effects@) == s.effects
                &&& r.request@ == s.request
            }),
    {
        let mut effects: Vec<Effect> = Vec::new();
        assert(views(effects@) =~= Seq::<EffectModel>::empty());
        let read = match record {
            Some(read) => if read.is_supported() {
                Some(read)
            } else {
                None
            },
            None => None,
        };
        match read {
            None => {
                if !self.dry_run {
                    effects.push(Effect::RemoveFile { path });
                    assert(views(effects@) =~= seq![EffectModel::RemoveFile(path@)]);
                }
                let r = self.read_files(rest, effects);
                assert(Seq::<EffectModel>::empty() + read_on(old(self)@, views(rest@)).effects
                    =~= read_on(old(self)@, views(rest@)).effects);
                r
            },
            Some(read) => {
                let mut current = read;
                let changed: bool = current.upgrade_ownership(&self.build_root);
                match validate_ownership(
                    &self.build_root,
                    &self.target_root,
                    current.package.as_str(),
                    current.unit.as_str(),
                    &current.unit_dir,
                    &current.paths,
                ) {
                    Err(error) => {
                        self.stage = Stage::Ended;
                        Step { effects, request: Request::Refused { error } }
                    },
                    Ok(()) => {
                        let owned = current.owned_paths();
                        let ghost before = self.outputs@;
                        let output = StoredOutput { path, record: current, owned, changed };
                        self.outputs.push(output);
                        proof {
                            assert(views(self.outputs@) =~= views(before).push(output@));
                            let m = with_outputs(
                                old(self)@,
                                old(self)@.ledger.outputs.push(output@),
                            );
                            assert(self@ == m);
                            assert(Seq::<EffectModel>::empty() + read_on(m, views(rest@)).effects
                                =~= read_on(m, views(rest@)).effects);
                        }
                        self.read_files(rest, effects)
                    },
                }
            },
        }
    }

    /// Goes on to the next variant record; where there is none, reports.
    fn read_records(&mut self, files: Vec<PathBuf>, begun: Vec<Effect>) -> (r: Step)
        requires
            old(self).counts_to(old(self).outputs@.len() as int),
        ensures
            final(self).well_formed(),
            final(self)@ == records_on(old(self)@, views(files@)).state,
            views(r.effects@) == views(begun@),
            r.request@ == records_on(old(self)@, views(files@)).request,
    {
        if files.len() > 0 {
            let path = files[0].clone();
            assert(views(files@)[0] == files@[0]@);
            self.stage = Stage::Records { files };
            return Step { effects: begun, request: Request::ReadLastUsed { path } };
        }
        let mut removed = copy_paths(&self.removed);
        let mut stale = copy_paths(&self.stale);
        let ghost head = removed@;
        let ghost tail = stale@;
        removed.append(&mut stale);
        assert(views(removed@) =~= views(head) + views(tail));
        self.stage = Stage::Ended;
        Step {
            effects: begun,
            request: Request::Finished {
                report: CleanReport { removed, removed_bytes: self.removed_bytes },
            },
        }
    }

    /// Takes in the variant record read from `path`, with `rest` still to read.
    fn sift(&mut self, path: PathBuf, record: Option<LastUsedRecord>, rest: Vec<PathBuf>) -> (r:
        Step)
        requires
            old(self).counts_to(old(self).outputs@.len() as int),
        ensures
            final(self).well_formed(),
            ({
                let m = old(self)@;
                let s = if is_stale(record, m.ledger.cutoff) {
                    after_change(
                        m,
                        EffectModel::RemoveFile(path@),
                        records_on(CleanModel { stale: m.stale.push(path@), ..m }, views(rest@)),
                    )
                } else {
                    records_on(m, views(rest@))
                };
                &&& final(self)@ == s.state
                &&& views(r.effects@) == s.effects
                &&& r.request@ == s.request
            }),
    {
        let mut effects: Vec<Effect> = Vec::new();
        assert(views(effects@) =~= Seq::<EffectModel>::empty());
        let dropped: bool = match record {
            Some(r) => r.version != FORMAT_VERSION || match self.cutoff {
                Some(cutoff) => r.last_used <= cutoff,
                None => false,
            },
            None => true,
        };
        if dropped {
            let ghost before = self.stale@;
            self.stale.push(path.clone());
            assert(views(self.stale@) =~= views(before).push(path@));
            if !self.dry_run {
                effects.push(Effect::RemoveFile { path });
                assert(views(effects@) =~= seq![EffectModel::RemoveFile(path@)] + Seq::<
                    EffectModel,
                >::empty());
            }
        }
        self.read_records(rest, effects)
    }

    /// Takes in what the caller has seen, and says what to change and what to
    /// look at next.
    pub fn step(&mut self, seen: Observation) -> (r: Step)
        requires
            old(self).well_formed(),
            expects(old(self)@, seen@),
        ensures
            final(self).well_formed(),
            final(self)@ == step(old(self)@, seen@).state,
            views(r.effects@) == step(old(self)@, seen@).effects,
            r.request@ == step(old(self)@, seen@).request,
    {
        let ghost m = self@;
        let mut stage = Stage::Ended;
        std::mem::swap(&mut stage, &mut self.stage);
        let effects: Vec<Effect> = Vec::new();
        assert(views(effects@) =~= Seq::<EffectModel>::empty());
        match (stage, seen) {
            (Stage::Listing, Observation::Files { paths }) => {
                let r = self.read_files(paths, effects);
                assert(Seq::<EffectModel>::empty() + read_on(m, views(paths@)).effects =~= read_on(
                    m,
                    views(paths@),
                ).effects);
                r
            },
            (Stage::Reading { files }, Observation::Record { record }) => {
                let mut rest = files;
                let path = rest.remove(0);
                assert(views(rest@) =~= views(files@).skip(1));
                assert(path@ == views(files@)[0]);
                self.take_record(path, record, rest)
            },
            (Stage::Measuring { at }, Observation::Sizes { sizes }) => {
                let size: u64 = output_size(&sizes);
                self.set_size(at, size);
                let r = self.measure(at, effects);
                assert(views(r.effects@) =~= step(m, seen@).effects);
                r
            },
            (Stage::Deciding { at }, Observation::Sizes { sizes }) => {
                let size: u64 = output_size(&sizes);
                proof {
                    lemma_measured_prefix(m.ledger, at as int, size, at as int);
                }
                self.set_size(at, size);
                let r = self.decide(at, effects);
                assert(views(r.effects@) =~= step(m, seen@).effects);
                r
            },
            (Stage::ListingRecords, Observation::Files { paths }) => self.read_records(
                paths,
                effects,
            ),
            (Stage::Records { files }, Observation::LastUsed { variant }) => {
                let mut rest = files;
                let path = rest.remove(0);
                assert(views(rest@) =~= views(files@).skip(1));
                assert(path@ == views(files@)[0]);
                self.sift(path, variant, rest)
            },
            _ => Step {
                effects,
                request: Request::List {
                    root: self.build_root.join_text(".input-variants/v1/outputs"),
                },
            },
        }
    }
}

/// Starts a cleaning run at the time `now`: outputs unused for `max_age`
/// seconds are removed, and the least recently used ones until no more than
/// `max_size` bytes are retained. A dry run changes nothing.
pub fn clean(
    build_root: &PathBuf,
    target_root: &PathBuf,
    now: u64,
    max_age: Option<u64>,
    max_size: Option<u64>,
    dry_run: bool,
) -> (r: (Cleaner, Request))
    ensures
        r.0.well_formed(),
        r.0@ == start(
            build_root@,
            target_root@,
            match max_age {
                Some(age) => Some(less(now, age)),
                None => None,
            },
            max_size,
            dry_run,
        ),
        r.1@ == RequestModel::List(outputs_root(build_root@)),
{
    let cutoff: Option<u64> = match max_age {
        Some(age) => Some(now.saturating_sub(age)),
        None => None,
    };
    let outputs: Vec<StoredOutput> = Vec::new();
    let removed: Vec<PathBuf> = Vec::new();
    let stale: Vec<PathBuf> = Vec::new();
    assert(views(outputs@) =~= Seq::<StoredModel>::empty());
    assert(views(removed@) =~= Seq::<Seq<u8>>::empty());
    assert(views(stale@) =~= Seq::<Seq<u8>>::empty());
    let cleaner = Cleaner {
        build_root: build_root.clone(),
        target_root: target_root.clone(),
        cutoff,
        max_size,
        dry_run,
        stage: Stage::Listing,
        outputs,
        retained_bytes: 0,
        removed,
        removed_bytes: 0,
        stale,
    };
    (cleaner, Request::List { root: build_root.join_text(".input-variants/v1/outputs") })
}

/// The lock files that are held while retained variants are cleaned: one below
/// the build root, and one below the target root where that is another place.
pub open spec fn variant_locks_of(build_root: Seq<u8>, target_root: Seq<u8>) -> Seq<Seq<u8>> {
    let name = encode_utf8(".cargo-input-variants-lock"@);
    if same_path(target_root, build_root) {
        seq![join(build_root, name)]
    } else {
        seq![join(build_root, name), join(target_root, name)]
    }
}

/// The lock files to hold while retained variants are cleaned, in order.
pub fn variant_locks(build_root: &PathBuf, target_root: &PathBuf) -> (r: Vec<PathBuf>)
    ensures
        views(r@) == variant_locks_of(build_root@, target_root@),
{
    let mut locks: Vec<PathBuf> = Vec::new();
    locks.push(build_root.join_text(".cargo-input-variants-lock"));
    if !target_root.is_same(build_root) {
        locks.push(target_root.join_text(".cargo-input-variants-lock"));
    }
    assert(views(locks@) =~= variant_locks_of(build_root@, target_root@));
    locks
}

proof fn lemma_uncounted(l: Ledger, i: int)
    requires
        l.max_size is None,
    ensures
        retained_at(l, i) == 0,
    decreases i,
{
    if i > 0 {
        lemma_uncounted(l, i - 1);
    }
}

} // verus!
