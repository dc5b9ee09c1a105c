//! Dep-info files for other build systems.
//!
//! A dep-info file stands beside every artifact that is put where users look
//! for it, and names all local inputs that the artifact was made from: those of
//! its unit and of every local unit that the unit depends on. A run decides; its
//! caller looks at units and files, and changes files. Where a change or a look
//! fails, the caller gives the run up.

use std::collections::HashSet;

use vstd::prelude::*;
use vstd::utf8::{decode_utf8, encode_utf8, valid_utf8};

use crate::locking::{publication_locks, LockManager};
use crate::order::{rank, sort_unique, sorted_set, views};
use crate::path::{join, path_order, same_path, with_extension};
use crate::path_buf::{append_bytes, copy_bytes, PathBuf};
use crate::path_set::copy_paths;
use crate::render::{render_filename, rendered, shown_path};
use crate::text::{optional_text, utf8_text};

verus! {

broadcast use vstd::std_specs::hash::group_hash_axioms;

/// What kind of file an output is.
#[derive(Clone, Copy, Debug, PartialEq, Eq, Structural)]
pub enum FileFlavor {
    /// An artifact that a dep-info file is kept for.
    Artifact,
    DebugInfo,
    Auxiliary,
    Sbom,
    Unremap,
}

/// An output of the unit: where it is built, and where it is put for users.
#[derive(Debug)]
pub struct OutputFile {
    pub path: PathBuf,
    pub hardlink: Option<PathBuf>,
    pub flavor: FileFlavor,
}

/// An output of the unit.
pub struct OutputModel {
    pub path: Seq<u8>,
    pub hardlink: Option<Seq<u8>>,
    pub flavor: FileFlavor,
}

impl View for OutputFile {
    type V = OutputModel;

    open spec fn view(&self) -> OutputModel {
        OutputModel {
            path: self.path@,
            hardlink: match self.hardlink {
                Some(link) => Some(link@),
                None => None,
            },
            flavor: self.flavor,
        }
    }
}

/// A unit that a unit depends on.
#[derive(Clone, Copy, Debug)]
pub struct UnitDependency {
    pub unit: u64,
    pub local: bool,
}

impl View for UnitDependency {
    type V = UnitDependency;

    open spec fn view(&self) -> UnitDependency {
        *self
    }
}

/// What is known of a unit.
#[derive(Debug)]
pub struct UnitInputs {
    /// The unit is the run of a build script, which leaves no dep-info.
    pub runs_build_script: bool,
    pub package_root: PathBuf,
    /// The files that the compiler has read, where that is known.
    pub dep_info: Option<Vec<PathBuf>>,
    /// The paths that the unit's build scripts watch.
    pub rerun_if_changed: Vec<PathBuf>,
    pub dependencies: Vec<UnitDependency>,
}

/// What is known of a unit.
#[verifier::ext_equal]
pub struct InputsModel {
    pub runs_build_script: bool,
    pub package_root: Seq<u8>,
    pub dep_info: Option<Seq<Seq<u8>>>,
    pub rerun_if_changed: Seq<Seq<u8>>,
    pub dependencies: Seq<UnitDependency>,
}

impl View for UnitInputs {
    type V = InputsModel;

    open spec fn view(&self) -> InputsModel {
        InputsModel {
            runs_build_script: self.runs_build_script,
            package_root: self.package_root@,
            dep_info: match self.dep_info {
                Some(files) => Some(views(files@)),
                None => None,
            },
            rerun_if_changed: views(self.rerun_if_changed@),
            dependencies: self.dependencies@,
        }
    }
}

/// A path that a build script watches, below its package.
pub open spec fn watched_path(package_root: Seq<u8>, path: Seq<u8>) -> Seq<u8> {
    if path.len() == 0 {
        package_root
    } else {
        join(package_root, path)
    }
}

/// The paths that a unit's build scripts watch.
pub open spec fn watched_paths(unit: InputsModel) -> Seq<Seq<u8>> {
    Seq::new(
        unit.rerun_if_changed.len(),
        |i: int| watched_path(unit.package_root, unit.rerun_if_changed[i]),
    )
}

/// The compiler has left no word of what it has read.
pub open spec fn is_unknown(unit: InputsModel) -> bool {
    !unit.runs_build_script && unit.dep_info is None
}

/// The inputs of a unit itself.
pub open spec fn own_inputs(unit: InputsModel) -> Seq<Seq<u8>> {
    if unit.runs_build_script {
        watched_paths(unit)
    } else {
        match unit.dep_info {
            Some(files) => files + watched_paths(unit),
            None => Seq::empty(),
        }
    }
}

/// The local units among dependencies, in order.
pub open spec fn local_units(dependencies: Seq<UnitDependency>) -> Seq<u64>
    decreases dependencies.len(),
{
    if dependencies.len() == 0 {
        Seq::empty()
    } else if dependencies.last().local {
        local_units(dependencies.drop_last()).push(dependencies.last().unit)
    } else {
        local_units(dependencies.drop_last())
    }
}

/// What a run goes by once all inputs are known: whether they are complete, the
/// base directory, and the inputs as they are written.
#[verifier::ext_equal]
pub struct RenderedModel {
    pub success: bool,
    pub basedir: Option<Seq<char>>,
    pub deps: Seq<Seq<char>>,
}

/// How far a run has come.
pub enum StageModel {
    /// A unit is being looked at. The units still to visit, the next one last,
    /// those visited, and the inputs found.
    Walking(u64, Seq<u64>, Set<u64>, Seq<Seq<u8>>),
    /// The base directory is to be looked up.
    Basedir(bool, Seq<Seq<u8>>),
    /// The outputs are to be listed.
    Outputs(RenderedModel),
    /// An output is about to be put where users look for it.
    Linking(RenderedModel, Seq<OutputModel>, int),
    /// The dep-info file of an output is being compared.
    Comparing(RenderedModel, Seq<OutputModel>, int, Seq<char>),
    /// The dep-info file of an output is about to be removed.
    Removing(RenderedModel, Seq<OutputModel>, int),
    /// The run has ended.
    Ended,
}

/// The state of a run.
#[verifier::ext_equal]
pub struct DepInfoModel {
    pub root: u64,
    pub target_root: Seq<u8>,
    pub fine_grain_locking: bool,
    pub stage: StageModel,
}

/// Why a run has failed.
#[derive(Debug)]
pub enum DepInfoError {
    /// The base directory is not text.
    BasedirNotText,
    /// A path is not text.
    PathNotText { path: PathBuf },
}

/// Why a run has failed.
pub enum DepInfoFault {
    BasedirNotText,
    PathNotText(Seq<u8>),
}

impl View for DepInfoError {
    type V = DepInfoFault;

    open spec fn view(&self) -> DepInfoFault {
        match *self {
            DepInfoError::BasedirNotText => DepInfoFault::BasedirNotText,
            DepInfoError::PathNotText { path } => DepInfoFault::PathNotText(path@),
        }
    }
}

/// A change to make.
pub enum Effect {
    /// Lock these files exclusively, in order, until the run is over.
    Lock { paths: Vec<PathBuf> },
    /// Link or copy a file to another place.
    Link { from: PathBuf, to: PathBuf },
    /// Replace a file.
    Write { path: PathBuf, contents: Vec<u8> },
    /// Remove a file.
    Remove { path: PathBuf },
}

/// A change to make.
pub enum EffectModel {
    Lock(Seq<Seq<u8>>),
    Link(Seq<u8>, Seq<u8>),
    Write(Seq<u8>, Seq<u8>),
    Remove(Seq<u8>),
}

impl View for Effect {
    type V = EffectModel;

    open spec fn view(&self) -> EffectModel {
        match *self {
            Effect::Lock { paths } => EffectModel::Lock(views(paths@)),
            Effect::Link { from, to } => EffectModel::Link(from@, to@),
            Effect::Write { path, contents } => EffectModel::Write(path@, contents@),
            Effect::Remove { path } => EffectModel::Remove(path@),
        }
    }
}

/// What the caller has to look at next, or how the run has ended.
pub enum Request {
    /// Look at a unit, holding its read lock where told to.
    Unit { unit: u64, locked: bool },
    /// Look up the base directory.
    Basedir,
    /// List the outputs of the unit.
    Outputs,
    /// Say whether this file is there.
    Exists { path: PathBuf },
    /// Read which files this dep-info file names.
    Previous { path: PathBuf },
    /// The run is complete.
    Finished,
    /// The run has failed.
    Failed { error: DepInfoError },
}

/// What the caller has to look at next, or how the run has ended.
pub enum RequestModel {
    Unit(u64, bool),
    Basedir,
    Outputs,
    Exists(Seq<u8>),
    Previous(Seq<u8>),
    Finished,
    Failed(DepInfoFault),
}

impl View for Request {
    type V = RequestModel;

    open spec fn view(&self) -> RequestModel {
        match *self {
            Request::Unit { unit, locked } => RequestModel::Unit(unit, locked),
            Request::Basedir => RequestModel::Basedir,
            Request::Outputs => RequestModel::Outputs,
            Request::Exists { path } => RequestModel::Exists(path@),
            Request::Previous { path } => RequestModel::Previous(path@),
            Request::Finished => RequestModel::Finished,
            Request::Failed { error } => RequestModel::Failed(error@),
        }
    }
}

/// What the caller has seen.
pub enum Observation {
    /// The unit.
    Unit { inputs: UnitInputs },
    /// The base directory, where there is one.
    Basedir { path: Option<PathBuf> },
    /// The outputs of the unit.
    Outputs { outputs: Vec<OutputFile> },
    /// Whether the file is there.
    Exists { exists: bool },
    /// The files that the dep-info file names, where it can be read.
    Previous { files: Option<Vec<PathBuf>> },
}

/// What the caller has seen.
pub enum ObservationModel {
    Unit(InputsModel),
    Basedir(Option<Seq<u8>>),
    Outputs(Seq<OutputModel>),
    Exists(bool),
    Previous(Option<Seq<Seq<u8>>>),
}

impl View for Observation {
    type V = ObservationModel;

    open spec fn view(&self) -> ObservationModel {
        match *self {
            Observation::Unit { inputs } => ObservationModel::Unit(inputs@),
            Observation::Basedir { path } => ObservationModel::Basedir(
                match path {
                    Some(p) => Some(p@),
                    None => None,
                },
            ),
            Observation::Outputs { outputs } => ObservationModel::Outputs(views(outputs@)),
            Observation::Exists { exists } => ObservationModel::Exists(exists),
            Observation::Previous { files } => ObservationModel::Previous(
                match files {
                    Some(f) => Some(views(f@)),
                    None => None,
                },
            ),
        }
    }
}

/// The outcome of one step: the state reached, the changes to make, and what to
/// look at next.
pub struct StepModel {
    pub state: DepInfoModel,
    pub effects: Seq<EffectModel>,
    pub request: RequestModel,
}

/// The units still to visit, without those at the end that have been visited.
pub open spec fn unvisited(pending: Seq<u64>, visited: Set<u64>) -> Seq<u64>
    decreases pending.len(),
{
    if pending.len() > 0 && visited.contains(pending.last()) {
        unvisited(pending.drop_last(), visited)
    } else {
        pending
    }
}

/// Ends the walk.
pub open spec fn walked(m: DepInfoModel, success: bool, inputs: Seq<Seq<u8>>) -> StepModel {
    StepModel {
        state: DepInfoModel {
            stage: StageModel::Basedir(success, sorted_set(inputs, path_order())),
            ..m
        },
        effects: Seq::empty(),
        request: RequestModel::Basedir,
    }
}

/// Goes on to the next unit; where there is none, the inputs are complete.
pub open spec fn walk_on(
    m: DepInfoModel,
    pending: Seq<u64>,
    visited: Set<u64>,
    inputs: Seq<Seq<u8>>,
) -> StepModel {
    let rest = unvisited(pending, visited);
    if rest.len() > 0 {
        let unit = rest.last();
        StepModel {
            state: DepInfoModel {
                stage: StageModel::Walking(unit, rest.drop_last(), visited, inputs),
                ..m
            },
            effects: Seq::empty(),
            request: RequestModel::Unit(unit, m.fine_grain_locking && unit != m.root),
        }
    } else {
        walked(m, true, inputs)
    }
}

/// Takes in a unit: its inputs count, and its local dependencies are visited
/// next, in order. Where its inputs are not known, the walk ends.
pub open spec fn visit(
    m: DepInfoModel,
    unit: u64,
    pending: Seq<u64>,
    visited: Set<u64>,
    inputs: Seq<Seq<u8>>,
    seen: InputsModel,
) -> StepModel {
    if is_unknown(seen) {
        walked(m, false, inputs)
    } else {
        walk_on(
            m,
            pending + local_units(seen.dependencies).reverse(),
            visited.insert(unit),
            inputs + own_inputs(seen),
        )
    }
}

/// The first of these paths that cannot be written, or the number of paths.
pub open spec fn first_unwritable(
    paths: Seq<Seq<u8>>,
    basedir: Option<Seq<char>>,
    i: int,
) -> int
    decreases paths.len() - i,
{
    if i >= paths.len() || rendered(paths[i], basedir) is None {
        i
    } else {
        first_unwritable(paths, basedir, i + 1)
    }
}

/// The paths as they are written.
pub open spec fn all_rendered(paths: Seq<Seq<u8>>, basedir: Option<Seq<char>>) -> Seq<Seq<char>> {
    Seq::new(paths.len(), |i: int| rendered(paths[i], basedir)->0)
}

/// Ends the run with an error.
pub open spec fn failed(m: DepInfoModel, fault: DepInfoFault) -> StepModel {
    StepModel {
        state: DepInfoModel { stage: StageModel::Ended, ..m },
        effects: Seq::empty(),
        request: RequestModel::Failed(fault),
    }
}

/// Writes the inputs as text.
pub open spec fn render_on(
    m: DepInfoModel,
    success: bool,
    inputs: Seq<Seq<u8>>,
    basedir: Option<Seq<char>>,
) -> StepModel {
    let i = first_unwritable(inputs, basedir, 0);
    if i < inputs.len() {
        failed(m, DepInfoFault::PathNotText(shown_path(inputs[i], basedir)))
    } else {
        StepModel {
            state: DepInfoModel {
                stage: StageModel::Outputs(
                    RenderedModel { success, basedir, deps: all_rendered(inputs, basedir) },
                ),
                ..m
            },
            effects: Seq::empty(),
            request: RequestModel::Outputs,
        }
    }
}

/// The places that outputs are put for users.
pub open spec fn hardlinks(outputs: Seq<OutputModel>) -> Seq<Seq<u8>>
    decreases outputs.len(),
{
    if outputs.len() == 0 {
        Seq::empty()
    } else {
        match outputs.last().hardlink {
            Some(link) => hardlinks(outputs.drop_last()).push(link),
            None => hardlinks(outputs.drop_last()),
        }
    }
}

/// The output has no dep-info file.
pub open spec fn is_skipped(flavor: FileFlavor) -> bool {
    flavor != FileFlavor::Artifact
}

/// Something is to be done for the output.
pub open spec fn is_concerned(output: OutputModel, republish: bool) -> bool {
    output.hardlink is Some && (republish || !is_skipped(output.flavor))
}

/// The first output at `i` or behind it that something is to be done for, or the
/// number of outputs.
pub open spec fn next_concerned(outputs: Seq<OutputModel>, republish: bool, i: int) -> int
    decreases outputs.len() - i,
{
    if i >= outputs.len() || is_concerned(outputs[i], republish) {
        i
    } else {
        next_concerned(outputs, republish, i + 1)
    }
}

/// The dep-info file of an output that is put at `link`.
pub open spec fn dep_info_path(link: Seq<u8>) -> Seq<u8> {
    with_extension(link, encode_utf8("d"@))
}

/// What a dep-info file says: the artifact, a colon, and each input behind a
/// space.
pub open spec fn dep_info_contents(target: Seq<char>, deps: Seq<Seq<char>>) -> Seq<u8> {
    (dep_info_prefix(target, deps)).push(10u8)
}

/// A dep-info file without the end of its line.
pub open spec fn dep_info_prefix(target: Seq<char>, deps: Seq<Seq<char>>) -> Seq<u8>
    decreases deps.len(),
{
    if deps.len() == 0 {
        encode_utf8(target).push(58u8)
    } else {
        dep_info_prefix(target, deps.drop_last()).push(32u8) + encode_utf8(deps.last())
    }
}

/// The dep-info file already names these inputs.
pub open spec fn names_same(files: Seq<Seq<u8>>, deps: Seq<Seq<char>>) -> bool {
    files.len() == deps.len() && forall|i: int|
        0 <= i < files.len() ==> same_path(#[trigger] files[i], encode_utf8(deps[i]))
}

/// Looks after the dep-info file of output `i`.
pub open spec fn compare_on(
    m: DepInfoModel,
    run: RenderedModel,
    outputs: Seq<OutputModel>,
    i: int,
) -> StepModel {
    let link = outputs[i].hardlink->0;
    if run.success {
        match rendered(link, run.basedir) {
            None => failed(m, DepInfoFault::PathNotText(shown_path(link, run.basedir))),
            Some(target) => StepModel {
                state: DepInfoModel {
                    stage: StageModel::Comparing(run, outputs, i, target),
                    ..m
                },
                effects: Seq::empty(),
                request: RequestModel::Previous(dep_info_path(link)),
            },
        }
    } else {
        StepModel {
            state: DepInfoModel { stage: StageModel::Removing(run, outputs, i), ..m },
            effects: Seq::empty(),
            request: RequestModel::Exists(dep_info_path(link)),
        }
    }
}

/// Goes on to the next output that something is to be done for.
pub open spec fn output_on(
    m: DepInfoModel,
    run: RenderedModel,
    outputs: Seq<OutputModel>,
    from: int,
) -> StepModel {
    let i = next_concerned(outputs, m.fine_grain_locking, from);
    if i >= outputs.len() {
        StepModel {
            state: DepInfoModel { stage: StageModel::Ended, ..m },
            effects: Seq::empty(),
            request: RequestModel::Finished,
        }
    } else if m.fine_grain_locking {
        StepModel {
            state: DepInfoModel { stage: StageModel::Linking(run, outputs, i), ..m },
            effects: Seq::empty(),
            request: RequestModel::Exists(outputs[i].path),
        }
    } else {
        compare_on(m, run, outputs, i)
    }
}

/// A step with changes put before those that it makes.
pub open spec fn after_changes(effects: Seq<EffectModel>, s: StepModel) -> StepModel {
    StepModel { effects, ..s }
}

/// The observation answers what the stage waits for.
pub open spec fn expects(stage: StageModel, seen: ObservationModel) -> bool {
    match stage {
        StageModel::Walking(..) => seen is Unit,
        StageModel::Basedir(..) => seen is Basedir,
        StageModel::Outputs(_) => seen is Outputs,
        StageModel::Linking(..) | StageModel::Removing(..) => seen is Exists,
        StageModel::Comparing(..) => seen is Previous,
        StageModel::Ended => false,
    }
}

/// One step of a run.
pub open spec fn step(m: DepInfoModel, seen: ObservationModel) -> StepModel {
    match (m.stage, seen) {
        (
            StageModel::Walking(unit, pending, visited, inputs),
            ObservationModel::Unit(found),
        ) => visit(m, unit, pending, visited, inputs, found),
        (StageModel::Basedir(success, inputs), ObservationModel::Basedir(path)) => match path {
            None => render_on(m, success, inputs, None),
            Some(p) => if valid_utf8(p) {
                render_on(m, success, inputs, Some(decode_utf8(p)))
            } else {
                failed(m, DepInfoFault::BasedirNotText)
            },
        },
        (StageModel::Outputs(run), ObservationModel::Outputs(outputs)) => after_changes(
            if m.fine_grain_locking {
                seq![EffectModel::Lock(publication_locks(m.target_root, hardlinks(outputs)))]
            } else {
                Seq::empty()
            },
            output_on(m, run, outputs, 0),
        ),
        (StageModel::Linking(run, outputs, i), ObservationModel::Exists(exists)) => after_changes(
            if exists {
                seq![EffectModel::Link(outputs[i].path, outputs[i].hardlink->0)]
            } else {
                Seq::empty()
            },
            if is_skipped(outputs[i].flavor) {
                output_on(m, run, outputs, i + 1)
            } else {
                compare_on(m, run, outputs, i)
            },
        ),
        (
            StageModel::Comparing(run, outputs, i, target),
            ObservationModel::Previous(files),
        ) => after_changes(
            if files is Some && names_same(files->0, run.deps) {
                Seq::empty()
            } else {
                seq![
                    EffectModel::Write(
                        dep_info_path(outputs[i].hardlink->0),
                        dep_info_contents(target, run.deps),
                    ),
                ]
            },
            output_on(m, run, outputs, i + 1),
        ),
        (StageModel::Removing(run, outputs, i), ObservationModel::Exists(exists)) => after_changes(
            if exists {
                seq![EffectModel::Remove(dep_info_path(outputs[i].hardlink->0))]
            } else {
                Seq::empty()
            },
            output_on(m, run, outputs, i + 1),
        ),
        _ => StepModel { state: m, effects: Seq::empty(), request: RequestModel::Finished },
    }
}

/// The inputs as they are written, and whether they are complete.
struct Rendered {
    success: bool,
    basedir: Option<String>,
    deps: Vec<String>,
}

impl View for Rendered {
    type V = RenderedModel;

    closed spec fn view(&self) -> RenderedModel {
        RenderedModel {
            success: self.success,
            basedir: optional_text(self.basedir),
            deps: views(self.deps@),
        }
    }
}

enum Stage {
    Walking { unit: u64, pending: Vec<u64>, visited: HashSet<u64>, inputs: Vec<PathBuf> },
    Basedir { success: bool, inputs: Vec<PathBuf> },
    Outputs { run: Rendered },
    Linking { run: Rendered, outputs: Vec<OutputFile>, at: usize },
    Comparing { run: Rendered, outputs: Vec<OutputFile>, at: usize, target: String },
    Removing { run: Rendered, outputs: Vec<OutputFile>, at: usize },
    Ended,
}

impl View for Stage {
    type V = StageModel;

    closed spec fn view(&self) -> StageModel {
        match *self {
            Stage::Walking { unit, pending, visited, inputs } => StageModel::Walking(
                unit,
                pending@,
                visited@,
                views(inputs@),
            ),
            Stage::Basedir { success, inputs } => StageModel::Basedir(success, views(inputs@)),
            Stage::Outputs { run } => StageModel::Outputs(run@),
            Stage::Linking { run, outputs, at } => StageModel::Linking(
                run@,
                views(outputs@),
                at as int,
            ),
            Stage::Comparing { run, outputs, at, target } => StageModel::Comparing(
                run@,
                views(outputs@),
                at as int,
                target@,
            ),
            Stage::Removing { run, outputs, at } => StageModel::Removing(
                run@,
                views(outputs@),
                at as int,
            ),
            Stage::Ended => StageModel::Ended,
        }
    }
}

/// A run that brings the dep-info files of a unit up to date.
pub struct DepInfoRun {
    root: u64,
    target_root: PathBuf,
    fine_grain_locking: bool,
    stage: Stage,
}

/// The changes to make now, and what to look at next.
pub struct Step {
    pub effects: Vec<Effect>,
    pub request: Request,
}

impl View for DepInfoRun {
    type V = DepInfoModel;

    closed spec fn view(&self) -> DepInfoModel {
        DepInfoModel {
            root: self.root,
            target_root: self.target_root@,
            fine_grain_locking: self.fine_grain_locking,
            stage: self.stage@,
        }
    }
}

/// Something is to be done for output `i`.
pub open spec fn is_at(m: DepInfoModel, outputs: Seq<OutputModel>, i: int) -> bool {
    0 <= i < outputs.len() && is_concerned(outputs[i], m.fine_grain_locking)
}

/// What holds between the steps of a run.
pub open spec fn stage_holds(m: DepInfoModel) -> bool {
    match m.stage {
        StageModel::Linking(run, outputs, i) => is_at(m, outputs, i) && m.fine_grain_locking,
        StageModel::Comparing(run, outputs, i, target) => {
            &&& is_at(m, outputs, i)
            &&& !is_skipped(outputs[i].flavor)
            &&& run.success
            &&& rendered(outputs[i].hardlink->0, run.basedir) == Some(target)
        },
        StageModel::Removing(run, outputs, i) => {
            &&& is_at(m, outputs, i)
            &&& !is_skipped(outputs[i].flavor)
            &&& !run.success
        },
        _ => true,
    }
}

proof fn lemma_next_concerned(outputs: Seq<OutputModel>, republish: bool, i: int, j: int)
    requires
        0 <= i <= j <= outputs.len(),
        forall|k: int| i <= k < j ==> !is_concerned(#[trigger] outputs[k], republish),
        j < outputs.len() ==> is_concerned(outputs[j], republish),
    ensures
        next_concerned(outputs, republish, i) == j,
    decreases j - i,
{
    if i < j {
        assert(!is_concerned(outputs[i], republish));
        lemma_next_concerned(outputs, republish, i + 1, j);
    }
}

proof fn lemma_first_unwritable(
    paths: Seq<Seq<u8>>,
    basedir: Option<Seq<char>>,
    i: int,
    j: int,
)
    requires
        0 <= i <= j <= paths.len(),
        forall|k: int| i <= k < j ==> rendered(#[trigger] paths[k], basedir) is Some,
        j < paths.len() ==> rendered(paths[j], basedir) is None,
    ensures
        first_unwritable(paths, basedir, i) == j,
    decreases j - i,
{
    if i < j {
        assert(rendered(paths[i], basedir) is Some);
        lemma_first_unwritable(paths, basedir, i + 1, j);
    }
}

/// The places that outputs are put for users.
fn hardlinks_of(outputs: &Vec<OutputFile>) -> (r: Vec<PathBuf>)
    ensures
        views(r@) == hardlinks(views(outputs@)),
{
    let ghost all = views(outputs@);
    let mut r: Vec<PathBuf> = Vec::new();
    let mut i: usize = 0;
    assert(views(r@) =~= hardlinks(all.take(0)));
    while i < outputs.len()
        invariant
            i <= outputs@.len(),
            all == views(outputs@),
            views(r@) == hardlinks(all.take(i as int)),
        decreases outputs@.len() - i,
    {
        assert(all.take(i + 1).drop_last() =~= all.take(i as int));
        assert(all[i as int] == outputs@[i as int]@);
        match &outputs[i].hardlink {
            Some(link) => {
                let ghost before = r@;
                r.push(link.clone());
                assert(views(r@) =~= views(before).push(link@));
            },
            None => {},
        }
        i = i + 1;
    }
    assert(all.take(i as int) =~= all);
    r
}

/// What a dep-info file says.
fn contents_of(target: &str, deps: &Vec<String>) -> (r: Vec<u8>)
    ensures
        r@ == dep_info_contents(target@, views(deps@)),
{
    let ghost all = views(deps@);
    let mut r: Vec<u8> = copy_bytes(target.as_bytes());
    r.push(58);
    let mut i: usize = 0;
    assert(all.take(0) =~= Seq::<Seq<char>>::empty());
    while i < deps.len()
        invariant
            i <= deps@.len(),
            all == views(deps@),
            r@ == dep_info_prefix(target@, all.take(i as int)),
        decreases deps@.len() - i,
    {
        assert(all.take(i + 1).drop_last() =~= all.take(i as int));
        assert(all[i as int] == deps@[i as int]@);
        r.push(32);
        append_bytes(&mut r, deps[i].as_str().as_bytes());
        i = i + 1;
    }
    assert(all.take(i as int) =~= all);
    r.push(10);
    r
}

/// Whether a dep-info file already names these inputs.
fn names_same_files(files: &Vec<PathBuf>, deps: &Vec<String>) -> (r: bool)
    ensures
        r == names_same(views(files@), views(deps@)),
{
    if files.len() != deps.len() {
        return false;
    }
    let ghost f = views(files@);
    let ghost d = views(deps@);
    let mut i: usize = 0;
    while i < files.len()
        invariant
            i <= files@.len(),
            files@.len() == deps@.len(),
            f == views(files@),
            d == views(deps@),
            forall|k: int| 0 <= k < i ==> same_path(#[trigger] f[k], encode_utf8(d[k])),
        decreases files@.len() - i,
    {
        assert(f[i as int] == files@[i as int]@ && d[i as int] == deps@[i as int]@);
        if !files[i].is_same(&PathBuf::new(deps[i].as_str())) {
            return false;
        }
        i = i + 1;
    }
    true
}

/// The paths that a unit's build scripts watch.
fn watched_paths_of(unit: &UnitInputs) -> (r: Vec<PathBuf>)
    ensures
        views(r@) == watched_paths(unit@),
{
    let ghost all = watched_paths(unit@);
    let mut r: Vec<PathBuf> = Vec::new();
    let mut i: usize = 0;
    while i < unit.rerun_if_changed.len()
        invariant
            i <= unit.rerun_if_changed@.len(),
            all == watched_paths(unit@),
            r@.len() == i,
            forall|k: int| 0 <= k < i ==> (#[trigger] r@[k])@ == all[k],
        decreases unit.rerun_if_changed@.len() - i,
    {
        let path = &unit.rerun_if_changed[i];
        if path.as_bytes().len() == 0 {
            r.push(unit.package_root.clone());
        } else {
            r.push(unit.package_root.join(path));
        }
        i = i + 1;
    }
    assert(views(r@) =~= all);
    r
}

/// Puts the local units among dependencies on the list of those to visit, so
/// that the first comes out first.
fn push_local_units(dependencies: &Vec<UnitDependency>, pending: &mut Vec<u64>)
    ensures
        final(pending)@ == old(pending)@ + local_units(dependencies@).reverse(),
{
    let ghost all = dependencies@;
    let mut i: usize = dependencies.len();
    let ghost begun = pending@;
    proof {
        assert(all.take(i as int) =~= all);
        lemma_local_units(all, i as int);
        assert(begun + local_units(all.skip(i as int)).reverse() =~= begun);
    }
    while i > 0
        invariant
            i <= dependencies@.len(),
            all == dependencies@,
            pending@ == begun + local_units(all.skip(i as int)).reverse(),
        decreases i,
    {
        i = i - 1;
        proof {
            let tail = all.skip(i as int);
            lemma_local_front(tail);
            assert(tail.drop_first() =~= all.skip(i + 1));
            assert(tail[0] == all[i as int]);
        }
        let ghost before = pending@;
        let ghost later = local_units(all.skip(i + 1));
        if dependencies[i].local {
            pending.push(dependencies[i].unit);
            assert((seq![all[i as int].unit] + later).reverse() =~= later.reverse().push(
                all[i as int].unit,
            ));
            assert(pending@ =~= begun + local_units(all.skip(i as int)).reverse());
        }
    }
    assert(all.skip(0) =~= all);
}

proof fn lemma_local_units(all: Seq<UnitDependency>, i: int)
    requires
        i == all.len(),
    ensures
        local_units(all.skip(i)).len() == 0,
{
    assert(all.skip(i) =~= Seq::<UnitDependency>::empty());
}

proof fn lemma_local_front(s: Seq<UnitDependency>)
    requires
        s.len() > 0,
    ensures
        local_units(s) == (if s[0].local {
            seq![s[0].unit]
        } else {
            Seq::<u64>::empty()
        }) + local_units(s.drop_first()),
    decreases s.len(),
{
    let head = if s[0].local {
        seq![s[0].unit]
    } else {
        Seq::<u64>::empty()
    };
    if s.len() == 1 {
        assert(s.drop_last() =~= Seq::<UnitDependency>::empty());
        assert(s.drop_first() =~= Seq::<UnitDependency>::empty());
        assert(local_units(s.drop_last()) =~= Seq::<u64>::empty());
        assert(local_units(s.drop_first()) =~= Seq::<u64>::empty());
        assert(s.last() == s[0]);
        assert(local_units(s) =~= head + local_units(s.drop_first()));
    } else {
        let init = s.drop_last();
        lemma_local_front(init);
        assert(init.drop_first() =~= s.drop_first().drop_last());
        assert(s.drop_first().last() == s.last());
        assert(init[0] == s[0]);
        assert(local_units(s) =~= head + local_units(s.drop_first()));
    }
}

impl DepInfoRun {
    /// What holds between the steps of a run.
    pub open spec fn well_formed(&self) -> bool {
        stage_holds(self@)
    }

    /// Ends the walk.
    fn end_walk(&mut self, success: bool, inputs: Vec<PathBuf>) -> (r: Step)
        ensures
            final(self).well_formed(),
            final(self)@ == walked(old(self)@, success, views(inputs@)).state,
            views(r.effects@) == Seq::<EffectModel>::empty(),
            r.request@ == RequestModel::Basedir,
    {
        assert(rank::<PathBuf>() =~= path_order());
        self.stage = Stage::Basedir { success, inputs: sort_unique(inputs) };
        let effects: Vec<Effect> = Vec::new();
        assert(views(effects@) =~= Seq::<EffectModel>::empty());
        Step { effects, request: Request::Basedir }
    }

    /// Goes on to the next unit; where there is none, the inputs are complete.
    fn walk(&mut self, pending: Vec<u64>, visited: HashSet<u64>, inputs: Vec<PathBuf>) -> (r: Step)
        ensures
            final(self).well_formed(),
            ({
                let s = walk_on(old(self)@, pending@, visited@, views(inputs@));
                &&& final(self)@ == s.state
                &&& views(r.effects@) == s.effects
                &&& r.request@ == s.request
            }),
    {
        let ghost all = pending@;
        let mut pending = pending;
        while pending.len() > 0 && visited.contains(&pending[pending.len() - 1])
            invariant
                unvisited(all, visited@) == unvisited(pending@, visited@),
            decreases pending@.len(),
        {
            let ghost before = pending@;
            let _ = pending.pop();
            assert(pending@ =~= before.drop_last());
        }
        let ghost rest = pending@;
        assert(unvisited(all, visited@) == rest);
        match pending.pop() {
            Some(unit) => {
                assert(pending@ =~= rest.drop_last());
                self.stage = Stage::Walking { unit, pending, visited, inputs };
                let effects: Vec<Effect> = Vec::new();
                assert(views(effects@) =~= Seq::<EffectModel>::empty());
                let locked: bool = self.fine_grain_locking && unit != self.root;
                Step { effects, request: Request::Unit { unit, locked } }
            },
            None => self.end_walk(true, inputs),
        }
    }

    /// Takes in a unit.
    fn add_deps_for_unit(
        &mut self,
        unit: u64,
        pending: Vec<u64>,
        visited: HashSet<u64>,
        inputs: Vec<PathBuf>,
        seen: UnitInputs,
    ) -> (r: Step)
        ensures
            final(self).well_formed(),
            ({
                let s = visit(old(self)@, unit, pending@, visited@, views(inputs@), seen@);
                &&& final(self)@ == s.state
                &&& views(r.effects@) == s.effects
                &&& r.request@ == s.request
            }),
    {
        let ghost begun = views(inputs@);
        let mut inputs = inputs;
        let mut watched = watched_paths_of(&seen);
        if !seen.runs_build_script {
            match &seen.dep_info {
                None => {
                    return self.end_walk(false, inputs);
                },
                Some(files) => {
                    let mut files = copy_paths(files);
                    let ghost f = files@;
                    let ghost before = inputs@;
                    inputs.append(&mut files);
                    assert(views(inputs@) =~= views(before) + views(f));
                },
            }
        }
        let ghost w = watched@;
        let ghost before = inputs@;
        inputs.append(&mut watched);
        proof {
            assert(views(inputs@) =~= views(before) + views(w));
            assert(views(inputs@) =~= begun + own_inputs(seen@));
        }
        let mut pending = pending;
        push_local_units(&seen.dependencies, &mut pending);
        let mut visited = visited;
        visited.insert(unit);
        self.walk(pending, visited, inputs)
    }

    /// Ends the run with an error.
    fn fail(&mut self, error: DepInfoError) -> (r: Step)
        ensures
            final(self).well_formed(),
            final(self)@ == failed(old(self)@, error@).state,
            views(r.effects@) == Seq::<EffectModel>::empty(),
            r.request@ == RequestModel::Failed(error@),
    {
        self.stage = Stage::Ended;
        let effects: Vec<Effect> = Vec::new();
        assert(views(effects@) =~= Seq::<EffectModel>::empty());
        Step { effects, request: Request::Failed { error } }
    }

    /// Writes the inputs as text.
    fn render(&mut self, success: bool, inputs: Vec<PathBuf>, basedir: Option<String>) -> (r: Step)
        ensures
            final(self).well_formed(),
            ({
                let s = render_on(
                    old(self)@,
                    success,
                    views(inputs@),
                    optional_text(basedir),
                );
                &&& final(self)@ == s.state
                &&& views(r.effects@) == s.effects
                &&& r.request@ == s.request
            }),
    {
        let ghost all = views(inputs@);
        let ghost base = optional_text(basedir);
        let mut deps: Vec<String> = Vec::new();
        let mut i: usize = 0;
        while i < inputs.len()
            invariant
                i <= inputs@.len(),
                *self == *old(self),
                all == views(inputs@),
                base == optional_text(basedir),
                deps@.len() == i,
                forall|k: int| 0 <= k < i ==> rendered(#[trigger] all[k], base) is Some,
                forall|k: int|
                    0 <= k < i ==> (#[trigger] deps@[k])@ == rendered(all[k], base)->0,
            decreases inputs@.len() - i,
        {
            assert(all[i as int] == inputs@[i as int]@);
            match render_filename(&inputs[i], &basedir) {
                Ok(text) => {
                    deps.push(text);
                },
                Err(error) => {
                    proof {
                        lemma_first_unwritable(all, base, 0, i as int);
                    }
                    return self.fail(DepInfoError::PathNotText { path: error.path });
                },
            }
            i = i + 1;
        }
        proof {
            lemma_first_unwritable(all, base, 0, i as int);
            assert(views(deps@) =~= all_rendered(all, base));
        }
        self.stage = Stage::Outputs { run: Rendered { success, basedir, deps } };
        let effects: Vec<Effect> = Vec::new();
        assert(views(effects@) =~= Seq::<EffectModel>::empty());
        Step { effects, request: Request::Outputs }
    }

    /// Looks after the dep-info file of output `at`.
    fn compare(
        &mut self,
        run: Rendered,
        outputs: Vec<OutputFile>,
        at: usize,
        begun: Vec<Effect>,
    ) -> (r: Step)
        requires
            is_at(old(self)@, views(outputs@), at as int),
            !is_skipped(views(outputs@)[at as int].flavor),
        ensures
            final(self).well_formed(),
            ({
                let s = compare_on(old(self)@, run@, views(outputs@), at as int);
                &&& final(self)@ == s.state
                &&& views(r.effects@) == views(begun@)
                &&& r.request@ == s.request
            }),
    {
        assert(views(outputs@)[at as int] == outputs@[at as int]@);
        let link = match &outputs[at].hardlink {
            Some(link) => link.clone(),
            None => outputs[at].path.clone(),
        };
        let path = link.with_extension("d");
        if run.success {
            match render_filename(&link, &run.basedir) {
                Err(error) => {
                    self.stage = Stage::Ended;
                    let error = DepInfoError::PathNotText { path: error.path };
                    Step { effects: begun, request: Request::Failed { error } }
                },
                Ok(target) => {
                    self.stage = Stage::Comparing { run, outputs, at, target };
                    Step { effects: begun, request: Request::Previous { path } }
                },
            }
        } else {
            self.stage = Stage::Removing { run, outputs, at };
            Step { effects: begun, request: Request::Exists { path } }
        }
    }

    /// Goes on to the next output that something is to be done for.
    fn next_output(
        &mut self,
        run: Rendered,
        outputs: Vec<OutputFile>,
        from: usize,
        begun: Vec<Effect>,
    ) -> (r: Step)
        requires
            from <= outputs@.len(),
        ensures
            final(self).well_formed(),
            ({
                let s = output_on(old(self)@, run@, views(outputs@), from as int);
                &&& final(self)@ == s.state
                &&& views(r.effects@) == views(begun@)
                &&& r.request@ == s.request
            }),
    {
        let ghost all = views(outputs@);
        let republish: bool = self.fine_grain_locking;
        let mut i: usize = from;
        while i < outputs.len() && !(outputs[i].hardlink.is_some() && (republish
            || outputs[i].flavor == FileFlavor::Artifact))
            invariant
                from <= i <= outputs@.len(),
                all == views(outputs@),
                forall|k: int| from <= k < i ==> !is_concerned(#[trigger] all[k], republish),
            decreases outputs@.len() - i,
        {
            assert(all[i as int] == outputs@[i as int]@);
            i = i + 1;
        }
        proof {
            if i < all.len() {
                assert(all[i as int] == outputs@[i as int]@);
            }
            lemma_next_concerned(all, republish, from as int, i as int);
        }
        if i >= outputs.len() {
            self.stage = Stage::Ended;
            Step { effects: begun, request: Request::Finished }
        } else if republish {
            let path = outputs[i].path.clone();
            self.stage = Stage::Linking { run, outputs, at: i };
            Step { effects: begun, request: Request::Exists { path } }
        } else {
            self.compare(run, outputs, i, begun)
        }
    }

    /// Takes in what the caller has seen, and says what to change and what to
    /// look at next.
    pub fn step(&mut self, seen: Observation) -> (r: Step)
        requires
            old(self).well_formed(),
            expects(old(self)@.stage, seen@),
        ensures
            final(self).well_formed(),
            final(self)@ == step(old(self)@, seen@).state,
            views(r.effects@) == step(old(self)@, seen@).effects,
            r.request@ == step(old(self)@, seen@).request,
    {
        let ghost m = self@;
        let mut stage = Stage::Ended;
        std::mem::swap(&mut stage, &mut self.stage);
        let mut effects: Vec<Effect> = Vec::new();
        assert(views(effects@) =~= Seq::<EffectModel>::empty());
        match (stage, seen) {
            (Stage::Walking { unit, pending, visited, inputs }, Observation::Unit { inputs: found }) => {
                self.add_deps_for_unit(unit, pending, visited, inputs, found)
            },
            (Stage::Basedir { success, inputs }, Observation::Basedir { path }) => match path {
                None => self.render(success, inputs, None),
                Some(p) => match utf8_text(p.as_bytes()) {
                    Some(text) => self.render(success, inputs, Some(text)),
                    None => self.fail(DepInfoError::BasedirNotText),
                },
            },
            (Stage::Outputs { run }, Observation::Outputs { outputs }) => {
                if self.fine_grain_locking {
                    let locks = LockManager::new().prepare_artifact_publication(
                        &self.target_root,
                        &hardlinks_of(&outputs),
                    );
                    effects.push(Effect::Lock { paths: locks.acquire() });
                    assert(views(effects@) =~= step(m, seen@).effects);
                }
                self.next_output(run, outputs, 0, effects)
            },
            (Stage::Linking { run, outputs, at }, Observation::Exists { exists }) => {
                assert(views(outputs@)[at as int] == outputs@[at as int]@);
                assert(at < outputs.len());
                if exists {
                    match &outputs[at].hardlink {
                        Some(link) => {
                            effects.push(
                                Effect::Link { from: outputs[at].path.clone(), to: link.clone() },
                            );
                        },
                        None => {},
                    }
                    assert(views(effects@) =~= step(m, seen@).effects);
                }
                if outputs[at].flavor == FileFlavor::Artifact {
                    self.compare(run, outputs, at, effects)
                } else {
                    self.next_output(run, outputs, at + 1, effects)
                }
            },
            (Stage::Comparing { run, outputs, at, target }, Observation::Previous { files }) => {
                assert(views(outputs@)[at as int] == outputs@[at as int]@);
                assert(at < outputs.len());
                let same: bool = match &files {
                    Some(files) => names_same_files(files, &run.deps),
                    None => false,
                };
                if !same {
                    match &outputs[at].hardlink {
                        Some(link) => {
                            let path = link.with_extension("d");
                            let contents = contents_of(target.as_str(), &run.deps);
                            effects.push(Effect::Write { path, contents });
                        },
                        None => {},
                    }
                    assert(views(effects@) =~= step(m, seen@).effects);
                }
                self.next_output(run, outputs, at + 1, effects)
            },
            (Stage::Removing { run, outputs, at }, Observation::Exists { exists }) => {
                assert(views(outputs@)[at as int] == outputs@[at as int]@);
                assert(at < outputs.len());
                if exists {
                    match &outputs[at].hardlink {
                        Some(link) => {
                            effects.push(Effect::Remove { path: link.with_extension("d") });
                        },
                        None => {},
                    }
                    assert(views(effects@) =~= step(m, seen@).effects);
                }
                self.next_output(run, outputs, at + 1, effects)
            },
            _ => Step { effects, request: Request::Finished },
        }
    }
}

/// The state that a run starts in: the unit itself is looked at first.
pub open spec fn start(root: u64, target_root: Seq<u8>, fine_grain_locking: bool) -> DepInfoModel {
    DepInfoModel {
        root,
        target_root,
        fine_grain_locking,
        stage: StageModel::Walking(root, Seq::empty(), Set::empty(), Seq::empty()),
    }
}

/// Starts to bring the dep-info files of a unit up to date. With fine-grain
/// locking, the caller holds the unit's read lock until the run is over.
pub fn output_depinfo(root: u64, target_root: &PathBuf, fine_grain_locking: bool) -> (r: (
    DepInfoRun,
    Request,
))
    ensures
        r.0.well_formed(),
        r.0@ == start(root, target_root@, fine_grain_locking),
        r.1@ == RequestModel::Unit(root, false),
{
    let pending: Vec<u64> = Vec::new();
    let visited: HashSet<u64> = HashSet::new();
    let inputs: Vec<PathBuf> = Vec::new();
    assert(views(inputs@) =~= Seq::<Seq<u8>>::empty());
    let run = DepInfoRun {
        root,
        target_root: target_root.clone(),
        fine_grain_locking,
        stage: Stage::Walking { unit: root, pending, visited, inputs },
    };
    (run, Request::Unit { unit: root, locked: false })
}

} // verus!
