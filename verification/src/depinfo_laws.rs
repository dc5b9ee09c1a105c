//! What holds of every run that brings dep-info files up to date.

use vstd::prelude::*;
use vstd::utf8::{decode_utf8, encode_utf8, valid_utf8};

use crate::locking::publication_locks;
use crate::order::{sorted_set, sorted_set_is_strictly_ranked, strictly_ranked, ties};
use crate::output_depinfo::{
    dep_info_contents, dep_info_path, expects, first_unwritable, hardlinks, is_concerned,
    is_skipped, is_unknown, local_units, next_concerned, output_on, own_inputs, stage_holds, start,
    step, unvisited, watched_paths, DepInfoFault, DepInfoModel, EffectModel, FileFlavor,
    InputsModel, ObservationModel, OutputModel, RenderedModel, RequestModel, StageModel, StepModel,
    UnitDependency,
};
use crate::path::{
    components, join, path_le, path_le_is_total_preorder, path_order, same_path, with_extension,
};
use crate::reach::{reachable, reached_is_in_closed_set, start_is_reached, successor_is_reached};
use crate::render::{rendered, shown_path};

verus! {

/// The local units that each unit depends on.
pub open spec fn local_graph(units: spec_fn(u64) -> InputsModel) -> spec_fn(u64) -> Seq<u64> {
    |u: u64| local_units(units(u).dependencies)
}

/// The unit is the root, or the root depends on it through local units.
pub open spec fn is_part(units: spec_fn(u64) -> InputsModel, root: u64, u: u64) -> bool {
    reachable(local_graph(units), seq![root], u)
}

/// A unit that is part of the build has this input.
pub open spec fn is_input(units: spec_fn(u64) -> InputsModel, root: u64, file: Seq<u8>) -> bool {
    exists|u: u64| #[trigger] is_part(units, root, u) && own_inputs(units(u)).contains(file)
}

/// The state of a run after its first `n` looks at units.
pub open spec fn walk_after(
    units: spec_fn(u64) -> InputsModel,
    begun: DepInfoModel,
    n: nat,
) -> DepInfoModel
    decreases n,
{
    if n == 0 {
        begun
    } else {
        let m = walk_after(units, begun, (n - 1) as nat);
        match m.stage {
            StageModel::Walking(unit, pending, visited, inputs) => step(
                m,
                ObservationModel::Unit(units(unit)),
            ).state,
            _ => m,
        }
    }
}

/// The inputs found are those of the units visited.
spec fn inputs_of_visited(
    units: spec_fn(u64) -> InputsModel,
    visited: Set<u64>,
    inputs: Seq<Seq<u8>>,
) -> bool {
    forall|x: Seq<u8>| #[trigger]
        inputs.contains(x) <==> exists|v: u64| #[trigger]
            visited.contains(v) && own_inputs(units(v)).contains(x)
}

/// Units visited are part of the build, have known inputs, and their local
/// dependencies have been visited or will be.
spec fn walk_holds(
    units: spec_fn(u64) -> InputsModel,
    root: u64,
    todo: Seq<u64>,
    visited: Set<u64>,
    inputs: Seq<Seq<u8>>,
) -> bool {
    &&& visited.contains(root) || todo.contains(root)
    &&& forall|k: int| 0 <= k < todo.len() ==> is_part(units, root, #[trigger] todo[k])
    &&& forall|v: u64| #[trigger]
        visited.contains(v) ==> is_part(units, root, v) && !is_unknown(units(v))
    &&& forall|v: u64, d: u64| #[trigger]
        visited.contains(v) && #[trigger] local_units(units(v).dependencies).contains(d)
            ==> visited.contains(d) || todo.contains(d)
    &&& inputs_of_visited(units, visited, inputs)
}

proof fn lemma_unvisited(todo: Seq<u64>, visited: Set<u64>)
    ensures
        unvisited(todo, visited).len() <= todo.len(),
        unvisited(todo, visited) == todo.take(unvisited(todo, visited).len() as int),
        forall|d: u64| #[trigger]
            todo.contains(d) ==> visited.contains(d) || unvisited(todo, visited).contains(d),
        unvisited(todo, visited).len() > 0 ==> !visited.contains(unvisited(todo, visited).last()),
    decreases todo.len(),
{
    if todo.len() > 0 && visited.contains(todo.last()) {
        let init = todo.drop_last();
        lemma_unvisited(init, visited);
        let rest = unvisited(todo, visited);
        assert(init.take(rest.len() as int) =~= todo.take(rest.len() as int));
        assert forall|d: u64| #[trigger] todo.contains(d) implies visited.contains(d)
            || rest.contains(d) by {
            let k = choose|k: int| 0 <= k < todo.len() && todo[k] == d;
            if k < init.len() {
                assert(init[k] == d);
                assert(init.contains(d));
            }
        }
    } else {
        assert(todo.take(todo.len() as int) =~= todo);
    }
}

proof fn lemma_walk_skips(
    units: spec_fn(u64) -> InputsModel,
    root: u64,
    todo: Seq<u64>,
    visited: Set<u64>,
    inputs: Seq<Seq<u8>>,
)
    requires
        walk_holds(units, root, todo, visited, inputs),
    ensures
        walk_holds(units, root, unvisited(todo, visited), visited, inputs),
{
    lemma_unvisited(todo, visited);
    let rest = unvisited(todo, visited);
    assert forall|k: int| 0 <= k < rest.len() implies is_part(units, root, #[trigger] rest[k]) by {
        assert(rest[k] == todo[k]);
    }
}

proof fn lemma_walk_visits(
    units: spec_fn(u64) -> InputsModel,
    root: u64,
    unit: u64,
    pending: Seq<u64>,
    visited: Set<u64>,
    inputs: Seq<Seq<u8>>,
)
    requires
        walk_holds(units, root, pending.push(unit), visited, inputs),
        !is_unknown(units(unit)),
    ensures
        walk_holds(
            units,
            root,
            pending + local_units(units(unit).dependencies).reverse(),
            visited.insert(unit),
            inputs + own_inputs(units(unit)),
        ),
{
    let todo = pending.push(unit);
    let next = local_units(units(unit).dependencies);
    let later = pending + next.reverse();
    let now = visited.insert(unit);
    let found = inputs + own_inputs(units(unit));
    assert(todo[pending.len() as int] == unit);
    assert(is_part(units, root, unit));
    assert forall|d: u64| #[trigger] todo.contains(d) implies now.contains(d) || later.contains(
        d,
    ) by {
        let k = choose|k: int| 0 <= k < todo.len() && todo[k] == d;
        if k < pending.len() {
            assert(later[k] == d);
        }
    }
    assert forall|k: int| 0 <= k < later.len() implies is_part(units, root, #[trigger] later[k]) by {
        if k < pending.len() {
            assert(later[k] == todo[k]);
        } else {
            let j = next.len() - 1 - (k - pending.len());
            assert(later[k] == next[j]);
            assert(local_graph(units)(unit) == next);
            assert(next.contains(next[j]));
            successor_is_reached(local_graph(units), seq![root], unit, next[j]);
        }
    }
    assert forall|v: u64, d: u64| #[trigger]
        now.contains(v) && #[trigger] local_units(units(v).dependencies).contains(d) implies
        now.contains(d) || later.contains(d) by {
        if v == unit {
            let j = choose|j: int| 0 <= j < next.len() && next[j] == d;
            let k = pending.len() + (next.len() - 1 - j);
            assert(later[k] == d);
        } else {
            assert(visited.contains(v));
            assert(visited.contains(d) || todo.contains(d));
        }
    }
    assert forall|x: Seq<u8>| #[trigger] found.contains(x) <==> exists|v: u64| #[trigger]
        now.contains(v) && own_inputs(units(v)).contains(x) by {
        let own = own_inputs(units(unit));
        if found.contains(x) {
            let k = choose|k: int| 0 <= k < found.len() && found[k] == x;
            if k < inputs.len() {
                assert(inputs[k] == x);
                assert(inputs.contains(x));
                let v = choose|v: u64| #[trigger]
                    visited.contains(v) && own_inputs(units(v)).contains(x);
                assert(now.contains(v));
            } else {
                assert(own[k - inputs.len()] == x);
                assert(own.contains(x));
                assert(now.contains(unit));
            }
        }
        if exists|v: u64| #[trigger] now.contains(v) && own_inputs(units(v)).contains(x) {
            let v = choose|v: u64| #[trigger] now.contains(v) && own_inputs(units(v)).contains(x);
            if v == unit {
                let k = choose|k: int| 0 <= k < own.len() && own[k] == x;
                assert(found[inputs.len() + k] == x);
            } else {
                assert(visited.contains(v));
                assert(inputs.contains(x));
                let k = choose|k: int| 0 <= k < inputs.len() && inputs[k] == x;
                assert(found[k] == x);
            }
        }
    }
}

/// What holds of a run while it looks at units.
spec fn walk_stage_holds(units: spec_fn(u64) -> InputsModel, m: DepInfoModel) -> bool {
    match m.stage {
        StageModel::Walking(unit, pending, visited, inputs) => {
            &&& walk_holds(units, m.root, pending.push(unit), visited, inputs)
            &&& !visited.contains(unit)
        },
        StageModel::Basedir(success, inputs) => walk_result_holds(units, m.root, success, inputs),
        _ => false,
    }
}

/// The inputs are complete exactly where those of every unit that is part of
/// the build are known; they are in order, are inputs of such units, and name
/// every input where they are complete.
pub open spec fn walk_result_holds(
    units: spec_fn(u64) -> InputsModel,
    root: u64,
    success: bool,
    inputs: Seq<Seq<u8>>,
) -> bool {
    &&& success <==> forall|u: u64| #[trigger] is_part(units, root, u) ==> !is_unknown(units(u))
    &&& strictly_ranked(inputs, path_order())
    &&& forall|k: int| 0 <= k < inputs.len() ==> is_input(units, root, #[trigger] inputs[k])
    &&& success ==> forall|x: Seq<u8>| #[trigger]
        is_input(units, root, x) ==> exists|k: int|
            0 <= k < inputs.len() && same_path(#[trigger] inputs[k], x)
}

proof fn lemma_walk_ends(
    units: spec_fn(u64) -> InputsModel,
    root: u64,
    todo: Seq<u64>,
    visited: Set<u64>,
    inputs: Seq<Seq<u8>>,
    success: bool,
)
    requires
        walk_holds(units, root, todo, visited, inputs),
        success ==> todo.len() == 0,
        !success ==> todo.len() > 0 && is_unknown(units(todo.last())),
    ensures
        walk_result_holds(units, root, success, sorted_set(inputs, path_order())),
{
    path_le_is_total_preorder();
    let le = path_order();
    let sorted = sorted_set(inputs, le);
    sorted_set_is_strictly_ranked(inputs, le);
    assert forall|k: int| 0 <= k < sorted.len() implies is_input(
        units,
        root,
        #[trigger] sorted[k],
    ) by {
        assert(sorted.contains(sorted[k]));
        assert(inputs.contains(sorted[k]));
        let v = choose|v: u64| #[trigger]
            visited.contains(v) && own_inputs(units(v)).contains(sorted[k]);
        assert(is_part(units, root, v));
    }
    if success {
        assert forall|u: u64| #[trigger] is_part(units, root, u) implies visited.contains(u) by {
            let inside = |v: u64| visited.contains(v);
            assert forall|a: u64| #[trigger] seq![root].contains(a) implies inside(a) by {
                assert(a == root);
            }
            assert forall|a: u64, b: u64| #[trigger]
                inside(a) && #[trigger] local_graph(units)(a).contains(b) implies inside(b) by {
                assert(visited.contains(a) && local_units(units(a).dependencies).contains(b));
            }
            reached_is_in_closed_set(local_graph(units), seq![root], inside, u);
        }
        assert forall|x: Seq<u8>| #[trigger] is_input(units, root, x) implies exists|k: int|
            0 <= k < sorted.len() && same_path(#[trigger] sorted[k], x) by {
            let u = choose|u: u64| #[trigger]
                is_part(units, root, u) && own_inputs(units(u)).contains(x);
            assert(visited.contains(u));
            assert(inputs.contains(x));
            let k = choose|k: int| 0 <= k < sorted.len() && ties(le)(#[trigger] sorted[k], x);
            assert(le(sorted[k], x) && le(x, sorted[k]));
            assert((path_le(sorted[k], x) && path_le(x, sorted[k])) <==> same_path(sorted[k], x));
        }
    } else {
        let u = todo[todo.len() - 1];
        assert(is_part(units, root, u));
        assert(is_unknown(units(u)));
    }
}

proof fn lemma_walk(units: spec_fn(u64) -> InputsModel, begun: DepInfoModel, n: nat)
    requires
        begun == start(begun.root, begun.target_root, begun.fine_grain_locking),
    ensures
        walk_stage_holds(units, walk_after(units, begun, n)),
        walk_after(units, begun, n).root == begun.root,
    decreases n,
{
    let root = begun.root;
    if n == 0 {
        let todo = Seq::<u64>::empty().push(root);
        assert(todo[0] == root);
        assert(todo =~= seq![root]);
        assert(seq![root].contains(root)) by {
            assert(seq![root][0] == root);
        }
        start_is_reached(local_graph(units), seq![root], root);
        assert(is_part(units, root, root));
        assert(walk_holds(units, root, todo, Set::<u64>::empty(), Seq::<Seq<u8>>::empty()));
    } else {
        let m = walk_after(units, begun, (n - 1) as nat);
        lemma_walk(units, begun, (n - 1) as nat);
        match m.stage {
            StageModel::Walking(unit, pending, visited, inputs) => {
                let seen = units(unit);
                let todo = pending.push(unit);
                if is_unknown(seen) {
                    assert(todo.last() == unit);
                    lemma_walk_ends(units, root, todo, visited, inputs, false);
                } else {
                    lemma_walk_visits(units, root, unit, pending, visited, inputs);
                    let later = pending + local_units(seen.dependencies).reverse();
                    let now = visited.insert(unit);
                    let found = inputs + own_inputs(seen);
                    lemma_walk_skips(units, root, later, now, found);
                    lemma_unvisited(later, now);
                    let rest = unvisited(later, now);
                    if rest.len() > 0 {
                        assert(rest.drop_last().push(rest.last()) =~= rest);
                    } else {
                        lemma_walk_ends(units, root, rest, now, found, true);
                    }
                }
            },
            _ => {},
        }
    }
}

/// However long a run looks at units, it looks at none twice. Once it is done,
/// it knows whether the inputs of the unit and of all local units it depends on
/// are known, and has them all.
pub proof fn walk_finds_all_local_inputs(
    units: spec_fn(u64) -> InputsModel,
    root: u64,
    target_root: Seq<u8>,
    fine_grain_locking: bool,
    n: nat,
)
    ensures
        match walk_after(units, start(root, target_root, fine_grain_locking), n).stage {
            StageModel::Walking(unit, pending, visited, inputs) => {
                &&& !visited.contains(unit)
                &&& is_part(units, root, unit)
            },
            StageModel::Basedir(success, inputs) => walk_result_holds(
                units,
                root,
                success,
                inputs,
            ),
            _ => false,
        },
{
    let begun = start(root, target_root, fine_grain_locking);
    lemma_walk(units, begun, n);
    match walk_after(units, begun, n).stage {
        StageModel::Walking(unit, pending, visited, inputs) => {
            let todo = pending.push(unit);
            assert(todo[pending.len() as int] == unit);
        },
        _ => {},
    }
}

/// What a step may change: dep-info files are written only where all inputs are
/// known and removed only where they are not, and files are locked and
/// published only with fine-grain locking.
pub open spec fn may_change(m: DepInfoModel, effect: EffectModel) -> bool {
    match effect {
        EffectModel::Lock(paths) => m.fine_grain_locking && m.stage is Outputs,
        EffectModel::Link(from, to) => {
            &&& m.fine_grain_locking
            &&& m.stage matches StageModel::Linking(run, outputs, i)
            &&& from == outputs[i].path
            &&& outputs[i].hardlink == Some(to)
        },
        EffectModel::Write(path, contents) => {
            &&& m.stage matches StageModel::Comparing(run, outputs, i, target)
            &&& run.success
            &&& !is_skipped(outputs[i].flavor)
            &&& path == dep_info_path(outputs[i].hardlink->0)
            &&& rendered(outputs[i].hardlink->0, run.basedir) == Some(target)
            &&& contents == dep_info_contents(target, run.deps)
        },
        EffectModel::Remove(path) => {
            &&& m.stage matches StageModel::Removing(run, outputs, i)
            &&& !run.success
            &&& !is_skipped(outputs[i].flavor)
            &&& path == dep_info_path(outputs[i].hardlink->0)
        },
    }
}

/// A step changes only what it may, and makes at most one change.
pub proof fn step_changes_only_what_it_may(m: DepInfoModel, seen: ObservationModel)
    requires
        stage_holds(m),
        expects(m.stage, seen),
    ensures
        step(m, seen).effects.len() <= 1,
        step(m, seen).effects.len() == 1 ==> may_change(m, step(m, seen).effects[0]),
{
}

/// A dep-info file that names the inputs already is left alone, so that it does
/// not look changed.
pub proof fn unchanged_dep_info_is_left_alone(
    m: DepInfoModel,
    run: RenderedModel,
    outputs: Seq<OutputModel>,
    i: int,
    target: Seq<char>,
    files: Seq<Seq<u8>>,
)
    requires
        m.stage == StageModel::Comparing(run, outputs, i, target),
        files.len() == run.deps.len(),
        forall|k: int|
            0 <= k < files.len() ==> same_path(#[trigger] files[k], encode_utf8(run.deps[k])),
    ensures
        step(m, ObservationModel::Previous(Some(files))).effects.len() == 0,
{
}

/// The state of a run after it was shown all this.
pub open spec fn run(m: DepInfoModel, seen: Seq<ObservationModel>) -> DepInfoModel
    decreases seen.len(),
{
    if seen.len() == 0 {
        m
    } else {
        step(run(m, seen.drop_last()), seen.last()).state
    }
}

/// Each observation answers what the run was waiting for.
pub open spec fn answers(m: DepInfoModel, seen: Seq<ObservationModel>) -> bool
    decreases seen.len(),
{
    seen.len() > 0 ==> answers(m, seen.drop_last()) && expects(
        run(m, seen.drop_last()).stage,
        seen.last(),
    )
}

/// The dep-info file of output `j` is being looked after.
pub open spec fn is_looking_after(stage: StageModel, j: int) -> bool {
    match stage {
        StageModel::Comparing(run, outputs, i, target) => i == j,
        StageModel::Removing(run, outputs, i) => i == j,
        _ => false,
    }
}

/// At some time the run has looked after the dep-info file of output `j`.
pub open spec fn has_looked_after(m: DepInfoModel, seen: Seq<ObservationModel>, j: int) -> bool {
    exists|k: int|
        0 <= k <= seen.len() && is_looking_after((#[trigger] run(m, seen.take(k))).stage, j)
}

/// The run has looked after every dep-info file of the outputs before `i`.
pub open spec fn looked_after_before(
    m: DepInfoModel,
    seen: Seq<ObservationModel>,
    outputs: Seq<OutputModel>,
    i: int,
) -> bool {
    forall|j: int|
        0 <= j < i && (#[trigger] outputs[j]).hardlink is Some && !is_skipped(outputs[j].flavor)
            ==> has_looked_after(m, seen, j)
}

spec fn outputs_hold(
    m: DepInfoModel,
    seen: Seq<ObservationModel>,
    outputs: Seq<OutputModel>,
    now: DepInfoModel,
    finished: bool,
) -> bool {
    match now.stage {
        StageModel::Linking(run, all, i) => {
            &&& all == outputs
            &&& 0 <= i < outputs.len()
            &&& looked_after_before(m, seen, outputs, i)
        },
        StageModel::Comparing(run, all, i, target) => {
            &&& all == outputs
            &&& 0 <= i < outputs.len()
            &&& looked_after_before(m, seen, outputs, i)
        },
        StageModel::Removing(run, all, i) => {
            &&& all == outputs
            &&& 0 <= i < outputs.len()
            &&& looked_after_before(m, seen, outputs, i)
        },
        StageModel::Ended => finished ==> looked_after_before(
            m,
            seen,
            outputs,
            outputs.len() as int,
        ),
        _ => false,
    }
}

proof fn lemma_looked_after_grows(m: DepInfoModel, seen: Seq<ObservationModel>, j: int)
    requires
        seen.len() > 0,
        has_looked_after(m, seen.drop_last(), j),
    ensures
        has_looked_after(m, seen, j),
{
    let init = seen.drop_last();
    let k = choose|k: int|
        0 <= k <= init.len() && is_looking_after((#[trigger] run(m, init.take(k))).stage, j);
    assert(seen.take(k) =~= init.take(k));
    assert(is_looking_after(run(m, seen.take(k)).stage, j));
}

proof fn lemma_next_concerned(outputs: Seq<OutputModel>, republish: bool, i: int)
    requires
        0 <= i <= outputs.len(),
    ensures
        i <= next_concerned(outputs, republish, i) <= outputs.len(),
        forall|k: int|
            i <= k < next_concerned(outputs, republish, i) ==> !is_concerned(
                #[trigger] outputs[k],
                republish,
            ),
    decreases outputs.len() - i,
{
    if i < outputs.len() && !is_concerned(outputs[i], republish) {
        lemma_next_concerned(outputs, republish, i + 1);
    }
}

/// Going on behind `from` leaves out only outputs that have no dep-info file.
proof fn lemma_output_on(
    m: DepInfoModel,
    seen: Seq<ObservationModel>,
    outputs: Seq<OutputModel>,
    at: DepInfoModel,
    rendering: RenderedModel,
    from: int,
)
    requires
        0 <= from <= outputs.len(),
        looked_after_before(m, seen, outputs, from),
    ensures
        ({
            let s = output_on(at, rendering, outputs, from);
            outputs_hold(m, seen, outputs, s.state, s.request is Finished)
        }),
{
    let i = next_concerned(outputs, at.fine_grain_locking, from);
    lemma_next_concerned(outputs, at.fine_grain_locking, from);
    assert forall|j: int|
        0 <= j < i && (#[trigger] outputs[j]).hardlink is Some && !is_skipped(
            outputs[j].flavor,
        ) implies has_looked_after(m, seen, j) by {
        if j >= from {
            assert(!is_concerned(outputs[j], at.fine_grain_locking));
        }
    }
}

proof fn lemma_outputs(
    m: DepInfoModel,
    seen: Seq<ObservationModel>,
    outputs: Seq<OutputModel>,
)
    requires
        m.stage is Outputs,
        answers(m, seen),
        seen.len() > 0,
        seen[0] == ObservationModel::Outputs(outputs),
    ensures
        outputs_hold(
            m,
            seen,
            outputs,
            run(m, seen),
            step(run(m, seen.drop_last()), seen.last()).request is Finished,
        ),
    decreases seen.len(),
{
    let init = seen.drop_last();
    let at = run(m, init);
    if seen.len() == 1 {
        assert(init =~= Seq::<ObservationModel>::empty());
        assert(at == m);
        match m.stage {
            StageModel::Outputs(rendering) => {
                lemma_output_on(m, seen, outputs, m, rendering, 0);
            },
            _ => {},
        }
    } else {
        assert(init[0] == seen[0]);
        lemma_outputs(m, init, outputs);
        assert forall|j: int| #[trigger] has_looked_after(m, init, j) implies has_looked_after(
            m,
            seen,
            j,
        ) by {
            lemma_looked_after_grows(m, seen, j);
        }
        match at.stage {
            StageModel::Linking(rendering, all, i) => {
                assert(looked_after_before(m, seen, outputs, i));
                if is_skipped(outputs[i].flavor) {
                    assert(looked_after_before(m, seen, outputs, i + 1));
                    lemma_output_on(m, seen, outputs, at, rendering, i + 1);
                }
            },
            StageModel::Comparing(rendering, all, i, target) => {
                assert(seen.take(init.len() as int) =~= init);
                assert(is_looking_after(run(m, seen.take(init.len() as int)).stage, i));
                assert(has_looked_after(m, seen, i));
                assert(looked_after_before(m, seen, outputs, i + 1));
                lemma_output_on(m, seen, outputs, at, rendering, i + 1);
            },
            StageModel::Removing(rendering, all, i) => {
                assert(seen.take(init.len() as int) =~= init);
                assert(is_looking_after(run(m, seen.take(init.len() as int)).stage, i));
                assert(has_looked_after(m, seen, i));
                assert(looked_after_before(m, seen, outputs, i + 1));
                lemma_output_on(m, seen, outputs, at, rendering, i + 1);
            },
            _ => {},
        }
    }
}

/// A run that finishes has looked after the dep-info file of every artifact that
/// is put where users look for it.
pub proof fn finished_run_has_looked_after_every_artifact(
    m: DepInfoModel,
    seen: Seq<ObservationModel>,
    outputs: Seq<OutputModel>,
)
    requires
        m.stage is Outputs,
        answers(m, seen),
        seen.len() > 0,
        seen[0] == ObservationModel::Outputs(outputs),
        step(run(m, seen.drop_last()), seen.last()).request is Finished,
    ensures
        looked_after_before(m, seen, outputs, outputs.len() as int),
{
    lemma_outputs(m, seen, outputs);
}

/// A dep-info file that is not there, or does not name the current inputs one for
/// one and equally many, is written.
pub proof fn differing_dep_info_is_written(
    m: DepInfoModel,
    run: RenderedModel,
    outputs: Seq<OutputModel>,
    i: int,
    target: Seq<char>,
    link: Seq<u8>,
    files: Option<Seq<Seq<u8>>>,
)
    requires
        m.stage == StageModel::Comparing(run, outputs, i, target),
        outputs[i].hardlink == Some(link),
        files matches Some(named) ==> named.len() != run.deps.len() || exists|k: int|
            0 <= k < named.len() && components(#[trigger] named[k]) != components(
                encode_utf8(run.deps[k]),
            ),
    ensures
        step(m, ObservationModel::Previous(files)).effects == seq![
            EffectModel::Write(
                with_extension(link, encode_utf8("d"@)),
                dep_info_contents(target, run.deps),
            ),
        ],
{
}

/// What is written to a dep-info file: the artifact, a colon and the end of the
/// line, and for each input more a space and the input before that end.
pub proof fn dep_info_names_each_input(target: Seq<char>, deps: Seq<Seq<char>>, more: Seq<char>)
    ensures
        dep_info_contents(target, Seq::empty()) == encode_utf8(target) + seq![58u8, 10u8],
        dep_info_contents(target, deps).len() > 0,
        dep_info_contents(target, deps).last() == 10,
        dep_info_contents(target, deps.push(more)) == dep_info_contents(target, deps).drop_last()
            + seq![32u8] + encode_utf8(more) + seq![10u8],
{
    assert(dep_info_contents(target, Seq::empty()) =~= encode_utf8(target) + seq![58u8, 10u8]);
    assert(deps.push(more).drop_last() =~= deps);
    assert(dep_info_contents(target, deps.push(more)) =~= dep_info_contents(
        target,
        deps,
    ).drop_last() + seq![32u8] + encode_utf8(more) + seq![10u8]);
}

/// The run goes on with the same rendering and the same outputs, and knows what
/// it has asked for.
spec fn carries(s: StepModel, rendering: RenderedModel, outputs: Seq<OutputModel>) -> bool {
    match s.state.stage {
        StageModel::Linking(run, all, i) => {
            &&& run == rendering
            &&& all == outputs
            &&& 0 <= i < outputs.len()
            &&& outputs[i].hardlink is Some
            &&& s.request == RequestModel::Exists(outputs[i].path)
        },
        StageModel::Comparing(run, all, i, target) => {
            &&& run == rendering
            &&& all == outputs
            &&& 0 <= i < outputs.len()
            &&& outputs[i].hardlink matches Some(link)
                && s.request == RequestModel::Previous(with_extension(link, encode_utf8("d"@)))
                && rendered(link, rendering.basedir) == Some(target)
            &&& rendering.success
        },
        StageModel::Removing(run, all, i) => {
            &&& run == rendering
            &&& all == outputs
            &&& 0 <= i < outputs.len()
            &&& outputs[i].hardlink matches Some(link)
                && s.request == RequestModel::Exists(with_extension(link, encode_utf8("d"@)))
            &&& !rendering.success
        },
        StageModel::Ended => true,
        _ => false,
    }
}

proof fn lemma_carries_on(
    at: DepInfoModel,
    rendering: RenderedModel,
    outputs: Seq<OutputModel>,
    from: int,
)
    requires
        0 <= from <= outputs.len(),
    ensures
        carries(output_on(at, rendering, outputs, from), rendering, outputs),
{
    let i = next_concerned(outputs, at.fine_grain_locking, from);
    lemma_next_concerned(outputs, at.fine_grain_locking, from);
    lemma_concerned(outputs, at.fine_grain_locking, from);
}

proof fn lemma_concerned(outputs: Seq<OutputModel>, republish: bool, i: int)
    requires
        0 <= i <= outputs.len(),
    ensures
        next_concerned(outputs, republish, i) < outputs.len() ==> is_concerned(
            outputs[next_concerned(outputs, republish, i)],
            republish,
        ),
    decreases outputs.len() - i,
{
    if i < outputs.len() && !is_concerned(outputs[i], republish) {
        lemma_concerned(outputs, republish, i + 1);
    }
}

proof fn lemma_carries(
    m: DepInfoModel,
    seen: Seq<ObservationModel>,
    rendering: RenderedModel,
    outputs: Seq<OutputModel>,
)
    requires
        m.stage == StageModel::Outputs(rendering),
        answers(m, seen),
        seen.len() > 0,
        seen[0] == ObservationModel::Outputs(outputs),
    ensures
        carries(step(run(m, seen.drop_last()), seen.last()), rendering, outputs),
    decreases seen.len(),
{
    let init = seen.drop_last();
    let at = run(m, init);
    if seen.len() == 1 {
        assert(init =~= Seq::<ObservationModel>::empty());
        lemma_carries_on(m, rendering, outputs, 0);
    } else {
        assert(init[0] == seen[0]);
        lemma_carries(m, init, rendering, outputs);
        match at.stage {
            StageModel::Linking(_, _, i) => {
                lemma_carries_on(at, rendering, outputs, i + 1);
            },
            StageModel::Comparing(_, _, i, _) => {
                lemma_carries_on(at, rendering, outputs, i + 1);
            },
            StageModel::Removing(_, _, i) => {
                lemma_carries_on(at, rendering, outputs, i + 1);
            },
            _ => {},
        }
    }
}

proof fn lemma_answers_first(m: DepInfoModel, seen: Seq<ObservationModel>, n: int)
    requires
        answers(m, seen),
        0 <= n <= seen.len(),
    ensures
        answers(m, seen.take(n)),
        n < seen.len() ==> expects(run(m, seen.take(n)).stage, seen[n]),
    decreases seen.len(),
{
    if n == seen.len() {
        assert(seen.take(n) =~= seen);
    } else {
        let init = seen.drop_last();
        if n < init.len() {
            lemma_answers_first(m, init, n);
            assert(init.take(n) =~= seen.take(n));
            assert(init[n] == seen[n]);
        } else {
            assert(init =~= seen.take(n));
        }
    }
}

/// After a run that finishes with all inputs known, the dep-info file of every
/// artifact that is put where users look for it names exactly the current inputs.
/// At some time the run has asked what the file names; where these were the
/// current inputs, one for one and equally many, it has left the file alone, and
/// else has written it.
pub proof fn finished_run_leaves_current_dep_info(
    m: DepInfoModel,
    seen: Seq<ObservationModel>,
    rendering: RenderedModel,
    outputs: Seq<OutputModel>,
    j: int,
    link: Seq<u8>,
)
    requires
        m.stage == StageModel::Outputs(rendering),
        rendering.success,
        answers(m, seen),
        seen.len() > 0,
        seen[0] == ObservationModel::Outputs(outputs),
        step(run(m, seen.drop_last()), seen.last()).request is Finished,
        0 <= j < outputs.len(),
        outputs[j].flavor == FileFlavor::Artifact,
        outputs[j].hardlink == Some(link),
    ensures
        exists|k: int| #![trigger seen[k]]
            0 < k < seen.len() && ({
                let file = with_extension(link, encode_utf8("d"@));
                let asked = step(run(m, seen.take(k - 1)), seen[k - 1]).request;
                let effects = step(run(m, seen.take(k)), seen[k]).effects;
                &&& asked == RequestModel::Previous(file)
                &&& seen[k] is Previous
                &&& if (seen[k]->Previous_0 matches Some(named) && named.len()
                    == rendering.deps.len() && forall|x: int|
                    0 <= x < named.len() ==> components(#[trigger] named[x]) == components(
                        encode_utf8(rendering.deps[x]),
                    )) {
                    effects == Seq::<EffectModel>::empty()
                } else {
                    rendered(link, rendering.basedir) matches Some(target) && effects
                        == seq![EffectModel::Write(file, dep_info_contents(target, rendering.deps))]
                }
            }),
{
    let k = lemma_looked_after_once(m, seen, rendering, outputs, j);
    let at = run(m, seen.take(k));
    assert(at.stage is Comparing);
    assert(seen[k] is Previous);
}

/// After a run that finishes although some inputs are not known, no artifact that
/// is put where users look for it has a dep-info file. At some time the run has
/// asked whether the file is there, and where it was, has removed it.
pub proof fn finished_run_removes_dep_info_of_unknown_inputs(
    m: DepInfoModel,
    seen: Seq<ObservationModel>,
    rendering: RenderedModel,
    outputs: Seq<OutputModel>,
    j: int,
    link: Seq<u8>,
)
    requires
        m.stage == StageModel::Outputs(rendering),
        !rendering.success,
        answers(m, seen),
        seen.len() > 0,
        seen[0] == ObservationModel::Outputs(outputs),
        step(run(m, seen.drop_last()), seen.last()).request is Finished,
        0 <= j < outputs.len(),
        outputs[j].flavor == FileFlavor::Artifact,
        outputs[j].hardlink == Some(link),
    ensures
        exists|k: int| #![trigger seen[k]]
            0 < k < seen.len() && ({
                let file = with_extension(link, encode_utf8("d"@));
                let asked = step(run(m, seen.take(k - 1)), seen[k - 1]).request;
                let effects = step(run(m, seen.take(k)), seen[k]).effects;
                &&& asked == RequestModel::Exists(file)
                &&& seen[k] matches ObservationModel::Exists(there)
                &&& effects == if there {
                    seq![EffectModel::Remove(file)]
                } else {
                    Seq::empty()
                }
            }),
{
    let k = lemma_looked_after_once(m, seen, rendering, outputs, j);
    let at = run(m, seen.take(k));
    assert(at.stage is Removing);
    assert(seen[k] is Exists);
}

proof fn lemma_looked_after_once(
    m: DepInfoModel,
    seen: Seq<ObservationModel>,
    rendering: RenderedModel,
    outputs: Seq<OutputModel>,
    j: int,
) -> (k: int)
    requires
        m.stage == StageModel::Outputs(rendering),
        answers(m, seen),
        seen.len() > 0,
        seen[0] == ObservationModel::Outputs(outputs),
        step(run(m, seen.drop_last()), seen.last()).request is Finished,
        0 <= j < outputs.len(),
        outputs[j].flavor == FileFlavor::Artifact,
        outputs[j].hardlink is Some,
    ensures
        0 < k < seen.len(),
        is_looking_after(run(m, seen.take(k)).stage, j),
        expects(run(m, seen.take(k)).stage, seen[k]),
        run(m, seen.take(k)) == step(run(m, seen.take(k - 1)), seen[k - 1]).state,
        carries(step(run(m, seen.take(k - 1)), seen[k - 1]), rendering, outputs),
{
    finished_run_has_looked_after_every_artifact(m, seen, outputs);
    assert(has_looked_after(m, seen, j));
    let k = choose|k: int|
        0 <= k <= seen.len() && is_looking_after((#[trigger] run(m, seen.take(k))).stage, j);
    if k == 0 {
        assert(seen.take(0) =~= Seq::<ObservationModel>::empty());
    }
    lemma_carries(m, seen, rendering, outputs);
    if k == seen.len() {
        assert(seen.take(k) =~= seen);
    }
    lemma_answers_first(m, seen, k);
    let part = seen.take(k);
    lemma_carries(m, part, rendering, outputs);
    assert(part.drop_last() =~= seen.take(k - 1));
    assert(part.last() == seen[k - 1]);
    k
}

/// With fine-grain locking, an output that is there is linked to where users look
/// for it, from where it was built. Before, the locks of all such places are
/// taken; without fine-grain locking, none is.
pub proof fn outputs_are_published_under_their_locks(
    m: DepInfoModel,
    rendering: RenderedModel,
    outputs: Seq<OutputModel>,
    i: int,
    there: bool,
)
    ensures
        m.stage == StageModel::Linking(rendering, outputs, i) && outputs[i].hardlink is Some ==> step(
            m,
            ObservationModel::Exists(there),
        ).effects == if there {
            seq![EffectModel::Link(outputs[i].path, outputs[i].hardlink->0)]
        } else {
            Seq::empty()
        },
        m.stage == StageModel::Outputs(rendering) ==> step(
            m,
            ObservationModel::Outputs(outputs),
        ).effects == if m.fine_grain_locking {
            seq![EffectModel::Lock(publication_locks(m.target_root, hardlinks(outputs)))]
        } else {
            Seq::empty()
        },
        forall|link: Seq<u8>| #[trigger]
            hardlinks(outputs).contains(link) <==> exists|k: int|
                0 <= k < outputs.len() && (#[trigger] outputs[k]).hardlink == Some(link),
{
    assert forall|link: Seq<u8>| #[trigger] hardlinks(outputs).contains(link) <==> exists|k: int|
        0 <= k < outputs.len() && (#[trigger] outputs[k]).hardlink == Some(link) by {
        lemma_hardlinks(outputs, link);
    }
}

proof fn lemma_hardlinks(outputs: Seq<OutputModel>, link: Seq<u8>)
    ensures
        hardlinks(outputs).contains(link) <==> exists|k: int|
            0 <= k < outputs.len() && (#[trigger] outputs[k]).hardlink == Some(link),
    decreases outputs.len(),
{
    if outputs.len() > 0 {
        let init = outputs.drop_last();
        lemma_hardlinks(init, link);
        let before = hardlinks(init);
        let all = hardlinks(outputs);
        assert(outputs[outputs.len() - 1] == outputs.last());
        if all.contains(link) {
            let x = choose|x: int| 0 <= x < all.len() && all[x] == link;
            if x < before.len() {
                assert(before[x] == link);
                let k = choose|k: int|
                    0 <= k < init.len() && (#[trigger] init[k]).hardlink == Some(link);
                assert(outputs[k] == init[k]);
            }
        }
        if exists|k: int| 0 <= k < outputs.len() && (#[trigger] outputs[k]).hardlink == Some(link) {
            let k = choose|k: int|
                0 <= k < outputs.len() && (#[trigger] outputs[k]).hardlink == Some(link);
            if k < init.len() {
                assert(init[k] == outputs[k]);
                let x = choose|x: int| 0 <= x < before.len() && before[x] == link;
                assert(all[x] == link);
            } else {
                assert(all[before.len() as int] == link);
            }
        }
    }
}

/// With fine-grain locking, every output that is put where users look for it is
/// published, whatever its flavor; and every dep-info file is looked after in
/// both modes. What is passed over on the way to the next output is only what
/// needs neither.
pub proof fn no_output_is_passed_over(
    m: DepInfoModel,
    rendering: RenderedModel,
    outputs: Seq<OutputModel>,
    from: int,
    j: int,
)
    requires
        0 <= from <= j < outputs.len(),
        outputs[j].hardlink is Some,
        m.fine_grain_locking || outputs[j].flavor == FileFlavor::Artifact,
    ensures
        match output_on(m, rendering, outputs, from).state.stage {
            StageModel::Linking(_, _, i) => m.fine_grain_locking && from <= i <= j,
            StageModel::Comparing(_, _, i, _) => !m.fine_grain_locking && from <= i <= j,
            StageModel::Removing(_, _, i) => !m.fine_grain_locking && from <= i <= j,
            _ => output_on(m, rendering, outputs, from).request is Failed,
        },
{
    lemma_next_concerned(outputs, m.fine_grain_locking, from);
    let i = next_concerned(outputs, m.fine_grain_locking, from);
    if i > j {
        assert(!is_concerned(outputs[j], m.fine_grain_locking));
    }
}

/// The inputs of a unit: where it runs a build script, what its build scripts
/// watch, below its package; where it is compiled, what the compiler has read
/// too. They are unknown only where it is compiled and the compiler has left no
/// word.
pub proof fn unit_inputs_are_read_or_watched(unit: InputsModel, file: Seq<u8>)
    ensures
        is_unknown(unit) <==> !unit.runs_build_script && unit.dep_info is None,
        !is_unknown(unit) ==> (own_inputs(unit).contains(file) <==> {
            ||| !unit.runs_build_script && unit.dep_info->0.contains(file)
            ||| exists|k: int|
                0 <= k < unit.rerun_if_changed.len() && file == if (
                #[trigger] unit.rerun_if_changed[k]).len() == 0 {
                    unit.package_root
                } else {
                    join(unit.package_root, unit.rerun_if_changed[k])
                }
        }),
{
    if !is_unknown(unit) {
        let own = own_inputs(unit);
        let watched = watched_paths(unit);
        let read = if unit.runs_build_script {
            Seq::empty()
        } else {
            unit.dep_info->0
        };
        assert(own =~= read + watched);
        if own.contains(file) {
            let x = choose|x: int| 0 <= x < own.len() && own[x] == file;
            if x < read.len() {
                assert(read[x] == file);
            } else {
                let k = x - read.len();
                assert(watched[k] == file);
                assert(0 <= k < unit.rerun_if_changed.len());
                let path = unit.rerun_if_changed[k];
            }
        }
        if read.contains(file) {
            let x = choose|x: int| 0 <= x < read.len() && read[x] == file;
            assert(own[x] == file);
        }
        assert forall|k: int| 0 <= k < unit.rerun_if_changed.len() implies own.contains(
            if (#[trigger] unit.rerun_if_changed[k]).len() == 0 {
                unit.package_root
            } else {
                join(unit.package_root, unit.rerun_if_changed[k])
            },
        ) by {
            assert(own[read.len() + k] == watched[k]);
        }
    }
}

/// The units visited behind a unit are its local dependencies, in order.
pub proof fn local_units_are_local(dependencies: Seq<UnitDependency>, unit: u64)
    ensures
        local_units(dependencies).contains(unit) <==> exists|k: int|
            0 <= k < dependencies.len() && (#[trigger] dependencies[k]).local
                && dependencies[k].unit == unit,
    decreases dependencies.len(),
{
    if dependencies.len() > 0 {
        let init = dependencies.drop_last();
        local_units_are_local(init, unit);
        let before = local_units(init);
        let all = local_units(dependencies);
        assert(dependencies[dependencies.len() - 1] == dependencies.last());
        if all.contains(unit) {
            let x = choose|x: int| 0 <= x < all.len() && all[x] == unit;
            if x < before.len() {
                assert(before[x] == unit);
                let k = choose|k: int|
                    0 <= k < init.len() && (#[trigger] init[k]).local && init[k].unit == unit;
                assert(dependencies[k] == init[k]);
            }
        }
        if exists|k: int|
            0 <= k < dependencies.len() && (#[trigger] dependencies[k]).local
                && dependencies[k].unit == unit {
            let k = choose|k: int|
                0 <= k < dependencies.len() && (#[trigger] dependencies[k]).local
                    && dependencies[k].unit == unit;
            if k < init.len() {
                assert(init[k] == dependencies[k]);
                let x = choose|x: int| 0 <= x < before.len() && before[x] == unit;
                assert(all[x] == unit);
            } else {
                assert(all[before.len() as int] == unit);
            }
        }
    }
}

/// Inputs are written one for one, relative to the base directory where there is
/// one. A base directory that is no text is refused, and else the first input
/// that cannot be written.
pub proof fn inputs_are_rendered_one_for_one(
    m: DepInfoModel,
    success: bool,
    inputs: Seq<Seq<u8>>,
    base: Option<Seq<u8>>,
)
    requires
        m.stage == StageModel::Basedir(success, inputs),
    ensures
        ({
            let s = step(m, ObservationModel::Basedir(base));
            let text = match base {
                Some(path) => Some(decode_utf8(path)),
                None => None,
            };
            &&& s.effects.len() == 0
            &&& if (base matches Some(path) && !valid_utf8(path)) {
                s.request == RequestModel::Failed(DepInfoFault::BasedirNotText)
            } else if (forall|i: int|
                0 <= i < inputs.len() ==> rendered(#[trigger] inputs[i], text) is Some) {
                &&& s.request == RequestModel::Outputs
                &&& s.state.stage matches StageModel::Outputs(rendering) && {
                    &&& rendering.success == success
                    &&& rendering.basedir == text
                    &&& rendering.deps.len() == inputs.len()
                    &&& forall|i: int|
                        0 <= i < inputs.len() ==> rendered(#[trigger] inputs[i], text)
                            == Some(rendering.deps[i])
                }
            } else {
                exists|i: int|
                    0 <= i < inputs.len() && s.request == RequestModel::Failed(
                        DepInfoFault::PathNotText(shown_path(#[trigger] inputs[i], text)),
                    ) && rendered(inputs[i], text) is None && forall|j: int|
                        0 <= j < i ==> rendered(#[trigger] inputs[j], text) is Some
            }
        }),
{
    let text = match base {
        Some(path) => Some(decode_utf8(path)),
        None => None,
    };
    lemma_first_unwritable(inputs, text, 0);
    let i = first_unwritable(inputs, text, 0);
    if i < inputs.len() {
        assert(rendered(inputs[i], text) is None);
    }
}

proof fn lemma_first_unwritable(paths: Seq<Seq<u8>>, basedir: Option<Seq<char>>, i: int)
    requires
        0 <= i <= paths.len(),
    ensures
        ({
            let x = first_unwritable(paths, basedir, i);
            &&& i <= x <= paths.len()
            &&& x < paths.len() ==> rendered(paths[x], basedir) is None
            &&& forall|j: int|
                i <= j < x ==> rendered(#[trigger] paths[j], basedir) is Some
        }),
    decreases paths.len() - i,
{
    if i < paths.len() && rendered(paths[i], basedir) is Some {
        lemma_first_unwritable(paths, basedir, i + 1);
    }
}

/// A unit is looked at under its lock exactly with fine-grain locking, except for
/// the unit itself, whose lock the caller holds. No unit is looked at twice, and
/// what is known of a unit is added to what was found before.
pub proof fn units_are_looked_at_once_and_under_their_locks(
    m: DepInfoModel,
    unit: u64,
    pending: Seq<u64>,
    visited: Set<u64>,
    inputs: Seq<Seq<u8>>,
    found: InputsModel,
)
    requires
        m.stage == StageModel::Walking(unit, pending, visited, inputs),
    ensures
        ({
            let s = step(m, ObservationModel::Unit(found));
            &&& s.effects.len() == 0
            &&& match s.state.stage {
                StageModel::Walking(next, _, seen, all) => {
                    &&& s.request == RequestModel::Unit(
                        next,
                        m.fine_grain_locking && next != m.root,
                    )
                    &&& !seen.contains(next)
                    &&& next != unit
                    &&& seen == visited.insert(unit)
                    &&& all == inputs + own_inputs(found)
                },
                StageModel::Basedir(success, all) => {
                    &&& s.request == RequestModel::Basedir
                    &&& success <==> found.runs_build_script || found.dep_info is Some
                },
                _ => false,
            }
        }),
{
    if !is_unknown(found) {
        let todo = pending + local_units(found.dependencies).reverse();
        let now = visited.insert(unit);
        lemma_unvisited(todo, now);
    }
}

/// Dep-info files are written and removed only for artifacts, and only where these
/// are put for users to find. An output that is not there is never linked.
pub proof fn dep_info_is_kept_for_artifacts_alone(m: DepInfoModel, seen: ObservationModel)
    requires
        stage_holds(m),
        expects(m.stage, seen),
        step(m, seen).effects.len() > 0,
    ensures
        match step(m, seen).effects[0] {
            EffectModel::Write(path, _) => {
                &&& m.stage matches StageModel::Comparing(_, outputs, i, _)
                &&& outputs[i].flavor == FileFlavor::Artifact
                &&& outputs[i].hardlink matches Some(link)
                &&& path == with_extension(link, encode_utf8("d"@))
            },
            EffectModel::Remove(path) => {
                &&& seen == ObservationModel::Exists(true)
                &&& m.stage matches StageModel::Removing(_, outputs, i)
                &&& outputs[i].flavor == FileFlavor::Artifact
                &&& outputs[i].hardlink matches Some(link)
                &&& path == with_extension(link, encode_utf8("d"@))
            },
            EffectModel::Link(_, _) => seen == ObservationModel::Exists(true),
            EffectModel::Lock(_) => m.stage is Outputs,
        },
{
}

} // verus!
