//! Which family each unit of a build belongs to.

use std::collections::HashMap;

use vstd::prelude::*;

use crate::artifact_family::{ArtifactFamily, FamilyError, FamilyFault, FamilyModel};
use crate::order::views;
use crate::reach::{reachable, reached_is_in_closed_set, start_is_reached, successor_is_reached};
use crate::text::text_equal;

verus! {

broadcast use vstd::std_specs::hash::group_hash_axioms;

/// A unit of a build, the package it comes from, and the units it depends on.
#[derive(Debug)]
pub struct UnitNode {
    pub unit: u64,
    pub package: String,
    pub dependencies: Vec<u64>,
}

/// A unit of a build, the package it comes from, and the units it depends on.
#[verifier::ext_equal]
pub struct NodeModel {
    pub unit: u64,
    pub package: Seq<char>,
    pub dependencies: Seq<u64>,
}

impl View for UnitNode {
    type V = NodeModel;

    open spec fn view(&self) -> NodeModel {
        NodeModel {
            unit: self.unit,
            package: self.package@,
            dependencies: self.dependencies@,
        }
    }
}

/// Where a unit stands in the graph.
pub open spec fn unit_position(graph: Seq<NodeModel>, unit: u64) -> Option<int>
    decreases graph.len(),
{
    if graph.len() == 0 {
        None
    } else {
        match unit_position(graph.drop_last(), unit) {
            Some(i) => Some(i),
            None => if graph.last().unit == unit {
                Some(graph.len() - 1)
            } else {
                None
            },
        }
    }
}

/// The units that a unit depends on.
pub open spec fn depends_on(graph: Seq<NodeModel>) -> spec_fn(u64) -> Seq<u64> {
    |unit: u64|
        match unit_position(graph, unit) {
            Some(i) => graph[i].dependencies,
            None => Seq::empty(),
        }
}

/// The units of a package.
pub open spec fn units_of(graph: Seq<NodeModel>, package: Seq<char>) -> Seq<u64>
    decreases graph.len(),
{
    if graph.len() == 0 {
        Seq::empty()
    } else {
        let before = units_of(graph.drop_last(), package);
        if graph.last().package == package {
            before.push(graph.last().unit)
        } else {
            before
        }
    }
}

/// The unit is in the family: it is a unit of the scope package, or one of those
/// depends on it, directly or not.
pub open spec fn in_family(graph: Seq<NodeModel>, family: FamilyModel, unit: u64) -> bool {
    reachable(depends_on(graph), units_of(graph, family.scope_package), unit)
}

/// The scope package of each of the first `n` families is built, and no unit is
/// in two of them.
pub open spec fn separate(graph: Seq<NodeModel>, families: Seq<FamilyModel>, n: int) -> bool {
    &&& forall|i: int|
        0 <= i < n ==> units_of(graph, (#[trigger] families[i]).scope_package).len() > 0
    &&& forall|i: int, j: int, unit: u64|
        0 <= i < j < n && in_family(graph, families[i], unit) ==> !in_family(
            graph,
            families[j],
            unit,
        )
}

/// Each unit of the first `n` families is mapped to its family, and no other
/// unit is.
pub open spec fn maps_members(
    graph: Seq<NodeModel>,
    families: Seq<FamilyModel>,
    n: int,
    members: Map<u64, usize>,
) -> bool {
    &&& forall|unit: u64| #[trigger]
        members.contains_key(unit) ==> members[unit] < n && in_family(
            graph,
            families[members[unit] as int],
            unit,
        )
    &&& forall|i: int, unit: u64|
        0 <= i < n && #[trigger] in_family(graph, families[i], unit) ==> members.contains_key(unit)
            && members[unit] == i
}

fn find_unit(graph: &Vec<UnitNode>, unit: u64) -> (r: Option<usize>)
    ensures
        r is Some <==> unit_position(views(graph@), unit) is Some,
        r matches Some(i) ==> i < graph@.len() && i == unit_position(views(graph@), unit)->0,
{
    let ghost all = views(graph@);
    let mut i: usize = 0;
    while i < graph.len()
        invariant
            i <= graph@.len(),
            all == views(graph@),
            unit_position(all.take(i as int), unit) is None,
        decreases graph@.len() - i,
    {
        proof {
            assert(all.take(i + 1).drop_last() =~= all.take(i as int));
            assert(all.take(i + 1).last() == graph@[i as int]@);
        }
        if graph[i].unit == unit {
            proof {
                lemma_position_extends(all, i + 1, unit);
            }
            return Some(i);
        }
        i = i + 1;
    }
    assert(all.take(i as int) =~= all);
    None
}

proof fn lemma_position_extends(graph: Seq<NodeModel>, n: int, unit: u64)
    requires
        0 <= n <= graph.len(),
        unit_position(graph.take(n), unit) is Some,
    ensures
        unit_position(graph, unit) == unit_position(graph.take(n), unit),
    decreases graph.len() - n,
{
    if n < graph.len() {
        assert(graph.take(n + 1).drop_last() =~= graph.take(n));
        lemma_position_extends(graph, n + 1, unit);
    } else {
        assert(graph.take(n) =~= graph);
    }
}

proof fn lemma_position(graph: Seq<NodeModel>, unit: u64)
    ensures
        unit_position(graph, unit) matches Some(i) ==> 0 <= i < graph.len() && graph[i].unit
            == unit,
    decreases graph.len(),
{
    if graph.len() > 0 {
        lemma_position(graph.drop_last(), unit);
    }
}

fn package_units(graph: &Vec<UnitNode>, package: &str) -> (r: Vec<u64>)
    ensures
        r@ == units_of(views(graph@), package@),
{
    let ghost all = views(graph@);
    let mut r: Vec<u64> = Vec::new();
    let mut i: usize = 0;
    assert(r@ =~= units_of(all.take(0), package@));
    while i < graph.len()
        invariant
            i <= graph@.len(),
            all == views(graph@),
            r@ == units_of(all.take(i as int), package@),
        decreases graph@.len() - i,
    {
        proof {
            assert(all.take(i + 1).drop_last() =~= all.take(i as int));
            assert(all.take(i + 1).last() == graph@[i as int]@);
        }
        if text_equal(graph[i].package.as_str(), package) {
            r.push(graph[i].unit);
        }
        i = i + 1;
    }
    assert(all.take(i as int) =~= all);
    r
}

/// How many nodes of the graph are not in `done`.
spec fn unvisited(graph: Seq<NodeModel>, done: Set<u64>) -> nat
    decreases graph.len(),
{
    if graph.len() == 0 {
        0
    } else {
        unvisited(graph.drop_last(), done) + if done.contains(graph.last().unit) {
            0nat
        } else {
            1nat
        }
    }
}

proof fn lemma_unvisited(graph: Seq<NodeModel>, done: Set<u64>, unit: u64)
    ensures
        unvisited(graph, done.insert(unit)) <= unvisited(graph, done),
        !done.contains(unit) && (exists|i: int|
            0 <= i < graph.len() && (#[trigger] graph[i]).unit == unit) ==> unvisited(
            graph,
            done.insert(unit),
        ) < unvisited(graph, done),
    decreases graph.len(),
{
    if graph.len() > 0 {
        let init = graph.drop_last();
        lemma_unvisited(init, done, unit);
        if exists|i: int| 0 <= i < graph.len() && (#[trigger] graph[i]).unit == unit {
            let i = choose|i: int| 0 <= i < graph.len() && (#[trigger] graph[i]).unit == unit;
            if i < init.len() {
                assert(init[i].unit == unit);
            }
        }
    }
}

proof fn lemma_contains_pop(s: Seq<u64>, x: u64)
    requires
        s.len() > 0,
    ensures
        s.contains(x) ==> x == s.last() || s.drop_last().contains(x),
        s.drop_last().contains(x) ==> s.contains(x),
{
    if s.contains(x) {
        let k = choose|k: int| 0 <= k < s.len() && s[k] == x;
        if k < s.len() - 1 {
            assert(s.drop_last()[k] == x);
        }
    }
    if s.drop_last().contains(x) {
        let k = choose|k: int| 0 <= k < s.drop_last().len() && s.drop_last()[k] == x;
        assert(s[k] == x);
    }
}

proof fn lemma_contains_concat(a: Seq<u64>, b: Seq<u64>, x: u64)
    ensures
        (a + b).contains(x) <==> a.contains(x) || b.contains(x),
{
    let s = a + b;
    if s.contains(x) {
        let k = choose|k: int| 0 <= k < s.len() && s[k] == x;
        if k < a.len() {
            assert(a[k] == x);
        } else {
            assert(b[k - a.len()] == x);
        }
    }
    if a.contains(x) {
        let k = choose|k: int| 0 <= k < a.len() && a[k] == x;
        assert(s[k] == x);
    }
    if b.contains(x) {
        let k = choose|k: int| 0 <= k < b.len() && b[k] == x;
        assert(s[a.len() + k] == x);
    }
}

/// What a walk from `roots` has come to: all that is pending or done is reached,
/// and what follows from what is done is done or pending.
spec fn walk_holds(graph: Seq<NodeModel>, roots: Seq<u64>, pending: Seq<u64>, done: Set<u64>) -> bool {
    &&& forall|x: u64| #[trigger]
        pending.contains(x) ==> reachable(depends_on(graph), roots, x)
    &&& forall|x: u64| #[trigger] done.contains(x) ==> reachable(depends_on(graph), roots, x)
    &&& forall|x: u64| roots.contains(x) ==> #[trigger] done.contains(x) || pending.contains(x)
    &&& forall|x: u64, y: u64|
        #![trigger done.contains(x), done.contains(y)]
        done.contains(x) && depends_on(graph)(x).contains(y) ==> done.contains(y)
            || pending.contains(y)
}

proof fn lemma_walk_starts(graph: Seq<NodeModel>, roots: Seq<u64>)
    ensures
        walk_holds(graph, roots, roots, Set::empty()),
{
    assert forall|x: u64| #[trigger] roots.contains(x) implies reachable(
        depends_on(graph),
        roots,
        x,
    ) by {
        start_is_reached(depends_on(graph), roots, x);
    }
}

proof fn lemma_walk_skips(graph: Seq<NodeModel>, roots: Seq<u64>, pending: Seq<u64>, done: Set<u64>)
    requires
        walk_holds(graph, roots, pending, done),
        pending.len() > 0,
        done.contains(pending.last()),
    ensures
        walk_holds(graph, roots, pending.drop_last(), done),
{
    let rest = pending.drop_last();
    assert forall|x: u64| #[trigger] rest.contains(x) implies reachable(
        depends_on(graph),
        roots,
        x,
    ) by {
        lemma_contains_pop(pending, x);
    }
    assert forall|x: u64| roots.contains(x) implies #[trigger] done.contains(x) || rest.contains(
        x,
    ) by {
        lemma_contains_pop(pending, x);
    }
    assert forall|x: u64, y: u64|
        #![trigger done.contains(x), done.contains(y)]
        done.contains(x) && depends_on(graph)(x).contains(y) implies done.contains(y)
        || rest.contains(y) by {
        lemma_contains_pop(pending, y);
    }
}

proof fn lemma_walk_enters(
    graph: Seq<NodeModel>,
    roots: Seq<u64>,
    pending: Seq<u64>,
    done: Set<u64>,
    more: Seq<u64>,
)
    requires
        walk_holds(graph, roots, pending, done),
        pending.len() > 0,
        more == depends_on(graph)(pending.last()),
    ensures
        walk_holds(graph, roots, pending.drop_last() + more, done.insert(pending.last())),
{
    let v = pending.last();
    let rest = pending.drop_last();
    let all = rest + more;
    let after = done.insert(v);
    let next = depends_on(graph);
    assert(pending.contains(v)) by {
        assert(pending[pending.len() - 1] == v);
    }
    assert forall|x: u64| #[trigger] all.contains(x) implies reachable(next, roots, x) by {
        lemma_contains_concat(rest, more, x);
        lemma_contains_pop(pending, x);
        if more.contains(x) {
            successor_is_reached(next, roots, v, x);
        }
    }
    assert forall|x: u64| roots.contains(x) implies #[trigger] after.contains(x) || all.contains(
        x,
    ) by {
        assert(done.contains(x) || pending.contains(x));
        lemma_contains_pop(pending, x);
        lemma_contains_concat(rest, more, x);
    }
    assert forall|x: u64, y: u64|
        #![trigger after.contains(x), after.contains(y)]
        after.contains(x) && next(x).contains(y) implies after.contains(y) || all.contains(y) by {
        lemma_contains_pop(pending, y);
        lemma_contains_concat(rest, more, y);
        if done.contains(x) {
            assert(done.contains(y) || pending.contains(y));
        }
    }
}

proof fn lemma_walk_ends(graph: Seq<NodeModel>, roots: Seq<u64>, done: Set<u64>)
    requires
        walk_holds(graph, roots, Seq::empty(), done),
    ensures
        forall|x: u64| #[trigger]
            reachable(depends_on(graph), roots, x) <==> done.contains(x),
{
    let next = depends_on(graph);
    let inside = |x: u64| done.contains(x);
    assert forall|x: u64| #[trigger] reachable(next, roots, x) <==> done.contains(x) by {
        if reachable(next, roots, x) {
            assert forall|x: u64| roots.contains(x) implies #[trigger] inside(x) by {
                assert(done.contains(x) || Seq::<u64>::empty().contains(x));
            }
            assert forall|x: u64, y: u64|
                #![trigger next(x).contains(y)]
                inside(x) && next(x).contains(y) implies inside(y) by {
                assert(done.contains(x));
                assert(done.contains(y) || Seq::<u64>::empty().contains(y));
            }
            reached_is_in_closed_set(next, roots, inside, x);
        }
    }
}

/// The members map while family `n` is being walked.
spec fn partly_mapped(
    graph: Seq<NodeModel>,
    families: Seq<FamilyModel>,
    n: int,
    before: Map<u64, usize>,
    done: Set<u64>,
    members: Map<u64, usize>,
) -> bool {
    &&& maps_members(graph, families, n, before)
    &&& forall|unit: u64| #[trigger]
        members.contains_key(unit) <==> before.contains_key(unit) || done.contains(unit)
    &&& forall|unit: u64| #[trigger] done.contains(unit) ==> members[unit] == n
    &&& forall|unit: u64| #[trigger]
        before.contains_key(unit) ==> members[unit] == before[unit] && !done.contains(unit)
}

/// Finds the family of each unit: the one whose scope package the unit comes
/// from, or on behalf of which it is built.
pub fn unit_membership(families: &Vec<ArtifactFamily>, unit_graph: &Vec<UnitNode>) -> (r: Result<
    HashMap<u64, usize>,
    FamilyError,
>)
    ensures
        r is Ok <==> separate(views(unit_graph@), views(families@), families@.len() as int),
        ({
            let graph = views(unit_graph@);
            let all = views(families@);
            match r {
                Ok(members) => {
                    &&& maps_members(graph, all, all.len() as int, members@)
                },
                Err(error) => exists|n: int|
                    0 <= n < all.len() && separate(graph, all, n) && {
                        if units_of(graph, (#[trigger] all[n]).scope_package).len() == 0 {
                            error@ == FamilyFault::AbsentScope(all[n].name, all[n].scope_package)
                        } else {
                            error@ matches FamilyFault::MultipleFamilies(unit) && in_family(
                                graph,
                                all[n],
                                unit,
                            ) && exists|i: int|
                                0 <= i < n && in_family(graph, #[trigger] all[i], unit)
                        }
                    },
            }
        }),
{
    let ghost graph = views(unit_graph@);
    let ghost all = views(families@);
    let mut members: HashMap<u64, usize> = HashMap::new();
    let mut n: usize = 0;
    while n < families.len()
        invariant
            n <= families@.len(),
            graph == views(unit_graph@),
            all == views(families@),
            separate(graph, all, n as int),
            maps_members(graph, all, n as int, members@),
        decreases families@.len() - n,
    {
        let ghost before = members@;
        let ghost family = all[n as int];
        let mut pending = package_units(unit_graph, families[n].scope_package.as_str());
        let ghost roots = pending@;
        if pending.len() == 0 {
            assert(units_of(graph, all[n as int].scope_package).len() == 0);
            return Err(
                FamilyError::AbsentScope {
                    family: families[n].name.clone(),
                    scope_package: families[n].scope_package.clone(),
                },
            );
        }
        let ghost mut done = Set::<u64>::empty();
        proof {
            lemma_walk_starts(graph, roots);
        }
        while pending.len() > 0
            invariant
                n < families@.len(),
                graph == views(unit_graph@),
                all == views(families@),
                family == all[n as int],
                roots == units_of(graph, family.scope_package),
                roots.len() > 0,
                separate(graph, all, n as int),
                walk_holds(graph, roots, pending@, done),
                partly_mapped(graph, all, n as int, before, done, members@),
            decreases unvisited(graph, done), pending@.len(),
        {
            let ghost held = pending@;
            let ghost mapped = members@;
            let unit: u64 = match pending.pop() {
                Some(unit) => unit,
                None => 0,
            };
            proof {
                assert(held.last() == unit);
                assert(held.contains(unit)) by {
                    assert(held[held.len() - 1] == unit);
                }
                assert(pending@ =~= held.drop_last());
            }
            match members.insert(unit, n) {
                Some(previous) => {
                    if previous != n {
                        proof {
                            assert(mapped.contains_key(unit));
                            assert(before.contains_key(unit));
                            assert(in_family(graph, all[previous as int], unit));
                            assert(in_family(graph, all[n as int], unit));
                        }
                        return Err(FamilyError::MultipleFamilies { unit });
                    }
                    proof {
                        assert(mapped.contains_key(unit));
                        assert(mapped[unit] == n);
                        if before.contains_key(unit) {
                            assert(before[unit] < n);
                        }
                        assert(done.contains(unit));
                        assert(members@ =~= mapped);
                        lemma_walk_skips(graph, roots, held, done);
                    }
                },
                None => {
                    proof {
                        assert(!mapped.contains_key(unit));
                        assert(!done.contains(unit));
                        lemma_unvisited(graph, done, unit);
                        lemma_position(graph, unit);
                    }
                    match find_unit(unit_graph, unit) {
                        Some(i) => {
                            let ghost rest = pending@;
                            pending.extend_from_slice(unit_graph[i].dependencies.as_slice());
                            proof {
                                assert(graph[i as int] == unit_graph@[i as int]@);
                                let more = depends_on(graph)(unit);
                                assert(pending@ =~= rest + more);
                                lemma_walk_enters(graph, roots, held, done, more);
                            }
                        },
                        None => {
                            proof {
                                let more = depends_on(graph)(unit);
                                assert(pending@ =~= held.drop_last() + more);
                                lemma_walk_enters(graph, roots, held, done, more);
                            }
                        },
                    }
                    proof {
                        done = done.insert(unit);
                    }
                },
            }
        }
        proof {
            assert(pending@ =~= Seq::<u64>::empty());
            lemma_walk_ends(graph, roots, done);
            lemma_family_mapped(graph, all, n as int, before, done, members@);
        }
        n = n + 1;
    }
    Ok(members)
}

proof fn lemma_family_mapped(
    graph: Seq<NodeModel>,
    families: Seq<FamilyModel>,
    n: int,
    before: Map<u64, usize>,
    done: Set<u64>,
    members: Map<u64, usize>,
)
    requires
        0 <= n < families.len(),
        separate(graph, families, n),
        units_of(graph, families[n].scope_package).len() > 0,
        partly_mapped(graph, families, n, before, done, members),
        forall|x: u64| #[trigger]
            reachable(depends_on(graph), units_of(graph, families[n].scope_package), x)
                <==> done.contains(x),
    ensures
        separate(graph, families, n + 1),
        maps_members(graph, families, n + 1, members),
{
    assert forall|i: int, j: int, unit: u64|
        0 <= i < j < n + 1 && in_family(graph, families[i], unit) implies !in_family(
        graph,
        families[j],
        unit,
    ) by {
        if j == n && in_family(graph, families[n], unit) {
            assert(before.contains_key(unit));
            assert(done.contains(unit));
        }
    }
    assert forall|unit: u64| #[trigger] members.contains_key(unit) implies members[unit] < n + 1
        && in_family(graph, families[members[unit] as int], unit) by {
        if done.contains(unit) {
            assert(in_family(graph, families[n], unit));
        } else {
            assert(before.contains_key(unit));
        }
    }
    assert forall|i: int, unit: u64|
        0 <= i < n + 1 && #[trigger] in_family(graph, families[i], unit) implies members.contains_key(
        unit,
    ) && members[unit] == i by {
        if i == n {
            assert(done.contains(unit));
        } else {
            assert(before.contains_key(unit));
        }
    }
}

/// Units of a family stay together: whatever a member depends on is in the same
/// family.
pub proof fn family_is_closed(graph: Seq<NodeModel>, family: FamilyModel, unit: u64, dependency: u64)
    requires
        in_family(graph, family, unit),
        depends_on(graph)(unit).contains(dependency),
    ensures
        in_family(graph, family, dependency),
{
    successor_is_reached(
        depends_on(graph),
        units_of(graph, family.scope_package),
        unit,
        dependency,
    );
}

} // verus!
