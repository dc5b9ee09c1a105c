//! Which optional dependencies a selection of features enables.

use vstd::prelude::*;

use crate::name_map::NameMap;
use crate::order::views;
use crate::reach::{reachable, reached_is_in_closed_set, start_is_reached, successor_is_reached};
use crate::text::{text_equal, text_in};

verus! {

/// What a feature enables.
#[derive(Debug)]
pub enum FeatureValue {
    /// Another feature of the package.
    Feature { name: String },
    /// An optional dependency.
    Dep { dep_name: String },
    /// A feature of a dependency; a weak one does not enable the dependency.
    DepFeature { dep_name: String, dep_feature: String, weak: bool },
}

/// What a feature enables.
pub enum FeatureModel {
    Feature(Seq<char>),
    Dep(Seq<char>),
    DepFeature(Seq<char>, Seq<char>, bool),
}

impl View for FeatureValue {
    type V = FeatureModel;

    open spec fn view(&self) -> FeatureModel {
        match *self {
            FeatureValue::Feature { name } => FeatureModel::Feature(name@),
            FeatureValue::Dep { dep_name } => FeatureModel::Dep(dep_name@),
            FeatureValue::DepFeature {
                dep_name,
                dep_feature,
                weak,
            } => FeatureModel::DepFeature(dep_name@, dep_feature@, weak),
        }
    }
}

impl Clone for FeatureValue {
    fn clone(&self) -> (r: Self)
        ensures
            r@ == self@,
    {
        match self {
            FeatureValue::Feature { name } => FeatureValue::Feature { name: name.clone() },
            FeatureValue::Dep { dep_name } => FeatureValue::Dep { dep_name: dep_name.clone() },
            FeatureValue::DepFeature {
                dep_name,
                dep_feature,
                weak,
            } => FeatureValue::DepFeature {
                dep_name: dep_name.clone(),
                dep_feature: dep_feature.clone(),
                weak: *weak,
            },
        }
    }
}

/// What one feature of a package enables.
#[derive(Debug)]
pub struct FeatureList {
    pub values: Vec<FeatureValue>,
}

impl View for FeatureList {
    type V = Seq<FeatureModel>;

    open spec fn view(&self) -> Seq<FeatureModel> {
        views(self.values@)
    }
}

/// The features selected for a package.
#[derive(Debug)]
pub struct FeatureSelection {
    pub all_features: bool,
    pub uses_default_features: bool,
    pub features: Vec<FeatureValue>,
}

/// The features selected for a package.
#[verifier::ext_equal]
pub struct SelectionModel {
    pub all_features: bool,
    pub uses_default_features: bool,
    pub features: Seq<FeatureModel>,
}

impl View for FeatureSelection {
    type V = SelectionModel;

    open spec fn view(&self) -> SelectionModel {
        SelectionModel {
            all_features: self.all_features,
            uses_default_features: self.uses_default_features,
            features: views(self.features@),
        }
    }
}

/// Where a feature stands among the features of a package.
pub open spec fn feature_position(map: Seq<(Seq<char>, Seq<FeatureModel>)>, name: Seq<char>) -> Option<
    int,
>
    decreases map.len(),
{
    if map.len() == 0 {
        None
    } else {
        match feature_position(map.drop_last(), name) {
            Some(i) => Some(i),
            None => if map.last().0 == name {
                Some(map.len() - 1)
            } else {
                None
            },
        }
    }
}

/// What a feature of a package enables.
pub open spec fn enabled_by(map: Seq<(Seq<char>, Seq<FeatureModel>)>, name: Seq<char>) -> Seq<
    FeatureModel,
> {
    match feature_position(map, name) {
        Some(i) => map[i].1,
        None => Seq::empty(),
    }
}

/// What follows from a feature value.
pub open spec fn feature_graph(map: Seq<(Seq<char>, Seq<FeatureModel>)>) -> spec_fn(
    FeatureModel,
) -> Seq<FeatureModel> {
    |v: FeatureModel|
        match v {
            FeatureModel::Feature(name) => enabled_by(map, name),
            _ => Seq::empty(),
        }
}

/// What is selected to begin with.
pub open spec fn selected_values(
    map: Seq<(Seq<char>, Seq<FeatureModel>)>,
    selection: SelectionModel,
) -> Seq<FeatureModel> {
    if selection.uses_default_features && feature_position(map, "default"@) is Some {
        selection.features.push(FeatureModel::Feature("default"@))
    } else {
        selection.features
    }
}

/// The value enables the dependency.
pub open spec fn enables(v: FeatureModel, dependency: Seq<char>) -> bool {
    match v {
        FeatureModel::Dep(name) => name == dependency,
        FeatureModel::DepFeature(name, _, weak) => name == dependency && !weak,
        FeatureModel::Feature(_) => false,
    }
}

/// The selection enables the dependency: all features are selected, or something
/// that enables it follows from what is selected.
pub open spec fn dependency_enabled(
    map: Seq<(Seq<char>, Seq<FeatureModel>)>,
    selection: SelectionModel,
    dependency: Seq<char>,
) -> bool {
    selection.all_features || exists|v: FeatureModel| #[trigger]
        reachable(feature_graph(map), selected_values(map, selection), v) && enables(v, dependency)
}

pub(crate) proof fn lemma_feature_position(map: Seq<(Seq<char>, Seq<FeatureModel>)>, name: Seq<char>)
    ensures
        feature_position(map, name) matches Some(i) ==> 0 <= i < map.len() && map[i].0 == name,
        feature_position(map, name) is None ==> forall|i: int|
            0 <= i < map.len() ==> (#[trigger] map[i]).0 != name,
    decreases map.len(),
{
    if map.len() > 0 {
        let init = map.drop_last();
        lemma_feature_position(init, name);
        if feature_position(init, name) is Some {
            let i = feature_position(init, name)->0;
            assert(map[i] == init[i]);
        } else if feature_position(map, name) is None {
            assert forall|i: int| 0 <= i < map.len() implies (#[trigger] map[i]).0 != name by {
                if i < init.len() {
                    assert(init[i].0 != name);
                }
            }
        }
    }
}

fn find_feature(map: &NameMap<FeatureList>, name: &str) -> (r: Option<usize>)
    ensures
        r is Some <==> feature_position(map@, name@) is Some,
        r matches Some(i) ==> i < map@.len() && i == feature_position(map@, name@)->0,
{
    let ghost all = map@;
    let mut i: usize = 0;
    while i < map.len()
        invariant
            i <= map@.len(),
            all == map@,
            feature_position(all.take(i as int), name@) is None,
        decreases map@.len() - i,
    {
        proof {
            assert(all.take(i + 1).drop_last() =~= all.take(i as int));
            assert(all.take(i + 1).last() == map@[i as int]);
        }
        if text_equal(map.name_at(i).as_str(), name) {
            proof {
                lemma_position_extends(all, i + 1, name@);
            }
            return Some(i);
        }
        i = i + 1;
    }
    assert(all.take(i as int) =~= all);
    None
}

proof fn lemma_position_extends(
    map: Seq<(Seq<char>, Seq<FeatureModel>)>,
    n: int,
    name: Seq<char>,
)
    requires
        0 <= n <= map.len(),
        feature_position(map.take(n), name) is Some,
    ensures
        feature_position(map, name) == feature_position(map.take(n), name),
    decreases map.len() - n,
{
    if n < map.len() {
        assert(map.take(n + 1).drop_last() =~= map.take(n));
        lemma_position_extends(map, n + 1, name);
    } else {
        assert(map.take(n) =~= map);
    }
}

/// How many features of the package are not among `names`.
spec fn unvisited(map: Seq<(Seq<char>, Seq<FeatureModel>)>, names: Seq<Seq<char>>) -> nat
    decreases map.len(),
{
    if map.len() == 0 {
        0
    } else {
        unvisited(map.drop_last(), names) + if names.contains(map.last().0) {
            0nat
        } else {
            1nat
        }
    }
}

proof fn lemma_unvisited(
    map: Seq<(Seq<char>, Seq<FeatureModel>)>,
    names: Seq<Seq<char>>,
    name: Seq<char>,
)
    ensures
        unvisited(map, names.push(name)) <= unvisited(map, names),
        !names.contains(name) && (exists|i: int| 0 <= i < map.len() && (#[trigger] map[i]).0
            == name) ==> unvisited(map, names.push(name)) < unvisited(map, names),
    decreases map.len(),
{
    if map.len() > 0 {
        let init = map.drop_last();
        lemma_unvisited(init, names, name);
        let more = names.push(name);
        if names.contains(map.last().0) {
            let k = choose|k: int| 0 <= k < names.len() && names[k] == map.last().0;
            assert(more[k] == map.last().0);
        }
        if exists|i: int| 0 <= i < map.len() && (#[trigger] map[i]).0 == name {
            let i = choose|i: int| 0 <= i < map.len() && (#[trigger] map[i]).0 == name;
            if i < init.len() {
                assert(init[i].0 == name);
            } else {
                assert(more[names.len() as int] == name);
            }
        }
    }
}

proof fn lemma_contains_pop(s: Seq<FeatureModel>, x: FeatureModel)
    requires
        s.len() > 0,
    ensures
        s.contains(x) ==> x == s.last() || s.drop_last().contains(x),
{
    if s.contains(x) {
        let k = choose|k: int| 0 <= k < s.len() && s[k] == x;
        if k < s.len() - 1 {
            assert(s.drop_last()[k] == x);
        }
    }
}

proof fn lemma_contains_concat(a: Seq<FeatureModel>, b: Seq<FeatureModel>, x: FeatureModel)
    ensures
        (a + b).contains(x) <==> a.contains(x) || b.contains(x),
{
    let s = a + b;
    if s.contains(x) {
        let k = choose|k: int| 0 <= k < s.len() && s[k] == x;
        if k < a.len() {
            assert(a[k] == x);
        } else {
            assert(b[k - a.len()] == x);
        }
    }
    if a.contains(x) {
        let k = choose|k: int| 0 <= k < a.len() && a[k] == x;
        assert(s[k] == x);
    }
    if b.contains(x) {
        let k = choose|k: int| 0 <= k < b.len() && b[k] == x;
        assert(s[a.len() + k] == x);
    }
}

fn copy_features(values: &Vec<FeatureValue>) -> (r: Vec<FeatureValue>)
    ensures
        views(r@) == views(values@),
{
    let mut r: Vec<FeatureValue> = Vec::new();
    let mut i: usize = 0;
    while i < values.len()
        invariant
            i <= values@.len(),
            r@.len() == i,
            forall|k: int| 0 <= k < i ==> (#[trigger] r@[k])@ == values@[k]@,
        decreases values@.len() - i,
    {
        r.push(values[i].clone());
        i = i + 1;
    }
    assert(views(r@) =~= views(values@));
    r
}

fn value_enables(value: &FeatureValue, dependency: &str) -> (r: bool)
    ensures
        r == enables(value@, dependency@),
{
    match value {
        FeatureValue::Dep { dep_name } => text_equal(dep_name.as_str(), dependency),
        FeatureValue::DepFeature { dep_name, dep_feature: _, weak } => text_equal(
            dep_name.as_str(),
            dependency,
        ) && !*weak,
        FeatureValue::Feature { .. } => false,
    }
}

/// What a search for a value that enables a dependency has come to.
spec fn search_holds(
    map: Seq<(Seq<char>, Seq<FeatureModel>)>,
    start: Seq<FeatureModel>,
    pending: Seq<FeatureModel>,
    done: Set<FeatureModel>,
    visited: Seq<Seq<char>>,
    dependency: Seq<char>,
) -> bool {
    &&& forall|x: FeatureModel| #[trigger]
        pending.contains(x) ==> reachable(feature_graph(map), start, x)
    &&& forall|x: FeatureModel|
        start.contains(x) ==> #[trigger] done.contains(x) || pending.contains(x)
    &&& forall|x: FeatureModel, y: FeatureModel|
        #![trigger done.contains(x), done.contains(y)]
        done.contains(x) && feature_graph(map)(x).contains(y) ==> done.contains(y)
            || pending.contains(y)
    &&& forall|x: FeatureModel| #[trigger] done.contains(x) ==> !enables(x, dependency)
    &&& forall|name: Seq<char>|
        #![trigger visited.contains(name)]
        visited.contains(name) <==> done.contains(FeatureModel::Feature(name))
}

proof fn lemma_search_ends(
    map: Seq<(Seq<char>, Seq<FeatureModel>)>,
    start: Seq<FeatureModel>,
    done: Set<FeatureModel>,
    visited: Seq<Seq<char>>,
    dependency: Seq<char>,
)
    requires
        search_holds(map, start, Seq::empty(), done, visited, dependency),
    ensures
        forall|v: FeatureModel| #[trigger]
            reachable(feature_graph(map), start, v) ==> !enables(v, dependency),
{
    let next = feature_graph(map);
    let inside = |x: FeatureModel| done.contains(x);
    assert forall|v: FeatureModel| #[trigger] reachable(next, start, v) implies !enables(
        v,
        dependency,
    ) by {
        assert forall|x: FeatureModel| start.contains(x) implies #[trigger] inside(x) by {
            assert(done.contains(x) || Seq::<FeatureModel>::empty().contains(x));
        }
        assert forall|x: FeatureModel, y: FeatureModel|
            #![trigger next(x).contains(y)]
            inside(x) && next(x).contains(y) implies inside(y) by {
            assert(done.contains(x));
            assert(done.contains(y) || Seq::<FeatureModel>::empty().contains(y));
        }
        reached_is_in_closed_set(next, start, inside, v);
        assert(done.contains(v));
    }
}

/// A value that enables nothing here and has nothing new behind it is done with.
proof fn lemma_search_skips(
    map: Seq<(Seq<char>, Seq<FeatureModel>)>,
    start: Seq<FeatureModel>,
    pending: Seq<FeatureModel>,
    done: Set<FeatureModel>,
    visited: Seq<Seq<char>>,
    dependency: Seq<char>,
)
    requires
        search_holds(map, start, pending, done, visited, dependency),
        pending.len() > 0,
        !enables(pending.last(), dependency),
        pending.last() matches FeatureModel::Feature(name) ==> visited.contains(name),
    ensures
        search_holds(
            map,
            start,
            pending.drop_last(),
            done.insert(pending.last()),
            visited,
            dependency,
        ),
{
    let v = pending.last();
    let rest = pending.drop_last();
    let after = done.insert(v);
    let next = feature_graph(map);
    assert forall|x: FeatureModel| #[trigger] rest.contains(x) implies reachable(next, start, x) by {
        let k = choose|k: int| 0 <= k < rest.len() && rest[k] == x;
        assert(pending[k] == x);
        assert(pending.contains(x));
    }
    assert forall|x: FeatureModel| start.contains(x) implies #[trigger] after.contains(x)
        || rest.contains(x) by {
        assert(done.contains(x) || pending.contains(x));
        lemma_contains_pop(pending, x);
    }
    assert forall|x: FeatureModel, y: FeatureModel|
        #![trigger after.contains(x), after.contains(y)]
        after.contains(x) && next(x).contains(y) implies after.contains(y) || rest.contains(y) by {
        lemma_contains_pop(pending, y);
        if done.contains(x) {
            assert(done.contains(y) || pending.contains(y));
        } else {
            assert(x == v);
            match v {
                FeatureModel::Feature(name) => {
                    assert(visited.contains(name));
                },
                _ => {},
            }
        }
    }
    assert forall|name: Seq<char>|
        #![trigger visited.contains(name)]
        visited.contains(name) <==> after.contains(FeatureModel::Feature(name)) by {
        assert(visited.contains(name) <==> done.contains(FeatureModel::Feature(name)));
    }
}

/// A feature met for the first time brings in what it enables.
proof fn lemma_search_enters(
    map: Seq<(Seq<char>, Seq<FeatureModel>)>,
    start: Seq<FeatureModel>,
    pending: Seq<FeatureModel>,
    done: Set<FeatureModel>,
    visited: Seq<Seq<char>>,
    dependency: Seq<char>,
    name: Seq<char>,
)
    requires
        search_holds(map, start, pending, done, visited, dependency),
        pending.len() > 0,
        pending.last() == FeatureModel::Feature(name),
    ensures
        search_holds(
            map,
            start,
            pending.drop_last() + enabled_by(map, name),
            done.insert(pending.last()),
            visited.push(name),
            dependency,
        ),
{
    let v = pending.last();
    let rest = pending.drop_last();
    let more = enabled_by(map, name);
    let all = rest + more;
    let after = done.insert(v);
    let next = feature_graph(map);
    assert(next(v) == more);
    assert(pending.contains(v)) by {
        assert(pending[pending.len() - 1] == v);
    }
    assert forall|x: FeatureModel| #[trigger] all.contains(x) implies reachable(next, start, x) by {
        lemma_contains_concat(rest, more, x);
        if rest.contains(x) {
            let k = choose|k: int| 0 <= k < rest.len() && rest[k] == x;
            assert(pending[k] == x);
            assert(pending.contains(x));
        } else {
            successor_is_reached(next, start, v, x);
        }
    }
    assert forall|x: FeatureModel| start.contains(x) implies #[trigger] after.contains(x)
        || all.contains(x) by {
        assert(done.contains(x) || pending.contains(x));
        lemma_contains_pop(pending, x);
        lemma_contains_concat(rest, more, x);
    }
    assert forall|x: FeatureModel, y: FeatureModel|
        #![trigger after.contains(x), after.contains(y)]
        after.contains(x) && next(x).contains(y) implies after.contains(y) || all.contains(y) by {
        lemma_contains_pop(pending, y);
        lemma_contains_concat(rest, more, y);
        if done.contains(x) {
            assert(done.contains(y) || pending.contains(y));
        }
    }
    let names = visited.push(name);
    assert forall|n: Seq<char>|
        #![trigger names.contains(n)]
        names.contains(n) <==> after.contains(FeatureModel::Feature(n)) by {
        assert(visited.contains(n) <==> done.contains(FeatureModel::Feature(n)));
        if visited.contains(n) {
            let k = choose|k: int| 0 <= k < visited.len() && visited[k] == n;
            assert(names[k] == n);
        }
        if n == name {
            assert(names[visited.len() as int] == n);
        }
        if names.contains(n) && n != name {
            let k = choose|k: int| 0 <= k < names.len() && names[k] == n;
            assert(visited[k] == n);
        }
    }
}

/// Whether the features selected for a package enable an optional dependency.
pub fn optional_dependency_enabled(
    feature_map: &NameMap<FeatureList>,
    selected: &FeatureSelection,
    dependency: &str,
) -> (r: bool)
    ensures
        r == dependency_enabled(feature_map@, selected@, dependency@),
{
    if selected.all_features {
        return true;
    }
    let ghost map = feature_map@;
    let ghost start = selected_values(map, selected@);
    let mut pending = copy_features(&selected.features);
    if selected.uses_default_features && find_feature(feature_map, "default").is_some() {
        let ghost before = pending@;
        pending.push(FeatureValue::Feature { name: "default".to_string() });
        assert(views(pending@) =~= views(before).push(FeatureModel::Feature("default"@)));
    }
    assert(views(pending@) == start);
    let mut visited: Vec<String> = Vec::new();
    let ghost mut done = Set::<FeatureModel>::empty();
    proof {
        assert forall|x: FeatureModel| #[trigger] start.contains(x) implies reachable(
            feature_graph(map),
            start,
            x,
        ) by {
            start_is_reached(feature_graph(map), start, x);
        }
    }
    while pending.len() > 0
        invariant
            map == feature_map@,
            start == selected_values(map, selected@),
            search_holds(map, start, views(pending@), done, views(visited@), dependency@),
        decreases unvisited(map, views(visited@)), pending@.len(),
    {
        let ghost before = views(pending@);
        let ghost names = views(visited@);
        let ghost held = pending@;
        let value = match pending.pop() {
            Some(value) => value,
            None => {
                return false;
            },
        };
        proof {
            assert(before.last() == value@);
            assert(views(pending@) =~= before.drop_last());
            assert(before.contains(value@)) by {
                assert(before[before.len() - 1] == value@);
            }
        }
        if value_enables(&value, dependency) {
            assert(reachable(feature_graph(map), start, value@));
            return true;
        }
        let mut fresh: bool = false;
        if let FeatureValue::Feature { name } = &value {
            fresh = !text_in(&visited, name.as_str());
            proof {
                assert(fresh == !names.contains(name@)) by {
                    if names.contains(name@) {
                        let k = choose|k: int| 0 <= k < names.len() && names[k] == name@;
                        assert(visited@[k]@ == name@);
                    }
                    if exists|i: int| 0 <= i < visited@.len() && (#[trigger] visited@[i])@ == name@ {
                        let i = choose|i: int|
                            0 <= i < visited@.len() && (#[trigger] visited@[i])@ == name@;
                        assert(names[i] == name@);
                    }
                }
            }
            if fresh {
                proof {
                    lemma_search_enters(map, start, before, done, names, dependency@, name@);
                    lemma_unvisited(map, names, name@);
                    lemma_feature_position(map, name@);
                }
                let at = find_feature(feature_map, name.as_str());
                let ghost seen = visited@;
                visited.push(name.clone());
                assert(views(visited@) =~= names.push(name@));
                match at {
                    Some(i) => {
                        let mut more = copy_features(&feature_map.value_at(i).values);
                        let ghost head = pending@;
                        let ghost tail = more@;
                        pending.append(&mut more);
                        proof {
                            assert(views(pending@) =~= views(head) + views(tail));
                            assert(map[i as int] == feature_map@[i as int]);
                        }
                    },
                    None => {
                        assert(views(pending@) =~= before.drop_last() + enabled_by(map, name@));
                    },
                }
            }
        }
        if !fresh {
            proof {
                lemma_search_skips(map, start, before, done, names, dependency@);
            }
        }
        proof {
            done = done.insert(value@);
        }
    }
    proof {
        assert(views(pending@) =~= Seq::<FeatureModel>::empty());
        lemma_search_ends(map, start, done, views(visited@), dependency@);
    }
    false
}

} // verus!
