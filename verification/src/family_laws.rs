//! What families of artifacts promise as a whole.

use vstd::prelude::*;
use vstd::utf8::encode_utf8;

use crate::artifact_family::{
    activated, config_fault, dependency_triggers, family_applies, family_stream, feature_fault,
    features_fault, is_foreign, member_triggers, scope_taken, slash_at, triggered, ConfigModel,
    ConfiguredModel, FamilyFault, FamilyModel, KindModel, ManifestModel, RequestModel,
};
use crate::features::{
    dependency_enabled, enables, feature_graph, feature_position, lemma_feature_position,
    selected_values, FeatureModel, SelectionModel,
};
use crate::hasher::stable_sip;
use crate::membership::{
    depends_on, in_family, maps_members, separate, unit_position, units_of, NodeModel,
};
use crate::reach::{is_chain, reachable};

verus! {

/// The feature names a dependency and one feature of it.
spec fn well_formed(feature: Seq<char>) -> bool {
    let s = encode_utf8(feature);
    exists|x: int|
        0 < x < s.len() - 1 && #[trigger] s[x] == 47 && forall|y: int|
            0 <= y < s.len() && y != x ==> #[trigger] s[y] != 47
}

proof fn lemma_slash(s: Seq<u8>, i: int)
    requires
        0 <= i <= s.len(),
    ensures
        i <= slash_at(s, i) <= s.len(),
        slash_at(s, i) < s.len() ==> s[slash_at(s, i)] == 47,
        forall|y: int| i <= y < slash_at(s, i) ==> #[trigger] s[y] != 47,
    decreases s.len() - i,
{
    if i < s.len() && s[i] != 47 {
        lemma_slash(s, i + 1);
    }
}

/// A dependency feature is right exactly where its only slash has something on
/// both sides. One without a slash is told from one that is wrong otherwise.
pub proof fn feature_has_one_slash_inside(family: Seq<char>, feature: Seq<char>)
    ensures
        ({
            let s = encode_utf8(feature);
            &&& feature_fault(family, feature) is None <==> exists|x: int|
                0 < x < s.len() - 1 && #[trigger] s[x] == 47 && forall|y: int|
                    0 <= y < s.len() && y != x ==> #[trigger] s[y] != 47
            &&& feature_fault(family, feature) == Some(
                FamilyFault::FeatureSyntax(family, feature),
            ) <==> !s.contains(47)
            &&& feature_fault(family, feature) is Some && s.contains(47) ==> feature_fault(
                family,
                feature,
            ) == Some(FamilyFault::InvalidFeature(family, feature))
        }),
{
    let s = encode_utf8(feature);
    let k = slash_at(s, 0);
    lemma_slash(s, 0);
    if k < s.len() {
        lemma_slash(s, k + 1);
        assert(s[k] == 47);
        assert(s.contains(47));
        let l = slash_at(s, k + 1);
        if feature_fault(family, feature) is None {
            assert forall|y: int| 0 <= y < s.len() && y != k implies #[trigger] s[y] != 47 by {}
        }
        if exists|x: int|
            0 < x < s.len() - 1 && #[trigger] s[x] == 47 && forall|y: int|
                0 <= y < s.len() && y != x ==> #[trigger] s[y] != 47 {
            let x = choose|x: int|
                0 < x < s.len() - 1 && #[trigger] s[x] == 47 && forall|y: int|
                    0 <= y < s.len() && y != x ==> #[trigger] s[y] != 47;
            assert(k == x);
            if l < s.len() {
                assert(s[l] == 47);
            }
        }
    } else {
        assert forall|y: int| 0 <= y < s.len() implies #[trigger] s[y] != 47 by {}
    }
}

/// A list of features is wrong where one of them is, and the first tells how.
pub proof fn first_wrong_feature_decides(family: Seq<char>, features: Seq<Seq<char>>)
    ensures
        features_fault(family, features) is None <==> forall|i: int|
            0 <= i < features.len() ==> feature_fault(family, #[trigger] features[i]) is None,
        features_fault(family, features) is Some ==> exists|i: int|
            0 <= i < features.len() && features_fault(family, features) == feature_fault(
                family,
                #[trigger] features[i],
            ) && forall|j: int|
                0 <= j < i ==> feature_fault(family, #[trigger] features[j]) is None,
    decreases features.len(),
{
    if features.len() > 0 {
        let init = features.drop_last();
        first_wrong_feature_decides(family, init);
        if features_fault(family, init) is Some {
            let i = choose|i: int|
                0 <= i < init.len() && features_fault(family, init) == feature_fault(
                    family,
                    #[trigger] init[i],
                ) && forall|j: int|
                    0 <= j < i ==> feature_fault(family, #[trigger] init[j]) is None;
            assert(features[i] == init[i]);
            assert forall|j: int| 0 <= j < i implies feature_fault(
                family,
                #[trigger] features[j],
            ) is None by {
                assert(init[j] == features[j]);
            }
        } else {
            assert forall|j: int| 0 <= j < init.len() implies feature_fault(
                family,
                #[trigger] features[j],
            ) is None by {
                assert(init[j] == features[j]);
            }
            assert(features[features.len() - 1] == features.last());
        }
    }
}

/// The configuration has what it needs.
spec fn valid(c: ConfiguredModel) -> bool {
    &&& c.config.trigger_dependency.len() > 0
    &&& c.config.scope_package.len() > 0
    &&& forall|f: int|
        0 <= f < c.config.activate_dependency_features.len() ==> well_formed(
            #[trigger] c.config.activate_dependency_features[f],
        )
    &&& !(c.manifest is Missing)
}

proof fn lemma_valid(name: Seq<char>, c: ConfiguredModel)
    ensures
        valid(c) <==> config_fault(name, c.config) is None && !(c.manifest is Missing),
{
    let features = c.config.activate_dependency_features;
    first_wrong_feature_decides(name, features);
    assert forall|f: int| 0 <= f < features.len() implies (well_formed(#[trigger] features[f])
        <==> feature_fault(name, features[f]) is None) by {
        feature_has_one_slash_inside(name, features[f]);
    }
}

/// The build is one that the family is configured for, as far as its name and the
/// profile go.
spec fn admitted(build: RequestModel, name: Seq<char>, config: ConfigModel) -> bool {
    !build.disabled.contains(name) && (config.profiles.len() == 0 || config.profiles.contains(
        build.profile,
    ))
}

/// The kinds of the build are the host's.
spec fn native(build: RequestModel) -> bool {
    forall|j: int|
        0 <= j < build.kinds.len() ==> #[trigger] build.kinds[j] == KindModel::Host || Some(
            build.kinds[j]->Target_0,
        ) == build.host
}

/// A member of the build has the dependency.
spec fn depended(build: RequestModel, trigger: Seq<char>) -> bool {
    exists|m: int, d: int|
        0 <= m < build.members.len() && 0 <= d < build.members[m].dependencies.len() && ({
            let dependency = #[trigger] build.members[m].dependencies[d];
            &&& dependency.name_in_toml == trigger || dependency.package_name == trigger
            &&& dependency.optional ==> dependency_enabled(
                build.members[m].feature_map,
                build.members[m].selection,
                dependency.name_in_toml,
            )
        })
}

proof fn lemma_depended(build: RequestModel, trigger: Seq<char>)
    ensures
        depended(build, trigger) <==> triggered(build.members, trigger),
{
    if triggered(build.members, trigger) {
        let m = choose|m: int|
            0 <= m < build.members.len() && member_triggers(
                #[trigger] build.members[m],
                trigger,
            );
        let d = choose|d: int|
            0 <= d < build.members[m].dependencies.len()
                && dependency_triggers(
                build.members[m],
                #[trigger] build.members[m].dependencies[d],
                trigger,
            );
        assert(build.members[m].dependencies[d].name_in_toml == trigger
            || build.members[m].dependencies[d].package_name == trigger);
    }
    if depended(build, trigger) {
        let (m, d) = choose|m: int, d: int|
            0 <= m < build.members.len() && 0 <= d < build.members[m].dependencies.len() && ({
                let dependency = #[trigger] build.members[m].dependencies[d];
                &&& dependency.name_in_toml == trigger || dependency.package_name == trigger
                &&& dependency.optional ==> dependency_enabled(
                    build.members[m].feature_map,
                    build.members[m].selection,
                    dependency.name_in_toml,
                )
            });
        assert(dependency_triggers(
            build.members[m],
            build.members[m].dependencies[d],
            trigger,
        ));
        assert(member_triggers(build.members[m], trigger));
    }
}

/// The family is to be used in the build.
spec fn wanted(build: RequestModel, name: Seq<char>, config: ConfigModel) -> bool {
    admitted(build, name, config) && (config.host_target_only ==> native(build)) && depended(
        build,
        config.trigger_dependency,
    )
}

/// The host is known, where the family needs to know it.
spec fn host_known(build: RequestModel, name: Seq<char>, config: ConfigModel) -> bool {
    admitted(build, name, config) && config.host_target_only ==> build.host is Some
}

proof fn lemma_applies(build: RequestModel, name: Seq<char>, config: ConfigModel)
    ensures
        family_applies(build, name, config) is Ok <==> host_known(build, name, config),
        family_applies(build, name, config) is Err ==> family_applies(build, name, config)
            == Err::<bool, FamilyFault>(FamilyFault::HostUnknown),
        host_known(build, name, config) ==> family_applies(build, name, config) == Ok::<
            bool,
            FamilyFault,
        >(wanted(build, name, config)),
{
    lemma_depended(build, config.trigger_dependency);
    if build.host is Some {
        let host = build.host->0;
        assert(is_foreign(build.kinds, host) <==> !native(build)) by {
            if !native(build) {
                let j = choose|j: int|
                    0 <= j < build.kinds.len() && !(#[trigger] build.kinds[j] == KindModel::Host
                        || Some(build.kinds[j]->Target_0) == build.host);
                assert(build.kinds[j] is Target);
            }
        }
    }
}

/// The environment of the family is described, in the version that is supported.
spec fn described(c: ConfiguredModel) -> bool {
    c.manifest matches ManifestModel::Parsed(e) && e.version == 1
}

/// The family in use is the configured one.
spec fn is_used_as(
    family: FamilyModel,
    c: (Seq<char>, ConfiguredModel),
) -> bool {
    &&& family.name == c.0
    &&& family.scope_package == c.1.config.scope_package
    &&& c.1.manifest == ManifestModel::Parsed(family.environment)
    &&& family.context_key == stable_sip(family_stream(c.0, c.1.config, family.environment))
}

proof fn lemma_used(
    build: RequestModel,
    configured: Seq<(Seq<char>, ConfiguredModel)>,
    k: int,
)
    requires
        activated(build, configured) is Ok,
        0 <= k < configured.len(),
        wanted(build, configured[k].0, configured[k].1.config),
    ensures
        ({
            let found = activated(build, configured)->Ok_0;
            let features = configured[k].1.config.activate_dependency_features;
            &&& exists|i: int|
                0 <= i < found.families.len() && is_used_as(
                    #[trigger] found.families[i],
                    configured[k],
                )
            &&& forall|f: int|
                0 <= f < features.len() ==> found.features.contains(#[trigger] features[f])
        }),
    decreases configured.len(),
{
    let init = configured.drop_last();
    let last = configured.last();
    let before = activated(build, init)->Ok_0;
    let found = activated(build, configured)->Ok_0;
    let features = configured[k].1.config.activate_dependency_features;
    lemma_applies(build, last.0, last.1.config);
    if k < init.len() {
        assert(init[k] == configured[k]);
        lemma_used(build, init, k);
        let i = choose|i: int|
            0 <= i < before.families.len() && is_used_as(
                #[trigger] before.families[i],
                configured[k],
            );
        assert(found.families[i] == before.families[i]);
        assert forall|f: int| 0 <= f < features.len() implies found.features.contains(
            #[trigger] features[f],
        ) by {
            assert(before.features.contains(features[f]));
            let x = choose|x: int|
                0 <= x < before.features.len() && before.features[x] == features[f];
            assert(found.features[x] == features[f]);
        }
    } else {
        assert(is_used_as(found.families[before.families.len() as int], configured[k]));
        assert forall|f: int| 0 <= f < features.len() implies found.features.contains(
            #[trigger] features[f],
        ) by {
            assert(found.features[before.features.len() + f] == features[f]);
        }
    }
}

proof fn lemma_family_from(
    build: RequestModel,
    configured: Seq<(Seq<char>, ConfiguredModel)>,
    i: int,
)
    requires
        activated(build, configured) is Ok,
        0 <= i < (activated(build, configured)->Ok_0).families.len(),
    ensures
        exists|k: int|
            0 <= k < configured.len() && wanted(
                build,
                configured[k].0,
                configured[k].1.config,
            ) && is_used_as(
                (activated(build, configured)->Ok_0).families[i],
                #[trigger] configured[k],
            ),
    decreases configured.len(),
{
    let init = configured.drop_last();
    let last = configured.last();
    let before = activated(build, init)->Ok_0;
    let found = activated(build, configured)->Ok_0;
    lemma_applies(build, last.0, last.1.config);
    if i < before.families.len() {
        lemma_family_from(build, init, i);
        assert(found.families[i] == before.families[i]);
        let k = choose|k: int|
            0 <= k < init.len() && wanted(build, init[k].0, init[k].1.config) && is_used_as(
                before.families[i],
                #[trigger] init[k],
            );
        assert(configured[k] == init[k]);
    } else {
        assert(configured[configured.len() - 1] == last);
        assert(is_used_as(found.families[i], last));
    }
}

proof fn lemma_feature_from(
    build: RequestModel,
    configured: Seq<(Seq<char>, ConfiguredModel)>,
    f: int,
)
    requires
        activated(build, configured) is Ok,
        0 <= f < (activated(build, configured)->Ok_0).features.len(),
    ensures
        exists|k: int|
            0 <= k < configured.len() && wanted(build, configured[k].0, configured[k].1.config) && (
            #[trigger] configured[k]).1.config.activate_dependency_features.contains(
                (activated(build, configured)->Ok_0).features[f],
            ),
    decreases configured.len(),
{
    let init = configured.drop_last();
    let last = configured.last();
    let before = activated(build, init)->Ok_0;
    let found = activated(build, configured)->Ok_0;
    lemma_applies(build, last.0, last.1.config);
    if f < before.features.len() {
        lemma_feature_from(build, init, f);
        assert(found.features[f] == before.features[f]);
        let k = choose|k: int|
            0 <= k < init.len() && wanted(build, init[k].0, init[k].1.config) && (
            #[trigger] init[k]).1.config.activate_dependency_features.contains(before.features[f]);
        assert(configured[k] == init[k]);
    } else {
        assert(configured[configured.len() - 1] == last);
        assert(last.1.config.activate_dependency_features[f - before.features.len()]
            == found.features[f]);
    }
}

/// Nothing is wrong with any of the families.
spec fn sound(build: RequestModel, configured: Seq<(Seq<char>, ConfiguredModel)>) -> bool {
    &&& forall|k: int|
        #![trigger configured[k]]
        0 <= k < configured.len() ==> {
            let name = configured[k].0;
            let c = configured[k].1;
            &&& valid(c)
            &&& host_known(build, name, c.config)
            &&& wanted(build, name, c.config) ==> described(c)
        }
    &&& forall|i: int, j: int|
        0 <= i < j < configured.len() && wanted(
            build,
            configured[i].0,
            configured[i].1.config,
        ) && wanted(build, configured[j].0, configured[j].1.config) ==> (
        #[trigger] configured[i]).1.config.scope_package != (
        #[trigger] configured[j]).1.config.scope_package
}

proof fn lemma_sound(build: RequestModel, configured: Seq<(Seq<char>, ConfiguredModel)>)
    ensures
        activated(build, configured) is Ok <==> sound(build, configured),
    decreases configured.len(),
{
    if configured.len() > 0 {
        let init = configured.drop_last();
        let last = configured.last();
        let n = configured.len() - 1;
        assert(configured[n] == last);
        lemma_sound(build, init);
        lemma_applies(build, last.0, last.1.config);
        lemma_valid(last.0, last.1);
        if activated(build, init) is Ok {
            let before = activated(build, init)->Ok_0;
            let scope = last.1.config.scope_package;
            assert(scope_taken(before.families, scope) <==> exists|k: int|
                0 <= k < init.len() && wanted(build, init[k].0, init[k].1.config) && (
                #[trigger] init[k]).1.config.scope_package == scope) by {
                if scope_taken(before.families, scope) {
                    let i = choose|i: int|
                        0 <= i < before.families.len() && (
                        #[trigger] before.families[i]).scope_package == scope;
                    lemma_family_from(build, init, i);
                    let k = choose|k: int|
                        0 <= k < init.len() && wanted(build, init[k].0, init[k].1.config)
                            && is_used_as(before.families[i], #[trigger] init[k]);
                    assert(init[k].1.config.scope_package == scope);
                }
                if exists|k: int|
                    0 <= k < init.len() && wanted(build, init[k].0, init[k].1.config) && (
                    #[trigger] init[k]).1.config.scope_package == scope {
                    let k = choose|k: int|
                        0 <= k < init.len() && wanted(build, init[k].0, init[k].1.config) && (
                        #[trigger] init[k]).1.config.scope_package == scope;
                    lemma_used(build, init, k);
                    let i = choose|i: int|
                        0 <= i < before.families.len() && is_used_as(
                            #[trigger] before.families[i],
                            init[k],
                        );
                    assert(before.families[i].scope_package == scope);
                }
            }
        }
        assert forall|k: int| 0 <= k < n implies init[k] == #[trigger] configured[k] by {}
        if sound(build, configured) {
            assert(sound(build, init)) by {
                assert forall|k: int| #![trigger init[k]] 0 <= k < init.len() implies {
                    let name = init[k].0;
                    let c = init[k].1;
                    &&& valid(c)
                    &&& host_known(build, name, c.config)
                    &&& wanted(build, name, c.config) ==> described(c)
                } by {
                    assert(configured[k] == init[k]);
                }
                assert forall|i: int, j: int|
                    0 <= i < j < init.len() && wanted(
                        build,
                        init[i].0,
                        init[i].1.config,
                    ) && wanted(build, init[j].0, init[j].1.config) implies (
                #[trigger] init[i]).1.config.scope_package != (
                #[trigger] init[j]).1.config.scope_package by {
                    assert(configured[i] == init[i] && configured[j] == init[j]);
                }
            }
            assert forall|k: int|
                0 <= k < init.len() && wanted(build, init[k].0, init[k].1.config) && wanted(
                    build,
                    last.0,
                    last.1.config,
                ) implies (#[trigger] init[k]).1.config.scope_package
                != last.1.config.scope_package by {
                assert(configured[k] == init[k] && configured[n] == last);
            }
        }
        if activated(build, configured) is Ok {
            assert forall|i: int, j: int|
                0 <= i < j < configured.len() && wanted(
                    build,
                    configured[i].0,
                    configured[i].1.config,
                ) && wanted(build, configured[j].0, configured[j].1.config) implies (
            #[trigger] configured[i]).1.config.scope_package != (
            #[trigger] configured[j]).1.config.scope_package by {
                assert(configured[i] == init[i]);
                if j < n {
                    assert(configured[j] == init[j]);
                }
            }
        }
    }
}

/// A configured family is in use after a successful activation where nothing
/// switches it off, the profile and the target of the build are among its own,
/// and its trigger is a dependency of any member that is not optional or is
/// enabled. Its features are then among those activated.
pub proof fn triggered_family_is_in_use(
    build: RequestModel,
    configured: Seq<(Seq<char>, ConfiguredModel)>,
    k: int,
    m: int,
    d: int,
)
    requires
        activated(build, configured) is Ok,
        0 <= k < configured.len(),
        !build.disabled.contains(configured[k].0),
        configured[k].1.config.profiles.len() == 0 || configured[k].1.config.profiles.contains(
            build.profile,
        ),
        configured[k].1.config.host_target_only ==> forall|j: int|
            0 <= j < build.kinds.len() ==> #[trigger] build.kinds[j] == KindModel::Host || Some(
                build.kinds[j]->Target_0,
            ) == build.host,
        0 <= m < build.members.len(),
        0 <= d < build.members[m].dependencies.len(),
        build.members[m].dependencies[d].name_in_toml == configured[k].1.config.trigger_dependency
            || build.members[m].dependencies[d].package_name
            == configured[k].1.config.trigger_dependency,
        build.members[m].dependencies[d].optional ==> dependency_enabled(
            build.members[m].feature_map,
            build.members[m].selection,
            build.members[m].dependencies[d].name_in_toml,
        ),
    ensures
        ({
            let found = activated(build, configured)->Ok_0;
            let features = configured[k].1.config.activate_dependency_features;
            &&& exists|i: int| 0 <= i < found.families.len() && ({
                let family = #[trigger] found.families[i];
                &&& family.name == configured[k].0
                &&& family.scope_package == configured[k].1.config.scope_package
                &&& configured[k].1.manifest == ManifestModel::Parsed(family.environment)
                &&& family.context_key == stable_sip(
                    family_stream(configured[k].0, configured[k].1.config, family.environment),
                )
            })
            &&& forall|f: int|
                0 <= f < features.len() ==> found.features.contains(#[trigger] features[f])
        }),
{
    assert(depended(build, configured[k].1.config.trigger_dependency)) by {
        assert(build.members[m].dependencies[d].name_in_toml
            == configured[k].1.config.trigger_dependency
            || build.members[m].dependencies[d].package_name
            == configured[k].1.config.trigger_dependency);
    }
    lemma_used(build, configured, k);
    let found = activated(build, configured)->Ok_0;
    let i = choose|i: int|
        0 <= i < found.families.len() && is_used_as(#[trigger] found.families[i], configured[k]);
    assert(found.families[i].name == configured[k].0);
}

/// A family in use is one of those configured, which nothing switches off, whose
/// profiles and target admit the build and whose trigger a member depends on.
pub proof fn family_in_use_is_triggered(
    build: RequestModel,
    configured: Seq<(Seq<char>, ConfiguredModel)>,
    i: int,
)
    requires
        activated(build, configured) is Ok,
        0 <= i < (activated(build, configured)->Ok_0).families.len(),
    ensures
        ({
            let family = (activated(build, configured)->Ok_0).families[i];
            exists|k: int| 0 <= k < configured.len() && ({
                let config = (#[trigger] configured[k]).1.config;
                &&& family.name == configured[k].0
                &&& family.scope_package == configured[k].1.config.scope_package
                &&& configured[k].1.manifest == ManifestModel::Parsed(family.environment)
                &&& family.context_key == stable_sip(
                    family_stream(configured[k].0, configured[k].1.config, family.environment),
                )
                &&& !build.disabled.contains(configured[k].0)
                &&& config.profiles.len() == 0 || config.profiles.contains(build.profile)
                &&& config.host_target_only ==> forall|j: int|
                    0 <= j < build.kinds.len() ==> #[trigger] build.kinds[j] == KindModel::Host || Some(
                        build.kinds[j]->Target_0,
                    ) == build.host
                &&& exists|m: int, d: int|
                    0 <= m < build.members.len() && 0 <= d < build.members[m].dependencies.len() && ({
                        let dependency = #[trigger] build.members[m].dependencies[d];
                        &&& dependency.name_in_toml == config.trigger_dependency
                            || dependency.package_name == config.trigger_dependency
                        &&& dependency.optional ==> dependency_enabled(
                            build.members[m].feature_map,
                            build.members[m].selection,
                            dependency.name_in_toml,
                        )
                    })
            })
        }),
{
    lemma_family_from(build, configured, i);
    let family = (activated(build, configured)->Ok_0).families[i];
    let k = choose|k: int|
        0 <= k < configured.len() && wanted(
            build,
            configured[k].0,
            configured[k].1.config,
        ) && is_used_as(family, #[trigger] configured[k]);
    assert(configured[k].0 == family.name);
}

/// A feature is activated only for a family that nothing switches off, whose
/// profiles and target admit the build and whose trigger a member depends on.
pub proof fn activated_feature_is_of_a_triggered_family(
    build: RequestModel,
    configured: Seq<(Seq<char>, ConfiguredModel)>,
    feature: Seq<char>,
)
    requires
        activated(build, configured) is Ok,
        (activated(build, configured)->Ok_0).features.contains(feature),
    ensures
        exists|k: int| 0 <= k < configured.len() && ({
            let config = (#[trigger] configured[k]).1.config;
            &&& config.activate_dependency_features.contains(feature)
            &&& !build.disabled.contains(configured[k].0)
            &&& config.profiles.len() == 0 || config.profiles.contains(build.profile)
            &&& config.host_target_only ==> forall|j: int|
                0 <= j < build.kinds.len() ==> #[trigger] build.kinds[j] == KindModel::Host || Some(
                    build.kinds[j]->Target_0,
                ) == build.host
            &&& exists|m: int, d: int|
                0 <= m < build.members.len() && 0 <= d < build.members[m].dependencies.len() && ({
                    let dependency = #[trigger] build.members[m].dependencies[d];
                    &&& dependency.name_in_toml == config.trigger_dependency
                        || dependency.package_name == config.trigger_dependency
                    &&& dependency.optional ==> dependency_enabled(
                        build.members[m].feature_map,
                        build.members[m].selection,
                        dependency.name_in_toml,
                    )
                })
        }),
{
    let features = (activated(build, configured)->Ok_0).features;
    let f = choose|f: int| 0 <= f < features.len() && features[f] == feature;
    lemma_feature_from(build, configured, f);
    let k = choose|k: int|
        0 <= k < configured.len() && wanted(build, configured[k].0, configured[k].1.config) && (
        #[trigger] configured[k]).1.config.activate_dependency_features.contains(feature);
    assert(configured[k].1.config.activate_dependency_features.contains(feature));
}

/// An activation succeeds exactly where nothing is wrong with any family. Each
/// names its trigger and its scope, has features of the right form and a
/// manifest. The host is known to one that is for the host only and is not
/// switched off or meant for another profile. Each that is to be used has a
/// manifest that describes an environment of the first version, and a scope of
/// its own.
pub proof fn activation_succeeds_where_no_family_is_wrong(
    build: RequestModel,
    configured: Seq<(Seq<char>, ConfiguredModel)>,
)
    ensures
        ({
            let admitted = |c: (Seq<char>, ConfiguredModel)|
                !build.disabled.contains(c.0) && (c.1.config.profiles.len() == 0
                    || c.1.config.profiles.contains(build.profile));
            let wanted = |c: (Seq<char>, ConfiguredModel)|
                admitted(c) && (c.1.config.host_target_only ==> forall|j: int|
                    0 <= j < build.kinds.len() ==> #[trigger] build.kinds[j] == KindModel::Host
                        || Some(build.kinds[j]->Target_0) == build.host) && exists|m: int, d: int|
                    0 <= m < build.members.len() && 0 <= d < build.members[m].dependencies.len()
                        && ({
                        let dependency = #[trigger] build.members[m].dependencies[d];
                        &&& dependency.name_in_toml == c.1.config.trigger_dependency
                            || dependency.package_name == c.1.config.trigger_dependency
                        &&& dependency.optional ==> dependency_enabled(
                            build.members[m].feature_map,
                            build.members[m].selection,
                            dependency.name_in_toml,
                        )
                    });
            let formed = |feature: Seq<char>|
                exists|x: int|
                    0 < x < encode_utf8(feature).len() - 1 && #[trigger] encode_utf8(feature)[x]
                        == 47 && forall|y: int|
                        0 <= y < encode_utf8(feature).len() && y != x
                            ==> #[trigger] encode_utf8(feature)[y] != 47;
            let right = |c: (Seq<char>, ConfiguredModel)|
                c.1.config.trigger_dependency.len() > 0 && c.1.config.scope_package.len() > 0 && (
                forall|f: int|
                    0 <= f < c.1.config.activate_dependency_features.len() ==> formed(
                        #[trigger] c.1.config.activate_dependency_features[f],
                    )) && !(c.1.manifest is Missing) && (admitted(c)
                    && c.1.config.host_target_only ==> build.host is Some) && (wanted(c) ==> (
                c.1.manifest matches ManifestModel::Parsed(e) && e.version == 1));
            activated(build, configured) is Ok <==> {
                &&& forall|k: int| 0 <= k < configured.len() ==> right(#[trigger] configured[k])
                &&& forall|i: int, j: int|
                    0 <= i < j < configured.len() && wanted(#[trigger] configured[i]) && wanted(
                        #[trigger] configured[j],
                    ) ==> configured[i].1.config.scope_package
                        != configured[j].1.config.scope_package
            }
        }),
{
    lemma_sound(build, configured);
}

/// The fault is what is wrong with family `k`.
spec fn told(
    build: RequestModel,
    configured: Seq<(Seq<char>, ConfiguredModel)>,
    k: int,
    fault: FamilyFault,
) -> bool {
    let name = configured[k].0;
    let c = configured[k].1;
    let config = c.config;
    let features = config.activate_dependency_features;
    let right = config.trigger_dependency.len() > 0 && config.scope_package.len() > 0 && forall|
        f: int,
    |
        0 <= f < features.len() ==> well_formed(#[trigger] features[f]);
    match fault {
        FamilyFault::MissingNames(family) => family == name && (config.trigger_dependency.len()
            == 0 || config.scope_package.len() == 0),
        FamilyFault::FeatureSyntax(family, feature) => family == name && features.contains(feature)
            && !encode_utf8(feature).contains(47),
        FamilyFault::InvalidFeature(family, feature) => family == name && features.contains(feature)
            && encode_utf8(feature).contains(47) && !well_formed(feature),
        FamilyFault::MissingManifest(family) => right && family == name && c.manifest is Missing,
        FamilyFault::HostUnknown => right && !(c.manifest is Missing) && admitted(
            build,
            name,
            config,
        ) && config.host_target_only && build.host is None,
        FamilyFault::DuplicateScope(scope) => right && admitted(build, name, config) && scope
            == config.scope_package && exists|i: int|
            0 <= i < k && (#[trigger] configured[i]).1.config.scope_package == scope,
        FamilyFault::UnreadableManifest(family) => right && admitted(build, name, config) && family
            == name && c.manifest is Unreadable,
        FamilyFault::MalformedManifest(family) => right && admitted(build, name, config) && family
            == name && c.manifest is Malformed,
        FamilyFault::UnsupportedVersion(family, version) => right && admitted(build, name, config)
            && family == name && version != 1 && (c.manifest matches ManifestModel::Parsed(e)
            && e.version == version),
        FamilyFault::AbsentScope(_, _) => false,
        FamilyFault::MultipleFamilies(_) => false,
    }
}

proof fn lemma_told_last(build: RequestModel, configured: Seq<(Seq<char>, ConfiguredModel)>)
    requires
        configured.len() > 0,
        activated(build, configured.drop_last()) is Ok,
        activated(build, configured) is Err,
    ensures
        told(build, configured, configured.len() - 1, activated(build, configured)->Err_0),
{
    let init = configured.drop_last();
    let last = configured.last();
    let before = activated(build, init)->Ok_0;
    let features = last.1.config.activate_dependency_features;
    assert(configured[configured.len() - 1] == last);
    lemma_applies(build, last.0, last.1.config);
    lemma_valid(last.0, last.1);
    first_wrong_feature_decides(last.0, features);
    assert forall|f: int| 0 <= f < features.len() implies (well_formed(#[trigger] features[f])
        <==> feature_fault(last.0, features[f]) is None) by {
        feature_has_one_slash_inside(last.0, features[f]);
    }
    if features_fault(last.0, features) is Some {
        let i = choose|i: int|
            0 <= i < features.len() && features_fault(last.0, features) == feature_fault(
                last.0,
                #[trigger] features[i],
            ) && forall|j: int|
                0 <= j < i ==> feature_fault(last.0, #[trigger] features[j]) is None;
        feature_has_one_slash_inside(last.0, features[i]);
        assert(features.contains(features[i]));
    }
    if scope_taken(before.families, last.1.config.scope_package) {
        let i = choose|i: int|
            0 <= i < before.families.len() && (#[trigger] before.families[i]).scope_package
                == last.1.config.scope_package;
        lemma_family_from(build, init, i);
        let k = choose|k: int|
            0 <= k < init.len() && wanted(build, init[k].0, init[k].1.config) && is_used_as(
                before.families[i],
                #[trigger] init[k],
            );
        assert(configured[k] == init[k]);
    }
}

proof fn lemma_told(build: RequestModel, configured: Seq<(Seq<char>, ConfiguredModel)>) -> (k: int)
    requires
        activated(build, configured) is Err,
    ensures
        0 <= k < configured.len(),
        activated(build, configured.take(k)) is Ok,
        told(build, configured, k, activated(build, configured)->Err_0),
    decreases configured.len(),
{
    let n = configured.len() - 1;
    let init = configured.drop_last();
    assert(configured.take(n) =~= init);
    if activated(build, init) is Err {
        let k = lemma_told(build, init);
        assert(init.take(k) =~= configured.take(k));
        assert(init[k] == configured[k]);
        let fault = activated(build, init)->Err_0;
        if fault is DuplicateScope {
            let i = choose|i: int|
                0 <= i < k && (#[trigger] init[i]).1.config.scope_package
                    == fault->DuplicateScope_0;
            assert(configured[i] == init[i]);
        }
        k
    } else {
        lemma_told_last(build, configured);
        n
    }
}

/// A failed activation tells what is wrong with the first family with which
/// something is wrong.
pub proof fn failure_tells_of_the_first_wrong_family(
    build: RequestModel,
    configured: Seq<(Seq<char>, ConfiguredModel)>,
)
    requires
        activated(build, configured) is Err,
    ensures
        exists|k: int| 0 <= k < configured.len() && activated(build, configured.take(k)) is Ok && ({
            let name = (#[trigger] configured[k]).0;
            let config = configured[k].1.config;
            let features = config.activate_dependency_features;
            let formed = |feature: Seq<char>|
                exists|x: int|
                    0 < x < encode_utf8(feature).len() - 1 && #[trigger] encode_utf8(feature)[x]
                        == 47 && forall|y: int|
                        0 <= y < encode_utf8(feature).len() && y != x
                            ==> #[trigger] encode_utf8(feature)[y] != 47;
            let right = config.trigger_dependency.len() > 0 && config.scope_package.len() > 0 && (
            forall|f: int| 0 <= f < features.len() ==> formed(#[trigger] features[f]));
            let admitted = !build.disabled.contains(name) && (config.profiles.len() == 0
                || config.profiles.contains(build.profile));
            match activated(build, configured)->Err_0 {
                FamilyFault::MissingNames(family) => family == name && (
                config.trigger_dependency.len() == 0 || config.scope_package.len() == 0),
                FamilyFault::FeatureSyntax(family, feature) => family == name && features.contains(
                    feature,
                ) && !encode_utf8(feature).contains(47),
                FamilyFault::InvalidFeature(family, feature) => family == name && features.contains(
                    feature,
                ) && encode_utf8(feature).contains(47) && !exists|x: int|
                    0 < x < encode_utf8(feature).len() - 1 && #[trigger] encode_utf8(feature)[x]
                        == 47 && forall|y: int|
                        0 <= y < encode_utf8(feature).len() && y != x
                            ==> #[trigger] encode_utf8(feature)[y] != 47,
                FamilyFault::MissingManifest(family) => right && family == name
                    && configured[k].1.manifest is Missing,
                FamilyFault::HostUnknown => right && !(configured[k].1.manifest is Missing)
                    && admitted && config.host_target_only && build.host is None,
                FamilyFault::DuplicateScope(scope) => right && admitted && scope
                    == config.scope_package && exists|i: int|
                    0 <= i < k && (#[trigger] configured[i]).1.config.scope_package == scope,
                FamilyFault::UnreadableManifest(family) => right && admitted && family == name
                    && configured[k].1.manifest is Unreadable,
                FamilyFault::MalformedManifest(family) => right && admitted && family == name
                    && configured[k].1.manifest is Malformed,
                FamilyFault::UnsupportedVersion(family, version) => right && admitted && family
                    == name && version != 1
                    && (configured[k].1.manifest matches ManifestModel::Parsed(e) && e.version
                    == version),
                FamilyFault::AbsentScope(_, _) => false,
                FamilyFault::MultipleFamilies(_) => false,
            }
        }),
{
    let k = lemma_told(build, configured);
    assert(told(build, configured, k, activated(build, configured)->Err_0));
}

/// A dependency is enabled where all features are selected, or where features
/// lead to it: one that is selected, or the default one, which names others, the
/// last of which names the dependency or a feature of it that is not weak.
pub proof fn enabled_dependency_is_led_to(
    map: Seq<(Seq<char>, Seq<FeatureModel>)>,
    selection: SelectionModel,
    dependency: Seq<char>,
)
    requires
        forall|i: int, j: int|
            0 <= i < j < map.len() ==> (#[trigger] map[i]).0 != (#[trigger] map[j]).0,
    ensures
        dependency_enabled(map, selection, dependency) <==> selection.all_features || exists|
            chain: Seq<FeatureModel>,
        |
            {
                &&& chain.len() > 0
                &&& selection.features.contains(#[trigger] chain[0]) || selection.uses_default_features
                    && chain[0] == FeatureModel::Feature("default"@) && exists|j: int|
                    0 <= j < map.len() && (#[trigger] map[j]).0 == "default"@
                &&& forall|i: int| #![trigger chain[i]]
                    0 <= i < chain.len() - 1 ==> exists|j: int|
                        0 <= j < map.len() && chain[i] == FeatureModel::Feature((#[trigger] map[j]).0)
                            && map[j].1.contains(chain[i + 1])
                &&& match chain.last() {
                    FeatureModel::Dep(name) => name == dependency,
                    FeatureModel::DepFeature(name, _, weak) => name == dependency && !weak,
                    FeatureModel::Feature(_) => false,
                }
            },
{
    let start = selected_values(map, selection);
    let next = feature_graph(map);
    lemma_feature_position(map, "default"@);
    assert forall|v: FeatureModel| start.contains(v) <==> selection.features.contains(v)
        || selection.uses_default_features && v == FeatureModel::Feature("default"@) && exists|
        j: int,
    |
        0 <= j < map.len() && (#[trigger] map[j]).0 == "default"@ by {
        if selection.features.contains(v) {
            let x = choose|x: int| 0 <= x < selection.features.len() && selection.features[x] == v;
            assert(start[x] == v);
        }
        if feature_position(map, "default"@) is Some {
            assert(map[feature_position(map, "default"@)->0].0 == "default"@);
            if selection.uses_default_features && v == FeatureModel::Feature("default"@) {
                assert(start[selection.features.len() as int] == v);
            }
        }
    }
    assert forall|v: FeatureModel, w: FeatureModel| #[trigger] next(v).contains(w) <==> exists|
        j: int,
    |
        0 <= j < map.len() && v == FeatureModel::Feature((#[trigger] map[j]).0) && map[j].1.contains(
            w,
        ) by {
        if v is Feature {
            lemma_feature_position(map, v->Feature_0);
        }
    }
    if dependency_enabled(map, selection, dependency) && !selection.all_features {
        let v = choose|v: FeatureModel| #[trigger]
            reachable(next, start, v) && enables(v, dependency);
        let chain = choose|chain: Seq<FeatureModel>| #[trigger]
            is_chain(next, start, chain) && chain.last() == v;
        assert(start.contains(chain[0]));
        assert forall|i: int| #![trigger chain[i]] 0 <= i < chain.len() - 1 implies exists|j: int|
            0 <= j < map.len() && chain[i] == FeatureModel::Feature((#[trigger] map[j]).0)
                && map[j].1.contains(chain[i + 1]) by {
            assert(next(chain[i]).contains(chain[i + 1]));
        }
    }
    if exists|chain: Seq<FeatureModel>| leads(map, selection, dependency, chain) {
        let chain = choose|chain: Seq<FeatureModel>| leads(map, selection, dependency, chain);
        assert(start.contains(chain[0]));
        assert forall|i: int| 0 <= i < chain.len() - 1 implies next(#[trigger] chain[i]).contains(
            chain[i + 1],
        ) by {}
        assert(is_chain(next, start, chain));
        assert(reachable(next, start, chain.last()));
    }
}

/// The chain of features leads from the selection to the dependency.
#[verifier::inline]
spec fn leads(
    map: Seq<(Seq<char>, Seq<FeatureModel>)>,
    selection: SelectionModel,
    dependency: Seq<char>,
    chain: Seq<FeatureModel>,
) -> bool {
    &&& chain.len() > 0
    &&& selection.features.contains(#[trigger] chain[0]) || selection.uses_default_features
        && chain[0] == FeatureModel::Feature("default"@) && exists|j: int|
        0 <= j < map.len() && (#[trigger] map[j]).0 == "default"@
    &&& forall|i: int| #![trigger chain[i]]
        0 <= i < chain.len() - 1 ==> exists|j: int|
            0 <= j < map.len() && chain[i] == FeatureModel::Feature((#[trigger] map[j]).0)
                && map[j].1.contains(chain[i + 1])
    &&& match chain.last() {
        FeatureModel::Dep(name) => name == dependency,
        FeatureModel::DepFeature(name, _, weak) => name == dependency && !weak,
        FeatureModel::Feature(_) => false,
    }
}

proof fn lemma_unit_position(graph: Seq<NodeModel>, unit: u64)
    ensures
        unit_position(graph, unit) matches Some(i) ==> 0 <= i < graph.len() && graph[i].unit
            == unit,
        unit_position(graph, unit) is None ==> forall|i: int|
            0 <= i < graph.len() ==> (#[trigger] graph[i]).unit != unit,
    decreases graph.len(),
{
    if graph.len() > 0 {
        let init = graph.drop_last();
        lemma_unit_position(init, unit);
        assert forall|i: int| 0 <= i < init.len() implies init[i] == #[trigger] graph[i] by {}
        if unit_position(graph, unit) is None {
            assert forall|i: int| 0 <= i < graph.len() implies (#[trigger] graph[i]).unit != unit by {
                if i < init.len() {
                    assert(init[i].unit != unit);
                }
            }
        }
    }
}

/// The units of a package are those of all its nodes.
pub proof fn package_has_the_units_of_its_nodes(
    graph: Seq<NodeModel>,
    package: Seq<char>,
    unit: u64,
)
    ensures
        units_of(graph, package).contains(unit) <==> exists|i: int|
            0 <= i < graph.len() && (#[trigger] graph[i]).package == package && graph[i].unit
                == unit,
    decreases graph.len(),
{
    if graph.len() > 0 {
        let init = graph.drop_last();
        package_has_the_units_of_its_nodes(init, package, unit);
        let before = units_of(init, package);
        let all = units_of(graph, package);
        let n = graph.len() - 1;
        assert(graph[n] == graph.last());
        if all.contains(unit) {
            let x = choose|x: int| 0 <= x < all.len() && all[x] == unit;
            if x < before.len() {
                assert(before[x] == unit);
                let i = choose|i: int|
                    0 <= i < init.len() && (#[trigger] init[i]).package == package && init[i].unit
                        == unit;
                assert(graph[i] == init[i]);
            }
        }
        if exists|i: int|
            0 <= i < graph.len() && (#[trigger] graph[i]).package == package && graph[i].unit
                == unit {
            let i = choose|i: int|
                0 <= i < graph.len() && (#[trigger] graph[i]).package == package && graph[i].unit
                    == unit;
            if i < n {
                assert(init[i] == graph[i]);
                let x = choose|x: int| 0 <= x < before.len() && before[x] == unit;
                assert(all[x] == unit);
            } else {
                assert(all[before.len() as int] == unit);
            }
        }
    }
}

/// A unit is in a family exactly where units lead to it from a unit of the scope
/// package, each of them a dependency of the one before.
pub proof fn member_is_led_to_from_the_scope(
    graph: Seq<NodeModel>,
    family: FamilyModel,
    unit: u64,
)
    requires
        forall|i: int, j: int|
            0 <= i < j < graph.len() ==> (#[trigger] graph[i]).unit != (#[trigger] graph[j]).unit,
    ensures
        in_family(graph, family, unit) <==> exists|chain: Seq<u64>|
            {
                &&& chain.len() > 0
                &&& exists|i: int|
                    0 <= i < graph.len() && (#[trigger] graph[i]).package == family.scope_package
                        && graph[i].unit == #[trigger] chain[0]
                &&& forall|k: int| #![trigger chain[k]]
                    0 <= k < chain.len() - 1 ==> exists|i: int|
                        0 <= i < graph.len() && (#[trigger] graph[i]).unit == chain[k]
                            && graph[i].dependencies.contains(chain[k + 1])
                &&& chain.last() == unit
            },
{
    let start = units_of(graph, family.scope_package);
    let next = depends_on(graph);
    assert forall|u: u64| start.contains(u) <==> exists|i: int|
        0 <= i < graph.len() && (#[trigger] graph[i]).package == family.scope_package
            && graph[i].unit == u by {
        package_has_the_units_of_its_nodes(graph, family.scope_package, u);
    }
    assert forall|u: u64, w: u64| #[trigger] next(u).contains(w) <==> exists|i: int|
        0 <= i < graph.len() && (#[trigger] graph[i]).unit == u && graph[i].dependencies.contains(
            w,
        ) by {
        lemma_unit_position(graph, u);
    }
    if in_family(graph, family, unit) {
        let chain = choose|chain: Seq<u64>| #[trigger]
            is_chain(next, start, chain) && chain.last() == unit;
        assert(start.contains(chain[0]));
        assert forall|k: int| #![trigger chain[k]] 0 <= k < chain.len() - 1 implies exists|i: int|
            0 <= i < graph.len() && (#[trigger] graph[i]).unit == chain[k]
                && graph[i].dependencies.contains(chain[k + 1]) by {
            assert(next(chain[k]).contains(chain[k + 1]));
        }
    }
    if exists|chain: Seq<u64>| belongs(graph, family, unit, chain) {
        let chain = choose|chain: Seq<u64>| belongs(graph, family, unit, chain);
        assert(start.contains(chain[0]));
        assert forall|k: int| 0 <= k < chain.len() - 1 implies next(#[trigger] chain[k]).contains(
            chain[k + 1],
        ) by {}
        assert(is_chain(next, start, chain));
        assert(reachable(next, start, unit));
    }
}

/// The chain of units leads from the scope package to the unit.
#[verifier::inline]
spec fn belongs(
    graph: Seq<NodeModel>,
    family: FamilyModel,
    unit: u64,
    chain: Seq<u64>,
) -> bool {
    &&& chain.len() > 0
    &&& exists|i: int|
        0 <= i < graph.len() && (#[trigger] graph[i]).package == family.scope_package
            && graph[i].unit == #[trigger] chain[0]
    &&& forall|k: int| #![trigger chain[k]]
        0 <= k < chain.len() - 1 ==> exists|i: int|
            0 <= i < graph.len() && (#[trigger] graph[i]).unit == chain[k]
                && graph[i].dependencies.contains(chain[k + 1])
    &&& chain.last() == unit
}

/// Families are told apart exactly where each has a unit of its scope package in
/// the build and no unit is in two of them. Then every unit of a family is
/// mapped to it, and no other unit is mapped.
pub proof fn families_are_told_apart_by_their_units(
    graph: Seq<NodeModel>,
    families: Seq<FamilyModel>,
    members: Map<u64, usize>,
    unit: u64,
)
    ensures
        separate(graph, families, families.len() as int) <==> {
            &&& forall|i: int|
                0 <= i < families.len() ==> exists|k: int|
                    0 <= k < graph.len() && (#[trigger] graph[k]).package == (
                    #[trigger] families[i]).scope_package
            &&& forall|i: int, j: int, u: u64|
                0 <= i < j < families.len() && #[trigger] in_family(graph, families[i], u)
                    ==> !(#[trigger] in_family(graph, families[j], u))
        },
        maps_members(graph, families, families.len() as int, members) ==> {
            &&& members.contains_key(unit) <==> exists|i: int|
                0 <= i < families.len() && in_family(graph, #[trigger] families[i], unit)
            &&& members.contains_key(unit) ==> members[unit] < families.len() && in_family(
                graph,
                families[members[unit] as int],
                unit,
            )
        },
{
    assert forall|i: int| 0 <= i < families.len() implies (units_of(
        graph,
        (#[trigger] families[i]).scope_package,
    ).len() > 0 <==> exists|k: int|
        0 <= k < graph.len() && (#[trigger] graph[k]).package == families[i].scope_package) by {
        let units = units_of(graph, families[i].scope_package);
        if units.len() > 0 {
            assert(units.contains(units[0]));
            package_has_the_units_of_its_nodes(graph, families[i].scope_package, units[0]);
        }
        if exists|k: int|
            0 <= k < graph.len() && (#[trigger] graph[k]).package == families[i].scope_package {
            let k = choose|k: int|
                0 <= k < graph.len() && (#[trigger] graph[k]).package == families[i].scope_package;
            package_has_the_units_of_its_nodes(graph, families[i].scope_package, graph[k].unit);
        }
    }
    if maps_members(graph, families, families.len() as int, members) {
        if members.contains_key(unit) {
            assert(in_family(graph, families[members[unit] as int], unit));
        }
    }
}

} // verus!
