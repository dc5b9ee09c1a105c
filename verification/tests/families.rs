//! Artifact families: when a build uses them, and what they change.

use std::collections::BTreeMap;
use std::hash::{Hash, Hasher};

use input_variants::artifact_family::{
    activate, apply_environment, input_environment, join_paths, validate_config, Activation,
    ArtifactEnvironment, ArtifactFamily, BuildRequest, CompileKind, ConfiguredFamily, Dependency,
    FamilyConfig, FamilyError, JoinError, Manifest, Member,
};
use input_variants::environment::{EnvConfig, EnvVar};
use input_variants::features::{
    optional_dependency_enabled, FeatureList, FeatureSelection, FeatureValue,
};
use input_variants::membership::{unit_membership, UnitNode};
use input_variants::name_map::NameMap;
use input_variants::path_buf::PathBuf;
use rustc_stable_hash::StableSipHasher128;

fn path(text: &str) -> PathBuf {
    PathBuf::new(text)
}

fn texts(items: &[&str]) -> Vec<String> {
    items.iter().map(|item| item.to_string()).collect()
}

fn plain_environment(set: &[(&str, &str)]) -> ArtifactEnvironment {
    ArtifactEnvironment::new(1, false, Vec::new(), pairs(set))
}

fn pairs(set: &[(&str, &str)]) -> Vec<(String, String)> {
    set.iter().map(|(name, value)| (name.to_string(), value.to_string())).collect()
}

fn config(features: &[&str]) -> FamilyConfig {
    FamilyConfig {
        trigger_dependency: "trigger".to_owned(),
        scope_package: "anchor".to_owned(),
        activate_dependency_features: texts(features),
        profiles: texts(&["dev"]),
        host_target_only: true,
    }
}

fn demo(manifest: Manifest) -> ConfiguredFamily {
    ConfiguredFamily { config: config(&["trigger/family"]), manifest }
}

fn configured(families: Vec<(&str, ConfiguredFamily)>) -> NameMap<ConfiguredFamily> {
    NameMap::of(families.into_iter().map(|(name, family)| (name.to_owned(), family)).collect())
}

fn only(family: ConfiguredFamily) -> NameMap<ConfiguredFamily> {
    configured(vec![("demo", family)])
}

fn parsed() -> Manifest {
    Manifest::Parsed { environment: plain_environment(&[("FAMILY_CANONICAL", "canonical")]) }
}

fn selection(features: Vec<FeatureValue>) -> FeatureSelection {
    FeatureSelection { all_features: false, uses_default_features: true, features }
}

fn dependency(name: &str, optional: bool) -> Dependency {
    Dependency { name_in_toml: name.to_owned(), package_name: name.to_owned(), optional }
}

fn feature_map(features: Vec<(&str, Vec<FeatureValue>)>) -> NameMap<FeatureList> {
    let entry = |(name, values): (&str, Vec<FeatureValue>)| (name.to_owned(), FeatureList { values });
    NameMap::of(features.into_iter().map(entry).collect())
}

fn member(optional: bool) -> Member {
    Member {
        dependencies: vec![dependency("other", false), dependency("trigger", optional)],
        feature_map: feature_map(vec![(
            "use-trigger",
            vec![FeatureValue::Dep { dep_name: "trigger".to_owned() }],
        )]),
        selection: selection(Vec::new()),
    }
}

fn build(members: Vec<Member>) -> BuildRequest {
    BuildRequest {
        profile: "dev".to_owned(),
        kinds: vec![CompileKind::Host],
        host: Some("x86_64-unknown-linux-gnu".to_owned()),
        members,
        disabled: Vec::new(),
    }
}

fn families(activation: Result<Activation, FamilyError>) -> Vec<String> {
    activation.unwrap().families.into_iter().map(|family| family.name).collect()
}

#[test]
fn a_triggered_family_is_activated_with_its_features() {
    let activation = activate(&build(vec![member(false)]), &only(demo(parsed()))).unwrap();
    assert_eq!(activation.features, ["trigger/family"]);
    assert_eq!(activation.families.len(), 1);
    assert_eq!(activation.families[0].name, "demo");
    assert_eq!(activation.families[0].scope_package, "anchor");
}

#[test]
fn an_inactive_optional_trigger_does_not_activate_the_family() {
    let activation = activate(&build(vec![member(true)]), &only(demo(parsed()))).unwrap();
    assert!(activation.families.is_empty());
    assert!(activation.features.is_empty());

    let mut selected = member(true);
    selected.selection.features = vec![FeatureValue::Feature { name: "use-trigger".to_owned() }];
    assert_eq!(families(activate(&build(vec![selected]), &only(demo(parsed())))), ["demo"]);
}

#[test]
fn a_renamed_dependency_triggers_under_both_names() {
    let mut renamed = member(false);
    renamed.dependencies[1].name_in_toml = "alias".to_owned();
    assert_eq!(families(activate(&build(vec![renamed]), &only(demo(parsed())))), ["demo"]);
    let mut renamed = member(false);
    renamed.dependencies[1].package_name = "real".to_owned();
    assert_eq!(families(activate(&build(vec![renamed]), &only(demo(parsed())))), ["demo"]);
}

#[test]
fn disabled_and_foreign_families_are_left_out() {
    let mut disabled = build(vec![member(false)]);
    disabled.disabled = texts(&["demo"]);
    assert!(families(activate(&disabled, &only(demo(parsed())))).is_empty());

    let mut release = build(vec![member(false)]);
    release.profile = "release".to_owned();
    assert!(families(activate(&release, &only(demo(parsed())))).is_empty());
    let mut any = demo(parsed());
    any.config.profiles.clear();
    assert_eq!(families(activate(&release, &only(any))), ["demo"]);

    let mut foreign = build(vec![member(false)]);
    foreign.kinds.push(CompileKind::Target { triple: "wasm32-unknown-unknown".to_owned() });
    assert!(families(activate(&foreign, &only(demo(parsed())))).is_empty());
    let mut anywhere = demo(parsed());
    anywhere.config.host_target_only = false;
    assert_eq!(families(activate(&foreign, &only(anywhere))), ["demo"]);

    let mut native = build(vec![member(false)]);
    native.kinds = vec![CompileKind::Target { triple: "x86_64-unknown-linux-gnu".to_owned() }];
    assert_eq!(families(activate(&native, &only(demo(parsed())))), ["demo"]);
}

#[test]
fn every_configuration_error_is_reported() {
    let family = || "demo".to_owned();
    let missing = FamilyConfig { trigger_dependency: String::new(), ..config(&[]) };
    assert_eq!(
        validate_config("demo", &missing),
        Err(FamilyError::MissingNames { family: family() })
    );
    let missing = FamilyConfig { scope_package: String::new(), ..config(&[]) };
    assert_eq!(
        validate_config("demo", &missing),
        Err(FamilyError::MissingNames { family: family() })
    );
    assert_eq!(
        validate_config("demo", &config(&["a/b", "plain"])),
        Err(FamilyError::FeatureSyntax { family: family(), feature: "plain".to_owned() })
    );
    for feature in ["/b", "a/", "a/b/c", "/"] {
        assert_eq!(
            validate_config("demo", &config(&[feature])),
            Err(FamilyError::InvalidFeature { family: family(), feature: feature.to_owned() })
        );
    }
    assert_eq!(validate_config("demo", &config(&["a/b"])), Ok(()));
}

#[test]
fn every_activation_error_is_reported() {
    let used = || build(vec![member(false)]);
    let family = || "demo".to_owned();
    assert_eq!(
        activate(&used(), &only(demo(Manifest::Missing))).unwrap_err(),
        FamilyError::MissingManifest { family: family() }
    );
    assert_eq!(
        activate(&used(), &only(demo(Manifest::Unreadable))).unwrap_err(),
        FamilyError::UnreadableManifest { family: family() }
    );
    assert_eq!(
        activate(&used(), &only(demo(Manifest::Malformed))).unwrap_err(),
        FamilyError::MalformedManifest { family: family() }
    );
    let newer = ArtifactEnvironment::new(2, false, Vec::new(), Vec::new());
    assert_eq!(
        activate(&used(), &only(demo(Manifest::Parsed { environment: newer }))).unwrap_err(),
        FamilyError::UnsupportedVersion { family: family(), version: 2 }
    );
    let mut hostless = used();
    hostless.host = None;
    assert_eq!(
        activate(&hostless, &only(demo(parsed()))).unwrap_err(),
        FamilyError::HostUnknown
    );
    let twins = configured(vec![("twin", demo(parsed())), ("demo", demo(parsed()))]);
    assert_eq!(
        activate(&used(), &twins).unwrap_err(),
        FamilyError::DuplicateScope { scope_package: "anchor".to_owned() }
    );
}

fn at_scope(scope: &str, set: &[(&str, &str)]) -> ConfiguredFamily {
    let mut family = demo(Manifest::Parsed { environment: plain_environment(set) });
    family.config.scope_package = scope.to_owned();
    family
}

#[test]
fn families_and_variables_are_taken_in_the_order_of_their_names() {
    let forward = configured(vec![
        ("a", at_scope("first", &[("X", "1"), ("Y", "2")])),
        ("b", at_scope("second", &[])),
    ]);
    let backward = configured(vec![
        ("b", at_scope("third", &[])),
        ("b", at_scope("second", &[])),
        ("a", at_scope("first", &[("Y", "3"), ("X", "1"), ("Y", "2")])),
    ]);
    let used = build(vec![member(false)]);
    let forward = activate(&used, &forward).unwrap();
    let backward = activate(&used, &backward).unwrap();
    let seen = |activation: &Activation| -> Vec<(String, String, u64)> {
        activation
            .families
            .iter()
            .map(|family| {
                (family.name.clone(), family.scope_package.clone(), family.context_key)
            })
            .collect()
    };
    assert_eq!(seen(&forward), seen(&backward));
    assert_eq!(forward.families[0].name, "a");
    assert_eq!(forward.families[1].scope_package, "second");
    let other = only(at_scope("first", &[("X", "1"), ("Y", "3")]));
    let other = activate(&used, &other).unwrap();
    assert_ne!(other.families[0].context_key, forward.families[0].context_key);
}

#[test]
fn a_name_map_keeps_one_value_for_a_name() {
    let mut map: NameMap<String> = NameMap::new();
    assert_eq!(map.len(), 0);
    map.insert("b".to_owned(), "1".to_owned());
    map.insert("a".to_owned(), "2".to_owned());
    map.insert("b".to_owned(), "3".to_owned());
    assert_eq!(map.len(), 2);
    assert_eq!((map.name_at(0).as_str(), map.value_at(0).as_str()), ("a", "2"));
    assert_eq!((map.name_at(1).as_str(), map.value_at(1).as_str()), ("b", "3"));
}

#[test]
fn a_manifest_is_read_only_where_the_family_is_used() {
    let unused = build(vec![member(true)]);
    assert!(families(activate(&unused, &only(demo(Manifest::Unreadable)))).is_empty());
    let mut disabled = build(vec![member(false)]);
    disabled.disabled = texts(&["demo"]);
    assert_eq!(
        activate(&disabled, &only(demo(Manifest::Missing))).unwrap_err(),
        FamilyError::MissingManifest { family: "demo".to_owned() }
    );
}

#[derive(Hash)]
struct StdEnvironment {
    version: u32,
    clear_inherited: bool,
    path: Vec<std::path::PathBuf>,
    set: BTreeMap<String, String>,
}

#[test]
fn the_context_key_hashes_as_derived_values_do() {
    let environment = ArtifactEnvironment::new(
        1,
        true,
        vec![path("/usr/bin"), path("/bin")],
        pairs(&[("B", "2"), ("A", "1"), ("B", "3")]),
    );
    let activation = activate(
        &build(vec![member(false)]),
        &only(demo(Manifest::Parsed { environment })),
    )
    .unwrap();
    let derived = StdEnvironment {
        version: 1,
        clear_inherited: true,
        path: vec!["/usr/bin".into(), "/bin".into()],
        set: [("B", "2"), ("A", "1"), ("B", "3")]
            .into_iter()
            .map(|(name, value)| (name.to_owned(), value.to_owned()))
            .collect(),
    };
    let mut hasher = StableSipHasher128::new();
    "demo".to_owned().hash(&mut hasher);
    "trigger".to_owned().hash(&mut hasher);
    "anchor".to_owned().hash(&mut hasher);
    vec!["trigger/family".to_owned()].hash(&mut hasher);
    derived.hash(&mut hasher);
    assert_eq!(activation.families[0].context_key, Hasher::finish(&hasher));
}

#[test]
fn features_enable_optional_dependencies_through_others() {
    let feature = |name: &str| FeatureValue::Feature { name: name.to_owned() };
    let dep_feature = |weak| FeatureValue::DepFeature {
        dep_name: "d".to_owned(),
        dep_feature: "f".to_owned(),
        weak,
    };
    let map = feature_map(vec![
        ("default", vec![feature("a")]),
        ("a", vec![feature("b"), feature("a")]),
        ("b", vec![feature("a"), dep_feature(false)]),
        ("weak", vec![dep_feature(true)]),
    ]);
    let selected = |features: Vec<FeatureValue>, default| FeatureSelection {
        all_features: false,
        uses_default_features: default,
        features,
    };
    assert!(optional_dependency_enabled(&map, &selected(Vec::new(), true), "d"));
    assert!(!optional_dependency_enabled(&map, &selected(Vec::new(), false), "d"));
    assert!(optional_dependency_enabled(&map, &selected(vec![feature("b")], false), "d"));
    assert!(!optional_dependency_enabled(&map, &selected(vec![feature("weak")], false), "d"));
    assert!(!optional_dependency_enabled(&map, &selected(vec![feature("absent")], false), "d"));
    assert!(!optional_dependency_enabled(&map, &selected(Vec::new(), true), "e"));
    let all = FeatureSelection { all_features: true, ..selected(Vec::new(), false) };
    assert!(optional_dependency_enabled(&map, &all, "e"));
}

fn family(name: &str, scope: &str, environment: ArtifactEnvironment) -> ArtifactFamily {
    ArtifactFamily {
        name: name.to_owned(),
        scope_package: scope.to_owned(),
        environment,
        context_key: 0,
    }
}

fn node(unit: u64, package: &str, dependencies: &[u64]) -> UnitNode {
    UnitNode { unit, package: package.to_owned(), dependencies: dependencies.to_vec() }
}

#[test]
fn a_family_takes_in_all_that_its_scope_depends_on() {
    let graph = vec![
        node(1, "app", &[2, 3]),
        node(2, "anchor", &[4]),
        node(3, "other", &[]),
        node(4, "leaf", &[2]),
        node(5, "anchor", &[6]),
    ];
    let families = vec![family("demo", "anchor", plain_environment(&[]))];
    let members = unit_membership(&families, &graph).unwrap();
    let mut units: Vec<_> = members.into_iter().collect();
    units.sort();
    assert_eq!(units, [(2, 0), (4, 0), (5, 0), (6, 0)]);
}

#[test]
fn families_that_overlap_or_have_no_unit_are_refused() {
    let graph = vec![node(1, "a", &[3]), node(2, "b", &[3]), node(3, "leaf", &[])];
    let absent = vec![family("demo", "anchor", plain_environment(&[]))];
    assert_eq!(
        unit_membership(&absent, &graph).unwrap_err(),
        FamilyError::AbsentScope {
            family: "demo".to_owned(),
            scope_package: "anchor".to_owned()
        }
    );
    let overlapping =
        vec![family("x", "a", plain_environment(&[])), family("y", "b", plain_environment(&[]))];
    assert_eq!(
        unit_membership(&overlapping, &graph).unwrap_err(),
        FamilyError::MultipleFamilies { unit: 3 }
    );
    assert!(unit_membership(&Vec::new(), &graph).unwrap().is_empty());
}

fn process(vars: &[(&str, &str)]) -> Vec<EnvVar> {
    vars.iter()
        .map(|(name, value)| EnvVar {
            name: name.as_bytes().to_vec(),
            value: value.as_bytes().to_vec(),
        })
        .collect()
}

#[test]
fn a_family_clears_and_sets_the_environment_of_commands() {
    let environment = ArtifactEnvironment::new(
        1,
        true,
        vec![path("/usr/bin"), path("/bin")],
        pairs(&[("HOME", "/nowhere"), ("A", "1")]),
    );
    let family = family("demo", "anchor", environment);
    let process = process(&[("TERM", "xterm"), ("HOME", "/home/me"), ("SECRET", "x")]);
    let edits = apply_environment(&family, &process).unwrap();
    assert!(edits.clear);
    let set: Vec<_> = edits
        .set
        .iter()
        .map(|(name, value)| (name.as_str(), std::str::from_utf8(value).unwrap()))
        .collect();
    assert_eq!(
        set,
        [
            ("HOME", "/home/me"),
            ("TERM", "xterm"),
            ("PATH", "/usr/bin:/bin"),
            ("A", "1"),
            ("HOME", "/nowhere"),
        ]
    );

    let mut configured = EnvConfig::new();
    configured.set("CONFIGURED", b"y".to_vec());
    let (inputs, inherit) = input_environment(&family, &configured, &process).unwrap();
    assert!(!inherit);
    assert_eq!(inputs.get("HOME"), Some(b"/nowhere".to_vec()));
    assert_eq!(inputs.get("TERM"), Some(b"xterm".to_vec()));
    assert_eq!(inputs.get("PATH"), Some(b"/usr/bin:/bin".to_vec()));
    assert_eq!(inputs.get("CONFIGURED"), None);
    assert_eq!(inputs.get("SECRET"), None);
}

#[test]
fn a_family_that_clears_nothing_adds_to_what_is_configured() {
    let family = family("demo", "anchor", plain_environment(&[("FAMILY_CANONICAL", "canonical")]));
    let edits = apply_environment(&family, &process(&[("HOME", "/home/me")])).unwrap();
    assert!(!edits.clear);
    assert_eq!(edits.set, [("FAMILY_CANONICAL".to_owned(), b"canonical".to_vec())]);
    let mut configured = EnvConfig::new();
    configured.set("FAMILY_CANONICAL", b"ambient".to_vec());
    configured.set("KEPT", b"z".to_vec());
    let (inputs, inherit) = input_environment(&family, &configured, &Vec::new()).unwrap();
    assert!(inherit);
    assert_eq!(inputs.get("FAMILY_CANONICAL"), Some(b"canonical".to_vec()));
    assert_eq!(inputs.get("KEPT"), Some(b"z".to_vec()));
}

#[test]
fn search_paths_cannot_hold_their_separator() {
    assert_eq!(join_paths(&vec![path("/a"), path(""), path("b")]), Ok(b"/a::b".to_vec()));
    assert_eq!(join_paths(&Vec::new()), Ok(Vec::new()));
    assert_eq!(
        join_paths(&vec![path("/a"), path("/b:c"), path(":")]),
        Err(JoinError { path: path("/b:c") })
    );
    let environment = ArtifactEnvironment::new(1, false, vec![path("/b:c")], Vec::new());
    let family = family("demo", "anchor", environment);
    assert!(apply_environment(&family, &Vec::new()).is_err());
    assert!(input_environment(&family, &EnvConfig::new(), &Vec::new()).is_err());
}
