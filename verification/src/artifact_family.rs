//! Declarative policy for shared heavy dependency subgraphs.

use vstd::bytes::spec_u32_to_le_bytes;
use vstd::prelude::*;
use vstd::utf8::encode_utf8;

use crate::environment::{
    config_value, distinct_names, process_lookup, process_value, variable_value_of, with_value,
    with_value_sets_one, EnvConfig, EnvVar, EnvironmentModel,
};
use crate::features::{
    dependency_enabled, optional_dependency_enabled, FeatureList, FeatureModel, FeatureSelection,
    SelectionModel,
};
use crate::hasher::{bool_stream, len_stream, path_stream, stable_sip, str_stream, StableHasher};
use crate::name_map::{mapped, mapped_ignores_order, name_order, names_ascend, NameMap};
use crate::order::{rank, sort_unique, sorted_set, sorted_set_members, views};
use crate::path_buf::{append_bytes, copy_bytes, PathBuf};
use crate::path_set::copy_paths;
use crate::sorted_map::last_value;
use crate::text::{copy_texts, text_equal, text_in, text_le, text_le_is_total_order};

verus! {

/// The separator of a dependency and its feature.
pub const SLASH: u8 = 47;

/// The separator of search paths, as Unix has it: the byte `:`. It cannot be
/// quoted.
pub const COLON: u8 = 58;

/// The environment that the units of a family are built in.
#[derive(Debug)]
pub struct ArtifactEnvironment {
    pub version: u32,
    pub clear_inherited: bool,
    pub path: Vec<PathBuf>,
    pub set: NameMap<String>,
}

/// The environment that the units of a family are built in.
#[verifier::ext_equal]
pub struct FamilyEnvironment {
    pub version: u32,
    pub clear_inherited: bool,
    pub path: Seq<Seq<u8>>,
    pub set: Seq<(Seq<char>, Seq<char>)>,
}

impl View for ArtifactEnvironment {
    type V = FamilyEnvironment;

    open spec fn view(&self) -> FamilyEnvironment {
        FamilyEnvironment {
            version: self.version,
            clear_inherited: self.clear_inherited,
            path: views(self.path@),
            set: self.set@,
        }
    }
}

impl Clone for ArtifactEnvironment {
    fn clone(&self) -> (r: Self)
        ensures
            r@ == self@,
    {
        ArtifactEnvironment {
            version: self.version,
            clear_inherited: self.clear_inherited,
            path: copy_paths(&self.path),
            set: self.set.clone(),
        }
    }
}

impl ArtifactEnvironment {
    /// An environment that sets these variables.
    pub fn new(
        version: u32,
        clear_inherited: bool,
        path: Vec<PathBuf>,
        vars: Vec<(String, String)>,
    ) -> (r: Self)
        ensures
            r@ == (FamilyEnvironment {
                version,
                clear_inherited,
                path: views(path@),
                set: mapped(views(vars@)),
            }),
            names_ascend(r@.set),
    {
        ArtifactEnvironment { version, clear_inherited, path, set: NameMap::of(vars) }
    }
}

/// A family of artifacts that is in use.
#[derive(Debug)]
pub struct ArtifactFamily {
    pub name: String,
    pub scope_package: String,
    pub environment: ArtifactEnvironment,
    pub context_key: u64,
}

/// A family of artifacts that is in use.
#[verifier::ext_equal]
pub struct FamilyModel {
    pub name: Seq<char>,
    pub scope_package: Seq<char>,
    pub environment: FamilyEnvironment,
    pub context_key: u64,
}

impl View for ArtifactFamily {
    type V = FamilyModel;

    open spec fn view(&self) -> FamilyModel {
        FamilyModel {
            name: self.name@,
            scope_package: self.scope_package@,
            environment: self.environment@,
            context_key: self.context_key,
        }
    }
}

impl Clone for ArtifactFamily {
    fn clone(&self) -> (r: Self)
        ensures
            r@ == self@,
    {
        ArtifactFamily {
            name: self.name.clone(),
            scope_package: self.scope_package.clone(),
            environment: self.environment.clone(),
            context_key: self.context_key,
        }
    }
}

/// What is configured for a family.
#[derive(Debug)]
pub struct FamilyConfig {
    pub trigger_dependency: String,
    pub scope_package: String,
    pub activate_dependency_features: Vec<String>,
    pub profiles: Vec<String>,
    pub host_target_only: bool,
}

/// What is configured for a family.
#[verifier::ext_equal]
pub struct ConfigModel {
    pub trigger_dependency: Seq<char>,
    pub scope_package: Seq<char>,
    pub activate_dependency_features: Seq<Seq<char>>,
    pub profiles: Seq<Seq<char>>,
    pub host_target_only: bool,
}

impl View for FamilyConfig {
    type V = ConfigModel;

    open spec fn view(&self) -> ConfigModel {
        ConfigModel {
            trigger_dependency: self.trigger_dependency@,
            scope_package: self.scope_package@,
            activate_dependency_features: views(self.activate_dependency_features@),
            profiles: views(self.profiles@),
            host_target_only: self.host_target_only,
        }
    }
}

/// Why families cannot be used.
#[derive(Debug, PartialEq, Eq)]
pub enum FamilyError {
    /// The family has no trigger dependency or no scope package.
    MissingNames { family: String },
    /// The feature names no dependency.
    FeatureSyntax { family: String, feature: String },
    /// The feature has an empty part or too many.
    InvalidFeature { family: String, feature: String },
    /// There is no environment manifest.
    MissingManifest { family: String },
    /// The compiler's host is not known.
    HostUnknown,
    /// Two families have one scope package.
    DuplicateScope { scope_package: String },
    /// The environment manifest cannot be read.
    UnreadableManifest { family: String },
    /// The environment manifest describes no environment.
    MalformedManifest { family: String },
    /// The environment manifest has another version.
    UnsupportedVersion { family: String, version: u32 },
    /// The scope package is not built.
    AbsentScope { family: String, scope_package: String },
    /// A unit is in two families.
    MultipleFamilies { unit: u64 },
}

/// Why families cannot be used.
pub enum FamilyFault {
    MissingNames(Seq<char>),
    FeatureSyntax(Seq<char>, Seq<char>),
    InvalidFeature(Seq<char>, Seq<char>),
    MissingManifest(Seq<char>),
    HostUnknown,
    DuplicateScope(Seq<char>),
    UnreadableManifest(Seq<char>),
    MalformedManifest(Seq<char>),
    UnsupportedVersion(Seq<char>, u32),
    AbsentScope(Seq<char>, Seq<char>),
    MultipleFamilies(u64),
}

impl View for FamilyError {
    type V = FamilyFault;

    open spec fn view(&self) -> FamilyFault {
        match *self {
            FamilyError::MissingNames { family } => FamilyFault::MissingNames(family@),
            FamilyError::FeatureSyntax { family, feature } => FamilyFault::FeatureSyntax(
                family@,
                feature@,
            ),
            FamilyError::InvalidFeature { family, feature } => FamilyFault::InvalidFeature(
                family@,
                feature@,
            ),
            FamilyError::MissingManifest { family } => FamilyFault::MissingManifest(family@),
            FamilyError::HostUnknown => FamilyFault::HostUnknown,
            FamilyError::DuplicateScope { scope_package } => FamilyFault::DuplicateScope(
                scope_package@,
            ),
            FamilyError::UnreadableManifest { family } => FamilyFault::UnreadableManifest(family@),
            FamilyError::MalformedManifest { family } => FamilyFault::MalformedManifest(family@),
            FamilyError::UnsupportedVersion { family, version } => FamilyFault::UnsupportedVersion(
                family@,
                version,
            ),
            FamilyError::AbsentScope { family, scope_package } => FamilyFault::AbsentScope(
                family@,
                scope_package@,
            ),
            FamilyError::MultipleFamilies { unit } => FamilyFault::MultipleFamilies(unit),
        }
    }
}

/// The first slash in `s` at `i` or behind it, or the end of `s`.
pub open spec fn slash_at(s: Seq<u8>, i: int) -> int
    decreases s.len() - i,
{
    if i >= s.len() || s[i] == SLASH {
        i
    } else {
        slash_at(s, i + 1)
    }
}

/// What is wrong with a dependency feature, if anything: it has no slash, or is
/// not two parts, neither of them empty, on the sides of its only slash.
pub open spec fn feature_fault(family: Seq<char>, feature: Seq<char>) -> Option<FamilyFault> {
    let s = encode_utf8(feature);
    let k = slash_at(s, 0);
    if k >= s.len() {
        Some(FamilyFault::FeatureSyntax(family, feature))
    } else if k == 0 || k + 1 == s.len() || slash_at(s, k + 1) < s.len() {
        Some(FamilyFault::InvalidFeature(family, feature))
    } else {
        None
    }
}

/// What is wrong with the first wrong dependency feature.
pub open spec fn features_fault(family: Seq<char>, features: Seq<Seq<char>>) -> Option<FamilyFault>
    decreases features.len(),
{
    if features.len() == 0 {
        None
    } else {
        match features_fault(family, features.drop_last()) {
            Some(fault) => Some(fault),
            None => feature_fault(family, features.last()),
        }
    }
}

/// What is wrong with the configuration of a family, if anything.
pub open spec fn config_fault(family: Seq<char>, config: ConfigModel) -> Option<FamilyFault> {
    if config.trigger_dependency.len() == 0 || config.scope_package.len() == 0 {
        Some(FamilyFault::MissingNames(family))
    } else {
        features_fault(family, config.activate_dependency_features)
    }
}

fn find_slash(s: &[u8], i: usize) -> (r: usize)
    requires
        i <= s@.len(),
    ensures
        r == slash_at(s@, i as int),
        i <= r <= s@.len(),
{
    let mut k: usize = i;
    while k < s.len() && s[k] != SLASH
        invariant
            i <= k <= s@.len(),
            slash_at(s@, i as int) == slash_at(s@, k as int),
        decreases s@.len() - k,
    {
        k = k + 1;
    }
    k
}

fn validate_feature(name: &str, feature: &String) -> (r: Result<(), FamilyError>)
    ensures
        r is Ok <==> feature_fault(name@, feature@) is None,
        r matches Err(e) ==> e@ == feature_fault(name@, feature@)->0,
{
    let s = feature.as_str().as_bytes();
    let k: usize = find_slash(s, 0);
    if k == s.len() {
        return Err(
            FamilyError::FeatureSyntax { family: name.to_string(), feature: feature.clone() },
        );
    }
    if k == 0 || k + 1 == s.len() || find_slash(s, k + 1) < s.len() {
        return Err(
            FamilyError::InvalidFeature { family: name.to_string(), feature: feature.clone() },
        );
    }
    Ok(())
}

proof fn lemma_features_fault_extends(family: Seq<char>, features: Seq<Seq<char>>, n: int)
    requires
        0 <= n <= features.len(),
        features_fault(family, features.take(n)) is Some,
    ensures
        features_fault(family, features) == features_fault(family, features.take(n)),
    decreases features.len() - n,
{
    if n < features.len() {
        assert(features.take(n + 1).drop_last() =~= features.take(n));
        lemma_features_fault_extends(family, features, n + 1);
    } else {
        assert(features.take(n) =~= features);
    }
}

fn is_empty_text(s: &String) -> (r: bool)
    ensures
        r == (s@.len() == 0),
{
    proof {
        reveal_strlit("");
    }
    let r: bool = text_equal(s.as_str(), "");
    assert(s@.len() == 0 ==> s@ =~= ""@);
    r
}

/// Accepts a configuration that names its packages and whose features are
/// written as a dependency, a slash and a feature.
pub fn validate_config(name: &str, config: &FamilyConfig) -> (r: Result<(), FamilyError>)
    ensures
        r is Ok <==> config_fault(name@, config@) is None,
        r matches Err(e) ==> e@ == config_fault(name@, config@)->0,
{
    if is_empty_text(&config.trigger_dependency) || is_empty_text(&config.scope_package) {
        return Err(FamilyError::MissingNames { family: name.to_string() });
    }
    let ghost all = config@.activate_dependency_features;
    let mut i: usize = 0;
    while i < config.activate_dependency_features.len()
        invariant
            i <= config.activate_dependency_features@.len(),
            all == config@.activate_dependency_features,
            config@.trigger_dependency.len() > 0,
            config@.scope_package.len() > 0,
            features_fault(name@, all.take(i as int)) is None,
        decreases config.activate_dependency_features@.len() - i,
    {
        proof {
            assert(all.take(i + 1).drop_last() =~= all.take(i as int));
            assert(all.take(i + 1).last() == config.activate_dependency_features@[i as int]@);
        }
        match validate_feature(name, &config.activate_dependency_features[i]) {
            Err(e) => {
                proof {
                    lemma_features_fault_extends(name@, all, i + 1);
                }
                return Err(e);
            },
            Ok(()) => {},
        }
        i = i + 1;
    }
    assert(all.take(i as int) =~= all);
    Ok(())
}

/// A dependency of a package.
#[derive(Debug)]
pub struct Dependency {
    pub name_in_toml: String,
    pub package_name: String,
    pub optional: bool,
}

/// A dependency of a package.
#[verifier::ext_equal]
pub struct DependencyModel {
    pub name_in_toml: Seq<char>,
    pub package_name: Seq<char>,
    pub optional: bool,
}

impl View for Dependency {
    type V = DependencyModel;

    open spec fn view(&self) -> DependencyModel {
        DependencyModel {
            name_in_toml: self.name_in_toml@,
            package_name: self.package_name@,
            optional: self.optional,
        }
    }
}

/// A package selected to be built, and the features selected for it.
#[derive(Debug)]
pub struct Member {
    pub dependencies: Vec<Dependency>,
    pub feature_map: NameMap<FeatureList>,
    pub selection: FeatureSelection,
}

/// A package selected to be built, and the features selected for it.
#[verifier::ext_equal]
pub struct MemberModel {
    pub dependencies: Seq<DependencyModel>,
    pub feature_map: Seq<(Seq<char>, Seq<FeatureModel>)>,
    pub selection: SelectionModel,
}

impl View for Member {
    type V = MemberModel;

    open spec fn view(&self) -> MemberModel {
        MemberModel {
            dependencies: views(self.dependencies@),
            feature_map: self.feature_map@,
            selection: self.selection@,
        }
    }
}

/// The dependency is the trigger, and is in use.
pub open spec fn dependency_triggers(
    member: MemberModel,
    dependency: DependencyModel,
    trigger: Seq<char>,
) -> bool {
    &&& dependency.name_in_toml == trigger || dependency.package_name == trigger
    &&& !dependency.optional || dependency_enabled(
        member.feature_map,
        member.selection,
        dependency.name_in_toml,
    )
}

/// The package uses the trigger.
pub open spec fn member_triggers(member: MemberModel, trigger: Seq<char>) -> bool {
    exists|k: int|
        0 <= k < member.dependencies.len() && dependency_triggers(
            member,
            #[trigger] member.dependencies[k],
            trigger,
        )
}

/// A package to be built uses the trigger.
pub open spec fn triggered(members: Seq<MemberModel>, trigger: Seq<char>) -> bool {
    exists|k: int| 0 <= k < members.len() && member_triggers(#[trigger] members[k], trigger)
}

fn uses_trigger(member: &Member, trigger: &str) -> (r: bool)
    ensures
        r == member_triggers(member@, trigger@),
{
    let mut i: usize = 0;
    while i < member.dependencies.len()
        invariant
            i <= member.dependencies@.len(),
            forall|k: int|
                0 <= k < i ==> !dependency_triggers(
                    member@,
                    #[trigger] member@.dependencies[k],
                    trigger@,
                ),
        decreases member.dependencies@.len() - i,
    {
        let dependency = &member.dependencies[i];
        assert(member@.dependencies[i as int] == dependency@);
        if (text_equal(dependency.name_in_toml.as_str(), trigger) || text_equal(
            dependency.package_name.as_str(),
            trigger,
        )) && (!dependency.optional || optional_dependency_enabled(
            &member.feature_map,
            &member.selection,
            dependency.name_in_toml.as_str(),
        )) {
            assert(dependency_triggers(member@, member@.dependencies[i as int], trigger@));
            return true;
        }
        i = i + 1;
    }
    false
}

fn any_uses_trigger(members: &Vec<Member>, trigger: &str) -> (r: bool)
    ensures
        r == triggered(views(members@), trigger@),
{
    let mut i: usize = 0;
    while i < members.len()
        invariant
            i <= members@.len(),
            forall|k: int|
                0 <= k < i ==> !member_triggers(#[trigger] views(members@)[k], trigger@),
        decreases members@.len() - i,
    {
        if uses_trigger(&members[i], trigger) {
            assert(member_triggers(views(members@)[i as int], trigger@));
            return true;
        }
        i = i + 1;
    }
    false
}

/// The environment manifest of a family, as it was found.
#[derive(Debug)]
pub enum Manifest {
    /// There is no such file.
    Missing,
    /// The file cannot be read.
    Unreadable,
    /// The file describes no environment.
    Malformed,
    /// The file describes this environment.
    Parsed { environment: ArtifactEnvironment },
}

/// The environment manifest of a family, as it was found.
pub enum ManifestModel {
    Missing,
    Unreadable,
    Malformed,
    Parsed(FamilyEnvironment),
}

impl View for Manifest {
    type V = ManifestModel;

    open spec fn view(&self) -> ManifestModel {
        match *self {
            Manifest::Missing => ManifestModel::Missing,
            Manifest::Unreadable => ManifestModel::Unreadable,
            Manifest::Malformed => ManifestModel::Malformed,
            Manifest::Parsed { environment } => ManifestModel::Parsed(environment@),
        }
    }
}

/// A configured family with its environment manifest.
#[derive(Debug)]
pub struct ConfiguredFamily {
    pub config: FamilyConfig,
    pub manifest: Manifest,
}

/// A configured family with its environment manifest.
#[verifier::ext_equal]
pub struct ConfiguredModel {
    pub config: ConfigModel,
    pub manifest: ManifestModel,
}

impl View for ConfiguredFamily {
    type V = ConfiguredModel;

    open spec fn view(&self) -> ConfiguredModel {
        ConfiguredModel { config: self.config@, manifest: self.manifest@ }
    }
}

/// What a compilation is for.
#[derive(Debug)]
pub enum CompileKind {
    Host,
    Target { triple: String },
}

/// What a compilation is for.
pub enum KindModel {
    Host,
    Target(Seq<char>),
}

impl View for CompileKind {
    type V = KindModel;

    open spec fn view(&self) -> KindModel {
        match *self {
            CompileKind::Host => KindModel::Host,
            CompileKind::Target { triple } => KindModel::Target(triple@),
        }
    }
}

/// A build: its profile, what it is for, the host where it is known, the
/// packages selected, and the families that are switched off.
#[derive(Debug)]
pub struct BuildRequest {
    pub profile: String,
    pub kinds: Vec<CompileKind>,
    pub host: Option<String>,
    pub members: Vec<Member>,
    pub disabled: Vec<String>,
}

/// A build: its profile, what it is for, the host where it is known, the
/// packages selected, and the families that are switched off.
#[verifier::ext_equal]
pub struct RequestModel {
    pub profile: Seq<char>,
    pub kinds: Seq<KindModel>,
    pub host: Option<Seq<char>>,
    pub members: Seq<MemberModel>,
    pub disabled: Seq<Seq<char>>,
}

impl View for BuildRequest {
    type V = RequestModel;

    open spec fn view(&self) -> RequestModel {
        RequestModel {
            profile: self.profile@,
            kinds: views(self.kinds@),
            host: match self.host {
                Some(triple) => Some(triple@),
                None => None,
            },
            members: views(self.members@),
            disabled: views(self.disabled@),
        }
    }
}

/// The build is for another target than the host.
pub open spec fn is_foreign(kinds: Seq<KindModel>, host: Seq<char>) -> bool {
    exists|k: int|
        0 <= k < kinds.len() && (#[trigger] kinds[k] matches KindModel::Target(triple) && triple
            != host)
}

/// A family that is not switched off and whose profiles and target admit the
/// build: whether it is in use, or what is wrong.
pub open spec fn family_applies(build: RequestModel, name: Seq<char>, config: ConfigModel) -> Result<
    bool,
    FamilyFault,
> {
    if build.disabled.contains(name) {
        Ok(false)
    } else if config.profiles.len() > 0 && !config.profiles.contains(build.profile) {
        Ok(false)
    } else if config.host_target_only && build.host is None {
        Err(FamilyFault::HostUnknown)
    } else if config.host_target_only && is_foreign(build.kinds, build.host->0) {
        Ok(false)
    } else {
        Ok(triggered(build.members, config.trigger_dependency))
    }
}

/// What texts write to a hasher.
pub open spec fn text_entries_stream(texts: Seq<Seq<char>>) -> Seq<u8>
    decreases texts.len(),
{
    if texts.len() == 0 {
        Seq::empty()
    } else {
        text_entries_stream(texts.drop_last()) + str_stream(texts.last())
    }
}

/// What paths write to a hasher.
pub open spec fn path_entries_stream(paths: Seq<Seq<u8>>) -> Seq<u8>
    decreases paths.len(),
{
    if paths.len() == 0 {
        Seq::empty()
    } else {
        path_entries_stream(paths.drop_last()) + path_stream(paths.last())
    }
}

/// What variables write to a hasher.
pub open spec fn pair_entries_stream(pairs: Seq<(Seq<char>, Seq<char>)>) -> Seq<u8>
    decreases pairs.len(),
{
    if pairs.len() == 0 {
        Seq::empty()
    } else {
        pair_entries_stream(pairs.drop_last()) + str_stream(pairs.last().0) + str_stream(
            pairs.last().1,
        )
    }
}

/// What an environment writes to a hasher.
pub open spec fn family_environment_stream(e: FamilyEnvironment) -> Seq<u8> {
    spec_u32_to_le_bytes(e.version) + bool_stream(e.clear_inherited) + len_stream(e.path.len())
        + path_entries_stream(e.path) + len_stream(e.set.len()) + pair_entries_stream(e.set)
}

/// What a family writes to a hasher.
pub open spec fn family_stream(name: Seq<char>, config: ConfigModel, e: FamilyEnvironment) -> Seq<u8> {
    str_stream(name) + str_stream(config.trigger_dependency) + str_stream(config.scope_package)
        + len_stream(config.activate_dependency_features.len()) + text_entries_stream(
        config.activate_dependency_features,
    ) + family_environment_stream(e)
}

/// A family that is in use.
pub open spec fn family_of(name: Seq<char>, config: ConfigModel, e: FamilyEnvironment) -> FamilyModel {
    FamilyModel {
        name,
        scope_package: config.scope_package,
        environment: e,
        context_key: stable_sip(family_stream(name, config, e)),
    }
}

/// What families have come to so far: the features they activate, in the order
/// found, and the families in use.
pub struct ActivationModel {
    pub features: Seq<Seq<char>>,
    pub families: Seq<FamilyModel>,
}

/// A family with this scope package is in use.
pub open spec fn scope_taken(families: Seq<FamilyModel>, scope: Seq<char>) -> bool {
    exists|k: int| 0 <= k < families.len() && (#[trigger] families[k]).scope_package == scope
}

/// What a configured family adds.
pub open spec fn with_family(
    build: RequestModel,
    before: ActivationModel,
    name: Seq<char>,
    family: ConfiguredModel,
) -> Result<ActivationModel, FamilyFault> {
    let config = family.config;
    if config_fault(name, config) is Some {
        Err(config_fault(name, config)->0)
    } else if family.manifest is Missing {
        Err(FamilyFault::MissingManifest(name))
    } else {
        match family_applies(build, name, config) {
            Err(fault) => Err(fault),
            Ok(false) => Ok(before),
            Ok(true) => if scope_taken(before.families, config.scope_package) {
                Err(FamilyFault::DuplicateScope(config.scope_package))
            } else {
                match family.manifest {
                    ManifestModel::Parsed(e) => if e.version != 1 {
                        Err(FamilyFault::UnsupportedVersion(name, e.version))
                    } else {
                        Ok(
                            ActivationModel {
                                features: before.features + config.activate_dependency_features,
                                families: before.families.push(family_of(name, config, e)),
                            },
                        )
                    },
                    ManifestModel::Malformed => Err(FamilyFault::MalformedManifest(name)),
                    _ => Err(FamilyFault::UnreadableManifest(name)),
                }
            },
        }
    }
}

/// What the configured families come to, or what is wrong with the first that
/// something is wrong with.
pub open spec fn activated(
    build: RequestModel,
    configured: Seq<(Seq<char>, ConfiguredModel)>,
) -> Result<ActivationModel, FamilyFault>
    decreases configured.len(),
{
    if configured.len() == 0 {
        Ok(ActivationModel { features: Seq::empty(), families: Seq::empty() })
    } else {
        match activated(build, configured.drop_last()) {
            Err(fault) => Err(fault),
            Ok(before) => with_family(build, before, configured.last().0, configured.last().1),
        }
    }
}

/// The features that families activate, and the families in use.
#[derive(Debug)]
pub struct Activation {
    pub features: Vec<String>,
    pub families: Vec<ArtifactFamily>,
}

fn write_family(hasher: &mut StableHasher, name: &str, config: &FamilyConfig, e: &ArtifactEnvironment)
    ensures
        final(hasher)@ == old(hasher)@ + family_stream(name@, config@, e@),
{
    let ghost h0 = hasher@;
    hasher.write_str(name);
    hasher.write_str(config.trigger_dependency.as_str());
    hasher.write_str(config.scope_package.as_str());
    hasher.write_length_prefix(config.activate_dependency_features.len());
    let ghost h1 = hasher@;
    write_texts(hasher, &config.activate_dependency_features);
    let ghost h2 = hasher@;
    hasher.write_u32(e.version);
    hasher.write_bool(e.clear_inherited);
    hasher.write_length_prefix(e.path.len());
    write_paths(hasher, &e.path);
    hasher.write_length_prefix(e.set.len());
    write_pairs(hasher, &e.set);
    proof {
        assert(h1 =~= h0 + (str_stream(name@) + str_stream(config@.trigger_dependency) + str_stream(
            config@.scope_package,
        ) + len_stream(config@.activate_dependency_features.len())));
        assert(hasher@ =~= h2 + family_environment_stream(e@));
        assert(hasher@ =~= h0 + family_stream(name@, config@, e@));
    }
}

fn write_texts(hasher: &mut StableHasher, texts: &Vec<String>)
    ensures
        final(hasher)@ == old(hasher)@ + text_entries_stream(views(texts@)),
{
    let ghost all = views(texts@);
    let ghost head = hasher@;
    let mut i: usize = 0;
    assert(hasher@ =~= head + text_entries_stream(all.take(0)));
    while i < texts.len()
        invariant
            i <= texts@.len(),
            all == views(texts@),
            hasher@ == head + text_entries_stream(all.take(i as int)),
        decreases texts@.len() - i,
    {
        proof {
            assert(all.take(i + 1).drop_last() =~= all.take(i as int));
            assert(all.take(i + 1).last() == texts@[i as int]@);
        }
        hasher.write_str(texts[i].as_str());
        assert(hasher@ =~= head + text_entries_stream(all.take(i + 1)));
        i = i + 1;
    }
    assert(all.take(i as int) =~= all);
}

fn write_paths(hasher: &mut StableHasher, paths: &Vec<PathBuf>)
    ensures
        final(hasher)@ == old(hasher)@ + path_entries_stream(views(paths@)),
{
    let ghost all = views(paths@);
    let ghost head = hasher@;
    let mut i: usize = 0;
    assert(hasher@ =~= head + path_entries_stream(all.take(0)));
    while i < paths.len()
        invariant
            i <= paths@.len(),
            all == views(paths@),
            hasher@ == head + path_entries_stream(all.take(i as int)),
        decreases paths@.len() - i,
    {
        proof {
            assert(all.take(i + 1).drop_last() =~= all.take(i as int));
            assert(all.take(i + 1).last() == paths@[i as int]@);
        }
        hasher.write_path(&paths[i]);
        assert(hasher@ =~= head + path_entries_stream(all.take(i + 1)));
        i = i + 1;
    }
    assert(all.take(i as int) =~= all);
}

fn write_pairs(hasher: &mut StableHasher, pairs: &NameMap<String>)
    ensures
        final(hasher)@ == old(hasher)@ + pair_entries_stream(pairs@),
{
    let ghost all = pairs@;
    let ghost head = hasher@;
    let mut i: usize = 0;
    assert(hasher@ =~= head + pair_entries_stream(all.take(0)));
    while i < pairs.len()
        invariant
            i <= pairs@.len(),
            all == pairs@,
            hasher@ == head + pair_entries_stream(all.take(i as int)),
        decreases pairs@.len() - i,
    {
        proof {
            assert(all.take(i + 1).drop_last() =~= all.take(i as int));
            assert(all.take(i + 1).last() == pairs@[i as int]);
        }
        hasher.write_str(pairs.name_at(i).as_str());
        hasher.write_str(pairs.value_at(i).as_str());
        assert(hasher@ =~= head + pair_entries_stream(all.take(i + 1)));
        i = i + 1;
    }
    assert(all.take(i as int) =~= all);
}

proof fn lemma_text_in(list: Seq<String>, name: Seq<char>)
    ensures
        (exists|i: int| 0 <= i < list.len() && (#[trigger] list[i])@ == name) <==> views(
            list,
        ).contains(name),
{
    let names = views(list);
    if names.contains(name) {
        let k = choose|k: int| 0 <= k < names.len() && names[k] == name;
        assert(list[k]@ == name);
    }
    if exists|i: int| 0 <= i < list.len() && (#[trigger] list[i])@ == name {
        let i = choose|i: int| 0 <= i < list.len() && (#[trigger] list[i])@ == name;
        assert(names[i] == name);
    }
}

fn has_foreign(kinds: &Vec<CompileKind>, host: &str) -> (r: bool)
    ensures
        r == is_foreign(views(kinds@), host@),
{
    let ghost all = views(kinds@);
    let mut i: usize = 0;
    while i < kinds.len()
        invariant
            i <= kinds@.len(),
            all == views(kinds@),
            forall|k: int|
                0 <= k < i ==> !(#[trigger] all[k] matches KindModel::Target(triple) && triple
                    != host@),
        decreases kinds@.len() - i,
    {
        assert(all[i as int] == kinds@[i as int]@);
        match &kinds[i] {
            CompileKind::Host => {},
            CompileKind::Target { triple } => {
                if !text_equal(triple.as_str(), host) {
                    return true;
                }
            },
        }
        i = i + 1;
    }
    false
}

fn applies(build: &BuildRequest, name: &str, config: &FamilyConfig) -> (r: Result<
    bool,
    FamilyError,
>)
    ensures
        match r {
            Ok(b) => family_applies(build@, name@, config@) == Ok::<bool, FamilyFault>(b),
            Err(e) => family_applies(build@, name@, config@) == Err::<bool, FamilyFault>(e@),
        },
{
    proof {
        lemma_text_in(build.disabled@, name@);
        lemma_text_in(config.profiles@, build.profile@);
    }
    if text_in(&build.disabled, name) {
        return Ok(false);
    }
    if config.profiles.len() > 0 && !text_in(&config.profiles, build.profile.as_str()) {
        return Ok(false);
    }
    if config.host_target_only {
        match &build.host {
            None => {
                return Err(FamilyError::HostUnknown);
            },
            Some(host) => {
                if has_foreign(&build.kinds, host.as_str()) {
                    return Ok(false);
                }
            },
        }
    }
    Ok(any_uses_trigger(&build.members, config.trigger_dependency.as_str()))
}

fn scope_is_taken(families: &Vec<ArtifactFamily>, scope: &str) -> (r: bool)
    ensures
        r == scope_taken(views(families@), scope@),
{
    let ghost all = views(families@);
    let mut i: usize = 0;
    while i < families.len()
        invariant
            i <= families@.len(),
            all == views(families@),
            forall|k: int| 0 <= k < i ==> (#[trigger] all[k]).scope_package != scope@,
        decreases families@.len() - i,
    {
        assert(all[i as int] == families@[i as int]@);
        if text_equal(families[i].scope_package.as_str(), scope) {
            return true;
        }
        i = i + 1;
    }
    false
}

/// Takes in a configured family.
fn take_family(
    build: &BuildRequest,
    name: &String,
    family: &ConfiguredFamily,
    so_far: &mut Activation,
) -> (r: Result<(), FamilyError>)
    ensures
        ({
            let before = ActivationModel {
                features: views(old(so_far).features@),
                families: views(old(so_far).families@),
            };
            match r {
                Ok(()) => with_family(build@, before, name@, family@) == Ok::<
                    ActivationModel,
                    FamilyFault,
                >(
                    ActivationModel {
                        features: views(final(so_far).features@),
                        families: views(final(so_far).families@),
                    },
                ),
                Err(e) => with_family(build@, before, name@, family@) == Err::<
                    ActivationModel,
                    FamilyFault,
                >(e@),
            }
        }),
{
    let config = &family.config;
    match validate_config(name.as_str(), config) {
        Err(e) => {
            return Err(e);
        },
        Ok(()) => {},
    }
    if let Manifest::Missing = &family.manifest {
        return Err(FamilyError::MissingManifest { family: name.clone() });
    }
    match applies(build, name.as_str(), config) {
        Err(e) => {
            return Err(e);
        },
        Ok(in_use) => {
            if !in_use {
                return Ok(());
            }
        },
    }
    if scope_is_taken(&so_far.families, config.scope_package.as_str()) {
        return Err(FamilyError::DuplicateScope { scope_package: config.scope_package.clone() });
    }
    match &family.manifest {
        Manifest::Parsed { environment } => {
            if environment.version != 1 {
                return Err(
                    FamilyError::UnsupportedVersion {
                        family: name.clone(),
                        version: environment.version,
                    },
                );
            }
            let mut hasher = StableHasher::new();
            write_family(&mut hasher, name.as_str(), config, environment);
            assert(hasher@ =~= family_stream(name@, config@, environment@));
            let ghost features0 = so_far.features@;
            let ghost families0 = so_far.families@;
            let mut more = copy_texts(&config.activate_dependency_features);
            let ghost tail = more@;
            so_far.features.append(&mut more);
            so_far.families.push(
                ArtifactFamily {
                    name: name.clone(),
                    scope_package: config.scope_package.clone(),
                    environment: environment.clone(),
                    context_key: hasher.finish(),
                },
            );
            proof {
                assert(views(so_far.features@) =~= views(features0) + views(tail));
                assert(views(so_far.families@) =~= views(families0).push(
                    family_of(name@, config@, environment@),
                ));
            }
            Ok(())
        },
        Manifest::Malformed => Err(FamilyError::MalformedManifest { family: name.clone() }),
        _ => Err(FamilyError::UnreadableManifest { family: name.clone() }),
    }
}

proof fn lemma_activated_fails(
    build: RequestModel,
    configured: Seq<(Seq<char>, ConfiguredModel)>,
    n: int,
)
    requires
        0 <= n <= configured.len(),
        activated(build, configured.take(n)) is Err,
    ensures
        activated(build, configured) == activated(build, configured.take(n)),
    decreases configured.len() - n,
{
    if n < configured.len() {
        assert(configured.take(n + 1).drop_last() =~= configured.take(n));
        lemma_activated_fails(build, configured, n + 1);
    } else {
        assert(configured.take(n) =~= configured);
    }
}

/// The families come strictly in the order of their names.
pub open spec fn families_ascend(families: Seq<FamilyModel>) -> bool {
    forall|i: int, j: int|
        0 <= i < j < families.len() ==> name_order()(
            (#[trigger] families[i]).name,
            (#[trigger] families[j]).name,
        ) && !name_order()(families[j].name, families[i].name)
}

/// Finds the families that a build uses, in the order of their names, and the
/// features they activate, each once and in order.
pub fn activate(build: &BuildRequest, configured: &NameMap<ConfiguredFamily>) -> (r: Result<
    Activation,
    FamilyError,
>)
    ensures
        match r {
            Ok(activation) => activated(build@, configured@) matches Ok(found) && {
                &&& views(activation.families@) == found.families
                &&& families_ascend(found.families)
                &&& views(activation.features@) == sorted_set(
                    found.features,
                    |a: Seq<char>, b: Seq<char>| text_le(a, b),
                )
                &&& forall|feature: Seq<char>| #[trigger]
                    views(activation.features@).contains(feature) <==> found.features.contains(
                        feature,
                    )
            },
            Err(e) => activated(build@, configured@) == Err::<ActivationModel, FamilyFault>(e@),
        },
{
    let ghost all = configured@;
    let mut so_far = Activation { features: Vec::new(), families: Vec::new() };
    let mut i: usize = 0;
    proof {
        assert(views(so_far.features@) =~= Seq::<Seq<char>>::empty());
        assert(views(so_far.families@) =~= Seq::<FamilyModel>::empty());
    }
    while i < configured.len()
        invariant
            i <= configured@.len(),
            all == configured@,
            activated(build@, all.take(i as int)) == Ok::<ActivationModel, FamilyFault>(
                ActivationModel {
                    features: views(so_far.features@),
                    families: views(so_far.families@),
                },
            ),
        decreases configured@.len() - i,
    {
        proof {
            assert(all.take(i + 1).drop_last() =~= all.take(i as int));
            assert(all.take(i + 1).last() == configured@[i as int]);
        }
        match take_family(build, configured.name_at(i), configured.value_at(i), &mut so_far) {
            Err(e) => {
                proof {
                    lemma_activated_fails(build@, all, i + 1);
                }
                return Err(e);
            },
            Ok(()) => {},
        }
        i = i + 1;
    }
    proof {
        assert(all.take(i as int) =~= all);
        assert(rank::<String>() =~= (|a: Seq<char>, b: Seq<char>| text_le(a, b)));
        families_keep_the_order_of_names(build@, all);
        text_le_is_total_order();
        sorted_set_members(
            views(so_far.features@),
            |a: Seq<char>, b: Seq<char>| text_le(a, b),
        );
    }
    Ok(Activation { features: sort_unique(so_far.features), families: so_far.families })
}

/// Families in use have different scope packages, the version that is supported
/// and an environment that their manifest describes; each is one of those
/// configured, and was not switched off.
pub proof fn families_in_use_are_admitted(
    build: RequestModel,
    configured: Seq<(Seq<char>, ConfiguredModel)>,
)
    requires
        activated(build, configured) is Ok,
    ensures
        ({
            let families = (activated(build, configured)->Ok_0).families;
            &&& forall|i: int, j: int|
                0 <= i < j < families.len() ==> (#[trigger] families[i]).scope_package != (
                #[trigger] families[j]).scope_package
            &&& forall|i: int|
                0 <= i < families.len() ==> {
                    &&& (#[trigger] families[i]).environment.version == 1
                    &&& !build.disabled.contains(families[i].name)
                    &&& exists|k: int|
                        0 <= k < configured.len() && is_family_of(
                            #[trigger] configured[k],
                            families[i],
                        ) && triggered(build.members, configured[k].1.config.trigger_dependency)
                }
        }),
    decreases configured.len(),
{
    if configured.len() > 0 {
        let init = configured.drop_last();
        families_in_use_are_admitted(build, init);
        let before = (activated(build, init)->Ok_0).families;
        let after = (activated(build, configured)->Ok_0).families;
        let last = configured.last();
        assert(configured[configured.len() - 1] == last);
        if after != before {
            let added = after.last();
            assert(after == before.push(added));
            assert(is_family_of(last, added));
            assert forall|i: int, j: int| 0 <= i < j < after.len() implies (
            #[trigger] after[i]).scope_package != (#[trigger] after[j]).scope_package by {
                assert(after[i] == before[i]);
                if j < before.len() {
                    assert(after[j] == before[j]);
                }
            }
        }
        assert forall|i: int| 0 <= i < after.len() implies {
            &&& (#[trigger] after[i]).environment.version == 1
            &&& !build.disabled.contains(after[i].name)
            &&& exists|k: int|
                0 <= k < configured.len() && is_family_of(#[trigger] configured[k], after[i])
                    && triggered(build.members, configured[k].1.config.trigger_dependency)
        } by {
            if i < before.len() {
                assert(after[i] == before[i]);
                let k = choose|k: int|
                    0 <= k < init.len() && is_family_of(#[trigger] init[k], before[i]) && triggered(
                        build.members,
                        init[k].1.config.trigger_dependency,
                    );
                assert(configured[k] == init[k]);
            }
        }
    }
}

/// The family in use is this configured one.
pub open spec fn is_family_of(configured: (Seq<char>, ConfiguredModel), family: FamilyModel) -> bool {
    configured.1.manifest matches ManifestModel::Parsed(e) && family == family_of(
        configured.0,
        configured.1.config,
        e,
    )
}

/// Families in use come in the order of their names, so that no name is in use
/// twice.
pub proof fn families_keep_the_order_of_names(
    build: RequestModel,
    configured: Seq<(Seq<char>, ConfiguredModel)>,
)
    requires
        names_ascend(configured),
        activated(build, configured) is Ok,
    ensures
        families_ascend((activated(build, configured)->Ok_0).families),
    decreases configured.len(),
{
    if configured.len() > 0 {
        let le = name_order();
        let init = configured.drop_last();
        let n = init.len() as int;
        assert forall|i: int, j: int| 0 <= i < j < init.len() implies #[trigger] le(
            init[i].0,
            init[j].0,
        ) && !le(init[j].0, init[i].0) by {
            assert(le(configured[i].0, configured[j].0));
        }
        families_keep_the_order_of_names(build, init);
        families_in_use_are_admitted(build, init);
        let before = (activated(build, init)->Ok_0).families;
        let after = (activated(build, configured)->Ok_0).families;
        assert(configured.last() == configured[n]);
        assert forall|i: int, j: int| 0 <= i < j < after.len() implies le(
            (#[trigger] after[i]).name,
            (#[trigger] after[j]).name,
        ) && !le(after[j].name, after[i].name) by {
            assert(after[i] == before[i]);
            if j < before.len() {
                assert(after[j] == before[j]);
            } else {
                let k = choose|k: int|
                    0 <= k < init.len() && is_family_of(#[trigger] init[k], before[i]);
                assert(init[k] == configured[k]);
                assert(le(configured[k].0, configured[n].0) && !le(
                    configured[n].0,
                    configured[k].0,
                ));
            }
        }
    }
}

/// What a build uses depends on which families are configured, not on the order
/// in which they are declared.
pub proof fn activation_ignores_declaration_order(
    build: RequestModel,
    a: Seq<(Seq<char>, ConfiguredModel)>,
    b: Seq<(Seq<char>, ConfiguredModel)>,
)
    requires
        forall|n: Seq<char>| #[trigger]
            last_value(a, n, name_order()) == last_value(b, n, name_order()),
    ensures
        activated(build, mapped(a)) == activated(build, mapped(b)),
{
    mapped_ignores_order(a, b);
}

/// The key of a family depends on which variables its environment sets, not on
/// the order in which they are declared.
pub proof fn context_key_ignores_declaration_order(
    name: Seq<char>,
    config: ConfigModel,
    e: FamilyEnvironment,
    a: Seq<(Seq<char>, Seq<char>)>,
    b: Seq<(Seq<char>, Seq<char>)>,
)
    requires
        forall|n: Seq<char>| #[trigger]
            last_value(a, n, name_order()) == last_value(b, n, name_order()),
    ensures
        family_of(name, config, FamilyEnvironment { set: mapped(a), ..e }).context_key == family_of(
            name,
            config,
            FamilyEnvironment { set: mapped(b), ..e },
        ).context_key,
{
    mapped_ignores_order(a, b);
}

/// Search paths one behind the other.
pub open spec fn joined(paths: Seq<Seq<u8>>) -> Seq<u8>
    decreases paths.len(),
{
    if paths.len() == 0 {
        Seq::empty()
    } else if paths.len() == 1 {
        paths[0]
    } else {
        joined(paths.drop_last()).push(COLON) + paths.last()
    }
}

/// A search path that cannot be joined because it holds the separator.
#[derive(Debug, PartialEq, Eq)]
pub struct JoinError {
    pub path: PathBuf,
}

/// The first path that holds the separator.
pub open spec fn first_unjoinable(paths: Seq<Seq<u8>>) -> Option<Seq<u8>>
    decreases paths.len(),
{
    if paths.len() == 0 {
        None
    } else {
        match first_unjoinable(paths.drop_last()) {
            Some(p) => Some(p),
            None => if paths.last().contains(COLON) {
                Some(paths.last())
            } else {
                None
            },
        }
    }
}

fn holds_colon(bytes: &[u8]) -> (r: bool)
    ensures
        r == bytes@.contains(COLON),
{
    let mut i: usize = 0;
    while i < bytes.len()
        invariant
            i <= bytes@.len(),
            forall|k: int| 0 <= k < i ==> bytes@[k] != COLON,
        decreases bytes@.len() - i,
    {
        if bytes[i] == COLON {
            assert(bytes@[i as int] == COLON);
            return true;
        }
        i = i + 1;
    }
    false
}

proof fn lemma_unjoinable_extends(paths: Seq<Seq<u8>>, n: int)
    requires
        0 <= n <= paths.len(),
        first_unjoinable(paths.take(n)) is Some,
    ensures
        first_unjoinable(paths) == first_unjoinable(paths.take(n)),
    decreases paths.len() - n,
{
    if n < paths.len() {
        assert(paths.take(n + 1).drop_last() =~= paths.take(n));
        lemma_unjoinable_extends(paths, n + 1);
    } else {
        assert(paths.take(n) =~= paths);
    }
}

/// Joins search paths.
pub fn join_paths(paths: &Vec<PathBuf>) -> (r: Result<Vec<u8>, JoinError>)
    ensures
        r is Ok <==> first_unjoinable(views(paths@)) is None,
        r matches Ok(all) ==> all@ == joined(views(paths@)),
        r matches Err(e) ==> e.path@ == first_unjoinable(views(paths@))->0,
{
    let ghost all = views(paths@);
    let mut r: Vec<u8> = Vec::new();
    let mut i: usize = 0;
    assert(r@ =~= joined(all.take(0)));
    while i < paths.len()
        invariant
            i <= paths@.len(),
            all == views(paths@),
            first_unjoinable(all.take(i as int)) is None,
            r@ == joined(all.take(i as int)),
        decreases paths@.len() - i,
    {
        proof {
            assert(all.take(i + 1).drop_last() =~= all.take(i as int));
            assert(all.take(i + 1).last() == paths@[i as int]@);
        }
        if holds_colon(paths[i].as_bytes()) {
            proof {
                lemma_unjoinable_extends(all, i + 1);
            }
            return Err(JoinError { path: paths[i].clone() });
        }
        if i > 0 {
            r.push(COLON);
        }
        let ghost before = r@;
        append_bytes(&mut r, paths[i].as_bytes());
        proof {
            if i == 0 {
                assert(all.take(1)[0] == paths@[0]@);
                assert(r@ =~= joined(all.take(1)));
            } else {
                assert(r@ =~= joined(all.take(i + 1)));
            }
        }
        i = i + 1;
    }
    assert(all.take(i as int) =~= all);
    Ok(r)
}

/// The variables that a cleared environment keeps from the process.
pub open spec fn kept_names() -> Seq<Seq<char>> {
    seq!["HOME"@, "SCCACHE_DIR"@, "TERM"@, "TMPDIR"@]
}

/// Variables set one after the other.
pub open spec fn with_values(
    vars: Seq<(Seq<char>, Seq<u8>)>,
    edits: Seq<(Seq<char>, Seq<u8>)>,
) -> Seq<(Seq<char>, Seq<u8>)>
    decreases edits.len(),
{
    if edits.len() == 0 {
        vars
    } else {
        with_value(with_values(vars, edits.drop_last()), edits.last().0, edits.last().1)
    }
}

/// Those of the names that the process has, with their values.
pub open spec fn kept_vars(process: Seq<(Seq<u8>, Seq<u8>)>, names: Seq<Seq<char>>) -> Seq<
    (Seq<char>, Seq<u8>),
>
    decreases names.len(),
{
    if names.len() == 0 {
        Seq::empty()
    } else {
        let before = kept_vars(process, names.drop_last());
        match process_value(process, encode_utf8(names.last())) {
            Some(value) => before.push((names.last(), value)),
            None => before,
        }
    }
}

/// The variables that an environment sets itself, under the bytes of their
/// texts.
pub open spec fn own_vars(e: FamilyEnvironment) -> Seq<(Seq<char>, Seq<u8>)> {
    Seq::new(e.set.len(), |i: int| (e.set[i].0, encode_utf8(e.set[i].1)))
}

/// All variables that a family sets, in order: what is kept of a cleared
/// environment, the search path, and its own.
pub open spec fn edits_of(e: FamilyEnvironment, process: Seq<(Seq<u8>, Seq<u8>)>) -> Seq<
    (Seq<char>, Seq<u8>),
> {
    (if e.clear_inherited {
        kept_vars(process, kept_names())
    } else {
        Seq::empty()
    }) + (if e.path.len() > 0 {
        seq![("PATH"@, joined(e.path))]
    } else {
        Seq::empty()
    }) + own_vars(e)
}

/// The changes to a command's environment: whether it is cleared, and the
/// variables set after that, in order.
#[derive(Debug)]
pub struct EnvironmentEdits {
    pub clear: bool,
    pub set: Vec<(String, Vec<u8>)>,
}

fn keep_from_process(set: &mut Vec<(String, Vec<u8>)>, process: &Vec<EnvVar>, name: &str)
    ensures
        views(final(set)@) == match process_value(views(process@), encode_utf8(name@)) {
            Some(value) => views(old(set)@).push((name@, value)),
            None => views(old(set)@),
        },
{
    let ghost before = set@;
    match process_lookup(process, name.as_bytes()) {
        Some(value) => {
            set.push((name.to_string(), value));
            assert(views(set@) =~= views(before).push((name@, value@)));
        },
        None => {},
    }
}

/// The changes that a family makes to the environment of a command.
pub fn apply_environment(family: &ArtifactFamily, process: &Vec<EnvVar>) -> (r: Result<
    EnvironmentEdits,
    JoinError,
>)
    ensures
        r is Ok <==> first_unjoinable(family@.environment.path) is None,
        r matches Err(e) ==> e.path@ == first_unjoinable(family@.environment.path)->0,
        r matches Ok(edits) ==> {
            &&& edits.clear == family@.environment.clear_inherited
            &&& views(edits.set@) == edits_of(family@.environment, views(process@))
        },
{
    let e = &family.environment;
    let mut set: Vec<(String, Vec<u8>)> = Vec::new();
    assert(views(set@) =~= Seq::<(Seq<char>, Seq<u8>)>::empty());
    if e.clear_inherited {
        keep_from_process(&mut set, process, "HOME");
        keep_from_process(&mut set, process, "SCCACHE_DIR");
        keep_from_process(&mut set, process, "TERM");
        keep_from_process(&mut set, process, "TMPDIR");
        proof {
            lemma_kept_names(views(process@));
        }
    }
    let ghost kept = views(set@);
    if e.path.len() > 0 {
        match join_paths(&e.path) {
            Err(error) => {
                return Err(error);
            },
            Ok(path) => {
                let ghost before = set@;
                set.push(("PATH".to_string(), path));
                assert(views(set@) =~= views(before).push(("PATH"@, joined(views(e.path@)))));
            },
        }
    } else {
        assert(first_unjoinable(family@.environment.path) is None);
    }
    let ghost head = views(set@);
    let ghost own = own_vars(e@);
    let mut i: usize = 0;
    assert(head =~= head + own.take(0));
    while i < e.set.len()
        invariant
            i <= e.set@.len(),
            own == own_vars(e@),
            views(set@) == head + own.take(i as int),
        decreases e.set@.len() - i,
    {
        let ghost before = set@;
        set.push((e.set.name_at(i).clone(), copy_bytes(e.set.value_at(i).as_str().as_bytes())));
        proof {
            assert(own[i as int] == (e.set@[i as int].0, encode_utf8(e.set@[i as int].1)));
            assert(views(set@) =~= views(before).push(own[i as int]));
            assert(views(set@) =~= head + own.take(i + 1));
        }
        i = i + 1;
    }
    proof {
        assert(own.take(i as int) =~= own);
        assert(views(set@) =~= edits_of(e@, views(process@)));
    }
    Ok(EnvironmentEdits { clear: e.clear_inherited, set })
}

proof fn lemma_kept_names(process: Seq<(Seq<u8>, Seq<u8>)>)
    ensures
        ({
            let keep = |vars: Seq<(Seq<char>, Seq<u8>)>, name: Seq<char>|
                match process_value(process, encode_utf8(name)) {
                    Some(value) => vars.push((name, value)),
                    None => vars,
                };
            kept_vars(process, kept_names()) == keep(
                keep(keep(keep(Seq::empty(), "HOME"@), "SCCACHE_DIR"@), "TERM"@),
                "TMPDIR"@,
            )
        }),
{
    let names = kept_names();
    reveal_with_fuel(kept_vars, 5);
    assert(names.drop_last() =~= seq!["HOME"@, "SCCACHE_DIR"@, "TERM"@]);
    assert(names.drop_last().drop_last() =~= seq!["HOME"@, "SCCACHE_DIR"@]);
    assert(names.drop_last().drop_last().drop_last() =~= seq!["HOME"@]);
    assert(names.drop_last().drop_last().drop_last().drop_last() =~= Seq::<Seq<char>>::empty());
}

/// The environment that inputs of a family's units are observed in: the
/// configured variables with the family's changes, and whether the rest is
/// inherited from the process.
pub fn input_environment(family: &ArtifactFamily, configured: &EnvConfig, process: &Vec<EnvVar>) -> (r:
    Result<(EnvConfig, bool), JoinError>)
    ensures
        r is Ok <==> first_unjoinable(family@.environment.path) is None,
        r matches Err(e) ==> e.path@ == first_unjoinable(family@.environment.path)->0,
        r matches Ok((values, inherit)) ==> {
            &&& inherit == !family@.environment.clear_inherited
            &&& values@ == with_values(
                if family@.environment.clear_inherited {
                    Seq::empty()
                } else {
                    configured@
                },
                edits_of(family@.environment, views(process@)),
            )
        },
{
    match apply_environment(family, process) {
        Err(e) => Err(e),
        Ok(edits) => {
            let mut values = if edits.clear {
                EnvConfig::new()
            } else {
                configured.clone()
            };
            let ghost base = values@;
            let ghost all = views(edits.set@);
            let mut i: usize = 0;
            assert(all.take(0) =~= Seq::<(Seq<char>, Seq<u8>)>::empty());
            while i < edits.set.len()
                invariant
                    i <= edits.set@.len(),
                    all == views(edits.set@),
                    values@ == with_values(base, all.take(i as int)),
                decreases edits.set@.len() - i,
            {
                proof {
                    assert(all.take(i + 1).drop_last() =~= all.take(i as int));
                    assert(all.take(i + 1).last() == edits.set@[i as int]@);
                }
                values.set(edits.set[i].0.as_str(), copy_bytes(edits.set[i].1.as_slice()));
                i = i + 1;
            }
            assert(all.take(i as int) =~= all);
            Ok((values, !edits.clear))
        },
    }
}

/// The value that changes give a variable, the last one counting.
pub open spec fn edited_value(edits: Seq<(Seq<char>, Seq<u8>)>, name: Seq<char>) -> Option<Seq<u8>>
    decreases edits.len(),
{
    if edits.len() == 0 {
        None
    } else if edits.last().0 == name {
        Some(edits.last().1)
    } else {
        edited_value(edits.drop_last(), name)
    }
}

/// What a command sees of a variable: what it is set to, or else what the
/// process has, unless the environment was cleared.
pub open spec fn command_value(
    clear: bool,
    edits: Seq<(Seq<char>, Seq<u8>)>,
    process: Seq<(Seq<u8>, Seq<u8>)>,
    name: Seq<char>,
) -> Option<Seq<u8>> {
    match edited_value(edits, name) {
        Some(value) => Some(value),
        None => if clear {
            None
        } else {
            process_value(process, encode_utf8(name))
        },
    }
}

pub(crate) proof fn lemma_with_values(
    vars: Seq<(Seq<char>, Seq<u8>)>,
    edits: Seq<(Seq<char>, Seq<u8>)>,
    name: Seq<char>,
)
    requires
        distinct_names(vars),
    ensures
        distinct_names(with_values(vars, edits)),
        config_value(with_values(vars, edits), name) == match edited_value(edits, name) {
            Some(value) => Some(value),
            None => config_value(vars, name),
        },
    decreases edits.len(),
{
    if edits.len() > 0 {
        let init = edits.drop_last();
        lemma_with_values(vars, init, name);
        with_value_sets_one(with_values(vars, init), edits.last().0, edits.last().1, name);
    }
}

/// Inputs are observed in the environment that commands run in: every variable
/// that the family sets has the same value in both; where the environment is
/// cleared, so has every other; and where it is not, every other that is not
/// configured.
pub proof fn inputs_are_observed_as_commands_see_them(
    e: FamilyEnvironment,
    configured: Seq<(Seq<char>, Seq<u8>)>,
    process: Seq<(Seq<u8>, Seq<u8>)>,
    name: Seq<char>,
)
    requires
        distinct_names(configured),
        e.clear_inherited || edited_value(edits_of(e, process), name) is Some || config_value(
            configured,
            name,
        ) is None,
    ensures
        ({
            let edits = edits_of(e, process);
            let base = if e.clear_inherited {
                Seq::empty()
            } else {
                configured
            };
            variable_value_of(
                EnvironmentModel {
                    config: with_values(base, edits),
                    process,
                    inherit: !e.clear_inherited,
                },
                name,
            ) == command_value(e.clear_inherited, edits, process, name)
        }),
{
    let base = if e.clear_inherited {
        Seq::empty()
    } else {
        configured
    };
    lemma_with_values(base, edits_of(e, process), name);
}

} // verus!
