//! Build-script output branches selected by their observed environment.

use vstd::bytes::spec_u64_to_le_bytes;
use vstd::prelude::*;
use vstd::utf8::{decode_utf8, encode_utf8, valid_utf8};

use crate::environment::{variable_value_of, EnvironmentModel, InputEnvironment};
use crate::framing::{len_stream_is_prefix_free, str_stream_is_prefix_free};
use crate::hasher::{len_stream, stable_sip, str_stream, StableHasher};
use crate::order::{
    rank, sort_ranked, sort_unique, sorted_set, sorted_set_ignores_order, stable_sort, views,
    Ranked,
};
use crate::path::{file_name, join, path_le, stem_of_name};
use crate::path_buf::{append_bytes, PathBuf};
use crate::text::{
    copy_texts, key_digits, key_digits_are_digits, key_digits_len, key_text_of, optional_text,
    parse_key, parse_key_undoes_key_digits, read_key, text_equal, text_le, text_le_is_total_order,
    utf8_text, write_key,
};
use crate::variants::UnitHash;
use crate::walk::{is_json, json_name_is_json};

verus! {

/// The text of a value, where it is text.
pub open spec fn as_text(value: Option<Seq<u8>>) -> Option<Seq<char>> {
    match value {
        Some(bytes) if valid_utf8(bytes) => Some(decode_utf8(bytes)),
        _ => None,
    }
}

/// Names with the texts of their values.
pub open spec fn text_values(e: EnvironmentModel, names: Seq<Seq<char>>) -> Seq<
    (Seq<char>, Option<Seq<char>>),
> {
    Seq::new(names.len(), |i: int| (names[i], as_text(variable_value_of(e, names[i]))))
}

/// A variable as it is recorded: its name, and its text where it has one.
#[derive(Debug)]
pub struct Variable {
    pub name: String,
    pub value: Option<String>,
}

impl View for Variable {
    type V = (Seq<char>, Option<Seq<char>>);

    open spec fn view(&self) -> (Seq<char>, Option<Seq<char>>) {
        (self.name@, optional_text(self.value))
    }
}

fn copy_optional_text(t: &Option<String>) -> (r: Option<String>)
    ensures
        optional_text(r) == optional_text(*t),
{
    match t {
        None => None,
        Some(text) => Some(text.clone()),
    }
}

impl Clone for Variable {
    fn clone(&self) -> (r: Self)
        ensures
            r@ == self@,
    {
        Variable { name: self.name.clone(), value: copy_optional_text(&self.value) }
    }
}

impl vstd::std_specs::cmp::PartialEqSpecImpl for Variable {
    open spec fn obeys_eq_spec() -> bool {
        true
    }

    open spec fn eq_spec(&self, other: &Variable) -> bool {
        self@ == other@
    }
}

impl PartialEq for Variable {
    fn eq(&self, other: &Variable) -> (r: bool) {
        if !text_equal(self.name.as_str(), other.name.as_str()) {
            return false;
        }
        match (&self.value, &other.value) {
            (None, None) => true,
            (Some(a), Some(b)) => text_equal(a.as_str(), b.as_str()),
            _ => false,
        }
    }
}

impl Eq for Variable {

}

/// What a branch was built with.
#[derive(Debug)]
pub struct VariantRecord {
    pub variables: Vec<Variable>,
}

impl View for VariantRecord {
    type V = Seq<(Seq<char>, Option<Seq<char>>)>;

    open spec fn view(&self) -> Seq<(Seq<char>, Option<Seq<char>>)> {
        views(self.variables@)
    }
}

fn same_variables(a: &Vec<Variable>, b: &Vec<Variable>) -> (r: bool)
    ensures
        r == (views(a@) == views(b@)),
{
    if a.len() != b.len() {
        assert(views(a@).len() != views(b@).len());
        return false;
    }
    let mut i: usize = 0;
    while i < a.len()
        invariant
            i <= a@.len(),
            a@.len() == b@.len(),
            forall|k: int| 0 <= k < i ==> views(a@)[k] == views(b@)[k],
        decreases a@.len() - i,
    {
        if !a[i].eq(&b[i]) {
            assert(views(a@)[i as int] != views(b@)[i as int]);
            return false;
        }
        i = i + 1;
    }
    assert(views(a@) =~= views(b@));
    true
}

impl vstd::std_specs::cmp::PartialEqSpecImpl for VariantRecord {
    open spec fn obeys_eq_spec() -> bool {
        true
    }

    open spec fn eq_spec(&self, other: &VariantRecord) -> bool {
        self@ == other@
    }
}

impl PartialEq for VariantRecord {
    fn eq(&self, other: &VariantRecord) -> (r: bool) {
        same_variables(&self.variables, &other.variables)
    }
}

impl Eq for VariantRecord {

}

/// The text of a variable's value, where it has one.
pub fn variable_value(name: &str, environment: &InputEnvironment) -> (r: Option<String>)
    ensures
        optional_text(r) == as_text(variable_value_of(environment@, name@)),
{
    match environment.variable_value(name) {
        Some(bytes) => utf8_text(bytes.as_slice()),
        None => None,
    }
}

/// The texts of the values of these variables.
pub fn variable_values(names: &Vec<String>, environment: &InputEnvironment) -> (r: Vec<Variable>)
    ensures
        views(r@) == text_values(environment@, views(names@)),
{
    let mut r: Vec<Variable> = Vec::new();
    let mut i: usize = 0;
    while i < names.len()
        invariant
            i <= names@.len(),
            r@.len() == i,
            forall|k: int|
                0 <= k < i ==> (#[trigger] r@[k])@ == text_values(environment@, views(names@))[k],
        decreases names@.len() - i,
    {
        let value = variable_value(names[i].as_str(), environment);
        r.push(Variable { name: names[i].clone(), value });
        i = i + 1;
    }
    assert(views(r@) =~= text_values(environment@, views(names@)));
    r
}

/// What an optional text writes to a hasher.
pub open spec fn option_stream(value: Option<Seq<char>>) -> Seq<u8> {
    match value {
        None => seq![0u8],
        Some(text) => seq![1u8] + str_stream(text),
    }
}

/// What the entries of a list of variables write to a hasher.
pub open spec fn entries_stream(vars: Seq<(Seq<char>, Option<Seq<char>>)>) -> Seq<u8>
    decreases vars.len(),
{
    if vars.len() == 0 {
        Seq::empty()
    } else {
        entries_stream(vars.drop_last()) + str_stream(vars.last().0) + option_stream(vars.last().1)
    }
}

/// What a list of variables writes to a hasher.
pub open spec fn variables_stream(vars: Seq<(Seq<char>, Option<Seq<char>>)>) -> Seq<u8> {
    len_stream(vars.len()) + entries_stream(vars)
}

/// The key of the branch that these variables select.
pub open spec fn variant_key_of(vars: Seq<(Seq<char>, Option<Seq<char>>)>) -> u64 {
    stable_sip(variables_stream(vars))
}

/// The key of the branch that these variables select.
pub fn variant_key(variables: &Vec<Variable>) -> (r: u64)
    ensures
        r == variant_key_of(views(variables@)),
{
    let ghost all = views(variables@);
    let mut hasher = StableHasher::new();
    hasher.write_length_prefix(variables.len());
    let ghost head = hasher@;
    let mut i: usize = 0;
    assert(hasher@ =~= head + entries_stream(all.take(0)));
    while i < variables.len()
        invariant
            i <= variables@.len(),
            all == views(variables@),
            hasher@ == head + entries_stream(all.take(i as int)),
        decreases variables@.len() - i,
    {
        proof {
            assert(all.take(i + 1).drop_last() =~= all.take(i as int));
            assert(all.take(i + 1).last() == variables@[i as int]@);
        }
        hasher.write_str(variables[i].name.as_str());
        match &variables[i].value {
            None => {
                hasher.write_u8(0);
            },
            Some(text) => {
                hasher.write_u8(1);
                hasher.write_str(text.as_str());
            },
        }
        assert(hasher@ =~= head + entries_stream(all.take(i + 1)));
        i = i + 1;
    }
    assert(all.take(i as int) =~= all);
    assert(hasher@ =~= variables_stream(all));
    hasher.finish()
}

/// A file in the registry of a unit, with the record read from it.
pub struct RecordEntry {
    pub path: PathBuf,
    pub record: Option<VariantRecord>,
}

/// The view of an optional record.
pub open spec fn optional_record(r: Option<VariantRecord>) -> Option<
    Seq<(Seq<char>, Option<Seq<char>>)>,
> {
    match r {
        None => None,
        Some(record) => Some(record@),
    }
}

impl View for RecordEntry {
    type V = (Seq<u8>, Option<Seq<(Seq<char>, Option<Seq<char>>)>>);

    open spec fn view(&self) -> (Seq<u8>, Option<Seq<(Seq<char>, Option<Seq<char>>)>>) {
        (self.path@, optional_record(self.record))
    }
}

impl Ranked for RecordEntry {
    open spec fn rank_le(
        a: (Seq<u8>, Option<Seq<(Seq<char>, Option<Seq<char>>)>>),
        b: (Seq<u8>, Option<Seq<(Seq<char>, Option<Seq<char>>)>>),
    ) -> bool {
        path_le(a.0, b.0)
    }

    fn at_most(&self, other: &Self) -> (r: bool) {
        self.path.at_most(&other.path)
    }
}

/// The order of registry entries.
pub open spec fn entry_order() -> spec_fn(
    (Seq<u8>, Option<Seq<(Seq<char>, Option<Seq<char>>)>>),
    (Seq<u8>, Option<Seq<(Seq<char>, Option<Seq<char>>)>>),
) -> bool {
    |
        a: (Seq<u8>, Option<Seq<(Seq<char>, Option<Seq<char>>)>>),
        b: (Seq<u8>, Option<Seq<(Seq<char>, Option<Seq<char>>)>>),
    |
        path_le(a.0, b.0)
}

/// Why the records of a unit cannot be used.
#[derive(Debug, PartialEq, Eq)]
pub enum LoadError {
    /// A record file is not named by a key.
    InvalidKey { path: PathBuf },
    /// A record file holds no record.
    Unreadable { path: PathBuf },
}

/// Why the records of a unit cannot be used.
pub enum LoadFault {
    InvalidKey(Seq<u8>),
    Unreadable(Seq<u8>),
}

impl View for LoadError {
    type V = LoadFault;

    open spec fn view(&self) -> LoadFault {
        match *self {
            LoadError::InvalidKey { path } => LoadFault::InvalidKey(path@),
            LoadError::Unreadable { path } => LoadFault::Unreadable(path@),
        }
    }
}

/// The key that a record file is named by.
pub open spec fn file_key(path: Seq<u8>) -> Option<u64> {
    match file_name(path) {
        Some(name) => parse_key(stem_of_name(name)),
        None => None,
    }
}

/// What is wrong with a record file, if anything.
pub open spec fn entry_fault(
    entry: (Seq<u8>, Option<Seq<(Seq<char>, Option<Seq<char>>)>>),
) -> Option<LoadFault> {
    if file_key(entry.0) is None {
        Some(LoadFault::InvalidKey(entry.0))
    } else if entry.1 is None {
        Some(LoadFault::Unreadable(entry.0))
    } else {
        None
    }
}

/// The records in the record files among the entries, with their keys; or what
/// is wrong with the first that is unusable.
pub open spec fn loaded(
    entries: Seq<(Seq<u8>, Option<Seq<(Seq<char>, Option<Seq<char>>)>>)>,
) -> Result<Seq<(u64, Seq<(Seq<char>, Option<Seq<char>>)>)>, LoadFault>
    decreases entries.len(),
{
    if entries.len() == 0 {
        Ok(Seq::empty())
    } else {
        match loaded(entries.drop_last()) {
            Err(fault) => Err(fault),
            Ok(before) => {
                let entry = entries.last();
                if !is_json(entry.0) {
                    Ok(before)
                } else {
                    match entry_fault(entry) {
                        Some(fault) => Err(fault),
                        None => Ok(before.push((file_key(entry.0)->0, entry.1->0))),
                    }
                }
            },
        }
    }
}

proof fn lemma_loaded_fails(
    entries: Seq<(Seq<u8>, Option<Seq<(Seq<char>, Option<Seq<char>>)>>)>,
    n: int,
)
    requires
        0 <= n <= entries.len(),
        loaded(entries.take(n)) is Err,
    ensures
        loaded(entries) == loaded(entries.take(n)),
    decreases entries.len() - n,
{
    if n < entries.len() {
        assert(entries.take(n + 1).drop_last() =~= entries.take(n));
        lemma_loaded_fails(entries, n + 1);
    } else {
        assert(entries.take(n) =~= entries);
    }
}

/// The records of a unit with their keys, in the order of their files.
pub fn load_records(entries: Vec<RecordEntry>) -> (r: Result<Vec<(u64, VariantRecord)>, LoadError>)
    ensures
        ({
            let expected = loaded(stable_sort(views(entries@), entry_order()));
            match r {
                Ok(records) => expected is Ok && views(records@) == expected->Ok_0,
                Err(error) => expected is Err && error@ == expected->Err_0,
            }
        }),
{
    assert(rank::<RecordEntry>() =~= entry_order());
    let mut rest = sort_ranked(entries);
    let ghost all = views(rest@);
    let ghost sorted = rest@;
    let ghost mut done: int = 0;
    let mut records: Vec<(u64, VariantRecord)> = Vec::new();
    assert(views(records@) =~= loaded(all.take(0))->Ok_0);
    while rest.len() > 0
        invariant
            0 <= done <= sorted.len(),
            all == views(sorted),
            all == stable_sort(views(entries@), entry_order()),
            rest@ == sorted.skip(done),
            loaded(all.take(done)) is Ok,
            views(records@) == loaded(all.take(done))->Ok_0,
        decreases rest@.len(),
    {
        let entry = rest.remove(0);
        proof {
            assert(entry == sorted[done]);
            assert(all.take(done + 1).drop_last() =~= all.take(done));
            assert(all.take(done + 1).last() == entry@);
            assert(rest@ =~= sorted.skip(done + 1));
        }
        let ghost before = records@;
        if entry.path.has_extension("json") {
            let key: Option<u64> = match entry.path.file_stem() {
                Some(stem) => read_key(stem.as_slice()),
                None => None,
            };
            match key {
                None => {
                    proof {
                        lemma_loaded_fails(all, done + 1);
                    }
                    return Err(LoadError::InvalidKey { path: entry.path });
                },
                Some(k) => match entry.record {
                    None => {
                        proof {
                            lemma_loaded_fails(all, done + 1);
                        }
                        return Err(LoadError::Unreadable { path: entry.path });
                    },
                    Some(record) => {
                        records.push((k, record));
                        assert(views(records@) =~= views(before).push((k, record@)));
                    },
                },
            }
        }
        proof {
            done = done + 1;
        }
    }
    assert(all.take(done) =~= all);
    Ok(records)
}

/// The names of the variables of a record.
pub open spec fn names_of(vars: Seq<(Seq<char>, Option<Seq<char>>)>) -> Seq<Seq<char>> {
    Seq::new(vars.len(), |i: int| vars[i].0)
}

/// The environment is as it was when the record was made.
pub open spec fn holds_now(e: EnvironmentModel, record: Seq<(Seq<char>, Option<Seq<char>>)>) -> bool {
    record == text_values(e, names_of(record))
}

/// The key of the first record that the environment agrees with.
pub open spec fn matching_key(
    e: EnvironmentModel,
    records: Seq<(u64, Seq<(Seq<char>, Option<Seq<char>>)>)>,
) -> Option<u64>
    decreases records.len(),
{
    if records.len() == 0 {
        None
    } else if holds_now(e, records[0].1) {
        Some(records[0].0)
    } else {
        matching_key(e, records.skip(1))
    }
}

/// The names of the variables of all records.
pub open spec fn all_names(
    records: Seq<(u64, Seq<(Seq<char>, Option<Seq<char>>)>)>,
) -> Seq<Seq<char>>
    decreases records.len(),
{
    if records.len() == 0 {
        Seq::empty()
    } else {
        all_names(records.drop_last()) + names_of(records.last().1)
    }
}

/// Names, each once, in order.
pub open spec fn name_set(names: Seq<Seq<char>>) -> Seq<Seq<char>> {
    sorted_set(names, |a: Seq<char>, b: Seq<char>| text_le(a, b))
}

/// The key of the branch that the environment selects.
pub open spec fn selected_key(
    e: EnvironmentModel,
    records: Seq<(u64, Seq<(Seq<char>, Option<Seq<char>>)>)>,
) -> u64 {
    match matching_key(e, records) {
        Some(key) => key,
        None => {
            let names = name_set(all_names(records));
            if names.len() == 0 {
                0
            } else {
                variant_key_of(text_values(e, names))
            }
        },
    }
}

/// The directory that the branches of a unit are kept in.
pub open spec fn registry_dir_of(build_root: Seq<u8>, package: Seq<char>, unit: UnitHash) -> Seq<u8> {
    join(
        join(join(build_root, encode_utf8(".build-env-variants"@)), encode_utf8(package)),
        encode_utf8(key_text_of(unit.value)),
    )
}

/// The directory that the branches of a unit are kept in.
pub fn registry_dir(build_root: &PathBuf, package_name: &str, stable_unit_id: UnitHash) -> (r: PathBuf)
    ensures
        r@ == registry_dir_of(build_root@, package_name@, stable_unit_id),
{
    let id = stable_unit_id.to_text();
    build_root.join_text(".build-env-variants").join_text(package_name).join_text(id.as_str())
}

/// The selected branch of a build script's output.
#[verifier::ext_equal]
pub struct BranchModel {
    pub key: u64,
    pub registry_dir: Seq<u8>,
}

/// The selected branch of a build script's output.
#[derive(Debug)]
pub struct BuildEnvVariant {
    key: u64,
    registry_dir: PathBuf,
}

impl View for BuildEnvVariant {
    type V = BranchModel;

    closed spec fn view(&self) -> BranchModel {
        BranchModel { key: self.key, registry_dir: self.registry_dir@ }
    }
}

impl Clone for BuildEnvVariant {
    fn clone(&self) -> (r: Self)
        ensures
            r@ == self@,
    {
        BuildEnvVariant { key: self.key, registry_dir: self.registry_dir.clone() }
    }
}

/// What a finished build leaves in the registry.
pub enum Recorded {
    /// The branch depends on nothing: the registry is removed.
    Removed { registry_dir: PathBuf },
    /// The record is written to this file.
    Written { path: PathBuf, record: VariantRecord },
}

/// What a finished build leaves in the registry.
pub enum RecordedModel {
    Removed(Seq<u8>),
    Written(Seq<u8>, Seq<(Seq<char>, Option<Seq<char>>)>),
}

impl View for Recorded {
    type V = RecordedModel;

    open spec fn view(&self) -> RecordedModel {
        match *self {
            Recorded::Removed { registry_dir } => RecordedModel::Removed(registry_dir@),
            Recorded::Written { path, record } => RecordedModel::Written(path@, record@),
        }
    }
}

/// The name of the file that the record of a branch is kept in.
pub open spec fn record_file_name(key: u64) -> Seq<u8> {
    key_digits(key) + encode_utf8(".json"@)
}

/// What a build of the branch leaves in the registry, after it has observed
/// these names.
pub open spec fn recorded(v: BranchModel, e: EnvironmentModel, names: Seq<Seq<char>>) -> RecordedModel {
    if name_set(names).len() == 0 {
        RecordedModel::Removed(v.registry_dir)
    } else {
        RecordedModel::Written(
            join(v.registry_dir, record_file_name(v.key)),
            text_values(e, name_set(names)),
        )
    }
}

/// What a branch writes to a hasher.
pub open spec fn branch_stream(v: BranchModel) -> Seq<u8> {
    if v.key != 0 {
        spec_u64_to_le_bytes(v.key)
    } else {
        Seq::empty()
    }
}

fn variable_names(variables: &Vec<Variable>) -> (r: Vec<String>)
    ensures
        views(r@) == names_of(views(variables@)),
{
    let mut r: Vec<String> = Vec::new();
    let mut i: usize = 0;
    while i < variables.len()
        invariant
            i <= variables@.len(),
            r@.len() == i,
            forall|k: int| 0 <= k < i ==> (#[trigger] r@[k])@ == variables@[k].name@,
        decreases variables@.len() - i,
    {
        r.push(variables[i].name.clone());
        i = i + 1;
    }
    assert(views(r@) =~= names_of(views(variables@)));
    r
}

impl BuildEnvVariant {
    /// Selects the branch of a unit from its records: the first that the
    /// environment agrees with, or else the one for the values that all their
    /// variables have now.
    pub fn select(
        build_root: &PathBuf,
        package_name: &str,
        stable_unit_id: UnitHash,
        environment: &InputEnvironment,
        records: &Vec<(u64, VariantRecord)>,
    ) -> (r: Self)
        ensures
            r@ == (BranchModel {
                key: selected_key(environment@, views(records@)),
                registry_dir: registry_dir_of(build_root@, package_name@, stable_unit_id),
            }),
    {
        let registry_dir = registry_dir(build_root, package_name, stable_unit_id);
        let ghost all = views(records@);
        let mut i: usize = 0;
        assert(all.skip(0) =~= all);
        while i < records.len()
            invariant
                i <= records@.len(),
                all == views(records@),
                registry_dir@ == registry_dir_of(build_root@, package_name@, stable_unit_id),
                matching_key(environment@, all) == matching_key(environment@, all.skip(i as int)),
            decreases records@.len() - i,
        {
            proof {
                assert(all.skip(i as int).skip(1) =~= all.skip(i + 1));
                assert(all.skip(i as int)[0] == records@[i as int]@);
            }
            let names = variable_names(&records[i].1.variables);
            let now = variable_values(&names, environment);
            if same_variables(&records[i].1.variables, &now) {
                return BuildEnvVariant { key: records[i].0, registry_dir };
            }
            i = i + 1;
        }
        let mut names: Vec<String> = Vec::new();
        let mut j: usize = 0;
        assert(views(names@) =~= all_names(all.take(0)));
        while j < records.len()
            invariant
                j <= records@.len(),
                all == views(records@),
                views(names@) == all_names(all.take(j as int)),
            decreases records@.len() - j,
        {
            proof {
                assert(all.take(j + 1).drop_last() =~= all.take(j as int));
                assert(all.take(j + 1).last() == records@[j as int]@);
            }
            let mut more = variable_names(&records[j].1.variables);
            let ghost head = names@;
            let ghost tail = more@;
            names.append(&mut more);
            assert(views(names@) =~= views(head) + views(tail));
            j = j + 1;
        }
        assert(all.take(j as int) =~= all);
        assert(rank::<String>() =~= (|a: Seq<char>, b: Seq<char>| text_le(a, b)));
        let distinct = sort_unique(names);
        assert(views(distinct@).len() == distinct@.len());
        let key: u64 = if distinct.len() == 0 {
            0
        } else {
            variant_key(&variable_values(&distinct, environment))
        };
        BuildEnvVariant { key, registry_dir }
    }

    /// Whether the branch is other than the plain one.
    pub fn is_branched(&self) -> (r: bool)
        ensures
            r == (self@.key != 0),
    {
        self.key != 0
    }

    /// Writes the branch to a hasher. The plain branch leaves no trace.
    pub fn hash(&self, hasher: &mut StableHasher)
        ensures
            final(hasher)@ == old(hasher)@ + branch_stream(self@),
    {
        let ghost before = hasher@;
        if self.key != 0 {
            hasher.write_u64(self.key);
        }
        assert(hasher@ =~= before + branch_stream(self@));
    }

    /// What a build of this branch leaves in the registry, after it has observed
    /// these names.
    pub fn record(&self, variable_names: &Vec<String>, environment: &InputEnvironment) -> (r: Recorded)
        ensures
            r@ == recorded(self@, environment@, views(variable_names@)),
    {
        assert(rank::<String>() =~= (|a: Seq<char>, b: Seq<char>| text_le(a, b)));
        let names = sort_unique(copy_texts(variable_names));
        assert(views(names@).len() == names@.len());
        if names.len() == 0 {
            return Recorded::Removed { registry_dir: self.registry_dir.clone() };
        }
        let mut file = write_key(self.key);
        append_bytes(&mut file, ".json".as_bytes());
        Recorded::Written {
            path: self.registry_dir.join_bytes(file.as_slice()),
            record: VariantRecord { variables: variable_values(&names, environment) },
        }
    }
}

proof fn lemma_matching_key(
    e: EnvironmentModel,
    records: Seq<(u64, Seq<(Seq<char>, Option<Seq<char>>)>)>,
    k: int,
)
    requires
        0 <= k < records.len(),
        holds_now(e, records[k].1),
    ensures
        exists|i: int|
            0 <= i < records.len() && holds_now(e, (#[trigger] records[i]).1) && matching_key(
                e,
                records,
            ) == Some(records[i].0),
    decreases records.len(),
{
    if holds_now(e, records[0].1) {
        assert(matching_key(e, records) == Some(records[0].0));
    } else {
        let rest = records.skip(1);
        assert(rest[k - 1] == records[k]);
        lemma_matching_key(e, rest, k - 1);
        let i = choose|i: int|
            0 <= i < rest.len() && holds_now(e, (#[trigger] rest[i]).1) && matching_key(e, rest)
                == Some(rest[i].0);
        assert(records[i + 1] == rest[i]);
    }
}

/// A recorded branch is found again. Its file is a record file named by its key,
/// from which the record is read back. Wherever that record is among those of
/// the unit, the same environment selects the branch of a record that it agrees
/// with, and this branch where all such records are of it.
pub proof fn recorded_branch_is_selected_again(
    v: BranchModel,
    e: EnvironmentModel,
    names: Seq<Seq<char>>,
    records: Seq<(u64, Seq<(Seq<char>, Option<Seq<char>>)>)>,
)
    requires
        recorded(v, e, names) matches RecordedModel::Written(path, record) && records.contains(
            (v.key, record),
        ),
    ensures
        recorded(v, e, names) matches RecordedModel::Written(path, record) && {
            &&& is_json(path)
            &&& file_key(path) == Some(v.key)
            &&& entry_fault((path, Some(record))) is None
            &&& holds_now(e, record)
            &&& exists|i: int|
                0 <= i < records.len() && holds_now(e, (#[trigger] records[i]).1) && selected_key(
                    e,
                    records,
                ) == records[i].0
            &&& (forall|i: int|
                0 <= i < records.len() && holds_now(e, (#[trigger] records[i]).1) ==> records[i].0
                    == v.key) ==> selected_key(e, records) == v.key
        },
{
    let path = recorded(v, e, names)->Written_0;
    let record = recorded(v, e, names)->Written_1;
    let digits = key_digits(v.key);
    key_digits_len(v.key);
    key_digits_are_digits(v.key);
    json_name_is_json(v.registry_dir, digits);
    parse_key_undoes_key_digits(v.key);
    assert(names_of(record) =~= name_set(names));
    let k = choose|k: int| 0 <= k < records.len() && records[k] == (v.key, record);
    lemma_matching_key(e, records, k);
}

/// Different variables write differently, an unset one and an empty one among
/// them, so that keys of different branches agree only where the hash itself
/// collides.
pub proof fn variables_stream_distinguishes_values(
    a: Seq<(Seq<char>, Option<Seq<char>>)>,
    b: Seq<(Seq<char>, Option<Seq<char>>)>,
)
    requires
        a.len() <= u64::MAX,
        b.len() <= u64::MAX,
        variables_stream(a) == variables_stream(b),
    ensures
        a == b,
{
    len_stream_is_prefix_free(a.len(), entries_stream(a), b.len(), entries_stream(b));
    let none = Seq::<u8>::empty();
    assert(entries_stream(a) + none =~= entries_stream(a));
    assert(entries_stream(b) + none =~= entries_stream(b));
    lemma_entries_stream(a, none, b, none);
}

proof fn lemma_option_stream(
    a: Option<Seq<char>>,
    u: Seq<u8>,
    b: Option<Seq<char>>,
    v: Seq<u8>,
)
    requires
        option_stream(a) + u == option_stream(b) + v,
    ensures
        a == b,
        u == v,
{
    let s = option_stream(a) + u;
    let t = option_stream(b) + v;
    assert(s[0] == option_stream(a)[0]);
    assert(t[0] == option_stream(b)[0]);
    match (a, b) {
        (None, None) => {
            assert(u =~= s.skip(1));
            assert(v =~= t.skip(1));
        },
        (Some(x), Some(y)) => {
            assert(s.skip(1) =~= str_stream(x) + u);
            assert(t.skip(1) =~= str_stream(y) + v);
            str_stream_is_prefix_free(x, u, y, v);
        },
        _ => {},
    }
}

proof fn lemma_entries_stream(
    a: Seq<(Seq<char>, Option<Seq<char>>)>,
    u: Seq<u8>,
    b: Seq<(Seq<char>, Option<Seq<char>>)>,
    v: Seq<u8>,
)
    requires
        a.len() == b.len(),
        entries_stream(a) + u == entries_stream(b) + v,
    ensures
        a == b,
        u == v,
    decreases a.len(),
{
    if a.len() == 0 {
        assert(entries_stream(a) + u =~= u);
        assert(entries_stream(b) + v =~= v);
        assert(a =~= b);
    } else {
        let x = str_stream(a.last().0) + (option_stream(a.last().1) + u);
        let y = str_stream(b.last().0) + (option_stream(b.last().1) + v);
        assert(entries_stream(a) + u =~= entries_stream(a.drop_last()) + x);
        assert(entries_stream(b) + v =~= entries_stream(b.drop_last()) + y);
        lemma_entries_stream(a.drop_last(), x, b.drop_last(), y);
        str_stream_is_prefix_free(
            a.last().0,
            option_stream(a.last().1) + u,
            b.last().0,
            option_stream(b.last().1) + v,
        );
        lemma_option_stream(a.last().1, u, b.last().1, v);
        assert(a =~= a.drop_last().push(a.last()));
        assert(b =~= b.drop_last().push(b.last()));
    }
}

/// What is recorded does not depend on the order in which names were declared,
/// nor on how often.
pub proof fn recorded_ignores_declaration_order(
    v: BranchModel,
    e: EnvironmentModel,
    a: Seq<Seq<char>>,
    b: Seq<Seq<char>>,
)
    requires
        forall|name: Seq<char>| #[trigger] a.contains(name) <==> b.contains(name),
    ensures
        recorded(v, e, a) == recorded(v, e, b),
        variant_key_of(text_values(e, name_set(a))) == variant_key_of(text_values(e, name_set(b))),
{
    text_le_is_total_order();
    sorted_set_ignores_order(a, b, |x: Seq<char>, y: Seq<char>| text_le(x, y));
}

} // verus!
