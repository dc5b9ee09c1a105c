//! Compilation branches selected by observed process inputs.

use vstd::bytes::spec_u16_to_le_bytes;
use vstd::prelude::*;
use vstd::utf8::encode_utf8;

use crate::environment::{nonzero, variable_value_of, EnvironmentModel, InputEnvironment};
use crate::hasher::{len_stream, stable_sip, str_stream, StableHasher};
use crate::order::{rank, sort_ranked, stable_sort, views, Ranked};
use crate::path::{join, path_le};
use crate::path_buf::{append_bytes, copy_bytes, PathBuf};
use crate::text::{
    copy_texts, encode_utf8_injective, hex_encode, hex_text, hex_text_injective, key_digits,
    key_digits_injective, key_digits_len, key_text, key_text_of, text_equal, write_key,
};
use crate::tracking::{has_changed, resolved, FileStamp, ObservedFile, TrackedModel, TrackedPath};
use crate::walk::is_json;

verus! {

/// The format that schemas and variant records are written in.
pub const FORMAT_VERSION: u32 = 3;

/// The identity of a unit: a hash, written as sixteen hexadecimal digits.
#[derive(Clone, Copy, Debug, PartialEq, Eq, Structural, Hash)]
pub struct UnitHash {
    pub value: u64,
}

impl UnitHash {
    /// The identity as text.
    pub fn to_text(self) -> (r: String)
        ensures
            r@ == key_text_of(self.value),
            encode_utf8(r@) == key_digits(self.value),
    {
        key_text(self.value)
    }
}

/// Where observed inputs come from.
#[derive(Clone, Copy, Debug, PartialEq, Eq, Structural, Hash)]
pub enum InputSource {
    BuildScriptEnv,
    RustcEnv,
}

impl InputSource {
    /// The directory that inputs of this source are kept in.
    pub open spec fn directory_name(self) -> Seq<char> {
        match self {
            InputSource::BuildScriptEnv => "build-script-env"@,
            InputSource::RustcEnv => "rustc-env"@,
        }
    }

    /// The number that this source is hashed as.
    pub open spec fn tag(self) -> u8 {
        match self {
            InputSource::BuildScriptEnv => 0,
            InputSource::RustcEnv => 1,
        }
    }

    /// The directory that inputs of this source are kept in.
    pub fn directory(self) -> (r: &'static str)
        ensures
            r@ == self.directory_name(),
    {
        match self {
            InputSource::BuildScriptEnv => "build-script-env",
            InputSource::RustcEnv => "rustc-env",
        }
    }
}

/// The value of a variable as it is recorded.
#[derive(Debug)]
pub enum EncodedValue {
    Unset,
    UnixBytes(String),
    WindowsWide(Vec<u16>),
}

/// The value of a variable as it is recorded.
pub enum EncodedModel {
    Unset,
    UnixBytes(Seq<char>),
    WindowsWide(Seq<u16>),
}

impl View for EncodedValue {
    type V = EncodedModel;

    open spec fn view(&self) -> EncodedModel {
        match *self {
            EncodedValue::Unset => EncodedModel::Unset,
            EncodedValue::UnixBytes(text) => EncodedModel::UnixBytes(text@),
            EncodedValue::WindowsWide(wide) => EncodedModel::WindowsWide(wide@),
        }
    }
}

fn copy_wide(wide: &Vec<u16>) -> (r: Vec<u16>)
    ensures
        r@ == wide@,
{
    let mut r: Vec<u16> = Vec::new();
    let mut i: usize = 0;
    while i < wide.len()
        invariant
            i <= wide@.len(),
            r@ == wide@.take(i as int),
        decreases wide@.len() - i,
    {
        r.push(wide[i]);
        assert(wide@.take(i + 1) =~= wide@.take(i as int).push(wide@[i as int]));
        i = i + 1;
    }
    assert(wide@.take(i as int) =~= wide@);
    r
}

fn wide_equal(a: &Vec<u16>, b: &Vec<u16>) -> (r: bool)
    ensures
        r == (a@ == b@),
{
    if a.len() != b.len() {
        return false;
    }
    let mut i: usize = 0;
    while i < a.len()
        invariant
            i <= a@.len(),
            a@.len() == b@.len(),
            forall|k: int| 0 <= k < i ==> a@[k] == b@[k],
        decreases a@.len() - i,
    {
        if a[i] != b[i] {
            return false;
        }
        i = i + 1;
    }
    assert(a@ =~= b@);
    true
}

impl Clone for EncodedValue {
    fn clone(&self) -> (r: Self)
        ensures
            r@ == self@,
    {
        match self {
            EncodedValue::Unset => EncodedValue::Unset,
            EncodedValue::UnixBytes(text) => EncodedValue::UnixBytes(text.clone()),
            EncodedValue::WindowsWide(wide) => EncodedValue::WindowsWide(copy_wide(wide)),
        }
    }
}

impl vstd::std_specs::cmp::PartialEqSpecImpl for EncodedValue {
    open spec fn obeys_eq_spec() -> bool {
        true
    }

    open spec fn eq_spec(&self, other: &EncodedValue) -> bool {
        self@ == other@
    }
}

impl PartialEq for EncodedValue {
    fn eq(&self, other: &EncodedValue) -> (r: bool) {
        match (self, other) {
            (EncodedValue::Unset, EncodedValue::Unset) => true,
            (EncodedValue::UnixBytes(a), EncodedValue::UnixBytes(b)) => text_equal(
                a.as_str(),
                b.as_str(),
            ),
            (EncodedValue::WindowsWide(a), EncodedValue::WindowsWide(b)) => wide_equal(a, b),
            _ => false,
        }
    }
}

impl Eq for EncodedValue {

}

/// The value of a variable as the system gives it: bytes on Unix, 16-bit units on
/// Windows. Neither has to be valid text.
#[derive(Debug)]
pub enum SystemValue {
    Bytes(Vec<u8>),
    Wide(Vec<u16>),
}

/// The value of a variable as the system gives it.
pub enum SystemModel {
    Bytes(Seq<u8>),
    Wide(Seq<u16>),
}

impl View for SystemValue {
    type V = SystemModel;

    open spec fn view(&self) -> SystemModel {
        match *self {
            SystemValue::Bytes(bytes) => SystemModel::Bytes(bytes@),
            SystemValue::Wide(wide) => SystemModel::Wide(wide@),
        }
    }
}

/// How the value of a variable is recorded: bytes as hexadecimal text, 16-bit
/// units as they are.
pub open spec fn encoded(value: Option<SystemModel>) -> EncodedModel {
    match value {
        None => EncodedModel::Unset,
        Some(SystemModel::Bytes(bytes)) => EncodedModel::UnixBytes(hex_text(bytes)),
        Some(SystemModel::Wide(wide)) => EncodedModel::WindowsWide(wide),
    }
}

/// Encodes the value of a variable.
pub fn encode_value(value: Option<SystemValue>) -> (r: EncodedValue)
    ensures
        r@ == encoded(
            match value {
                None => None,
                Some(given) => Some(given@),
            },
        ),
{
    match value {
        None => EncodedValue::Unset,
        Some(SystemValue::Bytes(bytes)) => EncodedValue::UnixBytes(hex_encode(bytes.as_slice())),
        Some(SystemValue::Wide(wide)) => EncodedValue::WindowsWide(wide),
    }
}

/// Values are recorded the same exactly where they are the same: nothing is lost
/// of bytes or 16-bit units that are no text, and a variable that is not set
/// differs from every one that is, the empty one among them.
pub proof fn encoded_distinguishes_values(a: Option<SystemModel>, b: Option<SystemModel>)
    ensures
        encoded(a) == encoded(b) <==> a == b,
{
    match (a, b) {
        (Some(SystemModel::Bytes(x)), Some(SystemModel::Bytes(y))) => {
            if hex_text(x) == hex_text(y) {
                hex_text_injective(x, y);
            }
        },
        _ => {},
    }
}

/// The bytes of a variable, where it is set.
pub open spec fn bytes_value(value: Option<Seq<u8>>) -> Option<SystemModel> {
    match value {
        None => None,
        Some(bytes) => Some(SystemModel::Bytes(bytes)),
    }
}

/// Names with the values recorded for them.
pub open spec fn values_of(e: EnvironmentModel, names: Seq<Seq<char>>) -> Seq<
    (Seq<char>, EncodedModel),
> {
    Seq::new(
        names.len(),
        |i: int| (names[i], encoded(bytes_value(variable_value_of(e, names[i])))),
    )
}

impl InputEnvironment {
    /// The values to record for these names.
    pub fn values(&self, names: &Vec<String>) -> (r: Vec<(String, EncodedValue)>)
        ensures
            views(r@) == values_of(self@, views(names@)),
    {
        let mut r: Vec<(String, EncodedValue)> = Vec::new();
        let mut i: usize = 0;
        while i < names.len()
            invariant
                i <= names@.len(),
                r@.len() == i,
                forall|k: int|
                    0 <= k < i ==> (#[trigger] r@[k])@ == values_of(self@, views(names@))[k],
            decreases names@.len() - i,
        {
            let name = names[i].clone();
            let value = match self.variable_value(name.as_str()) {
                Some(bytes) => encode_value(Some(SystemValue::Bytes(bytes))),
                None => encode_value(None),
            };
            r.push((name, value));
            i = i + 1;
        }
        assert(views(r@) =~= values_of(self@, views(names@)));
        r
    }
}

/// What a list of 16-bit units writes to a hasher.
pub open spec fn wide_stream(wide: Seq<u16>) -> Seq<u8>
    decreases wide.len(),
{
    if wide.len() == 0 {
        Seq::empty()
    } else {
        wide_stream(wide.drop_last()) + spec_u16_to_le_bytes(wide.last())
    }
}

/// What a recorded value writes to a hasher.
pub open spec fn encoded_stream(value: EncodedModel) -> Seq<u8> {
    match value {
        EncodedModel::Unset => seq![0u8],
        EncodedModel::UnixBytes(text) => seq![1u8] + str_stream(text),
        EncodedModel::WindowsWide(wide) => seq![2u8] + len_stream(wide.len()) + wide_stream(wide),
    }
}

/// What the entries of a list of values write to a hasher.
pub open spec fn entries_stream(values: Seq<(Seq<char>, EncodedModel)>) -> Seq<u8>
    decreases values.len(),
{
    if values.len() == 0 {
        Seq::empty()
    } else {
        entries_stream(values.drop_last()) + str_stream(values.last().0) + encoded_stream(
            values.last().1,
        )
    }
}

/// What a list of values writes to a hasher.
pub open spec fn values_stream(values: Seq<(Seq<char>, EncodedModel)>) -> Seq<u8> {
    len_stream(values.len()) + entries_stream(values)
}

/// The key of the branch that these values select.
pub open spec fn variant_key_of(values: Seq<(Seq<char>, EncodedModel)>) -> u64 {
    nonzero(stable_sip(values_stream(values)))
}

fn write_value(hasher: &mut StableHasher, value: &EncodedValue)
    ensures
        final(hasher)@ == old(hasher)@ + encoded_stream(value@),
{
    let ghost before = hasher@;
    match value {
        EncodedValue::Unset => {
            hasher.write_u8(0);
        },
        EncodedValue::UnixBytes(text) => {
            hasher.write_u8(1);
            hasher.write_str(text.as_str());
            assert(hasher@ =~= before + encoded_stream(value@));
        },
        EncodedValue::WindowsWide(wide) => {
            hasher.write_u8(2);
            hasher.write_length_prefix(wide.len());
            let ghost head = hasher@;
            let mut i: usize = 0;
            assert(hasher@ =~= head + wide_stream(wide@.take(0)));
            while i < wide.len()
                invariant
                    i <= wide@.len(),
                    hasher@ == head + wide_stream(wide@.take(i as int)),
                decreases wide@.len() - i,
            {
                assert(wide@.take(i + 1).drop_last() =~= wide@.take(i as int));
                hasher.write_u16(wide[i]);
                assert(hasher@ =~= head + wide_stream(wide@.take(i + 1)));
                i = i + 1;
            }
            assert(wide@.take(i as int) =~= wide@);
            assert(hasher@ =~= before + encoded_stream(value@));
        },
    }
}

/// The key of the branch that these values select.
pub fn variant_key(values: &Vec<(String, EncodedValue)>) -> (r: u64)
    ensures
        r == variant_key_of(views(values@)),
        r != 0,
{
    let ghost all = views(values@);
    let mut hasher = StableHasher::new();
    hasher.write_length_prefix(values.len());
    let ghost head = hasher@;
    let mut i: usize = 0;
    assert(hasher@ =~= head + entries_stream(all.take(0)));
    while i < values.len()
        invariant
            i <= values@.len(),
            all == views(values@),
            hasher@ == head + entries_stream(all.take(i as int)),
        decreases values@.len() - i,
    {
        proof {
            assert(all.take(i + 1).drop_last() =~= all.take(i as int));
            assert(all.take(i + 1).last() == values@[i as int]@);
        }
        hasher.write_str(values[i].0.as_str());
        write_value(&mut hasher, &values[i].1);
        assert(hasher@ =~= head + entries_stream(all.take(i + 1)));
        i = i + 1;
    }
    assert(all.take(i as int) =~= all);
    assert(hasher@ =~= values_stream(all));
    let h: u64 = hasher.finish();
    if h == 0 {
        1
    } else {
        h
    }
}

/// Whether two lists of values are the same.
pub fn values_equal(a: &Vec<(String, EncodedValue)>, b: &Vec<(String, EncodedValue)>) -> (r: bool)
    ensures
        r == (views(a@) == views(b@)),
{
    if a.len() != b.len() {
        assert(views(a@).len() != views(b@).len());
        return false;
    }
    let mut i: usize = 0;
    while i < a.len()
        invariant
            i <= a@.len(),
            a@.len() == b@.len(),
            forall|k: int| 0 <= k < i ==> views(a@)[k] == views(b@)[k],
        decreases a@.len() - i,
    {
        if !text_equal(a[i].0.as_str(), b[i].0.as_str()) || !a[i].1.eq(&b[i].1) {
            assert(views(a@)[i as int] != views(b@)[i as int]);
            return false;
        }
        i = i + 1;
    }
    assert(views(a@) =~= views(b@));
    true
}

/// Copies a list of values.
fn copy_values(values: &Vec<(String, EncodedValue)>) -> (r: Vec<(String, EncodedValue)>)
    ensures
        views(r@) == views(values@),
{
    let mut r: Vec<(String, EncodedValue)> = Vec::new();
    let mut i: usize = 0;
    while i < values.len()
        invariant
            i <= values@.len(),
            r@.len() == i,
            forall|k: int| 0 <= k < i ==> (#[trigger] r@[k])@ == values@[k]@,
        decreases values@.len() - i,
    {
        r.push((values[i].0.clone(), values[i].1.clone()));
        i = i + 1;
    }
    assert(views(r@) =~= views(values@));
    r
}

/// The names of the variables that a unit's branches depend on.
#[derive(Debug)]
pub struct InputSchema {
    pub version: u32,
    pub source: InputSource,
    pub schema_id: String,
    pub generation: u64,
    pub names: Vec<String>,
}

/// What a schema says.
#[verifier::ext_equal]
pub struct SchemaModel {
    pub version: u32,
    pub source: InputSource,
    pub schema_id: Seq<char>,
    pub generation: u64,
    pub names: Seq<Seq<char>>,
}

impl View for InputSchema {
    type V = SchemaModel;

    open spec fn view(&self) -> SchemaModel {
        SchemaModel {
            version: self.version,
            source: self.source,
            schema_id: self.schema_id@,
            generation: self.generation,
            names: views(self.names@),
        }
    }
}

impl Clone for InputSchema {
    fn clone(&self) -> (r: Self)
        ensures
            r@ == self@,
    {
        InputSchema {
            version: self.version,
            source: self.source,
            schema_id: self.schema_id.clone(),
            generation: self.generation,
            names: copy_texts(&self.names),
        }
    }
}

/// The view of an optional schema.
pub open spec fn optional_schema(s: Option<InputSchema>) -> Option<SchemaModel> {
    match s {
        None => None,
        Some(schema) => Some(schema@),
    }
}

/// A branch that was built: the values that select it, and the files that it
/// depends on.
#[derive(Debug)]
pub struct VariantRecord {
    pub version: u32,
    pub generation: u64,
    pub context_id: String,
    pub key: u64,
    pub values: Vec<(String, EncodedValue)>,
    pub tracked_paths: Vec<TrackedPath>,
    pub created: u64,
    pub last_used: u64,
}

/// What a record says.
#[verifier::ext_equal]
pub struct VariantModel {
    pub version: u32,
    pub generation: u64,
    pub context_id: Seq<char>,
    pub key: u64,
    pub values: Seq<(Seq<char>, EncodedModel)>,
    pub tracked_paths: Seq<TrackedModel>,
    pub created: u64,
    pub last_used: u64,
}

impl View for VariantRecord {
    type V = VariantModel;

    open spec fn view(&self) -> VariantModel {
        VariantModel {
            version: self.version,
            generation: self.generation,
            context_id: self.context_id@,
            key: self.key,
            values: views(self.values@),
            tracked_paths: views(self.tracked_paths@),
            created: self.created,
            last_used: self.last_used,
        }
    }
}

fn copy_tracked(list: &Vec<TrackedPath>) -> (r: Vec<TrackedPath>)
    ensures
        views(r@) == views(list@),
{
    let mut r: Vec<TrackedPath> = Vec::new();
    let mut i: usize = 0;
    while i < list.len()
        invariant
            i <= list@.len(),
            r@.len() == i,
            forall|k: int| 0 <= k < i ==> (#[trigger] r@[k])@ == list@[k]@,
        decreases list@.len() - i,
    {
        r.push(list[i].clone());
        i = i + 1;
    }
    assert(views(r@) =~= views(list@));
    r
}

impl Clone for VariantRecord {
    fn clone(&self) -> (r: Self)
        ensures
            r@ == self@,
    {
        VariantRecord {
            version: self.version,
            generation: self.generation,
            context_id: self.context_id.clone(),
            key: self.key,
            values: copy_values(&self.values),
            tracked_paths: copy_tracked(&self.tracked_paths),
            created: self.created,
            last_used: self.last_used,
        }
    }
}

/// The view of an optional record.
pub open spec fn optional_variant(r: Option<VariantRecord>) -> Option<VariantModel> {
    match r {
        None => None,
        Some(record) => Some(record@),
    }
}

/// A file that the record depends on has changed.
pub open spec fn record_is_stale(
    record: VariantModel,
    package_root: Seq<u8>,
    build_root: Seq<u8>,
    seen: Seq<(Seq<u8>, Option<FileStamp>)>,
) -> bool {
    exists|k: int|
        0 <= k < record.tracked_paths.len() && has_changed(
            #[trigger] record.tracked_paths[k],
            package_root,
            build_root,
            seen,
        )
}

impl VariantRecord {
    /// Whether a file that the record depends on has changed.
    pub fn is_stale(&self, package_root: &PathBuf, build_root: &PathBuf, seen: &Vec<ObservedFile>) -> (r:
        bool)
        ensures
            r == record_is_stale(self@, package_root@, build_root@, views(seen@)),
    {
        let mut i: usize = 0;
        while i < self.tracked_paths.len()
            invariant
                i <= self.tracked_paths@.len(),
                forall|k: int|
                    0 <= k < i ==> !has_changed(
                        #[trigger] self@.tracked_paths[k],
                        package_root@,
                        build_root@,
                        views(seen@),
                    ),
            decreases self.tracked_paths@.len() - i,
        {
            if self.tracked_paths[i].is_stale(package_root, build_root, seen) {
                assert(has_changed(
                    self@.tracked_paths[i as int],
                    package_root@,
                    build_root@,
                    views(seen@),
                ));
                return true;
            }
            i = i + 1;
        }
        false
    }

    /// The files to look at to see whether the record is stale.
    pub fn tracked_files(&self, package_root: &PathBuf, build_root: &PathBuf) -> (r: Vec<PathBuf>)
        ensures
            r@.len() == self@.tracked_paths.len(),
            forall|k: int|
                0 <= k < r@.len() ==> (#[trigger] r@[k])@ == resolved(
                    self@.tracked_paths[k],
                    package_root@,
                    build_root@,
                ),
    {
        let mut r: Vec<PathBuf> = Vec::new();
        let mut i: usize = 0;
        while i < self.tracked_paths.len()
            invariant
                i <= self.tracked_paths@.len(),
                r@.len() == i,
                forall|k: int|
                    0 <= k < i ==> (#[trigger] r@[k])@ == resolved(
                        self@.tracked_paths[k],
                        package_root@,
                        build_root@,
                    ),
            decreases self.tracked_paths@.len() - i,
        {
            r.push(self.tracked_paths[i].resolve(package_root, build_root));
            i = i + 1;
        }
        r
    }
}

/// A schema that belongs to this source and this unit, in the current format.
pub open spec fn schema_fits(schema: SchemaModel, source: InputSource, schema_id: UnitHash) -> bool {
    &&& schema.version == FORMAT_VERSION
    &&& schema.source == source
    &&& schema.schema_id == key_text_of(schema_id.value)
}

/// Takes a schema as read from its file, where it can be used. Where it cannot,
/// the file is to be removed.
pub fn load_schema(read: Option<InputSchema>, source: InputSource, schema_id: UnitHash) -> (r: Option<
    InputSchema,
>)
    ensures
        optional_schema(r) == match optional_schema(read) {
            Some(schema) if schema_fits(schema, source, schema_id) => Some(schema),
            _ => None,
        },
{
    match read {
        Some(schema) => {
            let id = schema_id.to_text();
            if schema.version == FORMAT_VERSION && schema.source == source && text_equal(
                schema.schema_id.as_str(),
                id.as_str(),
            ) {
                Some(schema)
            } else {
                None
            }
        },
        None => None,
    }
}

/// A file in the directory of a unit's records, with the record read from it.
pub struct RecordEntry {
    pub path: PathBuf,
    pub record: Option<VariantRecord>,
}

impl View for RecordEntry {
    type V = (Seq<u8>, Option<VariantModel>);

    open spec fn view(&self) -> (Seq<u8>, Option<VariantModel>) {
        (self.path@, optional_variant(self.record))
    }
}

impl Ranked for RecordEntry {
    open spec fn rank_le(
        a: (Seq<u8>, Option<VariantModel>),
        b: (Seq<u8>, Option<VariantModel>),
    ) -> bool {
        path_le(a.0, b.0)
    }

    fn at_most(&self, other: &Self) -> (r: bool) {
        self.path.at_most(&other.path)
    }
}

/// The order of directory entries.
pub open spec fn entry_order() -> spec_fn(
    (Seq<u8>, Option<VariantModel>),
    (Seq<u8>, Option<VariantModel>),
) -> bool {
    |a: (Seq<u8>, Option<VariantModel>), b: (Seq<u8>, Option<VariantModel>)| path_le(a.0, b.0)
}

/// A record in the current format and of this generation.
pub open spec fn record_fits(record: Option<VariantModel>, generation: u64) -> bool {
    record matches Some(r) && r.version == FORMAT_VERSION && r.generation == generation
}

/// The records among the entries that can be used.
pub open spec fn accepted(entries: Seq<(Seq<u8>, Option<VariantModel>)>, generation: u64) -> Seq<
    VariantModel,
>
    decreases entries.len(),
{
    if entries.len() == 0 {
        Seq::empty()
    } else {
        let before = accepted(entries.drop_last(), generation);
        let (path, record) = entries.last();
        if is_json(path) && record_fits(record, generation) {
            before.push(record->0)
        } else {
            before
        }
    }
}

/// The record files among the entries that cannot be used.
pub open spec fn rejected(entries: Seq<(Seq<u8>, Option<VariantModel>)>, generation: u64) -> Seq<
    Seq<u8>,
>
    decreases entries.len(),
{
    if entries.len() == 0 {
        Seq::empty()
    } else {
        let before = rejected(entries.drop_last(), generation);
        let (path, record) = entries.last();
        if is_json(path) && !record_fits(record, generation) {
            before.push(path)
        } else {
            before
        }
    }
}

/// The records of a unit that can be used, and the files to remove.
pub struct LoadedRecords {
    pub records: Vec<VariantRecord>,
    pub rejected: Vec<PathBuf>,
}

/// Sifts the records of a unit, in the order of their files. Without a schema,
/// which gives the generation, there are none.
pub fn load_records(entries: Vec<RecordEntry>, generation: Option<u64>) -> (r: LoadedRecords)
    ensures
        generation is None ==> r.records@.len() == 0 && r.rejected@.len() == 0,
        generation matches Some(g) ==> {
            &&& views(r.records@) == accepted(stable_sort(views(entries@), entry_order()), g)
            &&& views(r.rejected@) == rejected(stable_sort(views(entries@), entry_order()), g)
        },
{
    let mut records: Vec<VariantRecord> = Vec::new();
    let mut unusable: Vec<PathBuf> = Vec::new();
    match generation {
        None => LoadedRecords { records, rejected: unusable },
        Some(g) => {
            assert(rank::<RecordEntry>() =~= entry_order());
            let mut rest = sort_ranked(entries);
            let ghost all = views(rest@);
            let ghost sorted = rest@;
            let ghost mut done: int = 0;
            assert(views(records@) =~= accepted(all.take(0), g));
            assert(views(unusable@) =~= rejected(all.take(0), g));
            while rest.len() > 0
                invariant
                    0 <= done <= sorted.len(),
                    all == views(sorted),
                    rest@ == sorted.skip(done),
                    views(records@) == accepted(all.take(done), g),
                    views(unusable@) == rejected(all.take(done), g),
                decreases rest@.len(),
            {
                let entry = rest.remove(0);
                let ghost r0 = records@;
                let ghost u0 = unusable@;
                proof {
                    assert(entry == sorted[done]);
                    assert(all.take(done + 1).drop_last() =~= all.take(done));
                    assert(all.take(done + 1).last() == entry@);
                    assert(rest@ =~= sorted.skip(done + 1));
                }
                if entry.path.has_extension("json") {
                    match entry.record {
                        Some(record) => {
                            if record.version == FORMAT_VERSION && record.generation == g {
                                records.push(record);
                                assert(views(records@) =~= views(r0).push(record@));
                            } else {
                                unusable.push(entry.path);
                                assert(views(unusable@) =~= views(u0).push(entry.path@));
                            }
                        },
                        None => {
                            unusable.push(entry.path);
                            assert(views(unusable@) =~= views(u0).push(entry.path@));
                        },
                    }
                }
                proof {
                    done = done + 1;
                }
            }
            assert(all.take(done) =~= all);
            LoadedRecords { records, rejected: unusable }
        },
    }
}

/// The name of the file that a record is kept in.
pub open spec fn record_file_name(context_id: Seq<char>, key: u64) -> Seq<u8> {
    encode_utf8(context_id) + encode_utf8("-"@) + key_digits(key) + encode_utf8(".json"@)
}

/// The file that a record is kept in.
pub fn record_file(records_dir: &PathBuf, record: &VariantRecord) -> (r: PathBuf)
    ensures
        r@ == join(records_dir@, record_file_name(record@.context_id, record@.key)),
{
    let mut name = copy_bytes(record.context_id.as_str().as_bytes());
    append_bytes(&mut name, "-".as_bytes());
    append_bytes(&mut name, write_key(record.key).as_slice());
    append_bytes(&mut name, ".json".as_bytes());
    records_dir.join_bytes(name.as_slice())
}

/// Records of different contexts or with different keys are kept in different
/// files.
pub proof fn record_files_are_separate(a: Seq<char>, j: u64, b: Seq<char>, k: u64)
    requires
        record_file_name(a, j) == record_file_name(b, k),
    ensures
        a == b,
        j == k,
{
    let x = record_file_name(a, j);
    let y = record_file_name(b, k);
    let dash = encode_utf8("-"@);
    let tail = encode_utf8(".json"@);
    key_digits_len(j);
    key_digits_len(k);
    let n = encode_utf8(a).len() as int;
    let d = dash.len() as int;
    assert(x.len() == n + d + 16 + tail.len());
    assert(y.len() == encode_utf8(b).len() + d + 16 + tail.len());
    assert(x.subrange(0, n) =~= encode_utf8(a));
    assert(y.subrange(0, n) =~= encode_utf8(b));
    assert(x.subrange(n + d, n + d + 16) =~= key_digits(j));
    assert(y.subrange(n + d, n + d + 16) =~= key_digits(k));
    encode_utf8_injective(a, b);
    key_digits_injective(j, k);
}

/// Once the generation of a schema has risen, no record of another generation is
/// used, and its file is removed.
pub proof fn other_generations_are_ineligible(
    entries: Seq<(Seq<u8>, Option<VariantModel>)>,
    generation: u64,
)
    ensures
        forall|k: int|
            0 <= k < accepted(entries, generation).len() ==> (#[trigger] accepted(
                entries,
                generation,
            )[k]).generation == generation && accepted(entries, generation)[k].version
                == FORMAT_VERSION,
        forall|k: int|
            0 <= k < entries.len() && is_json((#[trigger] entries[k]).0) && !record_fits(
                entries[k].1,
                generation,
            ) ==> rejected(entries, generation).contains(entries[k].0),
    decreases entries.len(),
{
    if entries.len() > 0 {
        let init = entries.drop_last();
        other_generations_are_ineligible(init, generation);
        let kept = accepted(entries, generation);
        let kept0 = accepted(init, generation);
        assert forall|k: int| 0 <= k < kept.len() implies (#[trigger] kept[k]).generation
            == generation && kept[k].version == FORMAT_VERSION by {
            if k < kept0.len() {
                assert(kept[k] == kept0[k]);
            }
        }
        let out = rejected(entries, generation);
        let out0 = rejected(init, generation);
        assert forall|k: int|
            0 <= k < entries.len() && is_json((#[trigger] entries[k]).0) && !record_fits(
                entries[k].1,
                generation,
            ) implies out.contains(entries[k].0) by {
            if k < init.len() {
                assert(init[k] == entries[k]);
                assert(out0.contains(init[k].0));
                let j = choose|j: int| 0 <= j < out0.len() && out0[j] == init[k].0;
                assert(out[j] == out0[j]);
            } else {
                assert(out[out.len() - 1] == entries[k].0);
            }
        }
    }
}

} // verus!
