//! Selecting the branch of a unit, and recording what it turned out to depend
//! on.

use vstd::bytes::spec_u64_to_le_bytes;
use vstd::prelude::*;
use vstd::utf8::{encode_utf8, is_ascii_chars_encode_utf8};

use crate::environment::{provisional_key_of, EnvironmentModel, InputEnvironment};
use crate::hasher::StableHasher;
use crate::order::{
    rank, sort_unique, sorted_set, sorted_set_ignores_order, sorted_set_is_strictly_ranked,
    sorted_set_members, views,
};
use crate::path::{join, with_extension, SEPARATOR};
use crate::path_buf::PathBuf;
use crate::path_set::{copy_optional, optional_path};
use crate::text::{
    copy_texts, key_digits, key_digits_are_digits, key_digits_len, key_text_bytes, key_text_of,
    text_equal, text_le, text_le_is_total_order,
};
use crate::tracking::{
    has_changed, locate, located, track_all, tracked_each, tracked_le, tracked_le_is_total_preorder,
    tracked_set, tracking_keeps_the_file, FileStamp, ObservedFile, TrackedModel,
};
use crate::variants::{
    optional_schema, optional_variant, record_file_name, record_fits, record_is_stale, schema_fits,
    values_equal, values_of, variant_key, variant_key_of, EncodedModel, EncodedValue, InputSchema,
    InputSource, SchemaModel, UnitHash, VariantModel, VariantRecord, FORMAT_VERSION,
};
use crate::walk::{is_json, json_name_is_json};

verus! {

/// Why no branch can be selected.
#[derive(Clone, Copy, Debug, PartialEq, Eq, Structural)]
pub enum SelectError {
    /// Fine-grained build locking does not work on a network file system.
    LockingUnsupported,
}

/// Whose branches are selected, and where they are kept.
#[derive(Debug)]
pub struct VariantSite {
    source: InputSource,
    schema_id: UnitHash,
    context_id: UnitHash,
    build_root: PathBuf,
    package_root: PathBuf,
    schema_path: PathBuf,
    records_dir: PathBuf,
    schema_lock: Option<PathBuf>,
}

/// Whose branches are selected, and where they are kept.
#[verifier::ext_equal]
pub struct SiteModel {
    pub source: InputSource,
    pub schema_id: UnitHash,
    pub context_id: UnitHash,
    pub build_root: Seq<u8>,
    pub package_root: Seq<u8>,
    pub schema_path: Seq<u8>,
    pub records_dir: Seq<u8>,
    pub schema_lock: Option<Seq<u8>>,
}

impl View for VariantSite {
    type V = SiteModel;

    closed spec fn view(&self) -> SiteModel {
        SiteModel {
            source: self.source,
            schema_id: self.schema_id,
            context_id: self.context_id,
            build_root: self.build_root@,
            package_root: self.package_root@,
            schema_path: self.schema_path@,
            records_dir: self.records_dir@,
            schema_lock: optional_path(self.schema_lock),
        }
    }
}

impl Clone for VariantSite {
    fn clone(&self) -> (r: Self)
        ensures
            r@ == self@,
    {
        VariantSite {
            source: self.source,
            schema_id: self.schema_id,
            context_id: self.context_id,
            build_root: self.build_root.clone(),
            package_root: self.package_root.clone(),
            schema_path: self.schema_path.clone(),
            records_dir: self.records_dir.clone(),
            schema_lock: copy_optional(&self.schema_lock),
        }
    }
}

/// The directory of the registry of branches.
pub open spec fn registry_root(build_root: Seq<u8>) -> Seq<u8> {
    join(join(build_root, encode_utf8(".input-variants"@)), encode_utf8("v1"@))
}

/// Where a unit stands in the registry.
pub open spec fn registry_place(source: InputSource, package: Seq<char>, schema_id: UnitHash) -> Seq<
    u8,
> {
    join(
        join(encode_utf8(source.directory_name()), encode_utf8(package)),
        encode_utf8(key_text_of(schema_id.value)),
    )
}

/// Where a unit's branches are kept. Without a lock the registry is not guarded.
pub open spec fn site_of(
    build_root: Seq<u8>,
    package: Seq<char>,
    package_root: Seq<u8>,
    schema_id: UnitHash,
    context_id: UnitHash,
    source: InputSource,
    guarded: bool,
) -> SiteModel {
    let root = registry_root(build_root);
    let place = registry_place(source, package, schema_id);
    SiteModel {
        source,
        schema_id,
        context_id,
        build_root,
        package_root,
        schema_path: with_extension(
            join(join(root, encode_utf8("schemas"@)), place),
            encode_utf8("json"@),
        ),
        records_dir: join(join(root, encode_utf8("records"@)), place),
        schema_lock: if guarded {
            Some(
                join(
                    join(root, encode_utf8("locks"@)),
                    with_extension(place, encode_utf8("lock"@)),
                ),
            )
        } else {
            None
        },
    }
}

impl VariantSite {
    /// The site of a unit. On a network file system the registry is not guarded,
    /// and fine-grained locking is refused.
    pub fn new(
        build_root: &PathBuf,
        package_name: &str,
        package_root: &PathBuf,
        schema_id: UnitHash,
        context_id: UnitHash,
        source: InputSource,
        on_network_mount: bool,
        fine_grain_locking: bool,
    ) -> (r: Result<Self, SelectError>)
        ensures
            r is Err <==> on_network_mount && fine_grain_locking,
            r matches Err(e) ==> e == SelectError::LockingUnsupported,
            r matches Ok(site) ==> site@ == site_of(
                build_root@,
                package_name@,
                package_root@,
                schema_id,
                context_id,
                source,
                !on_network_mount,
            ),
    {
        let root = build_root.join_text(".input-variants").join_text("v1");
        let id = schema_id.to_text();
        let place = PathBuf::new(source.directory()).join_text(package_name).join_text(
            id.as_str(),
        );
        let schema_path = root.join_text("schemas").join(&place).with_extension("json");
        let records_dir = root.join_text("records").join(&place);
        let schema_lock = if on_network_mount {
            if fine_grain_locking {
                return Err(SelectError::LockingUnsupported);
            }
            None
        } else {
            Some(root.join_text("locks").join(&place.with_extension("lock")))
        };
        Ok(
            VariantSite {
                source,
                schema_id,
                context_id,
                build_root: build_root.clone(),
                package_root: package_root.clone(),
                schema_path,
                records_dir,
                schema_lock,
            },
        )
    }

    /// The file that the unit's schema is kept in.
    pub fn schema_path(&self) -> (r: &PathBuf)
        ensures
            r@ == self@.schema_path,
    {
        &self.schema_path
    }

    /// The directory that the unit's records are kept in.
    pub fn records_dir(&self) -> (r: &PathBuf)
        ensures
            r@ == self@.records_dir,
    {
        &self.records_dir
    }

    /// The file to hold locked while the registry is read or changed.
    pub fn schema_lock(&self) -> (r: &Option<PathBuf>)
        ensures
            optional_path(*r) == self@.schema_lock,
    {
        &self.schema_lock
    }

    /// The source and the identity that the unit's schema must have.
    pub fn schema_key(&self) -> (r: (InputSource, UnitHash))
        ensures
            r.0 == self@.source,
            r.1 == self@.schema_id,
    {
        (self.source, self.schema_id)
    }

    /// The roots that tracked files are relative to.
    pub fn roots(&self) -> (r: (&PathBuf, &PathBuf))
        ensures
            r.0@ == self@.package_root,
            r.1@ == self@.build_root,
    {
        (&self.package_root, &self.build_root)
    }
}

/// The records of this context with these values.
pub open spec fn matching(
    records: Seq<VariantModel>,
    context_id: Seq<char>,
    values: Seq<(Seq<char>, EncodedModel)>,
) -> Seq<VariantModel>
    decreases records.len(),
{
    if records.len() == 0 {
        records
    } else {
        let before = matching(records.drop_last(), context_id, values);
        if records.last().context_id == context_id && records.last().values == values {
            before.push(records.last())
        } else {
            before
        }
    }
}

/// The records none of whose files has changed.
pub open spec fn fresh(
    records: Seq<VariantModel>,
    package_root: Seq<u8>,
    build_root: Seq<u8>,
    seen: Seq<(Seq<u8>, Option<FileStamp>)>,
) -> Seq<VariantModel>
    decreases records.len(),
{
    if records.len() == 0 {
        records
    } else {
        let before = fresh(records.drop_last(), package_root, build_root, seen);
        if record_is_stale(records.last(), package_root, build_root, seen) {
            before
        } else {
            before.push(records.last())
        }
    }
}

/// The first record with this key.
pub open spec fn with_key(records: Seq<VariantModel>, key: u64) -> Option<VariantModel>
    decreases records.len(),
{
    if records.len() == 0 {
        None
    } else if records[0].key == key {
        Some(records[0])
    } else {
        with_key(records.skip(1), key)
    }
}

/// The record to use: the one with the preferred key, or else the first.
pub open spec fn preferred(records: Seq<VariantModel>, key: u64) -> Option<VariantModel> {
    if records.len() == 0 {
        None
    } else {
        match with_key(records, key) {
            Some(record) => Some(record),
            None => Some(records[0]),
        }
    }
}

/// What is known about a unit when its branch is selected.
pub struct Known {
    pub schema: Option<SchemaModel>,
    pub records: Seq<VariantModel>,
    pub seen: Seq<(Seq<u8>, Option<FileStamp>)>,
}

/// The values that the branch is selected by.
pub open spec fn selecting_values(e: EnvironmentModel, known: Known) -> Seq<
    (Seq<char>, EncodedModel),
> {
    match known.schema {
        Some(schema) => values_of(e, schema.names),
        None => Seq::empty(),
    }
}

/// The records of this unit's branch.
pub open spec fn candidates(site: SiteModel, e: EnvironmentModel, known: Known) -> Seq<VariantModel> {
    matching(
        known.records,
        key_text_of(site.context_id.value),
        selecting_values(e, known),
    )
}

/// The records of this unit's branch that can be used.
pub open spec fn usable(site: SiteModel, e: EnvironmentModel, known: Known) -> Seq<VariantModel> {
    fresh(candidates(site, e, known), site.package_root, site.build_root, known.seen)
}

/// The branch cannot be told yet: all its records are stale, or nothing is known
/// of it while other builds run at the same time.
pub open spec fn is_provisional(
    site: SiteModel,
    e: EnvironmentModel,
    known: Known,
    fine_grain_locking: bool,
) -> bool {
    (candidates(site, e, known).len() > 0 && usable(site, e, known).len() == 0) || (known.schema
        is None && fine_grain_locking)
}

/// The record that the branch is taken from.
pub open spec fn selected_record(
    site: SiteModel,
    e: EnvironmentModel,
    known: Known,
    fine_grain_locking: bool,
) -> Option<VariantModel> {
    if is_provisional(site, e, known, fine_grain_locking) {
        None
    } else {
        preferred(usable(site, e, known), provisional_key_of(e))
    }
}

/// The key of the branch.
pub open spec fn selected_key(
    site: SiteModel,
    e: EnvironmentModel,
    known: Known,
    fine_grain_locking: bool,
) -> u64 {
    if is_provisional(site, e, known, fine_grain_locking) {
        provisional_key_of(e)
    } else {
        match selected_record(site, e, known, fine_grain_locking) {
            Some(record) => record.key,
            None => if selecting_values(e, known).len() == 0 {
                0
            } else {
                variant_key_of(selecting_values(e, known))
            },
        }
    }
}

/// The selected branch of a unit.
#[verifier::ext_equal]
pub struct BranchModel {
    pub key: u64,
    pub needs_refresh: bool,
    pub site: SiteModel,
    pub environment: EnvironmentModel,
}

/// The selected branch of a unit.
#[derive(Debug)]
pub struct InputVariant {
    key: u64,
    needs_refresh: bool,
    site: VariantSite,
    environment: InputEnvironment,
}

impl View for InputVariant {
    type V = BranchModel;

    closed spec fn view(&self) -> BranchModel {
        BranchModel {
            key: self.key,
            needs_refresh: self.needs_refresh,
            site: self.site@,
            environment: self.environment@,
        }
    }
}

impl Clone for InputVariant {
    fn clone(&self) -> (r: Self)
        ensures
            r@ == self@,
    {
        InputVariant {
            key: self.key,
            needs_refresh: self.needs_refresh,
            site: self.site.clone(),
            environment: self.environment.clone(),
        }
    }
}

/// A selected branch, and the record to write back, marked as used.
pub struct Selected {
    pub variant: InputVariant,
    pub touched: Option<VariantRecord>,
}

fn matching_records(
    records: &Vec<VariantRecord>,
    context_id: &str,
    values: &Vec<(String, EncodedValue)>,
) -> (r: Vec<VariantRecord>)
    ensures
        views(r@) == matching(views(records@), context_id@, views(values@)),
{
    let ghost all = views(records@);
    let mut r: Vec<VariantRecord> = Vec::new();
    let mut i: usize = 0;
    assert(views(r@) =~= matching(all.take(0), context_id@, views(values@)));
    while i < records.len()
        invariant
            i <= records@.len(),
            all == views(records@),
            views(r@) == matching(all.take(i as int), context_id@, views(values@)),
        decreases records@.len() - i,
    {
        proof {
            assert(all.take(i + 1).drop_last() =~= all.take(i as int));
            assert(all.take(i + 1).last() == records@[i as int]@);
        }
        let ghost before = r@;
        if text_equal(records[i].context_id.as_str(), context_id) && values_equal(
            &records[i].values,
            values,
        ) {
            r.push(records[i].clone());
            assert(views(r@) =~= views(before).push(records@[i as int]@));
        }
        i = i + 1;
    }
    assert(all.take(i as int) =~= all);
    r
}

fn fresh_records(
    records: &Vec<VariantRecord>,
    package_root: &PathBuf,
    build_root: &PathBuf,
    seen: &Vec<ObservedFile>,
) -> (r: Vec<VariantRecord>)
    ensures
        views(r@) == fresh(views(records@), package_root@, build_root@, views(seen@)),
{
    let ghost all = views(records@);
    let mut r: Vec<VariantRecord> = Vec::new();
    let mut i: usize = 0;
    assert(views(r@) =~= fresh(all.take(0), package_root@, build_root@, views(seen@)));
    while i < records.len()
        invariant
            i <= records@.len(),
            all == views(records@),
            views(r@) == fresh(all.take(i as int), package_root@, build_root@, views(seen@)),
        decreases records@.len() - i,
    {
        proof {
            assert(all.take(i + 1).drop_last() =~= all.take(i as int));
            assert(all.take(i + 1).last() == records@[i as int]@);
        }
        let ghost before = r@;
        if !records[i].is_stale(package_root, build_root, seen) {
            r.push(records[i].clone());
            assert(views(r@) =~= views(before).push(records@[i as int]@));
        }
        i = i + 1;
    }
    assert(all.take(i as int) =~= all);
    r
}

fn preferred_record(records: &Vec<VariantRecord>, key: u64) -> (r: Option<VariantRecord>)
    ensures
        optional_variant(r) == preferred(views(records@), key),
{
    if records.len() == 0 {
        return None;
    }
    let ghost all = views(records@);
    let mut i: usize = 0;
    assert(all.skip(0) =~= all);
    while i < records.len()
        invariant
            i <= records@.len(),
            all == views(records@),
            all.len() > 0,
            with_key(all, key) == with_key(all.skip(i as int), key),
        decreases records@.len() - i,
    {
        proof {
            assert(all.skip(i as int).skip(1) =~= all.skip(i + 1));
            assert(all.skip(i as int)[0] == records@[i as int]@);
        }
        if records[i].key == key {
            return Some(records[i].clone());
        }
        i = i + 1;
    }
    Some(records[0].clone())
}

impl InputVariant {
    /// Selects the branch of a unit at the time `now`, from its schema and
    /// records as they were accepted and from what is seen of tracked files.
    ///
    /// Until the observed names are known, the whole visible environment is the
    /// only safe way to tell apart builds that start at the same time; a
    /// published record narrows that down to the values observed.
    pub fn select(
        site: VariantSite,
        environment: &InputEnvironment,
        schema: &Option<InputSchema>,
        records: &Vec<VariantRecord>,
        seen: &Vec<ObservedFile>,
        fine_grain_locking: bool,
        now: u64,
    ) -> (r: Selected)
        ensures
            ({
                let known = Known {
                    schema: optional_schema(*schema),
                    records: views(records@),
                    seen: views(seen@),
                };
                let e = environment@;
                &&& r.variant@ == (BranchModel {
                    key: selected_key(site@, e, known, fine_grain_locking),
                    needs_refresh: is_provisional(site@, e, known, fine_grain_locking),
                    site: site@,
                    environment: e,
                })
                &&& optional_variant(r.touched) == match selected_record(
                    site@,
                    e,
                    known,
                    fine_grain_locking,
                ) {
                    Some(record) => Some(VariantModel { last_used: now, ..record }),
                    None => None,
                }
            }),
    {
        let ghost known = Known {
            schema: optional_schema(*schema),
            records: views(records@),
            seen: views(seen@),
        };
        let values = match schema {
            Some(schema) => environment.values(&schema.names),
            None => Vec::new(),
        };
        assert(views(values@) =~= selecting_values(environment@, known));
        let context_key = site.context_id.to_text();
        let found = matching_records(records, context_key.as_str(), &values);
        let usable = fresh_records(&found, &site.package_root, &site.build_root, seen);
        let records_stale: bool = found.len() > 0 && usable.len() == 0;
        let provisional: bool = records_stale || (schema.is_none() && fine_grain_locking);
        assert(views(found@).len() == found@.len());
        assert(views(usable@).len() == usable@.len());
        let mut touched: Option<VariantRecord> = None;
        let key: u64 = if provisional {
            environment.provisional_key()
        } else {
            match preferred_record(&usable, environment.provisional_key()) {
                Some(chosen) => {
                    let mut record = chosen;
                    record.last_used = now;
                    let key: u64 = record.key;
                    touched = Some(record);
                    key
                },
                None => if values.len() == 0 {
                    0
                } else {
                    variant_key(&values)
                },
            }
        };
        Selected {
            variant: InputVariant {
                key,
                needs_refresh: provisional,
                site,
                environment: environment.clone(),
            },
            touched,
        }
    }

    /// Whether the branch is other than the plain one.
    pub fn is_branched(&self) -> (r: bool)
        ensures
            r == (self@.key != 0),
    {
        self.key != 0
    }

    /// Whether the branch has to be built anew to know what it depends on.
    pub fn needs_refresh(&self) -> (r: bool)
        ensures
            r == self@.needs_refresh,
    {
        self.needs_refresh
    }

    /// The key of the branch.
    pub fn key(&self) -> (r: u64)
        ensures
            r == self@.key,
    {
        self.key
    }

    /// Where the unit's branches are kept.
    pub fn site(&self) -> (r: &VariantSite)
        ensures
            r@ == self@.site,
    {
        &self.site
    }

    /// Writes the branch to a hasher. The plain branch leaves no trace.
    pub fn hash(&self, hasher: &mut StableHasher)
        ensures
            final(hasher)@ == old(hasher)@ + branch_stream(self@),
    {
        let ghost before = hasher@;
        if self.key != 0 {
            let tag: u8 = match self.site.source {
                InputSource::BuildScriptEnv => 0,
                InputSource::RustcEnv => 1,
            };
            hasher.write_u8(tag);
            hasher.write_u64(self.key);
        }
        assert(hasher@ =~= before + branch_stream(self@));
    }
}

/// What a branch writes to a hasher.
pub open spec fn branch_stream(v: BranchModel) -> Seq<u8> {
    if v.key != 0 {
        seq![v.site.source.tag()] + spec_u64_to_le_bytes(v.key)
    } else {
        Seq::empty()
    }
}

/// The names known before and those observed now: each once, in order.
pub open spec fn merged_names(previous: Option<SchemaModel>, names: Seq<Seq<char>>) -> Seq<Seq<char>> {
    sorted_set(
        (match previous {
            Some(schema) => schema.names,
            None => Seq::empty(),
        }) + names,
        |a: Seq<char>, b: Seq<char>| text_le(a, b),
    )
}

/// A schema was there, and its names are not all.
pub open spec fn names_expand(previous: Option<SchemaModel>, names: Seq<Seq<char>>) -> bool {
    previous matches Some(schema) && schema.names != merged_names(previous, names)
}

/// The generation of the names: the next one where they expand.
pub open spec fn next_generation(previous: Option<SchemaModel>, names: Seq<Seq<char>>) -> int {
    match previous {
        Some(schema) => if names_expand(previous, names) {
            schema.generation + 1
        } else {
            schema.generation as int
        },
        None => 0,
    }
}

/// What a finished build leaves in the registry.
pub struct RecordedModel {
    pub schema: SchemaModel,
    pub drop_records: bool,
    pub record: VariantModel,
}

/// What a build of the branch leaves in the registry, after it has observed
/// these names and depended on these paths.
pub open spec fn recorded(
    v: BranchModel,
    names: Seq<Seq<char>>,
    paths: Seq<Seq<u8>>,
    previous: Option<SchemaModel>,
    seen: Seq<(Seq<u8>, Option<FileStamp>)>,
    now: u64,
) -> RecordedModel {
    let generation = next_generation(previous, names) as u64;
    RecordedModel {
        schema: SchemaModel {
            version: FORMAT_VERSION,
            source: v.site.source,
            schema_id: key_text_of(v.site.schema_id.value),
            generation,
            names: merged_names(previous, names),
        },
        drop_records: names_expand(previous, names),
        record: VariantModel {
            version: FORMAT_VERSION,
            generation,
            context_id: key_text_of(v.site.context_id.value),
            key: v.key,
            values: values_of(v.environment, merged_names(previous, names)),
            tracked_paths: tracked_set(paths, v.site.package_root, v.site.build_root, seen),
            created: now,
            last_used: now,
        },
    }
}

/// The schema and the record to write, and whether the unit's records are to be
/// removed first because they do not know all names.
pub struct Recorded {
    pub schema: InputSchema,
    pub drop_records: bool,
    pub record: VariantRecord,
}

impl View for Recorded {
    type V = RecordedModel;

    open spec fn view(&self) -> RecordedModel {
        RecordedModel {
            schema: self.schema@,
            drop_records: self.drop_records,
            record: self.record@,
        }
    }
}

fn same_texts(a: &Vec<String>, b: &Vec<String>) -> (r: bool)
    ensures
        r == (views(a@) == views(b@)),
{
    if a.len() != b.len() {
        assert(views(a@).len() != views(b@).len());
        return false;
    }
    let mut i: usize = 0;
    while i < a.len()
        invariant
            i <= a@.len(),
            a@.len() == b@.len(),
            forall|k: int| 0 <= k < i ==> views(a@)[k] == views(b@)[k],
        decreases a@.len() - i,
    {
        if !text_equal(a[i].as_str(), b[i].as_str()) {
            assert(views(a@)[i as int] != views(b@)[i as int]);
            return false;
        }
        i = i + 1;
    }
    assert(views(a@) =~= views(b@));
    true
}

/// The names known before and those observed now: each once, in order.
fn merge_names(previous: &Option<InputSchema>, names: &Vec<String>) -> (r: Vec<String>)
    ensures
        views(r@) == merged_names(optional_schema(*previous), views(names@)),
{
    let mut all = match previous {
        Some(schema) => copy_texts(&schema.names),
        None => Vec::new(),
    };
    let ghost known = views(all@);
    let mut observed = copy_texts(names);
    let ghost head = all@;
    let ghost tail = observed@;
    all.append(&mut observed);
    proof {
        assert(views(all@) =~= views(head) + views(tail));
        assert(known =~= match optional_schema(*previous) {
            Some(schema) => schema.names,
            None => Seq::empty(),
        });
        assert(rank::<String>() =~= (|a: Seq<char>, b: Seq<char>| text_le(a, b)));
    }
    sort_unique(all)
}

/// Whether a schema was there and its names are not all, so that recording these
/// names starts a new generation.
pub fn expands_names(previous: &Option<InputSchema>, names: &Vec<String>) -> (r: bool)
    ensures
        r == names_expand(optional_schema(*previous), views(names@)),
{
    match previous {
        Some(schema) => !same_texts(&schema.names, &merge_names(previous, names)),
        None => false,
    }
}

impl InputVariant {
    /// The files to look at before the paths that a build depended on are
    /// recorded.
    pub fn tracked_files(&self, paths: &Vec<PathBuf>) -> (r: Vec<PathBuf>)
        ensures
            r@.len() == paths@.len(),
            forall|k: int|
                0 <= k < r@.len() ==> (#[trigger] r@[k])@ == located(
                    paths@[k]@,
                    self@.site.package_root,
                ),
    {
        let mut r: Vec<PathBuf> = Vec::new();
        let mut i: usize = 0;
        while i < paths.len()
            invariant
                i <= paths@.len(),
                r@.len() == i,
                forall|k: int|
                    0 <= k < i ==> (#[trigger] r@[k])@ == located(
                        paths@[k]@,
                        self@.site.package_root,
                    ),
            decreases paths@.len() - i,
        {
            r.push(locate(&paths[i], &self.site.package_root));
            i = i + 1;
        }
        r
    }

    /// What a build of this branch leaves in the registry at the time `now`,
    /// after it has observed these names and depended on these paths. `previous`
    /// is the schema found there, and `seen` what is seen of the files.
    pub fn record_names(
        &self,
        names: &Vec<String>,
        paths: &Vec<PathBuf>,
        previous: &Option<InputSchema>,
        seen: &Vec<ObservedFile>,
        now: u64,
    ) -> (r: Recorded)
        requires
            next_generation(optional_schema(*previous), views(names@)) <= u64::MAX,
        ensures
            r@ == recorded(
                self@,
                views(names@),
                views(paths@),
                optional_schema(*previous),
                views(seen@),
                now,
            ),
    {
        let merged = merge_names(previous, names);
        let tracked_paths = track_all(
            paths,
            &self.site.package_root,
            &self.site.build_root,
            seen,
        );
        let expanded: bool = expands_names(previous, names);
        let generation: u64 = match previous {
            Some(schema) => if expanded {
                schema.generation + 1
            } else {
                schema.generation
            },
            None => 0,
        };
        let values = self.environment.values(&merged);
        Recorded {
            schema: InputSchema {
                version: FORMAT_VERSION,
                source: self.site.source,
                schema_id: self.site.schema_id.to_text(),
                generation,
                names: merged,
            },
            drop_records: expanded,
            record: VariantRecord {
                version: FORMAT_VERSION,
                generation,
                context_id: self.site.context_id.to_text(),
                key: self.key,
                values,
                tracked_paths,
                created: now,
                last_used: now,
            },
        }
    }
}

/// Nothing that a build has just recorded has changed, as long as the same is
/// seen.
pub proof fn recorded_branch_is_fresh(
    v: BranchModel,
    names: Seq<Seq<char>>,
    paths: Seq<Seq<u8>>,
    previous: Option<SchemaModel>,
    seen: Seq<(Seq<u8>, Option<FileStamp>)>,
    now: u64,
)
    ensures
        !record_is_stale(
            recorded(v, names, paths, previous, seen, now).record,
            v.site.package_root,
            v.site.build_root,
            seen,
        ),
{
    let record = recorded(v, names, paths, previous, seen, now).record;
    let each = tracked_each(paths, v.site.package_root, v.site.build_root, seen);
    let le = |a: TrackedModel, b: TrackedModel| tracked_le(a, b);
    tracked_le_is_total_preorder();
    sorted_set_is_strictly_ranked(each, le);
    assert forall|k: int| 0 <= k < record.tracked_paths.len() implies !has_changed(
        #[trigger] record.tracked_paths[k],
        v.site.package_root,
        v.site.build_root,
        seen,
    ) by {
        assert(sorted_set(each, le).contains(record.tracked_paths[k]));
        assert(each.contains(record.tracked_paths[k]));
        let j = choose|j: int| 0 <= j < each.len() && each[j] == record.tracked_paths[k];
        tracking_keeps_the_file(paths[j], v.site.package_root, v.site.build_root, seen);
    }
}

pub(crate) proof fn lemma_matching(
    records: Seq<VariantModel>,
    context_id: Seq<char>,
    values: Seq<(Seq<char>, EncodedModel)>,
)
    ensures
        forall|r: VariantModel| #[trigger]
            matching(records, context_id, values).contains(r) <==> records.contains(r)
                && r.context_id == context_id && r.values == values,
    decreases records.len(),
{
    if records.len() > 0 {
        let init = records.drop_last();
        lemma_matching(init, context_id, values);
        let before = matching(init, context_id, values);
        let after = matching(records, context_id, values);
        assert forall|r: VariantModel| #[trigger] after.contains(r) <==> records.contains(r)
            && r.context_id == context_id && r.values == values by {
            assert(before.contains(r) <==> init.contains(r) && r.context_id == context_id
                && r.values == values);
            lemma_contains_last(records, r);
            if after != before {
                lemma_contains_last(after, r);
                assert(after.drop_last() =~= before);
            }
        }
    }
}

proof fn lemma_contains_last(s: Seq<VariantModel>, r: VariantModel)
    requires
        s.len() > 0,
    ensures
        s.contains(r) <==> s.drop_last().contains(r) || s.last() == r,
{
    if s.contains(r) {
        let k = choose|k: int| 0 <= k < s.len() && s[k] == r;
        if k < s.len() - 1 {
            assert(s.drop_last()[k] == r);
        }
    }
    if s.drop_last().contains(r) {
        let k = choose|k: int| 0 <= k < s.drop_last().len() && s.drop_last()[k] == r;
        assert(s[k] == r);
    }
    if s.last() == r {
        assert(s[s.len() - 1] == r);
    }
}

pub(crate) proof fn lemma_fresh(
    records: Seq<VariantModel>,
    package_root: Seq<u8>,
    build_root: Seq<u8>,
    seen: Seq<(Seq<u8>, Option<FileStamp>)>,
)
    ensures
        forall|r: VariantModel| #[trigger]
            fresh(records, package_root, build_root, seen).contains(r) <==> records.contains(r)
                && !record_is_stale(r, package_root, build_root, seen),
    decreases records.len(),
{
    if records.len() > 0 {
        let init = records.drop_last();
        lemma_fresh(init, package_root, build_root, seen);
        let before = fresh(init, package_root, build_root, seen);
        let after = fresh(records, package_root, build_root, seen);
        assert forall|r: VariantModel| #[trigger] after.contains(r) <==> records.contains(r)
            && !record_is_stale(r, package_root, build_root, seen) by {
            assert(before.contains(r) <==> init.contains(r) && !record_is_stale(
                r,
                package_root,
                build_root,
                seen,
            ));
            lemma_contains_last(records, r);
            if after != before {
                lemma_contains_last(after, r);
                assert(after.drop_last() =~= before);
            }
        }
    }
}

pub(crate) proof fn lemma_with_key(records: Seq<VariantModel>, key: u64)
    ensures
        with_key(records, key) matches Some(r) ==> records.contains(r) && r.key == key,
        with_key(records, key) is None ==> forall|r: VariantModel| #[trigger]
            records.contains(r) ==> r.key != key,
    decreases records.len(),
{
    if records.len() > 0 {
        let rest = records.skip(1);
        lemma_with_key(rest, key);
        if records[0].key == key {
            assert(records.contains(records[0]));
        } else if with_key(rest, key) is Some {
            let r = with_key(rest, key)->0;
            let k = choose|k: int| 0 <= k < rest.len() && rest[k] == r;
            assert(records[k + 1] == r);
        } else {
            assert forall|r: VariantModel| #[trigger] records.contains(r) implies r.key != key by {
                let k = choose|k: int| 0 <= k < records.len() && records[k] == r;
                if k > 0 {
                    assert(rest[k - 1] == r);
                    assert(rest.contains(r));
                }
            }
        }
    }
}

/// A build that has recorded its branch finds it again: wherever the record that
/// it left is among those of the unit, with the schema that it left, the same
/// environment and the same files, a record of the same context with the same
/// values is selected and nothing has to be refreshed. It is this branch where
/// all such records are of it.
pub proof fn recorded_branch_is_selected_again(
    v: BranchModel,
    names: Seq<Seq<char>>,
    paths: Seq<Seq<u8>>,
    previous: Option<SchemaModel>,
    records: Seq<VariantModel>,
    seen: Seq<(Seq<u8>, Option<FileStamp>)>,
    now: u64,
    fine_grain_locking: bool,
)
    requires
        records.contains(recorded(v, names, paths, previous, seen, now).record),
    ensures
        ({
            let left = recorded(v, names, paths, previous, seen, now);
            let known = Known { schema: Some(left.schema), records, seen };
            &&& !is_provisional(v.site, v.environment, known, fine_grain_locking)
            &&& selected_record(v.site, v.environment, known, fine_grain_locking) matches Some(r)
                && {
                &&& records.contains(r)
                &&& r.context_id == left.record.context_id
                &&& r.values == left.record.values
                &&& !record_is_stale(r, v.site.package_root, v.site.build_root, seen)
                &&& selected_key(v.site, v.environment, known, fine_grain_locking) == r.key
            }
            &&& (forall|r: VariantModel| #[trigger]
                records.contains(r) && r.context_id == left.record.context_id && r.values
                    == left.record.values ==> r.key == v.key) ==> selected_key(
                v.site,
                v.environment,
                known,
                fine_grain_locking,
            ) == v.key
        }),
{
    let left = recorded(v, names, paths, previous, seen, now);
    let known = Known { schema: Some(left.schema), records, seen };
    recorded_branch_is_fresh(v, names, paths, previous, seen, now);
    let context = key_text_of(v.site.context_id.value);
    let values = selecting_values(v.environment, known);
    let found = candidates(v.site, v.environment, known);
    let good = usable(v.site, v.environment, known);
    lemma_matching(records, context, values);
    lemma_fresh(found, v.site.package_root, v.site.build_root, seen);
    assert(found.contains(left.record));
    assert(good.contains(left.record));
    assert(good.len() > 0);
    lemma_with_key(good, provisional_key_of(v.environment));
    let r = selected_record(v.site, v.environment, known, fine_grain_locking)->0;
    assert(good.contains(good[0]));
    assert(good.contains(r));
    assert(found.contains(r));
    assert(records.contains(r));
}

/// What a build leaves is read back: its schema fits the unit, and its record
/// stands in a record file and fits the schema's generation.
pub proof fn recorded_branch_is_read_back(
    v: BranchModel,
    names: Seq<Seq<char>>,
    paths: Seq<Seq<u8>>,
    previous: Option<SchemaModel>,
    seen: Seq<(Seq<u8>, Option<FileStamp>)>,
    now: u64,
)
    ensures
        ({
            let left = recorded(v, names, paths, previous, seen, now);
            &&& schema_fits(left.schema, v.site.source, v.site.schema_id)
            &&& record_fits(Some(left.record), left.schema.generation)
            &&& is_json(
                join(
                    v.site.records_dir,
                    record_file_name(left.record.context_id, left.record.key),
                ),
            )
        }),
{
    let left = recorded(v, names, paths, previous, seen, now);
    let context = v.site.context_id.value;
    let stem = encode_utf8(left.record.context_id) + encode_utf8("-"@) + key_digits(v.key);
    key_text_bytes(context);
    key_digits_are_digits(context);
    key_digits_are_digits(v.key);
    key_digits_len(context);
    key_digits_len(v.key);
    reveal_strlit("-");
    is_ascii_chars_encode_utf8("-"@);
    assert(encode_utf8("-"@) =~= seq![45u8]);
    assert forall|i: int| 0 <= i < stem.len() implies #[trigger] stem[i] != SEPARATOR by {
        if i < 16 {
            assert(stem[i] == key_digits(context)[i]);
        } else if i == 16 {
            assert(stem[i] == 45);
        } else {
            assert(stem[i] == key_digits(v.key)[i - 17]);
        }
    }
    json_name_is_json(v.site.records_dir, stem);
    assert(record_file_name(left.record.context_id, left.record.key) =~= stem + encode_utf8(
        ".json"@,
    ));
}

/// A branch is taken from a record only if that record is of the unit's context,
/// has the values that the environment gives now, and depends on no file that
/// has changed. It is found wherever there is one.
pub proof fn selected_record_is_usable(
    site: SiteModel,
    e: EnvironmentModel,
    known: Known,
    fine_grain_locking: bool,
)
    ensures
        ({
            let usable_record = |r: VariantModel|
                known.records.contains(r) && r.context_id == key_text_of(site.context_id.value)
                    && r.values == selecting_values(e, known) && !record_is_stale(
                    r,
                    site.package_root,
                    site.build_root,
                    known.seen,
                );
            &&& selected_record(site, e, known, fine_grain_locking) matches Some(r)
                ==> usable_record(r)
            &&& (known.schema is Some && exists|r: VariantModel| #[trigger] usable_record(r))
                ==> selected_record(site, e, known, fine_grain_locking) is Some && !is_provisional(
                site,
                e,
                known,
                fine_grain_locking,
            )
        }),
{
    let context = key_text_of(site.context_id.value);
    let values = selecting_values(e, known);
    let found = candidates(site, e, known);
    let good = usable(site, e, known);
    lemma_matching(known.records, context, values);
    lemma_fresh(found, site.package_root, site.build_root, known.seen);
    lemma_with_key(good, provisional_key_of(e));
    let usable_record = |r: VariantModel|
        known.records.contains(r) && r.context_id == key_text_of(site.context_id.value) && r.values
            == selecting_values(e, known) && !record_is_stale(
            r,
            site.package_root,
            site.build_root,
            known.seen,
        );
    if selected_record(site, e, known, fine_grain_locking) is Some {
        let r = selected_record(site, e, known, fine_grain_locking)->0;
        assert(good.len() > 0);
        assert(good.contains(good[0]));
        assert(good.contains(r));
        assert(found.contains(r));
    }
    if known.schema is Some && exists|r: VariantModel| #[trigger] usable_record(r) {
        let r = choose|r: VariantModel| #[trigger] usable_record(r);
        assert(found.contains(r));
        assert(good.contains(r));
        assert(good.len() > 0);
    }
}

/// Where several records of the branch can be used, the one that this very
/// environment made is preferred.
pub proof fn own_record_is_preferred(
    site: SiteModel,
    e: EnvironmentModel,
    known: Known,
    fine_grain_locking: bool,
    own: VariantModel,
)
    requires
        known.schema is Some,
        usable(site, e, known).contains(own),
        own.key == provisional_key_of(e),
    ensures
        selected_key(site, e, known, fine_grain_locking) == own.key,
{
    let good = usable(site, e, known);
    lemma_with_key(good, own.key);
    assert(good.len() > 0);
}

/// What is recorded does not depend on the order in which names were observed,
/// nor on how often.
pub proof fn recorded_ignores_declaration_order(
    v: BranchModel,
    a: Seq<Seq<char>>,
    b: Seq<Seq<char>>,
    paths: Seq<Seq<u8>>,
    previous: Option<SchemaModel>,
    seen: Seq<(Seq<u8>, Option<FileStamp>)>,
    now: u64,
)
    requires
        forall|name: Seq<char>| #[trigger] a.contains(name) <==> b.contains(name),
    ensures
        recorded(v, a, paths, previous, seen, now) == recorded(v, b, paths, previous, seen, now),
{
    let le = |x: Seq<char>, y: Seq<char>| text_le(x, y);
    let head = match previous {
        Some(schema) => schema.names,
        None => Seq::empty(),
    };
    text_le_is_total_order();
    assert forall|name: Seq<char>| #[trigger] (head + a).contains(name) <==> (head + b).contains(
        name,
    ) by {
        lemma_contains_either(head, a, name);
        lemma_contains_either(head, b, name);
        assert(a.contains(name) <==> b.contains(name));
    }
    sorted_set_ignores_order(head + a, head + b, le);
}

pub(crate) proof fn lemma_contains_either(a: Seq<Seq<char>>, b: Seq<Seq<char>>, name: Seq<char>)
    ensures
        (a + b).contains(name) <==> a.contains(name) || b.contains(name),
{
    let s = a + b;
    if s.contains(name) {
        let k = choose|k: int| 0 <= k < s.len() && s[k] == name;
        if k < a.len() {
            assert(a[k] == name);
        } else {
            assert(b[k - a.len()] == name);
        }
    }
    if a.contains(name) {
        let k = choose|k: int| 0 <= k < a.len() && a[k] == name;
        assert(s[k] == name);
    }
    if b.contains(name) {
        let k = choose|k: int| 0 <= k < b.len() && b[k] == name;
        assert(s[a.len() + k] == name);
    }
}

/// A schema never forgets a name: it holds those known before and those observed
/// now, and no others. Only where that adds to a schema does its generation
/// rise and are the records dropped; the record written has the generation of
/// the schema.
pub proof fn schema_grows(
    v: BranchModel,
    names: Seq<Seq<char>>,
    paths: Seq<Seq<u8>>,
    previous: Option<SchemaModel>,
    seen: Seq<(Seq<u8>, Option<FileStamp>)>,
    now: u64,
)
    requires
        next_generation(previous, names) <= u64::MAX,
    ensures
        ({
            let left = recorded(v, names, paths, previous, seen, now);
            &&& forall|name: Seq<char>| #[trigger]
                left.schema.names.contains(name) <==> names.contains(name) || (previous
                    matches Some(schema) && schema.names.contains(name))
            &&& left.record.generation == left.schema.generation
            &&& previous matches Some(schema) ==> {
                &&& left.drop_records <==> left.schema.names != schema.names
                &&& left.drop_records ==> left.schema.generation == schema.generation + 1
                &&& !left.drop_records ==> left.schema.generation == schema.generation
            }
            &&& previous is None ==> !left.drop_records && left.schema.generation == 0
        }),
{
    let head = match previous {
        Some(schema) => schema.names,
        None => Seq::empty(),
    };
    let le = |x: Seq<char>, y: Seq<char>| text_le(x, y);
    let left = recorded(v, names, paths, previous, seen, now);
    text_le_is_total_order();
    sorted_set_members(head + names, le);
    assert forall|name: Seq<char>| #[trigger]
        left.schema.names.contains(name) <==> names.contains(name) || (previous matches Some(schema)
            && schema.names.contains(name)) by {
        assert(sorted_set(head + names, le).contains(name) <==> (head + names).contains(name));
        lemma_contains_either(head, names, name);
    }
}

/// Observing the same again changes nothing of a schema.
pub proof fn schema_is_stable(
    v: BranchModel,
    names: Seq<Seq<char>>,
    paths: Seq<Seq<u8>>,
    previous: Option<SchemaModel>,
    seen: Seq<(Seq<u8>, Option<FileStamp>)>,
    now: u64,
)
    requires
        next_generation(previous, names) <= u64::MAX,
    ensures
        ({
            let left = recorded(v, names, paths, previous, seen, now);
            let again = recorded(v, names, paths, Some(left.schema), seen, now);
            &&& again.schema == left.schema
            &&& !again.drop_records
            &&& again.record == left.record
        }),
{
    let le = |x: Seq<char>, y: Seq<char>| text_le(x, y);
    let head = match previous {
        Some(schema) => schema.names,
        None => Seq::empty(),
    };
    let left = recorded(v, names, paths, previous, seen, now);
    let first = left.schema.names;
    text_le_is_total_order();
    sorted_set_members(head + names, le);
    assert forall|name: Seq<char>| #[trigger] (first + names).contains(name) <==> (head
        + names).contains(name) by {
        lemma_contains_either(first, names, name);
        lemma_contains_either(head, names, name);
        assert(sorted_set(head + names, le).contains(name) <==> (head + names).contains(name));
    }
    sorted_set_ignores_order(first + names, head + names, le);
}

} // verus!
