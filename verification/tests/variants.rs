//! Selecting and recording compilation branches by their observed inputs.

use std::path::Path;

use input_variants::environment::{EnvConfig, EnvVar, InputEnvironment};
use input_variants::hasher::StableHasher;
use input_variants::input_variant::{
    expands_names, InputVariant, SelectError, Selected, VariantSite,
};
use input_variants::path_buf::PathBuf;
use input_variants::tracking::{
    file_stamp, locate, track, track_all, FileStamp, ObservedFile, TrackedPath, TrackedRoot,
};
use input_variants::variants::{
    encode_value, load_records, load_schema, record_file, values_equal, variant_key, EncodedValue,
    InputSchema, InputSource, RecordEntry, SystemValue, UnitHash, VariantRecord, FORMAT_VERSION,
};
use rustc_stable_hash::StableSipHasher128;
use std::hash::{Hash, Hasher};

fn path(text: &str) -> PathBuf {
    PathBuf::new(text)
}

fn text(path: &PathBuf) -> String {
    String::from_utf8(path.as_bytes().to_vec()).unwrap()
}

fn names(names: &[&str]) -> Vec<String> {
    names.iter().map(|name| name.to_string()).collect()
}

fn config(vars: &[(&str, &str)]) -> EnvConfig {
    let mut config = EnvConfig::new();
    for (name, value) in vars {
        config.set(name, value.as_bytes().to_vec());
    }
    config
}

fn process(vars: &[(&str, &str)]) -> Vec<EnvVar> {
    vars.iter()
        .map(|(name, value)| EnvVar {
            name: name.as_bytes().to_vec(),
            value: value.as_bytes().to_vec(),
        })
        .collect()
}

fn environment(vars: &[(&str, &str)], inherited: &[(&str, &str)], inherit: bool) -> InputEnvironment {
    InputEnvironment::new(&config(vars), &process(inherited), inherit)
}

fn record(context_id: &str, generation: u64, key: u64) -> VariantRecord {
    VariantRecord {
        version: FORMAT_VERSION,
        generation,
        context_id: context_id.to_owned(),
        key,
        values: Vec::new(),
        tracked_paths: Vec::new(),
        created: 0,
        last_used: 0,
    }
}

fn site(on_network_mount: bool, fine_grain_locking: bool) -> Result<VariantSite, SelectError> {
    VariantSite::new(
        &path("/build"),
        "package",
        &path("/package"),
        UnitHash { value: 0x12 },
        UnitHash { value: 0xabcdef },
        InputSource::RustcEnv,
        on_network_mount,
        fine_grain_locking,
    )
}

fn select(
    environment: &InputEnvironment,
    schema: &Option<InputSchema>,
    records: &Vec<VariantRecord>,
    seen: &Vec<ObservedFile>,
    fine_grain_locking: bool,
) -> Selected {
    InputVariant::select(
        site(false, fine_grain_locking).unwrap(),
        environment,
        schema,
        records,
        seen,
        fine_grain_locking,
        77,
    )
}

#[test]
fn tests_variant_key_is_independent_of_declaration_order() {
    let environment = environment(&[("A", "one"), ("B", "two")], &[], true);
    let mut first = names(&["A", "B"]);
    let mut second = names(&["B", "A"]);
    first.sort();
    second.sort();
    assert_eq!(
        variant_key(&environment.values(&first)),
        variant_key(&environment.values(&second))
    );
}

#[test]
fn tests_values_distinguish_unset_empty_and_nonempty() {
    let unset = EncodedValue::Unset;
    let empty = encode_value(Some(SystemValue::Bytes(Vec::new())));
    let nonempty = encode_value(Some(SystemValue::Bytes(b"value".to_vec())));

    assert_ne!(unset, empty);
    assert_ne!(empty, nonempty);
    assert_ne!(unset, nonempty);
}

#[test]
fn an_environment_tells_unset_empty_and_full_values_apart() {
    let environment = environment(&[("EMPTY", ""), ("FULL", "value")], &[], false);
    let values = environment.values(&names(&["UNSET", "EMPTY", "FULL"]));
    assert_ne!(values[0].1, values[1].1);
    assert_ne!(values[1].1, values[2].1);
    assert_ne!(values[0].1, values[2].1);
}

#[test]
fn tests_non_utf8_values_have_stable_keys() {
    let value = vec![0x66, 0x80, 0x6f];
    assert_eq!(
        encode_value(Some(SystemValue::Bytes(value.clone()))),
        encode_value(Some(SystemValue::Bytes(value)))
    );
}

#[test]
fn bytes_that_are_no_text_are_recorded_in_hexadecimal() {
    assert_eq!(
        encode_value(Some(SystemValue::Bytes(vec![0x66, 0x80, 0x6f]))),
        EncodedValue::UnixBytes("66806f".to_owned())
    );
}

#[test]
fn wide_values_are_recorded_unit_by_unit() {
    let wide = |units: &[u16]| encode_value(Some(SystemValue::Wide(units.to_vec())));
    let lone = [0x66, 0xd800, 0x6f];
    assert_eq!(wide(&lone), EncodedValue::WindowsWide(lone.to_vec()));
    assert_eq!(wide(&lone), wide(&lone));
    assert_ne!(wide(&lone), wide(&[0x66, 0xfffd, 0x6f]));
    assert_ne!(wide(&[]), encode_value(None));
    assert_ne!(wide(&[]), encode_value(Some(SystemValue::Bytes(Vec::new()))));
    assert_eq!(encode_value(None), EncodedValue::Unset);
}

#[test]
fn tests_schema_generation_makes_old_records_ineligible() {
    let entries =
        vec![RecordEntry { path: path("/records/old.json"), record: Some(record("context", 0, 1)) }];
    let loaded = load_records(entries, Some(1));
    assert!(loaded.records.is_empty());
    assert_eq!(loaded.rejected, [path("/records/old.json")]);
}

#[test]
fn records_of_another_generation_are_rejected() {
    let entries = vec![
        RecordEntry { path: path("/records/b.json"), record: Some(record("context", 4, 2)) },
        RecordEntry { path: path("/records/a.json"), record: Some(record("context", 5, 1)) },
        RecordEntry { path: path("/records/c.lock"), record: None },
    ];
    let loaded = load_records(entries, Some(5));
    assert_eq!(loaded.records.len(), 1);
    assert_eq!(loaded.records[0].key, 1);
    assert_eq!(loaded.rejected, [path("/records/b.json")]);
}

#[test]
fn tests_malformed_records_are_removed_as_cache_misses() {
    let entries = vec![RecordEntry { path: path("/records/malformed.json"), record: None }];
    let loaded = load_records(entries, Some(0));
    assert!(loaded.records.is_empty());
    assert_eq!(loaded.rejected, [path("/records/malformed.json")]);
}

#[test]
fn records_of_another_format_are_rejected() {
    let mut other = record("context", 0, 1);
    other.version = FORMAT_VERSION + 1;
    let entries = vec![RecordEntry { path: path("/records/other.json"), record: Some(other) }];
    let loaded = load_records(entries, Some(0));
    assert!(loaded.records.is_empty());
    assert_eq!(loaded.rejected, [path("/records/other.json")]);
}

#[test]
fn without_a_schema_no_record_is_touched() {
    let entries = vec![RecordEntry { path: path("/records/malformed.json"), record: None }];
    let loaded = load_records(entries, None);
    assert!(loaded.records.is_empty());
    assert!(loaded.rejected.is_empty());
}

#[test]
fn tracked_paths_only_invalidate_their_variant() {
    let stamp = FileStamp { len: 5, modified_secs: 1, modified_nanos: 2 };
    let before = vec![
        ObservedFile { path: path("/root/first"), stamp: Some(stamp) },
        ObservedFile { path: path("/root/second"), stamp: Some(stamp) },
    ];
    let record = |file: &str| {
        let mut record = record("context", 0, 1);
        record.tracked_paths = vec![TrackedPath {
            root: TrackedRoot::Absolute,
            path: path(file),
            stamp: file_stamp(&before, &path(file)),
        }];
        record
    };
    let first = record("/root/first");
    let second = record("/root/second");

    let after = vec![ObservedFile { path: path("/root/first"), stamp: Some(stamp) }];

    assert!(!first.is_stale(&path("/root"), &path("/root"), &after));
    assert!(second.is_stale(&path("/root"), &path("/root"), &after));
}

#[test]
fn dependency_contexts_retain_separate_records() {
    let dir = path("/records");
    let files = ["first", "second"].map(|context| record_file(&dir, &record(context, 0, 1)));
    assert_ne!(files[0], files[1]);
    assert_eq!(text(&files[0]), "/records/first-0000000000000001.json");
    assert_eq!(text(&files[1]), "/records/second-0000000000000001.json");
    let entries = vec![
        RecordEntry { path: files[0].clone(), record: Some(record("first", 0, 1)) },
        RecordEntry { path: files[1].clone(), record: Some(record("second", 0, 1)) },
    ];
    assert_eq!(load_records(entries, Some(0)).records.len(), 2);
}

#[test]
fn files_are_tracked_relative_to_the_root_that_holds_them() {
    let stamp = FileStamp { len: 9, modified_secs: 8, modified_nanos: 7 };
    let seen = vec![ObservedFile { path: path("/package/src/lib.rs"), stamp: Some(stamp) }];
    let package = path("/package");
    let build = path("/build");
    let found = track(&path("src/lib.rs"), &package, &build, &seen);
    assert_eq!(found.root, TrackedRoot::Package);
    assert_eq!(text(&found.path), "src/lib.rs");
    assert_eq!(found.stamp, Some(stamp));
    assert_eq!(text(&found.resolve(&path("/moved"), &build)), "/moved/src/lib.rs");
    assert!(!found.is_stale(&package, &build, &seen));
    assert!(found.is_stale(&path("/moved"), &build, &seen));

    let found = track(&path("/build/out/x"), &package, &build, &seen);
    assert_eq!(found.root, TrackedRoot::Build);
    assert_eq!(text(&found.path), "out/x");
    assert_eq!(found.stamp, None);

    let found = track(&path("/etc/hosts"), &package, &build, &seen);
    assert_eq!(found.root, TrackedRoot::Absolute);
    assert_eq!(text(&found.path), "/etc/hosts");
    assert_eq!(text(&locate(&path("a"), &package)), "/package/a");
}

#[test]
fn tracked_files_are_in_order_and_named_once() {
    let paths = ["/etc/hosts", "b", "/build/x", "a", "./b"].map(path).to_vec();
    let found = track_all(&paths, &path("/package"), &path("/build"), &Vec::new());
    let listed: Vec<_> = found.iter().map(|t| (t.root, text(&t.path))).collect();
    assert_eq!(
        listed,
        [
            (TrackedRoot::Package, "a".to_owned()),
            (TrackedRoot::Package, "b".to_owned()),
            (TrackedRoot::Build, "x".to_owned()),
            (TrackedRoot::Absolute, "/etc/hosts".to_owned()),
        ]
    );
}

#[test]
fn the_site_of_a_variant_is_laid_out_below_the_build_root() {
    let site = site(false, true).unwrap();
    assert_eq!(
        text(site.schema_path()),
        "/build/.input-variants/v1/schemas/rustc-env/package/0000000000000012.json"
    );
    assert_eq!(
        text(site.records_dir()),
        "/build/.input-variants/v1/records/rustc-env/package/0000000000000012"
    );
    assert_eq!(
        site.schema_lock().as_ref().map(text),
        Some("/build/.input-variants/v1/locks/rustc-env/package/0000000000000012.lock".to_owned())
    );
    assert_eq!(UnitHash { value: 0x12 }.to_text(), "0000000000000012");
    assert_eq!(InputSource::BuildScriptEnv.directory(), "build-script-env");
}

#[test]
fn network_mounts_have_no_schema_lock_and_refuse_fine_grained_locking() {
    assert!(site(true, false).unwrap().schema_lock().is_none());
    assert_eq!(site(true, true).unwrap_err(), SelectError::LockingUnsupported);
}

#[test]
fn schemas_of_another_kind_are_not_used() {
    let schema = |version, source, id: &str| {
        Some(InputSchema {
            version,
            source,
            schema_id: id.to_owned(),
            generation: 3,
            names: names(&["A"]),
        })
    };
    let id = UnitHash { value: 0x12 };
    let own = "0000000000000012";
    let source = InputSource::RustcEnv;
    assert_eq!(load_schema(schema(FORMAT_VERSION, source, own), source, id).unwrap().generation, 3);
    assert!(load_schema(schema(FORMAT_VERSION + 1, source, own), source, id).is_none());
    assert!(load_schema(schema(FORMAT_VERSION, source, "12"), source, id).is_none());
    let other = InputSource::BuildScriptEnv;
    assert!(load_schema(schema(FORMAT_VERSION, other, own), source, id).is_none());
    assert!(load_schema(None, source, id).is_none());
}

#[test]
fn a_recorded_branch_is_selected_again() {
    let lean = environment(&[], &[("NATIVE_PATH", "lean")], true);
    let graphics = environment(&[], &[("NATIVE_PATH", "graphics")], true);
    let none = Vec::new();

    let first = select(&lean, &None, &Vec::new(), &none, false).variant;
    assert!(!first.is_branched());
    assert!(!first.needs_refresh());
    let recorded =
        first.record_names(&names(&["NATIVE_PATH"]), &Vec::new(), &None, &none, 50);
    assert_eq!(recorded.schema.names, ["NATIVE_PATH"]);
    assert_eq!(recorded.schema.generation, 0);
    assert!(!recorded.drop_records);
    assert_eq!(recorded.record.key, 0);
    assert_eq!((recorded.record.created, recorded.record.last_used), (50, 50));
    let schema = Some(recorded.schema);
    let mut records = vec![recorded.record];

    let second = select(&graphics, &schema, &records, &none, false);
    assert!(second.variant.is_branched());
    assert!(second.touched.is_none());
    let again = second.variant.record_names(
        &names(&["NATIVE_PATH"]),
        &Vec::new(),
        &schema,
        &none,
        60,
    );
    assert_eq!(again.schema.generation, 0);
    assert_eq!(again.record.key, second.variant.key());
    records.push(again.record);

    let third = select(&lean, &schema, &records, &none, false);
    assert_eq!(third.variant.key(), 0);
    assert_eq!(third.touched.unwrap().last_used, 77);
    let fourth = select(&graphics, &schema, &records, &none, false);
    assert_eq!(fourth.variant.key(), second.variant.key());
    assert!(!fourth.variant.needs_refresh());
}

#[test]
fn a_stale_record_is_refreshed_under_a_provisional_key() {
    let environment = environment(&[("A", "1")], &[("B", "2")], true);
    let stamp = FileStamp { len: 1, modified_secs: 1, modified_nanos: 1 };
    let seen = vec![ObservedFile { path: path("/package/data"), stamp: Some(stamp) }];
    let variant = select(&environment, &None, &Vec::new(), &seen, false).variant;
    let paths = vec![path("data")];
    assert_eq!(variant.tracked_files(&paths).iter().map(text).collect::<Vec<_>>(), ["/package/data"]);
    let recorded = variant.record_names(&names(&["A"]), &paths, &None, &seen, 5);
    let schema = Some(recorded.schema);
    let records = vec![recorded.record];
    assert!(!select(&environment, &schema, &records, &seen, false).variant.needs_refresh());
    let changed = vec![ObservedFile {
        path: path("/package/data"),
        stamp: Some(FileStamp { len: 2, ..stamp }),
    }];
    let refreshed = select(&environment, &schema, &records, &changed, false).variant;
    assert!(refreshed.needs_refresh());
    assert_eq!(refreshed.key(), environment.provisional_key());
    assert!(refreshed.is_branched());
}

#[test]
fn cold_planners_with_fine_grained_locking_take_the_provisional_key() {
    let environment = environment(&[], &[("A", "1")], true);
    let cold = select(&environment, &None, &Vec::new(), &Vec::new(), true).variant;
    assert!(cold.needs_refresh());
    assert_eq!(cold.key(), environment.provisional_key());
}

#[test]
fn new_names_start_a_new_generation() {
    let environment = environment(&[], &[], true);
    let variant = select(&environment, &None, &Vec::new(), &Vec::new(), false).variant;
    let previous = Some(InputSchema {
        version: FORMAT_VERSION,
        source: InputSource::RustcEnv,
        schema_id: "0000000000000012".to_owned(),
        generation: 4,
        names: names(&["A", "C"]),
    });
    let grown = variant.record_names(&names(&["B", "A"]), &Vec::new(), &previous, &Vec::new(), 1);
    assert_eq!(grown.schema.names, ["A", "B", "C"]);
    assert_eq!(grown.schema.generation, 5);
    assert_eq!(grown.record.generation, 5);
    assert!(grown.drop_records);
    let same = variant.record_names(&names(&["C"]), &Vec::new(), &previous, &Vec::new(), 1);
    assert_eq!(same.schema.generation, 4);
    assert!(!same.drop_records);
    assert!(expands_names(&previous, &names(&["B"])));
    assert!(!expands_names(&previous, &names(&["C", "A", "C"])));
    assert!(!expands_names(&None, &names(&["B"])));
}

#[test]
fn the_own_record_is_preferred_among_several() {
    let environment = environment(&[], &[("A", "1")], true);
    let values = environment.values(&names(&["A"]));
    let schema = Some(InputSchema {
        version: FORMAT_VERSION,
        source: InputSource::RustcEnv,
        schema_id: "0000000000000012".to_owned(),
        generation: 0,
        names: names(&["A"]),
    });
    let matching = |key| {
        let mut record = record("0000000000abcdef", 0, key);
        record.values = environment.values(&names(&["A"]));
        record
    };
    let own = environment.provisional_key();
    let records = vec![matching(5), matching(own), matching(6)];
    assert!(values_equal(&records[0].values, &values));
    assert_eq!(select(&environment, &schema, &records, &Vec::new(), false).variant.key(), own);
    let records = vec![matching(5), matching(6)];
    assert_eq!(select(&environment, &schema, &records, &Vec::new(), false).variant.key(), 5);
    let records = vec![record("other", 0, 9)];
    assert_eq!(
        select(&environment, &schema, &records, &Vec::new(), false).variant.key(),
        variant_key(&values)
    );
}

#[test]
fn configured_variables_come_before_inherited_ones() {
    let inherited = [("A", "process"), ("B", "process"), ("A", "last")];
    let environment = environment(&[("A", "config")], &inherited, true);
    assert_eq!(environment.variable_value("A"), Some(b"config".to_vec()));
    assert_eq!(environment.variable_value("B"), Some(b"process".to_vec()));
    assert_eq!(environment.variable_value("C"), None);
    let isolated = InputEnvironment::new(&config(&[("A", "config")]), &process(&inherited), false);
    assert_eq!(isolated.variable_value("B"), None);
}

#[test]
fn the_provisional_key_covers_the_visible_environment() {
    let one = environment(&[("A", "x")], &[("B", "1"), ("C", "2")], true);
    let other_order = environment(&[("A", "x")], &[("C", "2"), ("B", "1")], true);
    let changed = environment(&[("A", "x")], &[("C", "3"), ("B", "1")], true);
    let hidden = environment(&[("A", "x")], &[("C", "3"), ("B", "1")], false);
    assert_eq!(one.provisional_key(), other_order.provisional_key());
    assert_ne!(one.provisional_key(), changed.provisional_key());
    assert_ne!(hidden.provisional_key(), changed.provisional_key());
    assert_ne!(one.provisional_key(), 0);

    let mut visible = std::collections::BTreeMap::new();
    for (name, value) in [("A", "x"), ("B", "1"), ("C", "2")] {
        visible.insert(name.as_bytes().to_vec(), value.as_bytes().to_vec());
    }
    let mut hasher = StableSipHasher128::new();
    visible.hash(&mut hasher);
    assert_eq!(one.provisional_key(), Hasher::finish(&hasher).max(1));
}

#[derive(Hash)]
enum StdValue {
    #[allow(dead_code)]
    Unset,
    UnixBytes(String),
    #[allow(dead_code)]
    WindowsWide(Vec<u16>),
}

#[derive(Hash)]
enum StdSource {
    #[allow(dead_code)]
    BuildScriptEnv,
    RustcEnv,
}

#[test]
fn keys_and_branches_hash_as_derived_values_do() {
    let values = vec![
        ("A".to_owned(), EncodedValue::UnixBytes("6f".to_owned())),
        ("B".to_owned(), EncodedValue::Unset),
        ("C".to_owned(), EncodedValue::WindowsWide(vec![1, 258])),
    ];
    let derived = vec![
        ("A".to_owned(), StdValue::UnixBytes("6f".to_owned())),
        ("B".to_owned(), StdValue::Unset),
        ("C".to_owned(), StdValue::WindowsWide(vec![1, 258])),
    ];
    let mut hasher = StableSipHasher128::new();
    derived.hash(&mut hasher);
    assert_eq!(variant_key(&values), Hasher::finish(&hasher).max(1));

    let environment = environment(&[], &[("A", "1")], true);
    let branch = select(&environment, &None, &Vec::new(), &Vec::new(), true).variant;
    let mut ours = StableHasher::new();
    branch.hash(&mut ours);
    let mut hasher = StableSipHasher128::new();
    StdSource::RustcEnv.hash(&mut hasher);
    branch.key().hash(&mut hasher);
    assert_eq!(ours.finish(), Hasher::finish(&hasher));

    let plain = select(&environment, &None, &Vec::new(), &Vec::new(), false).variant;
    let mut ours = StableHasher::new();
    plain.hash(&mut ours);
    assert_eq!(ours.finish(), StableHasher::new().finish());
}

#[test]
fn extensions_and_joins_agree_with_std() {
    for base in ["", "/", "a", "a/", "/a/b.json", ".hidden", "a/..", "x.tar.gz", "a/.b/c."] {
        for tail in ["", "b", "/b", "b/c.d", ".", "../x"] {
            let expected = Path::new(base).join(tail);
            assert_eq!(text(&path(base).join(&path(tail))), expected.to_str().unwrap());
        }
        let std = Path::new(base);
        assert_eq!(text(&path(base).with_extension("d")), std.with_extension("d").to_str().unwrap());
        assert_eq!(
            path(base).extension(),
            std.extension().map(|e| e.to_str().unwrap().as_bytes().to_vec())
        );
        assert_eq!(
            path(base).file_stem(),
            std.file_stem().map(|e| e.to_str().unwrap().as_bytes().to_vec())
        );
        assert_eq!(
            path(base).parent().as_ref().map(text),
            std.parent().map(|p| p.to_str().unwrap().to_owned())
        );
        assert_eq!(
            path(base).ancestors().iter().map(text).collect::<Vec<_>>(),
            std.ancestors().map(|p| p.to_str().unwrap().to_owned()).collect::<Vec<_>>()
        );
        for other in ["", "/", "a", "a/.", "/a", "/a/b.json/"] {
            assert_eq!(path(base).starts_with(&path(other)), std.starts_with(other));
            assert_eq!(
                path(base).strip_prefix(&path(other)).as_ref().map(text),
                std.strip_prefix(other).ok().map(|p| p.to_str().unwrap().to_owned())
            );
            assert_eq!(path(base) == path(other), std == Path::new(other));
        }
    }
}
