//! Build-script branches selected by their observed environment.

use input_variants::build_env_variants::{
    load_records, registry_dir, variable_value, variable_values, variant_key, BuildEnvVariant,
    LoadError, RecordEntry, Recorded, Variable, VariantRecord,
};
use input_variants::environment::{EnvConfig, EnvVar, InputEnvironment};
use input_variants::hasher::StableHasher;
use input_variants::path_buf::PathBuf;
use input_variants::variants::UnitHash;
use rustc_stable_hash::StableSipHasher128;
use std::hash::{Hash, Hasher};

fn path(text: &str) -> PathBuf {
    PathBuf::new(text)
}

fn text(path: &PathBuf) -> String {
    String::from_utf8(path.as_bytes().to_vec()).unwrap()
}

fn names(names: &[&str]) -> Vec<String> {
    names.iter().map(|name| name.to_string()).collect()
}

fn environment(vars: &[(&str, &[u8])], inherited: &[(&str, &[u8])]) -> InputEnvironment {
    let mut config = EnvConfig::new();
    for (name, value) in vars {
        config.set(name, value.to_vec());
    }
    let process = inherited
        .iter()
        .map(|(name, value)| EnvVar { name: name.as_bytes().to_vec(), value: value.to_vec() })
        .collect();
    InputEnvironment::new(&config, &process, true)
}

fn variable(name: &str, value: Option<&str>) -> Variable {
    Variable { name: name.to_owned(), value: value.map(str::to_owned) }
}

fn select(environment: &InputEnvironment, records: &Vec<(u64, VariantRecord)>) -> BuildEnvVariant {
    BuildEnvVariant::select(&path("/build"), "package", UnitHash { value: 7 }, environment, records)
}

fn key(variant: &BuildEnvVariant) -> u64 {
    let environment = environment(&[], &[]);
    match variant.record(&names(&["X"]), &environment) {
        Recorded::Written { path, .. } => {
            let stem = path.file_stem().unwrap();
            u64::from_str_radix(std::str::from_utf8(&stem).unwrap(), 16).unwrap()
        }
        Recorded::Removed { .. } => unreachable!(),
    }
}

#[test]
fn variant_key_is_independent_of_declaration_order() {
    let environment = environment(&[("A", b"one"), ("B", b"two")], &[]);
    let mut first = names(&["A", "B"]);
    let mut second = names(&["B", "A"]);
    first.sort();
    second.sort();

    assert_eq!(
        variant_key(&variable_values(&first, &environment)),
        variant_key(&variable_values(&second, &environment))
    );
}

#[test]
fn record_distinguishes_unset_and_empty_values() {
    let unset = VariantRecord { variables: vec![variable("VALUE", None)] };
    let empty = VariantRecord { variables: vec![variable("VALUE", Some(""))] };

    assert_ne!(unset, empty);
}

#[test]
fn values_that_are_not_text_count_as_unset() {
    let environment = environment(&[("A", b"\xff"), ("B", b"two")], &[("A", b"one"), ("C", b"\xff")]);
    assert_eq!(variable_value("A", &environment), None);
    assert_eq!(variable_value("B", &environment), Some("two".to_owned()));
    assert_eq!(variable_value("C", &environment), None);
    assert_eq!(variable_value("D", &environment), None);
}

#[test]
fn records_are_read_in_order_and_named_by_their_key() {
    let entry = |file: &str, variables| RecordEntry {
        path: path(file),
        record: Some(VariantRecord { variables }),
    };
    let entries = vec![
        entry("/r/00000000000000ff.json", vec![variable("A", None)]),
        entry("/r/readme.txt", Vec::new()),
        entry("/r/0000000000000001.json", vec![variable("B", Some("x"))]),
    ];
    let records = load_records(entries).unwrap();
    assert_eq!(records[0], (1, VariantRecord { variables: vec![variable("B", Some("x"))] }));
    assert_eq!(records[1], (255, VariantRecord { variables: vec![variable("A", None)] }));
    assert_eq!(records.len(), 2);
}

#[test]
fn the_first_bad_record_file_is_reported() {
    let good = |file: &str| RecordEntry {
        path: path(file),
        record: Some(VariantRecord { variables: Vec::new() }),
    };
    let bad = |file: &str| RecordEntry { path: path(file), record: None };
    assert_eq!(
        load_records(vec![good("/r/z.json"), good("/r/0.json")]).unwrap_err(),
        LoadError::InvalidKey { path: path("/r/z.json") }
    );
    assert_eq!(
        load_records(vec![bad("/r/1.json"), bad("/r/z.json")]).unwrap_err(),
        LoadError::Unreadable { path: path("/r/1.json") }
    );
    assert_eq!(
        load_records(vec![good("/r/11112222333344445.json")]).unwrap_err(),
        LoadError::InvalidKey { path: path("/r/11112222333344445.json") }
    );
    assert_eq!(
        load_records(vec![good("/r/-1.json")]).unwrap_err(),
        LoadError::InvalidKey { path: path("/r/-1.json") }
    );
}

#[test]
fn keys_are_read_as_std_reads_them() {
    for stem in ["0", "+1f", "+", "00000000000000000000001", "FfFf", "g", "-0", "ffffffffffffffff"] {
        let entries = vec![RecordEntry {
            path: path(&format!("/r/{stem}.json")),
            record: Some(VariantRecord { variables: Vec::new() }),
        }];
        let read = load_records(entries).ok().map(|records| records[0].0);
        assert_eq!(read, u64::from_str_radix(stem, 16).ok(), "{stem}");
    }
}

#[test]
fn a_branch_is_recorded_and_selected_again() {
    let lean = environment(&[], &[("NATIVE_PATH", b"lean")]);
    let graphics = environment(&[], &[("NATIVE_PATH", b"graphics")]);
    let plain = select(&lean, &Vec::new());
    assert!(!plain.is_branched());
    let Recorded::Written { path: file, record } =
        plain.record(&names(&["NATIVE_PATH", "B", "NATIVE_PATH"]), &lean)
    else {
        unreachable!()
    };
    assert_eq!(
        text(&file),
        "/build/.build-env-variants/package/0000000000000007/0000000000000000.json"
    );
    assert_eq!(
        record,
        VariantRecord {
            variables: vec![variable("B", None), variable("NATIVE_PATH", Some("lean"))]
        }
    );
    let records = vec![(0, record)];
    assert!(!select(&lean, &records).is_branched());

    let branch = select(&graphics, &records);
    assert!(branch.is_branched());
    let expected = variant_key(&vec![variable("B", None), variable("NATIVE_PATH", Some("graphics"))]);
    assert_eq!(key(&branch), expected);
}

#[test]
fn a_branch_that_depends_on_nothing_drops_its_registry() {
    let environment = environment(&[], &[]);
    let Recorded::Removed { registry_dir: dropped } =
        select(&environment, &Vec::new()).record(&Vec::new(), &environment)
    else {
        unreachable!()
    };
    assert_eq!(dropped, registry_dir(&path("/build"), "package", UnitHash { value: 7 }));
}

#[test]
fn build_branches_hash_as_derived_values_do() {
    let variables = vec![variable("A", None), variable("B", Some("x"))];
    let derived = vec![("A".to_owned(), None), ("B".to_owned(), Some("x".to_owned()))];
    let mut hasher = StableSipHasher128::new();
    derived.hash(&mut hasher);
    assert_eq!(variant_key(&variables), Hasher::finish(&hasher));

    let records = vec![(9, VariantRecord { variables: vec![variable("A", None)] })];
    let branch = select(&environment(&[], &[]), &records);
    let mut ours = StableHasher::new();
    branch.hash(&mut ours);
    let mut hasher = StableSipHasher128::new();
    9u64.hash(&mut hasher);
    assert_eq!(ours.finish(), Hasher::finish(&hasher));

    let plain = select(&environment(&[], &[]), &Vec::new());
    let mut ours = StableHasher::new();
    plain.hash(&mut ours);
    assert_eq!(ours.finish(), StableHasher::new().finish());
}
