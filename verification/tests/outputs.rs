//! Retained outputs: who owns them, and when they are removed.

use std::collections::{BTreeMap, BTreeSet};

use input_variants::clean::{
    clean, variant_locks, CleanReport, Effect, LastUsedRecord, Observation, Request,
};
use input_variants::clean_command::{clean_variants, CleanArgs, Required};
use input_variants::outputs::{
    infer_unit_dir, record_path, unit_dir_matches, validate_ownership, validate_paths,
    OutputOwnership, OutputRecord, OwnershipError, LEGACY_OUTPUT_FORMAT_VERSION,
    OUTPUT_FORMAT_VERSION,
};
use input_variants::outputs_v1;
use input_variants::path_buf::PathBuf;
use input_variants::path_set::{measured_paths, minimal_paths};
use input_variants::variants;
use input_variants::walk::{output_size, path_size, DirEntry, Entry, JsonFiles, PathNode};

fn path(text: &str) -> PathBuf {
    PathBuf::new(text)
}

fn text(path: &PathBuf) -> String {
    String::from_utf8(path.as_bytes().to_vec()).unwrap()
}

fn texts(paths: &[PathBuf]) -> Vec<String> {
    paths.iter().map(text).collect()
}

fn ownership(unit: &str, unit_dir: Option<&str>, paths: &[&str]) -> OutputOwnership {
    OutputOwnership::new(
        &path("/root/build"),
        &path("/root/target"),
        "package",
        unit,
        unit_dir.map(path),
        paths.iter().map(|p| path(p)).collect(),
    )
    .unwrap()
}

fn copied(record: &OutputRecord) -> OutputRecord {
    OutputRecord {
        version: record.version,
        package: record.package.clone(),
        unit: record.unit.clone(),
        last_used: record.last_used,
        size: record.size,
        unit_dir: record.unit_dir.clone(),
        paths: record.paths.clone(),
    }
}

/// Files with their sizes, and the records that some of them hold.
#[derive(Default)]
struct Disk {
    files: BTreeMap<String, u64>,
    outputs: BTreeMap<String, OutputRecord>,
    old_outputs: BTreeMap<String, outputs_v1::OutputRecord>,
    variants: BTreeMap<String, LastUsedRecord>,
}

impl Disk {
    fn write(&mut self, file: &str, contents: &str) {
        self.files.insert(file.to_owned(), contents.len() as u64);
    }

    fn store(&mut self, file: &PathBuf, record: OutputRecord) {
        self.files.insert(text(file), 1);
        self.outputs.insert(text(file), record);
    }

    fn store_old(&mut self, file: &PathBuf, record: outputs_v1::OutputRecord) {
        self.files.insert(text(file), 1);
        self.old_outputs.insert(text(file), record);
    }

    fn holds(&self, name: &str) -> bool {
        let below = format!("{name}/");
        self.files.keys().any(|file| file == name || file.starts_with(&below))
    }

    fn remove(&mut self, name: &str) {
        let below = format!("{name}/");
        self.files.retain(|file, _| file != name && !file.starts_with(&below));
        self.outputs.retain(|file, _| file != name && !file.starts_with(&below));
        self.old_outputs.retain(|file, _| file != name && !file.starts_with(&below));
        self.variants.retain(|file, _| file != name && !file.starts_with(&below));
    }

    fn size(&self, name: &str) -> u64 {
        if let Some(len) = self.files.get(name) {
            return path_size(&PathNode::Leaf { len: *len });
        }
        let below = format!("{name}/");
        let entries: Vec<_> = self
            .files
            .iter()
            .filter(|(file, _)| file.starts_with(&below))
            .map(|(_, len)| Entry { is_file: true, len: *len })
            .collect();
        if entries.is_empty() {
            path_size(&PathNode::Missing)
        } else {
            path_size(&PathNode::Directory { entries })
        }
    }

    fn entries(&self, directory: &str) -> Vec<DirEntry> {
        let below = format!("{directory}/");
        let mut names = BTreeSet::new();
        for file in self.files.keys() {
            if let Some(rest) = file.strip_prefix(&below) {
                match rest.split_once('/') {
                    Some((name, _)) => names.insert((format!("{below}{name}"), true)),
                    None => names.insert((file.clone(), false)),
                };
            }
        }
        names.into_iter().map(|(name, is_dir)| DirEntry { path: path(&name), is_dir }).collect()
    }

    fn json_files(&self, root: &PathBuf) -> Vec<PathBuf> {
        let mut walk = JsonFiles::new(root);
        while let Some(directory) = walk.next_directory() {
            walk.enter(&self.entries(&text(&directory)));
        }
        walk.json_files()
    }

    fn change(&mut self, effect: Effect) {
        match effect {
            Effect::RemoveFile { path } | Effect::RemovePath { path } => {
                self.remove(&text(&path));
            }
            Effect::Write { path, record } => self.store(&path, record),
        }
    }

    fn clean(
        &mut self,
        now: u64,
        max_age: Option<u64>,
        max_size: Option<u64>,
        dry_run: bool,
    ) -> Result<CleanReport, OwnershipError> {
        let (mut cleaner, mut request) =
            clean(&path("/root/build"), &path("/root/target"), now, max_age, max_size, dry_run);
        loop {
            let seen = match request {
                Request::List { root } => Observation::Files { paths: self.json_files(&root) },
                Request::ReadOutput { path } => {
                    Observation::Record { record: self.outputs.get(&text(&path)).map(copied) }
                }
                Request::Measure { paths } => Observation::Sizes {
                    sizes: paths.iter().map(|p| self.size(&text(p))).collect(),
                },
                Request::ReadLastUsed { path } => {
                    Observation::LastUsed { variant: self.variants.get(&text(&path)).copied() }
                }
                Request::Finished { report } => return Ok(report),
                Request::Refused { error } => return Err(error),
            };
            let step = cleaner.step(seen);
            for effect in step.effects {
                self.change(effect);
            }
            request = step.request;
        }
    }

    fn clean_expired(
        &mut self,
        now: u64,
        max_age: u64,
        dry_run: bool,
    ) -> Result<Vec<PathBuf>, OwnershipError> {
        let (mut expiry, mut request) = outputs_v1::clean_expired(
            &path("/root/build"),
            &path("/root/target"),
            now,
            max_age,
            dry_run,
        );
        loop {
            let seen = match request {
                outputs_v1::Request::List { root } => {
                    outputs_v1::Observation::Files { paths: self.json_files(&root) }
                }
                outputs_v1::Request::ReadOutput { path } => outputs_v1::Observation::Record {
                    record: self.old_outputs.get(&text(&path)).map(|record| {
                        outputs_v1::OutputRecord {
                            version: record.version,
                            package: record.package.clone(),
                            unit: record.unit.clone(),
                            last_used: record.last_used,
                            paths: record.paths.clone(),
                        }
                    }),
                },
                outputs_v1::Request::ReadLastUsed { path } => outputs_v1::Observation::LastUsed {
                    variant: self.variants.get(&text(&path)).copied(),
                },
                outputs_v1::Request::Finished { removed } => return Ok(removed),
                outputs_v1::Request::Refused { error } => return Err(error),
            };
            let step = expiry.step(seen);
            for effect in step.effects {
                self.change(effect);
            }
            request = step.request;
        }
    }
}

#[test]
fn output_paths_must_stay_below_a_configured_root() {
    let root = [path("/cache/build")];
    assert!(outputs_v1::validate_paths(&[path("/cache/build/debug/unit")], &root).is_ok());
    assert!(outputs_v1::validate_paths(&[path("/tmp/unit")], &root).is_err());
    assert!(outputs_v1::validate_paths(&[path("relative/unit")], &root).is_err());
    assert!(outputs_v1::validate_paths(&[path("/cache/build")], &root).is_ok());
}

#[test]
fn outputs_output_paths_must_stay_below_a_configured_root() {
    let root = path("/cache/build");
    let roots = [root.clone()];
    assert!(validate_paths(&[path("/cache/build/debug/unit")], &roots).is_ok());
    assert!(validate_paths(&[path("/cache/build")], &roots).is_err());
    assert!(validate_paths(&[path("/tmp/unit")], &roots).is_err());
    assert!(validate_paths(&[path("relative/unit")], &roots).is_err());

    let target = path("/cache/target");
    let unit_dir = path("/cache/build/debug/build/package/unit");
    assert!(OutputOwnership::new(
        &root,
        &target,
        "package",
        "other-unit",
        Some(unit_dir.clone()),
        Vec::new(),
    )
    .is_err());
    assert!(OutputOwnership::new(
        &root,
        &target,
        "package",
        "unit",
        Some(unit_dir),
        vec![path("/cache/build/debug/build/package")],
    )
    .is_err());
}

#[test]
fn every_ownership_error_names_what_is_wrong() {
    let build = path("/cache/build");
    let target = path("/cache/target");
    let unit_dir = path("/cache/build/debug/build/package/unit");
    let refused = |unit_dir: Option<PathBuf>, unit: &str, paths: &[&str]| {
        let paths = paths.iter().map(|p| path(p)).collect();
        validate_ownership(&build, &target, "package", unit, &unit_dir, &paths).unwrap_err()
    };
    assert_eq!(
        refused(None, "unit", &["/cache/build/a", "/tmp/unit", "/tmp/other"]),
        OwnershipError::Outside { path: path("/tmp/unit") }
    );
    assert_eq!(
        refused(Some(path("/cache/target/debug/build/package/unit")), "unit", &[]),
        OwnershipError::Outside { path: path("/cache/target/debug/build/package/unit") }
    );
    assert_eq!(
        refused(Some(unit_dir.clone()), "other-unit", &["/tmp/unit"]),
        OwnershipError::UnitDirMismatch { unit_dir: unit_dir.clone() }
    );
    assert_eq!(
        refused(Some(unit_dir.clone()), "unit", &["/tmp", "/cache/build/debug/build/package"]),
        OwnershipError::SidecarHoldsUnitDir {
            sidecar: path("/cache/build/debug/build/package"),
            unit_dir,
        }
    );
}

#[test]
fn unit_directories_are_named_after_package_and_unit() {
    assert!(unit_dir_matches(&path("/b/debug/build/package/unit"), "package", "unit"));
    assert!(unit_dir_matches(&path("/b/debug/build//package/./unit/"), "package", "unit"));
    assert!(!unit_dir_matches(&path("/b/debug/deps/package/unit"), "package", "unit"));
    assert!(!unit_dir_matches(&path("/b/debug/build/other/unit"), "package", "unit"));
    assert!(!unit_dir_matches(&path("unit"), "package", "unit"));
}

#[test]
fn a_unit_directory_is_inferred_only_where_it_is_unambiguous() {
    let build = path("/b");
    let inferred = |paths: &[&str]| {
        let paths = paths.iter().map(|p| path(p)).collect();
        infer_unit_dir(&build, "p", "u", &paths).map(|found| text(&found))
    };
    assert_eq!(inferred(&["/b/debug/build/p/u/out/x"]), Some("/b/debug/build/p/u".to_owned()));
    assert_eq!(
        inferred(&["/b/debug/build/p/u/out/x", "/b/debug/build/p/u", "/b/other"]),
        Some("/b/debug/build/p/u".to_owned())
    );
    assert_eq!(inferred(&["/b/debug/build/p/u/x", "/b/release/build/p/u/x"]), None);
    assert_eq!(inferred(&["/elsewhere/build/p/u/x"]), None);
    assert_eq!(inferred(&[]), None);
}

#[test]
fn outputs_expiration_dry_run_reports_without_removing() {
    let mut disk = Disk::default();
    let expired_output = "/root/target/debug/deps/expired";
    disk.write(expired_output, "artifact");
    let owner = ownership("expired", None, &[expired_output]);
    let mut record = owner.record_build(1000);
    record.last_used = 0;
    let record_path = record_path(&path("/root/build"), "package", "expired");
    disk.store(&record_path, record);

    let reported = disk.clean(1000, Some(0), None, true).unwrap();
    assert!(reported.removed.contains(&path(expired_output)));
    assert!(disk.holds(expired_output));
    assert!(disk.holds(&text(&record_path)));

    disk.clean(1000, Some(0), None, false).unwrap();
    assert!(!disk.holds(expired_output));
    assert!(!disk.holds(&text(&record_path)));
}

#[test]
fn expiration_dry_run_reports_without_removing() {
    let mut disk = Disk::default();
    let expired_output = "/root/target/debug/deps/expired";
    disk.write(expired_output, "artifact");
    let roots = [path("/root/build"), path("/root/target")];
    let (record_path, mut record) = outputs_v1::record(
        &path("/root/build"),
        "package",
        "expired",
        vec![path(expired_output)],
        &roots,
        1000,
    )
    .unwrap();
    assert_eq!(record.last_used, 1000);
    record.last_used = 0;
    disk.store_old(&record_path, record);

    let reported = disk.clean_expired(1000, 0, true).unwrap();
    assert!(reported.contains(&path(expired_output)));
    assert!(disk.holds(expired_output));
    assert!(disk.holds(&text(&record_path)));

    disk.clean_expired(1000, 0, false).unwrap();
    assert!(!disk.holds(expired_output));
    assert!(!disk.holds(&text(&record_path)));
}

#[test]
fn size_limit_removes_least_recently_used_outputs() {
    let mut disk = Disk::default();
    let old_output = "/root/target/debug/deps/old";
    let new_output = "/root/target/debug/deps/new";
    disk.write(old_output, "old!");
    disk.write(new_output, "newest");
    for (unit, output, last_used) in [("old", old_output, 1), ("new", new_output, 2)] {
        let mut record = ownership(unit, None, &[output]).record_build(1000);
        record.last_used = last_used;
        disk.store(&record_path(&path("/root/build"), "package", unit), record);
    }

    let reported = disk.clean(1000, None, Some(6), true).unwrap();
    assert_eq!(reported.removed_bytes, 4);
    assert!(reported.removed.contains(&path(old_output)));
    assert!(disk.holds(old_output));
    assert!(disk.holds(new_output));

    disk.clean(1000, None, Some(6), false).unwrap();
    assert!(!disk.holds(old_output));
    assert!(disk.holds(new_output));
}

fn mixed_disk() -> Disk {
    let build = path("/root/build");
    let mut disk = Disk::default();
    for (unit, last_used, contents) in [("old", 1, "old!"), ("new", 900, "newest")] {
        let output = format!("/root/target/debug/deps/{unit}");
        disk.write(&output, contents);
        let record = ownership(unit, None, &[&output]).record_build(last_used);
        disk.store(&record_path(&build, "package", unit), record);
    }
    let generated = "/root/build/debug/build/package/middle/run/out/generated";
    disk.write(generated, "generated");
    let legacy = OutputRecord {
        version: LEGACY_OUTPUT_FORMAT_VERSION,
        package: "package".into(),
        unit: "middle".into(),
        last_used: 500,
        size: Some(1),
        unit_dir: None,
        paths: vec![path(generated)],
    };
    disk.store(&record_path(&build, "package", "middle"), legacy);
    disk.write("/root/build/.input-variants/v1/outputs/package/malformed.json", "{");
    for (name, version) in [("current", 3), ("outdated", 2)] {
        let file = format!("/root/build/.input-variants/v1/records/rustc-env/package/{name}.json");
        disk.write(&file, "{}");
        disk.variants.insert(file, LastUsedRecord { version, last_used: 999 });
    }
    disk
}

#[test]
fn a_dry_run_foretells_the_removing_run_and_a_second_run_finds_nothing() {
    for (max_age, max_size) in [
        (Some(0), None),
        (Some(200), None),
        (None, Some(6)),
        (None, Some(15)),
        (Some(600), Some(14)),
        (None, Some(1000)),
        (None, None),
    ] {
        let mut disk = mixed_disk();
        let files = disk.files.clone();
        let foretold = disk.clean(1000, max_age, max_size, true).unwrap();
        assert_eq!(disk.files, files);
        let report = disk.clean(1000, max_age, max_size, false).unwrap();
        assert_eq!(report, foretold);
        assert!(!report.removed.is_empty());
        let again = disk.clean(1000, max_age, max_size, false).unwrap();
        assert_eq!(again, CleanReport { removed: Vec::new(), removed_bytes: 0 });
    }
}

#[test]
fn a_total_that_cannot_be_counted_takes_two_runs() {
    let build = path("/root/build");
    let mut disk = Disk::default();
    for (unit, last_used) in [("old", 1), ("new", 2)] {
        let output = format!("/root/target/debug/deps/{unit}");
        let mut record = ownership(unit, None, &[&output]).record_build(last_used);
        record.size = Some(u64::MAX);
        disk.store(&record_path(&build, "package", unit), record);
    }
    let first = disk.clean(1000, None, Some(u64::MAX - 1), false).unwrap();
    assert_eq!(first.removed.len(), 2);
    assert!(disk.holds(&text(&record_path(&build, "package", "new"))));
    let second = disk.clean(1000, None, Some(u64::MAX - 1), false).unwrap();
    assert_eq!(second.removed_bytes, u64::MAX);
    assert!(!disk.holds(&text(&record_path(&build, "package", "new"))));
}

#[test]
fn record_size_is_measured_without_counting_nested_paths_twice() {
    let mut disk = Disk::default();
    let output_dir = "/root/target/debug/incremental/unit";
    let output_file = "/root/target/debug/incremental/unit/cache.bin";
    disk.write(output_file, "cache");
    let record = ownership("unit", None, &[output_dir, output_file]).record_build(1000);
    let path = record_path(&path("/root/build"), "package", "unit");
    disk.store(&path, record);

    disk.clean(1000, None, Some(5), false).unwrap();
    assert_eq!(disk.outputs[&text(&path)].size, Some(5));
}

#[test]
fn complete_unit_directory_owns_unenumerated_outputs() {
    let mut disk = Disk::default();
    let unit_dir = "/root/build/debug/build/package/unit";
    let stdout = "/root/build/debug/build/package/unit/run/stdout";
    let unenumerated = "/root/build/debug/build/package/unit/out/auxiliary.o";
    let incremental = "/root/build/debug/incremental/input-variant-package-unit";
    disk.write(stdout, "stdout");
    disk.write(unenumerated, "auxiliary");
    disk.write(&format!("{incremental}/cache"), "incremental");

    let record = ownership("unit", Some(unit_dir), &[stdout, unenumerated, incremental])
        .record_build(1000);
    assert_eq!(record.version, OUTPUT_FORMAT_VERSION);
    assert_eq!(record.unit_dir, Some(path(unit_dir)));
    assert_eq!(texts(&record.paths), [incremental]);
    disk.store(&record_path(&path("/root/build"), "package", "unit"), record);

    disk.clean(1000, Some(0), None, false).unwrap();
    assert!(!disk.holds(unit_dir));
    assert!(!disk.holds(incremental));
}

#[test]
fn legacy_record_infers_its_v2_unit_directory() {
    let mut disk = Disk::default();
    let unit_dir = "/root/build/debug/build/package/unit";
    let recorded = "/root/build/debug/build/package/unit/run/out/generated";
    disk.write(recorded, "generated");
    disk.write(&format!("{unit_dir}/run/stdout"), "stdout");
    let file = record_path(&path("/root/build"), "package", "unit");
    let legacy = OutputRecord {
        version: LEGACY_OUTPUT_FORMAT_VERSION,
        package: "package".into(),
        unit: "unit".into(),
        last_used: 0,
        size: Some(1),
        unit_dir: None,
        paths: vec![path(recorded)],
    };
    disk.store(&file, legacy);

    let report = disk.clean(1000, Some(0), None, false).unwrap();
    assert!(report.removed.contains(&path(unit_dir)));
    assert!(!disk.holds(unit_dir));
    assert!(!disk.holds(&text(&file)));
}

#[test]
fn fresh_use_upgrades_legacy_ownership_and_preserves_current_sizes() {
    let unit_dir = "/root/build/debug/build/package/unit";
    let incremental = "/root/build/debug/incremental/input-variant-package-unit";
    let legacy = OutputRecord {
        version: LEGACY_OUTPUT_FORMAT_VERSION,
        package: "package".into(),
        unit: "unit".into(),
        last_used: 1,
        size: Some(5),
        unit_dir: None,
        paths: vec![path(incremental)],
    };
    let owner = ownership("unit", Some(unit_dir), &[incremental]);

    let upgraded = owner.mark_used(&Some(legacy), 10);
    assert_eq!(upgraded.version, OUTPUT_FORMAT_VERSION);
    assert_eq!(upgraded.unit_dir, Some(path(unit_dir)));
    assert_eq!(upgraded.size, None);
    assert_eq!(upgraded.last_used, 10);

    let mut measured = upgraded;
    measured.size = Some(9);
    let refreshed = owner.mark_used(&Some(measured), 11);
    assert_eq!(refreshed.size, Some(9));
    assert_eq!(refreshed.last_used, 11);

    let rebuilt = owner.record_build(12);
    assert_eq!(rebuilt.size, None);
}

#[test]
fn current_input_variant_records_survive_size_collection() {
    let mut disk = Disk::default();
    let file = "/root/build/.input-variants/v1/records/rustc-env/package/record.json";
    disk.write(file, "{}");
    disk.variants.insert(
        file.to_owned(),
        LastUsedRecord { version: variants::FORMAT_VERSION, last_used: 1 },
    );

    disk.clean(1000, None, Some(u64::MAX), false).unwrap();
    assert!(disk.holds(file));
}

#[test]
fn stale_variant_records_are_removed_and_reported() {
    let mut disk = Disk::default();
    let current = variants::FORMAT_VERSION;
    let records = "/root/build/.input-variants/v1/records/rustc-env/package";
    for (name, record) in [
        ("a.json", Some(LastUsedRecord { version: current, last_used: 900 })),
        ("b.json", Some(LastUsedRecord { version: current, last_used: 901 })),
        ("c.json", Some(LastUsedRecord { version: current + 1, last_used: 999 })),
        ("d.json", None),
        ("e.txt", None),
    ] {
        disk.write(&format!("{records}/{name}"), "x");
        if let Some(record) = record {
            disk.variants.insert(format!("{records}/{name}"), record);
        }
    }
    let report = disk.clean(1000, Some(100), None, false).unwrap();
    let names = ["a.json", "c.json", "d.json"].map(|name| format!("{records}/{name}"));
    assert_eq!(texts(&report.removed), names);
    assert_eq!(report.removed_bytes, 0);
    assert!(disk.holds(&format!("{records}/b.json")));
    assert!(disk.holds(&format!("{records}/e.txt")));
    assert!(!disk.holds(&format!("{records}/d.json")));
}

#[test]
fn an_output_used_at_the_cutoff_is_removed_and_one_used_later_is_kept() {
    let mut disk = Disk::default();
    for (unit, last_used) in [("at", 900), ("behind", 901)] {
        let output = format!("/root/target/debug/deps/{unit}");
        disk.write(&output, "xx");
        let mut record = ownership(unit, None, &[&output]).record_build(0);
        record.last_used = last_used;
        disk.store(&record_path(&path("/root/build"), "package", unit), record);
    }
    let report = disk.clean(1000, Some(100), None, false).unwrap();
    assert_eq!(
        texts(&report.removed),
        ["/root/target/debug/deps/at", "/root/build/.input-variants/v1/outputs/package/at.json"]
    );
    assert_eq!(report.removed_bytes, 2);
    assert!(disk.holds("/root/target/debug/deps/behind"));
}

#[test]
fn outputs_used_at_the_same_time_go_in_the_order_of_their_records() {
    let mut disk = Disk::default();
    for unit in ["b", "a", "c"] {
        let output = format!("/root/target/debug/deps/{unit}");
        disk.write(&output, "four");
        let mut record = ownership(unit, None, &[&output]).record_build(0);
        record.last_used = 7;
        disk.store(&record_path(&path("/root/build"), "package", unit), record);
    }
    let report = disk.clean(1000, None, Some(8), false).unwrap();
    assert_eq!(report.removed_bytes, 4);
    assert!(!disk.holds("/root/target/debug/deps/a"));
    assert!(disk.holds("/root/target/debug/deps/b"));
    assert!(disk.holds("/root/target/debug/deps/c"));
}

#[test]
fn a_measured_size_is_written_back_and_not_measured_again() {
    let mut disk = Disk::default();
    disk.write("/root/target/debug/deps/x", "four");
    let file = record_path(&path("/root/build"), "package", "x");
    disk.store(&file, ownership("x", None, &["/root/target/debug/deps/x"]).record_build(5));
    disk.clean(1000, None, Some(100), true).unwrap();
    assert_eq!(disk.outputs[&text(&file)].size, None);
    disk.clean(1000, None, Some(100), false).unwrap();
    assert_eq!(disk.outputs[&text(&file)].size, Some(4));
    disk.write("/root/target/debug/deps/x", "much longer");
    let report = disk.clean(1000, None, Some(3), false).unwrap();
    assert_eq!(report.removed_bytes, 4);
}

#[test]
fn records_that_cannot_be_used_go_without_a_word() {
    let mut disk = Disk::default();
    let file = record_path(&path("/root/build"), "package", "x");
    let mut record = ownership("x", None, &[]).record_build(5);
    record.version = 99;
    disk.store(&file, record);
    assert_eq!(disk.clean(1000, Some(0), None, true).unwrap().removed, []);
    assert!(disk.holds(&text(&file)));
    assert_eq!(disk.clean(1000, Some(0), None, false).unwrap().removed, []);
    assert!(!disk.holds(&text(&file)));
}

#[test]
fn a_record_that_claims_foreign_paths_stops_the_run() {
    let mut disk = Disk::default();
    let file = record_path(&path("/root/build"), "package", "x");
    let mut record = ownership("x", None, &[]).record_build(0);
    record.paths = vec![path("/etc/passwd")];
    disk.store(&file, record);
    disk.write("/etc/passwd", "root");
    let error = disk.clean(1000, Some(0), None, false).unwrap_err();
    assert_eq!(error, OwnershipError::Outside { path: path("/etc/passwd") });
    assert!(disk.holds("/etc/passwd"));
    assert!(disk.holds(&text(&file)));
}

#[test]
fn an_older_record_that_claims_foreign_paths_stops_the_run() {
    let mut disk = Disk::default();
    let file = record_path(&path("/root/build"), "package", "x");
    let record = |last_used| outputs_v1::OutputRecord {
        version: outputs_v1::FORMAT_VERSION,
        package: "package".into(),
        unit: "x".into(),
        last_used,
        paths: vec![path("/etc/passwd")],
    };
    disk.store_old(&file, record(1000));
    assert_eq!(disk.clean_expired(1000, 10, false).unwrap(), []);
    disk.store_old(&file, record(10));
    let error = disk.clean_expired(1000, 10, false).unwrap_err();
    assert_eq!(error, OwnershipError::Outside { path: path("/etc/passwd") });
    assert!(disk.holds(&text(&file)));
}

#[test]
fn touching_a_record_renews_it_or_drops_it() {
    let record = |version| outputs_v1::OutputRecord {
        version,
        package: "package".into(),
        unit: "x".into(),
        last_used: 3,
        paths: vec![path("/root/build/x")],
    };
    let touched = outputs_v1::touch(Some(record(1)), 20).unwrap();
    assert_eq!(touched.last_used, 20);
    assert_eq!(texts(&touched.paths), ["/root/build/x"]);
    assert_eq!(outputs_v1::touch(Some(record(2)), 20), None);
    assert_eq!(outputs_v1::touch(None, 20), None);
}

#[test]
fn recording_foreign_paths_is_refused() {
    let roots = [path("/root/build")];
    let error = outputs_v1::record(
        &path("/root/build"),
        "package",
        "x",
        vec![path("/root/build/ok"), path("else/where")],
        &roots,
        1,
    )
    .unwrap_err();
    assert_eq!(error, OwnershipError::Outside { path: path("else/where") });
}

#[test]
fn records_are_kept_below_the_build_root() {
    assert_eq!(
        text(&record_path(&path("/b"), "package", "unit")),
        "/b/.input-variants/v1/outputs/package/unit.json"
    );
    assert_eq!(
        text(&ownership("unit", None, &[]).record_path()),
        "/root/build/.input-variants/v1/outputs/package/unit.json"
    );
}

#[test]
fn owned_paths_leave_out_what_lies_below_another() {
    let paths = ["/b/x/y", "/b/z", "/b/x", "/b/x/y/z", "/b/z/", "/a/long/path"].map(path);
    assert_eq!(texts(&minimal_paths(paths.to_vec())), ["/b/x", "/b/z", "/a/long/path"]);
    let paths = ["/b/x/y", "/b/z", "/b/x", "/b/xx"].map(path);
    assert_eq!(texts(&measured_paths(&paths.to_vec())), ["/b/x", "/b/xx", "/b/z"]);
}

#[test]
fn sizes_saturate() {
    assert_eq!(output_size(&vec![1, 2, 3]), 6);
    assert_eq!(output_size(&vec![u64::MAX, 2]), u64::MAX);
    assert_eq!(output_size(&Vec::new()), 0);
    let entries = vec![
        Entry { is_file: false, len: 4096 },
        Entry { is_file: true, len: 5 },
        Entry { is_file: true, len: 7 },
    ];
    assert_eq!(path_size(&PathNode::Directory { entries }), 12);
    assert_eq!(path_size(&PathNode::Leaf { len: 3 }), 3);
    assert_eq!(path_size(&PathNode::Missing), 0);
}

#[test]
fn one_lock_is_held_where_the_roots_are_one() {
    assert_eq!(
        texts(&variant_locks(&path("/b"), &path("/b/"))),
        ["/b/.cargo-input-variants-lock"]
    );
    assert_eq!(
        texts(&variant_locks(&path("/b"), &path("/t"))),
        ["/b/.cargo-input-variants-lock", "/t/.cargo-input-variants-lock"]
    );
}

#[test]
fn the_command_needs_both_directories_and_a_limit() {
    let current = path("/work");
    let args = |build: Option<&str>, target: Option<&str>, max_age, max_size| CleanArgs {
        build_dir: build.map(path),
        target_dir: target.map(path),
        max_age,
        max_size,
        dry_run: true,
    };
    assert_eq!(
        clean_variants(&args(None, None, None, None), &current).unwrap_err(),
        [Required::BuildDir, Required::TargetDir, Required::Retention]
    );
    assert_eq!(
        clean_variants(&args(Some("b"), Some("t"), None, None), &current).unwrap_err(),
        [Required::Retention]
    );
    assert_eq!(
        clean_variants(&args(Some("b"), None, Some(1), Some(2)), &current).unwrap_err(),
        [Required::TargetDir]
    );

    let plan = clean_variants(&args(Some("b"), Some("/t"), None, Some(2)), &current).unwrap();
    assert_eq!(text(&plan.build_root), "/work/b");
    assert_eq!(text(&plan.target_root), "/t");
    assert_eq!(
        texts(&plan.locks),
        ["/work/b/.cargo-input-variants-lock", "/t/.cargo-input-variants-lock"]
    );
    assert_eq!(plan.action(), "Would remove");
    let (_, request) = plan.begin(10);
    assert!(matches!(
        request,
        Request::List { root } if text(&root) == "/work/b/.input-variants/v1/outputs"
    ));

    let same = CleanArgs { dry_run: false, ..args(Some("x"), Some("/work/x"), Some(1), Some(2)) };
    let plan = clean_variants(&same, &current).unwrap();
    assert_eq!(texts(&plan.locks), ["/work/x/.cargo-input-variants-lock"]);
    assert_eq!(plan.action(), "Removed");
}
