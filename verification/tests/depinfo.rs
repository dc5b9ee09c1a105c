//! Dep-info files: what they say, and when they are written.

use std::collections::BTreeMap;

use input_variants::locking::LockManager;
use input_variants::output_depinfo::{
    output_depinfo, DepInfoError, Effect, FileFlavor, Observation, OutputFile, Request,
    UnitDependency, UnitInputs,
};
use input_variants::path_buf::PathBuf;
use input_variants::render::{escape_spaces, normalize_path, render_filename};

fn path(text: &str) -> PathBuf {
    PathBuf::new(text)
}

fn text(path: &PathBuf) -> String {
    String::from_utf8(path.as_bytes().to_vec()).unwrap()
}

fn paths(texts: &[&str]) -> Vec<PathBuf> {
    texts.iter().map(|t| path(t)).collect()
}

fn local(unit: u64) -> UnitDependency {
    UnitDependency { unit, local: true }
}

fn unit(files: Option<&[&str]>, watched: &[&str], dependencies: &[UnitDependency]) -> UnitInputs {
    UnitInputs {
        runs_build_script: false,
        package_root: path("/ws/pkg"),
        dep_info: files.map(paths),
        rerun_if_changed: paths(watched),
        dependencies: dependencies.to_vec(),
    }
}

fn output(file: &str, hardlink: Option<&str>, flavor: FileFlavor) -> OutputFile {
    OutputFile { path: path(file), hardlink: hardlink.map(path), flavor }
}

#[derive(Default)]
struct World {
    basedir: Option<&'static [u8]>,
    fine_grain_locking: bool,
    present: Vec<&'static str>,
    previous: BTreeMap<&'static str, Vec<&'static str>>,
    visited: Vec<(u64, bool)>,
    changes: Vec<String>,
}

impl World {
    fn run(
        &mut self,
        units: &dyn Fn(u64) -> UnitInputs,
        outputs: &dyn Fn() -> Vec<OutputFile>,
    ) -> Result<(), DepInfoError> {
        let (mut run, mut request) = output_depinfo(1, &path("/target"), self.fine_grain_locking);
        loop {
            let seen = match request {
                Request::Unit { unit, locked } => {
                    self.visited.push((unit, locked));
                    Observation::Unit { inputs: units(unit) }
                }
                Request::Basedir => Observation::Basedir {
                    path: self.basedir.map(|bytes| PathBuf::from_bytes(bytes.to_vec())),
                },
                Request::Outputs => Observation::Outputs { outputs: outputs() },
                Request::Exists { path } => {
                    Observation::Exists { exists: self.present.contains(&text(&path).as_str()) }
                }
                Request::Previous { path } => Observation::Previous {
                    files: self.previous.get(text(&path).as_str()).map(|files| paths(files)),
                },
                Request::Finished => return Ok(()),
                Request::Failed { error } => return Err(error),
            };
            let step = run.step(seen);
            for effect in step.effects {
                self.changes.push(match effect {
                    Effect::Lock { paths } => format!("lock {}", paths.len()),
                    Effect::Link { from, to } => format!("link {} {}", text(&from), text(&to)),
                    Effect::Write { path, contents } => {
                        format!("write {} {}", text(&path), String::from_utf8(contents).unwrap())
                    }
                    Effect::Remove { path } => format!("remove {}", text(&path)),
                });
            }
            request = step.request;
        }
    }
}

fn app() -> Vec<OutputFile> {
    vec![
        output("/target/deps/app-1", Some("/target/app"), FileFlavor::Artifact),
        output("/target/deps/app-1.pdb", Some("/target/app.pdb"), FileFlavor::DebugInfo),
        output("/target/deps/app-1.d", None, FileFlavor::Artifact),
    ]
}

fn tree(u: u64) -> UnitInputs {
    match u {
        1 => unit(
            Some(&["/ws/pkg/src/main.rs", "/ws/my lib/a.rs"]),
            &[],
            &[local(2), UnitDependency { unit: 9, local: false }, local(3)],
        ),
        2 => unit(Some(&["/ws/pkg/src/../src/lib.rs"]), &["data", "", "/abs"], &[local(3)]),
        3 => UnitInputs { runs_build_script: true, ..unit(None, &["build.rs"], &[local(1)]) },
        _ => panic!("no unit {u}"),
    }
}

#[test]
fn a_dep_info_file_names_all_local_inputs_in_order() {
    let mut world = World::default();
    world.run(&tree, &app).unwrap();
    assert_eq!(world.visited, [(1, false), (2, false), (3, false)]);
    assert_eq!(
        world.changes,
        ["write /target/app.d /target/app: /abs /ws/my\\ lib/a.rs /ws/pkg /ws/pkg/build.rs \
          /ws/pkg/data /ws/pkg/src/../src/lib.rs /ws/pkg/src/main.rs\n"]
    );
}

#[test]
fn paths_below_the_base_directory_are_written_relative_to_it() {
    let mut world = World { basedir: Some(b"/ws/./pkg/x/.."), ..World::default() };
    world.run(&tree, &app).unwrap();
    assert_eq!(
        world.changes,
        ["write /target/app.d /target/app: /abs /ws/my\\ lib/a.rs  build.rs data src/lib.rs \
          src/main.rs\n"]
    );
}

#[test]
fn an_unchanged_dep_info_file_is_left_alone() {
    let single = |_| unit(Some(&["/ws/b.rs", "/ws/a.rs"]), &[], &[]);
    let mut world = World::default();
    world.previous.insert("/target/app.d", vec!["/ws/a.rs", "/ws//b.rs"]);
    world.run(&single, &app).unwrap();
    assert!(world.changes.is_empty());

    world.previous.insert("/target/app.d", vec!["/ws/b.rs", "/ws/a.rs"]);
    world.run(&single, &app).unwrap();
    assert_eq!(world.changes, ["write /target/app.d /target/app: /ws/a.rs /ws/b.rs\n"]);
}

#[test]
fn unknown_inputs_remove_the_dep_info_file() {
    let unknown = |u| {
        if u == 1 {
            unit(Some(&["/ws/a.rs"]), &[], &[local(2), local(3)])
        } else {
            unit(None, &["ignored"], &[])
        }
    };
    let mut world = World { present: vec!["/target/app.d"], ..World::default() };
    world.run(&unknown, &app).unwrap();
    assert_eq!(world.visited, [(1, false), (2, false)]);
    assert_eq!(world.changes, ["remove /target/app.d"]);

    let mut world = World::default();
    world.run(&unknown, &app).unwrap();
    assert!(world.changes.is_empty());
}

#[test]
fn fine_grained_locking_publishes_outputs_under_locks() {
    let mut world = World {
        fine_grain_locking: true,
        present: vec!["/target/deps/app-1", "/target/deps/app-1.pdb"],
        ..World::default()
    };
    let two = |u| {
        if u == 1 {
            unit(Some(&["/ws/a.rs"]), &[], &[local(2)])
        } else {
            unit(Some(&[]), &[], &[])
        }
    };
    world.run(&two, &app).unwrap();
    assert_eq!(world.visited, [(1, false), (2, true)]);
    assert_eq!(
        world.changes,
        [
            "lock 2",
            "link /target/deps/app-1 /target/app",
            "write /target/app.d /target/app: /ws/a.rs\n",
            "link /target/deps/app-1.pdb /target/app.pdb",
        ]
    );
    let places = paths(&["/target/app", "/target/app.pdb"]);
    let locks = LockManager::new().prepare_artifact_publication(&path("/target"), &places);
    assert_eq!(locks.acquire().len(), 2);
}

#[test]
fn paths_that_are_not_text_fail_the_run() {
    let mut world = World { basedir: Some(b"/\xff"), ..World::default() };
    let error = world.run(&tree, &app).unwrap_err();
    assert!(matches!(error, DepInfoError::BasedirNotText));

    let odd = |_| UnitInputs {
        dep_info: Some(vec![PathBuf::from_bytes(b"/ws/\xff".to_vec())]),
        ..unit(None, &[], &[])
    };
    let error = World::default().run(&odd, &app).unwrap_err();
    let DepInfoError::PathNotText { path: shown } = error else { unreachable!() };
    assert_eq!(shown.as_bytes(), b"/ws/\xff");

    let odd_output = || {
        vec![OutputFile {
            path: path("/target/x"),
            hardlink: Some(PathBuf::from_bytes(b"/target/\xfe".to_vec())),
            flavor: FileFlavor::Artifact,
        }]
    };
    let error = World::default().run(&tree, &odd_output).unwrap_err();
    assert!(matches!(error, DepInfoError::PathNotText { .. }));
}

#[test]
fn normalizing_takes_out_detours() {
    for (given, expected) in [
        ("", ""),
        (".", ""),
        ("/", "/"),
        ("/..", "/"),
        ("/../a", "/a"),
        ("..", ".."),
        ("../..", "../.."),
        ("a/..", ""),
        ("a/../..", ".."),
        ("../a/../b", "../b"),
        ("a//./b/", "a/b"),
        ("/a/b/../../c", "/c"),
    ] {
        assert_eq!(text(&normalize_path(&path(given))), expected, "{given}");
    }
}

#[test]
fn spaces_are_escaped() {
    assert_eq!(escape_spaces("a b  c"), "a\\ b\\ \\ c");
    assert_eq!(escape_spaces("\u{20ac} \\ x"), "\u{20ac} \\ x".replace(" ", "\\ "));
    assert_eq!(escape_spaces(""), "");
}

#[test]
fn file_names_are_rendered_relative_to_the_base_directory() {
    let base = Some("/ws".to_owned());
    let rendered = |file: &str, base: &Option<String>| render_filename(&path(file), base).unwrap();
    assert_eq!(rendered("/ws/a/../b c", &base), "b\\ c");
    assert_eq!(rendered("/other/../x", &base), "/other/../x");
    assert_eq!(rendered("/ws/a/../b c", &None), "/ws/a/../b\\ c");
    assert_eq!(rendered("/ws", &base), "");
    let odd = PathBuf::from_bytes(b"/ws/\xff".to_vec());
    assert_eq!(render_filename(&odd, &base).unwrap_err().path.as_bytes(), b"\xff");
}
