use std::collections::BTreeMap;
use std::collections::BTreeSet;

use beam_xref::analyzer::{AnalysisResult, Analyzer};
use beam_xref::loader::{AppDir, FileEntry, LibRoot, LoadError, Loader};
use beam_xref::types::{Apps, Atom, Interner, Modules};

fn u32be(v: u32) -> [u8; 4] {
    v.to_be_bytes()
}

fn build_chunk(id: &[u8; 4], data: &[u8]) -> Vec<u8> {
    let mut out = Vec::new();
    out.extend_from_slice(id);
    out.extend_from_slice(&u32be(data.len() as u32));
    out.extend_from_slice(data);
    let pad = (4 - data.len() % 4) % 4;
    for _ in 0..pad {
        out.push(0);
    }
    out
}

/// A small module artifact: `name`, exporting each of `exports`, importing
/// each (module, function, arity) of `imports`.
fn build_beam(name: &str, exports: &[(&str, u32)], imports: &[(&str, &str, u32)]) -> Vec<u8> {
    let mut atoms: Vec<String> = vec![name.to_string()];
    let mut index = |atoms: &mut Vec<String>, s: &str| -> u32 {
        match atoms.iter().position(|a| a == s) {
            Some(i) => (i + 1) as u32,
            None => {
                atoms.push(s.to_string());
                atoms.len() as u32
            }
        }
    };
    let mut exp = Vec::new();
    let mut exp_data = Vec::new();
    for (f, a) in exports {
        let fi = index(&mut atoms, f);
        exp.push((fi, *a));
    }
    exp_data.extend_from_slice(&u32be(exp.len() as u32));
    for (fi, a) in &exp {
        exp_data.extend_from_slice(&u32be(*fi));
        exp_data.extend_from_slice(&u32be(*a));
        exp_data.extend_from_slice(&u32be(0));
    }
    let mut imp = Vec::new();
    let mut imp_data = Vec::new();
    for (m, f, a) in imports {
        let mi = index(&mut atoms, m);
        let fi = index(&mut atoms, f);
        imp.push((mi, fi, *a));
    }
    imp_data.extend_from_slice(&u32be(imp.len() as u32));
    for (mi, fi, a) in &imp {
        imp_data.extend_from_slice(&u32be(*mi));
        imp_data.extend_from_slice(&u32be(*fi));
        imp_data.extend_from_slice(&u32be(*a));
    }
    let mut atom_data = Vec::new();
    atom_data.extend_from_slice(&u32be(atoms.len() as u32));
    for a in &atoms {
        atom_data.push(a.len() as u8);
        atom_data.extend_from_slice(a.as_bytes());
    }
    let mut payload = Vec::new();
    payload.extend_from_slice(b"BEAM");
    payload.extend_from_slice(&build_chunk(b"AtU8", &atom_data));
    payload.extend_from_slice(&build_chunk(b"ExpT", &exp_data));
    payload.extend_from_slice(&build_chunk(b"ImpT", &imp_data));
    let mut out = Vec::new();
    out.extend_from_slice(b"FOR1");
    out.extend_from_slice(&u32be(payload.len() as u32));
    out.extend_from_slice(&payload);
    out
}

fn file(name: &str, bytes: Vec<u8>) -> FileEntry {
    FileEntry { name: name.to_string(), bytes }
}

fn descriptor(app: &str, deps: &[&str]) -> FileEntry {
    let text = format!(
        "{{application, {}, [{{vsn, \"1.0\"}}, {{applications, [{}]}}]}}.",
        app,
        deps.join(", ")
    );
    file(&format!("{}.app", app), text.into_bytes())
}

fn dir(path: &str, files: Vec<FileEntry>) -> AppDir {
    AppDir { path: path.to_string(), files }
}

/// The snapshot resolved to names, for order-insensitive comparison.
fn snapshot_names(
    interner: &Interner,
    modules: &Modules,
    apps: &Apps,
    app_atoms: &[Atom],
) -> (BTreeSet<String>, BTreeMap<String, (BTreeSet<String>, BTreeSet<String>)>) {
    let mut mod_names = BTreeSet::new();
    let mut app_map = BTreeMap::new();
    for a in app_atoms {
        let app = apps.get(*a).unwrap();
        let name = app.name.resolve(interner).unwrap();
        let deps: BTreeSet<String> = app
            .deps
            .iter()
            .map(|d| d.resolve(interner).unwrap())
            .collect();
        let mods: BTreeSet<String> = app
            .modules
            .iter()
            .map(|m| m.resolve(interner).unwrap())
            .collect();
        for m in &app.modules {
            assert!(modules.get(*m).is_some());
            mod_names.insert(m.resolve(interner).unwrap());
        }
        app_map.insert(name, (deps, mods));
    }
    (mod_names, app_map)
}

#[test]
fn loads_descriptor_dependencies_through_the_heuristic() {
    let mut loader = Loader::new();
    let roots = vec![LibRoot {
        apps: vec![dir(
            "lib/myapp/ebin",
            vec![descriptor("myapp", &["kernel", "stdlib"])],
        )],
    }];
    loader.read_libs(&roots).unwrap();
    let (mut interner, _modules, apps, deps_graph) = loader.finish();
    let myapp = Atom::intern(&mut interner, "myapp");
    let app = apps.get(myapp).expect("application loaded");
    let dep_names: Vec<String> = app
        .deps
        .iter()
        .map(|d| d.resolve(&interner).unwrap())
        .collect();
    assert_eq!(dep_names, vec!["kernel".to_string(), "stdlib".to_string()]);
    assert_eq!(deps_graph.edge_count(), 2);
}

#[test]
fn included_applications_clause_is_recognized() {
    let text = "{application, x, [{included_applications, [extra_app]}]}.";
    let mut loader = Loader::new();
    let roots = vec![LibRoot {
        apps: vec![dir("r/x/ebin", vec![file("x.app", text.as_bytes().to_vec())])],
    }];
    loader.read_libs(&roots).unwrap();
    let (mut interner, _m, apps, _g) = loader.finish();
    let x = Atom::intern(&mut interner, "x");
    let app = apps.get(x).unwrap();
    assert_eq!(app.deps.len(), 1);
    assert_eq!(app.deps[0].resolve(&interner).unwrap(), "extra_app");
}

#[test]
fn unexpected_extension_fails_the_load_naming_the_file() {
    let mut loader = Loader::new();
    let roots = vec![LibRoot {
        apps: vec![dir(
            "lib/bad/ebin",
            vec![descriptor("bad", &[]), file("notes.txt", vec![1, 2, 3])],
        )],
    }];
    let err = loader.read_libs(&roots).unwrap_err();
    match err {
        LoadError::UnexpectedFile { path } => assert_eq!(path, "lib/bad/ebin/notes.txt"),
        other => panic!("wrong error: {:?}", other),
    }
}

#[test]
fn recognized_extensions_are_skipped() {
    let mut loader = Loader::new();
    let roots = vec![LibRoot {
        apps: vec![dir(
            "lib/ok/ebin",
            vec![
                descriptor("ok", &[]),
                file("ok.appup", vec![1]),
                file("ok.hrl", vec![2]),
                file("ok.am", vec![3]),
                file("README", vec![4]),
            ],
        )],
    }];
    assert!(loader.read_libs(&roots).is_ok());
}

#[test]
fn missing_descriptor_fails_the_load() {
    let mut loader = Loader::new();
    let roots = vec![LibRoot {
        apps: vec![dir(
            "lib/nodesc/ebin",
            vec![file("m.beam", build_beam("m", &[], &[]))],
        )],
    }];
    let err = loader.read_libs(&roots).unwrap_err();
    match err {
        LoadError::MissingDescriptor { dir } => assert_eq!(dir, "lib/nodesc/ebin"),
        other => panic!("wrong error: {:?}", other),
    }
}

#[test]
fn malformed_artifact_fails_the_load_naming_the_file() {
    let mut loader = Loader::new();
    let roots = vec![LibRoot {
        apps: vec![dir(
            "lib/broken/ebin",
            vec![descriptor("broken", &[]), file("bad.beam", vec![0, 1, 2, 3])],
        )],
    }];
    let err = loader.read_libs(&roots).unwrap_err();
    match err {
        LoadError::MalformedArtifact { path, .. } => {
            assert_eq!(path, "lib/broken/ebin/bad.beam")
        }
        other => panic!("wrong error: {:?}", other),
    }
}

#[test]
fn non_text_descriptor_fails_the_load() {
    let mut loader = Loader::new();
    let roots = vec![LibRoot {
        apps: vec![dir(
            "lib/raw/ebin",
            vec![file("raw.app", vec![0xFF, 0xFE, 0x00])],
        )],
    }];
    let err = loader.read_libs(&roots).unwrap_err();
    match err {
        LoadError::Io { path } => assert_eq!(path, "lib/raw/ebin/raw.app"),
        other => panic!("wrong error: {:?}", other),
    }
}

#[test]
fn duplicate_application_name_last_write_wins() {
    let make_roots = || {
        vec![
            LibRoot {
                apps: vec![dir(
                    "r1/dup/ebin",
                    vec![descriptor("dup", &["kernel"])],
                )],
            },
            LibRoot {
                apps: vec![dir(
                    "r2/dup/ebin",
                    vec![descriptor("dup", &["stdlib"])],
                )],
            },
        ]
    };
    let mut loader = Loader::new();
    loader.read_libs(&make_roots()).unwrap();
    let (mut interner, _m, apps, _g) = loader.finish();
    let dup = Atom::intern(&mut interner, "dup");
    let app = apps.get(dup).unwrap();
    assert_eq!(app.deps.len(), 1);
    assert_eq!(app.deps[0].resolve(&interner).unwrap(), "stdlib");
}

fn two_root_set() -> Vec<LibRoot> {
    vec![
        LibRoot {
            apps: vec![dir(
                "r/one/ebin",
                vec![
                    descriptor("one", &["two"]),
                    file(
                        "alpha.beam",
                        build_beam("alpha", &[("go", 0)], &[("beta", "run", 1)]),
                    ),
                ],
            )],
        },
        LibRoot {
            apps: vec![dir(
                "r/two/ebin",
                vec![
                    descriptor("two", &[]),
                    file("beta.beam", build_beam("beta", &[("run", 1)], &[])),
                ],
            )],
        },
    ]
}

#[test]
fn reversed_root_order_produces_identical_snapshot_as_sets() {
    let forward = two_root_set();
    let mut backward = two_root_set();
    backward.reverse();
    for root in &mut backward {
        root.apps.reverse();
    }

    let mut l1 = Loader::new();
    l1.read_libs(&forward).unwrap();
    let (mut i1, m1, a1, _g1) = l1.finish();
    let mut l2 = Loader::new();
    l2.read_libs(&backward).unwrap();
    let (mut i2, m2, a2, _g2) = l2.finish();

    let one1 = Atom::intern(&mut i1, "one");
    let two1 = Atom::intern(&mut i1, "two");
    let one2 = Atom::intern(&mut i2, "one");
    let two2 = Atom::intern(&mut i2, "two");
    let s1 = snapshot_names(&i1, &m1, &a1, &[one1, two1]);
    let s2 = snapshot_names(&i2, &m2, &a2, &[one2, two2]);
    assert_eq!(s1, s2);
}

#[test]
fn loaded_snapshot_analyzes_cleanly_end_to_end() {
    let mut loader = Loader::new();
    loader.read_libs(&two_root_set()).unwrap();
    let (_interner, modules, apps, deps_graph) = loader.finish();
    let analyzer = Analyzer::new(modules, apps, deps_graph);
    let results = analyzer.run(&vec![]);
    assert!(results.is_empty());
}

#[test]
fn loaded_snapshot_reports_missing_dependency_end_to_end() {
    // as two_root_set, but application one declares no dependency on two
    let roots = vec![
        LibRoot {
            apps: vec![dir(
                "r/one/ebin",
                vec![
                    descriptor("one", &[]),
                    file(
                        "alpha.beam",
                        build_beam("alpha", &[("go", 0)], &[("beta", "run", 1)]),
                    ),
                ],
            )],
        },
        LibRoot {
            apps: vec![dir(
                "r/two/ebin",
                vec![
                    descriptor("two", &[]),
                    file("beta.beam", build_beam("beta", &[("run", 1)], &[])),
                ],
            )],
        },
    ];
    let mut loader = Loader::new();
    loader.read_libs(&roots).unwrap();
    let (mut interner, modules, apps, deps_graph) = loader.finish();
    let alpha = Atom::intern(&mut interner, "alpha");
    let beta = Atom::intern(&mut interner, "beta");
    let one = Atom::intern(&mut interner, "one");
    let two = Atom::intern(&mut interner, "two");
    let analyzer = Analyzer::new(modules, apps, deps_graph);
    let results = analyzer.run(&vec![one]);
    assert_eq!(results.len(), 1);
    assert_eq!(
        results[0],
        (
            alpha,
            AnalysisResult::MissingDependency { module: beta, app_from: one, app_to: two }
        )
    );
}

#[test]
fn dependency_on_unloaded_application_is_a_graph_node() {
    let mut loader = Loader::new();
    let roots = vec![LibRoot {
        apps: vec![dir(
            "r/solo/ebin",
            vec![descriptor("solo", &["phantom"])],
        )],
    }];
    loader.read_libs(&roots).unwrap();
    let (mut interner, _m, apps, deps_graph) = loader.finish();
    let phantom = Atom::intern(&mut interner, "phantom");
    assert!(apps.get(phantom).is_none());
    assert!(deps_graph.contains_node(phantom.0));
}

#[test]
fn dot_files_are_skipped() {
    // a leading dot is not an extension separator
    let mut loader = Loader::new();
    let roots = vec![LibRoot {
        apps: vec![dir(
            "lib/dots/ebin",
            vec![descriptor("dots", &[]), file(".hidden", vec![0xAA])],
        )],
    }];
    assert!(loader.read_libs(&roots).is_ok());
}

#[test]
fn later_descriptor_in_one_directory_wins() {
    let mut loader = Loader::new();
    let roots = vec![LibRoot {
        apps: vec![dir(
            "lib/twodesc/ebin",
            vec![descriptor("first", &["kernel"]), descriptor("second", &["stdlib"])],
        )],
    }];
    loader.read_libs(&roots).unwrap();
    let (mut interner, _m, apps, _g) = loader.finish();
    let first = Atom::intern(&mut interner, "first");
    let second = Atom::intern(&mut interner, "second");
    assert!(apps.get(first).is_none());
    let app = apps.get(second).unwrap();
    assert_eq!(app.deps[0].resolve(&interner).unwrap(), "stdlib");
}
