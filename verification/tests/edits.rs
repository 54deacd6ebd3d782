//! Editing manifests, flags, and what is run.

use rb::building::RunError;
use rb::building::UnstableError;
use rb::building::no_cache_list;
use rb::building::parse_unstable;
use rb::building::profile_note;
use rb::building::replay_note;
use rb::building::redirect;
use rb::building::run_filter;
use rb::edit::AddOptions;
use rb::edit::EditError;
use rb::edit::ScaffoldError;
use rb::edit::check_add;
use rb::edit::dep_line;
use rb::edit::makes_repository;
use rb::edit::package_file;
use rb::edit::relative_path;
use rb::edit::remove;
use rb::edit::scaffold;
use rb::edit::section;
use rb::edit::split_dep;
use rb::manifest::Target;
use rb::manifest::TargetKind;
use rb::manifest::remove_dependency;
use rb::manifest::upsert_dependency;
use rb::run::TestRun;
use rb::run::command_for;
use rb::run::executable;
use rb::run::report_docs;
use rb::run::rerun_hint;
use rb::run::running;
use rb::unit::Command;
use rb::unit::TargetFilter;
use rb::value::parse_document;
use rb::version::Version;
use rb::workspace::Pkg;
use rb::workspace::Source;

fn texts(l: &[&str]) -> Vec<String> {
    l.iter().map(|s| (*s).to_owned()).collect()
}

fn adding() -> AddOptions {
    AddOptions {
        deps: texts(&["serde"]),
        path: None,
        git: None,
        branch: None,
        tag: None,
        rev: None,
        features: Vec::new(),
        no_default_features: false,
        optional: false,
        dev: false,
        build: false,
        rename: None,
    }
}

#[test]
fn lines_of_dependencies() {
    let mut o = adding();
    assert_eq!(dep_line(&o, "serde", "serde", Some("1"), "/w"), "serde = \"1\"");
    assert_eq!(dep_line(&o, "s", "serde", Some("1"), "/w"), "s = { package = \"serde\", version = \"1\" }");
    o.features = texts(&["derive,rc std", ""]);
    o.no_default_features = true;
    o.optional = true;
    assert_eq!(
        dep_line(&o, "serde", "serde", Some("1"), "/w"),
        "serde = { version = \"1\", features = [\"derive\", \"rc\", \"std\"], default-features = false, optional = true }"
    );
    let mut p = adding();
    p.path = Some("/x/lib/Cargo.toml".to_owned());
    assert_eq!(dep_line(&p, "lib", "lib", None, "/x/app"), "lib = { path = \"../lib\" }");
    let mut g = adding();
    g.git = Some("https://x/y".to_owned());
    g.rev = Some("abc".to_owned());
    assert_eq!(dep_line(&g, "y", "y", None, "/w"), "y = { git = \"https://x/y\", rev = \"abc\" }");
    assert_eq!(relative_path("/a", "b/c"), "b/c");
}

#[test]
fn requests_to_add_are_checked() {
    let mut o = adding();
    assert!(check_add(&o).is_ok());
    o.dev = true;
    o.build = true;
    assert!(matches!(check_add(&o), Err(EditError::DevAndBuild)));
    let mut n = adding();
    n.deps.clear();
    assert!(matches!(check_add(&n), Err(EditError::NoDependency)));
    let mut m = adding();
    m.deps = texts(&["a", "b"]);
    m.git = Some("u".to_owned());
    assert!(matches!(check_add(&m), Err(EditError::OnlyOne)));
    assert_eq!(section(true, false), "dev-dependencies");
    assert_eq!(split_dep("a@1.2"), ("a".to_owned(), Some("1.2".to_owned())));
    assert_eq!(split_dep("a"), ("a".to_owned(), None));
}

#[test]
fn several_dependencies_are_removed() {
    let text = "[dependencies]\na = \"1\"\nb = \"2\"\nc = \"3\"\n";
    assert_eq!(remove(text, "dependencies", &texts(&["a", "c"])).unwrap(), "[dependencies]\nb = \"2\"\n");
    assert!(matches!(remove(text, "dependencies", &texts(&["a", "zz"])), Err(EditError::NotThere(d)) if d == "zz"));
}

#[test]
fn new_packages() {
    let s = scaffold("/w/my_app", false, None, None).unwrap();
    assert_eq!(s.name, "my-app");
    assert_eq!(s.manifest, "[package]\nname = \"my-app\"\nversion = \"0.1.0\"\nedition = \"2024\"\n\n[dependencies]\n");
    assert_eq!(s.source, "src/main.rs");
    assert!(scaffold("/w/x", true, Some("2021"), Some("y")).unwrap().code.contains("pub fn add"));
    assert!(matches!(scaffold("/w/x", true, Some("1999"), None), Err(ScaffoldError::Edition(_))));
    assert!(matches!(scaffold("/w/x", true, None, Some("a b")), Err(ScaffoldError::Name(_))));
    assert!(matches!(makes_repository(Some("svn")), Err(ScaffoldError::Vcs(_))));
    assert!(makes_repository(None).unwrap() && !makes_repository(Some("none")).unwrap());
}

#[test]
fn files_of_packages() {
    let none: Vec<String> = Vec::new();
    assert!(package_file("src/lib.rs", &none, &none));
    assert!(!package_file("docs/a.png", &none, &texts(&["*.png"])));
    assert!(package_file("src/lib.rs", &texts(&["src/*.rs"]), &none));
    assert!(!package_file("tests/a.rs", &texts(&["src/*"]), &none));
    assert!(package_file("Cargo.toml", &texts(&["src/*"]), &texts(&["*"])));
    assert!(package_file("a", &none, &texts(&["[bad"])));
}

#[test]
fn unstable_flags() {
    let u = parse_unstable(&texts(&["json-target-spec", "build-std=core, compiler_builtins"])).unwrap();
    assert!(u.json_target_spec && u.build_core);
    assert!(matches!(parse_unstable(&texts(&["build-std"])), Err(UnstableError::BuildStd(l)) if l == "std,panic_unwind"));
    assert!(matches!(parse_unstable(&texts(&["magic"])), Err(UnstableError::Unknown(f)) if f == "magic"));
}

fn target(kind: TargetKind, name: &str) -> Target {
    Target {
        name: name.to_owned(),
        kind,
        crate_types: texts(&["bin"]),
        src_path: format!("/x/src/{name}.rs"),
        edition: "2021".to_owned(),
        required_features: Vec::new(),
        test: true,
        bench: true,
        doc: true,
        doctest: false,
        harness: true,
    }
}

fn package(targets: Vec<Target>, default_run: Option<&str>) -> Pkg {
    Pkg {
        id: "x".into(),
        identity: "x".into(),
        name: "x".into(),
        version: Version::new(1, 0, 0),
        manifest_path: "/x/Cargo.toml".into(),
        root: "/x".into(),
        source: Source::Workspace,
        is_member: true,
        loaded: true,
        links: None,
        edition: "2021".into(),
        targets,
        declared_features: vec![],
        proc_macro: false,
        authors: vec![],
        description: None,
        homepage: None,
        repository: None,
        license: None,
        license_file: None,
        rust_version: None,
        readme: None,
        default_run: default_run.map(str::to_owned),
        deps: vec![],
        dep_targets: vec![],
        lints: None,
    }
}

fn no_filter() -> TargetFilter {
    TargetFilter {
        lib: false,
        bins: false,
        bin_names: Vec::new(),
        examples: false,
        example_names: Vec::new(),
        tests: false,
        test_names: Vec::new(),
        benches: false,
        bench_names: Vec::new(),
        all_targets: false,
        doc: false,
    }
}

#[test]
fn the_binary_to_run() {
    let one = package(vec![target(TargetKind::Bin, "a")], None);
    assert_eq!(run_filter(Command::Run, &no_filter(), &one).unwrap(), Some("a".to_owned()));
    assert_eq!(run_filter(Command::Build, &no_filter(), &one).unwrap(), None);
    let two = package(vec![target(TargetKind::Bin, "a"), target(TargetKind::Bin, "b")], None);
    assert!(matches!(run_filter(Command::Run, &no_filter(), &two), Err(RunError::Several(l)) if l == ["a", "b"]));
    let named = package(vec![target(TargetKind::Bin, "a"), target(TargetKind::Bin, "b")], Some("b"));
    assert_eq!(run_filter(Command::Run, &no_filter(), &named).unwrap(), Some("b".to_owned()));
    assert!(matches!(run_filter(Command::Run, &no_filter(), &package(Vec::new(), None)), Err(RunError::NoBin)));
}

#[test]
fn scripts_that_are_never_cached() {
    let t = parse_document("[workspace.metadata.rb]\nno-cache-build-scripts = [\"openssl-sys\", 3]\n").unwrap();
    assert_eq!(no_cache_list(&t), ["openssl-sys"]);
    assert!(no_cache_list(&Vec::new()).is_empty());
}

#[test]
fn lists_are_redirected_and_sorted() {
    assert_eq!(redirect(&vec![3, 1, 2], &vec![0, 1, 1, 0]), [0, 1]);
}

#[test]
fn what_is_said_of_builds() {
    assert_eq!(replay_note("a", "(lib)", 2).unwrap(), "`a` (lib) generated 2 warnings");
    assert_eq!(replay_note("a", "(lib)", 1).unwrap(), "`a` (lib) generated 1 warning");
    assert_eq!(replay_note("a", "(lib)", 0), None);
    assert_eq!(profile_note("0", true), "[unoptimized + debuginfo]");
    assert_eq!(profile_note("3", false), "[optimized]");
}

#[test]
fn programs_and_their_runners() {
    assert_eq!(executable(&texts(&["/t/libx.rlib", "/t/x.d", "/t/x"])).unwrap(), "/t/x");
    assert_eq!(executable(&texts(&["/t/x.pdb"])), None);
    assert_eq!(running("/w/target/x", "/w", &texts(&["--a"])), "`target/x --a`");
    assert_eq!(command_for(&Some(texts(&["qemu", "-L"])), "/t/x"), ["qemu", "-L", "/t/x"]);
    assert_eq!(command_for(&None, "/t/x"), ["/t/x"]);
}

#[test]
fn failed_tests_are_reported() {
    let mut fast = TestRun::new(false);
    assert_eq!(fast.fail("test", "-p x --lib").unwrap(), "test failed, to rerun pass `-p x --lib`");
    assert_eq!(fast.finish(), None);
    let mut all = TestRun::new(true);
    assert_eq!(all.fail("test", "-p x --lib"), None);
    assert_eq!(all.fail("doctest", "-p x --doc"), None);
    assert_eq!(all.finish().unwrap(), "2 targets failed:\n    `-p x --lib`\n    `-p x --doc`");
    assert_eq!(rerun_hint("x", &target(TargetKind::Test, "it")), "-p x --test it");
}

#[test]
fn generated_documentation() {
    assert_eq!(report_docs(&texts(&["/d/a"])).unwrap(), "/d/a");
    assert_eq!(report_docs(&texts(&["/d/a", "/d/b"])).unwrap(), "/d/a and 1 other file");
    assert_eq!(report_docs(&texts(&["/d/a", "/d/b", "/d/c"])).unwrap(), "/d/a and 2 other files");
    assert_eq!(report_docs(&Vec::new()), None);
}

#[test]
fn a_dependency_is_taken_out_again() {
    let text = "[package]\nname = \"x\"\n\n[dependencies]\na = \"1\"\n\n[features]\nf = []\n";
    let with = upsert_dependency(text, "dependencies", "b", "b = \"2\"");
    assert_ne!(with, text);
    assert_eq!(remove_dependency(&with, "dependencies", "b").as_deref(), Some(text));
    assert_eq!(remove_dependency(text, "dependencies", "b"), None);
    let open = "[dependencies]\na = \"1\"";
    let with = upsert_dependency(open, "dependencies", "b", "b = \"2\"");
    assert_eq!(with, "[dependencies]\na = \"1\"\nb = \"2\"\n");
}
