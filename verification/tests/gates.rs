//! What is refused, what is kept out, and what does not depend on the machine.

use rb::build_script::BuildOutput;
use rb::build_script::env_name;
use rb::commands::Planned;
use rb::config::CargoConfig;
use rb::config::CliConfig;
use rb::config::set_cli_config;
use rb::exec::ingest;
use rb::exec::lookup;
use rb::exec::uses_store;
use rb::bundle::node_named;
use rb::bundle::pkgid;
use rb::features::FeatureInfo;
use rb::features::InfoEntry;
use rb::features::Platforms;
use rb::gc::BlobFile;
use rb::gc::GcOptions;
use rb::gc::gc;
use rb::cfgexpr::PlatformCfg;
use rb::host::release_semver;
use rb::host::rustc_is_nightly;
use rb::host::rustc_version;
use rb::installs::has_root_package;
use rb::invocation::Invocation;
use rb::invocation::Normalizer;
use rb::lockfile::LockPkg;
use rb::lockfile::Lockfile;
use rb::manifest::CRATES_IO;
use rb::manifest::DepDecl;
use rb::manifest::DepKind;
use rb::manifest::DepSource;
use rb::manifest::Package;
use rb::manifest::clean_path;
use rb::manifest::upsert_dependency;
use rb::registry::IndexEntry;
use rb::registry::parse_entry;
use rb::registry::select_version;
use rb::registry::sum_agrees;
use rb::resolve::Got;
use rb::resolve::Graph;
use rb::resolve::Node;
use rb::resolve::Pick;
use rb::resolve::PkgId;
use rb::resolve::Prefs;
use rb::resolve::SourceError;
use rb::resolve::SourceId;
use rb::session::Compaction;
use rb::session::clean_dir;
use rb::session::compaction;
use rb::session::restrictions;
use rb::session::verb;
use rb::state::ArchiveFile;
use rb::state::spent_archives;
use rb::store::Attempt;
use rb::store::Entry;
use rb::store::ExtraInputs;
use rb::store::FileInput;
use rb::store::LinkKind;
use rb::store::LinkMode;
use rb::store::OutputFile;
use rb::store::Step;
use rb::store::Store;
use rb::store::UnitManifest;
use rb::store::place;
use rb::strmap::StrMap;
use rb::strmap::StrSet;
use rb::tree::features_text;
use rb::unit::Mode;
use rb::value::parse_document;
use rb::version::Version;
use rb::version::VersionReq;
use rb::workspace::Disk;
use rb::workspace::Env;
use rb::workspace::FeatureRequest;
use rb::workspace::FeatureStep;
use rb::workspace::LoadOptions;
use rb::workspace::LoadRefused;
use rb::workspace::LoadStep;
use rb::workspace::LockRefused;
use rb::workspace::Resolution;
use rb::workspace::ResolverVersion;
use rb::workspace::UpdateError;
use rb::workspace::Workspace;
use rb::workspace::commits_lock;

fn decl(name: &str, req: &str) -> DepDecl {
    DepDecl {
        name: name.to_owned(),
        rename: None,
        req: VersionReq::parse(req).unwrap(),
        source: DepSource::Registry(CRATES_IO.to_owned()),
        kind: DepKind::Normal,
        optional: false,
        default_features: true,
        features: Vec::new(),
        platform: None,
    }
}

/// A workspace with one member that depends on `a`.
fn workspace(locked: bool, resolver: ResolverVersion) -> Workspace {
    let package = Package {
        name: "app".into(),
        version: Version::new(0, 1, 0),
        edition: "2021".into(),
        manifest_path: "/ws/Cargo.toml".into(),
        root: "/ws".into(),
        links: None,
        authors: Vec::new(),
        description: None,
        homepage: None,
        repository: None,
        license: None,
        license_file: None,
        rust_version: None,
        readme: None,
        default_run: None,
        deps: vec![decl("a", "^1")],
        features: StrMap::new(),
        targets: Vec::new(),
        lints: None,
    };
    let mut node = Node::new(PkgId { name: "app".into(), version: Version::new(0, 1, 0), source: SourceId::Path("/ws".into()) });
    node.is_member = true;
    node.package = Some(package);
    let mut graph = Graph::new();
    graph.add(node);
    Workspace {
        root: "/ws".into(),
        root_manifest_path: "/ws/Cargo.toml".into(),
        root_manifest: Vec::new(),
        current_manifest: "/ws/Cargo.toml".into(),
        target_dir: "/ws/target".into(),
        resolver,
        graph,
        members: vec![0],
        default_members: vec![0],
        pkgs: Vec::new(),
        cargo: "/bin/rb".into(),
        registries: StrMap::new(),
        patches: StrMap::new(),
        locals: 1,
        locked,
        ignore_rust_version: false,
        lock_version: 3,
        rustc_version: Some(Version::new(1, 70, 0)),
    }
}

fn loaded(locked: bool, packages: &StrMap<Package>, lock: Option<&Lockfile>) -> Result<LoadStep, LoadRefused> {
    let mut manifests = StrMap::new();
    let table = parse_document("[package]\nname = \"app\"\nversion = \"0.1.0\"\n[dependencies]\na = \"1\"\n").unwrap();
    manifests.insert("/ws/Cargo.toml", Some(table));
    let disk = Disk { manifests, globs: StrMap::new() };
    let opts = LoadOptions { manifest_path: None, locked, offline: true, ignore_rust_version: false, vendor: None };
    let env = Env { home: "/h", rustc_version: None, registries: StrMap::new(), download_mirror: None, cargo: "/bin/rb" };
    Workspace::load(&opts, "/ws", env, &disk, packages, lock)
}

#[test]
fn workspaces_are_loaded_package_by_package() {
    let mut packages: StrMap<Package> = StrMap::new();
    assert!(matches!(loaded(true, &packages, None), Ok(LoadStep::Need(d)) if d == "/ws"));
    let node = workspace(false, ResolverVersion::V2).graph.nodes.remove(0);
    packages.insert("/ws", node.package.unwrap());
    let refused = loaded(true, &packages, None);
    assert!(matches!(refused, Err(LoadRefused::Lock(LockRefused::NeedsUpdate(p))) if p == "/ws/Cargo.lock"));
    let empty = Lockfile { version: 4, packages: Vec::new() };
    assert!(matches!(loaded(true, &packages, Some(&empty)), Err(LoadRefused::Lock(LockRefused::NeedsUpdate(_)))));
    let Ok(LoadStep::Loaded(ws, stale)) = loaded(false, &packages, None) else { panic!("not loaded") };
    assert!(stale && ws.members == [0] && ws.default_members == [0] && ws.locals == 1 && !ws.locked);
    let Ok(LoadStep::Loaded(ws, stale)) = loaded(true, &packages, Some(&lock_with(CRATES_IO))) else { panic!("not loaded") };
    assert!(!stale && ws.locked && ws.graph.nodes.len() == 2);
    assert_eq!(ws.target_dir, "/ws/target");
}

fn lock_with(source: &str) -> Lockfile {
    let a = LockPkg { name: "a".into(), version: Version::new(1, 2, 0), source: Some(source.into()), checksum: None, dependencies: Vec::new() };
    let app = LockPkg {
        name: "app".into(),
        version: Version::new(0, 1, 0),
        source: None,
        checksum: None,
        dependencies: vec![rb::lockfile::LockDep { name: "a".into(), version: None, source: None }],
    };
    Lockfile { version: 4, packages: vec![a, app] }
}

#[test]
fn a_locked_workspace_is_not_resolved_anew() {
    let mut ws = workspace(true, ResolverVersion::V2);
    assert!(matches!(ws.lock(None), Err(LockRefused::NeedsUpdate(p)) if p == "/ws/Cargo.lock"));
    let empty = Lockfile { version: 4, packages: Vec::new() };
    assert!(matches!(ws.lock(Some(&empty)), Err(LockRefused::NeedsUpdate(_))));
    assert!(matches!(workspace(false, ResolverVersion::V2).lock(None), Ok(true)));
    assert!(matches!(workspace(false, ResolverVersion::V2).lock(Some(&empty)), Ok(true)));
    let mut covered = workspace(true, ResolverVersion::V2);
    assert!(matches!(covered.lock(Some(&lock_with(CRATES_IO))), Ok(false)));
    assert_eq!((covered.lock_version, covered.locked, covered.members.len()), (4, true, 1));
    let odd = workspace(false, ResolverVersion::V2).lock(Some(&lock_with("carrier-pigeon+x")));
    assert!(matches!(odd, Err(LockRefused::Source(SourceError::Unsupported(_)))));
    assert_eq!(ws.relock(false), Ok(false));
    assert_eq!(ws.relock(true), Err("/ws/Cargo.lock".to_owned()));
    ws.set_locked(false);
    assert_eq!(ws.relock(true), Ok(true));
}

#[test]
fn features_do_not_rewrite_a_locked_lockfile() {
    let none: Vec<String> = Vec::new();
    let req = FeatureRequest { features: &none, all_features: false, no_default_features: false };
    let platforms = Platforms { host: PlatformCfg { triple: "x", cfg: &[] }, targets: vec![PlatformCfg { triple: "x", cfg: &[] }] };
    let step = |locked: bool, relocked: bool| {
        workspace(locked, ResolverVersion::V2).resolve_features(&vec![0], &req, &platforms, &Vec::new(), relocked).unwrap()
    };
    assert!(matches!(step(true, false), FeatureStep::Refused(p) if p == "/ws/Cargo.lock"));
    assert!(matches!(step(false, false), FeatureStep::Relock));
    assert!(matches!(step(false, true), FeatureStep::NotLocked(d, p) if d == "a" && p == "app"));
}

#[test]
fn updates_respect_the_lock() {
    let ws = workspace(true, ResolverVersion::V2);
    let new = lock_with(CRATES_IO);
    let specs = vec!["a".to_owned()];
    assert!(matches!(ws.update(&specs, None, &new, Some("old"), "new", false), Err(UpdateError::NeedsUpdate(p)) if p == "/ws/Cargo.lock"));
    assert!(matches!(ws.update(&specs, None, &new, Some("new"), "new", false), Ok(true)));
    assert!(matches!(
        ws.update(&specs, Some("9.9.9"), &new, None, "new", false),
        Err(UpdateError::NotReached(n, p)) if n == "a" && p == "9.9.9"
    ));
    let open = workspace(false, ResolverVersion::V2);
    assert!(matches!(open.update(&specs, Some("1.2.0"), &new, None, "new", true), Ok(false)));
    assert!(ws.may_update(false) && !ws.may_update(true) && open.may_update(true));
    assert!(commits_lock(None, "x") && commits_lock(Some("y"), "x") && !commits_lock(Some("x"), "x"));
    assert_eq!(restrictions(false, false, true, false), (true, true));
    assert_eq!(restrictions(true, false, false, true), (true, true));
    assert_eq!(restrictions(false, false, false, false), (false, false));
}

fn entry(vers: &str, rust: &str) -> IndexEntry {
    let line = format!(
        r#"{{"name":"a","vers":"{vers}","deps":[],"cksum":"c","features":{{}},"yanked":false,"rust_version":{rust}}}"#
    );
    parse_entry(&line, CRATES_IO).unwrap()
}

#[test]
fn the_third_resolver_minds_the_compiler() {
    let pick = |ws: &Workspace| {
        let mut g = Graph::new();
        let es = vec![entry("1.0.0", "\"1.60\""), entry("1.3.0", "null"), entry("1.9.0", "\"1.80\"")];
        assert!(matches!(ws.select_for(&mut g, &decl("a", "^1"), &Prefs::from_lock(None), false, Got::Entries(es)), Pick::Use(0)));
        g.nodes[0].id.version.text()
    };
    let mut third = workspace(false, ResolverVersion::V3);
    assert_eq!(third.msrv().map(Version::text).as_deref(), Some("1.70.0"));
    assert_eq!(pick(&third), "1.3.0");
    third.ignore_rust_version = true;
    assert!(third.msrv().is_none());
    assert_eq!(pick(&third), "1.9.0");
    assert!(workspace(false, ResolverVersion::V2).msrv().is_none());
    assert_eq!(pick(&workspace(false, ResolverVersion::V2)), "1.9.0");
}

#[test]
fn the_newest_version_is_selected() {
    let es = vec![entry("1.0.0", "null"), entry("1.10.0", "null"), entry("1.9.0", "null"), entry("1.10.0-rc.1", "null")];
    assert_eq!(select_version(&es, None).unwrap().vers.text(), "1.10.0");
    assert_eq!(select_version(&es, Some("~1.9")).unwrap().vers.text(), "1.9.0");
}

fn planned(cacheable: bool) -> Planned {
    Planned {
        key: "key".into(),
        name: "0123456789abcdef0123456789abcdef".into(),
        input_digest: String::new(),
        inv: Invocation::new("rustc", "/ws"),
        out_dir: "/t".into(),
        crate_name: "a".into(),
        descr: "(lib)",
        bin_name: None,
        own_run: None,
        to_link: Vec::new(),
        lib_reqs: Vec::new(),
        needs_link: false,
        emits_meta: true,
        cacheable,
    }
}

fn stored(input: &str, used: u64, blob: &str) -> Entry {
    Entry {
        label: input.into(),
        created: used,
        last_used: used,
        outputs: vec![OutputFile { name: "o".into(), blob: blob.into(), executable: false, size: 1, templated: false }],
        dirs: Vec::new(),
        symlinks: Vec::new(),
        inputs: ExtraInputs { files: vec![FileInput { path: input.into(), hash: None }], env: Vec::new() },
        payload: None,
        diagnostics: Vec::new(),
        duration_ms: 1,
    }
}

#[test]
fn units_that_stay_local_are_neither_stored_nor_served() {
    let store = Store::open("/s");
    let mut files = StrSet::new();
    files.insert(&store.blob_path("abcd"));
    assert!(uses_store(&planned(true), true) && !uses_store(&planned(false), true) && !uses_store(&planned(true), false));
    let m = ingest(&planned(true), true, None, stored("x", 5, "abcd")).unwrap();
    assert_eq!((m.key.as_str(), m.entries.len()), ("key", 1));
    assert_eq!(lookup(&planned(true), true, &store, &files, &m.entries, &vec![true]), Some(0));
    assert_eq!(lookup(&planned(true), true, &store, &files, &m.entries, &vec![false]), None);
    assert_eq!(lookup(&planned(false), true, &store, &files, &m.entries, &vec![true]), None);
    assert_eq!(lookup(&planned(true), false, &store, &files, &m.entries, &vec![true]), None);
    assert!(ingest(&planned(false), true, None, stored("x", 5, "abcd")).is_none());
    assert!(ingest(&planned(true), false, None, stored("x", 5, "abcd")).is_none());
}

#[test]
fn what_was_stored_is_served_from_a_full_manifest() {
    let mut m = UnitManifest { key: "key".into(), entries: Vec::new() };
    for i in 0..8u64 {
        m.upsert(stored(&format!("f{i}"), i, "b"));
    }
    assert_eq!(m.entries.len(), 8);
    let m = ingest(&planned(true), true, Some(m), stored("new", 8, "abcd")).unwrap();
    assert_eq!(m.entries.len(), 8);
    assert_eq!(m.entries[0].label, "new");
    assert!(m.entries.iter().all(|e| e.label != "f0"));
}

#[test]
fn reused_files_have_the_checksum() {
    assert!(sum_agrees(Some("ABcd"), "abCD"));
    assert!(!sum_agrees(Some("abcd"), "abce"));
    assert!(!sum_agrees(None, "abcd"));
}

#[test]
fn worktrees_become_tokens() {
    let form = |w: &str| {
        let n = Normalizer::new(&format!("{w}/target"), None, w, None);
        n.apply(&format!("-L{w}/target/deps {w}/src:{w} /other"))
    };
    assert_eq!(form("/home/me/one"), "-L{TARGET}/deps {WS}/src:{WS} /other");
    assert_eq!(form("/tmp/two"), form("/home/me/one"));
}

#[test]
fn outputs_are_read_line_by_line() {
    let a = "cargo:rustc-cfg=x\ncargo:rustc-flags=-l foo -L/p\n";
    let b = "cargo::metadata=k=v\ncargo:rustc-cfg=y\ncargo:rustc-link-lib=bar";
    let both = BuildOutput::parse(&format!("{a}{b}"));
    assert_eq!(both.cfgs, ["x", "y"]);
    assert_eq!(both.link_libs, ["foo", "bar"]);
    assert_eq!(both.link_search, ["/p"]);
    assert_eq!(both.metadata, [("k".to_owned(), "v".to_owned())]);
    assert_eq!(env_name("serde-json"), "SERDE_JSON");
}

#[test]
fn the_last_arguments_hold() {
    let mut cli = CliConfig { specs: Vec::new() };
    let files = vec![("/w/.cargo/config.toml".to_owned(), "[build]\ntarget-dir = \"from-file\"\n".to_owned())];
    let texts: StrMap<String> = StrMap::new();
    let env: StrMap<String> = StrMap::new();
    let dir = |cli: &CliConfig| CargoConfig::load(&files, "/w", cli, &texts).unwrap().target_dir("/w", &env).unwrap().unwrap();
    assert_eq!(dir(&cli), "/w/from-file");
    set_cli_config(&mut cli, vec!["build.target-dir=/a".to_owned()]);
    assert_eq!(dir(&cli), "/a");
    set_cli_config(&mut cli, vec!["build.target-dir=/b".to_owned()]);
    assert_eq!(dir(&cli), "/b");
    set_cli_config(&mut cli, Vec::new());
    assert_eq!(dir(&cli), "/w/from-file");
    assert!(CargoConfig::load(&vec![("/w/c".to_owned(), "[".to_owned())], "/w", &cli, &texts).is_err());
}

#[test]
fn clean_paths_stay_clean() {
    for (p, want) in [("/a/../../b/./c", "/b/c"), ("./x//y/.", "x/y"), ("/..", "/"), ("a/..", "")] {
        assert_eq!(clean_path(p), want);
        assert_eq!(clean_path(want), want);
    }
}

#[test]
fn a_line_is_put_in_once() {
    for text in ["", "[package]\nname = \"x\"\n", "[dependencies]\na = \"1\"\n\n[features]\n"] {
        let once = upsert_dependency(text, "dependencies", "a", "a = \"2\"");
        assert_eq!(upsert_dependency(&once, "dependencies", "a", "a = \"2\""), once);
        assert!(once.lines().any(|l| l == "a = \"2\""));
        assert!(text.lines().filter(|l| !l.starts_with("a =")).all(|l| once.lines().any(|m| m == l)));
    }
}

#[test]
fn loadable_libraries_are_not_cloned() {
    let store = Store::open("/s");
    for mode in [LinkMode::Auto, LinkMode::Reflink] {
        let m = store.materialize("abcd", "/t/libm.so", mode).mode;
        assert_eq!(place(m, true, &Vec::new()), Step::Try(LinkKind::Hardlink));
        assert_eq!(place(m, true, &vec![Attempt::Failed, Attempt::Done]), Step::Placed(LinkKind::Copy));
        assert_eq!(place(m, true, &vec![Attempt::Done]), Step::Placed(LinkKind::Hardlink));
    }
    assert_ne!(store.blob_path("abcd"), store.blob_path("abce"));
}

#[test]
fn the_least_recently_used_goes_first() {
    let unit = |key: &str, used: u64, blob: &str| UnitManifest { key: key.into(), entries: vec![stored(key, used, blob)] };
    let units = vec![unit("late", 30, "b3"), unit("early", 10, "b1"), unit("mid", 20, "b2")];
    let blob = |n: &str| BlobFile { name: n.into(), len: 10, links: 1, age: Some(100_000) };
    let blobs = vec![blob("b1"), blob("b2"), blob("b3")];
    let opts = GcOptions {
        max_size: Some(15),
        max_age_secs: None,
        dry_run: false,
        pinned: StrSet::new(),
        remove: StrSet::new(),
        hot: None,
        concurrent: false,
    };
    assert_eq!(gc(40, &opts, &units, &blobs).units, [1, 2]);
}

#[test]
fn documents_that_lie_too_deep_are_errors() {
    let deep = format!("x = {}1{}", "[".repeat(200), "]".repeat(200));
    assert!(parse_document(&deep).is_err());
    let t = parse_document("a = [[1, 2], [\"x\"]]\n[[b]]\nc = {d = true}\n").unwrap();
    assert_eq!(t.len(), 2);
    assert!(matches!(&t[0].1, rb::value::Toml::Array(l) if l.len() == 2));
}

#[test]
fn compilers_tell_their_version() {
    let text = "rustc 1.90.0-nightly (abc 2025-01-01)\nhost: x\nrelease: 1.90.0-nightly\n";
    assert_eq!(rustc_version(text).unwrap().text(), "1.90.0");
    assert!(rustc_is_nightly(text) && !rustc_is_nightly("rustc 1.90.0\n") && rustc_is_nightly("1.91.0-dev"));
    assert!(rustc_version("rustc 1.90.0\n").is_none());
    assert_eq!(release_semver("1.2.3").unwrap().text(), "1.2.3");
    assert!(release_semver("x").is_none());
}

#[test]
fn old_archives_go() {
    let file = |name: &str, modified: u64, restored: bool| ArchiveFile { name: name.to_owned(), modified, restored };
    let l = vec![
        file("dep-0000000000000001.tar.zst", 1, false),
        file("dep-0000000000000002.tar.zst", 2, false),
        file("other-0000000000000003.tar.zst", 0, false),
        file("dep-0000000000000004.tar.zst", 4, false),
        file("dep-0000000000000005.tar.zst", 5, false),
        file("dep-00000000000000aa.tar.zst", 0, true),
        file("dep-00000000000000bb.tar.zst", 0, false),
        file("odd", 0, true),
    ];
    let mut live = StrSet::new();
    live.insert("00000000000000aa");
    live.insert("00000000000000bb");
    assert_eq!(spent_archives(&l, &live), [0, 5]);
}

#[test]
fn small_decisions() {
    assert_eq!((verb(Mode::Check), verb(Mode::Build)), ("Checking", "Compiling"));
    assert_eq!(compaction(Some("off")), Compaction::Off);
    assert_eq!(compaction(Some("sync")), Compaction::Now);
    assert_eq!(compaction(None), Compaction::Background);
    assert_eq!(clean_dir(None, None, "/w"), "/w/target");
    assert_eq!(clean_dir(None, Some("/c"), "/w"), "/c");
    assert_eq!(clean_dir(Some("/g"), Some("/c"), "/w"), "/g");
    let ws = workspace(false, ResolverVersion::V2);
    assert_eq!(pkgid(&ws.graph, &vec![0]).as_deref(), Some("path+file:///ws#app@0.1.0"));
    assert_eq!(pkgid(&ws.graph, &Vec::new()), None);
    assert_eq!(node_named(&ws.graph, "app", &Version::new(0, 1, 0)), Some(0));
    assert_eq!(node_named(&ws.graph, "app", &Version::new(0, 2, 0)), None);
    let mut named = StrSet::new();
    named.insert("std");
    named.insert("alloc");
    let info = FeatureInfo { named, optional_deps: StrSet::new() };
    let res = Resolution { map: vec![InfoEntry { node: 3, host: true, info }], two_sides: true };
    assert_eq!(features_text(&res, 3).as_deref(), Some("alloc,std"));
    assert_eq!(features_text(&res, 2), None);
    let m = parse_document("[package]\nname = \"x\"\n").unwrap();
    assert!(has_root_package(Some(&m)) && !has_root_package(Some(&Vec::new())) && !has_root_package(None));
}
