//! Units, command lines, scheduling, state, messages and trees.

use rb::build_script::BuildOutput;
use rb::building::canonical;
use rb::building::dedupe;
use rb::building::timing_label;
use rb::building::uplift_name;
use rb::commands::CrossToolchain;
use rb::commands::Ctx;
use rb::commands::FileType;
use rb::commands::KindInfo;
use rb::commands::Planned;
use rb::commands::Rustc;
use rb::commands::TargetInfo;
use rb::commands::plan_compile;
use rb::config::Toggle;
use rb::exec::Heard;
use rb::exec::Message;
use rb::exec::Record;
use rb::exec::compile_failure;
use rb::exec::lexical_clean;
use rb::exec::read_message;
use rb::exec::template;
use rb::exec::warning_summary;
use rb::invocation::Invocation;
use rb::invocation::Normalizer;
use rb::json::Json;
use rb::keys::Seen;
use rb::keys::debug_keys;
use rb::keys::ready;
use rb::keys::source_identity;
use rb::layout::Layout;
use rb::lints::from_table;
use rb::manifest::DepDecl;
use rb::manifest::DepKind;
use rb::manifest::DepSource;
use rb::manifest::Package;
use rb::manifest::Target;
use rb::manifest::TargetKind;
use rb::messages::announced_files;
use rb::messages::artifact_files;
use rb::messages::build_finished;
use rb::messages::compiler_artifact;
use rb::messages::metadata_package;
use rb::messages::project_keys;
use rb::messages::register_project;
use rb::messages::target_message;
use rb::messages::to_json;
use rb::plan::LtoMode;
use rb::plan::topo_order;
use rb::planning::Plan;
use rb::profile::Lto;
use rb::profile::Profile;
use rb::rekey::keys_hold;
use rb::resolve::Graph;
use rb::resolve::Node;
use rb::resolve::PkgId;
use rb::resolve::SourceId;
use rb::run::run_doctest;
use rb::run::test_roots;
use rb::schedule::Ended;
use rb::schedule::Frontend;
use rb::schedule::Need;
use rb::schedule::Scheduler;
use rb::schedule::Stage;
use rb::schedule::Status;
use rb::schedule::estimate;
use rb::schedule::needed_units;
use rb::schedule::parallel_frontend;
use rb::schedule::priorities;
use rb::schedule::requirements;
use rb::session::start_units;
use rb::shell::MessageFormat;
use rb::shell::Shell;
use rb::shell::Terminal;
use rb::state::Fate;
use rb::state::ProjectState;
use rb::state::name16_of;
use rb::state::sweep_target;
use rb::store::ExtraInputs;
use rb::strmap::StrMap;
use rb::strmap::StrSet;
use rb::tree::FormatError;
use rb::tree::TreeError;
use rb::tree::Walk;
use rb::tree::edge_kinds;
use rb::tree::format_node;
use rb::tree::inverted_roots;
use rb::tree::node_text;
use rb::tree::tree;
use rb::tree::validate_tree_format;
use rb::unit::CompileKind;
use rb::unit::Doctest;
use rb::unit::Mode;
use rb::unit::Unit;
use rb::unit::UnitGraph;
use rb::unit::UnitDep;
use rb::version::Version;
use rb::version::VersionReq;
use rb::workspace::Pkg;
use rb::workspace::ResolverVersion;
use rb::workspace::Source;
use rb::workspace::Workspace;

const NAME_A: &str = "0123456789abcdef0123456789abcdef";
const NAME_B: &str = "fedcba9876543210fedcba9876543210";

fn list(l: &[&str]) -> Vec<String> {
    l.iter().map(|s| (*s).to_owned()).collect()
}

fn target_at(kind: TargetKind, name: &str, types: &[&str]) -> Target {
    Target {
        name: name.to_owned(),
        kind,
        crate_types: list(types),
        src_path: format!("/ws/{name}/src/{name}.rs"),
        edition: "2021".to_owned(),
        required_features: Vec::new(),
        test: true,
        bench: false,
        doc: true,
        doctest: true,
        harness: true,
    }
}

fn package_at(name: &str, targets: Vec<Target>) -> Pkg {
    Pkg {
        id: format!("path+file:///ws/{name}#0.1.0"),
        identity: name.to_owned(),
        name: name.to_owned(),
        version: Version::new(0, 1, 0),
        manifest_path: format!("/ws/{name}/Cargo.toml"),
        root: format!("/ws/{name}"),
        source: Source::Workspace,
        is_member: true,
        loaded: true,
        links: None,
        edition: "2021".into(),
        targets,
        declared_features: vec![],
        proc_macro: false,
        authors: vec![],
        description: None,
        homepage: None,
        repository: None,
        license: None,
        license_file: None,
        rust_version: None,
        readme: None,
        default_run: None,
        deps: vec![],
        dep_targets: vec![],
        lints: None,
    }
}

fn dev_profile() -> Profile {
    Profile {
        name: "dev".into(),
        root: "dev".into(),
        opt_level: "0".into(),
        debuginfo: "2".into(),
        debug_assertions: true,
        overflow_checks: true,
        lto: Lto::Default,
        panic: "unwind".into(),
        codegen_units: None,
        incremental: false,
        rpath: false,
        strip: None,
        split_debuginfo: None,
        codegen_backend: None,
        rustflags: vec![],
    }
}

fn unit_at(pkg: usize, mode: Mode, deps: &[(usize, Option<&str>)]) -> Unit {
    Unit {
        pkg,
        target: 0,
        kind: CompileKind::Host,
        for_host: false,
        mode,
        features: list(&["std"]),
        profile: dev_profile(),
        deps: deps.iter().map(|(u, n)| UnitDep { unit: *u, extern_name: n.map(str::to_owned) }).collect(),
    }
}

fn planned_as(name: &str, key: &str, crate_name: &str) -> Planned {
    Planned {
        key: key.to_owned(),
        name: name.to_owned(),
        input_digest: String::new(),
        inv: Invocation::new("rustc", "/ws"),
        out_dir: "/t/deps".to_owned(),
        crate_name: crate_name.to_owned(),
        descr: "(lib)",
        bin_name: None,
        own_run: None,
        to_link: Vec::new(),
        lib_reqs: Vec::new(),
        needs_link: false,
        emits_meta: true,
        cacheable: true,
    }
}

fn two_packages() -> Vec<Pkg> {
    vec![
        package_at("dep", vec![target_at(TargetKind::Lib, "dep", &["lib"])]),
        package_at("app", vec![target_at(TargetKind::Bin, "app", &["bin"])]),
    ]
}

fn two_units() -> Vec<Unit> {
    vec![unit_at(0, Mode::Build, &[]), unit_at(1, Mode::Build, &[(0, Some("dep"))])]
}

fn workspace_of(pkgs: Vec<Pkg>) -> Workspace {
    Workspace {
        root: "/ws".into(),
        root_manifest_path: "/ws/Cargo.toml".into(),
        root_manifest: Vec::new(),
        current_manifest: "/ws/Cargo.toml".into(),
        target_dir: "/ws/target".into(),
        resolver: ResolverVersion::V2,
        graph: Graph::new(),
        members: Vec::new(),
        default_members: Vec::new(),
        pkgs,
        cargo: "/bin/rb".into(),
        registries: StrMap::new(),
        patches: StrMap::new(),
        locals: 0,
        locked: false,
        ignore_rust_version: false,
        lock_version: 4,
        rustc_version: None,
    }
}

fn kind_info() -> KindInfo {
    let ft = |t: &str, p: &str, s: &str| FileType { crate_type: t.into(), prefix: p.into(), suffix: s.into() };
    KindInfo {
        name: "host".into(),
        triple: "x86_64-unknown-linux-gnu".into(),
        target_flag: None,
        info: TargetInfo {
            cfg: vec![("unix".into(), None)],
            apple: false,
            file_types: vec![ft("bin", "", ""), ft("rlib", "lib", ".rlib"), ft("dylib", "lib", ".so"), ft("proc-macro", "lib", ".so")],
        },
        user_rustflags: vec![],
        linker: None,
        cross: CrossToolchain { fingerprint: String::new(), rustflags: vec![], path_prepend: vec![], rustc_env: vec![], env: vec![] },
        deps_dir: "/ws/target/rb/debug/host/deps".into(),
        build_dir: "/ws/target/rb/debug/host/build".into(),
        incremental_dir: "/ws/target/rb/debug/host/incremental".into(),
        artifact_dir: "/ws/target/debug".into(),
        runner: None,
    }
}

struct Parts {
    ws: Workspace,
    rustc: Rustc,
    shell: Shell,
    layout: Layout,
    host: KindInfo,
    targets: Vec<KindInfo>,
    primary: Vec<usize>,
    env_config: Vec<(String, String)>,
    norm: Normalizer,
    none_set: StrSet,
    none: Vec<String>,
}

fn parts() -> Parts {
    let term = Terminal { tty: false, cargo_color: None, cargo_quiet: None, no_color: false, dumb: false };
    Parts {
        ws: workspace_of(two_packages()),
        rustc: Rustc { path: "/opt/bin/rustc".into(), host: "x86_64-unknown-linux-gnu".into(), nightly: false, id: "rustc 1".into() },
        shell: Shell::new(0, false, None, &term),
        layout: Layout::new("/ws/target", "debug"),
        host: kind_info(),
        targets: Vec::new(),
        primary: vec![1],
        env_config: Vec::new(),
        norm: Normalizer::new("/ws/target", None, "/ws", None),
        none_set: StrSet::new(),
        none: Vec::new(),
    }
}

fn ctx_of(p: &Parts) -> Ctx<'_> {
    Ctx {
        ws: &p.ws,
        rustc: &p.rustc,
        shell: &p.shell,
        layout: &p.layout,
        host: &p.host,
        targets: &p.targets,
        jobs: 4,
        primary: &p.primary,
        env_config: &p.env_config,
        norm: &p.norm,
        wrapper: None,
        host_fingerprint: String::new(),
        cache_build_scripts: true,
        no_cache_build_scripts: &p.none_set,
        remap_deps: false,
        codegen_backend: None,
        extra_rustc: &p.none,
        std_rustc: &p.none,
        std_externs: &p.none,
        extra_rustdoc: &p.none,
        exe_suffix: String::new(),
    }
}

#[test]
fn a_binary_is_compiled_against_its_library() {
    let p = parts();
    let units = two_units();
    let planned = vec![Some(planned_as(NAME_A, "k1", "dep")), None];
    let r = plan_compile(&ctx_of(&p), 1, &units, &planned, &from_table(None), LtoMode::OnlyObject).unwrap();
    let args: Vec<&str> = r.inv.args.iter().map(|(a, _)| a.as_str()).collect();
    let at = |s: &str| args.iter().position(|a| *a == s);
    assert_eq!(r.inv.program, "/opt/bin/rustc");
    assert_eq!(r.inv.cwd, "/ws");
    assert!(at("--crate-name").is_some_and(|i| args[i + 1] == "app"));
    assert!(at("--crate-type").is_some_and(|i| args[i + 1] == "bin"));
    assert!(args.contains(&"--edition=2021"));
    assert!(args.contains(&"app/src/app.rs"));
    assert!(args.contains(&"dep=/ws/target/rb/debug/host/deps/libdep-0123456789abcdef.rlib"));
    assert!(args.contains(&"feature=\"std\""));
    assert!(r.needs_link && r.bin_name.as_deref() == Some("app"));
    assert_eq!(r.inv.get_env("CARGO_PKG_VERSION"), Some("0.1.0"));
}

#[test]
fn doctests_are_run_by_rustdoc() {
    let p = parts();
    let units = two_units();
    let planned = vec![Some(planned_as(NAME_A, "k1", "dep")), Some(planned_as(NAME_B, "k2", "app"))];
    let d = Doctest { pkg: 0, lib: 0, dev_deps: Vec::new() };
    let mut own = BuildOutput::new();
    own.cfgs.push("fast".to_owned());
    let linked = vec![Some(BuildOutput::parse("cargo:rustc-link-search=native=/x\n"))];
    let inv = run_doctest(&ctx_of(&p), &units, &planned, &d, Some(&own), &linked, &list(&["--nocapture"]), Some(("LD_LIBRARY_PATH", "/a:/b"))).unwrap();
    assert_eq!(inv.program, "/opt/bin/rustdoc");
    let args: Vec<&str> = inv.args.iter().map(|(a, _)| a.as_str()).collect();
    assert_eq!(
        args,
        [
            "--edition=2021",
            "--crate-type",
            "lib",
            "--crate-name",
            "dep",
            "--test",
            "dep/src/dep.rs",
            "--test-run-directory",
            "/ws/dep",
            "-L",
            "dependency=/ws/target/rb/debug/host/deps",
            "--extern",
            "dep=/ws/target/rb/debug/host/deps/libdep-0123456789abcdef.rlib",
            "--cfg",
            "feature=\"std\"",
            "--cfg",
            "fast",
            "-L",
            "native=/x",
            "--test-args",
            "--nocapture",
        ]
    );
    assert_eq!(inv.get_env("LD_LIBRARY_PATH"), Some("/a:/b"));
}

#[test]
fn dependencies_come_first() {
    assert_eq!(topo_order(&two_units()), [0, 1]);
}

#[test]
fn a_hit_does_not_pull_its_dependencies() {
    let units = two_units();
    let planned = vec![planned_as(NAME_A, "k1", "dep"), planned_as(NAME_B, "k2", "app")];
    assert_eq!(needed_units(&units, &planned, &vec![Status::Miss, Status::Fresh], &vec![1]), [false, true]);
    assert_eq!(needed_units(&units, &planned, &vec![Status::Cached, Status::Miss], &vec![1]), [true, true]);
    assert_eq!(needed_units(&units, &planned, &vec![Status::Miss, Status::Miss], &Vec::new()), [false, false]);
}

#[test]
fn metadata_is_enough_to_compile_but_not_to_link() {
    let pkgs = two_packages();
    let units = two_units();
    let mut planned = vec![planned_as(NAME_A, "k1", "dep"), planned_as(NAME_B, "k2", "app")];
    planned[1].lib_reqs = vec![0];
    assert_eq!(requirements(&pkgs, &units, &planned, &vec![true, true], 1), [(0, Need::Meta)]);
    planned[1].needs_link = true;
    assert_eq!(requirements(&pkgs, &units, &planned, &vec![true, true], 1), [(0, Need::Full)]);
    assert!(requirements(&pkgs, &units, &planned, &vec![false, true], 1).is_empty());
}

#[test]
fn the_longest_chain_has_the_highest_priority() {
    let reqs = vec![Vec::new(), vec![(0, Need::Full)], Vec::new()];
    assert_eq!(priorities(&vec![0, 2, 1], &reqs, &vec![10, 5, 7]), [15, 5, 7]);
    let u = unit_at(0, Mode::Build, &[]);
    assert_eq!(estimate(&u, TargetKind::Lib, Some(42), 0), 42);
    assert_eq!(estimate(&u, TargetKind::Lib, None, 15_000), 300);
    assert_eq!(estimate(&unit_at(0, Mode::Check, &[]), TargetKind::Lib, None, 15_000), 150);
    assert_eq!(estimate(&u, TargetKind::BuildScript, None, 0), 500);
    assert_eq!(estimate(&unit_at(0, Mode::RunCustomBuild, &[]), TargetKind::Lib, None, 0), 400);
}

#[test]
fn units_start_when_what_they_need_is_there() {
    let reqs = vec![Vec::new(), vec![(0, Need::Meta)], vec![(0, Need::Full)]];
    let mut s = Scheduler::new(&vec![true, true, true], reqs, vec![9, 5, 7], false);
    assert_eq!(s.start(), None);
    assert_eq!(s.request(), 1);
    s.on_token();
    assert_eq!(s.start(), Some(0));
    s.on_meta(0);
    assert_eq!(s.stage, [Stage::Running, Stage::Ready, Stage::Waiting]);
    assert_eq!(s.pipelined, 1);
    s.on_unlocked(0);
    s.on_done(0, Ended::Compiled);
    assert_eq!((s.storing, s.done), (1, 1));
    s.on_token();
    s.on_token();
    assert_eq!(s.start(), Some(2));
    assert_eq!(s.start(), Some(1));
    assert!(!s.is_over());
    s.on_stored();
    s.on_unlocked(1);
    s.on_done(1, Ended::Restored);
    s.on_done(2, Ended::Failed);
    assert!(s.is_over() && s.failed);
    assert_eq!(s.restored, 1);
}

#[test]
fn nothing_starts_after_a_failure_unless_asked() {
    let reqs = vec![Vec::new(), Vec::new()];
    let mut s = Scheduler::new(&vec![true, true], reqs, vec![1, 1], false);
    s.on_token();
    s.on_token();
    assert_eq!(s.start(), Some(0));
    s.on_done(0, Ended::Failed);
    assert_eq!(s.start(), None);
    assert!(s.is_over());
    let mut k = Scheduler::new(&vec![true, true], vec![Vec::new(), Vec::new()], vec![1, 1], true);
    k.on_token();
    k.on_token();
    assert_eq!(k.start(), Some(0));
    k.on_done(0, Ended::Failed);
    assert_eq!(k.start(), Some(1));
}

#[test]
fn idle_cores_go_to_long_units() {
    let f = Frontend { nightly: true, toggle: Toggle::Auto, script: false, est_ms: 2000, warm: false, jobs: 14, busy: 3 };
    assert_eq!(parallel_frontend(f), Some(8));
    assert_eq!(parallel_frontend(Frontend { busy: 10, ..f }), Some(4));
    assert_eq!(parallel_frontend(Frontend { busy: 13, ..f }), None);
    assert_eq!(parallel_frontend(Frontend { est_ms: 10, ..f }), None);
    assert_eq!(parallel_frontend(Frontend { warm: true, ..f }), None);
    assert_eq!(parallel_frontend(Frontend { nightly: false, ..f }), None);
}

fn empty_record() -> Record {
    Record { outputs: Vec::new(), inputs: ExtraInputs::new(), sources: Vec::new(), rerun_declared: false, payload: None, diagnostics: Vec::new() }
}

#[test]
fn slots_change_hands() {
    let mut s = ProjectState::new();
    let old = planned_as(NAME_A, "k1", "dep");
    s.record(&old, empty_record(), 10);
    assert!(s.owns(NAME_A, "k1"));
    let new = planned_as(NAME_A, "k2", "dep");
    assert!(s.release(&new, 1));
    assert!(!s.owns(NAME_A, "k1"));
    assert_eq!(s.prev.get(NAME_A).map(String::as_str), Some("k1"));
    s.record(&new, empty_record(), 11);
    s.prune();
    assert!(s.units.has("k2") && !s.units.has("k1"));
    assert!(s.release(&planned_as(NAME_A, "k3", "dep"), 1));
    assert_eq!(s.superseded, ["k1"]);
    assert!(s.touches_store(200_000) && !s.touches_store(5));
}

#[test]
fn unused_variants_are_swept() {
    let mut s = ProjectState::new();
    s.record(&planned_as(NAME_A, "k1", "dep"), empty_record(), 10);
    s.record(&planned_as(NAME_B, "k2", "dep"), empty_record(), 20);
    s.touched = StrSet::new();
    s.touched.insert(NAME_B);
    let live = s.sweep_state(5, 0);
    assert!(live.contains("fedcba9876543210") && !live.contains("0123456789abcdef"));
    assert_eq!(s.superseded, ["k1"]);
    assert!(s.units.has("k2") && !s.units.has("k1"));
}

#[test]
fn files_of_dead_units_go() {
    assert_eq!(name16_of("libdep-0123456789abcdef.rlib").unwrap(), "0123456789abcdef");
    assert_eq!(name16_of("my-dep-0123456789abcdef0.d"), None);
    let mut live = StrSet::new();
    live.insert("0123456789abcdef");
    assert_eq!(sweep_target("deps", "libdep-0123456789abcdef.rlib", &live, true, false), Fate::Keep);
    assert_eq!(sweep_target("deps", "libx-fedcba9876543210.rlib", &live, true, false), Fate::Remove);
    assert_eq!(sweep_target("incremental", "x-fedcba9876543210", &live, true, true), Fate::Archive);
    assert_eq!(sweep_target("incremental", "odd", &live, true, true), Fate::Remove);
    assert_eq!(sweep_target("deps", "odd", &live, true, true), Fate::Keep);
}

#[test]
fn one_key_is_one_unit() {
    let planned = vec![planned_as(NAME_A, "k", "a"), planned_as(NAME_B, "l", "b"), planned_as(NAME_B, "k", "c")];
    assert_eq!(canonical(&planned), [0, 1, 0]);
}

#[test]
fn outputs_get_their_own_names() {
    let mut p = planned_as(NAME_A, "k", "my_app");
    assert_eq!(uplift_name("libmy_app-0123456789abcdef.rlib", &p, false, "").unwrap(), "libmy_app.rlib");
    p.bin_name = Some("my-app".to_owned());
    assert_eq!(uplift_name("my_app-0123456789abcdef", &p, false, "").unwrap(), "my-app");
    assert_eq!(uplift_name("my_app-0123456789abcdef.exe", &p, false, "").unwrap(), "my-app.exe");
    assert_eq!(uplift_name("my_app-0123456789abcdef", &p, true, "").unwrap(), "my_app-0123456789abcdef");
    assert_eq!(uplift_name("libmy_app-0123456789abcdef.rmeta", &p, false, ""), None);
    assert_eq!(timing_label(&two_packages()[0], "dep", Mode::Check, "host"), "dep@0.1.0 dep Check host");
}

#[test]
fn messages_about_builds() {
    assert_eq!(build_finished(true).text(), "{\"reason\":\"build-finished\",\"success\":true}");
    let pkgs = two_packages();
    assert_eq!(
        target_message(&pkgs[1].targets[0]).text(),
        "{\"crate_types\":[\"bin\"],\"doc\":true,\"doctest\":true,\"edition\":\"2021\",\"kind\":[\"bin\"],\"name\":\"app\",\"src_path\":\"/ws/app/src/app.rs\",\"test\":true}"
    );
    let units = two_units();
    let files = artifact_files(&list(&["/t/app", "/t/app.d"]));
    assert_eq!(files, ["/t/app"]);
    let j = compiler_artifact(&pkgs[1], &pkgs[1].targets[0], &units[1], &files, false).unwrap();
    assert_eq!(j.get("executable").and_then(Json::as_str), Some("/t/app"));
    assert!(j.text().contains("\"debuginfo\":2,"));
    assert!(compiler_artifact(&pkgs[1], &pkgs[1].targets[0], &units[1], &Vec::new(), false).is_none());
    let g = to_json(&pkgs, &units, &Vec::new(), &vec![1]).text();
    assert!(g.starts_with("{\"roots\":[1],\"units\":["));
    assert!(g.contains("{\"extern_crate_name\":\"dep\",\"index\":0,\"noprelude\":false,\"public\":false}"));
}

#[test]
fn registered_projects_are_read_back() {
    let a = register_project("/p/target", 5, "symlink", &list(&["k1", "k2"]));
    let b = register_project("/q/target", 6, "auto", &list(&["k3"]));
    let docs = vec![Json::parse(&a.text()).unwrap(), Json::parse(&b.text()).unwrap()];
    let (linked, all) = project_keys(&docs, None);
    assert!(linked.contains("k1") && !linked.contains("k3"));
    assert!(all.contains("k2") && all.contains("k3"));
    let (_, others) = project_keys(&docs, Some("/q/target"));
    assert!(!others.contains("k3"));
}

fn node_at(name: &str, v: &str, source: SourceId) -> Node {
    Node::new(PkgId { name: name.to_owned(), version: Version::parse(v).unwrap(), source })
}

fn small_graph() -> Graph {
    let mut g = Graph::new();
    let app: usize = g.add(node_at("app", "0.1.0", SourceId::Path("/ws/app".to_owned())));
    let a: usize = g.add(node_at("a", "1.0.0", SourceId::Registry("r".to_owned())));
    let b: usize = g.add(node_at("b", "2.0.0", SourceId::Registry("r".to_owned())));
    g.link(app, a);
    g.link(app, b);
    g.link(a, b);
    g
}

#[test]
fn graphs_are_drawn_as_trees() {
    let g = small_graph();
    let kinds = edge_kinds("normal").unwrap();
    let labels: Vec<String> = g.nodes.iter().map(|n| format_node("{p} [{f}]", &node_text(n, "x"))).collect();
    assert_eq!(labels[0], "app v0.1.0 (/ws/app) [x]");
    let mut w = Walk { graph: &g, labels: &labels, kinds: &kinds, inverted: false, max_depth: None, mode: "indent", ascii: true };
    assert_eq!(
        tree(&w, &vec![0]),
        ["app v0.1.0 (/ws/app) [x]", "|-- a v1.0.0 [x]", "|   `-- b v2.0.0 [x]", "`-- b v2.0.0 [x] (*)"]
    );
    w.mode = "depth";
    w.max_depth = Some(1);
    assert_eq!(tree(&w, &vec![0]), ["0app v0.1.0 (/ws/app) [x]"]);
    w.max_depth = None;
    w.inverted = true;
    w.mode = "none";
    assert_eq!(inverted_roots(&g, "b").unwrap(), [2]);
    assert_eq!(tree(&w, &vec![2]), ["b v2.0.0 [x]", "app v0.1.0 (/ws/app) [x]", "a v1.0.0 [x]", "app v0.1.0 (/ws/app) [x] (*)"]);
}

#[test]
fn odd_requests_for_trees_are_errors() {
    assert!(validate_tree_format("{p} {l} {r} {lib}").is_ok());
    assert!(matches!(validate_tree_format("{q}"), Err(FormatError::Pattern(p)) if p == "q"));
    assert!(matches!(validate_tree_format("{p"), Err(FormatError::Open)));
    assert!(matches!(edge_kinds("some"), Err(TreeError::Edges(_))));
    assert!(matches!(inverted_roots(&small_graph(), "zz"), Err(TreeError::NotFound(_))));
    assert!(matches!(rb::tree::check_prefix("tabs"), Err(TreeError::Prefix(_))));
}

#[test]
fn metadata_of_packages() {
    let mut n = node_at("dep", "1.0.0", SourceId::Path("/ws/dep".to_owned()));
    assert!(metadata_package(&n).text().contains("\"edition\":\"\""));
    let mut features: StrMap<Vec<String>> = StrMap::new();
    features.insert("std", Vec::new());
    n.package = Some(Package {
        name: "dep".into(),
        version: Version::new(1, 0, 0),
        edition: "2021".into(),
        manifest_path: "/ws/dep/Cargo.toml".into(),
        root: "/ws/dep".into(),
        links: None,
        authors: list(&["me"]),
        description: None,
        homepage: None,
        repository: None,
        license: Some("MIT".into()),
        license_file: None,
        rust_version: None,
        readme: None,
        default_run: None,
        deps: vec![DepDecl {
            name: "a".into(),
            rename: None,
            req: VersionReq::parse("1").unwrap(),
            source: DepSource::Registry("r".into()),
            kind: DepKind::Dev,
            optional: false,
            default_features: true,
            features: vec![],
            platform: None,
        }],
        features,
        targets: vec![target_at(TargetKind::Lib, "dep", &["lib"])],
        lints: None,
    });
    let text = metadata_package(&n).text();
    assert!(text.contains("\"features\":{\"std\":[]}"));
    assert!(text.contains("\"kind\":\"dev\""));
    assert!(text.contains("\"req\":\"^1\""));
    assert!(text.contains("\"id\":\"path+file:///ws/dep#1.0.0\""));
    let mut g = small_graph();
    g.nodes[0].is_member = true;
    let mut ws = workspace_of(Vec::new());
    ws.graph = g;
    ws.members = vec![0];
    let feats = vec![list(&["std"]), Vec::new(), Vec::new()];
    let all = rb::messages::metadata(&ws, 1, Some(&feats)).unwrap().text();
    assert!(all.contains("\"workspace_members\":[\"path+file:///ws/app#0.1.0\"]"));
    assert!(all.contains("\"root\":\"path+file:///ws/app#0.1.0\""));
    assert!(matches!(rb::messages::metadata(&ws, 2, None), Err(2)));
}

#[test]
fn lines_of_the_compiler_are_heard() {
    let mut h = Heard::new();
    let line = "{\"$message_type\":\"diagnostic\",\"level\":\"warning\",\"message\":\"unused\",\"rendered\":\"warning: unused\\n\"}";
    let r = h.hear(&read_message(line), MessageFormat::Human, true);
    assert_eq!(r.show.as_deref(), Some("warning: unused\n"));
    assert_eq!((h.warnings, h.errors, h.diagnostics.len()), (1, 0, 1));
    let meta = read_message("{\"$message_type\":\"artifact\",\"emit\":\"metadata\"}");
    assert!(h.hear(&meta, MessageFormat::Human, true).meta_ready);
    assert!(matches!(read_message("plain"), Message::Text(t) if t == "plain"));
    assert!(matches!(read_message("{}"), Message::Other));
    let sum = "{\"$message_type\":\"diagnostic\",\"level\":\"error\",\"message\":\"aborting due to 1 previous error\"}";
    assert!(h.hear(&read_message(sum), MessageFormat::Human, true).show.is_none());
    assert_eq!(h.errors, 0);
    assert!(warning_summary("`a` (lib)", 1, true).unwrap().contains("generated 1 warning"));
    assert!(compile_failure("`a` (lib)", 2).contains("could not compile"));
}

#[test]
fn paths_of_projects_become_tokens() {
    let norm = Normalizer::new("/ws/target", None, "/ws", None);
    assert_eq!(norm.apply("-L/ws/target/deps -I/ws/src"), "-L{TARGET}/deps -I{WS}/src");
    let other = Normalizer::new("/else/target", None, "/else", None);
    let mut a = Invocation::new("rustc", "/ws");
    a.arg("/ws/src/lib.rs");
    a.arg_unhashed("--color=always");
    a.env("K", "/ws/target/x");
    let mut b = Invocation::new("rustc", "/else");
    b.arg("/else/src/lib.rs");
    b.env("K", "/else/target/x");
    b.env_unhashed("JOBS", "7");
    let mut ha: Vec<u8> = Vec::new();
    let mut hb: Vec<u8> = Vec::new();
    a.hash_into(&mut ha, &norm);
    b.hash_into(&mut hb, &other);
    assert_eq!(ha, hb);
    assert_eq!(a.display(true), "K=/ws/target/x rustc /ws/src/lib.rs '--color=always'");
    assert_eq!(lexical_clean("/a/../b/./c"), "/b/c");
    assert_eq!(template("x /o/y", "/o", None).unwrap(), "x {OUT_DIR}/y");
    assert_eq!(template("nothing", "/o", None), None);
}

#[test]
fn identities_of_packages() {
    let mut p = package_at("dep", Vec::new());
    let a = source_identity(&p, "tree1");
    let b = source_identity(&p, "tree2");
    assert_ne!(a, b);
    p.source = Source::Registry("r".to_owned());
    assert_eq!(source_identity(&p, "tree1"), source_identity(&p, "tree2"));
}

#[test]
fn tests_run_in_order() {
    let pkgs = vec![
        package_at("zed", vec![target_at(TargetKind::Lib, "zed", &["lib"])]),
        package_at("app", vec![target_at(TargetKind::Bin, "app", &["bin"]), target_at(TargetKind::Test, "it", &["bin"])]),
    ];
    let mut it = unit_at(1, Mode::Test, &[]);
    it.target = 1;
    let units = vec![unit_at(0, Mode::Test, &[]), it, unit_at(1, Mode::Test, &[]), unit_at(1, Mode::Build, &[])];
    assert_eq!(test_roots(&pkgs, &units, &vec![0, 1, 2, 3]), [2, 1, 0]);
}

#[test]
fn new_keys_hold_only_for_what_was_built() {
    let pkgs = two_packages();
    let units = two_units();
    let was = vec![planned_as(NAME_A, "k1", "dep"), planned_as(NAME_B, "k2", "app")];
    let mut now = vec![planned_as(NAME_A, "n1", "dep"), planned_as(NAME_B, "k2", "app")];
    let mut s = ProjectState::new();
    let both = vec![true, true];
    assert!(keys_hold(&pkgs, &units, &was, &now, &both, &s, &vec![false, false]));
    assert!(!keys_hold(&pkgs, &units, &was, &now, &vec![true, false], &s, &both));
    now[0].input_digest = "other".to_owned();
    assert!(!keys_hold(&pkgs, &units, &was, &now, &both, &s, &both));
    s.record(&was[0], empty_record(), 1);
    assert!(keys_hold(&pkgs, &units, &was, &now, &both, &s, &both));
    assert!(!keys_hold(&pkgs, &units, &was, &now, &both, &s, &vec![false, true]));
}

#[test]
fn builds_start_from_what_tests_need() {
    let pkgs = two_packages();
    let mut test = unit_at(1, Mode::Test, &[(0, Some("dep")), (1, None)]);
    test.target = 0;
    let units = vec![unit_at(0, Mode::Build, &[]), unit_at(1, Mode::Build, &[(0, Some("dep"))]), test];
    let mut planned = vec![planned_as(NAME_A, "k1", "dep"), planned_as(NAME_B, "k2", "app"), planned_as(NAME_B, "k3", "app")];
    planned[0].to_link = vec![0];
    let g = UnitGraph { units, roots: vec![2], aux_roots: vec![0], doctests: Vec::new() };
    assert_eq!(start_units(&pkgs, &g, &planned), [2, 0, 0, 1]);
}

#[test]
fn one_unit_for_each_key() {
    let graph = || UnitGraph {
        units: vec![
            unit_at(0, Mode::Build, &[]),
            unit_at(0, Mode::Build, &[]),
            unit_at(1, Mode::Build, &[(1, Some("dep"))]),
            unit_at(1, Mode::Build, &[(0, Some("dep"))]),
        ],
        roots: vec![2, 3],
        aux_roots: vec![1],
        doctests: vec![],
    };
    let plans = |keys: [&str; 4]| -> Vec<Planned> {
        let mut l: Vec<Planned> = keys.iter().map(|k| planned_as("n", k, "c")).collect();
        l[2].own_run = Some(1);
        l[2].to_link = vec![0, 1];
        l[3].lib_reqs = vec![1];
        l
    };
    let mut g = graph();
    let mut p = plans(["a", "a", "b", "b"]);
    dedupe(&mut g, &mut p);
    assert_eq!(g.units[2].deps[0].unit, 0);
    assert_eq!(g.roots, [2]);
    assert_eq!(g.aux_roots, [0]);
    assert_eq!(p[2].own_run, Some(0));
    assert_eq!(p[2].to_link, [0]);
    assert_eq!(p[3].lib_reqs, [0]);
    let mut g = graph();
    let mut p = plans(["a", "b", "c", "d"]);
    dedupe(&mut g, &mut p);
    assert_eq!(g.units[2].deps[0].unit, 1);
    assert_eq!(g.roots, [2, 3]);
    assert_eq!(g.aux_roots, [1]);
    assert_eq!(p[2].to_link, [0, 1]);
}

#[test]
fn dependencies_come_in_the_order_of_the_walk() {
    let units = vec![
        unit_at(0, Mode::Build, &[(3, None), (1, None)]),
        unit_at(0, Mode::Build, &[(4, None)]),
        unit_at(0, Mode::Build, &[]),
        unit_at(0, Mode::Build, &[(4, None)]),
        unit_at(0, Mode::Build, &[]),
    ];
    assert_eq!(topo_order(&units), [4, 3, 1, 0, 2]);
}

#[test]
fn what_goes_into_the_keys_is_written_down() {
    let plans = vec![planned_as("n0", "k0", "dep"), planned_as("n1", "k1", "app")];
    let (path, text) = debug_keys("/t/keys", ".json", &two_packages(), &two_units(), &plans, &list(&["s0", "s1"]));
    assert_eq!(path, "/t/keys.json");
    let rows = Json::parse(&text).unwrap();
    assert_eq!(
        rows.text(),
        "[{\"input_digest\":\"\",\"key\":\"k0\",\"name\":\"n0\",\"source\":\"s0\",\"unit\":\"dep v0.1.0 (/ws/dep) (lib) Host\"},{\"input_digest\":\"\",\"key\":\"k1\",\"name\":\"n1\",\"source\":\"s1\",\"unit\":\"app v0.1.0 (/ws/app) (lib) Host\"}]"
    );
    assert!(text.starts_with("[\n  {\n    \"input_digest\": \"\",\n"));
}

fn plan_all(tree: &str) -> Vec<Planned> {
    let p = parts();
    let ctx = ctx_of(&p);
    let g = UnitGraph { units: two_units(), roots: vec![1], aux_roots: vec![], doctests: vec![] };
    let mut plan = Plan::begin(&ctx, &g);
    let mut turns = Vec::new();
    while let Some(ui) = plan.turn() {
        assert!(ready(&ctx, &g.units, &plan.planned, ui));
        turns.push(ui);
        let d = plan.draft(&ctx, &g.units).unwrap();
        let tree = if ui == 0 { tree.to_owned() } else { "app".to_owned() };
        let seen = Seen { tree, sources: vec![], env: vec![], files: vec![] };
        plan.settle(&ctx, &list(&["/ws/target"]), &g.units, d, None, &seen);
    }
    assert_eq!(turns, [0, 1]);
    plan.end().unwrap()
}

#[test]
fn a_graph_is_planned_unit_by_unit() {
    let one = plan_all("one");
    let two = plan_all("two");
    assert_eq!(one.len(), 2);
    assert!(one.iter().all(|p| p.key.len() == 64 && p.name.len() == 64));
    // Other sources below make other keys above, and the same names.
    assert_eq!(one[0].name, two[0].name);
    assert_eq!(one[1].name, two[1].name);
    assert_ne!(one[0].key, two[0].key);
    assert_ne!(one[1].key, two[1].key);
    assert!(one[1].inv.args.iter().any(|(a, _)| a.starts_with("dep=") && a.contains(&one[0].name16())));
}

#[test]
fn a_graph_that_is_not_planned_has_no_end() {
    let p = parts();
    let g = UnitGraph { units: two_units(), roots: vec![1], aux_roots: vec![], doctests: vec![] };
    assert!(Plan::begin(&ctx_of(&p), &g).end().is_none());
}

#[test]
fn messages_show_what_was_put_in_place() {
    let (placed, outputs) = (list(&["/t/app", "/t/app.d"]), list(&["/t/deps/app-1", "/t/deps/app-1.d"]));
    assert_eq!(announced_files(Mode::Build, Some(&placed), &outputs), ["/t/app", "/t/app.d"]);
    assert_eq!(announced_files(Mode::Build, None, &outputs), ["/t/deps/app-1"]);
    assert!(announced_files(Mode::RunCustomBuild, Some(&placed), &outputs).is_empty());
    assert!(announced_files(Mode::Doc, None, &outputs).is_empty());
}
