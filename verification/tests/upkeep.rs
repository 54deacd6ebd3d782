//! The course of a build, installed programs, new keys, outputs that are stored later, and bundles of sources.

use rb::bundle::archive_name;
use rb::bundle::core_externs;
use rb::bundle::current_package;
use rb::bundle::package_files;
use rb::bundle::vendor_note;
use rb::bundle::vendor_sums;
use rb::bundle::vendored;
use rb::commands::CrossToolchain;
use rb::commands::Planned;
use rb::commands::TargetInfo;
use rb::deferred::Job;
use rb::deferred::Queued;
use rb::deferred::finish_job;
use rb::deferred::read_job;
use rb::deferred::write_job;
use rb::exec::Record;
use rb::host::host_fingerprint;
use rb::host::is_recent;
use rb::host::accept_msvc_license;
use rb::installs::InstallError;
use rb::installs::check_install;
use rb::installs::install_reference;
use rb::installs::installed_program;
use rb::installs::list_installed;
use rb::installs::manifest_at;
use rb::installs::read_installs;
use rb::installs::record_install;
use rb::installs::uninstall;
use rb::invocation::Invocation;
use rb::json::Json;
use rb::layout::Layout;
use rb::manifest::GitRef;
use rb::manifest::TargetKind;
use rb::registry::Download;
use rb::registry::Known;
use rb::registry::Next;
use rb::registry::Registry;
use rb::rekey::rekey;
use rb::resolve::Graph;
use rb::resolve::Node;
use rb::resolve::PkgId;
use rb::resolve::SourceId;
use rb::schedule::Status;
use rb::session::After;
use rb::session::Facts;
use rb::session::KindParts;
use rb::session::Wrapper;
use rb::session::after;
use rb::session::asks_again;
use rb::session::backend_note;
use rb::session::backend_works;
use rb::session::compact_options;
use rb::session::cutoff;
use rb::session::finished;
use rb::session::give_up;
use rb::session::kind_info;
use rb::session::link_mode;
use rb::session::lists_removals;
use rb::session::needs_compaction;
use rb::session::profile_name;
use rb::session::query_args;
use rb::session::removable;
use rb::session::status_of;
use rb::session::target_dir;
use rb::session::targets_allowed;
use rb::session::uplift_dir;
use rb::session::wanted;
use rb::session::wrapper;
use rb::state::ProjectState;
use rb::store::EnvInput;
use rb::store::ExtraInputs;
use rb::store::FileInput;
use rb::store::LinkKind;
use rb::store::LinkMode;
use rb::strmap::StrMap;
use rb::strmap::StrSet;
use rb::timings::Timings;
use rb::unit::Command;
use rb::unit::Mode;
use rb::value::Toml;
use rb::value::get;
use rb::value::parse_document;
use rb::version::Version;

const NAME_A: &str = "0123456789abcdef0123456789abcdef";
const NAME_B: &str = "fedcba9876543210fedcba9876543210";

fn list(l: &[&str]) -> Vec<String> {
    l.iter().map(|s| (*s).to_owned()).collect()
}

fn set(l: &[&str]) -> StrSet {
    let mut s = StrSet::new();
    for x in l {
        s.insert(x);
    }
    s
}

fn planned_as(name: &str, key: &str) -> Planned {
    Planned {
        key: key.to_owned(),
        name: name.to_owned(),
        input_digest: String::new(),
        inv: Invocation::new("rustc", "/ws"),
        out_dir: "/t/deps".to_owned(),
        crate_name: "dep".to_owned(),
        descr: "(lib)",
        bin_name: None,
        own_run: None,
        to_link: Vec::new(),
        lib_reqs: Vec::new(),
        needs_link: false,
        emits_meta: true,
        cacheable: true,
    }
}

fn record_with(outputs: &[&str]) -> Record {
    Record {
        outputs: list(outputs),
        inputs: ExtraInputs::new(),
        sources: Vec::new(),
        rerun_declared: false,
        payload: None,
        diagnostics: Vec::new(),
    }
}

#[test]
fn profiles_of_commands() {
    assert_eq!(profile_name(None, false, Command::Build), "dev");
    assert_eq!(profile_name(None, true, Command::Run), "release");
    assert_eq!(profile_name(None, false, Command::Test), "test");
    assert_eq!(profile_name(None, true, Command::Bench), "bench");
    assert_eq!(profile_name(Some("slim"), true, Command::Test), "slim");
}

#[test]
fn wrappers_and_backends() {
    assert_eq!(wrapper("/usr/bin/sccache"), Wrapper::SkipCache);
    assert_eq!(wrapper("sccache.exe"), Wrapper::SkipCache);
    assert_eq!(wrapper("/usr/bin/mine"), Wrapper::Use);
    assert_eq!(wrapper(""), Wrapper::Off);
    assert!(backend_works("llvm", false, false));
    assert!(backend_works("cranelift", true, true));
    assert!(!backend_works("cranelift", false, true));
    assert_eq!(
        backend_note("cranelift", "1.90.0"),
        "codegen backend `cranelift` is not available for 1.90.0 (install it with `rustup component add rustc-codegen-cranelift-preview` on nightly); using LLVM"
    );
}

#[test]
fn targets_and_directories() {
    assert!(targets_allowed(&list(&["wasm32-wasip1"]), false));
    assert!(!targets_allowed(&list(&["a", "my.json"]), false));
    assert!(targets_allowed(&list(&["my.json"]), true));
    assert_eq!(target_dir(Some("out"), "/w", Some("/c"), "/w/target"), "/w/out");
    assert_eq!(target_dir(None, "/w", Some("/c"), "/w/target"), "/c");
    assert_eq!(target_dir(None, "/w", None, "/w/target"), "/w/target");
    assert_eq!(link_mode(None, LinkMode::Auto, Some(LinkKind::Hardlink)), LinkMode::Hardlink);
    assert_eq!(link_mode(None, LinkMode::Auto, None), LinkMode::Copy);
    assert_eq!(link_mode(Some(LinkMode::Symlink), LinkMode::Auto, None), LinkMode::Symlink);
}

#[test]
fn flags_and_facts_of_platforms() {
    assert_eq!(query_args(&list(&["-Ca"]), &list(&["-Cb"]), Some("x.json")), ["-Ca", "-Cb", "-Zunstable-options"]);
    assert_eq!(query_args(&list(&["-Ca"]), &list(&[]), Some("x86")), ["-Ca"]);
    assert!(asks_again(true, &list(&[]), &list(&["-Ca"])));
    assert!(!asks_again(true, &list(&["-Ca"]), &list(&["-Ca"])));
    assert!(!asks_again(false, &list(&[]), &list(&["-Ca"])));
    let parts = KindParts {
        name: "wasm".into(),
        triple: "wasm32-wasip1".into(),
        target_flag: Some("wasm32-wasip1".into()),
        info: TargetInfo { cfg: Vec::new(), apple: false, file_types: Vec::new() },
        rustflags: list(&["-Ca"]),
        cross: CrossToolchain { fingerprint: String::new(), rustflags: vec![], path_prepend: vec![], rustc_env: vec![], env: vec![] },
        linker: None,
        cross_linker: Some("zig-cc".into()),
        runner: None,
    };
    let k = kind_info(parts, &Layout::new("/w/target", "debug"));
    assert_eq!(k.linker.as_deref(), Some("zig-cc"));
    assert_eq!(k.deps_dir, "/w/target/rb/debug/wasm/deps");
    assert_eq!(k.artifact_dir, "/w/target/wasm32-wasip1/debug");
    assert_eq!(uplift_dir(&k, TargetKind::Example, false, "/t"), "/w/target/wasm32-wasip1/debug/examples");
    assert_eq!(uplift_dir(&k, TargetKind::Lib, true, "/t"), "/t");
}

#[test]
fn units_that_are_fresh_cached_or_missing() {
    let mut s = ProjectState::new();
    let p = planned_as(NAME_A, "k1");
    s.record(&p, record_with(&["/o"]), 1);
    let f = Facts { outputs: true, out_dir: false, inputs: true, stored: false };
    assert_eq!(status_of(&s, &p, Mode::Build, f), Status::Fresh);
    assert_eq!(status_of(&s, &p, Mode::RunCustomBuild, f), Status::Miss);
    assert_eq!(status_of(&s, &p, Mode::Build, Facts { inputs: false, stored: true, ..f }), Status::Cached);
    assert_eq!(status_of(&s, &planned_as(NAME_A, "k2"), Mode::Build, f), Status::Miss);
    let status = vec![Status::Miss, Status::Fresh, Status::Miss];
    assert_eq!(wanted(&vec![2, 1, 0], &vec![true, true, true], &status, Status::Miss), [2, 0]);
    assert_eq!(wanted(&vec![2, 1, 0], &vec![false, true, true], &status, Status::Miss), [2]);
    assert_eq!(
        finished("dev", "[unoptimized]", "0.11", 3, 2, 4, 1),
        "`dev` profile [unoptimized] target(s) in 0.11s (2 compiled, 3 cached, 4 fresh)"
    );
}

#[test]
fn what_follows_a_build() {
    assert_eq!(after(Command::Run, false), After::RunProgram);
    assert_eq!(after(Command::Test, false), After::RunTests);
    assert_eq!(after(Command::Bench, true), After::ListTests);
    assert_eq!(after(Command::Doc { deps: true }, false), After::ReportDocs);
    assert_eq!(after(Command::Check, false), After::Nothing);
    assert_eq!(cutoff(0, 5), u64::MAX);
    assert_eq!(cutoff(1, 86_401), 1);
    assert_eq!(cutoff(7, 5), 0);
}

#[test]
fn keys_in_use_stay() {
    let mut s = ProjectState::new();
    s.record(&planned_as(NAME_A, "own"), record_with(&[]), 1);
    s.superseded = list(&["own", "other", "gone"]);
    s.prev.insert(NAME_B, "before".to_owned());
    give_up(&mut s, 1);
    assert_eq!(s.superseded.len(), 3);
    give_up(&mut s, 0);
    assert_eq!(s.superseded, ["own", "other", "gone", "before"]);
    assert!(s.prev.keys().is_empty());
    assert_eq!(removable(&mut s, &set(&["other"])), ["gone", "before"]);
    assert!(s.superseded.is_empty());
    assert!(!needs_compaction(0, 0, false, 0) && needs_compaction(0, 0, true, 0));
    assert!(lists_removals("rm-1-0.json") && !lists_removals("ingest-1-0.json"));
    let o = compact_options(&set(&["a", "b"]), set(&["l"]), set(&["b", "h"]), Some(100), Some(101));
    assert_eq!(o.max_size, Some(90));
    assert!(o.remove.contains("a") && !o.remove.contains("b"));
    assert!(o.pinned.contains("l") && o.pinned.contains("h") && o.concurrent && !o.dry_run);
    assert_eq!(compact_options(&set(&[]), set(&[]), set(&[]), Some(100), Some(100)).max_size, None);
    assert_eq!(compact_options(&set(&[]), set(&[]), set(&[]), None, Some(100)).max_size, None);
}

#[test]
fn units_move_to_their_new_keys() {
    let mut s = ProjectState::new();
    s.record(&planned_as(NAME_A, "k1"), record_with(&["/o"]), 1);
    s.record(&planned_as(NAME_B, "k2"), record_with(&["/p"]), 1);
    let was = vec![planned_as(NAME_A, "k1"), planned_as(NAME_B, "k2")];
    let now = vec![planned_as(NAME_A, "n1"), planned_as(NAME_B, "k2")];
    assert_eq!(rekey(&mut s, &was, &now, true), [("k1".to_owned(), "n1".to_owned())]);
    assert!(s.owns(NAME_A, "n1") && s.owns(NAME_B, "k2"));
    assert_eq!(s.units.get("n1").unwrap().outputs, ["/o"]);
    assert!(s.units.has("k1"));
    assert!(rekey(&mut s, &was, &now, true).is_empty());
}

#[test]
fn installed_programs_are_listed_and_removed() {
    let m = parse_document("[package]\nname = \"tool\"\nversion = \"1.2.3\"\n").unwrap();
    assert_eq!(list_installed(&read_installs(None)), ["nothing"]);
    let l = record_install(read_installs(Some("[{\"name\":\"old\",\"version\":\"1\"},{\"name\":\"tool\"}]")), &m, &list(&["a", "b"]));
    assert_eq!(list_installed(&l), ["old v1 (null)", "tool v1.2.3 ([\"a\",\"b\"])"]);
    let (paths, rest) = uninstall(l, "tool", "/home/me/.cargo").unwrap();
    assert_eq!(paths, ["/home/me/.cargo/bin/a", "/home/me/.cargo/bin/b"]);
    assert_eq!(list_installed(&rest), ["old v1 (null)"]);
    assert!(matches!(uninstall(rest, "tool", "/"), Err(InstallError::NotInstalled(n)) if n == "tool"));
    assert!(read_installs(Some("{}")).is_empty());
}

#[test]
fn what_is_installed() {
    assert!(matches!(check_install(true, true, false), Err(InstallError::PathWithOther)));
    assert!(check_install(true, false, false).is_ok());
    assert!(matches!(install_reference(Some("main"), None, None), Ok(GitRef::Branch(b)) if b == "main"));
    assert!(matches!(install_reference(None, None, None), Ok(GitRef::DefaultBranch)));
    assert!(matches!(install_reference(None, Some("a"), Some("b")), Err(InstallError::References)));
    assert_eq!(manifest_at("/p"), "/p/Cargo.toml");
    assert_eq!(manifest_at("/p/Cargo.toml"), "/p/Cargo.toml");
    assert_eq!(installed_program("tool.exe", &list(&[])).as_deref(), Some("tool"));
    assert_eq!(installed_program("tool.d", &list(&[])), None);
    assert_eq!(installed_program("tool", &list(&["other"])), None);
    assert_eq!(installed_program("tool", &list(&["tool"])).as_deref(), Some("tool"));
}

#[test]
fn outputs_to_store_later_are_read_back() {
    let j = Job {
        key: "k".into(),
        label: "dep v1 (lib)".into(),
        duration_ms: 12,
        outputs: list(&["/o/a", "/o/b"]),
        inputs: ExtraInputs {
            files: vec![FileInput { path: "/f".into(), hash: None }, FileInput { path: "/g".into(), hash: Some("h".into()) }],
            env: vec![EnvInput { name: "V".into(), value: Some("1".into()) }],
        },
        diagnostics: list(&["warning"]),
    };
    let text = write_job(&j).text();
    assert!(text.contains("{\"hash\":null,\"path\":\"/f\"}"));
    let Queued::Job(r) = read_job(&text) else { panic!("{text}") };
    assert_eq!((r.key.as_str(), r.label.as_str(), r.duration_ms), ("k", "dep v1 (lib)", 12));
    assert_eq!(r.outputs, ["/o/a", "/o/b"]);
    assert!(r.inputs.same_as(&j.inputs));
    assert_eq!(r.diagnostics, ["warning"]);
    assert!(matches!(read_job("{"), Queued::Broken));
    assert!(matches!(read_job("{}"), Queued::Keyless));
    let Queued::Job(r) = read_job("{\"key\":\"k\",\"outputs\":[1],\"inputs\":{\"files\":[{}]}}") else { panic!() };
    assert!(r.outputs.is_empty() && r.inputs.is_empty() && r.duration_ms == 0);
}

#[test]
fn durations_are_read_back() {
    let mut t = Timings::load(None);
    t.record("a", 10);
    t.record("a", 20);
    t.record("b", 7);
    let text = t.save().unwrap().text();
    let r = Timings::load(Some(&text));
    assert_eq!((r.get("a"), r.get("b"), r.get("c")), (Some(15), Some(7), None));
    assert!(r.save().is_none());
}

#[test]
fn vendored_packages_are_accepted() {
    let mut g = Graph::new();
    let mut n = Node::new(PkgId { name: "dep".into(), version: Version::new(1, 0, 0), source: SourceId::Registry("r".into()) });
    n.checksum = Some("AB".into());
    g.add(n);
    assert!(vendored(&g).is_empty());
    let mut sums: StrMap<String> = StrMap::new();
    sums.insert("src/lib.rs", "s".into());
    sums.insert(".cargo-checksum.json", "x".into());
    let text = vendor_sums(&sums, Some("AB")).text();
    assert_eq!(text, "{\"files\":{\"src/lib.rs\":\"s\"},\"package\":\"AB\"}");
    let mut reg = Registry::new("/r".into(), true, None);
    reg.set_vendor("r", "/v".into());
    let v = Version::new(1, 0, 0);
    let mut known = Known::new();
    known.vendored = Some(true);
    known.vendor_sum = Some(Some(text));
    let d = Download { source: "r", name: "dep", version: &v, checksum: Some("ab") };
    assert!(matches!(reg.ensure(d, &known), Next::Done(p, false) if p == "/v/dep-1.0.0"));
    assert!(vendor_note("/w/third").ends_with("[source.vendored-sources]\ndirectory = \"third\"\n"));
}

#[test]
fn packages_and_archives() {
    let behind = vec![Some("/a/Cargo.toml".to_owned()), None];
    assert_eq!(current_package(&behind, "/a/Cargo.toml"), Some(0));
    assert_eq!(current_package(&behind, "/c/Cargo.toml"), None);
    assert_eq!(current_package(&vec![None], "/c/Cargo.toml"), Some(0));
    let files = list(&["src/z.rs", "Cargo.toml", "notes/a.txt", "src/a.rs"]);
    assert_eq!(package_files(&files, &list(&["*.rs"]), &list(&["z.rs"])), ["Cargo.toml", "src/a.rs"]);
    assert_eq!(package_files(&files, &list(&[]), &list(&["Cargo.toml"])).len(), 4);
    assert_eq!(archive_name("dep", "1.0.0", "src\\a.rs"), "dep-1.0.0/src/a.rs");
    let metas = list(&["/d/libcore-1.rmeta", "/d/libcore-2.rmeta", "/d/libcompiler_builtins-3.rmeta", "/d/libcore-9.rlib"]);
    assert_eq!(
        core_externs(&metas).unwrap(),
        [
            "-Zunstable-options",
            "--extern",
            "noprelude,nounused:compiler_builtins=/d/libcompiler_builtins-3.rmeta",
            "--extern",
            "noprelude,nounused:core=/d/libcore-2.rmeta",
        ]
    );
    assert_eq!(core_externs(&list(&[])), Err("libcore-"));
    assert_eq!(Json::Null.text(), "null");
}

#[test]
fn fingerprints_of_hosts() {
    let outputs = vec![Some(" Linux 6.1 x86_64 \nmore\n".to_owned()), None, Some("cc 13\n".to_owned()), Some(String::new())];
    assert_eq!(host_fingerprint(&outputs), "Linux 6.1 x86_64 |  | cc 13 | ");
    assert!(is_recent(Some(3599)) && !is_recent(Some(3600)) && !is_recent(None));
}

#[test]
fn accepted_licenses_are_read_back() {
    let doc = accept_msvc_license(parse_document("[cross]\nzig-version = \"0.13\"\n[store]\n").unwrap());
    let Some(Toml::Table(cross)) = get(&doc, "cross") else { panic!("no table") };
    assert!(matches!(get(cross, "accept-msvc-license"), Some(Toml::Bool(true))));
    assert!(matches!(get(cross, "zig-version"), Some(Toml::Str(s)) if s == "0.13"));
    assert!(get(&doc, "store").is_some());
    let odd = accept_msvc_license(parse_document("cross = 1\n").unwrap());
    assert!(matches!(get(&odd, "cross"), Some(Toml::Int(1))));
    assert_eq!(accept_msvc_license(Vec::new()).len(), 1);
}

fn waiting(outputs: &[&str]) -> Job {
    Job {
        key: "k".into(),
        label: "demo v1".into(),
        duration_ms: 7,
        outputs: outputs.iter().map(|o| (*o).to_owned()).collect(),
        inputs: ExtraInputs { files: vec![], env: vec![] },
        diagnostics: vec!["d".into()],
    }
}

#[test]
fn a_job_is_done_when_all_its_outputs_are_stored() {
    let m = finish_job(waiting(&["/t/deps/a.rlib", "/t/deps/a"]), vec![Some(("b1".into(), 3, false)), Some(("b2".into(), 4, true))], 99, None).unwrap();
    assert_eq!(m.key, "k");
    let e = &m.entries[0];
    assert_eq!((e.label.as_str(), e.created, e.last_used, e.duration_ms), ("demo v1", 99, 99, 7));
    let files: Vec<(&str, &str, u64, bool, bool)> =
        e.outputs.iter().map(|o| (o.name.as_str(), o.blob.as_str(), o.size, o.executable, o.templated)).collect();
    assert_eq!(files, [("a.rlib", "b1", 3, false, false), ("a", "b2", 4, true, false)]);
    assert_eq!(e.diagnostics, ["d"]);
    // The same inputs again: the entry is replaced.
    let again = finish_job(waiting(&["/t/a"]), vec![Some(("b3".into(), 5, false))], 100, Some(m)).unwrap();
    assert_eq!(again.entries.len(), 1);
    assert_eq!(again.entries[0].outputs[0].blob, "b3");
    assert!(finish_job(waiting(&["/t/a", "/t/b"]), vec![Some(("b".into(), 1, false)), None], 1, None).is_none());
    assert!(finish_job(waiting(&[]), vec![], 1, None).is_none());
}
