//! Resolution: lockfiles, preferences, selection, features and profiles.

use rb::features::EngineOpts;
use rb::features::Request;
use rb::features::resolve;
use rb::lockfile::LockDep;
use rb::lockfile::LockPkg;
use rb::lockfile::Lockfile;
use rb::manifest::CRATES_IO;
use rb::manifest::DepDecl;
use rb::manifest::DepKind;
use rb::manifest::DepSource;
use rb::manifest::GitRef;
use rb::manifest::parse_package;
use rb::profile::Lto;
use rb::profile::ProfileError;
use rb::profile::Profiles;
use rb::profile::TomlProfile;
use rb::registry::parse_entry;
use rb::resolve::Got;
use rb::resolve::Graph;
use rb::resolve::LockStep;
use rb::resolve::Node;
use rb::resolve::Patches;
use rb::resolve::Pick;
use rb::resolve::PkgId;
use rb::resolve::Prefs;
use rb::resolve::SourceError;
use rb::resolve::SourceId;
use rb::resolve::resolve_lock_mode;
use rb::resolve::to_lockfile;
use rb::strmap::StrMap;
use rb::strmap::StrSet;
use rb::value::Toml;
use rb::value::get;
use rb::value::parse_document;
use rb::version::Version;
use rb::version::VersionReq;
use rb::workspace::Pkg;
use rb::workspace::Source;
use rb::workspace::UpdateError;
use rb::workspace::is_reached;
use rb::workspace::report_lock_changes;
use rb::workspace::update_prefs;

fn pkg(member: bool) -> Pkg {
    Pkg {
        id: "x".into(),
        identity: "x".into(),
        name: "x".into(),
        version: Version::new(1, 0, 0),
        manifest_path: "/x/Cargo.toml".into(),
        root: "/x".into(),
        source: if member { Source::Workspace } else { Source::Registry("r".into()) },
        is_member: member,
        loaded: true,
        links: None,
        edition: "2021".into(),
        targets: vec![],
        declared_features: vec![],
        proc_macro: false,
        authors: vec![],
        description: None,
        homepage: None,
        repository: None,
        license: None,
        license_file: None,
        rust_version: None,
        readme: None,
        default_run: None,
        deps: vec![],
        dep_targets: vec![],
        lints: None,
    }
}

fn profiles_in(text: &str) -> Vec<(String, TomlProfile)> {
    let t = parse_document(text).unwrap();
    match get(&t, "profile") {
        Some(Toml::Table(l)) => TomlProfile::all_from_toml(l).unwrap(),
        _ => Vec::new(),
    }
}

#[test]
fn release_and_overrides() {
    let manifest = profiles_in(
        r#"
            [profile.release]
            lto = "thin"
            [profile.release.package."*"]
            opt-level = 2
            [profile.dist]
            inherits = "release"
            strip = true
            "#,
    );
    let none: Vec<Vec<(String, TomlProfile)>> = Vec::new();
    let r = Profiles::new(&manifest, &none, &Vec::new(), "release", None).unwrap();
    let member = r.get(&pkg(true), false, true);
    assert_eq!((member.opt_level.as_str(), member.lto), ("3", Lto::Thin));
    assert_eq!(member.strip.as_deref(), Some("debuginfo"));
    assert_eq!(r.get(&pkg(false), false, true).opt_level, "2");
    let host = r.get(&pkg(true), true, true);
    assert_eq!(host.opt_level, "0");

    let specs = profiles_in(
        r#"
            [profile.dev]
            debug = "line-tables-only"
            opt-level = "s"
            [profile.dev.package."x@1.0.0"]
            debug = "limited"
            [profile.dev.package."x@2.0.0"]
            opt-level = 3
            "#,
    );
    let dev = Profiles::new(&specs, &none, &Vec::new(), "dev", None).unwrap().get(&pkg(true), false, false);
    assert_eq!((dev.debuginfo.as_str(), dev.opt_level.as_str()), ("1", "s"));

    let d = Profiles::new(&manifest, &none, &Vec::new(), "dist", None).unwrap();
    assert_eq!(d.dir_name, "dist");
    assert_eq!(d.get(&pkg(true), false, true).strip.as_deref(), Some("symbols"));

    let dev = Profiles::new(&manifest, &none, &Vec::new(), "dev", None).unwrap();
    assert_eq!(dev.dir_name, "debug");
    let p = dev.get(&pkg(true), false, true);
    assert_eq!(p.split_debuginfo.as_deref(), Some("unpacked"));
    assert!(p.incremental && p.debug_assertions && p.strip.is_none());
}

#[test]
fn broken_profiles_are_errors() {
    let none: Vec<Vec<(String, TomlProfile)>> = Vec::new();
    let looped = profiles_in("[profile.a]\ninherits = \"b\"\n[profile.b]\ninherits = \"a\"\n");
    assert!(matches!(Profiles::new(&looped, &none, &Vec::new(), "a", None), Err(ProfileError::Loop(_))));
    let bare = profiles_in("[profile.c]\nopt-level = 1\n");
    assert!(matches!(Profiles::new(&bare, &none, &Vec::new(), "c", None), Err(ProfileError::NoInherits(_))));
    let vars = vec![("CARGO_PROFILE_DEV_OPT_LEVEL".to_owned(), "2".to_owned())];
    let dev = Profiles::new(&Vec::new(), &none, &vars, "dev", None).unwrap();
    assert_eq!(dev.get(&pkg(true), false, false).opt_level, "2");
    let bad = vec![("CARGO_PROFILE_DEV_DEBUG_ASSERTIONS".to_owned(), "maybe".to_owned())];
    assert!(matches!(Profiles::new(&Vec::new(), &none, &bad, "dev", None), Err(ProfileError::Environment(_))));
}

#[test]
fn specs_match_cargo() {
    let reg = PkgId { name: "serde".into(), version: Version::new(1, 0, 0), source: SourceId::Registry(CRATES_IO.into()) };
    assert_eq!(reg.spec(), "registry+https://github.com/rust-lang/crates.io-index#serde@1.0.0");
    let path = PkgId { name: "app".into(), version: Version::new(0, 1, 0), source: SourceId::Path("/ws/app".into()) };
    assert_eq!(path.spec(), "path+file:///ws/app#0.1.0");
    let other = PkgId { name: "core-lib".into(), version: Version::new(0, 2, 0), source: SourceId::Path("/ws/core".into()) };
    assert_eq!(other.spec(), "path+file:///ws/core#core-lib@0.2.0");
    let git = SourceId::parse_lock("git+https://github.com/a/b?branch=main#abc123").unwrap();
    assert_eq!(git.lock_string().unwrap(), "git+https://github.com/a/b?branch=main#abc123");
}

#[test]
fn sources_of_lockfiles_are_read_or_refused() {
    assert!(matches!(SourceId::parse_lock("git+https://x/y"), Err(SourceError::NoCommit(_))));
    assert!(matches!(SourceId::parse_lock("ftp://x"), Err(SourceError::Unsupported(_))));
    let s = SourceId::parse_lock(CRATES_IO).unwrap();
    assert!(s.same_as(&SourceId::Registry(CRATES_IO.to_owned())));
}

fn decl(name: &str, req: &str, source: DepSource) -> DepDecl {
    DepDecl {
        name: name.into(),
        rename: None,
        req: VersionReq::parse(req).unwrap(),
        source,
        kind: DepKind::Normal,
        optional: false,
        default_features: true,
        features: Vec::new(),
        platform: None,
    }
}

#[test]
fn path_dep_inside_patched_git_uses_same_commit() {
    let url = "https://github.com/kane50613/fontations";
    let commit = "80db8b0ccde357fd65ceb5c5243eb2de2754ee83";
    let git = |name: &str| {
        Node::new(PkgId {
            name: name.into(),
            version: Version::new(0, 1, 0),
            source: SourceId::Git { url: url.into(), reference: GitRef::Rev(commit.into()), commit: commit.into() },
        })
    };
    let mut g = Graph::new();
    let skrifa: usize = g.add(git("skrifa"));
    let fonts: usize = g.add(git("read-fonts"));
    let mut dep = decl("read-fonts", "*", DepSource::Path("read-fonts".to_owned()));
    dep.req = VersionReq::star();
    assert_eq!(g.target_of(skrifa, &dep), Some(fonts));
    let mut patches: Patches = StrMap::new();
    let mut patch = decl("skrifa", "*", DepSource::Git { url: url.into(), reference: GitRef::Rev(commit.into()) });
    patch.req = VersionReq::star();
    patches.insert(CRATES_IO, vec![patch]);
    g.mark_lock_patches(&patches);
    assert_eq!(g.nodes[skrifa].patch_for.as_deref(), Some(CRATES_IO));
}

fn locked(name: &str, v: &str, deps: &[&str]) -> LockPkg {
    LockPkg {
        name: name.to_owned(),
        version: Version::parse(v).unwrap(),
        source: Some(CRATES_IO.to_owned()),
        checksum: Some(format!("sum-{name}")),
        dependencies: deps.iter().map(|d| LockDep { name: (*d).to_owned(), version: None, source: None }).collect(),
    }
}

#[test]
fn locked_versions_are_preferred_to_the_index() {
    let lock = Lockfile { version: 4, packages: vec![locked("a", "1.0.0", &[])] };
    let mut prefs = Prefs::from_lock(Some(&lock));
    let mut g = Graph::new();
    let dep = decl("a", "^1", DepSource::Registry(CRATES_IO.to_owned()));
    let none: Patches = StrMap::new();
    let used = g.select(&dep, &prefs, &none, false, None, Got::Nothing);
    assert!(matches!(used, Pick::Use(0)));
    assert_eq!(g.nodes[0].id.version.text(), "1.0.0");
    prefs.forget_all();
    let mut h = Graph::new();
    assert!(matches!(
        h.select(&dep, &prefs, &none, false, None, Got::Nothing),
        Pick::NeedEntries { source, name } if source == CRATES_IO && name == "a"
    ));
    let line = |v: &str, y: bool| format!(r#"{{"name":"a","vers":"{v}","deps":[],"cksum":"c","features":{{}},"yanked":{y}}}"#);
    let es = vec![
        parse_entry(&line("1.0.0", false), CRATES_IO).unwrap(),
        parse_entry(&line("1.4.0", false), CRATES_IO).unwrap(),
        parse_entry(&line("1.5.0", true), CRATES_IO).unwrap(),
        parse_entry(&line("2.0.0", false), CRATES_IO).unwrap(),
    ];
    assert!(matches!(h.select(&dep, &prefs, &none, false, None, Got::Entries(es)), Pick::Use(0)));
    assert_eq!(h.nodes[0].id.version.text(), "1.4.0");
    assert!(matches!(Graph::new().select(&dep, &prefs, &none, false, None, Got::Entries(Vec::new())), Pick::NoVersion));
}

#[test]
fn lockfiles_become_graphs_with_edges() {
    let lock = Lockfile { version: 4, packages: vec![locked("a", "1.0.0", &["b"]), locked("b", "2.0.0", &[])] };
    let mut g = Graph::new();
    g.import_lock(&lock).unwrap();
    assert_eq!(g.nodes.len(), 2);
    assert_eq!(g.nodes[0].edges, [1]);
    assert_eq!(g.nodes[0].checksum.as_deref(), Some("sum-a"));
    let mut bad = locked("c", "1.0.0", &[]);
    bad.source = Some("svn+x".to_owned());
    assert!(Graph::new().import_lock(&Lockfile { version: 4, packages: vec![bad] }).is_err());
}

#[test]
fn updates_forget_what_they_name() {
    let lock = Lockfile { version: 4, packages: vec![locked("a", "1.0.0", &["b"]), locked("b", "2.0.0", &[])] };
    let specs = vec!["a".to_owned()];
    let prefs = update_prefs(&specs, None, false, Some(&lock)).unwrap();
    let none: Patches = StrMap::new();
    let pick = |p: &Prefs, n: &str| {
        let mut g = Graph::new();
        matches!(g.select(&decl(n, "*", DepSource::Registry(CRATES_IO.to_owned())), p, &none, false, None, Got::Nothing), Pick::Use(_))
    };
    assert!(!pick(&prefs, "a") && pick(&prefs, "b"));
    let all = update_prefs(&specs, None, true, Some(&lock)).unwrap();
    assert!(!pick(&all, "a") && !pick(&all, "b"));
    assert!(matches!(update_prefs(&vec!["zz".to_owned()], None, false, Some(&lock)), Err(UpdateError::NoMatch(_))));
    assert!(matches!(update_prefs(&Vec::new(), Some("1.0.0"), false, Some(&lock)), Err(UpdateError::Precise)));
    assert!(is_reached(&lock, "a", "1.0.0") && !is_reached(&lock, "a", "1.1.0"));
    let newer = Lockfile { version: 4, packages: vec![locked("a", "1.1.0", &["b"]), locked("b", "2.0.0", &[])] };
    let (gone, fresh) = report_lock_changes(Some(&lock), &newer);
    assert_eq!((gone.len(), fresh.len()), (1, 1));
}

fn member(text: &str) -> Node {
    let mut files = StrSet::new();
    files.insert("/r/src/lib.rs");
    let p = parse_package("/r/Cargo.toml", &parse_document(text).unwrap(), None, &StrMap::new(), &files).unwrap();
    let mut n = Node::new(PkgId { name: p.name.clone(), version: Version::new(1, 0, 0), source: SourceId::Path("/r".to_owned()) });
    n.package = Some(p);
    n.is_member = true;
    n
}

#[test]
fn features_are_resolved_over_the_graph() {
    let mut g = Graph::new();
    let app: usize = g.add(member(
        "[package]\nname = \"app\"\nversion = \"1.0.0\"\nedition = \"2021\"\n[features]\ndefault = [\"std\"]\nstd = []\nextra = [\"std\"]\n",
    ));
    let none: Vec<usize> = Vec::new();
    let o = EngineOpts { two_sides: false, platforms: None, dev_for: &none, needs_package: false, weak_activates: false };
    let ask = |features: &[&str], default: bool| {
        vec![Request { node: app, features: features.iter().map(|f| (*f).to_owned()).collect(), all_features: false, default }]
    };
    let r = resolve(&g, &ask(&[], true), &o).unwrap();
    assert_eq!(r.info.len(), 1);
    let unknown = resolve(&g, &ask(&["std", "nope", "none"], true), &o).unwrap_err();
    assert_eq!((unknown.package.as_str(), unknown.feature.as_str()), ("app", "nope"));
}

#[test]
fn a_workspace_of_one_is_locked_at_once() {
    let mut g = Graph::new();
    let app: usize = g.add(member("[package]\nname = \"app\"\nversion = \"1.0.0\"\nedition = \"2021\"\n"));
    let members = vec![app];
    match resolve_lock_mode(&g, &members, 0).unwrap() {
        LockStep::Done(out) => {
            let lock = to_lockfile(&g, &out, &members, 4);
            assert_eq!(lock.packages.len(), 1);
            assert_eq!(lock.packages[0].name, "app");
            assert!(lock.packages[0].source.is_none());
        }
        LockStep::Pending { .. } => panic!("nothing is missing"),
    }
}

#[test]
fn versions_and_requirements() {
    let r = VersionReq::parse("^1.2").unwrap();
    assert!(r.matches(&Version::new(1, 3, 0)) && !r.matches(&Version::new(2, 0, 0)));
    assert!(Version::parse("1.0.0-alpha").unwrap().before(&Version::new(1, 0, 0)));
    assert_eq!(Version::parse("1.0.0-a+b").unwrap().text(), "1.0.0-a+b");
    assert!(Version::parse("1.0").is_none());
    assert!(VersionReq::parse("x y").is_none());
}
