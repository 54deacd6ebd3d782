//! Manifests: packages, targets, dependencies and edits.

use rb::lints::from_table;
use rb::manifest::DepKind;
use rb::manifest::DepSource;
use rb::manifest::ManifestError;
use rb::manifest::Package;
use rb::manifest::TargetKind;
use rb::manifest::WsContext;
use rb::manifest::clean_path;
use rb::manifest::parse_deps;
use rb::manifest::parse_package;
use rb::manifest::remove_dependency;
use rb::manifest::upsert_dependency;
use rb::strmap::StrMap;
use rb::strmap::StrSet;
use rb::value::Toml;
use rb::value::parse_document;
use rb::version::Version;

fn set_of(l: &[&str]) -> StrSet {
    let mut s = StrSet::new();
    for x in l {
        s.insert(x);
    }
    s
}

fn parsed(text: &str, files: &[&str]) -> Result<Package, ManifestError> {
    let table = parse_document(text).unwrap();
    parse_package("/r/Cargo.toml", &table, None, &StrMap::new(), &set_of(files))
}

#[test]
fn parses_targets_deps_and_inheritance() {
    let root = "/r";
    let files = set_of(&[
        "/r/src/lib.rs",
        "/r/src/main.rs",
        "/r/src/bin/tool.rs",
        "/r/tests/it.rs",
        "/r/examples/demo/main.rs",
        "/r/build.rs",
    ]);
    let manifest = parse_document(
        r#"
            [package]
            name = "my-pkg"
            version.workspace = true
            edition = "2021"
            [features]
            default = ["std"]
            std = []
            fast = ["dep:simd", "serde?/derive"]
            [dependencies]
            serde = { version = "1", optional = true }
            simd = { version = "0.2", optional = true, package = "simd-real" }
            local = { path = "../local" }
            shared = { workspace = true, features = ["extra"] }
            [target.'cfg(windows)'.dependencies]
            winapi = "0.3"
            [dev-dependencies]
            tempfile = "3"
            "#,
    )
    .unwrap();
    let ws_table =
        parse_document("[package]\nversion = \"1.2.3\"\n[dependencies]\nshared = { version = \"2\", features = [\"base\"] }\n").unwrap();
    let ws = WsContext { root, table: &ws_table };
    let p = parse_package("/r/Cargo.toml", &manifest, Some(&ws), &StrMap::new(), &files).unwrap();
    assert!(p.version.same_as(&Version::new(1, 2, 3)));
    let kinds: Vec<(TargetKind, &str)> = p.targets.iter().map(|t| (t.kind, t.name.as_str())).collect();
    assert_eq!(
        kinds,
        [
            (TargetKind::Lib, "my_pkg"),
            (TargetKind::Bin, "my-pkg"),
            (TargetKind::Bin, "tool"),
            (TargetKind::Example, "demo"),
            (TargetKind::Test, "it"),
            (TargetKind::BuildScript, "build-script-build"),
        ]
    );
    assert_eq!(p.features.get("serde"), Some(&vec!["dep:serde".to_owned()]), "implicit feature");
    assert!(!p.features.has("simd"), "dep: syntax suppresses the implicit feature");
    let shared = p.deps.iter().find(|d| d.name == "shared").unwrap();
    assert_eq!(shared.features, ["base", "extra"]);
    let simd = p.deps.iter().find(|d| d.name == "simd-real").unwrap();
    assert_eq!(simd.dep_name(), "simd");
    assert!(p.deps.iter().any(|d| d.name == "winapi" && d.platform.is_some()));
    assert!(p.deps.iter().any(|d| d.name == "tempfile" && d.kind == DepKind::Dev));
    assert!(matches!(
        p.deps.iter().find(|d| d.name == "local").unwrap().source,
        DepSource::Path(_)
    ));
}

#[test]
fn broken_manifests_are_errors() {
    assert!(matches!(parsed("[dependencies]\n", &[]), Err(ManifestError::NoPackage)));
    assert!(matches!(parsed("[package]\nversion = \"1.0.0\"\n", &[]), Err(ManifestError::NoName)));
    assert!(matches!(parsed("cargo-features = [\"x\"]\n[package]\nname = \"a\"\n", &[]), Err(ManifestError::Unstable)));
    assert!(matches!(parsed("[package]\nname = \"a\"\nversion = \"x\"\n", &["/r/src/lib.rs"]), Err(ManifestError::Version(_))));
    assert!(matches!(
        parsed("[package]\nname = \"a\"\nversion.workspace = true\n", &["/r/src/lib.rs"]),
        Err(ManifestError::FieldNoWorkspace(_))
    ));
    let dep = |line: &str| parsed(&format!("[package]\nname = \"a\"\nversion = \"1.0.0\"\n[dependencies]\n{line}\n"), &["/r/src/lib.rs"]);
    assert!(matches!(dep("b = \"not a req\""), Err(ManifestError::Requirement(_, _))));
    assert!(matches!(dep("b = 3"), Err(ManifestError::Dependency(_))));
    assert!(matches!(dep("b = { workspace = true }"), Err(ManifestError::NoWorkspace(_))));
    assert!(matches!(dep("b = { version = \"1\", artifact = \"bin\" }"), Err(ManifestError::Artifact(_))));
    assert!(matches!(dep("b = { version = \"1\", registry = \"corp\" }"), Err(ManifestError::Registry(_))));
}

#[test]
fn sources_of_dependencies() {
    let t = parse_document("[dependencies]\na = { git = \"https://x/y\", branch = \"main\" }\nb = \"1.2\"\nc = { path = \"../c\" }\n").unwrap();
    let deps = parse_deps(&t, "/ws/app", None, &StrMap::new()).unwrap();
    assert!(matches!(&deps[0].source, DepSource::Git { url, .. } if url == "https://x/y"));
    assert!(matches!(&deps[1].source, DepSource::Registry(_)));
    assert_eq!(deps[1].req.text, "^1.2");
    assert!(matches!(&deps[2].source, DepSource::Path(p) if p == "/ws/c"));
}

#[test]
fn paths_are_cleaned() {
    assert_eq!(clean_path("/a/./b/../c"), "/a/c");
    assert_eq!(clean_path("/a/b/../../c"), "/c");
}

#[test]
fn dependency_lines_are_put_in_and_taken_out() {
    let text = "[package]\nname = \"a\"\n\n[dependencies]\nb = \"1\"\n\n[features]\n";
    let more = upsert_dependency(text, "dependencies", "c", "c = \"2\"");
    assert_eq!(more, "[package]\nname = \"a\"\n\n[dependencies]\nb = \"1\"\n\nc = \"2\"\n[features]\n");
    assert_eq!(remove_dependency(&more, "dependencies", "c").unwrap(), text);
    let other = upsert_dependency(text, "dependencies", "b", "b = \"3\"");
    assert!(other.contains("b = \"3\"\n") && !other.contains("b = \"1\""));
    assert_eq!(remove_dependency(text, "dependencies", "zz"), None);
    assert_eq!(remove_dependency(text, "dev-dependencies", "b"), None);
    assert_eq!(
        upsert_dependency("[package]", "dev-dependencies", "t", "t = \"1\""),
        "[package]\n\n[dev-dependencies]\nt = \"1\"\n"
    );
    assert_eq!(upsert_dependency("[dependencies]\nb = \"1\"", "dependencies", "c", "c = \"2\""), "[dependencies]\nb = \"1\"\nc = \"2\"\n");
}

#[test]
fn lints_become_flags() {
    let t = parse_document("[rust]\nunused = \"warn\"\nunsafe_code = { level = \"forbid\", priority = 1 }\n[clippy]\nall = \"deny\"\n").unwrap();
    let l = from_table(Some(&t));
    assert_eq!(l.flags, ["--deny=clippy::all", "--warn=unused", "--forbid=unsafe_code"]);
    assert!(from_table(None).flags.is_empty());
}

#[test]
fn documents_are_read_piece_by_piece() {
    let t = parse_document("b = [1, \"x\", true]\na.c = 1.5\nd = 2020-01-02\n").unwrap();
    assert_eq!(t[0].0, "a");
    assert!(matches!(&t[0].1, Toml::Table(l) if matches!(&l[0].1, Toml::Float(f) if f == "1.5")));
    assert!(matches!(&t[1].1, Toml::Array(l) if l.len() == 3));
    assert!(matches!(&t[2].1, Toml::Date(d) if d == "2020-01-02"));
    assert!(parse_document("a = ").is_err());
}
