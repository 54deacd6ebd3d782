//! What `config get` prints.

use rb::config_get::Def;
use rb::config_get::GetError;
use rb::config_get::GetOptions;
use rb::config_get::Layer;
use rb::config_get::Output;
use rb::config_get::config_get;
use rb::config_get::env_key;
use rb::config_get::shell_escape;
use rb::strmap::StrMap;
use rb::value::parse_document;

fn layer(path: &str, text: &str) -> Layer {
    Layer { def: Def::File(path.to_owned()), table: parse_document(text).unwrap() }
}

struct Ask {
    key: Option<&'static str>,
    format: &'static str,
    origin: bool,
    merged: &'static str,
    unstable: Vec<String>,
    cli: Vec<String>,
}

fn asking(key: Option<&'static str>) -> Ask {
    Ask { key, format: "toml", origin: false, merged: "yes", unstable: vec!["unstable-options".to_owned()], cli: Vec::new() }
}

fn layers() -> Vec<Layer> {
    vec![
        layer("/w/.cargo/config.toml", "[build]\njobs = 5\nrustflags = [\"-Cnear\"]\n"),
        layer("/h/config.toml", "[build]\njobs = 3\nrustflags = [\"-Chome\"]\n[net]\noffline = true\n"),
    ]
}

fn got(a: &Ask, env: &[(&str, &str)], nightly: bool) -> Result<Output, GetError> {
    let o = GetOptions {
        key: a.key,
        format: a.format,
        show_origin: a.origin,
        merged: a.merged,
        unstable: &a.unstable,
        cli_config: &a.cli,
    };
    let mut vars: StrMap<String> = StrMap::new();
    for (k, v) in env {
        vars.insert(k, (*v).to_owned());
    }
    let mut texts: StrMap<String> = StrMap::new();
    texts.insert("/w/extra.toml", "[build]\njobs = 8\n".to_owned());
    config_get(&o, nightly, &layers(), "/w", &texts, &vars, "/h")
}

#[test]
fn the_nearest_value_is_shown() {
    let out = got(&asking(Some("build.jobs")), &[], true).unwrap();
    assert_eq!(out.out, ["build.jobs = 5"]);
    let mut a = asking(Some("build.jobs"));
    a.origin = true;
    assert_eq!(got(&a, &[], true).unwrap().out, ["build.jobs = 5 # /w/.cargo/config.toml"]);
    a.cli = vec!["build.jobs=9".to_owned()];
    assert_eq!(got(&a, &[], true).unwrap().out, ["build.jobs = 9 # --config cli option"]);
    a.cli = vec!["extra.toml".to_owned()];
    assert_eq!(got(&a, &[], true).unwrap().out, ["build.jobs = 8 # /w/extra.toml"]);
}

#[test]
fn lists_of_layers_follow_one_another() {
    let out = got(&asking(Some("build.rustflags")), &[("CARGO_BUILD_RUSTFLAGS", "-Ce -Cf")], true).unwrap();
    assert_eq!(out.out, ["build.rustflags = [\"-Chome\", \"-Cnear\", \"-Ce\", \"-Cf\"]"]);
    let mut a = asking(Some("build.rustflags"));
    a.origin = true;
    assert_eq!(
        got(&a, &[], true).unwrap().out,
        ["build.rustflags = [", "    \"-Chome\", # /h/config.toml", "    \"-Cnear\", # /w/.cargo/config.toml", "]"]
    );
}

#[test]
fn the_environment_is_shown_too() {
    assert_eq!(got(&asking(Some("build.jobs")), &[("CARGO_BUILD_JOBS", "2")], true).unwrap().out, ["build.jobs = 2"]);
    assert_eq!(got(&asking(Some("a.b")), &[("CARGO_A_B", "x y")], true).unwrap().out, ["a.b = \"x y\""]);
    let out = got(&asking(Some("net")), &[("CARGO_NET_RETRY", "it's")], true).unwrap();
    assert_eq!(
        out.out,
        [
            "net.offline = true",
            "# The following environment variables may affect the loaded values.",
            "# CARGO_NET_RETRY='it'\\''s'",
        ]
    );
    assert_eq!(env_key(&vec!["target".to_owned(), "x86-64".to_owned()]), "CARGO_TARGET_X86_64");
    assert_eq!(shell_escape(""), "''");
    assert_eq!(shell_escape("a/b-c"), "a/b-c");
}

#[test]
fn values_as_json() {
    let mut a = asking(Some("build.jobs"));
    a.format = "json";
    assert_eq!(got(&a, &[], true).unwrap().out, ["{\"build\":{\"jobs\":5}}"]);
    a.format = "json-value";
    assert_eq!(got(&a, &[], true).unwrap().out, ["5"]);
    let mut t = asking(Some("net"));
    t.format = "json-value";
    let out = got(&t, &[("CARGO_NET_RETRY", "3")], true).unwrap();
    assert_eq!(out.out, ["{\"offline\":true}"]);
    assert_eq!(out.err, ["note: The following environment variables may affect the loaded values.", "CARGO_NET_RETRY=3"]);
}

#[test]
fn layers_one_after_the_other() {
    let mut a = asking(Some("build.jobs"));
    a.merged = "no";
    a.cli = vec!["build.jobs=9".to_owned()];
    assert_eq!(
        got(&a, &[("CARGO_BUILD_JOBS", "2")], true).unwrap().out,
        [
            "# --config cli option",
            "build.jobs = 9",
            "",
            "# Environment variables",
            "# CARGO_BUILD_JOBS=2",
            "",
            "# /w/.cargo/config.toml",
            "build.jobs = 5",
            "",
            "# /h/config.toml",
            "build.jobs = 3",
            "",
        ]
    );
}

#[test]
fn requests_are_refused_for_a_reason() {
    assert!(matches!(got(&asking(None), &[], false), Err(GetError::UnstableFlag)));
    let mut a = asking(None);
    a.unstable = Vec::new();
    assert!(matches!(got(&a, &[], false), Err(GetError::Stable)));
    assert!(matches!(got(&a, &[], true), Err(GetError::NotEnabled)));
    let mut f = asking(None);
    f.format = "xml";
    assert!(matches!(got(&f, &[], true), Err(GetError::Format(_))));
    let mut m = asking(None);
    m.merged = "maybe";
    assert!(matches!(got(&m, &[], true), Err(GetError::Merged(_))));
    let mut o = asking(None);
    o.format = "json";
    o.origin = true;
    assert!(matches!(got(&o, &[], true), Err(GetError::Origin(_))));
    let mut u = asking(None);
    u.format = "json";
    u.merged = "no";
    assert!(matches!(got(&u, &[], true), Err(GetError::Unmerged(_))));
    assert!(matches!(got(&asking(Some("")), &[], true), Err(GetError::NotSet(_))));
    assert!(matches!(got(&asking(Some("no.such")), &[], true), Err(GetError::NotSet(k)) if k == "no.such"));
    assert!(matches!(
        got(&asking(Some("build.jobs.x")), &[], true),
        Err(GetError::NotTable(k, what, from)) if k == "build.jobs" && what == "integer" && from == "/w/.cargo/config.toml"
    ));
    let mut c = asking(None);
    c.cli = vec!["nothing.toml".to_owned()];
    assert!(matches!(got(&c, &[], true), Err(GetError::Cli(_))));
}
