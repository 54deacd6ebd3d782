//! Build scripts, cfg expressions, dependency files, sizes and colors.

use rb::build_script::BuildOutput;
use rb::build_script::env_name;
use rb::cfgexpr::CfgError;
use rb::cfgexpr::PlatformCfg;
use rb::cfgexpr::PlatformExpr;
use rb::config::ConfigError;
use rb::config::parse_size;
use rb::depinfo::parse_str;
use rb::num::parse_i64;
use rb::num::parse_u64;
use rb::num::u64_text;
use rb::shell::MessageFormat;
use rb::shell::Shell;
use rb::shell::Terminal;
use rb::shell::color_enabled;

fn pair(a: &str, b: &str) -> (String, String) {
    (a.to_owned(), b.to_owned())
}

#[test]
fn parses_both_syntaxes() {
    let o = BuildOutput::parse(
        "cargo:rustc-link-lib=static=foo\ncargo::rustc-link-search=native=/x/out\ncargo:rustc-cfg=has_foo\n\
             cargo::rustc-check-cfg=cfg(has_foo)\ncargo:include=/x/out/include\ncargo::metadata=root=/x\n\
             cargo:rustc-flags=-l bar -L/y\ncargo:rustc-env=GIT=abc\ncargo:warning=careful\nnoise\n",
    );
    assert_eq!(o.link_libs, ["static=foo", "bar"]);
    assert_eq!(o.link_search, ["native=/x/out", "/y"]);
    assert_eq!(o.cfgs, ["has_foo"]);
    assert_eq!(o.metadata, [pair("include", "/x/out/include"), pair("root", "/x")]);
    assert_eq!(o.env, [pair("GIT", "abc")]);
    assert_eq!(o.warnings, ["careful"]);
}

#[test]
fn scripts_ask_for_reruns_and_fail() {
    let o = BuildOutput::parse("cargo:rerun-if-changed=a.c\ncargo:rerun-if-env-changed=CC\ncargo::error=no compiler\n");
    assert_eq!(o.rerun_if_changed, ["a.c"]);
    assert_eq!(o.rerun_if_env_changed, ["CC"]);
    assert_eq!(o.errors, ["no compiler"]);
    let twice = o.map_strings(|s| format!("<{s}>"));
    assert_eq!(twice.rerun_if_changed, ["<a.c>"]);
}

#[test]
fn names_become_variables() {
    assert_eq!(env_name("my-crate"), "MY_CRATE");
}

#[test]
fn evaluates() {
    let cfg: Vec<(String, Option<String>)> = vec![
        ("unix".into(), None),
        ("target_os".into(), Some("linux".into())),
        ("target_arch".into(), Some("x86_64".into())),
    ];
    let p = PlatformCfg { triple: "x86_64-unknown-linux-gnu", cfg: &cfg };
    let t = |s: &str| PlatformExpr::parse(s).unwrap().matches(&p);
    assert!(t("cfg(unix)"));
    assert!(!t("cfg(windows)"));
    assert!(t("cfg(all(unix, target_arch = \"x86_64\"))"));
    assert!(t("cfg(any(windows, target_os = \"linux\",))"));
    assert!(t("cfg(not(target_os = \"macos\"))"));
    assert!(t("x86_64-unknown-linux-gnu"));
    assert!(!t("aarch64-apple-darwin"));
}

#[test]
fn malformed_cfg_expressions_are_errors() {
    assert!(matches!(PlatformExpr::parse("cfg(not(unix, windows))"), Err(CfgError::NotArity)));
    assert!(matches!(PlatformExpr::parse("cfg(unix) x)"), Err(CfgError::Trailing(_))));
    assert!(PlatformExpr::parse("cfg(all)").is_err());
    assert!(matches!(PlatformExpr::parse("cfg(unix"), Ok(PlatformExpr::Triple(_))));
    assert!(matches!(PlatformExpr::parse("cfg()"), Err(CfgError::Identifier(_))));
    assert!(matches!(PlatformExpr::parse("cfg(target_os = linux)"), Err(CfgError::Text(_))));
}

#[test]
fn sizes() {
    assert_eq!(parse_size("20G").unwrap(), 20 << 30);
    assert_eq!(parse_size("512MiB").unwrap(), 512 << 20);
    assert_eq!(parse_size("1024").unwrap(), 1024);
}

#[test]
fn sizes_with_fractions_and_errors() {
    assert_eq!(parse_size("1.5K").unwrap(), 1536);
    assert_eq!(parse_size(" 2 TB ").unwrap(), 2 << 40);
    assert!(matches!(parse_size("12X"), Err(ConfigError::Unit(_, _))));
    assert!(matches!(parse_size("1.2.3"), Err(ConfigError::Size(_))));
}

#[test]
fn parses_rules_and_env() {
    let text = "/t/deps/libfoo-1.rmeta: src/lib.rs /abs/my\\ file.txt\n\n/t/deps/foo-1.d: src/lib.rs\n\nsrc/lib.rs:\n\n# env-dep:CARGO_PKG_NAME=foo\n# env-dep:MULTI=a\\nb\n# env-dep:UNSET\n";
    let d = parse_str(text, "/ws");
    assert_eq!(d.files, vec!["/ws/src/lib.rs".to_owned(), "/abs/my file.txt".to_owned()]);
    assert_eq!(d.env[1], ("MULTI".into(), Some("a\nb".into())));
    assert_eq!(d.env[2], ("UNSET".into(), None));
}

#[test]
fn cargo_term_color_matches_cargo() {
    assert!(!color_enabled(None, Some("never"), true, false, false));
    assert!(color_enabled(None, Some("always"), false, true, true));
    assert!(!color_enabled(Some("never"), Some("always"), true, false, false));
    assert!(color_enabled(Some("always"), Some("never"), false, true, true));
    assert!(!color_enabled(None, None, true, true, false));
    assert!(!color_enabled(None, None, false, false, false));
}

fn plain_terminal() -> Terminal {
    Terminal { tty: false, cargo_color: None, cargo_quiet: None, no_color: false, dumb: false }
}

#[test]
fn status_lines_are_aligned() {
    let mut sh = Shell::new(0, false, None, &plain_terminal());
    assert_eq!(sh.status("Adding", "x").unwrap(), "      Adding x\n");
    assert!(sh.verbose_status("Fresh", "x").is_none());
    let mut quiet = Shell::new(0, true, None, &plain_terminal());
    assert!(quiet.status("Adding", "x").is_none());
}

#[test]
fn message_formats_are_read() {
    assert!(MessageFormat::parse("json").unwrap().is_json());
    assert!(!MessageFormat::parse("human").unwrap().is_json());
    assert!(MessageFormat::parse("xml").is_err());
}

#[test]
fn numbers_are_read_and_written() {
    assert_eq!(parse_u64("18446744073709551615"), Some(u64::MAX));
    assert_eq!(parse_u64("18446744073709551616"), None);
    assert_eq!(parse_u64("+7"), Some(7));
    assert_eq!(parse_u64(""), None);
    assert_eq!(parse_i64("-9223372036854775808"), Some(i64::MIN));
    assert_eq!(parse_i64("x"), None);
    assert_eq!(u64_text(1200), "1200");
}
