//! Configuration files, the environment and the command line.

use rb::cfgexpr::PlatformCfg;
use rb::config::CargoConfig;
use rb::config::CliConfig;
use rb::config::ConfigError;
use rb::config::RbConfig;
use rb::config::Toggle;
use rb::config::config_paths;
use rb::config::set_cli_config;
use rb::store::LinkMode;
use rb::strmap::StrMap;
use rb::strmap::StrSet;

fn no_env() -> StrMap<String> {
    StrMap::new()
}

fn env_of(l: &[(&str, &str)]) -> StrMap<String> {
    let mut m: StrMap<String> = StrMap::new();
    for (k, v) in l {
        m.insert(k, (*v).to_owned());
    }
    m
}

fn files_of(l: &[(&str, &str)]) -> Vec<(String, String)> {
    l.iter().map(|(p, t)| ((*p).to_owned(), (*t).to_owned())).collect()
}

fn args_of(l: &[&str]) -> Vec<String> {
    l.iter().map(|a| (*a).to_owned()).collect()
}

#[test]
fn cli_config_overrides_files() {
    let files = files_of(&[("/t/.cargo/config.toml", "[build]\njobs = 2\n[net]\noffline = false\n")]);
    let mut c = CargoConfig::load_from(&files).unwrap();
    c.push_cli_config("/t", &args_of(&["build.jobs=8", "net.offline=true"]), &StrMap::new()).unwrap();
    assert_eq!(c.jobs(&no_env(), 4).unwrap(), Some(8));
    assert!(c.offline(&no_env()).unwrap());
    let mut cli = CliConfig { specs: Vec::new() };
    set_cli_config(&mut cli, args_of(&["build.jobs=4"]));
    let mut loaded = CargoConfig::load_from(&files).unwrap();
    loaded.push_cli_config("/t", &cli.specs, &StrMap::new()).unwrap();
    assert_eq!(loaded.jobs(&no_env(), 4).unwrap(), Some(4));
    set_cli_config(&mut cli, Vec::new());
    assert!(cli.specs.is_empty());
}

const HOME: &str = r#"
            [build]
            jobs = 3
            rustflags = ["-Chome"]
            [registries.corp]
            index = "sparse+https://corp.example/index/"
            [env]
            FROM_HOME = "h"
            "#;

const WS: &str = r#"
            [build]
            target-dir = "out"
            rustflags = "-Cws -Cmore"
            [target.x86_64-unknown-linux-gnu]
            linker = "tools/cc"
            rustflags = ["-Ctriple"]
            [target.'cfg(target_os = "linux")']
            rustflags = ["-Clinux"]
            runner = ["qemu-x86_64", "-L", "/sysroot"]
            [env]
            REL = { value = "data", relative = true }
            "#;

#[test]
fn cargo_config_hierarchy() {
    let mut there = StrSet::new();
    there.insert("/t/home/config.toml");
    there.insert("/t/ws/.cargo/config.toml");
    there.insert("/t/ws/member/.cargo/config.toml");
    let paths = config_paths("/t/ws/member", "/t/home", &there, &StrSet::new());
    assert_eq!(paths, ["/t/ws/member/.cargo/config.toml", "/t/ws/.cargo/config.toml", "/t/home/config.toml"]);
    let files = files_of(&[
        (paths[0].as_str(), "[build]\njobs = 5\ntarget = [\"a\", \"b\"]\n"),
        (paths[1].as_str(), WS),
        (paths[2].as_str(), HOME),
    ]);
    let c = CargoConfig::load_from(&files).unwrap();
    assert_eq!(c.files.len(), 3);
    assert_eq!(c.jobs(&no_env(), 4).unwrap(), Some(5), "nearest file wins");
    assert_eq!(c.build_targets(&no_env()).unwrap(), ["a", "b"]);
    assert_eq!(
        c.target_dir("/t/ws/member", &no_env()).unwrap(),
        Some("/t/ws/out".to_owned()),
        "relative to the config's base"
    );
    assert_eq!(c.registries(&no_env()).get("corp").unwrap(), "sparse+https://corp.example/index/");

    // Lists join lowest priority first. A target table replaces `build.rustflags`.
    assert_eq!(c.rustflags(&no_env(), "aarch64-apple-darwin", None).unwrap(), ["-Chome", "-Cws", "-Cmore"]);
    let cfg = vec![("target_os".to_owned(), Some("linux".to_owned()))];
    let linux = PlatformCfg { triple: "x86_64-unknown-linux-gnu", cfg: &cfg };
    assert_eq!(c.rustflags(&no_env(), "x86_64-unknown-linux-gnu", None).unwrap(), ["-Ctriple"]);
    assert_eq!(
        c.rustflags(&no_env(), "x86_64-unknown-linux-gnu", Some(&linux)).unwrap(),
        ["-Ctriple", "-Clinux"]
    );
    assert!(c.has_cfg_targets());

    assert_eq!(
        c.linker(&no_env(), "x86_64-unknown-linux-gnu", None).unwrap(),
        Some("/t/ws/tools/cc".to_owned())
    );
    assert_eq!(
        c.runner(&no_env(), "x86_64-unknown-linux-gnu", Some(&linux)).unwrap().unwrap(),
        ["qemu-x86_64", "-L", "/sysroot"]
    );
    assert_eq!(c.runner(&no_env(), "x86_64-unknown-linux-gnu", None).unwrap(), None);

    let env = c.env_vars(&no_env()).unwrap();
    assert_eq!(env.get("FROM_HOME").unwrap(), "h");
    assert_eq!(env.get("REL").unwrap(), "/t/ws/data");
}

#[test]
fn legacy_name_and_negative_jobs() {
    let mut there = StrSet::new();
    there.insert("/t/p/.cargo/config");
    there.insert("/t/p/.cargo/config.toml");
    let paths = config_paths("/t/p", "/t/nohome", &there, &StrSet::new());
    assert_eq!(paths, ["/t/p/.cargo/config"]);
    let c = CargoConfig::load_from(&files_of(&[(paths[0].as_str(), "[build]\njobs = -1\n")])).unwrap();
    let cpus: u32 = 8;
    assert_eq!(c.jobs(&no_env(), cpus).unwrap(), Some((cpus as i64 - 1).max(1) as usize));
    assert_eq!(c.jobs(&no_env(), 1).unwrap(), Some(1));
}

#[test]
fn the_environment_beats_the_files() {
    let c = CargoConfig::load_from(&files_of(&[("/t/.cargo/config.toml", "[build]\njobs = 2\nrustc = \"cc\"\n")])).unwrap();
    assert_eq!(c.jobs(&env_of(&[("CARGO_BUILD_JOBS", "6")]), 4).unwrap(), Some(6));
    assert!(matches!(c.jobs(&env_of(&[("CARGO_BUILD_JOBS", "many")]), 4), Err(ConfigError::JobsVar(_))));
    assert_eq!(c.rustc(&env_of(&[("RUSTC", "/opt/rustc")])).unwrap(), Some("/opt/rustc".to_owned()));
    assert_eq!(
        c.rustflags(&env_of(&[("RUSTFLAGS", "-Ca -Cb")]), "x", None).unwrap(),
        ["-Ca", "-Cb"]
    );
}

#[test]
fn malformed_configuration_is_an_error() {
    assert!(matches!(CargoConfig::load_from(&files_of(&[("/f", "[build\n")])), Err(ConfigError::File(_))));
    let c = CargoConfig::load_from(&files_of(&[("/t/.cargo/config.toml", "[build]\njobs = \"x\"\ntarget-dir = 3\n[net]\noffline = 1\n")])).unwrap();
    assert!(matches!(c.jobs(&no_env(), 4), Err(ConfigError::Jobs)));
    assert!(matches!(c.target_dir("/t", &no_env()), Err(ConfigError::NotString(_))));
    assert!(matches!(c.offline(&no_env()), Err(ConfigError::NotBool(_))));
    let none = CargoConfig::load_from(&files_of(&[("/t/.cargo/config.toml", "[build]\njobs = 0\n")])).unwrap();
    assert!(matches!(none.jobs(&no_env(), 4), Err(ConfigError::NoJobs)));
    let mut d = CargoConfig::load_from(&Vec::new()).unwrap();
    assert!(matches!(d.push_cli_config("/t", &args_of(&["no-such-file"]), &StrMap::new()), Err(ConfigError::Cli(_))));
}

#[test]
fn settings_of_the_tool_are_read() {
    let text = "[store]\nlink-mode = \"hardlink\"\nmax-size = \"1G\"\nmax-age-days = 3\n[target]\nkeep-variants = 0\n[speed]\nparallel-frontend = \"on\"\n";
    let c = RbConfig::load(&no_env(), "/home/u", Some(text), "0.16.0").unwrap();
    assert_eq!(c.home, "/home/u/.rb");
    assert_eq!(c.store_dir, "/home/u/.rb/store");
    assert_eq!(c.link_mode, LinkMode::Hardlink);
    assert_eq!(c.store_max_size, Some(1 << 30));
    assert_eq!(c.gc_max_age_days, 3);
    assert_eq!(c.target_keep_variants, 0);
    assert_eq!(c.parallel_frontend, Toggle::On);
    assert_eq!(c.zig_version, "0.16.0");
    assert_eq!(c.cache_dir(), "/home/u/.rb/cache");
    let e = env_of(&[("RB_HOME", "/rb"), ("RB_LINK_MODE", "copy"), ("RB_NO_STORE", "1")]);
    let d = RbConfig::load(&e, "/home/u", None, "0.16.0").unwrap();
    assert_eq!(d.home, "/rb");
    assert_eq!(d.link_mode, LinkMode::Copy);
    assert!(!d.store_enabled);
    assert_eq!(d.store_max_size, Some(20 << 30));
    assert!(matches!(RbConfig::load(&no_env(), "/u", Some("[store\n"), "z"), Err(ConfigError::File(_))));
}

#[test]
fn a_directory_stands_in_for_a_source() {
    let of = |text: &str| CargoConfig::load_from(&files_of(&[("/w/.cargo/config.toml", text)])).unwrap();
    let c = of("[source.crates-io]\nreplace-with = \"mine\"\n[source.mine]\ndirectory = \"vendor\"\n");
    assert_eq!(c.replaced_source().as_deref(), Some("crates-io"));
    let (source, dir) = c.vendor_dir(&no_env()).unwrap().unwrap();
    assert_eq!(source, "registry+https://github.com/rust-lang/crates.io-index");
    assert_eq!(dir, "/w/vendor");
    let none = of("[source.mine]\ndirectory = \"vendor\"\n");
    assert_eq!(none.replaced_source(), None);
    assert!(none.vendor_dir(&no_env()).unwrap().is_none());
    assert!(of("[source.crates-io]\nreplace-with = 1\n").vendor_dir(&no_env()).is_err());
    assert!(of("[source.crates-io]\nreplace-with = \"x\"\n").vendor_dir(&no_env()).is_err());
}
