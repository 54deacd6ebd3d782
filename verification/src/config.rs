//! `~/.rb/config.toml`, and cargo's config stack.

use vstd::prelude::*;
use crate::cfgexpr::PlatformCfg;
use crate::cfgexpr::PlatformExpr;
use crate::cfgexpr::applies;
use crate::cfgexpr::facts;
use crate::cfgexpr::read_platform;
use crate::num::i64_of;
use crate::num::parse_i64;
use crate::path::absolute;
use crate::path::is_absolute;
use crate::path::join;
use crate::path::under;
use crate::path::parent;
use crate::path::up;
use crate::profile::Layer;
use crate::profile::TomlProfile;
use crate::profile::layers;
use crate::profile::layers_of;
use crate::profile::tree_opt;
use crate::resolve::trim_slashes;
use crate::resolve::without_slashes;
use crate::size::pow2;
use crate::size::scale;
use crate::size::scaled;
use crate::store::LinkMode;
use crate::store::mode_named;
use crate::strmap::StrMap;
use crate::strmap::StrSet;
use crate::strmap::listed;
use crate::text::before_suffix;
use crate::text::cat;
use crate::text::cat3;
use crate::text::cat4;
use crate::text::chars_of;
use crate::text::has_char;
use crate::text::opt_view;
use crate::text::push_char;
use crate::text::replace_char;
use crate::text::same;
use crate::text::starts;
use crate::text::starts_with;
use crate::text::string_of;
use crate::text::strip_suffix;
use crate::text::swapped;
use crate::text::to_upper;
use crate::text::trim;
use crate::text::trimmed;
use crate::text::uppercase;
use crate::text::views;
use crate::text::words;
use crate::text::words_of;
use crate::value::Toml;
use crate::value::TomlTree;
use crate::value::at;
use crate::value::toml_trees;
use crate::value::field;
use crate::value::get;
use crate::value::parse_document;
use crate::value::toml_entries;
use crate::value::toml_of;
use crate::manifest::Entries;

verus! {

#[derive(Clone, Copy, Debug, PartialEq, Eq, Structural)]
pub enum Toggle {
    Auto,
    On,
    Off,
}

#[derive(Debug)]
pub struct RbConfig {
    pub home: String,
    pub store_dir: String,
    /// `false` is a normal per-project build, no global store.
    pub store_enabled: bool,
    pub link_mode: LinkMode,
    /// Cap, enforced after builds, least recently used first. `None` means no cap.
    pub store_max_size: Option<u64>,
    pub gc_max_age_days: u64,
    /// Unused `target/rb` variants older than this are deleted. They come back from the store.
    pub target_keep_days: u64,
    /// Older variants kept per crate, besides the ones this build used. `0` means a revert recompiles.
    pub target_keep_variants: usize,
    /// Remap registry and git paths in debuginfo so the artifact doesn't care where the sources lived.
    pub remap_deps_paths: bool,
    /// Nightly `-Zthreads` for units on the critical path.
    pub parallel_frontend: Toggle,
    /// Dev-profile codegen backend on nightly. `cranelift`, for instance.
    pub codegen_backend: Option<String>,
    pub zig_version: String,
    pub accept_msvc_license: bool,
    pub cache_build_scripts: bool,
    /// Reuse `$CARGO_HOME/registry/cache` after checking the checksum, instead of downloading again.
    pub reuse_cargo_downloads: bool,
}

/// The model of the settings.
pub struct RbConfigView {
    pub home: Seq<char>,
    pub store_dir: Seq<char>,
    pub store_enabled: bool,
    pub link_mode: LinkMode,
    pub store_max_size: Option<u64>,
    pub gc_max_age_days: u64,
    pub target_keep_days: u64,
    pub target_keep_variants: usize,
    pub remap_deps_paths: bool,
    pub parallel_frontend: Toggle,
    pub codegen_backend: Option<Seq<char>>,
    pub zig_version: Seq<char>,
    pub accept_msvc_license: bool,
    pub cache_build_scripts: bool,
    pub reuse_cargo_downloads: bool,
}

impl View for RbConfig {
    type V = RbConfigView;

    open spec fn view(&self) -> RbConfigView {
        RbConfigView {
            home: self.home@,
            store_dir: self.store_dir@,
            store_enabled: self.store_enabled,
            link_mode: self.link_mode,
            store_max_size: self.store_max_size,
            gc_max_age_days: self.gc_max_age_days,
            target_keep_days: self.target_keep_days,
            target_keep_variants: self.target_keep_variants,
            remap_deps_paths: self.remap_deps_paths,
            parallel_frontend: self.parallel_frontend,
            codegen_backend: opt_view(self.codegen_backend),
            zig_version: self.zig_version@,
            accept_msvc_license: self.accept_msvc_license,
            cache_build_scripts: self.cache_build_scripts,
            reuse_cargo_downloads: self.reuse_cargo_downloads,
        }
    }
}

/// What is wrong with a configuration.
#[derive(Debug)]
pub enum ConfigError {
    /// A file that cannot be read.
    File(String),
    /// A mode of linking that there is not.
    LinkMode(String),
    /// A size that cannot be read.
    Size(String),
    /// A unit of sizes that there is not, and the size.
    Unit(String, String),
    /// `[profile]` in a file cannot be read.
    Profile(String),
    /// A key that must be a string.
    NotString(String),
    /// A key that must be a boolean.
    NotBool(String),
    /// A key that must be a list of strings.
    NotList(String),
    /// A key that must be a string or a list of strings.
    NotStrings(String),
    /// A platform that cannot be read.
    Target(String),
    /// The number of jobs in the environment.
    JobsVar(String),
    /// `build.jobs` is no number.
    Jobs,
    /// No jobs at all.
    NoJobs,
    /// `replace-with` of a source is no string.
    ReplaceWith(String),
    /// A source, and what replaces it, which is no directory.
    NotDirectory(String, String),
    /// A variable needs a value.
    EnvValue(String),
    /// A variable that is neither a string nor a table, and the file.
    EnvKind(String, String),
    /// `--config` that is neither a setting nor a file.
    Cli(String),
}

pub enum ConfigFault {
    File(Seq<char>),
    LinkMode(Seq<char>),
    Size(Seq<char>),
    Unit(Seq<char>, Seq<char>),
    Profile(Seq<char>),
    NotString(Seq<char>),
    NotBool(Seq<char>),
    NotList(Seq<char>),
    NotStrings(Seq<char>),
    Target(Seq<char>),
    JobsVar(Seq<char>),
    Jobs,
    NoJobs,
    ReplaceWith(Seq<char>),
    NotDirectory(Seq<char>, Seq<char>),
    EnvValue(Seq<char>),
    EnvKind(Seq<char>, Seq<char>),
    Cli(Seq<char>),
}

impl View for ConfigError {
    type V = ConfigFault;

    open spec fn view(&self) -> ConfigFault {
        match self {
            ConfigError::File(s) => ConfigFault::File(s@),
            ConfigError::LinkMode(s) => ConfigFault::LinkMode(s@),
            ConfigError::Size(s) => ConfigFault::Size(s@),
            ConfigError::Unit(a, b) => ConfigFault::Unit(a@, b@),
            ConfigError::Profile(s) => ConfigFault::Profile(s@),
            ConfigError::NotString(s) => ConfigFault::NotString(s@),
            ConfigError::NotBool(s) => ConfigFault::NotBool(s@),
            ConfigError::NotList(s) => ConfigFault::NotList(s@),
            ConfigError::NotStrings(s) => ConfigFault::NotStrings(s@),
            ConfigError::Target(s) => ConfigFault::Target(s@),
            ConfigError::JobsVar(s) => ConfigFault::JobsVar(s@),
            ConfigError::Jobs => ConfigFault::Jobs,
            ConfigError::NoJobs => ConfigFault::NoJobs,
            ConfigError::ReplaceWith(s) => ConfigFault::ReplaceWith(s@),
            ConfigError::NotDirectory(a, b) => ConfigFault::NotDirectory(a@, b@),
            ConfigError::EnvValue(s) => ConfigFault::EnvValue(s@),
            ConfigError::EnvKind(a, b) => ConfigFault::EnvKind(a@, b@),
            ConfigError::Cli(s) => ConfigFault::Cli(s@),
        }
    }
}

pub type Vars = Map<Seq<char>, String>;

/// A variable of the environment.
pub open spec fn var(env: Vars, name: Seq<char>) -> Option<Seq<char>> {
    if env.contains_key(name) {
        Some(env[name]@)
    } else {
        None
    }
}

pub open spec fn truthy(v: Seq<char>) -> bool {
    v == "1"@ || v == "true"@ || v == "yes"@ || v == "on"@
}

/// A variable that switches something.
pub open spec fn env_flag(env: Vars, name: Seq<char>) -> Option<bool> {
    match var(env, name) {
        Some(v) => Some(truthy(v)),
        None => None,
    }
}

fn get_var<'a>(env: &'a StrMap<String>, name: &str) -> (r: Option<&'a str>)
    ensures
        crate::invocation::opt_text(r) == var(env@, name@),
{
    match env.get(name) {
        Some(v) => Some(v.as_str()),
        None => None,
    }
}

fn env_bool(env: &StrMap<String>, name: &str) -> (r: Option<bool>)
    ensures
        r == env_flag(env@, name@),
{
    match get_var(env, name) {
        Some(v) => Some(same(v, "1") || same(v, "true") || same(v, "yes") || same(v, "on")),
        None => None,
    }
}

// ---------------------------------------------------------------------------
// The file. A field of another kind than it should have makes the whole file unusable.

/// The fields of the file, where each is of its kind.
#[derive(Debug)]
pub struct FileConfig {
    pub dir: Option<String>,
    pub enabled: Option<bool>,
    pub link_mode: Option<LinkMode>,
    pub max_size: Option<String>,
    pub max_age_days: Option<u64>,
    pub remap_deps_paths: Option<bool>,
    pub parallel_frontend: Option<Toggle>,
    pub codegen_backend: Option<String>,
    pub zig_version: Option<String>,
    pub accept_msvc_license: Option<bool>,
    pub cache: Option<bool>,
    pub reuse_cargo_downloads: Option<bool>,
    pub keep_unused_days: Option<u64>,
    pub keep_variants: Option<u64>,
}

pub struct FileView {
    pub dir: Option<Seq<char>>,
    pub enabled: Option<bool>,
    pub link_mode: Option<LinkMode>,
    pub max_size: Option<Seq<char>>,
    pub max_age_days: Option<u64>,
    pub remap_deps_paths: Option<bool>,
    pub parallel_frontend: Option<Toggle>,
    pub codegen_backend: Option<Seq<char>>,
    pub zig_version: Option<Seq<char>>,
    pub accept_msvc_license: Option<bool>,
    pub cache: Option<bool>,
    pub reuse_cargo_downloads: Option<bool>,
    pub keep_unused_days: Option<u64>,
    pub keep_variants: Option<u64>,
}

impl View for FileConfig {
    type V = FileView;

    open spec fn view(&self) -> FileView {
        FileView {
            dir: opt_view(self.dir),
            enabled: self.enabled,
            link_mode: self.link_mode,
            max_size: opt_view(self.max_size),
            max_age_days: self.max_age_days,
            remap_deps_paths: self.remap_deps_paths,
            parallel_frontend: self.parallel_frontend,
            codegen_backend: opt_view(self.codegen_backend),
            zig_version: opt_view(self.zig_version),
            accept_msvc_license: self.accept_msvc_license,
            cache: self.cache,
            reuse_cargo_downloads: self.reuse_cargo_downloads,
            keep_unused_days: self.keep_unused_days,
            keep_variants: self.keep_variants,
        }
    }
}

/// The section of a file, where it is a table; an empty one where it is absent.
pub open spec fn section_in(t: Entries, name: Seq<char>) -> Option<Entries> {
    match at(t, name) {
        None => Some(Seq::empty()),
        Some(TomlTree::Table(s)) => Some(s),
        _ => None,
    }
}

pub open spec fn text_set(o: Option<TomlTree>) -> Option<Option<Seq<char>>> {
    match o {
        None => Some(None),
        Some(TomlTree::Str(s)) => Some(Some(s)),
        _ => None,
    }
}

pub open spec fn flag_set(o: Option<TomlTree>) -> Option<Option<bool>> {
    match o {
        None => Some(None),
        Some(TomlTree::Bool(b)) => Some(Some(b)),
        _ => None,
    }
}

pub open spec fn count_set(o: Option<TomlTree>) -> Option<Option<u64>> {
    match o {
        None => Some(None),
        Some(TomlTree::Int(n)) => if n >= 0 {
            Some(Some(n as u64))
        } else {
            None
        },
        _ => None,
    }
}

pub open spec fn toggle_named(s: Seq<char>) -> Option<Toggle> {
    if s == "auto"@ {
        Some(Toggle::Auto)
    } else if s == "on"@ {
        Some(Toggle::On)
    } else if s == "off"@ {
        Some(Toggle::Off)
    } else {
        None
    }
}

pub open spec fn toggle_set(o: Option<TomlTree>) -> Option<Option<Toggle>> {
    match o {
        None => Some(None),
        Some(TomlTree::Str(s)) => match toggle_named(s) {
            Some(t) => Some(Some(t)),
            None => None,
        },
        _ => None,
    }
}

/// A mode by the name that files have for it.
pub open spec fn mode_set(o: Option<TomlTree>) -> Option<Option<LinkMode>> {
    match o {
        None => Some(None),
        Some(TomlTree::Str(s)) => if s == "clone"@ {
            None
        } else {
            match mode_named(s) {
                Some(m) => Some(Some(m)),
                None => None,
            }
        },
        _ => None,
    }
}

fn read_text(o: Option<&Toml>) -> (r: Option<Option<String>>)
    ensures
        crate::profile::read_view(r) == text_set(tree_opt(o)),
{
    match o {
        None => Some(None),
        Some(Toml::Str(s)) => Some(Some(s.clone())),
        _ => None,
    }
}

fn read_flag(o: Option<&Toml>) -> (r: Option<Option<bool>>)
    ensures
        r == flag_set(tree_opt(o)),
{
    match o {
        None => Some(None),
        Some(Toml::Bool(b)) => Some(Some(*b)),
        _ => None,
    }
}

fn read_count(o: Option<&Toml>) -> (r: Option<Option<u64>>)
    ensures
        r == count_set(tree_opt(o)),
{
    match o {
        None => Some(None),
        Some(Toml::Int(n)) => if *n >= 0 {
            Some(Some(*n as u64))
        } else {
            None
        },
        _ => None,
    }
}

fn read_toggle(o: Option<&Toml>) -> (r: Option<Option<Toggle>>)
    ensures
        r == toggle_set(tree_opt(o)),
{
    match o {
        None => Some(None),
        Some(Toml::Str(s)) => if same(s.as_str(), "auto") {
            Some(Some(Toggle::Auto))
        } else if same(s.as_str(), "on") {
            Some(Some(Toggle::On))
        } else if same(s.as_str(), "off") {
            Some(Some(Toggle::Off))
        } else {
            None
        },
        _ => None,
    }
}

fn read_mode(o: Option<&Toml>) -> (r: Option<Option<LinkMode>>)
    ensures
        r == mode_set(tree_opt(o)),
{
    match o {
        None => Some(None),
        Some(Toml::Str(s)) => if same(s.as_str(), "clone") {
            None
        } else {
            match LinkMode::parse(s.as_str()) {
                Ok(m) => Some(Some(m)),
                Err(_) => None,
            }
        },
        _ => None,
    }
}

pub open spec fn store_in(t: Entries) -> Option<FileView> {
    match section_in(t, "store"@) {
        None => None,
        Some(s) => match (
            text_set(at(s, "dir"@)),
            flag_set(at(s, "enabled"@)),
            mode_set(at(s, "link-mode"@)),
            text_set(at(s, "max-size"@)),
            count_set(at(s, "max-age-days"@)),
        ) {
            (Some(dir), Some(enabled), Some(link_mode), Some(max_size), Some(max_age_days)) => Some(
                FileView { dir, enabled, link_mode, max_size, max_age_days, ..no_file() },
            ),
            _ => None,
        },
    }
}

pub open spec fn speed_in(f: FileView, t: Entries) -> Option<FileView> {
    match section_in(t, "speed"@) {
        None => None,
        Some(s) => match (
            flag_set(at(s, "remap-deps-paths"@)),
            toggle_set(at(s, "parallel-frontend"@)),
            text_set(at(s, "codegen-backend"@)),
        ) {
            (Some(remap_deps_paths), Some(parallel_frontend), Some(codegen_backend)) => Some(
                FileView { remap_deps_paths, parallel_frontend, codegen_backend, ..f },
            ),
            _ => None,
        },
    }
}

pub open spec fn cross_in(f: FileView, t: Entries) -> Option<FileView> {
    match (section_in(t, "cross"@), section_in(t, "build-scripts"@)) {
        (Some(c), Some(b)) => match (
            text_set(at(c, "zig-version"@)),
            flag_set(at(c, "accept-msvc-license"@)),
            flag_set(at(b, "cache"@)),
        ) {
            (Some(zig_version), Some(accept_msvc_license), Some(cache)) => Some(
                FileView { zig_version, accept_msvc_license, cache, ..f },
            ),
            _ => None,
        },
        _ => None,
    }
}

pub open spec fn rest_in(f: FileView, t: Entries) -> Option<FileView> {
    match (section_in(t, "registry"@), section_in(t, "target"@)) {
        (Some(g), Some(a)) => match (
            flag_set(at(g, "reuse-cargo-downloads"@)),
            count_set(at(a, "keep-unused-days"@)),
            count_set(at(a, "keep-variants"@)),
        ) {
            (Some(reuse_cargo_downloads), Some(keep_unused_days), Some(keep_variants)) => Some(
                FileView { reuse_cargo_downloads, keep_unused_days, keep_variants, ..f },
            ),
            _ => None,
        },
        _ => None,
    }
}

pub open spec fn no_file() -> FileView {
    FileView {
        dir: None,
        enabled: None,
        link_mode: None,
        max_size: None,
        max_age_days: None,
        remap_deps_paths: None,
        parallel_frontend: None,
        codegen_backend: None,
        zig_version: None,
        accept_msvc_license: None,
        cache: None,
        reuse_cargo_downloads: None,
        keep_unused_days: None,
        keep_variants: None,
    }
}

/// What a file sets, where each field is of its kind.
pub open spec fn file_of(t: Entries) -> Option<FileView> {
    match store_in(t) {
        None => None,
        Some(f) => match speed_in(f, t) {
            None => None,
            Some(f) => match cross_in(f, t) {
                None => None,
                Some(f) => rest_in(f, t),
            },
        },
    }
}

fn empty_file() -> (r: FileConfig)
    ensures
        r@ == no_file(),
{
    FileConfig {
        dir: None,
        enabled: None,
        link_mode: None,
        max_size: None,
        max_age_days: None,
        remap_deps_paths: None,
        parallel_frontend: None,
        codegen_backend: None,
        zig_version: None,
        accept_msvc_license: None,
        cache: None,
        reuse_cargo_downloads: None,
        keep_unused_days: None,
        keep_variants: None,
    }
}

fn get_section<'a>(t: &'a Vec<(String, Toml)>, name: &str, none: &'a Vec<(String, Toml)>) -> (r: Option<&'a Vec<(String, Toml)>>)
    requires
        none@.len() == 0,
    ensures
        match r {
            Some(s) => section_in(toml_entries(t@), name@) == Some(toml_entries(s@)),
            None => section_in(toml_entries(t@), name@).is_none(),
        },
{
    assert(toml_entries(none@) =~= Seq::<(Seq<char>, TomlTree)>::empty());
    match get(t, name) {
        None => Some(none),
        Some(Toml::Table(s)) => Some(s),
        _ => None,
    }
}

fn read_store(t: &Vec<(String, Toml)>) -> (r: Option<FileConfig>)
    ensures
        opt_view(r) == store_in(toml_entries(t@)),
{
    let none: Vec<(String, Toml)> = Vec::new();
    let s = match get_section(t, "store", &none) {
        Some(s) => s,
        None => {
            return None;
        },
    };
    match (
        read_text(get(s, "dir")),
        read_flag(get(s, "enabled")),
        read_mode(get(s, "link-mode")),
        read_text(get(s, "max-size")),
        read_count(get(s, "max-age-days")),
    ) {
        (Some(dir), Some(enabled), Some(link_mode), Some(max_size), Some(max_age_days)) => {
            let mut f = empty_file();
            f.dir = dir;
            f.enabled = enabled;
            f.link_mode = link_mode;
            f.max_size = max_size;
            f.max_age_days = max_age_days;
            Some(f)
        },
        _ => None,
    }
}

fn read_speed(f: FileConfig, t: &Vec<(String, Toml)>) -> (r: Option<FileConfig>)
    ensures
        opt_view(r) == speed_in(f@, toml_entries(t@)),
{
    let none: Vec<(String, Toml)> = Vec::new();
    let s = match get_section(t, "speed", &none) {
        Some(s) => s,
        None => {
            return None;
        },
    };
    match (
        read_flag(get(s, "remap-deps-paths")),
        read_toggle(get(s, "parallel-frontend")),
        read_text(get(s, "codegen-backend")),
    ) {
        (Some(remap_deps_paths), Some(parallel_frontend), Some(codegen_backend)) => {
            let mut f = f;
            f.remap_deps_paths = remap_deps_paths;
            f.parallel_frontend = parallel_frontend;
            f.codegen_backend = codegen_backend;
            Some(f)
        },
        _ => None,
    }
}

fn read_cross(f: FileConfig, t: &Vec<(String, Toml)>) -> (r: Option<FileConfig>)
    ensures
        opt_view(r) == cross_in(f@, toml_entries(t@)),
{
    let none: Vec<(String, Toml)> = Vec::new();
    let (c, b) = match (get_section(t, "cross", &none), get_section(t, "build-scripts", &none)) {
        (Some(c), Some(b)) => (c, b),
        _ => {
            return None;
        },
    };
    match (
        read_text(get(c, "zig-version")),
        read_flag(get(c, "accept-msvc-license")),
        read_flag(get(b, "cache")),
    ) {
        (Some(zig_version), Some(accept_msvc_license), Some(cache)) => {
            let mut f = f;
            f.zig_version = zig_version;
            f.accept_msvc_license = accept_msvc_license;
            f.cache = cache;
            Some(f)
        },
        _ => None,
    }
}

fn read_rest(f: FileConfig, t: &Vec<(String, Toml)>) -> (r: Option<FileConfig>)
    ensures
        opt_view(r) == rest_in(f@, toml_entries(t@)),
{
    let none: Vec<(String, Toml)> = Vec::new();
    let (g, a) = match (get_section(t, "registry", &none), get_section(t, "target", &none)) {
        (Some(g), Some(a)) => (g, a),
        _ => {
            return None;
        },
    };
    match (
        read_flag(get(g, "reuse-cargo-downloads")),
        read_count(get(a, "keep-unused-days")),
        read_count(get(a, "keep-variants")),
    ) {
        (Some(reuse_cargo_downloads), Some(keep_unused_days), Some(keep_variants)) => {
            let mut f = f;
            f.reuse_cargo_downloads = reuse_cargo_downloads;
            f.keep_unused_days = keep_unused_days;
            f.keep_variants = keep_variants;
            Some(f)
        },
        _ => None,
    }
}

fn read_file(t: &Vec<(String, Toml)>) -> (r: Option<FileConfig>)
    ensures
        opt_view(r) == file_of(toml_entries(t@)),
{
    match read_store(t) {
        None => None,
        Some(f) => match read_speed(f, t) {
            None => None,
            Some(f) => match read_cross(f, t) {
                None => None,
                Some(f) => read_rest(f, t),
            },
        },
    }
}

// ---------------------------------------------------------------------------
// Sizes.

pub open spec fn upper_char(c: char) -> char {
    if 'a' <= c <= 'z' {
        (c as u32 - 32) as char
    } else {
        c
    }
}

/// The text with its ASCII letters as capitals.
pub open spec fn ascii_upper(s: Seq<char>) -> Seq<char> {
    Seq::new(s.len(), |i: int| upper_char(s[i]))
}

fn to_capitals(s: &str) -> (r: String)
    ensures
        r@ == ascii_upper(s@),
{
    let cs = chars_of(s);
    let mut out = String::new();
    let mut k: usize = 0;
    assert(out@ =~= ascii_upper(s@).take(0));
    while k < cs.len()
        invariant
            k <= cs@.len(),
            cs@ == s@,
            out@ == ascii_upper(s@).take(k as int),
        decreases cs@.len() - k,
    {
        let u: u32 = cs[k] as u32;
        let c: char = if 0x61 <= u && u <= 0x7a {
            ((u as u8) - 32) as char
        } else {
            cs[k]
        };
        push_char(&mut out, c);
        assert(ascii_upper(s@).take(k + 1) =~= ascii_upper(s@).take(k as int).push(c));
        k += 1;
    }
    assert(ascii_upper(s@).take(k as int) =~= ascii_upper(s@));
    out
}

/// The text without each `end` at its end.
pub open spec fn without_ends(s: Seq<char>, end: Seq<char>) -> Seq<char>
    decreases s.len(),
{
    match before_suffix(s, end) {
        Some(t) => if t.len() < s.len() {
            without_ends(t, end)
        } else {
            s
        },
        None => s,
    }
}

fn trim_ends(s: &str, end: &str) -> (r: String)
    requires
        end@.len() > 0,
    ensures
        r@ == without_ends(s@, end@),
    decreases s@.len(),
{
    match strip_suffix(s, end) {
        Some(t) => trim_ends(t, end),
        None => s.to_owned(),
    }
}

/// The first place from `k` on with an ASCII letter, or the length.
pub open spec fn letter_from(s: Seq<char>, k: int) -> int
    decreases s.len() - k,
{
    if k < 0 || k >= s.len() {
        s.len() as int
    } else if crate::text::alpha(s[k]) {
        k
    } else {
        letter_from(s, k + 1)
    }
}

/// The unit of a size, without what says that it counts bytes.
pub open spec fn unit_of(s: Seq<char>) -> Seq<char> {
    without_ends(without_ends(ascii_upper(s), "IB"@), "B"@)
}

/// Which power of two a unit is.
pub open spec fn unit_shift(u: Seq<char>) -> Option<nat> {
    if u.len() == 0 {
        Some(0)
    } else if u == "K"@ {
        Some(10)
    } else if u == "M"@ {
        Some(20)
    } else if u == "G"@ {
        Some(30)
    } else if u == "T"@ {
        Some(40)
    } else {
        None
    }
}

/// The number of bytes that a size stands for. A text too long to count on in digits is none.
pub open spec fn size_of_text(s: Seq<char>) -> Result<u64, ConfigFault> {
    let t = trimmed(s);
    let i = letter_from(t, 0);
    let unit = unit_of(t.skip(i));
    if s.len() + 200 > usize::MAX {
        Err(ConfigFault::Size(t))
    } else {
        match unit_shift(unit) {
            None => Err(ConfigFault::Unit(unit, t)),
            Some(k) => match scaled(trimmed(t.take(i)), pow2(k)) {
                None => Err(ConfigFault::Size(t)),
                Some(n) => Ok(n as u64),
            },
        }
    }
}

/// `20G`, `512M`, `1.5T`, or a bare byte count.
pub fn parse_size(s: &str) -> (r: Result<u64, ConfigError>)
    ensures
        match size_of_text(s@) {
            Ok(n) => r matches Ok(x) && x == n,
            Err(e) => r matches Err(x) && x@ == e,
        },
{
    let t = trim(s);
    if s.unicode_len() > usize::MAX - 200 {
        return Err(ConfigError::Size(t.to_owned()));
    }
    let cs = chars_of(t);
    let n: usize = cs.len();
    let mut i: usize = 0;
    while i < n && !(crate::text::is_alnum(cs[i]) && !crate::text::is_digit(cs[i]))
        invariant
            i <= n == cs@.len(),
            cs@ == t@,
            letter_from(t@, 0) == letter_from(t@, i as int),
        decreases n - i,
    {
        i += 1;
    }
    assert(letter_from(t@, 0) == i);
    proof {
        reveal_strlit("IB");
        reveal_strlit("B");
        assert(t@.subrange(i as int, n as int) =~= t@.skip(i as int));
        assert(t@.subrange(0, i as int) =~= t@.take(i as int));
    }
    let capital = to_capitals(string_of(&cs, i, n).as_str());
    let unit = trim_ends(trim_ends(capital.as_str(), "IB").as_str(), "B");
    let shift: usize = if unit.as_str().is_empty() {
        0
    } else if same(unit.as_str(), "K") {
        10
    } else if same(unit.as_str(), "M") {
        20
    } else if same(unit.as_str(), "G") {
        30
    } else if same(unit.as_str(), "T") {
        40
    } else {
        return Err(ConfigError::Unit(unit, t.to_owned()));
    };
    let num = string_of(&cs, 0, i);
    let num = trim(num.as_str());
    match scale(num, shift) {
        None => Err(ConfigError::Size(t.to_owned())),
        Some(x) => Ok(x),
    }
}

// ---------------------------------------------------------------------------
// The settings.

pub open spec fn or<T>(a: Option<T>, b: Option<T>) -> Option<T> {
    match a {
        Some(x) => Some(x),
        None => b,
    }
}

pub open spec fn or_else<T>(a: Option<T>, b: T) -> T {
    match a {
        Some(x) => x,
        None => b,
    }
}

/// The cap of the store: what is set, or 20 GiB. Some words turn it off.
pub open spec fn cap_of(s: Option<Seq<char>>) -> Result<Option<u64>, ConfigFault> {
    match s {
        None => Ok(Some(0x5_0000_0000)),
        Some(t) => if trimmed(t) == "unlimited"@ || trimmed(t) == "none"@ || trimmed(t) == "0"@ {
            Ok(None)
        } else {
            match size_of_text(t) {
                Ok(n) => Ok(Some(n)),
                Err(e) => Err(e),
            }
        },
    }
}

/// How blobs are linked: what the environment says, or the file, or the usual.
pub open spec fn link_of(v: Option<Seq<char>>, f: Option<LinkMode>) -> Result<LinkMode, ConfigFault> {
    match v {
        Some(s) => match mode_named(s) {
            Some(m) => Ok(m),
            None => Err(ConfigFault::LinkMode(s)),
        },
        None => Ok(or_else(f, LinkMode::Auto)),
    }
}

pub open spec fn negated(o: Option<bool>) -> Option<bool> {
    match o {
        Some(b) => Some(!b),
        None => None,
    }
}

/// The settings, from the environment, the file, and what holds otherwise.
pub open spec fn settings_of(env: Vars, home: Seq<char>, f: FileView, zig: Seq<char>) -> Result<RbConfigView, ConfigFault> {
    match link_of(var(env, "RB_LINK_MODE"@), f.link_mode) {
        Err(e) => Err(e),
        Ok(link_mode) => match cap_of(or(var(env, "RB_STORE_MAX_SIZE"@), f.max_size)) {
            Err(e) => Err(e),
            Ok(store_max_size) => Ok(
                RbConfigView {
                    home,
                    store_dir: or_else(or(var(env, "RB_STORE_DIR"@), f.dir), under(home, "store"@)),
                    store_enabled: or_else(or(negated(env_flag(env, "RB_NO_STORE"@)), f.enabled), true),
                    link_mode,
                    store_max_size,
                    gc_max_age_days: or_else(f.max_age_days, 30),
                    target_keep_days: or_else(f.keep_unused_days, 7),
                    target_keep_variants: or_else(f.keep_variants, 1) as usize,
                    remap_deps_paths: or_else(f.remap_deps_paths, false),
                    parallel_frontend: or_else(f.parallel_frontend, Toggle::Auto),
                    codegen_backend: or(var(env, "RB_CODEGEN_BACKEND"@), f.codegen_backend),
                    zig_version: or_else(f.zig_version, zig),
                    accept_msvc_license: or_else(or(env_flag(env, "RB_ACCEPT_MSVC_LICENSE"@), f.accept_msvc_license), false),
                    cache_build_scripts: or_else(f.cache, true),
                    reuse_cargo_downloads: or_else(
                        or(env_flag(env, "RB_REUSE_CARGO_DOWNLOADS"@), f.reuse_cargo_downloads),
                        true,
                    ),
                },
            ),
        },
    }
}

/// Where the settings lie: what the environment says, or a directory below that of the user.
pub open spec fn home_of(env: Vars, user: Seq<char>) -> Seq<char> {
    match var(env, "RB_HOME"@) {
        Some(h) => h,
        None => under(user, ".rb"@),
    }
}

/// What a file holds, where it can be read; nothing where there is none.
pub open spec fn file_in(text: Option<Seq<char>>) -> Option<FileView> {
    match text {
        None => Some(no_file()),
        Some(t) => match toml_of(t) {
            Ok(l) => file_of(l),
            Err(_) => None,
        },
    }
}

/// The settings of a user.
pub open spec fn config_of(env: Vars, user: Seq<char>, text: Option<Seq<char>>, zig: Seq<char>) -> Result<
    RbConfigView,
    ConfigFault,
> {
    let home = home_of(env, user);
    match file_in(text) {
        None => Err(ConfigFault::File(under(home, "config.toml"@))),
        Some(f) => settings_of(env, home, f, zig),
    }
}

fn or_text(a: Option<&str>, b: Option<String>) -> (r: Option<String>)
    ensures
        opt_view(r) == or(crate::invocation::opt_text(a), opt_view(b)),
{
    match a {
        Some(s) => Some(s.to_owned()),
        None => b,
    }
}

fn or_flag(a: Option<bool>, b: Option<bool>, default: bool) -> (r: bool)
    ensures
        r == or_else(or(a, b), default),
{
    match (a, b) {
        (Some(x), _) => x,
        (None, Some(x)) => x,
        _ => default,
    }
}

fn find_cap(s: Option<String>) -> (r: Result<Option<u64>, ConfigError>)
    ensures
        match cap_of(opt_view(s)) {
            Ok(c) => r matches Ok(x) && x == c,
            Err(e) => r matches Err(x) && x@ == e,
        },
{
    match s {
        None => Ok(Some(0x5_0000_0000)),
        Some(t) => {
            let w = trim(t.as_str());
            if same(w, "unlimited") || same(w, "none") || same(w, "0") {
                Ok(None)
            } else {
                match parse_size(t.as_str()) {
                    Ok(n) => Ok(Some(n)),
                    Err(e) => Err(e),
                }
            }
        },
    }
}

impl RbConfig {
    /// The settings of a user. `user` is their home directory, `text` what `config.toml` holds, where there
    /// is one, `zig` the version of zig that holds otherwise.
    pub fn load(env: &StrMap<String>, user: &str, text: Option<&str>, zig: &str) -> (r: Result<RbConfig, ConfigError>)
        ensures
            match config_of(env@, user@, crate::invocation::opt_text(text), zig@) {
                Ok(c) => r matches Ok(x) && x@ == c,
                Err(e) => r matches Err(x) && x@ == e,
            },
    {
        let home = match get_var(env, "RB_HOME") {
            Some(h) => h.to_owned(),
            None => join(user, ".rb"),
        };
        let file = match text {
            None => empty_file(),
            Some(t) => match parse_document(t) {
                Err(_) => {
                    return Err(ConfigError::File(join(home.as_str(), "config.toml")));
                },
                Ok(l) => match read_file(&l) {
                    None => {
                        return Err(ConfigError::File(join(home.as_str(), "config.toml")));
                    },
                    Some(f) => f,
                },
            },
        };
        let link_mode = match get_var(env, "RB_LINK_MODE") {
            Some(s) => match LinkMode::parse(s) {
                Ok(m) => m,
                Err(_) => {
                    return Err(ConfigError::LinkMode(s.to_owned()));
                },
            },
            None => match file.link_mode {
                Some(m) => m,
                None => LinkMode::Auto,
            },
        };
        let store_max_size = match find_cap(or_text(get_var(env, "RB_STORE_MAX_SIZE"), file.max_size)) {
            Ok(c) => c,
            Err(e) => {
                return Err(e);
            },
        };
        let no_store: Option<bool> = match env_bool(env, "RB_NO_STORE") {
            Some(b) => Some(!b),
            None => None,
        };
        Ok(
            RbConfig {
                store_dir: match or_text(get_var(env, "RB_STORE_DIR"), file.dir) {
                    Some(d) => d,
                    None => join(home.as_str(), "store"),
                },
                store_enabled: or_flag(no_store, file.enabled, true),
                link_mode,
                store_max_size,
                gc_max_age_days: match file.max_age_days {
                    Some(n) => n,
                    None => 30,
                },
                target_keep_days: match file.keep_unused_days {
                    Some(n) => n,
                    None => 7,
                },
                target_keep_variants: match file.keep_variants {
                    Some(n) => n as usize,
                    None => 1,
                },
                remap_deps_paths: or_flag(None, file.remap_deps_paths, false),
                parallel_frontend: match file.parallel_frontend {
                    Some(t) => t,
                    None => Toggle::Auto,
                },
                codegen_backend: or_text(get_var(env, "RB_CODEGEN_BACKEND"), file.codegen_backend),
                zig_version: match file.zig_version {
                    Some(z) => z,
                    None => zig.to_owned(),
                },
                accept_msvc_license: or_flag(env_bool(env, "RB_ACCEPT_MSVC_LICENSE"), file.accept_msvc_license, false),
                cache_build_scripts: or_flag(None, file.cache, true),
                reuse_cargo_downloads: or_flag(
                    env_bool(env, "RB_REUSE_CARGO_DOWNLOADS"),
                    file.reuse_cargo_downloads,
                    true,
                ),
                home,
            },
        )
    }

    /// Where what can be had again is kept.
    pub fn cache_dir(&self) -> (r: String)
        ensures
            r@ == under(self@.home, "cache"@),
    {
        join(self.home.as_str(), "cache")
    }
}

/// The `--config` arguments of a process.
pub struct CliConfig {
    pub specs: Vec<String>,
}

/// The arguments once others are set: those alone.
pub open spec fn specs_after(was: Seq<Seq<char>>, specs: Seq<Seq<char>>) -> Seq<Seq<char>> {
    specs
}

/// This process's `--config`, in place of what was set before. Every `CargoConfig::load` applies it.
pub fn set_cli_config(cli: &mut CliConfig, specs: Vec<String>)
    ensures
        final(cli).specs == specs,
        views(final(cli).specs@) == specs_after(views(old(cli).specs@), views(specs@)),
{
    cli.specs = specs;
}

// ---------------------------------------------------------------------------
// Cargo's config stack.

/// A file of cargo's configuration.
#[derive(Debug)]
pub struct ConfigFile {
    pub path: String,
    /// Directory that contains `.cargo`. Relative paths resolve against it.
    pub base: String,
    pub table: Vec<(String, Toml)>,
}

pub struct StackFile {
    pub path: Seq<char>,
    pub base: Seq<char>,
    pub table: Entries,
}

impl View for ConfigFile {
    type V = StackFile;

    open spec fn view(&self) -> StackFile {
        StackFile { path: self.path@, base: self.base@, table: toml_entries(self.table@) }
    }
}

/// Cwd up to the root, then `$CARGO_HOME`. Nearer files win scalars and come last in lists. `CARGO_*` overrides the files.
pub struct CargoConfig {
    /// Highest priority first.
    pub files: Vec<ConfigFile>,
    /// `[profile]` tables, lowest priority first.
    pub profiles: Vec<Vec<(String, TomlProfile)>>,
    /// Someone set `[unstable] build-std`. We don't support that here.
    pub build_std: bool,
}

pub type Stack = Seq<StackFile>;

/// The files of a configuration.
pub open spec fn stack(c: CargoConfig) -> Stack {
    views(c.files@)
}

/// A variable that is set and not empty.
pub open spec fn filled_var(env: Vars, name: Seq<char>) -> Option<Seq<char>> {
    match var(env, name) {
        Some(v) => if v.len() > 0 {
            Some(v)
        } else {
            None
        },
        None => None,
    }
}

pub(crate) fn env_nonempty<'a>(env: &'a StrMap<String>, name: &str) -> (r: Option<&'a str>)
    ensures
        crate::invocation::opt_text(r) == filled_var(env@, name@),
{
    match get_var(env, name) {
        Some(v) => if v.is_empty() {
            None
        } else {
            Some(v)
        },
        None => None,
    }
}

/// The variable of a target's key.
pub open spec fn target_var(triple: Seq<char>, key: Seq<char>) -> Seq<char> {
    "CARGO_TARGET_"@ + swapped(swapped(uppercase(triple), '-', '_'), '.', '_') + "_"@ + key
}

fn target_env(triple: &str, key: &str) -> (r: String)
    ensures
        r@ == target_var(triple@, key@),
{
    let t = replace_char(replace_char(to_upper(triple).as_str(), '-', '_').as_str(), '.', '_');
    cat4("CARGO_TARGET_", t.as_str(), "_", key)
}

/// A bare name is a `PATH` lookup. A relative path with a separator is relative to the config file.
pub open spec fn program_of(value: Seq<char>, base: Seq<char>) -> Seq<char> {
    if !absolute(value) && (value.contains('/') || value.contains('\\')) {
        under(base, value)
    } else {
        value
    }
}

fn program_path(value: &str, base: &str) -> (r: String)
    ensures
        r@ == program_of(value@, base@),
{
    if !is_absolute(value) && (has_char(value, '/') || has_char(value, '\\')) {
        join(base, value)
    } else {
        value.to_owned()
    }
}

/// The first `n` values, where each is a string.
pub open spec fn strings_only(l: Seq<TomlTree>, n: int) -> Option<Seq<Seq<char>>>
    decreases n,
{
    if n <= 0 || n > l.len() {
        Some(Seq::empty())
    } else {
        match (strings_only(l, n - 1), l[n - 1]) {
            (Some(t), TomlTree::Str(s)) => Some(t.push(s)),
            _ => None,
        }
    }
}

proof fn lemma_strings_only(l: Seq<TomlTree>, a: int, b: int)
    requires
        0 <= a <= b <= l.len(),
        strings_only(l, a).is_none(),
    ensures
        strings_only(l, b).is_none(),
    decreases b - a,
{
    if a < b {
        lemma_strings_only(l, a, b - 1);
    }
}

/// The strings of a value: the words of a string, or the strings of a list.
pub open spec fn list_of(v: TomlTree, what: Seq<char>) -> Result<Seq<Seq<char>>, ConfigFault> {
    match v {
        TomlTree::Str(s) => Ok(words_of(s)),
        TomlTree::Array(l) => match strings_only(l, l.len() as int) {
            Some(t) => Ok(t),
            None => Err(ConfigFault::NotList(what)),
        },
        _ => Err(ConfigFault::NotStrings(what)),
    }
}

fn string_list(v: &Toml, what: &str) -> (r: Result<Vec<String>, ConfigError>)
    ensures
        match list_of(v@, what@) {
            Ok(l) => r matches Ok(x) && views(x@) == l,
            Err(e) => r matches Err(x) && x@ == e,
        },
{
    match v {
        Toml::Str(s) => Ok(words(s.as_str())),
        Toml::Array(l) => {
            let ghost all = toml_trees(l@);
            assert(v@ == TomlTree::Array(all));
            let mut out: Vec<String> = Vec::new();
            let mut k: usize = 0;
            assert(views(out@) =~= Seq::<Seq<char>>::empty());
            while k < l.len()
                invariant
                    k <= l@.len(),
                    all == toml_trees(l@),
                    v@ == TomlTree::Array(all),
                    strings_only(all, k as int) == Some(views(out@)),
                decreases l@.len() - k,
            {
                assert(all[k as int] == l@[k as int]@);
                let ghost was = out@;
                match &l[k] {
                    Toml::Str(s) => {
                        out.push(s.clone());
                        assert(views(out@) =~= views(was).push(s@));
                    },
                    _ => {
                        proof {
                            lemma_strings_only(all, k + 1, all.len() as int);
                        }
                        return Err(ConfigError::NotList(what.to_owned()));
                    },
                }
                k += 1;
            }
            Ok(out)
        },
        _ => Err(ConfigError::NotStrings(what.to_owned())),
    }
}

/// What stands at the end of a path of keys.
pub open spec fn dig(t: Entries, path: Seq<Seq<char>>) -> Option<TomlTree>
    decreases path.len(),
{
    if path.len() == 0 {
        None
    } else if path.len() == 1 {
        at(t, path[0])
    } else {
        match dig(t, path.drop_last()) {
            Some(v) => field(v, path.last()),
            None => None,
        }
    }
}

fn dig_in<'a>(t: &'a Vec<(String, Toml)>, path: &[&str]) -> (r: Option<&'a Toml>)
    ensures
        tree_opt(r) == dig(toml_entries(t@), path_view(path@)),
{
    let ghost pv = path_view(path@);
    let ghost tv = toml_entries(t@);
    let n: usize = path.len();
    assert(pv.len() == n);
    if n == 0 {
        return None;
    }
    let mut v = get(t, path[0]);
    let mut k: usize = 1;
    assert(pv.take(1).len() == 1);
    assert(pv.take(1)[0] == path@[0]@);
    while k < n
        invariant
            1 <= k <= n == path@.len(),
            pv == path_view(path@),
            tv == toml_entries(t@),
            tree_opt(v) == dig(tv, pv.take(k as int)),
        decreases n - k,
    {
        let ghost next = pv.take(k + 1);
        assert(next.drop_last() =~= pv.take(k as int));
        assert(next.last() == path@[k as int]@);
        v = match v {
            Some(x) => x.get(path[k]),
            None => None,
        };
        k += 1;
    }
    assert(pv.take(k as int) =~= pv);
    v
}

pub open spec fn path_view(p: Seq<&str>) -> Seq<Seq<char>> {
    Seq::new(p.len(), |i: int| p[i]@)
}

/// The first file from `k` on that has something at the end of a path.
pub open spec fn file_from(st: Stack, path: Seq<Seq<char>>, k: int) -> Option<int>
    decreases st.len() - k,
{
    if k < 0 || k >= st.len() {
        None
    } else if dig(st[k].table, path).is_some() {
        Some(k)
    } else {
        file_from(st, path, k + 1)
    }
}

/// What the configuration has at the end of a path, and the directory of the file that says so.
pub open spec fn setting(st: Stack, path: Seq<Seq<char>>) -> Option<(TomlTree, Seq<char>)> {
    match file_from(st, path, 0) {
        Some(k) => Some((dig(st[k].table, path).unwrap(), st[k].base)),
        None => None,
    }
}

pub open spec fn dotted(path: Seq<Seq<char>>) -> Seq<char> {
    crate::text::joined(path, "."@)
}

/// A setting that is a string.
pub open spec fn text_setting(st: Stack, path: Seq<Seq<char>>) -> Result<Option<(Seq<char>, Seq<char>)>, ConfigFault> {
    match setting(st, path) {
        None => Ok(None),
        Some((TomlTree::Str(s), base)) => Ok(Some((s, base))),
        Some(_) => Err(ConfigFault::NotString(dotted(path))),
    }
}

fn join_keys(path: &[&str]) -> (r: String)
    ensures
        r@ == dotted(path_view(path@)),
{
    let mut l: Vec<String> = Vec::new();
    let mut k: usize = 0;
    while k < path.len()
        invariant
            k <= path@.len(),
            l@.len() == k,
            forall|j: int| 0 <= j < k ==> (#[trigger] l@[j])@ == path@[j]@,
        decreases path@.len() - k,
    {
        l.push(path[k].to_owned());
        k += 1;
    }
    assert(views(l@) =~= path_view(path@));
    crate::text::join(&l, ".")
}

/// The flag that the environment or the configuration sets.
pub open spec fn flag_setting(st: Stack, env: Vars, path: Seq<Seq<char>>, name: Seq<char>) -> Result<Option<bool>, ConfigFault> {
    match filled_var(env, name) {
        Some(v) => Ok(Some(v == "true"@ || v == "1"@)),
        None => match setting(st, path) {
            None => Ok(None),
            Some((TomlTree::Bool(b), _)) => Ok(Some(b)),
            Some(_) => Err(ConfigFault::NotBool(dotted(path))),
        },
    }
}

/// The lists of the files from the last down to the `k`th, joined.
pub open spec fn lists_down(st: Stack, path: Seq<Seq<char>>, k: int) -> Result<Option<Seq<Seq<char>>>, ConfigFault>
    decreases st.len() - k,
{
    if k < 0 || k >= st.len() {
        Ok(None)
    } else {
        match lists_down(st, path, k + 1) {
            Err(e) => Err(e),
            Ok(o) => match dig(st[k].table, path) {
                None => Ok(o),
                Some(v) => match list_of(v, dotted(path)) {
                    Err(e) => Err(e),
                    Ok(l) => Ok(Some(appended(o, l))),
                },
            },
        }
    }
}

pub open spec fn appended(o: Option<Seq<Seq<char>>>, l: Seq<Seq<char>>) -> Seq<Seq<char>> {
    match o {
        Some(x) => x + l,
        None => l,
    }
}

/// Lists join lowest priority first, then the variable.
pub open spec fn list_setting(st: Stack, env: Vars, path: Seq<Seq<char>>, name: Seq<char>) -> Result<
    Option<Seq<Seq<char>>>,
    ConfigFault,
> {
    match lists_down(st, path, 0) {
        Err(e) => Err(e),
        Ok(o) => match filled_var(env, name) {
            Some(v) => Ok(Some(appended(o, words_of(v)))),
            None => Ok(o),
        },
    }
}

proof fn lemma_lists_error(st: Stack, path: Seq<Seq<char>>, k: int)
    requires
        0 <= k <= st.len(),
        lists_down(st, path, k).is_err(),
    ensures
        lists_down(st, path, 0) == lists_down(st, path, k),
    decreases k,
{
    if k > 0 {
        lemma_lists_error(st, path, k - 1);
    }
}

fn append_list(o: Option<Vec<String>>, l: Vec<String>) -> (r: Vec<String>)
    ensures
        views(r@) == appended(crate::json::views_opt(o), views(l@)),
{
    match o {
        Some(x) => crate::profile::join_lists(x, &l),
        None => l,
    }
}

impl CargoConfig {
    fn get(&self, path: &[&str]) -> (r: Option<(&Toml, &str)>)
        ensures
            match r {
                Some((v, base)) => setting(stack(*self), path_view(path@)) == Some((v@, base@)),
                None => setting(stack(*self), path_view(path@)).is_none(),
            },
    {
        let ghost st = stack(*self);
        let ghost pv = path_view(path@);
        let mut k: usize = 0;
        while k < self.files.len()
            invariant
                k <= self.files@.len(),
                st == stack(*self),
                pv == path_view(path@),
                file_from(st, pv, 0) == file_from(st, pv, k as int),
            decreases self.files@.len() - k,
        {
            assert(st[k as int] == self.files@[k as int]@);
            if let Some(v) = dig_in(&self.files[k].table, path) {
                return Some((v, self.files[k].base.as_str()));
            }
            k += 1;
        }
        None
    }

    fn get_str(&self, path: &[&str]) -> (r: Result<Option<(&str, &str)>, ConfigError>)
        ensures
            match text_setting(stack(*self), path_view(path@)) {
                Ok(None) => r matches Ok(x) && x.is_none(),
                Ok(Some((s, b))) => r matches Ok(Some(x)) && x.0@ == s && x.1@ == b,
                Err(e) => r matches Err(x) && x@ == e,
            },
    {
        match self.get(path) {
            None => Ok(None),
            Some((Toml::Str(s), base)) => Ok(Some((s.as_str(), base))),
            Some(_) => Err(ConfigError::NotString(join_keys(path))),
        }
    }

    fn get_bool(&self, path: &[&str], env: &StrMap<String>, name: &str) -> (r: Result<Option<bool>, ConfigError>)
        ensures
            match flag_setting(stack(*self), env@, path_view(path@), name@) {
                Ok(o) => r matches Ok(x) && x == o,
                Err(e) => r matches Err(x) && x@ == e,
            },
    {
        if let Some(v) = env_nonempty(env, name) {
            return Ok(Some(same(v, "true") || same(v, "1")));
        }
        match self.get(path) {
            None => Ok(None),
            Some((Toml::Bool(b), _)) => Ok(Some(*b)),
            Some(_) => Err(ConfigError::NotBool(join_keys(path))),
        }
    }

    fn joined_list(&self, path: &[&str], env: &StrMap<String>, name: &str) -> (r: Result<Option<Vec<String>>, ConfigError>)
        ensures
            match list_setting(stack(*self), env@, path_view(path@), name@) {
                Ok(o) => r matches Ok(x) && crate::json::views_opt(x) == o,
                Err(e) => r matches Err(x) && x@ == e,
            },
    {
        let ghost st = stack(*self);
        let ghost pv = path_view(path@);
        let what = join_keys(path);
        let mut out: Option<Vec<String>> = None;
        let mut k: usize = self.files.len();
        assert(st.len() == self.files@.len());
        while k > 0
            invariant
                k <= self.files@.len(),
                st == stack(*self),
                st.len() == self.files@.len(),
                pv == path_view(path@),
                what@ == dotted(pv),
                lists_down(st, pv, k as int) == Ok::<_, ConfigFault>(crate::json::views_opt(out)),
            decreases k,
        {
            k -= 1;
            assert(st[k as int] == self.files@[k as int]@);
            if let Some(v) = dig_in(&self.files[k].table, path) {
                match string_list(v, what.as_str()) {
                    Ok(l) => {
                        out = Some(append_list(out, l));
                    },
                    Err(e) => {
                        proof {
                            lemma_lists_error(st, pv, k as int);
                        }
                        return Err(e);
                    },
                }
            }
        }
        if let Some(v) = env_nonempty(env, name) {
            return Ok(Some(append_list(out, words(v))));
        }
        Ok(out)
    }

    /// The compiler that is asked for.
    pub fn rustc(&self, env: &StrMap<String>) -> (r: Result<Option<String>, ConfigError>)
        ensures
            match (or(filled_var(env@, "RUSTC"@), filled_var(env@, "CARGO_BUILD_RUSTC"@))) {
                Some(v) => r matches Ok(Some(x)) && x@ == v,
                None => match text_setting(stack(*self), seq!["build"@, "rustc"@]) {
                    Ok(None) => r matches Ok(x) && x.is_none(),
                    Ok(Some((s, b))) => r matches Ok(Some(x)) && x@ == program_of(s, b),
                    Err(e) => r matches Err(x) && x@ == e,
                },
            },
    {
        if let Some(v) = env_nonempty(env, "RUSTC") {
            return Ok(Some(v.to_owned()));
        }
        if let Some(v) = env_nonempty(env, "CARGO_BUILD_RUSTC") {
            return Ok(Some(v.to_owned()));
        }
        let path: [&str; 2] = ["build", "rustc"];
        assert(path_view(path@) =~= seq!["build"@, "rustc"@]);
        match self.get_str(&path) {
            Ok(None) => Ok(None),
            Ok(Some((s, b))) => Ok(Some(program_path(s, b))),
            Err(e) => Err(e),
        }
    }

    /// Empty `RUSTC_WRAPPER` turns a configured wrapper off.
    pub fn rustc_wrapper(&self, env: &StrMap<String>) -> (r: Result<Option<String>, ConfigError>)
        ensures
            match (or(var(env@, "RUSTC_WRAPPER"@), var(env@, "CARGO_BUILD_RUSTC_WRAPPER"@))) {
                Some(v) => r matches Ok(x) && opt_view(x) == (if v.len() > 0 {
                    Some(v)
                } else {
                    None
                }),
                None => match text_setting(stack(*self), seq!["build"@, "rustc-wrapper"@]) {
                    Ok(None) => r matches Ok(x) && x.is_none(),
                    Ok(Some((s, b))) => r matches Ok(x) && opt_view(x) == (if s.len() > 0 {
                        Some(program_of(s, b))
                    } else {
                        None
                    }),
                    Err(e) => r matches Err(x) && x@ == e,
                },
            },
    {
        let v = match get_var(env, "RUSTC_WRAPPER") {
            Some(v) => Some(v),
            None => get_var(env, "CARGO_BUILD_RUSTC_WRAPPER"),
        };
        if let Some(v) = v {
            return Ok(
                if v.is_empty() {
                    None
                } else {
                    Some(v.to_owned())
                },
            );
        }
        let path: [&str; 2] = ["build", "rustc-wrapper"];
        assert(path_view(path@) =~= seq!["build"@, "rustc-wrapper"@]);
        match self.get_str(&path) {
            Ok(None) => Ok(None),
            Ok(Some((s, b))) => Ok(
                if s.is_empty() {
                    None
                } else {
                    Some(program_path(s, b))
                },
            ),
            Err(e) => Err(e),
        }
    }

    /// The targets that are built for where none is named.
    pub fn build_targets(&self, env: &StrMap<String>) -> (r: Result<Vec<String>, ConfigError>)
        ensures
            match filled_var(env@, "CARGO_BUILD_TARGET"@) {
                Some(v) => r matches Ok(x) && views(x@) == seq![v],
                None => match setting(stack(*self), seq!["build"@, "target"@]) {
                    None => r matches Ok(x) && views(x@) == Seq::<Seq<char>>::empty(),
                    Some((v, _)) => match list_of(v, "build.target"@) {
                        Ok(l) => r matches Ok(x) && views(x@) == l,
                        Err(e) => r matches Err(x) && x@ == e,
                    },
                },
            },
    {
        if let Some(v) = env_nonempty(env, "CARGO_BUILD_TARGET") {
            return Ok(crate::manifest::one(v));
        }
        let path: [&str; 2] = ["build", "target"];
        assert(path_view(path@) =~= seq!["build"@, "target"@]);
        match self.get(&path) {
            None => {
                let none: Vec<String> = Vec::new();
                assert(views(none@) =~= Seq::<Seq<char>>::empty());
                Ok(none)
            },
            Some((v, _)) => string_list(v, "build.target"),
        }
    }

    /// `CARGO_TARGET_DIR` is relative to cwd. A config path is relative to the file that set it.
    pub fn target_dir(&self, cwd: &str, env: &StrMap<String>) -> (r: Result<Option<String>, ConfigError>)
        ensures
            match (or(filled_var(env@, "CARGO_TARGET_DIR"@), filled_var(env@, "CARGO_BUILD_TARGET_DIR"@))) {
                Some(v) => r matches Ok(Some(x)) && x@ == under(cwd@, v),
                None => match text_setting(stack(*self), seq!["build"@, "target-dir"@]) {
                    Ok(None) => r matches Ok(x) && x.is_none(),
                    Ok(Some((s, b))) => r matches Ok(Some(x)) && x@ == under(b, s),
                    Err(e) => r matches Err(x) && x@ == e,
                },
            },
    {
        if let Some(v) = env_nonempty(env, "CARGO_TARGET_DIR") {
            return Ok(Some(join(cwd, v)));
        }
        if let Some(v) = env_nonempty(env, "CARGO_BUILD_TARGET_DIR") {
            return Ok(Some(join(cwd, v)));
        }
        let path: [&str; 2] = ["build", "target-dir"];
        assert(path_view(path@) =~= seq!["build"@, "target-dir"@]);
        match self.get_str(&path) {
            Ok(None) => Ok(None),
            Ok(Some((s, b))) => Ok(Some(join(b, s))),
            Err(e) => Err(e),
        }
    }

    /// Negative counts down from the number of CPUs.
    pub fn jobs(&self, env: &StrMap<String>, cpus: u32) -> (r: Result<Option<usize>, ConfigError>)
        ensures
            match jobs_of(stack(*self), env@, cpus) {
                Ok(o) => r matches Ok(x) && x == o,
                Err(e) => r matches Err(x) && x@ == e,
            },
    {
        let n: i64 = match env_nonempty(env, "CARGO_BUILD_JOBS") {
            Some(v) => if same(v, "default") {
                return Ok(None);
            } else {
                match parse_i64(v) {
                    Some(n) => n,
                    None => {
                        return Err(ConfigError::JobsVar(v.to_owned()));
                    },
                }
            },
            None => {
                let path: [&str; 2] = ["build", "jobs"];
                assert(path_view(path@) =~= seq!["build"@, "jobs"@]);
                match self.get(&path) {
                    None => {
                        return Ok(None);
                    },
                    Some((Toml::Int(i), _)) => *i,
                    Some((Toml::Str(s), _)) => if same(s.as_str(), "default") {
                        return Ok(None);
                    } else {
                        return Err(ConfigError::Jobs);
                    },
                    Some(_) => {
                        return Err(ConfigError::Jobs);
                    },
                }
            },
        };
        if n == 0 {
            return Err(ConfigError::NoJobs);
        }
        if n < 0 {
            let left: i64 = cpus as i64 + n;
            return Ok(
                Some(
                    if left < 1 {
                        1
                    } else {
                        left as usize
                    },
                ),
            );
        }
        Ok(Some(n as usize))
    }

    pub fn incremental(&self, env: &StrMap<String>) -> (r: Result<Option<bool>, ConfigError>)
        ensures
            match flag_setting(stack(*self), env@, seq!["build"@, "incremental"@], "CARGO_BUILD_INCREMENTAL"@) {
                Ok(o) => r matches Ok(x) && x == o,
                Err(e) => r matches Err(x) && x@ == e,
            },
    {
        let path: [&str; 2] = ["build", "incremental"];
        assert(path_view(path@) =~= seq!["build"@, "incremental"@]);
        self.get_bool(&path, env, "CARGO_BUILD_INCREMENTAL")
    }

    pub fn offline(&self, env: &StrMap<String>) -> (r: Result<bool, ConfigError>)
        ensures
            match flag_setting(stack(*self), env@, seq!["net"@, "offline"@], "CARGO_NET_OFFLINE"@) {
                Ok(o) => r matches Ok(x) && x == or_else(o, false),
                Err(e) => r matches Err(x) && x@ == e,
            },
    {
        let path: [&str; 2] = ["net", "offline"];
        assert(path_view(path@) =~= seq!["net"@, "offline"@]);
        match self.get_bool(&path, env, "CARGO_NET_OFFLINE") {
            Ok(Some(b)) => Ok(b),
            Ok(None) => Ok(false),
            Err(e) => Err(e),
        }
    }
}

/// The number of jobs that is asked for.
pub open spec fn asked_jobs(st: Stack, env: Vars) -> Result<Option<int>, ConfigFault> {
    match filled_var(env, "CARGO_BUILD_JOBS"@) {
        Some(v) => if v == "default"@ {
            Ok(None)
        } else {
            match i64_of(v) {
                Some(n) => Ok(Some(n)),
                None => Err(ConfigFault::JobsVar(v)),
            }
        },
        None => match setting(st, seq!["build"@, "jobs"@]) {
            None => Ok(None),
            Some((TomlTree::Int(n), _)) => Ok(Some(n as int)),
            Some((TomlTree::Str(s), _)) => if s == "default"@ {
                Ok(None)
            } else {
                Err(ConfigFault::Jobs)
            },
            Some(_) => Err(ConfigFault::Jobs),
        },
    }
}

/// The number of jobs: a negative one counts down from the number of CPUs, to one at least.
pub open spec fn jobs_of(st: Stack, env: Vars, cpus: u32) -> Result<Option<usize>, ConfigFault> {
    match asked_jobs(st, env) {
        Err(e) => Err(e),
        Ok(None) => Ok(None),
        Ok(Some(n)) => if n == 0 {
            Err(ConfigFault::NoJobs)
        } else if n < 0 {
            Ok(
                Some(
                    if cpus + n < 1 {
                        1
                    } else {
                        (cpus + n) as usize
                    },
                ),
            )
        } else {
            Ok(Some(n as usize))
        },
    }
}

// ---------------------------------------------------------------------------
// Tables for a platform.

/// The table of targets of a file.
pub open spec fn targets_in(t: Entries) -> Entries {
    match at(t, "target"@) {
        Some(TomlTree::Table(l)) => l,
        _ => Seq::empty(),
    }
}

pub open spec fn is_cfg_key(k: Seq<char>) -> bool {
    starts(k, "cfg("@)
}

/// A file has a table for platforms under the key.
pub open spec fn has_cfg_key(st: Stack, key: Seq<char>) -> bool {
    is_cfg_key(key) && exists|i: int, j: int|
        #![trigger targets_in(st[i].table)[j]]
        0 <= i < st.len() && 0 <= j < targets_in(st[i].table).len() && targets_in(st[i].table)[j].0 == key
}

/// The keys for platforms, in ascending order.
pub open spec fn cfg_keys(st: Stack) -> Seq<Seq<char>> {
    listed(Set::new(|k: Seq<char>| has_cfg_key(st, k)))
}

pub type Placed = (TomlTree, Seq<char>);

/// What the files from the last down to the `k`th have under a key for platforms.
pub open spec fn values_down(st: Stack, key: Seq<char>, k: int) -> Seq<Placed>
    decreases st.len() - k,
{
    if k < 0 || k >= st.len() {
        Seq::empty()
    } else {
        match at(targets_in(st[k].table), key) {
            Some(v) => values_down(st, key, k + 1).push((v, st[k].base)),
            None => values_down(st, key, k + 1),
        }
    }
}

/// What the first `n` keys bring for a platform.
pub open spec fn cfg_upto(
    st: Stack,
    keys: Seq<Seq<char>>,
    triple: Seq<char>,
    cfg: Seq<(Seq<char>, Option<Seq<char>>)>,
    n: int,
) -> Result<Seq<Placed>, ConfigFault>
    decreases n,
{
    if n <= 0 || n > keys.len() {
        Ok(Seq::empty())
    } else {
        match cfg_upto(st, keys, triple, cfg, n - 1) {
            Err(e) => Err(e),
            Ok(l) => match read_platform(keys[n - 1]) {
                Err(_) => Err(ConfigFault::Target(keys[n - 1])),
                Ok(p) => if applies(p, triple, cfg) {
                    Ok(l + values_down(st, keys[n - 1], 0))
                } else {
                    Ok(l)
                },
            },
        }
    }
}

/// The tables for a platform, by their keys, those of nearer files last.
pub open spec fn cfg_tables(st: Stack, triple: Seq<char>, cfg: Seq<(Seq<char>, Option<Seq<char>>)>) -> Result<
    Seq<Placed>,
    ConfigFault,
> {
    cfg_upto(st, cfg_keys(st), triple, cfg, cfg_keys(st).len() as int)
}

proof fn lemma_cfg_error(
    st: Stack,
    keys: Seq<Seq<char>>,
    triple: Seq<char>,
    cfg: Seq<(Seq<char>, Option<Seq<char>>)>,
    a: int,
    b: int,
)
    requires
        0 <= a <= b <= keys.len(),
        cfg_upto(st, keys, triple, cfg, a).is_err(),
    ensures
        cfg_upto(st, keys, triple, cfg, b) == cfg_upto(st, keys, triple, cfg, a),
    decreases b - a,
{
    if a < b {
        lemma_cfg_error(st, keys, triple, cfg, a, b - 1);
    }
}

pub open spec fn placed_views(l: Seq<(&Toml, &str)>) -> Seq<Placed> {
    Seq::new(l.len(), |i: int| (l[i].0@, l[i].1@))
}

fn get_targets<'a>(f: &'a ConfigFile) -> (r: Option<&'a Vec<(String, Toml)>>)
    ensures
        match r {
            Some(t) => toml_entries(t@) == targets_in(f@.table),
            None => targets_in(f@.table) == Seq::<(Seq<char>, TomlTree)>::empty(),
        },
{
    match get(&f.table, "target") {
        Some(Toml::Table(t)) => Some(t),
        _ => None,
    }
}

impl CargoConfig {
    fn find_cfg_keys(&self) -> (r: StrSet)
        ensures
            r@ == Set::new(|k: Seq<char>| has_cfg_key(stack(*self), k)),
    {
        let ghost st = stack(*self);
        let mut out = StrSet::new();
        let mut i: usize = 0;
        while i < self.files.len()
            invariant
                i <= self.files@.len(),
                st == stack(*self),
                forall|x: Seq<char>| #[trigger]
                    out@.contains(x) == (is_cfg_key(x) && exists|a: int, b: int|
                        #![trigger targets_in(st[a].table)[b]]
                        0 <= a < i && 0 <= b < targets_in(st[a].table).len() && targets_in(st[a].table)[b].0 == x),
            decreases self.files@.len() - i,
        {
            assert(st[i as int] == self.files@[i as int]@);
            let ghost before = out@;
            let ghost tv = targets_in(st[i as int].table);
            if let Some(t) = get_targets(&self.files[i]) {
                assert(tv.len() == t@.len());
                let mut j: usize = 0;
                while j < t.len()
                    invariant
                        j <= t@.len(),
                        tv == toml_entries(t@),
                        tv.len() == t@.len(),
                        forall|x: Seq<char>| #[trigger]
                            out@.contains(x) == (before.contains(x) || (is_cfg_key(x) && exists|b: int|
                                0 <= b < j && (#[trigger] tv[b]).0 == x)),
                    decreases t@.len() - j,
                {
                    let key = t[j].0.as_str();
                    assert(tv[j as int].0 == key@);
                    let ghost was = out@;
                    if starts_with(key, "cfg(") {
                        out.insert(key);
                    }
                    assert forall|x: Seq<char>| #[trigger] out@.contains(x) == (before.contains(x) || (is_cfg_key(x) && exists|b: int|
                        0 <= b < j + 1 && (#[trigger] tv[b]).0 == x)) by {
                        if was.contains(x) && !before.contains(x) {
                            let b = choose|b: int| 0 <= b < j && (#[trigger] tv[b]).0 == x;
                            assert(tv[b].0 == x);
                        }
                        if exists|b: int| 0 <= b < j + 1 && (#[trigger] tv[b]).0 == x {
                            let b = choose|b: int| 0 <= b < j + 1 && (#[trigger] tv[b]).0 == x;
                            if b < j {
                                assert(is_cfg_key(x) ==> was.contains(x));
                            }
                        }
                    }
                    j += 1;
                }
            }
            assert forall|x: Seq<char>| #[trigger] out@.contains(x) == (is_cfg_key(x) && exists|a: int, b: int|
                #![trigger targets_in(st[a].table)[b]]
                0 <= a < i + 1 && 0 <= b < targets_in(st[a].table).len() && targets_in(st[a].table)[b].0 == x) by {
                if before.contains(x) {
                    let (a, b) = choose|a: int, b: int|
                        #![trigger targets_in(st[a].table)[b]]
                        0 <= a < i && 0 <= b < targets_in(st[a].table).len() && targets_in(st[a].table)[b].0 == x;
                    assert(targets_in(st[a].table)[b].0 == x);
                }
                if out@.contains(x) && !before.contains(x) {
                    let b = choose|b: int| 0 <= b < tv.len() && (#[trigger] tv[b]).0 == x;
                    assert(targets_in(st[i as int].table)[b].0 == x);
                }
                if is_cfg_key(x) && exists|a: int, b: int|
                    #![trigger targets_in(st[a].table)[b]]
                    0 <= a < i + 1 && 0 <= b < targets_in(st[a].table).len() && targets_in(st[a].table)[b].0 == x {
                    let (a, b) = choose|a: int, b: int|
                        #![trigger targets_in(st[a].table)[b]]
                        0 <= a < i + 1 && 0 <= b < targets_in(st[a].table).len() && targets_in(st[a].table)[b].0 == x;
                    if a < i {
                        assert(before.contains(x));
                    } else {
                        assert(tv[b].0 == x);
                    }
                }
            }
            i += 1;
        }
        assert(out@ =~= Set::new(|k: Seq<char>| has_cfg_key(st, k)));
        out
    }

    fn values_for<'s>(&'s self, key: &str) -> (r: Vec<(&'s Toml, &'s str)>)
        ensures
            placed_views(r@) == values_down(stack(*self), key@, 0),
    {
        let ghost st = stack(*self);
        let mut out: Vec<(&'s Toml, &'s str)> = Vec::new();
        let mut k: usize = self.files.len();
        assert(placed_views(out@) =~= Seq::<Placed>::empty());
        assert(st.len() == self.files@.len());
        while k > 0
            invariant
                k <= self.files@.len(),
                st == stack(*self),
                st.len() == self.files@.len(),
                placed_views(out@) == values_down(st, key@, k as int),
            decreases k,
        {
            k -= 1;
            reveal(at);
            assert(st[k as int] == self.files@[k as int]@);
            if let Some(t) = get_targets(&self.files[k]) {
                if let Some(v) = get(t, key) {
                    let ghost was = out@;
                    out.push((v, self.files[k].base.as_str()));
                    assert(placed_views(out@) =~= placed_views(was).push((v@, st[k as int].base)));
                }
            }
        }
        out
    }

    fn cfg_targets<'s>(&'s self, platform: &PlatformCfg<'_>) -> (r: Result<Vec<(&'s Toml, &'s str)>, ConfigError>)
        ensures
            match cfg_tables(stack(*self), platform.triple@, facts(platform.cfg@)) {
                Ok(l) => r matches Ok(v) && placed_views(v@) == l,
                Err(e) => r matches Err(x) && x@ == e,
            },
    {
        let ghost st = stack(*self);
        let set = self.find_cfg_keys();
        let keys = set.items();
        let ghost kv = cfg_keys(st);
        let ghost fs = facts(platform.cfg@);
        let mut out: Vec<(&'s Toml, &'s str)> = Vec::new();
        let mut k: usize = 0;
        assert(placed_views(out@) =~= Seq::<Placed>::empty());
        while k < keys.len()
            invariant
                k <= keys@.len(),
                st == stack(*self),
                kv == views(keys@),
                kv == cfg_keys(st),
                fs == facts(platform.cfg@),
                cfg_upto(st, kv, platform.triple@, fs, k as int) == Ok::<_, ConfigFault>(placed_views(out@)),
            decreases keys@.len() - k,
        {
            assert(kv[k as int] == keys@[k as int]@);
            match PlatformExpr::parse(keys[k].as_str()) {
                Err(_) => {
                    proof {
                        lemma_cfg_error(st, kv, platform.triple@, fs, k + 1, kv.len() as int);
                    }
                    return Err(ConfigError::Target(keys[k].clone()));
                },
                Ok(p) => {
                    if p.matches(platform) {
                        let mut more = self.values_for(keys[k].as_str());
                        let ghost was = out@;
                        let ghost mv = more@;
                        out.append(&mut more);
                        assert(placed_views(out@) =~= placed_views(was) + placed_views(mv));
                    }
                },
            }
            k += 1;
        }
        assert(kv.len() == keys@.len());
        Ok(out)
    }

    /// Whether some table is for platforms.
    pub fn has_cfg_targets(&self) -> (r: bool)
        ensures
            r == exists|k: Seq<char>| #[trigger] has_cfg_key(stack(*self), k),
    {
        let set = self.find_cfg_keys();
        let r = !set.is_empty();
        proof {
            let st = stack(*self);
            if r {
                assert(!(set@ =~= Set::<Seq<char>>::empty()));
                let k = choose|k: Seq<char>| set@.contains(k);
                assert(has_cfg_key(st, k));
            }
            if exists|k: Seq<char>| #[trigger] has_cfg_key(st, k) {
                let k = choose|k: Seq<char>| #[trigger] has_cfg_key(st, k);
                assert(set@.contains(k));
            }
        }
        r
    }
}

/// The flags with those of the first `n` tables.
pub open spec fn flags_upto(o: Option<Seq<Seq<char>>>, l: Seq<Placed>, n: int) -> Result<Option<Seq<Seq<char>>>, ConfigFault>
    decreases n,
{
    if n <= 0 || n > l.len() {
        Ok(o)
    } else {
        match flags_upto(o, l, n - 1) {
            Err(e) => Err(e),
            Ok(x) => match field(l[n - 1].0, "rustflags"@) {
                None => Ok(x),
                Some(v) => match list_of(v, "target.<cfg>.rustflags"@) {
                    Err(e) => Err(e),
                    Ok(y) => Ok(Some(appended(x, y))),
                },
            },
        }
    }
}

proof fn lemma_flags_error(o: Option<Seq<Seq<char>>>, l: Seq<Placed>, a: int, b: int)
    requires
        0 <= a <= b <= l.len(),
        flags_upto(o, l, a).is_err(),
    ensures
        flags_upto(o, l, b) == flags_upto(o, l, a),
    decreases b - a,
{
    if a < b {
        lemma_flags_error(o, l, a, b - 1);
    }
}

pub open spec fn facts_of(p: Option<&PlatformCfg<'_>>) -> Option<(Seq<char>, Seq<(Seq<char>, Option<Seq<char>>)>)> {
    match p {
        Some(p) => Some((p.triple@, facts(p.cfg@))),
        None => None,
    }
}

pub type Facts = Option<(Seq<char>, Seq<(Seq<char>, Option<Seq<char>>)>)>;

/// The flags of the target itself and of the tables for its platform.
pub open spec fn target_flags(st: Stack, env: Vars, triple: Seq<char>, p: Facts) -> Result<Option<Seq<Seq<char>>>, ConfigFault> {
    match list_setting(st, env, seq!["target"@, triple, "rustflags"@], target_var(triple, "RUSTFLAGS"@)) {
        Err(e) => Err(e),
        Ok(o) => match p {
            None => Ok(o),
            Some((t, f)) => match cfg_tables(st, t, f) {
                Err(e) => Err(e),
                Ok(l) => flags_upto(o, l, l.len() as int),
            },
        },
    }
}

/// `CARGO_ENCODED_RUSTFLAGS`, then `RUSTFLAGS`, then the target's own plus those for its platform, then those of all builds.
pub open spec fn rustflags_of(st: Stack, env: Vars, triple: Seq<char>, p: Facts) -> Result<Seq<Seq<char>>, ConfigFault> {
    match var(env, "CARGO_ENCODED_RUSTFLAGS"@) {
        Some(e) => Ok(
            if e.len() == 0 {
                Seq::empty()
            } else {
                crate::text::pieces(e, '\u{1f}')
            },
        ),
        None => match var(env, "RUSTFLAGS"@) {
            Some(r) => Ok(words_of(r)),
            None => match target_flags(st, env, triple, p) {
                Err(e) => Err(e),
                Ok(Some(l)) => Ok(l),
                Ok(None) => match list_setting(st, env, seq!["build"@, "rustflags"@], "CARGO_BUILD_RUSTFLAGS"@) {
                    Err(e) => Err(e),
                    Ok(o) => Ok(or_else(o, Seq::empty())),
                },
            },
        },
    }
}

/// The last table from the `n`th down that has the key.
pub open spec fn last_with(l: Seq<Placed>, key: Seq<char>, text: bool, n: int) -> Option<int>
    decreases n,
{
    if n <= 0 || n > l.len() {
        None
    } else if match field(l[n - 1].0, key) {
        Some(TomlTree::Str(_)) => true,
        Some(_) => !text,
        None => false,
    } {
        Some(n - 1)
    } else {
        last_with(l, key, text, n - 1)
    }
}

pub open spec fn text_of_tree(t: TomlTree) -> Seq<char> {
    match t {
        TomlTree::Str(s) => s,
        _ => Seq::empty(),
    }
}

/// The linker of a target.
pub open spec fn linker_of(st: Stack, env: Vars, triple: Seq<char>, p: Facts) -> Result<Option<Seq<char>>, ConfigFault> {
    match filled_var(env, target_var(triple, "LINKER"@)) {
        Some(v) => Ok(Some(v)),
        None => match text_setting(st, seq!["target"@, triple, "linker"@]) {
            Err(e) => Err(e),
            Ok(Some((v, base))) => Ok(Some(program_of(v, base))),
            Ok(None) => match p {
                None => Ok(None),
                Some((t, f)) => match cfg_tables(st, t, f) {
                    Err(e) => Err(e),
                    Ok(l) => match last_with(l, "linker"@, true, l.len() as int) {
                        Some(k) => Ok(
                            Some(program_of(text_of_tree(field(l[k].0, "linker"@).unwrap()), l[k].1)),
                        ),
                        None => Ok(None),
                    },
                },
            },
        },
    }
}

/// A runner: its program as it is found from the file, and its arguments. Nothing where it is empty.
pub open spec fn run_by(l: Seq<Seq<char>>, base: Seq<char>) -> Option<Seq<Seq<char>>> {
    if l.len() == 0 {
        None
    } else {
        Some(l.update(0, program_of(l[0], base)))
    }
}

/// The runner of a target.
pub open spec fn runner_of(st: Stack, env: Vars, triple: Seq<char>, p: Facts) -> Result<Option<Seq<Seq<char>>>, ConfigFault> {
    match filled_var(env, target_var(triple, "RUNNER"@)) {
        Some(v) => Ok(
            if words_of(v).len() > 0 {
                Some(words_of(v))
            } else {
                None
            },
        ),
        None => match setting(st, seq!["target"@, triple, "runner"@]) {
            Some((v, base)) => match list_of(v, "target.<triple>.runner"@) {
                Err(e) => Err(e),
                Ok(l) => Ok(run_by(l, base)),
            },
            None => match p {
                None => Ok(None),
                Some((t, f)) => match cfg_tables(st, t, f) {
                    Err(e) => Err(e),
                    Ok(l) => match last_with(l, "runner"@, false, l.len() as int) {
                        Some(k) => match list_of(field(l[k].0, "runner"@).unwrap(), "target.<cfg>.runner"@) {
                            Err(e) => Err(e),
                            Ok(x) => Ok(run_by(x, l[k].1)),
                        },
                        None => Ok(None),
                    },
                },
            },
        },
    }
}

fn resolve_runner(l: Vec<String>, base: &str) -> (r: Option<Vec<String>>)
    ensures
        crate::json::views_opt(r) == run_by(views(l@), base@),
{
    let ghost lv = views(l@);
    assert(lv.len() == l@.len());
    if l.len() == 0 {
        return None;
    }
    let mut out = l;
    assert(lv[0] == out@[0]@);
    let program = program_path(out[0].as_str(), base);
    out.set(0, program);
    assert(views(out@) =~= lv.update(0, program_of(lv[0], base@)));
    Some(out)
}

fn find_last<'s>(l: &Vec<(&'s Toml, &'s str)>, key: &str, text: bool) -> (r: Option<usize>)
    ensures
        crate::resolve::place_view(r) == last_with(placed_views(l@), key@, text, l@.len() as int),
        r matches Some(k) ==> k < l@.len() && field(l@[k as int].0@, key@).is_some() && (text ==> field(l@[k as int].0@, key@).unwrap() is Str),
{
    let ghost lv = placed_views(l@);
    let mut k: usize = l.len();
    while k > 0
        invariant
            k <= l@.len(),
            lv == placed_views(l@),
            last_with(lv, key@, text, l@.len() as int) == last_with(lv, key@, text, k as int),
        decreases k,
    {
        assert(lv[k - 1] == (l@[k - 1].0@, l@[k - 1].1@));
        let hit: bool = match l[k - 1].0.get(key) {
            Some(Toml::Str(_)) => true,
            Some(_) => !text,
            None => false,
        };
        if hit {
            return Some(k - 1);
        }
        k -= 1;
    }
    None
}

impl CargoConfig {
    fn find_target_flags(&self, env: &StrMap<String>, triple: &str, platform: Option<&PlatformCfg<'_>>) -> (r: Result<
        Option<Vec<String>>,
        ConfigError,
    >)
        ensures
            match target_flags(stack(*self), env@, triple@, facts_of(platform)) {
                Ok(o) => r matches Ok(x) && crate::json::views_opt(x) == o,
                Err(e) => r matches Err(x) && x@ == e,
            },
    {
        let path: [&str; 3] = ["target", triple, "rustflags"];
        assert(path_view(path@) =~= seq!["target"@, triple@, "rustflags"@]);
        let own = match self.joined_list(&path, env, target_env(triple, "RUSTFLAGS").as_str()) {
            Ok(o) => o,
            Err(e) => {
                return Err(e);
            },
        };
        match platform {
            None => Ok(own),
            Some(p) => {
                let l = match self.cfg_targets(p) {
                    Ok(l) => l,
                    Err(e) => {
                        return Err(e);
                    },
                };
                let ghost lv = placed_views(l@);
                let ghost ov = crate::json::views_opt(own);
                let mut out = own;
                let mut k: usize = 0;
                while k < l.len()
                    invariant
                        k <= l@.len(),
                        lv == placed_views(l@),
                        target_flags(stack(*self), env@, triple@, facts_of(platform)) == flags_upto(ov, lv, lv.len() as int),
                        flags_upto(ov, lv, k as int) == Ok::<_, ConfigFault>(crate::json::views_opt(out)),
                    decreases l@.len() - k,
                {
                    assert(lv[k as int] == (l@[k as int].0@, l@[k as int].1@));
                    if let Some(v) = l[k].0.get("rustflags") {
                        match string_list(v, "target.<cfg>.rustflags") {
                            Ok(x) => {
                                out = Some(append_list(out, x));
                            },
                            Err(e) => {
                                proof {
                                    lemma_flags_error(ov, lv, k + 1, lv.len() as int);
                                }
                                return Err(e);
                            },
                        }
                    }
                    k += 1;
                }
                assert(lv.len() == l@.len());
                Ok(out)
            },
        }
    }

    /// `CARGO_ENCODED_RUSTFLAGS`, then `RUSTFLAGS`, then `target.<triple>.rustflags` plus matching `cfg()` tables, then `build.rustflags`.
    pub fn rustflags(&self, env: &StrMap<String>, triple: &str, platform: Option<&PlatformCfg<'_>>) -> (r: Result<
        Vec<String>,
        ConfigError,
    >)
        ensures
            match rustflags_of(stack(*self), env@, triple@, facts_of(platform)) {
                Ok(l) => r matches Ok(x) && views(x@) == l,
                Err(e) => r matches Err(x) && x@ == e,
            },
    {
        let none: Vec<String> = Vec::new();
        assert(views(none@) =~= Seq::<Seq<char>>::empty());
        if let Some(e) = get_var(env, "CARGO_ENCODED_RUSTFLAGS") {
            return Ok(
                if e.is_empty() {
                    none
                } else {
                    crate::text::split(e, '\u{1f}')
                },
            );
        }
        if let Some(r) = get_var(env, "RUSTFLAGS") {
            return Ok(words(r));
        }
        match self.find_target_flags(env, triple, platform) {
            Err(e) => Err(e),
            Ok(Some(l)) => Ok(l),
            Ok(None) => {
                let path: [&str; 2] = ["build", "rustflags"];
                assert(path_view(path@) =~= seq!["build"@, "rustflags"@]);
                match self.joined_list(&path, env, "CARGO_BUILD_RUSTFLAGS") {
                    Err(e) => Err(e),
                    Ok(Some(l)) => Ok(l),
                    Ok(None) => Ok(none),
                }
            },
        }
    }

    /// The linker of a target.
    pub fn linker(&self, env: &StrMap<String>, triple: &str, platform: Option<&PlatformCfg<'_>>) -> (r: Result<
        Option<String>,
        ConfigError,
    >)
        ensures
            match linker_of(stack(*self), env@, triple@, facts_of(platform)) {
                Ok(o) => r matches Ok(x) && opt_view(x) == o,
                Err(e) => r matches Err(x) && x@ == e,
            },
    {
        let name = target_env(triple, "LINKER");
        if let Some(v) = env_nonempty(env, name.as_str()) {
            return Ok(Some(v.to_owned()));
        }
        let path: [&str; 3] = ["target", triple, "linker"];
        assert(path_view(path@) =~= seq!["target"@, triple@, "linker"@]);
        match self.get_str(&path) {
            Err(e) => {
                return Err(e);
            },
            Ok(Some((v, base))) => {
                return Ok(Some(program_path(v, base)));
            },
            Ok(None) => {},
        }
        match platform {
            None => Ok(None),
            Some(p) => match self.cfg_targets(p) {
                Err(e) => Err(e),
                Ok(l) => {
                    assert(placed_views(l@).len() == l@.len());
                    match find_last(&l, "linker", true) {
                        None => Ok(None),
                        Some(k) => {
                            assert(placed_views(l@)[k as int] == (l@[k as int].0@, l@[k as int].1@));
                            match l[k].0.get("linker") {
                                Some(Toml::Str(s)) => Ok(Some(program_path(s.as_str(), l[k].1))),
                                _ => Ok(None),
                            }
                        },
                    }
                },
            },
        }
    }

    /// What runs the programs of a target.
    pub fn runner(&self, env: &StrMap<String>, triple: &str, platform: Option<&PlatformCfg<'_>>) -> (r: Result<
        Option<Vec<String>>,
        ConfigError,
    >)
        ensures
            match runner_of(stack(*self), env@, triple@, facts_of(platform)) {
                Ok(o) => r matches Ok(x) && crate::json::views_opt(x) == o,
                Err(e) => r matches Err(x) && x@ == e,
            },
    {
        let name = target_env(triple, "RUNNER");
        if let Some(v) = env_nonempty(env, name.as_str()) {
            let l = words(v);
            assert(views(l@).len() == l@.len());
            return Ok(
                if l.len() > 0 {
                    Some(l)
                } else {
                    None
                },
            );
        }
        let path: [&str; 3] = ["target", triple, "runner"];
        assert(path_view(path@) =~= seq!["target"@, triple@, "runner"@]);
        if let Some((v, base)) = self.get(&path) {
            return match string_list(v, "target.<triple>.runner") {
                Err(e) => Err(e),
                Ok(l) => Ok(resolve_runner(l, base)),
            };
        }
        match platform {
            None => Ok(None),
            Some(p) => match self.cfg_targets(p) {
                Err(e) => Err(e),
                Ok(l) => {
                    assert(placed_views(l@).len() == l@.len());
                    match find_last(&l, "runner", false) {
                        None => Ok(None),
                        Some(k) => {
                            assert(placed_views(l@)[k as int] == (l@[k as int].0@, l@[k as int].1@));
                            match l[k].0.get("runner") {
                                Some(v) => match string_list(v, "target.<cfg>.runner") {
                                    Err(e) => Err(e),
                                    Ok(x) => Ok(resolve_runner(x, l[k].1)),
                                },
                                None => Ok(None),
                            }
                        },
                    }
                },
            },
        }
    }
}

// ---------------------------------------------------------------------------
// Registries and sources.

/// The table under a key of a file.
pub open spec fn table_in(t: Entries, key: Seq<char>) -> Entries {
    match at(t, key) {
        Some(TomlTree::Table(l)) => l,
        _ => Seq::empty(),
    }
}

/// A file names the registry.
pub open spec fn names_registry(st: Stack, name: Seq<char>) -> bool {
    exists|i: int, j: int|
        #![trigger table_in(st[i].table, "registries"@)[j]]
        0 <= i < st.len() && 0 <= j < table_in(st[i].table, "registries"@).len() && table_in(st[i].table, "registries"@)[j].0
            == name
}

/// The index of a registry: what the environment or the configuration says.
pub open spec fn index_of(st: Stack, env: Vars, name: Seq<char>) -> Option<Seq<char>> {
    match filled_var(env, "CARGO_REGISTRIES_"@ + swapped(uppercase(name), '-', '_') + "_INDEX"@) {
        Some(v) => Some(v),
        None => match text_setting(st, seq!["registries"@, name, "index"@]) {
            Ok(Some((s, _))) => Some(s),
            _ => None,
        },
    }
}

/// The source id of a registry, by its index.
pub open spec fn registry_id(index: Seq<char>) -> Seq<char> {
    let i = without_slashes(index);
    if starts(i, "sparse+"@) {
        i + "/"@
    } else {
        "registry+"@ + i
    }
}

/// The registries that have an index, with their source ids.
pub open spec fn registries_of(st: Stack, env: Vars) -> Map<Seq<char>, Seq<char>> {
    Map::new(
        |n: Seq<char>| names_registry(st, n) && index_of(st, env, n).is_some(),
        |n: Seq<char>| registry_id(index_of(st, env, n).unwrap()),
    )
}

pub open spec fn texts_map(m: Map<Seq<char>, String>) -> Map<Seq<char>, Seq<char>> {
    m.map_values(|s: String| s@)
}

fn id_of_registry(index: &str) -> (r: String)
    ensures
        r@ == registry_id(index@),
{
    let i = trim_slashes(index);
    if starts_with(i, "sparse+") {
        cat(i, "/")
    } else {
        cat("registry+", i)
    }
}

impl CargoConfig {
    fn find_index(&self, env: &StrMap<String>, name: &str) -> (r: Option<String>)
        ensures
            opt_view(r) == index_of(stack(*self), env@, name@),
    {
        let v = cat3("CARGO_REGISTRIES_", replace_char(to_upper(name).as_str(), '-', '_').as_str(), "_INDEX");
        if let Some(x) = env_nonempty(env, v.as_str()) {
            return Some(x.to_owned());
        }
        let path: [&str; 3] = ["registries", name, "index"];
        assert(path_view(path@) =~= seq!["registries"@, name@, "index"@]);
        match self.get_str(&path) {
            Ok(Some((s, _))) => Some(s.to_owned()),
            _ => None,
        }
    }

    /// The registries that are configured, with their source ids.
    pub fn registries(&self, env: &StrMap<String>) -> (r: StrMap<String>)
        ensures
            texts_map(r@) == registries_of(stack(*self), env@),
    {
        let ghost st = stack(*self);
        let mut out: StrMap<String> = StrMap::new();
        let mut i: usize = 0;
        while i < self.files.len()
            invariant
                i <= self.files@.len(),
                st == stack(*self),
                forall|n: Seq<char>| #[trigger]
                    out@.contains_key(n) == (index_of(st, env@, n).is_some() && exists|a: int, b: int|
                        #![trigger table_in(st[a].table, "registries"@)[b]]
                        0 <= a < i && 0 <= b < table_in(st[a].table, "registries"@).len() && table_in(
                            st[a].table,
                            "registries"@,
                        )[b].0 == n),
                forall|n: Seq<char>| #![trigger out@[n]] out@.contains_key(n) ==> out@[n]@ == registry_id(index_of(st, env@, n).unwrap()),
            decreases self.files@.len() - i,
        {
            assert(st[i as int] == self.files@[i as int]@);
            let ghost before = out@;
            let ghost tv = table_in(st[i as int].table, "registries"@);
            if let Some(Toml::Table(t)) = get(&self.files[i].table, "registries") {
                assert(tv == toml_entries(t@));
                assert(tv.len() == t@.len());
                let mut j: usize = 0;
                while j < t.len()
                    invariant
                        j <= t@.len(),
                        st == stack(*self),
                        tv == toml_entries(t@),
                        tv.len() == t@.len(),
                        forall|n: Seq<char>| #[trigger]
                            out@.contains_key(n) == (before.contains_key(n) || (index_of(st, env@, n).is_some() && exists|b: int|
                                0 <= b < j && (#[trigger] tv[b]).0 == n)),
                        forall|n: Seq<char>|
                            #![trigger out@[n]]
                            out@.contains_key(n) ==> out@[n]@ == registry_id(index_of(st, env@, n).unwrap()),
                    decreases t@.len() - j,
                {
                    let name = t[j].0.as_str();
                    assert(tv[j as int].0 == name@);
                    let ghost was = out@;
                    if let Some(index) = self.find_index(env, name) {
                        out.insert(name, id_of_registry(index.as_str()));
                    }
                    assert forall|n: Seq<char>| #[trigger] out@.contains_key(n) == (before.contains_key(n) || (index_of(st, env@, n).is_some()
                        && exists|b: int| 0 <= b < j + 1 && (#[trigger] tv[b]).0 == n)) by {
                        if was.contains_key(n) && !before.contains_key(n) {
                            let b = choose|b: int| 0 <= b < j && (#[trigger] tv[b]).0 == n;
                            assert(tv[b].0 == n);
                        }
                        if exists|b: int| 0 <= b < j + 1 && (#[trigger] tv[b]).0 == n {
                            let b = choose|b: int| 0 <= b < j + 1 && (#[trigger] tv[b]).0 == n;
                            if b < j {
                                assert(index_of(st, env@, n).is_some() ==> was.contains_key(n));
                            }
                        }
                    }
                    j += 1;
                }
            }
            assert forall|n: Seq<char>| #[trigger] out@.contains_key(n) == (index_of(st, env@, n).is_some() && exists|a: int, b: int|
                #![trigger table_in(st[a].table, "registries"@)[b]]
                0 <= a < i + 1 && 0 <= b < table_in(st[a].table, "registries"@).len() && table_in(st[a].table, "registries"@)[b].0
                    == n) by {
                if before.contains_key(n) {
                    let (a, b) = choose|a: int, b: int|
                        #![trigger table_in(st[a].table, "registries"@)[b]]
                        0 <= a < i && 0 <= b < table_in(st[a].table, "registries"@).len() && table_in(
                            st[a].table,
                            "registries"@,
                        )[b].0 == n;
                    assert(table_in(st[a].table, "registries"@)[b].0 == n);
                }
                if out@.contains_key(n) && !before.contains_key(n) {
                    let b = choose|b: int| 0 <= b < tv.len() && (#[trigger] tv[b]).0 == n;
                    assert(table_in(st[i as int].table, "registries"@)[b].0 == n);
                }
                if exists|a: int, b: int|
                    #![trigger table_in(st[a].table, "registries"@)[b]]
                    0 <= a < i + 1 && 0 <= b < table_in(st[a].table, "registries"@).len() && table_in(
                        st[a].table,
                        "registries"@,
                    )[b].0 == n {
                    let (a, b) = choose|a: int, b: int|
                        #![trigger table_in(st[a].table, "registries"@)[b]]
                        0 <= a < i + 1 && 0 <= b < table_in(st[a].table, "registries"@).len() && table_in(
                            st[a].table,
                            "registries"@,
                        )[b].0 == n;
                    if a < i {
                        assert(index_of(st, env@, n).is_some() ==> before.contains_key(n));
                    } else {
                        assert(tv[b].0 == n);
                    }
                }
            }
            i += 1;
        }
        proof {
            let want = registries_of(st, env@);
            let got = texts_map(out@);
            assert forall|n: Seq<char>| #[trigger] got.contains_key(n) == want.contains_key(n) by {
                assert(out@.contains_key(n) == got.contains_key(n));
            }
            assert forall|n: Seq<char>| #[trigger] got.contains_key(n) implies got[n] == want[n] by {
                assert(out@.contains_key(n));
                assert(got[n] == out@[n]@);
            }
            assert(got =~= want);
        }
        out
    }
}

/// The first source from the `j`th of a table on that another stands in for.
pub open spec fn replaced_in(t: Entries, j: int) -> Option<int>
    decreases t.len() - j,
{
    if j < 0 || j >= t.len() {
        None
    } else if field(t[j].1, "replace-with"@).is_some() {
        Some(j)
    } else {
        replaced_in(t, j + 1)
    }
}

/// The first file from `k` on with such a source, and which.
pub open spec fn replaced_from(st: Stack, k: int) -> Option<(int, int)>
    decreases st.len() - k,
{
    if k < 0 || k >= st.len() {
        None
    } else {
        match replaced_in(table_in(st[k].table, "source"@), 0) {
            Some(j) => Some((k, j)),
            None => replaced_from(st, k + 1),
        }
    }
}

/// The directory that stands in for a registry, with the registry's source id.
pub open spec fn vendor_of(st: Stack, env: Vars) -> Result<Option<(Seq<char>, Seq<char>)>, ConfigFault> {
    match replaced_from(st, 0) {
        None => Ok(None),
        Some((k, j)) => {
            let (name, spec) = table_in(st[k].table, "source"@)[j];
            match field(spec, "replace-with"@) {
                Some(TomlTree::Str(with)) => match text_setting(st, seq!["source"@, with, "directory"@]) {
                    Err(e) => Err(e),
                    Ok(None) => Err(ConfigFault::NotDirectory(name, with)),
                    Ok(Some((dir, base))) => Ok(
                        Some(
                            (
                                if name == "crates-io"@ {
                                    crate::manifest::CRATES_IO@
                                } else if registries_of(st, env).contains_key(name) {
                                    registries_of(st, env)[name]
                                } else {
                                    name
                                },
                                under(base, dir),
                            ),
                        ),
                    ),
                },
                _ => Err(ConfigFault::ReplaceWith(name)),
            }
        },
    }
}

impl CargoConfig {
    fn find_replaced(&self) -> (r: Option<(&str, &Toml)>)
        ensures
            match replaced_from(stack(*self), 0) {
                None => r.is_none(),
                Some((k, j)) => 0 <= k < stack(*self).len() && 0 <= j < table_in(stack(*self)[k].table, "source"@).len() && (
                r matches Some(x) && (x.0@, x.1@) == table_in(stack(*self)[k].table, "source"@)[j]),
            },
    {
        let ghost st = stack(*self);
        let mut k: usize = 0;
        while k < self.files.len()
            invariant
                k <= self.files@.len(),
                st == stack(*self),
                replaced_from(st, 0) == replaced_from(st, k as int),
            decreases self.files@.len() - k,
        {
            assert(st[k as int] == self.files@[k as int]@);
            if let Some(Toml::Table(t)) = get(&self.files[k].table, "source") {
                let ghost tv = toml_entries(t@);
                assert(table_in(st[k as int].table, "source"@) == tv);
                let mut j: usize = 0;
                while j < t.len()
                    invariant
                        k < self.files@.len(),
                        j <= t@.len(),
                        st == stack(*self),
                        tv == toml_entries(t@),
                        table_in(st[k as int].table, "source"@) == tv,
                        replaced_from(st, 0) == replaced_from(st, k as int),
                        replaced_in(tv, 0) == replaced_in(tv, j as int),
                    decreases t@.len() - j,
                {
                    assert(tv[j as int] == (t@[j as int].0@, t@[j as int].1@));
                    if t[j].1.get("replace-with").is_some() {
                        return Some((t[j].0.as_str(), &t[j].1));
                    }
                    j += 1;
                }
            }
            k += 1;
        }
        None
    }

    /// `[source] replace-with` a directory: `(registry source id, dir)`. Anything else is an error.
    pub fn vendor_dir(&self, env: &StrMap<String>) -> (r: Result<Option<(String, String)>, ConfigError>)
        ensures
            match vendor_of(stack(*self), env@) {
                Ok(None) => r matches Ok(x) && x.is_none(),
                Ok(Some((s, d))) => r matches Ok(Some(x)) && x.0@ == s && x.1@ == d,
                Err(e) => r matches Err(x) && x@ == e,
            },
    {
        let (name, spec) = match self.find_replaced() {
            None => {
                return Ok(None);
            },
            Some(x) => x,
        };
        let with = match spec.get("replace-with") {
            Some(Toml::Str(s)) => s.as_str(),
            _ => {
                return Err(ConfigError::ReplaceWith(name.to_owned()));
            },
        };
        let path: [&str; 3] = ["source", with, "directory"];
        assert(path_view(path@) =~= seq!["source"@, with@, "directory"@]);
        let (dir, base) = match self.get_str(&path) {
            Err(e) => {
                return Err(e);
            },
            Ok(None) => {
                return Err(ConfigError::NotDirectory(name.to_owned(), with.to_owned()));
            },
            Ok(Some(x)) => x,
        };
        let source = if same(name, "crates-io") {
            crate::manifest::CRATES_IO.to_owned()
        } else {
            let all = self.registries(env);
            assert(texts_map(all@).contains_key(name@) == all@.contains_key(name@));
            match all.get(name) {
                Some(s) => {
                    assert(texts_map(all@)[name@] == s@);
                    s.clone()
                },
                None => name.to_owned(),
            }
        };
        Ok(Some((source, join(base, dir))))
    }

    /// The name of a source that another stands in for.
    pub fn replaced_source(&self) -> (r: Option<String>)
        ensures
            match replaced_from(stack(*self), 0) {
                None => r.is_none(),
                Some((k, j)) => r matches Some(x) && x@ == table_in(stack(*self)[k].table, "source"@)[j].0,
            },
    {
        match self.find_replaced() {
            None => None,
            Some((name, _)) => Some(name.to_owned()),
        }
    }
}

// ---------------------------------------------------------------------------
// Variables.

/// A variable of `[env]`: its value, whether it beats one that is set, and whether it is a path.
pub open spec fn env_entry(key: Seq<char>, v: TomlTree, path: Seq<char>) -> Result<(Seq<char>, bool, bool), ConfigFault> {
    match v {
        TomlTree::Str(s) => Ok((s, false, false)),
        TomlTree::Table(t) => match at(t, "value"@) {
            Some(TomlTree::Str(s)) => Ok(
                (s, crate::manifest::flag_or(at(t, "force"@), false), crate::manifest::flag_or(at(t, "relative"@), false)),
            ),
            _ => Err(ConfigFault::EnvValue(key)),
        },
        _ => Err(ConfigFault::EnvKind(key, path)),
    }
}

pub type Texts = Map<Seq<char>, Seq<char>>;

/// The variables with the first `n` of a file.
pub open spec fn env_upto(m: Texts, t: Entries, f: StackFile, env: Vars, n: int) -> Result<Texts, ConfigFault>
    decreases n,
{
    if n <= 0 || n > t.len() {
        Ok(m)
    } else {
        match env_upto(m, t, f, env, n - 1) {
            Err(e) => Err(e),
            Ok(m) => match env_entry(t[n - 1].0, t[n - 1].1, f.path) {
                Err(e) => Err(e),
                Ok((value, force, relative)) => if !force && env.contains_key(t[n - 1].0) {
                    Ok(m.remove(t[n - 1].0))
                } else {
                    Ok(
                        m.insert(
                            t[n - 1].0,
                            if relative {
                                under(f.base, value)
                            } else {
                                value
                            },
                        ),
                    )
                },
            },
        }
    }
}

/// The variables of the files from the last down to the `k`th.
pub open spec fn env_down(st: Stack, env: Vars, k: int) -> Result<Texts, ConfigFault>
    decreases st.len() - k,
{
    if k < 0 || k >= st.len() {
        Ok(Map::empty())
    } else {
        match env_down(st, env, k + 1) {
            Err(e) => Err(e),
            Ok(m) => {
                let t = table_in(st[k].table, "env"@);
                env_upto(m, t, st[k], env, t.len() as int)
            },
        }
    }
}

proof fn lemma_env_error(m: Texts, t: Entries, f: StackFile, env: Vars, a: int, b: int)
    requires
        0 <= a <= b <= t.len(),
        env_upto(m, t, f, env, a).is_err(),
    ensures
        env_upto(m, t, f, env, b) == env_upto(m, t, f, env, a),
    decreases b - a,
{
    if a < b {
        lemma_env_error(m, t, f, env, a, b - 1);
    }
}

proof fn lemma_env_down_error(st: Stack, env: Vars, k: int)
    requires
        0 <= k <= st.len(),
        env_down(st, env, k).is_err(),
    ensures
        env_down(st, env, 0) == env_down(st, env, k),
    decreases k,
{
    if k > 0 {
        lemma_env_down_error(st, env, k - 1);
    }
}

fn read_env_entry(key: &str, v: &Toml, path: &str) -> (r: Result<(String, bool, bool), ConfigError>)
    ensures
        match env_entry(key@, v@, path@) {
            Ok((s, f, l)) => r matches Ok(x) && x.0@ == s && x.1 == f && x.2 == l,
            Err(e) => r matches Err(x) && x@ == e,
        },
{
    match v {
        Toml::Str(s) => Ok((s.clone(), false, false)),
        Toml::Table(t) => match get(t, "value") {
            Some(Toml::Str(s)) => {
                let force: bool = match get(t, "force") {
                    Some(Toml::Bool(b)) => *b,
                    _ => false,
                };
                let relative: bool = match get(t, "relative") {
                    Some(Toml::Bool(b)) => *b,
                    _ => false,
                };
                Ok((s.clone(), force, relative))
            },
            _ => Err(ConfigError::EnvValue(key.to_owned())),
        },
        _ => Err(ConfigError::EnvKind(key.to_owned(), path.to_owned())),
    }
}

fn add_env(out: &mut StrMap<String>, f: &ConfigFile, env: &StrMap<String>) -> (r: Result<(), ConfigError>)
    ensures
        ({
            let t = table_in(f@.table, "env"@);
            match env_upto(texts_map(old(out)@), t, f@, env@, t.len() as int) {
                Ok(m) => r.is_ok() && texts_map(final(out)@) == m,
                Err(e) => r matches Err(x) && x@ == e,
            }
        }),
{
    let ghost start = texts_map(out@);
    if let Some(Toml::Table(t)) = get(&f.table, "env") {
        let ghost tv = toml_entries(t@);
        assert(table_in(f@.table, "env"@) == tv);
        let mut k: usize = 0;
        while k < t.len()
            invariant
                k <= t@.len(),
                tv == toml_entries(t@),
                table_in(f@.table, "env"@) == tv,
                start == texts_map(old(out)@),
                env_upto(start, tv, f@, env@, k as int) == Ok::<_, ConfigFault>(texts_map(out@)),
            decreases t@.len() - k,
        {
            assert(tv[k as int] == (t@[k as int].0@, t@[k as int].1@));
            let key = t[k].0.as_str();
            let ghost was = out@;
            match read_env_entry(key, &t[k].1, f.path.as_str()) {
                Err(e) => {
                    proof {
                        lemma_env_error(start, tv, f@, env@, k + 1, tv.len() as int);
                    }
                    return Err(e);
                },
                Ok((value, force, relative)) => {
                    if !force && env.has(key) {
                        out.remove(key);
                        assert(texts_map(out@) =~= texts_map(was).remove(key@));
                    } else {
                        let v = if relative {
                            join(f.base.as_str(), value.as_str())
                        } else {
                            value
                        };
                        let ghost vv = v@;
                        out.insert(key, v);
                        assert(texts_map(out@) =~= texts_map(was).insert(key@, vv));
                    }
                },
            }
            k += 1;
        }
    }
    Ok(())
}

impl CargoConfig {
    /// `[env]` for rustc and build scripts. An existing variable wins unless `force`.
    pub fn env_vars(&self, env: &StrMap<String>) -> (r: Result<StrMap<String>, ConfigError>)
        ensures
            match env_down(stack(*self), env@, 0) {
                Ok(m) => r matches Ok(x) && texts_map(x@) == m,
                Err(e) => r matches Err(x) && x@ == e,
            },
    {
        let ghost st = stack(*self);
        let mut out: StrMap<String> = StrMap::new();
        let mut k: usize = self.files.len();
        assert(texts_map(out@) =~= Map::<Seq<char>, Seq<char>>::empty());
        assert(st.len() == self.files@.len());
        while k > 0
            invariant
                k <= self.files@.len(),
                st == stack(*self),
                st.len() == self.files@.len(),
                env_down(st, env@, k as int) == Ok::<_, ConfigFault>(texts_map(out@)),
            decreases k,
        {
            k -= 1;
            assert(st[k as int] == self.files@[k as int]@);
            match add_env(&mut out, &self.files[k], env) {
                Ok(_) => {},
                Err(e) => {
                    proof {
                        lemma_env_down_error(st, env@, k as int);
                    }
                    return Err(e);
                },
            }
        }
        Ok(out)
    }
}

// ---------------------------------------------------------------------------
// Reading the stack.

/// The file that a directory has for its configuration: the name without an extension counts first.
pub open spec fn config_in(dir: Seq<char>, files: Set<Seq<char>>) -> Option<Seq<char>> {
    if files.contains(under(dir, "config"@)) {
        Some(under(dir, "config"@))
    } else if files.contains(under(dir, "config.toml"@)) {
        Some(under(dir, "config.toml"@))
    } else {
        None
    }
}

/// The files of the first `n` directories.
pub open spec fn configs_upto(dirs: Seq<Seq<char>>, files: Set<Seq<char>>, n: int) -> Seq<Seq<char>>
    decreases n,
{
    if n <= 0 || n > dirs.len() {
        Seq::empty()
    } else {
        match config_in(under(dirs[n - 1], ".cargo"@), files) {
            Some(p) => configs_upto(dirs, files, n - 1).push(p),
            None => configs_upto(dirs, files, n - 1),
        }
    }
}

/// The files of a configuration, the nearest first: those above the directory, then the user's, unless that
/// is one of them.
pub open spec fn config_files(cwd: Seq<char>, home: Seq<char>, files: Set<Seq<char>>, same: Set<Seq<char>>) -> Seq<Seq<char>> {
    let dirs = crate::workspace::ancestors_of(cwd);
    let near = configs_upto(dirs, files, dirs.len() as int);
    match config_in(home, files) {
        Some(p) => if exists|i: int| 0 <= i < near.len() && (near[i] == p || same.contains(#[trigger] near[i])) {
            near
        } else {
            near.push(p)
        },
        None => near,
    }
}

fn find_config(dir: &str, files: &StrSet) -> (r: Option<String>)
    ensures
        opt_view(r) == config_in(dir@, files@),
{
    let a = join(dir, "config");
    if files.contains(a.as_str()) {
        return Some(a);
    }
    let b = join(dir, "config.toml");
    if files.contains(b.as_str()) {
        Some(b)
    } else {
        None
    }
}

/// The files of a configuration, the nearest first. `files` are those that exist, `shared` those that are
/// the user's own under another name.
pub fn config_paths(cwd: &str, home: &str, files: &StrSet, shared: &StrSet) -> (r: Vec<String>)
    ensures
        views(r@) == config_files(cwd@, home@, files@, shared@),
{
    let dirs = crate::workspace::ancestors(cwd);
    let ghost dv = crate::workspace::ancestors_of(cwd@);
    let mut out: Vec<String> = Vec::new();
    let mut k: usize = 0;
    assert(views(out@) =~= Seq::<Seq<char>>::empty());
    while k < dirs.len()
        invariant
            k <= dirs@.len(),
            dv == views(dirs@),
            views(out@) == configs_upto(dv, files@, k as int),
        decreases dirs@.len() - k,
    {
        assert(dv[k as int] == dirs@[k as int]@);
        let ghost was = out@;
        if let Some(p) = find_config(join(dirs[k].as_str(), ".cargo").as_str(), files) {
            out.push(p);
            assert(views(out@) =~= views(was).push(p@));
        }
        k += 1;
    }
    assert(dv.len() == dirs@.len());
    let ghost near = views(out@);
    if let Some(p) = find_config(home, files) {
        let mut known: bool = false;
        let mut i: usize = 0;
        while i < out.len()
            invariant
                i <= out@.len(),
                near == views(out@),
                known == exists|a: int| 0 <= a < i && (near[a] == p@ || shared@.contains(#[trigger] near[a])),
            decreases out@.len() - i,
        {
            assert(near[i as int] == out@[i as int]@);
            let hit: bool = same(out[i].as_str(), p.as_str()) || shared.contains(out[i].as_str());
            assert(hit == (near[i as int] == p@ || shared@.contains(near[i as int])));
            known = known || hit;
            i += 1;
        }
        assert(near.len() == out@.len());
        if !known {
            out.push(p);
            assert(views(out@) =~= near.push(p@));
        }
    }
    out
}

/// The directory that a file's paths are relative to: the one that holds `.cargo`.
pub open spec fn base_of(path: Seq<char>) -> Seq<char> {
    match up(path) {
        Some(d) => match up(d) {
            Some(b) => b,
            None => "/"@,
        },
        None => "/"@,
    }
}

/// The stack of the first `n` files, where each can be read.
pub open spec fn stack_upto(files: Seq<(Seq<char>, Seq<char>)>, n: int) -> Result<Stack, ConfigFault>
    decreases n,
{
    if n <= 0 || n > files.len() {
        Ok(Seq::empty())
    } else {
        match stack_upto(files, n - 1) {
            Err(e) => Err(e),
            Ok(st) => match toml_of(files[n - 1].1) {
                Err(_) => Err(ConfigFault::File(files[n - 1].0)),
                Ok(table) => Ok(st.push(StackFile { path: files[n - 1].0, base: base_of(files[n - 1].0), table })),
            },
        }
    }
}

proof fn lemma_stack_error(files: Seq<(Seq<char>, Seq<char>)>, a: int, b: int)
    requires
        0 <= a <= b <= files.len(),
        stack_upto(files, a).is_err(),
    ensures
        stack_upto(files, b) == stack_upto(files, a),
    decreases b - a,
{
    if a < b {
        lemma_stack_error(files, a, b - 1);
    }
}

pub open spec fn layers_in(v: TomlTree) -> Option<Seq<(Seq<char>, Layer)>> {
    match v {
        TomlTree::Table(l) => layers_of(l, l.len() as int),
        _ => None,
    }
}

/// The profiles of the files from the last down to the `k`th.
pub open spec fn profiles_down(st: Stack, k: int) -> Result<Seq<Seq<(Seq<char>, Layer)>>, ConfigFault>
    decreases st.len() - k,
{
    if k < 0 || k >= st.len() {
        Ok(Seq::empty())
    } else {
        match profiles_down(st, k + 1) {
            Err(e) => Err(e),
            Ok(l) => match at(st[k].table, "profile"@) {
                None => Ok(l),
                Some(v) => match layers_in(v) {
                    None => Err(ConfigFault::Profile(st[k].path)),
                    Some(p) => Ok(l.push(p)),
                },
            },
        }
    }
}

proof fn lemma_profiles_error(st: Stack, k: int)
    requires
        0 <= k <= st.len(),
        profiles_down(st, k).is_err(),
    ensures
        profiles_down(st, 0) == profiles_down(st, k),
    decreases k,
{
    if k > 0 {
        lemma_profiles_error(st, k - 1);
    }
}

pub open spec fn asks_std(t: Entries) -> bool {
    match at(t, "unstable"@) {
        Some(u) => field(u, "build-std"@).is_some(),
        None => false,
    }
}

fn asks_build_std(t: &Vec<(String, Toml)>) -> (r: bool)
    ensures
        r == asks_std(toml_entries(t@)),
{
    match get(t, "unstable") {
        Some(u) => u.get("build-std").is_some(),
        None => false,
    }
}

pub open spec fn files_view(l: Seq<(String, String)>) -> Seq<(Seq<char>, Seq<char>)> {
    Seq::new(l.len(), |i: int| (l[i].0@, l[i].1@))
}

pub open spec fn profiles_view(l: Seq<Vec<(String, TomlProfile)>>) -> Seq<Seq<(Seq<char>, Layer)>> {
    Seq::new(l.len(), |i: int| layers(l[i]@))
}

impl CargoConfig {
    fn read_files(files: &Vec<(String, String)>) -> (r: Result<Vec<ConfigFile>, ConfigError>)
        ensures
            match stack_upto(files_view(files@), files@.len() as int) {
                Ok(st) => r matches Ok(v) && views(v@) == st,
                Err(e) => r matches Err(x) && x@ == e,
            },
    {
        let ghost fv = files_view(files@);
        let mut out: Vec<ConfigFile> = Vec::new();
        let mut k: usize = 0;
        assert(views(out@) =~= Seq::<StackFile>::empty());
        while k < files.len()
            invariant
                k <= files@.len(),
                fv == files_view(files@),
                stack_upto(fv, k as int) == Ok::<_, ConfigFault>(views(out@)),
            decreases files@.len() - k,
        {
            assert(fv[k as int] == (files@[k as int].0@, files@[k as int].1@));
            let path = files[k].0.as_str();
            let ghost was = out@;
            match parse_document(files[k].1.as_str()) {
                Err(_) => {
                    proof {
                        lemma_stack_error(fv, k + 1, fv.len() as int);
                    }
                    return Err(ConfigError::File(path.to_owned()));
                },
                Ok(table) => {
                    let base = match parent(path) {
                        Some(d) => match parent(d.as_str()) {
                            Some(b) => b,
                            None => "/".to_owned(),
                        },
                        None => "/".to_owned(),
                    };
                    let f = ConfigFile { path: path.to_owned(), base, table };
                    out.push(f);
                    assert(views(out@) =~= views(was).push(f@));
                },
            }
            k += 1;
        }
        Ok(out)
    }

    /// The configuration of these files, the nearest first: each with its path and its text.
    pub fn load_from(files: &Vec<(String, String)>) -> (r: Result<CargoConfig, ConfigError>)
        ensures
            match stack_upto(files_view(files@), files@.len() as int) {
                Err(e) => r matches Err(x) && x@ == e,
                Ok(st) => match profiles_down(st, 0) {
                    Err(e) => r matches Err(x) && x@ == e,
                    Ok(p) => r matches Ok(c) && stack(c) == st && profiles_view(c.profiles@) == p && c.build_std == (exists|i: int|
                        0 <= i < st.len() && asks_std((#[trigger] st[i]).table)),
                },
            },
    {
        let read = match CargoConfig::read_files(files) {
            Ok(f) => f,
            Err(e) => {
                return Err(e);
            },
        };
        let ghost st = views(read@);
        let mut profiles: Vec<Vec<(String, TomlProfile)>> = Vec::new();
        let mut build_std: bool = false;
        let mut k: usize = read.len();
        assert(st.len() == read@.len());
        assert(profiles_view(profiles@) =~= Seq::<Seq<(Seq<char>, Layer)>>::empty());
        while k > 0
            invariant
                k <= read@.len(),
                st == views(read@),
                st.len() == read@.len(),
                stack_upto(files_view(files@), files@.len() as int) == Ok::<_, ConfigFault>(st),
                profiles_down(st, k as int) == Ok::<_, ConfigFault>(profiles_view(profiles@)),
                build_std == (exists|i: int| k <= i < st.len() && asks_std((#[trigger] st[i]).table)),
            decreases k,
        {
            let ghost before = build_std;
            k -= 1;
            assert(st[k as int] == read@[k as int]@);
            let f = &read[k];
            let ghost was = profiles@;
            if let Some(p) = get(&f.table, "profile") {
                let l = match p {
                    Toml::Table(t) => {
                        assert(toml_entries(t@).len() == t@.len());
                        TomlProfile::all_from_toml(t)
                    },
                    _ => None,
                };
                match l {
                    None => {
                        proof {
                            lemma_profiles_error(st, k as int);
                        }
                        return Err(ConfigError::Profile(f.path.clone()));
                    },
                    Some(v) => {
                        profiles.push(v);
                        assert(profiles_view(profiles@) =~= profiles_view(was).push(layers(v@)));
                    },
                }
            }
            let asks: bool = asks_build_std(&f.table);
            assert(asks == asks_std(st[k as int].table));
            build_std = build_std || asks;
            assert(build_std == (exists|i: int| k <= i < st.len() && asks_std((#[trigger] st[i]).table))) by {
                if before {
                    let i = choose|i: int| k + 1 <= i < st.len() && asks_std((#[trigger] st[i]).table);
                    assert(asks_std(st[i].table));
                }
                if exists|i: int| k <= i < st.len() && asks_std((#[trigger] st[i]).table) {
                    let i = choose|i: int| k <= i < st.len() && asks_std((#[trigger] st[i]).table);
                    if i > k {
                        assert(asks_std(st[i].table));
                    }
                }
            }
        }
        Ok(CargoConfig { files: read, profiles, build_std })
    }
}

// ---------------------------------------------------------------------------
// `--config`.

/// `KEY=VALUE`, where the key is not empty and no path.
pub open spec fn split_setting(s: Seq<char>) -> Option<(Seq<char>, Seq<char>)> {
    match crate::text::split_first(s, '=') {
        Some((k, v)) => if k.len() == 0 || k.contains('/') || k.contains('\\') {
            None
        } else {
            Some((k, v))
        },
        None => None,
    }
}

pub(crate) fn split_config_set<'a>(s: &'a str) -> (r: Option<(&'a str, &'a str)>)
    ensures
        match r {
            Some((k, v)) => split_setting(s@) == Some((k@, v@)),
            None => split_setting(s@).is_none(),
        },
{
    match crate::text::split_once(s, '=') {
        Some((k, v)) => if k.is_empty() || has_char(k, '/') || has_char(k, '\\') {
            None
        } else {
            Some((k, v))
        },
        None => None,
    }
}

/// How far a key with dots is read: the parts so far, the part that is open, and whether it is in quotes.
pub struct KeyState {
    pub parts: Seq<Seq<char>>,
    pub open: Seq<char>,
    pub quoted: bool,
}

pub open spec fn key_upto(s: Seq<char>, n: int) -> KeyState
    decreases n,
{
    if n <= 0 || n > s.len() {
        KeyState { parts: Seq::empty(), open: Seq::empty(), quoted: false }
    } else {
        let k = key_upto(s, n - 1);
        let c = s[n - 1];
        if c == '\'' || c == '"' {
            KeyState { quoted: !k.quoted, ..k }
        } else if c == '.' && !k.quoted {
            KeyState { parts: k.parts.push(k.open), open: Seq::empty(), quoted: k.quoted }
        } else {
            KeyState { open: k.open.push(c), ..k }
        }
    }
}

/// The parts of a key, between the dots that are not in quotes.
pub open spec fn key_parts(s: Seq<char>) -> Seq<Seq<char>> {
    let k = key_upto(s, s.len() as int);
    if k.open.len() > 0 {
        k.parts.push(k.open)
    } else {
        k.parts
    }
}

pub(crate) fn dotted_parts(key: &str) -> (r: Vec<String>)
    ensures
        views(r@) == key_parts(key@),
{
    let cs = chars_of(key);
    let mut out: Vec<String> = Vec::new();
    let mut open = String::new();
    let mut quoted: bool = false;
    let mut n: usize = 0;
    proof {
        reveal_strlit("");
    }
    assert(views(out@) =~= Seq::<Seq<char>>::empty());
    while n < cs.len()
        invariant
            n <= cs@.len(),
            cs@ == key@,
            key_upto(key@, n as int) == (KeyState { parts: views(out@), open: open@, quoted }),
        decreases cs@.len() - n,
    {
        let c: char = cs[n];
        let ghost was = out@;
        if c == '\'' || c == '"' {
            quoted = !quoted;
        } else if c == '.' && !quoted {
            let mut part = String::new();
            std::mem::swap(&mut part, &mut open);
            out.push(part);
            assert(views(out@) =~= views(was).push(part@));
        } else {
            push_char(&mut open, c);
        }
        n += 1;
    }
    let ghost was = out@;
    if !open.as_str().is_empty() {
        out.push(open);
        assert(views(out@) =~= views(was).push(open@));
    }
    out
}

/// What a setting's text stands for: a flag, a number, a document, or itself.
pub open spec fn setting_value(raw: Seq<char>) -> TomlTree {
    if raw == "true"@ {
        TomlTree::Bool(true)
    } else if raw == "false"@ {
        TomlTree::Bool(false)
    } else {
        match i64_of(raw) {
            Some(n) => TomlTree::Int(n as i64),
            None => match toml_of(raw) {
                Ok(t) => TomlTree::Table(t),
                Err(_) => TomlTree::Str(raw),
            },
        }
    }
}

pub(crate) fn read_value(raw: &str) -> (r: Toml)
    ensures
        r@ == setting_value(raw@),
{
    if same(raw, "true") {
        return Toml::Bool(true);
    }
    if same(raw, "false") {
        return Toml::Bool(false);
    }
    if let Some(n) = parse_i64(raw) {
        return Toml::Int(n);
    }
    match parse_document(raw) {
        Ok(t) => Toml::Table(t),
        Err(_) => Toml::Str(raw.to_owned()),
    }
}

/// Where a key stands in a table in ascending order, or belongs.
pub open spec fn key_place(t: Entries, key: Seq<char>, k: int) -> int
    decreases t.len() - k,
{
    if k < 0 || k >= t.len() || !crate::order::before(t[k].0, key) {
        k
    } else {
        key_place(t, key, k + 1)
    }
}

/// The table with the value under the key, in place of what was there, in the order of the keys.
pub open spec fn with_entry(t: Entries, key: Seq<char>, v: TomlTree) -> Entries {
    let k = key_place(t, key, 0);
    if k < t.len() && t[k].0 == key {
        t.update(k, (key, v))
    } else {
        t.insert(k, (key, v))
    }
}

pub(crate) fn put_entry(t: Vec<(String, Toml)>, key: &str, v: Toml) -> (r: Vec<(String, Toml)>)
    ensures
        toml_entries(r@) == with_entry(toml_entries(t@), key@, v@),
{
    let ghost tv = toml_entries(t@);
    let mut k: usize = 0;
    while k < t.len() && crate::order::is_before(t[k].0.as_str(), key)
        invariant
            k <= t@.len(),
            tv == toml_entries(t@),
            key_place(tv, key@, 0) == key_place(tv, key@, k as int),
        decreases t@.len() - k,
    {
        assert(tv[k as int] == (t@[k as int].0@, t@[k as int].1@));
        k += 1;
    }
    proof {
        if k < t@.len() {
            assert(tv[k as int] == (t@[k as int].0@, t@[k as int].1@));
        }
        assert(key_place(tv, key@, 0) == k);
    }
    let ghost vv = v@;
    let mut out = t;
    if k < out.len() && same(out[k].0.as_str(), key) {
        out.set(k, (key.to_owned(), v));
        assert(toml_entries(out@) =~= tv.update(k as int, (key@, vv)));
    } else {
        out.insert(k, (key.to_owned(), v));
        assert(toml_entries(out@) =~= tv.insert(k as int, (key@, vv)));
    }
    out
}

/// The table under a key, or an empty one.
pub open spec fn inner_table(t: Entries, key: Seq<char>) -> Entries {
    match at(t, key) {
        Some(TomlTree::Table(s)) => s,
        _ => Seq::empty(),
    }
}

/// The table with the value at the end of a path. What is no table on the way gives way to one.
pub open spec fn with_path(t: Entries, path: Seq<Seq<char>>, v: TomlTree) -> Entries
    decreases path.len(),
{
    if path.len() == 0 {
        t
    } else if path.len() == 1 {
        with_entry(t, path[0], v)
    } else {
        with_entry(t, path[0], TomlTree::Table(with_path(inner_table(t, path[0]), path.skip(1), v)))
    }
}

fn insert_dotted(t: Vec<(String, Toml)>, path: &Vec<String>, k: usize, v: Toml) -> (r: Vec<(String, Toml)>)
    requires
        k <= path@.len(),
    ensures
        toml_entries(r@) == with_path(toml_entries(t@), views(path@).skip(k as int), v@),
    decreases path@.len() - k,
{
    let ghost pv = views(path@).skip(k as int);
    assert(views(path@).len() == path@.len());
    if k == path.len() {
        return t;
    }
    assert(pv[0] == path@[k as int]@);
    if k + 1 == path.len() {
        return put_entry(t, path[k].as_str(), v);
    }
    let inner = match get(&t, path[k].as_str()) {
        Some(Toml::Table(s)) => crate::value::dup_table(s),
        _ => {
            let none: Vec<(String, Toml)> = Vec::new();
            assert(toml_entries(none@) =~= Seq::<(Seq<char>, TomlTree)>::empty());
            none
        },
    };
    assert(pv.skip(1) =~= views(path@).skip(k + 1));
    let below = insert_dotted(inner, path, k + 1, v);
    put_entry(t, path[k].as_str(), Toml::Table(below))
}

/// The table with the entries of another, those of the other in place of its own.
pub open spec fn with_entries(t: Entries, more: Entries, n: int) -> Entries
    decreases n,
{
    if n <= 0 || n > more.len() {
        t
    } else {
        with_entry(with_entries(t, more, n - 1), more[n - 1].0, more[n - 1].1)
    }
}

fn put_entries(t: Vec<(String, Toml)>, more: &Vec<(String, Toml)>) -> (r: Vec<(String, Toml)>)
    ensures
        toml_entries(r@) == with_entries(toml_entries(t@), toml_entries(more@), more@.len() as int),
{
    let ghost start = toml_entries(t@);
    let ghost mv = toml_entries(more@);
    let mut out = t;
    let mut k: usize = 0;
    while k < more.len()
        invariant
            k <= more@.len(),
            mv == toml_entries(more@),
            toml_entries(out@) == with_entries(start, mv, k as int),
        decreases more@.len() - k,
    {
        assert(mv[k as int] == (more@[k as int].0@, more@[k as int].1@));
        out = put_entry(out, more[k].0.as_str(), more[k].1.dup());
        k += 1;
    }
    out
}

/// The file that an argument names: below the directory, or as it is.
pub open spec fn cli_file(cwd: Seq<char>, spec: Seq<char>, texts: Vars) -> Option<Seq<char>> {
    if texts.contains_key(under(cwd, spec)) {
        Some(under(cwd, spec))
    } else if texts.contains_key(spec) {
        Some(spec)
    } else {
        None
    }
}

/// The table of the first `n` arguments. `texts` are the files that they may name.
pub open spec fn cli_upto(cwd: Seq<char>, specs: Seq<Seq<char>>, texts: Vars, n: int) -> Result<Entries, ConfigFault>
    decreases n,
{
    if n <= 0 || n > specs.len() {
        Ok(Seq::empty())
    } else {
        match cli_upto(cwd, specs, texts, n - 1) {
            Err(e) => Err(e),
            Ok(t) => match split_setting(specs[n - 1]) {
                Some((key, raw)) => Ok(with_path(t, key_parts(key), setting_value(raw))),
                None => match cli_file(cwd, specs[n - 1], texts) {
                    None => Err(ConfigFault::Cli(specs[n - 1])),
                    Some(p) => match toml_of(texts[p]@) {
                        Err(_) => Err(ConfigFault::File(p)),
                        Ok(more) => Ok(with_entries(t, more, more.len() as int)),
                    },
                },
            },
        }
    }
}

proof fn lemma_cli_error(cwd: Seq<char>, specs: Seq<Seq<char>>, texts: Vars, a: int, b: int)
    requires
        0 <= a <= b <= specs.len(),
        cli_upto(cwd, specs, texts, a).is_err(),
    ensures
        cli_upto(cwd, specs, texts, b) == cli_upto(cwd, specs, texts, a),
    decreases b - a,
{
    if a < b {
        lemma_cli_error(cwd, specs, texts, a, b - 1);
    }
}

fn find_cli_file(cwd: &str, spec: &str, texts: &StrMap<String>) -> (r: Option<String>)
    ensures
        opt_view(r) == cli_file(cwd@, spec@, texts@),
{
    let p = join(cwd, spec);
    if texts.has(p.as_str()) {
        return Some(p);
    }
    if texts.has(spec) {
        Some(spec.to_owned())
    } else {
        None
    }
}

fn read_cli(cwd: &str, specs: &Vec<String>, texts: &StrMap<String>) -> (r: Result<Vec<(String, Toml)>, ConfigError>)
    ensures
        match cli_upto(cwd@, views(specs@), texts@, specs@.len() as int) {
            Ok(t) => r matches Ok(x) && toml_entries(x@) == t,
            Err(e) => r matches Err(x) && x@ == e,
        },
{
    let ghost sv = views(specs@);
    let mut out: Vec<(String, Toml)> = Vec::new();
    let mut k: usize = 0;
    assert(toml_entries(out@) =~= Seq::<(Seq<char>, TomlTree)>::empty());
    while k < specs.len()
        invariant
            k <= specs@.len(),
            sv == views(specs@),
            cli_upto(cwd@, sv, texts@, k as int) == Ok::<_, ConfigFault>(toml_entries(out@)),
        decreases specs@.len() - k,
    {
        assert(sv[k as int] == specs@[k as int]@);
        match split_config_set(specs[k].as_str()) {
            Some((key, raw)) => {
                let parts = dotted_parts(key);
                assert(views(parts@).skip(0) =~= views(parts@));
                out = insert_dotted(out, &parts, 0, read_value(raw));
            },
            None => {
                let p = match find_cli_file(cwd, specs[k].as_str(), texts) {
                    Some(p) => p,
                    None => {
                        proof {
                            lemma_cli_error(cwd@, sv, texts@, k + 1, sv.len() as int);
                        }
                        return Err(ConfigError::Cli(specs[k].clone()));
                    },
                };
                let text = match texts.get(p.as_str()) {
                    Some(t) => t.as_str(),
                    None => "",
                };
                match parse_document(text) {
                    Err(_) => {
                        proof {
                            lemma_cli_error(cwd@, sv, texts@, k + 1, sv.len() as int);
                        }
                        return Err(ConfigError::File(p));
                    },
                    Ok(more) => {
                        assert(toml_entries(more@).len() == more@.len());
                        out = put_entries(out, &more);
                    },
                }
            },
        }
        k += 1;
    }
    Ok(out)
}

impl CargoConfig {
    /// `--config KEY=VALUE` and `--config path`. Later entries win, ahead of `.cargo/config.toml`. `texts` holds
    /// the files that the arguments may name.
    pub fn push_cli_config(&mut self, cwd: &str, specs: &Vec<String>, texts: &StrMap<String>) -> (r: Result<(), ConfigError>)
        ensures
            final(self).profiles == old(self).profiles,
            if specs@.len() == 0 {
                r.is_ok() && stack(*final(self)) == stack(*old(self)) && final(self).build_std == old(self).build_std
            } else {
                match cli_upto(cwd@, views(specs@), texts@, specs@.len() as int) {
                    Err(e) => (r matches Err(x) && x@ == e) && stack(*final(self)) == stack(*old(self))
                        && final(self).build_std == old(self).build_std,
                    Ok(table) => r.is_ok() && stack(*final(self)) == stack(*old(self)).insert(
                        0,
                        StackFile { path: under(cwd@, "--config"@), base: cwd@, table },
                    ) && final(self).build_std == (old(self).build_std || asks_std(table)),
                }
            },
    {
        let ghost was = stack(*self);
        if specs.len() == 0 {
            return Ok(());
        }
        let table = match read_cli(cwd, specs, texts) {
            Ok(t) => t,
            Err(e) => {
                return Err(e);
            },
        };
        if asks_build_std(&table) {
            self.build_std = true;
        }
        let f = ConfigFile { path: join(cwd, "--config"), base: cwd.to_owned(), table };
        let ghost fv = f@;
        self.files.insert(0, f);
        assert(stack(*self) =~= was.insert(0, fv));
        Ok(())
    }
}

// ---------------------------------------------------------------------------
// Loading.

/// The model of a configuration.
pub struct ConfigModel {
    pub stack: Stack,
    pub profiles: Seq<Seq<(Seq<char>, Layer)>>,
    pub build_std: bool,
}

pub open spec fn config_model(c: CargoConfig) -> ConfigModel {
    ConfigModel { stack: stack(c), profiles: profiles_view(c.profiles@), build_std: c.build_std }
}

/// The configuration of files alone.
pub open spec fn files_config(files: Seq<(Seq<char>, Seq<char>)>) -> Result<ConfigModel, ConfigFault> {
    match stack_upto(files, files.len() as int) {
        Err(e) => Err(e),
        Ok(st) => match profiles_down(st, 0) {
            Err(e) => Err(e),
            Ok(p) => Ok(
                ConfigModel {
                    stack: st,
                    profiles: p,
                    build_std: exists|i: int| 0 <= i < st.len() && asks_std((#[trigger] st[i]).table),
                },
            ),
        },
    }
}

/// The configuration with the arguments ahead of the files.
pub open spec fn with_cli(m: ConfigModel, cwd: Seq<char>, specs: Seq<Seq<char>>, texts: Vars) -> Result<ConfigModel, ConfigFault> {
    if specs.len() == 0 {
        Ok(m)
    } else {
        match cli_upto(cwd, specs, texts, specs.len() as int) {
            Err(e) => Err(e),
            Ok(table) => Ok(
                ConfigModel {
                    stack: m.stack.insert(0, StackFile { path: under(cwd, "--config"@), base: cwd, table }),
                    profiles: m.profiles,
                    build_std: m.build_std || asks_std(table),
                },
            ),
        }
    }
}

/// What a load gives: the configuration of the files, with the arguments.
pub open spec fn loaded_config(
    files: Seq<(Seq<char>, Seq<char>)>,
    cwd: Seq<char>,
    specs: Seq<Seq<char>>,
    texts: Vars,
) -> Result<ConfigModel, ConfigFault> {
    match files_config(files) {
        Err(e) => Err(e),
        Ok(m) => with_cli(m, cwd, specs, texts),
    }
}

impl CargoConfig {
    /// The configuration of a directory, from its files, the nearest first, and the arguments that are set. `texts` holds
    /// the files that the arguments may name.
    pub fn load(files: &Vec<(String, String)>, cwd: &str, cli: &CliConfig, texts: &StrMap<String>) -> (r: Result<CargoConfig, ConfigError>)
        ensures
            match loaded_config(files_view(files@), cwd@, views(cli.specs@), texts@) {
                Ok(m) => r matches Ok(c) && config_model(c) == m,
                Err(e) => r matches Err(x) && x@ == e,
            },
    {
        assert(views(cli.specs@).len() == cli.specs@.len());
        assert(files_view(files@).len() == files@.len());
        let mut c = match CargoConfig::load_from(files) {
            Ok(c) => c,
            Err(e) => {
                return Err(e);
            },
        };
        match c.push_cli_config(cwd, &cli.specs, texts) {
            Ok(_) => Ok(c),
            Err(e) => Err(e),
        }
    }
}

/// Every later load applies the arguments that were set last, and no earlier ones: they come ahead of the files, and
/// without any the files are left alone.
pub proof fn law_the_last_arguments_hold(
    files: Seq<(Seq<char>, Seq<char>)>,
    cwd: Seq<char>,
    a: Seq<Seq<char>>,
    b: Seq<Seq<char>>,
    texts: Vars,
)
    ensures
        loaded_config(files, cwd, specs_after(a, b), texts) == (match files_config(files) {
            Err(e) => Err(e),
            Ok(m) => with_cli(m, cwd, b, texts),
        }),
        loaded_config(files, cwd, specs_after(a, Seq::empty()), texts) == files_config(files),
{
}

} // verus!
