//! The command line of each unit: rustc, rustdoc, or a build script.

use vstd::prelude::*;
use crate::build_script::env_name;
use crate::cfgexpr::facts;
use crate::invocation::Invocation;
use crate::invocation::InvocationView;
use crate::invocation::Normalizer;
use crate::invocation::SELF_NAME16;
use crate::invocation::counted;
use crate::invocation::first16;
use crate::layout::Layout;
use crate::lints::Lints;
use crate::lints::text_leq;
use crate::manifest::Target;
use crate::manifest::TargetKind;
use crate::manifest::any_is;
use crate::num::dec;
use crate::num::u64_text;
use crate::num::usize_text;
use crate::order::before;
use crate::order::is_before;
use crate::order::lemma_before_asymmetric;
use crate::order::lemma_before_irreflexive;
use crate::order::lemma_before_total;
use crate::order::lemma_before_transitive;
use crate::path::join;
use crate::path::parent;
use crate::path::relative;
use crate::path::renamed;
use crate::path::strip_prefix;
use crate::path::under;
use crate::path::up;
use crate::path::with_file_name;
use crate::plan::LtoMode;
use crate::plan::in_packages;
use crate::plan::target_of;
use crate::profile::Lto;
use crate::profile::Profile;
use crate::profile::dup_list;
use crate::profile::dup_text;
use crate::sets::has;
use crate::shell::Shell;
use crate::sort::Ranked;
use crate::sort::in_order;
use crate::sort::sort;
use crate::strmap::StrMap;
use crate::strmap::StrSet;
use crate::text::head_bytes;
use crate::text::cuts;
use crate::text::cat;
use crate::text::cat3;
use crate::text::cat4;
use crate::text::cat5;
use crate::text::ends;
use crate::text::ends_with;
use crate::text::join as join_texts;
use crate::text::joined;
use crate::text::opt_view;
use crate::text::same;
use crate::text::swapped;
use crate::text::to_upper;
use crate::text::uppercase;
use crate::text::views;
use crate::unit::CompileKind;
use crate::unit::Mode;
use crate::unit::Unit;
use crate::unit::UnitDep;
use crate::version::version_text;
use crate::workspace::Pkg;
use crate::workspace::Workspace;

verus! {

/// How rustc names the files of a crate type.
#[derive(Debug)]
pub struct FileType {
    pub crate_type: String,
    pub prefix: String,
    pub suffix: String,
}

/// What rustc says of a platform.
#[derive(Debug)]
pub struct TargetInfo {
    pub cfg: Vec<(String, Option<String>)>,
    pub apple: bool,
    pub file_types: Vec<FileType>,
}

/// The first entry for the crate type from `k` on.
pub open spec fn type_at(l: Seq<FileType>, crate_type: Seq<char>, k: int) -> Option<(Seq<char>, Seq<char>)>
    decreases l.len() - k,
{
    if k < 0 || k >= l.len() {
        None
    } else if l[k].crate_type@ == crate_type {
        Some((l[k].prefix@, l[k].suffix@))
    } else {
        type_at(l, crate_type, k + 1)
    }
}

/// The first value of the key from `k` on.
pub open spec fn value_at(l: Seq<(Seq<char>, Option<Seq<char>>)>, key: Seq<char>, k: int) -> Option<Seq<char>>
    decreases l.len() - k,
{
    if k < 0 || k >= l.len() {
        None
    } else if l[k].0 == key && l[k].1.is_some() {
        l[k].1
    } else {
        value_at(l, key, k + 1)
    }
}

impl TargetInfo {
    pub open spec fn named(self, crate_type: Seq<char>) -> Option<(Seq<char>, Seq<char>)> {
        type_at(self.file_types@, crate_type, 0)
    }

    pub open spec fn value(self, key: Seq<char>) -> Option<Seq<char>> {
        value_at(facts(self.cfg@), key, 0)
    }

    pub fn file_type(&self, crate_type: &str) -> (r: Option<&FileType>)
        ensures
            match r {
                Some(f) => self.named(crate_type@) == Some((f.prefix@, f.suffix@)),
                None => self.named(crate_type@).is_none(),
            },
    {
        let mut k: usize = 0;
        while k < self.file_types.len()
            invariant
                k <= self.file_types@.len(),
                self.named(crate_type@) == type_at(self.file_types@, crate_type@, k as int),
            decreases self.file_types@.len() - k,
        {
            if same(self.file_types[k].crate_type.as_str(), crate_type) {
                return Some(&self.file_types[k]);
            }
            k += 1;
        }
        None
    }

    pub fn cfg_value(&self, key: &str) -> (r: Option<&str>)
        ensures
            crate::invocation::opt_text(r) == self.value(key@),
    {
        let ghost all = facts(self.cfg@);
        let mut k: usize = 0;
        while k < self.cfg.len()
            invariant
                k <= self.cfg@.len(),
                all == facts(self.cfg@),
                self.value(key@) == value_at(all, key@, k as int),
            decreases self.cfg@.len() - k,
        {
            assert(all[k as int] == (self.cfg@[k as int].0@, opt_view(self.cfg@[k as int].1)));
            if same(self.cfg[k].0.as_str(), key) {
                if let Some(v) = &self.cfg[k].1 {
                    return Some(v.as_str());
                }
            }
            k += 1;
        }
        None
    }
}

/// The compiler.
#[derive(Debug)]
pub struct Rustc {
    pub path: String,
    pub host: String,
    pub nightly: bool,
    /// What tells one compiler from another.
    pub id: String,
}

/// What it takes to link for another platform.
#[derive(Debug)]
pub struct CrossToolchain {
    pub fingerprint: String,
    pub rustflags: Vec<String>,
    pub path_prepend: Vec<String>,
    pub rustc_env: Vec<(String, String)>,
    pub env: Vec<(String, String)>,
}

#[derive(Debug)]
pub struct KindInfo {
    /// `host`, or the requested target, under `target/rb/<profile>/`.
    pub name: String,
    pub triple: String,
    /// rustc `--target`. None for host units.
    pub target_flag: Option<String>,
    pub info: TargetInfo,
    /// Config and env rustflags. Also `CARGO_ENCODED_RUSTFLAGS`.
    pub user_rustflags: Vec<String>,
    pub linker: Option<String>,
    pub cross: CrossToolchain,
    pub deps_dir: String,
    pub build_dir: String,
    pub incremental_dir: String,
    pub artifact_dir: String,
    /// `target.<triple>.runner`, qemu or wine or whatever.
    pub runner: Option<Vec<String>>,
}

/// All that planning goes by.
pub struct Ctx<'a> {
    pub ws: &'a Workspace,
    pub rustc: &'a Rustc,
    pub shell: &'a Shell,
    pub layout: &'a Layout,
    pub host: &'a KindInfo,
    pub targets: &'a Vec<KindInfo>,
    pub jobs: usize,
    pub primary: &'a Vec<usize>,
    pub env_config: &'a Vec<(String, String)>,
    pub norm: &'a Normalizer,
    pub wrapper: Option<String>,
    /// OS and host C toolchain. Build scripts can probe either, so it goes in their keys.
    pub host_fingerprint: String,
    pub cache_build_scripts: bool,
    pub no_cache_build_scripts: &'a StrSet,
    pub remap_deps: bool,
    pub codegen_backend: Option<String>,
    pub extra_rustc: &'a Vec<String>,
    pub std_rustc: &'a Vec<String>,
    /// `--extern` that replaces sysroot `core` (`-Zbuild-std=core`).
    pub std_externs: &'a Vec<String>,
    pub extra_rustdoc: &'a Vec<String>,
    /// What the host's executables end in.
    pub exe_suffix: String,
}

impl<'a> Ctx<'a> {
    pub open spec fn pkgs(self) -> Seq<Pkg> {
        self.ws.pkgs@
    }

    pub open spec fn knows(self, k: CompileKind) -> bool {
        match k {
            CompileKind::Host => true,
            CompileKind::Target(i) => i < self.targets@.len(),
        }
    }

    pub open spec fn at(self, k: CompileKind) -> KindInfo {
        match k {
            CompileKind::Host => *self.host,
            CompileKind::Target(i) => self.targets@[i as int],
        }
    }

    pub fn kind(&self, k: CompileKind) -> (r: &KindInfo)
        requires
            self.knows(k),
        ensures
            *r == self.at(k),
    {
        match k {
            CompileKind::Host => self.host,
            CompileKind::Target(i) => &self.targets[i],
        }
    }

    /// The text with the directories in place of their tokens.
    pub fn expand(&self, s: &str) -> (r: String)
        ensures
            r@ == crate::text::replaced(
                crate::text::replaced(s@, "{TARGET}"@, self.layout.target_dir@),
                "{WS}"@,
                self.ws.root@,
            ),
    {
        proof {
            reveal_strlit("{TARGET}");
            reveal_strlit("{WS}");
        }
        crate::text::replace(
            crate::text::replace(s, "{TARGET}", self.layout.target_dir.as_str()).as_str(),
            "{WS}",
            self.ws.root.as_str(),
        )
    }
}

#[derive(Debug)]
pub struct Planned {
    /// Changes when anything that affects the outputs changes.
    pub key: String,
    /// Identity without source contents. Stable across edits, so incremental and `OUT_DIR` survive.
    pub name: String,
    /// Current values of predicted inputs. Empty if there are none.
    pub input_digest: String,
    pub inv: Invocation,
    /// Deps dir, or `build/<pkg>-<key16>` for a build script.
    pub out_dir: String,
    pub crate_name: String,
    pub descr: &'static str,
    pub bin_name: Option<String>,
    /// This package's build-script run, if this unit compiles.
    pub own_run: Option<usize>,
    /// Build-script runs whose `-L` paths apply.
    pub to_link: Vec<usize>,
    pub lib_reqs: Vec<usize>,
    /// Needs full upstream rlibs, not just metadata.
    pub needs_link: bool,
    pub emits_meta: bool,
    pub cacheable: bool,
}

/// The model of a planned unit.
pub struct PlannedView {
    pub key: Seq<char>,
    pub name: Seq<char>,
    pub input_digest: Seq<char>,
    pub inv: InvocationView,
    pub out_dir: Seq<char>,
    pub crate_name: Seq<char>,
    pub descr: Seq<char>,
    pub bin_name: Option<Seq<char>>,
    pub own_run: Option<usize>,
    pub to_link: Seq<usize>,
    pub lib_reqs: Seq<usize>,
    pub needs_link: bool,
    pub emits_meta: bool,
    pub cacheable: bool,
}

impl View for Planned {
    type V = PlannedView;

    open spec fn view(&self) -> PlannedView {
        PlannedView {
            key: self.key@,
            name: self.name@,
            input_digest: self.input_digest@,
            inv: self.inv@,
            out_dir: self.out_dir@,
            crate_name: self.crate_name@,
            descr: self.descr@,
            bin_name: opt_view(self.bin_name),
            own_run: self.own_run,
            to_link: self.to_link@,
            lib_reqs: self.lib_reqs@,
            needs_link: self.needs_link,
            emits_meta: self.emits_meta,
            cacheable: self.cacheable,
        }
    }
}

impl Planned {
    pub fn name16(&self) -> (r: String)
        requires
            cuts(self.name@, 16),
        ensures
            r@ == head_bytes(self.name@, 16),
    {
        first16(self.name.as_str())
    }

    pub fn out_dir_path(&self) -> (r: String)
        ensures
            r@ == under(self.out_dir@, "out"@),
    {
        join(self.out_dir.as_str(), "out")
    }
}

/// Why a unit has no command line.
#[derive(Debug)]
pub enum PlanError {
    /// The platform cannot produce the crate type of a dependency.
    CrateType { triple: String, crate_name: String },
    /// A build script run without its compiled build script
    NoScript,
}

/// The name of the file that rustc writes for a crate type.
pub open spec fn output_name(info: TargetInfo, crate_type: Seq<char>, crate_name: Seq<char>, name16: Seq<char>) -> Option<
    Seq<char>,
> {
    match info.named(crate_type) {
        Some((prefix, suffix)) => Some(prefix + crate_name + "-"@ + name16 + suffix),
        None => None,
    }
}

fn output_file(info: &TargetInfo, crate_type: &str, crate_name: &str, name16: &str) -> (r: Option<String>)
    ensures
        opt_view(r) == output_name(*info, crate_type@, crate_name@, name16@),
{
    match info.file_type(crate_type) {
        Some(ft) => Some(cat5(ft.prefix.as_str(), crate_name, "-", name16, ft.suffix.as_str())),
        None => None,
    }
}

pub open spec fn meta_name(crate_name: Seq<char>, name16: Seq<char>) -> Seq<char> {
    "lib"@ + crate_name + "-"@ + name16 + ".rmeta"@
}

/// The files of the crate types among the arguments from `k` on.
pub open spec fn type_files(
    info: TargetInfo,
    args: Seq<(Seq<char>, bool)>,
    crate_name: Seq<char>,
    name16: Seq<char>,
    k: int,
) -> Seq<Seq<char>>
    decreases args.len() - k,
{
    if k < 0 || k >= args.len() {
        Seq::empty()
    } else if args[k].0 == "--crate-type"@ && k + 1 < args.len() {
        match output_name(info, args[k + 1].0, crate_name, name16) {
            Some(f) => seq![f] + type_files(info, args, crate_name, name16, k + 2),
            None => type_files(info, args, crate_name, name16, k + 2),
        }
    } else {
        type_files(info, args, crate_name, name16, k + 1)
    }
}

/// What rustc writes. Not the dep-info, not the `.o` files.
pub fn artifact_names(info: &TargetInfo, inv: &Invocation, crate_name: &str, name16: &str, emits_meta: bool) -> (r: Vec<
    String,
>)
    ensures
        views(r@) == type_files(*info, inv@.args, crate_name@, name16@, 0) + if emits_meta {
            seq![meta_name(crate_name@, name16@)]
        } else {
            Seq::empty()
        },
{
    let mut names: Vec<String> = Vec::new();
    let ghost args = inv@.args;
    let ghost all = type_files(*info, args, crate_name@, name16@, 0);
    let mut k: usize = 0;
    assert(views(names@) + all =~= all);
    while k < inv.args.len()
        invariant
            k <= inv.args@.len(),
            args == inv@.args,
            all == views(names@) + type_files(*info, args, crate_name@, name16@, k as int),
        decreases inv.args@.len() - k,
    {
        assert(args[k as int] == inv.args@[k as int]@);
        if same(inv.args[k].0.as_str(), "--crate-type") && k + 1 < inv.args.len() {
            assert(args[k + 1] == inv.args@[k + 1]@);
            if let Some(f) = output_file(info, inv.args[k + 1].0.as_str(), crate_name, name16) {
                let ghost before = names@;
                let ghost rest = type_files(*info, args, crate_name@, name16@, k + 2);
                let ghost fv = f@;
                names.push(f);
                assert(views(names@) =~= views(before).push(fv));
                assert(views(before) + (seq![fv] + rest) =~= views(names@) + rest);
            }
            k += 2;
        } else {
            k += 1;
        }
    }
    assert(all =~= views(names@));
    if emits_meta {
        let ghost before = names@;
        names.push(cat5("lib", crate_name, "-", name16, ".rmeta"));
        assert(views(names@) =~= views(before) + seq![meta_name(crate_name@, name16@)]);
    } else {
        assert(all + Seq::<Seq<char>>::empty() =~= all);
    }
    names
}

// ---------------------------------------------------------------------------

pub type ArgsView = Seq<(Seq<char>, bool)>;

/// An argument that counts.
pub open spec fn flag(a: Seq<char>) -> ArgsView {
    seq![(a, true)]
}

pub open spec fn pair(a: Seq<char>, b: Seq<char>) -> ArgsView {
    seq![(a, true), (b, true)]
}

/// An argument that doesn't.
pub open spec fn quiet(a: Seq<char>) -> ArgsView {
    seq![(a, false)]
}

pub open spec fn quiet_pair(a: Seq<char>, b: Seq<char>) -> ArgsView {
    seq![(a, false), (b, false)]
}

pub open spec fn when(on: bool, a: ArgsView) -> ArgsView {
    if on {
        a
    } else {
        Seq::empty()
    }
}

/// The flag before each of the first `k` values.
pub open spec fn pairs_upto(name: Seq<char>, l: Seq<Seq<char>>, k: int) -> ArgsView
    decreases k,
{
    if k <= 0 || k > l.len() {
        Seq::empty()
    } else {
        pairs_upto(name, l, k - 1) + pair(name, l[k - 1])
    }
}

pub open spec fn each(name: Seq<char>, l: Seq<Seq<char>>) -> ArgsView {
    pairs_upto(name, l, l.len() as int)
}

impl Invocation {
    pub(crate) fn pair(&mut self, a: &str, b: &str)
        ensures
            final(self)@ == old(self)@.adding(pair(a@, b@)),
    {
        proof {
            reveal(InvocationView::adding);
        }
        self.arg(a);
        self.arg(b);
        assert(self@.args =~= old(self)@.args + pair(a@, b@));
    }

    pub(crate) fn quiet_pair(&mut self, a: &str, b: &str)
        ensures
            final(self)@ == old(self)@.adding(quiet_pair(a@, b@)),
    {
        proof {
            reveal(InvocationView::adding);
        }
        self.arg_unhashed(a);
        self.arg_unhashed(b);
        assert(self@.args =~= old(self)@.args + quiet_pair(a@, b@));
    }

    pub(crate) fn each(&mut self, name: &str, l: &Vec<String>)
        ensures
            final(self)@ == old(self)@.adding(each(name@, views(l@))),
    {
        proof {
            reveal(InvocationView::adding);
        }
        let ghost all = views(l@);
        let mut k: usize = 0;
        assert(self@.args + pairs_upto(name@, all, 0) =~= self@.args);
        while k < l.len()
            invariant
                k <= l@.len(),
                all == views(l@),
                self@ == old(self)@.adding(pairs_upto(name@, all, k as int)),
            decreases l@.len() - k,
        {
            proof {
                reveal(InvocationView::adding);
            }
            assert(all[k as int] == l@[k as int]@);
            let ghost a = old(self)@.args;
            self.pair(name, l[k].as_str());
            assert(self@.args =~= a + pairs_upto(name@, all, k + 1));
            k += 1;
        }
    }

    /// Nothing where the condition fails.
    pub(crate) fn pair_if(&mut self, on: bool, a: &str, b: &str)
        ensures
            final(self)@ == old(self)@.adding(when(on, pair(a@, b@))),
    {
        proof {
            reveal(InvocationView::adding);
        }
        if on {
            self.pair(a, b);
        } else {
            assert(self@.args + when(on, pair(a@, b@)) =~= self@.args);
        }
    }

    pub(crate) fn flag_if(&mut self, on: bool, a: &str)
        ensures
            final(self)@ == old(self)@.adding(when(on, flag(a@))),
    {
        proof {
            reveal(InvocationView::adding);
        }
        if on {
            self.arg(a);
        } else {
            assert(self@.args + when(on, flag(a@)) =~= self@.args);
        }
    }

    pub(crate) fn args_if(&mut self, on: bool, l: &Vec<String>)
        ensures
            final(self)@ == old(self)@.adding(when(on, counted(views(l@)))),
    {
        proof {
            reveal(InvocationView::adding);
        }
        if on {
            self.args(l);
        } else {
            assert(self@.args + when(on, counted(views(l@))) =~= self@.args);
        }
    }

    pub(crate) fn quiet_if(&mut self, on: bool, a: &str)
        ensures
            final(self)@ == old(self)@.adding(when(on, quiet(a@))),
    {
        proof {
            reveal(InvocationView::adding);
        }
        if on {
            self.arg_unhashed(a);
        } else {
            assert(self@.args + when(on, quiet(a@)) =~= self@.args);
        }
    }
}

pub open spec fn or_empty(o: Option<Seq<char>>) -> Seq<char> {
    match o {
        Some(s) => s,
        None => ""@,
    }
}

fn text_or<'b>(o: &'b Option<String>) -> (r: &'b str)
    ensures
        r@ == or_empty(opt_view(*o)),
{
    match o {
        Some(s) => s.as_str(),
        None => "",
    }
}

/// The first `k` variables, set.
pub open spec fn with_env(iv: InvocationView, l: Seq<(Seq<char>, Seq<char>)>, hashed: bool, k: int) -> InvocationView
    decreases k,
{
    if k <= 0 || k > l.len() {
        iv
    } else {
        with_env(iv, l, hashed, k - 1).setting(l[k - 1].0, l[k - 1].1, hashed)
    }
}

pub open spec fn with_all(iv: InvocationView, l: Seq<(Seq<char>, Seq<char>)>, hashed: bool) -> InvocationView {
    with_env(iv, l, hashed, l.len() as int)
}

pub(crate) fn set_all(inv: &mut Invocation, l: &Vec<(String, String)>, hashed: bool)
    ensures
        final(inv)@ == with_all(old(inv)@, views(l@), hashed),
{
    let ghost all = views(l@);
    let mut k: usize = 0;
    while k < l.len()
        invariant
            k <= l@.len(),
            all == views(l@),
            inv@ == with_env(old(inv)@, all, hashed, k as int),
        decreases l@.len() - k,
    {
        assert(all[k as int] == l@[k as int]@);
        if hashed {
            inv.env(l[k].0.as_str(), l[k].1.as_str());
        } else {
            inv.env_unhashed(l[k].0.as_str(), l[k].1.as_str());
        }
        k += 1;
    }
}

/// The variables that say which package is compiled. A description or README change shouldn't rebuild the
/// world, so those don't count; `env!` shows up in dep-info.
pub open spec fn pkg_vars(iv: InvocationView, ctx: Ctx, p: Pkg) -> InvocationView {
    let iv = iv.setting("CARGO"@, ctx.ws.cargo@, false).setting("CARGO_MANIFEST_DIR"@, p.root@, true).setting(
        "CARGO_MANIFEST_PATH"@,
        p.manifest_path@,
        true,
    ).setting("CARGO_PKG_NAME"@, p.name@, true).setting("CARGO_PKG_VERSION"@, version_text(p.version@), true).setting(
        "CARGO_PKG_VERSION_MAJOR"@,
        dec(p.version.major as nat),
        true,
    ).setting("CARGO_PKG_VERSION_MINOR"@, dec(p.version.minor as nat), true).setting(
        "CARGO_PKG_VERSION_PATCH"@,
        dec(p.version.patch as nat),
        true,
    ).setting("CARGO_PKG_VERSION_PRE"@, p.version.pre@, true).setting(
        "CARGO_PKG_AUTHORS"@,
        joined(views(p.authors@), ":"@),
        false,
    ).setting("CARGO_PKG_DESCRIPTION"@, or_empty(opt_view(p.description)), false).setting(
        "CARGO_PKG_HOMEPAGE"@,
        or_empty(opt_view(p.homepage)),
        false,
    ).setting("CARGO_PKG_REPOSITORY"@, or_empty(opt_view(p.repository)), false).setting(
        "CARGO_PKG_LICENSE"@,
        or_empty(opt_view(p.license)),
        false,
    ).setting("CARGO_PKG_LICENSE_FILE"@, or_empty(opt_view(p.license_file)), false).setting(
        "CARGO_PKG_RUST_VERSION"@,
        or_empty(opt_view(p.rust_version)),
        false,
    ).setting("CARGO_PKG_README"@, or_empty(opt_view(p.readme)), false);
    with_all(iv, views(ctx.env_config@), true)
}

pub fn pkg_env(inv: &mut Invocation, ctx: &Ctx<'_>, pkg: usize)
    requires
        pkg < ctx.pkgs().len(),
    ensures
        final(inv)@ == pkg_vars(old(inv)@, *ctx, ctx.pkgs()[pkg as int]),
{
    let p = &ctx.ws.pkgs[pkg];
    let v = &p.version;
    inv.env_unhashed("CARGO", ctx.ws.cargo.as_str());
    inv.env("CARGO_MANIFEST_DIR", p.root.as_str());
    inv.env("CARGO_MANIFEST_PATH", p.manifest_path.as_str());
    inv.env("CARGO_PKG_NAME", p.name.as_str());
    inv.env("CARGO_PKG_VERSION", v.text().as_str());
    inv.env("CARGO_PKG_VERSION_MAJOR", u64_text(v.major).as_str());
    inv.env("CARGO_PKG_VERSION_MINOR", u64_text(v.minor).as_str());
    inv.env("CARGO_PKG_VERSION_PATCH", u64_text(v.patch).as_str());
    inv.env("CARGO_PKG_VERSION_PRE", v.pre.as_str());
    inv.env_unhashed("CARGO_PKG_AUTHORS", join_texts(&p.authors, ":").as_str());
    inv.env_unhashed("CARGO_PKG_DESCRIPTION", text_or(&p.description));
    inv.env_unhashed("CARGO_PKG_HOMEPAGE", text_or(&p.homepage));
    inv.env_unhashed("CARGO_PKG_REPOSITORY", text_or(&p.repository));
    inv.env_unhashed("CARGO_PKG_LICENSE", text_or(&p.license));
    inv.env_unhashed("CARGO_PKG_LICENSE_FILE", text_or(&p.license_file));
    inv.env_unhashed("CARGO_PKG_RUST_VERSION", text_or(&p.rust_version));
    inv.env_unhashed("CARGO_PKG_README", text_or(&p.readme));
    set_all(inv, ctx.env_config, true);
}

// ---------------------------------------------------------------------------
// What every compiler call has.

/// The source file and the directory that it is named from: a local one from the root of the workspace.
pub open spec fn source_at(ws_root: Seq<char>, p: Pkg, t: Target) -> (Seq<char>, Seq<char>) {
    match relative(t.src_path@, ws_root) {
        Some(rel) => if p.source.local() {
            (rel, ws_root)
        } else {
            (t.src_path@, p.root@)
        },
        None => (t.src_path@, p.root@),
    }
}

pub(crate) fn find_source(ws_root: &str, p: &Pkg, t: &Target) -> (r: (String, String))
    ensures
        (r.0@, r.1@) == source_at(ws_root@, *p, *t),
{
    match strip_prefix(t.src_path.as_str(), ws_root) {
        Some(rel) => if p.source.is_local() {
            (rel, ws_root.to_owned())
        } else {
            (t.src_path.clone(), p.root.clone())
        },
        None => (t.src_path.clone(), p.root.clone()),
    }
}

/// `--cfg` for each feature that is on.
pub open spec fn feature_args(features: Seq<Seq<char>>) -> ArgsView {
    each("--cfg"@, Seq::new(features.len(), |k: int| "feature=\""@ + features[k] + "\""@))
}

pub(crate) fn add_features(inv: &mut Invocation, features: &Vec<String>)
    ensures
        final(inv)@ == old(inv)@.adding(feature_args(views(features@))),
{
    let mut l: Vec<String> = Vec::new();
    let ghost all = Seq::new(views(features@).len(), |k: int| "feature=\""@ + views(features@)[k] + "\""@);
    while l.len() < features.len()
        invariant
            l@.len() <= features@.len(),
            all == Seq::new(views(features@).len(), |k: int| "feature=\""@ + views(features@)[k] + "\""@),
            forall|k: int| 0 <= k < l@.len() ==> #[trigger] l@[k]@ == all[k],
        decreases features@.len() - l@.len(),
    {
        l.push(cat3("feature=\"", features[l.len()].as_str(), "\""));
    }
    assert(views(l@) =~= all);
    inv.each("--cfg", &l);
}

/// The features that the package declares, as rustc checks them.
pub open spec fn feature_values(declared: Seq<Seq<char>>) -> Seq<char> {
    let sorted = in_order::<String>(declared);
    "cfg(feature, values("@ + joined(Seq::new(sorted.len(), |k: int| "\""@ + sorted[k] + "\""@), ", "@) + "))"@
}

fn list_values(declared: &Vec<String>) -> (r: String)
    ensures
        r@ == feature_values(views(declared@)),
{
    let sorted = sort(dup_list(declared));
    let ghost sv = views(sorted@);
    let ghost all = Seq::new(sv.len(), |k: int| "\""@ + sv[k] + "\""@);
    let mut l: Vec<String> = Vec::new();
    while l.len() < sorted.len()
        invariant
            l@.len() <= sorted@.len(),
            sv == views(sorted@),
            all == Seq::new(sv.len(), |k: int| "\""@ + sv[k] + "\""@),
            forall|k: int| 0 <= k < l@.len() ==> #[trigger] l@[k]@ == all[k],
        decreases sorted@.len() - l@.len(),
    {
        l.push(cat3("\"", sorted[l.len()].as_str(), "\""));
    }
    assert(views(l@) =~= all);
    cat3("cfg(feature, values(", join_texts(&l, ", ").as_str(), "))")
}

/// The package's lints, and the cfgs that it may use.
pub open spec fn lint_args(flags: Seq<Seq<char>>, check_cfg: Seq<Seq<char>>, declared: Seq<Seq<char>>) -> ArgsView {
    counted(flags) + pair("--check-cfg"@, "cfg(docsrs,test)"@) + pair("--check-cfg"@, feature_values(declared)) + each(
        "--check-cfg"@,
        check_cfg,
    )
}

fn add_lints(inv: &mut Invocation, lints: &Lints, declared: &Vec<String>)
    ensures
        final(inv)@ == old(inv)@.adding(lint_args(views(lints.flags@), views(lints.check_cfg@), views(declared@))),
{
    proof {
        reveal(InvocationView::adding);
    }
    let ghost a = inv@.args;
    inv.args(&lints.flags);
    inv.pair("--check-cfg", "cfg(docsrs,test)");
    inv.pair("--check-cfg", list_values(declared).as_str());
    inv.each("--check-cfg", &lints.check_cfg);
    assert(inv@.args =~= a + lint_args(views(lints.flags@), views(lints.check_cfg@), views(declared@)));
}

/// The platform, and where libraries lie.
pub open spec fn platform_args(k: KindInfo, host: KindInfo, kind: CompileKind) -> ArgsView {
    (match opt_view(k.target_flag) {
        Some(tf) => pair("--target"@, tf) + when(ends(tf, ".json"@), flag("-Zunstable-options"@)),
        None => Seq::empty(),
    }) + quiet_pair("-L"@, "dependency="@ + k.deps_dir@) + when(
        kind != CompileKind::Host,
        quiet_pair("-L"@, "dependency="@ + host.deps_dir@),
    )
}

fn add_platform(inv: &mut Invocation, k: &KindInfo, host: &KindInfo, kind: CompileKind)
    ensures
        final(inv)@ == old(inv)@.adding(platform_args(*k, *host, kind)),
{
    proof {
        reveal(InvocationView::adding);
    }
    let ghost a = inv@.args;
    if let Some(tf) = &k.target_flag {
        inv.pair("--target", tf.as_str());
        inv.flag_if(ends_with(tf.as_str(), ".json"), "-Zunstable-options");
    }
    inv.quiet_pair("-L", cat("dependency=", k.deps_dir.as_str()).as_str());
    if kind != CompileKind::Host {
        inv.quiet_pair("-L", cat("dependency=", host.deps_dir.as_str()).as_str());
    }
    assert(inv@.args =~= a + platform_args(*k, *host, kind));
}

// ---------------------------------------------------------------------------
// What a unit links.

/// Each dependency is planned, and of a known platform.
pub open spec fn deps_planned(ctx: Ctx, units: Seq<Unit>, planned: Seq<Option<Planned>>, deps: Seq<UnitDep>) -> bool {
    planned.len() == units.len() && forall|k: int|
        0 <= k < deps.len() ==> (#[trigger] deps[k]).unit < units.len() && match planned[deps[k].unit as int] {
            Some(p) => cuts(p.name@, 16),
            None => false,
        } && ctx.knows(units[deps[k].unit as int].kind)
}

/// What `--extern` points at: `.rmeta` when that's enough, otherwise the rlib or proc-macro dylib.
pub open spec fn dep_file(ctx: Ctx, du: Unit, dp: Planned, rmeta_ok: bool) -> Option<Seq<char>> {
    let t = target_of(ctx.pkgs(), du);
    let info = ctx.at(du.kind).info;
    let name16 = head_bytes(dp.name@, 16);
    if t.proc_macro() {
        output_name(ctx.host.info, "proc-macro"@, dp.crate_name@, name16)
    } else if rmeta_ok || du.mode.checks() {
        Some(meta_name(dp.crate_name@, name16))
    } else if views(t.crate_types@).contains("lib"@) || views(t.crate_types@).contains("rlib"@) {
        output_name(info, "rlib"@, dp.crate_name@, name16)
    } else {
        output_name(info, "dylib"@, dp.crate_name@, name16)
    }
}

pub open spec fn dep_path(ctx: Ctx, du: Unit, dp: Planned, rmeta_ok: bool) -> Option<Seq<char>> {
    match dep_file(ctx, du, dp, rmeta_ok) {
        Some(f) => Some(under(ctx.at(du.kind).deps_dir@, f)),
        None => None,
    }
}

pub open spec fn in_ctx(ctx: Ctx, u: Unit) -> bool {
    u.pkg < ctx.pkgs().len() && u.target < ctx.pkgs()[u.pkg as int].targets@.len() && ctx.knows(u.kind)
}

pub fn dep_output_path(ctx: &Ctx<'_>, du: &Unit, dp: &Planned, rmeta_ok: bool) -> (r: Result<String, PlanError>)
    requires
        in_ctx(*ctx, *du),
        cuts(dp.name@, 16),
    ensures
        match r {
            Ok(p) => dep_path(*ctx, *du, *dp, rmeta_ok) == Some(p@),
            Err(PlanError::CrateType { triple, crate_name }) => dep_path(*ctx, *du, *dp, rmeta_ok).is_none() && triple@
                == ctx.at(du.kind).triple@ && crate_name@ == dp.crate_name@,
            Err(_) => false,
        },
{
    let dt = &ctx.ws.pkgs[du.pkg].targets[du.target];
    let dk = ctx.kind(du.kind);
    let name16 = dp.name16();
    let file: Option<String> = if dt.is_proc_macro() {
        output_file(&ctx.host.info, "proc-macro", dp.crate_name.as_str(), name16.as_str())
    } else if rmeta_ok || du.mode.is_check() {
        Some(cat5("lib", dp.crate_name.as_str(), "-", name16.as_str(), ".rmeta"))
    } else if any_is(&dt.crate_types, "lib") || any_is(&dt.crate_types, "rlib") {
        output_file(&dk.info, "rlib", dp.crate_name.as_str(), name16.as_str())
    } else {
        output_file(&dk.info, "dylib", dp.crate_name.as_str(), name16.as_str())
    };
    match file {
        Some(f) => Ok(join(dk.deps_dir.as_str(), f.as_str())),
        None => Err(PlanError::CrateType { triple: dk.triple.clone(), crate_name: dp.crate_name.clone() }),
    }
}

/// Where the bin lands after uplift. Also what `CARGO_BIN_EXE_<name>` points at.
pub open spec fn bin_path(ctx: Ctx, u: Unit) -> Seq<char> {
    let k = ctx.at(u.kind);
    under(
        k.artifact_dir@,
        target_of(ctx.pkgs(), u).name@ + match k.info.named("bin"@) {
            Some((_, suffix)) => suffix,
            None => ""@,
        },
    )
}

pub fn uplifted_bin(ctx: &Ctx<'_>, u: &Unit) -> (r: String)
    requires
        in_ctx(*ctx, *u),
    ensures
        r@ == bin_path(*ctx, *u),
{
    let k = ctx.kind(u.kind);
    let suffix: &str = match k.info.file_type("bin") {
        Some(f) => f.suffix.as_str(),
        None => "",
    };
    let file = cat(ctx.ws.pkgs[u.pkg].targets[u.target].name.as_str(), suffix);
    join(k.artifact_dir.as_str(), file.as_str())
}

/// A name and what it stands for.
#[derive(Debug)]
pub struct Named {
    pub name: String,
    pub path: String,
}

pub type NamedView = (Seq<char>, Seq<char>);

impl View for Named {
    type V = NamedView;

    open spec fn view(&self) -> NamedView {
        (self.name@, self.path@)
    }
}

impl Ranked for Named {
    /// By name, then by what it stands for.
    open spec fn leq(a: NamedView, b: NamedView) -> bool {
        before(a.0, b.0) || (a.0 == b.0 && text_leq(a.1, b.1))
    }

    proof fn lemma_total() {
        let leq = |a: NamedView, b: NamedView| Self::leq(a, b);
        assert forall|x: NamedView, y: NamedView| #[trigger] leq(x, y) && #[trigger] leq(y, x) implies x == y by {
            if x.0 == y.0 {
                lemma_before_irreflexive(x.0);
            } else {
                lemma_before_asymmetric(x.0, y.0);
            }
            if x.1 != y.1 && before(x.1, y.1) {
                lemma_before_asymmetric(x.1, y.1);
            }
        }
        assert forall|x: NamedView, y: NamedView, z: NamedView| #[trigger] leq(x, y) && #[trigger] leq(y, z) implies leq(
            x,
            z,
        ) by {
            if before(x.0, y.0) && before(y.0, z.0) {
                lemma_before_transitive(x.0, y.0, z.0);
            }
            if before(x.1, y.1) && before(y.1, z.1) {
                lemma_before_transitive(x.1, y.1, z.1);
            }
        }
        assert forall|x: NamedView, y: NamedView| #[trigger] leq(x, y) || #[trigger] leq(y, x) by {
            lemma_before_total(x.0, y.0);
            lemma_before_total(x.1, y.1);
        }
    }

    fn not_after(&self, other: &Named) -> (r: bool) {
        proof {
            lemma_before_irreflexive(self.name@);
            lemma_before_irreflexive(self.path@);
            lemma_before_total(self.path@, other.path@);
            if before(self.path@, other.path@) {
                lemma_before_asymmetric(self.path@, other.path@);
            }
        }
        if same(self.name.as_str(), other.name.as_str()) {
            !is_before(other.path.as_str(), self.path.as_str())
        } else {
            is_before(self.name.as_str(), other.name.as_str())
        }
    }
}

/// How a dependency is linked: with its metadata alone where the unit links nothing itself.
pub open spec fn extern_path(
    ctx: Ctx,
    units: Seq<Unit>,
    planned: Seq<Option<Planned>>,
    d: UnitDep,
    doc: bool,
    needs_link: bool,
) -> Option<Seq<char>> {
    let dp = planned[d.unit as int].unwrap();
    dep_path(ctx, units[d.unit as int], dp, doc || (!needs_link && dp.emits_meta))
}

/// The libraries among the first `k` dependencies, where each can be had.
pub open spec fn externs_upto(
    ctx: Ctx,
    units: Seq<Unit>,
    planned: Seq<Option<Planned>>,
    deps: Seq<UnitDep>,
    doc: bool,
    needs_link: bool,
    k: int,
) -> Option<Seq<NamedView>>
    decreases k,
{
    if k <= 0 || k > deps.len() {
        Some(Seq::empty())
    } else {
        match externs_upto(ctx, units, planned, deps, doc, needs_link, k - 1) {
            None => None,
            Some(l) => match deps[k - 1].extern_name {
                None => Some(l),
                Some(n) => match extern_path(ctx, units, planned, deps[k - 1], doc, needs_link) {
                    Some(p) => Some(l.push((n@, p))),
                    None => None,
                },
            },
        }
    }
}

/// The error names the first dependency whose library cannot be had.
pub open spec fn missing_extern(
    ctx: Ctx,
    units: Seq<Unit>,
    planned: Seq<Option<Planned>>,
    deps: Seq<UnitDep>,
    doc: bool,
    needs_link: bool,
    e: PlanError,
) -> bool {
    exists|k: int|
        0 <= k < deps.len() && (#[trigger] deps[k]).extern_name.is_some() && externs_upto(
            ctx,
            units,
            planned,
            deps,
            doc,
            needs_link,
            k,
        ).is_some() && extern_path(ctx, units, planned, deps[k], doc, needs_link).is_none() && match e {
            PlanError::CrateType { triple, crate_name } => triple@ == ctx.at(units[deps[k].unit as int].kind).triple@
                && crate_name@ == planned[deps[k].unit as int].unwrap().crate_name@,
            _ => false,
        }
}

pub(crate) fn list_externs(
    ctx: &Ctx<'_>,
    units: &Vec<Unit>,
    planned: &Vec<Option<Planned>>,
    deps: &Vec<UnitDep>,
    doc: bool,
    needs_link: bool,
) -> (r: Result<Vec<Named>, PlanError>)
    requires
        in_packages(ctx.pkgs(), units@),
        deps_planned(*ctx, units@, planned@, deps@),
    ensures
        match r {
            Ok(l) => externs_upto(*ctx, units@, planned@, deps@, doc, needs_link, deps@.len() as int) == Some(
                views(l@),
            ),
            Err(e) => missing_extern(*ctx, units@, planned@, deps@, doc, needs_link, e) && externs_upto(
                *ctx,
                units@,
                planned@,
                deps@,
                doc,
                needs_link,
                deps@.len() as int,
            ).is_none(),
        },
{
    let mut out: Vec<Named> = Vec::new();
    let mut k: usize = 0;
    assert(views(out@) =~= Seq::<NamedView>::empty());
    while k < deps.len()
        invariant
            k <= deps@.len(),
            in_packages(ctx.pkgs(), units@),
            deps_planned(*ctx, units@, planned@, deps@),
            externs_upto(*ctx, units@, planned@, deps@, doc, needs_link, k as int) == Some(views(out@)),
        decreases deps@.len() - k,
    {
        let d = &deps[k];
        assert(deps@[k as int].unit < units@.len());
        if let Some(name) = &d.extern_name {
            let dp = match &planned[d.unit] {
                Some(p) => p,
                None => {
                    return Err(PlanError::NoScript);
                },
            };
            match dep_output_path(ctx, &units[d.unit], dp, doc || (!needs_link && dp.emits_meta)) {
                Ok(path) => {
                    let ghost before = out@;
                    let n = Named { name: name.clone(), path };
                    let ghost nv = n@;
                    out.push(n);
                    assert(views(out@) =~= views(before).push(nv));
                }
                Err(e) => {
                    proof {
                        assert(externs_upto(*ctx, units@, planned@, deps@, doc, needs_link, k + 1).is_none());
                        lemma_externs_stay(*ctx, units@, planned@, deps@, doc, needs_link, k + 1);
                        assert(missing_extern(*ctx, units@, planned@, deps@, doc, needs_link, e)) by {
                            assert(deps@[k as int].extern_name.is_some());
                        }
                    }
                    return Err(e);
                }
            }
        }
        k += 1;
    }
    Ok(out)
}

proof fn lemma_externs_stay(
    ctx: Ctx,
    units: Seq<Unit>,
    planned: Seq<Option<Planned>>,
    deps: Seq<UnitDep>,
    doc: bool,
    needs_link: bool,
    k: int,
)
    requires
        0 <= k <= deps.len(),
        externs_upto(ctx, units, planned, deps, doc, needs_link, k).is_none(),
    ensures
        externs_upto(ctx, units, planned, deps, doc, needs_link, deps.len() as int).is_none(),
    decreases deps.len() - k,
{
    if k < deps.len() {
        lemma_externs_stay(ctx, units, planned, deps, doc, needs_link, k + 1);
    }
}

/// `--extern` for each library.
pub open spec fn extern_args(l: Seq<NamedView>) -> ArgsView {
    each("--extern"@, Seq::new(l.len(), |k: int| l[k].0 + "="@ + l[k].1))
}

pub(crate) fn add_externs(inv: &mut Invocation, l: &Vec<Named>)
    ensures
        final(inv)@ == old(inv)@.adding(extern_args(views(l@))),
{
    let ghost lv = views(l@);
    let ghost all = Seq::new(lv.len(), |k: int| lv[k].0 + "="@ + lv[k].1);
    let mut texts: Vec<String> = Vec::new();
    while texts.len() < l.len()
        invariant
            texts@.len() <= l@.len(),
            lv == views(l@),
            all == Seq::new(lv.len(), |k: int| lv[k].0 + "="@ + lv[k].1),
            forall|k: int| 0 <= k < texts@.len() ==> #[trigger] texts@[k]@ == all[k],
        decreases l@.len() - texts@.len(),
    {
        let n = &l[texts.len()];
        assert(lv[texts@.len() as int] == n@);
        texts.push(cat3(n.name.as_str(), "=", n.path.as_str()));
    }
    assert(views(texts@) =~= all);
    inv.each("--extern", &texts);
}

/// The executables among the first `k` dependencies, and where they end up.
pub open spec fn exes_upto(ctx: Ctx, units: Seq<Unit>, deps: Seq<UnitDep>, k: int) -> Seq<NamedView>
    decreases k,
{
    if k <= 0 || k > deps.len() {
        Seq::empty()
    } else {
        let before = exes_upto(ctx, units, deps, k - 1);
        let du = units[deps[k - 1].unit as int];
        if deps[k - 1].extern_name.is_none() && du.mode == Mode::Build && target_of(ctx.pkgs(), du).kind
            == TargetKind::Bin {
            before.push(("CARGO_BIN_EXE_"@ + target_of(ctx.pkgs(), du).name@, bin_path(ctx, du)))
        } else {
            before
        }
    }
}

pub(crate) fn list_exes(ctx: &Ctx<'_>, units: &Vec<Unit>, deps: &Vec<UnitDep>, Ghost(planned): Ghost<Seq<Option<Planned>>>) -> (r: Vec<
    (String, String),
>)
    requires
        in_packages(ctx.pkgs(), units@),
        deps_planned(*ctx, units@, planned, deps@),
    ensures
        views(r@) == exes_upto(*ctx, units@, deps@, deps@.len() as int),
{
    let mut out: Vec<(String, String)> = Vec::new();
    let mut k: usize = 0;
    assert(views(out@) =~= Seq::<NamedView>::empty());
    while k < deps.len()
        invariant
            k <= deps@.len(),
            in_packages(ctx.pkgs(), units@),
            deps_planned(*ctx, units@, planned, deps@),
            views(out@) == exes_upto(*ctx, units@, deps@, k as int),
        decreases deps@.len() - k,
    {
        let d = &deps[k];
        assert(deps@[k as int].unit < units@.len());
        let du = &units[d.unit];
        let t = &ctx.ws.pkgs[du.pkg].targets[du.target];
        if d.extern_name.is_none() && du.mode == Mode::Build && t.kind == TargetKind::Bin {
            let ghost before = out@;
            let name = cat("CARGO_BIN_EXE_", t.name.as_str());
            let path = uplifted_bin(ctx, du);
            let ghost nv = (name@, path@);
            out.push((name, path));
            assert(views(out@) =~= views(before).push(nv));
        }
        k += 1;
    }
    out
}

/// The first of the dependencies from `k` on that is the run of the package's build script.
pub open spec fn own_run_at(units: Seq<Unit>, deps: Seq<UnitDep>, pkg: usize, k: int) -> Option<usize>
    decreases deps.len() - k,
{
    if k < 0 || k >= deps.len() {
        None
    } else if units[deps[k].unit as int].mode == Mode::RunCustomBuild && units[deps[k].unit as int].pkg == pkg {
        Some(deps[k].unit)
    } else {
        own_run_at(units, deps, pkg, k + 1)
    }
}

fn find_own_run(
    ctx: &Ctx<'_>,
    units: &Vec<Unit>,
    deps: &Vec<UnitDep>,
    pkg: usize,
    Ghost(planned): Ghost<Seq<Option<Planned>>>,
) -> (r: Option<usize>)
    requires
        deps_planned(*ctx, units@, planned, deps@),
    ensures
        r == own_run_at(units@, deps@, pkg, 0),
        match r {
            Some(d) => d < units@.len() && planned[d as int].is_some(),
            None => true,
        },
{
    let mut k: usize = 0;
    while k < deps.len()
        invariant
            k <= deps@.len(),
            deps_planned(*ctx, units@, planned, deps@),
            own_run_at(units@, deps@, pkg, 0) == own_run_at(units@, deps@, pkg, k as int),
        decreases deps@.len() - k,
    {
        let d: usize = deps[k].unit;
        assert(deps@[k as int].unit < units@.len());
        if units[d].mode == Mode::RunCustomBuild && units[d].pkg == pkg {
            return Some(d);
        }
        k += 1;
    }
    None
}

// ---------------------------------------------------------------------------
// rustc

/// The crate types that rustc is asked for.
pub open spec fn asked_types(t: Target, test: bool) -> Seq<Seq<char>> {
    if !test && (t.kind == TargetKind::Lib || t.kind == TargetKind::Example) {
        views(t.crate_types@)
    } else {
        seq!["bin"@]
    }
}

fn list_types(t: &Target, test: bool) -> (r: Vec<String>)
    ensures
        views(r@) == asked_types(*t, test),
{
    let own: bool = match t.kind {
        TargetKind::Lib | TargetKind::Example => true,
        _ => false,
    };
    if !test && own {
        dup_list(&t.crate_types)
    } else {
        let mut r: Vec<String> = Vec::new();
        r.push("bin".to_owned());
        assert(views(r@) =~= seq!["bin"@]);
        r
    }
}

/// Only libraries that rustc links into others.
pub open spec fn all_rlib(types: Seq<Seq<char>>) -> bool {
    forall|k: int| 0 <= k < types.len() ==> #[trigger] types[k] == "lib"@ || types[k] == "rlib"@
}

/// The metadata is a file of its own. Cargo skips it when there's also a cdylib or staticlib.
pub open spec fn writes_meta(types: Seq<Seq<char>>, test: bool) -> bool {
    !test && (types.contains("lib"@) || types.contains("rlib"@)) && all_rlib(types)
}

pub open spec fn linkable(types: Seq<Seq<char>>) -> bool {
    types.contains("bin"@) || types.contains("dylib"@) || types.contains("cdylib"@) || types.contains("staticlib"@)
}

fn only_rlibs(types: &Vec<String>) -> (r: bool)
    ensures
        r == all_rlib(views(types@)),
{
    let mut k: usize = 0;
    while k < types.len()
        invariant
            k <= types@.len(),
            forall|j: int| 0 <= j < k ==> #[trigger] views(types@)[j] == "lib"@ || views(types@)[j] == "rlib"@,
        decreases types@.len() - k,
    {
        assert(views(types@)[k as int] == types@[k as int]@);
        if !same(types[k].as_str(), "lib") && !same(types[k].as_str(), "rlib") {
            return false;
        }
        k += 1;
    }
    true
}

pub open spec fn head_args(ctx: Ctx, crate_name: Seq<char>, edition: Seq<char>, src: Seq<char>, local: bool) -> ArgsView {
    (match ctx.wrapper {
        Some(_) => quiet(ctx.rustc.path@),
        None => Seq::empty(),
    }) + pair("--crate-name"@, crate_name) + flag("--edition="@ + edition) + flag(src) + when(
        local && ctx.shell@.verbose(),
        quiet("--verbose"@),
    ) + quiet("--error-format=json"@) + quiet("--json="@ + ctx.shell@.json_kinds())
}

fn add_head(inv: &mut Invocation, ctx: &Ctx<'_>, crate_name: &str, edition: &str, src: &str, local: bool)
    ensures
        final(inv)@ == old(inv)@.adding(head_args(*ctx, crate_name@, edition@, src@, local)),
{
    proof {
        reveal(InvocationView::adding);
    }
    let ghost a = inv@.args;
    if ctx.wrapper.is_some() {
        inv.arg_unhashed(ctx.rustc.path.as_str());
    }
    inv.pair("--crate-name", crate_name);
    inv.arg(cat("--edition=", edition).as_str());
    inv.arg(src);
    inv.quiet_if(local && ctx.shell.is_verbose(), "--verbose");
    inv.arg_unhashed("--error-format=json");
    inv.arg_unhashed(cat("--json=", ctx.shell.rustc_json()).as_str());
    assert(inv@.args =~= a + head_args(*ctx, crate_name@, edition@, src@, local));
}

/// A test with or without the harness, or the crate types.
pub open spec fn type_args(test: bool, harness: bool, types: Seq<Seq<char>>) -> ArgsView {
    if test && harness {
        flag("--test"@)
    } else if test {
        pair("--cfg"@, "test"@)
    } else {
        each("--crate-type"@, types)
    }
}

fn add_types(inv: &mut Invocation, test: bool, harness: bool, types: &Vec<String>)
    ensures
        final(inv)@ == old(inv)@.adding(type_args(test, harness, views(types@))),
{
    if test && harness {
        inv.arg("--test");
    } else if test {
        inv.pair("--cfg", "test");
    } else {
        inv.each("--crate-type", types);
    }
}

pub open spec fn emit_arg(check: bool, meta: bool) -> Seq<char> {
    "--emit="@ + if check {
        "dep-info,metadata"@
    } else if meta {
        "dep-info,metadata,link"@
    } else {
        "dep-info,link"@
    }
}

pub open spec fn lto_args(lto: LtoMode, asked: Lto) -> ArgsView {
    match lto {
        LtoMode::Run => pair(
            "-C"@,
            match asked {
                Lto::Thin => "lto=thin"@,
                Lto::Fat => "lto=fat"@,
                _ => "lto"@,
            },
        ),
        LtoMode::Off => pair("-C"@, "lto=off"@),
        LtoMode::ObjectAndBitcode => Seq::empty(),
        LtoMode::OnlyBitcode => pair("-C"@, "linker-plugin-lto"@),
        LtoMode::OnlyObject => pair("-C"@, "embed-bitcode=no"@),
    }
}

fn add_lto(inv: &mut Invocation, lto: LtoMode, asked: Lto)
    ensures
        final(inv)@ == old(inv)@.adding(lto_args(lto, asked)),
{
    proof {
        reveal(InvocationView::adding);
    }
    match lto {
        LtoMode::Run => {
            let value: &str = match asked {
                Lto::Thin => "lto=thin",
                Lto::Fat => "lto=fat",
                _ => "lto",
            };
            inv.pair("-C", value);
        },
        LtoMode::Off => {
            inv.pair("-C", "lto=off");
        },
        LtoMode::ObjectAndBitcode => {
            assert(inv@.args + Seq::<(Seq<char>, bool)>::empty() =~= inv@.args);
        },
        LtoMode::OnlyBitcode => {
            inv.pair("-C", "linker-plugin-lto");
        },
        LtoMode::OnlyObject => {
            inv.pair("-C", "embed-bitcode=no");
        },
    }
}

pub open spec fn codegen_args(prof: Profile, for_host: bool, lto: LtoMode) -> ArgsView {
    when(prof.opt_level@ != "0"@, pair("-C"@, "opt-level="@ + prof.opt_level@)) + when(
        prof.panic@ == "abort"@ && !for_host,
        pair("-C"@, "panic=abort"@),
    ) + lto_args(lto, prof.lto) + match prof.codegen_units {
        Some(n) => pair("-C"@, "codegen-units="@ + dec(n as nat)),
        None => Seq::empty(),
    }
}

fn add_codegen(inv: &mut Invocation, prof: &Profile, for_host: bool, lto: LtoMode)
    ensures
        final(inv)@ == old(inv)@.adding(codegen_args(*prof, for_host, lto)),
{
    proof {
        reveal(InvocationView::adding);
    }
    let ghost a = inv@.args;
    inv.pair_if(!same(prof.opt_level.as_str(), "0"), "-C", cat("opt-level=", prof.opt_level.as_str()).as_str());
    inv.pair_if(same(prof.panic.as_str(), "abort") && !for_host, "-C", "panic=abort");
    add_lto(inv, lto, prof.lto);
    if let Some(n) = prof.codegen_units {
        inv.pair("-C", cat("codegen-units=", u64_text(n as u64).as_str()).as_str());
    }
    assert(inv@.args =~= a + codegen_args(*prof, for_host, lto));
}

pub open spec fn debug_args(prof: Profile, info: TargetInfo) -> ArgsView {
    when(
        prof.debuginfo@ != "0"@,
        pair("-C"@, "debuginfo="@ + prof.debuginfo@) + match opt_view(prof.split_debuginfo) {
            Some(split) => when(
                info.apple || info.value("target_os"@) == Some("linux"@) || split == "packed"@,
                pair("-C"@, "split-debuginfo="@ + split),
            ),
            None => Seq::empty(),
        },
    )
}

fn add_debug(inv: &mut Invocation, prof: &Profile, info: &TargetInfo)
    ensures
        final(inv)@ == old(inv)@.adding(debug_args(*prof, *info)),
{
    proof {
        reveal(InvocationView::adding);
    }
    let ghost a = inv@.args;
    if prof.debuginfo_on() {
        inv.pair("-C", cat("debuginfo=", prof.debuginfo.as_str()).as_str());
        if let Some(split) = &prof.split_debuginfo {
            let linux: bool = match info.cfg_value("target_os") {
                Some(os) => same(os, "linux"),
                None => false,
            };
            inv.pair_if(
                info.apple || linux || same(split.as_str(), "packed"),
                "-C",
                cat("split-debuginfo=", split.as_str()).as_str(),
            );
        }
    }
    assert(inv@.args =~= a + debug_args(*prof, *info));
}

/// What rustc would not do by itself at that level of optimization.
pub open spec fn check_args(opt0: bool, debug_assertions: bool, overflow_checks: bool) -> ArgsView {
    when(debug_assertions && !opt0, pair("-C"@, "debug-assertions=on"@)) + when(
        !debug_assertions && opt0,
        pair("-C"@, "debug-assertions=off"@),
    ) + when(!overflow_checks && debug_assertions, pair("-C"@, "overflow-checks=off"@)) + when(
        overflow_checks && !debug_assertions,
        pair("-C"@, "overflow-checks=on"@),
    )
}

fn add_checks(inv: &mut Invocation, opt0: bool, debug_assertions: bool, overflow_checks: bool)
    ensures
        final(inv)@ == old(inv)@.adding(check_args(opt0, debug_assertions, overflow_checks)),
{
    proof {
        reveal(InvocationView::adding);
    }
    let ghost a = inv@.args;
    if !opt0 {
        if debug_assertions {
            inv.pair("-C", "debug-assertions=on");
            inv.pair_if(!overflow_checks, "-C", "overflow-checks=off");
        } else {
            inv.pair_if(overflow_checks, "-C", "overflow-checks=on");
        }
    } else if !debug_assertions {
        inv.pair("-C", "debug-assertions=off");
        inv.pair_if(overflow_checks, "-C", "overflow-checks=on");
    } else {
        inv.pair_if(!overflow_checks, "-C", "overflow-checks=off");
    }
    assert(inv@.args =~= a + check_args(opt0, debug_assertions, overflow_checks));
}

/// The code generator: the profile's, or the configured one for `dev` on a nightly compiler.
pub open spec fn backend_for(ctx: Ctx, prof: Profile) -> Option<Seq<char>> {
    match opt_view(prof.codegen_backend) {
        Some(b) => Some(b),
        None => if ctx.rustc.nightly && prof.name@ == "dev"@ {
            opt_view(ctx.codegen_backend)
        } else {
            None
        },
    }
}

pub open spec fn link_args(ctx: Ctx, prof: Profile, dynamic: bool) -> ArgsView {
    (match opt_view(prof.strip) {
        Some(strip) => pair("-C"@, "strip="@ + strip),
        None => Seq::empty(),
    }) + when(prof.rpath, pair("-C"@, "rpath"@)) + when(dynamic, pair("-C"@, "prefer-dynamic"@)) + match backend_for(
        ctx,
        prof,
    ) {
        Some(b) => when(b != "llvm"@, flag("-Zcodegen-backend="@ + b)),
        None => Seq::empty(),
    }
}

fn add_link(inv: &mut Invocation, ctx: &Ctx<'_>, prof: &Profile, dynamic: bool)
    ensures
        final(inv)@ == old(inv)@.adding(link_args(*ctx, *prof, dynamic)),
{
    proof {
        reveal(InvocationView::adding);
    }
    let ghost a = inv@.args;
    if let Some(strip) = &prof.strip {
        inv.pair("-C", cat("strip=", strip.as_str()).as_str());
    }
    inv.pair_if(prof.rpath, "-C", "rpath");
    inv.pair_if(dynamic, "-C", "prefer-dynamic");
    let backend: Option<String> = match &prof.codegen_backend {
        Some(b) => Some(b.clone()),
        None => if ctx.rustc.nightly && same(prof.name.as_str(), "dev") {
            dup_text(&ctx.codegen_backend)
        } else {
            None
        },
    };
    assert(opt_view(backend) == backend_for(*ctx, *prof));
    if let Some(b) = &backend {
        inv.flag_if(!same(b.as_str(), "llvm"), cat("-Zcodegen-backend=", b.as_str()).as_str());
    }
    assert(inv@.args =~= a + link_args(*ctx, *prof, dynamic));
}

/// Where the files go. cargo's `-C metadata` is a u64: the full name is 64 hex chars and would land in
/// every symbol. One incremental dir per unit, so a variant nobody uses can be swept.
pub open spec fn output_args(k: KindInfo, crate_name: Seq<char>, out_dir: Seq<char>, incremental: bool) -> ArgsView {
    pair("-C"@, "metadata="@ + SELF_NAME16@) + pair("-C"@, "extra-filename=-"@ + SELF_NAME16@) + quiet_pair(
        "--out-dir"@,
        out_dir,
    ) + when(
        incremental,
        quiet_pair("-C"@, "incremental="@ + under(k.incremental_dir@, crate_name + "-"@ + SELF_NAME16@)),
    )
}

fn add_output(inv: &mut Invocation, k: &KindInfo, crate_name: &str, out_dir: &str, incremental: bool)
    ensures
        final(inv)@ == old(inv)@.adding(output_args(*k, crate_name@, out_dir@, incremental)),
{
    proof {
        reveal(InvocationView::adding);
    }
    let ghost a = inv@.args;
    inv.pair("-C", cat("metadata=", SELF_NAME16).as_str());
    inv.pair("-C", cat("extra-filename=-", SELF_NAME16).as_str());
    inv.quiet_pair("--out-dir", out_dir);
    if incremental {
        let dir = join(k.incremental_dir.as_str(), cat3(crate_name, "-", SELF_NAME16).as_str());
        inv.quiet_pair("-C", cat("incremental=", dir.as_str()).as_str());
    }
    assert(inv@.args =~= a + output_args(*k, crate_name@, out_dir@, incremental));
}

/// Dependencies' warnings are nobody's business here, nor is where they lie.
pub open spec fn foreign_args(ctx: Ctx, p: Pkg) -> ArgsView {
    pair("--cap-lints"@, "allow"@) + match up(p.root@) {
        Some(parent) => when(ctx.remap_deps, flag("--remap-path-prefix="@ + parent + "=/rust/deps"@)),
        None => Seq::empty(),
    }
}

fn add_foreign(inv: &mut Invocation, ctx: &Ctx<'_>, p: &Pkg, foreign: bool)
    ensures
        final(inv)@ == old(inv)@.adding(when(foreign, foreign_args(*ctx, *p))),
{
    proof {
        reveal(InvocationView::adding);
    }
    let ghost a = inv@.args;
    if foreign {
        inv.pair("--cap-lints", "allow");
        if let Some(dir) = parent(p.root.as_str()) {
            inv.flag_if(ctx.remap_deps, cat3("--remap-path-prefix=", dir.as_str(), "=/rust/deps").as_str());
        }
    }
    assert(inv@.args =~= a + when(foreign, foreign_args(*ctx, *p)));
}

/// The linker, and the flags that were configured.
pub open spec fn user_args(ctx: Ctx, k: KindInfo, prof: Profile) -> ArgsView {
    (match opt_view(k.linker) {
        Some(l) => pair("-C"@, "linker="@ + l),
        None => Seq::empty(),
    }) + counted(views(k.user_rustflags@)) + counted(views(ctx.std_rustc@)) + counted(views(k.cross.rustflags@))
        + counted(views(prof.rustflags@))
}

fn add_user(inv: &mut Invocation, ctx: &Ctx<'_>, k: &KindInfo, prof: &Profile)
    ensures
        final(inv)@ == old(inv)@.adding(user_args(*ctx, *k, *prof)),
{
    proof {
        reveal(InvocationView::adding);
    }
    let ghost a = inv@.args;
    if let Some(l) = &k.linker {
        inv.pair("-C", cat("linker=", l.as_str()).as_str());
    }
    inv.args(&k.user_rustflags);
    inv.args(ctx.std_rustc);
    inv.args(&k.cross.rustflags);
    inv.args(&prof.rustflags);
    assert(inv@.args =~= a + user_args(*ctx, *k, *prof));
}

/// What the profile adds to a compile call.
pub open spec fn profiled(iv: InvocationView, ctx: Ctx, u: Unit, lto: LtoMode, dynamic: bool) -> InvocationView {
    iv.adding(codegen_args(u.profile, u.for_host, lto)).adding(debug_args(u.profile, ctx.at(u.kind).info)).adding(
        check_args(u.profile.opt_level@ == "0"@, u.profile.debug_assertions, u.profile.overflow_checks),
    ).adding(link_args(ctx, u.profile, dynamic))
}

/// A compile call apart from its environment.
pub open spec fn compiled(
    iv: InvocationView,
    ctx: Ctx,
    u: Unit,
    lints: Lints,
    lto: LtoMode,
    externs: Seq<NamedView>,
) -> InvocationView {
    let p = ctx.pkgs()[u.pkg as int];
    let t = target_of(ctx.pkgs(), u);
    let k = ctx.at(u.kind);
    let crate_name = swapped(t.name@, '-', '_');
    let local = p.source.local();
    let test = u.mode.tests();
    let types = asked_types(t, test);
    let script = t.kind == TargetKind::BuildScript;
    let iv = iv.adding(head_args(ctx, crate_name, t.edition@, source_at(ctx.ws.root@, p, t).0, local)).adding(
        type_args(test, t.harness, types),
    ).adding(flag(emit_arg(u.mode.checks(), writes_meta(types, test))));
    let iv = profiled(iv, ctx, u, lto, t.proc_macro() || types.contains("dylib"@));
    iv.adding(feature_args(views(u.features@))).adding(
        lint_args(views(lints.flags@), views(lints.check_cfg@), views(p.declared_features@)),
    ).adding(output_args(k, crate_name, compile_dir(ctx, u), u.profile.incremental && local)).adding(
        platform_args(k, *ctx.host, u.kind),
    ).adding(extern_args(in_order::<Named>(externs))).adding(when(t.proc_macro(), pair("--extern"@, "proc_macro"@))).adding(
        when(!local, foreign_args(ctx, p)),
    ).adding(user_args(ctx, k, u.profile)).adding(
        when(!script && ctx.primary@.contains(u.pkg), counted(views(ctx.extra_rustc@))),
    ).adding(when(!script && !t.proc_macro(), counted(views(ctx.std_externs@))))
}

/// Build scripts get a directory of their own.
pub open spec fn compile_dir(ctx: Ctx, u: Unit) -> Seq<char> {
    let k = ctx.at(u.kind);
    if target_of(ctx.pkgs(), u).kind == TargetKind::BuildScript {
        under(k.build_dir@, ctx.pkgs()[u.pkg as int].name@ + "-"@ + SELF_NAME16@)
    } else {
        k.deps_dir@
    }
}

/// The environment of a compile call.
pub open spec fn compile_env(iv: InvocationView, ctx: Ctx, u: Unit, units: Seq<Unit>, planned: Seq<Option<Planned>>) -> InvocationView {
    let p = ctx.pkgs()[u.pkg as int];
    let t = target_of(ctx.pkgs(), u);
    let k = ctx.at(u.kind);
    let iv = with_all(iv, views(k.cross.rustc_env@), false);
    let iv = pkg_vars(iv, ctx, p).setting("CARGO_CRATE_NAME"@, swapped(t.name@, '-', '_'), true);
    let iv = if t.kind == TargetKind::Bin {
        iv.setting("CARGO_BIN_NAME"@, t.name@, true)
    } else {
        iv
    };
    let iv = with_all(iv, exes_upto(ctx, units, u.deps@, u.deps@.len() as int), true);
    let iv = if t.kind == TargetKind::Test || t.kind == TargetKind::Bench {
        iv.setting("CARGO_TARGET_TMPDIR"@, under(ctx.layout.target_dir@, "tmp"@), true)
    } else {
        iv
    };
    let iv = if ctx.primary@.contains(u.pkg) && p.is_member {
        iv.setting("CARGO_PRIMARY_PACKAGE"@, "1"@, false)
    } else {
        iv
    };
    with_out_dir(iv, units, planned, u)
}

/// `OUT_DIR` is that of the package's build script.
pub open spec fn with_out_dir(iv: InvocationView, units: Seq<Unit>, planned: Seq<Option<Planned>>, u: Unit) -> InvocationView {
    match own_run_at(units, u.deps@, u.pkg, 0) {
        Some(r) => iv.setting("OUT_DIR"@, under(planned[r as int].unwrap().out_dir@, "out"@), false),
        None => iv,
    }
}

/// What is compiled, in a word.
pub open spec fn description(t: Target, test: bool) -> Seq<char> {
    match t.kind {
        TargetKind::Lib => if test {
            "(lib test)"@
        } else if t.proc_macro() {
            "(proc-macro)"@
        } else {
            "(lib)"@
        },
        TargetKind::Bin => if test {
            "(bin test)"@
        } else {
            "(bin)"@
        },
        TargetKind::Example => "(example)"@,
        TargetKind::Test => "(test)"@,
        TargetKind::Bench => "(bench)"@,
        TargetKind::BuildScript => "(build script)"@,
    }
}

fn describe(t: &Target, test: bool) -> (r: &'static str)
    ensures
        r@ == description(*t, test),
{
    match t.kind {
        TargetKind::Lib => if test {
            "(lib test)"
        } else if t.is_proc_macro() {
            "(proc-macro)"
        } else {
            "(lib)"
        },
        TargetKind::Bin => if test {
            "(bin test)"
        } else {
            "(bin)"
        },
        TargetKind::Example => "(example)",
        TargetKind::Test => "(test)",
        TargetKind::Bench => "(bench)",
        TargetKind::BuildScript => "(build script)",
    }
}

/// rustc, or what wraps it, in its directory.
pub open spec fn compile_start(ctx: Ctx, cwd: Seq<char>) -> InvocationView {
    InvocationView {
        program: match opt_view(ctx.wrapper) {
            Some(w) => w,
            None => ctx.rustc.path@,
        },
        args: Seq::empty(),
        env: Map::empty(),
        cwd,
        path_prepend: Seq::empty(),
    }
}

/// The unit needs full upstream rlibs, not just metadata.
pub open spec fn must_link(ctx: Ctx, u: Unit) -> bool {
    let t = target_of(ctx.pkgs(), u);
    !u.mode.checks() && (linkable(asked_types(t, u.mode.tests())) || t.proc_macro())
}

/// The plan of a compile call, up to its name and key.
pub open spec fn compile_plan(
    ctx: Ctx,
    u: Unit,
    units: Seq<Unit>,
    planned: Seq<Option<Planned>>,
    lints: Lints,
    lto: LtoMode,
    externs: Seq<NamedView>,
) -> PlannedView {
    let p = ctx.pkgs()[u.pkg as int];
    let t = target_of(ctx.pkgs(), u);
    let k = ctx.at(u.kind);
    let test = u.mode.tests();
    let iv = compiled(compile_start(ctx, source_at(ctx.ws.root@, p, t).1), ctx, u, lints, lto, externs);
    PlannedView {
        key: ""@,
        name: ""@,
        input_digest: ""@,
        inv: compile_env(InvocationView { path_prepend: views(k.cross.path_prepend@), ..iv }, ctx, u, units, planned),
        out_dir: compile_dir(ctx, u),
        crate_name: swapped(t.name@, '-', '_'),
        descr: description(t, test),
        bin_name: if (t.kind == TargetKind::Bin || t.kind == TargetKind::Example) && !test {
            Some(t.name@)
        } else {
            None
        },
        own_run: own_run_at(units, u.deps@, u.pkg, 0),
        to_link: Seq::empty(),
        lib_reqs: Seq::empty(),
        needs_link: must_link(ctx, u),
        emits_meta: u.mode.checks() || writes_meta(asked_types(t, test), test),
        cacheable: true,
    }
}

/// The profile's part of a compile call.
fn add_profile(inv: &mut Invocation, ctx: &Ctx<'_>, u: &Unit, lto: LtoMode, dynamic: bool)
    requires
        ctx.knows(u.kind),
    ensures
        final(inv)@ == profiled(old(inv)@, *ctx, *u, lto, dynamic),
{
    let prof = &u.profile;
    add_codegen(inv, prof, u.for_host, lto);
    add_debug(inv, prof, &ctx.kind(u.kind).info);
    add_checks(inv, same(prof.opt_level.as_str(), "0"), prof.debug_assertions, prof.overflow_checks);
    add_link(inv, ctx, prof, dynamic);
}

fn set_out_dir(inv: &mut Invocation, own_run: Option<usize>, planned: &Vec<Option<Planned>>, Ghost(u): Ghost<Unit>, Ghost(units): Ghost<Seq<Unit>>)
    requires
        own_run == own_run_at(units, u.deps@, u.pkg, 0),
        match own_run {
            Some(d) => d < planned@.len() && planned@[d as int].is_some(),
            None => true,
        },
    ensures
        final(inv)@ == with_out_dir(old(inv)@, units, planned@, u),
{
    if let Some(r) = own_run {
        if let Some(rp) = &planned[r] {
            inv.env_unhashed("OUT_DIR", rp.out_dir_path().as_str());
        }
    }
}

fn set_compile_env(
    inv: &mut Invocation,
    ctx: &Ctx<'_>,
    u: &Unit,
    units: &Vec<Unit>,
    planned: &Vec<Option<Planned>>,
    own_run: Option<usize>,
)
    requires
        in_ctx(*ctx, *u),
        in_packages(ctx.pkgs(), units@),
        deps_planned(*ctx, units@, planned@, u.deps@),
        own_run == own_run_at(units@, u.deps@, u.pkg, 0),
        match own_run {
            Some(d) => d < planned@.len() && planned@[d as int].is_some(),
            None => true,
        },
    ensures
        final(inv)@ == compile_env(old(inv)@, *ctx, *u, units@, planned@),
{
    let p = &ctx.ws.pkgs[u.pkg];
    let t = &p.targets[u.target];
    let k = ctx.kind(u.kind);
    set_all(inv, &k.cross.rustc_env, false);
    pkg_env(inv, ctx, u.pkg);
    inv.env("CARGO_CRATE_NAME", t.crate_name().as_str());
    if t.kind == TargetKind::Bin {
        inv.env("CARGO_BIN_NAME", t.name.as_str());
    }
    let exes = list_exes(ctx, units, &u.deps, Ghost(planned@));
    set_all(inv, &exes, true);
    if t.kind == TargetKind::Test || t.kind == TargetKind::Bench {
        inv.env("CARGO_TARGET_TMPDIR", join(ctx.layout.target_dir.as_str(), "tmp").as_str());
    }
    if has(ctx.primary, u.pkg) && p.is_member {
        inv.env_unhashed("CARGO_PRIMARY_PACKAGE", "1");
    }
    set_out_dir(inv, own_run, planned, Ghost(*u), Ghost(units@));
}

fn add_compile(
    inv: &mut Invocation,
    ctx: &Ctx<'_>,
    u: &Unit,
    lints: &Lints,
    lto: LtoMode,
    externs: Vec<Named>,
    out_dir: &str,
    src: &str,
)
    requires
        in_ctx(*ctx, *u),
        out_dir@ == compile_dir(*ctx, *u),
        src@ == source_at(ctx.ws.root@, ctx.pkgs()[u.pkg as int], target_of(ctx.pkgs(), *u)).0,
    ensures
        final(inv)@ == compiled(old(inv)@, *ctx, *u, *lints, lto, views(externs@)),
{
    let p = &ctx.ws.pkgs[u.pkg];
    let t = &p.targets[u.target];
    let k = ctx.kind(u.kind);
    let crate_name = t.crate_name();
    let local: bool = p.source.is_local();
    let test: bool = u.mode.is_test();
    let types = list_types(t, test);
    let proc_macro: bool = t.is_proc_macro();
    let script: bool = t.kind == TargetKind::BuildScript;
    let meta: bool = !test && (any_is(&types, "lib") || any_is(&types, "rlib")) && only_rlibs(&types);
    add_head(inv, ctx, crate_name.as_str(), t.edition.as_str(), src, local);
    add_types(inv, test, t.harness, &types);
    let emit: &str = if u.mode.is_check() {
        "dep-info,metadata"
    } else if meta {
        "dep-info,metadata,link"
    } else {
        "dep-info,link"
    };
    inv.arg(cat("--emit=", emit).as_str());
    add_profile(inv, ctx, u, lto, proc_macro || any_is(&types, "dylib"));
    add_features(inv, &u.features);
    add_lints(inv, lints, &p.declared_features);
    add_output(inv, k, crate_name.as_str(), out_dir, u.profile.incremental && local);
    add_platform(inv, k, ctx.host, u.kind);
    let externs = sort(externs);
    add_externs(inv, &externs);
    inv.pair_if(proc_macro, "--extern", "proc_macro");
    add_foreign(inv, ctx, p, !local);
    add_user(inv, ctx, k, &u.profile);
    inv.args_if(!script && has(ctx.primary, u.pkg), ctx.extra_rustc);
    inv.args_if(!script && !proc_macro, ctx.std_externs);
}

/// The rustc call that compiles the unit.
pub fn plan_compile(
    ctx: &Ctx<'_>,
    ui: usize,
    units: &Vec<Unit>,
    planned: &Vec<Option<Planned>>,
    lints: &Lints,
    lto: LtoMode,
) -> (r: Result<Planned, PlanError>)
    requires
        ui < units@.len(),
        in_ctx(*ctx, units@[ui as int]),
        in_packages(ctx.pkgs(), units@),
        deps_planned(*ctx, units@, planned@, units@[ui as int].deps@),
    ensures
        ({
            let u = units@[ui as int];
            let externs = externs_upto(*ctx, units@, planned@, u.deps@, false, must_link(*ctx, u), u.deps@.len() as int);
            match r {
                Ok(p) => externs.is_some() && p@ == compile_plan(*ctx, u, units@, planned@, *lints, lto, externs.unwrap()),
                Err(e) => externs.is_none() && missing_extern(
                    *ctx,
                    units@,
                    planned@,
                    u.deps@,
                    false,
                    must_link(*ctx, u),
                    e,
                ),
            }
        }),
{
    let u = &units[ui];
    let p = &ctx.ws.pkgs[u.pkg];
    let t = &p.targets[u.target];
    let k = ctx.kind(u.kind);
    let test: bool = u.mode.is_test();
    let check: bool = u.mode.is_check();
    let types = list_types(t, test);
    let meta: bool = !test && (any_is(&types, "lib") || any_is(&types, "rlib")) && only_rlibs(&types);
    let links: bool = any_is(&types, "bin") || any_is(&types, "dylib") || any_is(&types, "cdylib") || any_is(
        &types,
        "staticlib",
    );
    let needs_link: bool = !check && (links || t.is_proc_macro());
    let (src, cwd) = find_source(ctx.ws.root.as_str(), p, t);
    let program: &str = match &ctx.wrapper {
        Some(w) => w.as_str(),
        None => ctx.rustc.path.as_str(),
    };
    let mut inv = Invocation::new(program, cwd.as_str());
    let out_dir: String = if t.kind == TargetKind::BuildScript {
        join(k.build_dir.as_str(), cat3(p.name.as_str(), "-", SELF_NAME16).as_str())
    } else {
        k.deps_dir.clone()
    };
    let externs = match list_externs(ctx, units, planned, &u.deps, false, needs_link) {
        Ok(l) => l,
        Err(e) => return Err(e),
    };
    let ghost ev = views(externs@);
    add_compile(&mut inv, ctx, u, lints, lto, externs, out_dir.as_str(), src.as_str());
    let ghost iv = inv@;
    inv.path_prepend = dup_list(&k.cross.path_prepend);
    assert(inv@ == (InvocationView { path_prepend: views(k.cross.path_prepend@), ..iv }));
    let own_run = find_own_run(ctx, units, &u.deps, u.pkg, Ghost(planned@));
    set_compile_env(&mut inv, ctx, u, units, planned, own_run);
    let named: bool = t.kind == TargetKind::Bin || t.kind == TargetKind::Example;
    let bin_name: Option<String> = if named && !test {
        Some(t.name.clone())
    } else {
        None
    };
    proof {
        reveal_strlit("");
        assert(""@ =~= Seq::<char>::empty());
    }
    Ok(
        Planned {
            key: String::new(),
            name: String::new(),
            input_digest: String::new(),
            inv,
            out_dir,
            crate_name: t.crate_name(),
            descr: describe(t, test),
            bin_name,
            own_run,
            to_link: Vec::new(),
            lib_reqs: Vec::new(),
            needs_link,
            emits_meta: check || meta,
            cacheable: true,
        },
    )
}

// ---------------------------------------------------------------------------
// rustdoc

/// `--extern` texts in their order.
pub open spec fn doc_externs(l: Seq<NamedView>) -> Seq<Seq<char>> {
    in_order::<String>(Seq::new(l.len(), |k: int| l[k].0 + "="@ + l[k].1))
}

fn add_doc_externs(inv: &mut Invocation, l: &Vec<Named>)
    ensures
        final(inv)@ == old(inv)@.adding(each("--extern"@, doc_externs(views(l@)))),
{
    let ghost lv = views(l@);
    let ghost all = Seq::new(lv.len(), |k: int| lv[k].0 + "="@ + lv[k].1);
    let mut texts: Vec<String> = Vec::new();
    while texts.len() < l.len()
        invariant
            texts@.len() <= l@.len(),
            lv == views(l@),
            all == Seq::new(lv.len(), |k: int| lv[k].0 + "="@ + lv[k].1),
            forall|k: int| 0 <= k < texts@.len() ==> #[trigger] texts@[k]@ == all[k],
        decreases l@.len() - texts@.len(),
    {
        let n = &l[texts.len()];
        assert(lv[texts@.len() as int] == n@);
        texts.push(cat3(n.name.as_str(), "=", n.path.as_str()));
    }
    assert(views(texts@) =~= all);
    let texts = sort(texts);
    inv.each("--extern", &texts);
}

pub open spec fn doc_head(ctx: Ctx, t: Target, src: Seq<char>, doc_dir: Seq<char>) -> ArgsView {
    flag("--edition="@ + t.edition@) + each(
        "--crate-type"@,
        if t.kind == TargetKind::Lib {
            views(t.crate_types@)
        } else {
            seq!["bin"@]
        },
    ) + pair("--crate-name"@, swapped(t.name@, '-', '_')) + flag(src) + quiet_pair("-o"@, doc_dir) + quiet(
        "--error-format=json"@,
    ) + when(ctx.shell@.color, quiet("--json=diagnostic-rendered-ansi"@))
}

fn add_doc_head(inv: &mut Invocation, ctx: &Ctx<'_>, t: &Target, src: &str, doc_dir: &str)
    ensures
        final(inv)@ == old(inv)@.adding(doc_head(*ctx, *t, src@, doc_dir@)),
{
    proof {
        reveal(InvocationView::adding);
    }
    let ghost a = inv@.args;
    inv.arg(cat("--edition=", t.edition.as_str()).as_str());
    if t.kind == TargetKind::Lib {
        inv.each("--crate-type", &t.crate_types);
    } else {
        let mut bin: Vec<String> = Vec::new();
        bin.push("bin".to_owned());
        assert(views(bin@) =~= seq!["bin"@]);
        inv.each("--crate-type", &bin);
    }
    inv.pair("--crate-name", t.crate_name().as_str());
    inv.arg(src);
    inv.quiet_pair("-o", doc_dir);
    inv.arg_unhashed("--error-format=json");
    inv.quiet_if(ctx.shell.color(), "--json=diagnostic-rendered-ansi");
    assert(inv@.args =~= a + doc_head(*ctx, *t, src@, doc_dir@));
}

/// The documentation of all crates for a platform is one tree.
pub open spec fn doc_tree(ctx: Ctx, u: Unit) -> Seq<char> {
    let k = ctx.at(u.kind);
    under(
        if k.target_flag.is_some() {
            under(ctx.layout.target_dir@, k.triple@)
        } else {
            ctx.layout.target_dir@
        },
        "doc"@,
    )
}

/// A rustdoc call apart from its environment.
pub open spec fn documented(
    iv: InvocationView,
    ctx: Ctx,
    u: Unit,
    lints: Lints,
    externs: Seq<NamedView>,
) -> InvocationView {
    let p = ctx.pkgs()[u.pkg as int];
    let t = target_of(ctx.pkgs(), u);
    let k = ctx.at(u.kind);
    iv.adding(doc_head(ctx, t, source_at(ctx.ws.root@, p, t).0, doc_tree(ctx, u))).adding(
        feature_args(views(u.features@)),
    ).adding(lint_args(views(lints.flags@), views(lints.check_cfg@), views(p.declared_features@))).adding(
        quiet_pair("-C"@, "metadata="@ + SELF_NAME16@),
    ).adding(platform_args(k, *ctx.host, u.kind)).adding(each("--extern"@, doc_externs(externs))).adding(
        when(t.proc_macro(), pair("--extern"@, "proc_macro"@)),
    ).adding(pair("--crate-version"@, version_text(p.version@))).adding(
        when(!p.source.local(), pair("--cap-lints"@, "allow"@)),
    ).adding(
        when(t.kind == TargetKind::Bin, pair("--document-private-items"@, "-Arustdoc::private-intra-doc-links"@)),
    ).adding(when(ctx.primary@.contains(u.pkg), counted(views(ctx.extra_rustdoc@))))
}

/// The tool beside the compiler.
pub open spec fn rustdoc_path(ctx: Ctx) -> Seq<char> {
    renamed(ctx.rustc.path@, "rustdoc"@ + ctx.exe_suffix@)
}

pub(crate) fn find_rustdoc(ctx: &Ctx<'_>) -> (r: String)
    ensures
        r@ == rustdoc_path(*ctx),
{
    with_file_name(ctx.rustc.path.as_str(), cat("rustdoc", ctx.exe_suffix.as_str()).as_str())
}

/// The plan of a rustdoc call, up to its name and key.
pub open spec fn doc_plan(
    ctx: Ctx,
    u: Unit,
    units: Seq<Unit>,
    planned: Seq<Option<Planned>>,
    lints: Lints,
    externs: Seq<NamedView>,
) -> PlannedView {
    let p = ctx.pkgs()[u.pkg as int];
    let t = target_of(ctx.pkgs(), u);
    let start = InvocationView {
        program: rustdoc_path(ctx),
        args: Seq::empty(),
        env: Map::empty(),
        cwd: source_at(ctx.ws.root@, p, t).1,
        path_prepend: Seq::empty(),
    };
    let iv = documented(start, ctx, u, lints, externs);
    PlannedView {
        key: ""@,
        name: ""@,
        input_digest: ""@,
        inv: with_out_dir(
            pkg_vars(iv, ctx, p).setting("CARGO_CRATE_NAME"@, swapped(t.name@, '-', '_'), true),
            units,
            planned,
            u,
        ),
        out_dir: doc_tree(ctx, u),
        crate_name: swapped(t.name@, '-', '_'),
        descr: "(doc)"@,
        bin_name: None,
        own_run: own_run_at(units, u.deps@, u.pkg, 0),
        to_link: Seq::empty(),
        lib_reqs: Seq::empty(),
        needs_link: false,
        emits_meta: false,
        cacheable: false,
    }
}

/// The rustdoc call that documents the unit. One doc tree for every crate: it stays in the project.
pub fn plan_doc(ctx: &Ctx<'_>, ui: usize, units: &Vec<Unit>, planned: &Vec<Option<Planned>>, lints: &Lints) -> (r: Result<
    Planned,
    PlanError,
>)
    requires
        ui < units@.len(),
        in_ctx(*ctx, units@[ui as int]),
        in_packages(ctx.pkgs(), units@),
        deps_planned(*ctx, units@, planned@, units@[ui as int].deps@),
    ensures
        ({
            let u = units@[ui as int];
            let externs = externs_upto(*ctx, units@, planned@, u.deps@, true, false, u.deps@.len() as int);
            match r {
                Ok(p) => externs.is_some() && p@ == doc_plan(*ctx, u, units@, planned@, *lints, externs.unwrap()),
                Err(e) => externs.is_none() && missing_extern(*ctx, units@, planned@, u.deps@, true, false, e),
            }
        }),
{
    let u = &units[ui];
    let p = &ctx.ws.pkgs[u.pkg];
    let t = &p.targets[u.target];
    let k = ctx.kind(u.kind);
    let (src, cwd) = find_source(ctx.ws.root.as_str(), p, t);
    let mut inv = Invocation::new(find_rustdoc(ctx).as_str(), cwd.as_str());
    let triple: Option<&str> = match &k.target_flag {
        Some(_) => Some(k.triple.as_str()),
        None => None,
    };
    let doc_dir = ctx.layout.doc_dir(triple);
    assert(doc_dir@ == doc_tree(*ctx, *u));
    let externs = match list_externs(ctx, units, planned, &u.deps, true, false) {
        Ok(l) => l,
        Err(e) => return Err(e),
    };
    add_doc_head(&mut inv, ctx, t, src.as_str(), doc_dir.as_str());
    add_features(&mut inv, &u.features);
    add_lints(&mut inv, lints, &p.declared_features);
    inv.quiet_pair("-C", cat("metadata=", SELF_NAME16).as_str());
    add_platform(&mut inv, k, ctx.host, u.kind);
    add_doc_externs(&mut inv, &externs);
    inv.pair_if(t.is_proc_macro(), "--extern", "proc_macro");
    inv.pair("--crate-version", p.version.text().as_str());
    inv.pair_if(!p.source.is_local(), "--cap-lints", "allow");
    inv.pair_if(t.kind == TargetKind::Bin, "--document-private-items", "-Arustdoc::private-intra-doc-links");
    inv.args_if(has(ctx.primary, u.pkg), ctx.extra_rustdoc);
    pkg_env(&mut inv, ctx, u.pkg);
    inv.env("CARGO_CRATE_NAME", t.crate_name().as_str());
    let own_run = find_own_run(ctx, units, &u.deps, u.pkg, Ghost(planned@));
    set_out_dir(&mut inv, own_run, planned, Ghost(*u), Ghost(units@));
    proof {
        reveal_strlit("");
        assert(""@ =~= Seq::<char>::empty());
    }
    Ok(
        Planned {
            key: String::new(),
            name: String::new(),
            input_digest: String::new(),
            inv,
            out_dir: doc_dir,
            crate_name: t.crate_name(),
            descr: "(doc)",
            bin_name: None,
            own_run,
            to_link: Vec::new(),
            lib_reqs: Vec::new(),
            needs_link: false,
            emits_meta: false,
            cacheable: false,
        },
    )
}

// ---------------------------------------------------------------------------
// Build scripts

/// The variable that tells a build script of a cfg.
pub open spec fn cfg_var(key: Seq<char>) -> Seq<char> {
    "CARGO_CFG_"@ + uppercase(key)
}

/// The cfg is one that build scripts hear of.
pub open spec fn told(fact: (Seq<char>, Option<Seq<char>>)) -> bool {
    fact.0 != "debug_assertions"@ && fact.0 != "feature"@
}

/// The values that the first `k` facts have for the variable.
pub open spec fn values_for(l: Seq<(Seq<char>, Option<Seq<char>>)>, name: Seq<char>, k: int) -> Seq<Seq<char>>
    decreases k,
{
    if k <= 0 || k > l.len() {
        Seq::empty()
    } else if told(l[k - 1]) && cfg_var(l[k - 1].0) == name && l[k - 1].1.is_some() {
        values_for(l, name, k - 1).push(l[k - 1].1.unwrap())
    } else {
        values_for(l, name, k - 1)
    }
}

/// One of the first `k` facts is behind the variable.
pub open spec fn has_cfg(l: Seq<(Seq<char>, Option<Seq<char>>)>, name: Seq<char>, k: int) -> bool {
    exists|j: int| 0 <= j < k && told(#[trigger] l[j]) && cfg_var(l[j].0) == name
}

/// The variables that tell of the platform: each cfg with its values.
pub open spec fn cfg_vars(l: Seq<(Seq<char>, Option<Seq<char>>)>, debug_assertions: bool) -> Map<Seq<char>, Seq<char>> {
    Map::new(
        |n: Seq<char>| has_cfg(l, n, l.len() as int) || (debug_assertions && n == "CARGO_CFG_DEBUG_ASSERTIONS"@),
        |n: Seq<char>|
            if debug_assertions && n == "CARGO_CFG_DEBUG_ASSERTIONS"@ {
                ""@
            } else {
                joined(values_for(l, n, l.len() as int), ","@)
            },
    )
}

fn list_values_for(cfg: &Vec<(String, Option<String>)>, name: &str) -> (r: Vec<String>)
    ensures
        views(r@) == values_for(facts(cfg@), name@, cfg@.len() as int),
{
    let ghost l = facts(cfg@);
    let mut r: Vec<String> = Vec::new();
    let mut k: usize = 0;
    assert(views(r@) =~= Seq::<Seq<char>>::empty());
    while k < cfg.len()
        invariant
            k <= cfg@.len(),
            l == facts(cfg@),
            views(r@) == values_for(l, name@, k as int),
        decreases cfg@.len() - k,
    {
        assert(l[k as int] == (cfg@[k as int].0@, opt_view(cfg@[k as int].1)));
        let key = cfg[k].0.as_str();
        if !same(key, "debug_assertions") && !same(key, "feature") {
            let var = cat("CARGO_CFG_", to_upper(key).as_str());
            if same(var.as_str(), name) {
                if let Some(v) = &cfg[k].1 {
                    let ghost before = r@;
                    r.push(v.clone());
                    assert(views(r@) =~= views(before).push(v@));
                }
            }
        }
        k += 1;
    }
    r
}

pub open spec fn text_map(m: Map<Seq<char>, String>) -> Map<Seq<char>, Seq<char>> {
    Map::new(|k: Seq<char>| m.contains_key(k), |k: Seq<char>| m[k]@)
}

pub fn cfg_env(info: &TargetInfo, debug_assertions: bool) -> (r: StrMap<String>)
    ensures
        text_map(r@) == cfg_vars(facts(info.cfg@), debug_assertions),
{
    let ghost l = facts(info.cfg@);
    let mut m: StrMap<String> = StrMap::new();
    let mut k: usize = 0;
    while k < info.cfg.len()
        invariant
            k <= info.cfg@.len(),
            l == facts(info.cfg@),
            forall|n: Seq<char>| #[trigger] m@.contains_key(n) == has_cfg(l, n, k as int),
            forall|n: Seq<char>| #[trigger] m@.contains_key(n) ==> m@[n]@ == joined(values_for(l, n, l.len() as int), ","@),
        decreases info.cfg@.len() - k,
    {
        assert(l[k as int] == (info.cfg@[k as int].0@, opt_view(info.cfg@[k as int].1)));
        let key = info.cfg[k].0.as_str();
        let ghost before = m@;
        if !same(key, "debug_assertions") && !same(key, "feature") {
            let var = cat("CARGO_CFG_", to_upper(key).as_str());
            let values = list_values_for(&info.cfg, var.as_str());
            m.insert(var.as_str(), join_texts(&values, ","));
        }
        proof {
            assert forall|n: Seq<char>| #[trigger] m@.contains_key(n) == has_cfg(l, n, k + 1) by {
                if before.contains_key(n) {
                    assert(has_cfg(l, n, k as int));
                }
                if told(l[k as int]) && cfg_var(l[k as int].0) == n {
                    assert(has_cfg(l, n, k + 1));
                }
            }
        }
        k += 1;
    }
    proof {
        reveal_strlit("");
        assert(""@ =~= Seq::<char>::empty());
    }
    if debug_assertions {
        m.insert("CARGO_CFG_DEBUG_ASSERTIONS", String::new());
    }
    assert(text_map(m@) =~= cfg_vars(l, debug_assertions));
    m
}

/// All of the variables, set.
pub open spec fn with_map(iv: InvocationView, m: Map<Seq<char>, Seq<char>>) -> InvocationView {
    InvocationView {
        env: Map::new(
            |k: Seq<char>| iv.env.contains_key(k) || m.contains_key(k),
            |k: Seq<char>|
                if m.contains_key(k) {
                    (m[k], true)
                } else {
                    iv.env[k]
                },
        ),
        ..iv
    }
}

fn set_map(inv: &mut Invocation, m: &StrMap<String>)
    ensures
        final(inv)@ == with_map(old(inv)@, text_map(m@)),
{
    proof {
        reveal(InvocationView::setting);
    }
    let names = m.keys();
    let ghost ns = views(names@);
    let ghost e0 = inv@.env;
    let mut k: usize = 0;
    while k < names.len()
        invariant
            k <= names@.len(),
            ns == views(names@),
            ns.to_set() == m@.dom(),
            e0 == old(inv)@.env,
            inv@ == (InvocationView { env: inv@.env, ..old(inv)@ }),
            forall|n: Seq<char>|
                #[trigger] inv@.env.contains_key(n) == (e0.contains_key(n) || ns.take(k as int).contains(n)),
            forall|n: Seq<char>|
                #[trigger] inv@.env.contains_key(n) ==> inv@.env[n] == if ns.take(k as int).contains(n) {
                    (m@[n]@, true)
                } else {
                    e0[n]
                },
        decreases names@.len() - k,
    {
        proof {
            reveal(InvocationView::setting);
        }
        assert(ns[k as int] == names@[k as int]@);
        assert(ns.to_set().contains(ns[k as int]));
        let ghost before = inv@.env;
        if let Some(v) = m.get(names[k].as_str()) {
            inv.env(names[k].as_str(), v.as_str());
        }
        proof {
            let t = ns.take(k + 1);
            assert(t[k as int] == ns[k as int]);
            assert forall|n: Seq<char>| t.contains(n) == (ns.take(k as int).contains(n) || n == ns[k as int]) by {
                if ns.take(k as int).contains(n) {
                    let j = choose|j: int| 0 <= j < k && ns.take(k as int)[j] == n;
                    assert(t[j] == n);
                }
                if t.contains(n) {
                    let j = choose|j: int| 0 <= j < k + 1 && t[j] == n;
                    if j < k {
                        assert(ns.take(k as int)[j] == n);
                    }
                }
            }
        }
        k += 1;
    }
    proof {
        assert(ns.take(ns.len() as int) =~= ns);
        assert forall|n: Seq<char>| ns.contains(n) == m@.contains_key(n) by {
            assert(ns.to_set().contains(n) == ns.contains(n));
        }
        assert(inv@.env =~= with_map(old(inv)@, text_map(m@)).env);
    }
}

/// `CARGO_FEATURE_<NAME>` for each feature that is on.
pub open spec fn feature_vars(features: Seq<Seq<char>>) -> Seq<(Seq<char>, Seq<char>)> {
    Seq::new(features.len(), |k: int| ("CARGO_FEATURE_"@ + swapped(uppercase(features[k]), '-', '_'), "1"@))
}

fn list_feature_vars(features: &Vec<String>) -> (r: Vec<(String, String)>)
    ensures
        views(r@) == feature_vars(views(features@)),
{
    let ghost all = feature_vars(views(features@));
    let mut r: Vec<(String, String)> = Vec::new();
    while r.len() < features.len()
        invariant
            r@.len() <= features@.len(),
            all == feature_vars(views(features@)),
            forall|k: int| 0 <= k < r@.len() ==> (#[trigger] r@[k])@ == all[k],
        decreases features@.len() - r@.len(),
    {
        let f = features[r.len()].as_str();
        assert(views(features@)[r@.len() as int] == f@);
        r.push((cat("CARGO_FEATURE_", env_name(f).as_str()), "1".to_owned()));
    }
    assert(views(r@) =~= all);
    r
}

/// The first of the dependencies from `k` on that is the package's compiled build script.
pub open spec fn script_unit_at(units: Seq<Unit>, deps: Seq<UnitDep>, pkg: usize, k: int) -> Option<usize>
    decreases deps.len() - k,
{
    if k < 0 || k >= deps.len() {
        None
    } else if units[deps[k].unit as int].mode != Mode::RunCustomBuild && units[deps[k].unit as int].pkg == pkg {
        Some(deps[k].unit)
    } else {
        script_unit_at(units, deps, pkg, k + 1)
    }
}

fn find_script(
    ctx: &Ctx<'_>,
    units: &Vec<Unit>,
    deps: &Vec<UnitDep>,
    pkg: usize,
    Ghost(planned): Ghost<Seq<Option<Planned>>>,
) -> (r: Option<usize>)
    requires
        deps_planned(*ctx, units@, planned, deps@),
    ensures
        r == script_unit_at(units@, deps@, pkg, 0),
        match r {
            Some(d) => d < units@.len() && planned[d as int].is_some() && cuts(planned[d as int].unwrap().name@, 16),
            None => true,
        },
{
    let mut k: usize = 0;
    while k < deps.len()
        invariant
            k <= deps@.len(),
            deps_planned(*ctx, units@, planned, deps@),
            script_unit_at(units@, deps@, pkg, 0) == script_unit_at(units@, deps@, pkg, k as int),
        decreases deps@.len() - k,
    {
        let d: usize = deps[k].unit;
        assert(deps@[k as int].unit < units@.len());
        if units[d].mode != Mode::RunCustomBuild && units[d].pkg == pkg {
            return Some(d);
        }
        k += 1;
    }
    None
}

/// The directory of a build script's run.
pub open spec fn run_dir(ctx: Ctx, u: Unit) -> Seq<char> {
    under(ctx.at(u.kind).build_dir@, ctx.pkgs()[u.pkg as int].name@ + "-"@ + SELF_NAME16@)
}

/// What a build script is told.
pub open spec fn run_vars(iv: InvocationView, ctx: Ctx, u: Unit) -> InvocationView {
    let p = ctx.pkgs()[u.pkg as int];
    let k = ctx.at(u.kind);
    let prof = u.profile;
    let iv = pkg_vars(iv, ctx, p);
    let iv = match opt_view(p.links) {
        Some(l) => iv.setting("CARGO_MANIFEST_LINKS"@, l, true),
        None => iv,
    };
    let iv = with_all(iv, feature_vars(views(u.features@)), true);
    let iv = with_map(iv, cfg_vars(facts(k.info.cfg@), prof.debug_assertions));
    let iv = iv.setting("OUT_DIR"@, under(run_dir(ctx, u), "out"@), false).setting("TARGET"@, k.triple@, true).setting(
        "HOST"@,
        ctx.rustc.host@,
        true,
    ).setting("NUM_JOBS"@, dec(ctx.jobs as nat), false).setting("OPT_LEVEL"@, prof.opt_level@, true).setting(
        "DEBUG"@,
        if prof.debuginfo@ != "0"@ {
            "true"@
        } else {
            "false"@
        },
        true,
    ).setting(
        "PROFILE"@,
        if prof.root@ == "release"@ {
            "release"@
        } else {
            "debug"@
        },
        true,
    ).setting("RUSTC"@, ctx.rustc.path@, false).setting("RUSTDOC"@, rustdoc_path(ctx), false);
    let iv = match opt_view(k.linker) {
        Some(l) => iv.setting("RUSTC_LINKER"@, l, true),
        None => iv,
    };
    let iv = iv.setting(
        "CARGO_ENCODED_RUSTFLAGS"@,
        joined(views(k.user_rustflags@) + views(k.cross.rustflags@), "\x1f"@),
        true,
    );
    with_all(iv, views(k.cross.env@), true)
}

/// The plan of a build script's run, up to its name and key.
pub open spec fn run_plan(ctx: Ctx, u: Unit, script: Planned) -> PlannedView {
    let p = ctx.pkgs()[u.pkg as int];
    let k = ctx.at(u.kind);
    let start = InvocationView {
        program: under(script.out_dir@, script.crate_name@ + "-"@ + head_bytes(script.name@, 16) + ctx.exe_suffix@),
        args: Seq::empty(),
        env: Map::empty(),
        cwd: p.root@,
        path_prepend: Seq::empty(),
    };
    PlannedView {
        key: ""@,
        name: ""@,
        input_digest: ""@,
        inv: InvocationView { path_prepend: views(k.cross.path_prepend@), ..run_vars(start, ctx, u) },
        out_dir: run_dir(ctx, u),
        crate_name: script.crate_name@,
        descr: "(build script run)"@,
        bin_name: None,
        own_run: None,
        to_link: Seq::empty(),
        lib_reqs: Seq::empty(),
        needs_link: false,
        emits_meta: false,
        cacheable: ctx.cache_build_scripts && !ctx.no_cache_build_scripts@.contains(p.name@),
    }
}

fn set_run_vars(inv: &mut Invocation, ctx: &Ctx<'_>, u: &Unit, out_dir: &str)
    requires
        in_ctx(*ctx, *u),
        out_dir@ == run_dir(*ctx, *u),
    ensures
        final(inv)@ == run_vars(old(inv)@, *ctx, *u),
{
    let p = &ctx.ws.pkgs[u.pkg];
    let k = ctx.kind(u.kind);
    let prof = &u.profile;
    pkg_env(inv, ctx, u.pkg);
    if let Some(links) = &p.links {
        inv.env("CARGO_MANIFEST_LINKS", links.as_str());
    }
    let features = list_feature_vars(&u.features);
    set_all(inv, &features, true);
    let cfg = cfg_env(&k.info, prof.debug_assertions);
    set_map(inv, &cfg);
    inv.env_unhashed("OUT_DIR", join(out_dir, "out").as_str());
    inv.env("TARGET", k.triple.as_str());
    inv.env("HOST", ctx.rustc.host.as_str());
    inv.env_unhashed("NUM_JOBS", usize_text(ctx.jobs).as_str());
    inv.env("OPT_LEVEL", prof.opt_level.as_str());
    let debug: &str = if prof.debuginfo_on() {
        "true"
    } else {
        "false"
    };
    inv.env("DEBUG", debug);
    let profile: &str = if same(prof.root.as_str(), "release") {
        "release"
    } else {
        "debug"
    };
    inv.env("PROFILE", profile);
    inv.env_unhashed("RUSTC", ctx.rustc.path.as_str());
    inv.env_unhashed("RUSTDOC", find_rustdoc(ctx).as_str());
    if let Some(l) = &k.linker {
        inv.env("RUSTC_LINKER", l.as_str());
    }
    let encoded = crate::profile::join_lists(dup_list(&k.user_rustflags), &k.cross.rustflags);
    assert(views(encoded@) =~= views(k.user_rustflags@) + views(k.cross.rustflags@));
    inv.env("CARGO_ENCODED_RUSTFLAGS", join_texts(&encoded, "\x1f").as_str());
    set_all(inv, &k.cross.env, true);
}

/// The run of the package's build script.
pub fn plan_run(ctx: &Ctx<'_>, ui: usize, units: &Vec<Unit>, planned: &Vec<Option<Planned>>) -> (r: Result<Planned, PlanError>)
    requires
        ui < units@.len(),
        in_ctx(*ctx, units@[ui as int]),
        deps_planned(*ctx, units@, planned@, units@[ui as int].deps@),
    ensures
        ({
            let u = units@[ui as int];
            match (script_unit_at(units@, u.deps@, u.pkg, 0), r) {
                (Some(s), Ok(p)) => p@ == run_plan(*ctx, u, planned@[s as int].unwrap()),
                (None, Err(PlanError::NoScript)) => true,
                _ => false,
            }
        }),
{
    let u = &units[ui];
    let p = &ctx.ws.pkgs[u.pkg];
    let k = ctx.kind(u.kind);
    let script = match find_script(ctx, units, &u.deps, u.pkg, Ghost(planned@)) {
        Some(s) => s,
        None => return Err(PlanError::NoScript),
    };
    let sp = match &planned[script] {
        Some(sp) => sp,
        None => return Err(PlanError::NoScript),
    };
    let file = cat4(sp.crate_name.as_str(), "-", sp.name16().as_str(), ctx.exe_suffix.as_str());
    let out_dir = join(k.build_dir.as_str(), cat3(p.name.as_str(), "-", SELF_NAME16).as_str());
    let mut inv = Invocation::new(join(sp.out_dir.as_str(), file.as_str()).as_str(), p.root.as_str());
    set_run_vars(&mut inv, ctx, u, out_dir.as_str());
    let ghost iv = inv@;
    inv.path_prepend = dup_list(&k.cross.path_prepend);
    assert(inv@ == (InvocationView { path_prepend: views(k.cross.path_prepend@), ..iv }));
    let barred: bool = ctx.no_cache_build_scripts.contains(p.name.as_str());
    proof {
        reveal_strlit("");
        assert(""@ =~= Seq::<char>::empty());
    }
    Ok(
        Planned {
            key: String::new(),
            name: String::new(),
            input_digest: String::new(),
            inv,
            out_dir,
            crate_name: sp.crate_name.clone(),
            descr: "(build script run)",
            bin_name: None,
            own_run: None,
            to_link: Vec::new(),
            lib_reqs: Vec::new(),
            needs_link: false,
            emits_meta: false,
            cacheable: ctx.cache_build_scripts && !barred,
        },
    )
}

} // verus!
