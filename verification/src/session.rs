//! The course of a build: what is settled before units are run, which of them are wanted, and what follows.

use vstd::prelude::*;
use crate::commands::CrossToolchain;
use crate::commands::KindInfo;
use crate::commands::Planned;
use crate::commands::TargetInfo;
use crate::gc::GcOptions;
use crate::layout::Layout;
use crate::manifest::TargetKind;
use crate::num::dec;
use crate::num::parse_u64;
use crate::num::u64_of;
use crate::num::usize_text;
use crate::path::base_name;
use crate::path::file_stem;
use crate::path::join;
use crate::path::stem_of;
use crate::path::under;
use crate::plan::in_packages;
use crate::profile::dup_list;
use crate::schedule::Status;
use crate::schedule::all_planned;
use crate::state::ProjectState;
use crate::state::StateView;
use crate::store::LinkKind;
use crate::store::LinkMode;
use crate::strmap::StrSet;
use crate::text::cat3;
use crate::text::cat5;
use crate::text::ends;
use crate::text::ends_with;
use crate::text::same;
use crate::text::same_list;
use crate::text::starts;
use crate::text::starts_with;
use crate::text::views;
use crate::unit::Command;
use crate::unit::Mode;
use crate::unit::Unit;
use crate::unit::UnitGraph;
use crate::workspace::Pkg;

verus! {

// ---------------------------------------------------------------------------
// Before units are planned.

/// The name of the profile that a command builds with.
pub open spec fn profile_for(given: Option<Seq<char>>, release: bool, command: Command) -> Seq<char> {
    match given {
        Some(p) => p,
        None => if command is Bench {
            "bench"@
        } else if release {
            "release"@
        } else if command is Test {
            "test"@
        } else {
            "dev"@
        },
    }
}

pub fn profile_name(given: Option<&str>, release: bool, command: Command) -> (r: String)
    ensures
        r@ == profile_for(crate::invocation::opt_text(given), release, command),
{
    match given {
        Some(p) => p.to_owned(),
        None => match command {
            Command::Bench => "bench".to_owned(),
            _ => if release {
                "release".to_owned()
            } else {
                match command {
                    Command::Test => "test".to_owned(),
                    _ => "dev".to_owned(),
                }
            },
        },
    }
}

/// Whether the lockfile may not be written, and whether there is no net. `--frozen` is both; `configured` is what the
/// settings say about the net.
pub fn restrictions(locked: bool, offline: bool, frozen: bool, configured: bool) -> (r: (bool, bool))
    ensures
        r.0 == (locked || frozen),
        r.1 == (offline || frozen || configured),
{
    (locked || frozen, offline || frozen || configured)
}

/// What is done with the program that wraps the compiler.
#[derive(Clone, Copy, Debug, PartialEq, Eq, Structural)]
pub enum Wrapper {
    Use,
    /// The store already caches every unit.
    SkipCache,
    /// It is turned off.
    Off,
}

pub open spec fn wrapper_use(w: Seq<char>) -> Wrapper {
    if base_name(w) matches Some(n) && stem_of(n) == "sccache"@ {
        Wrapper::SkipCache
    } else if w.len() == 0 {
        Wrapper::Off
    } else {
        Wrapper::Use
    }
}

pub fn wrapper(w: &str) -> (r: Wrapper)
    ensures
        r == wrapper_use(w@),
{
    let cache: bool = match file_stem(w) {
        Some(s) => same(s.as_str(), "sccache"),
        None => false,
    };
    if cache {
        Wrapper::SkipCache
    } else if w.is_empty() {
        Wrapper::Off
    } else {
        Wrapper::Use
    }
}

/// Whether the targets can be asked for: files that describe one need their flag.
pub fn targets_allowed(targets: &Vec<String>, json_target_spec: bool) -> (r: bool)
    ensures
        r == (json_target_spec || forall|i: int| 0 <= i < targets@.len() ==> !ends(#[trigger] targets@[i]@, ".json"@)),
{
    let mut k: usize = 0;
    while k < targets.len()
        invariant
            k <= targets@.len(),
            forall|i: int| 0 <= i < k ==> !ends(#[trigger] targets@[i]@, ".json"@),
        decreases targets@.len() - k,
    {
        if ends_with(targets[k].as_str(), ".json") {
            return json_target_spec;
        }
        k += 1;
    }
    true
}

/// The directory that a build writes to: the one that is asked for, the one that is configured, or the workspace's own.
pub open spec fn dir_for(given: Option<Seq<char>>, cwd: Seq<char>, configured: Option<Seq<char>>, own: Seq<char>) -> Seq<char> {
    match given {
        Some(p) => under(cwd, p),
        None => match configured {
            Some(d) => d,
            None => own,
        },
    }
}

pub fn target_dir(given: Option<&str>, cwd: &str, configured: Option<&str>, own: &str) -> (r: String)
    ensures
        r@ == dir_for(crate::invocation::opt_text(given), cwd@, crate::invocation::opt_text(configured), own@),
{
    match given {
        Some(p) => join(cwd, p),
        None => match configured {
            Some(d) => d.to_owned(),
            None => own.to_owned(),
        },
    }
}

/// How files get from the store to the project. `probed` is the best strategy that works, where there is a store.
pub fn link_mode(asked: Option<LinkMode>, configured: LinkMode, probed: Option<LinkKind>) -> (r: LinkMode)
    ensures
        ({
            let m = match asked {
                Some(m) => m,
                None => configured,
            };
            r == if m is Auto {
                match probed {
                    Some(k) => k.mode(),
                    None => LinkMode::Copy,
                }
            } else {
                m
            }
        }),
{
    let m = match asked {
        Some(m) => m,
        None => configured,
    };
    match m {
        LinkMode::Auto => match probed {
            Some(k) => k.as_mode(),
            None => LinkMode::Copy,
        },
        _ => m,
    }
}

/// Whether code is generated by the backend. `there` is whether the toolchain has it.
pub fn backend_works(backend: &str, nightly: bool, there: bool) -> (r: bool)
    ensures
        r == (backend@ == "llvm"@ || (nightly && there)),
{
    same(backend, "llvm") || (nightly && there)
}

/// What is said of a backend that the toolchain does not have.
pub fn backend_note(backend: &str, release: &str) -> (r: String)
    ensures
        r@ == "codegen backend `"@ + backend@ + "` is not available for "@ + release@
            + " (install it with `rustup component add rustc-codegen-"@ + backend@ + "-preview` on nightly); using LLVM"@,
{
    let head = cat5(
        "codegen backend `",
        backend,
        "` is not available for ",
        release,
        " (install it with `rustup component add rustc-codegen-",
    );
    cat3(head.as_str(), backend, "-preview` on nightly); using LLVM")
}

// ---------------------------------------------------------------------------
// Flags and facts of a platform.

/// The arguments with which the compiler is asked about a platform.
pub open spec fn asked_with(flags: Seq<Seq<char>>, extra: Seq<Seq<char>>, target: Option<Seq<char>>) -> Seq<Seq<char>> {
    if target matches Some(t) && ends(t, ".json"@) {
        (flags + extra).push("-Zunstable-options"@)
    } else {
        flags + extra
    }
}

pub fn query_args(flags: &Vec<String>, extra: &Vec<String>, target: Option<&str>) -> (r: Vec<String>)
    ensures
        views(r@) == asked_with(views(flags@), views(extra@), crate::invocation::opt_text(target)),
{
    let mut out = dup_list(flags);
    let more = dup_list(extra);
    let mut k: usize = 0;
    while k < more.len()
        invariant
            k <= more@.len(),
            more@ == extra@,
            views(out@) == views(flags@) + views(extra@).take(k as int),
        decreases more@.len() - k,
    {
        let ghost was = views(out@);
        out.push(more[k].clone());
        assert(views(out@) =~= was.push(extra@[k as int]@));
        assert(views(extra@).take(k + 1) =~= views(extra@).take(k as int).push(views(extra@)[k as int]));
        k += 1;
        assert(views(out@) =~= views(flags@) + views(extra@).take(k as int));
    }
    assert(views(extra@).take(k as int) =~= views(extra@));
    if let Some(t) = target {
        if ends_with(t, ".json") {
            let ghost was = views(out@);
            out.push("-Zunstable-options".to_owned());
            assert(views(out@) =~= was.push("-Zunstable-options"@));
        }
    }
    out
}

/// Flags under `cfg()` depend on the facts of the platform, which depend on the flags. The compiler is asked once more
/// where such a table adds any. `plain` are the flags without those tables, `with_facts` with them.
pub fn asks_again(has_cfg_targets: bool, plain: &Vec<String>, with_facts: &Vec<String>) -> (r: bool)
    ensures
        r == (has_cfg_targets && views(plain@) != views(with_facts@)),
{
    has_cfg_targets && !same_list(plain, with_facts)
}

/// What is settled about a platform before units are planned for it.
pub struct KindParts {
    pub name: String,
    pub triple: String,
    /// What the compiler is told, where it is told anything.
    pub target_flag: Option<String>,
    pub info: TargetInfo,
    pub rustflags: Vec<String>,
    pub cross: CrossToolchain,
    /// The linker that is configured.
    pub linker: Option<String>,
    /// The linker that the toolchain for the platform comes with.
    pub cross_linker: Option<String>,
    pub runner: Option<Vec<String>>,
}

/// A platform that units are compiled for, with its directories.
pub fn kind_info(p: KindParts, layout: &Layout) -> (r: KindInfo)
    ensures
        r.name == p.name,
        r.triple == p.triple,
        r.target_flag == p.target_flag,
        r.info == p.info,
        r.user_rustflags == p.rustflags,
        r.cross == p.cross,
        r.runner == p.runner,
        r.linker == (if p.linker.is_some() {
            p.linker
        } else {
            p.cross_linker
        }),
        r.deps_dir@ == under(layout.dir_of(p.name@), "deps"@),
        r.build_dir@ == under(layout.dir_of(p.name@), "build"@),
        r.incremental_dir@ == under(layout.dir_of(p.name@), "incremental"@),
        r.artifact_dir@ == under(
            if p.target_flag.is_some() {
                under(layout.target_dir@, p.triple@)
            } else {
                layout.target_dir@
            },
            layout.profile_dir@,
        ),
{
    let deps_dir = layout.deps(p.name.as_str());
    let build_dir = layout.build(p.name.as_str());
    let incremental_dir = layout.incremental(p.name.as_str());
    let artifact_dir = if p.target_flag.is_some() {
        layout.artifact_dir(Some(p.triple.as_str()))
    } else {
        layout.artifact_dir(None)
    };
    let linker = if p.linker.is_some() {
        p.linker
    } else {
        p.cross_linker
    };
    KindInfo {
        name: p.name,
        triple: p.triple,
        target_flag: p.target_flag,
        info: p.info,
        user_rustflags: p.rustflags,
        linker,
        cross: p.cross,
        deps_dir,
        build_dir,
        incremental_dir,
        artifact_dir,
        runner: p.runner,
    }
}

// ---------------------------------------------------------------------------
// What is wanted.

/// What is known of a unit before anything is run.
#[derive(Clone, Copy, Debug)]
pub struct Facts {
    /// Every output of the last build is still there.
    pub outputs: bool,
    /// The directory of its build script is there.
    pub out_dir: bool,
    /// The inputs that the last build found are what they were.
    pub inputs: bool,
    /// The store has an entry that serves it.
    pub stored: bool,
}

/// Whether a unit has to be compiled. Its files are its own only while its key owns their name.
pub open spec fn status_from(s: StateView, name: Seq<char>, key: Seq<char>, script: bool, f: Facts) -> Status {
    if s.units.contains_key(key) && s.slots.contains_key(name) && s.slots[name] == key && f.outputs && (!script || f.out_dir)
        && f.inputs {
        Status::Fresh
    } else if f.stored {
        Status::Cached
    } else {
        Status::Miss
    }
}

pub fn status_of(state: &ProjectState, p: &Planned, mode: Mode, f: Facts) -> (r: Status)
    ensures
        r == status_from(state@, p.name@, p.key@, mode is RunCustomBuild, f),
{
    let script: bool = mode == Mode::RunCustomBuild;
    if state.units.has(p.key.as_str()) && state.owns(p.name.as_str(), p.key.as_str()) && f.outputs && (!script || f.out_dir)
        && f.inputs {
        Status::Fresh
    } else if f.stored {
        Status::Cached
    } else {
        Status::Miss
    }
}

/// The unit is a program that tests may start.
pub open spec fn builds_bin(pkgs: Seq<Pkg>, u: Unit) -> bool {
    u.mode is Build && pkgs[u.pkg as int].targets@[u.target as int].kind is Bin
}

pub fn is_bin_build(pkgs: &Vec<Pkg>, u: &Unit) -> (r: bool)
    requires
        u.pkg < pkgs@.len(),
        u.target < pkgs@[u.pkg as int].targets@.len(),
    ensures
        r == builds_bin(pkgs@, *u),
{
    u.mode == Mode::Build && pkgs[u.pkg].targets[u.target].kind == TargetKind::Bin
}

/// The units of a graph fit together.
pub open spec fn fits(pkgs: Seq<Pkg>, g: UnitGraph, planned: Seq<Planned>) -> bool {
    &&& all_planned(g.units@, planned)
    &&& in_packages(pkgs, g.units@)
    &&& forall|i: int| 0 <= i < g.roots@.len() ==> #[trigger] g.roots@[i] < g.units@.len()
    &&& forall|i: int| 0 <= i < g.aux_roots@.len() ==> #[trigger] g.aux_roots@[i] < g.units@.len()
}

fn push_all(out: &mut Vec<usize>, l: &Vec<usize>)
    ensures
        final(out)@ == old(out)@ + l@,
{
    let ghost was = out@;
    let mut k: usize = 0;
    while k < l.len()
        invariant
            k <= l@.len(),
            out@ == was + l@.take(k as int),
        decreases l@.len() - k,
    {
        out.push(l[k]);
        assert(l@.take(k + 1) =~= l@.take(k as int).push(l@[k as int]));
        k += 1;
        assert(out@ =~= was + l@.take(k as int));
    }
    assert(l@.take(k as int) =~= l@);
}

/// The programs among the dependencies of a test, the first `n` of them.
pub open spec fn bins_upto(pkgs: Seq<Pkg>, units: Seq<Unit>, r: int, n: int) -> Seq<usize>
    decreases n,
{
    if n <= 0 {
        Seq::empty()
    } else {
        let d = units[r].deps@[n - 1].unit;
        if builds_bin(pkgs, units[d as int]) {
            bins_upto(pkgs, units, r, n - 1).push(d)
        } else {
            bins_upto(pkgs, units, r, n - 1)
        }
    }
}

/// What the first `n` documentation tests link.
pub open spec fn links_upto(aux: Seq<usize>, planned: Seq<Planned>, n: int) -> Seq<usize>
    decreases n,
{
    if n <= 0 {
        Seq::empty()
    } else {
        let p = planned[aux[n - 1] as int];
        links_upto(aux, planned, n - 1) + p.lib_reqs@ + p.to_link@
    }
}

/// The programs that the first `n` units that are asked for start, where they are tests.
pub open spec fn started_upto(pkgs: Seq<Pkg>, units: Seq<Unit>, roots: Seq<usize>, n: int) -> Seq<usize>
    decreases n,
{
    if n <= 0 {
        Seq::empty()
    } else {
        let r = roots[n - 1] as int;
        let rest = started_upto(pkgs, units, roots, n - 1);
        if units[r].mode.tests() {
            rest + bins_upto(pkgs, units, r, units[r].deps@.len() as int)
        } else {
            rest
        }
    }
}

/// What a build starts from: what it is asked for, what documentation tests need with what they link, and the programs
/// that tests start, even when the tests themselves are cached.
pub open spec fn start_list(pkgs: Seq<Pkg>, g: UnitGraph, planned: Seq<Planned>) -> Seq<usize> {
    g.roots@ + g.aux_roots@ + links_upto(g.aux_roots@, planned, g.aux_roots@.len() as int) + started_upto(
        pkgs,
        g.units@,
        g.roots@,
        g.roots@.len() as int,
    )
}

/// Every number is that of a unit.
pub open spec fn all_below(l: Seq<usize>, n: int) -> bool {
    forall|i: int| 0 <= i < l.len() ==> #[trigger] l[i] < n
}

fn list_bins(pkgs: &Vec<Pkg>, units: &Vec<Unit>, r: usize) -> (out: Vec<usize>)
    requires
        r < units@.len(),
        in_packages(pkgs@, units@),
        crate::schedule::deps_fit(units@[r as int].deps@, units@.len() as int),
    ensures
        out@ == bins_upto(pkgs@, units@, r as int, units@[r as int].deps@.len() as int),
        all_below(out@, units@.len() as int),
{
    let deps = &units[r].deps;
    let mut out: Vec<usize> = Vec::new();
    let mut k: usize = 0;
    while k < deps.len()
        invariant
            k <= deps@.len(),
            r < units@.len(),
            deps@ == units@[r as int].deps@,
            in_packages(pkgs@, units@),
            crate::schedule::deps_fit(deps@, units@.len() as int),
            out@ == bins_upto(pkgs@, units@, r as int, k as int),
            all_below(out@, units@.len() as int),
        decreases deps@.len() - k,
    {
        let d: usize = deps[k].unit;
        assert(deps@[k as int].unit < units@.len());
        if is_bin_build(pkgs, &units[d]) {
            out.push(d);
        }
        k += 1;
    }
    out
}

/// What a build starts from.
pub fn start_units(pkgs: &Vec<Pkg>, g: &UnitGraph, planned: &Vec<Planned>) -> (r: Vec<usize>)
    requires
        fits(pkgs@, *g, planned@),
    ensures
        r@ == start_list(pkgs@, *g, planned@),
        all_below(r@, g.units@.len() as int),
{
    let ghost n = g.units@.len() as int;
    let mut out: Vec<usize> = Vec::new();
    push_all(&mut out, &g.roots);
    push_all(&mut out, &g.aux_roots);
    assert(out@ =~= g.roots@ + g.aux_roots@);
    let ghost head = out@;
    let mut k: usize = 0;
    while k < g.aux_roots.len()
        invariant
            k <= g.aux_roots@.len(),
            n == g.units@.len(),
            fits(pkgs@, *g, planned@),
            out@ == head + links_upto(g.aux_roots@, planned@, k as int),
            all_below(out@, n),
        decreases g.aux_roots@.len() - k,
    {
        let a: usize = g.aux_roots[k];
        assert(g.aux_roots@[k as int] < n);
        let p = &planned[a];
        assert(crate::schedule::numbers_fit(planned@[a as int], n));
        let ghost was = out@;
        push_all(&mut out, &p.lib_reqs);
        push_all(&mut out, &p.to_link);
        k += 1;
        assert(out@ =~= head + links_upto(g.aux_roots@, planned@, k as int));
    }
    let ghost mid = out@;
    let mut k: usize = 0;
    while k < g.roots.len()
        invariant
            k <= g.roots@.len(),
            n == g.units@.len(),
            fits(pkgs@, *g, planned@),
            out@ == mid + started_upto(pkgs@, g.units@, g.roots@, k as int),
            all_below(out@, n),
        decreases g.roots@.len() - k,
    {
        let r: usize = g.roots[k];
        assert(g.roots@[k as int] < n);
        assert(crate::schedule::deps_fit(g.units@[r as int].deps@, n));
        let ghost was = out@;
        if g.units[r].mode.is_test() {
            let l = list_bins(pkgs, &g.units, r);
            push_all(&mut out, &l);
        }
        k += 1;
        assert(out@ =~= mid + started_upto(pkgs@, g.units@, g.roots@, k as int));
    }
    out
}

/// The units of a status that are needed, in the order they are built in. Those with the key of an earlier one are left
/// to it.
pub open spec fn wanted_upto(order: Seq<usize>, needed: Seq<bool>, status: Seq<Status>, s: Status, n: int) -> Seq<usize>
    decreases n,
{
    if n <= 0 {
        Seq::empty()
    } else {
        let u = order[n - 1];
        let rest = wanted_upto(order, needed, status, s, n - 1);
        if needed[u as int] && status[u as int] == s {
            rest.push(u)
        } else {
            rest
        }
    }
}

pub fn wanted(order: &Vec<usize>, needed: &Vec<bool>, status: &Vec<Status>, s: Status) -> (r: Vec<usize>)
    requires
        all_below(order@, needed@.len() as int),
        status@.len() == needed@.len(),
    ensures
        r@ == wanted_upto(order@, needed@, status@, s, order@.len() as int),
{
    let mut out: Vec<usize> = Vec::new();
    let mut k: usize = 0;
    while k < order.len()
        invariant
            k <= order@.len(),
            all_below(order@, needed@.len() as int),
            status@.len() == needed@.len(),
            out@ == wanted_upto(order@, needed@, status@, s, k as int),
        decreases order@.len() - k,
    {
        let u: usize = order[k];
        assert(order@[k as int] < needed@.len());
        if needed[u] && status[u] == s {
            out.push(u);
        }
        k += 1;
    }
    out
}

/// How a build that went well is reported. `seconds` is the time it took, `restored` how many of its misses another
/// build had stored by the time they were started.
pub open spec fn finished_text(
    profile: Seq<char>,
    note: Seq<char>,
    seconds: Seq<char>,
    misses: nat,
    cached: nat,
    fresh: nat,
    restored: nat,
) -> Seq<char> {
    "`"@ + profile + "` profile "@ + note + " target(s) in "@ + seconds + "s ("@ + dec((misses - restored) as nat) + " compiled, "@ + dec(
        cached + restored,
    ) + " cached, "@ + dec(fresh) + " fresh)"@
}

pub fn finished(profile: &str, note: &str, seconds: &str, misses: usize, cached: usize, fresh: usize, restored: usize) -> (r: String)
    requires
        restored <= misses,
        cached + restored <= usize::MAX,
    ensures
        r@ == finished_text(profile@, note@, seconds@, misses as nat, cached as nat, fresh as nat, restored as nat),
{
    let a = cat5("`", profile, "` profile ", note, " target(s) in ");
    let b = cat5(a.as_str(), seconds, "s (", usize_text(misses - restored).as_str(), " compiled, ");
    cat5(b.as_str(), usize_text(cached + restored).as_str(), " cached, ", usize_text(fresh).as_str(), " fresh)")
}

/// The directory where people look for what a unit writes. `tests_dir` is where test programs go.
pub fn uplift_dir(k: &KindInfo, kind: TargetKind, test: bool, tests_dir: &str) -> (r: String)
    ensures
        r@ == (if test {
            tests_dir@
        } else if kind is Example {
            under(k.artifact_dir@, "examples"@)
        } else {
            k.artifact_dir@
        }),
{
    if test {
        tests_dir.to_owned()
    } else if kind == TargetKind::Example {
        join(k.artifact_dir.as_str(), "examples")
    } else {
        k.artifact_dir.clone()
    }
}

// ---------------------------------------------------------------------------
// After the build.

/// What follows a build that went well.
#[derive(Clone, Copy, Debug, PartialEq, Eq, Structural)]
pub enum After {
    RunProgram,
    RunTests,
    ListTests,
    ReportDocs,
    Nothing,
}

pub fn after(command: Command, no_run: bool) -> (r: After)
    ensures
        r == match command {
            Command::Run => After::RunProgram,
            Command::Test | Command::Bench => if no_run {
                After::ListTests
            } else {
                After::RunTests
            },
            Command::Doc { .. } => After::ReportDocs,
            _ => After::Nothing,
        },
{
    match command {
        Command::Run => After::RunProgram,
        Command::Test | Command::Bench => if no_run {
            After::ListTests
        } else {
            After::RunTests
        },
        Command::Doc { .. } => After::ReportDocs,
        Command::Build | Command::Check => After::Nothing,
    }
}

/// Variants of units that were last needed before this are swept. Without days to keep them, all are that old.
pub fn cutoff(keep_days: u64, started: u64) -> (r: u64)
    requires
        keep_days * 86400 <= u64::MAX,
    ensures
        r == (if keep_days == 0 {
            u64::MAX as int
        } else if started >= keep_days * 86400 {
            started - keep_days * 86400
        } else {
            0
        }),
{
    if keep_days == 0 {
        u64::MAX
    } else {
        let age: u64 = keep_days * 86400;
        if started >= age {
            started - age
        } else {
            0
        }
    }
}

/// The state once no earlier variant is kept.
pub open spec fn given_up(s: StateView, keep_variants: nat) -> StateView {
    if keep_variants == 0 {
        StateView {
            prev: Map::empty(),
            superseded: s.superseded + Seq::new(
                crate::strmap::listed(s.prev.dom()).len(),
                |i: int| s.prev[crate::strmap::listed(s.prev.dom())[i]],
            ),
            ..s
        }
    } else {
        s
    }
}

/// Where no earlier variant is kept, what the last edits replaced is given up too.
pub fn give_up(state: &mut ProjectState, keep_variants: usize)
    ensures
        final(state)@ == given_up(old(state)@, keep_variants as nat),
{
    if keep_variants != 0 {
        return;
    }
    let ghost s0 = state@;
    let ghost names = crate::strmap::listed(s0.prev.dom());
    let ghost all = Seq::new(names.len(), |i: int| s0.prev[names[i]]);
    assert(s0.prev.dom() =~= state.prev@.dom());
    let keys = state.prev.keys();
    let ghost kv = views(keys@);
    let mut more: Vec<String> = Vec::new();
    assert(views(more@) =~= all.take(0));
    while more.len() < keys.len()
        invariant
            more@.len() <= keys@.len(),
            kv == views(keys@),
            kv == names,
            names == crate::strmap::listed(s0.prev.dom()),
            s0.prev == crate::commands::text_map(state.prev@),
            forall|i: int| 0 <= i < kv.len() ==> state.prev@.contains_key(#[trigger] kv[i]),
            all == Seq::new(names.len(), |i: int| s0.prev[names[i]]),
            views(more@) == all.take(more@.len() as int),
        decreases keys@.len() - more@.len(),
    {
        let i: usize = more.len();
        assert(kv[i as int] == keys@[i as int]@);
        let ghost was = views(more@);
        if let Some(k) = state.prev.get(keys[i].as_str()) {
            more.push(k.clone());
            assert(views(more@) =~= was.push(k@));
        } else {
            assert(false);
        }
        assert(all.take(i + 1) =~= all.take(i as int).push(all[i as int]));
    }
    assert(all.take(more@.len() as int) =~= all);
    let ghost sup = views(state.superseded@);
    let ghost mv = more@;
    state.superseded.append(&mut more);
    assert(views(state.superseded@) =~= sup + views(mv));
    state.prev = crate::strmap::StrMap::new();
    assert(state@.prev =~= Map::<Seq<char>, Seq<char>>::empty());
}

/// The keys among the first `n` that neither this project nor another one uses.
pub open spec fn unused_upto(l: Seq<Seq<char>>, slots: crate::state::Texts, others: Set<Seq<char>>, n: int) -> Seq<Seq<char>>
    decreases n,
{
    if n <= 0 {
        Seq::empty()
    } else {
        let rest = unused_upto(l, slots, others, n - 1);
        if crate::state::owned(slots, l[n - 1]) || others.contains(l[n - 1]) {
            rest
        } else {
            rest.push(l[n - 1])
        }
    }
}

/// The keys that may leave the store, out of those that builds replaced. `others` are the keys of other projects.
pub fn removable(state: &mut ProjectState, others: &StrSet) -> (r: Vec<String>)
    ensures
        views(r@) == unused_upto(old(state)@.superseded, old(state)@.slots, others@, old(state)@.superseded.len() as int),
        final(state)@ == (StateView { superseded: Seq::empty(), ..old(state)@ }),
{
    let ghost s0 = state@;
    let mut all: Vec<String> = Vec::new();
    std::mem::swap(&mut all, &mut state.superseded);
    assert(views(all@) == s0.superseded);
    assert(state@.superseded =~= Seq::<Seq<char>>::empty());
    let mut out: Vec<String> = Vec::new();
    assert(views(out@) =~= Seq::<Seq<char>>::empty());
    let mut k: usize = 0;
    while k < all.len()
        invariant
            k <= all@.len(),
            views(all@) == s0.superseded,
            state@ == (StateView { superseded: Seq::empty(), ..s0 }),
            views(out@) == unused_upto(s0.superseded, s0.slots, others@, k as int),
        decreases all@.len() - k,
    {
        assert(s0.superseded[k as int] == all@[k as int]@);
        if !state.is_owned(all[k].as_str()) && !others.contains(all[k].as_str()) {
            let ghost was = views(out@);
            out.push(all[k].clone());
            assert(views(out@) =~= was.push(all@[k as int]@));
        }
        k += 1;
    }
    out
}

/// Whether the store is tidied up after a build.
pub fn needs_compaction(removed: usize, swept: usize, over_cap: bool, jobs: usize) -> (r: bool)
    ensures
        r == (removed > 0 || swept > 0 || over_cap || jobs > 0),
{
    removed > 0 || swept > 0 || over_cap || jobs > 0
}

/// Whether a file of the queue lists keys to remove. The others are outputs that are yet to be stored.
pub fn lists_removals(name: &str) -> (r: bool)
    ensures
        r == !starts(name@, "ingest-"@),
{
    !starts_with(name, "ingest-")
}

/// How the store is tidied up next to other builds: what projects still use stays, even over the cap, and what is queued
/// goes. Collecting down to nine tenths of the cap avoids a sweep after every edit.
pub open spec fn tidying(o: GcOptions, queued: Set<Seq<char>>, linked: Set<Seq<char>>, hot: Set<Seq<char>>, max: Option<u64>, size: Option<u64>) -> bool {
    &&& o.max_size == match (max, size) {
        (Some(m), Some(b)) => if b > m {
            Some((m / 10 * 9) as u64)
        } else {
            None
        },
        _ => None,
    }
    &&& o.max_age_secs.is_none()
    &&& !o.dry_run
    &&& o.pinned@ == linked.union(hot)
    &&& o.remove@ == queued.difference(hot)
    &&& o.hot matches Some(h) && h@ == hot
    &&& o.concurrent
}

/// `queued`: keys to remove. `linked`: keys that projects link to. `hot`: keys that projects list. `size`: how much the
/// store holds, where that is known.
pub fn compact_options(queued: &StrSet, linked: StrSet, hot: StrSet, max: Option<u64>, size: Option<u64>) -> (r: GcOptions)
    ensures
        tidying(r, queued@, linked@, hot@, max, size),
{
    let max_size: Option<u64> = match (max, size) {
        (Some(m), Some(b)) => if b > m {
            Some(m / 10 * 9)
        } else {
            None
        },
        _ => None,
    };
    let ghost lv = linked@;
    let mut pinned = linked;
    let l = hot.items();
    let ghost hv = views(l@);
    let mut k: usize = 0;
    assert(lv.union(hv.take(0).to_set()) =~= lv);
    while k < l.len()
        invariant
            k <= l@.len(),
            hv == views(l@),
            pinned@ == lv.union(hv.take(k as int).to_set()),
        decreases l@.len() - k,
    {
        assert(hv[k as int] == l@[k as int]@);
        pinned.insert(l[k].as_str());
        proof {
            lemma_take_set(hv, k as int);
        }
        assert(pinned@ =~= lv.union(hv.take(k + 1).to_set()));
        k += 1;
    }
    assert(hv.take(k as int) =~= hv);
    let q = queued.items();
    let ghost qv = views(q@);
    let mut remove = StrSet::new();
    let mut k: usize = 0;
    assert(qv.take(0).to_set().difference(hot@) =~= Set::<Seq<char>>::empty());
    while k < q.len()
        invariant
            k <= q@.len(),
            qv == views(q@),
            remove@ == qv.take(k as int).to_set().difference(hot@),
        decreases q@.len() - k,
    {
        assert(qv[k as int] == q@[k as int]@);
        proof {
            lemma_take_set(qv, k as int);
        }
        if !hot.contains(q[k].as_str()) {
            remove.insert(q[k].as_str());
        }
        assert(remove@ =~= qv.take(k + 1).to_set().difference(hot@));
        k += 1;
    }
    assert(qv.take(k as int) =~= qv);
    GcOptions { max_size, max_age_secs: None, dry_run: false, pinned, remove, hot: Some(hot), concurrent: true }
}

proof fn lemma_take_set(s: Seq<Seq<char>>, k: int)
    requires
        0 <= k < s.len(),
    ensures
        s.take(k + 1).to_set() == s.take(k).to_set().insert(s[k]),
{
    let a = s.take(k);
    let b = s.take(k + 1);
    assert forall|x: Seq<char>| #[trigger] b.to_set().contains(x) == a.to_set().insert(s[k]).contains(x) by {
        if b.contains(x) {
            let i = choose|i: int| 0 <= i < b.len() && b[i] == x;
            if i < k {
                assert(a[i] == x);
            }
        }
        if a.contains(x) {
            let i = choose|i: int| 0 <= i < a.len() && a[i] == x;
            assert(b[i] == x);
        }
        assert(b[k] == s[k]);
    }
    assert(b.to_set() =~= a.to_set().insert(s[k]));
}

/// Tidying up removes no unit that a project lists, however full the store is.
pub proof fn law_live_projects_keep_their_units(
    units: Seq<crate::store::UnitManifest>,
    order: Seq<usize>,
    blobs: Seq<crate::gc::BlobFile>,
    opts: GcOptions,
    queued: Set<Seq<char>>,
    linked: Set<Seq<char>>,
    hot: Set<Seq<char>>,
    max: Option<u64>,
    size: Option<u64>,
    now: u64,
    u: int,
)
    requires
        tidying(opts, queued, linked, hot, max, size),
        0 <= u < units.len(),
        forall|j: int| 0 <= j < order.len() ==> #[trigger] order[j] < units.len(),
        hot.contains(units[u].key@) || linked.contains(units[u].key@),
    ensures
        !crate::gc::swept(units, order, blobs, opts, now, order.len() as int)[u],
{
    crate::gc::law_pinned_units_stay(units, order, blobs, opts, now, order.len() as int, u);
}

/// What a build replaced leaves the store only where no project uses it any more.
pub proof fn law_used_keys_are_not_removed(
    l: Seq<Seq<char>>,
    slots: crate::state::Texts,
    others: Set<Seq<char>>,
    n: int,
    key: Seq<char>,
)
    requires
        0 <= n <= l.len(),
        crate::state::owned(slots, key) || others.contains(key),
    ensures
        !unused_upto(l, slots, others, n).contains(key),
    decreases n,
{
    if n > 0 {
        law_used_keys_are_not_removed(l, slots, others, n - 1, key);
        let rest = unused_upto(l, slots, others, n - 1);
        let all = unused_upto(l, slots, others, n);
        if all.contains(key) {
            let i = choose|i: int| 0 <= i < all.len() && all[i] == key;
            if i < rest.len() {
                assert(rest[i] == key);
            }
        }
    }
}

/// What is said of a unit that is started.
pub fn verb(mode: Mode) -> (r: &'static str)
    ensures
        r@ == (if mode is Check {
            "Checking"@
        } else {
            "Compiling"@
        }),
{
    match mode {
        Mode::Check => "Checking",
        _ => "Compiling",
    }
}

/// How the store is tidied up after a build.
#[derive(Clone, Copy, Debug, PartialEq, Eq, Structural)]
pub enum Compaction {
    Off,
    /// Before the command ends.
    Now,
    Background,
}

/// `var` is what the user set.
pub fn compaction(var: Option<&str>) -> (r: Compaction)
    ensures
        r == (match crate::invocation::opt_text(var) {
            Some(v) => if v == "off"@ {
                Compaction::Off
            } else if v == "sync"@ {
                Compaction::Now
            } else {
                Compaction::Background
            },
            None => Compaction::Background,
        }),
{
    match var {
        Some(v) => if same(v, "off") {
            Compaction::Off
        } else if same(v, "sync") {
            Compaction::Now
        } else {
            Compaction::Background
        },
        None => Compaction::Background,
    }
}

/// The directory that `clean` removes: the one that is named, the one that is configured, or the workspace's own.
pub fn clean_dir(given: Option<&str>, configured: Option<&str>, root: &str) -> (r: String)
    ensures
        r@ == (match crate::invocation::opt_text(given) {
            Some(d) => d,
            None => match crate::invocation::opt_text(configured) {
                Some(d) => d,
                None => under(root@, "target"@),
            },
        }),
{
    match given {
        Some(d) => d.to_owned(),
        None => match configured {
            Some(d) => d.to_owned(),
            None => join(root, "target"),
        },
    }
}

// ---------------------------------------------------------------------------
// Tidying up the store next to builds.

/// How many seconds are waited before: a number in the environment, and else none.
pub fn compact_idle(var: Option<&str>) -> (r: u64)
    ensures
        r == (match crate::invocation::opt_text(var) {
            Some(v) => match u64_of(v) {
                Some(n) => n as u64,
                None => 0,
            },
            None => 0,
        }),
{
    match var {
        Some(v) => match parse_u64(v) {
            Some(n) => n,
            None => 0,
        },
        None => 0,
    }
}

/// What came of tidying up so far.
#[derive(Clone, Copy, Debug, PartialEq, Eq, Structural)]
pub struct Tidied {
    pub units_removed: usize,
    pub bytes_freed: u64,
    pub blobs_compressed: usize,
    pub bytes_compressed: u64,
    pub bytes_kept: u64,
}

/// What is done next.
#[derive(Clone, Copy, Debug, PartialEq, Eq, Structural)]
pub enum Tidying {
    /// Nothing: another one is at it, or a build is.
    GiveUp,
    /// One more collection.
    Collect,
    /// That is all.
    Finish,
}

/// `total`: what came of it so far. `alone`: no other process tidies up. `free`: no build holds the store. `stored`: the
/// outputs that builds put off are in the store. `queued`: keys are waiting to be removed.
pub fn compact_next(total: Option<Tidied>, alone: bool, free: bool, stored: bool, queued: bool) -> (r: Tidying)
    ensures
        r == match total {
            None => if alone && free && stored {
                Tidying::Collect
            } else {
                Tidying::GiveUp
            },
            Some(_) => if queued && free {
                Tidying::Collect
            } else {
                Tidying::Finish
            },
        },
{
    match total {
        None => if alone && free && stored {
            Tidying::Collect
        } else {
            Tidying::GiveUp
        },
        Some(_) => if queued && free {
            Tidying::Collect
        } else {
            Tidying::Finish
        },
    }
}

/// The totals fit.
pub open spec fn adds_up(a: Tidied, b: Tidied) -> bool {
    &&& a.units_removed + b.units_removed <= usize::MAX
    &&& a.bytes_freed + b.bytes_freed <= u64::MAX
    &&& a.blobs_compressed + b.blobs_compressed <= usize::MAX
    &&& a.bytes_compressed + b.bytes_compressed <= u64::MAX
}

/// What came of it after one more collection: what is kept is what that one left.
pub fn compact_total(total: Option<Tidied>, more: Tidied) -> (r: Tidied)
    requires
        total matches Some(t) ==> adds_up(t, more),
    ensures
        r == match total {
            None => more,
            Some(t) => Tidied {
                units_removed: (t.units_removed + more.units_removed) as usize,
                bytes_freed: (t.bytes_freed + more.bytes_freed) as u64,
                blobs_compressed: (t.blobs_compressed + more.blobs_compressed) as usize,
                bytes_compressed: (t.bytes_compressed + more.bytes_compressed) as u64,
                bytes_kept: more.bytes_kept,
            },
        },
{
    match total {
        None => more,
        Some(t) => Tidied {
            units_removed: t.units_removed + more.units_removed,
            bytes_freed: t.bytes_freed + more.bytes_freed,
            blobs_compressed: t.blobs_compressed + more.blobs_compressed,
            bytes_compressed: t.bytes_compressed + more.bytes_compressed,
            bytes_kept: more.bytes_kept,
        },
    }
}

} // verus!
