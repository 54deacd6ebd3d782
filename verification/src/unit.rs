//! One node per (package, target, platform, mode, features). Same rules as cargo's `unit_dependencies`.

use vstd::prelude::*;
use crate::cfgexpr::PlatformCfg;
use crate::cfgexpr::facts;
use crate::features::FeatureInfo;
use crate::finite::lemma_no_longer;
use crate::finite::lemma_pairs;
use crate::finite::pairs;
use crate::finite::upto;
use crate::graph::GraphView;
use crate::graph::documented_once;
use crate::graph::links_in;
use crate::graph::of_packages;
use crate::graph::remove_duplicate_docs;
use crate::graph::share_host_units;
use crate::graph::shared;
use crate::manifest::DepDecl;
use crate::manifest::DepKind;
use crate::manifest::Target;
use crate::manifest::TargetKind;
use crate::manifest::any_is;
use crate::order::ascending;
use crate::plan::depth_first;
use crate::profile::Profile;
use crate::profile::ProfileView;
use crate::profile::Profiles;
use crate::profile::dup_list;
use crate::profile::profile_for;
use crate::text::opt_view;
use crate::text::replace_char;
use crate::text::same;
use crate::text::split_first;
use crate::text::split_once;
use crate::text::swapped;
use crate::text::views;
use crate::workspace::Pkg;
use crate::workspace::Resolution;
use crate::workspace::Workspace;
use crate::workspace::dep_enabled;
use crate::workspace::enabled;

verus! {

/// Where it compiles. No `--target` means everything is `Host`.
#[derive(Clone, Copy, Debug, PartialEq, Eq, Structural)]
pub enum CompileKind {
    Host,
    Target(usize),
}

#[derive(Clone, Copy, Debug, PartialEq, Eq, Structural)]
pub enum Mode {
    Build,
    Check,
    CheckTest,
    /// `--test` with a harness, `--cfg test` without.
    Test,
    Bench,
    Doc,
    RunCustomBuild,
}

impl Mode {
    pub open spec fn tests(self) -> bool {
        self is Test || self is Bench || self is CheckTest
    }

    pub open spec fn checks(self) -> bool {
        self is Check || self is CheckTest
    }

    pub open spec fn title(self) -> Seq<char> {
        match self {
            Mode::Build => "build"@,
            Mode::Check | Mode::CheckTest => "check"@,
            Mode::Test => "test"@,
            Mode::Bench => "bench"@,
            Mode::Doc => "doc"@,
            Mode::RunCustomBuild => "run-custom-build"@,
        }
    }

    pub fn is_test(self) -> (r: bool)
        ensures
            r == self.tests(),
    {
        match self {
            Mode::Test | Mode::Bench | Mode::CheckTest => true,
            _ => false,
        }
    }

    pub fn is_check(self) -> (r: bool)
        ensures
            r == self.checks(),
    {
        match self {
            Mode::Check | Mode::CheckTest => true,
            _ => false,
        }
    }

    pub fn name(self) -> (r: &'static str)
        ensures
            r@ == self.title(),
    {
        match self {
            Mode::Build => "build",
            Mode::Check | Mode::CheckTest => "check",
            Mode::Test => "test",
            Mode::Bench => "bench",
            Mode::Doc => "doc",
            Mode::RunCustomBuild => "run-custom-build",
        }
    }
}

#[derive(Clone, Copy, Debug, Default, PartialEq, Eq, Structural)]
pub enum Command {
    #[default]
    Build,
    Check,
    Test,
    Bench,
    Doc { deps: bool },
    Run,
}

#[derive(Debug)]
pub struct UnitDep {
    pub unit: usize,
    /// `--extern` name for a library dependency.
    pub extern_name: Option<String>,
}

#[derive(Debug)]
pub struct Unit {
    pub pkg: usize,
    pub target: usize,
    pub kind: CompileKind,
    /// Build scripts, proc-macros, and whatever they depend on.
    pub for_host: bool,
    pub mode: Mode,
    pub features: Vec<String>,
    pub profile: Profile,
    pub deps: Vec<UnitDep>,
}

impl Unit {
    pub fn target<'a>(&self, ws: &'a Workspace) -> (r: &'a Target)
        requires
            self.pkg < ws.pkgs@.len(),
            self.target < ws.pkgs@[self.pkg as int].targets@.len(),
        ensures
            *r == ws.pkgs@[self.pkg as int].targets@[self.target as int],
    {
        &ws.pkgs[self.pkg].targets[self.target]
    }
}

pub struct UnitGraph {
    pub units: Vec<Unit>,
    pub roots: Vec<usize>,
    /// Has to be on disk, but isn't an artifact of the command. Doctest inputs.
    pub aux_roots: Vec<usize>,
    pub doctests: Vec<Doctest>,
}

#[derive(Debug)]
pub struct Doctest {
    pub pkg: usize,
    pub lib: usize,
    pub dev_deps: Vec<UnitDep>,
}

#[derive(Clone, Debug, Default)]
pub struct TargetFilter {
    pub lib: bool,
    pub bins: bool,
    pub bin_names: Vec<String>,
    pub examples: bool,
    pub example_names: Vec<String>,
    pub tests: bool,
    pub test_names: Vec<String>,
    pub benches: bool,
    pub bench_names: Vec<String>,
    pub all_targets: bool,
    pub doc: bool,
}

impl TargetFilter {
    /// The filter names some targets itself.
    pub open spec fn is_explicit(self) -> bool {
        ||| self.lib
        ||| self.bins
        ||| self.bin_names@.len() > 0
        ||| self.examples
        ||| self.example_names@.len() > 0
        ||| self.tests
        ||| self.test_names@.len() > 0
        ||| self.benches
        ||| self.bench_names@.len() > 0
        ||| self.all_targets
        ||| self.doc
    }

    pub fn explicit(&self) -> (r: bool)
        ensures
            r == self.is_explicit(),
    {
        self.lib || self.bins || self.bin_names.len() > 0 || self.examples || self.example_names.len() > 0
            || self.tests || self.test_names.len() > 0 || self.benches || self.bench_names.len() > 0
            || self.all_targets || self.doc
    }

    /// Whether dev-dependencies are needed.
    pub fn needs_dev_deps(&self, command: Command) -> (r: bool)
        ensures
            r == (command is Test || command is Bench || self.all_targets || self.examples || self.tests
                || self.benches || self.example_names@.len() > 0 || self.test_names@.len() > 0
                || self.bench_names@.len() > 0),
    {
        let testing: bool = match command {
            Command::Test | Command::Bench => true,
            _ => false,
        };
        testing || self.all_targets || self.examples || self.tests || self.benches || self.example_names.len() > 0
            || self.test_names.len() > 0 || self.bench_names.len() > 0
    }
}

pub struct RootSelection<'a> {
    pub packages: &'a Vec<usize>,
    pub command: Command,
    pub filter: &'a TargetFilter,
}

pub struct GraphInputs<'a> {
    pub ws: &'a Workspace,
    pub res: &'a Resolution,
    pub profiles: &'a Profiles,
    pub host_platform: &'a PlatformCfg<'a>,
    pub target_platforms: &'a Vec<PlatformCfg<'a>>,
    pub host_apple: bool,
    pub target_apple: &'a Vec<bool>,
    pub no_target: bool,
    pub command: Command,
}

/// What tells units apart.
#[derive(Clone, Copy, Debug, PartialEq, Eq, Structural)]
pub struct Identity {
    pub pkg: usize,
    pub target: usize,
    pub kind: CompileKind,
    pub for_host: bool,
    pub mode: Mode,
    /// The side whose features count.
    pub feature_side_host: bool,
}

/// A unit that another needs, and the name by which it is linked.
#[derive(Debug)]
pub struct Want {
    pub id: Identity,
    pub name: Option<String>,
}

impl View for Want {
    type V = (Identity, Option<Seq<char>>);

    open spec fn view(&self) -> (Identity, Option<Seq<char>>) {
        (self.id, opt_view(self.name))
    }
}

impl<'a> GraphInputs<'a> {
    pub open spec fn pkgs(self) -> Seq<Pkg> {
        self.ws.pkgs@
    }

    /// Each dependency has its entry among the resolved ones, and those are packages.
    pub open spec fn wf(self) -> bool {
        &&& self.target_apple@.len() == self.target_platforms@.len()
        &&& forall|p: int|
            0 <= p < self.pkgs().len() ==> (#[trigger] self.pkgs()[p]).dep_targets@.len()
                == self.pkgs()[p].deps@.len()
        &&& forall|p: int, i: int|
            0 <= p < self.pkgs().len() && 0 <= i < self.pkgs()[p].dep_targets@.len() ==> match (
            #[trigger] self.pkgs()[p].dep_targets@[i]) {
                Some(t) => t < self.pkgs().len(),
                None => true,
            }
    }

    pub open spec fn kind_ok(self, kind: CompileKind) -> bool {
        match kind {
            CompileKind::Host => true,
            CompileKind::Target(t) => t < self.target_platforms@.len(),
        }
    }

    /// The identity names a target of a package, and a platform.
    pub open spec fn fits(self, id: Identity) -> bool {
        id.pkg < self.pkgs().len() && id.target < self.pkgs()[id.pkg as int].targets@.len() && self.kind_ok(id.kind)
            && (id.mode == Mode::RunCustomBuild ==> self.pkgs()[id.pkg as int].script_at().is_some())
    }

    pub open spec fn platform_at(self, kind: CompileKind) -> PlatformCfg<'a> {
        match kind {
            CompileKind::Host => *self.host_platform,
            CompileKind::Target(t) => self.target_platforms@[t as int],
        }
    }

    pub open spec fn apple_at(self, kind: CompileKind) -> bool {
        match kind {
            CompileKind::Host => self.host_apple,
            CompileKind::Target(t) => self.target_apple@[t as int],
        }
    }

    /// The dependency `i` of the package counts, and its package is there.
    pub open spec fn dep_on(self, pkg: int, i: int, kind: CompileKind, for_host: bool, dep_kind: DepKind) -> bool {
        let p = self.pkgs()[pkg];
        let platform = self.platform_at(kind);
        p.deps@[i].kind == dep_kind && enabled(
            p.deps@[i],
            self.res.optional(pkg, for_host),
            platform.triple@,
            facts(platform.cfg@),
        ) && match p.dep_targets@[i] {
            Some(t) => self.pkgs()[t as int].loaded,
            None => false,
        }
    }

    /// The library that a dependency links. Metadata only, unless the parent needs more: a proc-macro
    /// has to be executable.
    pub open spec fn lib_id(self, pkg: int, kind: CompileKind, for_host: bool, parent: Mode) -> Option<Identity> {
        let p = self.pkgs()[pkg];
        match p.lib_at() {
            Some(lib) => {
                let check = !p.proc_macro && (parent.checks() || parent == Mode::Doc);
                Some(
                    Identity {
                        pkg: pkg as usize,
                        target: lib as usize,
                        kind: if p.proc_macro {
                            CompileKind::Host
                        } else {
                            kind
                        },
                        for_host: p.proc_macro || for_host,
                        mode: if check {
                            Mode::Check
                        } else {
                            Mode::Build
                        },
                        feature_side_host: p.proc_macro || for_host,
                    },
                )
            },
            None => None,
        }
    }

    /// The name by which the library of a dependency is linked.
    pub open spec fn link_name(self, dep: DepDecl, pkg: int) -> Seq<char> {
        match dep.rename {
            Some(r) => swapped(r@, '-', '_'),
            None => {
                let p = self.pkgs()[pkg];
                swapped(p.targets@[p.lib_at().unwrap()].name@, '-', '_')
            },
        }
    }

    /// The libraries of the first `k` dependencies of that kind.
    pub open spec fn libs_upto(
        self,
        pkg: int,
        kind: CompileKind,
        for_host: bool,
        dep_kind: DepKind,
        parent: Mode,
        k: int,
    ) -> Seq<(Identity, Option<Seq<char>>)>
        decreases k,
    {
        if k <= 0 {
            Seq::empty()
        } else {
            let rest = self.libs_upto(pkg, kind, for_host, dep_kind, parent, k - 1);
            if self.dep_on(pkg, k - 1, kind, for_host, dep_kind) {
                let t = self.pkgs()[pkg].dep_targets@[k - 1].unwrap() as int;
                match self.lib_id(t, kind, for_host, parent) {
                    Some(id) => rest.push((id, Some(self.link_name(self.pkgs()[pkg].deps@[k - 1], t)))),
                    None => rest,
                }
            } else {
                rest
            }
        }
    }

    pub open spec fn libs(self, pkg: int, kind: CompileKind, for_host: bool, dep_kind: DepKind, parent: Mode) -> Seq<
        (Identity, Option<Seq<char>>),
    > {
        self.libs_upto(pkg, kind, for_host, dep_kind, parent, self.pkgs()[pkg].deps@.len() as int)
    }

    /// The docs of the first `k` units, where they have any.
    pub open spec fn docs_upto(self, of: Seq<(Identity, Option<Seq<char>>)>, k: int) -> Seq<
        (Identity, Option<Seq<char>>),
    >
        decreases k,
    {
        if k <= 0 {
            Seq::empty()
        } else {
            let rest = self.docs_upto(of, k - 1);
            let id = of[k - 1].0;
            if self.pkgs()[id.pkg as int].targets@[id.target as int].doc {
                rest.push((Identity { mode: Mode::Doc, feature_side_host: id.for_host, ..id }, None))
            } else {
                rest
            }
        }
    }

    /// The run of the build script.
    pub open spec fn run_id(self, pkg: int, kind: CompileKind, for_host: bool) -> Identity {
        Identity {
            pkg: pkg as usize,
            target: self.pkgs()[pkg].script_at().unwrap() as usize,
            kind,
            for_host,
            mode: Mode::RunCustomBuild,
            feature_side_host: for_host,
        }
    }

    /// The build script itself. Host and target owners with the same features share one.
    pub open spec fn script_id(self, pkg: int, owner_host_side: bool) -> Identity {
        Identity {
            pkg: pkg as usize,
            target: self.pkgs()[pkg].script_at().unwrap() as usize,
            kind: CompileKind::Host,
            for_host: true,
            mode: Mode::Build,
            feature_side_host: owner_host_side && (self.res.named(pkg, true) != self.res.named(pkg, false)
                || self.res.optional(pkg, true) != self.res.optional(pkg, false)),
        }
    }

    /// What a feature is required of: the part before the first `/`.
    pub open spec fn feature_base(f: Seq<char>) -> Seq<char> {
        match split_first(f, '/') {
            Some((a, _)) => a,
            None => f,
        }
    }

    /// Those of the first `k` features that are off.
    pub open spec fn off_upto(self, pkg: int, features: Seq<Seq<char>>, for_host: bool, k: int) -> Seq<Seq<char>>
        decreases k,
    {
        if k <= 0 {
            Seq::empty()
        } else {
            let rest = self.off_upto(pkg, features, for_host, k - 1);
            let base = GraphInputs::feature_base(features[k - 1]);
            if self.res.named(pkg, for_host).contains(base) || self.res.optional(pkg, for_host).contains(base) {
                rest
            } else {
                rest.push(features[k - 1])
            }
        }
    }

    /// The required features of a target that are off.
    pub open spec fn off(self, pkg: int, target: int, for_host: bool) -> Seq<Seq<char>> {
        let fs = views(self.pkgs()[pkg].targets@[target].required_features@);
        self.off_upto(pkg, fs, for_host, fs.len() as int)
    }

    /// The binaries among the first `k` targets whose required features are on.
    pub open spec fn bins_upto(self, pkg: int, kind: CompileKind, for_host: bool, k: int) -> Seq<
        (Identity, Option<Seq<char>>),
    >
        decreases k,
    {
        if k <= 0 {
            Seq::empty()
        } else {
            let rest = self.bins_upto(pkg, kind, for_host, k - 1);
            if self.pkgs()[pkg].targets@[k - 1].kind == TargetKind::Bin && self.off(pkg, k - 1, for_host).len() == 0 {
                rest.push(
                    (
                        Identity {
                            pkg: pkg as usize,
                            target: (k - 1) as usize,
                            kind,
                            for_host,
                            mode: Mode::Build,
                            feature_side_host: for_host,
                        },
                        None,
                    ),
                )
            } else {
                rest
            }
        }
    }

    /// The own library of a package, for another of its targets.
    pub open spec fn own_lib(self, pkg: int, lib: int, kind: CompileKind, for_host: bool, mode: Mode) -> Seq<
        (Identity, Option<Seq<char>>),
    > {
        let p = self.pkgs()[pkg];
        let id = Identity {
            pkg: pkg as usize,
            target: lib as usize,
            kind: if p.proc_macro {
                CompileKind::Host
            } else {
                kind
            },
            for_host: for_host || p.proc_macro,
            mode: if !p.proc_macro && (mode.checks() || mode == Mode::Doc) {
                Mode::Check
            } else {
                Mode::Build
            },
            feature_side_host: for_host || p.proc_macro,
        };
        seq![(id, Some(swapped(p.targets@[lib].name@, '-', '_')))] + if mode == Mode::Doc {
            seq![(Identity { mode: Mode::Doc, ..id }, None)]
        } else {
            Seq::empty()
        }
    }

    /// What a unit of a library, a binary, an example, a test or a bench needs.
    pub open spec fn target_wants(self, doc_deps: bool, id: Identity) -> Seq<(Identity, Option<Seq<char>>)> {
        let pkg = id.pkg as int;
        let p = self.pkgs()[pkg];
        let t = p.targets@[id.target as int];
        let dev = id.mode.tests() || t.kind == TargetKind::Example || t.kind == TargetKind::Test || t.kind
            == TargetKind::Bench;
        let libs = self.libs(pkg, id.kind, id.for_host, DepKind::Normal, id.mode) + if dev {
            self.libs(pkg, id.kind, id.for_host, DepKind::Dev, id.mode)
        } else {
            Seq::empty()
        };
        let docs = if id.mode == Mode::Doc && doc_deps {
            self.docs_upto(libs, libs.len() as int)
        } else {
            Seq::empty()
        };
        let run = if p.script_at().is_some() {
            seq![(self.run_id(pkg, id.kind, id.for_host), None)]
        } else {
            Seq::empty()
        };
        let own = if t.kind != TargetKind::Lib && p.lib_at().is_some() {
            self.own_lib(pkg, p.lib_at().unwrap(), id.kind, id.for_host, id.mode)
        } else {
            Seq::empty()
        };
        let bins = if (t.kind == TargetKind::Test || t.kind == TargetKind::Bench) && (id.mode == Mode::Test
            || id.mode == Mode::Bench || id.mode == Mode::Build) {
            self.bins_upto(pkg, id.kind, id.for_host, p.targets@.len() as int)
        } else {
            Seq::empty()
        };
        libs + docs + run + own + bins
    }

    /// `DEP_<links>_*` comes from those of the first `k` dependencies that declare `links`.
    pub open spec fn linked_runs(self, pkg: int, kind: CompileKind, for_host: bool, k: int) -> Seq<
        (Identity, Option<Seq<char>>),
    >
        decreases k,
    {
        if k <= 0 {
            Seq::empty()
        } else {
            let rest = self.linked_runs(pkg, kind, for_host, k - 1);
            if self.dep_on(pkg, k - 1, kind, for_host, DepKind::Normal) {
                let t = self.pkgs()[pkg].dep_targets@[k - 1].unwrap() as int;
                let d = self.pkgs()[t];
                if d.links.is_some() && d.script_at().is_some() && !d.proc_macro && d.lib_at().is_some() {
                    rest.push((self.run_id(t, kind, for_host), None))
                } else {
                    rest
                }
            } else {
                rest
            }
        }
    }

    /// The libraries of the first `k` build dependencies of a build script.
    pub open spec fn script_libs(self, pkg: int, side: bool, k: int) -> Seq<(Identity, Option<Seq<char>>)>
        decreases k,
    {
        if k <= 0 {
            Seq::empty()
        } else {
            let rest = self.script_libs(pkg, side, k - 1);
            let p = self.pkgs()[pkg];
            let dep = p.deps@[k - 1];
            if dep.kind == DepKind::Build && enabled(
                dep,
                self.res.optional(pkg, side),
                self.host_platform.triple@,
                facts(self.host_platform.cfg@),
            ) && p.dep_targets@[k - 1].is_some() && self.pkgs()[p.dep_targets@[k - 1].unwrap() as int].lib_at().is_some() {
                let t = p.dep_targets@[k - 1].unwrap();
                rest.push(
                    (
                        Identity {
                            pkg: t,
                            target: self.pkgs()[t as int].lib_at().unwrap() as usize,
                            kind: CompileKind::Host,
                            for_host: true,
                            mode: Mode::Build,
                            feature_side_host: true,
                        },
                        Some(self.link_name(dep, t as int)),
                    ),
                )
            } else {
                rest
            }
        }
    }

    /// The units that a unit needs, in order, with the names by which they are linked.
    pub open spec fn wants(self, doc_deps: bool, id: Identity) -> Seq<(Identity, Option<Seq<char>>)> {
        let pkg = id.pkg as int;
        let p = self.pkgs()[pkg];
        if id.mode == Mode::RunCustomBuild {
            seq![(self.script_id(pkg, id.for_host), None)] + self.linked_runs(
                pkg,
                id.kind,
                id.for_host,
                p.deps@.len() as int,
            )
        } else if p.targets@[id.target as int].kind == TargetKind::BuildScript {
            self.script_libs(pkg, id.feature_side_host, p.deps@.len() as int)
        } else {
            self.target_wants(doc_deps, id)
        }
    }

    /// The profile that a unit is built with.
    pub open spec fn profile_at(self, id: Identity) -> ProfileView {
        let q = profile_for(
            self.profiles.base@,
            views(self.profiles.chain@),
            self.profiles.incremental_override,
            self.profiles.weaken_host_debuginfo,
            self.pkgs()[id.pkg as int],
            id.for_host,
            self.apple_at(id.kind),
        );
        if id.mode.tests() {
            ProfileView { panic: "unwind"@, ..q }
        } else {
            q
        }
    }
}

// ---------------------------------------------------------------------------
// Working out what a unit needs
// ---------------------------------------------------------------------------

/// Every identity names a target of a package.
pub open spec fn all_fit(i: GraphInputs, w: Seq<(Identity, Option<Seq<char>>)>) -> bool {
    forall|k: int| 0 <= k < w.len() ==> i.fits((#[trigger] w[k]).0)
}

fn push_want(v: &mut Vec<Want>, id: Identity, name: Option<String>)
    ensures
        views(final(v)@) == views(old(v)@).push((id, opt_view(name))),
{
    let ghost was = v@;
    let w = Want { id, name };
    v.push(w);
    assert(views(v@) =~= views(was).push(w@));
}

fn append_wants(v: &mut Vec<Want>, more: Vec<Want>)
    ensures
        views(final(v)@) == views(old(v)@) + views(more@),
{
    let ghost a = v@;
    let ghost b = more@;
    let mut more: Vec<Want> = more;
    v.append(&mut more);
    assert(views(v@) =~= views(a) + views(b));
}

proof fn lemma_fit_concat(i: GraphInputs, a: Seq<(Identity, Option<Seq<char>>)>, b: Seq<(Identity, Option<Seq<char>>)>)
    requires
        all_fit(i, a),
        all_fit(i, b),
    ensures
        all_fit(i, a + b),
{
    assert forall|k: int| 0 <= k < (a + b).len() implies i.fits((#[trigger] (a + b)[k]).0) by {
        if k < a.len() {
            assert(i.fits(a[k].0));
        } else {
            assert(i.fits(b[k - a.len()].0));
        }
    }
}

impl<'a> GraphInputs<'a> {
    fn platform(&self, kind: CompileKind) -> (r: PlatformCfg<'a>)
        requires
            self.kind_ok(kind),
        ensures
            r == self.platform_at(kind),
    {
        match kind {
            CompileKind::Host => *self.host_platform,
            CompileKind::Target(t) => self.target_platforms[t],
        }
    }

    fn apple(&self, kind: CompileKind) -> (r: bool)
        requires
            self.wf(),
            self.kind_ok(kind),
        ensures
            r == self.apple_at(kind),
    {
        match kind {
            CompileKind::Host => self.host_apple,
            CompileKind::Target(t) => self.target_apple[t],
        }
    }

    /// The package that the dependency `i` leads to, where it counts.
    fn dep_target(&self, pkg: usize, i: usize, kind: CompileKind, for_host: bool, dep_kind: DepKind) -> (r: Option<usize>)
        requires
            self.wf(),
            self.kind_ok(kind),
            pkg < self.pkgs().len(),
            i < self.pkgs()[pkg as int].deps@.len(),
        ensures
            r.is_some() == self.dep_on(pkg as int, i as int, kind, for_host, dep_kind),
            r.is_some() ==> r == self.pkgs()[pkg as int].dep_targets@[i as int] && r.unwrap() < self.pkgs().len(),
    {
        let p: &Pkg = &self.ws.pkgs[pkg];
        let dep: &DepDecl = &p.deps[i];
        if dep.kind != dep_kind {
            return None;
        }
        let platform: PlatformCfg = self.platform(kind);
        if !dep_enabled(dep, self.res.info(pkg, for_host), &platform) {
            return None;
        }
        assert(self.pkgs()[pkg as int].dep_targets@.len() == self.pkgs()[pkg as int].deps@.len());
        match p.dep_targets[i] {
            Some(t) => {
                assert(self.pkgs()[pkg as int].dep_targets@[i as int] == Some(t));
                if self.ws.pkgs[t].loaded {
                    Some(t)
                } else {
                    None
                }
            },
            None => None,
        }
    }

    /// The library that a dependency links.
    fn lib_unit(&self, pkg: usize, kind: CompileKind, for_host: bool, parent: Mode) -> (r: Option<Identity>)
        requires
            self.wf(),
            self.kind_ok(kind),
            pkg < self.pkgs().len(),
        ensures
            r == self.lib_id(pkg as int, kind, for_host, parent),
            r.is_some() ==> self.fits(r.unwrap()),
    {
        let p: &Pkg = &self.ws.pkgs[pkg];
        match p.lib() {
            Some(lib) => {
                let check: bool = !p.proc_macro && (parent.is_check() || parent == Mode::Doc);
                Some(
                    Identity {
                        pkg,
                        target: lib,
                        kind: if p.proc_macro {
                            CompileKind::Host
                        } else {
                            kind
                        },
                        for_host: p.proc_macro || for_host,
                        mode: if check {
                            Mode::Check
                        } else {
                            Mode::Build
                        },
                        feature_side_host: p.proc_macro || for_host,
                    },
                )
            },
            None => None,
        }
    }

    fn link_name_of(&self, dep: &DepDecl, pkg: usize) -> (r: String)
        requires
            pkg < self.pkgs().len(),
            self.pkgs()[pkg as int].lib_at().is_some(),
        ensures
            r@ == self.link_name(*dep, pkg as int),
    {
        match &dep.rename {
            Some(r) => replace_char(r.as_str(), '-', '_'),
            None => {
                let p: &Pkg = &self.ws.pkgs[pkg];
                match p.lib() {
                    Some(lib) => p.targets[lib].crate_name(),
                    None => String::new(),
                }
            },
        }
    }

    fn lib_deps(&self, pkg: usize, kind: CompileKind, for_host: bool, dep_kind: DepKind, parent: Mode) -> (out: Vec<Want>)
        requires
            self.wf(),
            self.kind_ok(kind),
            pkg < self.pkgs().len(),
        ensures
            views(out@) == self.libs(pkg as int, kind, for_host, dep_kind, parent),
            all_fit(*self, views(out@)),
    {
        let mut out: Vec<Want> = Vec::new();
        let n: usize = self.ws.pkgs[pkg].deps.len();
        let mut k: usize = 0;
        assert(views(out@) =~= Seq::<(Identity, Option<Seq<char>>)>::empty());
        while k < n
            invariant
                self.wf(),
                self.kind_ok(kind),
                pkg < self.pkgs().len(),
                n == self.pkgs()[pkg as int].deps@.len(),
                k <= n,
                views(out@) == self.libs_upto(pkg as int, kind, for_host, dep_kind, parent, k as int),
                all_fit(*self, views(out@)),
            decreases n - k,
        {
            if let Some(t) = self.dep_target(pkg, k, kind, for_host, dep_kind) {
                if let Some(id) = self.lib_unit(t, kind, for_host, parent) {
                    let name: String = self.link_name_of(&self.ws.pkgs[pkg].deps[k], t);
                    push_want(&mut out, id, Some(name));
                }
            }
            k += 1;
        }
        out
    }

    fn doc_units(&self, of: &Vec<Want>) -> (out: Vec<Want>)
        requires
            all_fit(*self, views(of@)),
        ensures
            views(out@) == self.docs_upto(views(of@), of@.len() as int),
            all_fit(*self, views(out@)),
    {
        let mut out: Vec<Want> = Vec::new();
        let mut k: usize = 0;
        assert(views(out@) =~= Seq::<(Identity, Option<Seq<char>>)>::empty());
        while k < of.len()
            invariant
                all_fit(*self, views(of@)),
                k <= of@.len(),
                views(out@) == self.docs_upto(views(of@), k as int),
                all_fit(*self, views(out@)),
            decreases of@.len() - k,
        {
            let id: Identity = of[k].id;
            assert(views(of@)[k as int].0 == id);
            assert(self.fits(id));
            if self.ws.pkgs[id.pkg].targets[id.target].doc {
                push_want(&mut out, Identity { mode: Mode::Doc, feature_side_host: id.for_host, ..id }, None);
            }
            k += 1;
        }
        out
    }

    /// Those of the features that are off.
    fn off_features(&self, pkg: usize, features: &Vec<String>, for_host: bool) -> (out: Vec<String>)
        ensures
            views(out@) == self.off_upto(pkg as int, views(features@), for_host, features@.len() as int),
    {
        let mut out: Vec<String> = Vec::new();
        let info: Option<&FeatureInfo> = self.res.info(pkg, for_host);
        let mut k: usize = 0;
        assert(views(out@) =~= Seq::<Seq<char>>::empty());
        while k < features.len()
            invariant
                k <= features@.len(),
                info.is_some() == self.res.found(pkg as int, for_host).is_some(),
                info.is_some() ==> *info.unwrap() == self.res.found(pkg as int, for_host).unwrap(),
                views(out@) == self.off_upto(pkg as int, views(features@), for_host, k as int),
            decreases features@.len() - k,
        {
            let f: &str = features[k].as_str();
            let base: &str = match split_once(f, '/') {
                Some((a, _)) => a,
                None => f,
            };
            let on: bool = match info {
                Some(i) => i.named.contains(base) || i.optional_deps.contains(base),
                None => false,
            };
            if !on {
                let ghost was = views(out@);
                out.push(features[k].clone());
                assert(views(out@) =~= was.push(f@));
            }
            k += 1;
        }
        out
    }

    /// The required features of the target that are off.
    pub fn required_features_ok(&self, pkg: usize, target: usize, for_host: bool) -> (r: Result<(), Vec<String>>)
        requires
            pkg < self.pkgs().len(),
            target < self.pkgs()[pkg as int].targets@.len(),
        ensures
            match r {
                Ok(_) => self.off(pkg as int, target as int, for_host).len() == 0,
                Err(missing) => self.off(pkg as int, target as int, for_host).len() > 0 && views(missing@)
                    == self.off(pkg as int, target as int, for_host),
            },
    {
        let missing: Vec<String> = self.off_features(
            pkg,
            &self.ws.pkgs[pkg].targets[target].required_features,
            for_host,
        );
        assert(views(missing@).len() == missing@.len());
        if missing.len() == 0 {
            Ok(())
        } else {
            Err(missing)
        }
    }

    fn bin_units(&self, pkg: usize, kind: CompileKind, for_host: bool) -> (out: Vec<Want>)
        requires
            self.kind_ok(kind),
            pkg < self.pkgs().len(),
        ensures
            views(out@) == self.bins_upto(
                pkg as int,
                kind,
                for_host,
                self.pkgs()[pkg as int].targets@.len() as int,
            ),
            all_fit(*self, views(out@)),
    {
        let mut out: Vec<Want> = Vec::new();
        let n: usize = self.ws.pkgs[pkg].targets.len();
        let mut k: usize = 0;
        assert(views(out@) =~= Seq::<(Identity, Option<Seq<char>>)>::empty());
        while k < n
            invariant
                self.kind_ok(kind),
                pkg < self.pkgs().len(),
                n == self.pkgs()[pkg as int].targets@.len(),
                k <= n,
                views(out@) == self.bins_upto(pkg as int, kind, for_host, k as int),
                all_fit(*self, views(out@)),
            decreases n - k,
        {
            if self.ws.pkgs[pkg].targets[k].kind == TargetKind::Bin && self.required_features_ok(
                pkg,
                k,
                for_host,
            ).is_ok() {
                push_want(
                    &mut out,
                    Identity { pkg, target: k, kind, for_host, mode: Mode::Build, feature_side_host: for_host },
                    None,
                );
            }
            k += 1;
        }
        out
    }

    fn own_lib_units(&self, pkg: usize, lib: usize, kind: CompileKind, for_host: bool, mode: Mode) -> (out: Vec<Want>)
        requires
            self.kind_ok(kind),
            pkg < self.pkgs().len(),
            lib < self.pkgs()[pkg as int].targets@.len(),
        ensures
            views(out@) == self.own_lib(pkg as int, lib as int, kind, for_host, mode),
            all_fit(*self, views(out@)),
    {
        let p: &Pkg = &self.ws.pkgs[pkg];
        let id = Identity {
            pkg,
            target: lib,
            kind: if p.proc_macro {
                CompileKind::Host
            } else {
                kind
            },
            for_host: for_host || p.proc_macro,
            mode: if !p.proc_macro && (mode.is_check() || mode == Mode::Doc) {
                Mode::Check
            } else {
                Mode::Build
            },
            feature_side_host: for_host || p.proc_macro,
        };
        let mut out: Vec<Want> = Vec::new();
        push_want(&mut out, id, Some(p.targets[lib].crate_name()));
        if mode == Mode::Doc {
            push_want(&mut out, Identity { mode: Mode::Doc, ..id }, None);
        }
        assert(views(out@) =~= self.own_lib(pkg as int, lib as int, kind, for_host, mode));
        out
    }

    fn run_unit(&self, pkg: usize, script: usize, kind: CompileKind, for_host: bool) -> (r: Identity)
        requires
            pkg < self.pkgs().len(),
            self.pkgs()[pkg as int].script_at() == Some(script as int),
        ensures
            r == self.run_id(pkg as int, kind, for_host),
    {
        Identity { pkg, target: script, kind, for_host, mode: Mode::RunCustomBuild, feature_side_host: for_host }
    }

    fn target_needs(&self, doc_deps: bool, id: Identity) -> (out: Vec<Want>)
        requires
            self.wf(),
            self.fits(id),
        ensures
            views(out@) == self.target_wants(doc_deps, id),
            all_fit(*self, views(out@)),
    {
        let p: &Pkg = &self.ws.pkgs[id.pkg];
        let t: &Target = &p.targets[id.target];
        let dev: bool = id.mode.is_test() || t.kind == TargetKind::Example || t.kind == TargetKind::Test || t.kind
            == TargetKind::Bench;
        let mut out: Vec<Want> = self.lib_deps(id.pkg, id.kind, id.for_host, DepKind::Normal, id.mode);
        let ghost normal = views(out@);
        if dev {
            let more: Vec<Want> = self.lib_deps(id.pkg, id.kind, id.for_host, DepKind::Dev, id.mode);
            proof {
                lemma_fit_concat(*self, normal, views(more@));
            }
            append_wants(&mut out, more);
        } else {
            assert(normal + Seq::<(Identity, Option<Seq<char>>)>::empty() =~= normal);
        }
        let ghost libs = views(out@);
        // `rb doc` documents each dependency before its dependents, so cross-crate links resolve.
        if id.mode == Mode::Doc && doc_deps {
            let more: Vec<Want> = self.doc_units(&out);
            proof {
                lemma_fit_concat(*self, libs, views(more@));
            }
            append_wants(&mut out, more);
        } else {
            assert(libs + Seq::<(Identity, Option<Seq<char>>)>::empty() =~= libs);
        }
        let ghost docs = views(out@);
        if let Some(script) = p.build_script() {
            push_want(&mut out, self.run_unit(id.pkg, script, id.kind, id.for_host), None);
            assert(views(out@) =~= docs + seq![
                (self.run_id(id.pkg as int, id.kind, id.for_host), None::<Seq<char>>),
            ]);
        } else {
            assert(docs + Seq::<(Identity, Option<Seq<char>>)>::empty() =~= docs);
        }
        let ghost run = views(out@);
        let own: Vec<Want> = match p.lib() {
            Some(lib) => if t.kind != TargetKind::Lib {
                self.own_lib_units(id.pkg, lib, id.kind, id.for_host, id.mode)
            } else {
                Vec::new()
            },
            None => Vec::new(),
        };
        proof {
            if own@.len() == 0 {
                assert(views(own@) =~= Seq::<(Identity, Option<Seq<char>>)>::empty());
            }
            lemma_fit_concat(*self, run, views(own@));
        }
        append_wants(&mut out, own);
        let ghost with_own = views(out@);
        // Integration tests and benches can launch the package's bins.
        if (t.kind == TargetKind::Test || t.kind == TargetKind::Bench) && (id.mode == Mode::Test || id.mode
            == Mode::Bench || id.mode == Mode::Build) {
            let more: Vec<Want> = self.bin_units(id.pkg, id.kind, id.for_host);
            proof {
                lemma_fit_concat(*self, with_own, views(more@));
            }
            append_wants(&mut out, more);
        } else {
            assert(with_own + Seq::<(Identity, Option<Seq<char>>)>::empty() =~= with_own);
        }
        out
    }

    fn linked_run_units(&self, pkg: usize, kind: CompileKind, for_host: bool) -> (out: Vec<Want>)
        requires
            self.wf(),
            self.kind_ok(kind),
            pkg < self.pkgs().len(),
        ensures
            views(out@) == self.linked_runs(
                pkg as int,
                kind,
                for_host,
                self.pkgs()[pkg as int].deps@.len() as int,
            ),
            all_fit(*self, views(out@)),
    {
        let mut out: Vec<Want> = Vec::new();
        let n: usize = self.ws.pkgs[pkg].deps.len();
        let mut k: usize = 0;
        assert(views(out@) =~= Seq::<(Identity, Option<Seq<char>>)>::empty());
        while k < n
            invariant
                self.wf(),
                self.kind_ok(kind),
                pkg < self.pkgs().len(),
                n == self.pkgs()[pkg as int].deps@.len(),
                k <= n,
                views(out@) == self.linked_runs(pkg as int, kind, for_host, k as int),
                all_fit(*self, views(out@)),
            decreases n - k,
        {
            if let Some(t) = self.dep_target(pkg, k, kind, for_host, DepKind::Normal) {
                let d: &Pkg = &self.ws.pkgs[t];
                if let Some(script) = d.build_script() {
                    if d.links.is_some() && !d.proc_macro && d.lib().is_some() {
                        push_want(&mut out, self.run_unit(t, script, kind, for_host), None);
                    }
                }
            }
            k += 1;
        }
        out
    }

    fn script_lib_units(&self, pkg: usize, side: bool) -> (out: Vec<Want>)
        requires
            self.wf(),
            pkg < self.pkgs().len(),
        ensures
            views(out@) == self.script_libs(pkg as int, side, self.pkgs()[pkg as int].deps@.len() as int),
            all_fit(*self, views(out@)),
    {
        let mut out: Vec<Want> = Vec::new();
        let p: &Pkg = &self.ws.pkgs[pkg];
        let info: Option<&FeatureInfo> = self.res.info(pkg, side);
        let mut k: usize = 0;
        assert(views(out@) =~= Seq::<(Identity, Option<Seq<char>>)>::empty());
        while k < p.deps.len()
            invariant
                self.wf(),
                pkg < self.pkgs().len(),
                *p == self.pkgs()[pkg as int],
                info.is_some() == self.res.found(pkg as int, side).is_some(),
                info.is_some() ==> *info.unwrap() == self.res.found(pkg as int, side).unwrap(),
                k <= p.deps@.len(),
                views(out@) == self.script_libs(pkg as int, side, k as int),
                all_fit(*self, views(out@)),
            decreases p.deps@.len() - k,
        {
            let dep: &DepDecl = &p.deps[k];
            assert(self.pkgs()[pkg as int].dep_targets@.len() == self.pkgs()[pkg as int].deps@.len());
            assert(enabled(
                *dep,
                self.res.optional(pkg as int, side),
                self.host_platform.triple@,
                facts(self.host_platform.cfg@),
            ) == enabled(
                *dep,
                match info {
                    Some(i) => i.optional_deps@,
                    None => Set::empty(),
                },
                self.host_platform.triple@,
                facts(self.host_platform.cfg@),
            ));
            if dep.kind == DepKind::Build && dep_enabled(dep, info, self.host_platform) {
                if let Some(t) = p.dep_targets[k] {
                    assert(self.pkgs()[pkg as int].dep_targets@[k as int] == Some(t));
                    if let Some(lib) = self.ws.pkgs[t].lib() {
                        let name: String = self.link_name_of(dep, t);
                        push_want(
                            &mut out,
                            Identity {
                                pkg: t,
                                target: lib,
                                kind: CompileKind::Host,
                                for_host: true,
                                mode: Mode::Build,
                                feature_side_host: true,
                            },
                            Some(name),
                        );
                    }
                }
            }
            k += 1;
        }
        out
    }

    fn script_unit(&self, pkg: usize, script: usize, owner_host_side: bool) -> (r: Identity)
        requires
            pkg < self.pkgs().len(),
            self.pkgs()[pkg as int].script_at() == Some(script as int),
        ensures
            r == self.script_id(pkg as int, owner_host_side),
    {
        let differs: bool = !self.same_sides(pkg);
        Identity {
            pkg,
            target: script,
            kind: CompileKind::Host,
            for_host: true,
            mode: Mode::Build,
            feature_side_host: owner_host_side && differs,
        }
    }

    /// Both sides have the same features.
    fn same_sides(&self, pkg: usize) -> (r: bool)
        ensures
            r == (self.res.named(pkg as int, true) == self.res.named(pkg as int, false) && self.res.optional(
                pkg as int,
                true,
            ) == self.res.optional(pkg as int, false)),
    {
        match (self.res.info(pkg, true), self.res.info(pkg, false)) {
            (Some(h), Some(t)) => h.named.same_as(&t.named) && h.optional_deps.same_as(&t.optional_deps),
            (Some(i), None) => i.named.is_empty() && i.optional_deps.is_empty(),
            (None, Some(i)) => i.named.is_empty() && i.optional_deps.is_empty(),
            (None, None) => true,
        }
    }

    /// The units that a unit needs, in order, with the names by which they are linked.
    fn needs(&self, doc_deps: bool, id: Identity) -> (out: Vec<Want>)
        requires
            self.wf(),
            self.fits(id),
        ensures
            views(out@) == self.wants(doc_deps, id),
            all_fit(*self, views(out@)),
    {
        let p: &Pkg = &self.ws.pkgs[id.pkg];
        if id.mode == Mode::RunCustomBuild {
            let mut out: Vec<Want> = Vec::new();
            if let Some(script) = p.build_script() {
                push_want(&mut out, self.script_unit(id.pkg, script, id.for_host), None);
            }
            let ghost head = views(out@);
            assert(head =~= seq![(self.script_id(id.pkg as int, id.for_host), None::<Seq<char>>)]);
            let more: Vec<Want> = self.linked_run_units(id.pkg, id.kind, id.for_host);
            proof {
                lemma_fit_concat(*self, head, views(more@));
            }
            append_wants(&mut out, more);
            out
        } else if p.targets[id.target].kind == TargetKind::BuildScript {
            self.script_lib_units(id.pkg, id.feature_side_host)
        } else {
            self.target_needs(doc_deps, id)
        }
    }
}

// ---------------------------------------------------------------------------
// The graph of units
// ---------------------------------------------------------------------------

/// The unit is the one with that identity, apart from what it needs.
pub open spec fn is_unit(i: GraphInputs, u: Unit, id: Identity) -> bool {
    &&& u.pkg == id.pkg
    &&& u.target == id.target
    &&& u.kind == id.kind
    &&& u.for_host == id.for_host
    &&& u.mode == id.mode
    &&& ascending(views(u.features@))
    &&& views(u.features@).to_set() == i.res.named(id.pkg as int, id.feature_side_host)
}

/// The dependencies are those that are wanted, in that order.
pub open spec fn meets_wants(deps: Seq<UnitDep>, ids: Seq<Identity>, wants: Seq<(Identity, Option<Seq<char>>)>) -> bool {
    deps.len() == wants.len() && forall|k: int|
        0 <= k < deps.len() ==> (#[trigger] deps[k]).unit < ids.len() && (
        ids[deps[k].unit as int],
        opt_view(deps[k].extern_name),
        ) == wants[k]
}

/// The set holds whatever its members need.
pub open spec fn closed_ids(i: GraphInputs, doc_deps: bool, c: Set<Identity>) -> bool {
    forall|x: Identity, k: int|
        c.contains(x) && 0 <= k < i.wants(doc_deps, x).len() ==> c.contains((#[trigger] i.wants(doc_deps, x)[k]).0)
}

/// The unit is needed: every set that holds the first ones, and whatever its members need, holds it.
pub open spec fn needed(i: GraphInputs, doc_deps: bool, first: Seq<Identity>, id: Identity) -> bool {
    forall|c: Set<Identity>|
        closed_ids(i, doc_deps, c) && (forall|k: int| 0 <= k < first.len() ==> c.contains(#[trigger] first[k]))
            ==> #[trigger] c.contains(id)
}

type Code = ((int, int), ((CompileKind, bool), (Mode, bool)));

spec fn code(id: Identity) -> Code {
    ((id.pkg as int, id.target as int), ((id.kind, id.for_host), (id.mode, id.feature_side_host)))
}

spec fn most_targets(pkgs: Seq<Pkg>, k: int) -> int
    decreases k,
{
    if k <= 0 {
        0
    } else {
        most_targets(pkgs, k - 1) + pkgs[k - 1].targets@.len()
    }
}

spec fn all_modes() -> Seq<Mode> {
    seq![
        Mode::Build,
        Mode::Check,
        Mode::CheckTest,
        Mode::Test,
        Mode::Bench,
        Mode::Doc,
        Mode::RunCustomBuild,
    ]
}

spec fn all_kinds(n: nat) -> Seq<CompileKind> {
    Seq::new(
        n + 1,
        |j: int|
            if j == 0 {
                CompileKind::Host
            } else {
                CompileKind::Target((j - 1) as usize)
            },
    )
}

/// Every identity that a unit can have.
spec fn universe(i: GraphInputs) -> Seq<Code> {
    let sides = seq![true, false];
    pairs(
        pairs(upto(i.pkgs().len() as int), upto(most_targets(i.pkgs(), i.pkgs().len() as int))),
        pairs(pairs(all_kinds(i.target_platforms@.len()), sides), pairs(all_modes(), sides)),
    )
}

proof fn lemma_most_targets(pkgs: Seq<Pkg>, p: int, k: int)
    requires
        0 <= p < k <= pkgs.len(),
    ensures
        pkgs[p].targets@.len() <= most_targets(pkgs, k),
    decreases k,
{
    lemma_most_positive(pkgs, k - 1);
    if p < k - 1 {
        lemma_most_targets(pkgs, p, k - 1);
    }
}

proof fn lemma_most_positive(pkgs: Seq<Pkg>, k: int)
    ensures
        most_targets(pkgs, k) >= 0,
    decreases k,
{
    if k > 0 {
        lemma_most_positive(pkgs, k - 1);
    }
}

proof fn lemma_in_universe(i: GraphInputs, id: Identity)
    requires
        i.fits(id),
    ensures
        universe(i).contains(code(id)),
{
    let sides = seq![true, false];
    assert(sides[0] == true && sides[1] == false);
    assert(sides.contains(id.for_host) && sides.contains(id.feature_side_host));
    let modes = all_modes();
    assert(modes.contains(id.mode)) by {
        assert(modes[0] == Mode::Build && modes[1] == Mode::Check && modes[2] == Mode::CheckTest && modes[3]
            == Mode::Test && modes[4] == Mode::Bench && modes[5] == Mode::Doc && modes[6] == Mode::RunCustomBuild);
    }
    let kinds = all_kinds(i.target_platforms@.len());
    assert(kinds.contains(id.kind)) by {
        match id.kind {
            CompileKind::Host => {
                assert(kinds[0] == id.kind);
            },
            CompileKind::Target(t) => {
                assert(kinds[t + 1] == id.kind);
            },
        }
    }
    let n = i.pkgs().len() as int;
    let m = most_targets(i.pkgs(), n);
    lemma_most_targets(i.pkgs(), id.pkg as int, n);
    assert(upto(n)[id.pkg as int] == id.pkg as int);
    assert(upto(m)[id.target as int] == id.target as int);
    lemma_pairs(upto(n), upto(m), id.pkg as int, id.target as int);
    lemma_pairs(kinds, sides, id.kind, id.for_host);
    lemma_pairs(modes, sides, id.mode, id.feature_side_host);
    lemma_pairs(
        pairs(kinds, sides),
        pairs(modes, sides),
        (id.kind, id.for_host),
        (id.mode, id.feature_side_host),
    );
    lemma_pairs(
        pairs(upto(n), upto(m)),
        pairs(pairs(kinds, sides), pairs(modes, sides)),
        (id.pkg as int, id.target as int),
        ((id.kind, id.for_host), (id.mode, id.feature_side_host)),
    );
}

/// As many units as there can be.
pub closed spec fn bound(i: GraphInputs) -> nat {
    universe(i).to_set().len()
}

proof fn lemma_bounded(i: GraphInputs, ids: Seq<Identity>)
    requires
        ids.no_duplicates(),
        forall|k: int| 0 <= k < ids.len() ==> i.fits(#[trigger] ids[k]),
    ensures
        ids.len() <= bound(i),
{
    let codes = ids.map_values(|id: Identity| code(id));
    assert forall|a: int, b: int| 0 <= a < codes.len() && 0 <= b < codes.len() && a != b implies codes[a] != codes[b] by {
        assert(ids[a] != ids[b]);
    }
    assert forall|a: int| 0 <= a < codes.len() implies universe(i).contains(#[trigger] codes[a]) by {
        assert(i.fits(ids[a]));
        lemma_in_universe(i, ids[a]);
    }
    lemma_no_longer(codes, universe(i));
}

// ---------------------------------------------------------------------------
// The order in which units are met: each is followed by what it needs and was not met before, with what that needs.

/// The units that were met, once one more is asked for.
pub open spec fn met(i: GraphInputs, doc_deps: bool, ids: Seq<Identity>, id: Identity) -> Seq<Identity>
    decreases bound(i) - ids.len(), 0int,
{
    if ids.contains(id) || ids.len() >= bound(i) {
        ids
    } else {
        met_upto(i, doc_deps, ids.push(id), i.wants(doc_deps, id), i.wants(doc_deps, id).len() as int)
    }
}

/// The units that were met, once the first `k` of some are asked for in turn. None is forgotten, and there are no more than
/// there can be.
pub open spec fn met_upto(
    i: GraphInputs,
    doc_deps: bool,
    ids: Seq<Identity>,
    ws: Seq<(Identity, Option<Seq<char>>)>,
    k: int,
) -> Seq<Identity>
    decreases bound(i) - ids.len(), k,
{
    if k <= 0 || k > ws.len() {
        ids
    } else {
        let before = met_upto(i, doc_deps, ids, ws, k - 1);
        if ids.len() <= before.len() <= bound(i) {
            met(i, doc_deps, before, ws[k - 1].0)
        } else {
            before
        }
    }
}

struct Builder<'a> {
    i: &'a GraphInputs<'a>,
    units: Vec<Unit>,
    ids: Vec<Identity>,
    doc_deps: bool,
}

impl<'a> Builder<'a> {
    spec fn wf(self) -> bool {
        &&& self.i.wf()
        &&& self.ids@.len() == self.units@.len()
        &&& self.ids@.no_duplicates()
        &&& forall|k: int|
            0 <= k < self.ids@.len() ==> self.i.fits(#[trigger] self.ids@[k]) && is_unit(
                *self.i,
                self.units@[k],
                self.ids@[k],
            )
    }

    /// The unit `k` has its dependencies.
    spec fn done(self, k: int) -> bool {
        meets_wants(self.units@[k].deps@, self.ids@, self.i.wants(self.doc_deps, self.ids@[k]))
    }

    /// The unit `k` has the profile that its identity calls for.
    spec fn plain(self, k: int) -> bool {
        self.units@[k].profile@ == self.i.profile_at(self.ids@[k])
    }

    spec fn settled(self, k: int) -> bool {
        self.done(k) && self.plain(k)
    }

    /// The other builder holds what this one holds, and more units, each with its dependencies.
    spec fn grows(self, other: Builder<'a>) -> bool {
        &&& self.i == other.i
        &&& self.doc_deps == other.doc_deps
        &&& self.ids@.len() <= other.ids@.len()
        &&& forall|k: int| 0 <= k < self.ids@.len() ==> #[trigger] other.ids@[k] == self.ids@[k]
        &&& forall|k: int| 0 <= k < self.ids@.len() ==> #[trigger] other.units@[k] == self.units@[k]
        &&& forall|k: int| self.ids@.len() <= k < other.ids@.len() ==> #[trigger] other.settled(k)
    }

    fn find(&self, id: Identity) -> (r: Option<usize>)
        requires
            self.wf(),
        ensures
            match r {
                Some(u) => u < self.ids@.len() && self.ids@[u as int] == id,
                None => !self.ids@.contains(id),
            },
    {
        let mut k: usize = 0;
        while k < self.ids.len()
            invariant
                k <= self.ids@.len(),
                forall|j: int| 0 <= j < k ==> self.ids@[j] != id,
            decreases self.ids@.len() - k,
        {
            if self.ids[k] == id {
                return Some(k);
            }
            k += 1;
        }
        None
    }

    fn profile(&self, id: Identity) -> (r: Profile)
        requires
            self.i.wf(),
            self.i.fits(id),
        ensures
            r@ == self.i.profile_at(id),
    {
        let p: Profile = self.i.profiles.get(&self.i.ws.pkgs[id.pkg], id.for_host, self.i.apple(id.kind));
        if id.mode.is_test() {
            Profile { panic: "unwind".to_owned(), ..p }
        } else {
            p
        }
    }

    fn features(&self, id: Identity) -> (r: Vec<String>)
        ensures
            ascending(views(r@)),
            views(r@).to_set() == self.i.res.named(id.pkg as int, id.feature_side_host),
    {
        match self.i.res.info(id.pkg, id.feature_side_host) {
            Some(fi) => dup_list(fi.named.items()),
            None => {
                let r: Vec<String> = Vec::new();
                assert(views(r@).to_set() =~= Set::<Seq<char>>::empty());
                r
            },
        }
    }

    /// The unit with that identity; a new one comes with whatever it needs.
    fn unit(&mut self, id: Identity) -> (u: usize)
        requires
            old(self).wf(),
            old(self).i.fits(id),
        ensures
            final(self).wf(),
            old(self).grows(*final(self)),
            u < final(self).ids@.len(),
            final(self).ids@[u as int] == id,
            final(self).ids@ == met(*old(self).i, old(self).doc_deps, old(self).ids@, id),
            forall|c: Set<Identity>, k: int|
                closed_ids(*old(self).i, old(self).doc_deps, c) && c.contains(id) && old(self).ids@.len() <= k
                    < final(self).ids@.len() ==> #[trigger] c.contains(final(self).ids@[k]),
        decreases bound(*old(self).i) - old(self).ids@.len(),
    {
        if let Some(u) = self.find(id) {
            return u;
        }
        let ghost start = *self;
        proof {
            assert(self.ids@.push(id).no_duplicates());
            assert forall|k: int| 0 <= k < self.ids@.push(id).len() implies self.i.fits(
                #[trigger] self.ids@.push(id)[k],
            ) by {
                if k < self.ids@.len() {
                    assert(self.ids@.push(id)[k] == self.ids@[k]);
                }
            }
            lemma_bounded(*self.i, self.ids@.push(id));
        }
        let u: usize = self.units.len();
        let features: Vec<String> = self.features(id);
        let profile: Profile = self.profile(id);
        let ghost prof = profile@;
        self.units.push(
            Unit {
                pkg: id.pkg,
                target: id.target,
                kind: id.kind,
                for_host: id.for_host,
                mode: id.mode,
                features,
                profile,
                deps: Vec::new(),
            },
        );
        self.ids.push(id);
        let wants: Vec<Want> = self.i.needs(self.doc_deps, id);
        let ghost ws = views(wants@);
        let mut deps: Vec<UnitDep> = Vec::new();
        let mut k: usize = 0;
        let ghost me = *self;
        while k < wants.len()
            invariant
                self.wf(),
                me.grows(*self),
                me.ids@ == start.ids@.push(id),
                me.i == start.i,
                start == *old(self),
                u == start.ids@.len(),
                bound(*start.i) >= start.ids@.len() + 1,
                ws == views(wants@),
                ws == start.i.wants(start.doc_deps, id),
                me.doc_deps == start.doc_deps,
                all_fit(*self.i, ws),
                k <= wants@.len(),
                self.ids@ == met_upto(*start.i, start.doc_deps, start.ids@.push(id), ws, k as int),
                deps@.len() == k,
                forall|c: Set<Identity>, k: int|
                    closed_ids(*start.i, start.doc_deps, c) && c.contains(id) && start.ids@.len() <= k
                        < self.ids@.len() ==> #[trigger] c.contains(self.ids@[k]),
                forall|j: int|
                    0 <= j < k ==> (#[trigger] deps@[j]).unit < self.ids@.len() && (
                    self.ids@[deps@[j].unit as int],
                    opt_view(deps@[j].extern_name),
                    ) == ws[j],
            decreases wants@.len() - k,
        {
            assert(ws[k as int] == wants@[k as int]@);
            assert(self.i.fits(ws[k as int].0));
            let ghost before = *self;
            let ghost ds = deps@;
            proof {
                assert(me.grows(before));
                lemma_bounded(*self.i, self.ids@);
            }
            let d: usize = self.unit(wants[k].id);
            let name: Option<String> = match &wants[k].name {
                Some(n) => Some(n.clone()),
                None => None,
            };
            deps.push(UnitDep { unit: d, extern_name: name });
            proof {
                lemma_grows(me, before, *self);
                assert forall|c: Set<Identity>, j: int|
                    closed_ids(*start.i, start.doc_deps, c) && c.contains(id) && start.ids@.len() <= j
                        < self.ids@.len() implies #[trigger] c.contains(self.ids@[j]) by {
                    if j < before.ids@.len() {
                        assert(self.ids@[j] == before.ids@[j]);
                        assert(c.contains(before.ids@[j]));
                    } else {
                        assert(c.contains(start.i.wants(start.doc_deps, id)[k as int].0));
                    }
                }
                assert forall|j: int| 0 <= j < k + 1 implies (#[trigger] deps@[j]).unit < self.ids@.len() && (
                    self.ids@[deps@[j].unit as int],
                    opt_view(deps@[j].extern_name),
                ) == ws[j] by {
                    if j < k {
                        assert(deps@[j] == ds[j]);
                        assert(self.ids@[ds[j].unit as int] == before.ids@[ds[j].unit as int]);
                    }
                }
            }
            k += 1;
        }
        let ghost last = *self;
        assert(me.grows(last));
        assert(last.units@[u as int] == me.units@[u as int]);
        self.set_deps(u, deps);
        proof {
            lemma_finish(start, me, last, *self, id);
            assert(self.ids@[u as int] == last.ids@[u as int] && last.ids@[u as int] == me.ids@[u as int]);
        }
        u
    }

    fn set_deps(&mut self, u: usize, deps: Vec<UnitDep>)
        requires
            old(self).wf(),
            u < old(self).ids@.len(),
        ensures
            final(self).wf(),
            final(self).i == old(self).i,
            final(self).doc_deps == old(self).doc_deps,
            final(self).ids == old(self).ids,
            final(self).units@.len() == old(self).units@.len(),
            forall|j: int|
                0 <= j < old(self).units@.len() && j != u ==> #[trigger] final(self).units@[j] == old(self).units@[j],
            final(self).units@[u as int].deps == deps,
            final(self).units@[u as int].profile == old(self).units@[u as int].profile,
    {
        let mut units: Vec<Unit> = Vec::new();
        std::mem::swap(&mut units, &mut self.units);
        let ghost was = units@;
        let old_unit: Unit = units.remove(u);
        units.insert(u, Unit { deps, ..old_unit });
        assert(units@ =~= was.update(u as int, units@[u as int]));
        self.units = units;
        assert forall|k: int| 0 <= k < self.ids@.len() implies self.i.fits(#[trigger] self.ids@[k]) && is_unit(
            *self.i,
            self.units@[k],
            self.ids@[k],
        ) by {
            assert(old(self).i.fits(old(self).ids@[k]));
            assert(is_unit(*self.i, was[k], self.ids@[k]));
        }
    }
}

proof fn lemma_grows<'a>(a: Builder<'a>, b: Builder<'a>, c: Builder<'a>)
    requires
        b.wf(),
        a.grows(b),
        b.grows(c),
    ensures
        a.grows(c),
{
    assert forall|j: int| 0 <= j < a.ids@.len() implies #[trigger] c.ids@[j] == a.ids@[j] by {
        assert(b.ids@[j] == a.ids@[j]);
    }
    assert forall|j: int| 0 <= j < a.ids@.len() implies #[trigger] c.units@[j] == a.units@[j] by {
        assert(b.units@[j] == a.units@[j]);
    }
    assert forall|j: int| a.ids@.len() <= j < c.ids@.len() implies #[trigger] c.settled(j) by {
        if j < b.ids@.len() {
            assert(b.settled(j));
            lemma_done_stays(b, c, j);
        }
    }
}

/// Once the new unit has its dependencies, everything that was added has.
proof fn lemma_finish<'a>(start: Builder<'a>, me: Builder<'a>, last: Builder<'a>, end: Builder<'a>, id: Identity)
    requires
        start.wf(),
        me.i == start.i,
        me.doc_deps == start.doc_deps,
        me.ids@ == start.ids@.push(id),
        me.units@.len() == me.ids@.len(),
        forall|j: int| 0 <= j < start.ids@.len() ==> #[trigger] me.units@[j] == start.units@[j],
        me.plain(start.ids@.len() as int),
        me.grows(last),
        end.i == last.i,
        end.doc_deps == last.doc_deps,
        end.ids == last.ids,
        end.units@.len() == last.units@.len(),
        forall|j: int|
            0 <= j < last.units@.len() && j != start.ids@.len() ==> #[trigger] end.units@[j] == last.units@[j],
        end.units@[start.ids@.len() as int].profile == last.units@[start.ids@.len() as int].profile,
        end.done(start.ids@.len() as int),
        last.wf(),
    ensures
        start.grows(end),
{
    let u = start.ids@.len() as int;
    assert forall|j: int| 0 <= j < start.ids@.len() implies #[trigger] end.ids@[j] == start.ids@[j] by {
        assert(last.ids@[j] == me.ids@[j]);
    }
    assert forall|j: int| 0 <= j < start.ids@.len() implies #[trigger] end.units@[j] == start.units@[j] by {
        assert(last.units@[j] == me.units@[j]);
    }
    assert forall|j: int| start.ids@.len() <= j < end.ids@.len() implies #[trigger] end.settled(j) by {
        if j == u {
            assert(last.ids@[j] == me.ids@[j]);
            assert(last.units@[j] == me.units@[j]);
        } else {
            assert(last.settled(j));
            assert(end.units@[j] == last.units@[j]);
        }
    }
}

proof fn lemma_done_stays<'a>(a: Builder<'a>, b: Builder<'a>, j: int)
    requires
        a.wf(),
        a.grows(b),
        0 <= j < a.ids@.len(),
        a.done(j),
    ensures
        b.done(j),
        b.plain(j) == a.plain(j),
{
    assert(b.units@[j] == a.units@[j] && b.ids@[j] == a.ids@[j]);
    let deps = a.units@[j].deps@;
    assert forall|k: int| 0 <= k < deps.len() implies (#[trigger] deps[k]).unit < b.ids@.len()
        && b.ids@[deps[k].unit as int] == a.ids@[deps[k].unit as int] by {
        assert(deps[k].unit < a.ids@.len());
    }
}

// ---------------------------------------------------------------------------
// The units that a command asks for
// ---------------------------------------------------------------------------

/// The filter names the target.
pub open spec fn names_target(f: TargetFilter, t: Target) -> bool {
    match t.kind {
        TargetKind::Bin => views(f.bin_names@).contains(t.name@),
        TargetKind::Example => views(f.example_names@).contains(t.name@),
        TargetKind::Test => views(f.test_names@).contains(t.name@),
        TargetKind::Bench => views(f.bench_names@).contains(t.name@),
        _ => false,
    }
}

/// The filter asks for the targets of that kind.
pub open spec fn flags_kind(f: TargetFilter, kind: TargetKind) -> bool {
    (match kind {
        TargetKind::Lib => f.lib,
        TargetKind::Bin => f.bins,
        TargetKind::Example => f.examples,
        TargetKind::Test => f.tests,
        TargetKind::Bench => f.benches,
        TargetKind::BuildScript => false,
    }) || (f.all_targets && kind != TargetKind::BuildScript)
}

/// A library among the targets has that name.
pub open spec fn lib_named(targets: Seq<Target>, name: Seq<char>) -> bool {
    exists|k: int|
        0 <= k < targets.len() && (#[trigger] targets[k]).kind == TargetKind::Lib && targets[k].name@ == name
}

/// The command is about the target where no filter says otherwise.
pub open spec fn by_default(command: Command, targets: Seq<Target>, t: Target) -> bool {
    if t.kind == TargetKind::BuildScript {
        false
    } else {
        match command {
            Command::Build | Command::Check => t.kind == TargetKind::Lib || t.kind == TargetKind::Bin,
            Command::Test => t.kind == TargetKind::Example || t.test,
            Command::Bench => t.bench,
            // A bin named like the lib would overwrite the lib's docs. Cargo skips it.
            Command::Doc { .. } => t.doc && (t.kind == TargetKind::Lib || (t.kind == TargetKind::Bin && !lib_named(
                targets,
                t.name@,
            ))),
            Command::Run => false,
        }
    }
}

/// Test and bench targets are always test builds, harness or not. `test` and `bench` also test
/// everything else they select, except examples that didn't ask for it.
pub open spec fn mode_for(command: Command, t: Target) -> Mode {
    let test_target = t.kind == TargetKind::Test || t.kind == TargetKind::Bench;
    match command {
        Command::Build | Command::Run => if test_target {
            Mode::Test
        } else {
            Mode::Build
        },
        Command::Check => if test_target {
            Mode::CheckTest
        } else {
            Mode::Check
        },
        Command::Test => if t.kind == TargetKind::Example && !t.test {
            Mode::Build
        } else {
            Mode::Test
        },
        Command::Bench => if t.kind == TargetKind::Example && !t.bench {
            Mode::Build
        } else {
            Mode::Bench
        },
        Command::Doc { .. } => Mode::Doc,
    }
}

/// The targets among the first `k` that the command is about, in which mode, and whether by name.
pub open spec fn chosen(targets: Seq<Target>, command: Command, f: TargetFilter, k: int) -> Seq<(usize, Mode, bool)>
    decreases k,
{
    if k <= 0 {
        Seq::empty()
    } else {
        let rest = chosen(targets, command, f, k - 1);
        let t = targets[k - 1];
        let wanted = if f.is_explicit() {
            names_target(f, t) || flags_kind(f, t.kind)
        } else {
            by_default(command, targets, t)
        };
        if wanted {
            rest.push(((k - 1) as usize, mode_for(command, t), names_target(f, t)))
        } else {
            rest
        }
    }
}

fn is_named(f: &TargetFilter, t: &Target) -> (r: bool)
    ensures
        r == names_target(*f, *t),
{
    match t.kind {
        TargetKind::Bin => any_is(&f.bin_names, t.name.as_str()),
        TargetKind::Example => any_is(&f.example_names, t.name.as_str()),
        TargetKind::Test => any_is(&f.test_names, t.name.as_str()),
        TargetKind::Bench => any_is(&f.bench_names, t.name.as_str()),
        _ => false,
    }
}

fn has_lib_named(targets: &Vec<Target>, name: &str) -> (r: bool)
    ensures
        r == lib_named(targets@, name@),
{
    let mut k: usize = 0;
    while k < targets.len()
        invariant
            k <= targets@.len(),
            forall|j: int|
                0 <= j < k ==> !((#[trigger] targets@[j]).kind == TargetKind::Lib && targets@[j].name@ == name@),
        decreases targets@.len() - k,
    {
        if targets[k].kind == TargetKind::Lib && same(targets[k].name.as_str(), name) {
            return true;
        }
        k += 1;
    }
    false
}

fn default_for(command: Command, targets: &Vec<Target>, t: &Target) -> (r: bool)
    ensures
        r == by_default(command, targets@, *t),
{
    if t.kind == TargetKind::BuildScript {
        return false;
    }
    match command {
        Command::Build | Command::Check => t.kind == TargetKind::Lib || t.kind == TargetKind::Bin,
        Command::Test => t.kind == TargetKind::Example || t.test,
        Command::Bench => t.bench,
        Command::Doc { .. } => t.doc && (t.kind == TargetKind::Lib || (t.kind == TargetKind::Bin && !has_lib_named(
            targets,
            t.name.as_str(),
        ))),
        Command::Run => false,
    }
}

fn select_mode(command: Command, t: &Target) -> (r: Mode)
    ensures
        r == mode_for(command, *t),
{
    let test_target: bool = t.kind == TargetKind::Test || t.kind == TargetKind::Bench;
    match command {
        Command::Build | Command::Run => if test_target {
            Mode::Test
        } else {
            Mode::Build
        },
        Command::Check => if test_target {
            Mode::CheckTest
        } else {
            Mode::Check
        },
        Command::Test => if t.kind == TargetKind::Example && !t.test {
            Mode::Build
        } else {
            Mode::Test
        },
        Command::Bench => if t.kind == TargetKind::Example && !t.bench {
            Mode::Build
        } else {
            Mode::Bench
        },
        Command::Doc { .. } => Mode::Doc,
    }
}

/// The targets of a package that the command is about, in which mode, and whether by name.
pub fn select_targets(p: &Pkg, command: Command, f: &TargetFilter) -> (out: Vec<(usize, Mode, bool)>)
    ensures
        out@ == chosen(p.targets@, command, *f, p.targets@.len() as int),
        forall|k: int| 0 <= k < out@.len() ==> (#[trigger] out@[k]).0 < p.targets@.len() && out@[k].1
            != Mode::RunCustomBuild,
{
    let explicit: bool = f.explicit();
    let mut out: Vec<(usize, Mode, bool)> = Vec::new();
    let mut k: usize = 0;
    while k < p.targets.len()
        invariant
            k <= p.targets@.len(),
            explicit == f.is_explicit(),
            out@ == chosen(p.targets@, command, *f, k as int),
            forall|j: int| 0 <= j < out@.len() ==> (#[trigger] out@[j]).0 < p.targets@.len() && out@[j].1
                != Mode::RunCustomBuild,
        decreases p.targets@.len() - k,
    {
        let t: &Target = &p.targets[k];
        let named: bool = is_named(f, t);
        let flagged: bool = (match t.kind {
            TargetKind::Lib => f.lib,
            TargetKind::Bin => f.bins,
            TargetKind::Example => f.examples,
            TargetKind::Test => f.tests,
            TargetKind::Bench => f.benches,
            TargetKind::BuildScript => false,
        }) || (f.all_targets && t.kind != TargetKind::BuildScript);
        let wanted: bool = if explicit {
            named || flagged
        } else {
            default_for(command, &p.targets, t)
        };
        if wanted {
            out.push((k, select_mode(command, t), named));
        }
        k += 1;
    }
    out
}

/// A unit that a command may ask for.
#[derive(Clone, Copy, Debug, PartialEq, Eq, Structural)]
pub struct Candidate {
    pub id: Identity,
    /// The platform that was asked for.
    pub requested: CompileKind,
    /// The filter names the target.
    pub named: bool,
}

/// The platforms that a command is for.
pub open spec fn requested_kinds(i: GraphInputs) -> Seq<CompileKind> {
    if i.no_target {
        seq![CompileKind::Host]
    } else {
        Seq::new(i.target_platforms@.len(), |k: int| CompileKind::Target(k as usize))
    }
}

/// The candidate for a target on a platform: proc-macros are for the host.
pub open spec fn candidate(i: GraphInputs, pkg: int, c: (usize, Mode, bool), kind: CompileKind) -> Candidate {
    let host = i.pkgs()[pkg].targets@[c.0 as int].proc_macro();
    Candidate {
        id: Identity {
            pkg: pkg as usize,
            target: c.0,
            kind: if host {
                CompileKind::Host
            } else {
                kind
            },
            for_host: host,
            mode: c.1,
            feature_side_host: host,
        },
        requested: kind,
        named: c.2,
    }
}

pub open spec fn candidates_for(i: GraphInputs, pkg: int, c: (usize, Mode, bool), kinds: Seq<CompileKind>) -> Seq<
    Candidate,
> {
    Seq::new(kinds.len(), |k: int| candidate(i, pkg, c, kinds[k]))
}

pub open spec fn candidates_of(i: GraphInputs, pkg: int, cs: Seq<(usize, Mode, bool)>, k: int) -> Seq<Candidate>
    decreases k,
{
    if k <= 0 {
        Seq::empty()
    } else {
        candidates_of(i, pkg, cs, k - 1) + candidates_for(i, pkg, cs[k - 1], requested_kinds(i))
    }
}

/// What the command may ask for of the first `k` packages.
pub open spec fn candidates(i: GraphInputs, packages: Seq<usize>, f: TargetFilter, k: int) -> Seq<Candidate>
    decreases k,
{
    if k <= 0 {
        Seq::empty()
    } else {
        let p = packages[k - 1] as int;
        let cs = chosen(i.pkgs()[p].targets@, i.command, f, i.pkgs()[p].targets@.len() as int);
        candidates(i, packages, f, k - 1) + candidates_of(i, p, cs, cs.len() as int)
    }
}

/// The features that a candidate requires and that are off. Libraries require none.
pub open spec fn lacks_features(i: GraphInputs, c: Candidate) -> Seq<Seq<char>> {
    if i.pkgs()[c.id.pkg as int].targets@[c.id.target as int].kind == TargetKind::Lib {
        Seq::empty()
    } else {
        i.off(c.id.pkg as int, c.id.target as int, c.id.for_host)
    }
}

pub open spec fn candidate_ok(i: GraphInputs, c: Candidate) -> bool {
    i.fits(c.id) && i.kind_ok(c.requested) && c.id.mode != Mode::RunCustomBuild
}

fn list_kinds(i: &GraphInputs<'_>) -> (out: Vec<CompileKind>)
    ensures
        out@ == requested_kinds(*i),
        forall|k: int| 0 <= k < out@.len() ==> i.kind_ok(#[trigger] out@[k]),
{
    let mut out: Vec<CompileKind> = Vec::new();
    if i.no_target {
        out.push(CompileKind::Host);
        return out;
    }
    let n: usize = i.target_platforms.len();
    let mut k: usize = 0;
    while k < n
        invariant
            k <= n,
            n == i.target_platforms@.len(),
            out@ == Seq::new(k as nat, |j: int| CompileKind::Target(j as usize)),
        decreases n - k,
    {
        out.push(CompileKind::Target(k));
        k += 1;
    }
    out
}

fn list_candidates(i: &GraphInputs<'_>, packages: &Vec<usize>, f: &TargetFilter) -> (out: Vec<Candidate>)
    requires
        i.wf(),
        forall|k: int| 0 <= k < packages@.len() ==> #[trigger] packages@[k] < i.pkgs().len(),
    ensures
        out@ == candidates(*i, packages@, *f, packages@.len() as int),
        forall|k: int| 0 <= k < out@.len() ==> candidate_ok(*i, #[trigger] out@[k]),
{
    let kinds: Vec<CompileKind> = list_kinds(i);
    let mut out: Vec<Candidate> = Vec::new();
    let mut k: usize = 0;
    while k < packages.len()
        invariant
            i.wf(),
            forall|k: int| 0 <= k < packages@.len() ==> #[trigger] packages@[k] < i.pkgs().len(),
            kinds@ == requested_kinds(*i),
            forall|j: int| 0 <= j < kinds@.len() ==> i.kind_ok(#[trigger] kinds@[j]),
            k <= packages@.len(),
            out@ == candidates(*i, packages@, *f, k as int),
            forall|j: int| 0 <= j < out@.len() ==> candidate_ok(*i, #[trigger] out@[j]),
        decreases packages@.len() - k,
    {
        let pkg: usize = packages[k];
        let p: &Pkg = &i.ws.pkgs[pkg];
        let cs: Vec<(usize, Mode, bool)> = select_targets(p, i.command, f);
        let ghost start = out@;
        let mut a: usize = 0;
        while a < cs.len()
            invariant
                i.wf(),
                pkg < i.pkgs().len(),
                *p == i.pkgs()[pkg as int],
                kinds@ == requested_kinds(*i),
                forall|j: int| 0 <= j < kinds@.len() ==> i.kind_ok(#[trigger] kinds@[j]),
                forall|j: int| 0 <= j < cs@.len() ==> (#[trigger] cs@[j]).0 < p.targets@.len() && cs@[j].1
                    != Mode::RunCustomBuild,
                a <= cs@.len(),
                out@ == start + candidates_of(*i, pkg as int, cs@, a as int),
                forall|j: int| 0 <= j < out@.len() ==> candidate_ok(*i, #[trigger] out@[j]),
            decreases cs@.len() - a,
        {
            let (ti, mode, named): (usize, Mode, bool) = cs[a];
            let host: bool = p.targets[ti].is_proc_macro();
            let ghost inner = out@;
            let mut b: usize = 0;
            while b < kinds.len()
                invariant
                    i.wf(),
                    pkg < i.pkgs().len(),
                    *p == i.pkgs()[pkg as int],
                    a < cs@.len(),
                    cs@[a as int] == (ti, mode, named),
                    mode != Mode::RunCustomBuild,
                    ti < p.targets@.len(),
                    host == p.targets@[ti as int].proc_macro(),
                    forall|j: int| 0 <= j < kinds@.len() ==> i.kind_ok(#[trigger] kinds@[j]),
                    b <= kinds@.len(),
                    out@ == inner + candidates_for(*i, pkg as int, cs@[a as int], kinds@).take(b as int),
                    forall|j: int| 0 <= j < out@.len() ==> candidate_ok(*i, #[trigger] out@[j]),
                decreases kinds@.len() - b,
            {
                let kind: CompileKind = kinds[b];
                let c = Candidate {
                    id: Identity {
                        pkg,
                        target: ti,
                        kind: if host {
                            CompileKind::Host
                        } else {
                            kind
                        },
                        for_host: host,
                        mode,
                        feature_side_host: host,
                    },
                    requested: kind,
                    named,
                };
                assert(i.kind_ok(kinds@[b as int]));
                assert(candidate_ok(*i, c));
                out.push(c);
                proof {
                    let all = candidates_for(*i, pkg as int, cs@[a as int], kinds@);
                    assert(all[b as int] == c);
                    assert(all.take(b + 1) =~= all.take(b as int).push(c));
                    assert(out@ =~= inner + all.take(b + 1));
                }
                b += 1;
            }
            proof {
                let all = candidates_for(*i, pkg as int, cs@[a as int], kinds@);
                assert(all.take(b as int) =~= all);
                assert(out@ =~= start + candidates_of(*i, pkg as int, cs@, a + 1));
            }
            a += 1;
        }
        k += 1;
    }
    out
}

/// Why there is no graph of units.
#[derive(Debug)]
pub enum UnitError {
    /// No selected package has a target of that kind and name.
    NoTarget { kind: TargetKind, name: String },
    /// A target that was named requires features that are off.
    Features { target: String, package: String, missing: Vec<String> },
}

/// One of the packages has a target of that kind and name.
pub open spec fn has_target(i: GraphInputs, packages: Seq<usize>, kind: TargetKind, name: Seq<char>) -> bool {
    exists|k: int, t: int|
        0 <= k < packages.len() && 0 <= t < i.pkgs()[packages[k] as int].targets@.len() && (
        #[trigger] i.pkgs()[packages[k] as int].targets@[t]).kind == kind && i.pkgs()[packages[k] as int].targets@[t].name@
            == name
}

/// The first of the names from `k` on that no target has.
pub open spec fn first_absent(i: GraphInputs, packages: Seq<usize>, kind: TargetKind, names: Seq<Seq<char>>, k: int) -> Option<
    Seq<char>,
>
    decreases names.len() - k,
{
    if k >= names.len() {
        None
    } else if has_target(i, packages, kind, names[k]) {
        first_absent(i, packages, kind, names, k + 1)
    } else {
        Some(names[k])
    }
}

/// The first name of the filter that no target has, and its kind.
pub open spec fn absent(i: GraphInputs, packages: Seq<usize>, f: TargetFilter) -> Option<(TargetKind, Seq<char>)> {
    match first_absent(i, packages, TargetKind::Bin, views(f.bin_names@), 0) {
        Some(n) => Some((TargetKind::Bin, n)),
        None => match first_absent(i, packages, TargetKind::Example, views(f.example_names@), 0) {
            Some(n) => Some((TargetKind::Example, n)),
            None => match first_absent(i, packages, TargetKind::Test, views(f.test_names@), 0) {
                Some(n) => Some((TargetKind::Test, n)),
                None => match first_absent(i, packages, TargetKind::Bench, views(f.bench_names@), 0) {
                    Some(n) => Some((TargetKind::Bench, n)),
                    None => None,
                },
            },
        },
    }
}

fn find_target_named(i: &GraphInputs<'_>, packages: &Vec<usize>, kind: TargetKind, name: &str) -> (r: bool)
    requires
        forall|k: int| 0 <= k < packages@.len() ==> #[trigger] packages@[k] < i.pkgs().len(),
    ensures
        r == has_target(*i, packages@, kind, name@),
{
    let mut k: usize = 0;
    while k < packages.len()
        invariant
            forall|k: int| 0 <= k < packages@.len() ==> #[trigger] packages@[k] < i.pkgs().len(),
            k <= packages@.len(),
            forall|a: int, t: int|
                0 <= a < k && 0 <= t < i.pkgs()[packages@[a] as int].targets@.len() ==> !((
                #[trigger] i.pkgs()[packages@[a] as int].targets@[t]).kind == kind
                    && i.pkgs()[packages@[a] as int].targets@[t].name@ == name@),
        decreases packages@.len() - k,
    {
        let targets: &Vec<Target> = &i.ws.pkgs[packages[k]].targets;
        let mut t: usize = 0;
        while t < targets.len()
            invariant
                k < packages@.len(),
                packages@[k as int] < i.pkgs().len(),
                *targets == i.pkgs()[packages@[k as int] as int].targets,
                t <= targets@.len(),
                forall|b: int|
                    0 <= b < t ==> !((#[trigger] targets@[b]).kind == kind && targets@[b].name@ == name@),
            decreases targets@.len() - t,
        {
            if targets[t].kind == kind && same(targets[t].name.as_str(), name) {
                assert(i.pkgs()[packages@[k as int] as int].targets@[t as int].kind == kind);
                return true;
            }
            t += 1;
        }
        k += 1;
    }
    false
}

fn absent_name(i: &GraphInputs<'_>, packages: &Vec<usize>, kind: TargetKind, names: &Vec<String>) -> (r: Option<String>)
    requires
        forall|k: int| 0 <= k < packages@.len() ==> #[trigger] packages@[k] < i.pkgs().len(),
    ensures
        opt_view(r) == first_absent(*i, packages@, kind, views(names@), 0),
{
    let mut k: usize = 0;
    while k < names.len()
        invariant
            forall|k: int| 0 <= k < packages@.len() ==> #[trigger] packages@[k] < i.pkgs().len(),
            k <= names@.len(),
            first_absent(*i, packages@, kind, views(names@), 0) == first_absent(
                *i,
                packages@,
                kind,
                views(names@),
                k as int,
            ),
        decreases names@.len() - k,
    {
        assert(views(names@)[k as int] == names@[k as int]@);
        if !find_target_named(i, packages, kind, names[k].as_str()) {
            return Some(names[k].clone());
        }
        k += 1;
    }
    None
}

fn check_names(i: &GraphInputs<'_>, packages: &Vec<usize>, f: &TargetFilter) -> (r: Option<(TargetKind, String)>)
    requires
        forall|k: int| 0 <= k < packages@.len() ==> #[trigger] packages@[k] < i.pkgs().len(),
    ensures
        match r {
            Some((kind, name)) => absent(*i, packages@, *f) == Some((kind, name@)),
            None => absent(*i, packages@, *f).is_none(),
        },
{
    if let Some(n) = absent_name(i, packages, TargetKind::Bin, &f.bin_names) {
        return Some((TargetKind::Bin, n));
    }
    if let Some(n) = absent_name(i, packages, TargetKind::Example, &f.example_names) {
        return Some((TargetKind::Example, n));
    }
    if let Some(n) = absent_name(i, packages, TargetKind::Test, &f.test_names) {
        return Some((TargetKind::Test, n));
    }
    if let Some(n) = absent_name(i, packages, TargetKind::Bench, &f.bench_names) {
        return Some((TargetKind::Bench, n));
    }
    None
}

/// The list with the value at its end, where it was not in it.
pub open spec fn with_new<A>(s: Seq<A>, x: A) -> Seq<A> {
    if s.contains(x) {
        s
    } else {
        s.push(x)
    }
}

/// The units that the first `k` candidates stand for, each once. A target whose required features
/// are off stands for none.
pub open spec fn root_ids(i: GraphInputs, cs: Seq<Candidate>, k: int) -> Seq<Identity>
    decreases k,
{
    if k <= 0 {
        Seq::empty()
    } else {
        let rest = root_ids(i, cs, k - 1);
        if lacks_features(i, cs[k - 1]).len() == 0 {
            with_new(rest, cs[k - 1].id)
        } else {
            rest
        }
    }
}

/// A proc-macro that was asked for keeps the normal profile, debuginfo included: that of the
/// platform that was asked for last.
pub open spec fn root_profile(i: GraphInputs, cs: Seq<Candidate>, k: int, id: Identity) -> ProfileView
    decreases k,
{
    if k <= 0 {
        i.profile_at(id)
    } else {
        let c = cs[k - 1];
        if lacks_features(i, c).len() == 0 && c.id == id
            && i.pkgs()[id.pkg as int].targets@[id.target as int].proc_macro() {
            ProfileView {
                panic: "unwind"@,
                ..profile_for(
                    i.profiles.base@,
                    views(i.profiles.chain@),
                    i.profiles.incremental_override,
                    i.profiles.weaken_host_debuginfo,
                    i.pkgs()[id.pkg as int],
                    false,
                    i.apple_at(c.requested),
                )
            }
        } else {
            root_profile(i, cs, k - 1, id)
        }
    }
}

/// The units that were met for the first `k` candidates.
pub open spec fn met_roots(i: GraphInputs, doc_deps: bool, cs: Seq<Candidate>, k: int) -> Seq<Identity>
    decreases k,
{
    if k <= 0 {
        Seq::empty()
    } else {
        let rest = met_roots(i, doc_deps, cs, k - 1);
        if lacks_features(i, cs[k - 1]).len() == 0 {
            met(i, doc_deps, rest, cs[k - 1].id)
        } else {
            rest
        }
    }
}

/// The units that were met, once those for the doctests of the first `k` packages are asked for.
pub open spec fn met_doctests(i: GraphInputs, doc_deps: bool, ids: Seq<Identity>, packages: Seq<usize>, k: int) -> Seq<Identity>
    decreases k,
{
    if k <= 0 {
        ids
    } else {
        let rest = met_doctests(i, doc_deps, ids, packages, k - 1);
        let pkg = packages[k - 1] as int;
        if has_doctests(i.pkgs()[pkg]) {
            met_upto(
                i,
                doc_deps,
                met(i, doc_deps, rest, doctest_lib(i, pkg)),
                doctest_deps(i, pkg),
                doctest_deps(i, pkg).len() as int,
            )
        } else {
            rest
        }
    }
}

/// The units that a command asks for and whatever they need, in the order in which they are met.
pub open spec fn numbered(i: GraphInputs, packages: Seq<usize>, f: TargetFilter) -> Seq<Identity> {
    let cs = candidates(i, packages, f, packages.len() as int);
    let doc_deps = i.command == (Command::Doc { deps: true });
    let roots = met_roots(i, doc_deps, cs, cs.len() as int);
    if i.command == Command::Test && (!f.is_explicit() || f.doc) {
        met_doctests(i, doc_deps, roots, packages, packages.len() as int)
    } else {
        roots
    }
}

/// The first candidate from `k` on that was named and whose required features are off.
pub open spec fn first_lacking(i: GraphInputs, cs: Seq<Candidate>, k: int) -> Option<Candidate>
    decreases cs.len() - k,
{
    if k >= cs.len() {
        None
    } else if cs[k].named && lacks_features(i, cs[k]).len() > 0 {
        Some(cs[k])
    } else {
        first_lacking(i, cs, k + 1)
    }
}

/// The package has doctests: those of its library.
pub open spec fn has_doctests(p: Pkg) -> bool {
    p.lib_at().is_some() && p.targets@[p.lib_at().unwrap()].doctest
}

/// Those of the first `k` packages that have doctests.
pub open spec fn doctest_pkgs(i: GraphInputs, packages: Seq<usize>, k: int) -> Seq<usize>
    decreases k,
{
    if k <= 0 {
        Seq::empty()
    } else {
        let rest = doctest_pkgs(i, packages, k - 1);
        if has_doctests(i.pkgs()[packages[k - 1] as int]) {
            rest.push(packages[k - 1])
        } else {
            rest
        }
    }
}

/// The library that doctests link: on the host, or the first platform that was asked for.
pub open spec fn doctest_lib(i: GraphInputs, pkg: int) -> Identity {
    let p = i.pkgs()[pkg];
    Identity {
        pkg: pkg as usize,
        target: p.lib_at().unwrap() as usize,
        kind: if p.proc_macro {
            CompileKind::Host
        } else {
            requested_kinds(i)[0]
        },
        for_host: p.proc_macro,
        mode: Mode::Build,
        feature_side_host: p.proc_macro,
    }
}

/// Doctests link the library and the package's dev-dependencies.
pub open spec fn doctest_deps(i: GraphInputs, pkg: int) -> Seq<(Identity, Option<Seq<char>>)> {
    let id = doctest_lib(i, pkg);
    i.libs(pkg, id.kind, id.for_host, DepKind::Dev, Mode::Build)
}

pub open spec fn is_doctest(i: GraphInputs, ids: Seq<Identity>, d: Doctest, pkg: usize) -> bool {
    &&& d.pkg == pkg
    &&& d.lib < ids.len()
    &&& ids[d.lib as int] == doctest_lib(i, pkg as int)
    &&& meets_wants(d.dev_deps@, ids, doctest_deps(i, pkg as int))
}

/// The units of the dependencies.
pub open spec fn units_of(deps: Seq<UnitDep>) -> Seq<usize> {
    Seq::new(deps.len(), |k: int| deps[k].unit)
}

/// What the first `k` doctests need.
pub open spec fn doctest_units(ds: Seq<Doctest>, k: int) -> Seq<usize>
    decreases k,
{
    if k <= 0 {
        Seq::empty()
    } else {
        doctest_units(ds, k - 1).push(ds[k - 1].lib) + units_of(ds[k - 1].dev_deps@)
    }
}

/// The identities that the graph starts from: the roots, and what doctests need.
pub open spec fn first_ids(ids: Seq<Identity>, g: UnitGraph) -> Seq<Identity> {
    let starts = g.roots@ + g.aux_roots@;
    Seq::new(starts.len(), |k: int| ids[starts[k] as int])
}

/// The graph of the units with these identities, as the rules call for it.
pub open spec fn assembled(i: GraphInputs, packages: Seq<usize>, f: TargetFilter, g: UnitGraph, ids: Seq<Identity>) -> bool {
    let cs = candidates(i, packages, f, packages.len() as int);
    let roots = root_ids(i, cs, cs.len() as int);
    let doc_deps = i.command == (Command::Doc { deps: true });
    &&& ids == numbered(i, packages, f)
    &&& ids.no_duplicates()
    &&& ids.len() == g.units@.len()
    &&& forall|k: int| 0 <= k < ids.len() ==> #[trigger] is_unit(i, g.units@[k], ids[k])
    &&& forall|k: int|
        0 <= k < ids.len() ==> #[trigger] meets_wants(g.units@[k].deps@, ids, i.wants(doc_deps, ids[k]))
    &&& forall|k: int|
        0 <= k < ids.len() ==> (#[trigger] g.units@[k]).profile@ == root_profile(i, cs, cs.len() as int, ids[k])
    &&& g.roots@.len() == roots.len()
    &&& forall|k: int| 0 <= k < roots.len() ==> #[trigger] g.roots@[k] < ids.len() && ids[g.roots@[k] as int] == roots[k]
    &&& if i.command == Command::Test && (!f.is_explicit() || f.doc) {
        let ps = doctest_pkgs(i, packages, packages.len() as int);
        &&& g.doctests@.len() == ps.len()
        &&& forall|k: int| 0 <= k < ps.len() ==> is_doctest(i, ids, #[trigger] g.doctests@[k], ps[k])
    } else {
        g.doctests@.len() == 0
    }
    &&& g.aux_roots@ == doctest_units(g.doctests@, g.doctests@.len() as int)
    &&& forall|k: int| 0 <= k < g.aux_roots@.len() ==> #[trigger] g.aux_roots@[k] < ids.len()
    &&& forall|k: int| 0 <= k < ids.len() ==> needed(i, doc_deps, first_ids(ids, g), #[trigger] ids[k])
}

proof fn lemma_all_done<'a>(a: Builder<'a>, b: Builder<'a>)
    requires
        a.wf(),
        a.grows(b),
        forall|k: int| 0 <= k < a.ids@.len() ==> #[trigger] a.done(k),
    ensures
        forall|k: int| 0 <= k < b.ids@.len() ==> #[trigger] b.done(k),
{
    assert forall|k: int| 0 <= k < b.ids@.len() implies #[trigger] b.done(k) by {
        if k < a.ids@.len() {
            assert(a.done(k));
            lemma_done_stays(a, b, k);
        } else {
            assert(b.settled(k));
        }
    }
}

proof fn lemma_not_root(i: GraphInputs, cs: Seq<Candidate>, k: int, id: Identity)
    requires
        !root_ids(i, cs, k).contains(id),
    ensures
        root_profile(i, cs, k, id) == i.profile_at(id),
    decreases k,
{
    if k > 0 {
        let rest = root_ids(i, cs, k - 1);
        if lacks_features(i, cs[k - 1]).len() == 0 {
            if rest.contains(id) {
                let j = choose|j: int| 0 <= j < rest.len() && rest[j] == id;
                assert(with_new(rest, cs[k - 1].id)[j] == id);
            }
            if cs[k - 1].id == id && !rest.contains(id) {
                assert(rest.push(id)[rest.len() as int] == id);
            }
        }
        lemma_not_root(i, cs, k - 1, id);
    }
}

/// The set holds each of the identities.
pub open spec fn holds_ids(c: Set<Identity>, first: Seq<Identity>) -> bool {
    forall|k: int| 0 <= k < first.len() ==> c.contains(#[trigger] first[k])
}

impl<'a> Builder<'a> {
    fn set_profile(&mut self, u: usize, profile: Profile)
        requires
            old(self).wf(),
            u < old(self).ids@.len(),
        ensures
            final(self).wf(),
            final(self).i == old(self).i,
            final(self).doc_deps == old(self).doc_deps,
            final(self).ids == old(self).ids,
            final(self).units@.len() == old(self).units@.len(),
            forall|j: int|
                0 <= j < old(self).units@.len() && j != u ==> #[trigger] final(self).units@[j] == old(self).units@[j],
            final(self).units@[u as int].deps == old(self).units@[u as int].deps,
            final(self).units@[u as int].profile == profile,
    {
        let mut units: Vec<Unit> = Vec::new();
        std::mem::swap(&mut units, &mut self.units);
        let ghost was = units@;
        let old_unit: Unit = units.remove(u);
        units.insert(u, Unit { profile, ..old_unit });
        assert(units@ =~= was.update(u as int, units@[u as int]));
        self.units = units;
        assert forall|k: int| 0 <= k < self.ids@.len() implies self.i.fits(#[trigger] self.ids@[k]) && is_unit(
            *self.i,
            self.units@[k],
            self.ids@[k],
        ) by {
            assert(old(self).i.fits(old(self).ids@[k]));
            assert(is_unit(*self.i, was[k], self.ids@[k]));
        }
    }

    /// The units that the candidates stand for, with whatever they need.
    spec fn rooted(self, cs: Seq<Candidate>, k: int, roots: Seq<usize>) -> bool {
        let rs = root_ids(*self.i, cs, k);
        &&& self.wf()
        &&& self.ids@ == met_roots(*self.i, self.doc_deps, cs, k)
        &&& forall|u: int| 0 <= u < self.ids@.len() ==> #[trigger] self.done(u)
        &&& forall|u: int|
            0 <= u < self.ids@.len() ==> (#[trigger] self.units@[u]).profile@ == root_profile(
                *self.i,
                cs,
                k,
                self.ids@[u],
            )
        &&& roots.len() == rs.len()
        &&& forall|j: int| 0 <= j < rs.len() ==> #[trigger] roots[j] < self.ids@.len() && self.ids@[roots[j] as int] == rs[j]
        &&& forall|c: Set<Identity>, u: int|
            closed_ids(*self.i, self.doc_deps, c) && #[trigger] holds_ids(c, rs) && 0 <= u < self.ids@.len()
                ==> c.contains(#[trigger] self.ids@[u])
    }

    fn macro_profile(&self, c: Candidate) -> (r: Profile)
        requires
            self.i.wf(),
            candidate_ok(*self.i, c),
        ensures
            r@ == (ProfileView {
                panic: "unwind"@,
                ..profile_for(
                    self.i.profiles.base@,
                    views(self.i.profiles.chain@),
                    self.i.profiles.incremental_override,
                    self.i.profiles.weaken_host_debuginfo,
                    self.i.pkgs()[c.id.pkg as int],
                    false,
                    self.i.apple_at(c.requested),
                )
            }),
    {
        let p: Profile = self.i.profiles.get(&self.i.ws.pkgs[c.id.pkg], false, self.i.apple(c.requested));
        Profile { panic: "unwind".to_owned(), ..p }
    }

    /// Adds the unit of one candidate whose required features are on.
    fn add_root(&mut self, Ghost(cs): Ghost<Seq<Candidate>>, Ghost(k): Ghost<int>, c: Candidate, roots: &mut Vec<usize>)
        requires
            old(self).rooted(cs, k, old(roots)@),
            0 <= k < cs.len(),
            cs[k] == c,
            candidate_ok(*old(self).i, c),
            lacks_features(*old(self).i, c).len() == 0,
        ensures
            final(self).i == old(self).i,
            final(self).doc_deps == old(self).doc_deps,
            final(self).rooted(cs, k + 1, final(roots)@),
    {
        let ghost start = *self;
        let ghost i = *self.i;
        let ghost rs = root_ids(i, cs, k);
        let ghost rs2 = root_ids(i, cs, k + 1);
        let u: usize = self.unit(c.id);
        let ghost mid = *self;
        proof {
            lemma_all_done(start, mid);
        }
        if self.i.ws.pkgs[c.id.pkg].targets[c.id.target].is_proc_macro() {
            // A proc-macro you asked for keeps the normal profile, debuginfo included.
            let p: Profile = self.macro_profile(c);
            self.set_profile(u, p);
        }
        let ghost end = *self;
        let ghost was = roots@;
        let known: bool = crate::sets::has(roots, u);
        proof {
            assert(known == rs.contains(c.id)) by {
                if known {
                    let j = choose|j: int| 0 <= j < was.len() && was[j] == u;
                    assert(start.ids@[was[j] as int] == rs[j]);
                    assert(mid.ids@[u as int] == start.ids@[u as int]);
                    assert(rs[j] == c.id);
                }
                if rs.contains(c.id) {
                    let j = choose|j: int| 0 <= j < rs.len() && rs[j] == c.id;
                    assert(start.ids@[was[j] as int] == rs[j]);
                    assert(mid.ids@[was[j] as int] == start.ids@[was[j] as int]);
                    assert(mid.ids@[u as int] == mid.ids@[was[j] as int]);
                    assert(was[j] == u);
                }
            }
        }
        if !known {
            roots.push(u);
        }
        proof {
            assert forall|x: int| 0 <= x < end.ids@.len() implies #[trigger] end.done(x) by {
                assert(mid.done(x));
                if x != u {
                    assert(end.units@[x] == mid.units@[x]);
                }
            }
            assert forall|x: int| 0 <= x < end.ids@.len() implies (#[trigger] end.units@[x]).profile@ == root_profile(
                i,
                cs,
                k + 1,
                end.ids@[x],
            ) by {
                let id = end.ids@[x];
                assert(id == mid.ids@[x]);
                if x != u {
                    assert(end.units@[x] == mid.units@[x]);
                    assert(id != c.id);
                }
                if x < start.ids@.len() {
                    assert(mid.units@[x] == start.units@[x]);
                    assert(mid.ids@[x] == start.ids@[x]);
                    assert(start.units@[x].profile@ == root_profile(i, cs, k, id));
                } else {
                    assert(mid.settled(x));
                    assert(!rs.contains(id)) by {
                        if rs.contains(id) {
                            let j = choose|j: int| 0 <= j < rs.len() && rs[j] == id;
                            assert(start.ids@[was[j] as int] == rs[j]);
                            assert(mid.ids@[was[j] as int] == start.ids@[was[j] as int]);
                            assert(was[j] == x);
                        }
                    }
                    lemma_not_root(i, cs, k, id);
                }
            }
            assert forall|j: int| 0 <= j < rs2.len() implies #[trigger] roots@[j] < end.ids@.len()
                && end.ids@[roots@[j] as int] == rs2[j] by {
                if j < rs.len() {
                    assert(roots@[j] == was[j]);
                    assert(start.ids@[was[j] as int] == rs[j]);
                    assert(mid.ids@[was[j] as int] == start.ids@[was[j] as int]);
                    assert(rs2[j] == rs[j]);
                }
            }
            assert forall|s: Set<Identity>, x: int|
                closed_ids(i, start.doc_deps, s) && #[trigger] holds_ids(s, rs2) && 0 <= x < end.ids@.len() implies s.contains(
            #[trigger] end.ids@[x]) by {
                assert(holds_ids(s, rs)) by {
                    assert forall|j: int| 0 <= j < rs.len() implies s.contains(#[trigger] rs[j]) by {
                        assert(rs2[j] == rs[j]);
                    }
                }
                assert(s.contains(c.id)) by {
                    if rs.contains(c.id) {
                        let j = choose|j: int| 0 <= j < rs.len() && rs[j] == c.id;
                        assert(s.contains(rs[j]));
                    } else {
                        assert(rs2[rs.len() as int] == c.id);
                    }
                }
                assert(end.ids@[x] == mid.ids@[x]);
                if x < start.ids@.len() {
                    assert(mid.ids@[x] == start.ids@[x]);
                    assert(s.contains(start.ids@[x]));
                } else {
                    assert(s.contains(mid.ids@[x]));
                }
            }
        }
    }

    fn add_roots(&mut self, cs: &Vec<Candidate>) -> (r: Result<Vec<usize>, UnitError>)
        requires
            old(self).wf(),
            old(self).ids@.len() == 0,
            forall|k: int| 0 <= k < cs@.len() ==> candidate_ok(*old(self).i, #[trigger] cs@[k]),
        ensures
            final(self).i == old(self).i,
            final(self).doc_deps == old(self).doc_deps,
            match r {
                Ok(roots) => final(self).rooted(cs@, cs@.len() as int, roots@) && first_lacking(
                    *old(self).i,
                    cs@,
                    0,
                ).is_none(),
                Err(e) => error_for(*old(self).i, cs@, e),
            },
    {
        let mut roots: Vec<usize> = Vec::new();
        let mut k: usize = 0;
        assert(self.ids@ =~= met_roots(*self.i, self.doc_deps, cs@, 0));
        while k < cs.len()
            invariant
                self.i == old(self).i,
                self.doc_deps == old(self).doc_deps,
                forall|k: int| 0 <= k < cs@.len() ==> candidate_ok(*old(self).i, #[trigger] cs@[k]),
                k <= cs@.len(),
                self.rooted(cs@, k as int, roots@),
                first_lacking(*self.i, cs@, 0) == first_lacking(*self.i, cs@, k as int),
            decreases cs@.len() - k,
        {
            let c: Candidate = cs[k];
            assert(candidate_ok(*self.i, cs@[k as int]));
            let t: &Target = &self.i.ws.pkgs[c.id.pkg].targets[c.id.target];
            let missing: Vec<String> = if t.kind == TargetKind::Lib {
                let none: Vec<String> = Vec::new();
                assert(views(none@) =~= Seq::<Seq<char>>::empty());
                none
            } else {
                self.i.off_features(c.id.pkg, &t.required_features, c.id.for_host)
            };
            assert(views(missing@) == lacks_features(*self.i, c));
            assert(views(missing@).len() == missing@.len());
            if missing.len() > 0 {
                if c.named {
                    return Err(
                        UnitError::Features {
                            target: t.name.clone(),
                            package: self.i.ws.pkgs[c.id.pkg].name.clone(),
                            missing,
                        },
                    );
                }
                proof {
                    lemma_skip(*self.i, cs@, k as int);
                    assert(self.rooted(cs@, k + 1, roots@)) by {
                        assert forall|u: int| 0 <= u < self.ids@.len() implies (
                        #[trigger] self.units@[u]).profile@ == root_profile(*self.i, cs@, k + 1, self.ids@[u]) by {
                            assert(self.units@[u].profile@ == root_profile(*self.i, cs@, k as int, self.ids@[u]));
                        }
                    }
                }
            } else {
                self.add_root(Ghost(cs@), Ghost(k as int), c, &mut roots);
            }
            k += 1;
        }
        Ok(roots)
    }
}

/// A candidate whose required features are off stands for nothing.
proof fn lemma_skip(i: GraphInputs, cs: Seq<Candidate>, k: int)
    requires
        0 <= k < cs.len(),
        lacks_features(i, cs[k]).len() > 0,
    ensures
        root_ids(i, cs, k + 1) == root_ids(i, cs, k),
        forall|id: Identity| #[trigger] root_profile(i, cs, k + 1, id) == root_profile(i, cs, k, id),
{
}

/// The error names the first candidate that was named and whose required features are off.
pub open spec fn error_for(i: GraphInputs, cs: Seq<Candidate>, e: UnitError) -> bool {
    match (e, first_lacking(i, cs, 0)) {
        (UnitError::Features { target, package, missing }, Some(c)) => {
            &&& target@ == i.pkgs()[c.id.pkg as int].targets@[c.id.target as int].name@
            &&& package@ == i.pkgs()[c.id.pkg as int].name@
            &&& views(missing@) == lacks_features(i, c)
        },
        _ => false,
    }
}

impl<'a> Builder<'a> {
    /// The units for the doctests of a package.
    fn doctest(&mut self, pkg: usize, lib: usize, kind: CompileKind) -> (d: Doctest)
        requires
            old(self).wf(),
            pkg < old(self).i.pkgs().len(),
            old(self).i.pkgs()[pkg as int].lib_at() == Some(lib as int),
            lib < old(self).i.pkgs()[pkg as int].targets@.len(),
            old(self).i.kind_ok(kind),
            requested_kinds(*old(self).i).len() > 0,
            kind == requested_kinds(*old(self).i)[0],
        ensures
            final(self).wf(),
            old(self).grows(*final(self)),
            is_doctest(*final(self).i, final(self).ids@, d, pkg),
            final(self).ids@ == met_upto(
                *old(self).i,
                old(self).doc_deps,
                met(*old(self).i, old(self).doc_deps, old(self).ids@, doctest_lib(*old(self).i, pkg as int)),
                doctest_deps(*old(self).i, pkg as int),
                doctest_deps(*old(self).i, pkg as int).len() as int,
            ),
            forall|c: Set<Identity>, x: int|
                closed_ids(*old(self).i, old(self).doc_deps, c) && c.contains(final(self).ids@[d.lib as int])
                    && holds_ids(c, deps_ids(final(self).ids@, d.dev_deps@)) && old(self).ids@.len() <= x
                    < final(self).ids@.len() ==> #[trigger] c.contains(final(self).ids@[x]),
    {
        let ghost start = *self;
        let host: bool = self.i.ws.pkgs[pkg].proc_macro;
        let id = Identity {
            pkg,
            target: lib,
            kind: if host {
                CompileKind::Host
            } else {
                kind
            },
            for_host: host,
            mode: Mode::Build,
            feature_side_host: host,
        };
        assert(id == doctest_lib(*self.i, pkg as int));
        let lib_unit: usize = self.unit(id);
        let ghost first = *self;
        let wants: Vec<Want> = self.i.lib_deps(pkg, id.kind, id.for_host, DepKind::Dev, Mode::Build);
        let ghost ws = views(wants@);
        let mut deps: Vec<UnitDep> = Vec::new();
        let mut k: usize = 0;
        proof {
            assert(first.grows(*self));
        }
        while k < wants.len()
            invariant
                self.wf(),
                first.wf(),
                first.grows(*self),
                start.wf(),
                start.grows(first),
                ws == views(wants@),
                all_fit(*self.i, ws),
                k <= wants@.len(),
                self.ids@ == met_upto(*start.i, start.doc_deps, first.ids@, ws, k as int),
                deps@.len() == k,
                forall|j: int|
                    0 <= j < k ==> (#[trigger] deps@[j]).unit < self.ids@.len() && (
                    self.ids@[deps@[j].unit as int],
                    opt_view(deps@[j].extern_name),
                    ) == ws[j],
                forall|c: Set<Identity>, x: int|
                    closed_ids(*start.i, start.doc_deps, c) && #[trigger] holds_first(c, ws, k as int)
                        && first.ids@.len() <= x < self.ids@.len() ==> c.contains(#[trigger] self.ids@[x]),
            decreases wants@.len() - k,
        {
            assert(ws[k as int] == wants@[k as int]@);
            assert(self.i.fits(ws[k as int].0));
            let ghost before = *self;
            let ghost ds = deps@;
            proof {
                lemma_bounded(*self.i, self.ids@);
            }
            let d: usize = self.unit(wants[k].id);
            let name: Option<String> = match &wants[k].name {
                Some(n) => Some(n.clone()),
                None => None,
            };
            deps.push(UnitDep { unit: d, extern_name: name });
            proof {
                lemma_grows(first, before, *self);
                assert forall|j: int| 0 <= j < k + 1 implies (#[trigger] deps@[j]).unit < self.ids@.len() && (
                    self.ids@[deps@[j].unit as int],
                    opt_view(deps@[j].extern_name),
                ) == ws[j] by {
                    if j < k {
                        assert(deps@[j] == ds[j]);
                        assert(self.ids@[ds[j].unit as int] == before.ids@[ds[j].unit as int]);
                    }
                }
                assert forall|c: Set<Identity>, x: int|
                    closed_ids(*start.i, start.doc_deps, c) && #[trigger] holds_first(c, ws, k + 1)
                        && first.ids@.len() <= x < self.ids@.len() implies c.contains(#[trigger] self.ids@[x]) by {
                    assert(holds_first(c, ws, k as int));
                    assert(c.contains(ws[k as int].0));
                    if x < before.ids@.len() {
                        assert(self.ids@[x] == before.ids@[x]);
                        assert(c.contains(before.ids@[x]));
                    } else {
                        assert(c.contains(self.ids@[x]));
                    }
                }
            }
            k += 1;
        }
        let ghost end = *self;
        let out = Doctest { pkg, lib: lib_unit, dev_deps: deps };
        proof {
            lemma_grows(start, first, end);
            assert(end.ids@[lib_unit as int] == first.ids@[lib_unit as int]);
            assert forall|c: Set<Identity>, x: int|
                closed_ids(*start.i, start.doc_deps, c) && c.contains(end.ids@[out.lib as int]) && holds_ids(
                    c,
                    deps_ids(end.ids@, out.dev_deps@),
                ) && start.ids@.len() <= x < end.ids@.len() implies #[trigger] c.contains(end.ids@[x]) by {
                if x < first.ids@.len() {
                    assert(end.ids@[x] == first.ids@[x]);
                    assert(c.contains(first.ids@[x]));
                } else {
                    let di = deps_ids(end.ids@, out.dev_deps@);
                    assert forall|j: int| 0 <= j < ws.len() implies c.contains((#[trigger] ws[j]).0) by {
                        assert(out.dev_deps@[j].unit < end.ids@.len());
                        assert(di[j] == ws[j].0);
                    }
                    assert(holds_first(c, ws, ws.len() as int));
                    assert(c.contains(end.ids@[x]));
                }
            }
        }
        out
    }
}

/// The set holds the first `k` of what is wanted.
spec fn holds_first(c: Set<Identity>, ws: Seq<(Identity, Option<Seq<char>>)>, k: int) -> bool {
    forall|j: int| 0 <= j < k ==> c.contains((#[trigger] ws[j]).0)
}

/// The identities of the dependencies.
pub open spec fn deps_ids(ids: Seq<Identity>, deps: Seq<UnitDep>) -> Seq<Identity> {
    Seq::new(deps.len(), |k: int| ids[deps[k].unit as int])
}

fn list_units(deps: &Vec<UnitDep>) -> (out: Vec<usize>)
    ensures
        out@ == units_of(deps@),
{
    let mut out: Vec<usize> = Vec::new();
    let mut k: usize = 0;
    while k < deps.len()
        invariant
            k <= deps@.len(),
            out@ == units_of(deps@).take(k as int),
        decreases deps@.len() - k,
    {
        out.push(deps[k].unit);
        k += 1;
        assert(units_of(deps@).take(k as int) =~= units_of(deps@).take(k - 1).push(deps@[k - 1].unit));
    }
    assert(units_of(deps@).take(k as int) =~= units_of(deps@));
    out
}

/// The identities of what the doctests need.
spec fn starts(ids: Seq<Identity>, units: Seq<usize>) -> Seq<Identity> {
    Seq::new(units.len(), |k: int| ids[units[k] as int])
}

/// The identities do not change when units are added.
proof fn lemma_starts(a: Seq<Identity>, b: Seq<Identity>, units: Seq<usize>)
    requires
        a.len() <= b.len(),
        forall|k: int| 0 <= k < a.len() ==> #[trigger] b[k] == a[k],
        forall|k: int| 0 <= k < units.len() ==> #[trigger] units[k] < a.len(),
    ensures
        starts(b, units) == starts(a, units),
{
    assert forall|k: int| 0 <= k < units.len() implies starts(b, units)[k] == starts(a, units)[k] by {
        assert(units[k] < a.len());
        assert(b[units[k] as int] == a[units[k] as int]);
    }
    assert(starts(b, units) =~= starts(a, units));
}

proof fn lemma_doctest_stays(i: GraphInputs, a: Seq<Identity>, b: Seq<Identity>, d: Doctest, pkg: usize)
    requires
        a.len() <= b.len(),
        forall|k: int| 0 <= k < a.len() ==> #[trigger] b[k] == a[k],
        is_doctest(i, a, d, pkg),
    ensures
        is_doctest(i, b, d, pkg),
{
    assert forall|k: int| 0 <= k < d.dev_deps@.len() implies (#[trigger] d.dev_deps@[k]).unit < b.len()
        && b[d.dev_deps@[k].unit as int] == a[d.dev_deps@[k].unit as int] by {
        assert(d.dev_deps@[k].unit < a.len());
    }
}

/// The units that a command asks for, each with whatever it needs, and what its doctests need.
#[verifier::rlimit(60)]
fn assemble(i: &GraphInputs<'_>, packages: &Vec<usize>, f: &TargetFilter) -> (r: Result<
    (UnitGraph, Vec<Identity>),
    UnitError,
>)
    requires
        i.wf(),
        requested_kinds(*i).len() > 0,
        forall|k: int| 0 <= k < packages@.len() ==> #[trigger] packages@[k] < i.pkgs().len(),
    ensures
        match r {
            Ok((g, ids)) => assembled(*i, packages@, *f, g, ids@) && first_lacking(
                *i,
                candidates(*i, packages@, *f, packages@.len() as int),
                0,
            ).is_none() && forall|k: int| 0 <= k < ids@.len() ==> i.fits(#[trigger] ids@[k]),
            Err(e) => error_for(*i, candidates(*i, packages@, *f, packages@.len() as int), e),
        },
{
    let doc_deps: bool = match i.command {
        Command::Doc { deps } => deps,
        _ => false,
    };
    let cs: Vec<Candidate> = list_candidates(i, packages, f);
    let kinds: Vec<CompileKind> = list_kinds(i);
    let mut b = Builder { i, units: Vec::new(), ids: Vec::new(), doc_deps };
    let roots: Vec<usize> = match b.add_roots(&cs) {
        Ok(roots) => roots,
        Err(e) => {
            return Err(e);
        },
    };
    let ghost rooted = b;
    let ghost rs = root_ids(*i, cs@, cs@.len() as int);
    let mut aux_roots: Vec<usize> = Vec::new();
    let mut doctests: Vec<Doctest> = Vec::new();
    proof {
        assert(starts(b.ids@, aux_roots@) =~= Seq::<Identity>::empty());
    }
    let testing: bool = i.command == Command::Test && (!f.explicit() || f.doc);
    if testing {
        let mut k: usize = 0;
        while k < packages.len()
            invariant
                i.wf(),
                b.i == i,
                b.doc_deps == doc_deps,
                rooted.i == i,
                rooted.doc_deps == doc_deps,
                kinds@ == requested_kinds(*i),
                kinds@.len() > 0,
                forall|k: int| 0 <= k < kinds@.len() ==> i.kind_ok(#[trigger] kinds@[k]),
                forall|k: int| 0 <= k < packages@.len() ==> #[trigger] packages@[k] < i.pkgs().len(),
                k <= packages@.len(),
                rooted.rooted(cs@, cs@.len() as int, roots@),
                b.wf(),
                rooted.grows(b),
                b.ids@ == met_doctests(*i, doc_deps, rooted.ids@, packages@, k as int),
                doctests@.len() == doctest_pkgs(*i, packages@, k as int).len(),
                forall|j: int|
                    0 <= j < doctests@.len() ==> is_doctest(
                        *i,
                        b.ids@,
                        #[trigger] doctests@[j],
                        doctest_pkgs(*i, packages@, k as int)[j],
                    ),
                aux_roots@ == doctest_units(doctests@, doctests@.len() as int),
                forall|j: int| 0 <= j < aux_roots@.len() ==> #[trigger] aux_roots@[j] < b.ids@.len(),
                forall|c: Set<Identity>, x: int|
                    closed_ids(*i, doc_deps, c) && #[trigger] holds_ids(c, starts(b.ids@, aux_roots@))
                        && rooted.ids@.len() <= x < b.ids@.len() ==> c.contains(#[trigger] b.ids@[x]),
            decreases packages@.len() - k,
        {
            let pkg: usize = packages[k];
            let p: &Pkg = &i.ws.pkgs[pkg];
            if let Some(lib) = p.lib() {
                if p.targets[lib].doctest {
                    let ghost before = b;
                    let ghost was = aux_roots@;
                    let ghost ds = doctests@;
                    assert(i.kind_ok(kinds@[0]));
                    let d: Doctest = b.doctest(pkg, lib, kinds[0]);
                    aux_roots.push(d.lib);
                    let mut more: Vec<usize> = list_units(&d.dev_deps);
                    let ghost more_units = more@;
                    aux_roots.append(&mut more);
                    doctests.push(d);
                    proof {
                        lemma_grows(rooted, before, b);
                        lemma_starts(before.ids@, b.ids@, was);
                        lemma_units_prefix(ds, doctests@, ds.len() as int);
                        assert(aux_roots@ =~= was.push(d.lib) + more_units);
                        assert forall|j: int| 0 <= j < doctests@.len() implies is_doctest(
                            *i,
                            b.ids@,
                            #[trigger] doctests@[j],
                            doctest_pkgs(*i, packages@, k + 1)[j],
                        ) by {
                            if j < ds.len() {
                                assert(doctests@[j] == ds[j]);
                                lemma_doctest_stays(
                                    *i,
                                    before.ids@,
                                    b.ids@,
                                    ds[j],
                                    doctest_pkgs(*i, packages@, k as int)[j],
                                );
                            }
                        }
                        assert forall|j: int| 0 <= j < aux_roots@.len() implies #[trigger] aux_roots@[j]
                            < b.ids@.len() by {
                            if j < was.len() {
                                assert(aux_roots@[j] == was[j]);
                            } else if j > was.len() {
                                let m = j - was.len() - 1;
                                assert(aux_roots@[j] == more_units[m]);
                                assert(d.dev_deps@[m].unit < b.ids@.len());
                            }
                        }
                        assert forall|c: Set<Identity>, x: int|
                            closed_ids(*i, doc_deps, c) && #[trigger] holds_ids(c, starts(b.ids@, aux_roots@))
                                && rooted.ids@.len() <= x < b.ids@.len() implies c.contains(
                        #[trigger] b.ids@[x]) by {
                            let all = starts(b.ids@, aux_roots@);
                            assert(holds_ids(c, starts(before.ids@, was))) by {
                                assert forall|j: int| 0 <= j < was.len() implies c.contains(
                                    #[trigger] starts(before.ids@, was)[j],
                                ) by {
                                    assert(all[j] == starts(b.ids@, was)[j]);
                                }
                            }
                            if x < before.ids@.len() {
                                assert(b.ids@[x] == before.ids@[x]);
                                assert(c.contains(before.ids@[x]));
                            } else {
                                assert(all[was.len() as int] == b.ids@[d.lib as int]);
                                assert(holds_ids(c, deps_ids(b.ids@, d.dev_deps@))) by {
                                    assert forall|j: int| 0 <= j < d.dev_deps@.len() implies c.contains(
                                        #[trigger] deps_ids(b.ids@, d.dev_deps@)[j],
                                    ) by {
                                        assert(all[was.len() + 1 + j] == b.ids@[more_units[j] as int]);
                                    }
                                }
                                assert(c.contains(b.ids@[x]));
                            }
                        }
                    }
                }
            }
            k += 1;
        }
    }
    let Builder { units, ids, .. } = b;
    let g = UnitGraph { units, roots, aux_roots, doctests };
    proof {
        let first = first_ids(ids@, g);
        assert forall|k: int| 0 <= k < ids@.len() implies #[trigger] meets_wants(
            g.units@[k].deps@,
            ids@,
            i.wants(doc_deps, ids@[k]),
        ) by {
            lemma_all_done(rooted, b);
            assert(b.done(k));
        }
        assert forall|k: int| 0 <= k < ids@.len() implies (#[trigger] g.units@[k]).profile@ == root_profile(
            *i,
            cs@,
            cs@.len() as int,
            ids@[k],
        ) by {
            if k < rooted.ids@.len() {
                assert(b.units@[k] == rooted.units@[k]);
                assert(b.ids@[k] == rooted.ids@[k]);
                assert(rooted.units@[k].profile@ == root_profile(*i, cs@, cs@.len() as int, rooted.ids@[k]));
            } else {
                assert(b.settled(k));
                assert(!rs.contains(ids@[k])) by {
                    if rs.contains(ids@[k]) {
                        let j = choose|j: int| 0 <= j < rs.len() && rs[j] == ids@[k];
                        assert(rooted.ids@[roots@[j] as int] == rs[j]);
                        assert(b.ids@[roots@[j] as int] == rooted.ids@[roots@[j] as int]);
                    }
                }
                lemma_not_root(*i, cs@, cs@.len() as int, ids@[k]);
            }
        }
        assert forall|k: int| 0 <= k < rs.len() implies #[trigger] g.roots@[k] < ids@.len()
            && ids@[g.roots@[k] as int] == rs[k] by {
            assert(roots@[k] < rooted.ids@.len());
            assert(b.ids@[roots@[k] as int] == rooted.ids@[roots@[k] as int]);
        }
        assert forall|k: int| 0 <= k < ids@.len() implies needed(*i, doc_deps, first, #[trigger] ids@[k]) by {
            assert forall|c: Set<Identity>|
                closed_ids(*i, doc_deps, c) && (forall|j: int| 0 <= j < first.len() ==> c.contains(
                    #[trigger] first[j],
                )) implies #[trigger] c.contains(ids@[k]) by {
                let all = g.roots@ + g.aux_roots@;
                assert(holds_ids(c, rs)) by {
                    assert forall|j: int| 0 <= j < rs.len() implies c.contains(#[trigger] rs[j]) by {
                        assert(g.roots@[j] < ids@.len() && ids@[g.roots@[j] as int] == rs[j]);
                        assert(first[j] == ids@[all[j] as int]);
                        assert(all[j] == g.roots@[j]);
                    }
                }
                assert(holds_ids(c, starts(ids@, g.aux_roots@))) by {
                    assert forall|j: int| 0 <= j < g.aux_roots@.len() implies c.contains(
                        #[trigger] starts(ids@, g.aux_roots@)[j],
                    ) by {
                        assert(all[g.roots@.len() + j] == g.aux_roots@[j]);
                        assert(first[g.roots@.len() + j] == ids@[g.aux_roots@[j] as int]);
                    }
                }
                if k < rooted.ids@.len() {
                    assert(b.ids@[k] == rooted.ids@[k]);
                    assert(c.contains(rooted.ids@[k]));
                } else {
                    assert(c.contains(b.ids@[k]));
                }
            }
        }
        assert forall|k: int| 0 <= k < ids@.len() implies #[trigger] is_unit(*i, g.units@[k], ids@[k]) by {
            assert(i.fits(b.ids@[k]));
        }
        assert(doctests@.len() == 0 ==> aux_roots@ =~= doctest_units(g.doctests@, 0));
    }
    Ok((g, ids))
}

proof fn lemma_units_prefix(a: Seq<Doctest>, b: Seq<Doctest>, k: int)
    requires
        0 <= k <= a.len() <= b.len(),
        forall|j: int| 0 <= j < k ==> #[trigger] a[j] == b[j],
    ensures
        doctest_units(a, k) == doctest_units(b, k),
    decreases k,
{
    if k > 0 {
        lemma_units_prefix(a, b, k - 1);
        assert(a[k - 1] == b[k - 1]);
    }
}

/// The units of what a doctest needs are among those of all doctests.
proof fn lemma_doctest_units(ds: Seq<Doctest>, k: int, d: int)
    requires
        0 <= d < k <= ds.len(),
    ensures
        doctest_units(ds, k).contains(ds[d].lib),
        forall|j: int| 0 <= j < ds[d].dev_deps@.len() ==> doctest_units(ds, k).contains(
            (#[trigger] ds[d].dev_deps@[j]).unit,
        ),
    decreases k,
{
    let before = doctest_units(ds, k - 1);
    let all = doctest_units(ds, k);
    if d < k - 1 {
        lemma_doctest_units(ds, k - 1, d);
        assert forall|x: usize| before.contains(x) implies #[trigger] all.contains(x) by {
            let m = choose|m: int| 0 <= m < before.len() && before[m] == x;
            assert(all[m] == x);
        }
    } else {
        assert(all[before.len() as int] == ds[d].lib);
        assert forall|j: int| 0 <= j < ds[d].dev_deps@.len() implies all.contains(
            (#[trigger] ds[d].dev_deps@[j]).unit,
        ) by {
            assert(all[before.len() + 1 + j] == units_of(ds[d].dev_deps@)[j]);
        }
    }
}

proof fn lemma_assembled_wf(i: GraphInputs, packages: Seq<usize>, f: TargetFilter, g: UnitGraph, ids: Seq<Identity>)
    requires
        assembled(i, packages, f, g, ids),
        forall|k: int| 0 <= k < ids.len() ==> i.fits(#[trigger] ids[k]),
        ids.len() <= usize::MAX,
    ensures
        g@.wf(),
        of_packages(i.pkgs(), g@.units),
{
    let n = g.units@.len();
    let doc_deps = i.command == (Command::Doc { deps: true });
    assert forall|u: int| 0 <= u < n implies links_in((#[trigger] g@.units[u]).deps, n) by {
        assert(meets_wants(g.units@[u].deps@, ids, i.wants(doc_deps, ids[u])));
        assert forall|k: int| 0 <= k < g@.units[u].deps.len() implies (#[trigger] g@.units[u].deps[k]).0 < n by {
            assert(g.units@[u].deps@[k].unit < ids.len());
        }
    }
    assert forall|k: int| 0 <= k < g@.doctests.len() implies g@.kept_for(#[trigger] g@.doctests[k]) by {
        lemma_doctest_units(g.doctests@, g.doctests@.len() as int, k);
        assert(g@.doctests[k] == g.doctests@[k]@);
        assert forall|j: int| 0 <= j < g@.doctests[k].dev_deps.len() implies g@.aux_roots.contains(
            (#[trigger] g@.doctests[k].dev_deps[j]).0,
        ) by {
            assert(g@.aux_roots.contains(g.doctests@[k].dev_deps@[j].unit));
        }
    }
    assert forall|u: int| 0 <= u < n implies (#[trigger] g@.units[u]).pkg < i.pkgs().len() && g@.units[u].target
        < i.pkgs()[g@.units[u].pkg as int].targets@.len() by {
        assert(is_unit(i, g.units@[u], ids[u]));
        assert(i.fits(ids[u]));
    }
    assert forall|k: int| 0 <= k < g@.roots.len() implies #[trigger] g@.roots[k] < n by {
        assert(g.roots@[k] < ids.len());
    }
}

/// The graph of the assembled units: each crate name documented once, host units shared where everything
/// is for the host.
pub open spec fn finished(i: GraphInputs, a: GraphView, mid: UnitGraph, g: GraphView) -> bool {
    &&& mid@ == if i.command == (Command::Doc { deps: true }) {
        documented_once(i.pkgs(), a, i.no_target)
    } else {
        a
    }
    &&& if i.no_target {
        g == shared(i.pkgs(), mid@, depth_first(mid.units@))
    } else {
        g == mid@
    }
}

/// The graph of the units that the command asks for.
pub open spec fn unit_graph(i: GraphInputs, packages: Seq<usize>, f: TargetFilter, g: GraphView) -> bool {
    exists|a: UnitGraph, ids: Seq<Identity>, mid: UnitGraph|
        #[trigger] assembled(i, packages, f, a, ids) && #[trigger] finished(i, a@, mid, g)
}

/// The units that a command asks for, with all that they need.
pub fn build(inputs: &GraphInputs<'_>, sel: &RootSelection<'_>) -> (r: Result<UnitGraph, UnitError>)
    requires
        inputs.wf(),
        requested_kinds(*inputs).len() > 0,
        forall|k: int| 0 <= k < sel.packages@.len() ==> #[trigger] sel.packages@[k] < inputs.pkgs().len(),
    ensures
        match absent(*inputs, sel.packages@, *sel.filter) {
            Some((kind, name)) => match r {
                Err(UnitError::NoTarget { kind: k, name: n }) => k == kind && n@ == name,
                _ => false,
            },
            None => {
                let cs = candidates(*inputs, sel.packages@, *sel.filter, sel.packages@.len() as int);
                match r {
                    Ok(g) => first_lacking(*inputs, cs, 0).is_none() && unit_graph(
                        *inputs,
                        sel.packages@,
                        *sel.filter,
                        g@,
                    ),
                    Err(e) => error_for(*inputs, cs, e),
                }
            },
        },
{
    if let Some((kind, name)) = check_names(inputs, sel.packages, sel.filter) {
        return Err(UnitError::NoTarget { kind, name });
    }
    match assemble(inputs, sel.packages, sel.filter) {
        Err(e) => Err(e),
        Ok((a, ids)) => {
            proof {
                assert(ids.len() <= usize::MAX);
                lemma_assembled_wf(*inputs, sel.packages@, *sel.filter, a, ids@);
            }
            let doc_deps: bool = match inputs.command {
                Command::Doc { deps } => deps,
                _ => false,
            };
            let mid: UnitGraph = if doc_deps {
                remove_duplicate_docs(&a, &inputs.ws.pkgs, inputs.no_target)
            } else {
                a
            };
            if inputs.no_target {
                let g = share_host_units(&mid, &inputs.ws.pkgs);
                assert(finished(*inputs, a@, mid, g@));
                Ok(g)
            } else {
                let ghost m = mid;
                assert(finished(*inputs, a@, m, mid@));
                Ok(mid)
            }
        }
    }
}

} // verus!
