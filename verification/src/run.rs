//! What happens after the build: run, test, bench, or open the docs.

use vstd::prelude::*;
use crate::build_script::BuildOutput;
use crate::commands::ArgsView;
use crate::commands::Ctx;
use crate::commands::NamedView;
use crate::commands::KindInfo;
use crate::commands::PlanError;
use crate::commands::Planned;
use crate::commands::add_externs;
use crate::commands::add_features;
use crate::commands::dep_output_path;
use crate::commands::dep_path;
use crate::commands::deps_planned;
use crate::commands::each;
use crate::commands::exes_upto;
use crate::commands::extern_args;
use crate::commands::externs_upto;
use crate::commands::feature_args;
use crate::commands::find_rustdoc;
use crate::commands::find_source;
use crate::commands::flag;
use crate::commands::in_ctx;
use crate::commands::list_exes;
use crate::commands::list_externs;
use crate::commands::missing_extern;
use crate::commands::pair;
use crate::commands::pkg_env;
use crate::commands::pkg_vars;
use crate::commands::rustdoc_path;
use crate::commands::set_all;
use crate::commands::source_at;
use crate::commands::with_all;
use crate::exec::list_searches;
use crate::exec::searches_upto;
use crate::invocation::Invocation;
use crate::invocation::InvocationView;
use crate::manifest::Target;
use crate::manifest::TargetKind;
use crate::num::dec;
use crate::num::usize_text;
use crate::order::before;
use crate::order::is_before;
use crate::order::lemma_before_asymmetric;
use crate::order::lemma_before_irreflexive;
use crate::order::lemma_before_total;
use crate::order::lemma_before_transitive;
use crate::path::base_name;
use crate::path::file_name;
use crate::path::join;
use crate::path::relative;
use crate::path::strip_prefix;
use crate::path::under;
use crate::plan::in_packages;
use crate::plan::target_of;
use crate::sort::Ranked;
use crate::sort::in_order;
use crate::sort::sort;
use crate::text::cuts;
use crate::text::cat;
use crate::text::cat3;
use crate::text::cat4;
use crate::text::ends;
use crate::text::ends_with;
use crate::text::join as join_texts;
use crate::text::joined;
use crate::text::opt_view;
use crate::text::same;
use crate::text::swapped;
use crate::text::views;
use crate::unit::CompileKind;
use crate::unit::Doctest;
use crate::unit::Mode;
use crate::unit::Unit;
use crate::workspace::Pkg;

verus! {

// ---------------------------------------------------------------------------
// Executables.

/// A file beside an executable: metadata, a library or debug information.
pub open spec fn is_side_file(n: Seq<char>) -> bool {
    ends(n, ".rmeta"@) || ends(n, ".rlib"@) || ends(n, ".pdb"@) || ends(n, ".d"@) || ends(n, ".lib"@)
}

/// The first output from `k` on that can be run.
pub open spec fn executable_from(outputs: Seq<Seq<char>>, k: int) -> Option<Seq<char>>
    decreases outputs.len() - k,
{
    if k < 0 || k >= outputs.len() {
        None
    } else if base_name(outputs[k]) matches Some(n) && is_side_file(n) {
        executable_from(outputs, k + 1)
    } else {
        Some(outputs[k])
    }
}

/// The first output that can be run.
pub fn executable(outputs: &Vec<String>) -> (r: Option<String>)
    ensures
        opt_view(r) == executable_from(views(outputs@), 0),
{
    let ghost ov = views(outputs@);
    let mut k: usize = 0;
    while k < outputs.len()
        invariant
            k <= outputs@.len(),
            ov == views(outputs@),
            executable_from(ov, 0) == executable_from(ov, k as int),
        decreases outputs@.len() - k,
    {
        assert(ov[k as int] == outputs@[k as int]@);
        let beside: bool = match file_name(outputs[k].as_str()) {
            Some(n) => {
                let n = n.as_str();
                ends_with(n, ".rmeta") || ends_with(n, ".rlib") || ends_with(n, ".pdb") || ends_with(n, ".d") || ends_with(
                    n,
                    ".lib",
                )
            },
            None => false,
        };
        if !beside {
            return Some(outputs[k].clone());
        }
        k += 1;
    }
    assert(ov.len() == outputs@.len());
    None
}

/// The path from the root of the workspace, where it lies below.
pub open spec fn shown_path(p: Seq<char>, root: Seq<char>) -> Seq<char> {
    match relative(p, root) {
        Some(r) => r,
        None => p,
    }
}

/// The path from the root of the workspace, where it lies below.
pub fn shown(p: &str, root: &str) -> (r: String)
    ensures
        r@ == shown_path(p@, root@),
{
    match strip_prefix(p, root) {
        Some(r) => r,
        None => p.to_owned(),
    }
}

/// Where the built program is put for the user.
pub open spec fn program_at(k: KindInfo, t: Target) -> Seq<char> {
    under(
        if t.kind == TargetKind::Example {
            under(k.artifact_dir@, "examples"@)
        } else {
            k.artifact_dir@
        },
        t.name@ + match k.info.named("bin"@) {
            Some((_, suffix)) => suffix,
            None => Seq::empty(),
        },
    )
}

/// Where the built program is put for the user.
pub fn program_path(k: &KindInfo, t: &Target) -> (r: String)
    ensures
        r@ == program_at(*k, *t),
{
    proof {
        reveal_strlit("");
        assert(""@ =~= Seq::<char>::empty());
    }
    let dir = if t.kind == TargetKind::Example {
        join(k.artifact_dir.as_str(), "examples")
    } else {
        k.artifact_dir.clone()
    };
    let suffix: &str = match k.info.file_type("bin") {
        Some(f) => f.suffix.as_str(),
        None => "",
    };
    join(dir.as_str(), cat(t.name.as_str(), suffix).as_str())
}

/// The line that says what is run: the program and its arguments.
pub fn running(program: &str, root: &str, args: &Vec<String>) -> (r: String)
    ensures
        r@ == "`"@ + joined(seq![shown_path(program@, root@)] + views(args@), " "@) + "`"@,
{
    let mut words: Vec<String> = Vec::new();
    words.push(shown(program, root));
    let ghost first = views(words@);
    assert(first =~= seq![shown_path(program@, root@)]);
    let words = crate::profile::join_lists(words, args);
    cat3("`", join_texts(&words, " ").as_str(), "`")
}

/// The program and its arguments: behind the runner, where there is one.
pub open spec fn behind_runner(runner: Option<Seq<Seq<char>>>, program: Seq<char>) -> Seq<Seq<char>> {
    match runner {
        Some(r) => r.push(program),
        None => seq![program],
    }
}

pub open spec fn runner_view(o: Option<Vec<String>>) -> Option<Seq<Seq<char>>> {
    match o {
        Some(l) => Some(views(l@)),
        None => None,
    }
}

/// The program and its arguments: behind the runner, where there is one.
pub fn command_for(runner: &Option<Vec<String>>, program: &str) -> (r: Vec<String>)
    ensures
        views(r@) == behind_runner(runner_view(*runner), program@),
{
    let mut out: Vec<String> = match runner {
        Some(l) => crate::profile::dup_list(l),
        None => Vec::new(),
    };
    let ghost was = out@;
    out.push(program.to_owned());
    assert(views(out@) =~= views(was).push(program@));
    assert(runner.is_none() ==> views(out@) =~= seq![program@]);
    out
}

// ---------------------------------------------------------------------------
// Tests.

/// Lib, bins, integration tests, examples, benches.
pub open spec fn kind_rank(k: TargetKind) -> u8 {
    match k {
        TargetKind::Lib => 0,
        TargetKind::Bin => 1,
        TargetKind::Test => 2,
        TargetKind::Example => 3,
        TargetKind::Bench => 4,
        TargetKind::BuildScript => 5,
    }
}

fn rank_of(k: TargetKind) -> (r: u8)
    ensures
        r == kind_rank(k),
{
    match k {
        TargetKind::Lib => 0,
        TargetKind::Bin => 1,
        TargetKind::Test => 2,
        TargetKind::Example => 3,
        TargetKind::Bench => 4,
        TargetKind::BuildScript => 5,
    }
}

/// The host comes before the targets.
pub open spec fn platform_rank(k: CompileKind) -> int {
    match k {
        CompileKind::Host => -1,
        CompileKind::Target(i) => i as int,
    }
}

/// A root that is a test, and what its place goes by.
#[derive(Debug)]
pub struct TestRoot {
    pub pkg: String,
    pub rank: u8,
    pub name: String,
    pub kind: CompileKind,
    /// Where it stands among the roots.
    pub place: usize,
    pub unit: usize,
}

pub type TestRootView = (Seq<char>, (u8, (Seq<char>, (int, (usize, usize)))));

impl View for TestRoot {
    type V = TestRootView;

    open spec fn view(&self) -> TestRootView {
        (self.pkg@, (self.rank, (self.name@, (platform_rank(self.kind), (self.place, self.unit)))))
    }
}

/// The numbers of a root, once the texts are equal.
pub open spec fn numbers_leq(a: (int, (usize, usize)), b: (int, (usize, usize))) -> bool {
    a.0 < b.0 || (a.0 == b.0 && (a.1.0 < b.1.0 || (a.1.0 == b.1.0 && a.1.1 <= b.1.1)))
}

pub open spec fn target_leq(a: (Seq<char>, (int, (usize, usize))), b: (Seq<char>, (int, (usize, usize)))) -> bool {
    before(a.0, b.0) || (a.0 == b.0 && numbers_leq(a.1, b.1))
}

impl Ranked for TestRoot {
    open spec fn leq(a: TestRootView, b: TestRootView) -> bool {
        before(a.0, b.0) || (a.0 == b.0 && (a.1.0 < b.1.0 || (a.1.0 == b.1.0 && target_leq(a.1.1, b.1.1))))
    }

    proof fn lemma_total() {
        let leq = |a: TestRootView, b: TestRootView| Self::leq(a, b);
        assert forall|x: TestRootView, y: TestRootView| #[trigger] leq(x, y) && #[trigger] leq(y, x) implies x == y by {
            lemma_before_irreflexive(x.0);
            lemma_before_irreflexive(x.1.1.0);
            if before(x.0, y.0) {
                lemma_before_asymmetric(x.0, y.0);
            }
            if before(x.1.1.0, y.1.1.0) {
                lemma_before_asymmetric(x.1.1.0, y.1.1.0);
            }
        }
        assert forall|x: TestRootView, y: TestRootView, z: TestRootView| #[trigger] leq(x, y) && #[trigger] leq(y, z) implies leq(
            x,
            z,
        ) by {
            if before(x.0, y.0) && before(y.0, z.0) {
                lemma_before_transitive(x.0, y.0, z.0);
            }
            if before(x.1.1.0, y.1.1.0) && before(y.1.1.0, z.1.1.0) {
                lemma_before_transitive(x.1.1.0, y.1.1.0, z.1.1.0);
            }
        }
        assert forall|x: TestRootView, y: TestRootView| #[trigger] leq(x, y) || #[trigger] leq(y, x) by {
            lemma_before_total(x.0, y.0);
            lemma_before_total(x.1.1.0, y.1.1.0);
        }
    }

    fn not_after(&self, other: &TestRoot) -> (r: bool) {
        proof {
            lemma_before_irreflexive(self.pkg@);
            lemma_before_irreflexive(self.name@);
        }
        if !same(self.pkg.as_str(), other.pkg.as_str()) {
            return is_before(self.pkg.as_str(), other.pkg.as_str());
        }
        if self.rank != other.rank {
            return self.rank < other.rank;
        }
        if !same(self.name.as_str(), other.name.as_str()) {
            return is_before(self.name.as_str(), other.name.as_str());
        }
        let by_place: bool = self.place < other.place || (self.place == other.place && self.unit <= other.unit);
        match (self.kind, other.kind) {
            (CompileKind::Host, CompileKind::Host) => by_place,
            (CompileKind::Host, CompileKind::Target(_)) => true,
            (CompileKind::Target(_), CompileKind::Host) => false,
            (CompileKind::Target(a), CompileKind::Target(b)) => a < b || (a == b && by_place),
        }
    }
}

/// The unit is run as a test or a benchmark.
pub open spec fn is_run_as_test(pkgs: Seq<Pkg>, u: Unit) -> bool {
    u.mode == Mode::Test || u.mode == Mode::Bench || (u.mode == Mode::Build && (target_of(pkgs, u).kind == TargetKind::Test
        || target_of(pkgs, u).kind == TargetKind::Bench))
}

/// The tests among the first `n` roots.
pub open spec fn tests_upto(pkgs: Seq<Pkg>, units: Seq<Unit>, roots: Seq<usize>, n: int) -> Seq<TestRootView>
    decreases n,
{
    if n <= 0 || n > roots.len() {
        Seq::empty()
    } else {
        let u = units[roots[n - 1] as int];
        if is_run_as_test(pkgs, u) {
            tests_upto(pkgs, units, roots, n - 1).push(
                (
                    pkgs[u.pkg as int].name@,
                    (
                        kind_rank(target_of(pkgs, u).kind),
                        (target_of(pkgs, u).name@, (platform_rank(u.kind), ((n - 1) as usize, roots[n - 1]))),
                    ),
                ),
            )
        } else {
            tests_upto(pkgs, units, roots, n - 1)
        }
    }
}

/// The tests by package, kind of target and name; those that tie keep the order of the roots.
pub open spec fn test_order(pkgs: Seq<Pkg>, units: Seq<Unit>, roots: Seq<usize>) -> Seq<usize> {
    let l = in_order::<TestRoot>(tests_upto(pkgs, units, roots, roots.len() as int));
    Seq::new(l.len(), |i: int| l[i].1.1.1.1.1)
}

/// Lib, bins, integration tests, examples, benches, package by package.
pub fn test_roots(pkgs: &Vec<Pkg>, units: &Vec<Unit>, roots: &Vec<usize>) -> (r: Vec<usize>)
    requires
        in_packages(pkgs@, units@),
        forall|i: int| 0 <= i < roots@.len() ==> #[trigger] roots@[i] < units@.len(),
    ensures
        r@ == test_order(pkgs@, units@, roots@),
{
    let mut list: Vec<TestRoot> = Vec::new();
    let mut k: usize = 0;
    assert(views(list@) =~= Seq::<TestRootView>::empty());
    while k < roots.len()
        invariant
            k <= roots@.len(),
            in_packages(pkgs@, units@),
            forall|i: int| 0 <= i < roots@.len() ==> #[trigger] roots@[i] < units@.len(),
            views(list@) == tests_upto(pkgs@, units@, roots@, k as int),
        decreases roots@.len() - k,
    {
        let ui: usize = roots[k];
        assert(roots@[k as int] < units@.len());
        let u = &units[ui];
        let t = &pkgs[u.pkg].targets[u.target];
        let built: bool = u.mode == Mode::Build && (t.kind == TargetKind::Test || t.kind == TargetKind::Bench);
        if u.mode == Mode::Test || u.mode == Mode::Bench || built {
            let ghost was = list@;
            let one = TestRoot {
                pkg: pkgs[u.pkg].name.clone(),
                rank: rank_of(t.kind),
                name: t.name.clone(),
                kind: u.kind,
                place: k,
                unit: ui,
            };
            let ghost ov = one@;
            list.push(one);
            assert(views(list@) =~= views(was).push(ov));
        }
        k += 1;
    }
    let list = sort(list);
    let ghost lv = views(list@);
    let mut out: Vec<usize> = Vec::new();
    let mut k: usize = 0;
    while k < list.len()
        invariant
            k <= list@.len(),
            lv == views(list@),
            out@.len() == k,
            forall|i: int| 0 <= i < k ==> #[trigger] out@[i] == lv[i].1.1.1.1.1,
        decreases list@.len() - k,
    {
        assert(lv[k as int] == list@[k as int]@);
        out.push(list[k].unit);
        k += 1;
    }
    assert(lv.len() == list@.len());
    assert(out@ =~= test_order(pkgs@, units@, roots@));
    out
}

/// What a test is called: its source, from the root of its package.
pub open spec fn test_title(p: Pkg, t: Target) -> Seq<char> {
    let src = shown_path(t.src_path@, p.root@);
    match t.kind {
        TargetKind::Lib => "unittests "@ + src,
        TargetKind::Bin => "unittests "@ + src,
        _ => src,
    }
}

/// What a test is called: its source, from the root of its package.
pub fn describe(p: &Pkg, t: &Target) -> (r: String)
    ensures
        r@ == test_title(*p, *t),
{
    let src = shown(t.src_path.as_str(), p.root.as_str());
    match t.kind {
        TargetKind::Lib | TargetKind::Bin => cat("unittests ", src.as_str()),
        _ => src,
    }
}

/// The arguments that run one test again.
pub open spec fn rerun_args(pkg: Seq<char>, t: Target) -> Seq<char> {
    match t.kind {
        TargetKind::Lib => "-p "@ + pkg + " --lib"@,
        TargetKind::Bin => "-p "@ + pkg + " --bin "@ + t.name@,
        TargetKind::Test => "-p "@ + pkg + " --test "@ + t.name@,
        TargetKind::Bench => "-p "@ + pkg + " --bench "@ + t.name@,
        TargetKind::Example => "-p "@ + pkg + " --example "@ + t.name@,
        TargetKind::BuildScript => "-p "@ + pkg,
    }
}

/// The arguments that run one test again.
pub fn rerun_hint(pkg: &str, t: &Target) -> (r: String)
    ensures
        r@ == rerun_args(pkg@, *t),
{
    match t.kind {
        TargetKind::Lib => cat3("-p ", pkg, " --lib"),
        TargetKind::Bin => cat4("-p ", pkg, " --bin ", t.name.as_str()),
        TargetKind::Test => cat4("-p ", pkg, " --test ", t.name.as_str()),
        TargetKind::Bench => cat4("-p ", pkg, " --bench ", t.name.as_str()),
        TargetKind::Example => cat4("-p ", pkg, " --example ", t.name.as_str()),
        TargetKind::BuildScript => cat("-p ", pkg),
    }
}

/// The arguments that run the doctests of a package again.
pub fn doctest_hint(pkg: &str) -> (r: String)
    ensures
        r@ == "-p "@ + pkg@ + " --doc"@,
{
    cat3("-p ", pkg, " --doc")
}

/// The tests that failed so far.
#[derive(Debug)]
pub struct TestRun {
    pub no_fail_fast: bool,
    pub failed: Vec<String>,
}

/// What is said of a failure that ends the run.
pub open spec fn failure_text(what: Seq<char>, hint: Seq<char>) -> Seq<char> {
    what + " failed, to rerun pass `"@ + hint + "`"@
}

pub open spec fn failed_lines(l: Seq<Seq<char>>) -> Seq<Seq<char>> {
    Seq::new(l.len(), |i: int| "    `"@ + l[i] + "`"@)
}

/// What is said at the end of a run with failures.
pub open spec fn failed_report(l: Seq<Seq<char>>) -> Seq<char> {
    dec(l.len()) + " target"@ + (if l.len() == 1 {
        Seq::empty()
    } else {
        "s"@
    }) + " failed:\n"@ + joined(failed_lines(l), "\n"@)
}

impl TestRun {
    pub fn new(no_fail_fast: bool) -> (r: TestRun)
        ensures
            r.no_fail_fast == no_fail_fast,
            views(r.failed@) == Seq::<Seq<char>>::empty(),
    {
        let r = TestRun { no_fail_fast, failed: Vec::new() };
        assert(views(r.failed@) =~= Seq::<Seq<char>>::empty());
        r
    }

    /// Takes note of a failure. What to say, where the run ends with it.
    pub fn fail(&mut self, what: &str, hint: &str) -> (r: Option<String>)
        ensures
            final(self).no_fail_fast == old(self).no_fail_fast,
            if old(self).no_fail_fast {
                r.is_none() && views(final(self).failed@) == views(old(self).failed@).push(hint@)
            } else {
                opt_view(r) == Some(failure_text(what@, hint@)) && final(self).failed@ == old(self).failed@
            },
    {
        if self.no_fail_fast {
            let ghost was = self.failed@;
            self.failed.push(hint.to_owned());
            assert(views(self.failed@) =~= views(was).push(hint@));
            None
        } else {
            Some(cat4(what, " failed, to rerun pass `", hint, "`"))
        }
    }

    /// What to say at the end, where something failed.
    pub fn finish(&self) -> (r: Option<String>)
        ensures
            opt_view(r) == (if self.failed@.len() == 0 {
                None
            } else {
                Some(failed_report(views(self.failed@)))
            }),
    {
        if self.failed.len() == 0 {
            return None;
        }
        let ghost fv = views(self.failed@);
        let mut l: Vec<String> = Vec::new();
        let mut k: usize = 0;
        while k < self.failed.len()
            invariant
                k <= self.failed@.len(),
                fv == views(self.failed@),
                l@.len() == k,
                forall|i: int| 0 <= i < k ==> (#[trigger] l@[i])@ == failed_lines(fv)[i],
            decreases self.failed@.len() - k,
        {
            assert(fv[k as int] == self.failed@[k as int]@);
            l.push(cat3("    `", self.failed[k].as_str(), "`"));
            k += 1;
        }
        assert(fv.len() == self.failed@.len());
        assert(views(l@) =~= failed_lines(fv));
        proof {
            reveal_strlit("");
            assert(""@ =~= Seq::<char>::empty());
        }
        let s: &str = if self.failed.len() == 1 {
            ""
        } else {
            "s"
        };
        let head = cat4(usize_text(self.failed.len()).as_str(), " target", s, " failed:\n");
        Some(cat(head.as_str(), join_texts(&l, "\n").as_str()))
    }
}

// ---------------------------------------------------------------------------
// The environment of a program.

/// The directories in which a program finds its libraries.
pub open spec fn library_path(k: KindInfo, host: KindInfo, libdir: Seq<char>, existing: Seq<Seq<char>>) -> Seq<Seq<char>> {
    seq![k.deps_dir@, host.deps_dir@, libdir] + existing
}

/// The directories in which a program finds its libraries.
pub fn library_dirs(k: &KindInfo, host: &KindInfo, libdir: &str, existing: &Vec<String>) -> (r: Vec<String>)
    ensures
        views(r@) == library_path(*k, *host, libdir@, views(existing@)),
{
    let mut out: Vec<String> = Vec::new();
    out.push(k.deps_dir.clone());
    out.push(host.deps_dir.clone());
    out.push(libdir.to_owned());
    assert(views(out@) =~= seq![k.deps_dir@, host.deps_dir@, libdir@]);
    crate::profile::join_lists(out, existing)
}

/// The unit is planned, and so is the run of its build script.
pub open spec fn is_planned(planned: Seq<Option<Planned>>, ui: int) -> bool {
    0 <= ui < planned.len() && match planned[ui] {
        Some(p) => cuts(p.name@, 16) && match p.own_run {
            Some(r) => r < planned.len() && planned[r as int].is_some(),
            None => true,
        },
        None => false,
    }
}

/// What the build script of a unit asked for: its directory and its variables.
pub open spec fn with_own_run(iv: InvocationView, planned: Seq<Option<Planned>>, p: Planned, own: Option<&BuildOutput>) -> InvocationView {
    match p.own_run {
        Some(r) => {
            let iv = iv.setting("OUT_DIR"@, under(planned[r as int].unwrap().out_dir@, "out"@), false);
            match own {
                Some(o) => with_all(iv, o@.env, false),
                None => iv,
            }
        },
        None => iv,
    }
}

/// What a program finds in its environment: package metadata, `OUT_DIR`, `rustc-env`, `CARGO_BIN_EXE_*`, and a
/// library path under the name that the platform has for it.
pub open spec fn program_vars(
    iv: InvocationView,
    ctx: Ctx,
    units: Seq<Unit>,
    planned: Seq<Option<Planned>>,
    ui: int,
    own: Option<&BuildOutput>,
    libs: Option<(Seq<char>, Seq<char>)>,
) -> InvocationView {
    let u = units[ui];
    let kind = target_of(ctx.pkgs(), u).kind;
    let iv = with_own_run(pkg_vars(iv, ctx, ctx.pkgs()[u.pkg as int]), planned, planned[ui].unwrap(), own);
    let iv = if kind == TargetKind::Test || kind == TargetKind::Bench {
        with_all(iv, exes_upto(ctx, units, u.deps@, u.deps@.len() as int), false)
    } else {
        iv
    };
    match libs {
        Some((var, path)) => iv.setting(var, path, false),
        None => iv,
    }
}

pub open spec fn libs_view(o: Option<(&str, &str)>) -> Option<(Seq<char>, Seq<char>)> {
    match o {
        Some((a, b)) => Some((a@, b@)),
        None => None,
    }
}

/// Sets what a program finds in its environment. `own` is what the unit's build script asked for; `libs` is
/// the variable for the library path and its value.
pub fn program_env(
    inv: &mut Invocation,
    ctx: &Ctx<'_>,
    units: &Vec<Unit>,
    planned: &Vec<Option<Planned>>,
    ui: usize,
    own: Option<&BuildOutput>,
    libs: Option<(&str, &str)>,
)
    requires
        ui < units@.len(),
        in_packages(ctx.pkgs(), units@),
        deps_planned(*ctx, units@, planned@, units@[ui as int].deps@),
        is_planned(planned@, ui as int),
    ensures
        final(inv)@ == program_vars(old(inv)@, *ctx, units@, planned@, ui as int, own, libs_view(libs)),
{
    let u = &units[ui];
    pkg_env(inv, ctx, u.pkg);
    if let Some(p) = &planned[ui] {
        if let Some(r) = p.own_run {
            if let Some(run) = &planned[r] {
                inv.env_unhashed("OUT_DIR", run.out_dir_path().as_str());
            }
            if let Some(o) = own {
                set_all(inv, &o.env, false);
            }
        }
    }
    let kind = ctx.ws.pkgs[u.pkg].targets[u.target].kind;
    if kind == TargetKind::Test || kind == TargetKind::Bench {
        let exes = list_exes(ctx, units, &u.deps, Ghost(planned@));
        set_all(inv, &exes, false);
    }
    if let Some((var, path)) = libs {
        inv.env_unhashed(var, path);
    }
}

// ---------------------------------------------------------------------------
// Doctests.

/// The arguments up to the library itself.
pub open spec fn doctest_head(ctx: Ctx, u: Unit, pkg: int, src: Seq<char>, lib: Seq<char>) -> ArgsView {
    let t = target_of(ctx.pkgs(), u);
    let name = swapped(t.name@, '-', '_');
    flag("--edition="@ + t.edition@) + each("--crate-type"@, views(t.crate_types@)) + pair("--crate-name"@, name) + flag(
        "--test"@,
    ) + flag(src) + pair("--test-run-directory"@, ctx.pkgs()[pkg].root@) + pair(
        "-L"@,
        "dependency="@ + ctx.at(u.kind).deps_dir@,
    ) + crate::commands::when(u.kind != CompileKind::Host, pair("-L"@, "dependency="@ + ctx.host.deps_dir@)) + pair(
        "--extern"@,
        name + "="@ + lib,
    ) + crate::commands::when(t.proc_macro(), pair("--extern"@, "proc_macro"@))
}

pub open spec fn cfgs_of(own: Option<&BuildOutput>) -> Seq<Seq<char>> {
    match own {
        Some(o) => o@.cfgs,
        None => Seq::empty(),
    }
}

/// The arguments that come after what is linked.
pub open spec fn doctest_tail(ctx: Ctx, k: KindInfo, own: Option<&BuildOutput>, linked: Seq<Option<BuildOutput>>, args: Seq<Seq<char>>) -> ArgsView {
    each("--cfg"@, cfgs_of(own)) + each("-L"@, searches_upto(linked, linked.len() as int)) + doctest_target(k) + doctest_linker(k)
        + crate::commands::when(ctx.shell@.color, flag("--color=always"@)) + each("--test-args"@, args)
}

/// The call that runs the doctests of a library, apart from its environment.
pub open spec fn doctest_args(
    ctx: Ctx,
    u: Unit,
    pkg: int,
    lib: Seq<char>,
    externs: Seq<NamedView>,
    dev_externs: Seq<NamedView>,
    own: Option<&BuildOutput>,
    linked: Seq<Option<BuildOutput>>,
    args: Seq<Seq<char>>,
) -> InvocationView {
    let p = ctx.pkgs()[pkg];
    let t = target_of(ctx.pkgs(), u);
    let (src, cwd) = source_at(ctx.ws.root@, p, t);
    InvocationView {
        program: rustdoc_path(ctx),
        args: Seq::empty(),
        env: Map::empty(),
        cwd,
        path_prepend: Seq::empty(),
    }.adding(doctest_head(ctx, u, pkg, src, lib)).adding(extern_args(externs)).adding(extern_args(dev_externs)).adding(
        feature_args(views(u.features@)),
    ).adding(doctest_tail(ctx, ctx.at(u.kind), own, linked, args))
}

fn add_doctest_head(inv: &mut Invocation, ctx: &Ctx<'_>, u: &Unit, pkg: usize, src: &str, lib: &str)
    requires
        in_ctx(*ctx, *u),
        pkg < ctx.pkgs().len(),
    ensures
        final(inv)@ == old(inv)@.adding(doctest_head(*ctx, *u, pkg as int, src@, lib@)),
{
    let ghost v = inv@;
    let t = &ctx.ws.pkgs[u.pkg].targets[u.target];
    let name = t.crate_name();
    let k = ctx.kind(u.kind);
    let edition = cat("--edition=", t.edition.as_str());
    let own_dir = cat("dependency=", k.deps_dir.as_str());
    let host_dir = cat("dependency=", ctx.host.deps_dir.as_str());
    let itself = cat3(name.as_str(), "=", lib);
    let other: bool = u.kind != CompileKind::Host;
    let macros: bool = t.is_proc_macro();
    inv.flag_if(true, edition.as_str());
    inv.each("--crate-type", &t.crate_types);
    inv.pair("--crate-name", name.as_str());
    inv.flag_if(true, "--test");
    inv.flag_if(true, src);
    inv.pair("--test-run-directory", ctx.ws.pkgs[pkg].root.as_str());
    inv.pair("-L", own_dir.as_str());
    inv.pair_if(other, "-L", host_dir.as_str());
    inv.pair("--extern", itself.as_str());
    inv.pair_if(macros, "--extern", "proc_macro");
    proof {
        let a = flag(edition@);
        let b = each("--crate-type"@, views(t.crate_types@));
        let c = pair("--crate-name"@, name@);
        let d = flag("--test"@);
        let e = flag(src@);
        let f = pair("--test-run-directory"@, ctx.pkgs()[pkg as int].root@);
        let g = pair("-L"@, own_dir@);
        let h = crate::commands::when(other, pair("-L"@, host_dir@));
        let i = pair("--extern"@, itself@);
        let j = crate::commands::when(macros, pair("--extern"@, "proc_macro"@));
        lemma_adding(v, a, b);
        lemma_adding(v, a + b, c);
        lemma_adding(v, a + b + c, d);
        lemma_adding(v, a + b + c + d, e);
        lemma_adding(v, a + b + c + d + e, f);
        lemma_adding(v, a + b + c + d + e + f, g);
        lemma_adding(v, a + b + c + d + e + f + g, h);
        lemma_adding(v, a + b + c + d + e + f + g + h, i);
        lemma_adding(v, a + b + c + d + e + f + g + h + i, j);
    }
}

proof fn lemma_adding(v: InvocationView, a: ArgsView, b: ArgsView)
    ensures
        v.adding(a).adding(b) == v.adding(a + b),
        v.adding(Seq::empty()) == v,
{
    reveal(InvocationView::adding);
    assert((v.args + a) + b =~= v.args + (a + b));
    assert(v.args + Seq::<(Seq<char>, bool)>::empty() =~= v.args);
}

fn add_own_cfgs(inv: &mut Invocation, own: Option<&BuildOutput>)
    ensures
        final(inv)@ == old(inv)@.adding(each("--cfg"@, cfgs_of(own))),
{
    match own {
        Some(o) => {
            inv.each("--cfg", &o.cfgs);
        },
        None => {
            proof {
                assert(each("--cfg"@, Seq::empty()) =~= Seq::<(Seq<char>, bool)>::empty());
                lemma_adding(inv@, Seq::empty(), Seq::empty());
            }
        },
    }
}

/// What the compiler is told about the target.
pub open spec fn doctest_target(k: KindInfo) -> ArgsView {
    match k.target_flag {
        Some(tf) => pair("--target"@, tf@) + crate::commands::when(ends(tf@, ".json"@), flag("-Zunstable-options"@)),
        None => Seq::empty(),
    }
}

fn add_doctest_target(inv: &mut Invocation, k: &KindInfo)
    ensures
        final(inv)@ == old(inv)@.adding(doctest_target(*k)),
{
    let ghost v = inv@;
    if let Some(tf) = &k.target_flag {
        inv.pair("--target", tf.as_str());
        let json: bool = ends_with(tf.as_str(), ".json");
        inv.flag_if(json, "-Zunstable-options");
        proof {
            lemma_adding(v, pair("--target"@, tf@), crate::commands::when(json, flag("-Zunstable-options"@)));
        }
    } else {
        proof {
            lemma_adding(v, Seq::empty(), Seq::empty());
        }
    }
}

pub open spec fn doctest_linker(k: KindInfo) -> ArgsView {
    match k.linker {
        Some(l) => pair("-C"@, "linker="@ + l@),
        None => Seq::empty(),
    }
}

fn add_doctest_linker(inv: &mut Invocation, k: &KindInfo)
    ensures
        final(inv)@ == old(inv)@.adding(doctest_linker(*k)),
{
    if let Some(l) = &k.linker {
        inv.pair("-C", cat("linker=", l.as_str()).as_str());
    } else {
        proof {
            lemma_adding(inv@, Seq::empty(), Seq::empty());
        }
    }
}

fn add_doctest_tail(
    inv: &mut Invocation,
    ctx: &Ctx<'_>,
    k: &KindInfo,
    own: Option<&BuildOutput>,
    linked: &Vec<Option<BuildOutput>>,
    args: &Vec<String>,
)
    ensures
        final(inv)@ == old(inv)@.adding(doctest_tail(*ctx, *k, own, linked@, views(args@))),
{
    let ghost v = inv@;
    let ghost a = each("--cfg"@, cfgs_of(own));
    let ghost b = each("-L"@, searches_upto(linked@, linked@.len() as int));
    let ghost c = doctest_target(*k);
    let ghost d = doctest_linker(*k);
    let ghost e = crate::commands::when(ctx.shell@.color, flag("--color=always"@));
    let ghost f = each("--test-args"@, views(args@));
    add_own_cfgs(inv, own);
    let searches = list_searches(linked);
    inv.each("-L", &searches);
    add_doctest_target(inv, k);
    add_doctest_linker(inv, k);
    inv.flag_if(ctx.shell.color(), "--color=always");
    inv.each("--test-args", args);
    proof {
        lemma_adding(v, a, b);
        lemma_adding(v, a + b, c);
        lemma_adding(v, a + b + c, d);
        lemma_adding(v, a + b + c + d, e);
        lemma_adding(v, a + b + c + d + e, f);
    }
}

/// A doctest speaks of units that are planned.
pub open spec fn doctest_planned(ctx: Ctx, units: Seq<Unit>, planned: Seq<Option<Planned>>, d: Doctest) -> bool {
    &&& d.lib < units.len()
    &&& d.pkg < ctx.pkgs().len()
    &&& in_packages(ctx.pkgs(), units)
    &&& in_ctx(ctx, units[d.lib as int])
    &&& deps_planned(ctx, units, planned, units[d.lib as int].deps@)
    &&& deps_planned(ctx, units, planned, d.dev_deps@)
    &&& is_planned(planned, d.lib as int)
}

/// The call that runs the doctests of a library. `own` is what its build script asked for, `linked` what the
/// scripts asked for whose libraries it links.
pub fn run_doctest(
    ctx: &Ctx<'_>,
    units: &Vec<Unit>,
    planned: &Vec<Option<Planned>>,
    d: &Doctest,
    own: Option<&BuildOutput>,
    linked: &Vec<Option<BuildOutput>>,
    args: &Vec<String>,
    libs: Option<(&str, &str)>,
) -> (r: Result<Invocation, PlanError>)
    requires
        doctest_planned(*ctx, units@, planned@, *d),
    ensures
        ({
            let u = units@[d.lib as int];
            let lib = dep_path(*ctx, u, planned@[d.lib as int].unwrap(), false);
            let externs = externs_upto(*ctx, units@, planned@, u.deps@, false, true, u.deps@.len() as int);
            let dev = externs_upto(*ctx, units@, planned@, d.dev_deps@, false, true, d.dev_deps@.len() as int);
            match r {
                Ok(inv) => lib.is_some() && externs.is_some() && dev.is_some() && inv@ == program_vars(
                    doctest_args(
                        *ctx,
                        u,
                        d.pkg as int,
                        lib.unwrap(),
                        externs.unwrap(),
                        dev.unwrap(),
                        own,
                        linked@,
                        views(args@),
                    ),
                    *ctx,
                    units@,
                    planned@,
                    d.lib as int,
                    own,
                    libs_view(libs),
                ),
                Err(e) => {
                    ||| lib.is_none() && (e matches PlanError::CrateType { triple, crate_name } && triple@ == ctx.at(
                        u.kind,
                    ).triple@ && crate_name@ == planned@[d.lib as int].unwrap().crate_name@)
                    ||| lib.is_some() && externs.is_none() && missing_extern(*ctx, units@, planned@, u.deps@, false, true, e)
                    ||| lib.is_some() && externs.is_some() && dev.is_none() && missing_extern(
                        *ctx,
                        units@,
                        planned@,
                        d.dev_deps@,
                        false,
                        true,
                        e,
                    )
                },
            }
        }),
{
    let u = &units[d.lib];
    let p = &ctx.ws.pkgs[d.pkg];
    let t = &ctx.ws.pkgs[u.pkg].targets[u.target];
    let (src, cwd) = find_source(ctx.ws.root.as_str(), p, t);
    let lp = match &planned[d.lib] {
        Some(lp) => lp,
        None => {
            return Err(PlanError::NoScript);
        },
    };
    let lib = match dep_output_path(ctx, u, lp, false) {
        Ok(l) => l,
        Err(e) => {
            return Err(e);
        },
    };
    let externs = match list_externs(ctx, units, planned, &u.deps, false, true) {
        Ok(l) => l,
        Err(e) => {
            return Err(e);
        },
    };
    let dev = match list_externs(ctx, units, planned, &d.dev_deps, false, true) {
        Ok(l) => l,
        Err(e) => {
            return Err(e);
        },
    };
    let mut inv = Invocation::new(find_rustdoc(ctx).as_str(), cwd.as_str());
    add_doctest_head(&mut inv, ctx, u, d.pkg, src.as_str(), lib.as_str());
    add_externs(&mut inv, &externs);
    add_externs(&mut inv, &dev);
    add_features(&mut inv, &u.features);
    add_doctest_tail(&mut inv, ctx, ctx.kind(u.kind), own, linked, args);
    program_env(&mut inv, ctx, units, planned, d.lib, own, libs);
    Ok(inv)
}

// ---------------------------------------------------------------------------
// Documentation.

/// What is said of the files beside the first one.
pub open spec fn others_text(n: nat) -> Seq<char> {
    if n == 0 {
        Seq::empty()
    } else if n == 1 {
        " and 1 other file"@
    } else {
        " and "@ + dec(n) + " other files"@
    }
}

/// What was generated: the first index, and how many there are beside it. Nothing where there is none.
pub fn report_docs(indexes: &Vec<String>) -> (r: Option<String>)
    ensures
        opt_view(r) == (if indexes@.len() == 0 {
            None
        } else {
            Some(indexes@[0]@ + others_text((indexes@.len() - 1) as nat))
        }),
{
    if indexes.len() == 0 {
        return None;
    }
    let n: usize = indexes.len() - 1;
    proof {
        reveal_strlit("");
        assert(""@ =~= Seq::<char>::empty());
    }
    let others = if n == 0 {
        "".to_owned()
    } else if n == 1 {
        " and 1 other file".to_owned()
    } else {
        cat3(" and ", usize_text(n).as_str(), " other files")
    };
    Some(cat(indexes[0].as_str(), others.as_str()))
}

} // verus!
