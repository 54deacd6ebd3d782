//! What a command builds: which targets of a package it is about, and in which way each is built.

use vstd::prelude::*;
use crate::cfgexpr::PlatformCfg;
use crate::cfgexpr::applies;
use crate::cfgexpr::facts;
use crate::feature_laws::name_in_features;
use crate::manifest::DepDecl;
use crate::manifest::DepKind;
use crate::manifest::Target;
use crate::manifest::TargetKind;
use crate::text::opt_view;
use crate::text::split_first;
use crate::text::views;
use crate::unit::Candidate;
use crate::unit::Command;
use crate::unit::CompileKind;
use crate::unit::GraphInputs;
use crate::unit::Identity;
use crate::unit::Mode;
use crate::unit::TargetFilter;
use crate::unit::Unit;
use crate::unit::UnitGraph;
use crate::unit::assembled;
use crate::unit::by_default;
use crate::unit::candidate;
use crate::unit::candidates;
use crate::unit::candidates_for;
use crate::unit::candidates_of;
use crate::unit::chosen;
use crate::unit::flags_kind;
use crate::unit::is_unit;
use crate::unit::lacks_features;
use crate::unit::meets_wants;
use crate::unit::mode_for;
use crate::unit::names_target;
use crate::unit::requested_kinds;
use crate::unit::root_ids;
use crate::workspace::Pkg;
use crate::workspace::first_of;

verus! {

/// Nothing on the command line says which targets are meant.
pub open spec fn without_filter(f: TargetFilter) -> bool {
    &&& !f.lib && !f.bins && !f.examples && !f.tests && !f.benches && !f.all_targets && !f.doc
    &&& f.bin_names@.len() == 0 && f.example_names@.len() == 0 && f.test_names@.len() == 0 && f.bench_names@.len() == 0
}

/// The target with that index is built, in that mode.
pub open spec fn is_built(l: Seq<(usize, Mode, bool)>, i: int, mode: Mode) -> bool {
    exists|k: int| 0 <= k < l.len() && (#[trigger] l[k]).0 == i && l[k].1 == mode
}

/// The target with that index is left out.
pub open spec fn is_left_out(l: Seq<(usize, Mode, bool)>, i: int) -> bool {
    forall|k: int| 0 <= k < l.len() ==> (#[trigger] l[k]).0 != i
}

/// The targets of a package that a command selects.
pub open spec fn selection(targets: Seq<Target>, command: Command, f: TargetFilter) -> Seq<(usize, Mode, bool)> {
    chosen(targets, command, f, targets.len() as int)
}

proof fn lemma_chosen(targets: Seq<Target>, command: Command, f: TargetFilter, k: int, i: int)
    requires
        0 <= k <= targets.len() <= usize::MAX,
        0 <= i < targets.len(),
    ensures
        ({
            let l = chosen(targets, command, f, k);
            let t = targets[i];
            let wanted = if f.is_explicit() {
                names_target(f, t) || flags_kind(f, t.kind)
            } else {
                by_default(command, targets, t)
            };
            let mode = mode_for(command, t);
            &&& i < k && wanted ==> is_built(l, i, mode)
            &&& !(i < k && wanted) ==> is_left_out(l, i)
            &&& forall|j: int| 0 <= j < l.len() && (#[trigger] l[j]).0 == i ==> l[j].1 == mode && l[j].2 == names_target(f, t)
        }),
    decreases k,
{
    if k > 0 {
        lemma_chosen(targets, command, f, k - 1, i);
        let rest = chosen(targets, command, f, k - 1);
        let l = chosen(targets, command, f, k);
        let mode = mode_for(command, targets[i]);
        if is_built(rest, i, mode) {
            let j = choose|j: int| 0 <= j < rest.len() && (#[trigger] rest[j]).0 == i && rest[j].1 == mode;
            assert(l[j] == rest[j]);
            assert(is_built(l, i, mode));
        }
        if l.len() > rest.len() {
            assert(l[rest.len() as int].0 == k - 1);
            assert forall|j: int| 0 <= j < l.len() && j != rest.len() implies (#[trigger] l[j]) == rest[j] by {}
        } else {
            assert(l == rest);
        }
    }
}

/// Without a filter, `build` and `check` are about every library and every binary of a package, and about nothing else:
/// `build` makes them, and `check` only checks them.
pub proof fn law_build_makes_libraries_and_binaries(targets: Seq<Target>, f: TargetFilter, i: int)
    requires
        targets.len() <= usize::MAX,
        0 <= i < targets.len(),
        without_filter(f),
    ensures
        ({
            let lib_or_bin = targets[i].kind == TargetKind::Lib || targets[i].kind == TargetKind::Bin;
            &&& lib_or_bin ==> is_built(selection(targets, Command::Build, f), i, Mode::Build)
            &&& lib_or_bin ==> is_built(selection(targets, Command::Check, f), i, Mode::Check)
            &&& !lib_or_bin ==> is_left_out(selection(targets, Command::Build, f), i)
            &&& !lib_or_bin ==> is_left_out(selection(targets, Command::Check, f), i)
        }),
{
    lemma_chosen(targets, Command::Build, f, targets.len() as int, i);
    lemma_chosen(targets, Command::Check, f, targets.len() as int, i);
}

/// Without a filter, `test` tests every target that has tests, makes every example, and leaves out the rest. `bench` runs
/// every target that has benchmarks.
pub proof fn law_test_and_bench_take_what_has_tests(targets: Seq<Target>, f: TargetFilter, i: int)
    requires
        targets.len() <= usize::MAX,
        0 <= i < targets.len(),
        without_filter(f),
    ensures
        ({
            let t = targets[i];
            let test = selection(targets, Command::Test, f);
            let bench = selection(targets, Command::Bench, f);
            &&& t.kind == TargetKind::BuildScript ==> is_left_out(test, i) && is_left_out(bench, i)
            &&& t.kind != TargetKind::BuildScript && t.test ==> is_built(test, i, Mode::Test)
            &&& t.kind == TargetKind::Example && !t.test ==> is_built(test, i, Mode::Build)
            &&& t.kind != TargetKind::Example && !t.test ==> is_left_out(test, i)
            &&& t.kind != TargetKind::BuildScript && t.bench ==> is_built(bench, i, Mode::Bench)
            &&& !t.bench ==> is_left_out(bench, i)
        }),
{
    lemma_chosen(targets, Command::Test, f, targets.len() as int, i);
    lemma_chosen(targets, Command::Bench, f, targets.len() as int, i);
}

/// Without a filter, `doc` documents the libraries and binaries that have documentation. A binary that is called like a
/// library is left out: its pages would take the place of the library's.
pub proof fn law_doc_documents_each_name_once(targets: Seq<Target>, deps: bool, f: TargetFilter, i: int)
    requires
        targets.len() <= usize::MAX,
        0 <= i < targets.len(),
        without_filter(f),
    ensures
        ({
            let t = targets[i];
            let l = selection(targets, Command::Doc { deps }, f);
            let taken = exists|k: int|
                0 <= k < targets.len() && (#[trigger] targets[k]).kind == TargetKind::Lib && targets[k].name@ == t.name@;
            &&& t.doc && t.kind == TargetKind::Lib ==> is_built(l, i, Mode::Doc)
            &&& t.doc && t.kind == TargetKind::Bin && !taken ==> is_built(l, i, Mode::Doc)
            &&& t.kind == TargetKind::Bin && taken ==> is_left_out(l, i)
            &&& !t.doc ==> is_left_out(l, i)
            &&& t.kind != TargetKind::Lib && t.kind != TargetKind::Bin ==> is_left_out(l, i)
        }),
{
    lemma_chosen(targets, Command::Doc { deps }, f, targets.len() as int, i);
}

/// `run` without a filter is about no target: which binary is run is decided before.
pub proof fn law_run_needs_a_name(targets: Seq<Target>, f: TargetFilter, i: int)
    requires
        targets.len() <= usize::MAX,
        0 <= i < targets.len(),
        without_filter(f),
    ensures
        is_left_out(selection(targets, Command::Run, f), i),
{
    lemma_chosen(targets, Command::Run, f, targets.len() as int, i);
}

/// The filter asks for the target: for all of them, for those of its kind, or for it by its name.
pub open spec fn asks_for(f: TargetFilter, t: Target) -> bool {
    &&& t.kind != TargetKind::BuildScript
    &&& {
        ||| f.all_targets
        ||| t.kind == TargetKind::Lib && f.lib
        ||| t.kind == TargetKind::Bin && (f.bins || views(f.bin_names@).contains(t.name@))
        ||| t.kind == TargetKind::Example && (f.examples || views(f.example_names@).contains(t.name@))
        ||| t.kind == TargetKind::Test && (f.tests || views(f.test_names@).contains(t.name@))
        ||| t.kind == TargetKind::Bench && (f.benches || views(f.bench_names@).contains(t.name@))
    }
}

/// With a filter, every command is about exactly the targets that the filter asks for, whatever it would take by default.
/// Tests and benchmarks are built as tests, under `check` too. A target that the filter names is marked so.
pub proof fn law_a_filter_decides_alone(targets: Seq<Target>, command: Command, f: TargetFilter, i: int)
    requires
        targets.len() <= usize::MAX,
        0 <= i < targets.len(),
        !without_filter(f),
    ensures
        ({
            let t = targets[i];
            let l = selection(targets, command, f);
            let test_target = t.kind == TargetKind::Test || t.kind == TargetKind::Bench;
            &&& !asks_for(f, t) ==> is_left_out(l, i)
            &&& asks_for(f, t) ==> is_built(
                l,
                i,
                if command is Doc {
                    Mode::Doc
                } else if command is Test {
                    if t.kind == TargetKind::Example && !t.test {
                        Mode::Build
                    } else {
                        Mode::Test
                    }
                } else if command is Bench {
                    if t.kind == TargetKind::Example && !t.bench {
                        Mode::Build
                    } else {
                        Mode::Bench
                    }
                } else if command is Check {
                    if test_target {
                        Mode::CheckTest
                    } else {
                        Mode::Check
                    }
                } else if test_target {
                    Mode::Test
                } else {
                    Mode::Build
                },
            )
            &&& forall|k: int|
                0 <= k < l.len() && (#[trigger] l[k]).0 == i ==> l[k].2 == (match t.kind {
                    TargetKind::Bin => views(f.bin_names@).contains(t.name@),
                    TargetKind::Example => views(f.example_names@).contains(t.name@),
                    TargetKind::Test => views(f.test_names@).contains(t.name@),
                    TargetKind::Bench => views(f.bench_names@).contains(t.name@),
                    _ => false,
                })
        }),
{
    lemma_chosen(targets, command, f, targets.len() as int, i);
}

// ---------------------------------------------------------------------------
// What a unit is linked with.

/// The unit is a test or a benchmark.
pub open spec fn is_test_mode(m: Mode) -> bool {
    m == Mode::Test || m == Mode::Bench || m == Mode::CheckTest
}

/// Development dependencies are for tests, benchmarks and examples.
pub open spec fn takes_dev(u: Unit, t: Target) -> bool {
    is_test_mode(u.mode) || t.kind == TargetKind::Example || t.kind == TargetKind::Test || t.kind == TargetKind::Bench
}

/// The dependency `j` of a package is on, for a platform: an optional one was turned on, and one for a platform is for this
/// one. Its package is loaded.
pub open spec fn is_turned_on(i: GraphInputs, pkg: usize, j: int, for_host: bool, p: PlatformCfg) -> bool {
    let dep = i.ws.pkgs@[pkg as int].deps@[j];
    &&& 0 <= j < i.ws.pkgs@[pkg as int].deps@.len()
    &&& dep.optional ==> i.res.optional(pkg as int, for_host).contains(name_in_features(dep))
    &&& dep.platform.is_some() ==> applies(dep.platform.unwrap()@, p.triple@, facts(p.cfg@))
    &&& i.ws.pkgs@[pkg as int].dep_targets@[j].is_some()
}

/// The platform that a unit is compiled for.
pub open spec fn platform_for<'a>(i: GraphInputs<'a>, kind: CompileKind) -> PlatformCfg<'a> {
    match kind {
        CompileKind::Host => *i.host_platform,
        CompileKind::Target(t) => i.target_platforms@[t as int],
    }
}

/// The first library of a package is the target with that index.
pub open spec fn is_lib(p: Pkg, l: int) -> bool {
    0 <= l < p.targets@.len() && p.targets@[l].kind == TargetKind::Lib && forall|k: int|
        0 <= k < l ==> (#[trigger] p.targets@[k]).kind != TargetKind::Lib
}

/// The name with underscores for hyphens.
pub open spec fn is_with_underscores(c: Seq<char>, name: Seq<char>) -> bool {
    c.len() == name.len() && forall|i: int| 0 <= i < name.len() ==> #[trigger] c[i] == if name[i] == '-' {
        '_'
    } else {
        name[i]
    }
}

/// How the library of a dependency is built for a unit: one that runs in the compiler for the host, and another as the unit
/// is. For a check or documentation its metadata will do.
pub open spec fn is_library_for(i: GraphInputs, v: Unit, t: usize, kind: CompileKind, for_host: bool, mode: Mode) -> bool {
    let p = i.ws.pkgs@[t as int];
    &&& v.pkg == t
    &&& is_lib(p, v.target as int)
    &&& v.kind == if p.proc_macro {
        CompileKind::Host
    } else {
        kind
    }
    &&& v.for_host == (p.proc_macro || for_host)
    &&& v.mode == if !p.proc_macro && (mode == Mode::Check || mode == Mode::CheckTest || mode == Mode::Doc) {
        Mode::Check
    } else {
        Mode::Build
    }
}

/// The name by which code calls a dependency: the one that it was given, or that of the library.
pub open spec fn is_link_name(dep: DepDecl, lib: Target, c: Seq<char>) -> bool {
    if dep.rename.is_some() {
        is_with_underscores(c, dep.rename.unwrap()@)
    } else {
        is_with_underscores(c, lib.name@)
    }
}

pub proof fn lemma_first_of(targets: Seq<Target>, kind: TargetKind, k: int)
    requires
        0 <= k <= targets.len(),
    ensures
        match first_of(targets, kind, k) {
            Some(l) => k <= l < targets.len() && targets[l].kind == kind && forall|j: int| k <= j < l ==> (#[trigger] targets[j]).kind
                != kind,
            None => forall|j: int| k <= j < targets.len() ==> (#[trigger] targets[j]).kind != kind,
        },
    decreases targets.len() - k,
{
    if k < targets.len() && targets[k].kind != kind {
        lemma_first_of(targets, kind, k + 1);
    }
}

proof fn lemma_lib_at(p: Pkg, l: int)
    requires
        is_lib(p, l),
    ensures
        p.lib_at() == Some(l),
{
    lemma_first_of(p.targets@, TargetKind::Lib, 0);
    let f = first_of(p.targets@, TargetKind::Lib, 0);
    assert(p.targets@[l].kind == TargetKind::Lib);
}

proof fn lemma_on(i: GraphInputs, pkg: usize, j: int, kind: CompileKind, for_host: bool, dk: DepKind)
    requires
        0 <= j < i.pkgs()[pkg as int].deps@.len(),
    ensures
        i.dep_on(pkg as int, j, kind, for_host, dk) == (i.ws.pkgs@[pkg as int].deps@[j].kind == dk && is_turned_on(
            i,
            pkg,
            j,
            for_host,
            platform_for(i, kind),
        ) && i.ws.pkgs@[i.ws.pkgs@[pkg as int].dep_targets@[j].unwrap() as int].loaded),
{
}

type Wants = Seq<(Identity, Option<Seq<char>>)>;

proof fn lemma_libs_have(i: GraphInputs, pkg: usize, kind: CompileKind, for_host: bool, dk: DepKind, mode: Mode, n: int, j: int, l: int)
    requires
        0 <= j < n <= i.pkgs()[pkg as int].deps@.len(),
        i.dep_on(pkg as int, j, kind, for_host, dk),
        is_lib(i.pkgs()[i.pkgs()[pkg as int].dep_targets@[j].unwrap() as int], l),
    ensures
        ({
            let t = i.pkgs()[pkg as int].dep_targets@[j].unwrap() as int;
            i.libs_upto(pkg as int, kind, for_host, dk, mode, n).contains(
                (i.lib_id(t, kind, for_host, mode).unwrap(), Some(i.link_name(i.pkgs()[pkg as int].deps@[j], t))),
            )
        }),
    decreases n,
{
    let t = i.pkgs()[pkg as int].dep_targets@[j].unwrap() as int;
    lemma_lib_at(i.pkgs()[t], l);
    let rest = i.libs_upto(pkg as int, kind, for_host, dk, mode, n - 1);
    let all = i.libs_upto(pkg as int, kind, for_host, dk, mode, n);
    let x = (i.lib_id(t, kind, for_host, mode).unwrap(), Some(i.link_name(i.pkgs()[pkg as int].deps@[j], t)));
    if j == n - 1 {
        assert(all[rest.len() as int] == x);
    } else {
        lemma_libs_have(i, pkg, kind, for_host, dk, mode, n - 1, j, l);
        let q = choose|q: int| 0 <= q < rest.len() && rest[q] == x;
        assert(all[q] == x);
    }
}

proof fn lemma_libs_only(i: GraphInputs, pkg: usize, kind: CompileKind, for_host: bool, dk: DepKind, mode: Mode, n: int, q: int)
    requires
        0 <= n <= i.pkgs()[pkg as int].deps@.len(),
        0 <= q < i.libs_upto(pkg as int, kind, for_host, dk, mode, n).len(),
    ensures
        exists|j: int|
            0 <= j < n && #[trigger] i.dep_on(pkg as int, j, kind, for_host, dk) && ({
                let t = i.pkgs()[pkg as int].dep_targets@[j].unwrap() as int;
                &&& i.pkgs()[t].lib_at().is_some()
                &&& i.libs_upto(pkg as int, kind, for_host, dk, mode, n)[q] == (
                    i.lib_id(t, kind, for_host, mode).unwrap(),
                    Some(i.link_name(i.pkgs()[pkg as int].deps@[j], t)),
                )
            }),
    decreases n,
{
    if n > 0 {
        let rest = i.libs_upto(pkg as int, kind, for_host, dk, mode, n - 1);
        if q < rest.len() {
            lemma_libs_only(i, pkg, kind, for_host, dk, mode, n - 1, q);
            let j = choose|j: int|
                0 <= j < n - 1 && #[trigger] i.dep_on(pkg as int, j, kind, for_host, dk) && ({
                    let t = i.pkgs()[pkg as int].dep_targets@[j].unwrap() as int;
                    &&& i.pkgs()[t].lib_at().is_some()
                    &&& rest[q] == (i.lib_id(t, kind, for_host, mode).unwrap(), Some(i.link_name(i.pkgs()[pkg as int].deps@[j], t)))
                });
            assert(i.dep_on(pkg as int, j, kind, for_host, dk));
        } else {
            assert(i.dep_on(pkg as int, n - 1, kind, for_host, dk));
        }
    }
}

/// What is wanted of a unit is among its dependencies.
proof fn lemma_wanted(i: GraphInputs, packages: Seq<usize>, f: TargetFilter, g: UnitGraph, ids: Seq<Identity>, k: int, x: (Identity, Option<Seq<char>>))
    requires
        assembled(i, packages, f, g, ids),
        0 <= k < g.units@.len(),
        i.wants(i.command == (Command::Doc { deps: true }), ids[k]).contains(x),
    ensures
        exists|d: int|
            0 <= d < g.units@[k].deps@.len() && (#[trigger] g.units@[k].deps@[d]).unit < g.units@.len() && is_unit(
                i,
                g.units@[g.units@[k].deps@[d].unit as int],
                x.0,
            ) && opt_view(g.units@[k].deps@[d].extern_name) == x.1,
{
    let w = i.wants(i.command == (Command::Doc { deps: true }), ids[k]);
    let d = choose|d: int| 0 <= d < w.len() && w[d] == x;
    assert(meets_wants(g.units@[k].deps@, ids, w));
    assert(g.units@[k].deps@[d].unit < ids.len());
    assert(is_unit(i, g.units@[g.units@[k].deps@[d].unit as int], ids[g.units@[k].deps@[d].unit as int]));
}

/// A unit is linked with the library of each dependency that counts for it, under the name by which its code calls it.
/// Development dependencies count for tests, benchmarks and examples alone.
pub proof fn law_units_are_linked_with_their_dependencies(
    i: GraphInputs,
    packages: Seq<usize>,
    f: TargetFilter,
    g: UnitGraph,
    ids: Seq<Identity>,
    k: int,
    j: int,
    l: int,
)
    requires
        assembled(i, packages, f, g, ids),
        0 <= k < g.units@.len(),
        g.units@[k].mode != Mode::RunCustomBuild,
        i.ws.pkgs@[g.units@[k].pkg as int].targets@[g.units@[k].target as int].kind != TargetKind::BuildScript,
        is_turned_on(i, g.units@[k].pkg, j, g.units@[k].for_host, platform_for(i, g.units@[k].kind)),
        i.ws.pkgs@[i.ws.pkgs@[g.units@[k].pkg as int].dep_targets@[j].unwrap() as int].loaded,
        is_lib(i.ws.pkgs@[i.ws.pkgs@[g.units@[k].pkg as int].dep_targets@[j].unwrap() as int], l),
        ({
            let u = g.units@[k];
            let dep = i.ws.pkgs@[u.pkg as int].deps@[j];
            dep.kind == DepKind::Normal || (dep.kind == DepKind::Dev && takes_dev(
                u,
                i.ws.pkgs@[u.pkg as int].targets@[u.target as int],
            ))
        }),
    ensures
        ({
            let u = g.units@[k];
            let dep = i.ws.pkgs@[u.pkg as int].deps@[j];
            let t = i.ws.pkgs@[u.pkg as int].dep_targets@[j].unwrap();
            exists|d: int|
                0 <= d < u.deps@.len() && (#[trigger] u.deps@[d]).extern_name.is_some() && is_link_name(
                    dep,
                    i.ws.pkgs@[t as int].targets@[l],
                    u.deps@[d].extern_name.unwrap()@,
                ) && is_library_for(i, g.units@[u.deps@[d].unit as int], t, u.kind, u.for_host, u.mode)
        }),
{
    let u = g.units@[k];
    let id = ids[k];
    assert(is_unit(i, u, id));
    let pkg = u.pkg;
    let p = i.pkgs()[pkg as int];
    let dep = p.deps@[j];
    let t = p.dep_targets@[j].unwrap();
    let n = p.deps@.len() as int;
    lemma_on(i, pkg, j, u.kind, u.for_host, dep.kind);
    lemma_libs_have(i, pkg, u.kind, u.for_host, dep.kind, u.mode, n, j, l);
    lemma_lib_at(i.pkgs()[t as int], l);
    let x = (i.lib_id(t as int, u.kind, u.for_host, u.mode).unwrap(), Some(i.link_name(dep, t as int)));
    let doc_deps = i.command == (Command::Doc { deps: true });
    let w = i.wants(doc_deps, id);
    let normal = i.libs(pkg as int, u.kind, u.for_host, DepKind::Normal, u.mode);
    let devs = i.libs(pkg as int, u.kind, u.for_host, DepKind::Dev, u.mode);
    if dep.kind == DepKind::Normal {
        let q = choose|q: int| 0 <= q < normal.len() && normal[q] == x;
        assert(w[q] == x);
    } else {
        let q = choose|q: int| 0 <= q < devs.len() && devs[q] == x;
        assert(w[normal.len() + q] == x);
    }
    assert(w.contains(x));
    lemma_wanted(i, packages, f, g, ids, k, x);
    assert(l < i.pkgs()[t as int].targets.len());
    let d = choose|d: int|
        0 <= d < u.deps@.len() && (#[trigger] u.deps@[d]).unit < g.units@.len() && is_unit(i, g.units@[u.deps@[d].unit as int], x.0)
            && opt_view(u.deps@[d].extern_name) == x.1;
    assert(is_link_name(dep, i.ws.pkgs@[t as int].targets@[l], u.deps@[d].extern_name.unwrap()@));
    assert(is_library_for(i, g.units@[u.deps@[d].unit as int], t, u.kind, u.for_host, u.mode));
}

/// A unit of a package with a build script needs a run of it, on the same platform. The run needs the script itself, compiled
/// for the host.
pub proof fn law_build_scripts_run_first(
    i: GraphInputs,
    packages: Seq<usize>,
    f: TargetFilter,
    g: UnitGraph,
    ids: Seq<Identity>,
    k: int,
    b: int,
)
    requires
        assembled(i, packages, f, g, ids),
        0 <= k < g.units@.len(),
        0 <= b < i.ws.pkgs@[g.units@[k].pkg as int].targets@.len(),
        i.ws.pkgs@[g.units@[k].pkg as int].targets@[b].kind == TargetKind::BuildScript,
    ensures
        ({
            let u = g.units@[k];
            let script = i.ws.pkgs@[u.pkg as int].targets@[u.target as int].kind == TargetKind::BuildScript;
            &&& u.mode != Mode::RunCustomBuild && !script ==> exists|d: int|
                0 <= d < u.deps@.len() && ({
                    let v = g.units@[(#[trigger] u.deps@[d]).unit as int];
                    v.mode == Mode::RunCustomBuild && v.pkg == u.pkg && v.kind == u.kind && v.for_host == u.for_host
                })
            &&& u.mode == Mode::RunCustomBuild ==> exists|d: int|
                0 <= d < u.deps@.len() && ({
                    let v = g.units@[(#[trigger] u.deps@[d]).unit as int];
                    v.mode == Mode::Build && v.pkg == u.pkg && v.kind == CompileKind::Host && v.for_host
                        && i.ws.pkgs@[u.pkg as int].targets@[v.target as int].kind == TargetKind::BuildScript
                })
        }),
{
    let u = g.units@[k];
    let id = ids[k];
    assert(is_unit(i, u, id));
    let pkg = u.pkg as int;
    let p = i.pkgs()[pkg];
    lemma_first_of(p.targets@, TargetKind::BuildScript, 0);
    assert(p.targets.len() == p.targets@.len());
    let doc_deps = i.command == (Command::Doc { deps: true });
    let w = i.wants(doc_deps, id);
    if u.mode == Mode::RunCustomBuild {
        let x = (i.script_id(pkg, id.for_host), None::<Seq<char>>);
        assert(w[0] == x);
        assert(w.contains(x));
        lemma_wanted(i, packages, f, g, ids, k, x);
    } else if p.targets@[u.target as int].kind != TargetKind::BuildScript {
        let x = (i.run_id(pkg, id.kind, id.for_host), None::<Seq<char>>);
        let dev = takes_dev(u, p.targets@[u.target as int]);
        let libs = i.libs(pkg, id.kind, id.for_host, DepKind::Normal, id.mode) + if dev {
            i.libs(pkg, id.kind, id.for_host, DepKind::Dev, id.mode)
        } else {
            Seq::empty()
        };
        let docs = if id.mode == Mode::Doc && doc_deps {
            i.docs_upto(libs, libs.len() as int)
        } else {
            Seq::empty()
        };
        assert(w[(libs + docs).len() as int] == x);
        assert(w.contains(x));
        lemma_wanted(i, packages, f, g, ids, k, x);
    }
}

/// A binary, example, test or benchmark is linked with the library of its own package.
pub proof fn law_targets_are_linked_with_their_own_library(
    i: GraphInputs,
    packages: Seq<usize>,
    f: TargetFilter,
    g: UnitGraph,
    ids: Seq<Identity>,
    k: int,
    l: int,
)
    requires
        assembled(i, packages, f, g, ids),
        0 <= k < g.units@.len(),
        g.units@[k].mode != Mode::RunCustomBuild,
        i.ws.pkgs@[g.units@[k].pkg as int].targets@[g.units@[k].target as int].kind != TargetKind::BuildScript,
        i.ws.pkgs@[g.units@[k].pkg as int].targets@[g.units@[k].target as int].kind != TargetKind::Lib,
        is_lib(i.ws.pkgs@[g.units@[k].pkg as int], l),
    ensures
        ({
            let u = g.units@[k];
            exists|d: int|
                0 <= d < u.deps@.len() && (#[trigger] u.deps@[d]).extern_name.is_some() && is_with_underscores(
                    u.deps@[d].extern_name.unwrap()@,
                    i.ws.pkgs@[u.pkg as int].targets@[l].name@,
                ) && is_library_for(i, g.units@[u.deps@[d].unit as int], u.pkg, u.kind, u.for_host, u.mode)
        }),
{
    let u = g.units@[k];
    let id = ids[k];
    assert(is_unit(i, u, id));
    let pkg = u.pkg as int;
    let p = i.pkgs()[pkg];
    lemma_lib_at(p, l);
    let doc_deps = i.command == (Command::Doc { deps: true });
    let w = i.wants(doc_deps, id);
    let dev = takes_dev(u, p.targets@[u.target as int]);
    let libs = i.libs(pkg, id.kind, id.for_host, DepKind::Normal, id.mode) + if dev {
        i.libs(pkg, id.kind, id.for_host, DepKind::Dev, id.mode)
    } else {
        Seq::empty()
    };
    let docs = if id.mode == Mode::Doc && doc_deps {
        i.docs_upto(libs, libs.len() as int)
    } else {
        Seq::empty()
    };
    let run = if p.script_at().is_some() {
        seq![(i.run_id(pkg, id.kind, id.for_host), None::<Seq<char>>)]
    } else {
        Seq::empty()
    };
    let own = i.own_lib(pkg, l, id.kind, id.for_host, id.mode);
    let x = own[0];
    assert(l < p.targets.len());
    assert(w[(libs + docs + run).len() as int] == x);
    assert(w.contains(x));
    lemma_wanted(i, packages, f, g, ids, k, x);
}

/// What a unit links by a name is the library of its own package, or that of a dependency that is on and counts for it: a
/// normal one, a development one of a test, a benchmark or an example, or a build dependency of a build script.
pub proof fn law_units_are_linked_with_nothing_else(
    i: GraphInputs,
    packages: Seq<usize>,
    f: TargetFilter,
    g: UnitGraph,
    ids: Seq<Identity>,
    k: int,
    d: int,
)
    requires
        assembled(i, packages, f, g, ids),
        0 <= k < g.units@.len(),
        0 <= d < g.units@[k].deps@.len(),
        g.units@[k].deps@[d].extern_name.is_some(),
    ensures
        ({
            let u = g.units@[k];
            let p = i.ws.pkgs@[u.pkg as int];
            let t = p.targets@[u.target as int];
            let v = g.units@[u.deps@[d].unit as int];
            ||| v.pkg == u.pkg && t.kind != TargetKind::Lib && i.ws.pkgs@[v.pkg as int].targets@[v.target as int].kind == TargetKind::Lib
            ||| exists|j: int|
                0 <= j < p.deps@.len() && p.dep_targets@[j] == Some(v.pkg) && is_link_name(
                    #[trigger] p.deps@[j],
                    i.ws.pkgs@[v.pkg as int].targets@[v.target as int],
                    u.deps@[d].extern_name.unwrap()@,
                ) && (if t.kind == TargetKind::BuildScript {
                    p.deps@[j].kind == DepKind::Build && v.kind == CompileKind::Host && v.for_host && v.mode == Mode::Build
                } else {
                    &&& is_turned_on(i, u.pkg, j, u.for_host, platform_for(i, u.kind))
                    &&& p.deps@[j].kind == DepKind::Normal || (p.deps@[j].kind == DepKind::Dev && takes_dev(u, t))
                    &&& is_library_for(i, v, v.pkg, u.kind, u.for_host, u.mode)
                })
        }),
{
    let u = g.units@[k];
    let id = ids[k];
    assert(is_unit(i, u, id));
    let pkg = u.pkg as int;
    let p = i.pkgs()[pkg];
    let t = p.targets@[u.target as int];
    let doc_deps = i.command == (Command::Doc { deps: true });
    let w = i.wants(doc_deps, id);
    assert(meets_wants(u.deps@, ids, w));
    let v = g.units@[u.deps@[d].unit as int];
    assert(u.deps@[d].unit < ids.len());
    assert(is_unit(i, v, ids[u.deps@[d].unit as int]));
    let n = p.deps@.len() as int;
    if u.mode == Mode::RunCustomBuild {
        if d > 0 {
            lemma_runs_have_no_name(i, pkg, id.kind, id.for_host, n, d - 1);
        }
    } else if t.kind == TargetKind::BuildScript {
        lemma_script_libs(i, pkg, id.feature_side_host, n, d);
        let j = choose|j: int|
            0 <= j < n && (#[trigger] i.pkgs()[pkg].deps@[j]).kind == DepKind::Build && ({
                let x = i.script_libs(pkg, id.feature_side_host, n)[d];
                &&& i.pkgs()[pkg].dep_targets@[j] == Some(x.0.pkg)
                &&& x.0.kind == CompileKind::Host && x.0.for_host && x.0.mode == Mode::Build
                &&& x.1.is_some()
                &&& is_link_name(i.pkgs()[pkg].deps@[j], i.pkgs()[x.0.pkg as int].targets@[x.0.target as int], x.1.unwrap())
            });
        assert(is_link_name(p.deps@[j], i.ws.pkgs@[v.pkg as int].targets@[v.target as int], u.deps@[d].extern_name.unwrap()@));
    } else {
        lemma_named_want(i, doc_deps, id, d);
        let c = u.deps@[d].extern_name.unwrap()@;
        assert(w[d].1 == Some(c));
        assert(takes_dev(u, t) == (id.mode.tests() || t.kind == TargetKind::Example || t.kind == TargetKind::Test || t.kind
            == TargetKind::Bench));
        let normal = i.libs(pkg, id.kind, id.for_host, DepKind::Normal, id.mode);
        let devs = i.libs(pkg, id.kind, id.for_host, DepKind::Dev, id.mode);
        if exists|q: int| 0 <= q < normal.len() && #[trigger] normal[q] == w[d] {
            let q = choose|q: int| 0 <= q < normal.len() && #[trigger] normal[q] == w[d];
            lemma_linked(i, u.pkg, u.kind, u.for_host, DepKind::Normal, u.mode, q, v, c);
        } else if exists|q: int| 0 <= q < devs.len() && #[trigger] devs[q] == w[d] {
            if takes_dev(u, t) {
                let q = choose|q: int| 0 <= q < devs.len() && #[trigger] devs[q] == w[d];
                lemma_linked(i, u.pkg, u.kind, u.for_host, DepKind::Dev, u.mode, q, v, c);
            }
        }
    }
}

/// What a target links by a name: the libraries of its dependencies, and its own.
proof fn lemma_named_want(i: GraphInputs, doc_deps: bool, id: Identity, d: int)
    requires
        0 <= d < i.target_wants(doc_deps, id).len(),
        i.target_wants(doc_deps, id)[d].1.is_some(),
    ensures
        ({
            let w = i.target_wants(doc_deps, id);
            let p = i.pkgs()[id.pkg as int];
            let t = p.targets@[id.target as int];
            let normal = i.libs(id.pkg as int, id.kind, id.for_host, DepKind::Normal, id.mode);
            let devs = i.libs(id.pkg as int, id.kind, id.for_host, DepKind::Dev, id.mode);
            ||| exists|q: int| 0 <= q < normal.len() && #[trigger] normal[q] == w[d]
            ||| (id.mode.tests() || t.kind == TargetKind::Example || t.kind == TargetKind::Test || t.kind == TargetKind::Bench) && exists|
                q: int,
            | 0 <= q < devs.len() && #[trigger] devs[q] == w[d]
            ||| t.kind != TargetKind::Lib && w[d].0.pkg == id.pkg && w[d].0.target < p.targets@.len() && p.targets@[w[d].0.target as int].kind
                == TargetKind::Lib
        }),
{
    let pkg = id.pkg as int;
    let p = i.pkgs()[pkg];
    let t = p.targets@[id.target as int];
    let w = i.target_wants(doc_deps, id);
    let dev = id.mode.tests() || t.kind == TargetKind::Example || t.kind == TargetKind::Test || t.kind == TargetKind::Bench;
    let normal = i.libs(pkg, id.kind, id.for_host, DepKind::Normal, id.mode);
    let all_devs = i.libs(pkg, id.kind, id.for_host, DepKind::Dev, id.mode);
    let devs = if dev {
        all_devs
    } else {
        Seq::empty()
    };
    let libs = normal + devs;
    let docs = if id.mode == Mode::Doc && doc_deps {
        i.docs_upto(libs, libs.len() as int)
    } else {
        Seq::empty()
    };
    let run = if p.script_at().is_some() {
        seq![(i.run_id(pkg, id.kind, id.for_host), None::<Seq<char>>)]
    } else {
        Seq::empty()
    };
    let own = if t.kind != TargetKind::Lib && p.lib_at().is_some() {
        i.own_lib(pkg, p.lib_at().unwrap(), id.kind, id.for_host, id.mode)
    } else {
        Seq::empty()
    };
    let a = libs.len() as int;
    let b = a + docs.len();
    let c = b + run.len();
    let e = c + own.len();
    if d < normal.len() {
        assert(normal[d] == w[d]);
    } else if d < a {
        assert(devs[d - normal.len()] == w[d]);
        assert(all_devs[d - normal.len()] == w[d]);
    } else if d < b {
        assert(w[d] == docs[d - a]);
        lemma_docs_have_no_name(i, libs, libs.len() as int, d - a);
    } else if d < c {
        assert(w[d] == run[d - b]);
    } else if d < e {
        assert(w[d] == own[d - c]);
        lemma_first_of(p.targets@, TargetKind::Lib, 0);
        assert(p.targets.len() == p.targets@.len());
    } else {
        let bins = i.bins_upto(pkg, id.kind, id.for_host, p.targets@.len() as int);
        assert(w[d] == bins[d - e]);
        lemma_bins_have_no_name(i, pkg, id.kind, id.for_host, p.targets@.len() as int, d - e);
    }
}

proof fn lemma_linked(i: GraphInputs, pkg: usize, kind: CompileKind, for_host: bool, dk: DepKind, mode: Mode, q: int, v: Unit, c: Seq<char>)
    requires
        0 <= q < i.libs(pkg as int, kind, for_host, dk, mode).len(),
        is_unit(i, v, i.libs(pkg as int, kind, for_host, dk, mode)[q].0),
        i.libs(pkg as int, kind, for_host, dk, mode)[q].1 == Some(c),
    ensures
        exists|j: int|
            0 <= j < i.ws.pkgs@[pkg as int].deps@.len() && i.ws.pkgs@[pkg as int].dep_targets@[j] == Some(v.pkg) && is_link_name(
                #[trigger] i.ws.pkgs@[pkg as int].deps@[j],
                i.ws.pkgs@[v.pkg as int].targets@[v.target as int],
                c,
            ) && is_turned_on(i, pkg, j, for_host, platform_for(i, kind)) && i.ws.pkgs@[pkg as int].deps@[j].kind == dk && is_library_for(
                i,
                v,
                v.pkg,
                kind,
                for_host,
                mode,
            ),
{
    let n = i.pkgs()[pkg as int].deps@.len() as int;
    lemma_libs_only(i, pkg, kind, for_host, dk, mode, n, q);
    let j = choose|j: int|
        0 <= j < n && #[trigger] i.dep_on(pkg as int, j, kind, for_host, dk) && ({
            let t = i.pkgs()[pkg as int].dep_targets@[j].unwrap() as int;
            &&& i.pkgs()[t].lib_at().is_some()
            &&& i.libs_upto(pkg as int, kind, for_host, dk, mode, n)[q] == (
                i.lib_id(t, kind, for_host, mode).unwrap(),
                Some(i.link_name(i.pkgs()[pkg as int].deps@[j], t)),
            )
        });
    lemma_on(i, pkg, j, kind, for_host, dk);
    let t = i.pkgs()[pkg as int].dep_targets@[j].unwrap();
    lemma_first_of(i.pkgs()[t as int].targets@, TargetKind::Lib, 0);
    assert(i.pkgs()[t as int].targets.len() == i.pkgs()[t as int].targets@.len());
    assert(is_lib(i.ws.pkgs@[t as int], v.target as int));
    assert(is_link_name(i.ws.pkgs@[pkg as int].deps@[j], i.ws.pkgs@[v.pkg as int].targets@[v.target as int], c));
}

proof fn lemma_runs_have_no_name(i: GraphInputs, pkg: int, kind: CompileKind, for_host: bool, n: int, q: int)
    requires
        0 <= q < i.linked_runs(pkg, kind, for_host, n).len(),
    ensures
        i.linked_runs(pkg, kind, for_host, n)[q].1.is_none(),
    decreases n,
{
    if n > 0 {
        let rest = i.linked_runs(pkg, kind, for_host, n - 1);
        if q < rest.len() {
            lemma_runs_have_no_name(i, pkg, kind, for_host, n - 1, q);
        }
    }
}

proof fn lemma_docs_have_no_name(i: GraphInputs, of: Wants, n: int, q: int)
    requires
        0 <= q < i.docs_upto(of, n).len(),
    ensures
        i.docs_upto(of, n)[q].1.is_none(),
    decreases n,
{
    if n > 0 {
        let rest = i.docs_upto(of, n - 1);
        if q < rest.len() {
            lemma_docs_have_no_name(i, of, n - 1, q);
        }
    }
}

proof fn lemma_bins_have_no_name(i: GraphInputs, pkg: int, kind: CompileKind, for_host: bool, n: int, q: int)
    requires
        0 <= q < i.bins_upto(pkg, kind, for_host, n).len(),
    ensures
        i.bins_upto(pkg, kind, for_host, n)[q].1.is_none(),
    decreases n,
{
    if n > 0 {
        let rest = i.bins_upto(pkg, kind, for_host, n - 1);
        if q < rest.len() {
            lemma_bins_have_no_name(i, pkg, kind, for_host, n - 1, q);
        }
    }
}

proof fn lemma_script_libs(i: GraphInputs, pkg: int, side: bool, n: int, q: int)
    requires
        0 <= n <= i.pkgs()[pkg].deps@.len(),
        0 <= q < i.script_libs(pkg, side, n).len(),
    ensures
        exists|j: int|
            0 <= j < n && (#[trigger] i.pkgs()[pkg].deps@[j]).kind == DepKind::Build && ({
                let x = i.script_libs(pkg, side, n)[q];
                &&& i.pkgs()[pkg].dep_targets@[j] == Some(x.0.pkg)
                &&& x.0.kind == CompileKind::Host && x.0.for_host && x.0.mode == Mode::Build
                &&& x.1.is_some()
                &&& is_link_name(i.pkgs()[pkg].deps@[j], i.pkgs()[x.0.pkg as int].targets@[x.0.target as int], x.1.unwrap())
            }),
    decreases n,
{
    if n > 0 {
        let rest = i.script_libs(pkg, side, n - 1);
        if q < rest.len() {
            lemma_script_libs(i, pkg, side, n - 1, q);
            let j = choose|j: int|
                0 <= j < n - 1 && (#[trigger] i.pkgs()[pkg].deps@[j]).kind == DepKind::Build && ({
                    let x = rest[q];
                    &&& i.pkgs()[pkg].dep_targets@[j] == Some(x.0.pkg)
                    &&& x.0.kind == CompileKind::Host && x.0.for_host && x.0.mode == Mode::Build
                    &&& x.1.is_some()
                    &&& is_link_name(i.pkgs()[pkg].deps@[j], i.pkgs()[x.0.pkg as int].targets@[x.0.target as int], x.1.unwrap())
                });
            assert(i.script_libs(pkg, side, n)[q] == rest[q]);
            assert(i.pkgs()[pkg].deps@[j].kind == DepKind::Build);
        } else {
            let t = i.pkgs()[pkg].dep_targets@[n - 1].unwrap();
            lemma_first_of(i.pkgs()[t as int].targets@, TargetKind::Lib, 0);
            assert(i.pkgs()[t as int].targets.len() == i.pkgs()[t as int].targets@.len());
            assert(i.pkgs()[pkg].deps@[n - 1].kind == DepKind::Build);
        }
    }
}

// ---------------------------------------------------------------------------
// What a command starts from.

/// The platforms that are asked for: the host where none is named.
pub open spec fn is_asked(i: GraphInputs, kind: CompileKind) -> bool {
    if i.no_target {
        kind == CompileKind::Host
    } else {
        kind matches CompileKind::Target(t) && t < i.target_platforms@.len()
    }
}

/// A feature that a target requires is on: the feature itself, or the dependency that it is about.
pub open spec fn is_met(i: GraphInputs, pkg: usize, for_host: bool, f: Seq<char>) -> bool {
    let base = match split_first(f, '/') {
        Some((a, _)) => a,
        None => f,
    };
    i.res.named(pkg as int, for_host).contains(base) || i.res.optional(pkg as int, for_host).contains(base)
}

/// All that a target requires is on. A library requires nothing.
pub open spec fn requirements_met(i: GraphInputs, pkg: usize, t: Target, for_host: bool) -> bool {
    t.kind == TargetKind::Lib || forall|k: int|
        0 <= k < t.required_features@.len() ==> is_met(i, pkg, for_host, (#[trigger] t.required_features@[k])@)
}

proof fn lemma_off(i: GraphInputs, pkg: usize, fs: Seq<Seq<char>>, for_host: bool, k: int)
    requires
        0 <= k <= fs.len(),
    ensures
        (i.off_upto(pkg as int, fs, for_host, k).len() == 0) == (forall|j: int| 0 <= j < k ==> is_met(i, pkg, for_host, #[trigger] fs[j])),
    decreases k,
{
    if k > 0 {
        lemma_off(i, pkg, fs, for_host, k - 1);
        if i.off_upto(pkg as int, fs, for_host, k).len() == 0 {
            assert forall|j: int| 0 <= j < k implies is_met(i, pkg, for_host, #[trigger] fs[j]) by {
                if j == k - 1 {
                    assert(is_met(i, pkg, for_host, fs[k - 1]));
                }
            }
        } else if is_met(i, pkg, for_host, fs[k - 1]) {
            let rest = i.off_upto(pkg as int, fs, for_host, k - 1);
            assert(i.off_upto(pkg as int, fs, for_host, k) == rest);
        }
    }
}

proof fn lemma_lacks(i: GraphInputs, c: Candidate)
    ensures
        (lacks_features(i, c).len() == 0) == requirements_met(
            i,
            c.id.pkg,
            i.pkgs()[c.id.pkg as int].targets@[c.id.target as int],
            c.id.for_host,
        ),
{
    let t = i.pkgs()[c.id.pkg as int].targets@[c.id.target as int];
    let fs = views(t.required_features@);
    lemma_off(i, c.id.pkg, fs, c.id.for_host, fs.len() as int);
    assert forall|k: int| 0 <= k < t.required_features@.len() implies (#[trigger] t.required_features@[k])@ == fs[k] by {}
    if t.kind != TargetKind::Lib && lacks_features(i, c).len() == 0 {
        assert forall|k: int| 0 <= k < t.required_features@.len() implies is_met(
            i,
            c.id.pkg,
            c.id.for_host,
            (#[trigger] t.required_features@[k])@,
        ) by {
            assert(is_met(i, c.id.pkg, c.id.for_host, fs[k]));
        }
    }
    if t.kind != TargetKind::Lib && requirements_met(i, c.id.pkg, t, c.id.for_host) {
        assert forall|j: int| 0 <= j < fs.len() implies is_met(i, c.id.pkg, c.id.for_host, #[trigger] fs[j]) by {
            assert(fs[j] == t.required_features@[j]@);
        }
    }
}

proof fn lemma_in_candidates_of(i: GraphInputs, pkg: int, cs: Seq<(usize, Mode, bool)>, n: int, k: int, q: int)
    requires
        0 <= k < n <= cs.len(),
        0 <= q < requested_kinds(i).len(),
    ensures
        candidates_of(i, pkg, cs, n).contains(candidate(i, pkg, cs[k], requested_kinds(i)[q])),
    decreases n,
{
    let x = candidate(i, pkg, cs[k], requested_kinds(i)[q]);
    let rest = candidates_of(i, pkg, cs, n - 1);
    let last = candidates_for(i, pkg, cs[n - 1], requested_kinds(i));
    let all = candidates_of(i, pkg, cs, n);
    if k == n - 1 {
        assert(last[q] == x);
        assert(all[rest.len() + q] == x);
    } else {
        lemma_in_candidates_of(i, pkg, cs, n - 1, k, q);
        let j = choose|j: int| 0 <= j < rest.len() && rest[j] == x;
        assert(all[j] == x);
    }
}

proof fn lemma_in_candidates(i: GraphInputs, packages: Seq<usize>, f: TargetFilter, n: int, a: int, x: Candidate)
    requires
        0 <= a < n <= packages.len(),
        ({
            let p = packages[a] as int;
            let cs = chosen(i.pkgs()[p].targets@, i.command, f, i.pkgs()[p].targets@.len() as int);
            candidates_of(i, p, cs, cs.len() as int).contains(x)
        }),
    ensures
        candidates(i, packages, f, n).contains(x),
    decreases n,
{
    let p = packages[n - 1] as int;
    let cs = chosen(i.pkgs()[p].targets@, i.command, f, i.pkgs()[p].targets@.len() as int);
    let rest = candidates(i, packages, f, n - 1);
    let last = candidates_of(i, p, cs, cs.len() as int);
    let all = candidates(i, packages, f, n);
    if a == n - 1 {
        let j = choose|j: int| 0 <= j < last.len() && last[j] == x;
        assert(all[rest.len() + j] == x);
    } else {
        lemma_in_candidates(i, packages, f, n - 1, a, x);
        let j = choose|j: int| 0 <= j < rest.len() && rest[j] == x;
        assert(all[j] == x);
    }
}

proof fn lemma_in_roots(i: GraphInputs, cs: Seq<Candidate>, n: int, k: int)
    requires
        0 <= k < n <= cs.len(),
        lacks_features(i, cs[k]).len() == 0,
    ensures
        root_ids(i, cs, n).contains(cs[k].id),
    decreases n,
{
    let rest = root_ids(i, cs, n - 1);
    let all = root_ids(i, cs, n);
    if k == n - 1 {
        if !rest.contains(cs[k].id) {
            assert(all[rest.len() as int] == cs[k].id);
        }
    } else {
        lemma_in_roots(i, cs, n - 1, k);
        let j = choose|j: int| 0 <= j < rest.len() && rest[j] == cs[k].id;
        if all.len() > rest.len() {
            assert(all[j] == rest[j]);
        }
    }
}

/// Every target that is selected of a package that is asked for is built, for every platform that is asked for, where its
/// required features are on. One that runs in the compiler is built for the host.
pub proof fn law_what_is_selected_is_built(
    i: GraphInputs,
    packages: Seq<usize>,
    f: TargetFilter,
    g: UnitGraph,
    ids: Seq<Identity>,
    a: int,
    s: int,
    kind: CompileKind,
)
    requires
        assembled(i, packages, f, g, ids),
        0 <= a < packages.len(),
        packages[a] < i.ws.pkgs@.len(),
        is_asked(i, kind),
        0 <= s < selection(i.ws.pkgs@[packages[a] as int].targets@, i.command, f).len(),
        ({
            let p = i.ws.pkgs@[packages[a] as int];
            let x = selection(p.targets@, i.command, f)[s];
            let t = p.targets@[x.0 as int];
            requirements_met(i, packages[a], t, views(t.crate_types@).contains("proc-macro"@))
        }),
    ensures
        ({
            let p = i.ws.pkgs@[packages[a] as int];
            let x = selection(p.targets@, i.command, f)[s];
            let macros = views(p.targets@[x.0 as int].crate_types@).contains("proc-macro"@);
            exists|r: int|
                0 <= r < g.roots@.len() && ({
                    let u = g.units@[(#[trigger] g.roots@[r]) as int];
                    u.pkg == packages[a] && u.target == x.0 && u.mode == x.1 && u.for_host == macros && u.kind == (if macros {
                        CompileKind::Host
                    } else {
                        kind
                    })
                })
        }),
{
    let pk = packages[a] as int;
    let p = i.ws.pkgs@[pk];
    let sel = selection(p.targets@, i.command, f);
    let kinds = requested_kinds(i);
    let q: int = match kind {
        CompileKind::Host => 0,
        CompileKind::Target(t) => t as int,
    };
    assert(kinds[q] == kind);
    let c = candidate(i, pk, sel[s], kind);
    lemma_in_candidates_of(i, pk, sel, sel.len() as int, s, q);
    lemma_in_candidates(i, packages, f, packages.len() as int, a, c);
    let cs = candidates(i, packages, f, packages.len() as int);
    let k = choose|k: int| 0 <= k < cs.len() && cs[k] == c;
    lemma_lacks(i, c);
    lemma_in_roots(i, cs, cs.len() as int, k);
    let roots = root_ids(i, cs, cs.len() as int);
    let r = choose|r: int| 0 <= r < roots.len() && roots[r] == c.id;
    assert(g.roots@[r] < ids.len() && ids[g.roots@[r] as int] == roots[r]);
    assert(is_unit(i, g.units@[g.roots@[r] as int], ids[g.roots@[r] as int]));
}

} // verus!
