//! What is run, and what waits for what.

use vstd::prelude::*;
use crate::commands::Planned;
use crate::git::Checked;
use crate::git::GitView;
use crate::git::LookedView;
use crate::git::checkout_of;
use crate::git::step_of;
use crate::manifest::DepDecl;
use crate::manifest::GitRefView;
use crate::resolve::Graph;
use crate::resolve::accepts;
use crate::run::TestRoot;
use crate::run::is_run_as_test;
use crate::run::test_order;
use crate::run::TestRootView;
use crate::run::tests_upto;
use crate::schedule::run_deps;
use crate::schedule::waits_for;
use crate::text::views;
use crate::unit::Unit;
use crate::unit::UnitDep;
use crate::workspace::Pkg;

verus! {

/// Tests and benches are run, and so is what is built of a test or a bench without the usual harness.
pub open spec fn is_run(pkgs: Seq<Pkg>, u: Unit) -> bool {
    let kind = pkgs[u.pkg as int].targets@[u.target as int].kind;
    match u.mode {
        crate::unit::Mode::Test | crate::unit::Mode::Bench => true,
        crate::unit::Mode::Build => kind == crate::manifest::TargetKind::Test || kind == crate::manifest::TargetKind::Bench,
        _ => false,
    }
}

spec fn is_test_root(pkgs: Seq<Pkg>, units: Seq<Unit>, roots: Seq<usize>, n: int, u: usize) -> bool {
    exists|r: int| 0 <= r < n && is_run(pkgs, units[#[trigger] roots[r] as int]) && roots[r] == u
}

spec fn is_listed(l: Seq<TestRootView>, u: usize) -> bool {
    exists|i: int| 0 <= i < l.len() && (#[trigger] l[i]).1.1.1.1.1 == u
}

proof fn lemma_tests(pkgs: Seq<Pkg>, units: Seq<Unit>, roots: Seq<usize>, n: int, u: usize)
    requires
        0 <= n <= roots.len(),
    ensures
        is_listed(tests_upto(pkgs, units, roots, n), u) == is_test_root(pkgs, units, roots, n, u),
    decreases n,
{
    if n > 0 {
        lemma_tests(pkgs, units, roots, n - 1, u);
        let rest = tests_upto(pkgs, units, roots, n - 1);
        let all = tests_upto(pkgs, units, roots, n);
        let last = roots[n - 1];
        assert(is_run(pkgs, units[last as int]) == is_run_as_test(pkgs, units[last as int]));
        if is_test_root(pkgs, units, roots, n, u) {
            let r = choose|r: int| 0 <= r < n && is_run(pkgs, units[#[trigger] roots[r] as int]) && roots[r] == u;
            if r < n - 1 {
                assert(is_test_root(pkgs, units, roots, n - 1, u));
                let i = choose|i: int| 0 <= i < rest.len() && (#[trigger] rest[i]).1.1.1.1.1 == u;
                assert(all[i] == rest[i]);
            } else {
                assert(all[rest.len() as int].1.1.1.1.1 == u);
            }
        }
        if is_listed(all, u) {
            let i = choose|i: int| 0 <= i < all.len() && (#[trigger] all[i]).1.1.1.1.1 == u;
            if i < rest.len() {
                assert(rest[i] == all[i]);
                assert(is_listed(rest, u));
                let r = choose|r: int| 0 <= r < n - 1 && is_run(pkgs, units[#[trigger] roots[r] as int]) && roots[r] == u;
                assert(roots[r] == u);
            } else {
                assert(last == u);
            }
        }
    }
}

/// Every root that is a test or a bench is run, and nothing else is.
pub proof fn law_tests_are_run(pkgs: Seq<Pkg>, units: Seq<Unit>, roots: Seq<usize>, u: usize)
    ensures
        test_order(pkgs, units, roots).contains(u) <==> roots.contains(u) && is_run(pkgs, units[u as int]),
{
    let n = roots.len() as int;
    let ts = tests_upto(pkgs, units, roots, n);
    let sorted = crate::sort::in_order::<TestRoot>(ts);
    let order = test_order(pkgs, units, roots);
    lemma_tests(pkgs, units, roots, n, u);
    crate::command_laws::lemma_sorted::<TestRoot>(ts);
    if roots.contains(u) && is_run(pkgs, units[u as int]) {
        let r = choose|r: int| 0 <= r < roots.len() && roots[r] == u;
        assert(is_test_root(pkgs, units, roots, n, u));
        let i = choose|i: int| 0 <= i < ts.len() && (#[trigger] ts[i]).1.1.1.1.1 == u;
        assert(ts.contains(ts[i]));
        let j = choose|j: int| 0 <= j < sorted.len() && sorted[j] == ts[i];
        assert(order[j] == u);
    }
    if order.contains(u) {
        let j = choose|j: int| 0 <= j < order.len() && order[j] == u;
        assert(sorted.contains(sorted[j]));
        let i = choose|i: int| 0 <= i < ts.len() && ts[i] == sorted[j];
        assert(ts[i].1.1.1.1.1 == u);
        let r = choose|r: int| 0 <= r < n && is_run(pkgs, units[#[trigger] roots[r] as int]) && roots[r] == u;
        assert(roots[r] == u);
    }
}

// ---------------------------------------------------------------------------
// What waits for what.

proof fn lemma_run_deps(units: Seq<Unit>, deps: Seq<UnitDep>, n: int, i: int)
    requires
        0 <= i < n <= deps.len(),
        deps[i].extern_name.is_none(),
        units[deps[i].unit as int].mode != crate::unit::Mode::RunCustomBuild,
    ensures
        run_deps(units, deps, n).contains((deps[i].unit, crate::schedule::Need::Full)),
    decreases n,
{
    let x = (deps[i].unit, crate::schedule::Need::Full);
    let all = run_deps(units, deps, n);
    let rest = run_deps(units, deps, n - 1);
    if i == n - 1 {
        assert(all[rest.len() as int] == x);
    } else {
        lemma_run_deps(units, deps, n - 1, i);
        let j = choose|j: int| 0 <= j < rest.len() && rest[j] == x;
        assert(all[j] == x);
    }
}

/// A build script runs once all that it depends on is done. Any other unit waits for each of its libraries, for what its build
/// scripts print, for its own build script, and for the programs that it runs. The metadata of a library is enough where nothing is
/// linked, unless the library runs in the compiler or writes none.
pub proof fn law_units_wait_for_what_they_use(
    pkgs: Seq<Pkg>,
    units: Seq<Unit>,
    planned: Seq<Planned>,
    u: int,
    i: int,
)
    ensures
        ({
            let l = waits_for(pkgs, units, planned, u);
            let deps = units[u].deps@;
            let p = planned[u];
            let runs = units[u].mode == crate::unit::Mode::RunCustomBuild;
            &&& runs && 0 <= i < deps.len() ==> l.contains((deps[i].unit, crate::schedule::Need::Full))
            &&& !runs && 0 <= i < p.to_link@.len() ==> l.contains((p.to_link@[i], crate::schedule::Need::Full))
            &&& !runs && p.own_run.is_some() ==> l.contains((p.own_run.unwrap(), crate::schedule::Need::Full))
            &&& !runs && 0 <= i < deps.len() && deps[i].extern_name.is_none() && units[deps[i].unit as int].mode != crate::unit::Mode::RunCustomBuild
                ==> l.contains((deps[i].unit, crate::schedule::Need::Full))
            &&& !runs && 0 <= i < p.lib_reqs@.len() ==> ({
                let d = p.lib_reqs@[i];
                let macros = views(pkgs[units[d as int].pkg as int].targets@[units[d as int].target as int].crate_types@).contains(
                    "proc-macro"@,
                );
                &&& p.needs_link || macros || !planned[d as int].emits_meta ==> l.contains((d, crate::schedule::Need::Full))
                &&& !p.needs_link && !macros && planned[d as int].emits_meta ==> l.contains((d, crate::schedule::Need::Meta))
            })
        }),
{
    let l = waits_for(pkgs, units, planned, u);
    let deps = units[u].deps@;
    let p = planned[u];
    if units[u].mode == crate::unit::Mode::RunCustomBuild {
        if 0 <= i < deps.len() {
            assert(l[i] == (deps[i].unit, crate::schedule::Need::Full));
        }
    } else {
        let a = p.lib_reqs@.len() as int;
        let b = p.to_link@.len() as int;
        let c: int = if p.own_run.is_some() {
            1
        } else {
            0
        };
        if 0 <= i < a {
            assert(l[i].0 == p.lib_reqs@[i]);
            assert(l.contains(l[i]));
        }
        if 0 <= i < b {
            assert(l[a + i] == (p.to_link@[i], crate::schedule::Need::Full));
        }
        if p.own_run.is_some() {
            assert(l[a + b] == (p.own_run.unwrap(), crate::schedule::Need::Full));
        }
        if 0 <= i < deps.len() && deps[i].extern_name.is_none() && units[deps[i].unit as int].mode != crate::unit::Mode::RunCustomBuild {
            lemma_run_deps(units, deps, deps.len() as int, i);
            let rd = run_deps(units, deps, deps.len() as int);
            let x = (deps[i].unit, crate::schedule::Need::Full);
            let j = choose|j: int| 0 <= j < rd.len() && rd[j] == x;
            assert(l[a + b + c + j] == x);
        }
    }
}

// ---------------------------------------------------------------------------
// What a dependency stands for.

/// What a dependency stands for is one of the packages that its package is linked to: one of that name, from that source, with
/// an accepted version. Where there is one, it stands for one.
pub proof fn law_dependencies_stand_for_what_they_name(g: Graph, n: int, dep: DepDecl, k: int, i: int)
    requires
        0 <= k <= g.nodes@[n].edges@.len(),
    ensures
        g.newest_edge(n, dep, k) matches Some(t) ==> (exists|j: int| 0 <= j < k && #[trigger] g.nodes@[n].edges@[j] == t) && g.nodes@[t].id.name@
            == dep.name@ && accepts(dep, g.nodes@[t].id.version@),
        0 <= i < k && g.fits(dep, g.nodes@[n].edges@[i] as int) ==> g.newest_edge(n, dep, k).is_some(),
    decreases k,
{
    if k > 0 {
        law_dependencies_stand_for_what_they_name(g, n, dep, k - 1, i);
        let t = g.nodes@[n].edges@[k - 1] as int;
        if let Some(b) = g.newest_edge(n, dep, k - 1) {
            let j = choose|j: int| 0 <= j < k - 1 && #[trigger] g.nodes@[n].edges@[j] == b;
            assert(g.nodes@[n].edges@[j] == b);
        }
        assert(g.nodes@[n].edges@[k - 1] == t);
    }
}

// ---------------------------------------------------------------------------
// Repositories.

/// A tag or a revision that is there is used as it is. A branch is fetched anew before it is used, unless there is no net.
pub proof fn law_branches_are_fetched_anew(offline: bool, url: Seq<char>, r: GitRefView, k: LookedView, c: Seq<char>)
    ensures
        ({
            let x = step_of(offline, url, r, k);
            let moves = r is Branch || r is DefaultBranch;
            &&& (!moves || offline) && k.first == Some(Some(c)) ==> x == crate::git::GitStepView::Found(c)
            &&& moves && !offline && !k.fetched ==> x is Fetch
            &&& !offline && k.fetched && moves && k.second == Some(Some(c)) ==> x == crate::git::GitStepView::Found(c)
            &&& x is Found && moves && !offline ==> k.fetched && k.second == Some(Some(x->Found_0))
            &&& offline ==> !(x is Fetch)
        }),
{
}

/// A checkout that is there is used. Else the commit has to be in the database, or was fetched, before it is unpacked.
pub proof fn law_commits_are_checked_out_once(g: GitView, url: Seq<char>, commit: Seq<char>, k: Checked)
    ensures
        ({
            let x = checkout_of(g, url, commit, k);
            &&& x is Done <==> k.marker == Some(true)
            &&& x is Clone || x is Archive ==> k.marker == Some(false) && (k.commit == Some(true) || k.fetched)
            &&& x is Clone ==> k.submodules == Some(true)
            &&& x is Archive ==> k.submodules == Some(false)
            &&& x is Offline ==> g.offline && k.commit == Some(false)
            &&& g.offline ==> !(x is Fetch)
        }),
{
}

} // verus!
