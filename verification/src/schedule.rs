//! Which units a build needs, and which of them runs next.

use vstd::prelude::*;
use crate::commands::Planned;
use crate::config::Toggle;
use crate::gc::nearest;
use crate::gc::round;
use crate::gc::spacing;
use crate::manifest::TargetKind;
use crate::plan::in_packages;
use crate::plan::target_of;
use crate::size::find_spacing;
use crate::size::lemma_spacing_bound;
use crate::unit::Mode;
use crate::unit::Unit;
use crate::unit::UnitDep;
use crate::workspace::Pkg;

verus! {

// ---------------------------------------------------------------------------
// What a build needs.

/// What is known of a unit before the build.
#[derive(Clone, Copy, Debug, PartialEq, Eq, Structural)]
pub enum Status {
    /// Its outputs are in place.
    Fresh,
    /// The store has them.
    Cached,
    Miss,
}

/// The numbers that a planned unit speaks of are those of units.
pub open spec fn numbers_fit(p: Planned, n: int) -> bool {
    &&& forall|i: int| 0 <= i < p.lib_reqs@.len() ==> #[trigger] p.lib_reqs@[i] < n
    &&& forall|i: int| 0 <= i < p.to_link@.len() ==> #[trigger] p.to_link@[i] < n
    &&& p.own_run matches Some(r) ==> r < n
}

pub open spec fn deps_fit(deps: Seq<UnitDep>, n: int) -> bool {
    forall|i: int| 0 <= i < deps.len() ==> (#[trigger] deps[i]).unit < n
}

/// Each unit is planned, and speaks of units only.
pub open spec fn all_planned(units: Seq<Unit>, planned: Seq<Planned>) -> bool {
    &&& units.len() == planned.len()
    &&& forall|u: int| 0 <= u < units.len() ==> deps_fit((#[trigger] units[u]).deps@, units.len() as int)
    &&& forall|u: int| 0 <= u < planned.len() ==> numbers_fit(#[trigger] planned[u], units.len() as int)
}

/// A unit that has to be compiled pulls another: it depends on it, or links it.
pub open spec fn pulls(units: Seq<Unit>, planned: Seq<Planned>, u: int, v: int) -> bool {
    ||| exists|i: int| 0 <= i < units[u].deps@.len() && (#[trigger] units[u].deps@[i]).unit == v
    ||| exists|i: int| 0 <= i < planned[u].lib_reqs@.len() && #[trigger] planned[u].lib_reqs@[i] == v
    ||| exists|i: int| 0 <= i < planned[u].to_link@.len() && #[trigger] planned[u].to_link@[i] == v
}

/// The set has what its misses pull. A hit doesn't pull its dependencies.
pub open spec fn keeps_pulled(units: Seq<Unit>, planned: Seq<Planned>, status: Seq<Status>, c: Set<int>) -> bool {
    forall|u: int, v: int|
        c.contains(u) && 0 <= u < units.len() && status[u] is Miss && #[trigger] pulls(units, planned, u, v) ==> c.contains(v)
}

/// The unit is needed: it is in each set that has what the build starts from and what that pulls.
pub open spec fn is_needed(units: Seq<Unit>, planned: Seq<Planned>, status: Seq<Status>, start: Seq<usize>, x: int) -> bool {
    forall|c: Set<int>|
        (forall|i: int| 0 <= i < start.len() ==> c.contains(#[trigger] start[i] as int)) && keeps_pulled(
            units,
            planned,
            status,
            c,
        ) ==> #[trigger] c.contains(x)
}

spec fn holds_start(start: Seq<usize>, c: Set<int>) -> bool {
    forall|i: int| 0 <= i < start.len() ==> c.contains(#[trigger] start[i] as int)
}

/// Everything on the stack is needed.
spec fn all_needed(units: Seq<Unit>, planned: Seq<Planned>, status: Seq<Status>, start: Seq<usize>, stack: Seq<usize>) -> bool {
    forall|i: int| 0 <= i < stack.len() ==> #[trigger] stack[i] < units.len() && is_needed(units, planned, status, start, stack[i] as int)
}

proof fn lemma_pulled(units: Seq<Unit>, planned: Seq<Planned>, status: Seq<Status>, start: Seq<usize>, u: int, v: int)
    requires
        0 <= u < units.len(),
        status[u] is Miss,
        is_needed(units, planned, status, start, u),
        pulls(units, planned, u, v),
    ensures
        is_needed(units, planned, status, start, v),
{
    assert forall|c: Set<int>|
        (forall|i: int| 0 <= i < start.len() ==> c.contains(#[trigger] start[i] as int)) && keeps_pulled(
            units,
            planned,
            status,
            c,
        ) implies #[trigger] c.contains(v) by {
        assert(c.contains(u));
    }
}

/// The places that are not marked yet.
spec fn unmarked(needed: Seq<bool>) -> Set<int> {
    vstd::set_lib::set_int_range(0, needed.len() as int).filter(|i: int| !needed[i])
}

proof fn lemma_unmarked(needed: Seq<bool>, u: int)
    requires
        0 <= u < needed.len(),
        !needed[u],
    ensures
        unmarked(needed.update(u, true)).len() < unmarked(needed).len(),
{
    let all = vstd::set_lib::set_int_range(0, needed.len() as int);
    vstd::set_lib::lemma_int_range(0, needed.len() as int);
    let a = unmarked(needed);
    let b = unmarked(needed.update(u, true));
    vstd::set_lib::lemma_len_subset(a, all);
    assert(a.contains(u));
    assert(b =~= a.remove(u));
}

/// What has to be on disk once the build is done: what it starts from, and what its misses pull.
pub fn needed_units(units: &Vec<Unit>, planned: &Vec<Planned>, status: &Vec<Status>, start: &Vec<usize>) -> (r: Vec<bool>)
    requires
        all_planned(units@, planned@),
        status@.len() == units@.len(),
        forall|i: int| 0 <= i < start@.len() ==> #[trigger] start@[i] < units@.len(),
    ensures
        r@.len() == units@.len(),
        forall|x: int| 0 <= x < units@.len() ==> #[trigger] r@[x] == is_needed(units@, planned@, status@, start@, x),
{
    let ghost (us, ps, ss, st) = (units@, planned@, status@, start@);
    let n: usize = units.len();
    let mut needed: Vec<bool> = Vec::new();
    while needed.len() < n
        invariant
            needed@.len() <= n,
            forall|i: int| 0 <= i < needed@.len() ==> !#[trigger] needed@[i],
        decreases n - needed@.len(),
    {
        needed.push(false);
    }
    let mut stack: Vec<usize> = Vec::new();
    let mut k: usize = 0;
    while k < start.len()
        invariant
            k <= start@.len(),
            stack@ == start@.take(k as int),
        decreases start@.len() - k,
    {
        stack.push(start[k]);
        k += 1;
        assert(stack@ =~= start@.take(k as int));
    }
    assert(stack@ =~= st);
    proof {
        assert forall|i: int| 0 <= i < stack@.len() implies #[trigger] stack@[i] < us.len() && is_needed(us, ps, ss, st, stack@[i] as int) by {
            assert(st[i] == stack@[i]);
        }
    }
    while stack.len() > 0
        invariant
            n == units@.len(),
            us == units@,
            ps == planned@,
            ss == status@,
            st == start@,
            all_planned(us, ps),
            ss.len() == us.len(),
            needed@.len() == n,
            all_needed(us, ps, ss, st, stack@),
            forall|x: int| 0 <= x < n && #[trigger] needed@[x] ==> is_needed(us, ps, ss, st, x),
            forall|i: int| 0 <= i < st.len() ==> needed@[#[trigger] st[i] as int] || stack@.contains(st[i]),
            forall|i: int| 0 <= i < st.len() ==> #[trigger] st[i] < n,
            forall|u: int, v: int|
                0 <= u < n && needed@[u] && ss[u] is Miss && #[trigger] pulls(us, ps, u, v) ==> 0 <= v < n && (needed@[v] || stack@.contains(
                    v as usize,
                )),
        decreases unmarked(needed@).len(), stack@.len(),
    {
        let ghost s0 = stack@;
        let u: usize = match stack.pop() {
            Some(u) => u,
            None => 0,
        };
        assert(u == s0.last() && stack@ == s0.drop_last());
        assert(s0[s0.len() - 1] < us.len());
        assert(is_needed(us, ps, ss, st, u as int));
        assert forall|x: usize| s0.contains(x) && x != u implies stack@.contains(x) by {
            let i = choose|i: int| 0 <= i < s0.len() && s0[i] == x;
            assert(stack@[i] == x);
        }
        assert forall|i: int| 0 <= i < stack@.len() implies #[trigger] stack@[i] < us.len() && is_needed(us, ps, ss, st, stack@[i] as int) by {
            assert(s0[i] == stack@[i]);
        }
        if !needed[u] {
            let ghost was = needed@;
            needed.set(u, true);
            proof {
                lemma_unmarked(was, u as int);
            }
            if status[u] == Status::Miss {
                let ghost rest = stack@;
                add_pulled(&mut stack, &units[u].deps, &planned[u]);
                proof {
                    let added = pulled_list(us[u as int].deps@, ps[u as int]);
                    assert(stack@ == rest + added);
                    lemma_pulled_list(us, ps, u as int);
                    assert forall|i: int| 0 <= i < stack@.len() implies #[trigger] stack@[i] < us.len() && is_needed(us, ps, ss, st, stack@[i] as int) by {
                        if i < rest.len() {
                            assert(rest[i] == stack@[i]);
                        } else {
                            assert(added[i - rest.len()] == stack@[i]);
                            assert(added.contains(stack@[i]));
                            lemma_pulled(us, ps, ss, st, u as int, stack@[i] as int);
                        }
                    }
                    assert forall|x: usize| rest.contains(x) || added.contains(x) implies stack@.contains(x) by {
                        crate::finite::lemma_concat(rest, added, x);
                    }
                    assert forall|a: int, v: int|
                        0 <= a < n && needed@[a] && ss[a] is Miss && #[trigger] pulls(us, ps, a, v) implies 0 <= v < n && (needed@[v] || stack@.contains(v as usize)) by {
                        if a == u {
                            assert(added.contains(v as usize));
                        } else {
                            assert(was[a]);
                            if v != u && !was[v] {
                                assert(s0.contains(v as usize));
                                assert(rest.contains(v as usize));
                            }
                        }
                    }
                    assert forall|i: int| 0 <= i < st.len() implies needed@[#[trigger] st[i] as int] || stack@.contains(st[i]) by {
                        if st[i] != u && !was[st[i] as int] {
                            assert(rest.contains(st[i]));
                        }
                    }
                }
            }
        }
    }
    proof {
        let c = Set::new(|x: int| 0 <= x < n && needed@[x]);
        assert(holds_start(st, c)) by {
            assert forall|i: int| 0 <= i < st.len() implies c.contains(#[trigger] st[i] as int) by {
                assert(needed@[st[i] as int] || stack@.contains(st[i]));
            }
        }
        assert(keeps_pulled(us, ps, ss, c)) by {
            assert forall|u: int, v: int|
                c.contains(u) && 0 <= u < us.len() && ss[u] is Miss && #[trigger] pulls(us, ps, u, v) implies c.contains(v) by {
                assert(needed@[v] || stack@.contains(v as usize));
            }
        }
        assert forall|x: int| 0 <= x < us.len() implies #[trigger] needed@[x] == is_needed(us, ps, ss, st, x) by {
            if is_needed(us, ps, ss, st, x) {
                assert(forall|i: int| 0 <= i < st.len() ==> c.contains(#[trigger] st[i] as int));
                assert(c.contains(x));
            }
        }
    }
    needed
}

spec fn dep_units(deps: Seq<UnitDep>) -> Seq<usize> {
    Seq::new(deps.len(), |i: int| deps[i].unit)
}

spec fn pulled_list(deps: Seq<UnitDep>, p: Planned) -> Seq<usize> {
    dep_units(deps) + p.lib_reqs@ + p.to_link@
}

proof fn lemma_pulled_list(units: Seq<Unit>, planned: Seq<Planned>, u: int)
    requires
        0 <= u < units.len(),
        all_planned(units, planned),
    ensures
        forall|v: int|
            0 <= v <= usize::MAX ==> (#[trigger] pulls(units, planned, u, v) == pulled_list(units[u].deps@, planned[u]).contains(
                v as usize,
            )),
        forall|v: int| #[trigger] pulls(units, planned, u, v) ==> 0 <= v < units.len(),
        forall|x: usize| #[trigger] pulled_list(units[u].deps@, planned[u]).contains(x) ==> x < units.len() && pulls(units, planned, u, x as int),
{
    let deps = units[u].deps@;
    let a = dep_units(deps);
    let b = planned[u].lib_reqs@;
    let c = planned[u].to_link@;
    assert(deps_fit(deps, units.len() as int));
    assert(numbers_fit(planned[u], units.len() as int));
    assert forall|v: int| #[trigger] pulls(units, planned, u, v) implies 0 <= v < units.len() by {}
    assert forall|v: int| 0 <= v <= usize::MAX implies (#[trigger] pulls(units, planned, u, v) == pulled_list(deps, planned[u]).contains(v as usize)) by {
        let x = v as usize;
        crate::finite::lemma_concat(a + b, c, x);
        crate::finite::lemma_concat(a, b, x);
        if exists|i: int| 0 <= i < deps.len() && (#[trigger] deps[i]).unit == v {
            let i = choose|i: int| 0 <= i < deps.len() && (#[trigger] deps[i]).unit == v;
            assert(a[i] == x);
        }
        if exists|i: int| 0 <= i < b.len() && #[trigger] b[i] == v {
            let i = choose|i: int| 0 <= i < b.len() && #[trigger] b[i] == v;
            assert(b[i] == x);
        }
        if exists|i: int| 0 <= i < c.len() && #[trigger] c[i] == v {
            let i = choose|i: int| 0 <= i < c.len() && #[trigger] c[i] == v;
            assert(c[i] == x);
        }
        if a.contains(x) {
            let i = choose|i: int| 0 <= i < a.len() && a[i] == x;
            assert(deps[i].unit == v);
        }
        if b.contains(x) {
            let i = choose|i: int| 0 <= i < b.len() && b[i] == x;
            assert(planned[u].lib_reqs@[i] == v);
        }
        if c.contains(x) {
            let i = choose|i: int| 0 <= i < c.len() && c[i] == x;
            assert(planned[u].to_link@[i] == v);
        }
    }
    assert forall|x: usize| #[trigger] pulled_list(deps, planned[u]).contains(x) implies x < units.len() && pulls(units, planned, u, x as int) by {
        assert(pulls(units, planned, u, x as int));
    }
}

fn add_pulled(stack: &mut Vec<usize>, deps: &Vec<UnitDep>, p: &Planned)
    ensures
        final(stack)@ == old(stack)@ + pulled_list(deps@, *p),
{
    let ghost s = stack@;
    let mut k: usize = 0;
    while k < deps.len()
        invariant
            k <= deps@.len(),
            stack@ =~= s + dep_units(deps@).take(k as int),
        decreases deps@.len() - k,
    {
        stack.push(deps[k].unit);
        k += 1;
    }
    let ghost a = stack@;
    let mut k: usize = 0;
    while k < p.lib_reqs.len()
        invariant
            k <= p.lib_reqs@.len(),
            stack@ =~= a + p.lib_reqs@.take(k as int),
        decreases p.lib_reqs@.len() - k,
    {
        stack.push(p.lib_reqs[k]);
        k += 1;
    }
    let ghost b = stack@;
    let mut k: usize = 0;
    while k < p.to_link.len()
        invariant
            k <= p.to_link@.len(),
            stack@ =~= b + p.to_link@.take(k as int),
        decreases p.to_link@.len() - k,
    {
        stack.push(p.to_link[k]);
        k += 1;
    }
    assert(stack@ =~= s + pulled_list(deps@, *p));
}

// ---------------------------------------------------------------------------
// What a unit waits for.

/// How far a unit must be for another to start.
#[derive(Clone, Copy, Debug, PartialEq, Eq, Structural)]
pub enum Need {
    /// Its metadata is written.
    Meta,
    /// It is compiled.
    Full,
}

pub type Req = (usize, Need);

/// Metadata is enough to compile against, but not to link.
pub open spec fn lib_need(pkgs: Seq<Pkg>, units: Seq<Unit>, planned: Seq<Planned>, u: int, l: int) -> Need {
    if !planned[u].needs_link && !target_of(pkgs, units[l]).proc_macro() && planned[l].emits_meta {
        Need::Meta
    } else {
        Need::Full
    }
}

pub open spec fn all_full(l: Seq<usize>) -> Seq<Req> {
    Seq::new(l.len(), |i: int| (l[i], Need::Full))
}

/// The first `n` dependencies that nothing links: binaries that a test runs.
pub open spec fn run_deps(units: Seq<Unit>, deps: Seq<UnitDep>, n: int) -> Seq<Req>
    decreases n,
{
    if n <= 0 || n > deps.len() {
        Seq::empty()
    } else if deps[n - 1].extern_name.is_none() && units[deps[n - 1].unit as int].mode != Mode::RunCustomBuild {
        run_deps(units, deps, n - 1).push((deps[n - 1].unit, Need::Full))
    } else {
        run_deps(units, deps, n - 1)
    }
}

/// All that a unit waits for; a unit may be there more than once.
pub open spec fn waits_for(pkgs: Seq<Pkg>, units: Seq<Unit>, planned: Seq<Planned>, u: int) -> Seq<Req> {
    let deps = units[u].deps@;
    let p = planned[u];
    if units[u].mode == Mode::RunCustomBuild {
        Seq::new(deps.len(), |i: int| (deps[i].unit, Need::Full))
    } else {
        Seq::new(p.lib_reqs@.len(), |i: int| (p.lib_reqs@[i], lib_need(pkgs, units, planned, u, p.lib_reqs@[i] as int)))
            + all_full(p.to_link@) + (match p.own_run {
            Some(r) => seq![(r, Need::Full)],
            None => Seq::empty(),
        }) + run_deps(units, deps, deps.len() as int)
    }
}

/// What is needed of a unit that is waited for: the least that is asked of it.
pub open spec fn need_of(l: Seq<Req>, d: usize) -> Option<Need> {
    if l.contains((d, Need::Meta)) {
        Some(Need::Meta)
    } else if l.contains((d, Need::Full)) {
        Some(Need::Full)
    } else {
        None
    }
}

/// Of the units below `n`, those that are compiled in this build and waited for.
pub open spec fn reqs_upto(l: Seq<Req>, missing: Seq<bool>, u: usize, n: int) -> Seq<Req>
    decreases n,
{
    if n <= 0 || n > missing.len() {
        Seq::empty()
    } else {
        let d = (n - 1) as usize;
        match need_of(l, d) {
            Some(need) => if missing[n - 1] && d != u {
                reqs_upto(l, missing, u, n - 1).push((d, need))
            } else {
                reqs_upto(l, missing, u, n - 1)
            },
            None => reqs_upto(l, missing, u, n - 1),
        }
    }
}

fn find_need(l: &Vec<Req>, d: usize) -> (r: Option<Need>)
    ensures
        r == need_of(l@, d),
{
    let mut full: bool = false;
    let mut k: usize = 0;
    while k < l.len()
        invariant
            k <= l@.len(),
            forall|i: int| 0 <= i < k ==> #[trigger] l@[i] != (d, Need::Meta),
            full ==> l@.contains((d, Need::Full)),
            !full ==> forall|i: int| 0 <= i < k ==> #[trigger] l@[i] != (d, Need::Full),
        decreases l@.len() - k,
    {
        let (e, need) = l[k];
        assert(l@[k as int] == (e, need));
        if e == d {
            match need {
                Need::Meta => {
                    assert(l@.contains((d, Need::Meta)));
                    return Some(Need::Meta);
                },
                Need::Full => {
                    full = true;
                },
            }
        }
        k += 1;
    }
    if full {
        Some(Need::Full)
    } else {
        None
    }
}

fn list_waits(pkgs: &Vec<Pkg>, units: &Vec<Unit>, planned: &Vec<Planned>, u: usize) -> (r: Vec<Req>)
    requires
        u < units@.len(),
        in_packages(pkgs@, units@),
        all_planned(units@, planned@),
    ensures
        r@ == waits_for(pkgs@, units@, planned@, u as int),
{
    let deps = &units[u].deps;
    let p = &planned[u];
    assert(deps_fit(units@[u as int].deps@, units@.len() as int));
    assert(numbers_fit(planned@[u as int], units@.len() as int));
    let mut out: Vec<Req> = Vec::new();
    if units[u].mode == Mode::RunCustomBuild {
        let mut k: usize = 0;
        while k < deps.len()
            invariant
                k <= deps@.len(),
                out@ =~= Seq::new(k as nat, |i: int| (deps@[i].unit, Need::Full)),
            decreases deps@.len() - k,
        {
            out.push((deps[k].unit, Need::Full));
            k += 1;
        }
        return out;
    }
    let mut k: usize = 0;
    while k < p.lib_reqs.len()
        invariant
            u < units@.len(),
            *p == planned@[u as int],
            in_packages(pkgs@, units@),
            units@.len() == planned@.len(),
            numbers_fit(*p, units@.len() as int),
            k <= p.lib_reqs@.len(),
            out@ =~= Seq::new(
                k as nat,
                |i: int| (p.lib_reqs@[i], lib_need(pkgs@, units@, planned@, u as int, p.lib_reqs@[i] as int)),
            ),
        decreases p.lib_reqs@.len() - k,
    {
        let l: usize = p.lib_reqs[k];
        assert(p.lib_reqs@[k as int] < units@.len());
        let t = &pkgs[units[l].pkg].targets[units[l].target];
        let need = if !p.needs_link && !t.is_proc_macro() && planned[l].emits_meta {
            Need::Meta
        } else {
            Need::Full
        };
        out.push((l, need));
        k += 1;
    }
    let ghost a = out@;
    let mut k: usize = 0;
    while k < p.to_link.len()
        invariant
            k <= p.to_link@.len(),
            out@ =~= a + all_full(p.to_link@).take(k as int),
        decreases p.to_link@.len() - k,
    {
        out.push((p.to_link[k], Need::Full));
        k += 1;
    }
    assert(all_full(p.to_link@).take(k as int) =~= all_full(p.to_link@));
    let ghost b = out@;
    if let Some(r) = p.own_run {
        out.push((r, Need::Full));
        assert(out@ =~= b + seq![(r, Need::Full)]);
    } else {
        assert(out@ =~= b + Seq::<Req>::empty());
    }
    let ghost c = out@;
    let mut k: usize = 0;
    assert(c + run_deps(units@, deps@, 0) =~= c);
    while k < deps.len()
        invariant
            k <= deps@.len(),
            deps_fit(deps@, units@.len() as int),
            out@ == c + run_deps(units@, deps@, k as int),
        decreases deps@.len() - k,
    {
        assert(deps@[k as int].unit < units@.len());
        if deps[k].extern_name.is_none() && units[deps[k].unit].mode != Mode::RunCustomBuild {
            out.push((deps[k].unit, Need::Full));
        }
        k += 1;
        assert(out@ =~= c + run_deps(units@, deps@, k as int));
    }
    out
}

/// What a unit waits for, of those that are compiled in this build.
pub open spec fn reqs_of(pkgs: Seq<Pkg>, units: Seq<Unit>, planned: Seq<Planned>, missing: Seq<bool>, u: int) -> Seq<Req> {
    reqs_upto(waits_for(pkgs, units, planned, u), missing, u as usize, missing.len() as int)
}

/// What a unit waits for, of those that are compiled in this build.
pub fn requirements(pkgs: &Vec<Pkg>, units: &Vec<Unit>, planned: &Vec<Planned>, missing: &Vec<bool>, u: usize) -> (r: Vec<Req>)
    requires
        u < units@.len(),
        missing@.len() == units@.len(),
        in_packages(pkgs@, units@),
        all_planned(units@, planned@),
    ensures
        r@ == reqs_of(pkgs@, units@, planned@, missing@, u as int),
{
    let l = list_waits(pkgs, units, planned, u);
    let mut out: Vec<Req> = Vec::new();
    let mut k: usize = 0;
    while k < missing.len()
        invariant
            k <= missing@.len(),
            out@ == reqs_upto(l@, missing@, u, k as int),
        decreases missing@.len() - k,
    {
        if missing[k] && k != u {
            if let Some(need) = find_need(&l, k) {
                out.push((k, need));
            }
        }
        k += 1;
    }
    out
}

// ---------------------------------------------------------------------------
// How long it takes.

/// The number that a 64-bit float holds for `n`.
pub open spec fn as_float(n: nat) -> nat {
    nearest(n, spacing(n, 1))
}

/// How many milliseconds a unit takes: what it took before, or a guess from the size of its sources.
pub open spec fn estimated(u: Unit, kind: TargetKind, before: Option<u64>, bytes: u64) -> nat {
    match before {
        Some(ms) => ms as nat,
        None => if u.mode == Mode::RunCustomBuild {
            400
        } else if kind == TargetKind::BuildScript {
            500
        } else {
            let base = as_float((200 + bytes / 150) as nat);
            if u.mode.checks() {
                base / 2
            } else if u.profile.opt_level@ == "0"@ {
                base
            } else {
                base * 2
            }
        },
    }
}

/// How many milliseconds a unit takes. About 150 source bytes per millisecond at opt-level 0, one core: a guess,
/// not a measurement.
pub fn estimate(u: &Unit, kind: TargetKind, before: Option<u64>, bytes: u64) -> (r: u64)
    ensures
        r == estimated(*u, kind, before, bytes),
{
    if let Some(ms) = before {
        return ms;
    }
    if u.mode == Mode::RunCustomBuild {
        return 400;
    }
    if kind == TargetKind::BuildScript {
        return 500;
    }
    let whole: u128 = (200 + bytes / 150) as u128;
    let step: u128 = find_spacing(whole);
    proof {
        lemma_spacing_bound(whole as nat, 1);
    }
    let base: u128 = round(whole, step);
    assert(base <= whole + step) by {
        let n = whole as nat;
        let p = step as nat;
        assert((n / p) * p <= n && (n / p + 1) * p <= n + p) by (nonlinear_arith)
            requires
                p > 0,
        ;
    }
    let base: u64 = base as u64;
    if u.mode.is_check() {
        base / 2
    } else if crate::text::same(u.profile.opt_level.as_str(), "0") {
        base
    } else {
        base * 2
    }
}

/// A unit waits for another.
pub open spec fn waits_on(reqs: Seq<Vec<Req>>, v: int, u: int) -> bool {
    exists|i: int| 0 <= i < reqs[v]@.len() && (#[trigger] reqs[v]@[i]).0 == u
}

/// The longest chain after a unit, over the first `n` units of the order.
pub open spec fn tail_upto(order: Seq<usize>, reqs: Seq<Vec<Req>>, prio: Seq<u64>, u: int, n: int) -> nat
    decreases n,
{
    if n <= 0 || n > order.len() {
        0
    } else {
        let t = tail_upto(order, reqs, prio, u, n - 1);
        let v = order[n - 1] as int;
        if waits_on(reqs, v, u) && prio[v] > t {
            prio[v] as nat
        } else {
            t
        }
    }
}

/// The sum of the estimates from `k` on.
pub open spec fn total_from(order: Seq<usize>, est: Seq<u64>, k: int) -> nat
    decreases order.len() - k,
{
    if k < 0 || k >= order.len() {
        0
    } else {
        est[order[k] as int] as nat + total_from(order, est, k + 1)
    }
}

/// The priorities once the units from `k` on have theirs: a unit's own time, and the longest chain after it.
pub open spec fn prio_from(order: Seq<usize>, reqs: Seq<Vec<Req>>, est: Seq<u64>, k: int) -> Seq<u64>
    decreases order.len() - k,
{
    if k < 0 || k >= order.len() {
        Seq::new(est.len(), |i: int| 0u64)
    } else {
        let p = prio_from(order, reqs, est, k + 1);
        let u = order[k] as int;
        p.update(u, (est[u] + tail_upto(order, reqs, p, u, order.len() as int)) as u64)
    }
}

/// Each entry of the order is a unit.
pub open spec fn within(order: Seq<usize>, n: int) -> bool {
    forall|i: int| 0 <= i < order.len() ==> #[trigger] order[i] < n
}

proof fn lemma_tail_bound(order: Seq<usize>, reqs: Seq<Vec<Req>>, prio: Seq<u64>, u: int, n: int, bound: nat)
    requires
        0 <= n <= order.len(),
        within(order, prio.len() as int),
        forall|i: int| 0 <= i < prio.len() ==> #[trigger] prio[i] <= bound,
    ensures
        tail_upto(order, reqs, prio, u, n) <= bound,
    decreases n,
{
    if n > 0 {
        lemma_tail_bound(order, reqs, prio, u, n - 1, bound);
        assert(order[n - 1] < prio.len());
        assert(prio[order[n - 1] as int] <= bound);
    }
}

proof fn lemma_prio_bound(order: Seq<usize>, reqs: Seq<Vec<Req>>, est: Seq<u64>, k: int)
    requires
        0 <= k <= order.len(),
        within(order, est.len() as int),
        total_from(order, est, 0) <= u64::MAX,
    ensures
        prio_from(order, reqs, est, k).len() == est.len(),
        forall|i: int| 0 <= i < est.len() ==> #[trigger] prio_from(order, reqs, est, k)[i] <= total_from(order, est, k),
        total_from(order, est, k) <= total_from(order, est, 0),
    decreases order.len() - k,
{
    lemma_total(order, est, k);
    if k < order.len() {
        lemma_prio_bound(order, reqs, est, k + 1);
        let p = prio_from(order, reqs, est, k + 1);
        lemma_tail_bound(order, reqs, p, order[k] as int, order.len() as int, total_from(order, est, k + 1));
    }
}

proof fn lemma_total(order: Seq<usize>, est: Seq<u64>, k: int)
    requires
        0 <= k <= order.len(),
    ensures
        total_from(order, est, k) <= total_from(order, est, 0),
    decreases k,
{
    if k > 0 {
        lemma_total(order, est, k - 1);
    }
}

fn waits(reqs: &Vec<Req>, u: usize) -> (r: bool)
    ensures
        r == exists|i: int| 0 <= i < reqs@.len() && (#[trigger] reqs@[i]).0 == u,
{
    let mut k: usize = 0;
    while k < reqs.len()
        invariant
            k <= reqs@.len(),
            forall|i: int| 0 <= i < k ==> (#[trigger] reqs@[i]).0 != u,
        decreases reqs@.len() - k,
    {
        if reqs[k].0 == u {
            assert(reqs@[k as int].0 == u);
            return true;
        }
        k += 1;
    }
    false
}

/// A unit's own time, and the longest chain after it. The order has the units that are compiled, each after those
/// that it waits for.
pub fn priorities(order: &Vec<usize>, reqs: &Vec<Vec<Req>>, est: &Vec<u64>) -> (r: Vec<u64>)
    requires
        reqs@.len() == est@.len(),
        within(order@, est@.len() as int),
        total_from(order@, est@, 0) <= u64::MAX,
    ensures
        r@ == prio_from(order@, reqs@, est@, 0),
{
    let mut prio: Vec<u64> = Vec::new();
    while prio.len() < est.len()
        invariant
            prio@.len() <= est@.len(),
            forall|i: int| 0 <= i < prio@.len() ==> #[trigger] prio@[i] == 0,
        decreases est@.len() - prio@.len(),
    {
        prio.push(0);
    }
    let mut k: usize = order.len();
    assert(prio@ =~= prio_from(order@, reqs@, est@, k as int));
    while k > 0
        invariant
            k <= order@.len(),
            reqs@.len() == est@.len(),
            within(order@, est@.len() as int),
            total_from(order@, est@, 0) <= u64::MAX,
            prio@ == prio_from(order@, reqs@, est@, k as int),
        decreases k,
    {
        k -= 1;
        let u: usize = order[k];
        assert(order@[k as int] < est@.len());
        proof {
            lemma_prio_bound(order@, reqs@, est@, k + 1);
        }
        let mut tail: u64 = 0;
        let mut j: usize = 0;
        while j < order.len()
            invariant
                j <= order@.len(),
                reqs@.len() == est@.len(),
                prio@.len() == est@.len(),
                within(order@, est@.len() as int),
                tail == tail_upto(order@, reqs@, prio@, u as int, j as int),
            decreases order@.len() - j,
        {
            let v: usize = order[j];
            assert(order@[j as int] < est@.len());
            if waits(&reqs[v], u) && prio[v] > tail {
                tail = prio[v];
            }
            j += 1;
        }
        proof {
            lemma_tail_bound(order@, reqs@, prio@, u as int, order@.len() as int, total_from(order@, est@, k + 1));
            lemma_total(order@, est@, k as int);
        }
        prio.set(u, est[u] + tail);
    }
    prio
}

/// The order has each unit after those that it waits for, and each only once.
pub open spec fn sound_order(order: Seq<usize>, reqs: Seq<Vec<Req>>) -> bool {
    &&& order.no_duplicates()
    &&& forall|a: int, b: int| 0 <= a < order.len() && 0 <= b < order.len() && #[trigger] waits_on(reqs, order[a] as int, order[b] as int) ==> b < a
}

proof fn lemma_prio_keeps(order: Seq<usize>, reqs: Seq<Vec<Req>>, est: Seq<u64>, k: int, j: int)
    requires
        0 <= k <= j < order.len(),
        order.no_duplicates(),
        within(order, est.len() as int),
        total_from(order, est, 0) <= u64::MAX,
    ensures
        prio_from(order, reqs, est, k)[order[j] as int] == prio_from(order, reqs, est, j)[order[j] as int],
    decreases j - k,
{
    if k < j {
        lemma_prio_keeps(order, reqs, est, k + 1, j);
        lemma_prio_bound(order, reqs, est, k + 1);
        assert(order[k] != order[j]);
    }
}

proof fn lemma_tail_has(order: Seq<usize>, reqs: Seq<Vec<Req>>, prio: Seq<u64>, u: int, n: int, a: int)
    requires
        0 <= a < n <= order.len(),
        waits_on(reqs, order[a] as int, u),
    ensures
        tail_upto(order, reqs, prio, u, n) >= prio[order[a] as int],
    decreases n,
{
    if a < n - 1 {
        lemma_tail_has(order, reqs, prio, u, n - 1, a);
    }
}

/// A unit comes before the chain after it: its priority is that of any unit that waits for it, and its own time on
/// top.
pub proof fn law_a_unit_outranks_what_waits_for_it(order: Seq<usize>, reqs: Seq<Vec<Req>>, est: Seq<u64>, a: int, b: int)
    requires
        reqs.len() == est.len(),
        within(order, est.len() as int),
        total_from(order, est, 0) <= u64::MAX,
        sound_order(order, reqs),
        0 <= a < order.len(),
        0 <= b < order.len(),
        waits_on(reqs, order[a] as int, order[b] as int),
    ensures
        prio_from(order, reqs, est, 0)[order[b] as int] >= est[order[b] as int] + prio_from(order, reqs, est, 0)[order[a] as int],
{
    assert(b < a);
    lemma_prio_keeps(order, reqs, est, 0, a);
    lemma_prio_keeps(order, reqs, est, 0, b);
    lemma_prio_keeps(order, reqs, est, b + 1, a);
    lemma_prio_bound(order, reqs, est, b + 1);
    lemma_total(order, est, b);
    let p = prio_from(order, reqs, est, b + 1);
    let u = order[b] as int;
    lemma_tail_has(order, reqs, p, u, order.len() as int, a);
    lemma_tail_bound(order, reqs, p, u, order.len() as int, total_from(order, est, b + 1));
}

// ---------------------------------------------------------------------------
// What runs.

/// How far a unit is.
#[derive(Clone, Copy, Debug, PartialEq, Eq, Structural)]
pub enum Stage {
    /// Not compiled in this build.
    Absent,
    Waiting,
    Ready,
    Running,
    /// It ended, well or not.
    Ended,
}

/// How the work on a unit ended.
#[derive(Clone, Copy, Debug, PartialEq, Eq, Structural)]
pub enum Ended {
    /// Another build stored it meanwhile.
    Restored,
    /// It was compiled, and is being stored.
    Compiled,
    Failed,
}

/// The units of a build that are compiled: what they wait for, and how far they are.
#[derive(Debug)]
pub struct Scheduler {
    pub reqs: Vec<Vec<Req>>,
    pub prio: Vec<u64>,
    pub stage: Vec<Stage>,
    /// Whose metadata is written.
    pub meta: Vec<bool>,
    /// Which are compiled.
    pub full: Vec<bool>,
    pub keep_going: bool,
    pub failed: bool,
    /// Job tokens at hand, and asked for.
    pub tokens: usize,
    pub requested: usize,
    /// How many are being stored.
    pub storing: usize,
    pub done: usize,
    pub restored: usize,
    /// How many could start as soon as metadata was there.
    pub pipelined: usize,
}

/// What is needed of a unit is there.
pub open spec fn met(meta: Seq<bool>, full: Seq<bool>, r: Req) -> bool {
    full[r.0 as int] || (r.1 is Meta && meta[r.0 as int])
}

pub open spec fn all_met(meta: Seq<bool>, full: Seq<bool>, l: Seq<Req>) -> bool {
    forall|i: int| 0 <= i < l.len() ==> met(meta, full, #[trigger] l[i])
}

/// How many of the first `n` units are at a stage.
pub open spec fn count(stage: Seq<Stage>, s: Stage, n: int) -> nat
    decreases n,
{
    if n <= 0 || n > stage.len() {
        0
    } else {
        count(stage, s, n - 1) + (if stage[n - 1] == s {
            1nat
        } else {
            0
        })
    }
}

/// The stages once more is there: what waits for nothing any more is ready.
pub open spec fn released(reqs: Seq<Vec<Req>>, stage: Seq<Stage>, meta: Seq<bool>, full: Seq<bool>) -> Seq<Stage> {
    Seq::new(
        stage.len(),
        |u: int|
            if stage[u] is Waiting && all_met(meta, full, reqs[u]@) {
                Stage::Ready
            } else {
                stage[u]
            },
    )
}

/// The first units come before the others: a higher priority, or the same and a lower number.
pub open spec fn outranks(prio: Seq<u64>, a: int, b: int) -> bool {
    prio[a] > prio[b] || (prio[a] == prio[b] && a <= b)
}

impl Scheduler {
    /// Everything speaks of the same units, each stage agrees with what is there.
    pub open spec fn wf(self) -> bool {
        let n = self.reqs@.len();
        &&& self.prio@.len() == n
        &&& self.stage@.len() == n
        &&& self.meta@.len() == n
        &&& self.full@.len() == n
        &&& forall|u: int, i: int|
            #![trigger self.reqs@[u]@[i]]
            0 <= u < n && 0 <= i < self.reqs@[u]@.len() ==> self.reqs@[u]@[i].0 < n && !(self.stage@[self.reqs@[u]@[i].0 as int] is Absent)
        &&& forall|u: int| 0 <= u < n && #[trigger] self.stage@[u] is Waiting ==> !all_met(self.meta@, self.full@, self.reqs@[u]@)
        &&& forall|u: int|
            0 <= u < n && (#[trigger] self.stage@[u] is Ready || self.stage@[u] is Running || self.stage@[u] is Ended) ==> all_met(
                self.meta@,
                self.full@,
                self.reqs@[u]@,
            )
        &&& forall|u: int| 0 <= u < n && #[trigger] self.stage@[u] is Ended ==> self.full@[u] || self.failed
        &&& self.done == count(self.stage@, Stage::Ended, n as int)
    }

    /// Nothing more is started.
    pub open spec fn stopped(self) -> bool {
        self.failed && !self.keep_going
    }
}

proof fn lemma_count(stage: Seq<Stage>, s: Stage, u: int, t: Stage, n: int)
    requires
        0 <= n <= stage.len(),
        0 <= u < stage.len(),
    ensures
        count(stage.update(u, t), s, n) == count(stage, s, n) + (if u < n && t == s && stage[u] != s {
            1int
        } else if u < n && t != s && stage[u] == s {
            -1int
        } else {
            0
        }),
        count(stage, s, n) <= n,
    decreases n,
{
    if n > 0 {
        lemma_count(stage, s, u, t, n - 1);
    }
}

proof fn lemma_count_none(stage: Seq<Stage>, s: Stage, n: int)
    requires
        0 <= n <= stage.len(),
    ensures
        count(stage, s, n) == 0 <==> forall|u: int| 0 <= u < n ==> #[trigger] stage[u] != s,
        count(stage, s, n) <= n,
    decreases n,
{
    if n > 0 {
        lemma_count_none(stage, s, n - 1);
    }
}

proof fn lemma_count_same(a: Seq<Stage>, b: Seq<Stage>, s: Stage, n: int)
    requires
        0 <= n <= a.len(),
        a.len() == b.len(),
        forall|u: int| 0 <= u < n ==> (#[trigger] a[u] == s) == (b[u] == s),
    ensures
        count(a, s, n) == count(b, s, n),
    decreases n,
{
    if n > 0 {
        lemma_count_same(a, b, s, n - 1);
        assert((a[n - 1] == s) == (b[n - 1] == s));
    }
}

fn is_met(meta: &Vec<bool>, full: &Vec<bool>, l: &Vec<Req>) -> (r: bool)
    requires
        meta@.len() == full@.len(),
        forall|i: int| 0 <= i < l@.len() ==> (#[trigger] l@[i]).0 < full@.len(),
    ensures
        r == all_met(meta@, full@, l@),
{
    let mut k: usize = 0;
    while k < l.len()
        invariant
            k <= l@.len(),
            meta@.len() == full@.len(),
            forall|i: int| 0 <= i < l@.len() ==> (#[trigger] l@[i]).0 < full@.len(),
            forall|i: int| 0 <= i < k ==> met(meta@, full@, #[trigger] l@[i]),
        decreases l@.len() - k,
    {
        let (d, need) = l[k];
        assert(l@[k as int].0 < full@.len());
        let early: bool = match need {
            Need::Meta => meta[d],
            Need::Full => false,
        };
        if !full[d] && !early {
            assert(!met(meta@, full@, l@[k as int]));
            return false;
        }
        k += 1;
    }
    true
}

/// The stages before anything ran: what waits for nothing is ready.
pub open spec fn first_stages(missing: Seq<bool>, reqs: Seq<Vec<Req>>) -> Seq<Stage> {
    Seq::new(
        missing.len(),
        |u: int|
            if !missing[u] {
                Stage::Absent
            } else if reqs[u]@.len() == 0 {
                Stage::Ready
            } else {
                Stage::Waiting
            },
    )
}

/// A unit waits for units that are compiled, one of them or more.
pub open spec fn sound_reqs(missing: Seq<bool>, reqs: Seq<Vec<Req>>) -> bool {
    &&& reqs.len() == missing.len()
    &&& forall|u: int, i: int|
        #![trigger reqs[u]@[i]]
        0 <= u < reqs.len() && 0 <= i < reqs[u]@.len() ==> reqs[u]@[i].0 < missing.len() && missing[reqs[u]@[i].0 as int]
}

impl Scheduler {
    pub fn new(missing: &Vec<bool>, reqs: Vec<Vec<Req>>, prio: Vec<u64>, keep_going: bool) -> (r: Scheduler)
        requires
            sound_reqs(missing@, reqs@),
            prio@.len() == missing@.len(),
        ensures
            r.wf(),
            r.reqs@ == reqs@,
            r.prio@ == prio@,
            r.stage@ == first_stages(missing@, reqs@),
            r.keep_going == keep_going,
            !r.failed,
            r.tokens == 0 && r.requested == 0 && r.storing == 0 && r.done == 0 && r.restored == 0 && r.pipelined == 0,
            forall|u: int| 0 <= u < missing@.len() ==> !#[trigger] r.meta@[u] && !r.full@[u],
    {
        let n: usize = missing.len();
        let mut stage: Vec<Stage> = Vec::new();
        let mut meta: Vec<bool> = Vec::new();
        let mut full: Vec<bool> = Vec::new();
        let mut k: usize = 0;
        while k < n
            invariant
                k <= n,
                n == missing@.len(),
                sound_reqs(missing@, reqs@),
                stage@ =~= first_stages(missing@, reqs@).take(k as int),
                meta@.len() == k,
                full@.len() == k,
                forall|u: int| 0 <= u < k ==> !#[trigger] meta@[u] && !full@[u],
            decreases n - k,
        {
            stage.push(
                if !missing[k] {
                    Stage::Absent
                } else if reqs[k].len() == 0 {
                    Stage::Ready
                } else {
                    Stage::Waiting
                },
            );
            meta.push(false);
            full.push(false);
            k += 1;
        }
        assert(stage@ =~= first_stages(missing@, reqs@));
        proof {
            lemma_count_none(stage@, Stage::Ended, n as int);
            assert forall|u: int| 0 <= u < n && #[trigger] stage@[u] is Waiting implies !all_met(meta@, full@, reqs@[u]@) by {
                assert(reqs@[u]@[0].0 < n);
                assert(!meta@[reqs@[u]@[0].0 as int]);
                assert(!met(meta@, full@, reqs@[u]@[0]));
            }
        }
        Scheduler {
            reqs,
            prio,
            stage,
            meta,
            full,
            keep_going,
            failed: false,
            tokens: 0,
            requested: 0,
            storing: 0,
            done: 0,
            restored: 0,
            pipelined: 0,
        }
    }

    /// How many units are at a stage.
    pub fn number(&self, s: Stage) -> (r: usize)
        requires
            self.wf(),
        ensures
            r == count(self.stage@, s, self.stage@.len() as int),
    {
        let mut r: usize = 0;
        let mut k: usize = 0;
        while k < self.stage.len()
            invariant
                k <= self.stage@.len(),
                r <= k,
                r == count(self.stage@, s, k as int),
            decreases self.stage@.len() - k,
        {
            if self.stage[k] == s {
                r += 1;
            }
            k += 1;
        }
        r
    }

    /// The unit to start now, which takes a token with it. Nothing where none is ready, where no token is at hand,
    /// or after a failure.
    pub fn start(&mut self) -> (r: Option<usize>)
        requires
            old(self).wf(),
        ensures
            final(self).wf(),
            r.is_some() == (!old(self).stopped() && old(self).tokens > 0 && exists|u: int|
                0 <= u < old(self).stage@.len() && #[trigger] old(self).stage@[u] is Ready),
            match r {
                None => *final(self) == *old(self),
                Some(u) => {
                    &&& u < old(self).stage@.len()
                    &&& old(self).stage@[u as int] is Ready
                    &&& forall|v: int| 0 <= v < old(self).stage@.len() && #[trigger] old(self).stage@[v] is Ready ==> outranks(old(self).prio@, u as int, v)
                    &&& final(self).stage@ == old(self).stage@.update(u as int, Stage::Running)
                    &&& *final(self) == (Scheduler {
                        stage: final(self).stage,
                        tokens: (old(self).tokens - 1) as usize,
                        ..*old(self)
                    })
                },
            },
    {
        if (self.failed && !self.keep_going) || self.tokens == 0 {
            return None;
        }
        let mut best: Option<usize> = None;
        let mut k: usize = 0;
        while k < self.stage.len()
            invariant
                k <= self.stage@.len(),
                self.stage@.len() == self.prio@.len(),
                match best {
                    None => forall|v: int| 0 <= v < k ==> !(#[trigger] self.stage@[v] is Ready),
                    Some(b) => b < k && self.stage@[b as int] is Ready && forall|v: int|
                        0 <= v < k && #[trigger] self.stage@[v] is Ready ==> outranks(self.prio@, b as int, v),
                },
            decreases self.stage@.len() - k,
        {
            if self.stage[k] == Stage::Ready {
                best = match best {
                    Some(b) => if self.prio[k] > self.prio[b] {
                        Some(k)
                    } else {
                        Some(b)
                    },
                    None => Some(k),
                };
            }
            k += 1;
        }
        if let Some(u) = best {
            proof {
                lemma_count(self.stage@, Stage::Ended, u as int, Stage::Running, self.stage@.len() as int);
            }
            self.stage.set(u, Stage::Running);
            self.tokens = self.tokens - 1;
        }
        best
    }

    /// Nothing runs, nothing is being stored, and nothing more is started.
    pub fn is_over(&self) -> (r: bool)
        requires
            self.wf(),
        ensures
            r == (self.storing == 0 && (forall|u: int| 0 <= u < self.stage@.len() ==> !(#[trigger] self.stage@[u] is Running)) && (
            self.stopped() || forall|u: int| 0 <= u < self.stage@.len() ==> !(#[trigger] self.stage@[u] is Ready))),
    {
        proof {
            lemma_count_none(self.stage@, Stage::Running, self.stage@.len() as int);
            lemma_count_none(self.stage@, Stage::Ready, self.stage@.len() as int);
        }
        let running: usize = self.number(Stage::Running);
        let ready: usize = self.number(Stage::Ready);
        running == 0 && self.storing == 0 && (ready == 0 || (self.failed && !self.keep_going))
    }

    /// How many tokens to ask for, so that there is one for each unit that is ready. Tokens that nothing needs are
    /// given back.
    pub fn request(&mut self) -> (r: usize)
        requires
            old(self).wf(),
            old(self).requested + old(self).tokens <= usize::MAX,
        ensures
            ({
                let ready = count(old(self).stage@, Stage::Ready, old(self).stage@.len() as int);
                let want = if old(self).stopped() {
                    0
                } else {
                    ready
                };
                let have = old(self).requested + old(self).tokens;
                &&& r == (if have < want {
                    want - have
                } else {
                    0
                })
                &&& *final(self) == (Scheduler {
                    requested: (old(self).requested + r) as usize,
                    tokens: if ready == 0 || old(self).stopped() {
                        0
                    } else {
                        old(self).tokens
                    },
                    ..*old(self)
                })
            }),
            final(self).wf(),
    {
        let ready: usize = self.number(Stage::Ready);
        let stopped: bool = self.failed && !self.keep_going;
        let want: usize = if stopped {
            0
        } else {
            ready
        };
        let have: usize = self.requested + self.tokens;
        let more: usize = if have < want {
            want - have
        } else {
            0
        };
        self.requested = self.requested + more;
        if ready == 0 || stopped {
            self.tokens = 0;
        }
        more
    }

    /// A token came.
    pub fn on_token(&mut self)
        requires
            old(self).wf(),
            old(self).tokens < usize::MAX,
        ensures
            final(self).wf(),
            *final(self) == (Scheduler {
                requested: if old(self).requested > 0 {
                    (old(self).requested - 1) as usize
                } else {
                    0
                },
                tokens: (old(self).tokens + 1) as usize,
                ..*old(self)
            }),
    {
        if self.requested > 0 {
            self.requested = self.requested - 1;
        }
        self.tokens = self.tokens + 1;
    }

    /// Moves on what waits for nothing any more; how many that are.
    fn release(&mut self) -> (r: usize)
        requires
            old(self).prio@.len() == old(self).reqs@.len(),
            old(self).stage@.len() == old(self).reqs@.len(),
            old(self).meta@.len() == old(self).reqs@.len(),
            old(self).full@.len() == old(self).reqs@.len(),
            forall|u: int, i: int|
                #![trigger old(self).reqs@[u]@[i]]
                0 <= u < old(self).reqs@.len() && 0 <= i < old(self).reqs@[u]@.len() ==> old(self).reqs@[u]@[i].0 < old(self).reqs@.len(),
        ensures
            final(self).stage@ == released(old(self).reqs@, old(self).stage@, old(self).meta@, old(self).full@),
            *final(self) == (Scheduler { stage: final(self).stage, ..*old(self) }),
            r == count(final(self).stage@, Stage::Ready, final(self).stage@.len() as int) - count(
                old(self).stage@,
                Stage::Ready,
                old(self).stage@.len() as int,
            ),
    {
        let ghost n = self.stage@.len();
        let ghost want = released(self.reqs@, self.stage@, self.meta@, self.full@);
        let ghost s0 = self.stage@;
        let mut r: usize = 0;
        let mut k: usize = 0;
        while k < self.stage.len()
            invariant
                k <= self.stage@.len(),
                n == self.reqs@.len(),
                n == self.stage@.len(),
                *self == (Scheduler { stage: self.stage, ..*old(self) }),
                s0 == old(self).stage@,
                s0.len() == n,
                want == released(self.reqs@, s0, self.meta@, self.full@),
                self.meta@.len() == n,
                self.full@.len() == n,
                forall|u: int, i: int|
                    #![trigger self.reqs@[u]@[i]]
                    0 <= u < n && 0 <= i < self.reqs@[u]@.len() ==> self.reqs@[u]@[i].0 < n,
                forall|u: int| 0 <= u < k ==> #[trigger] self.stage@[u] == want[u],
                forall|u: int| k <= u < n ==> #[trigger] self.stage@[u] == s0[u],
                r <= k,
                count(self.stage@, Stage::Ready, n as int) == count(s0, Stage::Ready, n as int) + r,
            decreases self.stage@.len() - k,
        {
            assert(self.stage@[k as int] == s0[k as int]);
            if self.stage[k] == Stage::Waiting {
                if is_met(&self.meta, &self.full, &self.reqs[k]) {
                    proof {
                        lemma_count(self.stage@, Stage::Ready, k as int, Stage::Ready, n as int);
                    }
                    self.stage.set(k, Stage::Ready);
                    r += 1;
                }
            }
            k += 1;
        }
        assert(self.stage@ =~= want);
        r
    }

    /// The metadata of a unit is written: what needs no more than that may start.
    pub fn on_meta(&mut self, u: usize)
        requires
            old(self).wf(),
            u < old(self).stage@.len(),
            old(self).pipelined + old(self).stage@.len() <= usize::MAX,
        ensures
            final(self).wf(),
            final(self).meta@ == old(self).meta@.update(u as int, true),
            final(self).stage@ == released(old(self).reqs@, old(self).stage@, final(self).meta@, old(self).full@),
            *final(self) == (Scheduler {
                meta: final(self).meta,
                stage: final(self).stage,
                pipelined: (old(self).pipelined + count(final(self).stage@, Stage::Ready, final(self).stage@.len() as int) - count(
                    old(self).stage@,
                    Stage::Ready,
                    old(self).stage@.len() as int,
                )) as usize,
                ..*old(self)
            }),
    {
        let ghost n = self.stage@.len();
        let ghost s0 = self.stage@;
        let ghost m0 = self.meta@;
        if self.meta[u] {
            assert(m0.update(u as int, true) =~= m0);
            assert(released(self.reqs@, s0, m0, self.full@) =~= s0);
            return;
        }
        self.meta.set(u, true);
        let r: usize = self.release();
        proof {
            lemma_release_keeps(*old(self), *self);
            lemma_count_none(self.stage@, Stage::Ready, n as int);
        }
        self.pipelined = self.pipelined + r;
    }

    /// A unit is compiled: what waits for it may start.
    pub fn on_unlocked(&mut self, u: usize)
        requires
            old(self).wf(),
            u < old(self).stage@.len(),
        ensures
            final(self).wf(),
            final(self).full@ == old(self).full@.update(u as int, true),
            final(self).stage@ == released(old(self).reqs@, old(self).stage@, old(self).meta@, final(self).full@),
            *final(self) == (Scheduler { full: final(self).full, stage: final(self).stage, ..*old(self) }),
    {
        self.full.set(u, true);
        let _r: usize = self.release();
        proof {
            lemma_release_keeps(*old(self), *self);
        }
    }

    /// The work on a unit ended. A unit that ended well is compiled.
    pub fn on_done(&mut self, u: usize, how: Ended)
        requires
            old(self).wf(),
            u < old(self).stage@.len(),
            old(self).stage@[u as int] is Running,
            how is Failed || old(self).full@[u as int],
            old(self).storing < usize::MAX,
            old(self).restored < usize::MAX,
        ensures
            final(self).wf(),
            final(self).stage@ == old(self).stage@.update(u as int, Stage::Ended),
            *final(self) == (Scheduler {
                stage: final(self).stage,
                done: (old(self).done + 1) as usize,
                failed: old(self).failed || how is Failed,
                storing: (old(self).storing + (if how is Compiled {
                    1int
                } else {
                    0
                })) as usize,
                restored: (old(self).restored + (if how is Restored {
                    1int
                } else {
                    0
                })) as usize,
                ..*old(self)
            }),
    {
        proof {
            lemma_count(self.stage@, Stage::Ended, u as int, Stage::Ended, self.stage@.len() as int);
            lemma_count(self.stage@.update(u as int, Stage::Ended), Stage::Ended, u as int, Stage::Ended, self.stage@.len() as int);
        }
        self.stage.set(u, Stage::Ended);
        let n: usize = self.stage.len();
        assert(self.done + 1 <= n);
        self.done = self.done + 1;
        match how {
            Ended::Restored => {
                self.restored = self.restored + 1;
            },
            Ended::Compiled => {
                self.storing = self.storing + 1;
            },
            Ended::Failed => {
                self.failed = true;
            },
        }
    }

    /// The outputs of a unit are in the store, or could not be put there.
    pub fn on_stored(&mut self)
        requires
            old(self).wf(),
            old(self).storing > 0,
        ensures
            final(self).wf(),
            *final(self) == (Scheduler { storing: (old(self).storing - 1) as usize, ..*old(self) }),
    {
        self.storing = self.storing - 1;
    }
}

/// What was there stays there, so releasing units keeps each stage in agreement.
proof fn lemma_release_keeps(a: Scheduler, b: Scheduler)
    requires
        a.wf(),
        b.reqs@ == a.reqs@,
        b.prio@ == a.prio@,
        b.meta@.len() == a.meta@.len(),
        b.full@.len() == a.full@.len(),
        b.failed == a.failed,
        b.done == a.done,
        forall|u: int| 0 <= u < a.meta@.len() && a.meta@[u] ==> #[trigger] b.meta@[u],
        forall|u: int| 0 <= u < a.full@.len() && a.full@[u] ==> #[trigger] b.full@[u],
        b.stage@ == released(a.reqs@, a.stage@, b.meta@, b.full@),
    ensures
        b.wf(),
        count(b.stage@, Stage::Ready, b.stage@.len() as int) >= count(a.stage@, Stage::Ready, a.stage@.len() as int),
{
    let n = a.reqs@.len();
    assert forall|u: int| 0 <= u < n && all_met(a.meta@, a.full@, a.reqs@[u]@) implies all_met(b.meta@, b.full@, a.reqs@[u]@) by {
        assert forall|i: int| 0 <= i < a.reqs@[u]@.len() implies met(b.meta@, b.full@, #[trigger] a.reqs@[u]@[i]) by {
            assert(met(a.meta@, a.full@, a.reqs@[u]@[i]));
            let d = a.reqs@[u]@[i].0 as int;
            assert(a.full@[d] ==> b.full@[d]);
            assert(a.meta@[d] ==> b.meta@[d]);
        }
    }
    lemma_count_same(a.stage@, b.stage@, Stage::Ended, n as int);
    lemma_count_grows(a.stage@, b.stage@, n as int);
    assert forall|u: int| 0 <= u < n && (#[trigger] b.stage@[u] is Ready || b.stage@[u] is Running || b.stage@[u] is Ended) implies all_met(
        b.meta@,
        b.full@,
        b.reqs@[u]@,
    ) by {
        if !(a.stage@[u] is Waiting) {
            assert(all_met(a.meta@, a.full@, a.reqs@[u]@));
        }
    }
    assert forall|u: int| 0 <= u < n && #[trigger] b.stage@[u] is Ended implies b.full@[u] || b.failed by {
        assert(a.stage@[u] is Ended);
        assert(a.full@[u] ==> b.full@[u]);
    }
}

proof fn lemma_count_grows(a: Seq<Stage>, b: Seq<Stage>, n: int)
    requires
        0 <= n <= a.len(),
        a.len() == b.len(),
        forall|u: int| 0 <= u < n && #[trigger] a[u] is Ready ==> b[u] is Ready,
    ensures
        count(b, Stage::Ready, n) >= count(a, Stage::Ready, n),
    decreases n,
{
    if n > 0 {
        lemma_count_grows(a, b, n - 1);
    }
}

/// No unit starts before what it needs is there: whatever runs or ended has all that it waits for.
pub proof fn law_units_start_after_what_they_need(s: Scheduler, u: int, i: int)
    requires
        s.wf(),
        0 <= u < s.stage@.len(),
        s.stage@[u] is Running || s.stage@[u] is Ended,
        0 <= i < s.reqs@[u]@.len(),
    ensures
        met(s.meta@, s.full@, s.reqs@[u]@[i]),
{
}

proof fn lemma_all_end(s: Scheduler, order: Seq<usize>, k: int)
    requires
        s.wf(),
        !s.failed,
        forall|u: int| 0 <= u < s.stage@.len() ==> !(#[trigger] s.stage@[u] is Running) && !(s.stage@[u] is Ready),
        within(order, s.stage@.len() as int),
        sound_order(order, s.reqs@),
        forall|u: int| 0 <= u < s.stage@.len() && !(#[trigger] s.stage@[u] is Absent) ==> order.contains(u as usize),
        0 <= k <= order.len(),
    ensures
        forall|j: int| 0 <= j < k ==> (s.stage@[#[trigger] order[j] as int] is Ended || s.stage@[order[j] as int] is Absent),
    decreases k,
{
    if k > 0 {
        lemma_all_end(s, order, k - 1);
        let u = order[k - 1] as int;
        assert(order[k - 1] < s.stage@.len());
        if s.stage@[u] is Waiting {
            assert forall|i: int| 0 <= i < s.reqs@[u]@.len() implies met(s.meta@, s.full@, #[trigger] s.reqs@[u]@[i]) by {
                let d = s.reqs@[u]@[i].0;
                assert(!(s.stage@[d as int] is Absent));
                assert(order.contains(d));
                let b = choose|b: int| 0 <= b < order.len() && order[b] == d;
                assert(waits_on(s.reqs@, order[k - 1] as int, order[b] as int)) by {
                    assert(s.reqs@[u]@[i].0 == d);
                }
                assert(b < k - 1);
                assert(s.stage@[order[b] as int] is Ended);
                assert(s.full@[d as int] || s.failed);
            }
            assert(all_met(s.meta@, s.full@, s.reqs@[u]@));
        }
    }
}

/// A build does not get stuck: where nothing failed, nothing runs and nothing is ready, every unit ended. The order
/// has each unit after those that it waits for.
pub proof fn law_the_build_does_not_get_stuck(s: Scheduler, order: Seq<usize>, u: int)
    requires
        s.wf(),
        !s.failed,
        forall|v: int| 0 <= v < s.stage@.len() ==> !(#[trigger] s.stage@[v] is Running) && !(s.stage@[v] is Ready),
        within(order, s.stage@.len() as int),
        sound_order(order, s.reqs@),
        forall|v: int| 0 <= v < s.stage@.len() && !(#[trigger] s.stage@[v] is Absent) ==> order.contains(v as usize),
        0 <= u < s.stage@.len(),
        !(s.stage@[u] is Absent),
    ensures
        s.stage@[u] is Ended,
        s.full@[u],
{
    assert(order.contains(u as usize));
    let j = choose|j: int| 0 <= j < order.len() && order[j] == u;
    lemma_all_end(s, order, order.len() as int);
    assert(s.stage@[order[j] as int] is Ended || s.stage@[order[j] as int] is Absent);
}

// ---------------------------------------------------------------------------
// Threads in the compiler.

/// What the number of threads of a compiler goes by.
#[derive(Clone, Copy, Debug)]
pub struct Frontend {
    pub nightly: bool,
    pub toggle: Toggle,
    /// The unit runs a build script.
    pub script: bool,
    pub est_ms: u64,
    /// It has an incremental session from before.
    pub warm: bool,
    pub jobs: usize,
    /// How many units run or are ready.
    pub busy: usize,
}

/// A long unit on a nightly compiler gets the cores that nothing else is using, two to eight.
pub open spec fn threads_for(f: Frontend) -> Option<int> {
    let spare = if f.jobs > f.busy {
        f.jobs - f.busy
    } else {
        0
    };
    if !f.nightly || f.toggle is Off || f.script || (f.warm && !(f.toggle is On)) || !(f.est_ms >= 1000 || f.toggle is On)
        || spare < 2 {
        None
    } else if spare > 8 {
        Some(8)
    } else {
        Some(spare)
    }
}

/// `-Zthreads` on long nightly units when other cores are sitting idle. A warm incremental session is faster on one
/// thread.
pub fn parallel_frontend(f: Frontend) -> (r: Option<usize>)
    ensures
        match r {
            Some(n) => threads_for(f) == Some(n as int),
            None => threads_for(f).is_none(),
        },
{
    if !f.nightly || f.toggle == Toggle::Off || f.script {
        return None;
    }
    let on: bool = f.toggle == Toggle::On;
    if f.warm && !on {
        return None;
    }
    let spare: usize = if f.jobs > f.busy {
        f.jobs - f.busy
    } else {
        0
    };
    if !(f.est_ms >= 1000 || on) || spare < 2 {
        None
    } else if spare > 8 {
        Some(8)
    } else {
        Some(spare)
    }
}

} // verus!
