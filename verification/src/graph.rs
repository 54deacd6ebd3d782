//! Reshaping a unit graph: dropping what nothing reaches, sharing host units, documenting a crate once.

use vstd::prelude::*;
use crate::manifest::TargetKind;
use crate::plan::depth_first;
use crate::plan::each_once;
use crate::plan::topo_order;
use crate::profile::ProfileView;
use crate::profile::Profile;
use crate::profile::dup_list;
use crate::profile::dup_text;
use crate::sets::has;
use crate::text::opt_view;
use crate::text::same_list;
use crate::text::same_opt;
use crate::text::same;
use crate::text::swapped;
use crate::text::views;
use crate::unit::CompileKind;
use crate::unit::Doctest;
use crate::unit::Mode;
use crate::unit::Unit;
use crate::unit::UnitDep;
use crate::unit::UnitGraph;
use crate::version::older;
use crate::workspace::Pkg;

verus! {

pub type Link = (usize, Option<Seq<char>>);

/// The model of a unit.
pub struct UnitView {
    pub pkg: usize,
    pub target: usize,
    pub kind: CompileKind,
    pub for_host: bool,
    pub mode: Mode,
    pub features: Seq<Seq<char>>,
    pub profile: ProfileView,
    pub deps: Seq<Link>,
}

pub struct DoctestView {
    pub pkg: usize,
    pub lib: usize,
    pub dev_deps: Seq<Link>,
}

/// The model of a unit graph.
pub struct GraphView {
    pub units: Seq<UnitView>,
    pub roots: Seq<usize>,
    pub aux_roots: Seq<usize>,
    pub doctests: Seq<DoctestView>,
}

impl View for UnitDep {
    type V = Link;

    open spec fn view(&self) -> Link {
        (self.unit, opt_view(self.extern_name))
    }
}

impl View for Unit {
    type V = UnitView;

    open spec fn view(&self) -> UnitView {
        UnitView {
            pkg: self.pkg,
            target: self.target,
            kind: self.kind,
            for_host: self.for_host,
            mode: self.mode,
            features: views(self.features@),
            profile: self.profile@,
            deps: views(self.deps@),
        }
    }
}

impl View for Doctest {
    type V = DoctestView;

    open spec fn view(&self) -> DoctestView {
        DoctestView { pkg: self.pkg, lib: self.lib, dev_deps: views(self.dev_deps@) }
    }
}

impl View for UnitGraph {
    type V = GraphView;

    open spec fn view(&self) -> GraphView {
        GraphView {
            units: views(self.units@),
            roots: self.roots@,
            aux_roots: self.aux_roots@,
            doctests: views(self.doctests@),
        }
    }
}

/// The units that the links lead to.
pub open spec fn ends_of(deps: Seq<Link>) -> Seq<usize> {
    Seq::new(deps.len(), |k: int| deps[k].0)
}

pub open spec fn links_in(deps: Seq<Link>, n: nat) -> bool {
    forall|k: int| 0 <= k < deps.len() ==> (#[trigger] deps[k]).0 < n
}

pub open spec fn all_in(s: Seq<usize>, n: nat) -> bool {
    forall|k: int| 0 <= k < s.len() ==> #[trigger] s[k] < n
}

impl GraphView {
    /// Everything named is a unit, and doctests use only what they keep on disk.
    pub open spec fn wf(self) -> bool {
        let n = self.units.len();
        &&& n <= usize::MAX
        &&& forall|u: int| 0 <= u < n ==> links_in((#[trigger] self.units[u]).deps, n)
        &&& all_in(self.roots, n)
        &&& all_in(self.aux_roots, n)
        &&& forall|d: int| 0 <= d < self.doctests.len() ==> self.kept_for(#[trigger] self.doctests[d])
    }

    pub open spec fn kept_for(self, d: DoctestView) -> bool {
        self.aux_roots.contains(d.lib) && forall|k: int|
            0 <= k < d.dev_deps.len() ==> self.aux_roots.contains((#[trigger] d.dev_deps[k]).0)
    }
}

/// The units in the order in which a walk from the stack finds them, after those found before.
pub open spec fn found(units: Seq<UnitView>, stack: Seq<usize>, order: Seq<usize>) -> Seq<usize>
    decreases units.len() - order.len(), stack.len(),
{
    if stack.len() == 0 {
        order
    } else {
        let u = stack.last();
        let rest = stack.drop_last();
        if order.contains(u) {
            found(units, rest, order)
        } else if order.len() >= units.len() {
            order
        } else {
            found(units, rest + ends_of(units[u as int].deps), order.push(u))
        }
    }
}

/// What the roots reach.
pub open spec fn walk_order(g: GraphView) -> Seq<usize> {
    found(g.units, g.roots + g.aux_roots, Seq::empty())
}

pub open spec fn place(order: Seq<usize>, u: usize) -> usize {
    order.index_of(u) as usize
}

pub open spec fn places(order: Seq<usize>, s: Seq<usize>) -> Seq<usize> {
    Seq::new(s.len(), |k: int| place(order, s[k]))
}

pub open spec fn placed_links(order: Seq<usize>, deps: Seq<Link>) -> Seq<Link> {
    Seq::new(deps.len(), |k: int| (place(order, deps[k].0), deps[k].1))
}

/// The first link to each unit, of the first `k`.
pub open spec fn first_links(deps: Seq<Link>, k: int) -> Seq<Link>
    decreases k,
{
    if k <= 0 || k > deps.len() {
        Seq::empty()
    } else {
        let before = first_links(deps, k - 1);
        if ends_of(before).contains(deps[k - 1].0) {
            before
        } else {
            before.push(deps[k - 1])
        }
    }
}

/// Each run of one number once, of the first `k`.
pub open spec fn runs(s: Seq<usize>, k: int) -> Seq<usize>
    decreases k,
{
    if k <= 0 || k > s.len() {
        Seq::empty()
    } else {
        let before = runs(s, k - 1);
        if before.len() > 0 && before.last() == s[k - 1] {
            before
        } else {
            before.push(s[k - 1])
        }
    }
}

pub open spec fn placed_unit(order: Seq<usize>, u: UnitView) -> UnitView {
    let deps = placed_links(order, u.deps);
    UnitView { deps: first_links(deps, deps.len() as int), ..u }
}

pub open spec fn placed_doctest(order: Seq<usize>, d: DoctestView) -> DoctestView {
    DoctestView { pkg: d.pkg, lib: place(order, d.lib), dev_deps: placed_links(order, d.dev_deps) }
}

/// The graph of what the roots reach, numbered in the order of the walk.
pub open spec fn pruned(g: GraphView) -> GraphView {
    let order = walk_order(g);
    let roots = places(order, g.roots);
    GraphView {
        units: Seq::new(order.len(), |k: int| placed_unit(order, g.units[order[k] as int])),
        roots: runs(roots, roots.len() as int),
        aux_roots: places(order, g.aux_roots),
        doctests: Seq::new(g.doctests.len(), |k: int| placed_doctest(order, g.doctests[k])),
    }
}

/// A walk keeps what it found and finds what is on its stack.
proof fn lemma_found(units: Seq<UnitView>, stack: Seq<usize>, order: Seq<usize>, u: usize)
    requires
        forall|v: int| 0 <= v < units.len() ==> links_in((#[trigger] units[v]).deps, units.len()),
        all_in(stack, units.len()),
        all_in(order, units.len()),
        order.no_duplicates(),
        order.contains(u) || stack.contains(u),
    ensures
        found(units, stack, order).contains(u),
    decreases units.len() - order.len(), stack.len(),
{
    if stack.len() > 0 {
        let v = stack.last();
        let rest = stack.drop_last();
        assert(stack[stack.len() - 1] == v);
        if order.contains(v) {
            if !order.contains(u) {
                let k = choose|k: int| 0 <= k < stack.len() && stack[k] == u;
                assert(rest[k] == u);
            }
            lemma_found(units, rest, order, u);
        } else {
            lemma_room(order, v, units.len());
            let more = rest + ends_of(units[v as int].deps);
            let next = order.push(v);
            if order.contains(u) {
                let k = choose|k: int| 0 <= k < order.len() && order[k] == u;
                assert(next[k] == u);
            } else {
                let k = choose|k: int| 0 <= k < stack.len() && stack[k] == u;
                if k < rest.len() {
                    assert(more[k] == u);
                } else {
                    assert(next[order.len() as int] == u);
                }
            }
            assert forall|k: int| 0 <= k < more.len() implies #[trigger] more[k] < units.len() by {
                if k >= rest.len() {
                    assert(units[v as int].deps[k - rest.len()].0 < units.len());
                } else {
                    assert(stack[k] < units.len());
                }
            }
            lemma_found(units, more, next, u);
        }
    }
}

/// What a walk found is in range, each unit once, and closed under links.
proof fn lemma_found_ok(units: Seq<UnitView>, stack: Seq<usize>, order: Seq<usize>)
    requires
        forall|v: int| 0 <= v < units.len() ==> links_in((#[trigger] units[v]).deps, units.len()),
        all_in(stack, units.len()),
        all_in(order, units.len()),
        order.no_duplicates(),
        forall|k: int, j: int|
            0 <= k < order.len() && 0 <= j < units[order[k] as int].deps.len() ==> order.contains(
                (#[trigger] units[order[k] as int].deps[j]).0,
            ) || stack.contains(units[order[k] as int].deps[j].0),
    ensures
        found(units, stack, order).no_duplicates(),
        all_in(found(units, stack, order), units.len()),
        forall|k: int, j: int|
            0 <= k < found(units, stack, order).len() && 0 <= j < units[found(units, stack, order)[k] as int].deps.len()
                ==> found(units, stack, order).contains(
                (#[trigger] units[found(units, stack, order)[k] as int].deps[j]).0,
            ),
    decreases units.len() - order.len(), stack.len(),
{
    if stack.len() > 0 {
        let v = stack.last();
        let rest = stack.drop_last();
        assert(stack[stack.len() - 1] == v);
        if order.contains(v) {
            assert forall|k: int, j: int|
                0 <= k < order.len() && 0 <= j < units[order[k] as int].deps.len() implies order.contains(
                (#[trigger] units[order[k] as int].deps[j]).0,
            ) || rest.contains(units[order[k] as int].deps[j].0) by {
                let x = units[order[k] as int].deps[j].0;
                if !order.contains(x) {
                    let m = choose|m: int| 0 <= m < stack.len() && stack[m] == x;
                    assert(rest[m] == x);
                }
            }
            lemma_found_ok(units, rest, order);
        } else {
            lemma_room(order, v, units.len());
            let more = rest + ends_of(units[v as int].deps);
            let next = order.push(v);
            assert forall|k: int| 0 <= k < more.len() implies #[trigger] more[k] < units.len() by {
                if k >= rest.len() {
                    assert(units[v as int].deps[k - rest.len()].0 < units.len());
                } else {
                    assert(stack[k] < units.len());
                }
            }
            assert forall|k: int, j: int|
                0 <= k < next.len() && 0 <= j < units[next[k] as int].deps.len() implies next.contains(
                (#[trigger] units[next[k] as int].deps[j]).0,
            ) || more.contains(units[next[k] as int].deps[j].0) by {
                let x = units[next[k] as int].deps[j].0;
                if k < order.len() {
                    assert(next[k] == order[k]);
                    assert(x == units[order[k] as int].deps[j].0);
                    if order.contains(x) {
                        let m = choose|m: int| 0 <= m < order.len() && order[m] == x;
                        assert(next[m] == x);
                    } else {
                        let m = choose|m: int| 0 <= m < stack.len() && stack[m] == x;
                        if m < rest.len() {
                            assert(more[m] == x);
                        } else {
                            assert(next[order.len() as int] == x);
                        }
                    }
                } else {
                    assert(more[rest.len() + j] == x);
                }
            }
            lemma_found_ok(units, more, next);
        }
    }
}

/// Distinct numbers below `n`, with one of them missing, are fewer than `n`.
proof fn lemma_room(order: Seq<usize>, u: usize, n: nat)
    requires
        order.no_duplicates(),
        all_in(order, n),
        !order.contains(u),
        u < n,
    ensures
        order.len() < n,
{
    let s = order.push(u);
    let t = Seq::new(n, |k: int| k);
    let m = Seq::new(s.len(), |k: int| s[k] as int);
    assert forall|k: int| 0 <= k < m.len() implies t.contains(#[trigger] m[k]) by {
        if k < order.len() {
            assert(order[k] < n);
        }
        assert(t[m[k]] == m[k]);
    }
    crate::finite::lemma_no_longer(m, t);
    t.lemma_cardinality_of_set();
}

impl UnitDep {
    pub(crate) fn to(&self, unit: usize) -> (r: UnitDep)
        ensures
            r@ == (unit, self@.1),
    {
        UnitDep { unit, extern_name: dup_text(&self.extern_name) }
    }
}

impl Unit {
    /// The same unit with other links.
    fn linking(&self, deps: Vec<UnitDep>) -> (r: Unit)
        ensures
            r@ == (UnitView { deps: views(deps@), ..self@ }),
    {
        Unit {
            pkg: self.pkg,
            target: self.target,
            kind: self.kind,
            for_host: self.for_host,
            mode: self.mode,
            features: dup_list(&self.features),
            profile: self.profile.dup(),
            deps,
        }
    }
}

fn list_of(a: &Vec<usize>, b: &Vec<usize>) -> (r: Vec<usize>)
    ensures
        r@ == a@ + b@,
{
    let mut r: Vec<usize> = Vec::new();
    let mut k: usize = 0;
    while k < a.len()
        invariant
            k <= a@.len(),
            r@ == a@.take(k as int),
        decreases a@.len() - k,
    {
        r.push(a[k]);
        assert(a@.take(k + 1) =~= a@.take(k as int).push(a@[k as int]));
        k += 1;
    }
    assert(a@.take(a@.len() as int) =~= a@);
    k = 0;
    while k < b.len()
        invariant
            k <= b@.len(),
            r@ == a@ + b@.take(k as int),
        decreases b@.len() - k,
    {
        r.push(b[k]);
        assert(a@ + b@.take(k + 1) =~= (a@ + b@.take(k as int)).push(b@[k as int]));
        k += 1;
    }
    assert(b@.take(b@.len() as int) =~= b@);
    r
}

/// Where each unit stands in the order; the number of units for one that is not there.
spec fn indexes(at: Seq<usize>, order: Seq<usize>, n: nat) -> bool {
    &&& at.len() == n
    &&& order.len() <= n <= usize::MAX
    &&& order.no_duplicates()
    &&& all_in(order, n)
    &&& forall|u: int| 0 <= u < n ==> (if order.contains(u as usize) {
        #[trigger] at[u] < order.len() && order[at[u] as int] == u
    } else {
        at[u] == n
    })
}

proof fn lemma_place(at: Seq<usize>, order: Seq<usize>, n: nat, u: usize)
    requires
        indexes(at, order, n),
        u < n,
        order.contains(u),
    ensures
        at[u as int] == place(order, u),
        place(order, u) < order.len(),
{
    let i = order.index_of(u);
    assert(order[at[u as int] as int] == u);
    assert(0 <= i < order.len() && order[i] == u);
}

fn push_ends(stack: &mut Vec<usize>, deps: &Vec<UnitDep>)
    ensures
        final(stack)@ == old(stack)@ + ends_of(views(deps@)),
{
    let mut k: usize = 0;
    while k < deps.len()
        invariant
            k <= deps@.len(),
            stack@ == old(stack)@ + ends_of(views(deps@)).take(k as int),
        decreases deps@.len() - k,
    {
        stack.push(deps[k].unit);
        assert(ends_of(views(deps@)).take(k + 1) =~= ends_of(views(deps@)).take(k as int).push(
            ends_of(views(deps@))[k as int],
        ));
        k += 1;
    }
    assert(ends_of(views(deps@)).take(deps@.len() as int) =~= ends_of(views(deps@)));
}

proof fn lemma_push_index(at: Seq<usize>, order: Seq<usize>, n: nat, u: usize)
    requires
        indexes(at, order, n),
        u < n,
        !order.contains(u),
        order.len() < n,
    ensures
        indexes(at.update(u as int, order.len() as usize), order.push(u), n),
{
    let next = order.push(u);
    let to = at.update(u as int, order.len() as usize);
    assert forall|v: int| 0 <= v < n implies (if next.contains(v as usize) {
        #[trigger] to[v] < next.len() && next[to[v] as int] == v
    } else {
        to[v] == n
    }) by {
        if v != u {
            assert(to[v] == at[v]);
            if next.contains(v as usize) {
                let k = choose|k: int| 0 <= k < next.len() && next[k] == v as usize;
                assert(order[k] == v as usize);
            }
            if order.contains(v as usize) {
                let k = choose|k: int| 0 <= k < order.len() && order[k] == v as usize;
                assert(next[k] == v as usize);
            }
        } else {
            assert(next[order.len() as int] == u);
        }
    }
}

/// What the roots reach, in the order of the walk, and where each unit stands in it.
fn walk(g: &UnitGraph) -> (r: (Vec<usize>, Vec<usize>))
    requires
        g@.wf(),
    ensures
        r.0@ == walk_order(g@),
        indexes(r.1@, r.0@, g@.units.len()),
{
    let n: usize = g.units.len();
    let mut at: Vec<usize> = Vec::new();
    while at.len() < n
        invariant
            at@.len() <= n,
            forall|k: int| 0 <= k < at@.len() ==> #[trigger] at@[k] == n,
        decreases n - at@.len(),
    {
        at.push(n);
    }
    let mut order: Vec<usize> = Vec::new();
    let mut stack: Vec<usize> = list_of(&g.roots, &g.aux_roots);
    proof {
        assert forall|k: int| 0 <= k < stack@.len() implies #[trigger] stack@[k] < n by {
            if k >= g.roots@.len() {
                assert(g@.aux_roots[k - g.roots@.len()] < n);
            } else {
                assert(g@.roots[k] < n);
            }
        }
    }
    loop
        invariant
            n == g.units@.len(),
            g@.wf(),
            indexes(at@, order@, n as nat),
            all_in(stack@, n as nat),
            found(g@.units, stack@, order@) == walk_order(g@),
        ensures
            order@ == walk_order(g@),
            indexes(at@, order@, n as nat),
        decreases n - order@.len(), stack@.len(),
    {
        let ghost s = stack@;
        match stack.pop() {
            None => {
                break;
            }
            Some(u) => {
                proof {
                    assert(s.last() == u && stack@ == s.drop_last());
                    assert(s[s.len() - 1] == u);
                    assert forall|k: int| 0 <= k < stack@.len() implies #[trigger] stack@[k] < n by {
                        assert(s[k] < n);
                    }
                }
                if at[u] != n {
                    assert(order@.contains(u));
                    continue;
                }
                proof {
                    assert(!order@.contains(u)) by {
                        assert(at@[u as int] == n);
                    }
                    lemma_room(order@, u, n as nat);
                    lemma_push_index(at@, order@, n as nat, u);
                    assert(g@.units[u as int] == g.units@[u as int]@);
                    assert(links_in(g@.units[u as int].deps, n as nat));
                }
                at.set(u, order.len());
                order.push(u);
                let ghost rest = stack@;
                push_ends(&mut stack, &g.units[u].deps);
                proof {
                    assert forall|k: int| 0 <= k < stack@.len() implies #[trigger] stack@[k] < n by {
                        if k >= rest.len() {
                            assert(g@.units[u as int].deps[k - rest.len()].0 < n);
                        } else {
                            assert(rest[k] < n);
                        }
                    }
                }
            }
        }
    }
    (order, at)
}

fn place_links(deps: &Vec<UnitDep>, at: &Vec<usize>, Ghost(order): Ghost<Seq<usize>>) -> (r: Vec<UnitDep>)
    requires
        indexes(at@, order, at@.len()),
        forall|k: int| 0 <= k < deps@.len() ==> (#[trigger] deps@[k]).unit < at@.len() && order.contains(deps@[k].unit),
    ensures
        views(r@) == placed_links(order, views(deps@)),
{
    let mut r: Vec<UnitDep> = Vec::new();
    let mut k: usize = 0;
    while k < deps.len()
        invariant
            k <= deps@.len(),
            indexes(at@, order, at@.len()),
            forall|k: int| 0 <= k < deps@.len() ==> (#[trigger] deps@[k]).unit < at@.len() && order.contains(deps@[k].unit),
            r@.len() == k,
            forall|j: int| 0 <= j < k ==> (#[trigger] r@[j])@ == (place(order, deps@[j].unit), deps@[j]@.1),
        decreases deps@.len() - k,
    {
        proof {
            lemma_place(at@, order, at@.len(), deps@[k as int].unit);
        }
        r.push(deps[k].to(at[deps[k].unit]));
        k += 1;
    }
    assert(views(r@) =~= placed_links(order, views(deps@)));
    r
}

fn places_of(s: &Vec<usize>, at: &Vec<usize>, Ghost(order): Ghost<Seq<usize>>) -> (r: Vec<usize>)
    requires
        indexes(at@, order, at@.len()),
        forall|k: int| 0 <= k < s@.len() ==> #[trigger] s@[k] < at@.len() && order.contains(s@[k]),
    ensures
        r@ == places(order, s@),
{
    let mut r: Vec<usize> = Vec::new();
    let mut k: usize = 0;
    while k < s.len()
        invariant
            k <= s@.len(),
            indexes(at@, order, at@.len()),
            forall|k: int| 0 <= k < s@.len() ==> #[trigger] s@[k] < at@.len() && order.contains(s@[k]),
            r@ == places(order, s@).take(k as int),
        decreases s@.len() - k,
    {
        proof {
            lemma_place(at@, order, at@.len(), s@[k as int]);
        }
        r.push(at[s[k]]);
        assert(places(order, s@).take(k + 1) =~= places(order, s@).take(k as int).push(places(order, s@)[k as int]));
        k += 1;
    }
    assert(places(order, s@).take(s@.len() as int) =~= places(order, s@));
    r
}

fn leads_to(deps: &Vec<UnitDep>, u: usize) -> (r: bool)
    ensures
        r == ends_of(views(deps@)).contains(u),
{
    let mut k: usize = 0;
    while k < deps.len()
        invariant
            k <= deps@.len(),
            forall|j: int| 0 <= j < k ==> #[trigger] ends_of(views(deps@))[j] != u,
        decreases deps@.len() - k,
    {
        assert(ends_of(views(deps@))[k as int] == deps@[k as int].unit);
        if deps[k].unit == u {
            return true;
        }
        k += 1;
    }
    false
}

fn keep_first(deps: &Vec<UnitDep>) -> (r: Vec<UnitDep>)
    ensures
        views(r@) == first_links(views(deps@), deps@.len() as int),
{
    let mut r: Vec<UnitDep> = Vec::new();
    let mut k: usize = 0;
    assert(views(r@) =~= Seq::<Link>::empty());
    while k < deps.len()
        invariant
            k <= deps@.len(),
            views(r@) == first_links(views(deps@), k as int),
        decreases deps@.len() - k,
    {
        if !leads_to(&r, deps[k].unit) {
            let ghost before = r@;
            r.push(deps[k].to(deps[k].unit));
            assert(views(r@) =~= views(before).push(deps@[k as int]@));
        }
        k += 1;
    }
    r
}

/// The numbers, each run of one number once.
pub(crate) fn collapse(s: &Vec<usize>) -> (r: Vec<usize>)
    ensures
        r@ == runs(s@, s@.len() as int),
{
    let mut r: Vec<usize> = Vec::new();
    let mut k: usize = 0;
    while k < s.len()
        invariant
            k <= s@.len(),
            r@ == runs(s@, k as int),
        decreases s@.len() - k,
    {
        let repeats: bool = r.len() > 0 && r[r.len() - 1] == s[k];
        if !repeats {
            r.push(s[k]);
        }
        k += 1;
    }
    r
}

/// Drops what nothing reaches.
pub(crate) fn prune(g: &UnitGraph) -> (r: UnitGraph)
    requires
        g@.wf(),
    ensures
        r@ == pruned(g@),
        r@.wf(),
{
    proof {
        lemma_pruned_wf(g@);
    }
    let (order, at) = walk(g);
    let n: usize = g.units.len();
    proof {
        let first = g@.roots + g@.aux_roots;
        assert forall|k: int| 0 <= k < first.len() implies #[trigger] first[k] < n by {
            if k >= g.roots@.len() {
                assert(g@.aux_roots[k - g.roots@.len()] < n);
            } else {
                assert(g@.roots[k] < n);
            }
        }
        lemma_found_ok(g@.units, first, Seq::empty());
        assert forall|u: usize| first.contains(u) implies #[trigger] order@.contains(u) by {
            lemma_found(g@.units, first, Seq::empty(), u);
        }
        assert forall|k: int| 0 <= k < g.roots@.len() implies #[trigger] g.roots@[k] < n && order@.contains(g.roots@[k]) by {
            assert(first[k] == g.roots@[k]);
        }
        assert forall|k: int| 0 <= k < g.aux_roots@.len() implies #[trigger] g.aux_roots@[k] < n && order@.contains(
            g.aux_roots@[k],
        ) by {
            assert(first[g.roots@.len() + k] == g.aux_roots@[k]);
        }
    }
    let mut units: Vec<Unit> = Vec::new();
    let ghost all = pruned(g@).units;
    let mut k: usize = 0;
    while k < order.len()
        invariant
            k <= order@.len(),
            n == g.units@.len() == at@.len(),
            order@ == walk_order(g@),
            indexes(at@, order@, n as nat),
            g@.wf(),
            all == pruned(g@).units,
            units@.len() == k,
            forall|j: int| 0 <= j < k ==> (#[trigger] units@[j])@ == all[j],
            forall|k: int, j: int|
                0 <= k < order@.len() && 0 <= j < g@.units[order@[k] as int].deps.len() ==> order@.contains(
                    (#[trigger] g@.units[order@[k] as int].deps[j]).0,
                ),
        decreases order@.len() - k,
    {
        let u: usize = order[k];
        proof {
            assert(order@[k as int] < n);
            assert(g@.units[u as int] == g.units@[u as int]@);
            assert(links_in(g@.units[u as int].deps, n as nat));
            assert forall|j: int| 0 <= j < g.units@[u as int].deps@.len() implies (#[trigger] g.units@[u as int].deps@[j]).unit
                < at@.len() && order@.contains(g.units@[u as int].deps@[j].unit) by {
                let d = g@.units[order@[k as int] as int].deps[j];
                assert(d == g.units@[u as int].deps@[j]@);
                assert(order@.contains(d.0));
            }
        }
        let moved = place_links(&g.units[u].deps, &at, Ghost(order@));
        let deps = keep_first(&moved);
        assert(views(deps@) == placed_unit(order@, g@.units[u as int]).deps);
        units.push(g.units[u].linking(deps));
        k += 1;
    }
    assert(views(units@) =~= all);
    let roots = places_of(&g.roots, &at, Ghost(order@));
    let aux_roots = places_of(&g.aux_roots, &at, Ghost(order@));
    let mut doctests: Vec<Doctest> = Vec::new();
    k = 0;
    while k < g.doctests.len()
        invariant
            k <= g.doctests@.len(),
            n == g.units@.len() == at@.len(),
            indexes(at@, order@, n as nat),
            g@.wf(),
            forall|k: int| 0 <= k < g.aux_roots@.len() ==> #[trigger] g.aux_roots@[k] < n && order@.contains(g.aux_roots@[k]),
            doctests@.len() == k,
            forall|j: int| 0 <= j < k ==> (#[trigger] doctests@[j])@ == placed_doctest(order@, g@.doctests[j]),
        decreases g.doctests@.len() - k,
    {
        proof {
            let d = g@.doctests[k as int];
            assert(d == g.doctests@[k as int]@);
            assert(g@.kept_for(d));
            assert(g@.aux_roots.contains(d.lib));
            lemma_place(at@, order@, n as nat, d.lib);
            assert forall|j: int| 0 <= j < g.doctests@[k as int].dev_deps@.len() implies (
            #[trigger] g.doctests@[k as int].dev_deps@[j]).unit < at@.len() && order@.contains(
                g.doctests@[k as int].dev_deps@[j].unit,
            ) by {
                assert(d.dev_deps[j] == g.doctests@[k as int].dev_deps@[j]@);
                assert(g@.aux_roots.contains(d.dev_deps[j].0));
            }
        }
        let dev_deps = place_links(&g.doctests[k].dev_deps, &at, Ghost(order@));
        doctests.push(Doctest { pkg: g.doctests[k].pkg, lib: at[g.doctests[k].lib], dev_deps });
        k += 1;
    }
    assert(views(doctests@) =~= pruned(g@).doctests);
    UnitGraph { units, roots: collapse(&roots), aux_roots, doctests }
}

proof fn lemma_first_links(deps: Seq<Link>, k: int, j: int)
    requires
        0 <= k <= deps.len(),
        0 <= j < first_links(deps, k).len(),
    ensures
        deps.contains(first_links(deps, k)[j]),
    decreases k,
{
    if k > 0 {
        let before = first_links(deps, k - 1);
        if j < before.len() {
            lemma_first_links(deps, k - 1, j);
        } else {
            assert(deps[k - 1] == first_links(deps, k)[j]);
        }
    }
}

proof fn lemma_runs(s: Seq<usize>, k: int, j: int)
    requires
        0 <= k <= s.len(),
        0 <= j < runs(s, k).len(),
    ensures
        s.contains(runs(s, k)[j]),
    decreases k,
{
    if k > 0 {
        let before = runs(s, k - 1);
        if j < before.len() {
            lemma_runs(s, k - 1, j);
        } else {
            assert(s[k - 1] == runs(s, k)[j]);
        }
    }
}

/// What the walk leaves is a graph again.
proof fn lemma_pruned_wf(g: GraphView)
    requires
        g.wf(),
    ensures
        pruned(g).wf(),
{
    let order = walk_order(g);
    let n = g.units.len();
    let first = g.roots + g.aux_roots;
    let p = pruned(g);
    assert forall|k: int| 0 <= k < first.len() implies #[trigger] first[k] < n by {
        if k >= g.roots.len() {
            assert(g.aux_roots[k - g.roots.len()] < n);
        } else {
            assert(g.roots[k] < n);
        }
    }
    lemma_found_ok(g.units, first, Seq::empty());
    assert forall|u: usize| first.contains(u) implies #[trigger] order.contains(u) by {
        lemma_found(g.units, first, Seq::empty(), u);
    }
    lemma_short(order, n);
    assert forall|u: int| 0 <= u < p.units.len() implies links_in((#[trigger] p.units[u]).deps, order.len()) by {
        let old_deps = g.units[order[u] as int].deps;
        let moved = placed_links(order, old_deps);
        assert forall|k: int| 0 <= k < p.units[u].deps.len() implies (#[trigger] p.units[u].deps[k]).0 < order.len() by {
            lemma_first_links(moved, moved.len() as int, k);
            let j = choose|j: int| 0 <= j < moved.len() && moved[j] == p.units[u].deps[k];
            let d = g.units[order[u] as int].deps[j];
            assert(order.contains(d.0));
        }
    }
    assert forall|k: int| 0 <= k < g.roots.len() implies order.contains(#[trigger] g.roots[k]) by {
        assert(first[k] == g.roots[k]);
    }
    assert forall|k: int| 0 <= k < g.aux_roots.len() implies order.contains(#[trigger] g.aux_roots[k]) by {
        assert(first[g.roots.len() + k] == g.aux_roots[k]);
    }
    let roots = places(order, g.roots);
    assert forall|k: int| 0 <= k < p.roots.len() implies #[trigger] p.roots[k] < order.len() by {
        lemma_runs(roots, roots.len() as int, k);
        let j = choose|j: int| 0 <= j < roots.len() && roots[j] == p.roots[k];
        assert(order.contains(g.roots[j]));
    }
    assert forall|k: int| 0 <= k < p.aux_roots.len() implies #[trigger] p.aux_roots[k] < order.len() by {
        assert(order.contains(g.aux_roots[k]));
    }
    assert forall|d: int| 0 <= d < p.doctests.len() implies p.kept_for(#[trigger] p.doctests[d]) by {
        let t = g.doctests[d];
        assert(g.kept_for(t));
        let j = choose|j: int| 0 <= j < g.aux_roots.len() && g.aux_roots[j] == t.lib;
        assert(p.aux_roots[j] == place(order, t.lib));
        assert forall|k: int| 0 <= k < p.doctests[d].dev_deps.len() implies p.aux_roots.contains(
            (#[trigger] p.doctests[d].dev_deps[k]).0,
        ) by {
            assert(g.aux_roots.contains(t.dev_deps[k].0));
            let m = choose|m: int| 0 <= m < g.aux_roots.len() && g.aux_roots[m] == t.dev_deps[k].0;
            assert(p.aux_roots[m] == place(order, t.dev_deps[k].0));
        }
    }
}

/// Distinct numbers below `n` are no more than `n`.
proof fn lemma_short(order: Seq<usize>, n: nat)
    requires
        order.no_duplicates(),
        all_in(order, n),
    ensures
        order.len() <= n,
{
    if order.len() > 0 {
        let rest = order.drop_last();
        let u = order.last();
        assert(order[order.len() - 1] == u);
        assert forall|k: int| 0 <= k < rest.len() implies #[trigger] rest[k] < n by {
            assert(order[k] < n);
        }
        assert(!rest.contains(u)) by {
            if rest.contains(u) {
                let k = choose|k: int| 0 <= k < rest.len() && rest[k] == u;
                assert(order[k] == order[order.len() - 1]);
            }
        }
        lemma_room(rest, u, n);
    }
}

/// Each unit is of a target of a package.
pub open spec fn of_packages(pkgs: Seq<Pkg>, units: Seq<UnitView>) -> bool {
    forall|u: int|
        0 <= u < units.len() ==> (#[trigger] units[u]).pkg < pkgs.len() && units[u].target
            < pkgs[units[u].pkg as int].targets@.len()
}

pub(crate) proof fn lemma_pruned_of_packages(pkgs: Seq<Pkg>, g: GraphView)
    requires
        g.wf(),
        of_packages(pkgs, g.units),
    ensures
        of_packages(pkgs, pruned(g).units),
{
    let order = walk_order(g);
    let first = g.roots + g.aux_roots;
    assert forall|k: int| 0 <= k < first.len() implies #[trigger] first[k] < g.units.len() by {
        if k >= g.roots.len() {
            assert(g.aux_roots[k - g.roots.len()] < g.units.len());
        } else {
            assert(g.roots[k] < g.units.len());
        }
    }
    lemma_found_ok(g.units, first, Seq::empty());
    assert forall|u: int| 0 <= u < pruned(g).units.len() implies (#[trigger] pruned(g).units[u]).pkg < pkgs.len()
        && pruned(g).units[u].target < pkgs[pruned(g).units[u].pkg as int].targets@.len() by {
        assert(order[u] < g.units.len());
        assert(g.units[order[u] as int].pkg < pkgs.len());
    }
}

/// A library or the run of a build script, on the host's side. Nothing else is shared.
pub open spec fn may_share(pkgs: Seq<Pkg>, u: UnitView) -> bool {
    let t = pkgs[u.pkg as int].targets@[u.target as int];
    u.for_host && (u.mode == Mode::Build && t.kind == TargetKind::Lib && !t.proc_macro() || u.mode
        == Mode::RunCustomBuild)
}

/// Equal but for what debuginfo changes.
pub open spec fn alike(a: ProfileView, b: ProfileView) -> bool {
    a == (ProfileView { debuginfo: a.debuginfo, split_debuginfo: a.split_debuginfo, strip: a.strip, ..b })
}

/// The links where each unit is replaced by the one that stands for it.
pub open spec fn links_under(alias: Seq<usize>, deps: Seq<Link>) -> Seq<Link> {
    Seq::new(deps.len(), |k: int| (alias[deps[k].0 as int], deps[k].1))
}

/// `v` can stand for `u`: the same thing, linked to the same, compiled for the other side.
pub open spec fn twin(units: Seq<UnitView>, alias: Seq<usize>, u: int, v: int) -> bool {
    let a = units[u];
    let b = units[v];
    &&& !b.for_host
    &&& a.pkg == b.pkg && a.target == b.target && a.kind == b.kind && a.mode == b.mode && a.features == b.features
    &&& alike(b.profile, a.profile)
    &&& links_under(alias, a.deps).to_multiset() == links_under(alias, b.deps).to_multiset()
}

/// The first twin of `u` among the first `k` units.
pub open spec fn first_twin(units: Seq<UnitView>, alias: Seq<usize>, u: int, k: int) -> Option<usize>
    decreases k,
{
    if k <= 0 {
        None
    } else if first_twin(units, alias, u, k - 1).is_some() {
        first_twin(units, alias, u, k - 1)
    } else if twin(units, alias, u, k - 1) {
        Some((k - 1) as usize)
    } else {
        None
    }
}

/// What stands for each unit once the first `k` of the order have looked for their twins.
pub open spec fn aliases(pkgs: Seq<Pkg>, units: Seq<UnitView>, order: Seq<usize>, k: int) -> Seq<usize>
    decreases k,
{
    if k <= 0 || k > order.len() {
        Seq::new(units.len(), |u: int| u as usize)
    } else {
        let before = aliases(pkgs, units, order, k - 1);
        let u = order[k - 1] as int;
        let found = first_twin(units, before, u, units.len() as int);
        if may_share(pkgs, units[u]) && found.is_some() {
            before.update(u, found.unwrap())
        } else {
            before
        }
    }
}

pub open spec fn ends_under(alias: Seq<usize>, s: Seq<usize>) -> Seq<usize> {
    Seq::new(s.len(), |k: int| alias[s[k] as int])
}

/// The graph where each unit is replaced by the one that stands for it.
pub open spec fn aliased(alias: Seq<usize>, g: GraphView) -> GraphView {
    GraphView {
        units: Seq::new(
            g.units.len(),
            |u: int| UnitView { deps: links_under(alias, g.units[u].deps), ..g.units[u] },
        ),
        roots: ends_under(alias, g.roots),
        aux_roots: ends_under(alias, g.aux_roots),
        doctests: Seq::new(
            g.doctests.len(),
            |k: int|
                DoctestView {
                    pkg: g.doctests[k].pkg,
                    lib: alias[g.doctests[k].lib as int],
                    dev_deps: links_under(alias, g.doctests[k].dev_deps),
                },
        ),
    }
}

/// The graph where a host unit that matches a target's unit apart from debuginfo became that unit. Units
/// look for their twins in this order.
pub open spec fn shared(pkgs: Seq<Pkg>, g: GraphView, order: Seq<usize>) -> GraphView {
    pruned(aliased(aliases(pkgs, g.units, order, order.len() as int), g))
}

fn same_except_debuginfo(a: &Profile, b: &Profile) -> (r: bool)
    ensures
        r == alike(a@, b@),
{
    same(a.name.as_str(), b.name.as_str()) && same(a.root.as_str(), b.root.as_str()) && same(
        a.opt_level.as_str(),
        b.opt_level.as_str(),
    ) && a.debug_assertions == b.debug_assertions && a.overflow_checks == b.overflow_checks && a.lto == b.lto && same(
        a.panic.as_str(),
        b.panic.as_str(),
    ) && a.codegen_units == b.codegen_units && a.incremental == b.incremental && a.rpath == b.rpath && same_opt(
        &a.codegen_backend,
        &b.codegen_backend,
    ) && same_list(&a.rustflags, &b.rustflags)
}

/// How often a link occurs under the aliases.
fn count_link(deps: &Vec<UnitDep>, alias: &Vec<usize>, unit: usize, name: &Option<String>) -> (r: usize)
    requires
        links_in(views(deps@), alias@.len()),
    ensures
        r == links_under(alias@, views(deps@)).to_multiset().count((unit, opt_view(*name))),
{
    let ghost all = links_under(alias@, views(deps@));
    let ghost x = (unit, opt_view(*name));
    let mut r: usize = 0;
    let mut k: usize = 0;
    proof {
        all.take(0).to_multiset_ensures();
        assert(all.take(0) =~= Seq::<Link>::empty());
    }
    while k < deps.len()
        invariant
            links_in(views(deps@), alias@.len()),
            k <= deps@.len(),
            r <= k,
            all == links_under(alias@, views(deps@)),
            x == (unit, opt_view(*name)),
            r == all.take(k as int).to_multiset().count(x),
        decreases deps@.len() - k,
    {
        proof {
            assert(all.take(k + 1) =~= all.take(k as int).push(all[k as int]));
            all.take(k as int).to_multiset_ensures();
            assert(views(deps@)[k as int] == deps@[k as int]@);
            assert(views(deps@)[k as int].0 < alias@.len());
        }
        if alias[deps[k].unit] == unit && same_opt(&deps[k].extern_name, name) {
            r += 1;
        }
        k += 1;
    }
    assert(all.take(all.len() as int) =~= all);
    r
}

/// Whether every link of `a` occurs as often in `b`.
fn counts_agree(a: &Vec<UnitDep>, b: &Vec<UnitDep>, alias: &Vec<usize>) -> (r: bool)
    requires
        links_in(views(a@), alias@.len()),
        links_in(views(b@), alias@.len()),
    ensures
        r == forall|k: int|
            0 <= k < a@.len() ==> links_under(alias@, views(a@)).to_multiset().count(
                #[trigger] links_under(alias@, views(a@))[k],
            ) == links_under(alias@, views(b@)).to_multiset().count(links_under(alias@, views(a@))[k]),
{
    let mut k: usize = 0;
    while k < a.len()
        invariant
            links_in(views(a@), alias@.len()),
            links_in(views(b@), alias@.len()),
            k <= a@.len(),
            forall|j: int|
                0 <= j < k ==> links_under(alias@, views(a@)).to_multiset().count(
                    #[trigger] links_under(alias@, views(a@))[j],
                ) == links_under(alias@, views(b@)).to_multiset().count(links_under(alias@, views(a@))[j]),
        decreases a@.len() - k,
    {
        assert(views(a@)[k as int] == a@[k as int]@);
        assert(views(a@)[k as int].0 < alias@.len());
        let unit: usize = alias[a[k].unit];
        assert(links_under(alias@, views(a@))[k as int] == (unit, opt_view(a@[k as int].extern_name)));
        if count_link(a, alias, unit, &a[k].extern_name) != count_link(b, alias, unit, &a[k].extern_name) {
            return false;
        }
        k += 1;
    }
    true
}

fn same_links(a: &Vec<UnitDep>, b: &Vec<UnitDep>, alias: &Vec<usize>) -> (r: bool)
    requires
        links_in(views(a@), alias@.len()),
        links_in(views(b@), alias@.len()),
    ensures
        r == (links_under(alias@, views(a@)).to_multiset() == links_under(alias@, views(b@)).to_multiset()),
{
    let r: bool = counts_agree(a, b, alias) && counts_agree(b, a, alias);
    proof {
        let s = links_under(alias@, views(a@));
        let t = links_under(alias@, views(b@));
        s.to_multiset_ensures();
        t.to_multiset_ensures();
        if r {
            assert forall|x: Link| s.to_multiset().count(x) == #[trigger] t.to_multiset().count(x) by {
                if s.contains(x) {
                    let k = choose|k: int| 0 <= k < s.len() && s[k] == x;
                    assert(s.to_multiset().count(s[k]) == t.to_multiset().count(s[k]));
                } else if t.contains(x) {
                    let k = choose|k: int| 0 <= k < t.len() && t[k] == x;
                    assert(t.to_multiset().count(t[k]) == s.to_multiset().count(t[k]));
                }
            }
            assert(s.to_multiset() =~= t.to_multiset());
        }
    }
    r
}

fn find_twin(g: &UnitGraph, alias: &Vec<usize>, u: usize) -> (r: Option<usize>)
    requires
        g@.wf(),
        u < g.units@.len(),
        alias@.len() == g.units@.len(),
    ensures
        r == first_twin(g@.units, alias@, u as int, g.units@.len() as int),
{
    let n: usize = g.units.len();
    let ghost units = g@.units;
    let mut v: usize = 0;
    while v < n
        invariant
            v <= n,
            n == g.units@.len() == alias@.len(),
            g@.wf(),
            u < n,
            units == g@.units,
            first_twin(units, alias@, u as int, v as int).is_none(),
        decreases n - v,
    {
        let a = &g.units[u];
        let b = &g.units[v];
        proof {
            assert(units[u as int] == a@ && units[v as int] == b@);
            assert(links_in(units[u as int].deps, n as nat));
            assert(links_in(units[v as int].deps, n as nat));
        }
        let fits: bool = !b.for_host && a.pkg == b.pkg && a.target == b.target && a.kind == b.kind && a.mode == b.mode
            && same_list(&a.features, &b.features) && same_except_debuginfo(&b.profile, &a.profile) && same_links(
            &a.deps,
            &b.deps,
            alias,
        );
        assert(fits == twin(units, alias@, u as int, v as int));
        if fits {
            proof {
                lemma_twin_stays(units, alias@, u as int, v + 1, n as int);
            }
            return Some(v);
        }
        v += 1;
    }
    None
}

proof fn lemma_twin_stays(units: Seq<UnitView>, alias: Seq<usize>, u: int, k: int, n: int)
    requires
        0 < k <= n,
        first_twin(units, alias, u, k).is_some(),
    ensures
        first_twin(units, alias, u, n) == first_twin(units, alias, u, k),
    decreases n - k,
{
    if k < n {
        lemma_twin_stays(units, alias, u, k + 1, n);
    }
}

proof fn lemma_twin_in_range(units: Seq<UnitView>, alias: Seq<usize>, u: int, k: int)
    requires
        0 <= k <= units.len() <= usize::MAX,
    ensures
        match first_twin(units, alias, u, k) {
            Some(v) => v < k && twin(units, alias, u, v as int),
            None => true,
        },
    decreases k,
{
    if k > 0 {
        lemma_twin_in_range(units, alias, u, k - 1);
    }
}

proof fn lemma_aliased_wf(alias: Seq<usize>, g: GraphView)
    requires
        g.wf(),
        alias.len() == g.units.len(),
        all_in(alias, alias.len()),
    ensures
        aliased(alias, g).wf(),
{
    let p = aliased(alias, g);
    let n = g.units.len();
    assert forall|u: int| 0 <= u < n implies links_in((#[trigger] p.units[u]).deps, n) by {
        assert(links_in(g.units[u].deps, n));
        assert forall|k: int| 0 <= k < p.units[u].deps.len() implies (#[trigger] p.units[u].deps[k]).0 < n by {
            assert(g.units[u].deps[k].0 < n);
        }
    }
    assert forall|k: int| 0 <= k < p.roots.len() implies #[trigger] p.roots[k] < n by {
        assert(g.roots[k] < n);
    }
    assert forall|k: int| 0 <= k < p.aux_roots.len() implies #[trigger] p.aux_roots[k] < n by {
        assert(g.aux_roots[k] < n);
    }
    assert forall|d: int| 0 <= d < p.doctests.len() implies p.kept_for(#[trigger] p.doctests[d]) by {
        let t = g.doctests[d];
        assert(g.kept_for(t));
        let j = choose|j: int| 0 <= j < g.aux_roots.len() && g.aux_roots[j] == t.lib;
        assert(p.aux_roots[j] == p.doctests[d].lib);
        assert forall|k: int| 0 <= k < p.doctests[d].dev_deps.len() implies p.aux_roots.contains(
            (#[trigger] p.doctests[d].dev_deps[k]).0,
        ) by {
            assert(g.aux_roots.contains(t.dev_deps[k].0));
            let m = choose|m: int| 0 <= m < g.aux_roots.len() && g.aux_roots[m] == t.dev_deps[k].0;
            assert(p.aux_roots[m] == p.doctests[d].dev_deps[k].0);
        }
    }
}

fn alias_links(deps: &Vec<UnitDep>, alias: &Vec<usize>) -> (r: Vec<UnitDep>)
    requires
        links_in(views(deps@), alias@.len()),
    ensures
        views(r@) == links_under(alias@, views(deps@)),
{
    let mut r: Vec<UnitDep> = Vec::new();
    let mut k: usize = 0;
    while k < deps.len()
        invariant
            k <= deps@.len(),
            links_in(views(deps@), alias@.len()),
            r@.len() == k,
            forall|j: int| 0 <= j < k ==> (#[trigger] r@[j])@ == links_under(alias@, views(deps@))[j],
        decreases deps@.len() - k,
    {
        assert(views(deps@)[k as int] == deps@[k as int]@);
        assert(views(deps@)[k as int].0 < alias@.len());
        r.push(deps[k].to(alias[deps[k].unit]));
        k += 1;
    }
    assert(views(r@) =~= links_under(alias@, views(deps@)));
    r
}

fn alias_ends(s: &Vec<usize>, alias: &Vec<usize>) -> (r: Vec<usize>)
    requires
        all_in(s@, alias@.len()),
    ensures
        r@ == ends_under(alias@, s@),
{
    let mut r: Vec<usize> = Vec::new();
    let mut k: usize = 0;
    while k < s.len()
        invariant
            k <= s@.len(),
            all_in(s@, alias@.len()),
            r@.len() == k,
            forall|j: int| 0 <= j < k ==> #[trigger] r@[j] == ends_under(alias@, s@)[j],
        decreases s@.len() - k,
    {
        assert(s@[k as int] < alias@.len());
        r.push(alias[s[k]]);
        k += 1;
    }
    assert(r@ =~= ends_under(alias@, s@));
    r
}

pub(crate) fn apply_aliases(g: &UnitGraph, alias: &Vec<usize>) -> (r: UnitGraph)
    requires
        g@.wf(),
        alias@.len() == g.units@.len(),
    ensures
        r@ == aliased(alias@, g@),
{
    let n: usize = g.units.len();
    let mut units: Vec<Unit> = Vec::new();
    let mut k: usize = 0;
    while k < n
        invariant
            k <= n,
            n == g.units@.len() == alias@.len(),
            g@.wf(),
            units@.len() == k,
            forall|j: int| 0 <= j < k ==> (#[trigger] units@[j])@ == aliased(alias@, g@).units[j],
        decreases n - k,
    {
        assert(g@.units[k as int] == g.units@[k as int]@);
        assert(links_in(g@.units[k as int].deps, n as nat));
        let deps = alias_links(&g.units[k].deps, alias);
        units.push(g.units[k].linking(deps));
        k += 1;
    }
    assert(views(units@) =~= aliased(alias@, g@).units);
    let mut doctests: Vec<Doctest> = Vec::new();
    k = 0;
    while k < g.doctests.len()
        invariant
            k <= g.doctests@.len(),
            alias@.len() == g.units@.len(),
            g@.wf(),
            doctests@.len() == k,
            forall|j: int| 0 <= j < k ==> (#[trigger] doctests@[j])@ == aliased(alias@, g@).doctests[j],
        decreases g.doctests@.len() - k,
    {
        proof {
            let d = g@.doctests[k as int];
            assert(d == g.doctests@[k as int]@);
            assert(g@.kept_for(d));
            assert(d.lib < alias@.len());
            assert forall|j: int| 0 <= j < d.dev_deps.len() implies (#[trigger] d.dev_deps[j]).0 < alias@.len() by {
                assert(g@.aux_roots.contains(d.dev_deps[j].0));
            }
        }
        let dev_deps = alias_links(&g.doctests[k].dev_deps, alias);
        doctests.push(Doctest { pkg: g.doctests[k].pkg, lib: alias[g.doctests[k].lib], dev_deps });
        k += 1;
    }
    assert(views(doctests@) =~= aliased(alias@, g@).doctests);
    UnitGraph { units, roots: alias_ends(&g.roots, alias), aux_roots: alias_ends(&g.aux_roots, alias), doctests }
}

/// A host lib that matches a target lib apart from debuginfo becomes that one unit. Then drop whatever
/// nothing reaches. Dependencies first: a host unit can only become the target unit if its deps already
/// did, or the host side would see two copies of one crate.
pub(crate) fn share_host_units(g: &UnitGraph, pkgs: &Vec<Pkg>) -> (r: UnitGraph)
    requires
        g@.wf(),
        of_packages(pkgs@, g@.units),
    ensures
        r@ == shared(pkgs@, g@, depth_first(g.units@)),
{
    let n: usize = g.units.len();
    proof {
        assert forall|u: int, k: int| 0 <= u < n && 0 <= k < g.units@[u].deps@.len() implies (
        #[trigger] g.units@[u].deps@[k]).unit < n by {
            assert(links_in(g@.units[u].deps, n as nat));
            assert(g@.units[u].deps[k] == g.units@[u].deps@[k]@);
        }
    }
    let order = topo_order(&g.units);
    let mut alias: Vec<usize> = Vec::new();
    while alias.len() < n
        invariant
            alias@.len() <= n,
            forall|k: int| 0 <= k < alias@.len() ==> #[trigger] alias@[k] == k,
        decreases n - alias@.len(),
    {
        alias.push(alias.len());
    }
    assert(alias@ =~= aliases(pkgs@, g@.units, order@, 0));
    let mut k: usize = 0;
    while k < order.len()
        invariant
            k <= order@.len(),
            n == g.units@.len() == alias@.len(),
            g@.wf(),
            of_packages(pkgs@, g@.units),
            each_once(g.units@.len(), order@),
            all_in(alias@, n as nat),
            alias@ == aliases(pkgs@, g@.units, order@, k as int),
        decreases order@.len() - k,
    {
        let i: usize = order[k];
        let u = &g.units[i];
        assert(g@.units[i as int] == u@);
        let t = &pkgs[u.pkg].targets[u.target];
        let lib: bool = u.mode == Mode::Build && t.kind == TargetKind::Lib && !t.is_proc_macro();
        if u.for_host && (lib || u.mode == Mode::RunCustomBuild) {
            proof {
                lemma_twin_in_range(g@.units, alias@, i as int, n as int);
            }
            let ghost before = alias@;
            match find_twin(g, &alias, i) {
                Some(v) => {
                    alias.set(i, v);
                    assert forall|j: int| 0 <= j < alias@.len() implies #[trigger] alias@[j] < n by {
                        if j != i {
                            assert(before[j] < n);
                        }
                    }
                }
                None => {}
            }
        }
        k += 1;
    }
    proof {
        lemma_aliased_wf(alias@, g@);
    }
    let replaced = apply_aliases(g, &alias);
    let r = prune(&replaced);
    assert(r@ == shared(pkgs@, g@, order@));
    r
}

/// Both document a crate of the same name.
pub open spec fn same_docs(pkgs: Seq<Pkg>, a: UnitView, b: UnitView) -> bool {
    a.mode == Mode::Doc && b.mode == Mode::Doc && swapped(
        pkgs[a.pkg as int].targets@[a.target as int].name@,
        '-',
        '_',
    ) == swapped(pkgs[b.pkg as int].targets@[b.target as int].name@, '-', '_')
}

/// Documentation for the host that nothing asked for, where there is no other platform.
pub open spec fn host_docs(g: GraphView, no_target: bool, u: int) -> bool {
    no_target && g.units[u].kind == CompileKind::Host && !g.roots.contains(u as usize)
}

/// `v` documents a later version of what `u` documents, for the same platform, and stays.
pub open spec fn newer_docs(pkgs: Seq<Pkg>, g: GraphView, no_target: bool, u: int, v: int) -> bool {
    let p = pkgs[g.units[u].pkg as int];
    let q = pkgs[g.units[v].pkg as int];
    &&& same_docs(pkgs, g.units[u], g.units[v])
    &&& !host_docs(g, no_target, v)
    &&& p.name@ == q.name@ && p.source@ == q.source@ && g.units[u].kind == g.units[v].kind
    &&& older(p.version@, q.version@)
}

pub open spec fn has_rival(pkgs: Seq<Pkg>, g: GraphView, u: int) -> bool {
    exists|v: int| 0 <= v < g.units.len() && v != u && same_docs(pkgs, g.units[u], #[trigger] g.units[v])
}

pub open spec fn has_newer(pkgs: Seq<Pkg>, g: GraphView, no_target: bool, u: int) -> bool {
    exists|v: int| 0 <= v < g.units.len() && #[trigger] newer_docs(pkgs, g, no_target, u, v)
}

/// Two units would document crates of one name: this one gives way.
pub open spec fn redundant(pkgs: Seq<Pkg>, g: GraphView, no_target: bool, u: int) -> bool {
    &&& g.units[u].mode == Mode::Doc
    &&& !g.roots.contains(u as usize)
    &&& has_rival(pkgs, g, u)
    &&& host_docs(g, no_target, u) || has_newer(pkgs, g, no_target, u)
}

/// Those of the first `k` links that lead to units that stay.
pub open spec fn kept_links(gone: Set<usize>, deps: Seq<Link>, k: int) -> Seq<Link>
    decreases k,
{
    if k <= 0 || k > deps.len() {
        Seq::empty()
    } else {
        let before = kept_links(gone, deps, k - 1);
        if gone.contains(deps[k - 1].0) {
            before
        } else {
            before.push(deps[k - 1])
        }
    }
}

pub open spec fn unlinked(gone: Set<usize>, g: GraphView) -> GraphView {
    GraphView {
        units: Seq::new(
            g.units.len(),
            |u: int| UnitView { deps: kept_links(gone, g.units[u].deps, g.units[u].deps.len() as int), ..g.units[u] },
        ),
        ..g
    }
}

/// The graph where each crate name is documented once.
pub open spec fn documented_once(pkgs: Seq<Pkg>, g: GraphView, no_target: bool) -> GraphView {
    let gone = Set::new(|u: usize| u < g.units.len() && redundant(pkgs, g, no_target, u as int));
    pruned(unlinked(gone, g))
}

fn shares_docs(g: &UnitGraph, pkgs: &Vec<Pkg>, u: usize, v: usize) -> (r: bool)
    requires
        of_packages(pkgs@, g@.units),
        u < g.units@.len(),
        v < g.units@.len(),
    ensures
        r == same_docs(pkgs@, g@.units[u as int], g@.units[v as int]),
{
    let a = &g.units[u];
    let b = &g.units[v];
    assert(g@.units[u as int] == a@ && g@.units[v as int] == b@);
    a.mode == Mode::Doc && b.mode == Mode::Doc && same(
        pkgs[a.pkg].targets[a.target].crate_name().as_str(),
        pkgs[b.pkg].targets[b.target].crate_name().as_str(),
    )
}

fn docs_for_host(g: &UnitGraph, no_target: bool, u: usize) -> (r: bool)
    requires
        u < g.units@.len(),
    ensures
        r == host_docs(g@, no_target, u as int),
{
    assert(g@.units[u as int] == g.units@[u as int]@);
    let asked: bool = has(&g.roots, u);
    no_target && g.units[u].kind == CompileKind::Host && !asked
}

fn gives_way(g: &UnitGraph, pkgs: &Vec<Pkg>, no_target: bool, u: usize) -> (r: bool)
    requires
        of_packages(pkgs@, g@.units),
        u < g.units@.len(),
    ensures
        r == redundant(pkgs@, g@, no_target, u as int),
{
    assert(g@.units[u as int] == g.units@[u as int]@);
    if g.units[u].mode != Mode::Doc || has(&g.roots, u) {
        return false;
    }
    let host: bool = docs_for_host(g, no_target, u);
    let n: usize = g.units.len();
    let mut rival: bool = false;
    let mut newer: bool = false;
    let mut v: usize = 0;
    while v < n
        invariant
            v <= n,
            n == g.units@.len(),
            u < n,
            of_packages(pkgs@, g@.units),
            rival == exists|w: int| 0 <= w < v && w != u && same_docs(pkgs@, g@.units[u as int], #[trigger] g@.units[w]),
            newer == exists|w: int| 0 <= w < v && #[trigger] newer_docs(pkgs@, g@, no_target, u as int, w),
        decreases n - v,
    {
        proof {
            assert(g@.units[u as int] == g.units@[u as int]@);
            assert(g@.units[v as int] == g.units@[v as int]@);
        }
        if shares_docs(g, pkgs, u, v) {
            if v != u {
                rival = true;
            }
            let p = &pkgs[g.units[u].pkg];
            let q = &pkgs[g.units[v].pkg];
            let later: bool = !docs_for_host(g, no_target, v) && same(p.name.as_str(), q.name.as_str())
                && p.source.same_as(&q.source) && g.units[u].kind == g.units[v].kind && p.version.before(&q.version);
            assert(later == newer_docs(pkgs@, g@, no_target, u as int, v as int));
            if later {
                newer = true;
            }
        }
        v += 1;
    }
    rival && (host || newer)
}

fn drop_links(deps: &Vec<UnitDep>, gone: &Vec<bool>, Ghost(set): Ghost<Set<usize>>) -> (r: Vec<UnitDep>)
    requires
        links_in(views(deps@), gone@.len()),
        forall|u: usize| u < gone@.len() ==> set.contains(u) == #[trigger] gone@[u as int],
    ensures
        views(r@) == kept_links(set, views(deps@), deps@.len() as int),
{
    let mut r: Vec<UnitDep> = Vec::new();
    let mut k: usize = 0;
    assert(views(r@) =~= Seq::<Link>::empty());
    while k < deps.len()
        invariant
            k <= deps@.len(),
            links_in(views(deps@), gone@.len()),
            forall|u: usize| u < gone@.len() ==> set.contains(u) == #[trigger] gone@[u as int],
            views(r@) == kept_links(set, views(deps@), k as int),
        decreases deps@.len() - k,
    {
        assert(views(deps@)[k as int] == deps@[k as int]@);
        assert(views(deps@)[k as int].0 < gone@.len());
        let unit: usize = deps[k].unit;
        if !gone[unit] {
            let ghost before = r@;
            r.push(deps[k].to(unit));
            assert(views(r@) =~= views(before).push(deps@[k as int]@));
        }
        k += 1;
    }
    r
}

proof fn lemma_kept_links(gone: Set<usize>, deps: Seq<Link>, k: int, n: nat)
    requires
        links_in(deps, n),
        0 <= k <= deps.len(),
    ensures
        links_in(kept_links(gone, deps, k), n),
    decreases k,
{
    if k > 0 {
        lemma_kept_links(gone, deps, k - 1, n);
        assert(deps[k - 1].0 < n);
    }
}

/// Units that would document the same crate name: the host's give way where there is no other platform,
/// and so do older versions. Roots stay.
pub(crate) fn remove_duplicate_docs(g: &UnitGraph, pkgs: &Vec<Pkg>, no_target: bool) -> (r: UnitGraph)
    requires
        g@.wf(),
        of_packages(pkgs@, g@.units),
    ensures
        r@ == documented_once(pkgs@, g@, no_target),
        r@.wf(),
        of_packages(pkgs@, r@.units),
{
    let n: usize = g.units.len();
    let ghost set = Set::new(|u: usize| u < g@.units.len() && redundant(pkgs@, g@, no_target, u as int));
    let mut gone: Vec<bool> = Vec::new();
    while gone.len() < n
        invariant
            gone@.len() <= n,
            n == g.units@.len(),
            of_packages(pkgs@, g@.units),
            forall|k: int| 0 <= k < gone@.len() ==> #[trigger] gone@[k] == redundant(pkgs@, g@, no_target, k),
        decreases n - gone@.len(),
    {
        let u: usize = gone.len();
        gone.push(gives_way(g, pkgs, no_target, u));
    }
    assert forall|u: usize| u < gone@.len() implies set.contains(u) == #[trigger] gone@[u as int] by {}
    let ghost cut = unlinked(set, g@);
    let mut units: Vec<Unit> = Vec::new();
    while units.len() < n
        invariant
            units@.len() <= n,
            n == g.units@.len() == gone@.len(),
            g@.wf(),
            forall|u: usize| u < gone@.len() ==> set.contains(u) == #[trigger] gone@[u as int],
            cut == unlinked(set, g@),
            forall|j: int| 0 <= j < units@.len() ==> (#[trigger] units@[j])@ == cut.units[j],
        decreases n - units@.len(),
    {
        let u: usize = units.len();
        assert(g@.units[u as int] == g.units@[u as int]@);
        assert(links_in(g@.units[u as int].deps, n as nat));
        let deps = drop_links(&g.units[u].deps, &gone, Ghost(set));
        units.push(g.units[u].linking(deps));
    }
    assert(views(units@) =~= cut.units);
    let none: Vec<usize> = Vec::new();
    let mut doctests: Vec<Doctest> = Vec::new();
    let mut k: usize = 0;
    while k < g.doctests.len()
        invariant
            k <= g.doctests@.len(),
            doctests@.len() == k,
            forall|j: int| 0 <= j < k ==> (#[trigger] doctests@[j])@ == g@.doctests[j],
        decreases g.doctests@.len() - k,
    {
        let dev_deps = dup_links(&g.doctests[k].dev_deps);
        doctests.push(Doctest { pkg: g.doctests[k].pkg, lib: g.doctests[k].lib, dev_deps });
        k += 1;
    }
    assert(views(doctests@) =~= g@.doctests);
    let next = UnitGraph { units, roots: list_of(&g.roots, &none), aux_roots: list_of(&g.aux_roots, &none), doctests };
    proof {
        assert(g.roots@ + Seq::<usize>::empty() =~= g.roots@);
        assert(g.aux_roots@ + Seq::<usize>::empty() =~= g.aux_roots@);
        assert(next@ == cut);
        assert forall|u: int| 0 <= u < cut.units.len() implies links_in((#[trigger] cut.units[u]).deps, n as nat) by {
            assert(links_in(g@.units[u].deps, n as nat));
            lemma_kept_links(set, g@.units[u].deps, g@.units[u].deps.len() as int, n as nat);
        }
        assert forall|d: int| 0 <= d < cut.doctests.len() implies cut.kept_for(#[trigger] cut.doctests[d]) by {
            assert(g@.kept_for(g@.doctests[d]));
        }
        assert(cut.wf());
        assert forall|u: int| 0 <= u < cut.units.len() implies (#[trigger] cut.units[u]).pkg < pkgs@.len()
            && cut.units[u].target < pkgs@[cut.units[u].pkg as int].targets@.len() by {
            assert(g@.units[u].pkg < pkgs@.len());
        }
        lemma_pruned_of_packages(pkgs@, cut);
    }
    prune(&next)
}

fn dup_links(deps: &Vec<UnitDep>) -> (r: Vec<UnitDep>)
    ensures
        views(r@) == views(deps@),
{
    let mut r: Vec<UnitDep> = Vec::new();
    while r.len() < deps.len()
        invariant
            r@.len() <= deps@.len(),
            forall|j: int| 0 <= j < r@.len() ==> (#[trigger] r@[j])@ == deps@[j]@,
        decreases deps@.len() - r@.len(),
    {
        let d = &deps[r.len()];
        r.push(d.to(d.unit));
    }
    assert(views(r@) =~= views(deps@));
    r
}

} // verus!
