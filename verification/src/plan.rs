//! The order of units, how they take part in link-time optimization, and their command lines.

use vstd::prelude::*;
use crate::manifest::Target;
use crate::manifest::TargetKind;
use crate::manifest::any_is;
use crate::profile::Lto;
use crate::profile::dup_list;
use crate::sets::insert;
use crate::sets::rising;
use crate::text::same;
use crate::text::views;
use crate::unit::Mode;
use crate::unit::Unit;
use crate::unit::UnitGraph;
use crate::workspace::Pkg;
use crate::workspace::Workspace;

verus! {

/// `d` is a dependency of `u`.
pub open spec fn needs(units: Seq<Unit>, u: int, d: int) -> bool {
    exists|k: int| 0 <= k < units[u].deps@.len() && (#[trigger] units[u].deps@[k]).unit == d
}

/// Each unit of the list needs the next.
pub open spec fn is_path(units: Seq<Unit>, s: Seq<int>) -> bool {
    &&& s.len() > 0
    &&& forall|k: int| 0 <= k < s.len() ==> 0 <= #[trigger] s[k] < units.len()
    &&& forall|i: int, j: int| 0 <= i && j == i + 1 && j < s.len() ==> needs(units, #[trigger] s[i], #[trigger] s[j])
}

/// `a` needs `b`, directly or through others; or it is `b`.
pub open spec fn reaches(units: Seq<Unit>, a: int, b: int) -> bool {
    exists|s: Seq<int>| #[trigger] is_path(units, s) && s.first() == a && s.last() == b
}

/// No unit needs itself, directly or through others.
pub open spec fn acyclic(units: Seq<Unit>) -> bool {
    forall|u: int, d: int| 0 <= u < units.len() && #[trigger] needs(units, u, d) ==> !reaches(units, d, u)
}

/// Every dependency is a unit.
pub open spec fn deps_in_range(units: Seq<Unit>) -> bool {
    forall|u: int, k: int|
        0 <= u < units.len() && 0 <= k < units[u].deps@.len() ==> (#[trigger] units[u].deps@[k]).unit < units.len()
}

/// Each unit comes after what it needs, unless that needs the unit in turn.
pub open spec fn deps_first(units: Seq<Unit>, out: Seq<usize>) -> bool {
    forall|k: int, d: int|
        0 <= k < out.len() && #[trigger] needs(units, out[k] as int, d) ==> out.take(k).contains(d as usize)
            || reaches(units, d, out[k] as int)
}

/// Every unit once.
pub open spec fn each_once(n: nat, out: Seq<usize>) -> bool {
    &&& out.no_duplicates()
    &&& forall|k: int| 0 <= k < out.len() ==> #[trigger] out[k] < n
    &&& forall|u: usize| u < n ==> #[trigger] out.contains(u)
}

/// What the walk has done: units that were entered and not left are on the way down.
spec fn walking(units: Seq<Unit>, seen: Seq<bool>, out: Seq<usize>, way: Seq<int>) -> bool {
    &&& deps_in_range(units)
    &&& seen.len() == units.len() <= usize::MAX
    &&& out.no_duplicates()
    &&& forall|k: int| 0 <= k < out.len() ==> #[trigger] out[k] < units.len() && seen[out[k] as int]
    &&& forall|u: int| 0 <= u < units.len() && #[trigger] seen[u] ==> out.contains(u as usize) || way.contains(u)
    &&& forall|k: int| 0 <= k < way.len() ==> 0 <= #[trigger] way[k] < units.len() && seen[way[k]] && !out.contains(
        way[k] as usize,
    )
    &&& way.len() > 0 ==> is_path(units, way)
    &&& deps_first(units, out)
}

pub open spec fn unseen(seen: Seq<bool>, n: int) -> int
    decreases n,
{
    if n <= 0 {
        0
    } else {
        unseen(seen, n - 1) + if seen[n - 1] {
            0int
        } else {
            1int
        }
    }
}

proof fn lemma_unseen_less(a: Seq<bool>, b: Seq<bool>, n: int)
    requires
        0 <= n <= a.len(),
        a.len() == b.len(),
        forall|k: int| 0 <= k < a.len() && #[trigger] a[k] ==> b[k],
    ensures
        0 <= unseen(b, n) <= unseen(a, n),
    decreases n,
{
    if n > 0 {
        lemma_unseen_less(a, b, n - 1);
    }
}

proof fn lemma_unseen_update(a: Seq<bool>, u: int, n: int)
    requires
        0 <= u < a.len(),
        0 <= n <= a.len(),
        !a[u],
    ensures
        unseen(a.update(u, true), n) == unseen(a, n) - if u < n {
            1int
        } else {
            0int
        },
    decreases n,
{
    if n > 0 {
        lemma_unseen_update(a, u, n - 1);
    }
}

/// A path stays one with a unit at its end that the last one needs.
proof fn lemma_path_push(units: Seq<Unit>, way: Seq<int>, u: int)
    requires
        0 <= u < units.len(),
        way.len() > 0 ==> is_path(units, way) && needs(units, way.last(), u),
    ensures
        is_path(units, way.push(u)),
{
    let s = way.push(u);
    assert forall|i: int, j: int| 0 <= i && j == i + 1 && j < s.len() implies needs(
        units,
        #[trigger] s[i],
        #[trigger] s[j],
    ) by {
        if j < way.len() {
            assert(needs(units, way[i], way[j]));
        }
    }
}

/// What is on the way down reaches its end.
proof fn lemma_on_way(units: Seq<Unit>, way: Seq<int>, k: int)
    requires
        is_path(units, way),
        0 <= k < way.len(),
    ensures
        reaches(units, way[k], way.last()),
{
    let s = way.skip(k);
    assert forall|i: int, j: int| 0 <= i && j == i + 1 && j < s.len() implies needs(
        units,
        #[trigger] s[i],
        #[trigger] s[j],
    ) by {
        assert(needs(units, way[k + i], way[k + j]));
    }
    assert(is_path(units, s));
    assert(s.first() == way[k] && s.last() == way.last());
}

/// What was seen stays seen.
spec fn still_seen(a: Seq<bool>, b: Seq<bool>) -> bool {
    a.len() == b.len() && forall|k: int| 0 <= k < a.len() && a[k] ==> #[trigger] b[k]
}

proof fn lemma_enter(units: Seq<Unit>, seen: Seq<bool>, out: Seq<usize>, way: Seq<int>, u: usize)
    requires
        walking(units, seen, out, way),
        u < units.len(),
        !seen[u as int],
        way.len() > 0 ==> needs(units, way.last(), u as int),
    ensures
        walking(units, seen.update(u as int, true), out, way.push(u as int)),
{
    let down = way.push(u as int);
    let after = seen.update(u as int, true);
    lemma_path_push(units, way, u as int);
    assert(!out.contains(u));
    assert forall|x: int| 0 <= x < units.len() && #[trigger] after[x] implies out.contains(x as usize)
        || down.contains(x) by {
        if x == u {
            assert(down[way.len() as int] == u as int);
        } else {
            assert(seen[x]);
            if way.contains(x) {
                let j = choose|j: int| 0 <= j < way.len() && way[j] == x;
                assert(down[j] == x);
            }
        }
    }
    assert forall|k: int| 0 <= k < down.len() implies 0 <= #[trigger] down[k] < units.len() && after[down[k]]
        && !out.contains(down[k] as usize) by {
        if k < way.len() {
            assert(down[k] == way[k]);
        }
    }
}

/// Whatever a unit on the end of the way needs was put out, or needs it in turn.
proof fn lemma_below(units: Seq<Unit>, seen: Seq<bool>, out: Seq<usize>, down: Seq<int>, u: usize, d: int)
    requires
        walking(units, seen, out, down),
        down.len() > 0,
        down.last() == u as int,
        needs(units, u as int, d),
        forall|j: int| 0 <= j < units[u as int].deps@.len() ==> seen[(#[trigger] units[u as int].deps@[j]).unit as int],
    ensures
        out.contains(d as usize) || reaches(units, d, u as int),
{
    assert(0 <= down[down.len() - 1] < units.len());
    let j = choose|j: int| 0 <= j < units[u as int].deps@.len() && (#[trigger] units[u as int].deps@[j]).unit == d;
    assert(seen[units[u as int].deps@[j].unit as int]);
    assert(0 <= d < units.len());
    if !out.contains(d as usize) {
        assert(down.contains(d));
        let m = choose|m: int| 0 <= m < down.len() && down[m] == d;
        lemma_on_way(units, down, m);
    }
}

proof fn lemma_leave(units: Seq<Unit>, before: Seq<bool>, seen: Seq<bool>, out: Seq<usize>, way: Seq<int>, u: usize)
    requires
        u < units.len(),
        walking(units, seen, out, way.push(u as int)),
        forall|k: int| 0 <= k < way.len() ==> before[#[trigger] way[k]],
        !before[u as int],
        way.len() > 0 ==> is_path(units, way),
        forall|j: int| 0 <= j < units[u as int].deps@.len() ==> seen[(#[trigger] units[u as int].deps@[j]).unit as int],
    ensures
        walking(units, seen, out.push(u), way),
{
    let down = way.push(u as int);
    let o2 = out.push(u);
    assert(down[way.len() as int] == u as int);
    assert(!out.contains(u));
    assert forall|k: int, d: int| 0 <= k < o2.len() && #[trigger] needs(units, o2[k] as int, d) implies o2.take(
        k,
    ).contains(d as usize) || reaches(units, d, o2[k] as int) by {
        if k < out.len() {
            assert(o2[k] == out[k]);
            assert(needs(units, out[k] as int, d));
            assert(o2.take(k) =~= out.take(k));
        } else {
            assert(o2.take(k) =~= out);
            lemma_below(units, seen, out, down, u, d);
        }
    }
    assert forall|x: int| 0 <= x < units.len() && #[trigger] seen[x] implies o2.contains(x as usize)
        || way.contains(x) by {
        if out.contains(x as usize) {
            let j = choose|j: int| 0 <= j < out.len() && out[j] == x as usize;
            assert(o2[j] == x as usize);
        } else {
            assert(down.contains(x));
            let j = choose|j: int| 0 <= j < down.len() && down[j] == x;
            if j < way.len() {
                assert(way[j] == x);
            } else {
                assert(o2[out.len() as int] == x as usize);
            }
        }
    }
    assert forall|k: int| 0 <= k < way.len() implies 0 <= #[trigger] way[k] < units.len() && seen[way[k]]
        && !o2.contains(way[k] as usize) by {
        assert(down[k] == way[k]);
        assert(!out.contains(down[k] as usize));
        if o2.contains(way[k] as usize) {
            let j = choose|j: int| 0 <= j < o2.len() && o2[j] == way[k] as usize;
            if j < out.len() {
                assert(out[j] == way[k] as usize);
            }
            assert(way[k] as usize == u);
            assert(before[way[k]]);
        }
    }
    assert forall|k: int| 0 <= k < o2.len() implies #[trigger] o2[k] < units.len() && seen[o2[k] as int] by {
        if k < out.len() {
            assert(o2[k] == out[k]);
        }
    }
    assert(seen[down[way.len() as int]]);
}

/// A walk over units: which were met, and the order in which they were left.
pub struct Walk {
    pub seen: Seq<bool>,
    pub out: Seq<usize>,
}

/// The walk through a unit: what was met stays, and else it goes through what the unit needs, in order, and then leaves it.
pub open spec fn walked(units: Seq<Unit>, w: Walk, u: int) -> Walk
    decreases unseen(w.seen, w.seen.len() as int), 0int,
    via walked_ends
{
    if u < 0 || u >= w.seen.len() || w.seen[u] {
        w
    } else {
        let below = walked_below(units, Walk { seen: w.seen.update(u, true), out: w.out }, u, units[u].deps@.len() as int);
        Walk { seen: below.seen, out: below.out.push(u as usize) }
    }
}

/// The walk through the first `k` units that a unit needs. No walk forgets what was met.
pub open spec fn walked_below(units: Seq<Unit>, w: Walk, u: int, k: int) -> Walk
    decreases unseen(w.seen, w.seen.len() as int), k,
    via walked_below_ends
{
    if k <= 0 {
        w
    } else {
        let t = walked_below(units, w, u, k - 1);
        if 0 <= unseen(t.seen, t.seen.len() as int) <= unseen(w.seen, w.seen.len() as int) {
            walked(units, t, units[u].deps@[k - 1].unit as int)
        } else {
            t
        }
    }
}

#[via_fn]
proof fn walked_ends(units: Seq<Unit>, w: Walk, u: int) {
    if !(u < 0 || u >= w.seen.len() || w.seen[u]) {
        let n = w.seen.len() as int;
        lemma_unseen_update(w.seen, u, n);
        assert forall|k: int| 0 <= k < n && #[trigger] w.seen[k] implies w.seen.update(u, true)[k] by {}
        lemma_unseen_less(w.seen, w.seen.update(u, true), n);
    }
}

#[via_fn]
proof fn walked_below_ends(units: Seq<Unit>, w: Walk, u: int, k: int) {
    lemma_unseen_less(w.seen, w.seen, w.seen.len() as int);
}

/// The walk through the first `n` units.
pub open spec fn walked_upto(units: Seq<Unit>, n: int) -> Walk
    decreases n,
{
    if n <= 0 {
        Walk { seen: Seq::new(units.len(), |k: int| false), out: Seq::empty() }
    } else {
        walked(units, walked_upto(units, n - 1), n - 1)
    }
}

/// The units in the order in which a walk in depth leaves them.
pub open spec fn depth_first(units: Seq<Unit>) -> Seq<usize> {
    walked_upto(units, units.len() as int).out
}

fn visit(u: usize, units: &Vec<Unit>, seen: &mut Vec<bool>, out: &mut Vec<usize>, Ghost(way): Ghost<Seq<int>>)
    requires
        u < units@.len(),
        walking(units@, old(seen)@, old(out)@, way),
        way.len() > 0 ==> needs(units@, way.last(), u as int),
    ensures
        walking(units@, final(seen)@, final(out)@, way),
        final(seen)@[u as int],
        still_seen(old(seen)@, final(seen)@),
        walked(units@, Walk { seen: old(seen)@, out: old(out)@ }, u as int) == (Walk { seen: final(seen)@, out: final(out)@ }),
    decreases unseen(old(seen)@, old(seen)@.len() as int),
{
    if seen[u] {
        return;
    }
    let ghost s0 = seen@;
    seen.set(u, true);
    let ghost down = way.push(u as int);
    let ghost s1 = seen@;
    let ghost w1 = Walk { seen: s1, out: out@ };
    proof {
        lemma_unseen_update(s0, u as int, s0.len() as int);
        lemma_unseen_less(s0, s1, s0.len() as int);
        lemma_enter(units@, s0, out@, way, u);
    }
    let mut k: usize = 0;
    while k < units[u].deps.len()
        invariant
            u < units@.len(),
            k <= units@[u as int].deps@.len(),
            walking(units@, seen@, out@, down),
            down.len() > 0,
            down.last() == u as int,
            still_seen(s1, seen@),
            forall|j: int| 0 <= j < k ==> seen@[(#[trigger] units@[u as int].deps@[j]).unit as int],
            0 <= unseen(s1, s1.len() as int) < unseen(s0, s0.len() as int),
            s0.len() == s1.len(),
            s0 == old(seen)@,
            w1.seen == s1,
            walked_below(units@, w1, u as int, k as int) == (Walk { seen: seen@, out: out@ }),
        decreases units@[u as int].deps@.len() - k,
    {
        let d: usize = units[u].deps[k].unit;
        assert(units@[u as int].deps@[k as int].unit < units@.len());
        proof {
            assert forall|j: int| 0 <= j < s1.len() && #[trigger] s1[j] implies seen@[j] by {}
            lemma_unseen_less(s1, seen@, s1.len() as int);
        }
        visit(d, units, seen, out, Ghost(down));
        k += 1;
    }
    proof {
        lemma_leave(units@, s0, seen@, out@, way, u);
    }
    out.push(u);
    proof {
        assert forall|j: int| 0 <= j < s0.len() && s0[j] implies #[trigger] seen@[j] by {
            assert(s1[j]);
        }
        assert(s1[u as int]);
    }
}

/// The units, each after what it needs.
pub fn topo_order(units: &Vec<Unit>) -> (out: Vec<usize>)
    requires
        deps_in_range(units@),
    ensures
        out@ == depth_first(units@),
        each_once(units@.len(), out@),
        deps_first(units@, out@),
{
    let n: usize = units.len();
    let mut seen: Vec<bool> = Vec::new();
    while seen.len() < n
        invariant
            seen@.len() <= n,
            forall|k: int| 0 <= k < seen@.len() ==> !#[trigger] seen@[k],
        decreases n - seen@.len(),
    {
        seen.push(false);
    }
    let mut out: Vec<usize> = Vec::new();
    let ghost way: Seq<int> = Seq::empty();
    let mut u: usize = 0;
    assert(seen@ =~= Seq::new(units@.len(), |k: int| false));
    while u < n
        invariant
            n == units@.len(),
            u <= n,
            walked_upto(units@, u as int) == (Walk { seen: seen@, out: out@ }),
            way == Seq::<int>::empty(),
            walking(units@, seen@, out@, way),
            forall|k: int| 0 <= k < u ==> #[trigger] seen@[k],
        decreases n - u,
    {
        visit(u, units, &mut seen, &mut out, Ghost(way));
        u += 1;
    }
    assert forall|x: usize| x < n implies #[trigger] out@.contains(x) by {
        assert(seen@[x as int]);
        assert(!way.contains(x as int));
    }
    out
}

/// Where no unit needs itself, each comes after everything that it needs.
pub proof fn law_topo_order_respects_dependencies(units: Seq<Unit>, out: Seq<usize>, k: int, d: int)
    requires
        deps_in_range(units),
        acyclic(units),
        each_once(units.len(), out),
        deps_first(units, out),
        0 <= k < out.len(),
        needs(units, out[k] as int, d),
    ensures
        out.take(k).contains(d as usize),
{
    assert(!reaches(units, d, out[k] as int));
}

/// What downstream LTO needs from this unit. Cargo's `lto::generate`.
#[derive(Clone, Copy, Debug, PartialEq, Eq, Structural)]
pub enum LtoMode {
    /// This unit links with `-C lto`.
    Run,
    /// Only an LTO link consumes it, so bitcode is enough and rustc skips machine code.
    OnlyBitcode,
    /// Both LTO and normal links. rustc's default.
    ObjectAndBitcode,
    /// Nothing downstream wants bitcode.
    OnlyObject,
    /// `lto = "off"`.
    Off,
}

/// The target of the unit.
pub open spec fn target_of(pkgs: Seq<Pkg>, u: Unit) -> Target {
    pkgs[u.pkg as int].targets@[u.target as int]
}

/// The crate types that a unit is compiled to, as far as link-time optimization cares.
pub open spec fn lto_types(pkgs: Seq<Pkg>, u: Unit) -> Seq<Seq<char>> {
    if u.mode.tests() {
        seq!["bin"@]
    } else {
        views(target_of(pkgs, u).crate_types@)
    }
}

/// Something is linked from the objects.
pub open spec fn wants_object(types: Seq<Seq<char>>) -> bool {
    types.contains("bin"@) || types.contains("staticlib"@) || types.contains("cdylib"@) || types.contains("dylib"@)
        || types.contains("proc-macro"@)
}

/// rustc can't LTO a dylib. A pure dylib needs no bitcode.
pub open spec fn with_object(types: Seq<Seq<char>>) -> LtoMode {
    if forall|k: int| 0 <= k < types.len() ==> #[trigger] types[k] == "dylib"@ {
        LtoMode::OnlyObject
    } else {
        LtoMode::ObjectAndBitcode
    }
}

/// A linked artifact: it isn't embedded in its parent, so it picks its own LTO.
pub open spec fn all_linked(types: Seq<Seq<char>>) -> bool {
    forall|k: int|
        0 <= k < types.len() ==> #[trigger] types[k] == "bin"@ || types[k] == "staticlib"@ || types[k] == "cdylib"@
}

pub open spec fn host_only(pkgs: Seq<Pkg>, u: Unit) -> bool {
    target_of(pkgs, u).kind == TargetKind::BuildScript || target_of(pkgs, u).proc_macro()
}

/// What a unit that picks its own LTO picks.
pub open spec fn own_lto(pkgs: Seq<Pkg>, u: Unit) -> Option<LtoMode> {
    if host_only(pkgs, u) {
        Some(LtoMode::OnlyObject)
    } else if all_linked(lto_types(pkgs, u)) {
        Some(
            match u.profile.lto {
                Lto::Default => LtoMode::OnlyObject,
                Lto::Off => LtoMode::Off,
                _ => LtoMode::Run,
            },
        )
    } else {
        None
    }
}

/// What a unit has to offer where its consumer is compiled that way.
pub open spec fn lto_for(pkgs: Seq<Pkg>, u: Unit, parent: LtoMode) -> LtoMode {
    let types = lto_types(pkgs, u);
    match own_lto(pkgs, u) {
        Some(m) => m,
        None => match parent {
            LtoMode::Run => if wants_object(types) {
                with_object(types)
            } else {
                LtoMode::OnlyBitcode
            },
            LtoMode::OnlyBitcode => if wants_object(types) {
                with_object(types)
            } else {
                LtoMode::OnlyBitcode
            },
            _ => parent,
        },
    }
}

/// How the command itself consumes a root.
pub open spec fn root_lto(pkgs: Seq<Pkg>, u: Unit) -> LtoMode {
    let types = lto_types(pkgs, u);
    match u.profile.lto {
        Lto::Default => LtoMode::OnlyObject,
        Lto::Off => LtoMode::Off,
        _ => if host_only(pkgs, u) {
            LtoMode::OnlyObject
        } else if wants_object(types) {
            with_object(types)
        } else {
            LtoMode::OnlyBitcode
        },
    }
}

/// What serves consumers that disagree.
pub open spec fn both(a: LtoMode, b: LtoMode) -> LtoMode {
    if a == b {
        a
    } else if a is Run || b is Run {
        LtoMode::Run
    } else if a is Off || b is Off {
        LtoMode::Off
    } else {
        LtoMode::ObjectAndBitcode
    }
}

/// A unit compiled the second way serves whoever the first way serves.
pub open spec fn serves(a: LtoMode, b: Option<LtoMode>) -> bool {
    match b {
        Some(m) => both(a, m) == m,
        None => false,
    }
}

/// A unit that picks its own LTO has that one; others never link with LTO.
pub open spec fn lto_possible(pkgs: Seq<Pkg>, u: Unit, m: Option<LtoMode>) -> bool {
    match m {
        Some(m) => match own_lto(pkgs, u) {
            Some(own) => m == own,
            None => !(m is Run),
        },
        None => true,
    }
}

/// Every consumer gets what it asks for.
pub open spec fn lto_served(pkgs: Seq<Pkg>, units: Seq<Unit>, first: Seq<usize>, m: Seq<Option<LtoMode>>) -> bool {
    &&& m.len() == units.len()
    &&& forall|u: int| 0 <= u < units.len() ==> #[trigger] lto_possible(pkgs, units[u], m[u])
    &&& forall|k: int|
        0 <= k < first.len() ==> serves(
            lto_for(pkgs, units[first[k] as int], root_lto(pkgs, units[first[k] as int])),
            m[#[trigger] first[k] as int],
        )
    &&& forall|u: int, k: int|
        0 <= u < units.len() && 0 <= k < units[u].deps@.len() && m[u].is_some() ==> serves(
            lto_for(pkgs, units[(#[trigger] units[u].deps@[k]).unit as int], m[u].unwrap()),
            m[units[u].deps@[k].unit as int],
        )
}

/// Whoever the first way serves, the second does.
pub open spec fn no_more(a: Seq<Option<LtoMode>>, b: Seq<Option<LtoMode>>) -> bool {
    a.len() == b.len() && forall|u: int| 0 <= u < a.len() && (#[trigger] a[u]).is_some() ==> serves(a[u].unwrap(), b[u])
}

/// Every consumer gets what it asks for, and no unit offers more than it has to.
pub open spec fn lto_least(pkgs: Seq<Pkg>, units: Seq<Unit>, first: Seq<usize>, m: Seq<Option<LtoMode>>) -> bool {
    lto_served(pkgs, units, first, m) && forall|c: Seq<Option<LtoMode>>|
        #[trigger] lto_served(pkgs, units, first, c) ==> no_more(m, c)
}

pub open spec fn in_packages(pkgs: Seq<Pkg>, units: Seq<Unit>) -> bool {
    forall|u: int|
        0 <= u < units.len() ==> (#[trigger] units[u]).pkg < pkgs.len() && units[u].target
            < pkgs[units[u].pkg as int].targets@.len()
}

/// Consumers that ask for more get more.
proof fn lemma_lto_grows(pkgs: Seq<Pkg>, u: Unit, v: Unit, a: LtoMode, b: LtoMode)
    requires
        lto_possible(pkgs, v, Some(a)),
        lto_possible(pkgs, v, Some(b)),
        both(a, b) == b,
    ensures
        both(lto_for(pkgs, u, a), lto_for(pkgs, u, b)) == lto_for(pkgs, u, b),
{
}

fn crate_types_for_lto(u: &Unit, pkgs: &Vec<Pkg>) -> (r: Vec<String>)
    requires
        u.pkg < pkgs@.len(),
        u.target < pkgs@[u.pkg as int].targets@.len(),
    ensures
        views(r@) == lto_types(pkgs@, *u),
{
    if u.mode.is_test() {
        let mut r: Vec<String> = Vec::new();
        r.push("bin".to_owned());
        assert(views(r@) =~= seq!["bin"@]);
        r
    } else {
        dup_list(&pkgs[u.pkg].targets[u.target].crate_types)
    }
}

fn needs_object(types: &Vec<String>) -> (r: bool)
    ensures
        r == wants_object(views(types@)),
{
    any_is(types, "bin") || any_is(types, "staticlib") || any_is(types, "cdylib") || any_is(types, "dylib") || any_is(
        types,
        "proc-macro",
    )
}

fn lto_when_needs_object(types: &Vec<String>) -> (r: LtoMode)
    ensures
        r == with_object(views(types@)),
{
    let mut k: usize = 0;
    while k < types.len()
        invariant
            k <= types@.len(),
            forall|j: int| 0 <= j < k ==> #[trigger] views(types@)[j] == "dylib"@,
        decreases types@.len() - k,
    {
        assert(views(types@)[k as int] == types@[k as int]@);
        if !same(types[k].as_str(), "dylib") {
            return LtoMode::ObjectAndBitcode;
        }
        k += 1;
    }
    LtoMode::OnlyObject
}

fn every_linked(types: &Vec<String>) -> (r: bool)
    ensures
        r == all_linked(views(types@)),
{
    let mut k: usize = 0;
    while k < types.len()
        invariant
            k <= types@.len(),
            forall|j: int|
                0 <= j < k ==> #[trigger] views(types@)[j] == "bin"@ || views(types@)[j] == "staticlib"@ || views(
                    types@,
                )[j] == "cdylib"@,
        decreases types@.len() - k,
    {
        assert(views(types@)[k as int] == types@[k as int]@);
        let t = types[k].as_str();
        if !same(t, "bin") && !same(t, "staticlib") && !same(t, "cdylib") {
            return false;
        }
        k += 1;
    }
    true
}

fn host_only_target(u: &Unit, pkgs: &Vec<Pkg>) -> (r: bool)
    requires
        u.pkg < pkgs@.len(),
        u.target < pkgs@[u.pkg as int].targets@.len(),
    ensures
        r == host_only(pkgs@, *u),
{
    let t = &pkgs[u.pkg].targets[u.target];
    t.kind == TargetKind::BuildScript || t.is_proc_macro()
}

fn find_lto(u: &Unit, pkgs: &Vec<Pkg>, parent: LtoMode) -> (r: LtoMode)
    requires
        u.pkg < pkgs@.len(),
        u.target < pkgs@[u.pkg as int].targets@.len(),
    ensures
        r == lto_for(pkgs@, *u, parent),
{
    let types = crate_types_for_lto(u, pkgs);
    if host_only_target(u, pkgs) {
        LtoMode::OnlyObject
    } else if every_linked(&types) {
        match u.profile.lto {
            Lto::Default => LtoMode::OnlyObject,
            Lto::Off => LtoMode::Off,
            _ => LtoMode::Run,
        }
    } else {
        let object = needs_object(&types);
        match parent {
            LtoMode::Run | LtoMode::OnlyBitcode => if object {
                lto_when_needs_object(&types)
            } else {
                LtoMode::OnlyBitcode
            },
            _ => parent,
        }
    }
}

fn find_root_lto(u: &Unit, pkgs: &Vec<Pkg>) -> (r: LtoMode)
    requires
        u.pkg < pkgs@.len(),
        u.target < pkgs@[u.pkg as int].targets@.len(),
    ensures
        r == root_lto(pkgs@, *u),
{
    let types = crate_types_for_lto(u, pkgs);
    match u.profile.lto {
        Lto::Default => LtoMode::OnlyObject,
        Lto::Off => LtoMode::Off,
        _ => if host_only_target(u, pkgs) {
            LtoMode::OnlyObject
        } else if needs_object(&types) {
            lto_when_needs_object(&types)
        } else {
            LtoMode::OnlyBitcode
        },
    }
}

fn union(a: LtoMode, b: LtoMode) -> (r: LtoMode)
    ensures
        r == both(a, b),
{
    match (a, b) {
        (LtoMode::Run, _) | (_, LtoMode::Run) => LtoMode::Run,
        (LtoMode::Off, _) | (_, LtoMode::Off) => LtoMode::Off,
        (LtoMode::OnlyObject, LtoMode::OnlyObject) => LtoMode::OnlyObject,
        (LtoMode::OnlyBitcode, LtoMode::OnlyBitcode) => LtoMode::OnlyBitcode,
        _ => LtoMode::ObjectAndBitcode,
    }
}

spec fn height(m: Option<LtoMode>) -> int {
    match m {
        None => 0,
        Some(LtoMode::OnlyObject) => 1,
        Some(LtoMode::OnlyBitcode) => 1,
        Some(LtoMode::ObjectAndBitcode) => 2,
        Some(LtoMode::Off) => 3,
        Some(LtoMode::Run) => 4,
    }
}

spec fn heights(m: Seq<Option<LtoMode>>, n: int) -> int
    decreases n,
{
    if n <= 0 {
        0
    } else {
        heights(m, n - 1) + height(m[n - 1])
    }
}

proof fn lemma_heights_bound(m: Seq<Option<LtoMode>>, n: int)
    requires
        0 <= n <= m.len(),
    ensures
        0 <= heights(m, n) <= 4 * n,
    decreases n,
{
    if n > 0 {
        lemma_heights_bound(m, n - 1);
    }
}

proof fn lemma_heights_update(m: Seq<Option<LtoMode>>, u: int, x: Option<LtoMode>, n: int)
    requires
        0 <= u < m.len(),
        0 <= n <= m.len(),
    ensures
        heights(m.update(u, x), n) == heights(m, n) + if u < n {
            height(x) - height(m[u])
        } else {
            0int
        },
    decreases n,
{
    if n > 0 {
        lemma_heights_update(m, u, x, n - 1);
    }
}

/// Nothing offers more than it has to, so far.
spec fn lto_within(pkgs: Seq<Pkg>, units: Seq<Unit>, first: Seq<usize>, m: Seq<Option<LtoMode>>) -> bool {
    &&& m.len() == units.len()
    &&& forall|u: int| 0 <= u < units.len() ==> #[trigger] lto_possible(pkgs, units[u], m[u])
    &&& forall|c: Seq<Option<LtoMode>>| #[trigger] lto_served(pkgs, units, first, c) ==> no_more(m, c)
}

/// The unit offers this too, if it has to.
fn offer(
    m: &mut Vec<Option<LtoMode>>,
    u: usize,
    lto: LtoMode,
    Ghost(pkgs): Ghost<Seq<Pkg>>,
    Ghost(units): Ghost<Seq<Unit>>,
    Ghost(first): Ghost<Seq<usize>>,
) -> (changed: bool)
    requires
        u < units.len(),
        lto_within(pkgs, units, first, old(m)@),
        lto_possible(pkgs, units[u as int], Some(lto)),
        forall|c: Seq<Option<LtoMode>>| #[trigger] lto_served(pkgs, units, first, c) ==> serves(lto, c[u as int]),
    ensures
        lto_within(pkgs, units, first, final(m)@),
        no_more(old(m)@, final(m)@),
        serves(lto, final(m)@[u as int]),
        !changed ==> final(m)@ == old(m)@,
        changed ==> heights(final(m)@, final(m)@.len() as int) > heights(old(m)@, old(m)@.len() as int),
{
    let ghost was = m@;
    let merged = match m[u] {
        None => lto,
        Some(prev) => {
            let merged = union(lto, prev);
            if merged == prev {
                return false;
            }
            merged
        },
    };
    m.set(u, Some(merged));
    proof {
        lemma_heights_update(was, u as int, Some(merged), was.len() as int);
        assert forall|v: int| 0 <= v < units.len() implies #[trigger] lto_possible(pkgs, units[v], m@[v]) by {
            assert(lto_possible(pkgs, units[v], was[v]));
        }
        assert forall|c: Seq<Option<LtoMode>>| #[trigger] lto_served(pkgs, units, first, c) implies no_more(m@, c) by {
            assert(no_more(was, c));
            assert forall|v: int| 0 <= v < m@.len() && (#[trigger] m@[v]).is_some() implies serves(m@[v].unwrap(), c[v]) by {
                if v != u {
                    assert(was[v] == m@[v]);
                } else if was[v].is_some() {
                    assert(serves(was[v].unwrap(), c[v]));
                }
            }
        }
    }
    true
}

proof fn lemma_no_more_trans(a: Seq<Option<LtoMode>>, b: Seq<Option<LtoMode>>, c: Seq<Option<LtoMode>>)
    requires
        no_more(a, b),
        no_more(b, c),
    ensures
        no_more(a, c),
{
    assert forall|u: int| 0 <= u < a.len() && (#[trigger] a[u]).is_some() implies serves(a[u].unwrap(), c[u]) by {
        assert(serves(a[u].unwrap(), b[u]));
        assert(serves(b[u].unwrap(), c[u]));
    }
}

/// One consumer asks its dependencies.
fn ask(
    m: &mut Vec<Option<LtoMode>>,
    u: usize,
    g: &UnitGraph,
    pkgs: &Vec<Pkg>,
    Ghost(first): Ghost<Seq<usize>>,
) -> (changed: bool)
    requires
        u < g.units@.len(),
        deps_in_range(g.units@),
        in_packages(pkgs@, g.units@),
        lto_within(pkgs@, g.units@, first, old(m)@),
    ensures
        lto_within(pkgs@, g.units@, first, final(m)@),
        no_more(old(m)@, final(m)@),
        !changed ==> final(m)@ == old(m)@ && forall|k: int|
            0 <= k < g.units@[u as int].deps@.len() && old(m)@[u as int].is_some() ==> serves(
                lto_for(
                    pkgs@,
                    g.units@[(#[trigger] g.units@[u as int].deps@[k]).unit as int],
                    old(m)@[u as int].unwrap(),
                ),
                old(m)@[g.units@[u as int].deps@[k].unit as int],
            ),
        changed ==> heights(final(m)@, final(m)@.len() as int) > heights(old(m)@, old(m)@.len() as int),
{
    let parent = match m[u] {
        Some(p) => p,
        None => return false,
    };
    let ghost units = g.units@;
    let ghost was = m@;
    let mut changed: bool = false;
    let mut k: usize = 0;
    proof {
        assert(no_more(was, was)) by {
            assert forall|v: int| 0 <= v < was.len() && (#[trigger] was[v]).is_some() implies serves(
                was[v].unwrap(),
                was[v],
            ) by {}
        }
    }
    while k < g.units[u].deps.len()
        invariant
            u < units.len(),
            units == g.units@,
            deps_in_range(units),
            in_packages(pkgs@, units),
            k <= units[u as int].deps@.len(),
            was.len() == units.len(),
            was[u as int] == Some(parent),
            lto_within(pkgs@, units, first, was),
            lto_within(pkgs@, units, first, m@),
            no_more(was, m@),
            changed ==> heights(m@, m@.len() as int) > heights(was, was.len() as int),
            !changed ==> m@ == was && forall|j: int|
                0 <= j < k ==> serves(
                    lto_for(pkgs@, units[(#[trigger] units[u as int].deps@[j]).unit as int], parent),
                    was[units[u as int].deps@[j].unit as int],
                ),
        decreases units[u as int].deps@.len() - k,
    {
        let d: usize = g.units[u].deps[k].unit;
        assert(units[u as int].deps@[k as int].unit < units.len());
        let lto = find_lto(&g.units[d], pkgs, parent);
        proof {
            assert(lto_possible(pkgs@, units[u as int], was[u as int]));
            assert forall|c: Seq<Option<LtoMode>>| #[trigger] lto_served(pkgs@, units, first, c) implies serves(
                lto,
                c[d as int],
            ) by {
                assert(no_more(was, c));
                assert(serves(was[u as int].unwrap(), c[u as int]));
                assert(lto_possible(pkgs@, units[u as int], c[u as int]));
                lemma_lto_grows(pkgs@, units[d as int], units[u as int], parent, c[u as int].unwrap());
                assert(serves(
                    lto_for(pkgs@, units[units[u as int].deps@[k as int].unit as int], c[u as int].unwrap()),
                    c[units[u as int].deps@[k as int].unit as int],
                ));
            }
        }
        let ghost before = m@;
        let more = offer(m, d, lto, Ghost(pkgs@), Ghost(units), Ghost(first));
        proof {
            lemma_no_more_trans(was, before, m@);
        }
        if more {
            changed = true;
        }
        k += 1;
    }
    changed
}

/// How each unit takes part in link-time optimization.
pub fn lto_modes(ws: &Workspace, g: &UnitGraph) -> (r: Vec<LtoMode>)
    requires
        deps_in_range(g.units@),
        in_packages(ws.pkgs@, g.units@),
        forall|k: int| 0 <= k < g.roots@.len() ==> #[trigger] g.roots@[k] < g.units@.len(),
        forall|k: int| 0 <= k < g.aux_roots@.len() ==> #[trigger] g.aux_roots@[k] < g.units@.len(),
    ensures
        exists|m: Seq<Option<LtoMode>>|
            #[trigger] lto_least(ws.pkgs@, g.units@, g.roots@ + g.aux_roots@, m) && r@.len() == m.len() && forall|k: int|
                0 <= k < m.len() ==> #[trigger] r@[k] == match m[k] {
                    Some(x) => x,
                    None => LtoMode::OnlyObject,
                },
{
    let n: usize = g.units.len();
    let ghost units = g.units@;
    let ghost pkgs = ws.pkgs@;
    let ghost first = g.roots@ + g.aux_roots@;
    let mut m: Vec<Option<LtoMode>> = Vec::new();
    while m.len() < n
        invariant
            m@.len() <= n,
            forall|k: int| 0 <= k < m@.len() ==> (#[trigger] m@[k]).is_none(),
        decreases n - m@.len(),
    {
        m.push(None);
    }
    let mut k: usize = 0;
    let count: usize = g.roots.len();
    let extra: usize = g.aux_roots.len();
    while k < count
        invariant
            k <= count,
            count == g.roots@.len(),
            n == units.len(),
            units == g.units@,
            pkgs == ws.pkgs@,
            first == g.roots@ + g.aux_roots@,
            in_packages(pkgs, units),
            forall|k: int| 0 <= k < g.roots@.len() ==> #[trigger] g.roots@[k] < units.len(),
            lto_within(pkgs, units, first, m@),
            forall|j: int|
                0 <= j < k ==> serves(
                    lto_for(pkgs, units[first[j] as int], root_lto(pkgs, units[first[j] as int])),
                    m@[#[trigger] first[j] as int],
                ),
        decreases count - k,
    {
        let r: usize = g.roots[k];
        assert(first[k as int] == r);
        let ghost before = m@;
        offer_root(&mut m, r, g, ws, Ghost(first), Ghost(k as int));
        proof {
            lemma_serves_stays(pkgs, units, first, before, m@, k as int);
        }
        k += 1;
    }
    k = 0;
    assert forall|j: int| 0 <= j < first.len() implies #[trigger] first[j] < units.len() by {
        if j < count {
            assert(g.roots@[j] < units.len());
        } else {
            assert(g.aux_roots@[j - count] < units.len());
        }
    }
    while k < extra
        invariant
            k <= extra,
            count == g.roots@.len(),
            extra == g.aux_roots@.len(),
            n == units.len(),
            units == g.units@,
            pkgs == ws.pkgs@,
            first == g.roots@ + g.aux_roots@,
            in_packages(pkgs, units),
            forall|k: int| 0 <= k < g.aux_roots@.len() ==> #[trigger] g.aux_roots@[k] < units.len(),
            forall|j: int| 0 <= j < first.len() ==> #[trigger] first[j] < units.len(),
            lto_within(pkgs, units, first, m@),
            forall|j: int|
                0 <= j < count + k ==> serves(
                    lto_for(pkgs, units[first[j] as int], root_lto(pkgs, units[first[j] as int])),
                    m@[#[trigger] first[j] as int],
                ),
        decreases extra - k,
    {
        let r: usize = g.aux_roots[k];
        assert(first[count + k] == r);
        let ghost before = m@;
        offer_root(&mut m, r, g, ws, Ghost(first), Ghost(count + k));
        proof {
            lemma_serves_stays(pkgs, units, first, before, m@, count + k);
        }
        k += 1;
    }
    let mut again: bool = true;
    while again
        invariant
            n == units.len(),
            units == g.units@,
            pkgs == ws.pkgs@,
            first == g.roots@ + g.aux_roots@,
            deps_in_range(units),
            in_packages(pkgs, units),
            lto_within(pkgs, units, first, m@),
            forall|j: int|
                0 <= j < first.len() ==> serves(
                    lto_for(pkgs, units[first[j] as int], root_lto(pkgs, units[first[j] as int])),
                    m@[#[trigger] first[j] as int],
                ),
            !again ==> lto_served(pkgs, units, first, m@),
            forall|j: int| 0 <= j < first.len() ==> #[trigger] first[j] < units.len(),
        decreases
            4 * n - heights(m@, m@.len() as int),
            if again {
                1int
            } else {
                0int
            },
    {
        again = false;
        let ghost start = m@;
        let mut u: usize = 0;
        proof {
            assert(no_more(start, start)) by {
                assert forall|v: int| 0 <= v < start.len() && (#[trigger] start[v]).is_some() implies serves(
                    start[v].unwrap(),
                    start[v],
                ) by {}
            }
        }
        while u < n
            invariant
                u <= n,
                n == units.len(),
                units == g.units@,
                pkgs == ws.pkgs@,
                deps_in_range(units),
                in_packages(pkgs, units),
                lto_within(pkgs, units, first, start),
                lto_within(pkgs, units, first, m@),
                no_more(start, m@),
                again ==> heights(m@, m@.len() as int) > heights(start, start.len() as int),
                !again ==> m@ == start && forall|v: int, j: int|
                    0 <= v < u && 0 <= j < units[v].deps@.len() && start[v].is_some() ==> serves(
                        lto_for(pkgs, units[(#[trigger] units[v].deps@[j]).unit as int], start[v].unwrap()),
                        start[units[v].deps@[j].unit as int],
                    ),
            decreases n - u,
        {
            let ghost before = m@;
            let more = ask(&mut m, u, g, &ws.pkgs, Ghost(first));
            proof {
                lemma_no_more_trans(start, before, m@);
            }
            if more {
                again = true;
            }
            u += 1;
        }
        proof {
            lemma_heights_bound(m@, m@.len() as int);
            lemma_serves_stays(pkgs, units, first, start, m@, first.len() as int);
        }
    }
    assert(lto_least(pkgs, units, first, m@));
    let mut r: Vec<LtoMode> = Vec::new();
    while r.len() < n
        invariant
            r@.len() <= n,
            n == m@.len(),
            forall|k: int|
                0 <= k < r@.len() ==> #[trigger] r@[k] == match m@[k] {
                    Some(x) => x,
                    None => LtoMode::OnlyObject,
                },
        decreases n - r@.len(),
    {
        let mode = match m[r.len()] {
            Some(x) => x,
            None => LtoMode::OnlyObject,
        };
        r.push(mode);
    }
    r
}

proof fn lemma_serves_stays(
    pkgs: Seq<Pkg>,
    units: Seq<Unit>,
    first: Seq<usize>,
    a: Seq<Option<LtoMode>>,
    b: Seq<Option<LtoMode>>,
    k: int,
)
    requires
        no_more(a, b),
        a.len() == units.len(),
        0 <= k <= first.len(),
        forall|j: int| 0 <= j < k ==> #[trigger] first[j] < units.len(),
        forall|j: int|
            0 <= j < k ==> serves(
                lto_for(pkgs, units[first[j] as int], root_lto(pkgs, units[first[j] as int])),
                a[#[trigger] first[j] as int],
            ),
    ensures
        forall|j: int|
            0 <= j < k ==> serves(
                lto_for(pkgs, units[first[j] as int], root_lto(pkgs, units[first[j] as int])),
                b[#[trigger] first[j] as int],
            ),
{
    assert forall|j: int| 0 <= j < k implies serves(
        lto_for(pkgs, units[first[j] as int], root_lto(pkgs, units[first[j] as int])),
        b[#[trigger] first[j] as int],
    ) by {
        let u = first[j] as int;
        assert(serves(lto_for(pkgs, units[u], root_lto(pkgs, units[u])), a[u]));
        assert(serves(a[u].unwrap(), b[u]));
    }
}

/// The command asks a root.
fn offer_root(
    m: &mut Vec<Option<LtoMode>>,
    r: usize,
    g: &UnitGraph,
    ws: &Workspace,
    Ghost(first): Ghost<Seq<usize>>,
    Ghost(k): Ghost<int>,
)
    requires
        0 <= k < first.len(),
        first[k] == r,
        r < g.units@.len(),
        in_packages(ws.pkgs@, g.units@),
        lto_within(ws.pkgs@, g.units@, first, old(m)@),
    ensures
        lto_within(ws.pkgs@, g.units@, first, final(m)@),
        no_more(old(m)@, final(m)@),
        serves(
            lto_for(ws.pkgs@, g.units@[r as int], root_lto(ws.pkgs@, g.units@[r as int])),
            final(m)@[r as int],
        ),
{
    let u = &g.units[r];
    let asked = find_root_lto(u, &ws.pkgs);
    let lto = find_lto(u, &ws.pkgs, asked);
    proof {
        assert forall|c: Seq<Option<LtoMode>>| #[trigger] lto_served(ws.pkgs@, g.units@, first, c) implies serves(
            lto,
            c[r as int],
        ) by {
            assert(serves(
                lto_for(ws.pkgs@, g.units@[first[k] as int], root_lto(ws.pkgs@, g.units@[first[k] as int])),
                c[first[k] as int],
            ));
        }
    }
    offer(m, r, lto, Ghost(ws.pkgs@), Ghost(g.units@), Ghost(first));
}

/// `a` links the library `b`, and with it what `b` links. A proc-macro brings nothing along; with
/// `past_runs` the run of a build script doesn't either.
pub open spec fn carries(pkgs: Seq<Pkg>, units: Seq<Unit>, past_runs: bool, a: int, b: int) -> bool {
    exists|k: int|
        0 <= k < units[a].deps@.len() && (#[trigger] units[a].deps@[k]).unit == b
            && units[a].deps@[k].extern_name.is_some() && !target_of(pkgs, units[b]).proc_macro() && !(past_runs
            && units[b].mode == Mode::RunCustomBuild)
}

/// Each unit of the list carries the next.
pub open spec fn carry_path(pkgs: Seq<Pkg>, units: Seq<Unit>, past_runs: bool, s: Seq<int>) -> bool {
    &&& s.len() > 0
    &&& forall|k: int| 0 <= k < s.len() ==> 0 <= #[trigger] s[k] < units.len()
    &&& forall|i: int, j: int|
        0 <= i && j == i + 1 && j < s.len() ==> carries(pkgs, units, past_runs, #[trigger] s[i], #[trigger] s[j])
}

/// `a` brings `b` along, or is `b`.
pub open spec fn brings(pkgs: Seq<Pkg>, units: Seq<Unit>, past_runs: bool, a: int, b: int) -> bool {
    exists|s: Seq<int>| #[trigger] carry_path(pkgs, units, past_runs, s) && s.first() == a && s.last() == b
}

proof fn lemma_brings_self(pkgs: Seq<Pkg>, units: Seq<Unit>, past_runs: bool, a: int)
    requires
        0 <= a < units.len(),
    ensures
        brings(pkgs, units, past_runs, a, a),
{
    assert(carry_path(pkgs, units, past_runs, seq![a]));
}

proof fn lemma_brings_step(pkgs: Seq<Pkg>, units: Seq<Unit>, past_runs: bool, a: int, b: int, c: int)
    requires
        brings(pkgs, units, past_runs, a, b),
        carries(pkgs, units, past_runs, b, c),
        0 <= c < units.len(),
    ensures
        brings(pkgs, units, past_runs, a, c),
{
    let s = choose|s: Seq<int>| #[trigger] carry_path(pkgs, units, past_runs, s) && s.first() == a && s.last() == b;
    let t = s.push(c);
    assert forall|i: int, j: int| 0 <= i && j == i + 1 && j < t.len() implies carries(
        pkgs,
        units,
        past_runs,
        #[trigger] t[i],
        #[trigger] t[j],
    ) by {
        if j < s.len() {
            assert(carries(pkgs, units, past_runs, s[i], s[j]));
        }
    }
    assert(carry_path(pkgs, units, past_runs, t));
    assert(t.first() == a && t.last() == c);
}

/// A set that holds the start of a path and what its members carry holds its end.
proof fn lemma_path_closed(pkgs: Seq<Pkg>, units: Seq<Unit>, past_runs: bool, seen: Seq<bool>, s: Seq<int>, k: int)
    requires
        carry_path(pkgs, units, past_runs, s),
        seen.len() == units.len(),
        0 <= k < s.len(),
        seen[s[0]],
        forall|a: int, b: int|
            0 <= a < units.len() && 0 <= b < units.len() && seen[a] && #[trigger] carries(pkgs, units, past_runs, a, b)
                ==> seen[b],
    ensures
        seen[s[k]],
    decreases k,
{
    if k > 0 {
        lemma_path_closed(pkgs, units, past_runs, seen, s, k - 1);
        assert(carries(pkgs, units, past_runs, s[k - 1], s[k]));
    }
}

spec fn marked(seen: Seq<bool>, n: int) -> int
    decreases n,
{
    if n <= 0 {
        0
    } else {
        marked(seen, n - 1) + if seen[n - 1] {
            1int
        } else {
            0int
        }
    }
}

proof fn lemma_marked(seen: Seq<bool>, n: int)
    requires
        0 <= n <= seen.len(),
    ensures
        0 <= marked(seen, n) <= n,
    decreases n,
{
    if n > 0 {
        lemma_marked(seen, n - 1);
    }
}

proof fn lemma_marked_update(seen: Seq<bool>, u: int, n: int)
    requires
        0 <= u < seen.len(),
        0 <= n <= seen.len(),
        !seen[u],
    ensures
        marked(seen.update(u, true), n) == marked(seen, n) + if u < n {
            1int
        } else {
            0int
        },
    decreases n,
{
    if n > 0 {
        lemma_marked_update(seen, u, n - 1);
    }
}

/// What is marked and not on the stack has its own marked.
spec fn spreads(pkgs: Seq<Pkg>, units: Seq<Unit>, past_runs: bool, u: int, seen: Seq<bool>, stack: Seq<usize>) -> bool {
    &&& seen.len() == units.len()
    &&& seen[u]
    &&& forall|k: int| 0 <= k < stack.len() ==> #[trigger] stack[k] < units.len() && seen[stack[k] as int]
    &&& forall|x: int| 0 <= x < units.len() && #[trigger] seen[x] ==> brings(pkgs, units, past_runs, u, x)
    &&& forall|a: int, b: int|
        0 <= a < units.len() && 0 <= b < units.len() && seen[a] && !stack.contains(a as usize) && #[trigger] carries(
            pkgs,
            units,
            past_runs,
            a,
            b,
        ) ==> seen[b]
}

/// What a unit brings along, itself too.
fn brought(u: usize, units: &Vec<Unit>, pkgs: &Vec<Pkg>, past_runs: bool) -> (seen: Vec<bool>)
    requires
        u < units@.len(),
        deps_in_range(units@),
        in_packages(pkgs@, units@),
    ensures
        seen@.len() == units@.len(),
        forall|x: int| 0 <= x < units@.len() ==> #[trigger] seen@[x] == brings(pkgs@, units@, past_runs, u as int, x),
{
    let n: usize = units.len();
    let mut seen: Vec<bool> = Vec::new();
    while seen.len() < n
        invariant
            seen@.len() <= n,
            forall|k: int| 0 <= k < seen@.len() ==> !#[trigger] seen@[k],
        decreases n - seen@.len(),
    {
        seen.push(false);
    }
    seen.set(u, true);
    let mut stack: Vec<usize> = Vec::new();
    stack.push(u);
    proof {
        lemma_brings_self(pkgs@, units@, past_runs, u as int);
        assert(stack@[0] == u);
    }
    loop
        invariant
            n == units@.len(),
            u < n,
            deps_in_range(units@),
            in_packages(pkgs@, units@),
            spreads(pkgs@, units@, past_runs, u as int, seen@, stack@),
        ensures
            spreads(pkgs@, units@, past_runs, u as int, seen@, stack@),
            stack@.len() == 0,
        decreases n - marked(seen@, n as int), stack@.len(),
    {
        let ghost stack0 = stack@;
        let ghost seen0 = seen@;
        let a: usize = match stack.pop() {
            None => {
                break;
            }
            Some(a) => a,
        };
        assert(stack0[stack0.len() - 1] == a);
        let ghost rest = stack@;
        let mut k: usize = 0;
        proof {
            lemma_marked(seen0, n as int);
            assert forall|x: usize| stack0.contains(x) && x != a implies rest.contains(x) by {
                let j = choose|j: int| 0 <= j < stack0.len() && stack0[j] == x;
                assert(rest[j] == x);
            }
        }
        while k < units[a].deps.len()
            invariant
                n == units@.len(),
                u < n,
                a < n,
                deps_in_range(units@),
                in_packages(pkgs@, units@),
                k <= units@[a as int].deps@.len(),
                seen@.len() == n,
                seen@[u as int],
                seen@[a as int],
                forall|j: int| 0 <= j < stack@.len() ==> #[trigger] stack@[j] < n && seen@[stack@[j] as int],
                forall|x: int| 0 <= x < n && #[trigger] seen@[x] ==> brings(pkgs@, units@, past_runs, u as int, x),
                forall|x: int, b: int|
                    0 <= x < n && 0 <= b < n && seen@[x] && x != a && !stack@.contains(x as usize) && #[trigger] carries(
                        pkgs@,
                        units@,
                        past_runs,
                        x,
                        b,
                    ) ==> seen@[b],
                forall|j: int|
                    0 <= j < k && carried(pkgs@, units@, past_runs, a as int, j) ==> seen@[(
                    #[trigger] units@[a as int].deps@[j]).unit as int],
                marked(seen@, n as int) > marked(seen0, n as int) || (marked(seen@, n as int) == marked(
                    seen0,
                    n as int,
                ) && stack@.len() < stack0.len()),
            decreases units@[a as int].deps@.len() - k,
        {
            let d: usize = units[a].deps[k].unit;
            assert(units@[a as int].deps@[k as int].unit < n);
            let du = &units[d];
            let named = units[a].deps[k].extern_name.is_some();
            let on: bool = named && !pkgs[du.pkg].targets[du.target].is_proc_macro() && !(past_runs && du.mode
                == Mode::RunCustomBuild);
            if on {
                assert(carries(pkgs@, units@, past_runs, a as int, d as int));
                if !seen[d] {
                    let ghost was = seen@;
                    let ghost was_stack = stack@;
                    proof {
                        lemma_marked_update(seen@, d as int, n as int);
                        lemma_brings_step(pkgs@, units@, past_runs, u as int, a as int, d as int);
                    }
                    seen.set(d, true);
                    stack.push(d);
                    proof {
                        assert(stack@[was_stack.len() as int] == d);
                        assert forall|x: int, b: int|
                            0 <= x < n && 0 <= b < n && seen@[x] && x != a && !stack@.contains(x as usize)
                                && #[trigger] carries(pkgs@, units@, past_runs, x, b) implies seen@[b] by {
                            if x != d {
                                assert(was[x]);
                                if was_stack.contains(x as usize) {
                                    let j = choose|j: int| 0 <= j < was_stack.len() && was_stack[j] == x as usize;
                                    assert(stack@[j] == x as usize);
                                }
                            }
                        }
                    }
                }
            }
            k += 1;
        }
        proof {
            assert forall|x: int, b: int|
                0 <= x < n && 0 <= b < n && seen@[x] && !stack@.contains(x as usize) && #[trigger] carries(
                    pkgs@,
                    units@,
                    past_runs,
                    x,
                    b,
                ) implies seen@[b] by {
                if x == a {
                    let j = choose|j: int|
                        0 <= j < units@[a as int].deps@.len() && (#[trigger] units@[a as int].deps@[j]).unit == b
                            && units@[a as int].deps@[j].extern_name.is_some() && !target_of(
                            pkgs@,
                            units@[b],
                        ).proc_macro() && !(past_runs && units@[b].mode == Mode::RunCustomBuild);
                    assert(carried(pkgs@, units@, past_runs, a as int, j));
                    assert(seen@[units@[a as int].deps@[j].unit as int]);
                }
            }
            lemma_marked(seen@, n as int);
        }
    }
    proof {
        assert forall|x: int| 0 <= x < n implies #[trigger] seen@[x] == brings(pkgs@, units@, past_runs, u as int, x) by {
            if brings(pkgs@, units@, past_runs, u as int, x) {
                let s = choose|s: Seq<int>|
                    #[trigger] carry_path(pkgs@, units@, past_runs, s) && s.first() == u as int && s.last() == x;
                lemma_path_closed(pkgs@, units@, past_runs, seen@, s, s.len() - 1);
            }
        }
    }
    seen
}

/// The dependency is one that carries.
spec fn carried(pkgs: Seq<Pkg>, units: Seq<Unit>, past_runs: bool, a: int, k: int) -> bool {
    let b = units[a].deps@[k].unit as int;
    units[a].deps@[k].extern_name.is_some() && !target_of(pkgs, units[b]).proc_macro() && !(past_runs && units[b].mode
        == Mode::RunCustomBuild)
}

/// The run of a build script whose `-L` paths apply to the unit: that of something it brings along needs it.
pub open spec fn links_run(pkgs: Seq<Pkg>, units: Seq<Unit>, u: int, x: int) -> bool {
    exists|a: int|
        #[trigger] brings(pkgs, units, true, u, a) && 0 <= a < units.len() && 0 <= x < units.len() && needs(units, a, x)
            && units[x].mode == Mode::RunCustomBuild
}

/// A library that the unit needs to link, directly or through others.
pub open spec fn links_lib(pkgs: Seq<Pkg>, units: Seq<Unit>, u: int, x: int) -> bool {
    exists|a: int|
        #[trigger] brings(pkgs, units, false, u, a) && 0 <= a < units.len() && needs_linked(units, a, x)
}

/// `d` is a library that `u` links.
pub open spec fn needs_linked(units: Seq<Unit>, u: int, d: int) -> bool {
    exists|k: int|
        0 <= k < units[u].deps@.len() && (#[trigger] units[u].deps@[k]).unit == d
            && units[u].deps@[k].extern_name.is_some()
}

/// The build-script runs whose `-L` paths apply, in ascending order.
pub fn collect_to_link(u: usize, units: &Vec<Unit>, ws: &Workspace) -> (out: Vec<usize>)
    requires
        u < units@.len(),
        deps_in_range(units@),
        in_packages(ws.pkgs@, units@),
    ensures
        rising(out@),
        forall|x: usize| #[trigger] out@.contains(x) == links_run(ws.pkgs@, units@, u as int, x as int),
{
    let seen = brought(u, units, &ws.pkgs, true);
    let ghost pkgs = ws.pkgs@;
    let n: usize = units.len();
    let mut out: Vec<usize> = Vec::new();
    let mut a: usize = 0;
    while a < n
        invariant
            a <= n,
            n == units@.len() == seen@.len(),
            deps_in_range(units@),
            pkgs == ws.pkgs@,
            forall|x: int| 0 <= x < units@.len() ==> #[trigger] seen@[x] == brings(pkgs, units@, true, u as int, x),
            rising(out@),
            forall|x: usize|
                #[trigger] out@.contains(x) == exists|b: int|
                    #[trigger] brings(pkgs, units@, true, u as int, b) && 0 <= b < a && x < units@.len() && needs(
                        units@,
                        b,
                        x as int,
                    ) && units@[x as int].mode == Mode::RunCustomBuild,
        decreases n - a,
    {
        let ghost before = out@;
        if seen[a] {
            let mut k: usize = 0;
            while k < units[a].deps.len()
                invariant
                    a < n,
                    n == units@.len(),
                    deps_in_range(units@),
                    k <= units@[a as int].deps@.len(),
                    rising(out@),
                    forall|x: usize|
                        #[trigger] out@.contains(x) == (before.contains(x) || exists|j: int|
                            0 <= j < k && (#[trigger] units@[a as int].deps@[j]).unit == x && units@[x as int].mode
                                == Mode::RunCustomBuild),
                decreases units@[a as int].deps@.len() - k,
            {
                let d: usize = units[a].deps[k].unit;
                assert(units@[a as int].deps@[k as int].unit < n);
                if units[d].mode == Mode::RunCustomBuild {
                    insert(&mut out, d);
                }
                k += 1;
            }
            assert(brings(pkgs, units@, true, u as int, a as int));
        }
        proof {
            assert forall|x: usize|
                #[trigger] out@.contains(x) == exists|b: int|
                    #[trigger] brings(pkgs, units@, true, u as int, b) && 0 <= b < a + 1 && x < units@.len() && needs(
                        units@,
                        b,
                        x as int,
                    ) && units@[x as int].mode == Mode::RunCustomBuild by {
                if out@.contains(x) && !before.contains(x) {
                    assert(needs(units@, a as int, x as int));
                    assert(brings(pkgs, units@, true, u as int, a as int));
                }
                if brings(pkgs, units@, true, u as int, a as int) && needs(units@, a as int, x as int) && x < n
                    && units@[x as int].mode == Mode::RunCustomBuild {
                    assert(seen@[a as int]);
                    let j = choose|j: int|
                        0 <= j < units@[a as int].deps@.len() && (#[trigger] units@[a as int].deps@[j]).unit == x as int;
                    assert(units@[a as int].deps@[j].unit == x);
                }
            }
        }
        a += 1;
    }
    out
}

/// The libraries that the unit needs to link, in ascending order.
pub fn collect_lib_reqs(u: usize, units: &Vec<Unit>, ws: &Workspace) -> (out: Vec<usize>)
    requires
        u < units@.len(),
        deps_in_range(units@),
        in_packages(ws.pkgs@, units@),
    ensures
        rising(out@),
        forall|x: usize| #[trigger] out@.contains(x) == links_lib(ws.pkgs@, units@, u as int, x as int),
{
    let seen = brought(u, units, &ws.pkgs, false);
    let ghost pkgs = ws.pkgs@;
    let n: usize = units.len();
    let mut out: Vec<usize> = Vec::new();
    let mut a: usize = 0;
    while a < n
        invariant
            a <= n,
            n == units@.len() == seen@.len(),
            deps_in_range(units@),
            pkgs == ws.pkgs@,
            forall|x: int| 0 <= x < units@.len() ==> #[trigger] seen@[x] == brings(pkgs, units@, false, u as int, x),
            rising(out@),
            forall|x: usize|
                #[trigger] out@.contains(x) == exists|b: int|
                    #[trigger] brings(pkgs, units@, false, u as int, b) && 0 <= b < a && needs_linked(
                        units@,
                        b,
                        x as int,
                    ),
        decreases n - a,
    {
        let ghost before = out@;
        if seen[a] {
            let mut k: usize = 0;
            while k < units[a].deps.len()
                invariant
                    a < n,
                    n == units@.len(),
                    k <= units@[a as int].deps@.len(),
                    rising(out@),
                    forall|x: usize|
                        #[trigger] out@.contains(x) == (before.contains(x) || exists|j: int|
                            0 <= j < k && (#[trigger] units@[a as int].deps@[j]).unit == x
                                && units@[a as int].deps@[j].extern_name.is_some()),
                decreases units@[a as int].deps@.len() - k,
            {
                if units[a].deps[k].extern_name.is_some() {
                    let d: usize = units[a].deps[k].unit;
                    insert(&mut out, d);
                }
                k += 1;
            }
            assert(brings(pkgs, units@, false, u as int, a as int));
        }
        proof {
            assert forall|x: usize|
                #[trigger] out@.contains(x) == exists|b: int|
                    #[trigger] brings(pkgs, units@, false, u as int, b) && 0 <= b < a + 1 && needs_linked(
                        units@,
                        b,
                        x as int,
                    ) by {
                if out@.contains(x) && !before.contains(x) {
                    assert(needs_linked(units@, a as int, x as int));
                    assert(brings(pkgs, units@, false, u as int, a as int));
                }
                if brings(pkgs, units@, false, u as int, a as int) && needs_linked(units@, a as int, x as int) {
                    assert(seen@[a as int]);
                    let j = choose|j: int|
                        0 <= j < units@[a as int].deps@.len() && (#[trigger] units@[a as int].deps@[j]).unit == x as int
                            && units@[a as int].deps@[j].extern_name.is_some();
                    assert(units@[a as int].deps@[j].unit == x);
                }
            }
        }
        a += 1;
    }
    out
}

} // verus!
