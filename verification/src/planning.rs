//! Planning a whole graph: each unit after those that it depends on. What the disk and the environment hold for a unit is
//! looked up between its draft and its key.

use vstd::prelude::*;
use crate::commands::Ctx;
use crate::commands::PlanError;
use crate::commands::Planned;
use crate::hash::hex_upto;
use crate::hash::lemma_hex_len;
use crate::keys::Draft;
use crate::keys::Prediction;
use crate::keys::Seen;
use crate::keys::answers;
use crate::keys::command_of;
use crate::keys::draft;
use crate::keys::drafted;
use crate::keys::finish;
use crate::keys::finished_plan;
use crate::keys::is_ready;
use crate::keys::prediction_view;
use crate::keys::refused;
use crate::lints::Lints;
use crate::lints::from_table;
use crate::lints::lint_cfgs;
use crate::lints::lint_flags;
use crate::lints::table_view;
use crate::plan::LtoMode;
use crate::plan::acyclic;
use crate::plan::deps_first;
use crate::plan::deps_in_range;
use crate::plan::depth_first;
use crate::plan::each_once;
use crate::plan::in_packages;
use crate::plan::lto_least;
use crate::plan::lto_modes;
use crate::plan::needs;
use crate::plan::topo_order;
use crate::text::char_bytes;
use crate::text::cuts;
use crate::text::views;
use crate::unit::Unit;
use crate::unit::UnitGraph;
use crate::workspace::Pkg;

verus! {

/// A plan under way.
pub struct Plan {
    /// The units, each after what it needs.
    pub order: Vec<usize>,
    /// How many of them are planned.
    pub at: usize,
    pub lto: Vec<LtoMode>,
    pub planned: Vec<Option<Planned>>,
}

/// The lints of a package.
pub open spec fn lints_of(p: Pkg, l: Lints) -> bool {
    &&& views(l.flags@) == lint_flags(table_view(match p.lints {
        Some(t) => Some(&t),
        None => None,
    }))
    &&& views(l.check_cfg@) == lint_cfgs(table_view(match p.lints {
        Some(t) => Some(&t),
        None => None,
    }))
}

/// How the units of a graph take part in link-time optimization.
pub open spec fn lto_of(pkgs: Seq<Pkg>, g: UnitGraph, lto: Seq<LtoMode>) -> bool {
    exists|m: Seq<Option<LtoMode>>|
        #[trigger] lto_least(pkgs, g.units@, g.roots@ + g.aux_roots@, m) && lto.len() == m.len() && forall|k: int|
            0 <= k < m.len() ==> #[trigger] lto[k] == match m[k] {
                Some(x) => x,
                None => LtoMode::OnlyObject,
            }
}

/// The graph holds what it speaks of.
pub open spec fn is_sound(pkgs: Seq<Pkg>, g: UnitGraph) -> bool {
    &&& deps_in_range(g.units@)
    &&& in_packages(pkgs, g.units@)
    &&& forall|k: int| 0 <= k < g.roots@.len() ==> #[trigger] g.roots@[k] < g.units@.len()
    &&& forall|k: int| 0 <= k < g.aux_roots@.len() ==> #[trigger] g.aux_roots@[k] < g.units@.len()
}

impl Plan {
    /// The first units in order are planned, and the others are not.
    pub open spec fn wf(self, units: Seq<Unit>) -> bool {
        &&& self.order@ == depth_first(units)
        &&& each_once(units.len(), self.order@)
        &&& deps_first(units, self.order@)
        &&& self.at <= self.order@.len()
        &&& self.planned@.len() == units.len()
        &&& self.lto@.len() == units.len()
        &&& forall|k: int|
            0 <= k < self.order@.len() ==> match self.planned@[#[trigger] self.order@[k] as int] {
                Some(p) => k < self.at && cuts(p.name@, 16),
                None => k >= self.at,
            }
    }

    /// Nothing is planned yet.
    pub fn begin(ctx: &Ctx<'_>, g: &UnitGraph) -> (r: Plan)
        requires
            is_sound(ctx.pkgs(), *g),
        ensures
            r.wf(g.units@),
            r.at == 0,
            lto_of(ctx.pkgs(), *g, r.lto@),
    {
        let order = topo_order(&g.units);
        let lto = lto_modes(ctx.ws, g);
        let n: usize = g.units.len();
        let mut planned: Vec<Option<Planned>> = Vec::new();
        while planned.len() < n
            invariant
                planned@.len() <= n,
                forall|k: int| 0 <= k < planned@.len() ==> (#[trigger] planned@[k]).is_none(),
            decreases n - planned@.len(),
        {
            planned.push(None);
        }
        Plan { order, at: 0, lto, planned }
    }

    /// The unit whose turn it is; none where all are planned.
    pub fn turn(&self) -> (r: Option<usize>)
        ensures
            r == (if self.at < self.order@.len() {
                Some(self.order@[self.at as int])
            } else {
                None
            }),
    {
        if self.at < self.order.len() {
            Some(self.order[self.at])
        } else {
            None
        }
    }

    /// The command line and the name of the unit whose turn it is.
    pub fn draft(&self, ctx: &Ctx<'_>, units: &Vec<Unit>) -> (r: Result<Draft, PlanError>)
        requires
            self.wf(units@),
            self.at < self.order@.len(),
            is_ready(*ctx, units@, self.planned@, self.order@[self.at as int] as int),
        ensures
            ({
                let ui = self.order@[self.at as int] as int;
                let u = units@[ui];
                exists|l: Lints| #[trigger]
                    lints_of(ctx.pkgs()[u.pkg as int], l) && match (
                        command_of(*ctx, units@, self.planned@, u, l, self.lto@[ui]),
                        r,
                    ) {
                        (Some(c), Ok(d)) => drafted(*ctx, units@, self.planned@, ui, c, d),
                        (None, Err(e)) => refused(*ctx, units@, self.planned@, u, e),
                        _ => false,
                    }
            }),
    {
        let ui: usize = self.order[self.at];
        let l = from_table(ctx.ws.pkgs[units[ui].pkg].lints.as_ref());
        assert(lints_of(ctx.pkgs()[units@[ui as int].pkg as int], l));
        draft(ctx, ui, units, &self.planned, &l, self.lto[ui])
    }

    /// Plans the unit whose turn it is, with what was looked up for its draft.
    pub fn settle(
        &mut self,
        ctx: &Ctx<'_>,
        roots: &Vec<String>,
        units: &Vec<Unit>,
        d: Draft,
        prediction: Option<&Prediction>,
        seen: &Seen,
    )
        requires
            old(self).wf(units@),
            old(self).at < old(self).order@.len(),
            is_ready(*ctx, units@, old(self).planned@, old(self).order@[old(self).at as int] as int),
            exists|c| #[trigger] drafted(*ctx, units@, old(self).planned@, old(self).order@[old(self).at as int] as int, c, d),
            answers(prediction_view(prediction), *seen),
        ensures
            final(self).wf(units@),
            final(self).at == old(self).at + 1,
            final(self).order == old(self).order,
            final(self).lto == old(self).lto,
            ({
                let ui = old(self).order@[old(self).at as int] as int;
                exists|p: Planned|
                    final(self).planned@ == #[trigger] old(self).planned@.update(ui, Some(p)) && p@ == finished_plan(
                        *ctx,
                        views(roots@),
                        units@[ui],
                        old(self).planned@,
                        d,
                        prediction_view(prediction),
                        *seen,
                    )
            }),
    {
        let ui: usize = self.order[self.at];
        let ghost was = self.planned@;
        proof {
            let c = choose|c| #[trigger] drafted(*ctx, units@, was, ui as int, c, d);
            lemma_name_cuts(*ctx, units@, was, ui as int, c, d);
        }
        let p = finish(ctx, roots, ui, units, &self.planned, d, prediction, seen);
        self.planned.set(ui, Some(p));
        assert(self.at < self.order.len());
        self.at += 1;
        assert(self.planned@ == was.update(ui as int, Some(p)));
        assert forall|k: int| 0 <= k < self.order@.len() implies match self.planned@[#[trigger] self.order@[k] as int] {
            Some(p) => k < self.at && cuts(p.name@, 16),
            None => k >= self.at,
        } by {
            if self.order@[k] == ui {
                assert(k == self.at - 1);
            }
        }
    }

    /// The plans of all units, by their places in the graph.
    pub fn end(self) -> (r: Option<Vec<Planned>>)
        ensures
            match r {
                Some(l) => l@.len() == self.planned@.len() && forall|i: int|
                    0 <= i < l@.len() ==> self.planned@[i] == Some(#[trigger] l@[i]),
                None => exists|i: int| 0 <= i < self.planned@.len() && (#[trigger] self.planned@[i]).is_none(),
            },
    {
        let mut rest = self.planned;
        let ghost all = rest@;
        let n: usize = rest.len();
        let mut back: Vec<Planned> = Vec::new();
        while rest.len() > 0
            invariant
                rest@.len() <= all.len(),
                rest@ == all.take(rest@.len() as int),
                all == self.planned@,
                n == all.len(),
                back@.len() + rest@.len() == n,
                forall|i: int| 0 <= i < back@.len() ==> all[n - 1 - i] == Some(#[trigger] back@[i]),
            decreases rest@.len(),
        {
            match rest.pop() {
                Some(Some(p)) => {
                    back.push(p);
                },
                _ => {
                    assert(all[rest@.len() as int].is_none());
                    return None;
                },
            }
        }
        let mut out: Vec<Planned> = Vec::new();
        let ghost rev = back@;
        while back.len() > 0
            invariant
                back@.len() <= rev.len(),
                back@ == rev.take(back@.len() as int),
                rev.len() == n,
                n == all.len(),
                out@.len() + back@.len() == n,
                forall|i: int| 0 <= i < rev.len() ==> all[n - 1 - i] == Some(#[trigger] rev[i]),
                forall|i: int| 0 <= i < out@.len() ==> all[i] == Some(#[trigger] out@[i]),
            decreases back@.len(),
        {
            if let Some(p) = back.pop() {
                assert(rev[n - 1 - out@.len()] == p);
                out.push(p);
            }
        }
        Some(out)
    }
}

proof fn lemma_hex_is_ascii(b: Seq<u8>, k: int)
    requires
        0 <= k <= b.len(),
    ensures
        forall|i: int| 0 <= i < hex_upto(b, k).len() ==> (#[trigger] hex_upto(b, k)[i] as int) < 0x80,
    decreases k,
{
    if k > 0 {
        lemma_hex_is_ascii(b, k - 1);
        lemma_hex_len(b, k - 1);
    }
}

proof fn lemma_ascii_cuts(s: Seq<char>, n: int)
    requires
        0 <= n <= s.len(),
        forall|i: int| 0 <= i < s.len() ==> (#[trigger] s[i] as int) < 0x80,
    ensures
        cuts(s, n),
    decreases s.len(),
{
    if n > 0 {
        assert(char_bytes(s[0]) == 1);
        assert forall|i: int| 0 <= i < s.drop_first().len() implies (#[trigger] s.drop_first()[i] as int) < 0x80 by {
            assert(s.drop_first()[i] == s[i + 1]);
        }
        lemma_ascii_cuts(s.drop_first(), n - 1);
    }
}

proof fn lemma_name_cuts(
    ctx: Ctx,
    units: Seq<Unit>,
    planned: Seq<Option<Planned>>,
    ui: int,
    c: crate::commands::PlannedView,
    d: Draft,
)
    requires
        drafted(ctx, units, planned, ui, c, d),
    ensures
        cuts(d.name@, 16),
{
    let data = crate::keys::base_data(ctx, units[ui], crate::keys::line_hash(ctx, c.inv)) + vstd::utf8::encode_utf8(
        crate::keys::name_id(ctx, ctx.pkgs()[units[ui].pkg as int]),
    ) + crate::keys::dep_names(planned, units[ui].deps@, units[ui].deps@.len() as int);
    let h = crate::hash::blake3_key("rb 2026 unit name v1"@, data);
    lemma_hex_is_ascii(h, h.len() as int);
    lemma_ascii_cuts(d.name@, 16);
}

/// In a graph without cycles each unit can be planned when its turn comes: what it depends on has been.
pub proof fn law_every_unit_is_ready(ctx: Ctx, g: UnitGraph, p: Plan)
    requires
        is_sound(ctx.pkgs(), g),
        acyclic(g.units@),
        forall|u: int| 0 <= u < g.units@.len() ==> ctx.knows((#[trigger] g.units@[u]).kind),
        p.wf(g.units@),
        p.at < p.order@.len(),
    ensures
        is_ready(ctx, g.units@, p.planned@, p.order@[p.at as int] as int),
{
    let units = g.units@;
    let ui = p.order@[p.at as int] as int;
    assert forall|k: int| 0 <= k < units[ui].deps@.len() implies (#[trigger] units[ui].deps@[k]).unit < units.len()
        && match p.planned@[units[ui].deps@[k].unit as int] {
        Some(q) => cuts(q.name@, 16),
        None => false,
    } && ctx.knows(units[units[ui].deps@[k].unit as int].kind) by {
        let d = units[ui].deps@[k].unit;
        assert(needs(units, ui, d as int));
        assert(p.order@.take(p.at as int).contains(d));
        let j = choose|j: int| 0 <= j < p.order@.take(p.at as int).len() && p.order@.take(p.at as int)[j] == d;
        assert(p.order@[j] == d);
    }
}

/// When no turn is left, every unit is planned.
pub proof fn law_every_unit_is_planned(units: Seq<Unit>, p: Plan)
    requires
        p.wf(units),
        p.at == p.order@.len(),
    ensures
        forall|u: int| 0 <= u < units.len() ==> (#[trigger] p.planned@[u]).is_some(),
{
    assert forall|u: int| 0 <= u < units.len() implies (#[trigger] p.planned@[u]).is_some() by {
        assert(u < p.planned.len());
        let x = u as usize;
        assert(p.order@.contains(x));
        let k = choose|k: int| 0 <= k < p.order@.len() && p.order@[k] == x;
        assert(p.order@[k] == x);
    }
}

} // verus!
