//! Which features and dependencies of which packages are on.
//!
//! What is on follows from what was asked for by rules: a package that is on turns on its
//! dependencies, a dependency turns on features of its package, and a feature turns on other
//! features and optional dependencies. The rules are monotone, so what follows is the smallest set
//! of facts that holds the requests and is closed under them.

use vstd::prelude::*;
use crate::cfgexpr::PlatformCfg;
use crate::cfgexpr::PlatformExpr;
use crate::cfgexpr::PlatformTree;
use crate::cfgexpr::applies;
use crate::cfgexpr::facts;
use crate::finite::lemma_concat;
use crate::finite::lemma_pairs;
use crate::finite::pairs;
use crate::finite::upto;
use crate::manifest::DepDecl;
use crate::manifest::DepKind;
use crate::resolve::Graph;
use crate::resolve::Node;
use crate::sets::insert;
use crate::sets::insert_pair;
use crate::sets::rising;
use crate::sets::rising_pairs;
use crate::strmap::StrSet;
use crate::text::after_prefix;
use crate::text::before_suffix;
use crate::text::same;
use crate::text::split_first;
use crate::text::split_once;
use crate::text::strip_prefix;
use crate::text::strip_suffix;
use crate::text::views;

verus! {

pub struct Platforms<'a> {
    pub host: PlatformCfg<'a>,
    pub targets: Vec<PlatformCfg<'a>>,
}

pub struct EngineOpts<'a> {
    /// Resolver v2+: build deps and proc-macros get their own feature set.
    pub two_sides: bool,
    /// `None` means every platform. That's lock mode, and resolver v1.
    pub platforms: Option<&'a Platforms<'a>>,
    /// The packages whose dev-dependencies count.
    pub dev_for: &'a Vec<usize>,
    /// Don't expand a package until its manifest is loaded.
    pub needs_package: bool,
    /// Lock mode still pulls a weak `dep?/feat` into the graph. The feature pass leaves it off.
    pub weak_activates: bool,
}

pub struct Request {
    pub node: usize,
    pub features: Vec<String>,
    pub all_features: bool,
    pub default: bool,
}

#[derive(Debug)]
pub struct FeatureInfo {
    pub named: StrSet,
    pub optional_deps: StrSet,
}

/// What is on of a package, for the host or for the target.
#[derive(Debug)]
pub struct InfoEntry {
    pub node: usize,
    pub host: bool,
    pub info: FeatureInfo,
}

#[derive(Debug)]
pub struct Outcome {
    pub info: Vec<InfoEntry>,
    /// Activated deps that don't have a resolved target yet.
    pub missing: Vec<(usize, usize)>,
    /// Activated nodes whose data isn't loaded.
    pub unloaded: Vec<usize>,
    pub edges: Vec<(usize, usize)>,
}

/// A package was asked for a feature that it does not have.
#[derive(Debug)]
pub struct UnknownFeature {
    pub package: String,
    pub feature: String,
}

/// What is asked of a package.
pub enum Ask {
    /// That it is on at all.
    Base,
    /// That a feature is on.
    Feat(Seq<char>),
    /// That an optional dependency is on.
    Dep(Seq<char>),
    /// That a feature of a dependency is on; a weak one leaves an optional dependency off.
    DepFeat(Seq<char>, Seq<char>, bool),
}

/// What holds of a package, on the host side or not.
pub enum Fact {
    Asked(int, bool, Ask),
    /// The dependency with that index is on.
    Active(int, bool, int),
}

/// What a value of a feature asks for.
pub open spec fn ask_of(v: Seq<char>) -> Ask {
    match after_prefix(v, "dep:"@) {
        Some(d) => Ask::Dep(d),
        None => match split_first(v, '/') {
            Some((a, b)) => match before_suffix(a, "?"@) {
                Some(a) => Ask::DepFeat(a, b, true),
                None => Ask::DepFeat(a, b, false),
            },
            None => Ask::Feat(v),
        },
    }
}

/// The data of the node is there.
pub open spec fn ready(g: Graph, o: EngineOpts, n: int) -> bool {
    if o.needs_package {
        g.nodes@[n].package.is_some()
    } else {
        g.nodes@[n].data()
    }
}

/// The expression names one of the platforms.
pub open spec fn for_one_of(p: PlatformTree, targets: Seq<PlatformCfg>) -> bool {
    exists|i: int|
        0 <= i < targets.len() && applies(p, (#[trigger] targets[i]).triple@, facts(targets[i].cfg@))
}

/// The dependency is for the platform that the package is built for.
pub open spec fn platform_fits(o: EngineOpts, dep: DepDecl, host: bool) -> bool {
    match (dep.platform, o.platforms) {
        (None, _) => true,
        (_, None) => true,
        (Some(p), Some(pl)) => if host || dep.kind == DepKind::Build {
            applies(p@, pl.host.triple@, facts(pl.host.cfg@))
        } else {
            for_one_of(p@, pl.targets@)
        },
    }
}

/// The dependency counts for the package `n` on that side.
pub open spec fn counts(o: EngineOpts, n: int, dep: DepDecl, host: bool) -> bool {
    (dep.kind != DepKind::Dev || exists|k: int| 0 <= k < o.dev_for@.len() && #[trigger] o.dev_for@[k] == n)
        && platform_fits(o, dep, host)
}

/// The side on which the package `t` of a dependency is built.
pub open spec fn side_of(g: Graph, o: EngineOpts, t: int, dep: DepDecl, host: bool) -> bool {
    o.two_sides && (dep.kind == DepKind::Build || g.nodes@[t].proc_macro() || host)
}

/// The dependencies among the first `k` of the package that are on with it.
pub open spec fn base_edges(g: Graph, o: EngineOpts, n: int, host: bool, k: int) -> Seq<Fact>
    decreases k,
{
    if k <= 0 {
        Seq::empty()
    } else {
        let dep = g.nodes@[n].decls()[k - 1];
        let rest = base_edges(g, o, n, host, k - 1);
        if !dep.optional && counts(o, n, dep, host) {
            rest.push(Fact::Active(n, host, k - 1))
        } else {
            rest
        }
    }
}

/// The optional dependency is one that features call `name`, and counts.
pub open spec fn optional_called(o: EngineOpts, n: int, dep: DepDecl, host: bool, name: Seq<char>) -> bool {
    dep.optional && dep.called() == name && counts(o, n, dep, host)
}

/// The optional dependencies among the first `k` that features call `name`.
pub open spec fn optional_edges(g: Graph, o: EngineOpts, n: int, host: bool, name: Seq<char>, k: int) -> Seq<Fact>
    decreases k,
{
    if k <= 0 {
        Seq::empty()
    } else {
        let dep = g.nodes@[n].decls()[k - 1];
        let rest = optional_edges(g, o, n, host, name, k - 1);
        if optional_called(o, n, dep, host, name) {
            rest.push(Fact::Active(n, host, k - 1))
        } else {
            rest
        }
    }
}

/// What the first `k` values ask for.
pub open spec fn asks_of(n: int, host: bool, values: Seq<String>, k: int) -> Seq<Fact>
    decreases k,
{
    if k <= 0 {
        Seq::empty()
    } else {
        asks_of(n, host, values, k - 1).push(Fact::Asked(n, host, ask_of(values[k - 1]@)))
    }
}

/// The first `k` names as features.
pub open spec fn feats_of(n: int, host: bool, names: Seq<Seq<char>>, k: int) -> Seq<Fact>
    decreases k,
{
    if k <= 0 {
        Seq::empty()
    } else {
        feats_of(n, host, names, k - 1).push(Fact::Asked(n, host, Ask::Feat(names[k - 1])))
    }
}

/// What follows from a fact alone.
pub open spec fn follow(g: Graph, o: EngineOpts, p: Fact) -> Seq<Fact> {
    match p {
        Fact::Asked(n, host, ask) => if !ready(g, o, n) {
            Seq::empty()
        } else {
            let node = g.nodes@[n];
            match ask {
                Ask::Base => base_edges(g, o, n, host, node.decls().len() as int),
                Ask::Feat(f) => if node.feature_map().contains_key(f) {
                    asks_of(n, host, node.feature_map()[f]@, node.feature_map()[f]@.len() as int)
                } else {
                    Seq::empty()
                },
                Ask::Dep(name) => optional_edges(g, o, n, host, name, node.decls().len() as int),
                Ask::DepFeat(name, feat, weak) => if (!weak || o.weak_activates) && optional_edges(
                    g,
                    o,
                    n,
                    host,
                    name,
                    node.decls().len() as int,
                ).len() > 0 {
                    seq![Fact::Asked(n, host, Ask::Dep(name))] + if !weak && node.feature_map().contains_key(name) {
                        seq![Fact::Asked(n, host, Ask::Feat(name))]
                    } else {
                        Seq::empty()
                    }
                } else {
                    Seq::empty()
                },
            }
        },
        Fact::Active(n, host, i) => {
            let dep = g.nodes@[n].decls()[i];
            match g.target(n, dep) {
                Some(t) => if ready(g, o, t) {
                    let ts = side_of(g, o, t, dep, host);
                    seq![Fact::Asked(t, ts, Ask::Base)] + (if dep.default_features {
                        seq![Fact::Asked(t, ts, Ask::Feat("default"@))]
                    } else {
                        Seq::empty()
                    }) + feats_of(t, ts, views(dep.features@), dep.features@.len() as int)
                } else {
                    Seq::empty()
                },
                None => Seq::empty(),
            }
        },
    }
}

/// What follows from a dependency that is on and a feature that is asked of it.
pub open spec fn joint(g: Graph, o: EngineOpts, p: Fact, q: Fact) -> Option<Fact> {
    match (p, q) {
        (Fact::Active(n, host, i), Fact::Asked(m, h, Ask::DepFeat(name, feat, _))) => {
            let dep = g.nodes@[n].decls()[i];
            if m == n && h == host && dep.called() == name && ready(g, o, n) {
                match g.target(n, dep) {
                    Some(t) => if ready(g, o, t) {
                        Some(Fact::Asked(t, side_of(g, o, t, dep, host), Ask::Feat(feat)))
                    } else {
                        None
                    },
                    None => None,
                }
            } else {
                None
            }
        },
        _ => None,
    }
}

/// What a request asks for.
pub open spec fn request_facts(g: Graph, o: EngineOpts, r: Request) -> Seq<Fact> {
    let n = r.node as int;
    let host = o.two_sides && ready(g, o, n) && g.nodes@[n].proc_macro();
    seq![Fact::Asked(n, host, Ask::Base)] + (if r.default {
        seq![Fact::Asked(n, host, Ask::Feat("default"@))]
    } else {
        Seq::empty()
    }) + (if r.all_features && ready(g, o, n) {
        feats_of(n, host, g.nodes@[n].feature_names(), g.nodes@[n].feature_names().len() as int)
    } else {
        Seq::empty()
    }) + asks_of(n, host, r.features@, r.features@.len() as int)
}

/// What the first `k` requests ask for.
pub open spec fn asked(g: Graph, o: EngineOpts, reqs: Seq<Request>, k: int) -> Seq<Fact>
    decreases k,
{
    if k <= 0 {
        Seq::empty()
    } else {
        asked(g, o, reqs, k - 1) + request_facts(g, o, reqs[k - 1])
    }
}

/// The set holds whatever follows from what it holds.
pub open spec fn closed_under(g: Graph, o: EngineOpts, c: Set<Fact>) -> bool {
    &&& forall|p: Fact, x: Fact| c.contains(p) && #[trigger] follow(g, o, p).contains(x) ==> c.contains(x)
    &&& forall|p: Fact, q: Fact|
        c.contains(p) && c.contains(q) && (#[trigger] joint(g, o, p, q)).is_some() ==> c.contains(
            joint(g, o, p, q).unwrap(),
        )
}

/// The set holds what the requests ask for.
pub open spec fn holds_requests(g: Graph, o: EngineOpts, reqs: Seq<Request>, c: Set<Fact>) -> bool {
    forall|x: Fact| #[trigger] asked(g, o, reqs, reqs.len() as int).contains(x) ==> c.contains(x)
}

/// The fact follows from the requests: every closed set that holds them holds it.
pub open spec fn derives(g: Graph, o: EngineOpts, reqs: Seq<Request>, x: Fact) -> bool {
    forall|c: Set<Fact>| closed_under(g, o, c) && holds_requests(g, o, reqs, c) ==> #[trigger] c.contains(x)
}

// ---------------------------------------------------------------------------
// Working out what follows
// ---------------------------------------------------------------------------

enum Task {
    Base,
    Feat(String),
    Dep(String),
    DepFeat(String, String, bool),
}

impl View for Task {
    type V = Ask;

    closed spec fn view(&self) -> Ask {
        match self {
            Task::Base => Ask::Base,
            Task::Feat(f) => Ask::Feat(f@),
            Task::Dep(d) => Ask::Dep(d@),
            Task::DepFeat(d, f, weak) => Ask::DepFeat(d@, f@, *weak),
        }
    }
}

enum Item {
    Asked(usize, bool, Task),
    Active(usize, bool, usize),
}

impl View for Item {
    type V = Fact;

    closed spec fn view(&self) -> Fact {
        match self {
            Item::Asked(n, host, task) => Fact::Asked(*n as int, *host, task@),
            Item::Active(n, host, i) => Fact::Active(*n as int, *host, *i as int),
        }
    }
}

impl Task {
    fn same_as(&self, other: &Task) -> (r: bool)
        ensures
            r == (self@ == other@),
    {
        match (self, other) {
            (Task::Base, Task::Base) => true,
            (Task::Feat(a), Task::Feat(b)) => same(a.as_str(), b.as_str()),
            (Task::Dep(a), Task::Dep(b)) => same(a.as_str(), b.as_str()),
            (Task::DepFeat(a, f, w), Task::DepFeat(b, h, v)) => *w == *v && same(a.as_str(), b.as_str())
                && same(f.as_str(), h.as_str()),
            _ => false,
        }
    }
}

impl Item {
    fn same_as(&self, other: &Item) -> (r: bool)
        ensures
            r == (self@ == other@),
    {
        match (self, other) {
            (Item::Asked(n, host, a), Item::Asked(m, h, b)) => *n == *m && *host == *h && a.same_as(b),
            (Item::Active(n, host, i), Item::Active(m, h, j)) => *n == *m && *host == *h && *i == *j,
            _ => false,
        }
    }
}

/// The task that a value of a feature stands for.
fn task_of(v: &str) -> (r: Task)
    ensures
        r@ == ask_of(v@),
{
    if let Some(d) = strip_prefix(v, "dep:") {
        return Task::Dep(d.to_owned());
    }
    match split_once(v, '/') {
        Some((a, b)) => match strip_suffix(a, "?") {
            Some(a) => Task::DepFeat(a.to_owned(), b.to_owned(), true),
            None => Task::DepFeat(a.to_owned(), b.to_owned(), false),
        },
        None => Task::Feat(v.to_owned()),
    }
}

pub open spec fn in_range(g: Graph, x: Fact) -> bool {
    match x {
        Fact::Asked(n, _, _) => 0 <= n < g.nodes@.len(),
        Fact::Active(n, _, i) => 0 <= n < g.nodes@.len() && 0 <= i < g.nodes@[n].decls().len(),
    }
}

pub open spec fn all_in_range(g: Graph, s: Seq<Fact>) -> bool {
    forall|k: int| 0 <= k < s.len() ==> in_range(g, #[trigger] s[k])
}

fn matches_any(p: &PlatformExpr, targets: &Vec<PlatformCfg<'_>>) -> (r: bool)
    ensures
        r == for_one_of(p@, targets@),
{
    let mut i: usize = 0;
    while i < targets.len()
        invariant
            i <= targets@.len(),
            forall|j: int|
                0 <= j < i ==> !applies(p@, (#[trigger] targets@[j]).triple@, facts(targets@[j].cfg@)),
        decreases targets@.len() - i,
    {
        if p.matches(&targets[i]) {
            assert(applies(p@, targets@[i as int].triple@, facts(targets@[i as int].cfg@)));
            return true;
        }
        i += 1;
    }
    false
}

struct Engine<'a> {
    g: &'a Graph,
    o: &'a EngineOpts<'a>,
}

fn append_items(v: &mut Vec<Item>, more: Vec<Item>)
    ensures
        views(final(v)@) == views(old(v)@) + views(more@),
{
    let mut more: Vec<Item> = more;
    let ghost a = v@;
    let ghost b = more@;
    v.append(&mut more);
    assert(views(v@) =~= views(a) + views(b));
}

fn push_item(v: &mut Vec<Item>, x: Item)
    ensures
        views(final(v)@) == views(old(v)@).push(x@),
        final(v)@ == old(v)@.push(x),
{
    v.push(x);
    assert(views(v@) =~= views(old(v)@).push(x@));
}

impl<'a> Engine<'a> {
    spec fn ok(self) -> bool {
        self.g.wf()
    }

    fn loaded(&self, n: usize) -> (r: bool)
        requires
            n < self.g.nodes@.len(),
        ensures
            r == ready(*self.g, *self.o, n as int),
    {
        if self.o.needs_package {
            self.g.nodes[n].package.is_some()
        } else {
            self.g.nodes[n].has_data()
        }
    }

    fn platform_ok(&self, dep: &DepDecl, host: bool) -> (r: bool)
        ensures
            r == platform_fits(*self.o, *dep, host),
    {
        match (&dep.platform, self.o.platforms) {
            (None, _) => true,
            (_, None) => true,
            (Some(p), Some(pl)) => {
                // Build dependencies run on the host.
                if host || dep.kind == DepKind::Build {
                    return p.matches(&pl.host);
                }
                matches_any(p, &pl.targets)
            },
        }
    }

    fn kind_ok(&self, n: usize, dep: &DepDecl) -> (r: bool)
        ensures
            r == (dep.kind != DepKind::Dev || exists|k: int|
                0 <= k < self.o.dev_for@.len() && #[trigger] self.o.dev_for@[k] == n as int),
    {
        if dep.kind != DepKind::Dev {
            return true;
        }
        let mut i: usize = 0;
        while i < self.o.dev_for.len()
            invariant
                i <= self.o.dev_for@.len(),
                forall|j: int| 0 <= j < i ==> #[trigger] self.o.dev_for@[j] != n,
            decreases self.o.dev_for@.len() - i,
        {
            if self.o.dev_for[i] == n {
                return true;
            }
            i += 1;
        }
        false
    }

    fn target_side(&self, t: usize, dep: &DepDecl, s: bool) -> (r: bool)
        requires
            t < self.g.nodes@.len(),
        ensures
            r == side_of(*self.g, *self.o, t as int, *dep, s),
    {
        self.o.two_sides && (dep.kind == DepKind::Build || self.g.nodes[t].is_proc_macro() || s)
    }

    /// The dependencies that are on with the package.
    fn base(&self, n: usize, host: bool) -> (out: Vec<Item>)
        requires
            n < self.g.nodes@.len(),
        ensures
            views(out@) == base_edges(
                *self.g,
                *self.o,
                n as int,
                host,
                self.g.nodes@[n as int].decls().len() as int,
            ),
    {
        let mut out: Vec<Item> = Vec::new();
        let deps: &[DepDecl] = self.g.nodes[n].deps();
        let mut k: usize = 0;
        assert(views(out@) =~= Seq::<Fact>::empty());
        while k < deps.len()
            invariant
                k <= deps@.len(),
                n < self.g.nodes@.len(),
                deps@ == self.g.nodes@[n as int].decls(),
                views(out@) == base_edges(*self.g, *self.o, n as int, host, k as int),
            decreases deps@.len() - k,
        {
            let dep: &DepDecl = &deps[k];
            if !dep.optional && self.kind_ok(n, dep) && self.platform_ok(dep, host) {
                push_item(&mut out, Item::Active(n, host, k));
            }
            k += 1;
        }
        out
    }

    /// The optional dependencies that features call `name`.
    fn optional(&self, n: usize, host: bool, name: &str) -> (out: Vec<Item>)
        requires
            n < self.g.nodes@.len(),
        ensures
            views(out@) == optional_edges(
                *self.g,
                *self.o,
                n as int,
                host,
                name@,
                self.g.nodes@[n as int].decls().len() as int,
            ),
    {
        let mut out: Vec<Item> = Vec::new();
        let deps: &[DepDecl] = self.g.nodes[n].deps();
        let mut k: usize = 0;
        assert(views(out@) =~= Seq::<Fact>::empty());
        while k < deps.len()
            invariant
                k <= deps@.len(),
                n < self.g.nodes@.len(),
                deps@ == self.g.nodes@[n as int].decls(),
                views(out@) == optional_edges(*self.g, *self.o, n as int, host, name@, k as int),
            decreases deps@.len() - k,
        {
            let dep: &DepDecl = &deps[k];
            if dep.optional && same(dep.dep_name(), name) && self.kind_ok(n, dep) && self.platform_ok(dep, host) {
                push_item(&mut out, Item::Active(n, host, k));
            }
            k += 1;
        }
        out
    }

    /// What the values ask for.
    fn values(&self, n: usize, host: bool, values: &Vec<String>) -> (out: Vec<Item>)
        ensures
            views(out@) == asks_of(n as int, host, values@, values@.len() as int),
    {
        let mut out: Vec<Item> = Vec::new();
        let mut k: usize = 0;
        assert(views(out@) =~= Seq::<Fact>::empty());
        while k < values.len()
            invariant
                k <= values@.len(),
                views(out@) == asks_of(n as int, host, values@, k as int),
            decreases values@.len() - k,
        {
            push_item(&mut out, Item::Asked(n, host, task_of(values[k].as_str())));
            k += 1;
        }
        out
    }

    /// The names as features.
    fn feats(&self, n: usize, host: bool, names: &Vec<String>) -> (out: Vec<Item>)
        ensures
            views(out@) == feats_of(n as int, host, views(names@), names@.len() as int),
    {
        let mut out: Vec<Item> = Vec::new();
        let mut k: usize = 0;
        assert(views(out@) =~= Seq::<Fact>::empty());
        while k < names.len()
            invariant
                k <= names@.len(),
                views(out@) == feats_of(n as int, host, views(names@), k as int),
            decreases names@.len() - k,
        {
            push_item(&mut out, Item::Asked(n, host, Task::Feat(names[k].clone())));
            k += 1;
        }
        out
    }

    /// What follows from the item alone.
    fn consequences(&self, p: &Item) -> (out: Vec<Item>)
        requires
            self.ok(),
            in_range(*self.g, p@),
        ensures
            views(out@) == follow(*self.g, *self.o, p@),
    {
        match p {
            Item::Asked(n, host, task) => {
                if !self.loaded(*n) {
                    let out: Vec<Item> = Vec::new();
                    assert(views(out@) =~= Seq::<Fact>::empty());
                    return out;
                }
                let node: &Node = &self.g.nodes[*n];
                match task {
                    Task::Base => self.base(*n, *host),
                    Task::Feat(f) => match node.feature(f.as_str()) {
                        Some(values) => self.values(*n, *host, values),
                        None => {
                            let out: Vec<Item> = Vec::new();
                            assert(views(out@) =~= Seq::<Fact>::empty());
                            out
                        },
                    },
                    Task::Dep(name) => self.optional(*n, *host, name.as_str()),
                    Task::DepFeat(name, _, weak) => {
                        let mut out: Vec<Item> = Vec::new();
                        assert(views(out@) =~= Seq::<Fact>::empty());
                        // `dep/feat` only activates `dep` when that dependency actually applies here.
                        let edges: Vec<Item> = self.optional(*n, *host, name.as_str());
                        assert(views(edges@).len() == edges@.len());
                        if (!*weak || self.o.weak_activates) && edges.len() > 0 {
                            push_item(&mut out, Item::Asked(*n, *host, Task::Dep(name.clone())));
                            if !*weak && node.feature(name.as_str()).is_some() {
                                push_item(&mut out, Item::Asked(*n, *host, Task::Feat(name.clone())));
                            }
                            assert(views(out@) =~= follow(*self.g, *self.o, p@));
                        }
                        out
                    },
                }
            },
            Item::Active(n, host, i) => {
                let mut out: Vec<Item> = Vec::new();
                assert(views(out@) =~= Seq::<Fact>::empty());
                let dep: &DepDecl = &self.g.nodes[*n].deps()[*i];
                if let Some(t) = self.g.target_of(*n, dep) {
                    if self.loaded(t) {
                        let ts: bool = self.target_side(t, dep, *host);
                        push_item(&mut out, Item::Asked(t, ts, Task::Base));
                        if dep.default_features {
                            push_item(&mut out, Item::Asked(t, ts, Task::Feat("default".to_owned())));
                        }
                        let ghost head = views(out@);
                        append_items(&mut out, self.feats(t, ts, &dep.features));
                        proof {
                            let rest = feats_of(t as int, ts, views(dep.features@), dep.features@.len() as int);
                            assert(head =~= seq![Fact::Asked(t as int, ts, Ask::Base)] + (if dep.default_features {
                                seq![Fact::Asked(t as int, ts, Ask::Feat("default"@))]
                            } else {
                                Seq::empty()
                            }));
                            assert(views(out@) == head + rest);
                        }
                    }
                }
                out
            },
        }
    }

    /// What follows from a dependency that is on and a feature that is asked of it.
    fn pair(&self, p: &Item, q: &Item) -> (r: Option<Item>)
        requires
            self.ok(),
            in_range(*self.g, p@),
            in_range(*self.g, q@),
        ensures
            r.is_some() == joint(*self.g, *self.o, p@, q@).is_some(),
            r.is_some() ==> r.unwrap()@ == joint(*self.g, *self.o, p@, q@).unwrap(),
    {
        match (p, q) {
            (Item::Active(n, host, i), Item::Asked(m, h, Task::DepFeat(name, feat, _))) => {
                if *m != *n || *h != *host {
                    return None;
                }
                let dep: &DepDecl = &self.g.nodes[*n].deps()[*i];
                if !same(dep.dep_name(), name.as_str()) || !self.loaded(*n) {
                    return None;
                }
                match self.g.target_of(*n, dep) {
                    Some(t) => if self.loaded(t) {
                        Some(Item::Asked(t, self.target_side(t, dep, *host), Task::Feat(feat.clone())))
                    } else {
                        None
                    },
                    None => None,
                }
            },
            _ => None,
        }
    }

    /// What a request asks for.
    fn request(&self, r: &Request) -> (out: Vec<Item>)
        requires
            r.node < self.g.nodes@.len(),
        ensures
            views(out@) == request_facts(*self.g, *self.o, *r),
    {
        let n: usize = r.node;
        let ready: bool = self.loaded(n);
        let host: bool = self.o.two_sides && ready && self.g.nodes[n].is_proc_macro();
        let mut out: Vec<Item> = Vec::new();
        push_item(&mut out, Item::Asked(n, host, Task::Base));
        if r.default {
            push_item(&mut out, Item::Asked(n, host, Task::Feat("default".to_owned())));
        }
        let ghost head = views(out@);
        assert(head =~= seq![Fact::Asked(n as int, host, Ask::Base)] + (if r.default {
            seq![Fact::Asked(n as int, host, Ask::Feat("default"@))]
        } else {
            Seq::empty()
        }));
        let ghost all = if r.all_features && ready {
            feats_of(
                n as int,
                host,
                self.g.nodes@[n as int].feature_names(),
                self.g.nodes@[n as int].feature_names().len() as int,
            )
        } else {
            Seq::empty()
        };
        if r.all_features && ready {
            match self.g.nodes[n].features() {
                Some(m) => {
                    append_items(&mut out, self.feats(n, host, m.keys()));
                },
                None => {},
            }
        }
        assert(views(out@) =~= head + all);
        append_items(&mut out, self.values(n, host, &r.features));
        out
    }
}

// ---------------------------------------------------------------------------
// There are only so many facts
// ---------------------------------------------------------------------------

spec fn names_in(a: Ask) -> Seq<Seq<char>> {
    match a {
        Ask::Base => Seq::empty(),
        Ask::Feat(f) => seq![f],
        Ask::Dep(d) => seq![d],
        Ask::DepFeat(d, f, _) => seq![d, f],
    }
}

spec fn value_names(values: Seq<String>, k: int) -> Seq<Seq<char>>
    decreases k,
{
    if k <= 0 {
        Seq::empty()
    } else {
        value_names(values, k - 1) + names_in(ask_of(values[k - 1]@))
    }
}

spec fn map_names(m: Map<Seq<char>, Vec<String>>, keys: Seq<Seq<char>>, k: int) -> Seq<Seq<char>>
    decreases k,
{
    if k <= 0 {
        Seq::empty()
    } else {
        map_names(m, keys, k - 1) + value_names(m[keys[k - 1]]@, m[keys[k - 1]]@.len() as int)
    }
}

spec fn dep_names(deps: Seq<DepDecl>, k: int) -> Seq<Seq<char>>
    decreases k,
{
    if k <= 0 {
        Seq::empty()
    } else {
        dep_names(deps, k - 1) + views(deps[k - 1].features@)
    }
}

spec fn node_names(node: Node) -> Seq<Seq<char>> {
    dep_names(node.decls(), node.decls().len() as int) + node.feature_names() + map_names(
        node.feature_map(),
        node.feature_names(),
        node.feature_names().len() as int,
    )
}

spec fn graph_names(g: Graph, k: int) -> Seq<Seq<char>>
    decreases k,
{
    if k <= 0 {
        Seq::empty()
    } else {
        graph_names(g, k - 1) + node_names(g.nodes@[k - 1])
    }
}

spec fn request_names(reqs: Seq<Request>, k: int) -> Seq<Seq<char>>
    decreases k,
{
    if k <= 0 {
        Seq::empty()
    } else {
        request_names(reqs, k - 1) + value_names(reqs[k - 1].features@, reqs[k - 1].features@.len() as int)
    }
}

/// Every name that a fact can hold.
spec fn all_names(g: Graph, reqs: Seq<Request>) -> Seq<Seq<char>> {
    seq!["default"@] + graph_names(g, g.nodes@.len() as int) + request_names(reqs, reqs.len() as int)
}

spec fn most_deps(g: Graph, k: int) -> int
    decreases k,
{
    if k <= 0 {
        0
    } else {
        most_deps(g, k - 1) + g.nodes@[k - 1].decls().len()
    }
}

proof fn lemma_value_names(values: Seq<String>, j: int, k: int, x: Seq<char>)
    requires
        0 <= j < k <= values.len(),
        names_in(ask_of(values[j]@)).contains(x),
    ensures
        value_names(values, k).contains(x),
    decreases k,
{
    lemma_concat(value_names(values, k - 1), names_in(ask_of(values[k - 1]@)), x);
    if j < k - 1 {
        lemma_value_names(values, j, k - 1, x);
    }
}

proof fn lemma_map_names(m: Map<Seq<char>, Vec<String>>, keys: Seq<Seq<char>>, j: int, k: int, x: Seq<char>)
    requires
        0 <= j < k <= keys.len(),
        value_names(m[keys[j]]@, m[keys[j]]@.len() as int).contains(x),
    ensures
        map_names(m, keys, k).contains(x),
    decreases k,
{
    lemma_concat(
        map_names(m, keys, k - 1),
        value_names(m[keys[k - 1]]@, m[keys[k - 1]]@.len() as int),
        x,
    );
    if j < k - 1 {
        lemma_map_names(m, keys, j, k - 1, x);
    }
}

proof fn lemma_dep_names(deps: Seq<DepDecl>, j: int, k: int, x: Seq<char>)
    requires
        0 <= j < k <= deps.len(),
        views(deps[j].features@).contains(x),
    ensures
        dep_names(deps, k).contains(x),
    decreases k,
{
    lemma_concat(dep_names(deps, k - 1), views(deps[k - 1].features@), x);
    if j < k - 1 {
        lemma_dep_names(deps, j, k - 1, x);
    }
}

proof fn lemma_graph_names(g: Graph, j: int, k: int, x: Seq<char>)
    requires
        0 <= j < k <= g.nodes@.len(),
        node_names(g.nodes@[j]).contains(x),
    ensures
        graph_names(g, k).contains(x),
    decreases k,
{
    lemma_concat(graph_names(g, k - 1), node_names(g.nodes@[k - 1]), x);
    if j < k - 1 {
        lemma_graph_names(g, j, k - 1, x);
    }
}

proof fn lemma_request_names(reqs: Seq<Request>, j: int, k: int, x: Seq<char>)
    requires
        0 <= j < k <= reqs.len(),
        value_names(reqs[j].features@, reqs[j].features@.len() as int).contains(x),
    ensures
        request_names(reqs, k).contains(x),
    decreases k,
{
    lemma_concat(
        request_names(reqs, k - 1),
        value_names(reqs[k - 1].features@, reqs[k - 1].features@.len() as int),
        x,
    );
    if j < k - 1 {
        lemma_request_names(reqs, j, k - 1, x);
    }
}

proof fn lemma_node_name(g: Graph, reqs: Seq<Request>, n: int, x: Seq<char>)
    requires
        0 <= n < g.nodes@.len(),
        node_names(g.nodes@[n]).contains(x),
    ensures
        all_names(g, reqs).contains(x),
{
    lemma_graph_names(g, n, g.nodes@.len() as int, x);
    let a = seq!["default"@];
    let b = graph_names(g, g.nodes@.len() as int);
    lemma_concat(a, b, x);
    lemma_concat(a + b, request_names(reqs, reqs.len() as int), x);
}

proof fn lemma_node_parts(node: Node, x: Seq<char>)
    ensures
        node_names(node).contains(x) == (dep_names(node.decls(), node.decls().len() as int).contains(x)
            || node.feature_names().contains(x) || map_names(
            node.feature_map(),
            node.feature_names(),
            node.feature_names().len() as int,
        ).contains(x)),
{
    let a = dep_names(node.decls(), node.decls().len() as int);
    lemma_concat(a, node.feature_names(), x);
    lemma_concat(
        a + node.feature_names(),
        map_names(node.feature_map(), node.feature_names(), node.feature_names().len() as int),
        x,
    );
}

proof fn lemma_default_name(g: Graph, reqs: Seq<Request>)
    ensures
        all_names(g, reqs).contains("default"@),
{
    assert(all_names(g, reqs)[0] == "default"@);
}

/// The fact is one of the finitely many that can hold.
spec fn small(g: Graph, reqs: Seq<Request>, x: Fact) -> bool {
    in_range(g, x) && match x {
        Fact::Asked(_, _, a) => forall|s: Seq<char>| #[trigger] names_in(a).contains(s) ==> all_names(g, reqs).contains(s),
        Fact::Active(_, _, _) => true,
    }
}

proof fn lemma_small_feat(g: Graph, reqs: Seq<Request>, n: int, host: bool, f: Seq<char>)
    requires
        0 <= n < g.nodes@.len(),
        all_names(g, reqs).contains(f),
    ensures
        small(g, reqs, Fact::Asked(n, host, Ask::Feat(f))),
        small(g, reqs, Fact::Asked(n, host, Ask::Dep(f))),
{
    assert forall|s: Seq<char>| #[trigger] names_in(Ask::Feat(f)).contains(s) implies s == f by {}
    assert forall|s: Seq<char>| #[trigger] names_in(Ask::Dep(f)).contains(s) implies s == f by {}
}

proof fn lemma_base_edges(g: Graph, o: EngineOpts, n: int, host: bool, k: int, x: Fact)
    requires
        base_edges(g, o, n, host, k).contains(x),
        k <= g.nodes@[n].decls().len(),
    ensures
        x matches Fact::Active(m, h, i) && m == n && h == host && 0 <= i < k,
    decreases k,
{
    if k > 0 {
        let rest = base_edges(g, o, n, host, k - 1);
        if rest.contains(x) {
            lemma_base_edges(g, o, n, host, k - 1, x);
        } else {
            assert(x == Fact::Active(n, host, k - 1));
        }
    }
}

proof fn lemma_optional_edges(g: Graph, o: EngineOpts, n: int, host: bool, name: Seq<char>, k: int, x: Fact)
    requires
        optional_edges(g, o, n, host, name, k).contains(x),
        k <= g.nodes@[n].decls().len(),
    ensures
        x matches Fact::Active(m, h, i) && m == n && h == host && 0 <= i < k,
    decreases k,
{
    if k > 0 {
        let rest = optional_edges(g, o, n, host, name, k - 1);
        if rest.contains(x) {
            lemma_optional_edges(g, o, n, host, name, k - 1, x);
        } else {
            assert(x == Fact::Active(n, host, k - 1));
        }
    }
}

pub proof fn lemma_asks_of(n: int, host: bool, values: Seq<String>, k: int, x: Fact)
    requires
        asks_of(n, host, values, k).contains(x),
        k <= values.len(),
    ensures
        exists|j: int| 0 <= j < k && x == Fact::Asked(n, host, ask_of((#[trigger] values[j])@)),
    decreases k,
{
    if k > 0 {
        let rest = asks_of(n, host, values, k - 1);
        if rest.contains(x) {
            lemma_asks_of(n, host, values, k - 1, x);
        } else {
            assert(x == Fact::Asked(n, host, ask_of(values[k - 1]@)));
        }
    }
}

pub proof fn lemma_feats_of(n: int, host: bool, names: Seq<Seq<char>>, k: int, x: Fact)
    requires
        feats_of(n, host, names, k).contains(x),
        k <= names.len(),
    ensures
        exists|j: int| 0 <= j < k && x == Fact::Asked(n, host, Ask::Feat(#[trigger] names[j])),
    decreases k,
{
    if k > 0 {
        let rest = feats_of(n, host, names, k - 1);
        if rest.contains(x) {
            lemma_feats_of(n, host, names, k - 1, x);
        } else {
            assert(x == Fact::Asked(n, host, Ask::Feat(names[k - 1])));
        }
    }
}

/// The keys of the features of a node are its list of names.
pub proof fn lemma_feature_keys(node: Node)
    ensures
        forall|k: Seq<char>| #[trigger] node.feature_map().contains_key(k) == node.feature_names().contains(k),
{
    match (node.package, node.summary) {
        (Some(p), _) => {
            p.features.lemma_key_list();
        },
        (None, Some(s)) => {
            s.features.lemma_key_list();
        },
        _ => {
            assert forall|k: Seq<char>| #[trigger] node.feature_map().contains_key(k)
                == node.feature_names().contains(k) by {}
        },
    }
}

proof fn lemma_asks_small(g: Graph, reqs: Seq<Request>, n: int, host: bool, values: Seq<String>, x: Fact)
    requires
        0 <= n < g.nodes@.len(),
        asks_of(n, host, values, values.len() as int).contains(x),
        forall|s: Seq<char>| #[trigger] value_names(values, values.len() as int).contains(s) ==> all_names(
            g,
            reqs,
        ).contains(s),
    ensures
        small(g, reqs, x),
{
    lemma_asks_of(n, host, values, values.len() as int, x);
    let j = choose|j: int| 0 <= j < values.len() && x == Fact::Asked(n, host, ask_of((#[trigger] values[j])@));
    assert forall|s: Seq<char>| #[trigger] names_in(ask_of(values[j]@)).contains(s) implies all_names(
        g,
        reqs,
    ).contains(s) by {
        lemma_value_names(values, j, values.len() as int, s);
    }
}

proof fn lemma_feats_small(g: Graph, reqs: Seq<Request>, n: int, host: bool, names: Seq<Seq<char>>, x: Fact)
    requires
        0 <= n < g.nodes@.len(),
        feats_of(n, host, names, names.len() as int).contains(x),
        forall|s: Seq<char>| #[trigger] names.contains(s) ==> all_names(g, reqs).contains(s),
    ensures
        small(g, reqs, x),
{
    lemma_feats_of(n, host, names, names.len() as int, x);
    let j = choose|j: int| 0 <= j < names.len() && x == Fact::Asked(n, host, Ask::Feat(#[trigger] names[j]));
    assert(names.contains(names[j]));
    lemma_small_feat(g, reqs, n, host, names[j]);
}

proof fn lemma_target_in_range(g: Graph, n: int, dep: DepDecl, k: int)
    requires
        g.wf(),
        0 <= n < g.nodes@.len(),
        0 <= k <= g.nodes@[n].edges@.len(),
    ensures
        g.newest_edge(n, dep, k).is_some() ==> 0 <= g.newest_edge(n, dep, k).unwrap() < g.nodes@.len(),
    decreases k,
{
    if k > 0 {
        lemma_target_in_range(g, n, dep, k - 1);
        assert(g.nodes@[n].edges@[k - 1] < g.nodes@.len());
    }
}

proof fn lemma_commit_node(g: Graph, name: Seq<char>, url: Seq<char>, commit: Seq<char>, i: int)
    requires
        0 <= i,
    ensures
        g.commit_node(name, url, commit, i).is_some() ==> i <= g.commit_node(name, url, commit, i).unwrap()
            < g.nodes@.len(),
    decreases g.nodes@.len() - i,
{
    if i < g.nodes@.len() {
        lemma_commit_node(g, name, url, commit, i + 1);
    }
}

/// A dependency resolves to a node of the graph.
pub proof fn lemma_target(g: Graph, n: int, dep: DepDecl)
    requires
        g.wf(),
        0 <= n < g.nodes@.len(),
    ensures
        g.target(n, dep).is_some() ==> 0 <= g.target(n, dep).unwrap() < g.nodes@.len(),
{
    lemma_target_in_range(g, n, dep, g.nodes@[n].edges@.len() as int);
    match g.nodes@[n].id.source@ {
        crate::resolve::SourceIdView::Git { url, commit, .. } => {
            lemma_commit_node(g, dep.name@, url, commit, 0);
        },
        _ => {},
    }
}

proof fn lemma_follow_small(g: Graph, o: EngineOpts, reqs: Seq<Request>, p: Fact, x: Fact)
    requires
        g.wf(),
        small(g, reqs, p),
        follow(g, o, p).contains(x),
    ensures
        small(g, reqs, x),
{
    match p {
        Fact::Asked(n, host, ask) => {
            let node = g.nodes@[n];
            match ask {
                Ask::Base => {
                    lemma_base_edges(g, o, n, host, node.decls().len() as int, x);
                },
                Ask::Feat(f) => {
                    lemma_feature_keys(node);
                    let keys = node.feature_names();
                    let m = node.feature_map();
                    let j = choose|j: int| 0 <= j < keys.len() && keys[j] == f;
                    assert forall|s: Seq<char>| #[trigger] value_names(m[f]@, m[f]@.len() as int).contains(
                        s,
                    ) implies all_names(g, reqs).contains(s) by {
                        lemma_map_names(m, keys, j, keys.len() as int, s);
                        lemma_node_parts(node, s);
                        lemma_node_name(g, reqs, n, s);
                    }
                    lemma_asks_small(g, reqs, n, host, m[f]@, x);
                },
                Ask::Dep(name) => {
                    lemma_optional_edges(g, o, n, host, name, node.decls().len() as int, x);
                },
                Ask::DepFeat(name, feat, weak) => {
                    assert(names_in(ask)[0] == name);
                    assert(names_in(ask).contains(name));
                    lemma_small_feat(g, reqs, n, host, name);
                },
            }
        },
        Fact::Active(n, host, i) => {
            let dep = g.nodes@[n].decls()[i];
            lemma_target(g, n, dep);
            let t = g.target(n, dep).unwrap();
            let ts = side_of(g, o, t, dep, host);
            lemma_default_name(g, reqs);
            lemma_small_feat(g, reqs, t, ts, "default"@);
            let a = seq![Fact::Asked(t, ts, Ask::Base)];
            let b = if dep.default_features {
                seq![Fact::Asked(t, ts, Ask::Feat("default"@))]
            } else {
                Seq::empty()
            };
            let c = feats_of(t, ts, views(dep.features@), dep.features@.len() as int);
            lemma_concat(a + b, c, x);
            lemma_concat(a, b, x);
            if a.contains(x) {
                assert(x == Fact::Asked(t, ts, Ask::Base));
            } else if b.contains(x) {
                assert(x == Fact::Asked(t, ts, Ask::Feat("default"@)));
            } else {
                assert forall|s: Seq<char>| #[trigger] views(dep.features@).contains(s) implies all_names(
                    g,
                    reqs,
                ).contains(s) by {
                    lemma_dep_names(g.nodes@[n].decls(), i, g.nodes@[n].decls().len() as int, s);
                    lemma_node_parts(g.nodes@[n], s);
                    lemma_node_name(g, reqs, n, s);
                }
                lemma_feats_small(g, reqs, t, ts, views(dep.features@), x);
            }
        },
    }
}

proof fn lemma_joint_small(g: Graph, o: EngineOpts, reqs: Seq<Request>, p: Fact, q: Fact)
    requires
        g.wf(),
        small(g, reqs, p),
        small(g, reqs, q),
        joint(g, o, p, q).is_some(),
    ensures
        small(g, reqs, joint(g, o, p, q).unwrap()),
{
    match (p, q) {
        (Fact::Active(n, host, i), Fact::Asked(m, h, Ask::DepFeat(name, feat, weak))) => {
            let dep = g.nodes@[n].decls()[i];
            lemma_target(g, n, dep);
            let a = Ask::DepFeat(name, feat, weak);
            assert(names_in(a)[1] == feat);
            assert(names_in(a).contains(feat));
            let t = g.target(n, dep).unwrap();
            lemma_small_feat(g, reqs, t, side_of(g, o, t, dep, host), feat);
        },
        _ => {},
    }
}

proof fn lemma_request_small(g: Graph, o: EngineOpts, reqs: Seq<Request>, k: int, x: Fact)
    requires
        0 <= k < reqs.len(),
        reqs[k].node < g.nodes@.len(),
        request_facts(g, o, reqs[k]).contains(x),
    ensures
        small(g, reqs, x),
{
    let r = reqs[k];
    let n = r.node as int;
    let node = g.nodes@[n];
    let host = o.two_sides && ready(g, o, n) && node.proc_macro();
    let a = seq![Fact::Asked(n, host, Ask::Base)];
    let b = if r.default {
        seq![Fact::Asked(n, host, Ask::Feat("default"@))]
    } else {
        Seq::empty()
    };
    let c = if r.all_features && ready(g, o, n) {
        feats_of(n, host, node.feature_names(), node.feature_names().len() as int)
    } else {
        Seq::empty()
    };
    let d = asks_of(n, host, r.features@, r.features@.len() as int);
    lemma_concat(a + b + c, d, x);
    lemma_concat(a + b, c, x);
    lemma_concat(a, b, x);
    lemma_default_name(g, reqs);
    lemma_small_feat(g, reqs, n, host, "default"@);
    if a.contains(x) {
        assert(x == Fact::Asked(n, host, Ask::Base));
    } else if b.contains(x) {
        assert(x == Fact::Asked(n, host, Ask::Feat("default"@)));
    } else if c.contains(x) {
        assert forall|s: Seq<char>| #[trigger] node.feature_names().contains(s) implies all_names(
            g,
            reqs,
        ).contains(s) by {
            lemma_node_parts(node, s);
            lemma_node_name(g, reqs, n, s);
        }
        lemma_feats_small(g, reqs, n, host, node.feature_names(), x);
    } else {
        assert forall|s: Seq<char>| #[trigger] value_names(r.features@, r.features@.len() as int).contains(
            s,
        ) implies all_names(g, reqs).contains(s) by {
            lemma_request_names(reqs, k, reqs.len() as int, s);
            lemma_concat(
                seq!["default"@] + graph_names(g, g.nodes@.len() as int),
                request_names(reqs, reqs.len() as int),
                s,
            );
        }
        lemma_asks_small(g, reqs, n, host, r.features@, x);
    }
}

type Code = ((int, bool), ((int, Seq<char>), (Seq<char>, bool)));

spec fn code(x: Fact) -> Code {
    match x {
        Fact::Asked(n, h, Ask::Base) => ((n, h), ((0, Seq::empty()), (Seq::empty(), false))),
        Fact::Asked(n, h, Ask::Feat(f)) => ((n, h), ((1, f), (Seq::empty(), false))),
        Fact::Asked(n, h, Ask::Dep(d)) => ((n, h), ((2, d), (Seq::empty(), false))),
        Fact::Asked(n, h, Ask::DepFeat(d, f, w)) => ((n, h), ((3, d), (f, w))),
        Fact::Active(n, h, i) => ((n, h), ((4 + i, Seq::empty()), (Seq::empty(), false))),
    }
}

spec fn universe(g: Graph, reqs: Seq<Request>) -> Seq<Code> {
    let names = all_names(g, reqs).push(Seq::empty());
    let sides = seq![true, false];
    pairs(
        pairs(upto(g.nodes@.len() as int), sides),
        pairs(pairs(upto(4 + most_deps(g, g.nodes@.len() as int)), names), pairs(names, sides)),
    )
}

proof fn lemma_most_deps(g: Graph, n: int, k: int)
    requires
        0 <= n < k <= g.nodes@.len(),
    ensures
        g.nodes@[n].decls().len() <= most_deps(g, k),
    decreases k,
{
    if n < k - 1 {
        lemma_most_deps(g, n, k - 1);
    } else {
        lemma_most_positive(g, k - 1);
    }
}

proof fn lemma_most_positive(g: Graph, k: int)
    ensures
        most_deps(g, k) >= 0,
    decreases k,
{
    if k > 0 {
        lemma_most_positive(g, k - 1);
    }
}

proof fn lemma_in_universe(g: Graph, reqs: Seq<Request>, x: Fact)
    requires
        small(g, reqs, x),
    ensures
        universe(g, reqs).contains(code(x)),
{
    let names = all_names(g, reqs).push(Seq::empty());
    let sides = seq![true, false];
    let most = most_deps(g, g.nodes@.len() as int);
    lemma_most_positive(g, g.nodes@.len() as int);
    let ((n, h), ((c, s), (t, w))) = code(x);
    assert(sides[0] == true && sides[1] == false);
    assert(sides.contains(h) && sides.contains(w));
    assert(names[names.len() - 1] == Seq::<char>::empty());
    assert(upto(g.nodes@.len() as int)[n] == n);
    match x {
        Fact::Active(m, _, i) => {
            lemma_most_deps(g, m, g.nodes@.len() as int);
        },
        Fact::Asked(_, _, Ask::Feat(f)) => {
            assert(names_in(Ask::Feat(f))[0] == f);
            assert(names_in(Ask::Feat(f)).contains(f));
        },
        Fact::Asked(_, _, Ask::Dep(d)) => {
            assert(names_in(Ask::Dep(d))[0] == d);
            assert(names_in(Ask::Dep(d)).contains(d));
        },
        Fact::Asked(_, _, Ask::DepFeat(d, f, w)) => {
            let a = Ask::DepFeat(d, f, w);
            assert(names_in(a)[0] == d && names_in(a)[1] == f);
            assert(names_in(a).contains(d) && names_in(a).contains(f));
        },
        _ => {},
    }
    assert forall|y: Seq<char>| all_names(g, reqs).contains(y) implies #[trigger] names.contains(y) by {
        let i = choose|i: int| 0 <= i < all_names(g, reqs).len() && all_names(g, reqs)[i] == y;
        assert(names[i] == y);
    }
    assert(names.contains(s) && names.contains(t));
    assert(upto(4 + most)[c] == c);
    lemma_pairs(upto(g.nodes@.len() as int), sides, n, h);
    lemma_pairs(upto(4 + most), names, c, s);
    lemma_pairs(names, sides, t, w);
    lemma_pairs(pairs(upto(4 + most), names), pairs(names, sides), (c, s), (t, w));
    lemma_pairs(
        pairs(upto(g.nodes@.len() as int), sides),
        pairs(pairs(upto(4 + most), names), pairs(names, sides)),
        (n, h),
        ((c, s), (t, w)),
    );
}

/// As many facts as there can be.
spec fn bound(g: Graph, reqs: Seq<Request>) -> nat {
    universe(g, reqs).to_set().len()
}

proof fn lemma_bounded(g: Graph, reqs: Seq<Request>, s: Seq<Fact>)
    requires
        s.no_duplicates(),
        forall|k: int| 0 <= k < s.len() ==> small(g, reqs, #[trigger] s[k]),
    ensures
        s.len() <= bound(g, reqs),
{
    let t = s.map_values(|x: Fact| code(x));
    assert(t.no_duplicates()) by {
        assert forall|i: int, j: int| 0 <= i < t.len() && 0 <= j < t.len() && i != j implies t[i] != t[j] by {
            assert(t[i] == code(s[i]) && t[j] == code(s[j]));
            assert(s[i] != s[j]);
            assert(small(g, reqs, s[i]) && small(g, reqs, s[j]));
            assert(code(s[i]) != code(s[j]));
        }
    }
    t.unique_seq_to_set();
    let u = universe(g, reqs);
    assert forall|c: Code| t.to_set().contains(c) implies u.to_set().contains(c) by {
        let i = choose|i: int| 0 <= i < t.len() && t[i] == c;
        assert(small(g, reqs, s[i]));
        lemma_in_universe(g, reqs, s[i]);
    }
    vstd::seq_lib::seq_to_set_is_finite(u);
    vstd::set_lib::lemma_len_subset(t.to_set(), u.to_set());
}

// ---------------------------------------------------------------------------
// Everything that follows
// ---------------------------------------------------------------------------

spec fn sound(g: Graph, o: EngineOpts, reqs: Seq<Request>, s: Seq<Fact>) -> bool {
    &&& s.no_duplicates()
    &&& forall|k: int|
        0 <= k < s.len() ==> derives(g, o, reqs, #[trigger] s[k]) && small(g, reqs, s[k])
}

/// What follows from each of the first `cur` facts alone is in the list.
spec fn followed(g: Graph, o: EngineOpts, s: Seq<Fact>, cur: int) -> bool {
    forall|i: int, x: Fact| 0 <= i < cur && #[trigger] follow(g, o, s[i]).contains(x) ==> s.contains(x)
}

/// What follows from each two of the first `cur` facts is in the list.
spec fn paired(g: Graph, o: EngineOpts, s: Seq<Fact>, cur: int) -> bool {
    forall|i: int, j: int|
        0 <= i < cur && 0 <= j < cur && (#[trigger] joint(g, o, s[i], s[j])).is_some() ==> s.contains(
            joint(g, o, s[i], s[j]).unwrap(),
        )
}

spec fn extends(s: Seq<Fact>, t: Seq<Fact>) -> bool {
    s.len() <= t.len() && forall|k: int| 0 <= k < s.len() ==> s[k] == #[trigger] t[k]
}

proof fn lemma_extends(s: Seq<Fact>, t: Seq<Fact>)
    requires
        extends(s, t),
    ensures
        forall|x: Fact| #[trigger] s.contains(x) ==> t.contains(x),
{
    assert forall|x: Fact| #[trigger] s.contains(x) implies t.contains(x) by {
        let i = choose|i: int| 0 <= i < s.len() && s[i] == x;
        assert(t[i] == x);
    }
}

pub proof fn lemma_derive_request(g: Graph, o: EngineOpts, reqs: Seq<Request>, x: Fact)
    requires
        asked(g, o, reqs, reqs.len() as int).contains(x),
    ensures
        derives(g, o, reqs, x),
{
}

pub proof fn lemma_derive_follow(g: Graph, o: EngineOpts, reqs: Seq<Request>, p: Fact, x: Fact)
    requires
        derives(g, o, reqs, p),
        follow(g, o, p).contains(x),
    ensures
        derives(g, o, reqs, x),
{
    assert forall|c: Set<Fact>| closed_under(g, o, c) && holds_requests(g, o, reqs, c) implies #[trigger] c.contains(
        x,
    ) by {
        assert(c.contains(p));
    }
}

pub proof fn lemma_derive_joint(g: Graph, o: EngineOpts, reqs: Seq<Request>, p: Fact, q: Fact)
    requires
        derives(g, o, reqs, p),
        derives(g, o, reqs, q),
        joint(g, o, p, q).is_some(),
    ensures
        derives(g, o, reqs, joint(g, o, p, q).unwrap()),
{
    let x = joint(g, o, p, q).unwrap();
    assert forall|c: Set<Fact>| closed_under(g, o, c) && holds_requests(g, o, reqs, c) implies #[trigger] c.contains(
        x,
    ) by {
        assert(c.contains(p));
        assert(c.contains(q));
    }
}

pub proof fn lemma_asked_mem(g: Graph, o: EngineOpts, reqs: Seq<Request>, i: int, k: int, x: Fact)
    requires
        0 <= i < k <= reqs.len(),
        request_facts(g, o, reqs[i]).contains(x),
    ensures
        asked(g, o, reqs, k).contains(x),
    decreases k,
{
    lemma_concat(asked(g, o, reqs, k - 1), request_facts(g, o, reqs[k - 1]), x);
    if i < k - 1 {
        lemma_asked_mem(g, o, reqs, i, k - 1, x);
    }
}

fn add_item(seen: &mut Vec<Item>, x: Item)
    ensures
        views(old(seen)@).contains(x@) ==> final(seen)@ == old(seen)@,
        !views(old(seen)@).contains(x@) ==> final(seen)@ == old(seen)@.push(x),
        extends(views(old(seen)@), views(final(seen)@)),
        views(final(seen)@).contains(x@),
        views(old(seen)@).no_duplicates() ==> views(final(seen)@).no_duplicates(),
{
    let mut i: usize = 0;
    while i < seen.len()
        invariant
            i <= seen@.len(),
            seen@ == old(seen)@,
            forall|j: int| 0 <= j < i ==> views(seen@)[j] != x@,
        decreases seen@.len() - i,
    {
        if seen[i].same_as(&x) {
            assert(views(seen@)[i as int] == x@);
            return;
        }
        i += 1;
    }
    let ghost was = views(seen@);
    assert(!was.contains(x@));
    push_item(seen, x);
    assert(views(seen@)[was.len() as int] == x@);
}

impl<'a> Engine<'a> {
    spec fn start_ok(self, reqs: Seq<Request>) -> bool {
        self.g.wf() && forall|k: int| 0 <= k < reqs.len() ==> (#[trigger] reqs[k]).node < self.g.nodes@.len()
    }

    /// Adds each of the items, which follow from the requests.
    fn add_all(&self, seen: &mut Vec<Item>, items: Vec<Item>, reqs: &Vec<Request>)
        requires
            sound(*self.g, *self.o, reqs@, views(old(seen)@)),
            forall|k: int|
                0 <= k < items@.len() ==> derives(*self.g, *self.o, reqs@, #[trigger] views(items@)[k])
                    && small(*self.g, reqs@, views(items@)[k]),
        ensures
            sound(*self.g, *self.o, reqs@, views(final(seen)@)),
            extends(views(old(seen)@), views(final(seen)@)),
            forall|x: Fact| #[trigger] views(items@).contains(x) ==> views(final(seen)@).contains(x),
    {
        let ghost all = views(items@);
        let mut rest: Vec<Item> = items;
        while rest.len() > 0
            invariant
                rest@.len() <= all.len(),
                forall|k: int| 0 <= k < rest@.len() ==> #[trigger] rest@[k]@ == all[k],
                forall|k: int|
                    0 <= k < all.len() ==> derives(*self.g, *self.o, reqs@, #[trigger] all[k]) && small(
                        *self.g,
                        reqs@,
                        all[k],
                    ),
                forall|k: int|
                    rest@.len() <= k < all.len() ==> views(seen@).contains(#[trigger] all[k]),
                sound(*self.g, *self.o, reqs@, views(seen@)),
                extends(views(old(seen)@), views(seen@)),
            decreases rest@.len(),
        {
            let ghost n = rest@.len();
            let ghost was = views(seen@);
            match rest.pop() {
                Some(x) => {
                    assert(x@ == all[n - 1]);
                    add_item(seen, x);
                    proof {
                        lemma_extends(was, views(seen@));
                        assert forall|k: int| 0 <= k < views(seen@).len() implies derives(
                            *self.g,
                            *self.o,
                            reqs@,
                            #[trigger] views(seen@)[k],
                        ) && small(*self.g, reqs@, views(seen@)[k]) by {
                            if k < was.len() {
                                assert(views(seen@)[k] == was[k]);
                            }
                        }
                    }
                },
                None => {},
            }
        }
        assert forall|x: Fact| #[trigger] all.contains(x) implies views(seen@).contains(x) by {
            let k = choose|k: int| 0 <= k < all.len() && all[k] == x;
            assert(views(seen@).contains(all[k]));
        }
    }

    /// Every fact that follows from the requests.
    fn run(&self, reqs: &Vec<Request>) -> (seen: Vec<Item>)
        requires
            self.start_ok(reqs@),
        ensures
            views(seen@).no_duplicates(),
            forall|x: Fact| #[trigger]
                views(seen@).contains(x) <==> derives(*self.g, *self.o, reqs@, x),
            all_in_range(*self.g, views(seen@)),
    {
        let ghost g = *self.g;
        let ghost o = *self.o;
        let ghost rs = reqs@;
        let mut seen: Vec<Item> = Vec::new();
        let mut k: usize = 0;
        while k < reqs.len()
            invariant
                g == *self.g,
                o == *self.o,
                rs == reqs@,
                self.start_ok(rs),
                k <= rs.len(),
                sound(g, o, rs, views(seen@)),
                forall|x: Fact| #[trigger] asked(g, o, rs, k as int).contains(x) ==> views(seen@).contains(x),
            decreases rs.len() - k,
        {
            let ghost was = views(seen@);
            let items: Vec<Item> = self.request(&reqs[k]);
            let ghost list = views(items@);
            proof {
                assert forall|j: int| 0 <= j < list.len() implies derives(g, o, rs, #[trigger] list[j]) && small(
                    g,
                    rs,
                    list[j],
                ) by {
                    assert(list.contains(list[j]));
                    lemma_asked_mem(g, o, rs, k as int, rs.len() as int, list[j]);
                    lemma_derive_request(g, o, rs, list[j]);
                    lemma_request_small(g, o, rs, k as int, list[j]);
                }
            }
            self.add_all(&mut seen, items, reqs);
            proof {
                lemma_extends(was, views(seen@));
                assert forall|x: Fact| #[trigger] asked(g, o, rs, k + 1).contains(x) implies views(
                    seen@,
                ).contains(x) by {
                    lemma_concat(asked(g, o, rs, k as int), request_facts(g, o, rs[k as int]), x);
                    if list.contains(x) {
                    } else {
                        assert(asked(g, o, rs, k as int).contains(x));
                    }
                }
            }
            k += 1;
        }
        let mut cur: usize = 0;
        proof {
            lemma_bounded(g, rs, views(seen@));
        }
        while cur < seen.len()
            invariant
                g == *self.g,
                o == *self.o,
                rs == reqs@,
                self.start_ok(rs),
                cur <= seen@.len(),
                seen@.len() <= bound(g, rs),
                sound(g, o, rs, views(seen@)),
                forall|x: Fact| #[trigger]
                    asked(g, o, rs, rs.len() as int).contains(x) ==> views(seen@).contains(x),
                followed(g, o, views(seen@), cur as int),
                paired(g, o, views(seen@), cur as int),
            decreases bound(g, rs) - seen@.len(), seen@.len() - cur,
        {
            let ghost was = views(seen@);
            let ghost p = was[cur as int];
            assert(p == seen@[cur as int]@);
            let items: Vec<Item> = self.consequences(&seen[cur]);
            let ghost list = views(items@);
            proof {
                assert forall|j: int| 0 <= j < list.len() implies derives(g, o, rs, #[trigger] list[j]) && small(
                    g,
                    rs,
                    list[j],
                ) by {
                    assert(list.contains(list[j]));
                    lemma_derive_follow(g, o, rs, p, list[j]);
                    lemma_follow_small(g, o, rs, p, list[j]);
                }
            }
            self.add_all(&mut seen, items, reqs);
            let ghost mid = views(seen@);
            proof {
                lemma_extends(was, mid);
            }
            let mut j: usize = 0;
            while j <= cur
                invariant
                    g == *self.g,
                    o == *self.o,
                    rs == reqs@,
                    self.start_ok(rs),
                    j <= cur + 1,
                    cur < was.len(),
                    cur < usize::MAX,
                    extends(was, mid),
                    extends(mid, views(seen@)),
                    sound(g, o, rs, views(seen@)),
                    p == was[cur as int],
                    forall|i: int|
                        0 <= i < j && (#[trigger] joint(g, o, p, was[i])).is_some() ==> views(seen@).contains(
                            joint(g, o, p, was[i]).unwrap(),
                        ),
                    forall|i: int|
                        0 <= i < j && (#[trigger] joint(g, o, was[i], p)).is_some() ==> views(seen@).contains(
                            joint(g, o, was[i], p).unwrap(),
                        ),
                decreases cur + 1 - j,
            {
                let ghost now = views(seen@);
                assert(now[cur as int] == mid[cur as int] && mid[cur as int] == p);
                assert(now[j as int] == mid[j as int] && mid[j as int] == was[j as int]);
                assert(seen@[cur as int]@ == now[cur as int] && seen@[j as int]@ == now[j as int]);
                let a: Option<Item> = self.pair(&seen[cur], &seen[j]);
                let b: Option<Item> = self.pair(&seen[j], &seen[cur]);
                let mut found: Vec<Item> = Vec::new();
                if let Some(x) = a {
                    proof {
                        lemma_derive_joint(g, o, rs, p, was[j as int]);
                        lemma_joint_small(g, o, rs, p, was[j as int]);
                    }
                    push_item(&mut found, x);
                }
                let ghost one = views(found@);
                if let Some(x) = b {
                    proof {
                        lemma_derive_joint(g, o, rs, was[j as int], p);
                        lemma_joint_small(g, o, rs, was[j as int], p);
                    }
                    push_item(&mut found, x);
                }
                let ghost fs = views(found@);
                proof {
                    if joint(g, o, p, was[j as int]).is_some() {
                        assert(one[0] == joint(g, o, p, was[j as int]).unwrap());
                        assert(fs[0] == one[0]);
                        assert(fs.contains(fs[0]));
                    }
                    if joint(g, o, was[j as int], p).is_some() {
                        assert(fs[fs.len() - 1] == joint(g, o, was[j as int], p).unwrap());
                        assert(fs.contains(fs[fs.len() - 1]));
                    }
                    assert forall|i: int| 0 <= i < fs.len() implies derives(g, o, rs, #[trigger] fs[i]) && small(
                        g,
                        rs,
                        fs[i],
                    ) by {}
                }
                self.add_all(&mut seen, found, reqs);
                proof {
                    lemma_extends(now, views(seen@));
                }
                j += 1;
            }
            proof {
                let now = views(seen@);
                lemma_extends(mid, now);
                lemma_bounded(g, rs, now);
                assert forall|i: int, x: Fact| 0 <= i < cur + 1 && #[trigger] follow(g, o, now[i]).contains(
                    x,
                ) implies now.contains(x) by {
                    assert(now[i] == mid[i] && mid[i] == was[i]);
                    if i < cur {
                        assert(was.contains(x));
                        assert(mid.contains(x));
                    } else {
                        assert(list.contains(x));
                        assert(mid.contains(x));
                    }
                }
                assert forall|a: int, b: int|
                    0 <= a < cur + 1 && 0 <= b < cur + 1 && (#[trigger] joint(g, o, now[a], now[b])).is_some() implies now.contains(
                joint(g, o, now[a], now[b]).unwrap()) by {
                    assert(now[a] == mid[a] && mid[a] == was[a]);
                    assert(now[b] == mid[b] && mid[b] == was[b]);
                    if a < cur && b < cur {
                        assert(was.contains(joint(g, o, was[a], was[b]).unwrap()));
                        assert(mid.contains(joint(g, o, was[a], was[b]).unwrap()));
                    } else if a == cur {
                        assert(joint(g, o, p, was[b]).is_some());
                    } else {
                        assert(joint(g, o, was[a], p).is_some());
                    }
                }
                assert forall|x: Fact| #[trigger] asked(g, o, rs, rs.len() as int).contains(x) implies now.contains(
                    x,
                ) by {
                    assert(was.contains(x));
                    assert(mid.contains(x));
                }
            }
            cur += 1;
        }
        proof {
            let s = views(seen@);
            let c = s.to_set();
            assert forall|q: Fact, x: Fact| c.contains(q) && #[trigger] follow(g, o, q).contains(x) implies c.contains(
                x,
            ) by {
                let i = choose|i: int| 0 <= i < s.len() && s[i] == q;
                assert(follow(g, o, s[i]).contains(x));
            }
            assert forall|q: Fact, r: Fact|
                c.contains(q) && c.contains(r) && (#[trigger] joint(g, o, q, r)).is_some() implies c.contains(
            joint(g, o, q, r).unwrap()) by {
                let i = choose|i: int| 0 <= i < s.len() && s[i] == q;
                let j = choose|j: int| 0 <= j < s.len() && s[j] == r;
                assert(joint(g, o, s[i], s[j]).is_some());
            }
            assert(closed_under(g, o, c));
            assert(holds_requests(g, o, rs, c));
            assert forall|x: Fact| #[trigger] s.contains(x) <==> derives(g, o, rs, x) by {
                if s.contains(x) {
                    let i = choose|i: int| 0 <= i < s.len() && s[i] == x;
                    assert(derives(g, o, rs, s[i]));
                }
                if derives(g, o, rs, x) {
                    assert(c.contains(x));
                }
            }
        }
        seen
    }
}

// ---------------------------------------------------------------------------
// The outcome
// ---------------------------------------------------------------------------

/// The package is on, and its data is there.
pub open spec fn on(g: Graph, o: EngineOpts, reqs: Seq<Request>, n: int, host: bool) -> bool {
    derives(g, o, reqs, Fact::Asked(n, host, Ask::Base)) && ready(g, o, n)
}

/// The features of the package that are on.
pub open spec fn named_of(g: Graph, o: EngineOpts, reqs: Seq<Request>, n: int, host: bool) -> Set<Seq<char>> {
    Set::new(
        |f: Seq<char>|
            derives(g, o, reqs, Fact::Asked(n, host, Ask::Feat(f))) && g.nodes@[n].feature_map().contains_key(f),
    )
}

/// The optional dependencies of the package that are asked for.
pub open spec fn deps_of(g: Graph, o: EngineOpts, reqs: Seq<Request>, n: int, host: bool) -> Set<Seq<char>> {
    Set::new(|d: Seq<char>| derives(g, o, reqs, Fact::Asked(n, host, Ask::Dep(d))))
}

/// The fact says that the dependency `i` of `n` is on, and nothing resolves it.
pub open spec fn shows_lack(g: Graph, x: Fact, n: int, i: int) -> bool {
    x matches Fact::Active(m, _, d) && m == n && d == i && g.target(n, g.nodes@[n].decls()[i]).is_none()
}

/// The fact says that a dependency of `n` is on, which resolves to `t`.
pub open spec fn shows_edge(g: Graph, x: Fact, n: int, t: int) -> bool {
    x matches Fact::Active(m, _, d) && m == n && g.target(n, g.nodes@[n].decls()[d]) == Some(t)
}

/// The fact needs the data of `u`.
pub open spec fn shows_need(g: Graph, x: Fact, u: int) -> bool {
    match x {
        Fact::Asked(n, _, _) => n == u,
        Fact::Active(n, _, d) => g.target(n, g.nodes@[n].decls()[d]) == Some(u),
    }
}

/// The fact asks for a feature that the package does not have.
pub open spec fn shows_unknown(g: Graph, o: EngineOpts, x: Fact, n: int, f: Seq<char>) -> bool {
    x matches Fact::Asked(m, _, Ask::Feat(h)) && m == n && h == f && ready(g, o, n) && f != "default"@
        && !g.nodes@[n].feature_map().contains_key(f)
}

pub open spec fn lacks(g: Graph, o: EngineOpts, reqs: Seq<Request>, n: int, i: int) -> bool {
    exists|x: Fact| #[trigger] derives(g, o, reqs, x) && shows_lack(g, x, n, i)
}

pub open spec fn links(g: Graph, o: EngineOpts, reqs: Seq<Request>, n: int, t: int) -> bool {
    exists|x: Fact| #[trigger] derives(g, o, reqs, x) && shows_edge(g, x, n, t)
}

pub open spec fn needs(g: Graph, o: EngineOpts, reqs: Seq<Request>, u: int) -> bool {
    !ready(g, o, u) && exists|x: Fact| #[trigger] derives(g, o, reqs, x) && shows_need(g, x, u)
}

pub open spec fn unknown(g: Graph, o: EngineOpts, reqs: Seq<Request>, n: int, f: Seq<char>) -> bool {
    exists|x: Fact| #[trigger] derives(g, o, reqs, x) && shows_unknown(g, o, x, n, f)
}

/// The first of the facts, from `k` on, that asks for a feature that its package does not have.
pub open spec fn first_shown(g: Graph, o: EngineOpts, l: Seq<Fact>, k: int) -> Option<(int, Seq<char>)>
    decreases l.len() - k,
{
    if k < 0 || k >= l.len() {
        None
    } else {
        match l[k] {
            Fact::Asked(n, _, Ask::Feat(f)) => if shows_unknown(g, o, l[k], n, f) {
                Some((n, f))
            } else {
                first_shown(g, o, l, k + 1)
            },
            _ => first_shown(g, o, l, k + 1),
        }
    }
}

/// The first feature that a request, from the `k`th on, asks for itself and that its package does not have.
pub open spec fn first_asked(g: Graph, o: EngineOpts, reqs: Seq<Request>, k: int) -> Option<(int, Seq<char>)>
    decreases reqs.len() - k,
{
    if k < 0 || k >= reqs.len() {
        None
    } else {
        match first_shown(g, o, request_facts(g, o, reqs[k]), 0) {
            Some(x) => Some(x),
            None => first_asked(g, o, reqs, k + 1),
        }
    }
}

/// The error names a feature that is asked for and that its package does not have: the first that a request asks for
/// itself, and else one that follows from the requests.
pub open spec fn reports(g: Graph, o: EngineOpts, reqs: Seq<Request>, e: UnknownFeature) -> bool {
    exists|n: int|
        0 <= n < g.nodes@.len() && e.package@ == (#[trigger] g.nodes@[n]).id.name@ && unknown(g, o, reqs, n, e.feature@) && (
        first_asked(g, o, reqs, 0) matches Some(x) ==> x == (n, e.feature@))
}

/// The outcome says what follows from the requests.
pub open spec fn tells(g: Graph, o: EngineOpts, reqs: Seq<Request>, out: Outcome) -> bool {
    &&& forall|a: int, b: int|
        0 <= a < b < out.info@.len() ==> ((#[trigger] out.info@[a]).node, out.info@[a].host) != ((
        #[trigger] out.info@[b]).node, out.info@[b].host)
    &&& forall|k: int| 0 <= k < out.info@.len() ==> tells_of(g, o, reqs, #[trigger] out.info@[k])
    &&& forall|n: int, host: bool| #[trigger]
        on(g, o, reqs, n, host) ==> exists|k: int|
            0 <= k < out.info@.len() && (#[trigger] out.info@[k]).node == n && out.info@[k].host == host
    &&& rising_pairs(out.missing@)
    &&& forall|n: usize, i: usize| #[trigger]
        out.missing@.contains((n, i)) <==> lacks(g, o, reqs, n as int, i as int)
    &&& rising(out.unloaded@)
    &&& forall|u: usize| #[trigger] out.unloaded@.contains(u) <==> needs(g, o, reqs, u as int)
    &&& rising_pairs(out.edges@)
    &&& forall|n: usize, t: usize| #[trigger]
        out.edges@.contains((n, t)) <==> links(g, o, reqs, n as int, t as int)
}

/// The entry says what is on of its package.
pub open spec fn tells_of(g: Graph, o: EngineOpts, reqs: Seq<Request>, e: InfoEntry) -> bool {
    &&& on(g, o, reqs, e.node as int, e.host)
    &&& e.info.named@ == named_of(g, o, reqs, e.node as int, e.host)
    &&& e.info.optional_deps@ == deps_of(g, o, reqs, e.node as int, e.host)
}

impl<'a> Engine<'a> {
    /// What is on of a package.
    fn info(&self, seen: &Vec<Item>, n: usize, host: bool, reqs: &Vec<Request>) -> (r: FeatureInfo)
        requires
            n < self.g.nodes@.len(),
            forall|x: Fact| #[trigger]
                views(seen@).contains(x) <==> derives(*self.g, *self.o, reqs@, x),
        ensures
            r.named@ == named_of(*self.g, *self.o, reqs@, n as int, host),
            r.optional_deps@ == deps_of(*self.g, *self.o, reqs@, n as int, host),
    {
        let mut named: StrSet = StrSet::new();
        let mut opt: StrSet = StrSet::new();
        let ghost s = views(seen@);
        let ghost m = self.g.nodes@[n as int].feature_map();
        let mut k: usize = 0;
        while k < seen.len()
            invariant
                k <= seen@.len(),
                n < self.g.nodes@.len(),
                s == views(seen@),
                m == self.g.nodes@[n as int].feature_map(),
                forall|f: Seq<char>| #[trigger]
                    named@.contains(f) <==> m.contains_key(f) && exists|j: int|
                        0 <= j < k && #[trigger] s[j] == Fact::Asked(n as int, host, Ask::Feat(f)),
                forall|d: Seq<char>| #[trigger]
                    opt@.contains(d) <==> exists|j: int|
                        0 <= j < k && #[trigger] s[j] == Fact::Asked(n as int, host, Ask::Dep(d)),
            decreases seen@.len() - k,
        {
            assert(s[k as int] == seen@[k as int]@);
            let ghost was = named@;
            let ghost was_opt = opt@;
            match &seen[k] {
                Item::Asked(a, h, Task::Feat(f)) => {
                    if *a == n && *h == host && self.g.nodes[n].feature(f.as_str()).is_some() {
                        named.insert(f.as_str());
                    }
                },
                Item::Asked(a, h, Task::Dep(d)) => {
                    if *a == n && *h == host {
                        opt.insert(d.as_str());
                    }
                },
                _ => {},
            }
            proof {
                assert forall|f: Seq<char>| #[trigger]
                    named@.contains(f) <==> m.contains_key(f) && exists|j: int|
                        0 <= j < k + 1 && #[trigger] s[j] == Fact::Asked(n as int, host, Ask::Feat(f)) by {
                    if was.contains(f) {
                        let j = choose|j: int| 0 <= j < k && #[trigger] s[j] == Fact::Asked(n as int, host, Ask::Feat(f));
                        assert(s[j] == Fact::Asked(n as int, host, Ask::Feat(f)));
                    } else if named@.contains(f) {
                        assert(s[k as int] == Fact::Asked(n as int, host, Ask::Feat(f)));
                    }
                }
                assert forall|d: Seq<char>| #[trigger]
                    opt@.contains(d) <==> exists|j: int|
                        0 <= j < k + 1 && #[trigger] s[j] == Fact::Asked(n as int, host, Ask::Dep(d)) by {
                    if was_opt.contains(d) {
                        let j = choose|j: int| 0 <= j < k && #[trigger] s[j] == Fact::Asked(n as int, host, Ask::Dep(d));
                        assert(s[j] == Fact::Asked(n as int, host, Ask::Dep(d)));
                    } else if opt@.contains(d) {
                        assert(s[k as int] == Fact::Asked(n as int, host, Ask::Dep(d)));
                    }
                }
            }
            k += 1;
        }
        proof {
            assert forall|f: Seq<char>| #[trigger]
                named@.contains(f) <==> named_of(*self.g, *self.o, reqs@, n as int, host).contains(f) by {
                let x = Fact::Asked(n as int, host, Ask::Feat(f));
                assert(s.contains(x) <==> derives(*self.g, *self.o, reqs@, x));
            }
            assert(named@ =~= named_of(*self.g, *self.o, reqs@, n as int, host));
            assert forall|d: Seq<char>| #[trigger]
                opt@.contains(d) <==> deps_of(*self.g, *self.o, reqs@, n as int, host).contains(d) by {
                let x = Fact::Asked(n as int, host, Ask::Dep(d));
                assert(s.contains(x) <==> derives(*self.g, *self.o, reqs@, x));
            }
            assert(opt@ =~= deps_of(*self.g, *self.o, reqs@, n as int, host));
        }
        FeatureInfo { named, optional_deps: opt }
    }
}

/// What a request asks for, it asks of its package.
proof fn lemma_asked_node(g: Graph, o: EngineOpts, r: Request, x: Fact)
    requires
        request_facts(g, o, r).contains(x),
        x is Asked,
    ensures
        x->Asked_0 == r.node as int,
{
    let n = r.node as int;
    let host = o.two_sides && ready(g, o, n) && g.nodes@[n].proc_macro();
    let names = g.nodes@[n].feature_names();
    let all = feats_of(n, host, names, names.len() as int);
    let more = asks_of(n, host, r.features@, r.features@.len() as int);
    if all.contains(x) {
        lemma_feats_of(n, host, names, names.len() as int, x);
    }
    if more.contains(x) {
        lemma_asks_of(n, host, r.features@, r.features@.len() as int, x);
    }
}

spec fn lack_upto(g: Graph, s: Seq<Fact>, k: int, n: int, i: int) -> bool {
    exists|j: int| 0 <= j < k && shows_lack(g, #[trigger] s[j], n, i)
}

spec fn edge_upto(g: Graph, s: Seq<Fact>, k: int, n: int, t: int) -> bool {
    exists|j: int| 0 <= j < k && shows_edge(g, #[trigger] s[j], n, t)
}

spec fn need_upto(g: Graph, s: Seq<Fact>, k: int, u: int) -> bool {
    exists|j: int| 0 <= j < k && shows_need(g, #[trigger] s[j], u)
}

spec fn lists(g: Graph, o: EngineOpts, reqs: Seq<Request>, s: Seq<Fact>) -> bool {
    &&& g.wf()
    &&& all_in_range(g, s)
    &&& s.no_duplicates()
    &&& forall|x: Fact| #[trigger] s.contains(x) <==> derives(g, o, reqs, x)
}

impl<'a> Engine<'a> {
    /// The dependencies that are on, and that nothing resolves.
    fn missing(&self, seen: &Vec<Item>, reqs: &Vec<Request>) -> (out: Vec<(usize, usize)>)
        requires
            lists(*self.g, *self.o, reqs@, views(seen@)),
        ensures
            rising_pairs(out@),
            forall|n: usize, i: usize| #[trigger]
                out@.contains((n, i)) <==> lacks(*self.g, *self.o, reqs@, n as int, i as int),
    {
        let ghost g = *self.g;
        let ghost s = views(seen@);
        let mut out: Vec<(usize, usize)> = Vec::new();
        let mut k: usize = 0;
        while k < seen.len()
            invariant
                g == *self.g,
                lists(g, *self.o, reqs@, s),
                s == views(seen@),
                k <= seen@.len(),
                rising_pairs(out@),
                forall|n: usize, i: usize| #[trigger]
                    out@.contains((n, i)) <==> lack_upto(g, s, k as int, n as int, i as int),
            decreases seen@.len() - k,
        {
            let ghost was = out@;
            assert(s[k as int] == seen@[k as int]@);
            assert(in_range(g, s[k as int]));
            if let Item::Active(n, _, i) = &seen[k] {
                if self.g.target_of(*n, &self.g.nodes[*n].deps()[*i]).is_none() {
                    insert_pair(&mut out, (*n, *i));
                }
            }
            assert forall|n: usize, i: usize| #[trigger]
                out@.contains((n, i)) <==> lack_upto(g, s, k + 1, n as int, i as int) by {
                if was.contains((n, i)) {
                    let j = choose|j: int| 0 <= j < k && shows_lack(g, #[trigger] s[j], n as int, i as int);
                    assert(shows_lack(g, s[j], n as int, i as int));
                } else if out@.contains((n, i)) {
                    assert(shows_lack(g, s[k as int], n as int, i as int));
                }
                if lack_upto(g, s, k + 1, n as int, i as int) {
                    let j = choose|j: int| 0 <= j < k + 1 && shows_lack(g, #[trigger] s[j], n as int, i as int);
                    if j < k {
                        assert(lack_upto(g, s, k as int, n as int, i as int));
                    }
                }
            }
            k += 1;
        }
        proof {
            assert forall|n: usize, i: usize| #[trigger]
                out@.contains((n, i)) <==> lacks(g, *self.o, reqs@, n as int, i as int) by {
                if lack_upto(g, s, s.len() as int, n as int, i as int) {
                    let j = choose|j: int| 0 <= j < s.len() && shows_lack(g, #[trigger] s[j], n as int, i as int);
                    assert(s.contains(s[j]));
                    assert(derives(g, *self.o, reqs@, s[j]));
                }
                if lacks(g, *self.o, reqs@, n as int, i as int) {
                    let x = choose|x: Fact| #[trigger]
                        derives(g, *self.o, reqs@, x) && shows_lack(g, x, n as int, i as int);
                    assert(s.contains(x));
                    let j = choose|j: int| 0 <= j < s.len() && s[j] == x;
                    assert(shows_lack(g, s[j], n as int, i as int));
                }
            }
        }
        out
    }

    /// Which package leads to which.
    fn edges(&self, seen: &Vec<Item>, reqs: &Vec<Request>) -> (out: Vec<(usize, usize)>)
        requires
            lists(*self.g, *self.o, reqs@, views(seen@)),
        ensures
            rising_pairs(out@),
            forall|n: usize, t: usize| #[trigger]
                out@.contains((n, t)) <==> links(*self.g, *self.o, reqs@, n as int, t as int),
    {
        let ghost g = *self.g;
        let ghost s = views(seen@);
        let mut out: Vec<(usize, usize)> = Vec::new();
        let mut k: usize = 0;
        while k < seen.len()
            invariant
                g == *self.g,
                lists(g, *self.o, reqs@, s),
                s == views(seen@),
                k <= seen@.len(),
                rising_pairs(out@),
                forall|n: usize, t: usize| #[trigger]
                    out@.contains((n, t)) <==> edge_upto(g, s, k as int, n as int, t as int),
            decreases seen@.len() - k,
        {
            let ghost was = out@;
            assert(s[k as int] == seen@[k as int]@);
            assert(in_range(g, s[k as int]));
            if let Item::Active(n, _, i) = &seen[k] {
                if let Some(t) = self.g.target_of(*n, &self.g.nodes[*n].deps()[*i]) {
                    insert_pair(&mut out, (*n, t));
                }
            }
            assert forall|n: usize, t: usize| #[trigger]
                out@.contains((n, t)) <==> edge_upto(g, s, k + 1, n as int, t as int) by {
                if was.contains((n, t)) {
                    let j = choose|j: int| 0 <= j < k && shows_edge(g, #[trigger] s[j], n as int, t as int);
                    assert(shows_edge(g, s[j], n as int, t as int));
                } else if out@.contains((n, t)) {
                    assert(shows_edge(g, s[k as int], n as int, t as int));
                }
                if edge_upto(g, s, k + 1, n as int, t as int) {
                    let j = choose|j: int| 0 <= j < k + 1 && shows_edge(g, #[trigger] s[j], n as int, t as int);
                    if j < k {
                        assert(edge_upto(g, s, k as int, n as int, t as int));
                    }
                }
            }
            k += 1;
        }
        proof {
            assert forall|n: usize, t: usize| #[trigger]
                out@.contains((n, t)) <==> links(g, *self.o, reqs@, n as int, t as int) by {
                if edge_upto(g, s, s.len() as int, n as int, t as int) {
                    let j = choose|j: int| 0 <= j < s.len() && shows_edge(g, #[trigger] s[j], n as int, t as int);
                    assert(s.contains(s[j]));
                    assert(derives(g, *self.o, reqs@, s[j]));
                }
                if links(g, *self.o, reqs@, n as int, t as int) {
                    let x = choose|x: Fact| #[trigger]
                        derives(g, *self.o, reqs@, x) && shows_edge(g, x, n as int, t as int);
                    assert(s.contains(x));
                    let j = choose|j: int| 0 <= j < s.len() && s[j] == x;
                    assert(shows_edge(g, s[j], n as int, t as int));
                }
            }
        }
        out
    }

    /// The packages whose data is needed, and is not there.
    fn unloaded(&self, seen: &Vec<Item>, reqs: &Vec<Request>) -> (out: Vec<usize>)
        requires
            lists(*self.g, *self.o, reqs@, views(seen@)),
        ensures
            rising(out@),
            forall|u: usize| #[trigger] out@.contains(u) <==> needs(*self.g, *self.o, reqs@, u as int),
    {
        let ghost g = *self.g;
        let ghost o = *self.o;
        let ghost s = views(seen@);
        let mut out: Vec<usize> = Vec::new();
        let mut k: usize = 0;
        while k < seen.len()
            invariant
                g == *self.g,
                o == *self.o,
                lists(g, o, reqs@, s),
                s == views(seen@),
                k <= seen@.len(),
                rising(out@),
                forall|u: usize| #[trigger]
                    out@.contains(u) <==> !ready(g, o, u as int) && need_upto(g, s, k as int, u as int),
            decreases seen@.len() - k,
        {
            let ghost was = out@;
            assert(s[k as int] == seen@[k as int]@);
            assert(in_range(g, s[k as int]));
            let u: Option<usize> = match &seen[k] {
                Item::Asked(n, _, _) => Some(*n),
                Item::Active(n, _, i) => self.g.target_of(*n, &self.g.nodes[*n].deps()[*i]),
            };
            if let Some(u) = u {
                if !self.loaded(u) {
                    insert(&mut out, u);
                }
            }
            assert forall|u: usize| #[trigger]
                out@.contains(u) <==> !ready(g, o, u as int) && need_upto(g, s, k + 1, u as int) by {
                if was.contains(u) {
                    let j = choose|j: int| 0 <= j < k && shows_need(g, #[trigger] s[j], u as int);
                    assert(shows_need(g, s[j], u as int));
                } else if out@.contains(u) {
                    assert(shows_need(g, s[k as int], u as int));
                }
                if need_upto(g, s, k + 1, u as int) {
                    let j = choose|j: int| 0 <= j < k + 1 && shows_need(g, #[trigger] s[j], u as int);
                    if j < k {
                        assert(need_upto(g, s, k as int, u as int));
                    }
                }
            }
            k += 1;
        }
        proof {
            assert forall|u: usize| #[trigger] out@.contains(u) <==> needs(g, o, reqs@, u as int) by {
                if need_upto(g, s, s.len() as int, u as int) {
                    let j = choose|j: int| 0 <= j < s.len() && shows_need(g, #[trigger] s[j], u as int);
                    assert(s.contains(s[j]));
                    assert(derives(g, o, reqs@, s[j]));
                }
                if needs(g, o, reqs@, u as int) {
                    let x = choose|x: Fact| #[trigger] derives(g, o, reqs@, x) && shows_need(g, x, u as int);
                    assert(s.contains(x));
                    let j = choose|j: int| 0 <= j < s.len() && s[j] == x;
                    assert(shows_need(g, s[j], u as int));
                }
            }
        }
        out
    }

    /// The first item that asks for a feature that its package does not have.
    fn unknown(&self, seen: &Vec<Item>, reqs: &Vec<Request>) -> (r: Option<UnknownFeature>)
        requires
            lists(*self.g, *self.o, reqs@, views(seen@)),
        ensures
            match r {
                None => forall|n: int, f: Seq<char>| !#[trigger] unknown(*self.g, *self.o, reqs@, n, f),
                Some(e) => exists|n: int|
                    0 <= n < self.g.nodes@.len() && e.package@ == (#[trigger] self.g.nodes@[n]).id.name@
                        && unknown(*self.g, *self.o, reqs@, n, e.feature@),
            },
    {
        let ghost g = *self.g;
        let ghost o = *self.o;
        let ghost s = views(seen@);
        let mut k: usize = 0;
        while k < seen.len()
            invariant
                g == *self.g,
                o == *self.o,
                lists(g, o, reqs@, s),
                s == views(seen@),
                k <= seen@.len(),
                forall|j: int, n: int, f: Seq<char>|
                    0 <= j < k ==> !#[trigger] shows_unknown(g, o, s[j], n, f),
            decreases seen@.len() - k,
        {
            assert(s[k as int] == seen@[k as int]@);
            assert(in_range(g, s[k as int]));
            if let Item::Asked(n, _, Task::Feat(f)) = &seen[k] {
                if self.loaded(*n) && !same(f.as_str(), "default") && self.g.nodes[*n].feature(
                    f.as_str(),
                ).is_none() {
                    proof {
                        assert(s.contains(s[k as int]));
                        assert(derives(g, o, reqs@, s[k as int]));
                        assert(shows_unknown(g, o, s[k as int], *n as int, f@));
                        assert(unknown(g, o, reqs@, *n as int, f@));
                        assert(g.nodes@[*n as int].id.name@ == self.g.nodes@[*n as int].id.name@);
                    }
                    return Some(
                        UnknownFeature { package: self.g.nodes[*n].id.name.clone(), feature: f.clone() },
                    );
                }
            }
            k += 1;
        }
        proof {
            assert forall|n: int, f: Seq<char>| !#[trigger] unknown(g, o, reqs@, n, f) by {
                if unknown(g, o, reqs@, n, f) {
                    let x = choose|x: Fact| #[trigger] derives(g, o, reqs@, x) && shows_unknown(g, o, x, n, f);
                    assert(s.contains(x));
                    let j = choose|j: int| 0 <= j < s.len() && s[j] == x;
                    assert(shows_unknown(g, o, s[j], n, f));
                }
            }
        }
        None
    }

    /// The first feature that a request asks for itself and that its package does not have.
    fn unknown_request(&self, reqs: &Vec<Request>) -> (r: Option<UnknownFeature>)
        requires
            self.g.wf(),
            forall|k: int| 0 <= k < reqs@.len() ==> (#[trigger] reqs@[k]).node < self.g.nodes@.len(),
        ensures
            match r {
                None => first_asked(*self.g, *self.o, reqs@, 0).is_none(),
                Some(e) => reports(*self.g, *self.o, reqs@, e),
            },
    {
        let ghost g = *self.g;
        let ghost o = *self.o;
        let mut k: usize = 0;
        while k < reqs.len()
            invariant
                g == *self.g,
                o == *self.o,
                k <= reqs@.len(),
                forall|k: int| 0 <= k < reqs@.len() ==> (#[trigger] reqs@[k]).node < self.g.nodes@.len(),
                first_asked(g, o, reqs@, 0) == first_asked(g, o, reqs@, k as int),
            decreases reqs@.len() - k,
        {
            let items = self.request(&reqs[k]);
            let ghost s = views(items@);
            let mut j: usize = 0;
            while j < items.len()
                invariant
                    g == *self.g,
                    o == *self.o,
                    k < reqs@.len(),
                    reqs@[k as int].node < self.g.nodes@.len(),
                    first_asked(g, o, reqs@, 0) == first_asked(g, o, reqs@, k as int),
                    j <= items@.len(),
                    s == views(items@),
                    s == request_facts(g, o, reqs@[k as int]),
                    first_shown(g, o, s, 0) == first_shown(g, o, s, j as int),
                decreases items@.len() - j,
            {
                assert(s[j as int] == items@[j as int]@);
                if let Item::Asked(n, _, Task::Feat(f)) = &items[j] {
                    proof {
                        lemma_asked_node(g, o, reqs@[k as int], s[j as int]);
                    }
                    if self.loaded(*n) && !same(f.as_str(), "default") && self.g.nodes[*n].feature(f.as_str()).is_none() {
                        proof {
                            assert(s.contains(s[j as int]));
                            lemma_asked_mem(g, o, reqs@, k as int, reqs@.len() as int, s[j as int]);
                            lemma_derive_request(g, o, reqs@, s[j as int]);
                            assert(shows_unknown(g, o, s[j as int], *n as int, f@));
                            assert(unknown(g, o, reqs@, *n as int, f@));
                            assert(first_asked(g, o, reqs@, 0) == Some((*n as int, f@)));
                            assert(g.nodes@[*n as int].id.name@ == self.g.nodes@[*n as int].id.name@);
                        }
                        return Some(UnknownFeature { package: self.g.nodes[*n].id.name.clone(), feature: f.clone() });
                    }
                }
                j += 1;
            }
            assert(s.len() == items@.len());
            k += 1;
        }
        None
    }

    /// What is on of each package that is on.
    fn infos(&self, seen: &Vec<Item>, reqs: &Vec<Request>) -> (out: Vec<InfoEntry>)
        requires
            lists(*self.g, *self.o, reqs@, views(seen@)),
        ensures
            forall|a: int, b: int|
                0 <= a < b < out@.len() ==> ((#[trigger] out@[a]).node, out@[a].host) != ((
                #[trigger] out@[b]).node, out@[b].host),
            forall|k: int| 0 <= k < out@.len() ==> tells_of(*self.g, *self.o, reqs@, #[trigger] out@[k]),
            forall|n: int, host: bool| #[trigger]
                on(*self.g, *self.o, reqs@, n, host) ==> exists|k: int|
                    0 <= k < out@.len() && (#[trigger] out@[k]).node == n && out@[k].host == host,
    {
        let ghost g = *self.g;
        let ghost o = *self.o;
        let ghost s = views(seen@);
        let ghost mut from: Seq<int> = Seq::empty();
        let mut out: Vec<InfoEntry> = Vec::new();
        let mut k: usize = 0;
        while k < seen.len()
            invariant
                g == *self.g,
                o == *self.o,
                lists(g, o, reqs@, s),
                s == views(seen@),
                k <= seen@.len(),
                from.len() == out@.len(),
                forall|a: int|
                    0 <= a < out@.len() ==> 0 <= #[trigger] from[a] < k && s[from[a]] == Fact::Asked(
                        out@[a].node as int,
                        out@[a].host,
                        Ask::Base,
                    ),
                forall|a: int, b: int| 0 <= a < b < out@.len() ==> #[trigger] from[a] != #[trigger] from[b],
                forall|a: int| 0 <= a < out@.len() ==> tells_of(g, o, reqs@, #[trigger] out@[a]),
                forall|j: int, n: int, host: bool|
                    0 <= j < k && #[trigger] s[j] == Fact::Asked(n, host, Ask::Base) && #[trigger] on(
                        g,
                        o,
                        reqs@,
                        n,
                        host,
                    ) ==> exists|a: int| 0 <= a < out@.len() && (#[trigger] out@[a]).node == n && out@[a].host == host,
            decreases seen@.len() - k,
        {
            assert(s[k as int] == seen@[k as int]@);
            assert(in_range(g, s[k as int]));
            let ghost was = out@;
            if let Item::Asked(n, host, Task::Base) = &seen[k] {
                if self.loaded(*n) {
                    assert(s.contains(s[k as int]));
                    assert(on(g, o, reqs@, *n as int, *host));
                    out.push(InfoEntry { node: *n, host: *host, info: self.info(seen, *n, *host, reqs) });
                    proof {
                        from = from.push(k as int);
                        assert(out@[out@.len() - 1].node == *n);
                    }
                }
            }
            assert forall|j: int, n: int, host: bool|
                0 <= j < k + 1 && #[trigger] s[j] == Fact::Asked(n, host, Ask::Base) && #[trigger] on(
                    g,
                    o,
                    reqs@,
                    n,
                    host,
                ) implies exists|a: int| 0 <= a < out@.len() && (#[trigger] out@[a]).node == n && out@[a].host == host by {
                if j < k {
                    let a = choose|a: int| 0 <= a < was.len() && (#[trigger] was[a]).node == n && was[a].host == host;
                    assert(out@[a] == was[a]);
                } else {
                    assert(out@[out@.len() - 1].node == n);
                }
            }
            k += 1;
        }
        proof {
            assert forall|n: int, host: bool| #[trigger] on(g, o, reqs@, n, host) implies exists|a: int|
                0 <= a < out@.len() && (#[trigger] out@[a]).node == n && out@[a].host == host by {
                let x = Fact::Asked(n, host, Ask::Base);
                assert(s.contains(x));
                let j = choose|j: int| 0 <= j < s.len() && s[j] == x;
                assert(s[j] == Fact::Asked(n, host, Ask::Base));
            }
            assert forall|a: int, b: int| 0 <= a < b < out@.len() implies ((#[trigger] out@[a]).node, out@[a].host)
                != ((#[trigger] out@[b]).node, out@[b].host) by {
                assert(from[a] != from[b]);
                if out@[a].node == out@[b].node && out@[a].host == out@[b].host {
                    assert(s[from[a]] == s[from[b]]);
                }
            }
        }
        out
    }
}

/// Which features and dependencies are on, where the requests ask for them.
///
/// The outcome lists what follows from the requests; a request for a feature that its package does
/// not have is an error.
pub fn resolve(g: &Graph, reqs: &Vec<Request>, o: &EngineOpts<'_>) -> (r: Result<Outcome, UnknownFeature>)
    requires
        g.wf(),
        forall|k: int| 0 <= k < reqs@.len() ==> (#[trigger] reqs@[k]).node < g.nodes@.len(),
    ensures
        match r {
            Ok(out) => tells(*g, *o, reqs@, out) && forall|n: int, f: Seq<char>| !#[trigger] unknown(
                *g,
                *o,
                reqs@,
                n,
                f,
            ),
            Err(e) => reports(*g, *o, reqs@, e),
        },
{
    let e = Engine { g, o };
    if let Some(err) = e.unknown_request(reqs) {
        return Err(err);
    }
    let seen: Vec<Item> = e.run(reqs);
    if let Some(err) = e.unknown(&seen, reqs) {
        return Err(err);
    }
    let out = Outcome {
        info: e.infos(&seen, reqs),
        missing: e.missing(&seen, reqs),
        unloaded: e.unloaded(&seen, reqs),
        edges: e.edges(&seen, reqs),
    };
    Ok(out)
}

/// Asking for more turns nothing off: what follows from some requests follows from more of them.
pub proof fn law_features_are_additive(g: Graph, o: EngineOpts, few: Seq<Request>, more: Seq<Request>, x: Fact)
    requires
        derives(g, o, few, x),
        forall|k: int| 0 <= k < few.len() ==> more.contains(#[trigger] few[k]),
    ensures
        derives(g, o, more, x),
{
    assert forall|c: Set<Fact>| closed_under(g, o, c) && holds_requests(g, o, more, c) implies #[trigger] c.contains(
        x,
    ) by {
        assert(holds_requests(g, o, few, c)) by {
            assert forall|y: Fact| #[trigger] asked(g, o, few, few.len() as int).contains(y) implies c.contains(y) by {
                lemma_asked_from(g, o, few, few.len() as int, y);
                let i = choose|i: int| 0 <= i < few.len() && request_facts(g, o, #[trigger] few[i]).contains(y);
                assert(more.contains(few[i]));
                let j = choose|j: int| 0 <= j < more.len() && more[j] == few[i];
                lemma_asked_mem(g, o, more, j, more.len() as int, y);
            }
        }
    }
}

pub proof fn lemma_asked_from(g: Graph, o: EngineOpts, reqs: Seq<Request>, k: int, x: Fact)
    requires
        0 <= k <= reqs.len(),
        asked(g, o, reqs, k).contains(x),
    ensures
        exists|i: int| 0 <= i < k && request_facts(g, o, #[trigger] reqs[i]).contains(x),
    decreases k,
{
    if k > 0 {
        lemma_concat(asked(g, o, reqs, k - 1), request_facts(g, o, reqs[k - 1]), x);
        if request_facts(g, o, reqs[k - 1]).contains(x) {
        } else {
            lemma_asked_from(g, o, reqs, k - 1, x);
            let i = choose|i: int| 0 <= i < k - 1 && request_facts(g, o, #[trigger] reqs[i]).contains(x);
            assert(request_facts(g, o, reqs[i]).contains(x));
        }
    }
}

/// A feature that is on turns on whatever its values ask for.
pub proof fn law_features_turn_on_their_values(
    g: Graph,
    o: EngineOpts,
    reqs: Seq<Request>,
    n: int,
    host: bool,
    f: Seq<char>,
    j: int,
)
    requires
        ready(g, o, n),
        named_of(g, o, reqs, n, host).contains(f),
        0 <= j < g.nodes@[n].feature_map()[f]@.len(),
    ensures
        derives(g, o, reqs, Fact::Asked(n, host, ask_of(g.nodes@[n].feature_map()[f]@[j]@))),
{
    let values = g.nodes@[n].feature_map()[f]@;
    lemma_asks_has(n, host, values, j, values.len() as int);
    lemma_derive_follow(
        g,
        o,
        reqs,
        Fact::Asked(n, host, Ask::Feat(f)),
        Fact::Asked(n, host, ask_of(values[j]@)),
    );
}

pub proof fn lemma_asks_has(n: int, host: bool, values: Seq<String>, j: int, k: int)
    requires
        0 <= j < k <= values.len(),
    ensures
        asks_of(n, host, values, k).contains(Fact::Asked(n, host, ask_of(values[j]@))),
    decreases k,
{
    let x = Fact::Asked(n, host, ask_of(values[j]@));
    let rest = asks_of(n, host, values, k - 1);
    if j < k - 1 {
        lemma_asks_has(n, host, values, j, k - 1);
        let i = choose|i: int| 0 <= i < rest.len() && rest[i] == x;
        assert(asks_of(n, host, values, k)[i] == x);
    } else {
        assert(asks_of(n, host, values, k)[rest.len() as int] == x);
    }
}

/// What follows from requests speaks of the packages and dependencies of the graph.
pub proof fn lemma_derived_in_range(g: Graph, o: EngineOpts, reqs: Seq<Request>, x: Fact)
    requires
        g.wf(),
        forall|k: int| 0 <= k < reqs.len() ==> (#[trigger] reqs[k]).node < g.nodes@.len(),
        derives(g, o, reqs, x),
    ensures
        in_range(g, x),
{
    let c = Set::new(|y: Fact| small(g, reqs, y));
    assert(closed_under(g, o, c)) by {
        assert forall|p: Fact, y: Fact| c.contains(p) && #[trigger] follow(g, o, p).contains(y) implies c.contains(y) by {
            lemma_follow_small(g, o, reqs, p, y);
        }
        assert forall|p: Fact, q: Fact|
            c.contains(p) && c.contains(q) && (#[trigger] joint(g, o, p, q)).is_some() implies c.contains(
            joint(g, o, p, q).unwrap(),
        ) by {
            lemma_joint_small(g, o, reqs, p, q);
        }
    }
    assert(holds_requests(g, o, reqs, c)) by {
        assert forall|y: Fact| #[trigger] asked(g, o, reqs, reqs.len() as int).contains(y) implies c.contains(y) by {
            lemma_asked_from(g, o, reqs, reqs.len() as int, y);
            let k = choose|k: int| 0 <= k < reqs.len() && request_facts(g, o, #[trigger] reqs[k]).contains(y);
            lemma_request_small(g, o, reqs, k, y);
        }
    }
    assert(c.contains(x));
}

/// What an outcome names is in the graph.
pub open spec fn within(g: Graph, out: Outcome) -> bool {
    &&& forall|k: int| 0 <= k < out.info@.len() ==> (#[trigger] out.info@[k]).node < g.nodes@.len()
    &&& forall|k: int|
        0 <= k < out.missing@.len() ==> (#[trigger] out.missing@[k]).0 < g.nodes@.len() && out.missing@[k].1
            < g.nodes@[out.missing@[k].0 as int].decls().len()
    &&& forall|k: int| 0 <= k < out.unloaded@.len() ==> (#[trigger] out.unloaded@[k]) < g.nodes@.len()
    &&& forall|k: int|
        0 <= k < out.edges@.len() ==> (#[trigger] out.edges@[k]).0 < g.nodes@.len() && out.edges@[k].1 < g.nodes@.len()
}

/// What an outcome names is in the graph.
pub proof fn lemma_outcome_within(g: Graph, o: EngineOpts, reqs: Seq<Request>, out: Outcome)
    requires
        g.wf(),
        forall|k: int| 0 <= k < reqs.len() ==> (#[trigger] reqs[k]).node < g.nodes@.len(),
        tells(g, o, reqs, out),
    ensures
        within(g, out),
{
    assert forall|k: int| 0 <= k < out.info@.len() implies (#[trigger] out.info@[k]).node < g.nodes@.len() by {
        let e = out.info@[k];
        assert(tells_of(g, o, reqs, e));
        lemma_derived_in_range(g, o, reqs, Fact::Asked(e.node as int, e.host, Ask::Base));
    }
    assert forall|k: int| 0 <= k < out.missing@.len() implies (#[trigger] out.missing@[k]).0 < g.nodes@.len() && out.missing@[k].1
        < g.nodes@[out.missing@[k].0 as int].decls().len() by {
        let (n, i) = out.missing@[k];
        assert(out.missing@.contains((n, i)));
        assert(lacks(g, o, reqs, n as int, i as int));
        let x = choose|x: Fact| #[trigger] derives(g, o, reqs, x) && shows_lack(g, x, n as int, i as int);
        lemma_derived_in_range(g, o, reqs, x);
    }
    assert forall|k: int| 0 <= k < out.unloaded@.len() implies (#[trigger] out.unloaded@[k]) < g.nodes@.len() by {
        let u = out.unloaded@[k];
        assert(out.unloaded@.contains(u));
        assert(needs(g, o, reqs, u as int));
        let x = choose|x: Fact| #[trigger] derives(g, o, reqs, x) && shows_need(g, x, u as int);
        lemma_derived_in_range(g, o, reqs, x);
        if let Fact::Active(n, _, d) = x {
            lemma_target(g, n, g.nodes@[n].decls()[d]);
        }
    }
    assert forall|k: int| 0 <= k < out.edges@.len() implies (#[trigger] out.edges@[k]).0 < g.nodes@.len() && out.edges@[k].1
        < g.nodes@.len() by {
        let (n, t) = out.edges@[k];
        assert(out.edges@.contains((n, t)));
        assert(links(g, o, reqs, n as int, t as int));
        let x = choose|x: Fact| #[trigger] derives(g, o, reqs, x) && shows_edge(g, x, n as int, t as int);
        lemma_derived_in_range(g, o, reqs, x);
        if let Fact::Active(m, _, d) = x {
            lemma_target(g, m, g.nodes@[m].decls()[d]);
        }
    }
}

} // verus!
