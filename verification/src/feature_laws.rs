//! What resolving features comes to, for whoever reads the outcome: which packages are built with which features, and why.

use vstd::prelude::*;
use crate::cfgexpr::applies;
use crate::cfgexpr::facts;
use crate::features::Ask;
use crate::features::EngineOpts;
use crate::features::Fact;
use crate::features::InfoEntry;
use crate::features::Outcome;
use crate::features::Request;
use crate::features::ask_of;
use crate::features::asked;
use crate::features::asks_of;
use crate::features::base_edges;
use crate::features::closed_under;
use crate::features::counts;
use crate::features::deps_of;
use crate::features::derives;
use crate::features::feats_of;
use crate::features::follow;
use crate::features::holds_requests;
use crate::features::joint;
use crate::features::lacks;
use crate::features::lemma_asked_from;
use crate::features::lemma_asked_mem;
use crate::features::lemma_asks_has;
use crate::features::lemma_asks_of;
use crate::features::lemma_derive_follow;
use crate::features::lemma_derive_joint;
use crate::features::lemma_derive_request;
use crate::features::lemma_derived_in_range;
use crate::features::lemma_feats_of;
use crate::features::lemma_feature_keys;
use crate::features::lemma_target;
use crate::features::links;
use crate::features::named_of;
use crate::features::needs;
use crate::features::on;
use crate::features::optional_edges;
use crate::features::ready;
use crate::features::request_facts;
use crate::features::shows_edge;
use crate::features::shows_lack;
use crate::features::shows_need;
use crate::features::shows_unknown;
use crate::features::side_of;
use crate::features::tells;
use crate::features::tells_of;
use crate::features::unknown;
use crate::finite::lemma_concat;
use crate::manifest::DepDecl;
use crate::manifest::DepKind;
use crate::resolve::Graph;
use crate::text::first_at;
use crate::text::split_first;
use crate::text::starts;
use crate::text::views;

verus! {

// ---------------------------------------------------------------------------
// What is taken for granted of inputs.

/// What features call a dependency: its new name, where it has one.
pub open spec fn name_in_features(dep: DepDecl) -> Seq<char> {
    if dep.rename.is_some() {
        dep.rename.unwrap()@
    } else {
        dep.name@
    }
}

/// Nothing about the kind or the platform of a dependency keeps it from counting for the package `n`.
pub open spec fn is_for(o: EngineOpts, n: usize, dep: DepDecl, host: bool) -> bool {
    &&& dep.kind == DepKind::Dev ==> o.dev_for@.contains(n)
    &&& dep.platform.is_some() && o.platforms.is_some() ==> if host || dep.kind == DepKind::Build {
        applies(dep.platform.unwrap()@, o.platforms.unwrap().host.triple@, facts(o.platforms.unwrap().host.cfg@))
    } else {
        exists|i: int|
            0 <= i < o.platforms.unwrap().targets@.len() && applies(
                dep.platform.unwrap()@,
                (#[trigger] o.platforms.unwrap().targets@[i]).triple@,
                facts(o.platforms.unwrap().targets@[i].cfg@),
            )
    }
}

/// A package that is compiled to run in the compiler.
pub open spec fn runs_in_compiler(g: Graph, t: int) -> bool {
    g.nodes@[t].package.is_some() && exists|i: int|
        0 <= i < g.nodes@[t].package.unwrap().targets@.len() && views(
            (#[trigger] g.nodes@[t].package.unwrap().targets@[i]).crate_types@,
        ).contains("proc-macro"@)
}

/// The side on which a dependency of a package on the side `host` is built, where the two sides are told apart.
pub open spec fn side_for(g: Graph, o: EngineOpts, dep: DepDecl, t: int, host: bool) -> bool {
    o.two_sides && (host || dep.kind == DepKind::Build || runs_in_compiler(g, t))
}

/// The outcome of a resolution that went well.
pub open spec fn answered(g: Graph, o: EngineOpts, reqs: Seq<Request>, out: Outcome) -> bool {
    &&& g.wf()
    &&& forall|k: int| 0 <= k < reqs.len() ==> (#[trigger] reqs[k]).node < g.nodes@.len()
    &&& tells(g, o, reqs, out)
    &&& forall|n: int, f: Seq<char>| !#[trigger] unknown(g, o, reqs, n, f)
}

/// The outcome has the package on that side.
pub open spec fn has_entry(out: Outcome, n: int, host: bool) -> bool {
    exists|k: int| 0 <= k < out.info@.len() && (#[trigger] out.info@[k]).node == n && out.info@[k].host == host
}

/// The package is built on that side, with the feature.
pub open spec fn is_on(out: Outcome, n: int, host: bool, f: Seq<char>) -> bool {
    exists|k: int|
        0 <= k < out.info@.len() && (#[trigger] out.info@[k]).node == n && out.info@[k].host == host && out.info@[k].info.named@.contains(
            f,
        )
}

/// The dependency `i` of the package of an entry is one that is built with it.
pub open spec fn takes(g: Graph, o: EngineOpts, e: InfoEntry, i: int) -> bool {
    let dep = g.nodes@[e.node as int].decls()[i];
    &&& 0 <= i < g.nodes@[e.node as int].decls().len()
    &&& is_for(o, e.node, dep, e.host)
    &&& dep.optional ==> e.info.optional_deps@.contains(name_in_features(dep))
}

// ---------------------------------------------------------------------------
// Facts.

proof fn lemma_push<A>(s: Seq<A>, y: A, x: A)
    ensures
        s.push(y).contains(x) == (s.contains(x) || x == y),
{
    if s.contains(x) {
        let i = choose|i: int| 0 <= i < s.len() && s[i] == x;
        assert(s.push(y)[i] == x);
    }
    assert(s.push(y)[s.len() as int] == y);
}

proof fn lemma_base_mem(g: Graph, o: EngineOpts, n: int, host: bool, k: int, x: Fact)
    requires
        0 <= n <= usize::MAX,
        0 <= k <= g.nodes@[n].decls().len(),
    ensures
        base_edges(g, o, n, host, k).contains(x) == exists|i: int|
            0 <= i < k && x == Fact::Active(n, host, i) && !(#[trigger] g.nodes@[n].decls()[i]).optional && is_for(
                o,
                n as usize,
                g.nodes@[n].decls()[i],
                host,
            ),
    decreases k,
{
    if k > 0 {
        let dep = g.nodes@[n].decls()[k - 1];
        lemma_base_mem(g, o, n, host, k - 1, x);
        lemma_counts(o, n, dep, host);
        lemma_push(base_edges(g, o, n, host, k - 1), Fact::Active(n, host, k - 1), x);
    }
}

proof fn lemma_counts(o: EngineOpts, n: int, dep: DepDecl, host: bool)
    requires
        0 <= n <= usize::MAX,
    ensures
        counts(o, n, dep, host) == is_for(o, n as usize, dep, host),
{
    if o.dev_for@.contains(n as usize) {
        let k = choose|k: int| 0 <= k < o.dev_for@.len() && o.dev_for@[k] == n as usize;
        assert(o.dev_for@[k] == n);
    }
}

proof fn lemma_optional_mem(g: Graph, o: EngineOpts, n: int, host: bool, name: Seq<char>, k: int, x: Fact)
    requires
        0 <= n <= usize::MAX,
        0 <= k <= g.nodes@[n].decls().len(),
    ensures
        optional_edges(g, o, n, host, name, k).contains(x) == exists|i: int|
            0 <= i < k && x == Fact::Active(n, host, i) && (#[trigger] g.nodes@[n].decls()[i]).optional && is_for(
                o,
                n as usize,
                g.nodes@[n].decls()[i],
                host,
            ) && name_in_features(g.nodes@[n].decls()[i]) == name,
    decreases k,
{
    if k > 0 {
        let dep = g.nodes@[n].decls()[k - 1];
        lemma_optional_mem(g, o, n, host, name, k - 1, x);
        lemma_counts(o, n, dep, host);
        lemma_push(optional_edges(g, o, n, host, name, k - 1), Fact::Active(n, host, k - 1), x);
    }
}

/// What follows was asked for, or follows from something that does.
proof fn lemma_reason(g: Graph, o: EngineOpts, reqs: Seq<Request>, x: Fact)
    requires
        derives(g, o, reqs, x),
    ensures
        asked(g, o, reqs, reqs.len() as int).contains(x) || (exists|p: Fact| #[trigger]
            derives(g, o, reqs, p) && follow(g, o, p).contains(x)) || (exists|p: Fact, q: Fact| #[trigger]
            derives(g, o, reqs, p) && #[trigger] derives(g, o, reqs, q) && joint(g, o, p, q) == Some(x)),
{
    let all = asked(g, o, reqs, reqs.len() as int);
    let c = Set::new(|y: Fact| derives(g, o, reqs, y) && y != x);
    if !all.contains(x) && !(exists|p: Fact| #[trigger] derives(g, o, reqs, p) && follow(g, o, p).contains(x)) && !(exists|
        p: Fact,
        q: Fact,
    | #[trigger] derives(g, o, reqs, p) && #[trigger] derives(g, o, reqs, q) && joint(g, o, p, q) == Some(x)) {
        assert forall|p: Fact, y: Fact| c.contains(p) && #[trigger] follow(g, o, p).contains(y) implies c.contains(y) by {
            lemma_derive_follow(g, o, reqs, p, y);
        }
        assert forall|p: Fact, q: Fact|
            c.contains(p) && c.contains(q) && (#[trigger] joint(g, o, p, q)).is_some() implies c.contains(
            joint(g, o, p, q).unwrap(),
        ) by {
            lemma_derive_joint(g, o, reqs, p, q);
        }
        assert(closed_under(g, o, c));
        assert(holds_requests(g, o, reqs, c)) by {
            assert forall|y: Fact| #[trigger] all.contains(y) implies c.contains(y) by {
                lemma_derive_request(g, o, reqs, y);
            }
        }
        assert(c.contains(x));
    }
}

spec fn base_of(x: Fact) -> Fact {
    match x {
        Fact::Asked(n, host, _) => Fact::Asked(n, host, Ask::Base),
        Fact::Active(n, host, _) => Fact::Asked(n, host, Ask::Base),
    }
}

proof fn lemma_request_base(g: Graph, o: EngineOpts, r: Request, x: Fact)
    requires
        request_facts(g, o, r).contains(x),
    ensures
        request_facts(g, o, r).contains(base_of(x)),
        base_of(x) == Fact::Asked(r.node as int, o.two_sides && ready(g, o, r.node as int) && g.nodes@[r.node as int].proc_macro(), Ask::Base),
{
    let n = r.node as int;
    let host = o.two_sides && ready(g, o, n) && g.nodes@[n].proc_macro();
    let a = seq![Fact::Asked(n, host, Ask::Base)];
    let b = if r.default {
        seq![Fact::Asked(n, host, Ask::Feat("default"@))]
    } else {
        Seq::empty()
    };
    let names = g.nodes@[n].feature_names();
    let c = if r.all_features && ready(g, o, n) {
        feats_of(n, host, names, names.len() as int)
    } else {
        Seq::empty()
    };
    let d = asks_of(n, host, r.features@, r.features@.len() as int);
    lemma_concat(a + b + c, d, x);
    lemma_concat(a + b, c, x);
    lemma_concat(a, b, x);
    if d.contains(x) {
        lemma_asks_of(n, host, r.features@, r.features@.len() as int, x);
    } else if c.contains(x) {
        lemma_feats_of(n, host, names, names.len() as int, x);
    }
    let y = Fact::Asked(n, host, Ask::Base);
    assert((a + b + c + d)[0] == y);
}

/// A package of which something is asked is on.
proof fn lemma_based(g: Graph, o: EngineOpts, reqs: Seq<Request>, x: Fact)
    requires
        g.wf(),
        forall|k: int| 0 <= k < reqs.len() ==> (#[trigger] reqs[k]).node < g.nodes@.len(),
        derives(g, o, reqs, x),
    ensures
        derives(g, o, reqs, base_of(x)),
{
    let c = Set::new(|y: Fact| derives(g, o, reqs, y) && derives(g, o, reqs, base_of(y)));
    assert forall|p: Fact, y: Fact| c.contains(p) && #[trigger] follow(g, o, p).contains(y) implies c.contains(y) by {
        lemma_derive_follow(g, o, reqs, p, y);
        lemma_derived_in_range(g, o, reqs, p);
        match p {
            Fact::Asked(n, host, ask) => {
                let node = g.nodes@[n];
                assert(n < g.nodes.len());
                match ask {
                    Ask::Base => {
                        lemma_base_mem(g, o, n, host, node.decls().len() as int, y);
                    },
                    Ask::Feat(f) => {
                        if node.feature_map().contains_key(f) {
                            lemma_asks_of(n, host, node.feature_map()[f]@, node.feature_map()[f]@.len() as int, y);
                        }
                    },
                    Ask::Dep(name) => {
                        lemma_optional_mem(g, o, n, host, name, node.decls().len() as int, y);
                    },
                    Ask::DepFeat(name, feat, weak) => {},
                }
                assert(base_of(y) == base_of(p));
            },
            Fact::Active(n, host, i) => {
                let dep = g.nodes@[n].decls()[i];
                let t = g.target(n, dep).unwrap();
                lemma_active_follow(g, o, n, host, i, t, y);
                let b = base_of(y);
                lemma_active_follow(g, o, n, host, i, t, b);
                lemma_derive_follow(g, o, reqs, p, b);
            },
        }
    }
    assert forall|p: Fact, q: Fact|
        c.contains(p) && c.contains(q) && (#[trigger] joint(g, o, p, q)).is_some() implies c.contains(
        joint(g, o, p, q).unwrap(),
    ) by {
        lemma_derive_joint(g, o, reqs, p, q);
        let y = joint(g, o, p, q).unwrap();
        if let Fact::Active(n, host, i) = p {
            let dep = g.nodes@[n].decls()[i];
            let t = g.target(n, dep).unwrap();
            let b = base_of(y);
            lemma_active_follow(g, o, n, host, i, t, b);
            lemma_derive_follow(g, o, reqs, p, b);
        }
    }
    assert(closed_under(g, o, c));
    assert(holds_requests(g, o, reqs, c)) by {
        assert forall|y: Fact| #[trigger] asked(g, o, reqs, reqs.len() as int).contains(y) implies c.contains(y) by {
            lemma_derive_request(g, o, reqs, y);
            lemma_asked_from(g, o, reqs, reqs.len() as int, y);
            let k = choose|k: int| 0 <= k < reqs.len() && request_facts(g, o, #[trigger] reqs[k]).contains(y);
            lemma_request_base(g, o, reqs[k], y);
            lemma_asked_mem(g, o, reqs, k, reqs.len() as int, base_of(y));
            lemma_derive_request(g, o, reqs, base_of(y));
        }
    }
    assert(c.contains(x));
}

/// What follows from a dependency that is on.
proof fn lemma_active_follow(g: Graph, o: EngineOpts, n: int, host: bool, i: int, t: int, x: Fact)
    requires
        g.target(n, g.nodes@[n].decls()[i]) == Some(t),
        ready(g, o, t),
    ensures
        ({
            let dep = g.nodes@[n].decls()[i];
            let ts = side_for(g, o, dep, t, host);
            follow(g, o, Fact::Active(n, host, i)).contains(x) == (x == Fact::Asked(t, ts, Ask::Base) || (x == Fact::Asked(
                t,
                ts,
                Ask::Feat("default"@),
            ) && dep.default_features) || exists|j: int|
                0 <= j < dep.features@.len() && x == Fact::Asked(t, ts, Ask::Feat((#[trigger] dep.features@[j])@)))
        }),
{
    let dep = g.nodes@[n].decls()[i];
    let ts = side_for(g, o, dep, t, host);
    lemma_side(g, o, dep, t, host);
    let a = seq![Fact::Asked(t, ts, Ask::Base)];
    let b = if dep.default_features {
        seq![Fact::Asked(t, ts, Ask::Feat("default"@))]
    } else {
        Seq::empty()
    };
    let names = views(dep.features@);
    let m = names.len() as int;
    let c = feats_of(t, ts, names, m);
    lemma_concat(a + b, c, x);
    lemma_concat(a, b, x);
    assert(a[0] == Fact::Asked(t, ts, Ask::Base));
    if dep.default_features {
        assert(b[0] == Fact::Asked(t, ts, Ask::Feat("default"@)));
    }
    if c.contains(x) {
        lemma_feats_of(t, ts, names, m, x);
        let j = choose|j: int| 0 <= j < m && x == Fact::Asked(t, ts, Ask::Feat(#[trigger] names[j]));
        assert(names[j] == dep.features@[j]@);
    }
    if exists|j: int| 0 <= j < dep.features@.len() && x == Fact::Asked(t, ts, Ask::Feat((#[trigger] dep.features@[j])@)) {
        let j = choose|j: int| 0 <= j < dep.features@.len() && x == Fact::Asked(t, ts, Ask::Feat((#[trigger] dep.features@[j])@));
        lemma_feats_has(t, ts, names, j, m);
        assert(names[j] == dep.features@[j]@);
    }
}

proof fn lemma_side(g: Graph, o: EngineOpts, dep: DepDecl, t: int, host: bool)
    ensures
        side_of(g, o, t, dep, host) == side_for(g, o, dep, t, host),
        g.nodes@[t].proc_macro() == runs_in_compiler(g, t),
{
    match g.nodes@[t].package {
        Some(p) => {
            if g.nodes@[t].proc_macro() {
                let i = choose|i: int| 0 <= i < p.targets@.len() && (#[trigger] p.targets@[i]).proc_macro();
                assert(views(p.targets@[i].crate_types@).contains("proc-macro"@));
            }
            if runs_in_compiler(g, t) {
                let i = choose|i: int|
                    0 <= i < p.targets@.len() && views((#[trigger] p.targets@[i]).crate_types@).contains("proc-macro"@);
                assert(p.targets@[i].proc_macro());
            }
        },
        None => {},
    }
}

proof fn lemma_feats_has(n: int, host: bool, names: Seq<Seq<char>>, j: int, k: int)
    requires
        0 <= j < k <= names.len(),
    ensures
        feats_of(n, host, names, k).contains(Fact::Asked(n, host, Ask::Feat(names[j]))),
    decreases k,
{
    let x = Fact::Asked(n, host, Ask::Feat(names[j]));
    lemma_push(feats_of(n, host, names, k - 1), Fact::Asked(n, host, Ask::Feat(names[k - 1])), x);
    if j < k - 1 {
        lemma_feats_has(n, host, names, j, k - 1);
    }
}

/// A dependency is on for a package where the outcome has the package, and the dependency is taken.
proof fn lemma_taken(g: Graph, o: EngineOpts, reqs: Seq<Request>, out: Outcome, k: int, i: int)
    requires
        answered(g, o, reqs, out),
        0 <= k < out.info@.len(),
        takes(g, o, out.info@[k], i),
    ensures
        derives(g, o, reqs, Fact::Active(out.info@[k].node as int, out.info@[k].host, i)),
{
    let e = out.info@[k];
    let n = e.node as int;
    assert(tells_of(g, o, reqs, e));
    let dep = g.nodes@[n].decls()[i];
    let x = Fact::Active(n, e.host, i);
    let len = g.nodes@[n].decls().len() as int;
    if !dep.optional {
        lemma_base_mem(g, o, n, e.host, len, x);
        lemma_derive_follow(g, o, reqs, Fact::Asked(n, e.host, Ask::Base), x);
    } else {
        let name = name_in_features(dep);
        lemma_optional_mem(g, o, n, e.host, name, len, x);
        assert(deps_of(g, o, reqs, n, e.host).contains(name));
        lemma_derive_follow(g, o, reqs, Fact::Asked(n, e.host, Ask::Dep(name)), x);
    }
}

/// Where a dependency is on, the outcome has its package, and the dependency is taken.
proof fn lemma_active(g: Graph, o: EngineOpts, reqs: Seq<Request>, out: Outcome, n: int, host: bool, i: int)
    requires
        answered(g, o, reqs, out),
        derives(g, o, reqs, Fact::Active(n, host, i)),
    ensures
        exists|k: int|
            0 <= k < out.info@.len() && (#[trigger] out.info@[k]).node == n && out.info@[k].host == host && takes(
                g,
                o,
                out.info@[k],
                i,
            ),
{
    let x = Fact::Active(n, host, i);
    lemma_derived_in_range(g, o, reqs, x);
    lemma_reason(g, o, reqs, x);
    lemma_based(g, o, reqs, x);
    assert(!asked(g, o, reqs, reqs.len() as int).contains(x)) by {
        if asked(g, o, reqs, reqs.len() as int).contains(x) {
            lemma_asked_from(g, o, reqs, reqs.len() as int, x);
            let k = choose|k: int| 0 <= k < reqs.len() && request_facts(g, o, #[trigger] reqs[k]).contains(x);
            lemma_request_is_ask(g, o, reqs[k], x);
        }
    }
    let p = choose|p: Fact| #[trigger] derives(g, o, reqs, p) && follow(g, o, p).contains(x);
    let len = g.nodes@[n].decls().len() as int;
    lemma_derived_in_range(g, o, reqs, p);
    match p {
        Fact::Asked(m, h, ask) => {
            let node = g.nodes@[m];
            let dlen = node.decls().len() as int;
            assert(m < g.nodes.len());
            match ask {
                Ask::Base => {
                    lemma_base_mem(g, o, m, h, dlen, x);
                },
                Ask::Feat(f) => {
                    if node.feature_map().contains_key(f) {
                        lemma_asks_of(m, h, node.feature_map()[f]@, node.feature_map()[f]@.len() as int, x);
                    }
                },
                Ask::Dep(name) => {
                    lemma_optional_mem(g, o, m, h, name, dlen, x);
                },
                Ask::DepFeat(name, feat, weak) => {},
            }
            assert(ready(g, o, n));
            assert(on(g, o, reqs, n, host));
            let k = choose|k: int| 0 <= k < out.info@.len() && (#[trigger] out.info@[k]).node == n && out.info@[k].host == host;
            assert(tells_of(g, o, reqs, out.info@[k]));
            if let Ask::Dep(name) = ask {
                assert(deps_of(g, o, reqs, n, host).contains(name));
            }
            assert(takes(g, o, out.info@[k], i));
        },
        Fact::Active(m, h, d) => {
            let t = g.target(m, g.nodes@[m].decls()[d]).unwrap();
            lemma_active_follow(g, o, m, h, d, t, x);
        },
    }
}

proof fn lemma_request_is_ask(g: Graph, o: EngineOpts, r: Request, x: Fact)
    requires
        request_facts(g, o, r).contains(x),
    ensures
        x is Asked,
{
    let n = r.node as int;
    let host = o.two_sides && ready(g, o, n) && g.nodes@[n].proc_macro();
    let names = g.nodes@[n].feature_names();
    let a = seq![Fact::Asked(n, host, Ask::Base)];
    let b = if r.default {
        seq![Fact::Asked(n, host, Ask::Feat("default"@))]
    } else {
        Seq::empty()
    };
    let c = if r.all_features && ready(g, o, n) {
        feats_of(n, host, names, names.len() as int)
    } else {
        Seq::empty()
    };
    let d = asks_of(n, host, r.features@, r.features@.len() as int);
    lemma_concat(a + b + c, d, x);
    lemma_concat(a + b, c, x);
    lemma_concat(a, b, x);
    if d.contains(x) {
        lemma_asks_of(n, host, r.features@, r.features@.len() as int, x);
    } else if c.contains(x) {
        lemma_feats_of(n, host, names, names.len() as int, x);
    }
}

/// A feature that is asked for is on, where the package has it; and it has it, unless it is the default one.
proof fn lemma_feature_on(g: Graph, o: EngineOpts, reqs: Seq<Request>, out: Outcome, n: int, host: bool, f: Seq<char>)
    requires
        answered(g, o, reqs, out),
        derives(g, o, reqs, Fact::Asked(n, host, Ask::Feat(f))),
        ready(g, o, n),
    ensures
        f != "default"@ || g.nodes@[n].feature_map().contains_key(f) ==> is_on(out, n, host, f),
{
    lemma_based(g, o, reqs, Fact::Asked(n, host, Ask::Feat(f)));
    assert(on(g, o, reqs, n, host));
    let k = choose|k: int| 0 <= k < out.info@.len() && (#[trigger] out.info@[k]).node == n && out.info@[k].host == host;
    assert(tells_of(g, o, reqs, out.info@[k]));
    if f != "default"@ && !g.nodes@[n].feature_map().contains_key(f) {
        assert(shows_unknown(g, o, Fact::Asked(n, host, Ask::Feat(f)), n, f));
        assert(unknown(g, o, reqs, n, f));
    }
    if g.nodes@[n].feature_map().contains_key(f) {
        assert(named_of(g, o, reqs, n, host).contains(f));
        assert(is_on(out, n, host, f));
    }
}

proof fn lemma_decls_fit(g: Graph, n: int)
    ensures
        g.nodes@[n].decls().len() <= usize::MAX,
{
    match (g.nodes@[n].package, g.nodes@[n].summary) {
        (Some(p), _) => {
            assert(p.deps.len() == p.deps@.len());
        },
        (None, Some(s)) => {
            assert(s.deps.len() == s.deps@.len());
        },
        _ => {},
    }
}

// ---------------------------------------------------------------------------
// Laws.

/// A dependency of a package that is built is built too, on its side: with its default features unless they are declined,
/// and with the features that the declaration asks for. A package that is not loaded yet is listed as such, and so is a
/// dependency that nothing resolves.
pub proof fn law_dependencies_are_built_as_declared(g: Graph, o: EngineOpts, reqs: Seq<Request>, out: Outcome, k: int, i: int)
    requires
        answered(g, o, reqs, out),
        0 <= k < out.info@.len(),
        takes(g, o, out.info@[k], i),
    ensures
        ({
            let e = out.info@[k];
            let dep = g.nodes@[e.node as int].decls()[i];
            match g.target(e.node as int, dep) {
                None => out.missing@.contains((e.node, i as usize)),
                Some(t) => {
                    let side = side_for(g, o, dep, t, e.host);
                    &&& out.edges@.contains((e.node, t as usize))
                    &&& g.nodes@[t].package.is_some() ==> has_entry(out, t, side)
                    &&& g.nodes@[t].package.is_none() && g.nodes@[t].summary.is_none() ==> out.unloaded@.contains(t as usize)
                    &&& g.nodes@[t].package.is_none() && o.needs_package ==> out.unloaded@.contains(t as usize)
                    &&& g.nodes@[t].package.is_some() && dep.default_features && g.nodes@[t].package.unwrap().features@.contains_key(
                        "default"@,
                    ) ==> is_on(out, t, side, "default"@)
                    &&& g.nodes@[t].package.is_some() ==> forall|j: int|
                        0 <= j < dep.features@.len() && (#[trigger] dep.features@[j])@ != "default"@ ==> is_on(
                            out,
                            t,
                            side,
                            dep.features@[j]@,
                        )
                },
            }
        }),
{
    let e = out.info@[k];
    let n = e.node as int;
    let dep = g.nodes@[n].decls()[i];
    let p = Fact::Active(n, e.host, i);
    lemma_taken(g, o, reqs, out, k, i);
    lemma_derived_in_range(g, o, reqs, p);
    match g.target(n, dep) {
        None => {
            assert(shows_lack(g, p, n, i));
            assert(lacks(g, o, reqs, n, i));
            lemma_decls_fit(g, n);
            assert(out.missing@.contains((e.node, i as usize)));
        },
        Some(t) => {
            lemma_target(g, n, dep);
            assert(t < g.nodes.len());
            assert(shows_edge(g, p, n, t));
            assert(links(g, o, reqs, n, t));
            assert(out.edges@.contains((e.node, t as usize)));
            if !ready(g, o, t) {
                assert(shows_need(g, p, t));
                assert(needs(g, o, reqs, t));
                assert(out.unloaded@.contains(t as usize));
            } else {
                let side = side_for(g, o, dep, t, e.host);
                let base = Fact::Asked(t, side, Ask::Base);
                lemma_active_follow(g, o, n, e.host, i, t, base);
                lemma_derive_follow(g, o, reqs, p, base);
                assert(on(g, o, reqs, t, side));
                let d = Fact::Asked(t, side, Ask::Feat("default"@));
                if dep.default_features {
                    lemma_active_follow(g, o, n, e.host, i, t, d);
                    lemma_derive_follow(g, o, reqs, p, d);
                    lemma_feature_on(g, o, reqs, out, t, side, "default"@);
                }
                assert forall|j: int|
                    0 <= j < dep.features@.len() && (#[trigger] dep.features@[j])@ != "default"@ implies is_on(
                    out,
                    t,
                    side,
                    dep.features@[j]@,
                ) by {
                    let x = Fact::Asked(t, side, Ask::Feat(dep.features@[j]@));
                    lemma_active_follow(g, o, n, e.host, i, t, x);
                    lemma_derive_follow(g, o, reqs, p, x);
                    lemma_feature_on(g, o, reqs, out, t, side, dep.features@[j]@);
                }
            }
        },
    }
}

/// What is built because of a dependency is built because of one that counts: it is no development dependency of a package
/// that none is asked for, it is for a platform at hand, and an optional one was turned on.
pub proof fn law_only_dependencies_that_count_are_built(g: Graph, o: EngineOpts, reqs: Seq<Request>, out: Outcome, n: usize, t: usize)
    requires
        answered(g, o, reqs, out),
        out.edges@.contains((n, t)),
    ensures
        exists|k: int, i: int|
            0 <= k < out.info@.len() && (#[trigger] out.info@[k]).node == n && #[trigger] takes(g, o, out.info@[k], i) && g.target(
                n as int,
                g.nodes@[n as int].decls()[i],
            ) == Some(t as int),
{
    assert(links(g, o, reqs, n as int, t as int));
    let x = choose|x: Fact| #[trigger] derives(g, o, reqs, x) && shows_edge(g, x, n as int, t as int);
    if let Fact::Active(m, host, i) = x {
        lemma_active(g, o, reqs, out, m, host, i);
    }
}

/// A package is built on a side because it was asked for, or because a package that is built depends on it.
pub proof fn law_packages_are_built_for_a_reason(g: Graph, o: EngineOpts, reqs: Seq<Request>, out: Outcome, k: int)
    requires
        answered(g, o, reqs, out),
        0 <= k < out.info@.len(),
    ensures
        (exists|r: int| 0 <= r < reqs.len() && (#[trigger] reqs[r]).node == out.info@[k].node) || exists|d: int, i: int|
            0 <= d < out.info@.len() && #[trigger] takes(g, o, out.info@[d], i) && g.target(
                out.info@[d].node as int,
                g.nodes@[out.info@[d].node as int].decls()[i],
            ) == Some(out.info@[k].node as int) && out.info@[k].host == side_for(
                g,
                o,
                g.nodes@[out.info@[d].node as int].decls()[i],
                out.info@[k].node as int,
                out.info@[d].host,
            ),
{
    let e = out.info@[k];
    let x = Fact::Asked(e.node as int, e.host, Ask::Base);
    assert(tells_of(g, o, reqs, e));
    lemma_reason(g, o, reqs, x);
    if asked(g, o, reqs, reqs.len() as int).contains(x) {
        lemma_asked_from(g, o, reqs, reqs.len() as int, x);
        let r = choose|r: int| 0 <= r < reqs.len() && request_facts(g, o, #[trigger] reqs[r]).contains(x);
        lemma_request_base(g, o, reqs[r], x);
    } else {
        let p = choose|p: Fact| #[trigger] derives(g, o, reqs, p) && follow(g, o, p).contains(x);
        lemma_derived_in_range(g, o, reqs, p);
        lemma_from_dependency(g, o, reqs, out, p, x);
    }
}

/// What is asked of a package through a dependency.
proof fn lemma_from_dependency(g: Graph, o: EngineOpts, reqs: Seq<Request>, out: Outcome, p: Fact, x: Fact)
    requires
        answered(g, o, reqs, out),
        derives(g, o, reqs, p),
        follow(g, o, p).contains(x),
        x matches Fact::Asked(_, _, ask) && (ask is Base || p is Active),
    ensures
        p is Active,
        exists|d: int, i: int|
            0 <= d < out.info@.len() && #[trigger] takes(g, o, out.info@[d], i) && ({
                let dep = g.nodes@[out.info@[d].node as int].decls()[i];
                x matches Fact::Asked(t, host, ask) && g.target(out.info@[d].node as int, dep) == Some(t) && host == side_for(
                    g,
                    o,
                    dep,
                    t,
                    out.info@[d].host,
                ) && (ask matches Ask::Feat(f) ==> (f == "default"@ && dep.default_features) || exists|j: int|
                    0 <= j < dep.features@.len() && (#[trigger] dep.features@[j])@ == f)
            }),
{
    lemma_derived_in_range(g, o, reqs, p);
    match p {
        Fact::Asked(m, h, ask) => {
            let node = g.nodes@[m];
            let dlen = node.decls().len() as int;
            assert(m < g.nodes.len());
            match ask {
                Ask::Base => {
                    lemma_base_mem(g, o, m, h, dlen, x);
                },
                Ask::Feat(f) => {
                    if node.feature_map().contains_key(f) {
                        lemma_asks_of(m, h, node.feature_map()[f]@, node.feature_map()[f]@.len() as int, x);
                    }
                },
                Ask::Dep(name) => {
                    lemma_optional_mem(g, o, m, h, name, dlen, x);
                },
                Ask::DepFeat(name, feat, weak) => {},
            }
        },
        Fact::Active(m, h, i) => {
            let dep = g.nodes@[m].decls()[i];
            let t = g.target(m, dep).unwrap();
            lemma_active_follow(g, o, m, h, i, t, x);
            lemma_active(g, o, reqs, out, m, h, i);
            let d = choose|d: int|
                0 <= d < out.info@.len() && (#[trigger] out.info@[d]).node == m && out.info@[d].host == h && takes(
                    g,
                    o,
                    out.info@[d],
                    i,
                );
            assert(takes(g, o, out.info@[d], i));
            if let Fact::Asked(_, _, Ask::Feat(f)) = x {
                if !(f == "default"@ && dep.default_features) {
                    let j = choose|j: int|
                        0 <= j < dep.features@.len() && x == Fact::Asked(
                            t,
                            side_for(g, o, dep, t, h),
                            Ask::Feat((#[trigger] dep.features@[j])@),
                        );
                    assert(dep.features@[j]@ == f);
                }
            }
        },
    }
}

// ---------------------------------------------------------------------------
// What values say.

/// A value says something of the dependency `name` and its feature `feat`: `name/feat`, or `name?/feat`.
pub open spec fn of_dependency(v: Seq<char>, name: Seq<char>, feat: Seq<char>) -> bool {
    v == name + "/"@ + feat || v == name + "?/"@ + feat
}

proof fn lemma_first(s: Seq<char>, c: char, i: int, k: int)
    requires
        0 <= k <= i < s.len(),
        s[i] == c,
        forall|j: int| k <= j < i ==> s[j] != c,
    ensures
        first_at(s, c, k) == i,
    decreases i - k,
{
    if k < i {
        lemma_first(s, c, i, k + 1);
    }
}

proof fn lemma_first_is(s: Seq<char>, c: char, k: int)
    requires
        0 <= k <= s.len(),
    ensures
        k <= first_at(s, c, k) <= s.len(),
        first_at(s, c, k) < s.len() ==> s[first_at(s, c, k)] == c,
        forall|j: int| k <= j < first_at(s, c, k) ==> s[j] != c,
    decreases s.len() - k,
{
    if k < s.len() && s[k] != c {
        lemma_first_is(s, c, k + 1);
    }
}

/// What a value asks for is written in it.
proof fn lemma_value_reads(v: Seq<char>)
    ensures
        match ask_of(v) {
            Ask::Base => false,
            Ask::Feat(f) => v == f && !starts(v, "dep:"@) && !v.contains('/'),
            Ask::Dep(d) => v == "dep:"@ + d,
            Ask::DepFeat(a, b, weak) => v == a + (if weak {
                "?/"@
            } else {
                "/"@
            }) + b,
        },
{
    reveal_strlit("dep:");
    reveal_strlit("/");
    reveal_strlit("?/");
    reveal_strlit("?");
    lemma_first_is(v, '/', 0);
    match ask_of(v) {
        Ask::Base => {},
        Ask::Feat(f) => {
            assert(!v.contains('/')) by {
                if v.contains('/') {
                    let j = choose|j: int| 0 <= j < v.len() && v[j] == '/';
                    assert(first_at(v, '/', 0) == v.len());
                    assert(v[j] != '/');
                }
            }
        },
        Ask::Dep(d) => {
            assert(v =~= v.take(4) + v.skip(4));
        },
        Ask::DepFeat(a, b, weak) => {
            let (x, y) = split_first(v, '/').unwrap();
            assert(v =~= x + "/"@ + y);
            if weak {
                assert(x =~= a + "?"@) by {
                    assert(x.skip(x.len() - 1) == "?"@);
                    assert(x =~= x.take(x.len() - 1) + x.skip(x.len() - 1));
                }
                assert(v =~= a + "?/"@ + b);
            }
        },
    }
}

/// A value without a mark is a feature.
proof fn lemma_plain_value(v: Seq<char>)
    requires
        !starts(v, "dep:"@),
        !v.contains('/'),
    ensures
        ask_of(v) == Ask::Feat(v),
{
    lemma_first_is(v, '/', 0);
    let i = first_at(v, '/', 0);
    if i < v.len() {
        assert(v.contains(v[i]));
    }
}

/// `dep:` marks a dependency.
proof fn lemma_dep_value(v: Seq<char>, d: Seq<char>)
    requires
        v == "dep:"@ + d,
    ensures
        ask_of(v) == Ask::Dep(d),
{
    reveal_strlit("dep:");
    assert(v.take(4) =~= "dep:"@);
    assert(v.skip(4) =~= d);
}

/// A slash parts a dependency from its feature.
proof fn lemma_slash_value(v: Seq<char>, a: Seq<char>, b: Seq<char>, weak: bool)
    requires
        v == a + (if weak {
            "?/"@
        } else {
            "/"@
        }) + b,
        !a.contains('/'),
        !starts(v, "dep:"@),
        weak || !(a.len() > 0 && a.last() == '?'),
    ensures
        ask_of(v) == Ask::DepFeat(a, b, weak),
{
    reveal_strlit("/");
    reveal_strlit("?/");
    reveal_strlit("?");
    let x = if weak {
        a.push('?')
    } else {
        a
    };
    assert(v =~= x + "/"@ + b);
    assert forall|j: int| 0 <= j < x.len() implies v[j] != '/' by {
        if j < a.len() {
            assert(a.contains(a[j]));
            assert(v[j] == a[j]);
        }
    }
    lemma_first(v, '/', x.len() as int, 0);
    assert(v.take(x.len() as int) =~= x);
    assert(v.skip(x.len() as int + 1) =~= b);
    if weak {
        assert(x.skip(x.len() - 1) =~= "?"@);
        assert(x.take(x.len() - 1) =~= a);
    } else if x.len() > 0 {
        assert(x.skip(x.len() - 1)[0] == x.last());
        assert("?"@[0] == '?');
    }
}

/// What a value of a feature that is on, or of a request, comes to for the package of an entry.
pub open spec fn value_counts(g: Graph, o: EngineOpts, out: Outcome, e: InfoEntry, v: Seq<char>) -> bool {
    let node = g.nodes@[e.node as int];
    // A name is a feature of the package.
    &&& !starts(v, "dep:"@) && !v.contains('/') && (v != "default"@ || node.feature_map().contains_key(v)) ==> e.info.named@.contains(v)
    // `dep:name` is an optional dependency.
    &&& forall|d: Seq<char>| v == "dep:"@ + d ==> #[trigger] e.info.optional_deps@.contains(d)
    // `name/feat` turns on an optional dependency that counts, and a feature called like it.
    &&& forall|i: int, feat: Seq<char>|
        0 <= i < node.decls().len() && node.decls()[i].optional && is_for(o, e.node, node.decls()[i], e.host)
            && !starts(v, "dep:"@) && #[trigger] is_strong(v, name_in_features(node.decls()[i]), feat) ==> e.info.optional_deps@.contains(
            name_in_features(node.decls()[i]),
        ) && (node.feature_map().contains_key(name_in_features(node.decls()[i])) ==> e.info.named@.contains(
            name_in_features(node.decls()[i]),
        ))
    // `name/feat` and `name?/feat` turn on the feature of a dependency that is on.
    &&& forall|i: int, feat: Seq<char>| #[trigger]
        takes(g, o, e, i) && !starts(v, "dep:"@) && #[trigger] names_feature(v, name_in_features(node.decls()[i]), feat) ==> match g.target(
            e.node as int,
            node.decls()[i],
        ) {
            Some(t) => g.nodes@[t].package.is_some() && (feat != "default"@ || g.nodes@[t].feature_map().contains_key(feat))
                ==> is_on(out, t, side_for(g, o, node.decls()[i], t, e.host), feat),
            None => true,
        }
}

/// `name/feat`, for a name without a slash or a question mark at its end.
pub open spec fn is_strong(v: Seq<char>, name: Seq<char>, feat: Seq<char>) -> bool {
    v == name + "/"@ + feat && !name.contains('/') && !(name.len() > 0 && name.last() == '?')
}

/// `name/feat` or `name?/feat`.
pub open spec fn names_feature(v: Seq<char>, name: Seq<char>, feat: Seq<char>) -> bool {
    is_strong(v, name, feat) || (v == name + "?/"@ + feat && !name.contains('/'))
}

proof fn lemma_value_counts(g: Graph, o: EngineOpts, reqs: Seq<Request>, out: Outcome, k: int, v: Seq<char>)
    requires
        answered(g, o, reqs, out),
        0 <= k < out.info@.len(),
        derives(g, o, reqs, Fact::Asked(out.info@[k].node as int, out.info@[k].host, ask_of(v))),
    ensures
        value_counts(g, o, out, out.info@[k], v),
{
    let e = out.info@[k];
    let n = e.node as int;
    let node = g.nodes@[n];
    let len = node.decls().len() as int;
    assert(tells_of(g, o, reqs, e));
    lemma_derived_in_range(g, o, reqs, Fact::Asked(n, e.host, Ask::Base));
    if !starts(v, "dep:"@) && !v.contains('/') && (v != "default"@ || node.feature_map().contains_key(v)) {
        lemma_plain_value(v);
        lemma_feature_on(g, o, reqs, out, n, e.host, v);
        let j = choose|j: int|
            0 <= j < out.info@.len() && (#[trigger] out.info@[j]).node == n && out.info@[j].host == e.host && out.info@[j].info.named@.contains(v);
        assert(j == k) by {
            if j < k {
                assert((out.info@[j].node, out.info@[j].host) != (out.info@[k].node, out.info@[k].host));
            } else if k < j {
                assert((out.info@[k].node, out.info@[k].host) != (out.info@[j].node, out.info@[j].host));
            }
        }
    }
    assert forall|d: Seq<char>| v == "dep:"@ + d implies #[trigger] e.info.optional_deps@.contains(d) by {
        lemma_dep_value(v, d);
        assert(deps_of(g, o, reqs, n, e.host).contains(d));
    }
    assert forall|i: int, feat: Seq<char>|
        0 <= i < node.decls().len() && node.decls()[i].optional && is_for(o, e.node, node.decls()[i], e.host)
            && !starts(v, "dep:"@) && #[trigger] is_strong(v, name_in_features(node.decls()[i]), feat) implies e.info.optional_deps@.contains(
        name_in_features(node.decls()[i]),
    ) && (node.feature_map().contains_key(name_in_features(node.decls()[i])) ==> e.info.named@.contains(
        name_in_features(node.decls()[i]),
    )) by {
        let name = name_in_features(node.decls()[i]);
        lemma_slash_value(v, name, feat, false);
        let p = Fact::Asked(n, e.host, Ask::DepFeat(name, feat, false));
        lemma_optional_mem(g, o, n, e.host, name, len, Fact::Active(n, e.host, i));
        assert(optional_edges(g, o, n, e.host, name, len).len() > 0);
        let x = Fact::Asked(n, e.host, Ask::Dep(name));
        assert(follow(g, o, p)[0] == x);
        lemma_derive_follow(g, o, reqs, p, x);
        assert(deps_of(g, o, reqs, n, e.host).contains(name));
        if node.feature_map().contains_key(name) {
            let y = Fact::Asked(n, e.host, Ask::Feat(name));
            assert(follow(g, o, p)[1] == y);
            lemma_derive_follow(g, o, reqs, p, y);
            assert(named_of(g, o, reqs, n, e.host).contains(name));
        }
    }
    assert forall|i: int, feat: Seq<char>| #[trigger]
        takes(g, o, e, i) && !starts(v, "dep:"@) && #[trigger] names_feature(v, name_in_features(node.decls()[i]), feat) implies match g.target(
        e.node as int,
        node.decls()[i],
    ) {
        Some(t) => g.nodes@[t].package.is_some() && (feat != "default"@ || g.nodes@[t].feature_map().contains_key(feat)) ==> is_on(
            out,
            t,
            side_for(g, o, node.decls()[i], t, e.host),
            feat,
        ),
        None => true,
    } by {
        let dep = node.decls()[i];
        let name = name_in_features(dep);
        let weak = !is_strong(v, name, feat);
        lemma_slash_value(v, name, feat, weak);
        lemma_taken(g, o, reqs, out, k, i);
        let p = Fact::Active(n, e.host, i);
        let q = Fact::Asked(n, e.host, Ask::DepFeat(name, feat, weak));
        if let Some(t) = g.target(n, dep) {
            if g.nodes@[t].package.is_some() {
                lemma_side(g, o, dep, t, e.host);
                assert(joint(g, o, p, q) == Some(Fact::Asked(t, side_for(g, o, dep, t, e.host), Ask::Feat(feat))));
                lemma_derive_joint(g, o, reqs, p, q);
                lemma_feature_on(g, o, reqs, out, t, side_for(g, o, dep, t, e.host), feat);
            }
        }
    }
}

/// A feature that is on turns on what each of its values names: other features, optional dependencies, and features of
/// dependencies.
pub proof fn law_values_of_features_count(g: Graph, o: EngineOpts, reqs: Seq<Request>, out: Outcome, k: int, f: Seq<char>, j: int)
    requires
        answered(g, o, reqs, out),
        0 <= k < out.info@.len(),
        out.info@[k].info.named@.contains(f),
        0 <= j < g.nodes@[out.info@[k].node as int].feature_map()[f]@.len(),
    ensures
        value_counts(g, o, out, out.info@[k], g.nodes@[out.info@[k].node as int].feature_map()[f]@[j]@),
{
    let e = out.info@[k];
    let n = e.node as int;
    assert(tells_of(g, o, reqs, e));
    assert(named_of(g, o, reqs, n, e.host).contains(f));
    let values = g.nodes@[n].feature_map()[f]@;
    lemma_asks_has(n, e.host, values, j, values.len() as int);
    lemma_derive_follow(g, o, reqs, Fact::Asked(n, e.host, Ask::Feat(f)), Fact::Asked(n, e.host, ask_of(values[j]@)));
    lemma_value_counts(g, o, reqs, out, k, values[j]@);
}

/// What is asked for is built: the package, its default features or all of them where that is asked, and whatever else the
/// request names.
pub proof fn law_requests_are_met(g: Graph, o: EngineOpts, reqs: Seq<Request>, out: Outcome, r: int)
    requires
        answered(g, o, reqs, out),
        0 <= r < reqs.len(),
        g.nodes@[reqs[r].node as int].package.is_some(),
    ensures
        exists|k: int|
            0 <= k < out.info@.len() && (#[trigger] out.info@[k]).node == reqs[r].node && out.info@[k].host == (o.two_sides
                && runs_in_compiler(g, reqs[r].node as int)) && ({
                let e = out.info@[k];
                let features = g.nodes@[reqs[r].node as int].package.unwrap().features@;
                &&& reqs[r].default && features.contains_key("default"@) ==> e.info.named@.contains("default"@)
                &&& reqs[r].all_features ==> forall|f: Seq<char>| features.contains_key(f) ==> #[trigger] e.info.named@.contains(f)
                &&& forall|j: int| 0 <= j < reqs[r].features@.len() ==> value_counts(g, o, out, e, (#[trigger] reqs[r].features@[j])@)
            }),
{
    let q = reqs[r];
    let n = q.node as int;
    let host = o.two_sides && runs_in_compiler(g, n);
    lemma_side_of_node(g, n);
    let names = g.nodes@[n].feature_names();
    let a = seq![Fact::Asked(n, host, Ask::Base)];
    let b = if q.default {
        seq![Fact::Asked(n, host, Ask::Feat("default"@))]
    } else {
        Seq::empty()
    };
    let c = if q.all_features {
        feats_of(n, host, names, names.len() as int)
    } else {
        Seq::empty()
    };
    let d = asks_of(n, host, q.features@, q.features@.len() as int);
    assert(request_facts(g, o, q) == a + b + c + d);
    assert forall|x: Fact| a.contains(x) || b.contains(x) || c.contains(x) || d.contains(x) implies #[trigger] derives(g, o, reqs, x) by {
        lemma_concat(a + b + c, d, x);
        lemma_concat(a + b, c, x);
        lemma_concat(a, b, x);
        lemma_asked_mem(g, o, reqs, r, reqs.len() as int, x);
        lemma_derive_request(g, o, reqs, x);
    }
    let base = Fact::Asked(n, host, Ask::Base);
    assert(a[0] == base);
    assert(a.contains(base));
    assert(on(g, o, reqs, n, host));
    let k = choose|k: int| 0 <= k < out.info@.len() && (#[trigger] out.info@[k]).node == n && out.info@[k].host == host;
    let e = out.info@[k];
    assert(tells_of(g, o, reqs, e));
    let features = g.nodes@[n].package.unwrap().features@;
    if q.default && features.contains_key("default"@) {
        let x = Fact::Asked(n, host, Ask::Feat("default"@));
        assert(b[0] == x);
        assert(b.contains(x));
        assert(derives(g, o, reqs, x));
        assert(named_of(g, o, reqs, n, host).contains("default"@));
    }
    if q.all_features {
        assert forall|f: Seq<char>| features.contains_key(f) implies #[trigger] e.info.named@.contains(f) by {
            lemma_feature_keys(g.nodes@[n]);
            assert(g.nodes@[n].feature_map().contains_key(f));
            let j = choose|j: int| 0 <= j < names.len() && names[j] == f;
            lemma_feats_has(n, host, names, j, names.len() as int);
            let x = Fact::Asked(n, host, Ask::Feat(f));
            assert(c.contains(x));
            assert(derives(g, o, reqs, x));
            assert(named_of(g, o, reqs, n, host).contains(f));
        }
    }
    assert forall|j: int| 0 <= j < q.features@.len() implies value_counts(g, o, out, e, (#[trigger] q.features@[j])@) by {
        let v = q.features@[j]@;
        lemma_asks_has(n, host, q.features@, j, q.features@.len() as int);
        let x = Fact::Asked(n, host, ask_of(v));
        assert(d.contains(x));
        assert(derives(g, o, reqs, x));
        lemma_value_counts(g, o, reqs, out, k, v);
    }
}

proof fn lemma_side_of_node(g: Graph, n: int)
    ensures
        g.nodes@[n].proc_macro() == runs_in_compiler(g, n),
{
    match g.nodes@[n].package {
        Some(p) => {
            if g.nodes@[n].proc_macro() {
                let i = choose|i: int| 0 <= i < p.targets@.len() && (#[trigger] p.targets@[i]).proc_macro();
                assert(views(p.targets@[i].crate_types@).contains("proc-macro"@));
            }
            if runs_in_compiler(g, n) {
                let i = choose|i: int|
                    0 <= i < p.targets@.len() && views((#[trigger] p.targets@[i]).crate_types@).contains("proc-macro"@);
                assert(p.targets@[i].proc_macro());
            }
        },
        None => {},
    }
}

/// A value that turns on the feature `f` of its own package: `f` itself, or `f/..` where a dependency is called so.
pub open spec fn turns_on(v: Seq<char>, f: Seq<char>) -> bool {
    v == f || (v.len() > f.len() && v.take(f.len() as int) == f && v[f.len() as int] == '/')
}

/// The value stands in a request for the package of the entry, or in a feature of it that is on.
pub open spec fn is_said(g: Graph, reqs: Seq<Request>, e: InfoEntry, v: Seq<char>) -> bool {
    ||| exists|r: int, j: int|
        0 <= r < reqs.len() && reqs[r].node == e.node && 0 <= j < reqs[r].features@.len() && (#[trigger] reqs[r].features@[j])@ == v
    ||| exists|h: Seq<char>, j: int|
        e.info.named@.contains(h) && 0 <= j < g.nodes@[e.node as int].feature_map()[h]@.len() && (
        #[trigger] g.nodes@[e.node as int].feature_map()[h]@[j])@ == v
}

/// The request names the feature by itself: as a default one, as one of all, or not at all.
pub open spec fn by_request(r: Request, f: Seq<char>) -> bool {
    (r.default && f == "default"@) || r.all_features
}

/// A dependency gives the feature to the package that it leads to: by the declaration, or by a value of the package that
/// depends on it.
pub open spec fn by_dependency(g: Graph, reqs: Seq<Request>, e: InfoEntry, dep: DepDecl, f: Seq<char>) -> bool {
    ||| dep.default_features && f == "default"@
    ||| exists|j: int| 0 <= j < dep.features@.len() && (#[trigger] dep.features@[j])@ == f
    ||| exists|v: Seq<char>| #[trigger] is_said(g, reqs, e, v) && of_dependency(v, name_in_features(dep), f)
}

proof fn lemma_ask_said(g: Graph, o: EngineOpts, reqs: Seq<Request>, out: Outcome, n: int, host: bool, ask: Ask)
    requires
        answered(g, o, reqs, out),
        derives(g, o, reqs, Fact::Asked(n, host, ask)),
        ask is DepFeat,
        ready(g, o, n),
    ensures
        exists|k: int, v: Seq<char>|
            0 <= k < out.info@.len() && out.info@[k].node == n && out.info@[k].host == host && #[trigger] is_said(
                g,
                reqs,
                out.info@[k],
                v,
            ) && ask_of(v) == ask,
{
    let x = Fact::Asked(n, host, ask);
    lemma_based(g, o, reqs, x);
    lemma_derived_in_range(g, o, reqs, x);
    assert(on(g, o, reqs, n, host));
    let k = choose|k: int| 0 <= k < out.info@.len() && (#[trigger] out.info@[k]).node == n && out.info@[k].host == host;
    let e = out.info@[k];
    assert(tells_of(g, o, reqs, e));
    lemma_reason(g, o, reqs, x);
    if asked(g, o, reqs, reqs.len() as int).contains(x) {
        lemma_asked_from(g, o, reqs, reqs.len() as int, x);
        let r = choose|r: int| 0 <= r < reqs.len() && request_facts(g, o, #[trigger] reqs[r]).contains(x);
        lemma_request_values(g, o, reqs[r], x);
        let j = choose|j: int| 0 <= j < reqs[r].features@.len() && ask_of((#[trigger] reqs[r].features@[j])@) == ask;
        let v = reqs[r].features@[j]@;
        assert(is_said(g, reqs, e, v));
    } else {
        let p = choose|p: Fact| #[trigger] derives(g, o, reqs, p) && follow(g, o, p).contains(x);
        lemma_derived_in_range(g, o, reqs, p);
        match p {
            Fact::Asked(m, h, a) => {
                let node = g.nodes@[m];
                let dlen = node.decls().len() as int;
                assert(m < g.nodes.len());
                match a {
                    Ask::Base => {
                        lemma_base_mem(g, o, m, h, dlen, x);
                    },
                    Ask::Feat(f) => {
                        let values = node.feature_map()[f]@;
                        lemma_asks_of(m, h, values, values.len() as int, x);
                        let j = choose|j: int|
                            0 <= j < values.len() && x == Fact::Asked(m, h, ask_of((#[trigger] values[j])@));
                        assert(named_of(g, o, reqs, n, host).contains(f));
                        assert(e.info.named@.contains(f));
                        assert(g.nodes@[e.node as int].feature_map()[f]@[j]@ == values[j]@);
                        assert(is_said(g, reqs, e, values[j]@));
                    },
                    Ask::Dep(name) => {
                        lemma_optional_mem(g, o, m, h, name, dlen, x);
                    },
                    Ask::DepFeat(name, feat, weak) => {},
                }
            },
            Fact::Active(m, h, i) => {
                let t = g.target(m, g.nodes@[m].decls()[i]).unwrap();
                lemma_active_follow(g, o, m, h, i, t, x);
            },
        }
    }
}

/// What a request asks for besides its package.
proof fn lemma_request_values(g: Graph, o: EngineOpts, r: Request, x: Fact)
    requires
        request_facts(g, o, r).contains(x),
    ensures
        x matches Fact::Asked(n, host, ask) && n == r.node && match ask {
            Ask::Base => true,
            Ask::Feat(f) => by_request(r, f) || exists|j: int|
                0 <= j < r.features@.len() && ask_of((#[trigger] r.features@[j])@) == ask,
            _ => exists|j: int| 0 <= j < r.features@.len() && ask_of((#[trigger] r.features@[j])@) == ask,
        },
{
    let n = r.node as int;
    let host = o.two_sides && ready(g, o, n) && g.nodes@[n].proc_macro();
    let names = g.nodes@[n].feature_names();
    let a = seq![Fact::Asked(n, host, Ask::Base)];
    let b = if r.default {
        seq![Fact::Asked(n, host, Ask::Feat("default"@))]
    } else {
        Seq::empty()
    };
    let c = if r.all_features && ready(g, o, n) {
        feats_of(n, host, names, names.len() as int)
    } else {
        Seq::empty()
    };
    let d = asks_of(n, host, r.features@, r.features@.len() as int);
    lemma_concat(a + b + c, d, x);
    lemma_concat(a + b, c, x);
    lemma_concat(a, b, x);
    if d.contains(x) {
        lemma_asks_of(n, host, r.features@, r.features@.len() as int, x);
        let j = choose|j: int| 0 <= j < r.features@.len() && x == Fact::Asked(n, host, ask_of((#[trigger] r.features@[j])@));
        assert(ask_of(r.features@[j]@) == x->Asked_2);
    } else if c.contains(x) {
        lemma_feats_of(n, host, names, names.len() as int, x);
    }
}

/// A feature is on for a reason: a request names it, a package that is built depends on this one and gives it the feature,
/// or a value that counts turns it on. In particular a package that is only depended on with its default features declined
/// has none.
pub proof fn law_features_are_on_for_a_reason(g: Graph, o: EngineOpts, reqs: Seq<Request>, out: Outcome, k: int, f: Seq<char>)
    requires
        answered(g, o, reqs, out),
        0 <= k < out.info@.len(),
        out.info@[k].info.named@.contains(f),
    ensures
        ({
            let e = out.info@[k];
            ||| exists|r: int| 0 <= r < reqs.len() && (#[trigger] reqs[r]).node == e.node && by_request(reqs[r], f)
            ||| exists|v: Seq<char>| #[trigger] is_said(g, reqs, e, v) && turns_on(v, f)
            ||| exists|d: int, i: int|
                0 <= d < out.info@.len() && #[trigger] takes(g, o, out.info@[d], i) && ({
                    let dep = g.nodes@[out.info@[d].node as int].decls()[i];
                    &&& g.target(out.info@[d].node as int, dep) == Some(e.node as int)
                    &&& e.host == side_for(g, o, dep, e.node as int, out.info@[d].host)
                    &&& by_dependency(g, reqs, out.info@[d], dep, f)
                })
        }),
{
    let e = out.info@[k];
    let n = e.node as int;
    let x = Fact::Asked(n, e.host, Ask::Feat(f));
    assert(tells_of(g, o, reqs, e));
    assert(named_of(g, o, reqs, n, e.host).contains(f));
    assert(derives(g, o, reqs, x));
    lemma_derived_in_range(g, o, reqs, x);
    lemma_reason(g, o, reqs, x);
    if asked(g, o, reqs, reqs.len() as int).contains(x) {
        lemma_asked_from(g, o, reqs, reqs.len() as int, x);
        let r = choose|r: int| 0 <= r < reqs.len() && request_facts(g, o, #[trigger] reqs[r]).contains(x);
        lemma_request_values(g, o, reqs[r], x);
        if !by_request(reqs[r], f) {
            let j = choose|j: int| 0 <= j < reqs[r].features@.len() && ask_of((#[trigger] reqs[r].features@[j])@) == Ask::Feat(f);
            lemma_value_reads(reqs[r].features@[j]@);
            assert(is_said(g, reqs, e, f));
        }
    } else if exists|p: Fact| #[trigger] derives(g, o, reqs, p) && follow(g, o, p).contains(x) {
        let p = choose|p: Fact| #[trigger] derives(g, o, reqs, p) && follow(g, o, p).contains(x);
        lemma_derived_in_range(g, o, reqs, p);
        match p {
            Fact::Asked(m, h, ask) => {
                let node = g.nodes@[m];
                let dlen = node.decls().len() as int;
                assert(m < g.nodes.len());
                match ask {
                    Ask::Base => {
                        lemma_base_mem(g, o, m, h, dlen, x);
                    },
                    Ask::Feat(h2) => {
                        let values = node.feature_map()[h2]@;
                        lemma_asks_of(m, h, values, values.len() as int, x);
                        let j = choose|j: int|
                            0 <= j < values.len() && x == Fact::Asked(m, h, ask_of((#[trigger] values[j])@));
                        lemma_value_reads(values[j]@);
                        assert(named_of(g, o, reqs, n, e.host).contains(h2));
                        assert(e.info.named@.contains(h2));
                        assert(g.nodes@[e.node as int].feature_map()[h2]@[j]@ == f);
                        assert(is_said(g, reqs, e, f));
                    },
                    Ask::Dep(name) => {
                        lemma_optional_mem(g, o, m, h, name, dlen, x);
                    },
                    Ask::DepFeat(name, feat, weak) => {
                        assert(name == f && !weak) by {
                            let fs = follow(g, o, p);
                            let j = choose|j: int| 0 <= j < fs.len() && fs[j] == x;
                            assert(fs[0] == Fact::Asked(m, h, Ask::Dep(name)));
                            assert(j == 1);
                        }
                        lemma_ask_said(g, o, reqs, out, n, e.host, ask);
                        let (k2, v) = choose|k2: int, v: Seq<char>|
                            0 <= k2 < out.info@.len() && out.info@[k2].node == n && out.info@[k2].host == e.host
                                && #[trigger] is_said(g, reqs, out.info@[k2], v) && ask_of(v) == ask;
                        lemma_one_entry(g, o, reqs, out, k, k2);
                        lemma_value_reads(v);
                        assert(v == f + "/"@ + feat);
                        reveal_strlit("/");
                        assert(v.take(f.len() as int) =~= f);
                        assert(turns_on(v, f));
                    },
                }
            },
            Fact::Active(m, h, i) => {
                lemma_from_dependency(g, o, reqs, out, p, x);
            },
        }
    } else {
        let (p, q) = choose|p: Fact, q: Fact| #[trigger]
            derives(g, o, reqs, p) && #[trigger] derives(g, o, reqs, q) && joint(g, o, p, q) == Some(x);
        if let Fact::Active(m, h, i) = p {
            if let Fact::Asked(_, _, Ask::DepFeat(name, feat, weak)) = q {
                let dep = g.nodes@[m].decls()[i];
                lemma_side(g, o, dep, n, h);
                lemma_active(g, o, reqs, out, m, h, i);
                let d = choose|d: int|
                    0 <= d < out.info@.len() && (#[trigger] out.info@[d]).node == m && out.info@[d].host == h && takes(
                        g,
                        o,
                        out.info@[d],
                        i,
                    );
                lemma_ask_said(g, o, reqs, out, m, h, Ask::DepFeat(name, feat, weak));
                let (d2, v) = choose|d2: int, v: Seq<char>|
                    0 <= d2 < out.info@.len() && out.info@[d2].node == m && out.info@[d2].host == h && #[trigger] is_said(
                        g,
                        reqs,
                        out.info@[d2],
                        v,
                    ) && ask_of(v) == Ask::DepFeat(name, feat, weak);
                lemma_one_entry(g, o, reqs, out, d, d2);
                lemma_value_reads(v);
                assert(of_dependency(v, name_in_features(dep), f));
                assert(is_said(g, reqs, out.info@[d], v));
                assert(by_dependency(g, reqs, out.info@[d], dep, f));
                assert(takes(g, o, out.info@[d], i));
            }
        }
    }
}

proof fn lemma_one_entry(g: Graph, o: EngineOpts, reqs: Seq<Request>, out: Outcome, a: int, b: int)
    requires
        tells(g, o, reqs, out),
        0 <= a < out.info@.len(),
        0 <= b < out.info@.len(),
        out.info@[a].node == out.info@[b].node,
        out.info@[a].host == out.info@[b].host,
    ensures
        a == b,
{
    if a < b {
        assert((out.info@[a].node, out.info@[a].host) != (out.info@[b].node, out.info@[b].host));
    } else if b < a {
        assert((out.info@[b].node, out.info@[b].host) != (out.info@[a].node, out.info@[a].host));
    }
}

/// A value that turns on the dependency `d`: `dep:d`, `d/..`, or `d?/..` where weak values count.
pub open spec fn turns_on_dependency(o: EngineOpts, v: Seq<char>, d: Seq<char>) -> bool {
    ||| v == "dep:"@ + d
    ||| v.len() > d.len() && v.take(d.len() as int) == d && v[d.len() as int] == '/'
    ||| o.weak_activates && v.len() > d.len() + 1 && v.take(d.len() as int) == d && v[d.len() as int] == '?' && v[d.len() as int + 1]
        == '/'
}

/// An optional dependency is on because a value that counts turns it on. `name?/feat` alone does not, except when a lockfile
/// is made.
pub proof fn law_optional_dependencies_are_on_for_a_reason(
    g: Graph,
    o: EngineOpts,
    reqs: Seq<Request>,
    out: Outcome,
    k: int,
    d: Seq<char>,
)
    requires
        answered(g, o, reqs, out),
        0 <= k < out.info@.len(),
        out.info@[k].info.optional_deps@.contains(d),
    ensures
        exists|v: Seq<char>| #[trigger] is_said(g, reqs, out.info@[k], v) && turns_on_dependency(o, v, d),
{
    let e = out.info@[k];
    let n = e.node as int;
    let x = Fact::Asked(n, e.host, Ask::Dep(d));
    reveal_strlit("/");
    reveal_strlit("?/");
    assert(tells_of(g, o, reqs, e));
    assert(deps_of(g, o, reqs, n, e.host).contains(d));
    lemma_derived_in_range(g, o, reqs, x);
    lemma_reason(g, o, reqs, x);
    if asked(g, o, reqs, reqs.len() as int).contains(x) {
        lemma_asked_from(g, o, reqs, reqs.len() as int, x);
        let r = choose|r: int| 0 <= r < reqs.len() && request_facts(g, o, #[trigger] reqs[r]).contains(x);
        lemma_request_values(g, o, reqs[r], x);
        let j = choose|j: int| 0 <= j < reqs[r].features@.len() && ask_of((#[trigger] reqs[r].features@[j])@) == Ask::Dep(d);
        let v = reqs[r].features@[j]@;
        lemma_value_reads(v);
        assert(is_said(g, reqs, e, v));
        assert(turns_on_dependency(o, v, d));
    } else {
        let p = choose|p: Fact| #[trigger] derives(g, o, reqs, p) && follow(g, o, p).contains(x);
        lemma_derived_in_range(g, o, reqs, p);
        match p {
            Fact::Asked(m, h, ask) => {
                let node = g.nodes@[m];
                let dlen = node.decls().len() as int;
                assert(m < g.nodes.len());
                match ask {
                    Ask::Base => {
                        lemma_base_mem(g, o, m, h, dlen, x);
                    },
                    Ask::Feat(f) => {
                        let values = node.feature_map()[f]@;
                        lemma_asks_of(m, h, values, values.len() as int, x);
                        let j = choose|j: int|
                            0 <= j < values.len() && x == Fact::Asked(m, h, ask_of((#[trigger] values[j])@));
                        lemma_value_reads(values[j]@);
                        assert(named_of(g, o, reqs, n, e.host).contains(f));
                        assert(g.nodes@[e.node as int].feature_map()[f]@[j]@ == values[j]@);
                        assert(is_said(g, reqs, e, values[j]@));
                        assert(turns_on_dependency(o, values[j]@, d));
                    },
                    Ask::Dep(name) => {
                        lemma_optional_mem(g, o, m, h, name, dlen, x);
                    },
                    Ask::DepFeat(name, feat, weak) => {
                        let fs = follow(g, o, p);
                        let j = choose|j: int| 0 <= j < fs.len() && fs[j] == x;
                        assert(fs[0] == Fact::Asked(m, h, Ask::Dep(name)));
                        assert(j == 0);
                        lemma_ask_said(g, o, reqs, out, n, e.host, ask);
                        let (k2, v) = choose|k2: int, v: Seq<char>|
                            0 <= k2 < out.info@.len() && out.info@[k2].node == n && out.info@[k2].host == e.host
                                && #[trigger] is_said(g, reqs, out.info@[k2], v) && ask_of(v) == ask;
                        lemma_one_entry(g, o, reqs, out, k, k2);
                        lemma_value_reads(v);
                        assert(v.take(d.len() as int) =~= d);
                        assert(turns_on_dependency(o, v, d));
                    },
                }
            },
            Fact::Active(m, h, i) => {
                let t = g.target(m, g.nodes@[m].decls()[i]).unwrap();
                lemma_active_follow(g, o, m, h, i, t, x);
            },
        }
    }
}

} // verus!
