//! What a lockfile holds, and which versions are selected for it.

use vstd::prelude::*;
use crate::features::Outcome;
use crate::lockfile::LockPkgView;
use crate::manifest::DepDeclView;
use crate::manifest::ref_query;
use crate::registry::IndexEntryView;
use crate::registry::versions_of;
use crate::resolve::GotView;
use crate::resolve::NodeView;
use crate::resolve::Nodes;
use crate::resolve::PickView;
use crate::resolve::PkgIdView;
use crate::resolve::PrefsView;
use crate::resolve::SourceIdView;
use crate::resolve::entry_at;
use crate::resolve::id_at;
use crate::resolve::is_locked;
use crate::resolve::lock_dep;
use crate::resolve::lock_deps;
use crate::resolve::lock_pkg;
use crate::resolve::locked_versions;
use crate::resolve::locks;
use crate::resolve::may_serve;
use crate::resolve::pick_registry;
use crate::resolve::preferred;
use crate::resolve::preferred_at;
use crate::resolve::registry_at;
use crate::version::VersionView;
use crate::version::lemma_newest;
use crate::version::meets;
use crate::version::newest_upto;
use crate::version::older;

verus! {

/// The package is one of those that a resolution is about: a member, one that is built, or an end of an edge.
pub open spec fn takes_part(members: Seq<usize>, out: Outcome, n: usize) -> bool {
    ||| exists|k: int| 0 <= k < members.len() && #[trigger] members[k] == n
    ||| exists|k: int| 0 <= k < out.info@.len() && (#[trigger] out.info@[k]).node == n
    ||| exists|k: int| 0 <= k < out.edges@.len() && (#[trigger] out.edges@[k]).0 == n
    ||| exists|k: int| 0 <= k < out.edges@.len() && (#[trigger] out.edges@[k]).1 == n
}

/// The entry stands for the package: its name and version, where it comes from, and the checksum of what a registry has.
pub open spec fn stands_for(p: LockPkgView, x: NodeView) -> bool {
    &&& p.name == x.id.name
    &&& p.version == x.id.version
    &&& match x.id.source {
        SourceIdView::Path(_) => p.source.is_none() && p.checksum.is_none(),
        SourceIdView::Registry(r) => p.source == Some(r) && p.checksum == x.checksum,
        SourceIdView::Git { url, commit, .. } => p.checksum.is_none() && p.source.is_some() && ends_in(p.source.unwrap(), "#"@ + commit)
            && begins_with(p.source.unwrap(), "git+"@ + url),
    }
}

pub open spec fn begins_with(s: Seq<char>, p: Seq<char>) -> bool {
    s.len() >= p.len() && s.take(p.len() as int) == p
}

pub open spec fn ends_in(s: Seq<char>, p: Seq<char>) -> bool {
    s.len() >= p.len() && s.skip(s.len() - p.len()) == p
}

/// The entry lists the packages that the package depends on, and no others.
pub open spec fn lists_edges(g: Nodes, out: Outcome, n: usize, p: LockPkgView) -> bool {
    &&& forall|k: int|
        0 <= k < out.edges@.len() && (#[trigger] out.edges@[k]).0 == n ==> exists|j: int|
            0 <= j < p.dependencies.len() && (#[trigger] p.dependencies[j]).name == g[out.edges@[k].1 as int].id.name
                && p.dependencies[j].version == Some(g[out.edges@[k].1 as int].id.version) && (p.dependencies[j].source.is_none()
                == (g[out.edges@[k].1 as int].id.source is Path))
    &&& forall|j: int|
        0 <= j < p.dependencies.len() ==> exists|k: int|
            0 <= k < out.edges@.len() && (#[trigger] out.edges@[k]).0 == n && (#[trigger] p.dependencies[j]).name
                == g[out.edges@[k].1 as int].id.name && p.dependencies[j].version == Some(g[out.edges@[k].1 as int].id.version)
}

proof fn lemma_lock_pkg(g: Nodes, out: Outcome, n: usize)
    ensures
        stands_for(lock_pkg(g, out.edges@, n), g[n as int]),
        lists_edges(g, out, n, lock_pkg(g, out.edges@, n)),
{
    let p = lock_pkg(g, out.edges@, n);
    let x = g[n as int];
    reveal_strlit("git+");
    reveal_strlit("#");
    if let SourceIdView::Git { url, reference, commit } = x.id.source {
        let s = p.source.unwrap();
        let q = ref_query(reference);
        assert(s == "git+"@ + url + q + "#"@ + commit);
        assert(s.take(("git+"@ + url).len() as int) =~= "git+"@ + url);
        assert(s.skip(s.len() - ("#"@ + commit).len()) =~= "#"@ + commit);
    }
    let len = out.edges@.len() as int;
    assert forall|k: int| 0 <= k < len && (#[trigger] out.edges@[k]).0 == n implies exists|j: int|
        0 <= j < p.dependencies.len() && (#[trigger] p.dependencies[j]).name == g[out.edges@[k].1 as int].id.name && p.dependencies[j].version
            == Some(g[out.edges@[k].1 as int].id.version) && (p.dependencies[j].source.is_none() == (
        g[out.edges@[k].1 as int].id.source is Path)) by {
        lemma_deps_have(g, out.edges@, n, len, k);
        let l = lock_deps(g, out.edges@, n, len);
        let j = choose|j: int| 0 <= j < l.len() && (#[trigger] l[j]) == lock_dep(g[out.edges@[k].1 as int]);
        assert(p.dependencies[j] == l[j]);
    }
    assert forall|j: int| 0 <= j < p.dependencies.len() implies exists|k: int|
        0 <= k < out.edges@.len() && (#[trigger] out.edges@[k]).0 == n && (#[trigger] p.dependencies[j]).name == g[out.edges@[k].1 as int].id.name
            && p.dependencies[j].version == Some(g[out.edges@[k].1 as int].id.version) by {
        lemma_deps_only(g, out.edges@, n, len, j);
        let k = choose|k: int|
            0 <= k < out.edges@.len() && (#[trigger] out.edges@[k]).0 == n && lock_deps(g, out.edges@, n, len)[j] == lock_dep(
                g[out.edges@[k].1 as int],
            );
        assert(out.edges@[k].0 == n && p.dependencies[j] == lock_dep(g[out.edges@[k].1 as int]));
    }
}

proof fn lemma_deps_have(g: Nodes, edges: Seq<(usize, usize)>, n: usize, m: int, k: int)
    requires
        0 <= k < m <= edges.len(),
        edges[k].0 == n,
    ensures
        exists|j: int|
            0 <= j < lock_deps(g, edges, n, m).len() && (#[trigger] lock_deps(g, edges, n, m)[j]) == lock_dep(
                g[edges[k].1 as int],
            ),
    decreases m,
{
    let rest = lock_deps(g, edges, n, m - 1);
    let all = lock_deps(g, edges, n, m);
    if k == m - 1 {
        assert(all[rest.len() as int] == lock_dep(g[edges[k].1 as int]));
    } else {
        lemma_deps_have(g, edges, n, m - 1, k);
        let j = choose|j: int|
            0 <= j < rest.len() && (#[trigger] rest[j]) == lock_dep(g[edges[k].1 as int]);
        assert(all[j] == rest[j]);
    }
}

proof fn lemma_deps_only(g: Nodes, edges: Seq<(usize, usize)>, n: usize, m: int, j: int)
    requires
        0 <= m <= edges.len(),
        0 <= j < lock_deps(g, edges, n, m).len(),
    ensures
        exists|k: int|
            0 <= k < edges.len() && (#[trigger] edges[k]).0 == n && lock_deps(g, edges, n, m)[j] == lock_dep(
                g[edges[k].1 as int],
            ),
    decreases m,
{
    if m > 0 {
        let rest = lock_deps(g, edges, n, m - 1);
        if j < rest.len() {
            lemma_deps_only(g, edges, n, m - 1, j);
        } else {
            assert(edges[m - 1].0 == n);
        }
    }
}

/// Every package that takes part has its entry in the lockfile: with its version, its source, the checksum that its registry
/// has for it, and the packages that it depends on.
pub proof fn law_the_lockfile_has_every_package(g: Nodes, out: Outcome, members: Seq<usize>, pkgs: Seq<LockPkgView>, n: usize)
    requires
        exists|ns: Seq<usize>| #[trigger] locks(g, out, members, pkgs, ns),
        takes_part(members, out, n),
    ensures
        exists|k: int| 0 <= k < pkgs.len() && stands_for(#[trigger] pkgs[k], g[n as int]) && lists_edges(g, out, n, pkgs[k]),
{
    let ns = choose|ns: Seq<usize>| #[trigger] locks(g, out, members, pkgs, ns);
    assert(is_locked(members, out, n));
    assert(ns.contains(n));
    let k = choose|k: int| 0 <= k < ns.len() && ns[k] == n;
    lemma_lock_pkg(g, out, n);
    assert(pkgs[k] == lock_pkg(g, out.edges@, ns[k]));
}

/// The lockfile has nothing else: each entry stands for a package that takes part, and no two for the same one.
pub proof fn law_the_lockfile_has_no_other_package(g: Nodes, out: Outcome, members: Seq<usize>, pkgs: Seq<LockPkgView>)
    requires
        exists|ns: Seq<usize>| #[trigger] locks(g, out, members, pkgs, ns),
    ensures
        exists|of: Seq<usize>|
            of.len() == pkgs.len() && of.no_duplicates() && forall|k: int|
                0 <= k < pkgs.len() ==> takes_part(members, out, #[trigger] of[k]) && stands_for(pkgs[k], g[of[k] as int]) && lists_edges(
                    g,
                    out,
                    of[k],
                    pkgs[k],
                ),
{
    let ns = choose|ns: Seq<usize>| #[trigger] locks(g, out, members, pkgs, ns);
    assert forall|k: int| 0 <= k < pkgs.len() implies takes_part(members, out, #[trigger] ns[k]) && stands_for(pkgs[k], g[ns[k] as int])
        && lists_edges(g, out, ns[k], pkgs[k]) by {
        assert(ns.contains(ns[k]));
        assert(is_locked(members, out, ns[k]));
        lemma_lock_pkg(g, out, ns[k]);
        assert(pkgs[k] == lock_pkg(g, out.edges@, ns[k]));
        if members.contains(ns[k]) {
            let j = choose|j: int| 0 <= j < members.len() && members[j] == ns[k];
            assert(members[j] == ns[k]);
        }
    }
    assert(ns.no_duplicates());
}

// ---------------------------------------------------------------------------
// Which version is selected.

/// The versions are in an order: of two, at most one is older, and what is not older than one that is not older than a third
/// is not older than that.
pub open spec fn in_an_order(vs: Seq<VersionView>) -> bool {
    &&& forall|i: int, j: int|
        0 <= i < vs.len() && 0 <= j < vs.len() && #[trigger] older(vs[i], vs[j]) ==> !older(vs[j], vs[i])
    &&& forall|i: int, j: int, k: int|
        0 <= i < vs.len() && 0 <= j < vs.len() && 0 <= k < vs.len() && !(#[trigger] older(vs[i], vs[j])) && !(#[trigger] older(
            vs[j],
            vs[k],
        )) ==> !older(vs[i], vs[k])
}

proof fn lemma_none_newer(vs: Seq<VersionView>, keep: spec_fn(int) -> bool, n: int)
    requires
        0 <= n <= vs.len(),
        in_an_order(vs),
    ensures
        newest_upto(vs, keep, n) matches Some(k) ==> 0 <= k < n && keep(k) && forall|j: int|
            0 <= j < n && #[trigger] keep(j) ==> !older(vs[k], vs[j]),
    decreases n,
{
    lemma_newest(vs, keep, n);
    if n > 0 {
        lemma_none_newer(vs, keep, n - 1);
        lemma_newest(vs, keep, n - 1);
        if let Some(k) = newest_upto(vs, keep, n) {
            assert forall|j: int| 0 <= j < n && #[trigger] keep(j) implies !older(vs[k], vs[j]) by {
                if let Some(b) = newest_upto(vs, keep, n - 1) {
                    if k == n - 1 && keep(n - 1) {
                        if j < n - 1 {
                            assert(!older(vs[b], vs[j]));
                            assert(!older(vs[n - 1], vs[b]));
                        } else if older(vs[n - 1], vs[n - 1]) {
                            assert(!older(vs[n - 1], vs[n - 1]));
                        }
                    } else if j == n - 1 {
                        assert(older(vs[n - 1], vs[b]));
                    }
                } else {
                    if older(vs[n - 1], vs[n - 1]) {
                        assert(!older(vs[n - 1], vs[n - 1]));
                    }
                }
            }
        }
    }
}

/// Where the index decides, and no compiler is minded, a dependency gets a version that is not yanked and meets the
/// requirement, and there is no newer one. Where there is such a version, it gets one. Its node has what the index has of that
/// version: the checksum, the dependencies and the features.
pub proof fn law_the_newest_version_is_selected(g: Nodes, source: Seq<char>, dep: DepDeclView, f: PrefsView, es: Seq<IndexEntryView>)
    requires
        registry_at(g, source, dep.name, dep.req).is_none(),
        preferred(f, source, dep.name).len() == 0,
        forall|n: int| 0 <= n < g.len() ==> !((#[trigger] g[n]).id.name == dep.name && g[n].id.source == SourceIdView::Registry(source)),
    ensures
        ({
            let (h, p) = pick_registry(g, source, dep, f, None, GotView::Entries(es));
            let some = exists|k: int| 0 <= k < es.len() && !(#[trigger] es[k]).yanked && meets(dep.req, es[k].vers);
            &&& !some ==> p is NoVersion && h == g
            &&& some ==> p == PickView::Use(g.len() as int) && h.len() == g.len() + 1 && exists|k: int|
                0 <= k < es.len() && !(#[trigger] es[k]).yanked && meets(dep.req, es[k].vers) && ({
                    let x = h[g.len() as int];
                    &&& x.id.name == dep.name
                    &&& x.id.source == SourceIdView::Registry(source)
                    &&& x.id.version == es[k].vers
                    &&& x.checksum == Some(es[k].cksum)
                    &&& x.summary.is_some()
                    &&& x.summary.unwrap().deps == es[k].deps
                    &&& x.summary.unwrap().features == es[k].features
                    &&& in_an_order(versions_of(es)) ==> forall|j: int|
                        0 <= j < es.len() && !(#[trigger] es[j]).yanked && meets(dep.req, es[j].vers) ==> !older(es[k].vers, es[j].vers)
                })
        }),
{
    let vs = versions_of(es);
    let keep = |i: int| may_serve(es[i], dep.req);
    let n = es.len() as int;
    lemma_newest(vs, keep, n);
    lemma_newest(
        locked_versions(preferred(f, source, dep.name)),
        |i: int| meets(dep.req, preferred(f, source, dep.name)[i].0),
        0,
    );
    assert(preferred_at(preferred(f, source, dep.name), dep.req).is_none());
    match entry_at(es, dep.req, None) {
        None => {
            assert forall|k: int| 0 <= k < n implies !(!(#[trigger] es[k]).yanked && meets(dep.req, es[k].vers)) by {
                assert(!keep(k));
            }
        },
        Some(k) => {
            assert(keep(k));
            let id = PkgIdView { name: dep.name, version: es[k].vers, source: SourceIdView::Registry(source) };
            lemma_no_id(g, id, 0);
            assert(!es[k].yanked && meets(dep.req, es[k].vers));
            if in_an_order(vs) {
                lemma_none_newer(vs, keep, n);
                assert forall|j: int| 0 <= j < n && !(#[trigger] es[j]).yanked && meets(dep.req, es[j].vers) implies !older(
                    es[k].vers,
                    es[j].vers,
                ) by {
                    assert(keep(j));
                    assert(vs[j] == es[j].vers && vs[k] == es[k].vers);
                }
            }
        },
    }
}

proof fn lemma_no_id(g: Nodes, id: PkgIdView, k: int)
    requires
        0 <= k,
        forall|n: int| 0 <= n < g.len() ==> !((#[trigger] g[n]).id.name == id.name && g[n].id.source == id.source),
    ensures
        id_at(g, id, k).is_none(),
    decreases g.len() - k,
{
    if k < g.len() {
        assert(g[k].id != id);
        lemma_no_id(g, id, k + 1);
    }
}

} // verus!
