//! What holds of the library as a whole: what is kept, what is never done, and what is read back.

use vstd::prelude::*;
use crate::config::dig;
use crate::config::inner_table;
use crate::config::key_place;
use crate::config::with_entry;
use crate::config::with_path;
use crate::config_get::ValEntries;
use crate::config_get::ValTree;
use crate::config_get::merged;
use crate::config_get::merged_upto;
use crate::config_get::slot;
use crate::git::Checked;
use crate::git::GitView;
use crate::git::LookedView;
use crate::git::checkout_of;
use crate::git::step_of;
use crate::invocation::EnvView;
use crate::invocation::InvocationView;
use crate::invocation::args_data;
use crate::invocation::env_data;
use crate::invocation::hashed_data;
use crate::invocation::normal;
use crate::lockfile::LockPkgView;
use crate::manifest::DepDecl;
use crate::manifest::DepDeclView;
use crate::manifest::DepSourceView;
use crate::manifest::Entries;
use crate::manifest::GitRefView;
use crate::manifest::ended;
use crate::manifest::full_lines;
use crate::manifest::header_from;
use crate::manifest::header_of;
use crate::manifest::key_from;
use crate::manifest::section_end;
use crate::manifest::sets_key;
use crate::manifest::span_of;
use crate::manifest::with_key;
use crate::manifest::without_key;
use crate::order::ascending;
use crate::order::before;
use crate::order::lemma_ascending_unique;
use crate::order::lemma_before_irreflexive;
use crate::registry::Download;
use crate::registry::IndexEntryView;
use crate::registry::KnownView;
use crate::registry::RegistryView;
use crate::registry::exact_from;
use crate::registry::newest_of;
use crate::registry::next_of;
use crate::registry::selected;
use crate::registry::versions_of;
use crate::resolve::GotView;
use crate::resolve::Nodes;
use crate::resolve::PickView;
use crate::resolve::PkgIdView;
use crate::resolve::PrefsView;
use crate::resolve::SourceIdView;
use crate::resolve::builds_with;
use crate::resolve::entry_at as index_entry_at;
use crate::resolve::forgetting;
use crate::resolve::id_at;
use crate::resolve::locked_versions;
use crate::resolve::may_serve;
use crate::resolve::node_versions;
use crate::resolve::patch_of;
use crate::resolve::pick_of;
use crate::resolve::pick_registry;
use crate::resolve::preferred;
use crate::resolve::preferred_at;
use crate::resolve::registry_at;
use crate::strmap::lemma_listed_finite;
use crate::strmap::listed;
use crate::text::ends;
use crate::text::first_at;
use crate::text::join_upto;
use crate::text::joined;
use crate::text::lemma_first_at;
use crate::text::skip_white;
use crate::text::starts;
use crate::text::trim_end_at;
use crate::text::trimmed;
use crate::text::trimmed_start;
use crate::text::white;
use crate::timings::averaged;
use crate::value::TomlTree;
use crate::value::at;
use crate::value::entry_at;
use crate::value::field;
use crate::version::VersionView;
use crate::version::lemma_newest;
use crate::version::meets;
use crate::version::req_of;
use crate::version::version_of;

verus! {

// ---------------------------------------------------------------------------
// Offline.

/// Without the net nothing is downloaded: a package is at hand, or the answer is that it is not.
pub proof fn law_offline_downloads_nothing(g: RegistryView, d: Download<'_>, k: KnownView)
    requires
        g.offline,
    ensures
        !(next_of(g, d, k) is Fetch),
        !(next_of(g, d, k) is AskTemplate),
{
}

/// A source that a directory stands in for is never downloaded from, with the net or without it.
pub proof fn law_vendored_packages_are_not_downloaded(g: RegistryView, d: Download<'_>, k: KnownView)
    requires
        g.vendor.contains_key(d.source@),
    ensures
        !(next_of(g, d, k) is Fetch),
        !(next_of(g, d, k) is AskTemplate),
        !(next_of(g, d, k) is Unpack),
{
}

/// Without the net no repository is fetched, neither to find a commit nor to check it out.
pub proof fn law_offline_fetches_no_repository(g: GitView, url: Seq<char>, r: GitRefView, commit: Seq<char>, k: LookedView, c: Checked)
    requires
        g.offline,
    ensures
        !(step_of(g.offline, url, r, k) is Fetch),
        !(checkout_of(g, url, commit, c) is Fetch),
{
}

// ---------------------------------------------------------------------------
// What is selected.

proof fn lemma_id_at(g: Nodes, id: PkgIdView, k: int)
    requires
        0 <= k,
    ensures
        id_at(g, id, k) matches Some(t) ==> k <= t < g.len() && g[t].id == id,
    decreases g.len() - k,
{
    if k < g.len() && g[k].id != id {
        lemma_id_at(g, id, k + 1);
    }
}

proof fn lemma_index_entry(es: Seq<IndexEntryView>, req: Seq<char>, rustc: Option<VersionView>)
    ensures
        index_entry_at(es, req, rustc) matches Some(k) ==> 0 <= k < es.len() && may_serve(es[k], req),
{
    let vs = versions_of(es);
    lemma_newest(vs, |i: int| may_serve(es[i], req), es.len() as int);
    if let Some(v) = rustc {
        lemma_newest(vs, |i: int| may_serve(es[i], req) && builds_with(es[i], v), es.len() as int);
    }
}

/// The package that is selected for a dependency of a registry has its name, comes from that registry, and has a
/// version that meets the requirement.
pub proof fn law_a_selected_package_meets_its_requirement(
    g: Nodes,
    source: Seq<char>,
    dep: DepDeclView,
    f: PrefsView,
    rustc: Option<VersionView>,
    got: GotView,
)
    ensures
        pick_registry(g, source, dep, f, rustc, got).1 matches PickView::Use(t) ==> {
            let h = pick_registry(g, source, dep, f, rustc, got).0;
            0 <= t < h.len() && h[t].id.name == dep.name && h[t].id.source == SourceIdView::Registry(source) && meets(
                dep.req,
                h[t].id.version,
            )
        },
{
    let locked = preferred(f, source, dep.name);
    lemma_newest(
        node_versions(g),
        |i: int| g[i].id.name == dep.name && g[i].id.source == SourceIdView::Registry(source) && meets(dep.req, g[i].id.version),
        g.len() as int,
    );
    lemma_newest(locked_versions(locked), |i: int| meets(dep.req, locked[i].0), locked.len() as int);
    if let GotView::Entries(es) = got {
        lemma_index_entry(es, dep.req, rustc);
        if let Some(k) = index_entry_at(es, dep.req, rustc) {
            lemma_id_at(
                g,
                PkgIdView { name: dep.name, version: es[k].vers, source: SourceIdView::Registry(source) },
                0,
            );
        }
    }
    if let Some(k) = preferred_at(locked, dep.req) {
        lemma_id_at(
            g,
            PkgIdView { name: dep.name, version: locked[k].0, source: SourceIdView::Registry(source) },
            0,
        );
    }
}

/// A lockfile is used as it is: where it has a version that meets the requirement, and no package in the graph does
/// yet, that version is selected, and the index is not asked.
pub proof fn law_locked_versions_are_used(
    g: Nodes,
    source: Seq<char>,
    dep: DepDeclView,
    f: PrefsView,
    patches: Map<Seq<char>, Vec<DepDecl>>,
    rustc: Option<VersionView>,
    got: GotView,
)
    requires
        dep.source == DepSourceView::Registry(source),
        patch_of(patches, source, dep).is_none(),
        registry_at(g, source, dep.name, dep.req).is_none(),
        preferred_at(preferred(f, source, dep.name), dep.req).is_some(),
    ensures
        ({
            let (h, p) = pick_of(g, dep, f, patches, false, rustc, got);
            let locked = preferred(f, source, dep.name);
            let k = preferred_at(locked, dep.req).unwrap();
            p matches PickView::Use(t) && 0 <= t < h.len() && h[t].id == (PkgIdView {
                name: dep.name,
                version: locked[k].0,
                source: SourceIdView::Registry(source),
            })
        }),
{
    let locked = preferred(f, source, dep.name);
    let k = preferred_at(locked, dep.req).unwrap();
    lemma_id_at(g, PkgIdView { name: dep.name, version: locked[k].0, source: SourceIdView::Registry(source) }, 0);
}

/// An update is about the packages that it names: what the lockfile prefers of the others stays, and of those that
/// are named nothing does.
pub proof fn law_an_update_leaves_other_packages(
    f: PrefsView,
    names: Set<Seq<char>>,
    pkgs: Seq<LockPkgView>,
    source: Seq<char>,
    name: Seq<char>,
)
    ensures
        preferred(forgetting(f, names, pkgs), source, name) == (if names.contains(name) {
            Seq::empty()
        } else {
            preferred(f, source, name)
        }),
{
}

proof fn lemma_exact(es: Seq<IndexEntryView>, v: VersionView, k: int)
    requires
        0 <= k,
    ensures
        exact_from(es, v, k) matches Some(j) ==> k <= j < es.len() && !es[j].yanked && es[j].vers == v,
    decreases es.len() - k,
{
    if k < es.len() {
        lemma_exact(es, v, k + 1);
    }
}

/// A yanked version is never selected, whatever is asked for; and where a version or a requirement is asked for, the
/// selected one is or meets it.
pub proof fn law_yanked_versions_are_not_selected(es: Seq<IndexEntryView>, spec: Option<Seq<char>>)
    ensures
        selected(es, spec) matches Ok(k) ==> {
            &&& 0 <= k < es.len()
            &&& !es[k].yanked
            &&& spec matches Some(s) ==> match version_of(s) {
                Some(v) => es[k].vers == v,
                None => req_of(s) matches Some(q) && meets(q, es[k].vers),
            }
        },
{
    lemma_newest_of(es, None);
    if let Some(s) = spec {
        if let Some(v) = version_of(s) {
            lemma_exact(es, v, 0);
        } else if let Some(q) = req_of(s) {
            lemma_newest_of(es, Some(q));
        }
    }
}

proof fn lemma_newest_of(es: Seq<IndexEntryView>, req: Option<Seq<char>>)
    ensures
        newest_of(es, req) matches Some(k) ==> 0 <= k < es.len() && !es[k].yanked && (req matches Some(q) ==> meets(
            q,
            es[k].vers,
        )),
{
    lemma_newest(
        versions_of(es),
        |i: int| !es[i].yanked && (req matches Some(q) ==> meets(q, es[i].vers)),
        es.len() as int,
    );
}

// ---------------------------------------------------------------------------
// What is read back.

/// A table with one entry put in its place.
spec fn put_at<V>(t: Seq<(Seq<char>, V)>, p: int, key: Seq<char>, v: V) -> Seq<(Seq<char>, V)> {
    if p < t.len() && t[p].0 == key {
        t.update(p, (key, v))
    } else {
        t.insert(p, (key, v))
    }
}

proof fn lemma_first_entry<V>(t: Seq<(Seq<char>, V)>, key: Seq<char>, i: int, p: int)
    requires
        0 <= i <= p < t.len(),
        t[p].0 == key,
        forall|j: int| i <= j < p ==> (#[trigger] t[j]).0 != key,
    ensures
        entry_at(t, key, i) == p,
    decreases p - i,
{
    if i < p {
        assert(t[i].0 != key);
        lemma_first_entry(t, key, i + 1, p);
    }
}

proof fn lemma_entry_bounds<V>(t: Seq<(Seq<char>, V)>, key: Seq<char>, i: int)
    requires
        0 <= i <= t.len(),
    ensures
        i <= entry_at(t, key, i) <= t.len(),
        entry_at(t, key, i) < t.len() ==> t[entry_at(t, key, i)].0 == key,
        forall|j: int| i <= j < entry_at(t, key, i) ==> (#[trigger] t[j]).0 != key,
    decreases t.len() - i,
{
    if i < t.len() && t[i].0 != key {
        lemma_entry_bounds(t, key, i + 1);
    }
}

proof fn lemma_put_at<V>(t: Seq<(Seq<char>, V)>, p: int, key: Seq<char>, v: V, other: Seq<char>)
    requires
        0 <= p <= t.len(),
        forall|j: int| 0 <= j < p ==> (#[trigger] t[j]).0 != key,
    ensures
        at(put_at(t, p, key, v), key) == Some(v),
        other != key ==> at(put_at(t, p, key, v), other) == at(t, other),
{
    reveal(at);
    let u = put_at(t, p, key, v);
    assert forall|j: int| 0 <= j < p implies (#[trigger] u[j]).0 != key by {
        assert(u[j] == t[j]);
    }
    lemma_first_entry(u, key, 0, p);
    if other != key {
        lemma_entry_bounds(t, other, 0);
        lemma_entry_bounds(u, other, 0);
        let a = entry_at(t, other, 0);
        let b = entry_at(u, other, 0);
        let inserted = !(p < t.len() && t[p].0 == key);
        let shift = if inserted { 1int } else { 0 };
        if a < t.len() {
            let a1 = if a >= p { a + shift } else { a };
            assert(u[a1] == t[a]);
            assert forall|j: int| 0 <= j < a1 implies (#[trigger] u[j]).0 != other by {
                if j < p {
                    assert(u[j] == t[j]);
                } else if j > p {
                    assert(u[j] == t[j - shift]);
                }
            }
            lemma_first_entry(u, other, 0, a1);
        } else {
            if b < u.len() {
                if b < p {
                    assert(u[b] == t[b]);
                } else {
                    assert(b != p);
                    assert(u[b] == t[b - shift]);
                }
            }
        }
    }
}

proof fn lemma_key_place(t: Entries, key: Seq<char>, k: int)
    requires
        0 <= k <= t.len(),
        forall|j: int| 0 <= j < k ==> (#[trigger] t[j]).0 != key,
    ensures
        k <= key_place(t, key, k) <= t.len(),
        forall|j: int| 0 <= j < key_place(t, key, k) ==> (#[trigger] t[j]).0 != key,
    decreases t.len() - k,
{
    if k < t.len() && before(t[k].0, key) {
        lemma_before_irreflexive(key);
        lemma_key_place(t, key, k + 1);
    }
}

/// A setting is read back under its key, and the others stay as they were.
pub proof fn law_a_setting_is_read_back(t: Entries, key: Seq<char>, v: TomlTree, other: Seq<char>)
    ensures
        at(with_entry(t, key, v), key) == Some(v),
        other != key ==> at(with_entry(t, key, v), other) == at(t, other),
{
    lemma_key_place(t, key, 0);
    lemma_put_at(t, key_place(t, key, 0), key, v, other);
}

proof fn lemma_dig_first(t: Entries, path: Seq<Seq<char>>)
    requires
        path.len() >= 2,
    ensures
        dig(t, path) == (match at(t, path[0]) {
            Some(TomlTree::Table(s)) => dig(s, path.skip(1)),
            _ => None,
        }),
    decreases path.len(),
{
    let front = path.drop_last();
    let tail = path.skip(1);
    if path.len() == 2 {
        assert(front.len() == 1 && front[0] == path[0]);
        assert(tail.len() == 1 && tail[0] == path.last());
        match at(t, path[0]) {
            Some(v) => {
                assert(dig(t, front) == Some(v));
                assert(dig(t, path) == field(v, path.last()));
            },
            None => {},
        }
    } else {
        lemma_dig_first(t, front);
        assert(front[0] == path[0]);
        assert(front.skip(1) =~= tail.drop_last());
        assert(tail.last() == path.last());
        match at(t, path[0]) {
            Some(TomlTree::Table(s)) => {
                assert(dig(t, front) == dig(s, tail.drop_last()));
            },
            _ => {},
        }
    }
}

/// A setting with a path of keys is read back at the end of the path, whatever was on the way.
pub proof fn law_a_path_is_read_back(t: Entries, path: Seq<Seq<char>>, v: TomlTree)
    requires
        path.len() > 0,
    ensures
        dig(with_path(t, path, v), path) == Some(v),
    decreases path.len(),
{
    let u = with_path(t, path, v);
    if path.len() == 1 {
        law_a_setting_is_read_back(t, path[0], v, path[0]);
    } else {
        let inner = with_path(inner_table(t, path[0]), path.skip(1), v);
        law_a_setting_is_read_back(t, path[0], TomlTree::Table(inner), path[0]);
        lemma_dig_first(u, path);
        law_a_path_is_read_back(inner_table(t, path[0]), path.skip(1), v);
    }
}

proof fn lemma_slot_free(t: ValEntries, key: Seq<char>, k: int)
    requires
        0 <= k <= t.len(),
        forall|j: int| 0 <= j < k ==> (#[trigger] t[j]).0 != key,
    ensures
        k <= slot(t, key, k) <= t.len(),
        forall|j: int| 0 <= j < slot(t, key, k) ==> (#[trigger] t[j]).0 != key,
    decreases t.len() - k,
{
    if k < t.len() && before(t[k].0, key) {
        lemma_before_irreflexive(key);
        lemma_slot_free(t, key, k + 1);
    }
}

proof fn lemma_merged_step(a: ValEntries, b: ValEntries, n: int, other: Seq<char>)
    requires
        0 < n <= b.len(),
        ascending_keys(a),
        ascending_keys(b),
    ensures
        ascending_keys(merged_upto(a, b, n)),
        other != b[n - 1].0 ==> at(merged_upto(a, b, n), other) == at(merged_upto(a, b, n - 1), other),
        at(merged_upto(a, b, n), b[n - 1].0) == Some(over(at(merged_upto(a, b, n - 1), b[n - 1].0), b[n - 1].1)),
    decreases n,
{
    if n > 1 {
        lemma_merged_step(a, b, n - 1, other);
    }
    reveal(at);
    let t = merged_upto(a, b, n - 1);
    let key = b[n - 1].0;
    lemma_slot_free(t, key, 0);
    let i = slot(t, key, 0);
    lemma_slot_ascends(t, key, 0);
    if i < t.len() && t[i].0 == key {
        let v = merged(t[i].1, b[n - 1].1);
        lemma_put_at(t, i, key, v, other);
        lemma_first_entry(t, key, 0, i);
        let u = merged_upto(a, b, n);
        assert(u == put_at(t, i, key, v));
        assert forall|x: int, y: int| 0 <= x < y < u.len() implies before((#[trigger] u[x]).0, (#[trigger] u[y]).0) by {
            assert(u[x].0 == t[x].0 && u[y].0 == t[y].0);
        }
    } else {
        let v = b[n - 1].1;
        lemma_put_at(t, i, key, v, other);
        lemma_entry_bounds(t, key, 0);
        let e = entry_at(t, key, 0);
        if e < t.len() {
            assert(e >= i);
            if e > i {
                assert(before(t[i].0, t[e].0));
                assert(!before(t[i].0, key));
            }
        }
        let u = merged_upto(a, b, n);
        assert(u == put_at(t, i, key, v));
        assert forall|x: int, y: int| 0 <= x < y < u.len() implies before((#[trigger] u[x]).0, (#[trigger] u[y]).0) by {
            let x0 = if x < i { x } else { x - 1 };
            let y0 = if y < i { y } else { y - 1 };
            if x != i && y != i {
                assert(u[x] == t[x0] && u[y] == t[y0]);
            } else if x == i {
                assert(u[y] == t[y0]);
                assert(before(key, t[y0].0));
            } else {
                assert(u[x] == t[x0]);
                assert(before(t[x0].0, key));
            }
        }
    }
}

proof fn lemma_slot_ascends(t: ValEntries, key: Seq<char>, k: int)
    requires
        0 <= k <= t.len(),
        ascending_keys(t),
        forall|j: int| 0 <= j < k ==> before((#[trigger] t[j]).0, key),
    ensures
        forall|j: int| 0 <= j < slot(t, key, k) ==> before((#[trigger] t[j]).0, key),
        slot(t, key, k) < t.len() ==> !before(t[slot(t, key, k)].0, key),
        slot(t, key, k) < t.len() && t[slot(t, key, k)].0 != key ==> forall|j: int|
            slot(t, key, k) <= j < t.len() ==> before(key, (#[trigger] t[j]).0),
    decreases t.len() - k,
{
    if k < t.len() {
        if before(t[k].0, key) {
            lemma_slot_ascends(t, key, k + 1);
        } else if t[k].0 != key {
            crate::order::lemma_before_total(t[k].0, key);
            assert forall|j: int| k <= j < t.len() implies before(key, (#[trigger] t[j]).0) by {
                if j > k {
                    assert(before(t[k].0, t[j].0));
                    crate::order::lemma_before_transitive(key, t[k].0, t[j].0);
                }
            }
        }
    }
}

/// The keys of a table are in order, each once.
pub open spec fn ascending_keys(t: ValEntries) -> bool {
    forall|x: int, y: int| 0 <= x < y < t.len() ==> before((#[trigger] t[x]).0, (#[trigger] t[y]).0)
}

/// A value over what was there, or by itself.
pub open spec fn over(low: Option<ValTree>, high: ValTree) -> ValTree {
    match low {
        Some(x) => merged(x, high),
        None => high,
    }
}

proof fn lemma_merged_upto(a: ValEntries, b: ValEntries, n: int, key: Seq<char>)
    requires
        0 <= n <= b.len(),
        ascending_keys(a),
        ascending_keys(b),
    ensures
        ascending_keys(merged_upto(a, b, n)),
        (forall|j: int| 0 <= j < n ==> (#[trigger] b[j]).0 != key) ==> at(merged_upto(a, b, n), key) == at(a, key),
        forall|m: int| 0 <= m < n && (#[trigger] b[m]).0 == key ==> at(merged_upto(a, b, n), key) == Some(over(at(a, key), b[m].1)),
    decreases n,
{
    if n > 0 {
        lemma_merged_upto(a, b, n - 1, key);
        lemma_merged_step(a, b, n, key);
        if b[n - 1].0 == key {
            assert forall|j: int| 0 <= j < n - 1 implies (#[trigger] b[j]).0 != key by {
                assert(before(b[j].0, b[n - 1].0));
                lemma_before_irreflexive(key);
            }
        }
    }
}

/// Layers are merged key by key: a key that the higher layer does not have keeps its value, and one that it has gets
/// the higher value over the lower one.
pub proof fn law_layers_are_merged_key_by_key(a: ValEntries, b: ValEntries, key: Seq<char>)
    requires
        ascending_keys(a),
        ascending_keys(b),
    ensures
        at(merged_upto(a, b, b.len() as int), key) == (match at(b, key) {
            Some(v) => Some(over(at(a, key), v)),
            None => at(a, key),
        }),
{
    reveal(at);
    lemma_merged_upto(a, b, b.len() as int, key);
    lemma_entry_bounds(b, key, 0);
    let e = entry_at(b, key, 0);
    if e < b.len() {
        assert(b[e].0 == key);
    }
}

// ---------------------------------------------------------------------------
// Keys.

proof fn lemma_args_same(r1: Seq<(Seq<char>, Seq<char>)>, a1: Seq<(Seq<char>, bool)>, r2: Seq<(Seq<char>, Seq<char>)>, a2: Seq<(Seq<char>, bool)>, k: int)
    requires
        a1.len() == a2.len(),
        0 <= k <= a1.len(),
        forall|i: int| 0 <= i < a1.len() ==> (#[trigger] a1[i]).1 == a2[i].1 && normal(r1, a1[i].0) == normal(r2, a2[i].0),
    ensures
        args_data(r1, a1, k) == args_data(r2, a2, k),
    decreases k,
{
    if k > 0 {
        lemma_args_same(r1, a1, r2, a2, k - 1);
        assert(a1[k - 1].1 == a2[k - 1].1);
    }
}

proof fn lemma_env_same(r1: Seq<(Seq<char>, Seq<char>)>, e1: EnvView, r2: Seq<(Seq<char>, Seq<char>)>, e2: EnvView, names: Seq<Seq<char>>, k: int)
    requires
        0 <= k <= names.len(),
        forall|i: int| 0 <= i < names.len() ==> e1[#[trigger] names[i]].1 == e2[names[i]].1 && normal(r1, e1[names[i]].0) == normal(r2, e2[names[i]].0),
    ensures
        env_data(r1, e1, names, k) == env_data(r2, e2, names, k),
    decreases k,
{
    if k > 0 {
        lemma_env_same(r1, e1, r2, e2, names, k - 1);
        assert(e1[names[k - 1]].1 == e2[names[k - 1]].1);
    }
}

/// What is hashed of a call are the normal forms of its texts.
pub(crate) proof fn lemma_same_normal_forms(r1: Seq<(Seq<char>, Seq<char>)>, i1: InvocationView, r2: Seq<(Seq<char>, Seq<char>)>, i2: InvocationView)
    requires
        normal(r1, i1.program) == normal(r2, i2.program),
        normal(r1, i1.cwd) == normal(r2, i2.cwd),
        i1.args.len() == i2.args.len(),
        forall|i: int| 0 <= i < i1.args.len() ==> (#[trigger] i1.args[i]).1 == i2.args[i].1 && normal(r1, i1.args[i].0) == normal(r2, i2.args[i].0),
        i1.env.dom() == i2.env.dom(),
        i1.env.dom().finite(),
        forall|k: Seq<char>| #[trigger] i1.env.contains_key(k) ==> i1.env[k].1 == i2.env[k].1 && normal(r1, i1.env[k].0) == normal(r2, i2.env[k].0),
    ensures
        hashed_data(r1, i1) == hashed_data(r2, i2),
{
    let names = listed(i1.env.dom());
    lemma_listed_finite(i1.env.dom());
    lemma_args_same(r1, i1.args, r2, i2.args, i1.args.len() as int);
    assert forall|i: int| 0 <= i < names.len() implies i1.env[#[trigger] names[i]].1 == i2.env[names[i]].1 && normal(r1, i1.env[names[i]].0) == normal(r2, i2.env[names[i]].0) by {
        assert(names.to_set().contains(names[i]));
        assert(i1.env.contains_key(names[i]));
    }
    lemma_env_same(r1, i1.env, r2, i2.env, names, names.len() as int);
}

proof fn lemma_args_prefix(rules: Seq<(Seq<char>, Seq<char>)>, a: Seq<(Seq<char>, bool)>, b: Seq<(Seq<char>, bool)>, k: int)
    requires
        0 <= k <= a.len() <= b.len(),
        a == b.take(a.len() as int),
    ensures
        args_data(rules, a, k) == args_data(rules, b, k),
    decreases k,
{
    if k > 0 {
        lemma_args_prefix(rules, a, b, k - 1);
        assert(a[k - 1] == b[k - 1]);
    }
}

/// An argument that does not count does not change the key.
pub proof fn law_uncounted_arguments_do_not_matter(rules: Seq<(Seq<char>, Seq<char>)>, inv: InvocationView, a: Seq<char>)
    ensures
        hashed_data(rules, inv.adding(seq![(a, false)])) == hashed_data(rules, inv),
{
    reveal(InvocationView::adding);
    let more = inv.args + seq![(a, false)];
    assert(more.take(inv.args.len() as int) =~= inv.args);
    lemma_args_prefix(rules, inv.args, more, inv.args.len() as int);
    assert(more[inv.args.len() as int] == (a, false));
    assert(args_data(rules, more, more.len() as int) == args_data(rules, more, inv.args.len() as int));
}

/// The names of the variables that count, of the first `k`.
spec fn counted_upto(env: EnvView, names: Seq<Seq<char>>, k: int) -> Seq<Seq<char>>
    decreases k,
{
    if k <= 0 || k > names.len() {
        Seq::empty()
    } else if env[names[k - 1]].1 {
        counted_upto(env, names, k - 1).push(names[k - 1])
    } else {
        counted_upto(env, names, k - 1)
    }
}

proof fn lemma_counted(rules: Seq<(Seq<char>, Seq<char>)>, env: EnvView, names: Seq<Seq<char>>, k: int)
    requires
        0 <= k <= names.len(),
        ascending(names),
    ensures
        ({
            let c = counted_upto(env, names, k);
            &&& ascending(c)
            &&& forall|j: int| 0 <= j < c.len() && k < names.len() ==> before(#[trigger] c[j], names[k])
            &&& forall|x: Seq<char>| #[trigger] c.contains(x) == (env[x].1 && exists|i: int| 0 <= i < k && names[i] == x)
            &&& env_data(rules, env, c, c.len() as int) == env_data(rules, env, names, k)
        }),
    decreases k,
{
    let c = counted_upto(env, names, k);
    if k > 0 {
        lemma_counted(rules, env, names, k - 1);
        let d = counted_upto(env, names, k - 1);
        let x = names[k - 1];
        if env[x].1 {
            assert forall|i: int, j: int| 0 <= i < j < c.len() implies #[trigger] before(c[i], c[j]) by {
                assert(c[i] == d[i]);
                if j < d.len() {
                    assert(c[j] == d[j]);
                    assert(before(d[i], d[j]));
                } else {
                    assert(before(d[i], names[k - 1]));
                }
            }
            assert(c.take(d.len() as int) =~= d);
            lemma_env_prefix(rules, env, d, c, d.len() as int);
            assert(c[d.len() as int] == x);
        }
        assert forall|j: int| 0 <= j < c.len() && k < names.len() implies before(#[trigger] c[j], names[k]) by {
            assert(before(names[k - 1], names[k]));
            if j < d.len() {
                assert(c[j] == d[j]);
                assert(before(d[j], names[k - 1]));
                crate::order::lemma_before_transitive(d[j], names[k - 1], names[k]);
            }
        }
        assert forall|y: Seq<char>| #[trigger] c.contains(y) == (env[y].1 && exists|i: int| 0 <= i < k && names[i] == y) by {
            if c.contains(y) {
                let j = choose|j: int| 0 <= j < c.len() && c[j] == y;
                if j < d.len() {
                    assert(d[j] == y);
                    assert(d.contains(y));
                    let i = choose|i: int| 0 <= i < k - 1 && names[i] == y;
                    assert(names[i] == y);
                } else {
                    assert(names[k - 1] == y);
                }
            }
            if env[y].1 && exists|i: int| 0 <= i < k && names[i] == y {
                let i = choose|i: int| 0 <= i < k && names[i] == y;
                if i < k - 1 {
                    assert(d.contains(y));
                    let j = choose|j: int| 0 <= j < d.len() && d[j] == y;
                    assert(c[j] == y);
                } else {
                    assert(c[d.len() as int] == y);
                }
            }
        }
    } else {
        assert(c =~= Seq::<Seq<char>>::empty());
    }
}

proof fn lemma_env_prefix(rules: Seq<(Seq<char>, Seq<char>)>, env: EnvView, a: Seq<Seq<char>>, b: Seq<Seq<char>>, k: int)
    requires
        0 <= k <= a.len() <= b.len(),
        a == b.take(a.len() as int),
    ensures
        env_data(rules, env, a, k) == env_data(rules, env, b, k),
    decreases k,
{
    if k > 0 {
        lemma_env_prefix(rules, env, a, b, k - 1);
        assert(a[k - 1] == b[k - 1]);
    }
}

/// A variable that does not count does not change the key, unless it takes the place of one that does.
pub proof fn law_uncounted_variables_do_not_matter(rules: Seq<(Seq<char>, Seq<char>)>, inv: InvocationView, k: Seq<char>, v: Seq<char>)
    requires
        inv.env.dom().finite(),
        inv.env.contains_key(k) ==> !inv.env[k].1,
    ensures
        hashed_data(rules, inv.setting(k, v, false)) == hashed_data(rules, inv),
{
    reveal(InvocationView::setting);
    let e1 = inv.env;
    let e2 = inv.env.insert(k, (v, false));
    let n1 = listed(e1.dom());
    let n2 = listed(e2.dom());
    assert(e2.dom() =~= e1.dom().insert(k));
    lemma_listed_finite(e1.dom());
    lemma_listed_finite(e2.dom());
    lemma_counted(rules, e1, n1, n1.len() as int);
    lemma_counted(rules, e2, n2, n2.len() as int);
    let c1 = counted_upto(e1, n1, n1.len() as int);
    let c2 = counted_upto(e2, n2, n2.len() as int);
    assert forall|x: Seq<char>| c1.to_set().contains(x) == c2.to_set().contains(x) by {
        if c1.contains(x) {
            let i = choose|i: int| 0 <= i < n1.len() && n1[i] == x;
            assert(n1.to_set().contains(x));
            assert(e1.contains_key(x));
            assert(x != k);
            assert(n2.to_set().contains(x));
            let j = choose|j: int| 0 <= j < n2.len() && n2[j] == x;
            assert(n2[j] == x);
            assert(c2.contains(x));
        }
        if c2.contains(x) {
            let i = choose|i: int| 0 <= i < n2.len() && n2[i] == x;
            assert(n2.to_set().contains(x));
            assert(x != k);
            assert(e1.contains_key(x));
            assert(n1.to_set().contains(x));
            let j = choose|j: int| 0 <= j < n1.len() && n1[j] == x;
            assert(n1[j] == x);
            assert(c1.contains(x));
        }
    }
    assert(c1.to_set() =~= c2.to_set());
    lemma_ascending_unique(c1, c2);
    assert forall|i: int| 0 <= i < c1.len() implies e1[#[trigger] c1[i]] == e2[c1[i]] by {
        assert(c1.contains(c1[i]));
        let j = choose|j: int| 0 <= j < n1.len() && n1[j] == c1[i];
        assert(n1.to_set().contains(c1[i]));
        assert(e1.contains_key(c1[i]));
    }
    lemma_env_same(rules, e1, rules, e2, c1, c1.len() as int);
}

// ---------------------------------------------------------------------------
// Times.

/// One noisy build does not dominate: what is kept of a unit lies between what it took before and what it took now.
pub proof fn law_an_average_lies_between(m: Map<Seq<char>, u64>, label: Seq<char>, ms: u64)
    requires
        m.contains_key(label),
        m[label] + ms <= u64::MAX,
    ensures
        (m[label] <= ms ==> m[label] <= averaged(m, label, ms) <= ms),
        (ms <= m[label] ==> ms <= averaged(m, label, ms) <= m[label]),
{
}

// ---------------------------------------------------------------------------
// Manifests that are edited.

/// The line ends in a newline, and has no other.
pub open spec fn whole_line(l: Seq<char>) -> bool {
    l.len() > 0 && l[l.len() - 1] == '\n' && forall|i: int| 0 <= i < l.len() - 1 ==> #[trigger] l[i] != '\n'
}

proof fn lemma_join_push(l: Seq<Seq<char>>, x: Seq<char>)
    ensures
        joined(l.push(x), ""@) == joined(l, ""@) + x,
{
    reveal_strlit("");
    let m = l.push(x);
    lemma_join_same(l, m, l.len() as int);
    assert(joined(m, ""@) =~= joined(l, ""@) + x);
}

proof fn lemma_join_same(l: Seq<Seq<char>>, m: Seq<Seq<char>>, n: int)
    requires
        n <= l.len(),
        n <= m.len(),
        forall|i: int| 0 <= i < n ==> l[i] == m[i],
    ensures
        join_upto(l, ""@, n) == join_upto(m, ""@, n),
    decreases n,
{
    if n > 1 {
        lemma_join_same(l, m, n - 1);
    }
}

proof fn lemma_join_concat(a: Seq<Seq<char>>, b: Seq<Seq<char>>)
    ensures
        joined(a + b, ""@) == joined(a, ""@) + joined(b, ""@),
    decreases b.len(),
{
    if b.len() == 0 {
        assert(a + b =~= a);
        assert(joined(b, ""@) =~= Seq::<char>::empty());
        assert(joined(a, ""@) + joined(b, ""@) =~= joined(a, ""@));
    } else {
        let c = b.drop_last();
        let x = b.last();
        lemma_join_concat(a, c);
        assert(b =~= c.push(x));
        assert(a + b =~= (a + c).push(x));
        lemma_join_push(a + c, x);
        lemma_join_push(c, x);
        assert(joined(a + b, ""@) =~= joined(a, ""@) + joined(b, ""@));
    }
}

proof fn lemma_join_cons(x: Seq<char>, l: Seq<Seq<char>>)
    ensures
        joined(seq![x] + l, ""@) == x + joined(l, ""@),
{
    lemma_join_concat(seq![x], l);
    assert(joined(seq![x], ""@) == x);
}

/// Lines that are put together come apart again.
proof fn lemma_lines_of(before: Seq<char>, l: Seq<Seq<char>>)
    requires
        forall|i: int| 0 <= i < l.len() ==> whole_line(#[trigger] l[i]),
    ensures
        full_lines(before + joined(l, ""@), before.len() as int) == l,
    decreases l.len(),
{
    let s = before + joined(l, ""@);
    let from = before.len() as int;
    if l.len() == 0 {
        assert(joined(l, ""@).len() == 0);
        assert(full_lines(s, from) =~= l);
    } else {
        let x = l[0];
        let rest = l.skip(1);
        assert(whole_line(l[0]));
        assert(l =~= seq![x] + rest);
        lemma_join_cons(x, rest);
        assert(s =~= before + x + joined(rest, ""@));
        let to = from + x.len();
        lemma_first_at(s, '\n', from);
        assert(s[to - 1] == x[x.len() - 1]);
        assert forall|i: int| from <= i < to - 1 implies s[i] != '\n' by {
            assert(s[i] == x[i - from]);
        }
        assert(first_at(s, '\n', from) == to - 1);
        assert(s.subrange(from, to) =~= x);
        assert forall|i: int| 0 <= i < rest.len() implies whole_line(#[trigger] rest[i]) by {
            assert(rest[i] == l[i + 1]);
        }
        lemma_lines_of(before + x, rest);
        assert((before + x).len() == to);
        assert(full_lines(s, from) == seq![x] + full_lines(s, to));
    }
}

/// The lines of a text that ends in a newline are whole, and make up the text.
proof fn lemma_lines(s: Seq<char>, from: int)
    requires
        0 <= from <= s.len(),
        s.len() > 0,
        s[s.len() - 1] == '\n',
    ensures
        forall|i: int| 0 <= i < full_lines(s, from).len() ==> whole_line(#[trigger] full_lines(s, from)[i]),
        joined(full_lines(s, from), ""@) == s.skip(from),
    decreases s.len() - from,
{
    if from < s.len() {
        let i = first_at(s, '\n', from);
        lemma_first_at(s, '\n', from);
        assert(i < s.len());
        lemma_lines(s, i + 1);
        let x = s.subrange(from, i + 1);
        let rest = full_lines(s, i + 1);
        let all = full_lines(s, from);
        assert(all == seq![x] + rest);
        assert(whole_line(x));
        assert forall|k: int| 0 <= k < all.len() implies whole_line(#[trigger] all[k]) by {
            if k > 0 {
                assert(all[k] == rest[k - 1]);
            }
        }
        lemma_join_cons(x, rest);
        assert(x + s.skip(i + 1) =~= s.skip(from));
    } else {
        assert(s.skip(from) =~= Seq::<char>::empty());
        assert(joined(full_lines(s, from), ""@) =~= Seq::<char>::empty());
    }
}

proof fn lemma_header_bounds(l: Seq<Seq<char>>, header: Seq<char>, k: int)
    requires
        0 <= k <= l.len(),
    ensures
        k <= header_from(l, header, k) <= l.len(),
    decreases l.len() - k,
{
    if k < l.len() && trimmed(l[k]) != header {
        lemma_header_bounds(l, header, k + 1);
    }
}

proof fn lemma_same_header(l: Seq<Seq<char>>, m: Seq<Seq<char>>, header: Seq<char>, k: int, n: int)
    requires
        0 <= k,
        n <= l.len(),
        n <= m.len(),
        forall|i: int| 0 <= i < n ==> l[i] == m[i],
        header_from(l, header, k) < n,
    ensures
        header_from(m, header, k) == header_from(l, header, k),
    decreases n - k,
{
    if k < l.len() && trimmed(l[k]) != header {
        lemma_header_bounds(l, header, k + 1);
        lemma_same_header(l, m, header, k + 1, n);
    }
}

proof fn lemma_end_bounds(l: Seq<Seq<char>>, k: int)
    requires
        0 <= k <= l.len(),
    ensures
        k <= section_end(l, k) <= l.len(),
        forall|i: int| k <= i < section_end(l, k) ==> !starts(trimmed_start(#[trigger] l[i]), "["@),
        section_end(l, k) < l.len() ==> starts(trimmed_start(l[section_end(l, k)]), "["@),
    decreases l.len() - k,
{
    if k < l.len() && !starts(trimmed_start(l[k]), "["@) {
        lemma_end_bounds(l, k + 1);
    }
}

proof fn lemma_end_at(l: Seq<Seq<char>>, k: int, e: int)
    requires
        0 <= k <= e <= l.len(),
        forall|i: int| k <= i < e ==> !starts(trimmed_start(#[trigger] l[i]), "["@),
        e < l.len() ==> starts(trimmed_start(l[e]), "["@),
    ensures
        section_end(l, k) == e,
    decreases e - k,
{
    if k < e {
        assert(!starts(trimmed_start(l[k]), "["@));
        lemma_end_at(l, k + 1, e);
    }
}

proof fn lemma_key_at(l: Seq<Seq<char>>, m: Seq<Seq<char>>, key: Seq<char>, k: int, e: int)
    requires
        0 <= k <= e,
        e <= l.len(),
        e < m.len(),
        forall|i: int| 0 <= i < e ==> l[i] == m[i],
        key_from(l, key, k, e) >= e,
        sets_key(m[e], key),
    ensures
        key_from(m, key, k, e + 1) == e,
    decreases e - k,
{
    if k < e {
        if !sets_key(l[k], key) {
            lemma_key_at(l, m, key, k + 1, e);
        }
    }
}

/// What was put into a section of a manifest can be taken out again, and the manifest is then what it was. The line is one
/// that sets the key and starts no section.
pub proof fn law_a_dependency_can_be_taken_out_again(text: Seq<char>, section: Seq<char>, key: Seq<char>, line: Seq<char>)
    requires
        ends(text, "\n"@),
        span_of(full_lines(text, 0), section).0 < full_lines(text, 0).len(),
        without_key(text, section, key).is_none(),
        whole_line(ended(line)),
        sets_key(ended(line), key),
        !starts(trimmed_start(ended(line)), "["@),
    ensures
        without_key(with_key(text, section, key, line), section, key) == Some(text),
{
    reveal_strlit("\n");
    let l = full_lines(text, 0);
    let (start, end) = span_of(l, section);
    let x = ended(line);
    assert(text[text.len() - 1] == '\n') by {
        assert(text.subrange(text.len() - 1, text.len() as int)[0] == text[text.len() - 1]);
    }
    lemma_lines(text, 0);
    assert(text.skip(0) =~= text);
    lemma_header_bounds(l, header_of(section), 0);
    lemma_end_bounds(l, start + 1);
    assert(key_from(l, key, start + 1, end) >= end);
    assert(whole_line(l[end - 1]));
    assert(ended(l[end - 1]) == l[end - 1]) by {
        let t = l[end - 1];
        assert(t.subrange(t.len() - 1, t.len() as int) =~= "\n"@);
    }
    assert(l.update(end - 1, ended(l[end - 1])) =~= l);
    let m = l.insert(end, x);
    assert(with_key(text, section, key, line) == joined(m, ""@));
    assert forall|i: int| 0 <= i < m.len() implies whole_line(#[trigger] m[i]) by {
        if i < end {
            assert(m[i] == l[i]);
        } else if i > end {
            assert(m[i] == l[i - 1]);
        }
    }
    lemma_lines_of(Seq::empty(), m);
    assert(Seq::<char>::empty() + joined(m, ""@) =~= joined(m, ""@));
    assert(full_lines(joined(m, ""@), 0) == m);
    lemma_same_header(l, m, header_of(section), 0, end);
    assert forall|i: int| start + 1 <= i < end + 1 implies !starts(trimmed_start(#[trigger] m[i]), "["@) by {
        if i < end {
            assert(m[i] == l[i]);
        }
    }
    lemma_end_at(m, start + 1, end + 1);
    lemma_key_at(l, m, key, start + 1, end);
    assert(m.remove(end) =~= l);
}

/// The lines of a manifest once a line is put in: in place of the one that sets the key, or else at the end of the section.
/// A section that is missing is added behind the rest. No other line changes.
pub open spec fn put_lines(l: Seq<Seq<char>>, section: Seq<char>, key: Seq<char>, x: Seq<char>) -> Seq<Seq<char>> {
    let (start, end) = span_of(l, section);
    let k = key_from(l, key, start + 1, end);
    if start >= l.len() {
        l + (if l.len() > 0 {
            seq!["\n"@]
        } else {
            Seq::empty()
        }) + seq![header_of(section) + "\n"@, x]
    } else if k < end {
        l.update(k, x)
    } else {
        l.insert(end, x)
    }
}

proof fn lemma_header_at(l: Seq<Seq<char>>, header: Seq<char>, k: int, h: int)
    requires
        0 <= k <= h < l.len(),
        forall|i: int| k <= i < h ==> trimmed(#[trigger] l[i]) != header,
        trimmed(l[h]) == header,
    ensures
        header_from(l, header, k) == h,
    decreases h - k,
{
    if k < h {
        assert(trimmed(l[k]) != header);
        lemma_header_at(l, header, k + 1, h);
    }
}

proof fn lemma_no_header(l: Seq<Seq<char>>, header: Seq<char>, k: int)
    requires
        0 <= k <= l.len(),
    ensures
        forall|i: int| k <= i < header_from(l, header, k) ==> trimmed(#[trigger] l[i]) != header,
        header_from(l, header, k) < l.len() ==> trimmed(l[header_from(l, header, k)]) == header,
    decreases l.len() - k,
{
    if k < l.len() && trimmed(l[k]) != header {
        lemma_no_header(l, header, k + 1);
    }
}

proof fn lemma_header_trims(section: Seq<char>)
    ensures
        trimmed(header_of(section) + "\n"@) == header_of(section),
        trimmed("\n"@) != header_of(section),
{
    reveal_strlit("\n");
    reveal_strlit("[");
    reveal_strlit("]");
    let h = header_of(section);
    let s = h + "\n"@;
    let n = s.len() as int;
    assert(s[0] == '[');
    assert(skip_white(s, 0) == 0);
    assert(s[n - 1] == '\n');
    assert(s[n - 2] == ']');
    assert(trim_end_at(s, 0, n - 1) == n - 1);
    assert(trim_end_at(s, 0, n) == n - 1);
    assert(s.subrange(0, n - 1) =~= h);
    let e = "\n"@;
    assert(white(e[0]));
    assert(skip_white(e, 1) == 1);
    assert(skip_white(e, 0) == 1);
    assert(trim_end_at(e, 1, 1) == 1);
    assert(trimmed(e).len() == 0);
}

proof fn lemma_key_bounds(l: Seq<Seq<char>>, key: Seq<char>, k: int, e: int)
    requires
        0 <= k <= e,
    ensures
        k <= key_from(l, key, k, e) <= e,
        forall|i: int| k <= i < key_from(l, key, k, e) ==> !sets_key(#[trigger] l[i], key),
    decreases e - k,
{
    if k < e && !sets_key(l[k], key) {
        lemma_key_bounds(l, key, k + 1, e);
    }
}

proof fn lemma_key_is_at(l: Seq<Seq<char>>, key: Seq<char>, k: int, e: int, m: int)
    requires
        0 <= k <= m < e,
        forall|i: int| k <= i < m ==> !sets_key(#[trigger] l[i], key),
        sets_key(l[m], key),
    ensures
        key_from(l, key, k, e) == m,
    decreases m - k,
{
    if k < m {
        assert(!sets_key(l[k], key));
        lemma_key_is_at(l, key, k + 1, e, m);
    }
}

/// Lines that are put in are found where they were put.
proof fn lemma_put(l: Seq<Seq<char>>, section: Seq<char>, key: Seq<char>, x: Seq<char>) -> (m: int)
    requires
        !section.contains('\n'),
        forall|i: int| 0 <= i < l.len() ==> whole_line(#[trigger] l[i]),
        whole_line(x),
        sets_key(x, key),
        !starts(trimmed_start(x), "["@),
    ensures
        ({
            let r = put_lines(l, section, key, x);
            let (start, end) = span_of(r, section);
            &&& forall|i: int| 0 <= i < r.len() ==> whole_line(#[trigger] r[i])
            &&& 0 <= start < m < end <= r.len()
            &&& key_from(r, key, start + 1, end) == m
            &&& r[m] == x
        }),
{
    reveal_strlit("\n");
    let header = header_of(section);
    let r = put_lines(l, section, key, x);
    let (start, end) = span_of(l, section);
    let k = key_from(l, key, start + 1, end);
    lemma_header_bounds(l, header, 0);
    lemma_no_header(l, header, 0);
    if start >= l.len() {
        lemma_header_trims(section);
        let mid = if l.len() > 0 {
            seq!["\n"@]
        } else {
            Seq::empty()
        };
        let head = header + "\n"@;
        let h = (l.len() + mid.len()) as int;
        assert(r == l + mid + seq![head, x]);
        assert(r.len() == h + 2);
        assert(r[h] == head && r[h + 1] == x);
        assert(whole_line(head)) by {
            reveal_strlit("[");
            reveal_strlit("]");
            assert forall|i: int| 0 <= i < head.len() - 1 implies #[trigger] head[i] != '\n' by {
                if 0 < i < head.len() - 2 {
                    assert(head[i] == section[i - 1]);
                    assert(section.contains(section[i - 1]));
                }
            }
        }
        assert forall|i: int| 0 <= i < r.len() implies whole_line(#[trigger] r[i]) by {
            if i < l.len() {
                assert(r[i] == l[i]);
            }
        }
        assert forall|i: int| 0 <= i < h implies trimmed(#[trigger] r[i]) != header by {
            if i < l.len() {
                assert(r[i] == l[i]);
            } else {
                assert(r[i] == "\n"@);
            }
        }
        lemma_header_at(r, header, 0, h);
        lemma_end_at(r, h + 1, h + 2);
        lemma_key_is_at(r, key, h + 1, h + 2, h + 1);
        h + 1
    } else {
        lemma_end_bounds(l, start + 1);
        lemma_key_bounds(l, key, start + 1, end);
        if k < end {
            assert forall|i: int| 0 <= i < r.len() implies whole_line(#[trigger] r[i]) by {
                if i != k {
                    assert(r[i] == l[i]);
                }
            }
            lemma_same_header(l, r, header, 0, start + 1);
            assert forall|i: int| start + 1 <= i < end implies !starts(trimmed_start(#[trigger] r[i]), "["@) by {
                if i != k {
                    assert(r[i] == l[i]);
                }
            }
            lemma_end_at(r, start + 1, end);
            assert forall|i: int| start + 1 <= i < k implies !sets_key(#[trigger] r[i], key) by {
                assert(r[i] == l[i]);
            }
            lemma_key_is_at(r, key, start + 1, end, k);
            k
        } else {
            assert forall|i: int| 0 <= i < r.len() implies whole_line(#[trigger] r[i]) by {
                if i < end {
                    assert(r[i] == l[i]);
                } else if i > end {
                    assert(r[i] == l[i - 1]);
                }
            }
            lemma_same_header(l, r, header, 0, end);
            assert forall|i: int| start + 1 <= i < end + 1 implies !starts(trimmed_start(#[trigger] r[i]), "["@) by {
                if i < end {
                    assert(r[i] == l[i]);
                }
            }
            lemma_end_at(r, start + 1, end + 1);
            assert forall|i: int| start + 1 <= i < end implies !sets_key(#[trigger] r[i], key) by {
                assert(r[i] == l[i]);
            }
            lemma_key_is_at(r, key, start + 1, end + 1, end);
            end
        }
    }
}

/// The text that `with_key` makes is that of the lines with the new one put in.
proof fn lemma_with_key(text: Seq<char>, section: Seq<char>, key: Seq<char>, line: Seq<char>)
    requires
        text.len() == 0 || ends(text, "\n"@),
    ensures
        with_key(text, section, key, line) == joined(put_lines(full_lines(text, 0), section, key, ended(line)), ""@),
        forall|i: int| 0 <= i < full_lines(text, 0).len() ==> whole_line(#[trigger] full_lines(text, 0)[i]),
{
    reveal_strlit("\n");
    let l = full_lines(text, 0);
    let (start, end) = span_of(l, section);
    let x = ended(line);
    if text.len() > 0 {
        assert(text[text.len() - 1] == '\n') by {
            assert(text.subrange(text.len() - 1, text.len() as int)[0] == text[text.len() - 1]);
        }
        lemma_lines(text, 0);
        assert(text.skip(0) =~= text);
        assert(l.len() > 0);
    } else {
        assert(l.len() == 0);
        assert(joined(l, ""@) =~= text);
    }
    lemma_header_bounds(l, header_of(section), 0);
    if start >= l.len() {
        let head = header_of(section) + "\n"@;
        let mid = if l.len() > 0 {
            seq!["\n"@]
        } else {
            Seq::empty()
        };
        let all = l + mid + seq![head, x];
        lemma_join_concat(l, mid);
        lemma_join_concat(l + mid, seq![head, x]);
        lemma_join_push(Seq::empty(), head);
        lemma_join_push(seq![head], x);
        assert(Seq::<Seq<char>>::empty().push(head) =~= seq![head]);
        assert(seq![head].push(x) =~= seq![head, x]);
        assert(joined(Seq::<Seq<char>>::empty(), ""@) =~= Seq::<char>::empty());
        if l.len() > 0 {
            lemma_join_push(Seq::empty(), "\n"@);
            assert(Seq::<Seq<char>>::empty().push("\n"@) =~= mid);
        }
        assert(joined(all, ""@) =~= with_key(text, section, key, line));
    } else {
        lemma_end_bounds(l, start + 1);
        assert(whole_line(l[end - 1]));
        assert(ended(l[end - 1]) == l[end - 1]) by {
            let t = l[end - 1];
            assert(t.subrange(t.len() - 1, t.len() as int) =~= "\n"@);
        }
        assert(l.update(end - 1, ended(l[end - 1])) =~= l);
    }
}

/// Putting a line in leaves the others: they all stay, in order, but for the one that set the key, which the new line
/// replaces. The line is then in the section, and putting it in again changes nothing.
pub proof fn law_a_dependency_is_put_in_once(text: Seq<char>, section: Seq<char>, key: Seq<char>, line: Seq<char>)
    requires
        text.len() == 0 || ends(text, "\n"@),
        !section.contains('\n'),
        whole_line(ended(line)),
        sets_key(ended(line), key),
        !starts(trimmed_start(ended(line)), "["@),
    ensures
        ({
            let r = with_key(text, section, key, line);
            let l = full_lines(r, 0);
            let (start, end) = span_of(l, section);
            &&& l == put_lines(full_lines(text, 0), section, key, ended(line))
            &&& start < key_from(l, key, start + 1, end) < end <= l.len()
            &&& l[key_from(l, key, start + 1, end)] == ended(line)
            &&& with_key(r, section, key, line) == r
        }),
{
    let x = ended(line);
    let l = full_lines(text, 0);
    lemma_with_key(text, section, key, line);
    let r = put_lines(l, section, key, x);
    let m = lemma_put(l, section, key, x);
    let s = joined(r, ""@);
    lemma_lines_of(Seq::empty(), r);
    assert(Seq::<char>::empty() + s =~= s);
    assert(full_lines(s, 0) == r);
    assert(r.update(m, x) =~= r);
}

} // verus!
