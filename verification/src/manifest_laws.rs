//! What a manifest declares: its dependencies, its features and its targets.

use vstd::prelude::*;
use crate::cfgexpr::PlatformTree;
use crate::manifest::CRATES_IO;
use crate::manifest::DepDeclView;
use crate::manifest::DepKind;
use crate::manifest::DepSourceView;
use crate::manifest::Entries;
use crate::manifest::FeatureMap;
use crate::manifest::ManifestFault;
use crate::manifest::PlaceView;
use crate::manifest::Registries;
use crate::manifest::ScopeView;
use crate::manifest::Section;
use crate::manifest::SpotView;
use crate::manifest::TargetKind;
use crate::manifest::TargetView;
use crate::manifest::WsView;
use crate::manifest::declared_in;
use crate::manifest::dep_of;
use crate::manifest::deps_of;
use crate::manifest::either;
use crate::manifest::entry_deps;
use crate::manifest::found_of;
use crate::manifest::found_upto;
use crate::manifest::kinds_deps;
use crate::manifest::kinds_upto;
use crate::manifest::lib_of;
use crate::manifest::named;
use crate::manifest::no_entries;
use crate::manifest::optional_called;
use crate::manifest::script_of;
use crate::manifest::section_of;
use crate::manifest::sourced;
use crate::manifest::table_deps;
use crate::manifest::targets_of;
use crate::manifest::texts;
use crate::manifest::with_implicit;
use crate::path::under;
use crate::text::trimmed;
use crate::value::TomlTree;
use crate::value::at;
use crate::value::strings_upto;
use crate::version::req_of;

verus! {

/// What features call a dependency.
pub open spec fn name_of(d: DepDeclView) -> Seq<char> {
    if d.rename.is_some() {
        d.rename.unwrap()
    } else {
        d.name
    }
}

/// The declaration is what the table says of the dependency, and else the usual: any version of crates.io, always there, with
/// its default features and no others.
pub open spec fn is_declared(d: DepDeclView, key: Seq<char>, t: Entries) -> bool {
    &&& name_of(d) == key
    &&& match at(t, "package"@) {
        Some(TomlTree::Str(p)) => d.name == p,
        _ => d.name == key,
    }
    &&& match at(t, "version"@) {
        Some(TomlTree::Str(v)) => req_of(trimmed(v)) == Some(d.req),
        _ => d.req == "*"@,
    }
    &&& match at(t, "optional"@) {
        Some(TomlTree::Bool(b)) => d.optional == b,
        _ => !d.optional,
    }
    &&& match at(t, "default-features"@) {
        Some(TomlTree::Bool(b)) => d.default_features == b,
        Some(_) => true,
        None => at(t, "default_features"@).is_none() ==> d.default_features,
    }
    &&& match at(t, "features"@) {
        Some(TomlTree::Array(l)) => forall|i: int|
            0 <= i < l.len() && (#[trigger] l[i]) is Str ==> d.features.contains(l[i]->Str_0),
        _ => d.features.len() == 0,
    }
    &&& match (at(t, "path"@), at(t, "git"@)) {
        (Some(TomlTree::Str(_)), _) => d.source is Path,
        (_, Some(TomlTree::Str(_))) => d.source is Git,
        _ => d.source is Registry,
    }
    &&& at(t, "path"@).is_none() && at(t, "git"@).is_none() && at(t, "registry"@).is_none() && at(t, "registry-index"@).is_none()
        ==> d.source == DepSourceView::Registry(CRATES_IO@)
}

proof fn lemma_texts(l: Seq<TomlTree>, n: int, i: int)
    requires
        0 <= i < n <= l.len(),
        l[i] is Str,
    ensures
        strings_upto(l, n).contains(l[i]->Str_0),
    decreases n,
{
    let rest = strings_upto(l, n - 1);
    let all = strings_upto(l, n);
    if i == n - 1 {
        assert(all[rest.len() as int] == l[i]->Str_0);
    } else {
        lemma_texts(l, n - 1, i);
        let j = choose|j: int| 0 <= j < rest.len() && rest[j] == l[i]->Str_0;
        assert(all[j] == rest[j]);
    }
}

/// A dependency is what its entry says: of the kind and for the platform of the table that it stands in, with the version,
/// source and features that are given, and the usual where nothing is.
pub proof fn law_dependencies_are_what_their_entries_say(
    key: Seq<char>,
    v: TomlTree,
    kind: DepKind,
    platform: Option<PlatformTree>,
    root: Seq<char>,
    regs: Registries,
)
    ensures
        dep_of(key, v, kind, platform, root, None, regs) matches Ok(d) ==> {
            &&& d.kind == kind && d.platform == platform && name_of(d) == key
            &&& v matches TomlTree::Table(t) ==> is_declared(d, key, t)
            &&& v matches TomlTree::Str(s) ==> d.name == key && req_of(trimmed(s)) == Some(d.req) && !d.optional && d.default_features
                && d.features.len() == 0 && d.source == DepSourceView::Registry(CRATES_IO@)
            &&& v is Table || v is Str
        },
{
    if let TomlTree::Table(t) = v {
        if let Some(TomlTree::Array(l)) = at(t, "features"@) {
            assert forall|i: int| 0 <= i < l.len() && (#[trigger] l[i]) is Str implies texts(at(t, "features"@)).contains(
                l[i]->Str_0,
            ) by {
                lemma_texts(l, l.len() as int, i);
            }
        }
    }
}

/// A dependency that is inherited is what the workspace declares under its key: with the features of both, and optional only
/// where the package says so. Without such a declaration it is refused.
pub proof fn law_inherited_dependencies_are_those_of_the_workspace(
    key: Seq<char>,
    t: Entries,
    kind: DepKind,
    platform: Option<PlatformTree>,
    root: Seq<char>,
    ws: WsView,
    regs: Registries,
    base: TomlTree,
)
    requires
        at(t, "workspace"@) == Some(TomlTree::Bool(true)),
    ensures
        ({
            let r = dep_of(key, TomlTree::Table(t), kind, platform, root, Some(ws), regs);
            let shared = match at(ws.1, "dependencies"@) {
                Some(TomlTree::Table(d)) => at(d, key),
                _ => None,
            };
            &&& shared.is_none() ==> r == Err::<DepDeclView, ManifestFault>(ManifestFault::NotShared(key))
            &&& shared == Some(base) ==> match (r, dep_of(key, base, kind, platform, ws.0, None, regs)) {
                (Ok(d), Ok(b)) => {
                    &&& d.name == b.name && d.rename == b.rename && d.req == b.req && d.source == b.source && d.default_features
                        == b.default_features && d.kind == kind && d.platform == platform
                    &&& forall|f: Seq<char>| #[trigger] b.features.contains(f) ==> d.features.contains(f)
                    &&& at(t, "optional"@) == Some(TomlTree::Bool(true)) ==> d.optional
                    &&& at(t, "optional"@).is_none() ==> !d.optional
                },
                (Err(_), Err(_)) => true,
                _ => false,
            }
        }),
{
    let r = dep_of(key, TomlTree::Table(t), kind, platform, root, Some(ws), regs);
    if let Ok(b) = dep_of(key, base, kind, platform, ws.0, None, regs) {
        if let Ok(d) = r {
            let more = texts(at(t, "features"@));
            assert forall|f: Seq<char>| #[trigger] b.features.contains(f) implies (b.features + more).contains(f) by {
                let i = choose|i: int| 0 <= i < b.features.len() && b.features[i] == f;
                assert((b.features + more)[i] == f);
            }
        }
    }
}

/// One of the declarations is for the key, of that kind, for every platform.
pub open spec fn declares(l: Seq<DepDeclView>, key: Seq<char>, kind: DepKind) -> bool {
    exists|j: int| 0 <= j < l.len() && name_of(#[trigger] l[j]) == key && l[j].kind == kind && l[j].platform.is_none()
}

proof fn lemma_entry(t: Entries, kind: DepKind, sc: ScopeView, n: int, i: int)
    requires
        0 <= i < n <= t.len(),
        entry_deps(t, kind, None, sc, n).is_ok(),
    ensures
        entry_deps(t, kind, None, sc, n)->Ok_0.len() == n,
        ({
            let d = entry_deps(t, kind, None, sc, n)->Ok_0[i];
            name_of(d) == t[i].0 && d.kind == kind && d.platform.is_none()
        }),
    decreases n,
{
    let l = entry_deps(t, kind, None, sc, n - 1)->Ok_0;
    assert(entry_deps(t, kind, None, sc, n - 1).is_ok());
    let all = entry_deps(t, kind, None, sc, n)->Ok_0;
    if n - 1 > 0 {
        lemma_entry(t, kind, sc, n - 1, if i < n - 1 {
            i
        } else {
            0
        });
    }
    assert(l.len() == n - 1);
    if i < n - 1 {
        assert(all[i] == l[i]);
    } else {
        assert(all[i] == dep_of(t[n - 1].0, t[n - 1].1, kind, None, sc.root, sc.ws, sc.regs)->Ok_0);
    }
}

/// Every entry of a table of dependencies is a dependency of the kind of the table: of the package itself, of its tests, or of
/// its build script.
pub proof fn law_every_entry_is_a_dependency_of_its_kind(m: Entries, sc: ScopeView, t: Entries, i: int)
    requires
        0 <= i < t.len(),
        deps_of(m, sc).is_ok(),
    ensures
        ({
            let l = deps_of(m, sc)->Ok_0;
            &&& at(m, "dependencies"@) == Some(TomlTree::Table(t)) ==> declares(l, t[i].0, DepKind::Normal)
            &&& at(m, "dev-dependencies"@) == Some(TomlTree::Table(t)) ==> declares(l, t[i].0, DepKind::Dev)
            &&& at(m, "build-dependencies"@) == Some(TomlTree::Table(t)) ==> declares(l, t[i].0, DepKind::Build)
        }),
{
    let l = deps_of(m, sc)->Ok_0;
    let k = kinds_deps(m, None, sc);
    assert(k.is_ok());
    let a = table_deps(at(m, "dependencies"@), DepKind::Normal, None, sc);
    let b = table_deps(either(m, "dev-dependencies"@, "dev_dependencies"@), DepKind::Dev, None, sc);
    let c = table_deps(either(m, "build-dependencies"@, "build_dependencies"@), DepKind::Build, None, sc);
    assert(a.is_ok() && b.is_ok() && c.is_ok());
    assert(k->Ok_0 == a->Ok_0 + b->Ok_0 + c->Ok_0);
    if at(m, "dependencies"@) == Some(TomlTree::Table(t)) {
        lemma_entry(t, DepKind::Normal, sc, t.len() as int, i);
        assert(l[i] == a->Ok_0[i]);
    }
    if at(m, "dev-dependencies"@) == Some(TomlTree::Table(t)) {
        lemma_entry(t, DepKind::Dev, sc, t.len() as int, i);
        assert(l[a->Ok_0.len() + i] == b->Ok_0[i]);
    }
    if at(m, "build-dependencies"@) == Some(TomlTree::Table(t)) {
        lemma_entry(t, DepKind::Build, sc, t.len() as int, i);
        assert(l[a->Ok_0.len() + b->Ok_0.len() + i] == c->Ok_0[i]);
    }
}

/// An optional dependency is a feature of its own name, unless a feature has that name or mentions the dependency as such.
/// Features that are declared stay as they are, and there are no others.
pub proof fn law_optional_dependencies_are_features(m: FeatureMap, deps: Seq<DepDeclView>, i: int, f: Seq<char>)
    ensures
        m.contains_key(f) ==> with_implicit(m, deps).contains_key(f) && with_implicit(m, deps)[f] == m[f],
        0 <= i < deps.len() && deps[i].optional && !m.contains_key(name_of(deps[i])) && (forall|g: Seq<char>, j: int|
            #![trigger m[g][j]]
            m.contains_key(g) && 0 <= j < m[g].len() ==> m[g][j] != "dep:"@ + name_of(deps[i])) ==> with_implicit(m, deps).contains_key(
            name_of(deps[i]),
        ) && with_implicit(m, deps)[name_of(deps[i])] == seq!["dep:"@ + name_of(deps[i])],
        with_implicit(m, deps).contains_key(f) && !m.contains_key(f) ==> (exists|k: int|
            0 <= k < deps.len() && (#[trigger] deps[k]).optional && name_of(deps[k]) == f),
{
    assert forall|k: int| 0 <= k < deps.len() implies (#[trigger] deps[k]).called() == name_of(deps[k]) by {}
    if 0 <= i < deps.len() && deps[i].optional {
        assert(deps[i].called() == name_of(deps[i]));
        assert(optional_called(deps, name_of(deps[i])));
    }
}

// ---------------------------------------------------------------------------
// Targets.

/// A target of that kind and name is built from that file.
pub open spec fn has_target(ts: Seq<TargetView>, kind: TargetKind, name: Seq<char>, src: Seq<char>) -> bool {
    exists|i: int| 0 <= i < ts.len() && (#[trigger] ts[i]).kind == kind && ts[i].name == name && ts[i].src_path == src
}

proof fn lemma_found_keep(
    found: Seq<SpotView>,
    ts: Seq<TargetView>,
    declared: Seq<TargetView>,
    s: Section,
    edition: Seq<char>,
    n: int,
)
    ensures
        ts.len() <= found_upto(found, ts, declared, s, edition, n).len(),
        forall|i: int| 0 <= i < ts.len() ==> found_upto(found, ts, declared, s, edition, n)[i] == #[trigger] ts[i],
    decreases n,
{
    if 0 < n <= found.len() {
        lemma_found_keep(found, ts, declared, s, edition, n - 1);
    }
}

proof fn lemma_kinds_keep(m: Entries, pkg: Entries, p: PlaceView, a: int, b: int)
    requires
        0 <= a <= b,
        kinds_upto(m, pkg, p, b).is_ok(),
    ensures
        kinds_upto(m, pkg, p, a).is_ok(),
        kinds_upto(m, pkg, p, a)->Ok_0.len() <= kinds_upto(m, pkg, p, b)->Ok_0.len(),
        forall|i: int| 0 <= i < kinds_upto(m, pkg, p, a)->Ok_0.len() ==> kinds_upto(m, pkg, p, b)->Ok_0[i] == #[trigger] kinds_upto(
            m,
            pkg,
            p,
            a,
        )->Ok_0[i],
    decreases b - a,
{
    if a < b {
        assert(kinds_upto(m, pkg, p, b - 1).is_ok());
        lemma_kinds_keep(m, pkg, p, a, b - 1);
        let ts = kinds_upto(m, pkg, p, b - 1)->Ok_0;
        let s = section_of(b - 1);
        let d = declared_in(at(m, s.key@), s, p)->Ok_0;
        let f = found_of(pkg, s, p);
        lemma_found_keep(f, ts + d, d, s, p.edition, f.len() as int);
        let all = kinds_upto(m, pkg, p, b)->Ok_0;
        assert forall|i: int| 0 <= i < kinds_upto(m, pkg, p, a)->Ok_0.len() implies all[i] == #[trigger] kinds_upto(m, pkg, p, a)->Ok_0[i] by {
            assert(ts[i] == kinds_upto(m, pkg, p, a)->Ok_0[i]);
            assert((ts + d)[i] == ts[i]);
        }
    }
}

/// Where the usual files are there, the targets are: `src/lib.rs` is a library called like the package, `src/main.rs` a binary
/// called like it, and `build.rs` its build script.
pub proof fn law_usual_files_are_targets(m: Entries, pkg: Entries, p: PlaceView)
    requires
        targets_of(m, pkg, p).is_ok(),
    ensures
        ({
            let ts = targets_of(m, pkg, p)->Ok_0;
            &&& at(m, "lib"@).is_none() && at(pkg, "autolib"@).is_none() && p.files.contains(under(p.root, "src/lib.rs"@)) ==> exists|
                i: int,
            |
                0 <= i < ts.len() && (#[trigger] ts[i]).kind == TargetKind::Lib && ts[i].src_path == under(p.root, "src/lib.rs"@)
                    && ts[i].name.len() == p.name.len() && (forall|k: int|
                    0 <= k < p.name.len() ==> #[trigger] ts[i].name[k] == if p.name[k] == '-' {
                        '_'
                    } else {
                        p.name[k]
                    }) && ts[i].crate_types == seq!["lib"@] && ts[i].edition == p.edition && ts[i].test && ts[i].doc && ts[i].doctest
            &&& at(m, "bin"@).is_none() && at(pkg, "autobins"@).is_none() && p.files.contains(under(p.root, "src/main.rs"@))
                ==> has_target(ts, TargetKind::Bin, p.name, under(p.root, "src/main.rs"@))
            &&& at(pkg, "build"@).is_none() && p.files.contains(under(p.root, "build.rs"@)) ==> exists|i: int|
                0 <= i < ts.len() && (#[trigger] ts[i]).kind == TargetKind::BuildScript && ts[i].src_path == under(p.root, "build.rs"@)
            &&& at(pkg, "build"@) == Some(TomlTree::Bool(false)) ==> forall|i: int|
                kinds_upto(m, pkg, p, 4)->Ok_0.len() <= i < ts.len() ==> (#[trigger] ts[i]).kind != TargetKind::BuildScript
        }),
{
    let ts = targets_of(m, pkg, p)->Ok_0;
    let four = kinds_upto(m, pkg, p, 4)->Ok_0;
    let script = script_of(pkg, p);
    assert(kinds_upto(m, pkg, p, 4).is_ok());
    assert(ts == four + script);
    lemma_kinds_keep(m, pkg, p, 0, 4);
    lemma_kinds_keep(m, pkg, p, 1, 4);
    let lib = lib_of(m, pkg, p);
    assert(kinds_upto(m, pkg, p, 0) == Ok::<Seq<TargetView>, ManifestFault>(lib));
    if at(m, "lib"@).is_none() && at(pkg, "autolib"@).is_none() && p.files.contains(under(p.root, "src/lib.rs"@)) {
        lemma_no_entries();
        assert(lib.len() == 1);
        assert(ts[0] == lib[0]);
        assert(lib[0].crate_types =~= seq!["lib"@]);
    }
    if at(m, "bin"@).is_none() && at(pkg, "autobins"@).is_none() && p.files.contains(under(p.root, "src/main.rs"@)) {
        lemma_no_entries();
        let s = section_of(0);
        let found = found_of(pkg, s, p);
        let one = kinds_upto(m, pkg, p, 1)->Ok_0;
        assert(declared_in(at(m, s.key@), s, p) == Ok::<Seq<TargetView>, ManifestFault>(Seq::empty()));
        assert(lib + Seq::<TargetView>::empty() =~= lib);
        assert(one == found_upto(found, lib, Seq::empty(), s, p.edition, found.len() as int));
        assert(found[0] == (p.name, under(p.root, "src/main.rs"@)));
        let none = Seq::<TargetView>::empty();
        assert(!named(none, p.name));
        assert(!sourced(lib, TargetKind::Bin, found[0].1));
        let first = found_upto(found, lib, none, s, p.edition, 1);
        assert(found_upto(found, lib, none, s, p.edition, 0) == lib);
        assert(first.len() == lib.len() + 1);
        lemma_found_grows(found, lib, none, s, p.edition, 1, found.len() as int);
        let i = lib.len() as int;
        assert(first[i].kind == TargetKind::Bin && first[i].name == p.name && first[i].src_path == found[0].1);
        assert(one[i] == first[i]);
        assert(four[i] == one[i]);
        assert(ts[i] == four[i]);
    }
    if at(pkg, "build"@).is_none() && p.files.contains(under(p.root, "build.rs"@)) {
        assert(script.len() == 1);
        assert(ts[four.len() as int] == script[0]);
    }
}

proof fn lemma_found_grows(
    found: Seq<SpotView>,
    ts: Seq<TargetView>,
    declared: Seq<TargetView>,
    s: Section,
    edition: Seq<char>,
    a: int,
    n: int,
)
    requires
        0 <= a <= n,
    ensures
        found_upto(found, ts, declared, s, edition, a).len() <= found_upto(
            found,
            ts,
            declared,
            s,
            edition,
            n,
        ).len() || n > found.len(),
        n <= found.len() ==> forall|i: int| 0 <= i < found_upto(found, ts, declared, s, edition, a).len()
            ==> found_upto(found, ts, declared, s, edition, n)[i] == #[trigger] found_upto(
            found,
            ts,
            declared,
            s,
            edition,
            a,
        )[i],
    decreases n - a,
{
    if a < n <= found.len() {
        lemma_found_grows(found, ts, declared, s, edition, a, n - 1);
    }
}

proof fn lemma_no_entries()
    ensures
        forall|k: Seq<char>| (#[trigger] at(no_entries(), k)).is_none(),
{
    reveal(at);
}

} // verus!
