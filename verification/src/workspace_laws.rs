//! Which packages a command is about.

use vstd::prelude::*;
use crate::path::same_place;
use crate::path::under;
use crate::resolve::Nodes;
use crate::resolve::SourceIdView;
use crate::workspace::PickFault;
use crate::workspace::Workspace;
use crate::workspace::members_among;
use crate::workspace::members_but;
use crate::workspace::nodes_named;
use crate::workspace::owner_from;
use crate::workspace::picked;
use crate::workspace::picked_upto;
use crate::workspace::selected;
use crate::workspace::spec_names_node;

verus! {

proof fn lemma_members_but(g: Nodes, members: Seq<usize>, specs: Seq<Seq<char>>, k: int)
    requires
        0 <= k <= members.len(),
    ensures
        forall|i: int|
            0 <= i < k && (forall|j: int| 0 <= j < specs.len() ==> !spec_names_node(#[trigger] specs[j], g[members[i] as int]))
                ==> members_but(g, members, specs, k).contains(#[trigger] members[i]),
        forall|x: usize| #[trigger] members_but(g, members, specs, k).contains(x) ==> (exists|i: int| 0 <= i < k && #[trigger] members[i] == x)
            && forall|j: int| 0 <= j < specs.len() ==> !spec_names_node(#[trigger] specs[j], g[x as int]),
    decreases k,
{
    if k > 0 {
        lemma_members_but(g, members, specs, k - 1);
        let rest = members_but(g, members, specs, k - 1);
        let all = members_but(g, members, specs, k);
        assert forall|i: int|
            0 <= i < k && (forall|j: int| 0 <= j < specs.len() ==> !spec_names_node(#[trigger] specs[j], g[members[i] as int])) implies all.contains(
            #[trigger] members[i],
        ) by {
            if i < k - 1 {
                assert(rest.contains(members[i]));
                let j = choose|j: int| 0 <= j < rest.len() && rest[j] == members[i];
                assert(all[j] == members[i]);
            } else {
                assert(all[rest.len() as int] == members[i]);
            }
        }
        assert forall|x: usize| #[trigger] all.contains(x) implies (exists|i: int| 0 <= i < k && #[trigger] members[i] == x) && forall|j: int|
            0 <= j < specs.len() ==> !spec_names_node(#[trigger] specs[j], g[x as int]) by {
            let j = choose|j: int| 0 <= j < all.len() && all[j] == x;
            if j < rest.len() {
                assert(rest[j] == x);
                assert(rest.contains(x));
                let i = choose|i: int| 0 <= i < k - 1 && #[trigger] members[i] == x;
                assert(members[i] == x);
            } else {
                assert(members[k - 1] == x);
            }
        }
    }
}

/// `--workspace` is every member, but for those that are excluded.
pub proof fn law_the_workspace_is_every_member_that_is_not_excluded(ws: Workspace, packages: Seq<Seq<char>>, exclude: Seq<Seq<char>>)
    ensures
        selected(ws, packages, true, exclude) matches Ok(l) ==> {
            &&& forall|i: int|
                0 <= i < ws.members@.len() && (forall|j: int|
                    0 <= j < exclude.len() ==> !spec_names_node(#[trigger] exclude[j], ws.graph@[ws.members@[i] as int])) ==> l.contains(
                    #[trigger] ws.members@[i],
                )
            &&& forall|x: usize| #[trigger] l.contains(x) ==> (exists|i: int| 0 <= i < ws.members@.len() && #[trigger] ws.members@[i] == x)
                && forall|j: int| 0 <= j < exclude.len() ==> !spec_names_node(#[trigger] exclude[j], ws.graph@[x as int])
        },
        exclude.len() == 0 ==> selected(ws, packages, true, exclude).is_ok(),
{
    lemma_members_but(ws.graph@, ws.members@, exclude, ws.members@.len() as int);
}

proof fn lemma_nodes_named(g: Nodes, spec: Seq<char>, k: int)
    requires
        0 <= k <= g.len() <= usize::MAX,
    ensures
        forall|n: int| 0 <= n < k && spec_names_node(spec, #[trigger] g[n]) ==> nodes_named(g, spec, k).contains(n as usize),
        forall|j: int| 0 <= j < nodes_named(g, spec, k).len() ==> (#[trigger] nodes_named(g, spec, k)[j])
            < k && spec_names_node(spec, g[nodes_named(g, spec, k)[j] as int]),
    decreases k,
{
    if k > 0 {
        lemma_nodes_named(g, spec, k - 1);
        let rest = nodes_named(g, spec, k - 1);
        let all = nodes_named(g, spec, k);
        assert forall|n: int| 0 <= n < k && spec_names_node(spec, #[trigger] g[n]) implies all.contains(n as usize) by {
            if n < k - 1 {
                let j = choose|j: int| 0 <= j < rest.len() && rest[j] == n as usize;
                assert(all[j] == n as usize);
            } else {
                assert(all[rest.len() as int] == n as usize);
            }
        }
    }
}

proof fn lemma_members_among(g: Nodes, l: Seq<usize>, k: int)
    requires
        0 <= k <= l.len(),
    ensures
        forall|j: int| 0 <= j < members_among(g, l, k).len() ==> l.contains(
            #[trigger] members_among(g, l, k)[j],
        ) && g[members_among(g, l, k)[j] as int].is_member,
    decreases k,
{
    if k > 0 {
        lemma_members_among(g, l, k - 1);
        assert(l.contains(l[k - 1]));
    }
}

/// `-p` is about the packages that the specs name, one for each. A spec that names none, or several of which not one alone is a
/// member, is refused.
pub proof fn law_named_packages_are_selected(ws: Workspace, packages: Seq<Seq<char>>, exclude: Seq<Seq<char>>, k: int)
    requires
        0 <= k < packages.len(),
        ws.graph@.len() <= usize::MAX,
    ensures
        selected(ws, packages, false, exclude) matches Ok(l) ==> l.len() == packages.len() && forall|i: int|
            0 <= i < l.len() ==> is_pick(ws.graph@, packages[i], #[trigger] l[i]),
        (forall|n: int| 0 <= n < ws.graph@.len() ==> !spec_names_node(packages[k], #[trigger] ws.graph@[n])) ==> selected(
            ws,
            packages,
            false,
            exclude,
        ).is_err(),
{
    lemma_picked(ws.graph@, packages, packages.len() as int);
    assert((forall|n: int| 0 <= n < ws.graph@.len() ==> !spec_names_node(packages[k], #[trigger] ws.graph@[n])) ==> none_named(
        ws.graph@,
        packages[k],
    ));
}

/// The package is one that the spec names.
pub open spec fn is_pick(g: Nodes, spec: Seq<char>, x: usize) -> bool {
    x < g.len() && spec_names_node(spec, g[x as int])
}

spec fn none_named(g: Nodes, spec: Seq<char>) -> bool {
    forall|n: int| 0 <= n < g.len() ==> !spec_names_node(spec, #[trigger] g[n])
}

proof fn lemma_picked(g: Nodes, specs: Seq<Seq<char>>, k: int)
    requires
        0 <= k <= specs.len(),
        g.len() <= usize::MAX,
    ensures
        picked_upto(g, specs, k) matches Ok(l) ==> l.len() == k && forall|i: int|
            0 <= i < k ==> is_pick(g, specs[i], #[trigger] l[i]),
        forall|i: int|
            0 <= i < k && none_named(g, #[trigger] specs[i]) ==> picked_upto(
                g,
                specs,
                k,
            ).is_err(),
    decreases k,
{
    if k > 0 {
        lemma_picked(g, specs, k - 1);
        let found = nodes_named(g, specs[k - 1], g.len() as int);
        lemma_nodes_named(g, specs[k - 1], g.len() as int);
        lemma_members_among(g, found, found.len() as int);
        let ms = members_among(g, found, found.len() as int);
        if found.len() == 1 {
            assert(found[0] < g.len() && spec_names_node(specs[k - 1], g[found[0] as int]));
        }
        if ms.len() == 1 {
            assert(found.contains(ms[0]));
            let j = choose|j: int| 0 <= j < found.len() && found[j] == ms[0];
            assert(found[j] < g.len() && spec_names_node(specs[k - 1], g[found[j] as int]));
        }
        if let Ok(l) = picked_upto(g, specs, k) {
            let rest = picked_upto(g, specs, k - 1)->Ok_0;
            assert forall|i: int| 0 <= i < k implies is_pick(g, specs[i], #[trigger] l[i]) by {
                if i < k - 1 {
                    assert(l[i] == rest[i]);
                } else {
                    assert(l[i] == picked(g, specs[k - 1])->Ok_0);
                }
            }
        }
        assert forall|i: int|
            0 <= i < k && none_named(g, #[trigger] specs[i]) implies picked_upto(
            g,
            specs,
            k,
        ).is_err() by {
            if i == k - 1 {
                assert(found.len() == 0) by {
                    if found.len() > 0 {
                        assert(spec_names_node(specs[k - 1], g[found[0] as int]));
                    }
                }
            }
        }
    }
}

/// Without either, a command in the directory of a member is about that member, and one at the root about the default members.
pub proof fn law_a_command_is_about_the_package_at_hand(ws: Workspace, exclude: Seq<Seq<char>>, k: int)
    ensures
        same_place(ws.current_manifest@, ws.root_manifest_path@) ==> selected(ws, Seq::empty(), false, exclude) == Ok::<Seq<usize>, PickFault>(
            ws.default_members@,
        ),
        !same_place(ws.current_manifest@, ws.root_manifest_path@) && 0 <= k < ws.members@.len() && (ws.graph@[ws.members@[k] as int].id.source
            matches SourceIdView::Path(p) && same_place(under(p, "Cargo.toml"@), ws.current_manifest@)) ==> (selected(
            ws,
            Seq::empty(),
            false,
            exclude,
        ) matches Ok(l) && l.len() == 1 && (ws.graph@[l[0] as int].id.source matches SourceIdView::Path(q) && same_place(
            under(q, "Cargo.toml"@),
            ws.current_manifest@,
        ))),
{
    lemma_owner(ws.graph@, ws.members@, ws.current_manifest@, 0, k);
}

proof fn lemma_owner(g: Nodes, members: Seq<usize>, manifest: Seq<char>, i: int, k: int)
    requires
        0 <= i <= members.len(),
    ensures
        owner_from(g, members, manifest, i) matches Some(x) ==> (g[x as int].id.source matches SourceIdView::Path(q) && same_place(
            under(q, "Cargo.toml"@),
            manifest,
        )),
        i <= k < members.len() && (g[members[k] as int].id.source matches SourceIdView::Path(p) && same_place(
            under(p, "Cargo.toml"@),
            manifest,
        )) ==> owner_from(g, members, manifest, i).is_some(),
    decreases members.len() - i,
{
    if i < members.len() {
        lemma_owner(g, members, manifest, i + 1, k);
    }
}

} // verus!
