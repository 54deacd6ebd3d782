//! What an index says of a package, and how the package is had.

use vstd::prelude::*;
use crate::json::json_of;
use crate::json::member;
use crate::json::text_in;
use crate::manifest::DepDeclView;
use crate::path::under;
use crate::registry::Download;
use crate::registry::IndexEntryView;
use crate::registry::KnownView;
use crate::registry::NextView;
use crate::registry::RawDepView;
use crate::registry::RawEntryView;
use crate::registry::RegistryView;
use crate::registry::cut;
use crate::registry::dir_name;
use crate::registry::entry_of;
use crate::registry::exact_from;
use crate::registry::has_marker;
use crate::registry::index_deps_upto;
use crate::registry::newest_of;
use crate::registry::next_of;
use crate::registry::outcome_of;
use crate::registry::place_of;
use crate::registry::selected;
use crate::registry::url_of;
use crate::registry::versions_of;
use crate::resolve::without_slashes;
use crate::text::ascii_lower;
use crate::version::VersionView;
use crate::version::meets;
use crate::version::newest_upto;
use crate::version::req_of;
use crate::version::version_of;
use crate::version::version_text;


verus! {

/// A dependency is what its record in the index declares. `package` is its name where the record is about a rename.
pub open spec fn declares(d: RawDepView, x: DepDeclView, source: Seq<char>) -> bool {
    &&& x.optional == d.optional
    &&& x.default_features == d.default_features
    &&& x.features == d.features
    &&& (d.package matches Some(p) ==> x.name == p && x.rename == Some(d.name))
    &&& (d.package.is_none() ==> x.name == d.name && x.rename.is_none())
    &&& (d.registry.is_none() ==> x.source == crate::manifest::DepSourceView::Registry(source))
    &&& (x.kind == crate::manifest::DepKind::Dev <==> d.kind == Some("dev"@))
    &&& (x.kind == crate::manifest::DepKind::Build <==> d.kind == Some("build"@))
    &&& x.platform.is_some() == d.target.is_some()
    &&& Some(x.req) == req_of(d.req)
}

proof fn lemma_deps(l: Seq<RawDepView>, source: Seq<char>, n: int)
    requires
        0 <= n <= l.len(),
        index_deps_upto(l, source, n) is Ok,
    ensures
        ({
            let r = index_deps_upto(l, source, n)->Ok_0;
            r.len() == n && forall|i: int| 0 <= i < n ==> declares(l[i], #[trigger] r[i], source)
        }),
    decreases n,
{
    if n > 0 {
        lemma_deps(l, source, n - 1);
        lemma_kinds();
        let before = index_deps_upto(l, source, n - 1)->Ok_0;
        let r = index_deps_upto(l, source, n)->Ok_0;
        assert forall|i: int| 0 <= i < n implies declares(l[i], #[trigger] r[i], source) by {
            if i < n - 1 {
                assert(r[i] == before[i]);
            }
        }
    }
}

proof fn lemma_kinds()
    ensures
        "dev"@ != "build"@,
{
    reveal_strlit("dev");
    reveal_strlit("build");
    assert("dev"@.len() != "build"@.len());
}

/// An entry has what its record says: the name, the version, the checksum, whether it is yanked, and each dependency. A
/// feature of either list is one of its features, and so is an optional dependency that no feature speaks of.
pub proof fn law_entries_are_what_the_index_says(e: RawEntryView, source: Seq<char>)
    requires
        entry_of(e, source) is Ok,
    ensures
        ({
            let x = entry_of(e, source)->Ok_0;
            &&& x.name == e.name
            &&& Some(x.vers) == version_of(e.vers)
            &&& x.cksum == e.cksum
            &&& x.yanked == e.yanked
            &&& x.links == e.links
            &&& x.deps.len() == e.deps.len()
            &&& forall|i: int| 0 <= i < e.deps.len() ==> declares(e.deps[i], #[trigger] x.deps[i], source)
            &&& forall|f: Seq<char>| #[trigger] e.features2.contains_key(f) ==> x.features.contains_key(f) && x.features[f] == e.features2[f]
            &&& forall|f: Seq<char>| #[trigger]
                e.features.contains_key(f) && !e.features2.contains_key(f) ==> x.features.contains_key(f) && x.features[f] == e.features[f]
            &&& forall|f: Seq<char>| #[trigger]
                x.features.contains_key(f) && !e.features.contains_key(f) && !e.features2.contains_key(f) ==> x.features[f] == seq!["dep:"@ + f]
                    && exists|i: int|
                    0 <= i < x.deps.len() && (#[trigger] x.deps[i]).optional && f == (match x.deps[i].rename {
                        Some(r) => r,
                        None => x.deps[i].name,
                    })
        }),
{
    lemma_deps(e.deps, source, e.deps.len() as int);
}

proof fn lemma_cut_ascii(s: Seq<char>, bytes: int, k: int)
    requires
        0 <= k <= s.len(),
        0 <= bytes,
        forall|i: int| 0 <= i < s.len() ==> (#[trigger] s[i] as u32) < 0x80,
    ensures
        cut(s, bytes, k) == if k + bytes <= s.len() {
            Some(k + bytes)
        } else {
            None
        },
    decreases bytes,
{
    if bytes > 0 && k < s.len() {
        assert((s[k] as u32) < 0x80);
        lemma_cut_ascii(s, bytes - 1, k + 1);
    }
}

/// A file of the index stands where its name says, for a name in lower case of ASCII characters: `1/a`, `2/ab`, `3/a/abc`,
/// and `ab/cd/abcd` for all that are longer.
pub proof fn law_the_index_is_laid_out_by_name(n: Seq<char>)
    requires
        n.len() > 0,
        forall|i: int| 0 <= i < n.len() ==> (#[trigger] n[i] as u32) < 0x80,
    ensures
        n.len() == 1 ==> place_of(n) == Some("1/"@ + n),
        n.len() == 2 ==> place_of(n) == Some("2/"@ + n),
        n.len() == 3 ==> place_of(n) == Some("3/"@ + seq![n[0]] + "/"@ + n),
        n.len() > 3 ==> place_of(n) == Some(seq![n[0], n[1]] + "/"@ + seq![n[2], n[3]] + "/"@ + n),
{
    lemma_cut_ascii(n, 1, 0);
    lemma_cut_ascii(n, 2, 0);
    lemma_cut_ascii(n, 3, 0);
    lemma_cut_ascii(n, 4, 0);
    if n.len() == 3 {
        assert(n.subrange(0, 1) =~= seq![n[0]]);
    }
    if n.len() > 3 {
        assert(n.subrange(0, 2) =~= seq![n[0], n[1]]);
        assert(n.subrange(2, 4) =~= seq![n[2], n[3]]);
    }
}

// ---------------------------------------------------------------------------
// Having a package at hand.

/// A step that takes what is on disk as the package.
pub open spec fn is_taken(x: NextView) -> bool {
    x is Done || x is Unpack
}

/// An archive is unpacked only where its checksum is the expected one, whatever the case of its letters. One that has another
/// is reported. Where a marker says that the package was unpacked before, it is used.
pub proof fn law_archives_are_checked(g: RegistryView, d: Download<'_>, k: KnownView)
    requires
        !g.vendor.contains_key(d.source@),
    ensures
        ({
            let x = next_of(g, d, k);
            &&& k.marker == Some(true) ==> x == crate::registry::NextView::Done(
                under(under(under(g.root, "src"@), dir_name(d.source@)), d.name@ + "-"@ + version_text(d.version@)),
                false,
            )
            &&& k.marker == Some(false) && k.archive == Some(true) && is_taken(x) ==> (d.checksum matches Some(want)
                ==> k.archive_sum.is_some() && ascii_lower(k.archive_sum.unwrap()) == ascii_lower(want@))
            &&& k.marker == Some(false) && k.archive == Some(true) && k.archive_sum.is_some() && (d.checksum matches Some(want)
                && ascii_lower(k.archive_sum.unwrap()) != ascii_lower(want@)) ==> x is Corrupt
            &&& k.marker == Some(false) && k.archive == Some(false) && g.offline && g.mirror.is_none() ==> x is Offline
            &&& k.marker == Some(false) && k.archive == Some(false) && is_taken(x) ==> k.fetched || k.mirrored == Some(true)
            &&& k.marker.is_none() ==> x is AskMarker
            &&& k.marker == Some(false) && k.archive.is_none() ==> x is AskArchive
        }),
{
}

/// Where a directory stands in for a source, it alone is asked, and what it says of the package's checksum has to agree.
pub proof fn law_vendored_packages_are_checked(g: RegistryView, d: Download<'_>, k: KnownView)
    requires
        g.vendor.contains_key(d.source@),
    ensures
        ({
            let x = next_of(g, d, k);
            let dir = under(g.vendor[d.source@], d.name@ + "-"@ + version_text(d.version@));
            &&& x is Done ==> k.vendored == Some(true) && x == crate::registry::NextView::Done(dir, false)
            &&& k.vendored == Some(false) ==> x is NotVendored
            &&& k.vendored == Some(true) && d.checksum.is_none() ==> x is Done
            &&& k.vendored == Some(true) && k.vendor_sum == Some(None::<Seq<char>>) ==> x is Done
            &&& x is Done && (d.checksum matches Some(want) && k.vendor_sum matches Some(Some(text)) && json_of(text) matches Some(j)
                && text_in(member(j, "package"@)) matches Some(got)) ==> ascii_lower(
                text_in(member(json_of(k.vendor_sum.unwrap().unwrap()).unwrap(), "package"@)).unwrap(),
            ) == ascii_lower(d.checksum.unwrap()@)
        }),
{
}

/// Where a template has no markers, the package is below it: its name, its version and `download`.
pub proof fn law_plain_templates_have_the_usual_path(t: Seq<char>, name: Seq<char>, v: VersionView, checksum: Option<Seq<char>>)
    requires
        !has_marker(t),
        t.len() > 0,
        t[t.len() - 1] != '/',
    ensures
        url_of(t, name, v, checksum) == Some(t + "/"@ + name + "/"@ + version_text(v) + "/download"@),
        url_of(t + "/"@, name, v, checksum).is_some() && !has_marker(t + "/"@)
            ==> url_of(t + "/"@, name, v, checksum) == Some(t + "/"@ + name + "/"@ + version_text(v) + "/download"@),
{
    reveal_strlit("/");
    reveal_with_fuel(without_slashes, 3);
    let u = t + "/"@;
    assert(u.drop_last() =~= t);
}

/// What a reply means: what came is kept, what did not change counts on, and what is gone is not there. Without an answer, what is
/// kept counts on.
pub proof fn law_replies_are_believed(kept: bool, status: u16)
    ensures
        outcome_of(kept, crate::registry::Reply::Status(200)) is Store,
        outcome_of(kept, crate::registry::Reply::Status(304)) is Kept,
        outcome_of(kept, crate::registry::Reply::Failed) is Kept <==> kept,
        outcome_of(false, crate::registry::Reply::Failed) is Failed,
        outcome_of(kept, crate::registry::Reply::Status(status)) is Store ==> status == 200,
        outcome_of(kept, crate::registry::Reply::Status(status)) is Kept ==> status == 304,
        outcome_of(kept, crate::registry::Reply::Status(status)) is Absent <==> status == 404 || status == 410 || status == 451,
{
}

/// The version that is selected by hand is there and not yanked. It is the exact one where one is named, and else meets the
/// requirement. Without any version that is not yanked, none is selected.
pub proof fn law_a_version_can_be_named(es: Seq<IndexEntryView>, spec: Option<Seq<char>>, i: int)
    ensures
        selected(es, spec) matches Ok(k) ==> 0 <= k < es.len() && !es[k].yanked && (spec matches Some(s) ==> (
        version_of(s) matches Some(v) ==> es[k].vers == v) && (version_of(s).is_none() ==> (req_of(
            s,
        ) matches Some(q) && meets(q, es[k].vers)))),
        0 <= i < es.len() && !es[i].yanked && spec.is_none() ==> selected(es, spec) is Ok,
        0 <= i < es.len() && !es[i].yanked && (spec matches Some(s) && version_of(s) == Some(es[i].vers))
            ==> selected(es, spec) is Ok,
        0 <= i < es.len() && !es[i].yanked && (spec matches Some(s) && version_of(s).is_none() && (req_of(s) matches Some(q)
            && meets(q, es[i].vers))) ==> selected(es, spec) is Ok,
{
    lemma_newest(es, None, es.len() as int, i);
    if let Some(s) = spec {
        if let Some(v) = version_of(s) {
            lemma_exact(es, v, 0, i);
        } else if let Some(q) = req_of(s) {
            lemma_newest(es, Some(q), es.len() as int, i);
        }
    }
}

proof fn lemma_exact(es: Seq<IndexEntryView>, v: VersionView, k: int, i: int)
    requires
        0 <= k <= es.len(),
    ensures
        exact_from(es, v, k) matches Some(r) ==> k <= r < es.len() && !es[r].yanked && es[r].vers == v,
        k <= i < es.len() && !es[i].yanked && es[i].vers == v ==> exact_from(es, v, k).is_some(),
    decreases es.len() - k,
{
    if k < es.len() {
        lemma_exact(es, v, k + 1, i);
    }
}

proof fn lemma_newest(es: Seq<IndexEntryView>, req: Option<Seq<char>>, n: int, i: int)
    requires
        n == es.len(),
    ensures
        newest_of(es, req) matches Some(r) ==> 0 <= r < es.len() && !es[r].yanked && (req matches Some(q)
            ==> meets(q, es[r].vers)),
        0 <= i < es.len() && !es[i].yanked && (req matches Some(q) ==> meets(q, es[i].vers)) ==> newest_of(
            es,
            req,
        ).is_some(),
{
    let ok = |j: int| !es[j].yanked && (req matches Some(q) ==> meets(q, es[j].vers));
    lemma_newest_upto(versions_of(es), ok, n, i);
}

proof fn lemma_newest_upto(vs: Seq<VersionView>, ok: spec_fn(int) -> bool, n: int, i: int)
    requires
        0 <= n <= vs.len(),
    ensures
        newest_upto(vs, ok, n) matches Some(r) ==> 0 <= r < n && ok(r),
        0 <= i < n && ok(i) ==> newest_upto(vs, ok, n).is_some(),
    decreases n,
{
    if n > 0 {
        lemma_newest_upto(vs, ok, n - 1, i);
    }
}

} // verus!
