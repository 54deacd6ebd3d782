//! Sources that are put together: directories of vendored packages, archives of packages, and the core of the standard
//! library.

use vstd::prelude::*;
use crate::edit::package_file;
use crate::edit::packaged;
use crate::json::Json;
use crate::json::JsonTree;
use crate::json::json_entries;
use crate::json::json_of;
use crate::json::keys_ascend;
use crate::json::plain;
use crate::manifest::Filed;
use crate::messages::Fields;
use crate::messages::no_fields;
use crate::messages::put;
use crate::messages::put_text;
use crate::order::before;
use crate::path::base_name;
use crate::path::extension;
use crate::path::file_name;
use crate::path::is_same_place;
use crate::path::same_place;
use crate::path::suffix_of;
use crate::path::under;
use crate::registry::Download;
use crate::registry::KnownView;
use crate::registry::NextView;
use crate::registry::checksum_of;
use crate::registry::next_vendored;
use crate::resolve::Graph;
use crate::resolve::Node;
use crate::resolve::SourceId;
use crate::sort::in_order;
use crate::sort::sort;
use crate::strmap::StrMap;
use crate::strmap::listed;
use crate::text::cat3;
use crate::text::cat;
use crate::text::opt_view;
use crate::text::replace_char;
use crate::text::same;
use crate::text::starts;
use crate::text::starts_with;
use crate::text::swapped;
use crate::text::views;
use crate::version::version_text;

verus! {

// ---------------------------------------------------------------------------
// The package at hand.

/// The first manifest, from `k` on, that is the one at hand.
pub open spec fn found_from(behind: Seq<Option<Seq<char>>>, current: Seq<char>, k: int) -> Option<int>
    decreases behind.len() - k,
{
    if k < 0 || k >= behind.len() {
        None
    } else if behind[k].is_some() && same_place(behind[k].unwrap(), current) {
        Some(k)
    } else {
        found_from(behind, current, k + 1)
    }
}

pub open spec fn paths_of(l: Seq<Option<String>>) -> Seq<Option<Seq<char>>> {
    Seq::new(l.len(), |i: int| opt_view(l[i]))
}

/// The member that a command is about: the one whose manifest is at hand, or the only one. `behind` holds where the
/// manifest of each member really is.
pub fn current_package(behind: &Vec<Option<String>>, current: &str) -> (r: Option<usize>)
    ensures
        match found_from(paths_of(behind@), current@, 0) {
            Some(i) => r matches Some(k) && k == i,
            None => r == (if behind@.len() == 1 {
                Some(0usize)
            } else {
                None
            }),
        },
{
    let ghost all = paths_of(behind@);
    let mut k: usize = 0;
    while k < behind.len()
        invariant
            k <= behind@.len(),
            all == paths_of(behind@),
            found_from(all, current@, 0) == found_from(all, current@, k as int),
        decreases behind@.len() - k,
    {
        assert(all[k as int] == opt_view(behind@[k as int]));
        if let Some(p) = &behind[k] {
            if is_same_place(p.as_str(), current) {
                return Some(k);
            }
        }
        k += 1;
    }
    if behind.len() == 1 {
        Some(0)
    } else {
        None
    }
}

// ---------------------------------------------------------------------------
// Vendored packages.

/// The package comes from elsewhere, and its sources are at hand.
pub open spec fn is_vendored(n: Node) -> bool {
    !(n.id.source is Path) && n.package.is_some()
}

pub open spec fn vendor_name(n: Node) -> Seq<char> {
    n.id.name@ + "-"@ + version_text(n.id.version@)
}

/// The packages among the first `n`, each with its directory.
pub open spec fn vendored_upto(l: Seq<Node>, n: int) -> Seq<(usize, Seq<char>)>
    decreases n,
{
    if n <= 0 {
        Seq::empty()
    } else if is_vendored(l[n - 1]) {
        vendored_upto(l, n - 1).push(((n - 1) as usize, vendor_name(l[n - 1])))
    } else {
        vendored_upto(l, n - 1)
    }
}

pub open spec fn place_views(l: Seq<(usize, String)>) -> Seq<(usize, Seq<char>)> {
    Seq::new(l.len(), |i: int| (l[i].0, l[i].1@))
}

/// The packages that are vendored, and the names of their directories.
pub fn vendored(g: &Graph) -> (r: Vec<(usize, String)>)
    ensures
        place_views(r@) == vendored_upto(g.nodes@, g.nodes@.len() as int),
{
    let mut out: Vec<(usize, String)> = Vec::new();
    assert(place_views(out@) =~= Seq::<(usize, Seq<char>)>::empty());
    let mut k: usize = 0;
    while k < g.nodes.len()
        invariant
            k <= g.nodes@.len(),
            place_views(out@) == vendored_upto(g.nodes@, k as int),
        decreases g.nodes@.len() - k,
    {
        let n = &g.nodes[k];
        let remote: bool = match &n.id.source {
            SourceId::Path(_) => false,
            _ => true,
        };
        if remote && n.package.is_some() {
            let ghost was = place_views(out@);
            let name = cat3(n.id.name.as_str(), "-", n.id.version.text().as_str());
            let ghost nv = name@;
            out.push((k, name));
            assert(place_views(out@) =~= was.push((k, nv)));
        }
        k += 1;
    }
    out
}

/// Whether the sources below a directory are copied.
pub fn copies_dir(name: &str) -> (r: bool)
    ensures
        r == (name@ != "target"@ && !starts(name@, "."@)),
{
    !same(name, "target") && !starts_with(name, ".")
}

/// Whether a file is copied. The mark of an unpacked package is not.
pub fn copies_file(name: &str) -> (r: bool)
    ensures
        r == (name@ != ".rb-ok"@),
{
    !same(name, ".rb-ok")
}

/// The checksums of files, by their paths; the file that holds them is not among them.
pub open spec fn sum_fields(sums: Map<Seq<char>, Seq<char>>) -> Fields {
    sums_upto(listed(sums.dom()), sums, listed(sums.dom()).len() as int)
}

pub open spec fn sums_upto(names: Seq<Seq<char>>, sums: Map<Seq<char>, Seq<char>>, n: int) -> Fields
    decreases n,
{
    if n <= 0 {
        Seq::empty()
    } else if names[n - 1] == ".cargo-checksum.json"@ {
        sums_upto(names, sums, n - 1)
    } else {
        sums_upto(names, sums, n - 1).push((names[n - 1], JsonTree::Str(sums[names[n - 1]])))
    }
}

/// What the checksum file of a vendored package holds.
pub open spec fn vendor_json(sums: Map<Seq<char>, Seq<char>>, checksum: Option<Seq<char>>) -> JsonTree {
    JsonTree::Object(
        seq![
            ("files"@, JsonTree::Object(sum_fields(sums))),
            (
                "package"@,
                JsonTree::Str(
                    match checksum {
                        Some(c) => c,
                        None => Seq::empty(),
                    },
                ),
            ),
        ],
    )
}

/// `sums`: the checksum of each file, by its path from the directory of the package, with slashes.
pub fn vendor_sums(sums: &StrMap<String>, checksum: Option<&str>) -> (r: Json)
    ensures
        r@ == vendor_json(crate::commands::text_map(sums@), crate::invocation::opt_text(checksum)),
{
    let ghost m = crate::commands::text_map(sums@);
    assert(m.dom() =~= sums@.dom());
    let names = sums.keys();
    let ghost nv = views(names@);
    let mut files = no_fields();
    let mut k: usize = 0;
    while k < names.len()
        invariant
            k <= names@.len(),
            nv == views(names@),
            nv.to_set() == sums@.dom(),
            m == crate::commands::text_map(sums@),
            json_entries(files@) == sums_upto(nv, m, k as int),
        decreases names@.len() - k,
    {
        assert(nv[k as int] == names@[k as int]@);
        assert(nv.contains(nv[k as int]));
        assert(sums@.dom().contains(nv[k as int]));
        let name = names[k].as_str();
        if !same(name, ".cargo-checksum.json") {
            if let Some(s) = sums.get(name) {
                put_text(&mut files, name, s.as_str());
            }
        }
        k += 1;
    }
    assert(nv.len() == names@.len());
    let ghost fv = json_entries(files@);
    let all = Json::Object(files);
    assert(all@ == JsonTree::Object(fv));
    let mut o = no_fields();
    put(&mut o, "files", all);
    let sum: &str = match checksum {
        Some(c) => c,
        None => "",
    };
    proof {
        reveal_strlit("");
        assert(""@ =~= Seq::<char>::empty());
    }
    put_text(&mut o, "package", sum);
    assert(json_entries(o@) =~= vendor_json(m, crate::invocation::opt_text(checksum))->Object_0);
    Json::Object(o)
}

/// The settings that make a directory stand in for the registry.
pub fn vendor_note(dir: &str) -> (r: String)
    ensures
        r@ == "[source.crates-io]\nreplace-with = \"vendored-sources\"\n\n[source.vendored-sources]\ndirectory = \""@ + (match base_name(
            dir@,
        ) {
            Some(n) => n,
            None => "vendor"@,
        }) + "\"\n"@,
{
    let name: String = match file_name(dir) {
        Some(n) => n,
        None => "vendor".to_owned(),
    };
    cat3(
        "[source.crates-io]\nreplace-with = \"vendored-sources\"\n\n[source.vendored-sources]\ndirectory = \"",
        name.as_str(),
        "\"\n",
    )
}

proof fn lemma_sums(names: Seq<Seq<char>>, sums: Map<Seq<char>, Seq<char>>, n: int)
    requires
        0 <= n <= names.len(),
        crate::order::ascending(names),
    ensures
        keys_ascend(sums_upto(names, sums, n)),
        forall|i: int| 0 <= i < sums_upto(names, sums, n).len() ==> (#[trigger] sums_upto(names, sums, n)[i]).1 is Str,
        forall|i: int, k: int|
            0 <= i < sums_upto(names, sums, n).len() && n <= k < names.len() ==> before(
                (#[trigger] sums_upto(names, sums, n)[i]).0,
                #[trigger] names[k],
            ),
    decreases n,
{
    if n > 0 {
        lemma_sums(names, sums, n - 1);
        let a = sums_upto(names, sums, n - 1);
        let l = sums_upto(names, sums, n);
        if names[n - 1] != ".cargo-checksum.json"@ {
            assert(l == a.push((names[n - 1], JsonTree::Str(sums[names[n - 1]]))));
            assert forall|i: int, k: int| 0 <= i < l.len() && n <= k < names.len() implies before((#[trigger] l[i]).0, #[trigger] names[k]) by {
                if i < a.len() {
                    assert(l[i] == a[i]);
                } else {
                    assert(before(names[n - 1], names[k]));
                }
            }
            assert forall|i: int, k: int| 0 <= i < k < l.len() implies before((#[trigger] l[i]).0, (#[trigger] l[k]).0) by {
                assert(l[i] == a[i]);
                if k < a.len() {
                    assert(l[k] == a[k]);
                } else {
                    assert(before(a[i].0, names[n - 1]));
                }
            }
            assert forall|i: int| 0 <= i < l.len() implies (#[trigger] l[i]).1 is Str by {
                if i < a.len() {
                    assert(l[i] == a[i]);
                }
            }
        }
    }
}

/// A checksum file is plain, so that it comes back from its text.
pub proof fn law_checksum_files_survive_as_text(sums: Map<Seq<char>, Seq<char>>, checksum: Option<Seq<char>>)
    requires
        sums.dom().finite(),
    ensures
        plain(vendor_json(sums, checksum), 100),
{
    reveal_strlit("files");
    reveal_strlit("package");
    crate::order::lemma_before_at("files"@, "package"@, 0);
    let l = vendor_json(sums, checksum)->Object_0;
    crate::json::lemma_keys_ascend(l);
    crate::strmap::lemma_listed_finite(sums.dom());
    let names = listed(sums.dom());
    lemma_sums(names, sums, names.len() as int);
    let f = sum_fields(sums);
    assert forall|k: int| 0 <= k < f.len() implies plain((#[trigger] f[k]).1, 98) by {}
    assert(plain(JsonTree::Object(f), 99));
    assert forall|k: int| 0 <= k < l.len() implies plain((#[trigger] l[k]).1, 99) by {
        if k == 0 {
            assert(l[k].1 == JsonTree::Object(f));
        }
    }
}

/// What was vendored is found again: the directory and the checksum file of a package are those that a registry with that
/// directory looks for, and it accepts them for the checksum that the package was vendored with.
pub proof fn law_a_vendored_package_is_accepted(
    root: Seq<char>,
    n: Node,
    d: Download<'_>,
    sums: Map<Seq<char>, Seq<char>>,
    text: Seq<char>,
    k: KnownView,
)
    requires
        d.name@ == n.id.name@,
        d.version@ == n.id.version@,
        checksum_of(d) == opt_view(n.checksum),
        k.vendored == Some(true),
        k.vendor_sum == Some(Some(text)),
        json_of(text) == Some(vendor_json(sums, opt_view(n.checksum))),
    ensures
        next_vendored(root, d, k) == NextView::Done(under(root, vendor_name(n)), false),
{
    reveal(crate::value::at);
    reveal_strlit("files");
    reveal_strlit("package");
    let l = vendor_json(sums, opt_view(n.checksum))->Object_0;
    assert("files"@.len() != "package"@.len());
    assert(l[0].0 == "files"@ && l[1].0 == "package"@);
    assert(crate::value::entry_at(l, "package"@, 1) == 1);
    assert(crate::value::entry_at(l, "package"@, 0) == 1);
}

// ---------------------------------------------------------------------------
// Archives.

/// Whether files of a package are looked for below a directory.
pub fn packs_dir(name: &str) -> (r: bool)
    ensures
        r == (name@ != "target"@ && name@ != ".git"@),
{
    !same(name, "target") && !same(name, ".git")
}

/// The files among the first `n` that belong into the package.
pub open spec fn packed_upto(files: Seq<Seq<char>>, included: Seq<Seq<char>>, excluded: Seq<Seq<char>>, n: int) -> Seq<Seq<char>>
    decreases n,
{
    if n <= 0 {
        Seq::empty()
    } else if packaged(swapped(files[n - 1], '\\', '/'), included, excluded) {
        packed_upto(files, included, excluded, n - 1).push(files[n - 1])
    } else {
        packed_upto(files, included, excluded, n - 1)
    }
}

/// The files of a package in order, out of those that were found. Paths are from the root of the package.
pub fn package_files(files: &Vec<String>, included: &Vec<String>, excluded: &Vec<String>) -> (r: Vec<String>)
    ensures
        views(r@) == in_order::<Filed>(
            packed_upto(views(files@), views(included@), views(excluded@), files@.len() as int),
        ),
{
    let ghost fv = views(files@);
    let mut out: Vec<Filed> = Vec::new();
    assert(views(out@) =~= Seq::<Seq<char>>::empty());
    let mut k: usize = 0;
    while k < files.len()
        invariant
            k <= files@.len(),
            fv == views(files@),
            views(out@) == packed_upto(fv, views(included@), views(excluded@), k as int),
        decreases files@.len() - k,
    {
        assert(fv[k as int] == files@[k as int]@);
        let rel = replace_char(files[k].as_str(), '\\', '/');
        if package_file(rel.as_str(), included, excluded) {
            let ghost was = views(out@);
            out.push(Filed { path: files[k].clone() });
            assert(views(out@) =~= was.push(fv[k as int]));
        }
        k += 1;
    }
    let sorted = sort(out);
    let ghost want = views(sorted@);
    let mut r: Vec<String> = Vec::new();
    let mut j: usize = 0;
    assert(views(r@) =~= want.take(0));
    while j < sorted.len()
        invariant
            j <= sorted@.len(),
            want == views(sorted@),
            views(r@) == want.take(j as int),
        decreases sorted@.len() - j,
    {
        assert(want[j as int] == sorted@[j as int]@);
        let ghost was = views(r@);
        r.push(sorted[j].path.clone());
        assert(views(r@) =~= was.push(want[j as int]));
        assert(want.take(j + 1) =~= want.take(j as int).push(want[j as int]));
        j += 1;
    }
    assert(want.take(j as int) =~= want);
    r
}

/// What a file is called in the archive of a package.
pub fn archive_name(package: &str, version: &str, rel: &str) -> (r: String)
    ensures
        r@ == package@ + "-"@ + version@ + "/"@ + swapped(rel@, '\\', '/'),
{
    let dir = cat3(package, "-", version);
    cat3(dir.as_str(), "/", replace_char(rel, '\\', '/').as_str())
}

/// The manifest is always part of the package, whatever the patterns say.
pub proof fn law_the_manifest_is_packaged(included: Seq<Seq<char>>, excluded: Seq<Seq<char>>)
    ensures
        packaged("Cargo.toml"@, included, excluded),
        packaged("Cargo.lock"@, included, excluded),
{
}

// ---------------------------------------------------------------------------
// The core of the standard library.

/// The file is the metadata of a crate whose file starts like that.
pub open spec fn is_meta(path: Seq<char>, prefix: Seq<char>) -> bool {
    base_name(path) matches Some(n) && suffix_of(n) == Some("rmeta"@) && starts(n, prefix)
}

/// The files among the first `n` with the metadata of a crate.
pub open spec fn metas_upto(files: Seq<Seq<char>>, prefix: Seq<char>, n: int) -> Seq<Seq<char>>
    decreases n,
{
    if n <= 0 {
        Seq::empty()
    } else if is_meta(files[n - 1], prefix) {
        metas_upto(files, prefix, n - 1).push(files[n - 1])
    } else {
        metas_upto(files, prefix, n - 1)
    }
}

/// The last of the files with the metadata of a crate.
pub open spec fn last_meta(files: Seq<Seq<char>>, prefix: Seq<char>) -> Option<Seq<char>> {
    let l = in_order::<String>(metas_upto(files, prefix, files.len() as int));
    if l.len() == 0 {
        None
    } else {
        Some(l[l.len() - 1])
    }
}

fn find_meta(files: &Vec<String>, prefix: &str) -> (r: Option<String>)
    ensures
        opt_view(r) == last_meta(views(files@), prefix@),
{
    let ghost fv = views(files@);
    let mut hits: Vec<String> = Vec::new();
    assert(views(hits@) =~= Seq::<Seq<char>>::empty());
    let mut k: usize = 0;
    while k < files.len()
        invariant
            k <= files@.len(),
            fv == views(files@),
            views(hits@) == metas_upto(fv, prefix@, k as int),
        decreases files@.len() - k,
    {
        assert(fv[k as int] == files@[k as int]@);
        let p = files[k].as_str();
        let named: bool = match file_name(p) {
            Some(n) => starts_with(n.as_str(), prefix),
            None => false,
        };
        let meta: bool = match extension(p) {
            Some(e) => same(e.as_str(), "rmeta"),
            None => false,
        };
        if named && meta {
            let ghost was = views(hits@);
            hits.push(files[k].clone());
            assert(views(hits@) =~= was.push(fv[k as int]));
        }
        k += 1;
    }
    let mut l = sort(hits);
    let ghost lv = views(l@);
    assert(lv.len() == l@.len());
    match l.pop() {
        Some(s) => {
            assert(lv[lv.len() - 1] == s@);
            Some(s)
        },
        None => None,
    }
}

/// The arguments with which a crate is compiled against a core of its own. The name of the missing crate's file otherwise.
pub fn core_externs(files: &Vec<String>) -> (r: Result<Vec<String>, &'static str>)
    ensures
        ({
            let core = last_meta(views(files@), "libcore-"@);
            let builtins = last_meta(views(files@), "libcompiler_builtins-"@);
            match r {
                Ok(l) => core.is_some() && builtins.is_some() && views(l@) == seq![
                    "-Zunstable-options"@,
                    "--extern"@,
                    "noprelude,nounused:compiler_builtins="@ + builtins.unwrap(),
                    "--extern"@,
                    "noprelude,nounused:core="@ + core.unwrap(),
                ],
                Err(e) => if core.is_none() {
                    e@ == "libcore-"@
                } else {
                    builtins.is_none() && e@ == "libcompiler_builtins-"@
                },
            }
        }),
{
    let core = match find_meta(files, "libcore-") {
        Some(c) => c,
        None => {
            return Err("libcore-");
        },
    };
    let builtins = match find_meta(files, "libcompiler_builtins-") {
        Some(b) => b,
        None => {
            return Err("libcompiler_builtins-");
        },
    };
    let mut out: Vec<String> = Vec::new();
    out.push("-Zunstable-options".to_owned());
    out.push("--extern".to_owned());
    out.push(cat("noprelude,nounused:compiler_builtins=", builtins.as_str()));
    out.push("--extern".to_owned());
    out.push(cat("noprelude,nounused:core=", core.as_str()));
    assert(views(out@) =~= seq![
        "-Zunstable-options"@,
        "--extern"@,
        "noprelude,nounused:compiler_builtins="@ + builtins@,
        "--extern"@,
        "noprelude,nounused:core="@ + core@,
    ]);
    Ok(out)
}

// ---------------------------------------------------------------------------
// Packages by name.

/// The first node from `k` on with the name and the version.
pub open spec fn named_from(l: Seq<Node>, name: Seq<char>, v: crate::version::VersionView, k: int) -> Option<int>
    decreases l.len() - k,
{
    if k < 0 || k >= l.len() {
        None
    } else if l[k].id.name@ == name && l[k].id.version@ == v {
        Some(k)
    } else {
        named_from(l, name, v, k + 1)
    }
}

/// The node of a package.
pub fn node_named(g: &Graph, name: &str, v: &crate::version::Version) -> (r: Option<usize>)
    ensures
        match named_from(g.nodes@, name@, v@, 0) {
            Some(i) => r matches Some(k) && k == i,
            None => r.is_none(),
        },
{
    let mut k: usize = 0;
    while k < g.nodes.len()
        invariant
            k <= g.nodes@.len(),
            named_from(g.nodes@, name@, v@, 0) == named_from(g.nodes@, name@, v@, k as int),
        decreases g.nodes@.len() - k,
    {
        if same(g.nodes[k].id.name.as_str(), name) && g.nodes[k].id.version.same_as(v) {
            return Some(k);
        }
        k += 1;
    }
    None
}

/// The specification of the package that is selected; none where it is not one alone.
pub fn pkgid(g: &Graph, selected: &Vec<usize>) -> (r: Option<String>)
    requires
        forall|i: int| 0 <= i < selected@.len() ==> #[trigger] selected@[i] < g.nodes@.len(),
    ensures
        opt_view(r) == (if selected@.len() == 1 {
            Some(crate::resolve::spec_text(g.nodes@[selected@[0] as int].id@))
        } else {
            None
        }),
{
    if selected.len() == 1 {
        assert(selected@[0] < g.nodes@.len());
        Some(g.nodes[selected[0]].id.spec())
    } else {
        None
    }
}

} // verus!
