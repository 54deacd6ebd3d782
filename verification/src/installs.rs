//! Programs that were installed: which files they are, and the list of them.

use vstd::prelude::*;
use crate::invocation::opt_text;
use crate::json::Json;
use crate::json::JsonTree;
use crate::json::json_of;
use crate::json::json_text;
use crate::json::json_trees;
use crate::json::member;
use crate::json::text_at;
use crate::json::text_in;
use crate::manifest::Entries;
use crate::manifest::GitRef;
use crate::manifest::GitRefView;
use crate::manifest::any_is;
use crate::messages::no_fields;
use crate::messages::put_text;
use crate::messages::put_texts;
use crate::messages::texts_of;
use crate::path::base_name;
use crate::path::file_name;
use crate::path::join;
use crate::path::under;
use crate::text::before_suffix;
use crate::text::cat3;
use crate::text::cat5;
use crate::text::ends;
use crate::text::ends_with;
use crate::text::has_char;
use crate::text::opt_view;
use crate::text::same;
use crate::text::strip_suffix;
use crate::text::views;
use crate::value::Toml;
use crate::value::at;
use crate::value::field;
use crate::value::get;
use crate::value::text_of;
use crate::value::toml_entries;

verus! {

// ---------------------------------------------------------------------------
// What is installed.

#[derive(Debug)]
pub enum InstallError {
    /// A directory, with a name or a repository.
    PathWithOther,
    /// More than one of a branch, a tag and a revision.
    References,
    /// No package of that name is installed.
    NotInstalled(String),
}

/// Whether the arguments can stand together.
pub fn check_install(path: bool, name: bool, git: bool) -> (r: Result<(), InstallError>)
    ensures
        match r {
            Ok(()) => !(path && (name || git)),
            Err(e) => e is PathWithOther && path && (name || git),
        },
{
    if path && (name || git) {
        Err(InstallError::PathWithOther)
    } else {
        Ok(())
    }
}

/// What a repository is taken at.
pub open spec fn reference_of(branch: Option<Seq<char>>, tag: Option<Seq<char>>, rev: Option<Seq<char>>) -> Option<GitRefView> {
    match (branch, tag, rev) {
        (Some(b), None, None) => Some(GitRefView::Branch(b)),
        (None, Some(t), None) => Some(GitRefView::Tag(t)),
        (None, None, Some(r)) => Some(GitRefView::Rev(r)),
        (None, None, None) => Some(GitRefView::DefaultBranch),
        _ => None,
    }
}

pub fn install_reference(branch: Option<&str>, tag: Option<&str>, rev: Option<&str>) -> (r: Result<GitRef, InstallError>)
    ensures
        match r {
            Ok(g) => reference_of(opt_text(branch), opt_text(tag), opt_text(rev)) == Some(g@),
            Err(e) => e is References && reference_of(opt_text(branch), opt_text(tag), opt_text(rev)).is_none(),
        },
{
    match (branch, tag, rev) {
        (Some(b), None, None) => Ok(GitRef::Branch(b.to_owned())),
        (None, Some(t), None) => Ok(GitRef::Tag(t.to_owned())),
        (None, None, Some(r)) => Ok(GitRef::Rev(r.to_owned())),
        (None, None, None) => Ok(GitRef::DefaultBranch),
        _ => Err(InstallError::References),
    }
}

/// The manifest that a path stands for: the file itself, or the one in the directory.
pub fn manifest_at(path: &str) -> (r: String)
    ensures
        r@ == (if base_name(path@) == Some("Cargo.toml"@) {
            path@
        } else {
            under(path@, "Cargo.toml"@)
        }),
{
    let file: bool = match file_name(path) {
        Some(n) => same(n.as_str(), "Cargo.toml"),
        None => false,
    };
    if file {
        path.to_owned()
    } else {
        join(path, "Cargo.toml")
    }
}

/// The name without the endings of programs.
pub open spec fn without_exe(s: Seq<char>) -> Seq<char>
    decreases s.len(),
{
    match before_suffix(s, ".exe"@) {
        Some(t) => if t.len() < s.len() {
            without_exe(t)
        } else {
            s
        },
        None => s,
    }
}

fn trim_exe(s: &str) -> (r: String)
    ensures
        r@ == without_exe(s@),
    decreases s@.len(),
{
    proof {
        reveal_strlit(".exe");
    }
    match strip_suffix(s, ".exe") {
        Some(t) => trim_exe(t),
        None => s.to_owned(),
    }
}

/// The program that a file of the build is, where it is one that is asked for.
pub open spec fn program_in(file: Seq<char>, bins: Seq<Seq<char>>) -> Option<Seq<char>> {
    if file.contains('.') && !ends(file, ".exe"@) {
        None
    } else if bins.len() > 0 && !bins.contains(without_exe(file)) {
        None
    } else {
        Some(without_exe(file))
    }
}

/// `bins`: the programs that are asked for; all of them where none is named.
pub fn installed_program(file: &str, bins: &Vec<String>) -> (r: Option<String>)
    ensures
        opt_view(r) == program_in(file@, views(bins@)),
{
    if has_char(file, '.') && !ends_with(file, ".exe") {
        return None;
    }
    let stem = trim_exe(file);
    if bins.len() > 0 && !any_is(bins, stem.as_str()) {
        return None;
    }
    Some(stem)
}

// ---------------------------------------------------------------------------
// The list of installed packages.

/// The list that a text holds; nothing is installed where it holds none.
pub open spec fn installs_in(text: Option<Seq<char>>) -> Seq<JsonTree> {
    match text {
        Some(t) => match json_of(t) {
            Some(JsonTree::Array(l)) => l,
            _ => Seq::empty(),
        },
        None => Seq::empty(),
    }
}

fn nothing() -> (r: Vec<Json>)
    ensures
        json_trees(r@) == Seq::<JsonTree>::empty(),
{
    let r: Vec<Json> = Vec::new();
    assert(json_trees(r@) =~= Seq::<JsonTree>::empty());
    r
}

pub fn read_installs(text: Option<&str>) -> (r: Vec<Json>)
    ensures
        json_trees(r@) == installs_in(opt_text(text)),
{
    match text {
        Some(t) => match Json::parse(t) {
            Some(Json::Array(l)) => l,
            _ => nothing(),
        },
        None => nothing(),
    }
}

/// The entry is that of the package.
pub open spec fn is_named(j: JsonTree, name: Seq<char>) -> bool {
    text_in(member(j, "name"@)) == Some(name)
}

fn has_name(j: &Json, name: &str) -> (r: bool)
    ensures
        r == is_named(j@, name@),
{
    match text_at(j, "name") {
        Some(s) => same(s, name),
        None => false,
    }
}

/// The entries among the first `n` that are not the package's.
pub open spec fn others_upto(l: Seq<JsonTree>, name: Seq<char>, n: int) -> Seq<JsonTree>
    decreases n,
{
    if n <= 0 {
        Seq::empty()
    } else if is_named(l[n - 1], name) {
        others_upto(l, name, n - 1)
    } else {
        others_upto(l, name, n - 1).push(l[n - 1])
    }
}

/// A text of a manifest's package, empty where it has none.
pub open spec fn package_text(t: Entries, key: Seq<char>) -> Seq<char> {
    match at(t, "package"@) {
        Some(p) => match text_of(field(p, key)) {
            Some(s) => s,
            None => Seq::empty(),
        },
        None => Seq::empty(),
    }
}

fn text_of_package(t: &Vec<(String, Toml)>, key: &str) -> (r: String)
    ensures
        r@ == package_text(toml_entries(t@), key@),
{
    match get(t, "package") {
        Some(p) => match p.get(key) {
            Some(Toml::Str(s)) => s.clone(),
            _ => String::new(),
        },
        None => String::new(),
    }
}

/// The entry of a package.
pub open spec fn install_entry(name: Seq<char>, version: Seq<char>, bins: Seq<Seq<char>>) -> JsonTree {
    JsonTree::Object(seq![("bins"@, texts_of(bins)), ("name"@, JsonTree::Str(name)), ("version"@, JsonTree::Str(version))])
}

/// The list once the package of a manifest is installed.
pub open spec fn recorded(l: Seq<JsonTree>, t: Entries, bins: Seq<Seq<char>>) -> Seq<JsonTree> {
    others_upto(l, package_text(t, "name"@), l.len() as int).push(
        install_entry(package_text(t, "name"@), package_text(t, "version"@), bins),
    )
}

/// An earlier entry of the package is replaced.
pub fn record_install(list: Vec<Json>, manifest: &Vec<(String, Toml)>, bins: &Vec<String>) -> (r: Vec<Json>)
    ensures
        json_trees(r@) == recorded(json_trees(list@), toml_entries(manifest@), views(bins@)),
{
    let name = text_of_package(manifest, "name");
    let version = text_of_package(manifest, "version");
    let ghost all = json_trees(list@);
    let ghost mut seen: int = 0;
    let mut list = list;
    let mut k: usize = 0;
    assert(json_trees(list@) =~= others_upto(all, name@, 0) + all.skip(0));
    while k < list.len()
        invariant
            k <= list@.len(),
            0 <= seen <= all.len(),
            k == others_upto(all, name@, seen).len(),
            json_trees(list@) == others_upto(all, name@, seen) + all.skip(seen),
        decreases list@.len() - k,
    {
        let ghost was = list@;
        let ghost tree = json_trees(list@);
        assert(tree.len() == list@.len());
        assert(tree[k as int] == all[seen]);
        assert(tree[k as int] == list@[k as int]@);
        if has_name(&list[k], name.as_str()) {
            list.remove(k);
            assert(list@ =~= was.remove(k as int));
            assert(json_trees(list@) =~= tree.remove(k as int));
            assert(tree.remove(k as int) =~= others_upto(all, name@, seen) + all.skip(seen + 1));
        } else {
            k += 1;
            assert(json_trees(list@) =~= others_upto(all, name@, seen + 1) + all.skip(seen + 1));
        }
        proof {
            seen = seen + 1;
        }
    }
    assert(json_trees(list@).len() == list@.len());
    assert(seen == all.len());
    assert(json_trees(list@) =~= others_upto(all, name@, all.len() as int));
    let mut o = no_fields();
    put_texts(&mut o, "bins", bins);
    put_text(&mut o, "name", name.as_str());
    put_text(&mut o, "version", version.as_str());
    let ghost entry = install_entry(name@, version@, views(bins@));
    assert(crate::json::json_entries(o@) =~= entry->Object_0);
    let ghost was = list@;
    list.push(Json::Object(o));
    assert(json_trees(list@) =~= json_trees(was).push(entry));
    list
}

/// How an installed package is shown.
pub open spec fn install_line(j: JsonTree) -> Seq<char> {
    text_or_empty(member(j, "name"@)) + " v"@ + text_or_empty(member(j, "version"@)) + " ("@ + json_text(
        match member(j, "bins"@) {
            Some(b) => b,
            None => JsonTree::Null,
        },
    ) + ")"@
}

pub open spec fn text_or_empty(j: Option<JsonTree>) -> Seq<char> {
    match text_in(j) {
        Some(s) => s,
        None => Seq::empty(),
    }
}

fn text_or<'a>(j: &'a Json, key: &str) -> (r: &'a str)
    ensures
        r@ == text_or_empty(member(j@, key@)),
{
    proof {
        reveal_strlit("");
        assert(""@ =~= Seq::<char>::empty());
    }
    match text_at(j, key) {
        Some(s) => s,
        None => "",
    }
}

/// What is shown of the list.
pub open spec fn install_lines(l: Seq<JsonTree>) -> Seq<Seq<char>> {
    if l.len() == 0 {
        seq!["nothing"@]
    } else {
        Seq::new(l.len(), |i: int| install_line(l[i]))
    }
}

pub fn list_installed(list: &Vec<Json>) -> (r: Vec<String>)
    ensures
        views(r@) == install_lines(json_trees(list@)),
{
    let ghost all = json_trees(list@);
    let mut out: Vec<String> = Vec::new();
    if list.len() == 0 {
        out.push("nothing".to_owned());
        assert(views(out@) =~= seq!["nothing"@]);
        return out;
    }
    let mut k: usize = 0;
    while k < list.len()
        invariant
            k <= list@.len(),
            all == json_trees(list@),
            out@.len() == k,
            forall|i: int| 0 <= i < k ==> (#[trigger] out@[i])@ == install_line(all[i]),
        decreases list@.len() - k,
    {
        let j = &list[k];
        assert(all[k as int] == j@);
        let bins = match j.get("bins") {
            Some(b) => b.text(),
            None => Json::Null.text(),
        };
        let head = cat5(text_or(j, "name"), " v", text_or(j, "version"), " (", bins.as_str());
        out.push(cat3(head.as_str(), ")", ""));
        proof {
            reveal_strlit("");
            assert(out@[k as int]@ =~= install_line(all[k as int]));
        }
        k += 1;
    }
    assert(all.len() == list@.len());
    assert(views(out@) =~= install_lines(all));
    out
}

/// The first entry of a package, from `k` on.
pub open spec fn first_named(l: Seq<JsonTree>, name: Seq<char>, k: int) -> Option<int>
    decreases l.len() - k,
{
    if k < 0 || k >= l.len() {
        None
    } else if is_named(l[k], name) {
        Some(k)
    } else {
        first_named(l, name, k + 1)
    }
}

/// The paths of the programs among the first `n` values.
pub open spec fn paths_upto(root: Seq<char>, l: Seq<JsonTree>, n: int) -> Seq<Seq<char>>
    decreases n,
{
    if n <= 0 {
        Seq::empty()
    } else {
        match l[n - 1] {
            JsonTree::Str(s) => paths_upto(root, l, n - 1).push(under(under(root, "bin"@), s)),
            _ => paths_upto(root, l, n - 1),
        }
    }
}

/// The programs of an entry.
pub open spec fn programs_of(root: Seq<char>, j: JsonTree) -> Seq<Seq<char>> {
    match member(j, "bins"@) {
        Some(JsonTree::Array(l)) => paths_upto(root, l, l.len() as int),
        _ => Seq::empty(),
    }
}

fn list_programs(root: &str, j: &Json) -> (r: Vec<String>)
    ensures
        views(r@) == programs_of(root@, j@),
{
    let mut out: Vec<String> = Vec::new();
    assert(views(out@) =~= Seq::<Seq<char>>::empty());
    let dir = join(root, "bin");
    match j.get("bins") {
        Some(Json::Array(l)) => {
            let ghost all = json_trees(l@);
            let mut k: usize = 0;
            while k < l.len()
                invariant
                    k <= l@.len(),
                    all == json_trees(l@),
                    dir@ == under(root@, "bin"@),
                    views(out@) == paths_upto(root@, all, k as int),
                decreases l@.len() - k,
            {
                assert(all[k as int] == l@[k as int]@);
                if let Some(s) = l[k].as_str() {
                    let ghost was = views(out@);
                    let p = join(dir.as_str(), s);
                    let ghost pv = p@;
                    out.push(p);
                    assert(views(out@) =~= was.push(pv));
                }
                k += 1;
            }
            assert(all.len() == l@.len());
        },
        _ => {},
    }
    out
}

/// What is removed with a package: the paths of its programs. The list without it comes along.
pub fn uninstall(list: Vec<Json>, name: &str, root: &str) -> (r: Result<(Vec<String>, Vec<Json>), InstallError>)
    ensures
        match first_named(json_trees(list@), name@, 0) {
            Some(i) => r matches Ok((paths, rest)) && views(paths@) == programs_of(root@, json_trees(list@)[i]) && json_trees(rest@)
                == json_trees(list@).remove(i),
            None => r matches Err(InstallError::NotInstalled(n)) && n@ == name@,
        },
{
    let ghost all = json_trees(list@);
    let mut k: usize = 0;
    while k < list.len()
        invariant
            k <= list@.len(),
            all == json_trees(list@),
            first_named(all, name@, 0) == first_named(all, name@, k as int),
        decreases list@.len() - k,
    {
        assert(all[k as int] == list@[k as int]@);
        assert(all.len() == list@.len());
        if has_name(&list[k], name) {
            let paths = list_programs(root, &list[k]);
            let mut rest = list;
            rest.remove(k);
            assert(json_trees(rest@) =~= all.remove(k as int));
            return Ok((paths, rest));
        }
        k += 1;
    }
    assert(all.len() == list@.len());
    Err(InstallError::NotInstalled(name.to_owned()))
}

// ---------------------------------------------------------------------------
// Laws.

proof fn lemma_others(l: Seq<JsonTree>, name: Seq<char>, n: int)
    requires
        0 <= n <= l.len(),
    ensures
        forall|i: int| 0 <= i < others_upto(l, name, n).len() ==> !is_named(#[trigger] others_upto(l, name, n)[i], name),
    decreases n,
{
    if n > 0 {
        lemma_others(l, name, n - 1);
        let rest = others_upto(l, name, n - 1);
        let all = others_upto(l, name, n);
        assert forall|i: int| 0 <= i < all.len() implies !is_named(#[trigger] all[i], name) by {
            if i < rest.len() {
                assert(all[i] == rest[i]);
            }
        }
    }
}

proof fn lemma_first(l: Seq<JsonTree>, name: Seq<char>, k: int)
    requires
        0 <= k < l.len(),
        forall|i: int| k <= i < l.len() - 1 ==> !is_named(#[trigger] l[i], name),
        is_named(l[l.len() - 1], name),
    ensures
        first_named(l, name, k) == Some(l.len() - 1),
    decreases l.len() - k,
{
    if k < l.len() - 1 {
        assert(!is_named(l[k], name));
        lemma_first(l, name, k + 1);
    }
}

proof fn lemma_paths(root: Seq<char>, bins: Seq<Seq<char>>, n: int)
    requires
        0 <= n <= bins.len(),
    ensures
        paths_upto(root, texts_of(bins)->Array_0, n) == Seq::new(n as nat, |i: int| under(under(root, "bin"@), bins[i])),
    decreases n,
{
    if n > 0 {
        lemma_paths(root, bins, n - 1);
    }
    assert(paths_upto(root, texts_of(bins)->Array_0, n) =~= Seq::new(n as nat, |i: int| under(under(root, "bin"@), bins[i])));
}

/// What is installed can be uninstalled: each of its programs is removed, and the other packages stay listed.
pub proof fn law_an_installed_package_can_be_removed(l: Seq<JsonTree>, t: Entries, bins: Seq<Seq<char>>, root: Seq<char>)
    ensures
        ({
            let name = package_text(t, "name"@);
            let all = recorded(l, t, bins);
            &&& first_named(all, name, 0) == Some(all.len() - 1)
            &&& programs_of(root, all[all.len() - 1]) == Seq::new(bins.len(), |i: int| under(under(root, "bin"@), bins[i]))
            &&& all.remove(all.len() - 1) == others_upto(l, name, l.len() as int)
        }),
{
    reveal(crate::value::at);
    reveal_strlit("bins");
    reveal_strlit("name");
    reveal_strlit("version");
    let name = package_text(t, "name"@);
    let all = recorded(l, t, bins);
    let rest = others_upto(l, name, l.len() as int);
    let e = install_entry(name, package_text(t, "version"@), bins);
    assert(all == rest.push(e));
    lemma_others(l, name, l.len() as int);
    assert("bins"@.len() == 4 && "name"@.len() == 4 && "bins"@[0] != "name"@[0]);
    assert(e->Object_0[0].0 == "bins"@ && e->Object_0[1].0 == "name"@);
    assert(crate::value::entry_at(e->Object_0, "bins"@, 0) == 0);
    assert(crate::value::entry_at(e->Object_0, "name"@, 1) == 1);
    assert(crate::value::entry_at(e->Object_0, "name"@, 0) == 1);
    assert(is_named(e, name));
    assert forall|i: int| 0 <= i < all.len() - 1 implies !is_named(#[trigger] all[i], name) by {
        assert(all[i] == rest[i]);
    }
    lemma_first(all, name, 0);
    lemma_paths(root, bins, bins.len() as int);
    assert(all.remove(all.len() - 1) =~= rest);
}

/// A package is listed once, however often it is installed.
pub proof fn law_a_package_is_listed_once(l: Seq<JsonTree>, t: Entries, bins: Seq<Seq<char>>, i: int, j: int)
    requires
        0 <= i < recorded(l, t, bins).len(),
        0 <= j < recorded(l, t, bins).len(),
        is_named(recorded(l, t, bins)[i], package_text(t, "name"@)),
        is_named(recorded(l, t, bins)[j], package_text(t, "name"@)),
    ensures
        i == j,
{
    let name = package_text(t, "name"@);
    let rest = others_upto(l, name, l.len() as int);
    lemma_others(l, name, l.len() as int);
    assert forall|k: int| 0 <= k < rest.len() implies !is_named(#[trigger] recorded(l, t, bins)[k], name) by {
        assert(recorded(l, t, bins)[k] == rest[k]);
    }
}

/// Whether a repository has a package at its root, by the table of the manifest there.
pub fn has_root_package(t: Option<&Vec<(String, Toml)>>) -> (r: bool)
    ensures
        r == (t matches Some(m) && at(toml_entries(m@), "package"@).is_some()),
{
    match t {
        Some(m) => get(m, "package").is_some(),
        None => false,
    }
}

} // verus!
