//! Editing manifests: dependencies that are added or removed, new packages, and what a package file holds.

use vstd::prelude::*;
use crate::info::list_way;
use crate::info::way;
use crate::invocation::opt_text;
use crate::manifest::Entries;
use crate::manifest::remove_dependency;
use crate::manifest::without_key;
use crate::path::absolute;
use crate::path::file_name;
use crate::path::base_name;
use crate::path::is_absolute;
use crate::path::list_parts;
use crate::path::parent;
use crate::path::parts;
use crate::path::up;
use crate::text::alnum;
use crate::text::cat3;
use crate::text::cat5;
use crate::text::chars_of;
use crate::text::is_alnum;
use crate::text::join;
use crate::text::joined;
use crate::text::opt_view;
use crate::text::pieces;
use crate::text::replace_char;
use crate::text::same;
use crate::text::split;
use crate::text::split_first;
use crate::text::split_once;
use crate::text::swapped;
use crate::text::views;
use crate::value::Toml;
use crate::value::at;
use crate::value::field;
use crate::value::get;
use crate::value::strings;
use crate::value::strings_of;
use crate::value::toml_entries;

verus! {

// ---------------------------------------------------------------------------
// Dependencies.

/// A dependency to add.
pub struct AddOptions {
    pub deps: Vec<String>,
    pub path: Option<String>,
    pub git: Option<String>,
    pub branch: Option<String>,
    pub tag: Option<String>,
    pub rev: Option<String>,
    pub features: Vec<String>,
    pub no_default_features: bool,
    pub optional: bool,
    pub dev: bool,
    pub build: bool,
    /// What it is called here.
    pub rename: Option<String>,
}

/// Why nothing is edited.
#[derive(Debug)]
pub enum EditError {
    /// Both kinds of section are asked for.
    DevAndBuild,
    /// Nothing is named.
    NoDependency,
    /// A path or a repository is for one dependency.
    OnlyOne,
    /// The section does not have it.
    NotThere(String),
    /// The package at the path has no name.
    NoName,
    /// A repository says nothing about which of its packages is meant.
    GitWithoutName,
    /// The registry does not have it.
    Unpublished(String),
}

pub enum EditFault {
    DevAndBuild,
    NoDependency,
    OnlyOne,
    NotThere(Seq<char>),
    NoName,
    GitWithoutName,
    Unpublished(Seq<char>),
}

impl View for EditError {
    type V = EditFault;

    open spec fn view(&self) -> EditFault {
        match self {
            EditError::DevAndBuild => EditFault::DevAndBuild,
            EditError::NoDependency => EditFault::NoDependency,
            EditError::OnlyOne => EditFault::OnlyOne,
            EditError::NotThere(s) => EditFault::NotThere(s@),
            EditError::NoName => EditFault::NoName,
            EditError::GitWithoutName => EditFault::GitWithoutName,
            EditError::Unpublished(s) => EditFault::Unpublished(s@),
        }
    }
}

/// What is wrong with a request.
pub open spec fn add_fault(o: AddOptions) -> Option<EditFault> {
    if o.dev && o.build {
        Some(EditFault::DevAndBuild)
    } else if o.deps@.len() == 0 && o.path.is_none() && o.git.is_none() {
        Some(EditFault::NoDependency)
    } else if o.deps@.len() > 1 && (o.path.is_some() || o.git.is_some()) {
        Some(EditFault::OnlyOne)
    } else {
        None
    }
}

/// Whether a dependency can be added.
pub fn check_add(o: &AddOptions) -> (r: Result<(), EditError>)
    ensures
        match add_fault(*o) {
            None => r.is_ok(),
            Some(e) => r matches Err(x) && x@ == e,
        },
{
    if o.dev && o.build {
        return Err(EditError::DevAndBuild);
    }
    if o.deps.len() == 0 && o.path.is_none() && o.git.is_none() {
        return Err(EditError::NoDependency);
    }
    if o.deps.len() > 1 && (o.path.is_some() || o.git.is_some()) {
        return Err(EditError::OnlyOne);
    }
    Ok(())
}

/// The section that is edited.
pub open spec fn section_of(dev: bool, build: bool) -> Seq<char> {
    if dev {
        "dev-dependencies"@
    } else if build {
        "build-dependencies"@
    } else {
        "dependencies"@
    }
}

/// The section that is edited.
pub fn section(dev: bool, build: bool) -> (r: &'static str)
    ensures
        r@ == section_of(dev, build),
{
    if dev {
        "dev-dependencies"
    } else if build {
        "build-dependencies"
    } else {
        "dependencies"
    }
}

/// The name and the requirement in `name@1.2`.
pub fn split_dep(dep: &str) -> (r: (String, Option<String>))
    ensures
        (r.0@, opt_view(r.1)) == dep_parts(dep@),
{
    match split_once(dep, '@') {
        Some((n, v)) => (n.to_owned(), Some(v.to_owned())),
        None => (dep.to_owned(), None),
    }
}

/// The name and the requirement in `name@1.2`.
pub open spec fn dep_parts(dep: Seq<char>) -> (Seq<char>, Option<Seq<char>>) {
    match split_first(dep, '@') {
        Some((n, v)) => (n, Some(v)),
        None => (dep, None),
    }
}

/// What a dependency is called here, the name of its package, and the requirement on its version.
pub type Added = (Seq<char>, Seq<char>, Option<Seq<char>>);

/// The dependency that is added: the package at a path, one of a repository, or one of the registry, in the newest version
/// where none is asked for.
pub open spec fn added(o: AddOptions, path_name: Option<Seq<char>>, newest: Option<Seq<char>>) -> Result<Added, EditFault> {
    let named: Result<(Seq<char>, Option<Seq<char>>), EditFault> = if o.path.is_some() {
        match path_name {
            Some(n) => Ok((n, None)),
            None => Err(EditFault::NoName),
        }
    } else if o.deps@.len() == 0 {
        Err(
            if o.git.is_some() {
                EditFault::GitWithoutName
            } else {
                EditFault::NoDependency
            },
        )
    } else {
        let (name, version) = dep_parts(o.deps@[0]@);
        if o.git.is_some() || version.is_some() {
            Ok((name, version))
        } else {
            match newest {
                Some(v) => Ok((name, Some(v))),
                None => Err(EditFault::Unpublished(name)),
            }
        }
    };
    match named {
        Ok((name, version)) => Ok(
            (
                match o.rename {
                    Some(r) => r@,
                    None => name,
                },
                name,
                version,
            ),
        ),
        Err(e) => Err(e),
    }
}

/// What a dependency is called, the name of its package, and the requirement on its version. `path_name`: the name of the
/// package at the path. `newest`: the requirement on the newest version in the registry.
pub fn dependency_to_add(o: &AddOptions, path_name: Option<&str>, newest: Option<&str>) -> (r: Result<
    (String, String, Option<String>),
    EditError,
>)
    ensures
        match added(*o, opt_text(path_name), opt_text(newest)) {
            Ok((key, name, version)) => r matches Ok(x) && x.0@ == key && x.1@ == name && opt_view(x.2) == version,
            Err(e) => r matches Err(x) && x@ == e,
        },
{
    let (name, version): (String, Option<String>) = if o.path.is_some() {
        match path_name {
            Some(n) => (n.to_owned(), None),
            None => {
                return Err(EditError::NoName);
            },
        }
    } else if o.deps.len() == 0 {
        return Err(
            if o.git.is_some() {
                EditError::GitWithoutName
            } else {
                EditError::NoDependency
            },
        );
    } else {
        let (name, version) = split_dep(o.deps[0].as_str());
        if o.git.is_some() || version.is_some() {
            (name, version)
        } else {
            match newest {
                Some(v) => (name, Some(v.to_owned())),
                None => {
                    return Err(EditError::Unpublished(name));
                },
            }
        }
    };
    let key: String = match &o.rename {
        Some(k) => k.clone(),
        None => name.clone(),
    };
    Ok((key, name, version))
}

/// Whether dependencies can be removed.
pub fn check_remove(dev: bool, build: bool) -> (r: Result<(), EditError>)
    ensures
        if dev && build {
            r matches Err(x) && x@ == EditFault::DevAndBuild
        } else {
            r.is_ok()
        },
{
    if dev && build {
        Err(EditError::DevAndBuild)
    } else {
        Ok(())
    }
}

/// The way from one directory to another, which may be relative already. Both are without links.
pub open spec fn path_from(from: Seq<char>, to: Seq<char>) -> Seq<char> {
    if !absolute(to) {
        to
    } else {
        joined(way(parts(from), parts(to)), "/"@)
    }
}

/// The way from one directory to another, which may be relative already. Both are without links.
pub fn relative_path(from: &str, to: &str) -> (r: String)
    requires
        absolute(from@),
    ensures
        r@ == path_from(from@, to@),
{
    if !is_absolute(to) {
        return to.to_owned();
    }
    join(&list_way(from, to), "/")
}

/// A directory, where the path may name the manifest in it.
pub open spec fn package_dir(p: Seq<char>) -> Seq<char> {
    if parts(p).len() > 0 && parts(p).last() == "Cargo.toml"@ && up(p).is_some() {
        up(p).unwrap()
    } else {
        p
    }
}

/// A directory, where the path may name the manifest in it.
pub fn dir_of_package(p: &str) -> (r: String)
    ensures
        r@ == package_dir(p@),
{
    let ps = list_parts(p);
    let ghost pv = parts(p@);
    assert(pv.len() == ps@.len());
    if ps.len() > 0 {
        let k: usize = ps.len() - 1;
        assert(pv[k as int] == ps@[k as int]@);
        if same(ps[k].as_str(), "Cargo.toml") {
            if let Some(d) = parent(p) {
                return d;
            }
        }
    }
    p.to_owned()
}

/// A field of an inline table.
pub open spec fn quoted_field(name: Seq<char>, value: Seq<char>) -> Seq<char> {
    name + " = \""@ + value + "\""@
}

pub open spec fn with_field(l: Seq<Seq<char>>, name: Seq<char>, o: Option<Seq<char>>) -> Seq<Seq<char>> {
    match o {
        Some(v) => l.push(quoted_field(name, v)),
        None => l,
    }
}

/// The parts of a list of features that are not empty, in quotes, of the first `k`.
pub open spec fn feature_words(ps: Seq<Seq<char>>, k: int) -> Seq<Seq<char>>
    decreases k,
{
    if k <= 0 || k > ps.len() {
        Seq::empty()
    } else if ps[k - 1].len() > 0 {
        feature_words(ps, k - 1).push("\""@ + ps[k - 1] + "\""@)
    } else {
        feature_words(ps, k - 1)
    }
}

/// The features of the first `n` arguments, which separate them by commas or blanks.
pub open spec fn features_upto(l: Seq<Seq<char>>, n: int) -> Seq<Seq<char>>
    decreases n,
{
    if n <= 0 || n > l.len() {
        Seq::empty()
    } else {
        let ps = pieces(swapped(l[n - 1], ' ', ','), ',');
        features_upto(l, n - 1) + feature_words(ps, ps.len() as int)
    }
}

/// The fields of a dependency.
pub open spec fn dep_fields(o: AddOptions, key: Seq<char>, package: Seq<char>, version: Option<Seq<char>>, dir: Seq<char>) -> Seq<Seq<char>> {
    let a = with_field(
        Seq::empty(),
        "package"@,
        if key != package {
            Some(package)
        } else {
            None
        },
    );
    let b = with_field(a, "version"@, version);
    let c = with_field(
        b,
        "path"@,
        match o.path {
            Some(p) => Some(path_from(dir, package_dir(p@))),
            None => None,
        },
    );
    let d = with_field(with_field(c, "git"@, opt_view(o.git)), "branch"@, opt_view(o.branch));
    let e = with_field(with_field(d, "tag"@, opt_view(o.tag)), "rev"@, opt_view(o.rev));
    let fs = features_upto(views(o.features@), o.features@.len() as int);
    let f = if fs.len() > 0 {
        e.push("features = ["@ + joined(fs, ", "@) + "]"@)
    } else {
        e
    };
    let g = if o.no_default_features {
        f.push("default-features = false"@)
    } else {
        f
    };
    if o.optional {
        g.push("optional = true"@)
    } else {
        g
    }
}

/// The line of a dependency: a bare version where there is nothing else to say.
pub open spec fn line_of(o: AddOptions, key: Seq<char>, package: Seq<char>, version: Option<Seq<char>>, dir: Seq<char>) -> Seq<char> {
    let fs = dep_fields(o, key, package, version, dir);
    if fs.len() == 1 && key == package && version.is_some() {
        key + " = \""@ + version.unwrap() + "\""@
    } else {
        key + " = { "@ + joined(fs, ", "@) + " }"@
    }
}

fn add_field(l: &mut Vec<String>, name: &str, o: Option<&str>)
    ensures
        views(final(l)@) == with_field(views(old(l)@), name@, opt_text(o)),
{
    if let Some(v) = o {
        let ghost was = l@;
        let f = crate::text::cat4(name, " = \"", v, "\"");
        let ghost fv = f@;
        l.push(f);
        assert(views(l@) =~= views(was).push(fv));
    }
}

fn as_text<'a>(o: &'a Option<String>) -> (r: Option<&'a str>)
    ensures
        opt_text(r) == opt_view(*o),
{
    match o {
        Some(s) => Some(s.as_str()),
        None => None,
    }
}

fn list_features(l: &Vec<String>) -> (r: Vec<String>)
    ensures
        views(r@) == features_upto(views(l@), l@.len() as int),
{
    let ghost lv = views(l@);
    let mut out: Vec<String> = Vec::new();
    let mut n: usize = 0;
    assert(views(out@) =~= Seq::<Seq<char>>::empty());
    while n < l.len()
        invariant
            n <= l@.len(),
            lv == views(l@),
            views(out@) == features_upto(lv, n as int),
        decreases l@.len() - n,
    {
        assert(lv[n as int] == l@[n as int]@);
        let ps = split(replace_char(l[n].as_str(), ' ', ',').as_str(), ',');
        let ghost pv = views(ps@);
        let ghost start = views(out@);
        let mut k: usize = 0;
        assert(start + feature_words(pv, 0) =~= start);
        while k < ps.len()
            invariant
                k <= ps@.len(),
                pv == views(ps@),
                views(out@) == start + feature_words(pv, k as int),
            decreases ps@.len() - k,
        {
            assert(pv[k as int] == ps@[k as int]@);
            if !ps[k].as_str().is_empty() {
                let ghost was = out@;
                let w = cat3("\"", ps[k].as_str(), "\"");
                let ghost wv = w@;
                out.push(w);
                assert(views(out@) =~= views(was).push(wv));
            }
            k += 1;
            assert(views(out@) =~= start + feature_words(pv, k as int));
        }
        assert(pv.len() == ps@.len());
        n += 1;
    }
    out
}

/// The line of a dependency: a bare version where there is nothing else to say. `dir` is the directory of the manifest.
pub fn dep_line(o: &AddOptions, key: &str, package: &str, version: Option<&str>, dir: &str) -> (r: String)
    requires
        absolute(dir@),
    ensures
        r@ == line_of(*o, key@, package@, opt_text(version), dir@),
{
    let mut fs: Vec<String> = Vec::new();
    assert(views(fs@) =~= Seq::<Seq<char>>::empty());
    let renamed: bool = !same(key, package);
    add_field(&mut fs, "package", if renamed {
        Some(package)
    } else {
        None
    });
    add_field(&mut fs, "version", version);
    let at: Option<String> = match &o.path {
        Some(p) => Some(relative_path(dir, dir_of_package(p.as_str()).as_str())),
        None => None,
    };
    add_field(&mut fs, "path", as_text(&at));
    add_field(&mut fs, "git", as_text(&o.git));
    add_field(&mut fs, "branch", as_text(&o.branch));
    add_field(&mut fs, "tag", as_text(&o.tag));
    add_field(&mut fs, "rev", as_text(&o.rev));
    let features = list_features(&o.features);
    assert(views(features@).len() == features@.len());
    if features.len() > 0 {
        let ghost was = fs@;
        let f = cat3("features = [", join(&features, ", ").as_str(), "]");
        let ghost fv = f@;
        fs.push(f);
        assert(views(fs@) =~= views(was).push(fv));
    }
    if o.no_default_features {
        let ghost was = fs@;
        fs.push("default-features = false".to_owned());
        assert(views(fs@) =~= views(was).push("default-features = false"@));
    }
    if o.optional {
        let ghost was = fs@;
        fs.push("optional = true".to_owned());
        assert(views(fs@) =~= views(was).push("optional = true"@));
    }
    assert(views(fs@) == dep_fields(*o, key@, package@, opt_text(version), dir@));
    assert(views(fs@).len() == fs@.len());
    if fs.len() == 1 && !renamed {
        if let Some(v) = version {
            return crate::text::cat4(key, " = \"", v, "\"");
        }
    }
    crate::text::cat4(key, " = { ", join(&fs, ", ").as_str(), " }")
}

/// The manifest without the first `k` dependencies, or the first that the section does not have.
pub open spec fn without_all(text: Seq<char>, section: Seq<char>, deps: Seq<Seq<char>>, k: int) -> Result<Seq<char>, EditFault>
    decreases k,
{
    if k <= 0 || k > deps.len() {
        Ok(text)
    } else {
        match without_all(text, section, deps, k - 1) {
            Err(e) => Err(e),
            Ok(t) => match without_key(t, section, deps[k - 1]) {
                Some(u) => Ok(u),
                None => Err(EditFault::NotThere(deps[k - 1])),
            },
        }
    }
}

proof fn lemma_without_error(text: Seq<char>, section: Seq<char>, deps: Seq<Seq<char>>, a: int, b: int)
    requires
        0 <= a <= b <= deps.len(),
        without_all(text, section, deps, a).is_err(),
    ensures
        without_all(text, section, deps, b) == without_all(text, section, deps, a),
    decreases b - a,
{
    if a < b {
        lemma_without_error(text, section, deps, a, b - 1);
    }
}

/// The manifest without some dependencies.
pub fn remove(text: &str, section: &str, deps: &Vec<String>) -> (r: Result<String, EditError>)
    ensures
        match without_all(text@, section@, views(deps@), deps@.len() as int) {
            Ok(t) => r matches Ok(x) && x@ == t,
            Err(e) => r matches Err(x) && x@ == e,
        },
{
    let ghost dv = views(deps@);
    let mut out = text.to_owned();
    let mut k: usize = 0;
    while k < deps.len()
        invariant
            k <= deps@.len(),
            dv == views(deps@),
            without_all(text@, section@, dv, k as int) == Ok::<_, EditFault>(out@),
        decreases deps@.len() - k,
    {
        assert(dv[k as int] == deps@[k as int]@);
        match remove_dependency(out.as_str(), section, deps[k].as_str()) {
            Some(t) => {
                out = t;
            },
            None => {
                proof {
                    lemma_without_error(text@, section@, dv, k + 1, dv.len() as int);
                }
                return Err(EditError::NotThere(deps[k].clone()));
            },
        }
        k += 1;
    }
    assert(dv.len() == deps@.len());
    Ok(out)
}

// ---------------------------------------------------------------------------
// New packages.

/// Why no package is made.
#[derive(Debug)]
pub enum ScaffoldError {
    Edition(String),
    Name(String),
    Vcs(String),
}

pub enum ScaffoldFault {
    Edition(Seq<char>),
    Name(Seq<char>),
    Vcs(Seq<char>),
}

impl View for ScaffoldError {
    type V = ScaffoldFault;

    open spec fn view(&self) -> ScaffoldFault {
        match self {
            ScaffoldError::Edition(s) => ScaffoldFault::Edition(s@),
            ScaffoldError::Name(s) => ScaffoldFault::Name(s@),
            ScaffoldError::Vcs(s) => ScaffoldFault::Vcs(s@),
        }
    }
}

pub open spec fn known_edition(e: Seq<char>) -> bool {
    e == "2015"@ || e == "2018"@ || e == "2021"@ || e == "2024"@
}

pub open spec fn good_name(n: Seq<char>) -> bool {
    n.len() > 0 && forall|i: int| 0 <= i < n.len() ==> alnum(#[trigger] n[i]) || n[i] == '-' || n[i] == '_'
}

/// What a new package is called: as asked, or like its directory.
pub open spec fn name_for(path: Seq<char>, name: Option<Seq<char>>) -> Seq<char> {
    match name {
        Some(n) => n,
        None => match base_name(path) {
            Some(b) => swapped(b, '_', '-'),
            None => "app"@,
        },
    }
}

pub open spec fn new_manifest(name: Seq<char>, edition: Seq<char>) -> Seq<char> {
    "[package]\nname = \""@ + name + "\"\nversion = \"0.1.0\"\nedition = \""@ + edition + "\"\n\n[dependencies]\n"@
}

/// A new package.
#[derive(Debug)]
pub struct Scaffold {
    pub name: String,
    pub manifest: String,
    /// Its source file, from the root of the package, and what it holds.
    pub source: &'static str,
    pub code: &'static str,
}

pub const LIB_CODE: &'static str = "pub fn add(left: u64, right: u64) -> u64 {\n    left + right\n}\n\n#[cfg(test)]\nmod tests {\n    use super::*;\n\n    #[test]\n    fn it_works() {\n        let result = add(2, 2);\n        assert_eq!(result, 4);\n    }\n}\n";

pub const BIN_CODE: &'static str = "fn main() {\n    println!(\"Hello, world!\");\n}\n";

/// What is wrong with a request for a package, where the files can be written before the last of it is found.
pub open spec fn scaffold_fault(edition: Seq<char>, name: Seq<char>) -> Option<ScaffoldFault> {
    if !known_edition(edition) {
        Some(ScaffoldFault::Edition(edition))
    } else if !good_name(name) {
        Some(ScaffoldFault::Name(name))
    } else {
        None
    }
}

pub open spec fn edition_or(e: Option<Seq<char>>) -> Seq<char> {
    match e {
        Some(e) => e,
        None => "2024"@,
    }
}

fn is_good_name(n: &str) -> (r: bool)
    ensures
        r == good_name(n@),
{
    let cs = chars_of(n);
    let mut k: usize = 0;
    while k < cs.len()
        invariant
            k <= cs@.len(),
            cs@ == n@,
            forall|i: int| 0 <= i < k ==> alnum(#[trigger] n@[i]) || n@[i] == '-' || n@[i] == '_',
        decreases cs@.len() - k,
    {
        let c = cs[k];
        if !is_alnum(c) && c != '-' && c != '_' {
            assert(!(alnum(n@[k as int]) || n@[k as int] == '-' || n@[k as int] == '_'));
            return false;
        }
        k += 1;
    }
    cs.len() > 0
}

/// The files of a new package in an empty directory.
pub fn scaffold(path: &str, lib: bool, edition: Option<&str>, name: Option<&str>) -> (r: Result<Scaffold, ScaffoldError>)
    ensures
        ({
            let e = edition_or(opt_text(edition));
            let n = name_for(path@, opt_text(name));
            match scaffold_fault(e, n) {
                Some(f) => r matches Err(x) && x@ == f,
                None => r matches Ok(s) && s.name@ == n && s.manifest@ == new_manifest(n, e) && s.source@ == (if lib {
                    "src/lib.rs"@
                } else {
                    "src/main.rs"@
                }) && s.code@ == (if lib {
                    LIB_CODE@
                } else {
                    BIN_CODE@
                }),
            }
        }),
{
    let e: &str = match edition {
        Some(e) => e,
        None => "2024",
    };
    if !same(e, "2015") && !same(e, "2018") && !same(e, "2021") && !same(e, "2024") {
        return Err(ScaffoldError::Edition(e.to_owned()));
    }
    let n: String = match name {
        Some(n) => n.to_owned(),
        None => match file_name(path) {
            Some(b) => replace_char(b.as_str(), '_', '-'),
            None => "app".to_owned(),
        },
    };
    if !is_good_name(n.as_str()) {
        return Err(ScaffoldError::Name(n));
    }
    let manifest = cat5(
        "[package]\nname = \"",
        n.as_str(),
        "\"\nversion = \"0.1.0\"\nedition = \"",
        e,
        "\"\n\n[dependencies]\n",
    );
    Ok(
        Scaffold {
            name: n,
            manifest,
            source: if lib {
                "src/lib.rs"
            } else {
                "src/main.rs"
            },
            code: if lib {
                LIB_CODE
            } else {
                BIN_CODE
            },
        },
    )
}

/// Whether a repository is made: by default, but not where none is asked for.
pub fn makes_repository(vcs: Option<&str>) -> (r: Result<bool, ScaffoldError>)
    ensures
        match opt_text(vcs) {
            None => r == Ok::<bool, ScaffoldError>(true),
            Some(v) => if v == "none"@ {
                r == Ok::<bool, ScaffoldError>(false)
            } else if v == "git"@ {
                r == Ok::<bool, ScaffoldError>(true)
            } else {
                r matches Err(x) && x@ == ScaffoldFault::Vcs(v)
            },
        },
{
    proof {
        reveal_strlit("none");
        reveal_strlit("git");
        assert("none"@.len() != "git"@.len());
    }
    match vcs {
        None => Ok(true),
        Some(v) => if same(v, "none") {
            Ok(false)
        } else if same(v, "git") {
            Ok(true)
        } else {
            Err(ScaffoldError::Vcs(v.to_owned()))
        },
    }
}

// ---------------------------------------------------------------------------
// What a package file holds.

/// The text fits the pattern; nothing fits one that is malformed.
pub uninterp spec fn glob_fits(pattern: Seq<char>, text: Seq<char>) -> bool;

/// `glob::Pattern::new` and `Pattern::matches`: whether the whole text fits the pattern, a function of the two. A
/// pattern that cannot be read fits nothing.
#[verifier::external_body]
fn fits_glob(pattern: &str, text: &str) -> (r: bool)
    ensures
        r == glob_fits(pattern@, text@),
{
    glob::Pattern::new(pattern).is_ok_and(|p| p.matches(text))
}

/// The last part of a path with slashes.
pub open spec fn last_part(rel: Seq<char>) -> Seq<char> {
    match crate::text::split_last(rel, '/') {
        Some((_, l)) => l,
        None => rel,
    }
}

/// One of the patterns fits the path, or its last part.
pub open spec fn fits_any(rel: Seq<char>, patterns: Seq<Seq<char>>) -> bool {
    exists|i: int| 0 <= i < patterns.len() && (glob_fits(#[trigger] patterns[i], rel) || glob_fits(patterns[i], last_part(rel)))
}

/// The file belongs into the package: the manifest and the lockfile always do.
pub open spec fn packaged(rel: Seq<char>, included: Seq<Seq<char>>, excluded: Seq<Seq<char>>) -> bool {
    rel == "Cargo.toml"@ || rel == "Cargo.lock"@ || ((included.len() == 0 || fits_any(rel, included)) && !fits_any(rel, excluded))
}

fn fits_one(rel: &str, patterns: &Vec<String>) -> (r: bool)
    ensures
        r == fits_any(rel@, views(patterns@)),
{
    let last: &str = match crate::text::rsplit_once(rel, '/') {
        Some((_, l)) => l,
        None => rel,
    };
    let ghost pv = views(patterns@);
    let mut k: usize = 0;
    while k < patterns.len()
        invariant
            k <= patterns@.len(),
            pv == views(patterns@),
            last@ == last_part(rel@),
            forall|i: int| 0 <= i < k ==> !glob_fits(#[trigger] pv[i], rel@) && !glob_fits(pv[i], last_part(rel@)),
        decreases patterns@.len() - k,
    {
        assert(pv[k as int] == patterns@[k as int]@);
        let p = patterns[k].as_str();
        if fits_glob(p, rel) || fits_glob(p, last) {
            assert(glob_fits(pv[k as int], rel@) || glob_fits(pv[k as int], last_part(rel@)));
            return true;
        }
        k += 1;
    }
    assert(pv.len() == patterns@.len());
    false
}

/// The patterns under a key of the package; what is no text is left out.
pub open spec fn patterns_in(t: Entries, key: Seq<char>) -> Seq<Seq<char>> {
    match at(t, "package"@) {
        Some(p) => match strings_of(field(p, key)) {
            Some(l) => l,
            None => Seq::empty(),
        },
        None => Seq::empty(),
    }
}

/// The patterns of the files that a package has, `include`, or does not have, `exclude`.
pub fn patterns(manifest: &Vec<(String, Toml)>, key: &str) -> (r: Vec<String>)
    ensures
        views(r@) == patterns_in(toml_entries(manifest@), key@),
{
    if let Some(p) = get(manifest, "package") {
        if let Some(v) = p.get(key) {
            if let Some(l) = v.as_array() {
                return strings(l);
            }
        }
    }
    let none: Vec<String> = Vec::new();
    assert(views(none@) =~= Seq::<Seq<char>>::empty());
    none
}

/// Whether a file belongs into the package. The path is from the root of the package, with slashes.
pub fn package_file(rel: &str, included: &Vec<String>, excluded: &Vec<String>) -> (r: bool)
    ensures
        r == packaged(rel@, views(included@), views(excluded@)),
{
    assert(views(included@).len() == included@.len());
    if same(rel, "Cargo.toml") || same(rel, "Cargo.lock") {
        return true;
    }
    (included.len() == 0 || fits_one(rel, included)) && !fits_one(rel, excluded)
}

} // verus!
