//! The sparse index, and where `.crate` files come from and go.

use vstd::prelude::*;
use vstd::utf8::encode_utf8;
use crate::cfgexpr::PlatformExpr;
use crate::cfgexpr::PlatformTree;
use crate::cfgexpr::read_platform;
use crate::cfgexpr::width;
use crate::hash::add_text;
use crate::hash::blake3_of;
use crate::hash::hash;
use crate::hash::hex_of;
use crate::hash::lemma_hex_len;
use crate::hash::to_hex;
use crate::json::Json;
use crate::json::JsonTree;
use crate::json::json_of;
use crate::json::json_trees;
use crate::json::maybe_flag;
use crate::json::maybe_list;
use crate::json::maybe_lists;
use crate::json::maybe_text;
use crate::json::member;
use crate::json::read_flag;
use crate::json::read_json;
use crate::json::read_list;
use crate::json::read_lists;
use crate::json::read_maybe;
use crate::json::text_at;
use crate::json::text_in;
use crate::json::tree_of;
use crate::manifest::CRATES_IO;
use crate::manifest::DepDecl;
use crate::manifest::DepDeclView;
use crate::manifest::DepKind;
use crate::manifest::DepSource;
use crate::manifest::DepSourceView;
use crate::manifest::FeatureMap;
use crate::manifest::feature_lists;
use crate::manifest::features_with_implicit;
use crate::manifest::with_implicit;
use crate::path::join;
use crate::path::under;
use crate::path::with_extension;
use crate::path::with_suffix;
use crate::resolve::trim_slashes;
use crate::resolve::without_slashes;
use crate::strmap::StrMap;
use crate::text::alnum;
use crate::text::ascii_lower;
use crate::text::cat3;
use crate::text::cat4;
use crate::text::cat5;
use crate::text::cat;
use crate::text::chars_of;
use crate::text::contains;
use crate::text::holds;
use crate::text::is_alnum;
use crate::text::lines;
use crate::text::lines_of;
use crate::text::lowercase;
use crate::text::matches_at;
use crate::text::occurs_at;
use crate::text::opt_view;
use crate::text::push_char;
use crate::text::replace;
use crate::text::replace_char;
use crate::text::replaced;
use crate::text::rsplit_once;
use crate::text::same;
use crate::text::same_but_case;
use crate::text::split_first;
use crate::text::split_last;
use crate::text::split_once;
use crate::text::starts;
use crate::text::starts_with;
use crate::text::string_of;
use crate::text::strip_prefix;
use crate::text::swapped;
use crate::text::to_lower;
use crate::text::trim;
use crate::text::trimmed;
use crate::text::views;
use crate::text::words;
use crate::text::words_of;
use crate::version::Version;
use crate::version::VersionReq;
use crate::version::VersionView;
use crate::version::is_older;
use crate::version::lemma_newest;
use crate::version::meets;
use crate::version::newest_upto;
use crate::version::none_newer;
use crate::version::older;
use crate::version::req_of;
use crate::version::version_of;
use crate::version::version_text;

verus! {

// ---------------------------------------------------------------------------
// Entries of the index.

#[derive(Debug)]
pub struct IndexEntry {
    pub name: String,
    pub vers: Version,
    pub deps: Vec<DepDecl>,
    pub cksum: String,
    pub features: StrMap<Vec<String>>,
    pub yanked: bool,
    pub links: Option<String>,
    pub rust_version: Option<Version>,
}

/// The model of an entry.
pub struct IndexEntryView {
    pub name: Seq<char>,
    pub vers: VersionView,
    pub deps: Seq<DepDeclView>,
    pub cksum: Seq<char>,
    pub features: FeatureMap,
    pub yanked: bool,
    pub links: Option<Seq<char>>,
    pub rust_version: Option<VersionView>,
}

impl View for IndexEntry {
    type V = IndexEntryView;

    open spec fn view(&self) -> IndexEntryView {
        IndexEntryView {
            name: self.name@,
            vers: self.vers@,
            deps: views(self.deps@),
            cksum: self.cksum@,
            features: feature_lists(self.features@),
            yanked: self.yanked,
            links: opt_view(self.links),
            rust_version: opt_view(self.rust_version),
        }
    }
}

/// A dependency as a line of the index has it.
#[derive(Debug)]
pub struct RawDep {
    pub name: String,
    pub req: String,
    pub features: Vec<String>,
    pub optional: bool,
    pub default_features: bool,
    pub target: Option<String>,
    pub kind: Option<String>,
    pub registry: Option<String>,
    pub package: Option<String>,
}

pub struct RawDepView {
    pub name: Seq<char>,
    pub req: Seq<char>,
    pub features: Seq<Seq<char>>,
    pub optional: bool,
    pub default_features: bool,
    pub target: Option<Seq<char>>,
    pub kind: Option<Seq<char>>,
    pub registry: Option<Seq<char>>,
    pub package: Option<Seq<char>>,
}

impl View for RawDep {
    type V = RawDepView;

    open spec fn view(&self) -> RawDepView {
        RawDepView {
            name: self.name@,
            req: self.req@,
            features: views(self.features@),
            optional: self.optional,
            default_features: self.default_features,
            target: opt_view(self.target),
            kind: opt_view(self.kind),
            registry: opt_view(self.registry),
            package: opt_view(self.package),
        }
    }
}

/// A line of the index.
#[derive(Debug)]
pub struct RawEntry {
    pub name: String,
    pub vers: String,
    pub deps: Vec<RawDep>,
    pub cksum: String,
    pub features: StrMap<Vec<String>>,
    pub features2: StrMap<Vec<String>>,
    pub yanked: bool,
    pub links: Option<String>,
    pub rust_version: Option<String>,
}

pub struct RawEntryView {
    pub name: Seq<char>,
    pub vers: Seq<char>,
    pub deps: Seq<RawDepView>,
    pub cksum: Seq<char>,
    pub features: FeatureMap,
    pub features2: FeatureMap,
    pub yanked: bool,
    pub links: Option<Seq<char>>,
    pub rust_version: Option<Seq<char>>,
}

impl View for RawEntry {
    type V = RawEntryView;

    open spec fn view(&self) -> RawEntryView {
        RawEntryView {
            name: self.name@,
            vers: self.vers@,
            deps: views(self.deps@),
            cksum: self.cksum@,
            features: feature_lists(self.features@),
            features2: feature_lists(self.features2@),
            yanked: self.yanked,
            links: opt_view(self.links),
            rust_version: opt_view(self.rust_version),
        }
    }
}

pub open spec fn raw_dep(j: JsonTree) -> Option<RawDepView> {
    match (
        text_in(member(j, "name"@)),
        text_in(member(j, "req"@)),
        maybe_list(member(j, "features"@)),
        maybe_flag(member(j, "optional"@), false),
        maybe_flag(member(j, "default_features"@), true),
        maybe_text(member(j, "target"@)),
        maybe_text(member(j, "kind"@)),
        maybe_text(member(j, "registry"@)),
        maybe_text(member(j, "package"@)),
    ) {
        (
            Some(name),
            Some(req),
            Some(features),
            Some(optional),
            Some(default_features),
            Some(target),
            Some(kind),
            Some(registry),
            Some(package),
        ) => Some(
            RawDepView { name, req, features, optional, default_features, target, kind, registry, package },
        ),
        _ => None,
    }
}

fn read_raw_dep(j: &Json) -> (r: Option<RawDep>)
    ensures
        opt_view(r) == raw_dep(j@),
{
    let name = match text_at(j, "name") {
        Some(s) => s.to_owned(),
        None => {
            return None;
        },
    };
    let req = match text_at(j, "req") {
        Some(s) => s.to_owned(),
        None => {
            return None;
        },
    };
    let features = match read_list(j.get("features")) {
        Some(l) => l,
        None => {
            return None;
        },
    };
    let optional = match read_flag(j.get("optional"), false) {
        Some(b) => b,
        None => {
            return None;
        },
    };
    let default_features = match read_flag(j.get("default_features"), true) {
        Some(b) => b,
        None => {
            return None;
        },
    };
    let target = match read_maybe(j.get("target")) {
        Some(o) => o,
        None => {
            return None;
        },
    };
    let kind = match read_maybe(j.get("kind")) {
        Some(o) => o,
        None => {
            return None;
        },
    };
    let registry = match read_maybe(j.get("registry")) {
        Some(o) => o,
        None => {
            return None;
        },
    };
    let package = match read_maybe(j.get("package")) {
        Some(o) => o,
        None => {
            return None;
        },
    };
    Some(RawDep { name, req, features, optional, default_features, target, kind, registry, package })
}

pub open spec fn raw_deps_upto(l: Seq<JsonTree>, n: int) -> Option<Seq<RawDepView>>
    decreases n,
{
    if n <= 0 || n > l.len() {
        Some(Seq::empty())
    } else {
        match (raw_deps_upto(l, n - 1), raw_dep(l[n - 1])) {
            (Some(ds), Some(d)) => Some(ds.push(d)),
            _ => None,
        }
    }
}

pub open spec fn raw_deps(o: Option<JsonTree>) -> Option<Seq<RawDepView>> {
    match o {
        None => Some(Seq::empty()),
        Some(JsonTree::Array(l)) => raw_deps_upto(l, l.len() as int),
        _ => None,
    }
}

proof fn lemma_raw_deps_none(l: Seq<JsonTree>, a: int, b: int)
    requires
        0 <= a <= b <= l.len(),
        raw_deps_upto(l, a).is_none(),
    ensures
        raw_deps_upto(l, b).is_none(),
    decreases b - a,
{
    if a < b {
        lemma_raw_deps_none(l, a, b - 1);
    }
}

fn read_raw_deps(o: Option<&Json>) -> (r: Option<Vec<RawDep>>)
    ensures
        match r {
            Some(v) => raw_deps(tree_of(o)) == Some(views(v@)),
            None => raw_deps(tree_of(o)).is_none(),
        },
{
    let mut out: Vec<RawDep> = Vec::new();
    assert(views(out@) =~= Seq::<RawDepView>::empty());
    match o {
        None => Some(out),
        Some(Json::Array(l)) => {
            let ghost all = json_trees(l@);
            assert(tree_of(o) == Some(JsonTree::Array(all)));
            let mut k: usize = 0;
            while k < l.len()
                invariant
                    k <= l@.len(),
                    all == json_trees(l@),
                    tree_of(o) == Some(JsonTree::Array(all)),
                    raw_deps_upto(all, k as int) == Some(views(out@)),
                decreases l@.len() - k,
            {
                assert(all[k as int] == l@[k as int]@);
                let ghost was = out@;
                match read_raw_dep(&l[k]) {
                    Some(d) => {
                        out.push(d);
                        assert(views(out@) =~= views(was).push(d@));
                    },
                    None => {
                        proof {
                            lemma_raw_deps_none(all, k + 1, all.len() as int);
                        }
                        return None;
                    },
                }
                k += 1;
            }
            Some(out)
        },
        _ => None,
    }
}

/// The entry that a value of the index stands for, field by field.
pub open spec fn raw_entry(j: JsonTree) -> Option<RawEntryView> {
    match (
        text_in(member(j, "name"@)),
        text_in(member(j, "vers"@)),
        raw_deps(member(j, "deps"@)),
        text_in(member(j, "cksum"@)),
        maybe_lists(member(j, "features"@)),
        maybe_lists(member(j, "features2"@)),
        maybe_flag(member(j, "yanked"@), false),
        maybe_text(member(j, "links"@)),
        maybe_text(member(j, "rust_version"@)),
    ) {
        (
            Some(name),
            Some(vers),
            Some(deps),
            Some(cksum),
            Some(features),
            Some(features2),
            Some(yanked),
            Some(links),
            Some(rust_version),
        ) => Some(RawEntryView { name, vers, deps, cksum, features, features2, yanked, links, rust_version }),
        _ => None,
    }
}

fn read_raw_entry(j: &Json) -> (r: Option<RawEntry>)
    ensures
        opt_view(r) == raw_entry(j@),
{
    let name = match text_at(j, "name") {
        Some(s) => s.to_owned(),
        None => {
            return None;
        },
    };
    let vers = match text_at(j, "vers") {
        Some(s) => s.to_owned(),
        None => {
            return None;
        },
    };
    let deps = match read_raw_deps(j.get("deps")) {
        Some(l) => l,
        None => {
            return None;
        },
    };
    let cksum = match text_at(j, "cksum") {
        Some(s) => s.to_owned(),
        None => {
            return None;
        },
    };
    let features = match read_lists(j.get("features")) {
        Some(m) => m,
        None => {
            return None;
        },
    };
    let features2 = match read_lists(j.get("features2")) {
        Some(m) => m,
        None => {
            return None;
        },
    };
    let yanked = match read_flag(j.get("yanked"), false) {
        Some(b) => b,
        None => {
            return None;
        },
    };
    let links = match read_maybe(j.get("links")) {
        Some(o) => o,
        None => {
            return None;
        },
    };
    let rust_version = match read_maybe(j.get("rust_version")) {
        Some(o) => o,
        None => {
            return None;
        },
    };
    Some(RawEntry { name, vers, deps, cksum, features, features2, yanked, links, rust_version })
}

/// The source id of a registry that an entry names by the URL of its index.
pub open spec fn url_source(url: Seq<char>) -> Seq<char> {
    let u = without_slashes(url);
    if u == "https://github.com/rust-lang/crates.io-index"@ || u == "https://index.crates.io"@ || u
        == "sparse+https://index.crates.io"@ {
        CRATES_IO@
    } else if starts(u, "sparse+"@) || starts(u, "registry+"@) {
        u + "/"@
    } else {
        "registry+"@ + u
    }
}

fn source_for_index_url(url: &str) -> (r: String)
    ensures
        r@ == url_source(url@),
{
    let u = trim_slashes(url);
    if same(u, "https://github.com/rust-lang/crates.io-index") || same(u, "https://index.crates.io") || same(
        u,
        "sparse+https://index.crates.io",
    ) {
        CRATES_IO.to_owned()
    } else if starts_with(u, "sparse+") || starts_with(u, "registry+") {
        cat(u, "/")
    } else {
        cat("registry+", u)
    }
}

/// Why a line of the index cannot be used.
#[derive(Debug)]
pub enum EntryError {
    /// It is no record with the fields of an entry.
    Malformed,
    /// A requirement that cannot be read, and the package that it is for.
    Requirement(String, String),
    /// A platform that cannot be read.
    Platform(String),
    /// A version that cannot be read.
    Version(String),
}

pub enum EntryFault {
    Malformed,
    Requirement(Seq<char>, Seq<char>),
    Platform(Seq<char>),
    Version(Seq<char>),
}

impl View for EntryError {
    type V = EntryFault;

    open spec fn view(&self) -> EntryFault {
        match self {
            EntryError::Malformed => EntryFault::Malformed,
            EntryError::Requirement(a, b) => EntryFault::Requirement(a@, b@),
            EntryError::Platform(a) => EntryFault::Platform(a@),
            EntryError::Version(a) => EntryFault::Version(a@),
        }
    }
}

pub open spec fn seen_as<T: View>(r: Result<T, EntryError>) -> Result<T::V, EntryFault> {
    match r {
        Ok(v) => Ok(v@),
        Err(e) => Err(e@),
    }
}

pub open spec fn kind_of(k: Option<Seq<char>>) -> DepKind {
    if k == Some("dev"@) {
        DepKind::Dev
    } else if k == Some("build"@) {
        DepKind::Build
    } else {
        DepKind::Normal
    }
}

pub open spec fn platform_of(o: Option<Seq<char>>) -> Result<Option<PlatformTree>, EntryFault> {
    match o {
        None => Ok(None),
        Some(s) => match read_platform(s) {
            Ok(p) => Ok(Some(p)),
            Err(_) => Err(EntryFault::Platform(s)),
        },
    }
}

/// The dependency that an entry declares, from the registry of the entry unless it names another.
pub open spec fn index_dep(d: RawDepView, source: Seq<char>) -> Result<DepDeclView, EntryFault> {
    let name = match d.package {
        Some(p) => p,
        None => d.name,
    };
    match req_of(d.req) {
        None => Err(EntryFault::Requirement(d.req, name)),
        Some(req) => match platform_of(d.target) {
            Err(e) => Err(e),
            Ok(platform) => Ok(
                DepDeclView {
                    name,
                    rename: match d.package {
                        Some(_) => Some(d.name),
                        None => None,
                    },
                    req,
                    source: DepSourceView::Registry(
                        match d.registry {
                            Some(u) => url_source(u),
                            None => source,
                        },
                    ),
                    kind: kind_of(d.kind),
                    optional: d.optional,
                    default_features: d.default_features,
                    features: d.features,
                    platform,
                },
            ),
        },
    }
}

fn read_kind(k: &Option<String>) -> (r: DepKind)
    ensures
        r == kind_of(opt_view(*k)),
{
    match k {
        Some(s) => if same(s.as_str(), "dev") {
            DepKind::Dev
        } else if same(s.as_str(), "build") {
            DepKind::Build
        } else {
            DepKind::Normal
        },
        None => DepKind::Normal,
    }
}

fn read_index_dep(d: RawDep, source: &str) -> (r: Result<DepDecl, EntryError>)
    ensures
        seen_as(r) == index_dep(d@, source@),
{
    let RawDep { name, req, features, optional, default_features, target, kind, registry, package } = d;
    let (name, rename) = match package {
        Some(p) => (p, Some(name)),
        None => (name, None),
    };
    let parsed = match VersionReq::parse(req.as_str()) {
        Some(q) => q,
        None => {
            return Err(EntryError::Requirement(req, name));
        },
    };
    let platform = match target {
        None => None,
        Some(s) => match PlatformExpr::parse(s.as_str()) {
            Ok(p) => Some(p),
            Err(_) => {
                return Err(EntryError::Platform(s));
            },
        },
    };
    let from = match registry {
        Some(u) => source_for_index_url(u.as_str()),
        None => source.to_owned(),
    };
    Ok(
        DepDecl {
            name,
            rename,
            req: parsed,
            source: DepSource::Registry(from),
            kind: read_kind(&kind),
            optional,
            default_features,
            features,
            platform,
        },
    )
}

pub open spec fn index_deps_upto(l: Seq<RawDepView>, source: Seq<char>, n: int) -> Result<Seq<DepDeclView>, EntryFault>
    decreases n,
{
    if n <= 0 || n > l.len() {
        Ok(Seq::empty())
    } else {
        match index_deps_upto(l, source, n - 1) {
            Err(e) => Err(e),
            Ok(ds) => match index_dep(l[n - 1], source) {
                Err(e) => Err(e),
                Ok(d) => Ok(ds.push(d)),
            },
        }
    }
}

proof fn lemma_index_deps_error(l: Seq<RawDepView>, source: Seq<char>, a: int, b: int)
    requires
        0 <= a <= b <= l.len(),
        index_deps_upto(l, source, a).is_err(),
    ensures
        index_deps_upto(l, source, b) == index_deps_upto(l, source, a),
    decreases b - a,
{
    if a < b {
        lemma_index_deps_error(l, source, a, b - 1);
    }
}

fn read_index_deps(l: Vec<RawDep>, source: &str) -> (r: Result<Vec<DepDecl>, EntryError>)
    ensures
        match index_deps_upto(views(l@), source@, l@.len() as int) {
            Ok(ds) => r matches Ok(v) && views(v@) == ds,
            Err(e) => r matches Err(x) && x@ == e,
        },
{
    let ghost all = views(l@);
    let mut rest = l;
    let mut out: Vec<DepDecl> = Vec::new();
    let ghost mut done: int = 0;
    assert(views(out@) =~= Seq::<DepDeclView>::empty());
    assert(all.skip(0) =~= all);
    while rest.len() > 0
        invariant
            0 <= done <= all.len(),
            all.len() == l@.len(),
            all == views(l@),
            views(rest@) == all.skip(done),
            index_deps_upto(all, source@, done) == Ok::<_, EntryFault>(views(out@)),
        decreases rest@.len(),
    {
        let ghost now = views(rest@);
        let ghost was = out@;
        assert(now.len() == rest@.len());
        assert(now[0] == all[done]);
        let d = rest.remove(0);
        assert(d@ == now[0]);
        assert(views(rest@) =~= now.skip(1));
        assert(now.skip(1) =~= all.skip(done + 1));
        match read_index_dep(d, source) {
            Ok(x) => {
                out.push(x);
                assert(views(out@) =~= views(was).push(x@));
            },
            Err(e) => {
                proof {
                    lemma_index_deps_error(all, source@, done + 1, all.len() as int);
                }
                return Err(e);
            },
        }
        proof {
            done = done + 1;
        }
    }
    assert(views(rest@).len() == rest@.len());
    assert(done == all.len());
    Ok(out)
}

/// The version of the compiler that a text like `1.70` asks for. Without a patch number it is 0.
pub open spec fn rust_version_of(v: Seq<char>) -> Option<VersionView> {
    match split_first(v, '.') {
        Some((_, rest)) => if rest.contains('.') {
            version_of(v)
        } else {
            version_of(v + ".0"@)
        },
        None => version_of(v),
    }
}

fn read_rust_version(v: &str) -> (r: Option<Version>)
    ensures
        opt_view(r) == rust_version_of(v@),
{
    match split_once(v, '.') {
        Some((_, rest)) => if crate::text::has_char(rest, '.') {
            Version::parse(v)
        } else {
            Version::parse(cat(v, ".0").as_str())
        },
        None => Version::parse(v),
    }
}

/// The entry of the index that a record stands for.
pub open spec fn entry_of(e: RawEntryView, source: Seq<char>) -> Result<IndexEntryView, EntryFault> {
    match index_deps_upto(e.deps, source, e.deps.len() as int) {
        Err(x) => Err(x),
        Ok(deps) => match version_of(e.vers) {
            None => Err(EntryFault::Version(e.vers)),
            Some(vers) => Ok(
                IndexEntryView {
                    name: e.name,
                    vers,
                    deps,
                    cksum: e.cksum,
                    features: with_implicit(e.features.union_prefer_right(e.features2), deps),
                    yanked: e.yanked,
                    links: e.links,
                    rust_version: match e.rust_version {
                        Some(v) => rust_version_of(v),
                        None => None,
                    },
                },
            ),
        },
    }
}

fn extend(a: StrMap<Vec<String>>, b: &StrMap<Vec<String>>) -> (r: StrMap<Vec<String>>)
    ensures
        feature_lists(r@) == feature_lists(a@).union_prefer_right(feature_lists(b@)),
{
    let ghost start = a@;
    let mut out = a;
    let names = b.keys();
    let ghost nv = views(names@);
    let mut k: usize = 0;
    while k < names.len()
        invariant
            k <= names@.len(),
            nv == views(names@),
            nv.to_set() == b@.dom(),
            forall|x: Seq<char>| #[trigger] out@.contains_key(x) == (start.contains_key(x) || nv.take(k as int).contains(x)),
            forall|x: Seq<char>|
                #![trigger out@[x]]
                out@.contains_key(x) ==> views(out@[x]@) == (if nv.take(k as int).contains(x) {
                    views(b@[x]@)
                } else {
                    views(start[x]@)
                }),
        decreases names@.len() - k,
    {
        let name = names[k].as_str();
        let ghost x = nv.take(k as int);
        let ghost y = nv.take(k + 1);
        assert(nv[k as int] == name@);
        assert(nv.contains(name@));
        assert(b@.dom().contains(name@));
        assert(y =~= x.push(name@));
        assert forall|z: Seq<char>| #[trigger] y.contains(z) == (x.contains(z) || z == name@) by {
            if x.contains(z) {
                let i = x.index_of(z);
                assert(y[i] == z);
            }
            assert(y[k as int] == name@);
        }
        if let Some(v) = b.get(name) {
            let ghost was = out@;
            out.insert(name, crate::profile::dup_list(v));
        }
        k += 1;
    }
    proof {
        assert(nv.take(k as int) =~= nv);
        let want = feature_lists(start).union_prefer_right(feature_lists(b@));
        let got = feature_lists(out@);
        assert forall|x: Seq<char>| #[trigger] got.contains_key(x) == want.contains_key(x) by {
            assert(out@.contains_key(x) == got.contains_key(x));
            assert(nv.contains(x) == b@.dom().contains(x)) by {
                assert(nv.to_set().contains(x) == nv.contains(x));
            }
        }
        assert forall|x: Seq<char>| #[trigger] got.contains_key(x) implies got[x] == want[x] by {
            assert(out@.contains_key(x));
            assert(got[x] == views(out@[x]@));
            assert(nv.contains(x) == b@.dom().contains(x)) by {
                assert(nv.to_set().contains(x) == nv.contains(x));
            }
        }
        assert(got =~= want);
    }
    out
}

/// The entry of the index that a record stands for.
pub fn entry_from(raw: RawEntry, source: &str) -> (r: Result<IndexEntry, EntryError>)
    ensures
        seen_as(r) == entry_of(raw@, source@),
{
    let RawEntry { name, vers, deps, cksum, features, features2, yanked, links, rust_version } = raw;
    assert(views(deps@).len() == deps@.len());
    let deps = match read_index_deps(deps, source) {
        Ok(d) => d,
        Err(e) => {
            return Err(e);
        },
    };
    let features = features_with_implicit(extend(features, &features2), &deps);
    let vers = match Version::parse(vers.as_str()) {
        Some(v) => v,
        None => {
            return Err(EntryError::Version(vers));
        },
    };
    let rust_version = match rust_version {
        Some(v) => read_rust_version(v.as_str()),
        None => None,
    };
    Ok(IndexEntry { name, vers, deps, cksum, features, yanked, links, rust_version })
}

/// What a line of the index stands for.
pub open spec fn line_entry(line: Seq<char>, source: Seq<char>) -> Result<IndexEntryView, EntryFault> {
    match json_of(line) {
        None => Err(EntryFault::Malformed),
        Some(j) => match raw_entry(j) {
            None => Err(EntryFault::Malformed),
            Some(e) => entry_of(e, source),
        },
    }
}

/// The entry that a line of the index holds.
pub fn parse_entry(line: &str, source: &str) -> (r: Result<IndexEntry, EntryError>)
    ensures
        seen_as(r) == line_entry(line@, source@),
{
    match read_json(line) {
        None => Err(EntryError::Malformed),
        Some(j) => match read_raw_entry(&j) {
            None => Err(EntryError::Malformed),
            Some(e) => entry_from(e, source),
        },
    }
}

/// The entries of the lines up to the `n`th that can be used.
pub open spec fn entries_upto(ls: Seq<Seq<char>>, source: Seq<char>, n: int) -> Seq<IndexEntryView>
    decreases n,
{
    if n <= 0 || n > ls.len() {
        Seq::empty()
    } else {
        let so_far = entries_upto(ls, source, n - 1);
        if trimmed(ls[n - 1]).len() == 0 {
            so_far
        } else {
            match line_entry(ls[n - 1], source) {
                Ok(e) => so_far.push(e),
                Err(_) => so_far,
            }
        }
    }
}

/// The entries of a file of the index.
pub open spec fn entries_of(text: Seq<char>, source: Seq<char>) -> Seq<IndexEntryView> {
    entries_upto(lines_of(text), source, lines_of(text).len() as int)
}

/// The entries of a file of the index. A line that cannot be used is passed over.
pub fn parse_entries(text: &str, source: &str) -> (r: Vec<IndexEntry>)
    ensures
        views(r@) == entries_of(text@, source@),
{
    let ls = lines(text);
    let ghost lv = lines_of(text@);
    let mut out: Vec<IndexEntry> = Vec::new();
    let mut k: usize = 0;
    assert(views(out@) =~= Seq::<IndexEntryView>::empty());
    while k < ls.len()
        invariant
            k <= ls@.len(),
            lv == views(ls@),
            views(out@) == entries_upto(lv, source@, k as int),
        decreases ls@.len() - k,
    {
        assert(lv[k as int] == ls@[k as int]@);
        let ghost was = out@;
        if !trim(ls[k].as_str()).is_empty() {
            match parse_entry(ls[k].as_str(), source) {
                Ok(e) => {
                    out.push(e);
                    assert(views(out@) =~= views(was).push(e@));
                },
                Err(_) => {},
            }
        }
        k += 1;
    }
    assert(lv.len() == ls@.len());
    out
}

// ---------------------------------------------------------------------------
// Places.

/// How many characters from `k` on take up `bytes` bytes, with those before `k`; nothing where a character
/// spans the place.
pub open spec fn cut(s: Seq<char>, bytes: int, k: int) -> Option<int>
    decreases s.len() - k,
{
    if bytes == 0 {
        Some(k)
    } else if k < 0 || k >= s.len() || width(s[k]) > bytes {
        None
    } else {
        cut(s, bytes - width(s[k]), k + 1)
    }
}

pub(crate) fn find_cut(s: &Vec<char>, bytes: usize) -> (r: Option<usize>)
    ensures
        match r {
            Some(k) => cut(s@, bytes as int, 0) == Some(k as int) && k <= s@.len(),
            None => cut(s@, bytes as int, 0).is_none(),
        },
{
    let mut left: usize = bytes;
    let mut k: usize = 0;
    while left > 0
        invariant
            k <= s@.len(),
            cut(s@, bytes as int, 0) == cut(s@, left as int, k as int),
        decreases left,
    {
        if k >= s.len() {
            return None;
        }
        let u: u32 = s[k] as u32;
        let w: usize = if u < 0x80 {
            1
        } else if u < 0x800 {
            2
        } else if u < 0x10000 {
            3
        } else {
            4
        };
        assert(w == width(s@[k as int]));
        if w > left {
            return None;
        }
        left -= w;
        k += 1;
    }
    Some(k)
}

/// The place of a crate in the index, by its name in lower case: names of up to three bytes stand apart,
/// longer ones under their first and their second two bytes. Nothing where a character spans those.
pub open spec fn place_of(n: Seq<char>) -> Option<Seq<char>> {
    let len = n.len() as int;
    if cut(n, 1, 0) == Some(len) {
        Some("1/"@ + n)
    } else if cut(n, 2, 0) == Some(len) {
        Some("2/"@ + n)
    } else if cut(n, 3, 0) == Some(len) {
        match cut(n, 1, 0) {
            Some(a) => Some("3/"@ + n.subrange(0, a) + "/"@ + n),
            None => None,
        }
    } else {
        match (cut(n, 2, 0), cut(n, 4, 0)) {
            (Some(a), Some(b)) => Some(n.subrange(0, a) + "/"@ + n.subrange(a, b) + "/"@ + n),
            _ => None,
        }
    }
}

proof fn lemma_cut(s: Seq<char>, bytes: int, k: int)
    requires
        0 <= bytes,
        0 <= k <= s.len(),
    ensures
        cut(s, bytes, k) matches Some(r) ==> k <= r <= s.len(),
        forall|more: int|
            #![trigger cut(s, more, k)]
            more >= bytes && cut(s, bytes, k).is_some() && cut(s, more, k).is_some() ==> cut(s, bytes, k).unwrap() <= cut(
                s,
                more,
                k,
            ).unwrap(),
    decreases s.len() - k,
{
    if bytes > 0 && k < s.len() && width(s[k]) <= bytes {
        lemma_cut(s, bytes - width(s[k]), k + 1);
        assert forall|more: int|
            more >= bytes && cut(s, bytes, k).is_some() && (#[trigger] cut(s, more, k)).is_some() implies cut(
            s,
            bytes,
            k,
        ).unwrap() <= cut(s, more, k).unwrap() by {
            assert(cut(s, more, k) == cut(s, more - width(s[k]), k + 1));
        }
    } else if bytes == 0 {
        assert forall|more: int| more >= 0 && (#[trigger] cut(s, more, k)).is_some() implies k <= cut(s, more, k).unwrap() by {
            lemma_cut_up(s, more, k);
        }
    }
}

proof fn lemma_cut_up(s: Seq<char>, bytes: int, k: int)
    requires
        0 <= bytes,
        0 <= k <= s.len(),
    ensures
        cut(s, bytes, k) matches Some(r) ==> k <= r <= s.len(),
    decreases s.len() - k,
{
    if bytes > 0 && k < s.len() && width(s[k]) <= bytes {
        lemma_cut_up(s, bytes - width(s[k]), k + 1);
    }
}

fn find_place(n: &str) -> (r: Option<String>)
    ensures
        opt_view(r) == place_of(n@),
{
    let cs = chars_of(n);
    let one = find_cut(&cs, 1);
    let two = find_cut(&cs, 2);
    let three = find_cut(&cs, 3);
    let four = find_cut(&cs, 4);
    proof {
        lemma_cut(n@, 2, 0);
    }
    if one == Some(cs.len()) {
        return Some(cat("1/", n));
    }
    if two == Some(cs.len()) {
        return Some(cat("2/", n));
    }
    if three == Some(cs.len()) {
        return match one {
            Some(a) => Some(cat4("3/", string_of(&cs, 0, a).as_str(), "/", n)),
            None => None,
        };
    }
    match (two, four) {
        (Some(a), Some(b)) => {
            assert(a <= b);
            Some(cat5(string_of(&cs, 0, a).as_str(), "/", string_of(&cs, a, b).as_str(), "/", n))
        },
        _ => None,
    }
}

/// `se/rd/serde`.
pub fn index_path(name: &str) -> (r: String)
    requires
        place_of(lowercase(name@)).is_some(),
    ensures
        place_of(lowercase(name@)) == Some(r@),
{
    match find_place(to_lower(name).as_str()) {
        Some(p) => p,
        None => String::new(),
    }
}

/// The place of a crate in the index, where its name has one.
pub fn index_file(name: &str) -> (r: Option<String>)
    ensures
        opt_view(r) == place_of(lowercase(name@)),
{
    match find_place(to_lower(name).as_str()) {
        Some(_) => Some(index_path(name)),
        None => None,
    }
}

/// The first place from `from` on where `p` stands in `s`, or the length.
pub open spec fn first_sub(s: Seq<char>, p: Seq<char>, from: int) -> int
    decreases s.len() - from,
{
    if from < 0 || from >= s.len() {
        s.len() as int
    } else if occurs_at(s, p, from) {
        from
    } else {
        first_sub(s, p, from + 1)
    }
}

pub(crate) fn find_sub(s: &Vec<char>, p: &Vec<char>, from: usize) -> (r: usize)
    requires
        from <= s@.len(),
    ensures
        r == first_sub(s@, p@, from as int),
        from <= r <= s@.len(),
        r < s@.len() ==> occurs_at(s@, p@, r as int),
{
    let mut i: usize = from;
    while i < s.len()
        invariant
            from <= i <= s@.len(),
            first_sub(s@, p@, from as int) == first_sub(s@, p@, i as int),
        decreases s@.len() - i,
    {
        if matches_at(s, p, i) {
            return i;
        }
        i += 1;
    }
    i
}

/// What stands between the first `://` and the next, or the whole text where there is none.
pub open spec fn host_of(s: Seq<char>) -> Seq<char> {
    let a = first_sub(s, "://"@, 0);
    if a >= s.len() {
        s
    } else {
        s.subrange(a + 3, first_sub(s, "://"@, a + 3))
    }
}

pub open spec fn plain_char(c: char) -> char {
    if alnum(c) || c == '.' {
        c
    } else {
        '-'
    }
}

pub open spec fn plain_text(s: Seq<char>) -> Seq<char> {
    Seq::new(s.len(), |i: int| plain_char(s[i]))
}

/// The first place from `from` on without a hyphen, or the length.
pub open spec fn after_hyphens(s: Seq<char>, from: int) -> int
    decreases s.len() - from,
{
    if from < 0 || from >= s.len() || s[from] != '-' {
        from
    } else {
        after_hyphens(s, from + 1)
    }
}

pub open spec fn before_hyphens(s: Seq<char>, from: int, to: int) -> int
    decreases to - from,
{
    if to <= from || s[to - 1] != '-' {
        to
    } else {
        before_hyphens(s, from, to - 1)
    }
}

/// The text without the hyphens at its two ends.
pub open spec fn without_hyphens(s: Seq<char>) -> Seq<char> {
    let a = after_hyphens(s, 0);
    s.subrange(a, before_hyphens(s, a, s.len() as int))
}

/// Twelve digits that stand for a text.
pub open spec fn digest12(s: Seq<char>) -> Seq<char> {
    hex_of(blake3_of(encode_utf8(s))).subrange(0, 12)
}

pub(crate) fn short_digest(s: &str) -> (r: String)
    ensures
        r@ == digest12(s@),
{
    let mut bytes: Vec<u8> = Vec::new();
    add_text(&mut bytes, s);
    assert(bytes@ =~= encode_utf8(s@));
    let h = hash(&bytes);
    proof {
        lemma_hex_len(h@, h@.len() as int);
    }
    let cs = chars_of(to_hex(&h).as_str());
    string_of(&cs, 0, 12)
}

/// The directory of a registry.
pub open spec fn dir_name(source: Seq<char>) -> Seq<char> {
    if source == CRATES_IO@ {
        "index.crates.io"@
    } else {
        without_hyphens(plain_text(host_of(source))) + "-"@ + digest12(source)
    }
}

fn plain_host(source: &str) -> (r: String)
    ensures
        r@ == without_hyphens(plain_text(host_of(source@))),
{
    proof {
        reveal_strlit("://");
    }
    let cs = chars_of(source);
    let sep = chars_of("://");
    let a: usize = find_sub(&cs, &sep, 0);
    let (from, to): (usize, usize) = if a >= cs.len() {
        (0, cs.len())
    } else {
        (a + 3, find_sub(&cs, &sep, a + 3))
    };
    let ghost host = host_of(source@);
    assert(source@.subrange(0, source@.len() as int) =~= source@);
    assert(host == source@.subrange(from as int, to as int));
    let mut out: Vec<char> = Vec::new();
    let mut i: usize = from;
    while i < to
        invariant
            from <= i <= to <= cs@.len(),
            cs@ == source@,
            host == source@.subrange(from as int, to as int),
            out@ =~= plain_text(host).take(i - from),
        decreases to - i,
    {
        let c = cs[i];
        out.push(
            if is_alnum(c) || c == '.' {
                c
            } else {
                '-'
            },
        );
        i += 1;
    }
    assert(out@ =~= plain_text(host));
    let n: usize = out.len();
    let mut a: usize = 0;
    while a < n && out[a] == '-'
        invariant
            a <= n == out@.len(),
            after_hyphens(out@, 0) == after_hyphens(out@, a as int),
        decreases n - a,
    {
        a += 1;
    }
    let mut b: usize = n;
    while b > a && out[b - 1] == '-'
        invariant
            a <= b <= n == out@.len(),
            before_hyphens(out@, a as int, n as int) == before_hyphens(out@, a as int, b as int),
        decreases b,
    {
        b -= 1;
    }
    string_of(&out, a, b)
}

/// The directory of a registry: the host of its URL, and digits that tell it from others.
pub fn source_dir_name(source: &str) -> (r: String)
    ensures
        r@ == dir_name(source@),
{
    if same(source, CRATES_IO) {
        return "index.crates.io".to_owned();
    }
    cat3(plain_host(source).as_str(), "-", short_digest(source).as_str())
}

/// The URL that a sparse index lies below.
pub open spec fn base_of(source: Seq<char>) -> Option<Seq<char>> {
    if without_slashes(source) == CRATES_IO@ {
        Some("https://index.crates.io/"@)
    } else {
        match crate::text::after_prefix(source, "sparse+"@) {
            Some(u) => Some(
                if crate::text::ends(u, "/"@) {
                    u
                } else {
                    u + "/"@
                },
            ),
            None => None,
        }
    }
}

/// The URL of a git repository that holds an index. crates.io stays sparse.
pub open spec fn git_url_of(source: Seq<char>) -> Option<Seq<char>> {
    let s = without_slashes(source);
    if s == CRATES_IO@ || starts(s, "sparse+"@) {
        None
    } else {
        match crate::text::after_prefix(s, "registry+"@) {
            Some(u) => if u.len() > 0 {
                Some(u)
            } else {
                None
            },
            None => None,
        }
    }
}

// ---------------------------------------------------------------------------
// A registry on disk and behind the net.

/// Where a registry is kept, and what may be used of others.
pub struct Registry {
    root: String,
    offline: bool,
    /// A directory of `.crate` files to reuse once the checksum checks out.
    mirror: Option<String>,
    /// Directories that stand in for a source.
    vendor: StrMap<String>,
}

/// The model of a registry.
pub struct RegistryView {
    pub root: Seq<char>,
    pub offline: bool,
    pub mirror: Option<Seq<char>>,
    pub vendor: Map<Seq<char>, Seq<char>>,
}

impl View for Registry {
    type V = RegistryView;

    closed spec fn view(&self) -> RegistryView {
        RegistryView {
            root: self.root@,
            offline: self.offline,
            mirror: opt_view(self.mirror),
            vendor: self.vendor@.map_values(|s: String| s@),
        }
    }
}

/// The package that is asked for.
#[derive(Clone, Copy)]
pub struct Download<'a> {
    pub source: &'a str,
    pub name: &'a str,
    pub version: &'a Version,
    pub checksum: Option<&'a str>,
}

pub open spec fn checksum_of(d: Download<'_>) -> Option<Seq<char>> {
    crate::invocation::opt_text(d.checksum)
}

/// `name-version`.
pub open spec fn full_name(name: Seq<char>, v: VersionView) -> Seq<char> {
    name + "-"@ + version_text(v)
}

fn name_version(name: &str, v: &Version) -> (r: String)
    ensures
        r@ == full_name(name@, v@),
{
    cat3(name, "-", v.text().as_str())
}

pub open spec fn source_dir(root: Seq<char>, source: Seq<char>, name: Seq<char>, v: VersionView) -> Seq<char> {
    under(under(under(root, "src"@), dir_name(source)), full_name(name, v))
}

pub open spec fn archive_path(root: Seq<char>, source: Seq<char>, name: Seq<char>, v: VersionView) -> Seq<char> {
    under(under(under(root, "cache"@), dir_name(source)), full_name(name, v) + ".crate"@)
}

pub open spec fn cached_file(root: Seq<char>, source: Seq<char>, rel: Seq<char>) -> Seq<char> {
    under(under(under(root, "index"@), dir_name(source)), rel)
}

/// What to do to read a file of the index.
#[derive(Debug)]
pub enum Fetch {
    /// Read it from a checkout of the repository.
    Git(String),
    /// Take what is kept.
    Kept,
    /// Ask for the URL, and name the tag of what is kept.
    Get { url: String, etag: Option<String> },
    /// The registry has no index that can be read.
    NoIndex,
}

pub enum FetchView {
    Git(Seq<char>),
    Kept,
    Get { url: Seq<char>, etag: Option<Seq<char>> },
    NoIndex,
}

impl View for Fetch {
    type V = FetchView;

    open spec fn view(&self) -> FetchView {
        match self {
            Fetch::Git(u) => FetchView::Git(u@),
            Fetch::Kept => FetchView::Kept,
            Fetch::Get { url, etag } => FetchView::Get { url: url@, etag: opt_view(*etag) },
            Fetch::NoIndex => FetchView::NoIndex,
        }
    }
}

pub open spec fn fetch_of(offline: bool, source: Seq<char>, rel: Seq<char>, kept: bool, etag: Option<Seq<char>>) -> FetchView {
    match git_url_of(source) {
        Some(u) => FetchView::Git(u),
        None => if offline {
            FetchView::Kept
        } else {
            match base_of(source) {
                None => FetchView::NoIndex,
                Some(b) => FetchView::Get {
                    url: b + rel,
                    etag: if kept {
                        match etag {
                            Some(t) => Some(trimmed(t)),
                            None => None,
                        }
                    } else {
                        None
                    },
                },
            }
        },
    }
}

/// What came of a request.
#[derive(Clone, Copy, Debug)]
pub enum Reply {
    /// No answer.
    Failed,
    /// An answer with the status.
    Status(u16),
}

/// What a reply comes to.
#[derive(Clone, Copy, Debug, PartialEq, Eq, Structural)]
pub enum Outcome {
    /// What is kept still counts.
    Kept,
    /// Keep the body, and the tag.
    Store,
    /// There is no such file.
    Absent,
    /// The request failed.
    Failed,
}

pub open spec fn outcome_of(kept: bool, reply: Reply) -> Outcome {
    match reply {
        Reply::Failed => if kept {
            Outcome::Kept
        } else {
            Outcome::Failed
        },
        Reply::Status(s) => if s == 304 {
            Outcome::Kept
        } else if s == 200 {
            Outcome::Store
        } else if s == 404 || s == 410 || s == 451 {
            Outcome::Absent
        } else {
            Outcome::Failed
        },
    }
}

/// What a reply comes to. `kept` is whether the file is kept from an earlier request.
pub fn judge(kept: bool, reply: Reply) -> (r: Outcome)
    ensures
        r == outcome_of(kept, reply),
{
    match reply {
        Reply::Failed => if kept {
            Outcome::Kept
        } else {
            Outcome::Failed
        },
        Reply::Status(s) => if s == 304 {
            Outcome::Kept
        } else if s == 200 {
            Outcome::Store
        } else if s == 404 || s == 410 || s == 451 {
            Outcome::Absent
        } else {
            Outcome::Failed
        },
    }
}

/// Why a crate has no entries.
#[derive(Debug)]
pub enum NoEntries {
    /// Nothing is kept of it, and there is no net.
    Offline(String),
    /// The registry does not have it.
    Unknown(String),
}

/// Why the place to download from is not known.
#[derive(Clone, Copy, Debug, PartialEq, Eq, Structural)]
pub enum ConfigError {
    Malformed,
    NoTemplate,
}

/// The template of URLs that `config.json` of an index names.
pub open spec fn template_of(text: Seq<char>) -> Result<Seq<char>, ConfigError> {
    match json_of(text) {
        None => Err(ConfigError::Malformed),
        Some(j) => match text_in(member(j, "dl"@)) {
            Some(t) => Ok(t),
            None => Err(ConfigError::NoTemplate),
        },
    }
}

/// The template of URLs that `config.json` of an index names.
pub fn dl_template(text: &str) -> (r: Result<String, ConfigError>)
    ensures
        match template_of(text@) {
            Ok(t) => r matches Ok(s) && s@ == t,
            Err(e) => r == Err::<String, ConfigError>(e),
        },
{
    match read_json(text) {
        None => Err(ConfigError::Malformed),
        Some(j) => match text_at(&j, "dl") {
            Some(t) => Ok(t.to_owned()),
            None => Err(ConfigError::NoTemplate),
        },
    }
}

pub open spec fn has_marker(t: Seq<char>) -> bool {
    holds(t, "{crate}"@) || holds(t, "{version}"@) || holds(t, "{prefix}"@) || holds(t, "{lowerprefix}"@) || holds(
        t,
        "{sha256-checksum}"@,
    )
}

/// The URL of a `.crate` file: the template with its markers filled in, or, where it has none, the usual
/// path below it. Nothing where a marker asks for the place of a name that has none.
pub open spec fn url_of(t: Seq<char>, name: Seq<char>, v: VersionView, checksum: Option<Seq<char>>) -> Option<Seq<char>> {
    if has_marker(t) {
        match place_of(lowercase(name)) {
            None => None,
            Some(p) => {
                let prefix = match split_last(p, '/') {
                    Some((a, _)) => a,
                    None => Seq::empty(),
                };
                let t = replaced(t, "{crate}"@, name);
                let t = replaced(t, "{version}"@, version_text(v));
                let t = replaced(t, "{prefix}"@, prefix);
                let t = replaced(t, "{lowerprefix}"@, lowercase(prefix));
                Some(
                    replaced(
                        t,
                        "{sha256-checksum}"@,
                        match checksum {
                            Some(c) => c,
                            None => Seq::empty(),
                        },
                    ),
                )
            },
        }
    } else {
        Some(without_slashes(t) + "/"@ + name + "/"@ + version_text(v) + "/download"@)
    }
}

/// The URL of a `.crate` file.
pub fn download_url(template: &str, d: Download<'_>) -> (r: Option<String>)
    ensures
        opt_view(r) == url_of(template@, d.name@, d.version@, checksum_of(d)),
{
    let version = d.version.text();
    if contains(template, "{crate}") || contains(template, "{version}") || contains(template, "{prefix}") || contains(
        template,
        "{lowerprefix}",
    ) || contains(template, "{sha256-checksum}") {
        proof {
            reveal_strlit("{crate}");
            reveal_strlit("{version}");
            reveal_strlit("{prefix}");
            reveal_strlit("{lowerprefix}");
            reveal_strlit("{sha256-checksum}");
            reveal_strlit("");
            assert(""@ =~= Seq::<char>::empty());
        }
        let place = match index_file(d.name) {
            Some(p) => p,
            None => {
                return None;
            },
        };
        let prefix = match rsplit_once(place.as_str(), '/') {
            Some((a, _)) => a,
            None => "",
        };
        let t = replace(template, "{crate}", d.name);
        let t = replace(t.as_str(), "{version}", version.as_str());
        let t = replace(t.as_str(), "{prefix}", prefix);
        let t = replace(t.as_str(), "{lowerprefix}", to_lower(prefix).as_str());
        let sum = match d.checksum {
            Some(c) => c,
            None => "",
        };
        Some(replace(t.as_str(), "{sha256-checksum}", sum))
    } else {
        let mut u = cat5(trim_slashes(template), "/", d.name, "/", version.as_str());
        u.append("/download");
        Some(u)
    }
}

// ---------------------------------------------------------------------------
// Having a package at hand.

/// What is known so far of a package that is to be had.
#[derive(Debug)]
pub struct Known {
    /// Whether the directory that stands in for the source has its manifest.
    pub vendored: Option<bool>,
    /// The text of the checksum file there, where there is one.
    pub vendor_sum: Option<Option<String>>,
    /// Whether it is unpacked already.
    pub marker: Option<bool>,
    /// Whether its archive is there.
    pub archive: Option<bool>,
    /// The checksum of the archive that is there.
    pub archive_sum: Option<String>,
    /// Whether another cache had the archive.
    pub mirrored: Option<bool>,
    /// The template of URLs.
    pub template: Option<String>,
    /// Whether the archive was downloaded.
    pub fetched: bool,
    /// Whether what was unpacked holds the manifest.
    pub unpacked: Option<bool>,
}

pub struct KnownView {
    pub vendored: Option<bool>,
    pub vendor_sum: Option<Option<Seq<char>>>,
    pub marker: Option<bool>,
    pub archive: Option<bool>,
    pub archive_sum: Option<Seq<char>>,
    pub mirrored: Option<bool>,
    pub template: Option<Seq<char>>,
    pub fetched: bool,
    pub unpacked: Option<bool>,
}

impl View for Known {
    type V = KnownView;

    open spec fn view(&self) -> KnownView {
        KnownView {
            vendored: self.vendored,
            vendor_sum: crate::profile::read_view(self.vendor_sum),
            marker: self.marker,
            archive: self.archive,
            archive_sum: opt_view(self.archive_sum),
            mirrored: self.mirrored,
            template: opt_view(self.template),
            fetched: self.fetched,
            unpacked: self.unpacked,
        }
    }
}

impl Known {
    /// Nothing is known yet.
    pub fn new() -> (r: Known)
        ensures
            r@ == (KnownView {
                vendored: None,
                vendor_sum: None,
                marker: None,
                archive: None,
                archive_sum: None,
                mirrored: None,
                template: None,
                fetched: false,
                unpacked: None,
            }),
    {
        Known {
            vendored: None,
            vendor_sum: None,
            marker: None,
            archive: None,
            archive_sum: None,
            mirrored: None,
            template: None,
            fetched: false,
            unpacked: None,
        }
    }
}

/// What to do next to have a package at hand. Paths are those to look at, or to write.
#[derive(Debug)]
pub enum Next {
    AskVendored(String),
    AskVendorSum(String),
    AskMarker(String),
    AskArchive(String),
    AskArchiveSum(String),
    /// Look for the file in the mirror, and put it at the path.
    AskMirror(String, String, String),
    AskTemplate,
    /// Download the URL to the path.
    Fetch(String, String),
    /// Unpack the archive, and move what it holds to the directory.
    Unpack(String, String),
    /// The package is in the directory; whether it was downloaded for that.
    Done(String, bool),
    /// The directory that stands in for the source does not have it.
    NotVendored(String),
    /// The checksum file cannot be read.
    BadVendorSum,
    /// The checksum differs from the one that is asked for.
    VendorMismatch(String),
    /// It is not at hand, and there is no net.
    Offline,
    /// The archive at the path has the checksum, which is not the one that is asked for.
    Corrupt(String, String),
    /// The name has no place in the index.
    NoPlace,
    /// The archive at the path does not hold the package.
    Empty(String),
}

pub enum NextView {
    AskVendored(Seq<char>),
    AskVendorSum(Seq<char>),
    AskMarker(Seq<char>),
    AskArchive(Seq<char>),
    AskArchiveSum(Seq<char>),
    AskMirror(Seq<char>, Seq<char>, Seq<char>),
    AskTemplate,
    Fetch(Seq<char>, Seq<char>),
    Unpack(Seq<char>, Seq<char>),
    Done(Seq<char>, bool),
    NotVendored(Seq<char>),
    BadVendorSum,
    VendorMismatch(Seq<char>),
    Offline,
    Corrupt(Seq<char>, Seq<char>),
    NoPlace,
    Empty(Seq<char>),
}

impl View for Next {
    type V = NextView;

    open spec fn view(&self) -> NextView {
        match self {
            Next::AskVendored(p) => NextView::AskVendored(p@),
            Next::AskVendorSum(p) => NextView::AskVendorSum(p@),
            Next::AskMarker(p) => NextView::AskMarker(p@),
            Next::AskArchive(p) => NextView::AskArchive(p@),
            Next::AskArchiveSum(p) => NextView::AskArchiveSum(p@),
            Next::AskMirror(a, b, c) => NextView::AskMirror(a@, b@, c@),
            Next::AskTemplate => NextView::AskTemplate,
            Next::Fetch(a, b) => NextView::Fetch(a@, b@),
            Next::Unpack(a, b) => NextView::Unpack(a@, b@),
            Next::Done(p, d) => NextView::Done(p@, *d),
            Next::NotVendored(p) => NextView::NotVendored(p@),
            Next::BadVendorSum => NextView::BadVendorSum,
            Next::VendorMismatch(p) => NextView::VendorMismatch(p@),
            Next::Offline => NextView::Offline,
            Next::Corrupt(a, b) => NextView::Corrupt(a@, b@),
            Next::NoPlace => NextView::NoPlace,
            Next::Empty(p) => NextView::Empty(p@),
        }
    }
}

/// A package from a directory that stands in for its source.
pub open spec fn next_vendored(root: Seq<char>, d: Download<'_>, k: KnownView) -> NextView {
    let dir = under(root, full_name(d.name@, d.version@));
    match k.vendored {
        None => NextView::AskVendored(under(dir, "Cargo.toml"@)),
        Some(false) => NextView::NotVendored(root),
        Some(true) => match checksum_of(d) {
            None => NextView::Done(dir, false),
            Some(want) => match k.vendor_sum {
                None => NextView::AskVendorSum(under(dir, ".cargo-checksum.json"@)),
                Some(None) => NextView::Done(dir, false),
                Some(Some(text)) => match json_of(text) {
                    None => NextView::BadVendorSum,
                    Some(j) => match text_in(member(j, "package"@)) {
                        None => NextView::Done(dir, false),
                        Some(got) => if ascii_lower(got) == ascii_lower(want) {
                            NextView::Done(dir, false)
                        } else {
                            NextView::VendorMismatch(root)
                        },
                    },
                },
            },
        },
    }
}

/// What is left once the archive is at hand.
pub open spec fn next_unpacked(archive: Seq<char>, dir: Seq<char>, k: KnownView, downloaded: bool) -> NextView {
    match k.unpacked {
        None => NextView::Unpack(archive, dir),
        Some(false) => NextView::Empty(archive),
        Some(true) => NextView::Done(dir, downloaded),
    }
}

/// A package whose archive is missing: from the mirror where the checksum is known, else from the net.
pub open spec fn next_fetched(g: RegistryView, d: Download<'_>, k: KnownView, archive: Seq<char>, dir: Seq<char>) -> NextView {
    if g.mirror.is_some() && d.checksum.is_some() && k.mirrored.is_none() {
        NextView::AskMirror(g.mirror.unwrap(), full_name(d.name@, d.version@) + ".crate"@, archive)
    } else if g.mirror.is_some() && d.checksum.is_some() && k.mirrored == Some(true) {
        next_unpacked(archive, dir, k, false)
    } else if g.offline {
        NextView::Offline
    } else if k.fetched {
        next_unpacked(archive, dir, k, true)
    } else {
        match k.template {
            None => NextView::AskTemplate,
            Some(t) => match url_of(t, d.name@, d.version@, checksum_of(d)) {
                None => NextView::NoPlace,
                Some(u) => NextView::Fetch(u, archive),
            },
        }
    }
}

/// What to do next to have a package at hand.
pub open spec fn next_of(g: RegistryView, d: Download<'_>, k: KnownView) -> NextView {
    let dir = source_dir(g.root, d.source@, d.name@, d.version@);
    let archive = archive_path(g.root, d.source@, d.name@, d.version@);
    if g.vendor.contains_key(d.source@) {
        next_vendored(g.vendor[d.source@], d, k)
    } else {
        match k.marker {
            None => NextView::AskMarker(under(dir, ".rb-ok"@)),
            Some(true) => NextView::Done(dir, false),
            Some(false) => match k.archive {
                None => NextView::AskArchive(archive),
                Some(false) => next_fetched(g, d, k, archive, dir),
                Some(true) => match checksum_of(d) {
                    None => next_unpacked(archive, dir, k, false),
                    Some(want) => match k.archive_sum {
                        None => NextView::AskArchiveSum(archive),
                        Some(got) => if ascii_lower(got) == ascii_lower(want) {
                            next_unpacked(archive, dir, k, false)
                        } else {
                            NextView::Corrupt(archive, got)
                        },
                    },
                },
            },
        }
    }
}

fn step_vendored(root: &str, d: Download<'_>, k: &Known) -> (r: Next)
    ensures
        r@ == next_vendored(root@, d, k@),
{
    let dir = join(root, name_version(d.name, d.version).as_str());
    match k.vendored {
        None => Next::AskVendored(join(dir.as_str(), "Cargo.toml")),
        Some(false) => Next::NotVendored(root.to_owned()),
        Some(true) => match d.checksum {
            None => Next::Done(dir, false),
            Some(want) => match &k.vendor_sum {
                None => Next::AskVendorSum(join(dir.as_str(), ".cargo-checksum.json")),
                Some(None) => Next::Done(dir, false),
                Some(Some(text)) => match read_json(text.as_str()) {
                    None => Next::BadVendorSum,
                    Some(j) => match text_at(&j, "package") {
                        None => Next::Done(dir, false),
                        Some(got) => if same_but_case(got, want) {
                            Next::Done(dir, false)
                        } else {
                            Next::VendorMismatch(root.to_owned())
                        },
                    },
                },
            },
        },
    }
}

fn step_unpacked(archive: String, dir: String, k: &Known, downloaded: bool) -> (r: Next)
    ensures
        r@ == next_unpacked(archive@, dir@, k@, downloaded),
{
    match k.unpacked {
        None => Next::Unpack(archive, dir),
        Some(false) => Next::Empty(archive),
        Some(true) => Next::Done(dir, downloaded),
    }
}

/// Whether a file may stand in for one that is asked for: where a checksum is asked for, and the file has it.
pub fn sum_agrees(want: Option<&str>, got: &str) -> (r: bool)
    ensures
        r == (want matches Some(w) && ascii_lower(w@) == ascii_lower(got@)),
{
    match want {
        Some(w) => same_but_case(w, got),
        None => false,
    }
}

impl Registry {
    pub fn new(root: String, offline: bool, mirror: Option<String>) -> (r: Registry)
        ensures
            r@ == (RegistryView { root: root@, offline, mirror: opt_view(mirror), vendor: Map::empty() }),
    {
        let r = Registry { root, offline, mirror, vendor: StrMap::new() };
        assert(r@.vendor =~= Map::<Seq<char>, Seq<char>>::empty());
        r
    }

    /// The directory stands in for the source from now on.
    pub fn set_vendor(&mut self, source: &str, dir: String)
        ensures
            final(self)@ == (RegistryView { vendor: old(self)@.vendor.insert(source@, dir@), ..old(self)@ }),
    {
        let ghost was = self@.vendor;
        self.vendor.insert(source, dir);
        assert(self@.vendor =~= was.insert(source@, dir@));
    }

    /// The URL that a sparse index lies below; `None` for a registry without one.
    pub fn index_base(source: &str) -> (r: Option<String>)
        ensures
            opt_view(r) == base_of(source@),
    {
        if same(trim_slashes(source), CRATES_IO) {
            return Some("https://index.crates.io/".to_owned());
        }
        match strip_prefix(source, "sparse+") {
            Some(u) => Some(
                if crate::text::ends_with(u, "/") {
                    u.to_owned()
                } else {
                    cat(u, "/")
                },
            ),
            None => None,
        }
    }

    /// `registry+<git url>`, except crates.io, which stays sparse.
    pub fn git_index_url(source: &str) -> (r: Option<String>)
        ensures
            opt_view(r) == git_url_of(source@),
    {
        let s = trim_slashes(source);
        if same(s, CRATES_IO) || starts_with(s, "sparse+") {
            return None;
        }
        match strip_prefix(s, "registry+") {
            Some(u) => if u.is_empty() {
                None
            } else {
                Some(u.to_owned())
            },
            None => None,
        }
    }

    /// Where a file of an index is kept, and where its tag is.
    pub fn kept_file(&self, source: &str, rel: &str) -> (r: (String, String))
        ensures
            r.0@ == cached_file(self@.root, source@, rel@),
            r.1@ == with_suffix(cached_file(self@.root, source@, rel@), "etag"@),
    {
        let dir = join(join(self.root.as_str(), "index").as_str(), source_dir_name(source).as_str());
        let file = join(dir.as_str(), rel);
        let tag = with_extension(file.as_str(), "etag");
        (file, tag)
    }

    /// How to read a file of an index. `kept` is whether it is kept from an earlier request, `etag` the tag
    /// that came with it.
    pub fn cached_get(&self, source: &str, rel: &str, kept: bool, etag: Option<&str>) -> (r: Fetch)
        ensures
            r@ == fetch_of(self@.offline, source@, rel@, kept, crate::invocation::opt_text(etag)),
    {
        if let Some(u) = Registry::git_index_url(source) {
            return Fetch::Git(u);
        }
        if self.offline {
            return Fetch::Kept;
        }
        match Registry::index_base(source) {
            None => Fetch::NoIndex,
            Some(b) => Fetch::Get {
                url: cat(b.as_str(), rel),
                etag: match etag {
                    Some(t) => if kept {
                        Some(trim(t).to_owned())
                    } else {
                        None
                    },
                    None => None,
                },
            },
        }
    }

    /// The entries of a crate, from the file that its index has for it.
    pub fn entries(&self, source: &str, name: &str, body: Option<&str>) -> (r: Result<Vec<IndexEntry>, NoEntries>)
        ensures
            match body {
                Some(text) => r matches Ok(v) && views(v@) == entries_of(text@, source@),
                None => if self@.offline {
                    r matches Err(NoEntries::Offline(n)) && n@ == name@
                } else {
                    r matches Err(NoEntries::Unknown(n)) && n@ == name@
                },
            },
    {
        match body {
            Some(text) => Ok(parse_entries(text, source)),
            None => if self.offline {
                Err(NoEntries::Offline(name.to_owned()))
            } else {
                Err(NoEntries::Unknown(name.to_owned()))
            },
        }
    }

    /// Where a package is unpacked.
    pub fn src_dir(&self, source: &str, name: &str, version: &Version) -> (r: String)
        ensures
            r@ == source_dir(self@.root, source@, name@, version@),
    {
        let dir = join(join(self.root.as_str(), "src").as_str(), source_dir_name(source).as_str());
        join(dir.as_str(), name_version(name, version).as_str())
    }

    fn step_fetched(&self, d: Download<'_>, k: &Known, archive: String, dir: String) -> (r: Next)
        ensures
            r@ == next_fetched(self@, d, k@, archive@, dir@),
    {
        if let Some(m) = &self.mirror {
            if d.checksum.is_some() {
                match k.mirrored {
                    None => {
                        let file = cat(name_version(d.name, d.version).as_str(), ".crate");
                        return Next::AskMirror(m.clone(), file, archive);
                    },
                    Some(true) => {
                        return step_unpacked(archive, dir, k, false);
                    },
                    Some(false) => {},
                }
            }
        }
        if self.offline {
            return Next::Offline;
        }
        if k.fetched {
            return step_unpacked(archive, dir, k, true);
        }
        match &k.template {
            None => Next::AskTemplate,
            Some(t) => match download_url(t.as_str(), d) {
                None => Next::NoPlace,
                Some(u) => Next::Fetch(u, archive),
            },
        }
    }

    /// What to do next to have `name@version` at hand: look something up, download or unpack it, or stop.
    pub fn ensure(&self, d: Download<'_>, known: &Known) -> (r: Next)
        ensures
            r@ == next_of(self@, d, known@),
    {
        if let Some(root) = self.vendor.get(d.source) {
            assert(self@.vendor[d.source@] == root@);
            return step_vendored(root.as_str(), d, known);
        }
        let dir = self.src_dir(d.source, d.name, d.version);
        let cache = join(join(self.root.as_str(), "cache").as_str(), source_dir_name(d.source).as_str());
        let archive = join(cache.as_str(), cat(name_version(d.name, d.version).as_str(), ".crate").as_str());
        match known.marker {
            None => Next::AskMarker(join(dir.as_str(), ".rb-ok")),
            Some(true) => Next::Done(dir, false),
            Some(false) => match known.archive {
                None => Next::AskArchive(archive),
                Some(false) => self.step_fetched(d, known, archive, dir),
                Some(true) => match d.checksum {
                    None => step_unpacked(archive, dir, known, false),
                    Some(want) => match &known.archive_sum {
                        None => Next::AskArchiveSum(archive),
                        Some(got) => if same_but_case(got.as_str(), want) {
                            step_unpacked(archive, dir, known, false)
                        } else {
                            Next::Corrupt(archive, got.clone())
                        },
                    },
                },
            },
        }
    }
}

// ---------------------------------------------------------------------------
// Searching and choosing.

#[derive(Debug)]
pub struct SearchHit {
    pub name: String,
    pub version: String,
    pub description: String,
}

pub struct SearchHitView {
    pub name: Seq<char>,
    pub version: Seq<char>,
    pub description: Seq<char>,
}

impl View for SearchHit {
    type V = SearchHitView;

    open spec fn view(&self) -> SearchHitView {
        SearchHitView { name: self.name@, version: self.version@, description: self.description@ }
    }
}

#[derive(Clone, Copy, Debug, PartialEq, Eq, Structural)]
pub enum SearchError {
    Malformed,
    NoCrates,
}

/// A crate of the answer, where it has a name and a version. Its description is on one line.
pub open spec fn hit_of(j: JsonTree) -> Option<SearchHitView> {
    match (text_in(member(j, "name"@)), text_in(member(j, "max_version"@))) {
        (Some(name), Some(version)) => Some(
            SearchHitView {
                name,
                version,
                description: match text_in(member(j, "description"@)) {
                    Some(d) => swapped(d, '\n', ' '),
                    None => Seq::empty(),
                },
            },
        ),
        _ => None,
    }
}

pub open spec fn hits_upto(l: Seq<JsonTree>, n: int) -> Seq<SearchHitView>
    decreases n,
{
    if n <= 0 || n > l.len() {
        Seq::empty()
    } else {
        match hit_of(l[n - 1]) {
            Some(h) => hits_upto(l, n - 1).push(h),
            None => hits_upto(l, n - 1),
        }
    }
}

pub open spec fn search_of(body: Seq<char>) -> Result<Seq<SearchHitView>, SearchError> {
    match json_of(body) {
        None => Err(SearchError::Malformed),
        Some(j) => match member(j, "crates"@) {
            Some(JsonTree::Array(l)) => Ok(hits_upto(l, l.len() as int)),
            _ => Err(SearchError::NoCrates),
        },
    }
}

fn read_hit(j: &Json) -> (r: Option<SearchHit>)
    ensures
        opt_view(r) == hit_of(j@),
{
    match (text_at(j, "name"), text_at(j, "max_version")) {
        (Some(name), Some(version)) => {
            let description = match text_at(j, "description") {
                Some(d) => replace_char(d, '\n', ' '),
                None => {
                    proof {
                        reveal_strlit("");
                        assert(""@ =~= Seq::<char>::empty());
                    }
                    "".to_owned()
                },
            };
            Some(SearchHit { name: name.to_owned(), version: version.to_owned(), description })
        },
        _ => None,
    }
}

/// The crates of a search response.
pub fn parse_search(body: &str) -> (r: Result<Vec<SearchHit>, SearchError>)
    ensures
        match search_of(body@) {
            Ok(l) => r matches Ok(v) && views(v@) == l,
            Err(e) => r matches Err(x) && x == e,
        },
{
    let j = match read_json(body) {
        Some(j) => j,
        None => {
            return Err(SearchError::Malformed);
        },
    };
    match j.get("crates") {
        Some(Json::Array(l)) => {
            let ghost all = json_trees(l@);
            assert(member(j@, "crates"@) == Some(JsonTree::Array(all)));
            let mut out: Vec<SearchHit> = Vec::new();
            let mut k: usize = 0;
            assert(views(out@) =~= Seq::<SearchHitView>::empty());
            while k < l.len()
                invariant
                    k <= l@.len(),
                    all == json_trees(l@),
                    member(j@, "crates"@) == Some(JsonTree::Array(all)),
                    json_of(body@) == Some(j@),
                    views(out@) == hits_upto(all, k as int),
                decreases l@.len() - k,
            {
                assert(all[k as int] == l@[k as int]@);
                let ghost was = out@;
                if let Some(h) = read_hit(&l[k]) {
                    out.push(h);
                    assert(views(out@) =~= views(was).push(h@));
                }
                k += 1;
            }
            Ok(out)
        },
        _ => Err(SearchError::NoCrates),
    }
}

pub open spec fn plain_byte(b: u8) -> bool {
    (0x41 <= b <= 0x5a) || (0x61 <= b <= 0x7a) || (0x30 <= b <= 0x39) || b == 0x2d || b == 0x5f || b == 0x2e || b == 0x7e
}

pub open spec fn upper_digit(n: int) -> char {
    if n < 10 {
        (n + '0' as int) as char
    } else {
        (n - 10 + 'A' as int) as char
    }
}

/// The first `n` bytes, as the query of a URL has them.
pub open spec fn escaped(b: Seq<u8>, n: int) -> Seq<char>
    decreases n,
{
    if n <= 0 || n > b.len() {
        Seq::empty()
    } else if plain_byte(b[n - 1]) {
        escaped(b, n - 1).push(b[n - 1] as char)
    } else {
        escaped(b, n - 1).push('%').push(upper_digit(b[n - 1] as int / 16)).push(upper_digit(b[n - 1] as int % 16))
    }
}

pub open spec fn escaped_word(w: Seq<char>) -> Seq<char> {
    escaped(encode_utf8(w), encode_utf8(w).len() as int)
}

/// The words of a query, escaped, with a `+` between them.
pub open spec fn query_of(query: Seq<char>) -> Seq<char> {
    let ws = words_of(query);
    crate::text::joined(Seq::new(ws.len(), |i: int| escaped_word(ws[i])), "+"@)
}

fn to_upper_digit(n: u8) -> (c: char)
    requires
        n < 16,
    ensures
        c == upper_digit(n as int),
{
    if n < 10 {
        (n + 48) as char
    } else {
        (n - 10 + 65) as char
    }
}

fn escape_word(w: &str) -> (r: String)
    ensures
        r@ == escaped_word(w@),
{
    let mut bytes: Vec<u8> = Vec::new();
    add_text(&mut bytes, w);
    assert(bytes@ =~= encode_utf8(w@));
    let mut out = String::new();
    let mut k: usize = 0;
    while k < bytes.len()
        invariant
            k <= bytes@.len(),
            out@ == escaped(bytes@, k as int),
        decreases bytes@.len() - k,
    {
        let b: u8 = bytes[k];
        if (0x41 <= b && b <= 0x5a) || (0x61 <= b && b <= 0x7a) || (0x30 <= b && b <= 0x39) || b == 0x2d || b == 0x5f || b
            == 0x2e || b == 0x7e {
            push_char(&mut out, b as char);
        } else {
            push_char(&mut out, '%');
            push_char(&mut out, to_upper_digit(b / 16));
            push_char(&mut out, to_upper_digit(b % 16));
        }
        k += 1;
    }
    out
}

/// The words of a query, escaped for a URL.
pub fn urlencoding_query(query: &str) -> (r: String)
    ensures
        r@ == query_of(query@),
{
    let ws = words(query);
    let ghost wv = words_of(query@);
    let ghost want = Seq::new(wv.len(), |i: int| escaped_word(wv[i]));
    let mut parts: Vec<String> = Vec::new();
    let mut k: usize = 0;
    while k < ws.len()
        invariant
            k <= ws@.len(),
            wv == views(ws@),
            want == Seq::new(wv.len(), |i: int| escaped_word(wv[i])),
            parts@.len() == k,
            forall|j: int| 0 <= j < k ==> #[trigger] parts@[j]@ == want[j],
        decreases ws@.len() - k,
    {
        assert(wv[k as int] == ws@[k as int]@);
        parts.push(escape_word(ws[k].as_str()));
        k += 1;
    }
    assert(views(parts@) =~= want);
    crate::text::join(&parts, "+")
}

/// How many crates a page of the answer has: what is asked for, from 1 to 100.
pub open spec fn page_of(limit: u32) -> u32 {
    if limit < 1 {
        1
    } else if limit > 100 {
        100
    } else {
        limit
    }
}

/// Where crates.io is asked for crates. It allows 100 per page, and `limit` is clamped to that.
pub fn search_crates(query: &str, limit: u32) -> (r: String)
    ensures
        r@ == "https://crates.io/api/v1/crates?q="@ + query_of(query@) + "&per_page="@ + crate::num::dec(
            page_of(limit) as nat,
        ),
{
    let n: u32 = if limit < 1 {
        1
    } else if limit > 100 {
        100
    } else {
        limit
    };
    cat4(
        "https://crates.io/api/v1/crates?q=",
        urlencoding_query(query).as_str(),
        "&per_page=",
        crate::num::u64_text(n as u64).as_str(),
    )
}

/// Why no version is selected.
#[derive(Debug)]
pub enum SelectError {
    NoVersions,
    /// The exact version is not there.
    NotFound(String),
    /// The requirement cannot be read.
    Requirement(String),
    NoMatch,
}

pub enum SelectFault {
    NoVersions,
    NotFound(Seq<char>),
    Requirement(Seq<char>),
    NoMatch,
}

impl View for SelectError {
    type V = SelectFault;

    open spec fn view(&self) -> SelectFault {
        match self {
            SelectError::NoVersions => SelectFault::NoVersions,
            SelectError::NotFound(s) => SelectFault::NotFound(s@),
            SelectError::Requirement(s) => SelectFault::Requirement(s@),
            SelectError::NoMatch => SelectFault::NoMatch,
        }
    }
}

pub open spec fn versions_of(es: Seq<IndexEntryView>) -> Seq<VersionView> {
    Seq::new(es.len(), |i: int| es[i].vers)
}

/// The first entry from `k` on that is not yanked and has the version.
pub open spec fn exact_from(es: Seq<IndexEntryView>, v: VersionView, k: int) -> Option<int>
    decreases es.len() - k,
{
    if k < 0 || k >= es.len() {
        None
    } else if !es[k].yanked && es[k].vers == v {
        Some(k)
    } else {
        exact_from(es, v, k + 1)
    }
}

/// The newest entry that is not yanked and meets the requirement, where there is one.
pub open spec fn newest_of(es: Seq<IndexEntryView>, req: Option<Seq<char>>) -> Option<int> {
    newest_upto(
        versions_of(es),
        |i: int| !es[i].yanked && (req matches Some(q) ==> meets(q, es[i].vers)),
        es.len() as int,
    )
}

/// No entry that is not yanked and meets the requirement is newer than the one at `k`.
pub open spec fn no_newer_entry(es: Seq<IndexEntryView>, req: Option<Seq<char>>, k: int) -> bool {
    forall|j: int|
        0 <= j < es.len() && j != k && !(#[trigger] es[j]).yanked && (req matches Some(q) ==> meets(q, es[j].vers)) ==> !older(
            es[k].vers,
            es[j].vers,
        )
}

/// The entry that is chosen: the exact version where one is asked for, else the newest that is not yanked
/// and meets the requirement.
pub open spec fn selected(es: Seq<IndexEntryView>, spec: Option<Seq<char>>) -> Result<int, SelectFault> {
    if newest_of(es, None).is_none() {
        Err(SelectFault::NoVersions)
    } else {
        match spec {
            None => Ok(newest_of(es, None).unwrap()),
            Some(s) => match version_of(s) {
                Some(v) => match exact_from(es, v, 0) {
                    Some(k) => Ok(k),
                    None => Err(SelectFault::NotFound(s)),
                },
                None => match req_of(s) {
                    None => Err(SelectFault::Requirement(s)),
                    Some(q) => match newest_of(es, Some(q)) {
                        Some(k) => Ok(k),
                        None => Err(SelectFault::NoMatch),
                    },
                },
            },
        }
    }
}

pub open spec fn req_view(req: Option<&VersionReq>) -> Option<Seq<char>> {
    match req {
        Some(q) => Some(q@),
        None => None,
    }
}

pub(crate) fn newest(es: &Vec<IndexEntry>, req: Option<&VersionReq>) -> (r: Option<usize>)
    ensures
        match r {
            Some(k) => newest_of(views(es@), req_view(req)) == Some(k as int) && k < es@.len() && no_newer_entry(
                views(es@),
                req_view(req),
                k as int,
            ),
            None => newest_of(views(es@), req_view(req)).is_none(),
        },
{
    let ghost ev = views(es@);
    let ghost vs = versions_of(ev);
    let ghost q = req_view(req);
    let ghost keep = |i: int| !ev[i].yanked && (q matches Some(q) ==> meets(q, ev[i].vers));
    let mut best: Option<usize> = None;
    let mut k: usize = 0;
    while k < es.len()
        invariant
            k <= es@.len(),
            ev == views(es@),
            vs == versions_of(ev),
            q == req_view(req),
            keep == (|i: int| !ev[i].yanked && (q matches Some(q) ==> meets(q, ev[i].vers))),
            match best {
                Some(b) => newest_upto(vs, keep, k as int) == Some(b as int) && b < k && none_newer(vs, keep, b as int, k as int),
                None => newest_upto(vs, keep, k as int).is_none(),
            },
        decreases es@.len() - k,
    {
        assert(ev[k as int] == es@[k as int]@);
        proof {
            lemma_newest(vs, keep, k as int);
        }
        let fits = !es[k].yanked && match req {
            Some(q) => q.matches(&es[k].vers),
            None => true,
        };
        assert(fits == keep(k as int));
        if fits {
            best = match best {
                Some(b) => {
                    assert(ev[b as int] == es@[b as int]@);
                    if is_older(&es[k].vers, &es[b].vers) {
                        Some(b)
                    } else {
                        Some(k)
                    }
                },
                None => Some(k),
            };
        }
        k += 1;
    }
    assert(ev.len() == es@.len());
    proof {
        if let Some(b) = best {
            assert forall|j: int|
                0 <= j < ev.len() && j != b && !(#[trigger] ev[j]).yanked && (q matches Some(x) ==> meets(x, ev[j].vers)) implies !older(
                ev[b as int].vers,
                ev[j].vers,
            ) by {
                assert(keep(j));
            }
        }
    }
    best
}

/// Highest non-yanked version. `1.2.3` is exact, `1.2` is a requirement.
pub fn select_version<'a>(entries: &'a Vec<IndexEntry>, spec: Option<&str>) -> (r: Result<&'a IndexEntry, SelectError>)
    ensures
        match selected(views(entries@), crate::invocation::opt_text(spec)) {
            Ok(k) => 0 <= k < entries@.len() && (r matches Ok(e) && *e == entries@[k]) && match spec {
                None => no_newer_entry(views(entries@), None, k),
                Some(s) => version_of(s@).is_none() ==> no_newer_entry(views(entries@), req_of(s@), k),
            },
            Err(e) => r matches Err(x) && x@ == e,
        },
{
    let ghost ev = views(entries@);
    let all = match newest(entries, None) {
        Some(k) => k,
        None => {
            return Err(SelectError::NoVersions);
        },
    };
    match spec {
        None => Ok(&entries[all]),
        Some(s) => match Version::parse(s) {
            Some(v) => {
                let mut k: usize = 0;
                while k < entries.len()
                    invariant
                        k <= entries@.len(),
                        ev == views(entries@),
                        newest_of(ev, None).is_some(),
                        spec == Some(s),
                        version_of(s@) == Some(v@),
                        exact_from(ev, v@, 0) == exact_from(ev, v@, k as int),
                    decreases entries@.len() - k,
                {
                    assert(ev[k as int] == entries@[k as int]@);
                    if !entries[k].yanked && entries[k].vers.same_as(&v) {
                        return Ok(&entries[k]);
                    }
                    k += 1;
                }
                assert(ev.len() == entries@.len());
                Err(SelectError::NotFound(s.to_owned()))
            },
            None => match VersionReq::parse(s) {
                None => Err(SelectError::Requirement(s.to_owned())),
                Some(q) => match newest(entries, Some(&q)) {
                    Some(k) => Ok(&entries[k]),
                    None => Err(SelectError::NoMatch),
                },
            },
        },
    }
}

} // verus!
