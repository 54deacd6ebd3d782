//! What a `Cargo.toml` declares: the package, its dependencies, its features and its targets.

use vstd::prelude::*;
use crate::cfgexpr::PlatformExpr;
use crate::cfgexpr::PlatformTree;
use crate::cfgexpr::read_platform;
use crate::exec::clean;
use crate::exec::lexical_clean;
use crate::lints::text_leq;
use crate::order::before;
use crate::order::is_before;
use crate::order::lemma_before_asymmetric;
use crate::order::lemma_before_irreflexive;
use crate::order::lemma_before_total;
use crate::order::lemma_before_transitive;
use crate::path::base_name;
use crate::path::file_stem;
use crate::path::parent;
use crate::path::is_same_place;
use crate::path::same_place;
use crate::path::up;
use crate::path::join;
use crate::path::stem_of;
use crate::path::under;
use crate::profile::dup_list;
use crate::profile::dup_text;
use crate::profile::join_lists;
use crate::profile::tree_opt;
use crate::resolve::trim_slashes;
use crate::resolve::without_slashes;
use crate::sort::Ranked;
use crate::sort::in_order;
use crate::sort::sort;
use crate::strmap::StrMap;
use crate::strmap::StrSet;
use crate::strmap::listed;
use crate::text::after_prefix;
use crate::text::before_suffix;
use crate::text::cat;
use crate::text::cat3;
use crate::text::chars_of;
use crate::text::ends;
use crate::text::ends_with;
use crate::text::find_from;
use crate::text::first_at;
use crate::text::join as join_texts;
use crate::text::joined;
use crate::text::lemma_first_at;
use crate::text::opt_view;
use crate::text::replace_char;
use crate::text::same;
use crate::text::split_first;
use crate::text::split_once;
use crate::text::string_of;
use crate::text::starts;
use crate::text::starts_with;
use crate::text::strip_prefix;
use crate::text::strip_suffix;
use crate::text::swapped;
use crate::text::trim;
use crate::text::trim_start;
use crate::text::trimmed;
use crate::text::trimmed_start;
use crate::text::views;
use crate::value::Toml;
use crate::value::TomlTree;
use crate::value::at;
use crate::value::dup_table;
use crate::value::field;
use crate::value::flag_of;
use crate::value::get;
use crate::value::strings;
use crate::value::strings_of;
use crate::value::text_of;
use crate::value::toml_entries;
use crate::version::Version;
use crate::version::VersionReq;
use crate::version::VersionView;
use crate::version::parse_req;
use crate::version::version_of;
use crate::version::req_of;

verus! {

/// crates.io, and the id its sparse index uses too.
pub const CRATES_IO: &'static str = "registry+https://github.com/rust-lang/crates.io-index";

#[derive(Clone, Copy, Debug, PartialEq, Eq, Structural)]
pub enum DepKind {
    Normal,
    Build,
    Dev,
}

#[derive(Debug)]
pub enum GitRef {
    DefaultBranch,
    Branch(String),
    Tag(String),
    Rev(String),
}

/// The model of a git reference.
pub enum GitRefView {
    DefaultBranch,
    Branch(Seq<char>),
    Tag(Seq<char>),
    Rev(Seq<char>),
}

impl View for GitRef {
    type V = GitRefView;

    open spec fn view(&self) -> GitRefView {
        match self {
            GitRef::DefaultBranch => GitRefView::DefaultBranch,
            GitRef::Branch(b) => GitRefView::Branch(b@),
            GitRef::Tag(t) => GitRefView::Tag(t@),
            GitRef::Rev(r) => GitRefView::Rev(r@),
        }
    }
}

/// The query that a source id carries for a reference.
pub open spec fn ref_query(r: GitRefView) -> Seq<char> {
    match r {
        GitRefView::DefaultBranch => Seq::empty(),
        GitRefView::Branch(b) => "?branch="@ + b,
        GitRefView::Tag(t) => "?tag="@ + t,
        GitRefView::Rev(r) => "?rev="@ + r,
    }
}

impl GitRef {
    /// `?branch=main` and friends, as they show up in source ids.
    pub fn query(&self) -> (r: String)
        ensures
            r@ == ref_query(self@),
    {
        match self {
            GitRef::DefaultBranch => String::new(),
            GitRef::Branch(b) => cat("?branch=", b.as_str()),
            GitRef::Tag(t) => cat("?tag=", t.as_str()),
            GitRef::Rev(r) => cat("?rev=", r.as_str()),
        }
    }

    pub fn same_as(&self, other: &GitRef) -> (r: bool)
        ensures
            r == (self@ == other@),
    {
        match (self, other) {
            (GitRef::DefaultBranch, GitRef::DefaultBranch) => true,
            (GitRef::Branch(a), GitRef::Branch(b)) => same(a.as_str(), b.as_str()),
            (GitRef::Tag(a), GitRef::Tag(b)) => same(a.as_str(), b.as_str()),
            (GitRef::Rev(a), GitRef::Rev(b)) => same(a.as_str(), b.as_str()),
            _ => false,
        }
    }

    pub fn dup(&self) -> (r: GitRef)
        ensures
            r@ == self@,
    {
        match self {
            GitRef::DefaultBranch => GitRef::DefaultBranch,
            GitRef::Branch(b) => GitRef::Branch(b.clone()),
            GitRef::Tag(t) => GitRef::Tag(t.clone()),
            GitRef::Rev(r) => GitRef::Rev(r.clone()),
        }
    }
}

#[derive(Debug)]
pub enum DepSource {
    Registry(String),
    Path(String),
    Git { url: String, reference: GitRef },
}

/// The model of where a dependency comes from.
pub enum DepSourceView {
    Registry(Seq<char>),
    Path(Seq<char>),
    Git { url: Seq<char>, reference: GitRefView },
}

impl View for DepSource {
    type V = DepSourceView;

    open spec fn view(&self) -> DepSourceView {
        match self {
            DepSource::Registry(s) => DepSourceView::Registry(s@),
            DepSource::Path(p) => DepSourceView::Path(p@),
            DepSource::Git { url, reference } => DepSourceView::Git { url: url@, reference: reference@ },
        }
    }
}

#[derive(Debug)]
pub struct DepDecl {
    pub name: String,
    /// Manifest key when it isn't the package name. `foo = { package = "bar" }`.
    pub rename: Option<String>,
    pub req: VersionReq,
    pub source: DepSource,
    pub kind: DepKind,
    pub optional: bool,
    pub default_features: bool,
    pub features: Vec<String>,
    pub platform: Option<PlatformExpr>,
}

impl DepDecl {
    /// What features call the dependency.
    pub open spec fn called(self) -> Seq<char> {
        match self.rename {
            Some(r) => r@,
            None => self.name@,
        }
    }

    /// What features call it: `dep:<name>`, `<name>/feat`.
    pub fn dep_name(&self) -> (r: &str)
        ensures
            r@ == self.called(),
    {
        match &self.rename {
            Some(r) => r.as_str(),
            None => self.name.as_str(),
        }
    }
}

#[derive(Clone, Copy, Debug, PartialEq, Eq, Structural)]
pub enum TargetKind {
    Lib,
    Bin,
    Example,
    Test,
    Bench,
    BuildScript,
}

#[derive(Debug)]
pub struct Target {
    pub name: String,
    pub kind: TargetKind,
    pub crate_types: Vec<String>,
    pub src_path: String,
    pub edition: String,
    pub required_features: Vec<String>,
    /// On for `test`, `bench`, and `doc`. Also whether doctests run.
    pub test: bool,
    pub bench: bool,
    pub doc: bool,
    pub doctest: bool,
    pub harness: bool,
}

/// Whether one of the strings is `s`.
pub fn any_is(list: &Vec<String>, s: &str) -> (r: bool)
    ensures
        r == views(list@).contains(s@),
{
    let mut i: usize = 0;
    while i < list.len()
        invariant
            i <= list@.len(),
            forall|j: int| 0 <= j < i ==> views(list@)[j] != s@,
        decreases list@.len() - i,
    {
        if same(list[i].as_str(), s) {
            assert(views(list@)[i as int] == s@);
            return true;
        }
        i += 1;
    }
    false
}

impl Target {
    /// The name of the crate: hyphens become underscores.
    pub fn crate_name(&self) -> (r: String)
        ensures
            r@ == swapped(self.name@, '-', '_'),
    {
        replace_char(self.name.as_str(), '-', '_')
    }

    pub open spec fn proc_macro(self) -> bool {
        views(self.crate_types@).contains("proc-macro"@)
    }

    pub fn is_proc_macro(&self) -> (r: bool)
        ensures
            r == self.proc_macro(),
    {
        any_is(&self.crate_types, "proc-macro")
    }

    pub open spec fn executable(self) -> bool {
        ||| self.kind == TargetKind::Bin
        ||| self.kind == TargetKind::Test
        ||| self.kind == TargetKind::Bench
        ||| self.kind == TargetKind::BuildScript
        ||| self.kind == TargetKind::Example && views(self.crate_types@).contains("bin"@)
    }

    pub fn is_executable(&self) -> (r: bool)
        ensures
            r == self.executable(),
    {
        match self.kind {
            TargetKind::Bin | TargetKind::Test | TargetKind::Bench | TargetKind::BuildScript => true,
            TargetKind::Example => any_is(&self.crate_types, "bin"),
            TargetKind::Lib => false,
        }
    }
}

#[derive(Debug)]
pub struct Package {
    pub name: String,
    pub version: Version,
    pub edition: String,
    pub manifest_path: String,
    pub root: String,
    pub links: Option<String>,
    pub authors: Vec<String>,
    pub description: Option<String>,
    pub homepage: Option<String>,
    pub repository: Option<String>,
    pub license: Option<String>,
    pub license_file: Option<String>,
    pub rust_version: Option<String>,
    pub readme: Option<String>,
    pub default_run: Option<String>,
    pub deps: Vec<DepDecl>,
    pub features: StrMap<Vec<String>>,
    pub targets: Vec<Target>,
    /// `[lints]`, with `workspace = true` already filled in.
    pub lints: Option<Vec<(String, Toml)>>,
}

impl DepSource {
    pub fn dup(&self) -> (r: DepSource)
        ensures
            r@ == self@,
    {
        match self {
            DepSource::Registry(s) => DepSource::Registry(s.clone()),
            DepSource::Path(p) => DepSource::Path(p.clone()),
            DepSource::Git { url, reference } => DepSource::Git { url: url.clone(), reference: reference.dup() },
        }
    }
}

/// The model of a declared dependency.
pub struct DepDeclView {
    pub name: Seq<char>,
    pub rename: Option<Seq<char>>,
    pub req: Seq<char>,
    pub source: DepSourceView,
    pub kind: DepKind,
    pub optional: bool,
    pub default_features: bool,
    pub features: Seq<Seq<char>>,
    pub platform: Option<PlatformTree>,
}

impl DepDeclView {
    /// What features call the dependency.
    pub open spec fn called(self) -> Seq<char> {
        match self.rename {
            Some(r) => r,
            None => self.name,
        }
    }
}

impl View for DepDecl {
    type V = DepDeclView;

    open spec fn view(&self) -> DepDeclView {
        DepDeclView {
            name: self.name@,
            rename: opt_view(self.rename),
            req: self.req@,
            source: self.source@,
            kind: self.kind,
            optional: self.optional,
            default_features: self.default_features,
            features: views(self.features@),
            platform: opt_view(self.platform),
        }
    }
}

impl DepDecl {
    /// The same declaration once more.
    pub fn dup(&self) -> (r: DepDecl)
        ensures
            r@ == self@,
            r.called() == self.called(),
    {
        DepDecl {
            name: self.name.clone(),
            rename: dup_text(&self.rename),
            req: self.req.dup(),
            source: self.source.dup(),
            kind: self.kind,
            optional: self.optional,
            default_features: self.default_features,
            features: dup_list(&self.features),
            platform: dup_platform(self.platform.as_ref()),
        }
    }
}

pub(crate) fn dup_platform(p: Option<&PlatformExpr>) -> (r: Option<PlatformExpr>)
    ensures
        opt_view(r) == match p {
            Some(e) => Some(e@),
            None => None,
        },
{
    match p {
        Some(e) => Some(e.dup()),
        None => None,
    }
}

// ---------------------------------------------------------------------------
// Reading dependencies.

/// The path without `.` and `..`, whatever lies there.
pub fn clean_path(p: &str) -> (r: String)
    ensures
        r@ == clean(p@),
{
    lexical_clean(p)
}

/// The `[workspace]` a package inherits from.
pub struct WsContext<'a> {
    pub root: &'a str,
    pub table: &'a Vec<(String, Toml)>,
}

pub type Entries = Seq<(Seq<char>, TomlTree)>;

/// The model of a workspace to inherit from: its directory and its table.
pub type WsView = (Seq<char>, Entries);

pub open spec fn ws_view(ws: Option<&WsContext<'_>>) -> Option<WsView> {
    match ws {
        Some(w) => Some((w.root@, toml_entries(w.table@))),
        None => None,
    }
}

/// What stands under the first of two keys that is there.
pub open spec fn either(t: Entries, a: Seq<char>, b: Seq<char>) -> Option<TomlTree> {
    match at(t, a) {
        Some(v) => Some(v),
        None => at(t, b),
    }
}

fn get_either<'a>(t: &'a Vec<(String, Toml)>, a: &str, b: &str) -> (r: Option<&'a Toml>)
    ensures
        tree_opt(r) == either(toml_entries(t@), a@, b@),
{
    match get(t, a) {
        Some(v) => Some(v),
        None => get(t, b),
    }
}

/// Whether a value says `workspace = true`.
pub open spec fn inherits(v: TomlTree) -> bool {
    flag_of(field(v, "workspace"@)) == Some(true)
}

pub(crate) fn is_inherit(v: &Toml) -> (r: bool)
    ensures
        r == inherits(v@),
{
    match v.get("workspace") {
        Some(w) => match w.as_bool() {
            Some(b) => b,
            None => false,
        },
        None => false,
    }
}

/// The strings of an array; none where it is no array.
pub open spec fn texts(o: Option<TomlTree>) -> Seq<Seq<char>> {
    match strings_of(o) {
        Some(l) => l,
        None => Seq::empty(),
    }
}

pub(crate) fn strings_in(o: Option<&Toml>) -> (r: Vec<String>)
    ensures
        views(r@) == texts(tree_opt(o)),
{
    match o {
        Some(Toml::Array(l)) => strings(l),
        _ => {
            let r: Vec<String> = Vec::new();
            assert(views(r@) =~= Seq::<Seq<char>>::empty());
            r
        },
    }
}

pub open spec fn flag_or(o: Option<TomlTree>, default: bool) -> bool {
    match flag_of(o) {
        Some(b) => b,
        None => default,
    }
}

fn bool_or(o: Option<&Toml>, default: bool) -> (r: bool)
    ensures
        r == flag_or(tree_opt(o), default),
{
    match o {
        Some(Toml::Bool(b)) => *b,
        _ => default,
    }
}

pub(crate) fn text_under<'a>(t: &'a Vec<(String, Toml)>, key: &str) -> (r: Option<&'a str>)
    ensures
        crate::invocation::opt_text(r) == text_of(at(toml_entries(t@), key@)),
{
    match get(t, key) {
        Some(v) => v.as_str(),
        None => None,
    }
}

/// What is wrong with a manifest.
#[derive(Debug)]
pub enum ManifestError {
    /// A version requirement that cannot be read, and the dependency that holds it.
    Requirement(String, String),
    /// A dependency that is neither a string nor a table.
    Dependency(String),
    /// A dependency inherits, and there is no workspace.
    NoWorkspace(String),
    /// A dependency inherits what the workspace does not declare.
    NotShared(String),
    /// An artifact dependency.
    Artifact(String),
    /// A registry that is not configured.
    Registry(String),
    /// A platform that cannot be read.
    Platform(String),
    /// A target of the kind needs a name or a path.
    Nameless(String),
    /// A target without a path, whose file is not found, and its kind.
    Missing(String, String),
    /// The path of a target without a name ends in no file name.
    Unnamed(String),
    /// `cargo-features` is set.
    Unstable,
    NoPackage,
    NoName,
    /// A field of the package inherits, and there is no workspace.
    FieldNoWorkspace(String),
    /// A field of the package inherits what the workspace does not set.
    FieldNotShared(String),
    /// A version that cannot be read.
    Version(String),
}

/// The model of what is wrong with a manifest.
pub enum ManifestFault {
    Requirement(Seq<char>, Seq<char>),
    Dependency(Seq<char>),
    NoWorkspace(Seq<char>),
    NotShared(Seq<char>),
    Artifact(Seq<char>),
    Registry(Seq<char>),
    Platform(Seq<char>),
    Nameless(Seq<char>),
    Missing(Seq<char>, Seq<char>),
    Unnamed(Seq<char>),
    Unstable,
    NoPackage,
    NoName,
    FieldNoWorkspace(Seq<char>),
    FieldNotShared(Seq<char>),
    Version(Seq<char>),
}

impl View for ManifestError {
    type V = ManifestFault;

    open spec fn view(&self) -> ManifestFault {
        match self {
            ManifestError::Requirement(a, b) => ManifestFault::Requirement(a@, b@),
            ManifestError::Dependency(a) => ManifestFault::Dependency(a@),
            ManifestError::NoWorkspace(a) => ManifestFault::NoWorkspace(a@),
            ManifestError::NotShared(a) => ManifestFault::NotShared(a@),
            ManifestError::Artifact(a) => ManifestFault::Artifact(a@),
            ManifestError::Registry(a) => ManifestFault::Registry(a@),
            ManifestError::Platform(a) => ManifestFault::Platform(a@),
            ManifestError::Nameless(a) => ManifestFault::Nameless(a@),
            ManifestError::Missing(a, b) => ManifestFault::Missing(a@, b@),
            ManifestError::Unnamed(a) => ManifestFault::Unnamed(a@),
            ManifestError::Unstable => ManifestFault::Unstable,
            ManifestError::NoPackage => ManifestFault::NoPackage,
            ManifestError::NoName => ManifestFault::NoName,
            ManifestError::FieldNoWorkspace(a) => ManifestFault::FieldNoWorkspace(a@),
            ManifestError::FieldNotShared(a) => ManifestFault::FieldNotShared(a@),
            ManifestError::Version(a) => ManifestFault::Version(a@),
        }
    }
}

/// The model of a result.
pub open spec fn seen_as<T: View>(r: Result<T, ManifestError>) -> Result<T::V, ManifestFault> {
    match r {
        Ok(v) => Ok(v@),
        Err(e) => Err(e@),
    }
}

pub open spec fn requirement(s: Seq<char>, key: Seq<char>) -> Result<Seq<char>, ManifestFault> {
    match req_of(trimmed(s)) {
        Some(q) => Ok(q),
        None => Err(ManifestFault::Requirement(s, key)),
    }
}

fn read_req(s: &str, key: &str) -> (r: Result<VersionReq, ManifestError>)
    ensures
        seen_as(r) == requirement(s@, key@),
{
    match parse_req(trim(s)) {
        Some(q) => Ok(q),
        None => Err(ManifestError::Requirement(s.to_owned(), key.to_owned())),
    }
}

/// The reference that a git dependency asks for: a branch before a tag before a revision.
pub open spec fn reference_in(t: Entries) -> GitRefView {
    match text_of(at(t, "branch"@)) {
        Some(b) => GitRefView::Branch(b),
        None => match text_of(at(t, "tag"@)) {
            Some(g) => GitRefView::Tag(g),
            None => match text_of(at(t, "rev"@)) {
                Some(r) => GitRefView::Rev(r),
                None => GitRefView::DefaultBranch,
            },
        },
    }
}

fn read_reference(t: &Vec<(String, Toml)>) -> (r: GitRef)
    ensures
        r@ == reference_in(toml_entries(t@)),
{
    if let Some(b) = text_under(t, "branch") {
        GitRef::Branch(b.to_owned())
    } else if let Some(g) = text_under(t, "tag") {
        GitRef::Tag(g.to_owned())
    } else if let Some(r) = text_under(t, "rev") {
        GitRef::Rev(r.to_owned())
    } else {
        GitRef::DefaultBranch
    }
}

/// The source id of a registry, by the URL of its index.
pub open spec fn index_source(index: Seq<char>) -> Seq<char> {
    let u = without_slashes(index);
    if u == "https://github.com/rust-lang/crates.io-index"@ || ends(u, "index.crates.io"@) {
        CRATES_IO@
    } else if starts(u, "sparse+"@) {
        u + "/"@
    } else {
        "registry+"@ + u
    }
}

/// The source id of a registry, by the URL of its index.
pub fn index_source_id(index: &str) -> (r: String)
    ensures
        r@ == index_source(index@),
{
    let u = trim_slashes(index);
    if same(u, "https://github.com/rust-lang/crates.io-index") || ends_with(u, "index.crates.io") {
        CRATES_IO.to_owned()
    } else if starts_with(u, "sparse+") {
        cat(u, "/")
    } else {
        cat("registry+", u)
    }
}

/// The source ids of the configured registries.
pub type Registries = Map<Seq<char>, String>;

/// Where a dependency comes from: a path, a git repository, a named registry, the URL of an index, or
/// crates.io, whichever is given first.
pub open spec fn source_in(t: Entries, root: Seq<char>, regs: Registries) -> Result<DepSourceView, ManifestFault> {
    match text_of(at(t, "path"@)) {
        Some(p) => Ok(DepSourceView::Path(clean(under(root, p)))),
        None => match text_of(at(t, "git"@)) {
            Some(u) => Ok(DepSourceView::Git { url: without_slashes(u), reference: reference_in(t) }),
            None => match text_of(at(t, "registry"@)) {
                Some(g) => if regs.contains_key(g) {
                    Ok(DepSourceView::Registry(regs[g]@))
                } else {
                    Err(ManifestFault::Registry(g))
                },
                None => match text_of(at(t, "registry-index"@)) {
                    Some(i) => Ok(DepSourceView::Registry(index_source(i))),
                    None => Ok(DepSourceView::Registry(CRATES_IO@)),
                },
            },
        },
    }
}

fn read_source(t: &Vec<(String, Toml)>, root: &str, regs: &StrMap<String>) -> (r: Result<DepSource, ManifestError>)
    ensures
        seen_as(r) == source_in(toml_entries(t@), root@, regs@),
{
    if let Some(p) = text_under(t, "path") {
        return Ok(DepSource::Path(clean_path(join(root, p).as_str())));
    }
    if let Some(u) = text_under(t, "git") {
        return Ok(DepSource::Git { url: trim_slashes(u).to_owned(), reference: read_reference(t) });
    }
    if let Some(g) = text_under(t, "registry") {
        return match regs.get(g) {
            Some(s) => Ok(DepSource::Registry(s.clone())),
            None => Err(ManifestError::Registry(g.to_owned())),
        };
    }
    if let Some(i) = text_under(t, "registry-index") {
        return Ok(DepSource::Registry(index_source_id(i)));
    }
    Ok(DepSource::Registry(CRATES_IO.to_owned()))
}

/// The dependency that a table of its own declares.
pub open spec fn table_dep(
    key: Seq<char>,
    t: Entries,
    kind: DepKind,
    platform: Option<PlatformTree>,
    root: Seq<char>,
    regs: Registries,
) -> Result<DepDeclView, ManifestFault> {
    let package = text_of(at(t, "package"@));
    let req = match text_of(at(t, "version"@)) {
        Some(s) => requirement(s, key),
        None => Ok("*"@),
    };
    if at(t, "artifact"@).is_some() {
        Err(ManifestFault::Artifact(key))
    } else {
        match req {
            Err(e) => Err(e),
            Ok(req) => match source_in(t, root, regs) {
                Err(e) => Err(e),
                Ok(source) => Ok(
                    DepDeclView {
                        name: match package {
                            Some(p) => p,
                            None => key,
                        },
                        rename: match package {
                            Some(_) => Some(key),
                            None => None,
                        },
                        req,
                        source,
                        kind,
                        optional: flag_or(at(t, "optional"@), false),
                        default_features: flag_or(either(t, "default-features"@, "default_features"@), true),
                        features: texts(at(t, "features"@)),
                        platform,
                    },
                ),
            },
        }
    }
}

fn read_table_dep(
    key: &str,
    t: &Vec<(String, Toml)>,
    kind: DepKind,
    platform: Option<&PlatformExpr>,
    root: &str,
    regs: &StrMap<String>,
) -> (r: Result<DepDecl, ManifestError>)
    ensures
        seen_as(r) == table_dep(
            key@,
            toml_entries(t@),
            kind,
            match platform {
                Some(e) => Some(e@),
                None => None,
            },
            root@,
            regs@,
        ),
{
    if get(t, "artifact").is_some() {
        return Err(ManifestError::Artifact(key.to_owned()));
    }
    let req = match text_under(t, "version") {
        Some(s) => match read_req(s, key) {
            Ok(q) => q,
            Err(e) => {
                return Err(e);
            },
        },
        None => VersionReq::star(),
    };
    let source = match read_source(t, root, regs) {
        Ok(s) => s,
        Err(e) => {
            return Err(e);
        },
    };
    let (name, rename) = match text_under(t, "package") {
        Some(p) => (p.to_owned(), Some(key.to_owned())),
        None => (key.to_owned(), None),
    };
    Ok(
        DepDecl {
            name,
            rename,
            req,
            source,
            kind,
            optional: bool_or(get(t, "optional"), false),
            default_features: bool_or(get_either(t, "default-features", "default_features"), true),
            features: strings_in(get(t, "features")),
            platform: dup_platform(platform),
        },
    )
}

/// The dependency that an entry declares without a workspace to inherit from.
pub open spec fn own_dep(
    key: Seq<char>,
    v: TomlTree,
    kind: DepKind,
    platform: Option<PlatformTree>,
    root: Seq<char>,
    regs: Registries,
) -> Result<DepDeclView, ManifestFault> {
    match v {
        TomlTree::Str(s) => match requirement(s, key) {
            Err(e) => Err(e),
            Ok(req) => Ok(
                DepDeclView {
                    name: key,
                    rename: None,
                    req,
                    source: DepSourceView::Registry(CRATES_IO@),
                    kind,
                    optional: false,
                    default_features: true,
                    features: Seq::empty(),
                    platform,
                },
            ),
        },
        TomlTree::Table(t) => if inherits(v) {
            Err(ManifestFault::NoWorkspace(key))
        } else {
            table_dep(key, t, kind, platform, root, regs)
        },
        _ => Err(ManifestFault::Dependency(key)),
    }
}

fn read_own_dep(
    key: &str,
    v: &Toml,
    kind: DepKind,
    platform: Option<&PlatformExpr>,
    root: &str,
    regs: &StrMap<String>,
) -> (r: Result<DepDecl, ManifestError>)
    ensures
        seen_as(r) == own_dep(
            key@,
            v@,
            kind,
            match platform {
                Some(e) => Some(e@),
                None => None,
            },
            root@,
            regs@,
        ),
{
    match v {
        Toml::Str(s) => match read_req(s.as_str(), key) {
            Err(e) => Err(e),
            Ok(req) => {
                let features: Vec<String> = Vec::new();
                assert(views(features@) =~= Seq::<Seq<char>>::empty());
                Ok(
                    DepDecl {
                        name: key.to_owned(),
                        rename: None,
                        req,
                        source: DepSource::Registry(CRATES_IO.to_owned()),
                        kind,
                        optional: false,
                        default_features: true,
                        features,
                        platform: dup_platform(platform),
                    },
                )
            },
        },
        Toml::Table(t) => if is_inherit(v) {
            Err(ManifestError::NoWorkspace(key.to_owned()))
        } else {
            read_table_dep(key, t, kind, platform, root, regs)
        },
        _ => Err(ManifestError::Dependency(key.to_owned())),
    }
}

/// What the workspace declares under a key of one of its tables.
pub open spec fn shared(ws: WsView, table: Seq<char>, key: Seq<char>) -> Option<TomlTree> {
    match at(ws.1, table) {
        Some(t) => field(t, key),
        None => None,
    }
}

fn get_shared<'a>(ws: &WsContext<'a>, table: &str, key: &str) -> (r: Option<&'a Toml>)
    ensures
        tree_opt(r) == shared(ws_view(Some(ws)).unwrap(), table@, key@),
{
    match get(ws.table, table) {
        Some(t) => t.get(key),
        None => None,
    }
}

/// The dependency that an entry declares. Where it inherits, the workspace's own declaration counts, with
/// further features, and optional only where the entry says so.
pub open spec fn dep_of(
    key: Seq<char>,
    v: TomlTree,
    kind: DepKind,
    platform: Option<PlatformTree>,
    root: Seq<char>,
    ws: Option<WsView>,
    regs: Registries,
) -> Result<DepDeclView, ManifestFault> {
    if inherits(v) && ws.is_some() {
        match shared(ws.unwrap(), "dependencies"@, key) {
            None => Err(ManifestFault::NotShared(key)),
            Some(base) => match own_dep(key, base, kind, platform, ws.unwrap().0, regs) {
                Err(e) => Err(e),
                Ok(d) => Ok(
                    DepDeclView {
                        features: d.features + texts(field(v, "features"@)),
                        optional: flag_or(field(v, "optional"@), false),
                        ..d
                    },
                ),
            },
        }
    } else {
        own_dep(key, v, kind, platform, root, regs)
    }
}

/// One dependency entry. `root` is where relative paths resolve.
pub fn parse_dep(
    key: &str,
    v: &Toml,
    kind: DepKind,
    platform: Option<&PlatformExpr>,
    root: &str,
    ws: Option<&WsContext<'_>>,
    registries: &StrMap<String>,
) -> (r: Result<DepDecl, ManifestError>)
    ensures
        seen_as(r) == dep_of(
            key@,
            v@,
            kind,
            match platform {
                Some(e) => Some(e@),
                None => None,
            },
            root@,
            ws_view(ws),
            registries@,
        ),
{
    match ws {
        Some(w) => if is_inherit(v) {
            match get_shared(w, "dependencies", key) {
                None => Err(ManifestError::NotShared(key.to_owned())),
                Some(base) => match read_own_dep(key, base, kind, platform, w.root, registries) {
                    Err(e) => Err(e),
                    Ok(d) => {
                        let DepDecl { name, rename, req, source, kind, default_features, features, platform, .. } = d;
                        let more = strings_in(v.get("features"));
                        Ok(
                            DepDecl {
                                name,
                                rename,
                                req,
                                source,
                                kind,
                                optional: bool_or(v.get("optional"), false),
                                default_features,
                                features: join_lists(features, &more),
                                platform,
                            },
                        )
                    },
                },
            }
        } else {
            read_own_dep(key, v, kind, platform, root, registries)
        },
        None => read_own_dep(key, v, kind, platform, root, registries),
    }
}

/// Where a manifest stands, what it may inherit, and the registries it may name.
#[derive(Clone, Copy)]
pub struct Scope<'a> {
    pub root: &'a str,
    pub ws: Option<&'a WsContext<'a>>,
    pub registries: &'a StrMap<String>,
}

/// The model of a scope.
pub struct ScopeView {
    pub root: Seq<char>,
    pub ws: Option<WsView>,
    pub regs: Registries,
}

impl<'a> View for Scope<'a> {
    type V = ScopeView;

    open spec fn view(&self) -> ScopeView {
        ScopeView { root: self.root@, ws: ws_view(self.ws), regs: self.registries@ }
    }
}

pub type Decls = Result<Seq<DepDeclView>, ManifestFault>;

/// The declarations of the first, then those of the second; the first error counts.
pub open spec fn both(a: Decls, b: Decls) -> Decls {
    match a {
        Err(e) => Err(e),
        Ok(x) => match b {
            Err(e) => Err(e),
            Ok(y) => Ok(x + y),
        },
    }
}

/// The first `n` entries of a table of dependencies.
pub open spec fn entry_deps(t: Entries, kind: DepKind, platform: Option<PlatformTree>, sc: ScopeView, n: int) -> Decls
    decreases n,
{
    if n <= 0 || n > t.len() {
        Ok(Seq::empty())
    } else {
        match entry_deps(t, kind, platform, sc, n - 1) {
            Err(e) => Err(e),
            Ok(l) => match dep_of(t[n - 1].0, t[n - 1].1, kind, platform, sc.root, sc.ws, sc.regs) {
                Err(e) => Err(e),
                Ok(d) => Ok(l.push(d)),
            },
        }
    }
}

pub open spec fn table_deps(o: Option<TomlTree>, kind: DepKind, platform: Option<PlatformTree>, sc: ScopeView) -> Decls {
    match o {
        Some(TomlTree::Table(t)) => entry_deps(t, kind, platform, sc, t.len() as int),
        _ => Ok(Seq::empty()),
    }
}

/// The dependencies of a table, those of the library first, then those of tests, then those of the build
/// script.
pub open spec fn kinds_deps(t: Entries, platform: Option<PlatformTree>, sc: ScopeView) -> Decls {
    both(
        both(
            table_deps(at(t, "dependencies"@), DepKind::Normal, platform, sc),
            table_deps(either(t, "dev-dependencies"@, "dev_dependencies"@), DepKind::Dev, platform, sc),
        ),
        table_deps(either(t, "build-dependencies"@, "build_dependencies"@), DepKind::Build, platform, sc),
    )
}

/// The dependencies that the first `n` platforms bring.
pub open spec fn platform_deps(t: Entries, sc: ScopeView, n: int) -> Decls
    decreases n,
{
    if n <= 0 || n > t.len() {
        Ok(Seq::empty())
    } else {
        match platform_deps(t, sc, n - 1) {
            Err(e) => Err(e),
            Ok(l) => match read_platform(t[n - 1].0) {
                Err(_) => Err(ManifestFault::Platform(t[n - 1].0)),
                Ok(p) => match t[n - 1].1 {
                    TomlTree::Table(m) => both(Ok(l), kinds_deps(m, Some(p), sc)),
                    _ => Ok(l),
                },
            },
        }
    }
}

/// Every dependency of a manifest.
pub open spec fn deps_of(m: Entries, sc: ScopeView) -> Decls {
    both(
        kinds_deps(m, None, sc),
        match at(m, "target"@) {
            Some(TomlTree::Table(t)) => platform_deps(t, sc, t.len() as int),
            _ => Ok(Seq::empty()),
        },
    )
}

/// What adding declarations to a list came to.
pub open spec fn grown(was: Seq<DepDecl>, now: Seq<DepDecl>, r: Result<(), ManifestError>, d: Decls) -> bool {
    match d {
        Ok(l) => r.is_ok() && views(now) == views(was) + l,
        Err(e) => r matches Err(x) && x@ == e,
    }
}

pub open spec fn platform_view(p: Option<&PlatformExpr>) -> Option<PlatformTree> {
    match p {
        Some(e) => Some(e@),
        None => None,
    }
}

fn add_table(out: &mut Vec<DepDecl>, o: Option<&Toml>, kind: DepKind, platform: Option<&PlatformExpr>, sc: Scope<'_>) -> (r: Result<
    (),
    ManifestError,
>)
    ensures
        grown(old(out)@, final(out)@, r, table_deps(tree_opt(o), kind, platform_view(platform), sc@)),
{
    let ghost was = out@;
    match o {
        Some(Toml::Table(t)) => {
            let ghost all = toml_entries(t@);
            assert(tree_opt(o) == Some(TomlTree::Table(all)));
            let ghost pv = platform_view(platform);
            let mut k: usize = 0;
            assert(views(was) + Seq::<DepDeclView>::empty() =~= views(was));
            while k < t.len()
                invariant
                    k <= t@.len(),
                    all == toml_entries(t@),
                    pv == platform_view(platform),
                    tree_opt(o) == Some(TomlTree::Table(all)),
                    was == old(out)@,
                    match entry_deps(all, kind, pv, sc@, k as int) {
                        Ok(l) => views(out@) == views(was) + l,
                        Err(_) => false,
                    },
                decreases t@.len() - k,
            {
                let ghost so_far = out@;
                assert(all[k as int] == (t@[k as int].0@, t@[k as int].1@));
                match parse_dep(t[k].0.as_str(), &t[k].1, kind, platform, sc.root, sc.ws, sc.registries) {
                    Ok(d) => {
                        out.push(d);
                        assert(views(out@) =~= views(so_far).push(d@));
                        proof {
                            let l = entry_deps(all, kind, pv, sc@, k as int)->Ok_0;
                            assert((views(was) + l).push(d@) =~= views(was) + l.push(d@));
                        }
                    },
                    Err(e) => {
                        proof {
                            lemma_entry_error(all, kind, pv, sc@, k + 1, all.len() as int);
                        }
                        return Err(e);
                    },
                }
                k += 1;
            }
            Ok(())
        },
        _ => {
            assert(views(was) + Seq::<DepDeclView>::empty() =~= views(was));
            Ok(())
        },
    }
}

proof fn lemma_entry_error(t: Entries, kind: DepKind, platform: Option<PlatformTree>, sc: ScopeView, a: int, b: int)
    requires
        0 <= a <= b <= t.len(),
        entry_deps(t, kind, platform, sc, a).is_err(),
    ensures
        entry_deps(t, kind, platform, sc, b) == entry_deps(t, kind, platform, sc, a),
    decreases b - a,
{
    if a < b {
        lemma_entry_error(t, kind, platform, sc, a, b - 1);
    }
}

proof fn lemma_platform_error(t: Entries, sc: ScopeView, a: int, b: int)
    requires
        0 <= a <= b <= t.len(),
        platform_deps(t, sc, a).is_err(),
    ensures
        platform_deps(t, sc, b) == platform_deps(t, sc, a),
    decreases b - a,
{
    if a < b {
        lemma_platform_error(t, sc, a, b - 1);
    }
}

fn add_kinds(out: &mut Vec<DepDecl>, t: &Vec<(String, Toml)>, platform: Option<&PlatformExpr>, sc: Scope<'_>) -> (r: Result<
    (),
    ManifestError,
>)
    ensures
        grown(old(out)@, final(out)@, r, kinds_deps(toml_entries(t@), platform_view(platform), sc@)),
{
    let ghost was = out@;
    let ghost m = toml_entries(t@);
    let ghost pv = platform_view(platform);
    let ghost a = table_deps(at(m, "dependencies"@), DepKind::Normal, pv, sc@);
    let ghost b = table_deps(either(m, "dev-dependencies"@, "dev_dependencies"@), DepKind::Dev, pv, sc@);
    let ghost c = table_deps(either(m, "build-dependencies"@, "build_dependencies"@), DepKind::Build, pv, sc@);
    match add_table(out, get(t, "dependencies"), DepKind::Normal, platform, sc) {
        Err(e) => {
            return Err(e);
        },
        Ok(_) => {},
    }
    match add_table(out, get_either(t, "dev-dependencies", "dev_dependencies"), DepKind::Dev, platform, sc) {
        Err(e) => {
            return Err(e);
        },
        Ok(_) => {},
    }
    match add_table(out, get_either(t, "build-dependencies", "build_dependencies"), DepKind::Build, platform, sc) {
        Err(e) => {
            return Err(e);
        },
        Ok(_) => {},
    }
    assert(views(out@) =~= views(was) + (a->Ok_0 + b->Ok_0 + c->Ok_0));
    Ok(())
}

/// Every dependency of a manifest, also those for one platform.
pub fn parse_deps(manifest: &Vec<(String, Toml)>, root: &str, ws: Option<&WsContext<'_>>, registries: &StrMap<String>) -> (r: Result<
    Vec<DepDecl>,
    ManifestError,
>)
    ensures
        match deps_of(toml_entries(manifest@), ScopeView { root: root@, ws: ws_view(ws), regs: registries@ }) {
            Ok(l) => r matches Ok(v) && views(v@) == l,
            Err(e) => r matches Err(x) && x@ == e,
        },
{
    let sc = Scope { root, ws, registries };
    let ghost m = toml_entries(manifest@);
    let mut out: Vec<DepDecl> = Vec::new();
    match add_kinds(&mut out, manifest, None, sc) {
        Err(e) => {
            return Err(e);
        },
        Ok(_) => {},
    }
    let ghost own = kinds_deps(m, None, sc@)->Ok_0;
    assert(views(out@) =~= own);
    match get(manifest, "target") {
        Some(Toml::Table(t)) => {
            let ghost all = toml_entries(t@);
            assert(at(m, "target"@) == Some(TomlTree::Table(all)));
            let mut k: usize = 0;
            assert(own + Seq::<DepDeclView>::empty() =~= own);
            while k < t.len()
                invariant
                    k <= t@.len(),
                    all == toml_entries(t@),
                    at(m, "target"@) == Some(TomlTree::Table(all)),
                    kinds_deps(m, None, sc@) == Ok::<_, ManifestFault>(own),
                    sc@ == (ScopeView { root: root@, ws: ws_view(ws), regs: registries@ }),
                    m == toml_entries(manifest@),
                    match platform_deps(all, sc@, k as int) {
                        Ok(l) => views(out@) == own + l,
                        Err(_) => false,
                    },
                decreases t@.len() - k,
            {
                assert(all[k as int] == (t@[k as int].0@, t@[k as int].1@));
                let ghost l = platform_deps(all, sc@, k as int)->Ok_0;
                match PlatformExpr::parse(t[k].0.as_str()) {
                    Err(_) => {
                        proof {
                            lemma_platform_error(all, sc@, k + 1, all.len() as int);
                        }
                        return Err(ManifestError::Platform(t[k].0.clone()));
                    },
                    Ok(p) => {
                        if let Toml::Table(inner) = &t[k].1 {
                            let ghost more = kinds_deps(toml_entries(inner@), Some(p@), sc@);
                            match add_kinds(&mut out, inner, Some(&p), sc) {
                                Err(e) => {
                                    proof {
                                        lemma_platform_error(all, sc@, k + 1, all.len() as int);
                                    }
                                    return Err(e);
                                },
                                Ok(_) => {},
                            }
                            assert(views(out@) =~= own + (l + more->Ok_0));
                        }
                    },
                }
                k += 1;
            }
        },
        _ => {
            assert(own + Seq::<DepDeclView>::empty() =~= own);
        },
    }
    Ok(out)
}

// ---------------------------------------------------------------------------
// Features.

pub type FeatureMap = Map<Seq<char>, Seq<Seq<char>>>;

/// The model of declared features.
pub open spec fn feature_lists(m: Map<Seq<char>, Vec<String>>) -> FeatureMap {
    m.map_values(|v: Vec<String>| views(v@))
}

/// Some feature mentions the text.
pub open spec fn mentioned(m: FeatureMap, what: Seq<char>) -> bool {
    exists|f: Seq<char>, j: int| #![trigger m[f][j]] m.contains_key(f) && 0 <= j < m[f].len() && m[f][j] == what
}

/// An optional dependency goes by the name.
pub open spec fn optional_called(deps: Seq<DepDeclView>, name: Seq<char>) -> bool {
    exists|i: int| 0 <= i < deps.len() && (#[trigger] deps[i]).optional && deps[i].called() == name
}

/// Declared features, plus `name = ["dep:name"]` for each optional dependency that no feature is named
/// after and no feature mentions with `dep:`.
pub open spec fn with_implicit(m: FeatureMap, deps: Seq<DepDeclView>) -> FeatureMap {
    Map::new(
        |k: Seq<char>| m.contains_key(k) || (optional_called(deps, k) && !mentioned(m, "dep:"@ + k)),
        |k: Seq<char>|
            if m.contains_key(k) {
                m[k]
            } else {
                seq!["dep:"@ + k]
            },
    )
}

fn mentions(m: &StrMap<Vec<String>>, what: &str) -> (r: bool)
    ensures
        r == mentioned(feature_lists(m@), what@),
{
    let ghost lists = feature_lists(m@);
    let names = m.keys();
    let mut i: usize = 0;
    while i < names.len()
        invariant
            i <= names@.len(),
            lists == feature_lists(m@),
            views(names@).to_set() == m@.dom(),
            forall|a: int, j: int|
                #![trigger lists[views(names@)[a]][j]]
                0 <= a < i && 0 <= j < lists[views(names@)[a]].len() ==> lists[views(names@)[a]][j] != what@,
        decreases names@.len() - i,
    {
        let ghost n = views(names@)[i as int];
        assert(n == names@[i as int]@);
        assert(views(names@).contains(n));
        assert(m@.dom().contains(n));
        if let Some(l) = m.get(names[i].as_str()) {
            assert(lists[n] == views(l@));
            if any_is(l, what) {
                proof {
                    let j = choose|j: int| 0 <= j < views(l@).len() && views(l@)[j] == what@;
                    assert(lists[n][j] == what@);
                }
                return true;
            }
            assert forall|j: int| 0 <= j < lists[n].len() implies lists[n][j] != what@ by {
                assert(views(l@)[j] == lists[n][j]);
            }
        }
        i += 1;
    }
    proof {
        if mentioned(lists, what@) {
            let (f, j) = choose|f: Seq<char>, j: int|
                #![trigger lists[f][j]]
                lists.contains_key(f) && 0 <= j < lists[f].len() && lists[f][j] == what@;
            assert(m@.dom().contains(f));
            assert(views(names@).contains(f));
            let a = choose|a: int| 0 <= a < views(names@).len() && views(names@)[a] == f;
            assert(lists[views(names@)[a]][j] != what@);
        }
    }
    false
}

/// Declared features, plus `name = ["dep:name"]` for optional deps no feature mentions with `dep:`.
pub fn features_with_implicit(declared: StrMap<Vec<String>>, deps: &Vec<DepDecl>) -> (r: StrMap<Vec<String>>)
    ensures
        feature_lists(r@) == with_implicit(feature_lists(declared@), views(deps@)),
{
    let ghost m = feature_lists(declared@);
    let ghost dv = views(deps@);
    let mut fresh: Vec<String> = Vec::new();
    let mut i: usize = 0;
    while i < deps.len()
        invariant
            i <= deps@.len(),
            dv == views(deps@),
            m == feature_lists(declared@),
            forall|k: Seq<char>|
                #![trigger views(fresh@).contains(k)]
                views(fresh@).contains(k) == (optional_called(dv.take(i as int), k) && !m.contains_key(k) && !mentioned(
                    m,
                    "dep:"@ + k,
                )),
        decreases deps@.len() - i,
    {
        let ghost was = fresh@;
        assert(dv[i as int] == deps@[i as int]@);
        let name = deps[i].dep_name();
        let ghost before_i = dv.take(i as int);
        let ghost upto = dv.take(i + 1);
        assert(upto =~= before_i.push(dv[i as int]));
        proof {
            assert forall|k: Seq<char>| #[trigger] optional_called(upto, k) == (optional_called(before_i, k) || (
            dv[i as int].optional && dv[i as int].called() == k)) by {
                if optional_called(before_i, k) {
                    let a = choose|a: int| 0 <= a < before_i.len() && (#[trigger] before_i[a]).optional && before_i[a].called() == k;
                    assert(upto[a] == before_i[a]);
                }
                if optional_called(upto, k) {
                    let a = choose|a: int| 0 <= a < upto.len() && (#[trigger] upto[a]).optional && upto[a].called() == k;
                    if a < i {
                        assert(before_i[a] == upto[a]);
                    }
                }
                assert(upto[i as int] == dv[i as int]);
            }
        }
        if deps[i].optional && !mentions(&declared, cat("dep:", name).as_str()) && !declared.has(name) {
            fresh.push(name.to_owned());
            assert(views(fresh@) =~= views(was).push(name@));
            assert forall|k: Seq<char>| #[trigger] views(fresh@).contains(k) == (views(was).contains(k) || k == name@) by {
                if views(was).contains(k) {
                    let a = views(was).index_of(k);
                    assert(views(fresh@)[a] == k);
                }
                assert(views(fresh@)[was.len() as int] == name@);
            }
        }
        i += 1;
    }
    assert(dv.take(i as int) =~= dv);
    assert forall|a: int| 0 <= a < fresh@.len() implies !m.contains_key(#[trigger] views(fresh@)[a]) by {
        assert(views(fresh@).contains(views(fresh@)[a]));
    }
    let mut out = declared;
    let mut j: usize = 0;
    while j < fresh.len()
        invariant
            j <= fresh@.len(),
            forall|a: int| 0 <= a < fresh@.len() ==> !m.contains_key(#[trigger] views(fresh@)[a]),
            forall|k: Seq<char>|
                #![trigger out@.contains_key(k)]
                out@.contains_key(k) == (m.contains_key(k) || views(fresh@).take(j as int).contains(k)),
            forall|k: Seq<char>| #![trigger out@[k]] m.contains_key(k) ==> views(out@[k]@) == m[k],
            forall|k: Seq<char>|
                #![trigger out@[k]]
                out@.contains_key(k) && !m.contains_key(k) ==> views(out@[k]@) == seq!["dep:"@ + k],
        decreases fresh@.len() - j,
    {
        let name = fresh[j].as_str();
        let mut v: Vec<String> = Vec::new();
        v.push(cat("dep:", name));
        assert(views(v@) =~= seq!["dep:"@ + name@]);
        assert(views(fresh@)[j as int] == name@);
        let ghost was = out@;
        out.insert(name, v);
        assert forall|k: Seq<char>| #[trigger] views(fresh@).take(j + 1).contains(k) == (views(fresh@).take(j as int).contains(k)
            || k == name@) by {
            let x = views(fresh@).take(j as int);
            let y = views(fresh@).take(j + 1);
            assert(y =~= x.push(name@));
            if x.contains(k) {
                let a = x.index_of(k);
                assert(y[a] == k);
            }
            assert(y[j as int] == name@);
        }
        j += 1;
    }
    proof {
        assert(views(fresh@).take(j as int) =~= views(fresh@));
        let want = with_implicit(m, dv);
        let got = feature_lists(out@);
        assert forall|k: Seq<char>| #[trigger] got.contains_key(k) == want.contains_key(k) by {
            assert(out@.contains_key(k) == got.contains_key(k));
            assert(views(fresh@).contains(k) || !views(fresh@).contains(k));
        }
        assert forall|k: Seq<char>| #[trigger] got.contains_key(k) implies got[k] == want[k] by {
            assert(out@.contains_key(k));
            assert(got[k] == views(out@[k]@));
        }
        assert(got =~= want);
    }
    out
}

// ---------------------------------------------------------------------------
// Targets.

/// The model of a target.
pub struct TargetView {
    pub name: Seq<char>,
    pub kind: TargetKind,
    pub crate_types: Seq<Seq<char>>,
    pub src_path: Seq<char>,
    pub edition: Seq<char>,
    pub required_features: Seq<Seq<char>>,
    pub test: bool,
    pub bench: bool,
    pub doc: bool,
    pub doctest: bool,
    pub harness: bool,
}

impl View for Target {
    type V = TargetView;

    open spec fn view(&self) -> TargetView {
        TargetView {
            name: self.name@,
            kind: self.kind,
            crate_types: views(self.crate_types@),
            src_path: self.src_path@,
            edition: self.edition@,
            required_features: views(self.required_features@),
            test: self.test,
            bench: self.bench,
            doc: self.doc,
            doctest: self.doctest,
            harness: self.harness,
        }
    }
}

impl Target {
    /// The same target once more.
    pub fn dup(&self) -> (r: Target)
        ensures
            r@ == self@,
    {
        Target {
            name: self.name.clone(),
            kind: self.kind,
            crate_types: dup_list(&self.crate_types),
            src_path: self.src_path.clone(),
            edition: self.edition.clone(),
            required_features: dup_list(&self.required_features),
            test: self.test,
            bench: self.bench,
            doc: self.doc,
            doctest: self.doctest,
            harness: self.harness,
        }
    }
}

/// A kind of targets: where it is declared, where it is found, and what holds of it unless it says otherwise.
#[derive(Clone, Copy)]
pub struct Section {
    pub key: &'static str,
    pub auto: &'static str,
    pub dir: &'static str,
    pub kind: TargetKind,
    pub test: bool,
    pub bench: bool,
    pub doc: bool,
}

pub open spec fn section_of(k: int) -> Section {
    if k == 0 {
        Section {
            key: "bin",
            auto: "autobins",
            dir: "src/bin",
            kind: TargetKind::Bin,
            test: true,
            bench: true,
            doc: true,
        }
    } else if k == 1 {
        Section {
            key: "example",
            auto: "autoexamples",
            dir: "examples",
            kind: TargetKind::Example,
            test: false,
            bench: false,
            doc: false,
        }
    } else if k == 2 {
        Section {
            key: "test",
            auto: "autotests",
            dir: "tests",
            kind: TargetKind::Test,
            test: true,
            bench: false,
            doc: false,
        }
    } else {
        Section {
            key: "bench",
            auto: "autobenches",
            dir: "benches",
            kind: TargetKind::Bench,
            test: false,
            bench: true,
            doc: false,
        }
    }
}

fn section(k: usize) -> (r: Section)
    ensures
        r == section_of(k as int),
{
    if k == 0 {
        Section {
            key: "bin",
            auto: "autobins",
            dir: "src/bin",
            kind: TargetKind::Bin,
            test: true,
            bench: true,
            doc: true,
        }
    } else if k == 1 {
        Section {
            key: "example",
            auto: "autoexamples",
            dir: "examples",
            kind: TargetKind::Example,
            test: false,
            bench: false,
            doc: false,
        }
    } else if k == 2 {
        Section {
            key: "test",
            auto: "autotests",
            dir: "tests",
            kind: TargetKind::Test,
            test: true,
            bench: false,
            doc: false,
        }
    } else {
        Section {
            key: "bench",
            auto: "autobenches",
            dir: "benches",
            kind: TargetKind::Bench,
            test: false,
            bench: true,
            doc: false,
        }
    }
}

/// The crate types of a target: a procedural macro has its own, else what is given counts, else the usual.
pub open spec fn crate_types_in(t: Entries, kind: TargetKind) -> Seq<Seq<char>> {
    let given = texts(either(t, "crate-type"@, "crate_type"@));
    if flag_or(either(t, "proc-macro"@, "proc_macro"@), false) {
        seq!["proc-macro"@]
    } else if given.len() > 0 {
        given
    } else if kind == TargetKind::Lib {
        seq!["lib"@]
    } else {
        seq!["bin"@]
    }
}

/// The target that a table declares, over what its kind has by default.
pub open spec fn target_in(
    t: Entries,
    kind: TargetKind,
    defaults: (bool, bool, bool),
    name: Seq<char>,
    src_path: Seq<char>,
    edition: Seq<char>,
) -> TargetView {
    TargetView {
        name,
        kind,
        crate_types: crate_types_in(t, kind),
        src_path,
        edition: match text_of(at(t, "edition"@)) {
            Some(e) => e,
            None => edition,
        },
        required_features: texts(either(t, "required-features"@, "required_features"@)),
        test: flag_or(at(t, "test"@), defaults.0),
        bench: flag_or(at(t, "bench"@), defaults.1),
        doc: flag_or(at(t, "doc"@), defaults.2),
        doctest: flag_or(at(t, "doctest"@), kind == TargetKind::Lib),
        harness: flag_or(at(t, "harness"@), true),
    }
}

pub(crate) fn one(s: &str) -> (r: Vec<String>)
    ensures
        views(r@) == seq![s@],
{
    let mut v: Vec<String> = Vec::new();
    v.push(s.to_owned());
    assert(views(v@) =~= seq![s@]);
    v
}

fn target_from_table(
    t: &Vec<(String, Toml)>,
    kind: TargetKind,
    defaults: (bool, bool, bool),
    name: String,
    src_path: String,
    edition: &str,
) -> (r: Target)
    ensures
        r@ == target_in(toml_entries(t@), kind, defaults, name@, src_path@, edition@),
{
    let given = strings_in(get_either(t, "crate-type", "crate_type"));
    assert(views(given@).len() == given@.len());
    let crate_types = if bool_or(get_either(t, "proc-macro", "proc_macro"), false) {
        one("proc-macro")
    } else if given.len() > 0 {
        given
    } else if kind == TargetKind::Lib {
        one("lib")
    } else {
        one("bin")
    };
    Target {
        name,
        kind,
        crate_types,
        src_path,
        edition: match text_under(t, "edition") {
            Some(e) => e.to_owned(),
            None => edition.to_owned(),
        },
        required_features: strings_in(get_either(t, "required-features", "required_features")),
        test: bool_or(get(t, "test"), defaults.0),
        bench: bool_or(get(t, "bench"), defaults.1),
        doc: bool_or(get(t, "doc"), defaults.2),
        doctest: bool_or(get(t, "doctest"), kind == TargetKind::Lib),
        harness: bool_or(get(t, "harness"), true),
    }
}

/// A source file that was found, and the name of its target.
#[derive(Debug)]
pub struct Spot {
    pub name: String,
    pub path: String,
}

pub type SpotView = (Seq<char>, Seq<char>);

impl View for Spot {
    type V = SpotView;

    open spec fn view(&self) -> SpotView {
        (self.name@, self.path@)
    }
}

/// The path with its slashes before every other character, as paths are ordered by their parts.
pub open spec fn part_key(p: Seq<char>) -> Seq<char> {
    swapped(p, '/', '\u{0}')
}

impl Ranked for Spot {
    /// By name, then by the parts of the path.
    open spec fn leq(a: SpotView, b: SpotView) -> bool {
        before(a.0, b.0) || (a.0 == b.0 && (before(part_key(a.1), part_key(b.1)) || (part_key(a.1) == part_key(b.1)
            && text_leq(a.1, b.1))))
    }

    proof fn lemma_total() {
        let leq = |a: SpotView, b: SpotView| Self::leq(a, b);
        assert forall|x: SpotView, y: SpotView| #[trigger] leq(x, y) && #[trigger] leq(y, x) implies x == y by {
            lemma_before_irreflexive(x.0);
            lemma_before_irreflexive(part_key(x.1));
            if before(x.0, y.0) {
                lemma_before_asymmetric(x.0, y.0);
            }
            if before(part_key(x.1), part_key(y.1)) {
                lemma_before_asymmetric(part_key(x.1), part_key(y.1));
            }
            if before(x.1, y.1) {
                lemma_before_asymmetric(x.1, y.1);
            }
        }
        assert forall|x: SpotView, y: SpotView, z: SpotView| #[trigger] leq(x, y) && #[trigger] leq(y, z) implies leq(x, z) by {
            if before(x.0, y.0) && before(y.0, z.0) {
                lemma_before_transitive(x.0, y.0, z.0);
            }
            if before(part_key(x.1), part_key(y.1)) && before(part_key(y.1), part_key(z.1)) {
                lemma_before_transitive(part_key(x.1), part_key(y.1), part_key(z.1));
            }
            if before(x.1, y.1) && before(y.1, z.1) {
                lemma_before_transitive(x.1, y.1, z.1);
            }
        }
        assert forall|x: SpotView, y: SpotView| #[trigger] leq(x, y) || #[trigger] leq(y, x) by {
            lemma_before_total(x.0, y.0);
            lemma_before_total(part_key(x.1), part_key(y.1));
            lemma_before_total(x.1, y.1);
        }
    }

    fn not_after(&self, other: &Spot) -> (r: bool) {
        let a = replace_char(self.path.as_str(), '/', '\u{0}');
        let b = replace_char(other.path.as_str(), '/', '\u{0}');
        proof {
            lemma_before_irreflexive(self.name@);
            lemma_before_irreflexive(a@);
            lemma_before_irreflexive(self.path@);
            lemma_before_total(self.path@, other.path@);
            if before(self.path@, other.path@) {
                lemma_before_asymmetric(self.path@, other.path@);
            }
        }
        if !same(self.name.as_str(), other.name.as_str()) {
            is_before(self.name.as_str(), other.name.as_str())
        } else if !same(a.as_str(), b.as_str()) {
            is_before(a.as_str(), b.as_str())
        } else {
            !is_before(other.path.as_str(), self.path.as_str())
        }
    }
}

/// Paths in the order of their parts.
pub open spec fn path_leq(a: Seq<char>, b: Seq<char>) -> bool {
    before(part_key(a), part_key(b)) || (part_key(a) == part_key(b) && text_leq(a, b))
}

/// A path that is ordered by its parts.
#[derive(Debug)]
pub struct Filed {
    pub path: String,
}

impl View for Filed {
    type V = Seq<char>;

    open spec fn view(&self) -> Seq<char> {
        self.path@
    }
}

impl Ranked for Filed {
    open spec fn leq(a: Seq<char>, b: Seq<char>) -> bool {
        path_leq(a, b)
    }

    proof fn lemma_total() {
        let leq = |a: Seq<char>, b: Seq<char>| Self::leq(a, b);
        assert forall|x: Seq<char>, y: Seq<char>| #[trigger] leq(x, y) && #[trigger] leq(y, x) implies x == y by {
            lemma_before_irreflexive(part_key(x));
            if before(part_key(x), part_key(y)) {
                lemma_before_asymmetric(part_key(x), part_key(y));
            }
            if before(x, y) {
                lemma_before_asymmetric(x, y);
            }
        }
        assert forall|x: Seq<char>, y: Seq<char>, z: Seq<char>| #[trigger] leq(x, y) && #[trigger] leq(y, z) implies leq(x, z) by {
            if before(part_key(x), part_key(y)) && before(part_key(y), part_key(z)) {
                lemma_before_transitive(part_key(x), part_key(y), part_key(z));
            }
            if before(x, y) && before(y, z) {
                lemma_before_transitive(x, y, z);
            }
        }
        assert forall|x: Seq<char>, y: Seq<char>| #[trigger] leq(x, y) || #[trigger] leq(y, x) by {
            lemma_before_total(part_key(x), part_key(y));
            lemma_before_total(x, y);
        }
    }

    fn not_after(&self, other: &Filed) -> (r: bool) {
        let a = replace_char(self.path.as_str(), '/', '\u{0}');
        let b = replace_char(other.path.as_str(), '/', '\u{0}');
        proof {
            lemma_before_irreflexive(a@);
            lemma_before_irreflexive(self.path@);
            lemma_before_total(self.path@, other.path@);
            if before(self.path@, other.path@) {
                lemma_before_asymmetric(self.path@, other.path@);
            }
        }
        if !same(a.as_str(), b.as_str()) {
            is_before(a.as_str(), b.as_str())
        } else {
            !is_before(other.path.as_str(), self.path.as_str())
        }
    }
}

/// The text without each `.rs` at its end.
pub open spec fn without_rs(s: Seq<char>) -> Seq<char>
    decreases s.len(),
{
    match before_suffix(s, ".rs"@) {
        Some(t) => if t.len() < s.len() {
            without_rs(t)
        } else {
            s
        },
        None => s,
    }
}

fn trim_rs(s: &str) -> (r: String)
    ensures
        r@ == without_rs(s@),
    decreases s@.len(),
{
    proof {
        reveal_strlit(".rs");
    }
    match strip_suffix(s, ".rs") {
        Some(t) => trim_rs(t),
        None => s.to_owned(),
    }
}

/// The target that a file of a directory stands for: a source file right in it, or the `main.rs` of a
/// directory in it.
pub open spec fn spot_of(file: Seq<char>, dir: Seq<char>) -> Option<SpotView> {
    match after_prefix(file, dir + "/"@) {
        None => None,
        Some(rel) => match split_first(rel, '/') {
            None => if ends(rel, ".rs"@) && !starts(rel, "."@) {
                Some((without_rs(rel), file))
            } else {
                None
            },
            Some((name, rest)) => if rest == "main.rs"@ {
                Some((name, file))
            } else {
                None
            },
        },
    }
}

pub open spec fn spots_upto(files: Seq<Seq<char>>, dir: Seq<char>, n: int) -> Seq<SpotView>
    decreases n,
{
    if n <= 0 || n > files.len() {
        Seq::empty()
    } else {
        match spot_of(files[n - 1], dir) {
            Some(s) => spots_upto(files, dir, n - 1).push(s),
            None => spots_upto(files, dir, n - 1),
        }
    }
}

/// The targets that the files of a directory stand for.
pub open spec fn spots_in(files: Set<Seq<char>>, dir: Seq<char>) -> Seq<SpotView> {
    in_order::<Spot>(spots_upto(listed(files), dir, listed(files).len() as int))
}

fn discover(files: &StrSet, dir: &str) -> (r: Vec<Spot>)
    ensures
        views(r@) == spots_in(files@, dir@),
{
    let all = files.items();
    let ghost l = listed(files@);
    let prefix = cat(dir, "/");
    let mut out: Vec<Spot> = Vec::new();
    let mut k: usize = 0;
    assert(views(out@) =~= Seq::<SpotView>::empty());
    while k < all.len()
        invariant
            k <= all@.len(),
            l == views(all@),
            prefix@ == dir@ + "/"@,
            views(out@) == spots_upto(l, dir@, k as int),
        decreases all@.len() - k,
    {
        assert(l[k as int] == all@[k as int]@);
        let ghost was = out@;
        if let Some(rel) = strip_prefix(all[k].as_str(), prefix.as_str()) {
            match split_once(rel, '/') {
                None => {
                    if ends_with(rel, ".rs") && !starts_with(rel, ".") {
                        out.push(Spot { name: trim_rs(rel), path: all[k].clone() });
                        assert(views(out@) =~= views(was).push((without_rs(rel@), l[k as int])));
                    }
                },
                Some((name, rest)) => {
                    if same(rest, "main.rs") {
                        out.push(Spot { name: name.to_owned(), path: all[k].clone() });
                        assert(views(out@) =~= views(was).push((name@, l[k as int])));
                    }
                },
            }
        }
        k += 1;
    }
    assert(views(all@).len() == all@.len());
    sort(out)
}

/// A package whose targets are looked for: its directory, its name, its edition, and the files that are
/// there.
#[derive(Clone, Copy)]
pub struct Place<'a> {
    pub root: &'a str,
    pub name: &'a str,
    pub edition: &'a str,
    pub files: &'a StrSet,
}

pub struct PlaceView {
    pub root: Seq<char>,
    pub name: Seq<char>,
    pub edition: Seq<char>,
    pub files: Set<Seq<char>>,
}

impl<'a> View for Place<'a> {
    type V = PlaceView;

    open spec fn view(&self) -> PlaceView {
        PlaceView { root: self.root@, name: self.name@, edition: self.edition@, files: self.files@ }
    }
}

pub open spec fn no_entries() -> Entries {
    Seq::empty()
}

pub open spec fn own_main(p: PlaceView) -> Seq<char> {
    under(p.root, "src/main.rs"@)
}

/// What a kind of targets has by default.
pub open spec fn defaults_of(s: Section) -> (bool, bool, bool) {
    (s.test, s.bench, s.doc)
}

/// The file of a target that names no path.
pub open spec fn usual_file(p: PlaceView, s: Section, name: Seq<char>) -> Option<Seq<char>> {
    let dir = under(p.root, s.dir@);
    let flat = under(dir, name + ".rs"@);
    let deep = under(under(dir, name), "main.rs"@);
    if p.files.contains(flat) {
        Some(flat)
    } else if p.files.contains(deep) {
        Some(deep)
    } else if s.kind == TargetKind::Bin && name == p.name && p.files.contains(own_main(p)) {
        Some(own_main(p))
    } else {
        None
    }
}

fn find_file(p: Place<'_>, s: Section, name: &str) -> (r: Option<String>)
    ensures
        opt_view(r) == usual_file(p@, s, name@),
{
    let dir = join(p.root, s.dir);
    let flat = join(dir.as_str(), cat(name, ".rs").as_str());
    if p.files.contains(flat.as_str()) {
        return Some(flat);
    }
    let deep = join(join(dir.as_str(), name).as_str(), "main.rs");
    if p.files.contains(deep.as_str()) {
        return Some(deep);
    }
    let main = join(p.root, "src/main.rs");
    if s.kind == TargetKind::Bin && same(name, p.name) && p.files.contains(main.as_str()) {
        Some(main)
    } else {
        None
    }
}

/// The target that an entry of the manifest declares.
pub open spec fn declared_target(t: Entries, s: Section, p: PlaceView) -> Result<TargetView, ManifestFault> {
    let name = text_of(at(t, "name"@));
    let path = match text_of(at(t, "path"@)) {
        Some(f) => Ok(under(p.root, f)),
        None => match name {
            None => Err(ManifestFault::Nameless(s.key@)),
            Some(n) => match usual_file(p, s, n) {
                Some(f) => Ok(f),
                None => Err(ManifestFault::Missing(n, s.key@)),
            },
        },
    };
    match path {
        Err(e) => Err(e),
        Ok(f) => match name {
            Some(n) => Ok(target_in(t, s.kind, defaults_of(s), n, f, p.edition)),
            None => match base_name(f) {
                Some(b) => Ok(target_in(t, s.kind, defaults_of(s), stem_of(b), f, p.edition)),
                None => Err(ManifestFault::Unnamed(f)),
            },
        },
    }
}

fn read_target(t: &Vec<(String, Toml)>, s: Section, p: Place<'_>) -> (r: Result<Target, ManifestError>)
    ensures
        seen_as(r) == declared_target(toml_entries(t@), s, p@),
{
    let name = text_under(t, "name");
    let path = match text_under(t, "path") {
        Some(f) => join(p.root, f),
        None => match name {
            None => {
                return Err(ManifestError::Nameless(s.key.to_owned()));
            },
            Some(n) => match find_file(p, s, n) {
                Some(f) => f,
                None => {
                    return Err(ManifestError::Missing(n.to_owned(), s.key.to_owned()));
                },
            },
        },
    };
    let name = match name {
        Some(n) => n.to_owned(),
        None => match file_stem(path.as_str()) {
            Some(n) => n,
            None => {
                return Err(ManifestError::Unnamed(path));
            },
        },
    };
    Ok(target_from_table(t, s.kind, (s.test, s.bench, s.doc), name, path, p.edition))
}

pub type Targets = Result<Seq<TargetView>, ManifestFault>;

/// The targets that the first `n` entries declare. What is no table declares none.
pub open spec fn declared_upto(l: Seq<TomlTree>, s: Section, p: PlaceView, n: int) -> Targets
    decreases n,
{
    if n <= 0 || n > l.len() {
        Ok(Seq::empty())
    } else {
        match declared_upto(l, s, p, n - 1) {
            Err(e) => Err(e),
            Ok(ts) => match l[n - 1] {
                TomlTree::Table(t) => match declared_target(t, s, p) {
                    Err(e) => Err(e),
                    Ok(t) => Ok(ts.push(t)),
                },
                _ => Ok(ts),
            },
        }
    }
}

pub open spec fn declared_in(o: Option<TomlTree>, s: Section, p: PlaceView) -> Targets {
    match o {
        Some(TomlTree::Array(l)) => declared_upto(l, s, p, l.len() as int),
        _ => Ok(Seq::empty()),
    }
}

proof fn lemma_declared_error(l: Seq<TomlTree>, s: Section, p: PlaceView, a: int, b: int)
    requires
        0 <= a <= b <= l.len(),
        declared_upto(l, s, p, a).is_err(),
    ensures
        declared_upto(l, s, p, b) == declared_upto(l, s, p, a),
    decreases b - a,
{
    if a < b {
        lemma_declared_error(l, s, p, a, b - 1);
    }
}

fn read_declared(o: Option<&Toml>, s: Section, p: Place<'_>) -> (r: Result<Vec<Target>, ManifestError>)
    ensures
        match declared_in(tree_opt(o), s, p@) {
            Ok(l) => r matches Ok(v) && views(v@) == l,
            Err(e) => r matches Err(x) && x@ == e,
        },
{
    let mut out: Vec<Target> = Vec::new();
    assert(views(out@) =~= Seq::<TargetView>::empty());
    match o {
        Some(Toml::Array(l)) => {
            let ghost all = crate::value::toml_trees(l@);
            assert(tree_opt(o) == Some(TomlTree::Array(all)));
            let mut k: usize = 0;
            while k < l.len()
                invariant
                    k <= l@.len(),
                    all == crate::value::toml_trees(l@),
                    tree_opt(o) == Some(TomlTree::Array(all)),
                    declared_upto(all, s, p@, k as int) == Ok::<_, ManifestFault>(views(out@)),
                decreases l@.len() - k,
            {
                assert(all[k as int] == l@[k as int]@);
                let ghost was = out@;
                if let Toml::Table(t) = &l[k] {
                    match read_target(t, s, p) {
                        Ok(t) => {
                            out.push(t);
                            assert(views(out@) =~= views(was).push(t@));
                        },
                        Err(e) => {
                            proof {
                                lemma_declared_error(all, s, p@, k + 1, all.len() as int);
                            }
                            return Err(e);
                        },
                    }
                }
                k += 1;
            }
            Ok(out)
        },
        _ => Ok(out),
    }
}

/// One of the targets has the name.
pub open spec fn named(ts: Seq<TargetView>, name: Seq<char>) -> bool {
    exists|i: int| 0 <= i < ts.len() && (#[trigger] ts[i]).name == name
}

/// One of the targets of the kind has the source file.
pub open spec fn sourced(ts: Seq<TargetView>, kind: TargetKind, path: Seq<char>) -> bool {
    exists|i: int| 0 <= i < ts.len() && (#[trigger] ts[i]).kind == kind && same_place(ts[i].src_path, path)
}

fn is_named(ts: &Vec<Target>, from: usize, to: usize, name: &str) -> (r: bool)
    requires
        from <= to <= ts@.len(),
    ensures
        r == named(views(ts@).subrange(from as int, to as int), name@),
{
    let ghost part = views(ts@).subrange(from as int, to as int);
    let mut i: usize = from;
    while i < to
        invariant
            from <= i <= to <= ts@.len(),
            part == views(ts@).subrange(from as int, to as int),
            forall|j: int| 0 <= j < i - from ==> (#[trigger] part[j]).name != name@,
        decreases to - i,
    {
        assert(part[i - from] == ts@[i as int]@);
        if same(ts[i].name.as_str(), name) {
            return true;
        }
        i += 1;
    }
    false
}

fn is_sourced(ts: &Vec<Target>, kind: TargetKind, path: &str) -> (r: bool)
    ensures
        r == sourced(views(ts@), kind, path@),
{
    let ghost all = views(ts@);
    let mut i: usize = 0;
    while i < ts.len()
        invariant
            i <= ts@.len(),
            all == views(ts@),
            forall|j: int| 0 <= j < i ==> !((#[trigger] all[j]).kind == kind && same_place(all[j].src_path, path@)),
        decreases ts@.len() - i,
    {
        assert(all[i as int] == ts@[i as int]@);
        if ts[i].kind == kind && is_same_place(ts[i].src_path.as_str(), path) {
            return true;
        }
        i += 1;
    }
    false
}

/// The targets with those of the first `n` files that were found, where neither an entry of the manifest
/// has the name, nor a target of the kind the file.
pub open spec fn found_upto(
    found: Seq<SpotView>,
    ts: Seq<TargetView>,
    declared: Seq<TargetView>,
    s: Section,
    edition: Seq<char>,
    n: int,
) -> Seq<TargetView>
    decreases n,
{
    if n <= 0 || n > found.len() {
        ts
    } else {
        let so_far = found_upto(found, ts, declared, s, edition, n - 1);
        let (name, path) = found[n - 1];
        if named(declared, name) || sourced(so_far, s.kind, path) {
            so_far
        } else {
            so_far.push(target_in(no_entries(), s.kind, defaults_of(s), name, path, edition))
        }
    }
}

/// What is found of a kind of targets, unless the package turns that off.
pub open spec fn found_of(pkg: Entries, s: Section, p: PlaceView) -> Seq<SpotView> {
    if !flag_or(at(pkg, s.auto@), true) {
        Seq::empty()
    } else if s.kind == TargetKind::Bin && p.files.contains(own_main(p)) {
        seq![(p.name, own_main(p))] + spots_in(p.files, under(p.root, s.dir@))
    } else {
        spots_in(p.files, under(p.root, s.dir@))
    }
}

/// The targets with those of one more kind.
pub open spec fn with_section(m: Entries, pkg: Entries, s: Section, p: PlaceView, ts: Seq<TargetView>) -> Targets {
    match declared_in(at(m, s.key@), s, p) {
        Err(e) => Err(e),
        Ok(d) => {
            let f = found_of(pkg, s, p);
            Ok(found_upto(f, ts + d, d, s, p.edition, f.len() as int))
        },
    }
}

fn find_spots(pkg: &Vec<(String, Toml)>, s: Section, p: Place<'_>) -> (r: Vec<Spot>)
    ensures
        views(r@) == found_of(toml_entries(pkg@), s, p@),
{
    let mut out: Vec<Spot> = Vec::new();
    assert(views(out@) =~= Seq::<SpotView>::empty());
    if bool_or(get(pkg, s.auto), true) {
        let main = join(p.root, "src/main.rs");
        if s.kind == TargetKind::Bin && p.files.contains(main.as_str()) {
            out.push(Spot { name: p.name.to_owned(), path: main });
        }
        let ghost first = out@;
        let mut more = discover(p.files, join(p.root, s.dir).as_str());
        let ghost rest = more@;
        out.append(&mut more);
        assert(views(out@) =~= views(first) + views(rest));
        proof {
            if s.kind == TargetKind::Bin && p.files@.contains(main@) {
                assert(views(first) =~= seq![(p.name@, own_main(p@))]);
            } else {
                assert(views(first) + views(rest) =~= views(rest));
            }
        }
    }
    out
}

fn add_section(ts: &mut Vec<Target>, m: &Vec<(String, Toml)>, pkg: &Vec<(String, Toml)>, s: Section, p: Place<'_>) -> (r: Result<
    (),
    ManifestError,
>)
    ensures
        match with_section(toml_entries(m@), toml_entries(pkg@), s, p@, views(old(ts)@)) {
            Ok(l) => r.is_ok() && views(final(ts)@) == l,
            Err(e) => r matches Err(x) && x@ == e,
        },
{
    let ghost first = views(ts@);
    let found = find_spots(pkg, s, p);
    let ghost fv = views(found@);
    let mut declared = match read_declared(get(m, s.key), s, p) {
        Ok(d) => d,
        Err(e) => {
            return Err(e);
        },
    };
    let ghost dv = views(declared@);
    let from: usize = ts.len();
    let ghost start = ts@;
    let ghost dd = declared@;
    ts.append(&mut declared);
    let to: usize = ts.len();
    assert(views(ts@) =~= first + dv);
    let none: Vec<(String, Toml)> = Vec::new();
    assert(toml_entries(none@) =~= no_entries());
    let mut k: usize = 0;
    while k < found.len()
        invariant
            k <= found@.len(),
            fv == views(found@),
            from == first.len(),
            to == from + dv.len(),
            to <= ts@.len(),
            views(ts@).subrange(from as int, to as int) == dv,
            toml_entries(none@) == no_entries(),
            views(ts@) == found_upto(fv, first + dv, dv, s, p@.edition, k as int),
        decreases found@.len() - k,
    {
        assert(fv[k as int] == found@[k as int]@);
        let ghost was = ts@;
        if !is_named(ts, from, to, found[k].name.as_str()) && !is_sourced(ts, s.kind, found[k].path.as_str()) {
            let t = target_from_table(
                &none,
                s.kind,
                (s.test, s.bench, s.doc),
                found[k].name.clone(),
                found[k].path.clone(),
                p.edition,
            );
            ts.push(t);
            assert(views(ts@) =~= views(was).push(t@));
            assert(views(ts@).subrange(from as int, to as int) =~= views(was).subrange(from as int, to as int));
        }
        k += 1;
    }
    assert(fv.len() == found@.len());
    Ok(())
}

/// The library: what `[lib]` says, and its file where it is found.
pub open spec fn lib_of(m: Entries, pkg: Entries, p: PlaceView) -> Seq<TargetView> {
    let usual = under(p.root, "src/lib.rs"@);
    let t = match at(m, "lib"@) {
        Some(TomlTree::Table(t)) => t,
        _ => no_entries(),
    };
    let src = match text_of(at(t, "path"@)) {
        Some(f) => Some(under(p.root, f)),
        None => if flag_or(at(pkg, "autolib"@), true) && p.files.contains(usual) {
            Some(usual)
        } else {
            None
        },
    };
    let name = match text_of(at(t, "name"@)) {
        Some(n) => n,
        None => swapped(p.name, '-', '_'),
    };
    match src {
        Some(f) => seq![target_in(t, TargetKind::Lib, (true, true, true), name, f, p.edition)],
        None => Seq::empty(),
    }
}

fn find_lib(m: &Vec<(String, Toml)>, pkg: &Vec<(String, Toml)>, p: Place<'_>) -> (r: Vec<Target>)
    ensures
        views(r@) == lib_of(toml_entries(m@), toml_entries(pkg@), p@),
{
    let none: Vec<(String, Toml)> = Vec::new();
    assert(toml_entries(none@) =~= no_entries());
    let t: &Vec<(String, Toml)> = match get(m, "lib") {
        Some(Toml::Table(t)) => t,
        _ => &none,
    };
    let usual = join(p.root, "src/lib.rs");
    let src = match text_under(t, "path") {
        Some(f) => Some(join(p.root, f)),
        None => if bool_or(get(pkg, "autolib"), true) && p.files.contains(usual.as_str()) {
            Some(usual)
        } else {
            None
        },
    };
    let mut out: Vec<Target> = Vec::new();
    assert(views(out@) =~= Seq::<TargetView>::empty());
    match src {
        Some(f) => {
            let name = match text_under(t, "name") {
                Some(n) => n.to_owned(),
                None => replace_char(p.name, '-', '_'),
            };
            let lib = target_from_table(t, TargetKind::Lib, (true, true, true), name, f, p.edition);
            out.push(lib);
            assert(views(out@) =~= seq![lib@]);
        },
        None => {},
    }
    out
}

/// The build script: the file that `build` names, or `build.rs` where it is found.
pub open spec fn script_of(pkg: Entries, p: PlaceView) -> Seq<TargetView> {
    let usual = under(p.root, "build.rs"@);
    let src = match at(pkg, "build"@) {
        Some(TomlTree::Bool(false)) => None,
        Some(TomlTree::Str(f)) => Some(under(p.root, f)),
        _ => if p.files.contains(usual) {
            Some(usual)
        } else {
            None
        },
    };
    match src {
        None => Seq::empty(),
        Some(f) => seq![
            TargetView {
                name: "build-script-"@ + (match base_name(f) {
                    Some(n) => stem_of(n),
                    None => "build"@,
                }),
                kind: TargetKind::BuildScript,
                crate_types: seq!["bin"@],
                src_path: f,
                edition: p.edition,
                required_features: Seq::empty(),
                test: false,
                bench: false,
                doc: false,
                doctest: false,
                harness: false,
            },
        ],
    }
}

fn find_script(pkg: &Vec<(String, Toml)>, p: Place<'_>) -> (r: Vec<Target>)
    ensures
        views(r@) == script_of(toml_entries(pkg@), p@),
{
    let usual = join(p.root, "build.rs");
    let src = match get(pkg, "build") {
        Some(Toml::Bool(false)) => None,
        Some(Toml::Str(f)) => Some(join(p.root, f.as_str())),
        _ => if p.files.contains(usual.as_str()) {
            Some(usual)
        } else {
            None
        },
    };
    let mut out: Vec<Target> = Vec::new();
    assert(views(out@) =~= Seq::<TargetView>::empty());
    match src {
        Some(f) => {
            let stem = match file_stem(f.as_str()) {
                Some(s) => s,
                None => "build".to_owned(),
            };
            let none: Vec<String> = Vec::new();
            assert(views(none@) =~= Seq::<Seq<char>>::empty());
            let t = Target {
                name: cat("build-script-", stem.as_str()),
                kind: TargetKind::BuildScript,
                crate_types: one("bin"),
                src_path: f,
                edition: p.edition.to_owned(),
                required_features: none,
                test: false,
                bench: false,
                doc: false,
                doctest: false,
                harness: false,
            };
            out.push(t);
            assert(views(out@) =~= seq![t@]);
        },
        None => {},
    }
    out
}

/// The library and the targets of the first `k` kinds.
pub open spec fn kinds_upto(m: Entries, pkg: Entries, p: PlaceView, k: int) -> Targets
    decreases k,
{
    if k <= 0 {
        Ok(lib_of(m, pkg, p))
    } else {
        match kinds_upto(m, pkg, p, k - 1) {
            Err(e) => Err(e),
            Ok(ts) => with_section(m, pkg, section_of(k - 1), p, ts),
        }
    }
}

/// The targets of a package: its library, its binaries, examples, tests and benches, and its build script.
pub open spec fn targets_of(m: Entries, pkg: Entries, p: PlaceView) -> Targets {
    match kinds_upto(m, pkg, p, 4) {
        Err(e) => Err(e),
        Ok(ts) => Ok(ts + script_of(pkg, p)),
    }
}

proof fn lemma_kinds_error(m: Entries, pkg: Entries, p: PlaceView, a: int, b: int)
    requires
        0 <= a <= b,
        kinds_upto(m, pkg, p, a).is_err(),
    ensures
        kinds_upto(m, pkg, p, b) == kinds_upto(m, pkg, p, a),
    decreases b - a,
{
    if a < b {
        lemma_kinds_error(m, pkg, p, a, b - 1);
    }
}

/// The targets of a package, from its manifest and from the files that are there.
pub fn discover_targets(manifest: &Vec<(String, Toml)>, pkg: &Vec<(String, Toml)>, place: Place<'_>) -> (r: Result<
    Vec<Target>,
    ManifestError,
>)
    ensures
        match targets_of(toml_entries(manifest@), toml_entries(pkg@), place@) {
            Ok(l) => r matches Ok(v) && views(v@) == l,
            Err(e) => r matches Err(x) && x@ == e,
        },
{
    let ghost m = toml_entries(manifest@);
    let ghost pv = toml_entries(pkg@);
    let mut ts = find_lib(manifest, pkg, place);
    let mut k: usize = 0;
    while k < 4
        invariant
            k <= 4,
            m == toml_entries(manifest@),
            pv == toml_entries(pkg@),
            kinds_upto(m, pv, place@, k as int) == Ok::<_, ManifestFault>(views(ts@)),
        decreases 4 - k,
    {
        match add_section(&mut ts, manifest, pkg, section(k), place) {
            Ok(_) => {},
            Err(e) => {
                proof {
                    lemma_kinds_error(m, pv, place@, k + 1, 4);
                }
                return Err(e);
            },
        }
        k += 1;
    }
    let ghost so_far = ts@;
    let mut script = find_script(pkg, place);
    let ghost last = script@;
    ts.append(&mut script);
    assert(views(ts@) =~= views(so_far) + views(last));
    Ok(ts)
}

// ---------------------------------------------------------------------------
// Packages.

/// The model of a package.
pub struct PackageView {
    pub name: Seq<char>,
    pub version: VersionView,
    pub edition: Seq<char>,
    pub manifest_path: Seq<char>,
    pub root: Seq<char>,
    pub links: Option<Seq<char>>,
    pub authors: Seq<Seq<char>>,
    pub about: About,
    pub readme: Option<Seq<char>>,
    pub default_run: Option<Seq<char>>,
    pub deps: Seq<DepDeclView>,
    pub features: FeatureMap,
    pub targets: Seq<TargetView>,
    pub lints: Option<Entries>,
}

/// What a package says of itself.
pub struct About {
    pub description: Option<Seq<char>>,
    pub homepage: Option<Seq<char>>,
    pub repository: Option<Seq<char>>,
    pub license: Option<Seq<char>>,
    pub license_file: Option<Seq<char>>,
    pub rust_version: Option<Seq<char>>,
}

pub open spec fn table_opt(o: Option<Vec<(String, Toml)>>) -> Option<Entries> {
    match o {
        Some(t) => Some(toml_entries(t@)),
        None => None,
    }
}

impl View for Package {
    type V = PackageView;

    open spec fn view(&self) -> PackageView {
        PackageView {
            name: self.name@,
            version: self.version@,
            edition: self.edition@,
            manifest_path: self.manifest_path@,
            root: self.root@,
            links: opt_view(self.links),
            authors: views(self.authors@),
            about: About {
                description: opt_view(self.description),
                homepage: opt_view(self.homepage),
                repository: opt_view(self.repository),
                license: opt_view(self.license),
                license_file: opt_view(self.license_file),
                rust_version: opt_view(self.rust_version),
            },
            readme: opt_view(self.readme),
            default_run: opt_view(self.default_run),
            deps: views(self.deps@),
            features: feature_lists(self.features@),
            targets: views(self.targets@),
            lints: table_opt(self.lints),
        }
    }
}

/// A field of the package, or what the workspace has for it where the field inherits.
pub open spec fn field_in(pkg: Entries, key: Seq<char>, ws: Option<WsView>) -> Result<Option<TomlTree>, ManifestFault> {
    match at(pkg, key) {
        Some(v) => if inherits(v) {
            match ws {
                None => Err(ManifestFault::FieldNoWorkspace(key)),
                Some(w) => match shared(w, "package"@, key) {
                    None => Err(ManifestFault::FieldNotShared(key)),
                    Some(v) => Ok(Some(v)),
                },
            }
        } else {
            Ok(Some(v))
        },
        None => Ok(None),
    }
}

fn inherited<'a>(pkg: &'a Vec<(String, Toml)>, key: &str, ws: Option<&WsContext<'a>>) -> (r: Result<Option<&'a Toml>, ManifestError>)
    ensures
        match field_in(toml_entries(pkg@), key@, ws_view(ws)) {
            Ok(o) => r matches Ok(v) && tree_opt(v) == o,
            Err(e) => r matches Err(x) && x@ == e,
        },
{
    match get(pkg, key) {
        Some(v) => if is_inherit(v) {
            match ws {
                None => Err(ManifestError::FieldNoWorkspace(key.to_owned())),
                Some(w) => match get_shared(w, "package", key) {
                    None => Err(ManifestError::FieldNotShared(key.to_owned())),
                    Some(v) => Ok(Some(v)),
                },
            }
        } else {
            Ok(Some(v))
        },
        None => Ok(None),
    }
}

pub open spec fn text_in(pkg: Entries, key: Seq<char>, ws: Option<WsView>) -> Result<Option<Seq<char>>, ManifestFault> {
    match field_in(pkg, key, ws) {
        Ok(o) => Ok(text_of(o)),
        Err(e) => Err(e),
    }
}

fn str_field(pkg: &Vec<(String, Toml)>, key: &str, ws: Option<&WsContext<'_>>) -> (r: Result<Option<String>, ManifestError>)
    ensures
        match text_in(toml_entries(pkg@), key@, ws_view(ws)) {
            Ok(o) => r matches Ok(v) && opt_view(v) == o,
            Err(e) => r matches Err(x) && x@ == e,
        },
{
    match inherited(pkg, key, ws) {
        Ok(Some(Toml::Str(s))) => Ok(Some(s.clone())),
        Ok(_) => Ok(None),
        Err(e) => Err(e),
    }
}

pub open spec fn version_in(pkg: Entries, ws: Option<WsView>) -> Result<VersionView, ManifestFault> {
    match text_in(pkg, "version"@, ws) {
        Err(e) => Err(e),
        Ok(None) => Ok(VersionView { major: 0, minor: 0, patch: 0, pre: Seq::empty(), build: Seq::empty() }),
        Ok(Some(s)) => match version_of(s) {
            Some(v) => Ok(v),
            None => Err(ManifestFault::Version(s)),
        },
    }
}

fn read_version(pkg: &Vec<(String, Toml)>, ws: Option<&WsContext<'_>>) -> (r: Result<Version, ManifestError>)
    ensures
        seen_as(r) == version_in(toml_entries(pkg@), ws_view(ws)),
{
    match str_field(pkg, "version", ws) {
        Err(e) => Err(e),
        Ok(None) => Ok(Version::new(0, 0, 0)),
        Ok(Some(s)) => match Version::parse(s.as_str()) {
            Some(v) => Ok(v),
            None => Err(ManifestError::Version(s)),
        },
    }
}

/// The readme: the file that is named, or the first of the usual ones that is there.
pub open spec fn readme_in(o: Option<TomlTree>, root: Seq<char>, files: Set<Seq<char>>) -> Option<Seq<char>> {
    match o {
        Some(TomlTree::Bool(false)) => None,
        Some(TomlTree::Bool(true)) => Some("README.md"@),
        Some(TomlTree::Str(s)) => Some(s),
        _ => if files.contains(under(root, "README.md"@)) {
            Some("README.md"@)
        } else if files.contains(under(root, "README.txt"@)) {
            Some("README.txt"@)
        } else if files.contains(under(root, "README"@)) {
            Some("README"@)
        } else {
            None
        },
    }
}

fn find_readme(o: Option<&Toml>, root: &str, files: &StrSet) -> (r: Option<String>)
    ensures
        opt_view(r) == readme_in(tree_opt(o), root@, files@),
{
    match o {
        Some(Toml::Bool(false)) => None,
        Some(Toml::Bool(true)) => Some("README.md".to_owned()),
        Some(Toml::Str(s)) => Some(s.clone()),
        _ => if files.contains(join(root, "README.md").as_str()) {
            Some("README.md".to_owned())
        } else if files.contains(join(root, "README.txt").as_str()) {
            Some("README.txt".to_owned())
        } else if files.contains(join(root, "README").as_str()) {
            Some("README".to_owned())
        } else {
            None
        },
    }
}

/// The features of the first `n` entries.
pub open spec fn features_upto(t: Entries, n: int) -> FeatureMap
    decreases n,
{
    if n <= 0 || n > t.len() {
        Map::empty()
    } else {
        features_upto(t, n - 1).insert(t[n - 1].0, texts(Some(t[n - 1].1)))
    }
}

pub open spec fn declared_features(o: Option<TomlTree>) -> FeatureMap {
    match o {
        Some(TomlTree::Table(t)) => features_upto(t, t.len() as int),
        _ => Map::empty(),
    }
}

fn read_features(o: Option<&Toml>) -> (r: StrMap<Vec<String>>)
    ensures
        feature_lists(r@) == declared_features(tree_opt(o)),
{
    let mut out: StrMap<Vec<String>> = StrMap::new();
    assert(feature_lists(out@) =~= Map::<Seq<char>, Seq<Seq<char>>>::empty());
    match o {
        Some(Toml::Table(t)) => {
            let ghost all = toml_entries(t@);
            assert(tree_opt(o) == Some(TomlTree::Table(all)));
            let mut k: usize = 0;
            while k < t.len()
                invariant
                    k <= t@.len(),
                    all == toml_entries(t@),
                    feature_lists(out@) == features_upto(all, k as int),
                decreases t@.len() - k,
            {
                assert(all[k as int] == (t@[k as int].0@, t@[k as int].1@));
                let l = strings_in(Some(&t[k].1));
                let ghost was = out@;
                out.insert(t[k].0.as_str(), l);
                assert(feature_lists(out@) =~= feature_lists(was).insert(t@[k as int].0@, views(l@)));
                k += 1;
            }
        },
        _ => {},
    }
    out
}

pub open spec fn about_in(pkg: Entries, ws: Option<WsView>) -> Result<About, ManifestFault> {
    match text_in(pkg, "description"@, ws) {
        Err(e) => Err(e),
        Ok(description) => match text_in(pkg, "homepage"@, ws) {
            Err(e) => Err(e),
            Ok(homepage) => match text_in(pkg, "repository"@, ws) {
                Err(e) => Err(e),
                Ok(repository) => match text_in(pkg, "license"@, ws) {
                    Err(e) => Err(e),
                    Ok(license) => match text_in(pkg, "license-file"@, ws) {
                        Err(e) => Err(e),
                        Ok(license_file) => match text_in(pkg, "rust-version"@, ws) {
                            Err(e) => Err(e),
                            Ok(rust_version) => Ok(
                                About { description, homepage, repository, license, license_file, rust_version },
                            ),
                        },
                    },
                },
            },
        },
    }
}

/// The lints of the package, or those of the workspace where it inherits them.
pub open spec fn lints_in(m: Entries, ws: Option<WsView>) -> Option<Entries> {
    let v = match at(m, "lints"@) {
        Some(v) => if inherits(v) {
            match ws {
                Some(w) => at(w.1, "lints"@),
                None => None,
            }
        } else {
            Some(v)
        },
        None => None,
    };
    match v {
        Some(TomlTree::Table(t)) => Some(t),
        _ => None,
    }
}

fn read_lints(m: &Vec<(String, Toml)>, ws: Option<&WsContext<'_>>) -> (r: Option<Vec<(String, Toml)>>)
    ensures
        table_opt(r) == lints_in(toml_entries(m@), ws_view(ws)),
{
    let v = match get(m, "lints") {
        Some(v) => if is_inherit(v) {
            match ws {
                Some(w) => get(w.table, "lints"),
                None => None,
            }
        } else {
            Some(v)
        },
        None => None,
    };
    match v {
        Some(Toml::Table(t)) => Some(dup_table(t)),
        _ => None,
    }
}

/// The table of the package itself.
pub open spec fn package_table(m: Entries) -> Option<Entries> {
    match either(m, "package"@, "project"@) {
        Some(TomlTree::Table(t)) => Some(t),
        _ => None,
    }
}

/// The package that a manifest describes.
pub open spec fn package_of(path: Seq<char>, m: Entries, ws: Option<WsView>, regs: Registries, files: Set<Seq<char>>) -> Result<
    PackageView,
    ManifestFault,
> {
    let root = up(path).unwrap();
    if at(m, "cargo-features"@).is_some() {
        Err(ManifestFault::Unstable)
    } else {
        match package_table(m) {
            None => Err(ManifestFault::NoPackage),
            Some(pkg) => match text_of(at(pkg, "name"@)) {
                None => Err(ManifestFault::NoName),
                Some(name) => named_package(path, root, name, m, pkg, ws, regs, files),
            },
        }
    }
}

pub open spec fn named_package(
    path: Seq<char>,
    root: Seq<char>,
    name: Seq<char>,
    m: Entries,
    pkg: Entries,
    ws: Option<WsView>,
    regs: Registries,
    files: Set<Seq<char>>,
) -> Result<PackageView, ManifestFault> {
    match version_in(pkg, ws) {
        Err(e) => Err(e),
        Ok(version) => match text_in(pkg, "edition"@, ws) {
            Err(e) => Err(e),
            Ok(edition) => match field_in(pkg, "authors"@, ws) {
                Err(e) => Err(e),
                Ok(authors) => match field_in(pkg, "readme"@, ws) {
                    Err(e) => Err(e),
                    Ok(readme) => {
                        let edition = match edition {
                            Some(e) => e,
                            None => "2015"@,
                        };
                        match deps_of(m, ScopeView { root, ws, regs }) {
                            Err(e) => Err(e),
                            Ok(deps) => match targets_of(m, pkg, PlaceView { root, name, edition, files }) {
                                Err(e) => Err(e),
                                Ok(targets) => match about_in(pkg, ws) {
                                    Err(e) => Err(e),
                                    Ok(about) => Ok(
                                        PackageView {
                                            name,
                                            version,
                                            edition,
                                            manifest_path: path,
                                            root,
                                            links: text_of(at(pkg, "links"@)),
                                            authors: texts(authors),
                                            about,
                                            readme: readme_in(readme, root, files),
                                            default_run: text_of(at(pkg, "default-run"@)),
                                            deps,
                                            features: with_implicit(declared_features(at(m, "features"@)), deps),
                                            targets,
                                            lints: lints_in(m, ws),
                                        },
                                    ),
                                },
                            },
                        }
                    },
                },
            },
        },
    }
}

fn owned(o: Option<&str>) -> (r: Option<String>)
    ensures
        opt_view(r) == crate::invocation::opt_text(o),
{
    match o {
        Some(s) => Some(s.to_owned()),
        None => None,
    }
}

fn read_named(
    path: &str,
    root: String,
    name: String,
    m: &Vec<(String, Toml)>,
    pkg: &Vec<(String, Toml)>,
    ws: Option<&WsContext<'_>>,
    regs: &StrMap<String>,
    files: &StrSet,
) -> (r: Result<Package, ManifestError>)
    ensures
        seen_as(r) == named_package(
            path@,
            root@,
            name@,
            toml_entries(m@),
            toml_entries(pkg@),
            ws_view(ws),
            regs@,
            files@,
        ),
{
    let version = match read_version(pkg, ws) {
        Ok(v) => v,
        Err(e) => {
            return Err(e);
        },
    };
    let edition = match str_field(pkg, "edition", ws) {
        Ok(Some(e)) => e,
        Ok(None) => "2015".to_owned(),
        Err(e) => {
            return Err(e);
        },
    };
    let authors = match inherited(pkg, "authors", ws) {
        Ok(o) => strings_in(o),
        Err(e) => {
            return Err(e);
        },
    };
    let readme = match inherited(pkg, "readme", ws) {
        Ok(o) => find_readme(o, root.as_str(), files),
        Err(e) => {
            return Err(e);
        },
    };
    let deps = match parse_deps(m, root.as_str(), ws, regs) {
        Ok(d) => d,
        Err(e) => {
            return Err(e);
        },
    };
    let place = Place { root: root.as_str(), name: name.as_str(), edition: edition.as_str(), files };
    let targets = match discover_targets(m, pkg, place) {
        Ok(t) => t,
        Err(e) => {
            return Err(e);
        },
    };
    let description = match str_field(pkg, "description", ws) {
        Ok(o) => o,
        Err(e) => {
            return Err(e);
        },
    };
    let homepage = match str_field(pkg, "homepage", ws) {
        Ok(o) => o,
        Err(e) => {
            return Err(e);
        },
    };
    let repository = match str_field(pkg, "repository", ws) {
        Ok(o) => o,
        Err(e) => {
            return Err(e);
        },
    };
    let license = match str_field(pkg, "license", ws) {
        Ok(o) => o,
        Err(e) => {
            return Err(e);
        },
    };
    let license_file = match str_field(pkg, "license-file", ws) {
        Ok(o) => o,
        Err(e) => {
            return Err(e);
        },
    };
    let rust_version = match str_field(pkg, "rust-version", ws) {
        Ok(o) => o,
        Err(e) => {
            return Err(e);
        },
    };
    let features = features_with_implicit(read_features(get(m, "features")), &deps);
    Ok(
        Package {
            name,
            version,
            edition,
            manifest_path: path.to_owned(),
            root,
            links: owned(text_under(pkg, "links")),
            authors,
            description,
            homepage,
            repository,
            license,
            license_file,
            rust_version,
            readme,
            default_run: owned(text_under(pkg, "default-run")),
            deps,
            features,
            targets,
            lints: read_lints(m, ws),
        },
    )
}

/// The package that the manifest at `path` describes. `files` are those that the package's directory holds.
pub fn parse_package(
    path: &str,
    table: &Vec<(String, Toml)>,
    ws: Option<&WsContext<'_>>,
    registries: &StrMap<String>,
    files: &StrSet,
) -> (r: Result<Package, ManifestError>)
    requires
        up(path@).is_some(),
    ensures
        seen_as(r) == package_of(path@, toml_entries(table@), ws_view(ws), registries@, files@),
{
    let root = match parent(path) {
        Some(d) => d,
        None => String::new(),
    };
    if get(table, "cargo-features").is_some() {
        return Err(ManifestError::Unstable);
    }
    let pkg = match get_either(table, "package", "project") {
        Some(Toml::Table(t)) => t,
        _ => {
            return Err(ManifestError::NoPackage);
        },
    };
    match text_under(pkg, "name") {
        None => Err(ManifestError::NoName),
        Some(n) => read_named(path, root, n.to_owned(), table, pkg, ws, registries, files),
    }
}

// ---------------------------------------------------------------------------
// The workspace above a package.

/// A directory above a manifest, and the table of the manifest in it, where there is one.
pub type Above = (Seq<char>, Option<Entries>);

pub open spec fn above_view(l: Seq<(String, Option<Vec<(String, Toml)>>)>) -> Seq<Above> {
    Seq::new(l.len(), |i: int| (l[i].0@, table_opt(l[i].1)))
}

/// The manifest of a directory above: its own where the manifest lies in it.
pub open spec fn table_above(path: Seq<char>, own: Entries, a: Above) -> Option<Entries> {
    if same_place(under(a.0, "Cargo.toml"@), path) {
        Some(own)
    } else {
        a.1
    }
}

pub open spec fn holds_workspace(o: Option<Entries>) -> bool {
    match o {
        Some(t) => at(t, "workspace"@).is_some(),
        None => false,
    }
}

/// The first directory from `k` on whose manifest has a `[workspace]`, looked for up to the boundary.
pub open spec fn home_from(path: Seq<char>, own: Entries, above: Seq<Above>, boundary: Option<Seq<char>>, k: int) -> Option<int>
    decreases above.len() - k,
{
    if k < 0 || k >= above.len() {
        None
    } else if holds_workspace(table_above(path, own, above[k])) {
        Some(k)
    } else if boundary matches Some(b) && same_place(above[k].0, b) {
        None
    } else {
        home_from(path, own, above, boundary, k + 1)
    }
}

/// The workspace that a package inherits from.
pub open spec fn home_of(path: Seq<char>, own: Entries, above: Seq<Above>, boundary: Option<Seq<char>>) -> Option<WsView> {
    match home_from(path, own, above, boundary, 0) {
        None => None,
        Some(k) => match at(table_above(path, own, above[k]).unwrap(), "workspace"@) {
            Some(TomlTree::Table(t)) => Some((above[k].0, t)),
            _ => None,
        },
    }
}

/// The package of a manifest that inherits from the nearest `[workspace]`, looked for up to `boundary`.
/// `above` are the directories from the one of the manifest up.
pub fn load_package(
    path: &str,
    table: &Vec<(String, Toml)>,
    above: &Vec<(String, Option<Vec<(String, Toml)>>)>,
    boundary: Option<&str>,
    registries: &StrMap<String>,
    files: &StrSet,
) -> (r: Result<Package, ManifestError>)
    requires
        up(path@).is_some(),
    ensures
        seen_as(r) == package_of(
            path@,
            toml_entries(table@),
            home_of(path@, toml_entries(table@), above_view(above@), crate::invocation::opt_text(boundary)),
            registries@,
            files@,
        ),
{
    let ghost own = toml_entries(table@);
    let ghost all = above_view(above@);
    let ghost bv = crate::invocation::opt_text(boundary);
    let mut k: usize = 0;
    while k < above.len()
        invariant
            k <= above@.len(),
            own == toml_entries(table@),
            all == above_view(above@),
            bv == crate::invocation::opt_text(boundary),
            up(path@).is_some(),
            home_from(path@, own, all, bv, 0) == home_from(path@, own, all, bv, k as int),
        decreases above@.len() - k,
    {
        assert(all[k as int] == (above@[k as int].0@, table_opt(above@[k as int].1)));
        let dir = above[k].0.as_str();
        let m: Option<&Vec<(String, Toml)>> = if is_same_place(join(dir, "Cargo.toml").as_str(), path) {
            Some(table)
        } else {
            above[k].1.as_ref()
        };
        if let Some(t) = m {
            if let Some(w) = get(t, "workspace") {
                assert(home_from(path@, own, all, bv, k as int) == Some(k as int));
                return match w {
                    Toml::Table(w) => {
                        let ctx = WsContext { root: dir, table: w };
                        parse_package(path, table, Some(&ctx), registries, files)
                    },
                    _ => parse_package(path, table, None, registries, files),
                };
            }
        }
        if let Some(b) = boundary {
            if is_same_place(dir, b) {
                return parse_package(path, table, None, registries, files);
            }
        }
        k += 1;
    }
    parse_package(path, table, None, registries, files)
}

// ---------------------------------------------------------------------------
// Editing dependencies.

/// The lines of a text from `from` on, each with the newline that ends it.
pub open spec fn full_lines(s: Seq<char>, from: int) -> Seq<Seq<char>>
    decreases s.len() - from,
{
    if from < 0 || from >= s.len() {
        Seq::empty()
    } else {
        let i = first_at(s, '\n', from);
        if from <= i < s.len() {
            seq![s.subrange(from, i + 1)] + full_lines(s, i + 1)
        } else {
            seq![s.subrange(from, s.len() as int)]
        }
    }
}

fn split_lines(s: &str) -> (r: Vec<String>)
    ensures
        views(r@) == full_lines(s@, 0),
{
    let cs = chars_of(s);
    let mut out: Vec<String> = Vec::new();
    let mut from: usize = 0;
    assert(views(out@) =~= Seq::<Seq<char>>::empty());
    assert(views(out@) + full_lines(s@, 0) =~= full_lines(s@, 0));
    while from < cs.len()
        invariant
            from <= cs@.len(),
            cs@ == s@,
            full_lines(s@, 0) == views(out@) + full_lines(s@, from as int),
        decreases cs@.len() - from,
    {
        let i: usize = find_from(&cs, '\n', from);
        proof {
            lemma_first_at(s@, '\n', from as int);
        }
        let ghost was = out@;
        let to: usize = if i < cs.len() {
            i + 1
        } else {
            cs.len()
        };
        let line = string_of(&cs, from, to);
        out.push(line);
        assert(views(out@) =~= views(was).push(line@));
        proof {
            if i < cs@.len() {
                assert(views(was) + (seq![line@] + full_lines(s@, i + 1)) =~= views(out@) + full_lines(s@, i + 1));
            } else {
                assert(full_lines(s@, to as int) =~= Seq::<Seq<char>>::empty());
                assert(views(was) + seq![line@] =~= views(out@) + full_lines(s@, to as int));
            }
        }
        from = to;
    }
    assert(full_lines(s@, from as int) =~= Seq::<Seq<char>>::empty());
    assert(views(out@) + Seq::<Seq<char>>::empty() =~= views(out@));
    out
}

/// The first line from `k` on that is the header, or the number of lines.
pub open spec fn header_from(lines: Seq<Seq<char>>, header: Seq<char>, k: int) -> int
    decreases lines.len() - k,
{
    if k < 0 || k >= lines.len() {
        lines.len() as int
    } else if trimmed(lines[k]) == header {
        k
    } else {
        header_from(lines, header, k + 1)
    }
}

/// The first line from `k` on that starts another section, or the number of lines.
pub open spec fn section_end(lines: Seq<Seq<char>>, k: int) -> int
    decreases lines.len() - k,
{
    if k < 0 || k >= lines.len() {
        lines.len() as int
    } else if starts(trimmed_start(lines[k]), "["@) {
        k
    } else {
        section_end(lines, k + 1)
    }
}

/// Whether a line sets the key.
pub open spec fn sets_key(line: Seq<char>, key: Seq<char>) -> bool {
    starts(trimmed(line), key + " "@) || starts(trimmed(line), key + "="@)
}

/// The first line from `k` up to `end` that sets the key, or `end`.
pub open spec fn key_from(lines: Seq<Seq<char>>, key: Seq<char>, k: int, end: int) -> int
    decreases end - k,
{
    if k < 0 || k >= end {
        end
    } else if sets_key(lines[k], key) {
        k
    } else {
        key_from(lines, key, k + 1, end)
    }
}

pub open spec fn header_of(section: Seq<char>) -> Seq<char> {
    "["@ + section + "]"@
}

/// The lines of a section: where its header stands, and where it ends.
pub open spec fn span_of(lines: Seq<Seq<char>>, section: Seq<char>) -> (int, int) {
    let start = header_from(lines, header_of(section), 0);
    (start, section_end(lines, start + 1))
}

fn find_span(lines: &Vec<String>, section: &str) -> (r: (usize, usize))
    ensures
        r.0 <= lines@.len(),
        r.1 <= lines@.len(),
        r.0 as int == span_of(views(lines@), section@).0,
        r.0 < lines@.len() ==> r.0 < r.1 && r.1 as int == span_of(views(lines@), section@).1,
{
    let ghost lv = views(lines@);
    let header = cat3("[", section, "]");
    let mut start: usize = 0;
    while start < lines.len() && !same(trim(lines[start].as_str()), header.as_str())
        invariant
            start <= lines@.len(),
            lv == views(lines@),
            header@ == header_of(section@),
            header_from(lv, header@, 0) == header_from(lv, header@, start as int),
        decreases lines@.len() - start,
    {
        assert(lv[start as int] == lines@[start as int]@);
        start += 1;
    }
    if start >= lines.len() {
        return (start, start);
    }
    assert(lv[start as int] == lines@[start as int]@);
    let mut end: usize = start + 1;
    while end < lines.len() && !starts_with(trim_start(lines[end].as_str()), "[")
        invariant
            start < end <= lines@.len(),
            lv == views(lines@),
            section_end(lv, start + 1) == section_end(lv, end as int),
        decreases lines@.len() - end,
    {
        assert(lv[end as int] == lines@[end as int]@);
        end += 1;
    }
    proof {
        if end < lines@.len() {
            assert(lv[end as int] == lines@[end as int]@);
        }
    }
    (start, end)
}

fn find_key(lines: &Vec<String>, key: &str, from: usize, end: usize) -> (r: usize)
    requires
        from <= end <= lines@.len(),
    ensures
        from <= r <= end,
        r as int == key_from(views(lines@), key@, from as int, end as int),
{
    let ghost lv = views(lines@);
    let spaced = cat(key, " ");
    let equals = cat(key, "=");
    let mut k: usize = from;
    while k < end
        invariant
            from <= k <= end <= lines@.len(),
            lv == views(lines@),
            spaced@ == key@ + " "@,
            equals@ == key@ + "="@,
            key_from(lv, key@, from as int, end as int) == key_from(lv, key@, k as int, end as int),
        decreases end - k,
    {
        assert(lv[k as int] == lines@[k as int]@);
        let t = trim(lines[k].as_str());
        if starts_with(t, spaced.as_str()) || starts_with(t, equals.as_str()) {
            return k;
        }
        k += 1;
    }
    k
}

/// The text without the line that sets the key in the section; nothing where no line does.
pub open spec fn without_key(text: Seq<char>, section: Seq<char>, key: Seq<char>) -> Option<Seq<char>> {
    let lines = full_lines(text, 0);
    let (start, end) = span_of(lines, section);
    let k = key_from(lines, key, start + 1, end);
    if start < lines.len() && k < end {
        Some(joined(lines.remove(k), ""@))
    } else {
        None
    }
}

/// The text without the line of the dependency. `None` if that key isn't in `section`.
pub fn remove_dependency(text: &str, section: &str, key: &str) -> (r: Option<String>)
    ensures
        opt_view(r) == without_key(text@, section@, key@),
{
    let mut lines = split_lines(text);
    let ghost lv = views(lines@);
    let (start, end) = find_span(&lines, section);
    if start >= lines.len() {
        return None;
    }
    let k: usize = find_key(&lines, key, start + 1, end);
    if k >= end {
        return None;
    }
    lines.remove(k);
    assert(views(lines@) =~= lv.remove(k as int));
    Some(join_texts(&lines, ""))
}

/// The line with a newline at its end.
pub open spec fn ended(line: Seq<char>) -> Seq<char> {
    if ends(line, "\n"@) {
        line
    } else {
        line + "\n"@
    }
}

fn end_line(line: &str) -> (r: String)
    ensures
        r@ == ended(line@),
{
    if ends_with(line, "\n") {
        line.to_owned()
    } else {
        cat(line, "\n")
    }
}

/// The text with the line in the section: in place of the one that sets the key, or else at the end of the
/// section. A section that is missing is added behind the rest.
pub open spec fn with_key(text: Seq<char>, section: Seq<char>, key: Seq<char>, line: Seq<char>) -> Seq<char> {
    let lines = full_lines(text, 0);
    let (start, end) = span_of(lines, section);
    let k = key_from(lines, key, start + 1, end);
    if start >= lines.len() {
        (if text.len() > 0 {
            ended(text) + "\n"@
        } else {
            text
        }) + header_of(section) + "\n"@ + ended(line)
    } else if k < end {
        joined(lines.update(k, ended(line)), ""@)
    } else {
        joined(lines.update(end - 1, ended(lines[end - 1])).insert(end, ended(line)), ""@)
    }
}

/// One dependency line, in or replaced. The rest of the file stays as it was.
pub fn upsert_dependency(text: &str, section: &str, key: &str, line: &str) -> (r: String)
    ensures
        r@ == with_key(text@, section@, key@, line@),
{
    let rendered = end_line(line);
    let mut lines = split_lines(text);
    let ghost lv = views(lines@);
    let (start, end) = find_span(&lines, section);
    if start >= lines.len() {
        let head = if text.is_empty() {
            text.to_owned()
        } else {
            cat(end_line(text).as_str(), "\n")
        };
        let mut out = cat3(head.as_str(), cat3("[", section, "]").as_str(), "\n");
        out.append(rendered.as_str());
        return out;
    }
    let k: usize = find_key(&lines, key, start + 1, end);
    if k < end {
        lines.set(k, rendered);
        assert(views(lines@) =~= lv.update(k as int, ended(line@)));
    } else {
        let last = end_line(lines[end - 1].as_str());
        lines.set(end - 1, last);
        lines.insert(end, rendered);
        assert(views(lines@) =~= lv.update(end - 1, ended(lv[end - 1])).insert(end as int, ended(line@)));
    }
    join_texts(&lines, "")
}

pub(crate) fn dup_targets(l: &Vec<Target>) -> (r: Vec<Target>)
    ensures
        views(r@) == views(l@),
{
    let mut out: Vec<Target> = Vec::new();
    let mut k: usize = 0;
    while k < l.len()
        invariant
            k <= l@.len(),
            out@.len() == k,
            forall|j: int| 0 <= j < k ==> (#[trigger] out@[j])@ == l@[j]@,
        decreases l@.len() - k,
    {
        out.push(l[k].dup());
        k += 1;
    }
    assert(views(out@) =~= views(l@));
    out
}

pub(crate) fn dup_lints(l: &Option<Vec<(String, Toml)>>) -> (r: Option<Vec<(String, Toml)>>)
    ensures
        table_opt(r) == table_opt(*l),
{
    match l {
        Some(t) => Some(dup_table(t)),
        None => None,
    }
}

impl Package {
    /// The same package once more.
    pub fn dup(&self) -> (r: Package)
        ensures
            r@ == self@,
    {
        Package {
            name: self.name.clone(),
            version: self.version.dup(),
            edition: self.edition.clone(),
            manifest_path: self.manifest_path.clone(),
            root: self.root.clone(),
            links: dup_text(&self.links),
            authors: dup_list(&self.authors),
            description: dup_text(&self.description),
            homepage: dup_text(&self.homepage),
            repository: dup_text(&self.repository),
            license: dup_text(&self.license),
            license_file: dup_text(&self.license_file),
            rust_version: dup_text(&self.rust_version),
            readme: dup_text(&self.readme),
            default_run: dup_text(&self.default_run),
            deps: crate::resolve::dup_decls(self.deps.as_slice()),
            features: crate::resolve::dup_features(&self.features),
            targets: dup_targets(&self.targets),
            lints: dup_lints(&self.lints),
        }
    }
}

} // verus!
