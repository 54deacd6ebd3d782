//! The workspace: its packages, which of them a command is about, and what the lockfile changes.

use vstd::prelude::*;
use crate::cfgexpr::PlatformCfg;
use crate::cfgexpr::applies;
use crate::cfgexpr::facts;
use crate::exec::clean;
use crate::features::EngineOpts;
use crate::features::FeatureInfo;
use crate::features::InfoEntry;
use crate::features::Outcome;
use crate::features::Platforms;
use crate::features::Request;
use crate::features::UnknownFeature;
use crate::features::tells;
use crate::features::reports;
use crate::features;
use crate::lints::text_leq;
use crate::lockfile::LockPkg;
use crate::lockfile::LockPkgView;
use crate::lockfile::Lockfile;
use crate::lockfile::LockfileView;
use crate::lockfile::locked as locked_packages;
use crate::manifest::About;
use crate::manifest::CRATES_IO;
use crate::manifest::DepDecl;
use crate::manifest::DepDeclView;
use crate::manifest::DepKind;
use crate::manifest::DepSource;
use crate::manifest::DepSourceView;
use crate::manifest::Entries;
use crate::manifest::ManifestError;
use crate::manifest::ManifestFault;
use crate::manifest::Package;
use crate::manifest::PackageView;
use crate::manifest::Target;
use crate::manifest::TargetKind;
use crate::manifest::TargetView;
use crate::manifest::clean_path;
use crate::manifest::dep_of;
use crate::manifest::dup_lints;
use crate::manifest::dup_targets;
use crate::manifest::inherits;
use crate::manifest::is_inherit;
use crate::manifest::parse_dep;
use crate::manifest::strings_in;
use crate::manifest::table_opt;
use crate::manifest::texts;
use crate::num::dec;
use crate::num::u64_text;
use crate::num::usize_text;
use crate::order::before;
use crate::order::is_before;
use crate::order::lemma_before_asymmetric;
use crate::order::lemma_before_irreflexive;
use crate::order::lemma_before_total;
use crate::order::lemma_before_transitive;
use crate::path::inside;
use crate::path::join;
use crate::path::is_same_place;
use crate::path::parent;
use crate::path::same_place;
use crate::path::starts_with as lies_in;
use crate::path::under;
use crate::path::up;
use crate::profile::dup_list;
use crate::profile::dup_text;
use crate::profile::split_at_mark;
use crate::profile::split_spec;
use crate::registry::IndexEntry;
use crate::registry::newest_of;
use crate::resolve::Got;
use crate::resolve::GotView;
use crate::resolve::Graph;
use crate::resolve::Node;
use crate::resolve::NodeView;
use crate::resolve::Nodes;
use crate::resolve::Patches;
use crate::resolve::Pick;
use crate::resolve::PkgId;
use crate::resolve::PkgIdView;
use crate::resolve::Prefs;
use crate::resolve::PrefsView;
use crate::resolve::SourceError;
use crate::resolve::SourceFault;
use crate::resolve::SourceId;
use crate::resolve::SourceIdView;
use crate::resolve::bare;
use crate::resolve::commits_pinned;
use crate::resolve::complete;
use crate::resolve::entry_at;
use crate::resolve::forgetting;
use crate::resolve::imported;
use crate::resolve::index_decides;
use crate::resolve::is_required;
use crate::resolve::loaded_node;
use crate::resolve::lock_text;
use crate::resolve::newest_entry;
use crate::resolve::no_prefs;
use crate::resolve::path_at;
use crate::resolve::pick_of;
use crate::resolve::pinned;
use crate::resolve::prefs_of;
use crate::resolve::spec_text;
use crate::resolve::target_at;
use crate::resolve::trim_slashes;
use crate::resolve::version_opt;
use crate::resolve::with_lock;
use crate::resolve::with_node;
use crate::resolve::with_patches;
use crate::resolve::without_slashes;
use crate::sort::Ranked;
use crate::sort::in_order;
use crate::sort::sort;
use crate::strmap::StrMap;
use crate::strmap::StrSet;
use crate::strmap::listed;
use crate::text::cat3;
use crate::text::cat5;
use crate::text::cat;
use crate::text::contains;
use crate::text::ends;
use crate::text::ends_with;
use crate::text::has_char;
use crate::text::holds;
use crate::text::opt_view;
use crate::text::pieces;
use crate::text::replace_char;
use crate::text::rsplit_once;
use crate::text::same;
use crate::text::same_opt;
use crate::text::split;
use crate::text::split_first;
use crate::text::split_last;
use crate::text::split_once;
use crate::text::starts;
use crate::text::starts_with;
use crate::text::swapped;
use crate::text::views;
use crate::value::Toml;
use crate::value::TomlTree;
use crate::value::at;
use crate::value::field;
use crate::value::get;
use crate::value::text_of;
use crate::value::toml_entries;
use crate::version::Version;
use crate::version::VersionView;
use crate::version::version_of;
use crate::version::version_text;

verus! {

#[derive(Debug)]
pub enum Source {
    Workspace,
    Path,
    Registry(String),
    Git(String),
}

/// The model of a package's source.
pub enum SourceView {
    Workspace,
    Path,
    Registry(Seq<char>),
    Git(Seq<char>),
}

impl View for Source {
    type V = SourceView;

    open spec fn view(&self) -> SourceView {
        match self {
            Source::Workspace => SourceView::Workspace,
            Source::Path => SourceView::Path,
            Source::Registry(s) => SourceView::Registry(s@),
            Source::Git(s) => SourceView::Git(s@),
        }
    }
}

impl Source {
    pub fn same_as(&self, other: &Source) -> (r: bool)
        ensures
            r == (self@ == other@),
    {
        match (self, other) {
            (Source::Workspace, Source::Workspace) => true,
            (Source::Path, Source::Path) => true,
            (Source::Registry(a), Source::Registry(b)) => same(a.as_str(), b.as_str()),
            (Source::Git(a), Source::Git(b)) => same(a.as_str(), b.as_str()),
            _ => false,
        }
    }

    pub open spec fn local(self) -> bool {
        self is Workspace || self is Path
    }

    /// Path or workspace: warnings on, incremental on, identity is a content hash.
    pub fn is_local(&self) -> (r: bool)
        ensures
            r == self.local(),
    {
        match self {
            Source::Workspace | Source::Path => true,
            _ => false,
        }
    }
}

#[derive(Clone, Copy, Debug, PartialEq, Eq, Structural)]
pub enum ResolverVersion {
    V1,
    V2,
    V3,
}

/// A package we can build. Graph nodes we never needed stay as placeholders.
#[derive(Debug)]
pub struct Pkg {
    pub id: String,
    /// Registry and git packages: spec plus checksum or commit. Doesn't change.
    pub identity: String,
    pub name: String,
    pub version: Version,
    pub manifest_path: String,
    pub root: String,
    pub source: Source,
    pub is_member: bool,
    pub loaded: bool,
    pub links: Option<String>,
    pub edition: String,
    pub targets: Vec<Target>,
    pub declared_features: Vec<String>,
    pub proc_macro: bool,
    pub authors: Vec<String>,
    pub description: Option<String>,
    pub homepage: Option<String>,
    pub repository: Option<String>,
    pub license: Option<String>,
    pub license_file: Option<String>,
    pub rust_version: Option<String>,
    pub readme: Option<String>,
    pub default_run: Option<String>,
    pub deps: Vec<DepDecl>,
    /// One resolved node per `deps` entry. None if resolution didn't include it.
    pub dep_targets: Vec<Option<usize>>,
    pub lints: Option<Vec<(String, Toml)>>,
}

/// The first target of the kind from `i` on.
pub open spec fn first_of(targets: Seq<Target>, kind: TargetKind, i: int) -> Option<int>
    decreases targets.len() - i,
{
    if i >= targets.len() {
        None
    } else if targets[i].kind == kind {
        Some(i)
    } else {
        first_of(targets, kind, i + 1)
    }
}

fn find_target(targets: &Vec<Target>, kind: TargetKind) -> (r: Option<usize>)
    ensures
        r.is_some() == first_of(targets@, kind, 0).is_some(),
        r.is_some() ==> r.unwrap() == first_of(targets@, kind, 0).unwrap() && r.unwrap() < targets@.len()
            && targets@[r.unwrap() as int].kind == kind,
{
    let mut i: usize = 0;
    while i < targets.len()
        invariant
            i <= targets@.len(),
            first_of(targets@, kind, 0) == first_of(targets@, kind, i as int),
        decreases targets@.len() - i,
    {
        if targets[i].kind == kind {
            return Some(i);
        }
        i += 1;
    }
    None
}

impl Pkg {
    /// The library target.
    pub open spec fn lib_at(self) -> Option<int> {
        first_of(self.targets@, TargetKind::Lib, 0)
    }

    /// The build script.
    pub open spec fn script_at(self) -> Option<int> {
        first_of(self.targets@, TargetKind::BuildScript, 0)
    }

    /// How messages name the package.
    pub open spec fn shown(self) -> Seq<char> {
        if self.source.local() {
            self.name@ + " v"@ + version_text(self.version@) + " ("@ + self.root@ + ")"@
        } else {
            self.name@ + " v"@ + version_text(self.version@)
        }
    }

    pub fn lib(&self) -> (r: Option<usize>)
        ensures
            r.is_some() == self.lib_at().is_some(),
            r.is_some() ==> r.unwrap() == self.lib_at().unwrap() && r.unwrap() < self.targets@.len()
                && self.targets@[r.unwrap() as int].kind == TargetKind::Lib,
    {
        find_target(&self.targets, TargetKind::Lib)
    }

    pub fn build_script(&self) -> (r: Option<usize>)
        ensures
            r.is_some() == self.script_at().is_some(),
            r.is_some() ==> r.unwrap() == self.script_at().unwrap() && r.unwrap() < self.targets@.len()
                && self.targets@[r.unwrap() as int].kind == TargetKind::BuildScript,
    {
        find_target(&self.targets, TargetKind::BuildScript)
    }

    pub fn display(&self) -> (r: String)
        ensures
            r@ == self.shown(),
    {
        let version: String = self.version.text();
        if self.source.is_local() {
            let mut s: String = cat5(self.name.as_str(), " v", version.as_str(), " (", self.root.as_str());
            s.append(")");
            s
        } else {
            cat3(self.name.as_str(), " v", version.as_str())
        }
    }
}

pub struct Workspace {
    pub root: String,
    pub root_manifest_path: String,
    pub root_manifest: Vec<(String, Toml)>,
    pub current_manifest: String,
    pub target_dir: String,
    pub resolver: ResolverVersion,
    pub graph: Graph,
    pub members: Vec<usize>,
    pub default_members: Vec<usize>,
    pub pkgs: Vec<Pkg>,
    /// What build scripts and rustc see as `CARGO`.
    pub cargo: String,
    /// `[registries.<name>]`: name to source id.
    pub registries: StrMap<String>,
    pub patches: Patches,
    /// How many nodes of the graph are local packages; they come first.
    pub locals: usize,
    pub locked: bool,
    pub ignore_rust_version: bool,
    pub lock_version: u32,
    pub rustc_version: Option<Version>,
}

pub struct LoadOptions<'a> {
    pub manifest_path: Option<&'a str>,
    pub locked: bool,
    pub offline: bool,
    pub ignore_rust_version: bool,
    /// `[source] replace-with` a directory: `(source id, vendor dir)`.
    pub vendor: Option<(String, String)>,
}

/// What a workspace is loaded in.
pub struct Env<'a> {
    pub home: &'a str,
    pub rustc_version: Option<Version>,
    /// `[registries.<name>]`: name to source id.
    pub registries: StrMap<String>,
    /// Where `.crate` files may be reused from.
    pub download_mirror: Option<String>,
    /// What build scripts and rustc see as `CARGO`.
    pub cargo: &'a str,
}

/// Which features of which packages are on.
pub struct Resolution {
    pub map: Vec<InfoEntry>,
    pub two_sides: bool,
}

/// The first entry for the package on that side, from `i` on.
pub open spec fn info_at(map: Seq<InfoEntry>, pkg: int, host: bool, i: int) -> Option<FeatureInfo>
    decreases map.len() - i,
{
    if i >= map.len() {
        None
    } else if map[i].node == pkg && map[i].host == host {
        Some(map[i].info)
    } else {
        info_at(map, pkg, host, i + 1)
    }
}

impl Resolution {
    /// What is on of the package.
    pub open spec fn found(self, pkg: int, host: bool) -> Option<FeatureInfo> {
        info_at(self.map@, pkg, self.two_sides && host, 0)
    }

    /// The features of the package that are on.
    pub open spec fn named(self, pkg: int, host: bool) -> Set<Seq<char>> {
        match self.found(pkg, host) {
            Some(i) => i.named@,
            None => Set::empty(),
        }
    }

    /// The optional dependencies of the package that are on.
    pub open spec fn optional(self, pkg: int, host: bool) -> Set<Seq<char>> {
        match self.found(pkg, host) {
            Some(i) => i.optional_deps@,
            None => Set::empty(),
        }
    }

    pub fn info(&self, pkg: usize, host: bool) -> (r: Option<&FeatureInfo>)
        ensures
            r.is_some() == self.found(pkg as int, host).is_some(),
            r.is_some() ==> *r.unwrap() == self.found(pkg as int, host).unwrap(),
    {
        let side: bool = self.two_sides && host;
        let mut i: usize = 0;
        while i < self.map.len()
            invariant
                i <= self.map@.len(),
                side == (self.two_sides && host),
                info_at(self.map@, pkg as int, side, 0) == info_at(self.map@, pkg as int, side, i as int),
            decreases self.map@.len() - i,
        {
            if self.map[i].node == pkg && self.map[i].host == side {
                return Some(&self.map[i].info);
            }
            i += 1;
        }
        None
    }
}

/// The dependency counts: it is on, and for the platform.
pub open spec fn enabled(
    dep: DepDecl,
    optional: Set<Seq<char>>,
    triple: Seq<char>,
    cfg: Seq<(Seq<char>, Option<Seq<char>>)>,
) -> bool {
    (!dep.optional || optional.contains(dep.called())) && match dep.platform {
        Some(p) => applies(p@, triple, cfg),
        None => true,
    }
}

/// The dependency counts; `None` stands for a package of which nothing is on.
pub fn dep_enabled(dep: &DepDecl, fi: Option<&FeatureInfo>, platform: &PlatformCfg<'_>) -> (r: bool)
    ensures
        r == enabled(
            *dep,
            match fi {
                Some(i) => i.optional_deps@,
                None => Set::empty(),
            },
            platform.triple@,
            facts(platform.cfg@),
        ),
{
    if dep.optional {
        let on: bool = match fi {
            Some(i) => i.optional_deps.contains(dep.dep_name()),
            None => false,
        };
        if !on {
            return false;
        }
    }
    match &dep.platform {
        Some(p) => p.matches(platform),
        None => true,
    }
}

// ---------------------------------------------------------------------------
// Finding the workspace.

/// What the disk holds: the manifests that are there, each with its table where it can be read, and the
/// directories with a manifest that a pattern stands for, where it is one.
pub struct Disk {
    pub manifests: StrMap<Option<Vec<(String, Toml)>>>,
    pub globs: StrMap<Option<Vec<String>>>,
}

/// The model of what the disk holds.
pub struct DiskView {
    pub manifests: Map<Seq<char>, Option<Entries>>,
    pub globs: Map<Seq<char>, Option<Seq<Seq<char>>>>,
}

impl View for Disk {
    type V = DiskView;

    open spec fn view(&self) -> DiskView {
        DiskView {
            manifests: self.manifests@.map_values(|t: Option<Vec<(String, Toml)>>| table_opt(t)),
            globs: self.globs@.map_values(|l: Option<Vec<String>>| crate::json::views_opt(l)),
        }
    }
}

/// What is wrong with a workspace.
#[derive(Debug)]
pub enum WorkspaceError {
    /// No manifest in the directory or above.
    NoManifest(String),
    /// A manifest that cannot be read.
    Unreadable(String),
    /// A pattern that is none.
    Glob(String),
}

pub enum WorkspaceFault {
    NoManifest(Seq<char>),
    Unreadable(Seq<char>),
    Glob(Seq<char>),
}

impl View for WorkspaceError {
    type V = WorkspaceFault;

    open spec fn view(&self) -> WorkspaceFault {
        match self {
            WorkspaceError::NoManifest(s) => WorkspaceFault::NoManifest(s@),
            WorkspaceError::Unreadable(s) => WorkspaceFault::Unreadable(s@),
            WorkspaceError::Glob(s) => WorkspaceFault::Glob(s@),
        }
    }
}

pub open spec fn found_as<T: View>(r: Result<T, WorkspaceError>) -> Result<T::V, WorkspaceFault> {
    match r {
        Ok(v) => Ok(v@),
        Err(e) => Err(e@),
    }
}

/// The directory, and those above it, the nearest first.
pub open spec fn ancestors_of(p: Seq<char>) -> Seq<Seq<char>>
    decreases p.len(),
    via ancestors_end
{
    match up(p) {
        Some(d) => seq![p] + ancestors_of(d),
        None => seq![p],
    }
}

#[via_fn]
proof fn ancestors_end(p: Seq<char>) {
    crate::path::lemma_up_is_shorter(p);
}

/// The directory, and those above it, the nearest first.
pub fn ancestors(p: &str) -> (r: Vec<String>)
    ensures
        views(r@) == ancestors_of(p@),
{
    let mut out: Vec<String> = Vec::new();
    out.push(p.to_owned());
    let mut d: Option<String> = parent(p);
    let ghost all = ancestors_of(p@);
    proof {
        crate::path::lemma_up_is_shorter(p@);
    }
    assert(views(out@) =~= seq![p@]);
    loop
        invariant
            all == match d {
                Some(x) => views(out@) + ancestors_of(x@),
                None => views(out@),
            },
        ensures
            all == views(out@),
        decreases (match d {
            Some(x) => x@.len() + 1,
            None => 0,
        }),
    {
        match d {
            None => {
                break;
            },
            Some(x) => {
                let ghost xv = x@;
                let ghost was = views(out@);
                d = parent(x.as_str());
                proof {
                    crate::path::lemma_up_is_shorter(xv);
                }
                out.push(x);
                assert(views(out@) =~= was.push(xv));
                proof {
                    if up(xv).is_some() {
                        assert(was + (seq![xv] + ancestors_of(up(xv).unwrap())) =~= was.push(xv) + ancestors_of(up(xv).unwrap()));
                    } else {
                        assert(was + seq![xv] =~= was.push(xv));
                    }
                }
            },
        }
    }
    out
}

/// The first directory from `k` on with a manifest.
pub open spec fn manifest_from(dirs: Seq<Seq<char>>, m: Map<Seq<char>, Option<Entries>>, k: int) -> Option<Seq<char>>
    decreases dirs.len() - k,
{
    if k < 0 || k >= dirs.len() {
        None
    } else if m.contains_key(under(dirs[k], "Cargo.toml"@)) {
        Some(under(dirs[k], "Cargo.toml"@))
    } else {
        manifest_from(dirs, m, k + 1)
    }
}

/// The nearest manifest.
pub open spec fn nearest_manifest(cwd: Seq<char>, d: DiskView) -> Result<Seq<char>, WorkspaceFault> {
    match manifest_from(ancestors_of(cwd), d.manifests, 0) {
        Some(m) => Ok(m),
        None => Err(WorkspaceFault::NoManifest(cwd)),
    }
}

fn find_manifest(cwd: &str, disk: &Disk) -> (r: Result<String, WorkspaceError>)
    ensures
        found_as(r) == nearest_manifest(cwd@, disk@),
{
    let dirs = ancestors(cwd);
    let ghost dv = ancestors_of(cwd@);
    let ghost ms = disk@.manifests;
    let mut k: usize = 0;
    while k < dirs.len()
        invariant
            k <= dirs@.len(),
            dv == views(dirs@),
            dv == ancestors_of(cwd@),
            ms == disk@.manifests,
            manifest_from(dv, ms, 0) == manifest_from(dv, ms, k as int),
        decreases dirs@.len() - k,
    {
        assert(dv[k as int] == dirs@[k as int]@);
        let m = join(dirs[k].as_str(), "Cargo.toml");
        assert(ms.contains_key(m@) == disk.manifests@.contains_key(m@));
        if disk.manifests.has(m.as_str()) {
            return Ok(m);
        }
        k += 1;
    }
    assert(dv.len() == dirs@.len());
    Err(WorkspaceError::NoManifest(cwd.to_owned()))
}

/// A path that stands for several.
pub open spec fn is_glob(p: Seq<char>) -> bool {
    p.contains('*') || p.contains('?') || p.contains('[')
}

pub open spec fn cleaned_all(l: Seq<Seq<char>>) -> Seq<Seq<char>> {
    Seq::new(l.len(), |i: int| clean(l[i]))
}

pub type Dirs = Result<Seq<Seq<char>>, WorkspaceFault>;

/// The directories that the first `n` patterns stand for.
pub open spec fn globbed(root: Seq<char>, ps: Seq<Seq<char>>, globs: Map<Seq<char>, Option<Seq<Seq<char>>>>, n: int) -> Dirs
    decreases n,
{
    if n <= 0 || n > ps.len() {
        Ok(Seq::empty())
    } else {
        match globbed(root, ps, globs, n - 1) {
            Err(e) => Err(e),
            Ok(l) => {
                let p = under(root, ps[n - 1]);
                if is_glob(p) {
                    if globs.contains_key(p) && globs[p].is_some() {
                        Ok(l + cleaned_all(globs[p].unwrap()))
                    } else {
                        Err(WorkspaceFault::Glob(ps[n - 1]))
                    }
                } else {
                    Ok(l.push(clean(p)))
                }
            },
        }
    }
}

pub open spec fn dirs_of(root: Seq<char>, ps: Seq<Seq<char>>, d: DiskView) -> Dirs {
    globbed(root, ps, d.globs, ps.len() as int)
}

proof fn lemma_globbed_error(root: Seq<char>, ps: Seq<Seq<char>>, globs: Map<Seq<char>, Option<Seq<Seq<char>>>>, a: int, b: int)
    requires
        0 <= a <= b <= ps.len(),
        globbed(root, ps, globs, a).is_err(),
    ensures
        globbed(root, ps, globs, b) == globbed(root, ps, globs, a),
    decreases b - a,
{
    if a < b {
        lemma_globbed_error(root, ps, globs, a, b - 1);
    }
}

pub(crate) fn add_cleaned(out: &mut Vec<String>, l: &Vec<String>)
    ensures
        views(final(out)@) == views(old(out)@) + cleaned_all(views(l@)),
{
    let ghost start = out@;
    let ghost lv = views(l@);
    let mut k: usize = 0;
    while k < l.len()
        invariant
            k <= l@.len(),
            lv == views(l@),
            start == old(out)@,
            views(out@) =~= views(start) + cleaned_all(lv).take(k as int),
        decreases l@.len() - k,
    {
        assert(lv[k as int] == l@[k as int]@);
        let ghost was = out@;
        out.push(clean_path(l[k].as_str()));
        assert(views(out@) =~= views(was).push(clean(lv[k as int])));
        k += 1;
    }
    assert(cleaned_all(lv).take(k as int) =~= cleaned_all(lv));
}

/// The directories that patterns below `root` stand for.
pub fn glob_dirs(root: &str, patterns: &Vec<String>, disk: &Disk) -> (r: Result<Vec<String>, WorkspaceError>)
    ensures
        match dirs_of(root@, views(patterns@), disk@) {
            Ok(l) => r matches Ok(v) && views(v@) == l,
            Err(e) => r matches Err(x) && x@ == e,
        },
{
    let ghost ps = views(patterns@);
    let ghost globs = disk@.globs;
    let mut out: Vec<String> = Vec::new();
    let mut k: usize = 0;
    assert(views(out@) =~= Seq::<Seq<char>>::empty());
    while k < patterns.len()
        invariant
            k <= patterns@.len(),
            ps == views(patterns@),
            globs == disk@.globs,
            globbed(root@, ps, globs, k as int) == Ok::<_, WorkspaceFault>(views(out@)),
        decreases patterns@.len() - k,
    {
        assert(ps[k as int] == patterns@[k as int]@);
        let p = join(root, patterns[k].as_str());
        let ghost was = out@;
        if has_char(p.as_str(), '*') || has_char(p.as_str(), '?') || has_char(p.as_str(), '[') {
            assert(globs.contains_key(p@) == disk.globs@.contains_key(p@));
            match disk.globs.get(p.as_str()) {
                Some(Some(l)) => {
                    assert(globs[p@] == Some(views(l@)));
                    add_cleaned(&mut out, l);
                },
                _ => {
                    proof {
                        lemma_globbed_error(root@, ps, globs, k + 1, ps.len() as int);
                    }
                    return Err(WorkspaceError::Glob(patterns[k].clone()));
                },
            }
        } else {
            out.push(clean_path(p.as_str()));
            assert(views(out@) =~= views(was).push(clean(p@)));
        }
        k += 1;
    }
    assert(ps.len() == patterns@.len());
    Ok(out)
}

pub open spec fn list_under(w: Entries, key: Seq<char>) -> Seq<Seq<char>> {
    texts(at(w, key))
}

/// One of the first `n` paths that a workspace leaves out holds the directory.
pub open spec fn left_out(dir: Seq<char>, root: Seq<char>, excludes: Seq<Seq<char>>) -> bool {
    exists|i: int| 0 <= i < excludes.len() && inside(dir, clean(under(root, #[trigger] excludes[i])))
}

fn is_left_out(dir: &str, root: &str, excludes: &Vec<String>) -> (r: bool)
    ensures
        r == left_out(dir@, root@, views(excludes@)),
{
    let ghost ev = views(excludes@);
    let mut k: usize = 0;
    while k < excludes.len()
        invariant
            k <= excludes@.len(),
            ev == views(excludes@),
            forall|j: int| 0 <= j < k ==> !inside(dir@, clean(under(root@, #[trigger] ev[j]))),
        decreases excludes@.len() - k,
    {
        assert(ev[k as int] == excludes@[k as int]@);
        let e = clean_path(join(root, excludes[k].as_str()).as_str());
        if lies_in(dir, e.as_str()) {
            return true;
        }
        k += 1;
    }
    false
}

/// Whether a workspace takes the directory for a member.
pub open spec fn takes(w: Entries, root: Seq<char>, dir: Seq<char>, d: DiskView) -> Result<bool, WorkspaceFault> {
    if left_out(dir, root, list_under(w, "exclude"@)) {
        Ok(false)
    } else {
        match dirs_of(root, list_under(w, "members"@), d) {
            Err(e) => Err(e),
            Ok(l) => Ok(exists|i: int| 0 <= i < l.len() && same_place(#[trigger] l[i], dir)),
        }
    }
}

fn is_at(l: &Vec<String>, dir: &str) -> (r: bool)
    ensures
        r == exists|i: int| 0 <= i < views(l@).len() && same_place(#[trigger] views(l@)[i], dir@),
{
    let ghost lv = views(l@);
    let mut k: usize = 0;
    while k < l.len()
        invariant
            k <= l@.len(),
            lv == views(l@),
            forall|i: int| 0 <= i < k ==> !same_place(#[trigger] lv[i], dir@),
        decreases l@.len() - k,
    {
        assert(lv[k as int] == l@[k as int]@);
        if is_same_place(l[k].as_str(), dir) {
            return true;
        }
        k += 1;
    }
    assert(lv.len() == l@.len());
    false
}

fn takes_member(w: &Vec<(String, Toml)>, root: &str, dir: &str, disk: &Disk) -> (r: Result<bool, WorkspaceError>)
    ensures
        match takes(toml_entries(w@), root@, dir@, disk@) {
            Ok(b) => r matches Ok(x) && x == b,
            Err(e) => r matches Err(x) && x@ == e,
        },
{
    let excludes = strings_in(get(w, "exclude"));
    if is_left_out(dir, root, &excludes) {
        return Ok(false);
    }
    let members = strings_in(get(w, "members"));
    match glob_dirs(root, &members, disk) {
        Err(e) => Err(e),
        Ok(l) => Ok(is_at(&l, dir)),
    }
}

/// The first workspace from the `k`th directory on that takes the package in `dir`; else the package is on
/// its own.
pub open spec fn root_from(current: Seq<char>, dir: Seq<char>, dirs: Seq<Seq<char>>, d: DiskView, k: int) -> Result<
    Seq<char>,
    WorkspaceFault,
>
    decreases dirs.len() - k,
{
    if k < 0 || k >= dirs.len() {
        Ok(current)
    } else {
        let m = under(dirs[k], "Cargo.toml"@);
        if d.manifests.contains_key(m) {
            match d.manifests[m] {
                None => Err(WorkspaceFault::Unreadable(m)),
                Some(t) => match at(t, "workspace"@) {
                    Some(TomlTree::Table(w)) => match takes(w, dirs[k], dir, d) {
                        Err(e) => Err(e),
                        Ok(true) => Ok(m),
                        Ok(false) => root_from(current, dir, dirs, d, k + 1),
                    },
                    _ => root_from(current, dir, dirs, d, k + 1),
                },
            }
        } else {
            root_from(current, dir, dirs, d, k + 1)
        }
    }
}

/// The text that `package.workspace` holds.
pub open spec fn named_root(t: Entries) -> Option<Seq<char>> {
    match at(t, "package"@) {
        Some(p) => text_of(field(p, "workspace"@)),
        None => None,
    }
}

/// The manifest of the workspace that a package belongs to: its own where it has a `[workspace]`, the one
/// that it names, or the nearest above that takes it.
pub open spec fn root_of(current: Seq<char>, d: DiskView) -> Result<Seq<char>, WorkspaceFault> {
    if !d.manifests.contains_key(current) || d.manifests[current].is_none() {
        Err(WorkspaceFault::Unreadable(current))
    } else {
        let t = d.manifests[current].unwrap();
        let dir = up(current).unwrap();
        if at(t, "workspace"@).is_some() {
            Ok(current)
        } else {
            match named_root(t) {
                Some(w) => Ok(clean(under(under(dir, w), "Cargo.toml"@))),
                None => root_from(current, dir, ancestors_of(dir), d, 1),
            }
        }
    }
}

fn find_root(current: &str, disk: &Disk) -> (r: Result<String, WorkspaceError>)
    requires
        up(current@).is_some(),
    ensures
        found_as(r) == root_of(current@, disk@),
{
    let ghost dk = disk@;
    assert(dk.manifests.contains_key(current@) == disk.manifests@.contains_key(current@));
    let t = match disk.manifests.get(current) {
        Some(Some(t)) => t,
        _ => {
            return Err(WorkspaceError::Unreadable(current.to_owned()));
        },
    };
    assert(dk.manifests[current@] == Some(toml_entries(t@)));
    if get(t, "workspace").is_some() {
        return Ok(current.to_owned());
    }
    let dir = match parent(current) {
        Some(d) => d,
        None => String::new(),
    };
    let named = match get(t, "package") {
        Some(p) => match p.get("workspace") {
            Some(w) => w.as_str(),
            None => None,
        },
        None => None,
    };
    if let Some(w) = named {
        return Ok(clean_path(join(join(dir.as_str(), w).as_str(), "Cargo.toml").as_str()));
    }
    let dirs = ancestors(dir.as_str());
    let ghost dv = ancestors_of(dir@);
    let mut k: usize = 1;
    assert(dv.len() == dirs@.len());
    while k < dirs.len()
        invariant
            1 <= k <= dirs@.len(),
            dk == disk@,
            dv == views(dirs@),
            root_of(current@, dk) == root_from(current@, dir@, dv, dk, 1),
            root_from(current@, dir@, dv, dk, 1) == root_from(current@, dir@, dv, dk, k as int),
        decreases dirs@.len() - k,
    {
        assert(dv[k as int] == dirs@[k as int]@);
        let m = join(dirs[k].as_str(), "Cargo.toml");
        assert(dk.manifests.contains_key(m@) == disk.manifests@.contains_key(m@));
        match disk.manifests.get(m.as_str()) {
            Some(Some(t)) => {
                assert(dk.manifests[m@] == Some(toml_entries(t@)));
                if let Some(Toml::Table(w)) = get(t, "workspace") {
                    match takes_member(w, dirs[k].as_str(), dir.as_str(), disk) {
                        Err(e) => {
                            return Err(e);
                        },
                        Ok(true) => {
                            return Ok(m);
                        },
                        Ok(false) => {},
                    }
                }
            },
            Some(None) => {
                return Err(WorkspaceError::Unreadable(m));
            },
            None => {},
        }
        k += 1;
    }
    Ok(current.to_owned())
}

/// The manifest that a command is about: the one that is named, or the nearest.
pub open spec fn current_of(cwd: Seq<char>, named: Option<Seq<char>>, d: DiskView) -> Result<Seq<char>, WorkspaceFault> {
    match named {
        Some(p) => Ok(p),
        None => nearest_manifest(cwd, d),
    }
}

pub open spec fn manifests_of(cwd: Seq<char>, named: Option<Seq<char>>, d: DiskView) -> Result<
    (Seq<char>, Seq<char>),
    WorkspaceFault,
> {
    match current_of(cwd, named, d) {
        Err(e) => Err(e),
        Ok(c) => match root_of(c, d) {
            Err(e) => Err(e),
            Ok(r) => Ok((c, r)),
        },
    }
}

proof fn lemma_manifest_has_dir(d: Seq<char>)
    ensures
        up(under(d, "Cargo.toml"@)).is_some(),
{
    reveal_strlit("Cargo.toml");
    crate::path::lemma_under_has_parts(d, "Cargo.toml"@);
}

/// The manifest that a command is about, and the one of its workspace. `manifest_path` is absolute.
pub fn locate_manifests(cwd: &str, manifest_path: Option<&str>, disk: &Disk) -> (r: Result<(String, String), WorkspaceError>)
    requires
        manifest_path matches Some(p) ==> up(p@).is_some(),
    ensures
        match manifests_of(cwd@, crate::invocation::opt_text(manifest_path), disk@) {
            Ok((c, w)) => r matches Ok(x) && x.0@ == c && x.1@ == w,
            Err(e) => r matches Err(x) && x@ == e,
        },
{
    let current = match manifest_path {
        Some(p) => p.to_owned(),
        None => match find_manifest(cwd, disk) {
            Ok(m) => {
                proof {
                    lemma_manifest_from(ancestors_of(cwd@), disk@.manifests, 0);
                }
                m
            },
            Err(e) => {
                return Err(e);
            },
        },
    };
    match find_root(current.as_str(), disk) {
        Ok(root) => Ok((current, root)),
        Err(e) => Err(e),
    }
}

proof fn lemma_manifest_from(dirs: Seq<Seq<char>>, m: Map<Seq<char>, Option<Entries>>, k: int)
    requires
        0 <= k,
    ensures
        manifest_from(dirs, m, k) matches Some(p) ==> up(p).is_some(),
    decreases dirs.len() - k,
{
    if k < dirs.len() {
        lemma_manifest_has_dir(dirs[k]);
        lemma_manifest_from(dirs, m, k + 1);
    }
}

/// The directory of the workspace. Nothing where its manifest lies nowhere.
pub fn workspace_root(cwd: &str, manifest_path: Option<&str>, disk: &Disk) -> (r: Result<Option<String>, WorkspaceError>)
    requires
        manifest_path matches Some(p) ==> up(p@).is_some(),
    ensures
        match manifests_of(cwd@, crate::invocation::opt_text(manifest_path), disk@) {
            Ok((_, w)) => r matches Ok(x) && opt_view(x) == up(w),
            Err(e) => r matches Err(x) && x@ == e,
        },
{
    match locate_manifests(cwd, manifest_path, disk) {
        Ok((_, root)) => Ok(parent(root.as_str())),
        Err(e) => Err(e),
    }
}

// ---------------------------------------------------------------------------
// Loading the workspace.

/// The resolver that the manifest asks for, or the one of the root package's edition.
pub open spec fn resolver_of(m: Entries, edition: Option<Seq<char>>) -> ResolverVersion {
    let of_workspace = match at(m, "workspace"@) {
        Some(w) => field(w, "resolver"@),
        None => None,
    };
    let given = match of_workspace {
        Some(r) => Some(r),
        None => match at(m, "package"@) {
            Some(p) => field(p, "resolver"@),
            None => None,
        },
    };
    let given = text_of(given);
    if given == Some("1"@) {
        ResolverVersion::V1
    } else if given == Some("2"@) {
        ResolverVersion::V2
    } else if given == Some("3"@) {
        ResolverVersion::V3
    } else if edition == Some("2024"@) {
        ResolverVersion::V3
    } else if edition == Some("2021"@) {
        ResolverVersion::V2
    } else {
        ResolverVersion::V1
    }
}

fn detect_resolver(m: &Vec<(String, Toml)>, edition: Option<&str>) -> (r: ResolverVersion)
    ensures
        r == resolver_of(toml_entries(m@), crate::invocation::opt_text(edition)),
{
    let of_workspace = match get(m, "workspace") {
        Some(w) => w.get("resolver"),
        None => None,
    };
    let given = match of_workspace {
        Some(r) => Some(r),
        None => match get(m, "package") {
            Some(p) => p.get("resolver"),
            None => None,
        },
    };
    if let Some(Toml::Str(s)) = given {
        if same(s.as_str(), "1") {
            return ResolverVersion::V1;
        }
        if same(s.as_str(), "2") {
            return ResolverVersion::V2;
        }
        if same(s.as_str(), "3") {
            return ResolverVersion::V3;
        }
    }
    match edition {
        Some(e) => if same(e, "2024") {
            ResolverVersion::V3
        } else if same(e, "2021") {
            ResolverVersion::V2
        } else {
            ResolverVersion::V1
        },
        None => ResolverVersion::V1,
    }
}

/// The table of `[workspace]`.
pub open spec fn workspace_table(m: Entries) -> Option<Entries> {
    match at(m, "workspace"@) {
        Some(TomlTree::Table(t)) => Some(t),
        _ => None,
    }
}

fn get_workspace<'a>(m: &'a Vec<(String, Toml)>) -> (r: Option<&'a Vec<(String, Toml)>>)
    ensures
        match r {
            Some(t) => workspace_table(toml_entries(m@)) == Some(toml_entries(t@)),
            None => workspace_table(toml_entries(m@)).is_none(),
        },
{
    match get(m, "workspace") {
        Some(Toml::Table(t)) => Some(t),
        _ => None,
    }
}

/// The edition of the root package, also where it inherits it.
pub open spec fn root_edition(m: Entries) -> Option<Seq<char>> {
    match at(m, "package"@) {
        None => None,
        Some(p) => match field(p, "edition"@) {
            None => None,
            Some(e) => if inherits(e) {
                match workspace_table(m) {
                    None => None,
                    Some(w) => match at(w, "package"@) {
                        None => None,
                        Some(q) => text_of(field(q, "edition"@)),
                    },
                }
            } else {
                text_of(Some(e))
            },
        },
    }
}

fn find_edition<'a>(m: &'a Vec<(String, Toml)>) -> (r: Option<&'a str>)
    ensures
        crate::invocation::opt_text(r) == root_edition(toml_entries(m@)),
{
    match get(m, "package") {
        None => None,
        Some(p) => match p.get("edition") {
            None => None,
            Some(e) => if is_inherit(e) {
                match get_workspace(m) {
                    None => None,
                    Some(w) => match get(w, "package") {
                        None => None,
                        Some(q) => match q.get("edition") {
                            Some(e) => e.as_str(),
                            None => None,
                        },
                    },
                }
            } else {
                e.as_str()
            },
        },
    }
}

/// What is still to be loaded of a workspace, and what is found so far.
pub struct Loading {
    /// Whether there is a `[workspace]`, and with it members besides the root.
    pub shared: bool,
    pub root: String,
    pub excludes: Vec<String>,
    pub members: Vec<String>,
    pub queue: Vec<String>,
    pub seen: StrSet,
}

/// The model of a workspace that is being loaded.
pub struct LoadingView {
    pub shared: bool,
    pub root: Seq<char>,
    pub excludes: Seq<Seq<char>>,
    pub members: Seq<Seq<char>>,
    pub queue: Seq<Seq<char>>,
    pub seen: Set<Seq<char>>,
}

impl View for Loading {
    type V = LoadingView;

    open spec fn view(&self) -> LoadingView {
        LoadingView {
            shared: self.shared,
            root: self.root@,
            excludes: views(self.excludes@),
            members: views(self.members@),
            queue: views(self.queue@),
            seen: self.seen@,
        }
    }
}

/// One of the directories holds the path.
pub open spec fn within_any(p: Seq<char>, dirs: Seq<Seq<char>>) -> bool {
    exists|i: int| 0 <= i < dirs.len() && inside(p, #[trigger] dirs[i])
}

fn lies_in_any(p: &str, dirs: &Vec<String>) -> (r: bool)
    ensures
        r == within_any(p@, views(dirs@)),
{
    let ghost dv = views(dirs@);
    let mut k: usize = 0;
    while k < dirs.len()
        invariant
            k <= dirs@.len(),
            dv == views(dirs@),
            forall|j: int| 0 <= j < k ==> !inside(p@, #[trigger] dv[j]),
        decreases dirs@.len() - k,
    {
        assert(dv[k as int] == dirs@[k as int]@);
        if lies_in(p, dirs[k].as_str()) {
            return true;
        }
        k += 1;
    }
    false
}

/// The members with the first `n` of the listed directories that are not left out and not there yet.
pub open spec fn with_listed(members: Seq<Seq<char>>, l: Seq<Seq<char>>, excludes: Seq<Seq<char>>, n: int) -> Seq<Seq<char>>
    decreases n,
{
    if n <= 0 || n > l.len() {
        members
    } else {
        let so_far = with_listed(members, l, excludes, n - 1);
        if within_any(l[n - 1], excludes) || so_far.contains(l[n - 1]) {
            so_far
        } else {
            so_far.push(l[n - 1])
        }
    }
}

/// The excluded directories of a workspace.
pub open spec fn excluded_dirs(w: Option<Entries>, root: Seq<char>) -> Seq<Seq<char>> {
    match w {
        Some(t) => {
            let l = texts(at(t, "exclude"@));
            Seq::new(l.len(), |i: int| clean(under(root, l[i])))
        },
        None => Seq::empty(),
    }
}

/// Where loading starts: the root package, then the directories that are listed and not left out.
pub open spec fn first_members(m: Entries, root: Seq<char>, d: DiskView) -> Dirs {
    let own = if at(m, "package"@).is_some() {
        seq![root]
    } else {
        Seq::empty()
    };
    match workspace_table(m) {
        None => Ok(own),
        Some(w) => match dirs_of(root, list_under(w, "members"@), d) {
            Err(e) => Err(e),
            Ok(l) => Ok(with_listed(own, l, excluded_dirs(Some(w), root), l.len() as int)),
        },
    }
}

pub open spec fn loading_of(m: Entries, root: Seq<char>, members: Seq<Seq<char>>) -> LoadingView {
    LoadingView {
        shared: workspace_table(m).is_some(),
        root,
        excludes: excluded_dirs(workspace_table(m), root),
        members,
        queue: members,
        seen: Set::empty(),
    }
}

fn find_excludes(w: Option<&Vec<(String, Toml)>>, root: &str) -> (r: Vec<String>)
    ensures
        views(r@) == excluded_dirs(
            match w {
                Some(t) => Some(toml_entries(t@)),
                None => None,
            },
            root@,
        ),
{
    let mut out: Vec<String> = Vec::new();
    match w {
        Some(t) => {
            let l = strings_in(get(t, "exclude"));
            let ghost lv = views(l@);
            let ghost want = excluded_dirs(Some(toml_entries(t@)), root@);
            let mut k: usize = 0;
            while k < l.len()
                invariant
                    k <= l@.len(),
                    lv == views(l@),
                    lv == texts(at(toml_entries(t@), "exclude"@)),
                    want == excluded_dirs(Some(toml_entries(t@)), root@),
                    out@.len() == k,
                    forall|j: int| 0 <= j < k ==> (#[trigger] out@[j])@ == want[j],
                decreases l@.len() - k,
            {
                assert(lv[k as int] == l@[k as int]@);
                out.push(clean_path(join(root, l[k].as_str()).as_str()));
                k += 1;
            }
            assert(lv.len() == l@.len());
            assert(views(out@) =~= want);
        },
        None => {
            assert(views(out@) =~= Seq::<Seq<char>>::empty());
        },
    }
    out
}

fn add_listed(members: Vec<String>, l: &Vec<String>, excludes: &Vec<String>) -> (r: Vec<String>)
    ensures
        views(r@) == with_listed(views(members@), views(l@), views(excludes@), l@.len() as int),
{
    let ghost start = views(members@);
    let ghost lv = views(l@);
    let ghost ev = views(excludes@);
    let mut out = members;
    let mut k: usize = 0;
    while k < l.len()
        invariant
            k <= l@.len(),
            lv == views(l@),
            ev == views(excludes@),
            views(out@) == with_listed(start, lv, ev, k as int),
        decreases l@.len() - k,
    {
        assert(lv[k as int] == l@[k as int]@);
        let ghost was = out@;
        if !lies_in_any(l[k].as_str(), excludes) && !crate::manifest::any_is(&out, l[k].as_str()) {
            out.push(l[k].clone());
            assert(views(out@) =~= views(was).push(lv[k as int]));
        }
        k += 1;
    }
    out
}

impl Loading {
    /// Where loading starts.
    pub fn new(m: &Vec<(String, Toml)>, root: &str, disk: &Disk) -> (r: Result<Loading, WorkspaceError>)
        ensures
            match first_members(toml_entries(m@), root@, disk@) {
                Ok(l) => r matches Ok(x) && x@ == loading_of(toml_entries(m@), root@, l),
                Err(e) => r matches Err(x) && x@ == e,
            },
    {
        let w = get_workspace(m);
        let excludes = find_excludes(w, root);
        let mut members: Vec<String> = Vec::new();
        if get(m, "package").is_some() {
            members.push(root.to_owned());
            assert(views(members@) =~= seq![root@]);
        } else {
            assert(views(members@) =~= Seq::<Seq<char>>::empty());
        }
        let members = match w {
            None => members,
            Some(t) => {
                let patterns = strings_in(get(t, "members"));
                match glob_dirs(root, &patterns, disk) {
                    Err(e) => {
                        return Err(e);
                    },
                    Ok(l) => {
                        assert(views(l@).len() == l@.len());
                        add_listed(members, &l, &excludes)
                    },
                }
            },
        };
        let queue = crate::profile::dup_list(&members);
        Ok(Loading { shared: w.is_some(), root: root.to_owned(), excludes, members, queue, seen: StrSet::new() })
    }
}

/// What is left of the queue once the last directory that was not seen is taken from it.
pub open spec fn popped(q: Seq<Seq<char>>, seen: Set<Seq<char>>) -> (Option<Seq<char>>, Seq<Seq<char>>)
    decreases q.len(),
{
    if q.len() == 0 {
        (None, q)
    } else if seen.contains(q.last()) {
        popped(q.drop_last(), seen)
    } else {
        (Some(q.last()), q.drop_last())
    }
}

/// The members and the queue with the first `n` dependencies of a package: a path inside the root is a
/// member, and every path is to be loaded.
pub open spec fn with_deps(l: LoadingView, deps: Seq<DepDeclView>, n: int) -> LoadingView
    decreases n,
{
    if n <= 0 || n > deps.len() {
        l
    } else {
        let so_far = with_deps(l, deps, n - 1);
        match deps[n - 1].source {
            DepSourceView::Path(p) => LoadingView {
                members: if so_far.shared && inside(p, so_far.root) && !within_any(p, so_far.excludes)
                    && !so_far.members.contains(p) {
                    so_far.members.push(p)
                } else {
                    so_far.members
                },
                queue: so_far.queue.push(p),
                ..so_far
            },
            _ => so_far,
        }
    }
}

impl Loading {
    /// The next directory to load a package from.
    pub fn next(&mut self) -> (r: Option<String>)
        ensures
            popped(old(self)@.queue, old(self)@.seen) == (opt_view(r), final(self)@.queue),
            final(self)@ == (LoadingView {
                queue: final(self)@.queue,
                seen: match r {
                    Some(d) => old(self)@.seen.insert(d@),
                    None => old(self)@.seen,
                },
                ..old(self)@
            }),
    {
        let ghost q = self@.queue;
        let ghost was = *self;
        while self.queue.len() > 0
            invariant
                q == was@.queue,
                was == *old(self),
                popped(q, was@.seen) == popped(views(self.queue@), was@.seen),
                self@ == (LoadingView { queue: self@.queue, ..was@ }),
            decreases self.queue@.len(),
        {
            let ghost now = views(self.queue@);
            assert(now.len() == self.queue@.len());
            match self.queue.pop() {
                Some(d) => {
                    assert(d@ == now.last());
                    assert(views(self.queue@) =~= now.drop_last());
                    if !self.seen.contains(d.as_str()) {
                        self.seen.insert(d.as_str());
                        return Some(d);
                    }
                },
                None => {},
            }
        }
        assert(views(self.queue@).len() == self.queue@.len());
        None
    }

    fn add_deps(&mut self, deps: &Vec<DepDecl>)
        ensures
            final(self)@ == with_deps(old(self)@, views(deps@), deps@.len() as int),
    {
        let ghost was = self@;
        let ghost dv = views(deps@);
        let mut k: usize = 0;
        while k < deps.len()
            invariant
                k <= deps@.len(),
                dv == views(deps@),
                was == old(self)@,
                self@ == with_deps(was, dv, k as int),
            decreases deps@.len() - k,
        {
            assert(dv[k as int] == deps@[k as int]@);
            let ghost now = self@;
            if let DepSource::Path(p) = &deps[k].source {
                if self.shared && lies_in(p.as_str(), self.root.as_str()) && !lies_in_any(p.as_str(), &self.excludes)
                    && !crate::manifest::any_is(&self.members, p.as_str()) {
                    self.members.push(p.clone());
                    assert(views(self.members@) =~= now.members.push(p@));
                }
                self.queue.push(p.clone());
                assert(views(self.queue@) =~= now.queue.push(p@));
            }
            k += 1;
        }
    }

    /// Takes in the package of a directory: a node of its own, and what its dependencies add.
    pub fn take(&mut self, g: &mut Graph, dir: &str, pkg: Package)
        ensures
            final(self)@ == with_deps(old(self)@, pkg@.deps, pkg@.deps.len() as int),
            final(g)@ == with_node(
                old(g)@,
                NodeView {
                    is_member: final(self)@.members.contains(dir@),
                    ..loaded_node(pkg@, SourceIdView::Path(dir@))
                },
            ).0,
            old(g).wf() ==> final(g).wf(),
            old(g).distinct() ==> final(g).distinct(),
    {
        let ghost pv = pkg@;
        assert(pv.deps.len() == pkg.deps@.len());
        self.add_deps(&pkg.deps);
        let mut node = Node::new(
            PkgId { name: pkg.name.clone(), version: pkg.version.dup(), source: SourceId::Path(dir.to_owned()) },
        );
        node.is_member = crate::manifest::any_is(&self.members, dir);
        node.package = Some(pkg);
        g.add(node);
    }
}

/// A local package of the graph belongs to the workspace where its directory is one of the members'.
pub open spec fn flagged(g: Nodes, members: Seq<Seq<char>>) -> Nodes {
    Seq::new(
        g.len(),
        |n: int|
            match g[n].id.source {
                SourceIdView::Path(p) => NodeView { is_member: members.contains(p), ..g[n] },
                _ => g[n],
            },
    )
}

/// Of the first `k` nodes those that belong to the workspace.
pub open spec fn members_upto(g: Nodes, k: int) -> Seq<usize>
    decreases k,
{
    if k <= 0 || k > g.len() {
        Seq::empty()
    } else if g[k - 1].is_member {
        members_upto(g, k - 1).push((k - 1) as usize)
    } else {
        members_upto(g, k - 1)
    }
}

/// Of the first `k` members those in one of the directories.
pub open spec fn members_in(g: Nodes, members: Seq<usize>, dirs: Seq<Seq<char>>, k: int) -> Seq<usize>
    decreases k,
{
    if k <= 0 || k > members.len() {
        Seq::empty()
    } else if g[members[k - 1] as int].id.source matches SourceIdView::Path(p) && dirs.contains(p) {
        members_in(g, members, dirs, k - 1).push(members[k - 1])
    } else {
        members_in(g, members, dirs, k - 1)
    }
}

/// The default members that the workspace lists.
pub open spec fn default_list(m: Entries) -> Seq<Seq<char>> {
    match workspace_table(m) {
        Some(w) => texts(at(w, "default-members"@)),
        None => Seq::empty(),
    }
}

/// The packages that a command is about by default: those that are listed, else the root package, else all.
pub open spec fn defaults_in(m: Entries, root: Seq<char>, g: Nodes, members: Seq<usize>, d: DiskView) -> Result<
    Seq<usize>,
    WorkspaceFault,
> {
    if default_list(m).len() > 0 {
        match dirs_of(root, default_list(m), d) {
            Err(e) => Err(e),
            Ok(dirs) => Ok(members_in(g, members, dirs, members.len() as int)),
        }
    } else if at(m, "package"@).is_some() {
        Ok(
            match path_at(g, root, 0) {
                Some(k) => seq![k as usize],
                None => Seq::empty(),
            },
        )
    } else {
        Ok(members)
    }
}

fn flag_members(g: &mut Graph, members: &Vec<String>)
    ensures
        final(g)@ == flagged(old(g)@, views(members@)),
        final(g).nodes@.len() == old(g).nodes@.len(),
        old(g).wf() ==> final(g).wf(),
        old(g).distinct() ==> final(g).distinct(),
{
    let ghost was = *g;
    let ghost mv = views(members@);
    let mut k: usize = 0;
    while k < g.nodes.len()
        invariant
            k <= g.nodes@.len() == was.nodes@.len(),
            was == *old(g),
            mv == views(members@),
            forall|j: int| 0 <= j < k ==> (#[trigger] g.nodes@[j])@ == flagged(was@, mv)[j],
            forall|j: int| k <= j < g.nodes@.len() ==> #[trigger] g.nodes@[j] == was.nodes@[j],
            forall|j: int| 0 <= j < g.nodes@.len() ==> (#[trigger] g.nodes@[j]).id@ == was.nodes@[j].id@ && g.nodes@[j].edges@
                == was.nodes@[j].edges@,
        decreases g.nodes@.len() - k,
    {
        let ghost before = g.nodes@;
        assert(was@[k as int] == was.nodes@[k as int]@);
        let flag: Option<bool> = match &g.nodes[k].id.source {
            SourceId::Path(p) => Some(crate::manifest::any_is(members, p.as_str())),
            _ => None,
        };
        if let Some(b) = flag {
            let mut node = g.nodes.remove(k);
            node.is_member = b;
            g.nodes.insert(k, node);
            assert(g.nodes@ =~= before.update(k as int, node));
        }
        k += 1;
    }
    proof {
        assert(g@ =~= flagged(was@, mv));
        assert forall|n: int| 0 <= n < was.nodes@.len() implies (#[trigger] was.nodes@[n]).id@ == g.nodes@[n].id@ by {
            assert(g.nodes@[n].id@ == was.nodes@[n].id@);
        }
        assert forall|n: int| 0 <= n < was.nodes@.len() implies (#[trigger] was.nodes@[n]).edges@ == g.nodes@[n].edges@ by {
            assert(g.nodes@[n].edges@ == was.nodes@[n].edges@);
        }
        crate::resolve::lemma_same_shape(was, *g);
    }
}

fn find_members(g: &Graph) -> (r: Vec<usize>)
    ensures
        r@ == members_upto(g@, g@.len() as int),
        forall|k: int| 0 <= k < r@.len() ==> #[trigger] r@[k] < g.nodes@.len(),
{
    let mut out: Vec<usize> = Vec::new();
    let mut k: usize = 0;
    while k < g.nodes.len()
        invariant
            k <= g.nodes@.len(),
            out@ == members_upto(g@, k as int),
            forall|j: int| 0 <= j < out@.len() ==> #[trigger] out@[j] < g.nodes@.len(),
        decreases g.nodes@.len() - k,
    {
        assert(g@[k as int] == g.nodes@[k as int]@);
        if g.nodes[k].is_member {
            out.push(k);
        }
        k += 1;
    }
    assert(g@.len() == g.nodes@.len());
    out
}

fn find_defaults(m: &Vec<(String, Toml)>, root: &str, g: &Graph, members: &Vec<usize>, disk: &Disk) -> (r: Result<
    Vec<usize>,
    WorkspaceError,
>)
    requires
        forall|k: int| 0 <= k < members@.len() ==> #[trigger] members@[k] < g.nodes@.len(),
    ensures
        match defaults_in(toml_entries(m@), root@, g@, members@, disk@) {
            Ok(l) => r matches Ok(v) && v@ == l,
            Err(e) => r matches Err(x) && x@ == e,
        },
{
    let list = match get_workspace(m) {
        Some(w) => strings_in(get(w, "default-members")),
        None => {
            let none: Vec<String> = Vec::new();
            assert(views(none@) =~= Seq::<Seq<char>>::empty());
            none
        },
    };
    assert(views(list@).len() == list@.len());
    if list.len() > 0 {
        let dirs = match glob_dirs(root, &list, disk) {
            Ok(d) => d,
            Err(e) => {
                return Err(e);
            },
        };
        let ghost dv = views(dirs@);
        let mut out: Vec<usize> = Vec::new();
        let mut k: usize = 0;
        while k < members.len()
            invariant
                k <= members@.len(),
                dv == views(dirs@),
                forall|j: int| 0 <= j < members@.len() ==> #[trigger] members@[j] < g.nodes@.len(),
                out@ == members_in(g@, members@, dv, k as int),
            decreases members@.len() - k,
        {
            let n: usize = members[k];
            assert(members@[k as int] < g.nodes@.len());
            assert(g@[n as int] == g.nodes@[n as int]@);
            let hit: bool = match &g.nodes[n].id.source {
                SourceId::Path(p) => crate::manifest::any_is(&dirs, p.as_str()),
                _ => false,
            };
            if hit {
                out.push(n);
            }
            k += 1;
        }
        return Ok(out);
    }
    if get(m, "package").is_some() {
        let mut out: Vec<usize> = Vec::new();
        if let Some(k) = g.path_node(root) {
            out.push(k);
            assert(out@ =~= seq![k]);
        } else {
            assert(out@ =~= Seq::<usize>::empty());
        }
        return Ok(out);
    }
    let out: Vec<usize> = members.clone();
    assert(out@ =~= members@);
    Ok(out)
}

// ---------------------------------------------------------------------------
// What `[patch]` and `[replace]` put in place of packages.

/// Why a workspace cannot be loaded.
#[derive(Debug)]
pub enum LoadError {
    Workspace(WorkspaceError),
    Manifest(ManifestError),
    /// A key of `[replace]` that is not `name:version`.
    Replace(String),
}

pub enum LoadFault {
    Workspace(WorkspaceFault),
    Manifest(ManifestFault),
    Replace(Seq<char>),
}

impl View for LoadError {
    type V = LoadFault;

    open spec fn view(&self) -> LoadFault {
        match self {
            LoadError::Workspace(e) => LoadFault::Workspace(e@),
            LoadError::Manifest(e) => LoadFault::Manifest(e@),
            LoadError::Replace(s) => LoadFault::Replace(s@),
        }
    }
}

pub type PatchMap = Map<Seq<char>, Seq<DepDeclView>>;

pub open spec fn patch_lists(m: Map<Seq<char>, Vec<DepDecl>>) -> PatchMap {
    m.map_values(|v: Vec<DepDecl>| views(v@))
}

pub type Regs = Map<Seq<char>, String>;

/// The source that a table of `[patch]` is for.
pub open spec fn patch_source(name: Seq<char>, regs: Regs) -> Result<Seq<char>, LoadFault> {
    if name == "crates-io"@ || name == "https://github.com/rust-lang/crates.io-index"@ {
        Ok(CRATES_IO@)
    } else if holds(name, "://"@) {
        Ok(without_slashes(name))
    } else if regs.contains_key(name) {
        Ok(regs[name]@)
    } else {
        Err(LoadFault::Manifest(ManifestFault::Registry(name)))
    }
}

fn read_patch_source(name: &str, regs: &StrMap<String>) -> (r: Result<String, LoadError>)
    ensures
        match patch_source(name@, regs@) {
            Ok(s) => r matches Ok(x) && x@ == s,
            Err(e) => r matches Err(x) && x@ == e,
        },
{
    if same(name, "crates-io") || same(name, "https://github.com/rust-lang/crates.io-index") {
        return Ok(CRATES_IO.to_owned());
    }
    if contains(name, "://") {
        return Ok(trim_slashes(name).to_owned());
    }
    match regs.get(name) {
        Some(s) => Ok(s.clone()),
        None => Err(LoadError::Manifest(ManifestError::Registry(name.to_owned()))),
    }
}

/// The declaration of an entry of `[patch]`.
pub open spec fn patch_decl(key: Seq<char>, v: TomlTree, root: Seq<char>, regs: Regs) -> Result<DepDeclView, ManifestFault> {
    dep_of(key, v, DepKind::Normal, None, root, None, regs)
}

pub open spec fn patch_decls(t: Entries, root: Seq<char>, regs: Regs, n: int) -> Result<Seq<DepDeclView>, LoadFault>
    decreases n,
{
    if n <= 0 || n > t.len() {
        Ok(Seq::empty())
    } else {
        match patch_decls(t, root, regs, n - 1) {
            Err(e) => Err(e),
            Ok(l) => match patch_decl(t[n - 1].0, t[n - 1].1, root, regs) {
                Err(e) => Err(LoadFault::Manifest(e)),
                Ok(d) => Ok(l.push(d)),
            },
        }
    }
}

proof fn lemma_patch_decls_error(t: Entries, root: Seq<char>, regs: Regs, a: int, b: int)
    requires
        0 <= a <= b <= t.len(),
        patch_decls(t, root, regs, a).is_err(),
    ensures
        patch_decls(t, root, regs, b) == patch_decls(t, root, regs, a),
    decreases b - a,
{
    if a < b {
        lemma_patch_decls_error(t, root, regs, a, b - 1);
    }
}

fn read_patch_decls(v: &Toml, root: &str, regs: &StrMap<String>) -> (r: Result<Vec<DepDecl>, LoadError>)
    ensures
        match v@ {
            TomlTree::Table(t) => match patch_decls(t, root@, regs@, t.len() as int) {
                Ok(l) => r matches Ok(x) && views(x@) == l,
                Err(e) => r matches Err(x) && x@ == e,
            },
            _ => r matches Ok(x) && views(x@) == Seq::<DepDeclView>::empty(),
        },
{
    let mut out: Vec<DepDecl> = Vec::new();
    assert(views(out@) =~= Seq::<DepDeclView>::empty());
    if let Toml::Table(t) = v {
        let ghost all = toml_entries(t@);
        assert(v@ == TomlTree::Table(all));
        let mut k: usize = 0;
        while k < t.len()
            invariant
                k <= t@.len(),
                all == toml_entries(t@),
                v@ == TomlTree::Table(all),
                patch_decls(all, root@, regs@, k as int) == Ok::<_, LoadFault>(views(out@)),
            decreases t@.len() - k,
        {
            assert(all[k as int] == (t@[k as int].0@, t@[k as int].1@));
            let ghost was = out@;
            match parse_dep(t[k].0.as_str(), &t[k].1, DepKind::Normal, None, root, None, regs) {
                Ok(d) => {
                    out.push(d);
                    assert(views(out@) =~= views(was).push(d@));
                },
                Err(e) => {
                    proof {
                        lemma_patch_decls_error(all, root@, regs@, k + 1, all.len() as int);
                    }
                    return Err(LoadError::Manifest(e));
                },
            }
            k += 1;
        }
    }
    Ok(out)
}

/// What the first `n` tables of `[patch]` put in place. A later table for a source counts.
pub open spec fn patches_upto(t: Entries, root: Seq<char>, regs: Regs, n: int) -> Result<PatchMap, LoadFault>
    decreases n,
{
    if n <= 0 || n > t.len() {
        Ok(Map::empty())
    } else {
        match patches_upto(t, root, regs, n - 1) {
            Err(e) => Err(e),
            Ok(m) => match patch_source(t[n - 1].0, regs) {
                Err(e) => Err(e),
                Ok(s) => match t[n - 1].1 {
                    TomlTree::Table(l) => match patch_decls(l, root, regs, l.len() as int) {
                        Err(e) => Err(e),
                        Ok(ds) => Ok(m.insert(s, ds)),
                    },
                    _ => Ok(m.insert(s, Seq::empty())),
                },
            },
        }
    }
}

proof fn lemma_patches_error(t: Entries, root: Seq<char>, regs: Regs, a: int, b: int)
    requires
        0 <= a <= b <= t.len(),
        patches_upto(t, root, regs, a).is_err(),
    ensures
        patches_upto(t, root, regs, b) == patches_upto(t, root, regs, a),
    decreases b - a,
{
    if a < b {
        lemma_patches_error(t, root, regs, a, b - 1);
    }
}

/// The name and the version of a key of `[replace]`: what stands behind the last `#`.
pub open spec fn replace_key(key: Seq<char>) -> Result<(Seq<char>, Seq<char>), LoadFault> {
    let spec = match split_last(key, '#') {
        Some((_, s)) => s,
        None => key,
    };
    match split_first(spec, ':') {
        Some(nv) => Ok(nv),
        None => Err(LoadFault::Replace(spec)),
    }
}

/// The entry with the version of its key, unless it has one.
pub open spec fn with_version(v: TomlTree, ver: Seq<char>) -> TomlTree {
    match v {
        TomlTree::Table(t) => if at(t, "version"@).is_some() {
            v
        } else {
            TomlTree::Table(t.push(("version"@, TomlTree::Str(ver))))
        },
        _ => v,
    }
}

pub open spec fn replaces_upto(t: Entries, root: Seq<char>, regs: Regs, n: int) -> Result<Seq<DepDeclView>, LoadFault>
    decreases n,
{
    if n <= 0 || n > t.len() {
        Ok(Seq::empty())
    } else {
        match replaces_upto(t, root, regs, n - 1) {
            Err(e) => Err(e),
            Ok(l) => match replace_key(t[n - 1].0) {
                Err(e) => Err(e),
                Ok((name, ver)) => match patch_decl(name, with_version(t[n - 1].1, ver), root, regs) {
                    Err(e) => Err(LoadFault::Manifest(e)),
                    Ok(d) => Ok(l.push(d)),
                },
            },
        }
    }
}

proof fn lemma_replaces_error(t: Entries, root: Seq<char>, regs: Regs, a: int, b: int)
    requires
        0 <= a <= b <= t.len(),
        replaces_upto(t, root, regs, a).is_err(),
    ensures
        replaces_upto(t, root, regs, b) == replaces_upto(t, root, regs, a),
    decreases b - a,
{
    if a < b {
        lemma_replaces_error(t, root, regs, a, b - 1);
    }
}

fn add_version(v: &Toml, ver: &str) -> (r: Toml)
    ensures
        r@ == with_version(v@, ver@),
{
    match v {
        Toml::Table(t) => if get(t, "version").is_some() {
            v.dup()
        } else {
            let ghost all = toml_entries(t@);
            let mut l = crate::value::dup_table(t);
            let ghost was = l@;
            assert(toml_entries(was).len() == was.len());
            let one = Toml::Str(ver.to_owned());
            l.push(("version".to_owned(), one));
            assert(toml_entries(l@) =~= toml_entries(was).push(("version"@, TomlTree::Str(ver@))));
            Toml::Table(l)
        },
        _ => v.dup(),
    }
}

fn read_replaces(t: &Vec<(String, Toml)>, root: &str, regs: &StrMap<String>) -> (r: Result<Vec<DepDecl>, LoadError>)
    ensures
        match replaces_upto(toml_entries(t@), root@, regs@, t@.len() as int) {
            Ok(l) => r matches Ok(x) && views(x@) == l,
            Err(e) => r matches Err(x) && x@ == e,
        },
{
    let ghost all = toml_entries(t@);
    let mut out: Vec<DepDecl> = Vec::new();
    let mut k: usize = 0;
    assert(views(out@) =~= Seq::<DepDeclView>::empty());
    while k < t.len()
        invariant
            k <= t@.len(),
            all == toml_entries(t@),
            replaces_upto(all, root@, regs@, k as int) == Ok::<_, LoadFault>(views(out@)),
        decreases t@.len() - k,
    {
        assert(all[k as int] == (t@[k as int].0@, t@[k as int].1@));
        let ghost was = out@;
        let spec = match rsplit_once(t[k].0.as_str(), '#') {
            Some((_, s)) => s,
            None => t[k].0.as_str(),
        };
        match split_once(spec, ':') {
            None => {
                proof {
                    lemma_replaces_error(all, root@, regs@, k + 1, all.len() as int);
                }
                return Err(LoadError::Replace(spec.to_owned()));
            },
            Some((name, ver)) => {
                let v = add_version(&t[k].1, ver);
                match parse_dep(name, &v, DepKind::Normal, None, root, None, regs) {
                    Ok(d) => {
                        out.push(d);
                        assert(views(out@) =~= views(was).push(d@));
                    },
                    Err(e) => {
                        proof {
                            lemma_replaces_error(all, root@, regs@, k + 1, all.len() as int);
                        }
                        return Err(LoadError::Manifest(e));
                    },
                }
            },
        }
        k += 1;
    }
    Ok(out)
}

/// What a manifest puts in place of packages: `[patch]` by its sources, and `[replace]` for crates.io.
pub open spec fn patches_of(m: Entries, root: Seq<char>, regs: Regs) -> Result<PatchMap, LoadFault> {
    let patched = match at(m, "patch"@) {
        Some(TomlTree::Table(t)) => patches_upto(t, root, regs, t.len() as int),
        _ => Ok(Map::empty()),
    };
    match patched {
        Err(e) => Err(e),
        Ok(p) => match at(m, "replace"@) {
            Some(TomlTree::Table(t)) => match replaces_upto(t, root, regs, t.len() as int) {
                Err(e) => Err(e),
                Ok(l) => Ok(
                    p.insert(
                        CRATES_IO@,
                        if p.contains_key(CRATES_IO@) {
                            p[CRATES_IO@] + l
                        } else {
                            l
                        },
                    ),
                ),
            },
            _ => Ok(p),
        },
    }
}

fn read_patches(m: &Vec<(String, Toml)>, root: &str, regs: &StrMap<String>) -> (r: Result<Patches, LoadError>)
    ensures
        match patches_of(toml_entries(m@), root@, regs@) {
            Ok(p) => r matches Ok(x) && patch_lists(x@) == p,
            Err(e) => r matches Err(x) && x@ == e,
        },
{
    let mut out: Patches = StrMap::new();
    assert(patch_lists(out@) =~= Map::<Seq<char>, Seq<DepDeclView>>::empty());
    if let Some(Toml::Table(t)) = get(m, "patch") {
        let ghost all = toml_entries(t@);
        let ghost own = toml_entries(m@);
        assert(at(own, "patch"@) == Some(TomlTree::Table(all)));
        let mut k: usize = 0;
        while k < t.len()
            invariant
                k <= t@.len(),
                own == toml_entries(m@),
                all == toml_entries(t@),
                at(own, "patch"@) == Some(TomlTree::Table(all)),
                patches_upto(all, root@, regs@, k as int) == Ok::<_, LoadFault>(patch_lists(out@)),
            decreases t@.len() - k,
        {
            assert(all[k as int] == (t@[k as int].0@, t@[k as int].1@));
            let source = match read_patch_source(t[k].0.as_str(), regs) {
                Ok(s) => s,
                Err(e) => {
                    proof {
                        lemma_patches_error(all, root@, regs@, k + 1, all.len() as int);
                    }
                    return Err(e);
                },
            };
            let decls = match read_patch_decls(&t[k].1, root, regs) {
                Ok(d) => d,
                Err(e) => {
                    proof {
                        lemma_patches_error(all, root@, regs@, k + 1, all.len() as int);
                    }
                    return Err(e);
                },
            };
            let ghost was = out@;
            out.insert(source.as_str(), decls);
            assert(patch_lists(out@) =~= patch_lists(was).insert(source@, views(decls@)));
            k += 1;
        }
    }
    if let Some(Toml::Table(t)) = get(m, "replace") {
        let ghost p = patch_lists(out@);
        assert(toml_entries(t@).len() == t@.len());
        let mut decls = match read_replaces(t, root, regs) {
            Ok(d) => d,
            Err(e) => {
                return Err(e);
            },
        };
        let ghost dv = views(decls@);
        let mut all: Vec<DepDecl> = match out.get(CRATES_IO) {
            Some(l) => {
                assert(p[CRATES_IO@] == views(l@));
                crate::resolve::dup_decls(l.as_slice())
            },
            None => Vec::new(),
        };
        let ghost av = all@;
        let ghost ds = decls@;
        all.append(&mut decls);
        assert(views(all@) =~= views(av) + views(ds));
        assert(!p.contains_key(CRATES_IO@) ==> views(av) + dv =~= dv);
        let ghost was = out@;
        out.insert(CRATES_IO, all);
        assert(patch_lists(out@) =~= p.insert(CRATES_IO@, views(all@)));
    }
    Ok(out)
}

// ---------------------------------------------------------------------------
// The workspace as a whole.

/// The workspace of a command before its packages are loaded: where it lies, how it resolves, and what is
/// passed on.
pub open spec fn is_begun(ws: Workspace, current: Seq<char>, root_path: Seq<char>, m: Entries, opts: LoadOptions<'_>) -> bool {
    &&& ws.root@ == up(root_path).unwrap()
    &&& ws.root_manifest_path@ == root_path
    &&& toml_entries(ws.root_manifest@) == m
    &&& ws.current_manifest@ == current
    &&& ws.target_dir@ == under(up(root_path).unwrap(), "target"@)
    &&& ws.resolver == resolver_of(m, root_edition(m))
    &&& ws.graph@.len() == 0
    &&& ws.graph.wf()
    &&& ws.graph.distinct()
    &&& ws.members@.len() == 0
    &&& ws.default_members@.len() == 0
    &&& ws.pkgs@.len() == 0
    &&& ws.patches@ == Map::<Seq<char>, Vec<DepDecl>>::empty()
    &&& ws.locals == 0
    &&& ws.locked == opts.locked
    &&& ws.ignore_rust_version == opts.ignore_rust_version
    &&& ws.lock_version == 4
}

/// Why a workspace cannot be begun: its manifests are not found, or the one of the root lies nowhere or
/// cannot be read.
pub open spec fn begin_fault(cwd: Seq<char>, named: Option<Seq<char>>, d: DiskView) -> Option<WorkspaceFault> {
    match manifests_of(cwd, named, d) {
        Err(e) => Some(e),
        Ok((_, root)) => if up(root).is_none() || !d.manifests.contains_key(root) || d.manifests[root].is_none() {
            Some(WorkspaceFault::Unreadable(root))
        } else {
            match first_members(d.manifests[root].unwrap(), up(root).unwrap(), d) {
                Err(e) => Some(e),
                Ok(_) => None,
            }
        },
    }
}

impl Workspace {
    /// The workspace of a command, and where loading its packages starts.
    pub fn begin(opts: &LoadOptions<'_>, cwd: &str, env: Env<'_>, disk: &Disk) -> (r: Result<(Workspace, Loading), WorkspaceError>)
        requires
            opts.manifest_path matches Some(p) ==> up(p@).is_some(),
        ensures
            match begin_fault(cwd@, crate::invocation::opt_text(opts.manifest_path), disk@) {
                Some(e) => r matches Err(x) && x@ == e,
                None => {
                    let (current, root) = manifests_of(cwd@, crate::invocation::opt_text(opts.manifest_path), disk@)->Ok_0;
                    let m = disk@.manifests[root].unwrap();
                    let dir = up(root).unwrap();
                    r matches Ok(x) && is_begun(x.0, current, root, m, *opts) && x.0.registries == env.registries
                        && x.0.rustc_version == env.rustc_version && x.0.cargo@ == env.cargo@ && x.1@ == loading_of(
                        m,
                        dir,
                        first_members(m, dir, disk@)->Ok_0,
                    )
                },
            },
    {
        let (current, root_path) = match locate_manifests(cwd, opts.manifest_path, disk) {
            Ok(x) => x,
            Err(e) => {
                return Err(e);
            },
        };
        let root = match parent(root_path.as_str()) {
            Some(d) => d,
            None => {
                return Err(WorkspaceError::Unreadable(root_path));
            },
        };
        assert(disk@.manifests.contains_key(root_path@) == disk.manifests@.contains_key(root_path@));
        let m = match disk.manifests.get(root_path.as_str()) {
            Some(Some(t)) => t,
            _ => {
                return Err(WorkspaceError::Unreadable(root_path));
            },
        };
        assert(disk@.manifests[root_path@] == Some(toml_entries(m@)));
        let loading = match Loading::new(m, root.as_str(), disk) {
            Ok(l) => l,
            Err(e) => {
                return Err(e);
            },
        };
        let ws = Workspace {
            target_dir: join(root.as_str(), "target"),
            resolver: detect_resolver(m, find_edition(m)),
            root,
            root_manifest_path: root_path,
            root_manifest: crate::value::dup_table(m),
            current_manifest: current,
            graph: Graph::new(),
            members: Vec::new(),
            default_members: Vec::new(),
            pkgs: Vec::new(),
            cargo: env.cargo.to_owned(),
            registries: env.registries,
            patches: StrMap::new(),
            locals: 0,
            locked: opts.locked,
            ignore_rust_version: opts.ignore_rust_version,
            lock_version: 4,
            rustc_version: env.rustc_version,
        };
        Ok((ws, loading))
    }

    /// Whether the package in a directory inherits from the workspace of the root. Others look for theirs.
    pub fn inherits_root(&self, dir: &str) -> (r: bool)
        ensures
            r == (workspace_table(toml_entries(self.root_manifest@)).is_some() && inside(dir@, self.root@)),
    {
        get_workspace(&self.root_manifest).is_some() && lies_in(dir, self.root.as_str())
    }

    /// Settles which packages are members, once every local one is loaded, and what patches there are.
    pub fn settle(&mut self, loading: &Loading, disk: &Disk) -> (r: Result<(), LoadError>)
        requires
            old(self).graph.wf(),
            old(self).graph.distinct(),
        ensures
            final(self).graph.wf(),
            final(self).graph.distinct(),
            ({
                let m = toml_entries(old(self).root_manifest@);
                let g = flagged(old(self).graph@, loading@.members);
                let members = members_upto(g, g.len() as int);
                match defaults_in(m, old(self).root@, g, members, disk@) {
                    Err(e) => r matches Err(x) && x@ == LoadFault::Workspace(e),
                    Ok(defaults) => match patches_of(m, old(self).root@, old(self).registries@) {
                        Err(e) => r matches Err(x) && x@ == e,
                        Ok(p) => r.is_ok() && final(self).graph@ == g && final(self).locals == g.len()
                            && final(self).members@ == members && final(self).default_members@ == defaults && patch_lists(
                            final(self).patches@,
                        ) == p,
                    },
                }
            }),
            *final(self) == (Workspace {
                graph: final(self).graph,
                locals: final(self).locals,
                members: final(self).members,
                default_members: final(self).default_members,
                patches: final(self).patches,
                ..*old(self)
            }),
    {
        flag_members(&mut self.graph, &loading.members);
        let members = find_members(&self.graph);
        let defaults = match find_defaults(&self.root_manifest, self.root.as_str(), &self.graph, &members, disk) {
            Ok(d) => d,
            Err(e) => {
                return Err(LoadError::Workspace(e));
            },
        };
        let patches = match read_patches(&self.root_manifest, self.root.as_str(), &self.registries) {
            Ok(p) => p,
            Err(e) => {
                return Err(e);
            },
        };
        self.locals = self.graph.nodes.len();
        self.members = members;
        self.default_members = defaults;
        self.patches = patches;
        Ok(())
    }

    /// Whether the graph is resolved anew, where that is due. Under `--locked` it is an error instead: the path of the
    /// lockfile that would have to be written.
    pub fn relock(&self, stale: bool) -> (r: Result<bool, String>)
        ensures
            match r {
                Ok(b) => b == stale && !(stale && self.locked),
                Err(p) => stale && self.locked && p@ == lock_path(self.root@),
            },
    {
        if stale && self.locked {
            Err(join(self.root.as_str(), "Cargo.lock"))
        } else {
            Ok(stale)
        }
    }

    /// Takes in the lockfile, where there is one; whether the graph is to be resolved anew: there is none, or it does
    /// not cover what local packages need. Under `--locked` that is an error, and nothing is written.
    pub fn lock(&mut self, lock: Option<&Lockfile>) -> (r: Result<bool, LockRefused>)
        requires
            old(self).graph.wf(),
        ensures
            final(self).graph.wf(),
            old(self).graph.distinct() ==> final(self).graph.distinct(),
            match lock_outcome(old(self).graph@, lock_of(lock), old(self).patches@, old(self).locked, lock_path(old(self).root@)) {
                Ok(b) => r == Ok::<bool, LockRefused>(b),
                Err(e) => r matches Err(x) && x@ == e,
            },
            match lock {
                None => final(self).graph@ == old(self).graph@ && final(self).lock_version == old(self).lock_version,
                Some(l) => final(self).lock_version == l.version && (imported(
                    old(self).graph@,
                    l@.packages,
                    l@.packages.len() as int,
                ).fault.is_none() ==> final(self).graph@ == with_patches(
                    with_lock(old(self).graph@, l@.packages),
                    old(self).patches@,
                )),
            },
            *final(self) == (Workspace {
                graph: final(self).graph,
                lock_version: final(self).lock_version,
                ..*old(self)
            }),
    {
        let stale: bool = match lock {
            None => true,
            Some(l) => {
                self.lock_version = l.version;
                match self.graph.import_lock(l) {
                    Err(e) => {
                        return Err(LockRefused::Source(e));
                    },
                    Ok(_) => {},
                }
                self.graph.mark_lock_patches(&self.patches);
                !self.graph.locals_complete()
            },
        };
        match self.relock(stale) {
            Ok(b) => Ok(b),
            Err(p) => Err(LockRefused::NeedsUpdate(p)),
        }
    }

    /// The compiler that versions should build with. Only the third resolver cares, and only where it is not told to
    /// ignore what packages say.
    pub fn msrv(&self) -> (r: Option<&Version>)
        ensures
            version_opt(r) == msrv_of(*self),
    {
        let third: bool = self.resolver == ResolverVersion::V3;
        if third && !self.ignore_rust_version {
            match &self.rustc_version {
                Some(v) => Some(v),
                None => None,
            }
        } else {
            None
        }
    }

    /// The package for a dependency in a graph that is resolved for this workspace: with its patches, and for the
    /// compiler where that matters.
    pub fn select_for(&self, g: &mut Graph, dep: &DepDecl, prefs: &Prefs, refused: bool, got: Got) -> (r: Pick)
        ensures
            pick_of(old(g)@, dep@, prefs@, self.patches@, refused, msrv_of(*self), got@) == (final(g)@, r@),
            index_decides(old(g)@, dep@, prefs@, self.patches@, refused) ==> (got@ matches GotView::Entries(es) ==> (entry_at(
                es,
                dep@.req,
                msrv_of(*self),
            ) matches Some(k) ==> newest_entry(es, dep@.req, msrv_of(*self), k))),
            r matches Pick::Use(k) ==> k < final(g).nodes@.len(),
            old(g).wf() ==> final(g).wf(),
            old(g).distinct() ==> final(g).distinct(),
    {
        g.select(dep, prefs, &self.patches, refused, self.msrv(), got)
    }
}

/// Where the lockfile of a workspace is.
pub open spec fn lock_path(root: Seq<char>) -> Seq<char> {
    under(root, "Cargo.lock"@)
}

/// The compiler that versions should build with, where that matters.
pub open spec fn msrv_of(ws: Workspace) -> Option<VersionView> {
    if ws.resolver is V3 && !ws.ignore_rust_version {
        opt_view(ws.rustc_version)
    } else {
        None
    }
}

/// Why the graph of a workspace cannot be used as it is.
#[derive(Debug)]
pub enum LockRefused {
    /// The lockfile names a source that cannot be read.
    Source(SourceError),
    /// The lockfile at the path would have to be written, and `--locked` prevents that.
    NeedsUpdate(String),
}

pub enum LockRefusal {
    Source(SourceFault),
    NeedsUpdate(Seq<char>),
}

impl View for LockRefused {
    type V = LockRefusal;

    open spec fn view(&self) -> LockRefusal {
        match self {
            LockRefused::Source(e) => LockRefusal::Source(e@),
            LockRefused::NeedsUpdate(p) => LockRefusal::NeedsUpdate(p@),
        }
    }
}

pub open spec fn lock_of(lock: Option<&Lockfile>) -> Option<LockfileView> {
    match lock {
        Some(l) => Some(l@),
        None => None,
    }
}

/// The lockfile is absent, or does not cover what local packages need.
pub open spec fn is_stale(g: Nodes, lock: Option<LockfileView>, patches: Map<Seq<char>, Vec<DepDecl>>) -> bool {
    match lock {
        None => true,
        Some(l) => !complete(with_patches(with_lock(g, l.packages), patches)),
    }
}

/// What comes of a lockfile: whether the graph is resolved anew, or why it cannot be used.
pub open spec fn lock_outcome(
    g: Nodes,
    lock: Option<LockfileView>,
    patches: Map<Seq<char>, Vec<DepDecl>>,
    locked: bool,
    path: Seq<char>,
) -> Result<bool, LockRefusal> {
    let fault = match lock {
        Some(l) => imported(g, l.packages, l.packages.len() as int).fault,
        None => None,
    };
    match fault {
        Some(e) => Err(LockRefusal::Source(e)),
        None => if is_stale(g, lock, patches) && locked {
            Err(LockRefusal::NeedsUpdate(path))
        } else {
            Ok(is_stale(g, lock, patches))
        },
    }
}

/// Under `--locked` nothing is ever resolved anew: where the lockfile is absent, or leaves a dependency that a local
/// package needs without a package, loading fails.
pub proof fn law_a_locked_workspace_is_not_resolved_anew(
    g: Nodes,
    lock: Option<LockfileView>,
    patches: Map<Seq<char>, Vec<DepDecl>>,
    path: Seq<char>,
    n: int,
    i: int,
)
    requires
        lock matches Some(l) ==> ({
            let h = with_patches(with_lock(g, l.packages), patches);
            &&& 0 <= n < h.len()
            &&& h[n].local()
            &&& 0 <= i < h[n].decls().len()
            &&& is_required(h[n], h[n].decls()[i])
            &&& target_at(h, n, h[n].decls()[i]).is_none()
        }),
    ensures
        lock_outcome(g, lock, patches, true, path).is_err(),
        lock_outcome(g, lock, patches, true, path) != Ok::<bool, LockRefusal>(true),
{
    if let Some(l) = lock {
        let h = with_patches(with_lock(g, l.packages), patches);
        assert(is_required(h[n], h[n].decls()[i]));
    }
}

// ---------------------------------------------------------------------------
// Loading a workspace from start to end.

/// The packages by their directories.
pub open spec fn package_views(m: Map<Seq<char>, Package>) -> Map<Seq<char>, PackageView> {
    Map::new(|d: Seq<char>| m.contains_key(d), |d: Seq<char>| m[d]@)
}

/// How far the local packages are loaded.
pub enum Walked {
    /// All of them are.
    Done(LoadingView, Nodes),
    /// The one of the directory is missing.
    Need(Seq<char>),
}

/// Loading once a directory is taken from the queue.
pub open spec fn without_first(l: LoadingView, d: Seq<char>) -> LoadingView {
    LoadingView { queue: popped(l.queue, l.seen).1, seen: l.seen.insert(d), ..l }
}

pub open spec fn with_package(g: Nodes, l: LoadingView, d: Seq<char>, pkg: PackageView) -> Nodes {
    with_node(g, NodeView { is_member: l.members.contains(d), ..loaded_node(pkg, SourceIdView::Path(d)) }).0
}

/// Takes the packages of the queue in, and those that they lead to, until one is missing.
pub open spec fn walk(l: LoadingView, g: Nodes, pkgs: Map<Seq<char>, PackageView>) -> Walked
    decreases pkgs.dom().difference(l.seen).len(),
    when pkgs.dom().finite()
    via lemma_walk_ends
{
    match popped(l.queue, l.seen).0 {
        None => Walked::Done(LoadingView { queue: popped(l.queue, l.seen).1, ..l }, g),
        Some(d) => if !pkgs.contains_key(d) {
            Walked::Need(d)
        } else {
            let next = with_deps(without_first(l, d), pkgs[d].deps, pkgs[d].deps.len() as int);
            walk(next, with_package(g, next, d, pkgs[d]), pkgs)
        },
    }
}

proof fn lemma_popped(q: Seq<Seq<char>>, seen: Set<Seq<char>>)
    ensures
        popped(q, seen).0 matches Some(d) ==> !seen.contains(d),
    decreases q.len(),
{
    if q.len() > 0 && seen.contains(q.last()) {
        lemma_popped(q.drop_last(), seen);
    }
}

proof fn lemma_deps_seen(l: LoadingView, deps: Seq<DepDeclView>, n: int)
    ensures
        with_deps(l, deps, n).seen == l.seen,
    decreases n,
{
    if n > 0 && n <= deps.len() {
        lemma_deps_seen(l, deps, n - 1);
    }
}

proof fn lemma_fewer_left(all: Set<Seq<char>>, seen: Set<Seq<char>>, d: Seq<char>)
    requires
        all.finite(),
        all.contains(d),
        !seen.contains(d),
    ensures
        all.difference(seen.insert(d)).len() < all.difference(seen).len(),
{
    let a = all.difference(seen);
    assert(all.difference(seen.insert(d)) =~= a.remove(d));
    assert(a.contains(d));
}

#[via_fn]
proof fn lemma_walk_ends(l: LoadingView, g: Nodes, pkgs: Map<Seq<char>, PackageView>) {
    lemma_popped(l.queue, l.seen);
    if let Some(d) = popped(l.queue, l.seen).0 {
        if pkgs.contains_key(d) {
            lemma_deps_seen(without_first(l, d), pkgs[d].deps, pkgs[d].deps.len() as int);
            lemma_fewer_left(pkgs.dom(), l.seen, d);
        }
    }
}

/// How far a workspace is loaded.
pub enum LoadStep {
    /// The package in the directory has to be loaded first.
    Need(String),
    /// It is loaded; whether its graph is to be resolved anew.
    Loaded(Workspace, bool),
}

/// Why a workspace cannot be loaded.
#[derive(Debug)]
pub enum LoadRefused {
    Begin(WorkspaceError),
    Settle(LoadError),
    Lock(LockRefused),
}

pub enum LoadRefusal {
    Begin(WorkspaceFault),
    Settle(LoadFault),
    Lock(LockRefusal),
}

impl View for LoadRefused {
    type V = LoadRefusal;

    open spec fn view(&self) -> LoadRefusal {
        match self {
            LoadRefused::Begin(e) => LoadRefusal::Begin(e@),
            LoadRefused::Settle(e) => LoadRefusal::Settle(e@),
            LoadRefused::Lock(e) => LoadRefusal::Lock(e@),
        }
    }
}

/// The graph once a lockfile is taken in.
pub open spec fn locked_graph(g: Nodes, lock: Option<LockfileView>, patches: Map<Seq<char>, Vec<DepDecl>>) -> Nodes {
    match lock {
        Some(l) => with_patches(with_lock(g, l.packages), patches),
        None => g,
    }
}

/// What loading comes to, once every local package is there.
pub open spec fn load_ends(
    m: Entries,
    root: Seq<char>,
    regs: Regs,
    d: DiskView,
    lock: Option<LockfileView>,
    locked: bool,
    members: Seq<Seq<char>>,
    loaded: Nodes,
    r: Result<LoadStep, LoadRefused>,
) -> bool {
    let g = flagged(loaded, members);
    let ms = members_upto(g, g.len() as int);
    match defaults_in(m, root, g, ms, d) {
        Err(e) => r matches Err(x) && x@ == LoadRefusal::Settle(LoadFault::Workspace(e)),
        Ok(defaults) => match patches_of(m, root, regs) {
            Err(e) => r matches Err(x) && x@ == LoadRefusal::Settle(e),
            Ok(p) => exists|patches: Map<Seq<char>, Vec<DepDecl>>| #[trigger]
                patch_lists(patches) == p && match lock_outcome(g, lock, patches, locked, lock_path(root)) {
                    Err(e) => r matches Err(x) && x@ == LoadRefusal::Lock(e),
                    Ok(stale) => r matches Ok(LoadStep::Loaded(ws, b)) && b == stale && ws.patches@ == patches && ws.graph@
                        == locked_graph(g, lock, patches) && ws.graph.wf() && ws.graph.distinct() && ws.members@ == ms
                        && ws.default_members@ == defaults && ws.locals == g.len() && ws.lock_version == (match lock {
                        Some(l) => l.version,
                        None => 4,
                    }),
                },
        },
    }
}

/// Under `--locked`, loading fails where the lockfile is absent, or does not cover what local packages need.
pub proof fn law_a_locked_load_needs_a_lockfile_that_covers_it(
    m: Entries,
    root: Seq<char>,
    regs: Regs,
    d: DiskView,
    lock: Option<LockfileView>,
    members: Seq<Seq<char>>,
    loaded: Nodes,
    r: Result<LoadStep, LoadRefused>,
)
    requires
        load_ends(m, root, regs, d, lock, true, members, loaded, r),
        forall|patches: Map<Seq<char>, Vec<DepDecl>>|
            patches_of(m, root, regs) == Ok::<PatchMap, LoadFault>(#[trigger] patch_lists(patches)) ==> is_stale(
                flagged(loaded, members),
                lock,
                patches,
            ),
    ensures
        r.is_err(),
{
    let g = flagged(loaded, members);
    if defaults_in(m, root, g, members_upto(g, g.len() as int), d).is_ok() && patches_of(m, root, regs).is_ok() {
        let p = patches_of(m, root, regs)->Ok_0;
        let patches = choose|patches: Map<Seq<char>, Vec<DepDecl>>| #[trigger]
            patch_lists(patches) == p && match lock_outcome(g, lock, patches, true, lock_path(root)) {
                Err(e) => r matches Err(x) && x@ == LoadRefusal::Lock(e),
                Ok(stale) => r matches Ok(LoadStep::Loaded(ws, b)) && b == stale && ws.patches@ == patches && ws.graph@
                    == locked_graph(g, lock, patches) && ws.graph.wf() && ws.graph.distinct() && ws.members@ == members_upto(
                    g,
                    g.len() as int,
                ) && ws.default_members@ == defaults_in(m, root, g, members_upto(g, g.len() as int), d)->Ok_0 && ws.locals == g.len()
                    && ws.lock_version == (match lock {
                    Some(l) => l.version,
                    None => 4,
                }),
            };
        assert(is_stale(g, lock, patches));
    }
}

/// What is passed on to a workspace that is loaded.
pub open spec fn passes_on(ws: Workspace, current: Seq<char>, root_path: Seq<char>, m: Entries, opts: LoadOptions<'_>, env: Env<'_>) -> bool {
    &&& ws.root@ == up(root_path).unwrap()
    &&& ws.root_manifest_path@ == root_path
    &&& toml_entries(ws.root_manifest@) == m
    &&& ws.current_manifest@ == current
    &&& ws.target_dir@ == under(up(root_path).unwrap(), "target"@)
    &&& ws.resolver == resolver_of(m, root_edition(m))
    &&& ws.pkgs@.len() == 0
    &&& ws.locked == opts.locked
    &&& ws.ignore_rust_version == opts.ignore_rust_version
    &&& ws.registries == env.registries
    &&& ws.rustc_version == env.rustc_version
    &&& ws.cargo@ == env.cargo@
}

impl Workspace {
    /// Loads a workspace: its local packages, which of them are members, its patches, and its lockfile. `packages` are
    /// those that were read so far, by their directories; where one is missing, it has to be read first. Under
    /// `--locked` a lockfile that is absent or does not cover what local packages need is an error.
    pub fn load(
        opts: &LoadOptions<'_>,
        cwd: &str,
        env: Env<'_>,
        disk: &Disk,
        packages: &StrMap<Package>,
        lock: Option<&Lockfile>,
    ) -> (r: Result<LoadStep, LoadRefused>)
        requires
            opts.manifest_path matches Some(p) ==> up(p@).is_some(),
        ensures
            match begin_fault(cwd@, crate::invocation::opt_text(opts.manifest_path), disk@) {
                Some(e) => r matches Err(x) && x@ == LoadRefusal::Begin(e),
                None => {
                    let (current, root) = manifests_of(cwd@, crate::invocation::opt_text(opts.manifest_path), disk@)->Ok_0;
                    let m = disk@.manifests[root].unwrap();
                    let dir = up(root).unwrap();
                    match walk(loading_of(m, dir, first_members(m, dir, disk@)->Ok_0), Seq::empty(), package_views(packages@)) {
                        Walked::Need(d) => r matches Ok(LoadStep::Need(x)) && x@ == d,
                        Walked::Done(l, g) => load_ends(
                            m,
                            dir,
                            env.registries@,
                            disk@,
                            lock_of(lock),
                            opts.locked,
                            l.members,
                            g,
                            r,
                        ) && (r matches Ok(LoadStep::Loaded(ws, _)) ==> passes_on(ws, current, root, m, *opts, env)),
                    }
                },
            },
    {
        let ghost regs = env.registries@;
        let (ws, loading) = match Workspace::begin(opts, cwd, env, disk) {
            Ok(x) => x,
            Err(e) => {
                return Err(LoadRefused::Begin(e));
            },
        };
        let mut ws = ws;
        let mut loading = loading;
        let ghost pv = package_views(packages@);
        let ghost start = loading@;
        let ghost first = ws;
        let ghost named = crate::invocation::opt_text(opts.manifest_path);
        let ghost root = (manifests_of(cwd@, named, disk@)->Ok_0).1;
        let ghost m = disk@.manifests[root].unwrap();
        proof {
            packages.lemma_finite();
            assert(pv.dom() =~= packages@.dom());
            assert(ws.graph@ =~= Seq::<NodeView>::empty());
        }
        loop
            invariant_except_break
                walk(start, Seq::empty(), pv) == walk(loading@, ws.graph@, pv),
            invariant
                pv == package_views(packages@),
                pv.dom().finite(),
                begin_fault(cwd@, named, disk@).is_none(),
                named == crate::invocation::opt_text(opts.manifest_path),
                start == loading_of(m, up(root).unwrap(), first_members(m, up(root).unwrap(), disk@)->Ok_0),
                m == disk@.manifests[root].unwrap(),
                root == (manifests_of(cwd@, named, disk@)->Ok_0).1,
                ws.graph.wf(),
                ws.graph.distinct(),
                ws == (Workspace { graph: ws.graph, ..first }),
            ensures
                walk(start, Seq::empty(), pv) == Walked::Done(loading@, ws.graph@),
            decreases pv.dom().difference(loading@.seen).len(),
        {
            let ghost l = loading@;
            let ghost g = ws.graph@;
            proof {
                lemma_popped(l.queue, l.seen);
            }
            match loading.next() {
                None => {
                    break;
                },
                Some(dir) => match packages.get(dir.as_str()) {
                    None => {
                        assert(!pv.contains_key(dir@));
                        return Ok(LoadStep::Need(dir));
                    },
                    Some(p) => {
                        assert(pv.contains_key(dir@) && pv[dir@] == p@);
                        assert(loading@ == without_first(l, dir@));
                        proof {
                            lemma_deps_seen(without_first(l, dir@), pv[dir@].deps, pv[dir@].deps.len() as int);
                            lemma_fewer_left(pv.dom(), l.seen, dir@);
                        }
                        loading.take(&mut ws.graph, dir.as_str(), p.dup());
                    },
                },
            }
        }
        match ws.settle(&loading, disk) {
            Ok(_) => {},
            Err(e) => {
                return Err(LoadRefused::Settle(e));
            },
        }
        let ghost patches = ws.patches@;
        let stale: bool = match ws.lock(lock) {
            Ok(b) => b,
            Err(e) => {
                assert(patch_lists(patches) == patch_lists(patches));
                return Err(LoadRefused::Lock(e));
            },
        };
        assert(patch_lists(patches) == patch_lists(patches));
        Ok(LoadStep::Loaded(ws, stale))
    }
}

// ---------------------------------------------------------------------------
// Which packages a command is about.

/// A spec like `name`, `name@version` or `name:version` names the package. A version may be cut short.
pub open spec fn spec_names_pkg(spec: Seq<char>, name: Seq<char>, v: VersionView) -> bool {
    let (n, ver) = split_spec(spec);
    n == name && (ver matches Some(x) ==> starts(version_text(v), x))
}

fn names_pkg(spec: &str, name: &str, v: &Version) -> (r: bool)
    ensures
        r == spec_names_pkg(spec@, name@, v@),
{
    let (n, ver): (&str, Option<&str>) = split_at_mark(spec);
    same(n, name) && match ver {
        Some(x) => starts_with(v.text().as_str(), x),
        None => true,
    }
}

pub open spec fn spec_names_node(spec: Seq<char>, n: NodeView) -> bool {
    spec_names_pkg(spec, n.id.name, n.id.version)
}

/// Why no packages are selected.
#[derive(Debug)]
pub enum PickError {
    /// What is excluded is no member.
    NotMember(String),
    /// A spec names no package.
    NoMatch(String),
    /// A spec names several, which are listed.
    Ambiguous(String, Vec<String>),
}

pub enum PickFault {
    NotMember(Seq<char>),
    NoMatch(Seq<char>),
    Ambiguous(Seq<char>, Seq<Seq<char>>),
}

impl View for PickError {
    type V = PickFault;

    open spec fn view(&self) -> PickFault {
        match self {
            PickError::NotMember(s) => PickFault::NotMember(s@),
            PickError::NoMatch(s) => PickFault::NoMatch(s@),
            PickError::Ambiguous(s, l) => PickFault::Ambiguous(s@, views(l@)),
        }
    }
}

/// Some member is named by the spec.
pub open spec fn member_named(g: Nodes, members: Seq<usize>, spec: Seq<char>) -> bool {
    exists|i: int| 0 <= i < members.len() && spec_names_node(spec, g[#[trigger] members[i] as int])
}

/// The first spec from `k` on that names no member.
pub open spec fn stranger_from(g: Nodes, members: Seq<usize>, specs: Seq<Seq<char>>, k: int) -> Option<Seq<char>>
    decreases specs.len() - k,
{
    if k < 0 || k >= specs.len() {
        None
    } else if !member_named(g, members, specs[k]) {
        Some(specs[k])
    } else {
        stranger_from(g, members, specs, k + 1)
    }
}

/// One of the specs names the node.
pub open spec fn named_by_any(n: NodeView, specs: Seq<Seq<char>>) -> bool {
    exists|i: int| 0 <= i < specs.len() && spec_names_node(#[trigger] specs[i], n)
}

/// Of the first `k` members those that no spec names.
pub open spec fn members_but(g: Nodes, members: Seq<usize>, specs: Seq<Seq<char>>, k: int) -> Seq<usize>
    decreases k,
{
    if k <= 0 || k > members.len() {
        Seq::empty()
    } else if named_by_any(g[members[k - 1] as int], specs) {
        members_but(g, members, specs, k - 1)
    } else {
        members_but(g, members, specs, k - 1).push(members[k - 1])
    }
}

/// Of the first `k` nodes those that the spec names.
pub open spec fn nodes_named(g: Nodes, spec: Seq<char>, k: int) -> Seq<usize>
    decreases k,
{
    if k <= 0 || k > g.len() {
        Seq::empty()
    } else if spec_names_node(spec, g[k - 1]) {
        nodes_named(g, spec, k - 1).push((k - 1) as usize)
    } else {
        nodes_named(g, spec, k - 1)
    }
}

/// Of the first `k` of these nodes those that are members.
pub open spec fn members_among(g: Nodes, l: Seq<usize>, k: int) -> Seq<usize>
    decreases k,
{
    if k <= 0 || k > l.len() {
        Seq::empty()
    } else if g[l[k - 1] as int].is_member {
        members_among(g, l, k - 1).push(l[k - 1])
    } else {
        members_among(g, l, k - 1)
    }
}

/// `name@version`.
pub open spec fn shown_id(n: NodeView) -> Seq<char> {
    n.id.name + "@"@ + version_text(n.id.version)
}

/// The package that a spec names: the only one, or the only member.
pub open spec fn picked(g: Nodes, spec: Seq<char>) -> Result<usize, PickFault> {
    let found = nodes_named(g, spec, g.len() as int);
    let members = members_among(g, found, found.len() as int);
    if found.len() == 0 {
        Err(PickFault::NoMatch(spec))
    } else if found.len() == 1 {
        Ok(found[0])
    } else if members.len() == 1 {
        Ok(members[0])
    } else {
        Err(PickFault::Ambiguous(spec, Seq::new(found.len(), |i: int| shown_id(g[found[i] as int]))))
    }
}

pub open spec fn picked_upto(g: Nodes, specs: Seq<Seq<char>>, k: int) -> Result<Seq<usize>, PickFault>
    decreases k,
{
    if k <= 0 || k > specs.len() {
        Ok(Seq::empty())
    } else {
        match picked_upto(g, specs, k - 1) {
            Err(e) => Err(e),
            Ok(l) => match picked(g, specs[k - 1]) {
                Err(e) => Err(e),
                Ok(n) => Ok(l.push(n)),
            },
        }
    }
}

proof fn lemma_picked_error(g: Nodes, specs: Seq<Seq<char>>, a: int, b: int)
    requires
        0 <= a <= b <= specs.len(),
        picked_upto(g, specs, a).is_err(),
    ensures
        picked_upto(g, specs, b) == picked_upto(g, specs, a),
    decreases b - a,
{
    if a < b {
        lemma_picked_error(g, specs, a, b - 1);
    }
}

/// The first member from `k` on whose manifest it is.
pub open spec fn owner_from(g: Nodes, members: Seq<usize>, manifest: Seq<char>, k: int) -> Option<usize>
    decreases members.len() - k,
{
    if k < 0 || k >= members.len() {
        None
    } else if g[members[k] as int].id.source matches SourceIdView::Path(p) && same_place(under(p, "Cargo.toml"@), manifest) {
        Some(members[k])
    } else {
        owner_from(g, members, manifest, k + 1)
    }
}

/// The packages that a command is about: those of the workspace that are not excluded, those that are named,
/// the one of the current manifest, or the default ones.
pub open spec fn selected(ws: Workspace, packages: Seq<Seq<char>>, workspace: bool, exclude: Seq<Seq<char>>) -> Result<
    Seq<usize>,
    PickFault,
> {
    let g = ws.graph@;
    if workspace {
        match stranger_from(g, ws.members@, exclude, 0) {
            Some(e) => Err(PickFault::NotMember(e)),
            None => Ok(members_but(g, ws.members@, exclude, ws.members@.len() as int)),
        }
    } else if packages.len() > 0 {
        picked_upto(g, packages, packages.len() as int)
    } else {
        let owner = owner_from(g, ws.members@, ws.current_manifest@, 0);
        if !same_place(ws.current_manifest@, ws.root_manifest_path@) && owner.is_some() {
            Ok(seq![owner.unwrap()])
        } else {
            Ok(ws.default_members@)
        }
    }
}

impl Workspace {
    /// Members and default members are nodes of the graph, and its edges lead to nodes.
    pub open spec fn wf(self) -> bool {
        &&& self.graph.wf()
        &&& forall|k: int| 0 <= k < self.members@.len() ==> #[trigger] self.members@[k] < self.graph.nodes@.len()
        &&& self.locals <= self.graph.nodes@.len()
    }

    fn is_member_named(&self, spec: &str) -> (r: bool)
        requires
            self.wf(),
        ensures
            r == member_named(self.graph@, self.members@, spec@),
    {
        let mut k: usize = 0;
        while k < self.members.len()
            invariant
                self.wf(),
                k <= self.members@.len(),
                forall|j: int| 0 <= j < k ==> !spec_names_node(spec@, self.graph@[#[trigger] self.members@[j] as int]),
            decreases self.members@.len() - k,
        {
            let n: usize = self.members[k];
            assert(self.members@[k as int] < self.graph.nodes@.len());
            assert(self.graph@[n as int] == self.graph.nodes@[n as int]@);
            let id = &self.graph.nodes[n].id;
            if names_pkg(spec, id.name.as_str(), &id.version) {
                return true;
            }
            k += 1;
        }
        false
    }

    fn select_workspace(&self, exclude: &Vec<String>) -> (r: Result<Vec<usize>, PickError>)
        requires
            self.wf(),
        ensures
            match selected(*self, Seq::empty(), true, views(exclude@)) {
                Ok(l) => r matches Ok(v) && v@ == l,
                Err(e) => r matches Err(x) && x@ == e,
            },
    {
        let ghost g = self.graph@;
        let ghost ev = views(exclude@);
        let mut k: usize = 0;
        while k < exclude.len()
            invariant
                self.wf(),
                g == self.graph@,
                k <= exclude@.len(),
                ev == views(exclude@),
                stranger_from(g, self.members@, ev, 0) == stranger_from(g, self.members@, ev, k as int),
            decreases exclude@.len() - k,
        {
            assert(ev[k as int] == exclude@[k as int]@);
            if !self.is_member_named(exclude[k].as_str()) {
                return Err(PickError::NotMember(exclude[k].clone()));
            }
            k += 1;
        }
        assert(ev.len() == exclude@.len());
        let mut out: Vec<usize> = Vec::new();
        let mut i: usize = 0;
        while i < self.members.len()
            invariant
                self.wf(),
                g == self.graph@,
                ev == views(exclude@),
                i <= self.members@.len(),
                out@ == members_but(g, self.members@, ev, i as int),
            decreases self.members@.len() - i,
        {
            let n: usize = self.members[i];
            assert(self.members@[i as int] < self.graph.nodes@.len());
            assert(g[n as int] == self.graph.nodes@[n as int]@);
            let id = &self.graph.nodes[n].id;
            let mut out_of: bool = false;
            let mut j: usize = 0;
            while j < exclude.len()
                invariant
                    j <= exclude@.len(),
                    ev == views(exclude@),
                    g[n as int].id == id@,
                    out_of == exists|a: int| 0 <= a < j && spec_names_node(#[trigger] ev[a], g[n as int]),
                decreases exclude@.len() - j,
            {
                assert(ev[j as int] == exclude@[j as int]@);
                let hit: bool = names_pkg(exclude[j].as_str(), id.name.as_str(), &id.version);
                assert(hit == spec_names_node(ev[j as int], g[n as int]));
                out_of = out_of || hit;
                j += 1;
            }
            assert(out_of == named_by_any(g[n as int], ev));
            if !out_of {
                out.push(n);
            }
            i += 1;
        }
        Ok(out)
    }

    fn named_nodes(&self, spec: &str) -> (r: Vec<usize>)
        ensures
            r@ == nodes_named(self.graph@, spec@, self.graph@.len() as int),
            forall|k: int| 0 <= k < r@.len() ==> #[trigger] r@[k] < self.graph.nodes@.len(),
    {
        let ghost g = self.graph@;
        let mut out: Vec<usize> = Vec::new();
        let mut k: usize = 0;
        while k < self.graph.nodes.len()
            invariant
                g == self.graph@,
                k <= self.graph.nodes@.len(),
                out@ == nodes_named(g, spec@, k as int),
                forall|j: int| 0 <= j < out@.len() ==> #[trigger] out@[j] < self.graph.nodes@.len(),
            decreases self.graph.nodes@.len() - k,
        {
            assert(g[k as int] == self.graph.nodes@[k as int]@);
            let id = &self.graph.nodes[k].id;
            if names_pkg(spec, id.name.as_str(), &id.version) {
                out.push(k);
            }
            k += 1;
        }
        assert(g.len() == self.graph.nodes@.len());
        out
    }

    fn pick(&self, spec: &str) -> (r: Result<usize, PickError>)
        ensures
            match picked(self.graph@, spec@) {
                Ok(n) => r matches Ok(x) && x == n,
                Err(e) => r matches Err(x) && x@ == e,
            },
    {
        let ghost g = self.graph@;
        let found = self.named_nodes(spec);
        if found.len() == 0 {
            return Err(PickError::NoMatch(spec.to_owned()));
        }
        if found.len() == 1 {
            return Ok(found[0]);
        }
        let mut members: Vec<usize> = Vec::new();
        let mut shown: Vec<String> = Vec::new();
        let ghost want = Seq::new(found@.len(), |i: int| shown_id(g[found@[i] as int]));
        let mut k: usize = 0;
        while k < found.len()
            invariant
                g == self.graph@,
                k <= found@.len(),
                forall|j: int| 0 <= j < found@.len() ==> #[trigger] found@[j] < self.graph.nodes@.len(),
                members@ == members_among(g, found@, k as int),
                want == Seq::new(found@.len(), |i: int| shown_id(g[found@[i] as int])),
                shown@.len() == k,
                forall|j: int| 0 <= j < k ==> (#[trigger] shown@[j])@ == want[j],
            decreases found@.len() - k,
        {
            let n: usize = found[k];
            assert(found@[k as int] < self.graph.nodes@.len());
            assert(g[n as int] == self.graph.nodes@[n as int]@);
            let node = &self.graph.nodes[n];
            if node.is_member {
                members.push(n);
            }
            shown.push(cat3(node.id.name.as_str(), "@", node.id.version.text().as_str()));
            k += 1;
        }
        if members.len() == 1 {
            return Ok(members[0]);
        }
        assert(views(shown@) =~= want);
        Err(PickError::Ambiguous(spec.to_owned(), shown))
    }

    /// `-p`, or `--workspace` minus `--exclude`, or the package that owns the current manifest, or `default-members`.
    pub fn select(&self, packages: &Vec<String>, workspace: bool, exclude: &Vec<String>) -> (r: Result<Vec<usize>, PickError>)
        requires
            self.wf(),
        ensures
            match selected(*self, views(packages@), workspace, views(exclude@)) {
                Ok(l) => r matches Ok(v) && v@ == l,
                Err(e) => r matches Err(x) && x@ == e,
            },
    {
        if workspace {
            return self.select_workspace(exclude);
        }
        let ghost g = self.graph@;
        let ghost pv = views(packages@);
        assert(pv.len() == packages@.len());
        if packages.len() > 0 {
            let mut out: Vec<usize> = Vec::new();
            let mut k: usize = 0;
            while k < packages.len()
                invariant
                    g == self.graph@,
                    k <= packages@.len(),
                    !workspace,
                    pv == views(packages@),
                    pv.len() > 0,
                    pv.len() == packages@.len(),
                    picked_upto(g, pv, k as int) == Ok::<_, PickFault>(out@),
                decreases packages@.len() - k,
            {
                assert(pv[k as int] == packages@[k as int]@);
                match self.pick(packages[k].as_str()) {
                    Ok(n) => {
                        out.push(n);
                    },
                    Err(e) => {
                        proof {
                            lemma_picked_error(g, pv, k + 1, pv.len() as int);
                        }
                        return Err(e);
                    },
                }
                k += 1;
            }
            return Ok(out);
        }
        if !is_same_place(self.current_manifest.as_str(), self.root_manifest_path.as_str()) {
            let ghost c = self.current_manifest@;
            let mut k: usize = 0;
            while k < self.members.len()
                invariant
                    self.wf(),
                    g == self.graph@,
                    c == self.current_manifest@,
                    !same_place(c, self.root_manifest_path@),
                    !workspace,
                    pv.len() == 0,
                    pv == views(packages@),
                    k <= self.members@.len(),
                    owner_from(g, self.members@, c, 0) == owner_from(g, self.members@, c, k as int),
                decreases self.members@.len() - k,
            {
                let n: usize = self.members[k];
                assert(self.members@[k as int] < self.graph.nodes@.len());
                assert(g[n as int] == self.graph.nodes@[n as int]@);
                let own: bool = match &self.graph.nodes[n].id.source {
                    SourceId::Path(p) => is_same_place(join(p.as_str(), "Cargo.toml").as_str(), self.current_manifest.as_str()),
                    _ => false,
                };
                if own {
                    let mut out: Vec<usize> = Vec::new();
                    out.push(n);
                    assert(out@ =~= seq![n]);
                    return Ok(out);
                }
                k += 1;
            }
        }
        let out: Vec<usize> = self.default_members.clone();
        assert(out@ =~= self.default_members@);
        Ok(out)
    }
}

// ---------------------------------------------------------------------------
// Features of a command.

pub struct FeatureRequest<'a> {
    pub features: &'a Vec<String>,
    pub all_features: bool,
    pub no_default_features: bool,
}

/// The pieces of the first `k` that are not empty.
pub open spec fn filled(l: Seq<Seq<char>>, k: int) -> Seq<Seq<char>>
    decreases k,
{
    if k <= 0 || k > l.len() {
        Seq::empty()
    } else if l[k - 1].len() > 0 {
        filled(l, k - 1).push(l[k - 1])
    } else {
        filled(l, k - 1)
    }
}

/// The features of one argument, between commas and blanks.
pub open spec fn features_in(arg: Seq<char>) -> Seq<Seq<char>> {
    let l = pieces(swapped(arg, ',', ' '), ' ');
    filled(l, l.len() as int)
}

/// The features of the first `k` arguments.
pub open spec fn requested(args: Seq<Seq<char>>, k: int) -> Seq<Seq<char>>
    decreases k,
{
    if k <= 0 || k > args.len() {
        Seq::empty()
    } else {
        requested(args, k - 1) + features_in(args[k - 1])
    }
}

fn requested_features(args: &Vec<String>) -> (r: Vec<String>)
    ensures
        views(r@) == requested(views(args@), args@.len() as int),
{
    let ghost av = views(args@);
    let mut out: Vec<String> = Vec::new();
    let mut k: usize = 0;
    assert(views(out@) =~= Seq::<Seq<char>>::empty());
    while k < args.len()
        invariant
            k <= args@.len(),
            av == views(args@),
            views(out@) == requested(av, k as int),
        decreases args@.len() - k,
    {
        assert(av[k as int] == args@[k as int]@);
        let l = split(replace_char(args[k].as_str(), ',', ' ').as_str(), ' ');
        let ghost lv = pieces(swapped(av[k as int], ',', ' '), ' ');
        let ghost start = views(out@);
        let mut j: usize = 0;
        assert(start + Seq::<Seq<char>>::empty() =~= start);
        while j < l.len()
            invariant
                j <= l@.len(),
                lv == views(l@),
                views(out@) == start + filled(lv, j as int),
            decreases l@.len() - j,
        {
            assert(lv[j as int] == l@[j as int]@);
            let ghost was = out@;
            if !l[j].as_str().is_empty() {
                out.push(l[j].clone());
                assert(views(out@) =~= views(was).push(lv[j as int]));
                assert((start + filled(lv, j as int)).push(lv[j as int]) =~= start + filled(lv, j as int).push(lv[j as int]));
            }
            j += 1;
        }
        assert(lv.len() == l@.len());
        k += 1;
    }
    out
}

/// A dependency of the node goes by the name.
pub open spec fn dep_called(n: Node, name: Seq<char>) -> bool {
    exists|i: int| 0 <= i < n.decls().len() && (#[trigger] n.decls()[i]).called() == name
}

/// What a requested feature asks of a package: a feature of its own, or one of a dependency.
pub open spec fn share_of(n: Node, f: Seq<char>) -> Option<Seq<char>> {
    match split_first(f, '/') {
        Some((owner, feat)) => if n.id.name@ == owner {
            Some(feat)
        } else if dep_called(n, owner) {
            Some(f)
        } else {
            None
        },
        None => if n.feature_map().contains_key(f) || !n.data() {
            Some(f)
        } else {
            None
        },
    }
}

/// What the first `k` requested features ask of a package.
pub open spec fn shares(n: Node, fs: Seq<Seq<char>>, k: int) -> Seq<Seq<char>>
    decreases k,
{
    if k <= 0 || k > fs.len() {
        Seq::empty()
    } else {
        match share_of(n, fs[k - 1]) {
            Some(s) => shares(n, fs, k - 1).push(s),
            None => shares(n, fs, k - 1),
        }
    }
}

/// A requested feature asks something of one of the packages.
pub open spec fn is_shared(g: Graph, selected: Seq<usize>, f: Seq<char>) -> bool {
    exists|i: int| 0 <= i < selected.len() && share_of(g.nodes@[#[trigger] selected[i] as int], f).is_some()
}

/// The first requested feature from `k` on that asks nothing of any package.
pub open spec fn lost_from(g: Graph, selected: Seq<usize>, fs: Seq<Seq<char>>, k: int) -> Option<Seq<char>>
    decreases fs.len() - k,
{
    if k < 0 || k >= fs.len() {
        None
    } else if !is_shared(g, selected, fs[k]) {
        Some(fs[k])
    } else {
        lost_from(g, selected, fs, k + 1)
    }
}

pub open spec fn all_requested(req: FeatureRequest<'_>) -> Seq<Seq<char>> {
    requested(views(req.features@), req.features@.len() as int)
}

/// The requests of a command: for each selected package, what is asked of it.
pub open spec fn are_requests(g: Graph, selected: Seq<usize>, req: FeatureRequest<'_>, reqs: Seq<Request>) -> bool {
    let fs = all_requested(req);
    reqs.len() == selected.len() && forall|i: int|
        0 <= i < reqs.len() ==> (#[trigger] reqs[i]).node == selected[i] && views(reqs[i].features@) == shares(
            g.nodes@[selected[i] as int],
            fs,
            fs.len() as int,
        ) && reqs[i].all_features == req.all_features && reqs[i].default == !req.no_default_features
}

fn find_share(n: &Node, f: &str) -> (r: Option<String>)
    ensures
        opt_view(r) == share_of(*n, f@),
{
    match split_once(f, '/') {
        Some((owner, feat)) => {
            if same(n.id.name.as_str(), owner) {
                return Some(feat.to_owned());
            }
            let deps = n.deps();
            let mut i: usize = 0;
            while i < deps.len()
                invariant
                    i <= deps@.len(),
                    deps@ == n.decls(),
                    split_first(f@, '/') == Some((owner@, feat@)),
                    n.id.name@ != owner@,
                    forall|j: int| 0 <= j < i ==> (#[trigger] n.decls()[j]).called() != owner@,
                decreases deps@.len() - i,
            {
                if same(deps[i].dep_name(), owner) {
                    assert(n.decls()[i as int].called() == owner@);
                    return Some(f.to_owned());
                }
                i += 1;
            }
            None
        },
        None => if n.feature(f).is_some() || !n.has_data() {
            Some(f.to_owned())
        } else {
            None
        },
    }
}

fn find_shares(n: &Node, fs: &Vec<String>) -> (r: Vec<String>)
    ensures
        views(r@) == shares(*n, views(fs@), fs@.len() as int),
{
    let ghost fv = views(fs@);
    let mut out: Vec<String> = Vec::new();
    let mut k: usize = 0;
    assert(views(out@) =~= Seq::<Seq<char>>::empty());
    while k < fs.len()
        invariant
            k <= fs@.len(),
            fv == views(fs@),
            views(out@) == shares(*n, fv, k as int),
        decreases fs@.len() - k,
    {
        assert(fv[k as int] == fs@[k as int]@);
        let ghost was = out@;
        if let Some(s) = find_share(n, fs[k].as_str()) {
            out.push(s);
            assert(views(out@) =~= views(was).push(s@));
        }
        k += 1;
    }
    out
}

impl Workspace {
    fn is_asked(&self, selected: &Vec<usize>, f: &str) -> (r: bool)
        requires
            forall|k: int| 0 <= k < selected@.len() ==> #[trigger] selected@[k] < self.graph.nodes@.len(),
        ensures
            r == is_shared(self.graph, selected@, f@),
    {
        let mut k: usize = 0;
        while k < selected.len()
            invariant
                k <= selected@.len(),
                forall|j: int| 0 <= j < selected@.len() ==> #[trigger] selected@[j] < self.graph.nodes@.len(),
                forall|j: int| 0 <= j < k ==> share_of(self.graph.nodes@[#[trigger] selected@[j] as int], f@).is_none(),
            decreases selected@.len() - k,
        {
            assert(selected@[k as int] < self.graph.nodes@.len());
            if find_share(&self.graph.nodes[selected[k]], f).is_some() {
                return true;
            }
            k += 1;
        }
        false
    }

    /// What a command asks of each selected package. A feature that no package has is an error.
    pub fn requests(&self, selected: &Vec<usize>, req: &FeatureRequest<'_>) -> (r: Result<Vec<Request>, String>)
        requires
            forall|k: int| 0 <= k < selected@.len() ==> #[trigger] selected@[k] < self.graph.nodes@.len(),
        ensures
            match lost_from(self.graph, selected@, all_requested(*req), 0) {
                Some(f) => r matches Err(x) && x@ == f,
                None => r matches Ok(v) && are_requests(self.graph, selected@, *req, v@),
            },
    {
        let fs = requested_features(req.features);
        let ghost fv = all_requested(*req);
        let mut k: usize = 0;
        while k < fs.len()
            invariant
                k <= fs@.len(),
                fv == views(fs@),
                fv == all_requested(*req),
                forall|j: int| 0 <= j < selected@.len() ==> #[trigger] selected@[j] < self.graph.nodes@.len(),
                lost_from(self.graph, selected@, fv, 0) == lost_from(self.graph, selected@, fv, k as int),
            decreases fs@.len() - k,
        {
            assert(fv[k as int] == fs@[k as int]@);
            if !self.is_asked(selected, fs[k].as_str()) {
                return Err(fs[k].clone());
            }
            k += 1;
        }
        assert(fv.len() == fs@.len());
        let mut out: Vec<Request> = Vec::new();
        let mut i: usize = 0;
        while i < selected.len()
            invariant
                i <= selected@.len(),
                fv == views(fs@),
                fv.len() == fs@.len(),
                forall|j: int| 0 <= j < selected@.len() ==> #[trigger] selected@[j] < self.graph.nodes@.len(),
                out@.len() == i,
                forall|j: int|
                    0 <= j < i ==> (#[trigger] out@[j]).node == selected@[j] && views(out@[j].features@) == shares(
                        self.graph.nodes@[selected@[j] as int],
                        fv,
                        fv.len() as int,
                    ) && out@[j].all_features == req.all_features && out@[j].default == !req.no_default_features,
            decreases selected@.len() - i,
        {
            let n: usize = selected[i];
            assert(selected@[i as int] < self.graph.nodes@.len());
            out.push(
                Request {
                    node: n,
                    features: find_shares(&self.graph.nodes[n], &fs),
                    all_features: req.all_features,
                    default: !req.no_default_features,
                },
            );
            i += 1;
        }
        Ok(out)
    }
}

/// How far the features of a command are.
pub enum FeatureStep {
    /// They are known.
    Done(Resolution),
    /// These packages have to be loaded first.
    Load(Vec<usize>),
    /// The lockfile has to be written anew first.
    Relock,
    /// The lockfile at the path would have to be written anew, and `--locked` prevents that.
    Refused(String),
    /// A dependency is not locked, and its package.
    NotLocked(String, String),
}

/// Why the features of a command cannot be had.
#[derive(Debug)]
pub enum FeatureError {
    /// No selected package has the feature.
    NoPackage(String),
    Unknown(UnknownFeature),
}

/// How a build takes the graph: two sides from the second resolver on, and then for the platforms alone.
pub open spec fn build_opts(o: EngineOpts<'_>, two_sides: bool, platforms: Platforms<'_>, dev_for: Seq<usize>) -> bool {
    o.two_sides == two_sides && (if two_sides {
        o.platforms matches Some(p) && *p == platforms
    } else {
        o.platforms.is_none()
    }) && o.dev_for@ == dev_for && o.needs_package && !o.weak_activates
}

/// The outcome is that of asking the selected packages for what the command asks.
pub open spec fn build_outcome(
    g: Graph,
    selected: Seq<usize>,
    req: FeatureRequest<'_>,
    two_sides: bool,
    platforms: Platforms<'_>,
    dev_for: Seq<usize>,
    out: Outcome,
) -> bool {
    exists|o: EngineOpts<'_>, reqs: Seq<Request>|
        build_opts(o, two_sides, platforms, dev_for) && are_requests(g, selected, req, reqs) && #[trigger] tells(g, o, reqs, out)
}

pub open spec fn build_unknown(
    g: Graph,
    selected: Seq<usize>,
    req: FeatureRequest<'_>,
    two_sides: bool,
    platforms: Platforms<'_>,
    dev_for: Seq<usize>,
    e: UnknownFeature,
) -> bool {
    exists|o: EngineOpts<'_>, reqs: Seq<Request>|
        build_opts(o, two_sides, platforms, dev_for) && are_requests(g, selected, req, reqs) && #[trigger] reports(g, o, reqs, e)
}

/// Every selected package is a local one.
pub open spec fn all_local(selected: Seq<usize>, locals: usize) -> bool {
    forall|k: int| 0 <= k < selected.len() ==> #[trigger] selected[k] < locals
}

/// What an outcome comes to.
pub open spec fn step_of(ws: Workspace, out: Outcome, may_relock: bool, two_sides: bool, step: FeatureStep) -> bool {
    let g = ws.graph;
    if out.missing@.len() > 0 {
        let (n, i) = out.missing@[0];
        if may_relock && ws.locked {
            step matches FeatureStep::Refused(p) && p@ == lock_path(ws.root@)
        } else if may_relock {
            step is Relock
        } else {
            step matches FeatureStep::NotLocked(d, p) && d@ == g.nodes@[n as int].decls()[i as int].name@ && p@
                == g.nodes@[n as int].id.name@
        }
    } else if out.unloaded@.len() > 0 {
        step matches FeatureStep::Load(l) && l@ == out.unloaded@
    } else {
        step matches FeatureStep::Done(res) && res.map == out.info && res.two_sides == two_sides
    }
}

pub open spec fn has_two_sides(v: ResolverVersion) -> bool {
    v != ResolverVersion::V1
}

/// The step is that of some outcome of the command.
pub open spec fn is_step(
    ws: Workspace,
    selected: Seq<usize>,
    req: FeatureRequest<'_>,
    platforms: Platforms<'_>,
    dev_for: Seq<usize>,
    relocked: bool,
    step: FeatureStep,
) -> bool {
    let two_sides = has_two_sides(ws.resolver);
    exists|out: Outcome| #[trigger]
        build_outcome(ws.graph, selected, req, two_sides, platforms, dev_for, out) && step_of(
            ws,
            out,
            !relocked && all_local(selected, ws.locals),
            two_sides,
            step,
        )
}

impl Workspace {
    /// Features for `selected` on `platforms`, or what has to be done before they are known. `relocked` is
    /// whether the lockfile was written anew for them already.
    pub fn resolve_features(
        &self,
        selected: &Vec<usize>,
        req: &FeatureRequest<'_>,
        platforms: &Platforms<'_>,
        dev_for: &Vec<usize>,
        relocked: bool,
    ) -> (r: Result<FeatureStep, FeatureError>)
        requires
            self.graph.wf(),
            forall|k: int| 0 <= k < selected@.len() ==> #[trigger] selected@[k] < self.graph.nodes@.len(),
        ensures
            match lost_from(self.graph, selected@, all_requested(*req), 0) {
                Some(f) => r matches Err(FeatureError::NoPackage(x)) && x@ == f,
                None => match r {
                    Err(FeatureError::Unknown(e)) => build_unknown(
                        self.graph,
                        selected@,
                        *req,
                        has_two_sides(self.resolver),
                        *platforms,
                        dev_for@,
                        e,
                    ),
                    Err(FeatureError::NoPackage(_)) => false,
                    Ok(step) => is_step(*self, selected@, *req, *platforms, dev_for@, relocked, step),
                },
            },
    {
        let two_sides: bool = match self.resolver {
            ResolverVersion::V1 => false,
            _ => true,
        };
        assert(two_sides == has_two_sides(self.resolver));
        let reqs = match self.requests(selected, req) {
            Ok(l) => l,
            Err(f) => {
                return Err(FeatureError::NoPackage(f));
            },
        };
        let opts = EngineOpts {
            two_sides,
            platforms: if two_sides {
                Some(platforms)
            } else {
                None
            },
            dev_for,
            needs_package: true,
            weak_activates: false,
        };
        let ghost g = self.graph;
        assert(build_opts(opts, two_sides, *platforms, dev_for@));
        assert forall|k: int| 0 <= k < reqs@.len() implies (#[trigger] reqs@[k]).node < g.nodes@.len() by {
            assert(reqs@[k].node == selected@[k]);
        }
        let out = match features::resolve(&self.graph, &reqs, &opts) {
            Ok(o) => o,
            Err(e) => {
                proof {
                    assert(reports(g, opts, reqs@, e));
                    assert(build_unknown(g, selected@, *req, two_sides, *platforms, dev_for@, e));
                }
                return Err(FeatureError::Unknown(e));
            },
        };
        proof {
            assert(tells(g, opts, reqs@, out));
            assert(build_outcome(g, selected@, *req, two_sides, *platforms, dev_for@, out));
            features::lemma_outcome_within(g, opts, reqs@, out);
        }
        if out.missing.len() > 0 {
            let (n, i) = out.missing[0];
            assert(out.missing@[0].0 < g.nodes@.len());
            let mut local: bool = true;
            let mut k: usize = 0;
            while k < selected.len()
                invariant
                    k <= selected@.len(),
                    local == (forall|j: int| 0 <= j < k ==> #[trigger] selected@[j] < self.locals),
                decreases selected@.len() - k,
            {
                if selected[k] >= self.locals {
                    local = false;
                }
                k += 1;
            }
            assert(local == all_local(selected@, self.locals));
            let step = if !relocked && local {
                match self.relock(true) {
                    Ok(_) => FeatureStep::Relock,
                    Err(p) => FeatureStep::Refused(p),
                }
            } else {
                FeatureStep::NotLocked(
                    self.graph.nodes[n].deps()[i].name.clone(),
                    self.graph.nodes[n].id.name.clone(),
                )
            };
            assert(build_outcome(self.graph, selected@, *req, has_two_sides(self.resolver), *platforms, dev_for@, out));
            assert(step_of(
                *self,
                out,
                !relocked && all_local(selected@, self.locals),
                has_two_sides(self.resolver),
                step,
            ));
            return Ok(step);
        }
        let ghost kept = out;
        let Outcome { info, unloaded, .. } = out;
        let step = if unloaded.len() > 0 {
            FeatureStep::Load(unloaded)
        } else {
            FeatureStep::Done(Resolution { map: info, two_sides })
        };
        assert(build_outcome(self.graph, selected@, *req, has_two_sides(self.resolver), *platforms, dev_for@, kept));
        assert(step_of(
            *self,
            kept,
            !relocked && all_local(selected@, self.locals),
            has_two_sides(self.resolver),
            step,
        ));
        Ok(step)
    }
}

// ---------------------------------------------------------------------------
// Updating the lockfile.

/// A locked package that the spec names.
pub open spec fn lock_has(pkgs: Seq<LockPkgView>, spec: Seq<char>) -> bool {
    exists|i: int| 0 <= i < pkgs.len() && spec_names_pkg(spec, (#[trigger] pkgs[i]).name, pkgs[i].version)
}

/// The first spec from `k` on that names no locked package.
pub open spec fn unlocked_from(pkgs: Seq<LockPkgView>, specs: Seq<Seq<char>>, k: int) -> Option<Seq<char>>
    decreases specs.len() - k,
{
    if k < 0 || k >= specs.len() {
        None
    } else if !lock_has(pkgs, specs[k]) {
        Some(specs[k])
    } else {
        unlocked_from(pkgs, specs, k + 1)
    }
}

/// The names in the first `k` specs.
pub open spec fn names_upto(specs: Seq<Seq<char>>, k: int) -> Set<Seq<char>>
    decreases k,
{
    if k <= 0 || k > specs.len() {
        Set::empty()
    } else {
        names_upto(specs, k - 1).insert(split_spec(specs[k - 1]).0)
    }
}

/// A package is one of these, or one of them leads to it over locked dependencies.
pub open spec fn leads_to(pkgs: Seq<LockPkgView>, roots: Set<Seq<char>>, name: Seq<char>) -> bool {
    forall|c: Set<Seq<char>>| roots.subset_of(c) && keeps_deps(pkgs, c) ==> #[trigger] c.contains(name)
}

/// The set holds the dependencies of each package that it holds.
pub open spec fn keeps_deps(pkgs: Seq<LockPkgView>, c: Set<Seq<char>>) -> bool {
    forall|i: int, j: int|
        #![trigger pkgs[i].dependencies[j]]
        0 <= i < pkgs.len() && 0 <= j < pkgs[i].dependencies.len() && c.contains(pkgs[i].name) ==> c.contains(
            pkgs[i].dependencies[j].name,
        )
}

fn locked_list<'a>(lock: Option<&'a Lockfile>) -> (r: Option<&'a Vec<LockPkg>>)
    ensures
        locked_packages(lock) == (match r {
            Some(l) => views(l@),
            None => Seq::empty(),
        }),
{
    match lock {
        Some(l) => Some(&l.packages),
        None => None,
    }
}

fn is_locked(lock: Option<&Lockfile>, spec: &str) -> (r: bool)
    ensures
        r == lock_has(locked_packages(lock), spec@),
{
    match locked_list(lock) {
        None => false,
        Some(l) => {
            let ghost pv = views(l@);
            let mut k: usize = 0;
            while k < l.len()
                invariant
                    k <= l@.len(),
                    pv == views(l@),
                    pv == locked_packages(lock),
                    forall|j: int| 0 <= j < k ==> !spec_names_pkg(spec@, (#[trigger] pv[j]).name, pv[j].version),
                decreases l@.len() - k,
            {
                assert(pv[k as int] == l@[k as int]@);
                if names_pkg(spec, l[k].name.as_str(), &l[k].version) {
                    return true;
                }
                k += 1;
            }
            false
        },
    }
}

fn spec_names(specs: &Vec<String>, lock: Option<&Lockfile>) -> (r: Result<StrSet, String>)
    ensures
        match unlocked_from(locked_packages(lock), views(specs@), 0) {
            Some(s) => r matches Err(x) && x@ == s,
            None => r matches Ok(n) && n@ == names_upto(views(specs@), specs@.len() as int),
        },
{
    let ghost sv = views(specs@);
    let ghost pkgs = locked_packages(lock);
    let mut out = StrSet::new();
    let mut k: usize = 0;
    while k < specs.len()
        invariant
            k <= specs@.len(),
            sv == views(specs@),
            pkgs == locked_packages(lock),
            unlocked_from(pkgs, sv, 0) == unlocked_from(pkgs, sv, k as int),
            out@ == names_upto(sv, k as int),
        decreases specs@.len() - k,
    {
        assert(sv[k as int] == specs@[k as int]@);
        if !is_locked(lock, specs[k].as_str()) {
            return Err(specs[k].clone());
        }
        let (name, _): (&str, Option<&str>) = split_at_mark(specs[k].as_str());
        out.insert(name);
        k += 1;
    }
    assert(sv.len() == specs@.len());
    Ok(out)
}

/// One pass over the packages: adds the dependencies of those that are in the set; whether it grew.
fn grow(names: &mut StrSet, l: &Vec<LockPkg>, roots: Ghost<Set<Seq<char>>>) -> (r: bool)
    requires
        forall|x: Seq<char>| #[trigger] old(names)@.contains(x) ==> leads_to(views(l@), roots@, x),
    ensures
        old(names)@.subset_of(final(names)@),
        forall|x: Seq<char>| #[trigger] final(names)@.contains(x) ==> leads_to(views(l@), roots@, x),
        !r ==> final(names)@ == old(names)@ && keeps_deps(views(l@), final(names)@),
        r ==> exists|i: int, j: int|
            #![trigger views(l@)[i].dependencies[j]]
            0 <= i < l@.len() && 0 <= j < views(l@)[i].dependencies.len() && final(names)@.contains(
                views(l@)[i].dependencies[j].name,
            ) && !old(names)@.contains(views(l@)[i].dependencies[j].name),
{
    let ghost pv = views(l@);
    let ghost was = names@;
    let mut grew: bool = false;
    let mut i: usize = 0;
    while i < l.len()
        invariant
            i <= l@.len(),
            pv == views(l@),
            was == old(names)@,
            was.subset_of(names@),
            forall|x: Seq<char>| #[trigger] names@.contains(x) ==> leads_to(pv, roots@, x),
            !grew ==> names@ == was,
            !grew ==> forall|a: int, b: int|
                #![trigger pv[a].dependencies[b]]
                0 <= a < i && 0 <= b < pv[a].dependencies.len() && names@.contains(pv[a].name) ==> names@.contains(
                    pv[a].dependencies[b].name,
                ),
            grew ==> exists|a: int, b: int|
                #![trigger pv[a].dependencies[b]]
                0 <= a < l@.len() && 0 <= b < pv[a].dependencies.len() && names@.contains(pv[a].dependencies[b].name)
                    && !was.contains(pv[a].dependencies[b].name),
        decreases l@.len() - i,
    {
        let p = &l[i];
        assert(pv[i as int] == p@);
        if names.contains(p.name.as_str()) {
            let ghost deps = pv[i as int].dependencies;
            assert(deps.len() == p.dependencies@.len());
            let mut j: usize = 0;
            while j < p.dependencies.len()
                invariant
                    i < l@.len(),
                    j <= p.dependencies@.len(),
                    pv == views(l@),
                    *p == l@[i as int],
                    pv[i as int] == p@,
                    deps == pv[i as int].dependencies,
                    deps == views(p.dependencies@),
                    was == old(names)@,
                    was.subset_of(names@),
                    names@.contains(pv[i as int].name),
                    forall|x: Seq<char>| #[trigger] names@.contains(x) ==> leads_to(pv, roots@, x),
                    !grew ==> names@ == was,
                    !grew ==> forall|a: int, b: int|
                        #![trigger pv[a].dependencies[b]]
                        0 <= a < i && 0 <= b < pv[a].dependencies.len() && names@.contains(pv[a].name) ==> names@.contains(
                            pv[a].dependencies[b].name,
                        ),
                    !grew ==> forall|b: int| 0 <= b < j ==> names@.contains((#[trigger] deps[b]).name),
                    grew ==> exists|a: int, b: int|
                        #![trigger pv[a].dependencies[b]]
                        0 <= a < l@.len() && 0 <= b < pv[a].dependencies.len() && names@.contains(pv[a].dependencies[b].name)
                            && !was.contains(pv[a].dependencies[b].name),
                decreases p.dependencies@.len() - j,
            {
                assert(deps[j as int] == p.dependencies@[j as int]@);
                let d = p.dependencies[j].name.as_str();
                let ghost now = names@;
                assert(d@ == pv[i as int].dependencies[j as int].name);
                assert(leads_to(pv, roots@, d@)) by {
                    assert(leads_to(pv, roots@, pv[i as int].name));
                    assert forall|c: Set<Seq<char>>| roots@.subset_of(c) && keeps_deps(pv, c) implies #[trigger] c.contains(d@) by {
                        assert(c.contains(pv[i as int].name));
                        assert(c.contains(pv[i as int].dependencies[j as int].name));
                    }
                }
                let fresh = names.insert(d);
                if fresh {
                    grew = true;
                    assert(names@.contains(pv[i as int].dependencies[j as int].name));
                    assert(!was.contains(pv[i as int].dependencies[j as int].name));
                } else {
                    assert(names@ =~= now);
                }
                j += 1;
            }
        }
        i += 1;
    }
    assert(pv.len() == l@.len());
    grew
}

/// The names of locked dependencies, one after the other.
spec fn dep_names_upto(pkgs: Seq<LockPkgView>, k: int) -> Set<Seq<char>> {
    Set::new(
        |x: Seq<char>|
            exists|i: int, j: int|
                #![trigger pkgs[i].dependencies[j]]
                0 <= i < k && 0 <= j < pkgs[i].dependencies.len() && pkgs[i].dependencies[j].name == x,
    )
}

proof fn lemma_dep_names_finite(pkgs: Seq<LockPkgView>, k: int)
    requires
        0 <= k <= pkgs.len(),
    ensures
        dep_names_upto(pkgs, k).finite(),
    decreases k,
{
    let s = dep_names_upto(pkgs, k);
    if k == 0 {
        assert(s =~= Set::empty());
    } else {
        lemma_dep_names_finite(pkgs, k - 1);
        let t = dep_names_upto(pkgs, k - 1);
        let deps = pkgs[k - 1].dependencies;
        let last = deps.map_values(|d: crate::lockfile::LockDepView| d.name).to_set();
        assert forall|x: Seq<char>| s.contains(x) implies t.union(last).contains(x) by {
            let (i, j) = choose|i: int, j: int|
                #![trigger pkgs[i].dependencies[j]]
                0 <= i < k && 0 <= j < pkgs[i].dependencies.len() && pkgs[i].dependencies[j].name == x;
            if i == k - 1 {
                assert(deps.map_values(|d: crate::lockfile::LockDepView| d.name)[j] == x);
            } else {
                assert(pkgs[i].dependencies[j].name == x);
            }
        }
        vstd::set_lib::lemma_len_subset(s, t.union(last));
    }
}

/// The packages by these names, and whatever they lead to over locked dependencies.
fn transitive_names(roots: StrSet, lock: Option<&Lockfile>) -> (r: StrSet)
    ensures
        forall|x: Seq<char>| #[trigger] r@.contains(x) == leads_to(locked_packages(lock), roots@, x),
{
    let ghost start = roots@;
    let ghost pkgs = locked_packages(lock);
    let mut names = roots;
    assert forall|x: Seq<char>| #[trigger] start.contains(x) implies leads_to(pkgs, start, x) by {}
    match locked_list(lock) {
        None => {
            assert(keeps_deps(pkgs, start));
        },
        Some(l) => {
            let ghost pv = views(l@);
            let ghost mut left: Set<Seq<char>> = dep_names_upto(pv, pv.len() as int).difference(names@);
            proof {
                lemma_dep_names_finite(pv, pv.len() as int);
            }
            let mut more: bool = true;
            while more
                invariant
                    pv == views(l@),
                    pv == pkgs,
                    start.subset_of(names@),
                    forall|x: Seq<char>| #[trigger] names@.contains(x) ==> leads_to(pv, start, x),
                    !more ==> keeps_deps(pv, names@),
                    dep_names_upto(pv, pv.len() as int).finite(),
                    left == dep_names_upto(pv, pv.len() as int).difference(names@),
                decreases left.len(), if more { 1int } else { 0int },
            {
                let ghost was = names@;
                more = grow(&mut names, l, Ghost(start));
                proof {
                    let all = dep_names_upto(pv, pv.len() as int);
                    let now = all.difference(names@);
                    if more {
                        let (i, j) = choose|i: int, j: int|
                            #![trigger pv[i].dependencies[j]]
                            0 <= i < l@.len() && 0 <= j < pv[i].dependencies.len() && names@.contains(
                                pv[i].dependencies[j].name,
                            ) && !was.contains(pv[i].dependencies[j].name);
                        let x = pv[i].dependencies[j].name;
                        assert(all.contains(x)) by {
                            assert(pv[i].dependencies[j].name == x);
                        }
                        assert(left.contains(x) && !now.contains(x));
                        assert(now.subset_of(left.remove(x)));
                        assert(left.finite());
                        vstd::set_lib::lemma_len_subset(now, left.remove(x));
                    } else {
                        assert(now =~= left);
                    }
                    left = now;
                }
            }
        },
    }
    assert forall|x: Seq<char>| #[trigger] names@.contains(x) == leads_to(pkgs, start, x) by {
        if leads_to(pkgs, start, x) {
            assert(start.subset_of(names@) && keeps_deps(pkgs, names@));
            assert(names@.contains(x));
        }
    }
    names
}

/// Why a lockfile is not updated.
#[derive(Debug)]
pub enum UpdateError {
    /// `--precise` is about one package.
    Precise,
    /// A spec names no locked package.
    NoMatch(String),
    /// The package did not get what was asked for.
    NotReached(String, String),
    /// The lockfile at the path would have to be written, and `--locked` prevents that.
    NeedsUpdate(String),
}

pub enum UpdateFault {
    Precise,
    NoMatch(Seq<char>),
    NotReached(Seq<char>, Seq<char>),
    NeedsUpdate(Seq<char>),
}

impl View for UpdateError {
    type V = UpdateFault;

    open spec fn view(&self) -> UpdateFault {
        match self {
            UpdateError::Precise => UpdateFault::Precise,
            UpdateError::NoMatch(s) => UpdateFault::NoMatch(s@),
            UpdateError::NotReached(a, b) => UpdateFault::NotReached(a@, b@),
            UpdateError::NeedsUpdate(p) => UpdateFault::NeedsUpdate(p@),
        }
    }
}

/// The set is what an update is about: the names in the specs, with `recursive` whatever they lead to.
pub open spec fn are_updated(pkgs: Seq<LockPkgView>, specs: Seq<Seq<char>>, recursive: bool, names: Set<Seq<char>>) -> bool {
    let roots = names_upto(specs, specs.len() as int);
    if recursive {
        forall|x: Seq<char>| #[trigger] names.contains(x) == leads_to(pkgs, roots, x)
    } else {
        names == roots
    }
}

/// What is preferred once one of the packages is pinned to a version, or to a commit.
pub open spec fn precisely(f: PrefsView, name: Seq<char>, precise: Seq<char>, pkgs: Seq<LockPkgView>) -> PrefsView {
    match version_of(precise) {
        Some(v) => pinned(f, name, v),
        None => PrefsView { git: commits_pinned(f.git, name, precise, pkgs, pkgs.len() as int), ..f },
    }
}

/// What an update still prefers of the lockfile.
pub open spec fn updated_prefs(
    pkgs: Seq<LockPkgView>,
    specs: Seq<Seq<char>>,
    precise: Option<Seq<char>>,
    recursive: bool,
    f: PrefsView,
) -> bool {
    if specs.len() == 0 {
        f == no_prefs()
    } else {
        exists|names: Set<Seq<char>>| #[trigger]
            are_updated(pkgs, specs, recursive, names) && match precise {
                Some(p) => f == precisely(prefs_of(pkgs), listed(names)[0], p, pkgs),
                None => f == forgetting(prefs_of(pkgs), names, pkgs),
            }
    }
}

/// What an update still prefers of the lockfile. No specs: nothing, so that every crate goes up to what its
/// requirement allows. Specs: all but those, and with `recursive` whatever they lock too.
pub fn update_prefs(specs: &Vec<String>, precise: Option<&str>, recursive: bool, old: Option<&Lockfile>) -> (r: Result<
    Prefs,
    UpdateError,
>)
    ensures
        ({
            let sv = views(specs@);
            let pkgs = locked_packages(old);
            if precise.is_some() && specs@.len() != 1 {
                r matches Err(x) && x@ == UpdateFault::Precise
            } else {
                match unlocked_from(pkgs, sv, 0) {
                    Some(s) => r matches Err(x) && x@ == UpdateFault::NoMatch(s),
                    None => r matches Ok(f) && updated_prefs(pkgs, sv, crate::invocation::opt_text(precise), recursive, f@),
                }
            }
        }),
{
    let ghost sv = views(specs@);
    let ghost pkgs = locked_packages(old);
    assert(sv.len() == specs@.len());
    if precise.is_some() && specs.len() != 1 {
        return Err(UpdateError::Precise);
    }
    let mut prefs = Prefs::from_lock(old);
    if specs.len() == 0 {
        prefs.forget_all();
        return Ok(prefs);
    }
    let names = match spec_names(specs, old) {
        Ok(n) => n,
        Err(s) => {
            return Err(UpdateError::NoMatch(s));
        },
    };
    let names = if recursive {
        transitive_names(names, old)
    } else {
        names
    };
    assert(are_updated(pkgs, sv, recursive, names@));
    match precise {
        Some(p) => {
            let l = names.items();
            assert(views(l@).len() == l@.len());
            proof {
                let roots = names_upto(sv, sv.len() as int);
                let first = split_spec(sv[0]).0;
                assert(roots == names_upto(sv, 0).insert(first));
                assert(roots.contains(first));
                assert(names@.contains(first)) by {
                    if recursive {
                        assert(leads_to(pkgs, roots, first));
                    }
                }
                assert(views(l@).to_set().contains(first));
            }
            assert(listed(names@)[0] == l@[0]@);
            let name = l[0].as_str();
            match Version::parse(p) {
                Some(v) => {
                    prefs.pin_version(name, v);
                },
                None => {
                    prefs.pin_git(name, p, old);
                },
            }
        },
        None => {
            prefs.forget(&names, old);
        },
    }
    Ok(prefs)
}

/// The package got what was asked for: the version, or a commit.
pub open spec fn reached(pkgs: Seq<LockPkgView>, name: Seq<char>, precise: Seq<char>) -> bool {
    exists|i: int|
        0 <= i < pkgs.len() && (#[trigger] pkgs[i]).name == name && (version_of(precise) == Some(pkgs[i].version) || (
        pkgs[i].source matches Some(s) && (ends(s, precise) || holds(s, "#"@ + precise))))
}

/// Whether an update to `precise` came to pass for the package that the spec names.
pub fn is_reached(new: &Lockfile, spec: &str, precise: &str) -> (r: bool)
    ensures
        r == reached(new@.packages, split_spec(spec@).0, precise@),
{
    let ghost pv = new@.packages;
    let (name, _): (&str, Option<&str>) = split_at_mark(spec);
    let version = Version::parse(precise);
    let mark = cat("#", precise);
    let mut k: usize = 0;
    while k < new.packages.len()
        invariant
            k <= new.packages@.len(),
            pv == views(new.packages@),
            pv == new@.packages,
            name@ == split_spec(spec@).0,
            opt_view(version) == version_of(precise@),
            mark@ == "#"@ + precise@,
            forall|j: int|
                0 <= j < k ==> !((#[trigger] pv[j]).name == name@ && (version_of(precise@) == Some(pv[j].version) || (
                pv[j].source matches Some(s) && (ends(s, precise@) || holds(s, "#"@ + precise@))))),
        decreases new.packages@.len() - k,
    {
        let p = &new.packages[k];
        assert(pv[k as int] == p@);
        if same(p.name.as_str(), name) {
            let by_version: bool = match &version {
                Some(v) => p.version.same_as(v),
                None => false,
            };
            let by_commit: bool = match &p.source {
                Some(s) => ends_with(s.as_str(), precise) || contains(s.as_str(), mark.as_str()),
                None => false,
            };
            if by_version || by_commit {
                return true;
            }
        }
        k += 1;
    }
    false
}

/// The text of the new lockfile is another one than that of the old.
pub open spec fn text_changes(old: Option<Seq<char>>, new: Seq<char>) -> bool {
    old != Some(new)
}

/// What comes of an update: whether the new lockfile is written, or why it cannot be.
pub open spec fn update_outcome(
    ws: Workspace,
    specs: Seq<Seq<char>>,
    precise: Option<Seq<char>>,
    new: Seq<LockPkgView>,
    changed: bool,
    dry_run: bool,
) -> Result<bool, UpdateFault> {
    if precise.is_some() && specs.len() == 1 && !reached(new, split_spec(specs[0]).0, precise.unwrap()) {
        Err(UpdateFault::NotReached(split_spec(specs[0]).0, precise.unwrap()))
    } else if ws.locked && changed {
        Err(UpdateFault::NeedsUpdate(lock_path(ws.root@)))
    } else {
        Ok(!dry_run)
    }
}

impl Workspace {
    /// Whether an update may stand: under `--locked` only where it changes nothing.
    pub fn may_update(&self, changed: bool) -> (r: bool)
        ensures
            r == !(self.locked && changed),
    {
        !(self.locked && changed)
    }

    /// Whether the lockfile that an update came to is written. `was` and `text` are the old one, where there is one, and
    /// the new one as text.
    pub fn update(
        &self,
        specs: &Vec<String>,
        precise: Option<&str>,
        new: &Lockfile,
        was: Option<&str>,
        text: &str,
        dry_run: bool,
    ) -> (r: Result<bool, UpdateError>)
        ensures
            match update_outcome(
                *self,
                views(specs@),
                crate::invocation::opt_text(precise),
                new@.packages,
                text_changes(crate::invocation::opt_text(was), text@),
                dry_run,
            ) {
                Ok(b) => r == Ok::<bool, UpdateError>(b),
                Err(e) => r matches Err(x) && x@ == e,
            },
    {
        assert(views(specs@).len() == specs@.len());
        if let Some(p) = precise {
            if specs.len() == 1 {
                assert(views(specs@)[0] == specs@[0]@);
                if !is_reached(new, specs[0].as_str(), p) {
                    let (name, _): (&str, Option<&str>) = split_at_mark(specs[0].as_str());
                    return Err(UpdateError::NotReached(name.to_owned(), p.to_owned()));
                }
            }
        }
        let changed: bool = match was {
            Some(t) => !same(t, text),
            None => true,
        };
        if !self.may_update(changed) {
            return Err(UpdateError::NeedsUpdate(join(self.root.as_str(), "Cargo.lock")));
        }
        Ok(!dry_run)
    }
}

/// Whether a lockfile is written: where its text is another one than that on disk.
pub fn commits_lock(disk: Option<&str>, text: &str) -> (r: bool)
    ensures
        r == text_changes(crate::invocation::opt_text(disk), text@),
{
    match disk {
        Some(t) => !same(t, text),
        None => true,
    }
}

/// How many packages come from elsewhere.
pub open spec fn foreign_upto(pkgs: Seq<LockPkgView>, k: int) -> nat
    decreases k,
{
    if k <= 0 || k > pkgs.len() {
        0
    } else {
        foreign_upto(pkgs, k - 1) + if pkgs[k - 1].source.is_some() {
            1nat
        } else {
            0
        }
    }
}

/// What is said of a new lockfile.
pub open spec fn locking_text(n: nat) -> Option<Seq<char>> {
    if n == 0 {
        None
    } else if n == 1 {
        Some("1 package to latest compatible version"@)
    } else {
        Some(dec(n) + " packages to latest compatible versions"@)
    }
}

/// What is said of a new lockfile: how many packages it locks.
pub fn lock_message(new: &Lockfile) -> (r: Option<String>)
    ensures
        opt_view(r) == locking_text(foreign_upto(new@.packages, new@.packages.len() as int)),
{
    let ghost pv = new@.packages;
    let mut n: usize = 0;
    let mut k: usize = 0;
    while k < new.packages.len()
        invariant
            k <= new.packages@.len(),
            pv == views(new.packages@),
            n <= k,
            n == foreign_upto(pv, k as int),
        decreases new.packages@.len() - k,
    {
        assert(pv[k as int] == new.packages@[k as int]@);
        if new.packages[k].source.is_some() {
            n += 1;
        }
        k += 1;
    }
    if n == 0 {
        None
    } else if n == 1 {
        Some("1 package to latest compatible version".to_owned())
    } else {
        Some(cat(usize_text(n).as_str(), " packages to latest compatible versions"))
    }
}

/// The requirement for a version: its major number, or `0.` and the minor one.
pub open spec fn caret_of(v: VersionView) -> Seq<char> {
    if v.major == 0 {
        "0."@ + dec(v.minor as nat)
    } else {
        dec(v.major as nat)
    }
}

/// The caret req cargo would write for the latest crates.io version of a crate, by its entries in the index.
pub fn crates_io_req(entries: &Vec<IndexEntry>) -> (r: Option<String>)
    ensures
        opt_view(r) == (match newest_of(views(entries@), None) {
            Some(k) => Some(caret_of(views(entries@)[k].vers)),
            None => None,
        }),
{
    match crate::registry::newest(entries, None) {
        None => None,
        Some(k) => {
            assert(views(entries@)[k as int] == entries@[k as int]@);
            let v = &entries[k].vers;
            Some(
                if v.major == 0 {
                    cat("0.", u64_text(v.minor).as_str())
                } else {
                    u64_text(v.major)
                },
            )
        },
    }
}

// ---------------------------------------------------------------------------
// What changed in the lockfile.

/// A locked package: its name, its version, and where it comes from.
#[derive(Debug)]
pub struct Change {
    pub name: String,
    pub version: String,
    pub source: Option<String>,
}

pub type ChangeView = (Seq<char>, (Seq<char>, Option<Seq<char>>));

impl View for Change {
    type V = ChangeView;

    open spec fn view(&self) -> ChangeView {
        (self.name@, (self.version@, opt_view(self.source)))
    }
}

/// Nothing comes before something.
pub open spec fn source_leq(a: Option<Seq<char>>, b: Option<Seq<char>>) -> bool {
    match (a, b) {
        (None, _) => true,
        (Some(_), None) => false,
        (Some(x), Some(y)) => text_leq(x, y),
    }
}

impl Ranked for Change {
    /// By name, then by version, then by source.
    open spec fn leq(a: ChangeView, b: ChangeView) -> bool {
        before(a.0, b.0) || (a.0 == b.0 && (before(a.1.0, b.1.0) || (a.1.0 == b.1.0 && source_leq(a.1.1, b.1.1))))
    }

    proof fn lemma_total() {
        let leq = |a: ChangeView, b: ChangeView| Self::leq(a, b);
        assert forall|x: ChangeView, y: ChangeView| #[trigger] leq(x, y) && #[trigger] leq(y, x) implies x == y by {
            lemma_before_irreflexive(x.0);
            lemma_before_irreflexive(x.1.0);
            if before(x.0, y.0) {
                lemma_before_asymmetric(x.0, y.0);
            }
            if before(x.1.0, y.1.0) {
                lemma_before_asymmetric(x.1.0, y.1.0);
            }
            if let (Some(s), Some(t)) = (x.1.1, y.1.1) {
                if before(s, t) {
                    lemma_before_asymmetric(s, t);
                }
            }
        }
        assert forall|x: ChangeView, y: ChangeView, z: ChangeView| #[trigger] leq(x, y) && #[trigger] leq(y, z) implies leq(x, z) by {
            if before(x.0, y.0) && before(y.0, z.0) {
                lemma_before_transitive(x.0, y.0, z.0);
            }
            if before(x.1.0, y.1.0) && before(y.1.0, z.1.0) {
                lemma_before_transitive(x.1.0, y.1.0, z.1.0);
            }
            if let (Some(s), Some(t), Some(u)) = (x.1.1, y.1.1, z.1.1) {
                if before(s, t) && before(t, u) {
                    lemma_before_transitive(s, t, u);
                }
            }
        }
        assert forall|x: ChangeView, y: ChangeView| #[trigger] leq(x, y) || #[trigger] leq(y, x) by {
            lemma_before_total(x.0, y.0);
            lemma_before_total(x.1.0, y.1.0);
            if let (Some(s), Some(t)) = (x.1.1, y.1.1) {
                lemma_before_total(s, t);
            }
        }
    }

    fn not_after(&self, other: &Change) -> (r: bool) {
        proof {
            lemma_before_irreflexive(self.name@);
            lemma_before_irreflexive(self.version@);
        }
        if !same(self.name.as_str(), other.name.as_str()) {
            is_before(self.name.as_str(), other.name.as_str())
        } else if !same(self.version.as_str(), other.version.as_str()) {
            is_before(self.version.as_str(), other.version.as_str())
        } else {
            match (&self.source, &other.source) {
                (None, _) => true,
                (Some(_), None) => false,
                (Some(x), Some(y)) => same(x.as_str(), y.as_str()) || is_before(x.as_str(), y.as_str()),
            }
        }
    }
}

pub open spec fn change_of(p: LockPkgView) -> ChangeView {
    (p.name, (version_text(p.version), p.source))
}

pub open spec fn has_change(pkgs: Seq<LockPkgView>, c: ChangeView) -> bool {
    exists|i: int| 0 <= i < pkgs.len() && change_of(#[trigger] pkgs[i]) == c
}

/// Of the first `k` packages those that the other lockfile does not have, each once.
pub open spec fn only_in(pkgs: Seq<LockPkgView>, other: Seq<LockPkgView>, k: int) -> Seq<ChangeView>
    decreases k,
{
    if k <= 0 || k > pkgs.len() {
        Seq::empty()
    } else {
        let so_far = only_in(pkgs, other, k - 1);
        let c = change_of(pkgs[k - 1]);
        if has_change(other, c) || so_far.contains(c) {
            so_far
        } else {
            so_far.push(c)
        }
    }
}

/// What one lockfile has and the other does not, in order.
pub open spec fn changes(pkgs: Seq<LockPkgView>, other: Seq<LockPkgView>) -> Seq<ChangeView> {
    in_order::<Change>(only_in(pkgs, other, pkgs.len() as int))
}

fn same_change(a: &Change, p: &LockPkg) -> (r: bool)
    ensures
        r == (change_of(p@) == a@),
{
    same(p.name.as_str(), a.name.as_str()) && same(p.version.text().as_str(), a.version.as_str()) && same_opt(
        &p.source,
        &a.source,
    )
}

fn find_changes(l: Option<&Lockfile>, other: Option<&Lockfile>) -> (r: Vec<Change>)
    ensures
        views(r@) == changes(locked_packages(l), locked_packages(other)),
{
    let ghost pv = locked_packages(l);
    let ghost ov = locked_packages(other);
    let mut out: Vec<Change> = Vec::new();
    assert(views(out@) =~= Seq::<ChangeView>::empty());
    if let Some(f) = l {
        let mut k: usize = 0;
        while k < f.packages.len()
            invariant
                k <= f.packages@.len(),
                pv == views(f.packages@),
                ov == locked_packages(other),
                views(out@) == only_in(pv, ov, k as int),
            decreases f.packages@.len() - k,
        {
            let p = &f.packages[k];
            assert(pv[k as int] == p@);
            let c = Change { name: p.name.clone(), version: p.version.text(), source: dup_text(&p.source) };
            let ghost cv = c@;
            let mut known: bool = false;
            if let Some(o) = other {
                let mut j: usize = 0;
                while j < o.packages.len()
                    invariant
                        j <= o.packages@.len(),
                        ov == views(o.packages@),
                        cv == c@,
                        known == exists|i: int| 0 <= i < j && change_of(#[trigger] ov[i]) == cv,
                    decreases o.packages@.len() - j,
                {
                    assert(ov[j as int] == o.packages@[j as int]@);
                    let hit: bool = same_change(&c, &o.packages[j]);
                    assert(hit == (change_of(ov[j as int]) == cv));
                    known = known || hit;
                    j += 1;
                }
            }
            assert(known == has_change(ov, cv));
            let mut twice: bool = false;
            let mut i: usize = 0;
            let ghost so_far = views(out@);
            while i < out.len()
                invariant
                    i <= out@.len(),
                    so_far == views(out@),
                    cv == c@,
                    twice == exists|a: int| 0 <= a < i && #[trigger] so_far[a] == cv,
                decreases out@.len() - i,
            {
                assert(so_far[i as int] == out@[i as int]@);
                let hit: bool = same(out[i].name.as_str(), c.name.as_str()) && same(
                    out[i].version.as_str(),
                    c.version.as_str(),
                ) && same_opt(&out[i].source, &c.source);
                assert(hit == (so_far[i as int] == cv));
                twice = twice || hit;
                i += 1;
            }
            assert(twice == so_far.contains(cv));
            if !known && !twice {
                out.push(c);
                assert(views(out@) =~= so_far.push(cv));
            }
            k += 1;
        }
    }
    sort(out)
}

/// What a lockfile lost, and what it gained, each in order.
pub fn report_lock_changes(old: Option<&Lockfile>, new: &Lockfile) -> (r: (Vec<Change>, Vec<Change>))
    ensures
        views(r.0@) == changes(locked_packages(old), new@.packages),
        views(r.1@) == changes(new@.packages, locked_packages(old)),
{
    let removed = find_changes(old, Some(new));
    let added = find_changes(Some(new), old);
    (removed, added)
}

// ---------------------------------------------------------------------------
// The packages of a build.

/// The model of a package of a build.
pub struct PkgView {
    pub id: Seq<char>,
    pub identity: Seq<char>,
    pub source: SourceView,
    pub is_member: bool,
    pub loaded: bool,
    pub proc_macro: bool,
    pub declared_features: Seq<Seq<char>>,
    pub dep_targets: Seq<Option<int>>,
    /// What its manifest says. Its features and targets stand apart.
    pub package: PackageView,
}

impl View for Pkg {
    type V = PkgView;

    open spec fn view(&self) -> PkgView {
        PkgView {
            id: self.id@,
            identity: self.identity@,
            source: self.source@,
            is_member: self.is_member,
            loaded: self.loaded,
            proc_macro: self.proc_macro,
            declared_features: views(self.declared_features@),
            dep_targets: crate::resolve::places_view(self.dep_targets@),
            package: PackageView {
                name: self.name@,
                version: self.version@,
                edition: self.edition@,
                manifest_path: self.manifest_path@,
                root: self.root@,
                links: opt_view(self.links),
                authors: views(self.authors@),
                about: About {
                    description: opt_view(self.description),
                    homepage: opt_view(self.homepage),
                    repository: opt_view(self.repository),
                    license: opt_view(self.license),
                    license_file: opt_view(self.license_file),
                    rust_version: opt_view(self.rust_version),
                },
                readme: opt_view(self.readme),
                default_run: opt_view(self.default_run),
                deps: views(self.deps@),
                features: Map::empty(),
                targets: views(self.targets@),
                lints: table_opt(self.lints),
            },
        }
    }
}

/// Where a node comes from.
pub open spec fn source_of(n: NodeView) -> SourceView {
    match n.id.source {
        SourceIdView::Path(_) => if n.is_member {
            SourceView::Workspace
        } else {
            SourceView::Path
        },
        SourceIdView::Registry(s) => SourceView::Registry(s),
        SourceIdView::Git { .. } => SourceView::Git(
            match lock_text(n.id.source) {
                Some(t) => t,
                None => Seq::empty(),
            },
        ),
    }
}

/// What stands for a node, whatever is built of it: its spec, with the checksum or the commit.
pub open spec fn identity_of(n: NodeView) -> Seq<char> {
    let id = spec_text(n.id);
    match n.id.source {
        SourceIdView::Path(_) => id,
        SourceIdView::Registry(_) => id + "#"@ + (match n.checksum {
            Some(c) => c,
            None => Seq::empty(),
        }),
        SourceIdView::Git { commit, .. } => id + "#"@ + commit,
    }
}

/// A package whose manifest is not loaded.
pub open spec fn placeholder(id: PkgIdView) -> PackageView {
    PackageView {
        name: id.name,
        version: id.version,
        edition: "2015"@,
        manifest_path: Seq::empty(),
        root: Seq::empty(),
        links: None,
        authors: Seq::empty(),
        about: About {
            description: None,
            homepage: None,
            repository: None,
            license: None,
            license_file: None,
            rust_version: None,
        },
        readme: None,
        default_run: None,
        deps: Seq::empty(),
        features: Map::empty(),
        targets: Seq::empty(),
        lints: None,
    }
}

pub open spec fn any_proc_macro(ts: Seq<TargetView>) -> bool {
    exists|i: int| 0 <= i < ts.len() && (#[trigger] ts[i]).crate_types.contains("proc-macro"@)
}

/// The package of a build for a node of the graph.
pub open spec fn pkg_of(g: Nodes, n: int) -> PkgView {
    let x = g[n];
    match x.package {
        Some(p) => PkgView {
            id: spec_text(x.id),
            identity: identity_of(x),
            source: source_of(x),
            is_member: x.is_member,
            loaded: true,
            proc_macro: any_proc_macro(p.targets),
            declared_features: listed(p.features.dom()),
            dep_targets: Seq::new(p.deps.len(), |i: int| target_at(g, n, p.deps[i])),
            package: PackageView { features: Map::empty(), ..p },
        },
        None => PkgView {
            id: spec_text(x.id),
            identity: identity_of(x),
            source: source_of(x),
            is_member: x.is_member,
            loaded: false,
            proc_macro: false,
            declared_features: Seq::empty(),
            dep_targets: Seq::empty(),
            package: placeholder(x.id),
        },
    }
}

fn is_any_proc_macro(ts: &Vec<Target>) -> (r: bool)
    ensures
        r == any_proc_macro(views(ts@)),
{
    let ghost tv = views(ts@);
    let mut k: usize = 0;
    while k < ts.len()
        invariant
            k <= ts@.len(),
            tv == views(ts@),
            forall|j: int| 0 <= j < k ==> !(#[trigger] tv[j]).crate_types.contains("proc-macro"@),
        decreases ts@.len() - k,
    {
        assert(tv[k as int] == ts@[k as int]@);
        if ts[k].is_proc_macro() {
            return true;
        }
        k += 1;
    }
    false
}

fn resolved_deps(g: &Graph, n: usize, deps: &Vec<DepDecl>) -> (r: Vec<Option<usize>>)
    requires
        g.wf(),
        n < g.nodes@.len(),
    ensures
        crate::resolve::places_view(r@) == Seq::new(views(deps@).len(), |i: int| target_at(g@, n as int, views(deps@)[i])),
{
    let ghost dv = views(deps@);
    let ghost want = Seq::new(dv.len(), |i: int| target_at(g@, n as int, dv[i]));
    let mut out: Vec<Option<usize>> = Vec::new();
    let mut k: usize = 0;
    while k < deps.len()
        invariant
            g.wf(),
            n < g.nodes@.len(),
            k <= deps@.len(),
            dv == views(deps@),
            want == Seq::new(dv.len(), |i: int| target_at(g@, n as int, dv[i])),
            out@.len() == k,
            forall|j: int| 0 <= j < k ==> crate::resolve::place_view(#[trigger] out@[j]) == want[j],
        decreases deps@.len() - k,
    {
        assert(dv[k as int] == deps@[k as int]@);
        proof {
            crate::resolve::lemma_target_at(*g, n as int, deps@[k as int]);
        }
        out.push(g.target_of(n, &deps[k]));
        k += 1;
    }
    assert(crate::resolve::places_view(out@) =~= want);
    out
}

fn find_source(node: &Node) -> (r: (Source, String))
    ensures
        r.0@ == source_of(node@),
        r.1@ == identity_of(node@),
{
    proof {
        reveal_strlit("");
        assert(""@ =~= Seq::<char>::empty());
    }
    let id = node.id.spec();
    match &node.id.source {
        SourceId::Path(_) => if node.is_member {
            (Source::Workspace, id)
        } else {
            (Source::Path, id)
        },
        SourceId::Registry(s) => {
            let sum: &str = match &node.checksum {
                Some(c) => c.as_str(),
                None => "",
            };
            (Source::Registry(s.clone()), cat3(id.as_str(), "#", sum))
        },
        SourceId::Git { commit, .. } => {
            let text = match node.id.source.lock_string() {
                Some(t) => t,
                None => "".to_owned(),
            };
            (Source::Git(text), cat3(id.as_str(), "#", commit.as_str()))
        },
    }
}

fn loaded_pkg(g: &Graph, n: usize, p: &Package) -> (r: Pkg)
    requires
        g.wf(),
        n < g.nodes@.len(),
        g.nodes@[n as int].package == Some(*p),
    ensures
        r@ == pkg_of(g@, n as int),
{
    let node = &g.nodes[n];
    assert(g@[n as int] == node@);
    let (source, identity) = find_source(node);
    let ghost pv = p@;
    let features = p.features.keys();
    proof {
        assert(pv.features.dom() =~= p.features@.dom());
    }
    Pkg {
        id: node.id.spec(),
        identity,
        name: p.name.clone(),
        version: p.version.dup(),
        manifest_path: p.manifest_path.clone(),
        root: p.root.clone(),
        source,
        is_member: node.is_member,
        loaded: true,
        links: dup_text(&p.links),
        edition: p.edition.clone(),
        targets: dup_targets(&p.targets),
        declared_features: dup_list(features),
        proc_macro: is_any_proc_macro(&p.targets),
        authors: dup_list(&p.authors),
        description: dup_text(&p.description),
        homepage: dup_text(&p.homepage),
        repository: dup_text(&p.repository),
        license: dup_text(&p.license),
        license_file: dup_text(&p.license_file),
        rust_version: dup_text(&p.rust_version),
        readme: dup_text(&p.readme),
        default_run: dup_text(&p.default_run),
        dep_targets: resolved_deps(g, n, &p.deps),
        deps: crate::resolve::dup_decls(p.deps.as_slice()),
        lints: dup_lints(&p.lints),
    }
}

fn placeholder_pkg(g: &Graph, n: usize) -> (r: Pkg)
    requires
        n < g.nodes@.len(),
        g.nodes@[n as int].package.is_none(),
    ensures
        r@ == pkg_of(g@, n as int),
{
    proof {
        reveal_strlit("");
        assert(""@ =~= Seq::<char>::empty());
    }
    let node = &g.nodes[n];
    assert(g@[n as int] == node@);
    let (source, identity) = find_source(node);
    let r = Pkg {
        id: node.id.spec(),
        identity,
        name: node.id.name.clone(),
        version: node.id.version.dup(),
        manifest_path: "".to_owned(),
        root: "".to_owned(),
        source,
        is_member: node.is_member,
        loaded: false,
        links: None,
        edition: "2015".to_owned(),
        targets: Vec::new(),
        declared_features: Vec::new(),
        proc_macro: false,
        authors: Vec::new(),
        description: None,
        homepage: None,
        repository: None,
        license: None,
        license_file: None,
        rust_version: None,
        readme: None,
        default_run: None,
        deps: Vec::new(),
        dep_targets: Vec::new(),
        lints: None,
    };
    proof {
        let want = pkg_of(g@, n as int);
        assert(r@.package.authors =~= want.package.authors);
        assert(r@.package.deps =~= want.package.deps);
        assert(r@.package.targets =~= want.package.targets);
        assert(r@.declared_features =~= want.declared_features);
        assert(r@.dep_targets =~= want.dep_targets);
    }
    r
}

impl Workspace {
    /// Makes the packages of the build, one for each node of the graph.
    pub fn finalize(&mut self)
        requires
            old(self).graph.wf(),
        ensures
            views(final(self).pkgs@) == Seq::new(old(self).graph@.len(), |n: int| pkg_of(old(self).graph@, n)),
            *final(self) == (Workspace { pkgs: final(self).pkgs, ..*old(self) }),
    {
        let ghost g = self.graph@;
        let mut pkgs: Vec<Pkg> = Vec::new();
        let mut n: usize = 0;
        while n < self.graph.nodes.len()
            invariant
                *self == *old(self),
                self.graph.wf(),
                g == self.graph@,
                n <= self.graph.nodes@.len(),
                pkgs@.len() == n,
                forall|k: int| 0 <= k < n ==> (#[trigger] pkgs@[k])@ == pkg_of(g, k),
            decreases self.graph.nodes@.len() - n,
        {
            let p = match &self.graph.nodes[n].package {
                Some(p) => loaded_pkg(&self.graph, n, p),
                None => placeholder_pkg(&self.graph, n),
            };
            pkgs.push(p);
            n += 1;
        }
        assert(views(pkgs@) =~= Seq::new(g.len(), |n: int| pkg_of(g, n)));
        self.pkgs = pkgs;
    }

    /// A graph of the local packages alone, without edges, to resolve anew from.
    pub fn local_graph(&self) -> (r: Graph)
        requires
            self.locals <= self.graph.nodes@.len(),
        ensures
            r@ == locals_upto(self.graph@, self.locals as int),
            r.wf(),
            r.distinct(),
    {
        let ghost g = self.graph@;
        let mut out = Graph::new();
        let mut n: usize = 0;
        while n < self.locals
            invariant
                n <= self.locals <= self.graph.nodes@.len(),
                g == self.graph@,
                out.wf(),
                out.distinct(),
                out@ == locals_upto(g, n as int),
            decreases self.locals - n,
        {
            let node = &self.graph.nodes[n];
            assert(g[n as int] == node@);
            let mut fresh = Node::new(node.id.dup());
            fresh.is_member = node.is_member;
            fresh.package = match &node.package {
                Some(p) => Some(p.dup()),
                None => None,
            };
            assert(fresh@ == (NodeView { is_member: node@.is_member, package: node@.package, ..bare(node@.id) }));
            out.add(fresh);
            n += 1;
        }
        out
    }

    pub fn set_locked(&mut self, locked: bool)
        ensures
            *final(self) == (Workspace { locked, ..*old(self) }),
    {
        self.locked = locked;
    }

    /// The nodes whose manifests are not loaded.
    pub fn fetch(&self) -> (r: Vec<usize>)
        ensures
            r@ == unloaded_upto(self.graph@, self.graph@.len() as int),
    {
        let ghost g = self.graph@;
        let mut out: Vec<usize> = Vec::new();
        let mut n: usize = 0;
        while n < self.graph.nodes.len()
            invariant
                n <= self.graph.nodes@.len(),
                g == self.graph@,
                out@ == unloaded_upto(g, n as int),
            decreases self.graph.nodes@.len() - n,
        {
            assert(g[n as int] == self.graph.nodes@[n as int]@);
            if self.graph.nodes[n].package.is_none() {
                out.push(n);
            }
            n += 1;
        }
        assert(g.len() == self.graph.nodes@.len());
        out
    }
}

/// The first `k` nodes without their edges.
pub open spec fn locals_upto(g: Nodes, k: int) -> Nodes
    decreases k,
{
    if k <= 0 || k > g.len() {
        Seq::empty()
    } else {
        with_node(
            locals_upto(g, k - 1),
            NodeView { is_member: g[k - 1].is_member, package: g[k - 1].package, ..bare(g[k - 1].id) },
        ).0
    }
}

/// Of the first `k` nodes those whose manifests are not loaded.
pub open spec fn unloaded_upto(g: Nodes, k: int) -> Seq<usize>
    decreases k,
{
    if k <= 0 || k > g.len() {
        Seq::empty()
    } else if g[k - 1].package.is_none() {
        unloaded_upto(g, k - 1).push((k - 1) as usize)
    } else {
        unloaded_upto(g, k - 1)
    }
}

} // verus!
