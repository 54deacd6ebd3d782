//! The package graph, what a lockfile says of it, and the choice of a package for a dependency.

use vstd::prelude::*;
use crate::features::EngineOpts;
use crate::features::Outcome;
use crate::features::Request;
use crate::features::UnknownFeature;
use crate::features::tells;
use crate::features::reports;
use crate::features::within;
use crate::features;
use crate::keymap::KeyMap;
use crate::keymap::Keyed;
use crate::lockfile::LockDep;
use crate::lockfile::LockDepView;
use crate::lockfile::LockPkg;
use crate::lockfile::LockPkgView;
use crate::lockfile::Lockfile;
use crate::lockfile::locked;
use crate::manifest::CRATES_IO;
use crate::manifest::DepDecl;
use crate::manifest::DepDeclView;
use crate::manifest::DepKind;
use crate::manifest::DepSource;
use crate::manifest::DepSourceView;
use crate::manifest::FeatureMap;
use crate::manifest::GitRef;
use crate::manifest::GitRefView;
use crate::manifest::Package;
use crate::manifest::PackageView;
use crate::manifest::feature_lists;
use crate::manifest::ref_query;
use crate::order::before;
use crate::order::is_before;
use crate::order::lemma_before_irreflexive;
use crate::order::lemma_before_total;
use crate::order::lemma_before_transitive;
use crate::profile::dup_list;
use crate::profile::dup_text;
use crate::registry::IndexEntry;
use crate::registry::IndexEntryView;
use crate::registry::versions_of;
use crate::sets::rising;
use crate::sets;
use crate::strmap::StrMap;
use crate::strmap::StrSet;
use crate::strmap::listed;
use crate::text::after_prefix;
use crate::text::before_suffix;
use crate::text::cat3;
use crate::text::cat4;
use crate::text::lemma_split_first;
use crate::text::lemma_split_none;
use crate::text::lowercase;
use crate::text::opt_view;
use crate::text::rsplit_once;
use crate::text::same;
use crate::text::same_opt;
use crate::text::split_first;
use crate::text::split_last;
use crate::text::split_once;
use crate::text::starts;
use crate::text::starts_with;
use crate::text::strip_prefix;
use crate::text::strip_suffix;
use crate::text::to_lower;
use crate::text::views;
use crate::version::Version;
use crate::version::VersionReq;
use crate::version::VersionView;
use crate::version::is_older;
use crate::version::lemma_newest;
use crate::version::meets;
use crate::version::newest_upto;
use crate::version::none_newer;
use crate::version::older;
use crate::version::req_matches;
use crate::version::version_text;

verus! {

#[derive(Debug)]
pub enum SourceId {
    Path(String),
    Registry(String),
    Git { url: String, reference: GitRef, commit: String },
}

/// The model of where a package comes from.
pub enum SourceIdView {
    Path(Seq<char>),
    Registry(Seq<char>),
    Git { url: Seq<char>, reference: GitRefView, commit: Seq<char> },
}

impl View for SourceId {
    type V = SourceIdView;

    open spec fn view(&self) -> SourceIdView {
        match self {
            SourceId::Path(p) => SourceIdView::Path(p@),
            SourceId::Registry(s) => SourceIdView::Registry(s@),
            SourceId::Git { url, reference, commit } => SourceIdView::Git {
                url: url@,
                reference: reference@,
                commit: commit@,
            },
        }
    }
}

/// Why a `source` in a lockfile is refused.
#[derive(Debug)]
pub enum SourceError {
    /// A git source names no commit.
    NoCommit(String),
    /// Neither a git repository nor a registry.
    Unsupported(String),
}

/// The `source` of a package in a lockfile.
pub open spec fn lock_text(s: SourceIdView) -> Option<Seq<char>> {
    match s {
        SourceIdView::Path(_) => None,
        SourceIdView::Registry(r) => Some(r),
        SourceIdView::Git { url, reference, commit } => Some("git+"@ + url + ref_query(reference) + "#"@ + commit),
    }
}

/// The reference that the query of a git source names.
pub open spec fn query_ref(q: Seq<char>) -> GitRefView {
    let (k, v) = match split_first(q, '=') {
        Some(kv) => kv,
        None => (q, Seq::empty()),
    };
    if k == "branch"@ {
        GitRefView::Branch(v)
    } else if k == "tag"@ {
        GitRefView::Tag(v)
    } else if k == "rev"@ {
        GitRefView::Rev(v)
    } else {
        GitRefView::DefaultBranch
    }
}

/// What the `source` of a package in a lockfile stands for; nothing where it is refused.
pub open spec fn lock_source(s: Seq<char>) -> Option<SourceIdView> {
    match after_prefix(s, "git+"@) {
        Some(rest) => match split_first(rest, '#') {
            Some((url_q, commit)) => Some(
                match split_first(url_q, '?') {
                    Some((url, q)) => SourceIdView::Git { url, reference: query_ref(q), commit },
                    None => SourceIdView::Git { url: url_q, reference: GitRefView::DefaultBranch, commit },
                },
            ),
            None => None,
        },
        None => if starts(s, "registry+"@) || starts(s, "sparse+"@) {
            Some(SourceIdView::Registry(s))
        } else {
            None
        },
    }
}

fn reference_of(q: &str) -> (r: GitRef)
    ensures
        r@ == query_ref(q@),
{
    let (k, v): (&str, &str) = match split_once(q, '=') {
        Some((k, v)) => (k, v),
        None => (q, ""),
    };
    proof {
        reveal_strlit("");
        assert(""@ == Seq::<char>::empty());
    }
    if same(k, "branch") {
        GitRef::Branch(v.to_owned())
    } else if same(k, "tag") {
        GitRef::Tag(v.to_owned())
    } else if same(k, "rev") {
        GitRef::Rev(v.to_owned())
    } else {
        GitRef::DefaultBranch
    }
}

impl SourceId {
    /// `source = "…"` in `Cargo.lock`. Path packages have none.
    pub fn lock_string(&self) -> (r: Option<String>)
        ensures
            opt_view(r) == lock_text(self@),
    {
        match self {
            SourceId::Path(_) => None,
            SourceId::Registry(s) => Some(s.clone()),
            SourceId::Git { url, reference, commit } => {
                let mut s: String = cat3("git+", url.as_str(), reference.query().as_str());
                s.append("#");
                s.append(commit.as_str());
                Some(s)
            },
        }
    }

    /// Reads the `source` of a package in a lockfile.
    pub fn parse_lock(s: &str) -> (r: Result<SourceId, SourceError>)
        ensures
            match r {
                Ok(id) => lock_source(s@) == Some(id@),
                Err(SourceError::NoCommit(t)) => lock_source(s@) == None::<SourceIdView> && starts(
                    s@,
                    "git+"@,
                ) && t@ == s@,
                Err(SourceError::Unsupported(t)) => lock_source(s@) == None::<SourceIdView> && !starts(
                    s@,
                    "git+"@,
                ) && t@ == s@,
            },
    {
        if let Some(rest) = strip_prefix(s, "git+") {
            return match split_once(rest, '#') {
                None => Err(SourceError::NoCommit(s.to_owned())),
                Some((url_q, commit)) => match split_once(url_q, '?') {
                    Some((url, q)) => Ok(
                        SourceId::Git {
                            url: url.to_owned(),
                            reference: reference_of(q),
                            commit: commit.to_owned(),
                        },
                    ),
                    None => Ok(
                        SourceId::Git {
                            url: url_q.to_owned(),
                            reference: GitRef::DefaultBranch,
                            commit: commit.to_owned(),
                        },
                    ),
                },
            };
        }
        if starts_with(s, "registry+") || starts_with(s, "sparse+") {
            return Ok(SourceId::Registry(s.to_owned()));
        }
        Err(SourceError::Unsupported(s.to_owned()))
    }

    pub fn same_as(&self, other: &SourceId) -> (r: bool)
        ensures
            r == (self@ == other@),
    {
        match (self, other) {
            (SourceId::Path(a), SourceId::Path(b)) => same(a.as_str(), b.as_str()),
            (SourceId::Registry(a), SourceId::Registry(b)) => same(a.as_str(), b.as_str()),
            (
                SourceId::Git { url, reference, commit },
                SourceId::Git { url: u, reference: r, commit: c },
            ) => same(url.as_str(), u.as_str()) && reference.same_as(r) && same(commit.as_str(), c.as_str()),
            _ => false,
        }
    }

    pub fn dup(&self) -> (r: SourceId)
        ensures
            r@ == self@,
    {
        match self {
            SourceId::Path(p) => SourceId::Path(p.clone()),
            SourceId::Registry(s) => SourceId::Registry(s.clone()),
            SourceId::Git { url, reference, commit } => SourceId::Git {
                url: url.clone(),
                reference: reference.dup(),
                commit: commit.clone(),
            },
        }
    }
}

/// A source that a lockfile can name: a registry with its scheme, or a repository whose address holds
/// neither `#` nor `?`, and whose reference holds no `#`.
pub open spec fn lockable(s: SourceIdView) -> bool {
    match s {
        SourceIdView::Path(_) => false,
        SourceIdView::Registry(r) => starts(r, "registry+"@) || starts(r, "sparse+"@),
        SourceIdView::Git { url, reference, commit } => !url.contains('#') && !url.contains('?')
            && !ref_name(reference).contains('#'),
    }
}

/// The name that a reference carries.
pub open spec fn ref_name(r: GitRefView) -> Seq<char> {
    match r {
        GitRefView::DefaultBranch => Seq::empty(),
        GitRefView::Branch(b) => b,
        GitRefView::Tag(t) => t,
        GitRefView::Rev(r) => r,
    }
}

/// What a lockfile records of a source reads back as that source.
pub proof fn law_lock_source_round_trip(s: SourceIdView)
    requires
        lockable(s),
    ensures
        lock_text(s).is_some(),
        lock_source(lock_text(s).unwrap()) == Some(s),
{
    reveal_strlit("git+");
    reveal_strlit("registry+");
    reveal_strlit("sparse+");
    reveal_strlit("#");
    match s {
        SourceIdView::Path(_) => {},
        SourceIdView::Registry(r) => {
            assert(r[0] == 'r' || r[0] == 's') by {
                if starts(r, "registry+"@) {
                    assert(r.take(9)[0] == r[0]);
                } else {
                    assert(r.take(7)[0] == r[0]);
                }
            }
            if starts(r, "git+"@) {
                assert(r.take(4)[0] == r[0]);
            }
        },
        SourceIdView::Git { url, reference, commit } => {
            let t = lock_text(s).unwrap();
            let q = ref_query(reference);
            let url_q = url + q;
            let rest = url_q + seq!['#'] + commit;
            assert("#"@ == seq!['#']);
            assert(t == "git+"@ + rest);
            assert(t.take(4) == "git+"@);
            assert(t.skip(4) == rest);
            lemma_ref_query(reference);
            assert(!url_q.contains('#')) by {
                if url_q.contains('#') {
                    let i = choose|i: int| 0 <= i < url_q.len() && url_q[i] == '#';
                    if i < url.len() {
                        assert(url[i] == '#');
                    } else {
                        assert(q[i - url.len()] == '#');
                    }
                }
            }
            lemma_split_first(url_q, '#', commit);
            match reference {
                GitRefView::DefaultBranch => {
                    assert(url_q == url);
                    lemma_split_none(url, '?');
                },
                _ => {
                    assert(url_q == url + seq!['?'] + q.skip(1));
                    lemma_split_first(url, '?', q.skip(1));
                },
            }
        },
    }
}

/// The query of a reference holds no `#` where its name holds none, starts with `?` where it is not
/// empty, and names the reference.
proof fn lemma_ref_query(r: GitRefView)
    requires
        !ref_name(r).contains('#'),
    ensures
        !ref_query(r).contains('#'),
        !(r is DefaultBranch) ==> ref_query(r).len() > 0 && ref_query(r)[0] == '?' && query_ref(
            ref_query(r).skip(1),
        ) == r,
{
    reveal_strlit("?branch=");
    reveal_strlit("?tag=");
    reveal_strlit("?rev=");
    reveal_strlit("branch");
    reveal_strlit("tag");
    reveal_strlit("rev");
    let q = ref_query(r);
    let n = ref_name(r);
    if q.contains('#') {
        let i = choose|i: int| 0 <= i < q.len() && q[i] == '#';
        assert(n[i - (q.len() - n.len())] == '#');
    }
    match r {
        GitRefView::DefaultBranch => {},
        GitRefView::Branch(b) => {
            assert(q.skip(1) == "branch"@ + seq!['='] + b);
            lemma_split_first("branch"@, '=', b);
        },
        GitRefView::Tag(b) => {
            assert(q.skip(1) == "tag"@ + seq!['='] + b);
            lemma_split_first("tag"@, '=', b);
            assert("tag"@.len() == 3 && "branch"@.len() == 6);
        },
        GitRefView::Rev(b) => {
            assert(q.skip(1) == "rev"@ + seq!['='] + b);
            lemma_split_first("rev"@, '=', b);
            assert("rev"@[0] == 'r' && "tag"@[0] == 't' && "branch"@.len() == 6);
        },
    }
}

#[derive(Debug)]
pub struct PkgId {
    pub name: String,
    pub version: Version,
    pub source: SourceId,
}

/// The model of a package id.
pub struct PkgIdView {
    pub name: Seq<char>,
    pub version: VersionView,
    pub source: SourceIdView,
}

impl View for PkgId {
    type V = PkgIdView;

    open spec fn view(&self) -> PkgIdView {
        PkgIdView { name: self.name@, version: self.version@, source: self.source@ }
    }
}

/// The text without the `/`s at its end.
pub open spec fn without_slashes(s: Seq<char>) -> Seq<char>
    decreases s.len(),
{
    if s.len() > 0 && s.last() == '/' {
        without_slashes(s.drop_last())
    } else {
        s
    }
}

/// The url that a package id starts with.
pub open spec fn source_url(s: SourceIdView) -> Seq<char> {
    match s {
        SourceIdView::Registry(r) => r,
        SourceIdView::Path(p) => "path+file://"@ + p,
        SourceIdView::Git { url, reference, .. } => "git+"@ + url + ref_query(reference),
    }
}

/// The last segment of a url, without its query.
pub open spec fn last_segment(url: Seq<char>) -> Seq<char> {
    let base = match split_first(url, '?') {
        Some((b, _)) => b,
        None => url,
    };
    let dir = without_slashes(base);
    match split_last(dir, '/') {
        Some((_, last)) => last,
        None => dir,
    }
}

/// The id of a package, as `cargo pkgid` prints it.
pub open spec fn spec_text(id: PkgIdView) -> Seq<char> {
    let url = source_url(id.source);
    if last_segment(url) == id.name {
        url + "#"@ + version_text(id.version)
    } else {
        url + "#"@ + id.name + "@"@ + version_text(id.version)
    }
}

pub(crate) fn trim_slashes<'a>(s: &'a str) -> (r: &'a str)
    ensures
        r@ == without_slashes(s@),
{
    let n: usize = s.unicode_len();
    let mut i: usize = n;
    assert(s@.take(n as int) == s@);
    while i > 0 && s.get_char(i - 1) == '/'
        invariant
            i <= n,
            n == s@.len(),
            without_slashes(s@) == without_slashes(s@.take(i as int)),
        decreases i,
    {
        assert(s@.take(i as int).drop_last() == s@.take(i - 1));
        i -= 1;
    }
    assert(s@.subrange(0, i as int) == s@.take(i as int));
    s.substring_char(0, i)
}

impl PkgId {
    /// `registry+https://github.com/rust-lang/crates.io-index#serde@1.0.0`, or `path+file:///ws/app#0.1.0`.
    pub fn spec(&self) -> (r: String)
        ensures
            r@ == spec_text(self@),
    {
        let url: String = match &self.source {
            SourceId::Registry(s) => s.clone(),
            SourceId::Path(p) => crate::text::cat("path+file://", p.as_str()),
            SourceId::Git { url, reference, .. } => cat3("git+", url.as_str(), reference.query().as_str()),
        };
        let base: &str = match split_once(url.as_str(), '?') {
            Some((b, _)) => b,
            None => url.as_str(),
        };
        let dir: &str = trim_slashes(base);
        let last: &str = match rsplit_once(dir, '/') {
            Some((_, l)) => l,
            None => dir,
        };
        let version: String = self.version.text();
        if same(last, self.name.as_str()) {
            cat3(url.as_str(), "#", version.as_str())
        } else {
            let mut s: String = cat4(url.as_str(), "#", self.name.as_str(), "@");
            s.append(version.as_str());
            s
        }
    }

    pub fn same_as(&self, other: &PkgId) -> (r: bool)
        ensures
            r == (self@ == other@),
    {
        same(self.name.as_str(), other.name.as_str()) && self.version.same_as(&other.version)
            && self.source.same_as(&other.source)
    }

    pub fn dup(&self) -> (r: PkgId)
        ensures
            r@ == self@,
    {
        PkgId { name: self.name.clone(), version: self.version.dup(), source: self.source.dup() }
    }
}

// ---------------------------------------------------------------------------
// The graph
// ---------------------------------------------------------------------------

/// What an index says of a package: enough to resolve.
#[derive(Debug)]
pub struct Summary {
    pub deps: Vec<DepDecl>,
    pub features: StrMap<Vec<String>>,
}

#[derive(Debug)]
pub struct Node {
    pub id: PkgId,
    pub checksum: Option<String>,
    /// Enough index data to resolve. The full manifest comes later, when we build.
    pub summary: Option<Summary>,
    pub package: Option<Package>,
    pub edges: Vec<usize>,
    pub is_member: bool,
    /// Registry source id this node stands in for, via `[patch]`.
    pub patch_for: Option<String>,
}

impl Node {
    /// The declared dependencies: those of the manifest, or of the index where there is none.
    pub open spec fn decls(self) -> Seq<DepDecl> {
        match (self.package, self.summary) {
            (Some(p), _) => p.deps@,
            (None, Some(s)) => s.deps@,
            _ => Seq::empty(),
        }
    }

    /// The features and what each turns on: those of the manifest, or of the index.
    pub open spec fn feature_map(self) -> Map<Seq<char>, Vec<String>> {
        match (self.package, self.summary) {
            (Some(p), _) => p.features@,
            (None, Some(s)) => s.features@,
            _ => Map::empty(),
        }
    }

    /// The names of the features, in ascending order.
    pub open spec fn feature_names(self) -> Seq<Seq<char>> {
        match (self.package, self.summary) {
            (Some(p), _) => p.features.key_list(),
            (None, Some(s)) => s.features.key_list(),
            _ => Seq::empty(),
        }
    }

    pub open spec fn data(self) -> bool {
        self.package.is_some() || self.summary.is_some()
    }

    pub open spec fn proc_macro(self) -> bool {
        match self.package {
            Some(p) => exists|i: int| 0 <= i < p.targets@.len() && (#[trigger] p.targets@[i]).proc_macro(),
            None => false,
        }
    }

    pub fn new(id: PkgId) -> (r: Node)
        ensures
            r.id == id,
            r.checksum.is_none(),
            r.summary.is_none(),
            r.package.is_none(),
            r.edges@ == Seq::<usize>::empty(),
            !r.is_member,
            r.patch_for.is_none(),
    {
        Node {
            id,
            checksum: None,
            summary: None,
            package: None,
            edges: Vec::new(),
            is_member: false,
            patch_for: None,
        }
    }

    pub fn deps(&self) -> (r: &[DepDecl])
        ensures
            r@ == self.decls(),
    {
        match (&self.package, &self.summary) {
            (Some(p), _) => p.deps.as_slice(),
            (None, Some(s)) => s.deps.as_slice(),
            _ => &[],
        }
    }

    /// The features; `None` where neither the manifest nor the index is known.
    pub fn features(&self) -> (r: Option<&StrMap<Vec<String>>>)
        ensures
            r.is_some() == self.data(),
            r.is_some() ==> r.unwrap()@ == self.feature_map() && r.unwrap().key_list() == self.feature_names(),
            r.is_none() ==> self.feature_map() == Map::<Seq<char>, Vec<String>>::empty(),
    {
        match (&self.package, &self.summary) {
            (Some(p), _) => Some(&p.features),
            (None, Some(s)) => Some(&s.features),
            _ => None,
        }
    }

    /// What the feature turns on.
    pub fn feature(&self, name: &str) -> (r: Option<&Vec<String>>)
        ensures
            r.is_some() == self.feature_map().contains_key(name@),
            r.is_some() ==> *r.unwrap() == self.feature_map()[name@],
    {
        match self.features() {
            Some(m) => m.get(name),
            None => None,
        }
    }

    pub fn has_data(&self) -> (r: bool)
        ensures
            r == self.data(),
    {
        self.package.is_some() || self.summary.is_some()
    }

    pub fn is_proc_macro(&self) -> (r: bool)
        ensures
            r == self.proc_macro(),
    {
        match &self.package {
            Some(p) => {
                let mut i: usize = 0;
                while i < p.targets.len()
                    invariant
                        self.package == Some(*p),
                        i <= p.targets@.len(),
                        forall|j: int| 0 <= j < i ==> !(#[trigger] p.targets@[j]).proc_macro(),
                    decreases p.targets@.len() - i,
                {
                    if p.targets[i].is_proc_macro() {
                        return true;
                    }
                    i += 1;
                }
                false
            },
            None => false,
        }
    }
}

#[derive(Debug)]
pub struct Graph {
    pub nodes: Vec<Node>,
}

/// The text without any `.git` at its end.
pub open spec fn without_git(s: Seq<char>) -> Seq<char>
    decreases s.len(),
{
    match before_suffix(s, ".git"@) {
        Some(t) => if t.len() < s.len() {
            without_git(t)
        } else {
            s
        },
        None => s,
    }
}

/// The form in which addresses of repositories are compared.
pub open spec fn plain_url(s: Seq<char>) -> Seq<char> {
    lowercase(without_git(without_slashes(s)))
}

pub(crate) fn trim_git(s: &str) -> (r: String)
    ensures
        r@ == without_git(s@),
    decreases s@.len(),
{
    proof {
        reveal_strlit(".git");
    }
    match strip_suffix(s, ".git") {
        Some(t) => trim_git(t),
        None => s.to_owned(),
    }
}

pub(crate) fn same_git_url(a: &str, b: &str) -> (r: bool)
    ensures
        r == (plain_url(a@) == plain_url(b@)),
{
    let x: String = to_lower(trim_git(trim_slashes(a)).as_str());
    let y: String = to_lower(trim_git(trim_slashes(b)).as_str());
    same(x.as_str(), y.as_str())
}

/// A path or git dep with no version req accepts anything, pre-releases included.
pub open spec fn accepts(dep: DepDecl, v: VersionView) -> bool {
    (!(dep.source is Registry) && dep.req@ == "*"@) || meets(dep.req@, v)
}

/// A path or git dep with no version req accepts anything, pre-releases included.
pub fn req_accepts(dep: &DepDecl, v: &Version) -> (r: bool)
    ensures
        r == accepts(*dep, v@),
{
    let registry: bool = match &dep.source {
        DepSource::Registry(_) => true,
        _ => false,
    };
    (!registry && same(dep.req.text.as_str(), "*")) || req_matches(&dep.req, v)
}

/// The package comes from where the dependency asks for.
pub open spec fn source_fits(dep: DepSourceView, id: SourceIdView, patch_for: Option<Seq<char>>) -> bool {
    match (dep, id) {
        (DepSourceView::Registry(s), SourceIdView::Registry(r)) => s == r,
        (DepSourceView::Registry(s), _) => patch_for == Some(s),
        (DepSourceView::Path(p), SourceIdView::Path(q)) => p == q,
        (DepSourceView::Git { url, .. }, SourceIdView::Git { url: u, .. }) => plain_url(url) == plain_url(u),
        (DepSourceView::Git { url, .. }, _) => match patch_for {
            Some(p) => plain_url(p) == plain_url(url),
            None => false,
        },
        _ => false,
    }
}

/// Of a git package, whether it is the package `name` of that commit.
pub open spec fn of_commit(id: PkgIdView, name: Seq<char>, url: Seq<char>, commit: Seq<char>) -> bool {
    id.name == name && match id.source {
        SourceIdView::Git { url: u, commit: c, .. } => plain_url(u) == plain_url(url) && c == commit,
        _ => false,
    }
}

impl Graph {
    /// Every edge leads to a node.
    pub open spec fn wf(self) -> bool {
        forall|n: int, k: int|
            0 <= n < self.nodes@.len() && 0 <= k < self.nodes@[n].edges@.len() ==> (
            #[trigger] self.nodes@[n].edges@[k]) < self.nodes@.len()
    }

    /// No two nodes stand for the same package.
    pub open spec fn distinct(self) -> bool {
        forall|a: int, b: int|
            0 <= a < b < self.nodes@.len() ==> (#[trigger] self.nodes@[a]).id@ != (
            #[trigger] self.nodes@[b]).id@
    }

    /// The node `t` can be what the dependency asks for.
    pub open spec fn fits(self, dep: DepDecl, t: int) -> bool {
        let x = self.nodes@[t];
        x.id.name@ == dep.name@ && source_fits(dep.source@, x.id.source@, opt_view(x.patch_for)) && accepts(
            dep,
            x.id.version@,
        )
    }

    /// Of the first `k` edges of `n`, the newest that fits; the last one where several are.
    pub open spec fn newest_edge(self, n: int, dep: DepDecl, k: int) -> Option<int>
        decreases k,
    {
        if k <= 0 {
            None
        } else {
            let t = self.nodes@[n].edges@[k - 1] as int;
            let best = self.newest_edge(n, dep, k - 1);
            if !self.fits(dep, t) {
                best
            } else {
                match best {
                    Some(b) => if older(self.nodes@[t].id.version@, self.nodes@[b].id.version@) {
                        Some(b)
                    } else {
                        Some(t)
                    },
                    None => Some(t),
                }
            }
        }
    }

    /// The first node from `i` on that is the package `name` of that commit.
    pub open spec fn commit_node(self, name: Seq<char>, url: Seq<char>, commit: Seq<char>, i: int) -> Option<int>
        decreases self.nodes@.len() - i,
    {
        if i >= self.nodes@.len() {
            None
        } else if of_commit(self.nodes@[i].id@, name, url, commit) {
            Some(i)
        } else {
            self.commit_node(name, url, commit, i + 1)
        }
    }

    /// The node that a dependency of `n` resolves to.
    pub open spec fn target(self, n: int, dep: DepDecl) -> Option<int> {
        match self.newest_edge(n, dep, self.nodes@[n].edges@.len() as int) {
            Some(t) => Some(t),
            None => match (self.nodes@[n].id.source@, dep.source@) {
                (SourceIdView::Git { url, commit, .. }, DepSourceView::Path(_)) => self.commit_node(
                    dep.name@,
                    url,
                    commit,
                    0,
                ),
                _ => None,
            },
        }
    }

    fn source_matches(&self, dep: &DepDecl, t: &Node) -> (r: bool)
        ensures
            r == source_fits(dep.source@, t.id.source@, opt_view(t.patch_for)),
    {
        match (&dep.source, &t.id.source) {
            (DepSource::Registry(s), SourceId::Registry(r)) => same(s.as_str(), r.as_str()),
            (DepSource::Registry(s), _) => match &t.patch_for {
                Some(p) => same(p.as_str(), s.as_str()),
                None => false,
            },
            (DepSource::Path(p), SourceId::Path(q)) => same(p.as_str(), q.as_str()),
            (DepSource::Git { url, .. }, SourceId::Git { url: u, .. }) => same_git_url(url.as_str(), u.as_str()),
            (DepSource::Git { url, .. }, _) => match &t.patch_for {
                Some(p) => same_git_url(p.as_str(), url.as_str()),
                None => false,
            },
            _ => false,
        }
    }

    /// The node that the dependency `dep` of `n` resolves to: of its edges the newest that fits, or,
    /// for a path inside a git repository, the package of the same commit.
    pub fn target_of(&self, n: usize, dep: &DepDecl) -> (r: Option<usize>)
        requires
            self.wf(),
            n < self.nodes@.len(),
        ensures
            r.is_some() == self.target(n as int, *dep).is_some(),
            r.is_some() ==> r.unwrap() == self.target(n as int, *dep).unwrap(),
            r.is_some() ==> r.unwrap() < self.nodes@.len(),
    {
        let mut best: Option<usize> = None;
        let mut k: usize = 0;
        while k < self.nodes[n].edges.len()
            invariant
                self.wf(),
                n < self.nodes@.len(),
                k <= self.nodes@[n as int].edges@.len(),
                best.is_some() == self.newest_edge(n as int, *dep, k as int).is_some(),
                best.is_some() ==> best.unwrap() == self.newest_edge(n as int, *dep, k as int).unwrap()
                    && best.unwrap() < self.nodes@.len(),
            decreases self.nodes@[n as int].edges@.len() - k,
        {
            let t: usize = self.nodes[n].edges[k];
            let tn: &Node = &self.nodes[t];
            if same(tn.id.name.as_str(), dep.name.as_str()) && self.source_matches(dep, tn) && req_accepts(
                dep,
                &tn.id.version,
            ) {
                best = match best {
                    Some(b) => if is_older(&tn.id.version, &self.nodes[b].id.version) {
                        Some(b)
                    } else {
                        Some(t)
                    },
                    None => Some(t),
                };
            }
            k += 1;
        }
        if best.is_some() {
            return best;
        }
        match (&self.nodes[n].id.source, &dep.source) {
            (SourceId::Git { url, commit, .. }, DepSource::Path(_)) => {
                let mut i: usize = 0;
                while i < self.nodes.len()
                    invariant
                        i <= self.nodes@.len(),
                        self.commit_node(dep.name@, url@, commit@, 0) == self.commit_node(
                            dep.name@,
                            url@,
                            commit@,
                            i as int,
                        ),
                        self.target(n as int, *dep) == self.commit_node(dep.name@, url@, commit@, 0),
                    decreases self.nodes@.len() - i,
                {
                    let hit: bool = same(self.nodes[i].id.name.as_str(), dep.name.as_str())
                        && match &self.nodes[i].id.source {
                        SourceId::Git { url: u, commit: c, .. } => same_git_url(u.as_str(), url.as_str())
                            && same(c.as_str(), commit.as_str()),
                        _ => false,
                    };
                    if hit {
                        return Some(i);
                    }
                    i += 1;
                }
                None
            },
            _ => None,
        }
    }
}

// ---------------------------------------------------------------------------
// The model of the graph.

pub struct SummaryView {
    pub deps: Seq<DepDeclView>,
    pub features: FeatureMap,
}

impl View for Summary {
    type V = SummaryView;

    open spec fn view(&self) -> SummaryView {
        SummaryView { deps: views(self.deps@), features: feature_lists(self.features@) }
    }
}

pub struct NodeView {
    pub id: PkgIdView,
    pub checksum: Option<Seq<char>>,
    pub summary: Option<SummaryView>,
    pub package: Option<PackageView>,
    pub edges: Seq<usize>,
    pub is_member: bool,
    pub patch_for: Option<Seq<char>>,
}

impl View for Node {
    type V = NodeView;

    open spec fn view(&self) -> NodeView {
        NodeView {
            id: self.id@,
            checksum: opt_view(self.checksum),
            summary: opt_view(self.summary),
            package: opt_view(self.package),
            edges: self.edges@,
            is_member: self.is_member,
            patch_for: opt_view(self.patch_for),
        }
    }
}

pub type Nodes = Seq<NodeView>;

impl View for Graph {
    type V = Nodes;

    open spec fn view(&self) -> Nodes {
        views(self.nodes@)
    }
}

/// A node of which nothing is known but its id.
pub open spec fn bare(id: PkgIdView) -> NodeView {
    NodeView {
        id,
        checksum: None,
        summary: None,
        package: None,
        edges: Seq::empty(),
        is_member: false,
        patch_for: None,
    }
}

impl NodeView {
    pub open spec fn decls(self) -> Seq<DepDeclView> {
        match (self.package, self.summary) {
            (Some(p), _) => p.deps,
            (None, Some(s)) => s.deps,
            _ => Seq::empty(),
        }
    }

    pub open spec fn data(self) -> bool {
        self.package.is_some() || self.summary.is_some()
    }

    pub open spec fn local(self) -> bool {
        self.id.source is Path
    }
}

pub proof fn lemma_decls(n: Node)
    ensures
        n@.decls() == views(n.decls()),
        n@.data() == n.data(),
{
    assert(views(n.decls()).len() == n.decls().len());
    assert(n@.decls() =~= views(n.decls()));
}

pub open spec fn edges_in_range(g: Nodes) -> bool {
    forall|n: int, k: int| 0 <= n < g.len() && 0 <= k < g[n].edges.len() ==> (#[trigger] g[n].edges[k]) < g.len()
}

pub open spec fn accepted(dep: DepDeclView, v: VersionView) -> bool {
    (!(dep.source is Registry) && dep.req == "*"@) || meets(dep.req, v)
}

pub open spec fn node_fits(x: NodeView, dep: DepDeclView) -> bool {
    x.id.name == dep.name && source_fits(dep.source, x.id.source, x.patch_for) && accepted(dep, x.id.version)
}

pub open spec fn edge_upto(g: Nodes, n: int, dep: DepDeclView, k: int) -> Option<int>
    decreases k,
{
    if k <= 0 {
        None
    } else {
        let t = g[n].edges[k - 1] as int;
        let best = edge_upto(g, n, dep, k - 1);
        if !node_fits(g[t], dep) {
            best
        } else {
            match best {
                Some(b) => if older(g[t].id.version, g[b].id.version) {
                    Some(b)
                } else {
                    Some(t)
                },
                None => Some(t),
            }
        }
    }
}

pub open spec fn commit_at(g: Nodes, name: Seq<char>, url: Seq<char>, commit: Seq<char>, i: int) -> Option<int>
    decreases g.len() - i,
{
    if i >= g.len() {
        None
    } else if of_commit(g[i].id, name, url, commit) {
        Some(i)
    } else {
        commit_at(g, name, url, commit, i + 1)
    }
}

/// The node that a dependency of `n` resolves to.
pub open spec fn target_at(g: Nodes, n: int, dep: DepDeclView) -> Option<int> {
    match edge_upto(g, n, dep, g[n].edges.len() as int) {
        Some(t) => Some(t),
        None => match (g[n].id.source, dep.source) {
            (SourceIdView::Git { url, commit, .. }, DepSourceView::Path(_)) => commit_at(g, dep.name, url, commit, 0),
            _ => None,
        },
    }
}

proof fn lemma_edge_upto(g: Graph, n: int, dep: DepDecl, k: int)
    requires
        g.wf(),
        0 <= n < g.nodes@.len(),
        0 <= k <= g.nodes@[n].edges@.len(),
    ensures
        edge_upto(g@, n, dep@, k) == g.newest_edge(n, dep, k),
        g.newest_edge(n, dep, k) matches Some(t) ==> 0 <= t < g.nodes@.len(),
    decreases k,
{
    if k > 0 {
        lemma_edge_upto(g, n, dep, k - 1);
        let t = g.nodes@[n].edges@[k - 1] as int;
        assert(g@[n] == g.nodes@[n]@);
        assert(g@[t] == g.nodes@[t]@);
        assert(node_fits(g@[t], dep@) == g.fits(dep, t));
        if let Some(b) = g.newest_edge(n, dep, k - 1) {
            assert(g@[b] == g.nodes@[b]@);
        }
    }
}

proof fn lemma_commit_at(g: Graph, name: Seq<char>, url: Seq<char>, commit: Seq<char>, i: int)
    requires
        0 <= i,
    ensures
        commit_at(g@, name, url, commit, i) == g.commit_node(name, url, commit, i),
    decreases g.nodes@.len() - i,
{
    if i < g.nodes@.len() {
        assert(g@[i] == g.nodes@[i]@);
        lemma_commit_at(g, name, url, commit, i + 1);
    }
}

/// The two statements of what a dependency resolves to are the same.
pub proof fn lemma_target_at(g: Graph, n: int, dep: DepDecl)
    requires
        g.wf(),
        0 <= n < g.nodes@.len(),
    ensures
        target_at(g@, n, dep@) == g.target(n, dep),
{
    assert(g@[n] == g.nodes@[n]@);
    lemma_edge_upto(g, n, dep, g.nodes@[n].edges@.len() as int);
    if let SourceIdView::Git { url, commit, .. } = g@[n].id.source {
        lemma_commit_at(g, dep.name@, url, commit, 0);
    }
}

/// The first node from `k` on with the id.
pub open spec fn id_at(g: Nodes, id: PkgIdView, k: int) -> Option<int>
    decreases g.len() - k,
{
    if k < 0 || k >= g.len() {
        None
    } else if g[k].id == id {
        Some(k)
    } else {
        id_at(g, id, k + 1)
    }
}

/// The graph with the node, unless one with its id is there, and where that node is.
pub open spec fn with_node(g: Nodes, n: NodeView) -> (Nodes, int) {
    match id_at(g, n.id, 0) {
        Some(k) => (g, k),
        None => (g.push(n), g.len() as int),
    }
}

/// The first node from `k` on that is the package in the directory.
pub open spec fn path_at(g: Nodes, p: Seq<char>, k: int) -> Option<int>
    decreases g.len() - k,
{
    if k < 0 || k >= g.len() {
        None
    } else if g[k].id.source == SourceIdView::Path(p) {
        Some(k)
    } else {
        path_at(g, p, k + 1)
    }
}

/// The first node from `k` on that is a local package of that name and version.
pub open spec fn local_at(g: Nodes, name: Seq<char>, v: VersionView, k: int) -> Option<int>
    decreases g.len() - k,
{
    if k < 0 || k >= g.len() {
        None
    } else if g[k].local() && g[k].id.name == name && g[k].id.version == v {
        Some(k)
    } else {
        local_at(g, name, v, k + 1)
    }
}

/// The graph with an edge, unless it is there.
pub open spec fn with_edge(g: Nodes, n: int, t: int) -> Nodes {
    if g[n].edges.contains(t as usize) {
        g
    } else {
        g.update(n, NodeView { edges: g[n].edges.push(t as usize), ..g[n] })
    }
}

pub open spec fn place_view(r: Option<usize>) -> Option<int> {
    match r {
        Some(k) => Some(k as int),
        None => None,
    }
}

impl Graph {
    pub fn new() -> (r: Graph)
        ensures
            r@ == Seq::<NodeView>::empty(),
            r.wf(),
            r.distinct(),
    {
        let r = Graph { nodes: Vec::new() };
        assert(r@ =~= Seq::<NodeView>::empty());
        r
    }

    /// The node with the id.
    pub fn find(&self, id: &PkgId) -> (r: Option<usize>)
        ensures
            place_view(r) == id_at(self@, id@, 0),
            r matches Some(k) ==> k < self.nodes@.len(),
    {
        let mut k: usize = 0;
        while k < self.nodes.len()
            invariant
                k <= self.nodes@.len(),
                id_at(self@, id@, 0) == id_at(self@, id@, k as int),
            decreases self.nodes@.len() - k,
        {
            assert(self@[k as int] == self.nodes@[k as int]@);
            if self.nodes[k].id.same_as(id) {
                return Some(k);
            }
            k += 1;
        }
        None
    }

    /// Adds the node, unless one with its id is there; where that node is.
    pub fn add(&mut self, node: Node) -> (r: usize)
        ensures
            with_node(old(self)@, node@) == (final(self)@, r as int),
            r < final(self).nodes@.len(),
            old(self).wf() && node.edges@.len() == 0 ==> final(self).wf(),
            old(self).distinct() ==> final(self).distinct(),
    {
        if let Some(k) = self.find(&node.id) {
            return k;
        }
        let k: usize = self.nodes.len();
        let ghost was = *self;
        proof {
            lemma_id_absent(was@, node.id@, 0);
        }
        self.nodes.push(node);
        proof {
            assert(self@ =~= was@.push(node@));
            if was.distinct() {
                assert forall|a: int, b: int| 0 <= a < b < self.nodes@.len() implies (#[trigger] self.nodes@[a]).id@ != (
                #[trigger] self.nodes@[b]).id@ by {
                    if b == k {
                        assert(was@[a].id != node.id@);
                    } else {
                        assert(was.nodes@[a].id@ != was.nodes@[b].id@);
                    }
                }
            }
            if was.wf() && node.edges@.len() == 0 {
                assert forall|n: int, j: int|
                    0 <= n < self.nodes@.len() && 0 <= j < self.nodes@[n].edges@.len() implies (
                #[trigger] self.nodes@[n].edges@[j]) < self.nodes@.len() by {
                    assert(n < k);
                    assert(was.nodes@[n].edges@[j] < was.nodes@.len());
                }
            }
        }
        k
    }

    /// The local package in the directory.
    pub fn path_node(&self, path: &str) -> (r: Option<usize>)
        ensures
            place_view(r) == path_at(self@, path@, 0),
            r matches Some(k) ==> k < self.nodes@.len(),
    {
        let mut k: usize = 0;
        while k < self.nodes.len()
            invariant
                k <= self.nodes@.len(),
                path_at(self@, path@, 0) == path_at(self@, path@, k as int),
            decreases self.nodes@.len() - k,
        {
            assert(self@[k as int] == self.nodes@[k as int]@);
            if let SourceId::Path(p) = &self.nodes[k].id.source {
                if same(p.as_str(), path) {
                    return Some(k);
                }
            }
            k += 1;
        }
        None
    }

    fn local_node(&self, name: &str, version: &Version) -> (r: Option<usize>)
        ensures
            place_view(r) == local_at(self@, name@, version@, 0),
            r matches Some(k) ==> k < self.nodes@.len(),
    {
        let mut k: usize = 0;
        while k < self.nodes.len()
            invariant
                k <= self.nodes@.len(),
                local_at(self@, name@, version@, 0) == local_at(self@, name@, version@, k as int),
            decreases self.nodes@.len() - k,
        {
            assert(self@[k as int] == self.nodes@[k as int]@);
            let local: bool = match &self.nodes[k].id.source {
                SourceId::Path(_) => true,
                _ => false,
            };
            if local && same(self.nodes[k].id.name.as_str(), name) && self.nodes[k].id.version.same_as(version) {
                return Some(k);
            }
            k += 1;
        }
        None
    }

    /// Adds the edge, unless it is there.
    pub fn link(&mut self, n: usize, t: usize)
        requires
            n < old(self).nodes@.len(),
            t < old(self).nodes@.len(),
        ensures
            final(self)@ == with_edge(old(self)@, n as int, t as int),
            old(self).wf() ==> final(self).wf(),
            old(self).distinct() ==> final(self).distinct(),
            final(self).nodes@.len() == old(self).nodes@.len(),
    {
        let ghost was = *self;
        let mut k: usize = 0;
        while k < self.nodes[n].edges.len()
            invariant
                n < self.nodes@.len(),
                *self == was,
                was == *old(self),
                k <= self.nodes@[n as int].edges@.len(),
                forall|j: int| 0 <= j < k ==> self.nodes@[n as int].edges@[j] != t,
            decreases self.nodes@[n as int].edges@.len() - k,
        {
            if self.nodes[n].edges[k] == t {
                assert(was@[n as int].edges.contains(t));
                return;
            }
            k += 1;
        }
        assert(!was@[n as int].edges.contains(t));
        let mut node: Node = self.nodes.remove(n);
        let ghost before = node;
        node.edges.push(t);
        self.nodes.insert(n, node);
        proof {
            let want = with_edge(was@, n as int, t as int);
            assert(was@[n as int] == was.nodes@[n as int]@);
            assert(self.nodes@ =~= was.nodes@.update(n as int, node));
            assert(self@ =~= want);
            assert forall|a: int| 0 <= a < was.nodes@.len() implies (#[trigger] self.nodes@[a]).id@ == was.nodes@[a].id@ by {}
            if was.wf() {
                assert forall|m: int, j: int|
                    0 <= m < self.nodes@.len() && 0 <= j < self.nodes@[m].edges@.len() implies (
                #[trigger] self.nodes@[m].edges@[j]) < self.nodes@.len() by {
                    if m == n {
                        if j < before.edges@.len() {
                            assert(was.nodes@[m].edges@[j] < was.nodes@.len());
                        }
                    } else {
                        assert(was.nodes@[m].edges@[j] < was.nodes@.len());
                    }
                }
            }
        }
    }
}

proof fn lemma_id_absent(g: Nodes, id: PkgIdView, k: int)
    requires
        0 <= k <= g.len(),
        id_at(g, id, k).is_none(),
    ensures
        forall|a: int| k <= a < g.len() ==> (#[trigger] g[a]).id != id,
    decreases g.len() - k,
{
    if k < g.len() {
        lemma_id_absent(g, id, k + 1);
    }
}

// ---------------------------------------------------------------------------
// The lockfile.

/// The model of why a source cannot be used.
pub enum SourceFault {
    NoCommit(Seq<char>),
    Unsupported(Seq<char>),
}

impl View for SourceError {
    type V = SourceFault;

    open spec fn view(&self) -> SourceFault {
        match self {
            SourceError::NoCommit(s) => SourceFault::NoCommit(s@),
            SourceError::Unsupported(s) => SourceFault::Unsupported(s@),
        }
    }
}

pub open spec fn lock_fault(s: Seq<char>) -> SourceFault {
    if starts(s, "git+"@) {
        SourceFault::NoCommit(s)
    } else {
        SourceFault::Unsupported(s)
    }
}

/// How far a lockfile is read: the graph, the node of each package so far, and what stopped it.
pub struct Import {
    pub nodes: Nodes,
    pub places: Seq<Option<int>>,
    pub fault: Option<SourceFault>,
}

/// The first `k` packages of a lockfile in the graph. A package without a source is one that the graph has.
pub open spec fn imported(g: Nodes, pkgs: Seq<LockPkgView>, k: int) -> Import
    decreases k,
{
    if k <= 0 || k > pkgs.len() {
        Import { nodes: g, places: Seq::empty(), fault: None }
    } else {
        let so_far = imported(g, pkgs, k - 1);
        let p = pkgs[k - 1];
        if so_far.fault.is_some() {
            so_far
        } else {
            match p.source {
                None => Import {
                    places: so_far.places.push(local_at(so_far.nodes, p.name, p.version, 0)),
                    ..so_far
                },
                Some(s) => match lock_source(s) {
                    None => Import { fault: Some(lock_fault(s)), ..so_far },
                    Some(source) => {
                        let node = NodeView {
                            checksum: p.checksum,
                            ..bare(PkgIdView { name: p.name, version: p.version, source })
                        };
                        let (nodes, t) = with_node(so_far.nodes, node);
                        Import { nodes, places: so_far.places.push(Some(t)), fault: None }
                    },
                },
            }
        }
    }
}

pub open spec fn dep_names(d: LockDepView, p: LockPkgView) -> bool {
    p.name == d.name && (d.version matches Some(v) ==> p.version == v) && (d.source.is_some() ==> p.source == d.source)
}

/// The first package from `k` on that a locked dependency names.
pub open spec fn named_at(pkgs: Seq<LockPkgView>, d: LockDepView, k: int) -> Option<int>
    decreases pkgs.len() - k,
{
    if k < 0 || k >= pkgs.len() {
        None
    } else if dep_names(d, pkgs[k]) {
        Some(k)
    } else {
        named_at(pkgs, d, k + 1)
    }
}

/// The graph with the edges of the first `k` dependencies of a package.
pub open spec fn deps_linked(
    g: Nodes,
    n: int,
    pkgs: Seq<LockPkgView>,
    places: Seq<Option<int>>,
    deps: Seq<LockDepView>,
    k: int,
) -> Nodes
    decreases k,
{
    if k <= 0 || k > deps.len() {
        g
    } else {
        let h = deps_linked(g, n, pkgs, places, deps, k - 1);
        match named_at(pkgs, deps[k - 1], 0) {
            Some(j) => match places[j] {
                Some(t) => with_edge(h, n, t),
                None => h,
            },
            None => h,
        }
    }
}

/// The graph with the edges of the first `k` packages.
pub open spec fn packages_linked(g: Nodes, pkgs: Seq<LockPkgView>, places: Seq<Option<int>>, k: int) -> Nodes
    decreases k,
{
    if k <= 0 || k > pkgs.len() {
        g
    } else {
        let h = packages_linked(g, pkgs, places, k - 1);
        match places[k - 1] {
            Some(n) => deps_linked(h, n, pkgs, places, pkgs[k - 1].dependencies, pkgs[k - 1].dependencies.len() as int),
            None => h,
        }
    }
}

/// The graph with what a lockfile holds.
pub open spec fn with_lock(g: Nodes, pkgs: Seq<LockPkgView>) -> Nodes {
    let i = imported(g, pkgs, pkgs.len() as int);
    packages_linked(i.nodes, pkgs, i.places, pkgs.len() as int)
}

pub open spec fn places_view(v: Seq<Option<usize>>) -> Seq<Option<int>> {
    Seq::new(v.len(), |i: int| place_view(v[i]))
}

proof fn lemma_import_fault(g: Nodes, pkgs: Seq<LockPkgView>, a: int, b: int)
    requires
        0 <= a <= b <= pkgs.len(),
        imported(g, pkgs, a).fault.is_some(),
    ensures
        imported(g, pkgs, b) == imported(g, pkgs, a),
    decreases b - a,
{
    if a < b {
        lemma_import_fault(g, pkgs, a, b - 1);
    }
}

fn names_package(d: &LockDep, p: &LockPkg) -> (r: bool)
    ensures
        r == dep_names(d@, p@),
{
    let version: bool = match &d.version {
        Some(v) => p.version.same_as(v),
        None => true,
    };
    let source: bool = match &d.source {
        Some(_) => same_opt(&p.source, &d.source),
        None => true,
    };
    same(p.name.as_str(), d.name.as_str()) && version && source
}

fn find_named(pkgs: &Vec<LockPkg>, d: &LockDep) -> (r: Option<usize>)
    ensures
        place_view(r) == named_at(views(pkgs@), d@, 0),
        r matches Some(k) ==> k < pkgs@.len(),
{
    let ghost pv = views(pkgs@);
    let mut k: usize = 0;
    while k < pkgs.len()
        invariant
            k <= pkgs@.len(),
            pv == views(pkgs@),
            named_at(pv, d@, 0) == named_at(pv, d@, k as int),
        decreases pkgs@.len() - k,
    {
        assert(pv[k as int] == pkgs@[k as int]@);
        if names_package(d, &pkgs[k]) {
            return Some(k);
        }
        k += 1;
    }
    assert(pv.len() == pkgs@.len());
    None
}

impl Graph {
    /// Adds the nodes of a lockfile; the node of each package.
    fn import_nodes(&mut self, pkgs: &Vec<LockPkg>) -> (r: Result<Vec<Option<usize>>, SourceError>)
        requires
            old(self).wf(),
        ensures
            final(self).wf(),
            old(self).distinct() ==> final(self).distinct(),
            match imported(old(self)@, views(pkgs@), pkgs@.len() as int).fault {
                Some(e) => r matches Err(x) && x@ == e,
                None => r matches Ok(v) && places_view(v@) == imported(old(self)@, views(pkgs@), pkgs@.len() as int).places
                    && v@.len() == pkgs@.len() && (forall|j: int|
                    #![trigger v@[j]]
                    0 <= j < v@.len() ==> (v@[j] matches Some(t) ==> t < final(self).nodes@.len())),
            },
            final(self)@ == imported(old(self)@, views(pkgs@), pkgs@.len() as int).nodes,
    {
        let ghost start = self@;
        let ghost pv = views(pkgs@);
        let mut out: Vec<Option<usize>> = Vec::new();
        let mut k: usize = 0;
        assert(places_view(out@) =~= Seq::<Option<int>>::empty());
        while k < pkgs.len()
            invariant
                k <= pkgs@.len(),
                pv == views(pkgs@),
                start == old(self)@,
                self.wf(),
                old(self).distinct() ==> self.distinct(),
                out@.len() == k,
                self@ == imported(start, pv, k as int).nodes,
                places_view(out@) == imported(start, pv, k as int).places,
                imported(start, pv, k as int).fault.is_none(),
                forall|j: int| #![trigger out@[j]] 0 <= j < out@.len() ==> (out@[j] matches Some(t) ==> t < self.nodes@.len()),
            decreases pkgs@.len() - k,
        {
            let p = &pkgs[k];
            assert(pv[k as int] == p@);
            let ghost was = out@;
            let n: Option<usize> = match &p.source {
                None => self.local_node(p.name.as_str(), &p.version),
                Some(s) => match SourceId::parse_lock(s.as_str()) {
                    Err(e) => {
                        proof {
                            assert(e@ == lock_fault(s@));
                            lemma_import_fault(start, pv, k + 1, pv.len() as int);
                        }
                        return Err(e);
                    },
                    Ok(source) => {
                        let mut node = Node::new(PkgId { name: p.name.clone(), version: p.version.dup(), source });
                        node.checksum = dup_text(&p.checksum);
                        let ghost id = PkgIdView { name: p.name@, version: p.version@, source: source@ };
                        assert(node@ == NodeView { checksum: opt_view(p.checksum), ..bare(id) });
                        Some(self.add(node))
                    },
                },
            };
            out.push(n);
            assert(places_view(out@) =~= places_view(was).push(place_view(n)));
            k += 1;
        }
        assert(pv.len() == pkgs@.len());
        Ok(out)
    }

    fn link_package(&mut self, n: usize, pkgs: &Vec<LockPkg>, places: &Vec<Option<usize>>, deps: &Vec<LockDep>)
        requires
            old(self).wf(),
            n < old(self).nodes@.len(),
            places@.len() == pkgs@.len(),
            forall|j: int|
                #![trigger places@[j]]
                0 <= j < places@.len() ==> (places@[j] matches Some(t) ==> t < old(self).nodes@.len()),
        ensures
            final(self).wf(),
            old(self).distinct() ==> final(self).distinct(),
            final(self).nodes@.len() == old(self).nodes@.len(),
            final(self)@ == deps_linked(
                old(self)@,
                n as int,
                views(pkgs@),
                places_view(places@),
                views(deps@),
                deps@.len() as int,
            ),
    {
        let ghost start = self@;
        let ghost pv = views(pkgs@);
        let ghost dv = views(deps@);
        let ghost lv = places_view(places@);
        let mut k: usize = 0;
        while k < deps.len()
            invariant
                k <= deps@.len(),
                pv == views(pkgs@),
                dv == views(deps@),
                lv == places_view(places@),
                start == old(self)@,
                self.wf(),
                old(self).distinct() ==> self.distinct(),
                self.nodes@.len() == old(self).nodes@.len(),
                n < self.nodes@.len(),
                places@.len() == pkgs@.len(),
                forall|j: int|
                    #![trigger places@[j]]
                    0 <= j < places@.len() ==> (places@[j] matches Some(t) ==> t < self.nodes@.len()),
                self@ == deps_linked(start, n as int, pv, lv, dv, k as int),
            decreases deps@.len() - k,
        {
            assert(dv[k as int] == deps@[k as int]@);
            if let Some(j) = find_named(pkgs, &deps[k]) {
                assert(lv[j as int] == place_view(places@[j as int]));
                if let Some(t) = places[j] {
                    self.link(n, t);
                }
            }
            k += 1;
        }
        assert(dv.len() == deps@.len());
    }

    /// Takes in what a lockfile holds. Path packages have to already be in the graph.
    pub fn import_lock(&mut self, lock: &Lockfile) -> (r: Result<(), SourceError>)
        requires
            old(self).wf(),
        ensures
            final(self).wf(),
            old(self).distinct() ==> final(self).distinct(),
            match imported(old(self)@, lock@.packages, lock@.packages.len() as int).fault {
                Some(e) => (r matches Err(x) && x@ == e) && final(self)@ == imported(
                    old(self)@,
                    lock@.packages,
                    lock@.packages.len() as int,
                ).nodes,
                None => r.is_ok() && final(self)@ == with_lock(old(self)@, lock@.packages),
            },
    {
        let ghost pv = views(lock.packages@);
        assert(pv.len() == lock.packages@.len());
        let places = match self.import_nodes(&lock.packages) {
            Ok(p) => p,
            Err(e) => {
                return Err(e);
            },
        };
        let ghost start = self@;
        let ghost lv = places_view(places@);
        let mut k: usize = 0;
        while k < lock.packages.len()
            invariant
                k <= lock.packages@.len(),
                pv == views(lock.packages@),
                lv == places_view(places@),
                self.wf(),
                old(self).distinct() ==> self.distinct(),
                places@.len() == lock.packages@.len(),
                forall|j: int|
                    #![trigger places@[j]]
                    0 <= j < places@.len() ==> (places@[j] matches Some(t) ==> t < self.nodes@.len()),
                self@ == packages_linked(start, pv, lv, k as int),
            decreases lock.packages@.len() - k,
        {
            assert(pv[k as int] == lock.packages@[k as int]@);
            assert(lv[k as int] == place_view(places@[k as int]));
            assert(pv[k as int].dependencies.len() == lock.packages@[k as int].dependencies@.len());
            if let Some(n) = places[k] {
                self.link_package(n, &lock.packages, &places, &lock.packages[k].dependencies);
            }
            k += 1;
        }
        Ok(())
    }
}

// ---------------------------------------------------------------------------
// Patches.

/// What `[patch]` puts in place of packages, by the source that it is for.
pub type Patches = StrMap<Vec<DepDecl>>;

/// The first node from `k` on that a declaration names.
pub open spec fn meant_at(g: Nodes, dep: DepDeclView, k: int) -> Option<int>
    decreases g.len() - k,
{
    if k < 0 || k >= g.len() {
        None
    } else if g[k].id.name == dep.name && source_fits(dep.source, g[k].id.source, g[k].patch_for) {
        Some(k)
    } else {
        meant_at(g, dep, k + 1)
    }
}

pub open spec fn marked(g: Nodes, n: int, source: Seq<char>) -> Nodes {
    g.update(n, NodeView { patch_for: Some(source), ..g[n] })
}

/// The graph with the nodes marked that the first `k` declarations name.
pub open spec fn decls_marked(g: Nodes, source: Seq<char>, decls: Seq<DepDeclView>, k: int) -> Nodes
    decreases k,
{
    if k <= 0 || k > decls.len() {
        g
    } else {
        let h = decls_marked(g, source, decls, k - 1);
        match meant_at(h, decls[k - 1], 0) {
            Some(n) => marked(h, n, source),
            None => h,
        }
    }
}

/// The graph with the nodes marked that stand in for packages of the first `k` sources.
pub open spec fn sources_marked(g: Nodes, patches: Map<Seq<char>, Vec<DepDecl>>, sources: Seq<Seq<char>>, k: int) -> Nodes
    decreases k,
{
    if k <= 0 || k > sources.len() {
        g
    } else {
        let decls = views(patches[sources[k - 1]]@);
        decls_marked(sources_marked(g, patches, sources, k - 1), sources[k - 1], decls, decls.len() as int)
    }
}

pub open spec fn with_patches(g: Nodes, patches: Map<Seq<char>, Vec<DepDecl>>) -> Nodes {
    let sources = listed(patches.dom());
    sources_marked(g, patches, sources, sources.len() as int)
}

impl Graph {
    /// The node stands in for a package of the source from now on.
    pub fn mark(&mut self, n: usize, source: &str)
        requires
            n < old(self).nodes@.len(),
        ensures
            final(self)@ == marked(old(self)@, n as int, source@),
            final(self).nodes@.len() == old(self).nodes@.len(),
            old(self).wf() ==> final(self).wf(),
            old(self).distinct() ==> final(self).distinct(),
    {
        let ghost was = *self;
        let mut node: Node = self.nodes.remove(n);
        node.patch_for = Some(source.to_owned());
        self.nodes.insert(n, node);
        proof {
            assert(was@[n as int] == was.nodes@[n as int]@);
            assert(self.nodes@ =~= was.nodes@.update(n as int, node));
            assert(self@ =~= marked(was@, n as int, source@));
            assert forall|a: int| 0 <= a < was.nodes@.len() implies (#[trigger] self.nodes@[a]).id@ == was.nodes@[a].id@
                && self.nodes@[a].edges@ == was.nodes@[a].edges@ by {}
            if was.wf() {
                assert forall|m: int, j: int|
                    0 <= m < self.nodes@.len() && 0 <= j < self.nodes@[m].edges@.len() implies (
                #[trigger] self.nodes@[m].edges@[j]) < self.nodes@.len() by {
                    assert(was.nodes@[m].edges@[j] < was.nodes@.len());
                }
            }
        }
    }

    fn meant(&self, dep: &DepDecl) -> (r: Option<usize>)
        ensures
            place_view(r) == meant_at(self@, dep@, 0),
            r matches Some(k) ==> k < self.nodes@.len(),
    {
        let mut k: usize = 0;
        while k < self.nodes.len()
            invariant
                k <= self.nodes@.len(),
                meant_at(self@, dep@, 0) == meant_at(self@, dep@, k as int),
            decreases self.nodes@.len() - k,
        {
            assert(self@[k as int] == self.nodes@[k as int]@);
            if same(self.nodes[k].id.name.as_str(), dep.name.as_str()) && self.source_matches(dep, &self.nodes[k]) {
                return Some(k);
            }
            k += 1;
        }
        None
    }

    fn mark_decls(&mut self, source: &str, decls: &Vec<DepDecl>)
        ensures
            final(self)@ == decls_marked(old(self)@, source@, views(decls@), decls@.len() as int),
            final(self).nodes@.len() == old(self).nodes@.len(),
            old(self).wf() ==> final(self).wf(),
            old(self).distinct() ==> final(self).distinct(),
    {
        let ghost start = self@;
        let ghost dv = views(decls@);
        let mut k: usize = 0;
        while k < decls.len()
            invariant
                k <= decls@.len(),
                dv == views(decls@),
                start == old(self)@,
                self@ == decls_marked(start, source@, dv, k as int),
                self.nodes@.len() == old(self).nodes@.len(),
                old(self).wf() ==> self.wf(),
                old(self).distinct() ==> self.distinct(),
            decreases decls@.len() - k,
        {
            assert(dv[k as int] == decls@[k as int]@);
            if let Some(n) = self.meant(&decls[k]) {
                self.mark(n, source);
            }
            k += 1;
        }
        assert(dv.len() == decls@.len());
    }

    /// Lock import doesn't run the resolver. Mark `[patch]` replacements or dependents still look unlocked.
    pub fn mark_lock_patches(&mut self, patches: &Patches)
        ensures
            final(self)@ == with_patches(old(self)@, patches@),
            final(self).nodes@.len() == old(self).nodes@.len(),
            old(self).wf() ==> final(self).wf(),
            old(self).distinct() ==> final(self).distinct(),
    {
        let ghost start = self@;
        let sources = patches.keys();
        let ghost sv = listed(patches@.dom());
        let mut k: usize = 0;
        while k < sources.len()
            invariant
                k <= sources@.len(),
                sv == views(sources@),
                sv.to_set() == patches@.dom(),
                start == old(self)@,
                self@ == sources_marked(start, patches@, sv, k as int),
                self.nodes@.len() == old(self).nodes@.len(),
                old(self).wf() ==> self.wf(),
                old(self).distinct() ==> self.distinct(),
            decreases sources@.len() - k,
        {
            assert(sv[k as int] == sources@[k as int]@);
            assert(sv.contains(sv[k as int]));
            assert(patches@.dom().contains(sv[k as int]));
            if let Some(decls) = patches.get(sources[k].as_str()) {
                assert(views(decls@).len() == decls@.len());
                self.mark_decls(sources[k].as_str(), decls);
            }
            k += 1;
        }
        assert(sv.len() == sources@.len());
    }
}

// ---------------------------------------------------------------------------
// Whether the lockfile covers the workspace.

/// A member needs every dependency; another local package those that are not optional and not for tests.
pub open spec fn is_required(n: NodeView, d: DepDeclView) -> bool {
    n.is_member || (!d.optional && d.kind != DepKind::Dev)
}

/// Every dependency that a local package needs has a node.
pub open spec fn complete(g: Nodes) -> bool {
    forall|n: int, i: int|
        #![trigger g[n].decls()[i]]
        0 <= n < g.len() && g[n].local() && 0 <= i < g[n].decls().len() && is_required(g[n], g[n].decls()[i]) ==> target_at(
            g,
            n,
            g[n].decls()[i],
        ).is_some()
}

impl Graph {
    fn node_complete(&self, n: usize) -> (r: bool)
        requires
            self.wf(),
            n < self.nodes@.len(),
        ensures
            r == (forall|i: int|
                #![trigger self@[n as int].decls()[i]]
                0 <= i < self@[n as int].decls().len() && is_required(self@[n as int], self@[n as int].decls()[i]) ==> target_at(
                    self@,
                    n as int,
                    self@[n as int].decls()[i],
                ).is_some()),
    {
        let node = &self.nodes[n];
        let deps = node.deps();
        let ghost dv = self@[n as int].decls();
        proof {
            assert(self@[n as int] == node@);
            lemma_decls(*node);
            assert(dv.len() == deps@.len());
        }
        let mut i: usize = 0;
        while i < deps.len()
            invariant
                self.wf(),
                n < self.nodes@.len(),
                *node == self.nodes@[n as int],
                self@[n as int] == node@,
                dv == self@[n as int].decls(),
                dv == views(deps@),
                i <= deps@.len(),
                forall|j: int| 0 <= j < i && is_required(node@, #[trigger] dv[j]) ==> target_at(self@, n as int, dv[j]).is_some(),
            decreases deps@.len() - i,
        {
            let d = &deps[i];
            assert(dv[i as int] == d@);
            proof {
                lemma_target_at(*self, n as int, *d);
            }
            if (node.is_member || (!d.optional && d.kind != DepKind::Dev)) && self.target_of(n, d).is_none() {
                assert(is_required(node@, dv[i as int]));
                return false;
            }
            i += 1;
        }
        true
    }

    /// Whether every dependency that a local package needs is locked.
    pub fn locals_complete(&self) -> (r: bool)
        requires
            self.wf(),
        ensures
            r == complete(self@),
    {
        let mut n: usize = 0;
        while n < self.nodes.len()
            invariant
                self.wf(),
                n <= self.nodes@.len(),
                forall|m: int, i: int|
                    #![trigger self@[m].decls()[i]]
                    0 <= m < n && self@[m].local() && 0 <= i < self@[m].decls().len() && is_required(
                        self@[m],
                        self@[m].decls()[i],
                    ) ==> target_at(self@, m, self@[m].decls()[i]).is_some(),
            decreases self.nodes@.len() - n,
        {
            assert(self@[n as int] == self.nodes@[n as int]@);
            let local: bool = match &self.nodes[n].id.source {
                SourceId::Path(_) => true,
                _ => false,
            };
            if local && !self.node_complete(n) {
                proof {
                    let i = choose|i: int|
                        #![trigger self@[n as int].decls()[i]]
                        0 <= i < self@[n as int].decls().len() && is_required(self@[n as int], self@[n as int].decls()[i])
                            && target_at(self@, n as int, self@[n as int].decls()[i]).is_none();
                    assert(!complete(self@));
                }
                return false;
            }
            n += 1;
        }
        true
    }
}

// ---------------------------------------------------------------------------
// What a lockfile prefers.

/// A registry, and a package in it.
#[derive(Debug)]
pub struct RegistryKey {
    pub source: String,
    pub name: String,
}

impl View for RegistryKey {
    type V = (Seq<char>, Seq<char>);

    open spec fn view(&self) -> (Seq<char>, Seq<char>) {
        (self.source@, self.name@)
    }
}

impl Keyed for RegistryKey {
    fn same_key(&self, other: &RegistryKey) -> (r: bool) {
        same(self.source.as_str(), other.source.as_str()) && same(self.name.as_str(), other.name.as_str())
    }
}

/// A repository, and what is asked for of it.
#[derive(Debug)]
pub struct GitKey {
    pub url: String,
    pub reference: GitRef,
}

impl View for GitKey {
    type V = (Seq<char>, GitRefView);

    open spec fn view(&self) -> (Seq<char>, GitRefView) {
        (self.url@, self.reference@)
    }
}

impl Keyed for GitKey {
    fn same_key(&self, other: &GitKey) -> (r: bool) {
        same(self.url.as_str(), other.url.as_str()) && self.reference.same_as(&other.reference)
    }
}

/// A locked version, and its checksum where it is known.
#[derive(Debug)]
pub struct Locked {
    pub version: Version,
    pub checksum: Option<String>,
}

pub type LockedView = (VersionView, Option<Seq<char>>);

impl View for Locked {
    type V = LockedView;

    open spec fn view(&self) -> LockedView {
        (self.version@, opt_view(self.checksum))
    }
}

impl Locked {
    fn dup(&self) -> (r: Locked)
        ensures
            r@ == self@,
    {
        Locked { version: self.version.dup(), checksum: dup_text(&self.checksum) }
    }
}

/// Versions and commits already in a lockfile. Re-resolution prefers them.
pub struct Prefs {
    registry: KeyMap<RegistryKey, Vec<Locked>>,
    git: KeyMap<GitKey, String>,
}

/// The model of what is preferred.
pub struct PrefsView {
    pub registry: Map<(Seq<char>, Seq<char>), Seq<LockedView>>,
    pub git: Map<(Seq<char>, GitRefView), Seq<char>>,
}

impl View for Prefs {
    type V = PrefsView;

    closed spec fn view(&self) -> PrefsView {
        PrefsView {
            registry: self.registry@.map_values(|v: Vec<Locked>| views(v@)),
            git: self.git@.map_values(|s: String| s@),
        }
    }
}

pub open spec fn no_prefs() -> PrefsView {
    PrefsView { registry: Map::empty(), git: Map::empty() }
}

/// The source that a locked package has, where it can be read.
pub open spec fn source_in_lock(p: LockPkgView) -> Option<SourceIdView> {
    match p.source {
        Some(s) => lock_source(s),
        None => None,
    }
}

/// What is preferred, with one more package.
pub open spec fn preferring(f: PrefsView, p: LockPkgView) -> PrefsView {
    match source_in_lock(p) {
        Some(SourceIdView::Registry(s)) => {
            let had = if f.registry.contains_key((s, p.name)) {
                f.registry[(s, p.name)]
            } else {
                Seq::empty()
            };
            PrefsView { registry: f.registry.insert((s, p.name), had.push((p.version, p.checksum))), ..f }
        },
        Some(SourceIdView::Git { url, reference, commit }) => PrefsView {
            git: f.git.insert((url, reference), commit),
            ..f
        },
        _ => f,
    }
}

/// What the first `k` packages of a lockfile prefer.
pub open spec fn prefs_upto(pkgs: Seq<LockPkgView>, k: int) -> PrefsView
    decreases k,
{
    if k <= 0 || k > pkgs.len() {
        no_prefs()
    } else {
        preferring(prefs_upto(pkgs, k - 1), pkgs[k - 1])
    }
}

pub open spec fn prefs_of(pkgs: Seq<LockPkgView>) -> PrefsView {
    prefs_upto(pkgs, pkgs.len() as int)
}

/// The commits without those of the first `k` packages that have one of the names.
pub open spec fn commits_without(
    git: Map<(Seq<char>, GitRefView), Seq<char>>,
    names: Set<Seq<char>>,
    pkgs: Seq<LockPkgView>,
    k: int,
) -> Map<(Seq<char>, GitRefView), Seq<char>>
    decreases k,
{
    if k <= 0 || k > pkgs.len() {
        git
    } else {
        let so_far = commits_without(git, names, pkgs, k - 1);
        match source_in_lock(pkgs[k - 1]) {
            Some(SourceIdView::Git { url, reference, .. }) => if names.contains(pkgs[k - 1].name) {
                so_far.remove((url, reference))
            } else {
                so_far
            },
            _ => so_far,
        }
    }
}

/// What is preferred of packages by other names.
pub open spec fn forgetting(f: PrefsView, names: Set<Seq<char>>, pkgs: Seq<LockPkgView>) -> PrefsView {
    PrefsView {
        registry: f.registry.restrict(Set::new(|k: (Seq<char>, Seq<char>)| f.registry.contains_key(k) && !names.contains(k.1))),
        git: commits_without(f.git, names, pkgs, pkgs.len() as int),
    }
}

/// Some registry has a preferred version of the package.
pub open spec fn is_preferred(f: PrefsView, name: Seq<char>) -> bool {
    exists|k: (Seq<char>, Seq<char>)| #[trigger] f.registry.contains_key(k) && k.1 == name
}

/// The version is the one that is preferred of the package, in every registry that has one; in crates.io
/// where none has.
pub open spec fn pinned(f: PrefsView, name: Seq<char>, v: VersionView) -> PrefsView {
    let only = seq![(v, None::<Seq<char>>)];
    PrefsView {
        registry: if is_preferred(f, name) {
            Map::new(
                |k: (Seq<char>, Seq<char>)| f.registry.contains_key(k),
                |k: (Seq<char>, Seq<char>)|
                    if k.1 == name {
                        only
                    } else {
                        f.registry[k]
                    },
            )
        } else {
            f.registry.insert((CRATES_IO@, name), only)
        },
        ..f
    }
}

/// The commits, with this one for those of the first `k` packages that have the name.
pub open spec fn commits_pinned(
    git: Map<(Seq<char>, GitRefView), Seq<char>>,
    name: Seq<char>,
    commit: Seq<char>,
    pkgs: Seq<LockPkgView>,
    k: int,
) -> Map<(Seq<char>, GitRefView), Seq<char>>
    decreases k,
{
    if k <= 0 || k > pkgs.len() {
        git
    } else {
        let so_far = commits_pinned(git, name, commit, pkgs, k - 1);
        match source_in_lock(pkgs[k - 1]) {
            Some(SourceIdView::Git { url, reference, .. }) => if pkgs[k - 1].name == name {
                so_far.insert((url, reference), commit)
            } else {
                so_far
            },
            _ => so_far,
        }
    }
}

fn read_source(p: &LockPkg) -> (r: Option<SourceId>)
    ensures
        opt_view(r) == source_in_lock(p@),
{
    match &p.source {
        Some(s) => match SourceId::parse_lock(s.as_str()) {
            Ok(id) => Some(id),
            Err(_) => None,
        },
        None => None,
    }
}

fn dup_locked(v: &Vec<Locked>) -> (r: Vec<Locked>)
    ensures
        views(r@) == views(v@),
{
    let mut out: Vec<Locked> = Vec::new();
    let mut k: usize = 0;
    while k < v.len()
        invariant
            k <= v@.len(),
            out@.len() == k,
            forall|j: int| 0 <= j < k ==> (#[trigger] out@[j])@ == v@[j]@,
        decreases v@.len() - k,
    {
        out.push(v[k].dup());
        k += 1;
    }
    assert(views(out@) =~= views(v@));
    out
}

impl Prefs {
    fn empty() -> (r: Prefs)
        ensures
            r@ == no_prefs(),
    {
        let r = Prefs { registry: KeyMap::new(), git: KeyMap::new() };
        assert(r@.registry =~= no_prefs().registry);
        assert(r@.git =~= no_prefs().git);
        r
    }

    fn prefer(&mut self, p: &LockPkg)
        ensures
            final(self)@ == preferring(old(self)@, p@),
    {
        let ghost was = *self;
        match read_source(p) {
            Some(SourceId::Registry(s)) => {
                let key = RegistryKey { source: s, name: p.name.clone() };
                let ghost kv = key@;
                let mut had: Vec<Locked> = match self.registry.get(&key) {
                    Some(v) => dup_locked(v),
                    None => Vec::new(),
                };
                let ghost before = views(had@);
                let one = Locked { version: p.version.dup(), checksum: dup_text(&p.checksum) };
                had.push(one);
                proof {
                    assert(views(had@) =~= before.push(one@));
                    if !was.registry@.contains_key(kv) {
                        assert(before =~= Seq::<LockedView>::empty());
                    } else {
                        assert(was@.registry[kv] == views(was.registry@[kv]@));
                    }
                }
                self.registry.insert(key, had);
                assert(self@.registry =~= was@.registry.insert(kv, views(had@)));
            },
            Some(SourceId::Git { url, reference, commit }) => {
                let key = GitKey { url, reference };
                let ghost kv = key@;
                let ghost c = commit@;
                self.git.insert(key, commit);
                assert(self@.git =~= was@.git.insert(kv, c));
            },
            _ => {},
        }
    }

    /// What a lockfile prefers.
    pub fn from_lock(lock: Option<&Lockfile>) -> (r: Prefs)
        ensures
            r@ == prefs_of(locked(lock)),
    {
        let mut f = Prefs::empty();
        match lock {
            Some(l) => {
                let ghost pv = views(l.packages@);
                assert(locked(lock) == pv);
                let mut k: usize = 0;
                while k < l.packages.len()
                    invariant
                        k <= l.packages@.len(),
                        pv == views(l.packages@),
                        f@ == prefs_upto(pv, k as int),
                    decreases l.packages@.len() - k,
                {
                    assert(pv[k as int] == l.packages@[k as int]@);
                    f.prefer(&l.packages[k]);
                    k += 1;
                }
                assert(pv.len() == l.packages@.len());
            },
            None => {},
        }
        f
    }

    /// Prefers nothing any more.
    pub fn forget_all(&mut self)
        ensures
            final(self)@ == no_prefs(),
    {
        *self = Prefs::empty();
    }

    fn forget_versions(&mut self, names: &StrSet)
        ensures
            final(self)@.registry == forgetting(old(self)@, names@, Seq::empty()).registry,
            final(self)@.git == old(self)@.git,
    {
        let ghost was = *self;
        let mut gone: Vec<RegistryKey> = Vec::new();
        let keys = self.registry.keys();
        let ghost kv = views(keys@);
        let mut k: usize = 0;
        while k < keys.len()
            invariant
                k <= keys@.len(),
                kv == views(keys@),
                forall|x: (Seq<char>, Seq<char>)|
                    #![trigger views(gone@).contains(x)]
                    views(gone@).contains(x) == (kv.take(k as int).contains(x) && names@.contains(x.1)),
            decreases keys@.len() - k,
        {
            let key = &keys[k];
            assert(kv[k as int] == key@);
            let ghost before = gone@;
            let ghost a = kv.take(k as int);
            let ghost b = kv.take(k + 1);
            assert(b =~= a.push(key@));
            assert forall|x: (Seq<char>, Seq<char>)| #[trigger] b.contains(x) == (a.contains(x) || x == key@) by {
                if a.contains(x) {
                    let j = a.index_of(x);
                    assert(b[j] == x);
                }
                assert(b[k as int] == key@);
            }
            if names.contains(key.name.as_str()) {
                let dup = RegistryKey { source: key.source.clone(), name: key.name.clone() };
                gone.push(dup);
                assert(views(gone@) =~= views(before).push(key@));
                assert forall|x: (Seq<char>, Seq<char>)| #[trigger] views(gone@).contains(x) == (views(before).contains(x) || x
                    == key@) by {
                    if views(before).contains(x) {
                        let j = views(before).index_of(x);
                        assert(views(gone@)[j] == x);
                    }
                    assert(views(gone@)[before.len() as int] == key@);
                }
            }
            k += 1;
        }
        assert(kv.take(k as int) =~= kv);
        let ghost gv = views(gone@);
        let mut j: usize = 0;
        while j < gone.len()
            invariant
                j <= gone@.len(),
                gv == views(gone@),
                self.git == was.git,
                forall|x: (Seq<char>, Seq<char>)|
                    #![trigger self.registry@.contains_key(x)]
                    self.registry@.contains_key(x) == (was.registry@.contains_key(x) && !gv.take(j as int).contains(x)),
                forall|x: (Seq<char>, Seq<char>)|
                    #![trigger self.registry@[x]]
                    self.registry@.contains_key(x) ==> self.registry@[x] == was.registry@[x],
            decreases gone@.len() - j,
        {
            assert(gv[j as int] == gone@[j as int]@);
            let ghost a = gv.take(j as int);
            let ghost b = gv.take(j + 1);
            assert(b =~= a.push(gv[j as int]));
            assert forall|x: (Seq<char>, Seq<char>)| #[trigger] b.contains(x) == (a.contains(x) || x == gv[j as int]) by {
                if a.contains(x) {
                    let i = a.index_of(x);
                    assert(b[i] == x);
                }
                assert(b[j as int] == gv[j as int]);
            }
            self.registry.remove(&gone[j]);
            j += 1;
        }
        proof {
            assert(gv.take(j as int) =~= gv);
            let want = forgetting(was@, names@, Seq::empty()).registry;
            assert forall|x: (Seq<char>, Seq<char>)| #[trigger] self@.registry.contains_key(x) == want.contains_key(x) by {
                assert(self.registry@.contains_key(x) == self@.registry.contains_key(x));
                assert(gv.contains(x) == (kv.contains(x) && names@.contains(x.1)));
            }
            assert forall|x: (Seq<char>, Seq<char>)| #[trigger] self@.registry.contains_key(x) implies self@.registry[x] == want[x] by {
                assert(self.registry@.contains_key(x));
                assert(self@.registry[x] == views(self.registry@[x]@));
            }
            assert(self@.registry =~= want);
        }
    }

    /// Prefers nothing of the packages by these names any more.
    pub fn forget(&mut self, names: &StrSet, lock: Option<&Lockfile>)
        ensures
            final(self)@ == forgetting(old(self)@, names@, locked(lock)),
    {
        self.forget_versions(names);
        let ghost was = self@;
        match lock {
            Some(l) => {
                let ghost pv = views(l.packages@);
                let mut k: usize = 0;
                while k < l.packages.len()
                    invariant
                        k <= l.packages@.len(),
                        pv == views(l.packages@),
                        self@.registry == was.registry,
                        self@.git == commits_without(was.git, names@, pv, k as int),
                    decreases l.packages@.len() - k,
                {
                    assert(pv[k as int] == l.packages@[k as int]@);
                    let p = &l.packages[k];
                    let ghost now = *self;
                    if names.contains(p.name.as_str()) {
                        if let Some(SourceId::Git { url, reference, .. }) = read_source(p) {
                            let key = GitKey { url, reference };
                            self.git.remove(&key);
                            assert(self@.git =~= now@.git.remove(key@));
                        }
                    }
                    k += 1;
                }
                assert(pv.len() == l.packages@.len());
            },
            None => {},
        }
    }

    /// `--precise` beats "latest".
    pub fn pin_version(&mut self, name: &str, version: Version)
        ensures
            final(self)@ == pinned(old(self)@, name@, version@),
    {
        let ghost was = *self;
        let mut held: Vec<RegistryKey> = Vec::new();
        let keys = self.registry.keys();
        let ghost kv = views(keys@);
        let mut k: usize = 0;
        while k < keys.len()
            invariant
                k <= keys@.len(),
                kv == views(keys@),
                forall|x: (Seq<char>, Seq<char>)|
                    #![trigger views(held@).contains(x)]
                    views(held@).contains(x) == (kv.take(k as int).contains(x) && x.1 == name@),
            decreases keys@.len() - k,
        {
            let key = &keys[k];
            assert(kv[k as int] == key@);
            let ghost before = held@;
            let ghost a = kv.take(k as int);
            let ghost b = kv.take(k + 1);
            assert(b =~= a.push(key@));
            assert forall|x: (Seq<char>, Seq<char>)| #[trigger] b.contains(x) == (a.contains(x) || x == key@) by {
                if a.contains(x) {
                    let j = a.index_of(x);
                    assert(b[j] == x);
                }
                assert(b[k as int] == key@);
            }
            if same(key.name.as_str(), name) {
                let dup = RegistryKey { source: key.source.clone(), name: key.name.clone() };
                held.push(dup);
                assert(views(held@) =~= views(before).push(key@));
                assert forall|x: (Seq<char>, Seq<char>)| #[trigger] views(held@).contains(x) == (views(before).contains(x) || x
                    == key@) by {
                    if views(before).contains(x) {
                        let j = views(before).index_of(x);
                        assert(views(held@)[j] == x);
                    }
                    assert(views(held@)[before.len() as int] == key@);
                }
            }
            k += 1;
        }
        assert(kv.take(k as int) =~= kv);
        let ghost hv = views(held@);
        let ghost only = seq![(version@, None::<Seq<char>>)];
        if held.len() == 0 {
            let mut v: Vec<Locked> = Vec::new();
            v.push(Locked { version, checksum: None });
            assert(views(v@) =~= only);
            proof {
                if is_preferred(was@, name@) {
                    let x = choose|x: (Seq<char>, Seq<char>)| #[trigger] was@.registry.contains_key(x) && x.1 == name@;
                    assert(was.registry@.contains_key(x));
                    assert(hv.contains(x));
                }
            }
            let key = RegistryKey { source: CRATES_IO.to_owned(), name: name.to_owned() };
            let ghost key_view = key@;
            self.registry.insert(key, v);
            assert(self@.registry =~= was@.registry.insert(key_view, only));
            return;
        }
        assert(hv.len() == held@.len());
        let mut j: usize = 0;
        while held.len() > 0
            invariant
                0 <= j <= hv.len(),
                views(held@) == hv.skip(j as int),
                hv.len() <= usize::MAX,
                self.git == was.git,
                only == seq![(version@, None::<Seq<char>>)],
                forall|x: (Seq<char>, Seq<char>)| #[trigger] hv.contains(x) ==> was.registry@.contains_key(x),
                forall|x: (Seq<char>, Seq<char>)|
                    #![trigger self.registry@.contains_key(x)]
                    self.registry@.contains_key(x) == was.registry@.contains_key(x),
                forall|x: (Seq<char>, Seq<char>)|
                    #![trigger self.registry@[x]]
                    self.registry@.contains_key(x) ==> views(self.registry@[x]@) == (if hv.take(j as int).contains(x) {
                        only
                    } else {
                        views(was.registry@[x]@)
                    }),
            decreases held@.len(),
        {
            let ghost rest = views(held@);
            assert(rest.len() == held@.len());
            assert(rest[0] == hv[j as int]);
            let key = held.remove(0);
            assert(key@ == rest[0]);
            assert(views(held@) =~= rest.skip(1));
            assert(rest.skip(1) =~= hv.skip(j + 1));
            let ghost a = hv.take(j as int);
            let ghost b = hv.take(j + 1);
            assert(b =~= a.push(hv[j as int]));
            assert forall|x: (Seq<char>, Seq<char>)| #[trigger] b.contains(x) == (a.contains(x) || x == hv[j as int]) by {
                if a.contains(x) {
                    let i = a.index_of(x);
                    assert(b[i] == x);
                }
                assert(b[j as int] == hv[j as int]);
            }
            assert(hv.contains(hv[j as int]));
            let mut v: Vec<Locked> = Vec::new();
            v.push(Locked { version: version.dup(), checksum: None });
            assert(views(v@) =~= only);
            self.registry.insert(key, v);
            j += 1;
        }
        proof {
            assert(views(held@).len() == held@.len());
            assert(hv.take(j as int) =~= hv);
            assert(hv.contains(hv[0]));
            assert(was@.registry.contains_key(hv[0]));
            let want = pinned(was@, name@, version@).registry;
            assert forall|x: (Seq<char>, Seq<char>)| #[trigger] self@.registry.contains_key(x) == want.contains_key(x) by {
                assert(self.registry@.contains_key(x) == self@.registry.contains_key(x));
            }
            assert forall|x: (Seq<char>, Seq<char>)| #[trigger] self@.registry.contains_key(x) implies self@.registry[x] == want[x] by {
                assert(self.registry@.contains_key(x));
                assert(self@.registry[x] == views(self.registry@[x]@));
                assert(hv.contains(x) == (kv.contains(x) && x.1 == name@));
            }
            assert(self@.registry =~= want);
        }
    }

    /// The commit is the one that is preferred of the package.
    pub fn pin_git(&mut self, name: &str, commit: &str, lock: Option<&Lockfile>)
        ensures
            final(self)@ == (PrefsView {
                git: commits_pinned(old(self)@.git, name@, commit@, locked(lock), locked(lock).len() as int),
                ..old(self)@
            }),
    {
        let ghost was = self@;
        match lock {
            Some(l) => {
                let ghost pv = views(l.packages@);
                let mut k: usize = 0;
                while k < l.packages.len()
                    invariant
                        k <= l.packages@.len(),
                        pv == views(l.packages@),
                        self@.registry == was.registry,
                        self@.git == commits_pinned(was.git, name@, commit@, pv, k as int),
                    decreases l.packages@.len() - k,
                {
                    assert(pv[k as int] == l.packages@[k as int]@);
                    let p = &l.packages[k];
                    let ghost now = *self;
                    if same(p.name.as_str(), name) {
                        if let Some(SourceId::Git { url, reference, .. }) = read_source(p) {
                            let key = GitKey { url, reference };
                            let ghost kv = key@;
                            self.git.insert(key, commit.to_owned());
                            assert(self@.git =~= now@.git.insert(kv, commit@));
                        }
                    }
                    k += 1;
                }
                assert(pv.len() == l.packages@.len());
            },
            None => {},
        }
    }

    fn commit(&self, url: &str, reference: &GitRef) -> (r: Option<String>)
        ensures
            opt_view(r) == (if self@.git.contains_key((url@, reference@)) {
                Some(self@.git[(url@, reference@)])
            } else {
                None
            }),
    {
        let key = GitKey { url: url.to_owned(), reference: reference.dup() };
        match self.git.get(&key) {
            Some(c) => Some(c.clone()),
            None => None,
        }
    }
}

// ---------------------------------------------------------------------------
// Choosing a package for a dependency.

/// What was looked up for a choice.
pub enum Got {
    Nothing,
    /// The package of a path.
    Package(Package),
    /// The package of a commit.
    Commit(String, Package),
    /// The entries that an index has for the package.
    Entries(Vec<IndexEntry>),
}

pub enum GotView {
    Nothing,
    Package(PackageView),
    Commit(Seq<char>, PackageView),
    Entries(Seq<IndexEntryView>),
}

impl View for Got {
    type V = GotView;

    open spec fn view(&self) -> GotView {
        match self {
            Got::Nothing => GotView::Nothing,
            Got::Package(p) => GotView::Package(p@),
            Got::Commit(c, p) => GotView::Commit(c@, p@),
            Got::Entries(l) => GotView::Entries(views(l@)),
        }
    }
}

/// Where a choice stands.
#[derive(Debug)]
pub enum Pick {
    /// The node to use.
    Use(usize),
    /// A patch may stand in: choose for this dependency, and see whether it is accepted.
    TryPatch(DepDecl),
    /// The package in the directory is needed.
    NeedPath(String),
    /// The package of the repository is needed, at the commit where one is preferred.
    NeedGit { url: String, reference: GitRef, commit: Option<String> },
    /// The entries of the index are needed.
    NeedEntries { source: String, name: String },
    /// No version that the index has will do.
    NoVersion,
}

pub enum PickView {
    Use(int),
    TryPatch(DepDeclView),
    NeedPath(Seq<char>),
    NeedGit { url: Seq<char>, reference: GitRefView, commit: Option<Seq<char>> },
    NeedEntries { source: Seq<char>, name: Seq<char> },
    NoVersion,
}

impl View for Pick {
    type V = PickView;

    open spec fn view(&self) -> PickView {
        match self {
            Pick::Use(k) => PickView::Use(*k as int),
            Pick::TryPatch(d) => PickView::TryPatch(d@),
            Pick::NeedPath(p) => PickView::NeedPath(p@),
            Pick::NeedGit { url, reference, commit } => PickView::NeedGit {
                url: url@,
                reference: reference@,
                commit: opt_view(*commit),
            },
            Pick::NeedEntries { source, name } => PickView::NeedEntries { source: source@, name: name@ },
            Pick::NoVersion => PickView::NoVersion,
        }
    }
}

/// The node of a package that is loaded.
pub open spec fn loaded_node(p: PackageView, source: SourceIdView) -> NodeView {
    NodeView { package: Some(p), ..bare(PkgIdView { name: p.name, version: p.version, source }) }
}

/// The node with that use of it.
pub open spec fn used(g: Nodes, n: NodeView) -> (Nodes, PickView) {
    let (h, t) = with_node(g, n);
    (h, PickView::Use(t))
}

/// The first node from `k` on that is the package of the repository, as it is asked for.
pub open spec fn repo_at(g: Nodes, name: Seq<char>, url: Seq<char>, reference: GitRefView, k: int) -> Option<int>
    decreases g.len() - k,
{
    if k < 0 || k >= g.len() {
        None
    } else if g[k].id.name == name && (g[k].id.source matches SourceIdView::Git { url: u, reference: r, .. } && plain_url(u)
        == plain_url(url) && r == reference) {
        Some(k)
    } else {
        repo_at(g, name, url, reference, k + 1)
    }
}

pub open spec fn node_versions(g: Nodes) -> Seq<VersionView> {
    Seq::new(g.len(), |i: int| g[i].id.version)
}

/// The newest node of the registry's package that meets the requirement.
pub open spec fn registry_at(g: Nodes, source: Seq<char>, name: Seq<char>, req: Seq<char>) -> Option<int> {
    newest_upto(
        node_versions(g),
        |i: int| g[i].id.name == name && g[i].id.source == SourceIdView::Registry(source) && meets(req, g[i].id.version),
        g.len() as int,
    )
}

pub open spec fn locked_versions(l: Seq<LockedView>) -> Seq<VersionView> {
    Seq::new(l.len(), |i: int| l[i].0)
}

/// The newest preferred version that meets the requirement.
pub open spec fn preferred_at(l: Seq<LockedView>, req: Seq<char>) -> Option<int> {
    newest_upto(locked_versions(l), |i: int| meets(req, l[i].0), l.len() as int)
}

/// The versions that are preferred of a registry's package.
pub open spec fn preferred(f: PrefsView, source: Seq<char>, name: Seq<char>) -> Seq<LockedView> {
    if f.registry.contains_key((source, name)) {
        f.registry[(source, name)]
    } else {
        Seq::empty()
    }
}

/// An entry that is not yanked and meets the requirement.
pub open spec fn may_serve(e: IndexEntryView, req: Seq<char>) -> bool {
    !e.yanked && meets(req, e.vers)
}

/// An entry that the compiler can build, as far as the entry says.
pub open spec fn builds_with(e: IndexEntryView, rustc: VersionView) -> bool {
    e.rust_version matches Some(m) ==> !older(rustc, m)
}

/// The newest entry that will do: of those that the compiler can build where it matters and there are any,
/// else of all.
pub open spec fn entry_at(es: Seq<IndexEntryView>, req: Seq<char>, rustc: Option<VersionView>) -> Option<int> {
    let all = newest_upto(versions_of(es), |i: int| may_serve(es[i], req), es.len() as int);
    match rustc {
        None => all,
        Some(v) => match newest_upto(
            versions_of(es),
            |i: int| may_serve(es[i], req) && builds_with(es[i], v),
            es.len() as int,
        ) {
            Some(k) => Some(k),
            None => all,
        },
    }
}

/// The node of an entry of an index.
pub open spec fn entry_node(e: IndexEntryView, source: Seq<char>, name: Seq<char>) -> NodeView {
    NodeView {
        checksum: Some(e.cksum),
        summary: Some(SummaryView { deps: e.deps, features: e.features }),
        ..bare(PkgIdView { name, version: e.vers, source: SourceIdView::Registry(source) })
    }
}

/// The first declaration from `k` on for the package.
pub open spec fn decl_at(l: Seq<DepDeclView>, name: Seq<char>, k: int) -> Option<int>
    decreases l.len() - k,
{
    if k < 0 || k >= l.len() {
        None
    } else if l[k].name == name {
        Some(k)
    } else {
        decl_at(l, name, k + 1)
    }
}

/// What `[patch]` has for a package of a registry.
pub open spec fn patch_of(patches: Map<Seq<char>, Vec<DepDecl>>, source: Seq<char>, dep: DepDeclView) -> Option<DepDeclView> {
    if patches.contains_key(source) {
        let l = views(patches[source]@);
        match decl_at(l, dep.name, 0) {
            Some(k) => Some(DepDeclView { kind: dep.kind, ..l[k] }),
            None => None,
        }
    } else {
        None
    }
}

/// The package of a registry for a dependency: one that is there, a preferred one, or the newest that the
/// index has.
pub open spec fn pick_registry(
    g: Nodes,
    source: Seq<char>,
    dep: DepDeclView,
    f: PrefsView,
    rustc: Option<VersionView>,
    got: GotView,
) -> (Nodes, PickView) {
    let locked = preferred(f, source, dep.name);
    match registry_at(g, source, dep.name, dep.req) {
        Some(t) => (g, PickView::Use(t)),
        None => match preferred_at(locked, dep.req) {
            Some(k) => used(
                g,
                NodeView {
                    checksum: locked[k].1,
                    ..bare(
                        PkgIdView { name: dep.name, version: locked[k].0, source: SourceIdView::Registry(source) },
                    )
                },
            ),
            None => match got {
                GotView::Entries(es) => match entry_at(es, dep.req, rustc) {
                    Some(k) => used(g, entry_node(es[k], source, dep.name)),
                    None => (g, PickView::NoVersion),
                },
                _ => (g, PickView::NeedEntries { source, name: dep.name }),
            },
        },
    }
}

/// No entry that will do is newer than the one at `k`; where it is one that the compiler can build, none of those is.
pub open spec fn newest_entry(es: Seq<IndexEntryView>, req: Seq<char>, rustc: Option<VersionView>, k: int) -> bool {
    forall|j: int|
        0 <= j < es.len() && j != k && may_serve(#[trigger] es[j], req) && ((rustc matches Some(v) && builds_with(es[k], v))
            ==> builds_with(es[j], rustc.unwrap())) ==> !older(es[k].vers, es[j].vers)
}

/// The index decides: no patch, package of the graph or preferred version serves the dependency.
pub open spec fn index_decides(
    g: Nodes,
    dep: DepDeclView,
    f: PrefsView,
    patches: Map<Seq<char>, Vec<DepDecl>>,
    refused: bool,
) -> bool {
    dep.source matches DepSourceView::Registry(s) && (refused || patch_of(patches, s, dep).is_none()) && registry_at(
        g,
        s,
        dep.name,
        dep.req,
    ).is_none() && preferred_at(preferred(f, s, dep.name), dep.req).is_none()
}

/// The package for a dependency, from what is known so far.
pub open spec fn pick_of(
    g: Nodes,
    dep: DepDeclView,
    f: PrefsView,
    patches: Map<Seq<char>, Vec<DepDecl>>,
    refused: bool,
    rustc: Option<VersionView>,
    got: GotView,
) -> (Nodes, PickView) {
    match dep.source {
        DepSourceView::Path(p) => match path_at(g, p, 0) {
            Some(t) => (g, PickView::Use(t)),
            None => match got {
                GotView::Package(pkg) => used(g, loaded_node(pkg, SourceIdView::Path(p))),
                _ => (g, PickView::NeedPath(p)),
            },
        },
        DepSourceView::Git { url, reference } => match repo_at(g, dep.name, url, reference, 0) {
            Some(t) => (g, PickView::Use(t)),
            None => match got {
                GotView::Commit(commit, pkg) => used(g, loaded_node(pkg, SourceIdView::Git { url, reference, commit })),
                _ => (
                    g,
                    PickView::NeedGit {
                        url,
                        reference,
                        commit: if f.git.contains_key((url, reference)) {
                            Some(f.git[(url, reference)])
                        } else {
                            None
                        },
                    },
                ),
            },
        },
        DepSourceView::Registry(s) => match patch_of(patches, s, dep) {
            Some(d) => if refused {
                pick_registry(g, s, dep, f, rustc, got)
            } else {
                (g, PickView::TryPatch(d))
            },
            None => pick_registry(g, s, dep, f, rustc, got),
        },
    }
}

pub open spec fn version_opt(v: Option<&Version>) -> Option<VersionView> {
    match v {
        Some(v) => Some(v@),
        None => None,
    }
}

/// Keeps the newest so far: `k` unless it is older than what is there.
fn newer(best: Option<usize>, k: usize, v: &Version, of_best: Option<&Version>) -> (r: Option<usize>)
    requires
        best.is_some() == of_best.is_some(),
    ensures
        r == (match best {
            Some(b) => if older(v@, of_best.unwrap()@) {
                Some(b)
            } else {
                Some(k)
            },
            None => Some(k),
        }),
        (best matches Some(b) && of_best matches Some(w)) ==> ({
            let w = of_best.unwrap()@;
            &&& older(v@, w) ==> !older(w, v@)
            &&& !older(v@, w) ==> forall|c: VersionView| #[trigger] older(v@, c) ==> older(w, c)
        }),
{
    match (best, of_best) {
        (Some(b), Some(w)) => if is_older(v, w) {
            Some(b)
        } else {
            Some(k)
        },
        _ => Some(k),
    }
}

fn find_preferred(l: &Vec<Locked>, req: &VersionReq) -> (r: Option<usize>)
    ensures
        place_view(r) == preferred_at(views(l@), req@),
        r matches Some(k) ==> k < l@.len(),
{
    let ghost lv = views(l@);
    let ghost vs = locked_versions(lv);
    let ghost keep = |i: int| meets(req@, lv[i].0);
    let mut best: Option<usize> = None;
    let mut k: usize = 0;
    while k < l.len()
        invariant
            k <= l@.len(),
            lv == views(l@),
            vs == locked_versions(lv),
            keep == (|i: int| meets(req@, lv[i].0)),
            place_view(best) == newest_upto(vs, keep, k as int),
            best matches Some(b) ==> b < k,
        decreases l@.len() - k,
    {
        assert(lv[k as int] == l@[k as int]@);
        if req_matches(req, &l[k].version) {
            assert(keep(k as int));
            let of_best: Option<&Version> = match best {
                Some(b) => {
                    assert(lv[b as int] == l@[b as int]@);
                    Some(&l[b].version)
                },
                None => None,
            };
            best = newer(best, k, &l[k].version, of_best);
        } else {
            assert(!keep(k as int));
        }
        k += 1;
    }
    assert(lv.len() == l@.len());
    best
}

fn find_entry_among(es: &Vec<IndexEntry>, req: &VersionReq, rustc: Option<&Version>) -> (r: Option<usize>)
    ensures
        r matches Some(k) ==> k < es@.len(),
        place_view(r) == (match rustc {
            Some(v) => newest_upto(
                versions_of(views(es@)),
                |i: int| may_serve(views(es@)[i], req@) && builds_with(views(es@)[i], v@),
                es@.len() as int,
            ),
            None => newest_upto(versions_of(views(es@)), |i: int| may_serve(views(es@)[i], req@), es@.len() as int),
        }),
        r matches Some(k) ==> forall|j: int|
            0 <= j < es@.len() && j != k && may_serve(#[trigger] views(es@)[j], req@) && (rustc matches Some(v) ==> builds_with(
                views(es@)[j],
                v@,
            )) ==> !older(views(es@)[k as int].vers, views(es@)[j].vers),
{
    let ghost ev = views(es@);
    let ghost vs = versions_of(ev);
    let ghost plain = |i: int| may_serve(ev[i], req@);
    let ghost strict = |i: int| may_serve(ev[i], req@) && builds_with(ev[i], rustc.unwrap()@);
    let ghost keep = if rustc.is_some() {
        strict
    } else {
        plain
    };
    let mut best: Option<usize> = None;
    let mut k: usize = 0;
    while k < es.len()
        invariant
            k <= es@.len(),
            ev == views(es@),
            vs == versions_of(ev),
            plain == (|i: int| may_serve(ev[i], req@)),
            strict == (|i: int| may_serve(ev[i], req@) && builds_with(ev[i], rustc.unwrap()@)),
            keep == (if rustc.is_some() {
                strict
            } else {
                plain
            }),
            place_view(best) == newest_upto(vs, keep, k as int),
            best matches Some(b) ==> b < k && none_newer(vs, keep, b as int, k as int),
        decreases es@.len() - k,
    {
        assert(ev[k as int] == es@[k as int]@);
        proof {
            lemma_newest(vs, keep, k as int);
        }
        let builds: bool = match (&es[k].rust_version, rustc) {
            (Some(m), Some(v)) => !is_older(v, m),
            _ => true,
        };
        assert(rustc.is_some() ==> builds == builds_with(ev[k as int], rustc.unwrap()@));
        if !es[k].yanked && req_matches(req, &es[k].vers) && builds {
            assert(keep(k as int));
            let of_best: Option<&Version> = match best {
                Some(b) => {
                    assert(ev[b as int] == es@[b as int]@);
                    Some(&es[b].vers)
                },
                None => None,
            };
            best = newer(best, k, &es[k].vers, of_best);
        } else {
            assert(!keep(k as int));
        }
        k += 1;
    }
    assert(ev.len() == es@.len());
    proof {
        if let Some(v) = rustc {
            assert(strict =~= (|i: int| may_serve(views(es@)[i], req@) && builds_with(views(es@)[i], v@)));
        } else {
            assert(plain =~= (|i: int| may_serve(views(es@)[i], req@)));
        }
    }
    proof {
        if let Some(b) = best {
            assert forall|j: int|
                0 <= j < es@.len() && j != b && may_serve(#[trigger] ev[j], req@) && (rustc matches Some(v) ==> builds_with(ev[j], v@)) implies !older(
                ev[b as int].vers,
                ev[j].vers,
            ) by {
                assert(keep(j));
            }
        }
    }
    best
}

fn find_entry(es: &Vec<IndexEntry>, req: &VersionReq, rustc: Option<&Version>) -> (r: Option<usize>)
    ensures
        place_view(r) == entry_at(views(es@), req@, version_opt(rustc)),
        r matches Some(k) ==> k < es@.len() && newest_entry(views(es@), req@, version_opt(rustc), k as int),
{
    assert(views(es@).len() == es@.len());
    let all = find_entry_among(es, req, None);
    proof {
        if let Some(v) = rustc {
            let ev = views(es@);
            let keep = |i: int| may_serve(ev[i], req@) && builds_with(ev[i], v@);
            lemma_newest(versions_of(ev), keep, ev.len() as int);
            lemma_newest(versions_of(ev), |i: int| may_serve(ev[i], req@), ev.len() as int);
            assert forall|i: int| 0 <= i < ev.len() implies keep(i) == (may_serve(#[trigger] ev[i], req@) && builds_with(ev[i], v@)) by {}
        }
    }
    match rustc {
        None => all,
        Some(_) => match find_entry_among(es, req, rustc) {
            Some(k) => Some(k),
            None => all,
        },
    }
}

pub(crate) fn dup_features(m: &StrMap<Vec<String>>) -> (r: StrMap<Vec<String>>)
    ensures
        feature_lists(r@) == feature_lists(m@),
{
    let mut out: StrMap<Vec<String>> = StrMap::new();
    let names = m.keys();
    let ghost nv = views(names@);
    let mut k: usize = 0;
    while k < names.len()
        invariant
            k <= names@.len(),
            nv == views(names@),
            nv.to_set() == m@.dom(),
            forall|x: Seq<char>| #[trigger] out@.contains_key(x) == nv.take(k as int).contains(x),
            forall|x: Seq<char>| #![trigger out@[x]] out@.contains_key(x) ==> views(out@[x]@) == views(m@[x]@),
        decreases names@.len() - k,
    {
        let name = names[k].as_str();
        let ghost a = nv.take(k as int);
        let ghost b = nv.take(k + 1);
        assert(nv[k as int] == name@);
        assert(nv.contains(name@));
        assert(m@.dom().contains(name@));
        assert(b =~= a.push(name@));
        assert forall|x: Seq<char>| #[trigger] b.contains(x) == (a.contains(x) || x == name@) by {
            if a.contains(x) {
                let i = a.index_of(x);
                assert(b[i] == x);
            }
            assert(b[k as int] == name@);
        }
        if let Some(v) = m.get(name) {
            out.insert(name, dup_list(v));
        }
        k += 1;
    }
    proof {
        assert(nv.take(k as int) =~= nv);
        let want = feature_lists(m@);
        let got = feature_lists(out@);
        assert forall|x: Seq<char>| #[trigger] got.contains_key(x) == want.contains_key(x) by {
            assert(out@.contains_key(x) == got.contains_key(x));
            assert(nv.to_set().contains(x) == nv.contains(x));
        }
        assert forall|x: Seq<char>| #[trigger] got.contains_key(x) implies got[x] == want[x] by {
            assert(out@.contains_key(x));
            assert(got[x] == views(out@[x]@));
            assert(want.contains_key(x));
        }
        assert(got =~= want);
    }
    out
}

pub(crate) fn dup_decls(l: &[DepDecl]) -> (r: Vec<DepDecl>)
    ensures
        views(r@) == views(l@),
        r@.len() == l@.len(),
{
    let mut out: Vec<DepDecl> = Vec::new();
    let mut k: usize = 0;
    while k < l.len()
        invariant
            k <= l@.len(),
            out@.len() == k,
            forall|j: int| 0 <= j < k ==> (#[trigger] out@[j])@ == l@[j]@,
        decreases l@.len() - k,
    {
        out.push(l[k].dup());
        k += 1;
    }
    assert(views(out@) =~= views(l@));
    out
}

fn summary_of(e: &IndexEntry) -> (r: Summary)
    ensures
        r@ == (SummaryView { deps: e@.deps, features: e@.features }),
{
    Summary { deps: dup_decls(e.deps.as_slice()), features: dup_features(&e.features) }
}

fn find_patch(patches: &Patches, source: &str, dep: &DepDecl) -> (r: Option<DepDecl>)
    ensures
        opt_view(r) == patch_of(patches@, source@, dep@),
{
    match patches.get(source) {
        None => None,
        Some(l) => {
            let ghost lv = views(l@);
            let mut k: usize = 0;
            while k < l.len()
                invariant
                    k <= l@.len(),
                    lv == views(l@),
                    patches@.contains_key(source@),
                    *l == patches@[source@],
                    decl_at(lv, dep.name@, 0) == decl_at(lv, dep.name@, k as int),
                decreases l@.len() - k,
            {
                assert(lv[k as int] == l@[k as int]@);
                if same(l[k].name.as_str(), dep.name.as_str()) {
                    let mut d = l[k].dup();
                    d.kind = dep.kind;
                    return Some(d);
                }
                k += 1;
            }
            assert(lv.len() == l@.len());
            None
        },
    }
}

impl Graph {
    fn repo_node(&self, name: &str, url: &str, reference: &GitRef) -> (r: Option<usize>)
        ensures
            place_view(r) == repo_at(self@, name@, url@, reference@, 0),
            r matches Some(k) ==> k < self.nodes@.len(),
    {
        let mut k: usize = 0;
        while k < self.nodes.len()
            invariant
                k <= self.nodes@.len(),
                repo_at(self@, name@, url@, reference@, 0) == repo_at(self@, name@, url@, reference@, k as int),
            decreases self.nodes@.len() - k,
        {
            assert(self@[k as int] == self.nodes@[k as int]@);
            let hit: bool = match &self.nodes[k].id.source {
                SourceId::Git { url: u, reference: r, .. } => same_git_url(u.as_str(), url) && r.same_as(reference),
                _ => false,
            };
            if hit && same(self.nodes[k].id.name.as_str(), name) {
                return Some(k);
            }
            k += 1;
        }
        None
    }

    fn registry_node(&self, source: &str, name: &str, req: &VersionReq) -> (r: Option<usize>)
        ensures
            place_view(r) == registry_at(self@, source@, name@, req@),
            r matches Some(k) ==> k < self.nodes@.len(),
    {
        let ghost g = self@;
        let ghost vs = node_versions(g);
        let ghost keep = |i: int|
            g[i].id.name == name@ && g[i].id.source == SourceIdView::Registry(source@) && meets(req@, g[i].id.version);
        let mut best: Option<usize> = None;
        let mut k: usize = 0;
        while k < self.nodes.len()
            invariant
                k <= self.nodes@.len(),
                g == self@,
                vs == node_versions(g),
                keep == (|i: int|
                    g[i].id.name == name@ && g[i].id.source == SourceIdView::Registry(source@) && meets(
                        req@,
                        g[i].id.version,
                    )),
                place_view(best) == newest_upto(vs, keep, k as int),
                best matches Some(b) ==> b < k,
            decreases self.nodes@.len() - k,
        {
            assert(g[k as int] == self.nodes@[k as int]@);
            let from: bool = match &self.nodes[k].id.source {
                SourceId::Registry(s) => same(s.as_str(), source),
                _ => false,
            };
            if from && same(self.nodes[k].id.name.as_str(), name) && req_matches(req, &self.nodes[k].id.version) {
                assert(keep(k as int));
                let of_best: Option<&Version> = match best {
                    Some(b) => {
                        assert(g[b as int] == self.nodes@[b as int]@);
                        Some(&self.nodes[b].id.version)
                    },
                    None => None,
                };
                best = newer(best, k, &self.nodes[k].id.version, of_best);
            } else {
                assert(!keep(k as int));
            }
            k += 1;
        }
        best
    }

    fn select_registry(&mut self, source: &str, dep: &DepDecl, prefs: &Prefs, rustc: Option<&Version>, got: Got) -> (r: Pick)
        ensures
            pick_registry(old(self)@, source@, dep@, prefs@, version_opt(rustc), got@) == (final(self)@, r@),
            registry_at(old(self)@, source@, dep@.name, dep@.req).is_none() && preferred_at(
                preferred(prefs@, source@, dep@.name),
                dep@.req,
            ).is_none() ==> (got@ matches GotView::Entries(es) ==> (entry_at(es, dep@.req, version_opt(rustc)) matches Some(k)
                ==> newest_entry(es, dep@.req, version_opt(rustc), k))),
            r matches Pick::Use(k) ==> k < final(self).nodes@.len(),
            old(self).wf() ==> final(self).wf(),
            old(self).distinct() ==> final(self).distinct(),
    {
        if let Some(t) = self.registry_node(source, dep.name.as_str(), &dep.req) {
            return Pick::Use(t);
        }
        let key = RegistryKey { source: source.to_owned(), name: dep.name.clone() };
        if let Some(l) = prefs.registry.get(&key) {
            assert(preferred(prefs@, source@, dep.name@) == views(l@));
            if let Some(k) = find_preferred(l, &dep.req) {
                assert(views(l@)[k as int] == l@[k as int]@);
                let mut node = Node::new(
                    PkgId {
                        name: dep.name.clone(),
                        version: l[k].version.dup(),
                        source: SourceId::Registry(source.to_owned()),
                    },
                );
                node.checksum = dup_text(&l[k].checksum);
                return Pick::Use(self.add(node));
            }
        }
        match got {
            Got::Entries(es) => match find_entry(&es, &dep.req, rustc) {
                None => Pick::NoVersion,
                Some(k) => {
                    assert(views(es@)[k as int] == es@[k as int]@);
                    let e = &es[k];
                    let mut node = Node::new(
                        PkgId {
                            name: dep.name.clone(),
                            version: e.vers.dup(),
                            source: SourceId::Registry(source.to_owned()),
                        },
                    );
                    node.checksum = Some(e.cksum.clone());
                    node.summary = Some(summary_of(e));
                    Pick::Use(self.add(node))
                },
            },
            _ => Pick::NeedEntries { source: source.to_owned(), name: dep.name.clone() },
        }
    }

    /// The package for a dependency, from what is known so far, or what has to be looked up. `refused` is
    /// whether a patch was tried and did not fit. `rustc` is the compiler that versions should build with,
    /// where that matters.
    pub fn select(
        &mut self,
        dep: &DepDecl,
        prefs: &Prefs,
        patches: &Patches,
        refused: bool,
        rustc: Option<&Version>,
        got: Got,
    ) -> (r: Pick)
        ensures
            pick_of(old(self)@, dep@, prefs@, patches@, refused, version_opt(rustc), got@) == (final(self)@, r@),
            index_decides(old(self)@, dep@, prefs@, patches@, refused) ==> (got@ matches GotView::Entries(es) ==> (entry_at(
                es,
                dep@.req,
                version_opt(rustc),
            ) matches Some(k) ==> newest_entry(es, dep@.req, version_opt(rustc), k))),
            r matches Pick::Use(k) ==> k < final(self).nodes@.len(),
            old(self).wf() ==> final(self).wf(),
            old(self).distinct() ==> final(self).distinct(),
    {
        match &dep.source {
            DepSource::Path(p) => {
                if let Some(t) = self.path_node(p.as_str()) {
                    return Pick::Use(t);
                }
                match got {
                    Got::Package(pkg) => {
                        let ghost pv = pkg@;
                        let mut node = Node::new(
                            PkgId {
                                name: pkg.name.clone(),
                                version: pkg.version.dup(),
                                source: SourceId::Path(p.clone()),
                            },
                        );
                        node.package = Some(pkg);
                        assert(node@ == loaded_node(pv, SourceIdView::Path(p@)));
                        Pick::Use(self.add(node))
                    },
                    _ => Pick::NeedPath(p.clone()),
                }
            },
            DepSource::Git { url, reference } => {
                if let Some(t) = self.repo_node(dep.name.as_str(), url.as_str(), reference) {
                    return Pick::Use(t);
                }
                match got {
                    Got::Commit(commit, pkg) => {
                        let ghost pv = pkg@;
                        let ghost c = commit@;
                        let mut node = Node::new(
                            PkgId {
                                name: pkg.name.clone(),
                                version: pkg.version.dup(),
                                source: SourceId::Git { url: url.clone(), reference: reference.dup(), commit },
                            },
                        );
                        node.package = Some(pkg);
                        assert(node@ == loaded_node(
                            pv,
                            SourceIdView::Git { url: url@, reference: reference@, commit: c },
                        ));
                        Pick::Use(self.add(node))
                    },
                    _ => Pick::NeedGit {
                        url: url.clone(),
                        reference: reference.dup(),
                        commit: prefs.commit(url.as_str(), reference),
                    },
                }
            },
            DepSource::Registry(s) => {
                if let Some(d) = find_patch(patches, s.as_str(), dep) {
                    if !refused {
                        return Pick::TryPatch(d);
                    }
                }
                self.select_registry(s.as_str(), dep, prefs, rustc, got)
            },
        }
    }

    /// Whether a patch that was chosen meets the requirement. If so, it stands in for the dependency.
    pub fn accept_patch(&mut self, t: usize, dep: &DepDecl) -> (r: bool)
        requires
            t < old(self).nodes@.len(),
        ensures
            r == (dep@.source is Registry && meets(dep@.req, old(self)@[t as int].id.version)),
            final(self)@ == (if r {
                marked(old(self)@, t as int, dep@.source->Registry_0)
            } else {
                old(self)@
            }),
            final(self).nodes@.len() == old(self).nodes@.len(),
            old(self).wf() ==> final(self).wf(),
            old(self).distinct() ==> final(self).distinct(),
    {
        assert(self@[t as int] == self.nodes@[t as int]@);
        match &dep.source {
            DepSource::Registry(s) => if req_matches(&dep.req, &self.nodes[t].id.version) {
                self.mark(t, s.as_str());
                true
            } else {
                false
            },
            _ => false,
        }
    }

    /// Takes in what an index has for a node: the dependencies and features of its version, and the checksum
    /// where it is not known. `false` where the index does not have the version.
    pub fn summarize(&mut self, u: usize, entries: &Vec<IndexEntry>) -> (r: bool)
        requires
            u < old(self).nodes@.len(),
        ensures
            match version_at(views(entries@), old(self)@[u as int].id.version, 0) {
                None => !r && final(self)@ == old(self)@,
                Some(k) => r && final(self)@ == old(self)@.update(
                    u as int,
                    summarized(old(self)@[u as int], views(entries@)[k]),
                ),
            },
            final(self).nodes@.len() == old(self).nodes@.len(),
            old(self).wf() ==> final(self).wf(),
            old(self).distinct() ==> final(self).distinct(),
    {
        let ghost was = *self;
        let ghost ev = views(entries@);
        let ghost want = was@[u as int].id.version;
        assert(was@[u as int] == was.nodes@[u as int]@);
        let mut k: usize = 0;
        while k < entries.len()
            invariant
                *self == was,
                was == *old(self),
                u < self.nodes@.len(),
                want == self.nodes@[u as int].id.version@,
                want == was@[u as int].id.version,
                k <= entries@.len(),
                ev == views(entries@),
                version_at(ev, want, 0) == version_at(ev, want, k as int),
            decreases entries@.len() - k,
        {
            assert(ev[k as int] == entries@[k as int]@);
            if entries[k].vers.same_as(&self.nodes[u].id.version) {
                let mut node: Node = self.nodes.remove(u);
                if node.checksum.is_none() {
                    node.checksum = Some(entries[k].cksum.clone());
                }
                node.summary = Some(summary_of(&entries[k]));
                self.nodes.insert(u, node);
                proof {
                    assert(was@[u as int] == was.nodes@[u as int]@);
                    assert(self.nodes@ =~= was.nodes@.update(u as int, node));
                    assert(node@ == summarized(was@[u as int], ev[k as int]));
                    assert(self@ =~= was@.update(u as int, node@));
                    lemma_same_shape(was, *self);
                }
                return true;
            }
            k += 1;
        }
        assert(ev.len() == entries@.len());
        false
    }

    /// Takes in the manifest of a node.
    pub fn set_package(&mut self, u: usize, pkg: Package)
        requires
            u < old(self).nodes@.len(),
        ensures
            final(self)@ == old(self)@.update(u as int, NodeView { package: Some(pkg@), ..old(self)@[u as int] }),
            final(self).nodes@.len() == old(self).nodes@.len(),
            old(self).wf() ==> final(self).wf(),
            old(self).distinct() ==> final(self).distinct(),
    {
        let ghost was = *self;
        let ghost pv = pkg@;
        let mut node: Node = self.nodes.remove(u);
        node.package = Some(pkg);
        self.nodes.insert(u, node);
        proof {
            assert(was@[u as int] == was.nodes@[u as int]@);
            assert(self.nodes@ =~= was.nodes@.update(u as int, node));
            assert(self@ =~= was@.update(u as int, NodeView { package: Some(pv), ..was@[u as int] }));
            lemma_same_shape(was, *self);
        }
    }
}

/// The first entry from `k` on with the version.
pub open spec fn version_at(es: Seq<IndexEntryView>, v: VersionView, k: int) -> Option<int>
    decreases es.len() - k,
{
    if k < 0 || k >= es.len() {
        None
    } else if es[k].vers == v {
        Some(k)
    } else {
        version_at(es, v, k + 1)
    }
}

pub open spec fn summarized(n: NodeView, e: IndexEntryView) -> NodeView {
    NodeView {
        checksum: match n.checksum {
            Some(c) => Some(c),
            None => Some(e.cksum),
        },
        summary: Some(SummaryView { deps: e.deps, features: e.features }),
        ..n
    }
}

pub proof fn lemma_same_shape(a: Graph, b: Graph)
    requires
        a.nodes@.len() == b.nodes@.len(),
        forall|n: int| 0 <= n < a.nodes@.len() ==> (#[trigger] a.nodes@[n]).id@ == b.nodes@[n].id@,
        forall|n: int| 0 <= n < a.nodes@.len() ==> (#[trigger] a.nodes@[n]).edges@ == b.nodes@[n].edges@,
    ensures
        a.wf() ==> b.wf(),
        a.distinct() ==> b.distinct(),
{
    if a.wf() {
        assert forall|n: int, k: int|
            0 <= n < b.nodes@.len() && 0 <= k < b.nodes@[n].edges@.len() implies (#[trigger] b.nodes@[n].edges@[k])
            < b.nodes@.len() by {
            assert(a.nodes@[n].edges@[k] < a.nodes@.len());
        }
    }
    if a.distinct() {
        assert forall|x: int, y: int| 0 <= x < y < b.nodes@.len() implies (#[trigger] b.nodes@[x]).id@ != (
        #[trigger] b.nodes@[y]).id@ by {
            assert(a.nodes@[x].id@ != a.nodes@[y].id@);
        }
    }
}

// ---------------------------------------------------------------------------
// Lock mode.

pub type PairView = (Seq<char>, Seq<char>);

/// By the source, then by the name.
pub open spec fn key_before(a: PairView, b: PairView) -> bool {
    before(a.0, b.0) || (a.0 == b.0 && before(a.1, b.1))
}

/// Each pair comes before the next.
pub open spec fn rising_keys(s: Seq<PairView>) -> bool {
    forall|i: int, j: int| 0 <= i < j < s.len() ==> key_before(#[trigger] s[i], #[trigger] s[j])
}

fn is_key_before(a: &RegistryKey, b: &RegistryKey) -> (r: bool)
    ensures
        r == key_before(a@, b@),
{
    is_before(a.source.as_str(), b.source.as_str()) || (same(a.source.as_str(), b.source.as_str()) && is_before(
        a.name.as_str(),
        b.name.as_str(),
    ))
}

proof fn lemma_key_order(a: PairView, b: PairView, c: PairView)
    ensures
        !key_before(a, a),
        key_before(a, b) && key_before(b, c) ==> key_before(a, c),
        key_before(a, b) || key_before(b, a) || a == b,
{
    lemma_before_irreflexive(a.0);
    lemma_before_irreflexive(a.1);
    lemma_before_total(a.0, b.0);
    lemma_before_total(a.1, b.1);
    if before(a.0, b.0) && before(b.0, c.0) {
        lemma_before_transitive(a.0, b.0, c.0);
    }
    if before(a.1, b.1) && before(b.1, c.1) {
        lemma_before_transitive(a.1, b.1, c.1);
    }
}

fn insert_key(v: &mut Vec<RegistryKey>, source: &str, name: &str)
    requires
        rising_keys(views(old(v)@)),
    ensures
        rising_keys(views(final(v)@)),
        forall|x: PairView| #[trigger]
            views(final(v)@).contains(x) == (views(old(v)@).contains(x) || x == (source@, name@)),
{
    let key = RegistryKey { source: source.to_owned(), name: name.to_owned() };
    let ghost was = views(v@);
    let ghost kv = key@;
    let mut i: usize = 0;
    while i < v.len() && is_key_before(&v[i], &key)
        invariant
            i <= v@.len(),
            v@ == old(v)@,
            was == views(v@),
            kv == key@,
            forall|j: int| 0 <= j < i ==> key_before(#[trigger] was[j], kv),
        decreases v@.len() - i,
    {
        assert(was[i as int] == v@[i as int]@);
        i += 1;
    }
    if i < v.len() {
        assert(was[i as int] == v@[i as int]@);
        if v[i].same_key(&key) {
            assert(was.contains(kv));
            return;
        }
    }
    v.insert(i, key);
    proof {
        let now = views(v@);
        assert(now =~= was.insert(i as int, kv));
        assert(was.len() == old(v)@.len());
        assert forall|x: PairView| #[trigger] now.contains(x) == (was.contains(x) || x == kv) by {
            if now.contains(x) {
                let k = now.index_of(x);
                assert(now[k] == x);
                if k < i {
                    assert(was[k] == x);
                } else if k > i {
                    assert(was[k - 1] == x);
                }
            }
            if was.contains(x) {
                let k = was.index_of(x);
                assert(was[k] == x);
                if k < i {
                    assert(now[k] == x);
                } else {
                    assert(now[k + 1] == x);
                }
            }
            assert(now[i as int] == kv);
        }
        assert forall|j: int| i <= j < was.len() implies key_before(kv, #[trigger] was[j]) by {
            lemma_key_order(was[i as int], kv, kv);
            assert(key_before(kv, was[i as int]));
            if j > i {
                assert(key_before(was[i as int], was[j]));
                lemma_key_order(kv, was[i as int], was[j]);
            }
        }
        assert forall|a: int, b: int| 0 <= a < b < now.len() implies key_before(#[trigger] now[a], #[trigger] now[b]) by {
            let a0 = if a < i { a } else { a - 1 };
            let b0 = if b < i { b } else { b - 1 };
            if a != i && b != i {
                assert(now[a] == was[a0] && now[b] == was[b0]);
                assert(key_before(was[a0], was[b0]));
            } else if a == i {
                assert(now[b] == was[b0]);
            } else {
                assert(now[a] == was[a0]);
            }
        }
    }
}

/// A registry's package whose entries are worth having at hand: an activated dependency that has no node
/// yet, or a node whose data is not there.
pub open spec fn wanted(g: Graph, out: Outcome, x: PairView) -> bool {
    ||| exists|k: int|
        0 <= k < out.missing@.len() && wanted_dep(g, #[trigger] out.missing@[k], x)
    ||| exists|k: int| 0 <= k < out.unloaded@.len() && wanted_node(g, #[trigger] out.unloaded@[k], x)
}

pub open spec fn wanted_dep(g: Graph, at: (usize, usize), x: PairView) -> bool {
    let d = g.nodes@[at.0 as int].decls()[at.1 as int];
    d.source@ == DepSourceView::Registry(x.0) && d.name@ == x.1
}

pub open spec fn wanted_node(g: Graph, u: usize, x: PairView) -> bool {
    g.nodes@[u as int].id.source@ == SourceIdView::Registry(x.0) && g.nodes@[u as int].id.name@ == x.1
}

fn wanted_names(g: &Graph, out: &Outcome) -> (r: Vec<RegistryKey>)
    requires
        within(*g, *out),
    ensures
        names_wanted(*g, *out, views(r@)),
{
    let mut r: Vec<RegistryKey> = Vec::new();
    let mut k: usize = 0;
    while k < out.missing.len()
        invariant
            within(*g, *out),
            k <= out.missing@.len(),
            rising_keys(views(r@)),
            forall|x: PairView| #[trigger]
                views(r@).contains(x) == (exists|j: int| 0 <= j < k && wanted_dep(*g, #[trigger] out.missing@[j], x)),
        decreases out.missing@.len() - k,
    {
        let (n, i) = out.missing[k];
        assert(out.missing@[k as int].0 < g.nodes@.len());
        let d = &g.nodes[n].deps()[i];
        let ghost was = views(r@);
        if let DepSource::Registry(s) = &d.source {
            insert_key(&mut r, s.as_str(), d.name.as_str());
        }
        assert forall|x: PairView| #[trigger] views(r@).contains(x) == (exists|j: int|
            0 <= j < k + 1 && wanted_dep(*g, #[trigger] out.missing@[j], x)) by {
            if wanted_dep(*g, out.missing@[k as int], x) {
                assert(d.source is Registry);
            }
            if was.contains(x) {
                let j = choose|j: int| 0 <= j < k && wanted_dep(*g, #[trigger] out.missing@[j], x);
                assert(wanted_dep(*g, out.missing@[j], x));
            }
            if exists|j: int| 0 <= j < k + 1 && wanted_dep(*g, #[trigger] out.missing@[j], x) {
                let j = choose|j: int| 0 <= j < k + 1 && wanted_dep(*g, #[trigger] out.missing@[j], x);
                if j < k {
                    assert(was.contains(x));
                }
            }
        }
        k += 1;
    }
    let ghost half = views(r@);
    let mut u: usize = 0;
    while u < out.unloaded.len()
        invariant
            within(*g, *out),
            u <= out.unloaded@.len(),
            rising_keys(views(r@)),
            forall|x: PairView| #[trigger]
                views(r@).contains(x) == (half.contains(x) || exists|j: int|
                    0 <= j < u && wanted_node(*g, #[trigger] out.unloaded@[j], x)),
        decreases out.unloaded@.len() - u,
    {
        assert(out.unloaded@[u as int] < g.nodes@.len());
        let node = &g.nodes[out.unloaded[u]];
        let ghost was = views(r@);
        if let SourceId::Registry(s) = &node.id.source {
            insert_key(&mut r, s.as_str(), node.id.name.as_str());
        }
        assert forall|x: PairView| #[trigger] views(r@).contains(x) == (half.contains(x) || exists|j: int|
            0 <= j < u + 1 && wanted_node(*g, #[trigger] out.unloaded@[j], x)) by {
            if wanted_node(*g, out.unloaded@[u as int], x) {
                assert(node.id.source is Registry);
            }
            if was.contains(x) && !half.contains(x) {
                let j = choose|j: int| 0 <= j < u && wanted_node(*g, #[trigger] out.unloaded@[j], x);
                assert(wanted_node(*g, out.unloaded@[j], x));
            }
            if exists|j: int| 0 <= j < u + 1 && wanted_node(*g, #[trigger] out.unloaded@[j], x) {
                let j = choose|j: int| 0 <= j < u + 1 && wanted_node(*g, #[trigger] out.unloaded@[j], x);
                if j < u {
                    assert(was.contains(x));
                }
            }
        }
        u += 1;
    }
    r
}

/// How far a resolution is.
#[derive(Debug)]
pub enum LockStep {
    /// Every activated dependency has a node, and every activated node its data.
    Done(Outcome),
    /// Data has to be loaded and packages chosen. `names` are the entries to have at hand for that.
    Pending { out: Outcome, names: Vec<RegistryKey> },
}

/// Why a resolution fails.
#[derive(Debug)]
pub enum LockError {
    Unknown(UnknownFeature),
    /// It does not come to an end.
    Stuck,
}

/// How many rounds a resolution may take.
pub const ROUNDS: usize = 10000;

/// What a lockfile asks of each member: every feature, the default ones too.
pub open spec fn asks_all(reqs: Seq<Request>, members: Seq<usize>) -> bool {
    reqs.len() == members.len() && forall|k: int|
        0 <= k < reqs.len() ==> (#[trigger] reqs[k]).node == members[k] && reqs[k].features@.len() == 0
            && reqs[k].all_features && reqs[k].default
}

/// How a lockfile takes the graph: one side, every platform, with what is only for tests of members.
pub open spec fn lock_opts(o: EngineOpts<'_>, members: Seq<usize>) -> bool {
    !o.two_sides && o.platforms.is_none() && o.dev_for@ == members && !o.needs_package && o.weak_activates
}

/// The outcome is that of asking every member for everything.
pub open spec fn lock_outcome(g: Graph, members: Seq<usize>, out: Outcome) -> bool {
    exists|o: EngineOpts<'_>, reqs: Seq<Request>|
        lock_opts(o, members) && asks_all(reqs, members) && #[trigger] tells(g, o, reqs, out)
}

/// A package is asked for a feature that it does not have.
pub open spec fn lock_unknown(g: Graph, members: Seq<usize>, e: UnknownFeature) -> bool {
    exists|o: EngineOpts<'_>, reqs: Seq<Request>|
        lock_opts(o, members) && asks_all(reqs, members) && #[trigger] reports(g, o, reqs, e)
}

/// The names are those that are wanted, each once, in ascending order.
pub open spec fn names_wanted(g: Graph, out: Outcome, names: Seq<PairView>) -> bool {
    rising_keys(names) && forall|x: PairView| #[trigger] names.contains(x) == wanted(g, out, x)
}

fn lock_requests(members: &Vec<usize>) -> (r: Vec<Request>)
    ensures
        asks_all(r@, members@),
{
    let mut r: Vec<Request> = Vec::new();
    let mut k: usize = 0;
    while k < members.len()
        invariant
            k <= members@.len(),
            r@.len() == k,
            forall|j: int|
                0 <= j < k ==> (#[trigger] r@[j]).node == members@[j] && r@[j].features@.len() == 0 && r@[j].all_features
                    && r@[j].default,
        decreases members@.len() - k,
    {
        r.push(Request { node: members[k], features: Vec::new(), all_features: true, default: true });
        k += 1;
    }
    r
}

/// What `Cargo.lock` records: every reachable dep, all features, dev-dependencies, every platform. One round
/// of it: whether everything is there, or what is left to load and to choose.
pub fn resolve_lock_mode(g: &Graph, members: &Vec<usize>, round: usize) -> (r: Result<LockStep, LockError>)
    requires
        g.wf(),
        forall|k: int| 0 <= k < members@.len() ==> #[trigger] members@[k] < g.nodes@.len(),
    ensures
        match r {
            Err(LockError::Stuck) => round >= ROUNDS,
            Err(LockError::Unknown(e)) => round < ROUNDS && lock_unknown(*g, members@, e),
            Ok(LockStep::Done(out)) => round < ROUNDS && lock_outcome(*g, members@, out) && within(*g, out)
                && out.missing@.len() == 0 && out.unloaded@.len() == 0,
            Ok(LockStep::Pending { out, names }) => round < ROUNDS && lock_outcome(*g, members@, out) && within(*g, out) && (
            out.missing@.len() > 0 || out.unloaded@.len() > 0) && names_wanted(*g, out, views(names@)),
        },
{
    if round >= ROUNDS {
        return Err(LockError::Stuck);
    }
    let reqs = lock_requests(members);
    let opts = EngineOpts {
        two_sides: false,
        platforms: None,
        dev_for: members,
        needs_package: false,
        weak_activates: true,
    };
    assert(lock_opts(opts, members@));
    match features::resolve(g, &reqs, &opts) {
        Err(e) => {
            proof {
                assert(reports(*g, opts, reqs@, e));
                assert(lock_unknown(*g, members@, e));
            }
            Err(LockError::Unknown(e))
        },
        Ok(out) => {
            proof {
                features::lemma_outcome_within(*g, opts, reqs@, out);
                assert(tells(*g, opts, reqs@, out));
                assert(lock_outcome(*g, members@, out));
            }
            if out.missing.len() == 0 && out.unloaded.len() == 0 {
                return Ok(LockStep::Done(out));
            }
            let names = wanted_names(g, &out);
            Ok(LockStep::Pending { out, names })
        },
    }
}

impl Graph {
    /// Links a dependency of `n` to the package that was chosen for it; whether that satisfies it.
    pub fn settle(&mut self, n: usize, dep: &DepDecl, t: usize) -> (r: bool)
        requires
            old(self).wf(),
            n < old(self).nodes@.len(),
            t < old(self).nodes@.len(),
        ensures
            final(self)@ == with_edge(old(self)@, n as int, t as int),
            final(self).wf(),
            final(self).nodes@.len() == old(self).nodes@.len(),
            old(self).distinct() ==> final(self).distinct(),
            r == target_at(final(self)@, n as int, dep@).is_some(),
    {
        self.link(n, t);
        proof {
            lemma_target_at(*self, n as int, *dep);
        }
        self.target_of(n, dep).is_some()
    }
}

// ---------------------------------------------------------------------------
// Writing the lockfile.

/// The packages that are locked: the members, and whatever is on or linked.
pub open spec fn is_locked(members: Seq<usize>, out: Outcome, n: usize) -> bool {
    ||| members.contains(n)
    ||| exists|k: int| 0 <= k < out.info@.len() && (#[trigger] out.info@[k]).node == n
    ||| exists|k: int| 0 <= k < out.edges@.len() && ((#[trigger] out.edges@[k]).0 == n || out.edges@[k].1 == n)
}

pub open spec fn lock_dep(x: NodeView) -> LockDepView {
    LockDepView { name: x.id.name, version: Some(x.id.version), source: lock_text(x.id.source) }
}

/// The locked dependencies of `n`: where its edges lead, in the order of the first `k` edges.
pub open spec fn lock_deps(g: Nodes, edges: Seq<(usize, usize)>, n: usize, k: int) -> Seq<LockDepView>
    decreases k,
{
    if k <= 0 || k > edges.len() {
        Seq::empty()
    } else if edges[k - 1].0 == n {
        lock_deps(g, edges, n, k - 1).push(lock_dep(g[edges[k - 1].1 as int]))
    } else {
        lock_deps(g, edges, n, k - 1)
    }
}

pub open spec fn lock_pkg(g: Nodes, edges: Seq<(usize, usize)>, n: usize) -> LockPkgView {
    let x = g[n as int];
    LockPkgView {
        name: x.id.name,
        version: x.id.version,
        source: lock_text(x.id.source),
        checksum: if x.id.source is Registry {
            x.checksum
        } else {
            None
        },
        dependencies: lock_deps(g, edges, n, edges.len() as int),
    }
}

/// The locked packages are these, each once, in the order of the graph.
pub open spec fn locks(g: Nodes, out: Outcome, members: Seq<usize>, pkgs: Seq<LockPkgView>, ns: Seq<usize>) -> bool {
    &&& rising(ns)
    &&& forall|n: usize| #[trigger] ns.contains(n) == is_locked(members, out, n)
    &&& pkgs == Seq::new(ns.len(), |k: int| lock_pkg(g, out.edges@, ns[k]))
}

fn locked_nodes(out: &Outcome, members: &Vec<usize>) -> (r: Vec<usize>)
    ensures
        rising(r@),
        forall|n: usize| #[trigger] r@.contains(n) == is_locked(members@, *out, n),
{
    let mut r: Vec<usize> = Vec::new();
    let mut k: usize = 0;
    while k < members.len()
        invariant
            k <= members@.len(),
            rising(r@),
            forall|n: usize| #[trigger] r@.contains(n) == members@.take(k as int).contains(n),
        decreases members@.len() - k,
    {
        sets::insert(&mut r, members[k]);
        proof {
            let a = members@.take(k as int);
            let b = members@.take(k + 1);
            assert(b =~= a.push(members@[k as int]));
            assert forall|n: usize| #[trigger] r@.contains(n) == b.contains(n) by {
                if a.contains(n) {
                    let i = a.index_of(n);
                    assert(b[i] == n);
                }
                assert(b[k as int] == members@[k as int]);
                if b.contains(n) {
                    let i = b.index_of(n);
                    assert(b[i] == n);
                    if i < k {
                        assert(a[i] == n);
                    }
                }
            }
        }
        k += 1;
    }
    assert(members@.take(k as int) =~= members@);
    let mut i: usize = 0;
    while i < out.info.len()
        invariant
            i <= out.info@.len(),
            rising(r@),
            forall|n: usize| #[trigger]
                r@.contains(n) == (members@.contains(n) || exists|j: int| 0 <= j < i && (#[trigger] out.info@[j]).node == n),
        decreases out.info@.len() - i,
    {
        let ghost was = r@;
        let n: usize = out.info[i].node;
        sets::insert(&mut r, n);
        assert forall|m: usize| #[trigger] r@.contains(m) == (members@.contains(m) || exists|j: int|
            0 <= j < i + 1 && (#[trigger] out.info@[j]).node == m) by {
            assert(out.info@[i as int].node == n);
            if was.contains(m) && !members@.contains(m) {
                let j = choose|j: int| 0 <= j < i && (#[trigger] out.info@[j]).node == m;
                assert(out.info@[j].node == m);
            }
            if exists|j: int| 0 <= j < i + 1 && (#[trigger] out.info@[j]).node == m {
                let j = choose|j: int| 0 <= j < i + 1 && (#[trigger] out.info@[j]).node == m;
                if j < i {
                    assert(was.contains(m));
                }
            }
        }
        i += 1;
    }
    let ghost half = r@;
    let mut e: usize = 0;
    while e < out.edges.len()
        invariant
            e <= out.edges@.len(),
            rising(r@),
            forall|n: usize| #[trigger]
                r@.contains(n) == (half.contains(n) || exists|j: int|
                    0 <= j < e && ((#[trigger] out.edges@[j]).0 == n || out.edges@[j].1 == n)),
        decreases out.edges@.len() - e,
    {
        let ghost was = r@;
        let (a, b) = out.edges[e];
        sets::insert(&mut r, a);
        sets::insert(&mut r, b);
        assert forall|m: usize| #[trigger] r@.contains(m) == (half.contains(m) || exists|j: int|
            0 <= j < e + 1 && ((#[trigger] out.edges@[j]).0 == m || out.edges@[j].1 == m)) by {
            assert(out.edges@[e as int] == (a, b));
            if was.contains(m) && !half.contains(m) {
                let j = choose|j: int| 0 <= j < e && ((#[trigger] out.edges@[j]).0 == m || out.edges@[j].1 == m);
                assert(out.edges@[j].0 == m || out.edges@[j].1 == m);
            }
            if exists|j: int| 0 <= j < e + 1 && ((#[trigger] out.edges@[j]).0 == m || out.edges@[j].1 == m) {
                let j = choose|j: int| 0 <= j < e + 1 && ((#[trigger] out.edges@[j]).0 == m || out.edges@[j].1 == m);
                if j < e {
                    assert(was.contains(m));
                }
            }
        }
        e += 1;
    }
    assert forall|n: usize| #[trigger] r@.contains(n) == is_locked(members@, *out, n) by {
        assert(half.contains(n) == half.contains(n));
    }
    r
}

fn lock_package(g: &Graph, out: &Outcome, n: usize) -> (r: LockPkg)
    requires
        n < g.nodes@.len(),
        within(*g, *out),
    ensures
        r@ == lock_pkg(g@, out.edges@, n),
{
    let node = &g.nodes[n];
    assert(g@[n as int] == node@);
    let mut deps: Vec<LockDep> = Vec::new();
    let mut k: usize = 0;
    assert(views(deps@) =~= Seq::<LockDepView>::empty());
    while k < out.edges.len()
        invariant
            within(*g, *out),
            k <= out.edges@.len(),
            views(deps@) == lock_deps(g@, out.edges@, n, k as int),
        decreases out.edges@.len() - k,
    {
        let (a, t) = out.edges[k];
        assert(out.edges@[k as int].1 < g.nodes@.len());
        if a == n {
            let ghost was = deps@;
            let x = &g.nodes[t];
            assert(g@[t as int] == x@);
            let d = LockDep {
                name: x.id.name.clone(),
                version: Some(x.id.version.dup()),
                source: x.id.source.lock_string(),
            };
            deps.push(d);
            assert(views(deps@) =~= views(was).push(d@));
        }
        k += 1;
    }
    let checksum = match &node.id.source {
        SourceId::Registry(_) => dup_text(&node.checksum),
        _ => None,
    };
    LockPkg {
        name: node.id.name.clone(),
        version: node.id.version.dup(),
        source: node.id.source.lock_string(),
        checksum,
        dependencies: deps,
    }
}

/// The lockfile of a resolution.
pub fn to_lockfile(g: &Graph, out: &Outcome, members: &Vec<usize>, version: u32) -> (r: Lockfile)
    requires
        within(*g, *out),
        forall|k: int| 0 <= k < members@.len() ==> #[trigger] members@[k] < g.nodes@.len(),
    ensures
        r.version == version,
        exists|ns: Seq<usize>| #[trigger] locks(g@, *out, members@, r@.packages, ns),
{
    let ns = locked_nodes(out, members);
    let mut packages: Vec<LockPkg> = Vec::new();
    let mut k: usize = 0;
    while k < ns.len()
        invariant
            within(*g, *out),
            forall|j: int| 0 <= j < members@.len() ==> #[trigger] members@[j] < g.nodes@.len(),
            forall|n: usize| #[trigger] ns@.contains(n) == is_locked(members@, *out, n),
            k <= ns@.len(),
            packages@.len() == k,
            forall|j: int| 0 <= j < k ==> (#[trigger] packages@[j])@ == lock_pkg(g@, out.edges@, ns@[j]),
        decreases ns@.len() - k,
    {
        proof {
            let n = ns@[k as int];
            assert(ns@.contains(n));
            assert(is_locked(members@, *out, n));
            if members@.contains(n) {
                let j = members@.index_of(n);
                assert(members@[j] < g.nodes@.len());
            }
        }
        packages.push(lock_package(g, out, ns[k]));
        k += 1;
    }
    let r = Lockfile { version, packages };
    proof {
        assert(r@.packages =~= Seq::new(ns@.len(), |k: int| lock_pkg(g@, out.edges@, ns@[k])));
        assert(locks(g@, *out, members@, r@.packages, ns@));
    }
    r
}

} // verus!
