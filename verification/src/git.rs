//! Git dependencies: one bare database per URL, and a checkout per commit.

use vstd::prelude::*;
use crate::cfgexpr::offset;
use crate::manifest::Entries;
use crate::manifest::GitRef;
use crate::manifest::GitRefView;
use crate::path::join;
use crate::path::under;
use crate::registry::cut;
use crate::registry::digest12;
use crate::registry::short_digest;
use crate::resolve::trim_slashes;
use crate::resolve::without_git;
use crate::resolve::without_slashes;
use crate::text::cat;
use crate::text::cat3;
use crate::text::chars_of;
use crate::text::opt_view;
use crate::text::rsplit_once;
use crate::text::same;
use crate::text::split_last;
use crate::text::starts;
use crate::text::starts_with;
use crate::text::string_of;
use crate::text::views;
use crate::value::Toml;
use crate::value::at;
use crate::value::field;
use crate::value::get;
use crate::value::text_of;
use crate::value::toml_entries;

verus! {

/// Where repositories are kept, and whether the net may be used.
pub struct Git {
    root: String,
    offline: bool,
}

pub struct GitView {
    pub root: Seq<char>,
    pub offline: bool,
}

impl View for Git {
    type V = GitView;

    closed spec fn view(&self) -> GitView {
        GitView { root: self.root@, offline: self.offline }
    }
}

/// The directory of a repository: the last part of its URL, and digits that tell it from others.
pub open spec fn repo_name(url: Seq<char>) -> Seq<char> {
    let u = without_slashes(url);
    let last = match split_last(u, '/') {
        Some((_, l)) => l,
        None => u,
    };
    without_git(last) + "-"@ + digest12(url)
}

fn short_name(url: &str) -> (r: String)
    ensures
        r@ == repo_name(url@),
{
    let u = trim_slashes(url);
    let last = match rsplit_once(u, '/') {
        Some((_, l)) => l,
        None => u,
    };
    cat3(crate::resolve::trim_git(last).as_str(), "-", short_digest(url).as_str())
}

/// What git is asked to look up for a reference.
pub open spec fn rev_of(r: GitRefView) -> Seq<char> {
    match r {
        GitRefView::DefaultBranch => "refs/remotes/origin/HEAD"@,
        GitRefView::Branch(b) => "refs/remotes/origin/"@ + b,
        GitRefView::Tag(t) => "refs/tags/"@ + t,
        GitRefView::Rev(r) => r,
    }
}

fn rev_text(r: &GitRef) -> (s: String)
    ensures
        s@ == rev_of(r@),
{
    match r {
        GitRef::DefaultBranch => "refs/remotes/origin/HEAD".to_owned(),
        GitRef::Branch(b) => cat("refs/remotes/origin/", b.as_str()),
        GitRef::Tag(t) => cat("refs/tags/", t.as_str()),
        GitRef::Rev(r) => r.clone(),
    }
}

/// The arguments of a fetch: everything, or one thing.
pub open spec fn fetch_args(url: Seq<char>, one: Option<Seq<char>>) -> Seq<Seq<char>> {
    seq!["-c"@, "protocol.file.allow=always"@, "fetch"@, "--force"@, "--quiet"@, url] + (match one {
        Some(r) => seq![r],
        None => seq![
            "+refs/heads/*:refs/remotes/origin/*"@,
            "+HEAD:refs/remotes/origin/HEAD"@,
            "+refs/tags/*:refs/tags/*"@,
        ],
    })
}

fn fetch_list(url: &str, one: Option<&str>) -> (r: Vec<String>)
    ensures
        views(r@) == fetch_args(url@, crate::invocation::opt_text(one)),
{
    let mut v: Vec<String> = Vec::new();
    v.push("-c".to_owned());
    v.push("protocol.file.allow=always".to_owned());
    v.push("fetch".to_owned());
    v.push("--force".to_owned());
    v.push("--quiet".to_owned());
    v.push(url.to_owned());
    match one {
        Some(r) => {
            v.push(r.to_owned());
        },
        None => {
            v.push("+refs/heads/*:refs/remotes/origin/*".to_owned());
            v.push("+HEAD:refs/remotes/origin/HEAD".to_owned());
            v.push("+refs/tags/*:refs/tags/*".to_owned());
        },
    }
    assert(views(v@) =~= fetch_args(url@, crate::invocation::opt_text(one)));
    v
}

/// What is known so far of a reference: what the lookups found, and what was fetched.
#[derive(Debug)]
pub struct Looked {
    /// The first lookup, before anything is fetched.
    pub first: Option<Option<String>>,
    pub fetched: bool,
    /// The lookup once everything is fetched.
    pub second: Option<Option<String>>,
    pub fetched_rev: bool,
    /// What was fetched last.
    pub head: Option<Option<String>>,
}

pub struct LookedView {
    pub first: Option<Option<Seq<char>>>,
    pub fetched: bool,
    pub second: Option<Option<Seq<char>>>,
    pub fetched_rev: bool,
    pub head: Option<Option<Seq<char>>>,
}

impl View for Looked {
    type V = LookedView;

    open spec fn view(&self) -> LookedView {
        LookedView {
            first: crate::profile::read_view(self.first),
            fetched: self.fetched,
            second: crate::profile::read_view(self.second),
            fetched_rev: self.fetched_rev,
            head: crate::profile::read_view(self.head),
        }
    }
}

impl Looked {
    /// Nothing was looked up yet.
    pub fn new() -> (r: Looked)
        ensures
            r@ == (LookedView { first: None, fetched: false, second: None, fetched_rev: false, head: None }),
    {
        Looked { first: None, fetched: false, second: None, fetched_rev: false, head: None }
    }
}

/// What to do next to find the commit of a reference.
#[derive(Debug)]
pub enum GitStep {
    /// Look up the revision, first or again.
    Lookup(String),
    /// Run git with these arguments.
    Fetch(Vec<String>),
    /// The commit.
    Found(String),
    /// It would have to be fetched, and there is no net.
    Offline,
    /// The repository does not have the revision.
    NotFound(String),
}

pub enum GitStepView {
    Lookup(Seq<char>),
    Fetch(Seq<Seq<char>>),
    Found(Seq<char>),
    Offline,
    NotFound(Seq<char>),
}

impl View for GitStep {
    type V = GitStepView;

    open spec fn view(&self) -> GitStepView {
        match self {
            GitStep::Lookup(s) => GitStepView::Lookup(s@),
            GitStep::Fetch(l) => GitStepView::Fetch(views(l@)),
            GitStep::Found(s) => GitStepView::Found(s@),
            GitStep::Offline => GitStepView::Offline,
            GitStep::NotFound(s) => GitStepView::NotFound(s@),
        }
    }
}

pub open spec fn commit_of(rev: Seq<char>) -> Seq<char> {
    rev + "^{commit}"@
}

/// Branches move, so they are fetched anew unless there is no net. Tags and revisions are fetched once.
pub open spec fn refreshes(offline: bool, r: GitRefView) -> bool {
    (r is DefaultBranch || r is Branch) && !offline
}

/// What is left once everything is fetched.
pub open spec fn after_fetch(url: Seq<char>, r: GitRefView, k: LookedView) -> GitStepView {
    match k.second {
        None => GitStepView::Lookup(commit_of(rev_of(r))),
        Some(Some(c)) => GitStepView::Found(c),
        Some(None) => match r {
            GitRefView::Rev(rev) => if !k.fetched_rev {
                GitStepView::Fetch(fetch_args(url, Some(rev)))
            } else {
                match k.head {
                    None => GitStepView::Lookup(commit_of("FETCH_HEAD"@)),
                    Some(Some(c)) => GitStepView::Found(c),
                    Some(None) => GitStepView::NotFound(rev_of(r)),
                }
            },
            _ => GitStepView::NotFound(rev_of(r)),
        },
    }
}

/// What to do next to find the commit of a reference.
pub open spec fn step_of(offline: bool, url: Seq<char>, r: GitRefView, k: LookedView) -> GitStepView {
    if !refreshes(offline, r) && k.first.is_none() {
        GitStepView::Lookup(commit_of(rev_of(r)))
    } else if !refreshes(offline, r) && k.first.unwrap().is_some() {
        GitStepView::Found(k.first.unwrap().unwrap())
    } else if offline {
        GitStepView::Offline
    } else if !k.fetched {
        GitStepView::Fetch(fetch_args(url, None))
    } else {
        after_fetch(url, r, k)
    }
}

/// What is known of a checkout.
#[derive(Clone, Copy, Debug)]
pub struct Checked {
    /// Whether it is there already.
    pub marker: Option<bool>,
    /// Whether the database has the commit.
    pub commit: Option<bool>,
    pub fetched: bool,
    /// Whether it has the commit once everything is fetched.
    pub again: Option<bool>,
    pub fetched_commit: bool,
    /// Whether the commit has submodules.
    pub submodules: Option<bool>,
}

/// What to do next for a checkout.
#[derive(Debug)]
pub enum CheckoutStep {
    /// Whether the file is there.
    AskMarker(String),
    /// Whether the database has the object.
    AskObject(String),
    Fetch(Vec<String>),
    Offline,
    /// Unpack an archive of the commit there.
    Archive(String),
    /// Clone there, with the submodules.
    Clone(String),
    /// The checkout is there.
    Done(String),
}

pub enum CheckoutView {
    AskMarker(Seq<char>),
    AskObject(Seq<char>),
    Fetch(Seq<Seq<char>>),
    Offline,
    Archive(Seq<char>),
    Clone(Seq<char>),
    Done(Seq<char>),
}

impl View for CheckoutStep {
    type V = CheckoutView;

    open spec fn view(&self) -> CheckoutView {
        match self {
            CheckoutStep::AskMarker(s) => CheckoutView::AskMarker(s@),
            CheckoutStep::AskObject(s) => CheckoutView::AskObject(s@),
            CheckoutStep::Fetch(l) => CheckoutView::Fetch(views(l@)),
            CheckoutStep::Offline => CheckoutView::Offline,
            CheckoutStep::Archive(s) => CheckoutView::Archive(s@),
            CheckoutStep::Clone(s) => CheckoutView::Clone(s@),
            CheckoutStep::Done(s) => CheckoutView::Done(s@),
        }
    }
}

/// A commit that can be cut to twelve bytes, or is no longer than that.
pub open spec fn is_commit(c: Seq<char>) -> bool {
    cut(c, 12, 0).is_some() || offset(c, c.len() as int) <= 12
}

/// The first twelve bytes of a commit.
pub open spec fn short_commit(c: Seq<char>) -> Seq<char> {
    match cut(c, 12, 0) {
        Some(k) => c.subrange(0, k),
        None => c,
    }
}

pub open spec fn checkout_dir(root: Seq<char>, url: Seq<char>, commit: Seq<char>) -> Seq<char> {
    under(under(under(root, "checkouts"@), repo_name(url)), short_commit(commit))
}

/// Once the commit is in the database.
pub open spec fn unpack_step(dir: Seq<char>, commit: Seq<char>, k: Checked) -> CheckoutView {
    match k.submodules {
        None => CheckoutView::AskObject(commit + ":.gitmodules"@),
        Some(true) => CheckoutView::Clone(dir),
        Some(false) => CheckoutView::Archive(dir),
    }
}

pub open spec fn checkout_of(g: GitView, url: Seq<char>, commit: Seq<char>, k: Checked) -> CheckoutView {
    let dir = checkout_dir(g.root, url, commit);
    match k.marker {
        None => CheckoutView::AskMarker(under(dir, ".rb-ok"@)),
        Some(true) => CheckoutView::Done(dir),
        Some(false) => match k.commit {
            None => CheckoutView::AskObject(commit_of(commit)),
            Some(true) => unpack_step(dir, commit, k),
            Some(false) => if g.offline {
                CheckoutView::Offline
            } else if !k.fetched {
                CheckoutView::Fetch(fetch_args(url, None))
            } else {
                match k.again {
                    None => CheckoutView::AskObject(commit_of(commit)),
                    Some(true) => unpack_step(dir, commit, k),
                    Some(false) => if !k.fetched_commit {
                        CheckoutView::Fetch(fetch_args(url, Some(commit)))
                    } else {
                        unpack_step(dir, commit, k)
                    },
                }
            },
        },
    }
}

fn step_unpack(dir: String, commit: &str, k: Checked) -> (r: CheckoutStep)
    ensures
        r@ == unpack_step(dir@, commit@, k),
{
    match k.submodules {
        None => CheckoutStep::AskObject(cat(commit, ":.gitmodules")),
        Some(true) => CheckoutStep::Clone(dir),
        Some(false) => CheckoutStep::Archive(dir),
    }
}

impl Git {
    pub fn new(root: String, offline: bool) -> (r: Git)
        ensures
            r@ == (GitView { root: root@, offline }),
    {
        Git { root, offline }
    }

    /// The database of a repository.
    pub fn db(&self, url: &str) -> (r: String)
        ensures
            r@ == under(under(self@.root, "db"@), repo_name(url@)),
    {
        join(join(self.root.as_str(), "db").as_str(), short_name(url).as_str())
    }

    /// What to do next to find the commit of a reference. Fetch if we don't already have it.
    pub fn resolve(&self, url: &str, reference: &GitRef, known: &Looked) -> (r: GitStep)
        ensures
            r@ == step_of(self@.offline, url@, reference@, known@),
    {
        let rev = rev_text(reference);
        let moves: bool = match reference {
            GitRef::DefaultBranch | GitRef::Branch(_) => true,
            _ => false,
        };
        if !(moves && !self.offline) {
            match &known.first {
                None => {
                    return GitStep::Lookup(cat(rev.as_str(), "^{commit}"));
                },
                Some(Some(c)) => {
                    return GitStep::Found(c.clone());
                },
                Some(None) => {},
            }
        }
        if self.offline {
            return GitStep::Offline;
        }
        if !known.fetched {
            return GitStep::Fetch(fetch_list(url, None));
        }
        match &known.second {
            None => GitStep::Lookup(cat(rev.as_str(), "^{commit}")),
            Some(Some(c)) => GitStep::Found(c.clone()),
            Some(None) => match reference {
                GitRef::Rev(r) => if !known.fetched_rev {
                    GitStep::Fetch(fetch_list(url, Some(r.as_str())))
                } else {
                    match &known.head {
                        None => GitStep::Lookup(cat("FETCH_HEAD", "^{commit}")),
                        Some(Some(c)) => GitStep::Found(c.clone()),
                        Some(None) => GitStep::NotFound(rev),
                    }
                },
                _ => GitStep::NotFound(rev),
            },
        }
    }

    /// What to do next to have a commit checked out.
    pub fn checkout(&self, url: &str, commit: &str, known: Checked) -> (r: CheckoutStep)
        requires
            is_commit(commit@),
        ensures
            r@ == checkout_of(self@, url@, commit@, known),
    {
        let cs = chars_of(commit);
        let short = match crate::registry::find_cut(&cs, 12) {
            Some(k) => string_of(&cs, 0, k),
            None => commit.to_owned(),
        };
        let repo = join(join(self.root.as_str(), "checkouts").as_str(), short_name(url).as_str());
        let dir = join(repo.as_str(), short.as_str());
        match known.marker {
            None => CheckoutStep::AskMarker(join(dir.as_str(), ".rb-ok")),
            Some(true) => CheckoutStep::Done(dir),
            Some(false) => match known.commit {
                None => CheckoutStep::AskObject(cat(commit, "^{commit}")),
                Some(true) => step_unpack(dir, commit, known),
                Some(false) => if self.offline {
                    CheckoutStep::Offline
                } else if !known.fetched {
                    CheckoutStep::Fetch(fetch_list(url, None))
                } else {
                    match known.again {
                        None => CheckoutStep::AskObject(cat(commit, "^{commit}")),
                        Some(true) => step_unpack(dir, commit, known),
                        Some(false) => if !known.fetched_commit {
                            CheckoutStep::Fetch(fetch_list(url, Some(commit)))
                        } else {
                            step_unpack(dir, commit, known)
                        },
                    }
                },
            },
        }
    }
}

/// The manifest is that of the package.
pub open spec fn names_package(t: Entries, name: Seq<char>) -> bool {
    match at(t, "package"@) {
        Some(p) => text_of(field(p, "name"@)) == Some(name),
        None => false,
    }
}

/// Whether a manifest in a checkout is the one of the package that is looked for.
pub fn is_package(t: &Vec<(String, Toml)>, name: &str) -> (r: bool)
    ensures
        r == names_package(toml_entries(t@), name@),
{
    match get(t, "package") {
        Some(p) => match p.get("name") {
            Some(Toml::Str(s)) => same(s.as_str(), name),
            _ => false,
        },
        None => false,
    }
}

/// Whether a package is looked for in a directory of that name.
pub fn enters(name: &str) -> (r: bool)
    ensures
        r == (name@ != "target"@ && !starts(name@, "."@)),
{
    !same(name, "target") && !starts_with(name, ".")
}

/// A directory of a checkout, and the table of its manifest, where it has one that can be read.
pub struct RepoDir {
    pub path: String,
    pub table: Option<Vec<(String, Toml)>>,
}

/// The first directory from `k` on whose manifest is that of the package.
pub open spec fn package_from(dirs: Seq<RepoDir>, name: Seq<char>, k: int) -> Option<int>
    decreases dirs.len() - k,
{
    if k < 0 || k >= dirs.len() {
        None
    } else if dirs[k].table matches Some(t) && names_package(toml_entries(t@), name) {
        Some(k)
    } else {
        package_from(dirs, name, k + 1)
    }
}

/// The manifest of a package in a checkout, whose directories are given in the order of the search.
pub fn find_package(dirs: &Vec<RepoDir>, name: &str) -> (r: Option<String>)
    ensures
        opt_view(r) == (match package_from(dirs@, name@, 0) {
            Some(k) => Some(under(dirs@[k].path@, "Cargo.toml"@)),
            None => None,
        }),
{
    let mut k: usize = 0;
    while k < dirs.len()
        invariant
            k <= dirs@.len(),
            package_from(dirs@, name@, 0) == package_from(dirs@, name@, k as int),
        decreases dirs@.len() - k,
    {
        if let Some(t) = &dirs[k].table {
            if is_package(t, name) {
                return Some(join(dirs[k].path.as_str(), "Cargo.toml"));
            }
        }
        k += 1;
    }
    None
}

} // verus!
