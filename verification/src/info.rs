//! What is shown of a package, from a workspace or from the registry.

use vstd::prelude::*;
use crate::exec::clean;
use crate::invocation::byte_len;
use crate::invocation::opt_text;
use crate::lockfile::LockPkgView;
use crate::lockfile::Lockfile;
use crate::lockfile::locked;
use crate::manifest::DepDecl;
use crate::manifest::DepDeclView;
use crate::manifest::DepKind;
use crate::manifest::DepSource;
use crate::manifest::DepSourceView;
use crate::manifest::FeatureMap;
use crate::manifest::Package;
use crate::manifest::PackageView;
use crate::manifest::any_is;
use crate::manifest::clean_path;
use crate::manifest::feature_lists;
use crate::manifest::strings_in;
use crate::num::all_digits;
use crate::num::parse_u64;
use crate::num::u64_of;
use crate::order::before;
use crate::order::is_before;
use crate::order::lemma_before_asymmetric;
use crate::order::lemma_before_irreflexive;
use crate::order::lemma_before_total;
use crate::order::lemma_before_transitive;
use crate::path::absolute;
use crate::path::list_parts;
use crate::path::parent;
use crate::path::parts;
use crate::path::under;
use crate::path::up;
use crate::registry::IndexEntry;
use crate::registry::IndexEntryView;
use crate::registry::newest;
use crate::registry::newest_of;
use crate::registry::versions_of;
use crate::shell::repeat;
use crate::shell::times;
use crate::sort::Ranked;
use crate::sort::in_order;
use crate::sort::sort;
use crate::strmap::StrMap;
use crate::strmap::StrSet;
use crate::strmap::listed;
use crate::text::after_prefix;
use crate::text::cat;
use crate::text::cat3;
use crate::text::cat4;
use crate::text::cat5;
use crate::text::chars_of;
use crate::text::contains;
use crate::text::has_char;
use crate::text::holds;
use crate::text::is_alphanumeric;
use crate::text::is_digit;
use crate::text::join;
use crate::text::joined;
use crate::text::letter_or_number;
use crate::text::lowercase;
use crate::text::opt_view;
use crate::text::pieces;
use crate::text::replace_char;
use crate::text::same;
use crate::text::split;
use crate::text::split_first;
use crate::text::split_once;
use crate::text::starts;
use crate::text::starts_with;
use crate::text::strip_prefix;
use crate::text::strip_suffix;
use crate::text::swapped;
use crate::text::to_lower;
use crate::text::trim_end;
use crate::text::trimmed_end;
use crate::text::views;
use crate::version::Version;
use crate::version::VersionView;
use crate::version::is_older;
use crate::version::newest_upto;
use crate::version::older;
use crate::version::version_text;
use crate::value::Toml;
use crate::value::TomlTree;
use crate::value::at;
use crate::value::get;
use crate::value::toml_entries;
use crate::workspace::Disk;
use crate::workspace::DiskView;
use crate::workspace::add_cleaned;
use crate::workspace::ancestors;
use crate::workspace::ancestors_of;
use crate::workspace::cleaned_all;
use crate::workspace::is_glob;
use crate::workspace::list_under;
use crate::workspace::locate_manifests;
use crate::workspace::manifests_of;

verus! {

/// What is asked for.
pub struct InfoOptions<'a> {
    pub spec: &'a str,
    pub offline: bool,
    pub locked: bool,
    pub frozen: bool,
    pub verbose: bool,
}

/// The option that only works in a workspace, where one is given and there is none.
pub fn workspace_only(opts: &InfoOptions<'_>, in_workspace: bool) -> (r: Option<&'static str>)
    ensures
        opt_text(r) == (if in_workspace || !(opts.locked || opts.frozen) {
            None
        } else if opts.frozen {
            Some("--frozen"@)
        } else {
            Some("--locked"@)
        }),
{
    if in_workspace || !(opts.locked || opts.frozen) {
        None
    } else if opts.frozen {
        Some("--frozen")
    } else {
        Some("--locked")
    }
}

/// The start of a version: one to three numbers.
#[derive(Debug)]
pub struct PartialVer(pub Vec<u64>);

impl View for PartialVer {
    type V = Seq<u64>;

    open spec fn view(&self) -> Seq<u64> {
        self.0@
    }
}

/// The version starts with the numbers.
pub open spec fn begins(p: Seq<u64>, v: VersionView) -> bool {
    (p.len() > 0 ==> p[0] == v.major) && (p.len() > 1 ==> p[1] == v.minor) && (p.len() > 2 ==> p[2] == v.patch)
}

impl PartialVer {
    pub fn matches(&self, v: &Version) -> (r: bool)
        ensures
            r == begins(self@, v@),
    {
        let n: usize = self.0.len();
        (n == 0 || self.0[0] == v.major) && (n <= 1 || self.0[1] == v.minor) && (n <= 2 || self.0[2] == v.patch)
    }
}

/// Why a text is no start of a version.
#[derive(Clone, Copy, Debug, PartialEq, Eq, Structural)]
pub enum PartialError {
    /// It is a requirement.
    Requirement,
    Prerelease,
    /// It is something else.
    Shape,
    /// A number does not fit.
    TooLarge,
}

pub open spec fn is_sign(c: char) -> bool {
    c == '^' || c == '=' || c == '~' || c == '>' || c == '<' || c == '*'
}

pub open spec fn has_sign(v: Seq<char>) -> bool {
    exists|i: int| 0 <= i < v.len() && is_sign(#[trigger] v[i])
}

/// One to three parts of digits.
pub open spec fn are_numbers(ps: Seq<Seq<char>>) -> bool {
    ps.len() <= 3 && forall|i: int| 0 <= i < ps.len() ==> all_digits(#[trigger] ps[i])
}

pub open spec fn all_fit(ps: Seq<Seq<char>>) -> bool {
    forall|i: int| 0 <= i < ps.len() ==> u64_of(#[trigger] ps[i]).is_some()
}

/// The numbers at the start of a version.
pub open spec fn partial_of(v: Seq<char>) -> Result<Seq<u64>, PartialError> {
    let ps = pieces(v, '.');
    if has_sign(v) {
        Err(PartialError::Requirement)
    } else if !are_numbers(ps) {
        if holds(v, "://"@) || v.contains('-') {
            Err(PartialError::Prerelease)
        } else {
            Err(PartialError::Shape)
        }
    } else if !all_fit(ps) {
        Err(PartialError::TooLarge)
    } else {
        Ok(Seq::new(ps.len(), |i: int| u64_of(ps[i]).unwrap() as u64))
    }
}

fn find_sign(v: &str) -> (r: bool)
    ensures
        r == has_sign(v@),
{
    let cs = chars_of(v);
    let mut k: usize = 0;
    while k < cs.len()
        invariant
            k <= cs@.len(),
            cs@ == v@,
            forall|i: int| 0 <= i < k ==> !is_sign(#[trigger] v@[i]),
        decreases cs@.len() - k,
    {
        let c = cs[k];
        if c == '^' || c == '=' || c == '~' || c == '>' || c == '<' || c == '*' {
            assert(is_sign(v@[k as int]));
            return true;
        }
        k += 1;
    }
    false
}

fn is_number(s: &str) -> (r: bool)
    ensures
        r == all_digits(s@),
{
    let cs = chars_of(s);
    let mut k: usize = 0;
    while k < cs.len()
        invariant
            k <= cs@.len(),
            cs@ == s@,
            forall|i: int| 0 <= i < k ==> crate::text::digit(#[trigger] s@[i]),
        decreases cs@.len() - k,
    {
        if !is_digit(cs[k]) {
            assert(!crate::text::digit(s@[k as int]));
            return false;
        }
        k += 1;
    }
    cs.len() > 0
}

fn has_numbers(ps: &Vec<String>) -> (r: bool)
    ensures
        r == are_numbers(views(ps@)),
{
    let ghost pv = views(ps@);
    if ps.len() > 3 {
        assert(pv.len() > 3);
        return false;
    }
    let mut k: usize = 0;
    while k < ps.len()
        invariant
            k <= ps@.len(),
            pv == views(ps@),
            forall|i: int| 0 <= i < k ==> all_digits(#[trigger] pv[i]),
        decreases ps@.len() - k,
    {
        assert(pv[k as int] == ps@[k as int]@);
        if !is_number(ps[k].as_str()) {
            assert(!all_digits(pv[k as int]));
            return false;
        }
        k += 1;
    }
    assert(pv.len() == ps@.len());
    true
}

/// The numbers at the start of a version, from a text like `1.32`.
pub fn parse_partial(v: &str) -> (r: Result<PartialVer, PartialError>)
    ensures
        match partial_of(v@) {
            Ok(p) => r matches Ok(x) && x@ == p,
            Err(e) => r == Err::<PartialVer, PartialError>(e),
        },
{
    proof {
        reveal_strlit("://");
    }
    if find_sign(v) {
        return Err(PartialError::Requirement);
    }
    let ps = split(v, '.');
    let ghost pv = pieces(v@, '.');
    if !has_numbers(&ps) {
        if contains(v, "://") || has_char(v, '-') {
            return Err(PartialError::Prerelease);
        }
        return Err(PartialError::Shape);
    }
    let ghost want = Seq::new(pv.len(), |i: int| u64_of(pv[i]).unwrap() as u64);
    let mut out: Vec<u64> = Vec::new();
    let mut k: usize = 0;
    while k < ps.len()
        invariant
            k <= ps@.len(),
            pv == views(ps@),
            pv == pieces(v@, '.'),
            are_numbers(pv),
            !has_sign(v@),
            want == Seq::new(pv.len(), |i: int| u64_of(pv[i]).unwrap() as u64),
            out@ =~= want.take(k as int),
            forall|i: int| 0 <= i < k ==> u64_of(#[trigger] pv[i]).is_some(),
        decreases ps@.len() - k,
    {
        assert(pv[k as int] == ps@[k as int]@);
        match parse_u64(ps[k].as_str()) {
            Some(n) => {
                out.push(n);
                assert(want[k as int] == n);
            },
            None => {
                assert(u64_of(pv[k as int]).is_none());
                return Err(PartialError::TooLarge);
            },
        }
        k += 1;
    }
    assert(pv.len() == ps@.len());
    assert(want.take(k as int) =~= want);
    Ok(PartialVer(out))
}

/// Why a spec cannot be looked up.
#[derive(Debug)]
pub enum InfoError {
    /// The name, with the character that it cannot have.
    Character(String, char),
    /// There is no name.
    Empty,
    Version(PartialError),
    /// The registry does not have it.
    NotFound,
}

pub enum InfoFault {
    Character(Seq<char>, char),
    Empty,
    Version(PartialError),
    NotFound,
}

impl View for InfoError {
    type V = InfoFault;

    open spec fn view(&self) -> InfoFault {
        match self {
            InfoError::Character(s, c) => InfoFault::Character(s@, *c),
            InfoError::Empty => InfoFault::Empty,
            InfoError::Version(e) => InfoFault::Version(*e),
            InfoError::NotFound => InfoFault::NotFound,
        }
    }
}

pub open spec fn name_char(c: char) -> bool {
    letter_or_number(c) || c == '-' || c == '_'
}

/// The first character from `k` on that a name cannot have.
pub open spec fn odd_from(s: Seq<char>, k: int) -> Option<char>
    decreases s.len() - k,
{
    if k < 0 || k >= s.len() {
        None
    } else if !name_char(s[k]) {
        Some(s[k])
    } else {
        odd_from(s, k + 1)
    }
}

fn find_odd(s: &str) -> (r: Option<char>)
    ensures
        r == odd_from(s@, 0),
{
    let cs = chars_of(s);
    let mut k: usize = 0;
    while k < cs.len()
        invariant
            k <= cs@.len(),
            cs@ == s@,
            odd_from(s@, 0) == odd_from(s@, k as int),
        decreases cs@.len() - k,
    {
        let c = cs[k];
        if !is_alphanumeric(c) && c != '-' && c != '_' {
            return Some(c);
        }
        k += 1;
    }
    None
}

pub open spec fn partial_view(o: Option<PartialVer>) -> Option<Seq<u64>> {
    match o {
        Some(p) => Some(p@),
        None => None,
    }
}

/// The name and the start of a version in `name@1.2`.
pub open spec fn spec_parts(spec: Seq<char>) -> Result<(Seq<char>, Option<Seq<u64>>), InfoFault> {
    let (name, ver) = match split_first(spec, '@') {
        Some((n, v)) => (n, Some(v)),
        None => (spec, None),
    };
    match odd_from(name, 0) {
        Some(c) => Err(InfoFault::Character(name, c)),
        None => if name.len() == 0 {
            Err(InfoFault::Empty)
        } else {
            match ver {
                None => Ok((name, None)),
                Some(v) => match partial_of(v) {
                    Ok(p) => Ok((name, Some(p))),
                    Err(e) => Err(InfoFault::Version(e)),
                },
            }
        },
    }
}

/// The name and the start of a version in `name@1.2`.
pub fn parse_spec(spec: &str) -> (r: Result<(String, Option<PartialVer>), InfoError>)
    ensures
        match spec_parts(spec@) {
            Ok(p) => r matches Ok(x) && (x.0@, partial_view(x.1)) == p,
            Err(e) => r matches Err(x) && x@ == e,
        },
{
    let (name, ver) = match split_once(spec, '@') {
        Some((n, v)) => (n, Some(v)),
        None => (spec, None),
    };
    if let Some(c) = find_odd(name) {
        return Err(InfoError::Character(name.to_owned(), c));
    }
    if name.is_empty() {
        return Err(InfoError::Empty);
    }
    match ver {
        None => Ok((name.to_owned(), None)),
        Some(v) => match parse_partial(v) {
            Ok(p) => Ok((name.to_owned(), Some(p))),
            Err(e) => Err(InfoError::Version(e)),
        },
    }
}

pub open spec fn wanted(partial: Option<Seq<u64>>, v: VersionView) -> bool {
    partial matches Some(p) ==> begins(p, v)
}

pub open spec fn partial_ref(o: Option<&PartialVer>) -> Option<Seq<u64>> {
    match o {
        Some(p) => Some(p@),
        None => None,
    }
}

fn is_wanted(partial: Option<&PartialVer>, v: &Version) -> (r: bool)
    ensures
        r == wanted(partial_ref(partial), v@),
{
    match partial {
        Some(p) => p.matches(v),
        None => true,
    }
}

/// The directory of the workspace that a package at or above the directories from the `k`th on belongs to. A manifest whose
/// workspace cannot be told is passed over.
pub open spec fn around_from(dirs: Seq<Seq<char>>, d: DiskView, k: int) -> Option<Seq<char>>
    decreases dirs.len() - k,
{
    if k < 0 || k >= dirs.len() {
        None
    } else {
        match (d.manifests.contains_key(under(dirs[k], "Cargo.toml"@)), manifests_of(dirs[k], None, d)) {
            (true, Ok((_, root))) => up(root),
            _ => around_from(dirs, d, k + 1),
        }
    }
}

/// The directory of the workspace around a directory.
pub fn workspace_around(cwd: &str, disk: &Disk) -> (r: Option<String>)
    ensures
        opt_view(r) == around_from(ancestors_of(cwd@), disk@, 0),
{
    let dirs = ancestors(cwd);
    let ghost dv = ancestors_of(cwd@);
    let mut k: usize = 0;
    while k < dirs.len()
        invariant
            k <= dirs@.len(),
            dv == views(dirs@),
            around_from(dv, disk@, 0) == around_from(dv, disk@, k as int),
            dv == ancestors_of(cwd@),
        decreases dirs@.len() - k,
    {
        assert(dv[k as int] == dirs@[k as int]@);
        let m = crate::path::join(dirs[k].as_str(), "Cargo.toml");
        assert(disk@.manifests.contains_key(m@) == disk.manifests@.contains_key(m@));
        if disk.manifests.has(m.as_str()) {
            if let Ok((_, root)) = locate_manifests(dirs[k].as_str(), None, disk) {
                return parent(root.as_str());
            }
        }
        k += 1;
    }
    assert(dv.len() == dirs@.len());
    None
}

/// The directories of the first `n` members. One that is named and has no manifest is passed over.
pub open spec fn members_upto(
    root: Seq<char>,
    ps: Seq<Seq<char>>,
    globs: Map<Seq<char>, Option<Seq<Seq<char>>>>,
    here: Set<Seq<char>>,
    n: int,
) -> Result<Seq<Seq<char>>, Seq<char>>
    decreases n,
{
    if n <= 0 || n > ps.len() {
        Ok(Seq::empty())
    } else {
        match members_upto(root, ps, globs, here, n - 1) {
            Err(e) => Err(e),
            Ok(l) => {
                let p = under(root, ps[n - 1]);
                if is_glob(p) {
                    if globs.contains_key(p) && globs[p].is_some() {
                        Ok(l + cleaned_all(globs[p].unwrap()))
                    } else {
                        Err(ps[n - 1])
                    }
                } else if here.contains(p) {
                    Ok(l.push(clean(p)))
                } else {
                    Ok(l)
                }
            },
        }
    }
}

/// Where the packages of a workspace are: its members, or the root alone.
pub open spec fn package_dirs(
    root: Seq<char>,
    manifest: Seq<(Seq<char>, TomlTree)>,
    globs: Map<Seq<char>, Option<Seq<Seq<char>>>>,
    here: Set<Seq<char>>,
) -> Result<Seq<Seq<char>>, Seq<char>> {
    match at(manifest, "workspace"@) {
        Some(TomlTree::Table(w)) => {
            let ps = list_under(w, "members"@);
            members_upto(root, ps, globs, here, ps.len() as int)
        },
        _ => Ok(seq![root]),
    }
}

proof fn lemma_members_error(
    root: Seq<char>,
    ps: Seq<Seq<char>>,
    globs: Map<Seq<char>, Option<Seq<Seq<char>>>>,
    here: Set<Seq<char>>,
    a: int,
    b: int,
)
    requires
        0 <= a <= b <= ps.len(),
        members_upto(root, ps, globs, here, a).is_err(),
    ensures
        members_upto(root, ps, globs, here, b) == members_upto(root, ps, globs, here, a),
    decreases b - a,
{
    if a < b {
        lemma_members_error(root, ps, globs, here, a, b - 1);
    }
}

/// The directories in which a member is looked for, in order. `here`: the paths, as the workspace names them, that hold a
/// manifest. The pattern that is none otherwise.
pub fn member_dirs(root: &str, manifest: &Vec<(String, Toml)>, disk: &Disk, here: &StrSet) -> (r: Result<Vec<String>, String>)
    ensures
        match package_dirs(root@, toml_entries(manifest@), disk@.globs, here@) {
            Ok(l) => r matches Ok(v) && views(v@) == l,
            Err(e) => r matches Err(p) && p@ == e,
        },
{
    let w = match get(manifest, "workspace") {
        Some(Toml::Table(w)) => w,
        _ => {
            let only = vec![root.to_owned()];
            assert(views(only@) =~= seq![root@]);
            return Ok(only);
        },
    };
    let patterns = strings_in(get(w, "members"));
    let ghost ps = views(patterns@);
    let ghost globs = disk@.globs;
    let mut out: Vec<String> = Vec::new();
    let mut k: usize = 0;
    assert(views(out@) =~= Seq::<Seq<char>>::empty());
    while k < patterns.len()
        invariant
            k <= patterns@.len(),
            ps == views(patterns@),
            globs == disk@.globs,
            package_dirs(root@, toml_entries(manifest@), globs, here@) == members_upto(root@, ps, globs, here@, ps.len() as int),
            members_upto(root@, ps, globs, here@, k as int) == Ok::<_, Seq<char>>(views(out@)),
        decreases patterns@.len() - k,
    {
        assert(ps[k as int] == patterns@[k as int]@);
        let p = crate::path::join(root, patterns[k].as_str());
        let ghost was = out@;
        if has_char(p.as_str(), '*') || has_char(p.as_str(), '?') || has_char(p.as_str(), '[') {
            assert(globs.contains_key(p@) == disk.globs@.contains_key(p@));
            match disk.globs.get(p.as_str()) {
                Some(Some(l)) => {
                    assert(globs[p@] == Some(views(l@)));
                    add_cleaned(&mut out, l);
                },
                _ => {
                    proof {
                        lemma_members_error(root@, ps, globs, here@, k + 1, ps.len() as int);
                    }
                    return Err(patterns[k].clone());
                },
            }
        } else if here.contains(p.as_str()) {
            out.push(clean_path(p.as_str()));
            assert(views(out@) =~= views(was).push(clean(p@)));
        }
        k += 1;
    }
    assert(ps.len() == patterns@.len());
    Ok(out)
}

/// Whether a member of the workspace is what is asked for.
pub fn member_match(pkg: &Package, name: &str, partial: Option<&PartialVer>) -> (r: bool)
    ensures
        r == (pkg@.name == name@ && wanted(partial_ref(partial), pkg@.version)),
{
    same(pkg.name.as_str(), name) && is_wanted(partial, &pkg.version)
}

pub open spec fn versions_locked(l: Seq<LockPkgView>) -> Seq<VersionView> {
    Seq::new(l.len(), |i: int| l[i].version)
}

/// The package is locked to a version of crates.io that is asked for.
pub open spec fn counts(p: LockPkgView, name: Seq<char>, partial: Option<Seq<u64>>) -> bool {
    p.name == name && (p.source matches Some(s) && holds(s, "crates.io"@)) && wanted(partial, p.version)
}

/// The newest version that the lockfile has of a package of crates.io, of those that are asked for.
pub open spec fn locked_as(l: Seq<LockPkgView>, name: Seq<char>, partial: Option<Seq<u64>>) -> Option<VersionView> {
    match newest_upto(versions_locked(l), |i: int| counts(l[i], name, partial), l.len() as int) {
        Some(k) => Some(l[k].version),
        None => None,
    }
}

/// The newest version that the lockfile has of a package of crates.io, of those that are asked for.
pub fn lock_version(lock: &Lockfile, name: &str, partial: Option<&PartialVer>) -> (r: Option<Version>)
    ensures
        opt_view(r) == locked_as(lock@.packages, name@, partial_ref(partial)),
{
    proof {
        reveal_strlit("crates.io");
    }
    let ghost lv = lock@.packages;
    let ghost vs = versions_locked(lv);
    let ghost pa = partial_ref(partial);
    let ghost keep = |i: int| counts(lv[i], name@, pa);
    let l = &lock.packages;
    let mut best: Option<usize> = None;
    let mut k: usize = 0;
    while k < l.len()
        invariant
            k <= l@.len(),
            lv == views(l@),
            vs == versions_locked(lv),
            pa == partial_ref(partial),
            keep == (|i: int| counts(lv[i], name@, pa)),
            "crates.io"@.len() > 0,
            match best {
                Some(b) => newest_upto(vs, keep, k as int) == Some(b as int) && b < k,
                None => newest_upto(vs, keep, k as int).is_none(),
            },
        decreases l@.len() - k,
    {
        assert(lv[k as int] == l@[k as int]@);
        let named = match &l[k].source {
            Some(s) => contains(s.as_str(), "crates.io"),
            None => false,
        };
        let fits = same(l[k].name.as_str(), name) && named && is_wanted(partial, &l[k].version);
        assert(fits == keep(k as int));
        if fits {
            best = match best {
                Some(b) => {
                    assert(lv[b as int] == l@[b as int]@);
                    if is_older(&l[k].version, &l[b].version) {
                        Some(b)
                    } else {
                        Some(k)
                    }
                },
                None => Some(k),
            };
        }
        k += 1;
    }
    assert(lv.len() == l@.len());
    match best {
        Some(b) => {
            assert(lv[b as int] == l@[b as int]@);
            Some(l[b].version.dup())
        },
        None => None,
    }
}

/// The names under which the registry may have a package, in the order in which they are tried.
pub open spec fn names_tried(name: Seq<char>) -> Seq<Seq<char>> {
    let lower = lowercase(name);
    let hyphen = swapped(lower, '_', '-');
    let two = if lower != name {
        seq![name, lower]
    } else {
        seq![name]
    };
    if two.contains(hyphen) {
        two
    } else {
        two.push(hyphen)
    }
}

/// The names under which the registry may have a package, in the order in which they are tried.
pub fn lookup_names(name: &str) -> (r: Vec<String>)
    ensures
        views(r@) == names_tried(name@),
{
    let mut names: Vec<String> = Vec::new();
    names.push(name.to_owned());
    let lower = to_lower(name);
    if !same(lower.as_str(), name) {
        names.push(lower.clone());
        assert(views(names@) =~= seq![name@, lower@]);
    } else {
        assert(views(names@) =~= seq![name@]);
    }
    let ghost two = views(names@);
    let hyphen = replace_char(lower.as_str(), '_', '-');
    if !any_is(&names, hyphen.as_str()) {
        names.push(hyphen.clone());
        assert(views(names@) =~= two.push(hyphen@));
    }
    names
}

/// The compiler is new enough for the entry.
pub open spec fn supported(e: IndexEntryView, rustc: Option<VersionView>) -> bool {
    match (e.rust_version, rustc) {
        (Some(m), Some(r)) => !older(r, m),
        _ => true,
    }
}

pub open spec fn ref_view(v: Option<&Version>) -> Option<VersionView> {
    match v {
        Some(v) => Some(v@),
        None => None,
    }
}

fn is_supported(e: &IndexEntry, rustc: Option<&Version>) -> (r: bool)
    ensures
        r == supported(e@, ref_view(rustc)),
{
    match (&e.rust_version, rustc) {
        (Some(m), Some(r)) => !is_older(r, m),
        _ => true,
    }
}

/// The newest entry that is asked for and not yanked, of those for this compiler or of all.
pub open spec fn newest_wanted(
    es: Seq<IndexEntryView>,
    partial: Option<Seq<u64>>,
    rustc: Option<VersionView>,
    fitting: bool,
) -> Option<int> {
    newest_upto(
        versions_of(es),
        |i: int| !es[i].yanked && wanted(partial, es[i].vers) && (fitting ==> supported(es[i], rustc)),
        es.len() as int,
    )
}

fn find_wanted(es: &Vec<IndexEntry>, partial: Option<&PartialVer>, rustc: Option<&Version>, fitting: bool) -> (r: Option<usize>)
    ensures
        match r {
            Some(k) => newest_wanted(views(es@), partial_ref(partial), ref_view(rustc), fitting) == Some(k as int) && k
                < es@.len(),
            None => newest_wanted(views(es@), partial_ref(partial), ref_view(rustc), fitting).is_none(),
        },
{
    let ghost ev = views(es@);
    let ghost vs = versions_of(ev);
    let ghost pa = partial_ref(partial);
    let ghost ru = ref_view(rustc);
    let ghost keep = |i: int| !ev[i].yanked && wanted(pa, ev[i].vers) && (fitting ==> supported(ev[i], ru));
    let mut best: Option<usize> = None;
    let mut k: usize = 0;
    while k < es.len()
        invariant
            k <= es@.len(),
            ev == views(es@),
            vs == versions_of(ev),
            pa == partial_ref(partial),
            ru == ref_view(rustc),
            keep == (|i: int| !ev[i].yanked && wanted(pa, ev[i].vers) && (fitting ==> supported(ev[i], ru))),
            match best {
                Some(b) => newest_upto(vs, keep, k as int) == Some(b as int) && b < k,
                None => newest_upto(vs, keep, k as int).is_none(),
            },
        decreases es@.len() - k,
    {
        assert(ev[k as int] == es@[k as int]@);
        let fits = !es[k].yanked && is_wanted(partial, &es[k].vers) && (!fitting || is_supported(&es[k], rustc));
        assert(fits == keep(k as int));
        if fits {
            best = match best {
                Some(b) => {
                    assert(ev[b as int] == es@[b as int]@);
                    if is_older(&es[k].vers, &es[b].vers) {
                        Some(b)
                    } else {
                        Some(k)
                    }
                },
                None => Some(k),
            };
        }
        k += 1;
    }
    assert(ev.len() == es@.len());
    best
}

/// What is taken from the registry.
#[derive(Debug)]
pub struct Choice {
    /// The name that the registry has for it.
    pub canonical: String,
    /// Whether that is another one than was asked for.
    pub translated: bool,
    /// The newest version that is not yanked.
    pub latest: Option<Version>,
    pub chosen: Version,
    pub checksum: Option<String>,
}

pub struct ChoiceView {
    pub canonical: Seq<char>,
    pub translated: bool,
    pub latest: Option<VersionView>,
    pub chosen: VersionView,
    pub checksum: Option<Seq<char>>,
}

impl View for Choice {
    type V = ChoiceView;

    open spec fn view(&self) -> ChoiceView {
        ChoiceView {
            canonical: self.canonical@,
            translated: self.translated,
            latest: opt_view(self.latest),
            chosen: self.chosen@,
            checksum: opt_view(self.checksum),
        }
    }
}

/// The checksum of the first entry from `k` on with the version.
pub open spec fn checksum_from(es: Seq<IndexEntryView>, v: VersionView, k: int) -> Option<Seq<char>>
    decreases es.len() - k,
{
    if k < 0 || k >= es.len() {
        None
    } else if es[k].vers == v {
        Some(es[k].cksum)
    } else {
        checksum_from(es, v, k + 1)
    }
}

/// The version to show: the locked one; else the newest that this compiler builds; else the newest.
pub open spec fn version_shown(
    es: Seq<IndexEntryView>,
    partial: Option<Seq<u64>>,
    locked: Option<VersionView>,
    rustc: Option<VersionView>,
) -> Option<VersionView> {
    match locked {
        Some(v) => Some(v),
        None => match newest_wanted(es, partial, rustc, true) {
            Some(k) => Some(es[k].vers),
            None => match newest_wanted(es, partial, rustc, false) {
                Some(k) => Some(es[k].vers),
                None => None,
            },
        },
    }
}

/// What is taken of the entries of a package. There are none where the registry does not have it.
pub open spec fn choice_of(
    es: Seq<IndexEntryView>,
    requested: Seq<char>,
    partial: Option<Seq<u64>>,
    locked: Option<VersionView>,
    rustc: Option<VersionView>,
) -> Option<ChoiceView> {
    match (es.len() > 0, version_shown(es, partial, locked, rustc)) {
        (true, Some(v)) => Some(
            ChoiceView {
                canonical: es[0].name,
                translated: es[0].name != requested,
                latest: match newest_of(es, None) {
                    Some(k) => Some(es[k].vers),
                    None => None,
                },
                chosen: v,
                checksum: checksum_from(es, v, 0),
            },
        ),
        _ => None,
    }
}

fn find_checksum(es: &Vec<IndexEntry>, v: &Version) -> (r: Option<String>)
    ensures
        opt_view(r) == checksum_from(views(es@), v@, 0),
{
    let ghost ev = views(es@);
    let mut k: usize = 0;
    while k < es.len()
        invariant
            k <= es@.len(),
            ev == views(es@),
            checksum_from(ev, v@, 0) == checksum_from(ev, v@, k as int),
        decreases es@.len() - k,
    {
        assert(ev[k as int] == es@[k as int]@);
        if es[k].vers.same_as(v) {
            return Some(es[k].cksum.clone());
        }
        k += 1;
    }
    assert(ev.len() == es@.len());
    None
}

/// What to show of a package of the registry, from the entries of the first name that has some.
pub fn registry_package(
    entries: &Vec<IndexEntry>,
    requested: &str,
    partial: Option<&PartialVer>,
    locked: Option<&Version>,
    rustc: Option<&Version>,
) -> (r: Result<Choice, InfoError>)
    ensures
        match choice_of(views(entries@), requested@, partial_ref(partial), ref_view(locked), ref_view(rustc)) {
            Some(c) => r matches Ok(x) && x@ == c,
            None => r matches Err(x) && x@ == InfoFault::NotFound,
        },
{
    let ghost ev = views(entries@);
    assert(ev.len() == entries@.len());
    if entries.len() == 0 {
        return Err(InfoError::NotFound);
    }
    assert(ev[0] == entries@[0]@);
    let latest = match newest(entries, None) {
        Some(k) => {
            assert(ev[k as int] == entries@[k as int]@);
            Some(entries[k].vers.dup())
        },
        None => None,
    };
    let chosen = match locked {
        Some(v) => v.dup(),
        None => match find_wanted(entries, partial, rustc, true) {
            Some(k) => {
                assert(ev[k as int] == entries@[k as int]@);
                entries[k].vers.dup()
            },
            None => match find_wanted(entries, partial, rustc, false) {
                Some(k) => {
                    assert(ev[k as int] == entries@[k as int]@);
                    entries[k].vers.dup()
                },
                None => {
                    return Err(InfoError::NotFound);
                },
            },
        },
    };
    let checksum = find_checksum(entries, &chosen);
    let canonical = entries[0].name.clone();
    let translated = !same(canonical.as_str(), requested);
    Ok(Choice { canonical, translated, latest, chosen, checksum })
}

/// The newest version, where it is another one than the one that is shown.
pub fn other_latest(latest: Option<Version>, shown: &Version) -> (r: Option<Version>)
    ensures
        opt_view(r) == (match latest {
            Some(v) => if v@ == shown@ {
                None
            } else {
                Some(v@)
            },
            None => None,
        }),
{
    match latest {
        Some(v) => if v.same_as(shown) {
            None
        } else {
            Some(v)
        },
        None => None,
    }
}

// ---------------------------------------------------------------------------
// Features.

/// A value that stands for a feature of the package itself.
pub open spec fn plain(v: Seq<char>) -> bool {
    !starts(v, "dep:"@) && !v.contains('/')
}

/// The set has, with a feature, the features that it turns on.
pub open spec fn keeps_values(f: FeatureMap, c: Set<Seq<char>>) -> bool {
    forall|n: Seq<char>, j: int|
        #![trigger f[n][j]]
        f.contains_key(n) && c.contains(n) && 0 <= j < f[n].len() && plain(f[n][j]) ==> c.contains(f[n][j])
}

/// The feature is on by default: it is in each set that has `default` and what its features turn on.
pub open spec fn on_by_default(f: FeatureMap, x: Seq<char>) -> bool {
    forall|c: Set<Seq<char>>| c.contains("default"@) && keeps_values(f, c) ==> #[trigger] c.contains(x)
}

fn is_plain(v: &str) -> (r: bool)
    ensures
        r == plain(v@),
{
    !starts_with(v, "dep:") && !has_char(v, '/')
}

/// One pass over the features: adds those that the ones in the set turn on; whether it grew.
fn turn_on(names: &mut StrSet, m: &StrMap<Vec<String>>) -> (r: bool)
    requires
        forall|x: Seq<char>| #[trigger] old(names)@.contains(x) ==> on_by_default(feature_lists(m@), x),
    ensures
        old(names)@.subset_of(final(names)@),
        forall|x: Seq<char>| #[trigger] final(names)@.contains(x) ==> on_by_default(feature_lists(m@), x),
        !r ==> final(names)@ == old(names)@ && forall|n: Seq<char>, j: int|
            #![trigger feature_lists(m@)[n][j]]
            m@.contains_key(n) && final(names)@.contains(n) && 0 <= j < feature_lists(m@)[n].len() && plain(
                feature_lists(m@)[n][j],
            ) && m@.contains_key(feature_lists(m@)[n][j]) ==> final(names)@.contains(feature_lists(m@)[n][j]),
        r ==> exists|x: Seq<char>| m@.contains_key(x) && #[trigger] final(names)@.contains(x) && !old(names)@.contains(x),
{
    let ghost f = feature_lists(m@);
    let ghost was = names@;
    let keys = m.keys();
    let ghost kv = views(keys@);
    let mut grew: bool = false;
    let mut i: usize = 0;
    while i < keys.len()
        invariant
            i <= keys@.len(),
            kv == views(keys@),
            kv.to_set() == m@.dom(),
            f == feature_lists(m@),
            was == old(names)@,
            was.subset_of(names@),
            forall|x: Seq<char>| #[trigger] names@.contains(x) ==> on_by_default(f, x),
            !grew ==> names@ == was,
            !grew ==> forall|a: int, j: int|
                #![trigger f[kv[a]][j]]
                0 <= a < i && names@.contains(kv[a]) && 0 <= j < f[kv[a]].len() && plain(f[kv[a]][j]) && m@.contains_key(
                    f[kv[a]][j],
                ) ==> names@.contains(f[kv[a]][j]),
            grew ==> exists|x: Seq<char>| m@.contains_key(x) && #[trigger] names@.contains(x) && !was.contains(x),
        decreases keys@.len() - i,
    {
        let key = keys[i].as_str();
        assert(kv[i as int] == key@);
        assert(kv.contains(kv[i as int]));
        assert(m@.dom().contains(key@));
        if names.contains(key) {
            if let Some(vs) = m.get(key) {
                let ghost vv = views(vs@);
                assert(f[key@] == vv);
                let mut j: usize = 0;
                while j < vs.len()
                    invariant
                        i < keys@.len(),
                        j <= vs@.len(),
                        kv == views(keys@),
                        f == feature_lists(m@),
                        key@ == kv[i as int],
                        f.contains_key(key@),
                        f[key@] == vv,
                        vv == views(vs@),
                        was == old(names)@,
                        was.subset_of(names@),
                        names@.contains(key@),
                        forall|x: Seq<char>| #[trigger] names@.contains(x) ==> on_by_default(f, x),
                        !grew ==> names@ == was,
                        !grew ==> forall|a: int, b: int|
                            #![trigger f[kv[a]][b]]
                            0 <= a < i && names@.contains(kv[a]) && 0 <= b < f[kv[a]].len() && plain(f[kv[a]][b])
                                && m@.contains_key(f[kv[a]][b]) ==> names@.contains(f[kv[a]][b]),
                        !grew ==> forall|b: int|
                            0 <= b < j && plain(#[trigger] vv[b]) && m@.contains_key(vv[b]) ==> names@.contains(vv[b]),
                        grew ==> exists|x: Seq<char>| m@.contains_key(x) && #[trigger] names@.contains(x) && !was.contains(x),
                    decreases vs@.len() - j,
                {
                    assert(vv[j as int] == vs@[j as int]@);
                    let v = vs[j].as_str();
                    let ghost now = names@;
                    if is_plain(v) && m.has(v) {
                        assert(on_by_default(f, v@)) by {
                            assert(on_by_default(f, key@));
                            assert forall|c: Set<Seq<char>>| c.contains("default"@) && keeps_values(f, c) implies #[trigger] c.contains(
                                v@,
                            ) by {
                                assert(c.contains(key@));
                                assert(c.contains(f[key@][j as int]));
                            }
                        }
                        let fresh = names.insert(v);
                        if fresh {
                            grew = true;
                            assert(names@.contains(v@));
                        } else {
                            assert(names@ =~= now);
                        }
                    }
                    j += 1;
                }
                assert(vv.len() == vs@.len());
            }
        }
        i += 1;
    }
    proof {
        assert(kv.len() == keys@.len());
        if !grew {
            assert forall|n: Seq<char>, j: int|
                #![trigger f[n][j]]
                m@.contains_key(n) && names@.contains(n) && 0 <= j < f[n].len() && plain(f[n][j]) && m@.contains_key(
                    f[n][j],
                ) implies names@.contains(f[n][j]) by {
                assert(kv.to_set().contains(n));
                let a = choose|a: int| 0 <= a < kv.len() && kv[a] == n;
                assert(plain(f[kv[a]][j]));
            }
        }
    }
    grew
}

/// The features that are on by default, of those that the package has.
fn default_features(m: &StrMap<Vec<String>>) -> (r: StrSet)
    ensures
        forall|x: Seq<char>|
            m@.contains_key(x) ==> (#[trigger] r@.contains(x) == on_by_default(feature_lists(m@), x)),
{
    let ghost f = feature_lists(m@);
    let mut names = StrSet::new();
    names.insert("default");
    assert forall|x: Seq<char>| #[trigger] names@.contains(x) implies on_by_default(f, x) by {}
    let ghost mut left: Set<Seq<char>> = m@.dom().difference(names@);
    proof {
        m.lemma_key_list();
        vstd::seq_lib::seq_to_set_is_finite(m.key_list());
    }
    let mut more: bool = true;
    while more
        invariant
            f == feature_lists(m@),
            names@.contains("default"@),
            forall|x: Seq<char>| #[trigger] names@.contains(x) ==> on_by_default(f, x),
            !more ==> forall|n: Seq<char>, j: int|
                #![trigger f[n][j]]
                m@.contains_key(n) && names@.contains(n) && 0 <= j < f[n].len() && plain(f[n][j]) && m@.contains_key(
                    f[n][j],
                ) ==> names@.contains(f[n][j]),
            m@.dom().finite(),
            left == m@.dom().difference(names@),
        decreases left.len(), if more { 1int } else { 0int },
    {
        let ghost was = names@;
        more = turn_on(&mut names, m);
        proof {
            let now = m@.dom().difference(names@);
            if more {
                let x = choose|x: Seq<char>| m@.contains_key(x) && #[trigger] names@.contains(x) && !was.contains(x);
                assert(left.contains(x) && !now.contains(x));
                assert(now.subset_of(left.remove(x)));
                vstd::set_lib::lemma_len_subset(now, left.remove(x));
            } else {
                assert(now =~= left);
            }
            left = now;
        }
    }
    assert forall|x: Seq<char>| m@.contains_key(x) implies (#[trigger] names@.contains(x) == on_by_default(f, x)) by {
        if on_by_default(f, x) {
            let c = Set::new(|y: Seq<char>| names@.contains(y) || !m@.contains_key(y));
            assert(keeps_values(f, c));
            assert(c.contains("default"@));
            assert(c.contains(x));
        }
    }
    names
}

/// A line of a list, by its group and its name.
#[derive(Debug)]
pub struct Shown {
    /// What is on by itself comes first, what is turned on next, and what is off last.
    pub group: u8,
    pub name: String,
    pub at: usize,
}

pub type ShownView = (u8, (Seq<char>, usize));

impl View for Shown {
    type V = ShownView;

    open spec fn view(&self) -> ShownView {
        (self.group, (self.name@, self.at))
    }
}

impl Ranked for Shown {
    open spec fn leq(a: ShownView, b: ShownView) -> bool {
        a.0 < b.0 || (a.0 == b.0 && (before(a.1.0, b.1.0) || (a.1.0 == b.1.0 && a.1.1 <= b.1.1)))
    }

    proof fn lemma_total() {
        let leq = |a: ShownView, b: ShownView| Self::leq(a, b);
        assert forall|x: ShownView, y: ShownView| #[trigger] leq(x, y) && #[trigger] leq(y, x) implies x == y by {
            if before(x.1.0, y.1.0) {
                lemma_before_asymmetric(x.1.0, y.1.0);
            }
            lemma_before_irreflexive(x.1.0);
        }
        assert forall|x: ShownView, y: ShownView, z: ShownView| #[trigger] leq(x, y) && #[trigger] leq(y, z) implies leq(
            x,
            z,
        ) by {
            if before(x.1.0, y.1.0) && before(y.1.0, z.1.0) {
                lemma_before_transitive(x.1.0, y.1.0, z.1.0);
            }
        }
        assert forall|x: ShownView, y: ShownView| #[trigger] leq(x, y) || #[trigger] leq(y, x) by {
            lemma_before_total(x.1.0, y.1.0);
        }
    }

    fn not_after(&self, other: &Shown) -> (r: bool) {
        proof {
            lemma_before_irreflexive(self.name@);
        }
        if self.group != other.group {
            self.group < other.group
        } else if same(self.name.as_str(), other.name.as_str()) {
            self.at <= other.at
        } else {
            is_before(self.name.as_str(), other.name.as_str())
        }
    }
}

/// The group of a feature.
pub open spec fn feature_group(f: FeatureMap, n: Seq<char>) -> u8 {
    if n == "default"@ {
        0
    } else if on_by_default(f, n) {
        1
    } else {
        2
    }
}

/// The longest name, in bytes.
pub open spec fn margin_upto(l: Seq<Seq<char>>, n: int) -> nat
    decreases n,
{
    if n <= 0 || n > l.len() {
        0
    } else if byte_len(l[n - 1]) > margin_upto(l, n - 1) {
        byte_len(l[n - 1])
    } else {
        margin_upto(l, n - 1)
    }
}

pub open spec fn mark_of(group: u8) -> Seq<char> {
    if group == 0 {
        "+"@
    } else {
        " "@
    }
}

pub open spec fn feature_line(f: FeatureMap, s: ShownView, margin: nat) -> Seq<char> {
    " "@ + mark_of(s.0) + s.1.0 + times(' ', margin - s.1.0.len()) + " = ["@ + joined(f[s.1.0], ", "@) + "]\n"@
}

pub open spec fn feature_lines(f: FeatureMap, l: Seq<ShownView>, margin: nat, n: int) -> Seq<char>
    decreases n,
{
    if n <= 0 || n > l.len() {
        Seq::empty()
    } else {
        feature_lines(f, l, margin, n - 1) + feature_line(f, l[n - 1], margin)
    }
}

/// Each feature with its group.
pub open spec fn features_shown(f: FeatureMap) -> Seq<ShownView> {
    let l = listed(f.dom());
    Seq::new(l.len(), |i: int| (feature_group(f, l[i]), (l[i], 0usize)))
}

/// The features of a package, those that are on by default first.
pub open spec fn features_text(f: FeatureMap) -> Seq<char> {
    let l = listed(f.dom());
    let margin = margin_upto(l, l.len() as int);
    if margin == 0 {
        Seq::empty()
    } else {
        let s = in_order::<Shown>(features_shown(f));
        "features:\n"@ + feature_lines(f, s, margin, s.len() as int)
    }
}

fn find_margin(l: &Vec<String>) -> (r: usize)
    ensures
        r == margin_upto(views(l@), l@.len() as int),
{
    let ghost lv = views(l@);
    let mut out: usize = 0;
    let mut k: usize = 0;
    while k < l.len()
        invariant
            k <= l@.len(),
            lv == views(l@),
            out == margin_upto(lv, k as int),
        decreases l@.len() - k,
    {
        assert(lv[k as int] == l@[k as int]@);
        let n: usize = l[k].as_str().as_bytes().len();
        if n > out {
            out = n;
        }
        k += 1;
    }
    out
}

fn mark(group: u8) -> (r: &'static str)
    ensures
        r@ == mark_of(group),
{
    if group == 0 {
        "+"
    } else {
        " "
    }
}

fn pad(s: &str, width: usize) -> (r: String)
    ensures
        r@ == s@ + times(' ', width - s@.len()),
{
    let n: usize = chars_of(s).len();
    if n >= width {
        assert(s@ + times(' ', width - n) =~= s@);
        s.to_owned()
    } else {
        cat(s, repeat(' ', width - n).as_str())
    }
}

/// The features of a package, those that are on by default first.
pub fn render_features(m: &StrMap<Vec<String>>) -> (r: String)
    ensures
        r@ == features_text(feature_lists(m@)),
{
    let ghost f = feature_lists(m@);
    let keys = m.keys();
    let ghost kv = views(keys@);
    assert(f.dom() =~= m@.dom());
    let margin: usize = find_margin(keys);
    proof {
        reveal_strlit("");
        assert(kv.len() == keys@.len());
    }
    if margin == 0 {
        assert(""@ =~= Seq::<char>::empty());
        return "".to_owned();
    }
    let on = default_features(m);
    let ghost want = features_shown(f);
    let mut list: Vec<Shown> = Vec::new();
    let mut k: usize = 0;
    while k < keys.len()
        invariant
            k <= keys@.len(),
            kv == views(keys@),
            kv == listed(f.dom()),
            kv.to_set() == m@.dom(),
            f == feature_lists(m@),
            want == features_shown(f),
            forall|x: Seq<char>| m@.contains_key(x) ==> (#[trigger] on@.contains(x) == on_by_default(f, x)),
            list@.len() == k,
            forall|j: int| 0 <= j < k ==> (#[trigger] list@[j])@ == want[j],
        decreases keys@.len() - k,
    {
        assert(kv[k as int] == keys@[k as int]@);
        assert(kv.contains(kv[k as int]));
        assert(m@.dom().contains(kv[k as int]));
        let n = keys[k].as_str();
        let group: u8 = if same(n, "default") {
            0
        } else if on.contains(n) {
            1
        } else {
            2
        };
        list.push(Shown { group, name: keys[k].clone(), at: 0 });
        k += 1;
    }
    assert(kv.len() == keys@.len());
    assert(views(list@) =~= want);
    let ghost before_sort = list@;
    let list = sort(list);
    let ghost lv = views(list@);
    let mut out = String::new();
    let mut k: usize = 0;
    assert(out@ =~= Seq::<char>::empty());
    while k < list.len()
        invariant
            k <= list@.len(),
            lv == views(list@),
            f == feature_lists(m@),
            out@ == feature_lines(f, lv, margin as nat, k as int),
            lv == in_order::<Shown>(features_shown(f)),
            f.dom() == m@.dom(),
            kv == listed(f.dom()),
            kv.to_set() == m@.dom(),
        decreases list@.len() - k,
    {
        assert(lv[k as int] == list@[k as int]@);
        let s = &list[k];
        proof {
            lemma_shown_are_features(f, lv[k as int]);
        }
        let values = match m.get(s.name.as_str()) {
            Some(vs) => join(vs, ", "),
            None => "".to_owned(),
        };
        let head = cat3(" ", mark(s.group), pad(s.name.as_str(), margin).as_str());
        let line = cat4(head.as_str(), " = [", values.as_str(), "]\n");
        assert(line@ =~= feature_line(f, lv[k as int], margin as nat));
        out = cat(out.as_str(), line.as_str());
        k += 1;
    }
    assert(lv.len() == list@.len());
    cat("features:\n", out.as_str())
}

/// What is listed is a feature of the package.
proof fn lemma_shown_are_features(f: FeatureMap, x: ShownView)
    requires
        in_order::<Shown>(features_shown(f)).contains(x),
        listed(f.dom()).to_set() == f.dom(),
    ensures
        f.contains_key(x.1.0),
{
    let s = features_shown(f);
    let leq = |a: ShownView, b: ShownView| Shown::leq(a, b);
    Shown::lemma_total();
    s.lemma_sort_by_ensures(leq);
    let t = s.sort_by(leq);
    s.to_multiset_ensures();
    t.to_multiset_ensures();
    assert(t.to_multiset().contains(x));
    assert(s.to_multiset().contains(x));
    assert(s.contains(x));
    let i = choose|i: int| 0 <= i < s.len() && s[i] == x;
    assert(listed(f.dom()).contains(listed(f.dom())[i]));
    assert(f.dom().contains(x.1.0));
}

// ---------------------------------------------------------------------------
// Dependencies.

/// The name without the question marks at its end.
pub open spec fn without_marks(s: Seq<char>) -> Seq<char>
    decreases s.len(),
{
    if s.len() > 0 && s.last() == '?' {
        without_marks(s.drop_last())
    } else {
        s
    }
}

/// The value of a feature turns the dependency on.
pub open spec fn turns_on(v: Seq<char>, name: Seq<char>) -> bool {
    after_prefix(v, "dep:"@) == Some(name) || (split_first(v, '/') matches Some((n, _)) && without_marks(n) == name)
}

/// A value of a feature that is on by default turns the dependency on.
pub open spec fn activated(f: FeatureMap, name: Seq<char>) -> bool {
    exists|n: Seq<char>, j: int|
        #![trigger f[n][j]]
        f.contains_key(n) && (n == "default"@ || on_by_default(f, n)) && 0 <= j < f[n].len() && turns_on(f[n][j], name)
}

pub open spec fn dep_group(f: FeatureMap, d: DepDeclView) -> u8 {
    if !d.optional {
        0
    } else if activated(f, d.called()) {
        1
    } else {
        2
    }
}

fn trim_marks(s: &str) -> (r: String)
    ensures
        r@ == without_marks(s@),
    decreases s@.len(),
{
    proof {
        reveal_strlit("?");
        lemma_marks(s@);
    }
    match strip_suffix(s, "?") {
        Some(t) => trim_marks(t),
        None => s.to_owned(),
    }
}

proof fn lemma_marks(s: Seq<char>)
    ensures
        "?"@.len() == 1,
        crate::text::before_suffix(s, "?"@) == (if s.len() > 0 && s.last() == '?' {
            Some(s.drop_last())
        } else {
            None
        }),
{
    reveal_strlit("?");
    if s.len() > 0 && s.last() == '?' {
        assert(s.subrange(s.len() - 1, s.len() as int) =~= "?"@);
        assert(s.subrange(0, s.len() - 1) =~= s.drop_last());
        assert(s.take(s.len() - 1) =~= s.drop_last());
        assert(s.skip(s.len() - 1) =~= "?"@);
        assert(crate::text::ends(s, "?"@));
    } else {
        if s.len() > 0 {
            assert("?"@[0] == '?');
            if crate::text::ends(s, "?"@) {
                assert(s.skip(s.len() - 1)[0] == s.last());
                assert(s.subrange(s.len() - 1, s.len() as int)[0] == s.last());
            }
        }
    }
}

fn is_turned_on(v: &str, name: &str) -> (r: bool)
    ensures
        r == turns_on(v@, name@),
{
    if let Some(n) = strip_prefix(v, "dep:") {
        if same(n, name) {
            return true;
        }
    }
    match split_once(v, '/') {
        Some((n, _)) => same(trim_marks(n).as_str(), name),
        None => false,
    }
}

fn is_activated(m: &StrMap<Vec<String>>, on: &StrSet, name: &str) -> (r: bool)
    requires
        forall|x: Seq<char>|
            m@.contains_key(x) ==> (#[trigger] on@.contains(x) == on_by_default(feature_lists(m@), x)),
    ensures
        r == activated(feature_lists(m@), name@),
{
    let ghost f = feature_lists(m@);
    let keys = m.keys();
    let ghost kv = views(keys@);
    let mut i: usize = 0;
    while i < keys.len()
        invariant
            i <= keys@.len(),
            kv == views(keys@),
            kv.to_set() == m@.dom(),
            f == feature_lists(m@),
            forall|x: Seq<char>| m@.contains_key(x) ==> (#[trigger] on@.contains(x) == on_by_default(f, x)),
            forall|a: int, j: int|
                #![trigger f[kv[a]][j]]
                0 <= a < i && (kv[a] == "default"@ || on_by_default(f, kv[a])) && 0 <= j < f[kv[a]].len() ==> !turns_on(
                    f[kv[a]][j],
                    name@,
                ),
        decreases keys@.len() - i,
    {
        let key = keys[i].as_str();
        assert(kv[i as int] == key@);
        assert(kv.contains(kv[i as int]));
        assert(m@.dom().contains(key@));
        if same(key, "default") || on.contains(key) {
            if let Some(vs) = m.get(key) {
                let ghost vv = views(vs@);
                assert(f[key@] == vv);
                let mut j: usize = 0;
                while j < vs.len()
                    invariant
                        j <= vs@.len(),
                        vv == views(vs@),
                        f[key@] == vv,
                        f.contains_key(key@),
                        key@ == "default"@ || on_by_default(f, key@),
                        f == feature_lists(m@),
                        forall|b: int| 0 <= b < j ==> !turns_on(#[trigger] vv[b], name@),
                    decreases vs@.len() - j,
                {
                    assert(vv[j as int] == vs@[j as int]@);
                    if is_turned_on(vs[j].as_str(), name) {
                        assert(turns_on(f[key@][j as int], name@));
                        return true;
                    }
                    j += 1;
                }
                assert(vv.len() == vs@.len());
            }
        }
        i += 1;
    }
    proof {
        assert(kv.len() == keys@.len());
        if activated(f, name@) {
            let (n, j) = choose|n: Seq<char>, j: int|
                #![trigger f[n][j]]
                f.contains_key(n) && (n == "default"@ || on_by_default(f, n)) && 0 <= j < f[n].len() && turns_on(
                    f[n][j],
                    name@,
                );
            assert(m@.contains_key(n));
            assert(kv.to_set().contains(n));
            let a = choose|a: int| 0 <= a < kv.len() && kv[a] == n;
            assert(turns_on(f[kv[a]][j], name@));
        }
    }
    false
}

/// A requirement without the caret, where it is the only comparator.
pub open spec fn pretty(req: Seq<char>) -> Seq<char> {
    match after_prefix(req, "^"@) {
        Some(rest) => if req.contains(',') {
            req
        } else {
            rest
        },
        None => req,
    }
}

fn pretty_req(req: &str) -> (r: String)
    ensures
        r@ == pretty(req@),
{
    match strip_prefix(req, "^") {
        Some(rest) => if has_char(req, ',') {
            req.to_owned()
        } else {
            rest.to_owned()
        },
        None => req.to_owned(),
    }
}

pub open spec fn dep_text(d: DepDeclView, group: u8) -> Seq<char> {
    " "@ + mark_of(group) + d.name + (match d.source {
        DepSourceView::Registry(_) => "@"@ + pretty(d.req),
        _ => Seq::empty(),
    }) + "\n"@
}

/// The first `n` dependencies of the kind, each with its group.
pub open spec fn deps_shown(f: FeatureMap, ds: Seq<DepDeclView>, kind: DepKind, n: int) -> Seq<ShownView>
    decreases n,
{
    if n <= 0 || n > ds.len() {
        Seq::empty()
    } else if ds[n - 1].kind == kind {
        deps_shown(f, ds, kind, n - 1).push((dep_group(f, ds[n - 1]), (ds[n - 1].name, (n - 1) as usize)))
    } else {
        deps_shown(f, ds, kind, n - 1)
    }
}

pub open spec fn dep_lines(ds: Seq<DepDeclView>, l: Seq<ShownView>, n: int) -> Seq<char>
    decreases n,
{
    if n <= 0 || n > l.len() {
        Seq::empty()
    } else {
        dep_lines(ds, l, n - 1) + dep_text(ds[l[n - 1].1.1 as int], l[n - 1].0)
    }
}

/// The dependencies of a kind: those that are always there first, and those that are off last.
pub open spec fn deps_text(p: PackageView, kind: DepKind, header: Seq<char>) -> Seq<char> {
    let l = deps_shown(p.features, p.deps, kind, p.deps.len() as int);
    if l.len() == 0 {
        Seq::empty()
    } else {
        let s = in_order::<Shown>(l);
        header + ":\n"@ + dep_lines(p.deps, s, s.len() as int)
    }
}

proof fn lemma_deps_shown(f: FeatureMap, ds: Seq<DepDeclView>, kind: DepKind, n: int, x: ShownView)
    requires
        0 <= n <= ds.len(),
        ds.len() <= usize::MAX,
        deps_shown(f, ds, kind, n).contains(x),
    ensures
        (x.1.1 as int) < n,
    decreases n,
{
    if n > 0 {
        let s = deps_shown(f, ds, kind, n);
        let t = deps_shown(f, ds, kind, n - 1);
        let i = choose|i: int| 0 <= i < s.len() && s[i] == x;
        if i < t.len() {
            assert(t[i] == x);
            lemma_deps_shown(f, ds, kind, n - 1, x);
        }
    }
}

proof fn lemma_sorted_holds(s: Seq<ShownView>, x: ShownView)
    requires
        in_order::<Shown>(s).contains(x),
    ensures
        s.contains(x),
{
    let leq = |a: ShownView, b: ShownView| Shown::leq(a, b);
    Shown::lemma_total();
    s.lemma_sort_by_ensures(leq);
    let t = s.sort_by(leq);
    s.to_multiset_ensures();
    t.to_multiset_ensures();
    assert(t.to_multiset().contains(x));
    assert(s.to_multiset().contains(x));
}

fn same_kind(a: DepKind, b: DepKind) -> (r: bool)
    ensures
        r == (a == b),
{
    match (a, b) {
        (DepKind::Normal, DepKind::Normal) => true,
        (DepKind::Build, DepKind::Build) => true,
        (DepKind::Dev, DepKind::Dev) => true,
        _ => false,
    }
}

fn dep_line(d: &DepDecl, group: u8) -> (r: String)
    ensures
        r@ == dep_text(d@, group),
{
    let req = match &d.source {
        DepSource::Registry(_) => cat("@", pretty_req(d.req.text.as_str()).as_str()),
        _ => {
            proof {
                reveal_strlit("");
                assert(""@ =~= Seq::<char>::empty());
            }
            "".to_owned()
        },
    };
    cat5(" ", mark(group), d.name.as_str(), req.as_str(), "\n")
}

/// The dependencies of a kind: those that are always there first, and those that are off last.
pub fn render_deps(pkg: &Package, kind: DepKind, header: &str) -> (r: String)
    ensures
        r@ == deps_text(pkg@, kind, header@),
{
    let ghost f = pkg@.features;
    let ghost ds = pkg@.deps;
    let on = default_features(&pkg.features);
    let mut list: Vec<Shown> = Vec::new();
    let mut k: usize = 0;
    assert(views(list@) =~= Seq::<ShownView>::empty());
    while k < pkg.deps.len()
        invariant
            k <= pkg.deps@.len(),
            f == feature_lists(pkg.features@),
            ds == views(pkg.deps@),
            forall|x: Seq<char>| pkg.features@.contains_key(x) ==> (#[trigger] on@.contains(x) == on_by_default(f, x)),
            views(list@) == deps_shown(f, ds, kind, k as int),
        decreases pkg.deps@.len() - k,
    {
        let d = &pkg.deps[k];
        assert(ds[k as int] == d@);
        if same_kind(d.kind, kind) {
            let group: u8 = if !d.optional {
                0
            } else if is_activated(&pkg.features, &on, d.dep_name()) {
                1
            } else {
                2
            };
            let ghost was = list@;
            let one = Shown { group, name: d.name.clone(), at: k };
            list.push(one);
            assert(views(list@) =~= views(was).push(one@));
        }
        k += 1;
    }
    assert(ds.len() == pkg.deps@.len());
    assert(views(list@).len() == list@.len());
    if list.len() == 0 {
        proof {
            reveal_strlit("");
            assert(""@ =~= Seq::<char>::empty());
        }
        return "".to_owned();
    }
    let ghost before_sort = views(list@);
    let list = sort(list);
    let ghost lv = views(list@);
    let mut out = String::new();
    let mut k: usize = 0;
    assert(out@ =~= Seq::<char>::empty());
    while k < list.len()
        invariant
            k <= list@.len(),
            lv == views(list@),
            ds == views(pkg.deps@),
            before_sort == deps_shown(f, ds, kind, ds.len() as int),
            lv == in_order::<Shown>(before_sort),
            out@ == dep_lines(ds, lv, k as int),
        decreases list@.len() - k,
    {
        assert(lv[k as int] == list@[k as int]@);
        let count: usize = pkg.deps.len();
        assert(ds.len() == count);
        proof {
            lemma_sorted_holds(before_sort, lv[k as int]);
            lemma_deps_shown(f, ds, kind, ds.len() as int, lv[k as int]);
        }
        let at: usize = list[k].at;
        assert(ds[at as int] == pkg.deps@[at as int]@);
        let line = dep_line(&pkg.deps[at], list[k].group);
        out = cat(out.as_str(), line.as_str());
        k += 1;
    }
    assert(lv.len() == list@.len());
    cat3(header, ":\n", out.as_str())
}

// ---------------------------------------------------------------------------
// The whole.

/// What is shown beside what the manifest's model holds.
pub struct More<'a> {
    pub keywords: &'a Vec<String>,
    pub documentation: Option<&'a str>,
    pub latest: Option<&'a Version>,
    /// Where a member of the workspace is.
    pub from: Option<&'a str>,
    pub crates_io: bool,
    pub verbose: bool,
}

pub struct MoreView {
    pub keywords: Seq<Seq<char>>,
    pub documentation: Option<Seq<char>>,
    pub latest: Option<VersionView>,
    pub from: Option<Seq<char>>,
    pub crates_io: bool,
    pub verbose: bool,
}

impl<'a> View for More<'a> {
    type V = MoreView;

    open spec fn view(&self) -> MoreView {
        MoreView {
            keywords: views(self.keywords@),
            documentation: opt_text(self.documentation),
            latest: ref_view(self.latest),
            from: opt_text(self.from),
            crates_io: self.crates_io,
            verbose: self.verbose,
        }
    }
}

/// The keywords, each after a space and a hash.
pub open spec fn keywords_text(l: Seq<Seq<char>>, n: int) -> Seq<char>
    decreases n,
{
    if n <= 0 || n > l.len() {
        Seq::empty()
    } else {
        keywords_text(l, n - 1) + " #"@ + l[n - 1]
    }
}

/// A line with a label, where there is something to show.
pub open spec fn labelled(label: Seq<char>, o: Option<Seq<char>>) -> Seq<char> {
    match o {
        Some(s) => label + s + "\n"@,
        None => Seq::empty(),
    }
}

pub open spec fn or_unknown(o: Option<Seq<char>>) -> Seq<char> {
    match o {
        Some(s) => s,
        None => "unknown"@,
    }
}

/// The address of a package at a site that has a page for each version.
pub open spec fn page(site: Seq<char>, p: PackageView) -> Seq<char> {
    site + p.name + "/"@ + version_text(p.version)
}

/// The lines down to the version.
pub open spec fn head_text(p: PackageView, m: MoreView) -> Seq<char> {
    p.name + keywords_text(m.keywords, m.keywords.len() as int) + "\n"@ + (match p.about.description {
        Some(d) => trimmed_end(d) + "\n"@,
        None => Seq::empty(),
    }) + "version: "@ + version_text(p.version) + (match (m.latest, m.from) {
        (Some(v), _) => " (latest "@ + version_text(v) + ")"@,
        (None, Some(f)) => " (from "@ + f + ")"@,
        _ => Seq::empty(),
    }) + "\n"@
}

/// The lines from the license to the addresses.
pub open spec fn about_text(p: PackageView, m: MoreView) -> Seq<char> {
    labelled("license: "@, Some(or_unknown(p.about.license))) + labelled(
        "rust-version: "@,
        Some(or_unknown(p.about.rust_version)),
    ) + labelled(
        "documentation: "@,
        match m.documentation {
            Some(d) => Some(d),
            None => if m.crates_io {
                Some(page("https://docs.rs/"@, p))
            } else {
                None
            },
        },
    ) + labelled("homepage: "@, p.about.homepage) + labelled("repository: "@, p.about.repository) + labelled(
        "crates.io: "@,
        if m.crates_io {
            Some(page("https://crates.io/crates/"@, p))
        } else {
            None
        },
    )
}

/// What is shown of a package.
pub open spec fn info_text(p: PackageView, m: MoreView) -> Seq<char> {
    head_text(p, m) + about_text(p, m) + features_text(p.features) + (if m.verbose {
        deps_text(p, DepKind::Normal, "dependencies"@) + deps_text(p, DepKind::Build, "build-dependencies"@)
    } else {
        Seq::empty()
    })
}

fn list_keywords(l: &Vec<String>) -> (r: String)
    ensures
        r@ == keywords_text(views(l@), l@.len() as int),
{
    let ghost lv = views(l@);
    let mut out = String::new();
    let mut k: usize = 0;
    assert(out@ =~= Seq::<char>::empty());
    while k < l.len()
        invariant
            k <= l@.len(),
            lv == views(l@),
            out@ == keywords_text(lv, k as int),
        decreases l@.len() - k,
    {
        assert(lv[k as int] == l@[k as int]@);
        out = cat3(out.as_str(), " #", l[k].as_str());
        k += 1;
    }
    out
}

fn label(l: &str, o: Option<&str>) -> (r: String)
    ensures
        r@ == labelled(l@, opt_text(o)),
{
    match o {
        Some(s) => cat3(l, s, "\n"),
        None => {
            proof {
                reveal_strlit("");
                assert(""@ =~= Seq::<char>::empty());
            }
            "".to_owned()
        },
    }
}

fn as_text<'a>(o: &'a Option<String>) -> (r: Option<&'a str>)
    ensures
        opt_text(r) == opt_view(*o),
{
    match o {
        Some(s) => Some(s.as_str()),
        None => None,
    }
}

fn render_page(site: &str, p: &Package) -> (r: String)
    ensures
        r@ == page(site@, p@),
{
    cat4(site, p.name.as_str(), "/", p.version.text().as_str())
}

fn render_head(p: &Package, m: &More<'_>) -> (r: String)
    ensures
        r@ == head_text(p@, m@),
{
    proof {
        reveal_strlit("");
        assert(""@ =~= Seq::<char>::empty());
    }
    assert(views(m.keywords@).len() == m.keywords@.len());
    let described = match &p.description {
        Some(d) => cat(trim_end(d.as_str()), "\n"),
        None => "".to_owned(),
    };
    let other = match (m.latest, m.from) {
        (Some(v), _) => cat3(" (latest ", v.text().as_str(), ")"),
        (None, Some(f)) => cat3(" (from ", f, ")"),
        (None, None) => "".to_owned(),
    };
    let named = cat4(p.name.as_str(), list_keywords(m.keywords).as_str(), "\n", described.as_str());
    cat5(named.as_str(), "version: ", p.version.text().as_str(), other.as_str(), "\n")
}

fn render_about(p: &Package, m: &More<'_>) -> (r: String)
    ensures
        r@ == about_text(p@, m@),
{
    let license = match &p.license {
        Some(s) => s.as_str(),
        None => "unknown",
    };
    let rust = match &p.rust_version {
        Some(s) => s.as_str(),
        None => "unknown",
    };
    let docs = render_page("https://docs.rs/", p);
    let doc = match m.documentation {
        Some(d) => Some(d),
        None => if m.crates_io {
            Some(docs.as_str())
        } else {
            None
        },
    };
    let site = render_page("https://crates.io/crates/", p);
    let shown = if m.crates_io {
        Some(site.as_str())
    } else {
        None
    };
    let a = cat3(label("license: ", Some(license)).as_str(), label("rust-version: ", Some(rust)).as_str(), label("documentation: ", doc).as_str());
    cat4(
        a.as_str(),
        label("homepage: ", as_text(&p.homepage)).as_str(),
        label("repository: ", as_text(&p.repository)).as_str(),
        label("crates.io: ", shown).as_str(),
    )
}

/// What is shown of a package.
pub fn render(p: &Package, m: &More<'_>) -> (r: String)
    ensures
        r@ == info_text(p@, m@),
{
    let head = render_head(p, m);
    let about = render_about(p, m);
    let features = render_features(&p.features);
    let text = cat3(head.as_str(), about.as_str(), features.as_str());
    if m.verbose {
        let normal = render_deps(p, DepKind::Normal, "dependencies");
        let build = render_deps(p, DepKind::Build, "build-dependencies");
        let r = cat3(text.as_str(), normal.as_str(), build.as_str());
        assert(r@ =~= info_text(p@, m@));
        r
    } else {
        assert(text@ =~= info_text(p@, m@));
        text
    }
}

// ---------------------------------------------------------------------------
// Paths.

/// How many parts two paths start with together, from `k` on.
pub open spec fn shared_from(a: Seq<Seq<char>>, b: Seq<Seq<char>>, k: int) -> int
    decreases a.len() - k,
{
    if k < 0 || k >= a.len() || k >= b.len() || a[k] != b[k] {
        k
    } else {
        shared_from(a, b, k + 1)
    }
}

/// The parts of the way from one directory to another.
pub open spec fn way(a: Seq<Seq<char>>, b: Seq<Seq<char>>) -> Seq<Seq<char>> {
    let k = shared_from(a, b, 0);
    Seq::new((a.len() - k) as nat, |i: int| ".."@) + b.skip(k)
}

/// The way from one directory to another; both are absolute and without links.
pub open spec fn way_text(from: Seq<char>, to: Seq<char>) -> Seq<char> {
    let w = way(parts(from), parts(to));
    if w.len() == 0 {
        "."@
    } else {
        joined(w, "/"@)
    }
}

/// The parts of the way from one directory to another; both are absolute and without links.
pub(crate) fn list_way(from: &str, to: &str) -> (r: Vec<String>)
    ensures
        views(r@) == way(parts(from@), parts(to@)),
{
    let a = list_parts(from);
    let b = list_parts(to);
    let ghost av = parts(from@);
    let ghost bv = parts(to@);
    let mut k: usize = 0;
    while k < a.len() && k < b.len() && same(a[k].as_str(), b[k].as_str())
        invariant
            k <= a@.len(),
            k <= b@.len(),
            av == views(a@),
            bv == views(b@),
            shared_from(av, bv, 0) == shared_from(av, bv, k as int),
        decreases a@.len() - k,
    {
        assert(av[k as int] == a@[k as int]@);
        assert(bv[k as int] == b@[k as int]@);
        k += 1;
    }
    assert(av.len() == a@.len() && bv.len() == b@.len());
    if k < a.len() && k < b.len() {
        assert(av[k as int] == a@[k as int]@);
        assert(bv[k as int] == b@[k as int]@);
    }
    assert(shared_from(av, bv, 0) == k);
    let ghost want = way(av, bv);
    let mut out: Vec<String> = Vec::new();
    let mut i: usize = k;
    while i < a.len()
        invariant
            k <= i <= a@.len(),
            views(out@) =~= Seq::new((i - k) as nat, |i: int| ".."@),
        decreases a@.len() - i,
    {
        let ghost was = out@;
        out.push("..".to_owned());
        assert(views(out@) =~= views(was).push(".."@));
        i += 1;
    }
    let ghost ups = views(out@);
    let mut i: usize = k;
    while i < b.len()
        invariant
            k <= i <= b@.len(),
            bv == views(b@),
            views(out@) =~= ups + bv.subrange(k as int, i as int),
        decreases b@.len() - i,
    {
        assert(bv[i as int] == b@[i as int]@);
        let ghost was = out@;
        out.push(b[i].clone());
        assert(views(out@) =~= views(was).push(bv[i as int]));
        i += 1;
    }
    assert(views(out@) =~= want);
    out
}

/// The way from one directory to another; both are absolute and without links.
pub fn rel_path(from: &str, to: &str) -> (r: String)
    requires
        absolute(from@),
        absolute(to@),
    ensures
        r@ == way_text(from@, to@),
{
    let out = list_way(from, to);
    assert(views(out@).len() == out@.len());
    if out.len() == 0 {
        ".".to_owned()
    } else {
        join(&out, "/")
    }
}

} // verus!
