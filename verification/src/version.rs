//! Versions and version requirements. The `semver` crate reads, orders and matches them; this module
//! holds them as plain values.

use vstd::prelude::*;
use crate::num::dec;
use crate::num::u64_text;
use crate::text::cat;
use crate::text::opt_view;
use crate::text::same;

verus! {

#[derive(Debug)]
pub struct Version {
    pub major: u64,
    pub minor: u64,
    pub patch: u64,
    /// The pre-release identifiers; empty for a release.
    pub pre: String,
    /// The build metadata; empty where there is none.
    pub build: String,
}

/// The model of a version.
pub struct VersionView {
    pub major: u64,
    pub minor: u64,
    pub patch: u64,
    pub pre: Seq<char>,
    pub build: Seq<char>,
}

impl View for Version {
    type V = VersionView;

    open spec fn view(&self) -> VersionView {
        VersionView {
            major: self.major,
            minor: self.minor,
            patch: self.patch,
            pre: self.pre@,
            build: self.build@,
        }
    }
}

/// A version requirement, as the text that `semver` prints of it.
#[derive(Debug)]
pub struct VersionReq {
    pub text: String,
}

impl View for VersionReq {
    type V = Seq<char>;

    open spec fn view(&self) -> Seq<char> {
        self.text@
    }
}

/// What `semver::Version::parse` reads a text as; nothing where it is malformed.
pub uninterp spec fn version_of(s: Seq<char>) -> Option<VersionView>;

/// What `semver::VersionReq` prints of the requirement that it reads a text as; nothing where the
/// text is malformed.
pub uninterp spec fn req_of(s: Seq<char>) -> Option<Seq<char>>;

/// Whether a version meets a requirement, by `semver::VersionReq::matches`.
pub uninterp spec fn meets(req: Seq<char>, v: VersionView) -> bool;

/// Whether a version comes before another, by the order of `semver::Version`.
pub uninterp spec fn older(a: VersionView, b: VersionView) -> bool;

/// `semver::Version::parse`: the version that a text stands for, field by field. What it accepts is
/// left to the name `version_of`.
#[verifier::external_body]
pub(crate) fn parse_version(s: &str) -> (r: Option<Version>)
    ensures
        opt_view(r) == version_of(s@),
{
    match semver::Version::parse(s) {
        Ok(v) => Some(
            Version {
                major: v.major,
                minor: v.minor,
                patch: v.patch,
                pre: v.pre.as_str().to_owned(),
                build: v.build.as_str().to_owned(),
            },
        ),
        Err(_) => None,
    }
}

/// `semver::VersionReq::parse`: the requirement that a text stands for, as the text that its
/// `Display` writes. What it accepts is left to the name `req_of`.
#[verifier::external_body]
pub(crate) fn parse_req(s: &str) -> (r: Option<VersionReq>)
    ensures
        opt_view(r) == req_of(s@),
{
    match semver::VersionReq::parse(s) {
        Ok(q) => Some(VersionReq { text: q.to_string() }),
        Err(_) => None,
    }
}

/// `semver::VersionReq::matches`: whether the version meets the requirement. A requirement or an
/// identifier that `semver` cannot read back is met by no version, or taken as empty.
#[verifier::external_body]
pub(crate) fn req_matches(req: &VersionReq, v: &Version) -> (r: bool)
    ensures
        r == meets(req@, v@),
{
    let pre = semver::Prerelease::new(&v.pre).unwrap_or(semver::Prerelease::EMPTY);
    let build = semver::BuildMetadata::new(&v.build).unwrap_or(semver::BuildMetadata::EMPTY);
    let out = semver::Version { major: v.major, minor: v.minor, patch: v.patch, pre, build };
    semver::VersionReq::parse(&req.text).is_ok_and(|q| q.matches(&out))
}

/// The order of `semver::Version`: whether `a` comes before `b`. The numbers decide first, and no
/// version comes before itself; how pre-releases and build metadata decide is left to the name `older`.
/// It is an order: two versions do not each come before the other; what comes after `b` comes after an `a` that is
/// before it; and what comes after `a` comes after a `b` that `a` does not come before.
#[verifier::external_body]
pub(crate) fn is_older(a: &Version, b: &Version) -> (r: bool)
    ensures
        r == older(a@, b@),
        a.major != b.major ==> r == (a.major < b.major),
        a.major == b.major && a.minor != b.minor ==> r == (a.minor < b.minor),
        a.major == b.major && a.minor == b.minor && a.patch != b.patch ==> r == (a.patch < b.patch),
        a@ == b@ ==> !r,
        r ==> !older(b@, a@),
        r ==> forall|c: VersionView| #[trigger] older(b@, c) ==> older(a@, c),
        !r ==> forall|c: VersionView| #[trigger] older(a@, c) ==> older(b@, c),
{
    let x = semver::Version {
        major: a.major,
        minor: a.minor,
        patch: a.patch,
        pre: semver::Prerelease::new(&a.pre).unwrap_or(semver::Prerelease::EMPTY),
        build: semver::BuildMetadata::new(&a.build).unwrap_or(semver::BuildMetadata::EMPTY),
    };
    let pre = semver::Prerelease::new(&b.pre).unwrap_or(semver::Prerelease::EMPTY);
    let build = semver::BuildMetadata::new(&b.build).unwrap_or(semver::BuildMetadata::EMPTY);
    x < semver::Version { major: b.major, minor: b.minor, patch: b.patch, pre, build }
}

/// The text of a version: its three numbers, a `-` and the pre-release, a `+` and the metadata.
pub open spec fn version_text(v: VersionView) -> Seq<char> {
    dec(v.major as nat) + "."@ + dec(v.minor as nat) + "."@ + dec(v.patch as nat) + (if v.pre.len() > 0 {
        "-"@ + v.pre
    } else {
        Seq::empty()
    }) + (if v.build.len() > 0 {
        "+"@ + v.build
    } else {
        Seq::empty()
    })
}

impl Version {
    /// A release.
    pub fn new(major: u64, minor: u64, patch: u64) -> (r: Version)
        ensures
            r@ == (VersionView { major, minor, patch, pre: Seq::empty(), build: Seq::empty() }),
    {
        Version { major, minor, patch, pre: String::new(), build: String::new() }
    }

    /// The version that a text stands for; `None` where the text is malformed.
    pub fn parse(s: &str) -> (r: Option<Version>)
        ensures
            opt_view(r) == version_of(s@),
    {
        parse_version(s)
    }

    /// Whether this version comes before the other.
    pub fn before(&self, other: &Version) -> (r: bool)
        ensures
            r == older(self@, other@),
    {
        is_older(self, other)
    }

    pub fn same_as(&self, other: &Version) -> (r: bool)
        ensures
            r == (self@ == other@),
    {
        self.major == other.major && self.minor == other.minor && self.patch == other.patch && same(
            self.pre.as_str(),
            other.pre.as_str(),
        ) && same(self.build.as_str(), other.build.as_str())
    }

    pub fn dup(&self) -> (r: Version)
        ensures
            r@ == self@,
    {
        Version {
            major: self.major,
            minor: self.minor,
            patch: self.patch,
            pre: self.pre.clone(),
            build: self.build.clone(),
        }
    }

    pub fn text(&self) -> (r: String)
        ensures
            r@ == version_text(self@),
    {
        let mut s: String = u64_text(self.major);
        s.append(".");
        s.append(u64_text(self.minor).as_str());
        s.append(".");
        s.append(u64_text(self.patch).as_str());
        let ghost numbers = s@;
        if !self.pre.as_str().is_empty() {
            s.append(cat("-", self.pre.as_str()).as_str());
        } else {
            assert(numbers + Seq::<char>::empty() == numbers);
        }
        let ghost with_pre = s@;
        if !self.build.as_str().is_empty() {
            s.append(cat("+", self.build.as_str()).as_str());
        } else {
            assert(with_pre + Seq::<char>::empty() == with_pre);
        }
        s
    }
}

impl VersionReq {
    /// The requirement that a text stands for; `None` where the text is malformed.
    pub fn parse(s: &str) -> (r: Option<VersionReq>)
        ensures
            opt_view(r) == req_of(s@),
    {
        parse_req(s)
    }

    /// Whether the version meets the requirement.
    pub fn matches(&self, v: &Version) -> (r: bool)
        ensures
            r == meets(self@, v@),
    {
        req_matches(self, v)
    }

    /// The requirement that every release meets.
    pub fn star() -> (r: VersionReq)
        ensures
            r@ == "*"@,
    {
        VersionReq { text: "*".to_owned() }
    }

    pub fn dup(&self) -> (r: VersionReq)
        ensures
            r@ == self@,
    {
        VersionReq { text: self.text.clone() }
    }
}

/// Of the first `n` versions, the place of the newest that is to be kept; the last one where several are.
pub open spec fn newest_upto(vs: Seq<VersionView>, keep: spec_fn(int) -> bool, n: int) -> Option<int>
    decreases n,
{
    if n <= 0 || n > vs.len() {
        None
    } else {
        let best = newest_upto(vs, keep, n - 1);
        if !keep(n - 1) {
            best
        } else {
            match best {
                Some(b) => if older(vs[n - 1], vs[b]) {
                    Some(b)
                } else {
                    Some(n - 1)
                },
                None => Some(n - 1),
            }
        }
    }
}

/// None of the first `n` versions that are to be kept is newer than the one at `b`.
pub open spec fn none_newer(vs: Seq<VersionView>, keep: spec_fn(int) -> bool, b: int, n: int) -> bool {
    forall|j: int| 0 <= j < n && j != b && #[trigger] keep(j) ==> !older(vs[b], vs[j])
}

pub proof fn lemma_newest(vs: Seq<VersionView>, keep: spec_fn(int) -> bool, n: int)
    requires
        0 <= n <= vs.len(),
    ensures
        newest_upto(vs, keep, n) matches Some(k) ==> 0 <= k < n && keep(k),
        newest_upto(vs, keep, n).is_none() == (forall|k: int| 0 <= k < n ==> !#[trigger] keep(k)),
    decreases n,
{
    if n > 0 {
        lemma_newest(vs, keep, n - 1);
        if newest_upto(vs, keep, n - 1).is_some() {
            let k = newest_upto(vs, keep, n - 1).unwrap();
            assert(keep(k));
        }
        if keep(n - 1) {
            assert(newest_upto(vs, keep, n).is_some());
        }
    }
}

} // verus!
