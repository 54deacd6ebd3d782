//! What is known about the machine that builds, and what its user agreed to.

use vstd::prelude::*;
use crate::config::RbConfig;
use crate::config::put_entry;
use crate::config::with_entry;
use crate::invocation::opt_text;
use crate::manifest::Entries;
use crate::path::under;
use crate::text::after_prefix;
use crate::text::contains;
use crate::text::holds;
use crate::text::join;
use crate::text::joined;
use crate::text::lines;
use crate::text::lines_of;
use crate::text::opt_view;
use crate::text::split_first;
use crate::text::split_once;
use crate::text::strip_prefix;
use crate::text::trim;
use crate::text::trimmed;
use crate::text::views;
use crate::value::Toml;
use crate::value::TomlTree;
use crate::value::at;
use crate::value::document_text;
use crate::value::dup_table;
use crate::value::get;
use crate::value::parse_document;
use crate::value::toml_entries;
use crate::value::toml_of;
use crate::value::toml_pretty;
use crate::value::write_table;
use crate::version::Version;
use crate::version::VersionView;
use crate::version::version_of;

verus! {

// ---------------------------------------------------------------------------
// The fingerprint of the host.

/// The first line that a program printed; nothing where it could not be run.
pub open spec fn first_line(out: Option<Seq<char>>) -> Seq<char> {
    match out {
        Some(s) => if lines_of(s).len() > 0 {
            trimmed(lines_of(s)[0])
        } else {
            Seq::empty()
        },
        None => Seq::empty(),
    }
}

fn find_first(out: &Option<String>) -> (r: String)
    ensures
        r@ == first_line(opt_view(*out)),
{
    match out {
        Some(s) => {
            let l = lines(s.as_str());
            assert(views(l@).len() == l@.len());
            if l.len() > 0 {
                assert(views(l@)[0] == l@[0]@);
                trim(l[0].as_str()).to_owned()
            } else {
                String::new()
            }
        },
        None => String::new(),
    }
}

/// What tells one host from another: the first lines that programs print about it.
pub open spec fn fingerprint_of(outputs: Seq<Option<Seq<char>>>) -> Seq<char> {
    joined(Seq::new(outputs.len(), |i: int| first_line(outputs[i])), " | "@)
}

pub open spec fn outputs_view(l: Seq<Option<String>>) -> Seq<Option<Seq<char>>> {
    Seq::new(l.len(), |i: int| opt_view(l[i]))
}

/// `outputs`: what the programs printed, `None` for one that could not be run.
pub fn host_fingerprint(outputs: &Vec<Option<String>>) -> (r: String)
    ensures
        r@ == fingerprint_of(outputs_view(outputs@)),
{
    let ghost all = outputs_view(outputs@);
    let ghost want = Seq::new(all.len(), |i: int| first_line(all[i]));
    let mut parts: Vec<String> = Vec::new();
    let mut k: usize = 0;
    while k < outputs.len()
        invariant
            k <= outputs@.len(),
            all == outputs_view(outputs@),
            want == Seq::new(all.len(), |i: int| first_line(all[i])),
            parts@.len() == k,
            forall|i: int| 0 <= i < k ==> (#[trigger] parts@[i])@ == want[i],
        decreases outputs@.len() - k,
    {
        parts.push(find_first(&outputs[k]));
        k += 1;
    }
    assert(views(parts@) =~= want);
    join(&parts, " | ")
}

/// Whether a fingerprint that was kept still counts: for an hour.
pub fn is_recent(age: Option<u64>) -> (r: bool)
    ensures
        r == (age matches Some(a) && a < 3600),
{
    match age {
        Some(a) => a < 3600,
        None => false,
    }
}

// ---------------------------------------------------------------------------
// Licenses.

/// The settings once the license is accepted. A `cross` that is no table is left alone.
pub open spec fn license_accepted(t: Entries) -> Entries {
    match at(t, "cross"@) {
        None => with_entry(t, "cross"@, TomlTree::Table(with_entry(Seq::empty(), "accept-msvc-license"@, TomlTree::Bool(true)))),
        Some(TomlTree::Table(s)) => with_entry(
            t,
            "cross"@,
            TomlTree::Table(with_entry(s, "accept-msvc-license"@, TomlTree::Bool(true))),
        ),
        Some(_) => t,
    }
}

/// The settings once the license of the MSVC libraries is accepted.
pub fn accept_msvc_license(doc: Vec<(String, Toml)>) -> (r: Vec<(String, Toml)>)
    ensures
        toml_entries(r@) == license_accepted(toml_entries(doc@)),
{
    let empty: Vec<(String, Toml)> = Vec::new();
    assert(toml_entries(empty@) =~= Seq::<(Seq<char>, TomlTree)>::empty());
    let inner: Option<Vec<(String, Toml)>> = match get(&doc, "cross") {
        None => Some(empty),
        Some(Toml::Table(t)) => Some(dup_table(t)),
        Some(_) => None,
    };
    match inner {
        None => doc,
        Some(t) => {
            let t = put_entry(t, "accept-msvc-license", Toml::Bool(true));
            put_entry(doc, "cross", Toml::Table(t))
        },
    }
}

/// The settings that a text holds; none where it cannot be read.
pub open spec fn settings_in(text: Option<Seq<char>>) -> Entries {
    match text {
        Some(t) => match toml_of(t) {
            Ok(l) => l,
            Err(_) => Seq::empty(),
        },
        None => Seq::empty(),
    }
}

impl RbConfig {
    /// Takes down that the user accepts the license of the MSVC libraries: the path of the file, and its new text.
    pub fn record_msvc_license_acceptance(&self, text: Option<&str>) -> (r: Result<(String, String), String>)
        ensures
            match toml_pretty(document_text(license_accepted(settings_in(opt_text(text))))) {
                Ok(t) => r matches Ok((path, body)) && path@ == under(self.home@, "config.toml"@) && body@ == t,
                Err(e) => r matches Err(x) && x@ == e,
            },
    {
        let empty: Vec<(String, Toml)> = Vec::new();
        assert(toml_entries(empty@) =~= Seq::<(Seq<char>, TomlTree)>::empty());
        let doc = match text {
            Some(t) => match parse_document(t) {
                Ok(l) => l,
                Err(_) => empty,
            },
            None => empty,
        };
        match write_table(&accept_msvc_license(doc)) {
            Ok(body) => Ok((crate::path::join(self.home.as_str(), "config.toml"), body)),
            Err(e) => Err(e),
        }
    }
}

/// A license that was accepted is accepted from then on, and the other settings stay as they were.
pub proof fn law_an_accepted_license_is_read_back(t: Entries, other: Seq<char>)
    requires
        at(t, "cross"@) matches Some(v) ==> v is Table,
    ensures
        at(license_accepted(t), "cross"@) matches Some(TomlTree::Table(s)) && at(s, "accept-msvc-license"@) == Some(
            TomlTree::Bool(true),
        ),
        other != "cross"@ ==> at(license_accepted(t), other) == at(t, other),
{
    let inner = match at(t, "cross"@) {
        Some(TomlTree::Table(s)) => s,
        _ => Seq::empty(),
    };
    let v = TomlTree::Table(with_entry(inner, "accept-msvc-license"@, TomlTree::Bool(true)));
    crate::laws::law_a_setting_is_read_back(inner, "accept-msvc-license"@, TomlTree::Bool(true), other);
    crate::laws::law_a_setting_is_read_back(t, "cross"@, v, other);
}

// ---------------------------------------------------------------------------
// The compiler.

/// The version of a release, without what follows its first dash.
pub open spec fn release_of(release: Seq<char>) -> Option<VersionView> {
    version_of(
        match split_first(release, '-') {
            Some((v, _)) => v,
            None => release,
        },
    )
}

pub fn release_semver(release: &str) -> (r: Option<Version>)
    ensures
        opt_view(r) == release_of(release@),
{
    match split_once(release, '-') {
        Some((v, _)) => Version::parse(v),
        None => Version::parse(release),
    }
}

/// The release in the first line that tells it, from `k` on.
pub open spec fn release_from(ls: Seq<Seq<char>>, k: int) -> Option<Seq<char>>
    decreases ls.len() - k,
{
    if k < 0 || k >= ls.len() {
        None
    } else {
        match after_prefix(ls[k], "release: "@) {
            Some(v) => Some(v),
            None => release_from(ls, k + 1),
        }
    }
}

/// The version of the compiler, by what it says of itself.
pub fn rustc_version(text: &str) -> (r: Option<Version>)
    ensures
        opt_view(r) == (match release_from(lines_of(text@), 0) {
            Some(v) => release_of(v),
            None => None,
        }),
{
    let ls = lines(text);
    let ghost lv = lines_of(text@);
    let mut k: usize = 0;
    while k < ls.len()
        invariant
            k <= ls@.len(),
            lv == views(ls@),
            lv == lines_of(text@),
            release_from(lv, 0) == release_from(lv, k as int),
        decreases ls@.len() - k,
    {
        assert(lv[k as int] == ls@[k as int]@);
        if let Some(v) = strip_prefix(ls[k].as_str(), "release: ") {
            return release_semver(v);
        }
        k += 1;
    }
    assert(lv.len() == ls@.len());
    None
}

/// Whether the compiler is one that takes unstable flags, by what it says of itself.
pub fn rustc_is_nightly(text: &str) -> (r: bool)
    ensures
        r == (holds(text@, "nightly"@) || holds(text@, "-dev"@)),
{
    contains(text, "nightly") || contains(text, "-dev")
}

} // verus!
