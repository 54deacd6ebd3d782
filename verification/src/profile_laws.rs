//! Which settings a unit is compiled with: those that come last win, an override beats what it overrides, and what is not
//! said stays.

use vstd::prelude::*;
use crate::num::int_text;
use crate::profile::Layer;
use crate::profile::Lto;
use crate::profile::ProfileView;
use crate::profile::Setting;
use crate::profile::Settings;
use crate::profile::applied;
use crate::profile::build_overridden;
use crate::profile::builtin_of;
use crate::profile::chained;
use crate::profile::host_profile;
use crate::profile::merged;
use crate::profile::named_overrides;
use crate::profile::package_overridden;
use crate::profile::profile_for;
use crate::profile::spec_fits;
use crate::text::first_at;
use crate::value::at;
use crate::version::version_text;
use crate::workspace::Pkg;

verus! {

/// A layer without overrides for packages.
pub open spec fn overrides_no_package(l: Layer) -> bool {
    l.package.is_none()
}

/// The level of optimization that a setting asks for.
pub open spec fn is_level(o: Setting, level: Seq<char>) -> bool {
    match o {
        Setting::Text(s) => level == s,
        Setting::Number(n) => level == int_text(n),
        Setting::Flag(_) => true,
    }
}

/// The amount of debug information that a setting asks for: `true` and `full` are all of it, `limited` is level one, and
/// `false` and `none` are nothing.
pub open spec fn is_debug(d: Setting, level: Seq<char>) -> bool {
    match d {
        Setting::Flag(b) => level == if b {
            "2"@
        } else {
            "0"@
        },
        Setting::Number(n) => level == int_text(n),
        Setting::Text(s) => {
            &&& s == "none"@ ==> level == "0"@
            &&& s == "limited"@ ==> level == "1"@
            &&& s == "full"@ ==> level == "2"@
            &&& s != "none"@ && s != "limited"@ && s != "full"@ ==> level == s
        },
    }
}

/// The link-time optimization that a setting asks for.
pub open spec fn is_lto(l: Setting, lto: Lto) -> bool {
    match l {
        Setting::Flag(b) => (b ==> lto == Lto::True) && (!b ==> lto == Lto::Default),
        Setting::Text(s) => (s == "off"@ ==> lto == Lto::Off) && (s == "thin"@ ==> lto == Lto::Thin) && (s == "fat"@ ==> lto == Lto::Fat),
        Setting::Number(_) => true,
    }
}

/// The profile has whatever the settings say, and of what they do not say what another has. Flags for the compiler add up.
pub open spec fn says(p: ProfileView, s: Settings, was: ProfileView) -> bool {
    &&& match s.opt_level {
        Some(o) => is_level(o, p.opt_level),
        None => p.opt_level == was.opt_level,
    }
    &&& match s.debug {
        Some(d) => is_debug(d, p.debuginfo),
        None => p.debuginfo == was.debuginfo,
    }
    &&& match s.lto {
        Some(l) => is_lto(l, p.lto),
        None => p.lto == was.lto,
    }
    &&& s.debug_assertions matches Some(v) ==> p.debug_assertions == v
    &&& s.debug_assertions.is_none() ==> p.debug_assertions == was.debug_assertions
    &&& s.overflow_checks matches Some(v) ==> p.overflow_checks == v
    &&& s.overflow_checks.is_none() ==> p.overflow_checks == was.overflow_checks
    &&& s.panic matches Some(v) ==> p.panic == v
    &&& s.panic.is_none() ==> p.panic == was.panic
    &&& s.codegen_units matches Some(v) ==> p.codegen_units == Some(v)
    &&& s.codegen_units.is_none() ==> p.codegen_units == was.codegen_units
    &&& s.incremental matches Some(v) ==> p.incremental == v
    &&& s.incremental.is_none() ==> p.incremental == was.incremental
    &&& s.rpath matches Some(v) ==> p.rpath == v
    &&& s.rpath.is_none() ==> p.rpath == was.rpath
    &&& s.strip matches Some(Setting::Text(v)) ==> p.strip == Some(v)
    &&& s.strip matches Some(Setting::Flag(b)) ==> p.strip == Some(
        if b {
            "symbols"@
        } else {
            "none"@
        },
    )
    &&& s.strip.is_none() ==> p.strip == was.strip
    &&& s.split_debuginfo matches Some(v) ==> p.split_debuginfo == Some(v)
    &&& s.split_debuginfo.is_none() ==> p.split_debuginfo == was.split_debuginfo
    &&& s.codegen_backend matches Some(v) ==> p.codegen_backend == Some(v)
    &&& s.codegen_backend.is_none() ==> p.codegen_backend == was.codegen_backend
    &&& s.rustflags matches Some(v) ==> p.rustflags == was.rustflags + v
    &&& s.rustflags.is_none() ==> p.rustflags == was.rustflags
    &&& p.name == was.name
    &&& p.root == was.root
}

proof fn lemma_applied(p: ProfileView, s: Settings)
    ensures
        says(applied(p, s), s, p),
{
    reveal_strlit("off");
    reveal_strlit("thin");
    reveal_strlit("fat");
    reveal_strlit("none");
    reveal_strlit("limited");
    reveal_strlit("full");
    assert("off"@.len() == 3 && "thin"@.len() == 4 && "fat"@.len() == 3 && "off"@[0] != "fat"@[0]);
    assert("none"@.len() == 4 && "limited"@.len() == 7 && "full"@.len() == 4 && "none"@[0] != "full"@[0]);
}

proof fn lemma_kept(p: ProfileView, chain: Seq<Layer>, k: int, n: int)
    requires
        0 <= k <= n <= chain.len(),
    ensures
        (forall|j: int| k <= j < n ==> (#[trigger] chain[j]).own.opt_level.is_none()) ==> chained(p, chain, n).opt_level == chained(p, chain, k).opt_level,
        (forall|j: int| k <= j < n ==> (#[trigger] chain[j]).own.debug.is_none()) ==> chained(p, chain, n).debuginfo == chained(p, chain, k).debuginfo,
        (forall|j: int| k <= j < n ==> (#[trigger] chain[j]).own.debug_assertions.is_none()) ==> chained(p, chain, n).debug_assertions == chained(p, chain, k).debug_assertions,
        (forall|j: int| k <= j < n ==> (#[trigger] chain[j]).own.overflow_checks.is_none()) ==> chained(p, chain, n).overflow_checks == chained(p, chain, k).overflow_checks,
        (forall|j: int| k <= j < n ==> (#[trigger] chain[j]).own.lto.is_none()) ==> chained(p, chain, n).lto == chained(p, chain, k).lto,
        (forall|j: int| k <= j < n ==> (#[trigger] chain[j]).own.panic.is_none()) ==> chained(p, chain, n).panic == chained(p, chain, k).panic,
        (forall|j: int| k <= j < n ==> (#[trigger] chain[j]).own.codegen_units.is_none()) ==> chained(p, chain, n).codegen_units == chained(p, chain, k).codegen_units,
        (forall|j: int| k <= j < n ==> (#[trigger] chain[j]).own.incremental.is_none()) ==> chained(p, chain, n).incremental == chained(p, chain, k).incremental,
        (forall|j: int| k <= j < n ==> (#[trigger] chain[j]).own.rpath.is_none()) ==> chained(p, chain, n).rpath == chained(p, chain, k).rpath,
        (forall|j: int| k <= j < n ==> (#[trigger] chain[j]).own.strip.is_none()) ==> chained(p, chain, n).strip == chained(p, chain, k).strip,
        (forall|j: int| k <= j < n ==> (#[trigger] chain[j]).own.split_debuginfo.is_none()) ==> chained(p, chain, n).split_debuginfo == chained(p, chain, k).split_debuginfo,
        (forall|j: int| k <= j < n ==> (#[trigger] chain[j]).own.codegen_backend.is_none()) ==> chained(p, chain, n).codegen_backend == chained(p, chain, k).codegen_backend,
        (forall|j: int| k <= j < n ==> (#[trigger] chain[j]).own.rustflags.is_none()) ==> chained(p, chain, n).rustflags == chained(p, chain, k).rustflags,
        chained(p, chain, n).name == p.name,
        chained(p, chain, n).root == p.root,
    decreases n,
{
    if k < n {
        lemma_kept(p, chain, k, n - 1);
        lemma_applied(chained(p, chain, n - 1), chain[n - 1].own);
    } else {
        lemma_roots(p, chain, n);
    }
}

proof fn lemma_roots(p: ProfileView, chain: Seq<Layer>, n: int)
    requires
        0 <= n <= chain.len(),
    ensures
        chained(p, chain, n).name == p.name,
        chained(p, chain, n).root == p.root,
    decreases n,
{
    if n > 0 {
        lemma_roots(p, chain, n - 1);
    }
}

proof fn lemma_no_packages(p: ProfileView, chain: Seq<Layer>, member: bool, name: Seq<char>, version: Seq<char>, n: int)
    requires
        0 <= n <= chain.len(),
        forall|j: int| 0 <= j < chain.len() ==> overrides_no_package(#[trigger] chain[j]),
    ensures
        package_overridden(p, chain, member, name, version, n) == p,
    decreases n,
{
    if n > 0 {
        lemma_no_packages(p, chain, member, name, version, n - 1);
        assert(overrides_no_package(chain[n - 1]));
    }
}

/// Of the layers of a profile the last one that says something is right, and where none does the built-in value stays: so it
/// is for a unit that is not for the host, where no layer overrides anything for packages.
pub proof fn law_the_last_layer_wins(
    base: ProfileView,
    chain: Seq<Layer>,
    weaken: bool,
    pkg: Pkg,
    k: int,
)
    requires
        forall|j: int| 0 <= j < chain.len() ==> overrides_no_package(#[trigger] chain[j]),
        0 <= k < chain.len(),
    ensures
        ({
            let p = profile_for(base, chain, None, weaken, pkg, false, false);
            let s = chain[k].own;
            &&& (forall|j: int| k < j < chain.len() ==> (#[trigger] chain[j]).own.opt_level.is_none()) && s.opt_level.is_some()
                ==> is_level(s.opt_level.unwrap(), p.opt_level)
            &&& (forall|j: int| 0 <= j < chain.len() ==> (#[trigger] chain[j]).own.opt_level.is_none()) ==> p.opt_level == base.opt_level
            &&& (forall|j: int| k < j < chain.len() ==> (#[trigger] chain[j]).own.debug.is_none()) && s.debug.is_some() ==> is_debug(
                s.debug.unwrap(),
                p.debuginfo,
            )
            &&& (forall|j: int| 0 <= j < chain.len() ==> (#[trigger] chain[j]).own.debug.is_none()) ==> p.debuginfo == base.debuginfo
            &&& (forall|j: int| k < j < chain.len() ==> (#[trigger] chain[j]).own.lto.is_none()) && s.lto.is_some() ==> is_lto(
                s.lto.unwrap(),
                p.lto,
            )
            &&& (forall|j: int| 0 <= j < chain.len() ==> (#[trigger] chain[j]).own.lto.is_none()) ==> p.lto == base.lto
            &&& (forall|j: int| k < j < chain.len() ==> (#[trigger] chain[j]).own.debug_assertions.is_none()) && s.debug_assertions.is_some() ==> p.debug_assertions == s.debug_assertions.unwrap()
            &&& (forall|j: int| 0 <= j < chain.len() ==> (#[trigger] chain[j]).own.debug_assertions.is_none()) ==> p.debug_assertions == base.debug_assertions
            &&& (forall|j: int| k < j < chain.len() ==> (#[trigger] chain[j]).own.overflow_checks.is_none()) && s.overflow_checks.is_some() ==> p.overflow_checks == s.overflow_checks.unwrap()
            &&& (forall|j: int| 0 <= j < chain.len() ==> (#[trigger] chain[j]).own.overflow_checks.is_none()) ==> p.overflow_checks == base.overflow_checks
            &&& (forall|j: int| k < j < chain.len() ==> (#[trigger] chain[j]).own.panic.is_none()) && s.panic.is_some() ==> p.panic == s.panic.unwrap()
            &&& (forall|j: int| 0 <= j < chain.len() ==> (#[trigger] chain[j]).own.panic.is_none()) ==> p.panic == base.panic
            &&& (forall|j: int| k < j < chain.len() ==> (#[trigger] chain[j]).own.codegen_units.is_none()) && s.codegen_units.is_some() ==> p.codegen_units == s.codegen_units
            &&& (forall|j: int| 0 <= j < chain.len() ==> (#[trigger] chain[j]).own.codegen_units.is_none()) ==> p.codegen_units == base.codegen_units
            &&& (forall|j: int| k < j < chain.len() ==> (#[trigger] chain[j]).own.incremental.is_none()) && s.incremental.is_some() ==> p.incremental == s.incremental.unwrap()
            &&& (forall|j: int| 0 <= j < chain.len() ==> (#[trigger] chain[j]).own.incremental.is_none()) ==> p.incremental == base.incremental
            &&& (forall|j: int| k < j < chain.len() ==> (#[trigger] chain[j]).own.rpath.is_none()) && s.rpath.is_some() ==> p.rpath == s.rpath.unwrap()
            &&& (forall|j: int| 0 <= j < chain.len() ==> (#[trigger] chain[j]).own.rpath.is_none()) ==> p.rpath == base.rpath
            &&& (forall|j: int| k < j < chain.len() ==> (#[trigger] chain[j]).own.split_debuginfo.is_none()) && s.split_debuginfo.is_some() ==> p.split_debuginfo == s.split_debuginfo
            &&& (forall|j: int| 0 <= j < chain.len() ==> (#[trigger] chain[j]).own.split_debuginfo.is_none()) ==> p.split_debuginfo == base.split_debuginfo
            &&& (forall|j: int| k < j < chain.len() ==> (#[trigger] chain[j]).own.codegen_backend.is_none()) && s.codegen_backend.is_some() ==> p.codegen_backend == s.codegen_backend
            &&& (forall|j: int| 0 <= j < chain.len() ==> (#[trigger] chain[j]).own.codegen_backend.is_none()) ==> p.codegen_backend == base.codegen_backend
        }),
{
    let n = chain.len() as int;
    let c = chained(base, chain, n);
    lemma_no_packages(c, chain, pkg.is_member, pkg.name@, version_text(pkg.version@), n);
    lemma_kept(base, chain, k + 1, n);
    lemma_kept(base, chain, 0, n);
    lemma_applied(chained(base, chain, k), chain[k].own);
    assert(chained(base, chain, k + 1) == applied(chained(base, chain, k), chain[k].own));
}

/// What is built for the host is not optimized, is not split into units of its own number, and unwinds; it has no debug
/// information where that is weakened. A build override in a layer says otherwise, except for what a panic does.
pub proof fn law_host_units_are_quick_to_build(base: ProfileView, chain: Seq<Layer>, weaken: bool, pkg: Pkg)
    requires
        forall|j: int| 0 <= j < chain.len() ==> overrides_no_package(#[trigger] chain[j]),
    ensures
        ({
            let p = profile_for(base, chain, None, weaken, pkg, true, false);
            let plain = profile_for(base, chain, None, weaken, pkg, false, false);
            &&& p.panic == "unwind"@
            &&& (forall|j: int| 0 <= j < chain.len() ==> (#[trigger] chain[j]).build_override.is_none()) ==> p.opt_level == "0"@
                && p.codegen_units.is_none() && p.debuginfo == (if weaken {
                "0"@
            } else {
                plain.debuginfo
            }) && p.debug_assertions == plain.debug_assertions && p.lto == plain.lto && p.incremental == plain.incremental
            &&& chain.len() > 0 && chain.last().build_override.is_some() ==> ({
                let s = chain.last().build_override.unwrap().own;
                &&& s.opt_level.is_some() ==> is_level(s.opt_level.unwrap(), p.opt_level)
                &&& s.debug.is_some() ==> is_debug(s.debug.unwrap(), p.debuginfo)
                &&& s.codegen_units.is_some() ==> p.codegen_units == s.codegen_units
                &&& s.debug_assertions.is_some() ==> p.debug_assertions == s.debug_assertions.unwrap()
            })
        }),
{
    let n = chain.len() as int;
    let c = chained(base, chain, n);
    let q = ProfileView {
        opt_level: "0"@,
        codegen_units: None,
        debuginfo: if weaken {
            "0"@
        } else {
            c.debuginfo
        },
        ..c
    };
    let h = host_profile(c, chain, weaken);
    lemma_no_packages(c, chain, pkg.is_member, pkg.name@, version_text(pkg.version@), n);
    lemma_no_packages(h, chain, pkg.is_member, pkg.name@, version_text(pkg.version@), n);
    if forall|j: int| 0 <= j < chain.len() ==> (#[trigger] chain[j]).build_override.is_none() {
        lemma_no_build_overrides(q, chain, n);
    }
    if n > 0 {
        if let Some(b) = chain.last().build_override {
            lemma_applied(build_overridden(q, chain, n - 1), b.own);
            assert(build_overridden(q, chain, n) == applied(build_overridden(q, chain, n - 1), b.own));
        }
    }
}

proof fn lemma_no_build_overrides(p: ProfileView, chain: Seq<Layer>, n: int)
    requires
        0 <= n <= chain.len(),
        forall|j: int| 0 <= j < chain.len() ==> (#[trigger] chain[j]).build_override.is_none(),
    ensures
        build_overridden(p, chain, n) == p,
    decreases n,
{
    if n > 0 {
        lemma_no_build_overrides(p, chain, n - 1);
        assert(chain[n - 1].build_override.is_none());
    }
}

/// The name of a package, or its name with its version.
pub open spec fn names(s: Seq<char>, name: Seq<char>, version: Seq<char>) -> bool {
    s == name || s == name + "@"@ + version
}

proof fn lemma_spec(s: Seq<char>, name: Seq<char>, version: Seq<char>)
    requires
        !name.contains('@'),
        !name.contains(':'),
        name != "*"@,
    ensures
        names(s, name, version) ==> spec_fits(s, name, version),
        !s.contains('@') && !s.contains(':') && s != name ==> !spec_fits(s, name, version),
{
    reveal_strlit("@");
    reveal_strlit("*");
    if s == name {
        lemma_absent(s, '@', 0);
        lemma_absent(s, ':', 0);
    } else if s == name + "@"@ + version {
        let i = name.len() as int;
        assert forall|j: int| 0 <= j < i implies s[j] != '@' && s[j] != ':' by {
            assert(s[j] == name[j]);
            assert(name.contains(name[j]));
        }
        lemma_first(s, '@', i, 0);
        lemma_not_before(s, ':', i + 1, 0);
        assert(s.take(i) =~= name);
        assert(s.skip(i + 1) =~= version);
        assert(s != "*"@) by {
            if s == "*"@ {
                assert(s.len() == 1 && s[0] == '*');
                assert(s[i] == '@');
            }
        }
    }
    if !s.contains('@') && !s.contains(':') {
        lemma_absent(s, '@', 0);
        lemma_absent(s, ':', 0);
    }
}

proof fn lemma_absent(s: Seq<char>, c: char, k: int)
    requires
        0 <= k <= s.len(),
        !s.contains(c),
    ensures
        first_at(s, c, k) == s.len(),
    decreases s.len() - k,
{
    if k < s.len() {
        assert(s.contains(s[k]));
        lemma_absent(s, c, k + 1);
    }
}

proof fn lemma_first(s: Seq<char>, c: char, i: int, k: int)
    requires
        0 <= k <= i < s.len(),
        s[i] == c,
        forall|j: int| k <= j < i ==> s[j] != c,
    ensures
        first_at(s, c, k) == i,
    decreases i - k,
{
    if k < i {
        lemma_first(s, c, i, k + 1);
    }
}

proof fn lemma_not_before(s: Seq<char>, c: char, i: int, k: int)
    requires
        0 <= k <= i <= s.len(),
        forall|j: int| k <= j < i ==> s[j] != c,
    ensures
        first_at(s, c, k) >= i,
    decreases s.len() - k,
{
    if k < i {
        lemma_not_before(s, c, i, k + 1);
    } else {
        lemma_ahead(s, c, k);
    }
}

proof fn lemma_ahead(s: Seq<char>, c: char, k: int)
    requires
        0 <= k <= s.len(),
    ensures
        first_at(s, c, k) >= k,
    decreases s.len() - k,
{
    if k < s.len() && s[k] != c {
        lemma_ahead(s, c, k + 1);
    }
}

/// An override for a package by its name beats all else, in the last layer that has one: also what is built for the host, and
/// the override for all packages. It is for the packages that it names alone.
pub proof fn law_package_overrides_beat_the_rest(
    base: ProfileView,
    chain: Seq<Layer>,
    weaken: bool,
    pkg: Pkg,
    for_host: bool,
    k: int,
)
    requires
        chain.len() > 0,
        chain.last().package.is_some(),
        0 <= k < chain.last().package.unwrap().len(),
        !pkg.name@.contains('@'),
        !pkg.name@.contains(':'),
        pkg.name@ != "*"@,
        names(chain.last().package.unwrap()[k].0, pkg.name@, version_text(pkg.version@)),
        forall|j: int| k < j < chain.last().package.unwrap().len() ==> !spec_fits(
            (#[trigger] chain.last().package.unwrap()[j]).0,
            pkg.name@,
            version_text(pkg.version@),
        ),
    ensures
        ({
            let p = profile_for(base, chain, None, weaken, pkg, for_host, false);
            let s = chain.last().package.unwrap()[k].1.own;
            &&& s.opt_level.is_some() ==> is_level(s.opt_level.unwrap(), p.opt_level)
            &&& s.debug.is_some() ==> is_debug(s.debug.unwrap(), p.debuginfo)
            &&& s.debug_assertions.is_some() ==> p.debug_assertions == s.debug_assertions.unwrap()
            &&& s.overflow_checks.is_some() ==> p.overflow_checks == s.overflow_checks.unwrap()
            &&& s.codegen_units.is_some() ==> p.codegen_units == s.codegen_units
            &&& s.incremental.is_some() ==> p.incremental == s.incremental.unwrap()
        }),
{
    let n = chain.len() as int;
    let c = chained(base, chain, n);
    let h = if for_host {
        host_profile(c, chain, weaken)
    } else {
        c
    };
    let (name, version) = (pkg.name@, version_text(pkg.version@));
    let pk = chain.last().package.unwrap();
    let q = package_overridden(h, chain, pkg.is_member, name, version, n - 1);
    let r = match at(pk, "*"@) {
        Some(all) => if pkg.is_member {
            q
        } else {
            applied(q, all.own)
        },
        None => q,
    };
    lemma_spec(pk[k].0, name, version);
    lemma_applied(named_overrides(r, pk, name, version, k), pk[k].1.own);
    lemma_named_kept(r, pk, name, version, k + 1, pk.len() as int);
    assert(package_overridden(h, chain, pkg.is_member, name, version, n) == named_overrides(r, pk, name, version, pk.len() as int));
    assert(named_overrides(r, pk, name, version, k + 1) == applied(named_overrides(r, pk, name, version, k), pk[k].1.own));
}

proof fn lemma_named_kept(p: ProfileView, pk: Seq<(Seq<char>, Layer)>, name: Seq<char>, version: Seq<char>, k: int, n: int)
    requires
        0 <= k <= n <= pk.len(),
        forall|j: int| k <= j < n ==> !spec_fits((#[trigger] pk[j]).0, name, version),
    ensures
        named_overrides(p, pk, name, version, n) == named_overrides(p, pk, name, version, k),
    decreases n,
{
    if k < n {
        lemma_named_kept(p, pk, name, version, k, n - 1);
        assert(!spec_fits(pk[n - 1].0, name, version));
    }
}

/// The override for all packages is for those outside the workspace: a member without an override of its own has the profile
/// as it is.
pub proof fn law_members_are_not_overridden_by_a_star(base: ProfileView, chain: Seq<Layer>, weaken: bool, pkg: Pkg)
    requires
        chain.len() == 1,
        chain[0].package.is_some(),
        pkg.name@ != "*"@,
        forall|j: int| 0 <= j < chain[0].package.unwrap().len() ==> !spec_fits(
            (#[trigger] chain[0].package.unwrap()[j]).0,
            pkg.name@,
            version_text(pkg.version@),
        ),
    ensures
        ({
            let p = profile_for(base, chain, None, weaken, pkg, false, false);
            let bare = seq![Layer { package: None, ..chain[0] }];
            &&& pkg.is_member ==> p == profile_for(base, bare, None, weaken, pkg, false, false)
            &&& !pkg.is_member && at(chain[0].package.unwrap(), "*"@).is_some() ==> ({
                let s = at(chain[0].package.unwrap(), "*"@).unwrap().own;
                &&& s.opt_level.is_some() ==> is_level(s.opt_level.unwrap(), p.opt_level)
                &&& s.debug.is_some() ==> is_debug(s.debug.unwrap(), p.debuginfo)
            })
        }),
{
    let bare = seq![Layer { package: None, ..chain[0] }];
    let (name, version) = (pkg.name@, version_text(pkg.version@));
    let pk = chain[0].package.unwrap();
    assert(chained(base, chain, 0) == base && chained(base, bare, 0) == base);
    assert(chained(base, chain, 1) == chained(base, bare, 1));
    let c = chained(base, chain, 1);
    assert(package_overridden(c, chain, pkg.is_member, name, version, 0) == c);
    assert(package_overridden(c, bare, pkg.is_member, name, version, 0) == c);
    let r = match at(pk, "*"@) {
        Some(all) => if pkg.is_member {
            c
        } else {
            applied(c, all.own)
        },
        None => c,
    };
    lemma_named_kept(r, pk, name, version, 0, pk.len() as int);
    assert(package_overridden(c, chain, pkg.is_member, name, version, 1) == r);
    assert(package_overridden(c, bare, pkg.is_member, name, version, 1) == c);
    if let Some(all) = at(pk, "*"@) {
        lemma_applied(c, all.own);
    }
}

/// `dev` builds quickly and checks much; `release` optimizes and checks nothing.
pub proof fn law_release_is_optimized_and_dev_is_not()
    ensures
        ({
            let r = builtin_of("release"@);
            r.opt_level == "3"@ && r.debuginfo == "0"@ && !r.debug_assertions && !r.overflow_checks && !r.incremental
        }),
        forall|name: Seq<char>| name != "release"@ ==> ({
            let d = #[trigger] builtin_of(name);
            d.opt_level == "0"@ && d.debuginfo == "2"@ && d.debug_assertions && d.overflow_checks && d.incremental
        }),
        forall|name: Seq<char>| (#[trigger] builtin_of(name)).panic == "unwind"@ && builtin_of(name).strip.is_none() && !builtin_of(
            name,
        ).rpath,
{
}

/// Whether a build is incremental can be decided from outside. Symbols of debug information that nobody asked for are stripped,
/// and `none` strips nothing. On Apple's systems debug information stays beside the objects unless something else is said.
pub proof fn law_what_follows_from_other_settings(base: ProfileView, weaken: bool, pkg: Pkg, incremental: Option<bool>, apple: bool)
    ensures
        ({
            let p = profile_for(base, Seq::empty(), incremental, weaken, pkg, false, apple);
            &&& p.incremental == (if incremental.is_some() {
                incremental.unwrap()
            } else {
                base.incremental
            })
            &&& base.strip.is_none() && base.debuginfo == "0"@ ==> p.strip == Some("debuginfo"@)
            &&& base.strip.is_none() && base.debuginfo != "0"@ ==> p.strip.is_none()
            &&& base.strip == Some("none"@) ==> p.strip.is_none()
            &&& base.strip.is_some() && base.strip != Some("none"@) ==> p.strip == base.strip
            &&& apple && base.split_debuginfo.is_none() && base.debuginfo != "0"@ ==> p.split_debuginfo == Some("unpacked"@)
            &&& !apple || base.split_debuginfo.is_some() || base.debuginfo == "0"@ ==> p.split_debuginfo == base.split_debuginfo
            &&& p.opt_level == base.opt_level && p.debuginfo == base.debuginfo && p.panic == base.panic && p.lto == base.lto
        }),
{
    let e = Seq::<Layer>::empty();
    assert(chained(base, e, 0) == base);
    assert(package_overridden(base, e, pkg.is_member, pkg.name@, version_text(pkg.version@), 0) == base);
}

/// Of two layers of the same name the second is right wherever it says something, and the first where it does not.
pub proof fn law_merged_layers_keep_what_only_one_says(a: Layer, b: Layer)
    ensures
        ({
            let m = merged(a, b).own;
            &&& b.own.opt_level.is_some() ==> m.opt_level == b.own.opt_level
            &&& b.own.opt_level.is_none() ==> m.opt_level == a.own.opt_level
            &&& b.own.debug.is_some() ==> m.debug == b.own.debug
            &&& b.own.debug.is_none() ==> m.debug == a.own.debug
            &&& b.own.debug_assertions.is_some() ==> m.debug_assertions == b.own.debug_assertions
            &&& b.own.debug_assertions.is_none() ==> m.debug_assertions == a.own.debug_assertions
            &&& b.own.overflow_checks.is_some() ==> m.overflow_checks == b.own.overflow_checks
            &&& b.own.overflow_checks.is_none() ==> m.overflow_checks == a.own.overflow_checks
            &&& b.own.lto.is_some() ==> m.lto == b.own.lto
            &&& b.own.lto.is_none() ==> m.lto == a.own.lto
            &&& b.own.panic.is_some() ==> m.panic == b.own.panic
            &&& b.own.panic.is_none() ==> m.panic == a.own.panic
            &&& b.own.codegen_units.is_some() ==> m.codegen_units == b.own.codegen_units
            &&& b.own.codegen_units.is_none() ==> m.codegen_units == a.own.codegen_units
            &&& b.own.incremental.is_some() ==> m.incremental == b.own.incremental
            &&& b.own.incremental.is_none() ==> m.incremental == a.own.incremental
            &&& b.own.rpath.is_some() ==> m.rpath == b.own.rpath
            &&& b.own.rpath.is_none() ==> m.rpath == a.own.rpath
            &&& b.own.strip.is_some() ==> m.strip == b.own.strip
            &&& b.own.strip.is_none() ==> m.strip == a.own.strip
            &&& b.own.split_debuginfo.is_some() ==> m.split_debuginfo == b.own.split_debuginfo
            &&& b.own.split_debuginfo.is_none() ==> m.split_debuginfo == a.own.split_debuginfo
            &&& b.own.codegen_backend.is_some() ==> m.codegen_backend == b.own.codegen_backend
            &&& b.own.codegen_backend.is_none() ==> m.codegen_backend == a.own.codegen_backend
            &&& b.own.rustflags.is_some() ==> m.rustflags == b.own.rustflags
            &&& b.own.rustflags.is_none() ==> m.rustflags == a.own.rustflags
            &&& b.own.inherits.is_some() ==> m.inherits == b.own.inherits
            &&& b.own.inherits.is_none() ==> m.inherits == a.own.inherits
            &&& b.own.dir_name.is_some() ==> m.dir_name == b.own.dir_name
            &&& b.own.dir_name.is_none() ==> m.dir_name == a.own.dir_name
        }),
        b.build_override.is_none() ==> merged(a, b).build_override == a.build_override,
        b.package.is_none() ==> merged(a, b).package == a.package,
{
}

} // verus!
