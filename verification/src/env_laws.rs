//! What build scripts, programs and their dependencies are told.

use vstd::prelude::*;
use crate::cfgexpr::facts;
use crate::command_laws::lemma_env_args;
use crate::command_laws::lemma_pkg_args;
use crate::command_laws::lemma_set_args;
use crate::commands::Ctx;
use crate::commands::KindInfo;
use crate::commands::NamedView;
use crate::commands::Planned;
use crate::commands::cfg_var;
use crate::commands::cfg_vars;
use crate::commands::compile_plan;
use crate::commands::doc_plan;
use crate::commands::externs_upto;
use crate::commands::feature_vars;
use crate::commands::has_cfg;
use crate::commands::own_run_at;
use crate::commands::pkg_vars;
use crate::commands::run_dir;
use crate::commands::run_plan;
use crate::commands::rustdoc_path;
use crate::commands::told;
use crate::commands::values_for;
use crate::commands::with_all;
use crate::commands::with_env;
use crate::commands::with_map;
use crate::invocation::InvocationView;
use crate::lints::Lints;
use crate::num::dec;
use crate::path::under;
use crate::plan::LtoMode;
use crate::text::head_bytes;
use crate::text::join_upto;
use crate::text::joined;
use crate::text::opt_view;
use crate::text::swapped;
use crate::text::uppercase;
use crate::text::views;
use crate::unit::Unit;
use crate::unit::UnitDep;
use crate::version::version_text;
use crate::workspace::Pkg;


verus! {

/// A variable is among those listed.
pub open spec fn lists(l: Seq<(Seq<char>, Seq<char>)>, name: Seq<char>) -> bool {
    exists|i: int| 0 <= i < l.len() && (#[trigger] l[i]).0 == name
}

/// A variable is set to a value. Whether it counts is said beside it.
pub open spec fn sets(iv: InvocationView, name: Seq<char>, value: Seq<char>, counts: bool) -> bool {
    iv.env.contains_key(name) && iv.env[name] == (value, counts)
}

proof fn lemma_set(iv: InvocationView, name: Seq<char>, value: Seq<char>, counts: bool)
    ensures
        sets(iv.setting(name, value, counts), name, value, counts),
        forall|n: Seq<char>, v: Seq<char>, c: bool| n != name ==> #[trigger] sets(iv.setting(name, value, counts), n, v, c) == sets(iv, n, v, c),
{
    lemma_set_args(iv, name, value, counts);
}

proof fn lemma_unlisted(iv: InvocationView, l: Seq<(Seq<char>, Seq<char>)>, h: bool, k: int, name: Seq<char>)
    requires
        0 <= k <= l.len(),
        !lists(l, name),
    ensures
        forall|v: Seq<char>, c: bool| #[trigger] sets(with_env(iv, l, h, k), name, v, c) == sets(iv, name, v, c),
    decreases k,
{
    if k > 0 {
        lemma_unlisted(iv, l, h, k - 1, name);
        lemma_set(with_env(iv, l, h, k - 1), l[k - 1].0, l[k - 1].1, h);
    }
}

proof fn lemma_listed(iv: InvocationView, l: Seq<(Seq<char>, Seq<char>)>, h: bool, k: int, i: int)
    requires
        0 <= i < k <= l.len(),
        forall|j: int| i < j < l.len() ==> (#[trigger] l[j]).0 != l[i].0,
    ensures
        sets(with_env(iv, l, h, k), l[i].0, l[i].1, h),
    decreases k,
{
    lemma_set(with_env(iv, l, h, k - 1), l[k - 1].0, l[k - 1].1, h);
    if i < k - 1 {
        lemma_listed(iv, l, h, k - 1, i);
    }
}

// ---------------------------------------------------------------------------
// The package.

/// A variable that says a thing of the package, where the configuration does not set it.
pub open spec fn says(iv: InvocationView, ctx: Ctx, name: Seq<char>, value: Seq<char>, counts: bool) -> bool {
    lists(views(ctx.env_config@), name) || sets(iv, name, value, counts)
}

/// The text of a field that may be missing.
pub open spec fn is_text(o: Option<String>, s: Seq<char>) -> bool {
    match o {
        Some(t) => s == t@,
        None => s.len() == 0,
    }
}

/// What is set for a package says where it stands, what it is called and which version it has. What does not change its code
/// does not count. What the configuration sets is set for every package.
pub proof fn law_packages_are_told_what_they_are(iv: InvocationView, ctx: Ctx, p: Pkg, i: int)
    ensures
        ({
            let r = pkg_vars(iv, ctx, p);
            &&& says(r, ctx, "CARGO"@, ctx.ws.cargo@, false)
            &&& says(r, ctx, "CARGO_MANIFEST_DIR"@, p.root@, true)
            &&& says(r, ctx, "CARGO_MANIFEST_PATH"@, p.manifest_path@, true)
            &&& says(r, ctx, "CARGO_PKG_NAME"@, p.name@, true)
            &&& says(r, ctx, "CARGO_PKG_VERSION"@, version_text(p.version@), true)
            &&& says(r, ctx, "CARGO_PKG_VERSION_MAJOR"@, dec(p.version.major as nat), true)
            &&& says(r, ctx, "CARGO_PKG_VERSION_MINOR"@, dec(p.version.minor as nat), true)
            &&& says(r, ctx, "CARGO_PKG_VERSION_PATCH"@, dec(p.version.patch as nat), true)
            &&& says(r, ctx, "CARGO_PKG_VERSION_PRE"@, p.version.pre@, true)
            &&& forall|s: Seq<char>| is_text(p.description, s) ==> #[trigger] says(r, ctx, "CARGO_PKG_DESCRIPTION"@, s, false)
            &&& forall|s: Seq<char>| is_text(p.homepage, s) ==> #[trigger] says(r, ctx, "CARGO_PKG_HOMEPAGE"@, s, false)
            &&& forall|s: Seq<char>| is_text(p.repository, s) ==> #[trigger] says(r, ctx, "CARGO_PKG_REPOSITORY"@, s, false)
            &&& forall|s: Seq<char>| is_text(p.license, s) ==> #[trigger] says(r, ctx, "CARGO_PKG_LICENSE"@, s, false)
            &&& forall|s: Seq<char>| is_text(p.license_file, s) ==> #[trigger] says(r, ctx, "CARGO_PKG_LICENSE_FILE"@, s, false)
            &&& forall|s: Seq<char>| is_text(p.rust_version, s) ==> #[trigger] says(r, ctx, "CARGO_PKG_RUST_VERSION"@, s, false)
            &&& forall|s: Seq<char>| is_text(p.readme, s) ==> #[trigger] says(r, ctx, "CARGO_PKG_README"@, s, false)
            &&& 0 <= i < ctx.env_config@.len() && (forall|j: int|
                i < j < ctx.env_config@.len() ==> (#[trigger] ctx.env_config@[j]).0@ != ctx.env_config@[i].0@) ==> sets(
                r,
                ctx.env_config@[i].0@,
                ctx.env_config@[i].1@,
                true,
            )
        }),
{
    lemma_names();
    reveal_strlit("");
    reveal(InvocationView::setting);
    let l = views(ctx.env_config@);
    let n = l.len() as int;
    assert forall|w: InvocationView, name: Seq<char>, v: Seq<char>, c: bool| !lists(l, name) implies #[trigger] sets(
        with_env(w, l, true, n),
        name,
        v,
        c,
    ) == sets(w, name, v, c) by {
        lemma_unlisted(w, l, true, n, name);
    }
    assert forall|s: Seq<char>| #[trigger] s.len() == 0 implies s == ""@ by {
        assert(s =~= ""@);
    }
    if 0 <= i < n && (forall|j: int| i < j < ctx.env_config@.len() ==> (#[trigger] ctx.env_config@[j]).0@ != ctx.env_config@[i].0@) {
        assert(l[i] == ctx.env_config@[i]@);
        assert forall|j: int| i < j < l.len() implies (#[trigger] l[j]).0 != l[i].0 by {
            assert(l[j] == ctx.env_config@[j]@);
        }
        assert forall|w: InvocationView| sets(#[trigger] with_env(w, l, true, n), l[i].0, l[i].1, true) by {
            lemma_listed(w, l, true, n, i);
        }
    }
}

/// No two of the variables of a package have one name.
proof fn lemma_names()
    ensures
        "CARGO"@.len() == 5,
        "CARGO_MANIFEST_DIR"@.len() == 18,
        "CARGO_MANIFEST_PATH"@.len() == 19,
        "CARGO_PKG_NAME"@.len() == 14,
        "CARGO_PKG_VERSION"@.len() == 17,
        "CARGO_PKG_VERSION_MAJOR"@.len() == 23,
        "CARGO_PKG_VERSION_MINOR"@.len() == 23,
        "CARGO_PKG_VERSION_PATCH"@.len() == 23,
        "CARGO_PKG_VERSION_PRE"@.len() == 21,
        "CARGO_PKG_AUTHORS"@.len() == 17,
        "CARGO_PKG_DESCRIPTION"@.len() == 21,
        "CARGO_PKG_HOMEPAGE"@.len() == 18,
        "CARGO_PKG_REPOSITORY"@.len() == 20,
        "CARGO_PKG_LICENSE"@.len() == 17,
        "CARGO_PKG_LICENSE_FILE"@.len() == 22,
        "CARGO_PKG_RUST_VERSION"@.len() == 22,
        "CARGO_PKG_README"@.len() == 16,
        "CARGO_MANIFEST_DIR"@ != "CARGO_PKG_HOMEPAGE"@,
        "CARGO_PKG_VERSION"@ != "CARGO_PKG_AUTHORS"@,
        "CARGO_PKG_VERSION"@ != "CARGO_PKG_LICENSE"@,
        "CARGO_PKG_VERSION_MAJOR"@ != "CARGO_PKG_VERSION_MINOR"@,
        "CARGO_PKG_VERSION_MAJOR"@ != "CARGO_PKG_VERSION_PATCH"@,
        "CARGO_PKG_VERSION_MINOR"@ != "CARGO_PKG_VERSION_PATCH"@,
        "CARGO_PKG_VERSION_PRE"@ != "CARGO_PKG_DESCRIPTION"@,
        "CARGO_PKG_AUTHORS"@ != "CARGO_PKG_LICENSE"@,
        "CARGO_PKG_LICENSE_FILE"@ != "CARGO_PKG_RUST_VERSION"@,
{
    reveal_strlit("CARGO");
    reveal_strlit("CARGO_MANIFEST_DIR");
    reveal_strlit("CARGO_MANIFEST_PATH");
    reveal_strlit("CARGO_PKG_NAME");
    reveal_strlit("CARGO_PKG_VERSION");
    reveal_strlit("CARGO_PKG_VERSION_MAJOR");
    reveal_strlit("CARGO_PKG_VERSION_MINOR");
    reveal_strlit("CARGO_PKG_VERSION_PATCH");
    reveal_strlit("CARGO_PKG_VERSION_PRE");
    reveal_strlit("CARGO_PKG_AUTHORS");
    reveal_strlit("CARGO_PKG_DESCRIPTION");
    reveal_strlit("CARGO_PKG_HOMEPAGE");
    reveal_strlit("CARGO_PKG_REPOSITORY");
    reveal_strlit("CARGO_PKG_LICENSE");
    reveal_strlit("CARGO_PKG_LICENSE_FILE");
    reveal_strlit("CARGO_PKG_RUST_VERSION");
    reveal_strlit("CARGO_PKG_README");
    assert("CARGO_MANIFEST_DIR"@[6] != "CARGO_PKG_HOMEPAGE"@[6]);
    assert("CARGO_PKG_VERSION"@[10] != "CARGO_PKG_AUTHORS"@[10]);
    assert("CARGO_PKG_VERSION"@[10] != "CARGO_PKG_LICENSE"@[10]);
    assert("CARGO_PKG_VERSION_MAJOR"@[19] != "CARGO_PKG_VERSION_MINOR"@[19]);
    assert("CARGO_PKG_VERSION_MAJOR"@[18] != "CARGO_PKG_VERSION_PATCH"@[18]);
    assert("CARGO_PKG_VERSION_MINOR"@[18] != "CARGO_PKG_VERSION_PATCH"@[18]);
    assert("CARGO_PKG_VERSION_PRE"@[10] != "CARGO_PKG_DESCRIPTION"@[10]);
    assert("CARGO_PKG_AUTHORS"@[10] != "CARGO_PKG_LICENSE"@[10]);
    assert("CARGO_PKG_LICENSE_FILE"@[10] != "CARGO_PKG_RUST_VERSION"@[10]);
}

// ---------------------------------------------------------------------------
// Build scripts.

/// No two of the variables of a build script have one name.
proof fn lemma_run_names()
    ensures
        "OUT_DIR"@.len() == 7,
        "TARGET"@.len() == 6,
        "HOST"@.len() == 4,
        "NUM_JOBS"@.len() == 8,
        "OPT_LEVEL"@.len() == 9,
        "DEBUG"@.len() == 5,
        "PROFILE"@.len() == 7,
        "RUSTC"@.len() == 5,
        "RUSTDOC"@.len() == 7,
        "RUSTC_LINKER"@.len() == 12,
        "CARGO_ENCODED_RUSTFLAGS"@.len() == 23,
        "OUT_DIR"@ != "PROFILE"@,
        "OUT_DIR"@ != "RUSTDOC"@,
        "DEBUG"@ != "RUSTC"@,
        "PROFILE"@ != "RUSTDOC"@,
{
    reveal_strlit("OUT_DIR");
    reveal_strlit("TARGET");
    reveal_strlit("HOST");
    reveal_strlit("NUM_JOBS");
    reveal_strlit("OPT_LEVEL");
    reveal_strlit("DEBUG");
    reveal_strlit("PROFILE");
    reveal_strlit("RUSTC");
    reveal_strlit("RUSTDOC");
    reveal_strlit("RUSTC_LINKER");
    reveal_strlit("CARGO_ENCODED_RUSTFLAGS");
    assert("OUT_DIR"@[0] != "PROFILE"@[0]);
    assert("OUT_DIR"@[0] != "RUSTDOC"@[0]);
    assert("DEBUG"@[0] != "RUSTC"@[0]);
    assert("PROFILE"@[0] != "RUSTDOC"@[0]);
}

proof fn lemma_mapped(iv: InvocationView, m: Map<Seq<char>, Seq<char>>, name: Seq<char>)
    ensures
        m.contains_key(name) ==> sets(with_map(iv, m), name, m[name], true),
        !m.contains_key(name) ==> forall|v: Seq<char>, c: bool| #[trigger] sets(with_map(iv, m), name, v, c) == sets(iv, name, v, c),
{
}

/// A variable of a build script, where the toolchain that it is built with does not set it.
pub open spec fn tells(iv: InvocationView, k: KindInfo, name: Seq<char>, value: Seq<char>, counts: bool) -> bool {
    lists(views(k.cross.env@), name) || sets(iv, name, value, counts)
}

proof fn lemma_tail(iv: InvocationView, k: KindInfo, name: Seq<char>, value: Seq<char>, counts: bool)
    requires
        sets(iv, name, value, counts),
    ensures
        tells(with_all(iv, views(k.cross.env@), true), k, name, value, counts),
{
    let l = views(k.cross.env@);
    if !lists(l, name) {
        lemma_unlisted(iv, l, true, l.len() as int, name);
    }
}

/// A build script is told the platform that its package is built for, the host, and the profile, and where to write. It runs
/// in the directory of its package.
pub proof fn law_build_scripts_are_told_the_platform_and_the_profile(ctx: Ctx, u: Unit, script: Planned)
    ensures
        ({
            let k = ctx.at(u.kind);
            let r = run_plan(ctx, u, script);
            let flags = views(k.user_rustflags@) + views(k.cross.rustflags@);
            &&& r.inv.cwd == ctx.ws.pkgs@[u.pkg as int].root@
            &&& r.inv.args.len() == 0
            &&& tells(r.inv, k, "OUT_DIR"@, under(r.out_dir, "out"@), false)
            &&& tells(r.inv, k, "TARGET"@, k.triple@, true)
            &&& tells(r.inv, k, "HOST"@, ctx.rustc.host@, true)
            &&& tells(r.inv, k, "NUM_JOBS"@, dec(ctx.jobs as nat), false)
            &&& tells(r.inv, k, "OPT_LEVEL"@, u.profile.opt_level@, true)
            &&& tells(r.inv, k, "RUSTC"@, ctx.rustc.path@, false)
            &&& u.profile.debuginfo@ == "0"@ ==> tells(r.inv, k, "DEBUG"@, "false"@, true)
            &&& u.profile.debuginfo@ != "0"@ ==> tells(r.inv, k, "DEBUG"@, "true"@, true)
            &&& u.profile.root@ == "release"@ ==> tells(r.inv, k, "PROFILE"@, "release"@, true)
            &&& u.profile.root@ != "release"@ ==> tells(r.inv, k, "PROFILE"@, "debug"@, true)
            &&& k.linker matches Some(l) ==> tells(r.inv, k, "RUSTC_LINKER"@, l@, true)
            &&& tells(r.inv, k, "CARGO_ENCODED_RUSTFLAGS"@, joined(flags, "\x1f"@), true)
        }),
{
    lemma_run_names();
    lemma_run(ctx, u, script);
    reveal(InvocationView::setting);
    let k = ctx.at(u.kind);
    let l = views(k.cross.env@);
    assert forall|w: InvocationView, n: Seq<char>, v: Seq<char>, c: bool| #[trigger] sets(w, n, v, c) implies tells(
        with_all(w, l, true),
        k,
        n,
        v,
        c,
    ) by {
        lemma_tail(w, k, n, v, c);
    }
    let w = run_last(run_head(run_base(ctx, u, script), ctx, u), ctx, u);
    assert(sets(w, "OUT_DIR"@, under(run_dir(ctx, u), "out"@), false));
    assert(sets(w, "TARGET"@, k.triple@, true));
    assert(sets(w, "HOST"@, ctx.rustc.host@, true));
    assert(sets(w, "NUM_JOBS"@, dec(ctx.jobs as nat), false));
    assert(sets(w, "OPT_LEVEL"@, u.profile.opt_level@, true));
    assert(sets(w, "RUSTC"@, ctx.rustc.path@, false));
    assert(sets(w, "DEBUG"@, if u.profile.debuginfo@ != "0"@ { "true"@ } else { "false"@ }, true));
    assert(sets(w, "PROFILE"@, if u.profile.root@ == "release"@ { "release"@ } else { "debug"@ }, true));
    if k.linker.is_some() {
        assert(sets(w, "RUSTC_LINKER"@, k.linker.unwrap()@, true));
    }
    assert(sets(w, "CARGO_ENCODED_RUSTFLAGS"@, joined(views(k.user_rustflags@) + views(k.cross.rustflags@), "\x1f"@), true));
}

/// Before anything is set.
spec fn run_base(ctx: Ctx, u: Unit, script: Planned) -> InvocationView {
    InvocationView {
        program: under(script.out_dir@, script.crate_name@ + "-"@ + head_bytes(script.name@, 16) + ctx.exe_suffix@),
        args: Seq::empty(),
        env: Map::empty(),
        cwd: ctx.pkgs()[u.pkg as int].root@,
        path_prepend: Seq::empty(),
    }
}

/// What is set of the package, its features and its platform.
spec fn run_head(iv: InvocationView, ctx: Ctx, u: Unit) -> InvocationView {
    let p = ctx.pkgs()[u.pkg as int];
    let iv = pkg_vars(iv, ctx, p);
    let iv = match opt_view(p.links) {
        Some(l) => iv.setting("CARGO_MANIFEST_LINKS"@, l, true),
        None => iv,
    };
    let iv = with_all(iv, feature_vars(views(u.features@)), true);
    with_map(iv, cfg_vars(facts(ctx.at(u.kind).info.cfg@), u.profile.debug_assertions))
}

/// What is set after that, up to the toolchain's own.
spec fn run_last(iv: InvocationView, ctx: Ctx, u: Unit) -> InvocationView {
    let k = ctx.at(u.kind);
    let prof = u.profile;
    let iv = iv.setting("OUT_DIR"@, under(run_dir(ctx, u), "out"@), false).setting("TARGET"@, k.triple@, true).setting(
        "HOST"@,
        ctx.rustc.host@,
        true,
    ).setting("NUM_JOBS"@, dec(ctx.jobs as nat), false).setting("OPT_LEVEL"@, prof.opt_level@, true).setting(
        "DEBUG"@,
        if prof.debuginfo@ != "0"@ {
            "true"@
        } else {
            "false"@
        },
        true,
    ).setting(
        "PROFILE"@,
        if prof.root@ == "release"@ {
            "release"@
        } else {
            "debug"@
        },
        true,
    ).setting("RUSTC"@, ctx.rustc.path@, false).setting("RUSTDOC"@, rustdoc_path(ctx), false);
    let iv = match opt_view(k.linker) {
        Some(l) => iv.setting("RUSTC_LINKER"@, l, true),
        None => iv,
    };
    iv.setting(
        "CARGO_ENCODED_RUSTFLAGS"@,
        joined(views(k.user_rustflags@) + views(k.cross.rustflags@), "\x1f"@),
        true,
    )
}

proof fn lemma_run(ctx: Ctx, u: Unit, script: Planned)
    ensures
        ({
            let k = ctx.at(u.kind);
            let r = run_plan(ctx, u, script).inv;
            let w = with_all(run_last(run_head(run_base(ctx, u, script), ctx, u), ctx, u), views(k.cross.env@), true);
            r.env == w.env && r.args == w.args && r.cwd == w.cwd && w.args.len() == 0 && w.cwd == ctx.ws.pkgs@[u.pkg as int].root@
        }),
{
    reveal(InvocationView::setting);
    let p = ctx.pkgs()[u.pkg as int];
    assert forall|w: InvocationView, l: Seq<(Seq<char>, Seq<char>)>, h: bool, k: int| #[trigger] with_env(w, l, h, k).args == w.args
        && with_env(w, l, h, k).cwd == w.cwd by {
        lemma_env_args(w, l, h, k);
    }
    assert forall|w: InvocationView| #[trigger] pkg_vars(w, ctx, p).args == w.args && pkg_vars(w, ctx, p).cwd == w.cwd by {
        lemma_pkg_args(w, ctx, p);
    }
}

/// A variable whose name starts as given, and goes on.
pub open spec fn begins(name: Seq<char>, s: Seq<char>) -> bool {
    s.len() <= name.len() && forall|i: int| 0 <= i < s.len() ==> #[trigger] name[i] == s[i]
}

proof fn lemma_begins(a: Seq<char>, b: Seq<char>)
    ensures
        begins(a + b, a),
{
    assert forall|i: int| 0 <= i < a.len() implies #[trigger] (a + b)[i] == a[i] by {}
}

/// What the last part sets neither says a thing of the package, nor of a feature, nor of the platform.
proof fn lemma_last(iv: InvocationView, ctx: Ctx, u: Unit, name: Seq<char>)
    requires
        begins(name, "CARGO_PKG_"@) || begins(name, "CARGO_FEATURE_"@) || begins(name, "CARGO_CFG_"@),
    ensures
        forall|v: Seq<char>, c: bool| #[trigger] sets(run_last(iv, ctx, u), name, v, c) == sets(iv, name, v, c),
{
    reveal(InvocationView::setting);
    lemma_run_names();
    lemma_prefixes();
    reveal_strlit("CARGO_ENCODED_RUSTFLAGS");
    reveal_strlit("RUSTC_LINKER");
    assert("CARGO_ENCODED_RUSTFLAGS"@[6] == 'E');
    assert("RUSTC_LINKER"@[0] == 'R');
    lemma_marks(name);
    assert(name.len() >= 10);
    assert(name != "CARGO_ENCODED_RUSTFLAGS"@);
    assert(name != "RUSTC_LINKER"@);
}

proof fn lemma_prefixes()
    ensures
        "CARGO_PKG_"@.len() == 10,
        "CARGO_PKG_"@[0] == 'C',
        "CARGO_PKG_"@[6] == 'P',
        "CARGO_FEATURE_"@.len() == 14,
        "CARGO_FEATURE_"@[0] == 'C',
        "CARGO_FEATURE_"@[6] == 'F',
        "CARGO_CFG_"@.len() == 10,
        "CARGO_CFG_"@[0] == 'C',
        "CARGO_CFG_"@[6] == 'C',
{
    reveal_strlit("CARGO_PKG_");
    reveal_strlit("CARGO_FEATURE_");
    reveal_strlit("CARGO_CFG_");
}

proof fn lemma_marks(name: Seq<char>)
    ensures
        begins(name, "CARGO_PKG_"@) ==> name.len() >= 10 && name[0] == 'C' && name[6] == 'P',
        begins(name, "CARGO_FEATURE_"@) ==> name.len() >= 10 && name[0] == 'C' && name[6] == 'F',
        begins(name, "CARGO_CFG_"@) ==> name.len() >= 10 && name[0] == 'C' && name[6] == 'C',
{
    lemma_prefixes();
}

/// What the platform's facts are told by has names of its own.
proof fn lemma_cfg_names(l: Seq<(Seq<char>, Option<Seq<char>>)>, on: bool, name: Seq<char>)
    requires
        !begins(name, "CARGO_CFG_"@),
    ensures
        !cfg_vars(l, on).contains_key(name),
{
    reveal_strlit("CARGO_CFG_DEBUG_ASSERTIONS");
    reveal_strlit("CARGO_CFG_");
    assert(begins("CARGO_CFG_DEBUG_ASSERTIONS"@, "CARGO_CFG_"@));
    if cfg_vars(l, on).contains_key(name) && name != "CARGO_CFG_DEBUG_ASSERTIONS"@ {
        let j = choose|j: int| 0 <= j < l.len() && told(#[trigger] l[j]) && cfg_var(l[j].0) == name;
        lemma_begins("CARGO_CFG_"@, uppercase(l[j].0));
    }
}

/// What is set for a package is set for its build script.
pub proof fn law_build_scripts_are_told_what_their_package_is(
    ctx: Ctx,
    u: Unit,
    script: Planned,
    iv: InvocationView,
    name: Seq<char>,
    value: Seq<char>,
    counts: bool,
)
    requires
        begins(name, "CARGO_PKG_"@),
        iv.env == Map::<Seq<char>, (Seq<char>, bool)>::empty(),
        sets(pkg_vars(iv, ctx, ctx.ws.pkgs@[u.pkg as int]), name, value, counts),
    ensures
        tells(run_plan(ctx, u, script).inv, ctx.at(u.kind), name, value, counts),
{
    let p = ctx.pkgs()[u.pkg as int];
    let base = run_base(ctx, u, script);
    lemma_pkg_env(iv, base, ctx, p);
    let w0 = pkg_vars(base, ctx, p);
    let w1 = match opt_view(p.links) {
        Some(l) => w0.setting("CARGO_MANIFEST_LINKS"@, l, true),
        None => w0,
    };
    lemma_marks(name);
    reveal_strlit("CARGO_MANIFEST_LINKS");
    assert("CARGO_MANIFEST_LINKS"@[6] == 'M');
    if opt_view(p.links).is_some() {
        lemma_set(w0, "CARGO_MANIFEST_LINKS"@, opt_view(p.links).unwrap(), true);
    }
    assert(sets(w1, name, value, counts));
    let fs = feature_vars(views(u.features@));
    assert(!lists(fs, name)) by {
        if lists(fs, name) {
            let i = choose|i: int| 0 <= i < fs.len() && (#[trigger] fs[i]).0 == name;
            lemma_begins("CARGO_FEATURE_"@, swapped(uppercase(views(u.features@)[i]), '-', '_'));
        }
    }
    lemma_unlisted(w1, fs, true, fs.len() as int, name);
    let w2 = with_all(w1, fs, true);
    assert(sets(w2, name, value, counts));
    let m = cfg_vars(facts(ctx.at(u.kind).info.cfg@), u.profile.debug_assertions);
    lemma_cfg_names(facts(ctx.at(u.kind).info.cfg@), u.profile.debug_assertions, name);
    lemma_mapped(w2, m, name);
    let w3 = run_head(base, ctx, u);
    assert(sets(w3, name, value, counts));
    lemma_last(w3, ctx, u, name);
    lemma_run(ctx, u, script);
    lemma_tail(run_last(w3, ctx, u), ctx.at(u.kind), name, value, counts);
}

proof fn lemma_pkg_env(a: InvocationView, b: InvocationView, ctx: Ctx, p: Pkg)
    requires
        a.env == b.env,
    ensures
        pkg_vars(a, ctx, p).env == pkg_vars(b, ctx, p).env,
{
    reveal(InvocationView::setting);
    let l = views(ctx.env_config@);
    assert forall|x: InvocationView, y: InvocationView|
        x.env == y.env implies (#[trigger] with_env(x, l, true, l.len() as int)).env == (#[trigger] with_env(
        y,
        l,
        true,
        l.len() as int,
    )).env by {
        lemma_env_env(x, y, l, true, l.len() as int);
    }
}

proof fn lemma_env_env(a: InvocationView, b: InvocationView, l: Seq<(Seq<char>, Seq<char>)>, h: bool, k: int)
    requires
        a.env == b.env,
    ensures
        with_env(a, l, h, k).env == with_env(b, l, h, k).env,
    decreases k,
{
    reveal(InvocationView::setting);
    if 0 < k <= l.len() {
        lemma_env_env(a, b, l, h, k - 1);
    }
}

/// Each feature of the package that is on is told to its build script.
pub proof fn law_build_scripts_are_told_the_features(ctx: Ctx, u: Unit, script: Planned, i: int)
    requires
        0 <= i < u.features@.len(),
    ensures
        tells(
            run_plan(ctx, u, script).inv,
            ctx.at(u.kind),
            "CARGO_FEATURE_"@ + swapped(uppercase(u.features@[i]@), '-', '_'),
            "1"@,
            true,
        ),
{
    let p = ctx.pkgs()[u.pkg as int];
    let base = run_base(ctx, u, script);
    let w0 = pkg_vars(base, ctx, p);
    let w1 = match opt_view(p.links) {
        Some(l) => w0.setting("CARGO_MANIFEST_LINKS"@, l, true),
        None => w0,
    };
    let fs = feature_vars(views(u.features@));
    let name = fs[i].0;
    assert(views(u.features@)[i] == u.features@[i]@);
    lemma_begins("CARGO_FEATURE_"@, swapped(uppercase(u.features@[i]@), '-', '_'));
    lemma_marks(name);
    lemma_last_of(fs, name, fs.len() as int, i);
    let j = choose|j: int| 0 <= j < fs.len() && (#[trigger] fs[j]).0 == name && forall|q: int| j < q < fs.len() ==> (#[trigger] fs[q]).0 != name;
    lemma_listed(w1, fs, true, fs.len() as int, j);
    let w2 = with_all(w1, fs, true);
    assert(sets(w2, name, "1"@, true));
    let m = cfg_vars(facts(ctx.at(u.kind).info.cfg@), u.profile.debug_assertions);
    lemma_cfg_names(facts(ctx.at(u.kind).info.cfg@), u.profile.debug_assertions, name);
    lemma_mapped(w2, m, name);
    let w3 = run_head(base, ctx, u);
    lemma_last(w3, ctx, u, name);
    lemma_run(ctx, u, script);
    lemma_tail(run_last(w3, ctx, u), ctx.at(u.kind), name, "1"@, true);
}

proof fn lemma_last_of(l: Seq<(Seq<char>, Seq<char>)>, name: Seq<char>, k: int, i: int)
    requires
        0 <= i < k <= l.len(),
        l[i].0 == name,
        forall|q: int| k <= q < l.len() ==> (#[trigger] l[q]).0 != name,
    ensures
        exists|j: int| 0 <= j < l.len() && (#[trigger] l[j]).0 == name && forall|q: int| j < q < l.len() ==> (#[trigger] l[q]).0 != name,
    decreases k,
{
    if l[k - 1].0 != name {
        lemma_last_of(l, name, k - 1, i);
    }
}

/// A fact of the platform is told to the build script. `debug_assertions` is told as the profile has it.
pub proof fn law_build_scripts_are_told_the_facts(ctx: Ctx, u: Unit, script: Planned, i: int)
    ensures
        u.profile.debug_assertions ==> tells(
            run_plan(ctx, u, script).inv,
            ctx.at(u.kind),
            "CARGO_CFG_DEBUG_ASSERTIONS"@,
            ""@,
            true,
        ),
        ({
            let l = facts(ctx.at(u.kind).info.cfg@);
            let name = "CARGO_CFG_"@ + uppercase(l[i].0);
            0 <= i < l.len() && l[i].0 != "feature"@ && l[i].0 != "debug_assertions"@ && (u.profile.debug_assertions ==> name
                != "CARGO_CFG_DEBUG_ASSERTIONS"@) && (forall|j: int|
                0 <= j < l.len() && j != i ==> "CARGO_CFG_"@ + uppercase((#[trigger] l[j]).0) != name) ==> tells(
                run_plan(ctx, u, script).inv,
                ctx.at(u.kind),
                name,
                match l[i].1 {
                    Some(v) => v,
                    None => ""@,
                },
                true,
            )
        }),
{
    let base = run_base(ctx, u, script);
    let l = facts(ctx.at(u.kind).info.cfg@);
    let m = cfg_vars(l, u.profile.debug_assertions);
    let w3 = run_head(base, ctx, u);
    lemma_run(ctx, u, script);
    if u.profile.debug_assertions {
        let name = "CARGO_CFG_DEBUG_ASSERTIONS"@;
        reveal_strlit("CARGO_CFG_DEBUG_ASSERTIONS");
        reveal_strlit("CARGO_CFG_");
        assert(begins(name, "CARGO_CFG_"@));
        lemma_told(ctx, u, script, name);
    }
    let name = "CARGO_CFG_"@ + uppercase(l[i].0);
    if 0 <= i < l.len() && l[i].0 != "feature"@ && l[i].0 != "debug_assertions"@ && (u.profile.debug_assertions ==> name
        != "CARGO_CFG_DEBUG_ASSERTIONS"@) && (forall|j: int|
        0 <= j < l.len() && j != i ==> "CARGO_CFG_"@ + uppercase((#[trigger] l[j]).0) != name) {
        lemma_begins("CARGO_CFG_"@, uppercase(l[i].0));
        assert(told(l[i]) && cfg_var(l[i].0) == name);
        assert forall|j: int| 0 <= j < l.len() && j != i implies cfg_var((#[trigger] l[j]).0) != name by {}
        assert(has_cfg(l, name, l.len() as int));
        lemma_values(l, name, i, l.len() as int);
        lemma_told(ctx, u, script, name);
        let vals = values_for(l, name, l.len() as int);
        reveal_with_fuel(join_upto, 3);
        match l[i].1 {
            Some(v) => {
                assert(joined(vals, ","@) =~= v);
            },
            None => {
                reveal_strlit("");
                assert(joined(vals, ","@) =~= ""@);
            },
        }
    }
}

proof fn lemma_values(l: Seq<(Seq<char>, Option<Seq<char>>)>, name: Seq<char>, i: int, k: int)
    requires
        0 <= i < l.len(),
        0 <= k <= l.len(),
        told(l[i]),
        cfg_var(l[i].0) == name,
        forall|j: int| 0 <= j < l.len() && j != i ==> cfg_var((#[trigger] l[j]).0) != name,
    ensures
        values_for(l, name, k) == if i < k && l[i].1.is_some() {
            seq![l[i].1.unwrap()]
        } else {
            Seq::empty()
        },
    decreases k,
{
    if k > 0 {
        lemma_values(l, name, i, k - 1);
        assert(Seq::<Seq<char>>::empty().push(l[i].1.unwrap()) =~= seq![l[i].1.unwrap()]);
    }
}

proof fn lemma_told(ctx: Ctx, u: Unit, script: Planned, name: Seq<char>)
    requires
        begins(name, "CARGO_CFG_"@),
        cfg_vars(facts(ctx.at(u.kind).info.cfg@), u.profile.debug_assertions).contains_key(name),
    ensures
        tells(
            run_plan(ctx, u, script).inv,
            ctx.at(u.kind),
            name,
            cfg_vars(facts(ctx.at(u.kind).info.cfg@), u.profile.debug_assertions)[name],
            true,
        ),
{
    let p = ctx.pkgs()[u.pkg as int];
    let base = run_base(ctx, u, script);
    let m = cfg_vars(facts(ctx.at(u.kind).info.cfg@), u.profile.debug_assertions);
    let w0 = pkg_vars(base, ctx, p);
    let w1 = match opt_view(p.links) {
        Some(l) => w0.setting("CARGO_MANIFEST_LINKS"@, l, true),
        None => w0,
    };
    let w2 = with_all(w1, feature_vars(views(u.features@)), true);
    lemma_mapped(w2, m, name);
    let w3 = run_head(base, ctx, u);
    assert(sets(w3, name, m[name], true));
    lemma_last(w3, ctx, u, name);
    lemma_run(ctx, u, script);
    lemma_tail(run_last(w3, ctx, u), ctx.at(u.kind), name, m[name], true);
}

// ---------------------------------------------------------------------------
// Libraries.

/// The file that a library is linked by: its metadata where that is enough, else what was made of it.
pub open spec fn is_file_of(ctx: Ctx, du: Unit, dp: Planned, meta: bool, path: Seq<char>) -> bool {
    let t = ctx.ws.pkgs@[du.pkg as int].targets@[du.target as int];
    let types = views(t.crate_types@);
    let k = ctx.at(du.kind);
    if types.contains("proc-macro"@) {
        ctx.host.info.named("proc-macro"@) matches Some((a, b)) && path == under(k.deps_dir@, a + dp.crate_name@ + "-"@ + head_bytes(dp.name@, 16) + b)
    } else if meta || du.mode == crate::unit::Mode::Check || du.mode == crate::unit::Mode::CheckTest {
        path == under(k.deps_dir@, "lib"@ + dp.crate_name@ + "-"@ + head_bytes(dp.name@, 16) + ".rmeta"@)
    } else if types.contains("lib"@) || types.contains("rlib"@) {
        k.info.named("rlib"@) matches Some((a, b)) && path == under(k.deps_dir@, a + dp.crate_name@ + "-"@ + head_bytes(dp.name@, 16) + b)
    } else {
        k.info.named("dylib"@) matches Some((a, b)) && path == under(k.deps_dir@, a + dp.crate_name@ + "-"@ + head_bytes(dp.name@, 16) + b)
    }
}

/// Every dependency with a name is linked under that name, by a file of its own. A unit that links waits for the code.
pub proof fn law_libraries_are_linked_by_name(
    ctx: Ctx,
    units: Seq<Unit>,
    planned: Seq<Option<Planned>>,
    deps: Seq<UnitDep>,
    links: bool,
    i: int,
)
    requires
        0 <= i < deps.len(),
        deps[i].extern_name.is_some(),
        externs_upto(ctx, units, planned, deps, false, links, deps.len() as int).is_some(),
    ensures
        ({
            let l = externs_upto(ctx, units, planned, deps, false, links, deps.len() as int).unwrap();
            let dp = planned[deps[i].unit as int].unwrap();
            exists|j: int|
                0 <= j < l.len() && (#[trigger] l[j]).0 == deps[i].extern_name.unwrap()@ && is_file_of(
                    ctx,
                    units[deps[i].unit as int],
                    dp,
                    !links && dp.emits_meta,
                    l[j].1,
                )
        }),
{
    lemma_externs_upto(ctx, units, planned, deps, links, deps.len() as int, i);
}

proof fn lemma_externs_upto(
    ctx: Ctx,
    units: Seq<Unit>,
    planned: Seq<Option<Planned>>,
    deps: Seq<UnitDep>,
    links: bool,
    k: int,
    i: int,
)
    requires
        0 <= i < k <= deps.len(),
        deps[i].extern_name.is_some(),
        externs_upto(ctx, units, planned, deps, false, links, k).is_some(),
    ensures
        ({
            let l = externs_upto(ctx, units, planned, deps, false, links, k).unwrap();
            let dp = planned[deps[i].unit as int].unwrap();
            exists|j: int|
                0 <= j < l.len() && (#[trigger] l[j]).0 == deps[i].extern_name.unwrap()@ && is_file_of(
                    ctx,
                    units[deps[i].unit as int],
                    dp,
                    !links && dp.emits_meta,
                    l[j].1,
                )
        }),
    decreases k,
{
    let l = externs_upto(ctx, units, planned, deps, false, links, k).unwrap();
    let before = externs_upto(ctx, units, planned, deps, false, links, k - 1).unwrap();
    let dp = planned[deps[i].unit as int].unwrap();
    let du = units[deps[i].unit as int];
    if i < k - 1 {
        lemma_externs_upto(ctx, units, planned, deps, links, k - 1, i);
        let j = choose|j: int|
            0 <= j < before.len() && (#[trigger] before[j]).0 == deps[i].extern_name.unwrap()@ && is_file_of(ctx, du, dp, !links && dp.emits_meta, before[j].1);
        assert(l[j] == before[j]);
    } else {
        let last = l.len() - 1;
        assert(l[last].0 == deps[i].extern_name.unwrap()@);
        assert(is_file_of(ctx, du, dp, !links && dp.emits_meta, l[last].1));
    }
}

/// What a build script wrote is found by what is compiled after it.
pub proof fn law_programs_find_what_their_build_script_wrote(
    ctx: Ctx,
    u: Unit,
    units: Seq<Unit>,
    planned: Seq<Option<Planned>>,
    lints: Lints,
    lto: LtoMode,
    externs: Seq<NamedView>,
    i: int,
)
    requires
        0 <= i < u.deps@.len(),
        units[u.deps@[i].unit as int].mode == crate::unit::Mode::RunCustomBuild,
        units[u.deps@[i].unit as int].pkg == u.pkg,
        forall|j: int|
            0 <= j < i ==> !(units[(#[trigger] u.deps@[j]).unit as int].mode == crate::unit::Mode::RunCustomBuild && units[u.deps@[j].unit as int].pkg
                == u.pkg),
    ensures
        sets(
            compile_plan(ctx, u, units, planned, lints, lto, externs).inv,
            "OUT_DIR"@,
            under(planned[u.deps@[i].unit as int].unwrap().out_dir@, "out"@),
            false,
        ),
        compile_plan(ctx, u, units, planned, lints, lto, externs).own_run == Some(u.deps@[i].unit),
        sets(
            doc_plan(ctx, u, units, planned, lints, externs).inv,
            "OUT_DIR"@,
            under(planned[u.deps@[i].unit as int].unwrap().out_dir@, "out"@),
            false,
        ),
{
    reveal(InvocationView::setting);
    lemma_own_run(units, u.deps@, u.pkg, 0, i);
}

proof fn lemma_own_run(units: Seq<Unit>, deps: Seq<UnitDep>, pkg: usize, k: int, i: int)
    requires
        0 <= k <= i < deps.len(),
        units[deps[i].unit as int].mode == crate::unit::Mode::RunCustomBuild,
        units[deps[i].unit as int].pkg == pkg,
        forall|j: int|
            0 <= j < i ==> !(units[(#[trigger] deps[j]).unit as int].mode == crate::unit::Mode::RunCustomBuild && units[deps[j].unit as int].pkg == pkg),
    ensures
        own_run_at(units, deps, pkg, k) == Some(deps[i].unit),
    decreases i - k,
{
    if k < i {
        assert(units[deps[k].unit as int].mode != crate::unit::Mode::RunCustomBuild || units[deps[k].unit as int].pkg != pkg);
        lemma_own_run(units, deps, pkg, k + 1, i);
    }
}

} // verus!
