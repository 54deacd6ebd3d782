//! What the compiler is told, whatever the unit: the settings of its profile, its features, its libraries, and nothing else.

use vstd::prelude::*;
use crate::commands::ArgsView;
use crate::commands::Ctx;
use crate::commands::KindInfo;
use crate::commands::Named;
use crate::commands::NamedView;
use crate::commands::Planned;
use crate::commands::TargetInfo;
use crate::commands::asked_types;
use crate::commands::backend_for;
use crate::commands::check_args;
use crate::commands::codegen_args;
use crate::commands::compile_dir;
use crate::commands::compile_env;
use crate::commands::compile_plan;
use crate::commands::compile_start;
use crate::commands::compiled;
use crate::commands::debug_args;
use crate::commands::each;
use crate::commands::emit_arg;
use crate::commands::extern_args;
use crate::commands::feature_args;
use crate::commands::feature_values;
use crate::commands::flag;
use crate::commands::foreign_args;
use crate::commands::head_args;
use crate::commands::link_args;
use crate::commands::lint_args;
use crate::commands::lto_args;
use crate::commands::output_args;
use crate::commands::pair;
use crate::commands::pairs_upto;
use crate::commands::pkg_vars;
use crate::commands::platform_args;
use crate::commands::quiet_pair;
use crate::commands::source_at;
use crate::commands::type_args;
use crate::commands::user_args;
use crate::commands::with_env;
use crate::commands::writes_meta;
use crate::invocation::InvocationView;
use crate::invocation::SELF_NAME16;
use crate::invocation::counted;
use crate::lints::Lints;
use crate::manifest::Target;
use crate::manifest::TargetKind;
use crate::num::dec;
use crate::path::under;
use crate::path::up;
use crate::plan::LtoMode;
use crate::plan::target_of;
use crate::profile::Lto;
use crate::profile::Profile;
use crate::sort::Ranked;
use crate::sort::in_order;
use crate::text::ends;
use crate::text::opt_view;
use crate::text::swapped;
use crate::text::views;
use crate::unit::CompileKind;
use crate::unit::Mode;
use crate::unit::Unit;
use crate::workspace::Pkg;
use crate::workspace::Source;

verus! {

// ---------------------------------------------------------------------------
// Arguments.

/// The argument is there, and counts or not.
pub open spec fn has(args: ArgsView, a: Seq<char>, counts: bool) -> bool {
    exists|i: int| 0 <= i < args.len() && #[trigger] args[i] == (a, counts)
}

/// The two arguments are there, one after the other.
pub open spec fn gives(args: ArgsView, a: Seq<char>, b: Seq<char>, counts: bool) -> bool {
    exists|i: int| 0 <= i < args.len() - 1 && #[trigger] args[i] == (a, counts) && args[i + 1] == (b, counts)
}

/// The arguments stand one after the other among others.
pub open spec fn inside(part: ArgsView, all: ArgsView) -> bool {
    exists|at: int|
        0 <= at && at + part.len() <= all.len() && #[trigger] all.subrange(at, at + part.len()) == part
}

pub proof fn lemma_inside(part: ArgsView, all: ArgsView)
    requires
        inside(part, all),
    ensures
        forall|a: Seq<char>, c: bool| has(part, a, c) ==> #[trigger] has(all, a, c),
        forall|a: Seq<char>, b: Seq<char>, c: bool| gives(part, a, b, c) ==> #[trigger] gives(all, a, b, c),
{
    let at = choose|at: int|
        0 <= at && at + part.len() <= all.len() && #[trigger] all.subrange(at, at + part.len()) == part;
    let sub = all.subrange(at, at + part.len());
    assert forall|a: Seq<char>, c: bool| has(part, a, c) implies #[trigger] has(all, a, c) by {
        let i = choose|i: int| 0 <= i < part.len() && #[trigger] part[i] == (a, c);
        assert(sub[i] == all[at + i]);
    }
    assert forall|a: Seq<char>, b: Seq<char>, c: bool| gives(part, a, b, c) implies #[trigger] gives(all, a, b, c) by {
        let i = choose|i: int| 0 <= i < part.len() - 1 && #[trigger] part[i] == (a, c) && part[i + 1] == (b, c);
        assert(sub[i] == all[at + i]);
        assert(sub[i + 1] == all[at + i + 1]);
    }
}

pub proof fn lemma_add(iv: InvocationView, more: ArgsView)
    ensures
        iv.adding(more).args == iv.args + more,
        inside(more, iv.adding(more).args),
        forall|part: ArgsView| inside(part, iv.args) ==> #[trigger] inside(part, iv.adding(more).args),
{
    reveal(InvocationView::adding);
    let all = iv.args + more;
    let n = iv.args.len() as int;
    assert(all.subrange(n, n + more.len()) =~= more);
    assert forall|part: ArgsView| inside(part, iv.args) implies #[trigger] inside(part, all) by {
        let at = choose|at: int|
            0 <= at && at + part.len() <= iv.args.len() && #[trigger] iv.args.subrange(at, at + part.len()) == part;
        assert(all.subrange(at, at + part.len()) =~= part);
    }
}

pub proof fn lemma_two(a: Seq<char>, b: Seq<char>, c: bool, args: ArgsView)
    requires
        inside(seq![(a, c), (b, c)], args),
    ensures
        gives(args, a, b, c),
{
    let part = seq![(a, c), (b, c)];
    assert(part[0] == (a, c) && part[1] == (b, c));
    assert(gives(part, a, b, c));
    lemma_inside(part, args);
}

pub proof fn lemma_inside_sum(a: ArgsView, b: ArgsView, c: ArgsView, all: ArgsView)
    requires
        inside(a + b + c, all),
    ensures
        inside(b, all),
{
    let part = a + b + c;
    let at = choose|at: int|
        0 <= at && at + part.len() <= all.len() && #[trigger] all.subrange(at, at + part.len()) == part;
    let sub = all.subrange(at, at + part.len());
    assert forall|i: int| 0 <= i < b.len() implies all[at + a.len() + i] == b[i] by {
        assert(sub[a.len() + i] == part[a.len() + i]);
    }
    assert(all.subrange(at + a.len(), at + a.len() + b.len()) =~= b);
}

proof fn lemma_pairs(name: Seq<char>, l: Seq<Seq<char>>, k: int, i: int)
    requires
        0 <= i < k <= l.len(),
    ensures
        gives(pairs_upto(name, l, k), name, l[i], true),
    decreases k,
{
    let rest = pairs_upto(name, l, k - 1);
    let all = pairs_upto(name, l, k);
    lemma_pairs_len(name, l, k - 1);
    if i < k - 1 {
        lemma_pairs(name, l, k - 1, i);
        let j = choose|j: int| 0 <= j < rest.len() - 1 && #[trigger] rest[j] == (name, true) && rest[j + 1] == (l[i], true);
        assert(all[j] == rest[j]);
        assert(all[j + 1] == rest[j + 1]);
    } else {
        assert(all[rest.len() as int] == (name, true));
        assert(all[rest.len() as int + 1] == (l[i], true));
    }
}

proof fn lemma_pairs_len(name: Seq<char>, l: Seq<Seq<char>>, k: int)
    requires
        0 <= k <= l.len(),
    ensures
        pairs_upto(name, l, k).len() == 2 * k,
    decreases k,
{
    if k > 0 {
        lemma_pairs_len(name, l, k - 1);
    }
}

/// Each value is given after the flag.
pub proof fn lemma_each(name: Seq<char>, l: Seq<Seq<char>>, args: ArgsView)
    requires
        inside(each(name, l), args),
    ensures
        forall|i: int| 0 <= i < l.len() ==> gives(args, name, #[trigger] l[i], true),
{
    lemma_inside(each(name, l), args);
    assert forall|i: int| 0 <= i < l.len() implies gives(args, name, #[trigger] l[i], true) by {
        lemma_pairs(name, l, l.len() as int, i);
    }
}

pub proof fn lemma_counted(l: Seq<Seq<char>>, args: ArgsView)
    requires
        inside(counted(l), args),
    ensures
        forall|i: int| 0 <= i < l.len() ==> has(args, #[trigger] l[i], true),
{
    let part = counted(l);
    lemma_inside(part, args);
    assert forall|i: int| 0 <= i < l.len() implies has(args, #[trigger] l[i], true) by {
        assert(part[i] == (l[i], true));
        assert(has(part, l[i], true));
    }
}

// ---------------------------------------------------------------------------
// Variables leave the arguments alone.

pub proof fn lemma_set_args(iv: InvocationView, k: Seq<char>, v: Seq<char>, h: bool)
    ensures
        iv.setting(k, v, h).args == iv.args,
        iv.setting(k, v, h).env == iv.env.insert(k, (v, h)),
        iv.setting(k, v, h).cwd == iv.cwd,
        iv.setting(k, v, h).program == iv.program,
        iv.setting(k, v, h).path_prepend == iv.path_prepend,
{
    reveal(InvocationView::setting);
}

pub proof fn lemma_env_args(iv: InvocationView, l: Seq<(Seq<char>, Seq<char>)>, h: bool, k: int)
    ensures
        with_env(iv, l, h, k).args == iv.args,
        with_env(iv, l, h, k).cwd == iv.cwd,
        with_env(iv, l, h, k).program == iv.program,
        with_env(iv, l, h, k).path_prepend == iv.path_prepend,
    decreases k,
{
    if 0 < k <= l.len() {
        lemma_env_args(iv, l, h, k - 1);
        lemma_set_args(with_env(iv, l, h, k - 1), l[k - 1].0, l[k - 1].1, h);
    }
}

pub proof fn lemma_pkg_args(iv: InvocationView, ctx: Ctx, p: Pkg)
    ensures
        pkg_vars(iv, ctx, p).args == iv.args,
        pkg_vars(iv, ctx, p).cwd == iv.cwd,
        pkg_vars(iv, ctx, p).program == iv.program,
        pkg_vars(iv, ctx, p).path_prepend == iv.path_prepend,
{
    reveal(InvocationView::setting);
    let l = views(ctx.env_config@);
    assert forall|w: InvocationView| #[trigger] with_env(w, l, true, l.len() as int).args == w.args && with_env(w, l, true, l.len() as int).cwd
        == w.cwd && with_env(w, l, true, l.len() as int).program == w.program && with_env(w, l, true, l.len() as int).path_prepend
        == w.path_prepend by {
        lemma_env_args(w, l, true, l.len() as int);
    }
}

proof fn lemma_compile_env_args(iv: InvocationView, ctx: Ctx, u: Unit, units: Seq<Unit>, planned: Seq<Option<Planned>>)
    ensures
        compile_env(iv, ctx, u, units, planned).args == iv.args,
        compile_env(iv, ctx, u, units, planned).cwd == iv.cwd,
        compile_env(iv, ctx, u, units, planned).program == iv.program,
{
    reveal(InvocationView::setting);
    let p = ctx.pkgs()[u.pkg as int];
    assert forall|w: InvocationView, l: Seq<(Seq<char>, Seq<char>)>, h: bool, k: int| #[trigger] with_env(w, l, h, k).args == w.args
        && with_env(w, l, h, k).cwd == w.cwd && with_env(w, l, h, k).program == w.program by {
        lemma_env_args(w, l, h, k);
    }
    assert forall|w: InvocationView| #[trigger] pkg_vars(w, ctx, p).args == w.args && pkg_vars(
        w,
        ctx,
        p,
    ).cwd == w.cwd && pkg_vars(w, ctx, p).program == w.program by {
        lemma_pkg_args(w, ctx, p);
    }
}

// ---------------------------------------------------------------------------
// The parts of a call.

/// The package of a unit.
pub open spec fn pkg_of(ctx: Ctx, u: Unit) -> Pkg {
    ctx.ws.pkgs@[u.pkg as int]
}

/// The target that a unit builds.
pub open spec fn target_in(ctx: Ctx, u: Unit) -> Target {
    ctx.ws.pkgs@[u.pkg as int].targets@[u.target as int]
}

/// The package lies with the workspace, or at a path.
pub open spec fn is_local(p: Pkg) -> bool {
    p.source == Source::Workspace || p.source == Source::Path
}

/// The unit is a test or a benchmark.
pub open spec fn is_test(m: Mode) -> bool {
    m == Mode::Test || m == Mode::Bench || m == Mode::CheckTest
}

/// The unit is only checked.
pub open spec fn is_check(m: Mode) -> bool {
    m == Mode::Check || m == Mode::CheckTest
}

/// The crate name that goes with the name of a target: with underscores for hyphens.
pub open spec fn is_crate_name(c: Seq<char>, name: Seq<char>) -> bool {
    c.len() == name.len() && forall|i: int| 0 <= i < name.len() ==> #[trigger] c[i] == if name[i] == '-' {
        '_'
    } else {
        name[i]
    }
}

spec fn parts_inside(ctx: Ctx, u: Unit, lints: Lints, lto: LtoMode, externs: Seq<NamedView>, all: ArgsView) -> bool {
    let p = ctx.pkgs()[u.pkg as int];
    let t = target_of(ctx.pkgs(), u);
    let k = ctx.at(u.kind);
    let crate_name = swapped(t.name@, '-', '_');
    let local = p.source.local();
    let test = u.mode.tests();
    let types = asked_types(t, test);
    let script = t.kind == TargetKind::BuildScript;
    &&& inside(head_args(ctx, crate_name, t.edition@, source_at(ctx.ws.root@, p, t).0, local), all)
    &&& inside(type_args(test, t.harness, types), all)
    &&& inside(flag(emit_arg(u.mode.checks(), writes_meta(types, test))), all)
    &&& inside(codegen_args(u.profile, u.for_host, lto), all)
    &&& inside(debug_args(u.profile, k.info), all)
    &&& inside(
        check_args(u.profile.opt_level@ == "0"@, u.profile.debug_assertions, u.profile.overflow_checks),
        all,
    )
    &&& inside(link_args(ctx, u.profile, t.proc_macro() || types.contains("dylib"@)), all)
    &&& inside(feature_args(views(u.features@)), all)
    &&& inside(lint_args(views(lints.flags@), views(lints.check_cfg@), views(p.declared_features@)), all)
    &&& inside(output_args(k, crate_name, compile_dir(ctx, u), u.profile.incremental && local), all)
    &&& inside(platform_args(k, *ctx.host, u.kind), all)
    &&& inside(extern_args(crate::sort::in_order::<Named>(externs)), all)
    &&& inside(crate::commands::when(t.proc_macro(), pair("--extern"@, "proc_macro"@)), all)
    &&& inside(crate::commands::when(!local, foreign_args(ctx, p)), all)
    &&& inside(user_args(ctx, k, u.profile), all)
    &&& inside(crate::commands::when(!script && ctx.primary@.contains(u.pkg), counted(views(ctx.extra_rustc@))), all)
    &&& inside(crate::commands::when(!script && !t.proc_macro(), counted(views(ctx.std_externs@))), all)
}

#[verifier::opaque]
spec fn head_len(ctx: Ctx, u: Unit) -> nat {
    let p = ctx.pkgs()[u.pkg as int];
    let t = target_of(ctx.pkgs(), u);
    let test = u.mode.tests();
    head_args(ctx, swapped(t.name@, '-', '_'), t.edition@, source_at(ctx.ws.root@, p, t).0, p.source.local()).len() + type_args(
        test,
        t.harness,
        asked_types(t, test),
    ).len() + 1
}

#[verifier::opaque]
spec fn codegen_len(prof: Profile, for_host: bool, lto: LtoMode) -> nat {
    codegen_args(prof, for_host, lto).len()
}

#[verifier::opaque]
spec fn debug_len(prof: Profile, info: TargetInfo) -> nat {
    debug_args(prof, info).len()
}

#[verifier::opaque]
spec fn checks_len(opt0: bool, assertions: bool, overflow: bool) -> nat {
    check_args(opt0, assertions, overflow).len()
}

#[verifier::opaque]
spec fn link_len(ctx: Ctx, prof: Profile, dynamic: bool) -> nat {
    link_args(ctx, prof, dynamic).len()
}

#[verifier::opaque]
spec fn profile_len(ctx: Ctx, u: Unit, lto: LtoMode) -> nat {
    let t = target_of(ctx.pkgs(), u);
    let types = asked_types(t, u.mode.tests());
    codegen_len(u.profile, u.for_host, lto) + debug_len(u.profile, ctx.at(u.kind).info) + checks_len(
        u.profile.opt_level@ == "0"@,
        u.profile.debug_assertions,
        u.profile.overflow_checks,
    ) + link_len(ctx, u.profile, t.proc_macro() || types.contains("dylib"@))
}

#[verifier::opaque]
spec fn rest_len(ctx: Ctx, u: Unit, lints: Lints, externs: Seq<NamedView>) -> nat {
    let p = ctx.pkgs()[u.pkg as int];
    let t = target_of(ctx.pkgs(), u);
    let k = ctx.at(u.kind);
    let local = p.source.local();
    let script = t.kind == TargetKind::BuildScript;
    feature_args(views(u.features@)).len() + lint_args(views(lints.flags@), views(lints.check_cfg@), views(p.declared_features@)).len()
        + output_args(k, swapped(t.name@, '-', '_'), compile_dir(ctx, u), u.profile.incremental && local).len() + platform_args(
        k,
        *ctx.host,
        u.kind,
    ).len() + extern_args(in_order::<Named>(externs)).len() + crate::commands::when(t.proc_macro(), pair("--extern"@, "proc_macro"@)).len()
        + crate::commands::when(!local, foreign_args(ctx, p)).len() + user_args(ctx, k, u.profile).len() + crate::commands::when(
        !script && ctx.primary@.contains(u.pkg),
        counted(views(ctx.extra_rustc@)),
    ).len() + crate::commands::when(!script && !t.proc_macro(), counted(views(ctx.std_externs@))).len()
}

proof fn lemma_parts(
    ctx: Ctx,
    u: Unit,
    units: Seq<Unit>,
    planned: Seq<Option<Planned>>,
    lints: Lints,
    lto: LtoMode,
    externs: Seq<NamedView>,
)
    ensures
        parts_inside(ctx, u, lints, lto, externs, compile_plan(ctx, u, units, planned, lints, lto, externs).inv.args),
        compile_plan(ctx, u, units, planned, lints, lto, externs).inv.args.len() == head_len(ctx, u) + profile_len(ctx, u, lto) + rest_len(
            ctx,
            u,
            lints,
            externs,
        ),
{
    reveal(head_len);
    reveal(profile_len);
    reveal(rest_len);
    reveal(codegen_len);
    reveal(debug_len);
    reveal(checks_len);
    reveal(link_len);
    let p = ctx.pkgs()[u.pkg as int];
    let t = target_of(ctx.pkgs(), u);
    let k = ctx.at(u.kind);
    let crate_name = swapped(t.name@, '-', '_');
    let local = p.source.local();
    let test = u.mode.tests();
    let types = asked_types(t, test);
    let script = t.kind == TargetKind::BuildScript;
    let src = source_at(ctx.ws.root@, p, t);
    let i0 = compile_start(ctx, src.1);
    let a1 = head_args(ctx, crate_name, t.edition@, src.0, local);
    let a2 = type_args(test, t.harness, types);
    let a3 = flag(emit_arg(u.mode.checks(), writes_meta(types, test)));
    let a4 = codegen_args(u.profile, u.for_host, lto);
    let a5 = debug_args(u.profile, k.info);
    let a6 = check_args(u.profile.opt_level@ == "0"@, u.profile.debug_assertions, u.profile.overflow_checks);
    let a7 = link_args(ctx, u.profile, t.proc_macro() || types.contains("dylib"@));
    let a8 = feature_args(views(u.features@));
    let a9 = lint_args(views(lints.flags@), views(lints.check_cfg@), views(p.declared_features@));
    let b1 = output_args(k, crate_name, compile_dir(ctx, u), u.profile.incremental && local);
    let b2 = platform_args(k, *ctx.host, u.kind);
    let b3 = extern_args(crate::sort::in_order::<Named>(externs));
    let b4 = crate::commands::when(t.proc_macro(), pair("--extern"@, "proc_macro"@));
    let b5 = crate::commands::when(!local, foreign_args(ctx, p));
    let b6 = user_args(ctx, k, u.profile);
    let b7 = crate::commands::when(!script && ctx.primary@.contains(u.pkg), counted(views(ctx.extra_rustc@)));
    let b8 = crate::commands::when(!script && !t.proc_macro(), counted(views(ctx.std_externs@)));
    let i1 = i0.adding(a1);
    let i2 = i1.adding(a2);
    let i3 = i2.adding(a3);
    let i4 = i3.adding(a4);
    let i5 = i4.adding(a5);
    let i6 = i5.adding(a6);
    let i7 = i6.adding(a7);
    let i8 = i7.adding(a8);
    let i9 = i8.adding(a9);
    let j1 = i9.adding(b1);
    let j2 = j1.adding(b2);
    let j3 = j2.adding(b3);
    let j4 = j3.adding(b4);
    let j5 = j4.adding(b5);
    let j6 = j5.adding(b6);
    let j7 = j6.adding(b7);
    let j8 = j7.adding(b8);
    lemma_add(i0, a1);
    lemma_add(i1, a2);
    lemma_add(i2, a3);
    lemma_add(i3, a4);
    lemma_add(i4, a5);
    lemma_add(i5, a6);
    lemma_add(i6, a7);
    lemma_add(i7, a8);
    lemma_add(i8, a9);
    lemma_add(i9, b1);
    lemma_add(j1, b2);
    lemma_add(j2, b3);
    lemma_add(j3, b4);
    lemma_add(j4, b5);
    lemma_add(j5, b6);
    lemma_add(j6, b7);
    lemma_add(j7, b8);
    assert(j8 == compiled(i0, ctx, u, lints, lto, externs));
    let before = InvocationView { path_prepend: views(k.cross.path_prepend@), ..j8 };
    lemma_compile_env_args(before, ctx, u, units, planned);
    assert(compile_plan(ctx, u, units, planned, lints, lto, externs).inv.args == j8.args);
}

proof fn lemma_codegen(prof: Profile, for_host: bool, lto: LtoMode, args: ArgsView)
    requires
        inside(codegen_args(prof, for_host, lto), args),
    ensures
        prof.opt_level@ != "0"@ ==> gives(args, "-C"@, "opt-level="@ + prof.opt_level@, true),
        prof.panic@ == "abort"@ && !for_host ==> gives(args, "-C"@, "panic=abort"@, true),
        lto == LtoMode::Off ==> gives(args, "-C"@, "lto=off"@, true),
        lto == LtoMode::OnlyBitcode ==> gives(args, "-C"@, "linker-plugin-lto"@, true),
        lto == LtoMode::OnlyObject ==> gives(args, "-C"@, "embed-bitcode=no"@, true),
        lto == LtoMode::Run && prof.lto == Lto::Thin ==> gives(args, "-C"@, "lto=thin"@, true),
        lto == LtoMode::Run && prof.lto == Lto::Fat ==> gives(args, "-C"@, "lto=fat"@, true),
        lto == LtoMode::Run && prof.lto != Lto::Thin && prof.lto != Lto::Fat ==> gives(args, "-C"@, "lto"@, true),
        prof.codegen_units.is_some() ==> gives(args, "-C"@, "codegen-units="@ + dec(prof.codegen_units.unwrap() as nat), true),
{
    let cg = codegen_args(prof, for_host, lto);
    let c1 = crate::commands::when(prof.opt_level@ != "0"@, pair("-C"@, "opt-level="@ + prof.opt_level@));
    let c2 = crate::commands::when(prof.panic@ == "abort"@ && !for_host, pair("-C"@, "panic=abort"@));
    let c3 = lto_args(lto, prof.lto);
    let c4 = match prof.codegen_units {
        Some(n) => pair("-C"@, "codegen-units="@ + dec(n as nat)),
        None => Seq::empty(),
    };
    assert(cg =~= Seq::empty() + c1 + (c2 + c3 + c4));
    lemma_inside_sum(Seq::empty(), c1, c2 + c3 + c4, args);
    assert(cg =~= c1 + c2 + (c3 + c4));
    lemma_inside_sum(c1, c2, c3 + c4, args);
    assert(cg =~= (c1 + c2) + c3 + c4);
    lemma_inside_sum(c1 + c2, c3, c4, args);
    assert(cg =~= (c1 + c2 + c3) + c4 + Seq::empty());
    lemma_inside_sum(c1 + c2 + c3, c4, Seq::empty(), args);
    if prof.opt_level@ != "0"@ {
        lemma_two("-C"@, "opt-level="@ + prof.opt_level@, true, args);
    }
    if prof.panic@ == "abort"@ && !for_host {
        lemma_two("-C"@, "panic=abort"@, true, args);
    }
    match lto {
        LtoMode::Run => {
            lemma_two(
                "-C"@,
                match prof.lto {
                    Lto::Thin => "lto=thin"@,
                    Lto::Fat => "lto=fat"@,
                    _ => "lto"@,
                },
                true,
                args,
            );
        },
        LtoMode::Off => {
            lemma_two("-C"@, "lto=off"@, true, args);
        },
        LtoMode::ObjectAndBitcode => {},
        LtoMode::OnlyBitcode => {
            lemma_two("-C"@, "linker-plugin-lto"@, true, args);
        },
        LtoMode::OnlyObject => {
            lemma_two("-C"@, "embed-bitcode=no"@, true, args);
        },
    }
    if let Some(n) = prof.codegen_units {
        lemma_two("-C"@, "codegen-units="@ + dec(n as nat), true, args);
    }
}

proof fn lemma_debug(prof: Profile, info: TargetInfo, args: ArgsView)
    requires
        inside(debug_args(prof, info), args),
    ensures
        prof.debuginfo@ != "0"@ ==> gives(args, "-C"@, "debuginfo="@ + prof.debuginfo@, true),
        prof.debuginfo@ != "0"@ && prof.split_debuginfo.is_some() && (info.apple || prof.split_debuginfo.unwrap()@ == "packed"@) ==> gives(
            args,
            "-C"@,
            "split-debuginfo="@ + prof.split_debuginfo.unwrap()@,
            true,
        ),
{
    if prof.debuginfo@ != "0"@ {
        let d1 = pair("-C"@, "debuginfo="@ + prof.debuginfo@);
        let d = debug_args(prof, info);
        let d2 = d.skip(2);
        assert(d =~= Seq::empty() + d1 + d2);
        lemma_inside_sum(Seq::empty(), d1, d2, args);
        lemma_two("-C"@, "debuginfo="@ + prof.debuginfo@, true, args);
        if let Some(s) = prof.split_debuginfo {
            if info.apple || s@ == "packed"@ {
                let d3 = pair("-C"@, "split-debuginfo="@ + s@);
                assert(d =~= d1 + d3 + Seq::empty());
                lemma_inside_sum(d1, d3, Seq::empty(), args);
                lemma_two("-C"@, "split-debuginfo="@ + s@, true, args);
            }
        }
    }
}

proof fn lemma_link(ctx: Ctx, prof: Profile, dynamic: bool, args: ArgsView)
    requires
        inside(link_args(ctx, prof, dynamic), args),
    ensures
        prof.strip.is_some() ==> gives(args, "-C"@, "strip="@ + prof.strip.unwrap()@, true),
        prof.rpath ==> gives(args, "-C"@, "rpath"@, true),
        dynamic ==> gives(args, "-C"@, "prefer-dynamic"@, true),
        prof.codegen_backend.is_some() && prof.codegen_backend.unwrap()@ != "llvm"@ ==> has(
            args,
            "-Zcodegen-backend="@ + prof.codegen_backend.unwrap()@,
            true,
        ),
{
    let l = link_args(ctx, prof, dynamic);
    let l1 = match opt_view(prof.strip) {
        Some(s) => pair("-C"@, "strip="@ + s),
        None => Seq::empty(),
    };
    let l2 = crate::commands::when(prof.rpath, pair("-C"@, "rpath"@));
    let l3 = crate::commands::when(dynamic, pair("-C"@, "prefer-dynamic"@));
    let l4 = match backend_for(ctx, prof) {
        Some(b) => crate::commands::when(b != "llvm"@, flag("-Zcodegen-backend="@ + b)),
        None => Seq::empty(),
    };
    assert(l =~= Seq::empty() + l1 + (l2 + l3 + l4));
    lemma_inside_sum(Seq::empty(), l1, l2 + l3 + l4, args);
    assert(l =~= l1 + l2 + (l3 + l4));
    lemma_inside_sum(l1, l2, l3 + l4, args);
    assert(l =~= (l1 + l2 + l3) + l4 + Seq::empty());
    lemma_inside_sum(l1 + l2 + l3, l4, Seq::empty(), args);
    if let Some(s) = prof.strip {
        lemma_two("-C"@, "strip="@ + s@, true, args);
    }
    if prof.rpath {
        lemma_two("-C"@, "rpath"@, true, args);
    }
    if let Some(b) = prof.codegen_backend {
        if b@ != "llvm"@ {
            assert(l4[0] == ("-Zcodegen-backend="@ + b@, true));
            assert(has(l4, "-Zcodegen-backend="@ + b@, true));
            lemma_inside(l4, args);
        }
    }
    assert(l =~= (l1 + l2) + l3 + l4);
    lemma_inside_sum(l1 + l2, l3, l4, args);
    if dynamic {
        lemma_two("-C"@, "prefer-dynamic"@, true, args);
    }
}

proof fn lemma_checks(opt0: bool, assertions: bool, overflow: bool, args: ArgsView)
    requires
        inside(check_args(opt0, assertions, overflow), args),
    ensures
        assertions && !opt0 ==> gives(args, "-C"@, "debug-assertions=on"@, true),
        !assertions && opt0 ==> gives(args, "-C"@, "debug-assertions=off"@, true),
        overflow && !assertions ==> gives(args, "-C"@, "overflow-checks=on"@, true),
        !overflow && assertions ==> gives(args, "-C"@, "overflow-checks=off"@, true),
{
    let part = check_args(opt0, assertions, overflow);
    lemma_inside(part, args);
    if assertions && !opt0 {
        let i: int = 0;
        assert(part[i] == ("-C"@, true) && part[i + 1] == ("debug-assertions=on"@, true));
        assert(gives(part, "-C"@, "debug-assertions=on"@, true));
    }
    if !assertions && opt0 {
        let i: int = 0;
        assert(part[i] == ("-C"@, true) && part[i + 1] == ("debug-assertions=off"@, true));
        assert(gives(part, "-C"@, "debug-assertions=off"@, true));
    }
    if overflow && !assertions {
        let i: int = if opt0 {
            2
        } else {
            0
        };
        assert(part[i] == ("-C"@, true) && part[i + 1] == ("overflow-checks=on"@, true));
        assert(gives(part, "-C"@, "overflow-checks=on"@, true));
    }
    if !overflow && assertions {
        let i: int = if opt0 {
            0
        } else {
            2
        };
        assert(part[i] == ("-C"@, true) && part[i + 1] == ("overflow-checks=off"@, true));
        assert(gives(part, "-C"@, "overflow-checks=off"@, true));
    }
}

proof fn lemma_output(k: KindInfo, c: Seq<char>, dir: Seq<char>, incremental: bool, args: ArgsView)
    requires
        inside(output_args(k, c, dir, incremental), args),
    ensures
        gives(args, "-C"@, "metadata="@ + SELF_NAME16@, true),
        gives(args, "-C"@, "extra-filename=-"@ + SELF_NAME16@, true),
        gives(args, "--out-dir"@, dir, false),
        incremental ==> gives(args, "-C"@, "incremental="@ + under(k.incremental_dir@, c + "-"@ + SELF_NAME16@), false),
{
    let o = output_args(k, c, dir, incremental);
    let x = "incremental="@ + under(k.incremental_dir@, c + "-"@ + SELF_NAME16@);
    let o1 = pair("-C"@, "metadata="@ + SELF_NAME16@);
    let o2 = pair("-C"@, "extra-filename=-"@ + SELF_NAME16@);
    let o3 = quiet_pair("--out-dir"@, dir);
    let o4 = crate::commands::when(incremental, quiet_pair("-C"@, x));
    assert(o =~= Seq::empty() + o1 + (o2 + o3 + o4));
    lemma_inside_sum(Seq::empty(), o1, o2 + o3 + o4, args);
    assert(o =~= o1 + o2 + (o3 + o4));
    lemma_inside_sum(o1, o2, o3 + o4, args);
    assert(o =~= (o1 + o2) + o3 + o4);
    lemma_inside_sum(o1 + o2, o3, o4, args);
    assert(o =~= (o1 + o2 + o3) + o4 + Seq::empty());
    lemma_inside_sum(o1 + o2 + o3, o4, Seq::empty(), args);
    lemma_two("-C"@, "metadata="@ + SELF_NAME16@, true, args);
    lemma_two("-C"@, "extra-filename=-"@ + SELF_NAME16@, true, args);
    lemma_two("--out-dir"@, dir, false, args);
    if incremental {
        lemma_two("-C"@, x, false, args);
    }
}

// ---------------------------------------------------------------------------
// Laws.

/// What the profile of a unit says is what the compiler is told: the level of optimization, what a panic does, how code is
/// split and linked, debug information, and what is stripped.
pub proof fn law_the_compiler_is_told_the_profile(
    ctx: Ctx,
    u: Unit,
    units: Seq<Unit>,
    planned: Seq<Option<Planned>>,
    lints: Lints,
    lto: LtoMode,
    externs: Seq<NamedView>,
)
    ensures
        ({
            let prof = u.profile;
            let args = compile_plan(ctx, u, units, planned, lints, lto, externs).inv.args;
            &&& prof.opt_level@ != "0"@ ==> gives(args, "-C"@, "opt-level="@ + prof.opt_level@, true)
            &&& prof.panic@ == "abort"@ && !u.for_host ==> gives(args, "-C"@, "panic=abort"@, true)
            &&& lto == LtoMode::Off ==> gives(args, "-C"@, "lto=off"@, true)
            &&& lto == LtoMode::OnlyBitcode ==> gives(args, "-C"@, "linker-plugin-lto"@, true)
            &&& lto == LtoMode::OnlyObject ==> gives(args, "-C"@, "embed-bitcode=no"@, true)
            &&& lto == LtoMode::Run && prof.lto == Lto::Thin ==> gives(args, "-C"@, "lto=thin"@, true)
            &&& lto == LtoMode::Run && prof.lto == Lto::Fat ==> gives(args, "-C"@, "lto=fat"@, true)
            &&& lto == LtoMode::Run && prof.lto != Lto::Thin && prof.lto != Lto::Fat ==> gives(args, "-C"@, "lto"@, true)
            &&& prof.codegen_units.is_some() ==> gives(args, "-C"@, "codegen-units="@ + dec(prof.codegen_units.unwrap() as nat), true)
            &&& prof.debuginfo@ != "0"@ ==> gives(args, "-C"@, "debuginfo="@ + prof.debuginfo@, true)
            &&& prof.debuginfo@ != "0"@ && prof.split_debuginfo.is_some() && (ctx.at(u.kind).info.apple || prof.split_debuginfo.unwrap()@
                == "packed"@) ==> gives(args, "-C"@, "split-debuginfo="@ + prof.split_debuginfo.unwrap()@, true)
            &&& prof.debug_assertions && prof.opt_level@ != "0"@ ==> gives(args, "-C"@, "debug-assertions=on"@, true)
            &&& !prof.debug_assertions && prof.opt_level@ == "0"@ ==> gives(args, "-C"@, "debug-assertions=off"@, true)
            &&& prof.overflow_checks && !prof.debug_assertions ==> gives(args, "-C"@, "overflow-checks=on"@, true)
            &&& !prof.overflow_checks && prof.debug_assertions ==> gives(args, "-C"@, "overflow-checks=off"@, true)
            &&& prof.strip.is_some() ==> gives(args, "-C"@, "strip="@ + prof.strip.unwrap()@, true)
            &&& prof.rpath ==> gives(args, "-C"@, "rpath"@, true)
            &&& prof.codegen_backend.is_some() && prof.codegen_backend.unwrap()@ != "llvm"@ ==> has(
                args,
                "-Zcodegen-backend="@ + prof.codegen_backend.unwrap()@,
                true,
            )
            &&& prof.incremental && is_local(pkg_of(ctx, u)) ==> exists|c: Seq<char>| #[trigger]
                is_crate_name(c, target_in(ctx, u).name@) && gives(
                    args,
                    "-C"@,
                    "incremental="@ + under(ctx.at(u.kind).incremental_dir@, c + "-"@ + SELF_NAME16@),
                    false,
                )
        }),
{
    let args = compile_plan(ctx, u, units, planned, lints, lto, externs).inv.args;
    lemma_parts(ctx, u, units, planned, lints, lto, externs);
    let t = target_of(ctx.pkgs(), u);
    let dynamic = t.proc_macro() || asked_types(t, u.mode.tests()).contains("dylib"@);
    let c = swapped(t.name@, '-', '_');
    lemma_codegen(u.profile, u.for_host, lto, args);
    lemma_debug(u.profile, ctx.at(u.kind).info, args);
    lemma_link(ctx, u.profile, dynamic, args);
    lemma_checks(u.profile.opt_level@ == "0"@, u.profile.debug_assertions, u.profile.overflow_checks, args);
    lemma_output(ctx.at(u.kind), c, compile_dir(ctx, u), u.profile.incremental && pkg_of(ctx, u).source.local(), args);
    assert(is_crate_name(c, target_in(ctx, u).name@));
}

// ---------------------------------------------------------------------------
// What is compiled, and with what.

proof fn lemma_head(ctx: Ctx, name: Seq<char>, edition: Seq<char>, src: Seq<char>, local: bool, args: ArgsView)
    requires
        inside(head_args(ctx, name, edition, src, local), args),
    ensures
        gives(args, "--crate-name"@, name, true),
        has(args, "--edition="@ + edition, true),
        has(args, src, true),
        has(args, "--error-format=json"@, false),
        ctx.wrapper.is_some() ==> has(args, ctx.rustc.path@, false),
{
    let h = head_args(ctx, name, edition, src, local);
    lemma_inside(h, args);
    let w: int = if ctx.wrapper.is_some() {
        1
    } else {
        0
    };
    assert(ctx.wrapper.is_some() ==> h[0] == (ctx.rustc.path@, false));
    assert(h[w] == ("--crate-name"@, true));
    assert(h[w + 1] == (name, true));
    assert(gives(h, "--crate-name"@, name, true));
    assert(h[w + 2] == ("--edition="@ + edition, true));
    assert(h[w + 3] == (src, true));
    assert(has(h, "--edition="@ + edition, true));
    assert(has(h, src, true));
    let e: int = if local && ctx.shell@.verbose() {
        w + 5
    } else {
        w + 4
    };
    assert(h[e] == ("--error-format=json"@, false));
    assert(has(h, "--error-format=json"@, false));
}

/// The compiler is told what it compiles: the crate and its edition, which kind of file to make of it, where to put it, and
/// each of its features. A unit that is only checked makes metadata alone, and a test is compiled as one.
pub proof fn law_the_compiler_is_told_what_to_make(
    ctx: Ctx,
    u: Unit,
    units: Seq<Unit>,
    planned: Seq<Option<Planned>>,
    lints: Lints,
    lto: LtoMode,
    externs: Seq<NamedView>,
)
    ensures
        ({
            let t = target_in(ctx, u);
            let k = ctx.at(u.kind);
            let plan = compile_plan(ctx, u, units, planned, lints, lto, externs);
            let args = plan.inv.args;
            let types = views(t.crate_types@);
            let own_types = !is_test(u.mode) && (t.kind == TargetKind::Lib || t.kind == TargetKind::Example);
            &&& exists|c: Seq<char>| #[trigger] is_crate_name(c, t.name@) && gives(args, "--crate-name"@, c, true) && plan.crate_name == c
            &&& has(args, "--edition="@ + t.edition@, true)
            &&& !is_local(pkg_of(ctx, u)) ==> has(args, t.src_path@, true) && plan.inv.cwd == pkg_of(ctx, u).root@
            &&& is_test(u.mode) && t.harness ==> has(args, "--test"@, true)
            &&& is_test(u.mode) && !t.harness ==> gives(args, "--cfg"@, "test"@, true)
            &&& own_types ==> forall|i: int| 0 <= i < types.len() ==> gives(args, "--crate-type"@, #[trigger] types[i], true)
            &&& !is_test(u.mode) && !own_types ==> gives(args, "--crate-type"@, "bin"@, true)
            &&& is_check(u.mode) ==> has(args, "--emit=dep-info,metadata"@, true)
            &&& !is_check(u.mode) && own_types && types == seq!["lib"@] ==> has(args, "--emit=dep-info,metadata,link"@, true)
            &&& !is_check(u.mode) && !own_types ==> has(args, "--emit=dep-info,link"@, true)
            &&& gives(args, "-C"@, "metadata="@ + SELF_NAME16@, true)
            &&& gives(args, "-C"@, "extra-filename=-"@ + SELF_NAME16@, true)
            &&& gives(args, "--out-dir"@, plan.out_dir, false)
            &&& t.kind != TargetKind::BuildScript ==> plan.out_dir == k.deps_dir@
            &&& t.kind == TargetKind::BuildScript ==> plan.out_dir == under(
                k.build_dir@,
                pkg_of(ctx, u).name@ + "-"@ + SELF_NAME16@,
            )
            &&& forall|i: int|
                0 <= i < u.features@.len() ==> gives(args, "--cfg"@, "feature=\""@ + (#[trigger] u.features@[i])@ + "\""@, true)
            &&& ctx.wrapper.is_none() ==> plan.inv.program == ctx.rustc.path@
            &&& ctx.wrapper.is_some() ==> plan.inv.program == ctx.wrapper.unwrap()@ && has(args, ctx.rustc.path@, false)
        }),
{
    let t = target_in(ctx, u);
    let p = pkg_of(ctx, u);
    let k = ctx.at(u.kind);
    let plan = compile_plan(ctx, u, units, planned, lints, lto, externs);
    let args = plan.inv.args;
    lemma_parts(ctx, u, units, planned, lints, lto, externs);
    let c = swapped(t.name@, '-', '_');
    assert(is_crate_name(c, t.name@));
    let src = source_at(ctx.ws.root@, p, t);
    lemma_head(ctx, c, t.edition@, src.0, p.source.local(), args);
    lemma_output(k, c, compile_dir(ctx, u), u.profile.incremental && p.source.local(), args);
    let test = u.mode.tests();
    let types = asked_types(t, test);
    let ty = type_args(test, t.harness, types);
    lemma_inside(ty, args);
    if test && t.harness {
        assert(ty[0] == ("--test"@, true));
        assert(has(ty, "--test"@, true));
    } else if test {
        lemma_two("--cfg"@, "test"@, true, args);
    } else {
        lemma_each("--crate-type"@, types, args);
        if !(t.kind == TargetKind::Lib || t.kind == TargetKind::Example) {
            assert(types[0] == "bin"@);
        }
    }
    let meta = writes_meta(types, test);
    let e = flag(emit_arg(u.mode.checks(), meta));
    lemma_inside(e, args);
    assert(e[0] == (emit_arg(u.mode.checks(), meta), true));
    assert(has(e, emit_arg(u.mode.checks(), meta), true));
    lemma_emit();
    lemma_types_differ();
    if types == seq!["lib"@] {
        assert(types[0] == "lib"@);
        assert(types.contains("lib"@));
    }
    if !test && !(t.kind == TargetKind::Lib || t.kind == TargetKind::Example) {
        assert(types =~= seq!["bin"@]);
        assert(!meta) by {
            if types.contains("lib"@) || types.contains("rlib"@) {
                assert(types[0] == "bin"@);
            }
        }
    }
    lemma_each(
        "--cfg"@,
        Seq::new(views(u.features@).len(), |k: int| "feature=\""@ + views(u.features@)[k] + "\""@),
        args,
    );
    assert forall|i: int| 0 <= i < u.features@.len() implies gives(
        args,
        "--cfg"@,
        "feature=\""@ + (#[trigger] u.features@[i])@ + "\""@,
        true,
    ) by {
        let l = Seq::new(views(u.features@).len(), |k: int| "feature=\""@ + views(u.features@)[k] + "\""@);
        assert(l[i] == "feature=\""@ + views(u.features@)[i] + "\""@);
        assert(views(u.features@)[i] == u.features@[i]@);
    }
    lemma_compile_env_args(
        InvocationView { path_prepend: views(k.cross.path_prepend@), ..compiled(compile_start(ctx, src.1), ctx, u, lints, lto, externs) },
        ctx,
        u,
        units,
        planned,
    );
    lemma_compiled_frame(compile_start(ctx, src.1), ctx, u, lints, lto, externs);
}

proof fn lemma_compiled_frame(iv: InvocationView, ctx: Ctx, u: Unit, lints: Lints, lto: LtoMode, externs: Seq<NamedView>)
    ensures
        compiled(iv, ctx, u, lints, lto, externs).cwd == iv.cwd,
        compiled(iv, ctx, u, lints, lto, externs).program == iv.program,
        compiled(iv, ctx, u, lints, lto, externs).env == iv.env,
{
    reveal(InvocationView::adding);
}

proof fn lemma_emit()
    ensures
        emit_arg(true, true) == "--emit=dep-info,metadata"@,
        emit_arg(true, false) == "--emit=dep-info,metadata"@,
        emit_arg(false, true) == "--emit=dep-info,metadata,link"@,
        emit_arg(false, false) == "--emit=dep-info,link"@,
{
    reveal_strlit("--emit=");
    reveal_strlit("dep-info,metadata");
    reveal_strlit("dep-info,metadata,link");
    reveal_strlit("dep-info,link");
    reveal_strlit("--emit=dep-info,metadata");
    reveal_strlit("--emit=dep-info,metadata,link");
    reveal_strlit("--emit=dep-info,link");
    assert(emit_arg(true, true) =~= "--emit=dep-info,metadata"@);
    assert(emit_arg(true, false) =~= "--emit=dep-info,metadata"@);
    assert(emit_arg(false, true) =~= "--emit=dep-info,metadata,link"@);
    assert(emit_arg(false, false) =~= "--emit=dep-info,link"@);
}

proof fn lemma_types_differ()
    ensures
        "bin"@ != "lib"@,
        "bin"@ != "rlib"@,
{
    reveal_strlit("bin");
    reveal_strlit("lib");
    reveal_strlit("rlib");
    assert("bin"@[0] != "lib"@[0]);
    assert("bin"@.len() != "rlib"@.len());
}

/// The level of optimization decides what the compiler checks by itself: assertions where nothing is optimized, and overflow
/// wherever there are assertions. With what it is told, it checks what the profile says.
pub proof fn law_checks_are_those_of_the_profile(opt0: bool, assertions: bool, overflow: bool)
    ensures
        ({
            let args = check_args(opt0, assertions, overflow);
            let asserted = if gives(args, "-C"@, "debug-assertions=on"@, true) {
                true
            } else if gives(args, "-C"@, "debug-assertions=off"@, true) {
                false
            } else {
                opt0
            };
            let checked = if gives(args, "-C"@, "overflow-checks=on"@, true) {
                true
            } else if gives(args, "-C"@, "overflow-checks=off"@, true) {
                false
            } else {
                asserted
            };
            asserted == assertions && checked == overflow
        }),
{
    let args = check_args(opt0, assertions, overflow);
    reveal_strlit("-C");
    reveal_strlit("debug-assertions=on");
    reveal_strlit("debug-assertions=off");
    reveal_strlit("overflow-checks=on");
    reveal_strlit("overflow-checks=off");
    let c = "-C"@;
    let a1 = "debug-assertions=on"@;
    let a2 = "debug-assertions=off"@;
    let o1 = "overflow-checks=on"@;
    let o2 = "overflow-checks=off"@;
    assert(c.len() == 2 && a1.len() == 19 && a2.len() == 20 && o1.len() == 18 && o2.len() == 19);
    assert(a1[0] != o2[0]);
    assert forall|x: Seq<char>| #[trigger] gives(args, c, x, true) implies (x == a1 && assertions && !opt0) || (x == a2 && !assertions
        && opt0) || (x == o1 && overflow && !assertions) || (x == o2 && !overflow && assertions) by {
        let i = choose|i: int| 0 <= i < args.len() - 1 && #[trigger] args[i] == (c, true) && args[i + 1] == (x, true);
        assert(i == 0 || i == 2);
    }
    if assertions && !opt0 {
        assert(args[0] == (c, true) && args[1] == (a1, true));
        assert(gives(args, c, a1, true));
    }
    if !assertions && opt0 {
        assert(args[0] == (c, true) && args[1] == (a2, true));
        assert(gives(args, c, a2, true));
    }
    if !overflow && assertions {
        let i: int = if opt0 {
            0
        } else {
            2
        };
        assert(args[i] == (c, true) && args[i + 1] == (o2, true));
        assert(gives(args, c, o2, true));
    }
    if overflow && !assertions {
        let i: int = if opt0 {
            2
        } else {
            0
        };
        assert(args[i] == (c, true) && args[i + 1] == (o1, true));
        assert(gives(args, c, o1, true));
    }
}

// ---------------------------------------------------------------------------
// What a unit is linked with, and what was configured.

/// Sorting loses nothing and adds nothing.
pub proof fn lemma_sorted<T: Ranked>(s: Seq<T::V>)
    ensures
        in_order::<T>(s).len() == s.len(),
        forall|x: T::V| #[trigger] s.contains(x) ==> in_order::<T>(s).contains(x),
        forall|x: T::V| #[trigger] in_order::<T>(s).contains(x) ==> s.contains(x),
{
    let leq = |a: T::V, b: T::V| T::leq(a, b);
    T::lemma_total();
    s.lemma_sort_by_ensures(leq);
    let r = s.sort_by(leq);
    s.to_multiset_ensures();
    r.to_multiset_ensures();
    assert(r.to_multiset() == s.to_multiset());
    assert(r.to_multiset().len() == s.to_multiset().len());
    assert forall|x: T::V| #[trigger] s.contains(x) implies r.contains(x) by {
        assert(s.to_multiset().count(x) > 0);
        assert(r.to_multiset().count(x) > 0);
    }
    assert forall|x: T::V| #[trigger] r.contains(x) implies s.contains(x) by {
        assert(r.to_multiset().count(x) > 0);
        assert(s.to_multiset().count(x) > 0);
    }
}

/// A unit is compiled for its platform, against each of its libraries. The code of others is compiled without warnings.
/// Whatever flags were configured for the platform, the profile or the packages at hand are passed on.
pub proof fn law_the_compiler_is_told_what_to_use(
    ctx: Ctx,
    u: Unit,
    units: Seq<Unit>,
    planned: Seq<Option<Planned>>,
    lints: Lints,
    lto: LtoMode,
    externs: Seq<NamedView>,
)
    ensures
        ({
            let t = target_in(ctx, u);
            let k = ctx.at(u.kind);
            let args = compile_plan(ctx, u, units, planned, lints, lto, externs).inv.args;
            let script = t.kind == TargetKind::BuildScript;
            let macros = views(t.crate_types@).contains("proc-macro"@);
            &&& forall|i: int| 0 <= i < externs.len() ==> gives(args, "--extern"@, (#[trigger] externs[i]).0 + "="@ + externs[i].1, true)
            &&& macros ==> gives(args, "--extern"@, "proc_macro"@, true)
            &&& k.target_flag.is_some() ==> gives(args, "--target"@, k.target_flag.unwrap()@, true)
            &&& gives(args, "-L"@, "dependency="@ + k.deps_dir@, false)
            &&& u.kind != CompileKind::Host ==> gives(args, "-L"@, "dependency="@ + ctx.host.deps_dir@, false)
            &&& !is_local(pkg_of(ctx, u)) ==> gives(args, "--cap-lints"@, "allow"@, true)
            &&& k.linker.is_some() ==> gives(args, "-C"@, "linker="@ + k.linker.unwrap()@, true)
            &&& forall|i: int| 0 <= i < k.user_rustflags@.len() ==> has(args, (#[trigger] k.user_rustflags@[i])@, true)
            &&& forall|i: int| 0 <= i < k.cross.rustflags@.len() ==> has(args, (#[trigger] k.cross.rustflags@[i])@, true)
            &&& forall|i: int| 0 <= i < u.profile.rustflags@.len() ==> has(args, (#[trigger] u.profile.rustflags@[i])@, true)
            &&& forall|i: int| 0 <= i < ctx.std_rustc@.len() ==> has(args, (#[trigger] ctx.std_rustc@[i])@, true)
            &&& !script && ctx.primary@.contains(u.pkg) ==> forall|i: int|
                0 <= i < ctx.extra_rustc@.len() ==> has(args, (#[trigger] ctx.extra_rustc@[i])@, true)
            &&& !script && !macros ==> forall|i: int|
                0 <= i < ctx.std_externs@.len() ==> has(args, (#[trigger] ctx.std_externs@[i])@, true)
            &&& forall|i: int| 0 <= i < lints.flags@.len() ==> has(args, (#[trigger] lints.flags@[i])@, true)
            &&& forall|i: int| 0 <= i < lints.check_cfg@.len() ==> gives(args, "--check-cfg"@, (#[trigger] lints.check_cfg@[i])@, true)
        }),
{
    let t = target_in(ctx, u);
    let p = pkg_of(ctx, u);
    let k = ctx.at(u.kind);
    let args = compile_plan(ctx, u, units, planned, lints, lto, externs).inv.args;
    let script = t.kind == TargetKind::BuildScript;
    lemma_parts(ctx, u, units, planned, lints, lto, externs);
    lemma_externs(externs, args);
    if t.proc_macro() {
        lemma_two("--extern"@, "proc_macro"@, true, args);
    }
    lemma_platform(k, *ctx.host, u.kind, args);
    if !p.source.local() {
        let f = foreign_args(ctx, p);
        lemma_inside(f, args);
        let i: int = 0;
        assert(f[i] == ("--cap-lints"@, true) && f[i + 1] == ("allow"@, true));
        assert(gives(f, "--cap-lints"@, "allow"@, true));
    }
    lemma_user(ctx, k, u.profile, args);
    if !script && ctx.primary@.contains(u.pkg) {
        lemma_texts(ctx.extra_rustc@, args);
    }
    if !script && !t.proc_macro() {
        lemma_texts(ctx.std_externs@, args);
    }
    lemma_lints(lints, views(p.declared_features@), args);
}

pub proof fn lemma_texts(l: Seq<String>, args: ArgsView)
    requires
        inside(counted(views(l)), args),
    ensures
        forall|i: int| 0 <= i < l.len() ==> has(args, (#[trigger] l[i])@, true),
{
    lemma_counted(views(l), args);
    assert forall|i: int| 0 <= i < l.len() implies has(args, (#[trigger] l[i])@, true) by {
        assert(views(l)[i] == l[i]@);
    }
}

proof fn lemma_externs(externs: Seq<NamedView>, args: ArgsView)
    requires
        inside(extern_args(in_order::<Named>(externs)), args),
    ensures
        forall|i: int| 0 <= i < externs.len() ==> gives(args, "--extern"@, (#[trigger] externs[i]).0 + "="@ + externs[i].1, true),
{
    let sorted = in_order::<Named>(externs);
    lemma_sorted::<Named>(externs);
    let l = Seq::new(sorted.len(), |k: int| sorted[k].0 + "="@ + sorted[k].1);
    lemma_each("--extern"@, l, args);
    assert forall|i: int| 0 <= i < externs.len() implies gives(
        args,
        "--extern"@,
        (#[trigger] externs[i]).0 + "="@ + externs[i].1,
        true,
    ) by {
        assert(externs.contains(externs[i]));
        let j = choose|j: int| 0 <= j < sorted.len() && sorted[j] == externs[i];
        assert(l[j] == externs[i].0 + "="@ + externs[i].1);
    }
}

pub proof fn lemma_platform(k: KindInfo, host: KindInfo, kind: CompileKind, args: ArgsView)
    requires
        inside(platform_args(k, host, kind), args),
    ensures
        k.target_flag.is_some() ==> gives(args, "--target"@, k.target_flag.unwrap()@, true),
        gives(args, "-L"@, "dependency="@ + k.deps_dir@, false),
        kind != CompileKind::Host ==> gives(args, "-L"@, "dependency="@ + host.deps_dir@, false),
{
    let part = platform_args(k, host, kind);
    lemma_inside(part, args);
    let n: int = match opt_view(k.target_flag) {
        Some(tf) => if ends(tf, ".json"@) {
            3
        } else {
            2
        },
        None => 0,
    };
    if let Some(tf) = k.target_flag {
        let i: int = 0;
        assert(part[i] == ("--target"@, true) && part[i + 1] == (tf@, true));
        assert(gives(part, "--target"@, tf@, true));
    }
    assert(part[n] == ("-L"@, false) && part[n + 1] == ("dependency="@ + k.deps_dir@, false));
    assert(gives(part, "-L"@, "dependency="@ + k.deps_dir@, false));
    if kind != CompileKind::Host {
        assert(part[n + 2] == ("-L"@, false) && part[n + 2 + 1] == ("dependency="@ + host.deps_dir@, false));
        assert(gives(part, "-L"@, "dependency="@ + host.deps_dir@, false));
    }
}

proof fn lemma_user(ctx: Ctx, k: KindInfo, prof: Profile, args: ArgsView)
    requires
        inside(user_args(ctx, k, prof), args),
    ensures
        k.linker.is_some() ==> gives(args, "-C"@, "linker="@ + k.linker.unwrap()@, true),
        forall|i: int| 0 <= i < k.user_rustflags@.len() ==> has(args, (#[trigger] k.user_rustflags@[i])@, true),
        forall|i: int| 0 <= i < k.cross.rustflags@.len() ==> has(args, (#[trigger] k.cross.rustflags@[i])@, true),
        forall|i: int| 0 <= i < prof.rustflags@.len() ==> has(args, (#[trigger] prof.rustflags@[i])@, true),
        forall|i: int| 0 <= i < ctx.std_rustc@.len() ==> has(args, (#[trigger] ctx.std_rustc@[i])@, true),
{
    let part = user_args(ctx, k, prof);
    let u0 = match opt_view(k.linker) {
        Some(l) => pair("-C"@, "linker="@ + l),
        None => Seq::empty(),
    };
    let u1 = counted(views(k.user_rustflags@));
    let u2 = counted(views(ctx.std_rustc@));
    let u3 = counted(views(k.cross.rustflags@));
    let u4 = counted(views(prof.rustflags@));
    assert(part =~= Seq::empty() + u0 + (u1 + u2 + u3 + u4));
    lemma_inside_sum(Seq::empty(), u0, u1 + u2 + u3 + u4, args);
    assert(part =~= u0 + u1 + (u2 + u3 + u4));
    lemma_inside_sum(u0, u1, u2 + u3 + u4, args);
    assert(part =~= (u0 + u1) + u2 + (u3 + u4));
    lemma_inside_sum(u0 + u1, u2, u3 + u4, args);
    assert(part =~= (u0 + u1 + u2) + u3 + u4);
    lemma_inside_sum(u0 + u1 + u2, u3, u4, args);
    assert(part =~= (u0 + u1 + u2 + u3) + u4 + Seq::empty());
    lemma_inside_sum(u0 + u1 + u2 + u3, u4, Seq::empty(), args);
    if let Some(l) = k.linker {
        lemma_two("-C"@, "linker="@ + l@, true, args);
    }
    lemma_texts(k.user_rustflags@, args);
    lemma_texts(ctx.std_rustc@, args);
    lemma_texts(k.cross.rustflags@, args);
    lemma_texts(prof.rustflags@, args);
}

pub proof fn lemma_lints(lints: Lints, declared: Seq<Seq<char>>, args: ArgsView)
    requires
        inside(lint_args(views(lints.flags@), views(lints.check_cfg@), declared), args),
    ensures
        forall|i: int| 0 <= i < lints.flags@.len() ==> has(args, (#[trigger] lints.flags@[i])@, true),
        forall|i: int| 0 <= i < lints.check_cfg@.len() ==> gives(args, "--check-cfg"@, (#[trigger] lints.check_cfg@[i])@, true),
{
    let part = lint_args(views(lints.flags@), views(lints.check_cfg@), declared);
    let p0 = counted(views(lints.flags@));
    let p1 = pair("--check-cfg"@, "cfg(docsrs,test)"@) + pair("--check-cfg"@, feature_values(declared));
    let p2 = each("--check-cfg"@, views(lints.check_cfg@));
    assert(part =~= Seq::empty() + p0 + (p1 + p2));
    lemma_inside_sum(Seq::empty(), p0, p1 + p2, args);
    assert(part =~= (p0 + p1) + p2 + Seq::empty());
    lemma_inside_sum(p0 + p1, p2, Seq::empty(), args);
    lemma_texts(lints.flags@, args);
    lemma_each("--check-cfg"@, views(lints.check_cfg@), args);
    assert forall|i: int| 0 <= i < lints.check_cfg@.len() implies gives(args, "--check-cfg"@, (#[trigger] lints.check_cfg@[i])@, true) by {
        assert(views(lints.check_cfg@)[i] == lints.check_cfg@[i]@);
    }
}

/// One where it holds, and else none.
#[verifier::opaque]
pub open spec fn one_if(b: bool) -> int {
    if b {
        1
    } else {
        0
    }
}

/// The arguments that say what is compiled, to what, and how messages are shown.
pub open spec fn head_count(ctx: Ctx, u: Unit) -> int {
    let t = target_in(ctx, u);
    7 + one_if(ctx.wrapper.is_some()) + one_if(is_local(pkg_of(ctx, u)) && ctx.shell@.verbose()) + if is_test(u.mode) {
        2 - one_if(t.harness)
    } else if t.kind == TargetKind::Lib || t.kind == TargetKind::Example {
        2 * t.crate_types@.len() as int
    } else {
        2
    }
}

/// The arguments for the profile.
pub open spec fn profile_count(ctx: Ctx, u: Unit, lto: LtoMode) -> int {
    let t = target_in(ctx, u);
    let info = ctx.at(u.kind).info;
    let prof = u.profile;
    let types = views(t.crate_types@);
    let own_types = !is_test(u.mode) && (t.kind == TargetKind::Lib || t.kind == TargetKind::Example);
    2 * one_if(prof.opt_level@ != "0"@) + 2 * one_if(prof.panic@ == "abort"@ && !u.for_host) + 2 * one_if(
        lto != LtoMode::ObjectAndBitcode,
    ) + 2 * one_if(prof.codegen_units.is_some()) + 2 * one_if(prof.debuginfo@ != "0"@) + 2 * one_if(
        prof.debuginfo@ != "0"@ && prof.split_debuginfo.is_some() && (info.apple || info.value("target_os"@) == Some("linux"@)
            || prof.split_debuginfo.unwrap()@ == "packed"@),
    ) + 2 * one_if((prof.opt_level@ == "0"@) != prof.debug_assertions) + 2 * one_if(prof.overflow_checks != prof.debug_assertions) + 2
        * one_if(prof.strip.is_some()) + 2 * one_if(prof.rpath) + 2 * one_if(
        types.contains("proc-macro"@) || (own_types && types.contains("dylib"@)),
    ) + one_if(
        if prof.codegen_backend.is_some() {
            prof.codegen_backend.unwrap()@ != "llvm"@
        } else {
            ctx.rustc.nightly && prof.name@ == "dev"@ && ctx.codegen_backend.is_some() && ctx.codegen_backend.unwrap()@ != "llvm"@
        },
    )
}

/// The arguments for features, lints, files, the platform, libraries, and what was configured.
pub open spec fn rest_count(ctx: Ctx, u: Unit, lints: Lints, externs: Seq<NamedView>) -> int {
    let p = pkg_of(ctx, u);
    let t = target_in(ctx, u);
    let k = ctx.at(u.kind);
    let prof = u.profile;
    let script = t.kind == TargetKind::BuildScript;
    let macros = views(t.crate_types@).contains("proc-macro"@);
    2 * u.features@.len() + lints.flags@.len() + 4 + 2 * lints.check_cfg@.len() + 6 + 2 * one_if(prof.incremental && is_local(p)) + 2
        * one_if(k.target_flag.is_some()) + one_if(k.target_flag.is_some() && ends(k.target_flag.unwrap()@, ".json"@)) + 2 + 2 * one_if(
        u.kind != CompileKind::Host,
    ) + 2 * externs.len() + 2 * one_if(macros) + 2 * one_if(!is_local(p)) + one_if(
        !is_local(p) && ctx.remap_deps && up(p.root@).is_some(),
    ) + 2 * one_if(k.linker.is_some()) + k.user_rustflags@.len() + ctx.std_rustc@.len() + k.cross.rustflags@.len() + prof.rustflags@.len()
        + (if !script && ctx.primary@.contains(u.pkg) {
        ctx.extra_rustc@.len() as int
    } else {
        0
    }) + (if !script && !macros {
        ctx.std_externs@.len() as int
    } else {
        0
    })
}

/// Nothing else is passed to the compiler: the call has as many arguments as these come to.
pub proof fn law_the_compiler_is_told_nothing_else(
    ctx: Ctx,
    u: Unit,
    units: Seq<Unit>,
    planned: Seq<Option<Planned>>,
    lints: Lints,
    lto: LtoMode,
    externs: Seq<NamedView>,
)
    ensures
        compile_plan(ctx, u, units, planned, lints, lto, externs).inv.args.len() == head_count(ctx, u) + profile_count(ctx, u, lto)
            + rest_count(ctx, u, lints, externs),
{
    lemma_parts(ctx, u, units, planned, lints, lto, externs);
    lemma_head_count(ctx, u);
    lemma_profile_count(ctx, u, lto);
    lemma_rest_count(ctx, u, lints, externs);
}

proof fn lemma_head_count(ctx: Ctx, u: Unit)
    ensures
        head_len(ctx, u) == head_count(ctx, u),
{
    reveal(head_len);
    let t = target_in(ctx, u);
    let p = pkg_of(ctx, u);
    let name = swapped(t.name@, '-', '_');
    lemma_head_len(ctx, name, t.edition@, source_at(ctx.ws.root@, p, t).0, p.source.local());
    lemma_type_len(u.mode.tests(), t.harness, asked_types(t, u.mode.tests()));
    assert(is_local(p) == p.source.local());
    assert(is_test(u.mode) == u.mode.tests());
}

proof fn lemma_profile_count(ctx: Ctx, u: Unit, lto: LtoMode)
    ensures
        profile_len(ctx, u, lto) == profile_count(ctx, u, lto),
{
    reveal(profile_len);
    let t = target_in(ctx, u);
    let types = asked_types(t, u.mode.tests());
    let prof = u.profile;
    lemma_no_dylib();
    lemma_codegen_len(prof, u.for_host, lto);
    lemma_debug_len(prof, ctx.at(u.kind).info);
    lemma_checks_len(prof.opt_level@ == "0"@, prof.debug_assertions, prof.overflow_checks);
    lemma_link_len(ctx, prof, t.proc_macro() || types.contains("dylib"@));
    assert(is_test(u.mode) == u.mode.tests());
}

proof fn lemma_rest_count(ctx: Ctx, u: Unit, lints: Lints, externs: Seq<NamedView>)
    ensures
        rest_len(ctx, u, lints, externs) == rest_count(ctx, u, lints, externs),
{
    reveal(rest_len);
    let t = target_in(ctx, u);
    let k = ctx.at(u.kind);
    let prof = u.profile;
    let p = pkg_of(ctx, u);
    lemma_sorted::<Named>(externs);
    let sorted = in_order::<Named>(externs);
    let l = Seq::new(sorted.len(), |k: int| sorted[k].0 + "="@ + sorted[k].1);
    lemma_pairs_len("--extern"@, l, l.len() as int);
    let f = Seq::new(views(u.features@).len(), |k: int| "feature=\""@ + views(u.features@)[k] + "\""@);
    lemma_pairs_len("--cfg"@, f, f.len() as int);
    lemma_lint_len(lints, views(p.declared_features@));
    lemma_platform_len(k, *ctx.host, u.kind);
    lemma_user_len(ctx, k, prof);
    lemma_foreign_len(ctx, p, !p.source.local());
    lemma_output_len(k, swapped(t.name@, '-', '_'), compile_dir(ctx, u), prof.incremental && p.source.local());
    lemma_macro_len(t.proc_macro());
    assert(is_local(p) == p.source.local());
}

proof fn lemma_lint_len(lints: Lints, declared: Seq<Seq<char>>)
    ensures
        lint_args(views(lints.flags@), views(lints.check_cfg@), declared).len() == lints.flags@.len() + 4 + 2 * lints.check_cfg@.len(),
{
    let c = views(lints.check_cfg@);
    lemma_pairs_len("--check-cfg"@, c, c.len() as int);
}

proof fn lemma_codegen_len(prof: Profile, for_host: bool, lto: LtoMode)
    ensures
        codegen_len(prof, for_host, lto) == 2 * one_if(prof.opt_level@ != "0"@) + 2 * one_if(prof.panic@ == "abort"@ && !for_host)
            + 2 * one_if(lto != LtoMode::ObjectAndBitcode) + 2 * one_if(prof.codegen_units.is_some()),
{
    reveal(one_if);
    reveal(codegen_len);
}

proof fn lemma_debug_len(prof: Profile, info: TargetInfo)
    ensures
        debug_len(prof, info) == 2 * one_if(prof.debuginfo@ != "0"@) + 2 * one_if(
            prof.debuginfo@ != "0"@ && prof.split_debuginfo.is_some() && (info.apple || info.value("target_os"@) == Some("linux"@)
                || prof.split_debuginfo.unwrap()@ == "packed"@),
        ),
{
    reveal(one_if);
    reveal(debug_len);
}

proof fn lemma_checks_len(opt0: bool, assertions: bool, overflow: bool)
    ensures
        checks_len(opt0, assertions, overflow) == 2 * one_if(opt0 != assertions) + 2 * one_if(overflow != assertions),
{
    reveal(one_if);
    reveal(checks_len);
}

proof fn lemma_link_len(ctx: Ctx, prof: Profile, dynamic: bool)
    ensures
        link_len(ctx, prof, dynamic) == 2 * one_if(prof.strip.is_some()) + 2 * one_if(prof.rpath) + 2 * one_if(dynamic) + one_if(
            if prof.codegen_backend.is_some() {
                prof.codegen_backend.unwrap()@ != "llvm"@
            } else {
                ctx.rustc.nightly && prof.name@ == "dev"@ && ctx.codegen_backend.is_some() && ctx.codegen_backend.unwrap()@ != "llvm"@
            },
        ),
{
    reveal(one_if);
    reveal(link_len);
}

proof fn lemma_platform_len(k: KindInfo, host: KindInfo, kind: CompileKind)
    ensures
        platform_args(k, host, kind).len() == 2 * one_if(k.target_flag.is_some()) + one_if(
            k.target_flag.is_some() && ends(k.target_flag.unwrap()@, ".json"@),
        ) + 2 + 2 * one_if(kind != CompileKind::Host),
{
    reveal(one_if);
}

proof fn lemma_user_len(ctx: Ctx, k: KindInfo, prof: Profile)
    ensures
        user_args(ctx, k, prof).len() == 2 * one_if(k.linker.is_some()) + k.user_rustflags@.len() + ctx.std_rustc@.len()
            + k.cross.rustflags@.len() + prof.rustflags@.len(),
{
    reveal(one_if);
}

proof fn lemma_foreign_len(ctx: Ctx, p: Pkg, foreign: bool)
    ensures
        crate::commands::when(foreign, foreign_args(ctx, p)).len() == 2 * one_if(foreign) + one_if(
            foreign && ctx.remap_deps && up(p.root@).is_some(),
        ),
{
    reveal(one_if);
}

proof fn lemma_head_len(ctx: Ctx, name: Seq<char>, edition: Seq<char>, src: Seq<char>, local: bool)
    ensures
        head_args(ctx, name, edition, src, local).len() == 6 + one_if(ctx.wrapper.is_some()) + one_if(local && ctx.shell@.verbose()),
{
    reveal(one_if);
}

proof fn lemma_type_len(test: bool, harness: bool, types: Seq<Seq<char>>)
    ensures
        type_args(test, harness, types).len() == if test {
            2 - one_if(harness)
        } else {
            2 * types.len() as int
        },
{
    reveal(one_if);
    lemma_pairs_len("--crate-type"@, types, types.len() as int);
}

proof fn lemma_output_len(k: KindInfo, c: Seq<char>, dir: Seq<char>, incremental: bool)
    ensures
        output_args(k, c, dir, incremental).len() == 6 + 2 * one_if(incremental),
{
    reveal(one_if);
}

proof fn lemma_macro_len(macros: bool)
    ensures
        crate::commands::when(macros, pair("--extern"@, "proc_macro"@)).len() == 2 * one_if(macros),
{
    reveal(one_if);
}

proof fn lemma_no_dylib()
    ensures
        !seq!["bin"@].contains("dylib"@),
{
    reveal_strlit("bin");
    reveal_strlit("dylib");
    assert(seq!["bin"@][0].len() != "dylib"@.len());
}

} // verus!
