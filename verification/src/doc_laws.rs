//! What documentation is made of.

use vstd::prelude::*;
use crate::command_laws::gives;
use crate::command_laws::has;
use crate::command_laws::inside;
use crate::command_laws::is_crate_name;
use crate::command_laws::is_local;
use crate::command_laws::lemma_add;
use crate::command_laws::lemma_each;
use crate::command_laws::lemma_inside;
use crate::command_laws::lemma_inside_sum;
use crate::command_laws::lemma_lints;
use crate::command_laws::lemma_pkg_args;
use crate::command_laws::lemma_platform;
use crate::command_laws::lemma_texts;
use crate::command_laws::lemma_two;
use crate::command_laws::pkg_of;
use crate::command_laws::target_in;
use crate::commands::ArgsView;
use crate::commands::Ctx;
use crate::commands::NamedView;
use crate::commands::Planned;
use crate::commands::doc_externs;
use crate::commands::doc_head;
use crate::commands::doc_plan;
use crate::commands::doc_tree;
use crate::commands::documented;
use crate::commands::each;
use crate::commands::feature_args;
use crate::commands::flag;
use crate::commands::lint_args;
use crate::commands::pair;
use crate::commands::platform_args;
use crate::commands::quiet;
use crate::commands::quiet_pair;
use crate::commands::rustdoc_path;
use crate::commands::source_at;
use crate::invocation::InvocationView;
use crate::invocation::SELF_NAME16;
use crate::invocation::counted;
use crate::lints::Lints;
use crate::manifest::Target;
use crate::path::under;
use crate::text::swapped;
use crate::text::views;
use crate::unit::Unit;
use crate::version::version_text;

verus! {

proof fn lemma_doc_head(ctx: Ctx, t: Target, src: Seq<char>, dir: Seq<char>, args: ArgsView)
    requires
        inside(doc_head(ctx, t, src, dir), args),
    ensures
        has(args, "--edition="@ + t.edition@, true),
        gives(args, "--crate-name"@, swapped(t.name@, '-', '_'), true),
        has(args, src, true),
        gives(args, "-o"@, dir, false),
        t.kind == crate::manifest::TargetKind::Lib ==> forall|i: int|
            0 <= i < t.crate_types@.len() ==> gives(args, "--crate-type"@, (#[trigger] t.crate_types@[i])@, true),
        t.kind != crate::manifest::TargetKind::Lib ==> gives(args, "--crate-type"@, "bin"@, true),
{
    let none: ArgsView = Seq::empty();
    let all = doc_head(ctx, t, src, dir);
    let types = if t.kind == crate::manifest::TargetKind::Lib {
        views(t.crate_types@)
    } else {
        seq!["bin"@]
    };
    let a = flag("--edition="@ + t.edition@);
    let b = each("--crate-type"@, types);
    let c = pair("--crate-name"@, swapped(t.name@, '-', '_'));
    let d = flag(src);
    let e = quiet_pair("-o"@, dir);
    let f = quiet("--error-format=json"@) + crate::commands::when(
        ctx.shell@.color,
        quiet("--json=diagnostic-rendered-ansi"@),
    );
    assert(all =~= none + a + (b + c + d + e + f));
    lemma_inside_sum(none, a, b + c + d + e + f, args);
    assert(all =~= a + b + (c + d + e + f));
    lemma_inside_sum(a, b, c + d + e + f, args);
    assert(all =~= (a + b) + c + (d + e + f));
    lemma_inside_sum(a + b, c, d + e + f, args);
    assert(all =~= (a + b + c) + d + (e + f));
    lemma_inside_sum(a + b + c, d, e + f, args);
    assert(all =~= (a + b + c + d) + e + f);
    lemma_inside_sum(a + b + c + d, e, f, args);
    lemma_one("--edition="@ + t.edition@, args);
    lemma_one(src, args);
    lemma_two("--crate-name"@, swapped(t.name@, '-', '_'), true, args);
    lemma_two("-o"@, dir, false, args);
    lemma_each("--crate-type"@, types, args);
    if t.kind == crate::manifest::TargetKind::Lib {
        assert forall|i: int| 0 <= i < t.crate_types@.len() implies gives(args, "--crate-type"@, (#[trigger] t.crate_types@[i])@, true) by {
            assert(types[i] == t.crate_types@[i]@);
        }
    } else {
        assert(types[0] == "bin"@);
    }
}

proof fn lemma_one(a: Seq<char>, args: ArgsView)
    requires
        inside(flag(a), args),
    ensures
        has(args, a, true),
{
    let part = flag(a);
    assert(part[0] == (a, true));
    lemma_inside(part, args);
    assert(has(part, a, true));
}

/// The parts of a call of rustdoc.
proof fn lemma_doc_parts(
    ctx: Ctx,
    u: Unit,
    units: Seq<Unit>,
    planned: Seq<Option<Planned>>,
    lints: Lints,
    externs: Seq<NamedView>,
)
    ensures
        ({
            let p = pkg_of(ctx, u);
            let t = target_in(ctx, u);
            let args = doc_plan(ctx, u, units, planned, lints, externs).inv.args;
            &&& inside(
                doc_head(ctx, t, source_at(ctx.ws.root@, p, t).0, doc_tree(ctx, u)),
                args,
            )
            &&& inside(feature_args(views(u.features@)), args)
            &&& inside(lint_args(views(lints.flags@), views(lints.check_cfg@), views(p.declared_features@)), args)
            &&& inside(platform_args(ctx.at(u.kind), *ctx.host, u.kind), args)
            &&& inside(each("--extern"@, doc_externs(externs)), args)
            &&& t.proc_macro() ==> inside(pair("--extern"@, "proc_macro"@), args)
            &&& inside(pair("--crate-version"@, version_text(p.version@)), args)
            &&& !p.source.local() ==> inside(pair("--cap-lints"@, "allow"@), args)
            &&& t.kind == crate::manifest::TargetKind::Bin ==> inside(
                pair("--document-private-items"@, "-Arustdoc::private-intra-doc-links"@),
                args,
            )
            &&& ctx.primary@.contains(u.pkg) ==> inside(counted(views(ctx.extra_rustdoc@)), args)
            &&& doc_plan(ctx, u, units, planned, lints, externs).inv.program == rustdoc_path(ctx)
        }),
{
    let p = ctx.pkgs()[u.pkg as int];
    let t = target_in(ctx, u);
    let k = ctx.at(u.kind);
    let s0 = InvocationView {
        program: rustdoc_path(ctx),
        args: Seq::empty(),
        env: Map::empty(),
        cwd: source_at(ctx.ws.root@, p, t).1,
        path_prepend: Seq::empty(),
    };
    let m1 = doc_head(ctx, t, source_at(ctx.ws.root@, p, t).0, doc_tree(ctx, u));
    let m2 = feature_args(views(u.features@));
    let m3 = lint_args(views(lints.flags@), views(lints.check_cfg@), views(p.declared_features@));
    let m4 = quiet_pair("-C"@, "metadata="@ + SELF_NAME16@);
    let m5 = platform_args(k, *ctx.host, u.kind);
    let m6 = each("--extern"@, doc_externs(externs));
    let m7 = crate::commands::when(t.proc_macro(), pair("--extern"@, "proc_macro"@));
    let m8 = pair("--crate-version"@, version_text(p.version@));
    let m9 = crate::commands::when(!p.source.local(), pair("--cap-lints"@, "allow"@));
    let m10 = crate::commands::when(
        t.kind == crate::manifest::TargetKind::Bin,
        pair("--document-private-items"@, "-Arustdoc::private-intra-doc-links"@),
    );
    let m11 = crate::commands::when(ctx.primary@.contains(u.pkg), counted(views(ctx.extra_rustdoc@)));
    let s1 = s0.adding(m1);
    lemma_add(s0, m1);
    let s2 = s1.adding(m2);
    lemma_add(s1, m2);
    let s3 = s2.adding(m3);
    lemma_add(s2, m3);
    let s4 = s3.adding(m4);
    lemma_add(s3, m4);
    let s5 = s4.adding(m5);
    lemma_add(s4, m5);
    let s6 = s5.adding(m6);
    lemma_add(s5, m6);
    let s7 = s6.adding(m7);
    lemma_add(s6, m7);
    let s8 = s7.adding(m8);
    lemma_add(s7, m8);
    let s9 = s8.adding(m9);
    lemma_add(s8, m9);
    let s10 = s9.adding(m10);
    lemma_add(s9, m10);
    let s11 = s10.adding(m11);
    lemma_add(s10, m11);
    assert(s11 == documented(s0, ctx, u, lints, externs));
    assert(s11.program == s0.program) by {
        reveal(InvocationView::adding);
    }
    lemma_pkg_args(s11, ctx, p);
    reveal(InvocationView::setting);
}

/// Documentation is made of the target that is asked for, with its features, its libraries and the version of its package. It is
/// written below the directory of the platform that is named, or below the target directory where none is. Private items of
/// programs are documented.
pub proof fn law_documentation_is_of_the_target(
    ctx: Ctx,
    u: Unit,
    units: Seq<Unit>,
    planned: Seq<Option<Planned>>,
    lints: Lints,
    externs: Seq<NamedView>,
)
    ensures
        ({
            let p = pkg_of(ctx, u);
            let t = target_in(ctx, u);
            let k = ctx.at(u.kind);
            let plan = doc_plan(ctx, u, units, planned, lints, externs);
            let args = plan.inv.args;
            &&& has(args, "--edition="@ + t.edition@, true)
            &&& exists|c: Seq<char>| #[trigger] is_crate_name(c, t.name@) && gives(args, "--crate-name"@, c, true) && plan.crate_name == c
            &&& gives(args, "-o"@, plan.out_dir, false)
            &&& k.target_flag.is_none() ==> plan.out_dir == under(ctx.layout.target_dir@, "doc"@)
            &&& k.target_flag.is_some() ==> plan.out_dir == under(under(ctx.layout.target_dir@, k.triple@), "doc"@)
            &&& k.target_flag.is_some() ==> gives(args, "--target"@, k.target_flag.unwrap()@, true)
            &&& !is_local(p) ==> has(args, t.src_path@, true) && gives(args, "--cap-lints"@, "allow"@, true)
            &&& t.kind == crate::manifest::TargetKind::Lib ==> forall|i: int|
                0 <= i < t.crate_types@.len() ==> gives(args, "--crate-type"@, (#[trigger] t.crate_types@[i])@, true)
            &&& t.kind != crate::manifest::TargetKind::Lib ==> gives(args, "--crate-type"@, "bin"@, true)
            &&& forall|i: int| 0 <= i < u.features@.len() ==> gives(args, "--cfg"@, "feature=\""@ + (#[trigger] u.features@[i])@ + "\""@, true)
            &&& forall|i: int| 0 <= i < externs.len() ==> gives(args, "--extern"@, (#[trigger] externs[i]).0 + "="@ + externs[i].1, true)
            &&& views(t.crate_types@).contains("proc-macro"@) ==> gives(args, "--extern"@, "proc_macro"@, true)
            &&& forall|i: int| 0 <= i < lints.flags@.len() ==> has(args, (#[trigger] lints.flags@[i])@, true)
            &&& gives(args, "--crate-version"@, version_text(p.version@), true)
            &&& t.kind == crate::manifest::TargetKind::Bin ==> has(args, "--document-private-items"@, true)
            &&& ctx.primary@.contains(u.pkg) ==> forall|i: int|
                0 <= i < ctx.extra_rustdoc@.len() ==> has(args, (#[trigger] ctx.extra_rustdoc@[i])@, true)
        }),
{
    let p = pkg_of(ctx, u);
    let t = target_in(ctx, u);
    let k = ctx.at(u.kind);
    let plan = doc_plan(ctx, u, units, planned, lints, externs);
    let args = plan.inv.args;
    lemma_doc_parts(ctx, u, units, planned, lints, externs);
    lemma_doc_head(ctx, t, source_at(ctx.ws.root@, p, t).0, doc_tree(ctx, u), args);
    let c = swapped(t.name@, '-', '_');
    assert(is_crate_name(c, t.name@));
    lemma_platform(k, *ctx.host, u.kind, args);
    lemma_lints(lints, views(p.declared_features@), args);
    let fs = Seq::new(views(u.features@).len(), |j: int| "feature=\""@ + views(u.features@)[j] + "\""@);
    lemma_each("--cfg"@, fs, args);
    assert forall|i: int| 0 <= i < u.features@.len() implies gives(args, "--cfg"@, "feature=\""@ + (#[trigger] u.features@[i])@ + "\""@, true) by {
        assert(fs[i] == "feature=\""@ + u.features@[i]@ + "\""@);
    }
    let named = Seq::new(externs.len(), |j: int| externs[j].0 + "="@ + externs[j].1);
    let es = doc_externs(externs);
    crate::command_laws::lemma_sorted::<String>(named);
    lemma_each("--extern"@, es, args);
    assert forall|i: int| 0 <= i < externs.len() implies gives(args, "--extern"@, (#[trigger] externs[i]).0 + "="@ + externs[i].1, true) by {
        assert(named[i] == externs[i].0 + "="@ + externs[i].1);
        assert(named.contains(named[i]));
        let j = choose|j: int| 0 <= j < es.len() && es[j] == named[i];
        assert(gives(args, "--extern"@, es[j], true));
    }
    if t.proc_macro() {
        lemma_two("--extern"@, "proc_macro"@, true, args);
    }
    lemma_two("--crate-version"@, version_text(p.version@), true, args);
    if !p.source.local() {
        lemma_two("--cap-lints"@, "allow"@, true, args);
    }
    if t.kind == crate::manifest::TargetKind::Bin {
        let part = pair("--document-private-items"@, "-Arustdoc::private-intra-doc-links"@);
        assert(part[0] == ("--document-private-items"@, true));
        assert(has(part, "--document-private-items"@, true));
        lemma_inside(part, args);
    }
    if ctx.primary@.contains(u.pkg) {
        lemma_texts(ctx.extra_rustdoc@, args);
    }
}

} // verus!
