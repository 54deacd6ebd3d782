//! When a stored result is used, and what build scripts ask of the compiler.

use vstd::prelude::*;
use crate::build_script::BuildOutput;
use crate::build_script::LinkTargetView;
use crate::build_script::OutputView;
use crate::command_laws::gives;
use crate::command_laws::has;
use crate::command_laws::inside;
use crate::command_laws::lemma_add;
use crate::command_laws::lemma_env_args;
use crate::command_laws::lemma_inside;
use crate::commands::Planned;
use crate::commands::with_all;
use crate::exec::arg_applies;
use crate::exec::compile_call;
use crate::exec::complete;
use crate::exec::link_args_upto;
use crate::exec::quiet_each;
use crate::exec::quiet_upto;
use crate::exec::searches_upto;
use crate::exec::served;
use crate::exec::still_hold;
use crate::exec::usable_from;
use crate::exec::with_script;
use crate::invocation::InvocationView;
use crate::keys::current;
use crate::manifest::Target;
use crate::manifest::TargetKind;
use crate::num::dec;
use crate::store::Entry;
use crate::store::ExtraView;
use crate::store::StoreView;
use crate::text::views;
use crate::unit::Mode;
use crate::unit::Unit;
use crate::unit_laws::lemma_first_of;
use crate::workspace::Pkg;

verus! {

/// Each output of the entry is in the store, as it is or packed.
pub open spec fn has_outputs(store: StoreView, files: Set<Seq<char>>, e: Entry) -> bool {
    forall|k: int|
        0 <= k < e.outputs@.len() ==> files.contains(store.blob((#[trigger] e.outputs@[k]).blob@)) || files.contains(
            store.zst(e.outputs@[k].blob@),
        )
}

proof fn lemma_usable(store: StoreView, files: Set<Seq<char>>, entries: Seq<Entry>, hold: Seq<bool>, k: int)
    requires
        0 <= k <= entries.len(),
    ensures
        match usable_from(store, files, entries, hold, k) {
            Some(i) => k <= i < entries.len() && has_outputs(store, files, entries[i]) && hold[i] && forall|j: int|
                k <= j < i ==> !(hold[j] && has_outputs(store, files, #[trigger] entries[j])),
            None => forall|j: int| k <= j < entries.len() ==> !(hold[j] && has_outputs(store, files, #[trigger] entries[j])),
        },
    decreases entries.len() - k,
{
    if k < entries.len() {
        lemma_usable(store, files, entries, hold, k + 1);
        assert(complete(store, files, entries[k]) == has_outputs(store, files, entries[k]));
    }
}

/// A stored result is used only where the store may be used for the unit, its inputs are what they were, and nothing of it is
/// missing. Where there is such a result, one is used: the first.
pub proof fn law_only_results_that_hold_are_used(
    p: Planned,
    enabled: bool,
    store: StoreView,
    files: Set<Seq<char>>,
    entries: Seq<Entry>,
    hold: Seq<bool>,
)
    ensures
        match served(p, enabled, store, files, entries, hold) {
            Some(i) => enabled && p.cacheable && 0 <= i < entries.len() && hold[i] && has_outputs(store, files, entries[i]) && forall|j: int|
                0 <= j < i ==> !(hold[j] && has_outputs(store, files, #[trigger] entries[j])),
            None => !enabled || !p.cacheable || forall|j: int|
                0 <= j < entries.len() ==> !(hold[j] && has_outputs(store, files, #[trigger] entries[j])),
        },
{
    lemma_usable(store, files, entries, hold, 0);
}

/// The value of a variable for a call: what the call sets, or what is outside.
pub open spec fn value_now(inv: InvocationView, name: Seq<char>, outside: Option<Seq<char>>) -> Option<Seq<char>> {
    if inv.env.dom().contains(name) {
        Some(inv.env[name].0)
    } else {
        outside
    }
}

/// The inputs of a result hold exactly where every variable still has its value, and every file can be read and still has
/// its hash, or is still missing.
pub proof fn law_inputs_hold_where_nothing_changed(
    inv: InvocationView,
    inputs: ExtraView,
    env: Seq<Option<Seq<char>>>,
    hashes: Seq<Option<Option<Seq<char>>>>,
)
    ensures
        still_hold(inv, inputs, env, hashes) ==> forall|k: int|
            0 <= k < inputs.env.len() ==> value_now(inv, (#[trigger] inputs.env[k]).0, env[k]) == inputs.env[k].1,
        still_hold(inv, inputs, env, hashes) ==> forall|k: int|
            0 <= k < inputs.files.len() ==> hashes[k] == Some((#[trigger] inputs.files[k]).1),
        !still_hold(inv, inputs, env, hashes) ==> (exists|k: int|
            0 <= k < inputs.env.len() && value_now(inv, (#[trigger] inputs.env[k]).0, env[k]) != inputs.env[k].1) || exists|k: int|
            0 <= k < inputs.files.len() && hashes[k] != Some((#[trigger] inputs.files[k]).1),
{
    assert forall|k: int| 0 <= k < inputs.env.len() implies current(inv, (#[trigger] inputs.env[k]).0, env[k]) == value_now(
        inv,
        inputs.env[k].0,
        env[k],
    ) by {}
}

// ---------------------------------------------------------------------------
// What build scripts ask for.

proof fn lemma_quiet_len(flag: Seq<char>, l: Seq<Seq<char>>, k: int)
    requires
        0 <= k <= l.len(),
    ensures
        quiet_upto(flag, l, k).len() == 2 * k,
    decreases k,
{
    if k > 0 {
        lemma_quiet_len(flag, l, k - 1);
    }
}

proof fn lemma_quiet(flag: Seq<char>, l: Seq<Seq<char>>, k: int, i: int)
    requires
        0 <= i < k <= l.len(),
    ensures
        gives(quiet_upto(flag, l, k), flag, l[i], false),
    decreases k,
{
    let rest = quiet_upto(flag, l, k - 1);
    let all = quiet_upto(flag, l, k);
    lemma_quiet_len(flag, l, k - 1);
    if i < k - 1 {
        lemma_quiet(flag, l, k - 1, i);
        let j = choose|j: int| 0 <= j < rest.len() - 1 && #[trigger] rest[j] == (flag, false) && rest[j + 1] == (l[i], false);
        assert(all[j] == rest[j]);
        assert(all[j + 1] == rest[j + 1]);
    } else {
        let n = rest.len() as int;
        assert(all[n] == (flag, false));
        assert(all[n + 1] == (l[i], false));
    }
}

proof fn lemma_each_quiet(flag: Seq<char>, l: Seq<Seq<char>>, args: Seq<(Seq<char>, bool)>)
    requires
        inside(quiet_each(flag, l), args),
    ensures
        forall|i: int| 0 <= i < l.len() ==> gives(args, flag, #[trigger] l[i], false),
{
    lemma_inside(quiet_each(flag, l), args);
    assert forall|i: int| 0 <= i < l.len() implies gives(args, flag, #[trigger] l[i], false) by {
        lemma_quiet(flag, l, l.len() as int, i);
    }
}

/// A link argument is meant for a target: all that are linked, those of a kind, or the binary of a name.
pub open spec fn is_meant_for(which: LinkTargetView, t: Target, test: bool) -> bool {
    let cdylib = views(t.crate_types@).contains("cdylib"@);
    match which {
        LinkTargetView::All => t.kind == TargetKind::Bin || t.kind == TargetKind::Test || t.kind == TargetKind::Bench || t.kind
            == TargetKind::BuildScript || (t.kind == TargetKind::Example && views(t.crate_types@).contains("bin"@)) || cdylib || test,
        LinkTargetView::Bins => t.kind == TargetKind::Bin,
        LinkTargetView::Bin(b) => t.kind == TargetKind::Bin && t.name@ == b,
        LinkTargetView::Cdylib => cdylib && !test,
        LinkTargetView::Tests => t.kind == TargetKind::Test,
        LinkTargetView::Examples => t.kind == TargetKind::Example,
        LinkTargetView::Benches => t.kind == TargetKind::Bench,
    }
}

proof fn lemma_link_args(l: Seq<(LinkTargetView, Seq<char>)>, t: Target, test: bool, k: int)
    requires
        0 <= k <= l.len(),
    ensures
        forall|i: int| 0 <= i < k && is_meant_for((#[trigger] l[i]).0, t, test) ==> link_args_upto(l, t, test, k).contains("link-arg="@ + l[i].1),
        forall|a: Seq<char>| #[trigger] link_args_upto(l, t, test, k).contains(a) ==> exists|i: int|
            0 <= i < k && is_meant_for((#[trigger] l[i]).0, t, test) && a == "link-arg="@ + l[i].1,
    decreases k,
{
    if k > 0 {
        lemma_link_args(l, t, test, k - 1);
        let rest = link_args_upto(l, t, test, k - 1);
        let all = link_args_upto(l, t, test, k);
        assert(arg_applies(l[k - 1].0, t, test) == is_meant_for(l[k - 1].0, t, test));
        assert forall|i: int| 0 <= i < k && is_meant_for((#[trigger] l[i]).0, t, test) implies all.contains("link-arg="@ + l[i].1) by {
            if i < k - 1 {
                let j = choose|j: int| 0 <= j < rest.len() && rest[j] == "link-arg="@ + l[i].1;
                assert(all[j] == rest[j]);
            } else {
                assert(all[rest.len() as int] == "link-arg="@ + l[i].1);
            }
        }
        assert forall|a: Seq<char>| #[trigger] all.contains(a) implies exists|i: int|
            0 <= i < k && is_meant_for((#[trigger] l[i]).0, t, test) && a == "link-arg="@ + l[i].1 by {
            let j = choose|j: int| 0 <= j < all.len() && all[j] == a;
            if j < rest.len() {
                assert(rest[j] == a);
                assert(rest.contains(a));
            } else {
                assert(is_meant_for(l[k - 1].0, t, test));
            }
        }
    }
}

proof fn lemma_searches(outs: Seq<Option<BuildOutput>>, n: int, k: int, i: int)
    requires
        0 <= k < n <= outs.len(),
        outs[k].is_some(),
        0 <= i < outs[k].unwrap()@.link_search.len(),
    ensures
        searches_upto(outs, n).contains(outs[k].unwrap()@.link_search[i]),
    decreases n,
{
    let x = outs[k].unwrap()@.link_search[i];
    let rest = searches_upto(outs, n - 1);
    let all = searches_upto(outs, n);
    if k < n - 1 {
        lemma_searches(outs, n - 1, k, i);
        let j = choose|j: int| 0 <= j < rest.len() && rest[j] == x;
        assert(all[j] == x);
    } else {
        assert(all[rest.len() + i] == x);
    }
}

/// What the build script of a package asks for reaches the compiler: its cfgs and variables in every case, its libraries where
/// the library of the package is compiled or there is none, and its link arguments for the targets that they are meant for.
/// Documentation links nothing.
pub proof fn law_build_scripts_are_heard(
    iv: InvocationView,
    u: Unit,
    pkg: Pkg,
    out: OutputView,
    linked: Seq<Option<BuildOutput>>,
    threads: Option<usize>,
)
    ensures
        ({
            let t = pkg.targets@[u.target as int];
            let test = u.mode == Mode::Test || u.mode == Mode::Bench || u.mode == Mode::CheckTest;
            let args = compile_call(iv, u, pkg, Some(out), linked, threads).args;
            let has_lib = exists|k: int| 0 <= k < pkg.targets@.len() && (#[trigger] pkg.targets@[k]).kind == TargetKind::Lib;
            &&& forall|i: int| 0 <= i < out.cfgs.len() ==> gives(args, "--cfg"@, #[trigger] out.cfgs[i], false)
            &&& forall|i: int| 0 <= i < out.check_cfgs.len() ==> gives(args, "--check-cfg"@, #[trigger] out.check_cfgs[i], false)
            &&& u.mode != Mode::Doc && (t.kind == TargetKind::Lib || !has_lib) ==> forall|i: int|
                0 <= i < out.link_libs.len() ==> gives(args, "-l"@, #[trigger] out.link_libs[i], false)
            &&& u.mode != Mode::Doc ==> forall|i: int|
                0 <= i < out.link_args.len() && is_meant_for((#[trigger] out.link_args[i]).0, t, test) ==> gives(
                    args,
                    "-C"@,
                    "link-arg="@ + out.link_args[i].1,
                    false,
                )
            &&& u.mode != Mode::Doc ==> forall|k: int, i: int|
                0 <= k < linked.len() && linked[k].is_some() && 0 <= i < linked[k].unwrap()@.link_search.len() ==> gives(
                    args,
                    "-L"@,
                    #[trigger] linked[k].unwrap()@.link_search[i],
                    false,
                )
            &&& threads.is_some() ==> has(args, "-Zthreads="@ + dec(threads.unwrap() as nat), false)
            &&& inside(iv.args, args)
        }),
{
    let t = pkg.targets@[u.target as int];
    let test = u.mode.tests();
    let doc = u.mode == Mode::Doc;
    let has_lib = pkg.lib_at().is_some();
    lemma_first_of(pkg.targets@, TargetKind::Lib, 0);
    let largs = link_args_upto(out.link_args, t, test, out.link_args.len() as int);
    let searches = searches_upto(linked, linked.len() as int);
    let a1 = quiet_each("--cfg"@, out.cfgs);
    let a2 = quiet_each("--check-cfg"@, out.check_cfgs);
    let a3 = quiet_each("-l"@, out.link_libs);
    let a4 = quiet_each("-C"@, largs);
    let a5 = quiet_each("-L"@, searches);
    assert(iv.args.subrange(0, iv.args.len() as int) =~= iv.args);
    let zero: int = 0;
    assert(iv.args.subrange(zero, zero + iv.args.len()) == iv.args);
    assert(inside(iv.args, iv.args));
    let i1 = iv.adding(a1);
    lemma_add(iv, a1);
    let i2 = i1.adding(a2);
    lemma_add(i1, a2);
    let i3 = with_all(i2, out.env, false);
    lemma_env_args(i2, out.env, false, out.env.len() as int);
    let libs = (t.kind == TargetKind::Lib || !has_lib) && !doc;
    let i4 = if libs {
        i3.adding(a3)
    } else {
        i3
    };
    lemma_add(i3, a3);
    let i5 = if doc {
        i4
    } else {
        i4.adding(a4)
    };
    lemma_add(i4, a4);
    assert(i5 == with_script(iv, out, t, test, doc, has_lib));
    let i6 = if doc {
        i5
    } else {
        i5.adding(a5)
    };
    lemma_add(i5, a5);
    let i7 = match threads {
        Some(n) => i6.adding(seq![("-Zthreads="@ + dec(n as nat), false)]),
        None => i6,
    };
    let args = i7.args;
    if let Some(n) = threads {
        let a6 = seq![("-Zthreads="@ + dec(n as nat), false)];
        lemma_add(i6, a6);
        lemma_inside(a6, args);
        assert(a6[0] == ("-Zthreads="@ + dec(n as nat), false));
        assert(has(a6, "-Zthreads="@ + dec(n as nat), false));
    }
    lemma_each_quiet("--cfg"@, out.cfgs, args);
    lemma_each_quiet("--check-cfg"@, out.check_cfgs, args);
    if libs {
        lemma_each_quiet("-l"@, out.link_libs, args);
    }
    if !doc {
        lemma_each_quiet("-C"@, largs, args);
        lemma_each_quiet("-L"@, searches, args);
        lemma_link_args(out.link_args, t, test, out.link_args.len() as int);
        assert forall|i: int| 0 <= i < out.link_args.len() && is_meant_for((#[trigger] out.link_args[i]).0, t, test) implies gives(
            args,
            "-C"@,
            "link-arg="@ + out.link_args[i].1,
            false,
        ) by {
            let a = "link-arg="@ + out.link_args[i].1;
            let j = choose|j: int| 0 <= j < largs.len() && largs[j] == a;
            assert(gives(args, "-C"@, largs[j], false));
        }
        assert forall|k: int, i: int|
            0 <= k < linked.len() && linked[k].is_some() && 0 <= i < linked[k].unwrap()@.link_search.len() implies gives(
            args,
            "-L"@,
            #[trigger] linked[k].unwrap()@.link_search[i],
            false,
        ) by {
            lemma_searches(linked, linked.len() as int, k, i);
            let x = linked[k].unwrap()@.link_search[i];
            let j = choose|j: int| 0 <= j < searches.len() && searches[j] == x;
            assert(gives(args, "-L"@, searches[j], false));
        }
    }
}

} // verus!
