//! What tells units apart: whatever a compiler's output depends on goes into the name or the key of a unit, so that a stored
//! result is never taken for another.

use vstd::prelude::*;
use vstd::utf8::encode_utf8;
use crate::commands::Ctx;
use crate::commands::Planned;
use crate::hash::blake3_key;
use crate::hash::hex_of;
use crate::invocation::InvocationView;
use crate::invocation::args_data;
use crate::invocation::env_data;
use crate::invocation::hashed_data;
use crate::invocation::normal;
use crate::keys::Draft;
use crate::keys::PredictionView;
use crate::keys::Seen;
use crate::keys::base_data;
use crate::keys::dep_keys;
use crate::keys::dep_names;
use crate::keys::finished_plan;
use crate::keys::line_hash;
use crate::keys::link_name;
use crate::keys::mode_name;
use crate::keys::name_id;
use crate::keys::unit_id;
use crate::keys::unit_name;
use crate::strmap::listed;
use crate::unit::CompileKind;
use crate::unit::Mode;
use crate::unit::Unit;
use crate::unit::UnitDep;

verus! {

/// Both are digests for one purpose, of different data.
pub open spec fn told_apart(purpose: Seq<char>, a: Seq<char>, b: Seq<char>) -> bool {
    exists|x: Seq<u8>, y: Seq<u8>|
        x != y && a == hex_of(#[trigger] blake3_key(purpose, x)) && b == hex_of(#[trigger] blake3_key(purpose, y))
}

proof fn lemma_cancel<A>(p: Seq<A>, a: Seq<A>, b: Seq<A>, s: Seq<A>)
    requires
        p + a + s == p + b + s,
    ensures
        a == b,
{
    let l = p + a + s;
    let r = p + b + s;
    assert(l.len() == r.len());
    assert(a.len() == b.len());
    assert forall|i: int| 0 <= i < a.len() implies a[i] == b[i] by {
        assert(l[p.len() + i] == a[i]);
        assert(r[p.len() + i] == b[i]);
    }
    assert(a =~= b);
}

proof fn lemma_encoding(a: Seq<char>, b: Seq<char>)
    requires
        encode_utf8(a) == encode_utf8(b),
    ensures
        a == b,
{
    vstd::utf8::encode_utf8_decode_utf8(a);
    vstd::utf8::encode_utf8_decode_utf8(b);
}

/// The parts of what is digested, in one row.
spec fn row(id: Seq<u8>, mode: Seq<u8>, line: Seq<u8>, target: Seq<u8>, host: Seq<u8>, what: Seq<u8>, deps: Seq<u8>) -> Seq<u8> {
    id + mode + line + target + host + what + deps
}

proof fn lemma_row(a: Seq<Seq<u8>>, b: Seq<Seq<u8>>, k: int)
    requires
        a.len() == 7,
        b.len() == 7,
        0 <= k < 7,
        forall|i: int| 0 <= i < 7 && i != k ==> #[trigger] a[i] == b[i],
        a[k] != b[k],
    ensures
        row(a[0], a[1], a[2], a[3], a[4], a[5], a[6]) != row(b[0], b[1], b[2], b[3], b[4], b[5], b[6]),
{
    let e = Seq::<u8>::empty();
    let x = row(a[0], a[1], a[2], a[3], a[4], a[5], a[6]);
    let y = row(b[0], b[1], b[2], b[3], b[4], b[5], b[6]);
    if x == y {
        let pre = if k == 0 {
            e
        } else if k == 1 {
            a[0]
        } else if k == 2 {
            a[0] + a[1]
        } else if k == 3 {
            a[0] + a[1] + a[2]
        } else if k == 4 {
            a[0] + a[1] + a[2] + a[3]
        } else if k == 5 {
            a[0] + a[1] + a[2] + a[3] + a[4]
        } else {
            a[0] + a[1] + a[2] + a[3] + a[4] + a[5]
        };
        let post = if k == 6 {
            e
        } else if k == 5 {
            a[6]
        } else if k == 4 {
            a[5] + a[6]
        } else if k == 3 {
            a[4] + a[5] + a[6]
        } else if k == 2 {
            a[3] + a[4] + a[5] + a[6]
        } else if k == 1 {
            a[2] + a[3] + a[4] + a[5] + a[6]
        } else {
            a[1] + a[2] + a[3] + a[4] + a[5] + a[6]
        };
        assert(a[0] == b[0] || k == 0);
        assert(a[1] == b[1] || k == 1);
        assert(a[2] == b[2] || k == 2);
        assert(a[3] == b[3] || k == 3);
        assert(a[4] == b[4] || k == 4);
        assert(a[5] == b[5] || k == 5);
        assert(a[6] == b[6] || k == 6);
        assert(x =~= pre + a[k] + post);
        assert(y =~= pre + b[k] + post);
        lemma_cancel(pre, a[k], b[k], post);
    }
}

/// The parts of what the name of a unit digests.
spec fn name_row(ctx: Ctx, u: Unit, planned: Seq<Option<Planned>>, inv: InvocationView) -> Seq<Seq<u8>> {
    seq![
        encode_utf8(ctx.rustc.id@),
        encode_utf8(mode_name(u.mode)),
        line_hash(ctx, inv),
        match u.kind {
            CompileKind::Target(_) => encode_utf8(ctx.at(u.kind).cross.fingerprint@),
            CompileKind::Host => Seq::empty(),
        },
        if u.mode == Mode::RunCustomBuild {
            encode_utf8(ctx.host_fingerprint@)
        } else {
            Seq::empty()
        },
        encode_utf8(name_id(ctx, ctx.pkgs()[u.pkg as int])),
        dep_names(planned, u.deps@, u.deps@.len() as int),
    ]
}

/// The parts of what the key of a unit digests.
spec fn key_row(
    ctx: Ctx,
    u: Unit,
    planned: Seq<Option<Planned>>,
    line: Seq<u8>,
    prediction: Option<PredictionView>,
    seen: Seen,
) -> Seq<Seq<u8>> {
    seq![
        encode_utf8(ctx.rustc.id@),
        encode_utf8(mode_name(u.mode)),
        line,
        match u.kind {
            CompileKind::Target(_) => encode_utf8(ctx.at(u.kind).cross.fingerprint@),
            CompileKind::Host => Seq::empty(),
        },
        if u.mode == Mode::RunCustomBuild {
            encode_utf8(ctx.host_fingerprint@)
        } else {
            Seq::empty()
        },
        encode_utf8(unit_id(ctx.pkgs()[u.pkg as int], u.mode, prediction, seen)),
        dep_keys(planned, u.deps@, u.deps@.len() as int),
    ]
}

proof fn lemma_name_row(ctx: Ctx, u: Unit, planned: Seq<Option<Planned>>, inv: InvocationView)
    ensures
        ({
            let r = name_row(ctx, u, planned, inv);
            unit_name(ctx, u, planned, inv) == hex_of(
                blake3_key("rb 2026 unit name v1"@, row(r[0], r[1], r[2], r[3], r[4], r[5], r[6])),
            )
        }),
{
    let r = name_row(ctx, u, planned, inv);
    assert(base_data(ctx, u, line_hash(ctx, inv)) + encode_utf8(name_id(ctx, ctx.pkgs()[u.pkg as int])) + dep_names(
        planned,
        u.deps@,
        u.deps@.len() as int,
    ) =~= row(r[0], r[1], r[2], r[3], r[4], r[5], r[6]));
}

proof fn lemma_key_row(
    ctx: Ctx,
    roots: Seq<Seq<char>>,
    u: Unit,
    planned: Seq<Option<Planned>>,
    d: Draft,
    prediction: Option<PredictionView>,
    seen: Seen,
)
    ensures
        ({
            let r = key_row(ctx, u, planned, d.line@, prediction, seen);
            finished_plan(ctx, roots, u, planned, d, prediction, seen).key == hex_of(
                blake3_key("rb 2026 unit key v2"@, row(r[0], r[1], r[2], r[3], r[4], r[5], r[6])),
            )
        }),
{
    let r = key_row(ctx, u, planned, d.line@, prediction, seen);
    assert(base_data(ctx, u, d.line@) + encode_utf8(unit_id(ctx.pkgs()[u.pkg as int], u.mode, prediction, seen)) + dep_keys(
        planned,
        u.deps@,
        u.deps@.len() as int,
    ) =~= row(r[0], r[1], r[2], r[3], r[4], r[5], r[6]));
}

proof fn lemma_apart(purpose: Seq<char>, a: Seq<Seq<u8>>, b: Seq<Seq<u8>>, k: int, x: Seq<char>, y: Seq<char>)
    requires
        a.len() == 7,
        b.len() == 7,
        0 <= k < 7,
        forall|i: int| 0 <= i < 7 && i != k ==> #[trigger] a[i] == b[i],
        a[k] != b[k],
        x == hex_of(blake3_key(purpose, row(a[0], a[1], a[2], a[3], a[4], a[5], a[6]))),
        y == hex_of(blake3_key(purpose, row(b[0], b[1], b[2], b[3], b[4], b[5], b[6]))),
    ensures
        told_apart(purpose, x, y),
{
    lemma_row(a, b, k);
}

// ---------------------------------------------------------------------------
// Laws.

/// Another compiler makes another unit: both its name and its key digest which compiler it is.
pub proof fn law_another_compiler_is_another_unit(
    c1: Ctx,
    c2: Ctx,
    roots: Seq<Seq<char>>,
    u: Unit,
    planned: Seq<Option<Planned>>,
    inv: InvocationView,
    d: Draft,
    prediction: Option<PredictionView>,
    seen: Seen,
)
    requires
        c2 == (Ctx { rustc: c2.rustc, ..c1 }),
        c1.rustc.id@ != c2.rustc.id@,
    ensures
        told_apart("rb 2026 unit name v1"@, unit_name(c1, u, planned, inv), unit_name(c2, u, planned, inv)),
        told_apart(
            "rb 2026 unit key v2"@,
            finished_plan(c1, roots, u, planned, d, prediction, seen).key,
            finished_plan(c2, roots, u, planned, d, prediction, seen).key,
        ),
{
    if encode_utf8(c1.rustc.id@) == encode_utf8(c2.rustc.id@) {
        lemma_encoding(c1.rustc.id@, c2.rustc.id@);
    }
    lemma_name_row(c1, u, planned, inv);
    lemma_name_row(c2, u, planned, inv);
    lemma_apart(
        "rb 2026 unit name v1"@,
        name_row(c1, u, planned, inv),
        name_row(c2, u, planned, inv),
        0,
        unit_name(c1, u, planned, inv),
        unit_name(c2, u, planned, inv),
    );
    lemma_key_row(c1, roots, u, planned, d, prediction, seen);
    lemma_key_row(c2, roots, u, planned, d, prediction, seen);
    lemma_apart(
        "rb 2026 unit key v2"@,
        key_row(c1, u, planned, d.line@, prediction, seen),
        key_row(c2, u, planned, d.line@, prediction, seen),
        0,
        finished_plan(c1, roots, u, planned, d, prediction, seen).key,
        finished_plan(c2, roots, u, planned, d, prediction, seen).key,
    );
}

/// A build script may look at the machine that it runs on: both the name and the key of its run digest which one it is.
pub proof fn law_another_host_is_another_script_run(
    c1: Ctx,
    c2: Ctx,
    roots: Seq<Seq<char>>,
    u: Unit,
    planned: Seq<Option<Planned>>,
    inv: InvocationView,
    d: Draft,
    prediction: Option<PredictionView>,
    seen: Seen,
)
    requires
        c2 == (Ctx { host_fingerprint: c2.host_fingerprint, ..c1 }),
        c1.host_fingerprint@ != c2.host_fingerprint@,
        u.mode == Mode::RunCustomBuild,
    ensures
        told_apart("rb 2026 unit name v1"@, unit_name(c1, u, planned, inv), unit_name(c2, u, planned, inv)),
        told_apart(
            "rb 2026 unit key v2"@,
            finished_plan(c1, roots, u, planned, d, prediction, seen).key,
            finished_plan(c2, roots, u, planned, d, prediction, seen).key,
        ),
{
    if encode_utf8(c1.host_fingerprint@) == encode_utf8(c2.host_fingerprint@) {
        lemma_encoding(c1.host_fingerprint@, c2.host_fingerprint@);
    }
    lemma_name_row(c1, u, planned, inv);
    lemma_name_row(c2, u, planned, inv);
    lemma_apart(
        "rb 2026 unit name v1"@,
        name_row(c1, u, planned, inv),
        name_row(c2, u, planned, inv),
        4,
        unit_name(c1, u, planned, inv),
        unit_name(c2, u, planned, inv),
    );
    lemma_key_row(c1, roots, u, planned, d, prediction, seen);
    lemma_key_row(c2, roots, u, planned, d, prediction, seen);
    lemma_apart(
        "rb 2026 unit key v2"@,
        key_row(c1, u, planned, d.line@, prediction, seen),
        key_row(c2, u, planned, d.line@, prediction, seen),
        4,
        finished_plan(c1, roots, u, planned, d, prediction, seen).key,
        finished_plan(c2, roots, u, planned, d, prediction, seen).key,
    );
}

/// What compiles for another platform is part of both the name and the key of a unit for that platform.
pub proof fn law_another_cross_toolchain_is_another_unit(
    c1: Ctx,
    c2: Ctx,
    roots: Seq<Seq<char>>,
    u: Unit,
    planned: Seq<Option<Planned>>,
    inv: InvocationView,
    d: Draft,
    prediction: Option<PredictionView>,
    seen: Seen,
)
    requires
        c2 == (Ctx { targets: c2.targets, ..c1 }),
        u.kind is Target,
        c1.at(u.kind).cross.fingerprint@ != c2.at(u.kind).cross.fingerprint@,
    ensures
        told_apart("rb 2026 unit name v1"@, unit_name(c1, u, planned, inv), unit_name(c2, u, planned, inv)),
        told_apart(
            "rb 2026 unit key v2"@,
            finished_plan(c1, roots, u, planned, d, prediction, seen).key,
            finished_plan(c2, roots, u, planned, d, prediction, seen).key,
        ),
{
    if encode_utf8(c1.at(u.kind).cross.fingerprint@) == encode_utf8(c2.at(u.kind).cross.fingerprint@) {
        lemma_encoding(c1.at(u.kind).cross.fingerprint@, c2.at(u.kind).cross.fingerprint@);
    }
    lemma_name_row(c1, u, planned, inv);
    lemma_name_row(c2, u, planned, inv);
    lemma_apart(
        "rb 2026 unit name v1"@,
        name_row(c1, u, planned, inv),
        name_row(c2, u, planned, inv),
        3,
        unit_name(c1, u, planned, inv),
        unit_name(c2, u, planned, inv),
    );
    lemma_key_row(c1, roots, u, planned, d, prediction, seen);
    lemma_key_row(c2, roots, u, planned, d, prediction, seen);
    lemma_apart(
        "rb 2026 unit key v2"@,
        key_row(c1, u, planned, d.line@, prediction, seen),
        key_row(c2, u, planned, d.line@, prediction, seen),
        3,
        finished_plan(c1, roots, u, planned, d, prediction, seen).key,
        finished_plan(c2, roots, u, planned, d, prediction, seen).key,
    );
}

proof fn lemma_modes(a: Mode, b: Mode)
    requires
        a != b,
    ensures
        mode_name(a) != mode_name(b),
{
    reveal_strlit("Build");
    reveal_strlit("Check");
    reveal_strlit("CheckTest");
    reveal_strlit("Test");
    reveal_strlit("Bench");
    reveal_strlit("Doc");
    reveal_strlit("RunCustomBuild");
    assert("Build"@[0] == 'B' && "Build"@[1] == 'u' && "Build"@.len() == 5);
    assert("Check"@[0] == 'C' && "Check"@.len() == 5);
    assert("CheckTest"@.len() == 9);
    assert("Test"@.len() == 4);
    assert("Bench"@[0] == 'B' && "Bench"@[1] == 'e' && "Bench"@.len() == 5);
    assert("Doc"@.len() == 3);
    assert("RunCustomBuild"@.len() == 14);
}

/// A unit that is built and one that is only checked, tested or documented are not the same, though all else be.
pub proof fn law_another_mode_is_another_unit(
    ctx: Ctx,
    roots: Seq<Seq<char>>,
    a: Unit,
    b: Unit,
    planned: Seq<Option<Planned>>,
    inv: InvocationView,
    d: Draft,
    seen: Seen,
)
    requires
        b == (Unit { mode: b.mode, ..a }),
        a.mode != b.mode,
        a.mode != Mode::RunCustomBuild,
        b.mode != Mode::RunCustomBuild,
    ensures
        told_apart("rb 2026 unit name v1"@, unit_name(ctx, a, planned, inv), unit_name(ctx, b, planned, inv)),
        told_apart(
            "rb 2026 unit key v2"@,
            finished_plan(ctx, roots, a, planned, d, None, seen).key,
            finished_plan(ctx, roots, b, planned, d, None, seen).key,
        ),
{
    lemma_modes(a.mode, b.mode);
    if encode_utf8(mode_name(a.mode)) == encode_utf8(mode_name(b.mode)) {
        lemma_encoding(mode_name(a.mode), mode_name(b.mode));
    }
    lemma_name_row(ctx, a, planned, inv);
    lemma_name_row(ctx, b, planned, inv);
    lemma_apart(
        "rb 2026 unit name v1"@,
        name_row(ctx, a, planned, inv),
        name_row(ctx, b, planned, inv),
        1,
        unit_name(ctx, a, planned, inv),
        unit_name(ctx, b, planned, inv),
    );
    lemma_key_row(ctx, roots, a, planned, d, None, seen);
    lemma_key_row(ctx, roots, b, planned, d, None, seen);
    lemma_apart(
        "rb 2026 unit key v2"@,
        key_row(ctx, a, planned, d.line@, None, seen),
        key_row(ctx, b, planned, d.line@, None, seen),
        1,
        finished_plan(ctx, roots, a, planned, d, None, seen).key,
        finished_plan(ctx, roots, b, planned, d, None, seen).key,
    );
}

/// Another command line makes another unit: the digest of what counts of it is part of the key.
pub proof fn law_another_command_line_is_another_unit(
    ctx: Ctx,
    roots: Seq<Seq<char>>,
    u: Unit,
    planned: Seq<Option<Planned>>,
    d1: Draft,
    d2: Draft,
    prediction: Option<PredictionView>,
    seen: Seen,
)
    requires
        d1.line@ != d2.line@,
    ensures
        told_apart(
            "rb 2026 unit key v2"@,
            finished_plan(ctx, roots, u, planned, d1, prediction, seen).key,
            finished_plan(ctx, roots, u, planned, d2, prediction, seen).key,
        ),
{
    lemma_key_row(ctx, roots, u, planned, d1, prediction, seen);
    lemma_key_row(ctx, roots, u, planned, d2, prediction, seen);
    lemma_apart(
        "rb 2026 unit key v2"@,
        key_row(ctx, u, planned, d1.line@, prediction, seen),
        key_row(ctx, u, planned, d2.line@, prediction, seen),
        2,
        finished_plan(ctx, roots, u, planned, d1, prediction, seen).key,
        finished_plan(ctx, roots, u, planned, d2, prediction, seen).key,
    );
}

/// Other sources make another unit: the key of a unit of a local package whose sources are not known one by one digests the
/// whole tree.
pub proof fn law_other_sources_are_another_unit(
    ctx: Ctx,
    roots: Seq<Seq<char>>,
    u: Unit,
    planned: Seq<Option<Planned>>,
    d: Draft,
    s1: Seen,
    s2: Seen,
)
    requires
        ctx.ws.pkgs@[u.pkg as int].source is Workspace || ctx.ws.pkgs@[u.pkg as int].source is Path,
        s1.tree@ != s2.tree@,
    ensures
        told_apart(
            "rb 2026 unit key v2"@,
            finished_plan(ctx, roots, u, planned, d, None, s1).key,
            finished_plan(ctx, roots, u, planned, d, None, s2).key,
        ),
{
    let p = ctx.pkgs()[u.pkg as int];
    let a = unit_id(p, u.mode, None, s1);
    let b = unit_id(p, u.mode, None, s2);
    if encode_utf8(a) == encode_utf8(b) {
        lemma_encoding(a, b);
        lemma_cancel("path:"@, s1.tree@, s2.tree@, Seq::empty());
        assert("path:"@ + s1.tree@ + Seq::empty() =~= a);
        assert("path:"@ + s2.tree@ + Seq::empty() =~= b);
    }
    lemma_key_row(ctx, roots, u, planned, d, None, s1);
    lemma_key_row(ctx, roots, u, planned, d, None, s2);
    lemma_apart(
        "rb 2026 unit key v2"@,
        key_row(ctx, u, planned, d.line@, None, s1),
        key_row(ctx, u, planned, d.line@, None, s2),
        5,
        finished_plan(ctx, roots, u, planned, d, None, s1).key,
        finished_plan(ctx, roots, u, planned, d, None, s2).key,
    );
}

proof fn lemma_one_dep(p1: Seq<Option<Planned>>, p2: Seq<Option<Planned>>, deps: Seq<UnitDep>, k: int, n: int)
    requires
        0 <= k < n <= deps.len(),
        deps[k].unit < p1.len(),
        p2.len() == p1.len(),
        forall|i: int| 0 <= i < deps.len() && i != k ==> (#[trigger] deps[i]).unit != deps[k].unit && p1[deps[i].unit as int]
            == p2[deps[i].unit as int],
    ensures
        p1[deps[k].unit as int].unwrap().name@ != p2[deps[k].unit as int].unwrap().name@ ==> dep_names(p1, deps, n) != dep_names(
            p2,
            deps,
            n,
        ),
        p1[deps[k].unit as int].unwrap().key@ != p2[deps[k].unit as int].unwrap().key@ && p1[deps[k].unit as int].unwrap().input_digest@
            == p2[deps[k].unit as int].unwrap().input_digest@ ==> dep_keys(p1, deps, n) != dep_keys(p2, deps, n),
        p1[deps[k].unit as int].unwrap().key@ == p2[deps[k].unit as int].unwrap().key@ && p1[deps[k].unit as int].unwrap().input_digest@
            != p2[deps[k].unit as int].unwrap().input_digest@ ==> dep_keys(p1, deps, n) != dep_keys(p2, deps, n),
    decreases n,
{
    let e = Seq::<u8>::empty();
    let a = p1[deps[k].unit as int].unwrap();
    let b = p2[deps[k].unit as int].unwrap();
    let link = encode_utf8("\0dep\0"@) + encode_utf8(link_name(deps[n - 1]));
    if n - 1 == k {
        lemma_same_deps(p1, p2, deps, k);
        if dep_names(p1, deps, n) == dep_names(p2, deps, n) {
            let pre = dep_names(p1, deps, k) + link;
            assert(dep_names(p1, deps, n) =~= pre + encode_utf8(a.name@) + e);
            assert(dep_names(p2, deps, n) =~= pre + encode_utf8(b.name@) + e);
            lemma_cancel(pre, encode_utf8(a.name@), encode_utf8(b.name@), e);
            lemma_encoding(a.name@, b.name@);
        }
        if dep_keys(p1, deps, n) == dep_keys(p2, deps, n) {
            let pre = dep_keys(p1, deps, k) + link;
            if a.input_digest@ == b.input_digest@ {
                let post = encode_utf8(a.input_digest@);
                assert(dep_keys(p1, deps, n) =~= pre + encode_utf8(a.key@) + post);
                assert(dep_keys(p2, deps, n) =~= pre + encode_utf8(b.key@) + post);
                lemma_cancel(pre, encode_utf8(a.key@), encode_utf8(b.key@), post);
                lemma_encoding(a.key@, b.key@);
            }
            if a.key@ == b.key@ {
                let pre2 = pre + encode_utf8(a.key@);
                assert(dep_keys(p1, deps, n) =~= pre2 + encode_utf8(a.input_digest@) + e);
                assert(dep_keys(p2, deps, n) =~= pre2 + encode_utf8(b.input_digest@) + e);
                lemma_cancel(pre2, encode_utf8(a.input_digest@), encode_utf8(b.input_digest@), e);
                lemma_encoding(a.input_digest@, b.input_digest@);
            }
        }
    } else {
        lemma_one_dep(p1, p2, deps, k, n - 1);
        let q = p1[deps[n - 1].unit as int].unwrap();
        if dep_names(p1, deps, n) == dep_names(p2, deps, n) {
            let post = link + encode_utf8(q.name@);
            assert(dep_names(p1, deps, n) =~= e + dep_names(p1, deps, n - 1) + post);
            assert(dep_names(p2, deps, n) =~= e + dep_names(p2, deps, n - 1) + post);
            lemma_cancel(e, dep_names(p1, deps, n - 1), dep_names(p2, deps, n - 1), post);
        }
        if dep_keys(p1, deps, n) == dep_keys(p2, deps, n) {
            let post = link + encode_utf8(q.key@) + encode_utf8(q.input_digest@);
            assert(dep_keys(p1, deps, n) =~= e + dep_keys(p1, deps, n - 1) + post);
            assert(dep_keys(p2, deps, n) =~= e + dep_keys(p2, deps, n - 1) + post);
            lemma_cancel(e, dep_keys(p1, deps, n - 1), dep_keys(p2, deps, n - 1), post);
        }
    }
}

proof fn lemma_same_deps(p1: Seq<Option<Planned>>, p2: Seq<Option<Planned>>, deps: Seq<UnitDep>, n: int)
    requires
        0 <= n <= deps.len(),
        forall|i: int| 0 <= i < n ==> p1[(#[trigger] deps[i]).unit as int] == p2[deps[i].unit as int],
    ensures
        dep_names(p1, deps, n) == dep_names(p2, deps, n),
        dep_keys(p1, deps, n) == dep_keys(p2, deps, n),
    decreases n,
{
    if n > 0 {
        lemma_same_deps(p1, p2, deps, n - 1);
        assert(p1[deps[n - 1].unit as int] == p2[deps[n - 1].unit as int]);
    }
}

/// A change below is a change above: where one dependency of a unit has another key, or reads other inputs, the unit has
/// another key. Where it has another name, so has the unit.
pub proof fn law_another_dependency_is_another_unit(
    ctx: Ctx,
    roots: Seq<Seq<char>>,
    u: Unit,
    p1: Seq<Option<Planned>>,
    p2: Seq<Option<Planned>>,
    k: int,
    inv: InvocationView,
    d: Draft,
    prediction: Option<PredictionView>,
    seen: Seen,
)
    requires
        0 <= k < u.deps@.len(),
        u.deps@[k].unit < p1.len(),
        p2.len() == p1.len(),
        forall|i: int| 0 <= i < u.deps@.len() && i != k ==> (#[trigger] u.deps@[i]).unit != u.deps@[k].unit && p1[u.deps@[i].unit as int]
            == p2[u.deps@[i].unit as int],
    ensures
        ({
            let a = p1[u.deps@[k].unit as int].unwrap();
            let b = p2[u.deps@[k].unit as int].unwrap();
            &&& a.name@ != b.name@ ==> told_apart(
                "rb 2026 unit name v1"@,
                unit_name(ctx, u, p1, inv),
                unit_name(ctx, u, p2, inv),
            )
            &&& (a.key@ != b.key@) != (a.input_digest@ != b.input_digest@) ==> told_apart(
                "rb 2026 unit key v2"@,
                finished_plan(ctx, roots, u, p1, d, prediction, seen).key,
                finished_plan(ctx, roots, u, p2, d, prediction, seen).key,
            )
        }),
{
    let a = p1[u.deps@[k].unit as int].unwrap();
    let b = p2[u.deps@[k].unit as int].unwrap();
    lemma_one_dep(p1, p2, u.deps@, k, u.deps@.len() as int);
    if a.name@ != b.name@ {
        lemma_name_row(ctx, u, p1, inv);
        lemma_name_row(ctx, u, p2, inv);
        lemma_apart(
            "rb 2026 unit name v1"@,
            name_row(ctx, u, p1, inv),
            name_row(ctx, u, p2, inv),
            6,
            unit_name(ctx, u, p1, inv),
            unit_name(ctx, u, p2, inv),
        );
    }
    if (a.key@ != b.key@) != (a.input_digest@ != b.input_digest@) {
        lemma_key_row(ctx, roots, u, p1, d, prediction, seen);
        lemma_key_row(ctx, roots, u, p2, d, prediction, seen);
        lemma_apart(
            "rb 2026 unit key v2"@,
            key_row(ctx, u, p1, d.line@, prediction, seen),
            key_row(ctx, u, p2, d.line@, prediction, seen),
            6,
            finished_plan(ctx, roots, u, p1, d, prediction, seen).key,
            finished_plan(ctx, roots, u, p2, d, prediction, seen).key,
        );
    }
}

proof fn lemma_one_arg(rules: Seq<(Seq<char>, Seq<char>)>, a: Seq<(Seq<char>, bool)>, b: Seq<(Seq<char>, bool)>, k: int, n: int)
    requires
        0 <= k < n <= a.len(),
        b == a.update(k, b[k]),
        a[k].1,
        b[k].1,
        normal(rules, a[k].0) != normal(rules, b[k].0),
    ensures
        args_data(rules, a, n) != args_data(rules, b, n),
    decreases n,
{
    let e = Seq::<u8>::empty();
    let mark = encode_utf8("\0a\0"@);
    if n - 1 == k {
        lemma_same_args(rules, a, b, k);
        if args_data(rules, a, n) == args_data(rules, b, n) {
            let pre = args_data(rules, a, k) + mark;
            assert(args_data(rules, a, n) =~= pre + encode_utf8(normal(rules, a[k].0)) + e);
            assert(args_data(rules, b, n) =~= pre + encode_utf8(normal(rules, b[k].0)) + e);
            lemma_cancel(pre, encode_utf8(normal(rules, a[k].0)), encode_utf8(normal(rules, b[k].0)), e);
            lemma_encoding(normal(rules, a[k].0), normal(rules, b[k].0));
        }
    } else {
        lemma_one_arg(rules, a, b, k, n - 1);
        assert(a[n - 1] == b[n - 1]);
        if args_data(rules, a, n) == args_data(rules, b, n) {
            let post = if a[n - 1].1 {
                mark + encode_utf8(normal(rules, a[n - 1].0))
            } else {
                e
            };
            assert(args_data(rules, a, n) =~= e + args_data(rules, a, n - 1) + post);
            assert(args_data(rules, b, n) =~= e + args_data(rules, b, n - 1) + post);
            lemma_cancel(e, args_data(rules, a, n - 1), args_data(rules, b, n - 1), post);
        }
    }
}

proof fn lemma_same_args(rules: Seq<(Seq<char>, Seq<char>)>, a: Seq<(Seq<char>, bool)>, b: Seq<(Seq<char>, bool)>, n: int)
    requires
        0 <= n <= a.len(),
        n <= b.len(),
        forall|i: int| 0 <= i < n ==> #[trigger] a[i] == b[i],
    ensures
        args_data(rules, a, n) == args_data(rules, b, n),
    decreases n,
{
    if n > 0 {
        lemma_same_args(rules, a, b, n - 1);
        assert(a[n - 1] == b[n - 1]);
    }
}

/// Whatever counts of a command line is digested: where one argument that counts is another, or the program, or the directory,
/// other data are digested. Directories that differ from place to place are told by their tokens.
pub proof fn law_arguments_that_count_matter(rules: Seq<(Seq<char>, Seq<char>)>, a: InvocationView, b: InvocationView, k: int)
    requires
        b == (InvocationView { program: b.program, cwd: b.cwd, args: b.args, ..a }),
    ensures
        b.args == a.args && b.cwd == a.cwd && normal(rules, a.program) != normal(rules, b.program) ==> hashed_data(rules, a)
            != hashed_data(rules, b),
        b.args == a.args && b.program == a.program && normal(rules, a.cwd) != normal(rules, b.cwd) ==> hashed_data(rules, a)
            != hashed_data(rules, b),
        b.program == a.program && b.cwd == a.cwd && 0 <= k < a.args.len() && b.args == a.args.update(k, b.args[k]) && a.args[k].1
            && b.args[k].1 && normal(rules, a.args[k].0) != normal(rules, b.args[k].0) ==> hashed_data(rules, a) != hashed_data(rules, b),
{
    let e = Seq::<u8>::empty();
    let names = listed(a.env.dom());
    let env = env_data(rules, a.env, names, names.len() as int);
    let m1 = encode_utf8("program\0"@);
    let m2 = encode_utf8("\0cwd\0"@);
    let (p1, p2) = (encode_utf8(normal(rules, a.program)), encode_utf8(normal(rules, b.program)));
    let (w1, w2) = (encode_utf8(normal(rules, a.cwd)), encode_utf8(normal(rules, b.cwd)));
    let (x1, x2) = (args_data(rules, a.args, a.args.len() as int), args_data(rules, b.args, b.args.len() as int));
    let (h1, h2) = (hashed_data(rules, a), hashed_data(rules, b));
    if h1 == h2 {
        if b.args == a.args && b.cwd == a.cwd {
            let post = m2 + w1 + x1 + env;
            assert(h1 =~= m1 + p1 + post);
            assert(h2 =~= m1 + p2 + post);
            lemma_cancel(m1, p1, p2, post);
            lemma_encoding(normal(rules, a.program), normal(rules, b.program));
        }
        if b.args == a.args && b.program == a.program {
            let pre = m1 + p1 + m2;
            let post = x1 + env;
            assert(h1 =~= pre + w1 + post);
            assert(h2 =~= pre + w2 + post);
            lemma_cancel(pre, w1, w2, post);
            lemma_encoding(normal(rules, a.cwd), normal(rules, b.cwd));
        }
        if b.program == a.program && b.cwd == a.cwd && 0 <= k < a.args.len() && b.args == a.args.update(k, b.args[k]) && a.args[k].1
            && b.args[k].1 && normal(rules, a.args[k].0) != normal(rules, b.args[k].0) {
            let pre = m1 + p1 + m2 + w1;
            assert(h1 =~= pre + x1 + env);
            assert(h2 =~= pre + x2 + env);
            lemma_cancel(pre, x1, x2, env);
            lemma_one_arg(rules, a.args, b.args, k, a.args.len() as int);
        }
    }
}

} // verus!
