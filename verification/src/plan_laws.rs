//! What link-time optimization asks of each unit.

use vstd::prelude::*;
use crate::manifest::TargetKind;
use crate::plan::LtoMode;
use crate::plan::all_linked;
use crate::plan::lto_for;
use crate::plan::lto_least;
use crate::plan::lto_possible;
use crate::plan::lto_types;
use crate::plan::root_lto;
use crate::plan::serves;
use crate::plan::target_of;
use crate::profile::Lto;
use crate::text::views;
use crate::unit::Mode;
use crate::unit::Unit;
use crate::workspace::Pkg;

verus! {

/// The ways in which units are compiled, as they are told to the compiler.
pub open spec fn ways(pkgs: Seq<Pkg>, units: Seq<Unit>, first: Seq<usize>, r: Seq<LtoMode>) -> bool {
    exists|m: Seq<Option<LtoMode>>|
        #[trigger] lto_least(pkgs, units, first, m) && r.len() == m.len() && forall|k: int|
            0 <= k < m.len() ==> #[trigger] r[k] == match m[k] {
                Some(x) => x,
                None => LtoMode::OnlyObject,
            }
}

/// A program: a binary, or a test.
pub open spec fn is_program(pkgs: Seq<Pkg>, u: Unit) -> bool {
    let t = pkgs[u.pkg as int].targets@[u.target as int];
    &&& t.kind != TargetKind::BuildScript
    &&& !views(t.crate_types@).contains("proc-macro"@)
    &&& u.mode == Mode::Test || u.mode == Mode::Bench || u.mode == Mode::CheckTest || views(t.crate_types@) == seq!["bin"@]
}

/// A plain library.
pub open spec fn is_library(pkgs: Seq<Pkg>, u: Unit) -> bool {
    let t = pkgs[u.pkg as int].targets@[u.target as int];
    t.kind == TargetKind::Lib && u.mode == Mode::Build && views(t.crate_types@) == seq!["lib"@]
}

proof fn lemma_type_names()
    ensures
        "lib"@ != "bin"@,
        "lib"@ != "staticlib"@,
        "lib"@ != "cdylib"@,
        "lib"@ != "dylib"@,
        "lib"@ != "proc-macro"@,
        !seq!["lib"@].contains("proc-macro"@),
        !seq!["lib"@].contains("bin"@),
        !seq!["lib"@].contains("staticlib"@),
        !seq!["lib"@].contains("cdylib"@),
        !seq!["lib"@].contains("dylib"@),
{
    reveal_strlit("lib");
    reveal_strlit("bin");
    reveal_strlit("staticlib");
    reveal_strlit("cdylib");
    reveal_strlit("dylib");
    reveal_strlit("proc-macro");
    assert("lib"@[0] != "bin"@[0]);
    assert("lib"@.len() == 3 && "staticlib"@.len() == 9 && "cdylib"@.len() == 6 && "dylib"@.len() == 5 && "proc-macro"@.len() == 10);
    assert(seq!["lib"@][0] == "lib"@);
}

/// A program that is asked for is linked as its profile says: with link-time optimization where that asks for it, without where
/// that is off, and else from objects alone.
pub proof fn law_programs_are_optimized_as_the_profile_says(pkgs: Seq<Pkg>, units: Seq<Unit>, first: Seq<usize>, r: Seq<LtoMode>, k: int)
    requires
        ways(pkgs, units, first, r),
        0 <= k < first.len(),
        first[k] < units.len(),
        is_program(pkgs, units[first[k] as int]),
    ensures
        ({
            let u = units[first[k] as int];
            let way = r[first[k] as int];
            &&& u.profile.lto == Lto::Thin || u.profile.lto == Lto::Fat || u.profile.lto == Lto::True ==> way == LtoMode::Run
            &&& u.profile.lto == Lto::Off ==> way == LtoMode::Off
            &&& u.profile.lto == Lto::Default ==> way == LtoMode::OnlyObject
        }),
{
    let m = choose|m: Seq<Option<LtoMode>>|
        #[trigger] lto_least(pkgs, units, first, m) && r.len() == m.len() && forall|k: int|
            0 <= k < m.len() ==> #[trigger] r[k] == match m[k] {
                Some(x) => x,
                None => LtoMode::OnlyObject,
            };
    let i = first[k] as int;
    let u = units[i];
    let types = lto_types(pkgs, u);
    assert(types =~= seq!["bin"@]);
    assert(all_linked(types));
    assert(lto_possible(pkgs, u, m[i]));
    assert(serves(lto_for(pkgs, u, root_lto(pkgs, u)), m[first[k] as int]));
    assert(r[i] == match m[i] {
        Some(x) => x,
        None => LtoMode::OnlyObject,
    });
}

/// What runs on the host is never optimized at link time.
pub proof fn law_host_tools_are_not_optimized_at_link_time(pkgs: Seq<Pkg>, units: Seq<Unit>, first: Seq<usize>, r: Seq<LtoMode>, u: int)
    requires
        ways(pkgs, units, first, r),
        0 <= u < units.len(),
        ({
            let t = pkgs[units[u].pkg as int].targets@[units[u].target as int];
            t.kind == TargetKind::BuildScript || views(t.crate_types@).contains("proc-macro"@)
        }),
    ensures
        r[u] == LtoMode::OnlyObject,
{
    let m = choose|m: Seq<Option<LtoMode>>|
        #[trigger] lto_least(pkgs, units, first, m) && r.len() == m.len() && forall|k: int|
            0 <= k < m.len() ==> #[trigger] r[k] == match m[k] {
                Some(x) => x,
                None => LtoMode::OnlyObject,
            };
    assert(lto_possible(pkgs, units[u], m[u]));
    assert(target_of(pkgs, units[u]) == pkgs[units[u].pkg as int].targets@[units[u].target as int]);
    assert(r[u] == match m[u] {
        Some(x) => x,
        None => LtoMode::OnlyObject,
    });
}

/// A library that goes into a program with link-time optimization has the code that this needs; and where nothing else uses
/// it, it has nothing but that.
pub proof fn law_libraries_have_what_link_time_optimization_needs(
    pkgs: Seq<Pkg>,
    units: Seq<Unit>,
    first: Seq<usize>,
    r: Seq<LtoMode>,
    u: int,
    d: int,
)
    requires
        ways(pkgs, units, first, r),
        0 <= u < units.len(),
        0 <= d < units[u].deps@.len(),
        units[u].deps@[d].unit < units.len(),
        r[u] == LtoMode::Run,
        is_library(pkgs, units[units[u].deps@[d].unit as int]),
    ensures
        r[units[u].deps@[d].unit as int] != LtoMode::OnlyObject,
        r[units[u].deps@[d].unit as int] != LtoMode::Run,
{
    let m = choose|m: Seq<Option<LtoMode>>|
        #[trigger] lto_least(pkgs, units, first, m) && r.len() == m.len() && forall|k: int|
            0 <= k < m.len() ==> #[trigger] r[k] == match m[k] {
                Some(x) => x,
                None => LtoMode::OnlyObject,
            };
    let l = units[u].deps@[d].unit as int;
    lemma_type_names();
    assert(r[u] == match m[u] {
        Some(x) => x,
        None => LtoMode::OnlyObject,
    });
    assert(m[u] == Some(LtoMode::Run));
    let types = lto_types(pkgs, units[l]);
    assert(types =~= seq!["lib"@]);
    assert(types[0] == "lib"@);
    assert(!all_linked(types));
    assert(serves(lto_for(pkgs, units[units[u].deps@[d].unit as int], m[u].unwrap()), m[l]));
    assert(lto_possible(pkgs, units[l], m[l]));
    assert(r[l] == match m[l] {
        Some(x) => x,
        None => LtoMode::OnlyObject,
    });
}

} // verus!
