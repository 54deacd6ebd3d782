//! What a build decides: its flags, what it runs, which units are one, and where outputs end up.

use vstd::prelude::*;
use crate::commands::Planned;
use crate::commands::PlannedView;
use crate::graph::GraphView;
use crate::graph::aliased;
use crate::graph::all_in;
use crate::graph::apply_aliases;
use crate::graph::collapse;
use crate::graph::runs;
use crate::manifest::TargetKind;
use crate::manifest::any_is;
use crate::manifest::strings_in;
use crate::manifest::texts;
use crate::num::dec;
use crate::num::usize_text;
use crate::text::head_bytes;
use crate::text::cuts;
use crate::text::after_prefix;
use crate::text::cat;
use crate::text::cat5;
use crate::text::ends;
use crate::text::ends_with;
use crate::text::join;
use crate::text::joined;
use crate::text::opt_view;
use crate::text::pieces;
use crate::text::replace;
use crate::text::replaced;
use crate::text::same;
use crate::text::split;
use crate::text::starts;
use crate::text::starts_with;
use crate::text::strip_prefix;
use crate::text::trim;
use crate::text::trimmed;
use crate::text::views;
use crate::unit::Command;
use crate::unit::Mode;
use crate::unit::TargetFilter;
use crate::unit::UnitGraph;
use crate::value::Toml;
use crate::value::TomlTree;
use crate::value::at;
use crate::value::field;
use crate::value::get;
use crate::value::toml_entries;
use crate::version::version_text;
use crate::workspace::Pkg;

verus! {

// ---------------------------------------------------------------------------
// `-Z` flags.

/// What the unstable flags ask for.
#[derive(Clone, Copy, Debug, PartialEq, Eq, Structural)]
pub struct Unstable {
    pub json_target_spec: bool,
    /// `-Zbuild-std=core`. compiler_builtins comes along.
    pub build_core: bool,
}

#[derive(Debug)]
pub enum UnstableError {
    /// The crates of the standard library that are not built yet.
    BuildStd(String),
    Unknown(String),
}

pub enum UnstableFault {
    BuildStd(Seq<char>),
    Unknown(Seq<char>),
}

impl View for UnstableError {
    type V = UnstableFault;

    open spec fn view(&self) -> UnstableFault {
        match self {
            UnstableError::BuildStd(s) => UnstableFault::BuildStd(s@),
            UnstableError::Unknown(s) => UnstableFault::Unknown(s@),
        }
    }
}

/// The names in a list with commas, without blanks around them; of the first `k`, those that are not empty.
pub open spec fn names_upto(ps: Seq<Seq<char>>, k: int) -> Seq<Seq<char>>
    decreases k,
{
    if k <= 0 || k > ps.len() {
        Seq::empty()
    } else if trimmed(ps[k - 1]).len() > 0 {
        names_upto(ps, k - 1).push(trimmed(ps[k - 1]))
    } else {
        names_upto(ps, k - 1)
    }
}

/// The crates that `build-std` is about.
pub open spec fn std_crates(flag: Seq<char>) -> Seq<Seq<char>> {
    match after_prefix(flag, "build-std="@) {
        Some(rest) => names_upto(pieces(rest, ','), pieces(rest, ',').len() as int),
        None => seq!["std"@, "panic_unwind"@],
    }
}

pub open spec fn only_core(l: Seq<Seq<char>>) -> bool {
    forall|i: int| 0 <= i < l.len() ==> #[trigger] l[i] == "core"@ || l[i] == "compiler_builtins"@
}

/// What the first `n` flags ask for.
pub open spec fn unstable_upto(flags: Seq<Seq<char>>, n: int) -> Result<Unstable, UnstableFault>
    decreases n,
{
    if n <= 0 || n > flags.len() {
        Ok(Unstable { json_target_spec: false, build_core: false })
    } else {
        match unstable_upto(flags, n - 1) {
            Err(e) => Err(e),
            Ok(u) => {
                let f = flags[n - 1];
                if f == "json-target-spec"@ {
                    Ok(Unstable { json_target_spec: true, ..u })
                } else if f == "build-std"@ || starts(f, "build-std="@) {
                    if only_core(std_crates(f)) {
                        Ok(Unstable { build_core: true, ..u })
                    } else {
                        Err(UnstableFault::BuildStd(joined(std_crates(f), ","@)))
                    }
                } else {
                    Err(UnstableFault::Unknown(f))
                }
            },
        }
    }
}

proof fn lemma_unstable_error(flags: Seq<Seq<char>>, a: int, b: int)
    requires
        0 <= a <= b <= flags.len(),
        unstable_upto(flags, a).is_err(),
    ensures
        unstable_upto(flags, b) == unstable_upto(flags, a),
    decreases b - a,
{
    if a < b {
        lemma_unstable_error(flags, a, b - 1);
    }
}

fn list_std_crates(flag: &str) -> (r: Vec<String>)
    ensures
        views(r@) == std_crates(flag@),
{
    let mut out: Vec<String> = Vec::new();
    match strip_prefix(flag, "build-std=") {
        None => {
            out.push("std".to_owned());
            out.push("panic_unwind".to_owned());
            assert(views(out@) =~= seq!["std"@, "panic_unwind"@]);
        },
        Some(rest) => {
            let ps = split(rest, ',');
            let ghost pv = views(ps@);
            let mut k: usize = 0;
            assert(views(out@) =~= Seq::<Seq<char>>::empty());
            while k < ps.len()
                invariant
                    k <= ps@.len(),
                    pv == views(ps@),
                    views(out@) == names_upto(pv, k as int),
                decreases ps@.len() - k,
            {
                assert(pv[k as int] == ps@[k as int]@);
                let t = trim(ps[k].as_str());
                if !t.is_empty() {
                    let ghost was = out@;
                    out.push(t.to_owned());
                    assert(views(out@) =~= views(was).push(t@));
                }
                k += 1;
            }
            assert(pv.len() == ps@.len());
        },
    }
    out
}

fn is_only_core(l: &Vec<String>) -> (r: bool)
    ensures
        r == only_core(views(l@)),
{
    let ghost lv = views(l@);
    let mut k: usize = 0;
    while k < l.len()
        invariant
            k <= l@.len(),
            lv == views(l@),
            forall|i: int| 0 <= i < k ==> #[trigger] lv[i] == "core"@ || lv[i] == "compiler_builtins"@,
        decreases l@.len() - k,
    {
        assert(lv[k as int] == l@[k as int]@);
        if !same(l[k].as_str(), "core") && !same(l[k].as_str(), "compiler_builtins") {
            assert(!(lv[k as int] == "core"@ || lv[k as int] == "compiler_builtins"@));
            return false;
        }
        k += 1;
    }
    assert(lv.len() == l@.len());
    true
}

/// What the unstable flags ask for.
pub fn parse_unstable(flags: &Vec<String>) -> (r: Result<Unstable, UnstableError>)
    ensures
        match unstable_upto(views(flags@), flags@.len() as int) {
            Ok(u) => r matches Ok(x) && x == u,
            Err(e) => r matches Err(x) && x@ == e,
        },
{
    let ghost fv = views(flags@);
    let mut u = Unstable { json_target_spec: false, build_core: false };
    let mut k: usize = 0;
    while k < flags.len()
        invariant
            k <= flags@.len(),
            fv == views(flags@),
            unstable_upto(fv, k as int) == Ok::<_, UnstableFault>(u),
        decreases flags@.len() - k,
    {
        assert(fv[k as int] == flags@[k as int]@);
        let f = flags[k].as_str();
        if same(f, "json-target-spec") {
            u.json_target_spec = true;
        } else if same(f, "build-std") || starts_with(f, "build-std=") {
            let crates = list_std_crates(f);
            if !is_only_core(&crates) {
                proof {
                    lemma_unstable_error(fv, k + 1, fv.len() as int);
                }
                return Err(UnstableError::BuildStd(join(&crates, ",")));
            }
            u.build_core = true;
        } else {
            proof {
                lemma_unstable_error(fv, k + 1, fv.len() as int);
            }
            return Err(UnstableError::Unknown(flags[k].clone()));
        }
        k += 1;
    }
    assert(fv.len() == flags@.len());
    Ok(u)
}

// ---------------------------------------------------------------------------
// What to run.

#[derive(Debug)]
pub enum RunError {
    /// There is no binary.
    NoBin,
    /// There are several, and nothing says which.
    Several(Vec<String>),
}

pub enum RunFault {
    NoBin,
    Several(Seq<Seq<char>>),
}

impl View for RunError {
    type V = RunFault;

    open spec fn view(&self) -> RunFault {
        match self {
            RunError::NoBin => RunFault::NoBin,
            RunError::Several(l) => RunFault::Several(views(l@)),
        }
    }
}

/// The names of the binaries among the first `n` targets.
pub open spec fn bins_upto(ts: Seq<crate::manifest::Target>, n: int) -> Seq<Seq<char>>
    decreases n,
{
    if n <= 0 || n > ts.len() {
        Seq::empty()
    } else if ts[n - 1].kind == TargetKind::Bin {
        bins_upto(ts, n - 1).push(ts[n - 1].name@)
    } else {
        bins_upto(ts, n - 1)
    }
}

/// The binary to run where none is named: the default one, or the only one. Nothing where the filter stands as it is.
pub open spec fn bin_to_run(command: Command, f: TargetFilter, p: Pkg) -> Result<Option<Seq<char>>, RunFault> {
    let bins = bins_upto(p.targets@, p.targets@.len() as int);
    if !(command is Run) || f.bin_names@.len() > 0 || f.example_names@.len() > 0 {
        Ok(None)
    } else {
        match p.default_run {
            Some(d) => Ok(Some(d@)),
            None => if bins.len() == 1 {
                Ok(Some(bins[0]))
            } else if bins.len() == 0 {
                Err(RunFault::NoBin)
            } else {
                Err(RunFault::Several(bins))
            },
        }
    }
}

fn list_bins(p: &Pkg) -> (r: Vec<String>)
    ensures
        views(r@) == bins_upto(p.targets@, p.targets@.len() as int),
{
    let mut out: Vec<String> = Vec::new();
    let mut k: usize = 0;
    assert(views(out@) =~= Seq::<Seq<char>>::empty());
    while k < p.targets.len()
        invariant
            k <= p.targets@.len(),
            views(out@) == bins_upto(p.targets@, k as int),
        decreases p.targets@.len() - k,
    {
        if p.targets[k].kind == TargetKind::Bin {
            let ghost was = out@;
            out.push(p.targets[k].name.clone());
            assert(views(out@) =~= views(was).push(p.targets@[k as int].name@));
        }
        k += 1;
    }
    out
}

/// The binary to run where none is named.
pub fn run_filter(command: Command, f: &TargetFilter, p: &Pkg) -> (r: Result<Option<String>, RunError>)
    ensures
        match bin_to_run(command, *f, *p) {
            Ok(o) => r matches Ok(x) && opt_view(x) == o,
            Err(e) => r matches Err(x) && x@ == e,
        },
{
    let running: bool = matches!(command, Command::Run);
    if !running || f.bin_names.len() > 0 || f.example_names.len() > 0 {
        return Ok(None);
    }
    if let Some(d) = &p.default_run {
        return Ok(Some(d.clone()));
    }
    let bins = list_bins(p);
    let ghost bv = views(bins@);
    assert(bv.len() == bins@.len());
    if bins.len() == 0 {
        return Err(RunError::NoBin);
    }
    if bins.len() == 1 {
        assert(bv[0] == bins@[0]@);
        return Ok(Some(bins[0].clone()));
    }
    Err(RunError::Several(bins))
}

/// What stands below some keys, one in the other.
pub open spec fn below(t: Option<TomlTree>, key: Seq<char>) -> Option<TomlTree> {
    match t {
        Some(v) => field(v, key),
        None => None,
    }
}

/// The packages whose build scripts are never cached.
pub open spec fn uncached(m: crate::manifest::Entries) -> Seq<Seq<char>> {
    texts(
        below(below(below(at(m, "workspace"@), "metadata"@), "rb"@), "no-cache-build-scripts"@),
    )
}

fn step_in<'a>(o: Option<&'a Toml>, key: &str) -> (r: Option<&'a Toml>)
    ensures
        tree_of(r) == below(tree_of(o), key@),
{
    match o {
        Some(v) => v.get(key),
        None => None,
    }
}

pub open spec fn tree_of(o: Option<&Toml>) -> Option<TomlTree> {
    match o {
        Some(v) => Some(v@),
        None => None,
    }
}

/// The packages whose build scripts are never cached.
pub fn no_cache_list(manifest: &Vec<(String, Toml)>) -> (r: Vec<String>)
    ensures
        views(r@) == uncached(toml_entries(manifest@)),
{
    let w = step_in(get(manifest, "workspace"), "metadata");
    strings_in(step_in(step_in(w, "rb"), "no-cache-build-scripts"))
}

// ---------------------------------------------------------------------------
// Units that are one.

/// The first unit from `k` on with the key.
pub open spec fn first_with(planned: Seq<Planned>, key: Seq<char>, k: int) -> int
    decreases planned.len() - k,
{
    if k < 0 || k >= planned.len() {
        planned.len() as int
    } else if planned[k].key@ == key {
        k
    } else {
        first_with(planned, key, k + 1)
    }
}

/// For each unit, the first one with its key: the same key is the same work.
pub open spec fn canon_of(planned: Seq<Planned>) -> Seq<usize> {
    Seq::new(planned.len(), |i: int| first_with(planned, planned[i].key@, 0) as usize)
}

proof fn lemma_first_with(planned: Seq<Planned>, i: int, k: int)
    requires
        0 <= k <= i < planned.len(),
    ensures
        k <= first_with(planned, planned[i].key@, k) <= i,
        planned[first_with(planned, planned[i].key@, k)].key@ == planned[i].key@,
    decreases i - k,
{
    if planned[k].key@ != planned[i].key@ {
        lemma_first_with(planned, i, k + 1);
    }
}

/// For each unit, the first one with its key.
pub fn canonical(planned: &Vec<Planned>) -> (r: Vec<usize>)
    ensures
        r@ == canon_of(planned@),
        forall|i: int| 0 <= i < r@.len() ==> #[trigger] r@[i] <= i,
{
    let mut out: Vec<usize> = Vec::new();
    let mut k: usize = 0;
    while k < planned.len()
        invariant
            k <= planned@.len(),
            out@ =~= canon_of(planned@).take(k as int),
            forall|i: int| 0 <= i < k ==> #[trigger] out@[i] <= i,
        decreases planned@.len() - k,
    {
        let key = planned[k].key.as_str();
        proof {
            lemma_first_with(planned@, k as int, 0);
        }
        let mut j: usize = 0;
        while j < k && !same(planned[j].key.as_str(), key)
            invariant
                j <= k < planned@.len(),
                key@ == planned@[k as int].key@,
                first_with(planned@, key@, 0) == first_with(planned@, key@, j as int),
                first_with(planned@, key@, 0) <= k,
            decreases k - j,
        {
            j += 1;
        }
        out.push(j);
        k += 1;
    }
    assert(out@ =~= canon_of(planned@));
    out
}

/// Two units with one key are taken for the same one, and that one has the key.
pub proof fn law_one_unit_for_each_key(planned: Seq<Planned>, a: int, b: int)
    requires
        0 <= a < planned.len(),
        0 <= b < planned.len(),
        planned.len() <= usize::MAX,
    ensures
        (canon_of(planned)[a] == canon_of(planned)[b]) == (planned[a].key@ == planned[b].key@),
        planned[canon_of(planned)[a] as int].key@ == planned[a].key@,
{
    lemma_first_with(planned, a, 0);
    lemma_first_with(planned, b, 0);
}

/// The numbers, each with the unit that it is taken for.
pub open spec fn taken_for(l: Seq<usize>, canon: Seq<usize>) -> Seq<usize> {
    Seq::new(l.len(), |i: int| canon[l[i] as int])
}

/// The ascending list of what some units are taken for.
pub fn redirect(l: &Vec<usize>, canon: &Vec<usize>) -> (r: Vec<usize>)
    requires
        forall|i: int| 0 <= i < l@.len() ==> #[trigger] l@[i] < canon@.len(),
    ensures
        crate::sets::rising(r@),
        forall|x: usize| #[trigger] r@.contains(x) == taken_for(l@, canon@).contains(x),
{
    let ghost all = taken_for(l@, canon@);
    let mut out: Vec<usize> = Vec::new();
    let mut k: usize = 0;
    while k < l.len()
        invariant
            k <= l@.len(),
            all == taken_for(l@, canon@),
            forall|i: int| 0 <= i < l@.len() ==> #[trigger] l@[i] < canon@.len(),
            crate::sets::rising(out@),
            forall|x: usize| #[trigger] out@.contains(x) == exists|i: int| 0 <= i < k && #[trigger] all[i] == x,
        decreases l@.len() - k,
    {
        assert(l@[k as int] < canon@.len());
        let c: usize = canon[l[k]];
        assert(all[k as int] == c);
        let ghost was = out@;
        let _fresh: bool = crate::sets::insert(&mut out, c);
        proof {
            assert forall|x: usize| #[trigger] out@.contains(x) == exists|i: int| 0 <= i < k + 1 && #[trigger] all[i] == x by {
                assert(out@.contains(x) == (was.contains(x) || x == c));
                if was.contains(x) {
                    let i = choose|i: int| 0 <= i < k && #[trigger] all[i] == x;
                    assert(all[i] == x);
                }
            }
        }
        k += 1;
    }
    proof {
        assert forall|x: usize| #[trigger] out@.contains(x) == all.contains(x) by {
            if all.contains(x) {
                let i = choose|i: int| 0 <= i < all.len() && all[i] == x;
                assert(all[i] == x);
            }
            if out@.contains(x) {
                let i = choose|i: int| 0 <= i < k && #[trigger] all[i] == x;
                assert(all[i] == x);
            }
        }
    }
    out
}

/// No two units have one key.
pub open spec fn all_differ(canon: Seq<usize>) -> bool {
    forall|i: int| 0 <= i < canon.len() ==> #[trigger] canon[i] == i
}

/// The ascending list of what some units are taken for.
pub open spec fn is_redirected(l: Seq<usize>, m: Seq<usize>, canon: Seq<usize>) -> bool {
    crate::sets::rising(m) && forall|x: usize| #[trigger] m.contains(x) == taken_for(l, canon).contains(x)
}

/// The plan of a unit, with each unit that it names taken for the first one of its key.
pub open spec fn is_deduped(a: PlannedView, b: PlannedView, canon: Seq<usize>) -> bool {
    &&& b.own_run == match a.own_run {
        Some(r) => Some(canon[r as int]),
        None => None,
    }
    &&& is_redirected(a.to_link, b.to_link, canon)
    &&& is_redirected(a.lib_reqs, b.lib_reqs, canon)
    &&& b == (PlannedView { own_run: b.own_run, to_link: b.to_link, lib_reqs: b.lib_reqs, ..a })
}

/// The graph with each unit taken for the first one of its key.
pub open spec fn deduped(g: GraphView, canon: Seq<usize>) -> GraphView {
    let a = aliased(canon, g);
    GraphView { roots: runs(a.roots, a.roots.len() as int), ..a }
}

/// What the plan names are units.
pub open spec fn names_units(p: Planned, n: nat) -> bool {
    &&& p.own_run matches Some(r) ==> r < n
    &&& all_in(p.to_link@, n)
    &&& all_in(p.lib_reqs@, n)
}

/// Same key, same work: everything points at the first copy. Nothing changes where no key repeats.
pub fn dedupe(graph: &mut UnitGraph, planned: &mut Vec<Planned>)
    requires
        old(graph)@.wf(),
        old(planned)@.len() == old(graph)@.units.len(),
        forall|i: int| 0 <= i < old(planned)@.len() ==> names_units(#[trigger] old(planned)@[i], old(planned)@.len()),
    ensures
        all_differ(canon_of(old(planned)@)) ==> *final(graph) == *old(graph) && *final(planned) == *old(planned),
        !all_differ(canon_of(old(planned)@)) ==> final(graph)@ == deduped(old(graph)@, canon_of(old(planned)@))
            && final(planned)@.len() == old(planned)@.len() && forall|i: int|
            0 <= i < final(planned)@.len() ==> is_deduped(old(planned)@[i]@, (#[trigger] final(planned)@[i])@, canon_of(old(planned)@)),
{
    let canon = canonical(planned);
    let n: usize = planned.len();
    let mut k: usize = 0;
    while k < canon.len() && canon[k] == k
        invariant
            k <= canon@.len(),
            forall|i: int| 0 <= i < k ==> #[trigger] canon@[i] == i,
        decreases canon@.len() - k,
    {
        k += 1;
    }
    if k == canon.len() {
        return;
    }
    assert(!all_differ(canon@)) by {
        assert(canon@[k as int] != k);
    }
    let all = apply_aliases(graph, &canon);
    let roots = collapse(&all.roots);
    *graph = UnitGraph { roots, ..all };
    let mut i: usize = 0;
    while i < n
        invariant
            i <= n == planned@.len(),
            n == canon@.len(),
            old(planned)@.len() == n,
            forall|j: int| 0 <= j < n ==> names_units(#[trigger] old(planned)@[j], n as nat),
            forall|j: int| i <= j < n ==> #[trigger] planned@[j] == old(planned)@[j],
            forall|j: int| 0 <= j < i ==> is_deduped(old(planned)@[j]@, (#[trigger] planned@[j])@, canon@),
        decreases n - i,
    {
        assert(planned@[i as int] == old(planned)@[i as int]);
        assert(names_units(old(planned)@[i as int], n as nat));
        let own_run: Option<usize> = match planned[i].own_run {
            Some(r) => Some(canon[r]),
            None => None,
        };
        let to_link = redirect(&planned[i].to_link, &canon);
        let lib_reqs = redirect(&planned[i].lib_reqs, &canon);
        let p = &mut planned[i];
        p.own_run = own_run;
        p.to_link = to_link;
        p.lib_reqs = lib_reqs;
        i += 1;
    }
}

// ---------------------------------------------------------------------------
// Where outputs end up.

/// What the name of an executable may end in.
pub open spec fn exe_end(rest: Seq<char>, exe_suffix: Seq<char>) -> bool {
    rest.len() == 0 || rest == exe_suffix || rest == ".exe"@ || rest == ".wasm"@
}

/// What an output is called where people look for it; nothing for what stays where it is.
pub open spec fn uplifted(name: Seq<char>, p: Planned, test: bool, exe_suffix: Seq<char>) -> Option<Seq<char>> {
    if ends(name, ".rmeta"@) || (test && ends(name, ".d"@)) {
        None
    } else if test {
        Some(name)
    } else {
        let bare = replaced(name, "-"@ + head_bytes(p.name@, 16), Seq::empty());
        match (p.bin_name, after_prefix(bare, p.crate_name@)) {
            (Some(b), Some(rest)) => if exe_end(rest, exe_suffix) {
                Some(b@ + rest)
            } else {
                Some(bare)
            },
            _ => Some(bare),
        }
    }
}

/// What an output is called where people look for it: without the digits of the unit, an executable by its own name.
pub fn uplift_name(name: &str, p: &Planned, test: bool, exe_suffix: &str) -> (r: Option<String>)
    requires
        cuts(p.name@, 16),
    ensures
        opt_view(r) == uplifted(name@, *p, test, exe_suffix@),
{
    if ends_with(name, ".rmeta") || (test && ends_with(name, ".d")) {
        return None;
    }
    if test {
        return Some(name.to_owned());
    }
    let suffix = cat("-", p.name16().as_str());
    proof {
        reveal_strlit("");
        reveal_strlit("-");
        assert(""@ =~= Seq::<char>::empty());
    }
    let bare = replace(name, suffix.as_str(), "");
    if let Some(b) = &p.bin_name {
        if let Some(rest) = strip_prefix(bare.as_str(), p.crate_name.as_str()) {
            if rest.is_empty() || same(rest, exe_suffix) || same(rest, ".exe") || same(rest, ".wasm") {
                return Some(cat(b.as_str(), rest));
            }
        }
    }
    Some(bare)
}

/// The unit is put where people look for it: what was asked for, every binary, and dynamic libraries; tests that were
/// asked for.
pub fn is_uplifted(mode: Mode, kind: TargetKind, crate_types: &Vec<String>, root: bool) -> (r: bool)
    ensures
        r == ((mode is Build && (root || kind is Bin || views(crate_types@).contains("dylib"@))) || (root && mode.tests())),
{
    let build: bool = mode == Mode::Build;
    let bin: bool = kind == TargetKind::Bin;
    (build && (root || bin || any_is(crate_types, "dylib"))) || (root && mode.is_test())
}

// ---------------------------------------------------------------------------
// What is said.

/// What is said of the warnings of a unit that is not compiled again.
pub fn replay_note(pkg: &str, descr: &str, warnings: usize) -> (r: Option<String>)
    ensures
        opt_view(r) == (if warnings == 0 {
            None
        } else {
            Some(
                "`"@ + pkg@ + "` "@ + descr@ + " generated "@ + dec(warnings as nat) + " warning"@ + (if warnings == 1 {
                    Seq::empty()
                } else {
                    "s"@
                }),
            )
        }),
{
    if warnings == 0 {
        return None;
    }
    proof {
        reveal_strlit("");
        assert(""@ =~= Seq::<char>::empty());
    }
    let head = cat5("`", pkg, "` ", descr, " generated ");
    let s: &str = if warnings == 1 {
        ""
    } else {
        "s"
    };
    Some(crate::text::cat4(head.as_str(), usize_text(warnings).as_str(), " warning", s))
}

/// How the profile is described once a build is done.
pub fn profile_note(opt_level: &str, debuginfo: bool) -> (r: String)
    ensures
        r@ == "["@ + (if opt_level@ == "0"@ {
            "unoptimized"@
        } else {
            "optimized"@
        }) + (if debuginfo {
            " + debuginfo"@
        } else {
            Seq::empty()
        }) + "]"@,
{
    proof {
        reveal_strlit("");
        assert(""@ =~= Seq::<char>::empty());
    }
    crate::text::cat4(
        "[",
        if same(opt_level, "0") {
            "unoptimized"
        } else {
            "optimized"
        },
        if debuginfo {
            " + debuginfo"
        } else {
            ""
        },
        "]",
    )
}

pub open spec fn mode_text(m: Mode) -> Seq<char> {
    match m {
        Mode::Build => "Build"@,
        Mode::Check => "Check"@,
        Mode::CheckTest => "CheckTest"@,
        Mode::Test => "Test"@,
        Mode::Bench => "Bench"@,
        Mode::Doc => "Doc"@,
        Mode::RunCustomBuild => "RunCustomBuild"@,
    }
}

/// What the time of a unit is kept under.
pub fn timing_label(p: &Pkg, target: &str, mode: Mode, kind: &str) -> (r: String)
    ensures
        r@ == p.name@ + "@"@ + version_text(p.version@) + " "@ + target@ + " "@ + mode_text(mode) + " "@ + kind@,
{
    let m: &str = match mode {
        Mode::Build => "Build",
        Mode::Check => "Check",
        Mode::CheckTest => "CheckTest",
        Mode::Test => "Test",
        Mode::Bench => "Bench",
        Mode::Doc => "Doc",
        Mode::RunCustomBuild => "RunCustomBuild",
    };
    let head = cat5(p.name.as_str(), "@", p.version.text().as_str(), " ", target);
    cat5(head.as_str(), " ", m, " ", kind)
}

} // verus!
