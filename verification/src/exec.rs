//! Running a unit, and moving its outputs into and out of the store: what to do, and what came of it.

use vstd::prelude::*;
use crate::build_script::BuildOutput;
use crate::build_script::LinkArgTarget;
use crate::build_script::LinkTargetView;
use crate::build_script::OutputView;
use crate::build_script::env_name;
use crate::cfgexpr::facts;
use crate::commands::Ctx;
use crate::commands::Planned;
use crate::commands::artifact_names;
use crate::commands::in_ctx;
use crate::commands::meta_name;
use crate::commands::type_files;
use crate::json::Json;
use crate::json::json_of;
use crate::json::member;
use crate::json::read_json;
use crate::json::text_in;
use crate::invocation::Invocation;
use crate::invocation::InvocationView;
use crate::invocation::Normalizer;
use crate::invocation::normal;
use crate::keys::Prediction;
use crate::keys::PredictionView;
use crate::manifest::Target;
use crate::manifest::TargetKind;
use crate::manifest::any_is;
use crate::num::dec;
use crate::num::usize_text;
use crate::order::before;
use crate::order::is_before;
use crate::path::absolute;
use crate::path::base_name;
use crate::path::file_name;
use crate::path::inside;
use crate::path::is_absolute;
use crate::path::join;
use crate::path::list_parts;
use crate::path::parent;
use crate::path::parts;
use crate::path::path_of;
use crate::path::relative;
use crate::path::starts_with;
use crate::path::strip_prefix as strip_path;
use crate::path::under;
use crate::path::up;
use crate::plan::target_of;
use crate::profile::dup_text;
use crate::shell::MessageFormat;
use crate::sort::in_order;
use crate::sort::sort;
use crate::store::Entry;
use crate::store::EnvInput;
use crate::store::ExtraInputs;
use crate::store::ExtraView;
use crate::store::FileInput;
use crate::store::InputView;
use crate::store::OutputFile;
use crate::strmap::StrSet;
use crate::text::head_bytes;
use crate::text::cuts;
use crate::text::after_prefix;
use crate::text::cat;
use crate::text::cat3;
use crate::text::cat4;
use crate::text::cat5;
use crate::text::contains;
use crate::text::ends;
use crate::text::ends_with;
use crate::text::holds;
use crate::text::join as join_texts;
use crate::text::joined;
use crate::text::lines;
use crate::text::lines_of;
use crate::text::opt_view;
use crate::text::replace;
use crate::text::replaced;
use crate::text::same;
use crate::text::same_opt;
use crate::text::starts;
use crate::text::strip_prefix;
use crate::text::swapped;
use crate::text::uppercase;
use crate::text::views;
use crate::unit::Mode;
use crate::unit::Unit;
use crate::unit::UnitDep;
use crate::version::version_text;
use crate::workspace::Pkg;

verus! {

pub const OUT_DIR_TOKEN: &'static str = "{OUT_DIR}";

/// One unit in `target/rb/.state/units.json` and in the store.
#[derive(Debug)]
pub struct Record {
    pub outputs: Vec<String>,
    pub inputs: ExtraInputs,
    /// Files of this package the unit read, relative to the package root. Next build, that's its identity.
    pub sources: Vec<String>,
    /// The script said `rerun-if-*`, so the rest of the package doesn't trigger a rerun.
    pub rerun_declared: bool,
    /// Build-script output with `{OUT_DIR}`, `{TARGET}`, `{WS}` still in it.
    pub payload: Option<BuildOutput>,
    pub diagnostics: Vec<String>,
}

#[derive(Clone, Copy, Debug, PartialEq, Eq, Structural)]
pub enum Signal {
    MetaReady,
}

#[derive(Debug)]
pub struct Outcome {
    pub record: Record,
    pub duration_ms: u64,
    /// Someone else finished it while we waited on the unit lock.
    pub restored: bool,
}

// ---------------------------------------------------------------------------
// Paths that a unit turned out to read.

/// The parts that are left of the first `k`, once each `..` took the one before it.
pub open spec fn cleaned(ps: Seq<Seq<char>>, k: int) -> Seq<Seq<char>>
    decreases k,
{
    if k <= 0 || k > ps.len() {
        Seq::empty()
    } else {
        let s = cleaned(ps, k - 1);
        if ps[k - 1] == ".."@ {
            if s.len() > 0 {
                s.drop_last()
            } else {
                s
            }
        } else if ps[k - 1] == "."@ {
            s
        } else {
            s.push(ps[k - 1])
        }
    }
}

/// The path without `.` and `..`, whatever lies there.
pub open spec fn clean(p: Seq<char>) -> Seq<char> {
    path_of(absolute(p), cleaned(parts(p), parts(p).len() as int))
}

pub fn lexical_clean(p: &str) -> (r: String)
    ensures
        r@ == clean(p@),
{
    let ps = list_parts(p);
    let ghost pv = parts(p@);
    let mut out: Vec<String> = Vec::new();
    let mut k: usize = 0;
    assert(views(out@) =~= Seq::<Seq<char>>::empty());
    while k < ps.len()
        invariant
            k <= ps@.len(),
            pv == views(ps@),
            views(out@) == cleaned(pv, k as int),
        decreases ps@.len() - k,
    {
        assert(pv[k as int] == ps@[k as int]@);
        let part = ps[k].as_str();
        let ghost was = out@;
        if same(part, "..") {
            if out.len() > 0 {
                out.pop();
                assert(views(out@) =~= views(was).drop_last());
            }
        } else if !same(part, ".") {
            out.push(part.to_owned());
            assert(views(out@) =~= views(was).push(part@));
        }
        k += 1;
    }
    let rest = join_texts(&out, "/");
    if is_absolute(p) {
        cat("/", rest.as_str())
    } else {
        cat("", rest.as_str())
    }
}

/// The path as seen from one of the roots, by its own name or by the one behind links.
pub open spec fn relative_at(p: Seq<char>, behind: Option<Seq<char>>, root: Seq<char>) -> Option<Seq<char>> {
    match relative(p, root) {
        Some(r) => Some(r),
        None => match behind {
            Some(c) => relative(c, root),
            None => None,
        },
    }
}

/// The first root from `k` on that the path lies below decides.
pub open spec fn relative_from(p: Seq<char>, behind: Option<Seq<char>>, roots: Seq<Seq<char>>, k: int) -> Option<Seq<char>>
    decreases roots.len() - k,
{
    if k < 0 || k >= roots.len() {
        None
    } else {
        match relative_at(p, behind, roots[k]) {
            Some(r) => Some(r),
            None => relative_from(p, behind, roots, k + 1),
        }
    }
}

pub fn relative_to(p: &str, behind: &Option<String>, roots: &Vec<String>) -> (r: Option<String>)
    ensures
        opt_view(r) == relative_from(p@, opt_view(*behind), views(roots@), 0),
{
    let ghost rv = views(roots@);
    let mut k: usize = 0;
    while k < roots.len()
        invariant
            k <= roots@.len(),
            rv == views(roots@),
            relative_from(p@, opt_view(*behind), rv, 0) == relative_from(p@, opt_view(*behind), rv, k as int),
        decreases roots@.len() - k,
    {
        assert(rv[k as int] == roots@[k as int]@);
        match strip_path(p, roots[k].as_str()) {
            Some(r) => {
                return Some(r);
            }
            None => {
                if let Some(c) = behind {
                    if let Some(r) = strip_path(c.as_str(), roots[k].as_str()) {
                        return Some(r);
                    }
                }
            }
        }
        k += 1;
    }
    None
}

/// The path lies below one of the roots, by its own name or by the one behind links.
pub open spec fn below_any(p: Seq<char>, behind: Option<Seq<char>>, roots: Seq<Seq<char>>) -> bool {
    exists|k: int|
        0 <= k < roots.len() && (inside(p, #[trigger] roots[k]) || (behind matches Some(c) && inside(c, roots[k])))
}

pub fn is_under(p: &str, behind: &Option<String>, roots: &Vec<String>) -> (r: bool)
    ensures
        r == below_any(p@, opt_view(*behind), views(roots@)),
{
    let ghost rv = views(roots@);
    let mut k: usize = 0;
    while k < roots.len()
        invariant
            k <= roots@.len(),
            rv == views(roots@),
            forall|j: int|
                0 <= j < k ==> !(inside(p@, #[trigger] rv[j]) || (opt_view(*behind) matches Some(c) && inside(c, rv[j]))),
        decreases roots@.len() - k,
    {
        assert(rv[k as int] == roots@[k as int]@);
        let other: bool = match behind {
            Some(c) => starts_with(c.as_str(), roots[k].as_str()),
            None => false,
        };
        if starts_with(p, roots[k].as_str()) || other {
            return true;
        }
        k += 1;
    }
    false
}

/// The directories, each behind its name beyond links where that differs.
pub open spec fn both_names(dirs: Seq<(Seq<char>, Option<Seq<char>>)>, k: int) -> Seq<Seq<char>>
    decreases k,
{
    if k <= 0 || k > dirs.len() {
        Seq::empty()
    } else {
        let s = both_names(dirs, k - 1);
        (match dirs[k - 1].1 {
            Some(c) => if c == dirs[k - 1].0 {
                s
            } else {
                s.push(c)
            },
            None => s,
        }).push(dirs[k - 1].0)
    }
}

pub fn with_canonical(dirs: &Vec<(String, Option<String>)>) -> (out: Vec<String>)
    ensures
        views(out@) == both_names(facts(dirs@), dirs@.len() as int),
{
    let ghost dv = facts(dirs@);
    let mut out: Vec<String> = Vec::new();
    let mut k: usize = 0;
    assert(views(out@) =~= Seq::<Seq<char>>::empty());
    while k < dirs.len()
        invariant
            k <= dirs@.len(),
            dv == facts(dirs@),
            views(out@) == both_names(dv, k as int),
        decreases dirs@.len() - k,
    {
        assert(dv[k as int] == (dirs@[k as int].0@, opt_view(dirs@[k as int].1)));
        let ghost was = out@;
        if let Some(c) = &dirs[k].1 {
            if !same(c.as_str(), dirs[k].0.as_str()) {
                out.push(c.clone());
                assert(views(out@) =~= views(was).push(c@));
            }
        }
        let ghost mid = out@;
        out.push(dirs[k].0.clone());
        assert(views(out@) =~= views(mid).push(dirs@[k as int].0@));
        k += 1;
    }
    out
}

/// A file that a unit read: its clean path, its name behind links, and its hash.
#[derive(Debug)]
pub struct Found {
    pub path: String,
    pub behind: Option<String>,
    pub hash: Option<String>,
}

/// What a file that a unit read is to it.
pub enum ReadView {
    /// The build made it.
    Made,
    /// A source of the package.
    Own(Seq<char>),
    /// Neither: it is checked on every lookup.
    Outside,
}

pub open spec fn read_as(f: Found, generated: Seq<Seq<char>>, pkg_roots: Seq<Seq<char>>) -> ReadView {
    let behind = opt_view(f.behind);
    if below_any(f.path@, behind, generated) {
        ReadView::Made
    } else {
        match relative_from(f.path@, behind, pkg_roots, 0) {
            Some(r) => ReadView::Own(r),
            None => ReadView::Outside,
        }
    }
}

/// The sources among the first `k` files.
pub open spec fn own_upto(fs: Seq<Found>, generated: Seq<Seq<char>>, pkg_roots: Seq<Seq<char>>, k: int) -> Seq<Seq<char>>
    decreases k,
{
    if k <= 0 || k > fs.len() {
        Seq::empty()
    } else {
        match read_as(fs[k - 1], generated, pkg_roots) {
            ReadView::Own(r) => own_upto(fs, generated, pkg_roots, k - 1).push(r),
            _ => own_upto(fs, generated, pkg_roots, k - 1),
        }
    }
}

/// The files from elsewhere among the first `k`, by their normalized names.
pub open spec fn outside_upto(
    rules: Seq<(Seq<char>, Seq<char>)>,
    fs: Seq<Found>,
    generated: Seq<Seq<char>>,
    pkg_roots: Seq<Seq<char>>,
    k: int,
) -> Seq<InputView>
    decreases k,
{
    if k <= 0 || k > fs.len() {
        Seq::empty()
    } else {
        match read_as(fs[k - 1], generated, pkg_roots) {
            ReadView::Outside => outside_upto(rules, fs, generated, pkg_roots, k - 1).push(
                (normal(rules, fs[k - 1].path@), opt_view(fs[k - 1].hash)),
            ),
            _ => outside_upto(rules, fs, generated, pkg_roots, k - 1),
        }
    }
}

/// How many of the inputs, from `k` on, come before that name or have it.
pub open spec fn name_rank(s: Seq<InputView>, name: Seq<char>, k: int) -> int
    decreases s.len() - k,
{
    if 0 <= k < s.len() && !before(name, s[k].0) {
        name_rank(s, name, k + 1)
    } else {
        k
    }
}

/// The first `k` inputs by name; those of one name keep their order.
pub open spec fn by_name(s: Seq<InputView>, k: int) -> Seq<InputView>
    decreases k,
{
    if k <= 0 || k > s.len() {
        Seq::empty()
    } else {
        let sorted = by_name(s, k - 1);
        sorted.insert(name_rank(sorted, s[k - 1].0, 0), s[k - 1])
    }
}

/// Each run of equal values once, of the first `k`.
pub open spec fn runs_of<A>(s: Seq<A>, k: int) -> Seq<A>
    decreases k,
{
    if k <= 0 || k > s.len() {
        Seq::empty()
    } else {
        let done = runs_of(s, k - 1);
        if done.len() > 0 && done.last() == s[k - 1] {
            done
        } else {
            done.push(s[k - 1])
        }
    }
}

/// The inputs by name, without repeats.
pub open spec fn tidy(s: Seq<InputView>) -> Seq<InputView> {
    let sorted = by_name(s, s.len() as int);
    runs_of(sorted, sorted.len() as int)
}

pub open spec fn tidy_texts(s: Seq<Seq<char>>) -> Seq<Seq<char>> {
    let sorted = in_order::<String>(s);
    runs_of(sorted, sorted.len() as int)
}

/// A name, and what was found under it.
struct Pair {
    name: String,
    value: Option<String>,
}

impl View for Pair {
    type V = InputView;

    closed spec fn view(&self) -> InputView {
        (self.name@, opt_view(self.value))
    }
}

proof fn lemma_name_rank(s: Seq<InputView>, name: Seq<char>, k: int)
    requires
        0 <= k <= s.len(),
    ensures
        k <= name_rank(s, name, k) <= s.len(),
    decreases s.len() - k,
{
    if k < s.len() && !before(name, s[k].0) {
        lemma_name_rank(s, name, k + 1);
    }
}

fn tidy_pairs(v: Vec<Pair>) -> (r: Vec<Pair>)
    ensures
        views(r@) == tidy(views(v@)),
{
    let ghost all = views(v@);
    let ghost exact = v@;
    let mut rest = v;
    let mut sorted: Vec<Pair> = Vec::new();
    let ghost mut done: int = 0;
    assert(exact.skip(0) =~= exact);
    assert(views(sorted@) =~= Seq::<InputView>::empty());
    while rest.len() > 0
        invariant
            0 <= done <= exact.len(),
            all == views(exact),
            rest@ == exact.skip(done),
            views(sorted@) == by_name(all, done),
        decreases rest@.len(),
    {
        let x = rest.remove(0);
        let ghost sv = views(sorted@);
        let ghost xv = x@;
        assert(x == exact[done]);
        assert(xv == all[done]);
        let mut p: usize = 0;
        while p < sorted.len() && !is_before(x.name.as_str(), sorted[p].name.as_str())
            invariant
                p <= sorted@.len(),
                sv == views(sorted@),
                xv == x@,
                name_rank(sv, xv.0, 0) == name_rank(sv, xv.0, p as int),
            decreases sorted@.len() - p,
        {
            assert(sv[p as int] == sorted@[p as int]@);
            p += 1;
        }
        proof {
            if p < sorted@.len() {
                assert(sv[p as int] == sorted@[p as int]@);
            }
        }
        sorted.insert(p, x);
        proof {
            assert(views(sorted@) =~= sv.insert(p as int, xv));
            assert(rest@ =~= exact.skip(done + 1));
            done = done + 1;
        }
    }
    let ghost order = views(sorted@);
    let ghost whole = sorted@;
    let mut r: Vec<Pair> = Vec::new();
    let ghost mut took: int = 0;
    assert(whole.skip(0) =~= whole);
    assert(views(r@) =~= Seq::<InputView>::empty());
    while sorted.len() > 0
        invariant
            0 <= took <= whole.len(),
            order == views(whole),
            sorted@ == whole.skip(took),
            views(r@) == runs_of(order, took),
        decreases sorted@.len(),
    {
        let x = sorted.remove(0);
        assert(x == whole[took]);
        assert(order[took] == x@);
        let repeats: bool = r.len() > 0 && same(r[r.len() - 1].name.as_str(), x.name.as_str()) && same_opt(
            &r[r.len() - 1].value,
            &x.value,
        );
        let ghost rv = views(r@);
        let ghost xv = x@;
        proof {
            if r@.len() > 0 {
                assert(rv.last() == r@[r@.len() - 1]@);
            }
            assert(repeats == (rv.len() > 0 && rv.last() == xv));
        }
        if !repeats {
            r.push(x);
            assert(views(r@) =~= rv.push(xv));
        }
        proof {
            assert(sorted@ =~= whole.skip(took + 1));
            took = took + 1;
        }
    }
    r
}

fn tidy_list(v: Vec<String>) -> (r: Vec<String>)
    ensures
        views(r@) == tidy_texts(views(v@)),
{
    let sorted = sort(v);
    let ghost order = views(sorted@);
    let mut r: Vec<String> = Vec::new();
    let mut k: usize = 0;
    assert(views(r@) =~= Seq::<Seq<char>>::empty());
    while k < sorted.len()
        invariant
            k <= sorted@.len(),
            order == views(sorted@),
            views(r@) == runs_of(order, k as int),
        decreases sorted@.len() - k,
    {
        assert(order[k as int] == sorted@[k as int]@);
        let ghost rv = views(r@);
        let repeats: bool = r.len() > 0 && same(r[r.len() - 1].as_str(), sorted[k].as_str());
        proof {
            if r@.len() > 0 {
                assert(rv.last() == r@[r@.len() - 1]@);
            }
        }
        if !repeats {
            r.push(sorted[k].clone());
            assert(views(r@) =~= rv.push(order[k as int]));
        }
        k += 1;
    }
    r
}

fn to_files(v: Vec<Pair>) -> (r: Vec<FileInput>)
    ensures
        views(r@) == views(v@),
{
    let mut r: Vec<FileInput> = Vec::new();
    while r.len() < v.len()
        invariant
            r@.len() <= v@.len(),
            forall|j: int| 0 <= j < r@.len() ==> (#[trigger] r@[j])@ == v@[j]@,
        decreases v@.len() - r@.len(),
    {
        let p = &v[r.len()];
        r.push(FileInput { path: p.name.clone(), hash: dup_text(&p.value) });
    }
    assert(views(r@) =~= views(v@));
    r
}

fn to_env(v: Vec<Pair>) -> (r: Vec<EnvInput>)
    ensures
        views(r@) == views(v@),
{
    let mut r: Vec<EnvInput> = Vec::new();
    while r.len() < v.len()
        invariant
            r@.len() <= v@.len(),
            forall|j: int| 0 <= j < r@.len() ==> (#[trigger] r@[j])@ == v@[j]@,
        decreases v@.len() - r@.len(),
    {
        let p = &v[r.len()];
        r.push(EnvInput { name: p.name.clone(), value: dup_text(&p.value) });
    }
    assert(views(r@) =~= views(v@));
    r
}

/// The variable follows from the unit itself.
pub open spec fn derived(name: Seq<char>, dynamic: Seq<Seq<char>>) -> bool {
    name == "CARGO_CRATE_NAME"@ || name == "CARGO_BIN_NAME"@ || name == "CARGO_PRIMARY_PACKAGE"@ || name == "OUT_DIR"@
        || name == "CARGO_MANIFEST_LINKS"@ || dynamic.contains(name)
}

/// The variable is an input of its own. The invocation hash already covers values it set; unhashed
/// package metadata is tracked if a crate reads it.
pub open spec fn env_counts(inv: InvocationView, name: Seq<char>, dynamic: Seq<Seq<char>>) -> bool {
    let hashed = inv.env.contains_key(name) && inv.env[name].1;
    let path_like = name == "CARGO_MANIFEST_DIR"@ || name == "CARGO_MANIFEST_PATH"@;
    !derived(name, dynamic) && !(hashed && !path_like)
}

pub open spec fn env_inputs(
    inv: InvocationView,
    env: Seq<(Seq<char>, Option<Seq<char>>)>,
    dynamic: Seq<Seq<char>>,
    k: int,
) -> Seq<InputView>
    decreases k,
{
    if k <= 0 || k > env.len() {
        Seq::empty()
    } else if env_counts(inv, env[k - 1].0, dynamic) {
        env_inputs(inv, env, dynamic, k - 1).push(env[k - 1])
    } else {
        env_inputs(inv, env, dynamic, k - 1)
    }
}

fn counts(inv: &Invocation, name: &str, dynamic: &Vec<String>) -> (r: bool)
    ensures
        r == env_counts(inv@, name@, views(dynamic@)),
{
    let known: bool = same(name, "CARGO_CRATE_NAME") || same(name, "CARGO_BIN_NAME") || same(
        name,
        "CARGO_PRIMARY_PACKAGE",
    ) || same(name, "OUT_DIR") || same(name, "CARGO_MANIFEST_LINKS") || any_is(dynamic, name);
    let hashed: bool = match inv.env.get(name) {
        Some(v) => v.1,
        None => false,
    };
    let path_like: bool = same(name, "CARGO_MANIFEST_DIR") || same(name, "CARGO_MANIFEST_PATH");
    !known && !(hashed && !path_like)
}

fn split_files(files: &Vec<Found>, generated: &Vec<String>, pkg_roots: &Vec<String>, norm: &Normalizer) -> (r: (
    Vec<Pair>,
    Vec<String>,
))
    ensures
        views(r.0@) == outside_upto(norm@, files@, views(generated@), views(pkg_roots@), files@.len() as int),
        views(r.1@) == own_upto(files@, views(generated@), views(pkg_roots@), files@.len() as int),
{
    let ghost gv = views(generated@);
    let ghost pv = views(pkg_roots@);
    let mut outside: Vec<Pair> = Vec::new();
    let mut own: Vec<String> = Vec::new();
    let mut k: usize = 0;
    assert(views(outside@) =~= Seq::<InputView>::empty());
    assert(views(own@) =~= Seq::<Seq<char>>::empty());
    while k < files.len()
        invariant
            k <= files@.len(),
            gv == views(generated@),
            pv == views(pkg_roots@),
            views(outside@) == outside_upto(norm@, files@, gv, pv, k as int),
            views(own@) == own_upto(files@, gv, pv, k as int),
        decreases files@.len() - k,
    {
        let f = &files[k];
        if !is_under(f.path.as_str(), &f.behind, generated) {
            match relative_to(f.path.as_str(), &f.behind, pkg_roots) {
                Some(rel) => {
                    let ghost was = own@;
                    let ghost rv = rel@;
                    own.push(rel);
                    assert(views(own@) =~= views(was).push(rv));
                }
                None => {
                    let ghost was = outside@;
                    let p = Pair { name: norm.apply(f.path.as_str()), value: dup_text(&f.hash) };
                    let ghost pview = p@;
                    outside.push(p);
                    assert(views(outside@) =~= views(was).push(pview));
                }
            }
        }
        k += 1;
    }
    (outside, own)
}

/// Outside the package: checked on every lookup. Inside: the unit's identity next build.
pub fn discovered_inputs(
    files: &Vec<Found>,
    env: &Vec<(String, Option<String>)>,
    inv: &Invocation,
    generated: &Vec<String>,
    pkg_roots: &Vec<String>,
    dynamic: &Vec<String>,
    norm: &Normalizer,
) -> (r: (ExtraInputs, Vec<String>))
    ensures
        r.0@.files == tidy(outside_upto(norm@, files@, views(generated@), views(pkg_roots@), files@.len() as int)),
        r.0@.env == tidy(env_inputs(inv@, facts(env@), views(dynamic@), env@.len() as int)),
        views(r.1@) == tidy_texts(own_upto(files@, views(generated@), views(pkg_roots@), files@.len() as int)),
{
    let (outside, own) = split_files(files, generated, pkg_roots, norm);
    let ghost ev = facts(env@);
    let mut vars: Vec<Pair> = Vec::new();
    let mut k: usize = 0;
    assert(views(vars@) =~= Seq::<InputView>::empty());
    while k < env.len()
        invariant
            k <= env@.len(),
            ev == facts(env@),
            views(vars@) == env_inputs(inv@, ev, views(dynamic@), k as int),
        decreases env@.len() - k,
    {
        assert(ev[k as int] == (env@[k as int].0@, opt_view(env@[k as int].1)));
        if counts(inv, env[k].0.as_str(), dynamic) {
            let ghost was = vars@;
            let p = Pair { name: env[k].0.clone(), value: dup_text(&env[k].1) };
            let ghost pview = p@;
            vars.push(p);
            assert(views(vars@) =~= views(was).push(pview));
        }
        k += 1;
    }
    let files = to_files(tidy_pairs(outside));
    let env = to_env(tidy_pairs(vars));
    (ExtraInputs { files, env }, tidy_list(own))
}

// ---------------------------------------------------------------------------
// Compiling

/// The link argument is meant for that target.
pub open spec fn arg_applies(which: LinkTargetView, t: Target, test: bool) -> bool {
    let cdylib = views(t.crate_types@).contains("cdylib"@);
    match which {
        LinkTargetView::All => t.executable() || cdylib || test,
        LinkTargetView::Bins => t.kind == TargetKind::Bin,
        LinkTargetView::Bin(b) => t.kind == TargetKind::Bin && b == t.name@,
        LinkTargetView::Cdylib => cdylib && !test,
        LinkTargetView::Tests => t.kind == TargetKind::Test,
        LinkTargetView::Examples => t.kind == TargetKind::Example,
        LinkTargetView::Benches => t.kind == TargetKind::Bench,
    }
}

fn applies(which: &LinkArgTarget, t: &Target, test: bool) -> (r: bool)
    ensures
        r == arg_applies(which@, *t, test),
{
    match which {
        LinkArgTarget::All => t.is_executable() || any_is(&t.crate_types, "cdylib") || test,
        LinkArgTarget::Bins => t.kind == TargetKind::Bin,
        LinkArgTarget::Bin(b) => t.kind == TargetKind::Bin && same(b.as_str(), t.name.as_str()),
        LinkArgTarget::Cdylib => any_is(&t.crate_types, "cdylib") && !test,
        LinkArgTarget::Tests => t.kind == TargetKind::Test,
        LinkArgTarget::Examples => t.kind == TargetKind::Example,
        LinkArgTarget::Benches => t.kind == TargetKind::Bench,
    }
}

/// The flag before each of the first `k` values. None of it counts: the script's own key does.
pub open spec fn quiet_upto(flag: Seq<char>, l: Seq<Seq<char>>, k: int) -> Seq<(Seq<char>, bool)>
    decreases k,
{
    if k <= 0 || k > l.len() {
        Seq::empty()
    } else {
        quiet_upto(flag, l, k - 1).push((flag, false)).push((l[k - 1], false))
    }
}

pub open spec fn quiet_each(flag: Seq<char>, l: Seq<Seq<char>>) -> Seq<(Seq<char>, bool)> {
    quiet_upto(flag, l, l.len() as int)
}

fn add_quiet(inv: &mut Invocation, on: bool, flag: &str, l: &Vec<String>)
    ensures
        final(inv)@ == if on {
            old(inv)@.adding(quiet_each(flag@, views(l@)))
        } else {
            old(inv)@
        },
{
    proof {
        reveal(InvocationView::adding);
    }
    if !on {
        return;
    }
    let ghost a = inv@;
    let ghost lv = views(l@);
    let mut k: usize = 0;
    assert(a.args + quiet_upto(flag@, lv, 0) =~= a.args);
    while k < l.len()
        invariant
            k <= l@.len(),
            lv == views(l@),
            inv@ == a.adding(quiet_upto(flag@, lv, k as int)),
        decreases l@.len() - k,
    {
        proof {
            reveal(InvocationView::adding);
        }
        assert(lv[k as int] == l@[k as int]@);
        inv.arg_unhashed(flag);
        inv.arg_unhashed(l[k].as_str());
        k += 1;
        assert(inv@.args =~= a.args + quiet_upto(flag@, lv, k as int));
    }
}

/// The link arguments of the first `k` that are meant for the target.
pub open spec fn link_args_upto(l: Seq<(LinkTargetView, Seq<char>)>, t: Target, test: bool, k: int) -> Seq<Seq<char>>
    decreases k,
{
    if k <= 0 || k > l.len() {
        Seq::empty()
    } else if arg_applies(l[k - 1].0, t, test) {
        link_args_upto(l, t, test, k - 1).push("link-arg="@ + l[k - 1].1)
    } else {
        link_args_upto(l, t, test, k - 1)
    }
}

fn list_link_args(l: &Vec<(LinkArgTarget, String)>, t: &Target, test: bool) -> (r: Vec<String>)
    ensures
        views(r@) == link_args_upto(views(l@), *t, test, l@.len() as int),
{
    let ghost lv = views(l@);
    let mut r: Vec<String> = Vec::new();
    let mut k: usize = 0;
    assert(views(r@) =~= Seq::<Seq<char>>::empty());
    while k < l.len()
        invariant
            k <= l@.len(),
            lv == views(l@),
            views(r@) == link_args_upto(lv, *t, test, k as int),
        decreases l@.len() - k,
    {
        assert(lv[k as int] == l@[k as int]@);
        if applies(&l[k].0, t, test) {
            let ghost was = r@;
            let a = cat("link-arg=", l[k].1.as_str());
            let ghost av = a@;
            r.push(a);
            assert(views(r@) =~= views(was).push(av));
        }
        k += 1;
    }
    r
}

/// What the package's own build script adds: cfgs and variables, and for what is linked its libraries and
/// arguments.
pub open spec fn with_script(
    iv: InvocationView,
    out: OutputView,
    t: Target,
    test: bool,
    doc: bool,
    has_lib: bool,
) -> InvocationView {
    let iv = iv.adding(quiet_each("--cfg"@, out.cfgs)).adding(quiet_each("--check-cfg"@, out.check_cfgs));
    let iv = crate::commands::with_all(iv, out.env, false);
    let iv = if (t.kind == TargetKind::Lib || !has_lib) && !doc {
        iv.adding(quiet_each("-l"@, out.link_libs))
    } else {
        iv
    };
    if doc {
        iv
    } else {
        iv.adding(quiet_each("-C"@, link_args_upto(out.link_args, t, test, out.link_args.len() as int)))
    }
}

fn add_script(inv: &mut Invocation, out: &BuildOutput, t: &Target, test: bool, doc: bool, has_lib: bool)
    ensures
        final(inv)@ == with_script(old(inv)@, out@, *t, test, doc, has_lib),
{
    add_quiet(inv, true, "--cfg", &out.cfgs);
    add_quiet(inv, true, "--check-cfg", &out.check_cfgs);
    crate::commands::set_all(inv, &out.env, false);
    add_quiet(inv, (t.kind == TargetKind::Lib || !has_lib) && !doc, "-l", &out.link_libs);
    let args = list_link_args(&out.link_args, t, test);
    add_quiet(inv, !doc, "-C", &args);
}

/// The search paths of the first `k` scripts that ran.
pub open spec fn searches_upto(outs: Seq<Option<BuildOutput>>, k: int) -> Seq<Seq<char>>
    decreases k,
{
    if k <= 0 || k > outs.len() {
        Seq::empty()
    } else {
        searches_upto(outs, k - 1) + match outs[k - 1] {
            Some(o) => o@.link_search,
            None => Seq::empty(),
        }
    }
}

pub(crate) fn list_searches(outs: &Vec<Option<BuildOutput>>) -> (r: Vec<String>)
    ensures
        views(r@) == searches_upto(outs@, outs@.len() as int),
{
    let mut r: Vec<String> = Vec::new();
    let mut k: usize = 0;
    assert(views(r@) =~= Seq::<Seq<char>>::empty());
    while k < outs.len()
        invariant
            k <= outs@.len(),
            views(r@) == searches_upto(outs@, k as int),
        decreases outs@.len() - k,
    {
        if let Some(o) = &outs[k] {
            r = crate::profile::join_lists(r, &o.link_search);
        }
        k += 1;
        assert(views(r@) =~= searches_upto(outs@, k as int));
    }
    r
}

/// The call that compiles a unit, once the build scripts it rests on have run.
pub open spec fn compile_call(
    iv: InvocationView,
    u: Unit,
    pkg: Pkg,
    own: Option<OutputView>,
    linked: Seq<Option<BuildOutput>>,
    threads: Option<usize>,
) -> InvocationView {
    let t = pkg.targets@[u.target as int];
    let doc = u.mode == Mode::Doc;
    let iv = match own {
        Some(out) => with_script(iv, out, t, u.mode.tests(), doc, pkg.lib_at().is_some()),
        None => iv,
    };
    let iv = if doc {
        iv
    } else {
        iv.adding(quiet_each("-L"@, searches_upto(linked, linked.len() as int)))
    };
    match threads {
        Some(n) => iv.adding(seq![("-Zthreads="@ + dec(n as nat), false)]),
        None => iv,
    }
}

/// Fills in what build scripts asked for. `own` is the output of the package's script, `linked` that of
/// those whose `-L` paths apply.
pub fn complete_call(
    inv: &mut Invocation,
    u: &Unit,
    pkg: &Pkg,
    own: Option<&BuildOutput>,
    linked: &Vec<Option<BuildOutput>>,
    threads: Option<usize>,
)
    requires
        u.target < pkg.targets@.len(),
    ensures
        final(inv)@ == compile_call(
            old(inv)@,
            *u,
            *pkg,
            match own {
                Some(o) => Some(o@),
                None => None,
            },
            linked@,
            threads,
        ),
{
    let t = &pkg.targets[u.target];
    let doc: bool = u.mode == Mode::Doc;
    if let Some(out) = own {
        add_script(inv, out, t, u.mode.is_test(), doc, pkg.lib().is_some());
    }
    let searches = list_searches(linked);
    add_quiet(inv, !doc, "-L", &searches);
    if let Some(n) = threads {
        inv.arg_unhashed(cat("-Zthreads=", usize_text(n).as_str()).as_str());
    }
}

/// What goes before a unit is compiled.
#[derive(Debug)]
pub enum Cleanup {
    /// rustdoc owns the shared doc tree.
    Nothing,
    Tree(String),
    Files(Vec<String>),
}

/// The paths of the files in the directory.
pub open spec fn all_in_dir(dir: Seq<char>, names: Seq<Seq<char>>) -> Seq<Seq<char>> {
    Seq::new(names.len(), |k: int| under(dir, names[k]))
}

/// What rustc writes for the unit.
pub open spec fn output_names(ctx: Ctx, u: Unit, p: Planned) -> Seq<Seq<char>> {
    let name16 = head_bytes(p.name@, 16);
    type_files(ctx.at(u.kind).info, p.inv@.args, p.crate_name@, name16, 0) + if p.emits_meta {
        seq![meta_name(p.crate_name@, name16)]
    } else {
        Seq::empty()
    }
}

fn list_outputs(ctx: &Ctx<'_>, u: &Unit, p: &Planned) -> (r: Vec<String>)
    requires
        in_ctx(*ctx, *u),
        cuts(p.name@, 16),
    ensures
        views(r@) == all_in_dir(p.out_dir@, output_names(*ctx, *u, *p)),
{
    let names = artifact_names(
        &ctx.kind(u.kind).info,
        &p.inv,
        p.crate_name.as_str(),
        p.name16().as_str(),
        p.emits_meta,
    );
    let ghost nv = output_names(*ctx, *u, *p);
    let mut r: Vec<String> = Vec::new();
    while r.len() < names.len()
        invariant
            r@.len() <= names@.len(),
            nv == views(names@),
            forall|k: int| 0 <= k < r@.len() ==> #[trigger] r@[k]@ == all_in_dir(p.out_dir@, nv)[k],
        decreases names@.len() - r@.len(),
    {
        let n = &names[r.len()];
        assert(nv[r@.len() as int] == n@);
        r.push(join(p.out_dir.as_str(), n.as_str()));
    }
    assert(views(r@) =~= all_in_dir(p.out_dir@, nv));
    r
}

/// Don't write through an inode the store might share. Known artifacts only: scanning a directory of
/// thousands of files for every unit would hold a job slot.
pub fn cleanup(ctx: &Ctx<'_>, u: &Unit, p: &Planned) -> (r: Cleanup)
    requires
        in_ctx(*ctx, *u),
        cuts(p.name@, 16),
    ensures
        match r {
            Cleanup::Nothing => u.mode == Mode::Doc,
            Cleanup::Tree(d) => u.mode != Mode::Doc && target_of(ctx.pkgs(), *u).kind == TargetKind::BuildScript && d@
                == p.out_dir@,
            Cleanup::Files(l) => u.mode != Mode::Doc && target_of(ctx.pkgs(), *u).kind != TargetKind::BuildScript
                && views(l@) == all_in_dir(p.out_dir@, output_names(*ctx, *u, *p)),
        },
{
    if u.mode == Mode::Doc {
        Cleanup::Nothing
    } else if ctx.ws.pkgs[u.pkg].targets[u.target].kind == TargetKind::BuildScript {
        Cleanup::Tree(p.out_dir.clone())
    } else {
        Cleanup::Files(list_outputs(ctx, u, p))
    }
}

/// The incremental directory among the arguments from `k` on.
pub open spec fn incremental_at(args: Seq<(Seq<char>, bool)>, k: int) -> Option<Seq<char>>
    decreases args.len() - k,
{
    if k < 0 || k >= args.len() {
        None
    } else {
        match after_prefix(args[k].0, "incremental="@) {
            Some(d) => Some(d),
            None => incremental_at(args, k + 1),
        }
    }
}

/// A variant's incremental directory, and where it is kept while nobody uses it.
#[derive(Debug)]
pub struct Archived {
    pub dir: String,
    pub pending: String,
    pub archive: String,
}

pub open spec fn archived(dir: Seq<char>, archive_name: Seq<char>) -> Option<(Seq<char>, Seq<char>)> {
    match (up(dir), base_name(dir)) {
        (Some(d), Some(n)) => match up(d) {
            Some(top) => Some(
                (under(under(top, archive_name), n + ".pending"@), under(under(top, archive_name), n + ".tar.zst"@)),
            ),
            None => None,
        },
        _ => None,
    }
}

/// A variant that comes back gets its archived incremental cache back.
pub fn incremental_archive(inv: &Invocation, archive_name: &str) -> (r: Option<Archived>)
    ensures
        match (incremental_at(inv@.args, 0), r) {
            (Some(d), Some(a)) => a.dir@ == d && archived(d, archive_name@) == Some((a.pending@, a.archive@)),
            (Some(d), None) => archived(d, archive_name@).is_none(),
            (None, r) => r.is_none(),
        },
{
    let mut k: usize = 0;
    while k < inv.args.len()
        invariant
            k <= inv.args@.len(),
            incremental_at(inv@.args, 0) == incremental_at(inv@.args, k as int),
        decreases inv.args@.len() - k,
    {
        assert(inv@.args[k as int] == inv.args@[k as int]@);
        if let Some(dir) = strip_prefix(inv.args[k].0.as_str(), "incremental=") {
            let name = match file_name(dir) {
                Some(n) => n,
                None => return None,
            };
            let holder = match parent(dir) {
                Some(d) => d,
                None => return None,
            };
            let top = match parent(holder.as_str()) {
                Some(d) => d,
                None => return None,
            };
            let place = join(top.as_str(), archive_name);
            return Some(
                Archived {
                    dir: dir.to_owned(),
                    pending: join(place.as_str(), cat(name.as_str(), ".pending").as_str()),
                    archive: join(place.as_str(), cat(name.as_str(), ".tar.zst").as_str()),
                },
            );
        }
        k += 1;
    }
    None
}

/// A line of rustc's.
#[derive(Debug)]
pub enum Message {
    /// Not JSON.
    Text(String),
    /// Something was written: `metadata`, `link` and the like.
    Artifact(String),
    Diagnostic { level: String, message: String, rendered: Option<String> },
    Other,
}

/// What a line of rustc's stands for: a message where it is JSON, else plain text.
pub open spec fn says(line: Seq<char>, m: Message) -> bool {
    match json_of(line) {
        None => m matches Message::Text(t) && t@ == line,
        Some(j) => {
            let kind = text_in(member(j, "$message_type"@));
            if kind == Some("artifact"@) {
                m matches Message::Artifact(e) && e@ == or_nothing(text_in(member(j, "emit"@)))
            } else if kind == Some("diagnostic"@) {
                m matches Message::Diagnostic { level, message, rendered } && level@ == or_nothing(
                    text_in(member(j, "level"@)),
                ) && message@ == or_nothing(text_in(member(j, "message"@))) && opt_view(rendered) == text_in(
                    member(j, "rendered"@),
                )
            } else {
                m is Other
            }
        },
    }
}

pub open spec fn or_nothing(o: Option<Seq<char>>) -> Seq<char> {
    match o {
        Some(s) => s,
        None => Seq::empty(),
    }
}

fn text_field(j: &Json, key: &str) -> (r: Option<String>)
    ensures
        opt_view(r) == text_in(member(j@, key@)),
{
    match j.get(key) {
        Some(Json::Str(s)) => Some(s.clone()),
        _ => None,
    }
}

fn filled(o: Option<String>) -> (r: String)
    ensures
        r@ == or_nothing(opt_view(o)),
{
    match o {
        Some(s) => s,
        None => {
            proof {
                reveal_strlit("");
                assert(""@ =~= Seq::<char>::empty());
            }
            "".to_owned()
        },
    }
}

/// Reads a line of rustc's.
pub fn read_message(line: &str) -> (r: Message)
    ensures
        says(line@, r),
{
    match read_json(line) {
        None => Message::Text(line.to_owned()),
        Some(j) => match text_field(&j, "$message_type") {
            None => Message::Other,
            Some(kind) => {
                proof {
                    reveal_strlit("artifact");
                    reveal_strlit("diagnostic");
                    assert("artifact"@.len() != "diagnostic"@.len());
                }
                if same(kind.as_str(), "artifact") {
                    Message::Artifact(filled(text_field(&j, "emit")))
                } else if same(kind.as_str(), "diagnostic") {
                    Message::Diagnostic {
                        level: filled(text_field(&j, "level")),
                        message: filled(text_field(&j, "message")),
                        rendered: text_field(&j, "rendered"),
                    }
                } else {
                    Message::Other
                }
            },
        },
    }
}

/// What to do about a line.
#[derive(Debug)]
pub struct Reaction {
    /// Dependents may start.
    pub meta_ready: bool,
    /// The message goes out as JSON.
    pub forward: bool,
    /// Text for people.
    pub show: Option<String>,
}

/// What rustc said so far.
#[derive(Debug)]
pub struct Heard {
    pub warnings: usize,
    pub errors: usize,
    pub diagnostics: Vec<String>,
}

/// A diagnostic that only counts others.
pub open spec fn sums_up(message: Seq<char>) -> bool {
    starts(message, "aborting due to"@) || ends(message, "warning emitted"@) || ends(message, "warnings emitted"@)
}

pub open spec fn reacts(m: Message, f: MessageFormat, r: Reaction) -> bool {
    match m {
        Message::Text(t) => !r.meta_ready && !r.forward && opt_view(r.show) == Some(t@),
        Message::Artifact(e) => r.meta_ready == (e@ == "metadata"@) && !r.forward && r.show.is_none(),
        Message::Diagnostic { level, message, rendered } => !r.meta_ready && r.forward == (!sums_up(message@)
            && f is Json) && opt_view(r.show) == if !sums_up(message@) && f.renders() {
            opt_view(rendered)
        } else {
            None
        },
        Message::Other => !r.meta_ready && !r.forward && r.show.is_none(),
    }
}

pub open spec fn noted(was: Heard, m: Message, f: MessageFormat, local: bool, now: Heard) -> bool {
    match m {
        Message::Diagnostic { level, message, rendered } => if sums_up(message@) {
            now.warnings == was.warnings && now.errors == was.errors && now.diagnostics@ == was.diagnostics@
        } else {
            now.warnings == was.warnings + (if level@ == "warning"@ {
                1int
            } else {
                0
            }) && now.errors == was.errors + (if level@ == "error"@ {
                1int
            } else {
                0
            }) && views(now.diagnostics@) == if local && level@ == "warning"@ && f.renders() && rendered.is_some() {
                views(was.diagnostics@).push(rendered.unwrap()@)
            } else {
                views(was.diagnostics@)
            }
        },
        _ => now.warnings == was.warnings && now.errors == was.errors && now.diagnostics@ == was.diagnostics@,
    }
}

impl Heard {
    pub fn new() -> (r: Heard)
        ensures
            r.warnings == 0,
            r.errors == 0,
            r.diagnostics@.len() == 0,
    {
        Heard { warnings: 0, errors: 0, diagnostics: Vec::new() }
    }

    /// Takes in a line.
    pub fn hear(&mut self, m: &Message, format: MessageFormat, local: bool) -> (r: Reaction)
        requires
            old(self).warnings < usize::MAX,
            old(self).errors < usize::MAX,
        ensures
            reacts(*m, format, r),
            noted(*old(self), *m, format, local, *final(self)),
    {
        match m {
            Message::Text(t) => Reaction { meta_ready: false, forward: false, show: Some(t.clone()) },
            Message::Artifact(e) => Reaction {
                meta_ready: same(e.as_str(), "metadata"),
                forward: false,
                show: None,
            },
            Message::Diagnostic { level, message, rendered } => {
                let text = message.as_str();
                if crate::text::starts_with(text, "aborting due to") || ends_with(text, "warning emitted") || ends_with(
                    text,
                    "warnings emitted",
                ) {
                    return Reaction { meta_ready: false, forward: false, show: None };
                }
                proof {
                    reveal_strlit("warning");
                    reveal_strlit("error");
                    assert("warning"@.len() != "error"@.len());
                }
                let warning: bool = same(level.as_str(), "warning");
                if warning {
                    self.warnings = self.warnings + 1;
                } else if same(level.as_str(), "error") {
                    self.errors = self.errors + 1;
                }
                let mut show: Option<String> = None;
                if format.render() {
                    if let Some(s) = rendered {
                        if local && warning {
                            let ghost was = self.diagnostics@;
                            self.diagnostics.push(s.clone());
                            assert(views(self.diagnostics@) =~= views(was).push(s@));
                        }
                        show = Some(s.clone());
                    }
                }
                Reaction { meta_ready: false, forward: format.is_json(), show }
            },
            Message::Other => Reaction { meta_ready: false, forward: false, show: None },
        }
    }
}

/// A unit, as messages name it.
pub open spec fn short_of(pkg: Pkg, p: Planned) -> Seq<char> {
    match opt_view(p.bin_name) {
        Some(b) => "`"@ + pkg.name@ + "` (bin \""@ + b + "\")"@,
        None => "`"@ + pkg.name@ + "` "@ + p.descr@,
    }
}

pub fn short(pkg: &Pkg, p: &Planned) -> (r: String)
    ensures
        r@ == short_of(*pkg, *p),
{
    match &p.bin_name {
        Some(b) => cat5("`", pkg.name.as_str(), "` (bin \"", b.as_str(), "\")"),
        None => cat4("`", pkg.name.as_str(), "` ", p.descr),
    }
}

/// How many warnings a local unit had.
pub fn warning_summary(what: &str, warnings: usize, local: bool) -> (r: Option<String>)
    ensures
        opt_view(r) == if warnings > 0 && local {
            Some(
                what@ + " generated "@ + dec(warnings as nat) + " warning"@ + if warnings == 1 {
                    ""@
                } else {
                    "s"@
                },
            )
        } else {
            None
        },
{
    if warnings > 0 && local {
        let end: &str = if warnings == 1 {
            ""
        } else {
            "s"
        };
        Some(cat5(what, " generated ", usize_text(warnings).as_str(), " warning", end))
    } else {
        None
    }
}

/// Why a unit was not compiled.
pub fn compile_failure(what: &str, errors: usize) -> (r: String)
    ensures
        r@ == "could not compile "@ + what@ + if errors == 0 {
            ""@
        } else if errors == 1 {
            " due to 1 previous error"@
        } else {
            " due to "@ + dec(errors as nat) + " previous errors"@
        },
{
    let why: String = if errors == 0 {
        "".to_owned()
    } else if errors == 1 {
        " due to 1 previous error".to_owned()
    } else {
        cat3(" due to ", usize_text(errors).as_str(), " previous errors")
    };
    cat3("could not compile ", what, why.as_str())
}

/// Those of the first `k` paths that are there.
pub open spec fn existing(paths: Seq<Seq<char>>, there: Set<Seq<char>>, k: int) -> Seq<Seq<char>>
    decreases k,
{
    if k <= 0 || k > paths.len() {
        Seq::empty()
    } else if there.contains(paths[k - 1]) {
        existing(paths, there, k - 1).push(paths[k - 1])
    } else {
        existing(paths, there, k - 1)
    }
}

fn keep_existing(paths: &Vec<String>, there: &StrSet) -> (r: Vec<String>)
    ensures
        views(r@) == existing(views(paths@), there@, paths@.len() as int),
{
    let ghost pv = views(paths@);
    let mut r: Vec<String> = Vec::new();
    let mut k: usize = 0;
    assert(views(r@) =~= Seq::<Seq<char>>::empty());
    while k < paths.len()
        invariant
            k <= paths@.len(),
            pv == views(paths@),
            views(r@) == existing(pv, there@, k as int),
        decreases paths@.len() - k,
    {
        assert(pv[k as int] == paths@[k as int]@);
        if there.contains(paths[k].as_str()) {
            let ghost was = r@;
            r.push(paths[k].clone());
            assert(views(r@) =~= views(was).push(pv[k as int]));
        }
        k += 1;
    }
    r
}

/// What a compile call left behind: the index page of a crate's documentation, or the files that rustc
/// writes, by name.
pub open spec fn left_behind(ctx: Ctx, u: Unit, p: Planned, there: Set<Seq<char>>) -> Seq<Seq<char>> {
    if u.mode == Mode::Doc {
        existing(seq![under(under(p.out_dir@, p.crate_name@), "index.html"@)], there, 1)
    } else {
        let all = all_in_dir(p.out_dir@, output_names(ctx, u, p));
        in_order::<String>(existing(all, there, all.len() as int))
    }
}

/// The record of a unit that was compiled. `there` holds the files that exist.
pub fn compiled_record(ctx: &Ctx<'_>, u: &Unit, p: &Planned, there: &StrSet, diagnostics: Vec<String>) -> (r: Record)
    requires
        in_ctx(*ctx, *u),
        cuts(p.name@, 16),
    ensures
        views(r.outputs@) == left_behind(*ctx, *u, *p, there@),
        r.diagnostics@ == diagnostics@,
        r.inputs@ == (ExtraView { files: Seq::empty(), env: Seq::empty() }),
        r.sources@.len() == 0,
        !r.rerun_declared,
        r.payload.is_none(),
{
    let outputs: Vec<String> = if u.mode == Mode::Doc {
        let index = join(join(p.out_dir.as_str(), p.crate_name.as_str()).as_str(), "index.html");
        let mut one: Vec<String> = Vec::new();
        let ghost iv = index@;
        one.push(index);
        assert(views(one@) =~= seq![iv]);
        keep_existing(&one, there)
    } else {
        sort(keep_existing(&list_outputs(ctx, u, p), there))
    };
    Record {
        outputs,
        inputs: ExtraInputs::new(),
        sources: Vec::new(),
        rerun_declared: false,
        payload: None,
        diagnostics,
    }
}

// ---------------------------------------------------------------------------
// Tokens in place of paths

/// The text with tokens in place of the directories that only this build has.
pub open spec fn tokenized(rules: Seq<(Seq<char>, Seq<char>)>, s: Seq<char>, out_dir: Option<Seq<char>>) -> Seq<char> {
    normal(
        rules,
        match out_dir {
            Some(o) => replaced(s, o, OUT_DIR_TOKEN@),
            None => s,
        },
    )
}

pub fn normalize(norm: &Normalizer, s: &str, out_dir: &str) -> (r: String)
    ensures
        r@ == tokenized(norm@, s@, Some(out_dir@)),
{
    norm.apply(replace(s, out_dir, OUT_DIR_TOKEN).as_str())
}

/// The text with directories in place of tokens.
pub open spec fn restored(ctx: Ctx, s: Seq<char>, out_dir: Option<Seq<char>>) -> Seq<char> {
    let s = crate::keys::expanded(ctx, s);
    match out_dir {
        Some(o) => replaced(s, OUT_DIR_TOKEN@, o),
        None => s,
    }
}

pub fn expand(ctx: &Ctx<'_>, s: &str, out_dir: Option<&str>) -> (r: String)
    ensures
        r@ == restored(*ctx, s@, crate::invocation::opt_text(out_dir)),
{
    let s = ctx.expand(s);
    proof {
        reveal_strlit("{OUT_DIR}");
    }
    match out_dir {
        Some(o) => replace(s.as_str(), OUT_DIR_TOKEN, o),
        None => s,
    }
}

/// Every value that may contain a path, mapped.
pub open spec fn mapped(o: OutputView, f: spec_fn(Seq<char>) -> Seq<char>) -> OutputView {
    OutputView {
        link_libs: o.link_libs.map_values(f),
        link_search: o.link_search.map_values(f),
        link_args: o.link_args.map_values(|a: (LinkTargetView, Seq<char>)| (a.0, f(a.1))),
        cfgs: o.cfgs,
        check_cfgs: o.check_cfgs,
        env: o.env.map_values(|a: (Seq<char>, Seq<char>)| (a.0, f(a.1))),
        metadata: o.metadata.map_values(|a: (Seq<char>, Seq<char>)| (a.0, f(a.1))),
        rerun_if_changed: o.rerun_if_changed.map_values(f),
        rerun_if_env_changed: o.rerun_if_env_changed,
        warnings: o.warnings,
        errors: o.errors,
    }
}

pub(crate) proof fn lemma_mapped<F: Fn(&str) -> String>(o: BuildOutput, r: BuildOutput, g: F, f: spec_fn(Seq<char>) -> Seq<char>)
    requires
        forall|s: &str, t: String| #[trigger] call_ensures(g, (s,), t) ==> t@ == f(s@),
        crate::build_script::all_made(g, o.link_libs@, r.link_libs@),
        crate::build_script::all_made(g, o.link_search@, r.link_search@),
        crate::build_script::seconds_made(g, o.link_args@, r.link_args@),
        r.cfgs@ == o.cfgs@,
        r.check_cfgs@ == o.check_cfgs@,
        crate::build_script::seconds_made(g, o.env@, r.env@),
        crate::build_script::seconds_made(g, o.metadata@, r.metadata@),
        crate::build_script::all_made(g, o.rerun_if_changed@, r.rerun_if_changed@),
        r.rerun_if_env_changed@ == o.rerun_if_env_changed@,
        r.warnings@ == o.warnings@,
        r.errors@ == o.errors@,
    ensures
        r@ == mapped(o@, f),
{
    reveal(InvocationView::setting);
    let m = mapped(o@, f);
    assert(r@.link_libs =~= m.link_libs);
    assert(r@.link_search =~= m.link_search);
    assert(r@.link_args =~= m.link_args);
    assert(r@.env =~= m.env);
    assert(r@.metadata =~= m.metadata);
    assert(r@.rerun_if_changed =~= m.rerun_if_changed);
}

/// A script's output as it is stored.
pub fn store_output(norm: &Normalizer, out: &BuildOutput, out_dir: &str) -> (r: BuildOutput)
    ensures
        r@ == mapped(out@, |s: Seq<char>| tokenized(norm@, s, Some(out_dir@))),
{
    let g = |s: &str| -> (t: String)
        ensures
            t@ == tokenized(norm@, s@, Some(out_dir@)),
        { normalize(norm, s, out_dir) };
    let r = out.map_strings(g);
    proof {
        lemma_mapped(*out, r, g, |s: Seq<char>| tokenized(norm@, s, Some(out_dir@)));
    }
    r
}

/// A script's output as this build reads it.
pub fn restore_output(ctx: &Ctx<'_>, out: &BuildOutput, out_dir: &str) -> (r: BuildOutput)
    ensures
        r@ == mapped(out@, |s: Seq<char>| restored(*ctx, s, Some(out_dir@))),
{
    let g = |s: &str| -> (t: String)
        ensures
            t@ == restored(*ctx, s@, Some(out_dir@)),
        { expand(ctx, s, Some(out_dir)) };
    let r = out.map_strings(g);
    proof {
        lemma_mapped(*out, r, g, |s: Seq<char>| restored(*ctx, s, Some(out_dir@)));
    }
    r
}

/// What stands before a text changes nothing behind it.
pub(crate) proof fn lemma_replaced_shift(a: Seq<char>, b: Seq<char>, p: Seq<char>, by: Seq<char>, k: int)
    requires
        0 <= k <= b.len(),
        p.len() > 0,
    ensures
        crate::text::replaced_from(a + b, p, by, a.len() + k) == crate::text::replaced_from(b, p, by, k),
    decreases b.len() - k,
{
    let s = a + b;
    let i = a.len() + k;
    if k < b.len() {
        let n = p.len() as int;
        if k + n <= b.len() {
            assert(s.subrange(i, i + n) =~= b.subrange(k, k + n));
        }
        assert(crate::text::occurs_at(s, p, i) == crate::text::occurs_at(b, p, k));
        if crate::text::occurs_at(b, p, k) {
            lemma_replaced_shift(a, b, p, by, k + n);
        } else {
            lemma_replaced_shift(a, b, p, by, k + 1);
            assert(s[i] == b[k]);
        }
    }
}

proof fn lemma_template(s: Seq<char>, p: Seq<char>, t: Seq<char>, i: int)
    requires
        0 <= i <= s.len(),
        p.len() > 0,
        t.len() > 0,
        !s.contains(t[0]),
    ensures
        replaced(crate::text::replaced_from(s, p, t, i), t, p) == s.skip(i),
    decreases s.len() - i,
{
    let r = crate::text::replaced_from(s, p, t, i);
    if i >= s.len() {
        assert(s.skip(i) =~= Seq::<char>::empty());
    } else if crate::text::occurs_at(s, p, i) {
        let rest = crate::text::replaced_from(s, p, t, i + p.len());
        lemma_template(s, p, t, i + p.len());
        assert(r == t + rest);
        assert(r.subrange(0, t.len() as int) =~= t);
        assert(crate::text::occurs_at(r, t, 0));
        lemma_replaced_shift(t, rest, t, p, 0);
        assert(replaced(r, t, p) == p + crate::text::replaced_from(r, t, p, t.len() as int));
        assert(s.subrange(i, i + p.len()) == p);
        assert(p + s.skip(i + p.len()) =~= s.skip(i));
    } else {
        let rest = crate::text::replaced_from(s, p, t, i + 1);
        lemma_template(s, p, t, i + 1);
        let c = seq![s[i]];
        assert(r == c + rest);
        assert(s.contains(s[i]));
        assert(!crate::text::occurs_at(r, t, 0)) by {
            if crate::text::occurs_at(r, t, 0) {
                assert(r.subrange(0, t.len() as int)[0] == r[0]);
            }
        }
        lemma_replaced_shift(c, rest, t, p, 0);
        assert(r[0] == s[i]);
        assert(c + s.skip(i + 1) =~= s.skip(i));
    }
}

/// A text that is stored with a token in place of a directory reads back as it was, unless it held the
/// token's first character.
pub proof fn law_templates_read_back(s: Seq<char>, dir: Seq<char>, token: Seq<char>)
    requires
        dir.len() > 0,
        token.len() > 0,
        !s.contains(token[0]),
    ensures
        replaced(replaced(s, dir, token), token, dir) == s,
{
    lemma_template(s, dir, token, 0);
    assert(s.skip(0) =~= s);
}

// ---------------------------------------------------------------------------
// Build scripts

/// The metadata of a script, as those that link the same library see it.
pub open spec fn dep_vars(links: Seq<char>, metadata: Seq<(Seq<char>, Seq<char>)>) -> Seq<(Seq<char>, Seq<char>)> {
    Seq::new(
        metadata.len(),
        |k: int|
            (
                "DEP_"@ + swapped(uppercase(links), '-', '_') + "_"@ + swapped(uppercase(metadata[k].0), '-', '_'),
                metadata[k].1,
            ),
    )
}

fn list_dep_vars(links: &str, metadata: &Vec<(String, String)>) -> (r: Vec<(String, String)>)
    ensures
        views(r@) == dep_vars(links@, views(metadata@)),
{
    let ghost all = dep_vars(links@, views(metadata@));
    let mut r: Vec<(String, String)> = Vec::new();
    while r.len() < metadata.len()
        invariant
            r@.len() <= metadata@.len(),
            all == dep_vars(links@, views(metadata@)),
            forall|k: int| 0 <= k < r@.len() ==> (#[trigger] r@[k])@ == all[k],
        decreases metadata@.len() - r@.len(),
    {
        let m = &metadata[r.len()];
        assert(views(metadata@)[r@.len() as int] == m@);
        let name = cat4("DEP_", env_name(links).as_str(), "_", env_name(m.0.as_str()).as_str());
        r.push((name, m.1.clone()));
    }
    assert(views(r@) =~= all);
    r
}

pub open spec fn links_of(p: Pkg) -> Seq<char> {
    match opt_view(p.links) {
        Some(l) => l,
        None => ""@,
    }
}

/// The variables of the first `k` dependencies that are runs of build scripts.
pub open spec fn with_deps(
    iv: InvocationView,
    pkgs: Seq<Pkg>,
    units: Seq<Unit>,
    deps: Seq<UnitDep>,
    outs: Seq<Option<BuildOutput>>,
    k: int,
) -> InvocationView
    decreases k,
{
    if k <= 0 || k > deps.len() {
        iv
    } else {
        let before = with_deps(iv, pkgs, units, deps, outs, k - 1);
        let d = deps[k - 1].unit as int;
        match outs[d] {
            Some(o) => if units[d].mode == Mode::RunCustomBuild {
                crate::commands::with_all(before, dep_vars(links_of(pkgs[units[d].pkg as int]), o@.metadata), false)
            } else {
                before
            },
            None => before,
        }
    }
}

/// Tells a build script what the scripts it rests on said. `outs` holds the output of each unit.
pub fn complete_script(
    inv: &mut Invocation,
    pkgs: &Vec<Pkg>,
    units: &Vec<Unit>,
    deps: &Vec<UnitDep>,
    outs: &Vec<Option<BuildOutput>>,
)
    requires
        outs@.len() == units@.len(),
        crate::plan::in_packages(pkgs@, units@),
        forall|k: int| 0 <= k < deps@.len() ==> (#[trigger] deps@[k]).unit < units@.len(),
    ensures
        final(inv)@ == with_deps(old(inv)@, pkgs@, units@, deps@, outs@, deps@.len() as int),
{
    let mut k: usize = 0;
    while k < deps.len()
        invariant
            k <= deps@.len(),
            outs@.len() == units@.len(),
            crate::plan::in_packages(pkgs@, units@),
            forall|k: int| 0 <= k < deps@.len() ==> (#[trigger] deps@[k]).unit < units@.len(),
            inv@ == with_deps(old(inv)@, pkgs@, units@, deps@, outs@, k as int),
        decreases deps@.len() - k,
    {
        let d: usize = deps[k].unit;
        assert(deps@[k as int].unit < units@.len());
        if units[d].mode == Mode::RunCustomBuild {
            if let Some(o) = &outs[d] {
                let links: &str = match &pkgs[units[d].pkg].links {
                    Some(l) => l.as_str(),
                    None => "",
                };
                let vars = list_dep_vars(links, &o.metadata);
                crate::commands::set_all(inv, &vars, false);
            }
        }
        k += 1;
    }
}

pub open spec fn indented(s: Seq<char>) -> Seq<char> {
    let ls = lines_of(s);
    joined(Seq::new(ls.len(), |k: int| "  "@ + ls[k]), "\n"@)
}

pub fn indent(s: &str) -> (r: String)
    ensures
        r@ == indented(s@),
{
    let ls = lines(s);
    let ghost all = lines_of(s@);
    let ghost want = Seq::new(all.len(), |k: int| "  "@ + all[k]);
    let mut out: Vec<String> = Vec::new();
    while out.len() < ls.len()
        invariant
            out@.len() <= ls@.len(),
            all == views(ls@),
            want == Seq::new(all.len(), |k: int| "  "@ + all[k]),
            forall|k: int| 0 <= k < out@.len() ==> #[trigger] out@[k]@ == want[k],
        decreases ls@.len() - out@.len(),
    {
        out.push(cat("  ", ls[out.len()].as_str()));
    }
    assert(views(out@) =~= want);
    join_texts(&out, "\n")
}

/// The errors that the script reported, the first `k`.
pub open spec fn error_lines(errors: Seq<Seq<char>>, k: int) -> Seq<char>
    decreases k,
{
    if k <= 0 || k > errors.len() {
        ""@
    } else {
        error_lines(errors, k - 1) + "\n  error: "@ + errors[k - 1]
    }
}

/// Why a build script counts as failed.
pub open spec fn script_report(
    pkg: Pkg,
    program: Seq<char>,
    status: Seq<char>,
    errors: Seq<Seq<char>>,
    stdout: Seq<char>,
    stderr: Seq<char>,
) -> Seq<char> {
    "failed to run custom build command for `"@ + pkg.shown() + "`\n\nCaused by:\n  process didn't exit successfully: `"@
        + program + "` ("@ + status + ")"@ + error_lines(errors, errors.len() as int) + "\n  --- stdout\n"@ + indented(
        stdout,
    ) + "\n  --- stderr\n"@ + indented(stderr)
}

/// The message of a build script that failed; none where it ran and reported no error.
pub fn script_failure(
    pkg: &Pkg,
    program: &str,
    success: bool,
    status: &str,
    out: &BuildOutput,
    stdout: &str,
    stderr: &str,
) -> (r: Option<String>)
    ensures
        opt_view(r) == if success && out.errors@.len() == 0 {
            None
        } else {
            Some(script_report(*pkg, program@, status@, out@.errors, stdout@, stderr@))
        },
{
    if success && out.errors.len() == 0 {
        return None;
    }
    let mut m = cat5(
        "failed to run custom build command for `",
        pkg.display().as_str(),
        "`\n\nCaused by:\n  process didn't exit successfully: `",
        program,
        "` (",
    );
    m.append(status);
    m.append(")");
    let ghost head = m@;
    let ghost es = out@.errors;
    let mut k: usize = 0;
    proof {
        reveal_strlit("");
        assert(head + ""@ =~= head);
    }
    while k < out.errors.len()
        invariant
            k <= out.errors@.len(),
            es == views(out.errors@),
            m@ == head + error_lines(es, k as int),
        decreases out.errors@.len() - k,
    {
        assert(es[k as int] == out.errors@[k as int]@);
        m.append("\n  error: ");
        m.append(out.errors[k].as_str());
        k += 1;
        assert(m@ =~= head + error_lines(es, k as int));
    }
    m.append("\n  --- stdout\n");
    m.append(indent(stdout).as_str());
    m.append("\n  --- stderr\n");
    m.append(indent(stderr).as_str());
    Some(m)
}

/// Warnings of a build script, as they are shown.
pub open spec fn script_warnings(pkg: Pkg, warnings: Seq<Seq<char>>) -> Seq<Seq<char>> {
    Seq::new(warnings.len(), |k: int| pkg.name@ + "@"@ + version_text(pkg.version@) + ": "@ + warnings[k])
}

pub fn show_warnings(pkg: &Pkg, warnings: &Vec<String>) -> (r: Vec<String>)
    ensures
        views(r@) == script_warnings(*pkg, views(warnings@)),
{
    let ghost all = script_warnings(*pkg, views(warnings@));
    let mut r: Vec<String> = Vec::new();
    while r.len() < warnings.len()
        invariant
            r@.len() <= warnings@.len(),
            all == script_warnings(*pkg, views(warnings@)),
            forall|k: int| 0 <= k < r@.len() ==> #[trigger] r@[k]@ == all[k],
        decreases warnings@.len() - r@.len(),
    {
        let w = &warnings[r.len()];
        assert(views(warnings@)[r@.len() as int] == w@);
        r.push(cat5(pkg.name.as_str(), "@", pkg.version.text().as_str(), ": ", w.as_str()));
    }
    assert(views(r@) =~= all);
    r
}

/// The value of each variable that the script asked to be rerun for.
pub open spec fn rerun_env(inv: InvocationView, names: Seq<Seq<char>>, outside: Seq<Option<Seq<char>>>) -> Seq<InputView> {
    Seq::new(names.len(), |k: int| (names[k], crate::keys::current(inv, names[k], outside[k])))
}

fn list_rerun_env(inv: &Invocation, names: &Vec<String>, outside: &Vec<Option<String>>) -> (r: Vec<EnvInput>)
    requires
        outside@.len() == names@.len(),
    ensures
        views(r@) == rerun_env(inv@, views(names@), crate::keys::opt_views(outside@)),
{
    let ghost all = rerun_env(inv@, views(names@), crate::keys::opt_views(outside@));
    let mut r: Vec<EnvInput> = Vec::new();
    while r.len() < names.len()
        invariant
            r@.len() <= names@.len(),
            outside@.len() == names@.len(),
            all == rerun_env(inv@, views(names@), crate::keys::opt_views(outside@)),
            forall|k: int| 0 <= k < r@.len() ==> (#[trigger] r@[k])@ == all[k],
        decreases names@.len() - r@.len(),
    {
        let k: usize = r.len();
        assert(views(names@)[k as int] == names@[k as int]@);
        let value: Option<String> = match inv.get_env(names[k].as_str()) {
            Some(v) => Some(v.to_owned()),
            None => dup_text(&outside[k]),
        };
        r.push(EnvInput { name: names[k].clone(), value });
    }
    assert(views(r@) =~= all);
    r
}

/// The record of a build script that ran. `files` are the paths of its `rerun-if-changed` lines, `outside`
/// the values of its variables in the environment. Once a script says what it depends on, only that
/// triggers a rerun.
pub fn script_record(
    inv: &Invocation,
    out: &BuildOutput,
    files: &Vec<Found>,
    outside: &Vec<Option<String>>,
    generated: &Vec<String>,
    pkg_roots: &Vec<String>,
    norm: &Normalizer,
    out_dir: &str,
) -> (r: Record)
    requires
        outside@.len() == out.rerun_if_env_changed@.len(),
    ensures
        r.outputs@.len() == 0,
        r.inputs@.env == rerun_env(inv@, out@.rerun_if_env_changed, crate::keys::opt_views(outside@)),
        r.inputs@.files == outside_upto(norm@, files@, views(generated@), views(pkg_roots@), files@.len() as int),
        views(r.sources@) == tidy_texts(own_upto(files@, views(generated@), views(pkg_roots@), files@.len() as int)),
        r.rerun_declared == (out.rerun_if_changed@.len() > 0 || out.rerun_if_env_changed@.len() > 0),
        r.payload.is_some(),
        r.payload.unwrap()@ == mapped(out@, |s: Seq<char>| tokenized(norm@, s, Some(out_dir@))),
        r.diagnostics@.len() == 0,
{
    let (outside_files, own) = split_files(files, generated, pkg_roots, norm);
    let inputs = ExtraInputs {
        files: to_files(outside_files),
        env: list_rerun_env(inv, &out.rerun_if_env_changed, outside),
    };
    Record {
        outputs: Vec::new(),
        inputs,
        sources: tidy_list(own),
        rerun_declared: out.rerun_if_changed.len() > 0 || out.rerun_if_env_changed.len() > 0,
        payload: Some(store_output(norm, out, out_dir)),
        diagnostics: Vec::new(),
    }
}

// ---------------------------------------------------------------------------
// The store

pub open spec fn names_in(s: Seq<InputView>) -> Set<Seq<char>> {
    Set::new(|n: Seq<char>| exists|k: int| 0 <= k < s.len() && (#[trigger] s[k]).0 == n)
}

fn collect_files(v: &Vec<FileInput>) -> (r: StrSet)
    ensures
        r@ == names_in(views(v@)),
{
    let ghost vv = views(v@);
    let mut r = StrSet::new();
    let mut k: usize = 0;
    while k < v.len()
        invariant
            k <= v@.len(),
            vv == views(v@),
            forall|n: Seq<char>| #[trigger] r@.contains(n) == exists|j: int| 0 <= j < k && (#[trigger] vv[j]).0 == n,
        decreases v@.len() - k,
    {
        assert(vv[k as int] == v@[k as int]@);
        r.insert(v[k].path.as_str());
        k += 1;
    }
    assert(r@ =~= names_in(vv));
    r
}

fn collect_env(v: &Vec<EnvInput>) -> (r: StrSet)
    ensures
        r@ == names_in(views(v@)),
{
    let ghost vv = views(v@);
    let mut r = StrSet::new();
    let mut k: usize = 0;
    while k < v.len()
        invariant
            k <= v@.len(),
            vv == views(v@),
            forall|n: Seq<char>| #[trigger] r@.contains(n) == exists|j: int| 0 <= j < k && (#[trigger] vv[j]).0 == n,
        decreases v@.len() - k,
    {
        assert(vv[k as int] == v@[k as int]@);
        r.insert(v[k].name.as_str());
        k += 1;
    }
    assert(r@ =~= names_in(vv));
    r
}

fn collect_texts(v: &Vec<String>) -> (r: StrSet)
    ensures
        r@ == views(v@).to_set(),
{
    let ghost vv = views(v@);
    let mut r = StrSet::new();
    let mut k: usize = 0;
    while k < v.len()
        invariant
            k <= v@.len(),
            vv == views(v@),
            forall|n: Seq<char>| #[trigger] r@.contains(n) == exists|j: int| 0 <= j < k && #[trigger] vv[j] == n,
        decreases v@.len() - k,
    {
        assert(vv[k as int] == v@[k as int]@);
        r.insert(v[k].as_str());
        k += 1;
    }
    assert(r@ =~= vv.to_set());
    r
}

/// What to remember of a unit: always for a local package, else where it read more than its package.
pub fn prediction_of(record: &Record, local: bool) -> (r: Option<Prediction>)
    ensures
        match r {
            Some(p) => (local || record.inputs.files@.len() > 0 || record.inputs.env@.len() > 0) && p@ == (
            PredictionView {
                env: names_in(record.inputs@.env),
                files: names_in(record.inputs@.files),
                sources: views(record.sources@).to_set(),
                rerun_declared: Some(record.rerun_declared),
            }),
            None => !local && record.inputs.files@.len() == 0 && record.inputs.env@.len() == 0,
        },
{
    if !local && record.inputs.is_empty() {
        return None;
    }
    Some(
        Prediction {
            env: collect_env(&record.inputs.env),
            files: collect_files(&record.inputs.files),
            sources: collect_texts(&record.sources),
            rerun_declared: Some(record.rerun_declared),
        },
    )
}

/// Every variable has its value, and every file its hash. A file that could not be read does not hold.
pub open spec fn still_hold(
    inv: InvocationView,
    inputs: ExtraView,
    env: Seq<Option<Seq<char>>>,
    hashes: Seq<Option<Option<Seq<char>>>>,
) -> bool {
    &&& forall|k: int|
        0 <= k < inputs.env.len() ==> crate::keys::current(inv, (#[trigger] inputs.env[k]).0, env[k])
            == inputs.env[k].1
    &&& forall|k: int| 0 <= k < inputs.files.len() ==> hashes[k] == Some((#[trigger] inputs.files[k]).1)
}

pub open spec fn hash_views(l: Seq<Option<Option<String>>>) -> Seq<Option<Option<Seq<char>>>> {
    Seq::new(
        l.len(),
        |k: int|
            match l[k] {
                Some(h) => Some(opt_view(h)),
                None => None,
            },
    )
}

/// Whether the inputs of an entry are what they were. `env` holds the values in the environment, `hashes`
/// what the files hash to now.
pub fn inputs_hold(inv: &Invocation, inputs: &ExtraInputs, env: &Vec<Option<String>>, hashes: &Vec<Option<Option<String>>>) -> (r: bool)
    requires
        env@.len() == inputs.env@.len(),
        hashes@.len() == inputs.files@.len(),
    ensures
        r == still_hold(inv@, inputs@, crate::keys::opt_views(env@), hash_views(hashes@)),
{
    let ghost iv = inputs@;
    let ghost ev = crate::keys::opt_views(env@);
    let ghost hv = hash_views(hashes@);
    let mut k: usize = 0;
    while k < inputs.env.len()
        invariant
            k <= inputs.env@.len(),
            iv == inputs@,
            ev == crate::keys::opt_views(env@),
            env@.len() == inputs.env@.len(),
            forall|j: int| 0 <= j < k ==> crate::keys::current(inv@, (#[trigger] iv.env[j]).0, ev[j]) == iv.env[j].1,
        decreases inputs.env@.len() - k,
    {
        assert(iv.env[k as int] == inputs.env@[k as int]@);
        let now: Option<String> = match inv.get_env(inputs.env[k].name.as_str()) {
            Some(v) => Some(v.to_owned()),
            None => dup_text(&env[k]),
        };
        if !same_opt(&now, &inputs.env[k].value) {
            return false;
        }
        k += 1;
    }
    k = 0;
    while k < inputs.files.len()
        invariant
            k <= inputs.files@.len(),
            iv == inputs@,
            hv == hash_views(hashes@),
            hashes@.len() == inputs.files@.len(),
            forall|j: int| 0 <= j < k ==> hv[j] == Some((#[trigger] iv.files[j]).1),
        decreases inputs.files@.len() - k,
    {
        assert(iv.files[k as int] == inputs.files@[k as int]@);
        let same_hash: bool = match &hashes[k] {
            Some(h) => same_opt(h, &inputs.files[k].hash),
            None => false,
        };
        if !same_hash {
            return false;
        }
        k += 1;
    }
    true
}

/// All of an entry's blobs are in the store.
pub open spec fn complete(store: crate::store::StoreView, files: Set<Seq<char>>, e: Entry) -> bool {
    forall|k: int|
        0 <= k < e.outputs@.len() ==> files.contains(store.blob((#[trigger] e.outputs@[k]).blob@)) || files.contains(
            store.zst(e.outputs@[k].blob@),
        )
}

/// The first entry from `k` on that can be used.
pub open spec fn usable_from(
    store: crate::store::StoreView,
    files: Set<Seq<char>>,
    entries: Seq<Entry>,
    hold: Seq<bool>,
    k: int,
) -> Option<int>
    decreases entries.len() - k,
{
    if k < 0 || k >= entries.len() {
        None
    } else if complete(store, files, entries[k]) && hold[k] {
        Some(k)
    } else {
        usable_from(store, files, entries, hold, k + 1)
    }
}

fn is_complete(store: &crate::store::Store, files: &StrSet, e: &Entry) -> (r: bool)
    ensures
        r == complete(store@, files@, *e),
{
    let mut k: usize = 0;
    while k < e.outputs.len()
        invariant
            k <= e.outputs@.len(),
            forall|j: int|
                0 <= j < k ==> files@.contains(store@.blob((#[trigger] e.outputs@[j]).blob@)) || files@.contains(
                    store@.zst(e.outputs@[j].blob@),
                ),
        decreases e.outputs@.len() - k,
    {
        if !store.has_blob(e.outputs[k].blob.as_str(), files) {
            return false;
        }
        k += 1;
    }
    true
}

/// Whether a unit is kept in the store at all: where there is one, and nothing keeps the unit out of it.
pub fn uses_store(p: &Planned, enabled: bool) -> (r: bool)
    ensures
        r == (enabled && p.cacheable),
{
    enabled && p.cacheable
}

/// The entry that serves a unit: none where the unit is kept out of the store, else the first that can be used.
pub open spec fn served(
    p: Planned,
    enabled: bool,
    store: crate::store::StoreView,
    files: Set<Seq<char>>,
    entries: Seq<Entry>,
    hold: Seq<bool>,
) -> Option<int> {
    if enabled && p.cacheable {
        usable_from(store, files, entries, hold, 0)
    } else {
        None
    }
}

/// The entry of a manifest that serves a unit: the first whose blobs are there and whose inputs hold. A unit that is
/// kept out of the store has none. `hold` says for each entry whether its inputs do.
pub fn lookup(
    p: &Planned,
    enabled: bool,
    store: &crate::store::Store,
    files: &StrSet,
    entries: &Vec<Entry>,
    hold: &Vec<bool>,
) -> (r: Option<usize>)
    requires
        hold@.len() == entries@.len(),
    ensures
        match r {
            Some(i) => served(*p, enabled, store@, files@, entries@, hold@) == Some(i as int) && i < entries@.len(),
            None => served(*p, enabled, store@, files@, entries@, hold@).is_none(),
        },
{
    if !uses_store(p, enabled) {
        return None;
    }
    let mut k: usize = 0;
    while k < entries.len()
        invariant
            k <= entries@.len(),
            hold@.len() == entries@.len(),
            enabled && p.cacheable,
            usable_from(store@, files@, entries@, hold@, 0) == usable_from(store@, files@, entries@, hold@, k as int),
        decreases entries@.len() - k,
    {
        if is_complete(store, files, &entries[k]) && hold[k] {
            return Some(k);
        }
        k += 1;
    }
    None
}

/// The manifest of a unit once an entry is added to it.
pub open spec fn ingested(key: Seq<char>, known: Option<crate::store::UnitManifest>, entry: Entry, r: crate::store::UnitManifest) -> bool {
    match known {
        Some(m) => r.key == m.key && r.entries@ == crate::store::upserted(m.entries@, entry),
        None => r.key@ == key && r.entries@ == crate::store::upserted(Seq::empty(), entry),
    }
}

/// What the store writes down about a unit that was built: its manifest with the new entry, or nothing where the unit is
/// kept out of the store. `known` is the manifest that is there.
pub fn ingest(p: &Planned, enabled: bool, known: Option<crate::store::UnitManifest>, entry: Entry) -> (r: Option<crate::store::UnitManifest>)
    ensures
        match r {
            Some(m) => enabled && p.cacheable && ingested(p.key@, known, entry, m),
            None => !(enabled && p.cacheable),
        },
{
    if !uses_store(p, enabled) {
        return None;
    }
    let mut m = match known {
        Some(m) => m,
        None => crate::store::UnitManifest { key: p.key.clone(), entries: Vec::new() },
    };
    m.upsert(entry);
    Some(m)
}

/// What was stored is served: the entry that a build just added comes first, and serves the unit while its blobs are there
/// and its inputs hold.
pub proof fn law_what_was_stored_is_served(
    p: Planned,
    known: Option<crate::store::UnitManifest>,
    entry: Entry,
    m: crate::store::UnitManifest,
    store: crate::store::StoreView,
    files: Set<Seq<char>>,
    hold: Seq<bool>,
)
    requires
        p.cacheable,
        ingested(p.key@, known, entry, m),
        known matches Some(k) ==> (k.entries@.len() < crate::store::MAX_ENTRIES || forall|i: int|
            0 <= i < k.entries@.len() ==> (#[trigger] k.entries@[i]).last_used <= entry.last_used),
        complete(store, files, entry),
        hold.len() == m.entries@.len(),
        hold.len() > 0 ==> hold[0],
    ensures
        served(p, true, store, files, m.entries@, hold) == Some(0int),
        m.entries@[0] == entry,
{
    let s = match known {
        Some(k) => k.entries@,
        None => Seq::empty(),
    };
    crate::store::law_stored_entry_is_found(s, entry);
}

/// A unit that is kept out of the store is never served from it.
pub proof fn law_uncached_units_are_not_served(
    p: Planned,
    enabled: bool,
    store: crate::store::StoreView,
    files: Set<Seq<char>>,
    entries: Seq<Entry>,
    hold: Seq<bool>,
)
    requires
        !p.cacheable || !enabled,
    ensures
        served(p, enabled, store, files, entries, hold).is_none(),
{
}

/// A use is written down once an hour.
pub fn outdated(last_used: u64, now: u64) -> (r: bool)
    ensures
        r == (now - last_used > 3600),
{
    now > last_used && now - last_used > 3600
}

/// The last uses after an entry was used, the others, or all of them, being left alone.
pub open spec fn touched(was: Seq<Entry>, now_entries: Seq<Entry>, now: u64, only: Option<int>) -> bool {
    was.len() == now_entries.len() && forall|k: int|
        0 <= k < was.len() ==> #[trigger] now_entries[k] == if (only matches Some(i) ==> i == k) && now
            - was[k].last_used > 3600 {
            Entry { last_used: now, ..was[k] }
        } else {
            was[k]
        }
}

/// Notes that an entry, or every one, is used; whether anything has to be written. Fresh units skip the
/// lookup, so mark them used or the cap evicts daily deps before stale experiments.
pub fn touch(m: &mut crate::store::UnitManifest, now: u64, only: Option<usize>) -> (changed: bool)
    ensures
        touched(
            old(m).entries@,
            final(m).entries@,
            now,
            match only {
                Some(i) => Some(i as int),
                None => None,
            },
        ),
        final(m).key == old(m).key,
        changed == exists|k: int|
            0 <= k < old(m).entries@.len() && (only matches Some(i) ==> i == k) && now - (
            #[trigger] old(m).entries@[k]).last_used > 3600,
{
    let ghost was = m.entries@;
    let ghost want: Option<int> = match only {
        Some(i) => Some(i as int),
        None => None,
    };
    let mut changed: bool = false;
    let mut entries: Vec<Entry> = Vec::new();
    std::mem::swap(&mut entries, &mut m.entries);
    let n: usize = entries.len();
    let mut k: usize = 0;
    while k < n
        invariant
            k <= n,
            n == entries@.len() == was.len(),
            m.key == old(m).key,
            want == match only {
                Some(i) => Some(i as int),
                None => None::<int>,
            },
            forall|j: int| k <= j < n ==> #[trigger] entries@[j] == was[j],
            forall|j: int|
                0 <= j < k ==> #[trigger] entries@[j] == if (want matches Some(i) ==> i == j) && now - was[j].last_used
                    > 3600 {
                    Entry { last_used: now, ..was[j] }
                } else {
                    was[j]
                },
            changed == exists|j: int|
                0 <= j < k && (only matches Some(i) ==> i == j) && now - (#[trigger] was[j]).last_used > 3600,
        decreases n - k,
    {
        let meant: bool = match only {
            Some(i) => i == k,
            None => true,
        };
        assert(entries@[k as int] == was[k as int]);
        if meant && outdated(entries[k].last_used, now) {
            let mut e: Entry = entries.remove(k);
            e.last_used = now;
            entries.insert(k, e);
            changed = true;
        }
        k += 1;
    }
    m.entries = entries;
    changed
}

/// A generated text with tokens in place of its directory, under both of its names; none where it names
/// neither.
pub open spec fn templated(text: Seq<char>, base: Seq<char>, behind: Option<Seq<char>>) -> Option<Seq<char>> {
    if holds(text, base) || (behind matches Some(c) && holds(text, c)) {
        Some(
            replaced(
                match behind {
                    Some(c) => replaced(text, c, OUT_DIR_TOKEN@),
                    None => text,
                },
                base,
                OUT_DIR_TOKEN@,
            ),
        )
    } else {
        None
    }
}

/// Rewriting only works on text. A generator may also write the spelling of its directory behind links.
pub fn template(text: &str, base: &str, behind: Option<&str>) -> (r: Option<String>)
    ensures
        opt_view(r) == templated(text@, base@, crate::invocation::opt_text(behind)),
{
    let other: bool = match behind {
        Some(c) => contains(text, c),
        None => false,
    };
    if !contains(text, base) && !other {
        return None;
    }
    match behind {
        Some(c) => Some(replace(replace(text, c, OUT_DIR_TOKEN).as_str(), base, OUT_DIR_TOKEN)),
        None => Some(replace(text, base, OUT_DIR_TOKEN)),
    }
}

/// Big files aren't worth scanning.
pub fn worth_scanning(len: u64) -> (r: bool)
    ensures
        r == (len <= 0x200_0000),
{
    len <= 0x200_0000
}

/// Outputs this large are hashed after the build.
pub const DEFER_INGEST_BYTES: u64 = 0x80_0000;

/// Whether storing a unit's outputs waits until the build is over: they are large, or their size is not
/// known.
pub fn defer_ingest(cacheable: bool, mode: Mode, bytes: Option<u64>) -> (r: bool)
    ensures
        r == (cacheable && mode != Mode::RunCustomBuild && !(bytes matches Some(n) && n < DEFER_INGEST_BYTES)),
{
    let small: bool = match bytes {
        Some(n) => n < DEFER_INGEST_BYTES,
        None => false,
    };
    cacheable && mode != Mode::RunCustomBuild && !small
}

/// The directory that a unit's outputs lie in.
pub open spec fn output_base(mode: Mode, p: Planned) -> Seq<char> {
    if mode == Mode::RunCustomBuild {
        under(p.out_dir@, "out"@)
    } else {
        p.out_dir@
    }
}

pub fn base_dir(mode: Mode, p: &Planned) -> (r: String)
    ensures
        r@ == output_base(mode, *p),
{
    if mode == Mode::RunCustomBuild {
        p.out_dir_path()
    } else {
        p.out_dir.clone()
    }
}

/// Where the outputs of an entry go.
pub open spec fn destinations(base: Seq<char>, outputs: Seq<OutputFile>) -> Seq<Seq<char>> {
    Seq::new(outputs.len(), |k: int| under(base, outputs[k].name@))
}

pub fn list_destinations(base: &str, outputs: &Vec<OutputFile>) -> (r: Vec<String>)
    ensures
        views(r@) == destinations(base@, outputs@),
{
    let mut r: Vec<String> = Vec::new();
    while r.len() < outputs.len()
        invariant
            r@.len() <= outputs@.len(),
            forall|k: int| 0 <= k < r@.len() ==> #[trigger] r@[k]@ == destinations(base@, outputs@)[k],
        decreases outputs@.len() - r@.len(),
    {
        r.push(join(base, outputs[r.len()].name.as_str()));
    }
    assert(views(r@) =~= destinations(base@, outputs@));
    r
}

/// A stored text as it is written out.
pub fn fill_template(text: &str, base: &str) -> (r: String)
    ensures
        r@ == replaced(text@, OUT_DIR_TOKEN@, base@),
{
    proof {
        reveal_strlit("{OUT_DIR}");
    }
    replace(text, OUT_DIR_TOKEN, base)
}

/// The label of a unit's entry.
pub fn entry_label(pkg: &Pkg, descr: &str) -> (r: String)
    ensures
        r@ == pkg.shown() + " "@ + descr@,
{
    cat3(pkg.display().as_str(), " ", descr)
}

/// A new entry, used now.
pub fn new_entry(
    label: String,
    now: u64,
    duration_ms: u64,
    outputs: Vec<OutputFile>,
    dirs: Vec<String>,
    symlinks: Vec<(String, String)>,
    record: Record,
) -> (r: Entry)
    ensures
        r == (Entry {
            label,
            created: now,
            last_used: now,
            outputs,
            dirs,
            symlinks,
            inputs: record.inputs,
            payload: record.payload,
            diagnostics: record.diagnostics,
            duration_ms,
        }),
{
    Entry {
        label,
        created: now,
        last_used: now,
        outputs,
        dirs,
        symlinks,
        inputs: record.inputs,
        payload: record.payload,
        diagnostics: record.diagnostics,
        duration_ms,
    }
}

/// What a target is, as messages about it say.
pub open spec fn kind_name(t: Target) -> Seq<char> {
    if t.proc_macro() {
        "proc-macro"@
    } else {
        match t.kind {
            TargetKind::Lib => "lib"@,
            TargetKind::Bin => "bin"@,
            TargetKind::Example => "example"@,
            TargetKind::Test => "test"@,
            TargetKind::Bench => "bench"@,
            TargetKind::BuildScript => "custom-build"@,
        }
    }
}

pub fn target_kind(t: &Target) -> (r: &'static str)
    ensures
        r@ == kind_name(*t),
{
    if t.is_proc_macro() {
        return "proc-macro";
    }
    match t.kind {
        TargetKind::Lib => "lib",
        TargetKind::Bin => "bin",
        TargetKind::Example => "example",
        TargetKind::Test => "test",
        TargetKind::Bench => "bench",
        TargetKind::BuildScript => "custom-build",
    }
}

} // verus!
