//! Content-addressed keys. A key hashes the work, never the absolute path.

use vstd::prelude::*;
use vstd::utf8::encode_utf8;
use crate::commands::Ctx;
use crate::commands::PlanError;
use crate::commands::Planned;
use crate::commands::PlannedView;
use crate::commands::compile_plan;
use crate::commands::deps_planned;
use crate::commands::doc_plan;
use crate::commands::externs_upto;
use crate::commands::in_ctx;
use crate::commands::missing_extern;
use crate::commands::must_link;
use crate::commands::plan_compile;
use crate::commands::plan_doc;
use crate::commands::plan_run;
use crate::commands::run_plan;
use crate::commands::script_unit_at;
use crate::hash::add_bytes;
use crate::hash::add_text;
use crate::hash::blake3_key;
use crate::hash::blake3_of;
use crate::hash::derive_key;
use crate::hash::hash;
use crate::hash::hex_of;
use crate::hash::to_hex;
use crate::invocation::InvocationView;
use crate::invocation::SELF_NAME16;
use crate::invocation::first16;
use crate::invocation::hashed_data;
use crate::invocation::named;
use crate::invocation::named_args;
use crate::invocation::named_env;
use crate::invocation::normal;
use crate::json::Json;
use crate::json::JsonTree;
use crate::json::json_entries;
use crate::json::json_pretty;
use crate::json::json_trees;
use crate::json::write_pretty;
use crate::lints::Lints;
use crate::messages::no_fields;
use crate::messages::put_text;
use crate::num::dec;
use crate::num::usize_text;
use crate::path::inside;
use crate::path::join;
use crate::path::starts_with;
use crate::path::under;
use crate::plan::LtoMode;
use crate::plan::collect_lib_reqs;
use crate::plan::collect_to_link;
use crate::plan::deps_in_range;
use crate::plan::in_packages;
use crate::plan::links_lib;
use crate::plan::links_run;
use crate::sets::rising;
use crate::strmap::StrSet;
use crate::strmap::listed;
use crate::text::can_cut;
use crate::text::cat3;
use crate::text::cat5;
use crate::text::cat;
use crate::text::cuts;
use crate::text::head_bytes;
use crate::text::opt_view;
use crate::text::replace;
use crate::text::replaced;
use crate::text::views;
use crate::unit::CompileKind;
use crate::unit::Mode;
use crate::unit::Unit;
use crate::unit::UnitDep;
use crate::version::version_text;
use crate::workspace::Pkg;
use crate::workspace::Source;

verus! {

/// What a unit turned out to depend on.
/// Outside the package, the current values go into dependents' keys. Inside, they *are* the unit.
#[derive(Debug)]
pub struct Prediction {
    pub env: StrSet,
    pub files: StrSet,
    /// Package-relative. A directory means `rerun-if-changed` on that tree.
    pub sources: StrSet,
    /// Latest run said `rerun-if-*`, so the rest of the package no longer counts. Not a union.
    pub rerun_declared: Option<bool>,
}

pub struct PredictionView {
    pub env: Set<Seq<char>>,
    pub files: Set<Seq<char>>,
    pub sources: Set<Seq<char>>,
    pub rerun_declared: Option<bool>,
}

impl View for Prediction {
    type V = PredictionView;

    open spec fn view(&self) -> PredictionView {
        PredictionView {
            env: self.env@,
            files: self.files@,
            sources: self.sources@,
            rerun_declared: self.rerun_declared,
        }
    }
}

pub open spec fn no_prediction() -> PredictionView {
    PredictionView { env: Set::empty(), files: Set::empty(), sources: Set::empty(), rerun_declared: None }
}

/// The union; the later word on `rerun-if-*` counts.
pub open spec fn united(a: PredictionView, b: PredictionView) -> PredictionView {
    PredictionView {
        env: a.env.union(b.env),
        files: a.files.union(b.files),
        sources: a.sources.union(b.sources),
        rerun_declared: if b.rerun_declared.is_some() {
            b.rerun_declared
        } else {
            a.rerun_declared
        },
    }
}

fn unite(a: &StrSet, b: &StrSet) -> (r: StrSet)
    ensures
        r@ == a@.union(b@),
{
    let mut r = a.dup();
    let more = b.items();
    let ghost m = views(more@);
    let mut k: usize = 0;
    assert(a@.union(m.take(0).to_set()) =~= a@);
    while k < more.len()
        invariant
            k <= more@.len(),
            m == views(more@),
            r@ == a@.union(m.take(k as int).to_set()),
        decreases more@.len() - k,
    {
        r.insert(more[k].as_str());
        proof {
            let t = m.take(k + 1);
            assert(t =~= m.take(k as int).push(m[k as int]));
            assert(m[k as int] == more@[k as int]@);
            assert forall|x: Seq<char>| t.to_set().contains(x) == (m.take(k as int).to_set().contains(x) || x
                == m[k as int]) by {
                if m.take(k as int).contains(x) {
                    let j = choose|j: int| 0 <= j < k && m.take(k as int)[j] == x;
                    assert(t[j] == x);
                }
                assert(t[k as int] == m[k as int]);
            }
            assert(a@.union(t.to_set()) =~= a@.union(m.take(k as int).to_set()).insert(m[k as int]));
        }
        k += 1;
    }
    assert(m.take(m.len() as int) =~= m);
    r
}

/// Keyed by unit name, not by content key. The union across versions stays valid, and upstream changes
/// don't move it.
#[derive(Debug)]
pub struct Predictions {
    pub dir: String,
    /// Grew this build, so dependents' keys moved.
    pub grew: bool,
}

impl Predictions {
    pub fn new(dir: String) -> (r: Predictions)
        ensures
            r.dir@ == dir@,
            !r.grew,
    {
        Predictions { dir, grew: false }
    }

    pub fn changed(&self) -> (r: bool)
        ensures
            r == self.grew,
    {
        self.grew
    }

    /// Where a unit's prediction lies.
    pub fn path(&self, name: &str) -> (r: String)
        requires
            cuts(name@, 2),
        ensures
            r@ == under(under(self.dir@, head_bytes(name@, 2)), name@ + ".json"@),
    {
        let head = crate::text::head_of(name, 2);
        join(join(self.dir.as_str(), head.as_str()).as_str(), cat(name, ".json").as_str())
    }

    /// What a unit turned out to need, added to what was known; what to write, if that changed.
    pub fn record(&mut self, known: Option<&Prediction>, add: &Prediction) -> (r: Option<Prediction>)
        ensures
            ({
                let was = match known {
                    Some(p) => p@,
                    None => no_prediction(),
                };
                let now = united(was, add@);
                if now == was {
                    r.is_none() && *final(self) == *old(self)
                } else {
                    opt_view(r) == Some(now) && final(self).dir == old(self).dir && final(self).grew
                }
            }),
    {
        let none = Prediction { env: StrSet::new(), files: StrSet::new(), sources: StrSet::new(), rerun_declared: None };
        let was: &Prediction = match known {
            Some(p) => p,
            None => &none,
        };
        let now = Prediction {
            env: unite(&was.env, &add.env),
            files: unite(&was.files, &add.files),
            sources: unite(&was.sources, &add.sources),
            rerun_declared: if add.rerun_declared.is_some() {
                add.rerun_declared
            } else {
                was.rerun_declared
            },
        };
        if now.env.same_as(&was.env) && now.files.same_as(&was.files) && now.sources.same_as(&was.sources)
            && same_word(now.rerun_declared, was.rerun_declared) {
            return None;
        }
        self.grew = true;
        Some(now)
    }
}

fn same_word(a: Option<bool>, b: Option<bool>) -> (r: bool)
    ensures
        r == (a == b),
{
    match (a, b) {
        (Some(x), Some(y)) => x == y,
        (None, None) => true,
        _ => false,
    }
}

/// A prediction only grows.
pub proof fn law_predictions_grow(a: PredictionView, b: PredictionView)
    ensures
        a.env.subset_of(united(a, b).env) && b.env.subset_of(united(a, b).env),
        a.files.subset_of(united(a, b).files) && b.files.subset_of(united(a, b).files),
        a.sources.subset_of(united(a, b).sources) && b.sources.subset_of(united(a, b).sources),
        united(united(a, b), b) == united(a, b),
{
    assert(united(united(a, b), b).env =~= united(a, b).env);
    assert(united(united(a, b), b).files =~= united(a, b).files);
    assert(united(united(a, b), b).sources =~= united(a, b).sources);
}

// ---------------------------------------------------------------------------

/// What the disk and the environment hold for a unit's prediction.
#[derive(Debug)]
pub struct Seen {
    /// The hash of the package's tree, without nested packages and `target/`.
    pub tree: String,
    /// The hash of each predicted source, in order. A directory hashes as a tree; a missing file not at all.
    pub sources: Vec<Option<String>>,
    /// The value of each predicted variable, in order.
    pub env: Vec<Option<String>>,
    /// The hash of each predicted file, in order.
    pub files: Vec<Option<String>>,
}

/// How `{:?}` prints a mode.
pub open spec fn mode_name(m: Mode) -> Seq<char> {
    match m {
        Mode::Build => "Build"@,
        Mode::Check => "Check"@,
        Mode::CheckTest => "CheckTest"@,
        Mode::Test => "Test"@,
        Mode::Bench => "Bench"@,
        Mode::Doc => "Doc"@,
        Mode::RunCustomBuild => "RunCustomBuild"@,
    }
}

fn name_mode(m: Mode) -> (r: &'static str)
    ensures
        r@ == mode_name(m),
{
    match m {
        Mode::Build => "Build",
        Mode::Check => "Check",
        Mode::CheckTest => "CheckTest",
        Mode::Test => "Test",
        Mode::Bench => "Bench",
        Mode::Doc => "Doc",
        Mode::RunCustomBuild => "RunCustomBuild",
    }
}

/// How `{:?}` prints a text.
pub uninterp spec fn debug_text(s: Seq<char>) -> Seq<char>;

/// `std`'s `Debug` of a `str`: the text in quotes, with escapes, which depends on the text alone. Which
/// characters are escaped is left to `debug_text`.
#[verifier::external_body]
fn debug_str(s: &str) -> (r: String)
    ensures
        r@ == debug_text(s@),
{
    format!("{s:?}")
}

pub open spec fn debug_opt(o: Option<Seq<char>>) -> Seq<char> {
    match o {
        Some(s) => "Some("@ + debug_text(s) + ")"@,
        None => "None"@,
    }
}

fn show_opt(o: &Option<String>) -> (r: String)
    ensures
        r@ == debug_opt(opt_view(*o)),
{
    match o {
        Some(s) => cat3("Some(", debug_str(s.as_str()).as_str(), ")"),
        None => "None".to_owned(),
    }
}

/// What both the name and the key of a unit rest on.
pub open spec fn base_data(ctx: Ctx, u: Unit, inv_hash: Seq<u8>) -> Seq<u8> {
    encode_utf8(ctx.rustc.id@) + encode_utf8(mode_name(u.mode)) + inv_hash + (match u.kind {
        CompileKind::Target(_) => encode_utf8(ctx.at(u.kind).cross.fingerprint@),
        CompileKind::Host => Seq::empty(),
    }) + if u.mode == Mode::RunCustomBuild {
        encode_utf8(ctx.host_fingerprint@)
    } else {
        Seq::empty()
    }
}

fn add_base(out: &mut Vec<u8>, ctx: &Ctx<'_>, u: &Unit, inv_hash: &Vec<u8>)
    requires
        in_ctx(*ctx, *u),
    ensures
        final(out)@ == old(out)@ + base_data(*ctx, *u, inv_hash@),
{
    let ghost o = out@;
    add_text(out, ctx.rustc.id.as_str());
    add_text(out, name_mode(u.mode));
    add_bytes(out, inv_hash);
    if let CompileKind::Target(_) = u.kind {
        add_text(out, ctx.kind(u.kind).cross.fingerprint.as_str());
    }
    if u.mode == Mode::RunCustomBuild {
        add_text(out, ctx.host_fingerprint.as_str());
    }
    assert(out@ =~= o + base_data(*ctx, *u, inv_hash@));
}

/// Name id ignores file contents. Local packages are name, version, and normalized path.
pub open spec fn name_id(ctx: Ctx, p: Pkg) -> Seq<char> {
    if p.source.local() {
        "path:"@ + p.name@ + "@"@ + version_text(p.version@) + ":"@ + normal(ctx.norm@, p.root@)
    } else {
        p.identity@
    }
}

fn name_identity(ctx: &Ctx<'_>, p: &Pkg) -> (r: String)
    ensures
        r@ == name_id(*ctx, *p),
{
    if p.source.is_local() {
        let mut s = cat5("path:", p.name.as_str(), "@", p.version.text().as_str(), ":");
        s.append(ctx.norm.apply(p.root.as_str()).as_str());
        s
    } else {
        p.identity.clone()
    }
}

pub open spec fn link_name(d: UnitDep) -> Seq<char> {
    match d.extern_name {
        Some(n) => n@,
        None => ""@,
    }
}

/// The names of the first `k` dependencies.
pub open spec fn dep_names(planned: Seq<Option<Planned>>, deps: Seq<UnitDep>, k: int) -> Seq<u8>
    decreases k,
{
    if k <= 0 || k > deps.len() {
        Seq::empty()
    } else {
        dep_names(planned, deps, k - 1) + encode_utf8("\0dep\0"@) + encode_utf8(link_name(deps[k - 1])) + encode_utf8(
            planned[deps[k - 1].unit as int].unwrap().name@,
        )
    }
}

/// The keys of the first `k` dependencies, and their inputs.
pub open spec fn dep_keys(planned: Seq<Option<Planned>>, deps: Seq<UnitDep>, k: int) -> Seq<u8>
    decreases k,
{
    if k <= 0 || k > deps.len() {
        Seq::empty()
    } else {
        dep_keys(planned, deps, k - 1) + encode_utf8("\0dep\0"@) + encode_utf8(link_name(deps[k - 1])) + encode_utf8(
            planned[deps[k - 1].unit as int].unwrap().key@,
        ) + encode_utf8(planned[deps[k - 1].unit as int].unwrap().input_digest@)
    }
}

fn add_deps(out: &mut Vec<u8>, ctx: &Ctx<'_>, units: &Vec<Unit>, planned: &Vec<Option<Planned>>, deps: &Vec<UnitDep>, keys: bool)
    requires
        deps_planned(*ctx, units@, planned@, deps@),
    ensures
        final(out)@ == old(out)@ + if keys {
            dep_keys(planned@, deps@, deps@.len() as int)
        } else {
            dep_names(planned@, deps@, deps@.len() as int)
        },
{
    let ghost o = out@;
    let mut k: usize = 0;
    assert(o + Seq::<u8>::empty() =~= o);
    while k < deps.len()
        invariant
            k <= deps@.len(),
            deps_planned(*ctx, units@, planned@, deps@),
            out@ == o + if keys {
                dep_keys(planned@, deps@, k as int)
            } else {
                dep_names(planned@, deps@, k as int)
            },
        decreases deps@.len() - k,
    {
        let d = &deps[k];
        assert(deps@[k as int].unit < units@.len());
        let name: &str = match &d.extern_name {
            Some(n) => n.as_str(),
            None => "",
        };
        add_text(out, "\0dep\0");
        add_text(out, name);
        if let Some(dp) = &planned[d.unit] {
            if keys {
                add_text(out, dp.key.as_str());
                add_text(out, dp.input_digest.as_str());
            } else {
                add_text(out, dp.name.as_str());
            }
        }
        k += 1;
        assert(out@ =~= o + if keys {
            dep_keys(planned@, deps@, k as int)
        } else {
            dep_names(planned@, deps@, k as int)
        });
    }
}

/// The hash of what counts of the command line.
pub open spec fn line_hash(ctx: Ctx, inv: InvocationView) -> Seq<u8> {
    blake3_of(hashed_data(ctx.norm@, inv))
}

/// The name of a unit: its identity without source contents.
pub open spec fn unit_name(ctx: Ctx, u: Unit, planned: Seq<Option<Planned>>, inv: InvocationView) -> Seq<char> {
    hex_of(
        blake3_key(
            "rb 2026 unit name v1"@,
            base_data(ctx, u, line_hash(ctx, inv)) + encode_utf8(name_id(ctx, ctx.pkgs()[u.pkg as int])) + dep_names(
                planned,
                u.deps@,
                u.deps@.len() as int,
            ),
        ),
    )
}

/// Whole package, minus nested packages and `target/`. Registry and git sources are just their id.
pub open spec fn package_id(p: Pkg, tree: Seq<char>) -> Seq<char> {
    if p.source.local() {
        "path:"@ + tree
    } else {
        p.identity@
    }
}

/// The unit is known to read these sources and no others.
pub open spec fn fine_grained(mode: Mode, prediction: Option<PredictionView>) -> bool {
    match prediction {
        Some(pr) => if mode == Mode::RunCustomBuild {
            pr.rerun_declared == Some(true)
        } else {
            pr.sources != Set::<Seq<char>>::empty()
        },
        None => false,
    }
}

/// The first `k` sources and their hashes.
pub open spec fn sources_data(names: Seq<Seq<char>>, hashes: Seq<Option<Seq<char>>>, k: int) -> Seq<u8>
    decreases k,
{
    if k <= 0 || k > names.len() {
        Seq::empty()
    } else {
        sources_data(names, hashes, k - 1) + encode_utf8(names[k - 1]) + encode_utf8("\0"@) + (match hashes[k - 1] {
            Some(h) => encode_utf8(h),
            None => Seq::empty(),
        }) + encode_utf8("\n"@)
    }
}

pub open spec fn opt_views(l: Seq<Option<String>>) -> Seq<Option<Seq<char>>> {
    Seq::new(l.len(), |k: int| opt_view(l[k]))
}

/// Cargo's fingerprint. Known dep-info files, or a build script's `rerun-if-changed` paths.
/// First build, or a script that never said what it reads: the whole package.
pub open spec fn unit_id(p: Pkg, mode: Mode, prediction: Option<PredictionView>, seen: Seen) -> Seq<char> {
    if p.source.local() && fine_grained(mode, prediction) {
        let names = listed(prediction.unwrap().sources);
        "files:"@ + hex_of(
            blake3_key("rb 2026 unit sources v1"@, sources_data(names, opt_views(seen.sources@), names.len() as int)),
        )
    } else {
        package_id(p, seen.tree@)
    }
}

pub open spec fn prediction_view(p: Option<&Prediction>) -> Option<PredictionView> {
    match p {
        Some(p) => Some(p@),
        None => None,
    }
}

/// There is an answer for each thing that was predicted.
pub open spec fn answers(prediction: Option<PredictionView>, seen: Seen) -> bool {
    match prediction {
        Some(pr) => seen.sources@.len() == listed(pr.sources).len() && seen.env@.len() == listed(pr.env).len()
            && seen.files@.len() == listed(pr.files).len(),
        None => true,
    }
}

pub fn source_identity(p: &Pkg, tree: &str) -> (r: String)
    ensures
        r@ == package_id(*p, tree@),
{
    match &p.source {
        Source::Registry(_) | Source::Git(_) => p.identity.clone(),
        Source::Workspace | Source::Path => cat("path:", tree),
    }
}

pub fn unit_identity(p: &Pkg, mode: Mode, prediction: Option<&Prediction>, seen: &Seen) -> (r: String)
    requires
        answers(prediction_view(prediction), *seen),
    ensures
        r@ == unit_id(*p, mode, prediction_view(prediction), *seen),
{
    if !p.source.is_local() {
        return p.identity.clone();
    }
    let pr: &Prediction = match prediction {
        Some(pr) => pr,
        None => return source_identity(p, seen.tree.as_str()),
    };
    let fine: bool = if mode == Mode::RunCustomBuild {
        same_word(pr.rerun_declared, Some(true))
    } else {
        !pr.sources.is_empty()
    };
    if !fine {
        return source_identity(p, seen.tree.as_str());
    }
    let names = pr.sources.items();
    let ghost ns = views(names@);
    let ghost hs = opt_views(seen.sources@);
    let mut data: Vec<u8> = Vec::new();
    let mut k: usize = 0;
    while k < names.len()
        invariant
            k <= names@.len(),
            ns == views(names@),
            hs == opt_views(seen.sources@),
            seen.sources@.len() == names@.len(),
            data@ == sources_data(ns, hs, k as int),
        decreases names@.len() - k,
    {
        assert(ns[k as int] == names@[k as int]@);
        add_text(&mut data, names[k].as_str());
        add_text(&mut data, "\0");
        if let Some(h) = &seen.sources[k] {
            add_text(&mut data, h.as_str());
        }
        add_text(&mut data, "\n");
        k += 1;
        assert(data@ =~= sources_data(ns, hs, k as int));
    }
    cat("files:", to_hex(&derive_key("rb 2026 unit sources v1", &data)).as_str())
}

/// The current value of a predicted variable: the command's own, or that of the environment.
pub open spec fn current(inv: InvocationView, name: Seq<char>, outside: Option<Seq<char>>) -> Option<Seq<char>> {
    if inv.env.contains_key(name) {
        Some(inv.env[name].0)
    } else {
        outside
    }
}

pub open spec fn inputs_env(inv: InvocationView, names: Seq<Seq<char>>, values: Seq<Option<Seq<char>>>, k: int) -> Seq<u8>
    decreases k,
{
    if k <= 0 || k > names.len() {
        Seq::empty()
    } else {
        inputs_env(inv, names, values, k - 1) + encode_utf8(
            "\0env\0"@ + names[k - 1] + "="@ + debug_opt(current(inv, names[k - 1], values[k - 1])),
        )
    }
}

/// The text with the directories in place of their tokens.
pub open spec fn expanded(ctx: Ctx, s: Seq<char>) -> Seq<char> {
    replaced(replaced(s, "{TARGET}"@, ctx.layout.target_dir@), "{WS}"@, ctx.ws.root@)
}

/// A build output is not an input. Old predictions still name some, and a fresh target dir doesn't have
/// them yet.
pub open spec fn is_output(ctx: Ctx, roots: Seq<Seq<char>>, file: Seq<char>) -> bool {
    exists|k: int| 0 <= k < roots.len() && inside(expanded(ctx, file), #[trigger] roots[k])
}

pub open spec fn inputs_files(
    ctx: Ctx,
    roots: Seq<Seq<char>>,
    names: Seq<Seq<char>>,
    hashes: Seq<Option<Seq<char>>>,
    k: int,
) -> Seq<u8>
    decreases k,
{
    if k <= 0 || k > names.len() {
        Seq::empty()
    } else if is_output(ctx, roots, names[k - 1]) {
        inputs_files(ctx, roots, names, hashes, k - 1)
    } else {
        inputs_files(ctx, roots, names, hashes, k - 1) + encode_utf8(
            "\0file\0"@ + names[k - 1] + "="@ + debug_opt(hashes[k - 1]),
        )
    }
}

/// The digest of the predicted inputs. Variants of a unit are told apart at lookup; dependents bake the
/// current values into their own keys.
pub open spec fn inputs_digest(
    ctx: Ctx,
    roots: Seq<Seq<char>>,
    inv: InvocationView,
    prediction: Option<PredictionView>,
    seen: Seen,
) -> Seq<char> {
    match prediction {
        Some(pr) => if pr.env == Set::<Seq<char>>::empty() && pr.files == Set::<Seq<char>>::empty() {
            ""@
        } else {
            let env = listed(pr.env);
            let files = listed(pr.files);
            hex_of(
                blake3_key(
                    "rb 2026 predicted inputs v1"@,
                    inputs_env(inv, env, opt_views(seen.env@), env.len() as int) + inputs_files(
                        ctx,
                        roots,
                        files,
                        opt_views(seen.files@),
                        files.len() as int,
                    ),
                ),
            )
        },
        None => ""@,
    }
}

fn any_root(ctx: &Ctx<'_>, roots: &Vec<String>, file: &str) -> (r: bool)
    ensures
        r == is_output(*ctx, views(roots@), file@),
{
    let path = ctx.expand(file);
    let mut k: usize = 0;
    while k < roots.len()
        invariant
            k <= roots@.len(),
            path@ == expanded(*ctx, file@),
            forall|j: int| 0 <= j < k ==> !inside(path@, #[trigger] views(roots@)[j]),
        decreases roots@.len() - k,
    {
        assert(views(roots@)[k as int] == roots@[k as int]@);
        if starts_with(path.as_str(), roots[k].as_str()) {
            return true;
        }
        k += 1;
    }
    false
}

fn digest_inputs(ctx: &Ctx<'_>, roots: &Vec<String>, inv: &crate::invocation::Invocation, prediction: Option<&Prediction>, seen: &Seen) -> (r: String)
    requires
        answers(prediction_view(prediction), *seen),
    ensures
        r@ == inputs_digest(*ctx, views(roots@), inv@, prediction_view(prediction), *seen),
{
    proof {
        reveal_strlit("");
        assert(""@ =~= Seq::<char>::empty());
    }
    let pr: &Prediction = match prediction {
        Some(pr) => pr,
        None => return String::new(),
    };
    if pr.env.is_empty() && pr.files.is_empty() {
        return String::new();
    }
    let mut data: Vec<u8> = Vec::new();
    let names = pr.env.items();
    let ghost ns = views(names@);
    let ghost vs = opt_views(seen.env@);
    let mut k: usize = 0;
    while k < names.len()
        invariant
            k <= names@.len(),
            ns == views(names@),
            vs == opt_views(seen.env@),
            seen.env@.len() == names@.len(),
            data@ == inputs_env(inv@, ns, vs, k as int),
        decreases names@.len() - k,
    {
        assert(ns[k as int] == names@[k as int]@);
        let value: Option<String> = match inv.get_env(names[k].as_str()) {
            Some(v) => Some(v.to_owned()),
            None => crate::profile::dup_text(&seen.env[k]),
        };
        let mut line = cat3("\0env\0", names[k].as_str(), "=");
        line.append(show_opt(&value).as_str());
        add_text(&mut data, line.as_str());
        k += 1;
    }
    let ghost head = data@;
    let files = pr.files.items();
    let ghost fs = views(files@);
    let ghost hs = opt_views(seen.files@);
    k = 0;
    assert(head + Seq::<u8>::empty() =~= head);
    while k < files.len()
        invariant
            k <= files@.len(),
            fs == views(files@),
            hs == opt_views(seen.files@),
            seen.files@.len() == files@.len(),
            data@ == head + inputs_files(*ctx, views(roots@), fs, hs, k as int),
        decreases files@.len() - k,
    {
        assert(fs[k as int] == files@[k as int]@);
        if !any_root(ctx, roots, files[k].as_str()) {
            let mut line = cat3("\0file\0", files[k].as_str(), "=");
            line.append(show_opt(&seen.files[k]).as_str());
            add_text(&mut data, line.as_str());
        }
        k += 1;
        assert(data@ =~= head + inputs_files(*ctx, views(roots@), fs, hs, k as int));
    }
    to_hex(&derive_key("rb 2026 predicted inputs v1", &data))
}

// ---------------------------------------------------------------------------

/// A unit's command line and its name. The name picks the prediction that decides which sources the key
/// covers.
#[derive(Debug)]
pub struct Draft {
    pub planned: Planned,
    pub name: String,
    pub line: Vec<u8>,
}

/// Whether the unit can be planned: all that it needs is.
pub open spec fn is_ready(ctx: Ctx, units: Seq<Unit>, planned: Seq<Option<Planned>>, ui: int) -> bool {
    &&& 0 <= ui < units.len()
    &&& in_ctx(ctx, units[ui])
    &&& in_packages(ctx.pkgs(), units)
    &&& deps_in_range(units)
    &&& deps_planned(ctx, units, planned, units[ui].deps@)
}

pub fn ready(ctx: &Ctx<'_>, units: &Vec<Unit>, planned: &Vec<Option<Planned>>, ui: usize) -> (r: bool)
    ensures
        r == is_ready(*ctx, units@, planned@, ui as int),
{
    if ui >= units.len() || planned.len() != units.len() {
        return false;
    }
    let pkgs = &ctx.ws.pkgs;
    let count: usize = ctx.targets.len();
    let mut u: usize = 0;
    while u < units.len()
        invariant
            u <= units@.len(),
            pkgs@ == ctx.pkgs(),
            ui < units@.len(),
            forall|v: int|
                0 <= v < u ==> (#[trigger] units@[v]).pkg < pkgs@.len() && units@[v].target
                    < pkgs@[units@[v].pkg as int].targets@.len(),
            forall|v: int, k: int|
                0 <= v < u && 0 <= k < units@[v].deps@.len() ==> (#[trigger] units@[v].deps@[k]).unit < units@.len(),
        decreases units@.len() - u,
    {
        if units[u].pkg >= pkgs.len() || units[u].target >= pkgs[units[u].pkg].targets.len() {
            assert(!in_packages(ctx.pkgs(), units@));
            return false;
        }
        let mut k: usize = 0;
        while k < units[u].deps.len()
            invariant
                u < units@.len(),
                k <= units@[u as int].deps@.len(),
                forall|j: int|
                    0 <= j < k ==> (#[trigger] units@[u as int].deps@[j]).unit < units@.len(),
            decreases units@[u as int].deps@.len() - k,
        {
            if units[u].deps[k].unit >= units.len() {
                assert(!deps_in_range(units@));
                return false;
            }
            k += 1;
        }
        u += 1;
    }
    if let CompileKind::Target(i) = units[ui].kind {
        if i >= count {
            return false;
        }
    }
    let deps = &units[ui].deps;
    let mut k: usize = 0;
    while k < deps.len()
        invariant
            k <= deps@.len(),
            ui < units@.len(),
            deps@ == units@[ui as int].deps@,
            planned@.len() == units@.len(),
            count == ctx.targets@.len(),
            deps_in_range(units@),
            forall|j: int|
                0 <= j < k ==> (#[trigger] deps@[j]).unit < units@.len() && match planned@[deps@[j].unit as int] {
                    Some(p) => cuts(p.name@, 16),
                    None => false,
                } && ctx.knows(units@[deps@[j].unit as int].kind),
        decreases deps@.len() - k,
    {
        let d: usize = deps[k].unit;
        assert(units@[ui as int].deps@[k as int].unit < units@.len());
        let named: bool = match &planned[d] {
            Some(p) => can_cut(p.name.as_str(), 16),
            None => false,
        };
        let known: bool = match units[d].kind {
            CompileKind::Host => true,
            CompileKind::Target(i) => i < count,
        };
        if !named || !known {
            assert(!deps_planned(*ctx, units@, planned@, deps@)) by {
                assert(deps@[k as int].unit == d);
            }
            return false;
        }
        k += 1;
    }
    true
}

/// The command line of a unit.
pub open spec fn command_of(
    ctx: Ctx,
    units: Seq<Unit>,
    planned: Seq<Option<Planned>>,
    u: Unit,
    lints: Lints,
    lto: LtoMode,
) -> Option<PlannedView> {
    let n = u.deps@.len() as int;
    match u.mode {
        Mode::RunCustomBuild => match script_unit_at(units, u.deps@, u.pkg, 0) {
            Some(s) => Some(run_plan(ctx, u, planned[s as int].unwrap())),
            None => None,
        },
        Mode::Doc => match externs_upto(ctx, units, planned, u.deps@, true, false, n) {
            Some(l) => Some(doc_plan(ctx, u, units, planned, lints, l)),
            None => None,
        },
        _ => match externs_upto(ctx, units, planned, u.deps@, false, must_link(ctx, u), n) {
            Some(l) => Some(compile_plan(ctx, u, units, planned, lints, lto, l)),
            None => None,
        },
    }
}

/// Why a unit has no command line.
pub open spec fn refused(ctx: Ctx, units: Seq<Unit>, planned: Seq<Option<Planned>>, u: Unit, e: PlanError) -> bool {
    match u.mode {
        Mode::RunCustomBuild => e is NoScript,
        Mode::Doc => missing_extern(ctx, units, planned, u.deps@, true, false, e),
        _ => missing_extern(ctx, units, planned, u.deps@, false, must_link(ctx, u), e),
    }
}

/// A draft is the unit's command line, what it links, and its name.
pub open spec fn drafted(ctx: Ctx, units: Seq<Unit>, planned: Seq<Option<Planned>>, ui: int, c: PlannedView, d: Draft) -> bool {
    &&& d.planned@ == (PlannedView { to_link: d.planned.to_link@, lib_reqs: d.planned.lib_reqs@, ..c })
    &&& rising(d.planned.to_link@)
    &&& forall|x: usize| #[trigger] d.planned.to_link@.contains(x) == links_run(ctx.pkgs(), units, ui, x as int)
    &&& rising(d.planned.lib_reqs@)
    &&& forall|x: usize| #[trigger] d.planned.lib_reqs@.contains(x) == links_lib(ctx.pkgs(), units, ui, x as int)
    &&& d.line@ == line_hash(ctx, c.inv)
    &&& d.name@ == unit_name(ctx, units[ui], planned, c.inv)
    &&& d.name@.len() == 64
}

/// The unit's command line and name.
pub fn draft(
    ctx: &Ctx<'_>,
    ui: usize,
    units: &Vec<Unit>,
    planned: &Vec<Option<Planned>>,
    lints: &Lints,
    lto: LtoMode,
) -> (r: Result<Draft, PlanError>)
    requires
        is_ready(*ctx, units@, planned@, ui as int),
    ensures
        match (command_of(*ctx, units@, planned@, units@[ui as int], *lints, lto), r) {
            (Some(c), Ok(d)) => drafted(*ctx, units@, planned@, ui as int, c, d),
            (None, Err(e)) => refused(*ctx, units@, planned@, units@[ui as int], e),
            _ => false,
        },
{
    let u = &units[ui];
    let planned_unit = match u.mode {
        Mode::RunCustomBuild => plan_run(ctx, ui, units, planned),
        Mode::Doc => plan_doc(ctx, ui, units, planned, lints),
        _ => plan_compile(ctx, ui, units, planned, lints, lto),
    };
    let mut p = match planned_unit {
        Ok(p) => p,
        Err(e) => return Err(e),
    };
    let ghost c = p@;
    p.to_link = collect_to_link(ui, units, ctx.ws);
    p.lib_reqs = collect_lib_reqs(ui, units, ctx.ws);
    let mut line_data: Vec<u8> = Vec::new();
    p.inv.hash_into(&mut line_data, ctx.norm);
    assert(line_data@ =~= hashed_data(ctx.norm@, c.inv));
    let line = hash(&line_data);
    let mut data: Vec<u8> = Vec::new();
    add_base(&mut data, ctx, u, &line);
    add_text(&mut data, name_identity(ctx, &ctx.ws.pkgs[u.pkg]).as_str());
    add_deps(&mut data, ctx, units, planned, &u.deps, false);
    assert(data@ =~= base_data(*ctx, *u, line@) + encode_utf8(name_id(*ctx, ctx.pkgs()[u.pkg as int])) + dep_names(
        planned@,
        u.deps@,
        u.deps@.len() as int,
    ));
    let name = to_hex(&derive_key("rb 2026 unit name v1", &data));
    Ok(Draft { planned: p, name, line })
}

/// Opt out one build script and everything downstream of it stays project-local too.
pub open spec fn deps_cacheable(planned: Seq<Option<Planned>>, deps: Seq<UnitDep>) -> bool {
    forall|k: int| 0 <= k < deps.len() ==> planned[(#[trigger] deps[k]).unit as int].unwrap().cacheable
}

/// The finished plan of a unit.
pub open spec fn finished_plan(
    ctx: Ctx,
    roots: Seq<Seq<char>>,
    u: Unit,
    planned: Seq<Option<Planned>>,
    d: Draft,
    prediction: Option<PredictionView>,
    seen: Seen,
) -> PlannedView {
    let p = d.planned@;
    PlannedView {
        key: hex_of(
            blake3_key(
                "rb 2026 unit key v2"@,
                base_data(ctx, u, d.line@) + encode_utf8(unit_id(ctx.pkgs()[u.pkg as int], u.mode, prediction, seen))
                    + dep_keys(planned, u.deps@, u.deps@.len() as int),
            ),
        ),
        name: d.name@,
        input_digest: inputs_digest(ctx, roots, p.inv, prediction, seen),
        inv: InvocationView {
            program: named(p.inv.program, d.name@),
            args: named_args(p.inv.args, d.name@),
            env: named_env(p.inv.env, d.name@),
            ..p.inv
        },
        out_dir: replaced(p.out_dir, SELF_NAME16@, head_bytes(d.name@, 16)),
        cacheable: p.cacheable && deps_cacheable(planned, u.deps@),
        ..p
    }
}

fn all_cacheable(ctx: &Ctx<'_>, units: &Vec<Unit>, planned: &Vec<Option<Planned>>, deps: &Vec<UnitDep>) -> (r: bool)
    requires
        deps_planned(*ctx, units@, planned@, deps@),
    ensures
        r == deps_cacheable(planned@, deps@),
{
    let mut k: usize = 0;
    while k < deps.len()
        invariant
            k <= deps@.len(),
            deps_planned(*ctx, units@, planned@, deps@),
            forall|j: int| 0 <= j < k ==> planned@[(#[trigger] deps@[j]).unit as int].unwrap().cacheable,
        decreases deps@.len() - k,
    {
        assert(deps@[k as int].unit < units@.len());
        let ok: bool = match &planned[deps[k].unit] {
            Some(p) => p.cacheable,
            None => false,
        };
        if !ok {
            return false;
        }
        k += 1;
    }
    true
}

/// The unit's key, and its name in place of the placeholders. `roots` are the names of the target
/// directory.
pub fn finish(
    ctx: &Ctx<'_>,
    roots: &Vec<String>,
    ui: usize,
    units: &Vec<Unit>,
    planned: &Vec<Option<Planned>>,
    d: Draft,
    prediction: Option<&Prediction>,
    seen: &Seen,
) -> (r: Planned)
    requires
        is_ready(*ctx, units@, planned@, ui as int),
        answers(prediction_view(prediction), *seen),
        cuts(d.name@, 16),
    ensures
        r@ == finished_plan(*ctx, views(roots@), units@[ui as int], planned@, d, prediction_view(prediction), *seen),
{
    let u = &units[ui];
    let p = &ctx.ws.pkgs[u.pkg];
    let mut data: Vec<u8> = Vec::new();
    add_base(&mut data, ctx, u, &d.line);
    add_text(&mut data, unit_identity(p, u.mode, prediction, seen).as_str());
    add_deps(&mut data, ctx, units, planned, &u.deps, true);
    assert(data@ =~= base_data(*ctx, *u, d.line@) + encode_utf8(
        unit_id(ctx.pkgs()[u.pkg as int], u.mode, prediction_view(prediction), *seen),
    ) + dep_keys(planned@, u.deps@, u.deps@.len() as int));
    let key = to_hex(&derive_key("rb 2026 unit key v2", &data));
    let input_digest = digest_inputs(ctx, roots, &d.planned.inv, prediction, seen);
    let cacheable: bool = d.planned.cacheable && all_cacheable(ctx, units, planned, &u.deps);
    let name = d.name;
    let mut r = d.planned;
    r.inv.substitute_name(name.as_str());
    proof {
        reveal_strlit("__RB_SELF_NAME16__");
    }
    r.out_dir = replace(r.out_dir.as_str(), SELF_NAME16, first16(name.as_str()).as_str());
    r.key = key;
    r.name = name;
    r.input_digest = input_digest;
    r.cacheable = cacheable;
    r
}

/// A build script that the project keeps out of the shared store is kept out of it, and so is every unit that depends on
/// such a one.
pub proof fn law_local_scripts_stay_local(
    ctx: Ctx,
    roots: Seq<Seq<char>>,
    u: Unit,
    planned: Seq<Option<Planned>>,
    d: Draft,
    prediction: Option<PredictionView>,
    seen: Seen,
    k: int,
    script: Planned,
)
    ensures
        ctx.no_cache_build_scripts@.contains(ctx.pkgs()[u.pkg as int].name@) ==> !crate::commands::run_plan(ctx, u, script).cacheable,
        !d.planned@.cacheable ==> !finished_plan(ctx, roots, u, planned, d, prediction, seen).cacheable,
        0 <= k < u.deps@.len() && !planned[u.deps@[k].unit as int].unwrap().cacheable ==> !finished_plan(
            ctx,
            roots,
            u,
            planned,
            d,
            prediction,
            seen,
        ).cacheable,
{
    if 0 <= k < u.deps@.len() && !planned[u.deps@[k].unit as int].unwrap().cacheable {
        assert(!deps_cacheable(planned, u.deps@));
    }
}

// ---------------------------------------------------------------------------
// What keys are made of.

/// The side that a unit is compiled for.
pub open spec fn kind_text(k: CompileKind) -> Seq<char> {
    match k {
        CompileKind::Host => "Host"@,
        CompileKind::Target(i) => "Target("@ + dec(i as nat) + ")"@,
    }
}

/// What goes into the key of a unit.
pub open spec fn key_row(p: Pkg, u: Unit, plan: Planned, source: Seq<char>) -> JsonTree {
    JsonTree::Object(
        seq![
            ("input_digest"@, JsonTree::Str(plan.input_digest@)),
            ("key"@, JsonTree::Str(plan.key@)),
            ("name"@, JsonTree::Str(plan.name@)),
            ("source"@, JsonTree::Str(source)),
            ("unit"@, JsonTree::Str(p.shown() + " "@ + plan.descr@ + " "@ + kind_text(u.kind))),
        ],
    )
}

pub open spec fn key_rows(pkgs: Seq<Pkg>, units: Seq<Unit>, planned: Seq<Planned>, sources: Seq<Seq<char>>) -> JsonTree {
    JsonTree::Array(Seq::new(units.len(), |i: int| key_row(pkgs[units[i].pkg as int], units[i], planned[i], sources[i])))
}

/// What goes into the key of each unit, for comparing a build that was not expected with the one before: the path of the
/// file, and its text. `sources`: what stands for the sources of each unit.
pub fn debug_keys(
    path: &str,
    suffix: &str,
    pkgs: &Vec<Pkg>,
    units: &Vec<Unit>,
    planned: &Vec<Planned>,
    sources: &Vec<String>,
) -> (r: (String, String))
    requires
        planned@.len() == units@.len(),
        sources@.len() == units@.len(),
        forall|i: int| 0 <= i < units@.len() ==> (#[trigger] units@[i]).pkg < pkgs@.len(),
    ensures
        r.0@ == path@ + suffix@,
        r.1@ == json_pretty(key_rows(pkgs@, units@, planned@, views(sources@))),
{
    let ghost sv = views(sources@);
    let mut rows: Vec<Json> = Vec::new();
    let mut k: usize = 0;
    while k < units.len()
        invariant
            k <= units@.len(),
            planned@.len() == units@.len(),
            sources@.len() == units@.len(),
            sv == views(sources@),
            forall|i: int| 0 <= i < units@.len() ==> (#[trigger] units@[i]).pkg < pkgs@.len(),
            rows@.len() == k,
            forall|i: int| 0 <= i < k ==> (#[trigger] rows@[i])@ == key_row(pkgs@[units@[i].pkg as int], units@[i], planned@[i], sv[i]),
        decreases units@.len() - k,
    {
        assert(sv[k as int] == sources@[k as int]@);
        assert(units@[k as int].pkg < pkgs@.len());
        let u = &units[k];
        let p = &planned[k];
        let kind: String = match u.kind {
            CompileKind::Host => "Host".to_owned(),
            CompileKind::Target(i) => cat3("Target(", usize_text(i).as_str(), ")"),
        };
        let head = cat3(pkgs[u.pkg].display().as_str(), " ", p.descr);
        let unit = cat3(head.as_str(), " ", kind.as_str());
        let mut l = no_fields();
        put_text(&mut l, "input_digest", p.input_digest.as_str());
        put_text(&mut l, "key", p.key.as_str());
        put_text(&mut l, "name", p.name.as_str());
        put_text(&mut l, "source", sources[k].as_str());
        put_text(&mut l, "unit", unit.as_str());
        assert(json_entries(l@) =~= key_row(pkgs@[u.pkg as int], *u, *p, sv[k as int])->Object_0);
        rows.push(Json::Object(l));
        k += 1;
    }
    assert(json_trees(rows@) =~= key_rows(pkgs@, units@, planned@, sv)->Array_0);
    (cat(path, suffix), write_pretty(&Json::Array(rows)))
}

} // verus!
