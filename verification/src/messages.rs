//! What tools read: messages about a build, the graph of units, and the metadata of a workspace, as JSON.

use vstd::prelude::*;
use crate::cfgexpr::PlatformExpr;
use crate::cfgexpr::PlatformTree;
use crate::exec::kind_name;
use crate::exec::target_kind;
use crate::json::Json;
use crate::json::JsonTree;
use crate::json::json_entries;
use crate::json::json_tree;
use crate::json::json_trees;
use crate::json::member;
use crate::json::text_in;
use crate::manifest::DepDecl;
use crate::manifest::DepDeclView;
use crate::manifest::DepKind;
use crate::manifest::DepSource;
use crate::manifest::DepSourceView;
use crate::manifest::FeatureMap;
use crate::manifest::Package;
use crate::manifest::PackageView;
use crate::manifest::Target;
use crate::manifest::TargetKind;
use crate::manifest::feature_lists;
use crate::manifest::ref_query;
use crate::num::dec;
use crate::num::parse_u64;
use crate::num::u64_of;
use crate::num::u64_text;
use crate::num::usize_text;
use crate::path::absolute;
use crate::path::join;
use crate::path::under;
use crate::plan::in_packages;
use crate::plan::target_of;
use crate::resolve::Graph;
use crate::resolve::Node;
use crate::resolve::NodeView;
use crate::resolve::Nodes;
use crate::resolve::edges_in_range;
use crate::resolve::lemma_decls;
use crate::resolve::lock_text;
use crate::resolve::spec_text;
use crate::schedule::deps_fit;
use crate::sort::in_order;
use crate::sort::sort;
use crate::strmap::StrMap;
use crate::strmap::StrSet;
use crate::strmap::listed;
use crate::text::cat3;
use crate::text::opt_view;
use crate::text::same;
use crate::text::swapped;
use crate::text::views;
use crate::profile::dup_list;
use crate::unit::CompileKind;
use crate::unit::Mode;
use crate::unit::Unit;
use crate::unit::UnitDep;
use crate::version::meets;
use crate::version::version_text;
use crate::workspace::Pkg;
use crate::workspace::Workspace;

verus! {

pub type Fields = Seq<(Seq<char>, JsonTree)>;

// ---------------------------------------------------------------------------
// Values.

/// A text, or nothing.
pub open spec fn maybe(o: Option<Seq<char>>) -> JsonTree {
    match o {
        Some(s) => JsonTree::Str(s),
        None => JsonTree::Null,
    }
}

pub open spec fn texts_of(l: Seq<Seq<char>>) -> JsonTree {
    JsonTree::Array(Seq::new(l.len(), |i: int| JsonTree::Str(l[i])))
}

pub open spec fn number(n: int) -> JsonTree {
    JsonTree::Number(dec(n as nat))
}

/// A number where the text is one, else the text.
pub open spec fn number_or_text(s: Seq<char>, max: int) -> JsonTree {
    match u64_of(s) {
        Some(n) => if n <= max {
            number(n as int)
        } else {
            JsonTree::Str(s)
        },
        None => JsonTree::Str(s),
    }
}

pub(crate) fn put(l: &mut Vec<(String, Json)>, key: &str, v: Json)
    ensures
        json_entries(final(l)@) == json_entries(old(l)@).push((key@, v@)),
{
    let ghost was = l@;
    let ghost vv = v@;
    l.push((key.to_owned(), v));
    assert(json_entries(l@) =~= json_entries(was).push((key@, vv)));
}

pub(crate) fn put_text(l: &mut Vec<(String, Json)>, key: &str, s: &str)
    ensures
        json_entries(final(l)@) == json_entries(old(l)@).push((key@, JsonTree::Str(s@))),
{
    put(l, key, Json::Str(s.to_owned()));
}

pub(crate) fn put_maybe(l: &mut Vec<(String, Json)>, key: &str, o: &Option<String>)
    ensures
        json_entries(final(l)@) == json_entries(old(l)@).push((key@, maybe(opt_view(*o)))),
{
    match o {
        Some(s) => put(l, key, Json::Str(s.clone())),
        None => put(l, key, Json::Null),
    }
}

fn put_flag(l: &mut Vec<(String, Json)>, key: &str, b: bool)
    ensures
        json_entries(final(l)@) == json_entries(old(l)@).push((key@, JsonTree::Bool(b))),
{
    put(l, key, Json::Bool(b));
}

pub(crate) fn put_texts(l: &mut Vec<(String, Json)>, key: &str, texts: &Vec<String>)
    ensures
        json_entries(final(l)@) == json_entries(old(l)@).push((key@, texts_of(views(texts@)))),
{
    put(l, key, text_list(texts));
}

fn text_list(l: &Vec<String>) -> (r: Json)
    ensures
        r@ == texts_of(views(l@)),
{
    let ghost lv = views(l@);
    let mut out: Vec<Json> = Vec::new();
    let mut k: usize = 0;
    while k < l.len()
        invariant
            k <= l@.len(),
            lv == views(l@),
            out@.len() == k,
            forall|i: int| 0 <= i < k ==> json_tree(#[trigger] out@[i]) == JsonTree::Str(lv[i]),
        decreases l@.len() - k,
    {
        assert(lv[k as int] == l@[k as int]@);
        out.push(Json::Str(l[k].clone()));
        k += 1;
    }
    assert(lv.len() == l@.len());
    assert(json_trees(out@) =~= Seq::new(lv.len(), |i: int| JsonTree::Str(lv[i])));
    Json::Array(out)
}

pub(crate) fn no_fields() -> (r: Vec<(String, Json)>)
    ensures
        json_entries(r@) == Seq::<(Seq<char>, JsonTree)>::empty(),
{
    let r: Vec<(String, Json)> = Vec::new();
    assert(json_entries(r@) =~= Seq::<(Seq<char>, JsonTree)>::empty());
    r
}

fn read_number(s: &str, max: u64) -> (r: Json)
    ensures
        r@ == number_or_text(s@, max as int),
{
    match parse_u64(s) {
        Some(n) => if n <= max {
            Json::Number(u64_text(n))
        } else {
            Json::Str(s.to_owned())
        },
        None => Json::Str(s.to_owned()),
    }
}

pub(crate) fn push_json(l: &mut Vec<Json>, v: Json)
    ensures
        json_trees(final(l)@) == json_trees(old(l)@).push(v@),
{
    let ghost was = l@;
    let ghost vv = v@;
    l.push(v);
    assert(json_trees(l@) =~= json_trees(was).push(vv));
}

fn one_text(s: &str) -> (r: Json)
    ensures
        r@ == texts_of(seq![s@]),
{
    let l = crate::manifest::one(s);
    text_list(&l)
}

// ---------------------------------------------------------------------------
// A build.

/// A target, as messages about it have it.
pub open spec fn target_fields(t: Target, src: Seq<char>) -> Fields {
    seq![
        ("crate_types"@, texts_of(views(t.crate_types@))),
        ("doc"@, JsonTree::Bool(t.doc)),
        ("doctest"@, JsonTree::Bool(t.doctest)),
        ("edition"@, JsonTree::Str(t.edition@)),
        ("kind"@, texts_of(seq![kind_name(t)])),
        ("name"@, JsonTree::Str(t.name@)),
        ("src_path"@, JsonTree::Str(src)),
        ("test"@, JsonTree::Bool(t.test)),
    ]
}

fn target_json(t: &Target, src: &str) -> (r: Json)
    ensures
        r@ == JsonTree::Object(target_fields(*t, src@)),
{
    let mut o = no_fields();
    put_texts(&mut o, "crate_types", &t.crate_types);
    put_flag(&mut o, "doc", t.doc);
    put_flag(&mut o, "doctest", t.doctest);
    put_text(&mut o, "edition", t.edition.as_str());
    put(&mut o, "kind", one_text(target_kind(t)));
    put_text(&mut o, "name", t.name.as_str());
    put_text(&mut o, "src_path", src);
    put_flag(&mut o, "test", t.test);
    assert(json_entries(o@) =~= target_fields(*t, src@));
    Json::Object(o)
}

/// A target, as messages about it have it.
pub fn target_message(t: &Target) -> (r: Json)
    ensures
        r@ == JsonTree::Object(target_fields(*t, t.src_path@)),
{
    target_json(t, t.src_path.as_str())
}

/// A message of the compiler, with the package that it is about.
pub fn compiler_message(pkg: &Pkg, t: &Target, message: Json) -> (r: Json)
    ensures
        r@ == JsonTree::Object(
            seq![
                ("manifest_path"@, JsonTree::Str(pkg.manifest_path@)),
                ("message"@, message@),
                ("package_id"@, JsonTree::Str(pkg.id@)),
                ("reason"@, JsonTree::Str("compiler-message"@)),
                ("target"@, JsonTree::Object(target_fields(*t, t.src_path@))),
            ],
        ),
{
    let ghost mv = message@;
    let mut o = no_fields();
    put_text(&mut o, "manifest_path", pkg.manifest_path.as_str());
    put(&mut o, "message", message);
    put_text(&mut o, "package_id", pkg.id.as_str());
    put_text(&mut o, "reason", "compiler-message");
    put(&mut o, "target", target_message(t));
    assert(json_entries(o@) =~= seq![
        ("manifest_path"@, JsonTree::Str(pkg.manifest_path@)),
        ("message"@, mv),
        ("package_id"@, JsonTree::Str(pkg.id@)),
        ("reason"@, JsonTree::Str("compiler-message"@)),
        ("target"@, JsonTree::Object(target_fields(*t, t.src_path@))),
    ]);
    Json::Object(o)
}

/// The build is over.
pub fn build_finished(success: bool) -> (r: Json)
    ensures
        r@ == JsonTree::Object(
            seq![("reason"@, JsonTree::Str("build-finished"@)), ("success"@, JsonTree::Bool(success))],
        ),
{
    let mut o = no_fields();
    put_text(&mut o, "reason", "build-finished");
    put_flag(&mut o, "success", success);
    assert(json_entries(o@) =~= seq![("reason"@, JsonTree::Str("build-finished"@)), ("success"@, JsonTree::Bool(success))]);
    Json::Object(o)
}

/// The outputs of the first `n` that are no dependency files.
pub open spec fn shown_outputs(l: Seq<Seq<char>>, n: int) -> Seq<Seq<char>>
    decreases n,
{
    if n <= 0 || n > l.len() {
        Seq::empty()
    } else if path_suffix(l[n - 1]) == Some("d"@) {
        shown_outputs(l, n - 1)
    } else {
        shown_outputs(l, n - 1).push(l[n - 1])
    }
}

/// What the name of a file ends in.
pub open spec fn path_suffix(p: Seq<char>) -> Option<Seq<char>> {
    match crate::path::base_name(p) {
        Some(n) => crate::path::suffix_of(n),
        None => None,
    }
}

/// The outputs that are no dependency files.
pub fn artifact_files(outputs: &Vec<String>) -> (r: Vec<String>)
    ensures
        views(r@) == shown_outputs(views(outputs@), outputs@.len() as int),
{
    let ghost ov = views(outputs@);
    let mut out: Vec<String> = Vec::new();
    let mut k: usize = 0;
    assert(views(out@) =~= Seq::<Seq<char>>::empty());
    while k < outputs.len()
        invariant
            k <= outputs@.len(),
            ov == views(outputs@),
            views(out@) == shown_outputs(ov, k as int),
        decreases outputs@.len() - k,
    {
        assert(ov[k as int] == outputs@[k as int]@);
        let dep: bool = match crate::path::extension(outputs[k].as_str()) {
            Some(e) => same(e.as_str(), "d"),
            None => false,
        };
        if !dep {
            let ghost was = out@;
            out.push(outputs[k].clone());
            assert(views(out@) =~= views(was).push(ov[k as int]));
        }
        k += 1;
    }
    out
}

/// The files that the message about a unit shows: what was put where people look for it, or else the outputs that are no
/// dependency files. There is no message about documentation, or about the run of a build script.
pub open spec fn announced(mode: Mode, placed: Option<Seq<Seq<char>>>, outputs: Seq<Seq<char>>) -> Seq<Seq<char>> {
    match (mode, placed) {
        (Mode::RunCustomBuild, _) => Seq::empty(),
        (Mode::Doc, _) => Seq::empty(),
        (_, Some(l)) => l,
        (_, None) => shown_outputs(outputs, outputs.len() as int),
    }
}

pub fn announced_files(mode: Mode, placed: Option<&Vec<String>>, outputs: &Vec<String>) -> (r: Vec<String>)
    ensures
        views(r@) == announced(
            mode,
            match placed {
                Some(l) => Some(views(l@)),
                None => None,
            },
            views(outputs@),
        ),
{
    assert(views(Seq::<String>::empty()) =~= Seq::<Seq<char>>::empty());
    match (mode, placed) {
        (Mode::RunCustomBuild, _) => Vec::new(),
        (Mode::Doc, _) => Vec::new(),
        (_, Some(l)) => dup_list(l),
        (_, None) => artifact_files(outputs),
    }
}

pub open spec fn artifact_profile(u: Unit) -> Fields {
    seq![
        ("debug_assertions"@, JsonTree::Bool(u.profile.debug_assertions)),
        ("debuginfo"@, number_or_text(u.profile.debuginfo@, u32::MAX as int)),
        ("opt_level"@, JsonTree::Str(u.profile.opt_level@)),
        ("overflow_checks"@, JsonTree::Bool(u.profile.overflow_checks)),
        ("test"@, JsonTree::Bool(u.mode.tests())),
    ]
}

/// What was built of a unit.
pub open spec fn artifact_fields(pkg: Pkg, t: Target, u: Unit, files: Seq<Seq<char>>, fresh: bool) -> Fields {
    seq![
        (
            "executable"@,
            if t.executable() {
                JsonTree::Str(files[0])
            } else {
                JsonTree::Null
            },
        ),
        ("features"@, texts_of(in_order::<String>(views(u.features@)))),
        ("filenames"@, texts_of(files)),
        ("fresh"@, JsonTree::Bool(fresh)),
        ("manifest_path"@, JsonTree::Str(pkg.manifest_path@)),
        ("package_id"@, JsonTree::Str(pkg.id@)),
        ("profile"@, JsonTree::Object(artifact_profile(u))),
        ("reason"@, JsonTree::Str("compiler-artifact"@)),
        ("target"@, JsonTree::Object(target_fields(t, t.src_path@))),
    ]
}

fn profile_json(u: &Unit) -> (r: Json)
    ensures
        r@ == JsonTree::Object(artifact_profile(*u)),
{
    let mut o = no_fields();
    put_flag(&mut o, "debug_assertions", u.profile.debug_assertions);
    put(&mut o, "debuginfo", read_number(u.profile.debuginfo.as_str(), 0xffff_ffff));
    put_text(&mut o, "opt_level", u.profile.opt_level.as_str());
    put_flag(&mut o, "overflow_checks", u.profile.overflow_checks);
    put_flag(&mut o, "test", u.mode.is_test());
    assert(json_entries(o@) =~= artifact_profile(*u));
    Json::Object(o)
}

/// What was built of a unit; nothing where it has no files.
pub fn compiler_artifact(pkg: &Pkg, t: &Target, u: &Unit, files: &Vec<String>, fresh: bool) -> (r: Option<Json>)
    ensures
        match r {
            None => files@.len() == 0,
            Some(j) => files@.len() > 0 && j@ == JsonTree::Object(artifact_fields(*pkg, *t, *u, views(files@), fresh)),
        },
{
    if files.len() == 0 {
        return None;
    }
    assert(views(files@)[0] == files@[0]@);
    let mut o = no_fields();
    if t.is_executable() {
        put_text(&mut o, "executable", files[0].as_str());
    } else {
        put(&mut o, "executable", Json::Null);
    }
    let features = sort(crate::profile::dup_list(&u.features));
    put_texts(&mut o, "features", &features);
    put_texts(&mut o, "filenames", files);
    put_flag(&mut o, "fresh", fresh);
    put_text(&mut o, "manifest_path", pkg.manifest_path.as_str());
    put_text(&mut o, "package_id", pkg.id.as_str());
    put(&mut o, "profile", profile_json(u));
    put_text(&mut o, "reason", "compiler-artifact");
    put(&mut o, "target", target_message(t));
    assert(json_entries(o@) =~= artifact_fields(*pkg, *t, *u, views(files@), fresh));
    Some(Json::Object(o))
}

// ---------------------------------------------------------------------------
// The graph of units.

/// What a target is: a library by its crate types.
pub open spec fn graph_kinds(t: Target) -> Seq<Seq<char>> {
    match t.kind {
        TargetKind::Lib => views(t.crate_types@),
        TargetKind::Bin => seq!["bin"@],
        TargetKind::Example => seq!["example"@],
        TargetKind::Test => seq!["test"@],
        TargetKind::Bench => seq!["bench"@],
        TargetKind::BuildScript => seq!["custom-build"@],
    }
}

fn graph_kind(t: &Target) -> (r: Json)
    ensures
        r@ == texts_of(graph_kinds(*t)),
{
    match t.kind {
        TargetKind::Lib => text_list(&t.crate_types),
        TargetKind::Bin => one_text("bin"),
        TargetKind::Example => one_text("example"),
        TargetKind::Test => one_text("test"),
        TargetKind::Bench => one_text("bench"),
        TargetKind::BuildScript => one_text("custom-build"),
    }
}

pub open spec fn graph_target(t: Target) -> Fields {
    seq![
        ("crate_types"@, texts_of(views(t.crate_types@))),
        ("edition"@, JsonTree::Str(t.edition@)),
        ("kind"@, texts_of(graph_kinds(t))),
        ("name"@, JsonTree::Str(t.name@)),
        ("src_path"@, JsonTree::Str(t.src_path@)),
    ]
}

pub open spec fn graph_profile(u: Unit) -> Fields {
    let p = u.profile;
    seq![
        ("debug_assertions"@, JsonTree::Bool(p.debug_assertions)),
        ("debuginfo"@, number_or_text(p.debuginfo@, u64::MAX as int)),
        ("incremental"@, JsonTree::Bool(p.incremental)),
        ("name"@, JsonTree::Str(p.name@)),
        ("opt_level"@, JsonTree::Str(p.opt_level@)),
        ("overflow_checks"@, JsonTree::Bool(p.overflow_checks)),
        ("panic"@, JsonTree::Str(p.panic@)),
        ("split_debuginfo"@, maybe(opt_view(p.split_debuginfo))),
        ("strip"@, maybe(opt_view(p.strip))),
    ]
}

/// What a dependency is called where it has no name of its own: like its crate.
pub open spec fn extern_of(pkgs: Seq<Pkg>, units: Seq<Unit>, d: UnitDep) -> Seq<char> {
    match d.extern_name {
        Some(n) => n@,
        None => swapped(target_of(pkgs, units[d.unit as int]).name@, '-', '_'),
    }
}

pub open spec fn graph_dep(pkgs: Seq<Pkg>, units: Seq<Unit>, d: UnitDep) -> JsonTree {
    JsonTree::Object(
        seq![
            ("extern_crate_name"@, JsonTree::Str(extern_of(pkgs, units, d))),
            ("index"@, number(d.unit as int)),
            ("noprelude"@, JsonTree::Bool(false)),
            ("public"@, JsonTree::Bool(false)),
        ],
    )
}

pub open spec fn platform_of(targets: Seq<Seq<char>>, k: CompileKind) -> JsonTree {
    match k {
        CompileKind::Host => JsonTree::Null,
        CompileKind::Target(i) => JsonTree::Str(targets[i as int]),
    }
}

pub open spec fn mode_of(m: Mode) -> Seq<char> {
    if m is Bench {
        "test"@
    } else {
        m.title()
    }
}

pub open spec fn graph_unit(pkgs: Seq<Pkg>, units: Seq<Unit>, targets: Seq<Seq<char>>, u: Unit) -> JsonTree {
    let t = target_of(pkgs, u);
    JsonTree::Object(
        seq![
            ("dependencies"@, JsonTree::Array(Seq::new(u.deps@.len(), |i: int| graph_dep(pkgs, units, u.deps@[i])))),
            ("features"@, texts_of(views(u.features@))),
            ("mode"@, JsonTree::Str(mode_of(u.mode))),
            ("pkg_id"@, JsonTree::Str(pkgs[u.pkg as int].id@)),
            ("platform"@, platform_of(targets, u.kind)),
            ("profile"@, JsonTree::Object(graph_profile(u))),
            ("target"@, JsonTree::Object(graph_target(t))),
        ],
    )
}

/// The graph of units: each unit, and the roots.
pub open spec fn graph_json(pkgs: Seq<Pkg>, units: Seq<Unit>, targets: Seq<Seq<char>>, roots: Seq<usize>) -> JsonTree {
    JsonTree::Object(
        seq![
            ("roots"@, JsonTree::Array(Seq::new(roots.len(), |i: int| number(roots[i] as int)))),
            ("units"@, JsonTree::Array(Seq::new(units.len(), |i: int| graph_unit(pkgs, units, targets, units[i])))),
            ("version"@, number(1)),
        ],
    )
}

fn graph_target_json(t: &Target) -> (r: Json)
    ensures
        r@ == JsonTree::Object(graph_target(*t)),
{
    let mut o = no_fields();
    put_texts(&mut o, "crate_types", &t.crate_types);
    put_text(&mut o, "edition", t.edition.as_str());
    put(&mut o, "kind", graph_kind(t));
    put_text(&mut o, "name", t.name.as_str());
    put_text(&mut o, "src_path", t.src_path.as_str());
    assert(json_entries(o@) =~= graph_target(*t));
    Json::Object(o)
}

fn graph_profile_json(u: &Unit) -> (r: Json)
    ensures
        r@ == JsonTree::Object(graph_profile(*u)),
{
    let p = &u.profile;
    let mut o = no_fields();
    put_flag(&mut o, "debug_assertions", p.debug_assertions);
    put(&mut o, "debuginfo", read_number(p.debuginfo.as_str(), 0xffff_ffff_ffff_ffff));
    put_flag(&mut o, "incremental", p.incremental);
    put_text(&mut o, "name", p.name.as_str());
    put_text(&mut o, "opt_level", p.opt_level.as_str());
    put_flag(&mut o, "overflow_checks", p.overflow_checks);
    put_text(&mut o, "panic", p.panic.as_str());
    put_maybe(&mut o, "split_debuginfo", &p.split_debuginfo);
    put_maybe(&mut o, "strip", &p.strip);
    assert(json_entries(o@) =~= graph_profile(*u));
    Json::Object(o)
}

fn graph_dep_json(pkgs: &Vec<Pkg>, units: &Vec<Unit>, d: &UnitDep) -> (r: Json)
    requires
        in_packages(pkgs@, units@),
        d.unit < units@.len(),
    ensures
        r@ == graph_dep(pkgs@, units@, *d),
{
    let du = &units[d.unit];
    let name: String = match &d.extern_name {
        Some(n) => n.clone(),
        None => pkgs[du.pkg].targets[du.target].crate_name(),
    };
    let mut o = no_fields();
    put_text(&mut o, "extern_crate_name", name.as_str());
    put(&mut o, "index", Json::Number(usize_text(d.unit)));
    put_flag(&mut o, "noprelude", false);
    put_flag(&mut o, "public", false);
    assert(json_entries(o@) =~= seq![
        ("extern_crate_name"@, JsonTree::Str(extern_of(pkgs@, units@, *d))),
        ("index"@, number(d.unit as int)),
        ("noprelude"@, JsonTree::Bool(false)),
        ("public"@, JsonTree::Bool(false)),
    ]);
    Json::Object(o)
}

fn graph_unit_json(pkgs: &Vec<Pkg>, units: &Vec<Unit>, targets: &Vec<String>, u: &Unit) -> (r: Json)
    requires
        in_packages(pkgs@, units@),
        u.pkg < pkgs@.len(),
        u.target < pkgs@[u.pkg as int].targets@.len(),
        deps_fit(u.deps@, units@.len() as int),
        u.kind matches CompileKind::Target(i) ==> i < targets@.len(),
    ensures
        r@ == graph_unit(pkgs@, units@, views(targets@), *u),
{
    let t = &pkgs[u.pkg].targets[u.target];
    let ghost want = Seq::new(u.deps@.len(), |i: int| graph_dep(pkgs@, units@, u.deps@[i]));
    let mut deps: Vec<Json> = Vec::new();
    let mut k: usize = 0;
    while k < u.deps.len()
        invariant
            k <= u.deps@.len(),
            in_packages(pkgs@, units@),
            deps_fit(u.deps@, units@.len() as int),
            want == Seq::new(u.deps@.len(), |i: int| graph_dep(pkgs@, units@, u.deps@[i])),
            json_trees(deps@) =~= want.take(k as int),
        decreases u.deps@.len() - k,
    {
        assert(u.deps@[k as int].unit < units@.len());
        let ghost was = deps@;
        push_json(&mut deps, graph_dep_json(pkgs, units, &u.deps[k]));
        assert(want.take(k + 1) =~= want.take(k as int).push(want[k as int]));
        k += 1;
    }
    assert(want.take(k as int) =~= want);
    let mode: &str = if u.mode == Mode::Bench {
        "test"
    } else {
        u.mode.name()
    };
    let platform = match u.kind {
        CompileKind::Host => Json::Null,
        CompileKind::Target(i) => {
            assert(views(targets@)[i as int] == targets@[i as int]@);
            Json::Str(targets[i].clone())
        },
    };
    let mut o = no_fields();
    put(&mut o, "dependencies", Json::Array(deps));
    put_texts(&mut o, "features", &u.features);
    put_text(&mut o, "mode", mode);
    put_text(&mut o, "pkg_id", pkgs[u.pkg].id.as_str());
    put(&mut o, "platform", platform);
    put(&mut o, "profile", graph_profile_json(u));
    put(&mut o, "target", graph_target_json(t));
    assert(graph_unit(pkgs@, units@, views(targets@), *u)->Object_0 =~= json_entries(o@));
    Json::Object(o)
}

/// The graph of units: each unit, and the roots.
pub fn to_json(pkgs: &Vec<Pkg>, units: &Vec<Unit>, targets: &Vec<String>, roots: &Vec<usize>) -> (r: Json)
    requires
        in_packages(pkgs@, units@),
        forall|u: int| 0 <= u < units@.len() ==> deps_fit((#[trigger] units@[u]).deps@, units@.len() as int),
        forall|u: int| 0 <= u < units@.len() ==> ((#[trigger] units@[u]).kind matches CompileKind::Target(i) ==> i < targets@.len()),
    ensures
        r@ == graph_json(pkgs@, units@, views(targets@), roots@),
{
    let ghost want = Seq::new(units@.len(), |i: int| graph_unit(pkgs@, units@, views(targets@), units@[i]));
    let mut us: Vec<Json> = Vec::new();
    let mut k: usize = 0;
    while k < units.len()
        invariant
            k <= units@.len(),
            in_packages(pkgs@, units@),
            forall|u: int| 0 <= u < units@.len() ==> deps_fit((#[trigger] units@[u]).deps@, units@.len() as int),
            forall|u: int| 0 <= u < units@.len() ==> ((#[trigger] units@[u]).kind matches CompileKind::Target(i) ==> i < targets@.len()),
            want == Seq::new(units@.len(), |i: int| graph_unit(pkgs@, units@, views(targets@), units@[i])),
            json_trees(us@) =~= want.take(k as int),
        decreases units@.len() - k,
    {
        assert(deps_fit(units@[k as int].deps@, units@.len() as int));
        push_json(&mut us, graph_unit_json(pkgs, units, targets, &units[k]));
        assert(want.take(k + 1) =~= want.take(k as int).push(want[k as int]));
        k += 1;
    }
    assert(want.take(k as int) =~= want);
    let ghost wr = Seq::new(roots@.len(), |i: int| number(roots@[i] as int));
    let mut rs: Vec<Json> = Vec::new();
    let mut k: usize = 0;
    while k < roots.len()
        invariant
            k <= roots@.len(),
            wr == Seq::new(roots@.len(), |i: int| number(roots@[i] as int)),
            json_trees(rs@) =~= wr.take(k as int),
        decreases roots@.len() - k,
    {
        push_json(&mut rs, Json::Number(usize_text(roots[k])));
        assert(wr.take(k + 1) =~= wr.take(k as int).push(wr[k as int]));
        k += 1;
    }
    assert(wr.take(k as int) =~= wr);
    let mut o = no_fields();
    put(&mut o, "roots", Json::Array(rs));
    put(&mut o, "units", Json::Array(us));
    put(&mut o, "version", Json::Number(u64_text(1)));
    assert(json_entries(o@) =~= graph_json(pkgs@, units@, views(targets@), roots@)->Object_0);
    Json::Object(o)
}

// ---------------------------------------------------------------------------
// The metadata of a workspace.

pub open spec fn kind_json(k: DepKind) -> JsonTree {
    match k {
        DepKind::Normal => JsonTree::Null,
        DepKind::Dev => JsonTree::Str("dev"@),
        DepKind::Build => JsonTree::Str("build"@),
    }
}

fn dep_kind_json(k: DepKind) -> (r: Json)
    ensures
        r@ == kind_json(k),
{
    match k {
        DepKind::Normal => Json::Null,
        DepKind::Dev => Json::Str("dev".to_owned()),
        DepKind::Build => Json::Str("build".to_owned()),
    }
}

pub open spec fn platform_json(p: Option<PlatformTree>) -> JsonTree {
    match p {
        None => JsonTree::Null,
        Some(PlatformTree::Triple(t)) => JsonTree::Str(t),
        Some(PlatformTree::Cfg(_)) => JsonTree::Str("cfg(...)"@),
    }
}

/// A declared dependency.
pub open spec fn dep_fields(d: DepDeclView) -> Fields {
    seq![
        ("features"@, texts_of(d.features)),
        ("kind"@, kind_json(d.kind)),
        ("name"@, JsonTree::Str(d.name)),
        ("optional"@, JsonTree::Bool(d.optional)),
        (
            "path"@,
            match d.source {
                DepSourceView::Path(p) => JsonTree::Str(p),
                _ => JsonTree::Null,
            },
        ),
        ("rename"@, maybe(d.rename)),
        ("req"@, JsonTree::Str(d.req)),
        (
            "source"@,
            match d.source {
                DepSourceView::Path(_) => JsonTree::Null,
                DepSourceView::Registry(s) => JsonTree::Str(s),
                DepSourceView::Git { url, reference } => JsonTree::Str("git+"@ + url + ref_query(reference)),
            },
        ),
        ("target"@, platform_json(d.platform)),
        ("uses_default_features"@, JsonTree::Bool(d.default_features)),
    ]
}

fn dep_json(d: &DepDecl) -> (r: Json)
    ensures
        r@ == JsonTree::Object(dep_fields(d@)),
{
    let mut o = no_fields();
    put_texts(&mut o, "features", &d.features);
    put(&mut o, "kind", dep_kind_json(d.kind));
    put_text(&mut o, "name", d.name.as_str());
    put_flag(&mut o, "optional", d.optional);
    match &d.source {
        DepSource::Path(p) => put_text(&mut o, "path", p.as_str()),
        _ => put(&mut o, "path", Json::Null),
    }
    put_maybe(&mut o, "rename", &d.rename);
    put_text(&mut o, "req", d.req.text.as_str());
    match &d.source {
        DepSource::Path(_) => put(&mut o, "source", Json::Null),
        DepSource::Registry(s) => put_text(&mut o, "source", s.as_str()),
        DepSource::Git { url, reference } => {
            put_text(&mut o, "source", cat3("git+", url.as_str(), reference.query().as_str()).as_str());
        },
    }
    match &d.platform {
        None => put(&mut o, "target", Json::Null),
        Some(PlatformExpr::Triple(t)) => put_text(&mut o, "target", t.as_str()),
        Some(PlatformExpr::Cfg(_)) => put_text(&mut o, "target", "cfg(...)"),
    }
    put_flag(&mut o, "uses_default_features", d.default_features);
    assert(json_entries(o@) =~= dep_fields(d@));
    Json::Object(o)
}

pub open spec fn feature_fields(f: FeatureMap) -> Fields {
    let l = listed(f.dom());
    Seq::new(l.len(), |i: int| (l[i], texts_of(f[l[i]])))
}

fn features_json(m: &StrMap<Vec<String>>) -> (r: Json)
    ensures
        r@ == JsonTree::Object(feature_fields(feature_lists(m@))),
{
    let ghost f = feature_lists(m@);
    assert(f.dom() =~= m@.dom());
    let keys = m.keys();
    let ghost kv = views(keys@);
    let ghost want = feature_fields(f);
    let mut o = no_fields();
    let mut k: usize = 0;
    while k < keys.len()
        invariant
            k <= keys@.len(),
            kv == views(keys@),
            kv == listed(f.dom()),
            kv.to_set() == m@.dom(),
            f == feature_lists(m@),
            want == feature_fields(f),
            json_entries(o@) =~= want.take(k as int),
        decreases keys@.len() - k,
    {
        assert(kv[k as int] == keys@[k as int]@);
        assert(kv.contains(kv[k as int]));
        assert(m@.dom().contains(kv[k as int]));
        let values = match m.get(keys[k].as_str()) {
            Some(l) => text_list(l),
            None => Json::Null,
        };
        put(&mut o, keys[k].as_str(), values);
        assert(want.take(k + 1) =~= want.take(k as int).push(want[k as int]));
        k += 1;
    }
    assert(kv.len() == keys@.len());
    assert(want.take(k as int) =~= want);
    Json::Object(o)
}

/// Where the source of a target is, from the root of its package where it is not absolute.
pub open spec fn source_at(p: Package, t: Target) -> Seq<char> {
    if absolute(t.src_path@) {
        t.src_path@
    } else {
        under(p.root@, t.src_path@)
    }
}

pub open spec fn package_targets(p: Package) -> JsonTree {
    JsonTree::Array(
        Seq::new(p.targets@.len(), |i: int| JsonTree::Object(target_fields(p.targets@[i], source_at(p, p.targets@[i])))),
    )
}

pub open spec fn package_deps(p: PackageView) -> JsonTree {
    JsonTree::Array(Seq::new(p.deps.len(), |i: int| JsonTree::Object(dep_fields(p.deps[i]))))
}

/// What is said of a package of which nothing is known but its id.
pub open spec fn bare_fields(n: NodeView) -> Fields {
    seq![
        ("authors"@, texts_of(Seq::empty())),
        ("categories"@, texts_of(Seq::empty())),
        ("default_run"@, JsonTree::Null),
        ("dependencies"@, JsonTree::Array(Seq::empty())),
        ("description"@, JsonTree::Null),
        ("documentation"@, JsonTree::Null),
        ("edition"@, JsonTree::Str(Seq::empty())),
        ("features"@, JsonTree::Object(Seq::empty())),
        ("homepage"@, JsonTree::Null),
        ("id"@, JsonTree::Str(spec_text(n.id))),
        ("keywords"@, texts_of(Seq::empty())),
        ("license"@, JsonTree::Null),
        ("license_file"@, JsonTree::Null),
        ("links"@, JsonTree::Null),
        ("manifest_path"@, JsonTree::Str(Seq::empty())),
        ("metadata"@, JsonTree::Null),
        ("name"@, JsonTree::Str(n.id.name)),
        ("publish"@, JsonTree::Null),
        ("readme"@, JsonTree::Null),
        ("repository"@, JsonTree::Null),
        ("rust_version"@, JsonTree::Null),
        ("source"@, maybe(lock_text(n.id.source))),
        ("targets"@, JsonTree::Array(Seq::empty())),
        ("version"@, JsonTree::Str(version_text(n.id.version))),
    ]
}

/// What is said of a package whose manifest is known.
pub open spec fn full_fields(n: NodeView, p: Package) -> Fields {
    seq![
        ("authors"@, texts_of(views(p.authors@))),
        ("categories"@, texts_of(Seq::empty())),
        ("default_run"@, maybe(opt_view(p.default_run))),
        ("dependencies"@, package_deps(p@)),
        ("description"@, maybe(opt_view(p.description))),
        ("documentation"@, JsonTree::Null),
        ("edition"@, JsonTree::Str(p.edition@)),
        ("features"@, JsonTree::Object(feature_fields(feature_lists(p.features@)))),
        ("homepage"@, maybe(opt_view(p.homepage))),
        ("id"@, JsonTree::Str(spec_text(n.id))),
        ("keywords"@, texts_of(Seq::empty())),
        ("license"@, maybe(opt_view(p.license))),
        ("license_file"@, maybe(opt_view(p.license_file))),
        ("links"@, maybe(opt_view(p.links))),
        ("manifest_path"@, JsonTree::Str(p.manifest_path@)),
        ("metadata"@, JsonTree::Null),
        ("name"@, JsonTree::Str(n.id.name)),
        ("publish"@, JsonTree::Null),
        ("readme"@, maybe(opt_view(p.readme))),
        ("repository"@, maybe(opt_view(p.repository))),
        ("rust_version"@, maybe(opt_view(p.rust_version))),
        ("source"@, maybe(lock_text(n.id.source))),
        ("targets"@, package_targets(p)),
        ("version"@, JsonTree::Str(version_text(n.id.version))),
    ]
}

/// What is said of a package.
pub open spec fn package_fields(n: Node) -> Fields {
    match n.package {
        Some(p) => full_fields(n@, p),
        None => bare_fields(n@),
    }
}

fn targets_json(p: &Package) -> (r: Json)
    ensures
        r@ == package_targets(*p),
{
    let ghost want = Seq::new(
        p.targets@.len(),
        |i: int| JsonTree::Object(target_fields(p.targets@[i], source_at(*p, p.targets@[i]))),
    );
    let mut out: Vec<Json> = Vec::new();
    let mut k: usize = 0;
    while k < p.targets.len()
        invariant
            k <= p.targets@.len(),
            want == Seq::new(
                p.targets@.len(),
                |i: int| JsonTree::Object(target_fields(p.targets@[i], source_at(*p, p.targets@[i]))),
            ),
            json_trees(out@) =~= want.take(k as int),
        decreases p.targets@.len() - k,
    {
        let t = &p.targets[k];
        let src: String = if crate::path::is_absolute(t.src_path.as_str()) {
            t.src_path.clone()
        } else {
            join(p.root.as_str(), t.src_path.as_str())
        };
        push_json(&mut out, target_json(t, src.as_str()));
        assert(want.take(k + 1) =~= want.take(k as int).push(want[k as int]));
        k += 1;
    }
    assert(want.take(k as int) =~= want);
    Json::Array(out)
}

fn deps_json(p: &Package) -> (r: Json)
    ensures
        r@ == package_deps(p@),
{
    let ghost dv = p@.deps;
    let ghost want = Seq::new(dv.len(), |i: int| JsonTree::Object(dep_fields(dv[i])));
    let mut out: Vec<Json> = Vec::new();
    let mut k: usize = 0;
    while k < p.deps.len()
        invariant
            k <= p.deps@.len(),
            dv == views(p.deps@),
            want == Seq::new(dv.len(), |i: int| JsonTree::Object(dep_fields(dv[i]))),
            json_trees(out@) =~= want.take(k as int),
        decreases p.deps@.len() - k,
    {
        assert(dv[k as int] == p.deps@[k as int]@);
        push_json(&mut out, dep_json(&p.deps[k]));
        assert(want.take(k + 1) =~= want.take(k as int).push(want[k as int]));
        k += 1;
    }
    assert(dv.len() == p.deps@.len());
    assert(want.take(k as int) =~= want);
    Json::Array(out)
}

fn none() -> (r: Json)
    ensures
        r@ == texts_of(Seq::empty()),
        r@ == JsonTree::Array(Seq::empty()),
{
    let l: Vec<Json> = Vec::new();
    assert(json_trees(l@) =~= Seq::<JsonTree>::empty());
    assert(Seq::new(0, |i: int| JsonTree::Str(Seq::<Seq<char>>::empty()[i])) =~= Seq::<JsonTree>::empty());
    Json::Array(l)
}

fn bare_json(n: &Node) -> (r: Json)
    ensures
        r@ == JsonTree::Object(bare_fields(n@)),
{
    proof {
        reveal_strlit("");
        assert(""@ =~= Seq::<char>::empty());
    }
    let source = n.id.source.lock_string();
    let mut o = no_fields();
    put(&mut o, "authors", none());
    put(&mut o, "categories", none());
    put(&mut o, "default_run", Json::Null);
    put(&mut o, "dependencies", none());
    put(&mut o, "description", Json::Null);
    put(&mut o, "documentation", Json::Null);
    put_text(&mut o, "edition", "");
    put(&mut o, "features", Json::Object(no_fields()));
    put(&mut o, "homepage", Json::Null);
    put_text(&mut o, "id", n.id.spec().as_str());
    put(&mut o, "keywords", none());
    put(&mut o, "license", Json::Null);
    put(&mut o, "license_file", Json::Null);
    put(&mut o, "links", Json::Null);
    put_text(&mut o, "manifest_path", "");
    put(&mut o, "metadata", Json::Null);
    put_text(&mut o, "name", n.id.name.as_str());
    put(&mut o, "publish", Json::Null);
    put(&mut o, "readme", Json::Null);
    put(&mut o, "repository", Json::Null);
    put(&mut o, "rust_version", Json::Null);
    put_maybe(&mut o, "source", &source);
    put(&mut o, "targets", none());
    put_text(&mut o, "version", n.id.version.text().as_str());
    assert(json_entries(o@) =~= bare_fields(n@));
    Json::Object(o)
}

/// What is said of a package.
pub fn metadata_package(n: &Node) -> (r: Json)
    ensures
        r@ == JsonTree::Object(package_fields(*n)),
{
    let p = match &n.package {
        Some(p) => p,
        None => {
            return bare_json(n);
        },
    };
    let source = n.id.source.lock_string();
    let mut o = no_fields();
    put_texts(&mut o, "authors", &p.authors);
    put(&mut o, "categories", none());
    put_maybe(&mut o, "default_run", &p.default_run);
    put(&mut o, "dependencies", deps_json(p));
    put_maybe(&mut o, "description", &p.description);
    put(&mut o, "documentation", Json::Null);
    put_text(&mut o, "edition", p.edition.as_str());
    put(&mut o, "features", features_json(&p.features));
    put_maybe(&mut o, "homepage", &p.homepage);
    put_text(&mut o, "id", n.id.spec().as_str());
    put(&mut o, "keywords", none());
    put_maybe(&mut o, "license", &p.license);
    put_maybe(&mut o, "license_file", &p.license_file);
    put_maybe(&mut o, "links", &p.links);
    put_text(&mut o, "manifest_path", p.manifest_path.as_str());
    put(&mut o, "metadata", Json::Null);
    put_text(&mut o, "name", n.id.name.as_str());
    put(&mut o, "publish", Json::Null);
    put_maybe(&mut o, "readme", &p.readme);
    put_maybe(&mut o, "repository", &p.repository);
    put_maybe(&mut o, "rust_version", &p.rust_version);
    put_maybe(&mut o, "source", &source);
    put(&mut o, "targets", targets_json(p));
    put_text(&mut o, "version", n.id.version.text().as_str());
    assert(json_entries(o@) =~= full_fields(n@, *p));
    Json::Object(o)
}

/// The first edge from `k` on that a declaration is about.
pub open spec fn edge_from(g: Nodes, edges: Seq<usize>, d: DepDeclView, k: int) -> Option<usize>
    decreases edges.len() - k,
{
    if k < 0 || k >= edges.len() {
        None
    } else if g[edges[k] as int].id.name == d.name && meets(d.req, g[edges[k] as int].id.version) {
        Some(edges[k])
    } else {
        edge_from(g, edges, d, k + 1)
    }
}

/// An edge, by the name that the package has for it.
pub open spec fn edge_json(name: Seq<char>, to: NodeView, kind: JsonTree) -> JsonTree {
    JsonTree::Object(
        seq![
            (
                "dep_kinds"@,
                JsonTree::Array(seq![JsonTree::Object(seq![("kind"@, kind), ("target"@, JsonTree::Null)])]),
            ),
            ("name"@, JsonTree::Str(name)),
            ("pkg"@, JsonTree::Str(spec_text(to.id))),
        ],
    )
}

/// The edges that the first `n` declarations are about.
pub open spec fn declared_edges(g: Nodes, x: NodeView, n: int) -> Seq<JsonTree>
    decreases n,
{
    if n <= 0 || n > x.decls().len() {
        Seq::empty()
    } else {
        let d = x.decls()[n - 1];
        match edge_from(g, x.edges, d, 0) {
            Some(e) => declared_edges(g, x, n - 1).push(edge_json(d.called(), g[e as int], kind_json(d.kind))),
            None => declared_edges(g, x, n - 1),
        }
    }
}

pub open spec fn plain_edges(g: Nodes, edges: Seq<usize>) -> Seq<JsonTree> {
    Seq::new(edges.len(), |i: int| edge_json(g[edges[i] as int].id.name, g[edges[i] as int], JsonTree::Null))
}

/// The edges of a node: by its declarations, or as they are where no declaration is about one.
pub open spec fn node_edges(g: Nodes, x: NodeView) -> Seq<JsonTree> {
    let l = declared_edges(g, x, x.decls().len() as int);
    if l.len() == 0 {
        plain_edges(g, x.edges)
    } else {
        l
    }
}

pub open spec fn specs_at(g: Nodes, l: Seq<usize>) -> Seq<Seq<char>> {
    Seq::new(l.len(), |i: int| spec_text(g[l[i] as int].id))
}

/// A node of the graph, with the features that it is built with.
pub open spec fn resolve_node(g: Nodes, n: int, features: Seq<Seq<char>>) -> JsonTree {
    JsonTree::Object(
        seq![
            ("dependencies"@, texts_of(specs_at(g, g[n].edges))),
            ("deps"@, JsonTree::Array(node_edges(g, g[n]))),
            ("features"@, texts_of(features)),
            ("id"@, JsonTree::Str(spec_text(g[n].id))),
        ],
    )
}

pub open spec fn lists(l: Seq<Vec<String>>) -> Seq<Seq<Seq<char>>> {
    Seq::new(l.len(), |i: int| views(l[i]@))
}

pub open spec fn resolve_json(g: Nodes, members: Seq<usize>, features: Seq<Seq<Seq<char>>>) -> JsonTree {
    JsonTree::Object(
        seq![
            ("nodes"@, JsonTree::Array(Seq::new(g.len(), |n: int| resolve_node(g, n, features[n])))),
            (
                "root"@,
                if members.len() == 0 {
                    JsonTree::Null
                } else {
                    JsonTree::Str(spec_text(g[members[0] as int].id))
                },
            ),
        ],
    )
}

pub open spec fn packages_at(nodes: Seq<Node>, l: Seq<usize>) -> JsonTree {
    JsonTree::Array(Seq::new(l.len(), |i: int| JsonTree::Object(package_fields(nodes[l[i] as int]))))
}

/// Every node in order.
pub open spec fn everything(n: nat) -> Seq<usize> {
    Seq::new(n, |i: int| i as usize)
}

/// The metadata of a workspace. `features` are those of each node; nothing is resolved without dependencies.
pub open spec fn metadata_json(ws: Workspace, features: Option<Seq<Seq<Seq<char>>>>) -> JsonTree {
    let g = ws.graph@;
    let members = ws.members@;
    JsonTree::Object(
        seq![
            ("build_directory"@, JsonTree::Str(ws.target_dir@)),
            ("metadata"@, JsonTree::Null),
            (
                "packages"@,
                packages_at(
                    ws.graph.nodes@,
                    if features.is_none() {
                        members
                    } else {
                        everything(g.len())
                    },
                ),
            ),
            (
                "resolve"@,
                match features {
                    None => JsonTree::Null,
                    Some(f) => resolve_json(g, members, f),
                },
            ),
            ("target_directory"@, JsonTree::Str(ws.target_dir@)),
            ("version"@, number(1)),
            (
                "workspace_default_members"@,
                texts_of(
                    specs_at(
                        g,
                        if ws.default_members@.len() == 0 {
                            members
                        } else {
                            ws.default_members@
                        },
                    ),
                ),
            ),
            ("workspace_members"@, texts_of(specs_at(g, members))),
            ("workspace_root"@, JsonTree::Str(ws.root@)),
        ],
    )
}

fn find_edge(g: &Graph, edges: &Vec<usize>, d: &DepDecl) -> (r: Option<usize>)
    requires
        forall|i: int| 0 <= i < edges@.len() ==> #[trigger] edges@[i] < g.nodes@.len(),
    ensures
        r == edge_from(g@, edges@, d@, 0),
        r matches Some(e) ==> e < g.nodes@.len(),
{
    let ghost gv = g@;
    let mut k: usize = 0;
    while k < edges.len()
        invariant
            k <= edges@.len(),
            gv == views(g.nodes@),
            forall|i: int| 0 <= i < edges@.len() ==> #[trigger] edges@[i] < g.nodes@.len(),
            edge_from(gv, edges@, d@, 0) == edge_from(gv, edges@, d@, k as int),
        decreases edges@.len() - k,
    {
        assert(edges@[k as int] < g.nodes@.len());
        let e: usize = edges[k];
        assert(gv[e as int] == g.nodes@[e as int]@);
        let id = &g.nodes[e].id;
        if same(id.name.as_str(), d.name.as_str()) && d.req.matches(&id.version) {
            return Some(e);
        }
        k += 1;
    }
    None
}

fn make_edge(name: &str, to: &Node, kind: Json) -> (r: Json)
    ensures
        r@ == edge_json(name@, to@, kind@),
{
    let ghost kv = kind@;
    let mut k = no_fields();
    put(&mut k, "kind", kind);
    put(&mut k, "target", Json::Null);
    assert(json_entries(k@) =~= seq![("kind"@, kv), ("target"@, JsonTree::Null)]);
    let mut l: Vec<Json> = Vec::new();
    l.push(Json::Object(k));
    assert(json_trees(l@) =~= seq![JsonTree::Object(seq![("kind"@, kv), ("target"@, JsonTree::Null)])]);
    let mut o = no_fields();
    put(&mut o, "dep_kinds", Json::Array(l));
    put_text(&mut o, "name", name);
    put_text(&mut o, "pkg", to.id.spec().as_str());
    assert(json_entries(o@) =~= edge_json(name@, to@, kv)->Object_0);
    Json::Object(o)
}

fn list_edges(g: &Graph, n: usize) -> (r: Vec<Json>)
    requires
        n < g.nodes@.len(),
        edges_in_range(g@),
    ensures
        json_trees(r@) == node_edges(g@, g@[n as int]),
{
    let ghost gv = g@;
    let x = &g.nodes[n];
    let ghost xv = gv[n as int];
    assert(xv == x@);
    proof {
        lemma_decls(*x);
    }
    assert forall|i: int| 0 <= i < x.edges@.len() implies #[trigger] x.edges@[i] < g.nodes@.len() by {
        assert(gv[n as int].edges[i] < gv.len());
    }
    let ds = x.deps();
    let ghost dv = xv.decls();
    assert(dv.len() == ds@.len());
    let mut out: Vec<Json> = Vec::new();
    let mut k: usize = 0;
    assert(json_trees(out@) =~= Seq::<JsonTree>::empty());
    while k < ds.len()
        invariant
            k <= ds@.len(),
            gv == views(g.nodes@),
            xv == x@,
            dv == xv.decls(),
            dv == views(ds@),
            forall|i: int| 0 <= i < x.edges@.len() ==> #[trigger] x.edges@[i] < g.nodes@.len(),
            json_trees(out@) == declared_edges(gv, xv, k as int),
        decreases ds@.len() - k,
    {
        let d = &ds[k];
        assert(dv[k as int] == d@);
        if let Some(e) = find_edge(g, &x.edges, d) {
            assert(gv[e as int] == g.nodes@[e as int]@);
            push_json(&mut out, make_edge(d.dep_name(), &g.nodes[e], dep_kind_json(d.kind)));
        }
        k += 1;
    }
    assert(json_trees(out@).len() == out@.len());
    if out.len() == 0 {
        let ghost want = plain_edges(gv, xv.edges);
        let mut k: usize = 0;
        while k < x.edges.len()
            invariant
                k <= x.edges@.len(),
                gv == views(g.nodes@),
                xv.edges == x.edges@,
                forall|i: int| 0 <= i < x.edges@.len() ==> #[trigger] x.edges@[i] < g.nodes@.len(),
                want == plain_edges(gv, xv.edges),
                json_trees(out@) =~= want.take(k as int),
            decreases x.edges@.len() - k,
        {
            assert(x.edges@[k as int] < g.nodes@.len());
            let e: usize = x.edges[k];
            assert(gv[e as int] == g.nodes@[e as int]@);
            push_json(&mut out, make_edge(g.nodes[e].id.name.as_str(), &g.nodes[e], Json::Null));
            assert(want.take(k + 1) =~= want.take(k as int).push(want[k as int]));
            k += 1;
        }
        assert(want.take(k as int) =~= want);
    }
    out
}

fn spec_list(g: &Graph, l: &Vec<usize>) -> (r: Vec<String>)
    requires
        forall|i: int| 0 <= i < l@.len() ==> #[trigger] l@[i] < g.nodes@.len(),
    ensures
        views(r@) == specs_at(g@, l@),
{
    let ghost gv = g@;
    let ghost want = specs_at(gv, l@);
    let mut out: Vec<String> = Vec::new();
    let mut k: usize = 0;
    while k < l.len()
        invariant
            k <= l@.len(),
            gv == views(g.nodes@),
            want == specs_at(gv, l@),
            forall|i: int| 0 <= i < l@.len() ==> #[trigger] l@[i] < g.nodes@.len(),
            views(out@) =~= want.take(k as int),
        decreases l@.len() - k,
    {
        assert(l@[k as int] < g.nodes@.len());
        let n: usize = l[k];
        assert(gv[n as int] == g.nodes@[n as int]@);
        let ghost was = out@;
        let s = g.nodes[n].id.spec();
        let ghost sv = s@;
        out.push(s);
        assert(views(out@) =~= views(was).push(sv));
        assert(want.take(k + 1) =~= want.take(k as int).push(want[k as int]));
        k += 1;
    }
    assert(want.take(k as int) =~= want);
    out
}

fn resolve_of(g: &Graph, members: &Vec<usize>, features: &Vec<Vec<String>>) -> (r: Json)
    requires
        edges_in_range(g@),
        features@.len() == g.nodes@.len(),
        forall|i: int| 0 <= i < members@.len() ==> #[trigger] members@[i] < g.nodes@.len(),
    ensures
        r@ == resolve_json(g@, members@, lists(features@)),
{
    let ghost gv = g@;
    let ghost fv = lists(features@);
    assert(gv.len() == g.nodes@.len());
    let ghost want = Seq::new(gv.len(), |n: int| resolve_node(gv, n, fv[n]));
    let mut out: Vec<Json> = Vec::new();
    let mut n: usize = 0;
    while n < g.nodes.len()
        invariant
            n <= g.nodes@.len(),
            gv == g@,
            gv == views(g.nodes@),
            gv.len() == g.nodes@.len(),
            fv == lists(features@),
            features@.len() == g.nodes@.len(),
            edges_in_range(gv),
            want == Seq::new(gv.len(), |n: int| resolve_node(gv, n, fv[n])),
            json_trees(out@) =~= want.take(n as int),
        decreases g.nodes@.len() - n,
    {
        let x = &g.nodes[n];
        assert(gv[n as int] == x@);
        assert(fv[n as int] == views(features@[n as int]@));
        assert forall|i: int| 0 <= i < x.edges@.len() implies #[trigger] x.edges@[i] < g.nodes@.len() by {
            assert(gv[n as int].edges[i] < gv.len());
        }
        let specs = spec_list(g, &x.edges);
        let mut o = no_fields();
        put_texts(&mut o, "dependencies", &specs);
        put(&mut o, "deps", Json::Array(list_edges(g, n)));
        put_texts(&mut o, "features", &features[n]);
        put_text(&mut o, "id", x.id.spec().as_str());
        assert(json_entries(o@) =~= resolve_node(gv, n as int, fv[n as int])->Object_0);
        push_json(&mut out, Json::Object(o));
        assert(want.take(n + 1) =~= want.take(n as int).push(want[n as int]));
        n += 1;
    }
    assert(want.take(n as int) =~= want);
    let mut o = no_fields();
    put(&mut o, "nodes", Json::Array(out));
    if members.len() == 0 {
        put(&mut o, "root", Json::Null);
    } else {
        assert(members@[0] < g.nodes@.len());
        let m: usize = members[0];
        assert(gv[m as int] == g.nodes@[m as int]@);
        put_text(&mut o, "root", g.nodes[m].id.spec().as_str());
    }
    assert(json_entries(o@) =~= resolve_json(gv, members@, fv)->Object_0);
    Json::Object(o)
}

fn packages_json(g: &Graph, l: &Vec<usize>) -> (r: Json)
    requires
        forall|i: int| 0 <= i < l@.len() ==> #[trigger] l@[i] < g.nodes@.len(),
    ensures
        r@ == packages_at(g.nodes@, l@),
{
    let ghost want = Seq::new(l@.len(), |i: int| JsonTree::Object(package_fields(g.nodes@[l@[i] as int])));
    let mut out: Vec<Json> = Vec::new();
    let mut k: usize = 0;
    while k < l.len()
        invariant
            k <= l@.len(),
            want == Seq::new(l@.len(), |i: int| JsonTree::Object(package_fields(g.nodes@[l@[i] as int]))),
            forall|i: int| 0 <= i < l@.len() ==> #[trigger] l@[i] < g.nodes@.len(),
            json_trees(out@) =~= want.take(k as int),
        decreases l@.len() - k,
    {
        assert(l@[k as int] < g.nodes@.len());
        push_json(&mut out, metadata_package(&g.nodes[l[k]]));
        assert(want.take(k + 1) =~= want.take(k as int).push(want[k as int]));
        k += 1;
    }
    assert(want.take(k as int) =~= want);
    Json::Array(out)
}

/// The metadata of a workspace, in the one version of the format that there is; the version that is asked for where
/// that is another. `features` are those of each node; without them only the members are shown.
pub fn metadata(ws: &Workspace, format_version: u32, features: Option<&Vec<Vec<String>>>) -> (r: Result<Json, u32>)
    requires
        edges_in_range(ws.graph@),
        forall|i: int| 0 <= i < ws.members@.len() ==> #[trigger] ws.members@[i] < ws.graph.nodes@.len(),
        forall|i: int| 0 <= i < ws.default_members@.len() ==> #[trigger] ws.default_members@[i] < ws.graph.nodes@.len(),
        features matches Some(f) ==> f@.len() == ws.graph.nodes@.len(),
    ensures
        if format_version == 1 {
            r matches Ok(j) && j@ == metadata_json(
                *ws,
                match features {
                    Some(f) => Some(lists(f@)),
                    None => None,
                },
            )
        } else {
            r == Err::<Json, u32>(format_version)
        },
{
    if format_version != 1 {
        return Err(format_version);
    }
    let g = &ws.graph;
    let ghost gv = g@;
    let ghost fv: Option<Seq<Seq<Seq<char>>>> = match features {
        Some(f) => Some(lists(f@)),
        None => None,
    };
    assert(gv.len() == g.nodes@.len());
    let members = spec_list(g, &ws.members);
    let defaults = if ws.default_members.len() == 0 {
        spec_list(g, &ws.members)
    } else {
        spec_list(g, &ws.default_members)
    };
    let mut o = no_fields();
    put_text(&mut o, "build_directory", ws.target_dir.as_str());
    put(&mut o, "metadata", Json::Null);
    match features {
        None => {
            put(&mut o, "packages", packages_json(g, &ws.members));
            put(&mut o, "resolve", Json::Null);
        },
        Some(f) => {
            let mut all: Vec<usize> = Vec::new();
            let n: usize = g.nodes.len();
            while all.len() < n
                invariant
                    all@.len() <= n,
                    n == g.nodes@.len(),
                    forall|i: int| 0 <= i < all@.len() ==> #[trigger] all@[i] == i,
                decreases n - all@.len(),
            {
                let k: usize = all.len();
                all.push(k);
            }
            assert(all@ =~= everything(gv.len()));
            put(&mut o, "packages", packages_json(g, &all));
            put(&mut o, "resolve", resolve_of(g, &ws.members, f));
        },
    }
    put_text(&mut o, "target_directory", ws.target_dir.as_str());
    put(&mut o, "version", Json::Number(u64_text(1)));
    put_texts(&mut o, "workspace_default_members", &defaults);
    put_texts(&mut o, "workspace_members", &members);
    put_text(&mut o, "workspace_root", ws.root.as_str());
    assert(json_entries(o@) =~= metadata_json(*ws, fv)->Object_0);
    Ok(Json::Object(o))
}

// ---------------------------------------------------------------------------
// Projects that use the store.

/// A project's registration: where it is, when it was used, how files get there, and its keys.
pub open spec fn project_fields(target: Seq<char>, now: u64, link_mode: Seq<char>, keys: Seq<Seq<char>>) -> Fields {
    seq![
        ("keys"@, texts_of(keys)),
        ("last_used"@, number(now as int)),
        ("link_mode"@, JsonTree::Str(link_mode)),
        ("target_dir"@, JsonTree::Str(target)),
    ]
}

/// A project's registration.
pub fn register_project(target: &str, now: u64, link_mode: &str, keys: &Vec<String>) -> (r: Json)
    ensures
        r@ == JsonTree::Object(project_fields(target@, now, link_mode@, views(keys@))),
{
    let mut o = no_fields();
    put_texts(&mut o, "keys", keys);
    put(&mut o, "last_used", Json::Number(u64_text(now)));
    put_text(&mut o, "link_mode", link_mode);
    put_text(&mut o, "target_dir", target);
    assert(json_entries(o@) =~= project_fields(target@, now, link_mode@, views(keys@)));
    Json::Object(o)
}

/// The texts of the first `n` values.
pub open spec fn keys_upto(l: Seq<JsonTree>, n: int) -> Set<Seq<char>>
    decreases n,
{
    if n <= 0 || n > l.len() {
        Set::empty()
    } else {
        match l[n - 1] {
            JsonTree::Str(s) => keys_upto(l, n - 1).insert(s),
            _ => keys_upto(l, n - 1),
        }
    }
}

/// The keys of a registration; none where it says no directory, or the one that is left out.
pub open spec fn keys_in(j: JsonTree, skip: Option<Seq<char>>) -> Set<Seq<char>> {
    match (text_in(member(j, "target_dir"@)), member(j, "keys"@)) {
        (Some(t), Some(JsonTree::Array(l))) => if skip == Some(t) {
            Set::empty()
        } else {
            keys_upto(l, l.len() as int)
        },
        _ => Set::empty(),
    }
}

pub open spec fn is_symlinked(j: JsonTree) -> bool {
    text_in(member(j, "link_mode"@)) == Some("symlink"@)
}

/// The keys of the first `n` registrations: of those that link by symbolic links, or of all.
pub open spec fn all_keys(docs: Seq<JsonTree>, skip: Option<Seq<char>>, symlinked: bool, n: int) -> Set<Seq<char>>
    decreases n,
{
    if n <= 0 || n > docs.len() {
        Set::empty()
    } else if symlinked && !is_symlinked(docs[n - 1]) {
        all_keys(docs, skip, symlinked, n - 1)
    } else {
        all_keys(docs, skip, symlinked, n - 1).union(keys_in(docs[n - 1], skip))
    }
}

fn add_keys(out: &mut StrSet, j: &Json, skip: Option<&str>)
    ensures
        final(out)@ == old(out)@.union(keys_in(j@, crate::invocation::opt_text(skip))),
{
    let ghost start = out@;
    let ghost sk = crate::invocation::opt_text(skip);
    let t: &str = match j.get("target_dir") {
        Some(Json::Str(t)) => t.as_str(),
        _ => {
            assert(start.union(keys_in(j@, sk)) =~= start);
            return;
        },
    };
    let l = match j.get("keys") {
        Some(Json::Array(l)) => l,
        _ => {
            assert(start.union(keys_in(j@, sk)) =~= start);
            return;
        },
    };
    if let Some(s) = skip {
        if same(s, t) {
            assert(start.union(keys_in(j@, sk)) =~= start);
            return;
        }
    }
    let ghost lv = json_trees(l@);
    let mut k: usize = 0;
    assert(start.union(keys_upto(lv, 0)) =~= start);
    while k < l.len()
        invariant
            k <= l@.len(),
            lv == json_trees(l@),
            out@ == start.union(keys_upto(lv, k as int)),
        decreases l@.len() - k,
    {
        assert(lv[k as int] == json_tree(l@[k as int]));
        if let Json::Str(s) = &l[k] {
            out.insert(s.as_str());
        }
        k += 1;
        assert(out@ =~= start.union(keys_upto(lv, k as int)));
    }
    assert(lv.len() == l@.len());
}

/// Keys in other live projects: those of projects that link by symbolic links, and those of all. The registrations are
/// those whose directory is still there.
pub fn project_keys(docs: &Vec<Json>, skip: Option<&str>) -> (r: (StrSet, StrSet))
    ensures
        r.0@ == all_keys(json_trees(docs@), crate::invocation::opt_text(skip), true, docs@.len() as int),
        r.1@ == all_keys(json_trees(docs@), crate::invocation::opt_text(skip), false, docs@.len() as int),
{
    let ghost dv = json_trees(docs@);
    let ghost sk = crate::invocation::opt_text(skip);
    let mut linked = StrSet::new();
    let mut all = StrSet::new();
    let mut k: usize = 0;
    while k < docs.len()
        invariant
            k <= docs@.len(),
            dv == json_trees(docs@),
            sk == crate::invocation::opt_text(skip),
            linked@ == all_keys(dv, sk, true, k as int),
            all@ == all_keys(dv, sk, false, k as int),
        decreases docs@.len() - k,
    {
        assert(dv[k as int] == json_tree(docs@[k as int]));
        let j = &docs[k];
        let symlink: bool = match j.get("link_mode") {
            Some(Json::Str(s)) => same(s.as_str(), "symlink"),
            _ => false,
        };
        if symlink {
            add_keys(&mut linked, j, skip);
        }
        add_keys(&mut all, j, skip);
        k += 1;
    }
    (linked, all)
}

/// What a project registered is read back: its keys count, unless it is the project itself.
pub proof fn law_registered_keys_count(target: Seq<char>, now: u64, link_mode: Seq<char>, keys: Seq<Seq<char>>, skip: Option<Seq<char>>, key: Seq<char>)
    requires
        keys.contains(key),
        skip != Some(target),
    ensures
        keys_in(JsonTree::Object(project_fields(target, now, link_mode, keys)), skip).contains(key),
{
    reveal(crate::value::at);
    let f = project_fields(target, now, link_mode, keys);
    reveal_strlit("keys");
    reveal_strlit("last_used");
    reveal_strlit("link_mode");
    reveal_strlit("target_dir");
    assert("keys"@.len() != "target_dir"@.len());
    assert("last_used"@.len() != "target_dir"@.len());
    assert("link_mode"@.len() != "target_dir"@.len());
    reveal_with_fuel(crate::value::entry_at, 6);
    let j = JsonTree::Object(f);
    assert(member(j, "keys"@) == Some(texts_of(keys)));
    assert(member(j, "target_dir"@) == Some(JsonTree::Str(target)));
    let l = Seq::new(keys.len(), |i: int| JsonTree::Str(keys[i]));
    let i = choose|i: int| 0 <= i < keys.len() && keys[i] == key;
    lemma_keys_upto(l, keys, i, l.len() as int);
}

proof fn lemma_keys_upto(l: Seq<JsonTree>, keys: Seq<Seq<char>>, i: int, n: int)
    requires
        l == Seq::new(keys.len(), |i: int| JsonTree::Str(keys[i])),
        0 <= i < n <= l.len(),
    ensures
        keys_upto(l, n).contains(keys[i]),
    decreases n,
{
    if i < n - 1 {
        lemma_keys_upto(l, keys, i, n - 1);
    }
}

/// A registration is plain, so that it comes back from its text.
pub proof fn law_registrations_survive_as_text(target: Seq<char>, now: u64, link_mode: Seq<char>, keys: Seq<Seq<char>>)
    ensures
        crate::json::plain(JsonTree::Object(project_fields(target, now, link_mode, keys)), 100),
{
    reveal_strlit("keys");
    reveal_strlit("last_used");
    reveal_strlit("link_mode");
    reveal_strlit("target_dir");
    crate::order::lemma_before_at("keys"@, "last_used"@, 0);
    crate::order::lemma_before_at("last_used"@, "link_mode"@, 1);
    crate::order::lemma_before_at("link_mode"@, "target_dir"@, 0);
    let l = project_fields(target, now, link_mode, keys);
    crate::json::lemma_keys_ascend(l);
    let t = texts_of(keys)->Array_0;
    assert forall|k: int| 0 <= k < t.len() implies crate::json::plain(#[trigger] t[k], 98) by {}
    crate::json::lemma_plain_number(now, 99);
    assert forall|k: int| 0 <= k < l.len() implies crate::json::plain((#[trigger] l[k]).1, 99) by {
        if k == 0 {
            assert(l[k].1 == texts_of(keys));
        } else if k == 1 {
            assert(l[k].1 == number(now as int));
        }
    }
}

} // verus!
