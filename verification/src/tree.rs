//! The dependency graph as an indented tree.

use vstd::prelude::*;
use crate::manifest::DepDecl;
use crate::manifest::DepDeclView;
use crate::manifest::DepKind;
use crate::manifest::TargetKind;
use crate::num::dec;
use crate::num::usize_text;
use crate::resolve::Graph;
use crate::resolve::Node;
use crate::resolve::NodeView;
use crate::resolve::Nodes;
use crate::resolve::SourceId;
use crate::resolve::SourceIdView;
use crate::resolve::edges_in_range;
use crate::resolve::lemma_decls;
use crate::sets::has;
use crate::strmap::listed;
use crate::text::cat3;
use crate::text::cat4;
use crate::text::cat;
use crate::text::chars_of;
use crate::text::find_from;
use crate::text::first_at;
use crate::text::join;
use crate::text::joined;
use crate::text::opt_view;
use crate::text::same;
use crate::text::string_of;
use crate::text::swapped;
use crate::text::views;
use crate::version::VersionView;
use crate::version::is_older;
use crate::version::meets;
use crate::version::newest_upto;
use crate::version::version_text;
use crate::workspace::Resolution;

verus! {

// ---------------------------------------------------------------------------
// Formats.

/// Why a format is refused.
#[derive(Debug)]
pub enum FormatError {
    /// A brace is not closed.
    Open,
    Pattern(String),
}

pub enum FormatFault {
    Open,
    Pattern(Seq<char>),
}

impl View for FormatError {
    type V = FormatFault;

    open spec fn view(&self) -> FormatFault {
        match self {
            FormatError::Open => FormatFault::Open,
            FormatError::Pattern(s) => FormatFault::Pattern(s@),
        }
    }
}

pub open spec fn is_pattern(key: Seq<char>) -> bool {
    key == "p"@ || key == "lib"@ || key == "l"@ || key == "r"@ || key == "f"@
}

/// What is wrong with a format from `i` on.
pub open spec fn fault_from(s: Seq<char>, i: int) -> Option<FormatFault>
    decreases s.len() - i,
{
    let a = first_at(s, '{', i);
    let b = first_at(s, '}', a + 1);
    if i < 0 || a < i || a >= s.len() {
        None
    } else if b <= a || b >= s.len() {
        Some(FormatFault::Open)
    } else if !is_pattern(s.subrange(a + 1, b)) {
        Some(FormatFault::Pattern(s.subrange(a + 1, b)))
    } else {
        fault_from(s, b + 1)
    }
}

fn known_pattern(key: &str) -> (r: bool)
    ensures
        r == is_pattern(key@),
{
    same(key, "p") || same(key, "lib") || same(key, "l") || same(key, "r") || same(key, "f")
}

/// Whether a format can be filled in.
pub fn validate_tree_format(format: &str) -> (r: Result<(), FormatError>)
    ensures
        match fault_from(format@, 0) {
            None => r.is_ok(),
            Some(e) => r matches Err(x) && x@ == e,
        },
{
    let cs = chars_of(format);
    let mut i: usize = 0;
    loop
        invariant
            cs@ == format@,
            i <= cs@.len(),
            fault_from(format@, 0) == fault_from(format@, i as int),
        decreases cs@.len() - i,
    {
        let a: usize = find_from(&cs, '{', i);
        if a >= cs.len() {
            return Ok(());
        }
        let b: usize = find_from(&cs, '}', a + 1);
        if b >= cs.len() {
            return Err(FormatError::Open);
        }
        let key = string_of(&cs, a + 1, b);
        if !known_pattern(key.as_str()) {
            return Err(FormatError::Pattern(key));
        }
        i = b + 1;
    }
}

/// What the patterns of a format stand for, for one node.
#[derive(Debug)]
pub struct NodeText {
    pub label: String,
    pub lib: String,
    pub license: String,
    pub repository: String,
    pub features: String,
}

pub struct NodeTextView {
    pub label: Seq<char>,
    pub lib: Seq<char>,
    pub license: Seq<char>,
    pub repository: Seq<char>,
    pub features: Seq<char>,
}

impl View for NodeText {
    type V = NodeTextView;

    open spec fn view(&self) -> NodeTextView {
        NodeTextView {
            label: self.label@,
            lib: self.lib@,
            license: self.license@,
            repository: self.repository@,
            features: self.features@,
        }
    }
}

pub open spec fn pattern_value(t: NodeTextView, key: Seq<char>) -> Seq<char> {
    if key == "p"@ {
        t.label
    } else if key == "lib"@ {
        t.lib
    } else if key == "l"@ {
        t.license
    } else if key == "r"@ {
        t.repository
    } else {
        t.features
    }
}

/// The format from `i` on, with the values in place of the patterns.
pub open spec fn filled_from(s: Seq<char>, t: NodeTextView, i: int) -> Seq<char>
    decreases s.len() - i,
{
    let a = first_at(s, '{', i);
    let b = first_at(s, '}', a + 1);
    if i < 0 || a < i || a >= s.len() || b <= a || b >= s.len() {
        s.skip(i)
    } else {
        s.subrange(i, a) + pattern_value(t, s.subrange(a + 1, b)) + filled_from(s, t, b + 1)
    }
}

fn value_for<'a>(t: &'a NodeText, key: &str) -> (r: &'a str)
    ensures
        r@ == pattern_value(t@, key@),
{
    if same(key, "p") {
        t.label.as_str()
    } else if same(key, "lib") {
        t.lib.as_str()
    } else if same(key, "l") {
        t.license.as_str()
    } else if same(key, "r") {
        t.repository.as_str()
    } else {
        t.features.as_str()
    }
}

/// The format with the values in place of the patterns.
pub fn format_node(format: &str, t: &NodeText) -> (r: String)
    requires
        fault_from(format@, 0).is_none(),
    ensures
        r@ == filled_from(format@, t@, 0),
{
    let cs = chars_of(format);
    let ghost s = format@;
    let mut out = String::new();
    let mut i: usize = 0;
    assert(out@ + filled_from(s, t@, 0) =~= filled_from(s, t@, 0));
    loop
        invariant
            cs@ == s,
            s == format@,
            i <= cs@.len(),
            fault_from(s, i as int).is_none(),
            out@ + filled_from(s, t@, i as int) == filled_from(s, t@, 0),
        decreases cs@.len() - i,
    {
        let a: usize = find_from(&cs, '{', i);
        if a >= cs.len() {
            let n: usize = cs.len();
            let rest = string_of(&cs, i, n);
            assert(s.subrange(i as int, n as int) =~= s.skip(i as int));
            return cat(out.as_str(), rest.as_str());
        }
        let b: usize = find_from(&cs, '}', a + 1);
        let b: usize = if b >= cs.len() {
            cs.len() - 1
        } else {
            b
        };
        assert(b == first_at(s, '}', a + 1));
        let text = string_of(&cs, i, a);
        let key = string_of(&cs, a + 1, b);
        let ghost was = out@;
        out = cat3(out.as_str(), text.as_str(), value_for(t, key.as_str()));
        assert(was + filled_from(s, t@, i as int) =~= out@ + filled_from(s, t@, b + 1));
        i = b + 1;
    }
}

/// A node as the tree names it.
pub open spec fn label_of(n: NodeView) -> Seq<char> {
    match n.id.source {
        SourceIdView::Path(p) => n.id.name + " v"@ + version_text(n.id.version) + " ("@ + p + ")"@,
        _ => n.id.name + " v"@ + version_text(n.id.version),
    }
}

/// The first library from `k` on.
pub open spec fn lib_from(ts: Seq<crate::manifest::TargetView>, k: int) -> Seq<char>
    decreases ts.len() - k,
{
    if k < 0 || k >= ts.len() {
        Seq::empty()
    } else if ts[k].kind == TargetKind::Lib {
        swapped(ts[k].name, '-', '_')
    } else {
        lib_from(ts, k + 1)
    }
}

pub open spec fn or_none(o: Option<Seq<char>>) -> Seq<char> {
    match o {
        Some(s) => s,
        None => Seq::empty(),
    }
}

/// What the patterns stand for, for a node.
pub open spec fn text_for(n: NodeView, features: Seq<char>) -> NodeTextView {
    match n.package {
        Some(p) => NodeTextView {
            label: label_of(n),
            lib: lib_from(p.targets, 0),
            license: or_none(p.about.license),
            repository: or_none(p.about.repository),
            features,
        },
        None => NodeTextView {
            label: label_of(n),
            lib: Seq::empty(),
            license: Seq::empty(),
            repository: Seq::empty(),
            features,
        },
    }
}

fn tree_label(n: &Node) -> (r: String)
    ensures
        r@ == label_of(n@),
{
    let v = n.id.version.text();
    match &n.id.source {
        SourceId::Path(p) => {
            let a = cat3(n.id.name.as_str(), " v", v.as_str());
            cat4(a.as_str(), " (", p.as_str(), ")")
        },
        _ => cat3(n.id.name.as_str(), " v", v.as_str()),
    }
}

fn tree_lib(ts: &Vec<crate::manifest::Target>) -> (r: String)
    ensures
        r@ == lib_from(views(ts@), 0),
{
    let ghost tv = views(ts@);
    let mut k: usize = 0;
    while k < ts.len()
        invariant
            k <= ts@.len(),
            tv == views(ts@),
            lib_from(tv, 0) == lib_from(tv, k as int),
        decreases ts@.len() - k,
    {
        assert(tv[k as int] == ts@[k as int]@);
        if ts[k].kind == TargetKind::Lib {
            return ts[k].crate_name();
        }
        k += 1;
    }
    assert(tv.len() == ts@.len());
    String::new()
}

fn text_or_none(o: &Option<String>) -> (r: String)
    ensures
        r@ == or_none(opt_view(*o)),
{
    match o {
        Some(s) => s.clone(),
        None => String::new(),
    }
}

/// What the patterns stand for, for a node.
pub fn node_text(n: &Node, features: &str) -> (r: NodeText)
    ensures
        r@ == text_for(n@, features@),
{
    proof {
        reveal_strlit("");
        assert(""@ =~= Seq::<char>::empty());
    }
    let label = tree_label(n);
    match &n.package {
        Some(p) => NodeText {
            label,
            lib: tree_lib(&p.targets),
            license: text_or_none(&p.license),
            repository: text_or_none(&p.repository),
            features: features.to_owned(),
        },
        None => NodeText {
            label,
            lib: String::new(),
            license: String::new(),
            repository: String::new(),
            features: features.to_owned(),
        },
    }
}

// ---------------------------------------------------------------------------
// Edges.

/// Why nothing is shown.
#[derive(Debug)]
pub enum TreeError {
    Edges(String),
    Prefix(String),
    /// The package is not in the graph.
    NotFound(String),
}

/// The kinds of dependencies that `--edges` asks for.
pub open spec fn kinds_of(edges: Seq<char>) -> Option<Seq<DepKind>> {
    if edges == "normal"@ {
        Some(seq![DepKind::Normal])
    } else if edges == "dev"@ {
        Some(seq![DepKind::Dev])
    } else if edges == "build"@ {
        Some(seq![DepKind::Build])
    } else if edges == "all"@ {
        Some(seq![DepKind::Normal, DepKind::Dev, DepKind::Build])
    } else {
        None
    }
}

/// The kinds of dependencies that `--edges` asks for.
pub fn edge_kinds(edges: &str) -> (r: Result<Vec<DepKind>, TreeError>)
    ensures
        match kinds_of(edges@) {
            Some(l) => r matches Ok(v) && v@ == l,
            None => r matches Err(TreeError::Edges(s)) && s@ == edges@,
        },
{
    let mut v: Vec<DepKind> = Vec::new();
    if same(edges, "normal") {
        v.push(DepKind::Normal);
        assert(v@ =~= seq![DepKind::Normal]);
    } else if same(edges, "dev") {
        v.push(DepKind::Dev);
        assert(v@ =~= seq![DepKind::Dev]);
    } else if same(edges, "build") {
        v.push(DepKind::Build);
        assert(v@ =~= seq![DepKind::Build]);
    } else if same(edges, "all") {
        v.push(DepKind::Normal);
        v.push(DepKind::Dev);
        v.push(DepKind::Build);
        assert(v@ =~= seq![DepKind::Normal, DepKind::Dev, DepKind::Build]);
    } else {
        return Err(TreeError::Edges(edges.to_owned()));
    }
    Ok(v)
}

/// The first `n` declarations of the kinds.
pub open spec fn of_kinds(ds: Seq<DepDeclView>, kinds: Seq<DepKind>, n: int) -> Seq<DepDeclView>
    decreases n,
{
    if n <= 0 || n > ds.len() {
        Seq::empty()
    } else if kinds.contains(ds[n - 1].kind) {
        of_kinds(ds, kinds, n - 1).push(ds[n - 1])
    } else {
        of_kinds(ds, kinds, n - 1)
    }
}

pub open spec fn edge_versions(g: Nodes, edges: Seq<usize>) -> Seq<VersionView> {
    Seq::new(edges.len(), |i: int| g[edges[i] as int].id.version)
}

/// The newest node that an edge leads to and that a declaration is about.
pub open spec fn kid_of(g: Nodes, edges: Seq<usize>, d: DepDeclView) -> Option<usize> {
    match newest_upto(
        edge_versions(g, edges),
        |i: int| g[edges[i] as int].id.name == d.name && meets(d.req, g[edges[i] as int].id.version),
        edges.len() as int,
    ) {
        Some(k) => Some(edges[k]),
        None => None,
    }
}

/// What the first `n` declarations lead to.
pub open spec fn kids_upto(g: Nodes, edges: Seq<usize>, ds: Seq<DepDeclView>, n: int) -> Seq<usize>
    decreases n,
{
    if n <= 0 || n > ds.len() {
        Seq::empty()
    } else {
        match kid_of(g, edges, ds[n - 1]) {
            Some(e) => kids_upto(g, edges, ds, n - 1).push(e),
            None => kids_upto(g, edges, ds, n - 1),
        }
    }
}

/// What a node depends on: by its declarations, or by its edges where nothing else is known of it.
pub open spec fn kids_of(g: Nodes, n: int, kinds: Seq<DepKind>) -> Seq<usize> {
    let x = g[n];
    let ds = of_kinds(x.decls(), kinds, x.decls().len() as int);
    if ds.len() == 0 && !x.data() {
        x.edges
    } else {
        kids_upto(g, x.edges, ds, ds.len() as int)
    }
}

/// The first `n` nodes that depend on another.
pub open spec fn parents_upto(g: Nodes, child: usize, kinds: Seq<DepKind>, n: int) -> Seq<usize>
    decreases n,
{
    if n <= 0 || n > g.len() {
        Seq::empty()
    } else if kids_of(g, n - 1, kinds).contains(child) {
        parents_upto(g, child, kinds, n - 1).push((n - 1) as usize)
    } else {
        parents_upto(g, child, kinds, n - 1)
    }
}

fn holds_kind(kinds: &Vec<DepKind>, k: DepKind) -> (r: bool)
    ensures
        r == kinds@.contains(k),
{
    let mut i: usize = 0;
    while i < kinds.len()
        invariant
            i <= kinds@.len(),
            forall|j: int| 0 <= j < i ==> kinds@[j] != k,
        decreases kinds@.len() - i,
    {
        if kinds[i] == k {
            return true;
        }
        i += 1;
    }
    false
}

fn find_kid(g: &Graph, edges: &Vec<usize>, d: &DepDecl) -> (r: Option<usize>)
    requires
        forall|i: int| 0 <= i < edges@.len() ==> #[trigger] edges@[i] < g.nodes@.len(),
    ensures
        r == kid_of(g@, edges@, d@),
        r matches Some(e) ==> e < g.nodes@.len(),
{
    let ghost gv = g@;
    let ghost ev = edges@;
    let ghost vs = edge_versions(gv, ev);
    let ghost dv = d@;
    let ghost keep = |i: int| gv[ev[i] as int].id.name == dv.name && meets(dv.req, gv[ev[i] as int].id.version);
    let mut best: Option<usize> = None;
    let mut k: usize = 0;
    while k < edges.len()
        invariant
            k <= edges@.len(),
            gv == views(g.nodes@),
            ev == edges@,
            dv == d@,
            vs == edge_versions(gv, ev),
            keep == (|i: int| gv[ev[i] as int].id.name == dv.name && meets(dv.req, gv[ev[i] as int].id.version)),
            forall|i: int| 0 <= i < edges@.len() ==> #[trigger] edges@[i] < g.nodes@.len(),
            match best {
                Some(b) => newest_upto(vs, keep, k as int) == Some(b as int) && b < k,
                None => newest_upto(vs, keep, k as int).is_none(),
            },
        decreases edges@.len() - k,
    {
        assert(edges@[k as int] < g.nodes@.len());
        let e: usize = edges[k];
        assert(gv[e as int] == g.nodes@[e as int]@);
        let id = &g.nodes[e].id;
        let fits = same(id.name.as_str(), d.name.as_str()) && d.req.matches(&id.version);
        assert(fits == keep(k as int));
        if fits {
            best = match best {
                Some(b) => {
                    assert(edges@[b as int] < g.nodes@.len());
                    let f: usize = edges[b];
                    assert(gv[f as int] == g.nodes@[f as int]@);
                    if is_older(&id.version, &g.nodes[f].id.version) {
                        Some(b)
                    } else {
                        Some(k)
                    }
                },
                None => Some(k),
            };
        }
        k += 1;
    }
    match best {
        Some(b) => {
            assert(edges@[b as int] < g.nodes@.len());
            Some(edges[b])
        },
        None => None,
    }
}

/// What a node depends on.
pub fn kids(g: &Graph, n: usize, kinds: &Vec<DepKind>) -> (r: Vec<usize>)
    requires
        n < g.nodes@.len(),
        edges_in_range(g@),
    ensures
        r@ == kids_of(g@, n as int, kinds@),
        forall|i: int| 0 <= i < r@.len() ==> #[trigger] r@[i] < g.nodes@.len(),
{
    let x = &g.nodes[n];
    let ghost gv = g@;
    let ghost xv = gv[n as int];
    assert(xv == x@);
    proof {
        lemma_decls(*x);
    }
    assert forall|i: int| 0 <= i < x.edges@.len() implies #[trigger] x.edges@[i] < g.nodes@.len() by {
        assert(gv[n as int].edges[i] < gv.len());
    }
    let all = x.deps();
    let ghost av = xv.decls();
    let ghost of = of_kinds(av, kinds@, av.len() as int);
    let mut out: Vec<usize> = Vec::new();
    let mut any: bool = false;
    let mut k: usize = 0;
    assert(av.len() == all@.len());
    while k < all.len()
        invariant
            k <= all@.len(),
            av == views(all@),
            gv == g@,
            forall|i: int| 0 <= i < x.edges@.len() ==> #[trigger] x.edges@[i] < g.nodes@.len(),
            any == (of_kinds(av, kinds@, k as int).len() > 0),
            out@ == kids_upto(gv, x.edges@, of_kinds(av, kinds@, k as int), of_kinds(av, kinds@, k as int).len() as int),
            forall|i: int| 0 <= i < out@.len() ==> #[trigger] out@[i] < g.nodes@.len(),
        decreases all@.len() - k,
    {
        let d = &all[k];
        assert(av[k as int] == d@);
        let ghost was = of_kinds(av, kinds@, k as int);
        if holds_kind(kinds, d.kind) {
            any = true;
            proof {
                assert(was.push(d@).take(was.len() as int) =~= was);
                lemma_kids_prefix(gv, x.edges@, was, was.push(d@), was.len() as int);
            }
            if let Some(e) = find_kid(g, &x.edges, d) {
                out.push(e);
            }
        }
        k += 1;
    }
    if !any && !x.has_data() {
        let mut es: Vec<usize> = Vec::new();
        let mut k: usize = 0;
        while k < x.edges.len()
            invariant
                k <= x.edges@.len(),
                es@ =~= x.edges@.take(k as int),
            decreases x.edges@.len() - k,
        {
            es.push(x.edges[k]);
            k += 1;
        }
        assert(es@ =~= x.edges@);
        return es;
    }
    out
}

proof fn lemma_kids_prefix(g: Nodes, edges: Seq<usize>, a: Seq<DepDeclView>, b: Seq<DepDeclView>, n: int)
    requires
        0 <= n <= a.len() <= b.len(),
        a == b.take(a.len() as int),
    ensures
        kids_upto(g, edges, a, n) == kids_upto(g, edges, b, n),
    decreases n,
{
    if n > 0 {
        lemma_kids_prefix(g, edges, a, b, n - 1);
        assert(a[n - 1] == b[n - 1]);
    }
}

/// The nodes that depend on another.
pub fn parents(g: &Graph, child: usize, kinds: &Vec<DepKind>) -> (r: Vec<usize>)
    requires
        edges_in_range(g@),
    ensures
        r@ == parents_upto(g@, child, kinds@, g@.len() as int),
        forall|i: int| 0 <= i < r@.len() ==> #[trigger] r@[i] < g.nodes@.len(),
{
    let mut out: Vec<usize> = Vec::new();
    let mut k: usize = 0;
    assert(g@.len() == g.nodes@.len());
    while k < g.nodes.len()
        invariant
            k <= g.nodes@.len(),
            g@.len() == g.nodes@.len(),
            edges_in_range(g@),
            out@ == parents_upto(g@, child, kinds@, k as int),
            forall|i: int| 0 <= i < out@.len() ==> #[trigger] out@[i] < g.nodes@.len(),
        decreases g.nodes@.len() - k,
    {
        let l = kids(g, k, kinds);
        if has(&l, child) {
            out.push(k);
        }
        k += 1;
    }
    out
}

// ---------------------------------------------------------------------------
// The walk.

/// How the tree is drawn.
pub struct Walk<'a> {
    pub graph: &'a Graph,
    /// How each node is shown.
    pub labels: &'a Vec<String>,
    pub kinds: &'a Vec<DepKind>,
    pub inverted: bool,
    pub max_depth: Option<usize>,
    /// `indent`, `depth` or `none`.
    pub mode: &'a str,
    pub ascii: bool,
}

/// The model of a walk.
pub struct WalkView {
    pub graph: Nodes,
    pub labels: Seq<Seq<char>>,
    pub kinds: Seq<DepKind>,
    pub inverted: bool,
    pub max_depth: Option<usize>,
    pub mode: Seq<char>,
    pub ascii: bool,
}

impl<'a> View for Walk<'a> {
    type V = WalkView;

    open spec fn view(&self) -> WalkView {
        WalkView {
            graph: self.graph@,
            labels: views(self.labels@),
            kinds: self.kinds@,
            inverted: self.inverted,
            max_depth: self.max_depth,
            mode: self.mode@,
            ascii: self.ascii,
        }
    }
}

/// The nodes one level down.
pub open spec fn children_of(w: WalkView, n: usize, depth: nat) -> Seq<usize> {
    if w.max_depth matches Some(m) && depth >= m {
        Seq::empty()
    } else if w.inverted {
        parents_upto(w.graph, n, w.kinds, w.graph.len() as int)
    } else {
        kids_of(w.graph, n as int, w.kinds)
    }
}

pub open spec fn branch_of(ascii: bool, last: bool) -> Seq<char> {
    if ascii {
        if last {
            "`-- "@
        } else {
            "|-- "@
        }
    } else {
        if last {
            "\u{2514}\u{2500}\u{2500} "@
        } else {
            "\u{251c}\u{2500}\u{2500} "@
        }
    }
}

pub open spec fn stem_of(ascii: bool, last: bool) -> Seq<char> {
    if last {
        "    "@
    } else if ascii {
        "|   "@
    } else {
        "\u{2502}   "@
    }
}

/// A node's line: what was shown before is marked.
pub open spec fn line_of(w: WalkView, child: usize, repeated: bool, prefix: Seq<char>, depth: nat, last: bool) -> Seq<char> {
    let text = w.labels[child as int] + (if repeated {
        " (*)"@
    } else {
        Seq::empty()
    });
    if w.mode == "none"@ {
        text
    } else if w.mode == "depth"@ {
        dec(depth) + text
    } else {
        prefix + branch_of(w.ascii, last) + text
    }
}

/// How many of the first `n` nodes were not shown.
pub open spec fn unseen(seen: Seq<bool>, n: int) -> nat
    decreases n,
{
    if n <= 0 || n > seen.len() {
        0
    } else {
        unseen(seen, n - 1) + (if seen[n - 1] {
            0nat
        } else {
            1
        })
    }
}

pub open spec fn left(seen: Seq<bool>) -> nat {
    unseen(seen, seen.len() as int)
}

proof fn lemma_unseen(seen: Seq<bool>, c: int, n: int)
    requires
        0 <= n <= seen.len(),
        0 <= c < seen.len(),
        !seen[c],
    ensures
        unseen(seen.update(c, true), n) == unseen(seen, n) - (if c < n {
            1int
        } else {
            0
        }),
    decreases n,
{
    if n > 0 {
        lemma_unseen(seen, c, n - 1);
    }
}

/// The lines below a node from its child `i` on, and what was shown then. Below a node that was shown before, there is
/// nothing.
pub open spec fn walked(w: WalkView, kids: Seq<usize>, i: int, prefix: Seq<char>, depth: nat, seen: Seq<bool>) -> (Seq<Seq<char>>, Seq<bool>)
    decreases left(seen), kids.len() - i,
{
    if i < 0 || i >= kids.len() || kids[i] >= seen.len() {
        (Seq::empty(), seen)
    } else {
        let c = kids[i];
        let last = i + 1 == kids.len();
        let line = line_of(w, c, seen[c as int], prefix, depth, last);
        let marked = seen.update(c as int, true);
        let (below, after) = if seen[c as int] || left(marked) >= left(seen) {
            (Seq::empty(), seen)
        } else {
            walked(w, children_of(w, c, depth + 1), 0, prefix + stem_of(w.ascii, last), depth + 1, marked)
        };
        if left(after) > left(seen) {
            (seq![line] + below, after)
        } else {
            let (rest, end) = walked(w, kids, i + 1, prefix, depth, after);
            (seq![line] + below + rest, end)
        }
    }
}

proof fn lemma_walked(w: WalkView, kids: Seq<usize>, i: int, prefix: Seq<char>, depth: nat, seen: Seq<bool>)
    ensures
        walked(w, kids, i, prefix, depth, seen).1.len() == seen.len(),
        left(walked(w, kids, i, prefix, depth, seen).1) <= left(seen),
    decreases left(seen), kids.len() - i,
{
    if !(i < 0 || i >= kids.len() || kids[i] >= seen.len()) {
        let c = kids[i];
        let last = i + 1 == kids.len();
        let marked = seen.update(c as int, true);
        let after = if seen[c as int] || left(marked) >= left(seen) {
            seen
        } else {
            lemma_walked(w, children_of(w, c, depth + 1), 0, prefix + stem_of(w.ascii, last), depth + 1, marked);
            walked(w, children_of(w, c, depth + 1), 0, prefix + stem_of(w.ascii, last), depth + 1, marked).1
        };
        if left(after) <= left(seen) {
            lemma_walked(w, kids, i + 1, prefix, depth, after);
        }
    }
}

/// The labels are those of the nodes.
pub open spec fn walkable(w: WalkView) -> bool {
    w.labels.len() == w.graph.len() && edges_in_range(w.graph) && w.graph.len() < usize::MAX
}

fn branch(ascii: bool, last: bool) -> (r: &'static str)
    ensures
        r@ == branch_of(ascii, last),
{
    if ascii {
        if last {
            "`-- "
        } else {
            "|-- "
        }
    } else {
        if last {
            "\u{2514}\u{2500}\u{2500} "
        } else {
            "\u{251c}\u{2500}\u{2500} "
        }
    }
}

fn stem(ascii: bool, last: bool) -> (r: &'static str)
    ensures
        r@ == stem_of(ascii, last),
{
    if last {
        "    "
    } else if ascii {
        "|   "
    } else {
        "\u{2502}   "
    }
}

fn list_children(w: &Walk<'_>, n: usize, depth: usize) -> (r: Vec<usize>)
    requires
        walkable(w@),
        n < w.graph.nodes@.len(),
    ensures
        r@ == children_of(w@, n, depth as nat),
        forall|i: int| 0 <= i < r@.len() ==> #[trigger] r@[i] < w.graph.nodes@.len(),
{
    if let Some(m) = w.max_depth {
        if depth >= m {
            return Vec::new();
        }
    }
    if w.inverted {
        parents(w.graph, n, w.kinds)
    } else {
        kids(w.graph, n, w.kinds)
    }
}

fn draw(w: &Walk<'_>, child: usize, repeated: bool, prefix: &str, depth: usize, last: bool) -> (r: String)
    requires
        child < w.labels@.len(),
    ensures
        r@ == line_of(w@, child, repeated, prefix@, depth as nat, last),
{
    proof {
        reveal_strlit("");
        assert(""@ =~= Seq::<char>::empty());
        assert(w@.labels[child as int] == w.labels@[child as int]@);
    }
    let text = cat(
        w.labels[child].as_str(),
        if repeated {
            " (*)"
        } else {
            ""
        },
    );
    if same(w.mode, "none") {
        text
    } else if same(w.mode, "depth") {
        cat(usize_text(depth).as_str(), text.as_str())
    } else {
        cat3(prefix, branch(w.ascii, last), text.as_str())
    }
}

/// Adds the lines below a node.
#[verifier::loop_isolation(false)]
fn walk(w: &Walk<'_>, n: usize, prefix: &str, depth: usize, seen: &mut Vec<bool>, out: &mut Vec<String>)
    requires
        walkable(w@),
        old(seen)@.len() == w.graph.nodes@.len(),
        n < old(seen)@.len(),
        depth + left(old(seen)@) <= w.graph.nodes@.len(),
    ensures
        final(seen)@.len() == old(seen)@.len(),
        ({
            let r = walked(w@, children_of(w@, n, depth as nat), 0, prefix@, depth as nat, old(seen)@);
            final(seen)@ == r.1 && views(final(out)@) == views(old(out)@) + r.0
        }),
    decreases left(old(seen)@),
{
    let ghost wv = w@;
    let ghost total = w.graph.nodes@.len();
    assert(wv.graph.len() == total);
    assert(wv.labels.len() == w.labels@.len());
    let ghost s0 = seen@;
    let ghost o0 = views(out@);
    let children = list_children(w, n, depth);
    let ghost cs = children@;
    let ghost all = walked(wv, cs, 0, prefix@, depth as nat, s0);
    let mut i: usize = 0;
    assert(o0 + all.0 =~= views(out@) + walked(wv, cs, 0, prefix@, depth as nat, seen@).0);
    while i < children.len()
        invariant
            i <= children@.len(),
            cs == children@,
            seen@.len() == total,
            left(seen@) <= left(s0),
            all.1 == walked(wv, cs, i as int, prefix@, depth as nat, seen@).1,
            o0 + all.0 == views(out@) + walked(wv, cs, i as int, prefix@, depth as nat, seen@).0,
        decreases children@.len() - i,
    {
        let child: usize = children[i];
        assert(cs[i as int] < total);
        let last: bool = i + 1 == children.len();
        let repeated: bool = seen[child];
        let ghost s1 = seen@;
        let ghost before_line = views(out@);
        let line = draw(w, child, repeated, prefix, depth, last);
        let ghost lv = line@;
        out.push(line);
        assert(views(out@) =~= before_line.push(lv));
        let ghost marked = s1.update(child as int, true);
        if !repeated {
            proof {
                lemma_unseen(s1, child as int, s1.len() as int);
            }
            seen.set(child, true);
            let next = cat(prefix, stem(w.ascii, last));
            proof {
                lemma_walked(wv, children_of(wv, child, (depth + 1) as nat), 0, next@, (depth + 1) as nat, marked);
            }
            walk(w, child, next.as_str(), depth + 1, seen, out);
        } else {
            assert(marked =~= s1);
        }
        proof {
            let whole = walked(wv, cs, i as int, prefix@, depth as nat, s1);
            let rest = walked(wv, cs, i + 1, prefix@, depth as nat, seen@);
            let below = if repeated {
                Seq::<Seq<char>>::empty()
            } else {
                walked(wv, children_of(wv, child, (depth + 1) as nat), 0, prefix@ + stem_of(w.ascii, last), (depth + 1) as nat, marked).0
            };
            assert(whole.0 == seq![lv] + below + rest.0);
            assert(whole.1 == rest.1);
            assert(views(out@) =~= before_line + seq![lv] + below);
            assert(before_line + whole.0 =~= views(out@) + rest.0);
        }
        i += 1;
    }
    assert(views(out@) =~= o0 + all.0);
}

/// The lines of the trees of the first `n` roots, and what was shown then.
pub open spec fn trees_upto(w: WalkView, roots: Seq<usize>, n: int) -> (Seq<Seq<char>>, Seq<bool>)
    decreases n,
{
    if n <= 0 || n > roots.len() {
        (Seq::empty(), Seq::new(w.graph.len(), |i: int| false))
    } else {
        let (lines, seen) = trees_upto(w, roots, n - 1);
        let r = roots[n - 1];
        let (below, end) = walked(w, children_of(w, r, 1), 0, Seq::empty(), 1, seen.update(r as int, true));
        (
            lines + (if n > 1 {
                seq![Seq::<char>::empty()]
            } else {
                Seq::empty()
            }) + seq![
                if w.mode == "depth"@ {
                    "0"@ + w.labels[r as int]
                } else {
                    w.labels[r as int]
                },
            ] + below,
            end,
        )
    }
}

/// The trees below some nodes, an empty line between them.
#[verifier::loop_isolation(false)]
pub fn tree(w: &Walk<'_>, roots: &Vec<usize>) -> (r: Vec<String>)
    requires
        walkable(w@),
        forall|i: int| 0 <= i < roots@.len() ==> #[trigger] roots@[i] < w.graph.nodes@.len(),
    ensures
        views(r@) == trees_upto(w@, roots@, roots@.len() as int).0,
{
    let ghost wv = w@;
    let ghost total = w.graph.nodes@.len();
    assert(wv.graph.len() == total);
    assert(wv.labels.len() == w.labels@.len());
    proof {
        reveal_strlit("");
        assert(""@ =~= Seq::<char>::empty());
    }
    let n: usize = w.graph.nodes.len();
    let mut seen: Vec<bool> = Vec::new();
    while seen.len() < n
        invariant
            seen@.len() <= n,
            forall|i: int| 0 <= i < seen@.len() ==> !#[trigger] seen@[i],
        decreases n - seen@.len(),
    {
        seen.push(false);
    }
    assert(seen@ =~= Seq::new(wv.graph.len(), |i: int| false));
    let mut out: Vec<String> = Vec::new();
    assert(views(out@) =~= Seq::<Seq<char>>::empty());
    let mut k: usize = 0;
    while k < roots.len()
        invariant
            k <= roots@.len(),
            seen@.len() == total,
            trees_upto(wv, roots@, k as int) == (views(out@), seen@),
        decreases roots@.len() - k,
    {
        let r: usize = roots[k];
        assert(roots@[k as int] < total);
        let ghost o1 = views(out@);
        if k > 0 {
            out.push("".to_owned());
            assert(views(out@) =~= o1.push(Seq::<char>::empty()));
        }
        let ghost o2 = views(out@);
        assert(wv.labels[r as int] == w.labels@[r as int]@);
        let line = if same(w.mode, "depth") {
            cat("0", w.labels[r].as_str())
        } else {
            w.labels[r].clone()
        };
        let ghost lv = line@;
        out.push(line);
        assert(views(out@) =~= o2.push(lv));
        let ghost s1 = seen@;
        seen.set(r, true);
        proof {
            lemma_left_bound(seen@, r as int, seen@.len() as int);
        }
        walk(w, r, "", 1, &mut seen, &mut out);
        assert(views(out@) =~= trees_upto(wv, roots@, k + 1).0);
        k += 1;
    }
    out
}

proof fn lemma_left_bound(seen: Seq<bool>, c: int, n: int)
    requires
        0 <= c < seen.len(),
        seen[c],
        0 <= n <= seen.len(),
    ensures
        unseen(seen, n) <= n - (if c < n {
            1int
        } else {
            0
        }),
    decreases n,
{
    if n > 0 {
        lemma_left_bound(seen, c, n - 1);
    }
}

/// The nodes of a name, from the first on.
pub open spec fn named_upto(g: Nodes, name: Seq<char>, n: int) -> Seq<usize>
    decreases n,
{
    if n <= 0 || n > g.len() {
        Seq::empty()
    } else if g[n - 1].id.name == name {
        named_upto(g, name, n - 1).push((n - 1) as usize)
    } else {
        named_upto(g, name, n - 1)
    }
}

/// The nodes that `--invert` is about.
pub fn inverted_roots(g: &Graph, name: &str) -> (r: Result<Vec<usize>, TreeError>)
    ensures
        ({
            let l = named_upto(g@, name@, g@.len() as int);
            if l.len() == 0 {
                r matches Err(TreeError::NotFound(s)) && s@ == name@
            } else {
                r matches Ok(v) && v@ == l
            }
        }),
{
    let ghost gv = g@;
    let mut out: Vec<usize> = Vec::new();
    let mut k: usize = 0;
    assert(gv.len() == g.nodes@.len());
    while k < g.nodes.len()
        invariant
            k <= g.nodes@.len(),
            gv == views(g.nodes@),
            out@ == named_upto(gv, name@, k as int),
        decreases g.nodes@.len() - k,
    {
        assert(gv[k as int] == g.nodes@[k as int]@);
        if same(g.nodes[k].id.name.as_str(), name) {
            out.push(k);
        }
        k += 1;
    }
    if out.len() == 0 {
        Err(TreeError::NotFound(name.to_owned()))
    } else {
        Ok(out)
    }
}

/// Whether `--prefix` is one that is known.
pub fn check_prefix(mode: &str) -> (r: Result<(), TreeError>)
    ensures
        if mode@ == "indent"@ || mode@ == "depth"@ || mode@ == "none"@ {
            r.is_ok()
        } else {
            r matches Err(TreeError::Prefix(s)) && s@ == mode@
        },
{
    if same(mode, "indent") || same(mode, "depth") || same(mode, "none") {
        Ok(())
    } else {
        Err(TreeError::Prefix(mode.to_owned()))
    }
}

// ---------------------------------------------------------------------------
// Features.

/// What is shown for the features of a package: those on the target's side, or on the host's if that is all there is.
pub open spec fn shown_features(res: Resolution, n: int) -> Option<Seq<char>> {
    match res.found(n, false) {
        Some(fi) => Some(joined(listed(fi.named@), ","@)),
        None => match res.found(n, true) {
            Some(fi) => Some(joined(listed(fi.named@), ","@)),
            None => None,
        },
    }
}

pub fn features_text(res: &Resolution, n: usize) -> (r: Option<String>)
    ensures
        opt_view(r) == shown_features(*res, n as int),
{
    match res.info(n, false) {
        Some(fi) => Some(join(fi.named.items(), ",")),
        None => match res.info(n, true) {
            Some(fi) => Some(join(fi.named.items(), ",")),
            None => None,
        },
    }
}

} // verus!
