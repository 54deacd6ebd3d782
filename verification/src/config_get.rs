//! `config get`: the configuration that holds in a directory, and where each value comes from.

use vstd::prelude::*;
use crate::config::Vars;
use crate::config::dotted_parts;
use crate::config::filled_var;
use crate::config::env_nonempty;
use crate::config::key_parts;
use crate::config::put_entry;
use crate::config::read_value;
use crate::config::setting_value;
use crate::config::split_config_set;
use crate::config::split_setting;
use crate::config::with_entry;
use crate::invocation::opt_text;
use crate::json::Json;
use crate::json::JsonTree;
use crate::json::json_entries;
use crate::json::json_text;
use crate::json::json_tree;
use crate::json::json_trees;
use crate::json::write_json;
use crate::manifest::Entries;
use crate::manifest::any_is;
use crate::num::i64_of;
use crate::num::i64_text;
use crate::num::int_text;
use crate::num::parse_i64;
use crate::order::before;
use crate::order::is_before;
use crate::path::under;
use crate::strmap::StrMap;
use crate::strmap::listed;
use crate::text::alnum;
use crate::text::cat;
use crate::text::cat3;
use crate::text::cat4;
use crate::text::chars_of;
use crate::text::is_alnum;
use crate::text::join;
use crate::text::joined;
use crate::text::replace;
use crate::text::replace_char;
use crate::text::replaced;
use crate::text::same;
use crate::text::starts;
use crate::text::starts_with;
use crate::text::swapped;
use crate::text::to_upper;
use crate::text::uppercase;
use crate::text::views;
use crate::text::words;
use crate::text::words_of;
use crate::value::Toml;
use crate::value::TomlTree;
use crate::value::at;
use crate::value::dup_table;
use crate::value::entry_at;
use crate::value::get;
use crate::value::parse_document;
use crate::value::toml_entries;
use crate::value::toml_of;
use crate::value::toml_tree;
use crate::value::toml_trees;

verus! {

// ---------------------------------------------------------------------------
// Values.

/// Where a value comes from.
#[derive(Debug)]
pub enum Def {
    File(String),
    Env(String),
    Cli,
}

pub enum DefView {
    File(Seq<char>),
    Env(Seq<char>),
    Cli,
}

impl View for Def {
    type V = DefView;

    open spec fn view(&self) -> DefView {
        match self {
            Def::File(s) => DefView::File(s@),
            Def::Env(s) => DefView::Env(s@),
            Def::Cli => DefView::Cli,
        }
    }
}

pub open spec fn def_text(d: DefView) -> Seq<char> {
    match d {
        DefView::File(p) => p,
        DefView::Env(k) => "environment variable `"@ + k + "`"@,
        DefView::Cli => "--config cli option"@,
    }
}

impl Def {
    pub fn display(&self) -> (r: String)
        ensures
            r@ == def_text(self@),
    {
        match self {
            Def::File(p) => p.clone(),
            Def::Env(k) => cat3("environment variable `", k.as_str(), "`"),
            Def::Cli => "--config cli option".to_owned(),
        }
    }

    pub fn dup(&self) -> (r: Def)
        ensures
            r@ == self@,
    {
        match self {
            Def::File(p) => Def::File(p.clone()),
            Def::Env(k) => Def::Env(k.clone()),
            Def::Cli => Def::Cli,
        }
    }
}

/// A value and where it comes from. A table lists its entries in the order of their keys.
#[derive(Debug)]
pub enum Val {
    Bool(bool, Def),
    Int(i64, Def),
    Str(String, Def),
    List(Vec<Val>, Def),
    Table(Vec<(String, Val)>, Def),
}

pub enum ValTree {
    Bool(bool, DefView),
    Int(i64, DefView),
    Str(Seq<char>, DefView),
    List(Seq<ValTree>, DefView),
    Table(Seq<(Seq<char>, ValTree)>, DefView),
}

pub type ValEntries = Seq<(Seq<char>, ValTree)>;

pub open spec fn val_tree(v: Val) -> ValTree
    decreases v,
{
    match v {
        Val::Bool(b, d) => ValTree::Bool(b, d@),
        Val::Int(n, d) => ValTree::Int(n, d@),
        Val::Str(s, d) => ValTree::Str(s@, d@),
        Val::List(l, d) => ValTree::List(val_trees(l@), d@),
        Val::Table(l, d) => ValTree::Table(val_entries(l@), d@),
    }
}

pub open spec fn val_trees(l: Seq<Val>) -> Seq<ValTree>
    decreases l,
{
    Seq::new(
        l.len(),
        |i: int|
            if 0 <= i < l.len() {
                val_tree(l[i])
            } else {
                ValTree::Bool(false, DefView::Cli)
            },
    )
}

pub open spec fn val_entries(l: Seq<(String, Val)>) -> ValEntries
    decreases l,
{
    Seq::new(
        l.len(),
        |i: int|
            if 0 <= i < l.len() {
                (l[i].0@, val_tree(l[i].1))
            } else {
                (Seq::empty(), ValTree::Bool(false, DefView::Cli))
            },
    )
}

impl View for Val {
    type V = ValTree;

    open spec fn view(&self) -> ValTree {
        val_tree(*self)
    }
}

/// Where the value comes from.
pub open spec fn origin(v: ValTree) -> DefView {
    match v {
        ValTree::Bool(_, d) => d,
        ValTree::Int(_, d) => d,
        ValTree::Str(_, d) => d,
        ValTree::List(_, d) => d,
        ValTree::Table(_, d) => d,
    }
}

/// What kind of value it is.
pub open spec fn kind_text(v: ValTree) -> Seq<char> {
    match v {
        ValTree::Bool(_, _) => "boolean"@,
        ValTree::Int(_, _) => "integer"@,
        ValTree::Str(_, _) => "string"@,
        ValTree::List(_, _) => "array"@,
        ValTree::Table(_, _) => "table"@,
    }
}

impl Val {
    pub fn def(&self) -> (r: &Def)
        ensures
            r@ == origin(self@),
    {
        match self {
            Val::Bool(_, d) => d,
            Val::Int(_, d) => d,
            Val::Str(_, d) => d,
            Val::List(_, d) => d,
            Val::Table(_, d) => d,
        }
    }

    pub fn desc(&self) -> (r: &'static str)
        ensures
            r@ == kind_text(self@),
    {
        match self {
            Val::Bool(_, _) => "boolean",
            Val::Int(_, _) => "integer",
            Val::Str(_, _) => "string",
            Val::List(_, _) => "array",
            Val::Table(_, _) => "table",
        }
    }

    /// The same value once more.
    #[verifier::loop_isolation(false)]
    pub fn dup(&self) -> (r: Val)
        ensures
            r@ == self@,
        decreases *self,
    {
        match self {
            Val::Bool(b, d) => Val::Bool(*b, d.dup()),
            Val::Int(n, d) => Val::Int(*n, d.dup()),
            Val::Str(s, d) => Val::Str(s.clone(), d.dup()),
            Val::List(l, d) => {
                let mut out: Vec<Val> = Vec::new();
                let mut i: usize = 0;
                while i < l.len()
                    invariant
                        *self == Val::List(*l, *d),
                        i <= l@.len(),
                        out@.len() == i,
                        forall|j: int| 0 <= j < i ==> val_tree(#[trigger] out@[j]) == val_tree(l@[j]),
                    decreases l@.len() - i,
                {
                    assert(decreases_to!(*self => l@[i as int]));
                    out.push(l[i].dup());
                    i += 1;
                }
                assert(val_trees(out@) =~= val_trees(l@));
                Val::List(out, d.dup())
            },
            Val::Table(l, d) => {
                let mut out: Vec<(String, Val)> = Vec::new();
                let mut i: usize = 0;
                while i < l.len()
                    invariant
                        *self == Val::Table(*l, *d),
                        i <= l@.len(),
                        out@.len() == i,
                        forall|j: int| 0 <= j < i ==> (#[trigger] out@[j]).0@ == l@[j].0@,
                        forall|j: int| 0 <= j < i ==> val_tree((#[trigger] out@[j]).1) == val_tree(l@[j].1),
                    decreases l@.len() - i,
                {
                    assert(decreases_to!(*self => l@));
                    assert(decreases_to!(*self => l@[i as int]));
                    assert(decreases_to!(*self => l@[i as int].1));
                    out.push((l[i].0.clone(), l[i].1.dup()));
                    i += 1;
                }
                assert(val_entries(out@) =~= val_entries(l@));
                Val::Table(out, d.dup())
            },
        }
    }
}

/// A value of a file, all of it from one place.
pub open spec fn placed(t: TomlTree, d: DefView) -> ValTree
    decreases t,
{
    match t {
        TomlTree::Bool(b) => ValTree::Bool(b, d),
        TomlTree::Int(n) => ValTree::Int(n, d),
        TomlTree::Str(s) => ValTree::Str(s, d),
        TomlTree::Float(s) => ValTree::Str(s, d),
        TomlTree::Date(s) => ValTree::Str(s, d),
        TomlTree::Array(l) => ValTree::List(placed_list(l, d), d),
        TomlTree::Table(l) => ValTree::Table(placed_entries(l, d), d),
    }
}

pub open spec fn placed_list(l: Seq<TomlTree>, d: DefView) -> Seq<ValTree>
    decreases l,
{
    Seq::new(
        l.len(),
        |i: int|
            if 0 <= i < l.len() {
                placed(l[i], d)
            } else {
                ValTree::Bool(false, d)
            },
    )
}

pub open spec fn placed_entries(l: Entries, d: DefView) -> ValEntries
    decreases l,
{
    Seq::new(
        l.len(),
        |i: int|
            if 0 <= i < l.len() {
                (l[i].0, placed(l[i].1, d))
            } else {
                (Seq::empty(), ValTree::Bool(false, d))
            },
    )
}

/// A value of a file, all of it from one place.
#[verifier::loop_isolation(false)]
pub fn from_toml(t: &Toml, def: &Def) -> (r: Val)
    ensures
        r@ == placed(t@, def@),
    decreases *t,
{
    match t {
        Toml::Bool(b) => Val::Bool(*b, def.dup()),
        Toml::Int(n) => Val::Int(*n, def.dup()),
        Toml::Str(s) => Val::Str(s.clone(), def.dup()),
        Toml::Float(s) => Val::Str(s.clone(), def.dup()),
        Toml::Date(s) => Val::Str(s.clone(), def.dup()),
        Toml::Array(l) => {
            let mut out: Vec<Val> = Vec::new();
            let mut i: usize = 0;
            while i < l.len()
                invariant
                    *t == Toml::Array(*l),
                    i <= l@.len(),
                    out@.len() == i,
                    forall|j: int| 0 <= j < i ==> val_tree(#[trigger] out@[j]) == placed(toml_tree(l@[j]), def@),
                decreases l@.len() - i,
            {
                assert(decreases_to!(*t => l@[i as int]));
                out.push(from_toml(&l[i], def));
                i += 1;
            }
            assert(val_trees(out@) =~= placed_list(toml_trees(l@), def@));
            Val::List(out, def.dup())
        },
        Toml::Table(l) => {
            let mut out: Vec<(String, Val)> = Vec::new();
            let mut i: usize = 0;
            while i < l.len()
                invariant
                    *t == Toml::Table(*l),
                    i <= l@.len(),
                    out@.len() == i,
                    forall|j: int| 0 <= j < i ==> (#[trigger] out@[j]).0@ == l@[j].0@,
                    forall|j: int| 0 <= j < i ==> val_tree((#[trigger] out@[j]).1) == placed(toml_tree(l@[j].1), def@),
                decreases l@.len() - i,
            {
                assert(decreases_to!(*t => l@));
                assert(decreases_to!(*t => l@[i as int]));
                assert(decreases_to!(*t => l@[i as int].1));
                out.push((l[i].0.clone(), from_toml(&l[i].1, def)));
                i += 1;
            }
            assert(val_entries(out@) =~= placed_entries(toml_entries(l@), def@));
            Val::Table(out, def.dup())
        },
    }
}

/// Where a key stands among ascending keys, or belongs.
pub open spec fn slot(t: ValEntries, key: Seq<char>, k: int) -> int
    decreases t.len() - k,
{
    if k < 0 || k >= t.len() || !before(t[k].0, key) {
        k
    } else {
        slot(t, key, k + 1)
    }
}

/// A value over another: tables are merged key by key, lists follow one another, else the higher one counts.
pub open spec fn merged(low: ValTree, high: ValTree) -> ValTree
    decreases high, 0int,
{
    match (low, high) {
        (ValTree::Table(a, d), ValTree::Table(b, _)) => ValTree::Table(merged_upto(a, b, b.len() as int), d),
        (ValTree::List(a, d), ValTree::List(b, _)) => ValTree::List(a + b, d),
        _ => high,
    }
}

/// The first `n` entries of `b` over those of `a`.
pub open spec fn merged_upto(a: ValEntries, b: ValEntries, n: int) -> ValEntries
    decreases b, n,
{
    if 0 < n <= b.len() {
        let t = merged_upto(a, b, n - 1);
        let key = b[n - 1].0;
        let i = slot(t, key, 0);
        if 0 <= i < t.len() && t[i].0 == key {
            t.update(i, (key, merged(t[i].1, b[n - 1].1)))
        } else {
            t.insert(i, (key, b[n - 1].1))
        }
    } else {
        a
    }
}

proof fn lemma_slot(t: ValEntries, key: Seq<char>, k: int)
    requires
        0 <= k <= t.len(),
    ensures
        k <= slot(t, key, k) <= t.len(),
    decreases t.len() - k,
{
    if k < t.len() && before(t[k].0, key) {
        lemma_slot(t, key, k + 1);
    }
}

fn find_slot(t: &Vec<(String, Val)>, key: &str) -> (r: usize)
    ensures
        r == slot(val_entries(t@), key@, 0),
        r <= t@.len(),
{
    let ghost tv = val_entries(t@);
    let mut k: usize = 0;
    while k < t.len() && is_before(t[k].0.as_str(), key)
        invariant
            k <= t@.len(),
            tv == val_entries(t@),
            slot(tv, key@, 0) == slot(tv, key@, k as int),
        decreases t@.len() - k,
    {
        assert(tv[k as int] == (t@[k as int].0@, val_tree(t@[k as int].1)));
        k += 1;
    }
    if k < t.len() {
        assert(tv[k as int] == (t@[k as int].0@, val_tree(t@[k as int].1)));
    }
    k
}

/// A value over another: tables are merged key by key, lists follow one another, else the higher one counts.
#[verifier::loop_isolation(false)]
pub fn merge(low: Val, high: &Val) -> (r: Val)
    ensures
        r@ == merged(low@, high@),
    decreases *high,
{
    match (low, high) {
        (Val::Table(a, d), Val::Table(b, e)) => {
            let ghost av = val_entries(a@);
            let ghost bv = val_entries(b@);
            let mut t = a;
            let mut n: usize = 0;
            while n < b.len()
                invariant
                    *high == Val::Table(*b, *e),
                    n <= b@.len(),
                    bv == val_entries(b@),
                    val_entries(t@) == merged_upto(av, bv, n as int),
                decreases b@.len() - n,
            {
                assert(decreases_to!(*high => b@));
                assert(decreases_to!(*high => b@[n as int]));
                assert(decreases_to!(*high => b@[n as int].1));
                assert(bv[n as int] == (b@[n as int].0@, val_tree(b@[n as int].1)));
                let ghost tv = val_entries(t@);
                let key = b[n].0.as_str();
                let i: usize = find_slot(&t, key);
                let there: bool = i < t.len() && same(t[i].0.as_str(), key);
                if there {
                    assert(tv[i as int] == (t@[i as int].0@, val_tree(t@[i as int].1)));
                    let (name, was) = t.remove(i);
                    let ghost rest = t@;
                    let now = merge(was, &b[n].1);
                    let ghost nv = now@;
                    t.insert(i, (name, now));
                    assert(val_entries(t@) =~= tv.update(i as int, (key@, nv)));
                } else {
                    if i < t.len() {
                        assert(tv[i as int] == (t@[i as int].0@, val_tree(t@[i as int].1)));
                    }
                    t.insert(i, (b[n].0.clone(), b[n].1.dup()));
                    assert(val_entries(t@) =~= tv.insert(i as int, (key@, bv[n as int].1)));
                }
                n += 1;
            }
            assert(bv.len() == b@.len());
            Val::Table(t, d)
        },
        (Val::List(a, d), Val::List(b, e)) => {
            let ghost av = val_trees(a@);
            let ghost bv = val_trees(b@);
            let mut t = a;
            let mut n: usize = 0;
            while n < b.len()
                invariant
                    n <= b@.len(),
                    bv == val_trees(b@),
                    val_trees(t@) =~= av + bv.take(n as int),
                decreases b@.len() - n,
            {
                assert(bv[n as int] == val_tree(b@[n as int]));
                let ghost tv = val_trees(t@);
                t.push(b[n].dup());
                assert(val_trees(t@) =~= tv.push(bv[n as int]));
                n += 1;
            }
            assert(bv.take(n as int) =~= bv);
            Val::List(t, d)
        },
        _ => high.dup(),
    }
}

// ---------------------------------------------------------------------------
// Layers.

/// The table of one file, or of the settings on the command line.
#[derive(Debug)]
pub struct Layer {
    pub def: Def,
    pub table: Vec<(String, Toml)>,
}

pub struct LayerView {
    pub def: DefView,
    pub table: Entries,
}

impl View for Layer {
    type V = LayerView;

    open spec fn view(&self) -> LayerView {
        LayerView { def: self.def@, table: toml_entries(self.table@) }
    }
}

impl Layer {
    /// The same layer once more.
    pub fn dup(&self) -> (r: Layer)
        ensures
            r@ == self@,
    {
        Layer { def: self.def.dup(), table: dup_table(&self.table) }
    }

    /// The layer as a value.
    pub fn value(&self) -> (r: Val)
        ensures
            r@ == layer_value(self@),
    {
        let t = Toml::Table(dup_table(&self.table));
        from_toml(&t, &self.def)
    }
}

pub open spec fn layer_value(l: LayerView) -> ValTree {
    placed(TomlTree::Table(l.table), l.def)
}

/// Why the configuration is not shown.
#[derive(Debug)]
pub enum GetError {
    /// `-Z` on a stable compiler.
    UnstableFlag,
    /// The command on a stable compiler.
    Stable,
    /// The command without `-Z unstable-options`.
    NotEnabled,
    Format(String),
    Merged(String),
    /// The format does not show where values come from.
    Origin(String),
    /// The format does not show one layer after the other.
    Unmerged(String),
    NotSet(String),
    /// What should be a table, what it is, and where it comes from.
    NotTable(String, String, String),
    /// An argument that is neither a setting nor a file.
    Cli(String),
    /// A file that is no document.
    File(String),
}

pub enum GetFault {
    UnstableFlag,
    Stable,
    NotEnabled,
    Format(Seq<char>),
    Merged(Seq<char>),
    Origin(Seq<char>),
    Unmerged(Seq<char>),
    NotSet(Seq<char>),
    NotTable(Seq<char>, Seq<char>, Seq<char>),
    Cli(Seq<char>),
    File(Seq<char>),
}

impl View for GetError {
    type V = GetFault;

    open spec fn view(&self) -> GetFault {
        match self {
            GetError::UnstableFlag => GetFault::UnstableFlag,
            GetError::Stable => GetFault::Stable,
            GetError::NotEnabled => GetFault::NotEnabled,
            GetError::Format(s) => GetFault::Format(s@),
            GetError::Merged(s) => GetFault::Merged(s@),
            GetError::Origin(s) => GetFault::Origin(s@),
            GetError::Unmerged(s) => GetFault::Unmerged(s@),
            GetError::NotSet(s) => GetFault::NotSet(s@),
            GetError::NotTable(a, b, c) => GetFault::NotTable(a@, b@, c@),
            GetError::Cli(s) => GetFault::Cli(s@),
            GetError::File(s) => GetFault::File(s@),
        }
    }
}

/// The table with the value at the end of a path, unless something on the way is no table.
pub open spec fn with_setting(t: Entries, path: Seq<Seq<char>>, v: TomlTree) -> Entries
    decreases path.len(),
{
    if path.len() == 0 {
        t
    } else if path.len() == 1 {
        with_entry(t, path[0], v)
    } else {
        match at(t, path[0]) {
            None => with_entry(t, path[0], TomlTree::Table(with_setting(Seq::empty(), path.skip(1), v))),
            Some(TomlTree::Table(s)) => with_entry(t, path[0], TomlTree::Table(with_setting(s, path.skip(1), v))),
            Some(_) => t,
        }
    }
}

fn insert_dotted(t: Vec<(String, Toml)>, path: &Vec<String>, k: usize, v: Toml) -> (r: Vec<(String, Toml)>)
    requires
        k <= path@.len(),
    ensures
        toml_entries(r@) == with_setting(toml_entries(t@), views(path@).skip(k as int), v@),
    decreases path@.len() - k,
{
    let ghost pv = views(path@).skip(k as int);
    assert(views(path@).len() == path@.len());
    if k == path.len() {
        return t;
    }
    assert(pv[0] == path@[k as int]@);
    if k + 1 == path.len() {
        return put_entry(t, path[k].as_str(), v);
    }
    assert(pv.skip(1) =~= views(path@).skip(k + 1));
    let inner = match get(&t, path[k].as_str()) {
        Some(Toml::Table(s)) => dup_table(s),
        Some(_) => {
            return t;
        },
        None => {
            let none: Vec<(String, Toml)> = Vec::new();
            assert(toml_entries(none@) =~= Seq::<(Seq<char>, TomlTree)>::empty());
            none
        },
    };
    let below = insert_dotted(inner, path, k + 1, v);
    put_entry(t, path[k].as_str(), Toml::Table(below))
}

/// What the first `n` arguments hold: the settings among them as one table, and the files.
pub open spec fn args_upto(cwd: Seq<char>, specs: Seq<Seq<char>>, texts: Vars, n: int) -> Result<(Entries, Seq<LayerView>), GetFault>
    decreases n,
{
    if n <= 0 || n > specs.len() {
        Ok((Seq::empty(), Seq::empty()))
    } else {
        match args_upto(cwd, specs, texts, n - 1) {
            Err(e) => Err(e),
            Ok((t, files)) => match split_setting(specs[n - 1]) {
                Some((key, raw)) => Ok((with_setting(t, key_parts(key), setting_value(raw)), files)),
                None => {
                    let p = under(cwd, specs[n - 1]);
                    if !texts.contains_key(p) {
                        Err(GetFault::Cli(specs[n - 1]))
                    } else {
                        match toml_of(texts[p]@) {
                            Err(_) => Err(GetFault::File(p)),
                            Ok(more) => Ok((t, files.push(LayerView { def: DefView::File(p), table: more }))),
                        }
                    }
                },
            },
        }
    }
}

proof fn lemma_args_error(cwd: Seq<char>, specs: Seq<Seq<char>>, texts: Vars, a: int, b: int)
    requires
        0 <= a <= b <= specs.len(),
        args_upto(cwd, specs, texts, a).is_err(),
    ensures
        args_upto(cwd, specs, texts, b) == args_upto(cwd, specs, texts, a),
    decreases b - a,
{
    if a < b {
        lemma_args_error(cwd, specs, texts, a, b - 1);
    }
}

/// The layers of the command line, the lowest first: the files, then the settings.
pub open spec fn cli_of(cwd: Seq<char>, specs: Seq<Seq<char>>, texts: Vars) -> Result<Seq<LayerView>, GetFault> {
    match args_upto(cwd, specs, texts, specs.len() as int) {
        Err(e) => Err(e),
        Ok((t, files)) => if t.len() == 0 {
            Ok(files)
        } else {
            Ok(files.push(LayerView { def: DefView::Cli, table: t }))
        },
    }
}

/// The layers of the command line, the lowest first. `texts` are the files that the arguments may name.
pub fn cli_layers(cwd: &str, specs: &Vec<String>, texts: &StrMap<String>) -> (r: Result<Vec<Layer>, GetError>)
    ensures
        match cli_of(cwd@, views(specs@), texts@) {
            Ok(l) => r matches Ok(x) && views(x@) == l,
            Err(e) => r matches Err(x) && x@ == e,
        },
{
    let ghost sv = views(specs@);
    let mut files: Vec<Layer> = Vec::new();
    let mut inline: Vec<(String, Toml)> = Vec::new();
    let mut k: usize = 0;
    assert(toml_entries(inline@) =~= Seq::<(Seq<char>, TomlTree)>::empty());
    assert(views(files@) =~= Seq::<LayerView>::empty());
    while k < specs.len()
        invariant
            k <= specs@.len(),
            sv == views(specs@),
            args_upto(cwd@, sv, texts@, k as int) == Ok::<_, GetFault>((toml_entries(inline@), views(files@))),
        decreases specs@.len() - k,
    {
        assert(sv[k as int] == specs@[k as int]@);
        match split_config_set(specs[k].as_str()) {
            Some((key, raw)) => {
                let parts = dotted_parts(key);
                assert(views(parts@).skip(0) =~= views(parts@));
                inline = insert_dotted(inline, &parts, 0, read_value(raw));
            },
            None => {
                let p = crate::path::join(cwd, specs[k].as_str());
                match texts.get(p.as_str()) {
                    None => {
                        proof {
                            lemma_args_error(cwd@, sv, texts@, k + 1, sv.len() as int);
                        }
                        return Err(GetError::Cli(specs[k].clone()));
                    },
                    Some(text) => match parse_document(text.as_str()) {
                        Err(_) => {
                            proof {
                                lemma_args_error(cwd@, sv, texts@, k + 1, sv.len() as int);
                            }
                            return Err(GetError::File(p));
                        },
                        Ok(table) => {
                            let ghost was = files@;
                            let one = Layer { def: Def::File(p), table };
                            files.push(one);
                            assert(views(files@) =~= views(was).push(one@));
                        },
                    },
                }
            },
        }
        k += 1;
    }
    assert(sv.len() == specs@.len());
    assert(toml_entries(inline@).len() == inline@.len());
    if inline.len() > 0 {
        let ghost was = files@;
        let one = Layer { def: Def::Cli, table: inline };
        files.push(one);
        assert(views(files@) =~= views(was).push(one@));
    }
    Ok(files)
}

/// The first `n` layers, each over those before it.
pub open spec fn layered(l: Seq<LayerView>, n: int) -> ValTree
    decreases n,
{
    if n <= 0 || n > l.len() {
        ValTree::Table(Seq::empty(), DefView::Cli)
    } else {
        merged(layered(l, n - 1), layer_value(l[n - 1]))
    }
}

/// The layers, each over those before it.
pub fn merge_all(layers: &Vec<Layer>) -> (r: Val)
    ensures
        r@ == layered(views(layers@), layers@.len() as int),
{
    let ghost lv = views(layers@);
    let none: Vec<(String, Val)> = Vec::new();
    assert(val_entries(none@) =~= Seq::<(Seq<char>, ValTree)>::empty());
    let mut acc = Val::Table(none, Def::Cli);
    let mut k: usize = 0;
    while k < layers.len()
        invariant
            k <= layers@.len(),
            lv == views(layers@),
            acc@ == layered(lv, k as int),
        decreases layers@.len() - k,
    {
        assert(lv[k as int] == layers@[k as int]@);
        let high = layers[k].value();
        acc = merge(acc, &high);
        k += 1;
    }
    acc
}

fn get_val<'a>(t: &'a Vec<(String, Val)>, key: &str) -> (r: Option<&'a Val>)
    ensures
        match r {
            Some(v) => at(val_entries(t@), key@) == Some(v@),
            None => at(val_entries(t@), key@) == None::<ValTree>,
        },
{
    reveal(at);
    let mut i: usize = 0;
    while i < t.len()
        invariant
            i <= t@.len(),
            entry_at(val_entries(t@), key@, 0) == entry_at(val_entries(t@), key@, i as int),
        decreases t@.len() - i,
    {
        reveal(at);
        assert(val_entries(t@)[i as int] == (t@[i as int].0@, val_tree(t@[i as int].1)));
        if same(t[i].0.as_str(), key) {
            return Some(&t[i].1);
        }
        i += 1;
    }
    None
}

/// What is said of a value that should be a table, at the first `k` parts of a key.
pub open spec fn no_table(parts: Seq<Seq<char>>, k: int, v: ValTree) -> GetFault {
    GetFault::NotTable(joined(parts.take(k), "."@), kind_text(v), def_text(origin(v)))
}

/// What stands under the parts of a key from `k` on.
pub open spec fn found(v: ValTree, parts: Seq<Seq<char>>, k: int) -> Result<Option<ValTree>, GetFault>
    decreases parts.len() - k,
{
    if k < 0 || k >= parts.len() {
        Ok(Some(v))
    } else {
        match v {
            ValTree::Table(t, _) => match at(t, parts[k]) {
                Some(x) => found(x, parts, k + 1),
                None => Ok(None),
            },
            _ => Err(no_table(parts, k, v)),
        }
    }
}

fn take_parts(parts: &Vec<String>, k: usize) -> (r: String)
    requires
        k <= parts@.len(),
    ensures
        r@ == joined(views(parts@).take(k as int), "."@),
{
    let mut out: Vec<String> = Vec::new();
    let mut i: usize = 0;
    while i < k
        invariant
            i <= k <= parts@.len(),
            views(out@) =~= views(parts@).take(i as int),
        decreases k - i,
    {
        let ghost was = out@;
        out.push(parts[i].clone());
        assert(views(out@) =~= views(was).push(parts@[i as int]@));
        i += 1;
    }
    join(&out, ".")
}

/// What stands under a key.
pub fn lookup<'a>(root: &'a Val, parts: &Vec<String>) -> (r: Result<Option<&'a Val>, GetError>)
    ensures
        match found(root@, views(parts@), 0) {
            Ok(Some(v)) => r matches Ok(Some(x)) && x@ == v,
            Ok(None) => r matches Ok(None),
            Err(e) => r matches Err(x) && x@ == e,
        },
{
    let ghost pv = views(parts@);
    let mut cur = root;
    let mut k: usize = 0;
    while k < parts.len()
        invariant
            k <= parts@.len(),
            pv == views(parts@),
            found(root@, pv, 0) == found(cur@, pv, k as int),
        decreases parts@.len() - k,
    {
        assert(pv[k as int] == parts@[k as int]@);
        match cur {
            Val::Table(t, _) => match get_val(t, parts[k].as_str()) {
                Some(v) => {
                    cur = v;
                },
                None => {
                    return Ok(None);
                },
            },
            _ => {
                return Err(GetError::NotTable(take_parts(parts, k), cur.desc().to_owned(), cur.def().display()));
            },
        }
        k += 1;
    }
    assert(pv.len() == parts@.len());
    Ok(Some(cur))
}

// ---------------------------------------------------------------------------
// The environment.

pub open spec fn env_key_upto(parts: Seq<Seq<char>>, n: int) -> Seq<char>
    decreases n,
{
    if n <= 0 || n > parts.len() {
        "CARGO"@
    } else {
        env_key_upto(parts, n - 1) + "_"@ + swapped(uppercase(parts[n - 1]), '-', '_')
    }
}

/// The variable that stands for a key.
pub open spec fn env_name(parts: Seq<Seq<char>>) -> Seq<char> {
    env_key_upto(parts, parts.len() as int)
}

/// The variable that stands for a key.
pub fn env_key(parts: &Vec<String>) -> (r: String)
    ensures
        r@ == env_name(views(parts@)),
{
    let ghost pv = views(parts@);
    let mut s = "CARGO".to_owned();
    let mut k: usize = 0;
    while k < parts.len()
        invariant
            k <= parts@.len(),
            pv == views(parts@),
            s@ == env_key_upto(pv, k as int),
        decreases parts@.len() - k,
    {
        assert(pv[k as int] == parts@[k as int]@);
        s = cat3(s.as_str(), "_", replace_char(to_upper(parts[k].as_str()).as_str(), '-', '_').as_str());
        k += 1;
    }
    assert(pv.len() == parts@.len());
    s
}

/// What the text of a variable stands for.
pub open spec fn env_value(raw: Seq<char>, d: DefView) -> ValTree {
    if raw == "true"@ {
        ValTree::Bool(true, d)
    } else if raw == "false"@ {
        ValTree::Bool(false, d)
    } else {
        match i64_of(raw) {
            Some(n) => ValTree::Int(n as i64, d),
            None => ValTree::Str(raw, d),
        }
    }
}

fn parse_env(raw: &str, def: Def) -> (r: Val)
    ensures
        r@ == env_value(raw@, def@),
{
    if same(raw, "true") {
        Val::Bool(true, def)
    } else if same(raw, "false") {
        Val::Bool(false, def)
    } else {
        match parse_i64(raw) {
            Some(n) => Val::Int(n, def),
            None => Val::Str(raw.to_owned(), def),
        }
    }
}

/// What only the environment sets.
pub open spec fn env_only(parts: Seq<Seq<char>>, env: Vars) -> Option<ValTree> {
    if parts.len() == 0 {
        None
    } else {
        match filled_var(env, env_name(parts)) {
            Some(raw) => Some(env_value(raw, DefView::Env(env_name(parts)))),
            None => None,
        }
    }
}

fn env_leaf(parts: &Vec<String>, env: &StrMap<String>) -> (r: Option<Val>)
    ensures
        match r {
            Some(v) => env_only(views(parts@), env@) == Some(v@),
            None => env_only(views(parts@), env@).is_none(),
        },
{
    assert(views(parts@).len() == parts@.len());
    if parts.len() == 0 {
        return None;
    }
    let name = env_key(parts);
    match env_nonempty(env, name.as_str()) {
        Some(raw) => Some(parse_env(raw, Def::Env(name))),
        None => None,
    }
}

pub open spec fn env_items(ws: Seq<Seq<char>>, name: Seq<char>) -> Seq<ValTree> {
    Seq::new(ws.len(), |i: int| ValTree::Str(ws[i], DefView::Env(name)))
}

/// The value with what its variable says of it: more items for a list, another value for the rest. A table
/// stays as it is.
pub open spec fn with_env(v: ValTree, parts: Seq<Seq<char>>, env: Vars) -> ValTree {
    if parts.len() == 0 || v is Table {
        v
    } else {
        match filled_var(env, env_name(parts)) {
            None => v,
            Some(raw) => match v {
                ValTree::List(l, d) => ValTree::List(l + env_items(words_of(raw), env_name(parts)), d),
                _ => env_value(raw, DefView::Env(env_name(parts))),
            },
        }
    }
}

fn apply_env(v: Val, parts: &Vec<String>, env: &StrMap<String>) -> (r: Val)
    ensures
        r@ == with_env(v@, views(parts@), env@),
{
    assert(views(parts@).len() == parts@.len());
    if parts.len() == 0 || matches!(v, Val::Table(_, _)) {
        return v;
    }
    let name = env_key(parts);
    match env_nonempty(env, name.as_str()) {
        None => v,
        Some(raw) => match v {
            Val::List(l, d) => {
                let ghost start = val_trees(l@);
                let ws = words(raw);
                let ghost want = env_items(words_of(raw@), name@);
                let mut out = l;
                let mut k: usize = 0;
                while k < ws.len()
                    invariant
                        k <= ws@.len(),
                        views(ws@) == words_of(raw@),
                        want == env_items(words_of(raw@), name@),
                        val_trees(out@) =~= start + want.take(k as int),
                    decreases ws@.len() - k,
                {
                    assert(words_of(raw@)[k as int] == ws@[k as int]@);
                    let ghost was = val_trees(out@);
                    let one = Val::Str(ws[k].clone(), Def::Env(name.clone()));
                    let ghost ov = one@;
                    out.push(one);
                    assert(val_trees(out@) =~= was.push(ov));
                    assert(want[k as int] == ov);
                    k += 1;
                }
                assert(views(ws@).len() == ws@.len());
                assert(want.take(k as int) =~= want);
                Val::List(out, d)
            },
            _ => parse_env(raw, Def::Env(name)),
        },
    }
}

/// The variables that are set, and `CARGO_HOME` in any case.
pub open spec fn snapshot(env: Vars, home: Seq<char>) -> Map<Seq<char>, Seq<char>> {
    Map::new(
        |k: Seq<char>| filled_var(env, k).is_some() || k == "CARGO_HOME"@,
        |k: Seq<char>|
            match filled_var(env, k) {
                Some(v) => v,
                None => home,
            },
    )
}

/// Of the first `n` variables, those that start so.
pub open spec fn shown_upto(m: Map<Seq<char>, Seq<char>>, l: Seq<Seq<char>>, prefix: Seq<char>, n: int) -> Seq<(Seq<char>, Seq<char>)>
    decreases n,
{
    if n <= 0 || n > l.len() {
        Seq::empty()
    } else if starts(l[n - 1], prefix) {
        shown_upto(m, l, prefix, n - 1).push((l[n - 1], m[l[n - 1]]))
    } else {
        shown_upto(m, l, prefix, n - 1)
    }
}

/// The variables that start so, in order.
pub open spec fn vars_shown(env: Vars, home: Seq<char>, prefix: Seq<char>) -> Seq<(Seq<char>, Seq<char>)> {
    let m = snapshot(env, home);
    let l = listed(m.dom());
    shown_upto(m, l, prefix, l.len() as int)
}

pub open spec fn pair_views(l: Seq<(String, String)>) -> Seq<(Seq<char>, Seq<char>)> {
    Seq::new(l.len(), |i: int| (l[i].0@, l[i].1@))
}

fn env_snapshot(env: &StrMap<String>, home: &str) -> (r: StrMap<String>)
    ensures
        r@.dom() == snapshot(env@, home@).dom(),
        forall|k: Seq<char>| #[trigger] r@.contains_key(k) ==> r@[k]@ == snapshot(env@, home@)[k],
{
    let ghost want = snapshot(env@, home@);
    let keys = env.keys();
    let ghost kv = views(keys@);
    let mut out: StrMap<String> = StrMap::new();
    let mut k: usize = 0;
    while k < keys.len()
        invariant
            k <= keys@.len(),
            kv == views(keys@),
            kv.to_set() == env@.dom(),
            forall|x: Seq<char>| #[trigger]
                out@.contains_key(x) == (filled_var(env@, x).is_some() && exists|i: int| 0 <= i < k && kv[i] == x),
            forall|x: Seq<char>| #[trigger] out@.contains_key(x) ==> Some(out@[x]@) == filled_var(env@, x),
        decreases keys@.len() - k,
    {
        let ghost was = out@;
        let name = keys[k].as_str();
        assert(kv[k as int] == name@);
        if let Some(v) = env_nonempty(env, name) {
            out.insert(name, v.to_owned());
        }
        proof {
            assert forall|x: Seq<char>| #[trigger]
                out@.contains_key(x) == (filled_var(env@, x).is_some() && exists|i: int| 0 <= i < k + 1 && kv[i] == x) by {
                if x == name@ {
                    assert(kv[k as int] == x);
                }
                if was.contains_key(x) {
                    let i = choose|i: int| 0 <= i < k && kv[i] == x;
                    assert(kv[i] == x);
                }
            }
        }
        k += 1;
    }
    proof {
        assert(kv.len() == keys@.len());
        assert forall|x: Seq<char>| #[trigger] out@.contains_key(x) == filled_var(env@, x).is_some() by {
            if filled_var(env@, x).is_some() {
                assert(env@.dom().contains(x));
                assert(kv.contains(x));
            }
        }
    }
    if !out.has("CARGO_HOME") {
        out.insert("CARGO_HOME", home.to_owned());
    }
    assert(out@.dom() =~= want.dom());
    out
}

fn find_vars(env: &StrMap<String>, home: &str, prefix: &str) -> (r: Vec<(String, String)>)
    ensures
        pair_views(r@) == vars_shown(env@, home@, prefix@),
{
    let snap = env_snapshot(env, home);
    let ghost m = snapshot(env@, home@);
    let keys = snap.keys();
    let ghost kv = views(keys@);
    let mut out: Vec<(String, String)> = Vec::new();
    let mut k: usize = 0;
    assert(pair_views(out@) =~= Seq::<(Seq<char>, Seq<char>)>::empty());
    while k < keys.len()
        invariant
            k <= keys@.len(),
            kv == views(keys@),
            kv.to_set() == snap@.dom(),
            forall|x: Seq<char>| #[trigger] snap@.contains_key(x) ==> snap@[x]@ == m[x],
            pair_views(out@) == shown_upto(m, kv, prefix@, k as int),
        decreases keys@.len() - k,
    {
        let name = keys[k].as_str();
        assert(kv[k as int] == name@);
        assert(kv.contains(kv[k as int]));
        assert(snap@.dom().contains(name@));
        if starts_with(name, prefix) {
            let v = match snap.get(name) {
                Some(v) => v.clone(),
                None => String::new(),
            };
            let ghost was = out@;
            let ghost vv = v@;
            out.push((name.to_owned(), v));
            assert(pair_views(out@) =~= pair_views(was).push((name@, vv)));
        }
        k += 1;
    }
    assert(kv.len() == keys@.len());
    out
}

/// The variables that may have a say in a table; none for another value.
pub open spec fn table_vars(v: ValTree, parts: Seq<Seq<char>>, env: Vars, home: Seq<char>) -> Seq<(Seq<char>, Seq<char>)> {
    if v is Table {
        vars_shown(env, home, env_name(parts) + "_"@)
    } else {
        Seq::empty()
    }
}

fn maybe_env(v: &Val, parts: &Vec<String>, env: &StrMap<String>, home: &str) -> (r: Vec<(String, String)>)
    ensures
        pair_views(r@) == table_vars(v@, views(parts@), env@, home@),
{
    if !matches!(v, Val::Table(_, _)) {
        let none: Vec<(String, String)> = Vec::new();
        assert(pair_views(none@) =~= Seq::<(Seq<char>, Seq<char>)>::empty());
        return none;
    }
    find_vars(env, home, cat(env_key(parts).as_str(), "_").as_str())
}

// ---------------------------------------------------------------------------
// Texts.

pub open spec fn needs_no_quotes(c: char) -> bool {
    alnum(c) || c == '_' || c == '-' || c == '.' || c == '/' || c == '@' || c == '%' || c == '+' || c == '=' || c == ':'
        || c == ','
}

pub open spec fn all_safe(s: Seq<char>) -> bool {
    forall|i: int| 0 <= i < s.len() ==> needs_no_quotes(#[trigger] s[i])
}

/// The text as one word of a shell's command line.
pub open spec fn shell_word(s: Seq<char>) -> Seq<char> {
    if s.len() == 0 {
        "''"@
    } else if all_safe(s) {
        s
    } else {
        "'"@ + replaced(s, "'"@, "'\\''"@) + "'"@
    }
}

fn is_safe(s: &str) -> (r: bool)
    ensures
        r == all_safe(s@),
{
    let cs = chars_of(s);
    let mut k: usize = 0;
    while k < cs.len()
        invariant
            k <= cs@.len(),
            cs@ == s@,
            forall|i: int| 0 <= i < k ==> needs_no_quotes(#[trigger] s@[i]),
        decreases cs@.len() - k,
    {
        let c = cs[k];
        if !(is_alnum(c) || c == '_' || c == '-' || c == '.' || c == '/' || c == '@' || c == '%' || c == '+' || c == '='
            || c == ':' || c == ',') {
            assert(!needs_no_quotes(s@[k as int]));
            return false;
        }
        k += 1;
    }
    true
}

/// The text as one word of a shell's command line.
pub fn shell_escape(s: &str) -> (r: String)
    ensures
        r@ == shell_word(s@),
{
    if s.is_empty() {
        return "''".to_owned();
    }
    if is_safe(s) {
        return s.to_owned();
    }
    proof {
        reveal_strlit("'");
    }
    cat3("'", replace(s, "'", "'\\''").as_str(), "'")
}

/// The text of a string in a TOML document, in quotes.
pub uninterp spec fn toml_quoted(s: Seq<char>) -> Seq<char>;

/// `toml::Value`'s `Display` on a string: a function of the string alone, named `toml_quoted`.
#[verifier::external_body]
pub(crate) fn quote_toml(s: &str) -> (r: String)
    ensures
        r@ == toml_quoted(s@),
{
    toml::Value::String(s.to_owned()).to_string()
}

/// A value on one line. A table shows nothing of what it holds.
pub open spec fn scalar(v: ValTree) -> Seq<char>
    decreases v,
{
    match v {
        ValTree::Bool(b, _) => if b {
            "true"@
        } else {
            "false"@
        },
        ValTree::Int(n, _) => int_text(n as int),
        ValTree::Str(s, _) => toml_quoted(s),
        ValTree::List(l, _) => "["@ + joined(scalars(l), ", "@) + "]"@,
        ValTree::Table(_, _) => "{}"@,
    }
}

pub open spec fn scalars(l: Seq<ValTree>) -> Seq<Seq<char>>
    decreases l,
{
    Seq::new(
        l.len(),
        |i: int|
            if 0 <= i < l.len() {
                scalar(l[i])
            } else {
                Seq::empty()
            },
    )
}

#[verifier::loop_isolation(false)]
fn toml_scalar(v: &Val) -> (r: String)
    ensures
        r@ == scalar(v@),
    decreases *v,
{
    match v {
        Val::Bool(b, _) => if *b {
            "true".to_owned()
        } else {
            "false".to_owned()
        },
        Val::Int(n, _) => i64_text(*n),
        Val::Str(s, _) => quote_toml(s.as_str()),
        Val::List(l, d) => {
            let mut out: Vec<String> = Vec::new();
            let mut i: usize = 0;
            while i < l.len()
                invariant
                    *v == Val::List(*l, *d),
                    i <= l@.len(),
                    out@.len() == i,
                    forall|j: int| 0 <= j < i ==> (#[trigger] out@[j])@ == scalar(val_tree(l@[j])),
                decreases l@.len() - i,
            {
                assert(decreases_to!(*v => l@[i as int]));
                out.push(toml_scalar(&l[i]));
                i += 1;
            }
            assert(views(out@) =~= scalars(val_trees(l@)));
            cat3("[", join(&out, ", ").as_str(), "]")
        },
        Val::Table(_, _) => "{}".to_owned(),
    }
}

pub open spec fn origin_note(show: bool, v: ValTree) -> Seq<char> {
    if show {
        " # "@ + def_text(origin(v))
    } else {
        Seq::empty()
    }
}

/// The items of a list, each on a line with where it comes from.
pub open spec fn item_lines(l: Seq<ValTree>) -> Seq<Seq<char>> {
    Seq::new(l.len(), |i: int| "    "@ + scalar(l[i]) + ", # "@ + def_text(origin(l[i])))
}

/// The lines that show a value under a key.
pub open spec fn val_lines(show: bool, key: Seq<Seq<char>>, v: ValTree) -> Seq<Seq<char>>
    decreases v, 0int,
{
    let name = joined(key, "."@);
    match v {
        ValTree::Table(t, _) => entries_lines(show, key, t, t.len() as int),
        ValTree::List(l, _) => if show {
            seq![name + " = ["@] + item_lines(l) + seq!["]"@]
        } else {
            seq![name + " = "@ + scalar(v) + origin_note(show, v)]
        },
        _ => seq![name + " = "@ + scalar(v) + origin_note(show, v)],
    }
}

pub open spec fn entries_lines(show: bool, key: Seq<Seq<char>>, t: ValEntries, n: int) -> Seq<Seq<char>>
    decreases t, n,
{
    if 0 < n <= t.len() {
        entries_lines(show, key, t, n - 1) + val_lines(show, key.push(t[n - 1].0), t[n - 1].1)
    } else {
        Seq::empty()
    }
}

fn one_line(show: bool, key: &Vec<String>, v: &Val) -> (r: String)
    ensures
        r@ == joined(views(key@), "."@) + " = "@ + scalar(v@) + origin_note(show, v@),
{
    let note = if show {
        cat(" # ", v.def().display().as_str())
    } else {
        proof {
            reveal_strlit("");
            assert(""@ =~= Seq::<char>::empty());
        }
        "".to_owned()
    };
    cat4(join(key, ".").as_str(), " = ", toml_scalar(v).as_str(), note.as_str())
}

fn list_items(out: &mut Vec<String>, l: &Vec<Val>)
    ensures
        views(final(out)@) == views(old(out)@) + item_lines(val_trees(l@)),
{
    let ghost start = views(out@);
    let ghost lv = val_trees(l@);
    let ghost want = item_lines(lv);
    let mut i: usize = 0;
    while i < l.len()
        invariant
            i <= l@.len(),
            lv == val_trees(l@),
            want == item_lines(lv),
            views(out@) =~= start + want.take(i as int),
        decreases l@.len() - i,
    {
        assert(lv[i as int] == val_tree(l@[i as int]));
        let ghost was = out@;
        let line = cat4("    ", toml_scalar(&l[i]).as_str(), ", # ", l[i].def().display().as_str());
        let ghost line_v = line@;
        out.push(line);
        assert(views(out@) =~= views(was).push(line_v));
        assert(want[i as int] == line_v);
        i += 1;
    }
    assert(want.take(i as int) =~= want);
}

/// Adds the lines that show a value under a key.
#[verifier::loop_isolation(false)]
fn print_toml(out: &mut Vec<String>, show: bool, key: &mut Vec<String>, v: &Val)
    ensures
        views(final(out)@) == views(old(out)@) + val_lines(show, views(old(key)@), v@),
        views(final(key)@) == views(old(key)@),
    decreases *v,
{
    let ghost start = views(out@);
    let ghost kv = views(key@);
    match v {
        Val::Table(t, d) => {
            let ghost tv = val_entries(t@);
            let mut n: usize = 0;
            assert(start + Seq::<Seq<char>>::empty() =~= start);
            while n < t.len()
                invariant
                    *v == Val::Table(*t, *d),
                    n <= t@.len(),
                    tv == val_entries(t@),
                    views(key@) == kv,
                    views(out@) == start + entries_lines(show, kv, tv, n as int),
                decreases t@.len() - n,
            {
                assert(decreases_to!(*v => t@));
                assert(decreases_to!(*v => t@[n as int]));
                assert(decreases_to!(*v => t@[n as int].1));
                assert(tv[n as int] == (t@[n as int].0@, val_tree(t@[n as int].1)));
                let ghost was = key@;
                key.push(t[n].0.clone());
                assert(views(key@) =~= kv.push(tv[n as int].0));
                print_toml(out, show, key, &t[n].1);
                let ghost full = key@;
                assert(views(full).len() == full.len());
                key.pop();
                assert(views(key@) =~= views(full).drop_last());
                assert(kv.push(tv[n as int].0).drop_last() =~= kv);
                assert(views(out@) =~= start + entries_lines(show, kv, tv, n + 1));
                n += 1;
            }
            assert(tv.len() == t@.len());
        },
        Val::List(l, _) => {
            if show {
                let head = cat(join(key, ".").as_str(), " = [");
                let ghost hv = head@;
                out.push(head);
                assert(views(out@) =~= start.push(hv));
                list_items(out, l);
                let ghost mid = views(out@);
                out.push("]".to_owned());
                assert(views(out@) =~= mid.push("]"@));
                assert(views(out@) =~= start + val_lines(show, kv, v@));
            } else {
                let line = one_line(show, key, v);
                let ghost lv = line@;
                out.push(line);
                assert(views(out@) =~= start.push(lv));
                assert(views(out@) =~= start + val_lines(show, kv, v@));
            }
        },
        _ => {
            let line = one_line(show, key, v);
            let ghost lv = line@;
            out.push(line);
            assert(views(out@) =~= start.push(lv));
            assert(views(out@) =~= start + val_lines(show, kv, v@));
        },
    }
}

/// A value as JSON, without where it comes from.
pub open spec fn bare(v: ValTree) -> JsonTree
    decreases v,
{
    match v {
        ValTree::Bool(b, _) => JsonTree::Bool(b),
        ValTree::Int(n, _) => JsonTree::Number(int_text(n as int)),
        ValTree::Str(s, _) => JsonTree::Str(s),
        ValTree::List(l, _) => JsonTree::Array(bare_list(l)),
        ValTree::Table(t, _) => JsonTree::Object(bare_entries(t)),
    }
}

pub open spec fn bare_list(l: Seq<ValTree>) -> Seq<JsonTree>
    decreases l,
{
    Seq::new(
        l.len(),
        |i: int|
            if 0 <= i < l.len() {
                bare(l[i])
            } else {
                JsonTree::Null
            },
    )
}

pub open spec fn bare_entries(l: ValEntries) -> Seq<(Seq<char>, JsonTree)>
    decreases l,
{
    Seq::new(
        l.len(),
        |i: int|
            if 0 <= i < l.len() {
                (l[i].0, bare(l[i].1))
            } else {
                (Seq::empty(), JsonTree::Null)
            },
    )
}

#[verifier::loop_isolation(false)]
fn cv_json(v: &Val) -> (r: Json)
    ensures
        r@ == bare(v@),
    decreases *v,
{
    match v {
        Val::Bool(b, _) => Json::Bool(*b),
        Val::Int(n, _) => Json::Number(i64_text(*n)),
        Val::Str(s, _) => Json::Str(s.clone()),
        Val::List(l, d) => {
            let mut out: Vec<Json> = Vec::new();
            let mut i: usize = 0;
            while i < l.len()
                invariant
                    *v == Val::List(*l, *d),
                    i <= l@.len(),
                    out@.len() == i,
                    forall|j: int| 0 <= j < i ==> json_tree(#[trigger] out@[j]) == bare(val_tree(l@[j])),
                decreases l@.len() - i,
            {
                assert(decreases_to!(*v => l@[i as int]));
                out.push(cv_json(&l[i]));
                i += 1;
            }
            assert(json_trees(out@) =~= bare_list(val_trees(l@)));
            Json::Array(out)
        },
        Val::Table(l, d) => {
            let mut out: Vec<(String, Json)> = Vec::new();
            let mut i: usize = 0;
            while i < l.len()
                invariant
                    *v == Val::Table(*l, *d),
                    i <= l@.len(),
                    out@.len() == i,
                    forall|j: int| 0 <= j < i ==> (#[trigger] out@[j]).0@ == l@[j].0@,
                    forall|j: int| 0 <= j < i ==> json_tree((#[trigger] out@[j]).1) == bare(val_tree(l@[j].1)),
                decreases l@.len() - i,
            {
                assert(decreases_to!(*v => l@));
                assert(decreases_to!(*v => l@[i as int]));
                assert(decreases_to!(*v => l@[i as int].1));
                out.push((l[i].0.clone(), cv_json(&l[i].1)));
                i += 1;
            }
            assert(json_entries(out@) =~= bare_entries(val_entries(l@)));
            Json::Object(out)
        },
    }
}

/// The value inside one object for each of the first `n` parts of a key.
pub open spec fn nested(key: Seq<Seq<char>>, v: JsonTree, k: int) -> JsonTree
    decreases key.len() - k,
{
    if k < 0 || k >= key.len() {
        v
    } else {
        JsonTree::Object(seq![(key[k], nested(key, v, k + 1))])
    }
}

/// A value as JSON, under its key or without it.
pub fn to_json(key: &Vec<String>, v: &Val, with_key: bool) -> (r: Json)
    ensures
        r@ == (if with_key {
            nested(views(key@), bare(v@), 0)
        } else {
            bare(v@)
        }),
{
    let mut out = cv_json(v);
    if !with_key {
        return out;
    }
    let ghost kv = views(key@);
    let mut k: usize = key.len();
    assert(kv.len() == key@.len());
    while k > 0
        invariant
            k <= key@.len(),
            kv == views(key@),
            out@ == nested(kv, bare(v@), k as int),
        decreases k,
    {
        k -= 1;
        assert(kv[k as int] == key@[k as int]@);
        let ghost inner = out@;
        let mut l: Vec<(String, Json)> = Vec::new();
        l.push((key[k].clone(), out));
        assert(json_entries(l@) =~= seq![(kv[k as int], inner)]);
        out = Json::Object(l);
    }
    out
}

// ---------------------------------------------------------------------------
// One layer after the other.

/// A layer without what does not lead to the key; nothing where it does not have it.
pub open spec fn cut_to(v: ValTree, parts: Seq<Seq<char>>, k: int) -> Result<Option<ValTree>, GetFault>
    decreases parts.len() - k,
{
    if k < 0 || k >= parts.len() {
        if v matches ValTree::Table(t, _) && t.len() == 0 {
            Ok(None)
        } else {
            Ok(Some(v))
        }
    } else {
        match v {
            ValTree::Table(t, d) => match at(t, parts[k]) {
                None => Ok(None),
                Some(x) => match cut_to(x, parts, k + 1) {
                    Ok(Some(y)) => Ok(Some(ValTree::Table(seq![(parts[k], y)], d))),
                    Ok(None) => Ok(None),
                    Err(e) => Err(e),
                },
            },
            _ => Err(no_table(parts, k, v)),
        }
    }
}

fn nest_trim(v: &Val, parts: &Vec<String>, k: usize) -> (r: Result<Option<Val>, GetError>)
    requires
        k <= parts@.len(),
    ensures
        match cut_to(v@, views(parts@), k as int) {
            Ok(Some(x)) => r matches Ok(Some(y)) && y@ == x,
            Ok(None) => r matches Ok(None),
            Err(e) => r matches Err(x) && x@ == e,
        },
    decreases parts@.len() - k,
{
    let ghost pv = views(parts@);
    assert(pv.len() == parts@.len());
    if k == parts.len() {
        if let Val::Table(t, _) = v {
            assert(val_entries(t@).len() == t@.len());
            if t.len() == 0 {
                return Ok(None);
            }
        }
        return Ok(Some(v.dup()));
    }
    assert(pv[k as int] == parts@[k as int]@);
    match v {
        Val::Table(t, d) => match get_val(t, parts[k].as_str()) {
            None => Ok(None),
            Some(x) => match nest_trim(x, parts, k + 1) {
                Ok(Some(y)) => {
                    let ghost yv = y@;
                    let mut kept: Vec<(String, Val)> = Vec::new();
                    kept.push((parts[k].clone(), y));
                    assert(val_entries(kept@) =~= seq![(pv[k as int], yv)]);
                    Ok(Some(Val::Table(kept, d.dup())))
                },
                Ok(None) => Ok(None),
                Err(e) => Err(e),
            },
        },
        _ => Err(GetError::NotTable(take_parts(parts, k), v.desc().to_owned(), v.def().display())),
    }
}

/// The lines that show one layer: a heading, the values, and an empty line.
pub open spec fn layer_lines(show: bool, l: LayerView, parts: Seq<Seq<char>>) -> Result<Seq<Seq<char>>, GetFault> {
    match cut_to(layer_value(l), parts, 0) {
        Err(e) => Err(e),
        Ok(None) => Ok(Seq::empty()),
        Ok(Some(v)) => Ok(
            seq!["# "@ + def_text(origin(v))] + val_lines(show, Seq::empty(), v) + seq![Seq::empty()],
        ),
    }
}

fn print_layer(out: &mut Vec<String>, show: bool, l: &Layer, parts: &Vec<String>) -> (r: Result<(), GetError>)
    ensures
        match layer_lines(show, l@, views(parts@)) {
            Ok(x) => r.is_ok() && views(final(out)@) == views(old(out)@) + x,
            Err(e) => r matches Err(x) && x@ == e,
        },
{
    let ghost start = views(out@);
    let v = l.value();
    match nest_trim(&v, parts, 0) {
        Err(e) => Err(e),
        Ok(None) => {
            assert(start + Seq::<Seq<char>>::empty() =~= start);
            Ok(())
        },
        Ok(Some(v)) => {
            let head = cat("# ", v.def().display().as_str());
            let ghost hv = head@;
            out.push(head);
            assert(views(out@) =~= start.push(hv));
            let mut key: Vec<String> = Vec::new();
            assert(views(key@) =~= Seq::<Seq<char>>::empty());
            print_toml(out, show, &mut key, &v);
            let ghost mid = views(out@);
            proof {
                reveal_strlit("");
                assert(""@ =~= Seq::<char>::empty());
            }
            out.push("".to_owned());
            assert(views(out@) =~= mid.push(Seq::<char>::empty()));
            assert(views(out@) =~= start + layer_lines(show, l@, views(parts@))->Ok_0);
            Ok(())
        },
    }
}

/// The variables, each in a comment.
pub open spec fn var_lines(mark: Seq<char>, l: Seq<(Seq<char>, Seq<char>)>) -> Seq<Seq<char>> {
    Seq::new(l.len(), |i: int| mark + l[i].0 + "="@ + shell_word(l[i].1))
}

fn list_vars(out: &mut Vec<String>, mark: &str, l: &Vec<(String, String)>)
    ensures
        views(final(out)@) == views(old(out)@) + var_lines(mark@, pair_views(l@)),
{
    let ghost start = views(out@);
    let ghost want = var_lines(mark@, pair_views(l@));
    let mut i: usize = 0;
    while i < l.len()
        invariant
            i <= l@.len(),
            want == var_lines(mark@, pair_views(l@)),
            views(out@) =~= start + want.take(i as int),
        decreases l@.len() - i,
    {
        assert(pair_views(l@)[i as int] == (l@[i as int].0@, l@[i as int].1@));
        let ghost was = out@;
        let line = cat4(mark, l[i].0.as_str(), "=", shell_escape(l[i].1.as_str()).as_str());
        let ghost line_v = line@;
        out.push(line);
        assert(views(out@) =~= views(was).push(line_v));
        assert(want[i as int] == line_v);
        i += 1;
    }
    assert(want.take(i as int) =~= want);
}

/// The lines of the files from the `n`-th down to the first, the highest first.
pub open spec fn files_lines(show: bool, l: Seq<LayerView>, parts: Seq<Seq<char>>, n: int, so_far: Seq<Seq<char>>) -> Result<Seq<Seq<char>>, GetFault>
    decreases n,
{
    if n <= 0 || n > l.len() {
        Ok(so_far)
    } else if l[n - 1].def is Cli {
        files_lines(show, l, parts, n - 1, so_far)
    } else {
        match layer_lines(show, l[n - 1], parts) {
            Err(e) => Err(e),
            Ok(x) => files_lines(show, l, parts, n - 1, so_far + x),
        }
    }
}

/// The last layer of the first `n` that is the command line's.
pub open spec fn cli_layer(l: Seq<LayerView>, n: int) -> Option<LayerView>
    decreases n,
{
    if n <= 0 || n > l.len() {
        None
    } else if l[n - 1].def is Cli {
        Some(l[n - 1])
    } else {
        cli_layer(l, n - 1)
    }
}

/// The lines of the variables under a key.
pub open spec fn env_lines(parts: Seq<Seq<char>>, env: Vars, home: Seq<char>) -> Seq<Seq<char>> {
    let l = vars_shown(env, home, env_name(parts));
    if l.len() == 0 {
        Seq::empty()
    } else {
        seq!["# Environment variables"@] + var_lines("# "@, l) + seq![Seq::empty()]
    }
}

/// One layer after the other: the command line, the environment, then the files, the highest first.
pub open spec fn unmerged(l: Seq<LayerView>, show: bool, parts: Seq<Seq<char>>, env: Vars, home: Seq<char>) -> Result<Seq<Seq<char>>, GetFault> {
    let first = match cli_layer(l, l.len() as int) {
        Some(c) => layer_lines(show, c, parts),
        None => Ok(Seq::empty()),
    };
    match first {
        Err(e) => Err(e),
        Ok(x) => files_lines(show, l, parts, l.len() as int, x + env_lines(parts, env, home)),
    }
}

/// One layer after the other: the command line, the environment, then the files, the highest first. The
/// layers are given the lowest first.
pub fn print_unmerged(layers: &Vec<Layer>, show: bool, parts: &Vec<String>, env: &StrMap<String>, home: &str) -> (r: Result<Vec<String>, GetError>)
    ensures
        match unmerged(views(layers@), show, views(parts@), env@, home@) {
            Ok(l) => r matches Ok(x) && views(x@) == l,
            Err(e) => r matches Err(x) && x@ == e,
        },
{
    let ghost lv = views(layers@);
    let ghost pv = views(parts@);
    let mut out: Vec<String> = Vec::new();
    assert(views(out@) =~= Seq::<Seq<char>>::empty());
    let ghost first = match cli_layer(lv, lv.len() as int) {
        Some(c) => layer_lines(show, c, pv),
        None => Ok(Seq::empty()),
    };
    let mut n: usize = layers.len();
    assert(lv.len() == layers@.len());
    let mut shown: bool = false;
    while n > 0 && !shown
        invariant
            n <= layers@.len(),
            lv == views(layers@),
            pv == views(parts@),
            lv.len() == layers@.len(),
            first == (match cli_layer(lv, lv.len() as int) {
                Some(c) => layer_lines(show, c, pv),
                None => Ok(Seq::empty()),
            }),
            !shown ==> views(out@) == Seq::<Seq<char>>::empty() && cli_layer(lv, lv.len() as int) == cli_layer(lv, n as int),
            shown ==> first == Ok::<_, GetFault>(views(out@)),
            unmerged(lv, show, pv, env@, home@) == (match first {
                Err(e) => Err(e),
                Ok(x) => files_lines(show, lv, pv, lv.len() as int, x + env_lines(pv, env@, home@)),
            }),
        decreases n,
    {
        n -= 1;
        assert(lv[n as int] == layers@[n as int]@);
        if let Def::Cli = &layers[n].def {
            if let Err(e) = print_layer(&mut out, show, &layers[n], parts) {
                return Err(e);
            }
            assert(views(out@) =~= first->Ok_0);
            shown = true;
        }
    }
    assert(first == Ok::<_, GetFault>(views(out@)));
    let ghost start = views(out@);
    let vars = find_vars(env, home, env_key(parts).as_str());
    assert(pair_views(vars@).len() == vars@.len());
    if vars.len() > 0 {
        out.push("# Environment variables".to_owned());
        assert(views(out@) =~= start.push("# Environment variables"@));
        list_vars(&mut out, "# ", &vars);
        let ghost mid = views(out@);
        proof {
            reveal_strlit("");
            assert(""@ =~= Seq::<char>::empty());
        }
        out.push("".to_owned());
        assert(views(out@) =~= mid.push(Seq::<char>::empty()));
    }
    assert(views(out@) =~= start + env_lines(pv, env@, home@));
    let ghost all = files_lines(show, lv, pv, lv.len() as int, views(out@));
    let mut n: usize = layers.len();
    while n > 0
        invariant
            n <= layers@.len(),
            lv == views(layers@),
            pv == views(parts@),
            lv.len() == layers@.len(),
            all == files_lines(show, lv, pv, n as int, views(out@)),
            unmerged(lv, show, pv, env@, home@) == all,
        decreases n,
    {
        n -= 1;
        assert(lv[n as int] == layers@[n as int]@);
        let cli: bool = matches!(&layers[n].def, Def::Cli);
        if !cli {
            if let Err(e) = print_layer(&mut out, show, &layers[n], parts) {
                return Err(e);
            }
        }
    }
    Ok(out)
}

// ---------------------------------------------------------------------------
// The whole.

/// What is asked for.
pub struct GetOptions<'a> {
    pub key: Option<&'a str>,
    pub format: &'a str,
    pub show_origin: bool,
    pub merged: &'a str,
    pub unstable: &'a Vec<String>,
    pub cli_config: &'a Vec<String>,
}

pub struct GetView {
    pub key: Option<Seq<char>>,
    pub format: Seq<char>,
    pub show_origin: bool,
    pub merged: Seq<char>,
    pub unstable: Seq<Seq<char>>,
    pub cli_config: Seq<Seq<char>>,
}

impl<'a> View for GetOptions<'a> {
    type V = GetView;

    open spec fn view(&self) -> GetView {
        GetView {
            key: opt_text(self.key),
            format: self.format@,
            show_origin: self.show_origin,
            merged: self.merged@,
            unstable: views(self.unstable@),
            cli_config: views(self.cli_config@),
        }
    }
}

pub open spec fn key_text(o: Option<Seq<char>>) -> Seq<char> {
    match o {
        Some(k) => k,
        None => Seq::empty(),
    }
}

/// Why a request is refused, whatever the configuration is.
pub open spec fn refusal(o: GetView, nightly: bool) -> Option<GetFault> {
    if !nightly && o.unstable.len() > 0 {
        Some(GetFault::UnstableFlag)
    } else if !nightly {
        Some(GetFault::Stable)
    } else if !o.unstable.contains("unstable-options"@) {
        Some(GetFault::NotEnabled)
    } else if o.format != "toml"@ && o.format != "json"@ && o.format != "json-value"@ {
        Some(GetFault::Format(o.format))
    } else if o.merged != "yes"@ && o.merged != "no"@ {
        Some(GetFault::Merged(o.merged))
    } else if o.show_origin && o.format != "toml"@ {
        Some(GetFault::Origin(o.format))
    } else if o.key == Some(Seq::<char>::empty()) {
        Some(GetFault::NotSet(Seq::empty()))
    } else if o.merged == "no"@ && o.format != "toml"@ {
        Some(GetFault::Unmerged(o.format))
    } else {
        None
    }
}

fn check(o: &GetOptions<'_>, nightly: bool) -> (r: Result<(), GetError>)
    ensures
        match refusal(o@, nightly) {
            Some(e) => r matches Err(x) && x@ == e,
            None => r.is_ok(),
        },
{
    assert(views(o.unstable@).len() == o.unstable@.len());
    if !nightly && o.unstable.len() > 0 {
        return Err(GetError::UnstableFlag);
    }
    if !nightly {
        return Err(GetError::Stable);
    }
    if !any_is(o.unstable, "unstable-options") {
        return Err(GetError::NotEnabled);
    }
    let toml = same(o.format, "toml");
    if !toml && !same(o.format, "json") && !same(o.format, "json-value") {
        return Err(GetError::Format(o.format.to_owned()));
    }
    if !same(o.merged, "yes") && !same(o.merged, "no") {
        return Err(GetError::Merged(o.merged.to_owned()));
    }
    if o.show_origin && !toml {
        return Err(GetError::Origin(o.format.to_owned()));
    }
    if let Some(k) = o.key {
        if k.is_empty() {
            assert(k@ =~= Seq::<char>::empty());
            return Err(GetError::NotSet(k.to_owned()));
        }
    }
    if same(o.merged, "no") && !toml {
        return Err(GetError::Unmerged(o.format.to_owned()));
    }
    Ok(())
}

/// What is printed, on each of the two streams.
#[derive(Debug)]
pub struct Output {
    pub out: Vec<String>,
    pub err: Vec<String>,
}

pub struct OutputView {
    pub out: Seq<Seq<char>>,
    pub err: Seq<Seq<char>>,
}

impl View for Output {
    type V = OutputView;

    open spec fn view(&self) -> OutputView {
        OutputView { out: views(self.out@), err: views(self.err@) }
    }
}

/// The lines that show a value in a format.
pub open spec fn value_lines(o: GetView, parts: Seq<Seq<char>>, v: ValTree) -> Seq<Seq<char>> {
    if o.format == "toml"@ {
        val_lines(o.show_origin, parts, v)
    } else if o.format == "json"@ {
        seq![json_text(nested(parts, bare(v), 0))]
    } else {
        seq![json_text(bare(v))]
    }
}

/// What is printed of a value, with the variables that may change it.
pub open spec fn value_output(o: GetView, parts: Seq<Seq<char>>, v: ValTree, env: Vars, home: Seq<char>) -> OutputView {
    let l = table_vars(v, parts, env, home);
    let lines = value_lines(o, parts, v);
    if l.len() == 0 {
        OutputView { out: lines, err: Seq::empty() }
    } else if o.format == "toml"@ {
        OutputView {
            out: lines + seq!["# The following environment variables may affect the loaded values."@] + var_lines("# "@, l),
            err: Seq::empty(),
        }
    } else {
        OutputView {
            out: lines,
            err: seq!["note: The following environment variables may affect the loaded values."@] + var_lines(
                Seq::empty(),
                l,
            ),
        }
    }
}

/// The value under a key, with what the environment says of it.
pub open spec fn value_of(o: GetView, layers: Seq<LayerView>, parts: Seq<Seq<char>>, env: Vars) -> Result<ValTree, GetFault> {
    match found(layered(layers, layers.len() as int), parts, 0) {
        Err(e) => Err(e),
        Ok(Some(v)) => Ok(with_env(v, parts, env)),
        Ok(None) => match env_only(parts, env) {
            Some(v) => Ok(v),
            None => Err(GetFault::NotSet(key_text(o.key))),
        },
    }
}

/// What the command prints. The files that were found are given the nearest first.
pub open spec fn got(
    o: GetView,
    nightly: bool,
    files: Seq<LayerView>,
    cwd: Seq<char>,
    texts: Vars,
    env: Vars,
    home: Seq<char>,
) -> Result<OutputView, GetFault> {
    let parts = key_parts(key_text(o.key));
    match refusal(o, nightly) {
        Some(e) => Err(e),
        None => match cli_of(cwd, o.cli_config, texts) {
            Err(e) => Err(e),
            Ok(cli) => {
                let layers = files.reverse() + cli;
                if o.merged == "yes"@ {
                    match value_of(o, layers, parts, env) {
                        Err(e) => Err(e),
                        Ok(v) => Ok(value_output(o, parts, v, env, home)),
                    }
                } else {
                    match unmerged(layers, o.show_origin, parts, env, home) {
                        Err(e) => Err(e),
                        Ok(l) => Ok(OutputView { out: l, err: Seq::empty() }),
                    }
                }
            },
        },
    }
}

fn print_value(o: &GetOptions<'_>, parts: &Vec<String>, v: &Val, env: &StrMap<String>, home: &str) -> (r: Output)
    ensures
        r@ == value_output(o@, views(parts@), v@, env@, home@),
{
    let ghost pv = views(parts@);
    let mut out: Vec<String> = Vec::new();
    let mut err: Vec<String> = Vec::new();
    assert(views(out@) =~= Seq::<Seq<char>>::empty());
    assert(views(err@) =~= Seq::<Seq<char>>::empty());
    let toml = same(o.format, "toml");
    if toml {
        let mut key = crate::profile::dup_list(parts);
        print_toml(&mut out, o.show_origin, &mut key, v);
    } else {
        let j = to_json(parts, v, same(o.format, "json"));
        let line = write_json(&j);
        let ghost lv = line@;
        out.push(line);
        assert(views(out@) =~= seq![lv]);
    }
    let ghost lines = views(out@);
    assert(lines =~= value_lines(o@, pv, v@));
    let vars = maybe_env(v, parts, env, home);
    assert(pair_views(vars@).len() == vars@.len());
    if vars.len() > 0 {
        if toml {
            out.push("# The following environment variables may affect the loaded values.".to_owned());
            assert(views(out@) =~= lines.push("# The following environment variables may affect the loaded values."@));
            list_vars(&mut out, "# ", &vars);
            assert(views(out@) =~= value_output(o@, pv, v@, env@, home@).out);
        } else {
            err.push("note: The following environment variables may affect the loaded values.".to_owned());
            assert(views(err@) =~= seq!["note: The following environment variables may affect the loaded values."@]);
            proof {
                reveal_strlit("");
                assert(""@ =~= Seq::<char>::empty());
            }
            list_vars(&mut err, "", &vars);
            assert(views(err@) =~= value_output(o@, pv, v@, env@, home@).err);
        }
    }
    Output { out, err }
}

fn low_to_high(files: &Vec<Layer>, cli: Vec<Layer>) -> (r: Vec<Layer>)
    ensures
        views(r@) == views(files@).reverse() + views(cli@),
{
    let ghost fv = views(files@);
    let mut rest = cli;
    let ghost cv = views(rest@);
    let mut out: Vec<Layer> = Vec::new();
    let mut n: usize = files.len();
    while n > 0
        invariant
            n <= files@.len(),
            fv == views(files@),
            views(out@) =~= fv.reverse().take(files@.len() - n),
        decreases n,
    {
        n -= 1;
        assert(fv[n as int] == files@[n as int]@);
        let ghost was = out@;
        let one = files[n].dup();
        let ghost ov = one@;
        out.push(one);
        assert(views(out@) =~= views(was).push(ov));
    }
    assert(fv.reverse().take(files@.len() as int) =~= fv.reverse());
    let ghost near = out@;
    let ghost rs = rest@;
    out.append(&mut rest);
    assert(out@ =~= near + rs);
    assert(views(out@) =~= views(near) + views(rs));
    out
}

/// What the command prints. The files that were found are given the nearest first; `texts` are those that
/// arguments may name.
pub fn config_get(
    o: &GetOptions<'_>,
    nightly: bool,
    files: &Vec<Layer>,
    cwd: &str,
    texts: &StrMap<String>,
    env: &StrMap<String>,
    home: &str,
) -> (r: Result<Output, GetError>)
    ensures
        match got(o@, nightly, views(files@), cwd@, texts@, env@, home@) {
            Ok(x) => r matches Ok(y) && y@ == x,
            Err(e) => r matches Err(x) && x@ == e,
        },
{
    if let Err(e) = check(o, nightly) {
        return Err(e);
    }
    let key = match o.key {
        Some(k) => k,
        None => {
            proof {
                reveal_strlit("");
                assert(""@ =~= Seq::<char>::empty());
            }
            ""
        },
    };
    let parts = dotted_parts(key);
    let cli = match cli_layers(cwd, o.cli_config, texts) {
        Ok(l) => l,
        Err(e) => {
            return Err(e);
        },
    };
    let layers = low_to_high(files, cli);
    assert(views(layers@).len() == layers@.len());
    if same(o.merged, "yes") {
        let root = merge_all(&layers);
        let v = match lookup(&root, &parts) {
            Err(e) => {
                return Err(e);
            },
            Ok(Some(v)) => apply_env(v.dup(), &parts, env),
            Ok(None) => match env_leaf(&parts, env) {
                Some(v) => v,
                None => {
                    return Err(GetError::NotSet(key.to_owned()));
                },
            },
        };
        Ok(print_value(o, &parts, &v, env, home))
    } else {
        match print_unmerged(&layers, o.show_origin, &parts, env, home) {
            Err(e) => Err(e),
            Ok(out) => {
                let err: Vec<String> = Vec::new();
                assert(views(err@) =~= Seq::<Seq<char>>::empty());
                Ok(Output { out, err })
            },
        }
    }
}

} // verus!
