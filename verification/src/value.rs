//! TOML documents as plain values. A table lists its entries; a key stands for its first entry.

use vstd::prelude::*;
use toml::Table;
use toml::Value::Array;
use toml::Value::Boolean;
use toml::Value::Datetime;
use toml::Value::Float;
use toml::Value::Integer;
use toml::Value::String as Text;
use toml::Value::Table as Group;
use crate::config_get::quote_toml;
use crate::config_get::toml_quoted;
use crate::json::Json;
use crate::json::JsonTree;
use crate::json::json_text;
use crate::num::i64_text;
use crate::num::int_text;
use crate::text::cat;
use crate::text::cat3;
use crate::text::chars_of;
use crate::text::digit;
use crate::text::is_digit;
use crate::text::same;
use crate::text::views;
use crate::value::Toml::Array as List;
use crate::value::Toml::Bool;
use crate::value::Toml::Date;
use crate::value::Toml::Int;
use crate::value::Toml::Str;
use crate::value::Toml::Table as Entries;

verus! {

#[derive(Debug)]
pub enum Toml {
    Str(String),
    Int(i64),
    /// A float, as it is written.
    Float(String),
    Bool(bool),
    /// A date or a time, as it is written.
    Date(String),
    Array(Vec<Toml>),
    Table(Vec<(String, Toml)>),
}

/// The model of a value.
pub enum TomlTree {
    Str(Seq<char>),
    Int(i64),
    Float(Seq<char>),
    Bool(bool),
    Date(Seq<char>),
    Array(Seq<TomlTree>),
    Table(Seq<(Seq<char>, TomlTree)>),
}

pub open spec fn toml_tree(t: Toml) -> TomlTree
    decreases t,
{
    match t {
        Toml::Str(s) => TomlTree::Str(s@),
        Toml::Int(n) => TomlTree::Int(n),
        Toml::Float(s) => TomlTree::Float(s@),
        Toml::Bool(b) => TomlTree::Bool(b),
        Toml::Date(s) => TomlTree::Date(s@),
        Toml::Array(l) => TomlTree::Array(toml_trees(l@)),
        Toml::Table(l) => TomlTree::Table(toml_entries(l@)),
    }
}

pub open spec fn toml_trees(l: Seq<Toml>) -> Seq<TomlTree>
    decreases l,
{
    Seq::new(
        l.len(),
        |i: int|
            if 0 <= i < l.len() {
                toml_tree(l[i])
            } else {
                TomlTree::Bool(false)
            },
    )
}

pub open spec fn toml_entries(l: Seq<(String, Toml)>) -> Seq<(Seq<char>, TomlTree)>
    decreases l,
{
    Seq::new(
        l.len(),
        |i: int|
            if 0 <= i < l.len() {
                (l[i].0@, toml_tree(l[i].1))
            } else {
                (Seq::empty(), TomlTree::Bool(false))
            },
    )
}

impl View for Toml {
    type V = TomlTree;

    open spec fn view(&self) -> TomlTree {
        toml_tree(*self)
    }
}

/// The place of the first entry under `key` from `i` on, or the length.
pub open spec fn entry_at<V>(t: Seq<(Seq<char>, V)>, key: Seq<char>, i: int) -> int
    decreases t.len() - i,
{
    if i >= t.len() {
        t.len() as int
    } else if t[i].0 == key {
        i
    } else {
        entry_at(t, key, i + 1)
    }
}

/// What stands under `key`.
#[verifier::opaque]
pub open spec fn at<V>(t: Seq<(Seq<char>, V)>, key: Seq<char>) -> Option<V> {
    let i = entry_at(t, key, 0);
    if i < t.len() {
        Some(t[i].1)
    } else {
        None
    }
}

/// What stands under `key`, where the value is a table.
pub open spec fn field(t: TomlTree, key: Seq<char>) -> Option<TomlTree> {
    match t {
        TomlTree::Table(l) => at(l, key),
        _ => None,
    }
}

pub open spec fn text_of(t: Option<TomlTree>) -> Option<Seq<char>> {
    match t {
        Some(TomlTree::Str(s)) => Some(s),
        _ => None,
    }
}

pub open spec fn flag_of(t: Option<TomlTree>) -> Option<bool> {
    match t {
        Some(TomlTree::Bool(b)) => Some(b),
        _ => None,
    }
}

/// The document that `toml` writes on several lines of what a document stands for, or what is wrong with it.
pub uninterp spec fn toml_pretty(text: Seq<char>) -> Result<Seq<char>, Seq<char>>;

pub open spec fn written(r: Result<String, String>) -> Result<Seq<char>, Seq<char>> {
    match r {
        Ok(t) => Ok(t@),
        Err(e) => Err(e@),
    }
}

/// `toml::to_string_pretty` on the table that `toml::Table`'s `FromStr` reads: a function of the document alone, named
/// `toml_pretty`.
#[verifier::external_body]
pub(crate) fn rewrite(text: &str) -> (r: Result<String, String>)
    ensures
        written(r) == toml_pretty(text@),
{
    let table = text.parse::<Table>().map_err(|e| e.to_string())?;
    toml::to_string_pretty(&table).map_err(|e| e.to_string())
}

/// A float in a document. One without a fraction would be read as an integer.
pub open spec fn float_text(s: Seq<char>) -> Seq<char> {
    if s == "NaN"@ {
        "nan"@
    } else if forall|i: int| 0 <= i < s.len() ==> digit(#[trigger] s[i]) || s[i] == '-' {
        s + ".0"@
    } else {
        s
    }
}

/// A key in a document: between quotes, and with the escapes that JSON has too.
pub open spec fn key_text(k: Seq<char>) -> Seq<char> {
    json_text(JsonTree::Str(k))
}

/// A value on one line.
pub open spec fn inline(t: TomlTree) -> Seq<char>
    decreases t, 0int,
{
    match t {
        TomlTree::Str(s) => toml_quoted(s),
        TomlTree::Int(n) => int_text(n as int),
        TomlTree::Float(s) => float_text(s),
        TomlTree::Bool(b) => if b {
            "true"@
        } else {
            "false"@
        },
        TomlTree::Date(s) => s,
        TomlTree::Array(l) => "["@ + inline_items(l, l.len() as int) + "]"@,
        TomlTree::Table(l) => "{"@ + inline_entries(l, l.len() as int) + "}"@,
    }
}

/// The first `n` items, with a comma between them.
pub open spec fn inline_items(l: Seq<TomlTree>, n: int) -> Seq<char>
    decreases l, n,
{
    if n <= 0 || n > l.len() {
        Seq::empty()
    } else if n == 1 {
        inline(l[0])
    } else {
        inline_items(l, n - 1) + ","@ + inline(l[n - 1])
    }
}

pub open spec fn inline_entries(l: Seq<(Seq<char>, TomlTree)>, n: int) -> Seq<char>
    decreases l, n,
{
    if n <= 0 || n > l.len() {
        Seq::empty()
    } else if n == 1 {
        key_text(l[0].0) + "="@ + inline(l[0].1)
    } else {
        inline_entries(l, n - 1) + ","@ + (key_text(l[n - 1].0) + "="@ + inline(l[n - 1].1))
    }
}

/// The document with the first `n` entries, each on a line.
pub open spec fn document_upto(l: Seq<(Seq<char>, TomlTree)>, n: int) -> Seq<char>
    decreases n,
{
    if n <= 0 || n > l.len() {
        Seq::empty()
    } else {
        document_upto(l, n - 1) + (key_text(l[n - 1].0) + "="@ + inline(l[n - 1].1)) + "\n"@
    }
}

pub open spec fn document_text(l: Seq<(Seq<char>, TomlTree)>) -> Seq<char> {
    document_upto(l, l.len() as int)
}

fn write_float(s: &str) -> (r: String)
    ensures
        r@ == float_text(s@),
{
    if same(s, "NaN") {
        return "nan".to_owned();
    }
    let cs = chars_of(s);
    let mut k: usize = 0;
    while k < cs.len()
        invariant
            k <= cs@.len(),
            cs@ == s@,
            s@ != "NaN"@,
            forall|i: int| 0 <= i < k ==> digit(#[trigger] s@[i]) || s@[i] == '-',
        decreases cs@.len() - k,
    {
        if !is_digit(cs[k]) && cs[k] != '-' {
            assert(!(digit(s@[k as int]) || s@[k as int] == '-'));
            return s.to_owned();
        }
        k += 1;
    }
    cat(s, ".0")
}

fn write_key(k: &str) -> (r: String)
    ensures
        r@ == key_text(k@),
{
    Json::Str(k.to_owned()).text()
}

impl Toml {
    /// The value on one line.
    #[verifier::loop_isolation(false)]
    fn inline_text(&self) -> (r: String)
        ensures
            r@ == inline(self@),
        decreases *self,
    {
        match self {
            Toml::Str(s) => quote_toml(s.as_str()),
            Toml::Int(n) => i64_text(*n),
            Toml::Float(s) => write_float(s.as_str()),
            Toml::Bool(b) => if *b {
                "true".to_owned()
            } else {
                "false".to_owned()
            },
            Toml::Date(s) => s.clone(),
            Toml::Array(l) => {
                let ghost all = toml_trees(l@);
                assert(self@ == TomlTree::Array(all));
                let mut out = String::new();
                let mut i: usize = 0;
                while i < l.len()
                    invariant
                        *self == Toml::Array(*l),
                        i <= l@.len(),
                        all == toml_trees(l@),
                        out@ == inline_items(all, i as int),
                    decreases l@.len() - i,
                {
                    assert(decreases_to!(*self => l@[i as int]));
                    assert(all[i as int] == l@[i as int]@);
                    if i > 0 {
                        out.append(",");
                    }
                    out.append(l[i].inline_text().as_str());
                    assert(i == 0 ==> Seq::<char>::empty() + inline(all[0]) =~= inline(all[0]));
                    i += 1;
                }
                cat3("[", out.as_str(), "]")
            },
            Toml::Table(l) => {
                let ghost all = toml_entries(l@);
                assert(self@ == TomlTree::Table(all));
                let mut out = String::new();
                let mut i: usize = 0;
                while i < l.len()
                    invariant
                        *self == Toml::Table(*l),
                        i <= l@.len(),
                        all == toml_entries(l@),
                        out@ == inline_entries(all, i as int),
                    decreases l@.len() - i,
                {
                    assert(decreases_to!(*self => l@));
                    assert(decreases_to!(*self => l@[i as int]));
                    assert(decreases_to!(*self => l@[i as int].1));
                    assert(all[i as int] == (l@[i as int].0@, l@[i as int].1@));
                    if i > 0 {
                        out.append(",");
                    }
                    let e = cat3(write_key(l[i].0.as_str()).as_str(), "=", l[i].1.inline_text().as_str());
                    out.append(e.as_str());
                    assert(i == 0 ==> Seq::<char>::empty() + e@ =~= e@);
                    i += 1;
                }
                cat3("{", out.as_str(), "}")
            },
        }
    }
}

/// The document of a table, on several lines.
pub(crate) fn write_table(t: &Vec<(String, Toml)>) -> (r: Result<String, String>)
    ensures
        written(r) == toml_pretty(document_text(toml_entries(t@))),
{
    let ghost all = toml_entries(t@);
    let mut out = String::new();
    let mut i: usize = 0;
    while i < t.len()
        invariant
            i <= t@.len(),
            all == toml_entries(t@),
            out@ == document_upto(all, i as int),
        decreases t@.len() - i,
    {
        assert(all[i as int] == (t@[i as int].0@, t@[i as int].1@));
        let e = cat3(write_key(t[i].0.as_str()).as_str(), "=", t[i].1.inline_text().as_str());
        out.append(e.as_str());
        out.append("\n");
        i += 1;
    }
    rewrite(out.as_str())
}

/// The strings of an array; what is no string is left out.
pub open spec fn strings_upto(l: Seq<TomlTree>, n: int) -> Seq<Seq<char>>
    decreases n,
{
    if n <= 0 {
        Seq::empty()
    } else {
        match l[n - 1] {
            TomlTree::Str(s) => strings_upto(l, n - 1).push(s),
            _ => strings_upto(l, n - 1),
        }
    }
}

pub open spec fn strings_of(t: Option<TomlTree>) -> Option<Seq<Seq<char>>> {
    match t {
        Some(TomlTree::Array(l)) => Some(strings_upto(l, l.len() as int)),
        _ => None,
    }
}

/// What stands under `key` in a table.
pub fn get<'a>(t: &'a Vec<(String, Toml)>, key: &str) -> (r: Option<&'a Toml>)
    ensures
        match r {
            Some(v) => at(toml_entries(t@), key@) == Some(v@),
            None => at(toml_entries(t@), key@) == None::<TomlTree>,
        },
{
    reveal(at);
    let mut i: usize = 0;
    while i < t.len()
        invariant
            i <= t@.len(),
            entry_at(toml_entries(t@), key@, 0) == entry_at(toml_entries(t@), key@, i as int),
        decreases t@.len() - i,
    {
        reveal(at);
        assert(toml_entries(t@)[i as int] == (t@[i as int].0@, toml_tree(t@[i as int].1)));
        if same(t[i].0.as_str(), key) {
            return Some(&t[i].1);
        }
        i += 1;
    }
    None
}

impl Toml {
    pub fn get(&self, key: &str) -> (r: Option<&Toml>)
        ensures
            match r {
                Some(v) => field(self@, key@) == Some(v@),
                None => field(self@, key@) == None::<TomlTree>,
            },
    {
        match self {
            Toml::Table(t) => get(t, key),
            _ => None,
        }
    }

    pub fn as_str(&self) -> (r: Option<&str>)
        ensures
            match r {
                Some(s) => self@ == TomlTree::Str(s@),
                None => !(self@ is Str),
            },
    {
        match self {
            Toml::Str(s) => Some(s.as_str()),
            _ => None,
        }
    }

    pub fn as_bool(&self) -> (r: Option<bool>)
        ensures
            match r {
                Some(b) => self@ == TomlTree::Bool(b),
                None => !(self@ is Bool),
            },
    {
        match self {
            Toml::Bool(b) => Some(*b),
            _ => None,
        }
    }

    pub fn as_array(&self) -> (r: Option<&Vec<Toml>>)
        ensures
            match r {
                Some(l) => self@ == TomlTree::Array(toml_trees(l@)),
                None => !(self@ is Array),
            },
    {
        match self {
            Toml::Array(l) => Some(l),
            _ => None,
        }
    }
}

/// The table that a TOML document stands for, its keys in ascending order, or what is wrong with it.
pub uninterp spec fn toml_of(text: Seq<char>) -> Result<Seq<(Seq<char>, TomlTree)>, Seq<char>>;

pub open spec fn document(r: Result<Vec<(String, Toml)>, String>) -> Result<Seq<(Seq<char>, TomlTree)>, Seq<char>> {
    match r {
        Ok(t) => Ok(toml_entries(t@)),
        Err(e) => Err(e@),
    }
}

/// `toml::Table`'s `FromStr`: the entries of a document in the order of the table, value by value, or the
/// text of the error. It depends on the document alone; which documents are well-formed is left to
/// `toml_of`. Values inside a value are read back from the text that `toml` prints of them, of an item of an array
/// in a table of its own; where such a text lies too deep to be read, its error is that of the document.
#[verifier::external_body]
pub(crate) fn read_table(text: &str) -> (r: Result<Vec<(String, Toml)>, String>)
    ensures
        document(r) == toml_of(text@),
{
    text.parse::<Table>().map_err(|e| e.to_string())?.into_iter().map(|(k, v)| Ok((k, match v {
        Text(s) => Str(s),
        Integer(n) => Int(n),
        Float(f) => Toml::Float(f.to_string()),
        Boolean(b) => Bool(b),
        Array(l) => List(l.into_iter().map(|v| Ok(read_table(&Table::from_iter([("x".into(), v)]).to_string())?.remove(0).1)).collect::<Result<_, String>>()?),
        Group(t) => Entries(read_table(&t.to_string())?),
        Datetime(d) => Date(d.to_string()),
    }))).collect()
}

/// The table that a TOML document stands for.
pub fn parse_document(text: &str) -> (r: Result<Vec<(String, Toml)>, String>)
    ensures
        document(r) == toml_of(text@),
{
    read_table(text)
}

/// The strings of an array; what is no string is left out.
pub fn strings(l: &Vec<Toml>) -> (r: Vec<String>)
    ensures
        views(r@) == strings_upto(toml_trees(l@), l@.len() as int),
{
    let ghost trees = toml_trees(l@);
    let mut r: Vec<String> = Vec::new();
    let mut k: usize = 0;
    assert(views(r@) =~= Seq::<Seq<char>>::empty());
    while k < l.len()
        invariant
            k <= l@.len(),
            trees == toml_trees(l@),
            views(r@) == strings_upto(trees, k as int),
        decreases l@.len() - k,
    {
        assert(trees[k as int] == l@[k as int]@);
        if let Toml::Str(s) = &l[k] {
            let ghost was = r@;
            r.push(s.clone());
            assert(views(r@) =~= views(was).push(s@));
        }
        k += 1;
    }
    r
}

impl Toml {
    /// The same value once more.
    #[verifier::loop_isolation(false)]
    pub fn dup(&self) -> (r: Toml)
        ensures
            r@ == self@,
        decreases *self,
    {
        match self {
            Toml::Str(s) => Toml::Str(s.clone()),
            Toml::Int(n) => Toml::Int(*n),
            Toml::Float(s) => Toml::Float(s.clone()),
            Toml::Bool(b) => Toml::Bool(*b),
            Toml::Date(s) => Toml::Date(s.clone()),
            Toml::Array(l) => {
                let mut out: Vec<Toml> = Vec::new();
                let mut i: usize = 0;
                while i < l.len()
                    invariant
                        *self == Toml::Array(*l),
                        i <= l@.len(),
                        out@.len() == i,
                        forall|j: int| 0 <= j < i ==> toml_tree(#[trigger] out@[j]) == toml_tree(l@[j]),
                    decreases l@.len() - i,
                {
                    assert(decreases_to!(*self => l@[i as int]));
                    out.push(l[i].dup());
                    i += 1;
                }
                assert(toml_trees(out@) =~= toml_trees(l@));
                Toml::Array(out)
            },
            Toml::Table(l) => {
                let mut out: Vec<(String, Toml)> = Vec::new();
                let mut i: usize = 0;
                while i < l.len()
                    invariant
                        *self == Toml::Table(*l),
                        i <= l@.len(),
                        out@.len() == i,
                        forall|j: int| 0 <= j < i ==> (#[trigger] out@[j]).0@ == l@[j].0@,
                        forall|j: int| 0 <= j < i ==> toml_tree((#[trigger] out@[j]).1) == toml_tree(l@[j].1),
                    decreases l@.len() - i,
                {
                    assert(decreases_to!(*self => l@));
                    assert(decreases_to!(*self => l@[i as int]));
                    assert(decreases_to!(*self => l@[i as int].1));
                    out.push((l[i].0.clone(), l[i].1.dup()));
                    i += 1;
                }
                assert(toml_entries(out@) =~= toml_entries(l@));
                Toml::Table(out)
            },
        }
    }
}

/// The same table once more.
pub fn dup_table(l: &Vec<(String, Toml)>) -> (r: Vec<(String, Toml)>)
    ensures
        toml_entries(r@) == toml_entries(l@),
{
    let mut out: Vec<(String, Toml)> = Vec::new();
    let mut i: usize = 0;
    while i < l.len()
        invariant
            i <= l@.len(),
            out@.len() == i,
            forall|j: int| 0 <= j < i ==> (#[trigger] out@[j]).0@ == l@[j].0@,
            forall|j: int| 0 <= j < i ==> toml_tree((#[trigger] out@[j]).1) == toml_tree(l@[j].1),
        decreases l@.len() - i,
    {
        out.push((l[i].0.clone(), l[i].1.dup()));
        i += 1;
    }
    assert(toml_entries(out@) =~= toml_entries(l@));
    out
}

} // verus!
