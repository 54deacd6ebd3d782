//! JSON documents as plain values.

use vstd::prelude::*;
use serde_json::Value;
use crate::manifest::FeatureMap;
use crate::manifest::feature_lists;
use crate::num::dec;
use crate::num::parse_u64;
use crate::num::u64_of;
use crate::order::before;
use crate::strmap::StrMap;
use crate::text::same;
use crate::text::views;
use crate::value::at;

verus! {

#[derive(Debug)]
pub enum Json {
    Null,
    Bool(bool),
    /// A number, as it is written.
    Number(String),
    Str(String),
    Array(Vec<Json>),
    Object(Vec<(String, Json)>),
}

/// The model of a value.
pub enum JsonTree {
    Null,
    Bool(bool),
    Number(Seq<char>),
    Str(Seq<char>),
    Array(Seq<JsonTree>),
    Object(Seq<(Seq<char>, JsonTree)>),
}

pub open spec fn json_tree(j: Json) -> JsonTree
    decreases j,
{
    match j {
        Json::Null => JsonTree::Null,
        Json::Bool(b) => JsonTree::Bool(b),
        Json::Number(s) => JsonTree::Number(s@),
        Json::Str(s) => JsonTree::Str(s@),
        Json::Array(l) => JsonTree::Array(json_trees(l@)),
        Json::Object(l) => JsonTree::Object(json_entries(l@)),
    }
}

pub open spec fn json_trees(l: Seq<Json>) -> Seq<JsonTree>
    decreases l,
{
    Seq::new(
        l.len(),
        |i: int|
            if 0 <= i < l.len() {
                json_tree(l[i])
            } else {
                JsonTree::Null
            },
    )
}

pub open spec fn json_entries(l: Seq<(String, Json)>) -> Seq<(Seq<char>, JsonTree)>
    decreases l,
{
    Seq::new(
        l.len(),
        |i: int|
            if 0 <= i < l.len() {
                (l[i].0@, json_tree(l[i].1))
            } else {
                (Seq::empty(), JsonTree::Null)
            },
    )
}

impl View for Json {
    type V = JsonTree;

    open spec fn view(&self) -> JsonTree {
        json_tree(*self)
    }
}

/// What stands under a key of an object.
pub open spec fn member(j: JsonTree, key: Seq<char>) -> Option<JsonTree> {
    match j {
        JsonTree::Object(l) => at(l, key),
        _ => None,
    }
}

pub open spec fn text_in(j: Option<JsonTree>) -> Option<Seq<char>> {
    match j {
        Some(JsonTree::Str(s)) => Some(s),
        _ => None,
    }
}

/// The value that a JSON text stands for, the keys of objects in ascending order; nothing where the text
/// is malformed.
pub uninterp spec fn json_of(text: Seq<char>) -> Option<JsonTree>;

/// `serde_json::from_str` into a `serde_json::Value`: the value of a text, piece by piece. It depends on
/// the text alone; which texts are well-formed is left to `json_of`. Values inside a value are read back
/// from the text that `serde_json::Value` prints of them.
#[verifier::external_body]
pub(crate) fn read_json(text: &str) -> (r: Option<Json>)
    ensures
        crate::text::opt_view(r) == json_of(text@),
{
    let inner = |v: &Value| read_json(&v.to_string()).unwrap_or(Json::Null);
    Some(match serde_json::from_str::<Value>(text).ok()? {
        Value::Null => Json::Null,
        Value::Bool(b) => Json::Bool(b),
        Value::Number(n) => Json::Number(n.to_string()),
        Value::String(s) => Json::Str(s),
        Value::Array(l) => Json::Array(l.iter().map(inner).collect()),
        Value::Object(m) => Json::Object(m.iter().map(|(k, v)| (k.clone(), inner(v))).collect()),
    })
}

impl Json {
    pub fn get(&self, key: &str) -> (r: Option<&Json>)
        ensures
            match r {
                Some(v) => member(self@, key@) == Some(v@),
                None => member(self@, key@).is_none(),
            },
    {
        match self {
            Json::Object(l) => {
                reveal(crate::value::at);
                let ghost all = json_entries(l@);
                assert(self@ == JsonTree::Object(all));
                let mut k: usize = 0;
                while k < l.len()
                    invariant
                        k <= l@.len(),
                        all == json_entries(l@),
                        self@ == JsonTree::Object(all),
                        crate::value::entry_at(all, key@, 0) == crate::value::entry_at(all, key@, k as int),
                    decreases l@.len() - k,
                {
                    reveal(crate::value::at);
                    assert(all[k as int] == (l@[k as int].0@, l@[k as int].1@));
                    if same(l[k].0.as_str(), key) {
                        return Some(&l[k].1);
                    }
                    k += 1;
                }
                None
            },
            _ => None,
        }
    }

    pub fn as_str(&self) -> (r: Option<&str>)
        ensures
            crate::invocation::opt_text(r) == text_in(Some(self@)),
    {
        match self {
            Json::Str(s) => Some(s.as_str()),
            _ => None,
        }
    }

    pub fn as_array(&self) -> (r: Option<&Vec<Json>>)
        ensures
            match r {
                Some(l) => self@ == JsonTree::Array(json_trees(l@)),
                None => !(self@ is Array),
            },
    {
        match self {
            Json::Array(l) => Some(l),
            _ => None,
        }
    }
}

/// The number under a key, where it fits in 64 bits.
pub open spec fn number_in(j: Option<JsonTree>) -> Option<u64> {
    match j {
        Some(JsonTree::Number(s)) => match u64_of(s) {
            Some(n) => Some(n as u64),
            None => None,
        },
        _ => None,
    }
}

pub fn number_at(j: &Json, key: &str) -> (r: Option<u64>)
    ensures
        r == number_in(member(j@, key@)),
{
    match j.get(key) {
        Some(Json::Number(s)) => parse_u64(s.as_str()),
        _ => None,
    }
}

/// The text under a key.
pub fn text_at<'a>(j: &'a Json, key: &str) -> (r: Option<&'a str>)
    ensures
        crate::invocation::opt_text(r) == text_in(member(j@, key@)),
{
    match j.get(key) {
        Some(v) => v.as_str(),
        None => None,
    }
}

// ---------------------------------------------------------------------------
// The fields of a record: nothing comes back where a field has another shape.

pub open spec fn tree_of(o: Option<&Json>) -> Option<JsonTree> {
    match o {
        Some(j) => Some(j@),
        None => None,
    }
}

/// A text that may be absent or null.
pub open spec fn maybe_text(o: Option<JsonTree>) -> Option<Option<Seq<char>>> {
    match o {
        None => Some(None),
        Some(JsonTree::Null) => Some(None),
        Some(JsonTree::Str(s)) => Some(Some(s)),
        _ => None,
    }
}

pub(crate) fn read_maybe(o: Option<&Json>) -> (r: Option<Option<String>>)
    ensures
        crate::profile::read_view(r) == maybe_text(tree_of(o)),
{
    match o {
        None => Some(None),
        Some(Json::Null) => Some(None),
        Some(Json::Str(s)) => Some(Some(s.clone())),
        _ => None,
    }
}

/// A flag that may be absent.
pub open spec fn maybe_flag(o: Option<JsonTree>, default: bool) -> Option<bool> {
    match o {
        None => Some(default),
        Some(JsonTree::Bool(b)) => Some(b),
        _ => None,
    }
}

pub(crate) fn read_flag(o: Option<&Json>, default: bool) -> (r: Option<bool>)
    ensures
        r == maybe_flag(tree_of(o), default),
{
    match o {
        None => Some(default),
        Some(Json::Bool(b)) => Some(*b),
        _ => None,
    }
}

/// The first `n` values, where each is a text.
pub open spec fn texts_upto(l: Seq<JsonTree>, n: int) -> Option<Seq<Seq<char>>>
    decreases n,
{
    if n <= 0 || n > l.len() {
        Some(Seq::empty())
    } else {
        match (texts_upto(l, n - 1), l[n - 1]) {
            (Some(t), JsonTree::Str(s)) => Some(t.push(s)),
            _ => None,
        }
    }
}

pub open spec fn list_of(j: JsonTree) -> Option<Seq<Seq<char>>> {
    match j {
        JsonTree::Array(l) => texts_upto(l, l.len() as int),
        _ => None,
    }
}

proof fn lemma_texts_none(l: Seq<JsonTree>, a: int, b: int)
    requires
        0 <= a <= b <= l.len(),
        texts_upto(l, a).is_none(),
    ensures
        texts_upto(l, b).is_none(),
    decreases b - a,
{
    if a < b {
        lemma_texts_none(l, a, b - 1);
    }
}

pub open spec fn views_opt(o: Option<Vec<String>>) -> Option<Seq<Seq<char>>> {
    match o {
        Some(v) => Some(views(v@)),
        None => None,
    }
}

pub(crate) fn read_texts(j: &Json) -> (r: Option<Vec<String>>)
    ensures
        views_opt(r) == list_of(j@),
{
    match j {
        Json::Array(l) => {
            let ghost all = json_trees(l@);
            assert(j@ == JsonTree::Array(all));
            let mut out: Vec<String> = Vec::new();
            let mut k: usize = 0;
            assert(views(out@) =~= Seq::<Seq<char>>::empty());
            while k < l.len()
                invariant
                    k <= l@.len(),
                    all == json_trees(l@),
                    j@ == JsonTree::Array(all),
                    texts_upto(all, k as int) == Some(views(out@)),
                decreases l@.len() - k,
            {
                assert(all[k as int] == l@[k as int]@);
                let ghost was = out@;
                match &l[k] {
                    Json::Str(s) => {
                        out.push(s.clone());
                        assert(views(out@) =~= views(was).push(s@));
                    },
                    _ => {
                        proof {
                            lemma_texts_none(all, k + 1, all.len() as int);
                        }
                        return None;
                    },
                }
                k += 1;
            }
            Some(out)
        },
        _ => None,
    }
}

/// A list of texts that may be absent.
pub open spec fn maybe_list(o: Option<JsonTree>) -> Option<Seq<Seq<char>>> {
    match o {
        None => Some(Seq::empty()),
        Some(j) => list_of(j),
    }
}

pub(crate) fn read_list(o: Option<&Json>) -> (r: Option<Vec<String>>)
    ensures
        views_opt(r) == maybe_list(tree_of(o)),
{
    match o {
        None => {
            let v: Vec<String> = Vec::new();
            assert(views(v@) =~= Seq::<Seq<char>>::empty());
            Some(v)
        },
        Some(j) => read_texts(j),
    }
}

/// The first `n` members, where each is a list of texts. A later member counts before an earlier one.
pub open spec fn lists_upto(l: Seq<(Seq<char>, JsonTree)>, n: int) -> Option<FeatureMap>
    decreases n,
{
    if n <= 0 || n > l.len() {
        Some(Map::empty())
    } else {
        match (lists_upto(l, n - 1), list_of(l[n - 1].1)) {
            (Some(m), Some(t)) => Some(m.insert(l[n - 1].0, t)),
            _ => None,
        }
    }
}

proof fn lemma_lists_none(l: Seq<(Seq<char>, JsonTree)>, a: int, b: int)
    requires
        0 <= a <= b <= l.len(),
        lists_upto(l, a).is_none(),
    ensures
        lists_upto(l, b).is_none(),
    decreases b - a,
{
    if a < b {
        lemma_lists_none(l, a, b - 1);
    }
}

/// A record of lists that may be absent.
pub open spec fn maybe_lists(o: Option<JsonTree>) -> Option<FeatureMap> {
    match o {
        None => Some(Map::empty()),
        Some(JsonTree::Object(l)) => lists_upto(l, l.len() as int),
        _ => None,
    }
}

pub(crate) fn read_lists(o: Option<&Json>) -> (r: Option<StrMap<Vec<String>>>)
    ensures
        match r {
            Some(m) => maybe_lists(tree_of(o)) == Some(feature_lists(m@)),
            None => maybe_lists(tree_of(o)).is_none(),
        },
{
    let mut out: StrMap<Vec<String>> = StrMap::new();
    assert(feature_lists(out@) =~= Map::<Seq<char>, Seq<Seq<char>>>::empty());
    match o {
        None => Some(out),
        Some(Json::Object(l)) => {
            let ghost all = json_entries(l@);
            assert(tree_of(o) == Some(JsonTree::Object(all)));
            let mut k: usize = 0;
            while k < l.len()
                invariant
                    k <= l@.len(),
                    all == json_entries(l@),
                    tree_of(o) == Some(JsonTree::Object(all)),
                    lists_upto(all, k as int) == Some(feature_lists(out@)),
                decreases l@.len() - k,
            {
                assert(all[k as int] == (l@[k as int].0@, l@[k as int].1@));
                let ghost was = out@;
                match read_texts(&l[k].1) {
                    Some(v) => {
                        out.insert(l[k].0.as_str(), v);
                        assert(feature_lists(out@) =~= feature_lists(was).insert(l@[k as int].0@, views(v@)));
                    },
                    None => {
                        proof {
                            lemma_lists_none(all, k + 1, all.len() as int);
                        }
                        return None;
                    },
                }
                k += 1;
            }
            Some(out)
        },
        _ => None,
    }
}

/// The text that `serde_json` writes of a value, without blanks.
pub uninterp spec fn json_text(j: JsonTree) -> Seq<char>;

/// The keys of the entries ascend.
pub open spec fn keys_ascend(l: Seq<(Seq<char>, JsonTree)>) -> bool {
    forall|i: int, k: int| 0 <= i < k < l.len() ==> before((#[trigger] l[i]).0, (#[trigger] l[k]).0)
}

/// The keys of objects ascend, numbers are those that 64 bits hold, in decimal, and at most `d` arrays and objects lie
/// within each other.
pub open spec fn plain(j: JsonTree, d: nat) -> bool
    decreases d,
{
    match j {
        JsonTree::Null => true,
        JsonTree::Bool(_) => true,
        JsonTree::Str(_) => true,
        JsonTree::Number(s) => exists|n: u64| s == #[trigger] dec(n as nat),
        JsonTree::Array(l) => d > 0 && forall|i: int| 0 <= i < l.len() ==> plain(#[trigger] l[i], (d - 1) as nat),
        JsonTree::Object(l) => d > 0 && keys_ascend(l) && forall|i: int|
            0 <= i < l.len() ==> plain((#[trigger] l[i]).1, (d - 1) as nat),
    }
}

/// `serde_json::to_string` on a value: a function of the value alone, named `json_text`. A value inside
/// another is written on its own and read back first; a number is read from its digits. The text of a plain
/// value of moderate depth is read back as that value.
#[verifier::external_body]
pub(crate) fn write_json(j: &Json) -> (r: String)
    ensures
        r@ == json_text(j@),
        plain(j@, 100) ==> json_of(r@) == Some(j@),
{
    let read = |s: &str| serde_json::from_str::<Value>(s).unwrap_or(Value::Null);
    let inner = |v: &Json| read(&write_json(v));
    let value = match j {
        Json::Null => Value::Null,
        Json::Bool(b) => Value::Bool(*b),
        Json::Number(s) => read(s),
        Json::Str(s) => Value::String(s.clone()),
        Json::Array(l) => Value::Array(l.iter().map(inner).collect()),
        Json::Object(l) => Value::Object(l.iter().map(|(k, v)| (k.clone(), inner(v))).collect()),
    };
    serde_json::to_string(&value).unwrap_or_default()
}

/// The text that `serde_json` writes of a value on several lines.
pub uninterp spec fn json_pretty(j: JsonTree) -> Seq<char>;

/// `serde_json::to_string_pretty` on a value: a function of the value alone, named `json_pretty`. The value is read from
/// the text that is written of it without blanks.
#[verifier::external_body]
pub(crate) fn write_pretty(j: &Json) -> (r: String)
    ensures
        r@ == json_pretty(j@),
{
    let value = serde_json::from_str::<Value>(&write_json(j)).unwrap_or(Value::Null);
    serde_json::to_string_pretty(&value).unwrap_or_default()
}

impl Json {
    /// The value that a text stands for.
    pub fn parse(text: &str) -> (r: Option<Json>)
        ensures
            match r {
                Some(j) => json_of(text@) == Some(j@),
                None => json_of(text@).is_none(),
            },
    {
        read_json(text)
    }

    /// The value as text, without blanks. A plain value is read back from it.
    pub fn text(&self) -> (r: String)
        ensures
            r@ == json_text(self@),
            plain(self@, 100) ==> json_of(r@) == Some(self@),
    {
        write_json(self)
    }

    /// The value as text on several lines.
    pub fn pretty(&self) -> (r: String)
        ensures
            r@ == json_pretty(self@),
    {
        write_pretty(self)
    }
}

/// Keys that each come before the next one ascend.
pub proof fn lemma_keys_ascend(l: Seq<(Seq<char>, JsonTree)>)
    requires
        forall|k: int| 0 <= k < l.len() - 1 ==> before((#[trigger] l[k]).0, l[k + 1].0),
    ensures
        keys_ascend(l),
{
    let names = Seq::new(l.len(), |i: int| l[i].0);
    assert forall|k: int| 0 <= k < names.len() - 1 implies before(#[trigger] names[k], names[k + 1]) by {
        assert(before(l[k].0, l[k + 1].0));
    }
    assert forall|i: int, k: int| 0 <= i < k < l.len() implies before((#[trigger] l[i]).0, (#[trigger] l[k]).0) by {
        crate::order::lemma_ascending_steps(names, i, k);
        assert(names[i] == l[i].0 && names[k] == l[k].0);
    }
}

/// A number of 64 bits is plain.
pub proof fn lemma_plain_number(n: u64, d: nat)
    ensures
        plain(JsonTree::Number(dec(n as nat)), d),
{
}

} // verus!
