//! `[lints]` as rustc flags. Inheritance is already filled in when the manifest is parsed.

use vstd::prelude::*;
use crate::order::before;
use crate::order::is_before;
use crate::order::lemma_before_asymmetric;
use crate::order::lemma_before_irreflexive;
use crate::order::lemma_before_total;
use crate::order::lemma_before_transitive;
use crate::sort::Ranked;
use crate::sort::in_order;
use crate::sort::sort;
use crate::text::cat3;
use crate::text::cat4;
use crate::text::same;
use crate::text::views;
use crate::value::Toml;
use crate::value::TomlTree;
use crate::value::at;
use crate::value::get;
use crate::value::strings_upto;
use crate::value::text_of;
use crate::value::toml_entries;

verus! {

#[derive(Debug)]
pub struct Lints {
    pub flags: Vec<String>,
    pub check_cfg: Vec<String>,
}

/// A lint, how strictly it is held, and when its flag counts.
#[derive(Debug)]
pub struct Entry {
    pub priority: i64,
    pub name: String,
    pub level: String,
}

pub type EntryView = (int, (Seq<char>, Seq<char>));

impl View for Entry {
    type V = EntryView;

    open spec fn view(&self) -> EntryView {
        (self.priority as int, (self.name@, self.level@))
    }
}

pub open spec fn text_leq(a: Seq<char>, b: Seq<char>) -> bool {
    a == b || before(a, b)
}

impl Ranked for Entry {
    /// By priority, then by name, then by level.
    open spec fn leq(a: EntryView, b: EntryView) -> bool {
        a.0 < b.0 || (a.0 == b.0 && (before(a.1.0, b.1.0) || (a.1.0 == b.1.0 && text_leq(a.1.1, b.1.1))))
    }

    proof fn lemma_total() {
        let leq = |a: EntryView, b: EntryView| Self::leq(a, b);
        assert forall|x: EntryView, y: EntryView| #[trigger] leq(x, y) && #[trigger] leq(y, x) implies x == y by {
            lemma_pair_asymmetric(x, y);
        }
        assert forall|x: EntryView, y: EntryView, z: EntryView| #[trigger] leq(x, y) && #[trigger] leq(y, z) implies leq(
            x,
            z,
        ) by {
            lemma_pair_transitive(x, y, z);
        }
        assert forall|x: EntryView, y: EntryView| #[trigger] leq(x, y) || #[trigger] leq(y, x) by {
            lemma_before_total(x.1.0, y.1.0);
            lemma_before_total(x.1.1, y.1.1);
        }
    }

    fn not_after(&self, other: &Entry) -> (r: bool) {
        if self.priority != other.priority {
            return self.priority < other.priority;
        }
        proof {
            lemma_before_irreflexive(self.name@);
            lemma_before_irreflexive(self.level@);
            lemma_before_total(self.level@, other.level@);
            if before(self.level@, other.level@) {
                lemma_before_asymmetric(self.level@, other.level@);
            }
        }
        if same(self.name.as_str(), other.name.as_str()) {
            !is_before(other.level.as_str(), self.level.as_str())
        } else {
            is_before(self.name.as_str(), other.name.as_str())
        }
    }
}

proof fn lemma_pair_asymmetric(x: EntryView, y: EntryView)
    requires
        Entry::leq(x, y),
        Entry::leq(y, x),
    ensures
        x == y,
{
    if x.1.0 == y.1.0 {
        lemma_before_irreflexive(x.1.0);
    } else {
        lemma_before_asymmetric(x.1.0, y.1.0);
    }
    if x.1.1 != y.1.1 && before(x.1.1, y.1.1) {
        lemma_before_asymmetric(x.1.1, y.1.1);
    }
}

proof fn lemma_pair_transitive(x: EntryView, y: EntryView, z: EntryView)
    requires
        Entry::leq(x, y),
        Entry::leq(y, z),
    ensures
        Entry::leq(x, z),
{
    if before(x.1.0, y.1.0) && before(y.1.0, z.1.0) {
        lemma_before_transitive(x.1.0, y.1.0, z.1.0);
    }
    if before(x.1.1, y.1.1) && before(y.1.1, z.1.1) {
        lemma_before_transitive(x.1.1, y.1.1, z.1.1);
    }
}

/// The lint as rustc names it.
pub open spec fn full_name(tool: Seq<char>, name: Seq<char>) -> Seq<char> {
    if tool == "rust"@ {
        name
    } else {
        tool + "::"@ + name
    }
}

/// What a lint is set to: a level, or a table with a level and perhaps a priority.
pub open spec fn lint_level(v: TomlTree) -> Option<(int, Seq<char>)> {
    match v {
        TomlTree::Str(level) => Some((0, level)),
        TomlTree::Table(t) => match text_of(at(t, "level"@)) {
            Some(level) => Some(
                (
                    match at(t, "priority"@) {
                        Some(TomlTree::Int(n)) => n as int,
                        _ => 0,
                    },
                    level,
                ),
            ),
            None => None,
        },
        _ => None,
    }
}

/// What a tool's first `k` lints are set to.
pub open spec fn tool_entries(tool: Seq<char>, lints: Seq<(Seq<char>, TomlTree)>, k: int) -> Seq<EntryView>
    decreases k,
{
    if k <= 0 || k > lints.len() {
        Seq::empty()
    } else {
        match lint_level(lints[k - 1].1) {
            Some((priority, level)) => tool_entries(tool, lints, k - 1).push(
                (priority, (full_name(tool, lints[k - 1].0), level)),
            ),
            None => tool_entries(tool, lints, k - 1),
        }
    }
}

pub open spec fn entries(tools: Seq<(Seq<char>, TomlTree)>, k: int) -> Seq<EntryView>
    decreases k,
{
    if k <= 0 || k > tools.len() {
        Seq::empty()
    } else {
        match tools[k - 1].1 {
            TomlTree::Table(l) => entries(tools, k - 1) + tool_entries(tools[k - 1].0, l, l.len() as int),
            _ => entries(tools, k - 1),
        }
    }
}

/// The cfgs that a lint declares.
pub open spec fn declared_cfgs(tool: Seq<char>, name: Seq<char>, v: TomlTree) -> Seq<Seq<char>> {
    match v {
        TomlTree::Table(t) => match at(t, "check-cfg"@) {
            Some(TomlTree::Array(l)) => if tool == "rust"@ && name == "unexpected_cfgs"@ {
                strings_upto(l, l.len() as int)
            } else {
                Seq::empty()
            },
            _ => Seq::empty(),
        },
        _ => Seq::empty(),
    }
}

pub open spec fn tool_cfgs(tool: Seq<char>, lints: Seq<(Seq<char>, TomlTree)>, k: int) -> Seq<Seq<char>>
    decreases k,
{
    if k <= 0 || k > lints.len() {
        Seq::empty()
    } else {
        tool_cfgs(tool, lints, k - 1) + declared_cfgs(tool, lints[k - 1].0, lints[k - 1].1)
    }
}

pub open spec fn cfgs(tools: Seq<(Seq<char>, TomlTree)>, k: int) -> Seq<Seq<char>>
    decreases k,
{
    if k <= 0 || k > tools.len() {
        Seq::empty()
    } else {
        match tools[k - 1].1 {
            TomlTree::Table(l) => cfgs(tools, k - 1) + tool_cfgs(tools[k - 1].0, l, l.len() as int),
            _ => cfgs(tools, k - 1),
        }
    }
}

/// The flags of the lints in their order.
pub open spec fn flags_of(es: Seq<EntryView>) -> Seq<Seq<char>> {
    Seq::new(es.len(), |k: int| "--"@ + es[k].1.1 + "="@ + es[k].1.0)
}

pub open spec fn lint_flags(table: Option<Seq<(Seq<char>, TomlTree)>>) -> Seq<Seq<char>> {
    match table {
        Some(tools) => flags_of(in_order::<Entry>(entries(tools, tools.len() as int))),
        None => Seq::empty(),
    }
}

pub open spec fn lint_cfgs(table: Option<Seq<(Seq<char>, TomlTree)>>) -> Seq<Seq<char>> {
    match table {
        Some(tools) => cfgs(tools, tools.len() as int),
        None => Seq::empty(),
    }
}

pub open spec fn table_view(t: Option<&Vec<(String, Toml)>>) -> Option<Seq<(Seq<char>, TomlTree)>> {
    match t {
        Some(l) => Some(toml_entries(l@)),
        None => None,
    }
}

fn push_strings(out: &mut Vec<String>, l: &Vec<Toml>)
    ensures
        views(final(out)@) == views(old(out)@) + strings_upto(crate::value::toml_trees(l@), l@.len() as int),
{
    let ghost trees = crate::value::toml_trees(l@);
    let mut k: usize = 0;
    assert(views(out@) + strings_upto(trees, 0) =~= views(out@));
    while k < l.len()
        invariant
            k <= l@.len(),
            trees == crate::value::toml_trees(l@),
            views(out@) == views(old(out)@) + strings_upto(trees, k as int),
        decreases l@.len() - k,
    {
        assert(trees[k as int] == l@[k as int]@);
        if let Toml::Str(s) = &l[k] {
            let ghost was = out@;
            out.push(s.clone());
            assert(views(out@) =~= views(was).push(s@));
            assert(views(out@) =~= views(old(out)@) + strings_upto(trees, k + 1));
        }
        k += 1;
    }
}

fn read_level(v: &Toml) -> (r: Option<(i64, String)>)
    ensures
        match r {
            Some((p, level)) => lint_level(v@) == Some((p as int, level@)),
            None => lint_level(v@).is_none(),
        },
{
    match v {
        Toml::Str(level) => Some((0, level.clone())),
        Toml::Table(t) => {
            assert(v@ == TomlTree::Table(toml_entries(t@)));
            let level = match get(t, "level") {
                Some(Toml::Str(s)) => s.clone(),
                _ => return None,
            };
            let priority: i64 = match get(t, "priority") {
                Some(Toml::Int(n)) => *n,
                _ => 0,
            };
            Some((priority, level))
        },
        _ => None,
    }
}

fn read_tool(tool: &str, lints: &Vec<(String, Toml)>, list: &mut Vec<Entry>, check_cfg: &mut Vec<String>)
    ensures
        views(final(list)@) == views(old(list)@) + tool_entries(tool@, toml_entries(lints@), lints@.len() as int),
        views(final(check_cfg)@) == views(old(check_cfg)@) + tool_cfgs(tool@, toml_entries(lints@), lints@.len() as int),
{
    let ghost all = toml_entries(lints@);
    let mut k: usize = 0;
    assert(views(list@) + tool_entries(tool@, all, 0) =~= views(list@));
    assert(views(check_cfg@) + tool_cfgs(tool@, all, 0) =~= views(check_cfg@));
    while k < lints.len()
        invariant
            k <= lints@.len(),
            all == toml_entries(lints@),
            views(list@) == views(old(list)@) + tool_entries(tool@, all, k as int),
            views(check_cfg@) == views(old(check_cfg)@) + tool_cfgs(tool@, all, k as int),
        decreases lints@.len() - k,
    {
        let name = &lints[k].0;
        let v = &lints[k].1;
        assert(all[k as int] == (name@, v@));
        let ghost cfgs_before = views(check_cfg@);
        if let Toml::Table(t) = v {
            assert(v@ == TomlTree::Table(toml_entries(t@)));
            if same(tool, "rust") && same(name.as_str(), "unexpected_cfgs") {
                if let Some(Toml::Array(l)) = get(t, "check-cfg") {
                    assert(Toml::Array(*l)@ == TomlTree::Array(crate::value::toml_trees(l@)));
                    push_strings(check_cfg, l);
                }
            }
        }
        assert(views(check_cfg@) =~= cfgs_before + declared_cfgs(tool@, name@, v@));
        assert(views(check_cfg@) =~= views(old(check_cfg)@) + tool_cfgs(tool@, all, k + 1));
        if let Some((priority, level)) = read_level(v) {
            let full = if same(tool, "rust") {
                name.clone()
            } else {
                cat3(tool, "::", name.as_str())
            };
            let ghost was = list@;
            let e = Entry { priority, name: full, level };
            let ghost ev = e@;
            list.push(e);
            assert(views(list@) =~= views(was).push(ev));
            assert(views(list@) =~= views(old(list)@) + tool_entries(tool@, all, k + 1));
        }
        k += 1;
    }
}

/// Flags for a package's normalized `[lints]` table
pub fn from_table(table: Option<&Vec<(String, Toml)>>) -> (r: Lints)
    ensures
        views(r.flags@) == lint_flags(table_view(table)),
        views(r.check_cfg@) == lint_cfgs(table_view(table)),
{
    let mut list: Vec<Entry> = Vec::new();
    let mut check_cfg: Vec<String> = Vec::new();
    let mut flags: Vec<String> = Vec::new();
    assert(views(list@) =~= Seq::<EntryView>::empty());
    assert(views(check_cfg@) =~= Seq::<Seq<char>>::empty());
    let tools = match table {
        Some(t) => t,
        None => {
            assert(views(flags@) =~= Seq::<Seq<char>>::empty());
            return Lints { flags, check_cfg };
        },
    };
    let ghost all = toml_entries(tools@);
    let mut k: usize = 0;
    while k < tools.len()
        invariant
            k <= tools@.len(),
            all == toml_entries(tools@),
            views(list@) == entries(all, k as int),
            views(check_cfg@) == cfgs(all, k as int),
        decreases tools@.len() - k,
    {
        assert(all[k as int] == (tools@[k as int].0@, tools@[k as int].1@));
        if let Toml::Table(lints) = &tools[k].1 {
            assert(tools@[k as int].1@ == TomlTree::Table(toml_entries(lints@)));
            read_tool(tools[k].0.as_str(), lints, &mut list, &mut check_cfg);
        }
        k += 1;
    }
    let ghost es = in_order::<Entry>(views(list@));
    let list = sort(list);
    k = 0;
    while k < list.len()
        invariant
            k <= list@.len(),
            es == views(list@),
            flags@.len() == k,
            forall|j: int| 0 <= j < k ==> #[trigger] flags@[j]@ == flags_of(es)[j],
        decreases list@.len() - k,
    {
        assert(es[k as int] == list@[k as int]@);
        flags.push(cat4("--", list[k].level.as_str(), "=", list[k].name.as_str()));
        k += 1;
    }
    assert(views(flags@) =~= flags_of(es));
    Lints { flags, check_cfg }
}

} // verus!
