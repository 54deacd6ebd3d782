//! What the lints of a manifest come to.

use vstd::prelude::*;
use crate::lints::Entry;
use crate::lints::EntryView;
use crate::lints::cfgs;
use crate::lints::entries;
use crate::lints::full_name;
use crate::lints::lint_cfgs;
use crate::lints::lint_flags;
use crate::lints::lint_level;
use crate::lints::tool_entries;
use crate::sort::Ranked;
use crate::value::TomlTree;
use crate::value::at;


verus! {

/// What is set of a lint: its level, and its priority where a table gives one.
pub open spec fn is_set(v: TomlTree, level: Seq<char>, priority: int) -> bool {
    match v {
        crate::value::TomlTree::Str(s) => s == level && priority == 0,
        crate::value::TomlTree::Table(t) => at(t, "level"@) == Some(crate::value::TomlTree::Str(level)) && (match at(
            t,
            "priority"@,
        ) {
            Some(crate::value::TomlTree::Int(n)) => priority == n,
            _ => priority == 0,
        }),
        _ => false,
    }
}

/// A lint of a tool, as the compiler names it, is set so in the tables.
pub open spec fn sets_lint(
    tools: Seq<(Seq<char>, TomlTree)>,
    a: int,
    b: int,
    name: Seq<char>,
    level: Seq<char>,
    priority: int,
) -> bool {
    &&& 0 <= a < tools.len()
    &&& tools[a].1 matches crate::value::TomlTree::Table(l) && 0 <= b < l.len() && is_set(l[b].1, level, priority) && name == (if tools[a].0
        == "rust"@ {
        l[b].0
    } else {
        tools[a].0 + "::"@ + l[b].0
    })
}

proof fn lemma_tool(tool: Seq<char>, l: Seq<(Seq<char>, TomlTree)>, k: int, b: int, level: Seq<char>, priority: int)
    requires
        0 <= b < k <= l.len(),
        is_set(l[b].1, level, priority),
    ensures
        tool_entries(tool, l, k).contains((priority, (full_name(tool, l[b].0), level))),
    decreases k,
{
    let x = (priority, (full_name(tool, l[b].0), level));
    let all = tool_entries(tool, l, k);
    let rest = tool_entries(tool, l, k - 1);
    if b == k - 1 {
        assert(lint_level(l[b].1) == Some((priority, level)));
        assert(all[rest.len() as int] == x);
    } else {
        lemma_tool(tool, l, k - 1, b, level, priority);
        let j = choose|j: int| 0 <= j < rest.len() && rest[j] == x;
        assert(all[j] == x);
    }
}

proof fn lemma_entries(
    tools: Seq<(Seq<char>, TomlTree)>,
    k: int,
    a: int,
    b: int,
    name: Seq<char>,
    level: Seq<char>,
    priority: int,
)
    requires
        0 <= a < k <= tools.len(),
        sets_lint(tools, a, b, name, level, priority),
    ensures
        entries(tools, k).contains((priority, (name, level))),
    decreases k,
{
    let x = (priority, (name, level));
    let all = entries(tools, k);
    let rest = entries(tools, k - 1);
    if a == k - 1 {
        let l = tools[a].1->Table_0;
        lemma_tool(tools[a].0, l, l.len() as int, b, level, priority);
        let last = tool_entries(tools[a].0, l, l.len() as int);
        let j = choose|j: int| 0 <= j < last.len() && last[j] == x;
        assert(all[rest.len() + j] == x);
    } else {
        lemma_entries(tools, k - 1, a, b, name, level, priority);
        let j = choose|j: int| 0 <= j < rest.len() && rest[j] == x;
        assert(all[j] == x);
    }
}

/// Each lint that is set is passed on, under the name that the compiler has for it.
pub proof fn law_lints_are_passed_on(
    tools: Seq<(Seq<char>, TomlTree)>,
    a: int,
    b: int,
    name: Seq<char>,
    level: Seq<char>,
    priority: int,
)
    requires
        sets_lint(tools, a, b, name, level, priority),
    ensures
        lint_flags(Some(tools)).contains("--"@ + level + "="@ + name),
{
    lemma_entries(tools, tools.len() as int, a, b, name, level, priority);
    let es = entries(tools, tools.len() as int);
    crate::command_laws::lemma_sorted::<Entry>(es);
    let r = crate::sort::in_order::<Entry>(es);
    let x = (priority, (name, level));
    let j = choose|j: int| 0 <= j < r.len() && r[j] == x;
    assert(lint_flags(Some(tools))[j] == "--"@ + level + "="@ + name);
}

/// What has the lower priority comes first: the compiler goes by the last word.
pub proof fn law_lints_of_higher_priority_come_later(
    tools: Seq<(Seq<char>, TomlTree)>,
    a1: int,
    b1: int,
    name1: Seq<char>,
    level1: Seq<char>,
    priority1: int,
    a2: int,
    b2: int,
    name2: Seq<char>,
    level2: Seq<char>,
    priority2: int,
)
    requires
        sets_lint(tools, a1, b1, name1, level1, priority1),
        sets_lint(tools, a2, b2, name2, level2, priority2),
        priority1 < priority2,
    ensures
        exists|i: int, j: int|
            0 <= i < j < lint_flags(Some(tools)).len() && #[trigger] lint_flags(Some(tools))[i] == "--"@ + level1 + "="@
                + name1 && #[trigger] lint_flags(Some(tools))[j] == "--"@ + level2 + "="@ + name2,
{
    lemma_entries(tools, tools.len() as int, a1, b1, name1, level1, priority1);
    lemma_entries(tools, tools.len() as int, a2, b2, name2, level2, priority2);
    let es = entries(tools, tools.len() as int);
    crate::command_laws::lemma_sorted::<Entry>(es);
    let leq = |a: EntryView, b: EntryView| <Entry as Ranked>::leq(a, b);
    <Entry as Ranked>::lemma_total();
    es.lemma_sort_by_ensures(leq);
    let r = crate::sort::in_order::<Entry>(es);
    let x = (priority1, (name1, level1));
    let y = (priority2, (name2, level2));
    let i = choose|i: int| 0 <= i < r.len() && r[i] == x;
    let j = choose|j: int| 0 <= j < r.len() && r[j] == y;
    if j < i {
        assert(leq(r[j], r[i]));
    }
    let fl = lint_flags(Some(tools));
    assert(fl[i] == "--"@ + level1 + "="@ + name1);
    assert(fl[j] == "--"@ + level2 + "="@ + name2);
}

/// Where nothing is set, nothing is passed on.
pub proof fn law_without_lints_nothing_is_passed_on(tools: Seq<(Seq<char>, TomlTree)>)
    requires
        forall|a: int| 0 <= a < tools.len() ==> (#[trigger] tools[a]).1 == crate::value::TomlTree::Table(Seq::empty()),
    ensures
        lint_flags(None).len() == 0,
        lint_cfgs(None).len() == 0,
        lint_flags(Some(tools)).len() == 0,
        lint_cfgs(Some(tools)).len() == 0,
{
    lemma_nothing(tools, tools.len() as int);
    crate::command_laws::lemma_sorted::<Entry>(entries(tools, tools.len() as int));
}

proof fn lemma_nothing(tools: Seq<(Seq<char>, TomlTree)>, k: int)
    requires
        0 <= k <= tools.len(),
        forall|a: int| 0 <= a < tools.len() ==> (#[trigger] tools[a]).1 == crate::value::TomlTree::Table(Seq::empty()),
    ensures
        entries(tools, k).len() == 0,
        cfgs(tools, k).len() == 0,
    decreases k,
{
    if k > 0 {
        lemma_nothing(tools, k - 1);
        assert(tools[k - 1].1 == crate::value::TomlTree::Table(Seq::empty()));
    }
}

} // verus!
