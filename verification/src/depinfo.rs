//! rustc dep-info: files it read, and `env!` lookups.

use vstd::prelude::*;
use crate::cfgexpr::facts;
use crate::path::join;
use crate::path::under;
use crate::text::after_prefix;
use crate::text::chars_of;
use crate::text::lines;
use crate::text::lines_of;
use crate::text::opt_view;
use crate::text::push_char;
use crate::text::split_first;
use crate::text::split_once;
use crate::text::starts;
use crate::text::starts_with;
use crate::text::strip_prefix;
use crate::text::trim;
use crate::text::trimmed;
use crate::text::views;

verus! {

#[derive(Debug)]
pub struct DepInfo {
    pub files: Vec<String>,
    pub env: Vec<(String, Option<String>)>,
}

/// The value from `k` on, without its escapes.
pub open spec fn unescaped(s: Seq<char>, k: int) -> Seq<char>
    decreases s.len() - k,
{
    if k < 0 || k >= s.len() {
        Seq::empty()
    } else if s[k] != '\\' {
        seq![s[k]] + unescaped(s, k + 1)
    } else if k + 1 >= s.len() {
        seq!['\\']
    } else {
        seq![
            if s[k + 1] == 'n' {
                '\n'
            } else if s[k + 1] == 'r' {
                '\r'
            } else {
                s[k + 1]
            },
        ] + unescaped(s, k + 2)
    }
}

fn unescape_env(s: &str) -> (out: String)
    ensures
        out@ == unescaped(s@, 0),
{
    let cs = chars_of(s);
    let mut out = String::new();
    let mut k: usize = 0;
    while k < cs.len()
        invariant
            k <= cs@.len(),
            cs@ == s@,
            unescaped(s@, 0) == out@ + unescaped(s@, k as int),
        decreases cs@.len() - k,
    {
        let ghost was = out@;
        let c = cs[k];
        if c != '\\' {
            push_char(&mut out, c);
            k += 1;
            assert(was + (seq![c] + unescaped(s@, k as int)) =~= out@ + unescaped(s@, k as int));
        } else if k + 1 >= cs.len() {
            push_char(&mut out, '\\');
            k += 1;
            assert(was + seq!['\\'] =~= out@ + unescaped(s@, k as int));
        } else {
            let d = if cs[k + 1] == 'n' {
                '\n'
            } else if cs[k + 1] == 'r' {
                '\r'
            } else {
                cs[k + 1]
            };
            push_char(&mut out, d);
            k += 2;
            assert(was + (seq![d] + unescaped(s@, k as int)) =~= out@ + unescaped(s@, k as int));
        }
    }
    assert(out@ + Seq::<char>::empty() =~= out@);
    out
}

pub open spec fn with_last(out: Seq<Seq<char>>, cur: Seq<char>) -> Seq<Seq<char>> {
    if cur.len() == 0 {
        out
    } else {
        out.push(cur)
    }
}

/// The paths from `k` on, after those in `out` and the beginning `cur` of one. Spaces separate them,
/// except behind a backslash.
pub open spec fn paths_from(s: Seq<char>, k: int, out: Seq<Seq<char>>, cur: Seq<char>) -> Seq<Seq<char>>
    decreases s.len() - k,
{
    if k < 0 || k >= s.len() {
        with_last(out, cur)
    } else if s[k] == '\\' && k + 1 < s.len() && s[k + 1] == ' ' {
        paths_from(s, k + 2, out, cur.push(' '))
    } else if s[k] == ' ' {
        paths_from(s, k + 1, with_last(out, cur), Seq::empty())
    } else {
        paths_from(s, k + 1, out, cur.push(s[k]))
    }
}

fn split_paths(cs: &Vec<char>, from: usize) -> (out: Vec<String>)
    requires
        from <= cs@.len(),
    ensures
        views(out@) == paths_from(cs@, from as int, Seq::empty(), Seq::empty()),
{
    let mut out: Vec<String> = Vec::new();
    let mut cur = String::new();
    let mut k: usize = from;
    assert(views(out@) =~= Seq::<Seq<char>>::empty());
    while k < cs.len()
        invariant
            k <= cs@.len(),
            paths_from(cs@, from as int, Seq::empty(), Seq::empty()) == paths_from(cs@, k as int, views(out@), cur@),
        decreases cs@.len() - k,
    {
        if cs[k] == '\\' && k + 1 < cs.len() && cs[k + 1] == ' ' {
            push_char(&mut cur, ' ');
            k += 2;
        } else if cs[k] == ' ' {
            if !cur.as_str().is_empty() {
                let ghost was = out@;
                let ghost c = cur@;
                out.push(cur);
                assert(views(out@) =~= views(was).push(c));
            }
            cur = String::new();
            k += 1;
        } else {
            push_char(&mut cur, cs[k]);
            k += 1;
        }
    }
    if !cur.as_str().is_empty() {
        let ghost was = out@;
        let ghost c = cur@;
        out.push(cur);
        assert(views(out@) =~= views(was).push(c));
    }
    out
}

/// Where a rule's colon stands: before a space, or at the end.
pub open spec fn colon(s: Seq<char>, k: int) -> Option<int>
    decreases s.len() - k,
{
    if k < 0 || k >= s.len() {
        None
    } else if s[k] == ':' && (k + 1 == s.len() || s[k + 1] == ' ') {
        Some(k)
    } else {
        colon(s, k + 1)
    }
}

/// The line asks for a variable: its name, and the value that was found.
pub open spec fn env_dep(line: Seq<char>) -> Option<(Seq<char>, Option<Seq<char>>)> {
    match after_prefix(line, "# env-dep:"@) {
        Some(e) => match split_first(e, '=') {
            Some((k, v)) => Some((k, Some(unescaped(v, 0)))),
            None => Some((e, None)),
        },
        None => None,
    }
}

/// The variables of the first `k` lines.
pub open spec fn env_upto(ls: Seq<Seq<char>>, k: int) -> Seq<(Seq<char>, Option<Seq<char>>)>
    decreases k,
{
    if k <= 0 || k > ls.len() {
        Seq::empty()
    } else {
        match env_dep(ls[k - 1]) {
            Some(e) => env_upto(ls, k - 1).push(e),
            None => env_upto(ls, k - 1),
        }
    }
}

/// The line is a rule.
pub open spec fn rule(line: Seq<char>) -> bool {
    !starts(line, "#"@) && trimmed(line).len() > 0 && colon(line, 0).is_some()
}

/// The paths of the first rule from `k` on. It lists every input; later rules repeat subsets.
pub open spec fn first_rule(ls: Seq<Seq<char>>, k: int) -> Seq<Seq<char>>
    decreases ls.len() - k,
{
    if k < 0 || k >= ls.len() {
        Seq::empty()
    } else if rule(ls[k]) {
        paths_from(ls[k], colon(ls[k], 0).unwrap() + 1, Seq::empty(), Seq::empty())
    } else {
        first_rule(ls, k + 1)
    }
}

pub open spec fn all_under(cwd: Seq<char>, l: Seq<Seq<char>>) -> Seq<Seq<char>> {
    Seq::new(l.len(), |k: int| under(cwd, l[k]))
}

fn find_colon(cs: &Vec<char>) -> (r: Option<usize>)
    ensures
        match r {
            Some(i) => colon(cs@, 0) == Some(i as int) && i < cs@.len(),
            None => colon(cs@, 0).is_none(),
        },
{
    let mut k: usize = 0;
    while k < cs.len()
        invariant
            k <= cs@.len(),
            colon(cs@, 0) == colon(cs@, k as int),
        decreases cs@.len() - k,
    {
        if cs[k] == ':' && (k + 1 == cs.len() || cs[k + 1] == ' ') {
            return Some(k);
        }
        k += 1;
    }
    None
}

fn make_absolute(cwd: &str, list: &Vec<String>) -> (r: Vec<String>)
    ensures
        views(r@) == all_under(cwd@, views(list@)),
{
    let mut r: Vec<String> = Vec::new();
    while r.len() < list.len()
        invariant
            r@.len() <= list@.len(),
            forall|j: int| 0 <= j < r@.len() ==> #[trigger] r@[j]@ == all_under(cwd@, views(list@))[j],
        decreases list@.len() - r@.len(),
    {
        r.push(join(cwd, list[r.len()].as_str()));
    }
    assert(views(r@) =~= all_under(cwd@, views(list@)));
    r
}

pub fn parse_str(text: &str, cwd: &str) -> (r: DepInfo)
    ensures
        views(r.files@) == all_under(cwd@, first_rule(lines_of(text@), 0)),
        facts(r.env@) == env_upto(lines_of(text@), lines_of(text@).len() as int),
{
    let ls = lines(text);
    let ghost all = lines_of(text@);
    let mut env: Vec<(String, Option<String>)> = Vec::new();
    let mut files: Vec<String> = Vec::new();
    let mut first: bool = true;
    let mut k: usize = 0;
    assert(facts(env@) =~= Seq::<(Seq<char>, Option<Seq<char>>)>::empty());
    while k < ls.len()
        invariant
            k <= ls@.len(),
            all == views(ls@),
            facts(env@) == env_upto(all, k as int),
            first ==> first_rule(all, 0) == first_rule(all, k as int) && files@.len() == 0,
            !first ==> views(files@) == first_rule(all, 0),
        decreases ls@.len() - k,
    {
        let line = ls[k].as_str();
        assert(all[k as int] == line@);
        if let Some(e) = strip_prefix(line, "# env-dep:") {
            proof {
                reveal_strlit("# env-dep:");
                reveal_strlit("#");
                assert(line@.take(1) =~= "#"@);
                assert(line@.subrange(0, 1) =~= "#"@);
            }
            let entry: (String, Option<String>) = match split_once(e, '=') {
                Some((n, v)) => (n.to_owned(), Some(unescape_env(v))),
                None => (e.to_owned(), None),
            };
            let ghost was = env@;
            let ghost ev = (entry.0@, opt_view(entry.1));
            env.push(entry);
            assert(facts(env@) =~= facts(was).push(ev));
        } else if first && !starts_with(line, "#") && !trim(line).is_empty() {
            let cs = chars_of(line);
            if let Some(i) = find_colon(&cs) {
                files = split_paths(&cs, i + 1);
                first = false;
            }
        }
        k += 1;
    }
    proof {
        if first {
            assert(views(files@) =~= first_rule(all, 0));
        }
    }
    DepInfo { files: make_absolute(cwd, &files), env }
}

} // verus!
