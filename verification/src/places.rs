//! Where a build is: its target directory and its workspace, as given and behind links. What a build says of them does not
//! depend on where they are.

use vstd::prelude::*;
use crate::commands::Ctx;
use crate::commands::Planned;
use crate::invocation::InvocationView;
use crate::invocation::byte_len;
use crate::invocation::hashed_data;
use crate::invocation::normal;
use crate::invocation::normal_upto;
use crate::invocation::rank;
use crate::invocation::with_real;
use crate::invocation::with_rule;
use crate::keys::Draft;
use crate::keys::PredictionView;
use crate::keys::Seen;
use crate::keys::dep_keys;
use crate::keys::dep_names;
use crate::keys::finished_plan;
use crate::keys::line_hash;
use crate::keys::opt_views;
use crate::keys::unit_name;
use crate::laws::lemma_same_normal_forms;
use crate::path::same_place;
use crate::text::occurs_at;
use crate::text::replaced;
use crate::text::starts;
use crate::unit::Mode;
use crate::unit::Unit;
use crate::workspace::Pkg;
use crate::worktree::before_token;
use crate::worktree::lemma_front_kept;
use crate::worktree::lemma_front_replaced;
use crate::worktree::lemma_starts;

verus! {

// ---------------------------------------------------------------------------
// Texts that speak of a place.

/// The directories of a build, as given, and their names behind links.
pub struct Place {
    pub target: Seq<char>,
    pub real_target: Option<Seq<char>>,
    pub root: Seq<char>,
    pub real_root: Option<Seq<char>>,
}

/// A part of a text: a character, or one of the directories, by the name behind links where that is another one.
pub enum Part {
    Char(char),
    Target { resolved: bool },
    Root { resolved: bool },
}

pub open spec fn part_text(x: Part, p: Place) -> Seq<char> {
    match x {
        Part::Char(c) => seq![c],
        Part::Target { resolved } => match p.real_target {
            Some(d) => if resolved && !same_place(d, p.target) {
                d
            } else {
                p.target
            },
            None => p.target,
        },
        Part::Root { resolved } => match p.real_root {
            Some(d) => if resolved && !same_place(d, p.root) {
                d
            } else {
                p.root
            },
            None => p.root,
        },
    }
}

/// What a part is in every place.
pub open spec fn part_token(x: Part) -> Seq<char> {
    match x {
        Part::Char(c) => seq![c],
        Part::Target { .. } => "{TARGET}"@,
        Part::Root { .. } => "{WS}"@,
    }
}

/// The text from the part `k` on, at a place.
pub open spec fn text_from(t: Seq<Part>, p: Place, k: int) -> Seq<char>
    decreases t.len() - k,
{
    if k < 0 || k >= t.len() {
        Seq::empty()
    } else {
        part_text(t[k], p) + text_from(t, p, k + 1)
    }
}

/// The text at a place.
pub open spec fn text_at(t: Seq<Part>, p: Place) -> Seq<char> {
    text_from(t, p, 0)
}

/// The text from the part `k` on, with a token for each directory.
pub open spec fn tokens_from(t: Seq<Part>, k: int) -> Seq<char>
    decreases t.len() - k,
{
    if k < 0 || k >= t.len() {
        Seq::empty()
    } else {
        part_token(t[k]) + tokens_from(t, k + 1)
    }
}

/// Where the part `k` starts in the text.
pub open spec fn part_offset(t: Seq<Part>, p: Place, k: int) -> int
    decreases k,
{
    if k <= 0 || k > t.len() {
        0
    } else {
        part_offset(t, p, k - 1) + part_text(t[k - 1], p).len()
    }
}

/// The rules of a place.
pub open spec fn place_rules(p: Place) -> Seq<(Seq<char>, Seq<char>)> {
    with_real(with_real(Seq::empty(), p.target, p.real_target, "{TARGET}"@), p.root, p.real_root, "{WS}"@)
}

/// The part `k` is the directory of that rule.
pub open spec fn is_by_rule(t: Seq<Part>, p: Place, k: int, r: (Seq<char>, Seq<char>)) -> bool {
    0 <= k < t.len() && !(t[k] is Char) && (part_text(t[k], p), part_token(t[k])) == r
}

/// The part `k` is the directory of one of the first `n` rules.
pub open spec fn is_done(t: Seq<Part>, p: Place, n: int, k: int) -> bool {
    exists|i: int| 0 <= i < n && i < place_rules(p).len() && is_by_rule(t, p, k, #[trigger] place_rules(p)[i])
}

/// The position is in the part `k`.
pub open spec fn in_part(t: Seq<Part>, p: Place, k: int, j: int) -> bool {
    part_offset(t, p, k) <= j < part_offset(t, p, k) + part_text(t[k], p).len()
}

/// The `n` characters from the position on share one with the part `k`.
pub open spec fn meets_part(t: Seq<Part>, p: Place, k: int, j: int, n: int) -> bool {
    part_offset(t, p, k) < j + n && j < part_offset(t, p, k) + part_text(t[k], p).len()
}

/// That the directory of the rule `i` occurs at the position is due to the part `k`: it is that directory, or one of a
/// rule that comes before.
pub open spec fn is_due_to(t: Seq<Part>, p: Place, i: int, j: int, k: int) -> bool {
    &&& 0 <= k < t.len()
    &&& (is_by_rule(t, p, k, place_rules(p)[i]) && in_part(t, p, k, j)) || (is_done(t, p, i, k) && meets_part(
        t,
        p,
        k,
        j,
        place_rules(p)[i].0.len() as int,
    ))
}

/// The directory of a rule occurs in the text where its parts are, and else only together with the directory of a rule
/// that comes before, such as a longer one that it is in.
pub open spec fn only_in_parts(t: Seq<Part>, p: Place) -> bool {
    forall|i: int, j: int|
        0 <= i < place_rules(p).len() && #[trigger] occurs_at(text_at(t, p), place_rules(p)[i].0, j) ==> exists|k: int| #[trigger]
            is_due_to(t, p, i, j, k)
}

/// The directory and the token have no piece in common by which they could run together.
pub open spec fn apart(d: Seq<char>, token: Seq<char>) -> bool {
    &&& before_token(d, token)
    &&& forall|q: int| 0 <= q < token.len() ==> !starts(#[trigger] token.skip(q), d) && !starts(d, token.skip(q))
}

/// The directories have names, and none runs together with the token of a rule that comes before its own.
pub open spec fn is_place(p: Place) -> bool {
    &&& forall|i: int| 0 <= i < place_rules(p).len() ==> (#[trigger] place_rules(p)[i]).0.len() > 0
    &&& forall|i: int, j: int| 0 <= i < j < place_rules(p).len() ==> apart((#[trigger] place_rules(p)[j]).0, (#[trigger] place_rules(p)[i]).1)
}

// ---------------------------------------------------------------------------
// Where things are.

proof fn lemma_text(t: Seq<Part>, p: Place, k: int)
    requires
        0 <= k <= t.len(),
    ensures
        0 <= part_offset(t, p, k) <= text_at(t, p).len(),
        text_at(t, p).skip(part_offset(t, p, k)) == text_from(t, p, k),
    decreases k,
{
    let s = text_at(t, p);
    if k > 0 {
        lemma_text(t, p, k - 1);
        let a = part_text(t[k - 1], p);
        let o = part_offset(t, p, k - 1);
        assert(text_from(t, p, k - 1) == a + text_from(t, p, k));
        assert(s.skip(o).len() == s.len() - o);
        assert(s.skip(o + a.len()) =~= s.skip(o).skip(a.len() as int));
        assert((a + text_from(t, p, k)).skip(a.len() as int) =~= text_from(t, p, k));
    } else {
        assert(s.skip(0) =~= s);
    }
}

proof fn lemma_part_offsets(t: Seq<Part>, p: Place, a: int, b: int)
    requires
        0 <= a < b <= t.len(),
    ensures
        part_offset(t, p, a) + part_text(t[a], p).len() <= part_offset(t, p, b),
    decreases b - a,
{
    if a + 1 < b {
        lemma_part_offsets(t, p, a, b - 1);
    }
}

/// The text from the part `k` on, after `n` rules.
spec fn stage_from(t: Seq<Part>, p: Place, n: int, k: int) -> Seq<char>
    decreases t.len() - k,
{
    if k < 0 || k >= t.len() {
        Seq::empty()
    } else if is_done(t, p, n, k) {
        part_token(t[k]) + stage_from(t, p, n, k + 1)
    } else {
        part_text(t[k], p) + stage_from(t, p, n, k + 1)
    }
}

/// Where the text after `n` rules starts with an end of the directory, the text itself does, and there no part is done.
proof fn lemma_stage_starts(t: Seq<Part>, p: Place, n: int, k: int, d: Seq<char>, r: int)
    requires
        0 <= k,
        0 <= n <= place_rules(p).len(),
        forall|i: int| 0 <= i < n ==> apart(d, (#[trigger] place_rules(p)[i]).1),
        0 <= r <= d.len(),
        starts(stage_from(t, p, n, k), d.skip(r)),
    ensures
        starts(text_from(t, p, k), d.skip(r)),
        forall|m: int| k <= m < t.len() && #[trigger] is_done(t, p, n, m) ==> part_offset(t, p, m) - part_offset(t, p, k) >= d.len() - r,
    decreases t.len() - k,
{
    let x = d.skip(r);
    let h = stage_from(t, p, n, k);
    let f = text_from(t, p, k);
    if x.len() == 0 {
        assert(f.subrange(0, 0) =~= x);
        assert forall|m: int| k <= m < t.len() && #[trigger] is_done(t, p, n, m) implies part_offset(t, p, m) - part_offset(t, p, k) >= 0 by {
            if k < m {
                lemma_part_offsets(t, p, k, m);
            }
        }
    } else {
        lemma_starts(h, x, 0);
        assert(k < t.len());
        if is_done(t, p, n, k) {
            let i = choose|i: int| 0 <= i < n && i < place_rules(p).len() && is_by_rule(t, p, k, #[trigger] place_rules(p)[i]);
            let a = part_token(t[k]);
            assert(apart(d, place_rules(p)[i].1));
            assert(a == place_rules(p)[i].1);
            assert(h == a + stage_from(t, p, n, k + 1));
            if x.len() <= a.len() {
                assert(a.subrange(0, x.len() as int) =~= h.subrange(0, x.len() as int));
                assert(starts(a, d.skip(r)));
            } else {
                assert(x.subrange(0, a.len() as int) =~= a) by {
                    assert forall|i: int| 0 <= i < a.len() implies x[i] == a[i] by {
                        lemma_starts(h, x, i);
                    }
                }
                assert(starts(d.skip(r), a));
            }
        } else {
            let a = part_text(t[k], p);
            let g = stage_from(t, p, n, k + 1);
            let b = text_from(t, p, k + 1);
            assert(h == a + g && f == a + b);
            assert(h.subrange(0, x.len() as int) == x);
            assert(part_offset(t, p, k + 1) == part_offset(t, p, k) + a.len());
            if x.len() <= a.len() {
                assert(f.subrange(0, x.len() as int) =~= h.subrange(0, x.len() as int));
                assert forall|m: int| k <= m < t.len() && #[trigger] is_done(t, p, n, m) implies part_offset(t, p, m) - part_offset(t, p, k)
                    >= d.len() - r by {
                    lemma_part_offsets(t, p, k, m);
                }
            } else {
                let y = d.skip(r + a.len());
                assert(y =~= x.skip(a.len() as int));
                assert(g.subrange(0, y.len() as int) =~= y) by {
                    assert forall|i: int| 0 <= i < y.len() implies g[i] == y[i] by {
                        lemma_starts(h, x, a.len() + i);
                        assert(h[a.len() + i] == g[i]);
                    }
                }
                lemma_stage_starts(t, p, n, k + 1, d, r + a.len());
                assert(f.subrange(0, x.len() as int) =~= x) by {
                    assert forall|i: int| 0 <= i < x.len() implies f[i] == x[i] by {
                        lemma_starts(h, x, i);
                        if i >= a.len() {
                            lemma_starts(b, y, i - a.len());
                        }
                    }
                }
            }
        }
    }
}

/// After `n` rules the directory of the next one does not occur from a place in the part `k` on, where that part is
/// neither done nor next.
proof fn lemma_not_in_part(t: Seq<Part>, p: Place, n: int, k: int, j: int)
    requires
        is_place(p),
        only_in_parts(t, p),
        0 <= n < place_rules(p).len(),
        0 <= k < t.len(),
        !is_done(t, p, n, k),
        !is_by_rule(t, p, k, place_rules(p)[n]),
        0 <= j < part_text(t[k], p).len(),
    ensures
        !occurs_at(part_text(t[k], p) + stage_from(t, p, n, k + 1), place_rules(p)[n].0, j),
{
    let a = part_text(t[k], p);
    let b = stage_from(t, p, n, k + 1);
    let d = place_rules(p)[n].0;
    if occurs_at(a + b, d, j) {
        let s = text_at(t, p);
        let o = part_offset(t, p, k);
        let f = text_from(t, p, k);
        let c = text_from(t, p, k + 1);
        lemma_text(t, p, k);
        assert(f == a + c);
        assert(d == (a + b).subrange(j, j + d.len()));
        assert(part_offset(t, p, k + 1) == o + a.len());
        if j + d.len() > a.len() {
            let r = a.len() - j;
            assert(b.subrange(0, d.len() - r) =~= d.skip(r)) by {
                assert forall|i: int| 0 <= i < d.len() - r implies b[i] == d[r + i] by {
                    assert((a + b).subrange(j, j + d.len())[r + i] == b[i]);
                }
            }
            assert forall|i: int| 0 <= i < n implies apart(d, (#[trigger] place_rules(p)[i]).1) by {
                assert(apart(place_rules(p)[n].0, place_rules(p)[i].1));
            }
            lemma_stage_starts(t, p, n, k + 1, d, r);
            assert(f.subrange(j, j + d.len()) =~= d) by {
                assert forall|i: int| 0 <= i < d.len() implies f[j + i] == d[i] by {
                    assert((a + b).subrange(j, j + d.len())[i] == (a + b)[j + i]);
                    if i >= r {
                        lemma_starts(c, d.skip(r), i - r);
                    }
                }
            }
        } else {
            assert(f.subrange(j, j + d.len()) =~= (a + b).subrange(j, j + d.len()));
        }
        assert(s.subrange(o + j, o + j + d.len()) =~= f.subrange(j, j + d.len()));
        assert(occurs_at(s, d, o + j));
        let m = choose|m: int| #[trigger] is_due_to(t, p, n, o + j, m);
        if m < k {
            lemma_part_offsets(t, p, m, k);
        } else if m > k {
            lemma_part_offsets(t, p, k, m);
            if is_done(t, p, n, m) && meets_part(t, p, m, o + j, d.len() as int) {
                if j + d.len() > a.len() {
                    assert(part_offset(t, p, m) - part_offset(t, p, k + 1) >= d.len() - (a.len() - j));
                }
            }
        }
    }
}

/// In the token of a rule that is done the directory of a later rule does not occur.
proof fn lemma_not_in_token(token: Seq<char>, b: Seq<char>, d: Seq<char>, j: int)
    requires
        apart(d, token),
        0 <= j < token.len(),
    ensures
        !occurs_at(token + b, d, j),
{
    if occurs_at(token + b, d, j) {
        let x = token.skip(j);
        assert(d == (token + b).subrange(j, j + d.len()));
        if d.len() <= x.len() {
            assert(x.subrange(0, d.len() as int) =~= d);
            assert(starts(token.skip(j), d));
        } else {
            assert(d.subrange(0, x.len() as int) =~= x);
            assert(starts(d, token.skip(j)));
        }
    }
}

proof fn lemma_stage(t: Seq<Part>, p: Place, n: int, k: int)
    requires
        is_place(p),
        only_in_parts(t, p),
        0 <= n < place_rules(p).len(),
        0 <= k <= t.len(),
    ensures
        replaced(stage_from(t, p, n, k), place_rules(p)[n].0, place_rules(p)[n].1) == stage_from(t, p, n + 1, k),
    decreases t.len() - k,
{
    let d = place_rules(p)[n].0;
    let by = place_rules(p)[n].1;
    assert(d.len() > 0);
    if k < t.len() {
        lemma_stage(t, p, n, k + 1);
        let b = stage_from(t, p, n, k + 1);
        if is_done(t, p, n, k) {
            let i = choose|i: int| 0 <= i < n && i < place_rules(p).len() && is_by_rule(t, p, k, #[trigger] place_rules(p)[i]);
            assert(is_by_rule(t, p, k, place_rules(p)[i]));
            assert(is_done(t, p, n + 1, k));
            let a = part_token(t[k]);
            assert(apart(place_rules(p)[n].0, place_rules(p)[i].1));
            assert forall|j: int| 0 <= j < a.len() implies !#[trigger] occurs_at(a + b, d, j) by {
                lemma_not_in_token(a, b, d, j);
            }
            lemma_front_kept(a, b, d, by);
        } else if is_by_rule(t, p, k, place_rules(p)[n]) {
            assert(is_done(t, p, n + 1, k));
            lemma_front_replaced(d, b, by);
        } else {
            let a = part_text(t[k], p);
            assert(!is_done(t, p, n + 1, k)) by {
                if is_done(t, p, n + 1, k) {
                    let i = choose|i: int| 0 <= i < n + 1 && i < place_rules(p).len() && is_by_rule(t, p, k, #[trigger] place_rules(p)[i]);
                    if i < n {
                        assert(is_by_rule(t, p, k, place_rules(p)[i]));
                    }
                }
            }
            assert forall|j: int| 0 <= j < a.len() implies !#[trigger] occurs_at(a + b, d, j) by {
                lemma_not_in_part(t, p, n, k, j);
            }
            lemma_front_kept(a, b, d, by);
        }
    }
}

// ---------------------------------------------------------------------------
// The rules.

proof fn lemma_rank_in(rules: Seq<(Seq<char>, Seq<char>)>, n: nat, k: int)
    requires
        0 <= k <= rules.len(),
    ensures
        k <= rank(rules, n, k) <= rules.len(),
    decreases rules.len() - k,
{
    if k < rules.len() && crate::invocation::byte_len(rules[k].0) >= n {
        lemma_rank_in(rules, n, k + 1);
    }
}

proof fn lemma_with_rule(rules: Seq<(Seq<char>, Seq<char>)>, d: Seq<char>, token: Seq<char>)
    ensures
        with_rule(rules, d, token).contains((d, token)),
        forall|r: (Seq<char>, Seq<char>)| #[trigger] rules.contains(r) ==> with_rule(rules, d, token).contains(r),
{
    let i = rank(rules, crate::invocation::byte_len(d), 0);
    lemma_rank_in(rules, crate::invocation::byte_len(d), 0);
    let more = with_rule(rules, d, token);
    assert(more[i] == (d, token));
    assert forall|r: (Seq<char>, Seq<char>)| #[trigger] rules.contains(r) implies more.contains(r) by {
        let k = choose|k: int| 0 <= k < rules.len() && rules[k] == r;
        if k < i {
            assert(more[k] == r);
        } else {
            assert(more[k + 1] == r);
        }
    }
}

proof fn lemma_with_real(rules: Seq<(Seq<char>, Seq<char>)>, d: Seq<char>, behind: Option<Seq<char>>, token: Seq<char>)
    ensures
        with_real(rules, d, behind, token).contains((d, token)),
        behind matches Some(c) ==> same_place(c, d) || with_real(rules, d, behind, token).contains((c, token)),
        forall|r: (Seq<char>, Seq<char>)| #[trigger] rules.contains(r) ==> with_real(rules, d, behind, token).contains(r),
{
    lemma_with_rule(rules, d, token);
    let one = with_rule(rules, d, token);
    if let Some(c) = behind {
        lemma_with_rule(one, c, token);
    }
    assert forall|r: (Seq<char>, Seq<char>)| #[trigger] rules.contains(r) implies with_real(rules, d, behind, token).contains(r) by {
        assert(one.contains(r));
    }
}

/// Every directory in a text has its rule.
proof fn lemma_all_done(t: Seq<Part>, p: Place, k: int)
    requires
        0 <= k < t.len(),
        !(t[k] is Char),
    ensures
        is_done(t, p, place_rules(p).len() as int, k),
{
    let first = with_real(Seq::empty(), p.target, p.real_target, "{TARGET}"@);
    lemma_with_real(Seq::empty(), p.target, p.real_target, "{TARGET}"@);
    lemma_with_real(first, p.root, p.real_root, "{WS}"@);
    let r = (part_text(t[k], p), part_token(t[k]));
    if t[k] is Target {
        assert(first.contains(r));
    }
    assert(place_rules(p).contains(r));
    let i = choose|i: int| 0 <= i < place_rules(p).len() && place_rules(p)[i] == r;
    assert(is_by_rule(t, p, k, place_rules(p)[i]));
}

proof fn lemma_last_stage(t: Seq<Part>, p: Place, k: int)
    requires
        0 <= k <= t.len(),
    ensures
        stage_from(t, p, place_rules(p).len() as int, k) == tokens_from(t, k),
        stage_from(t, p, 0, k) == text_from(t, p, k),
    decreases t.len() - k,
{
    if k < t.len() {
        lemma_last_stage(t, p, k + 1);
        if !(t[k] is Char) {
            lemma_all_done(t, p, k);
        }
    }
}

proof fn lemma_stages(t: Seq<Part>, p: Place, n: int)
    requires
        is_place(p),
        only_in_parts(t, p),
        0 <= n <= place_rules(p).len(),
    ensures
        normal_upto(place_rules(p), text_at(t, p), n) == stage_from(t, p, n, 0),
    decreases n,
{
    if n > 0 {
        lemma_stages(t, p, n - 1);
        lemma_stage(t, p, n - 1, 0);
    } else {
        lemma_last_stage(t, p, 0);
    }
}

/// The normal form of a text: the target directory has become `{TARGET}` and the workspace `{WS}`, by the names that were
/// given and by those behind links, and the rest is as it was.
pub proof fn law_places_become_tokens(t: Seq<Part>, p: Place)
    requires
        is_place(p),
        only_in_parts(t, p),
    ensures
        normal(place_rules(p), text_at(t, p)) == tokens_from(t, 0),
{
    lemma_stages(t, p, place_rules(p).len() as int);
    lemma_last_stage(t, p, 0);
}

/// Texts that only differ in where the target directory and the workspace are have one normal form.
pub proof fn law_one_normal_form_everywhere(t: Seq<Part>, p: Place, q: Place)
    requires
        is_place(p),
        is_place(q),
        only_in_parts(t, p),
        only_in_parts(t, q),
    ensures
        normal(place_rules(p), text_at(t, p)) == normal(place_rules(q), text_at(t, q)),
{
    law_places_become_tokens(t, p);
    law_places_become_tokens(t, q);
}

// ---------------------------------------------------------------------------
// Calls.

/// A call whose texts speak of a place.
pub struct Call {
    pub program: Seq<Part>,
    pub args: Seq<(Seq<Part>, bool)>,
    pub env: Map<Seq<char>, (Seq<Part>, bool)>,
    pub cwd: Seq<Part>,
    pub path_prepend: Seq<Seq<Part>>,
}

/// The call at a place.
pub open spec fn call_in(c: Call, p: Place) -> InvocationView {
    InvocationView {
        program: text_at(c.program, p),
        args: Seq::new(c.args.len(), |i: int| (text_at(c.args[i].0, p), c.args[i].1)),
        env: Map::new(|k: Seq<char>| c.env.contains_key(k), |k: Seq<char>| (text_at(c.env[k].0, p), c.env[k].1)),
        cwd: text_at(c.cwd, p),
        path_prepend: Seq::new(c.path_prepend.len(), |i: int| text_at(c.path_prepend[i], p)),
    }
}

/// In each text the directories occur only where their parts are.
pub open spec fn call_is_clear(c: Call, p: Place) -> bool {
    &&& only_in_parts(c.program, p)
    &&& only_in_parts(c.cwd, p)
    &&& forall|i: int| 0 <= i < c.args.len() ==> only_in_parts((#[trigger] c.args[i]).0, p)
    &&& forall|k: Seq<char>| #[trigger] c.env.contains_key(k) ==> only_in_parts(c.env[k].0, p)
}

/// Same inputs, different worktree, same key: the same call in two worktrees is hashed alike.
pub proof fn law_the_worktree_does_not_matter(c: Call, p: Place, q: Place)
    requires
        is_place(p),
        is_place(q),
        call_is_clear(c, p),
        call_is_clear(c, q),
        c.env.dom().finite(),
    ensures
        hashed_data(place_rules(p), call_in(c, p)) == hashed_data(place_rules(q), call_in(c, q)),
{
    let r1 = place_rules(p);
    let r2 = place_rules(q);
    let i1 = call_in(c, p);
    let i2 = call_in(c, q);
    law_one_normal_form_everywhere(c.program, p, q);
    law_one_normal_form_everywhere(c.cwd, p, q);
    assert forall|i: int| 0 <= i < i1.args.len() implies (#[trigger] i1.args[i]).1 == i2.args[i].1 && normal(r1, i1.args[i].0)
        == normal(r2, i2.args[i].0) by {
        assert(only_in_parts(c.args[i].0, p) && only_in_parts(c.args[i].0, q));
        law_one_normal_form_everywhere(c.args[i].0, p, q);
    }
    assert(i1.env.dom() =~= c.env.dom());
    assert(i2.env.dom() =~= c.env.dom());
    assert forall|k: Seq<char>| #[trigger] i1.env.contains_key(k) implies i1.env[k].1 == i2.env[k].1 && normal(r1, i1.env[k].0)
        == normal(r2, i2.env[k].0) by {
        assert(c.env.contains_key(k));
        law_one_normal_form_everywhere(c.env[k].0, p, q);
    }
    lemma_same_normal_forms(r1, i1, r2, i2);
}

// ---------------------------------------------------------------------------
// Names and keys.

/// The two units are compiled by the same compiler, in the same way and for the same platform.
pub open spec fn same_setup(a: Ctx, u: Unit, b: Ctx, v: Unit) -> bool {
    &&& a.rustc.id@ == b.rustc.id@
    &&& u.mode == v.mode
    &&& (u.kind is Host) == (v.kind is Host)
    &&& u.kind is Target ==> a.at(u.kind).cross.fingerprint@ == b.at(v.kind).cross.fingerprint@
    &&& u.mode == Mode::RunCustomBuild ==> a.host_fingerprint@ == b.host_fingerprint@
}

/// The two packages are the same one: from the same place elsewhere, or at the same place in each worktree.
pub open spec fn same_package(a: Pkg, b: Pkg, root: Seq<Part>, p: Place, q: Place) -> bool {
    &&& a.name@ == b.name@
    &&& a.version@ == b.version@
    &&& a.source.local() == b.source.local()
    &&& !a.source.local() ==> a.identity@ == b.identity@
    &&& a.source.local() ==> a.root@ == text_at(root, p) && b.root@ == text_at(root, q) && only_in_parts(root, p) && only_in_parts(
        root,
        q,
    )
}

/// Same inputs, different worktree, same name: a unit with the same call, of the same package and with dependencies of the
/// same names.
pub proof fn law_one_name_in_every_worktree(
    a: Ctx,
    u: Unit,
    x: Seq<Option<Planned>>,
    b: Ctx,
    v: Unit,
    y: Seq<Option<Planned>>,
    c: Call,
    root: Seq<Part>,
    p: Place,
    q: Place,
)
    requires
        is_place(p),
        is_place(q),
        a.norm@ == place_rules(p),
        b.norm@ == place_rules(q),
        call_is_clear(c, p),
        call_is_clear(c, q),
        c.env.dom().finite(),
        same_setup(a, u, b, v),
        same_package(a.pkgs()[u.pkg as int], b.pkgs()[v.pkg as int], root, p, q),
        dep_names(x, u.deps@, u.deps@.len() as int) == dep_names(y, v.deps@, v.deps@.len() as int),
    ensures
        unit_name(a, u, x, call_in(c, p)) == unit_name(b, v, y, call_in(c, q)),
{
    law_the_worktree_does_not_matter(c, p, q);
    if a.pkgs()[u.pkg as int].source.local() {
        law_one_normal_form_everywhere(root, p, q);
    }
}

/// Same inputs, different worktree, same key: a unit with the same call, of the same package and sources, and with
/// dependencies of the same keys.
pub proof fn law_one_key_in_every_worktree(
    a: Ctx,
    u: Unit,
    x: Seq<Option<Planned>>,
    d: Draft,
    seen1: Seen,
    roots1: Seq<Seq<char>>,
    b: Ctx,
    v: Unit,
    y: Seq<Option<Planned>>,
    e: Draft,
    seen2: Seen,
    roots2: Seq<Seq<char>>,
    c: Call,
    root: Seq<Part>,
    prediction: Option<PredictionView>,
    p: Place,
    q: Place,
)
    requires
        is_place(p),
        is_place(q),
        a.norm@ == place_rules(p),
        b.norm@ == place_rules(q),
        call_is_clear(c, p),
        call_is_clear(c, q),
        c.env.dom().finite(),
        d.line@ == line_hash(a, call_in(c, p)),
        e.line@ == line_hash(b, call_in(c, q)),
        same_setup(a, u, b, v),
        same_package(a.pkgs()[u.pkg as int], b.pkgs()[v.pkg as int], root, p, q),
        seen1.tree@ == seen2.tree@,
        opt_views(seen1.sources@) == opt_views(seen2.sources@),
        dep_keys(x, u.deps@, u.deps@.len() as int) == dep_keys(y, v.deps@, v.deps@.len() as int),
    ensures
        finished_plan(a, roots1, u, x, d, prediction, seen1).key == finished_plan(b, roots2, v, y, e, prediction, seen2).key,
{
    law_the_worktree_does_not_matter(c, p, q);
}

} // verus!
