//! Same inputs, different worktree, same key: texts that only differ in where the worktree is have one normal form.

use vstd::prelude::*;
use vstd::utf8::encode_utf8;
use crate::exec::lemma_replaced_shift;
use crate::invocation::byte_len;
use crate::invocation::normal;
use crate::invocation::normal_upto;
use crate::invocation::rank;
use crate::invocation::with_real;
use crate::invocation::with_rule;
use crate::path::absolute;
use crate::path::under;
use crate::text::ends;
use crate::text::occurs_at;
use crate::text::replaced;
use crate::text::replaced_from;
use crate::text::starts;

verus! {

// ---------------------------------------------------------------------------
// Texts that speak of a worktree.

/// A piece of a text: a character, or the directory of the worktree.
pub enum Piece {
    Worktree,
    Char(char),
}

pub open spec fn piece_text(p: Piece, w: Seq<char>) -> Seq<char> {
    match p {
        Piece::Worktree => w,
        Piece::Char(c) => seq![c],
    }
}

/// The text from the piece `k` on, in a worktree.
pub open spec fn filled_from(t: Seq<Piece>, w: Seq<char>, k: int) -> Seq<char>
    decreases t.len() - k,
{
    if k < 0 || k >= t.len() {
        Seq::empty()
    } else {
        piece_text(t[k], w) + filled_from(t, w, k + 1)
    }
}

/// The text in a worktree.
pub open spec fn filled(t: Seq<Piece>, w: Seq<char>) -> Seq<char> {
    filled_from(t, w, 0)
}

/// Where the piece `k` starts in the text.
pub open spec fn offset(t: Seq<Piece>, w: Seq<char>, k: int) -> int
    decreases k,
{
    if k <= 0 || k > t.len() {
        0
    } else {
        offset(t, w, k - 1) + piece_text(t[k - 1], w).len()
    }
}

/// The pieces from `k` on spell `/target`.
pub open spec fn spells_target(t: Seq<Piece>, k: int) -> bool {
    &&& k + 7 <= t.len()
    &&& t[k] == Piece::Char('/')
    &&& t[k + 1] == Piece::Char('t')
    &&& t[k + 2] == Piece::Char('a')
    &&& t[k + 3] == Piece::Char('r')
    &&& t[k + 4] == Piece::Char('g')
    &&& t[k + 5] == Piece::Char('e')
    &&& t[k + 6] == Piece::Char('t')
}

/// The text from the piece `k` on with tokens: the target directory in the worktree has one of its own.
pub open spec fn tokens_from(t: Seq<Piece>, k: int) -> Seq<char>
    decreases t.len() - k,
{
    if k < 0 || k >= t.len() {
        Seq::empty()
    } else {
        match t[k] {
            Piece::Worktree => if spells_target(t, k + 1) {
                "{TARGET}"@ + tokens_from(t, k + 8)
            } else {
                "{WS}"@ + tokens_from(t, k + 1)
            },
            Piece::Char(c) => seq![c] + tokens_from(t, k + 1),
        }
    }
}

/// The rules of a worktree whose target directory is in it, and which is reached by no link.
pub open spec fn rules_of(w: Seq<char>) -> Seq<(Seq<char>, Seq<char>)> {
    with_real(with_real(Seq::empty(), under(w, "target"@), None, "{TARGET}"@), w, None, "{WS}"@)
}

/// No end of the directory and no start of it runs together with the token: neither does one that is in front of a token
/// go on with it, nor does it hold one.
pub open spec fn before_token(w: Seq<char>, token: Seq<char>) -> bool {
    forall|p: int| 0 <= p < w.len() ==> !starts(#[trigger] w.skip(p), token) && !starts(token, w.skip(p))
}

/// A directory that a worktree can be in: absolute, not the root, and written without a slash at its end.
pub open spec fn is_worktree(w: Seq<char>) -> bool {
    absolute(w) && w.len() > 1 && !ends(w, "/"@) && before_token(w, "{TARGET}"@)
}

/// In the text the worktree occurs where its pieces are, and nowhere else; and no two of its pieces run together to
/// spell its target directory.
pub open spec fn only_at_pieces(t: Seq<Piece>, w: Seq<char>) -> bool {
    &&& forall|i: int| #[trigger]
        occurs_at(filled(t, w), w, i) ==> exists|k: int| 0 <= k < t.len() && #[trigger] t[k] is Worktree && i == offset(t, w, k)
    &&& forall|k: int|
        0 <= k < t.len() - 1 && #[trigger] t[k] is Worktree && t[k + 1] is Worktree ==> !starts(filled_from(t, w, k + 1), "/target"@)
}

// ---------------------------------------------------------------------------
// Where things are.

proof fn lemma_filled(t: Seq<Piece>, w: Seq<char>, k: int)
    requires
        0 <= k <= t.len(),
    ensures
        0 <= offset(t, w, k) <= filled(t, w).len(),
        filled(t, w).skip(offset(t, w, k)) == filled_from(t, w, k),
    decreases k,
{
    let s = filled(t, w);
    if k > 0 {
        lemma_filled(t, w, k - 1);
        let a = piece_text(t[k - 1], w);
        let o = offset(t, w, k - 1);
        assert(filled_from(t, w, k - 1) == a + filled_from(t, w, k));
        assert(s.skip(o).len() == s.len() - o);
        assert(s.skip(o + a.len()) =~= s.skip(o).skip(a.len() as int));
        assert((a + filled_from(t, w, k)).skip(a.len() as int) =~= filled_from(t, w, k));
    } else {
        assert(s.skip(0) =~= s);
    }
}

proof fn lemma_offsets(t: Seq<Piece>, w: Seq<char>, a: int, b: int)
    requires
        0 <= a < b <= t.len(),
        w.len() > 0,
    ensures
        offset(t, w, a) + piece_text(t[a], w).len() <= offset(t, w, b),
        offset(t, w, a) < offset(t, w, b),
    decreases b - a,
{
    if a + 1 < b {
        lemma_offsets(t, w, a, b - 1);
    }
}

/// In the text from the piece `k` on the worktree does not occur inside that piece.
proof fn lemma_not_inside(t: Seq<Piece>, w: Seq<char>, k: int, i: int)
    requires
        w.len() > 0,
        only_at_pieces(t, w),
        0 <= k < t.len(),
        0 <= i < piece_text(t[k], w).len(),
        t[k] is Worktree ==> i > 0,
    ensures
        !occurs_at(filled_from(t, w, k), w, i),
{
    let f = filled_from(t, w, k);
    if occurs_at(f, w, i) {
        let s = filled(t, w);
        let o = offset(t, w, k);
        lemma_filled(t, w, k);
        assert(f == s.skip(o));
        assert(s.subrange(o + i, o + i + w.len()) =~= f.subrange(i, i + w.len()));
        assert(occurs_at(s, w, o + i));
        let m = choose|m: int| 0 <= m < t.len() && #[trigger] t[m] is Worktree && o + i == offset(t, w, m);
        if m < k {
            lemma_offsets(t, w, m, k);
        } else if m > k {
            lemma_offsets(t, w, k, m);
        }
    }
}

pub proof fn lemma_starts(a: Seq<char>, p: Seq<char>, j: int)
    requires
        starts(a, p),
        0 <= j < p.len(),
    ensures
        j < a.len(),
        a[j] == p[j],
{
    assert(a.subrange(0, p.len() as int)[j] == a[j]);
}

/// Where the text behind a piece of the worktree goes on with `/target`, the pieces spell it.
proof fn lemma_spelled(t: Seq<Piece>, w: Seq<char>, k: int)
    requires
        is_worktree(w),
        only_at_pieces(t, w),
        0 <= k < t.len(),
        t[k] is Worktree,
        starts(filled_from(t, w, k + 1), "/target"@),
    ensures
        spells_target(t, k + 1),
        filled_from(t, w, k + 1) == "/target"@ + filled_from(t, w, k + 8),
{
    reveal_strlit("/target");
    reveal_strlit("/");
    let p = "/target"@;
    lemma_spelled_upto(t, w, k, 7);
    let f = filled_from(t, w, k + 1);
    assert(f =~= p + filled_from(t, w, k + 8));
    assert(t[k + 1] == Piece::Char(p[0]));
    assert(t[k + 1 + 1] == Piece::Char(p[1]));
    assert(t[k + 1 + 2] == Piece::Char(p[2]));
    assert(t[k + 1 + 3] == Piece::Char(p[3]));
    assert(t[k + 1 + 4] == Piece::Char(p[4]));
    assert(t[k + 1 + 5] == Piece::Char(p[5]));
    assert(t[k + 1 + 6] == Piece::Char(p[6]));
}

proof fn lemma_spelled_upto(t: Seq<Piece>, w: Seq<char>, k: int, n: int)
    requires
        w.len() > 0,
        w[0] == '/',
        only_at_pieces(t, w),
        0 <= k < t.len(),
        t[k] is Worktree,
        starts(filled_from(t, w, k + 1), "/target"@),
        0 <= n <= 7,
    ensures
        k + 1 + n <= t.len(),
        forall|j: int| 0 <= j < n ==> #[trigger] t[k + 1 + j] == Piece::Char("/target"@[j]),
        filled_from(t, w, k + 1) == "/target"@.take(n) + filled_from(t, w, k + 1 + n),
    decreases n,
{
    reveal_strlit("/target");
    let p = "/target"@;
    let f = filled_from(t, w, k + 1);
    if n > 0 {
        lemma_spelled_upto(t, w, k, n - 1);
        let m = k + n;
        let rest = filled_from(t, w, m);
        lemma_starts(f, p, n - 1);
        assert(f[n - 1] == rest[0]) by {
            assert(p.take(n - 1).len() == n - 1);
        }
        assert(rest.len() > 0);
        assert(m < t.len());
        if t[m] is Worktree {
            assert(rest[0] == w[0]);
            if n == 1 {
                assert(t[k] is Worktree && t[k + 1] is Worktree);
            }
        }
        assert(t[m] is Char);
        assert(rest =~= seq![p[n - 1]] + filled_from(t, w, m + 1));
        assert(t[k + 1 + (n - 1)] == Piece::Char(p[n - 1]));
        assert(p.take(n) =~= p.take(n - 1).push(p[n - 1]));
        assert(f =~= p.take(n) + filled_from(t, w, m + 1));
    } else {
        assert(p.take(0) + f =~= f);
    }
}

// ---------------------------------------------------------------------------
// The two replacements.

/// Where nothing occurs, nothing is replaced.
proof fn lemma_kept(s: Seq<char>, p: Seq<char>, by: Seq<char>, i: int, n: int)
    requires
        0 <= i <= n <= s.len(),
        forall|j: int| i <= j < n ==> !#[trigger] occurs_at(s, p, j),
    ensures
        replaced_from(s, p, by, i) == s.subrange(i, n) + replaced_from(s, p, by, n),
    decreases n - i,
{
    if i < n {
        lemma_kept(s, p, by, i + 1, n);
        assert(!occurs_at(s, p, i));
        assert(s.subrange(i, n) =~= seq![s[i]] + s.subrange(i + 1, n));
        assert(replaced_from(s, p, by, i) =~= s.subrange(i, n) + replaced_from(s, p, by, n));
    } else {
        assert(s.subrange(i, n) + replaced_from(s, p, by, n) =~= replaced_from(s, p, by, n));
    }
}

/// A text in front of another that nothing occurs in stays.
pub proof fn lemma_front_kept(a: Seq<char>, b: Seq<char>, p: Seq<char>, by: Seq<char>)
    requires
        p.len() > 0,
        forall|j: int| 0 <= j < a.len() ==> !#[trigger] occurs_at(a + b, p, j),
    ensures
        replaced(a + b, p, by) == a + replaced(b, p, by),
{
    lemma_kept(a + b, p, by, 0, a.len() as int);
    assert((a + b).subrange(0, a.len() as int) =~= a);
    lemma_replaced_shift(a, b, p, by, 0);
}

/// A text in front of another that is to be replaced is.
pub proof fn lemma_front_replaced(p: Seq<char>, b: Seq<char>, by: Seq<char>)
    requires
        p.len() > 0,
    ensures
        replaced(p + b, p, by) == by + replaced(b, p, by),
{
    assert((p + b).subrange(0, p.len() as int) =~= p);
    assert(occurs_at(p + b, p, 0));
    lemma_replaced_shift(p, b, p, by, 0);
}

/// The text from the piece `k` on, with tokens for the target directory alone.
spec fn half_from(t: Seq<Piece>, w: Seq<char>, k: int) -> Seq<char>
    decreases t.len() - k,
{
    if k < 0 || k >= t.len() {
        Seq::empty()
    } else if t[k] is Worktree && spells_target(t, k + 1) {
        "{TARGET}"@ + half_from(t, w, k + 8)
    } else {
        piece_text(t[k], w) + half_from(t, w, k + 1)
    }
}

proof fn lemma_spelling(t: Seq<Piece>, w: Seq<char>, k: int)
    requires
        0 <= k,
        spells_target(t, k),
    ensures
        filled_from(t, w, k) == "/target"@ + filled_from(t, w, k + 7),
{
    reveal_strlit("/target");
    reveal_with_fuel(filled_from, 8);
    assert(filled_from(t, w, k) =~= "/target"@ + filled_from(t, w, k + 7));
}

proof fn lemma_half(t: Seq<Piece>, w: Seq<char>, k: int)
    requires
        is_worktree(w),
        only_at_pieces(t, w),
        0 <= k <= t.len(),
    ensures
        replaced(filled_from(t, w, k), w + "/target"@, "{TARGET}"@) == half_from(t, w, k),
    decreases t.len() - k,
{
    reveal_strlit("/target");
    let p = w + "/target"@;
    let by = "{TARGET}"@;
    if k < t.len() {
        let a = piece_text(t[k], w);
        let b = filled_from(t, w, k + 1);
        let f = filled_from(t, w, k);
        assert(f == a + b);
        if t[k] is Worktree && spells_target(t, k + 1) {
            lemma_spelling(t, w, k + 1);
            let c = filled_from(t, w, k + 8);
            assert(f =~= p + c);
            lemma_front_replaced(p, c, by);
            lemma_half(t, w, k + 8);
        } else {
            assert forall|j: int| 0 <= j < a.len() implies !#[trigger] occurs_at(a + b, p, j) by {
                if occurs_at(a + b, p, j) {
                    assert((a + b).subrange(j, j + w.len()) =~= (a + b).subrange(j, j + p.len()).subrange(0, w.len() as int));
                    assert(p.subrange(0, w.len() as int) =~= w);
                    assert(occurs_at(a + b, w, j));
                    if t[k] is Worktree && j == 0 {
                        assert((a + b).subrange(0, p.len() as int) == p);
                        assert(b.subrange(0, 7) =~= p.subrange(w.len() as int, w.len() as int + 7));
                        assert(p.subrange(w.len() as int, w.len() as int + 7) =~= "/target"@);
                        lemma_spelled(t, w, k);
                    } else {
                        lemma_not_inside(t, w, k, j);
                    }
                }
            }
            lemma_front_kept(a, b, p, by);
            lemma_half(t, w, k + 1);
        }
    }
}

/// Where a half normal text starts with an end of the directory, the text itself does: a token is no part of it.
proof fn lemma_half_starts(t: Seq<Piece>, w: Seq<char>, k: int, p: int)
    requires
        0 <= k,
        0 <= p <= w.len(),
        before_token(w, "{TARGET}"@),
        starts(half_from(t, w, k), w.skip(p)),
    ensures
        starts(filled_from(t, w, k), w.skip(p)),
    decreases t.len() - k,
{
    let x = w.skip(p);
    let h = half_from(t, w, k);
    let f = filled_from(t, w, k);
    if x.len() == 0 {
        assert(f.subrange(0, 0) =~= x);
    } else {
        lemma_starts(h, x, 0);
        assert(k < t.len());
        if t[k] is Worktree && spells_target(t, k + 1) {
            reveal_strlit("{TARGET}");
            let a = "{TARGET}"@;
            assert(h == a + half_from(t, w, k + 8));
            if x.len() <= a.len() {
                assert(a.subrange(0, x.len() as int) =~= h.subrange(0, x.len() as int));
                assert(starts(a, w.skip(p)));
            } else {
                assert(x.subrange(0, a.len() as int) =~= a) by {
                    assert forall|i: int| 0 <= i < a.len() implies x[i] == a[i] by {
                        lemma_starts(h, x, i);
                    }
                }
                assert(starts(w.skip(p), a));
            }
        } else {
            let a = piece_text(t[k], w);
            let g = half_from(t, w, k + 1);
            let b = filled_from(t, w, k + 1);
            assert(h == a + g && f == a + b);
            assert(h.subrange(0, x.len() as int) == x);
            if x.len() <= a.len() {
                assert(f.subrange(0, x.len() as int) =~= h.subrange(0, x.len() as int));
            } else {
                let y = w.skip(p + a.len());
                assert(y =~= x.skip(a.len() as int));
                assert(g.subrange(0, y.len() as int) =~= y) by {
                    assert forall|i: int| 0 <= i < y.len() implies g[i] == y[i] by {
                        lemma_starts(h, x, a.len() + i);
                        assert(h[a.len() + i] == g[i]);
                    }
                }
                lemma_half_starts(t, w, k + 1, p + a.len());
                assert(f.subrange(0, x.len() as int) =~= x) by {
                    assert forall|i: int| 0 <= i < x.len() implies f[i] == x[i] by {
                        lemma_starts(h, x, i);
                        if i >= a.len() {
                            lemma_starts(b, y, i - a.len());
                        }
                    }
                }
            }
        }
    }
}

proof fn lemma_whole(t: Seq<Piece>, w: Seq<char>, k: int)
    requires
        is_worktree(w),
        only_at_pieces(t, w),
        0 <= k <= t.len(),
    ensures
        replaced(half_from(t, w, k), w, "{WS}"@) == tokens_from(t, k),
    decreases t.len() - k,
{
    reveal_strlit("{TARGET}");
    reveal_strlit("/");
    let by = "{WS}"@;
    if k < t.len() {
        if t[k] is Worktree && spells_target(t, k + 1) {
            let a = "{TARGET}"@;
            let b = half_from(t, w, k + 8);
            assert forall|j: int| 0 <= j < a.len() implies !#[trigger] occurs_at(a + b, w, j) by {
                if occurs_at(a + b, w, j) {
                    assert((a + b).subrange(j, j + w.len())[0] == a[j]);
                }
            }
            lemma_front_kept(a, b, w, by);
            lemma_whole(t, w, k + 8);
        } else {
            let a = piece_text(t[k], w);
            let b = half_from(t, w, k + 1);
            lemma_whole(t, w, k + 1);
            match t[k] {
                Piece::Worktree => {
                    lemma_front_replaced(w, b, by);
                },
                Piece::Char(c) => {
                    assert forall|j: int| 0 <= j < a.len() implies !#[trigger] occurs_at(a + b, w, j) by {
                        if occurs_at(a + b, w, j) {
                            assert(starts(half_from(t, w, k), w));
                            assert(w.skip(0) =~= w);
                            lemma_half_starts(t, w, k, 0);
                            lemma_not_inside(t, w, k, 0);
                        }
                    }
                    lemma_front_kept(a, b, w, by);
                },
            }
        }
    }
}

// ---------------------------------------------------------------------------
// The rules.

proof fn lemma_utf8_longer(a: Seq<char>, b: Seq<char>)
    ensures
        encode_utf8(a + b).len() >= encode_utf8(a).len(),
    decreases a.len(),
{
    if a.len() > 0 {
        let c = a + b;
        assert(c.drop_first() =~= a.drop_first() + b);
        lemma_utf8_longer(a.drop_first(), b);
    }
}

proof fn lemma_rules(w: Seq<char>)
    requires
        is_worktree(w),
    ensures
        rules_of(w) == seq![(w + "/target"@, "{TARGET}"@), (w, "{WS}"@)],
{
    reveal_strlit("target");
    reveal_strlit("/target");
    reveal_strlit("/");
    assert("/target"@ =~= "/"@ + "target"@);
    let p = under(w, "target"@);
    assert(w.last() != '/') by {
        if w.last() == '/' {
            assert(w.subrange(w.len() - 1, w.len() as int) =~= "/"@);
        }
    }
    assert(p =~= w + "/target"@);
    lemma_utf8_longer(w, "/target"@);
    let one = with_rule(Seq::empty(), p, "{TARGET}"@);
    assert(rank(Seq::<(Seq<char>, Seq<char>)>::empty(), byte_len(p), 0) == 0);
    assert(one =~= seq![(p, "{TARGET}"@)]);
    assert(rank(one, byte_len(w), 1) == 1);
    assert(rank(one, byte_len(w), 0) == 1);
    assert(rules_of(w) =~= seq![(p, "{TARGET}"@), (w, "{WS}"@)]);
}

/// The normal form of a text: each directory of the worktree has become its token, `{TARGET}` for the target directory
/// in it, and the rest is as it was. It does not depend on where the worktree is.
pub proof fn law_worktrees_become_tokens(t: Seq<Piece>, w: Seq<char>)
    requires
        is_worktree(w),
        only_at_pieces(t, w),
    ensures
        normal(rules_of(w), filled(t, w)) == tokens_from(t, 0),
{
    lemma_rules(w);
    lemma_half(t, w, 0);
    lemma_whole(t, w, 0);
    let r = rules_of(w);
    let s = filled(t, w);
    assert(r.len() == 2);
    assert(normal_upto(r, s, 0) == s);
    assert(normal_upto(r, s, 1) == replaced(s, r[0].0, r[0].1));
    assert(normal_upto(r, s, 2) == replaced(normal_upto(r, s, 1), r[1].0, r[1].1));
}

/// Texts that only differ in the worktree have one normal form.
pub proof fn law_one_normal_form(t: Seq<Piece>, w1: Seq<char>, w2: Seq<char>)
    requires
        is_worktree(w1),
        is_worktree(w2),
        only_at_pieces(t, w1),
        only_at_pieces(t, w2),
    ensures
        normal(rules_of(w1), filled(t, w1)) == normal(rules_of(w2), filled(t, w2)),
{
    law_worktrees_become_tokens(t, w1);
    law_worktrees_become_tokens(t, w2);
}

} // verus!
