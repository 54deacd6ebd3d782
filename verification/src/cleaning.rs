//! What cleaning a path does to it.

use vstd::prelude::*;
use crate::exec::clean;
use crate::exec::cleaned;
use crate::path::absolute;
use crate::path::named_upto;
use crate::path::parts;
use crate::path::path_of;
use crate::text::first_at;
use crate::text::join_upto;
use crate::text::joined;
use crate::text::lemma_first_at;
use crate::text::pieces;
use crate::text::pieces_from;

verus! {

/// A name between slashes.
pub open spec fn is_part(s: Seq<char>) -> bool {
    s.len() > 0 && !s.contains('/')
}

proof fn lemma_pieces(s: Seq<char>, from: int)
    requires
        0 <= from <= s.len(),
    ensures
        forall|i: int| 0 <= i < pieces_from(s, '/', from).len() ==> !(#[trigger] pieces_from(s, '/', from)[i]).contains('/'),
    decreases s.len() - from,
{
    let i = first_at(s, '/', from);
    lemma_first_at(s, '/', from);
    let all = pieces_from(s, '/', from);
    let x = s.subrange(from, i);
    assert(!x.contains('/')) by {
        if x.contains('/') {
            let j = choose|j: int| 0 <= j < x.len() && x[j] == '/';
            assert(s[from + j] == '/');
        }
    }
    if i < s.len() {
        lemma_pieces(s, i + 1);
        let rest = pieces_from(s, '/', i + 1);
        assert(all == seq![x] + rest);
        assert forall|j: int| 0 <= j < all.len() implies !(#[trigger] all[j]).contains('/') by {
            if j > 0 {
                assert(all[j] == rest[j - 1]);
            }
        }
    } else {
        assert(s.skip(from) =~= x);
        assert forall|j: int| 0 <= j < all.len() implies !(#[trigger] all[j]).contains('/') by {
            assert(all[j] == s.skip(from));
        }
    }
}

proof fn lemma_named(s: Seq<Seq<char>>, k: int)
    requires
        0 <= k <= s.len(),
        forall|i: int| 0 <= i < s.len() ==> !(#[trigger] s[i]).contains('/'),
    ensures
        forall|i: int| 0 <= i < named_upto(s, k).len() ==> is_part(#[trigger] named_upto(s, k)[i]),
    decreases k,
{
    if k > 0 {
        lemma_named(s, k - 1);
        let a = named_upto(s, k - 1);
        let b = named_upto(s, k);
        assert forall|i: int| 0 <= i < b.len() implies is_part(#[trigger] b[i]) by {
            if i < a.len() {
                assert(b[i] == a[i]);
            }
        }
    }
}

proof fn lemma_parts(p: Seq<char>)
    ensures
        forall|i: int| 0 <= i < parts(p).len() ==> is_part(#[trigger] parts(p)[i]),
{
    lemma_pieces(p, 0);
    lemma_named(pieces(p, '/'), pieces(p, '/').len() as int);
}

/// Parts that are neither `.` nor `..`.
pub open spec fn no_dots(ps: Seq<Seq<char>>) -> bool {
    forall|i: int| 0 <= i < ps.len() ==> is_part(#[trigger] ps[i]) && ps[i] != "."@ && ps[i] != ".."@
}

proof fn lemma_cleaned(ps: Seq<Seq<char>>, k: int)
    requires
        0 <= k <= ps.len(),
        forall|i: int| 0 <= i < ps.len() ==> is_part(#[trigger] ps[i]),
    ensures
        no_dots(cleaned(ps, k)),
    decreases k,
{
    if k > 0 {
        lemma_cleaned(ps, k - 1);
        let a = cleaned(ps, k - 1);
        let b = cleaned(ps, k);
        assert forall|i: int| 0 <= i < b.len() implies is_part(#[trigger] b[i]) && b[i] != "."@ && b[i] != ".."@ by {
            if i < a.len() {
                assert(b[i] == a[i]);
            } else {
                assert(b[i] == ps[k - 1]);
            }
        }
    }
}

/// Clean parts are cleaned already.
proof fn lemma_cleaned_again(ps: Seq<Seq<char>>, k: int)
    requires
        0 <= k <= ps.len(),
        no_dots(ps),
    ensures
        cleaned(ps, k) == ps.take(k),
    decreases k,
{
    if k > 0 {
        lemma_cleaned_again(ps, k - 1);
        assert(is_part(ps[k - 1]));
        assert(ps.take(k) =~= ps.take(k - 1).push(ps[k - 1]));
    } else {
        assert(ps.take(0) =~= Seq::<Seq<char>>::empty());
    }
}

proof fn lemma_first_skip(a: Seq<char>, b: Seq<char>, k: int)
    requires
        0 <= k <= b.len(),
    ensures
        first_at(a + b, '/', a.len() + k) == a.len() + first_at(b, '/', k),
    decreases b.len() - k,
{
    if k < b.len() {
        assert((a + b)[a.len() + k] == b[k]);
        if b[k] != '/' {
            lemma_first_skip(a, b, k + 1);
        }
    }
}

proof fn lemma_pieces_skip(a: Seq<char>, b: Seq<char>, k: int)
    requires
        0 <= k <= b.len(),
    ensures
        pieces_from(a + b, '/', a.len() + k) == pieces_from(b, '/', k),
    decreases b.len() - k,
{
    lemma_first_skip(a, b, k);
    lemma_first_at(b, '/', k);
    let s = a + b;
    let i = first_at(b, '/', k);
    if i < b.len() {
        lemma_pieces_skip(a, b, i + 1);
        assert(s.subrange(a.len() + k, a.len() + i) =~= b.subrange(k, i));
    } else {
        assert(s.skip(a.len() + k) =~= b.skip(k));
    }
}

proof fn lemma_first_none(a: Seq<char>, b: Seq<char>, k: int)
    requires
        0 <= k <= a.len(),
        !a.contains('/'),
        b.len() > 0 ==> b[0] == '/',
    ensures
        first_at(a + b, '/', k) == a.len(),
    decreases a.len() - k,
{
    let s = a + b;
    if k < a.len() {
        assert(s[k] == a[k]);
        assert(a.contains(a[k]));
        lemma_first_none(a, b, k + 1);
    } else if b.len() > 0 {
        assert(s[k] == b[0]);
    }
}

/// Names with slashes between them come apart again.
proof fn lemma_pieces_joined(ps: Seq<Seq<char>>)
    requires
        ps.len() > 0,
        no_dots(ps),
    ensures
        pieces(joined(ps, "/"@), '/') == ps,
    decreases ps.len(),
{
    reveal_strlit("/");
    let a = ps[0];
    let rest = ps.skip(1);
    assert(is_part(ps[0]));
    if rest.len() == 0 {
        assert(joined(ps, "/"@) == a);
        lemma_first_none(a, Seq::empty(), 0);
        assert(a + Seq::<char>::empty() =~= a);
        assert(a.skip(0) =~= a);
        assert(ps =~= seq![a]);
    } else {
        assert forall|i: int| 0 <= i < rest.len() implies is_part(#[trigger] rest[i]) && rest[i] != "."@ && rest[i] != ".."@ by {
            assert(rest[i] == ps[i + 1]);
        }
        lemma_joined_front(ps, ps.len() as int);
        let j = joined(rest, "/"@);
        let b = "/"@ + j;
        let s = joined(ps, "/"@);
        assert(s =~= a + b);
        lemma_first_none(a, b, 0);
        assert(first_at(s, '/', 0) == a.len());
        assert(s.subrange(0, a.len() as int) =~= a);
        assert(s =~= (a + "/"@) + j);
        lemma_pieces_skip(a + "/"@, j, 0);
        lemma_pieces_joined(rest);
        assert(pieces_from(s, '/', a.len() as int + 1) == rest);
        assert(ps =~= seq![a] + rest);
    }
}

proof fn lemma_joined_front(ps: Seq<Seq<char>>, n: int)
    requires
        2 <= n <= ps.len(),
    ensures
        join_upto(ps, "/"@, n) == ps[0] + "/"@ + join_upto(ps.skip(1), "/"@, n - 1),
    decreases n,
{
    let rest = ps.skip(1);
    if n > 2 {
        lemma_joined_front(ps, n - 1);
        assert(rest[n - 2] == ps[n - 1]);
        assert(join_upto(ps, "/"@, n) =~= ps[0] + "/"@ + join_upto(rest, "/"@, n - 1));
    } else {
        assert(join_upto(ps, "/"@, 1) == ps[0]);
        assert(join_upto(rest, "/"@, 1) == rest[0]);
    }
}

proof fn lemma_named_all(s: Seq<Seq<char>>, ps: Seq<Seq<char>>, n: int, root: bool)
    requires
        no_dots(ps),
        s == (if root {
            seq![Seq::<char>::empty()] + ps
        } else {
            ps
        }),
        0 <= n <= ps.len(),
    ensures
        named_upto(
            s,
            if root {
                n + 1
            } else {
                n
            },
        ) == ps.take(n),
    decreases n,
{
    let k = if root {
        n + 1
    } else {
        n
    };
    if n > 0 {
        lemma_named_all(s, ps, n - 1, root);
        assert(s[k - 1] == ps[n - 1]);
        assert(is_part(ps[n - 1]));
        assert(ps.take(n) =~= ps.take(n - 1).push(ps[n - 1]));
    } else {
        assert(ps.take(0) =~= Seq::<Seq<char>>::empty());
        if root {
            assert(s[0] == Seq::<char>::empty());
            assert(named_upto(s, 0) == Seq::<Seq<char>>::empty());
        }
    }
}

/// The path of clean parts has these parts.
proof fn lemma_parts_of_path(root: bool, ps: Seq<Seq<char>>)
    requires
        no_dots(ps),
    ensures
        parts(path_of(root, ps)) == ps,
        absolute(path_of(root, ps)) == root,
{
    reveal_strlit("/");
    reveal_strlit("");
    let j = joined(ps, "/"@);
    let s = path_of(root, ps);
    if ps.len() == 0 {
        assert(j =~= Seq::<char>::empty());
        if root {
            assert(s =~= "/"@);
            assert(s[0] == '/');
            assert(first_at(s, '/', 0) == 0);
            assert(first_at(s, '/', 1) == 1);
            let e = Seq::<char>::empty();
            assert(s.subrange(0, 0) =~= e);
            assert(s.skip(1) =~= e);
            let l = pieces(s, '/');
            assert(pieces_from(s, '/', 1) == seq![s.skip(1)]);
            assert(l =~= seq![e, e]);
            assert(named_upto(l, 0) == Seq::<Seq<char>>::empty());
            assert(named_upto(l, 1) == Seq::<Seq<char>>::empty());
            assert(named_upto(l, 2) == Seq::<Seq<char>>::empty());
        } else {
            assert(s =~= Seq::<char>::empty());
            let l = pieces(s, '/');
            assert(first_at(s, '/', 0) == 0);
            assert(l =~= seq![s.skip(0)]);
            assert(named_upto(l, 0) == Seq::<Seq<char>>::empty());
            assert(l[0].len() == 0);
            assert(named_upto(l, 1) == Seq::<Seq<char>>::empty());
        }
        assert(parts(s) =~= ps);
    } else {
        lemma_pieces_joined(ps);
        let n = ps.len() as int;
        assert(ps.take(n) =~= ps);
        if root {
            let e = Seq::<char>::empty();
            assert(s == "/"@ + j);
            assert(s[0] == '/');
            assert(first_at(s, '/', 0) == 0);
            assert(s.subrange(0, 0) =~= e);
            lemma_pieces_skip("/"@, j, 0);
            assert(pieces(s, '/') =~= seq![e] + ps);
            lemma_named_all(pieces(s, '/'), ps, n, true);
        } else {
            assert(s =~= j);
            lemma_named_all(ps, ps, n, false);
            assert(is_part(ps[0]));
            assert(s[0] == ps[0][0]) by {
                if n > 1 {
                    lemma_joined_front(ps, n);
                }
            }
            assert(ps[0].contains(ps[0][0]));
        }
    }
}

/// The parts that are no `.`, of the first `k`.
pub open spec fn without_dots(ps: Seq<Seq<char>>, k: int) -> Seq<Seq<char>>
    decreases k,
{
    if k <= 0 || k > ps.len() {
        Seq::empty()
    } else if ps[k - 1] == "."@ {
        without_dots(ps, k - 1)
    } else {
        without_dots(ps, k - 1).push(ps[k - 1])
    }
}

proof fn lemma_without_dots(ps: Seq<Seq<char>>, k: int)
    requires
        0 <= k <= ps.len(),
        forall|i: int| 0 <= i < ps.len() ==> #[trigger] ps[i] != ".."@,
    ensures
        cleaned(ps, k) == without_dots(ps, k),
    decreases k,
{
    if k > 0 {
        lemma_without_dots(ps, k - 1);
        assert(ps[k - 1] != ".."@);
    }
}

/// A clean path has no `.` and no `..`; it is absolute where the path was, so that a `..` at the root stays there; without
/// a `..` its parts are those of the path; and cleaning it again changes nothing.
pub proof fn law_clean_paths_stay_clean(p: Seq<char>)
    ensures
        no_dots(parts(clean(p))),
        absolute(clean(p)) == absolute(p),
        clean(clean(p)) == clean(p),
        (forall|i: int| 0 <= i < parts(p).len() ==> #[trigger] parts(p)[i] != ".."@) ==> parts(clean(p)) == without_dots(
            parts(p),
            parts(p).len() as int,
        ),
{
    let ps = parts(p);
    let n = ps.len() as int;
    lemma_parts(p);
    lemma_cleaned(ps, n);
    let c = cleaned(ps, n);
    lemma_parts_of_path(absolute(p), c);
    lemma_cleaned_again(c, c.len() as int);
    assert(c.take(c.len() as int) =~= c);
    if forall|i: int| 0 <= i < ps.len() ==> #[trigger] ps[i] != ".."@ {
        lemma_without_dots(ps, n);
    }
}

} // verus!
