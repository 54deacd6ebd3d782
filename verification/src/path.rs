//! Paths as texts with `/` between their parts.

use vstd::prelude::*;
use crate::text::cat;
use crate::text::cat3;
use crate::text::chars_of;
use crate::text::first_at;
use crate::text::join as join_texts;
use crate::text::joined;
use crate::text::last_before;
use crate::text::pieces;
use crate::text::same;
use crate::text::split;
use crate::text::split_last;
use crate::text::rsplit_once;
use crate::text::views;

verus! {

pub open spec fn absolute(p: Seq<char>) -> bool {
    p.len() > 0 && p[0] == '/'
}

pub fn is_absolute(p: &str) -> (r: bool)
    ensures
        r == absolute(p@),
{
    let cs = chars_of(p);
    cs.len() > 0 && cs[0] == '/'
}

/// The path `b`, seen from `a`.
pub open spec fn under(a: Seq<char>, b: Seq<char>) -> Seq<char> {
    if absolute(b) {
        b
    } else if a.len() == 0 || a.last() == '/' {
        a + b
    } else {
        a + "/"@ + b
    }
}

pub fn join(a: &str, b: &str) -> (r: String)
    ensures
        r@ == under(a@, b@),
{
    if is_absolute(b) {
        return b.to_owned();
    }
    let cs = chars_of(a);
    if cs.len() == 0 || cs[cs.len() - 1] == '/' {
        cat(a, b)
    } else {
        cat3(a, "/", b)
    }
}

/// Whether the piece at `k` names something: it is not empty, nor a `.` behind the start.
pub open spec fn names(s: Seq<Seq<char>>, k: int) -> bool {
    s[k].len() > 0 && (k == 0 || s[k] != "."@)
}

pub open spec fn named_upto(s: Seq<Seq<char>>, k: int) -> Seq<Seq<char>>
    decreases k,
{
    if k <= 0 || k > s.len() {
        Seq::empty()
    } else if names(s, k - 1) {
        named_upto(s, k - 1).push(s[k - 1])
    } else {
        named_upto(s, k - 1)
    }
}

/// What lies between the slashes. Doubled slashes and `.` count for nothing.
pub open spec fn parts(p: Seq<char>) -> Seq<Seq<char>> {
    let s = pieces(p, '/');
    named_upto(s, s.len() as int)
}

/// The path of these parts.
pub open spec fn path_of(root: bool, ps: Seq<Seq<char>>) -> Seq<char> {
    (if root {
        "/"@
    } else {
        ""@
    }) + joined(ps, "/"@)
}

pub(crate) fn list_parts(p: &str) -> (out: Vec<String>)
    ensures
        views(out@) == parts(p@),
{
    let all = split(p, '/');
    let ghost s = pieces(p@, '/');
    let mut out: Vec<String> = Vec::new();
    let mut k: usize = 0;
    assert(views(out@) =~= Seq::<Seq<char>>::empty());
    while k < all.len()
        invariant
            k <= all@.len(),
            s == views(all@),
            views(out@) == named_upto(s, k as int),
        decreases all@.len() - k,
    {
        assert(s[k as int] == all@[k as int]@);
        if !all[k].as_str().is_empty() && (k == 0 || !same(all[k].as_str(), ".")) {
            let ghost before = out@;
            out.push(all[k].clone());
            assert(views(out@) =~= views(before).push(s[k as int]));
        }
        k += 1;
    }
    out
}

fn build(root: bool, ps: &Vec<String>) -> (r: String)
    ensures
        r@ == path_of(root, views(ps@)),
{
    let rest = join_texts(ps, "/");
    if root {
        cat("/", rest.as_str())
    } else {
        cat("", rest.as_str())
    }
}

/// The path starts with the parts of `base`. Every path starts with an empty one.
pub open spec fn inside(p: Seq<char>, base: Seq<char>) -> bool {
    (!absolute(base) && parts(base).len() == 0) || (absolute(p) == absolute(base) && parts(base).len() <= parts(p).len()
        && parts(p).take(parts(base).len() as int) == parts(base))
}

fn is_prefix(a: &Vec<String>, b: &Vec<String>) -> (r: bool)
    ensures
        r == (b@.len() <= a@.len() && views(a@).take(b@.len() as int) == views(b@)),
{
    if b.len() > a.len() {
        return false;
    }
    let ghost x = views(a@).take(b@.len() as int);
    let ghost y = views(b@);
    let mut k: usize = 0;
    while k < b.len()
        invariant
            k <= b@.len() <= a@.len(),
            x == views(a@).take(b@.len() as int),
            y == views(b@),
            forall|j: int| 0 <= j < k ==> x[j] == y[j],
        decreases b@.len() - k,
    {
        assert(x[k as int] == a@[k as int]@);
        assert(y[k as int] == b@[k as int]@);
        if !same(a[k].as_str(), b[k].as_str()) {
            return false;
        }
        k += 1;
    }
    assert(x =~= y);
    true
}

/// The two are one path, whatever counts for nothing in them.
pub open spec fn same_place(a: Seq<char>, b: Seq<char>) -> bool {
    absolute(a) == absolute(b) && parts(a) == parts(b)
}

pub fn is_same_place(a: &str, b: &str) -> (r: bool)
    ensures
        r == same_place(a@, b@),
{
    let x = list_parts(a);
    let y = list_parts(b);
    assert(views(x@).len() == x@.len() && views(y@).len() == y@.len());
    assert(x@.len() == y@.len() ==> views(x@).take(y@.len() as int) =~= views(x@));
    is_absolute(a) == is_absolute(b) && x.len() == y.len() && is_prefix(&x, &y)
}

/// Whether the path lies at or below `base`.
pub fn starts_with(p: &str, base: &str) -> (r: bool)
    ensures
        r == inside(p@, base@),
{
    let a = list_parts(p);
    let b = list_parts(base);
    assert(views(b@).len() == b@.len());
    assert(views(a@).len() == a@.len());
    (!is_absolute(base) && b.len() == 0) || (is_absolute(p) == is_absolute(base) && is_prefix(&a, &b))
}

/// The path without what counts for nothing at its end.
pub open spec fn settled(p: Seq<char>) -> Seq<char>
    decreases p.len(),
{
    if p.len() > 1 && (p.last() == '/' || (p.last() == '.' && p[p.len() - 2] == '/')) {
        settled(p.drop_last())
    } else {
        p
    }
}

/// The path without what counts for nothing behind a slash at its start.
pub open spec fn trailing(s: Seq<char>) -> Seq<char>
    decreases s.len(),
{
    if s.len() > 0 && (s[0] == '/' || (s[0] == '.' && (s.len() == 1 || s[1] == '/'))) {
        trailing(s.drop_first())
    } else {
        s
    }
}

/// The path behind its first `n` parts.
pub open spec fn behind(s: Seq<char>, n: int) -> Seq<char>
    decreases n,
{
    if n <= 0 {
        s
    } else {
        behind(trailing(s.skip(first_at(s, '/', 0))), n - 1)
    }
}

/// The path as seen from `base`, where it lies below: as it is written behind the parts of `base`.
pub open spec fn relative(p: Seq<char>, base: Seq<char>) -> Option<Seq<char>> {
    if !inside(p, base) {
        None
    } else if absolute(base) {
        Some(settled(behind(trailing(p), parts(base).len() as int)))
    } else {
        Some(settled(behind(p, parts(base).len() as int)))
    }
}

proof fn lemma_settled(p: Seq<char>)
    ensures
        settled(p).len() <= p.len(),
        settled(p) == p.take(settled(p).len() as int),
        settled(p).len() > 1 ==> settled(p).last() != '/',
    decreases p.len(),
{
    if p.len() > 1 && (p.last() == '/' || (p.last() == '.' && p[p.len() - 2] == '/')) {
        lemma_settled(p.drop_last());
        let n = settled(p).len() as int;
        assert(p.drop_last().take(n) =~= p.take(n));
    } else {
        assert(p.take(p.len() as int) =~= p);
    }
}

fn settle(cs: &Vec<char>, from: usize, to: usize) -> (n: usize)
    requires
        from <= to <= cs@.len(),
    ensures
        from <= n <= to,
        settled(cs@.subrange(from as int, to as int)) == cs@.subrange(from as int, n as int),
{
    let mut n: usize = to;
    let ghost all = settled(cs@.subrange(from as int, to as int));
    while n > from && n - from > 1 && (cs[n - 1] == '/' || (cs[n - 1] == '.' && cs[n - 2] == '/'))
        invariant
            from <= n <= to <= cs@.len(),
            all == settled(cs@.subrange(from as int, n as int)),
        decreases n,
    {
        let ghost was = cs@.subrange(from as int, n as int);
        assert(was.drop_last() =~= cs@.subrange(from as int, n - 1));
        n -= 1;
    }
    n
}

fn skip_slashes(cs: &Vec<char>, from: usize) -> (n: usize)
    requires
        from <= cs@.len(),
    ensures
        from <= n <= cs@.len(),
        trailing(cs@.skip(from as int)) == cs@.skip(n as int),
{
    let mut n: usize = from;
    let ghost all = trailing(cs@.skip(from as int));
    while n < cs.len() && (cs[n] == '/' || (cs[n] == '.' && (n + 1 == cs.len() || cs[n + 1] == '/')))
        invariant
            from <= n <= cs@.len(),
            all == trailing(cs@.skip(n as int)),
        decreases cs@.len() - n,
    {
        assert(cs@.skip(n as int).drop_first() =~= cs@.skip(n + 1));
        n += 1;
    }
    n
}

proof fn lemma_first_in_rest(s: Seq<char>, from: int, k: int)
    requires
        0 <= from,
        0 <= k,
        from + k <= s.len(),
    ensures
        first_at(s.skip(from), '/', k) == first_at(s, '/', from + k) - from,
    decreases s.len() - from - k,
{
    let r = s.skip(from);
    if from + k < s.len() && s[from + k] != '/' {
        lemma_first_in_rest(s, from, k + 1);
    }
}

pub fn strip_prefix(p: &str, base: &str) -> (r: Option<String>)
    ensures
        crate::text::opt_view(r) == relative(p@, base@),
{
    if !starts_with(p, base) {
        return None;
    }
    let cs = chars_of(p);
    let bs = list_parts(base);
    assert(views(bs@).len() == bs@.len());
    let n: usize = bs.len();
    assert(cs@.skip(0) =~= cs@);
    let mut from: usize = if is_absolute(base) {
        skip_slashes(&cs, 0)
    } else {
        0
    };
    let ghost start = cs@.skip(from as int);
    let mut k: usize = 0;
    while k < n
        invariant
            k <= n,
            from <= cs@.len(),
            behind(start, n as int) == behind(cs@.skip(from as int), n - k),
        decreases n - k,
    {
        let ghost s = cs@.skip(from as int);
        let i = crate::text::find_from(&cs, '/', from);
        proof {
            lemma_first_in_rest(cs@, from as int, 0);
            crate::text::lemma_first_at(cs@, '/', from as int);
            assert(s.skip(i - from) =~= cs@.skip(i as int));
        }
        from = skip_slashes(&cs, i);
        k += 1;
    }
    let to = settle(&cs, from, cs.len());
    assert(cs@.skip(from as int) =~= cs@.subrange(from as int, cs@.len() as int));
    Some(crate::text::string_of(&cs, from, to))
}

/// The path without its last part, as it is written in front of that.
pub open spec fn up(p: Seq<char>) -> Option<Seq<char>> {
    let q = settled(p);
    if q.len() == 0 || q == "/"@ {
        None
    } else {
        Some(settled(q.take(last_before(q, '/', q.len() as int) + 1)))
    }
}

/// What is above a path is shorter.
pub proof fn lemma_up_is_shorter(p: Seq<char>)
    ensures
        up(p) matches Some(d) ==> d.len() < p.len(),
{
    reveal_strlit("/");
    let q = settled(p);
    lemma_settled(p);
    if up(p).is_some() {
        crate::text::lemma_last_before(q, '/', q.len() as int);
        let i = last_before(q, '/', q.len() as int);
        lemma_settled(q.take(i + 1));
        if i + 1 == q.len() {
            assert(q.last() == '/');
            assert(q =~= "/"@);
        }
    }
}

/// Where the name at the end of a path starts, and where it ends.
fn last_part_of(cs: &Vec<char>) -> (r: (usize, usize))
    ensures
        r.0 <= r.1 <= cs@.len(),
        settled(cs@) == cs@.take(r.1 as int),
        r.0 == last_before(settled(cs@), '/', settled(cs@).len() as int) + 1,
{
    let to = settle(cs, 0, cs.len());
    assert(cs@.subrange(0, cs@.len() as int) =~= cs@);
    assert(cs@.subrange(0, to as int) =~= cs@.take(to as int));
    let ghost q = settled(cs@);
    let mut from: usize = to;
    while from > 0 && cs[from - 1] != '/'
        invariant
            from <= to <= cs@.len(),
            q == cs@.take(to as int),
            last_before(q, '/', q.len() as int) == last_before(q, '/', from as int),
        decreases from,
    {
        from -= 1;
    }
    (from, to)
}

pub fn parent(p: &str) -> (r: Option<String>)
    ensures
        crate::text::opt_view(r) == up(p@),
{
    let cs = chars_of(p);
    let (from, to) = last_part_of(&cs);
    proof {
        reveal_strlit("/");
    }
    let ghost q = settled(p@);
    if to == 0 || (to == 1 && cs[0] == '/') {
        assert(to == 1 ==> q =~= "/"@);
        return None;
    }
    assert(q != "/"@) by {
        if q == "/"@ {
            assert(q[0] == '/');
        }
    }
    let end = settle(&cs, 0, from);
    assert(q.take(from as int) =~= cs@.subrange(0, from as int));
    Some(crate::text::string_of(&cs, 0, end))
}

/// The last part, where it is the name of a file.
pub open spec fn base_name(p: Seq<char>) -> Option<Seq<char>> {
    let s = parts(p);
    if s.len() == 0 || s.last() == ".."@ || s.last() == "."@ {
        None
    } else {
        Some(s.last())
    }
}

pub fn file_name(p: &str) -> (r: Option<String>)
    ensures
        crate::text::opt_view(r) == base_name(p@),
{
    let a = list_parts(p);
    assert(views(a@).len() == a@.len());
    if a.len() == 0 {
        return None;
    }
    assert(views(a@).last() == a@[a@.len() - 1]@);
    let last = &a[a.len() - 1];
    if same(last.as_str(), "..") || same(last.as_str(), ".") {
        None
    } else {
        Some(last.clone())
    }
}

/// The name before its last dot. A dot at the start ends nothing.
pub open spec fn stem_of(name: Seq<char>) -> Seq<char> {
    match split_last(name, '.') {
        Some((a, _)) => if a.len() == 0 {
            name
        } else {
            a
        },
        None => name,
    }
}

pub open spec fn suffix_of(name: Seq<char>) -> Option<Seq<char>> {
    match split_last(name, '.') {
        Some((a, b)) => if a.len() == 0 {
            None
        } else {
            Some(b)
        },
        None => None,
    }
}

pub fn file_stem(p: &str) -> (r: Option<String>)
    ensures
        crate::text::opt_view(r) == match base_name(p@) {
            Some(n) => Some(stem_of(n)),
            None => None,
        },
{
    match file_name(p) {
        None => None,
        Some(n) => match rsplit_once(n.as_str(), '.') {
            Some((a, _)) => if a.is_empty() {
                Some(n)
            } else {
                Some(a.to_owned())
            },
            None => Some(n),
        },
    }
}

pub fn extension(p: &str) -> (r: Option<String>)
    ensures
        crate::text::opt_view(r) == match base_name(p@) {
            Some(n) => suffix_of(n),
            None => None,
        },
{
    match file_name(p) {
        None => None,
        Some(n) => match rsplit_once(n.as_str(), '.') {
            Some((a, b)) => if a.is_empty() {
                None
            } else {
                Some(b.to_owned())
            },
            None => None,
        },
    }
}

/// The path with another name at its end.
pub open spec fn renamed(p: Seq<char>, name: Seq<char>) -> Seq<char> {
    match (base_name(p), up(p)) {
        (Some(_), Some(d)) => under(d, name),
        _ => under(p, name),
    }
}

pub fn with_file_name(p: &str, name: &str) -> (r: String)
    ensures
        r@ == renamed(p@, name@),
{
    match file_name(p) {
        Some(_) => match parent(p) {
            Some(d) => join(d.as_str(), name),
            None => join(p, name),
        },
        None => join(p, name),
    }
}

/// The path with another extension, where it ends in a name.
pub open spec fn with_suffix(p: Seq<char>, ext: Seq<char>) -> Seq<char> {
    let q = settled(p);
    match base_name(p) {
        Some(n) => q.take(last_before(q, '/', q.len() as int) + 1) + stem_of(n) + "."@ + ext,
        None => p,
    }
}

/// The path with another extension, where it ends in a name. The extension is not empty.
pub fn with_extension(p: &str, ext: &str) -> (r: String)
    ensures
        r@ == with_suffix(p@, ext@),
{
    match file_stem(p) {
        Some(s) => {
            let cs = chars_of(p);
            let (from, to) = last_part_of(&cs);
            let dir = crate::text::string_of(&cs, 0, from);
            assert(settled(p@).take(from as int) =~= cs@.subrange(0, from as int));
            crate::text::cat4(dir.as_str(), s.as_str(), ".", ext)
        },
        None => p.to_owned(),
    }
}

proof fn lemma_last_piece(s: Seq<char>, from: int)
    requires
        0 <= from <= s.len(),
    ensures
        crate::text::pieces_from(s, '/', from).len() > 0,
        last_before(s, '/', s.len() as int) < from ==> crate::text::pieces_from(s, '/', from).last() == s.skip(from),
        last_before(s, '/', s.len() as int) >= from ==> crate::text::pieces_from(s, '/', from).last() == s.skip(
            last_before(s, '/', s.len() as int) + 1,
        ),
    decreases s.len() - from,
{
    let i = crate::text::first_at(s, '/', from);
    let l = last_before(s, '/', s.len() as int);
    crate::text::lemma_first_at(s, '/', from);
    crate::text::lemma_last_before(s, '/', s.len() as int);
    if i < s.len() {
        assert(l >= i);
        lemma_last_piece(s, i + 1);
    } else {
        assert(s.skip(from) =~= s.subrange(from, s.len() as int));
    }
}

/// A path that ends in a name without slashes has a part.
pub proof fn lemma_under_has_parts(a: Seq<char>, b: Seq<char>)
    requires
        b.len() > 1,
        !b.contains('/'),
    ensures
        parts(under(a, b)).len() > 0,
        up(under(a, b)).is_some(),
{
    let p = under(a, b);
    reveal_strlit("/");
    reveal_strlit(".");
    assert(b[0] != '/');
    assert(p.skip(p.len() - b.len()) =~= b);
    let s = pieces(p, '/');
    let l = last_before(p, '/', p.len() as int);
    crate::text::lemma_last_before(p, '/', p.len() as int);
    if l >= p.len() - b.len() {
        assert(b[l - (p.len() - b.len())] == '/');
    }
    lemma_last_piece(p, 0);
    if l < 0 {
        assert(p.len() - b.len() == 0) by {
            if a.len() > 0 {
                if a.last() == '/' {
                    assert(p[a.len() - 1] == '/');
                } else {
                    assert(p[a.len() as int] == '/');
                }
            }
        }
        assert(s.last() =~= b);
    } else {
        assert(l == p.len() - b.len() - 1) by {
            if a.len() > 0 && a.last() != '/' {
                assert(p[a.len() as int] == '/');
            } else if a.len() > 0 {
                assert(p[a.len() - 1] == '/');
            }
        }
        assert(s.last() =~= b);
    }
    assert(s.last().len() > 1);
    assert(names(s, s.len() - 1));
    assert(p[p.len() - 1] == b[b.len() - 1] && p[p.len() - 2] == b[b.len() - 2]);
    assert(b.contains(b[b.len() - 1]) && b.contains(b[b.len() - 2]));
    assert(settled(p) == p);
    assert(p.len() > 1);
}

} // verus!
