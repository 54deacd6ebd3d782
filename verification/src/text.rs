//! Strings as sequences of characters, and the operations on them that the other modules share.

use vstd::prelude::*;

verus! {

/// The views of a sequence of values.
pub open spec fn views<T: View>(s: Seq<T>) -> Seq<T::V> {
    Seq::new(s.len(), |i: int| s[i]@)
}

/// The view of an optional value.
pub open spec fn opt_view<T: View>(o: Option<T>) -> Option<T::V> {
    match o {
        Some(x) => Some(x@),
        None => None,
    }
}

/// `String::push` appends the character to the end of the string.
#[verifier::external_body]
pub(crate) fn push_char(s: &mut String, c: char)
    ensures
        final(s)@ == old(s)@.push(c),
{
    s.push(c)
}

/// `str` equality holds exactly when the two strings hold the same characters.
pub assume_specification[ <str as PartialEq>::eq ](a: &str, b: &str) -> (res: bool)
    ensures
        res == (a@ == b@),
;

/// Whether two strings are equal.
pub fn same(a: &str, b: &str) -> (r: bool)
    ensures
        r == (a@ == b@),
{
    *a == *b
}

/// The characters of a string.
pub fn chars_of(s: &str) -> (out: Vec<char>)
    ensures
        out@ == s@,
{
    let mut out: Vec<char> = Vec::new();
    for c in it: s.chars()
        invariant
            out@ == it.seq().take(it.index()),
            it.seq() == s@,
    {
        out.push(c);
    }
    out
}

/// The string of the characters `from..to`.
pub fn string_of(cs: &Vec<char>, from: usize, to: usize) -> (out: String)
    requires
        from <= to <= cs@.len(),
    ensures
        out@ == cs@.subrange(from as int, to as int),
{
    let mut out = String::new();
    let mut i: usize = from;
    while i < to
        invariant
            from <= i <= to <= cs@.len(),
            out@ == cs@.subrange(from as int, i as int),
        decreases to - i,
    {
        push_char(&mut out, cs[i]);
        i += 1;
        assert(cs@.subrange(from as int, i as int) == cs@.subrange(from as int, i - 1).push(cs@[i - 1]));
    }
    out
}

/// The two strings, one after the other.
pub fn cat(a: &str, b: &str) -> (r: String)
    ensures
        r@ == a@ + b@,
{
    a.to_owned().concat(b)
}

/// The three strings, one after the other.
pub fn cat3(a: &str, b: &str, c: &str) -> (r: String)
    ensures
        r@ == a@ + b@ + c@,
{
    a.to_owned().concat(b).concat(c)
}

/// The four strings, one after the other.
pub fn cat4(a: &str, b: &str, c: &str, d: &str) -> (r: String)
    ensures
        r@ == a@ + b@ + c@ + d@,
{
    a.to_owned().concat(b).concat(c).concat(d)
}

/// The five strings, one after the other.
pub fn cat5(a: &str, b: &str, c: &str, d: &str, e: &str) -> (r: String)
    ensures
        r@ == a@ + b@ + c@ + d@ + e@,
{
    a.to_owned().concat(b).concat(c).concat(d).concat(e)
}

// ---------------------------------------------------------------------------
// Prefixes and suffixes
// ---------------------------------------------------------------------------

pub open spec fn starts(s: Seq<char>, p: Seq<char>) -> bool {
    p.len() <= s.len() && s.take(p.len() as int) == p
}

pub open spec fn ends(s: Seq<char>, p: Seq<char>) -> bool {
    p.len() <= s.len() && s.skip(s.len() - p.len()) == p
}

/// What follows the prefix `p`, where `s` starts with it.
pub open spec fn after_prefix(s: Seq<char>, p: Seq<char>) -> Option<Seq<char>> {
    if starts(s, p) {
        Some(s.skip(p.len() as int))
    } else {
        None
    }
}

/// What precedes the suffix `p`, where `s` ends with it.
pub open spec fn before_suffix(s: Seq<char>, p: Seq<char>) -> Option<Seq<char>> {
    if ends(s, p) {
        Some(s.take(s.len() - p.len()))
    } else {
        None
    }
}

pub fn starts_with(s: &str, p: &str) -> (r: bool)
    ensures
        r == starts(s@, p@),
{
    let n: usize = s.unicode_len();
    let m: usize = p.unicode_len();
    if m > n {
        return false;
    }
    assert(s@.subrange(0, m as int) == s@.take(m as int));
    same(s.substring_char(0, m), p)
}

pub fn ends_with(s: &str, p: &str) -> (r: bool)
    ensures
        r == ends(s@, p@),
{
    let n: usize = s.unicode_len();
    let m: usize = p.unicode_len();
    if m > n {
        return false;
    }
    assert(s@.subrange(n - m, n as int) == s@.skip(n - m));
    same(s.substring_char(n - m, n), p)
}

pub fn strip_prefix<'a>(s: &'a str, p: &str) -> (r: Option<&'a str>)
    ensures
        r.is_some() == after_prefix(s@, p@).is_some(),
        r.is_some() ==> r.unwrap()@ == after_prefix(s@, p@).unwrap(),
{
    if starts_with(s, p) {
        let n: usize = s.unicode_len();
        let m: usize = p.unicode_len();
        assert(s@.subrange(m as int, n as int) == s@.skip(m as int));
        Some(s.substring_char(m, n))
    } else {
        None
    }
}

pub fn strip_suffix<'a>(s: &'a str, p: &str) -> (r: Option<&'a str>)
    ensures
        r.is_some() == before_suffix(s@, p@).is_some(),
        r.is_some() ==> r.unwrap()@ == before_suffix(s@, p@).unwrap(),
{
    if ends_with(s, p) {
        let n: usize = s.unicode_len();
        let m: usize = p.unicode_len();
        assert(s@.subrange(0, n - m) == s@.take(n - m));
        Some(s.substring_char(0, n - m))
    } else {
        None
    }
}

// ---------------------------------------------------------------------------
// Searching and splitting
// ---------------------------------------------------------------------------

/// The first position at or after `from` that holds `c`, or the length.
pub open spec fn first_at(s: Seq<char>, c: char, from: int) -> int
    decreases s.len() - from,
{
    if from >= s.len() {
        s.len() as int
    } else if s[from] == c {
        from
    } else {
        first_at(s, c, from + 1)
    }
}

/// The last position before `to` that holds `c`, or -1.
pub open spec fn last_before(s: Seq<char>, c: char, to: int) -> int
    decreases to,
{
    if to <= 0 {
        -1
    } else if s[to - 1] == c {
        to - 1
    } else {
        last_before(s, c, to - 1)
    }
}

/// The parts before and after the first `c`.
pub open spec fn split_first(s: Seq<char>, c: char) -> Option<(Seq<char>, Seq<char>)> {
    let i = first_at(s, c, 0);
    if i < s.len() {
        Some((s.take(i), s.skip(i + 1)))
    } else {
        None
    }
}

/// The parts before and after the last `c`.
pub open spec fn split_last(s: Seq<char>, c: char) -> Option<(Seq<char>, Seq<char>)> {
    let i = last_before(s, c, s.len() as int);
    if i >= 0 {
        Some((s.take(i), s.skip(i + 1)))
    } else {
        None
    }
}

/// `first_at` is the first occurrence.
pub proof fn lemma_first_at(s: Seq<char>, c: char, from: int)
    requires
        0 <= from <= s.len(),
    ensures
        from <= first_at(s, c, from) <= s.len(),
        first_at(s, c, from) < s.len() ==> s[first_at(s, c, from)] == c,
        forall|j: int| from <= j < first_at(s, c, from) ==> s[j] != c,
    decreases s.len() - from,
{
    if from < s.len() && s[from] != c {
        lemma_first_at(s, c, from + 1);
    }
}

/// `last_before` is the last occurrence.
pub proof fn lemma_last_before(s: Seq<char>, c: char, to: int)
    requires
        0 <= to <= s.len(),
    ensures
        -1 <= last_before(s, c, to) < to || last_before(s, c, to) == -1,
        last_before(s, c, to) >= 0 ==> s[last_before(s, c, to)] == c,
        forall|j: int| last_before(s, c, to) < j < to ==> s[j] != c,
    decreases to,
{
    if to > 0 && s[to - 1] != c {
        lemma_last_before(s, c, to - 1);
    }
}

/// A text with `c` between two parts splits into them, where the first part does not hold `c`.
pub proof fn lemma_split_first(a: Seq<char>, c: char, b: Seq<char>)
    requires
        !a.contains(c),
    ensures
        split_first(a + seq![c] + b, c) == Some((a, b)),
{
    let s = a + seq![c] + b;
    lemma_first_at(s, c, 0);
    let i = first_at(s, c, 0);
    assert(s[a.len() as int] == c);
    assert forall|j: int| 0 <= j < a.len() implies s[j] != c by {
        assert(s[j] == a[j]);
    }
    assert(i == a.len());
    assert(s.take(i) == a);
    assert(s.skip(i + 1) == b);
}

/// A text without `c` does not split at it.
pub proof fn lemma_split_none(s: Seq<char>, c: char)
    requires
        !s.contains(c),
    ensures
        split_first(s, c) == None::<(Seq<char>, Seq<char>)>,
{
    lemma_first_at(s, c, 0);
}

/// The first position at or after `from` that holds `c`, or the length.
pub fn find_from(s: &Vec<char>, c: char, from: usize) -> (r: usize)
    requires
        from <= s@.len(),
    ensures
        r == first_at(s@, c, from as int),
        from <= r <= s@.len(),
        r < s@.len() ==> s@[r as int] == c,
{
    let mut i: usize = from;
    while i < s.len()
        invariant
            from <= i <= s@.len(),
            first_at(s@, c, from as int) == first_at(s@, c, i as int),
        decreases s@.len() - i,
    {
        if s[i] == c {
            return i;
        }
        i += 1;
    }
    i
}

/// Whether the string holds the character.
pub fn has_char(s: &str, c: char) -> (r: bool)
    ensures
        r == s@.contains(c),
{
    let cs: Vec<char> = chars_of(s);
    let i: usize = find_from(&cs, c, 0);
    proof {
        lemma_first_at(s@, c, 0);
    }
    i < cs.len()
}

pub fn split_once<'a>(s: &'a str, c: char) -> (r: Option<(&'a str, &'a str)>)
    ensures
        r.is_some() == split_first(s@, c).is_some(),
        r.is_some() ==> r.unwrap().0@ == split_first(s@, c).unwrap().0 && r.unwrap().1@
            == split_first(s@, c).unwrap().1,
{
    let cs: Vec<char> = chars_of(s);
    let i: usize = find_from(&cs, c, 0);
    if i < cs.len() {
        let n: usize = s.unicode_len();
        assert(s@.subrange(0, i as int) == s@.take(i as int));
        assert(s@.subrange(i + 1, n as int) == s@.skip(i + 1));
        Some((s.substring_char(0, i), s.substring_char(i + 1, n)))
    } else {
        None
    }
}

pub fn rsplit_once<'a>(s: &'a str, c: char) -> (r: Option<(&'a str, &'a str)>)
    ensures
        r.is_some() == split_last(s@, c).is_some(),
        r.is_some() ==> r.unwrap().0@ == split_last(s@, c).unwrap().0 && r.unwrap().1@
            == split_last(s@, c).unwrap().1,
{
    let cs: Vec<char> = chars_of(s);
    let n: usize = cs.len();
    let mut i: usize = n;
    while i > 0
        invariant
            0 <= i <= n,
            n == cs@.len(),
            cs@ == s@,
            last_before(s@, c, n as int) == last_before(s@, c, i as int),
        decreases i,
    {
        if cs[i - 1] == c {
            assert(s@.subrange(0, i - 1) == s@.take(i - 1));
            assert(s@.subrange(i as int, n as int) == s@.skip(i as int));
            return Some((s.substring_char(0, i - 1), s.substring_char(i, n)));
        }
        i -= 1;
    }
    None
}

/// The pieces between the occurrences of `c`.
pub open spec fn pieces(s: Seq<char>, c: char) -> Seq<Seq<char>> {
    pieces_from(s, c, 0)
}

/// The pieces of what starts at `from`.
pub open spec fn pieces_from(s: Seq<char>, c: char, from: int) -> Seq<Seq<char>>
    decreases s.len() - from,
{
    let i = first_at(s, c, from);
    if from < 0 || i < from || i >= s.len() {
        seq![s.skip(from)]
    } else {
        seq![s.subrange(from, i)] + pieces_from(s, c, i + 1)
    }
}

pub fn split(s: &str, c: char) -> (out: Vec<String>)
    ensures
        views(out@) == pieces(s@, c),
        out@.len() >= 1,
{
    let cs: Vec<char> = chars_of(s);
    let mut out: Vec<String> = Vec::new();
    let mut from: usize = 0;
    loop
        invariant
            from <= cs@.len(),
            cs@ == s@,
            pieces(s@, c) == views(out@) + pieces_from(s@, c, from as int),
        decreases cs@.len() - from,
    {
        let i: usize = find_from(&cs, c, from);
        let ghost before = views(out@);
        out.push(string_of(&cs, from, i));
        assert(views(out@) == before.push(s@.subrange(from as int, i as int)));
        if i >= cs.len() {
            assert(s@.subrange(from as int, i as int) == s@.skip(from as int));
            assert(before + seq![s@.skip(from as int)] == views(out@));
            return out;
        }
        assert(before + (seq![s@.subrange(from as int, i as int)] + pieces_from(s@, c, i + 1))
            == views(out@) + pieces_from(s@, c, i + 1));
        from = i + 1;
    }
}

/// A line without the carriage return that a line feed followed.
pub open spec fn chomp(s: Seq<char>) -> Seq<char> {
    if s.len() > 0 && s.last() == '\r' {
        s.drop_last()
    } else {
        s
    }
}

/// The lines of what starts at `from`: a line ends at a line feed, with the carriage return before
/// it; the end of the text ends the last line, which is dropped where it is empty.
pub open spec fn lines_from(s: Seq<char>, from: int) -> Seq<Seq<char>>
    decreases s.len() - from,
{
    let i = first_at(s, '\n', from);
    if from < 0 || from >= s.len() {
        Seq::empty()
    } else if i < from || i >= s.len() {
        seq![s.skip(from)]
    } else {
        seq![chomp(s.subrange(from, i))] + lines_from(s, i + 1)
    }
}

pub open spec fn lines_of(s: Seq<char>) -> Seq<Seq<char>> {
    lines_from(s, 0)
}

pub fn lines(s: &str) -> (out: Vec<String>)
    ensures
        views(out@) == lines_of(s@),
{
    let cs: Vec<char> = chars_of(s);
    let mut out: Vec<String> = Vec::new();
    let mut from: usize = 0;
    while from < cs.len()
        invariant
            from <= cs@.len(),
            cs@ == s@,
            lines_of(s@) == views(out@) + lines_from(s@, from as int),
        decreases cs@.len() - from,
    {
        let i: usize = find_from(&cs, '\n', from);
        let ghost before = views(out@);
        if i >= cs.len() {
            out.push(string_of(&cs, from, i));
            assert(s@.subrange(from as int, i as int) == s@.skip(from as int));
            assert(views(out@) == before.push(s@.skip(from as int)));
            assert(before + seq![s@.skip(from as int)] == views(out@));
            return out;
        }
        let end: usize = if i > from && cs[i - 1] == '\r' {
            i - 1
        } else {
            i
        };
        out.push(string_of(&cs, from, end));
        proof {
            let line = s@.subrange(from as int, i as int);
            assert(s@.subrange(from as int, end as int) == chomp(line)) by {
                if i > from {
                    assert(line.last() == s@[i - 1]);
                    assert(line.drop_last() == s@.subrange(from as int, i - 1));
                }
            }
            assert(views(out@) == before.push(chomp(line)));
            assert(before + (seq![chomp(line)] + lines_from(s@, i + 1)) == views(out@)
                + lines_from(s@, i + 1));
        }
        from = i + 1;
    }
    assert(views(out@) + Seq::<Seq<char>>::empty() == views(out@));
    out
}

// ---------------------------------------------------------------------------
// Joining and replacing
// ---------------------------------------------------------------------------

/// The first `n` strings of the list with `sep` between them.
pub open spec fn join_upto(list: Seq<Seq<char>>, sep: Seq<char>, n: int) -> Seq<char>
    decreases n,
{
    if n <= 0 {
        Seq::empty()
    } else if n == 1 {
        list[0]
    } else {
        join_upto(list, sep, n - 1) + sep + list[n - 1]
    }
}

pub open spec fn joined(list: Seq<Seq<char>>, sep: Seq<char>) -> Seq<char> {
    join_upto(list, sep, list.len() as int)
}

pub fn join(list: &Vec<String>, sep: &str) -> (out: String)
    ensures
        out@ == joined(views(list@), sep@),
{
    let mut out = String::new();
    let mut i: usize = 0;
    while i < list.len()
        invariant
            i <= list@.len(),
            out@ == join_upto(views(list@), sep@, i as int),
        decreases list@.len() - i,
    {
        if i > 0 {
            out.append(sep);
        }
        out.append(list[i].as_str());
        i += 1;
        assert(views(list@)[i - 1] == list@[i - 1]@);
        assert(Seq::<char>::empty() + list@[0]@ == list@[0]@);
    }
    out
}

/// Every `a` replaced by `b`.
pub open spec fn swapped(s: Seq<char>, a: char, b: char) -> Seq<char> {
    Seq::new(s.len(), |i: int| if s[i] == a { b } else { s[i] })
}

pub fn replace_char(s: &str, a: char, b: char) -> (out: String)
    ensures
        out@ == swapped(s@, a, b),
{
    let cs: Vec<char> = chars_of(s);
    let mut out = String::new();
    let mut i: usize = 0;
    while i < cs.len()
        invariant
            i <= cs@.len(),
            cs@ == s@,
            out@ == swapped(s@, a, b).take(i as int),
        decreases cs@.len() - i,
    {
        push_char(
            &mut out,
            if cs[i] == a {
                b
            } else {
                cs[i]
            },
        );
        i += 1;
        assert(swapped(s@, a, b).take(i as int) == swapped(s@, a, b).take(i - 1).push(
            swapped(s@, a, b)[i - 1],
        ));
    }
    assert(swapped(s@, a, b).take(i as int) == swapped(s@, a, b));
    out
}

/// `p` occurs in `s` at `i`.
pub open spec fn occurs_at(s: Seq<char>, p: Seq<char>, i: int) -> bool {
    0 <= i && i + p.len() <= s.len() && s.subrange(i, i + p.len()) == p
}

/// From `from` on, every occurrence of `p`, from the left and without overlap, replaced by `by`.
pub open spec fn replaced_from(s: Seq<char>, p: Seq<char>, by: Seq<char>, from: int) -> Seq<char>
    decreases s.len() - from,
{
    if from < 0 || from >= s.len() {
        Seq::empty()
    } else if p.len() > 0 && occurs_at(s, p, from) {
        by + replaced_from(s, p, by, from + p.len())
    } else {
        seq![s[from]] + replaced_from(s, p, by, from + 1)
    }
}

/// From `from` on, `by` in front of each character and at the end.
pub open spec fn spread_from(s: Seq<char>, by: Seq<char>, from: int) -> Seq<char>
    decreases s.len() - from,
{
    if from < 0 || from >= s.len() {
        by
    } else {
        by + seq![s[from]] + spread_from(s, by, from + 1)
    }
}

/// Every occurrence of `p` replaced by `by`. The empty text occurs around each character.
pub open spec fn replaced(s: Seq<char>, p: Seq<char>, by: Seq<char>) -> Seq<char> {
    if p.len() == 0 {
        spread_from(s, by, 0)
    } else {
        replaced_from(s, p, by, 0)
    }
}

/// Whether the characters of `p` stand in `s` from `i` on.
pub fn matches_at(s: &Vec<char>, p: &Vec<char>, i: usize) -> (r: bool)
    requires
        i <= s@.len(),
    ensures
        r == occurs_at(s@, p@, i as int),
{
    if p.len() > s.len() - i {
        return false;
    }
    let n: usize = s.len();
    let mut k: usize = 0;
    while k < p.len()
        invariant
            k <= p@.len(),
            n == s@.len(),
            i + p@.len() <= n,
            forall|j: int| 0 <= j < k ==> s@[i + j] == p@[j],
        decreases p@.len() - k,
    {
        if s[i + k] != p[k] {
            assert(s@.subrange(i as int, i + p@.len())[k as int] != p@[k as int]);
            return false;
        }
        k += 1;
    }
    assert(s@.subrange(i as int, i + p@.len()) == p@);
    true
}

/// Every occurrence of `p`, from the left and without overlap, replaced by `by`.
pub fn replace(s: &str, p: &str, by: &str) -> (out: String)
    ensures
        out@ == replaced(s@, p@, by@),
{
    let cs: Vec<char> = chars_of(s);
    let ps: Vec<char> = chars_of(p);
    let mut out = String::new();
    let mut i: usize = 0;
    if ps.len() == 0 {
        while i < cs.len()
            invariant
                i <= cs@.len(),
                cs@ == s@,
                p@.len() == 0,
                replaced(s@, p@, by@) == out@ + spread_from(s@, by@, i as int),
            decreases cs@.len() - i,
        {
            let ghost before = out@;
            let ghost rest = spread_from(s@, by@, i + 1);
            out.append(by);
            push_char(&mut out, cs[i]);
            assert(before + (by@ + seq![s@[i as int]] + rest) =~= out@ + rest);
            i += 1;
        }
        out.append(by);
        return out;
    }
    while i < cs.len()
        invariant
            i <= cs@.len(),
            cs@ == s@,
            ps@ == p@,
            p@.len() > 0,
            replaced(s@, p@, by@) == out@ + replaced_from(s@, p@, by@, i as int),
        decreases cs@.len() - i,
    {
        let ghost before = out@;
        if matches_at(&cs, &ps, i) {
            out.append(by);
            let ghost rest = replaced_from(s@, p@, by@, i + p@.len());
            assert(before + (by@ + rest) == out@ + rest);
            i = i + ps.len();
        } else {
            push_char(&mut out, cs[i]);
            let ghost rest = replaced_from(s@, p@, by@, i + 1);
            assert(before + (seq![s@[i as int]] + rest) == out@ + rest);
            i += 1;
        }
    }
    assert(out@ + Seq::<char>::empty() == out@);
    out
}

/// `p` occurs somewhere in `s`.
pub open spec fn holds(s: Seq<char>, p: Seq<char>) -> bool {
    exists|i: int| #[trigger] occurs_at(s, p, i)
}

pub fn contains(s: &str, p: &str) -> (r: bool)
    ensures
        r == holds(s@, p@),
{
    let cs: Vec<char> = chars_of(s);
    let ps: Vec<char> = chars_of(p);
    let mut i: usize = 0;
    loop
        invariant
            i <= cs@.len(),
            cs@ == s@,
            ps@ == p@,
            forall|j: int| 0 <= j < i ==> !occurs_at(s@, p@, j),
        decreases cs@.len() - i,
    {
        if matches_at(&cs, &ps, i) {
            return true;
        }
        if i >= cs.len() {
            assert forall|j: int| !occurs_at(s@, p@, j) by {
                if j == i {
                }
            }
            return false;
        }
        i += 1;
    }
}

// ---------------------------------------------------------------------------
// White space
// ---------------------------------------------------------------------------

/// The characters with the Unicode property `White_Space`.
pub open spec fn white(c: char) -> bool {
    let u = c as u32;
    ||| 0x9 <= u <= 0xd
    ||| u == 0x20
    ||| u == 0x85
    ||| u == 0xa0
    ||| u == 0x1680
    ||| 0x2000 <= u <= 0x200a
    ||| u == 0x2028
    ||| u == 0x2029
    ||| u == 0x202f
    ||| u == 0x205f
    ||| u == 0x3000
}

pub fn is_white(c: char) -> (r: bool)
    ensures
        r == white(c),
{
    let u: u32 = c as u32;
    (0x9 <= u && u <= 0xd) || u == 0x20 || u == 0x85 || u == 0xa0 || u == 0x1680 || (0x2000 <= u && u <= 0x200a)
        || u == 0x2028 || u == 0x2029 || u == 0x202f || u == 0x205f || u == 0x3000
}

/// The first position at or after `from` whose character is not white, or the length.
pub open spec fn skip_white(s: Seq<char>, from: int) -> int
    decreases s.len() - from,
{
    if from >= s.len() {
        s.len() as int
    } else if white(s[from]) {
        skip_white(s, from + 1)
    } else {
        from
    }
}

/// The first position at or after `from` whose character is white, or the length.
pub open spec fn word_end(s: Seq<char>, from: int) -> int
    decreases s.len() - from,
{
    if from >= s.len() || white(s[from]) {
        from
    } else {
        word_end(s, from + 1)
    }
}

/// The end of what is left of the first `to` characters without the white ones at its end.
pub open spec fn trim_end_at(s: Seq<char>, from: int, to: int) -> int
    decreases to - from,
{
    if to <= from || !white(s[to - 1]) {
        to
    } else {
        trim_end_at(s, from, to - 1)
    }
}

/// The text without the white characters at its two ends.
pub open spec fn trimmed(s: Seq<char>) -> Seq<char> {
    let a = skip_white(s, 0);
    s.subrange(a, trim_end_at(s, a, s.len() as int))
}

/// The text without the white characters at its end.
pub open spec fn trimmed_end(s: Seq<char>) -> Seq<char> {
    s.take(trim_end_at(s, 0, s.len() as int))
}

/// The text without the white characters at its start.
pub open spec fn trimmed_start(s: Seq<char>) -> Seq<char> {
    s.skip(skip_white(s, 0))
}

pub(crate) fn skip_white_from(s: &Vec<char>, from: usize) -> (r: usize)
    requires
        from <= s@.len(),
    ensures
        r == skip_white(s@, from as int),
        from <= r <= s@.len(),
        r < s@.len() ==> !white(s@[r as int]),
{
    let mut i: usize = from;
    while i < s.len() && is_white(s[i])
        invariant
            from <= i <= s@.len(),
            skip_white(s@, from as int) == skip_white(s@, i as int),
        decreases s@.len() - i,
    {
        i += 1;
    }
    i
}

pub(crate) fn trim_end_from(s: &Vec<char>, from: usize) -> (r: usize)
    requires
        from <= s@.len(),
    ensures
        r == trim_end_at(s@, from as int, s@.len() as int),
        from <= r <= s@.len(),
{
    let mut i: usize = s.len();
    while i > from && is_white(s[i - 1])
        invariant
            from <= i <= s@.len(),
            trim_end_at(s@, from as int, s@.len() as int) == trim_end_at(s@, from as int, i as int),
        decreases i,
    {
        i -= 1;
    }
    i
}

pub fn trim<'a>(s: &'a str) -> (r: &'a str)
    ensures
        r@ == trimmed(s@),
        r@.len() <= s@.len(),
{
    let cs: Vec<char> = chars_of(s);
    let a: usize = skip_white_from(&cs, 0);
    let b: usize = trim_end_from(&cs, a);
    s.substring_char(a, b)
}

pub fn trim_end<'a>(s: &'a str) -> (r: &'a str)
    ensures
        r@ == trimmed_end(s@),
{
    let cs: Vec<char> = chars_of(s);
    let b: usize = trim_end_from(&cs, 0);
    assert(s@.subrange(0, b as int) == s@.take(b as int));
    s.substring_char(0, b)
}

pub fn trim_start<'a>(s: &'a str) -> (r: &'a str)
    ensures
        r@ == trimmed_start(s@),
{
    let cs: Vec<char> = chars_of(s);
    let a: usize = skip_white_from(&cs, 0);
    let n: usize = cs.len();
    assert(s@.subrange(a as int, n as int) == s@.skip(a as int));
    s.substring_char(a, n)
}

/// The words from `from` on: the longest runs of characters that are not white.
pub open spec fn words_from(s: Seq<char>, from: int) -> Seq<Seq<char>>
    decreases s.len() - from,
{
    let a = skip_white(s, from);
    let b = word_end(s, a);
    if from < 0 || a < from || a >= s.len() || b <= a || b > s.len() {
        Seq::empty()
    } else {
        seq![s.subrange(a, b)] + words_from(s, b)
    }
}

pub open spec fn words_of(s: Seq<char>) -> Seq<Seq<char>> {
    words_from(s, 0)
}

pub fn words(s: &str) -> (out: Vec<String>)
    ensures
        views(out@) == words_of(s@),
{
    let cs: Vec<char> = chars_of(s);
    let mut out: Vec<String> = Vec::new();
    let mut from: usize = 0;
    loop
        invariant
            from <= cs@.len(),
            cs@ == s@,
            words_of(s@) == views(out@) + words_from(s@, from as int),
        decreases cs@.len() - from,
    {
        let a: usize = skip_white_from(&cs, from);
        if a >= cs.len() {
            assert(views(out@) + Seq::<Seq<char>>::empty() == views(out@));
            return out;
        }
        let mut b: usize = a;
        while b < cs.len() && !is_white(cs[b])
            invariant
                a <= b <= cs@.len(),
                a < cs@.len(),
                !white(cs@[a as int]),
                word_end(cs@, a as int) == word_end(cs@, b as int),
                b == a ==> b < cs@.len(),
            decreases cs@.len() - b,
        {
            b += 1;
        }
        let ghost before = views(out@);
        out.push(string_of(&cs, a, b));
        proof {
            let w = s@.subrange(a as int, b as int);
            assert(b > a);
            assert(views(out@) == before.push(w));
            assert(before + (seq![w] + words_from(s@, b as int)) == views(out@) + words_from(
                s@,
                b as int,
            ));
        }
        from = b;
    }
}

// ---------------------------------------------------------------------------
// ASCII classes
// ---------------------------------------------------------------------------

pub open spec fn digit(c: char) -> bool {
    '0' <= c <= '9'
}

pub open spec fn alpha(c: char) -> bool {
    ('a' <= c <= 'z') || ('A' <= c <= 'Z')
}

pub open spec fn alnum(c: char) -> bool {
    digit(c) || alpha(c)
}

pub open spec fn hex(c: char) -> bool {
    digit(c) || ('a' <= c <= 'f') || ('A' <= c <= 'F')
}

pub fn is_digit(c: char) -> (r: bool)
    ensures
        r == digit(c),
{
    let u: u32 = c as u32;
    0x30 <= u && u <= 0x39
}

pub fn is_alnum(c: char) -> (r: bool)
    ensures
        r == alnum(c),
{
    let u: u32 = c as u32;
    (0x30 <= u && u <= 0x39) || (0x41 <= u && u <= 0x5a) || (0x61 <= u && u <= 0x7a)
}

pub fn is_hex(c: char) -> (r: bool)
    ensures
        r == hex(c),
{
    let u: u32 = c as u32;
    (0x30 <= u && u <= 0x39) || (0x41 <= u && u <= 0x46) || (0x61 <= u && u <= 0x66)
}

// ---------------------------------------------------------------------------
// Case
// ---------------------------------------------------------------------------

/// Every character is one of ASCII.
pub open spec fn ascii(s: Seq<char>) -> bool {
    forall|i: int| 0 <= i < s.len() ==> (#[trigger] s[i] as u32) < 0x80
}

pub open spec fn lower_char(c: char) -> char {
    if 'A' <= c <= 'Z' {
        (c as u32 + 32) as char
    } else {
        c
    }
}

pub open spec fn upper_char(c: char) -> char {
    if 'a' <= c <= 'z' {
        (c as u32 - 32) as char
    } else {
        c
    }
}

/// The text with its small ASCII letters in upper case.
pub open spec fn ascii_upper(s: Seq<char>) -> Seq<char> {
    Seq::new(s.len(), |i: int| upper_char(s[i]))
}

/// The text with its ASCII capitals in lower case.
pub open spec fn ascii_lower(s: Seq<char>) -> Seq<char> {
    Seq::new(s.len(), |i: int| lower_char(s[i]))
}

pub(crate) fn to_lower_char(c: char) -> (r: char)
    ensures
        r == lower_char(c),
{
    let u: u32 = c as u32;
    if 0x41 <= u && u <= 0x5a {
        ((u as u8) + 32) as char
    } else {
        c
    }
}

/// Whether the texts are the same but for the case of ASCII letters.
pub fn same_but_case(a: &str, b: &str) -> (r: bool)
    ensures
        r == (ascii_lower(a@) == ascii_lower(b@)),
{
    let x: Vec<char> = chars_of(a);
    let y: Vec<char> = chars_of(b);
    if x.len() != y.len() {
        assert(ascii_lower(a@).len() != ascii_lower(b@).len());
        return false;
    }
    let mut i: usize = 0;
    while i < x.len()
        invariant
            x@ == a@,
            y@ == b@,
            x@.len() == y@.len(),
            i <= x@.len(),
            forall|j: int| 0 <= j < i ==> #[trigger] ascii_lower(a@)[j] == ascii_lower(b@)[j],
        decreases x@.len() - i,
    {
        if to_lower_char(x[i]) != to_lower_char(y[i]) {
            assert(ascii_lower(a@)[i as int] != ascii_lower(b@)[i as int]);
            return false;
        }
        i += 1;
    }
    assert(ascii_lower(a@) =~= ascii_lower(b@));
    true
}

/// The character is a letter or a number in any script.
pub uninterp spec fn letter_or_number(c: char) -> bool;

/// `char::is_alphanumeric`: a function of the character, named `letter_or_number`. Of the ASCII characters
/// it holds of the letters and the digits.
#[verifier::external_body]
pub(crate) fn is_alphanumeric(c: char) -> (r: bool)
    ensures
        r == letter_or_number(c),
        (c as u32) < 128 ==> r == alnum(c),
{
    c.is_alphanumeric()
}

/// What `str::to_lowercase` makes of a text.
pub uninterp spec fn lowercase(s: Seq<char>) -> Seq<char>;

/// What `str::to_uppercase` makes of a text.
pub uninterp spec fn uppercase(s: Seq<char>) -> Seq<char>;

/// `str::to_lowercase`: the text with the characters mapped by the Unicode property `Lowercase`. A text of
/// ASCII characters has its capitals in lower case, and else stays as it is.
#[verifier::external_body]
pub(crate) fn to_lower(s: &str) -> (r: String)
    ensures
        r@ == lowercase(s@),
        ascii(s@) ==> r@ == ascii_lower(s@),
{
    s.to_lowercase()
}

/// `str::to_uppercase`: the text with the characters mapped by the Unicode property `Uppercase`. A text of
/// ASCII characters has its small letters in upper case, and else stays as it is.
#[verifier::external_body]
pub(crate) fn to_upper(s: &str) -> (r: String)
    ensures
        r@ == uppercase(s@),
        ascii(s@) ==> r@ == ascii_upper(s@),
{
    s.to_uppercase()
}

/// Whether both are absent, or hold the same text.
pub fn same_opt(a: &Option<String>, b: &Option<String>) -> (r: bool)
    ensures
        r == (opt_view(*a) == opt_view(*b)),
{
    match (a, b) {
        (Some(x), Some(y)) => same(x.as_str(), y.as_str()),
        (None, None) => true,
        _ => false,
    }
}

/// Whether the lists hold the same texts, in the same order.
pub fn same_list(a: &Vec<String>, b: &Vec<String>) -> (r: bool)
    ensures
        r == (views(a@) == views(b@)),
{
    if a.len() != b.len() {
        assert(views(a@).len() != views(b@).len());
        return false;
    }
    let mut i: usize = 0;
    while i < a.len()
        invariant
            a@.len() == b@.len(),
            i <= a@.len(),
            forall|j: int| 0 <= j < i ==> #[trigger] views(a@)[j] == views(b@)[j],
        decreases a@.len() - i,
    {
        assert(views(a@)[i as int] == a@[i as int]@);
        assert(views(b@)[i as int] == b@[i as int]@);
        if !same(a[i].as_str(), b[i].as_str()) {
            return false;
        }
        i += 1;
    }
    assert(views(a@) =~= views(b@));
    true
}

// ---------------------------------------------------------------------------
// Texts by their bytes.

/// How many bytes a character takes.
pub open spec fn char_bytes(c: char) -> int {
    if (c as int) < 0x80 {
        1
    } else if (c as int) < 0x800 {
        2
    } else if (c as int) < 0x10000 {
        3
    } else {
        4
    }
}

fn bytes_of_char(c: char) -> (r: usize)
    ensures
        r == char_bytes(c),
{
    let n: u32 = c as u32;
    if n < 0x80 {
        1
    } else if n < 0x800 {
        2
    } else if n < 0x10000 {
        3
    } else {
        4
    }
}

/// The text can be cut behind its first `n` bytes: no character lies across that place.
pub open spec fn cuts(s: Seq<char>, n: int) -> bool
    decreases s.len(),
{
    n == 0 || (s.len() > 0 && char_bytes(s[0]) <= n && cuts(s.drop_first(), n - char_bytes(s[0])))
}

/// The first `n` bytes of the text, as far as they are whole characters.
pub open spec fn head_bytes(s: Seq<char>, n: int) -> Seq<char>
    decreases s.len(),
{
    if s.len() == 0 || char_bytes(s[0]) > n {
        Seq::empty()
    } else {
        seq![s[0]] + head_bytes(s.drop_first(), n - char_bytes(s[0]))
    }
}

fn head_end(cs: &Vec<char>, n: usize) -> (r: (usize, usize))
    ensures
        r.0 <= cs@.len(),
        head_bytes(cs@, n as int) == cs@.take(r.0 as int),
        (r.1 == 0) == cuts(cs@, n as int),
{
    let mut k: usize = 0;
    let mut left: usize = n;
    assert(cs@.skip(0) =~= cs@);
    assert(cs@.take(0) + head_bytes(cs@, n as int) =~= head_bytes(cs@, n as int));
    while k < cs.len() && bytes_of_char(cs[k]) <= left
        invariant
            k <= cs@.len(),
            head_bytes(cs@, n as int) == cs@.take(k as int) + head_bytes(cs@.skip(k as int), left as int),
            cuts(cs@, n as int) == cuts(cs@.skip(k as int), left as int),
        decreases cs@.len() - k,
    {
        let ghost rest = cs@.skip(k as int);
        assert(rest.drop_first() =~= cs@.skip(k + 1));
        assert(cs@.take(k as int) + (seq![rest[0]] + head_bytes(cs@.skip(k + 1), left - char_bytes(rest[0]))) =~= cs@.take(k + 1)
            + head_bytes(cs@.skip(k + 1), left - char_bytes(rest[0])));
        left = left - bytes_of_char(cs[k]);
        k += 1;
        if left == 0 {
            assert(cuts(cs@.skip(k as int), 0));
        }
    }
    assert(cs@.take(k as int) + Seq::<char>::empty() =~= cs@.take(k as int));
    (k, left)
}

/// The first `n` bytes of the text, as far as they are whole characters.
pub fn head_of(s: &str, n: usize) -> (r: String)
    ensures
        r@ == head_bytes(s@, n as int),
{
    let cs = chars_of(s);
    let k = head_end(&cs, n).0;
    assert(cs@.subrange(0, k as int) =~= cs@.take(k as int));
    string_of(&cs, 0, k)
}

/// Whether the text can be cut behind its first `n` bytes.
pub fn can_cut(s: &str, n: usize) -> (r: bool)
    ensures
        r == cuts(s@, n as int),
{
    head_end(&chars_of(s), n).1 == 0
}

} // verus!
