//! Lists of all the values that something can take.

use vstd::prelude::*;

verus! {

/// What two lists hold together is what one of them holds.
pub proof fn lemma_concat<A>(a: Seq<A>, b: Seq<A>, x: A)
    ensures
        (a + b).contains(x) == (a.contains(x) || b.contains(x)),
{
    let c = a + b;
    if a.contains(x) {
        let i = choose|i: int| 0 <= i < a.len() && a[i] == x;
        assert(c[i] == x);
    }
    if b.contains(x) {
        let i = choose|i: int| 0 <= i < b.len() && b[i] == x;
        assert(c[a.len() + i] == x);
    }
    if c.contains(x) {
        let i = choose|i: int| 0 <= i < c.len() && c[i] == x;
        if i < a.len() {
            assert(a[i] == x);
        } else {
            assert(b[i - a.len()] == x);
        }
    }
}

/// Every pair of an element of `a` and an element of `b`.
pub open spec fn pairs<A, B>(a: Seq<A>, b: Seq<B>) -> Seq<(A, B)>
    decreases a.len(),
{
    if a.len() == 0 {
        Seq::empty()
    } else {
        pairs(a.drop_last(), b) + b.map_values(|y: B| (a.last(), y))
    }
}

/// The pairs hold each pair.
pub proof fn lemma_pairs<A, B>(a: Seq<A>, b: Seq<B>, x: A, y: B)
    requires
        a.contains(x),
        b.contains(y),
    ensures
        pairs(a, b).contains((x, y)),
    decreases a.len(),
{
    let tail = b.map_values(|y: B| (a.last(), y));
    lemma_concat(pairs(a.drop_last(), b), tail, (x, y));
    if a.last() == x {
        let j = choose|j: int| 0 <= j < b.len() && b[j] == y;
        assert(tail[j] == (x, y));
    } else {
        let i = choose|i: int| 0 <= i < a.len() && a[i] == x;
        assert(a.drop_last()[i] == x);
        lemma_pairs(a.drop_last(), b, x, y);
    }
}

/// The numbers below `n`.
pub open spec fn upto(n: int) -> Seq<int> {
    Seq::new(n as nat, |i: int| i)
}

/// A list without repetition is no longer than the set that its members come from.
pub proof fn lemma_no_longer<A>(s: Seq<A>, all: Seq<A>)
    requires
        s.no_duplicates(),
        forall|i: int| 0 <= i < s.len() ==> all.contains(#[trigger] s[i]),
    ensures
        s.len() <= all.to_set().len(),
{
    s.unique_seq_to_set();
    vstd::seq_lib::seq_to_set_is_finite(all);
    assert forall|x: A| s.to_set().contains(x) implies all.to_set().contains(x) by {
        let i = choose|i: int| 0 <= i < s.len() && s[i] == x;
        assert(all.contains(s[i]));
    }
    vstd::set_lib::lemma_len_subset(s.to_set(), all.to_set());
}

} // verus!
