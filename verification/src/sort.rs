//! Sorting by an order that is total.

use vstd::prelude::*;
use vstd::relations::sorted_by;
use vstd::relations::total_ordering;
use crate::order::before;
use crate::order::is_before;
use crate::order::lemma_before_asymmetric;
use crate::order::lemma_before_irreflexive;
use crate::order::lemma_before_total;
use crate::order::lemma_before_transitive;
use crate::text::views;

verus! {

/// Values in an order where any two that tie are equal.
pub trait Ranked: View + Sized {
    spec fn leq(a: Self::V, b: Self::V) -> bool;

    proof fn lemma_total()
        ensures
            total_ordering(|a: Self::V, b: Self::V| Self::leq(a, b)),
    ;

    fn not_after(&self, other: &Self) -> (r: bool)
        ensures
            r == Self::leq(self@, other@),
    ;
}

/// The values in their order.
pub open spec fn in_order<T: Ranked>(s: Seq<T::V>) -> Seq<T::V> {
    s.sort_by(|a: T::V, b: T::V| T::leq(a, b))
}

proof fn lemma_insert_counts<A>(s: Seq<A>, k: int, x: A)
    requires
        0 <= k <= s.len(),
    ensures
        s.insert(k, x).to_multiset() == s.to_multiset().insert(x),
{
    let a = s.take(k);
    let b = s.skip(k);
    assert(s =~= a + b);
    assert(s.insert(k, x) =~= a.push(x) + b);
    vstd::seq_lib::lemma_multiset_commutative(a, b);
    vstd::seq_lib::lemma_multiset_commutative(a.push(x), b);
    a.to_multiset_ensures();
    assert(s.insert(k, x).to_multiset() =~= s.to_multiset().insert(x));
}

/// The values in their order.
pub fn sort<T: Ranked>(v: Vec<T>) -> (r: Vec<T>)
    ensures
        views(r@) == in_order::<T>(views(v@)),
{
    let ghost all = v@;
    let ghost leq = |a: T::V, b: T::V| T::leq(a, b);
    let mut rest = v;
    let mut r: Vec<T> = Vec::new();
    proof {
        T::lemma_total();
        assert(views(rest@).to_multiset().add(views(r@).to_multiset()) =~= views(all).to_multiset()) by {
            assert(views(r@) =~= Seq::<T::V>::empty());
            views(r@).to_multiset_ensures();
        }
    }
    loop
        invariant
            leq == (|a: T::V, b: T::V| T::leq(a, b)),
            total_ordering(leq),
            sorted_by(views(r@), leq),
            views(rest@).to_multiset().add(views(r@).to_multiset()) == views(all).to_multiset(),
        ensures
            rest@.len() == 0,
            sorted_by(views(r@), leq),
            views(rest@).to_multiset().add(views(r@).to_multiset()) == views(all).to_multiset(),
        decreases rest@.len(),
    {
        let ghost before_rest = rest@;
        match rest.pop() {
            None => {
                break;
            }
            Some(x) => {
                proof {
                    assert(views(before_rest) =~= views(rest@).push(x@));
                    views(rest@).to_multiset_ensures();
                }
                let mut k: usize = 0;
                while k < r.len() && r[k].not_after(&x)
                    invariant
                        k <= r@.len(),
                        leq == (|a: T::V, b: T::V| T::leq(a, b)),
                        forall|j: int| 0 <= j < k ==> leq(#[trigger] views(r@)[j], x@),
                    decreases r@.len() - k,
                {
                    assert(views(r@)[k as int] == r@[k as int]@);
                    k += 1;
                }
                let ghost s = views(r@);
                proof {
                    if k < r@.len() {
                        assert(s[k as int] == r@[k as int]@);
                        assert(!leq(s[k as int], x@));
                        assert(leq(x@, s[k as int]));
                        assert forall|j: int| k <= j < s.len() implies leq(x@, #[trigger] s[j]) by {
                            if j > k {
                                assert(leq(s[k as int], s[j]));
                            }
                        }
                    }
                }
                let ghost xv = x@;
                r.insert(k, x);
                proof {
                    let t = views(r@);
                    assert(t =~= s.insert(k as int, xv));
                    assert forall|i: int, j: int| 0 <= i < j < t.len() implies #[trigger] leq(t[i], t[j]) by {
                        let i2 = if i < k { i } else { i - 1 };
                        let j2 = if j < k { j } else { j - 1 };
                        if i != k && j != k {
                            assert(leq(s[i2], s[j2]));
                        } else if j == k {
                            assert(leq(s[i2], xv));
                        } else {
                            assert(leq(xv, s[j2]));
                        }
                    }
                    lemma_insert_counts(s, k as int, xv);
                    assert(views(rest@).to_multiset().insert(xv).add(s.to_multiset()) =~= views(rest@).to_multiset().add(
                        s.to_multiset().insert(xv),
                    ));
                }
            }
        }
    }
    proof {
        assert(views(rest@) =~= Seq::<T::V>::empty());
        views(rest@).to_multiset_ensures();
        assert(views(rest@).to_multiset().add(views(r@).to_multiset()) =~= views(r@).to_multiset());
        views(all).lemma_sort_by_ensures(leq);
        vstd::seq_lib::lemma_sorted_unique(views(r@), views(all).sort_by(leq), leq);
    }
    r
}

impl Ranked for String {
    open spec fn leq(a: Seq<char>, b: Seq<char>) -> bool {
        a == b || before(a, b)
    }

    proof fn lemma_total() {
        let leq = |a: Seq<char>, b: Seq<char>| Self::leq(a, b);
        assert forall|x: Seq<char>, y: Seq<char>| #[trigger] leq(x, y) && #[trigger] leq(y, x) implies x == y by {
            if x != y {
                lemma_before_asymmetric(x, y);
            }
        }
        assert forall|x: Seq<char>, y: Seq<char>, z: Seq<char>| #[trigger] leq(x, y) && #[trigger] leq(y, z) implies leq(
            x,
            z,
        ) by {
            if x != y && y != z {
                lemma_before_transitive(x, y, z);
            }
        }
        assert forall|x: Seq<char>, y: Seq<char>| #[trigger] leq(x, y) || #[trigger] leq(y, x) by {
            lemma_before_total(x, y);
        }
    }

    fn not_after(&self, other: &String) -> (r: bool) {
        proof {
            lemma_before_total(self@, other@);
            lemma_before_irreflexive(self@);
            if before(self@, other@) {
                lemma_before_asymmetric(self@, other@);
            }
        }
        !is_before(other.as_str(), self.as_str())
    }
}

} // verus!
