//! Sets of numbers, and of pairs of numbers, as ascending lists.

use vstd::prelude::*;

verus! {

/// Each number is below the next.
pub open spec fn rising(s: Seq<usize>) -> bool {
    forall|i: int, j: int| 0 <= i < j < s.len() ==> s[i] < s[j]
}

/// Pairs by their first numbers, and by the second where those are equal.
pub open spec fn pair_before(a: (usize, usize), b: (usize, usize)) -> bool {
    a.0 < b.0 || (a.0 == b.0 && a.1 < b.1)
}

/// Each pair comes before the next.
pub open spec fn rising_pairs(s: Seq<(usize, usize)>) -> bool {
    forall|i: int, j: int| 0 <= i < j < s.len() ==> pair_before(#[trigger] s[i], #[trigger] s[j])
}

/// Whether the list holds the number.
pub fn has(v: &Vec<usize>, x: usize) -> (r: bool)
    ensures
        r == v@.contains(x),
{
    let mut i: usize = 0;
    while i < v.len()
        invariant
            i <= v@.len(),
            forall|j: int| 0 <= j < i ==> v@[j] != x,
        decreases v@.len() - i,
    {
        if v[i] == x {
            return true;
        }
        i += 1;
    }
    false
}

/// Adds the number to the set; whether it was absent.
pub fn insert(v: &mut Vec<usize>, x: usize) -> (fresh: bool)
    requires
        rising(old(v)@),
    ensures
        rising(final(v)@),
        final(v)@.to_set() == old(v)@.to_set().insert(x),
        fresh == !old(v)@.contains(x),
        forall|y: usize| #![auto] final(v)@.contains(y) == (old(v)@.contains(y) || y == x),
{
    let mut i: usize = 0;
    while i < v.len() && v[i] < x
        invariant
            i <= v@.len(),
            v@ == old(v)@,
            forall|j: int| 0 <= j < i ==> v@[j] < x,
        decreases v@.len() - i,
    {
        i += 1;
    }
    if i < v.len() && v[i] == x {
        assert(v@.to_set().insert(x) =~= v@.to_set());
        return false;
    }
    let ghost s = v@;
    v.insert(i, x);
    proof {
        let t = v@;
        assert(t[i as int] == x);
        assert forall|y: usize| #![auto] t.contains(y) == (s.contains(y) || y == x) by {
            if t.contains(y) {
                let k = choose|k: int| 0 <= k < t.len() && t[k] == y;
                if k < i {
                    assert(s[k] == y);
                } else if k > i {
                    assert(s[k - 1] == y);
                }
            }
            if s.contains(y) {
                let k = choose|k: int| 0 <= k < s.len() && s[k] == y;
                if k < i {
                    assert(t[k] == y);
                } else {
                    assert(t[k + 1] == y);
                }
            }
        }
        assert(t.to_set() =~= s.to_set().insert(x));
        assert(rising(t)) by {
            assert forall|a: int, b: int| 0 <= a < b < t.len() implies t[a] < t[b] by {
                let a0 = if a < i { a } else { a - 1 };
                let b0 = if b < i { b } else { b - 1 };
                if a != i && b != i {
                    assert(t[a] == s[a0] && t[b] == s[b0]);
                } else if a == i {
                    assert(t[b] == s[b0]);
                    assert(i < s.len());
                    assert(s[i as int] > x);
                } else {
                    assert(t[a] == s[a0]);
                }
            }
        }
        if s.contains(x) {
            let k = choose|k: int| 0 <= k < s.len() && s[k] == x;
            assert(k >= i);
            assert(false);
        }
    }
    true
}

/// Adds the pair to the set; whether it was absent.
pub fn insert_pair(v: &mut Vec<(usize, usize)>, x: (usize, usize)) -> (fresh: bool)
    requires
        rising_pairs(old(v)@),
    ensures
        rising_pairs(final(v)@),
        final(v)@.to_set() == old(v)@.to_set().insert(x),
        fresh == !old(v)@.contains(x),
        forall|y: (usize, usize)| #![auto] final(v)@.contains(y) == (old(v)@.contains(y) || y == x),
{
    let mut i: usize = 0;
    while i < v.len() && (v[i].0 < x.0 || (v[i].0 == x.0 && v[i].1 < x.1))
        invariant
            i <= v@.len(),
            v@ == old(v)@,
            forall|j: int| 0 <= j < i ==> pair_before(#[trigger] v@[j], x),
        decreases v@.len() - i,
    {
        i += 1;
    }
    if i < v.len() && v[i].0 == x.0 && v[i].1 == x.1 {
        assert(v@[i as int] == x);
        assert(v@.to_set().insert(x) =~= v@.to_set());
        return false;
    }
    let ghost s = v@;
    v.insert(i, x);
    proof {
        let t = v@;
        assert(t[i as int] == x);
        assert forall|y: (usize, usize)| #![auto] t.contains(y) == (s.contains(y) || y == x) by {
            if t.contains(y) {
                let k = choose|k: int| 0 <= k < t.len() && t[k] == y;
                if k < i {
                    assert(s[k] == y);
                } else if k > i {
                    assert(s[k - 1] == y);
                }
            }
            if s.contains(y) {
                let k = choose|k: int| 0 <= k < s.len() && s[k] == y;
                if k < i {
                    assert(t[k] == y);
                } else {
                    assert(t[k + 1] == y);
                }
            }
        }
        assert(t.to_set() =~= s.to_set().insert(x));
        assert(rising_pairs(t)) by {
            assert forall|a: int, b: int| 0 <= a < b < t.len() implies pair_before(
                #[trigger] t[a],
                #[trigger] t[b],
            ) by {
                let a0 = if a < i { a } else { a - 1 };
                let b0 = if b < i { b } else { b - 1 };
                if a != i && b != i {
                    assert(t[a] == s[a0] && t[b] == s[b0]);
                } else if a == i {
                    assert(t[b] == s[b0]);
                    assert(i < s.len());
                    assert(pair_before(x, s[i as int]));
                    if b0 > i {
                        assert(pair_before(s[i as int], s[b0]));
                    }
                } else {
                    assert(t[a] == s[a0]);
                }
            }
        }
        if s.contains(x) {
            let k = choose|k: int| 0 <= k < s.len() && s[k] == x;
            assert(!pair_before(x, x));
            assert(k >= i);
            if k > i {
                assert(pair_before(s[i as int], s[k]));
            }
            assert(false);
        }
    }
    true
}

} // verus!
