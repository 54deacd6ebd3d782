//! Sets of strings and maps from strings, kept in ascending order.

use vstd::prelude::*;
use crate::order::ascending;
use crate::order::before;
use crate::order::is_before;
use crate::order::lemma_ascending_unique;
use crate::order::lemma_before_irreflexive;
use crate::order::lemma_before_total;
use crate::order::lemma_before_transitive;
use crate::text::same;
use crate::text::views;

verus! {

/// Where `key` stands in the ascending `keys`, or belongs.
pub(crate) fn place_of(keys: &Vec<String>, key: &str) -> (r: (usize, bool))
    requires
        ascending(views(keys@)),
    ensures
        r.0 <= keys@.len(),
        r.1 == views(keys@).contains(key@),
        r.1 ==> r.0 < keys@.len() && keys@[r.0 as int]@ == key@,
        !r.1 ==> forall|j: int| 0 <= j < r.0 ==> before(#[trigger] keys@[j]@, key@),
        !r.1 ==> forall|j: int| r.0 <= j < keys@.len() ==> before(key@, #[trigger] keys@[j]@),
{
    let mut i: usize = 0;
    let ghost vs = views(keys@);
    while i < keys.len()
        invariant
            i <= keys@.len(),
            vs == views(keys@),
            ascending(vs),
            forall|j: int| 0 <= j < i ==> before(#[trigger] keys@[j]@, key@),
        decreases keys@.len() - i,
    {
        if !is_before(keys[i].as_str(), key) {
            let found: bool = same(keys[i].as_str(), key);
            proof {
                assert(vs[i as int] == keys@[i as int]@);
                if !found {
                    lemma_before_total(keys@[i as int]@, key@);
                    assert forall|j: int| i <= j < keys@.len() implies before(key@, #[trigger] keys@[j]@) by {
                        if j > i {
                            assert(before(vs[i as int], vs[j]));
                            lemma_before_transitive(key@, keys@[i as int]@, keys@[j]@);
                        }
                    }
                    if vs.contains(key@) {
                        let k = choose|k: int| 0 <= k < vs.len() && vs[k] == key@;
                        assert(keys@[k]@ == key@);
                        lemma_before_irreflexive(key@);
                        assert(false);
                    }
                }
            }
            return (i, found);
        }
        i += 1;
    }
    proof {
        if vs.contains(key@) {
            let k = choose|k: int| 0 <= k < vs.len() && vs[k] == key@;
            assert(keys@[k]@ == key@);
            lemma_before_irreflexive(key@);
            assert(false);
        }
    }
    (i, false)
}

/// Inserting a new string at its place keeps the order, and adds that string.
pub(crate) proof fn lemma_insert_ascending(s: Seq<Seq<char>>, i: int, x: Seq<char>)
    requires
        ascending(s),
        0 <= i <= s.len(),
        forall|j: int| 0 <= j < i ==> before(#[trigger] s[j], x),
        forall|j: int| i <= j < s.len() ==> before(x, #[trigger] s[j]),
    ensures
        ascending(s.insert(i, x)),
        s.insert(i, x).to_set() == s.to_set().insert(x),
{
    let t = s.insert(i, x);
    assert forall|a: int, b: int| 0 <= a < b < t.len() implies #[trigger] before(t[a], t[b]) by {
        let a0 = if a < i { a } else { a - 1 };
        let b0 = if b < i { b } else { b - 1 };
        if a != i && b != i {
            assert(t[a] == s[a0] && t[b] == s[b0]);
            assert(before(s[a0], s[b0]));
        } else if a == i {
            assert(t[b] == s[b0]);
        } else {
            assert(t[a] == s[a0]);
        }
    }
    assert forall|y: Seq<char>| t.to_set().contains(y) == s.to_set().insert(x).contains(y) by {
        if t.contains(y) {
            let k = choose|k: int| 0 <= k < t.len() && t[k] == y;
            if k < i {
                assert(s[k] == y);
            } else if k > i {
                assert(s[k - 1] == y);
            }
        }
        if s.contains(y) {
            let k = choose|k: int| 0 <= k < s.len() && s[k] == y;
            if k < i {
                assert(t[k] == y);
            } else {
                assert(t[k + 1] == y);
            }
        }
        assert(t[i] == x);
    }
    assert(t.to_set() =~= s.to_set().insert(x));
}

/// The members of a set in ascending order.
pub open spec fn listed(s: Set<Seq<char>>) -> Seq<Seq<char>> {
    choose|l: Seq<Seq<char>>| ascending(l) && #[trigger] l.to_set() == s
}

/// An ascending list is the one of its members.
pub proof fn lemma_listed(l: Seq<Seq<char>>)
    requires
        ascending(l),
    ensures
        listed(l.to_set()) == l,
{
    lemma_ascending_unique(listed(l.to_set()), l);
}

/// How many of the ascending strings come before `x`.
spec fn rank_in(l: Seq<Seq<char>>, x: Seq<char>, k: int) -> int
    decreases l.len() - k,
{
    if k < 0 || k >= l.len() || !before(l[k], x) {
        k
    } else {
        rank_in(l, x, k + 1)
    }
}

proof fn lemma_rank_in(l: Seq<Seq<char>>, x: Seq<char>, k: int)
    requires
        ascending(l),
        !l.contains(x),
        0 <= k <= l.len(),
        forall|j: int| 0 <= j < k ==> before(#[trigger] l[j], x),
    ensures
        0 <= rank_in(l, x, k) <= l.len(),
        forall|j: int| 0 <= j < rank_in(l, x, k) ==> before(#[trigger] l[j], x),
        forall|j: int| rank_in(l, x, k) <= j < l.len() ==> before(x, #[trigger] l[j]),
    decreases l.len() - k,
{
    if k < l.len() {
        lemma_before_total(l[k], x);
        assert(l[k] != x);
        if before(l[k], x) {
            lemma_rank_in(l, x, k + 1);
        } else {
            assert forall|j: int| k <= j < l.len() implies before(x, #[trigger] l[j]) by {
                if j > k {
                    assert(before(l[k], l[j]));
                    lemma_before_transitive(x, l[k], l[j]);
                }
            }
        }
    }
}

/// A finite set has a list of its members in ascending order.
pub proof fn lemma_listed_finite(s: Set<Seq<char>>)
    requires
        s.finite(),
    ensures
        ascending(listed(s)),
        listed(s).to_set() == s,
    decreases s.len(),
{
    if s.len() == 0 {
        let l = Seq::<Seq<char>>::empty();
        assert(l.to_set() =~= s);
        assert(ascending(l));
    } else {
        let x = s.choose();
        let t = s.remove(x);
        lemma_listed_finite(t);
        let l = listed(t);
        assert(!l.contains(x)) by {
            if l.contains(x) {
                assert(l.to_set().contains(x));
            }
        }
        lemma_rank_in(l, x, 0);
        let i = rank_in(l, x, 0);
        lemma_insert_ascending(l, i, x);
        assert(l.insert(i, x).to_set() =~= s);
    }
}

/// A set of strings that lists its members in ascending order.
#[derive(Debug)]
pub struct StrSet {
    items: Vec<String>,
}

impl View for StrSet {
    type V = Set<Seq<char>>;

    closed spec fn view(&self) -> Set<Seq<char>> {
        views(self.items@).to_set()
    }
}

impl StrSet {
    #[verifier::type_invariant]
    spec fn inv(self) -> bool {
        ascending(views(self.items@))
    }

    pub fn new() -> (r: StrSet)
        ensures
            r@ == Set::<Seq<char>>::empty(),
    {
        let r = StrSet { items: Vec::new() };
        assert(r@ =~= Set::<Seq<char>>::empty());
        r
    }

    pub fn contains(&self, s: &str) -> (r: bool)
        ensures
            r == self@.contains(s@),
    {
        proof {
            use_type_invariant(self);
        }
        place_of(&self.items, s).1
    }

    /// Adds the string; whether it was absent.
    pub fn insert(&mut self, s: &str) -> (fresh: bool)
        ensures
            final(self)@ == old(self)@.insert(s@),
            fresh == !old(self)@.contains(s@),
    {
        proof {
            use_type_invariant(&*self);
        }
        let mut items: Vec<String> = Vec::new();
        std::mem::swap(&mut items, &mut self.items);
        let ghost was = views(items@);
        let (i, found) = place_of(&items, s);
        if found {
            self.items = items;
            assert(was.to_set().insert(s@) =~= was.to_set());
            return false;
        }
        items.insert(i, s.to_owned());
        proof {
            assert forall|j: int| 0 <= j < i implies before(#[trigger] was[j], s@) by {}
            assert(views(items@) =~= was.insert(i as int, s@));
            lemma_insert_ascending(was, i as int, s@);
        }
        self.items = items;
        true
    }

    /// The members in ascending order.
    pub fn items(&self) -> (r: &Vec<String>)
        ensures
            ascending(views(r@)),
            views(r@).to_set() == self@,
            views(r@) == listed(self@),
    {
        proof {
            use_type_invariant(self);
            lemma_listed(views(self.items@));
        }
        &self.items
    }

    pub fn is_empty(&self) -> (r: bool)
        ensures
            r == (self@ == Set::<Seq<char>>::empty()),
    {
        let r: bool = self.items.len() == 0;
        proof {
            if r {
                assert(self@ =~= Set::<Seq<char>>::empty());
            } else {
                assert(views(self.items@)[0] == self.items@[0]@);
                assert(self@.contains(self.items@[0]@));
            }
        }
        r
    }

    /// Whether the other set has the same members.
    pub fn same_as(&self, other: &StrSet) -> (r: bool)
        ensures
            r == (self@ == other@),
    {
        proof {
            use_type_invariant(self);
            use_type_invariant(other);
        }
        let ghost a = views(self.items@);
        let ghost b = views(other.items@);
        if self.items.len() != other.items.len() {
            proof {
                if self@ == other@ {
                    lemma_ascending_unique(a, b);
                }
            }
            return false;
        }
        let mut i: usize = 0;
        while i < self.items.len()
            invariant
                i <= self.items@.len(),
                self.items@.len() == other.items@.len(),
                a == views(self.items@),
                b == views(other.items@),
                ascending(a),
                ascending(b),
                forall|j: int| 0 <= j < i ==> a[j] == b[j],
            decreases self.items@.len() - i,
        {
            if !same(self.items[i].as_str(), other.items[i].as_str()) {
                proof {
                    assert(a[i as int] != b[i as int]);
                    if self@ == other@ {
                        lemma_ascending_unique(a, b);
                    }
                }
                return false;
            }
            i += 1;
        }
        assert(a =~= b);
        true
    }

    /// A set with the same members.
    pub fn dup(&self) -> (r: StrSet)
        ensures
            r@ == self@,
    {
        proof {
            use_type_invariant(self);
        }
        let items: Vec<String> = self.items.clone();
        assert(items@ =~= self.items@);
        StrSet { items }
    }
}

/// A map from strings that lists its keys in ascending order.
#[derive(Debug)]
pub struct StrMap<V> {
    names: Vec<String>,
    vals: Vec<V>,
}

impl<V> View for StrMap<V> {
    type V = Map<Seq<char>, V>;

    closed spec fn view(&self) -> Map<Seq<char>, V> {
        Map::new(
            |k: Seq<char>| views(self.names@).contains(k),
            |k: Seq<char>| self.vals@[views(self.names@).index_of(k)],
        )
    }
}

proof fn lemma_index_of(s: Seq<Seq<char>>, i: int)
    requires
        ascending(s),
        0 <= i < s.len(),
    ensures
        s.index_of(s[i]) == i,
        s.contains(s[i]),
{
    let k = s.index_of(s[i]);
    assert(0 <= k < s.len() && s[k] == s[i]);
    if k < i {
        assert(before(s[k], s[i]));
        lemma_before_irreflexive(s[i]);
    } else if i < k {
        assert(before(s[i], s[k]));
        lemma_before_irreflexive(s[i]);
    }
}

impl<V> StrMap<V> {
    #[verifier::type_invariant]
    spec fn inv(self) -> bool {
        ascending(views(self.names@)) && self.names@.len() == self.vals@.len()
    }

    pub fn new() -> (r: StrMap<V>)
        ensures
            r@ == Map::<Seq<char>, V>::empty(),
    {
        let r = StrMap { names: Vec::new(), vals: Vec::new() };
        assert(r@ =~= Map::<Seq<char>, V>::empty());
        r
    }

    /// The keys in ascending order.
    pub closed spec fn key_list(self) -> Seq<Seq<char>> {
        views(self.names@)
    }

    /// The keys of the map are those of its list of keys.
    pub proof fn lemma_key_list(self)
        ensures
            self.key_list().to_set() == self@.dom(),
            forall|k: Seq<char>| #[trigger] self@.contains_key(k) == self.key_list().contains(k),
    {
        assert(self.key_list().to_set() =~= self@.dom());
    }

    /// A map has finitely many keys.
    pub proof fn lemma_finite(&self)
        ensures
            self@.dom().finite(),
    {
        let l = self.key_list();
        assert(l.to_set() =~= self@.dom());
        vstd::seq_lib::seq_to_set_is_finite(l);
    }

    pub fn get(&self, key: &str) -> (r: Option<&V>)
        ensures
            r.is_some() == self@.contains_key(key@),
            r.is_some() ==> *r.unwrap() == self@[key@],
    {
        proof {
            use_type_invariant(self);
        }
        let (i, found) = place_of(&self.names, key);
        if found {
            proof {
                assert(views(self.names@)[i as int] == key@);
                lemma_index_of(views(self.names@), i as int);
            }
            Some(&self.vals[i])
        } else {
            None
        }
    }

    pub fn has(&self, key: &str) -> (r: bool)
        ensures
            r == self@.contains_key(key@),
    {
        proof {
            use_type_invariant(self);
        }
        place_of(&self.names, key).1
    }

    /// Puts `val` under `key`, in place of what was there.
    pub fn insert(&mut self, key: &str, val: V)
        ensures
            final(self)@ == old(self)@.insert(key@, val),
    {
        proof {
            use_type_invariant(&*self);
        }
        let mut m: StrMap<V> = StrMap { names: Vec::new(), vals: Vec::new() };
        std::mem::swap(&mut m, self);
        proof {
            use_type_invariant(&m);
        }
        let StrMap { mut names, mut vals } = m;
        let ghost was = views(names@);
        let ghost was_vals = vals@;
        let (i, found) = place_of(&names, key);
        if found {
            vals.set(i, val);
            *self = StrMap { names, vals };
            proof {
                assert(was[i as int] == key@);
                lemma_index_of(was, i as int);
                assert forall|k: Seq<char>| was.contains(k) && k != key@ implies self@[k] == old(self)@[k] by {
                    let j = was.index_of(k);
                    assert(was[j] == k);
                }
                assert(self@ =~= old(self)@.insert(key@, val));
            }
            return;
        }
        names.insert(i, key.to_owned());
        vals.insert(i, val);
        proof {
            assert forall|j: int| 0 <= j < i implies before(#[trigger] was[j], key@) by {}
            assert(views(names@) =~= was.insert(i as int, key@));
            lemma_insert_ascending(was, i as int, key@);
        }
        *self = StrMap { names, vals };
        proof {
            let now = views(names@);
            assert(now[i as int] == key@);
            lemma_index_of(now, i as int);
            assert forall|k: Seq<char>| #[trigger] was.contains(k) implies now.contains(k) && k != key@
                && self@[k] == old(self)@[k] by {
                let j = was.index_of(k);
                assert(was[j] == k);
                let j2 = if j < i { j } else { j + 1 };
                assert(now[j2] == k);
                lemma_index_of(now, j2);
                lemma_index_of(was, j);
                lemma_before_irreflexive(k);
            }
            assert forall|k: Seq<char>| now.contains(k) && k != key@ implies was.contains(k) by {
                assert(now.to_set().contains(k));
            }
            assert(self@ =~= old(self)@.insert(key@, val));
        }
    }

    /// Takes away what is under `key`.
    pub fn remove(&mut self, key: &str)
        ensures
            final(self)@ == old(self)@.remove(key@),
    {
        proof {
            use_type_invariant(&*self);
        }
        let mut m: StrMap<V> = StrMap { names: Vec::new(), vals: Vec::new() };
        std::mem::swap(&mut m, self);
        proof {
            use_type_invariant(&m);
        }
        let StrMap { mut names, mut vals } = m;
        let ghost was = views(names@);
        let (i, found) = place_of(&names, key);
        if !found {
            *self = StrMap { names, vals };
            assert(self@ =~= old(self)@.remove(key@));
            return;
        }
        names.remove(i);
        vals.remove(i);
        let ghost now = views(names@);
        proof {
            assert(was[i as int] == key@);
            assert(now =~= was.remove(i as int));
            assert forall|a: int, b: int| 0 <= a < b < now.len() implies #[trigger] before(now[a], now[b]) by {
                let a0 = if a < i { a } else { a + 1 };
                let b0 = if b < i { b } else { b + 1 };
                assert(now[a] == was[a0] && now[b] == was[b0]);
                assert(before(was[a0], was[b0]));
            }
        }
        *self = StrMap { names, vals };
        proof {
            lemma_index_of(was, i as int);
            assert forall|k: Seq<char>| #[trigger] now.contains(k) == (was.contains(k) && k != key@) by {
                if now.contains(k) {
                    let a = now.index_of(k);
                    let a0 = if a < i { a } else { a + 1 };
                    assert(was[a0] == k);
                    lemma_index_of(was, a0);
                }
                if was.contains(k) && k != key@ {
                    let a = was.index_of(k);
                    assert(was[a] == k);
                    let a0 = if a < i { a } else { a - 1 };
                    assert(now[a0] == k);
                }
            }
            assert forall|k: Seq<char>| #[trigger] now.contains(k) implies self@[k] == old(self)@[k] by {
                let a = now.index_of(k);
                let a0 = if a < i { a } else { a + 1 };
                assert(was[a0] == k);
                lemma_index_of(was, a0);
                lemma_index_of(now, a);
            }
            assert(self@ =~= old(self)@.remove(key@));
        }
    }

    /// The keys in ascending order.
    pub fn keys(&self) -> (r: &Vec<String>)
        ensures
            ascending(views(r@)),
            views(r@).to_set() == self@.dom(),
            views(r@) == self.key_list(),
            views(r@) == listed(self@.dom()),
    {
        proof {
            use_type_invariant(self);
            assert(views(self.names@).to_set() =~= self@.dom());
            lemma_listed(views(self.names@));
        }
        &self.names
    }
}

} // verus!
