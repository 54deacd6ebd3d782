//! A map whose keys are compared one by one.

use vstd::prelude::*;
use crate::text::views;

verus! {

/// Values that can stand as keys: two are the same where their models are.
pub trait Keyed: View + Sized {
    fn same_key(&self, other: &Self) -> (r: bool)
        ensures
            r == (self@ == other@),
    ;
}

/// No key occurs twice.
pub open spec fn distinct<T>(s: Seq<T>) -> bool {
    forall|i: int, j: int| 0 <= i < j < s.len() ==> #[trigger] s[i] != #[trigger] s[j]
}

/// A map that lists its keys in the order in which they came.
pub struct KeyMap<K: Keyed, V> {
    keys: Vec<K>,
    vals: Vec<V>,
}

impl<K: Keyed, V> View for KeyMap<K, V> {
    type V = Map<K::V, V>;

    closed spec fn view(&self) -> Map<K::V, V> {
        Map::new(
            |k: K::V| views(self.keys@).contains(k),
            |k: K::V| self.vals@[views(self.keys@).index_of(k)],
        )
    }
}

proof fn lemma_place<T>(s: Seq<T>, i: int)
    requires
        distinct(s),
        0 <= i < s.len(),
    ensures
        s.contains(s[i]),
        s.index_of(s[i]) == i,
{
    let k = s.index_of(s[i]);
    assert(0 <= k < s.len() && s[k] == s[i]);
    if k < i {
        assert(s[k] != s[i]);
    } else if i < k {
        assert(s[i] != s[k]);
    }
}

impl<K: Keyed, V> KeyMap<K, V> {
    #[verifier::type_invariant]
    spec fn inv(self) -> bool {
        distinct(views(self.keys@)) && self.keys@.len() == self.vals@.len()
    }

    pub fn new() -> (r: KeyMap<K, V>)
        ensures
            r@ == Map::<K::V, V>::empty(),
    {
        let r = KeyMap { keys: Vec::new(), vals: Vec::new() };
        assert(r@ =~= Map::<K::V, V>::empty());
        r
    }

    /// The keys in the order in which they came.
    pub closed spec fn key_list(self) -> Seq<K::V> {
        views(self.keys@)
    }

    fn place(keys: &Vec<K>, key: &K) -> (r: Option<usize>)
        requires
            distinct(views(keys@)),
        ensures
            match r {
                Some(i) => i < keys@.len() && views(keys@)[i as int] == key@,
                None => !views(keys@).contains(key@),
            },
    {
        let ghost kv = views(keys@);
        let mut i: usize = 0;
        while i < keys.len()
            invariant
                i <= keys@.len(),
                kv == views(keys@),
                forall|j: int| 0 <= j < i ==> kv[j] != key@,
            decreases keys@.len() - i,
        {
            assert(kv[i as int] == keys@[i as int]@);
            if keys[i].same_key(key) {
                return Some(i);
            }
            i += 1;
        }
        None
    }

    pub fn get(&self, key: &K) -> (r: Option<&V>)
        ensures
            r.is_some() == self@.contains_key(key@),
            r.is_some() ==> *r.unwrap() == self@[key@],
    {
        proof {
            use_type_invariant(self);
        }
        match KeyMap::<K, V>::place(&self.keys, key) {
            Some(i) => {
                proof {
                    lemma_place(views(self.keys@), i as int);
                }
                Some(&self.vals[i])
            },
            None => None,
        }
    }

    /// Puts `val` under `key`, in place of what was there.
    pub fn insert(&mut self, key: K, val: V)
        ensures
            final(self)@ == old(self)@.insert(key@, val),
    {
        proof {
            use_type_invariant(&*self);
        }
        let mut m: KeyMap<K, V> = KeyMap { keys: Vec::new(), vals: Vec::new() };
        std::mem::swap(&mut m, self);
        proof {
            use_type_invariant(&m);
        }
        let KeyMap { mut keys, mut vals } = m;
        let ghost was = views(keys@);
        let ghost was_vals = vals@;
        match KeyMap::<K, V>::place(&keys, &key) {
            Some(i) => {
                vals.set(i, val);
                *self = KeyMap { keys, vals };
                proof {
                    lemma_place(was, i as int);
                    assert forall|k: K::V| was.contains(k) && k != key@ implies self@[k] == old(self)@[k] by {
                        let j = was.index_of(k);
                        assert(was[j] == k);
                    }
                    assert(self@ =~= old(self)@.insert(key@, val));
                }
            },
            None => {
                let ghost kv = key@;
                keys.push(key);
                vals.push(val);
                let ghost now = views(keys@);
                assert(now =~= was.push(kv));
                assert(distinct(now)) by {
                    assert forall|i: int, j: int| 0 <= i < j < now.len() implies #[trigger] now[i] != #[trigger] now[j] by {
                        if j == was.len() {
                            assert(was[i] == now[i]);
                            assert(was.contains(was[i]));
                        } else {
                            assert(was[i] != was[j]);
                        }
                    }
                }
                *self = KeyMap { keys, vals };
                proof {
                    lemma_place(now, was.len() as int);
                    assert forall|k: K::V| #[trigger] was.contains(k) implies now.contains(k) && k != kv && self@[k] == old(self)@[k] by {
                        let j = was.index_of(k);
                        assert(was[j] == k);
                        assert(now[j] == k);
                        lemma_place(now, j);
                        lemma_place(was, j);
                    }
                    assert forall|k: K::V| #[trigger] now.contains(k) && k != kv implies was.contains(k) by {
                        let j = now.index_of(k);
                        assert(now[j] == k);
                        assert(was[j] == k);
                    }
                    assert(self@ =~= old(self)@.insert(kv, val));
                }
            },
        }
    }

    pub fn remove(&mut self, key: &K)
        ensures
            final(self)@ == old(self)@.remove(key@),
    {
        proof {
            use_type_invariant(&*self);
        }
        let mut m: KeyMap<K, V> = KeyMap { keys: Vec::new(), vals: Vec::new() };
        std::mem::swap(&mut m, self);
        proof {
            use_type_invariant(&m);
        }
        let KeyMap { mut keys, mut vals } = m;
        let ghost was = views(keys@);
        let ghost was_vals = vals@;
        match KeyMap::<K, V>::place(&keys, key) {
            None => {
                *self = KeyMap { keys, vals };
                assert(self@ =~= old(self)@.remove(key@));
            },
            Some(i) => {
                keys.remove(i);
                vals.remove(i);
                let ghost now = views(keys@);
                assert(now =~= was.remove(i as int));
                assert(distinct(now)) by {
                    assert forall|a: int, b: int| 0 <= a < b < now.len() implies #[trigger] now[a] != #[trigger] now[b] by {
                        let a0 = if a < i { a } else { a + 1 };
                        let b0 = if b < i { b } else { b + 1 };
                        assert(now[a] == was[a0] && now[b] == was[b0]);
                    }
                }
                *self = KeyMap { keys, vals };
                proof {
                    lemma_place(was, i as int);
                    assert forall|k: K::V| #[trigger] now.contains(k) == (was.contains(k) && k != key@) by {
                        if now.contains(k) {
                            let a = now.index_of(k);
                            let a0 = if a < i { a } else { a + 1 };
                            assert(was[a0] == k);
                            lemma_place(was, a0);
                        }
                        if was.contains(k) && k != key@ {
                            let a = was.index_of(k);
                            assert(was[a] == k);
                            let a0 = if a < i { a } else { a - 1 };
                            assert(now[a0] == k);
                        }
                    }
                    assert forall|k: K::V| #[trigger] now.contains(k) implies self@[k] == old(self)@[k] by {
                        let a = now.index_of(k);
                        let a0 = if a < i { a } else { a + 1 };
                        assert(was[a0] == k);
                        lemma_place(was, a0);
                        lemma_place(now, a);
                    }
                    assert(self@ =~= old(self)@.remove(key@));
                }
            },
        }
    }

    /// The keys in the order in which they came.
    pub fn keys(&self) -> (r: &Vec<K>)
        ensures
            distinct(views(r@)),
            views(r@) == self.key_list(),
            forall|k: K::V| #[trigger] self@.contains_key(k) == views(r@).contains(k),
    {
        proof {
            use_type_invariant(self);
        }
        &self.keys
    }
}

} // verus!
