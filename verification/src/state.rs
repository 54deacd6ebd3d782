//! What a project's last builds left: which unit owns which files, and what can go.

use vstd::prelude::*;
use crate::commands::Planned;
use crate::commands::text_map;
use crate::exec::Record;
use crate::invocation::first16;
use crate::order::before;
use crate::order::is_before;
use crate::path::base_name;
use crate::path::file_name;
use crate::path::parent;
use crate::path::up;
use crate::strmap::StrMap;
use crate::strmap::StrSet;
use crate::strmap::listed;
use crate::text::head_bytes;
use crate::text::cuts;
use crate::text::cat5;
use crate::text::chars_of;
use crate::text::contains;
use crate::text::hex;
use crate::text::holds;
use crate::text::is_hex;
use crate::text::occurs_at;
use crate::text::same;
use crate::text::string_of;
use crate::text::views;

verus! {

/// What a project's last builds left.
pub struct ProjectState {
    pub units: StrMap<Record>,
    /// Name id to the key that currently owns that name's files. Fresh only while it owns the slot.
    pub slots: StrMap<String>,
    /// Name id to the last time a build needed it.
    pub used: StrMap<u64>,
    /// Name id to which crate it's a variant of.
    pub groups: StrMap<String>,
    /// In this build's graph. Not swept.
    pub touched: StrSet,
    /// Name id to the store key the last edit replaced. One revert is a hit; the one before that goes.
    pub prev: StrMap<String>,
    /// Keys to drop: older than `prev`, plus variants swept out of the target directory.
    pub superseded: Vec<String>,
    /// Last time fresh units were marked used in the store. Daily, so the cap drops experiments first.
    pub store_touched: u64,
}

pub type Texts = Map<Seq<char>, Seq<char>>;

/// The model of a state.
pub struct StateView {
    pub units: Map<Seq<char>, Record>,
    pub slots: Texts,
    pub used: Map<Seq<char>, u64>,
    pub groups: Texts,
    pub touched: Set<Seq<char>>,
    pub prev: Texts,
    pub superseded: Seq<Seq<char>>,
    pub store_touched: u64,
}

impl View for ProjectState {
    type V = StateView;

    open spec fn view(&self) -> StateView {
        StateView {
            units: self.units@,
            slots: text_map(self.slots@),
            used: self.used@,
            groups: text_map(self.groups@),
            touched: self.touched@,
            prev: text_map(self.prev@),
            superseded: views(self.superseded@),
            store_touched: self.store_touched,
        }
    }
}

/// The directory that the variants of a unit share.
pub open spec fn shared_dir(p: Planned) -> Seq<char> {
    match base_name(p.out_dir@) {
        Some(f) => if holds(f, head_bytes(p.name@, 16)) {
            match up(p.out_dir@) {
                Some(d) => d,
                None => p.out_dir@,
            }
        } else {
            p.out_dir@
        },
        None => p.out_dir@,
    }
}

/// Which crate a unit is a variant of.
pub open spec fn group_of(p: Planned) -> Seq<char> {
    p.crate_name@ + " "@ + p.descr@ + " "@ + shared_dir(p)
}

/// The state once a build needed the unit.
pub open spec fn touched(s: StateView, p: Planned, now: u64) -> StateView {
    StateView {
        used: s.used.insert(p.name@, now),
        touched: s.touched.insert(p.name@),
        groups: s.groups.insert(p.name@, group_of(p)),
        ..s
    }
}

/// Some name's files are those of the key.
pub open spec fn owned(slots: Texts, key: Seq<char>) -> bool {
    exists|n: Seq<char>| slots.contains_key(n) && #[trigger] slots[n] == key
}

/// The units whose files are still there.
pub open spec fn with_owners(units: Map<Seq<char>, Record>, slots: Texts) -> Map<Seq<char>, Record> {
    Map::new(|k: Seq<char>| units.contains_key(k) && owned(slots, k), |k: Seq<char>| units[k])
}

pub open spec fn last_used(s: StateView, n: Seq<char>) -> u64 {
    if s.used.contains_key(n) {
        s.used[n]
    } else {
        0
    }
}

pub open spec fn crate_of(s: StateView, n: Seq<char>) -> Seq<char> {
    if s.groups.contains_key(n) {
        s.groups[n]
    } else {
        n
    }
}

/// Another variant of the same crate that no build in progress needs, and that was used later.
pub open spec fn newer_variant(s: StateView, m: Seq<char>, n: Seq<char>) -> bool {
    !s.touched.contains(m) && crate_of(s, m) == crate_of(s, n) && (last_used(s, m) > last_used(s, n) || (last_used(s, m)
        == last_used(s, n) && before(n, m)))
}

/// How many of the first `k` names are newer variants.
pub open spec fn newer_upto(s: StateView, l: Seq<Seq<char>>, n: Seq<char>, k: int) -> nat
    decreases k,
{
    if k <= 0 || k > l.len() {
        0
    } else {
        newer_upto(s, l, n, k - 1) + (if newer_variant(s, l[k - 1], n) {
            1nat
        } else {
            0
        })
    }
}

/// A variant that nobody needs: unused since the cutoff, or with enough newer ones.
pub open spec fn stale(s: StateView, n: Seq<char>, cutoff: u64, keep: nat) -> bool {
    let l = listed(s.slots.dom());
    !s.touched.contains(n) && (last_used(s, n) < cutoff || newer_upto(s, l, n, l.len() as int) >= keep)
}

/// The stale ones of the first `k` names.
pub open spec fn stale_upto(s: StateView, l: Seq<Seq<char>>, cutoff: u64, keep: nat, k: int) -> Seq<Seq<char>>
    decreases k,
{
    if k <= 0 || k > l.len() {
        Seq::empty()
    } else if stale(s, l[k - 1], cutoff, keep) {
        stale_upto(s, l, cutoff, keep, k - 1).push(l[k - 1])
    } else {
        stale_upto(s, l, cutoff, keep, k - 1)
    }
}

/// The state without a name; the keys that it had can go.
pub open spec fn forgotten(s: StateView, n: Seq<char>) -> StateView {
    let a = if s.slots.contains_key(n) {
        s.superseded.push(s.slots[n])
    } else {
        s.superseded
    };
    StateView {
        slots: s.slots.remove(n),
        used: s.used.remove(n),
        groups: s.groups.remove(n),
        prev: s.prev.remove(n),
        superseded: if s.prev.contains_key(n) {
            a.push(s.prev[n])
        } else {
            a
        },
        ..s
    }
}

pub open spec fn forgotten_upto(s: StateView, l: Seq<Seq<char>>, k: int) -> StateView
    decreases k,
{
    if k <= 0 || k > l.len() {
        s
    } else {
        forgotten(forgotten_upto(s, l, k - 1), l[k - 1])
    }
}

pub open spec fn pruned(s: StateView) -> StateView {
    StateView { units: with_owners(s.units, s.slots), ..s }
}

/// The state without the stale variants.
pub open spec fn swept(s: StateView, cutoff: u64, keep: nat) -> StateView {
    let l = listed(s.slots.dom());
    let gone = stale_upto(s, l, cutoff, keep, l.len() as int);
    pruned(forgotten_upto(s, gone, gone.len() as int))
}

/// The state once a unit's files are about to be written anew: nothing owns them. With variants kept, the key that
/// an edit replaces is remembered, and the one before it can go.
pub open spec fn slot_released(s: StateView, p: Planned, keep_variants: nat) -> StateView {
    let n = p.name@;
    if !s.slots.contains_key(n) {
        s
    } else {
        let was = s.slots[n];
        let t = StateView { slots: s.slots.remove(n), ..s };
        if was == p.key@ {
            t
        } else if keep_variants == 0 {
            StateView { superseded: t.superseded.push(was), ..t }
        } else {
            StateView {
                prev: t.prev.insert(n, was),
                superseded: if t.prev.contains_key(n) {
                    t.superseded.push(t.prev[n])
                } else {
                    t.superseded
                },
                ..t
            }
        }
    }
}

/// Every name is one of hexadecimal digits, sixteen or more.
pub open spec fn named_well(s: StateView) -> bool {
    forall|n: Seq<char>| #[trigger] s.slots.contains_key(n) ==> cuts(n, 16)
}

impl ProjectState {
    /// Nothing was built.
    pub fn new() -> (r: ProjectState)
        ensures
            r@ == (StateView {
                units: Map::empty(),
                slots: Map::empty(),
                used: Map::empty(),
                groups: Map::empty(),
                touched: Set::empty(),
                prev: Map::empty(),
                superseded: Seq::empty(),
                store_touched: 0,
            }),
    {
        let r = ProjectState {
            units: StrMap::new(),
            slots: StrMap::new(),
            used: StrMap::new(),
            groups: StrMap::new(),
            touched: StrSet::new(),
            prev: StrMap::new(),
            superseded: Vec::new(),
            store_touched: 0,
        };
        assert(r@.slots =~= Map::<Seq<char>, Seq<char>>::empty());
        assert(r@.groups =~= Map::<Seq<char>, Seq<char>>::empty());
        assert(r@.prev =~= Map::<Seq<char>, Seq<char>>::empty());
        assert(r@.superseded =~= Seq::<Seq<char>>::empty());
        r
    }

    /// A unit was built or restored: its key owns the files.
    pub fn record(&mut self, p: &Planned, rec: Record, now: u64)
        requires
            cuts(p.name@, 16),
        ensures
            final(self)@ == touched(
                StateView {
                    slots: old(self)@.slots.insert(p.name@, p.key@),
                    units: old(self)@.units.insert(p.key@, rec),
                    ..old(self)@
                },
                *p,
                now,
            ),
    {
        self.slots.insert(p.name.as_str(), p.key.clone());
        assert(self@.slots =~= old(self)@.slots.insert(p.name@, p.key@));
        self.units.insert(p.key.as_str(), rec);
        self.touch(p, now);
    }

    /// A build needs a unit.
    pub fn touch(&mut self, p: &Planned, now: u64)
        requires
            cuts(p.name@, 16),
        ensures
            final(self)@ == touched(old(self)@, *p, now),
    {
        self.used.insert(p.name.as_str(), now);
        self.touched.insert(p.name.as_str());
        let name16 = p.name16();
        let inner: bool = match file_name(p.out_dir.as_str()) {
            Some(f) => contains(f.as_str(), name16.as_str()),
            None => false,
        };
        let dir = if inner {
            match parent(p.out_dir.as_str()) {
                Some(d) => d,
                None => p.out_dir.clone(),
            }
        } else {
            p.out_dir.clone()
        };
        let group = cat5(p.crate_name.as_str(), " ", p.descr, " ", dir.as_str());
        self.groups.insert(p.name.as_str(), group);
        assert(self@.groups =~= old(self)@.groups.insert(p.name@, group_of(*p)));
    }

    /// Whether the key owns the files of the name.
    pub fn owns(&self, name: &str, key: &str) -> (r: bool)
        ensures
            r == (self@.slots.contains_key(name@) && self@.slots[name@] == key@),
    {
        match self.slots.get(name) {
            Some(k) => same(k.as_str(), key),
            None => false,
        }
    }

    pub fn is_owned(&self, key: &str) -> (r: bool)
        ensures
            r == owned(self@.slots, key@),
    {
        let names = self.slots.keys();
        let ghost nv = views(names@);
        let ghost sl = self@.slots;
        let mut k: usize = 0;
        while k < names.len()
            invariant
                k <= names@.len(),
                nv == views(names@),
                sl == text_map(self.slots@),
                nv.to_set() == self.slots@.dom(),
                forall|i: int| 0 <= i < k ==> sl[#[trigger] nv[i]] != key@,
            decreases names@.len() - k,
        {
            assert(nv[k as int] == names@[k as int]@);
            assert(nv.contains(nv[k as int]));
            assert(self.slots@.dom().contains(nv[k as int]));
            if self.owns(names[k].as_str(), key) {
                assert(sl[nv[k as int]] == key@);
                return true;
            }
            k += 1;
        }
        proof {
            assert(nv.len() == names@.len());
            if owned(sl, key@) {
                let n = choose|n: Seq<char>| sl.contains_key(n) && #[trigger] sl[n] == key@;
                assert(nv.to_set().contains(n));
                let i = choose|i: int| 0 <= i < nv.len() && nv[i] == n;
                assert(sl[nv[i]] != key@);
            }
        }
        false
    }

    /// Forgets the units whose files belong to others.
    pub fn prune(&mut self)
        ensures
            final(self)@ == pruned(old(self)@),
    {
        let ghost before_all = self@;
        let keys = crate::profile::dup_list(self.units.keys());
        let ghost kv = views(keys@);
        let ghost u0 = self.units@;
        let mut k: usize = 0;
        while k < keys.len()
            invariant
                k <= keys@.len(),
                kv == views(keys@),
                kv.to_set() == u0.dom(),
                before_all == old(self)@,
                u0 == before_all.units,
                self@ == (StateView { units: self@.units, ..before_all }),
                forall|x: Seq<char>| #[trigger]
                    self.units@.contains_key(x) == (u0.contains_key(x) && (owned(before_all.slots, x) || !kv.take(k as int).contains(x))),
                forall|x: Seq<char>| #[trigger] self.units@.contains_key(x) ==> self.units@[x] == u0[x],
            decreases keys@.len() - k,
        {
            assert(kv[k as int] == keys@[k as int]@);
            let ghost was = self.units@;
            if !self.is_owned(keys[k].as_str()) {
                self.units.remove(keys[k].as_str());
            }
            proof {
                let t = kv.take(k + 1);
                assert(t =~= kv.take(k as int).push(kv[k as int]));
                assert forall|x: Seq<char>| t.contains(x) == (kv.take(k as int).contains(x) || x == kv[k as int]) by {
                    if kv.take(k as int).contains(x) {
                        let i = choose|i: int| 0 <= i < k && kv.take(k as int)[i] == x;
                        assert(t[i] == x);
                    }
                    if x == kv[k as int] {
                        assert(t[k as int] == x);
                    }
                    if t.contains(x) {
                        let i = choose|i: int| 0 <= i < t.len() && t[i] == x;
                        if i < k {
                            assert(kv.take(k as int)[i] == x);
                        }
                    }
                }
            }
            k += 1;
        }
        proof {
            assert(kv.len() == keys@.len());
            assert(kv.take(k as int) =~= kv);
            assert forall|x: Seq<char>| u0.contains_key(x) implies kv.contains(x) by {
                assert(kv.to_set().contains(x));
            }
            assert(self@.units =~= with_owners(u0, before_all.slots));
        }
    }

    fn used_at(&self, n: &str) -> (r: u64)
        ensures
            r == last_used(self@, n@),
    {
        match self.used.get(n) {
            Some(t) => *t,
            None => 0,
        }
    }

    fn same_crate(&self, a: &str, b: &str) -> (r: bool)
        ensures
            r == (crate_of(self@, a@) == crate_of(self@, b@)),
    {
        let x: &str = match self.groups.get(a) {
            Some(g) => g.as_str(),
            None => a,
        };
        let y: &str = match self.groups.get(b) {
            Some(g) => g.as_str(),
            None => b,
        };
        same(x, y)
    }

    fn count_newer(&self, n: &str) -> (r: usize)
        ensures
            r == newer_upto(self@, listed(self@.slots.dom()), n@, listed(self@.slots.dom()).len() as int),
    {
        let names = self.slots.keys();
        let ghost nv = views(names@);
        assert(self@.slots.dom() =~= self.slots@.dom());
        let mut r: usize = 0;
        let mut k: usize = 0;
        while k < names.len()
            invariant
                k <= names@.len(),
                nv == views(names@),
                r <= k,
                r == newer_upto(self@, nv, n@, k as int),
            decreases names@.len() - k,
        {
            assert(nv[k as int] == names@[k as int]@);
            let m = names[k].as_str();
            if !self.touched.contains(m) && self.same_crate(m, n) {
                let a: u64 = self.used_at(m);
                let b: u64 = self.used_at(n);
                if a > b || (a == b && is_before(n, m)) {
                    r += 1;
                }
            }
            k += 1;
        }
        assert(nv.len() == names@.len());
        r
    }

    fn list_stale(&self, cutoff: u64, keep: usize) -> (r: Vec<String>)
        ensures
            views(r@) == stale_upto(
                self@,
                listed(self@.slots.dom()),
                cutoff,
                keep as nat,
                listed(self@.slots.dom()).len() as int,
            ),
    {
        let names = self.slots.keys();
        let ghost nv = views(names@);
        assert(self@.slots.dom() =~= self.slots@.dom());
        let mut out: Vec<String> = Vec::new();
        let mut k: usize = 0;
        assert(views(out@) =~= Seq::<Seq<char>>::empty());
        while k < names.len()
            invariant
                k <= names@.len(),
                nv == views(names@),
                nv == listed(self@.slots.dom()),
                views(out@) == stale_upto(self@, nv, cutoff, keep as nat, k as int),
            decreases names@.len() - k,
        {
            assert(nv[k as int] == names@[k as int]@);
            let n = names[k].as_str();
            if !self.touched.contains(n) {
                if self.used_at(n) < cutoff || self.count_newer(n) >= keep {
                    let ghost was = out@;
                    out.push(names[k].clone());
                    assert(views(out@) =~= views(was).push(nv[k as int]));
                }
            }
            k += 1;
        }
        assert(nv.len() == names@.len());
        out
    }

    fn forget(&mut self, n: &str)
        ensures
            final(self)@ == forgotten(old(self)@, n@),
    {
        let ghost s0 = self@;
        let slot: Option<String> = match self.slots.get(n) {
            Some(k) => Some(k.clone()),
            None => None,
        };
        let prev: Option<String> = match self.prev.get(n) {
            Some(k) => Some(k.clone()),
            None => None,
        };
        self.slots.remove(n);
        self.used.remove(n);
        self.groups.remove(n);
        self.prev.remove(n);
        assert(self@.slots =~= s0.slots.remove(n@));
        assert(self@.groups =~= s0.groups.remove(n@));
        assert(self@.prev =~= s0.prev.remove(n@));
        if let Some(k) = slot {
            let ghost was = self.superseded@;
            let ghost kv = k@;
            self.superseded.push(k);
            assert(views(self.superseded@) =~= views(was).push(kv));
        }
        if let Some(k) = prev {
            let ghost was = self.superseded@;
            let ghost kv = k@;
            self.superseded.push(k);
            assert(views(self.superseded@) =~= views(was).push(kv));
        }
    }

    /// Drop unused variants past `cutoff` or past `keep_variants` per crate. Returns live name prefixes.
    pub fn sweep_state(&mut self, cutoff: u64, keep_variants: usize) -> (r: StrSet)
        requires
            named_well(old(self)@),
        ensures
            final(self)@ == swept(old(self)@, cutoff, keep_variants as nat),
            forall|h: Seq<char>| #[trigger]
                r@.contains(h) == exists|n: Seq<char>| #[trigger] final(self)@.slots.contains_key(n) && head_bytes(n, 16) == h,
    {
        let ghost s0 = self@;
        let gone = self.list_stale(cutoff, keep_variants);
        let ghost gv = views(gone@);
        let mut k: usize = 0;
        while k < gone.len()
            invariant
                k <= gone@.len(),
                gv == views(gone@),
                s0 == old(self)@,
                named_well(s0),
                self@ == forgotten_upto(s0, gv, k as int),
                forall|n: Seq<char>| #[trigger] self@.slots.contains_key(n) ==> s0.slots.contains_key(n),
            decreases gone@.len() - k,
        {
            assert(gv[k as int] == gone@[k as int]@);
            self.forget(gone[k].as_str());
            k += 1;
        }
        assert(gv.len() == gone@.len());
        self.prune();
        assert(self@ == swept(s0, cutoff, keep_variants as nat));
        let names = self.slots.keys();
        let ghost nv = views(names@);
        let ghost sl = self@.slots;
        let mut out = StrSet::new();
        let mut k: usize = 0;
        while k < names.len()
            invariant
                k <= names@.len(),
                nv == views(names@),
                sl == text_map(self.slots@),
                nv.to_set() == self.slots@.dom(),
                forall|n: Seq<char>| #[trigger] sl.contains_key(n) ==> cuts(n, 16),
                forall|h: Seq<char>| #[trigger] out@.contains(h) == exists|i: int| 0 <= i < k && head_bytes(#[trigger] nv[i], 16) == h,
            decreases names@.len() - k,
        {
            assert(nv[k as int] == names@[k as int]@);
            assert(nv.contains(nv[k as int]));
            assert(sl.contains_key(nv[k as int]));
            let ghost was = out@;
            let h = first16(names[k].as_str());
            out.insert(h.as_str());
            proof {
                assert forall|x: Seq<char>| #[trigger]
                    out@.contains(x) == exists|i: int| 0 <= i < k + 1 && head_bytes(#[trigger] nv[i], 16) == x by {
                    if was.contains(x) {
                        let i = choose|i: int| 0 <= i < k && head_bytes(#[trigger] nv[i], 16) == x;
                        assert(head_bytes(nv[i], 16) == x);
                    }
                    if x == h@ {
                        assert(head_bytes(nv[k as int], 16) == x);
                    }
                }
            }
            k += 1;
        }
        proof {
            assert(nv.len() == names@.len());
            assert forall|h: Seq<char>| #[trigger]
                out@.contains(h) == exists|n: Seq<char>| #[trigger] sl.contains_key(n) && head_bytes(n, 16) == h by {
                if out@.contains(h) {
                    let i = choose|i: int| 0 <= i < k && head_bytes(#[trigger] nv[i], 16) == h;
                    assert(nv.contains(nv[i]));
                    assert(sl.contains_key(nv[i]));
                }
                if exists|n: Seq<char>| #[trigger] sl.contains_key(n) && head_bytes(n, 16) == h {
                    let n = choose|n: Seq<char>| #[trigger] sl.contains_key(n) && head_bytes(n, 16) == h;
                    assert(nv.to_set().contains(n));
                    let i = choose|i: int| 0 <= i < nv.len() && nv[i] == n;
                    assert(head_bytes(nv[i], 16) == h);
                }
            }
        }
        out
    }

    /// Drop slot ownership before rewriting files. A crash must not leave the old record in charge. Whether there was
    /// an owner.
    pub fn release(&mut self, p: &Planned, keep_variants: usize) -> (r: bool)
        ensures
            final(self)@ == slot_released(old(self)@, *p, keep_variants as nat),
            r == old(self)@.slots.contains_key(p.name@),
    {
        let ghost s0 = self@;
        let n = p.name.as_str();
        let was: String = match self.slots.get(n) {
            Some(k) => k.clone(),
            None => {
                return false;
            },
        };
        self.slots.remove(n);
        assert(self@.slots =~= s0.slots.remove(n@));
        if same(was.as_str(), p.key.as_str()) {
            return true;
        }
        let ghost sup = self.superseded@;
        let ghost wv = was@;
        if keep_variants == 0 {
            self.superseded.push(was);
            assert(views(self.superseded@) =~= views(sup).push(wv));
        } else {
            let older: Option<String> = match self.prev.get(n) {
                Some(k) => Some(k.clone()),
                None => None,
            };
            self.prev.insert(n, was);
            assert(self@.prev =~= s0.prev.insert(n@, wv));
            if let Some(k) = older {
                let ghost kv = k@;
                self.superseded.push(k);
                assert(views(self.superseded@) =~= views(sup).push(kv));
            }
        }
        true
    }

    /// Whether the fresh units are marked used in the store: once a day.
    pub fn touches_store(&self, now: u64) -> (r: bool)
        ensures
            r == (now - self@.store_touched > 86400),
    {
        now > self.store_touched && now - self.store_touched > 86400
    }
}

proof fn lemma_forgotten(s: StateView, l: Seq<Seq<char>>, k: int, n: Seq<char>)
    requires
        0 <= k <= l.len(),
        forall|i: int| 0 <= i < k ==> l[i] != n,
    ensures
        forgotten_upto(s, l, k).slots.contains_key(n) == s.slots.contains_key(n),
        s.slots.contains_key(n) ==> forgotten_upto(s, l, k).slots[n] == s.slots[n],
        forgotten_upto(s, l, k).units == s.units,
    decreases k,
{
    if k > 0 {
        lemma_forgotten(s, l, k - 1, n);
    }
}

proof fn lemma_stale_listed(s: StateView, l: Seq<Seq<char>>, cutoff: u64, keep: nat, k: int, i: int)
    requires
        0 <= k <= l.len(),
        0 <= i < stale_upto(s, l, cutoff, keep, k).len(),
    ensures
        stale(s, stale_upto(s, l, cutoff, keep, k)[i], cutoff, keep),
    decreases k,
{
    if k > 0 {
        if i < stale_upto(s, l, cutoff, keep, k - 1).len() {
            lemma_stale_listed(s, l, cutoff, keep, k - 1, i);
        }
    }
}

/// A sweep leaves alone what the build in progress needs: each unit that was touched keeps its files and its record.
pub proof fn law_a_sweep_keeps_what_is_touched(s: StateView, cutoff: u64, keep: nat, n: Seq<char>)
    requires
        s.touched.contains(n),
        s.slots.contains_key(n),
    ensures
        swept(s, cutoff, keep).slots.contains_key(n),
        swept(s, cutoff, keep).slots[n] == s.slots[n],
        s.units.contains_key(s.slots[n]) ==> swept(s, cutoff, keep).units.contains_key(s.slots[n]) && swept(s, cutoff, keep).units[s.slots[n]]
            == s.units[s.slots[n]],
{
    let l = listed(s.slots.dom());
    let gone = stale_upto(s, l, cutoff, keep, l.len() as int);
    assert forall|i: int| 0 <= i < gone.len() implies gone[i] != n by {
        lemma_stale_listed(s, l, cutoff, keep, l.len() as int, i);
    }
    lemma_forgotten(s, gone, gone.len() as int, n);
    let t = forgotten_upto(s, gone, gone.len() as int);
    assert(t.slots[n] == s.slots[n]);
    assert(owned(t.slots, s.slots[n]));
}

// ---------------------------------------------------------------------------
// Files that no unit owns.

/// The digits at `i`: sixteen of them, and no more.
pub open spec fn digits_at(s: Seq<char>, i: int) -> bool {
    i + 16 <= s.len() && (forall|j: int| i <= j < i + 16 ==> hex(#[trigger] s[j])) && (i + 16 < s.len() ==> !hex(s[i + 16]))
}

/// The first sixteen digits of a unit's name in the name of a file, after a dash from `i` on.
pub open spec fn name16_from(s: Seq<char>, i: int) -> Option<Seq<char>>
    decreases s.len() - i,
{
    if i < 0 || i >= s.len() {
        None
    } else if s[i] == '-' && digits_at(s, i + 1) {
        Some(s.subrange(i + 1, i + 17))
    } else {
        name16_from(s, i + 1)
    }
}

fn has_digits(cs: &Vec<char>, i: usize) -> (r: bool)
    requires
        i <= cs@.len(),
    ensures
        r == digits_at(cs@, i as int),
{
    if cs.len() - i < 16 {
        return false;
    }
    let end: usize = i + 16;
    let mut j: usize = i;
    while j < end
        invariant
            i <= j <= end,
            end == i + 16,
            end <= cs@.len(),
            forall|k: int| i <= k < j ==> hex(#[trigger] cs@[k]),
        decreases end - j,
    {
        if !is_hex(cs[j]) {
            assert(!hex(cs@[j as int]));
            return false;
        }
        j += 1;
    }
    !(end < cs.len() && is_hex(cs[end]))
}

/// The first sixteen digits of a unit's name in the name of a file.
pub fn name16_of(file_name: &str) -> (r: Option<String>)
    ensures
        crate::text::opt_view(r) == name16_from(file_name@, 0),
{
    let cs = chars_of(file_name);
    let mut i: usize = 0;
    while i < cs.len()
        invariant
            i <= cs@.len(),
            cs@ == file_name@,
            name16_from(file_name@, 0) == name16_from(file_name@, i as int),
        decreases cs@.len() - i,
    {
        if cs[i] == '-' && has_digits(&cs, i + 1) {
            return Some(string_of(&cs, i + 1, i + 17));
        }
        i += 1;
    }
    None
}

/// What to do with a file in the target directory.
#[derive(Clone, Copy, Debug, PartialEq, Eq, Structural)]
pub enum Fate {
    Keep,
    Remove,
    /// Move the incremental cache aside, so that a variant that comes back can resume.
    Archive,
}

/// What no live unit owns goes. Incremental directories are archived where that is asked for.
pub open spec fn fate_of(sub: Seq<char>, name: Seq<char>, live: Set<Seq<char>>, archive: bool, is_dir: bool) -> Fate {
    let incremental = sub == "incremental"@;
    match name16_from(name, 0) {
        Some(h) => if live.contains(h) {
            Fate::Keep
        } else if archive && incremental && is_dir {
            Fate::Archive
        } else {
            Fate::Remove
        },
        None => if incremental {
            Fate::Remove
        } else {
            Fate::Keep
        },
    }
}

/// What to do with a file in `deps`, `build` or `incremental`.
pub fn sweep_target(sub: &str, name: &str, live16: &StrSet, archive_incremental: bool, is_dir: bool) -> (r: Fate)
    ensures
        r == fate_of(sub@, name@, live16@, archive_incremental, is_dir),
{
    let incremental: bool = same(sub, "incremental");
    match name16_of(name) {
        Some(h) => if live16.contains(h.as_str()) {
            Fate::Keep
        } else if archive_incremental && incremental && is_dir {
            Fate::Archive
        } else {
            Fate::Remove
        },
        None => if incremental {
            Fate::Remove
        } else {
            Fate::Keep
        },
    }
}

// ---------------------------------------------------------------------------
// Archived incremental caches.

/// How many archives of a crate are kept.
pub const ARCHIVES_PER_CRATE: usize = 3;

/// An archive: the name of its file, when it was written, and whether the cache that it holds is back in place.
#[derive(Debug)]
pub struct ArchiveFile {
    pub name: String,
    pub modified: u64,
    pub restored: bool,
}

/// Where a text occurs first, from `k` on, or the length.
pub open spec fn occurs_from(s: Seq<char>, p: Seq<char>, k: int) -> int
    decreases s.len() - k,
{
    if k < 0 || k >= s.len() {
        s.len() as int
    } else if occurs_at(s, p, k) {
        k
    } else {
        occurs_from(s, p, k + 1)
    }
}

/// Which crate an archive is of: what stands before the digits of its unit.
pub open spec fn archived_crate(name: Seq<char>, h: Seq<char>) -> Seq<char> {
    let i = occurs_from(name, h, 0);
    name.take(
        if 0 < i <= name.len() {
            i - 1
        } else {
            0
        },
    )
}

/// The archive is of a unit that is gone.
pub open spec fn is_orphan(f: ArchiveFile, live16: Set<Seq<char>>) -> bool {
    name16_from(f.name@, 0) matches Some(h) && !live16.contains(h)
}

pub open spec fn crate_of_archive(f: ArchiveFile) -> Seq<char> {
    archived_crate(f.name@, name16_from(f.name@, 0).unwrap())
}

/// The first of two archives of one crate is kept rather than the second: it is newer, or listed earlier.
pub open spec fn goes_ahead(l: Seq<ArchiveFile>, live16: Set<Seq<char>>, j: int, i: int) -> bool {
    is_orphan(l[j], live16) && crate_of_archive(l[j]) == crate_of_archive(l[i]) && (l[j].modified > l[i].modified || (l[j].modified
        == l[i].modified && j < i))
}

/// How many of the first `n` archives go ahead of the one at `i`.
pub open spec fn ahead_upto(l: Seq<ArchiveFile>, live16: Set<Seq<char>>, i: int, n: int) -> nat
    decreases n,
{
    if n <= 0 || n > l.len() {
        0
    } else {
        ahead_upto(l, live16, i, n - 1) + (if goes_ahead(l, live16, n - 1, i) {
            1nat
        } else {
            0
        })
    }
}

/// The archive goes: its cache is back in place, or newer ones of its crate are enough.
pub open spec fn is_spent(l: Seq<ArchiveFile>, live16: Set<Seq<char>>, i: int) -> bool {
    match name16_from(l[i].name@, 0) {
        Some(h) => if live16.contains(h) {
            l[i].restored
        } else {
            ahead_upto(l, live16, i, l.len() as int) >= ARCHIVES_PER_CRATE
        },
        None => false,
    }
}

pub open spec fn spent_upto(l: Seq<ArchiveFile>, live16: Set<Seq<char>>, n: int) -> Seq<usize>
    decreases n,
{
    if n <= 0 || n > l.len() {
        Seq::empty()
    } else if is_spent(l, live16, n - 1) {
        spent_upto(l, live16, n - 1).push((n - 1) as usize)
    } else {
        spent_upto(l, live16, n - 1)
    }
}

fn find_crate(name: &str, h: &str) -> (r: String)
    ensures
        r@ == archived_crate(name@, h@),
{
    let cs = chars_of(name);
    let hs = chars_of(h);
    let mut i: usize = 0;
    while i < cs.len() && !crate::text::matches_at(&cs, &hs, i)
        invariant
            i <= cs@.len(),
            cs@ == name@,
            hs@ == h@,
            occurs_from(name@, h@, 0) == occurs_from(name@, h@, i as int),
        decreases cs@.len() - i,
    {
        i += 1;
    }
    let to: usize = if i > 0 {
        i - 1
    } else {
        0
    };
    assert(name@.subrange(0, to as int) =~= name@.take(to as int));
    string_of(&cs, 0, to)
}

fn count_ahead(l: &Vec<ArchiveFile>, live16: &StrSet, i: usize, own: &str) -> (r: usize)
    requires
        i < l@.len(),
        name16_from(l@[i as int].name@, 0).is_some(),
        own@ == crate_of_archive(l@[i as int]),
    ensures
        r == ahead_upto(l@, live16@, i as int, l@.len() as int),
{
    let mut n: usize = 0;
    let mut k: usize = 0;
    while k < l.len()
        invariant
            k <= l@.len(),
            i < l@.len(),
            n <= k,
            own@ == crate_of_archive(l@[i as int]),
            n == ahead_upto(l@, live16@, i as int, k as int),
        decreases l@.len() - k,
    {
        if let Some(h) = name16_of(l[k].name.as_str()) {
            let newer: bool = l[k].modified > l[i].modified || (l[k].modified == l[i].modified && k < i);
            if !live16.contains(h.as_str()) && newer && same(find_crate(l[k].name.as_str(), h.as_str()).as_str(), own) {
                assert(goes_ahead(l@, live16@, k as int, i as int));
                n += 1;
            } else {
                assert(!goes_ahead(l@, live16@, k as int, i as int));
            }
        }
        k += 1;
    }
    n
}

/// The archives that go, by their places in the list.
pub fn spent_archives(l: &Vec<ArchiveFile>, live16: &StrSet) -> (r: Vec<usize>)
    ensures
        r@ == spent_upto(l@, live16@, l@.len() as int),
{
    let mut out: Vec<usize> = Vec::new();
    let mut k: usize = 0;
    while k < l.len()
        invariant
            k <= l@.len(),
            out@ == spent_upto(l@, live16@, k as int),
        decreases l@.len() - k,
    {
        let spent: bool = match name16_of(l[k].name.as_str()) {
            Some(h) => if live16.contains(h.as_str()) {
                l[k].restored
            } else {
                let own = find_crate(l[k].name.as_str(), h.as_str());
                count_ahead(l, live16, k, own.as_str()) >= ARCHIVES_PER_CRATE
            },
            None => false,
        };
        if spent {
            out.push(k);
        }
        k += 1;
    }
    out
}

} // verus!
