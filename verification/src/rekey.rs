//! New keys for units that were just built. What a build discovers about a unit narrows down what its key covers, so the
//! next build would look for it under another key.

use vstd::prelude::*;
use crate::build_script::BuildOutput;
use crate::build_script::OutputView;
use crate::commands::Planned;
use crate::exec::Record;
use crate::exec::lemma_mapped;
use crate::exec::mapped;
use crate::plan::in_packages;
use crate::profile::dup_list;
use crate::profile::dup_text;
use crate::state::ProjectState;
use crate::state::StateView;
use crate::state::Texts;
use crate::store::EnvInput;
use crate::store::ExtraInputs;
use crate::store::ExtraView;
use crate::store::FileInput;
use crate::text::opt_view;
use crate::text::same;
use crate::text::views;
use crate::unit::Unit;
use crate::workspace::Pkg;

verus! {

// ---------------------------------------------------------------------------
// Copies of records.

/// The model of a record.
pub struct RecordView {
    pub outputs: Seq<Seq<char>>,
    pub inputs: ExtraView,
    pub sources: Seq<Seq<char>>,
    pub rerun_declared: bool,
    pub payload: Option<OutputView>,
    pub diagnostics: Seq<Seq<char>>,
}

pub open spec fn record_view(r: Record) -> RecordView {
    RecordView {
        outputs: views(r.outputs@),
        inputs: r.inputs@,
        sources: views(r.sources@),
        rerun_declared: r.rerun_declared,
        payload: opt_view(r.payload),
        diagnostics: views(r.diagnostics@),
    }
}

fn dup_inputs(i: &ExtraInputs) -> (r: ExtraInputs)
    ensures
        r@ == i@,
{
    let mut files: Vec<FileInput> = Vec::new();
    while files.len() < i.files.len()
        invariant
            files@.len() <= i.files@.len(),
            forall|k: int| 0 <= k < files@.len() ==> (#[trigger] files@[k])@ == i.files@[k]@,
        decreases i.files@.len() - files@.len(),
    {
        let f = &i.files[files.len()];
        files.push(FileInput { path: f.path.clone(), hash: dup_text(&f.hash) });
    }
    let mut env: Vec<EnvInput> = Vec::new();
    while env.len() < i.env.len()
        invariant
            env@.len() <= i.env@.len(),
            forall|k: int| 0 <= k < env@.len() ==> (#[trigger] env@[k])@ == i.env@[k]@,
        decreases i.env@.len() - env@.len(),
    {
        let e = &i.env[env.len()];
        env.push(EnvInput { name: e.name.clone(), value: dup_text(&e.value) });
    }
    let r = ExtraInputs { files, env };
    assert(r@.files =~= i@.files);
    assert(r@.env =~= i@.env);
    r
}

fn dup_output(o: &BuildOutput) -> (r: BuildOutput)
    ensures
        r@ == o@,
{
    let g = |s: &str| -> (t: String)
        ensures
            t@ == s@,
        { s.to_owned() };
    let r = o.map_strings(g);
    proof {
        let f = |s: Seq<char>| s;
        lemma_mapped(*o, r, g, f);
        let m = mapped(o@, f);
        assert(m.link_libs =~= o@.link_libs);
        assert(m.link_search =~= o@.link_search);
        assert(m.link_args =~= o@.link_args);
        assert(m.env =~= o@.env);
        assert(m.metadata =~= o@.metadata);
        assert(m.rerun_if_changed =~= o@.rerun_if_changed);
    }
    r
}

/// A record that says the same.
pub fn dup_record(rec: &Record) -> (r: Record)
    ensures
        record_view(r) == record_view(*rec),
{
    let payload = match &rec.payload {
        Some(o) => Some(dup_output(o)),
        None => None,
    };
    Record {
        outputs: dup_list(&rec.outputs),
        inputs: dup_inputs(&rec.inputs),
        sources: dup_list(&rec.sources),
        rerun_declared: rec.rerun_declared,
        payload,
        diagnostics: dup_list(&rec.diagnostics),
    }
}

// ---------------------------------------------------------------------------
// Whether the new keys hold.

/// The new keys hold: no local package changed while it was built, and where the inputs of a unit are counted otherwise,
/// they are what its record says. `unchanged` speaks of packages, `held` of units.
pub open spec fn may_rekey(
    pkgs: Seq<Pkg>,
    units: Seq<Unit>,
    was: Seq<Planned>,
    now: Seq<Planned>,
    unchanged: Seq<bool>,
    records: Set<Seq<char>>,
    held: Seq<bool>,
) -> bool {
    &&& forall|u: int|
        0 <= u < units.len() ==> (pkgs[(#[trigger] units[u]).pkg as int].source.local() ==> unchanged[units[u].pkg as int])
    &&& forall|u: int|
        0 <= u < was.len() && (#[trigger] was[u]).key@ != now[u].key@ && was[u].input_digest@ != now[u].input_digest@ ==> records.contains(
            was[u].key@,
        ) && held[u]
}

pub fn keys_hold(
    pkgs: &Vec<Pkg>,
    units: &Vec<Unit>,
    was: &Vec<Planned>,
    now: &Vec<Planned>,
    unchanged: &Vec<bool>,
    state: &ProjectState,
    held: &Vec<bool>,
) -> (r: bool)
    requires
        in_packages(pkgs@, units@),
        unchanged@.len() == pkgs@.len(),
        was@.len() == units@.len(),
        now@.len() == units@.len(),
        held@.len() == units@.len(),
    ensures
        r == may_rekey(pkgs@, units@, was@, now@, unchanged@, state@.units.dom(), held@),
{
    let mut u: usize = 0;
    while u < units.len()
        invariant
            u <= units@.len(),
            in_packages(pkgs@, units@),
            unchanged@.len() == pkgs@.len(),
            forall|k: int|
                0 <= k < u ==> (pkgs@[(#[trigger] units@[k]).pkg as int].source.local() ==> unchanged@[units@[k].pkg as int]),
        decreases units@.len() - u,
    {
        let p: usize = units[u].pkg;
        assert(units@[u as int].pkg < pkgs@.len());
        if pkgs[p].source.is_local() && !unchanged[p] {
            return false;
        }
        u += 1;
    }
    let mut u: usize = 0;
    while u < was.len()
        invariant
            u <= was@.len(),
            was@.len() == now@.len(),
            was@.len() == held@.len(),
            forall|k: int|
                0 <= k < u && (#[trigger] was@[k]).key@ != now@[k].key@ && was@[k].input_digest@ != now@[k].input_digest@
                    ==> state@.units.dom().contains(was@[k].key@) && held@[k],
        decreases was@.len() - u,
    {
        let a = &was[u];
        let b = &now[u];
        if !same(a.key.as_str(), b.key.as_str()) && !same(a.input_digest.as_str(), b.input_digest.as_str()) {
            if !(state.units.has(a.key.as_str()) && held[u]) {
                assert(!(state@.units.dom().contains(was@[u as int].key@) && held@[u as int]));
                return false;
            }
        }
        u += 1;
    }
    true
}

// ---------------------------------------------------------------------------
// The state under the new keys.

/// What is known of units, whose files are whose, and what the store is to know under two keys.
pub struct Keyed {
    pub units: Map<Seq<char>, RecordView>,
    pub slots: Texts,
    pub aliases: Seq<(Seq<char>, Seq<char>)>,
}

pub open spec fn records_of(m: Map<Seq<char>, Record>) -> Map<Seq<char>, RecordView> {
    Map::new(|k: Seq<char>| m.contains_key(k), |k: Seq<char>| record_view(m[k]))
}

/// The unit has a new key, and its files are there.
pub open spec fn moves(k: Keyed, was: Planned, now: Planned) -> bool {
    was.key@ != now.key@ && k.slots.contains_key(was.name@) && k.slots[was.name@] == was.key@ && k.units.contains_key(was.key@)
}

/// The state once the unit has its new key. Its record stays under the old one too.
pub open spec fn moved(k: Keyed, was: Planned, now: Planned, stores: bool) -> Keyed {
    if moves(k, was, now) {
        Keyed {
            units: k.units.insert(now.key@, k.units[was.key@]),
            slots: k.slots.insert(now.name@, now.key@),
            aliases: if stores && was.cacheable {
                k.aliases.push((was.key@, now.key@))
            } else {
                k.aliases
            },
        }
    } else {
        k
    }
}

/// The state once the first `n` units have their new keys.
pub open spec fn moved_upto(k: Keyed, was: Seq<Planned>, now: Seq<Planned>, stores: bool, n: int) -> Keyed
    decreases n,
{
    if n <= 0 {
        k
    } else {
        moved(moved_upto(k, was, now, stores, n - 1), was[n - 1], now[n - 1], stores)
    }
}

/// The state of a project before any unit moves.
pub open spec fn keyed(s: StateView) -> Keyed {
    Keyed { units: records_of(s.units), slots: s.slots, aliases: Seq::empty() }
}

pub open spec fn pair_views(l: Seq<(String, String)>) -> Seq<(Seq<char>, Seq<char>)> {
    Seq::new(l.len(), |i: int| (l[i].0@, l[i].1@))
}

/// Gives units their new keys. Returns the pairs of keys under which the store is to know them.
pub fn rekey(state: &mut ProjectState, was: &Vec<Planned>, now: &Vec<Planned>, stores: bool) -> (r: Vec<(String, String)>)
    requires
        was@.len() == now@.len(),
    ensures
        ({
            let k = moved_upto(keyed(old(state)@), was@, now@, stores, was@.len() as int);
            &&& records_of(final(state)@.units) == k.units
            &&& final(state)@.slots == k.slots
            &&& pair_views(r@) == k.aliases
        }),
        final(state)@ == (StateView { units: final(state)@.units, slots: final(state)@.slots, ..old(state)@ }),
{
    let ghost s0 = state@;
    let ghost k0 = keyed(s0);
    let mut out: Vec<(String, String)> = Vec::new();
    assert(pair_views(out@) =~= k0.aliases);
    let mut n: usize = 0;
    while n < was.len()
        invariant
            n <= was@.len(),
            was@.len() == now@.len(),
            k0 == keyed(s0),
            records_of(state@.units) == moved_upto(k0, was@, now@, stores, n as int).units,
            state@.slots == moved_upto(k0, was@, now@, stores, n as int).slots,
            pair_views(out@) == moved_upto(k0, was@, now@, stores, n as int).aliases,
            state@ == (StateView { units: state@.units, slots: state@.slots, ..s0 }),
        decreases was@.len() - n,
    {
        let a = &was[n];
        let b = &now[n];
        let ghost k = moved_upto(k0, was@, now@, stores, n as int);
        let ghost units = state@.units;
        let ghost slots = state@.slots;
        assert(k.units.contains_key(a.key@) == units.contains_key(a.key@));
        if !same(a.key.as_str(), b.key.as_str()) && state.owns(a.name.as_str(), a.key.as_str()) {
            let copy: Option<Record> = match state.units.get(a.key.as_str()) {
                Some(rec) => Some(dup_record(rec)),
                None => None,
            };
            if let Some(rec) = copy {
                let ghost rv = record_view(rec);
                assert(k.units[a.key@] == rv);
                state.units.insert(b.key.as_str(), rec);
                state.slots.insert(b.name.as_str(), b.key.clone());
                assert(records_of(state@.units) =~= k.units.insert(b.key@, rv));
                assert(state@.slots =~= slots.insert(b.name@, b.key@));
                if stores && a.cacheable {
                    let ghost pv = pair_views(out@);
                    out.push((a.key.clone(), b.key.clone()));
                    assert(pair_views(out@) =~= pv.push((a.key@, b.key@)));
                }
            }
        }
        n += 1;
    }
    out
}

// ---------------------------------------------------------------------------
// Laws.

/// New keys lose nothing: each unit that had a record still has one under its old key, and each name has an owner.
pub proof fn law_rekeying_loses_nothing(k: Keyed, was: Seq<Planned>, now: Seq<Planned>, stores: bool, n: int, key: Seq<char>, name: Seq<char>)
    ensures
        k.units.contains_key(key) ==> moved_upto(k, was, now, stores, n).units.contains_key(key),
        k.slots.contains_key(name) ==> moved_upto(k, was, now, stores, n).slots.contains_key(name),
    decreases n,
{
    if n > 0 {
        law_rekeying_loses_nothing(k, was, now, stores, n - 1, key, name);
    }
}

/// Where a unit keeps its key, nothing about it changes, unless another unit takes that key or that name.
pub proof fn law_rekeying_leaves_other_units(k: Keyed, was: Seq<Planned>, now: Seq<Planned>, stores: bool, n: int, key: Seq<char>, name: Seq<char>)
    requires
        0 <= n <= was.len(),
        was.len() == now.len(),
        forall|i: int| 0 <= i < n && (#[trigger] now[i]).key@ == key ==> was[i].key@ == key,
        forall|i: int| 0 <= i < n && (#[trigger] now[i]).name@ == name ==> was[i].key@ == now[i].key@,
    ensures
        k.units.contains_key(key) ==> moved_upto(k, was, now, stores, n).units[key] == k.units[key],
        k.slots.contains_key(name) ==> moved_upto(k, was, now, stores, n).slots[name] == k.slots[name],
    decreases n,
{
    if n > 0 {
        law_rekeying_leaves_other_units(k, was, now, stores, n - 1, key, name);
        assert(now[n - 1].key@ == key ==> was[n - 1].key@ == key);
        assert(now[n - 1].name@ == name ==> was[n - 1].key@ == now[n - 1].key@);
    }
}

/// A unit that moves is fresh under its new key: it owns its files, with the record that it had.
pub proof fn law_a_moved_unit_owns_its_files(k: Keyed, was: Planned, now: Planned, stores: bool)
    requires
        moves(k, was, now),
    ensures
        moved(k, was, now, stores).slots[now.name@] == now.key@,
        moved(k, was, now, stores).slots.contains_key(now.name@),
        moved(k, was, now, stores).units[now.key@] == k.units[was.key@],
        moved(k, was, now, stores).units.contains_key(now.key@),
{
}

} // verus!
