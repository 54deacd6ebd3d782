//! What the store holds, what it can do without, and whether it is intact.

use vstd::prelude::*;
use crate::num::dec;
use crate::num::u64_text;
use crate::sets::insert;
use crate::sets::rising;
use crate::store::Entry;
use crate::store::OutputFile;
use crate::store::UnitManifest;
use crate::store::is_loadable;
use crate::store::latest;
use crate::store::loadable;
use crate::strmap::StrSet;
use crate::strmap::listed;
use crate::strmap::place_of;
use crate::text::before_suffix;
use crate::text::cat;
use crate::text::cat4;
use crate::text::ends;
use crate::text::ends_with;
use crate::text::opt_view;
use crate::text::same;
use crate::text::strip_suffix;
use crate::text::views;

verus! {

// ---------------------------------------------------------------------------
// Sizes, as people read them.

/// The spacing of the numbers near `n` that a 64-bit float can hold, at least `p`.
pub open spec fn spacing(n: nat, p: nat) -> nat
    decreases n / p,
{
    if p == 0 || n / p < 0x20_0000_0000_0000 {
        p
    } else {
        proof {
            assert(n / (2 * p) < n / p) by (nonlinear_arith)
                requires
                    p > 0,
                    n / p >= 0x20_0000_0000_0000,
            ;
        }
        spacing(n, 2 * p)
    }
}

/// The multiple of `p` nearest to `n`, the even one where two are.
pub open spec fn nearest(n: nat, p: nat) -> nat {
    let q = n / p;
    let r = n % p;
    if 2 * r > p || (2 * r == p && q % 2 == 1) {
        (q + 1) * p
    } else {
        q * p
    }
}

/// The number of `unit`s in `v`, with one decimal, halves to even.
pub open spec fn tenths(v: nat, unit: nat) -> nat {
    nearest(v * 10, unit) / unit
}

pub open spec fn with_unit(v: nat, unit: nat, name: Seq<char>) -> Seq<char> {
    let t = tenths(v, unit);
    dec(t / 10) + "."@ + dec(t % 10) + name
}

/// A size in the largest unit that it fills.
pub open spec fn readable(n: nat) -> Seq<char> {
    let v = nearest(n, spacing(n, 1));
    if n < 1024 {
        dec(n) + " B"@
    } else if v < 0x10_0000 {
        with_unit(v, 1024, " KiB"@)
    } else if v < 0x4000_0000 {
        with_unit(v, 0x10_0000, " MiB"@)
    } else if v < 0x100_0000_0000 {
        with_unit(v, 0x4000_0000, " GiB"@)
    } else {
        with_unit(v, 0x100_0000_0000, " TiB"@)
    }
}

pub(crate) fn round(n: u128, p: u128) -> (r: u128)
    requires
        0 < p < 0x1_0000_0000_0000_0000,
        n < 0x100_0000_0000_0000_0000,
    ensures
        r == nearest(n as nat, p as nat),
{
    let q: u128 = n / p;
    let rest: u128 = n % p;
    proof {
        assert(q * p + rest == n && rest < p) by (nonlinear_arith)
            requires
                p > 0,
                q == n / p,
                rest == n % p,
        ;
        assert((q + 1) * p == q * p + p) by (nonlinear_arith);
    }
    if 2 * rest > p || (2 * rest == p && q % 2 == 1) {
        (q + 1) * p
    } else {
        q * p
    }
}

fn show(v: u128, unit: u128, name: &str) -> (r: String)
    requires
        0 < unit <= 0x100_0000_0000,
        v <= 0x1_0000_0000_0000_1000,
        v / unit < 0x1000_0000_0000,
    ensures
        r@ == with_unit(v as nat, unit as nat, name@),
{
    let m: u128 = round(v * 10, unit);
    let t: u128 = m / unit;
    proof {
        let q = (v * 10) / unit as int;
        assert(m <= (q + 1) * unit) by (nonlinear_arith)
            requires
                m == (q + 1) * unit || m == q * unit,
                unit > 0,
        ;
        assert(t <= q + 1) by (nonlinear_arith)
            requires
                m <= (q + 1) * unit,
                t == m / unit,
                unit > 0,
        ;
        assert(q <= (v / unit + 1) * 10) by (nonlinear_arith)
            requires
                q == (v * 10) / (unit as int),
                unit > 0,
        ;
    }
    let whole = u64_text((t / 10) as u64);
    let part = u64_text((t % 10) as u64);
    cat4(whole.as_str(), ".", part.as_str(), name)
}

/// A size as people read it.
pub fn human_bytes(n: u64) -> (r: String)
    ensures
        r@ == readable(n as nat),
{
    if n < 1024 {
        return cat(u64_text(n).as_str(), " B");
    }
    let big: u128 = n as u128;
    let mut p: u128 = 1;
    while big / p >= 0x20_0000_0000_0000
        invariant
            big == n,
            0 < p <= 0x1000,
            spacing(n as nat, 1) == spacing(n as nat, p as nat),
        decreases big / p,
    {
        proof {
            assert(p <= 0x800) by (nonlinear_arith)
                requires
                    big / p >= 0x20_0000_0000_0000,
                    big < 0x1_0000_0000_0000_0000,
                    p > 0,
            ;
            assert(big as int / (2 * p) < big as int / p as int) by (nonlinear_arith)
                requires
                    p > 0,
                    big as int / p as int >= 0x20_0000_0000_0000,
            ;
        }
        p = p * 2;
    }
    let v: u128 = round(big, p);
    proof {
        lemma_top(big as nat, p as nat);
    }
    if v < 0x10_0000 {
        show(v, 1024, " KiB")
    } else if v < 0x4000_0000 {
        show(v, 0x10_0000, " MiB")
    } else if v < 0x100_0000_0000 {
        show(v, 0x4000_0000, " GiB")
    } else {
        show(v, 0x100_0000_0000, " TiB")
    }
}

proof fn lemma_top(n: nat, p: nat)
    requires
        n < 0x1_0000_0000_0000_0000,
        0 < p <= 0x1000,
    ensures
        nearest(n, p) <= 0x1_0000_0000_0000_0000 + p,
{
    let q = n / p;
    assert((q + 1) * p == q * p + p) by (nonlinear_arith);
    assert(q * p <= n) by (nonlinear_arith)
        requires
            q == n / p,
            p > 0,
    ;
}

// ---------------------------------------------------------------------------

/// A file of the store: its name, its length, how many links lead to it, and how old it is.
#[derive(Debug)]
pub struct BlobFile {
    pub name: String,
    pub len: u64,
    pub links: u64,
    pub age: Option<u64>,
}

/// What the first `k` files take.
pub open spec fn total_len(blobs: Seq<BlobFile>, k: int) -> int
    decreases k,
{
    if k <= 0 || k > blobs.len() {
        0
    } else {
        total_len(blobs, k - 1) + blobs[k - 1].len
    }
}

proof fn lemma_total(blobs: Seq<BlobFile>, j: int, k: int)
    requires
        0 <= j <= k <= blobs.len(),
    ensures
        0 <= total_len(blobs, j) <= total_len(blobs, k),
    decreases k,
{
    if j < k {
        lemma_total(blobs, j, k - 1);
    } else if k > 0 {
        lemma_total(blobs, k - 1, k - 1);
    }
}

#[derive(Debug)]
pub struct StoreStatus {
    pub units: usize,
    pub entries: usize,
    pub blobs: usize,
    /// Compressed because nothing has them materialized.
    pub compressed_blobs: usize,
    pub blob_bytes: u64,
    /// Not hardlinked into any project.
    pub exclusive_bytes: u64,
    /// Hardlinked into a project. Freed only when the project drops them too.
    pub shared_bytes: u64,
    pub oldest_use: Option<u64>,
}

pub open spec fn entry_count(units: Seq<UnitManifest>, k: int) -> int
    decreases k,
{
    if k <= 0 || k > units.len() {
        0
    } else {
        entry_count(units, k - 1) + units[k - 1].entries@.len()
    }
}

/// The earliest of the units' latest uses.
pub open spec fn oldest(units: Seq<UnitManifest>, k: int) -> Option<u64>
    decreases k,
{
    if k <= 0 || k > units.len() {
        None
    } else {
        let lu = latest(units[k - 1].entries@, units[k - 1].entries@.len() as int);
        match oldest(units, k - 1) {
            Some(o) => Some(
                if o < lu {
                    o
                } else {
                    lu
                },
            ),
            None => Some(lu),
        }
    }
}

pub open spec fn compressed_count(blobs: Seq<BlobFile>, k: int) -> int
    decreases k,
{
    if k <= 0 || k > blobs.len() {
        0
    } else {
        compressed_count(blobs, k - 1) + if ends(blobs[k - 1].name@, ".zst"@) {
            1int
        } else {
            0int
        }
    }
}

/// What the files with other links take.
pub open spec fn shared_len(blobs: Seq<BlobFile>, k: int) -> int
    decreases k,
{
    if k <= 0 || k > blobs.len() {
        0
    } else {
        shared_len(blobs, k - 1) + if blobs[k - 1].links > 1 {
            blobs[k - 1].len as int
        } else {
            0int
        }
    }
}

/// How much the store holds.
pub fn status(units: &Vec<UnitManifest>, blobs: &Vec<BlobFile>) -> (s: StoreStatus)
    requires
        total_len(blobs@, blobs@.len() as int) <= u64::MAX,
        entry_count(units@, units@.len() as int) <= usize::MAX,
    ensures
        s.units == units@.len(),
        s.entries == entry_count(units@, units@.len() as int),
        s.blobs == blobs@.len(),
        s.compressed_blobs == compressed_count(blobs@, blobs@.len() as int),
        s.blob_bytes == total_len(blobs@, blobs@.len() as int),
        s.shared_bytes == shared_len(blobs@, blobs@.len() as int),
        s.exclusive_bytes == s.blob_bytes - s.shared_bytes,
        s.oldest_use == oldest(units@, units@.len() as int),
{
    let mut entries: usize = 0;
    let mut oldest_use: Option<u64> = None;
    let mut k: usize = 0;
    while k < units.len()
        invariant
            k <= units@.len(),
            entry_count(units@, units@.len() as int) <= usize::MAX,
            entries == entry_count(units@, k as int),
            oldest_use == oldest(units@, k as int),
        decreases units@.len() - k,
    {
        proof {
            lemma_entries(units@, k + 1, units@.len() as int);
        }
        entries += units[k].entries.len();
        let lu: u64 = units[k].last_used();
        oldest_use = match oldest_use {
            Some(o) => Some(
                if o < lu {
                    o
                } else {
                    lu
                },
            ),
            None => Some(lu),
        };
        k += 1;
    }
    let mut compressed: usize = 0;
    let mut total: u64 = 0;
    let mut shared: u64 = 0;
    k = 0;
    while k < blobs.len()
        invariant
            k <= blobs@.len(),
            total_len(blobs@, blobs@.len() as int) <= u64::MAX,
            total == total_len(blobs@, k as int),
            shared == shared_len(blobs@, k as int),
            shared <= total,
            compressed == compressed_count(blobs@, k as int),
            compressed <= k,
        decreases blobs@.len() - k,
    {
        proof {
            lemma_total(blobs@, k + 1, blobs@.len() as int);
        }
        if ends_with(blobs[k].name.as_str(), ".zst") {
            compressed += 1;
        }
        total += blobs[k].len;
        if blobs[k].links > 1 {
            shared += blobs[k].len;
        }
        k += 1;
    }
    StoreStatus {
        units: units.len(),
        entries,
        blobs: blobs.len(),
        compressed_blobs: compressed,
        blob_bytes: total,
        exclusive_bytes: total - shared,
        shared_bytes: shared,
        oldest_use,
    }
}

proof fn lemma_entries(units: Seq<UnitManifest>, j: int, k: int)
    requires
        0 <= j <= k <= units.len(),
    ensures
        0 <= entry_count(units, j) <= entry_count(units, k),
    decreases k,
{
    if j < k {
        lemma_entries(units, j, k - 1);
    } else if k > 0 {
        lemma_entries(units, k - 1, k - 1);
    }
}

// ---------------------------------------------------------------------------

#[derive(Debug)]
pub struct GcOptions {
    pub max_size: Option<u64>,
    pub max_age_secs: Option<u64>,
    pub dry_run: bool,
    /// Survive no matter what. Symlinked into a live project, for example.
    pub pinned: StrSet,
    /// Drop these even if they're new and the store is under the cap.
    pub remove: StrSet,
    /// Blobs only referenced by units outside this set get compressed.
    pub hot: Option<StrSet>,
    /// A build may be running. Don't touch a blob whose manifest isn't written yet, unless it's an orphan
    /// older than an hour.
    pub concurrent: bool,
}

#[derive(Debug)]
pub struct GcReport {
    pub units_removed: usize,
    pub units_kept: usize,
    pub blobs_removed: usize,
    pub bytes_freed: u64,
    pub bytes_kept: u64,
}

/// What a collection does: units and files by their number, and blobs to compress.
#[derive(Debug)]
pub struct GcPlan {
    pub units: Vec<usize>,
    pub files: Vec<usize>,
    pub compress: Vec<String>,
    pub report: GcReport,
}

/// Smaller than this stays plain. Compressing it barely saves anything and costs a file.
pub const MIN_COMPRESS: u64 = 0x1_0000;

/// The blobs of the first `k` outputs.
pub open spec fn outputs_upto(outputs: Seq<OutputFile>, k: int) -> Seq<Seq<char>>
    decreases k,
{
    if k <= 0 || k > outputs.len() {
        Seq::empty()
    } else {
        outputs_upto(outputs, k - 1).push(outputs[k - 1].blob@)
    }
}

pub open spec fn entries_upto(entries: Seq<Entry>, k: int) -> Seq<Seq<char>>
    decreases k,
{
    if k <= 0 || k > entries.len() {
        Seq::empty()
    } else {
        entries_upto(entries, k - 1) + outputs_upto(entries[k - 1].outputs@, entries[k - 1].outputs@.len() as int)
    }
}

/// The blobs that a unit's entries refer to.
pub open spec fn blobs_of(m: UnitManifest) -> Seq<Seq<char>> {
    entries_upto(m.entries@, m.entries@.len() as int)
}

/// Some unit that stays refers to the blob.
pub open spec fn referenced(units: Seq<UnitManifest>, gone: Seq<bool>, d: Seq<char>) -> bool {
    exists|u: int| 0 <= u < units.len() && !gone[u] && blobs_of(#[trigger] units[u]).contains(d)
}

/// Some unit that goes refers to the blob.
pub open spec fn dropped(units: Seq<UnitManifest>, gone: Seq<bool>, d: Seq<char>) -> bool {
    exists|u: int| 0 <= u < units.len() && gone[u] && blobs_of(#[trigger] units[u]).contains(d)
}

/// All blobs that the units refer to.
pub open spec fn all_blobs(units: Seq<UnitManifest>) -> Set<Seq<char>> {
    Set::new(|d: Seq<char>| exists|u: int| 0 <= u < units.len() && blobs_of(#[trigger] units[u]).contains(d))
}

/// The place of the first file of that name from `k` on, or the number of files.
pub open spec fn file_at(blobs: Seq<BlobFile>, name: Seq<char>, k: int) -> int
    decreases blobs.len() - k,
{
    if k < 0 || k >= blobs.len() {
        blobs.len() as int
    } else if blobs[k].name@ == name {
        k
    } else {
        file_at(blobs, name, k + 1)
    }
}

/// What a blob takes: the plain file, or else the compressed one.
pub open spec fn blob_len(blobs: Seq<BlobFile>, d: Seq<char>) -> u64 {
    if file_at(blobs, d, 0) < blobs.len() {
        blobs[file_at(blobs, d, 0)].len
    } else if file_at(blobs, d + ".zst"@, 0) < blobs.len() {
        blobs[file_at(blobs, d + ".zst"@, 0)].len
    } else {
        0
    }
}

/// What those of the first `k` blobs take that the rest still refers to.
pub open spec fn live_upto(
    units: Seq<UnitManifest>,
    gone: Seq<bool>,
    blobs: Seq<BlobFile>,
    ds: Seq<Seq<char>>,
    k: int,
) -> int
    decreases k,
{
    if k <= 0 || k > ds.len() {
        0
    } else {
        live_upto(units, gone, blobs, ds, k - 1) + if referenced(units, gone, ds[k - 1]) {
            blob_len(blobs, ds[k - 1]) as int
        } else {
            0int
        }
    }
}

/// What the blobs take that the units that stay refer to.
pub open spec fn live_bytes(units: Seq<UnitManifest>, gone: Seq<bool>, blobs: Seq<BlobFile>) -> int {
    let ds = listed(all_blobs(units));
    live_upto(units, gone, blobs, ds, ds.len() as int)
}

pub open spec fn last_use(m: UnitManifest) -> u64 {
    latest(m.entries@, m.entries@.len() as int)
}

/// A unit goes: it is on the list, too old, no project lists it, or the store is over its cap.
pub open spec fn doomed(opts: GcOptions, m: UnitManifest, now: u64, live: int) -> bool {
    !opts.pinned@.contains(m.key@) && (opts.remove@.contains(m.key@) || (opts.max_age_secs matches Some(age) && now
        - last_use(m) > age) || (opts.max_size matches Some(max) && live > max) || (opts.hot matches Some(hot)
        && !hot@.contains(m.key@)))
}

/// How many of the ordered units, from `k` on, were used no later.
pub open spec fn age_rank(units: Seq<UnitManifest>, order: Seq<usize>, t: u64, k: int) -> int
    decreases order.len() - k,
{
    if 0 <= k < order.len() && last_use(units[order[k] as int]) <= t {
        age_rank(units, order, t, k + 1)
    } else {
        k
    }
}

/// The first `k` units, the earliest used first.
pub open spec fn by_age(units: Seq<UnitManifest>, k: int) -> Seq<usize>
    decreases k,
{
    if k <= 0 || k > units.len() {
        Seq::empty()
    } else {
        let before = by_age(units, k - 1);
        before.insert(age_rank(units, before, last_use(units[k - 1]), 0), (k - 1) as usize)
    }
}

/// Which units are gone once the first `k` of the order were looked at.
pub open spec fn swept(
    units: Seq<UnitManifest>,
    order: Seq<usize>,
    blobs: Seq<BlobFile>,
    opts: GcOptions,
    now: u64,
    k: int,
) -> Seq<bool>
    decreases k,
{
    if k <= 0 || k > order.len() {
        Seq::new(units.len(), |u: int| false)
    } else {
        let gone = swept(units, order, blobs, opts, now, k - 1);
        let u = order[k - 1] as int;
        if doomed(opts, units[u], now, live_bytes(units, gone, blobs)) {
            gone.update(u, true)
        } else {
            gone
        }
    }
}

/// Those of the first `k` of the order that are gone.
pub open spec fn picked(order: Seq<usize>, gone: Seq<bool>, k: int) -> Seq<usize>
    decreases k,
{
    if k <= 0 || k > order.len() {
        Seq::empty()
    } else if gone[order[k - 1] as int] {
        picked(order, gone, k - 1).push(order[k - 1])
    } else {
        picked(order, gone, k - 1)
    }
}

/// The blob that a file holds.
pub open spec fn digest_of(name: Seq<char>) -> Seq<char> {
    match before_suffix(name, ".zst"@) {
        Some(d) => d,
        None => name,
    }
}

/// A file stays: its blob is referred to, or a build may be about to refer to it.
pub open spec fn stays(units: Seq<UnitManifest>, gone: Seq<bool>, opts: GcOptions, b: BlobFile) -> bool {
    let d = digest_of(b.name@);
    referenced(units, gone, d) || (opts.concurrent && !dropped(units, gone, d) && (b.age matches Some(age) ==> age
        < 3600))
}

/// Those of the first `k` files that go.
pub open spec fn files_gone(
    units: Seq<UnitManifest>,
    gone: Seq<bool>,
    opts: GcOptions,
    blobs: Seq<BlobFile>,
    k: int,
) -> Seq<usize>
    decreases k,
{
    if k <= 0 || k > blobs.len() {
        Seq::empty()
    } else if stays(units, gone, opts, blobs[k - 1]) {
        files_gone(units, gone, opts, blobs, k - 1)
    } else {
        files_gone(units, gone, opts, blobs, k - 1).push((k - 1) as usize)
    }
}

pub open spec fn len_kept(units: Seq<UnitManifest>, gone: Seq<bool>, opts: GcOptions, blobs: Seq<BlobFile>, k: int) -> int
    decreases k,
{
    if k <= 0 || k > blobs.len() {
        0
    } else {
        len_kept(units, gone, opts, blobs, k - 1) + if stays(units, gone, opts, blobs[k - 1]) {
            blobs[k - 1].len as int
        } else {
            0int
        }
    }
}

/// What is freed: files with other links stay where they are.
pub open spec fn len_freed(units: Seq<UnitManifest>, gone: Seq<bool>, opts: GcOptions, blobs: Seq<BlobFile>, k: int) -> int
    decreases k,
{
    if k <= 0 || k > blobs.len() {
        0
    } else {
        len_freed(units, gone, opts, blobs, k - 1) + if !stays(units, gone, opts, blobs[k - 1]) && blobs[k - 1].links
            <= 1 {
            blobs[k - 1].len as int
        } else {
            0int
        }
    }
}

/// An output of the unit is the blob, and is needed as it is.
pub open spec fn plain_in(opts: GcOptions, m: UnitManifest, d: Seq<char>) -> bool {
    exists|e: int, o: int|
        0 <= e < m.entries@.len() && 0 <= o < m.entries@[e].outputs@.len() && (
        #[trigger] m.entries@[e].outputs@[o]).blob@ == d && ((opts.hot matches Some(hot) && hot@.contains(m.key@))
            || opts.pinned@.contains(m.key@) || loadable(m.entries@[e].outputs@[o].name@))
}

/// An output of the unit is the blob, large enough, and not needed as it is.
pub open spec fn cold_in(opts: GcOptions, m: UnitManifest, d: Seq<char>) -> bool {
    exists|e: int, o: int|
        0 <= e < m.entries@.len() && 0 <= o < m.entries@[e].outputs@.len() && (
        #[trigger] m.entries@[e].outputs@[o]).blob@ == d && !((opts.hot matches Some(hot) && hot@.contains(m.key@))
            || opts.pinned@.contains(m.key@) || loadable(m.entries@[e].outputs@[o].name@))
            && m.entries@[e].outputs@[o].size >= MIN_COMPRESS
}

/// The blob is to be compressed: some unit that stays has it cold, none needs it plain, and no project
/// shares the file.
pub open spec fn compressible(
    units: Seq<UnitManifest>,
    gone: Seq<bool>,
    opts: GcOptions,
    blobs: Seq<BlobFile>,
    d: Seq<char>,
) -> bool {
    &&& opts.hot.is_some() && !opts.dry_run
    &&& exists|u: int| 0 <= u < units.len() && !gone[u] && cold_in(opts, #[trigger] units[u], d)
    &&& forall|u: int| 0 <= u < units.len() && !gone[u] ==> !plain_in(opts, #[trigger] units[u], d)
    &&& file_at(blobs, d, 0) < blobs.len() && blobs[file_at(blobs, d, 0)].links <= 1
}

fn list_blobs(m: &UnitManifest) -> (r: Vec<String>)
    ensures
        views(r@) == blobs_of(*m),
{
    let mut r: Vec<String> = Vec::new();
    let mut e: usize = 0;
    assert(views(r@) =~= Seq::<Seq<char>>::empty());
    while e < m.entries.len()
        invariant
            e <= m.entries@.len(),
            views(r@) == entries_upto(m.entries@, e as int),
        decreases m.entries@.len() - e,
    {
        let outputs = &m.entries[e].outputs;
        let ghost head = views(r@);
        let mut o: usize = 0;
        assert(head + outputs_upto(outputs@, 0) =~= head);
        while o < outputs.len()
            invariant
                o <= outputs@.len(),
                views(r@) == head + outputs_upto(outputs@, o as int),
            decreases outputs@.len() - o,
        {
            let ghost was = r@;
            r.push(outputs[o].blob.clone());
            assert(views(r@) =~= views(was).push(outputs@[o as int].blob@));
            o += 1;
            assert(views(r@) =~= head + outputs_upto(outputs@, o as int));
        }
        e += 1;
    }
    r
}

fn find_file(blobs: &Vec<BlobFile>, name: &str) -> (r: usize)
    ensures
        r == file_at(blobs@, name@, 0),
        r <= blobs@.len(),
{
    let mut k: usize = 0;
    while k < blobs.len()
        invariant
            k <= blobs@.len(),
            file_at(blobs@, name@, 0) == file_at(blobs@, name@, k as int),
        decreases blobs@.len() - k,
    {
        if same(blobs[k].name.as_str(), name) {
            return k;
        }
        k += 1;
    }
    k
}

fn find_len(blobs: &Vec<BlobFile>, d: &str) -> (r: u64)
    ensures
        r == blob_len(blobs@, d@),
{
    let k: usize = find_file(blobs, d);
    if k < blobs.len() {
        return blobs[k].len;
    }
    let k: usize = find_file(blobs, cat(d, ".zst").as_str());
    if k < blobs.len() {
        blobs[k].len
    } else {
        0
    }
}

proof fn lemma_age_rank(units: Seq<UnitManifest>, order: Seq<usize>, t: u64, k: int)
    requires
        0 <= k <= order.len(),
    ensures
        k <= age_rank(units, order, t, k) <= order.len(),
    decreases order.len() - k,
{
    if k < order.len() && last_use(units[order[k] as int]) <= t {
        lemma_age_rank(units, order, t, k + 1);
    }
}

/// Each unit once.
pub open spec fn all_once(order: Seq<usize>, n: int) -> bool {
    &&& order.len() == n
    &&& order.no_duplicates()
    &&& forall|k: int| 0 <= k < order.len() ==> #[trigger] order[k] < n
}

fn order_by_age(units: &Vec<UnitManifest>) -> (order: Vec<usize>)
    ensures
        order@ == by_age(units@, units@.len() as int),
        all_once(order@, units@.len() as int),
{
    let mut order: Vec<usize> = Vec::new();
    let mut k: usize = 0;
    while k < units.len()
        invariant
            k <= units@.len(),
            order@ == by_age(units@, k as int),
            all_once(order@, k as int),
        decreases units@.len() - k,
    {
        let t: u64 = units[k].last_used();
        let mut p: usize = 0;
        while p < order.len() && units[order[p]].last_used() <= t
            invariant
                p <= order@.len(),
                k < units@.len(),
                all_once(order@, k as int),
                age_rank(units@, order@, t, 0) == age_rank(units@, order@, t, p as int),
            decreases order@.len() - p,
        {
            p += 1;
        }
        let ghost was = order@;
        order.insert(p, k);
        proof {
            let now = order@;
            assert forall|j: int| 0 <= j < now.len() implies #[trigger] now[j] < k + 1 by {
                if j < p {
                    assert(now[j] == was[j]);
                } else if j > p {
                    assert(now[j] == was[j - 1]);
                }
            }
            assert forall|a: int, b: int| 0 <= a < b < now.len() implies now[a] != now[b] by {
                let a2 = if a < p { a } else { a - 1 };
                let b2 = if b < p { b } else { b - 1 };
                if a != p {
                    assert(now[a] == was[a2] && was[a2] < k);
                }
                if b != p {
                    assert(now[b] == was[b2] && was[b2] < k);
                }
            }
        }
        k += 1;
    }
    order
}

/// The numbers are those of the blobs in the list.
spec fn numbers(ds: Seq<Seq<char>>, m: UnitManifest, ids: Seq<usize>) -> bool {
    &&& rising(ids)
    &&& forall|k: int| 0 <= k < ids.len() ==> #[trigger] ids[k] < ds.len()
    &&& forall|d: int| 0 <= d < ds.len() ==> blobs_of(m).contains(#[trigger] ds[d]) == ids.contains(d as usize)
}

fn number_blobs(ds: &Vec<String>, list: &Vec<String>, Ghost(m): Ghost<UnitManifest>) -> (ids: Vec<usize>)
    requires
        crate::order::ascending(views(ds@)),
        views(list@) == blobs_of(m),
        forall|d: Seq<char>| blobs_of(m).contains(d) ==> #[trigger] views(ds@).contains(d),
    ensures
        numbers(views(ds@), m, ids@),
{
    let ghost dv = views(ds@);
    let ghost lv = views(list@);
    let n: usize = ds.len();
    let mut ids: Vec<usize> = Vec::new();
    let mut k: usize = 0;
    while k < list.len()
        invariant
            n == dv.len(),
            k <= list@.len(),
            dv == views(ds@),
            lv == views(list@),
            lv == blobs_of(m),
            crate::order::ascending(dv),
            forall|d: Seq<char>| lv.contains(d) ==> #[trigger] dv.contains(d),
            rising(ids@),
            forall|j: int| 0 <= j < ids@.len() ==> #[trigger] ids@[j] < dv.len(),
            forall|d: int| 0 <= d < dv.len() ==> lv.take(k as int).contains(#[trigger] dv[d]) == ids@.contains(d as usize),
        decreases list@.len() - k,
    {
        assert(lv[k as int] == list@[k as int]@);
        let (i, found) = place_of(ds, list[k].as_str());
        proof {
            assert(lv.contains(lv[k as int]));
            assert(dv.contains(lv[k as int]));
            assert(found);
            assert(dv[i as int] == lv[k as int]);
        }
        let ghost was = ids@;
        insert(&mut ids, i);
        proof {
            let t = lv.take(k + 1);
            assert(t[k as int] == lv[k as int]);
            assert forall|d: int| 0 <= d < dv.len() implies t.contains(#[trigger] dv[d]) == ids@.contains(d as usize) by {
                if lv.take(k as int).contains(dv[d]) {
                    let j = choose|j: int| 0 <= j < k && lv.take(k as int)[j] == dv[d];
                    assert(t[j] == dv[d]);
                }
                if t.contains(dv[d]) && !lv.take(k as int).contains(dv[d]) {
                    let j = choose|j: int| 0 <= j < k + 1 && t[j] == dv[d];
                    if j < k {
                        assert(lv.take(k as int)[j] == dv[d]);
                    }
                    assert(dv[d] == dv[i as int]);
                    lemma_same_place(dv, d, i as int);
                }
                if d == i {
                    assert(t[k as int] == dv[d]);
                }
            }
            assert forall|j: int| 0 <= j < ids@.len() implies #[trigger] ids@[j] < dv.len() by {
                assert(ids@.contains(ids@[j]));
                if was.contains(ids@[j]) {
                    let m = choose|m: int| 0 <= m < was.len() && was[m] == ids@[j];
                    assert(was[m] < dv.len());
                }
            }
        }
        k += 1;
    }
    assert(lv.take(lv.len() as int) =~= lv);
    ids
}

proof fn lemma_same_place(s: Seq<Seq<char>>, i: int, j: int)
    requires
        crate::order::ascending(s),
        0 <= i < s.len(),
        0 <= j < s.len(),
        s[i] == s[j],
    ensures
        i == j,
{
    crate::order::lemma_before_irreflexive(s[i]);
    if i < j {
        assert(crate::order::before(s[i], s[j]));
    } else if j < i {
        assert(crate::order::before(s[j], s[i]));
    }
}

/// How many of the first `n` units stay and refer to the blob.
spec fn users(ids: Seq<Vec<usize>>, gone: Seq<bool>, d: usize, n: int) -> int
    decreases n,
{
    if n <= 0 {
        0
    } else {
        users(ids, gone, d, n - 1) + if !gone[n - 1] && ids[n - 1]@.contains(d) {
            1int
        } else {
            0int
        }
    }
}

proof fn lemma_users(ids: Seq<Vec<usize>>, gone: Seq<bool>, d: usize, n: int)
    requires
        0 <= n <= ids.len(),
        ids.len() == gone.len(),
    ensures
        0 <= users(ids, gone, d, n) <= n,
        users(ids, gone, d, n) > 0 <==> exists|u: int| 0 <= u < n && !gone[u] && (#[trigger] ids[u])@.contains(d),
    decreases n,
{
    if n > 0 {
        lemma_users(ids, gone, d, n - 1);
        if users(ids, gone, d, n - 1) > 0 {
            let u = choose|u: int| 0 <= u < n - 1 && !gone[u] && (#[trigger] ids[u])@.contains(d);
            assert(0 <= u < n && !gone[u] && ids[u]@.contains(d));
        }
        if !gone[n - 1] && ids[n - 1]@.contains(d) {
            assert(0 <= n - 1 < n && !gone[n - 1] && ids[n - 1]@.contains(d));
        }
    }
}

proof fn lemma_users_update(ids: Seq<Vec<usize>>, gone: Seq<bool>, u: int, d: usize, n: int)
    requires
        0 <= n <= ids.len(),
        ids.len() == gone.len(),
        0 <= u < ids.len(),
        !gone[u],
    ensures
        users(ids, gone.update(u, true), d, n) == users(ids, gone, d, n) - if u < n && ids[u]@.contains(d) {
            1int
        } else {
            0int
        },
    decreases n,
{
    if n > 0 {
        lemma_users_update(ids, gone, u, d, n - 1);
    }
}

/// The sizes of those of the first `k` blobs that are in use.
spec fn used_len(counts: Seq<usize>, sizes: Seq<u64>, k: int) -> int
    decreases k,
{
    if k <= 0 {
        0
    } else {
        used_len(counts, sizes, k - 1) + if counts[k - 1] > 0 {
            sizes[k - 1] as int
        } else {
            0int
        }
    }
}

proof fn lemma_used_update(counts: Seq<usize>, sizes: Seq<u64>, d: int, c: usize, k: int)
    requires
        0 <= d < counts.len(),
        counts.len() == sizes.len(),
        0 <= k <= counts.len(),
    ensures
        used_len(counts.update(d, c), sizes, k) == used_len(counts, sizes, k) + if d < k {
            (if c > 0 {
                sizes[d] as int
            } else {
                0int
            }) - (if counts[d] > 0 {
                sizes[d] as int
            } else {
                0int
            })
        } else {
            0int
        },
    decreases k,
{
    if k > 0 {
        lemma_used_update(counts, sizes, d, c, k - 1);
    }
}

proof fn lemma_used_bound(counts: Seq<usize>, sizes: Seq<u64>, k: int)
    requires
        0 <= k <= counts.len(),
        counts.len() == sizes.len(),
    ensures
        0 <= used_len(counts, sizes, k) <= k * 0xffff_ffff_ffff_ffff,
        forall|d: int| 0 <= d < k && counts[d] > 0 ==> used_len(counts, sizes, k) >= #[trigger] sizes[d],
    decreases k,
{
    if k > 0 {
        lemma_used_bound(counts, sizes, k - 1);
    }
}

/// The bookkeeping of a sweep agrees with which units are gone.
spec fn booked(
    units: Seq<UnitManifest>,
    blobs: Seq<BlobFile>,
    ds: Seq<Seq<char>>,
    ids: Seq<Vec<usize>>,
    sizes: Seq<u64>,
    gone: Seq<bool>,
    counts: Seq<usize>,
) -> bool {
    &&& ids.len() == units.len() == gone.len()
    &&& sizes.len() == ds.len() == counts.len()
    &&& ds == listed(all_blobs(units))
    &&& forall|u: int| 0 <= u < units.len() ==> numbers(ds, #[trigger] units[u], ids[u]@)
    &&& forall|d: int| 0 <= d < ds.len() ==> #[trigger] sizes[d] == blob_len(blobs, ds[d])
    &&& forall|d: int| 0 <= d < ds.len() ==> #[trigger] counts[d] == users(ids, gone, d as usize, ids.len() as int)
}

proof fn lemma_live(
    units: Seq<UnitManifest>,
    blobs: Seq<BlobFile>,
    ds: Seq<Seq<char>>,
    ids: Seq<Vec<usize>>,
    sizes: Seq<u64>,
    gone: Seq<bool>,
    counts: Seq<usize>,
    k: int,
)
    requires
        booked(units, blobs, ds, ids, sizes, gone, counts),
        0 <= k <= ds.len() <= usize::MAX,
    ensures
        used_len(counts, sizes, k) == live_upto(units, gone, blobs, ds, k),
        forall|d: int| 0 <= d < k ==> (#[trigger] counts[d] > 0) == referenced(units, gone, ds[d]),
    decreases k,
{
    if k > 0 {
        lemma_live(units, blobs, ds, ids, sizes, gone, counts, k - 1);
        let d = (k - 1) as usize;
        lemma_users(ids, gone, d, ids.len() as int);
        assert(counts[k - 1] == users(ids, gone, d, ids.len() as int));
        if counts[k - 1] > 0 {
            let u = choose|u: int| 0 <= u < ids.len() && !gone[u] && (#[trigger] ids[u])@.contains(d);
            assert(numbers(ds, units[u], ids[u]@));
            assert(blobs_of(units[u]).contains(ds[k - 1]));
        }
        if referenced(units, gone, ds[k - 1]) {
            let u = choose|u: int| 0 <= u < units.len() && !gone[u] && blobs_of(#[trigger] units[u]).contains(ds[k - 1]);
            assert(numbers(ds, units[u], ids[u]@));
            assert(ids[u]@.contains(d));
        }
        assert(sizes[k - 1] == blob_len(blobs, ds[k - 1]));
    }
}

fn dooms(opts: &GcOptions, m: &UnitManifest, now: u64, live: u128) -> (r: bool)
    ensures
        r == doomed(*opts, *m, now, live as int),
{
    let key = m.key.as_str();
    if opts.pinned.contains(key) {
        return false;
    }
    let used: u64 = m.last_used();
    let old: bool = match opts.max_age_secs {
        Some(age) => now > used && now - used > age,
        None => false,
    };
    let big: bool = match opts.max_size {
        Some(max) => live > max as u128,
        None => false,
    };
    let unused: bool = match &opts.hot {
        Some(hot) => !hot.contains(key),
        None => false,
    };
    opts.remove.contains(key) || old || big || unused
}

/// One unit's blobs have a user less.
fn release(
    ids: &Vec<Vec<usize>>,
    u: usize,
    sizes: &Vec<u64>,
    counts: &mut Vec<usize>,
    live: u128,
    Ghost(gone): Ghost<Seq<bool>>,
) -> (r: u128)
    requires
        u < ids@.len(),
        ids@.len() == gone.len(),
        !gone[u as int],
        rising(ids@[u as int]@),
        sizes@.len() == old(counts)@.len(),
        forall|k: int| 0 <= k < ids@[u as int]@.len() ==> #[trigger] ids@[u as int]@[k] < sizes@.len(),
        forall|d: int|
            0 <= d < sizes@.len() ==> #[trigger] old(counts)@[d] == users(ids@, gone, d as usize, ids@.len() as int),
        live == used_len(old(counts)@, sizes@, sizes@.len() as int),
    ensures
        final(counts)@.len() == sizes@.len(),
        forall|d: int|
            0 <= d < sizes@.len() ==> #[trigger] final(counts)@[d] == users(
                ids@,
                gone.update(u as int, true),
                d as usize,
                ids@.len() as int,
            ),
        r == used_len(final(counts)@, sizes@, sizes@.len() as int),
{
    let ghost mine = ids@[u as int]@;
    let ghost start = counts@;
    let n: usize = sizes.len();
    let mut live: u128 = live;
    let mut k: usize = 0;
    while k < ids[u].len()
        invariant
            n == sizes@.len(),
            u < ids@.len(),
            mine == ids@[u as int]@,
            k <= mine.len(),
            ids@.len() == gone.len(),
            !gone[u as int],
            rising(mine),
            counts@.len() == sizes@.len() == start.len(),
            forall|k: int| 0 <= k < mine.len() ==> #[trigger] mine[k] < sizes@.len(),
            forall|d: int| 0 <= d < sizes@.len() ==> #[trigger] start[d] == users(ids@, gone, d as usize, ids@.len() as int),
            forall|d: int|
                0 <= d < sizes@.len() ==> #[trigger] counts@[d] == start[d] - if mine.take(k as int).contains(d as usize) {
                    1int
                } else {
                    0int
                },
            live == used_len(counts@, sizes@, sizes@.len() as int),
        decreases mine.len() - k,
    {
        let d: usize = ids[u][k];
        proof {
            assert(mine[k as int] == d);
            lemma_users(ids@, gone, d, ids@.len() as int);
            assert(mine.contains(d));
            assert(0 <= u < ids@.len() && !gone[u as int] && ids@[u as int]@.contains(d));
            assert(start[d as int] > 0);
            assert(!mine.take(k as int).contains(d)) by {
                if mine.take(k as int).contains(d) {
                    let j = choose|j: int| 0 <= j < k && mine.take(k as int)[j] == d;
                    assert(mine[j] < mine[k as int]);
                }
            }
            assert(counts@[d as int] == start[d as int]);
            lemma_used_bound(counts@, sizes@, sizes@.len() as int);
            lemma_used_update(counts@, sizes@, d as int, (counts@[d as int] - 1) as usize, sizes@.len() as int);
        }
        let c: usize = counts[d];
        if c == 1 {
            live = live - sizes[d] as u128;
        }
        let ghost was = counts@;
        counts.set(d, c - 1);
        proof {
            let t = mine.take(k + 1);
            assert(t[k as int] == d);
            assert forall|x: int| 0 <= x < sizes@.len() implies #[trigger] counts@[x] == start[x] - if t.contains(
                x as usize,
            ) {
                1int
            } else {
                0int
            } by {
                assert(was[x] == start[x] - if mine.take(k as int).contains(x as usize) {
                    1int
                } else {
                    0int
                });
                if mine.take(k as int).contains(x as usize) {
                    let j = choose|j: int| 0 <= j < k && mine.take(k as int)[j] == x as usize;
                    assert(t[j] == x as usize);
                }
                if t.contains(x as usize) && x != d {
                    let j = choose|j: int| 0 <= j < k + 1 && t[j] == x as usize;
                    assert(mine.take(k as int)[j] == x as usize);
                }
            }
        }
        k += 1;
    }
    proof {
        assert(mine.take(mine.len() as int) =~= mine);
        assert forall|d: int| 0 <= d < sizes@.len() implies #[trigger] counts@[d] == users(
            ids@,
            gone.update(u as int, true),
            d as usize,
            ids@.len() as int,
        ) by {
            lemma_users_update(ids@, gone, u as int, d as usize, ids@.len() as int);
            assert(start[d] == users(ids@, gone, d as usize, ids@.len() as int));
        }
    }
    live
}

/// All blobs that the units refer to.
fn gather(units: &Vec<UnitManifest>) -> (r: StrSet)
    ensures
        r@ == all_blobs(units@),
{
    let mut r = StrSet::new();
    let mut u: usize = 0;
    while u < units.len()
        invariant
            u <= units@.len(),
            forall|d: Seq<char>|
                #[trigger] r@.contains(d) == exists|v: int| 0 <= v < u && blobs_of(#[trigger] units@[v]).contains(d),
        decreases units@.len() - u,
    {
        let list = list_blobs(&units[u]);
        let ghost lv = views(list@);
        let ghost was = r@;
        let mut k: usize = 0;
        while k < list.len()
            invariant
                k <= list@.len(),
                lv == views(list@),
                forall|d: Seq<char>| #[trigger] r@.contains(d) == (was.contains(d) || lv.take(k as int).contains(d)),
            decreases list@.len() - k,
        {
            r.insert(list[k].as_str());
            proof {
                assert(lv[k as int] == list@[k as int]@);
                let t = lv.take(k + 1);
                assert(t[k as int] == lv[k as int]);
                assert forall|d: Seq<char>| t.contains(d) == (lv.take(k as int).contains(d) || d == lv[k as int]) by {
                    if lv.take(k as int).contains(d) {
                        let j = choose|j: int| 0 <= j < k && lv.take(k as int)[j] == d;
                        assert(t[j] == d);
                    }
                    if t.contains(d) && d != lv[k as int] {
                        let j = choose|j: int| 0 <= j < k + 1 && t[j] == d;
                        assert(lv.take(k as int)[j] == d);
                    }
                }
            }
            k += 1;
        }
        proof {
            assert(lv.take(lv.len() as int) =~= lv);
            assert forall|d: Seq<char>|
                #[trigger] r@.contains(d) == exists|v: int| 0 <= v < u + 1 && blobs_of(#[trigger] units@[v]).contains(d) by {
                if lv.contains(d) {
                    assert(blobs_of(units@[u as int]).contains(d));
                }
            }
        }
        u += 1;
    }
    assert(r@ =~= all_blobs(units@));
    r
}

/// The units that go, in the order in which they were looked at.
struct Sweep {
    ds: Vec<String>,
    ids: Vec<Vec<usize>>,
    counts: Vec<usize>,
    gone: Vec<bool>,
    removed: Vec<usize>,
}

fn sweep(now: u64, opts: &GcOptions, units: &Vec<UnitManifest>, blobs: &Vec<BlobFile>) -> (r: Sweep)
    ensures
        ({
            let order = by_age(units@, units@.len() as int);
            &&& r.gone@ == swept(units@, order, blobs@, *opts, now, order.len() as int)
            &&& r.removed@ == picked(order, r.gone@, order.len() as int)
            &&& r.removed@.len() <= units@.len()
        }),
        views(r.ds@) == listed(all_blobs(units@)),
        crate::order::ascending(views(r.ds@)),
        views(r.ds@).to_set() == all_blobs(units@),
        r.counts@.len() == r.ds@.len(),
        r.gone@.len() == units@.len() == r.ids@.len(),
        forall|u: int| 0 <= u < units@.len() ==> numbers(views(r.ds@), #[trigger] units@[u], r.ids@[u]@),
        forall|d: int|
            0 <= d < r.ds@.len() ==> (#[trigger] r.counts@[d] > 0) == referenced(units@, r.gone@, views(r.ds@)[d]),
{
    let all = gather(units);
    let ds: Vec<String> = crate::profile::dup_list(all.items());
    let ghost dv = views(ds@);
    let n: usize = units.len();
    let m: usize = ds.len();
    let mut ids: Vec<Vec<usize>> = Vec::new();
    while ids.len() < n
        invariant
            n == units@.len(),
            ids@.len() <= n,
            dv == views(ds@),
            crate::order::ascending(dv),
            dv.to_set() == all_blobs(units@),
            forall|u: int| 0 <= u < ids@.len() ==> numbers(dv, #[trigger] units@[u], ids@[u]@),
        decreases n - ids@.len(),
    {
        let u: usize = ids.len();
        let list = list_blobs(&units[u]);
        proof {
            assert forall|d: Seq<char>| blobs_of(units@[u as int]).contains(d) implies #[trigger] dv.contains(d) by {
                assert(all_blobs(units@).contains(d));
                assert(dv.to_set().contains(d));
            }
        }
        ids.push(number_blobs(&ds, &list, Ghost(units@[u as int])));
    }
    let mut sizes: Vec<u64> = Vec::new();
    while sizes.len() < m
        invariant
            m == ds@.len(),
            dv == views(ds@),
            sizes@.len() <= m,
            forall|d: int| 0 <= d < sizes@.len() ==> #[trigger] sizes@[d] == blob_len(blobs@, dv[d]),
        decreases m - sizes@.len(),
    {
        sizes.push(find_len(blobs, ds[sizes.len()].as_str()));
    }
    let mut gone: Vec<bool> = Vec::new();
    while gone.len() < n
        invariant
            gone@.len() <= n,
            forall|u: int| 0 <= u < gone@.len() ==> !#[trigger] gone@[u],
        decreases n - gone@.len(),
    {
        gone.push(false);
    }
    let mut counts: Vec<usize> = Vec::new();
    while counts.len() < m
        invariant
            counts@.len() <= m,
            m == dv.len(),
            n == ids@.len() == gone@.len(),
            forall|d: int| 0 <= d < counts@.len() ==> #[trigger] counts@[d] == users(ids@, gone@, d as usize, n as int),
        decreases m - counts@.len(),
    {
        let d: usize = counts.len();
        counts.push(count_users(&ids, &gone, d));
    }
    let mut live: u128 = 0;
    let mut k: usize = 0;
    while k < m
        invariant
            k <= m,
            m == counts@.len() == sizes@.len(),
            live == used_len(counts@, sizes@, k as int),
            live <= k * 0xffff_ffff_ffff_ffff,
        decreases m - k,
    {
        if counts[k] > 0 {
            live = live + sizes[k] as u128;
        }
        k += 1;
    }
    let order = order_by_age(units);
    let mut removed: Vec<usize> = Vec::new();
    k = 0;
    assert(gone@ =~= swept(units@, order@, blobs@, *opts, now, 0));
    while k < order.len()
        invariant
            k <= order@.len(),
            n == units@.len(),
            m == dv.len(),
            order@ == by_age(units@, units@.len() as int),
            all_once(order@, n as int),
            dv == listed(all_blobs(units@)),
            booked(units@, blobs@, dv, ids@, sizes@, gone@, counts@),
            live == used_len(counts@, sizes@, m as int),
            gone@ == swept(units@, order@, blobs@, *opts, now, k as int),
            forall|j: int| k <= j < order@.len() ==> !gone@[#[trigger] order@[j] as int],
            removed@ == picked(order@, gone@, k as int),
            removed@.len() <= k,
        decreases order@.len() - k,
    {
        let u: usize = order[k];
        proof {
            lemma_live(units@, blobs@, dv, ids@, sizes@, gone@, counts@, m as int);
        }
        let ghost was = gone@;
        if dooms(opts, &units[u], now, live) {
            proof {
                assert(numbers(dv, units@[u as int], ids@[u as int]@));
            }
            live = release(&ids, u, &sizes, &mut counts, live, Ghost(gone@));
            gone.set(u, true);
            removed.push(u);
            proof {
                assert forall|j: int| k + 1 <= j < order@.len() implies !gone@[#[trigger] order@[j] as int] by {
                    assert(order@[j] != order@[k as int]);
                    assert(!was[order@[j] as int]);
                }
                lemma_picked(order@, was, gone@, u, k as int);
            }
        }
        k += 1;
    }
    proof {
        lemma_live(units@, blobs@, dv, ids@, sizes@, gone@, counts@, m as int);
    }
    Sweep { ds, ids, counts, gone, removed }
}

/// What happens to a unit later changes nothing before.
proof fn lemma_picked(order: Seq<usize>, a: Seq<bool>, b: Seq<bool>, u: usize, k: int)
    requires
        0 <= k < order.len(),
        order.no_duplicates(),
        order[k] == u,
        a.len() == b.len(),
        u < a.len(),
        b == a.update(u as int, true),
        forall|j: int| 0 <= j < order.len() ==> #[trigger] order[j] < a.len(),
    ensures
        picked(order, b, k) == picked(order, a, k),
{
    lemma_picked_same(order, a, b, k, k);
}

proof fn lemma_picked_same(order: Seq<usize>, a: Seq<bool>, b: Seq<bool>, n: int, k: int)
    requires
        0 <= k <= n < order.len(),
        order.no_duplicates(),
        a.len() == b.len(),
        forall|j: int| 0 <= j < order.len() ==> #[trigger] order[j] < a.len(),
        b == a.update(order[n] as int, true),
    ensures
        picked(order, b, k) == picked(order, a, k),
    decreases k,
{
    if k > 0 {
        lemma_picked_same(order, a, b, n, k - 1);
        assert(order[k - 1] != order[n]);
    }
}

fn count_users(ids: &Vec<Vec<usize>>, gone: &Vec<bool>, d: usize) -> (r: usize)
    requires
        ids@.len() == gone@.len(),
    ensures
        r == users(ids@, gone@, d, ids@.len() as int),
{
    let mut r: usize = 0;
    let mut u: usize = 0;
    while u < ids.len()
        invariant
            u <= ids@.len(),
            ids@.len() == gone@.len(),
            r <= u,
            r == users(ids@, gone@, d, u as int),
        decreases ids@.len() - u,
    {
        let uses: bool = crate::sets::has(&ids[u], d);
        if !gone[u] && uses {
            r += 1;
        }
        u += 1;
    }
    r
}

/// Which blobs units that go refer to.
fn mark_dropped(r: &Sweep, units: &Vec<UnitManifest>) -> (out: Vec<bool>)
    requires
        r.gone@.len() == units@.len() == r.ids@.len(),
        forall|u: int| 0 <= u < units@.len() ==> numbers(views(r.ds@), #[trigger] units@[u], r.ids@[u]@),
    ensures
        out@.len() == r.ds@.len(),
        forall|d: int| 0 <= d < out@.len() ==> #[trigger] out@[d] == dropped(units@, r.gone@, views(r.ds@)[d]),
{
    let m: usize = r.ds.len();
    let n: usize = units.len();
    let ghost dv = views(r.ds@);
    let mut out: Vec<bool> = Vec::new();
    while out.len() < m
        invariant
            m == dv.len(),
            n == units@.len(),
            dv == views(r.ds@),
            out@.len() <= m,
            r.gone@.len() == units@.len() == r.ids@.len(),
            forall|u: int| 0 <= u < units@.len() ==> numbers(dv, #[trigger] units@[u], r.ids@[u]@),
            forall|d: int| 0 <= d < out@.len() ==> #[trigger] out@[d] == dropped(units@, r.gone@, dv[d]),
        decreases m - out@.len(),
    {
        let d: usize = out.len();
        let mut hit: bool = false;
        let mut u: usize = 0;
        while u < n
            invariant
                u <= n,
                d < m,
                m == dv.len(),
                n == units@.len(),
                r.gone@.len() == units@.len() == r.ids@.len(),
                forall|u: int| 0 <= u < units@.len() ==> numbers(dv, #[trigger] units@[u], r.ids@[u]@),
                hit == exists|v: int|
                    0 <= v < u && r.gone@[v] && blobs_of(#[trigger] units@[v]).contains(dv[d as int]),
            decreases n - u,
        {
            assert(numbers(dv, units@[u as int], r.ids@[u as int]@));
            assert(blobs_of(units@[u as int]).contains(dv[d as int]) == r.ids@[u as int]@.contains(d));
            if r.gone[u] {
                let uses: bool = crate::sets::has(&r.ids[u], d);
                if uses {
                    hit = true;
                }
            }
            u += 1;
        }
        out.push(hit);
    }
    out
}

fn keeps_plain(opts: &GcOptions, m: &UnitManifest) -> (r: bool)
    ensures
        r == ((opts.hot matches Some(hot) && hot@.contains(m.key@)) || opts.pinned@.contains(m.key@)),
{
    let hot: bool = match &opts.hot {
        Some(hot) => hot.contains(m.key.as_str()),
        None => false,
    };
    hot || opts.pinned.contains(m.key.as_str())
}

/// Whether the unit needs the blob plain, and whether it has it cold.
fn needs(opts: &GcOptions, m: &UnitManifest, d: &str) -> (r: (bool, bool))
    ensures
        r.0 == plain_in(*opts, *m, d@),
        r.1 == cold_in(*opts, *m, d@),
{
    let plain: bool = keeps_plain(opts, m);
    let mut needed: bool = false;
    let mut cold: bool = false;
    let mut e: usize = 0;
    while e < m.entries.len()
        invariant
            e <= m.entries@.len(),
            plain == ((opts.hot matches Some(hot) && hot@.contains(m.key@)) || opts.pinned@.contains(m.key@)),
            needed == exists|i: int, o: int|
                0 <= i < e && 0 <= o < m.entries@[i].outputs@.len() && (#[trigger] m.entries@[i].outputs@[o]).blob@ == d@
                    && (plain || loadable(m.entries@[i].outputs@[o].name@)),
            cold == exists|i: int, o: int|
                0 <= i < e && 0 <= o < m.entries@[i].outputs@.len() && (#[trigger] m.entries@[i].outputs@[o]).blob@ == d@
                    && !(plain || loadable(m.entries@[i].outputs@[o].name@)) && m.entries@[i].outputs@[o].size
                    >= MIN_COMPRESS,
        decreases m.entries@.len() - e,
    {
        let ghost needed0 = needed;
        let ghost cold0 = cold;
        let mut k: usize = 0;
        while k < m.entries[e].outputs.len()
            invariant
                e < m.entries@.len(),
                k <= m.entries@[e as int].outputs@.len(),
                needed == (needed0 || exists|o: int|
                    0 <= o < k && (#[trigger] m.entries@[e as int].outputs@[o]).blob@ == d@ && (plain || loadable(
                        m.entries@[e as int].outputs@[o].name@,
                    ))),
                cold == (cold0 || exists|o: int|
                    0 <= o < k && (#[trigger] m.entries@[e as int].outputs@[o]).blob@ == d@ && !(plain || loadable(
                        m.entries@[e as int].outputs@[o].name@,
                    )) && m.entries@[e as int].outputs@[o].size >= MIN_COMPRESS),
            decreases m.entries@[e as int].outputs@.len() - k,
        {
            let o = &m.entries[e].outputs[k];
            if same(o.blob.as_str(), d) {
                if plain || is_loadable(o.name.as_str()) {
                    needed = true;
                } else if o.size >= MIN_COMPRESS {
                    cold = true;
                }
            }
            k += 1;
        }
        e += 1;
    }
    (needed, cold)
}

fn can_compress(
    units: &Vec<UnitManifest>,
    gone: &Vec<bool>,
    opts: &GcOptions,
    blobs: &Vec<BlobFile>,
    d: &str,
) -> (r: bool)
    requires
        gone@.len() == units@.len(),
    ensures
        r == compressible(units@, gone@, *opts, blobs@, d@),
{
    if opts.hot.is_none() || opts.dry_run {
        return false;
    }
    let mut any: bool = false;
    let mut u: usize = 0;
    while u < units.len()
        invariant
            u <= units@.len(),
            gone@.len() == units@.len(),
            any == exists|v: int| 0 <= v < u && !gone@[v] && cold_in(*opts, #[trigger] units@[v], d@),
            forall|v: int| 0 <= v < u && !gone@[v] ==> !plain_in(*opts, #[trigger] units@[v], d@),
        decreases units@.len() - u,
    {
        if !gone[u] {
            let (plain, cold) = needs(opts, &units[u], d);
            if plain {
                return false;
            }
            if cold {
                any = true;
            }
        }
        u += 1;
    }
    let k: usize = find_file(blobs, d);
    any && k < blobs.len() && blobs[k].links <= 1
}

/// What a collection does. The caller holds the store's lock.
pub fn gc(now: u64, opts: &GcOptions, units: &Vec<UnitManifest>, blobs: &Vec<BlobFile>) -> (r: GcPlan)
    requires
        total_len(blobs@, blobs@.len() as int) <= u64::MAX,
    ensures
        ({
            let order = by_age(units@, units@.len() as int);
            let gone = swept(units@, order, blobs@, *opts, now, order.len() as int);
            let n = blobs@.len() as int;
            &&& r.units@ == picked(order, gone, order.len() as int)
            &&& r.files@ == files_gone(units@, gone, *opts, blobs@, n)
            &&& crate::order::ascending(views(r.compress@))
            &&& forall|d: Seq<char>|
                #[trigger] views(r.compress@).contains(d) == (all_blobs(units@).contains(d) && compressible(
                    units@,
                    gone,
                    *opts,
                    blobs@,
                    d,
                ))
            &&& r.report.units_removed == r.units@.len()
            &&& r.report.units_kept == units@.len() - r.units@.len()
            &&& r.report.blobs_removed == r.files@.len()
            &&& r.report.bytes_kept == len_kept(units@, gone, *opts, blobs@, n)
            &&& r.report.bytes_freed == len_freed(units@, gone, *opts, blobs@, n)
        }),
{
    let s = sweep(now, opts, units, blobs);
    let ghost gone = s.gone@;
    let ghost dv = views(s.ds@);
    let marks = mark_dropped(&s, units);
    let mut files: Vec<usize> = Vec::new();
    let mut kept: u64 = 0;
    let mut freed: u64 = 0;
    let mut k: usize = 0;
    while k < blobs.len()
        invariant
            k <= blobs@.len(),
            total_len(blobs@, blobs@.len() as int) <= u64::MAX,
            gone == s.gone@,
            dv == views(s.ds@),
            crate::order::ascending(dv),
            dv.to_set() == all_blobs(units@),
            s.counts@.len() == marks@.len() == dv.len(),
            forall|d: int| 0 <= d < dv.len() ==> (#[trigger] s.counts@[d] > 0) == referenced(units@, gone, dv[d]),
            forall|d: int| 0 <= d < dv.len() ==> #[trigger] marks@[d] == dropped(units@, gone, dv[d]),
            files@ == files_gone(units@, gone, *opts, blobs@, k as int),
            files@.len() <= k,
            kept == len_kept(units@, gone, *opts, blobs@, k as int),
            freed == len_freed(units@, gone, *opts, blobs@, k as int),
            kept + freed <= total_len(blobs@, k as int),
        decreases blobs@.len() - k,
    {
        let b = &blobs[k];
        let name = b.name.as_str();
        let d: &str = match strip_suffix(name, ".zst") {
            Some(d) => d,
            None => name,
        };
        let (i, found) = place_of(&s.ds, d);
        proof {
            lemma_total(blobs@, k + 1, blobs@.len() as int);
            if found {
                assert(dv[i as int] == d@);
            } else {
                assert(!dv.to_set().contains(d@));
                assert(!all_blobs(units@).contains(d@));
                assert(!referenced(units@, gone, d@)) by {
                    if referenced(units@, gone, d@) {
                        let u = choose|u: int|
                            0 <= u < units@.len() && !gone[u] && blobs_of(#[trigger] units@[u]).contains(d@);
                        assert(all_blobs(units@).contains(d@));
                    }
                }
                assert(!dropped(units@, gone, d@)) by {
                    if dropped(units@, gone, d@) {
                        let u = choose|u: int|
                            0 <= u < units@.len() && gone[u] && blobs_of(#[trigger] units@[u]).contains(d@);
                        assert(all_blobs(units@).contains(d@));
                    }
                }
            }
        }
        let live: bool = found && s.counts[i] > 0;
        let was_dropped: bool = found && marks[i];
        let recent: bool = match b.age {
            Some(age) => age < 3600,
            None => true,
        };
        let keep: bool = live || (opts.concurrent && !was_dropped && recent);
        assert(keep == stays(units@, gone, *opts, blobs@[k as int]));
        if keep {
            kept = kept + b.len;
        } else {
            files.push(k);
            if b.links <= 1 {
                freed = freed + b.len;
            }
        }
        k += 1;
    }
    let mut compress: StrSet = StrSet::new();
    k = 0;
    while k < s.ds.len()
        invariant
            k <= s.ds@.len(),
            gone == s.gone@,
            gone.len() == units@.len(),
            dv == views(s.ds@),
            forall|d: Seq<char>|
                #[trigger] compress@.contains(d) == (dv.take(k as int).contains(d) && compressible(
                    units@,
                    gone,
                    *opts,
                    blobs@,
                    d,
                )),
        decreases s.ds@.len() - k,
    {
        assert(dv[k as int] == s.ds@[k as int]@);
        if can_compress(units, &s.gone, opts, blobs, s.ds[k].as_str()) {
            compress.insert(s.ds[k].as_str());
        }
        proof {
            let t = dv.take(k + 1);
            assert(t[k as int] == dv[k as int]);
            assert forall|d: Seq<char>| t.contains(d) == (dv.take(k as int).contains(d) || d == dv[k as int]) by {
                if dv.take(k as int).contains(d) {
                    let j = choose|j: int| 0 <= j < k && dv.take(k as int)[j] == d;
                    assert(t[j] == d);
                }
                if t.contains(d) && d != dv[k as int] {
                    let j = choose|j: int| 0 <= j < k + 1 && t[j] == d;
                    assert(dv.take(k as int)[j] == d);
                }
            }
        }
        k += 1;
    }
    proof {
        assert(dv.take(dv.len() as int) =~= dv);
        assert forall|d: Seq<char>| #[trigger] dv.contains(d) == all_blobs(units@).contains(d) by {
            assert(dv.to_set().contains(d) == dv.contains(d));
        }
    }
    let list: Vec<String> = crate::profile::dup_list(compress.items());
    proof {
        assert forall|d: Seq<char>| #[trigger] views(list@).contains(d) == (all_blobs(units@).contains(d)
            && compressible(units@, gone, *opts, blobs@, d)) by {
            assert(views(list@).to_set().contains(d) == views(list@).contains(d));
            assert(dv.contains(d) == all_blobs(units@).contains(d));
            assert(compress@.contains(d) == (dv.contains(d) && compressible(units@, gone, *opts, blobs@, d)));
        }
    }
    let removed: usize = s.removed.len();
    let gone_files: usize = files.len();
    GcPlan {
        units: s.removed,
        files,
        compress: list,
        report: GcReport {
            units_removed: removed,
            units_kept: units.len() - removed,
            blobs_removed: gone_files,
            bytes_freed: freed,
            bytes_kept: kept,
        },
    }
}

/// Leftovers of a crashed build are a day old.
pub fn is_stale(age: Option<u64>) -> (r: bool)
    ensures
        r == (age matches Some(a) && a > 86400),
{
    match age {
        Some(a) => a > 86400,
        None => false,
    }
}

proof fn lemma_swept_len(units: Seq<UnitManifest>, order: Seq<usize>, blobs: Seq<BlobFile>, opts: GcOptions, now: u64, k: int)
    requires
        0 <= k <= order.len(),
        forall|j: int| 0 <= j < order.len() ==> #[trigger] order[j] < units.len(),
    ensures
        swept(units, order, blobs, opts, now, k).len() == units.len(),
    decreases k,
{
    if k > 0 {
        assert(order[k - 1] < units.len());
        lemma_swept_len(units, order, blobs, opts, now, k - 1);
    }
}

/// Whatever the limits, a pinned unit stays.
pub proof fn law_pinned_units_stay(
    units: Seq<UnitManifest>,
    order: Seq<usize>,
    blobs: Seq<BlobFile>,
    opts: GcOptions,
    now: u64,
    k: int,
    u: int,
)
    requires
        0 <= k <= order.len(),
        0 <= u < units.len(),
        forall|j: int| 0 <= j < order.len() ==> #[trigger] order[j] < units.len(),
        opts.pinned@.contains(units[u].key@),
    ensures
        !swept(units, order, blobs, opts, now, k)[u],
    decreases k,
{
    if k > 0 {
        law_pinned_units_stay(units, order, blobs, opts, now, k - 1, u);
        lemma_swept_len(units, order, blobs, opts, now, k - 1);
        assert(order[k - 1] < units.len());
    }
}

/// A file that a unit which stays refers to is never removed.
pub proof fn law_live_blobs_stay(units: Seq<UnitManifest>, gone: Seq<bool>, opts: GcOptions, blobs: Seq<BlobFile>, k: int, f: int)
    requires
        0 <= f < blobs.len() <= usize::MAX,
        0 <= k <= blobs.len(),
        referenced(units, gone, digest_of(blobs[f].name@)),
    ensures
        !files_gone(units, gone, opts, blobs, k).contains(f as usize),
    decreases k,
{
    if k > 0 {
        law_live_blobs_stay(units, gone, opts, blobs, k - 1, f);
        let before = files_gone(units, gone, opts, blobs, k - 1);
        let now = files_gone(units, gone, opts, blobs, k);
        if now.contains(f as usize) {
            let j = choose|j: int| 0 <= j < now.len() && now[j] == f as usize;
            if j < before.len() {
                assert(before[j] == f as usize);
            }
        }
    }
}

/// Fewer units refer to less.
proof fn lemma_live_shrinks(
    units: Seq<UnitManifest>,
    a: Seq<bool>,
    b: Seq<bool>,
    blobs: Seq<BlobFile>,
    ds: Seq<Seq<char>>,
    k: int,
)
    requires
        a.len() == b.len() == units.len(),
        forall|u: int| 0 <= u < a.len() && #[trigger] a[u] ==> b[u],
    ensures
        live_upto(units, b, blobs, ds, k) <= live_upto(units, a, blobs, ds, k),
    decreases k,
{
    if k > 0 && k <= ds.len() {
        lemma_live_shrinks(units, a, b, blobs, ds, k - 1);
        if referenced(units, b, ds[k - 1]) {
            let u = choose|u: int| 0 <= u < units.len() && !b[u] && blobs_of(#[trigger] units[u]).contains(ds[k - 1]);
            assert(!a[u]);
            assert(referenced(units, a, ds[k - 1]));
        }
    }
}

/// With a cap on its size, the store ends up below it, or nothing but pinned units is left of those that
/// were looked at.
pub proof fn law_collection_meets_the_cap(
    units: Seq<UnitManifest>,
    order: Seq<usize>,
    blobs: Seq<BlobFile>,
    opts: GcOptions,
    now: u64,
    max: u64,
    k: int,
)
    requires
        0 <= k <= order.len(),
        opts.max_size == Some(max),
        forall|j: int| 0 <= j < order.len() ==> #[trigger] order[j] < units.len(),
    ensures
        ({
            let gone = swept(units, order, blobs, opts, now, k);
            live_bytes(units, gone, blobs) <= max || forall|j: int|
                0 <= j < k && !opts.pinned@.contains(units[order[j] as int].key@) ==> gone[#[trigger] order[j] as int]
        }),
    decreases k,
{
    if k > 0 {
        law_collection_meets_the_cap(units, order, blobs, opts, now, max, k - 1);
        lemma_swept_len(units, order, blobs, opts, now, k - 1);
        let before = swept(units, order, blobs, opts, now, k - 1);
        let gone = swept(units, order, blobs, opts, now, k);
        let ds = listed(all_blobs(units));
        assert(order[k - 1] < units.len());
        lemma_live_shrinks(units, before, gone, blobs, ds, ds.len() as int);
        if live_bytes(units, before, blobs) > max {
            assert forall|j: int| 0 <= j < k && !opts.pinned@.contains(units[order[j] as int].key@) implies gone[
                #[trigger] order[j] as int] by {
                if j < k - 1 {
                    assert(before[order[j] as int]);
                }
            }
        }
    }
}

/// The units are in the order of their last use.
spec fn aged(units: Seq<UnitManifest>, order: Seq<usize>) -> bool {
    forall|i: int, j: int|
        0 <= i < j < order.len() ==> last_use(units[#[trigger] order[i] as int]) <= last_use(units[#[trigger] order[j] as int])
}

proof fn lemma_rank_splits(units: Seq<UnitManifest>, order: Seq<usize>, t: u64, k: int)
    requires
        0 <= k <= order.len(),
    ensures
        ({
            let r = age_rank(units, order, t, k);
            &&& k <= r <= order.len()
            &&& forall|i: int| k <= i < r ==> last_use(units[#[trigger] order[i] as int]) <= t
            &&& r < order.len() ==> last_use(units[order[r] as int]) > t
        }),
    decreases order.len() - k,
{
    if k < order.len() && last_use(units[order[k] as int]) <= t {
        lemma_rank_splits(units, order, t, k + 1);
    }
}

proof fn lemma_by_age(units: Seq<UnitManifest>, k: int)
    requires
        0 <= k <= units.len() <= usize::MAX,
    ensures
        all_once(by_age(units, k), k),
        aged(units, by_age(units, k)),
        forall|u: int| 0 <= u < k ==> by_age(units, k).contains(#[trigger] (u as usize)),
    decreases k,
{
    if k > 0 {
        lemma_by_age(units, k - 1);
        let a = by_age(units, k - 1);
        let x = (k - 1) as usize;
        let t = last_use(units[k - 1]);
        let r = age_rank(units, a, t, 0);
        let b = by_age(units, k);
        lemma_rank_splits(units, a, t, 0);
        assert(b == a.insert(r, x));
        assert forall|i: int| 0 <= i < b.len() implies #[trigger] b[i] < k by {
            if i < r {
                assert(b[i] == a[i]);
            } else if i > r {
                assert(b[i] == a[i - 1]);
            }
        }
        assert(b.no_duplicates()) by {
            assert forall|i: int, j: int| 0 <= i < b.len() && 0 <= j < b.len() && i != j implies b[i] != b[j] by {
                let p = if i < r { i } else { i - 1 };
                let q = if j < r { j } else { j - 1 };
                if i != r {
                    assert(b[i] == a[p] && a[p] < k - 1);
                }
                if j != r {
                    assert(b[j] == a[q] && a[q] < k - 1);
                }
            }
        }
        assert forall|i: int, j: int| 0 <= i < j < b.len() implies last_use(units[#[trigger] b[i] as int]) <= last_use(
            units[#[trigger] b[j] as int],
        ) by {
            let p = if i < r { i } else { i - 1 };
            let q = if j < r { j } else { j - 1 };
            if i == r {
                assert(b[j] == a[q]);
                if q > r {
                    assert(last_use(units[a[r] as int]) <= last_use(units[a[q] as int]));
                }
            } else if j == r {
                assert(b[i] == a[p]);
            } else {
                assert(b[i] == a[p] && b[j] == a[q]);
                assert(last_use(units[a[p] as int]) <= last_use(units[a[q] as int]));
            }
        }
        assert forall|u: int| 0 <= u < k implies b.contains(#[trigger] (u as usize)) by {
            if u < k - 1 {
                assert(a.contains(u as usize));
                let i = choose|i: int| 0 <= i < a.len() && a[i] == u as usize;
                if i < r {
                    assert(b[i] == u as usize);
                } else {
                    assert(b[i + 1] == u as usize);
                }
            } else {
                assert(b[r] == x);
            }
        }
    }
}

/// A unit that is not among those looked at is not gone.
proof fn lemma_not_yet(units: Seq<UnitManifest>, order: Seq<usize>, blobs: Seq<BlobFile>, opts: GcOptions, now: u64, k: int, u: int)
    requires
        0 <= k <= order.len(),
        0 <= u < units.len(),
        forall|j: int| 0 <= j < order.len() ==> #[trigger] order[j] < units.len(),
        forall|j: int| 0 <= j < k ==> #[trigger] order[j] != u,
    ensures
        !swept(units, order, blobs, opts, now, k)[u],
    decreases k,
{
    if k > 0 {
        lemma_not_yet(units, order, blobs, opts, now, k - 1, u);
        lemma_swept_len(units, order, blobs, opts, now, k - 1);
        assert(order[k - 1] != u);
        assert(order[k - 1] < units.len());
    }
}

/// What is decided of a unit stays decided.
proof fn lemma_decided(units: Seq<UnitManifest>, order: Seq<usize>, blobs: Seq<BlobFile>, opts: GcOptions, now: u64, a: int, b: int, u: int)
    requires
        0 <= a <= b <= order.len(),
        0 <= u < units.len(),
        forall|j: int| 0 <= j < order.len() ==> #[trigger] order[j] < units.len(),
        swept(units, order, blobs, opts, now, a)[u] || forall|j: int| a <= j < b ==> #[trigger] order[j] != u,
    ensures
        swept(units, order, blobs, opts, now, b)[u] == swept(units, order, blobs, opts, now, a)[u],
    decreases b - a,
{
    if a < b {
        lemma_decided(units, order, blobs, opts, now, a, b - 1, u);
        lemma_swept_len(units, order, blobs, opts, now, b - 1);
        assert(order[b - 1] < units.len());
    }
}

/// For its size, the store gives up what was used least recently first: where a unit goes that only the cap dooms, every
/// unit that was used earlier goes too, unless it is pinned.
pub proof fn law_least_recently_used_goes_first(
    units: Seq<UnitManifest>,
    blobs: Seq<BlobFile>,
    opts: GcOptions,
    now: u64,
    earlier: int,
    later: int,
)
    requires
        units.len() <= usize::MAX,
        0 <= earlier < units.len(),
        0 <= later < units.len(),
        last_use(units[earlier]) < last_use(units[later]),
        !opts.pinned@.contains(units[earlier].key@),
        !doomed(opts, units[later], now, 0),
    ensures
        ({
            let order = by_age(units, units.len() as int);
            let gone = swept(units, order, blobs, opts, now, order.len() as int);
            gone[later] ==> gone[earlier]
        }),
{
    let n = units.len() as int;
    let order = by_age(units, n);
    lemma_by_age(units, n);
    assert(order.contains(earlier as usize));
    assert(order.contains(later as usize));
    let i = choose|i: int| 0 <= i < order.len() && order[i] == earlier as usize;
    let j = choose|j: int| 0 <= j < order.len() && order[j] == later as usize;
    if j < i {
        assert(last_use(units[order[j] as int]) <= last_use(units[order[i] as int]));
    }
    assert(i < j);
    let gone = swept(units, order, blobs, opts, now, n);
    if gone[later] {
        let at = swept(units, order, blobs, opts, now, j);
        assert forall|m: int| 0 <= m < j implies #[trigger] order[m] != later by {
            assert(order[m] != order[j]);
        }
        assert forall|m: int| j + 1 <= m < n implies #[trigger] order[m] != later by {
            assert(order[m] != order[j]);
        }
        lemma_not_yet(units, order, blobs, opts, now, j, later);
        lemma_swept_len(units, order, blobs, opts, now, j);
        lemma_decided(units, order, blobs, opts, now, j + 1, n, later);
        assert(order[j] < units.len());
        assert(doomed(opts, units[later], now, live_bytes(units, at, blobs)));
        let max = opts.max_size.unwrap();
        assert(opts.max_size.is_some() && live_bytes(units, at, blobs) > max);
        law_collection_meets_the_cap(units, order, blobs, opts, now, max, j);
        assert(at[order[i] as int]);
        lemma_decided(units, order, blobs, opts, now, j, n, earlier);
    }
}

// ---------------------------------------------------------------------------

/// A file of the store, and the hash of the content that it holds, where it could be read.
#[derive(Debug)]
pub struct CheckedFile {
    pub name: String,
    pub hash: Option<String>,
}

#[derive(Debug)]
pub struct VerifyReport {
    pub blobs_checked: usize,
    pub corrupt_blobs: Vec<String>,
    pub broken_units: Vec<String>,
}

/// The content is not what the name says.
pub open spec fn corrupt(f: CheckedFile) -> bool {
    opt_view(f.hash) != Some(digest_of(f.name@))
}

pub open spec fn corrupt_upto(files: Seq<CheckedFile>, k: int) -> Seq<Seq<char>>
    decreases k,
{
    if k <= 0 || k > files.len() {
        Seq::empty()
    } else if corrupt(files[k - 1]) {
        corrupt_upto(files, k - 1).push(digest_of(files[k - 1].name@))
    } else {
        corrupt_upto(files, k - 1)
    }
}

/// The store has the blob, plain or compressed.
pub open spec fn present(files: Seq<CheckedFile>, d: Seq<char>) -> bool {
    exists|k: int| 0 <= k < files.len() && ((#[trigger] files[k]).name@ == d || files[k].name@ == d + ".zst"@)
}

/// The unit refers to a blob that is missing or corrupt.
pub open spec fn broken(files: Seq<CheckedFile>, m: UnitManifest) -> bool {
    exists|j: int|
        0 <= j < blobs_of(m).len() && (corrupt_upto(files, files.len() as int).contains(#[trigger] blobs_of(m)[j])
            || !present(files, blobs_of(m)[j]))
}

pub open spec fn broken_upto(files: Seq<CheckedFile>, units: Seq<UnitManifest>, k: int) -> Seq<Seq<char>>
    decreases k,
{
    if k <= 0 || k > units.len() {
        Seq::empty()
    } else if broken(files, units[k - 1]) {
        broken_upto(files, units, k - 1).push(units[k - 1].key@)
    } else {
        broken_upto(files, units, k - 1)
    }
}

fn is_present(files: &Vec<CheckedFile>, d: &str) -> (r: bool)
    ensures
        r == present(files@, d@),
{
    let packed = cat(d, ".zst");
    let mut k: usize = 0;
    while k < files.len()
        invariant
            k <= files@.len(),
            packed@ == d@ + ".zst"@,
            forall|j: int| 0 <= j < k ==> (#[trigger] files@[j]).name@ != d@ && files@[j].name@ != d@ + ".zst"@,
        decreases files@.len() - k,
    {
        if same(files[k].name.as_str(), d) || same(files[k].name.as_str(), packed.as_str()) {
            return true;
        }
        k += 1;
    }
    false
}

fn is_broken(files: &Vec<CheckedFile>, bad: &Vec<String>, m: &UnitManifest) -> (r: bool)
    requires
        views(bad@) == corrupt_upto(files@, files@.len() as int),
    ensures
        r == broken(files@, *m),
{
    let list = list_blobs(m);
    let mut k: usize = 0;
    while k < list.len()
        invariant
            k <= list@.len(),
            views(list@) == blobs_of(*m),
            views(bad@) == corrupt_upto(files@, files@.len() as int),
            forall|j: int|
                0 <= j < k ==> !(corrupt_upto(files@, files@.len() as int).contains(#[trigger] blobs_of(*m)[j])
                    || !present(files@, blobs_of(*m)[j])),
        decreases list@.len() - k,
    {
        assert(blobs_of(*m)[k as int] == list@[k as int]@);
        if crate::manifest::any_is(bad, list[k].as_str()) || !is_present(files, list[k].as_str()) {
            return true;
        }
        k += 1;
    }
    false
}

/// Which blobs are corrupt, and which units rest on them.
pub fn verify(files: &Vec<CheckedFile>, units: &Vec<UnitManifest>) -> (r: VerifyReport)
    ensures
        r.blobs_checked == files@.len(),
        views(r.corrupt_blobs@) == corrupt_upto(files@, files@.len() as int),
        views(r.broken_units@) == broken_upto(files@, units@, units@.len() as int),
{
    let mut bad: Vec<String> = Vec::new();
    let mut k: usize = 0;
    assert(views(bad@) =~= Seq::<Seq<char>>::empty());
    while k < files.len()
        invariant
            k <= files@.len(),
            views(bad@) == corrupt_upto(files@, k as int),
        decreases files@.len() - k,
    {
        let name = files[k].name.as_str();
        let d: &str = match strip_suffix(name, ".zst") {
            Some(d) => d,
            None => name,
        };
        let ok: bool = match &files[k].hash {
            Some(h) => same(h.as_str(), d),
            None => false,
        };
        if !ok {
            let ghost was = bad@;
            bad.push(d.to_owned());
            assert(views(bad@) =~= views(was).push(d@));
        }
        k += 1;
    }
    let mut broken_units: Vec<String> = Vec::new();
    k = 0;
    assert(views(broken_units@) =~= Seq::<Seq<char>>::empty());
    while k < units.len()
        invariant
            k <= units@.len(),
            views(bad@) == corrupt_upto(files@, files@.len() as int),
            views(broken_units@) == broken_upto(files@, units@, k as int),
        decreases units@.len() - k,
    {
        if is_broken(files, &bad, &units[k]) {
            let ghost was = broken_units@;
            broken_units.push(units[k].key.clone());
            assert(views(broken_units@) =~= views(was).push(units@[k as int].key@));
        }
        k += 1;
    }
    VerifyReport { blobs_checked: files.len(), corrupt_blobs: bad, broken_units }
}

proof fn lemma_latest(s: Seq<Entry>, k: int, t: int)
    requires
        0 <= k <= s.len(),
        0 <= t,
        forall|e: int| 0 <= e < s.len() ==> (#[trigger] s[e]).last_used <= t,
    ensures
        latest(s, k) <= t,
    decreases k,
{
    if k > 0 {
        lemma_latest(s, k - 1, t);
    }
}

proof fn lemma_latest_of(s: Seq<Entry>, k: int, e: int)
    requires
        0 <= e < k <= s.len(),
    ensures
        s[e].last_used <= latest(s, k),
    decreases k,
{
    if e < k - 1 {
        lemma_latest_of(s, k - 1, e);
    }
}

/// What is looked at while it must go is gone at the end.
proof fn lemma_goes(units: Seq<UnitManifest>, order: Seq<usize>, blobs: Seq<BlobFile>, opts: GcOptions, now: u64, k: int, j: int)
    requires
        0 <= j < k <= order.len(),
        forall|i: int| 0 <= i < order.len() ==> #[trigger] order[i] < units.len(),
        doomed(opts, units[order[j] as int], now, 0),
    ensures
        swept(units, order, blobs, opts, now, k)[order[j] as int],
    decreases k,
{
    lemma_swept_len(units, order, blobs, opts, now, k - 1);
    assert(order[k - 1] < units.len() && order[j] < units.len());
    if j < k - 1 {
        lemma_goes(units, order, blobs, opts, now, k - 1, j);
    } else {
        let live = live_bytes(units, swept(units, order, blobs, opts, now, k - 1), blobs);
        assert(doomed(opts, units[order[j] as int], now, live));
    }
}

proof fn lemma_goes_for_a_reason(
    units: Seq<UnitManifest>,
    order: Seq<usize>,
    blobs: Seq<BlobFile>,
    opts: GcOptions,
    now: u64,
    k: int,
    u: int,
)
    requires
        0 <= k <= order.len(),
        0 <= u < units.len(),
        forall|i: int| 0 <= i < order.len() ==> #[trigger] order[i] < units.len(),
        swept(units, order, blobs, opts, now, k)[u],
    ensures
        exists|live: int| #[trigger] doomed(opts, units[u], now, live),
    decreases k,
{
    if k > 0 {
        lemma_swept_len(units, order, blobs, opts, now, k - 1);
        assert(order[k - 1] < units.len());
        if swept(units, order, blobs, opts, now, k - 1)[u] {
            lemma_goes_for_a_reason(units, order, blobs, opts, now, k - 1, u);
        } else {
            let live = live_bytes(units, swept(units, order, blobs, opts, now, k - 1), blobs);
            assert(doomed(opts, units[u], now, live));
        }
    }
}

/// A unit that is not pinned goes where it is on the list, where no project lists it, or where each of its entries was last used
/// too long ago. Without a cap no other unit goes.
pub proof fn law_units_go_for_a_reason(units: Seq<UnitManifest>, blobs: Seq<BlobFile>, opts: GcOptions, now: u64, u: int)
    requires
        units.len() <= usize::MAX,
        0 <= u < units.len(),
    ensures
        ({
            let order = by_age(units, units.len() as int);
            let gone = swept(units, order, blobs, opts, now, order.len() as int);
            let m = units[u];
            let pinned = opts.pinned@.contains(m.key@);
            &&& !pinned && opts.remove@.contains(m.key@) ==> gone[u]
            &&& !pinned && (opts.hot matches Some(hot) && !hot@.contains(m.key@)) ==> gone[u]
            &&& !pinned && (opts.max_age_secs matches Some(age) && age < now && forall|e: int|
                0 <= e < m.entries@.len() ==> (#[trigger] m.entries@[e]).last_used < now - age) ==> gone[u]
            &&& gone[u] ==> !pinned
            &&& gone[u] && opts.max_size.is_none() && !opts.remove@.contains(m.key@) && (opts.hot matches Some(hot) ==> hot@.contains(m.key@))
                ==> opts.max_age_secs.is_some() && forall|e: int|
                0 <= e < m.entries@.len() ==> (#[trigger] m.entries@[e]).last_used < now - opts.max_age_secs.unwrap()
        }),
{
    let n = units.len() as int;
    let order = by_age(units, n);
    let m = units[u];
    lemma_by_age(units, n);
    assert(order.contains(u as usize));
    let j = choose|j: int| 0 <= j < order.len() && order[j] == u as usize;
    let gone = swept(units, order, blobs, opts, now, order.len() as int);
    let l = m.entries@;
    if let Some(age) = opts.max_age_secs {
        if age < now && forall|e: int| 0 <= e < l.len() ==> (#[trigger] l[e]).last_used < now - age {
            lemma_latest(l, l.len() as int, now - age - 1);
        }
    }
    if doomed(opts, m, now, 0) {
        lemma_goes(units, order, blobs, opts, now, order.len() as int, j);
    }
    if gone[u] {
        lemma_goes_for_a_reason(units, order, blobs, opts, now, order.len() as int, u);
        let live = choose|live: int| #[trigger] doomed(opts, m, now, live);
        assert forall|e: int| 0 <= e < l.len() implies (#[trigger] l[e]).last_used <= last_use(m) by {
            lemma_latest_of(l, l.len() as int, e);
        }
    }
}

} // verus!
