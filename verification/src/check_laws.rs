//! What a check of the store finds.

use vstd::prelude::*;
use crate::gc::CheckedFile;
use crate::gc::blobs_of;
use crate::gc::broken;
use crate::gc::broken_upto;
use crate::gc::corrupt;
use crate::gc::corrupt_upto;
use crate::gc::digest_of;
use crate::gc::entries_upto;
use crate::gc::outputs_upto;
use crate::gc::present;
use crate::store::Entry;
use crate::store::OutputFile;
use crate::store::UnitManifest;
use crate::text::ends;

verus! {

/// An output of the unit is in the blob.
pub open spec fn rests_on(m: UnitManifest, d: Seq<char>) -> bool {
    exists|a: int, b: int|
        0 <= a < m.entries@.len() && 0 <= b < m.entries@[a].outputs@.len() && (#[trigger] m.entries@[a].outputs@[b]).blob@ == d
}

proof fn lemma_outputs(l: Seq<OutputFile>, k: int, d: Seq<char>)
    requires
        0 <= k <= l.len(),
    ensures
        outputs_upto(l, k).contains(d) == (exists|b: int| 0 <= b < k && (#[trigger] l[b]).blob@ == d),
    decreases k,
{
    if k > 0 {
        lemma_outputs(l, k - 1, d);
        let rest = outputs_upto(l, k - 1);
        let all = outputs_upto(l, k);
        if rest.contains(d) {
            let j = choose|j: int| 0 <= j < rest.len() && rest[j] == d;
            assert(all[j] == d);
        }
        if l[k - 1].blob@ == d {
            assert(all[rest.len() as int] == d);
        }
    }
}

proof fn lemma_entries(l: Seq<Entry>, k: int, d: Seq<char>)
    requires
        0 <= k <= l.len(),
    ensures
        entries_upto(l, k).contains(d) == (exists|a: int, b: int|
            0 <= a < k && 0 <= b < l[a].outputs@.len() && (#[trigger] l[a].outputs@[b]).blob@ == d),
    decreases k,
{
    if k > 0 {
        lemma_entries(l, k - 1, d);
        let rest = entries_upto(l, k - 1);
        let o = l[k - 1].outputs@;
        lemma_outputs(o, o.len() as int, d);
        let last = outputs_upto(o, o.len() as int);
        let all = entries_upto(l, k);
        if rest.contains(d) {
            let j = choose|j: int| 0 <= j < rest.len() && rest[j] == d;
            assert(all[j] == d);
        }
        if last.contains(d) {
            let j = choose|j: int| 0 <= j < last.len() && last[j] == d;
            assert(all[rest.len() + j] == d);
            let b = choose|b: int| 0 <= b < o.len() && (#[trigger] o[b]).blob@ == d;
            assert(l[k - 1].outputs@[b].blob@ == d);
        }
        if all.contains(d) {
            let j = choose|j: int| 0 <= j < all.len() && all[j] == d;
            if j < rest.len() {
                assert(rest[j] == d);
                assert(rest.contains(d));
            } else {
                assert(last[j - rest.len()] == d);
                assert(last.contains(d));
            }
        }
    }
}

/// The file's name is that of the blob, with an ending where it is compressed.
pub open spec fn is_named(f: CheckedFile, d: Seq<char>) -> bool {
    f.name@ == d || f.name@ == d + ".zst"@
}

proof fn lemma_corrupt(files: Seq<CheckedFile>, k: int, d: Seq<char>)
    requires
        0 <= k <= files.len(),
    ensures
        corrupt_upto(files, k).contains(d) == (exists|i: int|
            0 <= i < k && corrupt(#[trigger] files[i]) && digest_of(files[i].name@) == d),
    decreases k,
{
    if k > 0 {
        lemma_corrupt(files, k - 1, d);
        let rest = corrupt_upto(files, k - 1);
        let all = corrupt_upto(files, k);
        if rest.contains(d) {
            let j = choose|j: int| 0 <= j < rest.len() && rest[j] == d;
            assert(all[j] == d);
        }
        if corrupt(files[k - 1]) && digest_of(files[k - 1].name@) == d {
            assert(all[rest.len() as int] == d);
        }
    }
}

proof fn lemma_broken(files: Seq<CheckedFile>, units: Seq<UnitManifest>, k: int, key: Seq<char>)
    requires
        0 <= k <= units.len(),
    ensures
        broken_upto(files, units, k).contains(key) == (exists|i: int|
            0 <= i < k && broken(files, #[trigger] units[i]) && units[i].key@ == key),
    decreases k,
{
    if k > 0 {
        lemma_broken(files, units, k - 1, key);
        let rest = broken_upto(files, units, k - 1);
        let all = broken_upto(files, units, k);
        if rest.contains(key) {
            let j = choose|j: int| 0 <= j < rest.len() && rest[j] == key;
            assert(all[j] == key);
        }
        if broken(files, units[k - 1]) && units[k - 1].key@ == key {
            assert(all[rest.len() as int] == key);
        }
    }
}

/// A check names a blob exactly where a file that stands for it has other content than its name says.
pub proof fn law_a_check_names_the_corrupt_blobs(files: Seq<CheckedFile>, d: Seq<char>)
    requires
        !ends(d, ".zst"@),
    ensures
        corrupt_upto(files, files.len() as int).contains(d) <==> exists|i: int|
            0 <= i < files.len() && is_named(#[trigger] files[i], d) && (match files[i].hash {
                Some(h) => h@ != d,
                None => true,
            }),
{
    lemma_corrupt(files, files.len() as int, d);
    assert forall|i: int| 0 <= i < files.len() implies (digest_of((#[trigger] files[i]).name@) == d) == is_named(files[i], d) by {
        lemma_digest(files[i].name@, d);
    }
}

proof fn lemma_digest(name: Seq<char>, d: Seq<char>)
    requires
        !ends(d, ".zst"@),
    ensures
        (digest_of(name) == d) == (name == d || name == d + ".zst"@),
{
    let z = ".zst"@;
    reveal_strlit(".zst");
    if name == d + z {
        assert(name.subrange(d.len() as int, name.len() as int) =~= z);
        assert(name.subrange(0, d.len() as int) =~= d);
        assert(name.skip(d.len() as int) =~= z);
        assert(name.take(d.len() as int) =~= d);
    }
    if digest_of(name) == d && name != d {
        assert(name =~= d + z);
    }
}

/// A check names a unit exactly where one of its outputs is in a blob that the store does not have, or that is corrupt.
pub proof fn law_a_check_names_the_broken_units(
    files: Seq<CheckedFile>,
    units: Seq<UnitManifest>,
    u: int,
    d: Seq<char>,
)
    requires
        0 <= u < units.len(),
    ensures
        rests_on(units[u], d) && (forall|i: int| 0 <= i < files.len() ==> !is_named(#[trigger] files[i], d)) ==> broken_upto(
            files,
            units,
            units.len() as int,
        ).contains(units[u].key@),
        rests_on(units[u], d) && corrupt_upto(files, files.len() as int).contains(d) ==> broken_upto(
            files,
            units,
            units.len() as int,
        ).contains(units[u].key@),
        (forall|x: Seq<char>, v: int|
            0 <= v < units.len() && units[v].key@ == units[u].key@ && #[trigger] rests_on(units[v], x) ==> !corrupt_upto(
                files,
                files.len() as int,
            ).contains(x) && exists|i: int| 0 <= i < files.len() && is_named(#[trigger] files[i], x)) ==> !broken_upto(
            files,
            units,
            units.len() as int,
        ).contains(units[u].key@),
{
    let m = units[u];
    let bad = corrupt_upto(files, files.len() as int);
    lemma_broken(files, units, units.len() as int, m.key@);
    lemma_entries(m.entries@, m.entries@.len() as int, d);
    let bs = blobs_of(m);
    if rests_on(m, d) {
        assert(bs.contains(d));
        let j = choose|j: int| 0 <= j < bs.len() && bs[j] == d;
        if bad.contains(d) {
            assert(broken(files, m));
        }
        if forall|i: int| 0 <= i < files.len() ==> !is_named(#[trigger] files[i], d) {
            assert(!present(files, d));
            assert(broken(files, m));
        }
    }
    if broken_upto(files, units, units.len() as int).contains(m.key@) {
        let v = choose|v: int| 0 <= v < units.len() && broken(files, #[trigger] units[v]) && units[v].key@ == m.key@;
        let vs = blobs_of(units[v]);
        let j = choose|j: int| 0 <= j < vs.len() && (bad.contains(#[trigger] vs[j]) || !present(files, vs[j]));
        let x = vs[j];
        lemma_entries(units[v].entries@, units[v].entries@.len() as int, x);
        assert(vs.contains(x));
        assert(rests_on(units[v], x));
        if exists|i: int| 0 <= i < files.len() && is_named(#[trigger] files[i], x) {
            assert(present(files, x));
        }
    }
}

} // verus!
