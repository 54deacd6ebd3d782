//! The store: entries, links, collection and integrity.

use rb::gc::BlobFile;
use rb::gc::CheckedFile;
use rb::gc::GcOptions;
use rb::gc::gc;
use rb::gc::human_bytes;
use rb::gc::is_stale;
use rb::gc::status;
use rb::gc::verify;
use rb::srchash::FileStep;
use rb::srchash::Known;
use rb::srchash::Meta;
use rb::srchash::SourceHasher;
use rb::srchash::Stamp;
use rb::store::Attempt;
use rb::store::Entry;
use rb::store::ExtraInputs;
use rb::store::FileInput;
use rb::store::LinkKind;
use rb::store::LinkMode;
use rb::store::OutputFile;
use rb::store::Step;
use rb::store::Store;
use rb::store::UnitManifest;
use rb::store::chain;
use rb::store::hash_bytes;
use rb::store::is_loadable;
use rb::store::place;
use rb::store::probe;
use rb::strmap::StrMap;
use rb::strmap::StrSet;
use rb::timings::TimingRow;
use rb::timings::Timings;
use rb::timings::html_escape;
use rb::timings::summary;

const NOW: u64 = 2_000_000_000;

fn unit_of(key: &str, blob: &str, used: u64, size: u64) -> UnitManifest {
    UnitManifest {
        key: key.into(),
        entries: vec![Entry {
            label: String::new(),
            created: used,
            last_used: used,
            outputs: vec![OutputFile { name: "f".into(), blob: blob.into(), executable: false, size, templated: false }],
            dirs: Vec::new(),
            symlinks: Vec::new(),
            inputs: ExtraInputs::new(),
            payload: None,
            diagnostics: Vec::new(),
            duration_ms: 0,
        }],
    }
}

fn blob_of(digest: &str, len: u64) -> BlobFile {
    BlobFile { name: digest.to_owned(), len, links: 1, age: Some(100_000) }
}

fn options() -> GcOptions {
    GcOptions {
        max_size: None,
        max_age_secs: None,
        dry_run: false,
        pinned: StrSet::new(),
        remove: StrSet::new(),
        hot: None,
        concurrent: false,
    }
}

fn digest(bytes: &[u8]) -> String {
    let d = hash_bytes(&bytes.to_vec());
    assert_eq!(d, blake3::hash(bytes).to_hex().to_string());
    d
}

#[test]
fn gc_removes_unreferenced_and_old() {
    let keep = digest(b"keep");
    let old = digest(b"old");
    let orphan = digest(b"orphan");
    let units = vec![unit_of("aa11", &keep, NOW, 4), unit_of("bb22", &old, NOW - 100 * 86400, 4)];
    let blobs = vec![blob_of(&keep, 4), blob_of(&old, 3), blob_of(&orphan, 6)];
    let mut o = options();
    o.max_age_secs = Some(30 * 86400);
    let plan = gc(NOW, &o, &units, &blobs);
    assert_eq!(plan.report.units_removed, 1);
    assert_eq!(plan.units, [1]);
    assert!(!plan.files.contains(&0));
    assert!(plan.files.contains(&1));
    assert!(plan.files.contains(&2));
    let left = vec![unit_of("aa11", &keep, NOW, 4)];
    let files = vec![CheckedFile { name: keep.clone(), hash: Some(keep.clone()) }];
    assert!(verify(&files, &left).broken_units.is_empty());
}

#[test]
fn gc_drops_units_no_project_lists() {
    let live = digest(b"live-bytes-pad");
    let old = digest(b"old-variant-pad");
    let units = vec![unit_of("live", &live, NOW, 80_000), unit_of("old", &old, NOW, 80_000)];
    let blobs = vec![blob_of(&live, 14), blob_of(&old, 15)];
    let mut hot = StrSet::new();
    hot.insert("live");
    let mut o = options();
    o.hot = Some(hot);
    let plan = gc(NOW, &o, &units, &blobs);
    assert!(!plan.units.contains(&0));
    assert!(plan.units.contains(&1));
    assert!(!plan.files.contains(&0));
    assert!(plan.files.contains(&1));
}

#[test]
fn the_cap_and_the_pins_are_kept() {
    let a = digest(b"a");
    let b = digest(b"b");
    let units = vec![unit_of("k1", &a, NOW - 10, 100), unit_of("k2", &b, NOW, 100)];
    let blobs = vec![blob_of(&a, 100), blob_of(&b, 100)];
    let mut o = options();
    o.max_size = Some(150);
    let plan = gc(NOW, &o, &units, &blobs);
    assert_eq!(plan.units, [0]);
    assert_eq!(plan.report.bytes_kept, 100);
    let mut pinned = options();
    pinned.max_size = Some(0);
    pinned.pinned.insert("k1");
    let plan = gc(NOW, &pinned, &units, &blobs);
    assert!(!plan.units.contains(&0));
    assert!(plan.units.contains(&1));
}

#[test]
fn corrupt_blobs_break_their_units() {
    let a = digest(b"a");
    let units = vec![unit_of("k1", &a, NOW, 1)];
    let files = vec![CheckedFile { name: a.clone(), hash: Some("00".to_owned()) }];
    let r = verify(&files, &units);
    assert_eq!(r.blobs_checked, 1);
    assert_eq!(r.corrupt_blobs.len(), 1);
    assert_eq!(r.broken_units, ["k1"]);
    let s = status(&units, &vec![blob_of(&a, 7)]);
    assert_eq!((s.units, s.entries, s.blobs, s.blob_bytes), (1, 1, 1, 7));
    assert!(is_stale(Some(100_000)) && !is_stale(Some(1)));
}

#[test]
fn sizes_as_people_read_them() {
    assert_eq!(human_bytes(512), "512 B");
    assert_eq!(human_bytes(1536), "1.5 KiB");
    assert_eq!(human_bytes(20 << 30), "20.0 GiB");
}

#[test]
fn one_entry_for_each_set_of_inputs() {
    let a = digest(b"a");
    let b = digest(b"b");
    let mut m = unit_of("k", &a, 5, 1);
    let mut again = unit_of("k", &b, 9, 1);
    m.upsert(again.entries.remove(0));
    assert_eq!(m.entries.len(), 1);
    assert_eq!(m.entries[0].outputs[0].blob, b);
    assert_eq!(m.last_used(), 9);
    let mut other = unit_of("k", &a, 7, 1);
    other.entries[0].inputs.files.push(FileInput { path: "x".to_owned(), hash: None });
    m.upsert(other.entries.remove(0));
    assert_eq!(m.entries.len(), 2);
}

#[test]
fn probe_finds_a_strategy() {
    let kind = probe(&vec![false, true, true, true]);
    assert_ne!(kind, LinkKind::Symlink);
    assert_eq!(probe(&vec![false, false, false, false]), LinkKind::Copy);
}

#[test]
fn links_fall_back_to_copies() {
    assert_eq!(chain(LinkMode::Auto, false), [LinkKind::Reflink, LinkKind::Hardlink, LinkKind::Copy]);
    assert_eq!(place(LinkMode::Hardlink, false, &Vec::new()), Step::Try(LinkKind::Hardlink));
    assert_eq!(place(LinkMode::Hardlink, false, &vec![Attempt::Failed]), Step::Try(LinkKind::Copy));
    assert_eq!(place(LinkMode::Hardlink, false, &vec![Attempt::Failed, Attempt::Done]), Step::Placed(LinkKind::Copy));
    assert_eq!(place(LinkMode::Copy, false, &vec![Attempt::Exists]), Step::GiveUp);
    assert_eq!(LinkMode::parse("reflink").unwrap(), LinkMode::Reflink);
    assert!(LinkMode::parse("teleport").is_err());
    assert!(is_loadable("libx.so") && !is_loadable("libx.rlib"));
}

#[test]
fn blobs_have_places() {
    let s = Store::open("/s");
    assert_eq!(s.blob_path("abcdef"), "/s/v1/cas/ab/abcdef");
    assert_eq!(s.zst_path("abcdef"), "/s/v1/cas/ab/abcdef.zst");
    let mut files = StrSet::new();
    files.insert("/s/v1/cas/ab/abcdef.zst");
    assert!(s.has_blob("abcdef", &files) && s.must_expand("abcdef", &files));
    assert!(!s.has_blob("ffffff", &files));
    assert_eq!(s.materialize("abcdef", "/t/libx.so", LinkMode::Auto).mode, LinkMode::Hardlink);
    assert_eq!(s.materialize("abcdef", "/t/x", LinkMode::Auto).mode, LinkMode::Auto);
}

fn stamp(size: u64) -> Stamp {
    Stamp { mtime_ns: 17, size, ino: 3 }
}

#[test]
fn unchanged_files_are_not_read_again() {
    let index: StrMap<Known> = StrMap::new();
    let mut h = SourceHasher::load(index, vec!["/p/out".to_owned()]);
    assert!(matches!(h.file_hash("/p/a", Meta::Absent), FileStep::Absent));
    assert!(matches!(h.file_hash("/p/a", Meta::Directory), FileStep::Tree));
    assert!(matches!(h.file_hash("/p/a", Meta::File(stamp(1))), FileStep::Read));
    assert!(h.save().is_none());
    h.learn("/p/a", stamp(1), "h1".to_owned());
    assert!(matches!(h.file_hash("/p/a", Meta::File(stamp(1))), FileStep::Known(x) if x == "h1"));
    assert!(matches!(h.file_hash("/p/a", Meta::File(stamp(2))), FileStep::Read));
    assert!(h.save().is_some());
    assert!(h.enters("/p/src", "src", "/p", false));
    assert!(!h.enters("/p/target", "target", "/p", false));
    assert!(!h.enters("/p/sub", "sub", "/p", true));
    assert!(!h.enters("/p/out/x", "x", "/p", false));
}

#[test]
fn trees_hash_their_files_in_order() {
    let mut files: StrMap<Option<String>> = StrMap::new();
    files.insert("/p/a.b", Some("2".to_owned()));
    files.insert("/p/a/c", Some("1".to_owned()));
    files.insert("/p/gone", None);
    let mut h = SourceHasher::load(StrMap::new(), Vec::new());
    let want = blake3::hash(b"a/c\01\na.b\02\ngone\0\n").to_hex().to_string();
    assert_eq!(h.tree_hash("/p", &files), want);
    assert!(h.tree_unchanged("/p", &files));
    files.insert("/p/new", None);
    assert_eq!(h.tree_hash("/p", &files), want);
    assert!(!h.tree_unchanged("/p", &files));
    assert!(h.tree_unchanged("/other", &files));
}

#[test]
fn times_are_averaged_and_kept() {
    let mut t = Timings::load(Some("{\"a\": 100, \"b\": 7}"));
    assert_eq!(t.get("a"), Some(100));
    assert!(t.save().is_none());
    t.record("a", 300);
    assert_eq!(t.get("a"), Some(200));
    t.record("c", 5);
    assert_eq!(t.save().unwrap().text(), "{\"a\":200,\"b\":7,\"c\":5}");
    assert_eq!(Timings::load(Some("{\"a\": -1}")).get("a"), None);
    assert_eq!(Timings::load(None).get("a"), None);
}

#[test]
fn the_longest_units_come_first() {
    let row = |label: &str, ms: u64| TimingRow { label: label.to_owned(), ms };
    let rows = vec![row("a", 3), row("(note)", 0), row("b", 9), row("c", 3)];
    let (notes, units) = summary(&rows);
    assert_eq!(notes, ["(note)"]);
    let names: Vec<&str> = units.iter().map(|u| u.label.as_str()).collect();
    assert_eq!(names, ["b", "a", "c"]);
    assert_eq!(html_escape("a<b>&c"), "a&lt;b&gt;&amp;c");
}
