//! What is read from raw text and written back, paths as they are written, and what follows from it.

use rb::blobs::Act;
use rb::bundle::package_files;
use rb::config::RbConfig;
use rb::bundle::current_package;
use rb::edit::AddOptions;
use rb::edit::EditError;
use rb::edit::check_remove;
use rb::edit::dependency_to_add;
use rb::edit::patterns;
use rb::invocation::Normalizer;
use rb::path::is_same_place;
use rb::path::parent;
use rb::path::starts_with;
use rb::path::strip_prefix;
use rb::path::with_extension;
use rb::session::Tidied;
use rb::session::Tidying;
use rb::session::compact_idle;
use rb::session::compact_next;
use rb::session::compact_total;
use rb::store::Store;
use rb::store::read_removals;
use rb::store::read_size;
use rb::store::removals_text;
use rb::store::size_text;
use rb::strmap::StrMap;
use rb::strmap::StrSet;
use rb::text::can_cut;
use rb::text::head_of;
use rb::text::replace;
use rb::value::Toml;
use rb::value::get;
use rb::value::parse_document;
use rb::workspace::ancestors;

fn list(l: &[&str]) -> Vec<String> {
    l.iter().map(|s| (*s).to_owned()).collect()
}

#[test]
fn sizes_are_read_back() {
    assert_eq!(size_text(12, 34), "{\"at\":34,\"bytes\":12}");
    assert_eq!(read_size(Some(&size_text(u64::MAX, 0))), Some((u64::MAX, 0)));
    assert_eq!(read_size(Some(" { \"bytes\" : 5, \"at\" : 7, \"more\": [] } ")), Some((5, 7)));
    assert_eq!(read_size(Some("{\"bytes\":5}")), None);
    assert_eq!(read_size(Some("{\"bytes\":5.0,\"at\":7}")), None);
    assert_eq!(read_size(Some("{\"bytes\":-5,\"at\":7}")), None);
    assert_eq!(read_size(Some("{\"bytes\":18446744073709551616,\"at\":7}")), None);
    assert_eq!(read_size(Some("[5, 7]")), None);
    assert_eq!(read_size(Some("{")), None);
    assert_eq!(read_size(None), None);
}

#[test]
fn removals_are_read_back() {
    let keys = list(&["a", "b\"c", ""]);
    assert_eq!(removals_text(&keys), "[\"a\",\"b\\\"c\",\"\"]");
    assert_eq!(read_removals(&removals_text(&keys)), keys);
    assert!(read_removals("[\"a\", 1]").is_empty());
    assert!(read_removals("{\"a\": 1}").is_empty());
    assert!(read_removals("[\"a\"").is_empty());
    assert_eq!(removals_text(&Vec::new()), "[]");
}

fn home() -> RbConfig {
    RbConfig::load(&StrMap::new(), "/home/u", None, "0.16.0").unwrap()
}

#[test]
fn accepted_licenses_are_written_down() {
    let (path, text) = home().record_msvc_license_acceptance(Some("[cross]\nzig-version = \"0.13\"\n[x]\nf = 1.0\nl = [1, { a = 2 }]\n\"a\\nb'\" = 2024-01-02\n")).unwrap();
    assert_eq!(path, "/home/u/.rb/config.toml");
    let doc = parse_document(&text).unwrap();
    let Some(Toml::Table(cross)) = get(&doc, "cross") else { panic!("no table") };
    assert!(matches!(get(cross, "accept-msvc-license"), Some(Toml::Bool(true))));
    assert!(matches!(get(cross, "zig-version"), Some(Toml::Str(s)) if s == "0.13"));
    assert!(text.contains("f = 1.0"));
    let Some(Toml::Table(x)) = get(&doc, "x") else { panic!("no table") };
    assert!(matches!(get(x, "a\nb'"), Some(Toml::Date(d)) if d == "2024-01-02"));
    assert!(matches!(get(x, "l"), Some(Toml::Array(l)) if matches!(l[0], Toml::Int(1)) && matches!(l[1].get("a"), Some(Toml::Int(2)))));
    let (_, fresh) = home().record_msvc_license_acceptance(None).unwrap();
    assert_eq!(fresh, "[cross]\naccept-msvc-license = true\n");
    let (_, broken) = home().record_msvc_license_acceptance(Some("[")).unwrap();
    assert_eq!(broken, fresh);
}

#[test]
fn deep_arrays_of_tables_are_read() {
    let mut text = String::new();
    for depth in 1..=79 {
        let keys = vec!["a"; depth].join(".");
        text.push_str(&format!("[[{keys}]]\n"));
    }
    let doc = parse_document(&text).unwrap();
    let mut depth = 0;
    let mut at = get(&doc, "a");
    while let Some(Toml::Array(l)) = at {
        depth += 1;
        at = l[0].get("a");
    }
    assert_eq!(depth, 79);
}

#[test]
fn blobs_are_put_in_packed_and_unpacked() {
    let s = Store::open("/r");
    let bytes = b"same bytes".to_vec();
    let (digest, acts) = s.ingest_bytes(&bytes, true, &StrSet::new());
    let blob = s.blob_path(&digest);
    assert!(matches!(&acts[..], [Act::Write { to, executable: true }] if *to == blob));
    let mut there = StrSet::new();
    there.insert(&blob);
    assert!(s.ingest_bytes(&bytes, true, &there).1.is_empty());
    assert!(s.expand(&digest, &there).is_empty());
    let packed = s.compress(&digest, 100, 90, &there);
    assert!(matches!(&packed[..], [Act::Pack { from, .. }, Act::Remove { path }] if *from == blob && *path == blob));
    assert!(s.compress(&digest, 100, 91, &there).is_empty());
    let mut zst = StrSet::new();
    zst.insert(&s.zst_path(&digest));
    assert!(s.ingest(&digest, true, &zst).is_empty());
    let back = s.expand(&digest, &zst);
    assert!(matches!(&back[..], [Act::Unpack { to, .. }, Act::Remove { .. }] if *to == blob));
    assert_eq!(s.ingested(), 0);
}

#[test]
fn paths_keep_what_is_written() {
    assert_eq!(parent("a/./b/c").as_deref(), Some("a/./b"));
    assert_eq!(parent("a//b/./").as_deref(), Some("a"));
    assert_eq!(parent("/a").as_deref(), Some("/"));
    assert_eq!(parent("a").as_deref(), Some(""));
    assert_eq!(parent("/"), None);
    assert_eq!(parent(""), None);
    assert_eq!(strip_prefix("/w//src/./a.rs", "/w").as_deref(), Some("src/./a.rs"));
    assert_eq!(strip_prefix("/w/src/a/", "/w/./src").as_deref(), Some("a"));
    assert_eq!(strip_prefix("./a/b", "./a").as_deref(), Some("b"));
    assert_eq!(strip_prefix("/w", "/w").as_deref(), Some(""));
    assert_eq!(strip_prefix("/w/a", "").as_deref(), Some("/w/a"));
    assert_eq!(strip_prefix("/w/a", "w"), None);
    assert!(starts_with("/w/a", "") && starts_with("a", "") && !starts_with("a", "/"));
    assert_eq!(with_extension("a//b.rs", "d"), "a//b.d");
    assert_eq!(ancestors("/a/./b"), ["/a/./b", "/a", "/"]);
    assert!(is_same_place("/p/", "/p") && is_same_place("src/./main.rs", "src//main.rs") && !is_same_place("./a", "a"));
}

#[test]
fn files_are_ordered_by_their_parts() {
    let files = list(&["src/a.rs", "src/a/b.rs", "Cargo.toml"]);
    assert_eq!(package_files(&files, &Vec::new(), &Vec::new()), ["Cargo.toml", "src/a/b.rs", "src/a.rs"]);
}

#[test]
fn texts_are_cut_by_bytes() {
    assert_eq!(head_of("abcdef", 2), "ab");
    assert_eq!(head_of("\u{e9}b", 2), "\u{e9}");
    assert_eq!(head_of("a", 2), "a");
    assert!(can_cut("\u{e9}b", 2) && can_cut("\u{e9}b", 3) && !can_cut("a\u{e9}", 2) && !can_cut("a", 2) && can_cut("", 0));
    assert!(Store::open("/r").blob_path("\u{e9}b").ends_with("/cas/\u{e9}/\u{e9}b"));
}

#[test]
fn an_empty_text_is_everywhere() {
    assert_eq!(replace("ab", "", "-"), "ab".replace("", "-"));
    assert_eq!(replace("", "", "-"), "-");
    let n = Normalizer::new("", None, "/w", None);
    assert_eq!(n.apply("a"), "{TARGET}a{TARGET}");
}

#[test]
fn braces_in_a_worktree_do_no_harm() {
    let at = |w: &str, target: &str, real: Option<&str>| {
        let n = Normalizer::new(target, None, w, real);
        n.apply(&format!("-L {target}/deps --remap {w}/src={}", real.unwrap_or(w)))
    };
    let plain = at("/home/u/proj", "/home/u/proj/target", None);
    assert_eq!(plain, "-L {TARGET}/deps --remap {WS}/src={WS}");
    assert_eq!(at("/home/u/{proj}", "/home/u/{proj}/target", None), plain);
    assert_eq!(at("/tmp/w", "/var/out", Some("/private/tmp/w2")), plain);
    assert_eq!(Normalizer::new("/t/", Some("/t"), "/w", None).apply("/t/x /t"), "{TARGET}x /t");
}

fn adding(deps: &[&str]) -> AddOptions {
    AddOptions {
        deps: list(deps),
        path: None,
        git: None,
        branch: None,
        tag: None,
        rev: None,
        features: Vec::new(),
        no_default_features: false,
        optional: false,
        dev: false,
        build: false,
        rename: None,
    }
}

#[test]
fn dependencies_to_add() {
    let some = |a: &str, b: &str, c: Option<&str>| Some((a.to_owned(), b.to_owned(), c.map(str::to_owned)));
    let mut o = adding(&["serde@1.2"]);
    assert_eq!(dependency_to_add(&o, None, None).ok(), some("serde", "serde", Some("1.2")));
    o.rename = Some("s".to_owned());
    assert_eq!(dependency_to_add(&o, None, Some("9")).ok(), some("s", "serde", Some("1.2")));
    o.deps = list(&["serde"]);
    assert_eq!(dependency_to_add(&o, None, Some("9")).ok(), some("s", "serde", Some("9")));
    assert!(matches!(dependency_to_add(&o, None, None), Err(EditError::Unpublished(n)) if n == "serde"));
    o.git = Some("https://x/y".to_owned());
    assert_eq!(dependency_to_add(&o, None, None).ok(), some("s", "serde", None));
    o.deps = Vec::new();
    assert!(matches!(dependency_to_add(&o, None, None), Err(EditError::GitWithoutName)));
    assert!(matches!(dependency_to_add(&adding(&[]), None, None), Err(EditError::NoDependency)));
    o.path = Some("../x".to_owned());
    assert_eq!(dependency_to_add(&o, Some("x"), None).ok(), some("s", "x", None));
    assert!(matches!(dependency_to_add(&o, None, None), Err(EditError::NoName)));
    assert!(check_remove(true, false).is_ok() && check_remove(false, true).is_ok());
    assert!(matches!(check_remove(true, true), Err(EditError::DevAndBuild)));
}

#[test]
fn members_and_patterns() {
    assert_eq!(current_package(&vec![Some("/w/a/Cargo.toml".to_owned()), Some("/w/b/Cargo.toml".to_owned())], "/w//b/Cargo.toml"), Some(1));
    assert_eq!(current_package(&vec![Some("/w/a/Cargo.toml".to_owned()), Some("/w/b/Cargo.toml".to_owned())], "/w/Cargo.toml"), None);
    assert_eq!(current_package(&vec![Some("/w/a/Cargo.toml".to_owned())], "/w/Cargo.toml"), Some(0));
    let doc = parse_document("[package]\ninclude = [\"src\", 1, \"*.md\"]\nexclude = \"x\"\n").unwrap();
    assert_eq!(patterns(&doc, "include"), ["src", "*.md"]);
    assert!(patterns(&doc, "exclude").is_empty() && patterns(&Vec::new(), "include").is_empty());
}

#[test]
fn tidying_goes_on_while_keys_wait() {
    let one = Tidied { units_removed: 1, bytes_freed: 2, blobs_compressed: 3, bytes_compressed: 4, bytes_kept: 5 };
    let more = Tidied { units_removed: 10, bytes_freed: 20, blobs_compressed: 30, bytes_compressed: 40, bytes_kept: 50 };
    assert_eq!(compact_next(None, true, true, true, false), Tidying::Collect);
    assert_eq!(compact_next(None, false, true, true, true), Tidying::GiveUp);
    assert_eq!(compact_next(None, true, false, true, true), Tidying::GiveUp);
    assert_eq!(compact_next(None, true, true, false, true), Tidying::GiveUp);
    assert_eq!(compact_next(Some(one), true, true, false, true), Tidying::Collect);
    assert_eq!(compact_next(Some(one), true, false, false, true), Tidying::Finish);
    assert_eq!(compact_next(Some(one), true, true, false, false), Tidying::Finish);
    assert_eq!(compact_total(None, one), one);
    let sum = Tidied { units_removed: 11, bytes_freed: 22, blobs_compressed: 33, bytes_compressed: 44, bytes_kept: 50 };
    assert_eq!(compact_total(Some(one), more), sum);
    assert_eq!(compact_idle(Some("15")), 15);
    assert_eq!(compact_idle(Some("x")), 0);
    assert_eq!(compact_idle(None), 0);
}
