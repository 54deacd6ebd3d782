//! The registry, repositories and what is shown of a package.

use rb::git::Checked;
use rb::git::CheckoutStep;
use rb::git::Git;
use rb::git::GitStep;
use rb::git::Looked;
use rb::git::RepoDir;
use rb::git::enters;
use rb::git::find_package;
use rb::workspace::Disk;
use rb::workspace::crates_io_req;
use rb::bundle::copies_dir;
use rb::bundle::copies_file;
use rb::bundle::packs_dir;
use rb::info::InfoError;
use rb::info::InfoOptions;
use rb::info::More;
use rb::info::PartialError;
use rb::info::lock_version;
use rb::info::lookup_names;
use rb::info::member_dirs;
use rb::info::member_match;
use rb::info::other_latest;
use rb::info::parse_partial;
use rb::info::parse_spec;
use rb::info::registry_package;
use rb::info::rel_path;
use rb::info::render;
use rb::info::workspace_around;
use rb::info::workspace_only;
use rb::lockfile::LockPkg;
use rb::lockfile::Lockfile;
use rb::manifest::CRATES_IO;
use rb::manifest::GitRef;
use rb::manifest::parse_package;
use rb::registry::ConfigError;
use rb::registry::Download;
use rb::registry::EntryError;
use rb::registry::Fetch;
use rb::registry::IndexEntry;
use rb::registry::Known;
use rb::registry::Next;
use rb::registry::NoEntries;
use rb::registry::Outcome;
use rb::registry::Registry;
use rb::registry::Reply;
use rb::registry::SearchError;
use rb::registry::SelectError;
use rb::registry::dl_template;
use rb::registry::download_url;
use rb::registry::index_file;
use rb::registry::index_path;
use rb::registry::judge;
use rb::registry::parse_entries;
use rb::registry::parse_entry;
use rb::registry::parse_search;
use rb::registry::search_crates;
use rb::registry::select_version;
use rb::registry::source_dir_name;
use rb::strmap::StrMap;
use rb::strmap::StrSet;
use rb::value::parse_document;
use rb::version::Version;

#[test]
fn index_paths() {
    assert_eq!(index_path("a"), "1/a");
    assert_eq!(index_path("ab"), "2/ab");
    assert_eq!(index_path("syn"), "3/s/syn");
    assert_eq!(index_path("Serde"), "se/rd/serde");
}

#[test]
fn a_name_without_a_place_has_no_index_file() {
    assert_eq!(index_file("serde").unwrap(), "se/rd/serde");
    assert_eq!(index_file(""), None);
}

#[test]
fn parses_index_line() {
    let line = r#"{"name":"demo","vers":"1.2.0","deps":[{"name":"s","req":"^1","features":[],"optional":true,"default_features":true,"target":"cfg(unix)","kind":"normal","package":"serde"}],"cksum":"ab","features":{"std":[]},"features2":{"fast":["dep:s"]},"yanked":false,"rust_version":"1.70"}"#;
    let e = parse_entry(line, CRATES_IO).unwrap();
    assert_eq!(e.deps[0].name, "serde");
    assert_eq!(e.deps[0].dep_name(), "s");
    assert!(e.features.has("fast") && !e.features.has("s"));
    assert!(e.rust_version.unwrap().same_as(&Version::new(1, 70, 0)));
}

#[test]
fn parses_search_results() {
    let body = r#"{"crates":[{"name":"serde","max_version":"1.0.210","description":"A serialization framework"}]}"#;
    let hits = parse_search(body).unwrap();
    assert_eq!(hits.len(), 1);
    assert_eq!(hits[0].name, "serde");
    assert_eq!(hits[0].version, "1.0.210");
}

#[test]
fn malformed_answers_are_errors() {
    assert!(matches!(parse_search("nonsense"), Err(SearchError::Malformed)));
    assert!(matches!(parse_search("{}"), Err(SearchError::NoCrates)));
    assert!(matches!(parse_entry("{", CRATES_IO), Err(EntryError::Malformed)));
    assert!(matches!(
        parse_entry(r#"{"name":"a","vers":"x","deps":[],"cksum":"","features":{},"yanked":false}"#, CRATES_IO),
        Err(EntryError::Version(_))
    ));
    let dep = |req: &str, target: &str| {
        format!(
            r#"{{"name":"a","vers":"1.0.0","deps":[{{"name":"s","req":"{req}","features":[],"optional":false,"default_features":true,"target":{target},"kind":"normal"}}],"cksum":"","features":{{}},"yanked":false}}"#
        )
    };
    assert!(matches!(parse_entry(&dep("no req", "null"), CRATES_IO), Err(EntryError::Requirement(_, _))));
    assert!(matches!(parse_entry(&dep("1", "\"cfg(=)\""), CRATES_IO), Err(EntryError::Platform(_))));
    assert!(matches!(dl_template("[]x"), Err(ConfigError::Malformed)));
    assert!(matches!(dl_template("{}"), Err(ConfigError::NoTemplate)));
}

fn entry(vers: &str, sum: &str, yanked: bool) -> IndexEntry {
    let line = format!(r#"{{"name":"demo","vers":"{vers}","deps":[],"cksum":"{sum}","features":{{}},"yanked":{yanked}}}"#);
    parse_entry(&line, CRATES_IO).unwrap()
}

fn entry_for(vers: &str, rust: &str) -> IndexEntry {
    let line = format!(r#"{{"name":"demo","vers":"{vers}","deps":[],"cksum":"s{vers}","features":{{}},"yanked":false,"rust_version":"{rust}"}}"#);
    parse_entry(&line, CRATES_IO).unwrap()
}

#[test]
fn select_version_picks_latest_or_exact() {
    let entries = vec![entry("1.0.0", "a", false), entry("1.2.0", "b", false), entry("2.0.0", "c", true)];
    assert!(select_version(&entries, None).unwrap().vers.same_as(&Version::new(1, 2, 0)));
    assert!(select_version(&entries, Some("1.0.0")).unwrap().vers.same_as(&Version::new(1, 0, 0)));
    assert!(select_version(&entries, Some("^1")).unwrap().vers.same_as(&Version::new(1, 2, 0)));
}

#[test]
fn no_version_is_selected_without_a_reason() {
    let entries = vec![entry("1.0.0", "a", false), entry("2.0.0", "c", true)];
    assert!(matches!(select_version(&entries, Some("2.0.0")), Err(SelectError::NotFound(_))));
    assert!(matches!(select_version(&entries, Some("^3")), Err(SelectError::NoMatch)));
    assert!(matches!(select_version(&entries, Some("what")), Err(SelectError::Requirement(_))));
    assert!(matches!(select_version(&vec![entry("2.0.0", "c", true)], None), Err(SelectError::NoVersions)));
}

#[test]
fn indexes_are_asked_or_kept() {
    let r = Registry::new("/reg".to_owned(), false, None);
    assert!(matches!(
        r.cached_get(CRATES_IO, "se/rd/serde", true, Some("tag\n")),
        Fetch::Get { url, etag } if url == "https://index.crates.io/se/rd/serde" && etag == Some("tag".to_owned())
    ));
    let off = Registry::new("/reg".to_owned(), true, None);
    assert!(matches!(off.cached_get(CRATES_IO, "se/rd/serde", true, None), Fetch::Kept));
    assert!(matches!(judge(true, Reply::Status(304)), Outcome::Kept));
    assert!(matches!(judge(false, Reply::Status(200)), Outcome::Store));
    assert!(matches!(judge(false, Reply::Status(404)), Outcome::Absent));
    assert!(matches!(judge(false, Reply::Failed), Outcome::Failed));
    assert!(matches!(off.entries(CRATES_IO, "x", None), Err(NoEntries::Offline(_))));
    assert!(matches!(r.entries(CRATES_IO, "x", None), Err(NoEntries::Unknown(_))));
    assert_eq!(parse_entries("junk\n{\"name\":\"a\",\"vers\":\"1.0.0\",\"deps\":[],\"cksum\":\"\",\"features\":{},\"yanked\":false}\n", CRATES_IO).len(), 1);
}

#[test]
fn urls_of_downloads() {
    let v = Version::new(1, 2, 3);
    let d = Download { source: CRATES_IO, name: "Serde", version: &v, checksum: Some("ab") };
    assert_eq!(download_url("https://dl/api", d).unwrap(), "https://dl/api/Serde/1.2.3/download");
    let d = Download { source: CRATES_IO, name: "Serde", version: &v, checksum: Some("ab") };
    assert_eq!(
        download_url("https://dl/{crate}/{version}/{prefix}/{lowerprefix}/{sha256-checksum}", d).unwrap(),
        "https://dl/Serde/1.2.3/se/rd/se/rd/ab"
    );
    assert_eq!(search_crates("a b/c", 500), "https://crates.io/api/v1/crates?q=a+b%2Fc&per_page=100");
}

fn next(r: &Registry, k: &Known, sum: Option<&str>) -> Next {
    let v = Version::new(1, 0, 0);
    r.ensure(Download { source: CRATES_IO, name: "demo", version: &v, checksum: sum }, k)
}

#[test]
fn a_package_is_fetched_unpacked_and_done() {
    let r = Registry::new("/reg".to_owned(), false, None);
    let mut k = Known::new();
    assert!(matches!(next(&r, &k, None), Next::AskMarker(p) if p.ends_with("/demo-1.0.0/.rb-ok")));
    k.marker = Some(false);
    assert!(matches!(next(&r, &k, None), Next::AskArchive(p) if p.ends_with("/demo-1.0.0.crate")));
    k.archive = Some(false);
    assert!(matches!(next(&r, &k, None), Next::AskTemplate));
    k.template = Some("https://dl".to_owned());
    assert!(matches!(next(&r, &k, None), Next::Fetch(u, _) if u == "https://dl/demo/1.0.0/download"));
    k.fetched = true;
    assert!(matches!(next(&r, &k, None), Next::Unpack(_, _)));
    k.unpacked = Some(true);
    assert!(matches!(next(&r, &k, None), Next::Done(_, true)));
    k.unpacked = Some(false);
    assert!(matches!(next(&r, &k, None), Next::Empty(_)));
}

#[test]
fn nothing_is_downloaded_offline_or_vendored() {
    let off = Registry::new("/reg".to_owned(), true, None);
    let mut k = Known::new();
    k.marker = Some(false);
    k.archive = Some(false);
    assert!(matches!(next(&off, &k, None), Next::Offline));
    let mut v = Registry::new("/reg".to_owned(), false, None);
    v.set_vendor(CRATES_IO, "/v".to_owned());
    let mut k = Known::new();
    assert!(matches!(next(&v, &k, None), Next::AskVendored(p) if p == "/v/demo-1.0.0/Cargo.toml"));
    k.vendored = Some(false);
    assert!(matches!(next(&v, &k, None), Next::NotVendored(_)));
    k.vendored = Some(true);
    k.vendor_sum = Some(Some("{\"package\":\"AB\"}".to_owned()));
    assert!(matches!(next(&v, &k, Some("ab")), Next::Done(_, false)));
    assert!(matches!(next(&v, &k, Some("cd")), Next::VendorMismatch(_)));
    k.vendor_sum = Some(Some("{".to_owned()));
    assert!(matches!(next(&v, &k, Some("ab")), Next::BadVendorSum));
}

#[test]
fn archives_are_checked() {
    let r = Registry::new("/reg".to_owned(), false, Some("/mirror".to_owned()));
    let mut k = Known::new();
    k.marker = Some(false);
    k.archive = Some(true);
    k.archive_sum = Some("AB".to_owned());
    assert!(matches!(next(&r, &k, Some("ab")), Next::Unpack(_, _)));
    assert!(matches!(next(&r, &k, Some("cd")), Next::Corrupt(_, s) if s == "AB"));
    k.archive = Some(false);
    assert!(matches!(next(&r, &k, Some("ab")), Next::AskMirror(m, f, _) if m == "/mirror" && f == "demo-1.0.0.crate"));
}

#[test]
fn directories_of_sources_tell_them_apart() {
    let a = source_dir_name(CRATES_IO);
    let b = source_dir_name("sparse+https://corp.example/index/");
    assert_ne!(a, b);
    assert!(b.starts_with("corp.example-"));
    let digest = blake3::hash(b"sparse+https://corp.example/index/").to_hex().to_string();
    assert_eq!(b, format!("corp.example-index-{}", &digest[..12]));
    assert_eq!(a, "index.crates.io");
}

#[test]
fn references_are_looked_up_and_fetched() {
    let g = Git::new("/g".to_owned(), false);
    let url = "https://x/y/repo.git/";
    let digest = blake3::hash(url.as_bytes()).to_hex().to_string();
    assert_eq!(g.db(url), format!("/g/db/repo-{}", &digest[..12]));
    let tag = GitRef::Tag("v1".to_owned());
    let mut k = Looked::new();
    assert!(matches!(g.resolve(url, &tag, &k), GitStep::Lookup(r) if r == "refs/tags/v1^{commit}"));
    k.first = Some(Some("abc".to_owned()));
    assert!(matches!(g.resolve(url, &tag, &k), GitStep::Found(c) if c == "abc"));
    k.first = Some(None);
    assert!(matches!(g.resolve(url, &tag, &k), GitStep::Fetch(a) if a.len() == 9 && a[5] == url));
    k.fetched = true;
    k.second = Some(None);
    assert!(matches!(g.resolve(url, &tag, &k), GitStep::NotFound(r) if r == "refs/tags/v1"));
    let rev = GitRef::Rev("abc".to_owned());
    assert!(matches!(g.resolve(url, &rev, &k), GitStep::Fetch(a) if a.len() == 7 && a[6] == "abc"));
    k.fetched_rev = true;
    assert!(matches!(g.resolve(url, &rev, &k), GitStep::Lookup(r) if r == "FETCH_HEAD^{commit}"));
    k.head = Some(Some("def".to_owned()));
    assert!(matches!(g.resolve(url, &rev, &k), GitStep::Found(c) if c == "def"));
    let branch = GitRef::Branch("main".to_owned());
    assert!(matches!(g.resolve(url, &branch, &Looked::new()), GitStep::Fetch(_)));
}

#[test]
fn no_repository_is_fetched_offline() {
    let g = Git::new("/g".to_owned(), true);
    let mut k = Looked::new();
    assert!(matches!(g.resolve("u", &GitRef::DefaultBranch, &k), GitStep::Lookup(r) if r == "refs/remotes/origin/HEAD^{commit}"));
    k.first = Some(None);
    assert!(matches!(g.resolve("u", &GitRef::DefaultBranch, &k), GitStep::Offline));
    let c = Checked { marker: Some(false), commit: Some(false), fetched: false, again: None, fetched_commit: false, submodules: None };
    assert!(matches!(g.checkout("u", "0123456789abcdef", c), CheckoutStep::Offline));
}

#[test]
fn commits_are_checked_out_with_submodules_or_without() {
    let g = Git::new("/g".to_owned(), false);
    let mut c = Checked { marker: None, commit: None, fetched: false, again: None, fetched_commit: false, submodules: None };
    let commit = "0123456789abcdef0123";
    let digest = blake3::hash(b"u").to_hex().to_string();
    let dir = format!("/g/checkouts/u-{}/0123456789ab", &digest[..12]);
    assert!(matches!(g.checkout("u", commit, c), CheckoutStep::AskMarker(p) if p == format!("{dir}/.rb-ok")));
    c.marker = Some(true);
    assert!(matches!(g.checkout("u", commit, c), CheckoutStep::Done(p) if p == dir));
    c.marker = Some(false);
    assert!(matches!(g.checkout("u", commit, c), CheckoutStep::AskObject(o) if o == "0123456789abcdef0123^{commit}"));
    c.commit = Some(true);
    assert!(matches!(g.checkout("u", commit, c), CheckoutStep::AskObject(o) if o == "0123456789abcdef0123:.gitmodules"));
    c.submodules = Some(true);
    assert!(matches!(g.checkout("u", commit, c), CheckoutStep::Clone(p) if p == dir));
    c.submodules = Some(false);
    assert!(matches!(g.checkout("u", commit, c), CheckoutStep::Archive(_)));
    c.commit = Some(false);
    assert!(matches!(g.checkout("u", commit, c), CheckoutStep::Fetch(a) if a.len() == 9));
    c.fetched = true;
    c.again = Some(false);
    assert!(matches!(g.checkout("u", commit, c), CheckoutStep::Fetch(a) if a.len() == 7));
}

#[test]
fn packages_are_found_in_checkouts() {
    let dirs = vec![
        RepoDir { path: "/c".to_owned(), table: Some(parse_document("[workspace]\n").unwrap()) },
        RepoDir { path: "/c/a".to_owned(), table: None },
        RepoDir { path: "/c/b".to_owned(), table: Some(parse_document("[package]\nname = \"demo\"\n").unwrap()) },
    ];
    assert_eq!(find_package(&dirs, "demo").unwrap(), "/c/b/Cargo.toml");
    assert_eq!(find_package(&dirs, "none"), None);
    assert!(enters("src") && !enters("target") && !enters(".git"));
}

#[test]
fn partial_version_rejects_requirements() {
    assert!(parse_partial("^1").is_err());
    assert!(parse_partial("1.0.210").unwrap().matches(&Version::parse("1.0.210").unwrap()));
    assert!(parse_partial("1.0").unwrap().matches(&Version::parse("1.0.229").unwrap()));
    assert!(!parse_partial("1.0").unwrap().matches(&Version::parse("1.1.0").unwrap()));
}

#[test]
fn specs_are_read_or_refused() {
    let (name, partial) = parse_spec("serde@1.2").unwrap();
    assert_eq!(name, "serde");
    assert_eq!(partial.unwrap().0, [1, 2]);
    assert!(matches!(parse_spec("se/rde"), Err(InfoError::Character(_, '/'))));
    assert!(matches!(parse_spec("@1"), Err(InfoError::Empty)));
    assert!(matches!(parse_spec("a@1-pre"), Err(InfoError::Version(PartialError::Prerelease))));
    assert!(matches!(parse_spec("a@1.2.3.4"), Err(InfoError::Version(PartialError::Shape))));
    assert!(matches!(parse_spec("a@>1"), Err(InfoError::Version(PartialError::Requirement))));
    assert!(matches!(parse_partial("99999999999999999999"), Err(PartialError::TooLarge)));
    assert!(parse_spec("caf\u{e9}").is_ok());
    assert_eq!(lookup_names("Foo_Bar"), ["Foo_Bar", "foo_bar", "foo-bar"]);
    assert_eq!(lookup_names("foo"), ["foo"]);
}

#[test]
fn the_version_that_is_shown() {
    let es = vec![entry_for("1.0.0", "1.60"), entry_for("1.1.0", "1.80"), entry("2.0.0", "y", true)];
    let rustc = Version::new(1, 70, 0);
    let c = registry_package(&es, "Demo", None, None, Some(&rustc)).unwrap();
    assert_eq!(c.chosen.text(), "1.0.0");
    assert_eq!(c.latest.unwrap().text(), "1.1.0");
    assert_eq!(c.checksum.unwrap(), "s1.0.0");
    assert!(c.translated && c.canonical == "demo");
    let d = registry_package(&es, "demo", None, None, None).unwrap();
    assert_eq!(d.chosen.text(), "1.1.0");
    let p = parse_partial("3").unwrap();
    assert!(matches!(registry_package(&es, "demo", Some(&p), None, None), Err(InfoError::NotFound)));
    assert!(matches!(registry_package(&Vec::new(), "demo", None, None, None), Err(InfoError::NotFound)));
    let v = Version::new(1, 1, 0);
    assert!(other_latest(Some(Version::new(1, 1, 0)), &v).is_none());
    assert!(other_latest(Some(Version::new(1, 2, 0)), &v).is_some());
}

#[test]
fn locked_versions_are_shown_first() {
    let lp = |v: &str, source: &str| LockPkg {
        name: "demo".to_owned(),
        version: Version::parse(v).unwrap(),
        source: Some(source.to_owned()),
        checksum: None,
        dependencies: Vec::new(),
    };
    let lock = Lockfile { version: 4, packages: vec![lp("1.0.0", CRATES_IO), lp("1.3.0", CRATES_IO), lp("2.0.0", "git+x#y")] };
    assert_eq!(lock_version(&lock, "demo", None).unwrap_or(Version::new(0, 0, 0)).text(), "1.3.0");
    assert!(lock_version(&lock, "other", None).is_none());
}

#[test]
fn a_package_is_rendered() {
    let mut files = StrSet::new();
    files.insert("/r/src/lib.rs");
    let text = "[package]\nname = \"demo\"\nversion = \"1.0.0\"\nedition = \"2021\"\ndescription = \"A demo \"\nlicense = \"MIT\"\n[features]\ndefault = [\"std\"]\nstd = []\nextra = [\"dep:o\"]\n[dependencies]\na = \"1\"\no = { version = \"=2\", optional = true }\n";
    let table = parse_document(text).unwrap();
    let p = parse_package("/r/Cargo.toml", &table, None, &StrMap::new(), &files).unwrap();
    let keywords = vec!["fast".to_owned()];
    let latest = Version::new(1, 2, 0);
    let m = More { keywords: &keywords, documentation: None, latest: Some(&latest), from: None, crates_io: true, verbose: true };
    let shown = render(&p, &m);
    assert_eq!(
        shown,
        "demo #fast\nA demo\nversion: 1.0.0 (latest 1.2.0)\nlicense: MIT\nrust-version: unknown\ndocumentation: https://docs.rs/demo/1.0.0\ncrates.io: https://crates.io/crates/demo/1.0.0\nfeatures:\n +default = [std]\n  std     = []\n  extra   = [dep:o]\ndependencies:\n +a@1\n  o@=2\n"
    );
    let here = More { keywords: &Vec::new(), documentation: None, latest: None, from: Some("./x"), crates_io: false, verbose: false };
    assert!(render(&p, &here).starts_with("demo\nA demo\nversion: 1.0.0 (from ./x)\nlicense: MIT\n"));
}

#[test]
fn ways_between_directories() {
    assert_eq!(rel_path("/a/b", "/a/c/d"), "../c/d");
    assert_eq!(rel_path("/a", "/a"), ".");
    let o = InfoOptions { spec: "x", offline: false, locked: true, frozen: true, verbose: false };
    assert_eq!(workspace_only(&o, false), Some("--frozen"));
    assert_eq!(workspace_only(&o, true), None);
}

#[test]
fn members_are_looked_for_where_the_workspace_says() {
    let table = parse_document("[workspace]\nmembers = [\"a\", \"./b/../b\", \"x/*\", \"gone\"]\n").unwrap();
    let alone = parse_document("[package]\nname = \"p\"\n").unwrap();
    let mut globs = StrMap::new();
    globs.insert("/w/x/*", Some(vec!["/w/x/./y".to_owned()]));
    let mut manifests = StrMap::new();
    manifests.insert("/w/Cargo.toml", Some(table));
    manifests.insert("/w/a/Cargo.toml", Some(parse_document("[package]\nname = \"a\"\n").unwrap()));
    let disk = Disk { manifests, globs };
    let mut here = StrSet::new();
    here.insert("/w/a");
    here.insert("/w/./b/../b");
    let table = parse_document("[workspace]\nmembers = [\"a\", \"./b/../b\", \"x/*\", \"gone\"]\n").unwrap();
    assert_eq!(member_dirs("/w", &table, &disk, &here).unwrap(), ["/w/a", "/w/b", "/w/x/y"]);
    assert_eq!(member_dirs("/w", &alone, &disk, &here).unwrap(), ["/w"]);
    let bad = parse_document("[workspace]\nmembers = [\"a\", \"z[\"]\n").unwrap();
    assert_eq!(member_dirs("/w", &bad, &disk, &here).unwrap_err(), "z[");
    assert_eq!(workspace_around("/w/a/src", &disk).as_deref(), Some("/w"));
    assert_eq!(workspace_around("/v", &disk), None);
}

#[test]
fn a_member_is_told_by_name_and_version() {
    let mut files = StrSet::new();
    files.insert("/r/src/lib.rs");
    let doc = parse_document("[package]\nname = \"demo\"\nversion = \"1.2.3\"\n").unwrap();
    let p = parse_package("/r/Cargo.toml", &doc, None, &StrMap::new(), &files).unwrap();
    assert!(member_match(&p, "demo", None));
    assert!(!member_match(&p, "other", None));
    assert!(member_match(&p, "demo", Some(&parse_partial("1.2").unwrap())));
    assert!(!member_match(&p, "demo", Some(&parse_partial("1.3").unwrap())));
}

#[test]
fn what_is_copied_and_packed() {
    assert!(copies_dir("src") && !copies_dir("target") && !copies_dir(".git") && !copies_dir(".x"));
    assert!(copies_file("Cargo.toml") && !copies_file(".rb-ok"));
    assert!(packs_dir("src") && packs_dir(".x") && !packs_dir("target") && !packs_dir(".git"));
    assert_eq!(crates_io_req(&vec![entry("1.0.0", "a", false), entry("1.2.0", "b", false)]).as_deref(), Some("1"));
    assert_eq!(crates_io_req(&Vec::new()), None);
}
