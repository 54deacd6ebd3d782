//! Content-addressed store. Default root is `~/.rb/store/v1`.
//!
//! ```text
//! cas/<ab>/<blake3>      blob, 0444, or 0555 if it's executable
//! cas/<ab>/<blake3>.zst  same blob, compressed while nothing has it materialized
//! units/<ab>/<key>.json  outputs, discovered inputs, diagnostics to replay
//! locks/<ab>/<key>.lock  one build of this unit at a time
//! tmp/                   staged here, then renamed into cas/
//! store.lock             shared by builds, exclusive for GC
//! ```

use vstd::prelude::*;
use crate::build_script::BuildOutput;
use crate::hash::blake3_of;
use crate::hash::hash;
use crate::hash::hex_of;
use crate::hash::to_hex;
use crate::invocation::opt_text;
use crate::json::Json;
use crate::json::JsonTree;
use crate::json::json_entries;
use crate::json::json_of;
use crate::json::json_text;
use crate::json::json_trees;
use crate::json::lemma_keys_ascend;
use crate::json::list_of;
use crate::json::member;
use crate::json::number_at;
use crate::json::number_in;
use crate::json::read_json;
use crate::json::read_texts;
use crate::json::texts_upto;
use crate::json::write_json;
use crate::num::dec;
use crate::num::u64_text;
use crate::order::before;
use crate::path::base_name;
use crate::path::file_name;
use crate::path::join;
use crate::path::under;
use crate::strmap::StrSet;
use crate::text::cat;
use crate::text::cat3;
use crate::text::ends;
use crate::text::ends_with;
use crate::text::head_bytes;
use crate::text::head_of;
use crate::text::opt_view;
use crate::text::same;
use crate::text::same_opt;
use crate::text::views;

verus! {

pub const STORE_VERSION: &'static str = "v1";

pub const MAX_ENTRIES: usize = 8;

#[derive(Debug)]
pub struct OutputFile {
    pub name: String,
    pub blob: String,
    pub executable: bool,
    pub size: u64,
    /// Still has `{OUT_DIR}` and friends. Expanded when we materialize.
    pub templated: bool,
}

#[derive(Debug)]
pub struct FileInput {
    pub path: String,
    /// None if the file wasn't there.
    pub hash: Option<String>,
}

#[derive(Debug)]
pub struct EnvInput {
    pub name: String,
    pub value: Option<String>,
}

pub type InputView = (Seq<char>, Option<Seq<char>>);

impl View for FileInput {
    type V = InputView;

    open spec fn view(&self) -> InputView {
        (self.path@, opt_view(self.hash))
    }
}

impl View for EnvInput {
    type V = InputView;

    open spec fn view(&self) -> InputView {
        (self.name@, opt_view(self.value))
    }
}

#[derive(Debug)]
pub struct ExtraInputs {
    pub files: Vec<FileInput>,
    pub env: Vec<EnvInput>,
}

pub struct ExtraView {
    pub files: Seq<InputView>,
    pub env: Seq<InputView>,
}

impl View for ExtraInputs {
    type V = ExtraView;

    open spec fn view(&self) -> ExtraView {
        ExtraView { files: views(self.files@), env: views(self.env@) }
    }
}

fn same_files(a: &Vec<FileInput>, b: &Vec<FileInput>) -> (r: bool)
    ensures
        r == (views(a@) == views(b@)),
{
    if a.len() != b.len() {
        assert(views(a@).len() != views(b@).len());
        return false;
    }
    let mut k: usize = 0;
    while k < a.len()
        invariant
            a@.len() == b@.len(),
            k <= a@.len(),
            forall|j: int| 0 <= j < k ==> #[trigger] views(a@)[j] == views(b@)[j],
        decreases a@.len() - k,
    {
        assert(views(a@)[k as int] == a@[k as int]@);
        assert(views(b@)[k as int] == b@[k as int]@);
        if !same(a[k].path.as_str(), b[k].path.as_str()) || !same_opt(&a[k].hash, &b[k].hash) {
            return false;
        }
        k += 1;
    }
    assert(views(a@) =~= views(b@));
    true
}

fn same_env(a: &Vec<EnvInput>, b: &Vec<EnvInput>) -> (r: bool)
    ensures
        r == (views(a@) == views(b@)),
{
    if a.len() != b.len() {
        assert(views(a@).len() != views(b@).len());
        return false;
    }
    let mut k: usize = 0;
    while k < a.len()
        invariant
            a@.len() == b@.len(),
            k <= a@.len(),
            forall|j: int| 0 <= j < k ==> #[trigger] views(a@)[j] == views(b@)[j],
        decreases a@.len() - k,
    {
        assert(views(a@)[k as int] == a@[k as int]@);
        assert(views(b@)[k as int] == b@[k as int]@);
        if !same(a[k].name.as_str(), b[k].name.as_str()) || !same_opt(&a[k].value, &b[k].value) {
            return false;
        }
        k += 1;
    }
    assert(views(a@) =~= views(b@));
    true
}

impl ExtraInputs {
    pub fn new() -> (r: ExtraInputs)
        ensures
            r@ == (ExtraView { files: Seq::empty(), env: Seq::empty() }),
    {
        let r = ExtraInputs { files: Vec::new(), env: Vec::new() };
        assert(r@.files =~= Seq::<InputView>::empty());
        assert(r@.env =~= Seq::<InputView>::empty());
        r
    }

    pub fn is_empty(&self) -> (r: bool)
        ensures
            r == (self.files@.len() == 0 && self.env@.len() == 0),
    {
        self.files.len() == 0 && self.env.len() == 0
    }

    pub fn same_as(&self, other: &ExtraInputs) -> (r: bool)
        ensures
            r == (self@ == other@),
    {
        same_files(&self.files, &other.files) && same_env(&self.env, &other.env)
    }
}

#[derive(Debug)]
pub struct Entry {
    pub label: String,
    pub created: u64,
    pub last_used: u64,
    pub outputs: Vec<OutputFile>,
    /// Relative dirs to recreate. A build script's `OUT_DIR`, for example.
    pub dirs: Vec<String>,
    pub symlinks: Vec<(String, String)>,
    /// Discovered while building, and not already in the key.
    pub inputs: ExtraInputs,
    /// Build-script output, with paths still written as `{OUT_DIR}` tokens.
    pub payload: Option<BuildOutput>,
    /// Diagnostics to replay on a cache hit.
    pub diagnostics: Vec<String>,
    pub duration_ms: u64,
}

/// One key, several entries when discovered inputs differ. An `env!` value, for instance.
#[derive(Debug)]
pub struct UnitManifest {
    pub key: String,
    pub entries: Vec<Entry>,
}

/// Those of the first `k` entries that were built from other inputs.
pub open spec fn other_inputs(s: Seq<Entry>, inputs: ExtraView, k: int) -> Seq<Entry>
    decreases k,
{
    if k <= 0 || k > s.len() {
        Seq::empty()
    } else if s[k - 1].inputs@ == inputs {
        other_inputs(s, inputs, k - 1)
    } else {
        other_inputs(s, inputs, k - 1).push(s[k - 1])
    }
}

/// How many entries, from `k` on, were used no earlier than that.
pub open spec fn use_rank(s: Seq<Entry>, t: u64, k: int) -> int
    decreases s.len() - k,
{
    if 0 <= k < s.len() && s[k].last_used >= t {
        use_rank(s, t, k + 1)
    } else {
        k
    }
}

/// The first `k` entries, the latest use first; those used at the same time keep their order.
pub open spec fn by_use(s: Seq<Entry>, k: int) -> Seq<Entry>
    decreases k,
{
    if k <= 0 || k > s.len() {
        Seq::empty()
    } else {
        let before = by_use(s, k - 1);
        before.insert(use_rank(before, s[k - 1].last_used, 0), s[k - 1])
    }
}

/// The entries with a new one in front, in place of one from the same inputs; the latest used if they
/// are too many.
pub open spec fn upserted(s: Seq<Entry>, e: Entry) -> Seq<Entry> {
    let all = seq![e] + other_inputs(s, e.inputs@, s.len() as int);
    if all.len() > MAX_ENTRIES {
        by_use(all, all.len() as int).take(MAX_ENTRIES as int)
    } else {
        all
    }
}

/// The latest use of the first `k` entries.
pub open spec fn latest(s: Seq<Entry>, k: int) -> u64
    decreases k,
{
    if k <= 0 || k > s.len() {
        0
    } else if s[k - 1].last_used > latest(s, k - 1) {
        s[k - 1].last_used
    } else {
        latest(s, k - 1)
    }
}

proof fn lemma_use_rank(s: Seq<Entry>, t: u64, k: int)
    requires
        0 <= k <= s.len(),
    ensures
        k <= use_rank(s, t, k) <= s.len(),
    decreases s.len() - k,
{
    if k < s.len() && s[k].last_used >= t {
        lemma_use_rank(s, t, k + 1);
    }
}

proof fn lemma_by_use_len(s: Seq<Entry>, k: int)
    requires
        0 <= k <= s.len(),
    ensures
        by_use(s, k).len() == k,
    decreases k,
{
    if k > 0 {
        lemma_by_use_len(s, k - 1);
        lemma_use_rank(by_use(s, k - 1), s[k - 1].last_used, 0);
    }
}

fn sort_by_use(v: Vec<Entry>) -> (r: Vec<Entry>)
    ensures
        r@ == by_use(v@, v@.len() as int),
{
    let ghost all = v@;
    let mut rest = v;
    let mut r: Vec<Entry> = Vec::new();
    let ghost mut done: int = 0;
    assert(all.skip(0) =~= all);
    while rest.len() > 0
        invariant
            0 <= done <= all.len(),
            rest@ == all.skip(done),
            r@ == by_use(all, done),
            r@.len() == done,
        decreases rest@.len(),
    {
        let x = rest.remove(0);
        let mut p: usize = 0;
        while p < r.len() && r[p].last_used >= x.last_used
            invariant
                p <= r@.len(),
                use_rank(r@, x.last_used, 0) == use_rank(r@, x.last_used, p as int),
            decreases r@.len() - p,
        {
            p += 1;
        }
        proof {
            lemma_use_rank(r@, x.last_used, 0);
            assert(x == all[done]);
        }
        r.insert(p, x);
        proof {
            assert(rest@ =~= all.skip(done + 1));
            done = done + 1;
        }
    }
    r
}

impl UnitManifest {
    pub fn upsert(&mut self, entry: Entry)
        ensures
            final(self).entries@ == upserted(old(self).entries@, entry),
            final(self).key == old(self).key,
    {
        let ghost s = self.entries@;
        let ghost v = entry.inputs@;
        let ghost mut done: int = 0;
        let mut i: usize = 0;
        assert(Seq::<Entry>::empty() + s.skip(0) =~= s);
        while i < self.entries.len()
            invariant
                0 <= done <= s.len(),
                s == old(self).entries@,
                v == entry.inputs@,
                self.key == old(self).key,
                i == other_inputs(s, v, done).len(),
                self.entries@ == other_inputs(s, v, done) + s.skip(done),
            decreases s.len() - done,
        {
            assert(self.entries@[i as int] == s[done]);
            let ghost before = self.entries@;
            if self.entries[i].inputs.same_as(&entry.inputs) {
                self.entries.remove(i);
                assert(self.entries@ =~= other_inputs(s, v, done + 1) + s.skip(done + 1));
            } else {
                i += 1;
                assert(self.entries@ =~= other_inputs(s, v, done + 1) + s.skip(done + 1));
            }
            proof {
                done = done + 1;
            }
        }
        assert(self.entries@ =~= other_inputs(s, v, s.len() as int));
        self.entries.insert(0, entry);
        let ghost all = seq![entry] + other_inputs(s, v, s.len() as int);
        assert(self.entries@ =~= all);
        if self.entries.len() > MAX_ENTRIES {
            let mut old_entries: Vec<Entry> = Vec::new();
            std::mem::swap(&mut old_entries, &mut self.entries);
            let mut sorted = sort_by_use(old_entries);
            proof {
                lemma_by_use_len(all, all.len() as int);
            }
            sorted.truncate(MAX_ENTRIES);
            assert(sorted@ =~= by_use(all, all.len() as int).take(MAX_ENTRIES as int));
            self.entries = sorted;
        }
    }

    pub fn last_used(&self) -> (r: u64)
        ensures
            r == latest(self.entries@, self.entries@.len() as int),
    {
        let mut r: u64 = 0;
        let mut k: usize = 0;
        while k < self.entries.len()
            invariant
                k <= self.entries@.len(),
                r == latest(self.entries@, k as int),
            decreases self.entries@.len() - k,
        {
            if self.entries[k].last_used > r {
                r = self.entries[k].last_used;
            }
            k += 1;
        }
        r
    }
}

/// No two entries come from the same inputs.
pub open spec fn inputs_differ(s: Seq<Entry>) -> bool {
    forall|i: int, j: int| 0 <= i < j < s.len() ==> (#[trigger] s[i]).inputs@ != (#[trigger] s[j]).inputs@
}

proof fn lemma_other_inputs(s: Seq<Entry>, v: ExtraView, k: int)
    requires
        0 <= k <= s.len(),
        inputs_differ(s),
    ensures
        inputs_differ(other_inputs(s, v, k)),
        forall|i: int| 0 <= i < other_inputs(s, v, k).len() ==> (#[trigger] other_inputs(s, v, k)[i]).inputs@ != v,
        forall|i: int|
            0 <= i < other_inputs(s, v, k).len() ==> exists|j: int|
                0 <= j < k && #[trigger] s[j] == #[trigger] other_inputs(s, v, k)[i],
    decreases k,
{
    if k > 0 {
        lemma_other_inputs(s, v, k - 1);
        let before = other_inputs(s, v, k - 1);
        let now = other_inputs(s, v, k);
        assert forall|i: int, j: int| 0 <= i < j < now.len() implies (#[trigger] now[i]).inputs@ != (
        #[trigger] now[j]).inputs@ by {
            if j >= before.len() {
                let m = choose|m: int| 0 <= m < k - 1 && #[trigger] s[m] == before[i];
                assert(s[m].inputs@ != s[k - 1].inputs@);
            } else {
                assert(before[i].inputs@ != before[j].inputs@);
            }
        }
        assert forall|i: int| 0 <= i < now.len() implies exists|j: int| 0 <= j < k && #[trigger] s[j] == #[trigger] now[i] by {
            if i < before.len() {
                let m = choose|m: int| 0 <= m < k - 1 && #[trigger] s[m] == before[i];
                assert(s[m] == now[i]);
            } else {
                assert(s[k - 1] == now[i]);
            }
        }
    }
}

proof fn lemma_by_use_differ(s: Seq<Entry>, k: int)
    requires
        0 <= k <= s.len(),
        inputs_differ(s),
    ensures
        inputs_differ(by_use(s, k)),
        forall|i: int| 0 <= i < by_use(s, k).len() ==> exists|j: int| 0 <= j < k && #[trigger] s[j] == #[trigger] by_use(s, k)[i],
    decreases k,
{
    if k > 0 {
        lemma_by_use_differ(s, k - 1);
        lemma_by_use_len(s, k - 1);
        let before = by_use(s, k - 1);
        let x = s[k - 1];
        lemma_use_rank(before, x.last_used, 0);
        let p = use_rank(before, x.last_used, 0);
        let now = by_use(s, k);
        assert forall|i: int| 0 <= i < now.len() implies exists|j: int| 0 <= j < k && #[trigger] s[j] == #[trigger] now[i] by {
            if i == p {
                assert(s[k - 1] == now[i]);
            } else {
                let i2 = if i < p { i } else { i - 1 };
                let m = choose|m: int| 0 <= m < k - 1 && #[trigger] s[m] == before[i2];
                assert(s[m] == now[i]);
            }
        }
        assert forall|i: int, j: int| 0 <= i < j < now.len() implies (#[trigger] now[i]).inputs@ != (
        #[trigger] now[j]).inputs@ by {
            let i2 = if i < p { i } else { i - 1 };
            let j2 = if j < p { j } else { j - 1 };
            if i == p {
                let m = choose|m: int| 0 <= m < k - 1 && #[trigger] s[m] == before[j2];
                assert(s[m].inputs@ != s[k - 1].inputs@);
            } else if j == p {
                let m = choose|m: int| 0 <= m < k - 1 && #[trigger] s[m] == before[i2];
                assert(s[m].inputs@ != s[k - 1].inputs@);
            } else {
                assert(before[i2].inputs@ != before[j2].inputs@);
            }
        }
    }
}

/// A manifest keeps few entries, and one for each set of inputs at most.
pub proof fn law_one_entry_for_each_input(s: Seq<Entry>, e: Entry)
    requires
        inputs_differ(s),
    ensures
        inputs_differ(upserted(s, e)),
        upserted(s, e).len() <= MAX_ENTRIES,
{
    let rest = other_inputs(s, e.inputs@, s.len() as int);
    lemma_other_inputs(s, e.inputs@, s.len() as int);
    let all = seq![e] + rest;
    assert forall|i: int, j: int| 0 <= i < j < all.len() implies (#[trigger] all[i]).inputs@ != (
    #[trigger] all[j]).inputs@ by {
        if i == 0 {
            assert(rest[j - 1].inputs@ != e.inputs@);
        } else {
            assert(rest[i - 1].inputs@ != rest[j - 1].inputs@);
        }
    }
    if all.len() > MAX_ENTRIES {
        lemma_by_use_differ(all, all.len() as int);
        lemma_by_use_len(all, all.len() as int);
        let sorted = by_use(all, all.len() as int);
        assert forall|i: int, j: int| 0 <= i < j < MAX_ENTRIES implies (#[trigger] upserted(s, e)[i]).inputs@ != (
        #[trigger] upserted(s, e)[j]).inputs@ by {
            assert(sorted[i].inputs@ != sorted[j].inputs@);
        }
    }
}

/// What was just stored comes first, while there is room, and also on a full manifest where nothing was used later.
pub proof fn law_stored_entry_is_found(s: Seq<Entry>, e: Entry)
    requires
        s.len() < MAX_ENTRIES || forall|i: int| 0 <= i < s.len() ==> (#[trigger] s[i]).last_used <= e.last_used,
    ensures
        upserted(s, e).len() > 0,
        upserted(s, e)[0] == e,
{
    lemma_other_len(s, e.inputs@, s.len() as int);
    let rest = other_inputs(s, e.inputs@, s.len() as int);
    let all = seq![e] + rest;
    if all.len() > MAX_ENTRIES {
        lemma_other_members(s, e.inputs@, s.len() as int);
        assert forall|i: int| 0 <= i < all.len() implies (#[trigger] all[i]).last_used <= e.last_used by {
            if i > 0 {
                let m = choose|m: int| 0 <= m < s.len() && #[trigger] s[m] == rest[i - 1];
                assert(s[m].last_used <= e.last_used);
            }
        }
        lemma_latest_first(all, all.len() as int);
        lemma_by_use_len(all, all.len() as int);
    }
}

proof fn lemma_other_members(s: Seq<Entry>, v: ExtraView, k: int)
    requires
        0 <= k <= s.len(),
    ensures
        forall|i: int| 0 <= i < other_inputs(s, v, k).len() ==> exists|m: int| 0 <= m < s.len() && #[trigger] s[m] == #[trigger] other_inputs(s, v, k)[i],
    decreases k,
{
    if k > 0 {
        lemma_other_members(s, v, k - 1);
        let a = other_inputs(s, v, k - 1);
        let b = other_inputs(s, v, k);
        assert forall|i: int| 0 <= i < b.len() implies exists|m: int| 0 <= m < s.len() && #[trigger] s[m] == #[trigger] b[i] by {
            if i < a.len() {
                assert(b[i] == a[i]);
            } else {
                assert(s[k - 1] == b[i]);
            }
        }
    }
}

/// The entry in front that is used latest stays in front.
proof fn lemma_latest_first(all: Seq<Entry>, k: int)
    requires
        1 <= k <= all.len(),
        forall|i: int| 0 <= i < all.len() ==> (#[trigger] all[i]).last_used <= all[0].last_used,
    ensures
        by_use(all, k).len() == k,
        by_use(all, k)[0] == all[0],
    decreases k,
{
    lemma_by_use_len(all, k);
    if k > 1 {
        lemma_latest_first(all, k - 1);
        let before = by_use(all, k - 1);
        let t = all[k - 1].last_used;
        assert(before[0].last_used >= t);
        lemma_use_rank(before, t, 1);
        assert(use_rank(before, t, 0) == use_rank(before, t, 1));
        lemma_use_rank(before, t, 0);
    } else {
        assert(by_use(all, 0) == Seq::<Entry>::empty());
        lemma_use_rank(Seq::<Entry>::empty(), all[0].last_used, 0);
    }
}

proof fn lemma_other_len(s: Seq<Entry>, v: ExtraView, k: int)
    requires
        0 <= k <= s.len(),
    ensures
        other_inputs(s, v, k).len() <= k,
    decreases k,
{
    if k > 0 {
        lemma_other_len(s, v, k - 1);
    }
}

// ---------------------------------------------------------------------------

/// How a store blob lands in `target/`, and the other way around.
#[derive(Clone, Copy, Debug, PartialEq, Eq, Structural)]
pub enum LinkMode {
    /// reflink, then hardlink, then symlink, then copy.
    Auto,
    Reflink,
    Hardlink,
    Symlink,
    Copy,
}

#[derive(Clone, Copy, Debug, PartialEq, Eq, Structural)]
pub enum LinkKind {
    Reflink,
    Hardlink,
    Symlink,
    Copy,
}

pub open spec fn mode_named(s: Seq<char>) -> Option<LinkMode> {
    if s == "auto"@ {
        Some(LinkMode::Auto)
    } else if s == "reflink"@ || s == "clone"@ {
        Some(LinkMode::Reflink)
    } else if s == "hardlink"@ {
        Some(LinkMode::Hardlink)
    } else if s == "symlink"@ {
        Some(LinkMode::Symlink)
    } else if s == "copy"@ {
        Some(LinkMode::Copy)
    } else {
        None
    }
}

impl LinkMode {
    pub open spec fn called(self) -> Seq<char> {
        match self {
            LinkMode::Auto => "auto"@,
            LinkMode::Reflink => "reflink"@,
            LinkMode::Hardlink => "hardlink"@,
            LinkMode::Symlink => "symlink"@,
            LinkMode::Copy => "copy"@,
        }
    }

    pub fn parse(s: &str) -> (r: Result<LinkMode, String>)
        ensures
            match r {
                Ok(m) => mode_named(s@) == Some(m),
                Err(e) => mode_named(s@).is_none() && e@ == "unknown link mode `"@ + s@
                    + "` (expected auto|reflink|hardlink|symlink|copy)"@,
            },
    {
        if same(s, "auto") {
            Ok(LinkMode::Auto)
        } else if same(s, "reflink") || same(s, "clone") {
            Ok(LinkMode::Reflink)
        } else if same(s, "hardlink") {
            Ok(LinkMode::Hardlink)
        } else if same(s, "symlink") {
            Ok(LinkMode::Symlink)
        } else if same(s, "copy") {
            Ok(LinkMode::Copy)
        } else {
            Err(cat3("unknown link mode `", s, "` (expected auto|reflink|hardlink|symlink|copy)"))
        }
    }

    pub fn name(self) -> (r: &'static str)
        ensures
            r@ == self.called(),
    {
        match self {
            LinkMode::Auto => "auto",
            LinkMode::Reflink => "reflink",
            LinkMode::Hardlink => "hardlink",
            LinkMode::Symlink => "symlink",
            LinkMode::Copy => "copy",
        }
    }
}

/// A mode is read back from its name.
pub proof fn law_link_mode_round_trip(m: LinkMode)
    ensures
        mode_named(m.called()) == Some(m),
{
    reveal_strlit("auto");
    reveal_strlit("reflink");
    reveal_strlit("hardlink");
    reveal_strlit("symlink");
    reveal_strlit("copy");
    reveal_strlit("clone");
    assert("auto"@.len() == 4 && "copy"@.len() == 4 && "clone"@.len() == 5 && "reflink"@.len() == 7
        && "symlink"@.len() == 7 && "hardlink"@.len() == 8);
    assert("auto"@[0] == 'a' && "copy"@[0] == 'c' && "reflink"@[0] == 'r' && "symlink"@[0] == 's' && "hardlink"@[0]
        == 'h' && "clone"@[0] == 'c');
}

impl LinkKind {
    pub open spec fn mode(self) -> LinkMode {
        match self {
            LinkKind::Reflink => LinkMode::Reflink,
            LinkKind::Hardlink => LinkMode::Hardlink,
            LinkKind::Symlink => LinkMode::Symlink,
            LinkKind::Copy => LinkMode::Copy,
        }
    }

    pub fn as_mode(self) -> (r: LinkMode)
        ensures
            r == self.mode(),
    {
        match self {
            LinkKind::Reflink => LinkMode::Reflink,
            LinkKind::Hardlink => LinkMode::Hardlink,
            LinkKind::Symlink => LinkMode::Symlink,
            LinkKind::Copy => LinkMode::Copy,
        }
    }
}

/// What is tried, in turn.
pub open spec fn strategies(mode: LinkMode, allow_symlink: bool) -> Seq<LinkKind> {
    match mode {
        LinkMode::Auto => if allow_symlink {
            seq![LinkKind::Reflink, LinkKind::Hardlink, LinkKind::Symlink, LinkKind::Copy]
        } else {
            seq![LinkKind::Reflink, LinkKind::Hardlink, LinkKind::Copy]
        },
        LinkMode::Reflink => seq![LinkKind::Reflink, LinkKind::Copy],
        LinkMode::Hardlink => seq![LinkKind::Hardlink, LinkKind::Copy],
        LinkMode::Symlink => if allow_symlink {
            seq![LinkKind::Symlink, LinkKind::Copy]
        } else {
            seq![LinkKind::Copy]
        },
        LinkMode::Copy => seq![LinkKind::Copy],
    }
}

pub fn chain(mode: LinkMode, allow_symlink: bool) -> (r: Vec<LinkKind>)
    ensures
        r@ == strategies(mode, allow_symlink),
{
    let mut r: Vec<LinkKind> = Vec::new();
    if mode == LinkMode::Auto || mode == LinkMode::Reflink {
        r.push(LinkKind::Reflink);
    }
    if mode == LinkMode::Auto || mode == LinkMode::Hardlink {
        r.push(LinkKind::Hardlink);
    }
    if allow_symlink && (mode == LinkMode::Auto || mode == LinkMode::Symlink) {
        r.push(LinkKind::Symlink);
    }
    r.push(LinkKind::Copy);
    assert(r@ =~= strategies(mode, allow_symlink));
    r
}

/// What came of trying a strategy.
#[derive(Clone, Copy, Debug, PartialEq, Eq, Structural)]
pub enum Attempt {
    Done,
    /// Something is already there.
    Exists,
    Failed,
}

/// What to do next to put a file somewhere.
#[derive(Clone, Copy, Debug, PartialEq, Eq, Structural)]
pub enum Step {
    Try(LinkKind),
    Placed(LinkKind),
    /// The last attempt's error counts.
    GiveUp,
}

/// The strategies are tried in turn until one works. What is already there stays.
pub open spec fn next_step(kinds: Seq<LinkKind>, tried: Seq<Attempt>, k: int) -> Step
    decreases kinds.len() - k,
{
    if k < 0 || k >= kinds.len() {
        Step::GiveUp
    } else if k >= tried.len() {
        Step::Try(kinds[k])
    } else {
        match tried[k] {
            Attempt::Done => Step::Placed(kinds[k]),
            Attempt::Exists => Step::GiveUp,
            Attempt::Failed => next_step(kinds, tried, k + 1),
        }
    }
}

/// What to do after those attempts.
pub fn place(mode: LinkMode, allow_symlink: bool, tried: &Vec<Attempt>) -> (r: Step)
    ensures
        r == next_step(strategies(mode, allow_symlink), tried@, 0),
{
    let kinds = chain(mode, allow_symlink);
    let mut k: usize = 0;
    while k < kinds.len()
        invariant
            k <= kinds@.len(),
            next_step(kinds@, tried@, 0) == next_step(kinds@, tried@, k as int),
            kinds@ == strategies(mode, allow_symlink),
        decreases kinds@.len() - k,
    {
        if k >= tried.len() {
            return Step::Try(kinds[k]);
        }
        match tried[k] {
            Attempt::Done => {
                return Step::Placed(kinds[k]);
            }
            Attempt::Exists => {
                return Step::GiveUp;
            }
            Attempt::Failed => {}
        }
        k += 1;
    }
    Step::GiveUp
}

/// Whatever the mode, copying is the last resort.
pub proof fn law_copy_is_the_last_resort(mode: LinkMode, allow_symlink: bool)
    ensures
        strategies(mode, allow_symlink).last() == LinkKind::Copy,
        !allow_symlink ==> !strategies(mode, allow_symlink).contains(LinkKind::Symlink),
{
}

/// The strategy that a probe found to work between two directories.
pub fn probe(worked: &Vec<bool>) -> (r: LinkKind)
    requires
        worked@.len() == 4,
    ensures
        r == if worked@[0] {
            LinkKind::Reflink
        } else if worked@[1] {
            LinkKind::Hardlink
        } else if worked@[2] {
            LinkKind::Symlink
        } else {
            LinkKind::Copy
        },
{
    let kinds = chain(LinkMode::Auto, true);
    let mut k: usize = 0;
    while k < kinds.len()
        invariant
            k <= kinds@.len(),
            kinds@ == strategies(LinkMode::Auto, true),
            worked@.len() == 4,
            forall|j: int| 0 <= j < k ==> !#[trigger] worked@[j],
        decreases kinds@.len() - k,
    {
        if worked[k] {
            return kinds[k];
        }
        k += 1;
    }
    LinkKind::Copy
}

/// Proc-macros and other libs rustc loads into itself. macOS checks code once per inode, so a fresh copy
/// costs seconds. Hardlink, never compress.
pub open spec fn loadable(name: Seq<char>) -> bool {
    ends(name, ".dylib"@) || ends(name, ".so"@) || ends(name, ".dll"@)
}

pub fn is_loadable(name: &str) -> (r: bool)
    ensures
        r == loadable(name@),
{
    ends_with(name, ".dylib") || ends_with(name, ".so") || ends_with(name, ".dll")
}

/// The first two bytes.
pub open spec fn shard_of(digest: Seq<char>) -> Seq<char> {
    head_bytes(digest, 2)
}

fn shard(digest: &str) -> (r: String)
    ensures
        r@ == shard_of(digest@),
{
    head_of(digest, 2)
}

/// The name of some content: its hash.
pub fn hash_bytes(bytes: &Vec<u8>) -> (r: String)
    ensures
        r@ == hex_of(blake3_of(bytes@)),
{
    to_hex(&hash(bytes))
}

#[derive(Debug)]
pub struct Store {
    root: String,
    /// Bytes this handle wrote. The cap sees growth without walking `cas/` after every build.
    ingested: u64,
}

pub struct StoreView {
    pub root: Seq<char>,
    pub ingested: u64,
}

impl View for Store {
    type V = StoreView;

    closed spec fn view(&self) -> StoreView {
        StoreView { root: self.root@, ingested: self.ingested }
    }
}

impl StoreView {
    pub open spec fn blob(self, digest: Seq<char>) -> Seq<char> {
        under(under(under(self.root, "cas"@), shard_of(digest)), digest)
    }

    pub open spec fn zst(self, digest: Seq<char>) -> Seq<char> {
        self.blob(digest) + ".zst"@
    }
}

/// How a blob gets to its place.
#[derive(Debug)]
pub struct Placement {
    pub from: String,
    pub mode: LinkMode,
}

/// What the size of the store is taken to be.
#[derive(Clone, Copy, Debug, PartialEq, Eq, Structural)]
pub enum Size {
    /// Known, counted at that time.
    Known { bytes: u64, at: u64 },
    /// It has to be counted anew.
    Count,
}

/// How a file gets to a place. A library that is loaded is not cloned: a fresh copy of one costs seconds on some systems.
pub open spec fn mode_for(dst: Seq<char>, mode: LinkMode) -> LinkMode {
    if (mode is Auto || mode is Reflink) && match base_name(dst) {
        Some(n) => loadable(n),
        None => false,
    } {
        LinkMode::Hardlink
    } else {
        mode
    }
}

proof fn lemma_last_part(a: Seq<char>, x: Seq<char>, b: Seq<char>, y: Seq<char>)
    requires
        a.len() > 0 && a.last() == '/',
        b.len() > 0 && b.last() == '/',
        !x.contains('/'),
        !y.contains('/'),
        a + x == b + y,
    ensures
        x == y,
{
    let s = a + x;
    assert(s.len() == a.len() + x.len() && (b + y).len() == b.len() + y.len());
    if x.len() < y.len() {
        let i = a.len() - 1;
        assert(s[i] == '/');
        assert((b + y)[i] == y[i - b.len()]);
        assert(y.contains(y[i - b.len()]));
    } else if y.len() < x.len() {
        let i = b.len() - 1;
        assert((b + y)[i] == '/');
        assert(s[i] == x[i - a.len()]);
        assert(x.contains(x[i - a.len()]));
    } else {
        assert(x =~= y) by {
            assert forall|i: int| 0 <= i < x.len() implies x[i] == y[i] by {
                assert(s[a.len() + i] == x[i]);
                assert((b + y)[b.len() + i] == y[i]);
            }
        }
    }
}

/// Each digest has a path of its own.
pub proof fn law_each_blob_has_its_path(s: StoreView, x: Seq<char>, y: Seq<char>)
    requires
        !x.contains('/'),
        !y.contains('/'),
        s.blob(x) == s.blob(y),
    ensures
        x == y,
{
    reveal_strlit("cas");
    reveal_strlit("/");
    let c = under(s.root, "cas"@);
    let a = under(c, shard_of(x));
    let b = under(c, shard_of(y));
    assert(c.len() > 0);
    assert(!crate::path::absolute(x)) by {
        if crate::path::absolute(x) {
            assert(x.contains(x[0]));
        }
    }
    assert(!crate::path::absolute(y)) by {
        if crate::path::absolute(y) {
            assert(y.contains(y[0]));
        }
    }
    assert(!crate::path::absolute(shard_of(x))) by {
        if crate::path::absolute(shard_of(x)) {
            assert(shard_of(x)[0] == x[0]);
            assert(x.contains(x[0]));
        }
    }
    assert(!crate::path::absolute(shard_of(y))) by {
        if crate::path::absolute(shard_of(y)) {
            assert(shard_of(y)[0] == y[0]);
            assert(y.contains(y[0]));
        }
    }
    let p = if a.last() == '/' {
        a
    } else {
        a + "/"@
    };
    let q = if b.last() == '/' {
        b
    } else {
        b + "/"@
    };
    assert(a.len() > 0 && b.len() > 0);
    assert(s.blob(x) == p + x);
    assert(s.blob(y) == q + y);
    lemma_last_part(p, x, q, y);
}

/// A loadable library is hardlinked, or copied where that fails, when the mode leaves it open or asks for clones.
pub proof fn law_loadable_libraries_are_hardlinked(dst: Seq<char>, mode: LinkMode, allow_symlink: bool, tried: Seq<Attempt>)
    requires
        base_name(dst) matches Some(n) && loadable(n),
        mode is Auto || mode is Reflink,
    ensures
        match next_step(strategies(mode_for(dst, mode), allow_symlink), tried, 0) {
            Step::Placed(k) => k is Hardlink || k is Copy,
            Step::Try(k) => k is Hardlink || k is Copy,
            Step::GiveUp => true,
        },
{
    reveal_with_fuel(next_step, 4);
}

// ---------------------------------------------------------------------------
// The size of the store, and what is queued for removal.

/// The count that a text holds, and when it was made.
pub open spec fn size_in(text: Option<Seq<char>>) -> Option<(u64, u64)> {
    match text {
        Some(t) => match json_of(t) {
            Some(j) => match (number_in(member(j, "bytes"@)), number_in(member(j, "at"@))) {
                (Some(bytes), Some(at)) => Some((bytes, at)),
                _ => None,
            },
            None => None,
        },
        None => None,
    }
}

/// The last count, and when it was made, from the text of the file that holds it.
pub fn read_size(text: Option<&str>) -> (r: Option<(u64, u64)>)
    ensures
        r == size_in(opt_text(text)),
{
    match text {
        Some(t) => match read_json(t) {
            Some(j) => match (number_at(&j, "bytes"), number_at(&j, "at")) {
                (Some(bytes), Some(at)) => Some((bytes, at)),
                _ => None,
            },
            None => None,
        },
        None => None,
    }
}

pub open spec fn size_json(bytes: u64, at: u64) -> JsonTree {
    JsonTree::Object(
        seq![("at"@, JsonTree::Number(dec(at as nat))), ("bytes"@, JsonTree::Number(dec(bytes as nat)))],
    )
}

/// What is written of a count. It is read back as it was.
pub fn size_text(bytes: u64, at: u64) -> (r: String)
    ensures
        r@ == json_text(size_json(bytes, at)),
        size_in(Some(r@)) == Some((bytes, at)),
{
    let mut l: Vec<(String, Json)> = Vec::new();
    l.push(("at".to_owned(), Json::Number(u64_text(at))));
    l.push(("bytes".to_owned(), Json::Number(u64_text(bytes))));
    let ghost want = seq![("at"@, JsonTree::Number(dec(at as nat))), ("bytes"@, JsonTree::Number(dec(bytes as nat)))];
    assert(json_entries(l@) =~= want);
    let j = Json::Object(l);
    let r = write_json(&j);
    proof {
        reveal_strlit("at");
        reveal_strlit("bytes");
        reveal(crate::value::at);
        reveal_with_fuel(crate::value::entry_at, 3);
        crate::num::law_decimal_reads_back(at);
        crate::num::law_decimal_reads_back(bytes);
        assert("at"@[0] != "bytes"@[0]);
        assert(before("at"@, "bytes"@));
        lemma_keys_ascend(want);
        assert(crate::json::plain(j@, 100)) by {
            assert forall|i: int| 0 <= i < want.len() implies crate::json::plain((#[trigger] want[i]).1, 99) by {
                crate::json::lemma_plain_number(at, 99);
                crate::json::lemma_plain_number(bytes, 99);
            }
        }
    }
    r
}

/// The keys that a text lists; none where it is no list of texts.
pub open spec fn removals_in(text: Seq<char>) -> Seq<Seq<char>> {
    match json_of(text) {
        Some(j) => match list_of(j) {
            Some(l) => l,
            None => Seq::empty(),
        },
        None => Seq::empty(),
    }
}

/// The keys to remove that a file of the queue lists.
pub fn read_removals(text: &str) -> (r: Vec<String>)
    ensures
        views(r@) == removals_in(text@),
{
    let none: Vec<String> = Vec::new();
    assert(views(none@) =~= Seq::<Seq<char>>::empty());
    match read_json(text) {
        Some(j) => match read_texts(&j) {
            Some(l) => l,
            None => none,
        },
        None => none,
    }
}

pub open spec fn removals_json(keys: Seq<Seq<char>>) -> JsonTree {
    JsonTree::Array(Seq::new(keys.len(), |i: int| JsonTree::Str(keys[i])))
}

proof fn lemma_removals(keys: Seq<Seq<char>>, n: int)
    requires
        0 <= n <= keys.len(),
    ensures
        texts_upto(Seq::new(keys.len(), |i: int| JsonTree::Str(keys[i])), n) == Some(keys.take(n)),
    decreases n,
{
    if n > 0 {
        lemma_removals(keys, n - 1);
        assert(keys.take(n) =~= keys.take(n - 1).push(keys[n - 1]));
    } else {
        assert(keys.take(0) =~= Seq::<Seq<char>>::empty());
    }
}

/// What is written of keys to remove. They are read back as they were.
pub fn removals_text(keys: &Vec<String>) -> (r: String)
    ensures
        r@ == json_text(removals_json(views(keys@))),
        removals_in(r@) == views(keys@),
{
    let ghost want = views(keys@);
    let mut l: Vec<Json> = Vec::new();
    let mut k: usize = 0;
    while k < keys.len()
        invariant
            k <= keys@.len(),
            want == views(keys@),
            l@.len() == k,
            forall|i: int| 0 <= i < k ==> (#[trigger] l@[i])@ == JsonTree::Str(want[i]),
        decreases keys@.len() - k,
    {
        assert(want[k as int] == keys@[k as int]@);
        l.push(Json::Str(keys[k].clone()));
        k += 1;
    }
    assert(json_trees(l@) =~= Seq::new(want.len(), |i: int| JsonTree::Str(want[i])));
    let j = Json::Array(l);
    let r = write_json(&j);
    proof {
        assert(j@ == removals_json(want));
        let items = Seq::new(want.len(), |i: int| JsonTree::Str(want[i]));
        assert forall|i: int| 0 <= i < items.len() implies crate::json::plain(#[trigger] items[i], 99) by {}
        assert(crate::json::plain(j@, 100));
        lemma_removals(want, want.len() as int);
        assert(want.take(want.len() as int) =~= want);
    }
    r
}

impl Store {
    pub fn open(root: &str) -> (r: Store)
        ensures
            r@ == (StoreView { root: under(root@, STORE_VERSION@), ingested: 0 }),
    {
        Store { root: join(root, STORE_VERSION), ingested: 0 }
    }

    pub fn root(&self) -> (r: &str)
        ensures
            r@ == self@.root,
    {
        self.root.as_str()
    }

    pub fn tmp_dir(&self) -> (r: String)
        ensures
            r@ == under(self@.root, "tmp"@),
    {
        join(self.root.as_str(), "tmp")
    }

    pub fn blob_path(&self, digest: &str) -> (r: String)
        ensures
            r@ == self@.blob(digest@),
    {
        join(join(join(self.root.as_str(), "cas").as_str(), shard(digest).as_str()).as_str(), digest)
    }

    pub fn manifest_path(&self, key: &str) -> (r: String)
        ensures
            r@ == under(under(under(self@.root, "units"@), shard_of(key@)), key@ + ".json"@),
    {
        join(join(join(self.root.as_str(), "units").as_str(), shard(key).as_str()).as_str(), cat(key, ".json").as_str())
    }

    pub fn lock_path(&self, key: &str) -> (r: String)
        ensures
            r@ == under(under(under(self@.root, "locks"@), shard_of(key@)), key@ + ".lock"@),
    {
        join(join(join(self.root.as_str(), "locks").as_str(), shard(key).as_str()).as_str(), cat(key, ".lock").as_str())
    }

    /// Compressed form, for a blob no project has materialized. Expanded on the first link.
    pub fn zst_path(&self, digest: &str) -> (r: String)
        ensures
            r@ == self@.zst(digest@),
    {
        cat(self.blob_path(digest).as_str(), ".zst")
    }

    /// Whether the blob is among the files that exist, plain or compressed.
    pub fn has_blob(&self, digest: &str, files: &StrSet) -> (r: bool)
        ensures
            r == (files@.contains(self@.blob(digest@)) || files@.contains(self@.zst(digest@))),
    {
        files.contains(self.blob_path(digest).as_str()) || files.contains(self.zst_path(digest).as_str())
    }

    /// Whether the compressed form has to be expanded before the blob can be linked.
    pub fn must_expand(&self, digest: &str, files: &StrSet) -> (r: bool)
        ensures
            r == (!files@.contains(self@.blob(digest@)) && files@.contains(self@.zst(digest@))),
    {
        !files.contains(self.blob_path(digest).as_str()) && files.contains(self.zst_path(digest).as_str())
    }

    /// Where a blob is linked from, and how. A library that rustc loads is hardlinked.
    pub fn materialize(&self, digest: &str, dst: &str, mode: LinkMode) -> (r: Placement)
        ensures
            r.from@ == self@.blob(digest@),
            r.mode == mode_for(dst@, mode),
    {
        let library: bool = match file_name(dst) {
            Some(n) => is_loadable(n.as_str()),
            None => false,
        };
        let soft: bool = match mode {
            LinkMode::Auto | LinkMode::Reflink => true,
            _ => false,
        };
        Placement {
            from: self.blob_path(digest),
            mode: if library && soft {
                LinkMode::Hardlink
            } else {
                mode
            },
        }
    }

    /// The manifest of one key, with the entries of another added.
    pub fn alias(from: UnitManifest, to: Option<UnitManifest>, key: &str) -> (r: UnitManifest)
        ensures
            r.key@ == match to {
                Some(m) => m.key@,
                None => key@,
            },
            r.entries@ == upserted_all(
                match to {
                    Some(m) => m.entries@,
                    None => Seq::empty(),
                },
                from.entries@,
                0,
            ),
    {
        let mut dst: UnitManifest = match to {
            Some(m) => m,
            None => UnitManifest { key: key.to_owned(), entries: Vec::new() },
        };
        let ghost start = dst.entries@;
        let ghost all = from.entries@;
        let ghost k0 = dst.key;
        let mut rest = from.entries;
        assert(all.take(all.len() as int) =~= all);
        while rest.len() > 0
            invariant
                rest@.len() <= all.len(),
                rest@ == all.take(rest@.len() as int),
                dst.key == k0,
                dst.entries@ == upserted_all(start, all, rest@.len() as int),
            decreases rest@.len(),
        {
            let ghost n = rest@.len();
            if let Some(e) = rest.pop() {
                assert(e == all[n - 1]);
                assert(rest@ =~= all.take(n - 1));
                dst.upsert(e);
            }
        }
        dst
    }

    /// How many bytes this handle wrote since the last count.
    pub fn ingested(&self) -> (r: u64)
        ensures
            r == self@.ingested,
    {
        self.ingested
    }

    /// Last full count plus what this handle added. Recounted hourly. Other processes can under-count
    /// until then. The cap is soft.
    pub fn approx_bytes(&mut self, cached: Option<(u64, u64)>, now: u64) -> (r: Size)
        requires
            match cached {
                Some((bytes, _)) => bytes + old(self)@.ingested <= u64::MAX,
                None => true,
            },
        ensures
            final(self)@ == (StoreView { ingested: 0, ..old(self)@ }),
            r == match cached {
                Some((bytes, at)) => if now - at < 3600 {
                    Size::Known { bytes: (bytes + old(self)@.ingested) as u64, at }
                } else {
                    Size::Count
                },
                None => Size::Count,
            },
    {
        let added: u64 = self.ingested;
        self.ingested = 0;
        match cached {
            Some((bytes, at)) => if now < at || now - at < 3600 {
                Size::Known { bytes: bytes + added, at }
            } else {
                Size::Count
            },
            None => Size::Count,
        }
    }

    /// A new count.
    pub fn set_approx_bytes(&mut self, bytes: u64, now: u64) -> (r: Size)
        ensures
            final(self)@ == (StoreView { ingested: 0, ..old(self)@ }),
            r == (Size::Known { bytes, at: now }),
    {
        self.ingested = 0;
        Size::Known { bytes, at: now }
    }

    /// A blob of that many bytes was added.
    pub fn added(&mut self, bytes: u64)
        ensures
            final(self)@ == (StoreView {
                ingested: if old(self)@.ingested + bytes > u64::MAX {
                    u64::MAX
                } else {
                    (old(self)@.ingested + bytes) as u64
                },
                ..old(self)@
            }),
    {
        self.ingested = if bytes > u64::MAX - self.ingested {
            u64::MAX
        } else {
            self.ingested + bytes
        };
    }
}

/// The entries from `k` on are left out; the others are put in, the last first.
pub open spec fn upserted_all(s: Seq<Entry>, more: Seq<Entry>, k: int) -> Seq<Entry>
    decreases more.len() - k,
{
    if k < 0 || k >= more.len() {
        s
    } else {
        upserted(upserted_all(s, more, k + 1), more[k])
    }
}

/// The permissions of a file that a blob was copied to: copies can be writable. The blob stays read-only.
pub fn copy_permissions(kind: LinkKind, executable: bool) -> (r: Option<u32>)
    ensures
        r == match kind {
            LinkKind::Reflink | LinkKind::Copy => Some(
                if executable {
                    0o755u32
                } else {
                    0o644u32
                },
            ),
            _ => None,
        },
{
    match kind {
        LinkKind::Reflink | LinkKind::Copy => Some(
            if executable {
                0o755
            } else {
                0o644
            },
        ),
        _ => None,
    }
}

/// How a file gets into the store: what rustc loads by hardlink.
pub fn staging_mode(src: &str) -> (r: LinkMode)
    ensures
        r == if match base_name(src@) {
            Some(n) => loadable(n),
            None => false,
        } {
            LinkMode::Hardlink
        } else {
            LinkMode::Auto
        },
{
    match file_name(src) {
        Some(n) => if is_loadable(n.as_str()) {
            LinkMode::Hardlink
        } else {
            LinkMode::Auto
        },
        None => LinkMode::Auto,
    }
}

/// Whether the compressed form is kept: it saves at least a tenth.
pub fn worth_compressing(plain: u64, packed: u64) -> (r: bool)
    ensures
        r == (packed <= plain / 10 * 9),
{
    packed <= plain / 10 * 9
}

} // verus!
