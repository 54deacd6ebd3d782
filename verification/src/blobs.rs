//! What happens to blobs on disk: they are put in, packed while no project has them, unpacked again, and linked from.

use vstd::prelude::*;
use crate::hash::blake3_of;
use crate::hash::hex_of;
use crate::store::LinkKind;
use crate::store::Store;
use crate::store::StoreView;
use crate::store::hash_bytes;
use crate::store::worth_compressing;
use crate::strmap::StrSet;

verus! {

/// A file: what it holds, or what its packed form stands for, and how it may be used.
pub struct FileView {
    pub bytes: Seq<u8>,
    pub packed: bool,
    pub executable: bool,
    pub read_only: bool,
}

/// The files that are there, by their paths.
pub type Disk = Map<Seq<char>, FileView>;

/// A step on disk.
#[derive(Debug)]
pub enum Act {
    /// New content goes to a path, for reading only.
    Write { to: String, executable: bool },
    /// The packed form of a file goes to a path, for reading only.
    Pack { from: String, to: String },
    /// What a packed file stands for goes to a path, for reading only.
    Unpack { from: String, to: String },
    Remove { path: String },
}

/// The files after a step. `new` is the content that is written.
pub open spec fn after(d: Disk, a: Act, new: Seq<u8>) -> Disk {
    match a {
        Act::Write { to, executable } => d.insert(to@, FileView { bytes: new, packed: false, executable, read_only: true }),
        Act::Pack { from, to } => d.insert(to@, FileView { packed: true, read_only: true, ..d[from@] }),
        Act::Unpack { from, to } => d.insert(to@, FileView { packed: false, read_only: true, ..d[from@] }),
        Act::Remove { path } => d.remove(path@),
    }
}

/// The files after the first `n` steps.
pub open spec fn after_upto(d: Disk, l: Seq<Act>, new: Seq<u8>, n: int) -> Disk
    decreases n,
{
    if n <= 0 || n > l.len() {
        d
    } else {
        after(after_upto(d, l, new, n - 1), l[n - 1], new)
    }
}

pub open spec fn after_all(d: Disk, l: Seq<Act>, new: Seq<u8>) -> Disk {
    after_upto(d, l, new, l.len() as int)
}

/// What is known of the two forms of a blob agrees with what is there.
pub open spec fn is_known(s: StoreView, d: Disk, files: Set<Seq<char>>, digest: Seq<char>) -> bool {
    &&& d.contains_key(s.blob(digest)) == files.contains(s.blob(digest))
    &&& d.contains_key(s.zst(digest)) == files.contains(s.zst(digest))
}

/// The name of some content.
pub open spec fn digest_of(bytes: Seq<u8>) -> Seq<char> {
    hex_of(blake3_of(bytes))
}

/// The files once some content is in the store: it is put in where its name is not there in either form.
pub open spec fn ingested(s: StoreView, d: Disk, bytes: Seq<u8>, executable: bool) -> Disk {
    let digest = digest_of(bytes);
    if d.contains_key(s.blob(digest)) || d.contains_key(s.zst(digest)) {
        d
    } else {
        d.insert(s.blob(digest), FileView { bytes, packed: false, executable, read_only: true })
    }
}

/// The files once a blob is packed, where it is there and its packed form is worth it.
pub open spec fn packed(s: StoreView, d: Disk, digest: Seq<char>, plain: u64, size: u64) -> Disk {
    if d.contains_key(s.blob(digest)) && size <= plain / 10 * 9 {
        d.insert(s.zst(digest), FileView { packed: true, read_only: true, ..d[s.blob(digest)] }).remove(s.blob(digest))
    } else {
        d
    }
}

/// The files once a blob is there in its plain form, if it is there at all.
pub open spec fn expanded(s: StoreView, d: Disk, digest: Seq<char>) -> Disk {
    if !d.contains_key(s.blob(digest)) && d.contains_key(s.zst(digest)) {
        d.insert(s.blob(digest), FileView { packed: false, read_only: true, ..d[s.zst(digest)] }).remove(s.zst(digest))
    } else {
        d
    }
}

/// The files once one got to a place in a certain way. Copies can be writable; what is linked stays as it is.
pub open spec fn placed(d: Disk, from: Seq<char>, to: Seq<char>, kind: LinkKind, executable: bool) -> Disk {
    d.insert(
        to,
        if kind is Reflink || kind is Copy {
            FileView { executable, read_only: false, ..d[from] }
        } else {
            d[from]
        },
    )
}

/// The files once a blob is at a place.
pub open spec fn materialized(s: StoreView, d: Disk, digest: Seq<char>, dst: Seq<char>, kind: LinkKind, executable: bool) -> Disk {
    placed(expanded(s, d, digest), s.blob(digest), dst, kind, executable)
}

proof fn lemma_two_forms(s: StoreView, digest: Seq<char>)
    ensures
        s.blob(digest) != s.zst(digest),
{
    reveal_strlit(".zst");
    assert(s.zst(digest).len() == s.blob(digest).len() + 4);
}

impl Store {
    /// The name of some content, and what puts it into the store. `files`: which forms of it are there.
    pub fn ingest_bytes(&self, bytes: &Vec<u8>, executable: bool, files: &StrSet) -> (r: (String, Vec<Act>))
        ensures
            r.0@ == digest_of(bytes@),
            forall|d: Disk| #[trigger]
                is_known(self@, d, files@, digest_of(bytes@)) ==> after_all(d, r.1@, bytes@) == ingested(self@, d, bytes@, executable),
    {
        let digest = hash_bytes(bytes);
        let acts = self.ingest(digest.as_str(), executable, files);
        (digest, acts)
    }

    /// What puts content of that name into the store.
    pub fn ingest(&self, digest: &str, executable: bool, files: &StrSet) -> (r: Vec<Act>)
        ensures
            forall|d: Disk, new: Seq<u8>|
                #![trigger is_known(self@, d, files@, digest@), digest_of(new)]
                is_known(self@, d, files@, digest@) && digest_of(new) == digest@ ==> after_all(d, r@, new) == ingested(
                    self@,
                    d,
                    new,
                    executable,
                ),
    {
        let mut acts: Vec<Act> = Vec::new();
        if !self.has_blob(digest, files) {
            acts.push(Act::Write { to: self.blob_path(digest), executable });
        }
        proof {
            reveal_with_fuel(after_upto, 2);
        }
        acts
    }

    /// What packs a blob. `plain` and `size`: how long it is, and its packed form.
    pub fn compress(&self, digest: &str, plain: u64, size: u64, files: &StrSet) -> (r: Vec<Act>)
        ensures
            forall|d: Disk, new: Seq<u8>|
                #![trigger is_known(self@, d, files@, digest@), after_all(d, r@, new)]
                is_known(self@, d, files@, digest@) ==> after_all(d, r@, new) == packed(self@, d, digest@, plain, size),
    {
        let mut acts: Vec<Act> = Vec::new();
        let from = self.blob_path(digest);
        if files.contains(from.as_str()) && worth_compressing(plain, size) {
            acts.push(Act::Pack { from: self.blob_path(digest), to: self.zst_path(digest) });
            acts.push(Act::Remove { path: from });
        }
        proof {
            reveal_with_fuel(after_upto, 3);
        }
        acts
    }

    /// What unpacks a blob that is only there in its packed form.
    pub fn expand(&self, digest: &str, files: &StrSet) -> (r: Vec<Act>)
        ensures
            forall|d: Disk, new: Seq<u8>|
                #![trigger is_known(self@, d, files@, digest@), after_all(d, r@, new)]
                is_known(self@, d, files@, digest@) ==> after_all(d, r@, new) == expanded(self@, d, digest@),
    {
        let mut acts: Vec<Act> = Vec::new();
        if self.must_expand(digest, files) {
            acts.push(Act::Unpack { from: self.zst_path(digest), to: self.blob_path(digest) });
            acts.push(Act::Remove { path: self.zst_path(digest) });
        }
        proof {
            reveal_with_fuel(after_upto, 3);
        }
        acts
    }
}

/// What is put into the store is what a project gets, whether it was packed in between or not, and by whatever way it gets
/// to its place: the bytes there are those that were put in, the blob holds them for reading only, and no packed form is
/// left. What the store held under that name before is taken to be the same.
pub proof fn law_what_is_put_in_comes_out(
    s: StoreView,
    before: Disk,
    bytes: Seq<u8>,
    executable: bool,
    pack: bool,
    plain: u64,
    size: u64,
    dst: Seq<char>,
    kind: LinkKind,
    exec: bool,
)
    requires
        before.contains_key(s.blob(digest_of(bytes))) ==> before[s.blob(digest_of(bytes))].bytes == bytes
            && before[s.blob(digest_of(bytes))].read_only && !before.contains_key(s.zst(digest_of(bytes))),
        before.contains_key(s.zst(digest_of(bytes))) ==> before[s.zst(digest_of(bytes))].bytes == bytes,
        dst != s.blob(digest_of(bytes)),
        dst != s.zst(digest_of(bytes)),
    ensures
        ({
            let digest = digest_of(bytes);
            let kept = ingested(s, before, bytes, executable);
            let waiting = if pack {
                packed(s, kept, digest, plain, size)
            } else {
                kept
            };
            let d = materialized(s, waiting, digest, dst, kind, exec);
            &&& d.contains_key(dst) && d[dst].bytes == bytes
            &&& d.contains_key(s.blob(digest)) && d[s.blob(digest)].bytes == bytes && d[s.blob(digest)].read_only
            &&& !d.contains_key(s.zst(digest))
            &&& !before.contains_key(s.blob(digest)) && !before.contains_key(s.zst(digest)) ==> d[s.blob(digest)].executable == executable
        }),
{
    lemma_two_forms(s, digest_of(bytes));
}

/// Other files stay as they were while a blob is put in, packed, unpacked or linked from.
pub proof fn law_other_files_stay(
    s: StoreView,
    d: Disk,
    bytes: Seq<u8>,
    executable: bool,
    digest: Seq<char>,
    plain: u64,
    size: u64,
    dst: Seq<char>,
    kind: LinkKind,
    other: Seq<char>,
)
    requires
        other != s.blob(digest_of(bytes)),
        other != s.blob(digest),
        other != s.zst(digest),
        other != dst,
    ensures
        ingested(s, d, bytes, executable).contains_key(other) == d.contains_key(other),
        packed(s, d, digest, plain, size).contains_key(other) == d.contains_key(other),
        materialized(s, d, digest, dst, kind, executable).contains_key(other) == d.contains_key(other),
        ingested(s, d, bytes, executable)[other] == d[other] || !d.contains_key(other),
        packed(s, d, digest, plain, size)[other] == d[other] || !d.contains_key(other),
        materialized(s, d, digest, dst, kind, executable)[other] == d[other] || !d.contains_key(other),
{
}

} // verus!
