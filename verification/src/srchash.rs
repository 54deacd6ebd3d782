//! Content hashes for path packages. An index by time, size and inode, so unchanged files aren't read again.

use vstd::prelude::*;
use vstd::utf8::encode_utf8;
use crate::hash::add_text;
use crate::hash::blake3_of;
use crate::hash::hash;
use crate::hash::hex_of;
use crate::hash::to_hex;
use crate::manifest::Spot;
use crate::manifest::SpotView;
use crate::path::inside;
use crate::path::starts_with;
use crate::run::shown;
use crate::run::shown_path;
use crate::sort::in_order;
use crate::sort::sort;
use crate::strmap::StrMap;
use crate::strmap::listed;
use crate::text::opt_view;
use crate::text::same;
use crate::text::views;

verus! {

/// What tells that a file is still the one that was read.
#[derive(Clone, Copy, Debug)]
pub struct Stamp {
    pub mtime_ns: i128,
    pub size: u64,
    pub ino: u64,
}

/// The hash of a file, and the file that it is of.
#[derive(Debug)]
pub struct Known {
    pub stamp: Stamp,
    pub hash: String,
}

pub type KnownView = (Stamp, Seq<char>);

pub open spec fn known_view(k: Known) -> KnownView {
    (k.stamp, k.hash@)
}

pub struct SourceHasher {
    index: StrMap<Known>,
    trees: StrMap<String>,
    dirty: bool,
    exclude: Vec<String>,
}

pub struct HasherView {
    pub index: Map<Seq<char>, KnownView>,
    pub trees: Map<Seq<char>, Seq<char>>,
    pub dirty: bool,
    pub exclude: Seq<Seq<char>>,
}

impl View for SourceHasher {
    type V = HasherView;

    closed spec fn view(&self) -> HasherView {
        HasherView {
            index: self.index@.map_values(|k: Known| known_view(k)),
            trees: self.trees@.map_values(|s: String| s@),
            dirty: self.dirty,
            exclude: views(self.exclude@),
        }
    }
}

/// What is found at a path.
#[derive(Clone, Copy, Debug)]
pub enum Meta {
    Absent,
    Directory,
    File(Stamp),
}

/// How the hash of what is at a path comes about.
#[derive(Debug)]
pub enum FileStep {
    /// There is nothing to hash.
    Absent,
    /// It is that of the tree.
    Tree,
    /// It is known.
    Known(String),
    /// The file has to be read.
    Read,
}

pub open spec fn same_stamp(a: Stamp, b: Stamp) -> bool {
    a.mtime_ns == b.mtime_ns && a.size == b.size && a.ino == b.ino
}

/// The hash of the file, where the index has it for the same file.
pub open spec fn indexed(index: Map<Seq<char>, KnownView>, path: Seq<char>, s: Stamp) -> Option<Seq<char>> {
    if index.contains_key(path) && same_stamp(index[path].0, s) {
        Some(index[path].1)
    } else {
        None
    }
}

/// The files of a tree in the order of their paths, part by part.
pub open spec fn in_path_order(paths: Seq<Seq<char>>) -> Seq<SpotView> {
    in_order::<Spot>(Seq::new(paths.len(), |i: int| (Seq::empty(), paths[i])))
}

/// What is hashed of the first `n` files: each path from the root of the tree, and the hash of the file.
pub open spec fn tree_data(root: Seq<char>, l: Seq<SpotView>, hashes: Map<Seq<char>, Option<Seq<char>>>, n: int) -> Seq<u8>
    decreases n,
{
    if n <= 0 || n > l.len() {
        Seq::empty()
    } else {
        tree_data(root, l, hashes, n - 1) + encode_utf8(shown_path(l[n - 1].1, root)) + encode_utf8("\0"@) + (
        match hashes[l[n - 1].1] {
            Some(h) => encode_utf8(h),
            None => Seq::empty(),
        }) + encode_utf8("\n"@)
    }
}

/// The hash of a tree.
pub open spec fn tree_digest(root: Seq<char>, hashes: Map<Seq<char>, Option<Seq<char>>>) -> Seq<char> {
    let l = in_path_order(listed(hashes.dom()));
    hex_of(blake3_of(tree_data(root, l, hashes, l.len() as int)))
}

pub open spec fn hash_views(m: Map<Seq<char>, Option<String>>) -> Map<Seq<char>, Option<Seq<char>>> {
    m.map_values(|o: Option<String>| opt_view(o))
}

/// A directory that is part of the tree of another: not built, not excluded, and no package of its own.
pub open spec fn belongs(path: Seq<char>, name: Seq<char>, root: Seq<char>, exclude: Seq<Seq<char>>, has_manifest: bool) -> bool {
    path == root || (name != "target"@ && !has_manifest && forall|i: int|
        0 <= i < exclude.len() ==> !inside(path, #[trigger] exclude[i]))
}

fn list_files(files: &StrMap<Option<String>>) -> (r: Vec<Spot>)
    ensures
        views(r@) == in_path_order(listed(files@.dom())),
{
    let keys = files.keys();
    let ghost kv = views(keys@);
    let ghost want = Seq::new(kv.len(), |i: int| (Seq::<char>::empty(), kv[i]));
    let mut l: Vec<Spot> = Vec::new();
    let mut k: usize = 0;
    proof {
        reveal_strlit("");
        assert(""@ =~= Seq::<char>::empty());
    }
    while k < keys.len()
        invariant
            k <= keys@.len(),
            kv == views(keys@),
            ""@ == Seq::<char>::empty(),
            want == Seq::new(kv.len(), |i: int| (Seq::<char>::empty(), kv[i])),
            l@.len() == k,
            forall|i: int| 0 <= i < k ==> (#[trigger] l@[i])@ == want[i],
        decreases keys@.len() - k,
    {
        assert(kv[k as int] == keys@[k as int]@);
        l.push(Spot { name: "".to_owned(), path: keys[k].clone() });
        k += 1;
    }
    assert(kv.len() == keys@.len());
    assert(views(l@) =~= want);
    sort(l)
}

/// What is listed is a file of the tree.
proof fn lemma_listed_files(paths: Seq<Seq<char>>, x: SpotView)
    requires
        in_path_order(paths).contains(x),
    ensures
        paths.contains(x.1),
{
    let s = Seq::new(paths.len(), |i: int| (Seq::<char>::empty(), paths[i]));
    let leq = |a: SpotView, b: SpotView| <Spot as crate::sort::Ranked>::leq(a, b);
    <Spot as crate::sort::Ranked>::lemma_total();
    s.lemma_sort_by_ensures(leq);
    let t = s.sort_by(leq);
    s.to_multiset_ensures();
    t.to_multiset_ensures();
    assert(t.to_multiset().contains(x));
    assert(s.to_multiset().contains(x));
    assert(s.contains(x));
    let i = choose|i: int| 0 <= i < s.len() && s[i] == x;
    assert(paths[i] == x.1);
}

fn hash_tree(root: &str, files: &StrMap<Option<String>>) -> (r: String)
    ensures
        r@ == tree_digest(root@, hash_views(files@)),
{
    let ghost hv = hash_views(files@);
    assert(hv.dom() =~= files@.dom());
    let list = list_files(files);
    let ghost lv = views(list@);
    let mut data: Vec<u8> = Vec::new();
    let mut k: usize = 0;
    assert(data@ =~= Seq::<u8>::empty());
    proof {
        files.lemma_key_list();
    }
    let keys = files.keys();
    while k < list.len()
        invariant
            k <= list@.len(),
            lv == views(list@),
            hv == hash_views(files@),
            lv == in_path_order(listed(files@.dom())),
            views(keys@) == listed(files@.dom()),
            views(keys@).to_set() == files@.dom(),
            data@ == tree_data(root@, lv, hv, k as int),
        decreases list@.len() - k,
    {
        assert(lv[k as int] == list@[k as int]@);
        proof {
            lemma_listed_files(listed(files@.dom()), lv[k as int]);
            assert(views(keys@).to_set().contains(lv[k as int].1));
        }
        let p = list[k].path.as_str();
        add_text(&mut data, shown(p, root).as_str());
        add_text(&mut data, "\0");
        let ghost mid = data@;
        match files.get(p) {
            Some(Some(h)) => {
                add_text(&mut data, h.as_str());
            },
            _ => {
                assert(mid + Seq::<u8>::empty() =~= mid);
            },
        }
        add_text(&mut data, "\n");
        k += 1;
    }
    assert(lv.len() == list@.len());
    to_hex(&hash(&data))
}

impl SourceHasher {
    /// `index`: what earlier builds read. `exclude`: directories never hashed (the target dir).
    pub fn load(index: StrMap<Known>, exclude: Vec<String>) -> (r: SourceHasher)
        ensures
            r@ == (HasherView {
                index: index@.map_values(|k: Known| known_view(k)),
                trees: Map::empty(),
                dirty: false,
                exclude: views(exclude@),
            }),
    {
        let r = SourceHasher { index, trees: StrMap::new(), dirty: false, exclude };
        assert(r@.trees =~= Map::<Seq<char>, Seq<char>>::empty());
        r
    }

    /// How the hash of what is at a path comes about.
    pub fn file_hash(&self, path: &str, meta: Meta) -> (r: FileStep)
        ensures
            match meta {
                Meta::Absent => r is Absent,
                Meta::Directory => r is Tree,
                Meta::File(s) => match indexed(self@.index, path@, s) {
                    Some(h) => r matches FileStep::Known(x) && x@ == h,
                    None => r is Read,
                },
            },
    {
        match meta {
            Meta::Absent => FileStep::Absent,
            Meta::Directory => FileStep::Tree,
            Meta::File(s) => {
                assert(self@.index.contains_key(path@) == self.index@.contains_key(path@));
                match self.index.get(path) {
                    Some(k) => if k.stamp.mtime_ns == s.mtime_ns && k.stamp.size == s.size && k.stamp.ino == s.ino {
                        FileStep::Known(k.hash.clone())
                    } else {
                        FileStep::Read
                    },
                    None => FileStep::Read,
                }
            },
        }
    }

    /// The hash of a file that was read.
    pub fn learn(&mut self, path: &str, stamp: Stamp, hash: String)
        ensures
            final(self)@ == (HasherView {
                index: old(self)@.index.insert(path@, (stamp, hash@)),
                dirty: true,
                ..old(self)@
            }),
    {
        let ghost was = self.index@;
        let ghost hv = hash@;
        self.index.insert(path, Known { stamp, hash });
        self.dirty = true;
        assert(self@.index =~= old(self)@.index.insert(path@, (stamp, hv)));
    }

    /// The hash of a tree, where it was made before.
    pub fn known_tree(&self, root: &str) -> (r: Option<String>)
        ensures
            opt_view(r) == (if self@.trees.contains_key(root@) {
                Some(self@.trees[root@])
            } else {
                None
            }),
    {
        assert(self@.trees.contains_key(root@) == self.trees@.contains_key(root@));
        match self.trees.get(root) {
            Some(h) => Some(h.clone()),
            None => None,
        }
    }

    /// Whether what is below a directory is part of the tree.
    pub fn enters(&self, path: &str, name: &str, root: &str, has_manifest: bool) -> (r: bool)
        ensures
            r == belongs(path@, name@, root@, self@.exclude, has_manifest),
    {
        if same(path, root) {
            return true;
        }
        if same(name, "target") || has_manifest {
            return false;
        }
        let ghost ev = self@.exclude;
        let mut k: usize = 0;
        while k < self.exclude.len()
            invariant
                k <= self.exclude@.len(),
                ev == views(self.exclude@),
                ev == self@.exclude,
                path@ != root@,
                forall|i: int| 0 <= i < k ==> !inside(path@, #[trigger] ev[i]),
            decreases self.exclude@.len() - k,
        {
            assert(ev[k as int] == self.exclude@[k as int]@);
            if starts_with(path, self.exclude[k].as_str()) {
                assert(inside(path@, ev[k as int]));
                return false;
            }
            k += 1;
        }
        assert(ev.len() == self.exclude@.len());
        true
    }

    /// The hash of a tree: the one that was made before, or that of its files.
    pub fn tree_hash(&mut self, root: &str, files: &StrMap<Option<String>>) -> (r: String)
        ensures
            r@ == (if old(self)@.trees.contains_key(root@) {
                old(self)@.trees[root@]
            } else {
                tree_digest(root@, hash_views(files@))
            }),
            final(self)@ == (HasherView { trees: old(self)@.trees.insert(root@, r@), ..old(self)@ }),
    {
        let ghost was = self@.trees;
        if let Some(h) = self.known_tree(root) {
            assert(was.insert(root@, h@) =~= was);
            return h;
        }
        let h = hash_tree(root, files);
        self.trees.insert(root, h.clone());
        assert(self@.trees =~= was.insert(root@, h@));
        h
    }

    /// Recomputed, not memoized. True if `root` still hashes the way it did earlier this run.
    pub fn tree_unchanged(&mut self, root: &str, files: &StrMap<Option<String>>) -> (r: bool)
        ensures
            r == (old(self)@.trees.contains_key(root@) ==> old(self)@.trees[root@] == tree_digest(
                root@,
                hash_views(files@),
            )),
            final(self)@ == (HasherView {
                trees: if old(self)@.trees.contains_key(root@) {
                    old(self)@.trees.insert(root@, tree_digest(root@, hash_views(files@)))
                } else {
                    old(self)@.trees
                },
                ..old(self)@
            }),
    {
        let ghost was = self@.trees;
        match self.known_tree(root) {
            None => true,
            Some(before) => {
                let h = hash_tree(root, files);
                self.trees.insert(root, h.clone());
                assert(self@.trees =~= was.insert(root@, h@));
                same(h.as_str(), before.as_str())
            },
        }
    }

    /// What to write, where something was learnt.
    pub fn save(&self) -> (r: Option<&StrMap<Known>>)
        ensures
            r.is_some() == self@.dirty,
            r matches Some(m) ==> m@.map_values(|k: Known| known_view(k)) == self@.index,
    {
        if self.dirty {
            Some(&self.index)
        } else {
            None
        }
    }
}

} // verus!
