//! Where things land under `target/`.
//!
//! ```text
//! target/<profile>/                  final artifacts, no --target
//! target/<triple>/<profile>/         final artifacts for --target
//! target/rb/<profile>/<kind>/deps/   compiled units, linked into the store
//! target/rb/<profile>/<kind>/build/  build-script binaries and OUT_DIR
//! target/rb/<profile>/<kind>/incremental/
//! target/rb/.state/                  freshness, source hashes
//! ```
//! `<kind>` is `host` or the triple.

use vstd::prelude::*;
use crate::path::join;
use crate::path::under;

verus! {

#[derive(Debug)]
pub struct Layout {
    pub target_dir: String,
    pub profile_dir: String,
}

impl Layout {
    pub open spec fn own_dir(self) -> Seq<char> {
        under(self.target_dir@, "rb"@)
    }

    pub open spec fn dir_of(self, kind: Seq<char>) -> Seq<char> {
        under(under(self.own_dir(), self.profile_dir@), kind)
    }

    /// The target directory itself, or that of the triple.
    pub open spec fn base(self, triple: Option<&str>) -> Seq<char> {
        match triple {
            Some(t) => under(self.target_dir@, t@),
            None => self.target_dir@,
        }
    }

    pub fn new(target_dir: &str, profile_dir: &str) -> (r: Layout)
        ensures
            r.target_dir@ == target_dir@,
            r.profile_dir@ == profile_dir@,
    {
        Layout { target_dir: target_dir.to_owned(), profile_dir: profile_dir.to_owned() }
    }

    pub fn rb_dir(&self) -> (r: String)
        ensures
            r@ == self.own_dir(),
    {
        join(self.target_dir.as_str(), "rb")
    }

    pub fn state_dir(&self) -> (r: String)
        ensures
            r@ == under(self.own_dir(), ".state"@),
    {
        join(self.rb_dir().as_str(), ".state")
    }

    pub fn kind_dir(&self, kind_name: &str) -> (r: String)
        ensures
            r@ == self.dir_of(kind_name@),
    {
        join(join(self.rb_dir().as_str(), self.profile_dir.as_str()).as_str(), kind_name)
    }

    pub fn deps(&self, kind_name: &str) -> (r: String)
        ensures
            r@ == under(self.dir_of(kind_name@), "deps"@),
    {
        join(self.kind_dir(kind_name).as_str(), "deps")
    }

    pub fn build(&self, kind_name: &str) -> (r: String)
        ensures
            r@ == under(self.dir_of(kind_name@), "build"@),
    {
        join(self.kind_dir(kind_name).as_str(), "build")
    }

    pub fn incremental(&self, kind_name: &str) -> (r: String)
        ensures
            r@ == under(self.dir_of(kind_name@), "incremental"@),
    {
        join(self.kind_dir(kind_name).as_str(), "incremental")
    }

    pub fn artifact_dir(&self, triple: Option<&str>) -> (r: String)
        ensures
            r@ == under(self.base(triple), self.profile_dir@),
    {
        match triple {
            Some(t) => join(join(self.target_dir.as_str(), t).as_str(), self.profile_dir.as_str()),
            None => join(self.target_dir.as_str(), self.profile_dir.as_str()),
        }
    }

    pub fn doc_dir(&self, triple: Option<&str>) -> (r: String)
        ensures
            r@ == under(self.base(triple), "doc"@),
    {
        match triple {
            Some(t) => join(join(self.target_dir.as_str(), t).as_str(), "doc"),
            None => join(self.target_dir.as_str(), "doc"),
        }
    }

    pub fn lock_path(&self) -> (r: String)
        ensures
            r@ == under(self.own_dir(), ".lock"@),
    {
        join(self.rb_dir().as_str(), ".lock")
    }
}

} // verus!
