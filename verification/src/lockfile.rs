//! What `Cargo.lock` records.

use vstd::prelude::*;
use crate::text::opt_view;
use crate::text::views;
use crate::version::Version;
use crate::version::VersionView;

verus! {

#[derive(Debug)]
pub struct LockDep {
    pub name: String,
    /// Where several versions are locked.
    pub version: Option<Version>,
    /// Where several sources are locked.
    pub source: Option<String>,
}

pub struct LockDepView {
    pub name: Seq<char>,
    pub version: Option<VersionView>,
    pub source: Option<Seq<char>>,
}

impl View for LockDep {
    type V = LockDepView;

    open spec fn view(&self) -> LockDepView {
        LockDepView { name: self.name@, version: opt_view(self.version), source: opt_view(self.source) }
    }
}

#[derive(Debug)]
pub struct LockPkg {
    pub name: String,
    pub version: Version,
    /// Path packages have none.
    pub source: Option<String>,
    pub checksum: Option<String>,
    pub dependencies: Vec<LockDep>,
}

pub struct LockPkgView {
    pub name: Seq<char>,
    pub version: VersionView,
    pub source: Option<Seq<char>>,
    pub checksum: Option<Seq<char>>,
    pub dependencies: Seq<LockDepView>,
}

impl View for LockPkg {
    type V = LockPkgView;

    open spec fn view(&self) -> LockPkgView {
        LockPkgView {
            name: self.name@,
            version: self.version@,
            source: opt_view(self.source),
            checksum: opt_view(self.checksum),
            dependencies: views(self.dependencies@),
        }
    }
}

#[derive(Debug)]
pub struct Lockfile {
    pub version: u32,
    pub packages: Vec<LockPkg>,
}

pub struct LockfileView {
    pub version: u32,
    pub packages: Seq<LockPkgView>,
}

impl View for Lockfile {
    type V = LockfileView;

    open spec fn view(&self) -> LockfileView {
        LockfileView { version: self.version, packages: views(self.packages@) }
    }
}

/// The packages that are locked; none where there is no lockfile.
pub open spec fn locked(lock: Option<&Lockfile>) -> Seq<LockPkgView> {
    match lock {
        Some(l) => views(l.packages@),
        None => Seq::empty(),
    }
}

} // verus!
