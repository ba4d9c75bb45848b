//! The operating system that a build targets.
use crate::version::{Version, VersionView};
use vstd::prelude::*;

verus! {

/// An operating system: its name and version.
#[derive(Clone, Debug)]
pub struct Os {
    pub name: String,
    pub version: Version,
}

pub struct OsView {
    pub name: Seq<char>,
    pub version: VersionView,
}

impl View for Os {
    type V = OsView;

    open spec fn view(&self) -> OsView {
        OsView { name: self.name@, version: self.version@ }
    }
}

} // verus!
