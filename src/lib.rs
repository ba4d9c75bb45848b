//! Composes provisioning scripts from versioned, OS-tagged slices.
pub mod arguments;
pub mod catalog;
pub mod directory;
pub mod fetch;
pub mod formatters;
pub mod list;
pub mod make;
pub mod options;
pub mod os;
pub mod section;
pub mod slice;
pub mod text;
pub mod version;

use crate::version::{version_cmp, Version, VersionView};
use core::cmp::Ordering;
use vstd::prelude::*;

verus! {

/// The failures that stop a run.
#[derive(Clone, Copy, Debug, PartialEq, Eq, Structural)]
pub enum SliceError {
    /// The catalog root directory does not exist.
    CatalogRootNotFound,
    /// The catalog root holds no bucket directory.
    EmptyCatalog,
    /// A version text fits neither the strict nor the permissive grammar.
    InvalidVersion,
    /// A slice that is filtered by operating system has no OS section.
    MissingOsSection,
}

/// How a candidate version must relate to a requested one.
#[derive(Clone, Copy, Debug, PartialEq, Eq, Structural)]
pub enum VersionMatchStrategy {
    /// Equal precedence.
    Exact,
    /// The candidate ranks at most as high as the request.
    ExactOrLesser,
    /// The candidate ranks at least as high as the request.
    ExactOrGreater,
}

/// Whether `candidate` satisfies `requested` under `strategy`.
pub open spec fn strategy_matches(
    candidate: VersionView,
    requested: VersionView,
    strategy: VersionMatchStrategy,
) -> bool {
    match strategy {
        VersionMatchStrategy::Exact => version_cmp(candidate, requested) == 0,
        VersionMatchStrategy::ExactOrLesser => version_cmp(candidate, requested) <= 0,
        VersionMatchStrategy::ExactOrGreater => version_cmp(candidate, requested) >= 0,
    }
}

impl VersionMatchStrategy {
    /// Whether `candidate` satisfies `requested` under this strategy.
    pub fn matches(&self, candidate: &Version, requested: &Version) -> (r: bool)
        ensures
            r == strategy_matches(candidate@, requested@, *self),
    {
        let o = candidate.compare(requested);
        match (self, o) {
            (VersionMatchStrategy::Exact, Ordering::Equal) => true,
            (VersionMatchStrategy::ExactOrLesser, Ordering::Less) => true,
            (VersionMatchStrategy::ExactOrLesser, Ordering::Equal) => true,
            (VersionMatchStrategy::ExactOrGreater, Ordering::Greater) => true,
            (VersionMatchStrategy::ExactOrGreater, Ordering::Equal) => true,
            _ => false,
        }
    }
}

/// A slice asked for by name, with a version and how to match it.
#[derive(Debug)]
pub struct RequestedSlice {
    pub name: String,
    pub version: Version,
    pub version_match_strategy: VersionMatchStrategy,
}

} // verus!
