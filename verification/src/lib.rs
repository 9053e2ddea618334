//! Semantic-version resolution for a tag-based release flow: a `Version`
//! triple with a total order, bump-kind selection, extraction of versions
//! from raw tag names, and a resolver that finds the current version and
//! computes the next one.
//!
//! Bumps follow standard semver reset rules: a major bump zeroes minor and
//! patch, and a minor bump zeroes patch.

pub mod parse;
pub mod tags;
pub mod version;

pub use tags::GitTags;
pub use tags::Release;
pub use tags::TagListingError;
pub use tags::Vesionable;
pub use version::SemType;
pub use version::Version;
