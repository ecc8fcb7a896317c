//! Commit-history segmentation for release tooling: a linear history of
//! commits is split into release windows bounded by version tags, keeping in
//! each window only the commits that changed a package's directory.

pub mod history;
pub mod objects;
pub mod segment;
pub mod tags;
pub mod filter;
pub mod laws;
