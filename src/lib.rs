//! Runtime-version manager core: version ordering, catalog reconciliation,
//! install-state transitions and the language backend registry.

pub mod catalog;
pub mod error;
pub mod lifecycle;
pub mod manager;
pub mod python;
pub mod semver;
