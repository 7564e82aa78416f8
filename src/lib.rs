//! Change planning for a plugin package manager: versions and ranges,
//! package descriptors, the package catalog, the planner that turns an
//! install request into a conflict-checked plan, the manifest update that
//! applies it, and the session cache that keeps stale plans from being applied.
use vstd::prelude::*;

pub mod apply;
pub mod commands;
pub mod index;
pub mod package;
pub mod plan;
pub mod planner;
pub mod session;
pub mod settings;
pub mod version;

verus! {

} // verus!
