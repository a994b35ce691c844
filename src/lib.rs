//! Dependency policy checks for a vendored source tree: every vendored
//! package must declare an approved license, and a chosen set of packages
//! may depend, transitively, only on an approved set of packages.

pub mod text;
pub mod krate;
pub mod graph;
pub mod whitelist;
pub mod license;

pub use krate::Crate;
pub use graph::{Resolve, ResolveNode, find_node};
pub use whitelist::{Findings, check_crate_whitelist, check_whitelist_graph, whitelist, whitelist_crates};
pub use license::{
    LicenseCheck, LicenseViolation, VendoredCrate, check, check_license, extract_license, is_approved_license,
    is_exception,
};
