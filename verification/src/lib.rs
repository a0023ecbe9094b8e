//! Witness-cache simulation core: key model, recency-ordered maps, replacement
//! policies, the retention window, the structural witness-size model and the
//! per-block driver.

pub mod model;
pub mod policy;
pub mod ordered;
pub mod window;
pub mod witness;
pub mod metrics;
pub mod cache;
pub mod manifest;
pub mod strata;
pub mod loader;
pub mod config;
pub mod sweep;
