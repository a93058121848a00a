//! Uptime monitoring core: site validation, the probing schedule's decisions,
//! the transactional delete plan and the uptime aggregation over raw probe logs.
pub mod delete;
pub mod error;
pub mod prober;
pub mod stats;
pub mod website;
