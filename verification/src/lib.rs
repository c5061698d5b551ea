//! Verified core of a native-build helper: it propagates header-directory
//! metadata between isolated build steps over a flat string channel,
//! aggregates the visible directories into one deterministic ordered set,
//! and drives source selection for a native compiler.

pub mod channel;
pub mod config;
pub mod driver;
pub mod order;
pub mod unit;
