//! Aggregates per-province demographic and economic figures from a
//! grand-strategy save file into per-country totals.
//!
//! The core is a single-pass, line-oriented scanner over the raw bytes of the
//! save: it tracks block boundaries (province records and their `variables`
//! sub-blocks), routes key/value lines through a fixed dispatch table that
//! mutates the province being read, and folds each finished province into the
//! owning country's running totals.
//!
//! Fractional figures (populations given in units of ten thousand, wealth
//! growth rates) are held as exactly scaled integers, so every accumulation
//! is exact and verified free of rounding surprises.

pub mod text;
pub mod numbers;
pub mod province;
pub mod dispatch;
pub mod country;
pub mod scanner;
pub mod tags;
pub mod config;
pub mod laws;

pub use config::Config;
pub use country::{Country, CountryMap};
pub use numbers::ParseError;
pub use province::Province;
pub use scanner::parse_save;
