//! A verified currency exchange-rate aggregation engine.
//!
//! Upstream providers report exchange rates for a base currency; this crate
//! merges their reports with a fixed priority order, unions their symbol
//! catalogues, reconstructs per-day historical series over a date range, and
//! memoises results in a time-boxed cache. All I/O stays outside: the engine
//! works on plain values that the surrounding service hands in.

pub mod cache;
pub mod date;
pub mod engine;
pub mod model;
pub mod origin;
pub mod provider_ecb;
pub mod provider_float;
pub mod provider_free;
pub mod series;
pub mod symbols;
pub mod text;
