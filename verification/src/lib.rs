//! Memory planning, hazard tracking and replay bookkeeping for a Metal backend.

pub mod admission;
pub mod arena;
pub mod arena_cursor;
pub mod buffer;
pub mod buffer_pool;
pub mod commands;
pub mod device;
pub mod encoder;
pub mod executor;
pub mod fence_probe;
pub mod hazard_audit;
pub mod icb;
pub mod profile;
pub mod residency_set;
pub mod run_telemetry;
pub mod scratch;
pub mod sums;
pub mod tally;
pub mod text;
