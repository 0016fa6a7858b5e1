//! Host telemetry: rate computation for the per-host sampler and the
//! node registry with identity reconciliation and liveness.

pub mod cpu;
pub mod rates;
pub mod error;
pub mod registry;
pub mod token;
pub mod auth;
pub mod text;
pub mod procfs;
pub mod config;
