//! Transports: one shared capability layer, several adapters.

pub mod legacy_sse;
