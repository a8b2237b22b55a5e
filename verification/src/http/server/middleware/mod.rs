//! What the request middleware decides.
pub mod telemetry;
