//! HTTP server telemetry following the OpenTelemetry semantic conventions:
//! configuration, request attribute extraction and the attribute sets recorded
//! for each request.
pub mod text;
pub mod telemetry;
pub mod service;
pub mod http;
