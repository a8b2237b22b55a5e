//! Attribute values defined by the HTTP semantic conventions.
pub mod semconv;
