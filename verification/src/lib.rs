//! A declarative endpoint-definition framework for an HTTP-style wire
//! protocol: an endpoint is described once as a schema (transport metadata
//! plus a role for every request/response field), and a single schema-driven
//! engine derives both directions of the wire mapping — building a wire
//! request/response from a typed value, and parsing a wire message back into
//! an owned value — together with success/error response discrimination.
//!
//! The wire grammar lives in `bytes`, `percent`, and `json`; the schema and
//! its registration-time rules in `schema`; values and wire messages in
//! `message`; the two directions of the codec in `builder` and `parse`; and
//! the proved inversion laws in `laws`.

pub mod builder;
pub mod bytes;
pub mod errors;
pub mod json;
pub mod laws;
pub mod message;
pub mod parse;
pub mod percent;
pub mod schema;
