//! Parsing, inspection and resolution of URI references (RFC 3986), with
//! percent-encoding driven by per-component byte tables.

pub mod component;
pub mod encoding;
pub mod error;
pub mod internal;
pub mod ip;
pub mod parser;
pub mod resolver;
pub mod text;
pub mod uri;
