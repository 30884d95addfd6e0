//! A minimal local record store: identifier/value pairs are serialized by a
//! reversible text-safe codec (base64 over `identifier:value`), appended as
//! one line each to a flat log, and queried by full scan.

pub mod b64;
pub mod jsonval;
pub mod config;
pub mod codec;
pub mod store;
