//! A paced credential-probing library.
//!
//! The crate models a sequential scan over candidate `(username, password)`
//! pairs: credential sources (fixed lists read from file contents, or a
//! generated Cartesian power over an alphabet), a lazy cross-product
//! enumerator, an HTTP outcome classifier, and a cyclic pacing engine that
//! throttles checking and stops on the first accepted pair.
//!
//! All text is handled as byte strings (`Vec<u8>`); callers convert to and
//! from `String` at the edges.

pub mod bytes;
pub mod creds;
pub mod enumerate;
pub mod errors;
pub mod proto;
pub mod source;
pub mod strategy;
pub mod ui;
