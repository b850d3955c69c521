//! Reconstruction of visitor sessions from web-server access logs, with
//! time-bucketed usage statistics and a layered page-transition graph.
//!
//! Every string is reasoned about through its UTF-8 bytes: the contracts of
//! this crate speak of `Seq<u8>`, and two strings are the same symbol exactly
//! when their bytes agree.

pub mod text;

pub mod interner;
pub mod time;
pub mod tokens;
pub mod pattern;
pub mod parser;
pub mod symbols;
pub mod session;
pub mod rank;
pub mod stats;
pub mod graph;
pub mod lines;
pub mod store;
