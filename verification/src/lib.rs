//! A client for language servers speaking the Language Server Protocol, with
//! two analyses built on top of it: a file-level reference graph and a
//! per-function usage score.
//!
//! The library does no input or output of its own. Messages reach the
//! server through a transport that its user supplies ([`lsp::StringIO`]),
//! and the two analyses are written as functions from what the server
//! answered to what follows from it.
//!
//! - [`frame`]: the frame codec, between bytes on a stream and message bodies.
//! - [`jsonrpc`]: requests, notifications and responses, written and read.
//! - [`lsp`]: the session, which numbers requests and routes responses.
//! - [`builder`] and [`refgraph`]: the run that builds the reference graph.
//! - [`analyzer`] and [`usage`]: the run that collects the call graph, and the
//!   usage score.
//! - [`select`]: which files of a project are looked at.
//! - [`symbols`], [`uri`], [`text`], [`decimal`], [`report`]: what the others share.
//! - [`json`] and [`digraph`]: what is relied on from `serde_json` and
//!   `petgraph`.

pub mod analyzer;
pub mod builder;
pub mod decimal;
pub mod digraph;
pub mod frame;
pub mod json;
pub mod jsonrpc;
pub mod lsp;
pub mod refgraph;
pub mod report;
pub mod select;
pub mod symbols;
pub mod text;
pub mod uri;
pub mod usage;
