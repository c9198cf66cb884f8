//! Verified core of an HTTP load-generation engine.
//!
//! The library holds the logic that can be stated and proved: request
//! templates and their parsers, the placeholder substitution engine, the
//! statistics pipeline with its latency histogram, and the arithmetic that
//! sizes and paces the worker pool.  The surrounding I/O (sockets, terminal
//! UI, files) lives outside the library and hands it plain values.

pub mod cli;
pub mod curl;
pub mod batch;
pub mod engine;
pub mod http;
pub mod mock;
pub mod ui;
pub mod histogram;
pub mod stats;
pub mod template;
pub mod text;
