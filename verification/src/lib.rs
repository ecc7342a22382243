//! Streaming reader for training shards stored as tape archives.
//!
//! Members of an archive are named `<key>.<suffix>`. Consecutive members that
//! share a key form one sample: its frames, in archive order, and at most one
//! target. The crate holds the rules of that convention and the run-length
//! grouper that assembles samples from a stream of members. Every function
//! states what it returns, and Verus proves that it does.

pub mod error;
pub mod grouper;
pub mod laws;
pub mod path;
pub mod sample;
pub mod stream;
