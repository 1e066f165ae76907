//! One-way incremental sync of a local directory tree to a remote object
//! store: a checksum-based diff-and-plan engine.
//!
//! The library covers the logic of a sync run: deriving relative keys from
//! paths, fingerprinting file contents, encoding and decoding the remote
//! manifest (the `relative key -> fingerprint` record the store holds),
//! classifying each local file against that manifest, and deriving the
//! upload plan and the upload sequence for a confirmed run. The transport
//! to the store, the directory enumeration and the interactive prompt are
//! collaborators around it: they hand in plain values and take plain
//! values back.

pub mod bytes;
pub mod fingerprint;
pub mod inventory;
pub mod manifest;
pub mod orchestrate;
pub mod paths;
pub mod plan;
