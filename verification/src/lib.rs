//! A content-addressable object store and packfile ingestion engine for a
//! subset of Git: object hashing and storage, pkt-line framing, packfile
//! parsing, delta reconstruction, ref discovery and working-tree planning.
//!
//! Everything here computes on byte strings. Reading and writing files and
//! talking to a remote are left to the caller.

pub mod bytes;
pub mod checkout;
pub mod codec;
pub mod commit;
pub mod delta;
pub mod error;
pub mod object;
pub mod pack;
pub mod pktline;
pub mod refs;
pub mod text;
pub mod tree;
pub mod vli;
