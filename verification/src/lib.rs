//! A small encrypted file store whose server commits to its files with a
//! Merkle tree of SHA3-256 digests, and whose client checks a file against
//! the committed root hash.

mod bytes;
pub mod cipher;
pub mod client;
pub mod digest;
pub mod merkle;
pub mod server;
pub mod messages;
pub mod framing;
