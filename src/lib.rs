//! Streaming compression building blocks: checksums, block transforms,
//! an arithmetic range coder with its probability models, and decoders
//! for common framed formats. Every engine works on in-memory buffers and
//! states its behaviour as a contract.

pub mod adler;
pub mod mtf;
pub mod flate;
pub mod zlib;
pub mod lz4;
pub mod bwt;
pub mod dc;
pub mod ari;
pub mod bin;
pub mod table;
pub mod apm;
pub mod rle;
