//! A verified codec for the BNCSV format: numeric CSV text packed into a
//! compact binary stream through a fixed prefix code, together with the
//! planning logic of the batch conversion pipeline that applies the codec
//! to many files at once.

pub mod bits;
pub mod chunks;
pub mod cli;
pub mod codebook;
pub mod compr;
pub mod errors;
pub mod paths;
pub mod utf8;
