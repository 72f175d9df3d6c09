//! Streaming content-defined chunking.
//!
//! A [`chunker::FastCDCWrapper`] accepts a file's bytes through any number of
//! `append` calls of any size, cuts the stream into variable-length chunks
//! with content-defined boundaries, and hands the finished chunks out on
//! demand, while holding no more than a fixed window of unresolved bytes in
//! memory.

use vstd::prelude::*;

pub mod boundary;
pub mod chunker;
pub mod queue;

verus! {

/// A finalized chunk of the input stream.
///
/// `data` holds exactly the bytes of the stream at
/// `[offset, offset + length)`.
#[derive(Clone)]
pub struct ChunkWithData {
    pub offset: usize,
    pub length: usize,
    pub data: Vec<u8>,
}

} // verus!
