//! A concurrent bounded multi-stream buffer and its ingestion pipeline.
//!
//! Whitespace-delimited numeric text lines are demultiplexed into independent
//! positional streams, each keeping a bounded recent history.  Samples are
//! carried as opaque 64-bit words: callers that work in floating point convert
//! to and from the raw bit pattern at the boundary, since the buffer never
//! interprets a sample's value.

pub mod datacontainer;
pub mod dataset;
pub mod tokenizer;
pub mod tracker;

use vstd::prelude::*;

verus! {

/// True for the ASCII whitespace bytes that separate the columns of an
/// input line: space, horizontal tab, line feed, vertical tab, form feed
/// and carriage return.
pub open spec fn is_space(b: u8) -> bool {
    b == 32 || (9 <= b && b <= 13)
}

/// Runtime test for [`is_space`].
pub fn is_space_byte(b: u8) -> (r: bool)
    ensures
        r == is_space(b),
{
    b == 32 || (9 <= b && b <= 13)
}

} // verus!
