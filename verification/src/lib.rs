//! A lossless compressor for tryte sequences: strings over the 27-symbol
//! alphabet {'9', 'A'..'Z'} used to carry balanced-ternary payloads.
//!
//! The pipeline has two stages.  A run-length stage replaces long runs of one
//! symbol by self-describing records whose digits reuse the tryte alphabet as
//! base-27 numerals.  A static Huffman stage then packs the resulting extended
//! symbol sequence (trytes, three run markers and an end-of-stream sentinel)
//! into a byte buffer, most-significant bit first.
use vstd::prelude::*;

pub mod bits;
pub mod codec;
pub mod rle;
pub mod tables;

pub use codec::compress;
pub use codec::decompress;
pub use rle::append_run;
pub use rle::number_to_rle;
pub use rle::rle_to_number;
pub use rle::run_length_decode;
pub use rle::run_length_encode;
pub use tables::decode_attempt;
pub use tables::encode_of;

verus! {

/// Every failure the codec can report.  The codec is deterministic and
/// side-effect free, so none of these is transient.
#[derive(Clone, Copy, Debug, PartialEq, Eq, Structural)]
pub enum CompressError {
    /// `compress` was called with a zero-length input.
    EmptyInput,
    /// A symbol outside the extended alphabet has no Huffman code.
    UnknownSymbol,
    /// A run marker was not followed by the digit and literal symbols it
    /// announces.
    MalformedRunRecord,
    /// The bit stream ended before a valid code or the sentinel was found.
    TruncatedInput,
}

} // verus!
