//! Single-bit error-correcting Hamming codes over byte sequences.
//!
//! Three codec variants are provided: a general construction parametrized by
//! the number of data bits per block ([`Hamming`]), and two fixed,
//! bit-optimized variants, [`Hamming74`] and [`Hamming1511`]. All three
//! implement the [`HammingCode`] capability contract: `encode` packs data bits
//! into blocks with parity bits at power-of-two positions, and `decode`
//! recomputes the per-block syndrome, corrects a single flipped bit per block,
//! and extracts the data bits.

use vstd::prelude::*;

pub mod bits;
mod hamming;
mod hamming1511;
mod hamming74;

pub use hamming::Hamming;
pub use hamming1511::Hamming1511;
pub use hamming74::Hamming74;

verus! {

/// Failures a `decode` call can report.
#[derive(Debug, Clone, Copy, PartialEq, Eq, Structural)]
pub enum HammingError {
    /// The encoded input's byte length is not compatible with the variant's
    /// block/byte packing rule.
    InvalidLength,
    /// A block's syndrome lies outside the correctable position range,
    /// indicating more errors than the code can fix.
    UncorrectableErrors,
}

/// The operation set every codec variant implements.
///
/// Each implementor supplies a mathematical model of itself: `spec_encode`
/// and `spec_decode` say, bit-exactly, what the executable `encode` and
/// `decode` return, and `encode_fits`/`decode_fits` bound the input sizes for
/// which the intermediate arithmetic fits in `usize`.
pub trait HammingCode {
    /// The codec's parameters are internally consistent.
    spec fn wf(&self) -> bool;

    /// Payload bits per block, as a specification-level value.
    spec fn spec_data_bits(&self) -> usize;

    /// Bits per code block, as a specification-level value.
    spec fn spec_block_size(&self) -> usize;

    /// The input is small enough that encoding arithmetic fits in `usize`.
    spec fn encode_fits(&self, data: Seq<u8>) -> bool;

    /// The input is small enough that decoding arithmetic fits in `usize`.
    spec fn decode_fits(&self, encoded: Seq<u8>) -> bool;

    /// The byte sequence `encode` returns.
    spec fn spec_encode(&self, data: Seq<u8>) -> Seq<u8>;

    /// The value `decode` returns.
    spec fn spec_decode(&self, encoded: Seq<u8>) -> Result<Seq<u8>, HammingError>;

    /// Encode data into Hamming-encoded blocks.
    fn encode(&self, data: &[u8]) -> (r: Vec<u8>)
        requires
            self.wf(),
            self.encode_fits(data@),
        ensures
            r@ == self.spec_encode(data@),
    ;

    /// Decode Hamming-encoded blocks back to data.
    fn decode(&self, encoded: &[u8]) -> (r: Result<Vec<u8>, HammingError>)
        requires
            self.wf(),
            self.decode_fits(encoded@),
        ensures
            r matches Ok(v) ==> self.spec_decode(encoded@) == Ok::<Seq<u8>, HammingError>(v@),
            r matches Err(e) ==> self.spec_decode(encoded@) == Err::<Seq<u8>, HammingError>(e),
    ;

    /// Get the block size in bits for this code.
    fn block_size(&self) -> (r: usize)
        requires
            self.wf(),
        ensures
            r == self.spec_block_size(),
    ;

    /// Get the data bits per block.
    fn data_bits(&self) -> (r: usize)
        requires
            self.wf(),
        ensures
            r == self.spec_data_bits(),
    ;
}

} // verus!
