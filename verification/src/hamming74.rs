//! The fixed Hamming(7,4) codec: each input byte is split into its two
//! nibbles (low nibble first) and every nibble becomes one 7-bit block
//! stored in one output byte, so the encoded stream is exactly twice as long
//! as the input and decoding inverts encoding with no padding.

use crate::bits::flip_stream;
use crate::{HammingCode, HammingError};
use vstd::prelude::*;

verus! {

/// Hamming(7,4) implementation.
pub struct Hamming74;

/// The 7-bit codeword for nibble `n` (only the low 4 bits of `n` are read).
/// Layout from the least-significant bit: `p1 p2 d1 p3 d2 d3 d4`, with
/// parity equations `p1 = d1^d2^d4`, `p2 = d1^d3^d4`, `p3 = d2^d3^d4`.
pub open spec fn encode74(n: u8) -> u8 {
    let d1 = n & 1;
    let d2 = (n >> 1) & 1;
    let d3 = (n >> 2) & 1;
    let d4 = (n >> 3) & 1;
    let p1 = d1 ^ d2 ^ d4;
    let p2 = d1 ^ d3 ^ d4;
    let p3 = d2 ^ d3 ^ d4;
    p1 | (p2 << 1) | (d1 << 2) | (p3 << 3) | (d2 << 4) | (d3 << 5) | (d4 << 6)
}

/// The syndrome of a block (computed over its low 7 bits): bit `i` is set
/// iff parity check `i` fails, and a nonzero syndrome is the 1-indexed
/// position of a single flipped bit.
pub open spec fn syndrome74(b: u8) -> u8 {
    let m = b & 0x7f;
    let s1 = (m & 1) ^ ((m >> 2) & 1) ^ ((m >> 4) & 1) ^ ((m >> 6) & 1);
    let s2 = ((m >> 1) & 1) ^ ((m >> 2) & 1) ^ ((m >> 5) & 1) ^ ((m >> 6) & 1);
    let s3 = ((m >> 3) & 1) ^ ((m >> 4) & 1) ^ ((m >> 5) & 1) ^ ((m >> 6) & 1);
    s1 | (s2 << 1) | (s3 << 2)
}

/// The block with the bit its syndrome names flipped back.
pub open spec fn correct74(b: u8) -> u8 {
    let m = b & 0x7f;
    let s = syndrome74(b);
    if s == 0 {
        m
    } else {
        m ^ (1u8 << ((s - 1) as u8))
    }
}

/// The data nibble held at bits 2, 4, 5, 6 of a corrected block.
pub open spec fn extract74(b: u8) -> u8 {
    ((b >> 2) & 1) | (((b >> 4) & 1) << 1) | (((b >> 5) & 1) << 2) | (((b >> 6) & 1) << 3)
}

/// The nibble a block decodes to: correct a single flipped bit, then
/// extract the data bits. Every 3-bit syndrome names a position inside the
/// 7-bit block, so decoding a block cannot fail.
pub open spec fn decode74(b: u8) -> u8 {
    extract74(correct74(b))
}

/// The encoded sequence: two codewords per input byte, low nibble first.
pub open spec fn encode74_seq(data: Seq<u8>) -> Seq<u8> {
    Seq::new(
        2 * data.len(),
        |i: int|
            if i % 2 == 0 {
                encode74(data[i / 2] & 0x0f)
            } else {
                encode74(data[i / 2] >> 4)
            },
    )
}

/// The decode result: `InvalidLength` for an odd-length input, otherwise
/// each pair of blocks gives back one byte, low nibble first.
pub open spec fn decode74_seq(encoded: Seq<u8>) -> Result<Seq<u8>, HammingError> {
    if encoded.len() % 2 != 0 {
        Err(HammingError::InvalidLength)
    } else {
        Ok(
            Seq::new(
                encoded.len() / 2,
                |i: int| decode74(encoded[2 * i]) | (decode74(encoded[2 * i + 1]) << 4),
            ),
        )
    }
}

impl Hamming74 {
    /// Encode one nibble into its 7-bit codeword.
    pub fn encode_nibble(nibble: u8) -> (r: u8)
        ensures
            r == encode74(nibble),
    {
        let d1 = nibble & 1;
        let d2 = (nibble >> 1) & 1;
        let d3 = (nibble >> 2) & 1;
        let d4 = (nibble >> 3) & 1;

        // Calculate parity bits
        let p1 = d1 ^ d2 ^ d4;
        let p2 = d1 ^ d3 ^ d4;
        let p3 = d2 ^ d3 ^ d4;

        // Layout: p1 p2 d1 p3 d2 d3 d4
        p1 | (p2 << 1) | (d1 << 2) | (p3 << 3) | (d2 << 4) | (d3 << 5) | (d4 << 6)
    }

    /// Decode one block: correct a single flipped bit if the syndrome names
    /// one, then extract the data nibble. A 3-bit syndrome always names a
    /// position inside the block, so this never fails.
    pub fn decode_block(block: u8) -> (r: Result<u8, HammingError>)
        ensures
            r == Ok::<u8, HammingError>(decode74(block)),
    {
        let m = block & 0x7F;  // Only use lower 7 bits

        // Calculate syndrome
        let s1 = (m & 1) ^ ((m >> 2) & 1) ^ ((m >> 4) & 1) ^ ((m >> 6) & 1);
        let s2 = ((m >> 1) & 1) ^ ((m >> 2) & 1) ^ ((m >> 5) & 1) ^ ((m >> 6) & 1);
        let s3 = ((m >> 3) & 1) ^ ((m >> 4) & 1) ^ ((m >> 5) & 1) ^ ((m >> 6) & 1);

        let syndrome = s1 | (s2 << 1) | (s3 << 2);
        proof {
            assert(s1 | (s2 << 1) | (s3 << 2) < 8) by (bit_vector)
                requires
                    s1 == (m & 1) ^ ((m >> 2) & 1) ^ ((m >> 4) & 1) ^ ((m >> 6) & 1),
                    s2 == ((m >> 1) & 1) ^ ((m >> 2) & 1) ^ ((m >> 5) & 1) ^ ((m >> 6) & 1),
                    s3 == ((m >> 3) & 1) ^ ((m >> 4) & 1) ^ ((m >> 5) & 1) ^ ((m >> 6) & 1),
            ;
        }

        // Correct single bit error if needed
        let mut corrected = m;
        if syndrome != 0 {
            let error_pos = syndrome - 1;
            if error_pos < 7 {
                corrected = corrected ^ (1u8 << (error_pos as u32));
            } else {
                return Err(HammingError::UncorrectableErrors);
            }
        }

        // Extract data bits from positions 2, 4, 5, 6
        let d1 = (corrected >> 2) & 1;
        let d2 = (corrected >> 4) & 1;
        let d3 = (corrected >> 5) & 1;
        let d4 = (corrected >> 6) & 1;

        Ok(d1 | (d2 << 1) | (d3 << 2) | (d4 << 3))
    }
}

impl HammingCode for Hamming74 {
    open spec fn wf(&self) -> bool {
        true
    }

    open spec fn spec_data_bits(&self) -> usize {
        4
    }

    open spec fn spec_block_size(&self) -> usize {
        7
    }

    open spec fn encode_fits(&self, data: Seq<u8>) -> bool {
        true
    }

    open spec fn decode_fits(&self, encoded: Seq<u8>) -> bool {
        true
    }

    open spec fn spec_encode(&self, data: Seq<u8>) -> Seq<u8> {
        encode74_seq(data)
    }

    open spec fn spec_decode(&self, encoded: Seq<u8>) -> Result<Seq<u8>, HammingError> {
        decode74_seq(encoded)
    }

    fn encode(&self, data: &[u8]) -> (r: Vec<u8>) {
        let mut encoded: Vec<u8> = Vec::new();

        for i in 0..data.len()
            invariant
                encoded@.len() == 2 * i,
                forall|t: int| 0 <= t < 2 * i ==> encoded@[t] == #[trigger] encode74_seq(data@)[t],
        {
            // Process lower nibble
            encoded.push(Self::encode_nibble(data[i] & 0x0F));
            // Process upper nibble
            encoded.push(Self::encode_nibble(data[i] >> 4));
        }

        proof {
            assert(encoded@ =~= encode74_seq(data@));
        }
        encoded
    }

    fn decode(&self, encoded: &[u8]) -> (r: Result<Vec<u8>, HammingError>) {
        if encoded.len() % 2 != 0 {
            return Err(HammingError::InvalidLength);
        }

        let mut decoded: Vec<u8> = Vec::new();
        let n = encoded.len() / 2;
        proof {
            vstd::arithmetic::div_mod::lemma_fundamental_div_mod(encoded@.len() as int, 2);
        }

        for i in 0..n
            invariant
                encoded@.len() == 2 * n,
                2 * n <= usize::MAX,
                decoded@.len() == i,
                forall|t: int|
                    0 <= t < i ==> decoded@[t] == #[trigger] decode74_seq(encoded@)->Ok_0[t],
        {
            let lower = match Self::decode_block(encoded[2 * i]) {
                Ok(v) => v,
                Err(e) => {
                    return Err(e);
                },
            };
            let upper = match Self::decode_block(encoded[2 * i + 1]) {
                Ok(v) => v,
                Err(e) => {
                    return Err(e);
                },
            };
            decoded.push(lower | (upper << 4));
        }

        proof {
            assert(decoded@ =~= decode74_seq(encoded@)->Ok_0);
        }
        Ok(decoded)
    }

    fn block_size(&self) -> usize {
        7
    }

    fn data_bits(&self) -> usize {
        4
    }
}

/// Law: decoding an uncorrupted codeword gives back its nibble.
pub proof fn lemma_nibble_round_trip(n: u8)
    requires
        n < 16,
    ensures
        decode74(encode74(n)) == n,
{
    assert(decode74(encode74(n)) == n) by (bit_vector)
        requires
            n < 16,
    ;
}

/// Law: a codeword with any single bit flipped still decodes to its nibble
/// (bit 7 is unused and is masked off by decoding).
pub proof fn lemma_nibble_corrects_single_flip(n: u8, j: u8)
    requires
        n < 16,
        j < 8,
    ensures
        decode74(encode74(n) ^ (1u8 << j)) == n,
{
    assert(decode74(encode74(n) ^ (1u8 << j)) == n) by (bit_vector)
        requires
            n < 16 && j < 8,
    ;
}

/// Law: decoding inverts encoding exactly; Hamming(7,4) processes whole
/// bytes, so the round trip has no padding.
pub proof fn lemma_hamming74_round_trip(data: Seq<u8>)
    ensures
        decode74_seq(encode74_seq(data)) == Ok::<Seq<u8>, HammingError>(data),
{
    let e = encode74_seq(data);
    let d = decode74_seq(e)->Ok_0;
    assert forall|i: int| 0 <= i < data.len() implies d[i] == data[i] by {
        let b = data[i];
        assert(e[2 * i] == encode74(b & 0x0f) && e[2 * i + 1] == encode74(b >> 4));
        assert(decode74(encode74(b & 0x0f)) == (b & 0x0f) && decode74(encode74(b >> 4)) == (b >> 4)
            && ((b & 0x0f) | ((b >> 4) << 4)) == b) by (bit_vector);
    }
    assert(d =~= data);
}

/// Law: flipping exactly one bit anywhere in the encoded stream still
/// decodes to the original data.
pub proof fn lemma_hamming74_corrects_flip(data: Seq<u8>, g: int)
    requires
        0 <= g < 8 * encode74_seq(data).len(),
    ensures
        decode74_seq(flip_stream(encode74_seq(data), g)) == Ok::<Seq<u8>, HammingError>(data),
{
    let e = encode74_seq(data);
    let f = flip_stream(e, g);
    let k = g / 8;
    let j = (g % 8) as u8;
    assert(0 <= k < e.len() && f.len() == e.len()) by {
        vstd::arithmetic::div_mod::lemma_fundamental_div_mod(g, 8);
    }
    let d = decode74_seq(f)->Ok_0;
    assert forall|i: int| 0 <= i < data.len() implies d[i] == data[i] by {
        let b = data[i];
        let lo = f[2 * i];
        let hi = f[2 * i + 1];
        assert(lo == encode74(b & 0x0f) || lo == encode74(b & 0x0f) ^ (1u8 << j));
        assert(hi == encode74(b >> 4) || hi == encode74(b >> 4) ^ (1u8 << j));
        assert((decode74(encode74(b & 0x0f)) == (b & 0x0f)) && (decode74(
            encode74(b & 0x0f) ^ (1u8 << j),
        ) == (b & 0x0f)) && (decode74(encode74(b >> 4)) == (b >> 4)) && (decode74(
            encode74(b >> 4) ^ (1u8 << j),
        ) == (b >> 4)) && ((b & 0x0f) | ((b >> 4) << 4)) == b) by (bit_vector)
            requires
                j < 8,
        ;
    }
    assert(d =~= data);
}

/// Law: a Hamming(7,4) syndrome always lies inside the block, so decoding
/// fails only on an odd-length input, never with `UncorrectableErrors`.
pub proof fn lemma_hamming74_decode_total(encoded: Seq<u8>)
    ensures
        decode74_seq(encoded) matches Err(e) ==> e == HammingError::InvalidLength && encoded.len()
            % 2 != 0,
        encoded.len() % 2 == 0 ==> (decode74_seq(encoded) matches Ok(v) && v.len() == encoded.len()
            / 2),
{
}

/// Law: the empty sequence encodes and decodes to the empty sequence.
pub proof fn lemma_hamming74_empty()
    ensures
        encode74_seq(Seq::<u8>::empty()) == Seq::<u8>::empty(),
        decode74_seq(Seq::<u8>::empty()) == Ok::<Seq<u8>, HammingError>(Seq::<u8>::empty()),
{
    assert(encode74_seq(Seq::<u8>::empty()) =~= Seq::<u8>::empty());
    assert(decode74_seq(Seq::<u8>::empty())->Ok_0 =~= Seq::<u8>::empty());
}

} // verus!
