//! The fixed Hamming(15,11) codec: the input byte stream is split into
//! 11-bit groups (the final partial group zero-extended), each group is
//! encoded into one 15-bit codeword, and each codeword is stored in exactly
//! two output bytes, low byte first. Decoding corrects one flipped bit per
//! codeword, re-extracts the 11-bit groups and emits every completed output
//! byte; a final group of leftover bits shorter than a byte is dropped.

use crate::bits::{flip_stream, pack_bits, stream_bit, stream_word16};
use crate::{HammingCode, HammingError};
use vstd::prelude::*;

verus! {

/// Hamming(15,11) implementation.
pub struct Hamming1511;

/// XOR-parity of all 16 bits of `x`: the population count mod 2.
pub open spec fn parity16(x: u16) -> u16 {
    (x & 1) ^ ((x >> 1) & 1) ^ ((x >> 2) & 1) ^ ((x >> 3) & 1) ^ ((x >> 4) & 1) ^ ((x >> 5) & 1)
        ^ ((x >> 6) & 1) ^ ((x >> 7) & 1) ^ ((x >> 8) & 1) ^ ((x >> 9) & 1) ^ ((x >> 10) & 1) ^ ((
    x >> 11) & 1) ^ ((x >> 12) & 1) ^ ((x >> 13) & 1) ^ ((x >> 14) & 1) ^ ((x >> 15) & 1)
}

/// Data bits d0..d10 placed at word bits 2, 4, 5, 6, 8, 9, 10, 11, 12, 13,
/// 14; the parity bits at word bits 0, 1, 3, 7 are left clear.
pub open spec fn place1511(data: u16) -> u16 {
    let d = data & 0x7FF;
    ((d & 0x001) << 2) | ((d & 0x002) << 3) | ((d & 0x004) << 3) | ((d & 0x008) << 3) | ((d
        & 0x010) << 4) | ((d & 0x020) << 4) | ((d & 0x040) << 4) | ((d & 0x080) << 4) | ((d
        & 0x100) << 4) | ((d & 0x200) << 4) | ((d & 0x400) << 4)
}

/// The 15-bit codeword for an 11-bit group (only the low 11 bits of `data`
/// are read): the placed data bits, plus the four parity bits, each the
/// XOR-parity of the word bits its mask selects.
pub open spec fn encode_block15(data: u16) -> u16 {
    let block = place1511(data);
    let p1 = parity16(block & 0x5555);
    let p2 = parity16(block & 0x6666);
    let p4 = parity16(block & 0x7878);
    let p8 = parity16(block & 0x7F80);
    block | p1 | (p2 << 1) | (p4 << 3) | (p8 << 7)
}

/// The syndrome of a received word: the four parity checks recombined into
/// a 4-bit value, the 1-indexed position of a single flipped bit.
pub open spec fn syndrome15(b: u16) -> u16 {
    parity16(b & 0x5555) | (parity16(b & 0x6666) << 1) | (parity16(b & 0x7878) << 2) | (parity16(
        b & 0x7F80,
    ) << 3)
}

/// The word with the bit its syndrome names flipped back.
pub open spec fn correct15(b: u16) -> u16 {
    let s = syndrome15(b);
    if s == 0 {
        b
    } else {
        b ^ (1u16 << ((s - 1) as u16))
    }
}

/// The 11 data bits extracted from a corrected word.
pub open spec fn extract15(b: u16) -> u16 {
    ((b >> 2) & 0x001) | ((b >> 3) & 0x002) | ((b >> 3) & 0x004) | ((b >> 3) & 0x008) | ((b >> 4)
        & 0x010) | ((b >> 4) & 0x020) | ((b >> 4) & 0x040) | ((b >> 4) & 0x080) | ((b >> 4)
        & 0x100) | ((b >> 4) & 0x200) | ((b >> 4) & 0x400)
}

/// The 11-bit group a received word decodes to. A 4-bit syndrome always
/// names a position in the 15-bit word, so decoding a block cannot fail.
pub open spec fn decode_block15(b: u16) -> u16 {
    extract15(correct15(b))
}

/// How many 11-bit groups the input stream packs into.
pub open spec fn groups1511(len: nat) -> nat {
    (8 * len + 10) / 11
}

/// The encoded sequence: one codeword per 11-bit group, two bytes per
/// codeword, low byte first.
pub open spec fn encode1511_seq(data: Seq<u8>) -> Seq<u8> {
    Seq::new(
        2 * groups1511(data.len()),
        |i: int|
            {
                let w = encode_block15(stream_word16(data, 11 * (i / 2), 11));
                if i % 2 == 0 {
                    w as u8
                } else {
                    (w >> 8) as u8
                }
            },
    )
}

/// The 15-bit word stored at byte pair `k` of the encoded sequence.
pub open spec fn word_at(encoded: Seq<u8>, k: int) -> u16 {
    (encoded[2 * k] as u16) | ((encoded[2 * k + 1] as u16) << 8)
}

/// The bit stream the decoded groups spell out, 11 bits per block.
pub open spec fn decoded_bits1511(encoded: Seq<u8>, nb: nat) -> Seq<bool> {
    Seq::new(11 * nb, |i: int| (decode_block15(word_at(encoded, i / 11)) >> (i % 11)) & 1 == 1)
}

/// The decode result: `InvalidLength` for an odd-length input, otherwise
/// the decoded groups' bits packed into bytes, leftover bits dropped.
pub open spec fn decode1511_seq(encoded: Seq<u8>) -> Result<Seq<u8>, HammingError> {
    if encoded.len() % 2 != 0 {
        Err(HammingError::InvalidLength)
    } else {
        let nb = encoded.len() / 2;
        Ok(pack_bits(decoded_bits1511(encoded, nb), (11 * nb) / 8))
    }
}

impl Hamming1511 {
    /// XOR together the bits `mask` selects from `block`: the
    /// population-count parity of `block & mask`.
    pub fn calc_parity(block: u16, mask: u16) -> (r: u16)
        ensures
            r == parity16(block & mask),
    {
        let x = block & mask;
        (x & 1) ^ ((x >> 1) & 1) ^ ((x >> 2) & 1) ^ ((x >> 3) & 1) ^ ((x >> 4) & 1) ^ ((x >> 5)
            & 1) ^ ((x >> 6) & 1) ^ ((x >> 7) & 1) ^ ((x >> 8) & 1) ^ ((x >> 9) & 1) ^ ((x >> 10)
            & 1) ^ ((x >> 11) & 1) ^ ((x >> 12) & 1) ^ ((x >> 13) & 1) ^ ((x >> 14) & 1) ^ ((x
            >> 15) & 1)
    }

    /// Encode one 11-bit group into its 15-bit codeword.
    pub fn encode_block(data: u16) -> (r: u16)
        ensures
            r == encode_block15(data),
    {
        let d = data & 0x7FF;  // Ensure only 11 bits

        // Map data bits to their positions in the 15-bit block.
        // Hamming positions (1-indexed): 1,2,4,8 are parity;
        // data positions (1-indexed): 3,5,6,7,9,10,11,12,13,14,15.
        let block = ((d & 0x001) << 2) | ((d & 0x002) << 3) | ((d & 0x004) << 3) | ((d & 0x008)
            << 3) | ((d & 0x010) << 4) | ((d & 0x020) << 4) | ((d & 0x040) << 4) | ((d & 0x080)
            << 4) | ((d & 0x100) << 4) | ((d & 0x200) << 4) | ((d & 0x400) << 4);

        // Calculate and set parity bits
        let p1 = Self::calc_parity(block, 0x5555);  // positions with bit 0 set
        let p2 = Self::calc_parity(block, 0x6666);  // positions with bit 1 set
        let p4 = Self::calc_parity(block, 0x7878);  // positions with bit 2 set
        let p8 = Self::calc_parity(block, 0x7F80);  // positions with bit 3 set

        block | p1 | (p2 << 1) | (p4 << 3) | (p8 << 7)
    }

    /// Decode one received word: correct the bit a nonzero syndrome names,
    /// then extract the 11 data bits. A 4-bit syndrome always names a
    /// position in the word, so this never fails.
    pub fn decode_block(block: u16) -> (r: Result<u16, HammingError>)
        ensures
            r == Ok::<u16, HammingError>(decode_block15(block)),
    {
        // Calculate syndrome
        let s1 = Self::calc_parity(block, 0x5555);
        let s2 = Self::calc_parity(block, 0x6666);
        let s4 = Self::calc_parity(block, 0x7878);
        let s8 = Self::calc_parity(block, 0x7F80);

        let syndrome = s1 | (s2 << 1) | (s4 << 2) | (s8 << 3);
        proof {
            assert(s1 | (s2 << 1) | (s4 << 2) | (s8 << 3) <= 15) by (bit_vector)
                requires
                    s1 == parity16(block & 0x5555),
                    s2 == parity16(block & 0x6666),
                    s4 == parity16(block & 0x7878),
                    s8 == parity16(block & 0x7F80),
            ;
        }

        // Correct error if needed
        let mut corrected = block;
        if syndrome != 0 {
            if syndrome <= 15 {
                corrected = corrected ^ (1u16 << ((syndrome - 1) as u32));
            } else {
                return Err(HammingError::UncorrectableErrors);
            }
        }

        // Extract data bits from corrected block
        let data = ((corrected >> 2) & 0x001) | ((corrected >> 3) & 0x002) | ((corrected >> 3)
            & 0x004) | ((corrected >> 3) & 0x008) | ((corrected >> 4) & 0x010) | ((corrected >> 4)
            & 0x020) | ((corrected >> 4) & 0x040) | ((corrected >> 4) & 0x080) | ((corrected >> 4)
            & 0x100) | ((corrected >> 4) & 0x200) | ((corrected >> 4) & 0x400);

        Ok(data)
    }
}

impl HammingCode for Hamming1511 {
    open spec fn wf(&self) -> bool {
        true
    }

    open spec fn spec_data_bits(&self) -> usize {
        11
    }

    open spec fn spec_block_size(&self) -> usize {
        15
    }

    open spec fn encode_fits(&self, data: Seq<u8>) -> bool {
        8 * data.len() + 10 <= usize::MAX
    }

    open spec fn decode_fits(&self, encoded: Seq<u8>) -> bool {
        encoded.len() <= usize::MAX / 11
    }

    open spec fn spec_encode(&self, data: Seq<u8>) -> Seq<u8> {
        encode1511_seq(data)
    }

    open spec fn spec_decode(&self, encoded: Seq<u8>) -> Result<Seq<u8>, HammingError> {
        decode1511_seq(encoded)
    }

    fn encode(&self, data: &[u8]) -> (r: Vec<u8>) {
        if data.len() == 0 {
            proof {
                assert(Seq::<u8>::empty() =~= encode1511_seq(data@));
            }
            return Vec::new();
        }
        let total_bits = 8 * data.len();
        let nb = (total_bits + 10) / 11;
        proof {
            vstd::arithmetic::div_mod::lemma_fundamental_div_mod(8 * data@.len() as int + 10, 11);
        }
        let mut encoded: Vec<u8> = Vec::new();

        for k in 0..nb
            invariant
                8 * data@.len() + 10 <= usize::MAX,
                nb == groups1511(data@.len()),
                11 * nb <= 8 * data@.len() + 10,
                encoded@.len() == 2 * k,
                forall|t: int|
                    0 <= t < 2 * k ==> encoded@[t] == #[trigger] encode1511_seq(data@)[t],
        {
            let g = crate::bits::read_word16(data, 11 * k, 11);
            let w = Self::encode_block(g);
            encoded.push(w as u8);
            encoded.push((w >> 8) as u8);
        }

        proof {
            assert(encoded@ =~= encode1511_seq(data@));
        }
        encoded
    }

    fn decode(&self, encoded: &[u8]) -> (r: Result<Vec<u8>, HammingError>) {
        if encoded.len() == 0 {
            proof {
                assert(pack_bits(decoded_bits1511(encoded@, 0), 0) =~= Seq::<u8>::empty());
            }
            return Ok(Vec::new());
        }

        if encoded.len() % 2 != 0 {
            return Err(HammingError::InvalidLength);
        }

        let nb = encoded.len() / 2;
        proof {
            vstd::arithmetic::div_mod::lemma_fundamental_div_mod(encoded@.len() as int, 2);
            vstd::arithmetic::div_mod::lemma_fundamental_div_mod(usize::MAX as int, 11);
        }

        // Re-extract the 11 bits of every block.
        let mut gbits: Vec<bool> = Vec::new();
        for k in 0..nb
            invariant
                encoded@.len() == 2 * nb,
                2 * nb <= usize::MAX,
                nb <= usize::MAX / 11,
                gbits@.len() == 11 * k,
                11 * k <= 11 * nb <= usize::MAX,
                forall|t: int|
                    0 <= t < 11 * k ==> gbits@[t] == #[trigger] decoded_bits1511(
                        encoded@,
                        nb as nat,
                    )[t],
        {
            let w = (encoded[2 * k] as u16) | ((encoded[2 * k + 1] as u16) << 8);
            let d = match Self::decode_block(w) {
                Ok(v) => v,
                Err(e) => {
                    return Err(e);
                },
            };
            for j in 0..11usize
                invariant
                    encoded@.len() == 2 * nb,
                    2 * nb <= usize::MAX,
                    k < nb,
                    11 * k + 11 <= 11 * nb <= usize::MAX,
                    d == decode_block15(word_at(encoded@, k as int)),
                    gbits@.len() == 11 * k + j,
                    forall|t: int|
                        0 <= t < 11 * k + j ==> gbits@[t] == #[trigger] decoded_bits1511(
                            encoded@,
                            nb as nat,
                        )[t],
            {
                gbits.push((d >> (j as u32)) & 1 == 1);
                proof {
                    vstd::arithmetic::div_mod::lemma_fundamental_div_mod_converse(
                        11 * k + j,
                        11,
                        k as int,
                        j as int,
                    );
                }
            }
        }

        let out_bytes = (11 * nb) / 8;
        proof {
            vstd::arithmetic::div_mod::lemma_fundamental_div_mod(11 * nb as int, 8);
        }
        let decoded = crate::bits::pack_bit_vec(&gbits, out_bytes);
        proof {
            assert(gbits@ =~= decoded_bits1511(encoded@, nb as nat));
            assert(decoded@ =~= decode1511_seq(encoded@)->Ok_0);
        }
        Ok(decoded)
    }

    fn block_size(&self) -> usize {
        15
    }

    fn data_bits(&self) -> usize {
        11
    }
}

/// Law: decoding an uncorrupted codeword gives back its 11-bit group.
pub proof fn lemma_block1511_round_trip(d: u16)
    requires
        d < 0x800,
    ensures
        decode_block15(encode_block15(d)) == d,
{
    let b = place1511(d);
    let p1 = parity16(b & 0x5555);
    let p2 = parity16(b & 0x6666);
    let p4 = parity16(b & 0x7878);
    let p8 = parity16(b & 0x7F80);
    let w = b | p1 | (p2 << 1) | (p4 << 3) | (p8 << 7);
    let s1 = parity16(w & 0x5555);
    let s2 = parity16(w & 0x6666);
    let s4 = parity16(w & 0x7878);
    let s8 = parity16(w & 0x7F80);
    let syn = s1 | (s2 << 1) | (s4 << 2) | (s8 << 3);
    assert(syn == 0 && extract15(w) == d) by (bit_vector)
        requires
            d < 0x800,
            b == place1511(d),
            p1 == parity16(b & 0x5555),
            p2 == parity16(b & 0x6666),
            p4 == parity16(b & 0x7878),
            p8 == parity16(b & 0x7F80),
            w == b | p1 | (p2 << 1) | (p4 << 3) | (p8 << 7),
            s1 == parity16(w & 0x5555),
            s2 == parity16(w & 0x6666),
            s4 == parity16(w & 0x7878),
            s8 == parity16(w & 0x7F80),
            syn == s1 | (s2 << 1) | (s4 << 2) | (s8 << 3),
    ;
    assert(syndrome15(w) == syn && correct15(w) == w);
}

/// Law: a codeword with any single bit flipped still decodes to its group
/// (bit 15 is unused and is never read back).
pub proof fn lemma_block1511_corrects_single_flip(d: u16, j: u16)
    requires
        d < 0x800,
        j < 16,
    ensures
        decode_block15(encode_block15(d) ^ (1u16 << j)) == d,
{
    let b = place1511(d);
    let p1 = parity16(b & 0x5555);
    let p2 = parity16(b & 0x6666);
    let p4 = parity16(b & 0x7878);
    let p8 = parity16(b & 0x7F80);
    let w = b | p1 | (p2 << 1) | (p4 << 3) | (p8 << 7);
    let f = w ^ (1u16 << j);
    let s1 = parity16(f & 0x5555);
    let s2 = parity16(f & 0x6666);
    let s4 = parity16(f & 0x7878);
    let s8 = parity16(f & 0x7F80);
    let syn = s1 | (s2 << 1) | (s4 << 2) | (s8 << 3);
    let c = if syn == 0 {
        f
    } else {
        f ^ (1u16 << ((syn - 1) as u16))
    };
    assert(extract15(c) == d) by (bit_vector)
        requires
            d < 0x800,
            j < 16,
            b == place1511(d),
            p1 == parity16(b & 0x5555),
            p2 == parity16(b & 0x6666),
            p4 == parity16(b & 0x7878),
            p8 == parity16(b & 0x7F80),
            w == b | p1 | (p2 << 1) | (p4 << 3) | (p8 << 7),
            f == w ^ (1u16 << j),
            s1 == parity16(f & 0x5555),
            s2 == parity16(f & 0x6666),
            s4 == parity16(f & 0x7878),
            s8 == parity16(f & 0x7F80),
            syn == s1 | (s2 << 1) | (s4 << 2) | (s8 << 3),
            c == (if syn == 0 {
                f
            } else {
                f ^ (1u16 << ((syn - 1) as u16))
            }),
    ;
    assert(syndrome15(f) == syn && correct15(f) == c);
}

/// The word stored for block `k` of the encoded sequence is the codeword of
/// the `k`-th 11-bit input group.
proof fn lemma_word_at_encode(data: Seq<u8>, k: int)
    requires
        0 <= k < groups1511(data.len()),
    ensures
        word_at(encode1511_seq(data), k) == encode_block15(stream_word16(data, 11 * k, 11)),
{
    let e = encode1511_seq(data);
    let w = encode_block15(stream_word16(data, 11 * k, 11));
    vstd::arithmetic::div_mod::lemma_fundamental_div_mod_converse(2 * k, 2, k, 0);
    vstd::arithmetic::div_mod::lemma_fundamental_div_mod_converse(2 * k + 1, 2, k, 1);
    assert(e[2 * k] == w as u8 && e[2 * k + 1] == (w >> 8) as u8);
    assert(((w as u8) as u16) | (((w >> 8) as u8 as u16) << 8) == w) by (bit_vector);
}

/// The bits the decode of an uncorrupted encoding spells out are exactly
/// the input stream's bits (zero past the input's end).
proof fn lemma_decoded_bits_round_trip(data: Seq<u8>, i: int)
    requires
        0 <= i < 11 * groups1511(data.len()),
    ensures
        decoded_bits1511(encode1511_seq(data), groups1511(data.len()))[i] == stream_bit(data, i),
{
    let nb = groups1511(data.len());
    let k = i / 11;
    let j = i % 11;
    vstd::arithmetic::div_mod::lemma_fundamental_div_mod(i, 11);
    assert(0 <= k < nb && 0 <= j < 11);
    lemma_word_at_encode(data, k);
    let g = stream_word16(data, 11 * k, 11);
    crate::bits::lemma_stream_word16_bound(data, 11 * k, 11);
    assert(g >> 11 == 0 ==> g < 0x800) by (bit_vector);
    lemma_block1511_round_trip(g);
    crate::bits::lemma_stream_word16_bit(data, 11 * k, 11, j as nat);
}

/// Law: decoding an uncorrupted encoding reproduces the input, followed
/// only by zero bytes from the final zero-extended partial group.
pub proof fn lemma_hamming1511_round_trip(data: Seq<u8>)
    ensures
        decode1511_seq(encode1511_seq(data)) matches Ok(v) && v.len() == (11 * groups1511(
            data.len(),
        )) / 8 && v.take(data.len() as int) == data && (forall|t: int|
            data.len() <= t < v.len() ==> v[t] == 0),
{
    let nb = groups1511(data.len());
    let len = data.len() as int;
    let e = encode1511_seq(data);
    vstd::arithmetic::div_mod::lemma_fundamental_div_mod_converse(2 * nb as int, 2, nb as int, 0);
    assert(e.len() % 2 == 0 && e.len() / 2 == nb);
    let dbits = decoded_bits1511(e, nb);
    let outlen = (11 * nb) / 8;
    let v = decode1511_seq(e)->Ok_0;
    // the group count covers every input bit
    vstd::arithmetic::div_mod::lemma_fundamental_div_mod(8 * len + 10, 11);
    assert(8 * len <= 11 * nb);
    vstd::arithmetic::div_mod::lemma_div_is_ordered(8 * len, 11 * nb as int, 8);
    vstd::arithmetic::div_mod::lemma_div_multiples_vanish(len, 8);
    assert(len <= outlen);
    assert forall|m: int| 0 <= m < outlen implies v[m] == (if m < len {
        data[m]
    } else {
        0u8
    }) by {
        crate::bits::lemma_u8_zero_has_no_bits();
        assert forall|j: int| 0 <= j < 8 implies #[trigger] crate::bits::bit_at(dbits, 8 * m + j)
            == (((if m < len {
            data[m]
        } else {
            0u8
        }) >> j) & 1 == 1) by {
            let i = 8 * m + j;
            if i < 11 * nb {
                lemma_decoded_bits_round_trip(data, i);
            }
            if m < len {
                vstd::arithmetic::div_mod::lemma_fundamental_div_mod_converse(i, 8, m, j);
                assert(stream_bit(data, i) == ((data[m] >> j) & 1 == 1));
            } else {
                assert(i >= 8 * len);
                assert(!stream_bit(data, i));
                assert(((0u8 >> (j as u8)) & 1) != 1);
            }
        }
        crate::bits::lemma_bits_byte_matches(
            dbits,
            8 * m,
            if m < len {
                data[m]
            } else {
                0u8
            },
        );
    }
    assert(v.take(len) =~= data);
}

/// Law: flipping exactly one bit anywhere in the encoded stream leaves the
/// decode result unchanged, so a single flip per block is corrected.
pub proof fn lemma_hamming1511_corrects_flip(data: Seq<u8>, g: int)
    requires
        0 <= g < 8 * encode1511_seq(data).len(),
    ensures
        decode1511_seq(flip_stream(encode1511_seq(data), g)) == decode1511_seq(
            encode1511_seq(data),
        ),
{
    let nb = groups1511(data.len());
    let e = encode1511_seq(data);
    let f = flip_stream(e, g);
    let k0 = g / 8;
    let j = (g % 8) as u8;
    vstd::arithmetic::div_mod::lemma_fundamental_div_mod(g, 8);
    assert(0 <= k0 < e.len() && f.len() == e.len());
    vstd::arithmetic::div_mod::lemma_fundamental_div_mod_converse(2 * nb as int, 2, nb as int, 0);
    assert(f.len() % 2 == 0 && f.len() / 2 == nb);
    let dbits = decoded_bits1511(e, nb);
    let fbits = decoded_bits1511(f, nb);
    assert forall|i: int| 0 <= i < 11 * nb implies fbits[i] == dbits[i] by {
        let k = i / 11;
        vstd::arithmetic::div_mod::lemma_fundamental_div_mod(i, 11);
        assert(0 <= k < nb);
        lemma_word_at_encode(data, k);
        let grp = stream_word16(data, 11 * k, 11);
        crate::bits::lemma_stream_word16_bound(data, 11 * k, 11);
        let w = word_at(e, k);
        if 2 * k == k0 || 2 * k + 1 == k0 {
            let a = e[2 * k];
            let b = e[2 * k + 1];
            if 2 * k == k0 {
                assert(f[2 * k] == a ^ (1u8 << j) && f[2 * k + 1] == b);
                assert((((a ^ (1u8 << j)) as u16) | ((b as u16) << 8)) == (((a as u16) | ((
                b as u16) << 8)) ^ (1u16 << (j as u16)))) by (bit_vector)
                    requires
                        j < 8,
                ;
                assert(word_at(f, k) == w ^ (1u16 << (j as u16)));
            } else {
                assert(f[2 * k + 1] == b ^ (1u8 << j) && f[2 * k] == a);
                assert((((a as u16) | (((b ^ (1u8 << j)) as u16) << 8))) == (((a as u16) | ((
                b as u16) << 8)) ^ (1u16 << ((j + 8) as u16)))) by (bit_vector)
                    requires
                        j < 8,
                ;
                assert(word_at(f, k) == w ^ (1u16 << ((j + 8) as u16)));
            }
            let t: u16 = if 2 * k == k0 {
                j as u16
            } else {
                (j + 8) as u16
            };
            assert(word_at(f, k) == encode_block15(grp) ^ (1u16 << t));
            assert(grp >> 11 == 0 ==> grp < 0x800) by (bit_vector);
            lemma_block1511_round_trip(grp);
            lemma_block1511_corrects_single_flip(grp, t);
        } else {
            assert(f[2 * k] == e[2 * k] && f[2 * k + 1] == e[2 * k + 1]);
            assert(word_at(f, k) == w);
        }
    }
    assert(fbits =~= dbits);
    assert(decode1511_seq(f)->Ok_0 =~= decode1511_seq(e)->Ok_0);
}

/// Law: a Hamming(15,11) syndrome always lies inside the word, so decoding
/// fails only on an odd-length input, never with `UncorrectableErrors`.
pub proof fn lemma_hamming1511_decode_total(encoded: Seq<u8>)
    ensures
        decode1511_seq(encoded) matches Err(e) ==> e == HammingError::InvalidLength
            && encoded.len() % 2 != 0,
        encoded.len() % 2 == 0 ==> (decode1511_seq(encoded) matches Ok(v) && v.len() == (11 * (
        encoded.len() / 2)) / 8),
{
}

/// Law: the empty sequence encodes and decodes to the empty sequence.
pub proof fn lemma_hamming1511_empty()
    ensures
        encode1511_seq(Seq::<u8>::empty()) == Seq::<u8>::empty(),
        decode1511_seq(Seq::<u8>::empty()) == Ok::<Seq<u8>, HammingError>(Seq::<u8>::empty()),
{
    assert(encode1511_seq(Seq::<u8>::empty()) =~= Seq::<u8>::empty());
    assert(decode1511_seq(Seq::<u8>::empty())->Ok_0 =~= Seq::<u8>::empty());
}

} // verus!
