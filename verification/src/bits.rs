//! Little-endian bit-stream model shared by the codec variants.
//!
//! A byte sequence is viewed as a stream of bits, least-significant bit
//! first within each byte: bit `i` of the stream is bit `i % 8` of byte
//! `i / 8`. Reads past the end of a stream yield zero bits, which models the
//! zero-padding every variant applies to a final partial group.

use vstd::prelude::*;

verus! {

/// Bit `i` of the bit stream formed by `bytes`; `false` outside the stream.
pub open spec fn stream_bit(bytes: Seq<u8>, i: int) -> bool {
    &&& 0 <= i < 8 * bytes.len()
    &&& (bytes[i / 8] >> (i % 8)) & 1 == 1
}

/// Bit `i` of `bits`; `false` outside the sequence.
pub open spec fn bit_at(bits: Seq<bool>, i: int) -> bool {
    0 <= i < bits.len() && bits[i]
}

/// `bytes` with bit `g` of its stream flipped.
pub open spec fn flip_stream(bytes: Seq<u8>, g: int) -> Seq<u8> {
    bytes.update(g / 8, bytes[g / 8] ^ (1u8 << (g % 8)))
}

/// The value of the `cnt` bits of `bits` starting at `start`,
/// least-significant first, packed into one byte.
pub open spec fn bits_byte(bits: Seq<bool>, start: int, cnt: nat) -> u8
    decreases cnt,
{
    if cnt == 0 {
        0u8
    } else {
        bits_byte(bits, start, (cnt - 1) as nat) | (if bit_at(bits, start + cnt - 1) {
            1u8 << (cnt - 1)
        } else {
            0u8
        })
    }
}

/// The value of the `cnt` bits of the stream of `bytes` starting at `start`,
/// least-significant first, packed into one 16-bit word.
pub open spec fn stream_word16(bytes: Seq<u8>, start: int, cnt: nat) -> u16
    decreases cnt,
{
    if cnt == 0 {
        0u16
    } else {
        stream_word16(bytes, start, (cnt - 1) as nat) | (if stream_bit(bytes, start + cnt - 1) {
            1u16 << (cnt - 1)
        } else {
            0u16
        })
    }
}

/// `bits` packed into `nbytes` bytes; bits past the end of `bits` pack as
/// zero.
pub open spec fn pack_bits(bits: Seq<bool>, nbytes: nat) -> Seq<u8> {
    Seq::new(nbytes, |m: int| bits_byte(bits, 8 * m, 8))
}

/// Bit `p` of the binary representation of `i`.
pub open spec fn has_bit(i: nat, p: nat) -> bool {
    (i / vstd::arithmetic::power2::pow2(p)) % 2 == 1
}

/// Flipping bit `g` of a stream changes that bit and no other.
pub proof fn lemma_flip_stream_bit(bytes: Seq<u8>, g: int, j: int)
    requires
        0 <= g < 8 * bytes.len(),
        0 <= j,
    ensures
        stream_bit(flip_stream(bytes, g), j) == (if j == g {
            !stream_bit(bytes, g)
        } else {
            stream_bit(bytes, j)
        }),
{
    vstd::arithmetic::div_mod::lemma_fundamental_div_mod(g, 8);
    vstd::arithmetic::div_mod::lemma_fundamental_div_mod(j, 8);
    let f = flip_stream(bytes, g);
    if j < 8 * bytes.len() {
        if j / 8 == g / 8 {
            let x = bytes[g / 8];
            let a: u8 = (g % 8) as u8;
            let b: u8 = (j % 8) as u8;
            assert((((x ^ (1u8 << a)) >> b) & 1 == 1) == (if a == b {
                !((x >> b) & 1 == 1)
            } else {
                (x >> b) & 1 == 1
            })) by (bit_vector)
                requires
                    a < 8,
                    b < 8,
            ;
            assert(j == g <==> (j / 8 == g / 8 && b == a));
        }
    }
}

/// The test `i & (1 << p) != 0` reads bit `p` of `i`'s binary
/// representation.
pub proof fn lemma_mask_test_is_has_bit(i: usize, p: usize)
    requires
        p < usize::BITS,
    ensures
        ((i & (1usize << p)) != 0) == has_bit(i as nat, p as nat),
{
    vstd::bits::lemma_usize_shr_is_div(i, p);
    assert(((i & (1usize << p)) != 0) == ((i >> p) & 1usize == 1)) by (bit_vector)
        requires
            p < usize::BITS,
    ;
    let q = i >> p;
    vstd::bits::lemma_usize_low_bits_mask_is_mod(q, 1);
    vstd::bits::lemma_low_bits_mask_values();
    vstd::arithmetic::power2::lemma2_to64();
}

/// Or-ing in a zero byte changes nothing.
pub proof fn lemma_u8_or_zero(x: u8)
    ensures
        x | 0u8 == x,
{
    assert(x | 0u8 == x) by (bit_vector);
}

/// Or-ing in a zero word changes nothing.
pub proof fn lemma_u16_or_zero(x: u16)
    ensures
        x | 0u16 == x,
{
    assert(x | 0u16 == x) by (bit_vector);
}

/// A packed byte uses only its low `cnt` bits.
pub proof fn lemma_bits_byte_bound(bits: Seq<bool>, start: int, cnt: nat)
    requires
        cnt <= 8,
    ensures
        bits_byte(bits, start, cnt) >> cnt == 0,
    decreases cnt,
{
    if cnt == 0 {
        assert(0u8 >> 0 == 0) by (bit_vector);
    } else {
        lemma_bits_byte_bound(bits, start, (cnt - 1) as nat);
        let x = bits_byte(bits, start, (cnt - 1) as nat);
        let c: u8 = (cnt - 1) as u8;
        let b = bit_at(bits, start + cnt - 1);
        assert(x >> c == 0 ==> (x | (if b {
            1u8 << c
        } else {
            0u8
        })) >> (c + 1) == 0) by (bit_vector)
            requires
                c < 8,
        ;
    }
}

/// Bit `j` of a packed byte is the corresponding source bit.
pub proof fn lemma_bits_byte_bit(bits: Seq<bool>, start: int, cnt: nat, j: nat)
    requires
        j < cnt <= 8,
    ensures
        ((bits_byte(bits, start, cnt) >> j) & 1 == 1) == bit_at(bits, start + j),
    decreases cnt,
{
    let x = bits_byte(bits, start, (cnt - 1) as nat);
    let c: u8 = (cnt - 1) as u8;
    let jj: u8 = j as u8;
    let b = bit_at(bits, start + cnt - 1);
    if j + 1 == cnt {
        lemma_bits_byte_bound(bits, start, (cnt - 1) as nat);
        assert(x >> c == 0 ==> (((x | (if b {
            1u8 << c
        } else {
            0u8
        })) >> jj) & 1 == 1) == b) by (bit_vector)
            requires
                jj == c,
                c < 8,
        ;
    } else {
        lemma_bits_byte_bit(bits, start, (cnt - 1) as nat, j);
        assert(((x | (if b {
            1u8 << c
        } else {
            0u8
        })) >> jj) & 1 == (x >> jj) & 1) by (bit_vector)
            requires
                jj < c,
                c < 8,
        ;
    }
}

/// A packed word uses only its low `cnt` bits.
pub proof fn lemma_stream_word16_bound(bytes: Seq<u8>, start: int, cnt: nat)
    requires
        cnt <= 16,
    ensures
        stream_word16(bytes, start, cnt) >> cnt == 0,
    decreases cnt,
{
    if cnt == 0 {
        assert(0u16 >> 0 == 0) by (bit_vector);
    } else {
        lemma_stream_word16_bound(bytes, start, (cnt - 1) as nat);
        let x = stream_word16(bytes, start, (cnt - 1) as nat);
        let c: u16 = (cnt - 1) as u16;
        let b = stream_bit(bytes, start + cnt - 1);
        assert(x >> c == 0 ==> (x | (if b {
            1u16 << c
        } else {
            0u16
        })) >> (c + 1) == 0) by (bit_vector)
            requires
                c < 16,
        ;
    }
}

/// Bit `j` of a packed word is the corresponding stream bit.
pub proof fn lemma_stream_word16_bit(bytes: Seq<u8>, start: int, cnt: nat, j: nat)
    requires
        j < cnt <= 16,
    ensures
        ((stream_word16(bytes, start, cnt) >> j) & 1 == 1) == stream_bit(bytes, start + j),
    decreases cnt,
{
    let x = stream_word16(bytes, start, (cnt - 1) as nat);
    let c: u16 = (cnt - 1) as u16;
    let jj: u16 = j as u16;
    let b = stream_bit(bytes, start + cnt - 1);
    if j + 1 == cnt {
        lemma_stream_word16_bound(bytes, start, (cnt - 1) as nat);
        assert(x >> c == 0 ==> (((x | (if b {
            1u16 << c
        } else {
            0u16
        })) >> jj) & 1 == 1) == b) by (bit_vector)
            requires
                jj == c,
                c < 16,
        ;
    } else {
        lemma_stream_word16_bit(bytes, start, (cnt - 1) as nat, j);
        assert(((x | (if b {
            1u16 << c
        } else {
            0u16
        })) >> jj) & 1 == (x >> jj) & 1) by (bit_vector)
            requires
                jj < c,
                c < 16,
        ;
    }
}

/// A byte is determined by its eight bits.
pub proof fn lemma_u8_eq_by_bits(x: u8, y: u8)
    by (bit_vector)
    requires
        ((x >> 0u8) & 1 == 1) == ((y >> 0u8) & 1 == 1),
        ((x >> 1u8) & 1 == 1) == ((y >> 1u8) & 1 == 1),
        ((x >> 2u8) & 1 == 1) == ((y >> 2u8) & 1 == 1),
        ((x >> 3u8) & 1 == 1) == ((y >> 3u8) & 1 == 1),
        ((x >> 4u8) & 1 == 1) == ((y >> 4u8) & 1 == 1),
        ((x >> 5u8) & 1 == 1) == ((y >> 5u8) & 1 == 1),
        ((x >> 6u8) & 1 == 1) == ((y >> 6u8) & 1 == 1),
        ((x >> 7u8) & 1 == 1) == ((y >> 7u8) & 1 == 1),
    ensures
        x == y,
{
}

/// A byte whose bits all match the bits of `x` packs to `x`.
pub proof fn lemma_bits_byte_matches(bits: Seq<bool>, start: int, x: u8)
    requires
        forall|j: int| 0 <= j < 8 ==> #[trigger] bit_at(bits, start + j) == ((x >> j) & 1 == 1),
    ensures
        bits_byte(bits, start, 8) == x,
{
    let y = bits_byte(bits, start, 8);
    lemma_bits_byte_bit(bits, start, 8, 0);
    lemma_bits_byte_bit(bits, start, 8, 1);
    lemma_bits_byte_bit(bits, start, 8, 2);
    lemma_bits_byte_bit(bits, start, 8, 3);
    lemma_bits_byte_bit(bits, start, 8, 4);
    lemma_bits_byte_bit(bits, start, 8, 5);
    lemma_bits_byte_bit(bits, start, 8, 6);
    lemma_bits_byte_bit(bits, start, 8, 7);
    lemma_u8_eq_by_bits(y, x);
}

/// Every bit of the zero byte is zero.
pub proof fn lemma_u8_zero_has_no_bits()
    ensures
        forall|j: u8| #[trigger] ((0u8 >> j) & 1) != 1,
{
    assert(forall|j: u8| #[trigger] ((0u8 >> j) & 1) != 1) by (bit_vector);
}

/// Reading bit `i` of a packed byte sequence gives back the source bit.
pub proof fn lemma_pack_bits_stream(bits: Seq<bool>, nbytes: nat, i: int)
    requires
        0 <= i < 8 * nbytes,
    ensures
        stream_bit(pack_bits(bits, nbytes), i) == bit_at(bits, i),
{
    vstd::arithmetic::div_mod::lemma_fundamental_div_mod(i, 8);
    lemma_bits_byte_bit(bits, 8 * (i / 8), 8, (i % 8) as nat);
}

/// Read bit `i` of the byte stream.
pub fn get_bit(bytes: &[u8], i: usize) -> (b: bool)
    requires
        i < 8 * bytes@.len(),
    ensures
        b == stream_bit(bytes@, i as int),
{
    let byte = bytes[i / 8];
    (byte >> ((i % 8) as u32)) & 1 == 1
}

/// Pack the bits of `bits` into `nbytes` bytes, least-significant bit first;
/// missing trailing bits pack as zero.
pub fn pack_bit_vec(bits: &Vec<bool>, nbytes: usize) -> (r: Vec<u8>)
    requires
        8 * nbytes <= usize::MAX,
    ensures
        r@ == pack_bits(bits@, nbytes as nat),
{
    let mut r: Vec<u8> = Vec::new();
    for m in 0..nbytes
        invariant
            8 * nbytes <= usize::MAX,
            r@.len() == m,
            forall|t: int| 0 <= t < m ==> r@[t] == bits_byte(bits@, 8 * t, 8),
    {
        let mut byte: u8 = 0;
        for j in 0..8usize
            invariant
                8 * nbytes <= usize::MAX,
                m < nbytes,
                byte == bits_byte(bits@, 8 * m as int, j as nat),
        {
            let idx = 8 * m + j;
            if idx < bits.len() && bits[idx] {
                byte = byte | (1u8 << (j as u32));
            } else {
                proof {
                    lemma_u8_or_zero(byte);
                }
            }
        }
        r.push(byte);
    }
    assert(r@ =~= pack_bits(bits@, nbytes as nat));
    r
}

/// Read the `cnt`-bit group of the byte stream starting at bit `start` into
/// one 16-bit word; bits past the end of the stream read as zero.
pub fn read_word16(bytes: &[u8], start: usize, cnt: usize) -> (w: u16)
    requires
        cnt <= 16,
        start + cnt <= usize::MAX,
    ensures
        w == stream_word16(bytes@, start as int, cnt as nat),
{
    let mut w: u16 = 0;
    for j in 0..cnt
        invariant
            cnt <= 16,
            start + cnt <= usize::MAX,
            w == stream_word16(bytes@, start as int, j as nat),
    {
        let i = start + j;
        proof {
            vstd::arithmetic::div_mod::lemma_fundamental_div_mod(i as int, 8);
        }
        if i / 8 < bytes.len() {
            if get_bit(bytes, i) {
                w = w | (1u16 << (j as u32));
            } else {
                proof {
                    lemma_u16_or_zero(w);
                }
            }
        } else {
            proof {
                lemma_u16_or_zero(w);
            }
        }
    }
    w
}

} // verus!
