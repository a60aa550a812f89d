//! The general Hamming codec, parametrized by the number of data bits per
//! block. Construction derives the minimal number of parity bits `r` with
//! `2^r >= data_bits + r + 1`. Encoding treats the input as one contiguous
//! little-endian bit stream, splits it into `data_bits`-sized groups (the
//! last group zero-padded), places each group's bits at the non-power-of-two
//! positions of a block, computes each parity bit as the XOR of the block
//! bits whose 1-indexed position has the parity bit's position bit set, and
//! packs the concatenated blocks into bytes. Decoding splits the received
//! stream into whole blocks (a partial trailing block is ignored),
//! recomputes each block's syndrome, corrects a single flipped bit per
//! block, and re-packs the extracted data bits.

use crate::bits::{bit_at, flip_stream, has_bit, pack_bits, stream_bit};
use crate::{HammingCode, HammingError};
use vstd::arithmetic::power2::pow2;
use vstd::prelude::*;

verus! {

/// General Hamming code implementation.
pub struct Hamming {
    /// Payload bits per block.
    pub data_bits: usize,
    /// Redundancy bits per block.
    pub parity_bits: usize,
}

/// Whether 1-indexed block position `pos` is a parity position, that is, a
/// power of two.
pub open spec fn parity_position(pos: nat) -> bool
    decreases pos,
{
    if pos == 0 {
        false
    } else if pos == 1 {
        true
    } else {
        pos % 2 == 0 && parity_position(pos / 2)
    }
}

/// How many parity positions lie in `[1, pos]`.
pub open spec fn pows_upto(pos: nat) -> nat
    decreases pos,
{
    if pos == 0 {
        0
    } else {
        pows_upto((pos - 1) as nat) + if parity_position(pos) {
            1nat
        } else {
            0nat
        }
    }
}

/// The index of the data bit carried at non-parity position `pos`: the
/// number of data positions in `[1, pos)`.
pub open spec fn data_index(pos: nat) -> nat {
    ((pos - 1) - pows_upto((pos - 1) as nat)) as nat
}

/// The exponent of a parity position: `pow_index(2^p) == p`.
pub open spec fn pow_index(pos: nat) -> nat
    decreases pos,
{
    if pos <= 1 {
        0
    } else {
        1 + pow_index(pos / 2)
    }
}

/// `r` parity bits suffice for `m` data bits: `2^r >= m + r + 1`.
pub open spec fn parity_sufficient(m: nat, r: nat) -> bool {
    pow2(r) >= m + r + 1
}

/// Well-formed general-codec parameters: at least one data bit, and the
/// smallest sufficient number of parity bits.
pub open spec fn params_ok(m: nat, r: nat) -> bool {
    &&& 1 <= m
    &&& 1 <= r
    &&& parity_sufficient(m, r)
    &&& forall|r2: nat| 1 <= r2 < r ==> !parity_sufficient(m, r2)
}

/// There are never more parity positions than positions.
pub proof fn lemma_pows_upto_le(pos: nat)
    ensures
        pows_upto(pos) <= pos,
    decreases pos,
{
    if pos > 0 {
        lemma_pows_upto_le((pos - 1) as nat);
    }
}

/// Every power of two is a parity position.
pub proof fn lemma_pow2_is_parity_position(e: nat)
    ensures
        parity_position(pow2(e)),
    decreases e,
{
    vstd::arithmetic::power2::lemma_pow2_pos(e);
    if e == 0 {
        assert(pow2(0) == 1) by {
            vstd::arithmetic::power2::lemma2_to64();
        }
    } else {
        vstd::arithmetic::power2::lemma_pow2_unfold(e);
        lemma_pow2_is_parity_position((e - 1) as nat);
        let n = pow2(e);
        assert(n == 2 * pow2((e - 1) as nat));
        assert(n % 2 == 0 && n / 2 == pow2((e - 1) as nat));
    }
}

/// Of two distinct parity positions, the larger is at least double the
/// smaller.
pub proof fn lemma_parity_positions_apart(a: nat, b: nat)
    requires
        parity_position(a),
        parity_position(b),
        a < b,
    ensures
        2 * a <= b,
    decreases b,
{
    if a == 1 {
        assert(b % 2 == 0);
    } else {
        lemma_parity_positions_apart(a / 2, b / 2);
    }
}

/// A parity position is the power of two its exponent names.
pub proof fn lemma_parity_position_pow2(pos: nat)
    requires
        parity_position(pos),
    ensures
        pos == pow2(pow_index(pos)),
    decreases pos,
{
    if pos == 1 {
        vstd::arithmetic::power2::lemma2_to64();
    } else {
        lemma_parity_position_pow2(pos / 2);
        vstd::arithmetic::power2::lemma_pow2_unfold((pow_index(pos / 2) + 1) as nat);
    }
}

/// In `[1, n]` with `2^e <= n < 2^(e+1)` lie exactly `e + 1` parity
/// positions.
pub proof fn lemma_pows_upto_value(e: nat, n: nat)
    requires
        pow2(e) <= n < pow2(e + 1),
    ensures
        pows_upto(n) == e + 1,
    decreases n,
{
    vstd::arithmetic::power2::lemma_pow2_pos(e);
    vstd::arithmetic::power2::lemma_pow2_unfold(e + 1);
    if n == pow2(e) {
        lemma_pow2_is_parity_position(e);
        assert(pows_upto(n) == pows_upto((n - 1) as nat) + 1);
        if e == 0 {
            vstd::arithmetic::power2::lemma2_to64();
            assert(n == 1);
            assert(pows_upto(0nat) == 0);
        } else {
            vstd::arithmetic::power2::lemma_pow2_unfold(e);
            vstd::arithmetic::power2::lemma_pow2_pos((e - 1) as nat);
            assert(pow2((e - 1) as nat) <= n - 1 < pow2(e));
            lemma_pows_upto_value((e - 1) as nat, (n - 1) as nat);
        }
    } else {
        assert(!parity_position(n)) by {
            if parity_position(n) {
                lemma_pow2_is_parity_position(e);
                lemma_parity_positions_apart(pow2(e), n);
            }
        }
        lemma_pows_upto_value(e, (n - 1) as nat);
    }
}

/// With minimal parity bits, a block of `m + r` bits holds exactly `r`
/// parity positions.
pub proof fn lemma_block_parity_count(m: nat, r: nat)
    requires
        params_ok(m, r),
    ensures
        pows_upto(m + r) == r,
        pow2((r - 1) as nat) <= m + r < pow2(r),
{
    if r == 1 {
        vstd::arithmetic::power2::lemma2_to64();
        assert(pow2(1) >= m + 2);
        assert(m + 1 < pow2(1));
        assert(pow2(0) <= m + 1);
        lemma_pows_upto_value(0, m + 1);
    } else {
        assert(!parity_sufficient(m, (r - 1) as nat));
        assert(pow2((r - 1) as nat) < m + r);
        assert(m + r < pow2(r)) by {
            assert(pow2(r) >= m + r + 1);
        }
        lemma_pows_upto_value((r - 1) as nat, m + r);
    }
}

/// The data bit that non-parity position `pos` of block `k` carries: bit
/// `k*m + data_index(pos)` of the input stream, zero past the stream's end.
pub open spec fn data_bit_of(data: Seq<u8>, m: nat, k: int, pos: nat) -> bool {
    data_index(pos) < m && stream_bit(data, k * (m as int) + data_index(pos))
}

/// Block `k` before its parity bits are filled in: data bits at non-parity
/// positions, `false` elsewhere.
pub open spec fn raw_block(data: Seq<u8>, m: nat, bb: nat, k: int) -> Seq<bool> {
    Seq::new(
        bb,
        |i: int| !parity_position((i + 1) as nat) && data_bit_of(data, m, k, (i + 1) as nat),
    )
}

/// Parity check `p` over positions `[1, n]` of a block: the XOR of the
/// bits whose 1-indexed position has bit `p` set.
pub open spec fn check_xor(blk: Seq<bool>, p: nat, n: nat) -> bool
    decreases n,
{
    if n == 0 {
        false
    } else {
        check_xor(blk, p, (n - 1) as nat) != (has_bit(n, p) && bit_at(blk, n - 1))
    }
}

/// The codeword of block `k`: data bits at non-parity positions, and each
/// parity position `2^p` holding parity check `p` of the raw block.
pub open spec fn code_block(data: Seq<u8>, m: nat, r: nat, k: int) -> Seq<bool> {
    Seq::new(
        (m + r) as nat,
        |i: int|
            if parity_position((i + 1) as nat) {
                check_xor(raw_block(data, m, (m + r) as nat, k), pow_index((i + 1) as nat), (m
                    + r) as nat)
            } else {
                data_bit_of(data, m, k, (i + 1) as nat)
            },
    )
}

/// How many blocks the input stream fills, the last one zero-padded.
pub open spec fn blocks_needed(len: nat, m: nat) -> nat {
    ((8 * len + m - 1) as nat) / m
}

/// The concatenated codewords of all blocks.
pub open spec fn code_bits(data: Seq<u8>, m: nat, r: nat) -> Seq<bool> {
    Seq::new(
        blocks_needed(data.len(), m) * ((m + r) as nat),
        |g: int|
            bit_at(code_block(data, m, r, g / ((m + r) as int)), g % ((m + r) as int)),
    )
}

/// The encoded sequence: the concatenated codewords packed into whole
/// bytes, the last byte zero-padded.
pub open spec fn encode_gen(data: Seq<u8>, m: nat, r: nat) -> Seq<u8> {
    if data.len() == 0 {
        Seq::empty()
    } else {
        pack_bits(
            code_bits(data, m, r),
            ((blocks_needed(data.len(), m) * ((m + r) as nat) + 7) as nat) / 8,
        )
    }
}

/// The slice of the received stream that is block `k`.
pub open spec fn recv_block(encoded: Seq<u8>, bb: nat, k: int) -> Seq<bool> {
    Seq::new(bb, |i: int| stream_bit(encoded, k * (bb as int) + i))
}

/// The syndrome of a received block: parity check `p` contributes `2^p`
/// when it fails.
pub open spec fn syndrome_xor(blk: Seq<bool>, r: nat, n: nat) -> nat
    decreases r,
{
    if r == 0 {
        0
    } else {
        syndrome_xor(blk, (r - 1) as nat, n) + if check_xor(blk, (r - 1) as nat, n) {
            pow2((r - 1) as nat)
        } else {
            0nat
        }
    }
}

/// Block `k` after syndrome correction: a zero syndrome means no error, a
/// syndrome inside the block names the flipped position, and anything
/// larger is uncorrectable.
pub open spec fn corrected_block(encoded: Seq<u8>, bb: nat, r: nat, k: int) -> Result<
    Seq<bool>,
    HammingError,
> {
    let blk = recv_block(encoded, bb, k);
    let s = syndrome_xor(blk, r, bb);
    if s == 0 {
        Ok(blk)
    } else if s <= bb {
        Ok(blk.update(s - 1, !blk[s - 1]))
    } else {
        Err(HammingError::UncorrectableErrors)
    }
}

/// The data bits at the non-parity positions `[1, n]` of a block, in
/// order.
pub open spec fn block_data_bits(blk: Seq<bool>, n: nat) -> Seq<bool>
    decreases n,
{
    if n == 0 {
        Seq::empty()
    } else {
        block_data_bits(blk, (n - 1) as nat) + if parity_position(n) {
            Seq::<bool>::empty()
        } else {
            seq![bit_at(blk, n - 1)]
        }
    }
}

/// The data bits of corrected blocks `[0, k)`, concatenated.
pub open spec fn decoded_stream(encoded: Seq<u8>, m: nat, r: nat, k: int) -> Seq<bool>
    decreases k,
{
    if k <= 0 {
        Seq::empty()
    } else {
        decoded_stream(encoded, m, r, k - 1) + block_data_bits(
            corrected_block(encoded, (m + r) as nat, r, k - 1)->Ok_0,
            (m + r) as nat,
        )
    }
}

/// The decode result: `InvalidLength` when not even one whole block is
/// present, `UncorrectableErrors` when any block's syndrome lies outside
/// the block, otherwise the concatenated data bits packed into bytes.
pub open spec fn decode_gen(encoded: Seq<u8>, m: nat, r: nat) -> Result<Seq<u8>, HammingError> {
    let bb = (m + r) as nat;
    if encoded.len() == 0 {
        Ok(Seq::empty())
    } else {
        let nb = (8 * encoded.len()) / bb;
        if nb == 0 {
            Err(HammingError::InvalidLength)
        } else if exists|k: int|
            0 <= k < nb && corrected_block(encoded, bb, r, k) is Err {
            Err(HammingError::UncorrectableErrors)
        } else {
            Ok(pack_bits(decoded_stream(encoded, m, r, nb as int), ((nb * m + 7) as nat) / 8))
        }
    }
}

/// Every parity exponent below `r` names a position inside the block.
pub proof fn lemma_parity_pos_in_block(m: nat, r: nat, p: nat)
    requires
        params_ok(m, r),
        p < r,
    ensures
        pow2(p) < m + r,
{
    lemma_block_parity_count(m, r);
    if p < r - 1 {
        vstd::arithmetic::power2::lemma_pow2_strictly_increases(p, (r - 1) as nat);
    }
    if r == 1 {
        vstd::arithmetic::power2::lemma2_to64();
    } else {
        assert(!parity_sufficient(m, (r - 1) as nat));
    }
}

/// Updating one bit of a block flips exactly the checks whose mask covers
/// its position.
pub proof fn lemma_check_update(blk: Seq<bool>, p: nat, n: nat, t: int, v: bool)
    requires
        0 <= t < blk.len(),
    ensures
        check_xor(blk.update(t, v), p, n) == (check_xor(blk, p, n) != (t + 1 <= n && has_bit(
            (t + 1) as nat,
            p,
        ) && v != blk[t])),
    decreases n,
{
    if n > 0 {
        lemma_check_update(blk, p, (n - 1) as nat, t, v);
    }
}

/// A check over an all-false block passes.
pub proof fn lemma_check_false(blk: Seq<bool>, p: nat, n: nat)
    requires
        forall|i: int| 0 <= i < blk.len() ==> !blk[i],
    ensures
        !check_xor(blk, p, n),
    decreases n,
{
    if n > 0 {
        lemma_check_false(blk, p, (n - 1) as nat);
    }
}

/// A block whose checks all pass has syndrome zero.
pub proof fn lemma_syndrome_zero(blk: Seq<bool>, r: nat, n: nat)
    requires
        forall|p: nat| p < r ==> !check_xor(blk, p, n),
    ensures
        syndrome_xor(blk, r, n) == 0,
    decreases r,
{
    if r > 0 {
        lemma_syndrome_zero(blk, (r - 1) as nat, n);
    }
}

/// When every check `p` reads bit `p` of `j`, the syndrome is `j mod 2^r`.
#[verifier::rlimit(100)]
#[verifier::spinoff_prover]
pub proof fn lemma_syndrome_reconstructs(blk: Seq<bool>, r: nat, n: nat, j: nat)
    requires
        forall|p: nat| p < r ==> check_xor(blk, p, n) == has_bit(j, p),
    ensures
        syndrome_xor(blk, r, n) == j % pow2(r),
    decreases r,
{
    if r == 0 {
        assert(pow2(0) == 1) by {
            vstd::arithmetic::power2::lemma2_to64();
        }
        assert(j % 1 == 0) by (nonlinear_arith);
    } else {
        let q = (r - 1) as nat;
        lemma_syndrome_reconstructs(blk, q, n, j);
        vstd::arithmetic::power2::lemma_pow2_pos(q);
        vstd::arithmetic::power2::lemma_pow2_unfold(r);
        let pq = pow2(q) as int;
        let jj = j as int;
        vstd::arithmetic::div_mod::lemma_breakdown(jj, pq, 2);
        assert(pq * 2 == pow2(r));
        assert(jj % (pq * 2) == pq * ((jj / pq) % 2) + jj % pq);
        vstd::arithmetic::div_mod::lemma_mod_division_less_than_divisor(jj / pq, 2);
        assert(check_xor(blk, q, n) == has_bit(j, q));
        if has_bit(j, q) {
            assert((jj / pq) % 2 == 1);
            assert(pq * ((jj / pq) % 2) == pq) by (nonlinear_arith)
                requires
                    (jj / pq) % 2 == 1,
            ;
            assert(syndrome_xor(blk, r, n) == syndrome_xor(blk, q, n) + pow2(q));
        } else {
            assert((jj / pq) % 2 == 0);
            assert(pq * ((jj / pq) % 2) == 0) by (nonlinear_arith)
                requires
                    (jj / pq) % 2 == 0,
            ;
            assert(syndrome_xor(blk, r, n) == syndrome_xor(blk, q, n));
        }
        assert(j % pow2(r) == jj % (pq * 2));
    }
}

/// Bit `p` of `2^q` is set exactly when `p == q`.
pub proof fn lemma_has_bit_pow2(q: nat, p: nat)
    ensures
        has_bit(pow2(q), p) == (p == q),
{
    vstd::arithmetic::power2::lemma_pow2_pos(q);
    vstd::arithmetic::power2::lemma_pow2_pos(p);
    if p == q {
        vstd::arithmetic::div_mod::lemma_div_by_self(pow2(p) as int);
    } else if q > p {
        vstd::arithmetic::power2::lemma_pow2_subtracts(p, q);
        let d = (q - p) as nat;
        vstd::arithmetic::power2::lemma_pow2_unfold(d);
        assert(pow2(q) / pow2(p) == pow2(d));
        assert(pow2(d) == 2 * pow2((d - 1) as nat));
        assert(pow2(d) % 2 == 0) by {
            vstd::arithmetic::div_mod::lemma_mod_multiples_basic(pow2((d - 1) as nat) as int, 2);
        }
    } else {
        vstd::arithmetic::power2::lemma_pow2_strictly_increases(q, p);
        vstd::arithmetic::div_mod::lemma_basic_div(pow2(q) as int, pow2(p) as int);
        vstd::arithmetic::div_mod::lemma_small_mod(0, 2);
    }
}

/// The raw block with parity checks `[0, q)` filled in at their positions.
spec fn filled_block(data: Seq<u8>, m: nat, r: nat, k: int, q: nat) -> Seq<bool>
    decreases q,
{
    if q == 0 {
        raw_block(data, m, (m + r) as nat, k)
    } else {
        let qq = (q - 1) as nat;
        filled_block(data, m, r, k, qq).update(
            pow2(qq) - 1,
            check_xor(raw_block(data, m, (m + r) as nat, k), qq, (m + r) as nat),
        )
    }
}

/// What each position of a partially filled block holds.
proof fn lemma_filled_block(data: Seq<u8>, m: nat, r: nat, k: int, q: nat)
    requires
        params_ok(m, r),
        q <= r,
    ensures
        filled_block(data, m, r, k, q).len() == m + r,
        forall|i: int|
            0 <= i < m + r && !parity_position((i + 1) as nat) ==> filled_block(
                data,
                m,
                r,
                k,
                q,
            )[i] == raw_block(data, m, (m + r) as nat, k)[i],
        forall|p: nat|
            p < q ==> filled_block(data, m, r, k, q)[pow2(p) - 1] == check_xor(
                raw_block(data, m, (m + r) as nat, k),
                p,
                (m + r) as nat,
            ),
        forall|p: nat|
            q <= p < r ==> filled_block(data, m, r, k, q)[pow2(p) - 1] == raw_block(
                data,
                m,
                (m + r) as nat,
                k,
            )[pow2(p) - 1],
    decreases q,
{
    if q > 0 {
        let qq = (q - 1) as nat;
        let bb = (m + r) as nat;
        let raw = raw_block(data, m, bb, k);
        let prev = filled_block(data, m, r, k, qq);
        let cur = filled_block(data, m, r, k, q);
        lemma_filled_block(data, m, r, k, qq);
        lemma_parity_pos_in_block(m, r, qq);
        lemma_pow2_is_parity_position(qq);
        vstd::arithmetic::power2::lemma_pow2_pos(qq);
        let t = pow2(qq) - 1;
        assert(cur == prev.update(t, check_xor(raw, qq, bb)));
        assert forall|i: int|
            0 <= i < m + r && !parity_position((i + 1) as nat) implies cur[i] == raw[i] by {
            assert((i + 1) as nat != pow2(qq));
            assert(i != t);
        }
        assert forall|p: nat| p < q implies cur[pow2(p) - 1] == check_xor(raw, p, bb) by {
            if p != qq {
                vstd::arithmetic::power2::lemma_pow2_strictly_increases(p, qq);
                lemma_parity_pos_in_block(m, r, p);
                vstd::arithmetic::power2::lemma_pow2_pos(p);
                assert(pow2(p) - 1 != t);
            }
        }
        assert forall|p: nat| q <= p < r implies cur[pow2(p) - 1] == raw[pow2(p) - 1] by {
            vstd::arithmetic::power2::lemma_pow2_strictly_increases(qq, p);
            lemma_parity_pos_in_block(m, r, p);
            vstd::arithmetic::power2::lemma_pow2_pos(p);
            assert(pow2(p) - 1 != t);
        }
    }
}

/// A partially filled block passes every check already filled in, and
/// agrees with the raw block on the rest.
proof fn lemma_filled_check(data: Seq<u8>, m: nat, r: nat, k: int, q: nat, p: nat)
    requires
        params_ok(m, r),
        q <= r,
        p < r,
    ensures
        check_xor(filled_block(data, m, r, k, q), p, (m + r) as nat) == if p < q {
            false
        } else {
            check_xor(raw_block(data, m, (m + r) as nat, k), p, (m + r) as nat)
        },
    decreases q,
{
    let bb = (m + r) as nat;
    let raw = raw_block(data, m, bb, k);
    if q > 0 {
        let qq = (q - 1) as nat;
        lemma_filled_check(data, m, r, k, qq, p);
        lemma_filled_block(data, m, r, k, qq);
        lemma_parity_pos_in_block(m, r, qq);
        vstd::arithmetic::power2::lemma_pow2_pos(qq);
        lemma_pow2_is_parity_position(qq);
        let t = pow2(qq) - 1;
        let v = check_xor(raw, qq, bb);
        lemma_check_update(filled_block(data, m, r, k, qq), p, bb, t, v);
        lemma_has_bit_pow2(qq, p);
        if p == qq {
            assert(filled_block(data, m, r, k, qq)[t] == raw[t]);
            assert(!raw[t]);
        }
    }
}

/// The codeword is the raw block with all `r` checks filled in.
proof fn lemma_code_block_is_filled(data: Seq<u8>, m: nat, r: nat, k: int)
    requires
        params_ok(m, r),
    ensures
        code_block(data, m, r, k) == filled_block(data, m, r, k, r),
{
    let bb = (m + r) as nat;
    let cb = code_block(data, m, r, k);
    let fb = filled_block(data, m, r, k, r);
    lemma_filled_block(data, m, r, k, r);
    lemma_block_parity_count(m, r);
    assert forall|i: int| 0 <= i < bb implies cb[i] == fb[i] by {
        let pos = (i + 1) as nat;
        if parity_position(pos) {
            lemma_parity_position_pow2(pos);
            let p = pow_index(pos);
            assert(pos == pow2(p));
            assert(p < r) by {
                if p >= r {
                    if p > r {
                        vstd::arithmetic::power2::lemma_pow2_strictly_increases(r, p);
                    }
                    assert(pow2(p) >= pow2(r));
                }
            }
        }
    }
    assert(cb =~= fb);
}

/// Law: every parity check of an uncorrupted codeword passes, so its
/// syndrome is zero.
pub proof fn lemma_code_block_syndrome_zero(data: Seq<u8>, m: nat, r: nat, k: int)
    requires
        params_ok(m, r),
    ensures
        forall|p: nat| p < r ==> !#[trigger] check_xor(code_block(data, m, r, k), p, (m + r) as nat),
        syndrome_xor(code_block(data, m, r, k), r, (m + r) as nat) == 0,
{
    lemma_code_block_is_filled(data, m, r, k);
    assert forall|p: nat| p < r implies !#[trigger] check_xor(code_block(data, m, r, k), p, (m + r) as nat) by {
        lemma_filled_check(data, m, r, k, r, p);
    }
    lemma_syndrome_zero(code_block(data, m, r, k), r, (m + r) as nat);
}

/// Block-count arithmetic for encoding: the block count covers every input
/// bit and the output stays small.
#[verifier::spinoff_prover]
proof fn lemma_encode_arith(td: int, m: int, rr: int, nb: int)
    requires
        1 <= m,
        0 <= rr <= 29,
        8 <= td,
        nb == (td + m - 1) / m,
    ensures
        1 <= nb <= td,
        td <= nb * m <= td + m - 1,
        nb * (m + rr) == nb * m + nb * rr,
        nb * (m + rr) <= 30 * td + m,
        nb * m <= nb * (m + rr),
{
    vstd::arithmetic::div_mod::lemma_fundamental_div_mod(td + m - 1, m);
    assert(1 <= nb <= td && td <= nb * m <= td + m - 1) by (nonlinear_arith)
        requires
            1 <= m,
            8 <= td,
            nb == (td + m - 1) / m,
            m * nb == td + m - 1 - ((td + m - 1) % m),
            0 <= (td + m - 1) % m < m,
    ;
    assert(nb * (m + rr) == nb * m + nb * rr && nb * rr <= td * 29) by (nonlinear_arith)
        requires
            0 <= rr <= 29,
            1 <= nb <= td,
    ;
    assert(td * 29 + td + m - 1 <= 30 * td + m) by (nonlinear_arith)
        requires
            td >= 0,
    ;
}

/// Minimal parity bits for at most `2^28` data bits never exceed 29.
pub proof fn lemma_parity_bits_small(m: nat, r: nat)
    requires
        params_ok(m, r),
        m <= 0x1000_0000,
    ensures
        r <= 29,
{
    vstd::arithmetic::power2::lemma2_to64();
    assert(parity_sufficient(m, 29));
    if r > 29 {
        assert(!parity_sufficient(m, 29nat));
    }
}

impl Hamming {
    /// Create a codec for `data_bits` payload bits per block, deriving the
    /// smallest number of parity bits `r` with `2^r >= data_bits + r + 1`.
    pub fn new(data_bits: usize) -> (c: Self)
        requires
            1 <= data_bits <= 0x1000_0000,
        ensures
            c.wf(),
            c.spec_data_bits() == data_bits,
    {
        proof {
            vstd::arithmetic::power2::lemma2_to64();
        }
        // Calculate required parity bits: 2^r >= m + r + 1
        let mut parity_bits: usize = 1;
        while (1usize << parity_bits) < data_bits + parity_bits + 1
            invariant
                1 <= data_bits <= 0x1000_0000,
                1 <= parity_bits <= 29,
                forall|r2: nat| 1 <= r2 < parity_bits ==> !parity_sufficient(data_bits as nat, r2),
            decreases 29 - parity_bits,
        {
            proof {
                vstd::bits::lemma_usize_pow2_no_overflow(parity_bits as nat);
                vstd::bits::lemma_usize_shl_is_mul(1, parity_bits);
                assert(1usize << parity_bits == pow2(parity_bits as nat));
                assert(!parity_sufficient(data_bits as nat, parity_bits as nat));
                vstd::arithmetic::power2::lemma2_to64();
                assert(parity_sufficient(data_bits as nat, 29));
                assert(parity_bits < 29);
            }
            parity_bits = parity_bits + 1;
        }
        proof {
            vstd::bits::lemma_usize_pow2_no_overflow(parity_bits as nat);
            vstd::bits::lemma_usize_shl_is_mul(1, parity_bits);
            assert(parity_sufficient(data_bits as nat, parity_bits as nat));
        }
        Self { data_bits, parity_bits }
    }
}

/// Recompute the syndrome of one received block: parity check `p`
/// contributes `2^p` when it fails.
#[verifier::loop_isolation(false)]
fn compute_syndrome(blk: &Vec<bool>, rr: usize) -> (s: usize)
    requires
        rr <= 29,
        blk@.len() < usize::MAX,
    ensures
        s == syndrome_xor(blk@, rr as nat, blk@.len()),
        s < pow2(rr as nat),
{
    proof {
        vstd::arithmetic::power2::lemma2_to64();
    }
    let bb = blk.len();
    let mut syndrome: usize = 0;
    for p in 0..rr
        invariant
            syndrome == syndrome_xor(blk@, p as nat, bb as nat),
            syndrome < pow2(p as nat),
    {
        let parity_pos = 1usize << p;
        proof {
            vstd::bits::lemma_usize_pow2_no_overflow(p as nat);
            vstd::bits::lemma_usize_shl_is_mul(1, p);
            assert(parity_pos == pow2(p as nat));
        }
        let mut calculated_parity = false;
        for i in 1..(bb + 1)
            invariant
                calculated_parity == check_xor(blk@, p as nat, (i - 1) as nat),
        {
            proof {
                crate::bits::lemma_mask_test_is_has_bit(i, p);
            }
            if (i & parity_pos) != 0 && blk[i - 1] {
                calculated_parity = !calculated_parity;
            }
        }
        proof {
            vstd::arithmetic::power2::lemma_pow2_unfold((p + 1) as nat);
        }
        if calculated_parity {
            proof {
                assert(syndrome | parity_pos == syndrome + parity_pos) by (bit_vector)
                    requires
                        parity_pos == 1usize << p,
                        syndrome < parity_pos,
                        p < usize::BITS,
                ;
            }
            syndrome = syndrome | parity_pos;
        }
    }
    syndrome
}

impl HammingCode for Hamming {
    open spec fn wf(&self) -> bool {
        &&& params_ok(self.data_bits as nat, self.parity_bits as nat)
        &&& self.data_bits <= 0x1000_0000
    }

    open spec fn spec_data_bits(&self) -> usize {
        self.data_bits
    }

    open spec fn spec_block_size(&self) -> usize {
        (self.data_bits + self.parity_bits) as usize
    }

    open spec fn encode_fits(&self, data: Seq<u8>) -> bool {
        data.len() <= 0x10_0000
    }

    open spec fn decode_fits(&self, encoded: Seq<u8>) -> bool {
        encoded.len() <= usize::MAX / 8
    }

    open spec fn spec_encode(&self, data: Seq<u8>) -> Seq<u8> {
        encode_gen(data, self.data_bits as nat, self.parity_bits as nat)
    }

    open spec fn spec_decode(&self, encoded: Seq<u8>) -> Result<Seq<u8>, HammingError> {
        decode_gen(encoded, self.data_bits as nat, self.parity_bits as nat)
    }

    #[verifier::loop_isolation(false)]
    #[verifier::rlimit(100)]
    fn encode(&self, data: &[u8]) -> (res: Vec<u8>) {
        if data.len() == 0 {
            proof {
                assert(Seq::<u8>::empty() =~= self.spec_encode(data@));
            }
            return Vec::new();
        }
        let m = self.data_bits;
        let rr = self.parity_bits;
        proof {
            lemma_parity_bits_small(m as nat, rr as nat);
            vstd::arithmetic::power2::lemma2_to64();
        }
        let block_bits = m + rr;
        let total_data_bits = 8 * data.len();

        // Calculate number of blocks needed
        let num_blocks = (total_data_bits + m - 1) / m;
        proof {
            lemma_encode_arith(
                total_data_bits as int,
                m as int,
                rr as int,
                num_blocks as int,
            );
        }
        let ghost gm = m as nat;
        let ghost gr = rr as nat;
        let ghost gbb = (m + rr) as nat;
        let ghost gnb = blocks_needed(data@.len(), gm);
        proof {
            assert(gnb == num_blocks);
        }

        // Calculate the exact output size
        let total_output_bits = num_blocks * block_bits;
        let output_bytes = (total_output_bits + 7) / 8;

        let mut cbits: Vec<bool> = Vec::new();

        for block_idx in 0..num_blocks
            invariant
                self.wf(),
                m == self.data_bits,
                rr == self.parity_bits,
                rr <= 29,
                block_bits == m + rr,
                total_data_bits == 8 * data@.len(),
                8 <= total_data_bits <= 0x80_0000,
                num_blocks == gnb,
                num_blocks * block_bits <= total_data_bits * 30 + block_bits,
                cbits@.len() == block_idx * block_bits,
                forall|g: int|
                    0 <= g < block_idx * block_bits ==> cbits@[g] == #[trigger] code_bits(
                        data@,
                        gm,
                        gr,
                    )[g],
        {
            proof {
                vstd::arithmetic::mul::lemma_mul_inequality(
                    block_idx + 1,
                    num_blocks as int,
                    block_bits as int,
                );
                vstd::arithmetic::mul::lemma_mul_inequality(
                    block_idx + 1,
                    num_blocks as int,
                    m as int,
                );
                assert((block_idx + 1) * block_bits == block_idx * block_bits + block_bits)
                    by (nonlinear_arith);
                assert((block_idx + 1) * m == block_idx * m + m) by (nonlinear_arith);
                assert(num_blocks * m <= num_blocks * block_bits) by (nonlinear_arith)
                    requires
                        m <= block_bits,
                        num_blocks >= 0,
                ;
            }
            // Fill in data bits at the non-parity positions.
            let mut blk: Vec<bool> = Vec::new();
            let mut data_bit_count: usize = 0;
            let mut npow: usize = 1;
            for pos in 1..(block_bits + 1)
                invariant
                    m == self.data_bits,
                    rr == self.parity_bits,
                    block_bits == m + rr,
                    total_data_bits == 8 * data@.len(),
                    block_idx * m + m <= usize::MAX,
                    blk@.len() == pos - 1,
                    blk@ =~= raw_block(data@, gm, gbb, block_idx as int).take(pos - 1),
                    data_bit_count == (if data_index(pos as nat) < gm {
                        data_index(pos as nat)
                    } else {
                        gm
                    }),
                    parity_position(npow as nat),
                    pos <= npow < 2 * pos,
                    npow <= 2 * block_bits,
            {
                proof {
                    lemma_pows_upto_le((pos - 1) as nat);
                    assert(pows_upto(pos as nat) == pows_upto((pos - 1) as nat) + (
                    if parity_position(pos as nat) {
                        1nat
                    } else {
                        0nat
                    }));
                }
                let is_par = pos == npow;
                proof {
                    if pos != npow && parity_position(pos as nat) {
                        lemma_parity_positions_apart(pos as nat, npow as nat);
                    }
                }
                if is_par {
                    blk.push(false);
                    proof {
                        assert((2 * npow) % 2 == 0 && (2 * npow) / 2 == npow);
                        assert(parity_position((2 * npow) as nat));
                    }
                    npow = 2 * npow;
                } else if data_bit_count < m {
                    let global_data_bit = block_idx * m + data_bit_count;
                    if global_data_bit < total_data_bits {
                        blk.push(crate::bits::get_bit(data, global_data_bit));
                    } else {
                        blk.push(false);
                    }
                    data_bit_count = data_bit_count + 1;
                } else {
                    blk.push(false);
                }
                proof {
                    let rb = raw_block(data@, gm, gbb, block_idx as int);
                    assert(blk@[pos - 1] == rb[pos - 1]);
                    assert(blk@ =~= rb.take(pos as int));
                }
            }
            proof {
                assert(blk@ =~= raw_block(data@, gm, gbb, block_idx as int));
                assert(blk@ == filled_block(data@, gm, gr, block_idx as int, 0));
            }

            // Calculate parity bits
            for p in 0..rr
                invariant
                    self.wf(),
                    m == self.data_bits,
                    rr == self.parity_bits,
                    rr <= 29,
                    block_bits == m + rr,
                    blk@.len() == block_bits,
                    blk@ == filled_block(data@, gm, gr, block_idx as int, p as nat),
            {
                let parity_pos = 1usize << p;
                proof {
                    vstd::bits::lemma_usize_pow2_no_overflow(p as nat);
                    vstd::bits::lemma_usize_shl_is_mul(1, p);
                    assert(parity_pos == pow2(p as nat));
                    lemma_parity_pos_in_block(gm, gr, p as nat);
                }
                let mut parity = false;
                for i in 1..(block_bits + 1)
                    invariant
                        block_bits == m + rr,
                        blk@.len() == block_bits,
                        parity_pos == pow2(p as nat),
                        p < rr <= 29,
                        parity == check_xor(blk@, p as nat, (i - 1) as nat),
                {
                    proof {
                        crate::bits::lemma_mask_test_is_has_bit(i, p);
                    }
                    if (i & parity_pos) != 0 && blk[i - 1] {
                        parity = !parity;
                    }
                }
                proof {
                    lemma_filled_check(data@, gm, gr, block_idx as int, p as nat, p as nat);
                    assert(parity == check_xor(
                        raw_block(data@, gm, gbb, block_idx as int),
                        p as nat,
                        gbb,
                    ));
                }
                blk.set(parity_pos - 1, parity);
                proof {
                    assert(blk@ == filled_block(data@, gm, gr, block_idx as int, (p + 1) as nat));
                }
            }
            proof {
                lemma_code_block_is_filled(data@, gm, gr, block_idx as int);
                assert(blk@ == code_block(data@, gm, gr, block_idx as int));
            }

            // Write block to output
            for i in 0..block_bits
                invariant
                    block_bits == m + rr,
                    num_blocks == gnb,
                    blk@ == code_block(data@, gm, gr, block_idx as int),
                    blk@.len() == block_bits,
                    block_idx < num_blocks,
                    (block_idx + 1) * block_bits <= num_blocks * block_bits,
                    num_blocks * block_bits <= usize::MAX,
                    block_idx * block_bits + block_bits <= usize::MAX,
                    cbits@.len() == block_idx * block_bits + i,
                    forall|g: int|
                        0 <= g < block_idx * block_bits + i ==> cbits@[g] == #[trigger] code_bits(
                            data@,
                            gm,
                            gr,
                        )[g],
            {
                cbits.push(blk[i]);
                proof {
                    let g = block_idx * block_bits + i;
                    vstd::arithmetic::div_mod::lemma_fundamental_div_mod_converse(
                        g as int,
                        block_bits as int,
                        block_idx as int,
                        i as int,
                    );
                    assert(code_bits(data@, gm, gr)[g as int] == bit_at(
                        code_block(data@, gm, gr, block_idx as int),
                        i as int,
                    ));
                }
            }
            proof {
                assert((block_idx + 1) * block_bits == block_idx * block_bits + block_bits)
                    by (nonlinear_arith);
            }
        }

        let encoded = crate::bits::pack_bit_vec(&cbits, output_bytes);
        proof {
            assert(cbits@ =~= code_bits(data@, gm, gr));
            assert(encoded@ =~= self.spec_encode(data@));
        }
        encoded
    }

    #[verifier::loop_isolation(false)]
    #[verifier::rlimit(100)]
    #[verifier::spinoff_prover]
    fn decode(&self, encoded: &[u8]) -> (res: Result<Vec<u8>, HammingError>) {
        if encoded.len() == 0 {
            proof {
                assert(Seq::<u8>::empty() =~= self.spec_decode(encoded@)->Ok_0);
            }
            return Ok(Vec::new());
        }
        let m = self.data_bits;
        let rr = self.parity_bits;
        proof {
            lemma_parity_bits_small(m as nat, rr as nat);
            vstd::arithmetic::power2::lemma2_to64();
            vstd::arithmetic::div_mod::lemma_fundamental_div_mod(usize::MAX as int, 8);
        }
        let block_bits = m + rr;
        let total_bits = 8 * encoded.len();

        let num_blocks = total_bits / block_bits;
        if num_blocks == 0 {
            return Err(HammingError::InvalidLength);
        }
        proof {
            vstd::arithmetic::div_mod::lemma_fundamental_div_mod(
                total_bits as int,
                block_bits as int,
            );
            vstd::arithmetic::mul::lemma_mul_is_commutative(
                num_blocks as int,
                block_bits as int,
            );
            assert(num_blocks * block_bits <= total_bits);
            assert(num_blocks * m <= num_blocks * block_bits) by (nonlinear_arith)
                requires
                    m <= block_bits,
                    num_blocks >= 0,
            ;
        }
        let ghost gm = m as nat;
        let ghost gr = rr as nat;
        let ghost gbb = (m + rr) as nat;
        let ghost gnb = (8 * encoded@.len()) / gbb;

        let total_data_bits = num_blocks * m;
        let output_bytes = (total_data_bits + 7) / 8;

        let mut dbits: Vec<bool> = Vec::new();
        proof {
            assert(0 * m == 0) by (nonlinear_arith);
            assert(decoded_stream(encoded@, gm, gr, 0) == Seq::<bool>::empty());
        }

        for block_idx in 0..num_blocks
            invariant
                self.wf(),
                m == self.data_bits,
                rr == self.parity_bits,
                rr <= 29,
                block_bits == m + rr,
                total_bits == 8 * encoded@.len(),
                total_bits <= usize::MAX,
                num_blocks == gnb,
                1 <= num_blocks,
                num_blocks * block_bits <= total_bits,
                num_blocks * m <= num_blocks * block_bits,
                dbits@.len() == block_idx * m,
                dbits@ == decoded_stream(encoded@, gm, gr, block_idx as int),
                forall|k2: int|
                    0 <= k2 < block_idx ==> #[trigger] corrected_block(
                        encoded@,
                        gbb,
                        gr,
                        k2,
                    ) is Ok,
        {
            proof {
                vstd::arithmetic::mul::lemma_mul_inequality(
                    block_idx + 1,
                    num_blocks as int,
                    block_bits as int,
                );
                vstd::arithmetic::mul::lemma_mul_inequality(
                    block_idx + 1,
                    num_blocks as int,
                    m as int,
                );
                assert((block_idx + 1) * block_bits == block_idx * block_bits + block_bits)
                    by (nonlinear_arith);
                assert((block_idx + 1) * m == block_idx * m + m) by (nonlinear_arith);
            }
            // Read one block
            let block_start_bit = block_idx * block_bits;
            let mut blk: Vec<bool> = Vec::new();
            for i in 0..block_bits
                invariant
                    block_bits == m + rr,
                    total_bits == 8 * encoded@.len(),
                    block_start_bit == block_idx * block_bits,
                    block_start_bit + block_bits <= total_bits,
                    blk@.len() == i,
                    forall|t: int|
                        0 <= t < i ==> blk@[t] == #[trigger] stream_bit(
                            encoded@,
                            block_idx * (block_bits as int) + t,
                        ),
            {
                blk.push(crate::bits::get_bit(encoded, block_start_bit + i));
            }
            proof {
                assert(blk@ =~= recv_block(encoded@, gbb, block_idx as int));
            }
            let ghost rblk = recv_block(encoded@, gbb, block_idx as int);

            // Calculate syndrome
            let syndrome = compute_syndrome(&blk, rr);
            proof {
                assert(syndrome == syndrome_xor(rblk, gr, gbb));
            }

            // Fix single-bit error if needed
            if syndrome != 0 && syndrome <= block_bits {
                let cur = blk[syndrome - 1];
                blk.set(syndrome - 1, !cur);
            } else if syndrome > block_bits {
                proof {
                    assert(corrected_block(encoded@, gbb, gr, block_idx as int) is Err);
                }
                return Err(HammingError::UncorrectableErrors);
            }
            proof {
                assert(corrected_block(encoded@, gbb, gr, block_idx as int) == Ok::<
                    Seq<bool>,
                    HammingError,
                >(blk@));
            }

            // Extract data bits
            let mut npow: usize = 1;
            for pos in 1..(block_bits + 1)
                invariant
                    m == self.data_bits,
                    rr == self.parity_bits,
                    block_bits == m + rr,
                    blk@.len() == block_bits,
                    blk@ == corrected_block(encoded@, gbb, gr, block_idx as int)->Ok_0,
                    block_idx * m + m <= usize::MAX,
                    dbits@ == decoded_stream(encoded@, gm, gr, block_idx as int)
                        + block_data_bits(blk@, (pos - 1) as nat),
                    parity_position(npow as nat),
                    pos <= npow < 2 * pos,
                    npow <= 2 * block_bits,
            {
                let is_par = pos == npow;
                proof {
                    if pos != npow && parity_position(pos as nat) {
                        lemma_parity_positions_apart(pos as nat, npow as nat);
                    }
                }
                if is_par {
                    proof {
                        assert((2 * npow) % 2 == 0 && (2 * npow) / 2 == npow);
                        assert(parity_position((2 * npow) as nat));
                    }
                    npow = 2 * npow;
                } else {
                    dbits.push(blk[pos - 1]);
                }
                proof {
                    assert(dbits@ =~= decoded_stream(encoded@, gm, gr, block_idx as int)
                        + block_data_bits(blk@, pos as nat));
                }
            }
            proof {
                lemma_block_parity_count(gm, gr);
                lemma_block_data_len(blk@, gbb);
                assert(dbits@ == decoded_stream(encoded@, gm, gr, block_idx + 1));
            }
        }

        let decoded = crate::bits::pack_bit_vec(&dbits, output_bytes);
        proof {
            assert(!(exists|k: int|
                0 <= k < gnb && corrected_block(encoded@, gbb, gr, k) is Err));
            assert(decoded@ =~= self.spec_decode(encoded@)->Ok_0);
        }
        Ok(decoded)
    }

    fn block_size(&self) -> usize {
        proof {
            lemma_parity_bits_small(self.data_bits as nat, self.parity_bits as nat);
        }
        self.data_bits + self.parity_bits
    }

    fn data_bits(&self) -> usize {
        self.data_bits
    }
}

/// The data bits of a block number `n - pows_upto(n)`.
pub proof fn lemma_block_data_len(blk: Seq<bool>, n: nat)
    ensures
        block_data_bits(blk, n).len() == n - pows_upto(n),
    decreases n,
{
    lemma_pows_upto_le(n);
    if n > 0 {
        lemma_block_data_len(blk, (n - 1) as nat);
        lemma_pows_upto_le((n - 1) as nat);
    }
}

/// Every extracted data bit comes from the non-parity position whose data
/// index it carries.
proof fn lemma_block_data_bits_index(blk: Seq<bool>, n: nat, d: int)
    requires
        0 <= d < block_data_bits(blk, n).len(),
    ensures
        exists|pos: nat|
            1 <= pos <= n && !parity_position(pos) && data_index(pos) == d && #[trigger] bit_at(
                blk,
                pos - 1,
            ) == block_data_bits(blk, n)[d],
    decreases n,
{
    lemma_block_data_len(blk, n);
    lemma_block_data_len(blk, (n - 1) as nat);
    lemma_pows_upto_le((n - 1) as nat);
    if parity_position(n) {
        lemma_block_data_bits_index(blk, (n - 1) as nat, d);
    } else {
        if d < block_data_bits(blk, (n - 1) as nat).len() {
            lemma_block_data_bits_index(blk, (n - 1) as nat, d);
        } else {
            assert(data_index(n) == d);
            assert(bit_at(blk, n - 1) == block_data_bits(blk, n)[d]);
        }
    }
}

/// The concatenated data bits of `k` blocks number `k * m`.
proof fn lemma_decoded_stream_len(encoded: Seq<u8>, m: nat, r: nat, k: int)
    requires
        params_ok(m, r),
        k >= 0,
    ensures
        decoded_stream(encoded, m, r, k).len() == k * m,
    decreases k,
{
    lemma_block_parity_count(m, r);
    if k > 0 {
        lemma_decoded_stream_len(encoded, m, r, k - 1);
        lemma_block_data_len(corrected_block(encoded, (m + r) as nat, r, k - 1)->Ok_0, (m
            + r) as nat);
        assert(k * m == (k - 1) * m + m) by (nonlinear_arith);
    } else {
        assert(k * m == 0) by (nonlinear_arith)
            requires
                k == 0,
        ;
    }
}

/// Bit `i` of the concatenated data bits belongs to block `i / m`.
proof fn lemma_decoded_stream_index(encoded: Seq<u8>, m: nat, r: nat, k: int, i: int)
    requires
        params_ok(m, r),
        0 <= i < k * m,
    ensures
        decoded_stream(encoded, m, r, k)[i] == block_data_bits(
            corrected_block(encoded, (m + r) as nat, r, i / (m as int))->Ok_0,
            (m + r) as nat,
        )[i % (m as int)],
    decreases k,
{
    lemma_block_parity_count(m, r);
    assert(k >= 1) by (nonlinear_arith)
        requires
            0 <= i < k * m,
    ;
    lemma_decoded_stream_len(encoded, m, r, k - 1);
    lemma_block_data_len(corrected_block(encoded, (m + r) as nat, r, k - 1)->Ok_0, (m + r) as nat);
    if i < (k - 1) * m {
        lemma_decoded_stream_index(encoded, m, r, k - 1, i);
    } else {
        assert(k * m == (k - 1) * m + m) by (nonlinear_arith);
        vstd::arithmetic::div_mod::lemma_fundamental_div_mod_converse(
            i,
            m as int,
            k - 1,
            i - (k - 1) * m,
        );
    }
}

/// Two streams whose corrected blocks agree decode to the same data bits.
proof fn lemma_decoded_stream_same(e1: Seq<u8>, e2: Seq<u8>, m: nat, r: nat, k: int)
    requires
        forall|k2: int|
            0 <= k2 < k ==> #[trigger] corrected_block(e1, (m + r) as nat, r, k2)
                == corrected_block(e2, (m + r) as nat, r, k2),
    ensures
        decoded_stream(e1, m, r, k) == decoded_stream(e2, m, r, k),
    decreases k,
{
    if k > 0 {
        lemma_decoded_stream_same(e1, e2, m, r, k - 1);
    }
}

/// A received block of an uncorrupted encoding is its codeword; blocks read
/// from the byte-alignment padding are all zero.
proof fn lemma_recv_of_encode(data: Seq<u8>, m: nat, r: nat, k: int)
    requires
        params_ok(m, r),
        data.len() >= 1,
        0 <= k,
        k * ((m + r) as int) + (m + r) <= 8 * encode_gen(data, m, r).len(),
    ensures
        k < blocks_needed(data.len(), m) ==> recv_block(
            encode_gen(data, m, r),
            (m + r) as nat,
            k,
        ) == code_block(data, m, r, k),
        k >= blocks_needed(data.len(), m) ==> forall|i: int|
            0 <= i < m + r ==> !#[trigger] recv_block(encode_gen(data, m, r), (m + r) as nat, k)[i],
{
    let bb = (m + r) as nat;
    let nb = blocks_needed(data.len(), m);
    let cb = code_bits(data, m, r);
    let ob = ((nb * bb + 7) as nat) / 8;
    let e = encode_gen(data, m, r);
    assert(e == pack_bits(cb, ob));
    assert(e.len() == ob);
    vstd::arithmetic::div_mod::lemma_fundamental_div_mod((nb * bb + 7) as int, 8);
    assert(8 * ob >= nb * bb);
    let rv = recv_block(e, bb, k);
    assert forall|i: int| 0 <= i < m + r implies rv[i] == (if k < nb {
        bit_at(code_block(data, m, r, k), i)
    } else {
        false
    }) by {
        let g = k * (bb as int) + i;
        crate::bits::lemma_pack_bits_stream(cb, ob, g);
        if k < nb {
            vstd::arithmetic::mul::lemma_mul_inequality(k + 1, nb as int, bb as int);
            assert((k + 1) * bb == k * bb + bb) by (nonlinear_arith);
            assert(g < nb * bb);
            vstd::arithmetic::div_mod::lemma_fundamental_div_mod_converse(g, bb as int, k, i);
        } else {
            assert(g >= nb * bb) by {
                vstd::arithmetic::mul::lemma_mul_inequality(nb as int, k, bb as int);
            }
        }
    }
    if k < nb {
        assert(rv =~= code_block(data, m, r, k));
    }
}

/// The whole blocks a decoder finds in an encoded stream.
pub open spec fn recv_blocks(elen: nat, m: nat, r: nat) -> nat {
    (8 * elen) / ((m + r) as nat)
}

/// Size facts about an encoding: every input bit has a block, and every
/// whole block of the packed stream can be read back.
proof fn lemma_encode_counts(data: Seq<u8>, m: nat, r: nat)
    requires
        params_ok(m, r),
        data.len() >= 1,
    ensures
        encode_gen(data, m, r).len() == ((blocks_needed(data.len(), m) * ((m + r) as nat)
            + 7) as nat) / 8,
        1 <= blocks_needed(data.len(), m) <= recv_blocks(encode_gen(data, m, r).len(), m, r),
        8 * data.len() <= blocks_needed(data.len(), m) * m,
        recv_blocks(encode_gen(data, m, r).len(), m, r) * ((m + r) as int) <= 8 * encode_gen(
            data,
            m,
            r,
        ).len(),
        recv_blocks(encode_gen(data, m, r).len(), m, r) * (m as int) <= recv_blocks(
            encode_gen(data, m, r).len(),
            m,
            r,
        ) * ((m + r) as int),
{
    let bb = (m + r) as nat;
    let len = data.len() as int;
    let nb = blocks_needed(data.len(), m);
    let ob = ((nb * bb + 7) as nat) / 8;
    let e = encode_gen(data, m, r);
    assert(e.len() == ob);
    vstd::arithmetic::div_mod::lemma_fundamental_div_mod((nb * bb + 7) as int, 8);
    vstd::arithmetic::div_mod::lemma_fundamental_div_mod((8 * len + m - 1) as int, m as int);
    assert(8 * len <= nb * m) by (nonlinear_arith)
        requires
            m >= 1,
            len >= 1,
            nb * m >= 8 * len + m - 1 - (m - 1),
    ;
    assert(nb >= 1) by (nonlinear_arith)
        requires
            nb * m >= 8 * len,
            len >= 1,
            m >= 1,
            nb >= 0,
    ;
    assert(8 * ob >= nb * bb);
    let nb2 = recv_blocks(e.len(), m, r);
    assert(nb2 >= nb) by {
        vstd::arithmetic::mul::lemma_mul_is_commutative(nb as int, bb as int);
        vstd::arithmetic::div_mod::lemma_div_multiples_vanish(nb as int, bb as int);
        vstd::arithmetic::div_mod::lemma_div_is_ordered(nb * bb as int, 8 * ob as int, bb as int);
    }
    assert(nb2 * bb <= 8 * ob) by {
        vstd::arithmetic::div_mod::lemma_fundamental_div_mod(8 * ob as int, bb as int);
    }
    assert(nb2 * m <= nb2 * bb) by (nonlinear_arith)
        requires
            m <= bb,
            nb2 >= 0,
    ;
}

/// Every whole block of an uncorrupted encoding has syndrome zero and
/// decodes to itself.
proof fn lemma_encode_block_ok(data: Seq<u8>, m: nat, r: nat, k: int)
    requires
        params_ok(m, r),
        data.len() >= 1,
        0 <= k < recv_blocks(encode_gen(data, m, r).len(), m, r),
    ensures
        corrected_block(encode_gen(data, m, r), (m + r) as nat, r, k) == Ok::<
            Seq<bool>,
            HammingError,
        >(recv_block(encode_gen(data, m, r), (m + r) as nat, k)),
        syndrome_xor(recv_block(encode_gen(data, m, r), (m + r) as nat, k), r, (m + r) as nat)
            == 0,
        k < blocks_needed(data.len(), m) ==> recv_block(
            encode_gen(data, m, r),
            (m + r) as nat,
            k,
        ) == code_block(data, m, r, k),
        k >= blocks_needed(data.len(), m) ==> forall|i: int|
            0 <= i < m + r ==> !#[trigger] recv_block(
                encode_gen(data, m, r),
                (m + r) as nat,
                k,
            )[i],
{
    let bb = (m + r) as nat;
    let e = encode_gen(data, m, r);
    let nb = blocks_needed(data.len(), m);
    let nb2 = recv_blocks(e.len(), m, r);
    lemma_encode_counts(data, m, r);
    assert((k + 1) * bb <= nb2 * bb && (k + 1) * bb == k * bb + bb) by (nonlinear_arith)
        requires
            k + 1 <= nb2,
            bb >= 0,
    ;
    lemma_recv_of_encode(data, m, r, k);
    let rv = recv_block(e, bb, k);
    if k < nb {
        lemma_code_block_syndrome_zero(data, m, r, k);
        assert(syndrome_xor(rv, r, bb) == 0);
    } else {
        assert forall|p: nat| p < r implies !#[trigger] check_xor(rv, p, bb) by {
            lemma_check_false(rv, p as nat, bb);
        }
        lemma_syndrome_zero(rv, r, bb);
    }
}

/// Law: decoding an uncorrupted encoding reproduces the input, followed
/// only by zero bytes from the final zero-padded block.
#[verifier::rlimit(100)]
#[verifier::spinoff_prover]
pub proof fn lemma_hamming_round_trip(data: Seq<u8>, m: nat, r: nat)
    requires
        params_ok(m, r),
    ensures
        decode_gen(encode_gen(data, m, r), m, r) matches Ok(v) && v.take(data.len() as int)
            == data && (forall|t: int| data.len() <= t < v.len() ==> v[t] == 0),
{
    let bb = (m + r) as nat;
    let len = data.len() as int;
    let e = encode_gen(data, m, r);
    if data.len() == 0 {
        assert(decode_gen(e, m, r)->Ok_0 =~= data);
        return ;
    }
    let nb = blocks_needed(data.len(), m);
    lemma_encode_counts(data, m, r);
    let nb2 = recv_blocks(e.len(), m, r);
    assert(nb2 >= 1);
    assert forall|k: int| 0 <= k < nb2 implies #[trigger] corrected_block(e, bb, r, k) is Ok by {
        lemma_encode_block_ok(data, m, r, k);
    }
    let ds = decoded_stream(e, m, r, nb2 as int);
    lemma_decoded_stream_len(e, m, r, nb2 as int);
    // each decoded bit is the corresponding input stream bit
    assert forall|i: int| 0 <= i < nb2 * m implies ds[i] == stream_bit(data, i) by {
        lemma_decoded_stream_index(e, m, r, nb2 as int, i);
        let k = i / (m as int);
        let d = i % (m as int);
        vstd::arithmetic::div_mod::lemma_fundamental_div_mod(i, m as int);
        assert(0 <= k < nb2) by {
            assert(nb2 * m == (nb2 - 1) * m + m) by (nonlinear_arith);
            vstd::arithmetic::div_mod::lemma_fundamental_div_mod_converse_div(i, m as int, k, d);
            if k >= nb2 {
                vstd::arithmetic::mul::lemma_mul_inequality(nb2 as int, k, m as int);
            }
        }
        lemma_encode_block_ok(data, m, r, k);
        let blk = corrected_block(e, bb, r, k)->Ok_0;
        lemma_block_parity_count(m, r);
        lemma_block_data_len(blk, bb);
        lemma_block_data_bits_index(blk, bb, d);
        let pos = choose|pos: nat|
            1 <= pos <= bb && !parity_position(pos) && data_index(pos) == d && #[trigger] bit_at(
                blk,
                pos - 1,
            ) == block_data_bits(blk, bb)[d];
        if k < nb {
            assert(blk == code_block(data, m, r, k));
            assert(bit_at(blk, pos - 1) == data_bit_of(data, m, k, pos));
            assert(k * (m as int) + d == i);
        } else {
            assert(!bit_at(blk, pos - 1));
            assert(i >= nb * m) by {
                vstd::arithmetic::mul::lemma_mul_inequality(nb as int, k, m as int);
            }
            assert(!stream_bit(data, i));
        }
    }
    let outlen = ((nb2 * m + 7) as nat) / 8;
    let v = decode_gen(e, m, r)->Ok_0;
    assert(v == pack_bits(ds, outlen));
    assert(len <= outlen) by {
        assert(nb * m <= nb2 * m) by (nonlinear_arith)
            requires
                nb <= nb2,
                m >= 0,
        ;
        vstd::arithmetic::div_mod::lemma_div_multiples_vanish(len, 8);
        vstd::arithmetic::div_mod::lemma_div_is_ordered(8 * len, (nb2 * m + 7) as int, 8);
    }
    assert forall|t: int| 0 <= t < outlen implies v[t] == (if t < len {
        data[t]
    } else {
        0u8
    }) by {
        crate::bits::lemma_u8_zero_has_no_bits();
        assert forall|j: int| 0 <= j < 8 implies #[trigger] bit_at(ds, 8 * t + j) == (((if t < len {
            data[t]
        } else {
            0u8
        }) >> j) & 1 == 1) by {
            let i = 8 * t + j;
            if t < len {
                vstd::arithmetic::div_mod::lemma_fundamental_div_mod_converse(i, 8, t, j);
                assert(i < 8 * len);
                assert(8 * len <= nb2 * m) by (nonlinear_arith)
                    requires
                        8 * len <= nb * m,
                        nb <= nb2,
                        m >= 0,
                ;
                assert(stream_bit(data, i) == ((data[t] >> j) & 1 == 1));
            } else {
                assert(i >= 8 * len);
                assert(!stream_bit(data, i));
                if i < nb2 * m {
                    assert(ds[i] == stream_bit(data, i));
                }
                assert(((0u8 >> (j as u8)) & 1) != 1);
            }
        }
        crate::bits::lemma_bits_byte_matches(
            ds,
            8 * t,
            if t < len {
                data[t]
            } else {
                0u8
            },
        );
    }
    assert(v.take(len) =~= data);
}

/// Law: flipping exactly one bit anywhere in the encoded stream leaves the
/// decode result unchanged: the flipped block's syndrome names exactly the
/// flipped position, which is then corrected.
#[verifier::rlimit(100)]
#[verifier::spinoff_prover]
pub proof fn lemma_hamming_corrects_flip(data: Seq<u8>, m: nat, r: nat, g: int)
    requires
        params_ok(m, r),
        0 <= g < 8 * encode_gen(data, m, r).len(),
    ensures
        decode_gen(flip_stream(encode_gen(data, m, r), g), m, r) == decode_gen(
            encode_gen(data, m, r),
            m,
            r,
        ),
{
    let bb = (m + r) as nat;
    let e = encode_gen(data, m, r);
    let f = flip_stream(e, g);
    vstd::arithmetic::div_mod::lemma_fundamental_div_mod(g, 8);
    assert(f.len() == e.len());
    assert(data.len() >= 1);
    lemma_encode_counts(data, m, r);
    let nb2 = recv_blocks(e.len(), m, r);
    lemma_block_parity_count(m, r);
    // corrected blocks agree bit for bit
    assert forall|k: int| 0 <= k < nb2 implies #[trigger] corrected_block(f, bb, r, k)
        == corrected_block(e, bb, r, k) && corrected_block(e, bb, r, k) is Ok by {
        assert((k + 1) * bb <= nb2 * bb && (k + 1) * bb == k * bb + bb) by (nonlinear_arith)
            requires
                k + 1 <= nb2,
                bb >= 0,
        ;
        lemma_encode_block_ok(data, m, r, k);
        let rv = recv_block(e, bb, k);
        let fv = recv_block(f, bb, k);
        assert forall|i: int| 0 <= i < bb implies fv[i] == (if k * (bb as int) + i == g {
            !rv[i]
        } else {
            rv[i]
        }) by {
            crate::bits::lemma_flip_stream_bit(e, g, k * (bb as int) + i);
        }
        assert forall|p: nat| p < r implies !#[trigger] check_xor(rv, p, bb) by {
            lemma_filled_check_of_ok(rv, r, bb, p);
        }
        if k * (bb as int) <= g < k * (bb as int) + bb {
            let t = g - k * (bb as int);
            assert(fv =~= rv.update(t, !rv[t]));
            assert forall|p: nat| p < r implies #[trigger] check_xor(fv, p, bb) == has_bit(
                (t + 1) as nat,
                p,
            ) by {
                lemma_check_update(rv, p, bb, t, !rv[t]);
            }
            lemma_syndrome_reconstructs(fv, r, bb, (t + 1) as nat);
            vstd::arithmetic::div_mod::lemma_small_mod((t + 1) as nat, pow2(r));
            assert(syndrome_xor(fv, r, bb) == t + 1);
            let cf = fv.update(t, !fv[t]);
            assert(cf =~= rv);
            assert(corrected_block(f, bb, r, k) == Ok::<Seq<bool>, HammingError>(rv));
            assert(corrected_block(e, bb, r, k) == Ok::<Seq<bool>, HammingError>(rv));
        } else {
            assert forall|i: int| 0 <= i < bb implies fv[i] == rv[i] by {
                if k * (bb as int) + i == g {
                    assert(false);
                }
            }
            assert(fv =~= rv);
        }
    }
    lemma_decoded_stream_same(f, e, m, r, nb2 as int);
    assert(recv_blocks(f.len(), m, r) == nb2);
    assert(nb2 >= 1);
    assert forall|k: int| 0 <= k < nb2 implies !(#[trigger] corrected_block(e, bb, r, k) is Err)
        && !(corrected_block(f, bb, r, k) is Err) by {
        assert(corrected_block(f, bb, r, k) == corrected_block(e, bb, r, k));
    }
    assert(!(exists|k: int| 0 <= k < nb2 && corrected_block(e, bb, r, k) is Err));
    assert(!(exists|k: int| 0 <= k < nb2 && corrected_block(f, bb, r, k) is Err));
    assert(decode_gen(f, m, r)->Ok_0 =~= decode_gen(e, m, r)->Ok_0);
    assert(decode_gen(f, m, r) is Ok && decode_gen(e, m, r) is Ok);
}

/// A block with syndrome zero passes every check.
proof fn lemma_filled_check_of_ok(blk: Seq<bool>, r: nat, n: nat, p: nat)
    requires
        p < r,
        syndrome_xor(blk, r, n) == 0,
    ensures
        !check_xor(blk, p, n),
    decreases r,
{
    if p + 1 < r {
        lemma_filled_check_of_ok(blk, (r - 1) as nat, n, p);
    } else {
        vstd::arithmetic::power2::lemma_pow2_pos((r - 1) as nat);
    }
}

/// Law: decode reports `UncorrectableErrors` exactly when some whole
/// block's syndrome lies outside `[0, block_size]`, and `InvalidLength`
/// exactly when a nonempty input holds less than one whole block.
pub proof fn lemma_hamming_decode_errors(encoded: Seq<u8>, m: nat, r: nat)
    requires
        params_ok(m, r),
    ensures
        decode_gen(encoded, m, r) == Err::<Seq<u8>, HammingError>(HammingError::InvalidLength)
            <==> (encoded.len() > 0 && (8 * encoded.len()) / ((m + r) as nat) == 0),
        decode_gen(encoded, m, r) == Err::<Seq<u8>, HammingError>(
            HammingError::UncorrectableErrors,
        ) <==> ((8 * encoded.len()) / ((m + r) as nat) > 0 && exists|k: int|
            0 <= k < (8 * encoded.len()) / ((m + r) as nat) && syndrome_xor(
                #[trigger] recv_block(encoded, (m + r) as nat, k),
                r,
                (m + r) as nat,
            ) > m + r),
{
    let bb = (m + r) as nat;
    let nb = (8 * encoded.len()) / bb;
    assert forall|k: int| 0 <= k < nb implies (#[trigger] corrected_block(encoded, bb, r, k)
        is Err <==> syndrome_xor(#[trigger] recv_block(encoded, bb, k), r, bb) > m + r) by {
    }
    if exists|k: int| 0 <= k < nb && corrected_block(encoded, bb, r, k) is Err {
        let k0 = choose|k: int| 0 <= k < nb && corrected_block(encoded, bb, r, k) is Err;
        assert(syndrome_xor(recv_block(encoded, bb, k0), r, bb) > m + r);
    }
    if exists|k: int|
        0 <= k < nb && syndrome_xor(#[trigger] recv_block(encoded, bb, k), r, bb) > m + r {
        let k0 = choose|k: int|
            0 <= k < nb && syndrome_xor(#[trigger] recv_block(encoded, bb, k), r, bb) > m + r;
        assert(corrected_block(encoded, bb, r, k0) is Err);
    }
}

/// Law: the empty sequence encodes and decodes to the empty sequence.
pub proof fn lemma_hamming_empty(m: nat, r: nat)
    requires
        params_ok(m, r),
    ensures
        encode_gen(Seq::<u8>::empty(), m, r) == Seq::<u8>::empty(),
        decode_gen(Seq::<u8>::empty(), m, r) == Ok::<Seq<u8>, HammingError>(Seq::<u8>::empty()),
{
}

} // verus!
