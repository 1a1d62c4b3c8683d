//! 6b/8b DC-balancing line code.
//!
//! Each 6-bit value `a b c d e f` (MSB first) is widened to the byte
//! `a b X c d Y e f`, where the stuffed bits X and Y are chosen so that the
//! running count of ones and zeroes stays near equal. The stuffed bits sit at
//! fixed positions, so a channel bit error never disturbs more than the bit it
//! hit: stripping is a pure bit extraction.

use vstd::prelude::*;

verus! {

/// Number of ones among the low four bits.
pub open spec fn popcount4(x: u8) -> int {
    ((x & 1) + ((x >> 1) & 1) + ((x >> 2) & 1) + ((x >> 3) & 1)) as int
}

/// Number of ones in a byte.
pub open spec fn popcount8(x: u8) -> int {
    popcount4(x) + popcount4(x >> 4)
}

/// The byte that the 6-bit value `raw` is balanced to: bits 7,6 and 4,3 and
/// 1,0 carry the value, bit 5 balances the high half, bit 2 the low half.
pub open spec fn balance_spec(raw: u8) -> u8 {
    (((raw >> 4) & 0x3) << 6) | (bit_x(raw) << 5) | (((raw >> 2) & 0x3) << 3) | (bit_y(raw) << 2)
        | (raw & 0x3)
}

/// The stuffed bit for the high half: zero iff the high nibble of the 6-bit
/// value already carries more than two ones.
pub open spec fn bit_x(raw: u8) -> u8 {
    if popcount4(raw >> 2) > 2 {
        0
    } else {
        1
    }
}

/// The stuffed bit for the low half: one iff the low nibble carries fewer
/// than two ones.
pub open spec fn bit_y(raw: u8) -> u8 {
    if popcount4(raw & 0xf) < 2 {
        1
    } else {
        0
    }
}

/// The 6-bit value carried in bits 7,6,4,3,1,0 of a balanced byte.
pub open spec fn strip_spec(enc: u8) -> u8 {
    ((enc & 0xc0) >> 2) | ((enc & 0x18) >> 1) | (enc & 0x3)
}

/// Balance a 6-bit value into its 8-bit line symbol.
pub fn balance(raw: u8) -> (r: u8)
    requires
        raw < 64,
    ensures
        r == balance_spec(raw),
{
    let high = raw >> 2;
    let low = raw & 0xf;
    proof {
        lemma_byte_bits(high, low);
    }
    let ones_left = (high & 1) + ((high >> 1) & 1) + ((high >> 2) & 1) + ((high >> 3) & 1);
    let ones_right = (low & 1) + ((low >> 1) & 1) + ((low >> 2) & 1) + ((low >> 3) & 1);
    let b_x: u8 = if ones_left > 2 {
        0
    } else {
        1
    };
    let b_y: u8 = if ones_right < 2 {
        1
    } else {
        0
    };
    (((raw >> 4) & 0x3) << 6) | (b_x << 5) | (((raw >> 2) & 0x3) << 3) | (b_y << 2) | (raw & 0x3)
}

/// Recover the 6-bit value from a line symbol, discarding the stuffed bits.
pub fn strip(enc: u8) -> (r: u8)
    ensures
        r == strip_spec(enc),
        r < 64,
{
    proof {
        lemma_byte_bits(enc, 0);
    }
    ((enc & 0xc0) >> 2) | ((enc & 0x18) >> 1) | (enc & 0x3)
}

/// Nibble bit extractions are single bits, and a stripped symbol is a
/// 6-bit value.
proof fn lemma_byte_bits(high: u8, low: u8)
    by (bit_vector)
    ensures
        (high & 1) <= 1 && ((high >> 1) & 1) <= 1 && ((high >> 2) & 1) <= 1 && ((high >> 3) & 1)
            <= 1,
        (low & 1) <= 1 && ((low >> 1) & 1) <= 1 && ((low >> 2) & 1) <= 1 && ((low >> 3) & 1) <= 1,
        strip_spec(high) < 64,
{
}

/// The line code is a bijection: stripping undoes balancing for every 6-bit
/// value.
pub proof fn lemma_balance_strip_identity(b: u8)
    by (bit_vector)
    requires
        b < 64,
    ensures
        strip_spec(balance_spec(b)) == b,
{
}

/// A single channel bit error in a line symbol corrupts at most one bit of
/// the recovered 6-bit value.
pub proof fn lemma_one_bit_error_local(b: u8, i: u8)
    by (bit_vector)
    requires
        b < 64,
        i < 8,
    ensures
        popcount8(b ^ strip_spec(balance_spec(b) ^ (1u8 << i))) <= 1,
{
}

/// Two channel bit errors in a line symbol corrupt at most two bits of the
/// recovered 6-bit value.
pub proof fn lemma_two_bit_error_local(b: u8, i: u8, j: u8)
    by (bit_vector)
    requires
        b < 64,
        i < 8,
        j < 8,
        i != j,
    ensures
        popcount8(b ^ strip_spec(balance_spec(b) ^ (1u8 << i) ^ (1u8 << j))) <= 2,
{
}

/// Bit `i` (counted from the least significant end) of a 16-bit word.
pub open spec fn bit16(w: u16, i: u16) -> bool {
    (w >> i) & 1 == 1
}

/// Four consecutive identical bits starting at position `i`.
pub open spec fn window4_same(w: u16, i: u16) -> bool {
    bit16(w, i) == bit16(w, (i + 1) as u16) && bit16(w, i) == bit16(w, (i + 2) as u16) && bit16(
        w,
        i,
    ) == bit16(w, (i + 3) as u16)
}

/// Six consecutive identical bits starting at position `i`.
pub open spec fn window6_same(w: u16, i: u16) -> bool {
    window4_same(w, i) && bit16(w, i) == bit16(w, (i + 4) as u16) && bit16(w, i) == bit16(
        w,
        (i + 5) as u16,
    )
}

/// No window of four identical bits fits in a line symbol: every run of
/// identical bits inside one balanced byte is at most three bits long.
pub proof fn lemma_balance_run_length(b: u8, i: u16)
    by (bit_vector)
    requires
        b < 64,
        i + 4 <= 8,
    ensures
        !window4_same(balance_spec(b) as u16, i),
{
}

/// No window of six identical bits fits in two adjacent line symbols: every
/// run of identical bits across a concatenated symbol pair is at most five
/// bits long.
pub proof fn lemma_concat_run_length(b1: u8, b2: u8, i: u16)
    by (bit_vector)
    requires
        b1 < 64,
        b2 < 64,
        i + 6 <= 16,
    ensures
        !window6_same(((balance_spec(b1) as u16) << 8) | (balance_spec(b2) as u16), i),
{
}


/// Six-bit symbol `i` of a 24-byte buffer, consumed least-significant-bit
/// first from the byte stream: each three input bytes yield four symbols.
pub open spec fn sym6_spec(q: Seq<u8>, i: int) -> u8 {
    let b0 = q[3 * (i / 4)];
    let b1 = q[3 * (i / 4) + 1];
    let b2 = q[3 * (i / 4) + 2];
    if i % 4 == 0 {
        b0 & 0x3f
    } else if i % 4 == 1 {
        ((b0 >> 6) | (b1 << 2)) & 0x3f
    } else if i % 4 == 2 {
        ((b1 >> 4) | (b2 << 4)) & 0x3f
    } else {
        b2 >> 2
    }
}

/// The DC-balanced image of a 24-byte buffer: 32 line symbols.
pub open spec fn dc_encode_spec(q: Seq<u8>) -> Seq<u8> {
    Seq::new(32, |i: int| balance_spec(sym6_spec(q, i)))
}

/// The 24 bytes recovered from 32 line symbols: each four stripped symbols
/// are packed back, least-significant-bit first, into three bytes.
pub open spec fn dc_decode_spec(s: Seq<u8>) -> Seq<u8> {
    Seq::new(
        24,
        |j: int|
            {
                let v0 = strip_spec(s[4 * (j / 3)]);
                let v1 = strip_spec(s[4 * (j / 3) + 1]);
                let v2 = strip_spec(s[4 * (j / 3) + 2]);
                let v3 = strip_spec(s[4 * (j / 3) + 3]);
                if j % 3 == 0 {
                    v0 | (v1 << 6)
                } else if j % 3 == 1 {
                    (v1 >> 2) | (v2 << 4)
                } else {
                    (v2 >> 4) | (v3 << 2)
                }
            },
    )
}

/// Repacking the four 6-bit symbols of a group restores its three bytes.
proof fn lemma_group_repack(b0: u8, b1: u8, b2: u8)
    by (bit_vector)
    ensures
        (b0 & 0x3f) | ((((b0 >> 6) | (b1 << 2)) & 0x3f) << 6) == b0,
        ((((b0 >> 6) | (b1 << 2)) & 0x3f) >> 2) | ((((b1 >> 4) | (b2 << 4)) & 0x3f) << 4) == b1,
        ((((b1 >> 4) | (b2 << 4)) & 0x3f) >> 4) | ((b2 >> 2) << 2) == b2,
        (b0 & 0x3f) < 64,
        (((b0 >> 6) | (b1 << 2)) & 0x3f) < 64,
        (((b1 >> 4) | (b2 << 4)) & 0x3f) < 64,
        (b2 >> 2) < 64,
{
}

/// Stripping the line code undoes balancing on every buffer: the 6b/8b
/// stage of the pipeline is lossless.
pub proof fn lemma_dc_roundtrip(q: Seq<u8>)
    requires
        q.len() == 24,
    ensures
        dc_decode_spec(dc_encode_spec(q)) == q,
{
    let s = dc_encode_spec(q);
    assert forall|j: int| 0 <= j < 24 implies dc_decode_spec(s)[j] == q[j] by {
        let g = j / 3;
        let b0 = q[3 * g];
        let b1 = q[3 * g + 1];
        let b2 = q[3 * g + 2];
        lemma_group_repack(b0, b1, b2);
        assert((4 * g) / 4 == g && (4 * g) % 4 == 0);
        assert((4 * g + 1) / 4 == g && (4 * g + 1) % 4 == 1);
        assert((4 * g + 2) / 4 == g && (4 * g + 2) % 4 == 2);
        assert((4 * g + 3) / 4 == g && (4 * g + 3) % 4 == 3);
        lemma_balance_strip_identity(sym6_spec(q, 4 * g));
        lemma_balance_strip_identity(sym6_spec(q, 4 * g + 1));
        lemma_balance_strip_identity(sym6_spec(q, 4 * g + 2));
        lemma_balance_strip_identity(sym6_spec(q, 4 * g + 3));
        if j % 3 == 0 {
            assert(j == 3 * g);
        } else if j % 3 == 1 {
            assert(j == 3 * g + 1);
        } else {
            assert(j == 3 * g + 2);
        }
    }
    assert(dc_decode_spec(s) =~= q);
}

/// Balance a 24-byte buffer into 32 line symbols, six source bits per
/// symbol, consumed least-significant-bit first.
pub fn dc_encode24(q: &[u8; 24]) -> (r: [u8; 32])
    ensures
        r@ == dc_encode_spec(q@),
{
    let mut out: [u8; 32] = [0; 32];
    let mut g: usize = 0;
    while g < 8
        invariant
            g <= 8,
            forall|m: int| 0 <= m < 4 * g ==> #[trigger] out@[m] == dc_encode_spec(q@)[m],
        decreases 8 - g,
    {
        let b0 = q[3 * g];
        let b1 = q[3 * g + 1];
        let b2 = q[3 * g + 2];
        proof {
            lemma_group_repack(b0, b1, b2);
            assert((4 * g as int) / 4 == g as int && (4 * g as int) % 4 == 0);
            assert((4 * g as int + 1) / 4 == g as int && (4 * g as int + 1) % 4 == 1);
            assert((4 * g as int + 2) / 4 == g as int && (4 * g as int + 2) % 4 == 2);
            assert((4 * g as int + 3) / 4 == g as int && (4 * g as int + 3) % 4 == 3);
        }
        out[4 * g] = balance(b0 & 0x3f);
        out[4 * g + 1] = balance(((b0 >> 6) | (b1 << 2)) & 0x3f);
        out[4 * g + 2] = balance(((b1 >> 4) | (b2 << 4)) & 0x3f);
        out[4 * g + 3] = balance(b2 >> 2);
        g = g + 1;
    }
    proof {
        assert(out@ =~= dc_encode_spec(q@));
    }
    out
}

/// Strip 32 line symbols back into the 24 bytes they carry.
pub fn dc_decode32(s: &[u8; 32]) -> (r: [u8; 24])
    ensures
        r@ == dc_decode_spec(s@),
{
    let mut out: [u8; 24] = [0; 24];
    let mut g: usize = 0;
    while g < 8
        invariant
            g <= 8,
            forall|m: int| 0 <= m < 3 * g ==> #[trigger] out@[m] == dc_decode_spec(s@)[m],
        decreases 8 - g,
    {
        let v0 = strip(s[4 * g]);
        let v1 = strip(s[4 * g + 1]);
        let v2 = strip(s[4 * g + 2]);
        let v3 = strip(s[4 * g + 3]);
        proof {
            assert((3 * g as int) / 3 == g as int && (3 * g as int) % 3 == 0);
            assert((3 * g as int + 1) / 3 == g as int && (3 * g as int + 1) % 3 == 1);
            assert((3 * g as int + 2) / 3 == g as int && (3 * g as int + 2) % 3 == 2);
        }
        out[3 * g] = v0 | (v1 << 6);
        out[3 * g + 1] = (v1 >> 2) | (v2 << 4);
        out[3 * g + 2] = (v2 >> 4) | (v3 << 2);
        g = g + 1;
    }
    proof {
        assert(out@ =~= dc_decode_spec(s@));
    }
    out
}

} // verus!
