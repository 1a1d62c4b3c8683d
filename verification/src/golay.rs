//! Extended binary Golay (24,12) codec.
//!
//! A 12-bit message is expanded to a 23-bit codeword of the [23,12] Golay
//! code with generator polynomial 0xAE3, and an overall parity bit is added
//! on top, giving a 24-bit word that corrects up to three bit errors.
//! Decoding uses Kasami's rotating-syndrome error trapping: the received word
//! is cyclically rotated, optionally with a trial bit flipped, until a
//! syndrome of low enough weight is found, which is then the error pattern.

use vstd::prelude::*;

verus! {

/// One round of polynomial division: examine the lowest bit, reduce, shift.
pub open spec fn synd_step(cw: u32) -> u32 {
    if cw & 1 == 1 {
        (cw ^ 0xAE3) >> 1
    } else {
        cw >> 1
    }
}

/// Repeated rounds of polynomial division.
pub open spec fn synd_iter(cw: u32, n: nat) -> u32
    decreases n,
{
    if n == 0 {
        cw
    } else {
        synd_iter(synd_step(cw), (n - 1) as nat)
    }
}

/// Twelve rounds of polynomial division, one per message bit.
pub open spec fn synd12(cw: u32) -> u32 {
    synd_iter(cw, 12)
}

/// The syndrome of a 23-bit Golay codeword, aligned to the upper bits so it
/// can be combined with the 12 message bits: zero exactly when the word is a
/// codeword.
pub open spec fn syndrome_spec(cw: u32) -> u32 {
    synd12(cw & 0x7fffff) << 12
}

/// The XOR-fold of all 24 bits of a word, reduced to a single bit.
pub open spec fn parity24_spec(cw: u32) -> u32 {
    let p1 = (((cw >> 16) as u8) ^ ((cw >> 8) as u8)) ^ (cw as u8);
    let p2 = (p1 >> 4) ^ p1;
    let p3 = (p2 >> 2) ^ p2;
    let p4 = (p3 >> 1) ^ p3;
    (p4 as u32) & 0x1
}

/// The full 24-bit codeword of a 12-bit message: check bits above, message
/// below, overall parity on top.
pub open spec fn codeword_spec(c: u16) -> u32 {
    let code = (synd12(c as u32) << 12) | (c as u32);
    (parity24_spec(code) << 23) | code
}

/// Number of ones among the low 23 bits.
pub open spec fn popcount23(x: u32) -> u32 {
    ((x & 1) + ((x >> 1) & 1) + ((x >> 2) & 1) + ((x >> 3) & 1) + ((x >> 4) & 1) + ((x >> 5) & 1)
        + ((x >> 6) & 1) + ((x >> 7) & 1) + ((x >> 8) & 1) + ((x >> 9) & 1) + ((x >> 10) & 1) + ((
    x >> 11) & 1) + ((x >> 12) & 1) + ((x >> 13) & 1) + ((x >> 14) & 1) + ((x >> 15) & 1) + ((x
        >> 16) & 1) + ((x >> 17) & 1) + ((x >> 18) & 1) + ((x >> 19) & 1) + ((x >> 20) & 1) + ((x
        >> 21) & 1) + ((x >> 22) & 1)) as u32
}

/// One left rotation of a 23-bit codeword.
pub open spec fn rotl1(cw: u32) -> u32 {
    if cw & 0x400000 != 0 {
        ((cw << 1) | 1) & 0x7fffff
    } else {
        (cw << 1) & 0x7fffff
    }
}

/// One right rotation of a 23-bit codeword.
pub open spec fn rotr1(cw: u32) -> u32 {
    if cw & 1 != 0 {
        ((cw >> 1) | 0x400000) & 0x7fffff
    } else {
        (cw >> 1) & 0x7fffff
    }
}

/// `n` left rotations of a 23-bit codeword.
pub open spec fn rotln(cw: u32, n: nat) -> u32
    decreases n,
{
    if n == 0 {
        cw & 0x7fffff
    } else {
        rotl1(rotln(cw, (n - 1) as nat))
    }
}

/// `n` right rotations of a 23-bit codeword.
pub open spec fn rotrn(cw: u32, n: nat) -> u32
    decreases n,
{
    if n == 0 {
        cw & 0x7fffff
    } else {
        rotr1(rotrn(cw, (n - 1) as nat))
    }
}

/// One division round distributes over XOR: the polynomial reduction is
/// linear over GF(2).
proof fn lemma_synd_step_linear(a: u32, b: u32)
    by (bit_vector)
    ensures
        synd_step(a ^ b) == synd_step(a) ^ synd_step(b),
{
}

/// Any number of division rounds distributes over XOR.
proof fn lemma_synd_iter_linear(a: u32, b: u32, n: nat)
    ensures
        synd_iter(a ^ b, n) == synd_iter(a, n) ^ synd_iter(b, n),
    decreases n,
{
    if n > 0 {
        lemma_synd_step_linear(a, b);
        lemma_synd_iter_linear(synd_step(a), synd_step(b), (n - 1) as nat);
    }
}

/// A word with `n` clear low bits is only shifted by the first `n` rounds.
proof fn lemma_synd_iter_shifted(r: u32, n: nat)
    requires
        r < 0x800,
        n <= 12,
    ensures
        synd_iter(r << (n as u32), n) == r,
    decreases n,
{
    if n == 0 {
        lemma_word_bits(r, 0);
    } else {
        let m = n as u32;
        assert(r < 0x800 && 1 <= m && m <= 12 ==> synd_step(r << m) == r << (m - 1) as u32)
            by (bit_vector);
        assert((m - 1) as u32 == ((n - 1) as nat) as u32);
        lemma_synd_iter_shifted(r, (n - 1) as nat);
    }
}

/// Each division round keeps an 11-bit remainder within 11 bits and shrinks
/// anything wider by one bit, down to 11 bits.
proof fn lemma_synd_iter_bound(x: u32, n: nat)
    requires
        n <= 12,
        x < (1u32 << ((11 + n) as u32)),
    ensures
        synd_iter(x, n) < 0x800,
    decreases n,
{
    if n == 0 {
        lemma_word_bits(x, 0);
    } else {
        let k: u32 = (11 + n) as u32;
        assert(x < (1u32 << k) && 12 <= k && k <= 23 ==> synd_step(x) < (1u32 << (k - 1) as u32))
            by (bit_vector);
        assert((k - 1) as u32 == (11 + (n - 1) as nat) as u32);
        lemma_synd_iter_bound(synd_step(x), (n - 1) as nat);
    }
}

/// Twelve rounds reduce any 23-bit word to an 11-bit remainder.
pub proof fn lemma_synd12_bound(x: u32)
    requires
        x < 0x800000,
    ensures
        synd12(x) < 0x800,
{
    lemma_word_bits(x, 0);
    lemma_synd_iter_bound(x, 12);
}

/// Small facts about 23-bit words and masks that the decoder leans on.
proof fn lemma_word_bits(c: u32, s: u32)
    by (bit_vector)
    ensures
        c & 0x7fffff < 0x800000,
        c & 0xfff < 4096,
        ((c << 1) | 1) & 0x7fffff < 0x800000,
        (c << 1) & 0x7fffff < 0x800000,
        ((c >> 1) | 0x400000) & 0x7fffff < 0x800000,
        (c >> 1) & 0x7fffff < 0x800000,
        c < 0x1000000 && s < 0x800000 ==> (c ^ s) < 0x1000000,
        s < 0x800 ==> (s << 12) < 0x800000,
        c < 4096 ==> c & 0x7fffff == c,
        c < 0x800000 ==> c < (1u32 << 23u32),
        c << 0u32 == c,
        c < (1u32 << 11u32) ==> c < 0x800,
        synd_step(0) == 0,
        (s << 12u32) == (s << (12 as u32)),
        (c & 0x7fffff) & 0xfff == c & 0xfff,
        c & 0xfff < (1u32 << ((11 + 11) as u32)),
        s < 0x800 ==> ((s << 12) | (c & 0xfff)) == ((s << 12) ^ (c & 0xfff)),
        0x1000u32 >> 12 == 1 && 0x1000u32 & 0xfff == 0 && (1u32 ^ 0u32) == 1,
        c < 4096 ==> c & 0xfff == c,
        c < 0x800000 ==> (c >> 12) < 0x800,
        c < 0x800000 && s < 0x800000 ==> (c ^ s) < 0x800000,
        (1u32 << 12u32) == 0x1000,
{
}

/// Facts about the trial-bit masks of the decoder.
proof fn lemma_mask_shift(sh: u32)
    by (bit_vector)
    ensures
        sh <= 22 ==> (1u32 << sh) <= 0x400000,
        sh <= 21 ==> ((1u32 << sh) << 1) == (1u32 << (sh + 1) as u32),
        (1u32 << 0u32) == 1,
{
}


/// One extra division round on the input is one round on the remainder:
/// the rounds commute with iteration.
proof fn lemma_synd_iter_commute(x: u32, n: nat)
    ensures
        synd_iter(synd_step(x), n) == synd_step(synd_iter(x, n)),
    decreases n,
{
    if n > 0 {
        lemma_synd_iter_commute(synd_step(x), (n - 1) as nat);
    }
}

/// Division rounds leave zero at zero.
proof fn lemma_synd_iter_zero(n: nat)
    ensures
        synd_iter(0, n) == 0,
    decreases n,
{
    if n > 0 {
        lemma_word_bits(0, 0);
        lemma_synd_iter_zero((n - 1) as nat);
    }
}

/// The remainder of a message assembled row by row: each message bit
/// contributes the remainder of that single bit.
pub open spec fn gen_combo(m: u32) -> u32 {
    (if m & 0x800 == 0x800 {
        0x571u32
    } else {
        0u32
    }) ^ ((if m & 0x400 == 0x400 {
        0x7C9u32
    } else {
        0u32
    }) ^ ((if m & 0x200 == 0x200 {
        0x695u32
    } else {
        0u32
    }) ^ ((if m & 0x100 == 0x100 {
        0x63Bu32
    } else {
        0u32
    }) ^ ((if m & 0x80 == 0x80 {
        0x66Cu32
    } else {
        0u32
    }) ^ ((if m & 0x40 == 0x40 {
        0x336u32
    } else {
        0u32
    }) ^ ((if m & 0x20 == 0x20 {
        0x19Bu32
    } else {
        0u32
    }) ^ ((if m & 0x10 == 0x10 {
        0x5BCu32
    } else {
        0u32
    }) ^ ((if m & 0x8 == 0x8 {
        0x2DEu32
    } else {
        0u32
    }) ^ ((if m & 0x4 == 0x4 {
        0x16Fu32
    } else {
        0u32
    }) ^ ((if m & 0x2 == 0x2 {
        0x5C6u32
    } else {
        0u32
    }) ^ ((if m & 0x1 == 0x1 {
        0x2E3u32
    } else {
        0u32
    }))))))))))))
}

/// The concrete division chain behind the twelve generator rows.
proof fn lemma_step_chain()
    by (bit_vector)
    ensures
        synd_step(0x1) == 0x571 && synd_step(0x2) == 0x1 && synd_step(0x4) == 0x2 && synd_step(0x8) == 0x4 && synd_step(0x10) == 0x8 && synd_step(0x20) == 0x10 && synd_step(0x40) == 0x20 && synd_step(0x80) == 0x40 && synd_step(0x100) == 0x80 && synd_step(0x16F) == 0x5C6 && synd_step(0x19B) == 0x5BC && synd_step(0x200) == 0x100 && synd_step(0x2DE) == 0x16F && synd_step(0x336) == 0x19B && synd_step(0x400) == 0x200 && synd_step(0x571) == 0x7C9 && synd_step(0x5BC) == 0x2DE && synd_step(0x5C6) == 0x2E3 && synd_step(0x63B) == 0x66C && synd_step(0x66C) == 0x336 && synd_step(0x695) == 0x63B && synd_step(0x7C9) == 0x695 && synd_step(0x800) == 0x400,
{
}

/// The remainder of each single-bit message: the twelve generator rows.
proof fn lemma_gen_rows()
    ensures
        synd_iter(0x1, 12) == 0x2E3,
        synd_iter(0x2, 12) == 0x5C6,
        synd_iter(0x4, 12) == 0x16F,
        synd_iter(0x8, 12) == 0x2DE,
        synd_iter(0x10, 12) == 0x5BC,
        synd_iter(0x20, 12) == 0x19B,
        synd_iter(0x40, 12) == 0x336,
        synd_iter(0x80, 12) == 0x66C,
        synd_iter(0x100, 12) == 0x63B,
        synd_iter(0x200, 12) == 0x695,
        synd_iter(0x400, 12) == 0x7C9,
        synd_iter(0x800, 12) == 0x571,
{
    lemma_step_chain();
    assert(synd_iter(0x1, 12) == synd_iter(0x571, 11));
    assert(synd_iter(0x571, 11) == synd_iter(0x7C9, 10));
    assert(synd_iter(0x7C9, 10) == synd_iter(0x695, 9));
    assert(synd_iter(0x695, 9) == synd_iter(0x63B, 8));
    assert(synd_iter(0x63B, 8) == synd_iter(0x66C, 7));
    assert(synd_iter(0x66C, 7) == synd_iter(0x336, 6));
    assert(synd_iter(0x336, 6) == synd_iter(0x19B, 5));
    assert(synd_iter(0x19B, 5) == synd_iter(0x5BC, 4));
    assert(synd_iter(0x5BC, 4) == synd_iter(0x2DE, 3));
    assert(synd_iter(0x2DE, 3) == synd_iter(0x16F, 2));
    assert(synd_iter(0x16F, 2) == synd_iter(0x5C6, 1));
    assert(synd_iter(0x5C6, 1) == synd_iter(0x2E3, 0));
    assert(synd_iter(0x2, 12) == synd_iter(0x1, 11));
    assert(synd_iter(0x1, 11) == synd_iter(0x571, 10));
    assert(synd_iter(0x571, 10) == synd_iter(0x7C9, 9));
    assert(synd_iter(0x7C9, 9) == synd_iter(0x695, 8));
    assert(synd_iter(0x695, 8) == synd_iter(0x63B, 7));
    assert(synd_iter(0x63B, 7) == synd_iter(0x66C, 6));
    assert(synd_iter(0x66C, 6) == synd_iter(0x336, 5));
    assert(synd_iter(0x336, 5) == synd_iter(0x19B, 4));
    assert(synd_iter(0x19B, 4) == synd_iter(0x5BC, 3));
    assert(synd_iter(0x5BC, 3) == synd_iter(0x2DE, 2));
    assert(synd_iter(0x2DE, 2) == synd_iter(0x16F, 1));
    assert(synd_iter(0x16F, 1) == synd_iter(0x5C6, 0));
    assert(synd_iter(0x4, 12) == synd_iter(0x2, 11));
    assert(synd_iter(0x2, 11) == synd_iter(0x1, 10));
    assert(synd_iter(0x1, 10) == synd_iter(0x571, 9));
    assert(synd_iter(0x571, 9) == synd_iter(0x7C9, 8));
    assert(synd_iter(0x7C9, 8) == synd_iter(0x695, 7));
    assert(synd_iter(0x695, 7) == synd_iter(0x63B, 6));
    assert(synd_iter(0x63B, 6) == synd_iter(0x66C, 5));
    assert(synd_iter(0x66C, 5) == synd_iter(0x336, 4));
    assert(synd_iter(0x336, 4) == synd_iter(0x19B, 3));
    assert(synd_iter(0x19B, 3) == synd_iter(0x5BC, 2));
    assert(synd_iter(0x5BC, 2) == synd_iter(0x2DE, 1));
    assert(synd_iter(0x2DE, 1) == synd_iter(0x16F, 0));
    assert(synd_iter(0x8, 12) == synd_iter(0x4, 11));
    assert(synd_iter(0x4, 11) == synd_iter(0x2, 10));
    assert(synd_iter(0x2, 10) == synd_iter(0x1, 9));
    assert(synd_iter(0x1, 9) == synd_iter(0x571, 8));
    assert(synd_iter(0x571, 8) == synd_iter(0x7C9, 7));
    assert(synd_iter(0x7C9, 7) == synd_iter(0x695, 6));
    assert(synd_iter(0x695, 6) == synd_iter(0x63B, 5));
    assert(synd_iter(0x63B, 5) == synd_iter(0x66C, 4));
    assert(synd_iter(0x66C, 4) == synd_iter(0x336, 3));
    assert(synd_iter(0x336, 3) == synd_iter(0x19B, 2));
    assert(synd_iter(0x19B, 2) == synd_iter(0x5BC, 1));
    assert(synd_iter(0x5BC, 1) == synd_iter(0x2DE, 0));
    assert(synd_iter(0x10, 12) == synd_iter(0x8, 11));
    assert(synd_iter(0x8, 11) == synd_iter(0x4, 10));
    assert(synd_iter(0x4, 10) == synd_iter(0x2, 9));
    assert(synd_iter(0x2, 9) == synd_iter(0x1, 8));
    assert(synd_iter(0x1, 8) == synd_iter(0x571, 7));
    assert(synd_iter(0x571, 7) == synd_iter(0x7C9, 6));
    assert(synd_iter(0x7C9, 6) == synd_iter(0x695, 5));
    assert(synd_iter(0x695, 5) == synd_iter(0x63B, 4));
    assert(synd_iter(0x63B, 4) == synd_iter(0x66C, 3));
    assert(synd_iter(0x66C, 3) == synd_iter(0x336, 2));
    assert(synd_iter(0x336, 2) == synd_iter(0x19B, 1));
    assert(synd_iter(0x19B, 1) == synd_iter(0x5BC, 0));
    assert(synd_iter(0x20, 12) == synd_iter(0x10, 11));
    assert(synd_iter(0x10, 11) == synd_iter(0x8, 10));
    assert(synd_iter(0x8, 10) == synd_iter(0x4, 9));
    assert(synd_iter(0x4, 9) == synd_iter(0x2, 8));
    assert(synd_iter(0x2, 8) == synd_iter(0x1, 7));
    assert(synd_iter(0x1, 7) == synd_iter(0x571, 6));
    assert(synd_iter(0x571, 6) == synd_iter(0x7C9, 5));
    assert(synd_iter(0x7C9, 5) == synd_iter(0x695, 4));
    assert(synd_iter(0x695, 4) == synd_iter(0x63B, 3));
    assert(synd_iter(0x63B, 3) == synd_iter(0x66C, 2));
    assert(synd_iter(0x66C, 2) == synd_iter(0x336, 1));
    assert(synd_iter(0x336, 1) == synd_iter(0x19B, 0));
    assert(synd_iter(0x40, 12) == synd_iter(0x20, 11));
    assert(synd_iter(0x20, 11) == synd_iter(0x10, 10));
    assert(synd_iter(0x10, 10) == synd_iter(0x8, 9));
    assert(synd_iter(0x8, 9) == synd_iter(0x4, 8));
    assert(synd_iter(0x4, 8) == synd_iter(0x2, 7));
    assert(synd_iter(0x2, 7) == synd_iter(0x1, 6));
    assert(synd_iter(0x1, 6) == synd_iter(0x571, 5));
    assert(synd_iter(0x571, 5) == synd_iter(0x7C9, 4));
    assert(synd_iter(0x7C9, 4) == synd_iter(0x695, 3));
    assert(synd_iter(0x695, 3) == synd_iter(0x63B, 2));
    assert(synd_iter(0x63B, 2) == synd_iter(0x66C, 1));
    assert(synd_iter(0x66C, 1) == synd_iter(0x336, 0));
    assert(synd_iter(0x80, 12) == synd_iter(0x40, 11));
    assert(synd_iter(0x40, 11) == synd_iter(0x20, 10));
    assert(synd_iter(0x20, 10) == synd_iter(0x10, 9));
    assert(synd_iter(0x10, 9) == synd_iter(0x8, 8));
    assert(synd_iter(0x8, 8) == synd_iter(0x4, 7));
    assert(synd_iter(0x4, 7) == synd_iter(0x2, 6));
    assert(synd_iter(0x2, 6) == synd_iter(0x1, 5));
    assert(synd_iter(0x1, 5) == synd_iter(0x571, 4));
    assert(synd_iter(0x571, 4) == synd_iter(0x7C9, 3));
    assert(synd_iter(0x7C9, 3) == synd_iter(0x695, 2));
    assert(synd_iter(0x695, 2) == synd_iter(0x63B, 1));
    assert(synd_iter(0x63B, 1) == synd_iter(0x66C, 0));
    assert(synd_iter(0x100, 12) == synd_iter(0x80, 11));
    assert(synd_iter(0x80, 11) == synd_iter(0x40, 10));
    assert(synd_iter(0x40, 10) == synd_iter(0x20, 9));
    assert(synd_iter(0x20, 9) == synd_iter(0x10, 8));
    assert(synd_iter(0x10, 8) == synd_iter(0x8, 7));
    assert(synd_iter(0x8, 7) == synd_iter(0x4, 6));
    assert(synd_iter(0x4, 6) == synd_iter(0x2, 5));
    assert(synd_iter(0x2, 5) == synd_iter(0x1, 4));
    assert(synd_iter(0x1, 4) == synd_iter(0x571, 3));
    assert(synd_iter(0x571, 3) == synd_iter(0x7C9, 2));
    assert(synd_iter(0x7C9, 2) == synd_iter(0x695, 1));
    assert(synd_iter(0x695, 1) == synd_iter(0x63B, 0));
    assert(synd_iter(0x200, 12) == synd_iter(0x100, 11));
    assert(synd_iter(0x100, 11) == synd_iter(0x80, 10));
    assert(synd_iter(0x80, 10) == synd_iter(0x40, 9));
    assert(synd_iter(0x40, 9) == synd_iter(0x20, 8));
    assert(synd_iter(0x20, 8) == synd_iter(0x10, 7));
    assert(synd_iter(0x10, 7) == synd_iter(0x8, 6));
    assert(synd_iter(0x8, 6) == synd_iter(0x4, 5));
    assert(synd_iter(0x4, 5) == synd_iter(0x2, 4));
    assert(synd_iter(0x2, 4) == synd_iter(0x1, 3));
    assert(synd_iter(0x1, 3) == synd_iter(0x571, 2));
    assert(synd_iter(0x571, 2) == synd_iter(0x7C9, 1));
    assert(synd_iter(0x7C9, 1) == synd_iter(0x695, 0));
    assert(synd_iter(0x400, 12) == synd_iter(0x200, 11));
    assert(synd_iter(0x200, 11) == synd_iter(0x100, 10));
    assert(synd_iter(0x100, 10) == synd_iter(0x80, 9));
    assert(synd_iter(0x80, 9) == synd_iter(0x40, 8));
    assert(synd_iter(0x40, 8) == synd_iter(0x20, 7));
    assert(synd_iter(0x20, 7) == synd_iter(0x10, 6));
    assert(synd_iter(0x10, 6) == synd_iter(0x8, 5));
    assert(synd_iter(0x8, 5) == synd_iter(0x4, 4));
    assert(synd_iter(0x4, 4) == synd_iter(0x2, 3));
    assert(synd_iter(0x2, 3) == synd_iter(0x1, 2));
    assert(synd_iter(0x1, 2) == synd_iter(0x571, 1));
    assert(synd_iter(0x571, 1) == synd_iter(0x7C9, 0));
    assert(synd_iter(0x800, 12) == synd_iter(0x400, 11));
    assert(synd_iter(0x400, 11) == synd_iter(0x200, 10));
    assert(synd_iter(0x200, 10) == synd_iter(0x100, 9));
    assert(synd_iter(0x100, 9) == synd_iter(0x80, 8));
    assert(synd_iter(0x80, 8) == synd_iter(0x40, 7));
    assert(synd_iter(0x40, 7) == synd_iter(0x20, 6));
    assert(synd_iter(0x20, 6) == synd_iter(0x10, 5));
    assert(synd_iter(0x10, 5) == synd_iter(0x8, 4));
    assert(synd_iter(0x8, 4) == synd_iter(0x4, 3));
    assert(synd_iter(0x4, 3) == synd_iter(0x2, 2));
    assert(synd_iter(0x2, 2) == synd_iter(0x1, 1));
    assert(synd_iter(0x1, 1) == synd_iter(0x571, 0));
}

/// The remainder of any message equals its generator-row assembly.
proof fn lemma_generator(m: u32)
    requires
        m < 4096,
    ensures
        synd_iter(m, 12) == gen_combo(m),
{
    lemma_gen_rows();
    lemma_synd_iter_zero(12);
    assert(m == (m & 0xFFF) && (m & 0xFFF) == ((m & 0x800) ^ (m & 0x7FF)) && ((m & 0x800) == 0 || (m & 0x800) == 0x800) && (m & 0x7FF) == ((m & 0x400) ^ (m & 0x3FF)) && ((m & 0x400) == 0 || (m & 0x400) == 0x400) && (m & 0x3FF) == ((m & 0x200) ^ (m & 0x1FF)) && ((m & 0x200) == 0 || (m & 0x200) == 0x200) && (m & 0x1FF) == ((m & 0x100) ^ (m & 0xFF)) && ((m & 0x100) == 0 || (m & 0x100) == 0x100) && (m & 0xFF) == ((m & 0x80) ^ (m & 0x7F)) && ((m & 0x80) == 0 || (m & 0x80) == 0x80) && (m & 0x7F) == ((m & 0x40) ^ (m & 0x3F)) && ((m & 0x40) == 0 || (m & 0x40) == 0x40) && (m & 0x3F) == ((m & 0x20) ^ (m & 0x1F)) && ((m & 0x20) == 0 || (m & 0x20) == 0x20) && (m & 0x1F) == ((m & 0x10) ^ (m & 0xF)) && ((m & 0x10) == 0 || (m & 0x10) == 0x10) && (m & 0xF) == ((m & 0x8) ^ (m & 0x7)) && ((m & 0x8) == 0 || (m & 0x8) == 0x8) && (m & 0x7) == ((m & 0x4) ^ (m & 0x3)) && ((m & 0x4) == 0 || (m & 0x4) == 0x4) && (m & 0x3) == ((m & 0x2) ^ (m & 0x1)) && ((m & 0x2) == 0 || (m & 0x2) == 0x2) && (m & 0x1) == ((m & 0x1) ^ (m & 0x0)) && ((m & 0x1) == 0 || (m & 0x1) == 0x1)) by (bit_vector)
        requires
            m < 4096,
    ;
    lemma_synd_iter_linear(m & 0x800, m & 0x7FF, 12);
    lemma_synd_iter_linear(m & 0x400, m & 0x3FF, 12);
    lemma_synd_iter_linear(m & 0x200, m & 0x1FF, 12);
    lemma_synd_iter_linear(m & 0x100, m & 0xFF, 12);
    lemma_synd_iter_linear(m & 0x80, m & 0x7F, 12);
    lemma_synd_iter_linear(m & 0x40, m & 0x3F, 12);
    lemma_synd_iter_linear(m & 0x20, m & 0x1F, 12);
    lemma_synd_iter_linear(m & 0x10, m & 0xF, 12);
    lemma_synd_iter_linear(m & 0x8, m & 0x7, 12);
    lemma_synd_iter_linear(m & 0x4, m & 0x3, 12);
    lemma_synd_iter_linear(m & 0x2, m & 0x1, 12);
    if m & 0x1 == 0x1 {
        assert(synd_iter(m & 0x1, 12) == 0x2E3);
    } else {
        assert(synd_iter(m & 0x1, 12) == 0);
    }
    if m & 0x2 == 0x2 {
        assert(synd_iter(m & 0x2, 12) == 0x5C6);
    } else {
        assert(synd_iter(m & 0x2, 12) == 0);
    }
    if m & 0x4 == 0x4 {
        assert(synd_iter(m & 0x4, 12) == 0x16F);
    } else {
        assert(synd_iter(m & 0x4, 12) == 0);
    }
    if m & 0x8 == 0x8 {
        assert(synd_iter(m & 0x8, 12) == 0x2DE);
    } else {
        assert(synd_iter(m & 0x8, 12) == 0);
    }
    if m & 0x10 == 0x10 {
        assert(synd_iter(m & 0x10, 12) == 0x5BC);
    } else {
        assert(synd_iter(m & 0x10, 12) == 0);
    }
    if m & 0x20 == 0x20 {
        assert(synd_iter(m & 0x20, 12) == 0x19B);
    } else {
        assert(synd_iter(m & 0x20, 12) == 0);
    }
    if m & 0x40 == 0x40 {
        assert(synd_iter(m & 0x40, 12) == 0x336);
    } else {
        assert(synd_iter(m & 0x40, 12) == 0);
    }
    if m & 0x80 == 0x80 {
        assert(synd_iter(m & 0x80, 12) == 0x66C);
    } else {
        assert(synd_iter(m & 0x80, 12) == 0);
    }
    if m & 0x100 == 0x100 {
        assert(synd_iter(m & 0x100, 12) == 0x63B);
    } else {
        assert(synd_iter(m & 0x100, 12) == 0);
    }
    if m & 0x200 == 0x200 {
        assert(synd_iter(m & 0x200, 12) == 0x695);
    } else {
        assert(synd_iter(m & 0x200, 12) == 0);
    }
    if m & 0x400 == 0x400 {
        assert(synd_iter(m & 0x400, 12) == 0x7C9);
    } else {
        assert(synd_iter(m & 0x400, 12) == 0);
    }
    if m & 0x800 == 0x800 {
        assert(synd_iter(m & 0x800, 12) == 0x571);
    } else {
        assert(synd_iter(m & 0x800, 12) == 0);
    }
}

/// A 23-bit word splits into its high 11 and low 12 bits, and its remainder
/// is the XOR of the two parts' remainders: the code is systematic.
proof fn lemma_codeword_form(v: u32)
    requires
        v < 0x800000,
    ensures
        synd12(v) == ((v >> 12) ^ synd12(v & 0xfff)),
{
    let h = v >> 12;
    let m = v & 0xfff;
    assert(v == ((h << 12) ^ m) && h < 0x800 && m < 0x1000 && (h << 12u32) == (h << (12 as u32)))
        by (bit_vector)
        requires
            v < 0x800000,
            h == v >> 12,
            m == v & 0xfff,
    ;
    lemma_synd_iter_linear(h << 12, m, 12);
    lemma_synd_iter_shifted(h, 12);
}

/// Shifting one bit back out of the remainder undoes one division round.
proof fn lemma_shift_in_identity(u: u32)
    by (bit_vector)
    requires
        u < 0x800,
    ensures
        (((synd_step(u) << 1) & 0x7ff) ^ (if (synd_step(u) >> 10) & 1 == 1 {
            0x2E3u32
        } else {
            0u32
        })) == u,
{
}

/// No nonzero codeword weighs less than seven.
proof fn lemma_gen_min_weight(m: u32)
    by (bit_vector)
    requires
        m < 4096,
        m != 0,
    ensures
        popcount23((gen_combo(m) << 12) | m) >= 7,
{
}

/// XOR facts: equal words cancel, and a zero XOR means equality.
proof fn lemma_xor_cancel(x: u32, y: u32)
    by (bit_vector)
    ensures
        x ^ y == 0 ==> x == y,
        x ^ x == 0,
        (x ^ y) ^ y == x,
        x ^ 0 == x,
        0 ^ x == x,
        (x ^ y) ^ x == y,
        x ^ y == y ^ x,
        forall|z: u32| ((x ^ y) ^ z) == (x ^ #[trigger] (y ^ z)),
{
}

/// Distinct codewords differ in at least seven bit positions: the [23,12]
/// code has minimum distance seven, so every pattern of up to three bit
/// errors lies closer to the sent codeword than to any other codeword.
pub proof fn lemma_min_distance(v1: u32, v2: u32)
    requires
        v1 < 0x800000,
        v2 < 0x800000,
        synd12(v1) == 0,
        synd12(v2) == 0,
        v1 != v2,
    ensures
        popcount23(v1 ^ v2) >= 7,
{
    let w = v1 ^ v2;
    lemma_synd_iter_linear(v1, v2, 12);
    lemma_xor_cancel(synd_iter(v1, 12), synd_iter(v2, 12));
    let m = w & 0xfff;
    assert(w < 0x800000 && w != 0 && m < 4096) by (bit_vector)
        requires
            v1 < 0x800000,
            v2 < 0x800000,
            v1 != v2,
            w == v1 ^ v2,
            m == w & 0xfff,
    ;
    lemma_codeword_form(w);
    lemma_generator(m);
    assert(((w >> 12) ^ gen_combo(m)) == 0);
    assert(m != 0 && w == ((gen_combo(m) << 12) | m)) by (bit_vector)
        requires
            w < 0x800000,
            w != 0,
            m == w & 0xfff,
            ((w >> 12) ^ gen_combo(m)) == 0,
    ;
    lemma_gen_min_weight(m);
}

/// One left rotation of a codeword is again a codeword: the code is cyclic.
proof fn lemma_rotl1_codeword(v: u32)
    requires
        v < 0x800000,
        synd12(v) == 0,
    ensures
        rotl1(v) < 0x800000,
        synd12(rotl1(v)) == 0,
{
    let h = v >> 12;
    let m = v & 0xfff;
    let u = synd_iter(m, 11);
    lemma_codeword_form(v);
    lemma_synd_iter_commute(m, 11);
    lemma_word_bits(v, 0);
    lemma_synd_iter_bound(m, 11);
    let v2 = rotl1(v);
    let b22 = (v >> 22) & 1;
    let m11 = (m >> 11) & 1;
    let a = (m << 1) & 0xfff;
    let m1 = v2 & 0xfff;
    let h1 = v2 >> 12;
    assert(v2 < 0x800000 && m1 == (a ^ b22) && a == ((m << 1) ^ (m11 << 12)) && h1 == (((h << 1)
        & 0x7ff) ^ m11) && b22 == ((h >> 10) & 1) && synd_step(m << 1) == m && m11 < 0x800 && (m11
        << 12u32) == (m11 << (12 as u32)) && b22 <= 1) by (bit_vector)
        requires
            v < 0x800000,
            h == v >> 12,
            m == v & 0xfff,
            v2 == rotl1(v),
            b22 == (v >> 22) & 1,
            m11 == (m >> 11) & 1,
            a == (m << 1) & 0xfff,
            m1 == v2 & 0xfff,
            h1 == v2 >> 12,
    ;
    lemma_synd_iter_linear(a, b22, 12);
    lemma_synd_iter_linear(m << 1, m11 << 12, 12);
    lemma_synd_iter_shifted(m11, 12);
    lemma_gen_rows();
    lemma_synd_iter_zero(12);
    assert(synd_iter(m << 1, 12) == u) by {
        assert(synd_iter(m << 1, 12) == synd_iter(synd_step(m << 1), 11));
    }
    assert(synd_iter(b22, 12) == (if b22 == 1 {
        0x2E3u32
    } else {
        0u32
    }));
    lemma_shift_in_identity(u);
    lemma_xor_cancel(h, synd12(m));
    assert(h == synd_step(u)) by {
        assert(h == synd12(m));
        assert(synd_iter(m, 12) == synd_iter(synd_step(m), 11));
    }
    lemma_codeword_form(v2);
    let rm1 = synd12(m1);
    assert(rm1 == (u ^ m11 ^ (if b22 == 1 {
        0x2E3u32
    } else {
        0u32
    })));
    let su = synd_step(u);
    assert(h1 == rm1) by (bit_vector)
        requires
            h1 == (((h << 1) & 0x7ff) ^ m11),
            h == su,
            b22 == ((h >> 10) & 1),
            rm1 == (u ^ m11 ^ (if b22 == 1 {
                0x2E3u32
            } else {
                0u32
            })),
            (((su << 1) & 0x7ff) ^ (if (su >> 10) & 1 == 1 {
                0x2E3u32
            } else {
                0u32
            })) == u,
    ;
    lemma_xor_cancel(rm1, rm1);
    assert(synd12(v2) == (h1 ^ rm1));
}


/// One-step rotation facts: left and right rotations invert each other,
/// distribute over XOR, ignore bits above the word, and keep the bit count.
proof fn lemma_rot1_facts(x: u32, y: u32)
    by (bit_vector)
    ensures
        rotr1(rotl1(x)) == x & 0x7fffff,
        rotl1(rotr1(x & 0x7fffff)) == x & 0x7fffff,
        rotl1(x) < 0x800000,
        rotr1(x) < 0x800000,
        rotl1(x & 0x7fffff) == rotl1(x),
        rotl1(x ^ y) == rotl1(x) ^ rotl1(y),
        (x & 0x7fffff) & 0x7fffff == x & 0x7fffff,
        x & 0x7fffff < 0x800000,
        popcount23(rotl1(x)) == popcount23(x & 0x7fffff),
        ((x >> 1) | 0x400000) & 0x7fffff < 0x800000,
        (x >> 1) & 0x7fffff < 0x800000,
        rotl1(x) & 0x7fffff == rotl1(x),
        x < 0x800000 ==> x & 0x7fffff == x,
        (x ^ y) & 0x7fffff == (x & 0x7fffff) ^ (y & 0x7fffff),
{
}

/// Iterated rotations stay within 23 bits.
proof fn lemma_rot_bounds(v: u32, n: nat)
    ensures
        rotln(v, n) < 0x800000,
        rotrn(v, n) < 0x800000,
    decreases n,
{
    lemma_rot1_facts(v, 0);
    if n > 0 {
        lemma_rot_bounds(v, (n - 1) as nat);
        lemma_rot1_facts(rotln(v, (n - 1) as nat), 0);
        lemma_rot1_facts(rotrn(v, (n - 1) as nat), 0);
    }
}

/// Rotation ignores bits above the word.
proof fn lemma_rotln_masked(v: u32, n: nat)
    ensures
        rotln(v, n) == rotln(v & 0x7fffff, n),
        rotrn(v, n) == rotrn(v & 0x7fffff, n),
    decreases n,
{
    lemma_rot1_facts(v, 0);
    if n > 0 {
        lemma_rotln_masked(v, (n - 1) as nat);
    }
}

/// Right rotations undo left rotations, step by step and iterated.
proof fn lemma_rotrn_rotl1_commute(z: u32, n: nat)
    ensures
        rotrn(rotl1(z), n) == rotl1(rotrn(z, n)),
    decreases n,
{
    if n == 0 {
        lemma_rot1_facts(z, 0);
        lemma_rot1_facts(rotl1(z), 0);
    } else {
        lemma_rotrn_rotl1_commute(z, (n - 1) as nat);
        let q = rotrn(z, (n - 1) as nat);
        lemma_rot_bounds(z, (n - 1) as nat);
        lemma_rot1_facts(q, 0);
    }
}

/// Rotating right `n` times undoes rotating left `n` times.
proof fn lemma_rotrn_rotln(w: u32, n: nat)
    ensures
        rotrn(rotln(w, n), n) == w & 0x7fffff,
    decreases n,
{
    if n == 0 {
        lemma_rot1_facts(w, 0);
    } else {
        lemma_rotrn_rotl1_commute(rotln(w, (n - 1) as nat), (n - 1) as nat);
        lemma_rotrn_rotln(w, (n - 1) as nat);
        lemma_rot1_facts(w, 0);
    }
}

/// Rotation distributes over XOR.
proof fn lemma_rotln_xor(x: u32, y: u32, n: nat)
    ensures
        rotln(x ^ y, n) == rotln(x, n) ^ rotln(y, n),
    decreases n,
{
    if n == 0 {
        lemma_rot1_facts(x, y);
    } else {
        lemma_rotln_xor(x, y, (n - 1) as nat);
        lemma_rot1_facts(rotln(x, (n - 1) as nat), rotln(y, (n - 1) as nat));
    }
}

/// Rotation keeps the bit count.
proof fn lemma_rotln_pc(x: u32, n: nat)
    ensures
        popcount23(rotln(x, n)) == popcount23(x & 0x7fffff),
    decreases n,
{
    lemma_rot1_facts(x, 0);
    if n > 0 {
        lemma_rotln_pc(x, (n - 1) as nat);
        lemma_rot1_facts(rotln(x, (n - 1) as nat), 0);
        lemma_rot_bounds(x, (n - 1) as nat);
        let q = rotln(x, (n - 1) as nat);
        lemma_rot1_facts(q, 0);
    }
}

/// Any number of rotations keeps a codeword a codeword.
proof fn lemma_rotln_codeword(v: u32, n: nat)
    requires
        v < 0x800000,
        synd12(v) == 0,
    ensures
        rotln(v, n) < 0x800000,
        synd12(rotln(v, n)) == 0,
    decreases n,
{
    if n == 0 {
        lemma_rot1_facts(v, 0);
    } else {
        lemma_rotln_codeword(v, (n - 1) as nat);
        lemma_rotl1_codeword(rotln(v, (n - 1) as nat));
    }
}

/// Correcting a word by its own syndrome yields a codeword.
proof fn lemma_annihilate(v: u32)
    requires
        v < 0x800000,
    ensures
        synd12(v ^ (synd12(v) << 12)) == 0,
{
    lemma_synd12_bound(v);
    let sv = synd12(v);
    lemma_synd_iter_linear(v, sv << 12, 12);
    lemma_synd_iter_shifted(sv, 12);
    lemma_xor_cancel(sv, sv);
    lemma_word_bits(0, sv);
}

/// The position of the single set bit of a one-bit word.
pub open spec fn bit_index23(e: u32) -> u32 {
    if e == 0x1 {
        0
    } else if e == 0x2 {
        1
    } else if e == 0x4 {
        2
    } else if e == 0x8 {
        3
    } else if e == 0x10 {
        4
    } else if e == 0x20 {
        5
    } else if e == 0x40 {
        6
    } else if e == 0x80 {
        7
    } else if e == 0x100 {
        8
    } else if e == 0x200 {
        9
    } else if e == 0x400 {
        10
    } else if e == 0x800 {
        11
    } else if e == 0x1000 {
        12
    } else if e == 0x2000 {
        13
    } else if e == 0x4000 {
        14
    } else if e == 0x8000 {
        15
    } else if e == 0x10000 {
        16
    } else if e == 0x20000 {
        17
    } else if e == 0x40000 {
        18
    } else if e == 0x80000 {
        19
    } else if e == 0x100000 {
        20
    } else if e == 0x200000 {
        21
    } else if e == 0x400000 {
        22
    } else {
        0
    }
}

/// The rotation count that moves a single-bit error into the parity-check
/// positions, where the syndrome exposes it directly.
pub open spec fn trap_rot(e: u32) -> u32 {
    if bit_index23(e) <= 12 {
        (12 - bit_index23(e)) as u32
    } else {
        (35 - bit_index23(e)) as u32
    }
}

/// Facts about single-bit errors: the index function names the set bit, the
/// trap rotation lands it on bit 12, and bit counts behave.
#[verifier::rlimit(80)]
proof fn lemma_single_bit_facts(e: u32)
    by (bit_vector)
    requires
        e < 0x800000,
        popcount23(e) <= 1,
    ensures
        e != 0 ==> e == (1u32 << bit_index23(e)) && bit_index23(e) < 23 && trap_rot(e) < 23,
        popcount23(0) == 0,
{
}

/// Bit counts are subadditive over XOR, and a small value shifted twelve up
/// vanishes only when zero.
#[verifier::rlimit(80)]
proof fn lemma_pc_facts(x: u32, y: u32)
    by (bit_vector)
    ensures
        popcount23(x ^ y) <= popcount23(x) + popcount23(y),
        x < 0x800 && (x << 12) == 0 ==> x == 0,
        popcount23(0) == 0,
        popcount23(x) == 0 && x < 0x800000 ==> x == 0,
        popcount23(x) <= 1 && x >= 0x1000 && x < 0x800000 ==> x & 0xfff == 0,
        x & 0xfff == 0 && x < 0x800000 && x != 0 ==> (x >> 12) != 0,
        popcount23(0x1000) == 1,
        x < 0x800000 ==> x & 0x7fffff == x,
{
}

/// The trap rotation of a single-bit error lands the bit at position 12.
proof fn lemma_trap_landing(e: u32)
    requires
        e < 0x800000,
        popcount23(e) == 1,
    ensures
        rotln(e, trap_rot(e) as nat) == 0x1000,
{
    lemma_single_bit_facts(e);
    lemma_rotln_closed(e, trap_rot(e) as nat);
    let p = bit_index23(e);
    let i = trap_rot(e);
    assert(p < 23 && i < 23 && e == (1u32 << p) ==> ((((1u32 << p) & 0x7fffff) << i) | (((1u32
        << p) & 0x7fffff) >> ((23 - i) as u32))) & 0x7fffff == 0x1000) by (bit_vector)
        requires
            i == (if p <= 12 {
                (12 - p) as u32
            } else {
                (35 - p) as u32
            }),
    ;
}

/// Rotation in closed form: shift up and wrap the top bits around.
proof fn lemma_rotln_closed(v: u32, n: nat)
    requires
        n <= 23,
    ensures
        rotln(v, n) == ((((v & 0x7fffff) << (n as u32)) | ((v & 0x7fffff) >> ((23 - n) as u32)))
            & 0x7fffff),
    decreases n,
{
    let w = v & 0x7fffff;
    let k: u32 = if n == 0 {
        0
    } else {
        (n - 1) as u32
    };
    lemma_word_bits(v, 0);
    assert((((w << 0u32) | (w >> 23u32)) & 0x7fffff == w) && (k <= 22 ==> rotl1(((w << k) | (w >> ((
    23 - k) as u32))) & 0x7fffff) == (((w << (k + 1) as u32) | (w >> ((23 - (k + 1)) as u32)))
        & 0x7fffff))) by (bit_vector)
        requires
            w == v & 0x7fffff,
            w < 0x800000,
    ;
    if n > 0 {
        lemma_rotln_closed(v, (n - 1) as nat);
        assert((k + 1) as u32 == n as u32);
        assert(((23 - (k + 1)) as u32) == ((23 - n as int) as u32));
    }
}


/// The received word differs from the codeword of `c` by the low-23-bit
/// error pattern `e`.
pub open spec fn near_codeword(raw: u32, c: u16, e: u32) -> bool {
    c < 4096 && e < 0x800000 && raw == (codeword_spec(c) ^ e)
}

/// Ground facts at a corrupted reception: the low 23 bits of the received
/// word split into the sent codeword and the error pattern.
proof fn lemma_near_setup(raw: u32, c: u16, e: u32)
    requires
        near_codeword(raw, c, e),
    ensures
        ({
            let cwlow = codeword_spec(c) & 0x7fffff;
            &&& cwlow < 0x800000
            &&& synd12(cwlow) == 0
            &&& (raw & 0x7fffff) == (cwlow ^ e)
            &&& cwlow & 0xfff == c
        }),
{
    lemma_codeword_properties(c);
    let cw = codeword_spec(c);
    let cwlow = cw & 0x7fffff;
    lemma_word_bits(cw, 0);
    lemma_synd12_bound(cwlow);
    lemma_pc_facts(synd12(cwlow), 0);
    lemma_rot1_facts(cw, e);
    lemma_rot1_facts(e, 0);
}

/// A single-bit error never hides: the syndrome of the received word is
/// nonzero.
proof fn lemma_error_visible(raw: u32, c: u16, e: u32)
    requires
        near_codeword(raw, c, e),
        popcount23(e) == 1,
    ensures
        syndrome_spec(raw) != 0,
{
    lemma_near_setup(raw, c, e);
    let cwlow = codeword_spec(c) & 0x7fffff;
    let base = raw & 0x7fffff;
    lemma_synd_iter_linear(cwlow, e, 12);
    lemma_xor_cancel(synd12(e), 0);
    lemma_pc_facts(e, 0);
    assert(e != 0);
    lemma_word_bits(raw, 0);
    lemma_synd12_bound(e);
    lemma_synd12_bound(base);
    if e < 0x1000 {
        lemma_generator(e);
        lemma_gen_min_weight(e);
        let g = gen_combo(e);
        lemma_word_bits(e, g);
        lemma_pc_facts(g << 12, e);
        lemma_pc_facts(g << 12, 0);
        assert(popcount23((g << 12) | e) >= 7);
        assert((g << 12) | e == (g << 12) ^ e);
        assert(popcount23(g << 12) >= 6);
        assert(g << 12 != 0);
        assert(synd12(base) << 12 != 0);
    } else {
        lemma_pc_facts(e, 0);
        lemma_codeword_form(e);
        lemma_synd_iter_zero(12);
        lemma_xor_cancel(e >> 12, 0);
        lemma_word_bits(e, synd12(base));
        lemma_pc_facts(synd12(base), 0);
        assert(synd12(e) == (e >> 12));
        assert(synd12(base) != 0);
        assert(synd12(base) << 12 != 0);
    }
}

/// At a trapped rotation of a once-corrupted word, the syndrome is exactly
/// the rotated error pattern, and correcting with it and rotating back
/// restores the sent codeword.
proof fn lemma_trap_sound(raw: u32, c: u16, e: u32, i: nat)
    requires
        near_codeword(raw, c, e),
        popcount23(e) == 1,
        i < 23,
        popcount23(synd12(rotln(raw, i)) << 12) <= 3,
    ensures
        ({
            let v = rotln(raw, i);
            let sval = synd12(v) << 12;
            &&& popcount23(sval) == 1
            &&& rotrn(v ^ sval, i) == codeword_spec(c) & 0x7fffff
        }),
{
    lemma_near_setup(raw, c, e);
    let cwlow = codeword_spec(c) & 0x7fffff;
    lemma_rotln_masked(raw, i);
    lemma_rotln_xor(cwlow, e, i);
    let av = rotln(cwlow, i);
    let ev = rotln(e, i);
    lemma_rotln_codeword(cwlow, i);
    lemma_rot_bounds(e, i);
    lemma_rot_bounds(raw, i);
    lemma_rotln_pc(e, i);
    lemma_rot1_facts(e, 0);
    let v = rotln(raw, i);
    assert(v == av ^ ev);
    lemma_synd_iter_linear(av, ev, 12);
    lemma_xor_cancel(synd12(ev), 0);
    let sval = synd12(v) << 12;
    lemma_annihilate(v);
    lemma_synd12_bound(v);
    lemma_word_bits(0, synd12(v));
    lemma_xor_cancel(av, ev);
    assert((v ^ sval) ^ av == ev ^ sval) by {
        lemma_xor_cancel(av, ev);
        assert(((av ^ ev) ^ sval) ^ av == (av ^ (ev ^ sval)) ^ av);
        lemma_xor_cancel(av, ev ^ sval);
    }
    lemma_pc_facts(ev, sval);
    lemma_synd_iter_linear(v ^ sval, av, 12);
    lemma_xor_cancel(0, 0);
    if v ^ sval != av {
        lemma_word_bits(v, sval);
        lemma_min_distance(v ^ sval, av);
        assert(popcount23((v ^ sval) ^ av) <= popcount23(ev) + popcount23(sval));
        assert(false);
    }
    assert(sval == ev) by {
        lemma_xor_cancel(v, sval);
        lemma_xor_cancel(av, av);
        lemma_xor_cancel(ev, 0);
        assert(sval == (v ^ sval) ^ v);
        assert(av ^ v == av ^ (av ^ ev));
        assert(((av ^ av) ^ ev) == av ^ (av ^ ev));
        assert(av ^ v == ev);
    }
    lemma_rotrn_rotln(cwlow, i);
    lemma_rot1_facts(cwlow, 0);
}

/// A single-bit error never escapes the decoder: the syndrome of the
/// received word is nonzero, and at the error's trap rotation the syndrome
/// weight is one and correcting with it restores the sent codeword exactly.
pub proof fn lemma_single_error_trapped(raw: u32, c: u16, e: u32)
    requires
        near_codeword(raw, c, e),
        popcount23(e) == 1,
    ensures
        syndrome_spec(raw) != 0,
        trap_rot(e) < 23,
        ({
            let v = rotln(raw, trap_rot(e) as nat);
            let sval = synd12(v) << 12;
            &&& popcount23(sval) == 1
            &&& rotrn(v ^ sval, trap_rot(e) as nat) == codeword_spec(c) & 0x7fffff
            &&& (codeword_spec(c) & 0x7fffff) & 0xfff == c
        }),
{
    lemma_error_visible(raw, c, e);
    lemma_pc_facts(e, 0);
    lemma_single_bit_facts(e);
    let i = trap_rot(e) as nat;
    lemma_near_setup(raw, c, e);
    let cwlow = codeword_spec(c) & 0x7fffff;
    lemma_rotln_masked(raw, i);
    lemma_rotln_xor(cwlow, e, i);
    lemma_rotln_codeword(cwlow, i);
    lemma_trap_landing(e);
    let v = rotln(raw, i);
    assert(v == rotln(cwlow, i) ^ 0x1000);
    lemma_synd_iter_linear(rotln(cwlow, i), 0x1000, 12);
    lemma_xor_cancel(synd12(0x1000), 0);
    lemma_codeword_form(0x1000);
    lemma_synd_iter_zero(12);
    lemma_word_bits(0x1000, 0);
    lemma_xor_cancel(1, 0);
    assert(synd12(v) == 1);
    lemma_word_bits(0, 1);
    lemma_pc_facts(0, 0);
    assert(popcount23(synd12(v) << 12) == 1);
    lemma_trap_sound(raw, c, e, i);
}

/// Every codeword carries its message in the low 12 bits, has syndrome zero,
/// even overall parity, and fits in 24 bits.
pub proof fn lemma_codeword_properties(c: u16)
    requires
        c < 4096,
    ensures
        codeword_spec(c) & 0xfff == c,
        syndrome_spec(codeword_spec(c)) == 0,
        parity24_spec(codeword_spec(c)) == 0,
        codeword_spec(c) < 0x1000000,
{
    let cc = c as u32;
    lemma_word_bits(cc, 0);
    lemma_synd_iter_bound(cc, 12);
    let r = synd12(cc);
    let code = (r << 12) | cc;
    let p = parity24_spec(code);
    let word = (p << 23) | code;
    assert(cc < (1u32 << 23u32) && ((r << 12) | cc == (r << 12) ^ cc) && code < 0x800000 && (code
        & 0xfff == cc) && (r << 12u32 == r << (12 as u32)) && (r ^ r == 0) && p <= 1 && (word
        & 0xfff == code & 0xfff) && (word & 0x7fffff == code) && word < 0x1000000 && parity24_spec(
        (parity24_spec(code) << 23) | code,
    ) == 0 && ((0u32 << 12u32) == 0)) by (bit_vector)
        requires
            cc < 4096,
            code == (r << 12) | cc,
            p == parity24_spec(code),
            word == (p << 23) | code,
            r < 0x800,
    ;
    lemma_synd_iter_linear(r << 12, cc, 12);
    lemma_synd_iter_shifted(r, 12);
    assert(synd12(code) == 0) by {
        assert(synd12(code) == synd_iter(r << 12, 12) ^ synd_iter(cc, 12));
        assert(synd_iter(r << 12, 12) == r);
    }
    assert(syndrome_spec(word) == (synd12(code) << 12));
}

/// One round of polynomial division over the received word.
pub fn synd_once(cw: u32) -> (r: u32)
    ensures
        r == synd_step(cw),
{
    if cw & 1 == 1 {
        (cw ^ 0xAE3) >> 1
    } else {
        cw >> 1
    }
}

/// Syndrome of a [23,12] codeword: zero exactly when the low 23 bits carry a
/// valid codeword.
pub fn syndrome(cw: u32) -> (r: u32)
    ensures
        r == syndrome_spec(cw),
{
    let c0 = cw & 0x7fffff;
    let mut c = c0;
    let mut i: usize = 0;
    while i < 12
        invariant
            i <= 12,
            synd_iter(c, (12 - i) as nat) == synd_iter(c0, 12),
        decreases 12 - i,
    {
        c = synd_once(c);
        i = i + 1;
    }
    c << 12
}

/// XOR-fold parity over all 24 bits of a word.
pub fn parity_24b(cw: u32) -> (r: u32)
    ensures
        r == parity24_spec(cw),
        r <= 1,
{
    let mut parity = (cw >> 16) as u8;
    parity ^= (cw >> 8) as u8;
    parity ^= cw as u8;
    parity = (parity >> 4) ^ parity;
    parity = (parity >> 2) ^ parity;
    parity = (parity >> 1) ^ parity;
    proof {
        assert(((parity as u32) & 0x1) <= 1) by (bit_vector);
    }
    (parity as u32) & 0x1
}

/// Number of ones among the low 23 bits of a word.
pub fn count_ones_23(b: u32) -> (r: u32)
    requires
        b < 0x800000,
    ensures
        r == popcount23(b),
        r <= 23,
{
    proof {
        assert(popcount23(b) <= 23 && ((b & 1) + ((b >> 1) & 1) + ((b >> 2) & 1) + ((b >> 3) & 1) + (
        (b >> 4) & 1) + ((b >> 5) & 1) + ((b >> 6) & 1) + ((b >> 7) & 1) + ((b >> 8) & 1) + ((b
            >> 9) & 1) + ((b >> 10) & 1) + ((b >> 11) & 1) + ((b >> 12) & 1) + ((b >> 13) & 1) + ((b
            >> 14) & 1) + ((b >> 15) & 1) + ((b >> 16) & 1) + ((b >> 17) & 1) + ((b >> 18) & 1) + ((
        b >> 19) & 1) + ((b >> 20) & 1) + ((b >> 21) & 1) + ((b >> 22) & 1)) <= 23) by (bit_vector);
    }
    (b & 1) + ((b >> 1) & 1) + ((b >> 2) & 1) + ((b >> 3) & 1) + ((b >> 4) & 1) + ((b >> 5) & 1) + (
    (b >> 6) & 1) + ((b >> 7) & 1) + ((b >> 8) & 1) + ((b >> 9) & 1) + ((b >> 10) & 1) + ((b >> 11)
        & 1) + ((b >> 12) & 1) + ((b >> 13) & 1) + ((b >> 14) & 1) + ((b >> 15) & 1) + ((b >> 16)
        & 1) + ((b >> 17) & 1) + ((b >> 18) & 1) + ((b >> 19) & 1) + ((b >> 20) & 1) + ((b >> 21)
        & 1) + ((b >> 22) & 1)
}

/// Rotate a 23-bit codeword left by `n` bits.
pub fn rotate_left(cw: u32, n: usize) -> (r: u32)
    ensures
        r == rotln(cw, n as nat),
        r < 0x800000,
{
    let mut c = cw & 0x7fffff;
    let mut i: usize = 0;
    proof {
        lemma_word_bits(cw, 0);
    }
    while i < n
        invariant
            i <= n,
            c == rotln(cw, i as nat),
            c < 0x800000,
        decreases n - i,
    {
        proof {
            lemma_word_bits(c, 0);
        }
        if c & 0x400000 != 0 {
            c = ((c << 1) | 1) & 0x7fffff;
        } else {
            c = (c << 1) & 0x7fffff;
        }
        i = i + 1;
    }
    c
}

/// Rotate a 23-bit codeword right by `n` bits.
pub fn rotate_right(cw: u32, n: usize) -> (r: u32)
    ensures
        r == rotrn(cw, n as nat),
        r < 0x800000,
{
    let mut c = cw & 0x7fffff;
    let mut i: usize = 0;
    proof {
        lemma_word_bits(cw, 0);
    }
    while i < n
        invariant
            i <= n,
            c == rotrn(cw, i as nat),
            c < 0x800000,
        decreases n - i,
    {
        proof {
            lemma_word_bits(c, 0);
        }
        if c & 1 != 0 {
            c = ((c >> 1) | 0x400000) & 0x7fffff;
        } else {
            c = (c >> 1) & 0x7fffff;
        }
        i = i + 1;
    }
    c
}

/// Encode a 12-bit message into its 24-bit Golay codeword.
pub fn apply_golay(c: u16) -> (r: u32)
    requires
        c < 4096,
    ensures
        r == codeword_spec(c),
        r & 0xfff == c,
        syndrome_spec(r) == 0,
        parity24_spec(r) == 0,
        r < 0x1000000,
{
    proof {
        lemma_codeword_properties(c);
    }
    let s = syndrome(c as u32);
    let code = s | (c as u32);
    proof {
        lemma_word_bits(c as u32, 0);
    }
    let p = parity_24b(code);
    (p << 23) | code
}


/// Decode a received 24-bit word with Kasami's error-trapping algorithm:
/// returns the 12-bit message, the number of corrected bit errors, and
/// whether the overall parity of the corrected word checked out. A clean
/// codeword is returned unchanged with a zero error count.
#[verifier::loop_isolation(false)]
#[verifier::rlimit(100)]
pub fn undo_golay(raw: u32) -> (r: (u16, usize, bool))
    requires
        raw < 0x1000000,
    ensures
        r.0 < 4096,
        r.1 <= 3,
        syndrome_spec(raw) == 0 ==> r == (((raw & 0xfff) as u16), 0usize, parity24_spec(raw) == 0),
        forall|c: u16, e: u32|
            near_codeword(raw, c, e) && popcount23(e) <= 1 ==> r.0 == c && r.1 == popcount23(e),
{
    let cwsaver = raw;
    let mut cw = raw;
    let mut mask: u32 = 0x1;
    let mut w: u32 = 3;
    let mut j: i32 = -1;

    while j < 23
        invariant
            -1 <= j <= 23,
            cw < 0x1000000,
            w == 3 || w == 2,
            j == -1 ==> cw == raw,
            j >= 0 ==> syndrome_spec(raw) != 0,
            j <= 0 ==> mask == 1,
            j >= 1 ==> mask == (1u32 << ((j - 1) as u32)),
            raw < 0x1000000,
            forall|c: u16, e: u32|
                near_codeword(raw, c, e) && popcount23(e) <= 1 ==> j == -1,
        decreases 23 - j,
    {
        if j != -1 {
            if j > 0 {
                proof {
                    let sh: u32 = (j - 1) as u32;
                    lemma_mask_shift(sh);
                    lemma_word_bits(cw, mask);
                    assert((sh + 1) as u32 == j as u32);
                }
                cw = cw ^ mask;
                mask = mask << 1;
            }
            proof {
                lemma_mask_shift(j as u32);
                lemma_word_bits(cw, mask);
            }
            cw = cw ^ mask;
            w = 2;
        }
        proof {
            lemma_mask_shift(0);
        }
        let mut s = syndrome(cw);
        if s != 0 {
            proof {
                lemma_word_bits(cw, 0);
            }
            let mut i: usize = 0;
            while i < 23
                invariant
                    i <= 23,
                    s == syndrome_spec(cw),
                    cw < 0x1000000,
                    syndrome_spec(raw) != 0,
                    w == 3 || w == 2,
                    j >= 0 ==> w == 2,
                    raw < 0x1000000,
                    j == -1 ==> cw & 0x7fffff == rotln(raw, i as nat),
                    forall|c: u16, e: u32|
                        near_codeword(raw, c, e) && popcount23(e) == 1 ==> i as int <= trap_rot(
                            e,
                        ) as int,
                decreases 23 - i,
            {
                proof {
                    lemma_word_bits(cw, synd12(cw & 0x7fffff));
                    lemma_synd12_bound(cw & 0x7fffff);
                }
                let weight = count_ones_23(s);
                if weight <= w {
                    proof {
                        lemma_word_bits(cw, s);
                    }
                    let ghost cw0 = cw;
                    cw = cw ^ s;
                    cw = rotate_right(cw, i);
                    proof {
                        lemma_word_bits(cw, 0);
                        assert forall|cc: u16, e: u32|
                            near_codeword(raw, cc, e) && popcount23(e) <= 1 implies j == -1 && cw
                            & 0xfff == cc && weight == popcount23(e) by {
                            if popcount23(e) == 1 {
                                lemma_trap_sound(raw, cc, e, i as nat);
                                lemma_rotln_masked(cw0 ^ s, i as nat);
                                lemma_rot_bounds(raw, i as nat);
                                lemma_synd12_bound(rotln(raw, i as nat));
                                lemma_rot1_facts(cw0, s);
                                lemma_rot1_facts(s, 0);
                                lemma_word_bits(0, synd12(rotln(raw, i as nat)));
                                assert(s == synd12(rotln(raw, i as nat)) << 12);
                                assert((cw0 ^ s) & 0x7fffff == (cw0 & 0x7fffff) ^ s);
                                assert(rotrn(cw0 ^ s, i as nat) == rotrn(
                                    rotln(raw, i as nat) ^ (synd12(rotln(raw, i as nat)) << 12),
                                    i as nat,
                                ));
                                lemma_near_setup(raw, cc, e);
                            } else {
                                lemma_pc_facts(e, 0);
                                lemma_xor_cancel(codeword_spec(cc), 0);
                                lemma_codeword_properties(cc);
                                assert(syndrome_spec(raw) == 0);
                                assert(false);
                            }
                        }
                    }
                    let c = (cw & 0xfff) as u16;
                    let p = parity_24b(cw);
                    if j >= 0 {
                        return (c, (weight + 1) as usize, p == 0);
                    } else {
                        return (c, weight as usize, p == 0);
                    }
                } else {
                    proof {
                        assert forall|cc: u16, e: u32|
                            near_codeword(raw, cc, e) && popcount23(e) == 1 implies (i as int)
                            < trap_rot(e) as int by {
                            if i as int == trap_rot(e) as int {
                                lemma_single_error_trapped(raw, cc, e);
                                assert(s == synd12(rotln(raw, i as nat)) << 12);
                                assert(popcount23(s) == 1);
                                assert(false);
                            }
                        }
                    }
                    let ghost cwb = cw;
                    cw = rotate_left(cw, 1);
                    s = syndrome(cw);
                    proof {
                        if j == -1 {
                            lemma_rot1_facts(cwb, 0);
                            lemma_rot1_facts(cw, 0);
                            assert(rotln(cwb, 0) == cwb & 0x7fffff);
                            assert(rotln(cwb, 1) == rotl1(rotln(cwb, 0)));
                            assert(rotln(raw, (i + 1) as nat) == rotl1(rotln(raw, i as nat)));
                        }
                    }
                }
                i = i + 1;
            }
            proof {
                assert forall|cc: u16, e: u32|
                    near_codeword(raw, cc, e) && popcount23(e) <= 1 implies false by {
                    if popcount23(e) == 1 {
                        lemma_single_bit_facts(e);
                        lemma_pc_facts(e, 0);
                    } else {
                        lemma_pc_facts(e, 0);
                        lemma_xor_cancel(codeword_spec(cc), 0);
                        lemma_codeword_properties(cc);
                    }
                }
            }
            j = j + 1;
        } else {
            proof {
                lemma_word_bits(cw, 0);
                assert forall|cc: u16, e: u32|
                    near_codeword(raw, cc, e) && popcount23(e) <= 1 implies cw & 0xfff == cc && 0
                    == popcount23(e) by {
                    if popcount23(e) == 1 {
                        lemma_error_visible(raw, cc, e);
                        assert(false);
                    } else {
                        lemma_pc_facts(e, 0);
                        lemma_xor_cancel(codeword_spec(cc), 0);
                        lemma_codeword_properties(cc);
                        lemma_word_bits(codeword_spec(cc), 0);
                    }
                }
            }
            let p = parity_24b(cw);
            return ((cw & 0xfff) as u16, 0, p == 0);
        }
    }
    proof {
        lemma_word_bits(cwsaver, 0);
        assert forall|cc: u16, e: u32|
            near_codeword(raw, cc, e) && popcount23(e) <= 1 implies false by {
        }
    }
    let p = parity_24b(cwsaver);
    ((cwsaver & 0xfff) as u16, 0, p == 0)
}



/// A 24-bit word with zero syndrome and even overall parity is exactly the
/// codeword of its low 12 bits.
pub proof fn lemma_clean_word_is_codeword(v: u32)
    requires
        v < 0x1000000,
        syndrome_spec(v) == 0,
        parity24_spec(v) == 0,
    ensures
        v == codeword_spec((v & 0xfff) as u16),
{
    let vlow = v & 0x7fffff;
    let m = (v & 0xfff) as u16;
    lemma_word_bits(v, 0);
    lemma_synd12_bound(vlow);
    lemma_pc_facts(synd12(vlow), 0);
    lemma_codeword_form(vlow);
    lemma_xor_cancel(vlow >> 12, synd12(vlow & 0xfff));
    lemma_codeword_properties(m);
    assert(v < 0x1000000 && parity24_spec(v) == 0 ==> v == ((parity24_spec(v & 0x7fffff) << 23) | (
    v & 0x7fffff)) && ((v & 0x7fffff) >> 12 << 12) | ((v & 0x7fffff) & 0xfff) == (v & 0x7fffff)
        && (v & 0x7fffff) & 0xfff == v & 0xfff) by (bit_vector);
    assert(vlow == ((vlow >> 12) << 12) | (vlow & 0xfff));
    assert(vlow >> 12 == synd12(m as u32));
}

/// Total number of flipped bits between two buffers, summed over their
/// first `n` codewords.
pub open spec fn flips_sum(g: Seq<u8>, g2: Seq<u8>, n: int) -> int
    decreases n,
{
    if n <= 0 {
        0
    } else {
        flips_sum(g, g2, n - 1) + popcount23(
            crate::interleave::word_spec(g, n - 1) ^ crate::interleave::word_spec(g2, n - 1),
        )
    }
}

/// The words of `g` each sit within one flipped bit of a clean codeword of
/// `g2`: the shape a burst leaves after interleaving spread it out.
pub open spec fn golay_close(g: Seq<u8>, g2: Seq<u8>) -> bool {
    g2.len() == 24 && (forall|k: int|
        0 <= k < 8 ==> {
            &&& syndrome_spec(#[trigger] crate::interleave::word_spec(g2, k)) == 0
            &&& parity24_spec(crate::interleave::word_spec(g2, k)) == 0
            &&& (crate::interleave::word_spec(g, k) ^ crate::interleave::word_spec(g2, k))
                < 0x800000
            &&& popcount23(
                crate::interleave::word_spec(g, k) ^ crate::interleave::word_spec(g2, k),
            ) <= 1
        })
}

/// Twelve-bit symbol `k` of a 12-byte wire frame: each three bytes carry two
/// symbols, packed big-endian.
pub open spec fn sym_spec(w: Seq<u8>, k: int) -> u16 {
    if k % 2 == 0 {
        ((w[3 * (k / 2)] as u16) << 4) | ((w[3 * (k / 2) + 1] as u16) >> 4)
    } else {
        (((w[3 * (k / 2) + 1] as u16) & 0xf) << 8) | (w[3 * (k / 2) + 2] as u16)
    }
}

/// The Golay image of a 12-byte wire frame: eight codewords stored as 24
/// big-endian bytes.
pub open spec fn golay_group_spec(w: Seq<u8>) -> Seq<u8> {
    Seq::new(
        24,
        |i: int|
            {
                let cw = codeword_spec(sym_spec(w, i / 3));
                if i % 3 == 0 {
                    (cw >> 16) as u8
                } else if i % 3 == 1 {
                    (cw >> 8) as u8
                } else {
                    cw as u8
                }
            },
    )
}

/// The 12 bytes carried in the low 12 bits of each of the eight words of a
/// 24-byte Golay buffer.
pub open spec fn unpack_spec(g: Seq<u8>) -> Seq<u8> {
    Seq::new(
        12,
        |i: int|
            {
                let m1 = (crate::interleave::word_spec(g, 2 * (i / 3)) & 0xfff) as u16;
                let m2 = (crate::interleave::word_spec(g, 2 * (i / 3) + 1) & 0xfff) as u16;
                if i % 3 == 0 {
                    (m1 >> 4) as u8
                } else if i % 3 == 1 {
                    (((m1 & 0xf) << 4) | (m2 >> 8)) as u8
                } else {
                    m2 as u8
                }
            },
    )
}

/// Splitting three bytes into two 12-bit symbols and joining them again is
/// the identity, and both symbols are 12-bit values.
proof fn lemma_sym_split(a: u8, b: u8, c: u8)
    by (bit_vector)
    ensures
        ((a as u16) << 4) | ((b as u16) >> 4) < 4096,
        (((b as u16) & 0xf) << 8) | (c as u16) < 4096,
        ((((a as u16) << 4) | ((b as u16) >> 4)) >> 4) as u8 == a,
        ((((((a as u16) << 4) | ((b as u16) >> 4)) & 0xf) << 4) | (((((b as u16) & 0xf) << 8) | (
        c as u16)) >> 8)) as u8 == b,
        ((((b as u16) & 0xf) << 8) | (c as u16)) as u8 == c,
{
}

/// Golay-encoding a wire frame yields eight true codewords, and reading the
/// message bits back out of them restores the frame.
pub proof fn lemma_golay_group_roundtrip(w: Seq<u8>)
    requires
        w.len() == 12,
    ensures
        unpack_spec(golay_group_spec(w)) == w,
        forall|k: int|
            0 <= k < 8 ==> syndrome_spec(
                #[trigger] crate::interleave::word_spec(golay_group_spec(w), k),
            ) == 0,
        forall|k: int|
            0 <= k < 8 ==> parity24_spec(
                #[trigger] crate::interleave::word_spec(golay_group_spec(w), k),
            ) == 0,
{
    let g = golay_group_spec(w);
    assert forall|k: int| 0 <= k < 8 implies crate::interleave::word_spec(g, k) == codeword_spec(
        sym_spec(w, k),
    ) && syndrome_spec(crate::interleave::word_spec(g, k)) == 0 && parity24_spec(
        crate::interleave::word_spec(g, k),
    ) == 0 by {
        let a = w[3 * (k / 2)];
        let b = w[3 * (k / 2) + 1];
        let c = w[3 * (k / 2) + 2];
        lemma_sym_split(a, b, c);
        lemma_codeword_properties(sym_spec(w, k));
        let cw = codeword_spec(sym_spec(w, k));
        assert((3 * k) / 3 == k && (3 * k) % 3 == 0);
        assert((3 * k + 1) / 3 == k && (3 * k + 1) % 3 == 1);
        assert((3 * k + 2) / 3 == k && (3 * k + 2) % 3 == 2);
        assert(g[3 * k] == (cw >> 16) as u8);
        assert(g[3 * k + 1] == (cw >> 8) as u8);
        assert(g[3 * k + 2] == cw as u8);
        assert(cw < 0x1000000 ==> ((((cw >> 16) as u8) as u32) << 16) | ((((cw >> 8) as u8) as u32)
            << 8) | ((cw as u8) as u32) == cw) by (bit_vector);
    }
    assert forall|i: int| 0 <= i < 12 implies unpack_spec(g)[i] == w[i] by {
        let j = i / 3;
        let a = w[3 * j];
        let b = w[3 * j + 1];
        let c = w[3 * j + 2];
        lemma_sym_split(a, b, c);
        assert((2 * j) % 2 == 0 && (2 * j) / 2 == j);
        assert((2 * j + 1) % 2 == 1 && (2 * j + 1) / 2 == j);
        lemma_codeword_properties(sym_spec(w, 2 * j));
        lemma_codeword_properties(sym_spec(w, 2 * j + 1));
        assert(crate::interleave::word_spec(g, 2 * j) == codeword_spec(sym_spec(w, 2 * j)));
        assert(crate::interleave::word_spec(g, 2 * j + 1) == codeword_spec(sym_spec(w, 2 * j + 1)));
        let m1 = (crate::interleave::word_spec(g, 2 * j) & 0xfff) as u16;
        let m2 = (crate::interleave::word_spec(g, 2 * j + 1) & 0xfff) as u16;
        assert(m1 == sym_spec(w, 2 * j) && m2 == sym_spec(w, 2 * j + 1));
        if i % 3 == 0 {
            assert(i == 3 * j);
        } else if i % 3 == 1 {
            assert(i == 3 * j + 1);
        } else {
            assert(i == 3 * j + 2);
        }
    }
    assert(unpack_spec(g) =~= w);
}

/// Expand a 12-byte wire frame into eight Golay codewords, two per three
/// input bytes, stored big-endian in 24 bytes.
pub fn golay_encode_wire(w: &[u8; 12]) -> (r: [u8; 24])
    ensures
        r@ == golay_group_spec(w@),
{
    let mut out: [u8; 24] = [0; 24];
    let mut j: usize = 0;
    while j < 4
        invariant
            j <= 4,
            forall|m: int| 0 <= m < 6 * j ==> #[trigger] out@[m] == golay_group_spec(w@)[m],
        decreases 4 - j,
    {
        let a = w[3 * j];
        let b = w[3 * j + 1];
        let c = w[3 * j + 2];
        proof {
            lemma_sym_split(a, b, c);
            assert((2 * j as int) % 2 == 0 && (2 * j as int) / 2 == j as int);
            assert((2 * j as int + 1) % 2 == 1 && (2 * j as int + 1) / 2 == j as int);
            assert(((b >> 4) as u16) == ((b as u16) >> 4)) by (bit_vector);
        }
        let src1: u16 = ((a as u16) << 4) | ((b >> 4) as u16);
        let src2: u16 = (((b as u16) & 0xf) << 8) | (c as u16);
        let dst1 = apply_golay(src1);
        let dst2 = apply_golay(src2);
        proof {
            assert(src1 == sym_spec(w@, 2 * j as int));
            assert(src2 == sym_spec(w@, 2 * j as int + 1));
            assert((6 * j as int) / 3 == 2 * j as int && (6 * j as int) % 3 == 0);
            assert((6 * j as int + 1) / 3 == 2 * j as int && (6 * j as int + 1) % 3 == 1);
            assert((6 * j as int + 2) / 3 == 2 * j as int && (6 * j as int + 2) % 3 == 2);
            assert((6 * j as int + 3) / 3 == 2 * j as int + 1 && (6 * j as int + 3) % 3 == 0);
            assert((6 * j as int + 4) / 3 == 2 * j as int + 1 && (6 * j as int + 4) % 3 == 1);
            assert((6 * j as int + 5) / 3 == 2 * j as int + 1 && (6 * j as int + 5) % 3 == 2);
        }
        out[6 * j] = (dst1 >> 16) as u8;
        out[6 * j + 1] = (dst1 >> 8) as u8;
        out[6 * j + 2] = dst1 as u8;
        out[6 * j + 3] = (dst2 >> 16) as u8;
        out[6 * j + 4] = (dst2 >> 8) as u8;
        out[6 * j + 5] = dst2 as u8;
        j = j + 1;
    }
    proof {
        assert(out@ =~= golay_group_spec(w@));
    }
    out
}

/// Decode the eight codewords of a 24-byte Golay buffer into a 12-byte wire
/// frame, summing corrected bit errors and counting parity violations. A
/// buffer of clean codewords decodes exactly, with zero in both counters.
#[verifier::rlimit(100)]
#[verifier::spinoff_prover]
pub fn golay_decode24(g: &[u8; 24]) -> (r: ([u8; 12], usize, usize))
    ensures
        r.1 <= 24,
        r.2 <= 8,
        (forall|k: int|
            0 <= k < 8 ==> syndrome_spec(#[trigger] crate::interleave::word_spec(g@, k)) == 0
                && parity24_spec(crate::interleave::word_spec(g@, k)) == 0) ==> (r.0@ == unpack_spec(
            g@,
        ) && r.1 == 0 && r.2 == 0),
        forall|g2: Seq<u8>|
            #[trigger] golay_close(g@, g2) ==> r.0@ == unpack_spec(g2) && r.1 == flips_sum(
                g@,
                g2,
                8,
            ),
{
    let ghost clean = forall|k: int|
        0 <= k < 8 ==> syndrome_spec(#[trigger] crate::interleave::word_spec(g@, k)) == 0
            && parity24_spec(crate::interleave::word_spec(g@, k)) == 0;
    let mut buff: [u8; 12] = [0; 12];
    let mut errors: usize = 0;
    let mut parity_errors: usize = 0;
    let mut j: usize = 0;
    while j < 4
        invariant
            j <= 4,
            errors <= 6 * j,
            parity_errors <= 2 * j,
            clean == (forall|k: int|
                0 <= k < 8 ==> syndrome_spec(#[trigger] crate::interleave::word_spec(g@, k)) == 0
                    && parity24_spec(crate::interleave::word_spec(g@, k)) == 0),
            clean ==> errors == 0 && parity_errors == 0 && (forall|m: int|
                0 <= m < 3 * j ==> #[trigger] buff@[m] == unpack_spec(g@)[m]),
            forall|g2: Seq<u8>|
                #[trigger] golay_close(g@, g2) ==> errors == flips_sum(g@, g2, 2 * j as int) && (
                forall|m: int| 0 <= m < 3 * j ==> buff@[m] == unpack_spec(g2)[m]),
        decreases 4 - j,
    {
        let b0 = g[6 * j];
        let b1 = g[6 * j + 1];
        let b2 = g[6 * j + 2];
        let b3 = g[6 * j + 3];
        let b4 = g[6 * j + 4];
        let b5 = g[6 * j + 5];
        let src1: u32 = (((b0 as u32) << 16) | ((b1 as u32) << 8)) | (b2 as u32);
        let src2: u32 = (((b3 as u32) << 16) | ((b4 as u32) << 8)) | (b5 as u32);
        proof {
            assert(src1 == crate::interleave::word_spec(g@, 2 * j as int));
            assert(src2 == crate::interleave::word_spec(g@, 2 * j as int + 1));
            assert((((b0 as u32) << 16) | ((b1 as u32) << 8)) | (b2 as u32) < 0x1000000)
                by (bit_vector);
            assert((((b3 as u32) << 16) | ((b4 as u32) << 8)) | (b5 as u32) < 0x1000000)
                by (bit_vector);
        }
        let (dst1, err1, par1) = undo_golay(src1);
        let (dst2, err2, par2) = undo_golay(src2);
        if !par1 {
            parity_errors = parity_errors + 1;
        }
        if !par2 {
            parity_errors = parity_errors + 1;
        }
        errors = errors + err1 + err2;
        proof {
            assert((2 * j as int) / 2 == j as int && (2 * j as int) % 2 == 0);
            assert((3 * j as int) / 3 == j as int && (3 * j as int) % 3 == 0);
            assert((3 * j as int + 1) / 3 == j as int && (3 * j as int + 1) % 3 == 1);
            assert((3 * j as int + 2) / 3 == j as int && (3 * j as int + 2) % 3 == 2);
            if clean {
                assert(syndrome_spec(src1) == 0 && parity24_spec(src1) == 0);
                assert(syndrome_spec(src2) == 0 && parity24_spec(src2) == 0);
                assert(dst1 == (src1 & 0xfff) as u16 && err1 == 0 && par1 == true);
                assert(dst2 == (src2 & 0xfff) as u16 && err2 == 0 && par2 == true);
            }
            assert forall|g2: Seq<u8>| #[trigger] golay_close(g@, g2) implies {
                let w1c = crate::interleave::word_spec(g2, 2 * j as int);
                let w2c = crate::interleave::word_spec(g2, 2 * j as int + 1);
                &&& dst1 == (w1c & 0xfff) as u16
                &&& dst2 == (w2c & 0xfff) as u16
                &&& err1 == popcount23(src1 ^ w1c)
                &&& err2 == popcount23(src2 ^ w2c)
            } by {
                let w1c = crate::interleave::word_spec(g2, 2 * j as int);
                let w2c = crate::interleave::word_spec(g2, 2 * j as int + 1);
                lemma_xor_cancel(src1, w1c);
                lemma_xor_cancel(w1c, src1 ^ w1c);
                lemma_xor_cancel(src2, w2c);
                lemma_xor_cancel(w2c, src2 ^ w2c);
                assert(w1c < 0x1000000 && w2c < 0x1000000) by {
                    assert((src1 ^ (src1 ^ w1c)) == w1c);
                    lemma_word_bits(src1, src1 ^ w1c);
                    assert((src2 ^ (src2 ^ w2c)) == w2c);
                    lemma_word_bits(src2, src2 ^ w2c);
                }
                lemma_clean_word_is_codeword(w1c);
                lemma_clean_word_is_codeword(w2c);
                assert((w1c & 0xfff) < 4096 && (w2c & 0xfff) < 4096) by {
                    lemma_word_bits(w1c, 0);
                    lemma_word_bits(w2c, 0);
                }
                assert(src1 == codeword_spec((w1c & 0xfff) as u16) ^ (src1 ^ w1c)) by {
                    assert((w1c ^ (src1 ^ w1c)) == src1) by {
                        assert(w1c ^ (src1 ^ w1c) == w1c ^ (w1c ^ src1)) by {
                            lemma_xor_cancel(src1, w1c);
                        }
                        lemma_xor_cancel(w1c, w1c);
                        lemma_xor_cancel(src1, 0);
                        assert((w1c ^ w1c) ^ src1 == w1c ^ (w1c ^ src1));
                    }
                }
                assert(near_codeword(src1, (w1c & 0xfff) as u16, src1 ^ w1c));
                assert(src2 == codeword_spec((w2c & 0xfff) as u16) ^ (src2 ^ w2c)) by {
                    assert((w2c ^ (src2 ^ w2c)) == src2) by {
                        assert(w2c ^ (src2 ^ w2c) == w2c ^ (w2c ^ src2)) by {
                            lemma_xor_cancel(src2, w2c);
                        }
                        lemma_xor_cancel(w2c, w2c);
                        lemma_xor_cancel(src2, 0);
                        assert((w2c ^ w2c) ^ src2 == w2c ^ (w2c ^ src2));
                    }
                }
                assert(near_codeword(src2, (w2c & 0xfff) as u16, src2 ^ w2c));
            }
        }
        proof {
            assert(dst1 < 4096 && dst2 < 4096 ==> ((dst1 >> 4) as u8) == ((dst1 >> 4) as u8)
                && ((((dst1 & 0xf) << 4) | (dst2 >> 8)) as u8) == ((((dst1 & 0xf) << 4) | (dst2
                >> 8)) as u8)) by (bit_vector);
        }
        buff[3 * j] = (dst1 >> 4) as u8;
        buff[3 * j + 1] = (((dst1 & 0xf) << 4) | (dst2 >> 8)) as u8;
        buff[3 * j + 2] = dst2 as u8;
        proof {
            if clean {
                let m1 = (crate::interleave::word_spec(g@, 2 * j as int) & 0xfff) as u16;
                let m2 = (crate::interleave::word_spec(g@, 2 * j as int + 1) & 0xfff) as u16;
                assert(dst1 == m1 && dst2 == m2);
                assert(buff@[3 * j as int] == unpack_spec(g@)[3 * j as int]);
                assert(buff@[3 * j as int + 1] == unpack_spec(g@)[3 * j as int + 1]);
                assert(buff@[3 * j as int + 2] == unpack_spec(g@)[3 * j as int + 2]);
            }
            assert forall|g2: Seq<u8>| #[trigger] golay_close(g@, g2) implies errors == flips_sum(
                g@,
                g2,
                2 * (j + 1) as int,
            ) && (forall|m: int|
                0 <= m < 3 * (j + 1) ==> buff@[m] == unpack_spec(g2)[m]) by {
                let m1 = (crate::interleave::word_spec(g2, 2 * j as int) & 0xfff) as u16;
                let m2 = (crate::interleave::word_spec(g2, 2 * j as int + 1) & 0xfff) as u16;
                assert(dst1 == m1 && dst2 == m2);
                assert(buff@[3 * j as int] == unpack_spec(g2)[3 * j as int]);
                assert(buff@[3 * j as int + 1] == unpack_spec(g2)[3 * j as int + 1]);
                assert(buff@[3 * j as int + 2] == unpack_spec(g2)[3 * j as int + 2]);
                assert(flips_sum(g@, g2, 2 * (j + 1) as int) == flips_sum(g@, g2, 2 * j as int + 1)
                    + popcount23(src2 ^ crate::interleave::word_spec(g2, 2 * j as int + 1)));
                assert(flips_sum(g@, g2, 2 * j as int + 1) == flips_sum(g@, g2, 2 * j as int)
                    + popcount23(src1 ^ crate::interleave::word_spec(g2, 2 * j as int)));
            }
        }
        j = j + 1;
    }
    proof {
        if clean {
            assert(buff@ =~= unpack_spec(g@));
        }
        assert forall|g2: Seq<u8>| #[trigger] golay_close(g@, g2) implies buff@ == unpack_spec(g2)
            by {
            assert(buff@ =~= unpack_spec(g2));
        }
    }
    (buff, errors, parity_errors)
}


} // verus!
