//! Bit interleaver across the eight Golay codewords of a frame.
//!
//! The 24-byte Golay buffer is read as eight 24-bit words A..H. Output byte
//! `i` collects bit `i` of every word, A in the most significant position,
//! so a burst of adjacent channel errors lands on distinct codewords.

use vstd::prelude::*;

verus! {

/// Three bytes packed big-endian into a 24-bit word.
pub open spec fn word_of(msb: u8, isb: u8, lsb: u8) -> u32 {
    (((msb as u32) << 16) | ((isb as u32) << 8)) | (lsb as u32)
}

/// Codeword `k` of a 24-byte buffer, packed big-endian.
pub open spec fn word_spec(g: Seq<u8>, k: int) -> u32 {
    word_of(g[3 * k], g[3 * k + 1], g[3 * k + 2])
}

/// Select one of the eight words by index.
pub open spec fn wsel(
    wa: u32,
    wb: u32,
    wc: u32,
    wd: u32,
    we: u32,
    wf: u32,
    wg: u32,
    wh: u32,
    k: u32,
) -> u32 {
    if k == 0 {
        wa
    } else if k == 1 {
        wb
    } else if k == 2 {
        wc
    } else if k == 3 {
        wd
    } else if k == 4 {
        we
    } else if k == 5 {
        wf
    } else if k == 6 {
        wg
    } else {
        wh
    }
}

/// Interleaved byte `i`: bit `i` of each word, word A at the top.
pub open spec fn ibyte_of(
    wa: u32,
    wb: u32,
    wc: u32,
    wd: u32,
    we: u32,
    wf: u32,
    wg: u32,
    wh: u32,
    i: u32,
) -> u8 {
    ((((wa >> i) & 1) as u8) << 7) | ((((wb >> i) & 1) as u8) << 6) | ((((wc >> i) & 1) as u8) << 5)
        | ((((wd >> i) & 1) as u8) << 4) | ((((we >> i) & 1) as u8) << 3) | ((((wf >> i) & 1) as u8)
        << 2) | ((((wg >> i) & 1) as u8) << 1) | (((wh >> i) & 1) as u8)
}

/// The interleaved image of a 24-byte Golay buffer.
pub open spec fn interleave_spec(g: Seq<u8>) -> Seq<u8> {
    Seq::new(
        24,
        |i: int|
            ibyte_of(
                word_spec(g, 0),
                word_spec(g, 1),
                word_spec(g, 2),
                word_spec(g, 3),
                word_spec(g, 4),
                word_spec(g, 5),
                word_spec(g, 6),
                word_spec(g, 7),
                i as u32,
            ),
    )
}

/// The first `t` steps of rebuilding word `k` from interleaved bytes, taking
/// the bytes from the top index down and shifting each extracted bit in from
/// the right.
pub open spec fn dpart(q: Seq<u8>, k: u32, t: nat) -> u32
    decreases t,
{
    if t == 0 {
        0
    } else {
        (dpart(q, k, (t - 1) as nat) << 1) | (((q[24 - t] as u32) >> ((7 - k) as u32)) & 1)
    }
}

/// Word `k` rebuilt from a 24-byte interleaved buffer.
pub open spec fn dword_spec(q: Seq<u8>, k: u32) -> u32 {
    dpart(q, k, 24)
}

/// The de-interleaved image of a 24-byte buffer.
pub open spec fn deinterleave_spec(q: Seq<u8>) -> Seq<u8> {
    Seq::new(
        24,
        |j: int|
            {
                let w = dword_spec(q, (j / 3) as u32);
                if j % 3 == 0 {
                    (w >> 16) as u8
                } else if j % 3 == 1 {
                    (w >> 8) as u8
                } else {
                    w as u8
                }
            },
    )
}

/// Bit `7 - k` of an interleaved byte is bit `i` of word `k`.
proof fn lemma_ibyte_sel(
    wa: u32,
    wb: u32,
    wc: u32,
    wd: u32,
    we: u32,
    wf: u32,
    wg: u32,
    wh: u32,
    i: u32,
    k: u32,
)
    by (bit_vector)
    requires
        i < 24,
        k < 8,
    ensures
        ((ibyte_of(wa, wb, wc, wd, we, wf, wg, wh, i) as u32) >> ((7 - k) as u32)) & 1 == (wsel(
            wa,
            wb,
            wc,
            wd,
            we,
            wf,
            wg,
            wh,
            k,
        ) >> i) & 1,
{
}

/// Rebuilding word `k` from its interleaved image recovers its top `t` bits.
proof fn lemma_dpart_rebuild(
    q: Seq<u8>,
    wa: u32,
    wb: u32,
    wc: u32,
    wd: u32,
    we: u32,
    wf: u32,
    wg: u32,
    wh: u32,
    k: u32,
    t: nat,
)
    requires
        t <= 24,
        k < 8,
        q.len() == 24,
        forall|m: int|
            0 <= m < 24 ==> q[m] == ibyte_of(wa, wb, wc, wd, we, wf, wg, wh, m as u32),
        wsel(wa, wb, wc, wd, we, wf, wg, wh, k) < 0x1000000,
    ensures
        dpart(q, k, t) == wsel(wa, wb, wc, wd, we, wf, wg, wh, k) >> ((24 - t) as u32),
    decreases t,
{
    let w = wsel(wa, wb, wc, wd, we, wf, wg, wh, k);
    if t == 0 {
        assert(w < 0x1000000 ==> w >> 24u32 == 0) by (bit_vector);
    } else {
        lemma_dpart_rebuild(q, wa, wb, wc, wd, we, wf, wg, wh, k, (t - 1) as nat);
        let i: u32 = (24 - t) as u32;
        assert(q[24 - t] == ibyte_of(wa, wb, wc, wd, we, wf, wg, wh, (24 - t) as u32));
        lemma_ibyte_sel(wa, wb, wc, wd, we, wf, wg, wh, i, k);
        let b: u32 = ((q[24 - t] as u32) >> ((7 - k) as u32)) & 1;
        assert(b == (w >> i) & 1);
        assert((24 - (t - 1) as nat) as u32 == (i + 1) as u32);
        assert(i <= 23 && w < 0x1000000 && b == ((w >> i) & 1) ==> ((w >> (i + 1) as u32) << 1) | b
            == w >> i) by (bit_vector);
    }
}

/// De-interleaving undoes interleaving: the transpose is an involution.
pub proof fn lemma_interleave_roundtrip(g: Seq<u8>)
    requires
        g.len() == 24,
    ensures
        deinterleave_spec(interleave_spec(g)) == g,
{
    let q = interleave_spec(g);
    assert forall|j: int| 0 <= j < 24 implies deinterleave_spec(q)[j] == g[j] by {
        let k = j / 3;
        let a = g[3 * k];
        let b = g[3 * k + 1];
        let c = g[3 * k + 2];
        let w = word_spec(g, k);
        assert(word_of(a, b, c) < 0x1000000 && (word_of(a, b, c) >> 0u32) == word_of(a, b, c)
            && word_of(a, b, c) >> 16 == a && ((word_of(a, b, c) >> 8) as u8) == b && (word_of(
            a,
            b,
            c,
        ) as u8) == c) by (bit_vector);
        lemma_dpart_rebuild(
            q,
            word_spec(g, 0),
            word_spec(g, 1),
            word_spec(g, 2),
            word_spec(g, 3),
            word_spec(g, 4),
            word_spec(g, 5),
            word_spec(g, 6),
            word_spec(g, 7),
            k as u32,
            24,
        );
        assert(wsel(
            word_spec(g, 0),
            word_spec(g, 1),
            word_spec(g, 2),
            word_spec(g, 3),
            word_spec(g, 4),
            word_spec(g, 5),
            word_spec(g, 6),
            word_spec(g, 7),
            k as u32,
        ) == w);
        assert(dword_spec(q, k as u32) == w);
        if j % 3 == 0 {
            assert(j == 3 * k);
        } else if j % 3 == 1 {
            assert(j == 3 * k + 1);
        } else {
            assert(j == 3 * k + 2);
        }
    }
    assert(deinterleave_spec(q) =~= g);
}

/// Shifting in steps: a word shifted by zero is itself, and one more shift
/// moves the window by one.
proof fn lemma_shift_steps()
    by (bit_vector)
    ensures
        forall|x: u32| #[trigger] (x >> 0u32) == x,
        forall|x: u32, m: u32| m < 24 ==> ((#[trigger] (x >> m)) >> 1u32) == x >> (m + 1) as u32,
{
}

/// Interleave a 24-byte Golay buffer: output byte `i` carries bit `i` of
/// each codeword, the first codeword in the most significant position.
pub fn interleave24(g: &[u8; 24]) -> (r: [u8; 24])
    ensures
        r@ == interleave_spec(g@),
{
    let mut out: [u8; 24] = [0; 24];
    let mut src_a: u32 = (((g[0] as u32) << 16) | ((g[1] as u32) << 8)) | (g[2] as u32);
    let mut src_b: u32 = (((g[3] as u32) << 16) | ((g[4] as u32) << 8)) | (g[5] as u32);
    let mut src_c: u32 = (((g[6] as u32) << 16) | ((g[7] as u32) << 8)) | (g[8] as u32);
    let mut src_d: u32 = (((g[9] as u32) << 16) | ((g[10] as u32) << 8)) | (g[11] as u32);
    let mut src_e: u32 = (((g[12] as u32) << 16) | ((g[13] as u32) << 8)) | (g[14] as u32);
    let mut src_f: u32 = (((g[15] as u32) << 16) | ((g[16] as u32) << 8)) | (g[17] as u32);
    let mut src_g: u32 = (((g[18] as u32) << 16) | ((g[19] as u32) << 8)) | (g[20] as u32);
    let mut src_h: u32 = (((g[21] as u32) << 16) | ((g[22] as u32) << 8)) | (g[23] as u32);
    let ghost wa = word_spec(g@, 0);
    let ghost wb = word_spec(g@, 1);
    let ghost wc = word_spec(g@, 2);
    let ghost wd = word_spec(g@, 3);
    let ghost we = word_spec(g@, 4);
    let ghost wf = word_spec(g@, 5);
    let ghost wg = word_spec(g@, 6);
    let ghost wh = word_spec(g@, 7);
    proof {
        lemma_shift_steps();
    }
    let mut i: usize = 0;
    while i < 24
        invariant
            i <= 24,
            src_a == wa >> (i as u32),
            src_b == wb >> (i as u32),
            src_c == wc >> (i as u32),
            src_d == wd >> (i as u32),
            src_e == we >> (i as u32),
            src_f == wf >> (i as u32),
            src_g == wg >> (i as u32),
            src_h == wh >> (i as u32),
            wa == word_spec(g@, 0),
            wb == word_spec(g@, 1),
            wc == word_spec(g@, 2),
            wd == word_spec(g@, 3),
            we == word_spec(g@, 4),
            wf == word_spec(g@, 5),
            wg == word_spec(g@, 6),
            wh == word_spec(g@, 7),
            forall|m: int|
                0 <= m < i ==> #[trigger] out@[m] == ibyte_of(wa, wb, wc, wd, we, wf, wg, wh, m as u32),
        decreases 24 - i,
    {
        let byte: u8 = ((((src_a & 1) as u8) << 7) | (((src_b & 1) as u8) << 6) | (((src_c & 1) as u8)
            << 5) | (((src_d & 1) as u8) << 4) | (((src_e & 1) as u8) << 3) | (((src_f & 1) as u8)
            << 2) | (((src_g & 1) as u8) << 1)) | ((src_h & 1) as u8);
        out[i] = byte;
        proof {
            lemma_shift_steps();
        }
        src_a = src_a >> 1;
        src_b = src_b >> 1;
        src_c = src_c >> 1;
        src_d = src_d >> 1;
        src_e = src_e >> 1;
        src_f = src_f >> 1;
        src_g = src_g >> 1;
        src_h = src_h >> 1;
        i = i + 1;
    }
    proof {
        assert(out@ =~= interleave_spec(g@));
    }
    out
}

/// De-interleave a 24-byte buffer back into eight big-endian codewords.
pub fn deinterleave24(q: &[u8; 24]) -> (r: [u8; 24])
    ensures
        r@ == deinterleave_spec(q@),
{
    let mut out: [u8; 24] = [0; 24];
    let mut k: usize = 0;
    while k < 8
        invariant
            k <= 8,
            forall|m: int|
                0 <= m < 3 * k ==> #[trigger] out@[m] == deinterleave_spec(q@)[m],
        decreases 8 - k,
    {
        let mut d: u32 = 0;
        let mut t: usize = 0;
        while t < 24
            invariant
                t <= 24,
                k < 8,
                d == dpart(q@, k as u32, t as nat),
            decreases 24 - t,
        {
            let sh: u32 = 7 - (k as u32);
            let bit = ((q[23 - t] as u32) >> sh) & 1;
            d = (d << 1) | bit;
            proof {
                assert(q@[24 - (t + 1)] == q@[23 - t]);
            }
            t = t + 1;
        }
        proof {
            assert(d == dword_spec(q@, k as u32));
        }
        out[3 * k] = (d >> 16) as u8;
        out[3 * k + 1] = (d >> 8) as u8;
        out[3 * k + 2] = d as u8;
        proof {
            assert(out@[3 * (k as int)] == deinterleave_spec(q@)[3 * (k as int)]);
            assert(out@[3 * (k as int) + 1] == deinterleave_spec(q@)[3 * (k as int) + 1]);
            assert(out@[3 * (k as int) + 2] == deinterleave_spec(q@)[3 * (k as int) + 2]);
        }
        k = k + 1;
    }
    proof {
        assert(out@ =~= deinterleave_spec(q@));
    }
    out
}

} // verus!
