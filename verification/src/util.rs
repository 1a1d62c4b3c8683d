//! Variable-length integer codec for packet header fields.
//!
//! Values are emitted as 7-bit groups, least significant first, with the top
//! bit of every byte set except on the last group. `encode_id` packs the
//! same two-byte sequence into one big-endian 16-bit value so it can be
//! appended by a byte-wise writer.

use vstd::prelude::*;

verus! {

/// The 7-bit continuation encoding of a value: least significant group
/// first, the top bit set on every byte but the last.
pub open spec fn varlength_spec(v: u32) -> Seq<u8>
    decreases v,
{
    if v < 0x80 {
        seq![v as u8]
    } else {
        seq![(0x80 + (v % 0x80)) as u8] + varlength_spec(v / 0x80)
    }
}

/// What reading a 7-bit continuation number out of `data` from `idx` with
/// the given accumulated shift yields: the recovered (shifted) value and the
/// index of the first unconsumed byte. Reading stops at the first byte with
/// a clear top bit, after four groups, or at the end of the input.
pub open spec fn decode_ext_spec(data: Seq<u8>, idx: int, shift: u32) -> (u32, int)
    decreases data.len() - idx,
{
    if shift >= 28 || idx < 0 || idx >= data.len() {
        (0u32, idx)
    } else {
        let b = data[idx];
        if b & 0x80 == 0 {
            ((((b & 0x7f) as u32) << shift), idx + 1)
        } else {
            let rest = decode_ext_spec(data, idx + 1, (shift + 7) as u32);
            (((((b & 0x7f) as u32) << shift) | rest.0), rest.1)
        }
    }
}

/// Bitwise-or on words is associative and has zero as its unit.
proof fn lemma_or_facts(v: u32)
    by (bit_vector)
    ensures
        forall|x: u32, y: u32, z: u32| #[trigger] (x | (y | z)) == ((x | y) | z),
        forall|x: u32| #[trigger] (x | 0u32) == x,
        forall|x: u32| #[trigger] (0u32 | x) == x,
        v < 0x10000000 ==> v < (1u32 << 28u32),
        v << 0u32 == v,
{
}

/// Encode a value as 7-bit continuation bytes, least significant first.
pub fn encode_varlength(val: u32) -> (r: Vec<u8>)
    ensures
        r@ == varlength_spec(val),
{
    let mut out: Vec<u8> = Vec::new();
    let mut v = val;
    proof {
        assert(varlength_spec(val) =~= Seq::<u8>::empty() + varlength_spec(val));
    }
    while v >= 0x80
        invariant
            varlength_spec(val) == out@ + varlength_spec(v),
        decreases v,
    {
        proof {
            assert(v >= 0x80 ==> ((0x80u8 | ((v as u8) & 0x7F)) == (0x80 + (v % 0x80)) as u8) && (v
                >> 7 == v / 0x80)) by (bit_vector);
        }
        out.push(0x80 | ((v as u8) & 0x7F));
        v = v >> 7;
        proof {
            assert(varlength_spec(val) =~= out@ + varlength_spec(v));
        }
    }
    out.push(v as u8);
    proof {
        assert(varlength_spec(val) =~= out@);
    }
    out
}

/// Read a 7-bit continuation number from `data`, starting at `start`:
/// the value and the index of the first unconsumed byte.
pub fn decode_extended_number(data: &[u8], start: usize) -> (r: (u32, usize))
    requires
        start <= data@.len(),
    ensures
        (r.0, r.1 as int) == decode_ext_spec(data@, start as int, 0),
        start <= r.1 <= data@.len(),
        r.1 <= start + 4,
{
    let mut val: u32 = 0;
    let mut shift: u32 = 0;
    let mut idx: usize = start;
    let mut done = false;
    proof {
        lemma_or_facts(0);
    }
    while !done && shift < 28 && idx < data.len()
        invariant
            start <= idx <= data@.len(),
            shift % 7 == 0,
            idx - start == shift / 7,
            shift <= 28,
            !done ==> decode_ext_spec(data@, start as int, 0) == ((val | decode_ext_spec(
                data@,
                idx as int,
                shift,
            ).0), decode_ext_spec(data@, idx as int, shift).1),
            done ==> decode_ext_spec(data@, start as int, 0) == (val, idx as int),
        decreases data@.len() - idx + (if done {
            0int
        } else {
            1int
        }),
    {
        let b = data[idx];
        let piece = ((b & 0x7F) as u32) << shift;
        proof {
            let rest = decode_ext_spec(data@, idx as int + 1, (shift + 7) as u32);
            if b & 0x80 == 0 {
                assert(decode_ext_spec(data@, idx as int, shift) == ((((b & 0x7f) as u32) << shift),
                    idx as int + 1));
            } else {
                assert(decode_ext_spec(data@, idx as int, shift) == (((((b & 0x7f) as u32) << shift)
                    | rest.0), rest.1));
            }
            lemma_or_facts(0);
        }
        val = val | piece;
        shift = shift + 7;
        idx = idx + 1;
        if b & 0x80 == 0 {
            done = true;
        }
    }
    proof {
        if !done {
            assert(decode_ext_spec(data@, idx as int, shift) == (0u32, idx as int));
            lemma_or_facts(0);
        }
    }
    (val, idx)
}

/// The dense two-byte form of a varlength-encoded value: the same byte
/// sequence as the 7-bit continuation encoding, stored big-endian in one
/// 16-bit integer.
pub open spec fn encode_id_spec(v: u16) -> u16 {
    if v < 0x80 {
        v
    } else {
        ((0x80u16 | (v & 0x7f)) << 8) | (v >> 7)
    }
}

/// Pack a value's varlength bytes into one big-endian 16-bit integer.
/// Defined for values up to 0x3999, which need at most two groups.
pub fn encode_id(val: u16) -> (r: u16)
    requires
        val <= 0x3999,
    ensures
        r == encode_id_spec(val),
{
    if val >= 0x80 {
        ((0x80u16 | (val & 0x7f)) << 8) | (val >> 7)
    } else {
        val
    }
}

/// The big-endian bytes of a 16-bit value.
pub open spec fn be16_spec(v: u16) -> Seq<u8> {
    seq![(v >> 8) as u8, v as u8]
}

/// For two-group values, the dense id encoding writes exactly the varlength
/// byte sequence.
pub proof fn lemma_encode_id_matches_varlength(v: u16)
    requires
        0x80 <= v <= 0x3999,
    ensures
        be16_spec(encode_id_spec(v)) == varlength_spec(v as u32),
{
    let w = v as u32;
    assert(w >= 0x80 && w / 0x80 < 0x80 && ((((0x80u16 | (v & 0x7f)) << 8) | (v >> 7)) >> 8) as u8
        == (0x80 + ((v as u32) % 0x80)) as u8 && ((((0x80u16 | (v & 0x7f)) << 8) | (v
        >> 7)) as u8) == ((v as u32) / 0x80) as u8) by (bit_vector)
        requires
            0x80 <= w <= 0x3999,
            w == v as u32,
            0x80 <= v <= 0x3999,
    ;
    assert(varlength_spec(w) == seq![(0x80 + (w % 0x80)) as u8] + varlength_spec(w / 0x80));
    assert(varlength_spec(w / 0x80) =~= seq![(w / 0x80) as u8]);
    assert(varlength_spec(w) =~= seq![(0x80 + (w % 0x80)) as u8] + seq![(w / 0x80) as u8]);
    let e = encode_id_spec(v);
    assert(be16_spec(e) =~= varlength_spec(w));
}

/// Shifted decoding recovers a shifted value: reading the varlength bytes
/// of `v` embedded in `data` at `idx`, with `shift` bits already consumed,
/// yields `v << shift` and consumes exactly the encoding's bytes.
proof fn lemma_decode_varlength_embedded(data: Seq<u8>, v: u32, idx: int, shift: u32)
    requires
        shift <= 21,
        shift % 7 == 0,
        v < (1u32 << ((28 - shift) as u32)),
        0 <= idx,
        idx + varlength_spec(v).len() <= data.len(),
        data.subrange(idx, idx + varlength_spec(v).len() as int) == varlength_spec(v),
    ensures
        decode_ext_spec(data, idx, shift) == ((v << shift), idx + varlength_spec(v).len()),
    decreases v,
{
    if v < 0x80 {
        let b = data[idx];
        assert(b == varlength_spec(v)[0]);
        assert(b == v as u8);
        assert(v < 0x80 ==> ((v as u8) & 0x80 == 0) && (((v as u8) & 0x7f) as u32) == v)
            by (bit_vector);
    } else {
        let b = data[idx];
        assert(b == varlength_spec(v)[0]);
        assert(b == (0x80 + (v % 0x80)) as u8);
        let rest_v = v / 0x80;
        assert(varlength_spec(v) == seq![(0x80 + (v % 0x80)) as u8] + varlength_spec(rest_v));
        assert(varlength_spec(v).len() == 1 + varlength_spec(rest_v).len());
        assert forall|m: int| 0 <= m < varlength_spec(rest_v).len() implies data[idx + 1 + m]
            == varlength_spec(rest_v)[m] by {
            assert(data.subrange(idx, idx + varlength_spec(v).len() as int)[m + 1]
                == varlength_spec(v)[m + 1]);
        }
        assert(data.subrange(idx + 1, idx + varlength_spec(v).len() as int) =~= varlength_spec(
            rest_v,
        ));
        assert((v / 0x80) < (1u32 << ((28 - (shift + 7)) as u32)) && shift + 7 <= 28 && shift <= 14
            && (((0x80 + (v % 0x80)) as u8) & 0x80 != 0) && (((((0x80 + (v % 0x80)) as u8)
            & 0x7f) as u32) == v % 0x80) && ((((v % 0x80) << shift) | ((v / 0x80) << ((shift
            + 7) as u32))) == v << shift)) by (bit_vector)
            requires
                shift <= 21,
                shift % 7 == 0,
                v >= 0x80,
                v < (1u32 << ((28 - shift) as u32)),
        ;
        assert(v >= 0x80 ==> v / 0x80 < v);
        lemma_decode_varlength_embedded(data, rest_v, idx + 1, (shift + 7) as u32);
        let rest = decode_ext_spec(data, idx + 1, (shift + 7) as u32);
    }
}

/// Varlength round trip: decoding an encoded value recovers the value and
/// consumes exactly its bytes, for every value below 2^28.
pub proof fn lemma_varlength_roundtrip(v: u32)
    requires
        v < 0x10000000,
    ensures
        decode_ext_spec(varlength_spec(v), 0, 0) == (v, varlength_spec(v).len() as int),
{
    let data = varlength_spec(v);
    lemma_or_facts(v);
    assert(data.subrange(0, data.len() as int) =~= data);
    lemma_decode_varlength_embedded(data, v, 0, 0);
}

/// The varlength encoding of a value below 2^28 takes at most four bytes.
pub proof fn lemma_varlength_len(v: u32)
    requires
        v < 0x10000000,
    ensures
        1 <= varlength_spec(v).len() <= 4,
{
    assert(pow128(0) == 1);
    assert(pow128(1) == 128);
    assert(pow128(2) == 16384);
    assert(pow128(3) == 2097152);
    assert(pow128(4) == 0x10000000);
    lemma_varlength_len_small(v, 4);
}

/// The varlength encoding of any 32-bit value takes at most five bytes.
pub proof fn lemma_varlength_len5(v: u32)
    ensures
        1 <= varlength_spec(v).len() <= 5,
{
    assert(pow128(0) == 1);
    assert(pow128(1) == 128);
    assert(pow128(2) == 16384);
    assert(pow128(3) == 2097152);
    assert(pow128(4) == 0x10000000);
    assert(pow128(5) == 0x800000000);
    lemma_varlength_len_small(v, 5);
}

/// Helper bound: a value below 128^k encodes in at most k bytes.
proof fn lemma_varlength_len_small(v: u32, k: nat)
    requires
        1 <= k,
        v < pow128(k),
    ensures
        1 <= varlength_spec(v).len() <= k,
    decreases k,
{
    if v >= 0x80 {
        assert(pow128(0) == 1);
        assert(k >= 2) by {
            if k == 1 {
                assert(pow128(1) == 128 * pow128(0));
            }
        }
        let p = pow128((k - 1) as nat);
        lemma_pow128_pos((k - 1) as nat);
        assert(pow128(k) == 128 * p);
        assert((v as int) / 128 < p) by (nonlinear_arith)
            requires
                v < 128 * p,
                p >= 1,
        ;
        lemma_varlength_len_small(v / 0x80, (k - 1) as nat);
    }
}

/// 128^k is positive.
proof fn lemma_pow128_pos(k: nat)
    ensures
        pow128(k) >= 1,
    decreases k,
{
    if k > 0 {
        lemma_pow128_pos((k - 1) as nat);
    }
}

/// A wider value narrowed to its least significant byte, for byte-wise
/// writers that take one byte at a time.
pub struct IntoLeastSigByte(pub u8);

impl From<IntoLeastSigByte> for u8 {
    /// Unwrap the carried byte.
    fn from(val: IntoLeastSigByte) -> (r: u8) {
        val.0
    }
}

impl vstd::std_specs::convert::FromSpecImpl<IntoLeastSigByte> for u8 {
    open spec fn obeys_from_spec() -> bool {
        true
    }

    open spec fn from_spec(val: IntoLeastSigByte) -> u8 {
        val.0
    }
}

impl From<u8> for IntoLeastSigByte {
    /// A byte carries itself.
    fn from(v: u8) -> (r: IntoLeastSigByte) {
        IntoLeastSigByte(v)
    }
}

impl vstd::std_specs::convert::FromSpecImpl<u8> for IntoLeastSigByte {
    open spec fn obeys_from_spec() -> bool {
        true
    }

    open spec fn from_spec(v: u8) -> IntoLeastSigByte {
        IntoLeastSigByte(v)
    }
}

impl From<u16> for IntoLeastSigByte {
    /// Keep the low byte of a 16-bit value.
    fn from(v: u16) -> (r: IntoLeastSigByte) {
        IntoLeastSigByte(v as u8)
    }
}

impl vstd::std_specs::convert::FromSpecImpl<u16> for IntoLeastSigByte {
    open spec fn obeys_from_spec() -> bool {
        true
    }

    open spec fn from_spec(v: u16) -> IntoLeastSigByte {
        IntoLeastSigByte(v as u8)
    }
}

impl From<u32> for IntoLeastSigByte {
    /// Keep the low byte of a 32-bit value.
    fn from(v: u32) -> (r: IntoLeastSigByte) {
        IntoLeastSigByte(v as u8)
    }
}

impl vstd::std_specs::convert::FromSpecImpl<u32> for IntoLeastSigByte {
    open spec fn obeys_from_spec() -> bool {
        true
    }

    open spec fn from_spec(v: u32) -> IntoLeastSigByte {
        IntoLeastSigByte(v as u8)
    }
}

/// 128 to the power `k`.
pub open spec fn pow128(k: nat) -> int
    decreases k,
{
    if k == 0 {
        1
    } else {
        128 * pow128((k - 1) as nat)
    }
}

} // verus!
